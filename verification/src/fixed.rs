//! Untracked sequences: the drift of the tripod and the motion of the sky
//! between frames.
use crate::flatten::{cell_index, CellMask};
use crate::grid;
use crate::region;
use vstd::prelude::*;

verus! {

/// Downsampling of the coarse correlation stage.
pub const COARSE: usize = 8;

/// Downsampling of the fine correlation stage.
pub const FINE: usize = 2;

/// Most samples used per correlation stage.
pub const MAX_SAMPLES: usize = 150_000;

/// Fewest samples for a stage to be usable.
pub const MIN_SAMPLES: usize = 64;

/// Key of the smallest fraction of landscape, 0.02, for the drift to be
/// measurable.
pub const MIN_FG_FRACTION: i64 = 0x3ca3_d70a;

/// Key of the smallest correlation, 0.25, of an accepted drift.
pub const MIN_NCC: i64 = 0x3e80_0000;

/// Whether a correlation is high enough to believe the drift it was found with.
pub open spec fn is_plausible(ncc: i64) -> bool {
    ncc >= MIN_NCC
}

/// Whether a drift is accepted, by the correlation it was found with.
pub fn drift_accepted(ncc: i64) -> (b: bool)
    ensures
        b == is_plausible(ncc),
{
    ncc >= MIN_NCC
}

/// Whether position `i` of a stage `dw` wide, downsampled by `d`, shows
/// landscape.
pub open spec fn shows_landscape(mask: CellMask, dw: int, d: int, i: int) -> bool {
    let x = i % dw * d + d / 2;
    let y = i / dw * d + d / 2;
    mask.data@[grid::cell(
        cell_index(x, mask.block as int, mask.gw as int),
        cell_index(y, mask.block as int, mask.gh as int),
        mask.gw as int,
    )]
}

/// Every `step`-th entry, from the first on.
pub open spec fn thinned(s: Seq<usize>, step: int) -> Seq<usize> {
    Seq::new(((s.len() + step - 1) / step) as nat, |k: int| s[k * step])
}

/// The smallest step at which no more than `MAX_SAMPLES` of `n` entries are
/// taken.
pub open spec fn step_for(n: int) -> int {
    if n > MAX_SAMPLES {
        (n - 1) / MAX_SAMPLES as int + 1
    } else {
        1
    }
}

proof fn lemma_step_caps(n: int)
    requires
        n >= 0,
    ensures
        step_for(n) >= 1,
        (n + step_for(n) - 1) / step_for(n) <= MAX_SAMPLES,
{
    let s = step_for(n);
    let m = MAX_SAMPLES as int;
    if n > m {
        assert(s * m >= n) by (nonlinear_arith)
            requires
                s == (n - 1) / m + 1,
                m == 150_000,
                n > m,
        ;
    }
    assert((n + s - 1) / s <= m) by (nonlinear_arith)
        requires
            s * m >= n || (s == 1 && n <= m),
            s >= 1,
            m == 150_000,
            n >= 0,
    ;
}

/// The positions of a stage that show landscape, thinned so that there are not
/// too many.
pub open spec fn landscape_of(mask: CellMask, dw: int, dh: int, d: int) -> Seq<usize> {
    let all = region::picked(dw * dh, |i: int| shows_landscape(mask, dw, d, i));
    thinned(all, step_for(all.len() as int))
}

/// The positions a stage is scored over: those that show landscape, thinned to
/// `MAX_SAMPLES` at most.
pub fn landscape_samples(mask: &CellMask, dw: usize, dh: usize, d: usize) -> (out: Vec<usize>)
    requires
        mask.wf(),
        d > 0,
        (dw * dh) * d + d <= usize::MAX,
    ensures
        out@ == landscape_of(*mask, dw as int, dh as int, d as int),
        out@.len() <= MAX_SAMPLES,
{
    let ghost p = |i: int| shows_landscape(*mask, dw as int, d as int, i);
    proof {
        assert(dw * dh <= (dw * dh) * d) by (nonlinear_arith)
            requires
                d >= 1,
                dw * dh >= 0,
        ;
    }
    let n: usize = dw * dh;
    let mut all: Vec<usize> = Vec::new();
    let mut i: usize = 0;
    while i < n
        invariant
            i <= n,
            n == dw * dh,
            mask.wf(),
            d > 0,
            n * d + d <= usize::MAX,
            p == (|i: int| shows_landscape(*mask, dw as int, d as int, i)),
            all@ == region::picked(i as int, p),
        decreases n - i,
    {
        proof {
            if dw == 0 {
                assert(dw * dh == 0) by (nonlinear_arith)
                    requires
                        dw == 0,
                ;
            }
            let (ii, wi) = (i as int, dw as int);
            assert(ii % wi <= ii && ii / wi <= ii) by (nonlinear_arith)
                requires
                    ii >= 0,
                    wi > 0,
            ;
            let (a, b) = (ii % wi, ii / wi);
            assert(0 <= a) by {
                vstd::arithmetic::div_mod::lemma_mod_bound(ii, wi);
            }
            assert(0 <= b) by (nonlinear_arith)
                requires
                    b == ii / wi,
                    ii >= 0,
                    wi > 0,
            ;
            assert(0 <= a * d <= n * d) by (nonlinear_arith)
                requires
                    0 <= a <= n,
                    d > 0,
            ;
            assert(0 <= b * d <= n * d) by (nonlinear_arith)
                requires
                    0 <= b <= n,
                    d > 0,
            ;
        }
        let x: usize = i % dw * d + d / 2;
        let y: usize = i / dw * d + d / 2;
        if mask.at_px(x, y) {
            all.push(i);
        }
        i = i + 1;
    }
    let step: usize = if all.len() > MAX_SAMPLES {
        (all.len() - 1) / MAX_SAMPLES + 1
    } else {
        1
    };
    proof {
        lemma_step_caps(all@.len() as int);
    }
    thin(&all, step)
}

/// Entry `k` is the one `k` steps on.
spec fn taken(all: Seq<usize>, out: Seq<usize>, step: int, k: int) -> bool {
    0 <= k * step < all.len() && out[k] == all[k * step]
}

/// Takes every `step`-th entry.
fn thin(all: &Vec<usize>, step: usize) -> (out: Vec<usize>)
    requires
        step > 0,
    ensures
        out@ == thinned(all@, step as int),
{
    let n: usize = all.len();
    let mut out: Vec<usize> = Vec::new();
    let mut left: usize = 0;
    let mut i: usize = 0;
    assert(0 * step == 0) by (nonlinear_arith);
    while i < n
        invariant
            i <= n,
            n == all@.len(),
            step > 0,
            left < step,
            i + left == out@.len() * step,
            forall|k: int| 0 <= k < out@.len() ==> #[trigger] taken(all@, out@, step as int, k),
        decreases n - i,
    {
        if left == 0 {
            let ghost was = out@;
            out.push(all[i]);
            left = step;
            proof {
                let m = was.len() as int;
                assert((m + 1) * step == m * step + step) by (nonlinear_arith);
                assert(i == m * step);
                assert(0 <= m * step) by (nonlinear_arith)
                    requires
                        0 <= m,
                        0 <= step,
                ;
                assert forall|k: int| 0 <= k < out@.len() implies #[trigger] taken(
                    all@,
                    out@,
                    step as int,
                    k,
                ) by {
                    if k < m {
                        assert(taken(all@, was, step as int, k));
                    }
                }
            }
        }
        left = left - 1;
        i = i + 1;
    }
    proof {
        let (m, s, len) = (out@.len() as int, step as int, n as int);
        assert(len <= m * s < len + s);
        assert((len + s - 1) / s == m) by {
            vstd::arithmetic::div_mod::lemma_fundamental_div_mod_converse(
                len + s - 1,
                s,
                m,
                len + s - 1 - m * s,
            );
        }
        assert forall|k: int| 0 <= k < out@.len() implies #[trigger] out@[k] == thinned(
            all@,
            step as int,
        )[k] by {
            assert(taken(all@, out@, step as int, k));
        }
        assert(out@ =~= thinned(all@, step as int));
    }
    out
}

/// Whether a frame shows landscape enough: of its area, and of the samples of
/// both stages.
pub open spec fn shows_enough(fraction: i64, coarse: int, fine: int) -> bool {
    fraction >= MIN_FG_FRACTION && coarse >= MIN_SAMPLES && fine >= MIN_SAMPLES
}

/// Whether there is enough landscape in the frame to correlate against.
pub fn measurable(fraction: i64, coarse: usize, fine: usize) -> (b: bool)
    ensures
        b == shows_enough(fraction, coarse as int, fine as int),
{
    fraction >= MIN_FG_FRACTION && coarse >= MIN_SAMPLES && fine >= MIN_SAMPLES
}

/// Radius of the coarse search for a drift of up to `search` sensor pixels, in
/// pixels of that stage; at least one.
pub fn coarse_radius(search: usize) -> (r: usize)
    ensures
        search > 0 ==> COARSE * (r - 1) < search <= COARSE * r,
        search == 0 ==> r == 1,
        r >= 1,
        8 * r >= search,
{
    let q: usize = search / COARSE;
    if search % COARSE > 0 {
        q + 1
    } else if q > 1 {
        q
    } else {
        1
    }
}

/// Radius of the fine search: one pixel more than a coarse one covers.
pub fn fine_radius() -> (r: usize)
    ensures
        r == COARSE / FINE + 1,
        2 * (r - 1) == 8,
{
    COARSE / FINE + 1
}

/// Where position `i` of an image `w` by `h` lands when shifted by `(sx, sy)`;
/// none outside.
pub open spec fn shifted(i: int, w: int, h: int, sx: int, sy: int) -> Option<int> {
    let (x, y) = (i % w + sx, i / w + sy);
    if 0 <= x < w && 0 <= y < h {
        Some(grid::cell(x, y, w))
    } else {
        None
    }
}

/// Where a position lands when shifted.
pub fn shift_index(i: usize, w: usize, h: usize, sx: i32, sy: i32) -> (r: Option<usize>)
    requires
        w > 0,
        i < w * h,
        w <= 0x7fff_ffff,
        h <= 0x7fff_ffff,
        w * h <= usize::MAX,
    ensures
        r is Some <==> shifted(i as int, w as int, h as int, sx as int, sy as int) is Some,
        r is Some ==> shifted(i as int, w as int, h as int, sx as int, sy as int) == Some(
            r->0 as int,
        ),
{
    proof {
        grid::lemma_cell_of(i as int, w as int, h as int);
    }
    let x: i64 = (i % w) as i64 + sx as i64;
    let y: i64 = (i / w) as i64 + sy as i64;
    if x < 0 || y < 0 || x >= w as i64 || y >= h as i64 {
        return None;
    }
    proof {
        grid::lemma_cell(x as int, y as int, w as int, h as int);
    }
    Some(y as usize * w + x as usize)
}

/// Whether a place among `n` has one on both sides.
pub open spec fn is_inner(at: int, n: int) -> bool {
    0 < at && at + 1 < n
}

/// Whether the best of `n` scores along an axis has one on both sides, so that
/// it can be refined.
pub fn refinable(at: usize, n: usize) -> (b: bool)
    requires
        n <= usize::MAX - 1,
        at < n,
    ensures
        b == is_inner(at as int, n as int),
{
    at > 0 && at + 1 < n
}

/// The links of the sky chain that lead from one frame to another.
#[derive(Clone, Copy, Debug, PartialEq, Eq, Structural)]
pub struct Chain {
    /// First link, which leads on to the next frame.
    pub from: usize,
    /// One past the last link.
    pub to: usize,
    /// Whether the chain has to be gone backwards.
    pub backwards: bool,
}

/// The earlier and the later of two frames.
pub open spec fn earlier_later(c: usize, f: usize) -> (usize, usize) {
    if c < f {
        (c, f)
    } else {
        (f, c)
    }
}

/// Whether all links between two frames are there.
pub open spec fn chained(links: Seq<bool>, c: usize, f: usize) -> bool {
    let (a, b) = earlier_later(c, f);
    b <= links.len() && forall|k: int| a <= k < b ==> #[trigger] links[k]
}

/// The links between two frames and the direction they are gone in.
pub open spec fn chain_of(c: usize, f: usize) -> Chain {
    Chain { from: earlier_later(c, f).0, to: earlier_later(c, f).1, backwards: f < c }
}

/// The way from frame `c`'s sky to frame `f`'s over the links between
/// consecutive frames; none if any of them is missing. `links[k]` leads from
/// frame `k` to the next.
pub fn sky_between(links: &[bool], c: usize, f: usize) -> (r: Option<Chain>)
    ensures
        c == f ==> r is Some,
        c != f ==> (r is Some <==> chained(links@, c, f)),
        r is Some ==> r->0 == chain_of(c, f),
{
    if c == f {
        return Some(Chain { from: c, to: c, backwards: false });
    }
    let (a, b) = if c < f {
        (c, f)
    } else {
        (f, c)
    };
    if b > links.len() {
        return None;
    }
    let mut k: usize = a;
    while k < b
        invariant
            a <= k <= b <= links@.len(),
            c != f,
            (a, b) == earlier_later(c, f),
            forall|j: int| a <= j < k ==> #[trigger] links@[j],
        decreases b - k,
    {
        if !links[k] {
            return None;
        }
        k = k + 1;
    }
    Some(Chain { from: a, to: b, backwards: f < c })
}

/// The chain between two frames is the same both ways round, only gone in the
/// opposite direction.
pub proof fn law_chain_is_symmetric(links: Seq<bool>, c: usize, f: usize)
    ensures
        chained(links, c, f) == chained(links, f, c),
        earlier_later(c, f) == earlier_later(f, c),
{
}

/// What joins two chains that meet is a chain.
pub proof fn law_chains_join(links: Seq<bool>, a: usize, b: usize, c: usize)
    requires
        a <= b <= c,
        chained(links, a, b),
        chained(links, b, c),
    ensures
        chained(links, a, c),
{
    assert forall|k: int| a <= k < c implies #[trigger] links[k] by {
        if k < b {
            assert(earlier_later(a, b) == (a, b));
        }
    }
}

/// A correlation of a quarter is believed, and nothing below.
pub proof fn law_a_quarter_is_believed(ncc: i64)
    ensures
        is_plausible(ncc) <==> ncc >= crate::order::key_of(0x3e80_0000),
{
}

/// Two percent of the frame and 64 samples in both stages are enough to measure
/// a drift by, and less of any of them is not.
pub proof fn law_enough_landscape(fraction: i64, coarse: int, fine: int)
    ensures
        coarse < 64 || fine < 64 ==> !shows_enough(fraction, coarse, fine),
        fraction < crate::order::key_of(0x3ca3_d70a) ==> !shows_enough(fraction, coarse, fine),
        fraction >= crate::order::key_of(0x3ca3_d70a) && coarse >= 64 && fine >= 64
            ==> shows_enough(fraction, coarse, fine),
{
}

/// A peak can be refined unless it is the first or the last.
pub proof fn law_ends_are_not_refined(at: int, n: int)
    requires
        0 <= at < n,
    ensures
        !is_inner(0, n),
        !is_inner(n - 1, n),
        at != 0 && at != n - 1 ==> is_inner(at, n),
{
}

/// A sample shows landscape if the cell does that the middle of its block of
/// `d` by `d` sensor pixels lies in.
pub proof fn law_samples_look_at_their_cell(
    mask: CellMask,
    dw: int,
    d: int,
    px: int,
    py: int,
    gx: int,
    gy: int,
)
    requires
        mask.wf(),
        d > 0,
        0 <= px < dw,
        0 <= py,
        0 <= gx < mask.gw,
        0 <= gy < mask.gh,
        mask.block * gx <= px * d + d / 2 < mask.block * (gx + 1),
        mask.block * gy <= py * d + d / 2 < mask.block * (gy + 1),
    ensures
        shows_landscape(mask, dw, d, py * dw + px) == mask.data@[gy * mask.gw + gx],
{
    region::lemma_place(px, py, dw);
    let b = mask.block as int;
    let (x, y) = (px * d + d / 2, py * d + d / 2);
    assert(b * (gx + 1) == b * gx + b) by (nonlinear_arith);
    assert(b * (gy + 1) == b * gy + b) by (nonlinear_arith);
    assert(b * gx == gx * b && b * gy == gy * b) by (nonlinear_arith);
    vstd::arithmetic::div_mod::lemma_fundamental_div_mod_converse(x, b, gx, x - b * gx);
    vstd::arithmetic::div_mod::lemma_fundamental_div_mod_converse(y, b, gy, y - b * gy);
}

/// Thinning takes every `step`-th entry, from the first to the last there is.
pub proof fn law_thinning_takes_every_step(s: Seq<usize>, step: int, k: int)
    requires
        step > 0,
    ensures
        0 <= k < thinned(s, step).len() ==> 0 <= k * step < s.len() && thinned(s, step)[k] == s[k
            * step],
        0 <= k && k * step < s.len() ==> k < thinned(s, step).len(),
        step == 1 ==> thinned(s, step) == s,
{
    let n = (s.len() + step - 1) / step;
    vstd::arithmetic::div_mod::lemma_fundamental_div_mod(s.len() + step - 1, step);
    vstd::arithmetic::div_mod::lemma_mod_bound(s.len() + step - 1, step);
    assert(n >= 0) by (nonlinear_arith)
        requires
            n == (s.len() + step - 1) / step,
            step > 0,
    ;
    assert(step * n == n * step) by (nonlinear_arith);
    if 0 <= k < n {
        assert(k * step <= (n - 1) * step) by (nonlinear_arith)
            requires
                k <= n - 1,
                step > 0,
        ;
        assert((n - 1) * step == n * step - step) by (nonlinear_arith);
        assert(k * step >= 0) by (nonlinear_arith)
            requires
                k >= 0,
                step > 0,
        ;
    }
    if 0 <= k && k * step < s.len() && k >= n {
        assert(n * step <= k * step) by (nonlinear_arith)
            requires
                n <= k,
                step > 0,
        ;
    }
    if step == 1 {
        assert(thinned(s, step) =~= s);
    }
}

/// The step is the smallest that leaves at most 150 000 samples.
pub proof fn law_step_is_the_smallest(n: int)
    requires
        n >= 0,
    ensures
        step_for(n) >= 1,
        n <= 150_000 * step_for(n),
        step_for(n) > 1 ==> n > 150_000 * (step_for(n) - 1),
{
}

/// A shifted position is as many columns and rows further as the shift says,
/// and none where that is outside the image.
pub proof fn law_shifts_move_columns_and_rows(
    x: int,
    y: int,
    w: int,
    h: int,
    sx: int,
    sy: int,
)
    requires
        0 <= x < w,
        0 <= y < h,
    ensures
        0 <= x + sx < w && 0 <= y + sy < h ==> shifted(y * w + x, w, h, sx, sy) == Some(
            (y + sy) * w + (x + sx),
        ),
        !(0 <= x + sx < w && 0 <= y + sy < h) ==> shifted(y * w + x, w, h, sx, sy) is None,
        shifted(y * w + x, w, h, 0, 0) == Some(y * w + x),
{
    region::lemma_place(x, y, w);
}

/// A chain names its two frames, the earlier one first, and goes backwards to
/// an earlier frame. Neighbours are chained if the link between them holds, and
/// a chain holds if all of its links do.
pub proof fn law_chains_are_made_of_links(links: Seq<bool>, a: usize, b: usize, k: int)
    requires
        a < b,
    ensures
        chain_of(a, b) == (Chain { from: a, to: b, backwards: false }),
        chain_of(b, a) == (Chain { from: a, to: b, backwards: true }),
        chain_of(a, a) == (Chain { from: a, to: a, backwards: false }),
        chained(links, a, b) && a <= k < b ==> k < links.len() && links[k],
        b <= links.len() && (forall|j: int| a <= j < b ==> #[trigger] links[j]) ==> chained(
            links,
            a,
            b,
        ),
        b > links.len() ==> !chained(links, a, b),
{
}

/// The samples of a stage show landscape, in order and none twice; and where
/// there are no more than 150 000 positions, all that do are taken.
pub proof fn law_samples_show_landscape(mask: CellMask, dw: int, dh: int, d: int, k: int, i: usize)
    requires
        0 <= dw * dh <= usize::MAX,
    ensures
        ({
            let out = landscape_of(mask, dw, dh, d);
            &&& 0 <= k < out.len() ==> out[k] < dw * dh && shows_landscape(
                mask,
                dw,
                d,
                out[k] as int,
            )
            &&& 0 <= k < out.len() - 1 ==> out[k] < out[k + 1]
            &&& dw * dh <= 150_000 ==> (out.contains(i) <==> i < dw * dh && shows_landscape(
                mask,
                dw,
                d,
                i as int,
            ))
        }),
{
    let p = |i: int| shows_landscape(mask, dw, d, i);
    let all = region::picked(dw * dh, p);
    region::lemma_picked(dw * dh, p);
    let step = step_for(all.len() as int);
    let out = landscape_of(mask, dw, dh, d);
    assert(out == thinned(all, step));
    law_thinning_takes_every_step(all, step, k);
    law_thinning_takes_every_step(all, step, k + 1);
    if 0 <= k < out.len() {
        assert(p(all[k * step] as int));
        assert((k + 1) * step == k * step + step) by (nonlinear_arith);
    }
    if dw * dh <= 150_000 {
        assert(step == 1);
        assert(out == all);
        if out.contains(i) {
            let j = choose|j: int| 0 <= j < all.len() && all[j] == i;
            assert(p(all[j] as int));
        }
        if i < dw * dh && p(i as int) {
            assert(all.contains(i));
        }
    }
}

} // verus!
