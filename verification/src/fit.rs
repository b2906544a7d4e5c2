//! What takes part in a fit: which cells, which frames, which nodes of a grid,
//! and how gaps in a profile are closed.
use crate::flatten;
use crate::order;
use crate::region;
use vstd::prelude::*;

verus! {

/// Node spacing, in cells, of the anomaly surface of a tracked sequence.
pub const FRAME_SURF_STEP_CELLS: usize = 8;

/// Smoothness of that surface.
pub const FRAME_SURF_LAMBDA: u32 = 100;

/// Node spacing, in cells, of the anomaly surface of an untracked sequence.
pub const FIXED_FRAME_SURF_STEP_CELLS: usize = 32;

/// Smoothness of that surface: ten times stiffer, so that it cannot follow
/// the sky that drifts across the sensor.
pub const FIXED_FRAME_SURF_LAMBDA: u32 = 1000;

/// Key of the sky level over the session's, 1.6, above which a frame is in
/// strong twilight.
pub const FRAME_BRIGHT_RATIO: i64 = 0x3fcc_cccd;

/// How much freedom the anomaly surface of a frame is given.
#[derive(Clone, Copy, Debug, PartialEq, Eq, Structural)]
pub enum AnomalyMode {
    /// That of a tracked sequence, whose sky cancels out in the anomaly.
    Full,
    /// Only structure far broader than the Milky Way.
    Coarse,
    /// No spatial anomaly at all.
    Off,
}

/// How that freedom is asked for on the command line.
#[derive(Clone, Copy, Debug, PartialEq, Eq, Structural)]
pub enum AnomalyArg {
    Coarse,
    Off,
    Full,
}

impl From<AnomalyArg> for AnomalyMode {
    fn from(a: AnomalyArg) -> (m: Self) {
        match a {
            AnomalyArg::Coarse => AnomalyMode::Coarse,
            AnomalyArg::Off => AnomalyMode::Off,
            AnomalyArg::Full => AnomalyMode::Full,
        }
    }
}

impl vstd::std_specs::convert::FromSpecImpl<AnomalyArg> for AnomalyMode {
    open spec fn obeys_from_spec() -> bool {
        true
    }

    open spec fn from_spec(a: AnomalyArg) -> AnomalyMode {
        match a {
            AnomalyArg::Coarse => AnomalyMode::Coarse,
            AnomalyArg::Off => AnomalyMode::Off,
            AnomalyArg::Full => AnomalyMode::Full,
        }
    }
}

/// How the anomaly of a frame is fitted: as asked for on an untracked
/// sequence.
pub open spec fn mode_for(untracked: bool, asked: AnomalyArg) -> AnomalyMode {
    if untracked {
        match asked {
            AnomalyArg::Coarse => AnomalyMode::Coarse,
            AnomalyArg::Off => AnomalyMode::Off,
            AnomalyArg::Full => AnomalyMode::Full,
        }
    } else {
        AnomalyMode::Full
    }
}

/// The freedom of a run: what was asked for on an untracked sequence, and the
/// full surface on a tracked one.
pub fn anomaly_mode(untracked: bool, asked: AnomalyArg) -> (m: AnomalyMode)
    ensures
        m == mode_for(untracked, asked),
{
    if untracked {
        AnomalyMode::from(asked)
    } else {
        AnomalyMode::Full
    }
}

/// How the anomaly of a frame is fitted.
#[derive(Clone, Copy, Debug, PartialEq, Eq, Structural)]
pub struct SurfacePlan {
    /// Node spacing in cells.
    pub step_cells: usize,
    pub lambda: u32,
    /// Strong twilight: a least squares surface without rejection, a tenth as
    /// stiff, and no gain on the fine structure.
    pub bright: bool,
}

/// The plan of a mode, none where there is nothing to fit.
pub open spec fn plan_for(mode: AnomalyMode, ratio: i64) -> Option<SurfacePlan> {
    let bright = ratio > FRAME_BRIGHT_RATIO;
    match mode {
        AnomalyMode::Off => None,
        AnomalyMode::Full => Some(
            SurfacePlan { step_cells: FRAME_SURF_STEP_CELLS, lambda: FRAME_SURF_LAMBDA, bright },
        ),
        AnomalyMode::Coarse => Some(
            SurfacePlan {
                step_cells: FIXED_FRAME_SURF_STEP_CELLS,
                lambda: FIXED_FRAME_SURF_LAMBDA,
                bright,
            },
        ),
    }
}

/// How the anomaly of a frame is fitted; none where it is left out. `ratio`
/// is the key of the frame's sky level over the session's.
pub fn surface_plan(mode: AnomalyMode, ratio: i64) -> (p: Option<SurfacePlan>)
    ensures
        p == plan_for(mode, ratio),
{
    let bright: bool = ratio > FRAME_BRIGHT_RATIO;
    match mode {
        AnomalyMode::Off => None,
        AnomalyMode::Full => Some(
            SurfacePlan { step_cells: FRAME_SURF_STEP_CELLS, lambda: FRAME_SURF_LAMBDA, bright },
        ),
        AnomalyMode::Coarse => Some(
            SurfacePlan {
                step_cells: FIXED_FRAME_SURF_STEP_CELLS,
                lambda: FIXED_FRAME_SURF_LAMBDA,
                bright,
            },
        ),
    }
}

/// Whether a cell is sky in a frame: real data in the frame and in the
/// session's median, and no foreground.
pub open spec fn sky_cell(valid: Seq<bool>, ref_valid: Seq<bool>, mask: Seq<bool>, i: int) -> bool {
    &&& valid.len() == 0 || valid[i]
    &&& ref_valid.len() == 0 || ref_valid[i]
    &&& mask.len() == 0 || !mask[i]
}

/// Which of `n` cells are sky. An empty list of flags leaves no cell out.
pub fn sky_cells(valid: &[bool], ref_valid: &[bool], mask: &[bool], n: usize) -> (out: Vec<bool>)
    requires
        valid@.len() == 0 || valid@.len() == n,
        ref_valid@.len() == 0 || ref_valid@.len() == n,
        mask@.len() == 0 || mask@.len() == n,
    ensures
        out@ == Seq::new(n as nat, |i: int| sky_cell(valid@, ref_valid@, mask@, i)),
{
    let mut out: Vec<bool> = Vec::new();
    let mut i: usize = 0;
    while i < n
        invariant
            i <= n,
            valid@.len() == 0 || valid@.len() == n,
            ref_valid@.len() == 0 || ref_valid@.len() == n,
            mask@.len() == 0 || mask@.len() == n,
            out@ =~= Seq::new(i as nat, |j: int| sky_cell(valid@, ref_valid@, mask@, j)),
        decreases n - i,
    {
        out.push(
            (valid.len() == 0 || valid[i]) && (ref_valid.len() == 0 || ref_valid[i]) && (mask.len()
                == 0 || !mask[i]),
        );
        i = i + 1;
    }
    out
}

/// Whether a residual lies within bounds, these included.
pub open spec fn lies_within(v: i64, lo: i64, hi: i64) -> bool {
    lo <= v <= hi
}

/// Which cells stay in a robust fit: those allowed in whose residual lies
/// between two limits, both included.
pub fn within(ok: &[bool], res: &[i64], lo: i64, hi: i64) -> (out: Vec<bool>)
    requires
        ok@.len() == res@.len(),
    ensures
        out@ == Seq::new(ok@.len(), |i: int| ok@[i] && lies_within(res@[i], lo, hi)),
{
    let mut out: Vec<bool> = Vec::new();
    let mut i: usize = 0;
    while i < ok.len()
        invariant
            i <= ok@.len(),
            ok@.len() == res@.len(),
            out@ =~= Seq::new(i as nat, |j: int| ok@[j] && lies_within(res@[j], lo, hi)),
        decreases ok@.len() - i,
    {
        out.push(ok[i] && lo <= res[i] && res[i] <= hi);
        i = i + 1;
    }
    out
}

/// The keys up to a limit, in their order.
pub open spec fn up_to(keys: Seq<i64>, hi: i64) -> Seq<i64>
    decreases keys.len(),
{
    if keys.len() == 0 {
        Seq::empty()
    } else if keys.last() <= hi {
        up_to(keys.drop_last(), hi).push(keys.last())
    } else {
        up_to(keys.drop_last(), hi)
    }
}

/// Whether enough values are left of `all` for a median of their own.
pub open spec fn are_enough(left: int, all: int) -> bool {
    left > 0 && left >= all / 2
}

/// The median once the keys above a limit are cut off; none where the cut
/// would leave less than half of them, or nothing.
pub fn clipped_median(keys: &[i64], hi: i64) -> (m: Option<i64>)
    ensures
        m is Some <==> are_enough(up_to(keys@, hi).len() as int, keys@.len() as int),
        m is Some ==> order::is_median(up_to(keys@, hi), m),
{
    let mut v: Vec<i64> = Vec::new();
    let mut i: usize = 0;
    while i < keys.len()
        invariant
            i <= keys@.len(),
            v@ == up_to(keys@.take(i as int), hi),
        decreases keys@.len() - i,
    {
        assert(keys@.take(i + 1).drop_last() =~= keys@.take(i as int));
        if keys[i] <= hi {
            v.push(keys[i]);
        }
        i = i + 1;
    }
    assert(keys@.take(i as int) =~= keys@);
    if v.len() < keys.len() / 2 {
        return None;
    }
    order::median(v.as_slice())
}

/// The frames whose value of a cell enters its slope: every `step`-th one
/// from `offset` on, if it holds data, is not masked and has a sky.
pub open spec fn slope_frame(
    usable: Seq<bool>,
    levels: Seq<i64>,
    step: int,
    offset: int,
    f: int,
) -> bool {
    &&& f >= offset
    &&& (f - offset) % step == 0
    &&& usable[f]
    &&& levels[f] > 0
}

/// Whether that many frames are enough for a slope.
pub open spec fn make_a_slope(frames: int) -> bool {
    frames >= flatten::FLAT_MIN_SAMPLES
}

/// The frames whose value of a cell enters its slope; none where there are too
/// few of them. `usable` says of each frame whether the cell holds data in it
/// and is not masked.
pub fn slope_samples(usable: &[bool], levels: &[i64], step: usize, offset: usize) -> (r: Option<
    Vec<usize>,
>)
    requires
        usable@.len() == levels@.len(),
        step > 0,
    ensures
        ({
            let all = region::picked(
                usable@.len() as int,
                |f: int| slope_frame(usable@, levels@, step as int, offset as int, f),
            );
            &&& r is Some <==> make_a_slope(all.len() as int)
            &&& r is Some ==> r->0@ == all
        }),
{
    let ghost p = |f: int| slope_frame(usable@, levels@, step as int, offset as int, f);
    let mut out: Vec<usize> = Vec::new();
    let mut f: usize = 0;
    while f < usable.len()
        invariant
            f <= usable@.len(),
            usable@.len() == levels@.len(),
            step > 0,
            p == (|f: int| slope_frame(usable@, levels@, step as int, offset as int, f)),
            out@ == region::picked(f as int, p),
        decreases usable@.len() - f,
    {
        if f >= offset && (f - offset) % step == 0 && usable[f] && levels[f] > 0 {
            out.push(f);
        }
        f = f + 1;
    }
    if out.len() < flatten::FLAT_MIN_SAMPLES {
        None
    } else {
        Some(out)
    }
}

/// Whether a session has frames enough for two halves and a sky that moved.
pub open spec fn has_a_lever(frames: int, lever: i64) -> bool {
    frames >= 2 * flatten::FLAT_MIN_SAMPLES && lever >= flatten::FLAT_MIN_LEVER
}

/// Whether the session gave a lever to measure the multiplicative field with:
/// frames enough for two halves and a sky level that moved.
pub fn flat_measurable(frames: usize, lever: i64) -> (b: bool)
    ensures
        b == has_a_lever(frames as int, lever),
{
    frames >= 2 * flatten::FLAT_MIN_SAMPLES && lever >= flatten::FLAT_MIN_LEVER
}

/// Whether the two halves of a session agree on a field.
pub open spec fn halves_agree(compared: int, cells: int, spread: i64, disagreement: i64) -> bool {
    compared >= cells / 4 && spread > flatten::FLAT_MIN_SPREAD && disagreement
        <= flatten::FLAT_MAX_DISAGREEMENT
}

/// Whether the field is used: the two halves of the session were compared on
/// a quarter of the cells at least, the field has a range, and the halves
/// agree.
pub fn flat_usable(compared: usize, cells: usize, spread: i64, disagreement: i64) -> (b: bool)
    ensures
        b == halves_agree(compared as int, cells as int, spread, disagreement),
{
    compared >= cells / 4 && spread > flatten::FLAT_MIN_SPREAD && disagreement
        <= flatten::FLAT_MAX_DISAGREEMENT
}

/// The entry that stands at place `i` of a sequence padded by its ends.
pub open spec fn padded_from(i: int, r: int, n: int) -> int {
    if i < r {
        0
    } else if i - r < n {
        i - r
    } else {
        n - 1
    }
}

/// The source of entry `i` of a sequence padded by `r` copies of its ends.
pub fn replicated(i: usize, r: usize, n: usize) -> (k: usize)
    requires
        n > 0,
    ensures
        k == padded_from(i as int, r as int, n as int),
{
    if i < r {
        0
    } else if i - r < n {
        i - r
    } else {
        n - 1
    }
}

/// The node before a coordinate, of `n` every `step`; the last but one beyond
/// them.
pub open spec fn node_before(x: int, step: int, n: int) -> int {
    if x / step < n - 1 {
        x / step
    } else {
        n - 2
    }
}

/// The four nodes around a point of a grid with nodes every `step`, as indices
/// into a grid `nx` by `ny`, and how far the point lies beyond the first of
/// them. Beyond the last node the last pair is kept.
pub fn nodes(x: usize, y: usize, step: usize, nx: usize, ny: usize) -> (r: (
    [usize; 4],
    (usize, usize),
))
    requires
        step > 0,
        nx >= 2,
        ny >= 2,
        nx * ny <= usize::MAX,
    ensures
        ({
            let i = node_before(x as int, step as int, nx as int);
            let j = node_before(y as int, step as int, ny as int);
            &&& r.0@ == seq![
                (j * nx + i) as usize,
                (j * nx + i + 1) as usize,
                ((j + 1) * nx + i) as usize,
                ((j + 1) * nx + i + 1) as usize,
            ]
            &&& forall|k: int| 0 <= k < 4 ==> (#[trigger] r.0@[k]) < nx * ny
            &&& r.1.0 == x - i * step
            &&& r.1.1 == y - j * step
        }),
{
    let ci: usize = x / step;
    let cj: usize = y / step;
    let i: usize = if ci < nx - 1 {
        ci
    } else {
        nx - 2
    };
    let j: usize = if cj < ny - 1 {
        cj
    } else {
        ny - 2
    };
    proof {
        crate::grid::lemma_cell(i as int, j as int, nx as int, ny as int);
        crate::grid::lemma_cell(i + 1, j as int, nx as int, ny as int);
        crate::grid::lemma_cell(i as int, j + 1, nx as int, ny as int);
        crate::grid::lemma_cell(i + 1, j + 1, nx as int, ny as int);
        let (xi, s, c) = (x as int, step as int, ci as int);
        assert(c * s <= xi) by (nonlinear_arith)
            requires
                c == xi / s,
                s > 0,
        ;
        assert(i * s <= c * s) by (nonlinear_arith)
            requires
                i <= c,
                s > 0,
        ;
        let (yi, d) = (y as int, cj as int);
        assert(d * s <= yi) by (nonlinear_arith)
            requires
                d == yi / s,
                s > 0,
        ;
        assert(j * s <= d * s) by (nonlinear_arith)
            requires
                j <= d,
                s > 0,
        ;
        assert(0 <= i * s) by (nonlinear_arith)
            requires
                i >= 0,
                s > 0,
        ;
        assert(0 <= j * s) by (nonlinear_arith)
            requires
                j >= 0,
                s > 0,
        ;
    }
    let a: usize = j * nx + i;
    let b: usize = (j + 1) * nx + i;
    let n: [usize; 4] = [a, a + 1, b, b + 1];
    (n, (x - i * step, y - j * step))
}

/// How an entry of a profile gets its value.
#[derive(Clone, Copy, Debug, PartialEq, Eq, Structural)]
pub enum Source {
    /// No entry is known: zero.
    Zero,
    /// It is known.
    Known,
    /// That of the nearest known entry, beyond the ends.
    Same(usize),
    /// On the line between the nearest known entries on both sides.
    Between(usize, usize),
}

/// The last known entry before `i`.
pub open spec fn known_before(known: Seq<bool>, i: int) -> Option<int>
    decreases i,
{
    if i <= 0 {
        None
    } else if known[i - 1] {
        Some(i - 1)
    } else {
        known_before(known, i - 1)
    }
}

/// The first known entry from `i` on.
pub open spec fn known_from(known: Seq<bool>, i: int) -> Option<int>
    decreases known.len() - i,
{
    if i >= known.len() {
        None
    } else if known[i] {
        Some(i)
    } else {
        known_from(known, i + 1)
    }
}

/// How entry `i` of a profile gets its value.
pub open spec fn source_of(known: Seq<bool>, i: int) -> Source {
    if known[i] {
        Source::Known
    } else {
        match (known_before(known, i), known_from(known, i)) {
            (Some(a), Some(b)) => Source::Between(a as usize, b as usize),
            (Some(a), None) => Source::Same(a as usize),
            (None, Some(b)) => Source::Same(b as usize),
            (None, None) => Source::Zero,
        }
    }
}

/// Closes the gaps of a profile: linear between known neighbours, constant
/// beyond the ends.
pub fn fill_nan(known: &[bool]) -> (out: Vec<Source>)
    ensures
        out@ == Seq::new(known@.len(), |i: int| source_of(known@, i)),
{
    let n: usize = known.len();
    // The first known entry from each position on.
    let mut next: Vec<Option<usize>> = Vec::new();
    let mut i: usize = 0;
    while i < n
        invariant
            i <= n,
            n == known@.len(),
            next@.len() == i,
        decreases n - i,
    {
        next.push(None);
        i = i + 1;
    }
    let mut ahead: Option<usize> = None;
    let mut j: usize = n;
    while j > 0
        invariant
            j <= n,
            n == known@.len() == next@.len(),
            ahead is Some <==> known_from(known@, j as int) is Some,
            ahead is Some ==> known_from(known@, j as int) == Some(ahead->0 as int),
            forall|k: int|
                j <= k < n ==> (#[trigger] next@[k] is Some <==> known_from(known@, k) is Some) && (
                next@[k] is Some ==> known_from(known@, k) == Some(next@[k]->0 as int)),
        decreases j,
    {
        j = j - 1;
        if known[j] {
            ahead = Some(j);
        }
        next.set(j, ahead);
    }
    let mut out: Vec<Source> = Vec::new();
    let mut behind: Option<usize> = None;
    let mut k: usize = 0;
    while k < n
        invariant
            k <= n,
            n == known@.len() == next@.len(),
            behind is Some <==> known_before(known@, k as int) is Some,
            behind is Some ==> known_before(known@, k as int) == Some(behind->0 as int),
            forall|m: int|
                0 <= m < n ==> (#[trigger] next@[m] is Some <==> known_from(known@, m) is Some) && (
                next@[m] is Some ==> known_from(known@, m) == Some(next@[m]->0 as int)),
            out@ =~= Seq::new(k as nat, |m: int| source_of(known@, m)),
        decreases n - k,
    {
        if known[k] {
            out.push(Source::Known);
            behind = Some(k);
        } else {
            let s: Source = match (behind, next[k]) {
                (Some(a), Some(b)) => Source::Between(a, b),
                (Some(a), None) => Source::Same(a),
                (None, Some(b)) => Source::Same(b),
                (None, None) => Source::Zero,
            };
            out.push(s);
        }
        k = k + 1;
    }
    out
}

/// A closed profile rests on known entries only, and has no gap where any
/// entry is known.
pub proof fn law_gaps_are_closed(known: Seq<bool>, i: int)
    requires
        0 <= i < known.len(),
        known.len() <= usize::MAX,
    ensures
        match source_of(known, i) {
            Source::Zero => forall|k: int| 0 <= k < known.len() ==> !(#[trigger] known[k]),
            Source::Known => known[i],
            Source::Same(a) => a < known.len() && known[a as int],
            Source::Between(a, b) => a < i < b && b < known.len() && known[a as int]
                && known[b as int],
        },
{
    lemma_before(known, i);
    lemma_from(known, i);
}

proof fn lemma_before(known: Seq<bool>, i: int)
    requires
        0 <= i <= known.len(),
    ensures
        match known_before(known, i) {
            Some(a) => 0 <= a < i && known[a],
            None => forall|k: int| 0 <= k < i ==> !(#[trigger] known[k]),
        },
    decreases i,
{
    if i > 0 && !known[i - 1] {
        lemma_before(known, i - 1);
    }
}

proof fn lemma_from(known: Seq<bool>, i: int)
    requires
        0 <= i <= known.len(),
    ensures
        match known_from(known, i) {
            Some(b) => i <= b < known.len() && known[b],
            None => forall|k: int| i <= k < known.len() ==> !(#[trigger] known[k]),
        },
    decreases known.len() - i,
{
    if i < known.len() && !known[i] {
        lemma_from(known, i + 1);
    }
}

/// Position `d` of the window around entry `i`, around the end of a circular
/// profile; none beyond the ends of one that is not.
pub open spec fn window_at(i: int, d: int, half: int, n: int, wrap: bool) -> Option<int> {
    let k = i + d - half;
    if wrap {
        Some(k % n)
    } else if 0 <= k < n {
        Some(k)
    } else {
        None
    }
}

/// The known entries in the first `m` positions of a window.
pub open spec fn window_of(
    known: Seq<bool>,
    i: int,
    half: int,
    wrap: bool,
    m: int,
) -> Seq<usize>
    decreases m,
{
    if m <= 0 {
        Seq::empty()
    } else {
        let front = window_of(known, i, half, wrap, m - 1);
        match window_at(i, m - 1, half, known.len() as int, wrap) {
            Some(k) => if known[k] {
                front.push(k as usize)
            } else {
                front
            },
            None => front,
        }
    }
}

/// The known entries a moving median takes around entry `i`, in order of
/// position; a circular profile may give an entry more than once.
pub fn median_window(known: &[bool], i: usize, window: usize, wrap: bool) -> (out: Vec<usize>)
    requires
        i < known@.len(),
        known@.len() + window <= isize::MAX,
    ensures
        out@ == window_of(known@, i as int, window as int / 2, wrap, window as int),
{
    let n: usize = known.len();
    let half: usize = window / 2;
    let mut out: Vec<usize> = Vec::new();
    let mut d: usize = 0;
    while d < window
        invariant
            d <= window,
            i < n,
            n == known@.len(),
            half == window as int / 2,
            n + window <= isize::MAX,
            out@ == window_of(known@, i as int, half as int, wrap, d as int),
        decreases window - d,
    {
        let k: isize = i as isize + d as isize - half as isize;
        let at: Option<usize> = if wrap {
            Some(wrapped(k, n))
        } else if k >= 0 && (k as usize) < n {
            Some(k as usize)
        } else {
            None
        };
        if let Some(x) = at {
            if known[x] {
                out.push(x);
            }
        }
        d = d + 1;
    }
    out
}

/// A position of a circular sequence of length `n`.
fn wrapped(k: isize, n: usize) -> (r: usize)
    requires
        n > 0,
        n <= isize::MAX,
        k > isize::MIN,
    ensures
        r == k as int % n as int,
{
    if k >= 0 {
        (k as usize) % n
    } else {
        let back: usize = ((-(k + 1)) as usize) % n;
        proof {
            let q = (-(k as int + 1)) / n as int;
            let r = n - 1 - back;
            vstd::arithmetic::div_mod::lemma_fundamental_div_mod(-(k as int + 1), n as int);
            assert(k as int == (-q - 1) * n + r) by (nonlinear_arith)
                requires
                    -(k as int + 1) == n * q + back,
                    r == n - 1 - back,
            ;
            vstd::arithmetic::div_mod::lemma_fundamental_div_mod_converse(
                k as int,
                n as int,
                -q - 1,
                r as int,
            );
        }
        n - 1 - back
    }
}

/// A tracked sequence always has its anomalies fitted in full, an untracked one
/// as it is asked for.
pub proof fn law_modes_are_for_untracked_sequences(asked: AnomalyArg)
    ensures
        mode_for(false, asked) is Full,
        asked is Coarse <==> mode_for(true, asked) is Coarse,
        asked is Off <==> mode_for(true, asked) is Off,
        asked is Full <==> mode_for(true, asked) is Full,
{
}

/// A coarse fit has four times the spacing of a full one and ten times its
/// smoothing, so that it follows broad structure only; without a fit there is
/// no plan. A frame is bright from 1.6 times the session's sky on.
pub proof fn law_coarse_fits_are_coarser(ratio: i64)
    ensures
        plan_for(AnomalyMode::Off, ratio) is None,
        plan_for(AnomalyMode::Full, ratio) matches Some(p) && p.step_cells == 8 && p.lambda == 100
            && p.bright == (ratio > order::key_of(0x3fcc_cccd)),
        plan_for(AnomalyMode::Coarse, ratio) matches Some(p) && p.step_cells == 32 && p.lambda
            == 1000 && p.bright == (ratio > order::key_of(0x3fcc_cccd)),
{
}

/// A cell is sky where both maps hold data and no foreground stands; an empty
/// list says nothing against any cell.
pub proof fn law_sky_has_data_and_no_foreground(
    valid: Seq<bool>,
    ref_valid: Seq<bool>,
    mask: Seq<bool>,
    i: int,
)
    requires
        0 <= i < valid.len(),
        0 <= i < ref_valid.len(),
        0 <= i < mask.len(),
    ensures
        !valid[i] ==> !sky_cell(valid, ref_valid, mask, i),
        !ref_valid[i] ==> !sky_cell(valid, ref_valid, mask, i),
        mask[i] ==> !sky_cell(valid, ref_valid, mask, i),
        valid[i] && ref_valid[i] && !mask[i] ==> sky_cell(valid, ref_valid, mask, i),
        sky_cell(Seq::<bool>::empty(), ref_valid, mask, i) == (ref_valid[i] && !mask[i]),
        sky_cell(valid, Seq::<bool>::empty(), mask, i) == (valid[i] && !mask[i]),
        sky_cell(valid, ref_valid, Seq::<bool>::empty(), i) == (valid[i] && ref_valid[i]),
{
}

/// The bounds themselves are within, and what is further out than something
/// outside is outside too.
pub proof fn law_bounds_are_within(v: i64, lo: i64, hi: i64)
    requires
        lo <= hi,
    ensures
        lies_within(lo, lo, hi) && lies_within(hi, lo, hi),
        lo <= v <= hi ==> lies_within(v, lo, hi),
        v > hi ==> !lies_within(v, lo, hi),
        v < lo ==> !lies_within(v, lo, hi),
{
}

/// Clipping keeps the values up to the bound, in their order. The result lists
/// their places.
pub proof fn law_clipping_keeps_what_is_below(keys: Seq<i64>, hi: i64) -> (at: Seq<int>)
    ensures
        up_to(keys, hi).len() == at.len(),
        forall|j: int|
            0 <= j < at.len() ==> 0 <= #[trigger] at[j] < keys.len() && keys[at[j]] <= hi && up_to(
                keys,
                hi,
            )[j] == keys[at[j]],
        forall|j: int, l: int| 0 <= j < l < at.len() ==> #[trigger] at[j] < #[trigger] at[l],
        forall|k: int| 0 <= k < keys.len() && #[trigger] keys[k] <= hi ==> at.contains(k),
    decreases keys.len(),
{
    if keys.len() == 0 {
        Seq::empty()
    } else {
        let n = keys.len() - 1;
        let s = keys.drop_last();
        let front = law_clipping_keeps_what_is_below(s, hi);
        let at = if keys.last() <= hi {
            front.push(n)
        } else {
            front
        };
        assert forall|j: int| 0 <= j < at.len() implies 0 <= #[trigger] at[j] < keys.len()
            && keys[at[j]] <= hi && up_to(keys, hi)[j] == keys[at[j]] by {
            if j < front.len() {
                assert(at[j] == front[j] && s[front[j]] == keys[at[j]]);
            }
        }
        assert forall|k: int| 0 <= k < keys.len() && #[trigger] keys[k] <= hi implies at.contains(
            k,
        ) by {
            if k < n {
                assert(s[k] == keys[k]);
                let j = choose|j: int| 0 <= j < front.len() && front[j] == k;
                assert(at[j] == k);
            } else {
                assert(at[front.len() as int] == k);
            }
        }
        at
    }
}

/// Half of the values are enough for a median of their own, but none are not.
pub proof fn law_half_is_enough(left: int, all: int)
    requires
        0 <= left <= all,
    ensures
        left > 0 && 2 * left >= all ==> are_enough(left, all),
        2 * left < all - 1 ==> !are_enough(left, all),
        !are_enough(0, all),
{
}

/// The frames of a slope are every `step`-th one from the first on, those of
/// them that hold data and have a sky.
pub proof fn law_slopes_take_every_step(
    usable: Seq<bool>,
    levels: Seq<i64>,
    step: int,
    offset: int,
    k: int,
    d: int,
)
    requires
        step > 0,
        k >= 0,
    ensures
        slope_frame(usable, levels, step, offset, offset + k * step) <==> usable[offset + k * step]
            && levels[offset + k * step] > 0,
        0 < d < step ==> !slope_frame(usable, levels, step, offset, offset + k * step + d),
        forall|f: int| f < offset ==> !#[trigger] slope_frame(usable, levels, step, offset, f),
{
    vstd::arithmetic::div_mod::lemma_mod_multiples_basic(k, step);
    assert(k * step >= 0) by (nonlinear_arith)
        requires
            k >= 0,
            step > 0,
    ;
    if 0 < d < step {
        vstd::arithmetic::div_mod::lemma_fundamental_div_mod_converse(k * step + d, step, k, d);
    }
}

/// A slope takes twelve frames, a field twice as many and a sky that moved by a
/// quarter; it is used if a quarter of the cells could be compared, there is
/// something to it, and the halves differ by a fifth of it at most.
pub proof fn law_fields_take_evidence(
    frames: int,
    lever: i64,
    compared: int,
    cells: int,
    spread: i64,
    disagreement: i64,
)
    requires
        cells >= 0,
    ensures
        make_a_slope(frames) <==> frames >= 12,
        has_a_lever(frames, lever) <==> frames >= 24 && lever >= order::key_of(0x3fa0_0000),
        halves_agree(compared, cells, spread, disagreement) ==> 4 * compared >= cells - 3 && spread
            > order::key_of(0x3586_37bd) && disagreement <= order::key_of(0x3e4c_cccd),
        4 * compared >= cells && spread > order::key_of(0x3586_37bd) && disagreement
            <= order::key_of(0x3e4c_cccd) ==> halves_agree(compared, cells, spread, disagreement),
{
}

/// Padding repeats the ends: of all entries it takes the one nearest to the
/// place.
pub proof fn law_padding_takes_the_nearest(i: int, r: int, n: int, m: int)
    requires
        i >= 0,
        r >= 0,
        0 <= m < n,
    ensures
        0 <= padded_from(i, r, n) < n,
        r <= i < r + n ==> padded_from(i, r, n) == i - r,
        ({
            let (a, b) = (padded_from(i, r, n) - (i - r), m - (i - r));
            (if a < 0 {
                -a
            } else {
                a
            }) <= (if b < 0 {
                -b
            } else {
                b
            })
        }),
{
}

/// A coordinate lies between its two nodes, and beyond the last pair the last
/// pair is kept.
pub proof fn law_points_lie_between_their_nodes(x: int, step: int, n: int)
    requires
        x >= 0,
        step > 0,
        n >= 2,
    ensures
        0 <= node_before(x, step, n) < n - 1,
        step * node_before(x, step, n) <= x,
        x < step * (n - 1) ==> x < step * (node_before(x, step, n) + 1),
        x >= step * (n - 1) ==> node_before(x, step, n) == n - 2,
{
    let q = x / step;
    vstd::arithmetic::div_mod::lemma_fundamental_div_mod(x, step);
    vstd::arithmetic::div_mod::lemma_mod_bound(x, step);
    assert(q >= 0) by (nonlinear_arith)
        requires
            x >= 0,
            step > 0,
            q == x / step,
    ;
    assert(step * (q + 1) == step * q + step) by (nonlinear_arith);
    if q < n - 1 {
        assert(step * (q + 1) <= step * (n - 1)) by (nonlinear_arith)
            requires
                q + 1 <= n - 1,
                step > 0,
        ;
    } else {
        assert(step * (n - 2) <= step * q && step * (n - 1) <= step * q) by (nonlinear_arith)
            requires
                n - 1 <= q,
                step > 0,
        ;
    }
}

/// A gap is filled in from the nearest known entries: no known one lies between
/// it and what it is filled in from.
pub proof fn law_gaps_look_no_further_than_needed(known: Seq<bool>, i: int, k: int)
    requires
        0 <= i < known.len(),
        known.len() <= usize::MAX,
        0 <= k < known.len(),
        known[k],
    ensures
        match source_of(known, i) {
            Source::Zero => false,
            Source::Known => known[i],
            Source::Same(a) => known[a as int] && !known[i] && (a < i ==> k <= a) && (a > i ==> k
                >= a),
            Source::Between(a, b) => !known[i] && known[a as int] && known[b as int] && (k <= a || k
                >= b),
        },
{
    lemma_before(known, i);
    lemma_from(known, i);
    lemma_nearest_before(known, i, k);
    lemma_nearest_from(known, i, k);
}

proof fn lemma_nearest_before(known: Seq<bool>, i: int, k: int)
    requires
        0 <= i <= known.len(),
        0 <= k < known.len(),
        known[k],
    ensures
        known_before(known, i) matches Some(a) ==> k <= a || k >= i,
    decreases i,
{
    if i > 0 && !known[i - 1] {
        lemma_nearest_before(known, i - 1, k);
    }
}

proof fn lemma_nearest_from(known: Seq<bool>, i: int, k: int)
    requires
        0 <= i <= known.len(),
        0 <= k < known.len(),
        known[k],
    ensures
        known_from(known, i) matches Some(b) ==> k >= b || k < i,
    decreases known.len() - i,
{
    if i < known.len() && !known[i] {
        lemma_nearest_from(known, i + 1, k);
    }
}

/// A window without wrapping holds the known entries at most half of it away,
/// each once and in order.
pub proof fn law_windows_hold_the_known(known: Seq<bool>, i: int, half: int, m: int, k: int)
    requires
        known.len() <= usize::MAX,
        0 <= k < known.len(),
        m >= 0,
    ensures
        window_of(known, i, half, false, m).contains(k as usize) <==> known[k] && 0 <= k - i + half
            < m,
        forall|a: int, b: int|
            0 <= a < b < window_of(known, i, half, false, m).len() ==> #[trigger] window_of(
                known,
                i,
                half,
                false,
                m,
            )[a] < #[trigger] window_of(known, i, half, false, m)[b],
        forall|a: int|
            0 <= a < window_of(known, i, half, false, m).len() ==> (#[trigger] window_of(
                known,
                i,
                half,
                false,
                m,
            )[a]) < i + m - half,
    decreases m,
{
    if m > 0 {
        law_windows_hold_the_known(known, i, half, m - 1, k);
        let front = window_of(known, i, half, false, m - 1);
        let all = window_of(known, i, half, false, m);
        let e = i + m - 1 - half;
        if 0 <= e < known.len() && known[e] {
            assert(all == front.push(e as usize));
            region::lemma_push_contains(front, e as usize, k as usize);
            assert forall|a: int, b: int| 0 <= a < b < all.len() implies #[trigger] all[a]
                < #[trigger] all[b] by {
                if b == front.len() {
                    assert(all[a] == front[a]);
                } else {
                    assert(all[a] == front[a] && all[b] == front[b]);
                }
            }
            assert forall|a: int| 0 <= a < all.len() implies (#[trigger] all[a]) < i + m - half by {
                if a < front.len() {
                    assert(all[a] == front[a]);
                }
            }
        } else {
            assert(all == front);
        }
    }
}

/// A window that wraps looks past the ends: whatever is known at a distance
/// within it, counted round and round, is in it, and nothing else.
pub proof fn law_wrapped_windows_go_round(known: Seq<bool>, i: int, half: int, m: int, d: int)
    requires
        0 < known.len() <= usize::MAX,
        0 <= d < m,
    ensures
        known[(i + d - half) % known.len() as int] ==> window_of(known, i, half, true, m).contains(
            ((i + d - half) % known.len() as int) as usize,
        ),
        forall|a: int|
            0 <= a < window_of(known, i, half, true, m).len() ==> known[(#[trigger] window_of(
                known,
                i,
                half,
                true,
                m,
            )[a]) as int],
        window_of(known, i, half, true, m).len() <= m,
    decreases m,
{
    let front = window_of(known, i, half, true, m - 1);
    let all = window_of(known, i, half, true, m);
    let e = (i + m - 1 - half) % known.len() as int;
    vstd::arithmetic::div_mod::lemma_mod_bound(i + m - 1 - half, known.len() as int);
    if m > 1 {
        law_wrapped_windows_go_round(
            known,
            i,
            half,
            m - 1,
            if d < m - 1 {
                d
            } else {
                0
            },
        );
    }
    if known[e] {
        assert(all == front.push(e as usize));
        let k = (i + d - half) % known.len() as int;
        region::lemma_push_contains(front, e as usize, k as usize);
        assert forall|a: int| 0 <= a < all.len() implies known[(#[trigger] all[a]) as int] by {
            if a < front.len() {
                assert(all[a] == front[a]);
            }
        }
    } else {
        assert(all == front);
    }
}

/// Each way of fitting is what its name on the command line says.
pub proof fn law_ways_of_fitting_keep_their_names()
    ensures
        <AnomalyMode as vstd::std_specs::convert::FromSpec<AnomalyArg>>::from_spec(
            AnomalyArg::Coarse,
        ) == AnomalyMode::Coarse,
        <AnomalyMode as vstd::std_specs::convert::FromSpec<AnomalyArg>>::from_spec(AnomalyArg::Off)
            == AnomalyMode::Off,
        <AnomalyMode as vstd::std_specs::convert::FromSpec<AnomalyArg>>::from_spec(AnomalyArg::Full)
            == AnomalyMode::Full,
{
}

} // verus!
