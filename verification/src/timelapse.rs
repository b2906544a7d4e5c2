//! Exporting the clean sequence: which frames, in which order, each with the
//! window of neighbours it is combined with.
use crate::fixed;
use crate::fixed::Chain;
use crate::grid;
use crate::order;
use crate::region;
use crate::session::{odd, odd_window, FrameInfo};
use vstd::prelude::*;

verus! {

/// From how many samples on the largest and the smallest are discarded.
pub const TRIM_FROM: usize = 4;

/// Key of the sky level over the session's, 2.3, from which on a frame is full
/// dawn.
pub const DAWN_R1: i64 = 0x4013_3333;

/// Smallest extent, in pixels, of a trail.
pub const TRANSIENT_MIN_EXTENT: usize = 40;

/// Growth of the mask of trails, in pixels.
pub const TRANSIENT_DILATE: usize = 2;

/// Fewest samples a pixel's combination must have had for a trail to be
/// rescued there.
pub const TRANSIENT_MIN_SAMPLES: u8 = 4;

/// Factor by which the occlusion measurement is downscaled.
pub const OCC_SCALE: usize = 4;

/// How the value of one pixel is made from the frames of its window.
#[derive(Clone, Copy, Debug, PartialEq, Eq, Structural)]
pub enum Combination {
    /// The frame's own value.
    Own,
    /// The mean of the samples.
    Mean,
    /// The mean without the largest and the smallest sample.
    Trimmed,
}

/// Whether frame `f` gives a sample: it is not occluded at the pixel.
pub open spec fn gives_sample(occluded: Seq<bool>, f: int) -> bool {
    !occluded[f]
}

/// How a pixel is made. Where the frame itself is occluded it is shown as it
/// is, and so it is where no frame gives a sample.
pub open spec fn combination(occluded: Seq<bool>, cur: int) -> Combination {
    let n = region::picked(occluded.len() as int, |f: int| gives_sample(occluded, f)).len();
    if occluded[cur] || n == 0 {
        Combination::Own
    } else if n >= TRIM_FROM {
        Combination::Trimmed
    } else {
        Combination::Mean
    }
}

/// The frames a pixel is made from; none where it keeps its own value.
pub open spec fn samples_of(occluded: Seq<bool>, cur: int) -> Seq<usize> {
    if occluded[cur] {
        Seq::empty()
    } else {
        region::picked(occluded.len() as int, |f: int| gives_sample(occluded, f))
    }
}

/// Decides how one pixel is made from the frames of its window: which frames
/// give a sample goes into `out`, in order. `occluded` says of every frame
/// whether it shows foreground there, or nothing at all.
pub fn combine_window(occluded: &[bool], cur: usize, out: &mut Vec<usize>) -> (c: Combination)
    requires
        cur < occluded@.len(),
    ensures
        c == combination(occluded@, cur as int),
        final(out)@ == samples_of(occluded@, cur as int),
{
    out.clear();
    if occluded[cur] {
        return Combination::Own;
    }
    let ghost p = |f: int| gives_sample(occluded@, f);
    let mut f: usize = 0;
    while f < occluded.len()
        invariant
            f <= occluded@.len(),
            p == (|f: int| gives_sample(occluded@, f)),
            out@ == region::picked(f as int, p),
        decreases occluded@.len() - f,
    {
        if !occluded[f] {
            out.push(f);
        }
        f = f + 1;
    }
    if out.len() == 0 {
        Combination::Own
    } else if out.len() >= TRIM_FROM {
        Combination::Trimmed
    } else {
        Combination::Mean
    }
}

/// Foreground is never smeared: a frame occluded at a pixel keeps its own
/// value there, and an occluded neighbour never gives a sample.
pub proof fn law_foreground_is_kept(occluded: Seq<bool>, cur: int, k: int)
    requires
        0 <= cur < occluded.len() <= usize::MAX,
        0 <= k < region::picked(
            occluded.len() as int,
            |f: int| gives_sample(occluded, f),
        ).len(),
    ensures
        occluded[cur] ==> combination(occluded, cur) is Own,
        !occluded[region::picked(
            occluded.len() as int,
            |f: int| gives_sample(occluded, f),
        )[k] as int],
{
    region::lemma_picked(occluded.len() as int, |f: int| gives_sample(occluded, f));
}

/// The samples that went into a pixel; enough where nobody counted.
pub open spec fn samples_at(used: Seq<u8>, i: int) -> u8 {
    if used.len() == 0 {
        TRANSIENT_MIN_SAMPLES
    } else {
        used[i]
    }
}

/// Whether a pixel is a candidate for a trail: averaged enough, far off the
/// combination on either side, and sky.
pub open spec fn stands_out(v: i64, used: u8, lum: i64, lo: i64, hi: i64, dark: i64) -> bool {
    used >= TRANSIENT_MIN_SAMPLES && (v > hi || v < lo) && lum >= dark
}

/// The pixels that stand out from the combination. `used` is how many samples
/// each one's combination had; an empty list means enough everywhere.
pub fn candidates(diff: &[i64], used: &[u8], lum: &[i64], lo: i64, hi: i64, dark: i64) -> (out: Vec<
    bool,
>)
    requires
        lum@.len() == diff@.len(),
        used@.len() == 0 || used@.len() == diff@.len(),
    ensures
        out@ == Seq::new(
            diff@.len(),
            |i: int| stands_out(diff@[i], samples_at(used@, i), lum@[i], lo, hi, dark),
        ),
{
    let mut out: Vec<bool> = Vec::new();
    let mut i: usize = 0;
    while i < diff.len()
        invariant
            i <= diff@.len(),
            lum@.len() == diff@.len(),
            used@.len() == 0 || used@.len() == diff@.len(),
            out@ =~= Seq::new(
                i as nat,
                |j: int| stands_out(diff@[j], samples_at(used@, j), lum@[j], lo, hi, dark),
            ),
        decreases diff@.len() - i,
    {
        let enough: bool = used.len() == 0 || used[i] >= TRANSIENT_MIN_SAMPLES;
        out.push(enough && (diff[i] > hi || diff[i] < lo) && lum[i] >= dark);
        i = i + 1;
    }
    out
}

/// Smallest and largest of some values.
pub open spec fn lowest(s: Seq<int>) -> int
    decreases s.len(),
{
    if s.len() <= 1 {
        s[0]
    } else if s.last() < lowest(s.drop_last()) {
        s.last()
    } else {
        lowest(s.drop_last())
    }
}

/// Largest of some values.
pub open spec fn highest(s: Seq<int>) -> int
    decreases s.len(),
{
    if s.len() <= 1 {
        s[0]
    } else if s.last() > highest(s.drop_last()) {
        s.last()
    } else {
        highest(s.drop_last())
    }
}

/// The columns of some pixels.
pub open spec fn columns(c: Seq<usize>, w: int) -> Seq<int> {
    c.map_values(|i: usize| i as int % w)
}

/// The rows of some pixels.
pub open spec fn rows(c: Seq<usize>, w: int) -> Seq<int> {
    c.map_values(|i: usize| i as int / w)
}

/// The longer side of the box around some pixels.
pub open spec fn extent_of(c: Seq<usize>, w: int) -> int {
    let wide = highest(columns(c, w)) - lowest(columns(c, w)) + 1;
    let tall = highest(rows(c, w)) - lowest(rows(c, w)) + 1;
    if wide > tall {
        wide
    } else {
        tall
    }
}

/// The longer side of the box around some pixels of an image `w` wide.
pub fn extent(comp: &Vec<usize>, w: usize) -> (e: usize)
    requires
        w > 0,
        comp@.len() > 0,
        forall|k: int| 0 <= k < comp@.len() ==> (#[trigger] comp@[k]) < usize::MAX,
    ensures
        e == extent_of(comp@, w as int),
{
    let ghost c = comp@;
    let first: usize = comp[0];
    let mut minx: usize = first % w;
    let mut maxx: usize = first % w;
    let mut miny: usize = first / w;
    let mut maxy: usize = first / w;
    let mut k: usize = 1;
    assert(columns(c, w as int).take(1).len() == 1);
    assert(first / w <= first) by (nonlinear_arith)
        requires
            w > 0,
    ;
    while k < comp.len()
        invariant
            1 <= k <= c.len(),
            c == comp@,
            w > 0,
            forall|j: int| 0 <= j < c.len() ==> (#[trigger] c[j]) < usize::MAX,
            minx <= maxx < w,
            miny <= maxy < usize::MAX,
            minx == lowest(columns(c, w as int).take(k as int)),
            maxx == highest(columns(c, w as int).take(k as int)),
            miny == lowest(rows(c, w as int).take(k as int)),
            maxy == highest(rows(c, w as int).take(k as int)),
        decreases c.len() - k,
    {
        let i: usize = comp[k];
        assert(c[k as int] == i);
        let x: usize = i % w;
        let y: usize = i / w;
        proof {
            assert(i / w <= i) by (nonlinear_arith)
                requires
                    w > 0,
            ;
            assert(columns(c, w as int).take(k + 1).drop_last() =~= columns(c, w as int).take(
                k as int,
            ));
            assert(rows(c, w as int).take(k + 1).drop_last() =~= rows(c, w as int).take(k as int));
        }
        if x < minx {
            minx = x;
        }
        if x > maxx {
            maxx = x;
        }
        if y < miny {
            miny = y;
        }
        if y > maxy {
            maxy = y;
        }
        k = k + 1;
    }
    assert(columns(c, w as int).take(k as int) =~= columns(c, w as int));
    assert(rows(c, w as int).take(k as int) =~= rows(c, w as int));
    let wide: usize = maxx - minx + 1;
    let tall: usize = maxy - miny + 1;
    if wide > tall {
        wide
    } else {
        tall
    }
}

/// Which components are trails: long enough, and elongated.
pub open spec fn are_trails(
    comps: Seq<Seq<usize>>,
    elongated: Seq<bool>,
    w: int,
) -> Seq<bool> {
    Seq::new(
        comps.len(),
        |k: int| extent_of(comps[k], w) >= TRANSIENT_MIN_EXTENT && elongated[k],
    )
}

/// `kept` holds the cells of a mask whose components are trails.
pub open spec fn shows_trails(
    mask: Seq<bool>,
    comps: Seq<Seq<usize>>,
    elongated: Seq<bool>,
    w: int,
    kept: Seq<bool>,
) -> bool {
    &&& kept.len() == mask.len()
    &&& forall|j: usize|
        j < mask.len() ==> (#[trigger] kept[j as int] <==> mask[j as int] && forall|k: int|
            0 <= k < comps.len() && (#[trigger] comps[k]).contains(j) ==> are_trails(
                comps,
                elongated,
                w,
            )[k])
}

/// The pixels that keep the frame's own value: the trails among the components
/// of the mask, grown by `TRANSIENT_DILATE`. Also how many they are.
/// `elongated` says of each component whether it is long and thin.
pub fn preserve_transients(
    mask: &[bool],
    comps: &Vec<Vec<usize>>,
    elongated: &[bool],
    w: usize,
    h: usize,
) -> (r: (Vec<bool>, usize))
    requires
        mask@.len() == w * h,
        w + TRANSIENT_DILATE < usize::MAX,
        h + TRANSIENT_DILATE < usize::MAX,
        elongated@.len() == comps@.len(),
        region::are_components(mask@, w as int, h as int, region::lists(comps@)),
    ensures
        exists|kept: Seq<bool>|
            shows_trails(mask@, region::lists(comps@), elongated@, w as int, kept) && r.0@
                == #[trigger] region::grown(kept, w as int, h as int, TRANSIENT_DILATE as int),
        r.1 == region::set_count(r.0@),
{
    let n: usize = mask.len();
    let ghost lists = region::lists(comps@);
    let mut keep: Vec<bool> = Vec::new();
    let mut k: usize = 0;
    while k < comps.len()
        invariant
            k <= comps@.len(),
            n == mask@.len() == w * h,
            elongated@.len() == comps@.len(),
            lists == region::lists(comps@),
            region::are_components(mask@, w as int, h as int, lists),
            keep@ =~= are_trails(lists, elongated@, w as int).take(k as int),
        decreases comps@.len() - k,
    {
        proof {
            let c = lists[k as int];
            assert(c == comps@[k as int]@);
            assert(region::component_of(mask@, w as int, h as int, c[0] as int, c));
            assert forall|j: int| 0 <= j < c.len() implies (#[trigger] c[j]) < n by {
                assert(c.contains(c[j]));
            }
            assert(c[0] < n);
            if w == 0 {
                assert(w * h == 0) by (nonlinear_arith)
                    requires
                        w == 0,
                ;
            }
        }
        let long: bool = extent(&comps[k], w) >= TRANSIENT_MIN_EXTENT;
        keep.push(long && elongated[k]);
        k = k + 1;
    }
    proof {
        assert(keep@ =~= are_trails(lists, elongated@, w as int));
        assert forall|i: int, j: usize|
            #![trigger lists[i].contains(j)]
            0 <= i < comps@.len() && lists[i].contains(j) implies j < mask@.len() by {
            assert(region::component_of(
                mask@,
                w as int,
                h as int,
                lists[i][0] as int,
                lists[i],
            ));
        }
    }
    let kept = region::sift(mask, comps, keep.as_slice());
    assert(shows_trails(mask@, lists, elongated@, w as int, kept@));
    let out = region::dilate(kept.as_slice(), w, h, TRANSIENT_DILATE);
    let count: usize = region::count_set(out.as_slice());
    (out, count)
}

/// The blocks, `OCC_SCALE` pixels a side, that are free of foreground; the
/// pixels that fill no whole block belong to none.
pub fn clear_blocks(fg: &[bool], w: usize, h: usize, sw: usize, sh: usize) -> (out: Vec<bool>)
    requires
        fg@.len() == w * h,
        sw * sh <= usize::MAX,
        OCC_SCALE * (sw + 1) <= usize::MAX,
        OCC_SCALE * (sh + 1) <= usize::MAX,
    ensures
        out@.len() == sw * sh,
        forall|x: int, y: int|
            0 <= x < sw && 0 <= y < sh ==> (out@[#[trigger] grid::cell(x, y, sw as int)]
                <==> !block_has(fg@, w as int, h as int, x, y)),
{
    let mut out: Vec<bool> = Vec::new();
    let mut y: usize = 0;
    while y < sh
        invariant
            y <= sh,
            fg@.len() == w * h,
            sw * sh <= usize::MAX,
            OCC_SCALE * (sw + 1) <= usize::MAX,
            OCC_SCALE * (sh + 1) <= usize::MAX,
            out@.len() == y * sw,
            forall|a: int, b: int|
                0 <= a < sw && 0 <= b < y ==> (out@[#[trigger] grid::cell(a, b, sw as int)]
                    <==> !block_has(fg@, w as int, h as int, a, b)),
        decreases sh - y,
    {
        let mut x: usize = 0;
        while x < sw
            invariant
                x <= sw,
                y < sh,
                fg@.len() == w * h,
                sw * sh <= usize::MAX,
                OCC_SCALE * (sw + 1) <= usize::MAX,
                OCC_SCALE * (sh + 1) <= usize::MAX,
                out@.len() == y * sw + x,
                forall|a: int, b: int|
                    0 <= a < sw && 0 <= b < y || 0 <= a < x && b == y ==> (out@[
                        #[trigger] grid::cell(a, b, sw as int)] <==> !block_has(
                        fg@,
                        w as int,
                        h as int,
                        a,
                        b,
                    )),
            decreases sw - x,
        {
            let x1: usize = if OCC_SCALE * (x + 1) < w {
                OCC_SCALE * (x + 1)
            } else {
                w
            };
            let y1: usize = if OCC_SCALE * (y + 1) < h {
                OCC_SCALE * (y + 1)
            } else {
                h
            };
            let ghost was = out@;
            out.push(!region::any_in(fg, w, h, OCC_SCALE * x, OCC_SCALE * y, x1, y1));
            proof {
                assert forall|a: int, b: int|
                    0 <= a < sw && 0 <= b < y || 0 <= a < x + 1 && b == y implies (out@[
                    #[trigger] grid::cell(a, b, sw as int)] <==> !block_has(
                    fg@,
                    w as int,
                    h as int,
                    a,
                    b,
                )) by {
                    if b < y {
                        grid::lemma_cell(a, b, sw as int, y as int);
                        assert(sw * y == y * sw) by (nonlinear_arith);
                    }
                    if a != x || b != y {
                        assert(0 <= b * sw) by (nonlinear_arith)
                            requires
                                0 <= b,
                                0 <= sw,
                        ;
                        assert(out@[grid::cell(a, b, sw as int)] == was[grid::cell(
                            a,
                            b,
                            sw as int,
                        )]);
                    }
                }
            }
            x = x + 1;
        }
        assert((y + 1) * sw == y * sw + sw) by (nonlinear_arith);
        y = y + 1;
    }
    assert(sh * sw == sw * sh) by (nonlinear_arith);
    out
}

/// Whether a block shows foreground.
pub open spec fn block_has(fg: Seq<bool>, w: int, h: int, x: int, y: int) -> bool {
    region::any_set(
        fg,
        w,
        OCC_SCALE * x,
        OCC_SCALE * y,
        if OCC_SCALE * (x + 1) < w {
            OCC_SCALE * (x + 1)
        } else {
            w
        },
        if OCC_SCALE * (y + 1) < h {
            OCC_SCALE * (y + 1)
        } else {
            h
        },
    )
}

/// The pixels a statistic samples: every `stride`-th one that is not masked.
/// An empty mask masks nothing.
pub open spec fn sampled(mask: Seq<bool>, stride: int, i: int) -> bool {
    i % stride == 0 && (mask.len() == 0 || !mask[i])
}

/// The pixels a statistic over `n` of them samples.
pub fn sample_pixels(n: usize, mask: &[bool]) -> (out: Vec<usize>)
    requires
        mask@.len() == 0 || mask@.len() == n,
    ensures
        out@ == region::picked(
            n as int,
            |i: int| sampled(mask@, order::stride_for(n as int), i),
        ),
{
    let stride: usize = order::sample_stride(n);
    let ghost p = |i: int| sampled(mask@, stride as int, i);
    let mut out: Vec<usize> = Vec::new();
    let mut i: usize = 0;
    while i < n
        invariant
            i <= n,
            stride > 0,
            mask@.len() == 0 || mask@.len() == n,
            p == (|i: int| sampled(mask@, stride as int, i)),
            out@ == region::picked(i as int, p),
        decreases n - i,
    {
        if i % stride == 0 && (mask.len() == 0 || !mask[i]) {
            out.push(i);
        }
        i = i + 1;
    }
    out
}

/// The last of the frames with position `idx` in the list of files.
pub open spec fn info_at(frames: Seq<FrameInfo>, idx: int) -> Option<int>
    decreases frames.len(),
{
    if frames.len() == 0 {
        None
    } else if frames.last().idx == idx {
        Some(frames.len() - 1)
    } else {
        info_at(frames.drop_last(), idx)
    }
}

/// Whether a frame would come out entirely white: full dawn, and a sky above
/// the white of the stretch.
pub open spec fn washed_out(f: FrameInfo, ratio: i64, white: i64, med: i64) -> bool {
    f.level >= white && med > 0 && ratio >= DAWN_R1
}

/// Whether file `i` is exported: one that was aligned unless its sky is
/// saturated or above the white; one that was not, only where the sequence is
/// not stabilized.
pub open spec fn exported(
    frames: Seq<FrameInfo>,
    ratios: Seq<i64>,
    white: i64,
    med: i64,
    stabilize: bool,
    i: int,
) -> bool {
    match info_at(frames, i) {
        Some(k) => frames[k].export && !washed_out(frames[k], ratios[k], white, med),
        None => !stabilize,
    }
}

/// Looks up the frame of a file.
fn find_info(frames: &[FrameInfo], idx: usize) -> (r: Option<usize>)
    ensures
        r is Some <==> info_at(frames@, idx as int) is Some,
        r is Some ==> info_at(frames@, idx as int) == Some(r->0 as int) && r->0 < frames@.len(),
{
    let mut n: usize = frames.len();
    assert(frames@.take(n as int) =~= frames@);
    while n > 0
        invariant
            n <= frames@.len(),
            info_at(frames@, idx as int) == info_at(frames@.take(n as int), idx as int),
        decreases n,
    {
        assert(frames@.take(n as int).drop_last() =~= frames@.take(n - 1));
        if frames[n - 1].idx == idx {
            return Some(n - 1);
        }
        n = n - 1;
    }
    None
}

/// The files that are exported, in chronological order. `ratios` holds the
/// keys of the frames' sky levels over the session's.
pub fn export_order(
    files: usize,
    frames: &[FrameInfo],
    ratios: &[i64],
    white: i64,
    med: i64,
    stabilize: bool,
) -> (out: Vec<usize>)
    requires
        ratios@.len() == frames@.len(),
    ensures
        out@ == region::picked(
            files as int,
            |i: int| exported(frames@, ratios@, white, med, stabilize, i),
        ),
{
    let ghost p = |i: int| exported(frames@, ratios@, white, med, stabilize, i);
    let mut out: Vec<usize> = Vec::new();
    let mut i: usize = 0;
    while i < files
        invariant
            i <= files,
            ratios@.len() == frames@.len(),
            p == (|i: int| exported(frames@, ratios@, white, med, stabilize, i)),
            out@ == region::picked(i as int, p),
        decreases files - i,
    {
        let goes: bool = match find_info(frames, i) {
            Some(k) => frames[k].export && !(frames[k].level >= white && med > 0 && ratios[k]
                >= DAWN_R1),
            None => !stabilize,
        };
        if goes {
            out.push(i);
        }
        i = i + 1;
    }
    out
}

/// Where the export stands. Positions are those in the list of exported
/// frames; the frames `front .. next_load` are loaded.
#[derive(Clone, Copy, Debug, PartialEq, Eq, Structural)]
pub struct Export {
    pub total: usize,
    pub half: usize,
    pub batch: usize,
    pub front: usize,
    pub next_load: usize,
    pub next_emit: usize,
}

/// What the export does next.
#[derive(Clone, Copy, Debug, PartialEq, Eq, Structural)]
pub enum Action {
    /// Load the frames from the first position up to the second, which is not
    /// included.
    Load(usize, usize),
    /// Combine and write the frame at this position, with the window from the
    /// second to the third, both included.
    Emit(usize, usize, usize),
    /// All frames are written.
    Done,
}

/// How many frames on either side a window reaches.
pub open spec fn reach(window: usize) -> int {
    odd(window) / 2
}

/// How many frames are loaded at a time: one per worker.
pub open spec fn batch_for(workers: usize) -> int {
    if workers > 1 {
        workers as int
    } else {
        1
    }
}

impl Export {
    /// What holds between any two steps.
    pub open spec fn wf(self) -> bool {
        &&& self.batch >= 1
        &&& self.total + self.half + self.batch <= usize::MAX
        &&& self.front <= self.next_load <= self.total
        &&& self.next_emit <= self.next_load
        &&& self.front == (if self.next_emit > self.half {
            self.next_emit - self.half
        } else {
            0
        })
        &&& self.next_load <= self.next_emit + self.half + 2 * self.batch
    }

    /// Whether frames are to be loaded before the next one is written.
    pub open spec fn hungry(self) -> bool {
        self.next_load < self.total && self.next_load <= self.next_emit + self.half + self.batch
    }

    /// What comes next.
    pub open spec fn action(self) -> Action {
        if self.next_emit >= self.total {
            Action::Done
        } else if self.hungry() {
            Action::Load(
                self.next_load,
                if self.next_load + self.batch < self.total {
                    (self.next_load + self.batch) as usize
                } else {
                    self.total
                },
            )
        } else {
            Action::Emit(
                self.next_emit,
                if self.next_emit > self.half {
                    (self.next_emit - self.half) as usize
                } else {
                    0
                },
                if self.next_emit + self.half < self.total {
                    (self.next_emit + self.half) as usize
                } else {
                    (self.total - 1) as usize
                },
            )
        }
    }

    /// Where the export stands once that is done. Frames that fall into no
    /// later window are let go.
    pub open spec fn advanced(self) -> Export {
        match self.action() {
            Action::Done => self,
            Action::Load(_, end) => Export { next_load: end, ..self },
            Action::Emit(_, _, _) => Export {
                next_emit: (self.next_emit + 1) as usize,
                front: if self.next_emit + 1 > self.half {
                    (self.next_emit + 1 - self.half) as usize
                } else {
                    0
                },
                ..self
            },
        }
    }

    /// Starts an export of `total` frames with a window of `window` frames,
    /// loading as many at a time as there are workers.
    pub fn start(total: usize, window: usize, workers: usize) -> (e: Export)
        requires
            total + window + workers < usize::MAX - 2,
        ensures
            e.wf(),
            e.total == total,
            e.half == reach(window),
            e.batch == batch_for(workers),
            e.front == 0 && e.next_load == 0 && e.next_emit == 0,
    {
        let half: usize = odd_window(window) / 2;
        let batch: usize = if workers > 1 {
            workers
        } else {
            1
        };
        Export { total, half, batch, front: 0, next_load: 0, next_emit: 0 }
    }

    /// Takes the next step.
    pub fn step(&mut self) -> (a: Action)
        requires
            old(self).wf(),
        ensures
            a == old(self).action(),
            *final(self) == old(self).advanced(),
            final(self).wf(),
    {
        if self.next_emit >= self.total {
            return Action::Done;
        }
        if self.next_load < self.total && self.next_load <= self.next_emit + self.half
            + self.batch {
            let from: usize = self.next_load;
            let end: usize = if from + self.batch < self.total {
                from + self.batch
            } else {
                self.total
            };
            self.next_load = end;
            return Action::Load(from, end);
        }
        let pos: usize = self.next_emit;
        let lo: usize = if pos > self.half {
            pos - self.half
        } else {
            0
        };
        let hi: usize = if pos + self.half < self.total {
            pos + self.half
        } else {
            self.total - 1
        };
        self.next_emit = pos + 1;
        self.front = if self.next_emit > self.half {
            self.next_emit - self.half
        } else {
            0
        };
        Action::Emit(pos, lo, hi)
    }
}

/// The whole window of a frame is in memory when it is written, the frame
/// itself included: no window is ever empty or short of a loaded neighbour.
pub proof fn law_window_is_loaded(e: Export)
    requires
        e.wf(),
    ensures
        e.action() matches Action::Emit(pos, lo, hi) ==> e.front <= lo <= pos <= hi < e.next_load
            && pos == e.next_emit && pos - lo <= e.half && hi - pos <= e.half,
{
}

/// Never more frames are in memory than the two halves of a window and two
/// batches.
pub proof fn law_export_memory(e: Export)
    requires
        e.wf(),
    ensures
        e.next_load - e.front <= 2 * e.half + 2 * e.batch,
        e.advanced().wf(),
{
}

/// The frames written by the next `n` steps.
pub open spec fn written(e: Export, n: nat) -> Seq<usize>
    decreases n,
{
    if n == 0 {
        Seq::empty()
    } else {
        (match e.action() {
            Action::Emit(pos, _, _) => seq![pos],
            _ => Seq::empty(),
        }) + written(e.advanced(), (n - 1) as nat)
    }
}

/// Steps until all frames are written: each left to load or write takes one at
/// most.
pub open spec fn steps_left(e: Export) -> nat {
    ((e.total - e.next_load) + (e.total - e.next_emit)) as nat
}

/// Every frame is written exactly once, in order, and the export ends.
pub proof fn law_export_is_complete(e: Export)
    requires
        e.wf(),
    ensures
        written(e, steps_left(e)) == Seq::new(
            (e.total - e.next_emit) as nat,
            |k: int| (e.next_emit + k) as usize,
        ),
{
    lemma_written(e, steps_left(e));
}

proof fn lemma_written(e: Export, n: nat)
    requires
        e.wf(),
        n >= steps_left(e),
    ensures
        written(e, n) == Seq::new(
            (e.total - e.next_emit) as nat,
            |k: int| (e.next_emit + k) as usize,
        ),
    decreases n,
{
    let goal = Seq::new(
        (e.total - e.next_emit) as nat,
        |k: int| (e.next_emit + k) as usize,
    );
    if n == 0 {
        assert(written(e, n) =~= goal);
    } else {
        let f = e.advanced();
        lemma_written(f, (n - 1) as nat);
        assert(written(e, n) =~= goal);
    }
}

/// A neighbour in a window and the way its sky is reached.
#[derive(Clone, Copy, Debug, PartialEq, Eq, Structural)]
pub struct Member {
    pub pos: usize,
    pub chain: Option<Chain>,
}

/// Whether the frame at position `pos` stays in the window of the one at `cur`:
/// always on a tracked sequence; on an untracked one, if the chain of sky fits
/// reaches it.
pub open spec fn stays(order: Seq<usize>, links: Option<Seq<bool>>, cur: int, pos: int) -> bool {
    match links {
        None => true,
        Some(l) => order[pos] == order[cur] || fixed::chained(l, order[cur], order[pos]),
    }
}

/// The positions of a window that stay in it, among `lo .. n`.
pub open spec fn window_positions(
    order: Seq<usize>,
    links: Option<Seq<bool>>,
    cur: int,
    lo: int,
    n: int,
) -> Seq<usize> {
    region::picked(n, |p: int| p >= lo && stays(order, links, cur, p))
}

/// `out` holds the frames at the positions `w`, each with the way to its sky
/// where it is another frame and the camera did not follow.
pub open spec fn are_members(
    order: Seq<usize>,
    links: Option<Seq<bool>>,
    cur: int,
    w: Seq<usize>,
    out: Seq<Member>,
) -> bool {
    &&& out.len() == w.len()
    &&& forall|k: int| 0 <= k < w.len() ==> (#[trigger] out[k]).pos == w[k]
    &&& forall|k: int|
        0 <= k < w.len() ==> ((#[trigger] out[k]).chain is Some <==> links is Some
            && order[w[k] as int] != order[cur])
    &&& forall|k: int|
        0 <= k < w.len() && (#[trigger] out[k]).chain is Some ==> out[k].chain->0
            == fixed::chain_of(order[cur], order[w[k] as int])
}

/// The window of the frame at position `cur`: the frames from `lo` to `hi`,
/// both included, that stay in it, each with the chain that leads from this
/// frame's sky to its own. A neighbour that the chain does not reach drops out
/// rather than being combined out of register.
pub fn window_members(
    order: &[usize],
    links: Option<&[bool]>,
    cur: usize,
    lo: usize,
    hi: usize,
) -> (out: Vec<Member>)
    requires
        lo <= cur <= hi < order@.len(),
    ensures
        are_members(
            order@,
            match links {
                Some(s) => Some(s@),
                None => None::<Seq<bool>>,
            },
            cur as int,
            window_positions(
                order@,
                match links {
                    Some(s) => Some(s@),
                    None => None::<Seq<bool>>,
                },
                cur as int,
                lo as int,
                hi + 1,
            ),
            out@,
        ),
{
    let ghost l = match links {
        Some(s) => Some(s@),
        None => None::<Seq<bool>>,
    };
    let ghost q = |p: int| p >= lo && stays(order@, l, cur as int, p);
    let c_idx: usize = order[cur];
    let mut out: Vec<Member> = Vec::new();
    proof {
        lemma_nothing_before(order@, l, cur as int, lo as int, lo as int);
    }
    let mut p: usize = lo;
    while p <= hi
        invariant
            lo <= p <= hi + 1,
            lo <= cur <= hi < order@.len(),
            c_idx == order@[cur as int],
            l == match links {
                Some(s) => Some(s@),
                None => None::<Seq<bool>>,
            },
            q == (|p: int| p >= lo && stays(order@, l, cur as int, p)),
            out@.len() == region::picked(p as int, q).len(),
            forall|k: int|
                0 <= k < out@.len() ==> (#[trigger] out@[k]).pos == region::picked(
                    p as int,
                    q,
                )[k] && out@[k].pos < p,
            forall|k: int|
                0 <= k < out@.len() ==> ((#[trigger] out@[k]).chain is Some <==> links is Some
                    && order@[out@[k].pos as int] != c_idx),
            forall|k: int|
                0 <= k < out@.len() && (#[trigger] out@[k]).chain is Some ==> out@[k].chain->0
                    == fixed::chain_of(c_idx, order@[out@[k].pos as int]),
        decreases hi + 1 - p,
    {
        let f_idx: usize = order[p];
        match links {
            None => {
                out.push(Member { pos: p, chain: None });
            },
            Some(s) => {
                if f_idx == c_idx {
                    out.push(Member { pos: p, chain: None });
                } else if let Some(chain) = fixed::sky_between(s, c_idx, f_idx) {
                    out.push(Member { pos: p, chain: Some(chain) });
                }
            },
        }
        p = p + 1;
    }
    proof {
        let w = window_positions(order@, l, cur as int, lo as int, hi + 1);
        assert(w == region::picked(p as int, q));
        assert forall|k: int| 0 <= k < w.len() implies (#[trigger] out@[k]).pos == w[k] by {}
    }
    out
}

proof fn lemma_nothing_before(
    order: Seq<usize>,
    links: Option<Seq<bool>>,
    cur: int,
    lo: int,
    n: int,
)
    requires
        n <= lo,
    ensures
        window_positions(order, links, cur, lo, n).len() == 0,
    decreases n,
{
    if n > 0 {
        lemma_nothing_before(order, links, cur, lo, n - 1);
    }
}

/// A frame always stays in its own window.
pub proof fn law_frame_is_in_its_window(
    order: Seq<usize>,
    links: Option<Seq<bool>>,
    cur: int,
    lo: int,
    n: int,
)
    requires
        0 <= lo <= cur < n <= usize::MAX,
    ensures
        window_positions(order, links, cur, lo, n).contains(cur as usize),
{
    region::lemma_picked(n, |p: int| p >= lo && stays(order, links, cur, p));
    assert((|p: int| p >= lo && stays(order, links, cur, p))(cur as usize as int));
}

/// How a frame is made from its window.
#[derive(Clone, Copy, Debug, PartialEq, Eq, Structural)]
pub enum Blend {
    /// The frame as it is: there is no neighbour.
    Alone,
    /// Neighbours brought onto this frame's sky.
    Warped,
    /// Neighbours as they stand.
    Plain,
}

/// How a frame is made from a window with that many frames left in it.
pub open spec fn blend_of(members: int, untracked: bool) -> Blend {
    if members == 1 {
        Blend::Alone
    } else if untracked {
        Blend::Warped
    } else {
        Blend::Plain
    }
}

/// Whether there are neighbours to blend with.
pub open spec fn blends(members: int) -> bool {
    members > 1
}

/// How a frame is made from its window, whether what cloud covers is undone
/// afterwards, and whether trails are brought back.
pub fn blend(members: usize, untracked: bool, cloud_guard: bool, keep_transients: bool) -> (r: (
    Blend,
    bool,
    bool,
))
    ensures
        r.0 == blend_of(members as int, untracked),
        r.1 == (blends(members as int) && cloud_guard),
        r.2 == (blends(members as int) && keep_transients),
{
    let b: Blend = if members == 1 {
        Blend::Alone
    } else if untracked {
        Blend::Warped
    } else {
        Blend::Plain
    };
    (b, members > 1 && cloud_guard, members > 1 && keep_transients)
}

/// The window of a frame is complete: it holds exactly the frames of the
/// sequence that are at most half a window away.
pub proof fn law_window_is_complete(e: Export, p: int)
    requires
        e.wf(),
        0 <= p < e.total,
    ensures
        e.action() matches Action::Emit(pos, lo, hi) ==> pos == e.next_emit && (lo <= p <= hi <==> -(
        e.half as int) <= p - pos <= e.half),
{
}

/// Frames are loaded one after the other, a batch at a time or what is left,
/// and not before the frames to be written come near them. A frame is written
/// once nothing more has to be loaded for it, and the export is done once all
/// are.
pub proof fn law_loading_keeps_ahead(e: Export)
    requires
        e.wf(),
    ensures
        match e.action() {
            Action::Load(a, b) => {
                &&& a == e.next_load && a < b <= e.total
                &&& b - a == e.batch || (b == e.total && b - a <= e.batch)
                &&& a - e.next_emit <= e.half + e.batch
                &&& e.advanced() == (Export { next_load: b, ..e })
            },
            Action::Emit(pos, _, _) => {
                &&& e.next_load == e.total || e.next_load - pos > e.half + e.batch
                &&& e.advanced().next_emit == pos + 1
                &&& e.advanced().next_load == e.next_load && e.advanced().total == e.total
                &&& e.advanced().half == e.half && e.advanced().batch == e.batch
            },
            Action::Done => e.next_emit == e.total && e.advanced() == e,
        },
        e.next_emit < e.total ==> !(e.action() is Done),
{
}

/// A window of an odd width reaches equally far to both sides, and an even one
/// is made one wider. As many frames are loaded at a time as there are
/// workers.
pub proof fn law_window_reaches_to_both_sides(window: usize, workers: usize)
    ensures
        window % 2 == 1 ==> 2 * reach(window) + 1 == window,
        window % 2 == 0 && window > 0 ==> 2 * reach(window) == window,
        window == 0 ==> reach(window) == 0,
        workers > 0 ==> batch_for(workers) == workers,
        workers == 0 ==> batch_for(workers) == 1,
{
}

/// A pixel is made from the frames that see it: with four or more of them the
/// extremes are left out, with fewer all are averaged. Where the frame itself
/// does not see it, it keeps its own value.
pub proof fn law_pixels_come_from_who_sees_them(occluded: Seq<bool>, cur: int, seen: Seq<int>)
    requires
        0 <= cur < occluded.len() <= usize::MAX,
        seen.no_duplicates(),
        forall|j: int|
            0 <= j < seen.len() ==> 0 <= #[trigger] seen[j] < occluded.len() && !occluded[seen[j]],
        forall|f: int| 0 <= f < occluded.len() && !(#[trigger] occluded[f]) ==> seen.contains(f),
    ensures
        occluded[cur] ==> combination(occluded, cur) is Own,
        !occluded[cur] && seen.len() >= 4 ==> combination(occluded, cur) is Trimmed,
        !occluded[cur] && seen.len() <= 3 ==> combination(occluded, cur) is Mean,
        occluded[cur] ==> samples_of(occluded, cur).len() == 0,
        !occluded[cur] ==> samples_of(occluded, cur).len() == seen.len() && forall|f: usize|
            samples_of(occluded, cur).contains(f) <==> f < occluded.len() && !(
            #[trigger] occluded[f as int]),
{
    let p = |f: int| gives_sample(occluded, f);
    let s = region::picked(occluded.len() as int, p);
    region::lemma_picked(occluded.len() as int, p);
    let t = s.map_values(|u: usize| u as int);
    assert forall|f: usize| s.contains(f) <==> f < occluded.len() && !(
    #[trigger] occluded[f as int]) by {
        if s.contains(f) {
            let k = choose|k: int| 0 <= k < s.len() && s[k] == f;
            assert(p(s[k] as int));
        }
        if f < occluded.len() && !occluded[f as int] {
            assert(p(f as int));
        }
    }
    assert(t.no_duplicates());
    t.unique_seq_to_set();
    seen.unique_seq_to_set();
    assert(t.to_set() =~= seen.to_set()) by {
        assert forall|f: int| t.to_set().contains(f) <==> seen.to_set().contains(f) by {
            if t.contains(f) {
                let k = choose|k: int| 0 <= k < t.len() && t[k] == f;
                assert(s.contains(s[k]));
                assert(!occluded[s[k] as int]);
            }
            if seen.contains(f) {
                let k = choose|k: int| 0 <= k < seen.len() && seen[k] == f;
                assert(!occluded[seen[k]]);
                let u = f as usize;
                assert(!occluded[u as int]);
                assert(s.contains(u));
                let l = choose|l: int| 0 <= l < s.len() && s[l] == u;
                assert(t[l] == f);
            }
        }
    }
    if !occluded[cur] {
        assert(seen.contains(cur));
    }
}

/// A pixel stands out only if it was averaged from at least four samples, lies
/// beyond the bounds, and is sky; and then it does. Where samples were not
/// counted, there were enough.
pub proof fn law_what_stands_out(v: i64, used: u8, lum: i64, lo: i64, hi: i64, dark: i64, i: int)
    ensures
        used < 4 ==> !stands_out(v, used, lum, lo, hi, dark),
        lum < dark ==> !stands_out(v, used, lum, lo, hi, dark),
        lo <= v <= hi ==> !stands_out(v, used, lum, lo, hi, dark),
        v > hi && used >= 4 && lum >= dark ==> stands_out(v, used, lum, lo, hi, dark),
        v < lo && used >= 4 && lum >= dark ==> stands_out(v, used, lum, lo, hi, dark),
        samples_at(Seq::<u8>::empty(), i) >= 4,
        forall|u: Seq<u8>| 0 <= i < u.len() ==> #[trigger] samples_at(u, i) == u[i],
{
}

proof fn lemma_bounds(s: Seq<int>)
    requires
        s.len() > 0,
    ensures
        forall|i: int| 0 <= i < s.len() ==> lowest(s) <= #[trigger] s[i] <= highest(s),
        s.contains(lowest(s)),
        s.contains(highest(s)),
    decreases s.len(),
{
    if s.len() == 1 {
        assert(s.contains(s[0]));
    } else {
        let f = s.drop_last();
        lemma_bounds(f);
        assert forall|i: int| 0 <= i < s.len() implies lowest(s) <= #[trigger] s[i] <= highest(s) by {
            if i < f.len() {
                assert(f[i] == s[i]);
            }
        }
        assert(s.contains(s[s.len() - 1]));
        let a = choose|a: int| 0 <= a < f.len() && f[a] == lowest(f);
        assert(s[a] == lowest(f));
        let b = choose|b: int| 0 <= b < f.len() && f[b] == highest(f);
        assert(s[b] == highest(f));
    }
}

/// A component is as long as its two cells that are furthest apart, by column
/// or by row; the result names the places of such two.
pub proof fn law_extent_spans_the_component(c: Seq<usize>, w: int) -> (e: (int, int))
    requires
        w > 0,
        c.len() > 0,
    ensures
        0 <= e.0 < c.len(),
        0 <= e.1 < c.len(),
        extent_of(c, w) == c[e.1] as int % w - c[e.0] as int % w + 1 || extent_of(c, w) == c[e.1]
            as int / w - c[e.0] as int / w + 1,
        forall|i: int, j: int|
            0 <= i < c.len() && 0 <= j < c.len() ==> (#[trigger] c[i]) as int % w - (
            #[trigger] c[j]) as int % w < extent_of(c, w) && c[i] as int / w - c[j] as int / w
                < extent_of(c, w),
{
    let (x, y) = (columns(c, w), rows(c, w));
    lemma_bounds(x);
    lemma_bounds(y);
    assert forall|i: int, j: int| 0 <= i < c.len() && 0 <= j < c.len() implies (
    #[trigger] c[i]) as int % w - (#[trigger] c[j]) as int % w < extent_of(c, w) && c[i] as int / w
        - c[j] as int / w < extent_of(c, w) by {
        assert(x[i] == c[i] as int % w && x[j] == c[j] as int % w);
        assert(y[i] == c[i] as int / w && y[j] == c[j] as int / w);
    }
    let a = choose|a: int| 0 <= a < x.len() && x[a] == lowest(x);
    let b = choose|b: int| 0 <= b < x.len() && x[b] == highest(x);
    let p = choose|p: int| 0 <= p < y.len() && y[p] == lowest(y);
    let q = choose|q: int| 0 <= q < y.len() && y[q] == highest(y);
    if extent_of(c, w) == x[b] - x[a] + 1 {
        (a, b)
    } else {
        (p, q)
    }
}

/// A component is kept as a trail if it is elongated and reaches over forty
/// columns or rows, and dropped otherwise.
pub proof fn law_trails_are_long_and_thin(
    mask: Seq<bool>,
    h: int,
    comps: Seq<Seq<usize>>,
    elongated: Seq<bool>,
    w: int,
    kept: Seq<bool>,
    k: int,
    j: usize,
)
    requires
        w > 0,
        mask.len() == w * h,
        region::are_components(mask, w, h, comps),
        shows_trails(mask, comps, elongated, w, kept),
        0 <= k < comps.len(),
        comps[k].contains(j),
    ensures
        kept.len() == mask.len(),
        kept[j as int] ==> elongated[k] && exists|a: usize, b: usize|
            comps[k].contains(a) && comps[k].contains(b) && (#[trigger] (a as int % w) - #[trigger] (
            b as int % w) >= 39 || a as int / w - b as int / w >= 39),
        elongated[k] && (exists|a: usize, b: usize|
            comps[k].contains(a) && comps[k].contains(b) && (#[trigger] (a as int % w) - #[trigger] (
            b as int % w) >= 39 || a as int / w - b as int / w >= 39)) ==> kept[j as int],
{
    let c = comps[k];
    assert(region::component_of(mask, w, h, c[0] as int, c));
    let (p, q) = law_extent_spans_the_component(c, w);
    assert(c.contains(c[p]) && c.contains(c[q]));
    if kept[j as int] {
        assert(are_trails(comps, elongated, w)[k]);
        let (a, b) = (c[q], c[p]);
        assert(a as int % w - b as int % w >= 39 || a as int / w - b as int / w >= 39);
    }
    if elongated[k] && (exists|a: usize, b: usize|
        comps[k].contains(a) && comps[k].contains(b) && (#[trigger] (a as int % w) - #[trigger] (
        b as int % w) >= 39 || a as int / w - b as int / w >= 39)) {
        let (a, b) = choose|a: usize, b: usize|
            comps[k].contains(a) && comps[k].contains(b) && (#[trigger] (a as int % w) - #[trigger] (
            b as int % w) >= 39 || a as int / w - b as int / w >= 39);
        let i = choose|i: int| 0 <= i < c.len() && c[i] == a;
        let l = choose|l: int| 0 <= l < c.len() && c[l] == b;
        assert(c[i] as int % w - c[l] as int % w < extent_of(c, w));
        assert forall|m: int| 0 <= m < comps.len() && (#[trigger] comps[m]).contains(j) implies are_trails(
            comps,
            elongated,
            w,
        )[m] by {
            assert(m == k);
        }
    }
}

/// Trails grow by two pixels to every side.
pub proof fn law_trails_grow_by_two(kept: Seq<bool>, w: int, h: int, x: int, y: int, a: int, b: int)
    requires
        kept.len() == w * h,
        0 <= x < w,
        0 <= y < h,
        0 <= a < w,
        0 <= b < h,
        kept[b * w + a],
        forall|p: int, q: int|
            0 <= p < w && 0 <= q < h && !(p == a && q == b) ==> !kept[#[trigger] grid::cell(p, q, w)],
    ensures
        region::grown(kept, w, h, TRANSIENT_DILATE as int)[y * w + x] <==> -2 <= a - x <= 2 && -2
            <= b - y <= 2,
{
    if -2 <= a - x <= 2 && -2 <= b - y <= 2 {
        region::law_growth_reaches(kept, w, h, 2, x, y, a, b);
    }
    if region::grown(kept, w, h, TRANSIENT_DILATE as int)[y * w + x] {
        let (p, q) = region::law_growth_comes_from_near(kept, w, h, 2, x, y);
        assert(kept[grid::cell(p, q, w)]);
    }
}

/// A block shows foreground if one of its four by four pixels does.
pub proof fn law_blocks_are_four_by_four(
    fg: Seq<bool>,
    w: int,
    h: int,
    x: int,
    y: int,
    px: int,
    py: int,
)
    requires
        0 <= px < w,
        0 <= py < h,
        4 * x <= px < 4 * x + 4,
        4 * y <= py < 4 * y + 4,
        fg[py * w + px],
    ensures
        block_has(fg, w, h, x, y),
{
    assert(fg[grid::cell(px, py, w)]);
}

/// A block that shows foreground has a pixel that does, which the result
/// names.
pub proof fn law_blocks_show_their_pixels(fg: Seq<bool>, w: int, h: int, x: int, y: int) -> (p: (
    int,
    int,
))
    requires
        block_has(fg, w, h, x, y),
    ensures
        p.0 < w && p.1 < h,
        4 * x <= p.0 < 4 * x + 4,
        4 * y <= p.1 < 4 * y + 4,
        fg[p.1 * w + p.0],
{
    let x1 = if OCC_SCALE * (x + 1) < w {
        OCC_SCALE * (x + 1)
    } else {
        w
    };
    let y1 = if OCC_SCALE * (y + 1) < h {
        OCC_SCALE * (y + 1)
    } else {
        h
    };
    let (a, b) = choose|a: int, b: int|
        OCC_SCALE * x <= a < x1 && OCC_SCALE * y <= b < y1 && fg[#[trigger] grid::cell(a, b, w)];
    (a, b)
}

/// Every pixel that is not masked is looked at on a small image, and one at
/// every step on a large one; a masked one never is.
pub proof fn law_samples_are_evenly_spread(mask: Seq<bool>, stride: int, k: int)
    requires
        stride >= 1,
    ensures
        mask.len() == 0 ==> sampled(mask, stride, k * stride),
        mask.len() > 0 ==> sampled(mask, stride, k * stride) == !mask[k * stride],
        forall|d: int| 0 < d < stride ==> !sampled(mask, stride, #[trigger] (k * stride + d)),
        stride == 1 && mask.len() == 0 ==> sampled(mask, stride, k),
{
    vstd::arithmetic::div_mod::lemma_mod_multiples_basic(k, stride);
    assert forall|d: int| 0 < d < stride implies !sampled(
        mask,
        stride,
        #[trigger] (k * stride + d),
    ) by {
        vstd::arithmetic::div_mod::lemma_fundamental_div_mod_converse(k * stride + d, stride, k, d);
    }
}

proof fn lemma_info_at(frames: Seq<FrameInfo>, idx: int)
    ensures
        match info_at(frames, idx) {
            Some(k) => 0 <= k < frames.len() && frames[k].idx == idx && forall|j: int|
                k < j < frames.len() ==> (#[trigger] frames[j]).idx != idx,
            None => forall|j: int| 0 <= j < frames.len() ==> (#[trigger] frames[j]).idx != idx,
        },
    decreases frames.len(),
{
    if frames.len() > 0 && frames.last().idx != idx {
        let f = frames.drop_last();
        lemma_info_at(f, idx);
        assert forall|j: int| 0 <= j < f.len() implies f[j] == #[trigger] frames[j] by {}
    }
}

/// A file that was measured is exported unless its frame is marked or its sky
/// has reached the white and is more than 2.3 times the session's; one that was
/// not is exported only without stabilization.
pub proof fn law_what_is_exported(
    frames: Seq<FrameInfo>,
    ratios: Seq<i64>,
    white: i64,
    med: i64,
    stabilize: bool,
    i: int,
    k: int,
)
    requires
        0 <= k < frames.len(),
        frames[k].idx == i,
        forall|j: int| k < j < frames.len() ==> (#[trigger] frames[j]).idx != i,
    ensures
        !frames[k].export ==> !exported(frames, ratios, white, med, stabilize, i),
        frames[k].export && frames[k].level < white ==> exported(
            frames,
            ratios,
            white,
            med,
            stabilize,
            i,
        ),
        frames[k].export && ratios[k] < 0x4013_3333 ==> exported(
            frames,
            ratios,
            white,
            med,
            stabilize,
            i,
        ),
        frames[k].export && med <= 0 ==> exported(frames, ratios, white, med, stabilize, i),
        frames[k].level >= white && med > 0 && ratios[k] >= 0x4013_3333 ==> !exported(
            frames,
            ratios,
            white,
            med,
            stabilize,
            i,
        ),
{
    lemma_info_at(frames, i);
}

/// A file without a measured frame is exported as it is, unless the sequence is
/// stabilized.
pub proof fn law_unmeasured_files_are_not_stabilized(
    frames: Seq<FrameInfo>,
    ratios: Seq<i64>,
    white: i64,
    med: i64,
    stabilize: bool,
    i: int,
)
    requires
        forall|j: int| 0 <= j < frames.len() ==> (#[trigger] frames[j]).idx != i,
    ensures
        exported(frames, ratios, white, med, stabilize, i) == !stabilize,
{
    lemma_info_at(frames, i);
}

/// The frames are exported in the order of the files, each once, and only
/// those that are to be.
pub proof fn law_export_order_is_the_files(
    files: usize,
    frames: Seq<FrameInfo>,
    ratios: Seq<i64>,
    white: i64,
    med: i64,
    stabilize: bool,
)
    ensures
        ({
            let out = region::picked(
                files as int,
                |i: int| exported(frames, ratios, white, med, stabilize, i),
            );
            &&& forall|a: int, b: int|
                0 <= a < b < out.len() ==> #[trigger] out[a] < #[trigger] out[b]
            &&& forall|v: usize|
                out.contains(v) <==> v < files && #[trigger] exported(
                    frames,
                    ratios,
                    white,
                    med,
                    stabilize,
                    v as int,
                )
        }),
{
    let p = |i: int| exported(frames, ratios, white, med, stabilize, i);
    region::lemma_picked(files as int, p);
    let out = region::picked(files as int, p);
    assert forall|v: usize|
        out.contains(v) <==> v < files && #[trigger] exported(
            frames,
            ratios,
            white,
            med,
            stabilize,
            v as int,
        ) by {
        if out.contains(v) {
            let k = choose|k: int| 0 <= k < out.len() && out[k] == v;
            assert(p(out[k] as int));
        }
        if v < files && p(v as int) {
            assert(out.contains(v));
        }
    }
}

/// On a tracked sequence a window holds every frame in its reach, each once
/// and in order.
pub proof fn law_tracked_windows_are_full(order: Seq<usize>, cur: int, lo: int, n: int, p: usize)
    requires
        0 <= lo <= cur < n <= usize::MAX,
    ensures
        window_positions(order, None, cur, lo, n).contains(p) <==> lo <= p < n,
        forall|a: int, b: int|
            0 <= a < b < window_positions(order, None, cur, lo, n).len() ==> window_positions(
                order,
                None,
                cur,
                lo,
                n,
            )[a] < window_positions(order, None, cur, lo, n)[b],
{
    let q = |p: int| p >= lo && stays(order, None, cur, p);
    let all = window_positions(order, None, cur, lo, n);
    region::lemma_picked(n, q);
    assert(all == region::picked(n, q));
    if all.contains(p) {
        let k = choose|k: int| 0 <= k < all.len() && all[k] == p;
        assert(q(all[k] as int));
    }
    if lo <= p < n {
        assert(q(p as int));
    }
}

/// On an untracked sequence a frame stays in a window if every link on the way
/// to it holds.
pub proof fn law_linked_frames_stay(
    order: Seq<usize>,
    l: Seq<bool>,
    cur: int,
    lo: int,
    n: int,
    p: usize,
)
    requires
        0 <= lo <= cur < n <= usize::MAX,
        lo <= p < n,
        order[cur] <= l.len(),
        order[p as int] <= l.len(),
        forall|k: int|
            order[cur] <= k < order[p as int] || order[p as int] <= k < order[cur]
                ==> #[trigger] l[k],
    ensures
        window_positions(order, Some(l), cur, lo, n).contains(p),
{
    let q = |p: int| p >= lo && stays(order, Some(l), cur, p);
    region::lemma_picked(n, q);
    assert(fixed::chained(l, order[cur], order[p as int]));
    assert(q(p as int));
}

/// On an untracked sequence a window holds nothing else: a broken link on the
/// way keeps a frame out.
pub proof fn law_unlinked_frames_leave(
    order: Seq<usize>,
    l: Seq<bool>,
    cur: int,
    lo: int,
    n: int,
    p: usize,
    k: int,
)
    requires
        0 <= lo <= cur < n <= usize::MAX,
        order[cur] <= k < order[p as int] || order[p as int] <= k < order[cur],
        k >= l.len() || !l[k],
    ensures
        !window_positions(order, Some(l), cur, lo, n).contains(p),
{
    let q = |p: int| p >= lo && stays(order, Some(l), cur, p);
    let all = window_positions(order, Some(l), cur, lo, n);
    region::lemma_picked(n, q);
    assert(all == region::picked(n, q));
    if all.contains(p) {
        let j = choose|j: int| 0 <= j < all.len() && all[j] == p;
        assert(q(all[j] as int));
        assert(fixed::chained(l, order[cur], order[p as int]));
    }
}

/// A frame that is alone in its window stays as it is; with neighbours they are
/// brought onto its sky if the camera did not follow it, and taken as they
/// stand if it did.
pub proof fn law_blending_takes_neighbours(members: int, untracked: bool)
    requires
        members >= 1,
    ensures
        blend_of(members, untracked) is Alone <==> members == 1,
        members >= 2 && untracked ==> blend_of(members, untracked) is Warped,
        members >= 2 && !untracked ==> blend_of(members, untracked) is Plain,
        blends(members) <==> !(blend_of(members, untracked) is Alone),
{
}

/// Every member of a window is named by its position. On an untracked sequence
/// another frame comes with the links to it, from the earlier of the two to the
/// later, and backwards to an earlier one.
pub proof fn law_members_come_with_their_links(
    order: Seq<usize>,
    links: Option<Seq<bool>>,
    cur: int,
    w: Seq<usize>,
    out: Seq<Member>,
    k: int,
)
    requires
        are_members(order, links, cur, w, out),
        0 <= k < w.len(),
    ensures
        out.len() == w.len(),
        out[k].pos == w[k],
        links is None ==> out[k].chain is None,
        order[w[k] as int] == order[cur] ==> out[k].chain is None,
        links is Some && order[w[k] as int] > order[cur] ==> out[k].chain == Some(
            Chain { from: order[cur], to: order[w[k] as int], backwards: false },
        ),
        links is Some && order[w[k] as int] < order[cur] ==> out[k].chain == Some(
            Chain { from: order[w[k] as int], to: order[cur], backwards: true },
        ),
{
    assert(out[k].pos == w[k]);
    let (a, b) = (order[cur], order[w[k] as int]);
    if links is Some && a != b {
        assert(out[k].chain is Some);
        assert(out[k].chain->0 == fixed::chain_of(a, b));
    }
}

} // verus!
