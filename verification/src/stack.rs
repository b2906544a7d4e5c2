//! Geometric coverage of a stack and the crop it leaves.
use crate::grid;
use vstd::prelude::*;

verus! {

/// A rectangle standing on the base line of a histogram: columns
/// `x0 .. x1`, `height` tall.
pub open spec fn fits_under(heights: Seq<u32>, x0: int, x1: int, height: int) -> bool {
    &&& 0 <= x0 < x1 <= heights.len()
    &&& height >= 1
    &&& forall|j: int| x0 <= j < x1 ==> height <= #[trigger] heights[j]
}

/// The order in which rectangles of one histogram are preferred: the larger
/// area first; of two equal areas the one that ends further left, and of two
/// that end together the narrower one.
pub open spec fn no_better(
    area: int,
    x0: int,
    x1: int,
    best_area: int,
    best_x0: int,
    best_x1: int,
) -> bool {
    ||| area < best_area
    ||| area == best_area && x1 > best_x1
    ||| area == best_area && x1 == best_x1 && x0 <= best_x0
}

/// `best` is `(area, x0, x1, height)` of a rectangle under the histogram, or
/// all zeros.
pub open spec fn some_rect(heights: Seq<u32>, best: (u64, usize, usize, u32)) -> bool {
    &&& (best.0 == 0 ==> best == (0u64, 0usize, 0usize, 0u32))
    &&& (best.0 > 0 ==> fits_under(heights, best.1 as int, best.2 as int, best.3 as int) && best.0
        == best.3 * (best.2 - best.1))
}

/// `best` is the preferred one of all rectangles under the histogram; it is
/// all zeros exactly when there is none.
pub open spec fn best_rect(heights: Seq<u32>, best: (u64, usize, usize, u32)) -> bool {
    &&& some_rect(heights, best)
    &&& forall|a: int, b: int, h: int| #[trigger]
        fits_under(heights, a, b, h) ==> no_better(
            h * (b - a),
            a,
            b,
            best.0 as int,
            best.1 as int,
            best.2 as int,
        )
}

/// `best` is the preferred one of the rectangles that end before column
/// `limit` and cannot be continued to the right.
spec fn best_closed(heights: Seq<u32>, limit: int, best: (u64, usize, usize, u32)) -> bool {
    &&& some_rect(heights, best)
    &&& best.2 < limit || best.0 == 0
    &&& forall|a: int, b: int, h: int| #[trigger]
        fits_under(heights, a, b, h) && b < limit && closed_right(heights, b, h) ==> no_better(
            h * (b - a),
            a,
            b,
            best.0 as int,
            best.1 as int,
            best.2 as int,
        )
}

/// A rectangle `h` tall that ends at `b` cannot be continued to the right.
spec fn closed_right(heights: Seq<u32>, b: int, h: int) -> bool {
    b == heights.len() || heights[b] < h
}

/// Column at which entry `k` of the stack of open rectangles ends being the
/// lowest: the start of the next entry, or `i` for the last one.
spec fn entry_end(open: Seq<(usize, u32)>, k: int, i: int) -> int {
    if k + 1 < open.len() {
        open[k + 1].0 as int
    } else {
        i
    }
}

/// Entry `k` of the stack: it starts before its end, is as tall as the last
/// column of its stretch, and every column from its start on is as tall.
spec fn entry_ok(heights: Seq<u32>, open: Seq<(usize, u32)>, k: int, i: int) -> bool {
    &&& open[k].0 < entry_end(open, k, i) <= i
    &&& heights[entry_end(open, k, i) - 1] == open[k].1
    &&& k + 1 < open.len() ==> open[k].1 < open[k + 1].1
    &&& forall|j: int| open[k].0 <= j < i ==> open[k].1 <= #[trigger] heights[j]
}

/// The stack holds, for the columns before `i`, the rectangles that still
/// reach column `i - 1`, from the lowest to the tallest.
spec fn open_stack(heights: Seq<u32>, open: Seq<(usize, u32)>, i: int) -> bool {
    &&& 0 <= i <= heights.len()
    &&& i > 0 ==> open.len() > 0
    &&& open.len() > 0 ==> open[0].0 == 0
    &&& forall|k: int| 0 <= k < open.len() ==> #[trigger] entry_ok(heights, open, k, i)
}

/// The stack is ordered by start and by height.
proof fn lemma_ordered(heights: Seq<u32>, open: Seq<(usize, u32)>, i: int, k: int, l: int)
    requires
        open_stack(heights, open, i),
        0 <= k < l < open.len(),
    ensures
        open[k].0 < open[l].0,
        open[k].1 < open[l].1,
    decreases l - k,
{
    assert(entry_ok(heights, open, k, i));
    if k + 1 < l {
        lemma_ordered(heights, open, i, k + 1, l);
    }
}

/// No rectangle under the histogram is too large for a `u64`.
pub open spec fn area_fits(heights: Seq<u32>) -> bool {
    forall|j: int| 0 <= j < heights.len() ==> (#[trigger] heights[j]) * heights.len() <= u64::MAX
}

/// Widening or raising a rectangle never shrinks it, and keeps its area only
/// if nothing changed.
proof fn lemma_area(h: int, w: int, h2: int, w2: int)
    requires
        1 <= h <= h2,
        1 <= w <= w2,
    ensures
        1 <= h * w <= h2 * w2,
        h * w == h2 * w2 ==> h == h2 && w == w2,
{
    assert(1 <= h * w) by (nonlinear_arith)
        requires
            1 <= h,
            1 <= w,
    ;
    assert(h * w <= h * w2) by (nonlinear_arith)
        requires
            1 <= h,
            w <= w2,
    ;
    assert(h * w2 <= h2 * w2) by (nonlinear_arith)
        requires
            h <= h2,
            1 <= w2,
    ;
    if w < w2 {
        assert(h * w < h * w2) by (nonlinear_arith)
            requires
                1 <= h,
                w < w2,
        ;
    }
    if h < h2 {
        assert(h * w2 < h2 * w2) by (nonlinear_arith)
            requires
                h < h2,
                1 <= w2,
        ;
    }
}

/// The entry of the stack whose stretch of columns holds column `a`, among
/// the first `k + 1` entries.
proof fn lemma_entry_of(heights: Seq<u32>, open: Seq<(usize, u32)>, i: int, a: int, k: int) -> (e:
    int)
    requires
        open_stack(heights, open, i),
        0 <= k < open.len(),
        0 <= a < entry_end(open, k, i),
    ensures
        0 <= e <= k,
        open[e].0 <= a < entry_end(open, e, i),
    decreases k,
{
    if open[k].0 <= a {
        k
    } else {
        assert(k > 0);
        lemma_entry_of(heights, open, i, a, k - 1)
    }
}

/// A rectangle that ends at `i` is no better than the open entry over whose
/// columns it starts.
proof fn lemma_covered_by_entry(
    heights: Seq<u32>,
    open: Seq<(usize, u32)>,
    i: int,
    a: int,
    h: int,
) -> (e: int)
    requires
        open_stack(heights, open, i),
        fits_under(heights, a, i, h),
    ensures
        0 <= e < open.len(),
        open[e].0 <= a < i,
        h <= open[e].1,
{
    let e = lemma_entry_of(heights, open, i, a, open.len() - 1);
    assert(entry_ok(heights, open, e, i));
    assert(h <= heights[entry_end(open, e, i) - 1]);
    e
}

/// The stack for the columns up to and with `i`: what is left of the one
/// before it once the entries taller than column `i` are gone, and column `i`
/// itself if it is taller than all that is left.
proof fn lemma_next_stack(
    heights: Seq<u32>,
    before: Seq<(usize, u32)>,
    i: int,
    m: int,
    start: usize,
    after: Seq<(usize, u32)>,
)
    requires
        open_stack(heights, before, i),
        i < heights.len(),
        0 <= m <= before.len(),
        forall|k: int| 0 <= k < m ==> (#[trigger] before[k]).1 <= heights[i],
        m < before.len() ==> before[m].1 > heights[i] && start == before[m].0,
        m == before.len() ==> start == i,
        after == if m == 0 || before[m - 1].1 < heights[i] {
            before.take(m).push((start, heights[i]))
        } else {
            before.take(m)
        },
    ensures
        open_stack(heights, after, i + 1),
{
    let pushed = m == 0 || before[m - 1].1 < heights[i];
    assert forall|k: int| 0 <= k < after.len() implies #[trigger] entry_ok(
        heights,
        after,
        k,
        i + 1,
    ) by {
        if k < m {
            assert(entry_ok(heights, before, k, i));
            assert(after[k] == before[k]);
            if k + 1 < m {
                assert(after[k + 1] == before[k + 1]);
            }
        } else if m < before.len() {
            assert(entry_ok(heights, before, m, i));
        }
    }
}

/// How far a rectangle reaches when continued to the right.
proof fn lemma_reach(heights: Seq<u32>, a: int, b: int, h: int) -> (r: int)
    requires
        fits_under(heights, a, b, h),
    ensures
        b <= r,
        fits_under(heights, a, r, h),
        closed_right(heights, r, h),
    decreases heights.len() - b,
{
    if closed_right(heights, b, h) {
        b
    } else {
        lemma_reach(heights, a, b + 1, h)
    }
}

/// Takes the entries taller than `cur` off the stack, at column `i`, and
/// reports the best rectangle known then, with the column from which a
/// rectangle `cur` tall would reach `i`.
fn close_taller(
    heights: &[u32],
    open: &mut Vec<(usize, u32)>,
    i: usize,
    cur: u32,
    known: (u64, usize, usize, u32),
) -> (res: (usize, (u64, usize, usize, u32)))
    requires
        area_fits(heights@),
        open_stack(heights@, old(open)@, i as int),
        best_closed(heights@, i as int, known),
        i == heights@.len() ==> cur == 0,
        i < heights@.len() ==> cur == heights@[i as int],
    ensures
        final(open)@.len() <= old(open)@.len(),
        final(open)@ == old(open)@.take(final(open)@.len() as int),
        forall|k: int| 0 <= k < final(open)@.len() ==> (#[trigger] old(open)@[k]).1 <= cur,
        forall|k: int|
            final(open)@.len() <= k < old(open)@.len() ==> (#[trigger] old(open)@[k]).1 > cur,
        res.0 == if final(open)@.len() < old(open)@.len() {
            old(open)@[final(open)@.len() as int].0
        } else {
            i
        },
        best_closed(heights@, i + 1, res.1),
{
    let ghost st = open@;
    let mut best = known;
    let mut start: usize = i;
    while open.len() > 0 && open[open.len() - 1].1 > cur
        invariant
            area_fits(heights@),
            i <= heights@.len(),
            open_stack(heights@, st, i as int),
            open@.len() <= st.len(),
            open@ == st.take(open@.len() as int),
            forall|k: int| open@.len() <= k < st.len() ==> (#[trigger] st[k]).1 > cur,
            start == if open@.len() < st.len() {
                st[open@.len() as int].0
            } else {
                i
            },
            some_rect(heights@, best),
            best.0 >= known.0,
            best.0 == known.0 ==> best == known,
            best_closed(heights@, i as int, known),
            best.2 <= i || best.0 == 0,
            best.2 == i && best.0 > 0 ==> open@.len() < st.len() && best.1 >= st[open@.len() as int].0,
            forall|k: int|
                open@.len() <= k < st.len() ==> no_better(
                    (#[trigger] st[k]).1 * (i - st[k].0),
                    st[k].0 as int,
                    i as int,
                    best.0 as int,
                    best.1 as int,
                    best.2 as int,
                ),
        decreases open@.len(),
    {
        let ghost top = open@.len() - 1;
        let (prev_i, prev_h) = open[open.len() - 1];
        assert(st[top] == (prev_i, prev_h));
        proof {
            assert(entry_ok(heights@, st, top, i as int));
            let end = entry_end(st, top, i as int);
            assert(heights@[end - 1] * heights@.len() <= u64::MAX);
            lemma_area(prev_h as int, i - prev_i, prev_h as int, heights@.len() as int);
        }
        open.pop();
        assert(open@ =~= st.take(top));
        let area: u64 = prev_h as u64 * (i - prev_i) as u64;
        if area > best.0 {
            best = (area, prev_i, i, prev_h);
            assert(fits_under(heights@, prev_i as int, i as int, prev_h as int));
        }
        start = prev_i;
        assert forall|k: int| open@.len() <= k < st.len() implies no_better(
            (#[trigger] st[k]).1 * (i - st[k].0),
            st[k].0 as int,
            i as int,
            best.0 as int,
            best.1 as int,
            best.2 as int,
        ) by {
            if k > top {
                lemma_ordered(heights@, st, i as int, top, k);
            }
        }
    }
    proof {
        let m = open@.len() as int;
        assert forall|k: int| 0 <= k < m implies (#[trigger] st[k]).1 <= cur by {
            assert(open@[m - 1] == st[m - 1]);
            if k < m - 1 {
                lemma_ordered(heights@, st, i as int, k, m - 1);
            }
        }
        assert forall|a: int, b: int, h: int| #[trigger]
            fits_under(heights@, a, b, h) && b < i + 1 && closed_right(heights@, b, h) implies no_better(
            h * (b - a),
            a,
            b,
            best.0 as int,
            best.1 as int,
            best.2 as int,
        ) by {
            if b < i {
                assert(no_better(
                    h * (b - a),
                    a,
                    b,
                    known.0 as int,
                    known.1 as int,
                    known.2 as int,
                ));
                lemma_area(h, b - a, h, b - a);
            } else {
                let e = lemma_covered_by_entry(heights@, st, i as int, a, h);
                assert(st[e].1 > cur);
                lemma_area(h, i - a, st[e].1 as int, i - st[e].0);
                assert(no_better(
                    st[e].1 * (i - st[e].0),
                    st[e].0 as int,
                    i as int,
                    best.0 as int,
                    best.1 as int,
                    best.2 as int,
                ));
            }
        }
    }
    (start, best)
}

/// Largest rectangle under a histogram, as `(area, x0, x1, height)` with `x1`
/// exclusive; all zeros where every column is empty. Of several with one area
/// it is the one that ends furthest left, and of those the narrowest.
///
/// The area is a `u64`, so no column may be taller than that leaves room for.
pub fn largest_rect_in_histogram(heights: &[u32]) -> (best: (u64, usize, usize, u32))
    requires
        area_fits(heights@),
    ensures
        best_rect(heights@, best),
{
    let mut open: Vec<(usize, u32)> = Vec::new();
    let mut best: (u64, usize, usize, u32) = (0, 0, 0, 0);
    let n: usize = heights.len();
    let mut i: usize = 0;
    while i < n
        invariant
            i <= n,
            n == heights@.len(),
            area_fits(heights@),
            open_stack(heights@, open@, i as int),
            best_closed(heights@, i as int, best),
        decreases n - i,
    {
        let cur: u32 = heights[i];
        let ghost st = open@;
        let (start, found) = close_taller(heights, &mut open, i, cur, best);
        best = found;
        let ghost m = open@.len() as int;
        let lower: bool = if open.len() == 0 {
            true
        } else {
            open[open.len() - 1].1 < cur
        };
        if lower {
            open.push((start, cur));
        }
        proof {
            lemma_next_stack(heights@, st, i as int, m, start, open@);
        }
        i = i + 1;
    }
    let (_, found) = close_taller(heights, &mut open, n, 0, best);
    proof {
        assert forall|a: int, b: int, h: int| #[trigger] fits_under(heights@, a, b, h) implies no_better(
            h * (b - a),
            a,
            b,
            found.0 as int,
            found.1 as int,
            found.2 as int,
        ) by {
            let r = lemma_reach(heights@, a, b, h);
            lemma_area(h, b - a, h, r - a);
            assert(no_better(
                h * (r - a),
                a,
                r,
                found.0 as int,
                found.1 as int,
                found.2 as int,
            ));
        }
    }
    found
}

/// How one frame meets one pixel of the stack.
#[derive(Clone, Copy, Debug, PartialEq, Eq, Structural)]
pub enum Sample {
    /// The frame's sensor does not cover the pixel.
    Outside,
    /// The sensor covers it, but foreground stands in front of the sky.
    Occluded,
    /// The sensor covers it and sees the sky.
    Seen,
}

/// Per pixel of the reference frame, how many frames cover it geometrically,
/// occluded by foreground or not.
pub struct Accumulator {
    pub width: usize,
    pub height: usize,
    pub cover: Vec<u32>,
}

/// Coverage once a frame is added.
pub open spec fn covered_after(cover: Seq<u32>, samples: Seq<Sample>) -> Seq<u32> {
    cover.map(
        |i: int, c: u32|
            if samples[i] is Outside {
                c
            } else {
                (c + 1) as u32
            },
    )
}

/// Highest coverage of any pixel; zero where there is no pixel.
pub open spec fn peak(cover: Seq<u32>) -> u32
    decreases cover.len(),
{
    if cover.len() == 0 {
        0
    } else if cover.last() > peak(cover.drop_last()) {
        cover.last()
    } else {
        peak(cover.drop_last())
    }
}

/// The peak is reached and never exceeded.
pub proof fn lemma_peak(cover: Seq<u32>)
    ensures
        forall|i: int| 0 <= i < cover.len() ==> #[trigger] cover[i] <= peak(cover),
        cover.len() > 0 ==> exists|i: int| 0 <= i < cover.len() && #[trigger] cover[i] == peak(cover),
    decreases cover.len(),
{
    if cover.len() > 0 {
        let front = cover.drop_last();
        lemma_peak(front);
        assert forall|i: int| 0 <= i < cover.len() implies #[trigger] cover[i] <= peak(cover) by {
            if i < front.len() {
                assert(front[i] == cover[i]);
            }
        }
        if cover.last() > peak(front) {
            assert(cover[cover.len() - 1] == peak(cover));
        } else if front.len() > 0 {
            let i = choose|i: int| 0 <= i < front.len() && #[trigger] front[i] == peak(front);
            assert(cover[i] == peak(cover));
        } else {
            assert(cover[0] == peak(cover));
        }
    }
}

/// Every pixel of the rectangle `x0 .. x1`, `y0 .. y1` has coverage `c`.
pub open spec fn rect_of(
    cover: Seq<u32>,
    w: int,
    h: int,
    c: u32,
    x0: int,
    y0: int,
    x1: int,
    y1: int,
) -> bool {
    &&& 0 <= x0 < x1 <= w
    &&& 0 <= y0 < y1 <= h
    &&& forall|x: int, y: int|
        x0 <= x < x1 && y0 <= y < y1 ==> cover[#[trigger] grid::cell(x, y, w)] == c
}

/// The order in which crops are preferred: the larger area first; of equal
/// areas the one whose last row is higher up, then the one that ends further
/// left, then the narrower one.
pub open spec fn no_better_crop(
    rect: (int, int, int, int),
    best: (int, int, int, int),
) -> bool {
    let area = (rect.2 - rect.0) * (rect.3 - rect.1);
    let best_area = (best.2 - best.0) * (best.3 - best.1);
    ||| area < best_area
    ||| area == best_area && rect.3 > best.3
    ||| area == best_area && rect.3 == best.3 && no_better(
        area,
        rect.0,
        rect.2,
        best_area,
        best.0,
        best.2,
    )
}

/// How many rows in a row, up to and with row `y`, have coverage `c` in
/// column `x`.
spec fn run(cover: Seq<u32>, w: int, c: u32, x: int, y: int) -> int
    decreases y + 1,
{
    if y < 0 || cover[grid::cell(x, y, w)] != c {
        0
    } else {
        1 + run(cover, w, c, x, y - 1)
    }
}

proof fn lemma_run(cover: Seq<u32>, w: int, c: u32, x: int, y: int, h: int)
    requires
        -1 <= y,
        0 <= h,
    ensures
        0 <= run(cover, w, c, x, y) <= y + 1,
        h <= run(cover, w, c, x, y) <==> h <= y + 1 && forall|r: int|
            y - h < r <= y ==> cover[#[trigger] grid::cell(x, r, w)] == c,
    decreases y + 1,
{
    if y >= 0 && cover[grid::cell(x, y, w)] == c {
        lemma_run(cover, w, c, x, y - 1, if h > 0 { h - 1 } else { 0 });
        if h > 0 && h <= y + 1 && forall|r: int|
            y - h < r <= y ==> cover[#[trigger] grid::cell(x, r, w)] == c {
            assert forall|r: int| y - 1 - (h - 1) < r <= y - 1 implies cover[#[trigger] grid::cell(
                x,
                r,
                w,
            )] == c by {}
        }
    } else if y >= 0 && h > 0 {
        assert(cover[grid::cell(x, y, w)] != c);
    }
}

/// Rectangles under the histogram of row `y` are the rectangles of the grid
/// whose last row is `y`.
proof fn lemma_rect_is_histogram(
    cover: Seq<u32>,
    w: int,
    h: int,
    c: u32,
    y: int,
    heights: Seq<u32>,
    a: int,
    b: int,
    tall: int,
)
    requires
        0 <= y < h,
        heights.len() == w,
        forall|x: int| 0 <= x < w ==> #[trigger] heights[x] == run(cover, w, c, x, y),
    ensures
        fits_under(heights, a, b, tall) <==> rect_of(cover, w, h, c, a, y + 1 - tall, b, y + 1),
{
    if fits_under(heights, a, b, tall) {
        assert(tall <= heights[a]);
        lemma_run(cover, w, c, a, y, tall);
        assert forall|x: int, r: int| a <= x < b && y + 1 - tall <= r < y + 1 implies cover[
            #[trigger] grid::cell(x, r, w)] == c by {
            assert(tall <= heights[x]);
            lemma_run(cover, w, c, x, y, tall);
        }
    }
    if rect_of(cover, w, h, c, a, y + 1 - tall, b, y + 1) {
        assert forall|x: int| a <= x < b implies tall <= #[trigger] heights[x] by {
            assert forall|r: int| y - tall < r <= y implies cover[#[trigger] grid::cell(x, r, w)]
                == c by {}
            lemma_run(cover, w, c, x, y, tall);
        }
    }
}

/// A crop `(x0, y0, x1, y1)` as mathematical integers.
pub open spec fn corners(r: (usize, usize, usize, usize)) -> (int, int, int, int) {
    (r.0 as int, r.1 as int, r.2 as int, r.3 as int)
}

/// `pixels` are those of a rectangle of an image `w` wide, row by row.
pub open spec fn cuts_out(
    w: int,
    b: (usize, usize, usize, usize),
    pixels: Seq<usize>,
    width: int,
    height: int,
) -> bool {
    &&& width == b.2 - b.0
    &&& height == b.3 - b.1
    &&& pixels.len() == width * height
    &&& forall|x: int, y: int|
        0 <= x < width && 0 <= y < height ==> pixels[#[trigger] grid::cell(x, y, width)]
            == grid::cell(b.0 + x, b.1 + y, w)
}

impl Accumulator {
    /// One counter per pixel.
    pub open spec fn wf(self) -> bool {
        self.cover@.len() == self.width * self.height
    }

    /// Whether `r` is the crop of this stack: the whole frame without any
    /// coverage, and otherwise the preferred one of the rectangles in which
    /// every pixel has the highest coverage.
    pub open spec fn is_crop(self, r: (usize, usize, usize, usize)) -> bool {
        let c = peak(self.cover@);
        let (w, h) = (self.width as int, self.height as int);
        if c == 0 {
            r == (0usize, 0usize, self.width, self.height)
        } else {
            &&& rect_of(self.cover@, w, h, c, r.0 as int, r.1 as int, r.2 as int, r.3 as int)
            &&& forall|x0: int, y0: int, x1: int, y1: int| #[trigger]
                rect_of(self.cover@, w, h, c, x0, y0, x1, y1) ==> no_better_crop(
                    (x0, y0, x1, y1),
                    corners(r),
                )
        }
    }

    /// A stack without frames.
    pub fn new(width: usize, height: usize) -> (acc: Self)
        requires
            width * height <= usize::MAX,
        ensures
            acc.wf(),
            acc.width == width,
            acc.height == height,
            acc.cover@ == Seq::new((width * height) as nat, |i: int| 0u32),
    {
        Accumulator { width, height, cover: vec![0u32; width * height] }
    }

    /// Counts one frame: a pixel gains coverage wherever the sensor covers
    /// it, foreground or not.
    pub fn add(&mut self, samples: &[Sample])
        requires
            old(self).wf(),
            samples@.len() == old(self).cover@.len(),
            forall|i: int|
                0 <= i < samples@.len() ==> old(self).cover@[i] < u32::MAX || (
                #[trigger] samples@[i]) is Outside,
        ensures
            final(self).wf(),
            final(self).width == old(self).width,
            final(self).height == old(self).height,
            final(self).cover@ == covered_after(old(self).cover@, samples@),
    {
        let ghost before = self.cover@;
        let n: usize = samples.len();
        let mut i: usize = 0;
        while i < n
            invariant
                i <= n,
                n == samples@.len() == before.len() == self.cover@.len(),
                self.width == old(self).width,
                self.height == old(self).height,
                forall|j: int|
                    0 <= j < n ==> before[j] < u32::MAX || (#[trigger] samples@[j]) is Outside,
                forall|j: int|
                    0 <= j < i ==> #[trigger] self.cover@[j] == covered_after(before, samples@)[j],
                forall|j: int| i <= j < n ==> #[trigger] self.cover@[j] == before[j],
            decreases n - i,
        {
            if samples[i] != Sample::Outside {
                let c: u32 = self.cover[i];
                assert(before[i as int] < u32::MAX || samples@[i as int] is Outside);
                self.cover.set(i, c + 1);
            }
            i = i + 1;
        }
        assert(self.cover@ =~= covered_after(before, samples@));
    }

    /// Largest axis-aligned rectangle in which every pixel was covered by the
    /// maximum number of frames, as `(x0, y0, x1, y1)` with `x1` and `y1`
    /// exclusive; the whole frame if there is no coverage.
    pub fn valid_bounds(&self) -> (r: (usize, usize, usize, usize))
        requires
            self.wf(),
            self.height <= u32::MAX,
        ensures
            self.is_crop(r),
    {
        let max_c: u32 = highest(&self.cover);
        if max_c == 0 {
            return (0, 0, self.width, self.height);
        }
        let w: usize = self.width;
        let h: usize = self.height;
        let ghost total: usize = self.cover.len();
        let mut heights: Vec<u32> = vec![0u32; w];
        let mut best_area: u64 = 0;
        let mut best: (usize, usize, usize, usize) = (0, 0, w, h);
        let mut y: usize = 0;
        while y < h
            invariant
                y <= h,
                w == self.width,
                h == self.height,
                h <= u32::MAX,
                self.wf(),
                w * h == total,
                max_c > 0,
                heights@.len() == w,
                forall|x: int|
                    0 <= x < w ==> #[trigger] heights@[x] == run(
                        self.cover@,
                        w as int,
                        max_c,
                        x,
                        y - 1,
                    ),
                best_area > 0 ==> rect_of(
                    self.cover@,
                    w as int,
                    h as int,
                    max_c,
                    best.0 as int,
                    best.1 as int,
                    best.2 as int,
                    best.3 as int,
                ) && best.3 <= y && best_area == (best.2 - best.0) * (best.3 - best.1),
                forall|x0: int, y0: int, x1: int, y1: int| #[trigger]
                    rect_of(self.cover@, w as int, h as int, max_c, x0, y0, x1, y1) && y1 <= y ==>
                    best_area > 0 && no_better_crop((x0, y0, x1, y1), corners(best)),
            decreases h - y,
        {
            let ghost prior = heights@;
            let mut x: usize = 0;
            while x < w
                invariant
                    x <= w,
                    y < h,
                    w == self.width,
                    h == self.height,
                    h <= u32::MAX,
                    self.wf(),
                    w * h == total,
                    heights@.len() == w == prior.len(),
                    forall|j: int|
                        0 <= j < w ==> #[trigger] prior[j] == run(
                            self.cover@,
                            w as int,
                            max_c,
                            j,
                            y - 1,
                        ),
                    forall|j: int|
                        0 <= j < x ==> #[trigger] heights@[j] == run(
                            self.cover@,
                            w as int,
                            max_c,
                            j,
                            y as int,
                        ),
                    forall|j: int| x <= j < w ==> #[trigger] heights@[j] == prior[j],
                decreases w - x,
            {
                proof {
                    grid::lemma_cell(x as int, y as int, w as int, h as int);
                    lemma_run(self.cover@, w as int, max_c, x as int, y - 1, 0);
                    assert(heights@[x as int] == prior[x as int]);
                }
                if self.cover[y * w + x] == max_c {
                    let tall: u32 = heights[x];
                    heights.set(x, tall + 1);
                } else {
                    heights.set(x, 0);
                }
                x = x + 1;
            }
            proof {
                assert forall|j: int| 0 <= j < heights@.len() implies (#[trigger] heights@[j])
                    * heights@.len() <= u64::MAX by {
                    lemma_run(self.cover@, w as int, max_c, j, y as int, 0);
                    let tall = heights@[j] as int;
                    assert(tall * w <= h * w) by (nonlinear_arith)
                        requires
                            tall <= h,
                            w >= 0,
                    ;
                    assert(h * w == w * h) by (nonlinear_arith);
                }
            }
            let (area, x0, x1, hh) = largest_rect_in_histogram(heights.as_slice());
            let ghost earlier = best;
            let ghost earlier_area = best_area;
            proof {
                lemma_rect_is_histogram(
                    self.cover@,
                    w as int,
                    h as int,
                    max_c,
                    y as int,
                    heights@,
                    x0 as int,
                    x1 as int,
                    hh as int,
                );
            }
            if area > best_area {
                best_area = area;
                let y1: usize = y + 1;
                let y0: usize = y1 - hh as usize;
                best = (x0, y0, x1, y1);
                proof {
                    let tall = hh as int;
                    assert((x1 - x0) * tall == tall * (x1 - x0)) by (nonlinear_arith);
                }
            }
            assert forall|a: int, b: int, c: int, d: int| #[trigger]
                rect_of(self.cover@, w as int, h as int, max_c, a, b, c, d) && d <= y + 1 implies
                best_area > 0 && no_better_crop((a, b, c, d), corners(best)) by {
                if d == y + 1 {
                    let tall = d - b;
                    lemma_rect_is_histogram(
                        self.cover@,
                        w as int,
                        h as int,
                        max_c,
                        y as int,
                        heights@,
                        a,
                        c,
                        tall,
                    );
                    assert(fits_under(heights@, a, c, tall));
                    lemma_area(tall, c - a, tall, c - a);
                    assert((c - a) * tall == tall * (c - a)) by (nonlinear_arith);
                }
            }
            y = y + 1;
        }
        proof {
            lemma_peak(self.cover@);
            let i = choose|i: int|
                0 <= i < self.cover@.len() && #[trigger] self.cover@[i] == peak(self.cover@);
            assert(w > 0) by {
                if w == 0 {
                    assert(w * h == 0) by (nonlinear_arith)
                        requires
                            w == 0,
                    ;
                }
            }
            grid::lemma_cell_of(i, w as int, h as int);
            let (px, py) = (i % (w as int), i / (w as int));
            assert(rect_of(self.cover@, w as int, h as int, max_c, px, py, px + 1, py + 1)) by {
                assert forall|x: int, r: int|
                    px <= x < px + 1 && py <= r < py + 1 implies self.cover@[#[trigger] grid::cell(
                    x,
                    r,
                    w as int,
                )] == max_c by {
                    assert(x == px && r == py);
                }
            }
        }
        best
    }

    /// The crop to `valid_bounds`: for every pixel of the result, in row
    /// order, the pixel of the stack it is taken from, with the width and
    /// height of the result.
    pub fn finalize_cropped(&self) -> (r: (Vec<usize>, usize, usize))
        requires
            self.wf(),
            self.height <= u32::MAX,
        ensures
            exists|b: (usize, usize, usize, usize)| #[trigger]
                self.is_crop(b) && cuts_out(self.width as int, b, r.0@, r.1 as int, r.2 as int),
    {
        let ghost total: usize = self.cover.len();
        let b = self.valid_bounds();
        let (x0, y0, x1, y1) = b;
        assert(x0 <= x1 <= self.width && y0 <= y1 <= self.height);
        let new_w: usize = x1 - x0;
        let new_h: usize = y1 - y0;
        let mut out: Vec<usize> = Vec::new();
        let mut ry: usize = 0;
        while ry < new_h
            invariant
                ry <= new_h,
                self.width * self.height == total,
                new_w == x1 - x0,
                new_h == y1 - y0,
                x0 <= x1 <= self.width,
                y0 <= y1 <= self.height,
                out@.len() == ry * new_w,
                forall|x: int, y: int|
                    0 <= x < new_w && 0 <= y < ry ==> out@[#[trigger] grid::cell(x, y, new_w as int)]
                        == grid::cell(x0 + x, y0 + y, self.width as int),
            decreases new_h - ry,
        {
            let mut rx: usize = 0;
            while rx < new_w
                invariant
                    rx <= new_w,
                    ry < new_h,
                    self.width * self.height == total,
                    new_w == x1 - x0,
                    new_h == y1 - y0,
                    x0 <= x1 <= self.width,
                    y0 <= y1 <= self.height,
                    out@.len() == ry * new_w + rx,
                    forall|x: int, y: int|
                        0 <= x < new_w && 0 <= y < ry || 0 <= x < rx && y == ry ==> out@[
                            #[trigger] grid::cell(x, y, new_w as int)] == grid::cell(
                            x0 + x,
                            y0 + y,
                            self.width as int,
                        ),
                decreases new_w - rx,
            {
                proof {
                    grid::lemma_cell(
                        x0 + rx,
                        y0 + ry,
                        self.width as int,
                        self.height as int,
                    );
                }
                let ghost before = out@;
                out.push((y0 + ry) * self.width + (x0 + rx));
                assert forall|x: int, y: int|
                    0 <= x < new_w && 0 <= y < ry || 0 <= x < rx + 1 && y == ry implies out@[
                    #[trigger] grid::cell(x, y, new_w as int)] == grid::cell(
                    x0 + x,
                    y0 + y,
                    self.width as int,
                ) by {
                    if y < ry {
                        grid::lemma_cell(x, y, new_w as int, ry as int);
                        assert(new_w * ry == ry * new_w) by (nonlinear_arith);
                    } else {
                        assert(0 <= y * new_w) by (nonlinear_arith)
                            requires
                                0 <= y,
                                0 <= new_w,
                        ;
                    }
                    if x != rx || y != ry {
                        assert(out@[grid::cell(x, y, new_w as int)] == before[grid::cell(
                            x,
                            y,
                            new_w as int,
                        )]);
                    }
                }
                rx = rx + 1;
            }
            assert((ry + 1) * new_w == ry * new_w + new_w) by (nonlinear_arith);
            ry = ry + 1;
        }
        assert(new_h * new_w == new_w * new_h) by (nonlinear_arith);
        assert(self.is_crop(b));
        (out, new_w, new_h)
    }
}

/// The highest counter, zero without any.
fn highest(cover: &Vec<u32>) -> (c: u32)
    ensures
        c == peak(cover@),
{
    let mut c: u32 = 0;
    let mut i: usize = 0;
    while i < cover.len()
        invariant
            i <= cover@.len(),
            c == peak(cover@.take(i as int)),
        decreases cover@.len() - i,
    {
        assert(cover@.take(i + 1).drop_last() =~= cover@.take(i as int));
        if cover[i] > c {
            c = cover[i];
        }
        i = i + 1;
    }
    assert(cover@.take(i as int) =~= cover@);
    c
}

/// Foreground never costs coverage: two frames that cover the same pixels
/// leave the same coverage, whatever either of them hides.
pub proof fn law_foreground_counts_as_coverage(cover: Seq<u32>, a: Seq<Sample>, b: Seq<Sample>)
    requires
        a.len() == cover.len() == b.len(),
        forall|i: int|
            0 <= i < cover.len() ==> ((#[trigger] a[i]) is Outside <==> b[i] is Outside),
    ensures
        covered_after(cover, a) == covered_after(cover, b),
{
    assert forall|i: int| 0 <= i < cover.len() implies #[trigger] covered_after(cover, a)[i]
        == covered_after(cover, b)[i] by {
        assert(a[i] is Outside <==> b[i] is Outside);
    }
    assert(covered_after(cover, a) =~= covered_after(cover, b));
}

/// The crop is unique: coverage alone decides which pixels survive.
pub proof fn law_crop_is_unique(
    acc: Accumulator,
    r: (usize, usize, usize, usize),
    s: (usize, usize, usize, usize),
)
    requires
        acc.wf(),
        acc.is_crop(r),
        acc.is_crop(s),
    ensures
        r == s,
{
    let c = peak(acc.cover@);
    let (w, h) = (acc.width as int, acc.height as int);
    if c != 0 {
        assert(rect_of(
            acc.cover@,
            w,
            h,
            c,
            r.0 as int,
            r.1 as int,
            r.2 as int,
            r.3 as int,
        ));
        assert(rect_of(
            acc.cover@,
            w,
            h,
            c,
            s.0 as int,
            s.1 as int,
            s.2 as int,
            s.3 as int,
        ));
        assert(no_better_crop(corners(r), corners(s)));
        assert(no_better_crop(corners(s), corners(r)));
        let wide = r.2 - r.0;
        assert(r.0 == s.0 && r.2 == s.2 && r.3 == s.3);
        assert(r.3 - r.1 == s.3 - s.1) by (nonlinear_arith)
            requires
                wide * (r.3 - r.1) == wide * (s.3 - s.1),
                wide > 0,
        ;
    }
}

/// No rectangle under a histogram is larger than the one found, which is one
/// itself.
pub proof fn law_no_rectangle_is_larger(
    heights: Seq<u32>,
    best: (u64, usize, usize, u32),
    a: int,
    b: int,
    h: int,
)
    requires
        best_rect(heights, best),
        0 <= a < b <= heights.len(),
        h >= 1,
        forall|j: int| a <= j < b ==> h <= #[trigger] heights[j],
    ensures
        h * (b - a) <= best.0,
        h * (b - a) == best.0 ==> b > best.2 || b == best.2 && a <= best.1,
        best.0 == best.3 * (best.2 - best.1),
        best.1 < best.2 <= heights.len(),
        forall|j: int| best.1 <= j < best.2 ==> best.3 <= #[trigger] heights[j],
{
    assert(fits_under(heights, a, b, h));
    assert(h * (b - a) >= 1) by (nonlinear_arith)
        requires
            h >= 1,
            b - a >= 1,
    ;
}

/// Adding a frame raises the coverage by one wherever it shows something, sky
/// or foreground, and nowhere else.
pub proof fn law_frames_cover_what_they_show(cover: Seq<u32>, samples: Seq<Sample>, i: int)
    requires
        samples.len() == cover.len(),
        0 <= i < cover.len(),
        cover[i] < u32::MAX,
    ensures
        covered_after(cover, samples).len() == cover.len(),
        samples[i] is Seen ==> covered_after(cover, samples)[i] == cover[i] + 1,
        samples[i] is Occluded ==> covered_after(cover, samples)[i] == cover[i] + 1,
        samples[i] is Outside ==> covered_after(cover, samples)[i] == cover[i],
{
}

/// The crop holds only pixels that as many frames cover as any: no pixel of the
/// image is covered by more.
pub proof fn law_crop_is_fully_covered(
    acc: Accumulator,
    r: (usize, usize, usize, usize),
    x: int,
    y: int,
    i: int,
)
    requires
        acc.wf(),
        acc.is_crop(r),
        0 <= i < acc.cover@.len(),
        acc.cover@[i] > 0,
        r.0 <= x < r.2,
        r.1 <= y < r.3,
    ensures
        0 <= r.0 < r.2 <= acc.width,
        0 <= r.1 < r.3 <= acc.height,
        acc.cover@[y * acc.width + x] >= acc.cover@[i],
{
    lemma_peak(acc.cover@);
    assert(acc.cover@[grid::cell(x, y, acc.width as int)] == peak(acc.cover@));
}

/// No larger crop would do: every other rectangle of pixels that as many frames
/// cover as any has at most the same area. Of several as large the crop is the
/// one that ends highest up, and of these the one that ends furthest left.
pub proof fn law_crop_is_the_largest(
    acc: Accumulator,
    r: (usize, usize, usize, usize),
    s: (int, int, int, int),
    top: u32,
)
    requires
        acc.wf(),
        acc.is_crop(r),
        0 < top,
        forall|i: int| 0 <= i < acc.cover@.len() ==> #[trigger] acc.cover@[i] <= top,
        0 <= s.0 < s.2 <= acc.width,
        0 <= s.1 < s.3 <= acc.height,
        forall|x: int, y: int|
            s.0 <= x < s.2 && s.1 <= y < s.3 ==> acc.cover@[#[trigger] grid::cell(
                x,
                y,
                acc.width as int,
            )] == top,
    ensures
        (s.2 - s.0) * (s.3 - s.1) <= (r.2 - r.0) * (r.3 - r.1),
        (s.2 - s.0) * (s.3 - s.1) == (r.2 - r.0) * (r.3 - r.1) ==> s.3 > r.3 || s.3 == r.3 && (s.2
            > r.2 || s.2 == r.2 && s.0 <= r.0),
{
    lemma_peak(acc.cover@);
    let w = acc.width as int;
    let h = acc.height as int;
    grid::lemma_cell(s.0, s.1, w, h);
    assert(acc.cover@[grid::cell(s.0, s.1, w)] == top);
    let i = choose|i: int|
        0 <= i < acc.cover@.len() && #[trigger] acc.cover@[i] == peak(acc.cover@);
    assert(peak(acc.cover@) == top);
    assert(rect_of(acc.cover@, w, h, top, s.0, s.1, s.2, s.3));
    assert(no_better_crop((s.0, s.1, s.2, s.3), corners(r)));
}

/// Without any coverage nothing is cropped.
pub proof fn law_nothing_covered_is_not_cropped(acc: Accumulator, r: (usize, usize, usize, usize))
    requires
        acc.is_crop(r),
        forall|i: int| 0 <= i < acc.cover@.len() ==> #[trigger] acc.cover@[i] == 0,
    ensures
        r == (0usize, 0usize, acc.width, acc.height),
{
    lemma_peak(acc.cover@);
}

/// A pixel of a crop is that of the image, so many columns and rows further as
/// the crop begins.
pub proof fn law_crops_keep_their_pixels(
    w: int,
    b: (usize, usize, usize, usize),
    pixels: Seq<usize>,
    width: int,
    height: int,
    x: int,
    y: int,
)
    requires
        cuts_out(w, b, pixels, width, height),
        b.0 <= x < b.2,
        b.1 <= y < b.3,
    ensures
        pixels.len() == (b.2 - b.0) * (b.3 - b.1),
        pixels[(y - b.1) * (b.2 - b.0) + (x - b.0)] == y * w + x,
{
    assert(pixels[grid::cell(x - b.0, y - b.1, width)] == grid::cell(x, y, w));
}

} // verus!
