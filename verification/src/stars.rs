//! Finding stars: local maxima of an image, brightest first.
//!
//! Brightness takes part by order keys; see `order::order_key`.
use crate::grid;
use crate::order;
use vstd::prelude::*;

verus! {

/// How far around a pixel it has to be the brightest.
pub const RADIUS: usize = 2;

/// Step at which pixels are sampled for the background.
pub const BACKGROUND_STRIDE: usize = 991;

/// Whether another pixel keeps `(x, y)` from being a maximum: it is brighter,
/// or as bright and comes earlier.
pub open spec fn outshines(img: Seq<i64>, w: int, x: int, y: int, nx: int, ny: int) -> bool {
    let c = img[grid::cell(x, y, w)];
    let v = img[grid::cell(nx, ny, w)];
    v > c || v == c && (ny < y || ny == y && nx < x)
}

/// Whether a pixel is a star candidate: bright enough, and the brightest of
/// its surroundings.
pub open spec fn is_peak(img: Seq<i64>, w: int, x: int, y: int, threshold: i64) -> bool {
    &&& img[grid::cell(x, y, w)] >= threshold
    &&& forall|nx: int, ny: int|
        x - RADIUS <= nx <= x + RADIUS && y - RADIUS <= ny <= y + RADIUS && !(nx == x && ny == y)
            ==> !#[trigger] outshines(img, w, x, y, nx, ny)
}

/// The candidates in the first `n` pixels that have full surroundings, in row
/// order.
pub open spec fn peaks(img: Seq<i64>, w: int, h: int, threshold: i64, n: int) -> Seq<(usize, usize)>
    decreases n,
{
    if n <= 0 {
        Seq::empty()
    } else {
        let (x, y) = ((n - 1) % w, (n - 1) / w);
        let front = peaks(img, w, h, threshold, n - 1);
        if RADIUS <= x < w - RADIUS && RADIUS <= y < h - RADIUS && is_peak(
            img,
            w,
            x,
            y,
            threshold,
        ) {
            front.push((x as usize, y as usize))
        } else {
            front
        }
    }
}

/// Whether a pixel with full surroundings is a candidate.
fn check_peak(img: &[i64], w: usize, h: usize, x: usize, y: usize, threshold: i64) -> (b: bool)
    requires
        img@.len() == w * h,
        RADIUS <= x,
        x + RADIUS < w,
        RADIUS <= y,
        y + RADIUS < h,
    ensures
        b == is_peak(img@, w as int, x as int, y as int, threshold),
{
    let total: usize = img.len();
    proof {
        grid::lemma_cell(x as int, y as int, w as int, h as int);
    }
    let c: i64 = img[y * w + x];
    if c < threshold {
        return false;
    }
    let mut ny: usize = y - RADIUS;
    while ny <= y + RADIUS
        invariant
            total == img@.len() == w * h,
            RADIUS <= x,
            x + RADIUS < w,
            RADIUS <= y,
            y + RADIUS < h,
            y - RADIUS <= ny <= y + RADIUS + 1,
            c == img@[grid::cell(x as int, y as int, w as int)],
            c >= threshold,
            forall|a: int, b: int|
                x - RADIUS <= a <= x + RADIUS && y - RADIUS <= b < ny && !(a == x && b == y)
                    ==> !#[trigger] outshines(img@, w as int, x as int, y as int, a, b),
        decreases y + RADIUS + 1 - ny,
    {
        let mut nx: usize = x - RADIUS;
        while nx <= x + RADIUS
            invariant
                total == img@.len() == w * h,
                RADIUS <= x,
                x + RADIUS < w,
                RADIUS <= y,
                y + RADIUS < h,
                y - RADIUS <= ny <= y + RADIUS,
                x - RADIUS <= nx <= x + RADIUS + 1,
                c == img@[grid::cell(x as int, y as int, w as int)],
                c >= threshold,
                forall|a: int, b: int|
                    x - RADIUS <= a <= x + RADIUS && y - RADIUS <= b < ny && !(a == x && b == y)
                        ==> !#[trigger] outshines(img@, w as int, x as int, y as int, a, b),
                forall|a: int|
                    x - RADIUS <= a < nx && !(a == x && ny == y) ==> !#[trigger] outshines(
                        img@,
                        w as int,
                        x as int,
                        y as int,
                        a,
                        ny as int,
                    ),
            decreases x + RADIUS + 1 - nx,
        {
            proof {
                grid::lemma_cell(nx as int, ny as int, w as int, h as int);
            }
            if !(nx == x && ny == y) {
                let v: i64 = img[ny * w + nx];
                if v > c || v == c && (ny < y || ny == y && nx < x) {
                    assert(outshines(
                        img@,
                        w as int,
                        x as int,
                        y as int,
                        nx as int,
                        ny as int,
                    ));
                    return false;
                }
            }
            nx = nx + 1;
        }
        ny = ny + 1;
    }
    true
}

/// The star candidates of an image, in row order.
pub fn local_maxima(img: &[i64], w: usize, h: usize, threshold: i64) -> (out: Vec<(usize, usize)>)
    requires
        img@.len() == w * h,
        w + RADIUS < usize::MAX,
        h + RADIUS < usize::MAX,
    ensures
        out@ == peaks(img@, w as int, h as int, threshold, w * h),
{
    let n: usize = img.len();
    let mut out: Vec<(usize, usize)> = Vec::new();
    let mut i: usize = 0;
    while i < n
        invariant
            i <= n,
            n == img@.len() == w * h,
            w + RADIUS < usize::MAX,
            h + RADIUS < usize::MAX,
            out@ == peaks(img@, w as int, h as int, threshold, i as int),
        decreases n - i,
    {
        proof {
            if w == 0 {
                assert(w * h == 0) by (nonlinear_arith)
                    requires
                        w == 0,
                ;
            }
            grid::lemma_cell_of(i as int, w as int, h as int);
        }
        let x: usize = i % w;
        let y: usize = i / w;
        if x >= RADIUS && x + RADIUS < w && y >= RADIUS && y + RADIUS < h {
            if check_peak(img, w, h, x, y, threshold) {
                out.push((x, y));
            }
        }
        i = i + 1;
    }
    out
}

/// Two candidates are never within each other's surroundings.
pub proof fn law_peaks_keep_apart(
    img: Seq<i64>,
    w: int,
    x: int,
    y: int,
    x2: int,
    y2: int,
    threshold: i64,
)
    requires
        is_peak(img, w, x, y, threshold),
        is_peak(img, w, x2, y2, threshold),
        !(x == x2 && y == y2),
    ensures
        x2 < x - RADIUS || x2 > x + RADIUS || y2 < y - RADIUS || y2 > y + RADIUS,
{
    if x - RADIUS <= x2 <= x + RADIUS && y - RADIUS <= y2 <= y + RADIUS {
        assert(!outshines(img, w, x, y, x2, y2));
        assert(!outshines(img, w, x2, y2, x, y));
    }
}

proof fn lemma_candidates(
    img: Seq<i64>,
    w: usize,
    h: usize,
    threshold: i64,
    n: int,
    x: usize,
    y: usize,
)
    requires
        w > 0,
        0 <= n <= w * h,
    ensures
        peaks(img, w as int, h as int, threshold, n).contains((x, y)) <==> RADIUS <= x < w - RADIUS
            && RADIUS <= y < h - RADIUS && is_peak(img, w as int, x as int, y as int, threshold)
            && grid::cell(x as int, y as int, w as int) < n,
    decreases n,
{
    let all = peaks(img, w as int, h as int, threshold, n);
    if n == 0 {
        if x < w && y < h {
            grid::lemma_cell(x as int, y as int, w as int, h as int);
        }
    } else {
        let k = n - 1;
        let front = peaks(img, w as int, h as int, threshold, k);
        lemma_candidates(img, w, h, threshold, k, x, y);
        grid::lemma_cell_of(k, w as int, h as int);
        let last = ((k % (w as int)) as usize, (k / (w as int)) as usize);
        if x < w && grid::cell(x as int, y as int, w as int) == k {
            vstd::arithmetic::div_mod::lemma_fundamental_div_mod_converse(
                k,
                w as int,
                y as int,
                x as int,
            );
            assert(last == (x, y));
        }
        if all.len() > front.len() {
            assert(all == front.push(last));
            assert(all[front.len() as int] == last);
            if front.contains((x, y)) {
                let i = choose|i: int| 0 <= i < front.len() && front[i] == (x, y);
                assert(all[i] == (x, y));
            }
            if all.contains((x, y)) {
                let i = choose|i: int| 0 <= i < all.len() && all[i] == (x, y);
                if i < front.len() {
                    assert(front[i] == (x, y));
                }
            }
        }
    }
}

/// The candidates are the peaks far enough from the border to have all their
/// surroundings in the image.
pub proof fn law_candidates_are_inner_peaks(
    img: Seq<i64>,
    w: usize,
    h: usize,
    threshold: i64,
    x: usize,
    y: usize,
)
    requires
        img.len() == w * h,
    ensures
        peaks(img, w as int, h as int, threshold, w * h).contains((x, y)) <==> RADIUS <= x < w
            - RADIUS && RADIUS <= y < h - RADIUS && is_peak(
            img,
            w as int,
            x as int,
            y as int,
            threshold,
        ),
{
    if w == 0 {
        assert(w * h == 0) by (nonlinear_arith)
            requires
                w == 0,
        ;
    } else {
        assert(0 <= w * h) by (nonlinear_arith);
        lemma_candidates(img, w, h, threshold, w * h, x, y);
        if x < w && y < h {
            grid::lemma_cell(x as int, y as int, w as int, h as int);
        }
    }
}

/// Keys that order the brightest first.
pub open spec fn dimness(flux: Seq<i64>) -> Seq<i64> {
    flux.map_values(|k: i64| (-k) as i64)
}

/// `out` lists the brightest candidates, at most `max` of them, brightest
/// first; of two equally bright ones the one found first.
pub open spec fn is_brightest(flux: Seq<i64>, max: int, out: Seq<usize>) -> bool {
    exists|p: Seq<usize>| #[trigger]
        order::is_order(dimness(flux), p) && out == p.take(
            if max < p.len() {
                max
            } else {
                p.len() as int
            },
        )
}

/// The brightest candidates, at most `max` of them.
pub fn brightest(flux: &[i64], max: usize) -> (out: Vec<usize>)
    requires
        forall|i: int| 0 <= i < flux@.len() ==> #[trigger] flux@[i] > i64::MIN,
    ensures
        is_brightest(flux@, max as int, out@),
{
    let mut keys: Vec<i64> = Vec::new();
    let mut i: usize = 0;
    while i < flux.len()
        invariant
            i <= flux@.len(),
            forall|j: int| 0 <= j < flux@.len() ==> #[trigger] flux@[j] > i64::MIN,
            keys@ =~= dimness(flux@).take(i as int),
        decreases flux@.len() - i,
    {
        assert(flux@[i as int] > i64::MIN);
        keys.push(-flux[i]);
        i = i + 1;
    }
    assert(keys@ =~= dimness(flux@));
    let mut p = order::order(keys.as_slice());
    let ghost full = p@;
    assert(order::is_order(dimness(flux@), full));
    if max < p.len() {
        p.truncate(max);
    }
    assert(p@ =~= full.take(if max < full.len() {
        max as int
    } else {
        full.len() as int
    }));
    p
}

/// Asking for fewer stars gives the first of those that asking for more gives:
/// as many as were asked for, if there are that many, none twice, and none
/// brighter than one before it.
pub proof fn law_brightest_is_a_prefix(
    flux: Seq<i64>,
    few: int,
    many: int,
    a: Seq<usize>,
    b: Seq<usize>,
)
    requires
        forall|i: int| 0 <= i < flux.len() ==> #[trigger] flux[i] > i64::MIN,
        0 <= few <= many,
        is_brightest(flux, few, a),
        is_brightest(flux, many, b),
    ensures
        a.len() == if few < flux.len() {
            few
        } else {
            flux.len() as int
        },
        a.len() <= b.len(),
        a == b.take(a.len() as int),
        forall|i: int| 0 <= i < b.len() ==> #[trigger] b[i] < flux.len(),
        forall|i: int, j: int|
            0 <= i < j < b.len() ==> #[trigger] b[i] != #[trigger] b[j] && flux[b[i] as int]
                >= flux[b[j] as int],
{
    let keys = dimness(flux);
    let p = choose|p: Seq<usize>| #[trigger]
        order::is_order(keys, p) && a == p.take(
            if few < p.len() {
                few
            } else {
                p.len() as int
            },
        );
    let q = choose|q: Seq<usize>| #[trigger]
        order::is_order(keys, q) && b == q.take(
            if many < q.len() {
                many
            } else {
                q.len() as int
            },
        );
    order::law_order_is_unique(keys, p, q);
    assert(a =~= b.take(a.len() as int));
    assert forall|i: int| 0 <= i < b.len() implies #[trigger] b[i] < flux.len() by {
        assert(b[i] == q[i]);
    }
    assert forall|i: int, j: int| 0 <= i < j < b.len() implies #[trigger] b[i] != #[trigger] b[j]
        && flux[b[i] as int] >= flux[b[j] as int] by {
        assert(b[i] == q[i] && b[j] == q[j]);
        assert(order::before(keys, q[i] as int, q[j] as int));
        assert(flux[b[i] as int] > i64::MIN && flux[b[j] as int] > i64::MIN);
    }
}

/// Every star that is kept stands on a peak with full surroundings.
pub proof fn law_brightest_are_inner_peaks(
    img: Seq<i64>,
    w: usize,
    h: usize,
    threshold: i64,
    flux: Seq<i64>,
    max: int,
    out: Seq<usize>,
    i: int,
)
    requires
        img.len() == w * h,
        flux.len() == peaks(img, w as int, h as int, threshold, w * h).len(),
        0 <= max,
        is_brightest(flux, max, out),
        0 <= i < out.len(),
    ensures
        out[i] < flux.len(),
        ({
            let (x, y) = peaks(img, w as int, h as int, threshold, w * h)[out[i] as int];
            &&& RADIUS <= x < w - RADIUS
            &&& RADIUS <= y < h - RADIUS
            &&& is_peak(img, w as int, x as int, y as int, threshold)
        }),
{
    let p = choose|p: Seq<usize>| #[trigger]
        order::is_order(dimness(flux), p) && out == p.take(
            if max < p.len() {
                max
            } else {
                p.len() as int
            },
        );
    assert(out[i] == p[i]);
    let all = peaks(img, w as int, h as int, threshold, w * h);
    let (x, y) = all[out[i] as int];
    assert(all.contains((x, y)));
    law_candidates_are_inner_peaks(img, w, h, threshold, x, y);
}

/// A candidate is at least as bright as the threshold and as everything up to
/// two columns and rows away, and brighter than what comes before it there.
pub proof fn law_peaks_outshine_their_surroundings(
    img: Seq<i64>,
    w: int,
    x: int,
    y: int,
    a: int,
    b: int,
    threshold: i64,
)
    requires
        is_peak(img, w, x, y, threshold),
        -2 <= a - x <= 2,
        -2 <= b - y <= 2,
    ensures
        img[y * w + x] >= threshold,
        img[b * w + a] <= img[y * w + x],
        b < y || b == y && a < x ==> img[b * w + a] < img[y * w + x],
{
    if !(a == x && b == y) {
        assert(!outshines(img, w, x, y, a, b));
    }
}

/// A pixel as bright as the threshold and brighter than everything up to two
/// columns and rows away is a candidate.
pub proof fn law_bright_pixels_are_candidates(img: Seq<i64>, w: int, x: int, y: int, threshold: i64)
    requires
        img[y * w + x] >= threshold,
        forall|a: int, b: int|
            -2 <= a - x <= 2 && -2 <= b - y <= 2 && !(a == x && b == y) ==> img[
            #[trigger] grid::cell(a, b, w)] < img[y * w + x],
    ensures
        is_peak(img, w, x, y, threshold),
{
    assert forall|nx: int, ny: int|
        x - RADIUS <= nx <= x + RADIUS && y - RADIUS <= ny <= y + RADIUS && !(nx == x && ny
            == y) implies !#[trigger] outshines(img, w, x, y, nx, ny) by {
        assert(img[grid::cell(nx, ny, w)] < img[y * w + x]);
    }
}

/// The background is sampled at a prime step, so that no row or column is
/// preferred.
pub proof fn law_background_step()
    ensures
        BACKGROUND_STRIDE == 991,
{
}

} // verus!
