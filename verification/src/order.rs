//! Ordering by integer keys: stable sorting, medians, extremes.
//!
//! A measured quantity takes part through its key: for an IEEE 754 single
//! precision number the signed magnitude of its bit pattern, which orders
//! finite numbers as the numbers themselves are ordered.
use vstd::prelude::*;

verus! {

/// The key of a single precision number with these bits: its magnitude bits
/// as a number, negated where the sign bit is set. Both zeros have key 0.
pub open spec fn key_of(bits: u32) -> int {
    if bits < 0x8000_0000 {
        bits as int
    } else {
        0x8000_0000 - bits
    }
}

/// The key of a single precision number with these bits.
pub fn order_key(bits: u32) -> (k: i64)
    ensures
        k == key_of(bits),
{
    if bits < 0x8000_0000 {
        bits as i64
    } else {
        0x8000_0000i64 - bits as i64
    }
}

/// Among numbers without sign, more bits mean a larger key, and a sign mirrors
/// the order: the key alone decides, and only the two zeros share one.
pub proof fn law_key_order(a: u32, b: u32)
    requires
        a < 0x8000_0000,
        b < 0x8000_0000,
    ensures
        key_of(a) < key_of(b) <==> a < b,
        key_of(a) == a,
        key_of((a + 0x8000_0000) as u32) == -key_of(a),
        key_of((a + 0x8000_0000) as u32) < key_of((b + 0x8000_0000) as u32) <==> b < a,
        key_of((a + 0x8000_0000) as u32) <= 0 <= key_of(b),
{
}

/// Item `a` comes before item `b`: by key, and among equal keys by position.
pub open spec fn before(keys: Seq<i64>, a: int, b: int) -> bool {
    keys[a] < keys[b] || keys[a] == keys[b] && a < b
}

/// `p` lists the items `lo .. hi`, each once, in order.
pub open spec fn orders(keys: Seq<i64>, p: Seq<usize>, lo: int, hi: int) -> bool {
    &&& p.len() == hi - lo
    &&& forall|i: int| 0 <= i < p.len() ==> lo <= #[trigger] p[i] < hi
    &&& forall|i: int, j: int|
        0 <= i < j < p.len() ==> before(keys, #[trigger] p[i] as int, #[trigger] p[j] as int)
    &&& forall|v: usize| lo <= v < hi ==> #[trigger] p.contains(v)
}

/// `p` lists all items in ascending order of their keys, equal keys in the
/// order in which they stood.
pub open spec fn is_order(keys: Seq<i64>, p: Seq<usize>) -> bool {
    orders(keys, p, 0, keys.len() as int)
}

/// There is only one such order.
pub proof fn law_order_is_unique(keys: Seq<i64>, p: Seq<usize>, q: Seq<usize>)
    requires
        is_order(keys, p),
        is_order(keys, q),
    ensures
        p == q,
{
    lemma_same_prefix(keys, p, q, p.len() as int);
    assert(p =~= q);
}

proof fn lemma_same_prefix(keys: Seq<i64>, p: Seq<usize>, q: Seq<usize>, n: int)
    requires
        is_order(keys, p),
        is_order(keys, q),
        0 <= n <= p.len(),
    ensures
        forall|i: int| 0 <= i < n ==> #[trigger] p[i] == q[i],
    decreases n,
{
    if n > 0 {
        let k = n - 1;
        lemma_same_prefix(keys, p, q, k);
        if p[k] != q[k] {
            assert(q.contains(p[k]));
            assert(p.contains(q[k]));
            let m = choose|m: int| 0 <= m < q.len() && q[m] == p[k];
            let l = choose|l: int| 0 <= l < p.len() && p[l] == q[k];
            if m < k {
                assert(p[m] == q[m]);
                assert(before(keys, p[m] as int, p[k] as int));
            }
            if l < k {
                assert(p[l] == q[l]);
                assert(before(keys, q[l] as int, q[k] as int));
            }
            assert(before(keys, q[k] as int, q[m] as int));
            assert(before(keys, p[k] as int, p[l] as int));
            assert(false);
        }
    }
}

/// Merges two neighbouring stretches that are in order.
fn merge(
    keys: &[i64],
    left: &Vec<usize>,
    right: &Vec<usize>,
    Ghost(lo): Ghost<int>,
    Ghost(mid): Ghost<int>,
    Ghost(hi): Ghost<int>,
) -> (out: Vec<usize>)
    requires
        0 <= lo <= mid <= hi <= keys@.len(),
        orders(keys@, left@, lo, mid),
        orders(keys@, right@, mid, hi),
    ensures
        orders(keys@, out@, lo, hi),
{
    let mut out: Vec<usize> = Vec::new();
    let mut i: usize = 0;
    let mut j: usize = 0;
    while i < left.len() || j < right.len()
        invariant
            0 <= lo <= mid <= hi <= keys@.len(),
            orders(keys@, left@, lo, mid),
            orders(keys@, right@, mid, hi),
            i <= left@.len(),
            j <= right@.len(),
            out@.len() == i + j,
            forall|k: int| 0 <= k < out@.len() ==> lo <= #[trigger] out@[k] < hi,
            forall|k: int, l: int|
                0 <= k < l < out@.len() ==> before(
                    keys@,
                    #[trigger] out@[k] as int,
                    #[trigger] out@[l] as int,
                ),
            forall|k: int| 0 <= k < i ==> out@.contains(#[trigger] left@[k]),
            forall|k: int| 0 <= k < j ==> out@.contains(#[trigger] right@[k]),
            forall|k: int, l: int|
                0 <= k < out@.len() && i <= l < left@.len() ==> before(
                    keys@,
                    #[trigger] out@[k] as int,
                    #[trigger] left@[l] as int,
                ),
            forall|k: int, l: int|
                0 <= k < out@.len() && j <= l < right@.len() ==> before(
                    keys@,
                    #[trigger] out@[k] as int,
                    #[trigger] right@[l] as int,
                ),
        decreases left@.len() - i + right@.len() - j,
    {
        let from_left: bool = if i >= left.len() {
            false
        } else if j >= right.len() {
            true
        } else {
            keys[left[i]] <= keys[right[j]]
        };
        let ghost was = out@;
        if from_left {
            out.push(left[i]);
            proof {
                assert(left@[i as int] < mid);
                assert forall|k: int, l: int|
                    0 <= k < out@.len() && j <= l < right@.len() implies before(
                    keys@,
                    #[trigger] out@[k] as int,
                    #[trigger] right@[l] as int,
                ) by {
                    if k == was.len() {
                        if l > j {
                            assert(before(keys@, right@[j as int] as int, right@[l] as int));
                        }
                    } else {
                        assert(out@[k] == was[k]);
                    }
                }
            }
            i = i + 1;
        } else {
            out.push(right[j]);
            proof {
                assert(mid <= right@[j as int]);
                assert forall|k: int, l: int|
                    0 <= k < out@.len() && i <= l < left@.len() implies before(
                    keys@,
                    #[trigger] out@[k] as int,
                    #[trigger] left@[l] as int,
                ) by {
                    if k == was.len() {
                        if l > i {
                            assert(before(keys@, left@[i as int] as int, left@[l] as int));
                        }
                    } else {
                        assert(out@[k] == was[k]);
                    }
                }
            }
            j = j + 1;
        }
        proof {
            assert forall|v: usize| was.contains(v) implies out@.contains(v) by {
                let k = choose|k: int| 0 <= k < was.len() && was[k] == v;
                assert(out@[k] == v);
            }
            assert(out@[was.len() as int] == out@.last());
        }
    }
    proof {
        assert forall|v: usize| lo <= v < hi implies #[trigger] out@.contains(v) by {
            if v < mid {
                assert(left@.contains(v));
            } else {
                assert(right@.contains(v));
            }
        }
    }
    out
}

/// The items `lo .. hi` in order.
fn order_range(keys: &[i64], lo: usize, hi: usize) -> (p: Vec<usize>)
    requires
        lo <= hi <= keys@.len(),
    ensures
        orders(keys@, p@, lo as int, hi as int),
    decreases hi - lo,
{
    if hi - lo == 0 {
        Vec::new()
    } else if hi - lo == 1 {
        let mut p: Vec<usize> = Vec::new();
        p.push(lo);
        assert forall|v: usize| lo <= v < hi implies #[trigger] p@.contains(v) by {
            assert(p@[0] == v);
        }
        p
    } else {
        let mid: usize = lo + (hi - lo) / 2;
        let left = order_range(keys, lo, mid);
        let right = order_range(keys, mid, hi);
        merge(keys, &left, &right, Ghost(lo as int), Ghost(mid as int), Ghost(hi as int))
    }
}

/// All items in ascending order of their keys; equal keys keep their order.
pub fn order(keys: &[i64]) -> (p: Vec<usize>)
    ensures
        is_order(keys@, p@),
{
    order_range(keys, 0, keys.len())
}

/// `v` is the item of rank `k` among the keys, counting from the smallest.
pub open spec fn has_rank(keys: Seq<i64>, k: int, v: i64) -> bool {
    exists|p: Seq<usize>| #[trigger] is_order(keys, p) && v == keys[p[k] as int]
}

/// Only one value has a given rank.
pub proof fn law_rank_is_unique(keys: Seq<i64>, k: int, v: i64, w: i64)
    requires
        has_rank(keys, k, v),
        has_rank(keys, k, w),
    ensures
        v == w,
{
    let p = choose|p: Seq<usize>| #[trigger] is_order(keys, p) && v == keys[p[k] as int];
    let q = choose|q: Seq<usize>| #[trigger] is_order(keys, q) && w == keys[q[k] as int];
    law_order_is_unique(keys, p, q);
}

/// The key of rank `k`.
pub fn ranked(keys: &[i64], k: usize) -> (v: i64)
    requires
        k < keys@.len(),
    ensures
        has_rank(keys@, k as int, v),
{
    let p = order(keys);
    assert(is_order(keys@, p@));
    keys[p[k]]
}

/// The upper median of the keys, none without any.
pub open spec fn is_median(keys: Seq<i64>, v: Option<i64>) -> bool {
    match v {
        None => keys.len() == 0,
        Some(m) => keys.len() > 0 && has_rank(keys, keys.len() as int / 2, m),
    }
}

/// The upper median of the keys.
pub fn median(keys: &[i64]) -> (v: Option<i64>)
    ensures
        is_median(keys@, v),
{
    if keys.len() == 0 {
        None
    } else {
        Some(ranked(keys, keys.len() / 2))
    }
}

/// The first smallest key below a bound.
pub open spec fn is_argmin(keys: Seq<i64>, bound: i64, r: Option<usize>) -> bool {
    match r {
        None => forall|j: int| 0 <= j < keys.len() ==> #[trigger] keys[j] >= bound,
        Some(k) => {
            &&& k < keys.len()
            &&& keys[k as int] < bound
            &&& forall|j: int| 0 <= j < keys.len() ==> #[trigger] keys[j] >= keys[k as int]
            &&& forall|j: int| 0 <= j < k ==> #[trigger] keys[j] > keys[k as int]
        },
    }
}

/// The first smallest key below a bound: the winner of a search that starts
/// from `bound` and only changes its mind for something strictly better.
pub fn argmin(keys: &[i64], bound: i64) -> (r: Option<usize>)
    ensures
        is_argmin(keys@, bound, r),
{
    let mut r: Option<usize> = None;
    let mut best: i64 = bound;
    let mut i: usize = 0;
    while i < keys.len()
        invariant
            i <= keys@.len(),
            r is None ==> best == bound,
            r is Some ==> r->0 < i && best == keys@[r->0 as int] && best < bound,
            forall|j: int| 0 <= j < i ==> #[trigger] keys@[j] >= best,
            r is Some ==> forall|j: int| 0 <= j < r->0 ==> #[trigger] keys@[j] > best,
        decreases keys@.len() - i,
    {
        if keys[i] < best {
            best = keys[i];
            r = Some(i);
        }
        i = i + 1;
    }
    r
}

/// The last largest key.
pub open spec fn is_argmax_last(keys: Seq<i64>, r: Option<usize>) -> bool {
    match r {
        None => keys.len() == 0,
        Some(k) => {
            &&& k < keys.len()
            &&& forall|j: int| 0 <= j < keys.len() ==> #[trigger] keys[j] <= keys[k as int]
            &&& forall|j: int| k < j < keys.len() ==> #[trigger] keys[j] < keys[k as int]
        },
    }
}

/// The last largest key.
pub fn argmax_last(keys: &[i64]) -> (r: Option<usize>)
    ensures
        is_argmax_last(keys@, r),
{
    if keys.len() == 0 {
        return None;
    }
    let mut r: usize = 0;
    let mut i: usize = 1;
    while i < keys.len()
        invariant
            1 <= i <= keys@.len(),
            r < i,
            forall|j: int| 0 <= j < i ==> #[trigger] keys@[j] <= keys@[r as int],
            forall|j: int| r < j < i ==> #[trigger] keys@[j] < keys@[r as int],
        decreases keys@.len() - i,
    {
        if keys[i] >= keys[r] {
            r = i;
        }
        i = i + 1;
    }
    Some(r)
}

/// Most pixels a statistic looks at.
pub const SAMPLE_PIXELS: usize = 1_000_000;

/// The step at which pixels are sampled so that about `SAMPLE_PIXELS` of them
/// are looked at.
pub open spec fn stride_for(n: int) -> int {
    if n / SAMPLE_PIXELS as int > 1 {
        n / SAMPLE_PIXELS as int
    } else {
        1
    }
}

/// The step at which pixels are sampled.
pub fn sample_stride(n: usize) -> (s: usize)
    ensures
        s == stride_for(n as int),
{
    let s: usize = n / SAMPLE_PIXELS;
    if s > 1 {
        s
    } else {
        1
    }
}

/// An order lists every item once, with keys that never fall and equal keys in
/// the order in which they stood.
pub proof fn law_order_sorts(keys: Seq<i64>, p: Seq<usize>, i: int, j: int)
    requires
        is_order(keys, p),
        0 <= i < j < p.len(),
    ensures
        p.len() == keys.len(),
        p[i] < keys.len() && p[j] < keys.len(),
        p[i] != p[j],
        keys[p[i] as int] <= keys[p[j] as int],
        keys[p[i] as int] == keys[p[j] as int] ==> p[i] < p[j],
{
    assert(before(keys, p[i] as int, p[j] as int));
}

/// A value of rank `k` has `k` of the items at or below it and all others at or
/// above it. The result lists the items accordingly.
pub proof fn law_rank_splits(keys: Seq<i64>, k: int, v: i64) -> (p: Seq<usize>)
    requires
        has_rank(keys, k, v),
        0 <= k < keys.len(),
    ensures
        p.len() == keys.len(),
        p.no_duplicates(),
        forall|i: int| 0 <= i < p.len() ==> (#[trigger] p[i]) < keys.len(),
        keys[p[k] as int] == v,
        forall|i: int| 0 <= i <= k ==> keys[(#[trigger] p[i]) as int] <= v,
        forall|i: int| k <= i < p.len() ==> keys[(#[trigger] p[i]) as int] >= v,
{
    let p = choose|p: Seq<usize>| #[trigger] is_order(keys, p) && v == keys[p[k] as int];
    assert forall|i: int, j: int| 0 <= i < p.len() && 0 <= j < p.len() && i != j implies p[i]
        != p[j] by {
        if i < j {
            assert(before(keys, p[i] as int, p[j] as int));
        } else {
            assert(before(keys, p[j] as int, p[i] as int));
        }
    }
    assert forall|i: int| 0 <= i <= k implies keys[(#[trigger] p[i]) as int] <= v by {
        if i < k {
            assert(before(keys, p[i] as int, p[k] as int));
        }
    }
    assert forall|i: int| k <= i < p.len() implies keys[(#[trigger] p[i]) as int] >= v by {
        if i > k {
            assert(before(keys, p[k] as int, p[i] as int));
        }
    }
    p
}

/// A median is one of the values, with half of them at or below it and the
/// rest at or above it; of an even number it is the upper one of the two in
/// the middle. Only an empty list has none.
pub proof fn law_median_is_in_the_middle(keys: Seq<i64>, v: Option<i64>) -> (p: Seq<usize>)
    requires
        is_median(keys, v),
    ensures
        v is None <==> keys.len() == 0,
        v matches Some(m) ==> {
            let h = keys.len() as int / 2;
            &&& p.len() == keys.len()
            &&& p.no_duplicates()
            &&& forall|i: int| 0 <= i < p.len() ==> (#[trigger] p[i]) < keys.len()
            &&& keys[p[h] as int] == m
            &&& forall|i: int| 0 <= i <= h ==> keys[(#[trigger] p[i]) as int] <= m
            &&& forall|i: int| h <= i < p.len() ==> keys[(#[trigger] p[i]) as int] >= m
        },
{
    match v {
        Some(m) => law_rank_splits(keys, keys.len() as int / 2, m),
        None => Seq::empty(),
    }
}

/// The median of values that are all the same is that value, and no median
/// lies outside the values.
pub proof fn law_median_is_bounded(keys: Seq<i64>, m: i64, lo: i64, hi: i64)
    requires
        is_median(keys, Some(m)),
        forall|i: int| 0 <= i < keys.len() ==> lo <= #[trigger] keys[i] <= hi,
    ensures
        lo <= m <= hi,
{
    let p = law_median_is_in_the_middle(keys, Some(m));
    assert(keys[p[keys.len() as int / 2] as int] == m);
}

/// The smallest key below the bound is found, the first one of several; without
/// any, nothing is.
pub proof fn law_argmin_is_the_first_smallest(
    keys: Seq<i64>,
    bound: i64,
    r: Option<usize>,
    j: int,
)
    requires
        is_argmin(keys, bound, r),
        0 <= j < keys.len(),
    ensures
        keys[j] < bound ==> r is Some,
        r matches Some(k) ==> k < keys.len() && keys[k as int] < bound && keys[k as int] <= keys[j]
            && (keys[k as int] == keys[j] ==> k <= j),
{
}

/// The largest key is found, the last one of several; only an empty list has
/// none.
pub proof fn law_argmax_is_the_last_largest(keys: Seq<i64>, r: Option<usize>, j: int)
    requires
        is_argmax_last(keys, r),
        0 <= j < keys.len(),
    ensures
        r matches Some(k) && k < keys.len() && keys[k as int] >= keys[j] && (keys[k as int]
            == keys[j] ==> k >= j),
{
}

/// A sampled image keeps at least a million of its pixels, if it has that many,
/// and fewer than two million; a smaller one keeps all of them.
pub proof fn law_stride_keeps_a_million(n: int)
    requires
        n >= 0,
    ensures
        stride_for(n) >= 1,
        n < 2_000_000 ==> stride_for(n) == 1,
        n >= 1_000_000 ==> 1_000_000 * stride_for(n) <= n < 1_000_000 * (stride_for(n) + 1),
{
}

/// Every list that is not empty has a median.
pub(crate) proof fn lemma_some_median(keys: Seq<i64>) -> (m: i64)
    requires
        0 < keys.len() <= usize::MAX,
    ensures
        is_median(keys, Some(m)),
{
    let p = lemma_some_order(keys, keys.len() as int);
    let m = keys[p[keys.len() as int / 2] as int];
    assert(is_order(keys, p));
    m
}

proof fn lemma_some_order(keys: Seq<i64>, n: int) -> (p: Seq<usize>)
    requires
        0 <= n <= keys.len() <= usize::MAX,
    ensures
        orders(keys, p, 0, n),
    decreases n,
{
    if n == 0 {
        Seq::empty()
    } else {
        let q = lemma_some_order(keys, n - 1);
        let k = lemma_place_for(keys, q, n - 1, q.len() as int);
        let v = (n - 1) as usize;
        let p = q.insert(k, v);
        assert forall|i: int| 0 <= i < p.len() implies 0 <= #[trigger] p[i] < n by {
            if i < k {
                assert(p[i] == q[i]);
            } else if i > k {
                assert(p[i] == q[i - 1]);
            }
        }
        assert forall|i: int, j: int| 0 <= i < j < p.len() implies before(
            keys,
            #[trigger] p[i] as int,
            #[trigger] p[j] as int,
        ) by {
            if i < k && j < k {
                assert(before(keys, q[i] as int, q[j] as int));
            } else if i < k && j == k {
                assert(keys[q[i] as int] <= keys[v as int]);
            } else if i < k {
                assert(before(keys, q[i] as int, q[j - 1] as int));
            } else if i == k {
                assert(keys[q[j - 1] as int] > keys[v as int]);
            } else {
                assert(before(keys, q[i - 1] as int, q[j - 1] as int));
            }
        }
        assert forall|u: usize| 0 <= u < n implies #[trigger] p.contains(u) by {
            if u == v {
                assert(p[k] == u);
            } else {
                assert(q.contains(u));
                let i = choose|i: int| 0 <= i < q.len() && q[i] == u;
                if i < k {
                    assert(p[i] == u);
                } else {
                    assert(p[i + 1] == u);
                }
            }
        }
        p
    }
}

proof fn lemma_place_for(keys: Seq<i64>, q: Seq<usize>, v: int, k: int) -> (r: int)
    requires
        orders(keys, q, 0, v),
        0 <= v < keys.len(),
        0 <= k <= q.len(),
        forall|i: int| k <= i < q.len() ==> keys[(#[trigger] q[i]) as int] > keys[v],
    ensures
        0 <= r <= q.len(),
        forall|i: int| 0 <= i < r ==> keys[(#[trigger] q[i]) as int] <= keys[v],
        forall|i: int| r <= i < q.len() ==> keys[(#[trigger] q[i]) as int] > keys[v],
    decreases k,
{
    if k > 0 && keys[q[k - 1] as int] > keys[v] {
        lemma_place_for(keys, q, v, k - 1)
    } else {
        assert forall|i: int| 0 <= i < k implies keys[(#[trigger] q[i]) as int] <= keys[v] by {
            if i < k - 1 {
                assert(before(keys, q[i] as int, q[k - 1] as int));
            }
        }
        k
    }
}

} // verus!
