//! Matching the stars of two frames: triangles, votes, and the pairs a
//! transform is drawn from.
//!
//! Lengths take part by their order keys; see `order::order_key`.
use crate::order;
use vstd::prelude::*;

verus! {

/// Fewest votes for a pair of stars to count as the same star.
pub const MIN_VOTES: u32 = 3;

/// Fewest pairs a transform is fitted from.
pub const MIN_PAIRS: usize = 3;

/// How many transforms are tried.
pub const DRAWS: usize = 200;

/// State the draws start from.
pub const SEED: u32 = 0x1234_5678;

/// The first entry that is neither end of a side.
pub open spec fn opposite(uniq: Seq<usize>, e1: usize, e2: usize) -> Option<usize>
    decreases uniq.len(),
{
    if uniq.len() == 0 {
        None
    } else if uniq[0] != e1 && uniq[0] != e2 {
        Some(uniq[0])
    } else {
        opposite(uniq.drop_first(), e1, e2)
    }
}

/// The vertex opposite to a side. There has to be one.
pub fn find_opposite(uniq: &[usize], e1: usize, e2: usize) -> (v: usize)
    requires
        opposite(uniq@, e1, e2) is Some,
    ensures
        opposite(uniq@, e1, e2) == Some(v),
{
    let mut i: usize = 0;
    assert(uniq@.skip(0) =~= uniq@);
    while i < uniq.len()
        invariant
            i <= uniq@.len(),
            opposite(uniq@, e1, e2) is Some,
            opposite(uniq@, e1, e2) == opposite(uniq@.skip(i as int), e1, e2),
        decreases uniq@.len() - i,
    {
        assert(uniq@.skip(i as int).drop_first() =~= uniq@.skip(i + 1));
        if uniq[i] != e1 && uniq[i] != e2 {
            return uniq[i];
        }
        i = i + 1;
    }
    assert(uniq@.skip(i as int).len() == 0);
    e1
}

/// The vertices of a triangle, each opposite to one of its sides, from the
/// shortest side to the longest; sides of equal length in the order in which
/// they are measured.
pub open spec fn is_triangle(
    i: usize,
    j: usize,
    k: usize,
    dij: i64,
    djk: i64,
    dik: i64,
    p: Seq<usize>,
    t: (usize, usize, usize),
) -> bool {
    let across = seq![k, i, j];
    &&& order::is_order(seq![dij, djk, dik], p)
    &&& t == (across[p[0] as int], across[p[1] as int], across[p[2] as int])
}

/// Orders the vertices of the triangle of three stars by the sides across
/// from them. Also says which side is the shortest, the middle and the longest
/// one, as positions among `ij`, `jk` and `ik`.
pub fn order_vertices(i: usize, j: usize, k: usize, dij: i64, djk: i64, dik: i64) -> (r: (
    (usize, usize, usize),
    Vec<usize>,
))
    requires
        i != j,
        j != k,
        i != k,
    ensures
        is_triangle(i, j, k, dij, djk, dik, r.1@, r.0),
{
    let keys: [i64; 3] = [dij, djk, dik];
    let ends: [(usize, usize); 3] = [(i, j), (j, k), (i, k)];
    let uniq: [usize; 3] = [i, j, k];
    let p = order::order(&keys);
    proof {
        assert(keys@ =~= seq![dij, djk, dik]);
        assert(p@.len() == 3);
        lemma_opposites(i, j, k, uniq@);
        assert(p@[0] < 3 && p@[1] < 3 && p@[2] < 3);
    }
    let (a, b, c) = (ends[p[0]], ends[p[1]], ends[p[2]]);
    let va: usize = find_opposite(&uniq, a.0, a.1);
    let vb: usize = find_opposite(&uniq, b.0, b.1);
    let vc: usize = find_opposite(&uniq, c.0, c.1);
    ((va, vb, vc), p)
}

proof fn lemma_opposites(i: usize, j: usize, k: usize, uniq: Seq<usize>)
    requires
        i != j,
        j != k,
        i != k,
        uniq =~= seq![i, j, k],
    ensures
        opposite(uniq, i, j) == Some(k),
        opposite(uniq, j, k) == Some(i),
        opposite(uniq, i, k) == Some(j),
{
    let u1 = uniq.drop_first();
    let u2 = u1.drop_first();
    assert(u1 =~= seq![j, k]);
    assert(u2 =~= seq![k]);
    reveal_with_fuel(opposite, 4);
}

/// Every triangle names each of its three stars once.
pub proof fn law_triangle_names_its_stars(
    i: usize,
    j: usize,
    k: usize,
    dij: i64,
    djk: i64,
    dik: i64,
    p: Seq<usize>,
    t: (usize, usize, usize),
)
    requires
        i != j,
        j != k,
        i != k,
        is_triangle(i, j, k, dij, djk, dik, p, t),
    ensures
        t.0 != t.1,
        t.1 != t.2,
        t.0 != t.2,
        t.0 == i || t.0 == j || t.0 == k,
        t.1 == i || t.1 == j || t.1 == k,
        t.2 == i || t.2 == j || t.2 == k,
{
    let keys = seq![dij, djk, dik];
    assert(order::before(keys, p[0] as int, p[1] as int));
    assert(order::before(keys, p[1] as int, p[2] as int));
    assert(order::before(keys, p[0] as int, p[2] as int));
}

/// How often each star of the reference was matched with each star of a frame.
pub struct Votes {
    pub refs: usize,
    pub curs: usize,
    pub counts: Vec<Vec<u32>>,
}

/// Whether that many pairs are enough to fit a transform to.
pub open spec fn make_a_fit(pairs: int) -> bool {
    pairs >= MIN_PAIRS
}

impl Votes {
    /// A counter per pair.
    pub open spec fn wf(self) -> bool {
        &&& self.counts@.len() == self.refs
        &&& forall|i: int| 0 <= i < self.refs ==> (#[trigger] self.counts@[i])@.len() == self.curs
    }

    /// The counter of a pair.
    pub open spec fn at(self, i: int, j: int) -> u32 {
        self.counts@[i]@[j]
    }

    /// No votes yet.
    pub fn new(refs: usize, curs: usize) -> (v: Votes)
        ensures
            v.wf(),
            v.refs == refs,
            v.curs == curs,
            forall|i: int, j: int| 0 <= i < refs && 0 <= j < curs ==> #[trigger] v.at(i, j) == 0,
    {
        let mut counts: Vec<Vec<u32>> = Vec::new();
        let mut i: usize = 0;
        while i < refs
            invariant
                i <= refs,
                counts@.len() == i,
                forall|a: int| 0 <= a < i ==> (#[trigger] counts@[a])@.len() == curs,
                forall|a: int, b: int|
                    0 <= a < i && 0 <= b < curs ==> (#[trigger] counts@[a]@[b]) == 0,
            decreases refs - i,
        {
            let row: Vec<u32> = vec![0u32; curs];
            counts.push(row);
            i = i + 1;
        }
        Votes { refs, curs, counts }
    }

    /// One more vote for a pair.
    fn bump(&mut self, i: usize, j: usize)
        requires
            old(self).wf(),
            i < old(self).refs,
            j < old(self).curs,
            old(self).at(i as int, j as int) < u32::MAX,
        ensures
            final(self).wf(),
            final(self).refs == old(self).refs,
            final(self).curs == old(self).curs,
            forall|a: int, b: int|
                0 <= a < old(self).refs && 0 <= b < old(self).curs ==> #[trigger] final(self).at(
                    a,
                    b,
                ) == old(self).at(a, b) + if a == i && b == j {
                    1int
                } else {
                    0int
                },
    {
        let ghost before = *self;
        assert(self.counts@[i as int]@.len() == self.curs);
        let mut row: Vec<u32> = Vec::new();
        std::mem::swap(&mut row, &mut self.counts[i]);
        let v: u32 = row[j];
        row.set(j, v + 1);
        std::mem::swap(&mut row, &mut self.counts[i]);
        proof {
            assert forall|a: int| 0 <= a < self.refs implies (#[trigger] self.counts@[a])@.len()
                == self.curs by {
                assert(before.counts@[a]@.len() == self.curs);
            }
        }
    }

    /// Two triangles match: one vote for each pair of corresponding vertices.
    pub fn tally(&mut self, r: (usize, usize, usize), c: (usize, usize, usize))
        requires
            old(self).wf(),
            r.0 < old(self).refs && r.1 < old(self).refs && r.2 < old(self).refs,
            c.0 < old(self).curs && c.1 < old(self).curs && c.2 < old(self).curs,
            forall|a: int, b: int|
                0 <= a < old(self).refs && 0 <= b < old(self).curs ==> #[trigger] old(self).at(a, b)
                    <= u32::MAX - 3,
        ensures
            final(self).wf(),
            final(self).refs == old(self).refs,
            final(self).curs == old(self).curs,
            forall|a: int, b: int|
                0 <= a < old(self).refs && 0 <= b < old(self).curs ==> #[trigger] final(self).at(
                    a,
                    b,
                ) == old(self).at(a, b) + votes_for(r, c, a, b),
    {
        assert(self.at(r.0 as int, c.0 as int) <= u32::MAX - 3);
        assert(self.at(r.1 as int, c.1 as int) <= u32::MAX - 3);
        assert(self.at(r.2 as int, c.2 as int) <= u32::MAX - 3);
        self.bump(r.0, c.0);
        self.bump(r.1, c.1);
        self.bump(r.2, c.2);
    }

    /// The star each star of the reference is matched with most often, the
    /// last one of several, where it is so often enough; none where fewer
    /// than `MIN_PAIRS` pairs come out.
    pub fn pairs(&self) -> (r: Option<Vec<(usize, usize, u32)>>)
        requires
            self.wf(),
            self.curs > 0,
        ensures
            r is Some <==> make_a_fit(best_pairs(*self, self.refs as int).len() as int),
            r is Some ==> r->0@ == best_pairs(*self, self.refs as int),
    {
        let mut out: Vec<(usize, usize, u32)> = Vec::new();
        let mut i: usize = 0;
        while i < self.refs
            invariant
                i <= self.refs,
                self.wf(),
                self.curs > 0,
                out@ == best_pairs(*self, i as int),
            decreases self.refs - i,
        {
            assert(self.counts@[i as int]@.len() == self.curs);
            let row = &self.counts[i];
            let mut best: usize = 0;
            let mut j: usize = 1;
            while j < self.curs
                invariant
                    1 <= j <= self.curs,
                    row@.len() == self.curs,
                    best == last_max(row@, j as int),
                    best < j,
                decreases self.curs - j,
            {
                if row[j] >= row[best] {
                    best = j;
                }
                j = j + 1;
            }
            if row[best] >= MIN_VOTES {
                out.push((i, best, row[best]));
            }
            i = i + 1;
        }
        if out.len() < MIN_PAIRS {
            None
        } else {
            Some(out)
        }
    }
}

/// Votes a match of two triangles gives to a pair.
pub open spec fn votes_for(
    r: (usize, usize, usize),
    c: (usize, usize, usize),
    a: int,
    b: int,
) -> int {
    (if a == r.0 && b == c.0 {
        1int
    } else {
        0
    }) + (if a == r.1 && b == c.1 {
        1int
    } else {
        0
    }) + (if a == r.2 && b == c.2 {
        1int
    } else {
        0
    })
}

/// Position of the largest of the first `n` counts, the last of several.
pub open spec fn last_max(row: Seq<u32>, n: int) -> int
    decreases n,
{
    if n <= 1 {
        0
    } else if row[n - 1] >= row[last_max(row, n - 1)] {
        n - 1
    } else {
        last_max(row, n - 1)
    }
}

/// The pairs of the first `n` stars of the reference.
pub open spec fn best_pairs(v: Votes, n: int) -> Seq<(usize, usize, u32)>
    decreases n,
{
    if n <= 0 {
        Seq::empty()
    } else {
        let front = best_pairs(v, n - 1);
        let row = v.counts@[n - 1]@;
        let j = last_max(row, row.len() as int);
        if row[j] >= MIN_VOTES {
            front.push(((n - 1) as usize, j as usize, row[j]))
        } else {
            front
        }
    }
}

/// The next state of the generator, which is also the number it gives.
pub open spec fn next_state(s: u32) -> u32 {
    ((s * 1664525 + 1013904223) % 0x1_0000_0000) as u32
}

/// The next pseudo-random number.
pub fn next_rand(state: &mut u32) -> (r: u32)
    ensures
        r == next_state(*old(state)),
        *final(state) == r,
{
    let wide: u64 = *state as u64 * 1664525 + 1013904223;
    *state = (wide % 0x1_0000_0000) as u32;
    *state
}

/// One draw of two different pairs out of `n`, from the given state.
pub open spec fn draw(s: u32, n: int) -> (int, int) {
    let a = next_state(s) as int % n;
    let b = next_state(next_state(s)) as int % n;
    (
        a,
        if b == a {
            (b + 1) % n
        } else {
            b
        },
    )
}

/// The state after `k` draws.
pub open spec fn state_after(k: nat) -> u32
    decreases k,
{
    if k == 0 {
        SEED
    } else {
        next_state(next_state(state_after((k - 1) as nat)))
    }
}

/// The pairs that transforms are tried from: always the same for the same
/// number of candidates.
pub fn draws(n: usize) -> (out: Vec<(usize, usize)>)
    requires
        n >= 2,
        n < usize::MAX,
    ensures
        out@.len() == DRAWS,
        forall|k: int|
            0 <= k < DRAWS ==> (#[trigger] out@[k]).0 == draw(state_after(k as nat), n as int).0
                && out@[k].1 == draw(state_after(k as nat), n as int).1,
        forall|k: int|
            0 <= k < DRAWS ==> (#[trigger] out@[k]).0 < n && out@[k].1 < n && out@[k].0
                != out@[k].1,
{
    let mut state: u32 = SEED;
    let mut out: Vec<(usize, usize)> = Vec::new();
    let mut k: usize = 0;
    while k < DRAWS
        invariant
            k <= DRAWS,
            n >= 2,
            n < usize::MAX,
            state == state_after(k as nat),
            out@.len() == k,
            forall|i: int|
                0 <= i < k ==> (#[trigger] out@[i]).0 == draw(state_after(i as nat), n as int).0
                    && out@[i].1 == draw(state_after(i as nat), n as int).1,
            forall|i: int|
                0 <= i < k ==> (#[trigger] out@[i]).0 < n && out@[i].1 < n && out@[i].0
                    != out@[i].1,
        decreases DRAWS - k,
    {
        let ghost s0 = state;
        let ra: u32 = next_rand(&mut state);
        let rb: u32 = next_rand(&mut state);
        let a: usize = ra as usize % n;
        let mut b: usize = rb as usize % n;
        if b == a {
            b = (b + 1) % n;
            proof {
                if a + 1 < n {
                    vstd::arithmetic::div_mod::lemma_small_mod((a + 1) as nat, n as nat);
                } else {
                    vstd::arithmetic::div_mod::lemma_mod_self_0(n as int);
                }
            }
        }
        out.push((a, b));
        proof {
            assert(state == next_state(next_state(s0)));
            assert(state_after((k + 1) as nat) == state);
        }
        k = k + 1;
    }
    out
}

/// `r` is the first of the tried transforms with the most inliers, none where
/// the best has too few.
pub open spec fn is_best_draw(inliers: Seq<Option<usize>>, r: Option<usize>) -> bool {
    match r {
        None => forall|k: int|
            0 <= k < inliers.len() && (#[trigger] inliers[k]) is Some ==> inliers[k]->0 < MIN_PAIRS,
        Some(b) => b < inliers.len() && inliers[b as int] is Some && inliers[b as int]->0
            >= MIN_PAIRS && forall|k: int|
            0 <= k < inliers.len() && (#[trigger] inliers[k]) is Some ==> inliers[k]->0
                < inliers[b as int]->0 || inliers[k]->0 == inliers[b as int]->0 && k >= b,
    }
}

/// The first of the tried transforms with the most inliers; none where none
/// could be made or the best has fewer than `MIN_PAIRS`. `inliers` holds, per
/// draw, how many it has.
pub fn best_draw(inliers: &[Option<usize>]) -> (r: Option<usize>)
    ensures
        is_best_draw(inliers@, r),
{
    let mut best: Option<usize> = None;
    let mut top: usize = 0;
    let mut k: usize = 0;
    while k < inliers.len()
        invariant
            k <= inliers@.len(),
            best is None ==> forall|j: int|
                0 <= j < k ==> (#[trigger] inliers@[j]) is None,
            best is Some ==> best->0 < k && inliers@[best->0 as int] == Some(top),
            best is Some ==> forall|j: int|
                0 <= j < k && (#[trigger] inliers@[j]) is Some ==> inliers@[j]->0 < top
                    || inliers@[j]->0 == top && j >= best->0,
        decreases inliers@.len() - k,
    {
        if let Some(n) = inliers[k] {
            let better: bool = match best {
                None => true,
                Some(_) => n > top,
            };
            if better {
                best = Some(k);
                top = n;
            }
        }
        k = k + 1;
    }
    match best {
        None => None,
        Some(b) => if top < MIN_PAIRS {
            None
        } else {
            Some(b)
        },
    }
}

/// A transform with three inliers or more is chosen, and no other has more; of
/// several with as many the first is.
pub proof fn law_best_draw_has_the_most(inliers: Seq<Option<usize>>, r: Option<usize>, k: int)
    requires
        is_best_draw(inliers, r),
        0 <= k < inliers.len(),
        inliers[k] is Some,
    ensures
        inliers[k]->0 >= 3 ==> r is Some,
        r matches Some(b) ==> b < inliers.len() && inliers[b as int] is Some && inliers[b as int]->0
            >= 3 && inliers[b as int]->0 >= inliers[k]->0 && (inliers[b as int]->0 == inliers[k]->0
            ==> b <= k),
{
}

/// The vertex across from a side is the first one that is no end of it.
pub proof fn law_opposite_is_no_end(uniq: Seq<usize>, e1: usize, e2: usize)
    ensures
        match opposite(uniq, e1, e2) {
            Some(v) => v != e1 && v != e2 && exists|k: int|
                0 <= k < uniq.len() && #[trigger] uniq[k] == v && forall|j: int|
                    0 <= j < k ==> #[trigger] uniq[j] == e1 || uniq[j] == e2,
            None => forall|j: int| 0 <= j < uniq.len() ==> #[trigger] uniq[j] == e1 || uniq[j] == e2,
        },
    decreases uniq.len(),
{
    if uniq.len() > 0 {
        if uniq[0] != e1 && uniq[0] != e2 {
            assert(uniq[0] == opposite(uniq, e1, e2)->0);
        } else {
            let rest = uniq.drop_first();
            law_opposite_is_no_end(rest, e1, e2);
            if let Some(v) = opposite(rest, e1, e2) {
                let k = choose|k: int|
                    0 <= k < rest.len() && #[trigger] rest[k] == v && forall|j: int|
                        0 <= j < k ==> #[trigger] rest[j] == e1 || rest[j] == e2;
                assert(uniq[k + 1] == v);
                assert forall|j: int| 0 <= j < k + 1 implies #[trigger] uniq[j] == e1 || uniq[j]
                    == e2 by {
                    if j > 0 {
                        assert(rest[j - 1] == uniq[j]);
                    }
                }
            } else {
                assert forall|j: int| 0 <= j < uniq.len() implies #[trigger] uniq[j] == e1 || uniq[j]
                    == e2 by {
                    if j > 0 {
                        assert(rest[j - 1] == uniq[j]);
                    }
                }
            }
        }
    }
}

/// The side of a triangle across from one of its stars.
pub open spec fn across_from(i: usize, j: usize, dij: i64, djk: i64, dik: i64, v: usize) -> i64 {
    if v == i {
        djk
    } else if v == j {
        dik
    } else {
        dij
    }
}

/// The stars of a triangle are named in the order of the sides across from
/// them, the one across from the shortest first.
pub proof fn law_triangle_goes_by_its_sides(
    i: usize,
    j: usize,
    k: usize,
    dij: i64,
    djk: i64,
    dik: i64,
    p: Seq<usize>,
    t: (usize, usize, usize),
)
    requires
        i != j,
        j != k,
        i != k,
        is_triangle(i, j, k, dij, djk, dik, p, t),
        dij < djk < dik,
    ensures
        t == (k, i, j),
{
    let keys = seq![dij, djk, dik];
    assert(p.len() == 3 && p[0] < 3 && p[1] < 3 && p[2] < 3);
    assert(order::before(keys, p[0] as int, p[1] as int));
    assert(order::before(keys, p[1] as int, p[2] as int));
    assert(keys[0] == dij && keys[1] == djk && keys[2] == dik);
}

/// Whatever the sides, they never fall along the stars that are named.
pub proof fn law_sides_rise_along_a_triangle(
    i: usize,
    j: usize,
    k: usize,
    dij: i64,
    djk: i64,
    dik: i64,
    p: Seq<usize>,
    t: (usize, usize, usize),
)
    requires
        i != j,
        j != k,
        i != k,
        is_triangle(i, j, k, dij, djk, dik, p, t),
    ensures
        across_from(i, j, dij, djk, dik, t.0) <= across_from(i, j, dij, djk, dik, t.1),
        across_from(i, j, dij, djk, dik, t.1) <= across_from(i, j, dij, djk, dik, t.2),
{
    let keys = seq![dij, djk, dik];
    assert(p.len() == 3 && p[0] < 3 && p[1] < 3 && p[2] < 3);
    assert(order::before(keys, p[0] as int, p[1] as int));
    assert(order::before(keys, p[1] as int, p[2] as int));
    assert(keys[0] == dij && keys[1] == djk && keys[2] == dik);
    let across = seq![k, i, j];
    assert(across[0] == k && across[1] == i && across[2] == j);
}

/// Two triangles vote for three pairs, vertex by vertex: each pair gets one
/// vote, and no other pair gets any.
pub proof fn law_triangles_vote_vertex_by_vertex(
    r: (usize, usize, usize),
    c: (usize, usize, usize),
    a: int,
    b: int,
)
    requires
        r.0 != r.1,
        r.1 != r.2,
        r.0 != r.2,
    ensures
        votes_for(r, c, r.0 as int, c.0 as int) == 1,
        votes_for(r, c, r.1 as int, c.1 as int) == 1,
        votes_for(r, c, r.2 as int, c.2 as int) == 1,
        !(a == r.0 && b == c.0) && !(a == r.1 && b == c.1) && !(a == r.2 && b == c.2) ==> votes_for(
            r,
            c,
            a,
            b,
        ) == 0,
{
}

proof fn lemma_last_max(row: Seq<u32>, n: int)
    requires
        0 < n <= row.len(),
    ensures
        0 <= last_max(row, n) < n,
        forall|j: int| 0 <= j < n ==> #[trigger] row[j] <= row[last_max(row, n)],
        forall|j: int| last_max(row, n) < j < n ==> #[trigger] row[j] < row[last_max(row, n)],
    decreases n,
{
    if n > 1 {
        lemma_last_max(row, n - 1);
    }
}

/// A reference star is paired with the star that has the most votes, the last
/// one of several, if these are three or more; otherwise it is not paired at
/// all. `at` of the result is its place in the list, if it has one.
pub proof fn law_stars_pair_with_the_most_votes(v: Votes, n: int, i: int) -> (at: int)
    requires
        v.wf(),
        v.curs > 0,
        0 <= i < n <= v.refs,
        v.refs <= usize::MAX,
    ensures
        (exists|j: int| 0 <= j < v.curs && #[trigger] v.counts@[i]@[j] >= 3) <==> 0 <= at < best_pairs(
            v,
            n,
        ).len(),
        0 <= at < best_pairs(v, n).len() ==> ({
            let (a, b, votes) = best_pairs(v, n)[at];
            &&& a == i
            &&& b < v.curs
            &&& votes == v.counts@[i]@[b as int]
            &&& votes >= 3
            &&& forall|j: int| 0 <= j < v.curs ==> #[trigger] v.counts@[i]@[j] <= votes
            &&& forall|j: int| b < j < v.curs ==> #[trigger] v.counts@[i]@[j] < votes
        }),
        forall|k: int|
            0 <= k < best_pairs(v, n).len() && k != at ==> (#[trigger] best_pairs(v, n)[k]).0 != i,
        forall|k: int| 0 <= k < best_pairs(v, n).len() ==> (#[trigger] best_pairs(v, n)[k]).0 < n,
    decreases n,
{
    let row = v.counts@[n - 1]@;
    let front = best_pairs(v, n - 1);
    let all = best_pairs(v, n);
    assert(v.counts@[n - 1]@.len() == v.curs);
    lemma_last_max(row, row.len() as int);
    lemma_pairs_below(v, n - 1);
    if i == n - 1 {
        let j = last_max(row, row.len() as int);
        if row[j] >= MIN_VOTES {
            assert(v.counts@[i]@[j] >= 3);
            assert(all == front.push(((n - 1) as usize, j as usize, row[j])));
            assert forall|k: int| 0 <= k < all.len() && k != front.len() implies (
            #[trigger] all[k]).0 != i by {
                assert(all[k] == front[k]);
            }
            assert forall|k: int| 0 <= k < all.len() implies (#[trigger] all[k]).0 < n by {
                if k < front.len() {
                    assert(all[k] == front[k]);
                }
            }
            front.len() as int
        } else {
            -1
        }
    } else {
        let at = law_stars_pair_with_the_most_votes(v, n - 1, i);
        assert forall|k: int| 0 <= k < front.len() implies #[trigger] all[k] == front[k] by {}
        if all.len() > front.len() {
            assert(all[front.len() as int].0 == n - 1);
        }
        if 0 <= at < front.len() {
            at
        } else {
            -1
        }
    }
}

proof fn lemma_pairs_below(v: Votes, n: int)
    requires
        n <= v.refs,
        v.refs <= usize::MAX,
    ensures
        forall|k: int| 0 <= k < best_pairs(v, n).len() ==> (#[trigger] best_pairs(v, n)[k]).0 < n,
    decreases n,
{
    if n > 0 {
        lemma_pairs_below(v, n - 1);
        let front = best_pairs(v, n - 1);
        let all = best_pairs(v, n);
        assert forall|k: int| 0 <= k < all.len() implies (#[trigger] all[k]).0 < n by {
            if k < front.len() {
                assert(all[k] == front[k]);
            }
        }
    }
}

/// The numbers come from a linear congruence modulo 2^32, started from a fixed
/// seed, and every pair takes two of them.
pub proof fn law_draws_are_reproducible(s: u32, n: int, k: nat)
    requires
        n >= 2,
    ensures
        (next_state(s) - (1664525 * s + 1013904223)) % 0x1_0000_0000 == 0,
        state_after(0) == 0x1234_5678,
        state_after(k + 1) == next_state(next_state(state_after(k))),
        draw(s, n).0 == next_state(s) as int % n,
        next_state(next_state(s)) as int % n != next_state(s) as int % n ==> draw(s, n).1
            == next_state(next_state(s)) as int % n,
        draw(s, n).0 != draw(s, n).1,
        0 <= draw(s, n).0 < n && 0 <= draw(s, n).1 < n,
{
    let m = 1664525 * s + 1013904223;
    assert(s * 1664525 == 1664525 * s) by (nonlinear_arith);
    assert(next_state(s) == m % 0x1_0000_0000);
    let a = next_state(s) as int % n;
    let b = next_state(next_state(s)) as int % n;
    vstd::arithmetic::div_mod::lemma_mod_bound(next_state(s) as int, n);
    vstd::arithmetic::div_mod::lemma_mod_bound(next_state(next_state(s)) as int, n);
    vstd::arithmetic::div_mod::lemma_mod_bound(b + 1, n);
    if b + 1 < n {
        vstd::arithmetic::div_mod::lemma_small_mod((b + 1) as nat, n as nat);
    } else {
        vstd::arithmetic::div_mod::lemma_mod_self_0(n);
    }
}

/// A fit takes three pairs, and 200 are tried.
pub proof fn law_fits_take_three_pairs(n: int)
    ensures
        make_a_fit(n) <==> n >= 3,
        DRAWS == 200,
{
}

} // verus!
