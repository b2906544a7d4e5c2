//! Masks over a row-major grid: connected components, growth, rectangles.
use crate::grid;
use vstd::prelude::*;

verus! {

/// The numbers below `n` with a property, ascending.
pub open spec fn picked(n: int, p: spec_fn(int) -> bool) -> Seq<usize>
    decreases n,
{
    if n <= 0 {
        Seq::empty()
    } else if p(n - 1) {
        picked(n - 1, p).push((n - 1) as usize)
    } else {
        picked(n - 1, p)
    }
}

/// What is picked has the property, everything that has it is picked, and
/// nothing twice.
pub proof fn lemma_picked(n: int, p: spec_fn(int) -> bool)
    requires
        n <= usize::MAX + 1,
    ensures
        picked(n, p).len() <= if n > 0 {
            n
        } else {
            0
        },
        forall|k: int| 0 <= k < picked(n, p).len() ==> (#[trigger] picked(n, p)[k]) < n && p(
            picked(n, p)[k] as int,
        ),
        forall|k: int, l: int|
            0 <= k < l < picked(n, p).len() ==> picked(n, p)[k] < picked(n, p)[l],
        forall|v: usize| v < n && p(v as int) ==> #[trigger] picked(n, p).contains(v),
    decreases n,
{
    if n > 0 {
        lemma_picked(n - 1, p);
        let f = picked(n - 1, p);
        let s = picked(n, p);
        assert forall|v: usize| v < n && p(v as int) implies #[trigger] s.contains(v) by {
            if v == n - 1 {
                assert(s[f.len() as int] == v);
            } else {
                assert(f.contains(v));
                let k = choose|k: int| 0 <= k < f.len() && f[k] == v;
                assert(s[k] == v);
            }
        }
    }
}

/// How many cells of a mask are set.
pub open spec fn set_count(mask: Seq<bool>) -> nat
    decreases mask.len(),
{
    if mask.len() == 0 {
        0
    } else {
        set_count(mask.drop_last()) + if mask.last() {
            1nat
        } else {
            0nat
        }
    }
}

/// Counts the set cells of a mask.
pub fn count_set(mask: &[bool]) -> (n: usize)
    ensures
        n == set_count(mask@),
        n <= mask@.len(),
{
    let mut n: usize = 0;
    let mut i: usize = 0;
    while i < mask.len()
        invariant
            i <= mask@.len(),
            n <= i,
            n == set_count(mask@.take(i as int)),
        decreases mask@.len() - i,
    {
        assert(mask@.take(i + 1).drop_last() =~= mask@.take(i as int));
        if mask[i] {
            n = n + 1;
        }
        i = i + 1;
    }
    assert(mask@.take(i as int) =~= mask@);
    n
}

/// Whether some cell of the rectangle `x0 .. x1`, `y0 .. y1` is set.
pub open spec fn any_set(mask: Seq<bool>, w: int, x0: int, y0: int, x1: int, y1: int) -> bool {
    exists|x: int, y: int|
        x0 <= x < x1 && y0 <= y < y1 && mask[#[trigger] grid::cell(x, y, w)]
}

/// Whether some cell of a rectangle is set.
pub fn any_in(mask: &[bool], w: usize, h: usize, x0: usize, y0: usize, x1: usize, y1: usize) -> (b:
    bool)
    requires
        mask@.len() == w * h,
        x1 <= w,
        y1 <= h,
    ensures
        b == any_set(mask@, w as int, x0 as int, y0 as int, x1 as int, y1 as int),
{
    let ghost total: usize = mask.len();
    let mut y: usize = y0;
    while y < y1
        invariant
            y0 <= y,
            x1 <= w,
            y1 <= h,
            mask@.len() == w * h == total,
            forall|xx: int, yy: int|
                x0 <= xx < x1 && y0 <= yy < y ==> !mask@[#[trigger] grid::cell(xx, yy, w as int)],
        decreases y1 - y,
    {
        let mut x: usize = x0;
        while x < x1
            invariant
                x0 <= x,
                x1 <= w,
                y0 <= y < y1 <= h,
                mask@.len() == w * h == total,
                forall|xx: int, yy: int|
                    x0 <= xx < x1 && y0 <= yy < y || x0 <= xx < x && yy == y ==> !mask@[
                        #[trigger] grid::cell(xx, yy, w as int)],
            decreases x1 - x,
        {
            proof {
                grid::lemma_cell(x as int, y as int, w as int, h as int);
            }
            if mask[y * w + x] {
                assert(mask@[grid::cell(x as int, y as int, w as int)]);
                return true;
            }
            assert(!mask@[grid::cell(x as int, y as int, w as int)]);
            x = x + 1;
        }
        y = y + 1;
    }
    false
}

/// Whether a set cell lies within `r` columns and rows of a cell.
pub open spec fn near_set(mask: Seq<bool>, w: int, h: int, x: int, y: int, r: int) -> bool {
    any_set(
        mask,
        w,
        if x > r {
            x - r
        } else {
            0
        },
        if y > r {
            y - r
        } else {
            0
        },
        if x + r + 1 < w {
            x + r + 1
        } else {
            w
        },
        if y + r + 1 < h {
            y + r + 1
        } else {
            h
        },
    )
}

/// A mask grown by `r` cells in every direction, corners included.
pub open spec fn grown(mask: Seq<bool>, w: int, h: int, r: int) -> Seq<bool> {
    Seq::new(mask.len(), |i: int| near_set(mask, w, h, i % w, i / w, r))
}

/// Grows a mask by `r` cells in every direction.
pub fn dilate(mask: &[bool], w: usize, h: usize, r: usize) -> (out: Vec<bool>)
    requires
        mask@.len() == w * h,
        w + r < usize::MAX,
        h + r < usize::MAX,
    ensures
        out@ == grown(mask@, w as int, h as int, r as int),
{
    let n: usize = mask.len();
    let mut out: Vec<bool> = Vec::new();
    let mut i: usize = 0;
    while i < n
        invariant
            i <= n,
            n == mask@.len() == w * h,
            w + r < usize::MAX,
            h + r < usize::MAX,
            out@ =~= grown(mask@, w as int, h as int, r as int).take(i as int),
        decreases n - i,
    {
        proof {
            assert(w > 0) by {
                if w == 0 {
                    assert(w * h == 0) by (nonlinear_arith)
                        requires
                            w == 0,
                    ;
                }
            }
            grid::lemma_cell_of(i as int, w as int, h as int);
        }
        let x: usize = i % w;
        let y: usize = i / w;
        let x0: usize = if x > r {
            x - r
        } else {
            0
        };
        let y0: usize = if y > r {
            y - r
        } else {
            0
        };
        let x1: usize = if x + r + 1 < w {
            x + r + 1
        } else {
            w
        };
        let y1: usize = if y + r + 1 < h {
            y + r + 1
        } else {
            h
        };
        out.push(any_in(mask, w, h, x0, y0, x1, y1));
        i = i + 1;
    }
    out
}

/// Growing keeps what is set.
pub proof fn law_growth_keeps(mask: Seq<bool>, w: int, h: int, r: int, i: int)
    requires
        w > 0,
        h > 0,
        r >= 0,
        mask.len() == w * h,
        0 <= i < mask.len(),
        mask[i],
    ensures
        grown(mask, w, h, r)[i],
{
    grid::lemma_cell_of(i, w, h);
    assert(mask[grid::cell(i % w, i / w, w)]);
}

/// A cell of the grid next to another one, in the same row or column.
pub open spec fn adjacent(w: int, h: int, a: int, b: int) -> bool {
    &&& 0 <= a < w * h
    &&& 0 <= b < w * h
    &&& {
        ||| b == a - 1 && a % w > 0
        ||| b == a + 1 && a % w + 1 < w
        ||| b == a - w
        ||| b == a + w
    }
}

/// Being next to each other goes both ways.
proof fn lemma_adjacent_symmetric(w: int, h: int, a: int, b: int)
    requires
        w > 0,
        adjacent(w, h, a, b),
    ensures
        adjacent(w, h, b, a),
{
    if b == a - 1 && a % w > 0 {
        vstd::arithmetic::div_mod::lemma_fundamental_div_mod(a, w);
        vstd::arithmetic::div_mod::lemma_mod_bound(a, w);
        let q = a / w;
        let r = a % w;
        assert(b == q * w + (r - 1)) by {
            assert(w * q == q * w) by (nonlinear_arith);
        }
        vstd::arithmetic::div_mod::lemma_fundamental_div_mod_converse(b, w, q, r - 1);
    } else if b == a + 1 && a % w + 1 < w {
        vstd::arithmetic::div_mod::lemma_fundamental_div_mod(a, w);
        vstd::arithmetic::div_mod::lemma_mod_bound(a, w);
        let q = a / w;
        let r = a % w;
        assert(b == q * w + (r + 1)) by {
            assert(w * q == q * w) by (nonlinear_arith);
        }
        vstd::arithmetic::div_mod::lemma_fundamental_div_mod_converse(b, w, q, r + 1);
    }
}

/// The cells next to a cell: left, right, above, below.
fn neighbours(i: usize, w: usize, h: usize, Ghost(n): Ghost<usize>) -> (nb: Vec<usize>)
    requires
        w > 0,
        i < w * h,
        w * h == n,
    ensures
        forall|k: int|
            0 <= k < nb@.len() ==> adjacent(w as int, h as int, i as int, (#[trigger] nb@[k]) as int),
        forall|b: int| #[trigger]
            adjacent(w as int, h as int, i as int, b) ==> nb@.contains(b as usize),
{
    let x: usize = i % w;
    let y: usize = i / w;
    proof {
        grid::lemma_cell_of(i as int, w as int, h as int);
        grid::lemma_cell(x as int, y as int, w as int, h as int);
        if y + 1 < h {
            grid::lemma_cell(x as int, y + 1, w as int, h as int);
            assert((y + 1) * w == y * w + w) by (nonlinear_arith);
        } else {
            assert(y == h - 1);
            assert(h * w == w * h) by (nonlinear_arith);
            assert((y + 1) * w == y * w + w) by (nonlinear_arith);
        }
        if y > 0 {
            assert((y - 1) * w == y * w - w) by (nonlinear_arith);
            grid::lemma_cell(x as int, y - 1, w as int, h as int);
        }
    }
    let mut nb: Vec<usize> = Vec::new();
    if x > 0 {
        nb.push(i - 1);
        assert(nb@[0] == i - 1);
    }
    let ghost n1 = nb@;
    if x + 1 < w {
        nb.push(i + 1);
        assert(nb@[n1.len() as int] == i + 1);
    }
    let ghost n2 = nb@;
    if y > 0 {
        nb.push(i - w);
        assert(nb@[n2.len() as int] == i - w);
    }
    let ghost n3 = nb@;
    if y + 1 < h {
        nb.push(i + w);
        assert(nb@[n3.len() as int] == i + w);
    }
    proof {
        assert forall|b: int| #[trigger] adjacent(w as int, h as int, i as int, b) implies nb@.contains(
            b as usize,
        ) by {
            if b == i - 1 && x > 0 {
                assert(nb@[0] == b);
            } else if b == i + 1 && x + 1 < w {
                assert(nb@[n1.len() as int] == b);
            } else if b == i - w {
                assert(y > 0) by {
                    if y == 0 {
                        assert(y * w == 0) by (nonlinear_arith)
                            requires
                                y == 0,
                        ;
                    }
                }
                assert(nb@[n2.len() as int] == b);
            } else {
                assert(b == i + w);
                assert(nb@[n3.len() as int] == b);
            }
        }
    }
    nb
}

/// A way from cell to cell over set cells.
pub open spec fn trail(mask: Seq<bool>, w: int, h: int, path: Seq<int>) -> bool {
    &&& path.len() > 0
    &&& forall|k: int| 0 <= k < path.len() ==> 0 <= #[trigger] path[k] < mask.len() && mask[path[k]]
    &&& forall|k: int| 0 <= k < path.len() - 1 ==> #[trigger] step_ok(w, h, path, k)
}

/// Step `k` of a way leads to a cell next to the one before.
pub open spec fn step_ok(w: int, h: int, path: Seq<int>, k: int) -> bool {
    adjacent(w, h, path[k], path[k + 1])
}

/// Two cells are connected over set cells.
pub open spec fn connected(mask: Seq<bool>, w: int, h: int, a: int, b: int) -> bool {
    exists|path: Seq<int>| #[trigger]
        trail(mask, w, h, path) && path[0] == a && path.last() == b
}

proof fn lemma_connected_self(mask: Seq<bool>, w: int, h: int, a: int)
    requires
        0 <= a < mask.len(),
        mask[a],
    ensures
        connected(mask, w, h, a, a),
{
    let path = seq![a];
    assert(trail(mask, w, h, path));
}

proof fn lemma_connected_step(mask: Seq<bool>, w: int, h: int, a: int, b: int, c: int)
    requires
        connected(mask, w, h, a, b),
        adjacent(w, h, b, c),
        mask.len() == w * h,
        mask[c],
    ensures
        connected(mask, w, h, a, c),
{
    let path = choose|path: Seq<int>| #[trigger]
        trail(mask, w, h, path) && path[0] == a && path.last() == b;
    let longer = path.push(c);
    assert forall|k: int| 0 <= k < longer.len() - 1 implies #[trigger] step_ok(w, h, longer, k) by {
        if k < path.len() - 1 {
            assert(step_ok(w, h, path, k));
        }
    }
    assert(trail(mask, w, h, longer));
    assert(longer[0] == a && longer.last() == c);
}

/// Nothing set lies next to a visited cell without being visited itself.
spec fn closed(mask: Seq<bool>, w: int, h: int, visited: Seq<bool>) -> bool {
    forall|a: int, b: int|
        #![trigger adjacent(w, h, a, b)]
        adjacent(w, h, a, b) && visited[a] && mask[b] ==> visited[b]
}

/// From a visited cell a way over set cells never leaves what is visited.
proof fn lemma_closed(
    mask: Seq<bool>,
    w: int,
    h: int,
    visited: Seq<bool>,
    path: Seq<int>,
    k: int,
)
    requires
        closed(mask, w, h, visited),
        trail(mask, w, h, path),
        0 <= k < path.len(),
        visited[path[0]],
    ensures
        visited[path[k]],
    decreases k,
{
    if k > 0 {
        lemma_closed(mask, w, h, visited, path, k - 1);
        assert(step_ok(w, h, path, k - 1));
    }
}

/// A list without repetitions, of numbers below `n`, has at most `n` entries.
proof fn lemma_pigeonhole(s: Seq<usize>, n: nat)
    requires
        s.no_duplicates(),
        forall|k: int| 0 <= k < s.len() ==> (#[trigger] s[k]) < n,
    ensures
        s.len() <= n,
    decreases n,
{
    if n == 0 {
        if s.len() > 0 {
            assert(s[0] < 0);
        }
    } else if s.contains((n - 1) as usize) {
        let k = choose|k: int| 0 <= k < s.len() && s[k] == (n - 1) as usize;
        let t = s.remove(k);
        assert forall|i: int| 0 <= i < t.len() implies (#[trigger] t[i]) < n - 1 by {
            if i < k {
                assert(t[i] == s[i]);
            } else {
                assert(t[i] == s[i + 1]);
            }
        }
        assert forall|i: int, j: int| 0 <= i < t.len() && 0 <= j < t.len() && i != j implies t[i]
            != t[j] by {
            let ii = if i < k {
                i
            } else {
                i + 1
            };
            let jj = if j < k {
                j
            } else {
                j + 1
            };
            assert(t[i] == s[ii] && t[j] == s[jj]);
        }
        lemma_pigeonhole(t, (n - 1) as nat);
    } else {
        assert forall|k: int| 0 <= k < s.len() implies (#[trigger] s[k]) < n - 1 by {
            assert(s[k] != n - 1);
        }
        lemma_pigeonhole(s, (n - 1) as nat);
    }
}

/// The component of a cell: every set cell connected to it, each once.
pub open spec fn component_of(mask: Seq<bool>, w: int, h: int, start: int, comp: Seq<usize>) -> bool {
    &&& comp.len() > 0
    &&& comp[0] == start
    &&& comp.no_duplicates()
    &&& forall|j: usize| #[trigger]
        comp.contains(j) <==> j < mask.len() && mask[j as int] && connected(
            mask,
            w,
            h,
            start,
            j as int,
        )
}

/// Collects the component of `start` and marks its cells as visited.
fn flood(mask: &[bool], w: usize, h: usize, start: usize, visited: &mut Vec<bool>) -> (comp: Vec<
    usize,
>)
    requires
        mask@.len() == w * h,
        old(visited)@.len() == mask@.len(),
        start < mask@.len(),
        mask@[start as int],
        !old(visited)@[start as int],
        closed(mask@, w as int, h as int, old(visited)@),
    ensures
        component_of(mask@, w as int, h as int, start as int, comp@),
        final(visited)@.len() == mask@.len(),
        closed(mask@, w as int, h as int, final(visited)@),
        forall|j: int|
            0 <= j < mask@.len() ==> (#[trigger] final(visited)@[j] <==> old(visited)@[j]
                || comp@.contains(j as usize)),
        forall|j: int|
            0 <= j < mask@.len() && #[trigger] old(visited)@[j] ==> !comp@.contains(j as usize),
{
    let n: usize = mask.len();
    let ghost v0 = visited@;
    let ghost (wi, hi) = (w as int, h as int);
    proof {
        assert(w > 0) by {
            if w == 0 {
                assert(w * h == 0) by (nonlinear_arith)
                    requires
                        w == 0,
                ;
            }
        }
        lemma_connected_self(mask@, wi, hi, start as int);
    }
    let mut comp: Vec<usize> = Vec::new();
    let mut stack: Vec<usize> = Vec::new();
    stack.push(start);
    visited.set(start, true);
    proof {
        assert((comp@ + stack@) =~= seq![start]);
        assert((comp@ + stack@)[0] == start);
    }
    while stack.len() > 0
        invariant
            w > 0,
            wi == w,
            hi == h,
            n == mask@.len() == w * h,
            v0.len() == n == visited@.len(),
            closed(mask@, wi, hi, v0),
            start < n,
            !v0[start as int],
            comp@.len() == 0 ==> stack@.len() == 1,
            (comp@ + stack@).len() > 0,
            (comp@ + stack@)[0] == start,
            (comp@ + stack@).no_duplicates(),
            forall|k: int|
                0 <= k < (comp@ + stack@).len() ==> (#[trigger] (comp@ + stack@)[k]) < n
                    && mask@[(comp@ + stack@)[k] as int] && !v0[(comp@ + stack@)[k] as int]
                    && connected(mask@, wi, hi, start as int, (comp@ + stack@)[k] as int),
            forall|j: int|
                0 <= j < n ==> (#[trigger] visited@[j] <==> v0[j] || (comp@ + stack@).contains(
                    j as usize,
                )),
            forall|a: int, b: int|
                #![trigger adjacent(wi, hi, a, b)]
                adjacent(wi, hi, a, b) && comp@.contains(a as usize) && mask@[b] ==> visited@[b],
        decreases n - comp@.len(),
    {
        let ghost was = comp@ + stack@;
        let ghost s0 = stack@;
        let ghost c0 = comp@;
        let ghost vis0 = visited@;
        proof {
            lemma_pigeonhole(was, n as nat);
        }
        let i: usize = stack[stack.len() - 1];
        assert(was[was.len() - 1] == i);
        stack.pop();
        comp.push(i);
        let ghost base = comp@ + stack@;
        proof {
            lemma_rotate(c0, s0, comp@, stack@, i);
        }
        let nb = neighbours(i, w, h, Ghost(n));
        let mut k: usize = 0;
        while k < nb.len()
            invariant
                w > 0,
                wi == w,
                hi == h,
                n == mask@.len() == w * h,
                v0.len() == n == visited@.len(),
                k <= nb@.len(),
                vis0.len() == n,
                comp@.len() > 0,
                i < n,
                mask@[i as int],
                connected(mask@, wi, hi, start as int, i as int),
                forall|m: int|
                    0 <= m < nb@.len() ==> adjacent(wi, hi, i as int, (#[trigger] nb@[m]) as int),
                (comp@ + stack@).len() > 0,
                (comp@ + stack@)[0] == start,
                (comp@ + stack@).no_duplicates(),
                forall|m: int|
                    0 <= m < (comp@ + stack@).len() ==> (#[trigger] (comp@ + stack@)[m]) < n
                        && mask@[(comp@ + stack@)[m] as int] && !v0[(comp@ + stack@)[m] as int]
                        && connected(mask@, wi, hi, start as int, (comp@ + stack@)[m] as int),
                forall|j: int|
                    0 <= j < n ==> (#[trigger] visited@[j] <==> v0[j] || (comp@ + stack@).contains(
                        j as usize,
                    )),
                forall|j: int| 0 <= j < n && vis0[j] ==> #[trigger] visited@[j],
                forall|m: int|
                    0 <= m < k && mask@[nb@[m] as int] ==> visited@[(#[trigger] nb@[m]) as int],
            decreases nb@.len() - k,
        {
            let j: usize = nb[k];
            assert(adjacent(wi, hi, i as int, j as int));
            if mask[j] && !visited[j] {
                let ghost all = comp@ + stack@;
                let ghost vb = visited@;
                visited.set(j, true);
                stack.push(j);
                proof {
                    assert(comp@ + stack@ =~= all.push(j));
                    assert(!all.contains(j)) by {
                        if all.contains(j) {
                            assert(vb[j as int]);
                        }
                    }
                    lemma_connected_step(mask@, wi, hi, start as int, i as int, j as int);
                    lemma_push_unique(all, j);
                    assert(!v0[j as int]);
                    assert forall|m: int| 0 <= m < (comp@ + stack@).len() implies (
                    #[trigger] (comp@ + stack@)[m]) < n && mask@[(comp@ + stack@)[m] as int]
                        && !v0[(comp@ + stack@)[m] as int] && connected(
                        mask@,
                        wi,
                        hi,
                        start as int,
                        (comp@ + stack@)[m] as int,
                    ) by {
                        if m < all.len() {
                            assert((comp@ + stack@)[m] == all[m]);
                        }
                    }
                }
            }
            k = k + 1;
        }
        proof {
            assert forall|a: int, b: int|
                #![trigger adjacent(wi, hi, a, b)]
                adjacent(wi, hi, a, b) && comp@.contains(a as usize) && mask@[b] implies visited@[b] by {
                if a == i {
                    assert(nb@.contains(b as usize));
                    let m = choose|m: int| 0 <= m < nb@.len() && nb@[m] == b as usize;
                    assert(visited@[nb@[m] as int]);
                } else {
                    let m = choose|m: int| 0 <= m < comp@.len() && comp@[m] == a as usize;
                    assert(c0[m] == a as usize);
                    assert(vis0[b]);
                }
            }
        }
    }
    proof {
        assert(comp@ + stack@ =~= comp@);
        let v = visited@;
        assert(closed(mask@, wi, hi, v)) by {
            assert forall|a: int, b: int|
                #![trigger adjacent(wi, hi, a, b)]
                adjacent(wi, hi, a, b) && v[a] && mask@[b] implies v[b] by {
                if !v0[a] {
                    assert(comp@.contains(a as usize));
                }
            }
        }
        assert forall|j: usize| #[trigger] comp@.contains(j) <==> j < mask@.len() && mask@[j as int]
            && connected(mask@, wi, hi, start as int, j as int) by {
            if comp@.contains(j) {
                let m = choose|m: int| 0 <= m < comp@.len() && comp@[m] == j;
                assert((comp@ + stack@)[m] == j);
            }
            if j < mask@.len() && mask@[j as int] && connected(
                mask@,
                wi,
                hi,
                start as int,
                j as int,
            ) {
                let path = choose|path: Seq<int>| #[trigger]
                    trail(mask@, wi, hi, path) && path[0] == start && path.last() == j;
                assert((comp@ + stack@)[0] == start);
                assert(comp@.contains(start)) by {
                    assert(comp@[0] == start);
                }
                assert(v[start as int]);
                lemma_closed(mask@, wi, hi, v, path, path.len() - 1);
                assert(v[j as int]);
                if v0[j as int] {
                    lemma_reversed(mask@, wi, hi, v0, path, 0);
                }
            }
        }
    }
    comp
}

/// If a way ends in what was visited before, it began there.
proof fn lemma_reversed(
    mask: Seq<bool>,
    w: int,
    h: int,
    visited: Seq<bool>,
    path: Seq<int>,
    k: int,
)
    requires
        w > 0,
        closed(mask, w, h, visited),
        trail(mask, w, h, path),
        0 <= k < path.len(),
        visited[path.last()],
    ensures
        visited[path[k]],
    decreases path.len() - k,
{
    if k < path.len() - 1 {
        lemma_reversed(mask, w, h, visited, path, k + 1);
        assert(step_ok(w, h, path, k));
        lemma_adjacent_symmetric(w, h, path[k], path[k + 1]);
        assert(adjacent(w, h, path[k + 1], path[k]));
        assert(mask[path[k]]);
    }
}

proof fn lemma_push_unique(s: Seq<usize>, v: usize)
    requires
        s.no_duplicates(),
        !s.contains(v),
    ensures
        s.push(v).no_duplicates(),
        forall|x: usize| #[trigger] s.push(v).contains(x) <==> s.contains(x) || x == v,
{
    let t = s.push(v);
    assert forall|x: usize| #[trigger] t.contains(x) <==> s.contains(x) || x == v by {
        if t.contains(x) {
            let k = choose|k: int| 0 <= k < t.len() && t[k] == x;
            if k < s.len() {
                assert(s[k] == x);
            }
        }
        if s.contains(x) {
            let k = choose|k: int| 0 <= k < s.len() && s[k] == x;
            assert(t[k] == x);
        }
        if x == v {
            assert(t[s.len() as int] == x);
        }
    }
    assert forall|i: int, j: int| 0 <= i < t.len() && 0 <= j < t.len() && i != j implies t[i] != t[
        j] by {
        if i == s.len() {
            assert(s.contains(s[j]));
        }
        if j == s.len() {
            assert(s.contains(s[i]));
        }
    }
}

/// Moving the last entry of one list to the end of the list before it keeps
/// what the two hold.
proof fn lemma_rotate(c0: Seq<usize>, s0: Seq<usize>, c1: Seq<usize>, s1: Seq<usize>, i: usize)
    requires
        s0.len() > 0,
        s0.last() == i,
        c1 == c0.push(i),
        s1 == s0.drop_last(),
        (c0 + s0).no_duplicates(),
    ensures
        (c1 + s1).no_duplicates(),
        (c1 + s1).len() == (c0 + s0).len(),
        c0.len() > 0 ==> (c1 + s1)[0] == (c0 + s0)[0],
        c0.len() == 0 && s0.len() == 1 ==> (c1 + s1)[0] == (c0 + s0)[0],
        forall|x: usize| #[trigger] (c1 + s1).contains(x) <==> (c0 + s0).contains(x),
        forall|k: int|
            0 <= k < (c1 + s1).len() ==> (c0 + s0).contains(#[trigger] (c1 + s1)[k]),
{
    let a = c0 + s0;
    let b = c1 + s1;
    let n = c0.len() as int;
    let last = a.len() - 1;
    assert forall|k: int| 0 <= k < b.len() implies b[k] == #[trigger] a[rotated(k, n, last)] by {}
    assert forall|i: int, j: int| 0 <= i < b.len() && 0 <= j < b.len() && i != j implies b[i] != b[
        j] by {
        assert(b[i] == a[rotated(i, n, last)]);
        assert(b[j] == a[rotated(j, n, last)]);
    }
    assert forall|x: usize| #[trigger] b.contains(x) <==> a.contains(x) by {
        if b.contains(x) {
            let k = choose|k: int| 0 <= k < b.len() && b[k] == x;
            assert(a[rotated(k, n, last)] == x);
        }
        if a.contains(x) {
            let k = choose|k: int| 0 <= k < a.len() && a[k] == x;
            let m = if k < n {
                k
            } else if k == last {
                n
            } else {
                k + 1
            };
            assert(b[m] == x);
        }
    }
    assert forall|k: int| 0 <= k < b.len() implies a.contains(#[trigger] b[k]) by {
        assert(b.contains(b[k]));
    }
}

/// Where entry `k` stood before the last one was moved to position `n`.
spec fn rotated(k: int, n: int, last: int) -> int {
    if k < n {
        k
    } else if k == n {
        last
    } else {
        k - 1
    }
}

/// Whether `comps` are the components of a mask, in the order of their first
/// cells.
pub open spec fn are_components(mask: Seq<bool>, w: int, h: int, comps: Seq<Seq<usize>>) -> bool {
    &&& forall|k: int|
        0 <= k < comps.len() ==> component_of(
            mask,
            w,
            h,
            (#[trigger] comps[k])[0] as int,
            comps[k],
        )
    &&& forall|k: int, l: int|
        0 <= k < l < comps.len() ==> (#[trigger] comps[k])[0] < (#[trigger] comps[l])[0]
    &&& forall|k: int, j: usize|
        #![trigger comps[k].contains(j)]
        0 <= k < comps.len() && comps[k].contains(j) ==> comps[k][0] <= j
    &&& forall|k: int, l: int, j: usize|
        #![trigger comps[k].contains(j), comps[l].contains(j)]
        0 <= k < comps.len() && 0 <= l < comps.len() && comps[k].contains(j) && comps[l].contains(
            j,
        ) ==> k == l
    &&& forall|j: usize|
        j < mask.len() && #[trigger] mask[j as int] ==> exists|k: int|
            0 <= k < comps.len() && (#[trigger] comps[k]).contains(j)
}

/// The contents of a list of lists.
pub open spec fn lists(v: Seq<Vec<usize>>) -> Seq<Seq<usize>> {
    v.map_values(|c: Vec<usize>| c@)
}

/// The connected components of a mask, cells next to each other in the same
/// row or column belonging together.
pub fn components(mask: &[bool], w: usize, h: usize) -> (comps: Vec<Vec<usize>>)
    requires
        mask@.len() == w * h,
    ensures
        are_components(mask@, w as int, h as int, lists(comps@)),
{
    let n: usize = mask.len();
    let ghost (wi, hi) = (w as int, h as int);
    let mut visited: Vec<bool> = vec![false; n];
    let mut comps: Vec<Vec<usize>> = Vec::new();
    let mut i: usize = 0;
    while i < n
        invariant
            i <= n,
            n == mask@.len() == w * h == visited@.len(),
            wi == w,
            hi == h,
            closed(mask@, wi, hi, visited@),
            forall|j: int| 0 <= j < i && mask@[j] ==> #[trigger] visited@[j],
            forall|j: usize|
                j < n && #[trigger] visited@[j as int] ==> exists|k: int|
                    0 <= k < comps@.len() && (#[trigger] lists(comps@)[k]).contains(j),
            forall|k: int, j: usize|
                #![trigger lists(comps@)[k].contains(j)]
                0 <= k < comps@.len() && lists(comps@)[k].contains(j) ==> j < n
                    && visited@[j as int] && lists(comps@)[k][0] <= j,
            forall|k: int|
                0 <= k < comps@.len() ==> component_of(
                    mask@,
                    wi,
                    hi,
                    (#[trigger] lists(comps@)[k])[0] as int,
                    lists(comps@)[k],
                ) && lists(comps@)[k][0] < i,
            forall|k: int, l: int|
                0 <= k < l < comps@.len() ==> (#[trigger] lists(comps@)[k])[0] < (
                #[trigger] lists(comps@)[l])[0],
            forall|k: int, l: int, j: usize|
                #![trigger lists(comps@)[k].contains(j), lists(comps@)[l].contains(j)]
                0 <= k < comps@.len() && 0 <= l < comps@.len() && lists(comps@)[k].contains(j)
                    && lists(comps@)[l].contains(j) ==> k == l,
        decreases n - i,
    {
        if mask[i] && !visited[i] {
            let ghost v0 = visited@;
            let ghost was = lists(comps@);
            let comp = flood(mask, w, h, i, &mut visited);
            let ghost c = comp@;
            comps.push(comp);
            proof {
                let now = lists(comps@);
                assert(now =~= was.push(c));
                assert forall|j: usize| j < n && #[trigger] visited@[j as int] implies exists|k: int|
                    0 <= k < comps@.len() && (#[trigger] now[k]).contains(j) by {
                    if v0[j as int] {
                        let k = choose|k: int| 0 <= k < was.len() && (#[trigger] was[k]).contains(j);
                        assert(now[k].contains(j));
                    } else {
                        assert(now[was.len() as int].contains(j));
                    }
                }
                assert forall|k: int, j: usize|
                    #![trigger now[k].contains(j)]
                    0 <= k < comps@.len() && now[k].contains(j) implies j < n && visited@[j as int]
                    && now[k][0] <= j by {
                    if k < was.len() {
                        assert(was[k].contains(j));
                    } else {
                        assert(c.contains(j));
                        if j < i {
                            assert(v0[j as int]);
                        }
                    }
                }
                assert forall|k: int| 0 <= k < comps@.len() implies component_of(
                    mask@,
                    wi,
                    hi,
                    (#[trigger] now[k])[0] as int,
                    now[k],
                ) && now[k][0] < i + 1 by {
                    if k < was.len() {
                        assert(now[k] == was[k]);
                    }
                }
                assert forall|k: int, l: int| 0 <= k < l < comps@.len() implies (
                #[trigger] now[k])[0] < (#[trigger] now[l])[0] by {
                    assert(now[k] == was[k]);
                    if l < was.len() {
                        assert(now[l] == was[l]);
                    }
                }
                assert forall|k: int, l: int, j: usize|
                    #![trigger now[k].contains(j), now[l].contains(j)]
                    0 <= k < comps@.len() && 0 <= l < comps@.len() && now[k].contains(j)
                        && now[l].contains(j) implies k == l by {
                    if k < was.len() {
                        assert(was[k].contains(j));
                    }
                    if l < was.len() {
                        assert(was[l].contains(j));
                    }
                }
            }
        }
        i = i + 1;
    }
    proof {
        assert forall|j: usize| j < mask@.len() && #[trigger] mask@[j as int] implies exists|k: int|
            0 <= k < lists(comps@).len() && (#[trigger] lists(comps@)[k]).contains(j) by {
            assert(visited@[j as int]);
        }
    }
    comps
}

/// A mask without the components that are not kept.
pub open spec fn sifted(
    mask: Seq<bool>,
    w: int,
    h: int,
    keep: spec_fn(Seq<usize>) -> bool,
    out: Seq<bool>,
) -> bool {
    &&& out.len() == mask.len()
    &&& exists|comps: Seq<Seq<usize>>| #[trigger]
        are_components(mask, w, h, comps) && forall|j: usize|
            j < mask.len() ==> (#[trigger] out[j as int] <==> exists|k: int|
                0 <= k < comps.len() && (#[trigger] comps[k]).contains(j) && keep(comps[k]))
}

/// Clears the cells of the components that are not kept.
pub fn sift(mask: &[bool], comps: &Vec<Vec<usize>>, keep: &[bool]) -> (out: Vec<bool>)
    requires
        keep@.len() == comps@.len(),
        forall|k: int, j: usize|
            #![trigger lists(comps@)[k].contains(j)]
            0 <= k < comps@.len() && lists(comps@)[k].contains(j) ==> j < mask@.len(),
    ensures
        out@.len() == mask@.len(),
        forall|j: usize|
            j < mask@.len() ==> (#[trigger] out@[j as int] <==> mask@[j as int] && forall|k: int|
                0 <= k < comps@.len() && (#[trigger] lists(comps@)[k]).contains(j) ==> keep@[k]),
{
    let mut out: Vec<bool> = Vec::new();
    let mut i: usize = 0;
    while i < mask.len()
        invariant
            i <= mask@.len(),
            out@ =~= mask@.take(i as int),
        decreases mask@.len() - i,
    {
        out.push(mask[i]);
        i = i + 1;
    }
    let mut k: usize = 0;
    while k < comps.len()
        invariant
            k <= comps@.len(),
            keep@.len() == comps@.len(),
            out@.len() == mask@.len(),
            forall|m: int, j: usize|
                #![trigger lists(comps@)[m].contains(j)]
                0 <= m < comps@.len() && lists(comps@)[m].contains(j) ==> j < mask@.len(),
            forall|j: usize|
                j < mask@.len() ==> (#[trigger] out@[j as int] <==> mask@[j as int] && forall|m: int|
                    0 <= m < k && (#[trigger] lists(comps@)[m]).contains(j) ==> keep@[m]),
        decreases comps@.len() - k,
    {
        let ghost c = lists(comps@)[k as int];
        let ghost before = out@;
        if !keep[k] {
            let mut m: usize = 0;
            while m < comps[k].len()
                invariant
                    k < comps@.len(),
                    c == lists(comps@)[k as int],
                    c == comps@[k as int]@,
                    m <= c.len(),
                    out@.len() == mask@.len() == before.len(),
                    forall|j: usize| #[trigger] c.contains(j) ==> j < mask@.len(),
                    forall|j: usize|
                        j < mask@.len() ==> (#[trigger] out@[j as int] <==> before[j as int]
                            && !c.take(m as int).contains(j)),
                decreases c.len() - m,
            {
                let j: usize = comps[k][m];
                assert(c[m as int] == j);
                assert(c.contains(j));
                let ghost prior = out@;
                out.set(j, false);
                proof {
                    assert forall|x: usize| x < mask@.len() implies (#[trigger] out@[x as int]
                        <==> before[x as int] && !c.take(m + 1).contains(x)) by {
                        assert(prior[x as int] <==> before[x as int] && !c.take(m as int).contains(
                            x,
                        ));
                        assert(c.take(m + 1) =~= c.take(m as int).push(j));
                        lemma_push_contains(c.take(m as int), j, x);
                    }
                }
                m = m + 1;
            }
            assert(c.take(m as int) =~= c);
        }
        proof {
            assert forall|j: usize| j < mask@.len() implies (#[trigger] out@[j as int] <==> mask@[j as int]
                && forall|m: int|
                0 <= m < k + 1 && (#[trigger] lists(comps@)[m]).contains(j) ==> keep@[m]) by {
                assert(before[j as int] <==> mask@[j as int] && forall|m: int|
                    0 <= m < k && (#[trigger] lists(comps@)[m]).contains(j) ==> keep@[m]);
                if c.contains(j) && !keep@[k as int] {
                    assert(lists(comps@)[k as int].contains(j));
                }
            }
        }
        k = k + 1;
    }
    out
}

pub proof fn lemma_push_contains(s: Seq<usize>, v: usize, x: usize)
    ensures
        s.push(v).contains(x) <==> s.contains(x) || x == v,
{
    let t = s.push(v);
    if t.contains(x) {
        let k = choose|k: int| 0 <= k < t.len() && t[k] == x;
        if k < s.len() {
            assert(s[k] == x);
        }
    }
    if s.contains(x) {
        let k = choose|k: int| 0 <= k < s.len() && s[k] == x;
        assert(t[k] == x);
    }
    if x == v {
        assert(t[s.len() as int] == x);
    }
}

/// Every set cell belongs to exactly one component, and two set cells belong
/// to the same one exactly if they are connected.
pub proof fn law_components_partition(
    mask: Seq<bool>,
    w: int,
    h: int,
    comps: Seq<Seq<usize>>,
    k: int,
    a: usize,
    b: usize,
)
    requires
        w > 0,
        mask.len() == w * h,
        are_components(mask, w, h, comps),
        0 <= k < comps.len(),
        comps[k].contains(a),
    ensures
        comps[k].contains(b) <==> b < mask.len() && mask[b as int] && connected(
            mask,
            w,
            h,
            a as int,
            b as int,
        ),
{
    let s = comps[k][0] as int;
    assert(component_of(mask, w, h, s, comps[k]));
    lemma_connected_back(mask, w, h, s, a as int);
    if comps[k].contains(b) {
        lemma_connected_join(mask, w, h, a as int, s, b as int);
    }
    if b < mask.len() && mask[b as int] && connected(mask, w, h, a as int, b as int) {
        lemma_connected_join(mask, w, h, s, a as int, b as int);
    }
}

proof fn lemma_connected_back(mask: Seq<bool>, w: int, h: int, a: int, b: int)
    requires
        w > 0,
        connected(mask, w, h, a, b),
    ensures
        connected(mask, w, h, b, a),
{
    let path = choose|path: Seq<int>| #[trigger]
        trail(mask, w, h, path) && path[0] == a && path.last() == b;
    let n = path.len();
    let back = Seq::new(n, |k: int| path[n - 1 - k]);
    assert forall|k: int| 0 <= k < back.len() - 1 implies #[trigger] step_ok(w, h, back, k) by {
        assert(step_ok(w, h, path, n - 2 - k));
        lemma_adjacent_symmetric(w, h, path[n - 2 - k], path[n - 1 - k]);
    }
    assert(trail(mask, w, h, back));
    assert(back[0] == b && back.last() == a);
}

proof fn lemma_connected_join(mask: Seq<bool>, w: int, h: int, a: int, b: int, c: int)
    requires
        connected(mask, w, h, a, b),
        connected(mask, w, h, b, c),
    ensures
        connected(mask, w, h, a, c),
{
    let p = choose|path: Seq<int>| #[trigger]
        trail(mask, w, h, path) && path[0] == a && path.last() == b;
    let q = choose|path: Seq<int>| #[trigger]
        trail(mask, w, h, path) && path[0] == b && path.last() == c;
    let r = p + q.drop_first();
    assert forall|k: int| 0 <= k < r.len() - 1 implies #[trigger] step_ok(w, h, r, k) by {
        if k < p.len() - 1 {
            assert(step_ok(w, h, p, k));
        } else {
            assert(step_ok(w, h, q, k - (p.len() - 1)));
        }
    }
    assert forall|k: int| 0 <= k < r.len() implies 0 <= #[trigger] r[k] < mask.len() && mask[r[k]] by {
        if k < p.len() {
            assert(r[k] == p[k]);
        } else {
            assert(r[k] == q[k - p.len() + 1]);
        }
    }
    assert(trail(mask, w, h, r));
    assert(r[0] == a);
    assert(r.last() == c) by {
        if q.len() == 1 {
            assert(r.last() == p.last());
        } else {
            assert(r.last() == q.last());
        }
    }
}

/// A count names the set cells: the result lists them, in ascending order.
pub proof fn law_count_is_of_the_set(mask: Seq<bool>) -> (at: Seq<int>)
    ensures
        set_count(mask) == at.len(),
        forall|k: int| 0 <= k < at.len() ==> 0 <= #[trigger] at[k] < mask.len() && mask[at[k]],
        forall|k: int, l: int| 0 <= k < l < at.len() ==> #[trigger] at[k] < #[trigger] at[l],
        forall|i: int| 0 <= i < mask.len() && #[trigger] mask[i] ==> at.contains(i),
    decreases mask.len(),
{
    if mask.len() == 0 {
        Seq::empty()
    } else {
        let front = law_count_is_of_the_set(mask.drop_last());
        let n = mask.len() - 1;
        let at = if mask.last() {
            front.push(n)
        } else {
            front
        };
        assert forall|i: int| 0 <= i < mask.len() && #[trigger] mask[i] implies at.contains(i) by {
            if i < n {
                assert(mask.drop_last()[i]);
                let k = choose|k: int| 0 <= k < front.len() && front[k] == i;
                assert(at[k] == i);
            } else {
                assert(at[front.len() as int] == i);
            }
        }
        assert forall|k: int| 0 <= k < at.len() implies 0 <= #[trigger] at[k] < mask.len()
            && mask[at[k]] by {
            if k < front.len() {
                assert(at[k] == front[k]);
                assert(mask.drop_last()[front[k]]);
            }
        }
        at
    }
}

/// A set cell grows onto everything at most `r` columns and rows away.
pub proof fn law_growth_reaches(
    mask: Seq<bool>,
    w: int,
    h: int,
    r: int,
    x: int,
    y: int,
    a: int,
    b: int,
)
    requires
        mask.len() == w * h,
        0 <= x < w,
        0 <= y < h,
        0 <= a < w,
        0 <= b < h,
        -r <= a - x <= r,
        -r <= b - y <= r,
        mask[b * w + a],
    ensures
        grown(mask, w, h, r)[y * w + x],
{
    grid::lemma_cell(x, y, w, h);
    let i = y * w + x;
    lemma_place(x, y, w);
    assert(mask[grid::cell(a, b, w)]);
    assert(near_set(mask, w, h, x, y, r));
    assert(grown(mask, w, h, r)[i] == near_set(mask, w, h, i % w, i / w, r));
}

/// What has grown is at most `r` columns and rows away from a set cell, which
/// the result names.
pub proof fn law_growth_comes_from_near(
    mask: Seq<bool>,
    w: int,
    h: int,
    r: int,
    x: int,
    y: int,
) -> (s: (int, int))
    requires
        mask.len() == w * h,
        0 <= x < w,
        0 <= y < h,
        grown(mask, w, h, r)[y * w + x],
    ensures
        0 <= s.0 < w,
        0 <= s.1 < h,
        -r <= s.0 - x <= r,
        -r <= s.1 - y <= r,
        mask[s.1 * w + s.0],
{
    grid::lemma_cell(x, y, w, h);
    let i = y * w + x;
    lemma_place(x, y, w);
    assert(grown(mask, w, h, r)[i] == near_set(mask, w, h, i % w, i / w, r));
    assert(near_set(mask, w, h, x, y, r));
    let x0 = if x > r {
        x - r
    } else {
        0
    };
    let y0 = if y > r {
        y - r
    } else {
        0
    };
    let x1 = if x + r + 1 < w {
        x + r + 1
    } else {
        w
    };
    let y1 = if y + r + 1 < h {
        y + r + 1
    } else {
        h
    };
    let (a, b) = choose|a: int, b: int|
        x0 <= a < x1 && y0 <= b < y1 && mask[#[trigger] grid::cell(a, b, w)];
    (a, b)
}

/// Column and row of a cell.
pub(crate) proof fn lemma_place(x: int, y: int, w: int)
    requires
        0 <= x < w,
    ensures
        (y * w + x) % w == x,
        (y * w + x) / w == y,
{
    vstd::arithmetic::div_mod::lemma_fundamental_div_mod_converse(y * w + x, w, y, x);
}

/// Two cells are next to each other if they are one column or one row apart.
pub proof fn law_neighbours_are_one_step_apart(w: int, h: int, x: int, y: int, a: int, b: int)
    requires
        0 <= x < w,
        0 <= y < h,
        0 <= a < w,
        0 <= b < h,
    ensures
        adjacent(w, h, y * w + x, b * w + a) <==> (y == b && (a == x + 1 || a == x - 1)) || (x == a
            && (b == y + 1 || b == y - 1)),
{
    grid::lemma_cell(x, y, w, h);
    grid::lemma_cell(a, b, w, h);
    lemma_place(x, y, w);
    let d = b - y;
    assert(b * w == y * w + d * w) by (nonlinear_arith)
        requires
            b == y + d,
    ;
    if d >= 2 {
        assert(d * w >= 2 * w) by (nonlinear_arith)
            requires
                d >= 2,
                w > 0,
        ;
    } else if d <= -2 {
        assert(d * w <= -2 * w) by (nonlinear_arith)
            requires
                d <= -2,
                w > 0,
        ;
    } else if d == 1 {
        assert(d * w == w) by (nonlinear_arith)
            requires
                d == 1,
        ;
    } else if d == -1 {
        assert(d * w == -w) by (nonlinear_arith)
            requires
                d == -1,
        ;
    } else {
        assert(d * w == 0) by (nonlinear_arith)
            requires
                d == 0,
        ;
    }
}

/// Set cells side by side, or one above the other, are in one component.
pub proof fn law_neighbours_share_a_component(
    mask: Seq<bool>,
    w: int,
    h: int,
    comps: Seq<Seq<usize>>,
    k: int,
    a: usize,
    b: usize,
)
    requires
        w > 0,
        mask.len() == w * h,
        are_components(mask, w, h, comps),
        0 <= k < comps.len(),
        comps[k].contains(a),
        b < mask.len(),
        mask[b as int],
        (b == a + 1 && a as int % w + 1 < w) || (a == b + 1 && b as int % w + 1 < w) || b == a + w
            || a == b + w,
    ensures
        comps[k].contains(b),
{
    assert(component_of(mask, w, h, comps[k][0] as int, comps[k]));
    assert(a < mask.len() && mask[a as int]);
    if a == b + 1 {
        lemma_adjacent_symmetric(w, h, b as int, a as int);
    }
    let path = seq![a as int, b as int];
    assert(adjacent(w, h, a as int, b as int));
    assert(step_ok(w, h, path, 0));
    assert(trail(mask, w, h, path));
    assert(path[0] == a && path.last() == b);
    law_components_partition(mask, w, h, comps, k, a, b);
}

proof fn lemma_same_label(mask: Seq<bool>, w: int, h: int, label: Seq<int>, path: Seq<int>)
    requires
        w > 0,
        mask.len() == w * h,
        trail(mask, w, h, path),
        forall|i: int|
            0 <= i < mask.len() && #[trigger] mask[i] ==> (i % w + 1 < w && mask[i + 1] ==> label[i]
                == label[i + 1]) && (i + w < mask.len() && mask[i + w] ==> label[i] == label[i + w]),
    ensures
        label[path[0]] == label[path.last()],
    decreases path.len(),
{
    if path.len() > 1 {
        let front = path.drop_last();
        assert forall|k: int| 0 <= k < front.len() - 1 implies #[trigger] step_ok(
            w,
            h,
            front,
            k,
        ) by {
            assert(step_ok(w, h, path, k));
        }
        assert forall|k: int| 0 <= k < front.len() implies 0 <= #[trigger] front[k] < mask.len()
            && mask[front[k]] by {
            assert(front[k] == path[k]);
        }
        assert(trail(mask, w, h, front));
        lemma_same_label(mask, w, h, label, front);
        let (a, b) = (path[path.len() - 2], path[path.len() - 1]);
        assert(step_ok(w, h, path, path.len() - 2));
        assert(mask[a] && mask[b]);
        lemma_adjacent_symmetric(w, h, a, b);
        assert(adjacent(w, h, b, a));
    }
}

/// Nothing but neighbours ties a component together: whatever is the same on
/// any two neighbouring set cells is the same all over a component.
pub proof fn law_component_is_tied_by_neighbours(
    mask: Seq<bool>,
    w: int,
    h: int,
    comps: Seq<Seq<usize>>,
    k: int,
    label: Seq<int>,
    a: usize,
    b: usize,
)
    requires
        w > 0,
        mask.len() == w * h,
        are_components(mask, w, h, comps),
        0 <= k < comps.len(),
        comps[k].contains(a),
        comps[k].contains(b),
        forall|i: int|
            0 <= i < mask.len() && #[trigger] mask[i] ==> (i % w + 1 < w && mask[i + 1] ==> label[i]
                == label[i + 1]) && (i + w < mask.len() && mask[i + w] ==> label[i] == label[i + w]),
    ensures
        mask[a as int] && mask[b as int],
        label[a as int] == label[b as int],
{
    assert(component_of(mask, w, h, comps[k][0] as int, comps[k]));
    law_components_partition(mask, w, h, comps, k, a, b);
    let path = choose|path: Seq<int>| #[trigger]
        trail(mask, w, h, path) && path[0] == a && path.last() == b;
    lemma_same_label(mask, w, h, label, path);
}

/// Every set cell is in one component, in none twice, and components are
/// listed by their first cell.
pub proof fn law_components_cover(
    mask: Seq<bool>,
    w: int,
    h: int,
    comps: Seq<Seq<usize>>,
    j: usize,
) -> (k: int)
    requires
        are_components(mask, w, h, comps),
        j < mask.len(),
        mask[j as int],
    ensures
        0 <= k < comps.len(),
        comps[k].contains(j),
        comps[k].no_duplicates(),
        comps[k][0] <= j,
        forall|l: int| 0 <= l < comps.len() && (#[trigger] comps[l]).contains(j) ==> l == k,
        forall|l: int| 0 <= l < k ==> (#[trigger] comps[l])[0] < comps[k][0],
{
    let k = choose|k: int| 0 <= k < comps.len() && (#[trigger] comps[k]).contains(j);
    assert(component_of(mask, w, h, comps[k][0] as int, comps[k]));
    k
}

} // verus!
