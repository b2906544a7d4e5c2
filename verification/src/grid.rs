//! Row-major grids: where a cell sits in the flat sequence.
use vstd::prelude::*;

verus! {

/// Index of the cell in column `x` of row `y` of a grid `w` columns wide.
pub open spec fn cell(x: int, y: int, w: int) -> int {
    y * w + x
}

/// A cell of the grid lies inside the flat sequence.
pub proof fn lemma_cell(x: int, y: int, w: int, h: int)
    requires
        0 <= x < w,
        0 <= y < h,
    ensures
        0 <= cell(x, y, w) < w * h,
        0 <= y * w <= w * h - w,
{
    assert(y * w >= 0) by (nonlinear_arith)
        requires
            y >= 0,
            w > 0,
    ;
    assert((y + 1) * w <= h * w) by (nonlinear_arith)
        requires
            y + 1 <= h,
            w > 0,
    ;
    assert((y + 1) * w == y * w + w) by (nonlinear_arith);
    assert(h * w == w * h) by (nonlinear_arith);
}

/// Every index of the flat sequence is a cell.
pub proof fn lemma_cell_of(i: int, w: int, h: int)
    requires
        0 <= i < w * h,
        w > 0,
    ensures
        0 <= i % w < w,
        0 <= i / w < h,
        cell(i % w, i / w, w) == i,
{
    vstd::arithmetic::div_mod::lemma_fundamental_div_mod(i, w);
    vstd::arithmetic::div_mod::lemma_mod_bound(i, w);
    let q = i / w;
    assert(w * q == q * w) by (nonlinear_arith);
    assert(q >= 0) by (nonlinear_arith)
        requires
            i >= 0,
            w > 0,
            q == i / w,
    ;
    if q >= h {
        assert(q * w >= h * w) by (nonlinear_arith)
            requires
                q >= h,
                w > 0,
        ;
        assert(h * w == w * h) by (nonlinear_arith);
    }
}

/// The cells of a row stand next to each other, and a row behind the one above
/// it.
pub proof fn law_rows_follow_each_other(x: int, y: int, w: int)
    ensures
        cell(0, 0, w) == 0,
        cell(x + 1, y, w) == cell(x, y, w) + 1,
        cell(0, y + 1, w) == cell(w - 1, y, w) + 1,
{
    assert(0 * w == 0) by (nonlinear_arith);
    assert((y + 1) * w == y * w + w) by (nonlinear_arith);
}

} // verus!
