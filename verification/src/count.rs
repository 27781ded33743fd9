//! Counting the cells of a rectangle of the pixel grid that satisfy a predicate.

use vstd::prelude::*;

verus! {

/// Number of rows `y` in `y0 .. y1` for which `p(x, y)` holds.
pub open spec fn col_count(x: int, y0: int, y1: int, p: spec_fn(int, int) -> bool) -> nat
    decreases y1 - y0,
{
    if y1 <= y0 {
        0
    } else {
        col_count(x, y0, y1 - 1, p) + if p(x, y1 - 1) {
            1nat
        } else {
            0nat
        }
    }
}

/// Number of cells `(x, y)` of `x0 .. x1` by `y0 .. y1` for which `p(x, y)` holds.
pub open spec fn rect_count(x0: int, x1: int, y0: int, y1: int, p: spec_fn(int, int) -> bool) -> nat
    decreases x1 - x0,
{
    if x1 <= x0 {
        0
    } else {
        rect_count(x0, x1 - 1, y0, y1, p) + col_count(x1 - 1, y0, y1, p)
    }
}

/// A column holds no more cells than its height, and no more cells satisfying
/// `p` than satisfying a weaker `q`.
pub proof fn lemma_col_count_bounds(x: int, y0: int, y1: int, p: spec_fn(int, int) -> bool, q: spec_fn(int, int) -> bool)
    requires
        y0 <= y1,
        forall|y: int| y0 <= y < y1 && #[trigger] p(x, y) ==> q(x, y),
    ensures
        col_count(x, y0, y1, p) <= col_count(x, y0, y1, q),
        col_count(x, y0, y1, q) <= y1 - y0,
    decreases y1 - y0,
{
    if y0 < y1 {
        lemma_col_count_bounds(x, y0, y1 - 1, p, q);
    }
}

/// A rectangle holds no more cells than its area, and no more cells satisfying
/// `p` than satisfying a weaker `q`.
pub proof fn lemma_rect_count_bounds(x0: int, x1: int, y0: int, y1: int, p: spec_fn(int, int) -> bool, q: spec_fn(int, int) -> bool)
    requires
        x0 <= x1,
        y0 <= y1,
        forall|x: int, y: int| x0 <= x < x1 && y0 <= y < y1 && #[trigger] p(x, y) ==> q(x, y),
    ensures
        rect_count(x0, x1, y0, y1, p) <= rect_count(x0, x1, y0, y1, q),
        rect_count(x0, x1, y0, y1, q) <= (x1 - x0) * (y1 - y0),
    decreases x1 - x0,
{
    if x0 < x1 {
        lemma_rect_count_bounds(x0, x1 - 1, y0, y1, p, q);
        lemma_col_count_bounds(x1 - 1, y0, y1, p, q);
        assert((x1 - x0) * (y1 - y0) == (x1 - 1 - x0) * (y1 - y0) + (y1 - y0)) by (nonlinear_arith);
    }
}

/// The number of cells of a column below `y_lim` (and at or after `y0 >= 0`).
pub proof fn lemma_col_count_below(x: int, y0: int, y1: int, y_lim: int, p: spec_fn(int, int) -> bool)
    requires
        0 <= y0 <= y1,
        0 <= y_lim,
        forall|y: int| y0 <= y < y1 ==> (#[trigger] p(x, y) <==> y < y_lim),
    ensures
        col_count(x, y0, y1, p) == if y_lim <= y0 { 0 } else if y1 <= y_lim { y1 - y0 } else { y_lim - y0 },
    decreases y1 - y0,
{
    if y0 < y1 {
        lemma_col_count_below(x, y0, y1 - 1, y_lim, p);
    }
}


/// When every column `x < x_lim` of the rectangle holds `c` cells satisfying
/// `p` and every other column none, the rectangle holds `c` times the number
/// of its columns left of `x_lim`.
pub proof fn lemma_rect_count_columns(x0: int, x1: int, y0: int, y1: int, x_lim: int, c: nat, p: spec_fn(int, int) -> bool)
    requires
        x0 <= x1,
        forall|x: int| x0 <= x < x1 ==> #[trigger] col_count(x, y0, y1, p) == if x < x_lim { c } else { 0 },
    ensures
        rect_count(x0, x1, y0, y1, p) == c * (if x_lim <= x0 { 0 } else if x1 <= x_lim { x1 - x0 } else { x_lim - x0 }),
    decreases x1 - x0,
{
    if x0 < x1 {
        lemma_rect_count_columns(x0, x1 - 1, y0, y1, x_lim, c, p);
        assert(col_count(x1 - 1, y0, y1, p) == if x1 - 1 < x_lim { c } else { 0 });
        let k = if x_lim <= x0 { 0 } else if x1 - 1 <= x_lim { x1 - 1 - x0 } else { x_lim - x0 };
        assert(c * k + c == c * (k + 1)) by (nonlinear_arith);
    } else {
        assert(c * 0 == 0) by (nonlinear_arith);
    }
}

} // verus!
