//! Integer facts shared by the other modules.
use vstd::prelude::*;
use vstd::arithmetic::div_mod::{lemma_fundamental_div_mod, lemma_fundamental_div_mod_converse};

verus! {

/// `ceil(n / d)`.
pub open spec fn ceil_div(n: int, d: int) -> int {
    (n + d - 1) / d
}

/// Row `l`, column `g` of a row-major table with `w` columns.
pub proof fn lemma_flat_index(l: int, g: int, w: int)
    requires
        0 <= l,
        0 <= g < w,
    ensures
        (l * w + g) / w == l,
        (l * w + g) % w == g,
        0 <= l * w,
{
    lemma_fundamental_div_mod_converse(l * w + g, w, l, g);
    assert(0 <= l * w) by (nonlinear_arith)
        requires
            0 <= l,
            0 < w,
    ;
}

/// The row and column of flat position `q`.
pub proof fn lemma_flat_split(q: int, w: int)
    requires
        0 <= q,
        0 < w,
    ensures
        q == (q / w) * w + q % w,
        0 <= q % w < w,
        0 <= q / w,
{
    lemma_fundamental_div_mod(q, w);
    assert(q == (q / w) * w + q % w && 0 <= q / w) by (nonlinear_arith)
        requires
            q == w * (q / w) + q % w,
            0 <= q,
            0 < w,
            0 <= q % w < w,
    ;
}

/// A cell of a row-major table lies inside it.
pub proof fn lemma_flat_bound(l: int, g: int, rows: int, w: int)
    requires
        0 <= l < rows,
        0 <= g < w,
    ensures
        0 <= l * w + g < rows * w,
        (l + 1) * w == l * w + w,
        (l + 1) * w <= rows * w,
{
    assert((l + 1) * w == l * w + w) by (nonlinear_arith);
    assert((l + 1) * w <= rows * w) by (nonlinear_arith)
        requires
            l + 1 <= rows,
            0 <= w,
    ;
    assert(0 <= l * w) by (nonlinear_arith)
        requires
            0 <= l,
            0 <= w,
    ;
}

/// The row of a position inside a row-major table.
pub proof fn lemma_flat_row(q: int, rows: int, w: int)
    requires
        0 <= q < rows * w,
        0 < w,
    ensures
        0 <= q / w < rows,
        0 <= q % w < w,
        q == (q / w) * w + q % w,
{
    lemma_flat_split(q, w);
    assert(q / w < rows) by (nonlinear_arith)
        requires
            q == (q / w) * w + q % w,
            q < rows * w,
            0 <= q % w,
            0 < w,
    ;
}

} // verus!
