//! Arithmetic facts about row-major offsets.
use vstd::prelude::*;

verus! {

/// A row-major offset `p * cols + q` of a cell in a `rows x cols` grid lies inside the grid.
pub proof fn lemma_offset_in_grid(p: int, q: int, rows: int, cols: int)
    requires
        0 <= p < rows,
        0 <= q < cols,
    ensures
        0 <= p * cols,
        p * cols + q < rows * cols,
        p * cols <= rows * cols - cols,
{
    assert(p * cols + q < rows * cols) by (nonlinear_arith)
        requires
            0 <= p < rows,
            0 <= q < cols,
    ;
    assert(p * cols <= rows * cols - cols) by (nonlinear_arith)
        requires
            0 <= p < rows,
            0 <= q < cols,
    ;
    assert(0 <= p * cols) by (nonlinear_arith)
        requires
            0 <= p,
            0 <= cols,
    ;
}

/// Row-major offsets respect the lexicographic order of cells.
pub proof fn lemma_offset_lex(p: int, q: int, pb: int, qb: int, cols: int)
    requires
        0 <= q < cols,
        0 <= qb <= cols,
        0 <= p,
        p < pb || (p == pb && q < qb),
    ensures
        p * cols + q < pb * cols + qb,
{
    if p < pb {
        assert(p * cols + q < pb * cols + qb) by (nonlinear_arith)
            requires
                0 <= q < cols,
                0 <= qb,
                0 <= p < pb,
        ;
    }
}

/// Distinct cells have distinct row-major offsets.
pub proof fn lemma_offset_injective(p: int, q: int, pb: int, qb: int, cols: int)
    requires
        0 <= q < cols,
        0 <= qb < cols,
        0 <= p,
        0 <= pb,
        p * cols + q == pb * cols + qb,
    ensures
        p == pb,
        q == qb,
{
    if p < pb {
        lemma_offset_lex(p, q, pb, qb, cols);
    } else if pb < p {
        lemma_offset_lex(pb, qb, p, q, cols);
    }
}

/// A product of factors that are each at least one bounds each of its factors.
pub proof fn lemma_mul_ge_factor(a: int, b: int)
    requires
        0 <= a,
        1 <= b,
    ensures
        a <= a * b,
{
    assert(a <= a * b) by (nonlinear_arith)
        requires
            0 <= a,
            1 <= b,
    ;
}

/// Multiplication by a non-negative factor is monotone.
pub proof fn lemma_mul_mono(a: int, b: int, c: int)
    requires
        0 <= a <= b,
        0 <= c,
    ensures
        a * c <= b * c,
        c * a <= c * b,
{
    assert(a * c <= b * c) by (nonlinear_arith)
        requires
            0 <= a <= b,
            0 <= c,
    ;
    assert(c * a <= c * b) by (nonlinear_arith)
        requires
            0 <= a <= b,
            0 <= c,
    ;
}

} // verus!
