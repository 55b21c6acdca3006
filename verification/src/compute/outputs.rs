//! Whole-buffer forms of the layer kernels' outputs.
//!
//! The kernels state their results cell by cell, at row-major offsets. The functions
//! here give the same results as complete sequences, so that layers can be chained in
//! specifications: element `idx` of each sequence is the cell whose offset is `idx`.
use vstd::prelude::*;
use crate::compute::scalar::Scalar;
use crate::compute::kernels::{ConvShape, conv_value, conv_output_offset, pool_cell, grid3, linear_value, relu_value};

verus! {

/// Plane of offset `idx` in a buffer of `rows x cols` planes.
pub open spec fn plane_of(idx: int, rows: int, cols: int) -> int {
    idx / (rows * cols)
}

/// Row of offset `idx` inside its `rows x cols` plane.
pub open spec fn row_of(idx: int, rows: int, cols: int) -> int {
    (idx % (rows * cols)) / cols
}

/// Column of offset `idx` inside its `rows x cols` plane.
pub open spec fn col_of(idx: int, rows: int, cols: int) -> int {
    (idx % (rows * cols)) % cols
}

/// Every offset inside `planes` planes of `rows x cols` cells is the offset of exactly the cell
/// that `plane_of`, `row_of` and `col_of` name.
pub proof fn lemma_grid3_decode(planes: int, rows: int, cols: int, idx: int)
    requires
        0 < rows,
        0 < cols,
        0 <= idx < planes * (rows * cols),
    ensures
        0 <= plane_of(idx, rows, cols) < planes,
        0 <= row_of(idx, rows, cols) < rows,
        0 <= col_of(idx, rows, cols) < cols,
        grid3(rows, cols, plane_of(idx, rows, cols), row_of(idx, rows, cols), col_of(idx, rows, cols))
            == idx,
{
    let rc = rows * cols;
    assert(rows * cols > 0) by (nonlinear_arith)
        requires
            0 < rows,
            0 < cols,
    ;
    let p = idx / rc;
    let r = idx % rc;
    vstd::arithmetic::div_mod::lemma_fundamental_div_mod(idx, rc);
    vstd::arithmetic::div_mod::lemma_mod_bound(idx, rc);
    vstd::arithmetic::div_mod::lemma_div_pos_is_pos(idx, rc);
    assert(p < planes) by {
        assert(idx < rc * planes) by (nonlinear_arith)
            requires
                idx < planes * rc,
        ;
        vstd::arithmetic::div_mod::lemma_multiply_divide_lt(idx, rc, planes);
    }
    vstd::arithmetic::div_mod::lemma_fundamental_div_mod(r, cols);
    vstd::arithmetic::div_mod::lemma_mod_bound(r, cols);
    vstd::arithmetic::div_mod::lemma_div_pos_is_pos(r, cols);
    assert(r / cols < rows) by {
        assert(r < cols * rows) by (nonlinear_arith)
            requires
                r < rc,
                rc == rows * cols,
        ;
        vstd::arithmetic::div_mod::lemma_multiply_divide_lt(r, cols, rows);
    }
    assert(rc * p == p * rc) by (nonlinear_arith);
    assert(cols * (r / cols) == (r / cols) * cols) by (nonlinear_arith);
}

/// Every offset in `[0, rows * cols)` is `(idx / cols) * cols + idx % cols`, with both parts in range.
pub proof fn lemma_grid2_decode(rows: int, cols: int, idx: int)
    requires
        0 < cols,
        0 <= idx < rows * cols,
    ensures
        0 <= idx / cols < rows,
        0 <= idx % cols < cols,
        (idx / cols) * cols + idx % cols == idx,
{
    vstd::arithmetic::div_mod::lemma_fundamental_div_mod(idx, cols);
    vstd::arithmetic::div_mod::lemma_mod_bound(idx, cols);
    vstd::arithmetic::div_mod::lemma_div_pos_is_pos(idx, cols);
    assert(idx / cols < rows) by {
        assert(idx < cols * rows) by (nonlinear_arith)
            requires
                idx < rows * cols,
        ;
        vstd::arithmetic::div_mod::lemma_multiply_divide_lt(idx, cols, rows);
    }
    assert(cols * (idx / cols) == (idx / cols) * cols) by (nonlinear_arith);
}

/// The whole output of a convolution of shape `s`, in `[n, c_out, h_out, w_out]` order.
pub open spec fn conv_output_seq<T: Scalar>(x: Seq<T>, wt: Seq<T>, bias: Seq<T>, s: ConvShape) -> Seq<T> {
    Seq::new(
        s.spec_output_len() as nat,
        |idx: int|
            {
                let rows = s.h_out as int;
                let cols = s.w_out as int;
                let p = plane_of(idx, rows, cols);
                conv_value(
                    x,
                    wt,
                    bias,
                    s,
                    p / (s.c_out as int),
                    p % (s.c_out as int),
                    row_of(idx, rows, cols),
                    col_of(idx, rows, cols),
                )
            },
    )
}

/// A buffer that agrees with the convolution at every output cell is the whole convolution output.
pub proof fn lemma_conv_output_seq<T: Scalar>(out: Seq<T>, x: Seq<T>, wt: Seq<T>, bias: Seq<T>, s: ConvShape)
    requires
        out.len() == s.spec_output_len(),
        forall|b: int, co: int, i: int, j: int|
            0 <= b < s.n && 0 <= co < s.c_out && 0 <= i < s.h_out && 0 <= j < s.w_out
                ==> out[conv_output_offset(s, b, co, i, j)] == #[trigger] conv_value(x, wt, bias, s, b, co, i, j),
    ensures
        out == conv_output_seq(x, wt, bias, s),
{
    let want = conv_output_seq(x, wt, bias, s);
    assert forall|idx: int| 0 <= idx < out.len() implies out[idx] == want[idx] by {
        let rows = s.h_out as int;
        let cols = s.w_out as int;
        let planes = (s.n * s.c_out) as int;
        let c = s.c_out as int;
        assert(rows > 0 && cols > 0 && c > 0) by (nonlinear_arith)
            requires
                0 <= idx < (s.n * s.c_out) * (s.h_out * s.w_out),
                rows == s.h_out,
                cols == s.w_out,
                c == s.c_out,
                s.n >= 0,
                rows >= 0,
                cols >= 0,
                c >= 0,
        ;
        lemma_grid3_decode(planes, rows, cols, idx);
        let p = plane_of(idx, rows, cols);
        lemma_grid2_decode(s.n as int, c, p);
        assert(p / c * c + p % c == p);
        let _ = conv_value(x, wt, bias, s, p / c, p % c, row_of(idx, rows, cols), col_of(idx, rows, cols));
    }
    assert(out =~= want);
}

/// The whole output of 2x2 max pooling over `planes` planes of `h x w` pixels.
pub open spec fn pool_seq<T: Scalar>(x: Seq<T>, planes: int, h: int, w: int, lowest: T) -> Seq<T> {
    Seq::new(
        (planes * ((h / 2) * (w / 2))) as nat,
        |idx: int|
            pool_cell(
                x,
                h,
                w,
                lowest,
                plane_of(idx, h / 2, w / 2),
                row_of(idx, h / 2, w / 2),
                col_of(idx, h / 2, w / 2),
            ).0,
    )
}

/// A buffer that holds the best value of every pooling window is the whole pooling output.
pub proof fn lemma_pool_seq<T: Scalar>(out: Seq<T>, x: Seq<T>, planes: int, h: int, w: int, lowest: T)
    requires
        0 <= planes,
        0 <= h,
        0 <= w,
        out.len() == planes * ((h / 2) * (w / 2)),
        forall|p: int, i: int, j: int|
            0 <= p < planes && 0 <= i < h / 2 && 0 <= j < w / 2 ==> out[grid3(h / 2, w / 2, p, i, j)]
                == (#[trigger] pool_cell(x, h, w, lowest, p, i, j)).0,
    ensures
        out == pool_seq(x, planes, h, w, lowest),
{
    let want = pool_seq(x, planes, h, w, lowest);
    assert forall|idx: int| 0 <= idx < out.len() implies out[idx] == want[idx] by {
        let rows = h / 2;
        let cols = w / 2;
        assert(rows > 0 && cols > 0) by (nonlinear_arith)
            requires
                0 <= idx < planes * (rows * cols),
                0 <= planes,
                rows >= 0,
                cols >= 0,
        ;
        lemma_grid3_decode(planes, rows, cols, idx);
        let _ = pool_cell(x, h, w, lowest, plane_of(idx, rows, cols), row_of(idx, rows, cols), col_of(idx, rows, cols));
    }
    assert(out =~= want);
}

/// The input position each 2x2 max-pooling window took its value from, over `planes` planes
/// of `h x w` pixels, in the order of `pool_seq`.
pub open spec fn pool_argmax_seq<T: Scalar>(x: Seq<T>, planes: int, h: int, w: int, lowest: T) -> Seq<usize> {
    Seq::new(
        (planes * ((h / 2) * (w / 2))) as nat,
        |idx: int|
            pool_cell(
                x,
                h,
                w,
                lowest,
                plane_of(idx, h / 2, w / 2),
                row_of(idx, h / 2, w / 2),
                col_of(idx, h / 2, w / 2),
            ).1,
    )
}

/// A buffer that holds the source position of every pooling window is `pool_argmax_seq`.
pub proof fn lemma_pool_argmax_seq<T: Scalar>(out: Seq<usize>, x: Seq<T>, planes: int, h: int, w: int, lowest: T)
    requires
        0 <= planes,
        0 <= h,
        0 <= w,
        out.len() == planes * ((h / 2) * (w / 2)),
        forall|p: int, i: int, j: int|
            0 <= p < planes && 0 <= i < h / 2 && 0 <= j < w / 2 ==> out[grid3(h / 2, w / 2, p, i, j)]
                == (#[trigger] pool_cell(x, h, w, lowest, p, i, j)).1,
    ensures
        out == pool_argmax_seq(x, planes, h, w, lowest),
{
    let want = pool_argmax_seq(x, planes, h, w, lowest);
    assert forall|idx: int| 0 <= idx < out.len() implies out[idx] == want[idx] by {
        let rows = h / 2;
        let cols = w / 2;
        assert(rows > 0 && cols > 0) by (nonlinear_arith)
            requires
                0 <= idx < planes * (rows * cols),
                0 <= planes,
                rows >= 0,
                cols >= 0,
        ;
        lemma_grid3_decode(planes, rows, cols, idx);
        let _ = pool_cell(x, h, w, lowest, plane_of(idx, rows, cols), row_of(idx, rows, cols), col_of(idx, rows, cols));
    }
    assert(out =~= want);
}

/// The whole output of a fully connected layer over `n` rows, in `[n, out_f]` order.
pub open spec fn linear_seq<T: Scalar>(x: Seq<T>, w: Seq<T>, b: Seq<T>, in_f: int, n: int, out_f: int) -> Seq<T> {
    Seq::new((n * out_f) as nat, |idx: int| linear_value(x, w, b, in_f, idx / out_f, idx % out_f))
}

/// A buffer that agrees with the fully connected layer at every output is its whole output.
pub proof fn lemma_linear_seq<T: Scalar>(out: Seq<T>, x: Seq<T>, w: Seq<T>, b: Seq<T>, in_f: int, n: int, out_f: int)
    requires
        0 <= n,
        out.len() == n * out_f,
        forall|row: int, o: int|
            0 <= row < n && 0 <= o < out_f ==> out[row * out_f + o] == #[trigger] linear_value(x, w, b, in_f, row, o),
    ensures
        out == linear_seq(x, w, b, in_f, n, out_f),
{
    let want = linear_seq(x, w, b, in_f, n, out_f);
    assert forall|idx: int| 0 <= idx < out.len() implies out[idx] == want[idx] by {
        assert(out_f > 0) by (nonlinear_arith)
            requires
                0 <= idx < n * out_f,
                0 <= n,
        ;
        lemma_grid2_decode(n, out_f, idx);
        let _ = linear_value(x, w, b, in_f, idx / out_f, idx % out_f);
    }
    assert(out =~= want);
}

/// Element-wise ReLU of a whole buffer.
pub open spec fn relu_seq<T: Scalar>(x: Seq<T>, zero: T) -> Seq<T> {
    Seq::new(x.len(), |i: int| relu_value(x[i], zero))
}

} // verus!
