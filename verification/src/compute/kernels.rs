//! The numeric kernels shared by the layers and the computation graph.
//!
//! Buffers are row-major: a batch of `n` rows of `f` features stores feature
//! `j` of row `b` at `b * f + j`; a `[n, c, h, w]` image batch stores pixel
//! `(b, c, y, x)` at `b * c_total * h * w + c * h * w + y * w + x`.
use vstd::prelude::*;
use vstd::std_specs::ops::AddSpec;
use vstd::std_specs::ops::MulSpec;
use vstd::std_specs::cmp::PartialOrdIs;
use crate::compute::scalar::{Scalar, arith_total, exact_arith, exact_order};
use crate::compute::index::{lemma_offset_in_grid, lemma_offset_lex, lemma_mul_mono, lemma_mul_ge_factor, lemma_offset_injective};

verus! {

// ---------------------------------------------------------------- ReLU

/// `max(v, zero)` as the ReLU computes it: `v` is replaced when `v < zero`.
pub open spec fn relu_value<T: Scalar>(v: T, zero: T) -> T {
    if v.is_lt(&zero) { zero } else { v }
}

/// Gradient of the ReLU at input `x`: `g` passes where `x > zero`, else `zero`.
pub open spec fn relu_grad_value<T: Scalar>(x: T, g: T, zero: T) -> T {
    if x.is_le(&zero) { zero } else { g }
}

/// Element-wise ReLU.
pub fn relu_forward<T: Scalar>(input: &Vec<T>, zero: T) -> (out: Vec<T>)
    ensures
        out.len() == input.len(),
        forall|i: int| 0 <= i < input.len() ==> #[trigger] out@[i] == input@[i] || out@[i] == zero,
        exact_order::<T>() ==> forall|i: int|
            0 <= i < input.len() ==> #[trigger] out@[i] == relu_value(input@[i], zero),
{
    let mut out: Vec<T> = Vec::with_capacity(input.len());
    let mut i: usize = 0;
    while i < input.len()
        invariant
            i <= input.len(),
            out.len() == i,
            forall|k: int| 0 <= k < i ==> #[trigger] out@[k] == input@[k] || out@[k] == zero,
            exact_order::<T>() ==> forall|k: int|
                0 <= k < i ==> #[trigger] out@[k] == relu_value(input@[k], zero),
        decreases input.len() - i,
    {
        let v = input[i];
        if v < zero {
            out.push(zero);
        } else {
            out.push(v);
        }
        i = i + 1;
    }
    out
}

/// Gradient of the element-wise ReLU with respect to its input.
pub fn relu_backward<T: Scalar>(input: &Vec<T>, grad_output: &Vec<T>, zero: T) -> (out: Vec<T>)
    requires
        grad_output.len() <= input.len(),
    ensures
        out.len() == grad_output.len(),
        forall|i: int|
            0 <= i < grad_output.len() ==> #[trigger] out@[i] == grad_output@[i] || out@[i] == zero,
        exact_order::<T>() ==> forall|i: int|
            0 <= i < grad_output.len() ==> #[trigger] out@[i] == relu_grad_value(
                input@[i],
                grad_output@[i],
                zero,
            ),
{
    let mut out: Vec<T> = Vec::with_capacity(grad_output.len());
    let mut i: usize = 0;
    while i < grad_output.len()
        invariant
            i <= grad_output.len(),
            grad_output.len() <= input.len(),
            out.len() == i,
            forall|k: int| 0 <= k < i ==> #[trigger] out@[k] == grad_output@[k] || out@[k] == zero,
            exact_order::<T>() ==> forall|k: int|
                0 <= k < i ==> #[trigger] out@[k] == relu_grad_value(
                    input@[k],
                    grad_output@[k],
                    zero,
                ),
        decreases grad_output.len() - i,
    {
        if input[i] <= zero {
            out.push(zero);
        } else {
            out.push(grad_output[i]);
        }
        i = i + 1;
    }
    out
}

// ---------------------------------------------------------------- fully connected

/// Running sum `bias[o] + Σ_{j < m} w[o * in_f + j] * x[row * in_f + j]`, accumulated left to right.
pub open spec fn linear_acc<T: Scalar>(
    x: Seq<T>,
    w: Seq<T>,
    b: Seq<T>,
    in_f: int,
    row: int,
    o: int,
    m: nat,
) -> T
    decreases m,
{
    if m == 0 {
        b[o]
    } else {
        linear_acc(x, w, b, in_f, row, o, (m - 1) as nat).add_spec(
            w[o * in_f + (m - 1)].mul_spec(x[row * in_f + (m - 1)]),
        )
    }
}

/// Output `o` of the fully connected layer for batch row `row`.
pub open spec fn linear_value<T: Scalar>(
    x: Seq<T>,
    w: Seq<T>,
    b: Seq<T>,
    in_f: int,
    row: int,
    o: int,
) -> T {
    linear_acc(x, w, b, in_f, row, o, in_f as nat)
}

/// `out[row * out_f + o] = bias[o] + Σ_j w[o * in_f + j] * x[row * in_f + j]`.
pub fn linear_forward<T: Scalar>(
    x: &Vec<T>,
    w: &Vec<T>,
    b: &Vec<T>,
    n: usize,
    in_f: usize,
    out_f: usize,
) -> (out: Vec<T>)
    requires
        arith_total::<T>(),
        x.len() == n * in_f,
        w.len() == out_f * in_f,
        b.len() >= out_f,
        n * out_f <= usize::MAX,
    ensures
        out.len() == n * out_f,
        exact_arith::<T>() ==> forall|row: int, o: int|
            0 <= row < n && 0 <= o < out_f ==> out@[row * out_f + o] == #[trigger] linear_value(
                x@,
                w@,
                b@,
                in_f as int,
                row,
                o,
            ),
{
    let mut out: Vec<T> = Vec::with_capacity(n * out_f);
    let mut row: usize = 0;
    while row < n
        invariant
            row <= n,
            arith_total::<T>(),
            x.len() == n * in_f,
            w.len() == out_f * in_f,
            b.len() >= out_f,
            n * out_f <= usize::MAX,
            out.len() == row * out_f,
            exact_arith::<T>() ==> forall|r: int, o: int|
                0 <= r < row && 0 <= o < out_f ==> out@[r * out_f + o] == #[trigger] linear_value(
                    x@,
                    w@,
                    b@,
                    in_f as int,
                    r,
                    o,
                ),
        decreases n - row,
    {
        let mut o: usize = 0;
        while o < out_f
            invariant
                row < n,
                o <= out_f,
                arith_total::<T>(),
                x.len() == n * in_f,
                w.len() == out_f * in_f,
                b.len() >= out_f,
                n * out_f <= usize::MAX,
                out.len() == row * out_f + o,
                exact_arith::<T>() ==> forall|r: int, q: int|
                    0 <= r < n && 0 <= q < out_f && (r < row || (r == row && q < o))
                        ==> out@[r * out_f + q] == #[trigger] linear_value(
                        x@,
                        w@,
                        b@,
                        in_f as int,
                        r,
                        q,
                    ),
            decreases out_f - o,
        {
            let mut sum = b[o];
            let mut j: usize = 0;
            while j < in_f
                invariant
                    row < n,
                    o < out_f,
                    j <= in_f,
                    arith_total::<T>(),
                    x.len() == n * in_f,
                    w.len() == out_f * in_f,
                    exact_arith::<T>() ==> sum == linear_acc(
                        x@,
                        w@,
                        b@,
                        in_f as int,
                        row as int,
                        o as int,
                        j as nat,
                    ),
                decreases in_f - j,
            {
                proof {
                    lemma_offset_in_grid(o as int, j as int, out_f as int, in_f as int);
                    lemma_offset_in_grid(row as int, j as int, n as int, in_f as int);
                }
                let p = w[o * in_f + j] * x[row * in_f + j];
                sum = sum + p;
                j = j + 1;
            }
            proof {
                lemma_offset_in_grid(row as int, o as int, n as int, out_f as int);
            }
            let ghost before = out@;
            out.push(sum);
            proof {
                assert forall|r: int, q: int|
                    0 <= r < n && 0 <= q < out_f && (r < row || (r == row && q < o + 1))
                        && exact_arith::<T>() implies out@[r * out_f + q] == #[trigger] linear_value(
                    x@,
                    w@,
                    b@,
                    in_f as int,
                    r,
                    q,
                ) by {
                    if r < row || (r == row && q < o) {
                        lemma_offset_lex(r, q, row as int, o as int, out_f as int);
                        assert(out@[r * out_f + q] == before[r * out_f + q]);
                    }
                }
            }
            o = o + 1;
        }
        row = row + 1;
        proof {
            assert(out.len() == (row - 1) * out_f + out_f);
            assert((row - 1) * out_f + out_f == row * out_f) by (nonlinear_arith);
        }
    }
    out
}


// ---------------------------------------------------------------- 2x2 max pooling

/// One comparison of the pooling scan: a strictly greater candidate replaces the best so far.
pub open spec fn pool_step<T: Scalar>(best: (T, usize), x: Seq<T>, idx: int) -> (T, usize) {
    if x[idx].is_gt(&best.0) {
        (x[idx], idx as usize)
    } else {
        best
    }
}

/// Offset in the input of the top-left corner of pooling window `(i, j)` of plane `p`.
pub open spec fn pool_base(h: int, w: int, p: int, i: int, j: int) -> int {
    p * (h * w) + (2 * i) * w + 2 * j
}

/// Best value and its input offset in window `(i, j)` of plane `p`, scanning the window row by
/// row from the starting value `lowest` at offset 0.
pub open spec fn pool_cell<T: Scalar>(x: Seq<T>, h: int, w: int, lowest: T, p: int, i: int, j: int) -> (
    T,
    usize,
) {
    let base = pool_base(h, w, p, i, j);
    pool_step(pool_step(pool_step(pool_step((lowest, 0usize), x, base), x, base + 1), x, base + w), x, base + w + 1)
}

/// The pooling result lies in window `(i, j)` of plane `p`, or is the starting value at offset 0.
pub open spec fn pool_cell_in_window<T: Scalar>(
    x: Seq<T>,
    h: int,
    w: int,
    lowest: T,
    p: int,
    i: int,
    j: int,
    v: T,
    idx: usize,
) -> bool {
    let base = pool_base(h, w, p, i, j);
    ||| (v == lowest && idx == 0)
    ||| ((idx == base || idx == base + 1 || idx == base + w || idx == base + w + 1) && v == x[idx as int])
}

proof fn lemma_pool_window_bounds(h: int, w: int, planes: int, p: int, i: int, j: int)
    requires
        0 <= p < planes,
        0 <= i < h / 2,
        0 <= j < w / 2,
        0 <= h,
        0 <= w,
    ensures
        0 <= pool_base(h, w, p, i, j),
        pool_base(h, w, p, i, j) + w + 1 < planes * (h * w),
{
    let hw = h * w;
    assert(2 * i + 1 < h);
    assert(2 * j + 1 < w);
    lemma_offset_in_grid(2 * i + 1, 2 * j + 1, h, w);
    lemma_offset_in_grid(p, (2 * i + 1) * w + 2 * j + 1, planes, hw);
    assert((2 * i) * w + w == (2 * i + 1) * w) by (nonlinear_arith);
    assert(0 <= (2 * i) * w) by (nonlinear_arith)
        requires
            0 <= i,
            0 <= w,
    ;
}

/// Offset of output cell `(p, i, j)` in the pooled buffer.
pub open spec fn grid3(rows: int, cols: int, p: int, i: int, j: int) -> int {
    p * (rows * cols) + (i * cols + j)
}

proof fn lemma_grid3_bounds(planes: int, rows: int, cols: int, p: int, i: int, j: int)
    requires
        0 <= p < planes,
        0 <= i < rows,
        0 <= j < cols,
    ensures
        0 <= grid3(rows, cols, p, i, j) < planes * (rows * cols),
{
    lemma_offset_in_grid(i, j, rows, cols);
    lemma_offset_in_grid(p, i * cols + j, planes, rows * cols);
}

proof fn lemma_grid3_lex(rows: int, cols: int, p: int, i: int, j: int, pb: int, ib: int, jb: int)
    requires
        0 <= p,
        0 <= i < rows,
        0 <= j < cols,
        0 <= ib < rows,
        0 <= jb <= cols,
        p < pb || (p == pb && (i < ib || (i == ib && j < jb))),
    ensures
        grid3(rows, cols, p, i, j) < grid3(rows, cols, pb, ib, jb),
{
    lemma_offset_in_grid(i, j, rows, cols);
    if p < pb {
        assert(0 <= ib * cols + jb <= rows * cols) by (nonlinear_arith)
            requires
                0 <= ib < rows,
                0 <= jb <= cols,
        ;
        lemma_offset_lex(p, i * cols + j, pb, ib * cols + jb, rows * cols);
    } else {
        lemma_offset_lex(i, j, ib, jb, cols);
    }
}

/// 2x2 max pooling with stride 2 over `planes` planes of `h x w` pixels.
///
/// Returns the pooled values and, for each of them, the input offset it was taken from.
pub fn maxpool_forward<T: Scalar>(x: &Vec<T>, planes: usize, h: usize, w: usize, lowest: T) -> (res: (
    Vec<T>,
    Vec<usize>,
))
    requires
        x.len() == planes * (h * w),
    ensures
        res.0.len() == planes * ((h / 2) * (w / 2)),
        res.1.len() == res.0.len(),
        forall|p: int, i: int, j: int|
            0 <= p < planes && 0 <= i < h / 2 && 0 <= j < w / 2 ==> #[trigger] pool_cell_in_window(
                x@,
                h as int,
                w as int,
                lowest,
                p,
                i,
                j,
                res.0@[grid3((h / 2) as int, (w / 2) as int, p, i, j)],
                res.1@[grid3((h / 2) as int, (w / 2) as int, p, i, j)],
            ),
        exact_order::<T>() ==> forall|p: int, i: int, j: int|
            0 <= p < planes && 0 <= i < h / 2 && 0 <= j < w / 2 ==> (res.0@[grid3(
                (h / 2) as int,
                (w / 2) as int,
                p,
                i,
                j,
            )], res.1@[grid3((h / 2) as int, (w / 2) as int, p, i, j)]) == #[trigger] pool_cell(
                x@,
                h as int,
                w as int,
                lowest,
                p,
                i,
                j,
            ),
        forall|o: int| 0 <= o < res.1.len() ==> #[trigger] res.1@[o] < x.len(),
{
    let h_out = h / 2;
    let w_out = w / 2;
    let ghost hw_out = h_out * w_out;
    proof {
        lemma_mul_mono(h_out as int, h as int, w_out as int);
        lemma_mul_mono(w_out as int, w as int, h as int);
        lemma_mul_mono((h_out * w_out) as int, (h * w) as int, planes as int);
    }
    let mut out: Vec<T> = Vec::new();
    let mut arg: Vec<usize> = Vec::new();
    let mut p: usize = 0;
    while p < planes
        invariant
            p <= planes,
            h_out == h / 2,
            w_out == w / 2,
            hw_out == h_out * w_out,
            x.len() == planes * (h * w),
            planes * hw_out <= x.len(),
            out.len() == p * hw_out,
            arg.len() == out.len(),
            forall|o: int| 0 <= o < arg.len() ==> #[trigger] arg@[o] < x.len(),
            forall|pp: int, ii: int, jj: int|
                0 <= pp < p && 0 <= ii < h_out && 0 <= jj < w_out ==> #[trigger] pool_cell_in_window(
                    x@,
                    h as int,
                    w as int,
                    lowest,
                    pp,
                    ii,
                    jj,
                    out@[grid3(h_out as int, w_out as int, pp, ii, jj)],
                    arg@[grid3(h_out as int, w_out as int, pp, ii, jj)],
                ),
            exact_order::<T>() ==> forall|pp: int, ii: int, jj: int|
                0 <= pp < p && 0 <= ii < h_out && 0 <= jj < w_out ==> (out@[grid3(
                    h_out as int,
                    w_out as int,
                    pp,
                    ii,
                    jj,
                )], arg@[grid3(h_out as int, w_out as int, pp, ii, jj)]) == #[trigger] pool_cell(
                    x@,
                    h as int,
                    w as int,
                    lowest,
                    pp,
                    ii,
                    jj,
                ),
        decreases planes - p,
    {
        let mut i: usize = 0;
        while i < h_out
            invariant
                p < planes,
                i <= h_out,
                h_out == h / 2,
                w_out == w / 2,
                hw_out == h_out * w_out,
                x.len() == planes * (h * w),
                planes * hw_out <= x.len(),
                out.len() == p * hw_out + i * w_out,
                arg.len() == out.len(),
                forall|o: int| 0 <= o < arg.len() ==> #[trigger] arg@[o] < x.len(),
                forall|pp: int, ii: int, jj: int|
                    0 <= pp < planes && 0 <= ii < h_out && 0 <= jj < w_out && (pp < p || (pp == p
                        && ii < i)) ==> #[trigger] pool_cell_in_window(
                        x@,
                        h as int,
                        w as int,
                        lowest,
                        pp,
                        ii,
                        jj,
                        out@[grid3(h_out as int, w_out as int, pp, ii, jj)],
                        arg@[grid3(h_out as int, w_out as int, pp, ii, jj)],
                    ),
                exact_order::<T>() ==> forall|pp: int, ii: int, jj: int|
                    0 <= pp < planes && 0 <= ii < h_out && 0 <= jj < w_out && (pp < p || (pp == p
                        && ii < i)) ==> (out@[grid3(
                        h_out as int,
                        w_out as int,
                        pp,
                        ii,
                        jj,
                    )], arg@[grid3(h_out as int, w_out as int, pp, ii, jj)]) == #[trigger] pool_cell(
                        x@,
                        h as int,
                        w as int,
                        lowest,
                        pp,
                        ii,
                        jj,
                    ),
            decreases h_out - i,
        {
            let mut j: usize = 0;
            while j < w_out
                invariant
                    p < planes,
                    i < h_out,
                    j <= w_out,
                    h_out == h / 2,
                    w_out == w / 2,
                    hw_out == h_out * w_out,
                    x.len() == planes * (h * w),
                    planes * hw_out <= x.len(),
                    out.len() == p * hw_out + i * w_out + j,
                    arg.len() == out.len(),
                    forall|o: int| 0 <= o < arg.len() ==> #[trigger] arg@[o] < x.len(),
                    forall|pp: int, ii: int, jj: int|
                        0 <= pp < planes && 0 <= ii < h_out && 0 <= jj < w_out && (pp < p || (pp
                            == p && (ii < i || (ii == i && jj < j)))) ==> #[trigger] pool_cell_in_window(
                            x@,
                            h as int,
                            w as int,
                            lowest,
                            pp,
                            ii,
                            jj,
                            out@[grid3(h_out as int, w_out as int, pp, ii, jj)],
                            arg@[grid3(h_out as int, w_out as int, pp, ii, jj)],
                        ),
                    exact_order::<T>() ==> forall|pp: int, ii: int, jj: int|
                        0 <= pp < planes && 0 <= ii < h_out && 0 <= jj < w_out && (pp < p || (pp
                            == p && (ii < i || (ii == i && jj < j)))) ==> (out@[grid3(
                            h_out as int,
                            w_out as int,
                            pp,
                            ii,
                            jj,
                        )], arg@[grid3(h_out as int, w_out as int, pp, ii, jj)])
                            == #[trigger] pool_cell(x@, h as int, w as int, lowest, pp, ii, jj),
                decreases w_out - j,
            {
                proof {
                    lemma_pool_window_bounds(h as int, w as int, planes as int, p as int, i as int, j as int);
                    lemma_mul_ge_factor((h * w) as int, planes as int);
                    assert((h * w) * planes == planes * (h * w)) by (nonlinear_arith);
                    assert(0 <= p * (h * w)) by (nonlinear_arith)
                        requires
                            0 <= p,
                            0 <= h * w,
                    ;
                    assert(0 <= (2 * i) * w) by (nonlinear_arith)
                        requires
                            0 <= i,
                            0 <= w,
                    ;
                }
                let base = p * (h * w) + (2 * i) * w + 2 * j;
                let mut best_val = lowest;
                let mut best_idx: usize = 0;
                if x[base] > best_val {
                    best_val = x[base];
                    best_idx = base;
                }
                if x[base + 1] > best_val {
                    best_val = x[base + 1];
                    best_idx = base + 1;
                }
                if x[base + w] > best_val {
                    best_val = x[base + w];
                    best_idx = base + w;
                }
                if x[base + w + 1] > best_val {
                    best_val = x[base + w + 1];
                    best_idx = base + w + 1;
                }
                let ghost before_out = out@;
                let ghost before_arg = arg@;
                proof {
                    lemma_grid3_bounds(planes as int, h_out as int, w_out as int, p as int, i as int, j as int);
                    assert(grid3(h_out as int, w_out as int, p as int, i as int, j as int) == out.len()) by (nonlinear_arith)
                        requires
                            out.len() == p * hw_out + i * w_out + j,
                            hw_out == h_out * w_out,
                    ;
                }
                out.push(best_val);
                arg.push(best_idx);
                proof {
                    assert(pool_cell_in_window(x@, h as int, w as int, lowest, p as int, i as int, j as int, best_val, best_idx));
                    assert forall|pp: int, ii: int, jj: int|
                        0 <= pp < planes && 0 <= ii < h_out && 0 <= jj < w_out && (pp < p || (pp
                            == p && (ii < i || (ii == i && jj < j + 1)))) implies #[trigger] pool_cell_in_window(
                            x@,
                            h as int,
                            w as int,
                            lowest,
                            pp,
                            ii,
                            jj,
                            out@[grid3(h_out as int, w_out as int, pp, ii, jj)],
                            arg@[grid3(h_out as int, w_out as int, pp, ii, jj)],
                        ) by {
                        if pp < p || (pp == p && (ii < i || (ii == i && jj < j))) {
                            lemma_grid3_lex(h_out as int, w_out as int, pp, ii, jj, p as int, i as int, j as int);
                        }
                    }
                    if exact_order::<T>() {
                        assert forall|pp: int, ii: int, jj: int|
                            0 <= pp < planes && 0 <= ii < h_out && 0 <= jj < w_out && (pp < p || (pp
                                == p && (ii < i || (ii == i && jj < j + 1)))) implies (out@[grid3(
                                h_out as int,
                                w_out as int,
                                pp,
                                ii,
                                jj,
                            )], arg@[grid3(h_out as int, w_out as int, pp, ii, jj)])
                                == #[trigger] pool_cell(x@, h as int, w as int, lowest, pp, ii, jj) by {
                            if pp < p || (pp == p && (ii < i || (ii == i && jj < j))) {
                                lemma_grid3_lex(h_out as int, w_out as int, pp, ii, jj, p as int, i as int, j as int);
                            }
                        }
                    }
                }
                j = j + 1;
            }
            i = i + 1;
            proof {
                assert(p * hw_out + (i - 1) * w_out + w_out == p * hw_out + i * w_out) by (nonlinear_arith);
            }
        }
        p = p + 1;
        proof {
            assert(out.len() == (p - 1) * hw_out + hw_out) by (nonlinear_arith)
                requires
                    out.len() == (p - 1) * hw_out + h_out * w_out,
                    hw_out == h_out * w_out,
            ;
            assert((p - 1) * hw_out + hw_out == p * hw_out) by (nonlinear_arith);
        }
    }
    (out, arg)
}


// ---------------------------------------------------------------- scatter-add

/// `acc` after adding `g[o]` into position `idx[o]` for each `o < m`, in order.
pub open spec fn scatter_add<T: Scalar>(acc: Seq<T>, idx: Seq<usize>, g: Seq<T>, m: nat) -> Seq<T>
    decreases m,
{
    if m == 0 {
        acc
    } else {
        let prev = scatter_add(acc, idx, g, (m - 1) as nat);
        let k = idx[m - 1] as int;
        prev.update(k, prev[k].add_spec(g[m - 1]))
    }
}

/// Routes each output gradient back to the input offset recorded for it, summing where
/// several outputs share an input.
pub fn scatter_add_into_zeros<T: Scalar>(
    input_len: usize,
    idx: &Vec<usize>,
    grad_output: &Vec<T>,
    zero: T,
) -> (out: Vec<T>)
    requires
        arith_total::<T>(),
        idx.len() <= grad_output.len(),
        forall|o: int| 0 <= o < idx.len() ==> #[trigger] idx@[o] < input_len,
    ensures
        out.len() == input_len,
        forall|k: int|
            0 <= k < input_len && !idx@.contains(k as usize) ==> #[trigger] out@[k] == zero,
        exact_arith::<T>() ==> out@ == scatter_add(
            Seq::new(input_len as nat, |_i: int| zero),
            idx@,
            grad_output@,
            idx.len() as nat,
        ),
{
    let mut out = crate::compute::tensor::filled_vec(zero, input_len);
    let ghost init = out@;
    let mut o: usize = 0;
    while o < idx.len()
        invariant
            o <= idx.len(),
            arith_total::<T>(),
            idx.len() <= grad_output.len(),
            forall|q: int| 0 <= q < idx.len() ==> #[trigger] idx@[q] < input_len,
            init == Seq::new(input_len as nat, |_i: int| zero),
            out.len() == input_len,
            forall|k: int|
                0 <= k < input_len && !idx@.take(o as int).contains(k as usize) ==> #[trigger] out@[k]
                    == zero,
            exact_arith::<T>() ==> out@ == scatter_add(init, idx@, grad_output@, o as nat),
        decreases idx.len() - o,
    {
        let k = idx[o];
        let v = out[k] + grad_output[o];
        out.set(k, v);
        proof {
            assert forall|kk: int|
                0 <= kk < input_len && !idx@.take(o + 1).contains(kk as usize) implies #[trigger] out@[kk]
                    == zero by {
                assert(idx@.take(o + 1)[o as int] == k);
                if kk != k as int {
                    if idx@.take(o as int).contains(kk as usize) {
                        let w = choose|w: int| 0 <= w < o && idx@.take(o as int)[w] == kk as usize;
                        assert(idx@.take(o + 1)[w] == kk as usize);
                    }
                }
            }
        }
        o = o + 1;
    }
    assert(idx@.take(idx.len() as int) =~= idx@);
    out
}


// ---------------------------------------------------------------- fully connected, backward

/// Element `(r, c)` of a row-major buffer with `cols` columns.
pub open spec fn cell<T>(s: Seq<T>, r: int, c: int, cols: int) -> T {
    s[r * cols + c]
}

/// `zero + Σ_{b < m} g[b * out_f + o]`, accumulated in batch order.
pub open spec fn linear_bias_grad<T: Scalar>(g: Seq<T>, out_f: int, o: int, m: nat, zero: T) -> T
    decreases m,
{
    if m == 0 {
        zero
    } else {
        linear_bias_grad(g, out_f, o, (m - 1) as nat, zero).add_spec(g[(m - 1) * out_f + o])
    }
}

/// `zero + Σ_{b < m} g[b * out_f + o] * x[b * in_f + j]`, accumulated in batch order.
pub open spec fn linear_weight_grad<T: Scalar>(
    x: Seq<T>,
    g: Seq<T>,
    in_f: int,
    out_f: int,
    o: int,
    j: int,
    m: nat,
    zero: T,
) -> T
    decreases m,
{
    if m == 0 {
        zero
    } else {
        linear_weight_grad(x, g, in_f, out_f, o, j, (m - 1) as nat, zero).add_spec(
            g[(m - 1) * out_f + o].mul_spec(x[(m - 1) * in_f + j]),
        )
    }
}

/// `zero + Σ_{o < m} g[b * out_f + o] * w[o * in_f + j]`, accumulated in output order.
pub open spec fn linear_input_grad<T: Scalar>(
    w: Seq<T>,
    g: Seq<T>,
    in_f: int,
    out_f: int,
    b: int,
    j: int,
    m: nat,
    zero: T,
) -> T
    decreases m,
{
    if m == 0 {
        zero
    } else {
        linear_input_grad(w, g, in_f, out_f, b, j, (m - 1) as nat, zero).add_spec(
            g[b * out_f + (m - 1)].mul_spec(w[(m - 1) * in_f + j]),
        )
    }
}

/// Gradient of a fully connected layer with respect to its `[n, in_f]` input, row-major.
pub open spec fn linear_input_grad_seq<T: Scalar>(w: Seq<T>, g: Seq<T>, n: int, in_f: int, out_f: int, zero: T) -> Seq<
    T,
> {
    Seq::new((n * in_f) as nat, |i: int| linear_input_grad(w, g, in_f, out_f, i / in_f, i % in_f, out_f as nat, zero))
}

/// Gradient of a fully connected layer with respect to its `[out_f, in_f]` weights, row-major.
pub open spec fn linear_weight_grad_seq<T: Scalar>(x: Seq<T>, g: Seq<T>, n: int, in_f: int, out_f: int, zero: T) -> Seq<
    T,
> {
    Seq::new((out_f * in_f) as nat, |i: int| linear_weight_grad(x, g, in_f, out_f, i / in_f, i % in_f, n as nat, zero))
}

/// Gradient of a fully connected layer with respect to a bias of `bias_len` entries; those
/// past `out_f` are `zero`.
pub open spec fn linear_bias_grad_seq<T: Scalar>(g: Seq<T>, n: int, out_f: int, bias_len: nat, zero: T) -> Seq<T> {
    Seq::new(bias_len, |o: int| if o < out_f { linear_bias_grad(g, out_f, o, n as nat, zero) } else { zero })
}

/// Where each gradient of a fully connected layer sits in its buffer: the gradient for
/// weight `(o, j)` at offset `o * in_f + j`, that for input `(b, j)` at `b * in_f + j`, and
/// that for bias `o` at `o`. Each is the sum over the other index of the output gradient
/// times the factor that multiplies the parameter in the forward pass.
pub proof fn lemma_linear_grad_entries<T: Scalar>(
    x: Seq<T>,
    w: Seq<T>,
    g: Seq<T>,
    n: int,
    in_f: int,
    out_f: int,
    bias_len: nat,
    zero: T,
    b: int,
    o: int,
    j: int,
)
    requires
        0 <= b < n,
        0 <= o < out_f,
        out_f <= bias_len,
        0 <= j < in_f,
    ensures
        linear_weight_grad_seq(x, g, n, in_f, out_f, zero).len() == out_f * in_f,
        linear_weight_grad_seq(x, g, n, in_f, out_f, zero)[o * in_f + j]
            == linear_weight_grad(x, g, in_f, out_f, o, j, n as nat, zero),
        linear_input_grad_seq(w, g, n, in_f, out_f, zero).len() == n * in_f,
        linear_input_grad_seq(w, g, n, in_f, out_f, zero)[b * in_f + j]
            == linear_input_grad(w, g, in_f, out_f, b, j, out_f as nat, zero),
        linear_bias_grad_seq(g, n, out_f, bias_len, zero)[o] == linear_bias_grad(g, out_f, o, n as nat, zero),
{
    lemma_offset_in_grid(o, j, out_f, in_f);
    lemma_offset_in_grid(b, j, n, in_f);
    vstd::arithmetic::div_mod::lemma_fundamental_div_mod_converse(o * in_f + j, in_f, o, j);
    vstd::arithmetic::div_mod::lemma_fundamental_div_mod_converse(b * in_f + j, in_f, b, j);
    assert(0 <= out_f * in_f) by (nonlinear_arith)
        requires
            0 < out_f,
            0 < in_f,
    ;
    assert(0 <= n * in_f) by (nonlinear_arith)
        requires
            0 < n,
            0 < in_f,
    ;
}

/// A row-major buffer described cell by cell is the sequence of those cells.
pub proof fn lemma_cells_seq<T>(s: Seq<T>, f: spec_fn(int, int) -> T, rows: int, cols: int)
    requires
        0 <= rows,
        0 <= cols,
        s.len() == rows * cols,
        forall|r: int, c: int| 0 <= r < rows && 0 <= c < cols ==> #[trigger] cell(s, r, c, cols) == f(r, c),
    ensures
        s == Seq::new((rows * cols) as nat, |i: int| f(i / cols, i % cols)),
{
    assert forall|i: int| 0 <= i < rows * cols implies #[trigger] s[i] == f(i / cols, i % cols) by {
        if cols == 0 {
            assert(rows * cols == 0) by (nonlinear_arith)
                requires
                    cols == 0,
            ;
        }
        crate::compute::outputs::lemma_grid2_decode(rows, cols, i);
        assert(cell(s, i / cols, i % cols, cols) == f(i / cols, i % cols));
    }
    assert(s =~= Seq::new((rows * cols) as nat, |i: int| f(i / cols, i % cols)));
}

/// Gradients of the fully connected layer: `(d input, d weights, d bias)`.
///
/// The bias gradient has `bias_len` entries; those past `out_f` stay `zero`.
pub fn linear_backward<T: Scalar>(
    x: &Vec<T>,
    w: &Vec<T>,
    grad: &Vec<T>,
    n: usize,
    in_f: usize,
    out_f: usize,
    bias_len: usize,
    zero: T,
) -> (res: (Vec<T>, Vec<T>, Vec<T>))
    requires
        arith_total::<T>(),
        x.len() == n * in_f,
        w.len() == out_f * in_f,
        grad.len() == n * out_f,
        out_f <= bias_len,
    ensures
        res.0.len() == n * in_f,
        res.1.len() == out_f * in_f,
        res.2.len() == bias_len,
        forall|o: int| out_f <= o < bias_len ==> #[trigger] res.2@[o] == zero,
        exact_arith::<T>() ==> {
            &&& forall|b: int, j: int|
                0 <= b < n && 0 <= j < in_f ==> #[trigger] cell(res.0@, b, j, in_f as int)
                    == linear_input_grad(w@, grad@, in_f as int, out_f as int, b, j, out_f as nat, zero)
            &&& forall|o: int, j: int|
                0 <= o < out_f && 0 <= j < in_f ==> #[trigger] cell(res.1@, o, j, in_f as int)
                    == linear_weight_grad(x@, grad@, in_f as int, out_f as int, o, j, n as nat, zero)
            &&& forall|o: int|
                0 <= o < out_f ==> #[trigger] res.2@[o] == linear_bias_grad(
                    grad@,
                    out_f as int,
                    o,
                    n as nat,
                    zero,
                )
        },
{
    let mut gi = crate::compute::tensor::filled_vec(zero, n * in_f);
    let mut gw = crate::compute::tensor::filled_vec(zero, out_f * in_f);
    let mut gb = crate::compute::tensor::filled_vec(zero, bias_len);
    proof {
        assert forall|bb: int, j: int| 0 <= bb < n && 0 <= j < in_f implies #[trigger] cell(gi@, bb, j, in_f as int) == zero by {
            lemma_offset_in_grid(bb, j, n as int, in_f as int);
        }
        assert forall|o: int, j: int| 0 <= o < out_f && 0 <= j < in_f implies #[trigger] cell(gw@, o, j, in_f as int) == zero by {
            lemma_offset_in_grid(o, j, out_f as int, in_f as int);
        }
    }
    let mut b: usize = 0;
    while b < n
        invariant
            b <= n,
            arith_total::<T>(),
            x.len() == n * in_f,
            w.len() == out_f * in_f,
            grad.len() == n * out_f,
            out_f <= bias_len,
            gi.len() == n * in_f,
            gw.len() == out_f * in_f,
            gb.len() == bias_len,
            forall|o: int| out_f <= o < bias_len ==> #[trigger] gb@[o] == zero,
            exact_arith::<T>() ==> {
                &&& forall|bb: int, j: int|
                    0 <= bb < n && 0 <= j < in_f ==> #[trigger] cell(gi@, bb, j, in_f as int)
                        == linear_input_grad(
                        w@,
                        grad@,
                        in_f as int,
                        out_f as int,
                        bb,
                        j,
                        if bb < b { out_f as nat } else { 0 },
                        zero,
                    )
                &&& forall|o: int, j: int|
                    0 <= o < out_f && 0 <= j < in_f ==> #[trigger] cell(gw@, o, j, in_f as int)
                        == linear_weight_grad(x@, grad@, in_f as int, out_f as int, o, j, b as nat, zero)
                &&& forall|o: int|
                    0 <= o < out_f ==> #[trigger] gb@[o] == linear_bias_grad(
                        grad@,
                        out_f as int,
                        o,
                        b as nat,
                        zero,
                    )
            },
        decreases n - b,
    {
        let mut o: usize = 0;
        while o < out_f
            invariant
                b < n,
                o <= out_f,
                arith_total::<T>(),
                x.len() == n * in_f,
                w.len() == out_f * in_f,
                grad.len() == n * out_f,
                out_f <= bias_len,
                gi.len() == n * in_f,
                gw.len() == out_f * in_f,
                gb.len() == bias_len,
                forall|q: int| out_f <= q < bias_len ==> #[trigger] gb@[q] == zero,
                exact_arith::<T>() ==> {
                    &&& forall|bb: int, j: int|
                        0 <= bb < n && 0 <= j < in_f ==> #[trigger] cell(gi@, bb, j, in_f as int)
                            == linear_input_grad(
                            w@,
                            grad@,
                            in_f as int,
                            out_f as int,
                            bb,
                            j,
                            if bb < b { out_f as nat } else if bb == b { o as nat } else { 0 },
                            zero,
                        )
                    &&& forall|q: int, j: int|
                        0 <= q < out_f && 0 <= j < in_f ==> #[trigger] cell(gw@, q, j, in_f as int)
                            == linear_weight_grad(
                            x@,
                            grad@,
                            in_f as int,
                            out_f as int,
                            q,
                            j,
                            if q < o { (b + 1) as nat } else { b as nat },
                            zero,
                        )
                    &&& forall|q: int|
                        0 <= q < out_f ==> #[trigger] gb@[q] == linear_bias_grad(
                            grad@,
                            out_f as int,
                            q,
                            if q < o { (b + 1) as nat } else { b as nat },
                            zero,
                        )
                },
            decreases out_f - o,
        {
            proof {
                lemma_offset_in_grid(b as int, o as int, n as int, out_f as int);
            }
            let g = grad[b * out_f + o];
            let bv = gb[o] + g;
            gb.set(o, bv);
            let mut j: usize = 0;
            while j < in_f
                invariant
                    b < n,
                    o < out_f,
                    j <= in_f,
                    arith_total::<T>(),
                    x.len() == n * in_f,
                    w.len() == out_f * in_f,
                    grad.len() == n * out_f,
                    g == grad@[b * out_f + o],
                    gi.len() == n * in_f,
                    gw.len() == out_f * in_f,
                    exact_arith::<T>() ==> {
                        &&& forall|bb: int, jj: int|
                            0 <= bb < n && 0 <= jj < in_f ==> #[trigger] cell(gi@, bb, jj, in_f as int)
                                == linear_input_grad(
                                w@,
                                grad@,
                                in_f as int,
                                out_f as int,
                                bb,
                                jj,
                                if bb < b {
                                    out_f as nat
                                } else if bb == b {
                                    if jj < j { (o + 1) as nat } else { o as nat }
                                } else {
                                    0
                                },
                                zero,
                            )
                        &&& forall|q: int, jj: int|
                            0 <= q < out_f && 0 <= jj < in_f ==> #[trigger] cell(gw@, q, jj, in_f as int)
                                == linear_weight_grad(
                                x@,
                                grad@,
                                in_f as int,
                                out_f as int,
                                q,
                                jj,
                                if q < o || (q == o && jj < j) { (b + 1) as nat } else { b as nat },
                                zero,
                            )
                    },
                decreases in_f - j,
            {
                proof {
                    lemma_offset_in_grid(o as int, j as int, out_f as int, in_f as int);
                    lemma_offset_in_grid(b as int, j as int, n as int, in_f as int);
                }
                let kw = o * in_f + j;
                let ki = b * in_f + j;
                let wv = gw[kw] + g * x[ki];
                let iv = gi[ki] + g * w[kw];
                let ghost gw0 = gw@;
                let ghost gi0 = gi@;
                gw.set(kw, wv);
                gi.set(ki, iv);
                proof {
                    if exact_arith::<T>() {
                        assert forall|bb: int, jj: int|
                            0 <= bb < n && 0 <= jj < in_f implies #[trigger] cell(gi@, bb, jj, in_f as int)
                                == linear_input_grad(
                                w@,
                                grad@,
                                in_f as int,
                                out_f as int,
                                bb,
                                jj,
                                if bb < b {
                                    out_f as nat
                                } else if bb == b {
                                    if jj < j + 1 { (o + 1) as nat } else { o as nat }
                                } else {
                                    0
                                },
                                zero,
                            ) by {
                            lemma_offset_in_grid(bb, jj, n as int, in_f as int);
                            if bb * in_f + jj == ki {
                                lemma_offset_injective(bb, jj, b as int, j as int, in_f as int);
                                assert(cell(gi0, bb, jj, in_f as int) == gi0[ki as int]);
                            } else {
                                assert(cell(gi0, bb, jj, in_f as int) == cell(gi@, bb, jj, in_f as int));
                                if bb == b && jj == j {
                                    assert(false);
                                }
                            }
                        }
                        assert forall|q: int, jj: int|
                            0 <= q < out_f && 0 <= jj < in_f implies #[trigger] cell(gw@, q, jj, in_f as int)
                                == linear_weight_grad(
                                x@,
                                grad@,
                                in_f as int,
                                out_f as int,
                                q,
                                jj,
                                if q < o || (q == o && jj < j + 1) { (b + 1) as nat } else { b as nat },
                                zero,
                            ) by {
                            lemma_offset_in_grid(q, jj, out_f as int, in_f as int);
                            if q * in_f + jj == kw {
                                lemma_offset_injective(q, jj, o as int, j as int, in_f as int);
                                assert(cell(gw0, q, jj, in_f as int) == gw0[kw as int]);
                            } else {
                                assert(cell(gw0, q, jj, in_f as int) == cell(gw@, q, jj, in_f as int));
                                if q == o && jj == j {
                                    assert(false);
                                }
                            }
                        }
                    }
                }
                j = j + 1;
            }
            o = o + 1;
        }
        b = b + 1;
    }
    (gi, gw, gb)
}


// ---------------------------------------------------------------- 2-D convolution

/// Dimensions of a batched, zero-padded, stride-1 2-D convolution.
#[derive(Clone, Copy, Debug)]
pub struct ConvShape {
    pub n: usize,
    pub c_in: usize,
    pub h: usize,
    pub w: usize,
    pub c_out: usize,
    pub h_out: usize,
    pub w_out: usize,
    pub kernel: usize,
    pub padding: usize,
}

impl ConvShape {
    /// Output extents follow from the input extents, kernel and padding, and every buffer
    /// length fits in `usize`.
    pub open spec fn wf(self) -> bool {
        &&& self.h_out == self.h + 2 * self.padding - self.kernel + 1
        &&& self.w_out == self.w + 2 * self.padding - self.kernel + 1
        &&& self.kernel <= self.h + 2 * self.padding
        &&& self.kernel <= self.w + 2 * self.padding
        &&& self.h + 2 * self.padding <= usize::MAX
        &&& self.w + 2 * self.padding <= usize::MAX
        &&& self.n * self.c_in <= usize::MAX
        &&& self.n * self.c_out <= usize::MAX
        &&& self.n * self.c_out * self.h_out <= usize::MAX
        &&& self.c_out * self.c_in <= usize::MAX
        &&& self.spec_input_len() <= usize::MAX
        &&& self.spec_output_len() <= usize::MAX
        &&& self.spec_weight_len() <= usize::MAX
    }

    pub open spec fn spec_input_len(self) -> int {
        (self.n * self.c_in) * (self.h * self.w)
    }

    pub open spec fn spec_output_len(self) -> int {
        (self.n * self.c_out) * (self.h_out * self.w_out)
    }

    pub open spec fn spec_weight_len(self) -> int {
        (self.c_out * self.c_in) * (self.kernel * self.kernel)
    }

    /// Number of output elements.
    pub fn output_len(self) -> (r: usize)
        requires
            self.wf(),
        ensures
            r == self.spec_output_len(),
    {
        proof {
            lemma_product_parts_fit(self.n * self.c_out, self.h_out * self.w_out);
        }
        if self.n * self.c_out == 0 {
            return 0;
        }
        (self.n * self.c_out) * (self.h_out * self.w_out)
    }

    /// Number of kernel weights.
    pub fn weight_len(self) -> (r: usize)
        requires
            self.wf(),
        ensures
            r == self.spec_weight_len(),
    {
        proof {
            lemma_product_parts_fit(self.c_out * self.c_in, self.kernel * self.kernel);
        }
        if self.c_out * self.c_in == 0 {
            return 0;
        }
        (self.c_out * self.c_in) * (self.kernel * self.kernel)
    }
}

/// When a product of two non-negative factors fits, the second factor fits as soon as the
/// first is non-zero.
pub proof fn lemma_product_parts_fit(a: int, b: int)
    requires
        0 <= a,
        0 <= b,
    ensures
        a >= 1 ==> b <= a * b,
{
    if a >= 1 {
        assert(b <= a * b) by (nonlinear_arith)
            requires
                a >= 1,
                0 <= b,
        ;
    }
}

/// Whether kernel tap `(ki, kj)` of output pixel `(i, j)` falls inside the unpadded input.
pub open spec fn conv_tap_inside(s: ConvShape, i: int, j: int, ki: int, kj: int) -> bool {
    &&& s.padding <= i + ki < s.h + s.padding
    &&& s.padding <= j + kj < s.w + s.padding
}

/// Input offset read by tap `(ci, ki, kj)` of output pixel `(i, j)` in batch item `b`.
pub open spec fn conv_input_offset(s: ConvShape, b: int, ci: int, i: int, j: int, ki: int, kj: int) -> int {
    (b * s.c_in + ci) * (s.h * s.w) + (i + ki - s.padding) * s.w + (j + kj - s.padding)
}

/// Offset of kernel weight `(co, ci, ki, kj)`.
pub open spec fn conv_weight_offset(s: ConvShape, co: int, ci: int, ki: int, kj: int) -> int {
    (co * s.c_in + ci) * (s.kernel * s.kernel) + ki * s.kernel + kj
}

/// Offset of output pixel `(i, j)` of channel `co` in batch item `b`.
pub open spec fn conv_output_offset(s: ConvShape, b: int, co: int, i: int, j: int) -> int {
    grid3(s.h_out as int, s.w_out as int, b * s.c_out + co, i, j)
}

/// One tap of the convolution sum: taps that fall into the padding contribute nothing.
pub open spec fn conv_tap<T: Scalar>(
    x: Seq<T>,
    wt: Seq<T>,
    s: ConvShape,
    b: int,
    co: int,
    i: int,
    j: int,
    ci: int,
    ki: int,
    kj: int,
    acc: T,
) -> T {
    if conv_tap_inside(s, i, j, ki, kj) {
        acc.add_spec(
            x[conv_input_offset(s, b, ci, i, j, ki, kj)].mul_spec(
                wt[conv_weight_offset(s, co, ci, ki, kj)],
            ),
        )
    } else {
        acc
    }
}

/// Taps `kj < m` of kernel row `ki`, input channel `ci`, added to `start`.
pub open spec fn conv_row_acc<T: Scalar>(
    x: Seq<T>,
    wt: Seq<T>,
    s: ConvShape,
    b: int,
    co: int,
    i: int,
    j: int,
    ci: int,
    ki: int,
    m: nat,
    start: T,
) -> T
    decreases m,
{
    if m == 0 {
        start
    } else {
        conv_tap(
            x,
            wt,
            s,
            b,
            co,
            i,
            j,
            ci,
            ki,
            m - 1,
            conv_row_acc(x, wt, s, b, co, i, j, ci, ki, (m - 1) as nat, start),
        )
    }
}

/// Kernel rows `ki < m` of input channel `ci`, added to `start`.
pub open spec fn conv_channel_acc<T: Scalar>(
    x: Seq<T>,
    wt: Seq<T>,
    s: ConvShape,
    b: int,
    co: int,
    i: int,
    j: int,
    ci: int,
    m: nat,
    start: T,
) -> T
    decreases m,
{
    if m == 0 {
        start
    } else {
        conv_row_acc(
            x,
            wt,
            s,
            b,
            co,
            i,
            j,
            ci,
            m - 1,
            s.kernel as nat,
            conv_channel_acc(x, wt, s, b, co, i, j, ci, (m - 1) as nat, start),
        )
    }
}

/// Bias plus input channels `ci < m` of output pixel `(b, co, i, j)`.
pub open spec fn conv_acc<T: Scalar>(
    x: Seq<T>,
    wt: Seq<T>,
    bias: Seq<T>,
    s: ConvShape,
    b: int,
    co: int,
    i: int,
    j: int,
    m: nat,
) -> T
    decreases m,
{
    if m == 0 {
        bias[co]
    } else {
        conv_channel_acc(
            x,
            wt,
            s,
            b,
            co,
            i,
            j,
            m - 1,
            s.kernel as nat,
            conv_acc(x, wt, bias, s, b, co, i, j, (m - 1) as nat),
        )
    }
}

/// Output pixel `(b, co, i, j)`: `bias[co] + Σ_{ci, ki, kj inside} x[..] * w[..]`, accumulated
/// in `(ci, ki, kj)` order.
pub open spec fn conv_value<T: Scalar>(
    x: Seq<T>,
    wt: Seq<T>,
    bias: Seq<T>,
    s: ConvShape,
    b: int,
    co: int,
    i: int,
    j: int,
) -> T {
    conv_acc(x, wt, bias, s, b, co, i, j, s.c_in as nat)
}

pub proof fn lemma_conv_input_offset_bounds(s: ConvShape, b: int, ci: int, i: int, j: int, ki: int, kj: int)
    requires
        s.wf(),
        0 <= b < s.n,
        0 <= ci < s.c_in,
        0 <= i,
        0 <= j,
        0 <= ki,
        0 <= kj,
        conv_tap_inside(s, i, j, ki, kj),
    ensures
        0 <= b * s.c_in + ci < s.n * s.c_in,
        0 <= (b * s.c_in + ci) * (s.h * s.w),
        0 <= (i + ki - s.padding) * s.w,
        s.h * s.w <= s.spec_input_len(),
        0 <= conv_input_offset(s, b, ci, i, j, ki, kj) < s.spec_input_len(),
{
    lemma_offset_in_grid(b, ci, s.n as int, s.c_in as int);
    lemma_offset_in_grid(i + ki - s.padding, j + kj - s.padding, s.h as int, s.w as int);
    lemma_offset_in_grid(
        b * s.c_in + ci,
        (i + ki - s.padding) * s.w + (j + kj - s.padding),
        s.n * s.c_in,
        s.h * s.w,
    );
    lemma_product_parts_fit(s.n * s.c_in, s.h * s.w);
}

pub proof fn lemma_conv_weight_offset_bounds(s: ConvShape, co: int, ci: int, ki: int, kj: int)
    requires
        s.wf(),
        0 <= co < s.c_out,
        0 <= ci < s.c_in,
        0 <= ki < s.kernel,
        0 <= kj < s.kernel,
    ensures
        0 <= co * s.c_in + ci < s.c_out * s.c_in,
        0 <= (co * s.c_in + ci) * (s.kernel * s.kernel),
        0 <= ki * s.kernel,
        s.kernel * s.kernel <= s.spec_weight_len(),
        0 <= conv_weight_offset(s, co, ci, ki, kj) < s.spec_weight_len(),
{
    lemma_offset_in_grid(co, ci, s.c_out as int, s.c_in as int);
    lemma_offset_in_grid(ki, kj, s.kernel as int, s.kernel as int);
    lemma_offset_in_grid(
        co * s.c_in + ci,
        ki * s.kernel + kj,
        s.c_out * s.c_in,
        s.kernel * s.kernel,
    );
    lemma_product_parts_fit(s.c_out * s.c_in, s.kernel * s.kernel);
}


/// Output pixel `(bb, cc, ii, jj)` comes before `(b, co, i, j)` in batch, channel, row, column order.
pub open spec fn conv_before(bb: int, cc: int, ii: int, jj: int, b: int, co: int, i: int, j: int) -> bool {
    bb < b || (bb == b && (cc < co || (cc == co && (ii < i || (ii == i && jj < j)))))
}

/// Every output pixel before `(b, co, i, j)` holds its convolution value.
pub open spec fn conv_out_done<T: Scalar>(
    out: Seq<T>,
    x: Seq<T>,
    wt: Seq<T>,
    bias: Seq<T>,
    s: ConvShape,
    b: int,
    co: int,
    i: int,
    j: int,
) -> bool {
    forall|bb: int, cc: int, ii: int, jj: int|
        0 <= bb < s.n && 0 <= cc < s.c_out && 0 <= ii < s.h_out && 0 <= jj < s.w_out && conv_before(
            bb,
            cc,
            ii,
            jj,
            b,
            co,
            i,
            j,
        ) ==> out[conv_output_offset(s, bb, cc, ii, jj)] == #[trigger] conv_value(
            x,
            wt,
            bias,
            s,
            bb,
            cc,
            ii,
            jj,
        )
}

proof fn lemma_conv_output_offset_lex(s: ConvShape, bb: int, cc: int, ii: int, jj: int, b: int, co: int, i: int, j: int)
    requires
        0 <= bb,
        0 <= cc < s.c_out,
        0 <= ii < s.h_out,
        0 <= jj < s.w_out,
        0 <= co < s.c_out,
        0 <= i < s.h_out,
        0 <= j <= s.w_out,
        conv_before(bb, cc, ii, jj, b, co, i, j),
    ensures
        conv_output_offset(s, bb, cc, ii, jj) < conv_output_offset(s, b, co, i, j),
{
    if bb < b || (bb == b && cc < co) {
        lemma_offset_lex(bb, cc, b, co, s.c_out as int);
    }
    lemma_grid3_lex(s.h_out as int, s.w_out as int, bb * s.c_out + cc, ii, jj, b * s.c_out + co, i, j);
}

pub proof fn lemma_conv_output_offset_bounds(s: ConvShape, b: int, co: int, i: int, j: int)
    requires
        s.wf(),
        0 <= b < s.n,
        0 <= co < s.c_out,
        0 <= i < s.h_out,
        0 <= j < s.w_out,
    ensures
        0 <= conv_output_offset(s, b, co, i, j) < s.spec_output_len(),
{
    lemma_offset_in_grid(b, co, s.n as int, s.c_out as int);
    lemma_grid3_bounds((s.n * s.c_out) as int, s.h_out as int, s.w_out as int, b * s.c_out + co, i, j);
}

/// Batched 2-D convolution with zero padding and stride 1 (`[n, c_in, h, w]` input,
/// `[c_out, c_in, k, k]` kernel, `[n, c_out, h_out, w_out]` output).
#[verifier::rlimit(50)]
pub fn conv_forward<T: Scalar>(x: &Vec<T>, wt: &Vec<T>, bias: &Vec<T>, s: ConvShape) -> (out: Vec<T>)
    requires
        arith_total::<T>(),
        s.wf(),
        x.len() == s.spec_input_len(),
        wt.len() == s.spec_weight_len(),
        bias.len() >= s.c_out,
    ensures
        out.len() == s.spec_output_len(),
        exact_arith::<T>() ==> forall|b: int, co: int, i: int, j: int|
            0 <= b < s.n && 0 <= co < s.c_out && 0 <= i < s.h_out && 0 <= j < s.w_out
                ==> out@[conv_output_offset(s, b, co, i, j)] == #[trigger] conv_value(
                x@,
                wt@,
                bias@,
                s,
                b,
                co,
                i,
                j,
            ),
{
    let mut out: Vec<T> = Vec::new();
    let mut b: usize = 0;
    while b < s.n
        invariant
            b <= s.n,
            arith_total::<T>(),
            s.wf(),
            x.len() == s.spec_input_len(),
            wt.len() == s.spec_weight_len(),
            bias.len() >= s.c_out,
            out.len() == grid3(s.h_out as int, s.w_out as int, b * s.c_out, 0, 0),
            exact_arith::<T>() ==> conv_out_done(out@, x@, wt@, bias@, s, b as int, 0, 0, 0),
        decreases s.n - b,
    {
        let mut co: usize = 0;
        while co < s.c_out
            invariant
                b < s.n,
                co <= s.c_out,
                arith_total::<T>(),
                s.wf(),
                x.len() == s.spec_input_len(),
                wt.len() == s.spec_weight_len(),
                bias.len() >= s.c_out,
                out.len() == grid3(s.h_out as int, s.w_out as int, b * s.c_out + co, 0, 0),
                exact_arith::<T>() ==> conv_out_done(out@, x@, wt@, bias@, s, b as int, co as int, 0, 0),
            decreases s.c_out - co,
        {
            let mut i: usize = 0;
            while i < s.h_out
                invariant
                    b < s.n,
                    co < s.c_out,
                    i <= s.h_out,
                    arith_total::<T>(),
                    s.wf(),
                    x.len() == s.spec_input_len(),
                    wt.len() == s.spec_weight_len(),
                    bias.len() >= s.c_out,
                    out.len() == grid3(s.h_out as int, s.w_out as int, b * s.c_out + co, i as int, 0),
                    exact_arith::<T>() ==> conv_out_done(
                        out@,
                        x@,
                        wt@,
                        bias@,
                        s,
                        b as int,
                        co as int,
                        i as int,
                        0,
                    ),
                decreases s.h_out - i,
            {
                let mut j: usize = 0;
                while j < s.w_out
                    invariant
                        b < s.n,
                        co < s.c_out,
                        i < s.h_out,
                        j <= s.w_out,
                        arith_total::<T>(),
                        s.wf(),
                        x.len() == s.spec_input_len(),
                        wt.len() == s.spec_weight_len(),
                        bias.len() >= s.c_out,
                        out.len() == grid3(
                            s.h_out as int,
                            s.w_out as int,
                            b * s.c_out + co,
                            i as int,
                            j as int,
                        ),
                        exact_arith::<T>() ==> conv_out_done(
                            out@,
                            x@,
                            wt@,
                            bias@,
                            s,
                            b as int,
                            co as int,
                            i as int,
                            j as int,
                        ),
                    decreases s.w_out - j,
                {
                    let sum = conv_pixel(x, wt, bias, s, b, co, i, j);
                    proof {
                        lemma_conv_output_offset_bounds(s, b as int, co as int, i as int, j as int);
                    }
                    let ghost before = out@;
                    out.push(sum);
                    proof {
                        if exact_arith::<T>() {
                            assert forall|bb: int, cc: int, ii: int, jj: int|
                                0 <= bb < s.n && 0 <= cc < s.c_out && 0 <= ii < s.h_out && 0 <= jj
                                    < s.w_out && conv_before(
                                    bb,
                                    cc,
                                    ii,
                                    jj,
                                    b as int,
                                    co as int,
                                    i as int,
                                    j + 1,
                                ) implies out@[conv_output_offset(s, bb, cc, ii, jj)]
                                == #[trigger] conv_value(x@, wt@, bias@, s, bb, cc, ii, jj) by {
                                if conv_before(bb, cc, ii, jj, b as int, co as int, i as int, j as int) {
                                    lemma_conv_output_offset_lex(s, bb, cc, ii, jj, b as int, co as int, i as int, j as int);
                                    assert(out@[conv_output_offset(s, bb, cc, ii, jj)] == before[conv_output_offset(s, bb, cc, ii, jj)]);
                                }
                            }
                        }
                    }
                    j = j + 1;
                }
                proof {
                    assert(grid3(s.h_out as int, s.w_out as int, b * s.c_out + co, i as int, s.w_out as int)
                        == grid3(s.h_out as int, s.w_out as int, b * s.c_out + co, i + 1, 0)) by (nonlinear_arith);
                }
                i = i + 1;
            }
            proof {
                assert(grid3(s.h_out as int, s.w_out as int, b * s.c_out + co, s.h_out as int, 0)
                    == grid3(s.h_out as int, s.w_out as int, b * s.c_out + co + 1, 0, 0)) by (nonlinear_arith);
            }
            co = co + 1;
        }
        proof {
            assert(b * s.c_out + s.c_out == (b + 1) * s.c_out) by (nonlinear_arith);
        }
        b = b + 1;
    }
    proof {
        assert(grid3(s.h_out as int, s.w_out as int, s.n * s.c_out, 0, 0) == s.spec_output_len());
    }
    out
}

/// The convolution sum of one output pixel.
#[verifier::rlimit(50)]
fn conv_pixel<T: Scalar>(x: &Vec<T>, wt: &Vec<T>, bias: &Vec<T>, s: ConvShape, b: usize, co: usize, i: usize, j: usize) -> (sum: T)
    requires
        arith_total::<T>(),
        s.wf(),
        x.len() == s.spec_input_len(),
        wt.len() == s.spec_weight_len(),
        bias.len() >= s.c_out,
        b < s.n,
        co < s.c_out,
        i < s.h_out,
        j < s.w_out,
    ensures
        exact_arith::<T>() ==> sum == conv_value(x@, wt@, bias@, s, b as int, co as int, i as int, j as int),
{
    let k = s.kernel;
    let pad = s.padding;
    let mut sum = bias[co];
    let mut ci: usize = 0;
    while ci < s.c_in
        invariant
            arith_total::<T>(),
            s.wf(),
            x.len() == s.spec_input_len(),
            wt.len() == s.spec_weight_len(),
            b < s.n,
            co < s.c_out,
            i < s.h_out,
            j < s.w_out,
            k == s.kernel,
            pad == s.padding,
            ci <= s.c_in,
            exact_arith::<T>() ==> sum == conv_acc(x@, wt@, bias@, s, b as int, co as int, i as int, j as int, ci as nat),
        decreases s.c_in - ci,
    {
        let ghost ch_start = sum;
        let mut ki: usize = 0;
        while ki < k
            invariant
                arith_total::<T>(),
                s.wf(),
                x.len() == s.spec_input_len(),
                wt.len() == s.spec_weight_len(),
                b < s.n,
                co < s.c_out,
                i < s.h_out,
                j < s.w_out,
                k == s.kernel,
                pad == s.padding,
                ci < s.c_in,
                ki <= k,
                exact_arith::<T>() ==> sum == conv_channel_acc(x@, wt@, s, b as int, co as int, i as int, j as int, ci as int, ki as nat, ch_start),
            decreases k - ki,
        {
            let ghost row_start = sum;
            let mut kj: usize = 0;
            while kj < k
                invariant
                    arith_total::<T>(),
                    s.wf(),
                    x.len() == s.spec_input_len(),
                    wt.len() == s.spec_weight_len(),
                    b < s.n,
                    co < s.c_out,
                    i < s.h_out,
                    j < s.w_out,
                    k == s.kernel,
                    pad == s.padding,
                    ci < s.c_in,
                    ki < k,
                    kj <= k,
                    exact_arith::<T>() ==> sum == conv_row_acc(x@, wt@, s, b as int, co as int, i as int, j as int, ci as int, ki as int, kj as nat, row_start),
                decreases k - kj,
            {
                if i + ki >= pad && i + ki < s.h + pad && j + kj >= pad && j + kj < s.w + pad {
                    proof {
                        lemma_conv_input_offset_bounds(s, b as int, ci as int, i as int, j as int, ki as int, kj as int);
                        lemma_conv_weight_offset_bounds(s, co as int, ci as int, ki as int, kj as int);
                    }
                    let yi = i + ki - pad;
                    let xj = j + kj - pad;
                    let in_idx = (b * s.c_in + ci) * (s.h * s.w) + yi * s.w + xj;
                    let w_idx = (co * s.c_in + ci) * (k * k) + ki * k + kj;
                    let p = x[in_idx] * wt[w_idx];
                    sum = sum + p;
                }
                kj = kj + 1;
            }
            ki = ki + 1;
        }
        ci = ci + 1;
    }
    sum
}


// ---------------------------------------------------------------- argmax

/// Position (relative to `start`) of the maximum of `x[start .. start + m]`: a later element
/// wins unless the best so far is strictly greater, so ties go to the last maximum.
pub open spec fn argmax_prefix<T: Scalar>(x: Seq<T>, start: int, m: nat) -> int
    decreases m,
{
    if m <= 1 {
        0
    } else {
        let b = argmax_prefix(x, start, (m - 1) as nat);
        if x[start + b].is_gt(&x[start + m - 1]) {
            b
        } else {
            m - 1
        }
    }
}

/// Every comparison the scan of `x[start .. start + m]` makes has an answer: the best element
/// so far compares with each next one (for floating point, no NaN is met on the way).
pub open spec fn scan_comparable<T: Scalar>(x: Seq<T>, start: int, m: nat) -> bool {
    forall|k: nat|
        1 <= k < m ==> {
            let best = x[start + #[trigger] argmax_prefix(x, start, k)];
            best.is_le(&x[start + k]) || best.is_gt(&x[start + k])
        }
}

/// Index of the largest of `x[start .. start + len]`, relative to `start`.
pub fn argmax_in<T: Scalar>(x: &Vec<T>, start: usize, len: usize) -> (r: usize)
    requires
        len >= 1,
        start + len <= x.len(),
    ensures
        r < len,
        exact_order::<T>() ==> r == argmax_prefix(x@, start as int, len as nat),
{
    let mut best: usize = 0;
    let mut c: usize = 1;
    while c < len
        invariant
            1 <= c <= len,
            start + len <= x.len(),
            best < c,
            exact_order::<T>() ==> best == argmax_prefix(x@, start as int, c as nat),
        decreases len - c,
    {
        if x[start + best] > x[start + c] {
        } else {
            best = c;
        }
        c = c + 1;
    }
    best
}

/// Per-row argmax of `n` rows of `classes` values.
pub fn argmax_rows<T: Scalar>(x: &Vec<T>, n: usize, classes: usize) -> (r: Vec<usize>)
    requires
        x.len() == n * classes,
        n > 0 ==> classes >= 1,
    ensures
        r.len() == n,
        forall|b: int| 0 <= b < n ==> #[trigger] r@[b] < classes,
        exact_order::<T>() ==> forall|b: int|
            0 <= b < n ==> #[trigger] r@[b] == argmax_prefix(x@, b * classes, classes as nat),
{
    let mut r: Vec<usize> = Vec::with_capacity(n);
    let mut b: usize = 0;
    while b < n
        invariant
            b <= n,
            x.len() == n * classes,
            n > 0 ==> classes >= 1,
            r.len() == b,
            forall|q: int| 0 <= q < b ==> #[trigger] r@[q] < classes,
            exact_order::<T>() ==> forall|q: int|
                0 <= q < b ==> #[trigger] r@[q] == argmax_prefix(x@, q * classes, classes as nat),
        decreases n - b,
    {
        proof {
            lemma_offset_in_grid(b as int, 0, n as int, classes as int);
            assert(b * classes + classes <= n * classes) by (nonlinear_arith)
                requires
                    b < n,
            ;
        }
        let best = argmax_in(x, b * classes, classes);
        r.push(best);
        b = b + 1;
    }
    r
}

} // verus!
