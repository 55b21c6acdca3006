//! Gradients of the batched convolution.
//!
//! Each gradient element is an ordered sum started at zero. The order is the one in
//! which a single sweep over output pixels `(b, co, i, j)` and kernel taps `(ci, ki, kj)`
//! meets the element's contributions, so the floating-point result does not depend on
//! whether the sums are gathered per element or scattered from the output pixels.
use vstd::prelude::*;
use vstd::std_specs::ops::AddSpec;
use vstd::std_specs::ops::MulSpec;
use crate::compute::scalar::{Scalar, arith_total, exact_arith};
use crate::compute::index::{lemma_offset_in_grid, lemma_mul_mono};
use crate::compute::kernels::{
    ConvShape, conv_tap_inside, conv_input_offset, conv_weight_offset, conv_output_offset,
    lemma_conv_input_offset_bounds, lemma_conv_weight_offset_bounds, lemma_conv_output_offset_bounds,
    lemma_product_parts_fit, grid3,
};
use crate::compute::outputs::{plane_of, row_of, col_of, lemma_grid3_decode, lemma_grid2_decode};

verus! {

/// Gradient reaching output pixel `(b, co, i, j)`.
pub open spec fn out_grad<T>(grad: Seq<T>, s: ConvShape, b: int, co: int, i: int, j: int) -> T {
    grad[conv_output_offset(s, b, co, i, j)]
}

// ---------------------------------------------------------------- bias

/// Columns `j < m` of output row `i` of image `b`, channel `co`, added to `acc`.
pub open spec fn bias_grad_row<T: Scalar>(grad: Seq<T>, s: ConvShape, co: int, b: int, i: int, m: nat, acc: T) -> T
    decreases m,
{
    if m == 0 {
        acc
    } else {
        bias_grad_row(grad, s, co, b, i, (m - 1) as nat, acc).add_spec(out_grad(grad, s, b, co, i, m - 1))
    }
}

/// Rows `i < m` of image `b`, channel `co`, added to `acc`.
pub open spec fn bias_grad_image<T: Scalar>(grad: Seq<T>, s: ConvShape, co: int, b: int, m: nat, acc: T) -> T
    decreases m,
{
    if m == 0 {
        acc
    } else {
        bias_grad_row(grad, s, co, b, m - 1, s.w_out as nat, bias_grad_image(grad, s, co, b, (m - 1) as nat, acc))
    }
}

/// Images `b < m` of channel `co`, summed from `zero`.
pub open spec fn bias_grad_acc<T: Scalar>(grad: Seq<T>, s: ConvShape, co: int, m: nat, zero: T) -> T
    decreases m,
{
    if m == 0 {
        zero
    } else {
        bias_grad_image(grad, s, co, m - 1, s.h_out as nat, bias_grad_acc(grad, s, co, (m - 1) as nat, zero))
    }
}

/// Gradient of bias `co`: the output gradients of channel `co`, in `(b, i, j)` order.
pub open spec fn conv_bias_grad<T: Scalar>(grad: Seq<T>, s: ConvShape, co: int, zero: T) -> T {
    bias_grad_acc(grad, s, co, s.n as nat, zero)
}

// ---------------------------------------------------------------- weights

/// Contribution of output pixel `(b, co, i, j)` to kernel weight `(co, ci, ki, kj)`.
pub open spec fn weight_grad_tap<T: Scalar>(
    x: Seq<T>,
    grad: Seq<T>,
    s: ConvShape,
    w: (int, int, int, int),
    b: int,
    i: int,
    j: int,
    acc: T,
) -> T {
    let (co, ci, ki, kj) = w;
    if conv_tap_inside(s, i, j, ki, kj) {
        acc.add_spec(x[conv_input_offset(s, b, ci, i, j, ki, kj)].mul_spec(out_grad(grad, s, b, co, i, j)))
    } else {
        acc
    }
}

/// Columns `j < m` of row `i` of image `b`, added to `acc`.
pub open spec fn weight_grad_row<T: Scalar>(
    x: Seq<T>,
    grad: Seq<T>,
    s: ConvShape,
    w: (int, int, int, int),
    b: int,
    i: int,
    m: nat,
    acc: T,
) -> T
    decreases m,
{
    if m == 0 {
        acc
    } else {
        weight_grad_tap(x, grad, s, w, b, i, m - 1, weight_grad_row(x, grad, s, w, b, i, (m - 1) as nat, acc))
    }
}

/// Rows `i < m` of image `b`, added to `acc`.
pub open spec fn weight_grad_image<T: Scalar>(
    x: Seq<T>,
    grad: Seq<T>,
    s: ConvShape,
    w: (int, int, int, int),
    b: int,
    m: nat,
    acc: T,
) -> T
    decreases m,
{
    if m == 0 {
        acc
    } else {
        weight_grad_row(x, grad, s, w, b, m - 1, s.w_out as nat, weight_grad_image(x, grad, s, w, b, (m - 1) as nat, acc))
    }
}

/// Images `b < m`, summed from `zero`.
pub open spec fn weight_grad_acc<T: Scalar>(x: Seq<T>, grad: Seq<T>, s: ConvShape, w: (int, int, int, int), m: nat, zero: T) -> T
    decreases m,
{
    if m == 0 {
        zero
    } else {
        weight_grad_image(x, grad, s, w, m - 1, s.h_out as nat, weight_grad_acc(x, grad, s, w, (m - 1) as nat, zero))
    }
}

/// Gradient of kernel weight `(co, ci, ki, kj)`: input value times output gradient over
/// every pixel whose tap `(ki, kj)` falls inside the image, in `(b, i, j)` order.
pub open spec fn conv_weight_grad<T: Scalar>(x: Seq<T>, grad: Seq<T>, s: ConvShape, w: (int, int, int, int), zero: T) -> T {
    weight_grad_acc(x, grad, s, w, s.n as nat, zero)
}

// ---------------------------------------------------------------- input

/// Contribution of kernel tap `(co, ki, kj)` to input pixel `(b, ci, y, xx)`: the output
/// pixel it feeds is `(y + padding - ki, xx + padding - kj)`, when that pixel exists.
pub open spec fn input_grad_tap<T: Scalar>(
    wt: Seq<T>,
    grad: Seq<T>,
    s: ConvShape,
    p: (int, int, int, int),
    co: int,
    ki: int,
    kj: int,
    acc: T,
) -> T {
    let (b, ci, y, xx) = p;
    let i = y + s.padding - ki;
    let j = xx + s.padding - kj;
    if 0 <= i < s.h_out && 0 <= j < s.w_out {
        acc.add_spec(wt[conv_weight_offset(s, co, ci, ki, kj)].mul_spec(out_grad(grad, s, b, co, i, j)))
    } else {
        acc
    }
}

/// Kernel columns `kernel - 1` down to `kernel - m` of kernel row `ki`, added to `acc`.
pub open spec fn input_grad_row<T: Scalar>(
    wt: Seq<T>,
    grad: Seq<T>,
    s: ConvShape,
    p: (int, int, int, int),
    co: int,
    ki: int,
    m: nat,
    acc: T,
) -> T
    decreases m,
{
    if m == 0 {
        acc
    } else {
        input_grad_tap(wt, grad, s, p, co, ki, s.kernel - m, input_grad_row(wt, grad, s, p, co, ki, (m - 1) as nat, acc))
    }
}

/// Kernel rows `kernel - 1` down to `kernel - m` of output channel `co`, added to `acc`.
pub open spec fn input_grad_channel<T: Scalar>(
    wt: Seq<T>,
    grad: Seq<T>,
    s: ConvShape,
    p: (int, int, int, int),
    co: int,
    m: nat,
    acc: T,
) -> T
    decreases m,
{
    if m == 0 {
        acc
    } else {
        input_grad_row(
            wt,
            grad,
            s,
            p,
            co,
            s.kernel - m,
            s.kernel as nat,
            input_grad_channel(wt, grad, s, p, co, (m - 1) as nat, acc),
        )
    }
}

/// Output channels `co < m`, summed from `zero`.
pub open spec fn input_grad_acc<T: Scalar>(wt: Seq<T>, grad: Seq<T>, s: ConvShape, p: (int, int, int, int), m: nat, zero: T) -> T
    decreases m,
{
    if m == 0 {
        zero
    } else {
        input_grad_channel(wt, grad, s, p, m - 1, s.kernel as nat, input_grad_acc(wt, grad, s, p, (m - 1) as nat, zero))
    }
}

/// Gradient of input pixel `(b, ci, y, xx)`: kernel weight times output gradient over every
/// output pixel that reads it, by output channel and then by output row and column.
pub open spec fn conv_input_grad<T: Scalar>(wt: Seq<T>, grad: Seq<T>, s: ConvShape, p: (int, int, int, int), zero: T) -> T {
    input_grad_acc(wt, grad, s, p, s.c_out as nat, zero)
}

// ---------------------------------------------------------------- whole buffers

/// The input gradient buffer, in `[n, c_in, h, w]` order.
pub open spec fn input_grad_seq<T: Scalar>(wt: Seq<T>, grad: Seq<T>, s: ConvShape, zero: T) -> Seq<T> {
    Seq::new(
        s.spec_input_len() as nat,
        |idx: int|
            {
                let h = s.h as int;
                let w = s.w as int;
                let pl = plane_of(idx, h, w);
                conv_input_grad(wt, grad, s, (pl / s.c_in as int, pl % s.c_in as int, row_of(idx, h, w), col_of(idx, h, w)), zero)
            },
    )
}

/// The kernel gradient buffer, in `[c_out, c_in, k, k]` order.
pub open spec fn weight_grad_seq<T: Scalar>(x: Seq<T>, grad: Seq<T>, s: ConvShape, zero: T) -> Seq<T> {
    Seq::new(
        s.spec_weight_len() as nat,
        |idx: int|
            {
                let k = s.kernel as int;
                let pl = plane_of(idx, k, k);
                conv_weight_grad(x, grad, s, (pl / s.c_in as int, pl % s.c_in as int, row_of(idx, k, k), col_of(idx, k, k)), zero)
            },
    )
}

/// The bias gradient buffer of `bias_len` entries; entries past `c_out` are `zero`.
pub open spec fn bias_grad_seq<T: Scalar>(grad: Seq<T>, s: ConvShape, bias_len: nat, zero: T) -> Seq<T> {
    Seq::new(bias_len, |co: int| if co < s.c_out { conv_bias_grad(grad, s, co, zero) } else { zero })
}

// ---------------------------------------------------------------- laws

/// The kernel gradient is laid out as the kernel is: entry
/// `co * c_in * k * k + ci * k * k + ki * k + kj` of `weight_grad_seq` is the gradient of kernel
/// weight `(co, ci, ki, kj)` (row `ki`, column `kj` of its `k x k` window).
pub proof fn lemma_kernel_grad_entry<T: Scalar>(
    x: Seq<T>,
    grad: Seq<T>,
    s: ConvShape,
    zero: T,
    co: int,
    ci: int,
    ki: int,
    kj: int,
)
    requires
        0 <= co < s.c_out,
        0 <= ci < s.c_in,
        0 <= ki < s.kernel,
        0 <= kj < s.kernel,
    ensures
        ({
            let k = s.kernel as int;
            let idx = co * s.c_in * k * k + ci * k * k + ki * k + kj;
            &&& 0 <= idx < s.spec_weight_len()
            &&& weight_grad_seq(x, grad, s, zero)[idx] == conv_weight_grad(x, grad, s, (co, ci, ki, kj), zero)
        }),
{
    let k = s.kernel as int;
    let kk = k * k;
    let c_in = s.c_in as int;
    let planes = s.c_out * c_in;
    let pl = co * c_in + ci;
    let inner = ki * k + kj;
    let idx = co * c_in * k * k + ci * k * k + ki * k + kj;
    assert(idx == pl * kk + inner) by (nonlinear_arith)
        requires
            idx == co * c_in * k * k + ci * k * k + ki * k + kj,
            pl == co * c_in + ci,
            inner == ki * k + kj,
            kk == k * k,
    ;
    lemma_offset_in_grid(co, ci, s.c_out as int, c_in);
    lemma_offset_in_grid(ki, kj, k, k);
    lemma_offset_in_grid(pl, inner, planes, kk);
    assert(s.spec_weight_len() == planes * kk);
    lemma_grid3_decode(planes, k, k, idx);
    let p2 = plane_of(idx, k, k);
    let r2 = row_of(idx, k, k);
    let c2 = col_of(idx, k, k);
    lemma_offset_in_grid(r2, c2, k, k);
    crate::compute::index::lemma_offset_injective(p2, r2 * k + c2, pl, inner, kk);
    crate::compute::index::lemma_offset_injective(r2, c2, ki, kj, k);
    vstd::arithmetic::div_mod::lemma_fundamental_div_mod_converse(pl, c_in, co, ci);
}

/// A kernel weight's gradient gathers what the forward pass multiplies it with: at output
/// pixel `(b, co, i, j)`, weight `(co, ci, ki, kj)` (entry `co * c_in * k * k + ci * k * k +
/// ki * k + kj` of the kernel) multiplies the input pixel `(b, ci, i + ki - padding, j + kj -
/// padding)` when that pixel lies inside the image, and the gradient term for the weight at
/// that output pixel is the same input pixel times the pixel's output gradient.
pub proof fn lemma_weight_grad_tap_is_adjoint<T: Scalar>(
    x: Seq<T>,
    wt: Seq<T>,
    grad: Seq<T>,
    s: ConvShape,
    co: int,
    ci: int,
    ki: int,
    kj: int,
    b: int,
    i: int,
    j: int,
    acc: T,
)
    ensures
        ({
            let k = s.kernel as int;
            let (h, w, pad) = (s.h as int, s.w as int, s.padding as int);
            let y = i + ki - pad;
            let xx = j + kj - pad;
            let input = x[(b * s.c_in + ci) * (h * w) + y * w + xx];
            let weight = wt[co * s.c_in * k * k + ci * k * k + ki * k + kj];
            let g = grad[(b * s.c_out + co) * (s.h_out * s.w_out) + i * s.w_out + j];
            if 0 <= y < h && 0 <= xx < w {
                &&& crate::compute::kernels::conv_tap(x, wt, s, b, co, i, j, ci, ki, kj, acc) == acc.add_spec(
                    input.mul_spec(weight),
                )
                &&& weight_grad_tap(x, grad, s, (co, ci, ki, kj), b, i, j, acc) == acc.add_spec(input.mul_spec(g))
            } else {
                &&& crate::compute::kernels::conv_tap(x, wt, s, b, co, i, j, ci, ki, kj, acc) == acc
                &&& weight_grad_tap(x, grad, s, (co, ci, ki, kj), b, i, j, acc) == acc
            }
        }),
{
    let k = s.kernel as int;
    assert((co * s.c_in + ci) * (k * k) + ki * k + kj == co * s.c_in * k * k + ci * k * k + ki * k + kj)
        by (nonlinear_arith);
    assert(grid3(s.h_out as int, s.w_out as int, b * s.c_out + co, i, j) == (b * s.c_out + co) * (s.h_out * s.w_out)
        + i * s.w_out + j);
}

/// The input gradient is laid out as the input is: entry `(b * c_in + ci) * (h * w) + y * w + xx`
/// of `input_grad_seq` is the gradient of input pixel `(b, ci, y, xx)`.
pub proof fn lemma_input_grad_entry<T: Scalar>(
    wt: Seq<T>,
    grad: Seq<T>,
    s: ConvShape,
    zero: T,
    b: int,
    ci: int,
    y: int,
    xx: int,
)
    requires
        0 <= b < s.n,
        0 <= ci < s.c_in,
        0 <= y < s.h,
        0 <= xx < s.w,
    ensures
        ({
            let idx = (b * s.c_in + ci) * (s.h * s.w) + y * s.w + xx;
            &&& 0 <= idx < s.spec_input_len()
            &&& input_grad_seq(wt, grad, s, zero)[idx] == conv_input_grad(wt, grad, s, (b, ci, y, xx), zero)
        }),
{
    let (h, w) = (s.h as int, s.w as int);
    let hw = h * w;
    let planes = s.n * s.c_in;
    let pl = b * s.c_in + ci;
    let inner = y * w + xx;
    let idx = pl * hw + inner;
    lemma_offset_in_grid(b, ci, s.n as int, s.c_in as int);
    lemma_offset_in_grid(y, xx, h, w);
    lemma_offset_in_grid(pl, inner, planes, hw);
    assert(s.spec_input_len() == planes * hw);
    lemma_grid3_decode(planes, h, w, idx);
    let p2 = plane_of(idx, h, w);
    let r2 = row_of(idx, h, w);
    let c2 = col_of(idx, h, w);
    lemma_offset_in_grid(r2, c2, h, w);
    crate::compute::index::lemma_offset_injective(p2, r2 * w + c2, pl, inner, hw);
    crate::compute::index::lemma_offset_injective(r2, c2, y, xx, w);
    vstd::arithmetic::div_mod::lemma_fundamental_div_mod_converse(pl, s.c_in as int, b, ci);
}

/// An input pixel's gradient gathers what the forward pass multiplies it with: kernel weight
/// `(co, ci, ki, kj)` (entry `co * c_in * k * k + ci * k * k + ki * k + kj`) meets input pixel
/// `(b, ci, y, xx)` at output pixel `(b, co, y + padding - ki, xx + padding - kj)` when that
/// pixel exists, and the term is that weight times the pixel's output gradient.
pub proof fn lemma_input_grad_tap_is_adjoint<T: Scalar>(
    wt: Seq<T>,
    grad: Seq<T>,
    s: ConvShape,
    b: int,
    ci: int,
    y: int,
    xx: int,
    co: int,
    ki: int,
    kj: int,
    acc: T,
)
    ensures
        ({
            let k = s.kernel as int;
            let i = y + s.padding - ki;
            let j = xx + s.padding - kj;
            let weight = wt[co * s.c_in * k * k + ci * k * k + ki * k + kj];
            let g = grad[(b * s.c_out + co) * (s.h_out * s.w_out) + i * s.w_out + j];
            input_grad_tap(wt, grad, s, (b, ci, y, xx), co, ki, kj, acc) == if 0 <= i < s.h_out && 0 <= j < s.w_out {
                acc.add_spec(weight.mul_spec(g))
            } else {
                acc
            }
        }),
{
    let k = s.kernel as int;
    assert((co * s.c_in + ci) * (k * k) + ki * k + kj == co * s.c_in * k * k + ci * k * k + ki * k + kj)
        by (nonlinear_arith);
}

/// Entry `co < c_out` of the bias gradient is the sum of the output gradients of channel `co`:
/// each term of `bias_grad_row` is the output gradient at `(b * c_out + co) * (h_out * w_out) +
/// i * w_out + j`; entries past `c_out` are `zero`.
pub proof fn lemma_bias_grad_entry<T: Scalar>(grad: Seq<T>, s: ConvShape, bias_len: nat, zero: T, co: int, b: int, i: int, m: nat, acc: T)
    requires
        0 <= co < bias_len,
        m > 0,
    ensures
        bias_grad_seq(grad, s, bias_len, zero)[co] == if co < s.c_out { conv_bias_grad(grad, s, co, zero) } else { zero },
        bias_grad_row(grad, s, co, b, i, m, acc) == bias_grad_row(grad, s, co, b, i, (m - 1) as nat, acc).add_spec(
            grad[(b * s.c_out + co) * (s.h_out * s.w_out) + i * s.w_out + (m - 1)],
        ),
{
}

// ---------------------------------------------------------------- computing them

/// Offset of output pixel `(b, co, i, j)` computed in `usize`, with the facts needed to index.
proof fn lemma_out_offset(s: ConvShape, b: int, co: int, i: int, j: int)
    requires
        s.wf(),
        0 <= b < s.n,
        0 <= co < s.c_out,
        0 <= i < s.h_out,
        0 <= j < s.w_out,
    ensures
        0 <= b * s.c_out + co < s.n * s.c_out,
        0 <= i * s.w_out + j < s.h_out * s.w_out,
        s.h_out * s.w_out <= s.spec_output_len(),
        0 <= (b * s.c_out + co) * (s.h_out * s.w_out),
        0 <= conv_output_offset(s, b, co, i, j) < s.spec_output_len(),
        conv_output_offset(s, b, co, i, j) == (b * s.c_out + co) * (s.h_out * s.w_out) + (i * s.w_out + j),
{
    lemma_conv_output_offset_bounds(s, b, co, i, j);
    lemma_offset_in_grid(b, co, s.n as int, s.c_out as int);
    lemma_offset_in_grid(i, j, s.h_out as int, s.w_out as int);
    lemma_product_parts_fit((s.n * s.c_out) as int, (s.h_out * s.w_out) as int);
    assert(0 <= (b * s.c_out + co) * (s.h_out * s.w_out)) by (nonlinear_arith)
        requires
            0 <= b * s.c_out + co,
            0 <= s.h_out * s.w_out,
    ;
}

/// Gradient of bias `co`.
fn bias_grad_at<T: Scalar>(grad: &Vec<T>, s: ConvShape, co: usize, zero: T) -> (r: T)
    requires
        arith_total::<T>(),
        s.wf(),
        grad.len() == s.spec_output_len(),
        co < s.c_out,
    ensures
        exact_arith::<T>() ==> r == conv_bias_grad(grad@, s, co as int, zero),
{
    let mut acc = zero;
    let mut b: usize = 0;
    while b < s.n
        invariant
            arith_total::<T>(),
            s.wf(),
            grad.len() == s.spec_output_len(),
            co < s.c_out,
            b <= s.n,
            exact_arith::<T>() ==> acc == bias_grad_acc(grad@, s, co as int, b as nat, zero),
        decreases s.n - b,
    {
        let ghost image_start = acc;
        let mut i: usize = 0;
        while i < s.h_out
            invariant
                arith_total::<T>(),
                s.wf(),
                grad.len() == s.spec_output_len(),
                co < s.c_out,
                b < s.n,
                i <= s.h_out,
                exact_arith::<T>() ==> acc == bias_grad_image(grad@, s, co as int, b as int, i as nat, image_start),
            decreases s.h_out - i,
        {
            let ghost row_start = acc;
            let mut j: usize = 0;
            while j < s.w_out
                invariant
                    arith_total::<T>(),
                    s.wf(),
                    grad.len() == s.spec_output_len(),
                    co < s.c_out,
                    b < s.n,
                    i < s.h_out,
                    j <= s.w_out,
                    exact_arith::<T>() ==> acc == bias_grad_row(grad@, s, co as int, b as int, i as int, j as nat, row_start),
                decreases s.w_out - j,
            {
                proof {
                    lemma_out_offset(s, b as int, co as int, i as int, j as int);
                }
                let g = grad[(b * s.c_out + co) * (s.h_out * s.w_out) + (i * s.w_out + j)];
                acc = acc + g;
                j = j + 1;
            }
            i = i + 1;
        }
        b = b + 1;
    }
    acc
}

/// Gradient of kernel weight `(co, ci, ki, kj)`.
fn weight_grad_at<T: Scalar>(
    x: &Vec<T>,
    grad: &Vec<T>,
    s: ConvShape,
    co: usize,
    ci: usize,
    ki: usize,
    kj: usize,
    zero: T,
) -> (r: T)
    requires
        arith_total::<T>(),
        s.wf(),
        x.len() == s.spec_input_len(),
        grad.len() == s.spec_output_len(),
        co < s.c_out,
        ci < s.c_in,
        ki < s.kernel,
        kj < s.kernel,
    ensures
        exact_arith::<T>() ==> r == conv_weight_grad(x@, grad@, s, (co as int, ci as int, ki as int, kj as int), zero),
{
    let ghost w = (co as int, ci as int, ki as int, kj as int);
    let pad = s.padding;
    let mut acc = zero;
    let mut b: usize = 0;
    while b < s.n
        invariant
            arith_total::<T>(),
            s.wf(),
            x.len() == s.spec_input_len(),
            grad.len() == s.spec_output_len(),
            co < s.c_out,
            ci < s.c_in,
            ki < s.kernel,
            kj < s.kernel,
            pad == s.padding,
            w == (co as int, ci as int, ki as int, kj as int),
            b <= s.n,
            exact_arith::<T>() ==> acc == weight_grad_acc(x@, grad@, s, w, b as nat, zero),
        decreases s.n - b,
    {
        let ghost image_start = acc;
        let mut i: usize = 0;
        while i < s.h_out
            invariant
                arith_total::<T>(),
                s.wf(),
                x.len() == s.spec_input_len(),
                grad.len() == s.spec_output_len(),
                co < s.c_out,
                ci < s.c_in,
                ki < s.kernel,
                kj < s.kernel,
                pad == s.padding,
                w == (co as int, ci as int, ki as int, kj as int),
                b < s.n,
                i <= s.h_out,
                exact_arith::<T>() ==> acc == weight_grad_image(x@, grad@, s, w, b as int, i as nat, image_start),
            decreases s.h_out - i,
        {
            let ghost row_start = acc;
            let mut j: usize = 0;
            while j < s.w_out
                invariant
                    arith_total::<T>(),
                    s.wf(),
                    x.len() == s.spec_input_len(),
                    grad.len() == s.spec_output_len(),
                    co < s.c_out,
                    ci < s.c_in,
                    ki < s.kernel,
                    kj < s.kernel,
                    pad == s.padding,
                    w == (co as int, ci as int, ki as int, kj as int),
                    b < s.n,
                    i < s.h_out,
                    j <= s.w_out,
                    exact_arith::<T>() ==> acc == weight_grad_row(x@, grad@, s, w, b as int, i as int, j as nat, row_start),
                decreases s.w_out - j,
            {
                if i + ki >= pad && i + ki < s.h + pad && j + kj >= pad && j + kj < s.w + pad {
                    proof {
                        lemma_out_offset(s, b as int, co as int, i as int, j as int);
                        lemma_conv_input_offset_bounds(s, b as int, ci as int, i as int, j as int, ki as int, kj as int);
                    }
                    let g = grad[(b * s.c_out + co) * (s.h_out * s.w_out) + (i * s.w_out + j)];
                    let in_idx = (b * s.c_in + ci) * (s.h * s.w) + (i + ki - pad) * s.w + (j + kj - pad);
                    acc = acc + x[in_idx] * g;
                }
                j = j + 1;
            }
            i = i + 1;
        }
        b = b + 1;
    }
    acc
}

/// Gradient of input pixel `(b, ci, y, xx)`.
fn input_grad_at<T: Scalar>(
    wt: &Vec<T>,
    grad: &Vec<T>,
    s: ConvShape,
    b: usize,
    ci: usize,
    y: usize,
    xx: usize,
    zero: T,
) -> (r: T)
    requires
        arith_total::<T>(),
        s.wf(),
        wt.len() == s.spec_weight_len(),
        grad.len() == s.spec_output_len(),
        b < s.n,
        ci < s.c_in,
        y < s.h,
        xx < s.w,
    ensures
        exact_arith::<T>() ==> r == conv_input_grad(wt@, grad@, s, (b as int, ci as int, y as int, xx as int), zero),
{
    let ghost p = (b as int, ci as int, y as int, xx as int);
    let k = s.kernel;
    let pad = s.padding;
    let mut acc = zero;
    let mut co: usize = 0;
    while co < s.c_out
        invariant
            arith_total::<T>(),
            s.wf(),
            wt.len() == s.spec_weight_len(),
            grad.len() == s.spec_output_len(),
            b < s.n,
            ci < s.c_in,
            y < s.h,
            xx < s.w,
            k == s.kernel,
            pad == s.padding,
            p == (b as int, ci as int, y as int, xx as int),
            co <= s.c_out,
            exact_arith::<T>() ==> acc == input_grad_acc(wt@, grad@, s, p, co as nat, zero),
        decreases s.c_out - co,
    {
        let ghost channel_start = acc;
        let mut mi: usize = 0;
        while mi < k
            invariant
                arith_total::<T>(),
                s.wf(),
                wt.len() == s.spec_weight_len(),
                grad.len() == s.spec_output_len(),
                b < s.n,
                ci < s.c_in,
                y < s.h,
                xx < s.w,
                k == s.kernel,
                pad == s.padding,
                p == (b as int, ci as int, y as int, xx as int),
                co < s.c_out,
                mi <= k,
                exact_arith::<T>() ==> acc == input_grad_channel(wt@, grad@, s, p, co as int, mi as nat, channel_start),
            decreases k - mi,
        {
            let ki = k - 1 - mi;
            let ghost row_start = acc;
            let mut mj: usize = 0;
            while mj < k
                invariant
                    arith_total::<T>(),
                    s.wf(),
                    wt.len() == s.spec_weight_len(),
                    grad.len() == s.spec_output_len(),
                    b < s.n,
                    ci < s.c_in,
                    y < s.h,
                    xx < s.w,
                    k == s.kernel,
                    pad == s.padding,
                    p == (b as int, ci as int, y as int, xx as int),
                    co < s.c_out,
                    mi < k,
                    ki == k - 1 - mi,
                    mj <= k,
                    exact_arith::<T>() ==> acc == input_grad_row(wt@, grad@, s, p, co as int, ki as int, mj as nat, row_start),
                decreases k - mj,
            {
                let kj = k - 1 - mj;
                if y + pad >= ki && y + pad - ki < s.h_out && xx + pad >= kj && xx + pad - kj < s.w_out {
                    let i = y + pad - ki;
                    let j = xx + pad - kj;
                    proof {
                        lemma_out_offset(s, b as int, co as int, i as int, j as int);
                        lemma_conv_weight_offset_bounds(s, co as int, ci as int, ki as int, kj as int);
                    }
                    let g = grad[(b * s.c_out + co) * (s.h_out * s.w_out) + (i * s.w_out + j)];
                    let w_idx = (co * s.c_in + ci) * (k * k) + ki * k + kj;
                    acc = acc + wt[w_idx] * g;
                }
                mj = mj + 1;
            }
            mi = mi + 1;
        }
        co = co + 1;
    }
    acc
}

/// Gradients of the convolution `(d input, d weights, d bias)` for output gradient `grad`;
/// the bias gradient has `bias_len` entries, those past `c_out` being `zero`.
pub fn conv_backward<T: Scalar>(
    x: &Vec<T>,
    wt: &Vec<T>,
    grad: &Vec<T>,
    s: ConvShape,
    bias_len: usize,
    zero: T,
) -> (res: (Vec<T>, Vec<T>, Vec<T>))
    requires
        arith_total::<T>(),
        s.wf(),
        x.len() == s.spec_input_len(),
        wt.len() == s.spec_weight_len(),
        grad.len() == s.spec_output_len(),
        s.c_out <= bias_len,
    ensures
        res.0.len() == s.spec_input_len(),
        res.1.len() == s.spec_weight_len(),
        res.2.len() == bias_len,
        exact_arith::<T>() ==> res.0@ == input_grad_seq(wt@, grad@, s, zero),
        exact_arith::<T>() ==> res.1@ == weight_grad_seq(x@, grad@, s, zero),
        exact_arith::<T>() ==> res.2@ == bias_grad_seq(grad@, s, bias_len as nat, zero),
{
    // input gradient, one pixel at a time in [n, c_in, h, w] order
    let mut gi: Vec<T> = Vec::new();
    let mut idx: usize = 0;
    while idx < x.len()
        invariant
            arith_total::<T>(),
            s.wf(),
            x.len() == s.spec_input_len(),
            wt.len() == s.spec_weight_len(),
            grad.len() == s.spec_output_len(),
            idx <= x.len(),
            gi.len() == idx,
            exact_arith::<T>() ==> gi@ == input_grad_seq(wt@, grad@, s, zero).take(idx as int),
        decreases x.len() - idx,
    {
        proof {
            let (nc, hw) = ((s.n * s.c_in) as int, (s.h * s.w) as int);
            assert(hw > 0 && nc > 0) by (nonlinear_arith)
                requires
                    0 <= idx < nc * hw,
                    nc >= 0,
                    hw >= 0,
            ;
            lemma_product_parts_fit(nc, hw);
            assert(s.h > 0 && s.w > 0 && s.c_in > 0) by (nonlinear_arith)
                requires
                    hw == s.h * s.w,
                    nc == s.n * s.c_in,
                    hw > 0,
                    nc > 0,
            ;
            lemma_grid3_decode(nc, s.h as int, s.w as int, idx as int);
            lemma_grid2_decode(s.n as int, s.c_in as int, plane_of(idx as int, s.h as int, s.w as int));
        }
        let hw = s.h * s.w;
        let pl = idx / hw;
        let r = idx % hw;
        let v = input_grad_at(wt, grad, s, pl / s.c_in, pl % s.c_in, r / s.w, r % s.w, zero);
        gi.push(v);
        proof {
            if exact_arith::<T>() {
                assert(gi@ =~= input_grad_seq(wt@, grad@, s, zero).take(idx + 1));
            }
        }
        idx = idx + 1;
    }
    // kernel gradient, one weight at a time in [c_out, c_in, k, k] order
    let mut gw: Vec<T> = Vec::new();
    let mut idx: usize = 0;
    while idx < wt.len()
        invariant
            arith_total::<T>(),
            s.wf(),
            x.len() == s.spec_input_len(),
            wt.len() == s.spec_weight_len(),
            grad.len() == s.spec_output_len(),
            idx <= wt.len(),
            gw.len() == idx,
            exact_arith::<T>() ==> gw@ == weight_grad_seq(x@, grad@, s, zero).take(idx as int),
        decreases wt.len() - idx,
    {
        proof {
            let (cc, kk) = ((s.c_out * s.c_in) as int, (s.kernel * s.kernel) as int);
            assert(kk > 0 && cc > 0) by (nonlinear_arith)
                requires
                    0 <= idx < cc * kk,
                    cc >= 0,
                    kk >= 0,
            ;
            lemma_product_parts_fit(cc, kk);
            assert(s.kernel > 0 && s.c_in > 0) by (nonlinear_arith)
                requires
                    kk == s.kernel * s.kernel,
                    cc == s.c_out * s.c_in,
                    kk > 0,
                    cc > 0,
            ;
            lemma_grid3_decode(cc, s.kernel as int, s.kernel as int, idx as int);
            lemma_grid2_decode(s.c_out as int, s.c_in as int, plane_of(idx as int, s.kernel as int, s.kernel as int));
        }
        let kk = s.kernel * s.kernel;
        let pl = idx / kk;
        let r = idx % kk;
        let v = weight_grad_at(x, grad, s, pl / s.c_in, pl % s.c_in, r / s.kernel, r % s.kernel, zero);
        gw.push(v);
        proof {
            if exact_arith::<T>() {
                assert(gw@ =~= weight_grad_seq(x@, grad@, s, zero).take(idx + 1));
            }
        }
        idx = idx + 1;
    }
    // bias gradient
    let mut gb: Vec<T> = Vec::new();
    let mut co: usize = 0;
    while co < bias_len
        invariant
            arith_total::<T>(),
            s.wf(),
            grad.len() == s.spec_output_len(),
            s.c_out <= bias_len,
            co <= bias_len,
            gb.len() == co,
            exact_arith::<T>() ==> gb@ == bias_grad_seq(grad@, s, bias_len as nat, zero).take(co as int),
        decreases bias_len - co,
    {
        let v = if co < s.c_out { bias_grad_at(grad, s, co, zero) } else { zero };
        gb.push(v);
        proof {
            if exact_arith::<T>() {
                assert(gb@ =~= bias_grad_seq(grad@, s, bias_len as nat, zero).take(co + 1));
            }
        }
        co = co + 1;
    }
    proof {
        if exact_arith::<T>() {
            assert(gi@ =~= input_grad_seq(wt@, grad@, s, zero));
            assert(gw@ =~= weight_grad_seq(x@, grad@, s, zero));
            assert(gb@ =~= bias_grad_seq(grad@, s, bias_len as nat, zero));
        }
    }
    (gi, gw, gb)
}

} // verus!
