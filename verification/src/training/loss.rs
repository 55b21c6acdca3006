//! Classification read-outs and the gradient of the softmax cross-entropy loss.
//!
//! The softmax and logarithm themselves are floating-point functions and are
//! computed by the caller; what is here works for any element type.
use vstd::prelude::*;
use vstd::std_specs::ops::SubSpec;
use vstd::std_specs::ops::MulSpec;
use vstd::std_specs::ops::DivSpec;
use crate::compute::kernels::{argmax_in, argmax_rows, argmax_prefix, scan_comparable};
use crate::compute::scalar::{Scalar, arith_total, exact_arith, exact_order};
use crate::compute::tensor::{Tensor, copy_vec, lemma_shape2};
use crate::compute::index::lemma_offset_in_grid;

verus! {

/// Index of the largest element of a non-empty tensor (the last one on ties). Every
/// comparison the scan makes must have an answer (for floating point: no NaN met).
pub fn argmax<T: Scalar>(t: &Tensor<T>) -> (r: usize)
    requires
        t.data.len() >= 1,
        scan_comparable(t.data@, 0, t.data.len() as nat),
    ensures
        r < t.data.len(),
        exact_order::<T>() ==> r == argmax_prefix(t.data@, 0, t.data.len() as nat),
{
    argmax_in(&t.data, 0, t.data.len())
}

/// Per-row argmax of a `[n, classes]` tensor. Every comparison the scan of a row makes must
/// have an answer (for floating point: no NaN met).
pub fn argmax_batch<T: Scalar>(probs: &Tensor<T>) -> (r: Vec<usize>)
    requires
        probs.wf(),
        probs.shape.len() == 2,
        probs.shape@[0] > 0 ==> probs.shape@[1] > 0,
        forall|b: int|
            0 <= b < probs.shape@[0] ==> scan_comparable(
                probs.data@,
                #[trigger] (b * probs.shape@[1]),
                probs.shape@[1] as nat,
            ),
    ensures
        r.len() == probs.shape@[0],
        forall|b: int| 0 <= b < r.len() ==> #[trigger] r@[b] < probs.shape@[1],
        exact_order::<T>() ==> forall|b: int|
            0 <= b < r.len() ==> #[trigger] r@[b] == argmax_prefix(
                probs.data@,
                b * probs.shape@[1],
                probs.shape@[1] as nat,
            ),
{
    let n = probs.shape[0];
    let classes = probs.shape[1];
    proof {
        assert(probs.shape@ =~= seq![n, classes]);
        lemma_shape2(n, classes);
    }
    argmax_rows(&probs.data, n, classes)
}

/// Gradient of the mean softmax cross-entropy with respect to the logits, element `k` of
/// row `b`: `(probs[k] - [class of k is targets[b]] * one) * (one / batch_size)`.
pub open spec fn softmax_ce_grad_value<T: Scalar>(
    probs: Seq<T>,
    targets: Seq<usize>,
    classes: int,
    one: T,
    batch_size: T,
    k: int,
) -> T {
    let b = k / classes;
    let c = k % classes;
    let p = if b < targets.len() && c == targets[b] as int {
        probs[k].sub_spec(one)
    } else {
        probs[k]
    };
    p.mul_spec(one.div_spec(batch_size))
}

/// `probs[k]` with `one` subtracted where `k` is the target position of one of the first
/// `rows` rows.
pub open spec fn target_marked<T: Scalar>(probs: Seq<T>, targets: Seq<usize>, classes: int, one: T, rows: int, k: int) -> T {
    if k / classes < rows && k % classes == targets[k / classes] as int {
        probs[k].sub_spec(one)
    } else {
        probs[k]
    }
}

/// `probs[k]` with `one` subtracted at every row's target position, times `scale`.
pub open spec fn scaled_target_grad<T: Scalar>(probs: Seq<T>, targets: Seq<usize>, classes: int, one: T, scale: T) -> Seq<
    T,
> {
    Seq::new(probs.len(), |k: int| target_marked(probs, targets, classes, one, targets.len() as int, k).mul_spec(scale))
}

/// The probabilities of a `[n, classes]` tensor with `one` subtracted at every row's target
/// class, all multiplied by `scale`.
pub fn scaled_ce_grad<T: Scalar>(probs: &Tensor<T>, targets: &[usize], one: T, scale: T) -> (grad: Tensor<T>)
    requires
        arith_total::<T>(),
        probs.wf(),
        probs.shape.len() == 2,
        targets@.len() == probs.shape@[0],
        forall|b: int| 0 <= b < targets@.len() ==> #[trigger] targets@[b] < probs.shape@[1],
    ensures
        grad.wf(),
        grad.shape@ == probs.shape@,
        grad.data.len() == probs.data.len(),
        exact_arith::<T>() ==> grad.data@ == scaled_target_grad(
            probs.data@,
            targets@,
            probs.shape@[1] as int,
            one,
            scale,
        ),
{
    let n = probs.shape[0];
    let classes = probs.shape[1];
    proof {
        assert(probs.shape@ =~= seq![n, classes]);
        lemma_shape2(n, classes);
    }
    let mut data = copy_vec(&probs.data);
    let mut b: usize = 0;
    while b < targets.len()
        invariant
            arith_total::<T>(),
            b <= targets.len(),
            targets@.len() == n,
            data.len() == probs.data.len(),
            probs.data.len() == n * classes,
            forall|q: int| 0 <= q < targets@.len() ==> #[trigger] targets@[q] < classes,
            exact_arith::<T>() ==> forall|k: int|
                0 <= k < data.len() ==> #[trigger] data@[k] == target_marked(probs.data@, targets@, classes as int, one, b as int, k),
        decreases targets.len() - b,
    {
        let t = targets[b];
        proof {
            lemma_offset_in_grid(b as int, t as int, n as int, classes as int);
        }
        let k = b * classes + t;
        let v = data[k] - one;
        let ghost d0 = data@;
        data.set(k, v);
        proof {
            if exact_arith::<T>() {
                assert forall|q: int| 0 <= q < data.len() implies #[trigger] data@[q] == target_marked(probs.data@, targets@, classes as int, one, b + 1, q) by {
                    lemma_row_col(q, classes as int, n as int);
                    lemma_row_col(k as int, classes as int, n as int);
                    vstd::arithmetic::div_mod::lemma_fundamental_div_mod_converse(
                        k as int,
                        classes as int,
                        b as int,
                        t as int,
                    );
                    if q != k as int {
                        assert(data@[q] == d0[q]);
                        if q / (classes as int) == b as int && q % (classes as int) == t as int {
                            assert(q == (q / (classes as int)) * classes + q % (classes as int));
                        }
                    }
                }
            }
        }
        b = b + 1;
    }
    let ghost d1 = data@;
    let mut k: usize = 0;
    while k < data.len()
        invariant
            arith_total::<T>(),
            k <= data.len(),
            data.len() == d1.len(),
            forall|q: int| k <= q < data.len() ==> #[trigger] data@[q] == d1[q],
            exact_arith::<T>() ==> forall|q: int| 0 <= q < k ==> #[trigger] data@[q] == d1[q].mul_spec(scale),
        decreases data.len() - k,
    {
        let v = data[k] * scale;
        data.set(k, v);
        k = k + 1;
    }
    proof {
        if exact_arith::<T>() {
            assert(data@ =~= scaled_target_grad(probs.data@, targets@, classes as int, one, scale));
        }
    }
    Tensor::from_data(data, copy_vec(&probs.shape))
}

/// Gradient of the mean softmax cross-entropy over a `[n, classes]` batch of probabilities.
/// `one` is the element type's one and `batch_size` is `n` in the element type.
pub fn softmax_ce_grad_batch<T: Scalar>(probs: &Tensor<T>, targets: &[usize], one: T, batch_size: T) -> (grad: Tensor<T>)
    requires
        arith_total::<T>(),
        probs.wf(),
        probs.shape.len() == 2,
        targets@.len() == probs.shape@[0],
        forall|b: int| 0 <= b < targets@.len() ==> #[trigger] targets@[b] < probs.shape@[1],
    ensures
        grad.wf(),
        grad.shape@ == probs.shape@,
        exact_arith::<T>() ==> forall|k: int|
            0 <= k < grad.data.len() ==> #[trigger] grad.data@[k] == softmax_ce_grad_value(
                probs.data@,
                targets@,
                probs.shape@[1] as int,
                one,
                batch_size,
                k,
            ),
{
    let scale = one / batch_size;
    let grad = scaled_ce_grad(probs, targets, one, scale);
    proof {
        if exact_arith::<T>() {
            let n = probs.shape@[0];
            let classes = probs.shape@[1];
            assert(probs.shape@ =~= seq![n, classes]);
            lemma_shape2(n, classes);
            assert forall|q: int| 0 <= q < grad.data.len() implies #[trigger] grad.data@[q] == softmax_ce_grad_value(
                probs.data@,
                targets@,
                classes as int,
                one,
                batch_size,
                q,
            ) by {
                lemma_row_col(q, classes as int, n as int);
            }
        }
    }
    grad
}

/// Row and column of offset `k` in a `rows x cols` grid.
proof fn lemma_row_col(k: int, cols: int, rows: int)
    requires
        0 <= k < rows * cols,
        0 <= rows,
    ensures
        cols > 0,
        0 <= k / cols < rows,
        0 <= k % cols < cols,
        k == (k / cols) * cols + k % cols,
{
    if cols <= 0 {
        assert(rows * cols <= 0) by (nonlinear_arith)
            requires
                cols <= 0,
                0 <= rows,
        ;
    }
    vstd::arithmetic::div_mod::lemma_fundamental_div_mod(k, cols);
    assert(cols * (k / cols) == (k / cols) * cols) by (nonlinear_arith);
    vstd::arithmetic::div_mod::lemma_div_pos_is_pos(k, cols);
    vstd::arithmetic::div_mod::lemma_mod_pos_bound(k, cols);
    if k / cols >= rows {
        assert((k / cols) * cols >= rows * cols) by (nonlinear_arith)
            requires
                k / cols >= rows,
                cols > 0,
        ;
    }
}

} // verus!
