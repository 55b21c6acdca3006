//! 2x2 max pooling with stride 2.
use vstd::prelude::*;
use crate::compute::kernels::{maxpool_forward, scatter_add_into_zeros, scatter_add, pool_cell, pool_cell_in_window, grid3};
use crate::compute::scalar::{Scalar, arith_total, exact_arith, exact_order};
use crate::compute::tensor::{Tensor, shape_product, shape_numel, lemma_shape4, shape_vec4, copy_vec};

verus! {

/// Keeps the largest element of every 2x2 window of each `[h, w]` plane.
///
/// `lowest` is where each window's scan starts (negative infinity for floating point);
/// `zero` fills the gradient where no window maximum was taken.
pub struct MaxPool2x2<T> {
    lowest: T,
    zero: T,
}

/// What the backward pass needs: where each output came from, and the input shape.
pub struct MaxPool2x2Cache {
    max_indices: Vec<usize>,
    input_shape: Vec<usize>,
}

impl MaxPool2x2Cache {
    pub closed spec fn max_indices(&self) -> Seq<usize> {
        self.max_indices@
    }

    pub closed spec fn input_shape(&self) -> Seq<usize> {
        self.input_shape@
    }

    /// Every recorded offset lies inside an input of the recorded shape.
    pub open spec fn wf(&self) -> bool {
        &&& crate::compute::tensor::shape_fits(self.input_shape())
        &&& forall|o: int|
            0 <= o < self.max_indices().len() ==> #[trigger] self.max_indices()[o] < shape_product(
                self.input_shape(),
            )
    }
}

impl<T: Scalar> MaxPool2x2<T> {
    pub closed spec fn lowest(&self) -> T {
        self.lowest
    }

    pub closed spec fn zero(&self) -> T {
        self.zero
    }

    pub fn new(lowest: T, zero: T) -> (layer: Self)
        ensures
            layer.lowest() == lowest,
            layer.zero() == zero,
    {
        MaxPool2x2 { lowest, zero }
    }

    /// Pools a `[n, c, h, w]` batch into `[n, c, h / 2, w / 2]`.
    pub fn forward(&self, input: &Tensor<T>) -> (res: (Tensor<T>, MaxPool2x2Cache))
        requires
            input.wf(),
            input.shape.len() == 4,
        ensures
            ({
                let n = input.shape@[0];
                let c = input.shape@[1];
                let h = input.shape@[2];
                let w = input.shape@[3];
                let planes = n * c;
                &&& res.0.wf()
                &&& res.0.shape@ == seq![n, c, h / 2, w / 2]
                &&& res.1.wf()
                &&& res.1.input_shape() == input.shape@
                &&& res.1.max_indices().len() == res.0.data.len()
                &&& forall|p: int, i: int, j: int|
                    0 <= p < planes && 0 <= i < h / 2 && 0 <= j < w / 2 ==> #[trigger] pool_cell_in_window(
                        input.data@,
                        h as int,
                        w as int,
                        self.lowest(),
                        p,
                        i,
                        j,
                        res.0.data@[grid3((h / 2) as int, (w / 2) as int, p, i, j)],
                        res.1.max_indices()[grid3((h / 2) as int, (w / 2) as int, p, i, j)],
                    )
                &&& exact_order::<T>() ==> forall|p: int, i: int, j: int|
                    0 <= p < planes && 0 <= i < h / 2 && 0 <= j < w / 2 ==> (res.0.data@[grid3(
                        (h / 2) as int,
                        (w / 2) as int,
                        p,
                        i,
                        j,
                    )], res.1.max_indices()[grid3((h / 2) as int, (w / 2) as int, p, i, j)])
                        == #[trigger] pool_cell(input.data@, h as int, w as int, self.lowest(), p, i, j)
            }),
    {
        let n = input.shape[0];
        let c = input.shape[1];
        let h = input.shape[2];
        let w = input.shape[3];
        proof {
            assert(input.shape@ =~= seq![n, c, h, w]);
            lemma_shape4(n, c, h, w);
            lemma_shape4(n, c, h / 2, w / 2);
            crate::compute::index::lemma_mul_mono((h / 2) as int, h as int, (w / 2) as int);
            crate::compute::index::lemma_mul_mono((w / 2) as int, w as int, h as int);
            crate::compute::index::lemma_mul_mono(((h / 2) * (w / 2)) as int, (h * w) as int, (n * c) as int);
            crate::compute::index::lemma_mul_mono((h / 2) as int, h as int, (n * c) as int);
            assert((n * c) * (h / 2) == n * c * (h / 2));
            assert((n * c) * h == n * c * h);
        }
        let planes = n * c;
        let (data, max_indices) = maxpool_forward(&input.data, planes, h, w, self.lowest);
        let output = Tensor::from_data(data, shape_vec4(n, c, h / 2, w / 2));
        (output, MaxPool2x2Cache { max_indices, input_shape: copy_vec(&input.shape) })
    }

    /// Sends each output gradient to the input element that was the window maximum.
    pub fn backward(&self, cache: &MaxPool2x2Cache, grad_output: &Tensor<T>) -> (grad_input: Tensor<T>)
        requires
            arith_total::<T>(),
            cache.wf(),
            cache.max_indices().len() <= grad_output.data.len(),
        ensures
            grad_input.wf(),
            grad_input.shape@ == cache.input_shape(),
            forall|k: int|
                0 <= k < grad_input.data.len() && !cache.max_indices().contains(k as usize)
                    ==> #[trigger] grad_input.data@[k] == self.zero(),
            exact_arith::<T>() ==> grad_input.data@ == scatter_add(
                Seq::new(shape_product(cache.input_shape()) as nat, |_i: int| self.zero()),
                cache.max_indices(),
                grad_output.data@,
                cache.max_indices().len() as nat,
            ),
    {
        let len = shape_numel(&cache.input_shape);
        let data = scatter_add_into_zeros(len, &cache.max_indices, &grad_output.data, self.zero);
        Tensor::from_data(data, copy_vec(&cache.input_shape))
    }
}

} // verus!
