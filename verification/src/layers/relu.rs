//! Rectified linear unit.
use vstd::prelude::*;
use crate::compute::kernels::{relu_forward, relu_backward, relu_value, relu_grad_value};
use crate::compute::scalar::{Scalar, exact_order};
use crate::compute::tensor::{Tensor, copy_vec};

verus! {

/// Element-wise `max(x, zero)`; `zero` is the element type's zero.
pub struct ReLU<T> {
    zero: T,
}

/// What the backward pass needs from the forward pass: the input.
pub struct ReLUCache<T> {
    input: Tensor<T>,
}

impl<T: Scalar> ReLUCache<T> {
    pub closed spec fn input(&self) -> Tensor<T> {
        self.input
    }
}

impl<T: Scalar> ReLU<T> {
    pub closed spec fn zero(&self) -> T {
        self.zero
    }

    pub fn new(zero: T) -> (layer: Self)
        ensures
            layer.zero() == zero,
    {
        ReLU { zero }
    }

    /// Replaces every element below zero by zero.
    pub fn forward(&self, input: &Tensor<T>) -> (res: (Tensor<T>, ReLUCache<T>))
        ensures
            res.0.shape@ == input.shape@,
            res.0.data.len() == input.data.len(),
            forall|i: int|
                0 <= i < input.data.len() ==> #[trigger] res.0.data@[i] == input.data@[i]
                    || res.0.data@[i] == self.zero(),
            exact_order::<T>() ==> forall|i: int|
                0 <= i < input.data.len() ==> #[trigger] res.0.data@[i] == relu_value(
                    input.data@[i],
                    self.zero(),
                ),
            res.1.input().data@ == input.data@,
            res.1.input().shape@ == input.shape@,
    {
        let data = relu_forward(&input.data, self.zero);
        let output = Tensor { data, shape: copy_vec(&input.shape) };
        (output, ReLUCache { input: input.duplicate() })
    }

    /// Passes the gradient where the cached input was above zero and blocks it elsewhere.
    pub fn backward(&self, cache: &ReLUCache<T>, grad_output: &Tensor<T>) -> (grad_input: Tensor<T>)
        requires
            grad_output.data.len() <= cache.input().data.len(),
        ensures
            grad_input.shape@ == grad_output.shape@,
            grad_input.data.len() == grad_output.data.len(),
            forall|i: int|
                0 <= i < grad_output.data.len() ==> #[trigger] grad_input.data@[i]
                    == grad_output.data@[i] || grad_input.data@[i] == self.zero(),
            exact_order::<T>() ==> forall|i: int|
                0 <= i < grad_output.data.len() ==> #[trigger] grad_input.data@[i]
                    == relu_grad_value(cache.input().data@[i], grad_output.data@[i], self.zero()),
    {
        let data = relu_backward(&cache.input.data, &grad_output.data, self.zero);
        Tensor { data, shape: copy_vec(&grad_output.shape) }
    }
}

} // verus!
