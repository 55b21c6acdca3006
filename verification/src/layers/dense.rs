//! Fully connected layer over a batch of feature rows.
use vstd::prelude::*;
use crate::compute::kernels::{linear_forward, linear_backward, linear_value, linear_input_grad, linear_weight_grad, linear_bias_grad, cell};
use crate::compute::scalar::{Scalar, arith_total, exact_arith};
use crate::compute::tensor::{Tensor, shape_product, lemma_shape1, lemma_shape2, shape_vec1, shape_vec2, copy_vec};
use crate::training::optimizer::ParamGrad;

verus! {

struct DenseParams<T> {
    weights: Tensor<T>,
    bias: Tensor<T>,
}

struct DenseGrads<T> {
    weights: Tensor<T>,
    bias: Tensor<T>,
}

/// `y = W x + b` with `[out_features, in_features]` weights; it keeps the gradients of its
/// last backward pass.
pub struct Dense<T> {
    params: DenseParams<T>,
    grads: DenseGrads<T>,
    zero: T,
}

/// What the backward pass needs from the forward pass: the input.
pub struct DenseCache<T> {
    input: Tensor<T>,
}

impl<T: Scalar> DenseCache<T> {
    pub closed spec fn input(&self) -> Tensor<T> {
        self.input
    }
}

impl<T: Scalar> Dense<T> {
    pub closed spec fn weights(&self) -> Tensor<T> {
        self.params.weights
    }

    pub closed spec fn bias(&self) -> Tensor<T> {
        self.params.bias
    }

    pub closed spec fn weight_grad(&self) -> Tensor<T> {
        self.grads.weights
    }

    pub closed spec fn bias_grad(&self) -> Tensor<T> {
        self.grads.bias
    }

    pub closed spec fn zero(&self) -> T {
        self.zero
    }

    pub open spec fn out_features(&self) -> usize {
        self.weights().shape@[0]
    }

    pub open spec fn in_features(&self) -> usize {
        self.weights().shape@[1]
    }

    /// Weights are `[out, in]`, the bias is `[out]`, gradients have the parameters' shapes.
    pub open spec fn wf(&self) -> bool {
        &&& self.weights().wf()
        &&& self.weights().shape.len() == 2
        &&& self.bias().wf()
        &&& self.bias().shape@ == seq![self.out_features()]
        &&& self.weight_grad().shape@ == self.weights().shape@
        &&& self.weight_grad().data.len() == self.weights().data.len()
        &&& self.bias_grad().shape@ == self.bias().shape@
        &&& self.bias_grad().data.len() == self.bias().data.len()
    }

    /// The layer accepts a `[n, in_features]` batch whose `[n, out_features]` output fits.
    pub open spec fn accepts(&self, input: &Tensor<T>) -> bool {
        &&& input.wf()
        &&& input.shape.len() == 2
        &&& input.shape@[1] == self.in_features()
        &&& input.shape@[0] * self.out_features() <= usize::MAX
    }

    /// A layer with the given initial weights, zero bias and zero gradients.
    pub fn new(in_features: usize, out_features: usize, weights: Tensor<T>, zero: T) -> (layer: Self)
        requires
            weights.wf(),
            weights.shape@ == seq![out_features, in_features],
        ensures
            layer.wf(),
            layer.weights().data@ == weights.data@,
            layer.weights().shape@ == weights.shape@,
            layer.bias().data@ == Seq::new(out_features as nat, |_i: int| zero),
            layer.zero() == zero,
    {
        proof {
            lemma_shape1(out_features);
            lemma_shape2(out_features, in_features);
        }
        Dense {
            params: DenseParams { weights, bias: Tensor::zeros(shape_vec1(out_features), zero) },
            grads: DenseGrads {
                weights: Tensor::zeros(shape_vec2(out_features, in_features), zero),
                bias: Tensor::zeros(shape_vec1(out_features), zero),
            },
            zero,
        }
    }

    /// Maps a `[n, in]` batch to `[n, out]`.
    pub fn forward(&self, input: &Tensor<T>) -> (res: (Tensor<T>, DenseCache<T>))
        requires
            arith_total::<T>(),
            self.wf(),
            self.accepts(input),
        ensures
            res.0.wf(),
            res.0.shape@ == seq![input.shape@[0], self.out_features()],
            exact_arith::<T>() ==> forall|row: int, o: int|
                0 <= row < input.shape@[0] && 0 <= o < self.out_features() ==> res.0.data@[row
                    * self.out_features() + o] == #[trigger] linear_value(
                    input.data@,
                    self.weights().data@,
                    self.bias().data@,
                    self.in_features() as int,
                    row,
                    o,
                ),
            res.1.input().data@ == input.data@,
            res.1.input().shape@ == input.shape@,
    {
        let n = input.shape[0];
        let in_f = self.params.weights.shape[1];
        let out_f = self.params.weights.shape[0];
        proof {
            assert(input.shape@ =~= seq![n, in_f]);
            assert(self.weights().shape@ =~= seq![out_f, in_f]);
            lemma_shape2(n, in_f);
            lemma_shape2(out_f, in_f);
            lemma_shape2(n, out_f);
            lemma_shape1(out_f);
        }
        let data = linear_forward(&input.data, &self.params.weights.data, &self.params.bias.data, n, in_f, out_f);
        let output = Tensor::from_data(data, shape_vec2(n, out_f));
        (output, DenseCache { input: input.duplicate() })
    }

    /// Stores the gradients of weights and bias for `grad_output` and returns the gradient
    /// with respect to the cached input.
    pub fn backward(&mut self, cache: &DenseCache<T>, grad_output: &Tensor<T>) -> (grad_input: Tensor<T>)
        requires
            arith_total::<T>(),
            old(self).wf(),
            old(self).accepts(&cache.input()),
            grad_output.data.len() == cache.input().shape@[0] * old(self).out_features(),
        ensures
            final(self).wf(),
            final(self).weights() == old(self).weights(),
            final(self).bias() == old(self).bias(),
            final(self).zero() == old(self).zero(),
            grad_input.wf(),
            grad_input.shape@ == cache.input().shape@,
            ({
                let n = cache.input().shape@[0] as int;
                let in_f = old(self).in_features() as int;
                let out_f = old(self).out_features() as int;
                let x = cache.input().data@;
                let w = old(self).weights().data@;
                let g = grad_output.data@;
                let z = old(self).zero();
                exact_arith::<T>() ==> {
                    &&& forall|b: int, j: int|
                        0 <= b < n && 0 <= j < in_f ==> #[trigger] cell(grad_input.data@, b, j, in_f)
                            == linear_input_grad(w, g, in_f, out_f, b, j, out_f as nat, z)
                    &&& forall|o: int, j: int|
                        0 <= o < out_f && 0 <= j < in_f ==> #[trigger] cell(
                            final(self).weight_grad().data@,
                            o,
                            j,
                            in_f,
                        ) == linear_weight_grad(x, g, in_f, out_f, o, j, n as nat, z)
                    &&& forall|o: int|
                        0 <= o < out_f ==> #[trigger] final(self).bias_grad().data@[o]
                            == linear_bias_grad(g, out_f, o, n as nat, z)
                }
            }),
    {
        let input = &cache.input;
        let n = input.shape[0];
        let in_f = self.params.weights.shape[1];
        let out_f = self.params.weights.shape[0];
        proof {
            assert(input.shape@ =~= seq![n, in_f]);
            assert(self.weights().shape@ =~= seq![out_f, in_f]);
            lemma_shape2(n, in_f);
            lemma_shape2(out_f, in_f);
            lemma_shape1(out_f);
        }
        let (gi, gw, gb) = linear_backward(
            &input.data,
            &self.params.weights.data,
            &grad_output.data,
            n,
            in_f,
            out_f,
            self.params.bias.data.len(),
            self.zero,
        );
        self.grads.weights.data = gw;
        self.grads.bias.data = gb;
        Tensor::from_data(gi, copy_vec(&input.shape))
    }

    /// The weights and the bias, each paired with its gradient, for an optimizer step.
    pub fn trainable_parameters_mut(&mut self) -> (params: [ParamGrad<'_, T>; 2])
        ensures
            *params[0].param == old(self).weights(),
            *params[0].grad == old(self).weight_grad(),
            *params[1].param == old(self).bias(),
            *params[1].grad == old(self).bias_grad(),
            final(self).weights() == *final(params[0].param),
            final(self).bias() == *final(params[1].param),
            final(self).weight_grad() == old(self).weight_grad(),
            final(self).bias_grad() == old(self).bias_grad(),
            final(self).zero() == old(self).zero(),
    {
        [
            ParamGrad::new(&mut self.params.weights, &self.grads.weights),
            ParamGrad::new(&mut self.params.bias, &self.grads.bias),
        ]
    }
}

} // verus!
