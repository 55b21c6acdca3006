//! Batched 2-D convolution layer.
use vstd::prelude::*;
use crate::compute::conv_grad::{conv_backward, input_grad_seq, weight_grad_seq, bias_grad_seq};
use crate::compute::kernels::{ConvShape, conv_forward, conv_value, conv_output_offset};
use crate::compute::scalar::{Scalar, arith_total, exact_arith};
use crate::compute::tensor::{Tensor, shape_product, lemma_shape1, lemma_shape4, shape_vec1, shape_vec4, copy_vec};
use crate::training::optimizer::ParamGrad;

verus! {

struct Conv2DParams<T> {
    weights: Tensor<T>,
    bias: Tensor<T>,
}

struct Conv2DGrads<T> {
    weights: Tensor<T>,
    bias: Tensor<T>,
}

/// A convolution with `[c_out, c_in, k, k]` weights, one bias per output channel and zero
/// padding on every side; it keeps the gradients of its last backward pass.
pub struct Conv2D<T> {
    params: Conv2DParams<T>,
    grads: Conv2DGrads<T>,
    padding: usize,
    zero: T,
}

/// What the backward pass needs from the forward pass: the input.
pub struct Conv2DCache<T> {
    input: Tensor<T>,
}

impl<T: Scalar> Conv2DCache<T> {
    pub closed spec fn input(&self) -> Tensor<T> {
        self.input
    }
}

impl<T: Scalar> Conv2D<T> {
    pub closed spec fn weights(&self) -> Tensor<T> {
        self.params.weights
    }

    pub closed spec fn bias(&self) -> Tensor<T> {
        self.params.bias
    }

    pub closed spec fn weight_grad(&self) -> Tensor<T> {
        self.grads.weights
    }

    pub closed spec fn bias_grad(&self) -> Tensor<T> {
        self.grads.bias
    }

    pub closed spec fn padding(&self) -> usize {
        self.padding
    }

    pub closed spec fn zero(&self) -> T {
        self.zero
    }

    pub open spec fn c_out(&self) -> usize {
        self.weights().shape@[0]
    }

    pub open spec fn c_in(&self) -> usize {
        self.weights().shape@[1]
    }

    pub open spec fn kernel(&self) -> usize {
        self.weights().shape@[2]
    }

    /// Weights are `[c_out, c_in, k, k]`, the bias is `[c_out]`, and the gradients have the
    /// shapes of the parameters they belong to.
    pub open spec fn wf(&self) -> bool {
        &&& self.weights().wf()
        &&& self.weights().shape.len() == 4
        &&& self.weights().shape@[3] == self.weights().shape@[2]
        &&& self.bias().wf()
        &&& self.bias().shape@ == seq![self.c_out()]
        &&& self.weight_grad().shape@ == self.weights().shape@
        &&& self.weight_grad().data.len() == self.weights().data.len()
        &&& self.bias_grad().shape@ == self.bias().shape@
        &&& self.bias_grad().data.len() == self.bias().data.len()
    }

    /// Convolution dimensions for an input of shape `[n, c_in, h, w]`.
    pub open spec fn shape_for(&self, input_shape: Seq<usize>) -> ConvShape {
        ConvShape {
            n: input_shape[0],
            c_in: input_shape[1],
            h: input_shape[2],
            w: input_shape[3],
            c_out: self.c_out(),
            h_out: (input_shape[2] + 2 * self.padding() - self.kernel() + 1) as usize,
            w_out: (input_shape[3] + 2 * self.padding() - self.kernel() + 1) as usize,
            kernel: self.kernel(),
            padding: self.padding(),
        }
    }

    /// The layer accepts this input: `[n, c_in, h, w]` with an output that fits in memory.
    pub open spec fn accepts(&self, input: &Tensor<T>) -> bool {
        &&& input.wf()
        &&& input.shape.len() == 4
        &&& input.shape@[1] == self.c_in()
        &&& self.shape_for(input.shape@).wf()
    }

    /// A layer with the given initial weights, zero bias and zero gradients.
    pub fn new(c_in: usize, c_out: usize, k: usize, padding: usize, weights: Tensor<T>, zero: T) -> (layer: Self)
        requires
            weights.wf(),
            weights.shape@ == seq![c_out, c_in, k, k],
        ensures
            layer.wf(),
            layer.weights().data@ == weights.data@,
            layer.weights().shape@ == weights.shape@,
            layer.bias().data@ == Seq::new(c_out as nat, |_i: int| zero),
            layer.padding() == padding,
            layer.zero() == zero,
    {
        proof {
            lemma_shape1(c_out);
        }
        let bias = Tensor::zeros(shape_vec1(c_out), zero);
        let grad_w = Tensor::zeros(shape_vec4(c_out, c_in, k, k), zero);
        let grad_b = Tensor::zeros(shape_vec1(c_out), zero);
        Conv2D {
            params: Conv2DParams { weights, bias },
            grads: Conv2DGrads { weights: grad_w, bias: grad_b },
            padding,
            zero,
        }
    }

    /// Convolves a `[n, c_in, h, w]` batch into `[n, c_out, h_out, w_out]`.
    pub fn forward(&self, input: &Tensor<T>) -> (res: (Tensor<T>, Conv2DCache<T>))
        requires
            arith_total::<T>(),
            self.wf(),
            self.accepts(input),
        ensures
            ({
                let s = self.shape_for(input.shape@);
                &&& res.0.wf()
                &&& res.0.shape@ == seq![s.n, s.c_out, s.h_out, s.w_out]
                &&& exact_arith::<T>() ==> forall|b: int, co: int, i: int, j: int|
                    0 <= b < s.n && 0 <= co < s.c_out && 0 <= i < s.h_out && 0 <= j < s.w_out
                        ==> res.0.data@[conv_output_offset(s, b, co, i, j)] == #[trigger] conv_value(
                        input.data@,
                        self.weights().data@,
                        self.bias().data@,
                        s,
                        b,
                        co,
                        i,
                        j,
                    )
            }),
            res.1.input().data@ == input.data@,
            res.1.input().shape@ == input.shape@,
    {
        let s = ConvShape {
            n: input.shape[0],
            c_in: input.shape[1],
            h: input.shape[2],
            w: input.shape[3],
            c_out: self.params.weights.shape[0],
            h_out: input.shape[2] + 2 * self.padding - self.params.weights.shape[2] + 1,
            w_out: input.shape[3] + 2 * self.padding - self.params.weights.shape[2] + 1,
            kernel: self.params.weights.shape[2],
            padding: self.padding,
        };
        proof {
            assert(input.shape@ =~= seq![s.n, s.c_in, s.h, s.w]);
            assert(self.weights().shape@ =~= seq![s.c_out, s.c_in, s.kernel, s.kernel]);
            lemma_shape4(s.n, s.c_in, s.h, s.w);
            lemma_shape4(s.c_out, s.c_in, s.kernel, s.kernel);
            lemma_shape4(s.n, s.c_out, s.h_out, s.w_out);
            lemma_shape1(s.c_out);
        }
        let data = conv_forward(&input.data, &self.params.weights.data, &self.params.bias.data, s);
        let output = Tensor::from_data(data, shape_vec4(s.n, s.c_out, s.h_out, s.w_out));
        (output, Conv2DCache { input: input.duplicate() })
    }

    /// Back-propagates `grad_output` through the layer: stores the weight and bias gradients
    /// and returns the gradient with respect to the cached input.
    pub fn backward(&mut self, cache: &Conv2DCache<T>, grad_output: &Tensor<T>) -> (grad_input: Tensor<T>)
        requires
            arith_total::<T>(),
            old(self).wf(),
            old(self).accepts(&cache.input()),
            grad_output.data.len() == old(self).shape_for(cache.input().shape@).spec_output_len(),
        ensures
            final(self).wf(),
            final(self).weights() == old(self).weights(),
            final(self).bias() == old(self).bias(),
            final(self).padding() == old(self).padding(),
            final(self).zero() == old(self).zero(),
            grad_input.wf(),
            grad_input.shape@ == cache.input().shape@,
            exact_arith::<T>() ==> grad_input.data@ == input_grad_seq(
                old(self).weights().data@,
                grad_output.data@,
                old(self).shape_for(cache.input().shape@),
                old(self).zero(),
            ),
            exact_arith::<T>() ==> final(self).weight_grad().data@ == weight_grad_seq(
                cache.input().data@,
                grad_output.data@,
                old(self).shape_for(cache.input().shape@),
                old(self).zero(),
            ),
            exact_arith::<T>() ==> final(self).bias_grad().data@ == bias_grad_seq(
                grad_output.data@,
                old(self).shape_for(cache.input().shape@),
                old(self).c_out() as nat,
                old(self).zero(),
            ),
    {
        let input = &cache.input;
        let s = ConvShape {
            n: input.shape[0],
            c_in: input.shape[1],
            h: input.shape[2],
            w: input.shape[3],
            c_out: self.params.weights.shape[0],
            h_out: input.shape[2] + 2 * self.padding - self.params.weights.shape[2] + 1,
            w_out: input.shape[3] + 2 * self.padding - self.params.weights.shape[2] + 1,
            kernel: self.params.weights.shape[2],
            padding: self.padding,
        };
        proof {
            assert(input.shape@ =~= seq![s.n, s.c_in, s.h, s.w]);
            assert(self.weights().shape@ =~= seq![s.c_out, s.c_in, s.kernel, s.kernel]);
            lemma_shape4(s.n, s.c_in, s.h, s.w);
            lemma_shape4(s.c_out, s.c_in, s.kernel, s.kernel);
            lemma_shape1(s.c_out);
        }
        let (gi, gw, gb) = conv_backward(
            &input.data,
            &self.params.weights.data,
            &grad_output.data,
            s,
            self.params.bias.data.len(),
            self.zero,
        );
        self.grads.weights.data = gw;
        self.grads.bias.data = gb;
        Tensor::from_data(gi, copy_vec(&input.shape))
    }

    /// The weights and the bias, each paired with its gradient, for an optimizer step.
    pub fn trainable_parameters_mut(&mut self) -> (params: [ParamGrad<'_, T>; 2])
        ensures
            *params[0].param == old(self).weights(),
            *params[0].grad == old(self).weight_grad(),
            *params[1].param == old(self).bias(),
            *params[1].grad == old(self).bias_grad(),
            final(self).weights() == *final(params[0].param),
            final(self).bias() == *final(params[1].param),
            final(self).weight_grad() == old(self).weight_grad(),
            final(self).bias_grad() == old(self).bias_grad(),
            final(self).padding() == old(self).padding(),
            final(self).zero() == old(self).zero(),
    {
        [
            ParamGrad::new(&mut self.params.weights, &self.grads.weights),
            ParamGrad::new(&mut self.params.bias, &self.grads.bias),
        ]
    }
}

} // verus!
