//! Plain stochastic gradient descent.
use vstd::prelude::*;
use vstd::std_specs::ops::SubSpec;
use vstd::std_specs::ops::MulSpec;
use crate::compute::scalar::{Scalar, arith_total, exact_arith};
use crate::compute::tensor::Tensor;

verus! {

/// A trainable tensor together with the gradient computed for it.
pub struct ParamGrad<'a, T> {
    pub param: &'a mut Tensor<T>,
    pub grad: &'a Tensor<T>,
}

impl<'a, T> ParamGrad<'a, T> {
    pub fn new(param: &'a mut Tensor<T>, grad: &'a Tensor<T>) -> (pg: Self)
        ensures
            *pg.param == *old(param),
            *final(param) == *final(pg.param),
            *pg.grad == *grad,
    {
        ParamGrad { param, grad }
    }
}

/// `param - lr * grad`, the SGD update of one element.
pub open spec fn sgd_value<T: Scalar>(param: T, grad: T, lr: T) -> T {
    param.sub_spec(lr.mul_spec(grad))
}

/// SGD with a fixed learning rate.
#[derive(Clone, Copy, Debug)]
pub struct Sgd<T> {
    lr: T,
}

impl<T: Scalar> Sgd<T> {
    pub closed spec fn learning_rate(&self) -> T {
        self.lr
    }

    pub fn new(lr: T) -> (s: Self)
        ensures
            s.learning_rate() == lr,
    {
        Sgd { lr }
    }

    /// Applies `param[i] -= lr * grad[i]` to every element.
    pub fn update(&self, param: &mut Tensor<T>, grad: &Tensor<T>)
        requires
            arith_total::<T>(),
            old(param).shape@ == grad.shape@,
            old(param).data.len() == grad.data.len(),
        ensures
            final(param).shape@ == old(param).shape@,
            final(param).data.len() == old(param).data.len(),
            exact_arith::<T>() ==> forall|i: int|
                0 <= i < grad.data.len() ==> #[trigger] final(param).data@[i] == sgd_value(
                    old(param).data@[i],
                    grad.data@[i],
                    self.learning_rate(),
                ),
    {
        let mut i: usize = 0;
        while i < param.data.len()
            invariant
                arith_total::<T>(),
                i <= param.data.len(),
                param.data.len() == grad.data.len(),
                param.shape@ == old(param).shape@,
                forall|k: int| i <= k < param.data.len() ==> #[trigger] param.data@[k] == old(param).data@[k],
                exact_arith::<T>() ==> forall|k: int|
                    0 <= k < i ==> #[trigger] param.data@[k] == sgd_value(
                        old(param).data@[k],
                        grad.data@[k],
                        self.lr,
                    ),
            decreases grad.data.len() - i,
        {
            let v = param.data[i] - self.lr * grad.data[i];
            param.data.set(i, v);
            i = i + 1;
        }
    }
}


impl<T: Scalar> Sgd<T> {
    /// Applies the update to every parameter in `params`.
    pub fn step<'a>(&self, params: Vec<ParamGrad<'a, T>>)
        requires
            arith_total::<T>(),
            forall|i: int| 0 <= i < params.len() ==> (#[trigger] params@[i]).param.shape@ == params@[i].grad.shape@
                && params@[i].param.data.len() == params@[i].grad.data.len(),
        ensures
            forall|i: int| 0 <= i < params.len() ==> {
                let pg = #[trigger] params@[i];
                &&& final(pg.param).shape@ == pg.param.shape@
                &&& final(pg.param).data.len() == pg.param.data.len()
                &&& exact_arith::<T>() ==> forall|k: int|
                    0 <= k < pg.grad.data.len() ==> #[trigger] final(pg.param).data@[k] == sgd_value(
                        pg.param.data@[k],
                        pg.grad.data@[k],
                        self.learning_rate(),
                    )
            },
    {
        let ghost orig = params@;
        let mut params = params;
        while params.len() > 0
            invariant
                arith_total::<T>(),
                params.len() <= orig.len(),
                params@ == orig.take(params.len() as int),
                forall|i: int| 0 <= i < orig.len() ==> (#[trigger] orig[i]).param.shape@ == orig[i].grad.shape@
                    && orig[i].param.data.len() == orig[i].grad.data.len(),
                forall|i: int| params.len() <= i < orig.len() ==> {
                    let pg = #[trigger] orig[i];
                    &&& final(pg.param).shape@ == pg.param.shape@
                    &&& final(pg.param).data.len() == pg.param.data.len()
                    &&& exact_arith::<T>() ==> forall|k: int|
                        0 <= k < pg.grad.data.len() ==> #[trigger] final(pg.param).data@[k] == sgd_value(
                            pg.param.data@[k],
                            pg.grad.data@[k],
                            self.learning_rate(),
                        )
                },
            decreases params.len(),
        {
            let pg = params.pop().unwrap();
            proof {
                assert(pg == orig[params.len() as int]);
            }
            self.update(pg.param, pg.grad);
        }
    }
}

} // verus!
