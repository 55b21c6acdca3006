//! The element types that tensors and layers compute with.
//!
//! Layers are written once for any element type with `+`, `-`, `*`, `/` and a
//! partial order (the network itself runs on `f32`). What the layers compute
//! is stated over the operator specifications that vstd attaches to these
//! traits: results are exact whenever the element type obeys them, and the
//! index bookkeeping (shapes, offsets, which elements are combined) holds for
//! every element type.
use vstd::prelude::*;
use vstd::std_specs::ops::AddSpec;
use vstd::std_specs::ops::SubSpec;
use vstd::std_specs::ops::MulSpec;
use vstd::std_specs::ops::DivSpec;
use vstd::std_specs::cmp::PartialOrdSpec;

verus! {

/// Element type of tensors.
pub trait Scalar: Copy + core::ops::Add<Output = Self> + core::ops::Sub<Output = Self> + core::ops::Mul<
    Output = Self,
> + core::ops::Div<Output = Self> + PartialOrd {

}

impl<T: Copy + core::ops::Add<Output = T> + core::ops::Sub<Output = T> + core::ops::Mul<
    Output = T,
> + core::ops::Div<Output = T> + PartialOrd> Scalar for T {

}

/// `+`, `-`, `*` and `/` may be applied to any pair of elements (as for floating point).
pub open spec fn arith_total<T: Scalar>() -> bool {
    &&& forall|x: T, y: T| #[trigger] x.add_req(y)
    &&& forall|x: T, y: T| #[trigger] x.sub_req(y)
    &&& forall|x: T, y: T| #[trigger] x.mul_req(y)
    &&& forall|x: T, y: T| #[trigger] x.div_req(y)
}

/// `+`, `-`, `*` and `/` compute exactly what their specifications say.
pub open spec fn exact_arith<T: Scalar>() -> bool {
    &&& T::obeys_add_spec()
    &&& T::obeys_sub_spec()
    &&& T::obeys_mul_spec()
    &&& T::obeys_div_spec()
}

/// Comparisons compute exactly what the partial-order specification says.
pub open spec fn exact_order<T: Scalar>() -> bool {
    T::obeys_partial_cmp_spec()
}

} // verus!
