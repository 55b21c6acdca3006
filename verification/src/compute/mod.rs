//! Numeric building blocks: tensors, element types, kernels and the random generator.
pub mod index;
pub mod conv_grad;
pub mod kernels;
pub mod random;
pub mod scalar;
pub mod tensor;
pub mod outputs;
pub mod wrap64;
