//! Layers with explicit forward caches: convolution, fully connected, ReLU and max pooling.
pub mod conv;
pub mod dense;
pub mod maxpool;
pub mod relu;
