//! Training data.
pub mod datasets;
