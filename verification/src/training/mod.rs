//! Training: optimizer, computation graph, losses, network and training loop.
pub mod graph;
pub mod loss;
pub mod optimizer;
pub mod trainer;
pub mod network;
pub mod checkpoint;
pub mod capacity;
