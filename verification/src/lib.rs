//! A small convolutional network library for CIFAR-10 style image classification.
pub mod compute;
pub mod config;
pub mod training;
pub mod layers;
pub mod data;
pub mod api;
