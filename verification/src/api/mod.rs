//! The HTTP API's plain data and the checks it applies to requests.
pub mod gpu;
pub mod image_util;
pub mod paths;
pub mod types;
