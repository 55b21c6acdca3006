//! Request and response bodies of the HTTP API, and what the API reports about the model.
use vstd::prelude::*;
use crate::config::ModelConfig;
use crate::compute::tensor::shape_product;
use crate::training::network::{Backend, param_shapes, config_ok};

verus! {

/// Backend as named in requests and responses.
#[derive(Clone, Copy, Debug, PartialEq, Eq, Structural)]
pub enum ApiBackend {
    Cpu,
    Gpu,
}

impl From<ApiBackend> for Backend {
    fn from(value: ApiBackend) -> (r: Self) {
        match value {
            ApiBackend::Cpu => Backend::Cpu,
            ApiBackend::Gpu => Backend::Gpu,
        }
    }
}

impl vstd::std_specs::convert::FromSpecImpl<ApiBackend> for Backend {
    open spec fn obeys_from_spec() -> bool {
        true
    }

    open spec fn from_spec(value: ApiBackend) -> Backend {
        match value {
            ApiBackend::Cpu => Backend::Cpu,
            ApiBackend::Gpu => Backend::Gpu,
        }
    }
}

/// What is known about the machine's GPU.
#[derive(Clone, Debug)]
pub struct SystemGpuInfo {
    pub available: bool,
    pub name: Option<String>,
    pub vram_mb: Option<usize>,
    pub driver_version: Option<String>,
    pub error: Option<String>,
}

/// Description of the served model.
#[derive(Clone, Debug)]
pub struct ModelInfo {
    pub architecture: String,
    pub param_count: usize,
    pub backend: ApiBackend,
    pub loaded: bool,
}

/// Body of a request to load weights.
#[derive(Clone, Debug)]
pub struct LoadRequest {
    pub path: String,
}

/// Body of a request to save weights.
#[derive(Clone, Debug)]
pub struct SaveRequest {
    pub path: String,
}

/// Body of a request to switch backends.
#[derive(Clone, Copy, Debug)]
pub struct BackendRequest {
    pub backend: ApiBackend,
}

/// Answer to a started training job.
#[derive(Clone, Debug)]
pub struct TrainStartResponse {
    pub job_id: String,
}

/// Body of an error answer.
#[derive(Clone, Debug)]
pub struct ErrorResponse {
    pub error: String,
}

/// Total number of trainable values of a network with configuration `cfg`.
pub open spec fn param_count(cfg: ModelConfig) -> int {
    param_count_prefix(param_shapes(cfg), param_shapes(cfg).len() as int)
}

/// Sum of the element counts of the first `k` shapes.
pub open spec fn param_count_prefix(shapes: Seq<Seq<usize>>, k: int) -> int
    decreases k,
{
    if k <= 0 {
        0
    } else {
        param_count_prefix(shapes, k - 1) + shape_product(shapes[k - 1])
    }
}

/// Number of trainable values of the CIFAR-10 network: kernels, biases and classifier.
pub fn cifar10_param_count() -> (r: usize)
    ensures
        r == param_count(
            ModelConfig {
                input_channels: 3,
                input_height: 32,
                input_width: 32,
                conv_out_channels: 32,
                conv2_out_channels: Some(64),
                conv_kernel: 3,
                conv_padding: 1,
                num_classes: 10,
            },
        ),
        r == 60362,
{
    let config = ModelConfig::cifar10();
    proof {
        assert(config.spec_conv1_height() == 32);
        assert(config.spec_pool1_height() == 16);
        assert(config.spec_conv2_height() == 16);
        assert(config.spec_pool2_height() == 8);
        assert(config.spec_pool2_width() == 8);
        assert(config.spec_flat_dim() == 4096);
        assert(config.flat_dim_ok());
    }
    let c2 = match config.conv2_out_channels {
        Some(c) => c,
        None => 0,
    };
    let r = config.conv1_weight_len() + config.conv_out_channels + config.conv2_weight_len() + c2
        + config.num_classes * config.flat_dim() + config.num_classes;
    proof {
        let shapes = param_shapes(config);
        crate::compute::tensor::lemma_shape4(32, 3, 3, 3);
        crate::compute::tensor::lemma_shape4(64, 32, 3, 3);
        crate::compute::tensor::lemma_shape2(10, 4096);
        crate::compute::tensor::lemma_shape1(32);
        crate::compute::tensor::lemma_shape1(64);
        crate::compute::tensor::lemma_shape1(10);
        reveal_with_fuel(param_count_prefix, 7);
    }
    r
}

/// Names of the ten CIFAR-10 classes, by class number.
pub const CIFAR10_CLASS_NAMES: [&'static str; 10] = [
    "airplane",
    "automobile",
    "bird",
    "cat",
    "deer",
    "dog",
    "frog",
    "horse",
    "ship",
    "truck",
];

} // verus!
