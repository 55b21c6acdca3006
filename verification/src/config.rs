//! Model hyper-parameters and the layer dimensions derived from them.
use vstd::prelude::*;

verus! {

/// Shape of the convolutional network: input image, convolution stages and classifier.
#[derive(Clone, Copy, Debug, PartialEq, Eq)]
pub struct ModelConfig {
    pub input_channels: usize,
    pub input_height: usize,
    pub input_width: usize,
    pub conv_out_channels: usize,
    pub conv2_out_channels: Option<usize>,
    pub conv_kernel: usize,
    pub conv_padding: usize,
    pub num_classes: usize,
}

/// Side length of a "same-stride" convolution output: `extent + 2 * padding - kernel + 1`.
pub open spec fn conv_extent(extent: int, padding: int, kernel: int) -> int {
    extent + 2 * padding - kernel + 1
}

/// The convolution output length can be computed in `usize` without overflow or underflow.
pub open spec fn conv_extent_ok(extent: int, padding: int, kernel: int) -> bool {
    &&& extent + 2 * padding <= usize::MAX
    &&& kernel <= extent + 2 * padding
    &&& conv_extent(extent, padding, kernel) <= usize::MAX
}

impl ModelConfig {
    pub open spec fn spec_conv1_height(self) -> int {
        conv_extent(self.input_height as int, self.conv_padding as int, self.conv_kernel as int)
    }

    pub open spec fn spec_conv1_width(self) -> int {
        conv_extent(self.input_width as int, self.conv_padding as int, self.conv_kernel as int)
    }

    pub open spec fn spec_pool1_height(self) -> int {
        self.spec_conv1_height() / 2
    }

    pub open spec fn spec_pool1_width(self) -> int {
        self.spec_conv1_width() / 2
    }

    pub open spec fn spec_conv2_height(self) -> int {
        conv_extent(self.spec_pool1_height(), self.conv_padding as int, self.conv_kernel as int)
    }

    pub open spec fn spec_conv2_width(self) -> int {
        conv_extent(self.spec_pool1_width(), self.conv_padding as int, self.conv_kernel as int)
    }

    pub open spec fn spec_pool2_height(self) -> int {
        self.spec_conv2_height() / 2
    }

    pub open spec fn spec_pool2_width(self) -> int {
        self.spec_conv2_width() / 2
    }

    /// The first convolution's output extent is computable in `usize`.
    pub open spec fn conv1_ok(self) -> bool {
        &&& conv_extent_ok(self.input_height as int, self.conv_padding as int, self.conv_kernel as int)
        &&& conv_extent_ok(self.input_width as int, self.conv_padding as int, self.conv_kernel as int)
    }

    /// The second convolution's output extent is computable in `usize`.
    pub open spec fn conv2_ok(self) -> bool {
        &&& self.conv1_ok()
        &&& conv_extent_ok(self.spec_pool1_height(), self.conv_padding as int, self.conv_kernel as int)
        &&& conv_extent_ok(self.spec_pool1_width(), self.conv_padding as int, self.conv_kernel as int)
    }

    /// Number of features that reach the classifier.
    pub open spec fn spec_flat_dim(self) -> int {
        match self.conv2_out_channels {
            Some(channels) => channels * self.spec_pool2_height() * self.spec_pool2_width(),
            None => self.conv_out_channels * self.spec_pool1_height() * self.spec_pool1_width(),
        }
    }

    /// `flat_dim` can be computed without overflow.
    pub open spec fn flat_dim_ok(self) -> bool {
        match self.conv2_out_channels {
            Some(channels) => {
                &&& self.conv2_ok()
                &&& channels * self.spec_pool2_height() <= usize::MAX
                &&& channels * self.spec_pool2_height() * self.spec_pool2_width() <= usize::MAX
            },
            None => {
                &&& self.conv1_ok()
                &&& self.conv_out_channels * self.spec_pool1_height() <= usize::MAX
                &&& self.conv_out_channels * self.spec_pool1_height() * self.spec_pool1_width()
                    <= usize::MAX
            },
        }
    }

    pub open spec fn spec_input_dim(self) -> int {
        self.input_channels * self.input_height * self.input_width
    }

    pub open spec fn spec_conv_dim(self) -> int {
        self.conv_out_channels * self.spec_conv1_height() * self.spec_conv1_width()
    }

    pub open spec fn spec_conv1_weight_len(self) -> int {
        self.conv_out_channels * self.input_channels * self.conv_kernel * self.conv_kernel
    }

    pub open spec fn spec_conv2_weight_len(self) -> int {
        match self.conv2_out_channels {
            Some(channels) => channels * self.conv_out_channels * self.conv_kernel
                * self.conv_kernel,
            None => 0,
        }
    }

    /// The small single-stage network trained on the synthetic line dataset.
    pub fn demo() -> (c: Self)
        ensures
            c == (ModelConfig {
                input_channels: 1,
                input_height: 8,
                input_width: 8,
                conv_out_channels: 4,
                conv2_out_channels: None,
                conv_kernel: 3,
                conv_padding: 0,
                num_classes: 3,
            }),
    {
        Self {
            input_channels: 1,
            input_height: 8,
            input_width: 8,
            conv_out_channels: 4,
            conv2_out_channels: None,
            conv_kernel: 3,
            conv_padding: 0,
            num_classes: 3,
        }
    }

    /// The two-stage network for 32x32 RGB CIFAR-10 images.
    pub fn cifar10() -> (c: Self)
        ensures
            c == (ModelConfig {
                input_channels: 3,
                input_height: 32,
                input_width: 32,
                conv_out_channels: 32,
                conv2_out_channels: Some(64),
                conv_kernel: 3,
                conv_padding: 1,
                num_classes: 10,
            }),
    {
        Self {
            input_channels: 3,
            input_height: 32,
            input_width: 32,
            conv_out_channels: 32,
            conv2_out_channels: Some(64),
            conv_kernel: 3,
            conv_padding: 1,
            num_classes: 10,
        }
    }

    pub fn conv_height(self) -> (r: usize)
        requires
            conv_extent_ok(self.input_height as int, self.conv_padding as int, self.conv_kernel as int),
        ensures
            r == self.spec_conv1_height(),
    {
        self.conv1_height()
    }

    pub fn conv_width(self) -> (r: usize)
        requires
            conv_extent_ok(self.input_width as int, self.conv_padding as int, self.conv_kernel as int),
        ensures
            r == self.spec_conv1_width(),
    {
        self.conv1_width()
    }

    pub fn conv_dim(self) -> (r: usize)
        requires
            self.conv1_ok(),
            self.conv_out_channels * self.spec_conv1_height() <= usize::MAX,
            self.spec_conv_dim() <= usize::MAX,
        ensures
            r == self.spec_conv_dim(),
    {
        self.conv_out_channels * self.conv1_height() * self.conv1_width()
    }

    pub fn pool_height(self) -> (r: usize)
        requires
            conv_extent_ok(self.input_height as int, self.conv_padding as int, self.conv_kernel as int),
        ensures
            r == self.spec_pool1_height(),
    {
        self.pool1_height()
    }

    pub fn pool_width(self) -> (r: usize)
        requires
            conv_extent_ok(self.input_width as int, self.conv_padding as int, self.conv_kernel as int),
        ensures
            r == self.spec_pool1_width(),
    {
        self.pool1_width()
    }

    pub fn flat_dim(self) -> (r: usize)
        requires
            self.flat_dim_ok(),
        ensures
            r == self.spec_flat_dim(),
    {
        match self.conv2_out_channels {
            Some(channels) => channels * self.pool2_height() * self.pool2_width(),
            None => self.conv_out_channels * self.pool1_height() * self.pool1_width(),
        }
    }

    pub fn input_dim(self) -> (r: usize)
        requires
            self.input_channels * self.input_height <= usize::MAX,
            self.spec_input_dim() <= usize::MAX,
        ensures
            r == self.spec_input_dim(),
    {
        self.input_channels * self.input_height * self.input_width
    }

    pub fn conv_weight_len(self) -> (r: usize)
        requires
            self.conv_out_channels * self.input_channels <= usize::MAX,
            self.conv_out_channels * self.input_channels * self.conv_kernel <= usize::MAX,
            self.spec_conv1_weight_len() <= usize::MAX,
        ensures
            r == self.spec_conv1_weight_len(),
    {
        self.conv1_weight_len()
    }

    pub fn conv1_height(self) -> (r: usize)
        requires
            conv_extent_ok(self.input_height as int, self.conv_padding as int, self.conv_kernel as int),
        ensures
            r == self.spec_conv1_height(),
    {
        self.input_height + 2 * self.conv_padding - self.conv_kernel + 1
    }

    pub fn conv1_width(self) -> (r: usize)
        requires
            conv_extent_ok(self.input_width as int, self.conv_padding as int, self.conv_kernel as int),
        ensures
            r == self.spec_conv1_width(),
    {
        self.input_width + 2 * self.conv_padding - self.conv_kernel + 1
    }

    pub fn pool1_height(self) -> (r: usize)
        requires
            conv_extent_ok(self.input_height as int, self.conv_padding as int, self.conv_kernel as int),
        ensures
            r == self.spec_pool1_height(),
    {
        self.conv1_height() / 2
    }

    pub fn pool1_width(self) -> (r: usize)
        requires
            conv_extent_ok(self.input_width as int, self.conv_padding as int, self.conv_kernel as int),
        ensures
            r == self.spec_pool1_width(),
    {
        self.conv1_width() / 2
    }

    pub fn conv2_height(self) -> (r: usize)
        requires
            conv_extent_ok(self.input_height as int, self.conv_padding as int, self.conv_kernel as int),
            conv_extent_ok(self.spec_pool1_height(), self.conv_padding as int, self.conv_kernel as int),
        ensures
            r == self.spec_conv2_height(),
    {
        self.pool1_height() + 2 * self.conv_padding - self.conv_kernel + 1
    }

    pub fn conv2_width(self) -> (r: usize)
        requires
            conv_extent_ok(self.input_width as int, self.conv_padding as int, self.conv_kernel as int),
            conv_extent_ok(self.spec_pool1_width(), self.conv_padding as int, self.conv_kernel as int),
        ensures
            r == self.spec_conv2_width(),
    {
        self.pool1_width() + 2 * self.conv_padding - self.conv_kernel + 1
    }

    pub fn pool2_height(self) -> (r: usize)
        requires
            conv_extent_ok(self.input_height as int, self.conv_padding as int, self.conv_kernel as int),
            conv_extent_ok(self.spec_pool1_height(), self.conv_padding as int, self.conv_kernel as int),
        ensures
            r == self.spec_pool2_height(),
    {
        self.conv2_height() / 2
    }

    pub fn pool2_width(self) -> (r: usize)
        requires
            conv_extent_ok(self.input_width as int, self.conv_padding as int, self.conv_kernel as int),
            conv_extent_ok(self.spec_pool1_width(), self.conv_padding as int, self.conv_kernel as int),
        ensures
            r == self.spec_pool2_width(),
    {
        self.conv2_width() / 2
    }

    pub fn conv1_weight_len(self) -> (r: usize)
        requires
            self.conv_out_channels * self.input_channels <= usize::MAX,
            self.conv_out_channels * self.input_channels * self.conv_kernel <= usize::MAX,
            self.spec_conv1_weight_len() <= usize::MAX,
        ensures
            r == self.spec_conv1_weight_len(),
    {
        self.conv_out_channels * self.input_channels * self.conv_kernel * self.conv_kernel
    }

    pub fn conv2_weight_len(self) -> (r: usize)
        requires
            self.conv2_out_channels matches Some(channels) ==> {
                &&& channels * self.conv_out_channels <= usize::MAX
                &&& channels * self.conv_out_channels * self.conv_kernel <= usize::MAX
                &&& self.spec_conv2_weight_len() <= usize::MAX
            },
        ensures
            r == self.spec_conv2_weight_len(),
    {
        match self.conv2_out_channels {
            Some(channels) => {
                channels * self.conv_out_channels * self.conv_kernel * self.conv_kernel
            },
            None => 0,
        }
    }
}

} // verus!
