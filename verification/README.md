# cifar10_cnn

A small convolutional network for CIFAR-10 image classification: tensors, convolution,
ReLU, 2x2 max pooling and fully connected layers, a tape-style computation graph with
back-propagation and SGD, batching and shuffling, a checkpoint format, parsing of the
CIFAR-10 binary batches, and the request checks of an HTTP API.

## Layout

- `src/` is the library, written in Verus. Every function carries a `requires` / `ensures`
  contract that Verus proves. The element type of tensors is generic. Every numeric function
  asks for total arithmetic (no operation may fail), and its values are stated exactly for
  element types whose arithmetic and comparisons follow their specifications:
  `compute::wrap64::Wrap64`, 64-bit integers whose `+`, `-`, `*` wrap and whose division by
  zero gives zero, is one (`lemma_wrap64_exact`). The plain integer types are not: their
  operations can overflow. The `f32` network runs the same code; for it, shapes and lengths
  are stated, not values.
  - `compute/`: tensors, the numeric kernels (forward and backward of every layer), the
    random generator.
  - `layers/`: the stand-alone layers with their caches.
  - `training/`: the computation graph (`graph`), the loss read-outs (`loss`), the
    optimizer, the network, the checkpoint codec and the training loop pieces (`trainer`).
  - `data/`: the synthetic demo dataset and the CIFAR-10 batch parser.
  - `api/`: the API's plain data, path checks, GPU query parsing and image decoding.
- `app/` is the program around it: the HTTP server, file I/O, and the floating-point
  functions (softmax, logarithms, normal sampling, pixel normalisation).
- `tests/` runs the library on concrete inputs.
