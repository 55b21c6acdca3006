//! The convolutional classifier: one or two convolution stages (convolution, ReLU,
//! 2x2 max pooling) followed by a fully connected layer, trained on the graph.
use vstd::prelude::*;
use crate::config::ModelConfig;
use crate::compute::scalar::{Scalar, arith_total, exact_arith, exact_order};
use crate::compute::tensor::{Tensor, shape_product, shape_fits, same_shape, copy_vec, shape_vec1, shape_vec2, shape_vec4, lemma_shape1, lemma_shape2, lemma_shape4};
use crate::compute::kernels::{ConvShape, argmax_prefix, argmax_rows};
use crate::compute::outputs::{conv_output_seq, relu_seq, pool_seq, pool_argmax_seq, linear_seq, lemma_conv_output_seq, lemma_pool_seq, lemma_pool_argmax_seq, lemma_linear_seq};
use crate::training::graph::{Graph, Node, NodeId, Op, conv_shape_of, node_ok, needs_grad, operand_of, same_frame, chain_grad, grad_data, operands_distinct, distinct3, lemma_chain_grad_stable};
use crate::training::optimizer::sgd_value;

verus! {

/// Where the network runs.
#[derive(Clone, Copy, Debug, PartialEq, Eq, Structural)]
pub enum Backend {
    Cpu,
    Gpu,
}

/// Why a network could not be built, loaded or run.
#[derive(Clone, Copy, Debug, PartialEq, Eq, Structural)]
pub enum NetworkError {
    /// The GPU backend is not available in this build.
    GpuUnavailable,
    /// A list of weight tensors has the wrong number of entries.
    WeightCount { expected: usize, found: usize },
    /// Weight tensor `index` has the wrong shape or element count.
    WeightShape { index: usize },
    /// The probabilities handed back for a batch do not have the logits' shape.
    ProbabilityShape,
}

/// Kernel shape of the first convolution.
pub open spec fn conv1_weight_shape(cfg: ModelConfig) -> Seq<usize> {
    seq![cfg.conv_out_channels, cfg.input_channels, cfg.conv_kernel, cfg.conv_kernel]
}

/// Kernel shape of the second convolution with `c2` output channels.
pub open spec fn conv2_weight_shape(cfg: ModelConfig, c2: usize) -> Seq<usize> {
    seq![c2, cfg.conv_out_channels, cfg.conv_kernel, cfg.conv_kernel]
}

/// Weight shape of the classifier.
pub open spec fn fc_weight_shape(cfg: ModelConfig) -> Seq<usize> {
    seq![cfg.num_classes, cfg.spec_flat_dim() as usize]
}

/// Shapes of the trainable tensors, in the order the network creates them: first kernel and
/// bias, second kernel and bias when there is a second stage, classifier weights and bias.
pub open spec fn param_shapes(cfg: ModelConfig) -> Seq<Seq<usize>> {
    match cfg.conv2_out_channels {
        Some(c2) => seq![
            conv1_weight_shape(cfg),
            seq![cfg.conv_out_channels],
            conv2_weight_shape(cfg, c2),
            seq![c2],
            fc_weight_shape(cfg),
            seq![cfg.num_classes],
        ],
        None => seq![
            conv1_weight_shape(cfg),
            seq![cfg.conv_out_channels],
            fc_weight_shape(cfg),
            seq![cfg.num_classes],
        ],
    }
}

/// Shapes of the randomly initialised tensors (the kernels and the classifier weights), in order.
pub open spec fn init_shapes(cfg: ModelConfig) -> Seq<Seq<usize>> {
    match cfg.conv2_out_channels {
        Some(c2) => seq![conv1_weight_shape(cfg), conv2_weight_shape(cfg, c2), fc_weight_shape(cfg)],
        None => seq![conv1_weight_shape(cfg), fc_weight_shape(cfg)],
    }
}

/// Number of inputs feeding each unit of the randomly initialised tensors, in order.
pub open spec fn init_fan_ins(cfg: ModelConfig) -> Seq<int> {
    let k = cfg.conv_kernel as int;
    let first = cfg.input_channels * k * k;
    let flat = cfg.spec_flat_dim();
    match cfg.conv2_out_channels {
        Some(c2) => seq![first, cfg.conv_out_channels * k * k, flat],
        None => seq![first, flat],
    }
}

/// Every tensor size the network derives from the configuration fits in `usize`.
pub open spec fn config_ok(cfg: ModelConfig) -> bool {
    &&& cfg.flat_dim_ok()
    &&& forall|k: int| 0 <= k < param_shapes(cfg).len() ==> #[trigger] shape_fits(param_shapes(cfg)[k])
    &&& cfg.input_channels * cfg.conv_kernel <= usize::MAX
    &&& cfg.input_channels * cfg.conv_kernel * cfg.conv_kernel <= usize::MAX
    &&& cfg.conv_out_channels * cfg.conv_kernel <= usize::MAX
    &&& cfg.conv_out_channels * cfg.conv_kernel * cfg.conv_kernel <= usize::MAX
}

/// Geometry of the first convolution on a batch of `n` images.
pub open spec fn stage1_shape(cfg: ModelConfig, n: usize) -> ConvShape {
    conv_shape_of(
        seq![n, cfg.input_channels, cfg.input_height, cfg.input_width],
        conv1_weight_shape(cfg),
        cfg.conv_padding,
    )
}

/// Geometry of the second convolution (with `c2` output channels) on a batch of `n` images.
pub open spec fn stage2_shape(cfg: ModelConfig, n: usize, c2: usize) -> ConvShape {
    let s1 = stage1_shape(cfg, n);
    conv_shape_of(
        seq![n, cfg.conv_out_channels, s1.h_out / 2, s1.w_out / 2],
        conv2_weight_shape(cfg, c2),
        cfg.conv_padding,
    )
}

/// A batch of `n` images can be run: every intermediate buffer length fits in `usize`.
pub open spec fn batch_ok(cfg: ModelConfig, n: usize) -> bool {
    &&& n > 0
    &&& stage1_shape(cfg, n).wf()
    &&& (cfg.conv2_out_channels matches Some(c2) ==> stage2_shape(cfg, n, c2).wf())
    &&& n * cfg.num_classes <= usize::MAX
}

/// Output of the last pooling stage for a batch of `n` images `x` under weights `ws`.
pub open spec fn forward_features<T: Scalar>(
    cfg: ModelConfig,
    ws: Seq<Seq<T>>,
    x: Seq<T>,
    n: usize,
    zero: T,
    lowest: T,
) -> Seq<T> {
    let s1 = stage1_shape(cfg, n);
    let p1 = pool_seq(
        relu_seq(conv_output_seq(x, ws[0], ws[1], s1), zero),
        n * cfg.conv_out_channels,
        s1.h_out as int,
        s1.w_out as int,
        lowest,
    );
    match cfg.conv2_out_channels {
        Some(c2) => {
            let s2 = stage2_shape(cfg, n, c2);
            pool_seq(
                relu_seq(conv_output_seq(p1, ws[2], ws[3], s2), zero),
                n * c2,
                s2.h_out as int,
                s2.w_out as int,
                lowest,
            )
        },
        None => p1,
    }
}

/// Shape `[n, channels, height, width]` of the last pooling stage's output.
pub open spec fn feature_shape(cfg: ModelConfig, n: usize) -> Seq<usize> {
    let s1 = stage1_shape(cfg, n);
    match cfg.conv2_out_channels {
        Some(c2) => {
            let s2 = stage2_shape(cfg, n, c2);
            seq![n, c2, s2.h_out / 2, s2.w_out / 2]
        },
        None => seq![n, cfg.conv_out_channels, s1.h_out / 2, s1.w_out / 2],
    }
}

/// Logits of a batch of `n` images `x` under weights `ws` (in `param_shapes` order):
/// each stage is convolution, ReLU and 2x2 max pooling, then the fully connected layer.
pub open spec fn forward_spec<T: Scalar>(
    cfg: ModelConfig,
    ws: Seq<Seq<T>>,
    x: Seq<T>,
    n: usize,
    zero: T,
    lowest: T,
) -> Seq<T> {
    let s1 = stage1_shape(cfg, n);
    let flat = cfg.spec_flat_dim();
    let classes = cfg.num_classes as int;
    let p1 = pool_seq(
        relu_seq(conv_output_seq(x, ws[0], ws[1], s1), zero),
        n * cfg.conv_out_channels,
        s1.h_out as int,
        s1.w_out as int,
        lowest,
    );
    match cfg.conv2_out_channels {
        Some(c2) => {
            let s2 = stage2_shape(cfg, n, c2);
            let p2 = pool_seq(
                relu_seq(conv_output_seq(p1, ws[2], ws[3], s2), zero),
                n * c2,
                s2.h_out as int,
                s2.w_out as int,
                lowest,
            );
            linear_seq(p2, ws[4], ws[5], flat, n as int, classes)
        },
        None => linear_seq(p1, ws[2], ws[3], flat, n as int, classes),
    }
}

/// Shapes and element counts of a list of tensors.
pub open spec fn tensor_layouts<T>(ts: Seq<Tensor<T>>) -> Seq<(Seq<usize>, nat)> {
    Seq::new(ts.len(), |k: int| (ts[k].shape@, ts[k].data@.len()))
}

/// Whether `layout` is exactly `shape` with as many elements as it describes.
pub open spec fn layout_matches(layout: (Seq<usize>, nat), shape: Seq<usize>) -> bool {
    layout.0 == shape && layout.1 == shape_product(shape)
}

/// Index of the first layout (from `k` on) that does not match the wanted shape, or
/// `got.len()` when all match.
pub open spec fn first_mismatch_from(got: Seq<(Seq<usize>, nat)>, want: Seq<Seq<usize>>, k: int) -> int
    decreases got.len() - k,
{
    if k >= got.len() {
        got.len() as int
    } else if !layout_matches(got[k], want[k]) {
        k
    } else {
        first_mismatch_from(got, want, k + 1)
    }
}

/// Outcome of checking a list of tensors against the wanted shapes: `None` when they match.
pub open spec fn layout_check(got: Seq<(Seq<usize>, nat)>, want: Seq<Seq<usize>>) -> Option<NetworkError> {
    if got.len() != want.len() {
        Some(NetworkError::WeightCount { expected: want.len() as usize, found: got.len() as usize })
    } else if first_mismatch_from(got, want, 0) < got.len() {
        Some(NetworkError::WeightShape { index: first_mismatch_from(got, want, 0) as usize })
    } else {
        None
    }
}

/// Initial weights: the given kernels and classifier weights, with zero biases between them.
pub open spec fn initial_weights<T>(cfg: ModelConfig, init: Seq<Seq<T>>, zero: T) -> Seq<Seq<T>> {
    let zeros = |len: usize| Seq::new(len as nat, |_i: int| zero);
    match cfg.conv2_out_channels {
        Some(c2) => seq![
            init[0],
            zeros(cfg.conv_out_channels),
            init[1],
            zeros(c2),
            init[2],
            zeros(cfg.num_classes),
        ],
        None => seq![init[0], zeros(cfg.conv_out_channels), init[1], zeros(cfg.num_classes)],
    }
}

proof fn lemma_first_mismatch_bounds(got: Seq<(Seq<usize>, nat)>, want: Seq<Seq<usize>>, k: int)
    requires
        0 <= k <= got.len(),
    ensures
        k <= first_mismatch_from(got, want, k) <= got.len(),
        first_mismatch_from(got, want, k) < got.len() ==> !layout_matches(
            got[first_mismatch_from(got, want, k)],
            want[first_mismatch_from(got, want, k)],
        ),
        forall|j: int| k <= j < first_mismatch_from(got, want, k) ==> layout_matches(#[trigger] got[j], want[j]),
    decreases got.len() - k,
{
    if k < got.len() && layout_matches(got[k], want[k]) {
        lemma_first_mismatch_bounds(got, want, k + 1);
    }
}

/// Finds the first tensor whose layout differs from `want`, scanning from the start.
fn find_mismatch(got: Ghost<Seq<(Seq<usize>, nat)>>, shapes: &Vec<Vec<usize>>, lens: &Vec<usize>, want: &Vec<Vec<usize>>) -> (r: usize)
    requires
        got@.len() == shapes.len(),
        got@.len() == lens.len(),
        got@.len() == want.len(),
        forall|k: int| 0 <= k < got@.len() ==> #[trigger] got@[k] == (shapes@[k]@, lens@[k] as nat),
        forall|k: int| 0 <= k < want.len() ==> shape_fits(#[trigger] want@[k]@),
    ensures
        r == first_mismatch_from(got@, want@.map_values(|v: Vec<usize>| v@), 0),
{
    let ghost w = want@.map_values(|v: Vec<usize>| v@);
    let mut k: usize = 0;
    while k < shapes.len()
        invariant
            k <= shapes.len(),
            got@.len() == shapes.len(),
            got@.len() == lens.len(),
            got@.len() == want.len(),
            w == want@.map_values(|v: Vec<usize>| v@),
            forall|j: int| 0 <= j < got@.len() ==> #[trigger] got@[j] == (shapes@[j]@, lens@[j] as nat),
            forall|j: int| 0 <= j < want.len() ==> shape_fits(#[trigger] want@[j]@),
            first_mismatch_from(got@, w, 0) == first_mismatch_from(got@, w, k as int),
        decreases shapes.len() - k,
    {
        let wanted = crate::compute::tensor::shape_numel(&want[k]);
        let ok = same_shape(&shapes[k], &want[k]) && lens[k] == wanted;
        assert(ok == layout_matches(got@[k as int], w[k as int]));
        if !ok {
            return k;
        }
        k = k + 1;
    }
    k
}

/// Views of a list of `(shape, data)` pairs.
pub open spec fn pair_views<T>(ts: Seq<(Vec<usize>, Vec<T>)>) -> Seq<(Seq<usize>, Seq<T>)> {
    Seq::new(ts.len(), |k: int| (ts[k].0@, ts[k].1@))
}

/// Shapes and element counts of viewed `(shape, data)` pairs.
pub open spec fn view_layouts<T>(vs: Seq<(Seq<usize>, Seq<T>)>) -> Seq<(Seq<usize>, nat)> {
    Seq::new(vs.len(), |k: int| (vs[k].0, vs[k].1.len()))
}

/// Data parts of viewed `(shape, data)` pairs.
pub open spec fn view_data<T>(vs: Seq<(Seq<usize>, Seq<T>)>) -> Seq<Seq<T>> {
    Seq::new(vs.len(), |k: int| vs[k].1)
}

/// `probs` is an `[n, classes]` tensor.
pub open spec fn probs_ok<T>(probs: Tensor<T>, n: usize, classes: usize) -> bool {
    &&& probs.shape@ == seq![n, classes]
    &&& probs.data@.len() == n * classes
}

/// `p` holds, for each of the `n` rows of `probs`, the position of the row's largest value
/// (the last one among equals).
pub open spec fn predictions_of<T: Scalar>(p: Seq<usize>, probs: Tensor<T>, n: usize, classes: usize) -> bool {
    &&& p.len() == n
    &&& forall|b: int| 0 <= b < n ==> #[trigger] p[b] < classes
    &&& exact_order::<T>() ==> forall|b: int|
        0 <= b < n ==> #[trigger] p[b] == argmax_prefix(probs.data@, b * classes, classes as nat)
}

/// `new` is `old` after one SGD update with learning rate `lr`: `new[i] = old[i] - lr * g[i]`
/// for some gradient `g` of the same length.
pub open spec fn sgd_updated<T: Scalar>(new: Seq<T>, old: Seq<T>, lr: T) -> bool {
    exists|g: Seq<T>|
        #![trigger g.len()]
        g.len() == old.len() && new.len() == old.len() && forall|i: int|
            0 <= i < old.len() ==> #[trigger] new[i] == sgd_value(old[i], g[i], lr)
}

/// `b` starts with the nodes of `a`.
pub open spec fn extends<T>(b: Seq<Node<T>>, a: Seq<Node<T>>) -> bool {
    a.len() <= b.len() && b.take(a.len() as int) == a
}

proof fn lemma_extends_trans<T>(a: Seq<Node<T>>, b: Seq<Node<T>>, c: Seq<Node<T>>)
    requires
        extends(b, a),
        extends(c, b),
    ensures
        extends(c, a),
{
    assert(c.take(a.len() as int) =~= b.take(a.len() as int)) by {
        assert forall|k: int| 0 <= k < a.len() implies c.take(a.len() as int)[k] == b.take(a.len() as int)[k] by {
            assert(c.take(b.len() as int)[k] == c[k]);
        }
    }
}

proof fn lemma_extends_at<T>(a: Seq<Node<T>>, b: Seq<Node<T>>, k: int)
    requires
        extends(b, a),
        0 <= k < a.len(),
    ensures
        b[k] == a[k],
{
    assert(b.take(a.len() as int)[k] == b[k]);
}

/// The first stage's operations follow the `pn` parameters and the input leaf.
pub open spec fn stage1_chain<T>(nodes: Seq<Node<T>>, pn: int) -> bool {
    &&& pn + 3 < nodes.len()
    &&& nodes[pn + 1].op matches Op::Conv2d { input, weights, bias, .. } && input == pn && weights == 0 && bias == 1
    &&& nodes[pn + 2].op matches Op::Relu { input } && input == pn + 1
    &&& nodes[pn + 3].op matches Op::MaxPool { input } && input == pn + 2
}

/// The second stage's operations follow the first stage.
pub open spec fn stage2_chain<T>(nodes: Seq<Node<T>>, pn: int) -> bool {
    &&& pn + 6 < nodes.len()
    &&& nodes[pn + 4].op matches Op::Conv2d { input, weights, bias, .. } && input == pn + 3 && weights == 2 && bias
        == 3
    &&& nodes[pn + 5].op matches Op::Relu { input } && input == pn + 4
    &&& nodes[pn + 6].op matches Op::MaxPool { input } && input == pn + 5
}

proof fn lemma_stage1_chain_kept<T>(a: Seq<Node<T>>, b: Seq<Node<T>>, pn: int)
    requires
        0 <= pn,
        stage1_chain(a, pn),
        extends(b, a),
    ensures
        stage1_chain(b, pn),
{
    lemma_extends_at(a, b, pn + 1);
    lemma_extends_at(a, b, pn + 2);
    lemma_extends_at(a, b, pn + 3);
}

proof fn lemma_stage2_chain_kept<T>(a: Seq<Node<T>>, b: Seq<Node<T>>, pn: int)
    requires
        0 <= pn,
        stage2_chain(a, pn),
        extends(b, a),
    ensures
        stage2_chain(b, pn),
{
    lemma_extends_at(a, b, pn + 4);
    lemma_extends_at(a, b, pn + 5);
    lemma_extends_at(a, b, pn + 6);
}

/// The operations the forward pass records after the `pn` parameters: the input leaf at
/// `pn`, then convolution, ReLU and pooling per stage, flattening, and the classifier, whose
/// node is `logits`.
pub open spec fn forward_chain<T>(nodes: Seq<Node<T>>, cfg: ModelConfig, pn: int, logits: int) -> bool {
    &&& nodes[pn + 1].op matches Op::Conv2d { input, weights, bias, .. } && input == pn && weights == 0 && bias == 1
    &&& nodes[pn + 2].op matches Op::Relu { input } && input == pn + 1
    &&& nodes[pn + 3].op matches Op::MaxPool { input } && input == pn + 2
    &&& match cfg.conv2_out_channels {
        Some(_) => {
            &&& nodes[pn + 4].op matches Op::Conv2d { input, weights, bias, .. } && input == pn + 3 && weights == 2
                && bias == 3
            &&& nodes[pn + 5].op matches Op::Relu { input } && input == pn + 4
            &&& nodes[pn + 6].op matches Op::MaxPool { input } && input == pn + 5
            &&& nodes[pn + 7].op matches Op::Flatten { input, .. } && input == pn + 6
            &&& logits == pn + 8
            &&& nodes[pn + 8].op matches Op::Linear { input, weights, bias } && input == pn + 7 && weights == 4 && bias
                == 5
        },
        None => {
            &&& nodes[pn + 4].op matches Op::Flatten { input, .. } && input == pn + 3
            &&& logits == pn + 5
            &&& nodes[pn + 5].op matches Op::Linear { input, weights, bias } && input == pn + 4 && weights == 2 && bias
                == 3
        },
    }
}

/// `forward_chain` only reads operations, so it survives any change that keeps them.
proof fn lemma_forward_chain_ops<T>(a: Seq<Node<T>>, b: Seq<Node<T>>, cfg: ModelConfig, pn: int, logits: int)
    requires
        0 <= pn,
        forward_chain(a, cfg, pn, logits),
        logits < a.len(),
        a.len() <= b.len(),
        forall|i: int| 0 <= i < a.len() ==> (#[trigger] b[i]).op == a[i].op,
    ensures
        forward_chain(b, cfg, pn, logits),
{
    assert(b[pn + 1].op == a[pn + 1].op);
    assert(b[pn + 2].op == a[pn + 2].op);
    assert(b[pn + 3].op == a[pn + 3].op);
    assert(b[pn + 4].op == a[pn + 4].op);
    assert(b[pn + 5].op == a[pn + 5].op);
    if cfg.conv2_out_channels is Some {
        assert(b[pn + 6].op == a[pn + 6].op);
        assert(b[pn + 7].op == a[pn + 7].op);
        assert(b[pn + 8].op == a[pn + 8].op);
    }
}

/// The values the forward pass of the batch `x` of `n` images under weights `ws` records after
/// the input leaf at `pn`: each convolution, ReLU and pooling output, the position each
/// pooling window took its value from, and the features the classifier reads.
pub open spec fn forward_values<T: Scalar>(
    nodes: Seq<Node<T>>,
    cfg: ModelConfig,
    ws: Seq<Seq<T>>,
    x: Seq<T>,
    n: usize,
    zero: T,
    lowest: T,
    pn: int,
) -> bool {
    let s1 = stage1_shape(cfg, n);
    let planes1 = n * cfg.conv_out_channels;
    let relu1 = relu_seq(conv_output_seq(x, ws[0], ws[1], s1), zero);
    let pool1 = pool_seq(relu1, planes1, s1.h_out as int, s1.w_out as int, lowest);
    &&& nodes[pn + 1].data.data@ == conv_output_seq(x, ws[0], ws[1], s1)
    &&& nodes[pn + 2].data.data@ == relu1
    &&& nodes[pn + 3].data.data@ == pool1
    &&& nodes[pn + 3].aux_argmax matches Some(a) && a@ == pool_argmax_seq(
        relu1,
        planes1,
        s1.h_out as int,
        s1.w_out as int,
        lowest,
    )
    &&& match cfg.conv2_out_channels {
        Some(c2) => {
            let s2 = stage2_shape(cfg, n, c2);
            let relu2 = relu_seq(conv_output_seq(pool1, ws[2], ws[3], s2), zero);
            &&& nodes[pn + 4].data.data@ == conv_output_seq(pool1, ws[2], ws[3], s2)
            &&& nodes[pn + 5].data.data@ == relu2
            &&& nodes[pn + 6].data.data@ == pool_seq(relu2, n * c2, s2.h_out as int, s2.w_out as int, lowest)
            &&& nodes[pn + 6].aux_argmax matches Some(a) && a@ == pool_argmax_seq(
                relu2,
                n * c2,
                s2.h_out as int,
                s2.w_out as int,
                lowest,
            )
            &&& nodes[pn + 7].data.data@ == forward_features(cfg, ws, x, n, zero, lowest)
        },
        None => nodes[pn + 4].data.data@ == forward_features(cfg, ws, x, n, zero, lowest),
    }
}

/// `forward_values` reads only the nodes up to the classifier's input.
proof fn lemma_forward_values_kept<T: Scalar>(
    a: Seq<Node<T>>,
    b: Seq<Node<T>>,
    cfg: ModelConfig,
    ws: Seq<Seq<T>>,
    x: Seq<T>,
    n: usize,
    zero: T,
    lowest: T,
    pn: int,
)
    requires
        0 <= pn,
        pn + 7 < a.len() || (cfg.conv2_out_channels is None && pn + 4 < a.len()),
        a.len() <= b.len(),
        forall|k: int| 0 <= k < a.len() ==> #[trigger] b[k] == a[k],
        forward_values(a, cfg, ws, x, n, zero, lowest, pn),
    ensures
        forward_values(b, cfg, ws, x, n, zero, lowest, pn),
{
    assert(b[pn + 1] == a[pn + 1]);
    assert(b[pn + 2] == a[pn + 2]);
    assert(b[pn + 3] == a[pn + 3]);
    assert(b[pn + 4] == a[pn + 4]);
    if cfg.conv2_out_channels is Some {
        assert(b[pn + 5] == a[pn + 5]);
        assert(b[pn + 6] == a[pn + 6]);
        assert(b[pn + 7] == a[pn + 7]);
    }
}

/// Every parameter feeds the loss through the recorded forward pass.
proof fn lemma_params_need_grad<T>(nodes: Seq<Node<T>>, cfg: ModelConfig, pn: int, logits: int)
    requires
        pn == param_shapes(cfg).len(),
        forward_chain(nodes, cfg, pn, logits),
        logits + 1 < nodes.len(),
        nodes[logits + 1].op matches Op::SoftmaxCE { logits: l, .. } && l == logits,
    ensures
        forall|k: int| 0 <= k < pn ==> #[trigger] needs_grad(nodes, logits + 1, k),
{
    let loss = logits + 1;
    assert(needs_grad(nodes, loss, loss));
    assert(operand_of(nodes[loss].op, logits));
    assert(needs_grad(nodes, loss, logits));
    let flat = logits - 1;
    assert(operand_of(nodes[logits].op, flat));
    assert(needs_grad(nodes, loss, flat));
    let fc_w = pn - 2;
    let fc_b = pn - 1;
    assert(operand_of(nodes[logits].op, fc_w));
    assert(operand_of(nodes[logits].op, fc_b));
    assert(needs_grad(nodes, loss, fc_w));
    assert(needs_grad(nodes, loss, fc_b));
    let pool_last = flat - 1;
    assert(operand_of(nodes[flat].op, pool_last));
    assert(needs_grad(nodes, loss, pool_last));
    if cfg.conv2_out_channels is Some {
        assert(operand_of(nodes[pn + 6].op, pn + 5));
        assert(needs_grad(nodes, loss, pn + 5));
        assert(operand_of(nodes[pn + 5].op, pn + 4));
        assert(needs_grad(nodes, loss, pn + 4));
        assert(operand_of(nodes[pn + 4].op, pn + 3));
        assert(operand_of(nodes[pn + 4].op, 2));
        assert(operand_of(nodes[pn + 4].op, 3));
        assert(needs_grad(nodes, loss, pn + 3));
        assert(needs_grad(nodes, loss, 2));
        assert(needs_grad(nodes, loss, 3));
    }
    assert(operand_of(nodes[pn + 3].op, pn + 2));
    assert(needs_grad(nodes, loss, pn + 2));
    assert(operand_of(nodes[pn + 2].op, pn + 1));
    assert(needs_grad(nodes, loss, pn + 1));
    assert(operand_of(nodes[pn + 1].op, 0));
    assert(operand_of(nodes[pn + 1].op, 1));
    assert(needs_grad(nodes, loss, 0));
    assert(needs_grad(nodes, loss, 1));
}

/// A fresh network's graph: exactly its parameters, each a leaf marked as a parameter, none
/// holding a gradient.
pub open spec fn fresh_tape<T>(tape: Seq<Node<T>>, param_len: nat) -> bool {
    &&& tape.len() == param_len
    &&& forall|k: int| 0 <= k < tape.len() ==> {
        &&& (#[trigger] tape[k]).grad is None
        &&& tape[k].op is Leaf
        &&& tape[k].is_param
    }
}

/// `tape` is what a training step of `net` records for the batch `x` with labels `targets`:
/// the parameters holding the network's weights, the input `x`, the operations of the forward
/// pass, and last the mean softmax cross-entropy node built from the probabilities `probs` and
/// the batch value `batch` (the value its gradient is divided by); no node has a gradient yet.
pub open spec fn step_tape<T: Scalar>(
    tape: Seq<Node<T>>,
    net: Network<T>,
    x: Seq<T>,
    targets: Seq<usize>,
    probs: Tensor<T>,
    batch: T,
) -> bool {
    let pn = net.param_len() as int;
    let loss = tape.len() - 1;
    &&& pn + 1 < loss
    &&& forall|i: int| 0 <= i < tape.len() ==> node_ok(tape, i) && (#[trigger] tape[i]).grad is None
    &&& forall|k: int| 0 <= k < pn ==> (#[trigger] tape[k]).data.data@ == net.weights()[k] && tape[k].op is Leaf
    &&& tape[pn].op is Leaf
    &&& tape[pn].data.data@ == x
    &&& forward_chain(tape, net.config(), pn, loss - 1)
    &&& tape[loss].op matches Op::SoftmaxCE { logits, targets: ts, batch_size } && logits == loss - 1 && ts@
        == targets && batch_size == batch
    &&& tape[loss].aux_probs == Some(probs)
    &&& exact_arith::<T>() && exact_order::<T>() ==> forward_values(
        tape,
        net.config(),
        net.weights(),
        x,
        targets.len() as usize,
        net.zero(),
        net.lowest(),
        pn,
    )
}

/// The gradient back-propagation from the last node of `tape` gives node `k`, where `nodes`
/// hold the gradients it computed.
pub open spec fn step_grad<T: Scalar>(nodes: Seq<Node<T>>, tape: Seq<Node<T>>, zero: T, one: T, k: int) -> Seq<T> {
    chain_grad(nodes, tape, zero, one, tape.len() - 1, k, k + 1).unwrap()
}

/// `after` is `before` after an SGD step with learning rate `lr` on the recorded `tape`: its
/// nodes hold the gradients of back-propagation from the loss node of `tape` (the chain rule,
/// `chain_grad`), and each weight moved by `lr` times its gradient.
pub open spec fn trained_on<T: Scalar>(after: Network<T>, before: Network<T>, tape: Seq<Node<T>>, lr: T) -> bool {
    let nodes = after.tape();
    let loss = tape.len() - 1;
    &&& nodes.len() == tape.len()
    &&& forall|k: int|
        0 <= k <= loss ==> #[trigger] grad_data(nodes[k].grad) == chain_grad(
            nodes,
            tape,
            before.zero(),
            before.one(),
            loss,
            k,
            k + 1,
        )
    &&& forall|k: int, i: int|
        0 <= k < before.param_len() && 0 <= i < before.weights()[k].len() ==> #[trigger] after.weights()[k][i]
            == sgd_value(before.weights()[k][i], step_grad(nodes, tape, before.zero(), before.one(), k)[i], lr)
}

/// `after` is `before` after a training step on the batch `x` with labels `targets`, in which
/// the logits node held `logits` and `loss_fn` returned `out`: some recorded `tape` with those
/// values was back-propagated and the weights moved along its gradients.
pub open spec fn step_recorded<T: Scalar>(
    after: Network<T>,
    before: Network<T>,
    x: Seq<T>,
    targets: Seq<usize>,
    logits: Tensor<T>,
    out: (Tensor<T>, T, T),
    lr: T,
) -> bool {
    exists|tape: Seq<Node<T>>|
        #![trigger step_tape(tape, before, x, targets, out.0, out.2)]
        {
            &&& step_tape(tape, before, x, targets, out.0, out.2)
            &&& tape[tape.len() - 2].data == logits
            &&& trained_on(after, before, tape, lr)
        }
}

/// `softmax` returns the same probabilities (values and shape) for logits with the same values
/// and shape.
pub open spec fn softmax_deterministic<T, F: Fn(&Tensor<T>) -> Tensor<T>>(softmax: F) -> bool {
    forall|a: &Tensor<T>, b: &Tensor<T>, pa: Tensor<T>, pb: Tensor<T>|
        #![trigger softmax.ensures((a,), pa), softmax.ensures((b,), pb)]
        a.data@ == b.data@ && a.shape@ == b.shape@ && softmax.ensures((a,), pa) && softmax.ensures((b,), pb) ==> pa.data@
            == pb.data@ && pa.shape@ == pb.shape@
}

/// `loss_fn` returns the same probabilities, loss and batch value for logits with the same
/// values and shape and the same labels.
pub open spec fn loss_deterministic<T, F: Fn(&Tensor<T>, &[usize]) -> (Tensor<T>, T, T)>(loss_fn: F) -> bool {
    forall|a: &Tensor<T>, ta: &[usize], oa: (Tensor<T>, T, T), b: &Tensor<T>, tb: &[usize], ob: (Tensor<T>, T, T)|
        #![trigger loss_fn.ensures((a, ta), oa), loss_fn.ensures((b, tb), ob)]
        a.data@ == b.data@ && a.shape@ == b.shape@ && ta@ == tb@ && loss_fn.ensures((a, ta), oa) && loss_fn.ensures(
            (b, tb),
            ob,
        ) ==> oa.0.data@ == ob.0.data@ && oa.0.shape@ == ob.0.shape@ && oa.1 == ob.1 && oa.2 == ob.2
}

/// Every layer of a recorded forward pass reads three different nodes.
proof fn lemma_chain_distinct<T>(nodes: Seq<Node<T>>, cfg: ModelConfig, pn: int, logits: int)
    requires
        pn == param_shapes(cfg).len(),
        forward_chain(nodes, cfg, pn, logits),
        logits + 1 < nodes.len(),
        nodes[logits + 1].op is SoftmaxCE,
        forall|k: int| 0 <= k <= pn ==> (#[trigger] nodes[k]).op is Leaf,
    ensures
        forall|j: int| 0 <= j <= logits + 1 ==> operands_distinct(#[trigger] nodes[j].op),
{
    assert forall|j: int| 0 <= j <= logits + 1 implies operands_distinct(#[trigger] nodes[j].op) by {
        if j <= pn {
            assert(nodes[j].op is Leaf);
        }
    }
}

/// The classifier network; it runs on the CPU through the computation graph.
pub struct Network<T> {
    graph: Graph<T>,
    conv1_w: NodeId,
    conv1_b: NodeId,
    conv2_w: Option<NodeId>,
    conv2_b: Option<NodeId>,
    fc_w: NodeId,
    fc_b: NodeId,
    config: ModelConfig,
}

/// Builds the shapes of `param_shapes(config)` as vectors.
fn param_shape_vecs(config: ModelConfig) -> (r: Vec<Vec<usize>>)
    requires
        config_ok(config),
    ensures
        r@.map_values(|v: Vec<usize>| v@) == param_shapes(config),
{
    let flat = config.flat_dim();
    let k = config.conv_kernel;
    let mut r: Vec<Vec<usize>> = Vec::new();
    r.push(shape_vec4(config.conv_out_channels, config.input_channels, k, k));
    r.push(shape_vec1(config.conv_out_channels));
    match config.conv2_out_channels {
        Some(c2) => {
            r.push(shape_vec4(c2, config.conv_out_channels, k, k));
            r.push(shape_vec1(c2));
        },
        None => {},
    }
    r.push(shape_vec2(config.num_classes, flat));
    r.push(shape_vec1(config.num_classes));
    assert(r@.map_values(|v: Vec<usize>| v@) =~= param_shapes(config));
    r
}

/// Builds the shapes of `init_shapes(config)` as vectors.
fn init_shape_vecs(config: ModelConfig) -> (r: Vec<Vec<usize>>)
    requires
        config_ok(config),
    ensures
        r@.map_values(|v: Vec<usize>| v@) == init_shapes(config),
{
    let flat = config.flat_dim();
    let k = config.conv_kernel;
    let mut r: Vec<Vec<usize>> = Vec::new();
    r.push(shape_vec4(config.conv_out_channels, config.input_channels, k, k));
    match config.conv2_out_channels {
        Some(c2) => {
            r.push(shape_vec4(c2, config.conv_out_channels, k, k));
        },
        None => {},
    }
    r.push(shape_vec2(config.num_classes, flat));
    assert(r@.map_values(|v: Vec<usize>| v@) =~= init_shapes(config));
    r
}

/// Shape and fan-in of every tensor the network initialises at random, in the order
/// `Network::new` takes them; the biases start at zero.
pub fn weight_init_specs(config: ModelConfig) -> (r: Vec<(Vec<usize>, usize)>)
    requires
        config_ok(config),
    ensures
        r.len() == init_shapes(config).len(),
        forall|k: int| 0 <= k < r.len() ==> (#[trigger] r@[k]).0@ == init_shapes(config)[k],
        forall|k: int| 0 <= k < r.len() ==> (#[trigger] r@[k]).1 == init_fan_ins(config)[k],
{
    let shapes = init_shape_vecs(config);
    let k = config.conv_kernel;
    let flat = config.flat_dim();
    let mut fans: Vec<usize> = Vec::new();
    fans.push(config.input_channels * k * k);
    match config.conv2_out_channels {
        Some(c2) => {
            fans.push(config.conv_out_channels * k * k);
        },
        None => {},
    }
    fans.push(flat);
    let mut r: Vec<(Vec<usize>, usize)> = Vec::new();
    let mut i: usize = 0;
    let ghost want = shapes@.map_values(|v: Vec<usize>| v@);
    assert(fans@ =~= init_fan_ins(config).map_values(|f: int| f as usize));
    assert(want.len() == shapes.len());
    while i < shapes.len()
        invariant
            i <= shapes.len(),
            shapes.len() == fans.len(),
            want == init_shapes(config),
            want == shapes@.map_values(|v: Vec<usize>| v@),
            fans@ =~= init_fan_ins(config).map_values(|f: int| f as usize),
            forall|j: int| 0 <= j < init_fan_ins(config).len() ==> 0 <= #[trigger] init_fan_ins(config)[j] <= usize::MAX,
            r.len() == i,
            forall|j: int| 0 <= j < i ==> (#[trigger] r@[j]).0@ == init_shapes(config)[j],
            forall|j: int| 0 <= j < i ==> (#[trigger] r@[j]).1 == init_fan_ins(config)[j],
        decreases shapes.len() - i,
    {
        assert(want[i as int] == shapes@[i as int]@);
        r.push((copy_vec(&shapes[i]), fans[i]));
        i = i + 1;
    }
    r
}

impl<T: Scalar> Network<T> {
    pub closed spec fn config(&self) -> ModelConfig {
        self.config
    }

    pub closed spec fn zero(&self) -> T {
        self.graph.zero()
    }

    pub closed spec fn lowest(&self) -> T {
        self.graph.lowest()
    }

    /// The element type's one, as the network's graph holds it.
    pub closed spec fn one(&self) -> T {
        self.graph.one()
    }

    /// The nodes the network's graph currently holds: the parameters first, then what the
    /// last pass recorded.
    pub closed spec fn tape(&self) -> Seq<Node<T>> {
        self.graph.nodes()
    }

    /// Number of trainable tensors.
    pub open spec fn param_len(&self) -> nat {
        param_shapes(self.config()).len()
    }

    /// Values of the trainable tensors, in `param_shapes` order.
    pub closed spec fn weights(&self) -> Seq<Seq<T>> {
        Seq::new(param_shapes(self.config).len(), |k: int| self.graph.nodes()[k].data.data@)
    }

    /// The graph holds the parameters, with their configured shapes, as its kept prefix, and
    /// the node ids name them in creation order.
    pub closed spec fn wf(&self) -> bool {
        let p = param_shapes(self.config).len();
        &&& config_ok(self.config)
        &&& self.graph.wf()
        &&& self.graph.params_kept()
        &&& self.graph.param_count() == p
        &&& self.graph.parameters() == Seq::new(p, |k: int| k as usize)
        &&& forall|k: int| 0 <= k < p ==> (#[trigger] self.graph.nodes()[k]).data.shape@ == param_shapes(self.config)[k]
        &&& forall|k: int| 0 <= k < p ==> (#[trigger] self.graph.nodes()[k]).op is Leaf
        &&& self.conv1_w == 0
        &&& self.conv1_b == 1
        &&& match self.config.conv2_out_channels {
            Some(_) => {
                &&& self.conv2_w == Some(2usize)
                &&& self.conv2_b == Some(3usize)
                &&& self.fc_w == 4
                &&& self.fc_b == 5
            },
            None => {
                &&& self.conv2_w is None
                &&& self.conv2_b is None
                &&& self.fc_w == 2
                &&& self.fc_b == 3
            },
        }
    }

    /// What a well-formed network holds: a valid configuration, and its graph starts with the
    /// `param_len()` parameter leaves, in `param_shapes` order, holding the weights.
    pub proof fn lemma_wf_facts(&self)
        requires
            self.wf(),
        ensures
            config_ok(self.config()),
            self.weights().len() == self.param_len(),
            self.param_len() <= self.tape().len(),
            forall|k: int| 0 <= k < self.param_len() ==> (#[trigger] self.weights()[k]).len() == shape_product(
                param_shapes(self.config())[k],
            ),
            forall|k: int| 0 <= k < self.param_len() ==> {
                &&& (#[trigger] self.tape()[k]).data.shape@ == param_shapes(self.config())[k]
                &&& self.tape()[k].data.data@ == self.weights()[k]
                &&& self.tape()[k].op is Leaf
            },
    {
        assert forall|k: int| 0 <= k < self.param_len() implies (#[trigger] self.weights()[k]).len()
            == shape_product(param_shapes(self.config())[k]) by {
            assert(node_ok(self.graph.nodes(), k));
        }
    }

    /// A network for `config` on `backend`, whose kernels and classifier weights are `init`
    /// (in `init_shapes` order) and whose biases are zero.
    ///
    /// `zero`, `one` and `lowest` are the element type's zero, one and the value max pooling
    /// starts its scan from.
    pub fn new(config: ModelConfig, backend: Backend, init: Vec<Tensor<T>>, zero: T, one: T, lowest: T) -> (r: Result<
        Self,
        NetworkError,
    >)
        requires
            config_ok(config),
        ensures
            backend == Backend::Gpu ==> r == Err::<Self, NetworkError>(NetworkError::GpuUnavailable),
            backend == Backend::Cpu ==> match layout_check(tensor_layouts(init@), init_shapes(config)) {
                Some(e) => r == Err::<Self, NetworkError>(e),
                None => r matches Ok(net) && {
                    &&& net.wf()
                    &&& net.config() == config
                    &&& net.zero() == zero
                    &&& net.one() == one
                    &&& net.lowest() == lowest
                    &&& net.weights() == initial_weights(
                        config,
                        Seq::new(init@.len(), |k: int| init@[k].data@),
                        zero,
                    )
                    &&& fresh_tape(net.tape(), net.param_len())
                    &&& net.param_len() == param_shapes(config).len()
                    &&& forall|k: int|
                        0 <= k < net.param_len() ==> (#[trigger] net.tape()[k]).data.shape@ == param_shapes(config)[k]
                            && net.tape()[k].data.data@ == net.weights()[k]
                },
            },
    {
        if backend == Backend::Gpu {
            return Err(NetworkError::GpuUnavailable);
        }
        let want = init_shape_vecs(config);
        let ghost got = tensor_layouts(init@);
        if init.len() != want.len() {
            return Err(NetworkError::WeightCount { expected: want.len(), found: init.len() });
        }
        let mut shapes: Vec<Vec<usize>> = Vec::new();
        let mut lens: Vec<usize> = Vec::new();
        let mut i: usize = 0;
        while i < init.len()
            invariant
                i <= init.len(),
                got == tensor_layouts(init@),
                shapes.len() == i,
                lens.len() == i,
                forall|k: int| 0 <= k < i ==> #[trigger] got[k] == (shapes@[k]@, lens@[k] as nat),
            decreases init.len() - i,
        {
            shapes.push(copy_vec(&init[i].shape));
            lens.push(init[i].data.len());
            i = i + 1;
        }
        proof {
            let w = want@.map_values(|v: Vec<usize>| v@);
            assert(w == init_shapes(config));
            assert forall|k: int| 0 <= k < want.len() implies shape_fits(#[trigger] want@[k]@) by {
                assert(w[k] == want@[k]@);
                match config.conv2_out_channels {
                    Some(c2) => {
                        if k == 0 { assert(param_shapes(config)[0] == w[k]); }
                        else if k == 1 { assert(param_shapes(config)[2] == w[k]); }
                        else { assert(param_shapes(config)[4] == w[k]); }
                    },
                    None => {
                        if k == 0 { assert(param_shapes(config)[0] == w[k]); }
                        else { assert(param_shapes(config)[2] == w[k]); }
                    },
                }
            }
        }
        let bad = find_mismatch(Ghost(got), &shapes, &lens, &want);
        proof {
            lemma_first_mismatch_bounds(got, init_shapes(config), 0);
        }
        if bad < init.len() {
            return Err(NetworkError::WeightShape { index: bad });
        }
        proof {
            assert forall|k: int| 0 <= k < init.len() implies layout_matches(
                (#[trigger] init@[k].shape@, init@[k].data@.len()),
                init_shapes(config)[k],
            ) by {
                assert(layout_matches(got[k], init_shapes(config)[k]));
            }
        }
        Ok(Self::build(config, init, zero, one, lowest))
    }

    /// Adds the parameters in creation order to a fresh graph.
    fn build(config: ModelConfig, init: Vec<Tensor<T>>, zero: T, one: T, lowest: T) -> (net: Self)
        requires
            config_ok(config),
            init.len() == init_shapes(config).len(),
            forall|k: int| 0 <= k < init.len() ==> layout_matches(
                (#[trigger] init@[k].shape@, init@[k].data@.len()),
                init_shapes(config)[k],
            ),
        ensures
            net.wf(),
            net.config() == config,
            net.zero() == zero,
            net.one() == one,
            net.lowest() == lowest,
            net.weights() == initial_weights(config, Seq::new(init@.len(), |k: int| init@[k].data@), zero),
            fresh_tape(net.tape(), net.param_len()),
            forall|k: int|
                0 <= k < net.param_len() ==> (#[trigger] net.tape()[k]).data.shape@ == param_shapes(config)[k]
                    && net.tape()[k].data.data@ == net.weights()[k],
    {
        let ghost ps = param_shapes(config);
        let ghost data = Seq::new(init@.len(), |k: int| init@[k].data@);
        proof {
            assert forall|k: int| 0 <= k < ps.len() implies #[trigger] shape_fits(ps[k]) by {}
            lemma_shape1(config.conv_out_channels);
            lemma_shape1(config.num_classes);
        }
        let mut init = init;
        let mut graph: Graph<T> = Graph::new(zero, one, lowest);
        let flat = config.flat_dim();
        // Tensors are taken from the back of `init`: classifier weights, then the kernels.
        let fc_w_t = init.pop().unwrap();
        let (conv2_w_t, conv1_w_t) = match config.conv2_out_channels {
            Some(_) => {
                let c2w = init.pop().unwrap();
                let c1w = init.pop().unwrap();
                (Some(c2w), c1w)
            },
            None => (None, init.pop().unwrap()),
        };
        let conv1_w = graph.add_leaf(conv1_w_t, true);
        let conv1_b = graph.add_leaf(Tensor::zeros(shape_vec1(config.conv_out_channels), zero), true);
        let (conv2_w, conv2_b) = match (config.conv2_out_channels, conv2_w_t) {
            (Some(c2), Some(t)) => {
                proof { lemma_shape1(c2); }
                let w = graph.add_leaf(t, true);
                let b = graph.add_leaf(Tensor::zeros(shape_vec1(c2), zero), true);
                (Some(w), Some(b))
            },
            _ => (None, None),
        };
        let fc_w = graph.add_leaf(fc_w_t, true);
        let fc_b = graph.add_leaf(Tensor::zeros(shape_vec1(config.num_classes), zero), true);
        graph.finalize_params();
        let net = Network { graph, conv1_w, conv1_b, conv2_w, conv2_b, fc_w, fc_b, config };
        proof {
            let p = ps.len();
            assert(net.graph.parameters() =~= Seq::new(p, |k: int| k as usize));
            assert(net.weights() =~= initial_weights(config, data, zero));
        }
        net
    }

    /// The network's trainable tensors as `(shape, data)` pairs, in `param_shapes` order.
    pub closed spec fn saved_pairs(&self) -> Seq<(Seq<usize>, Seq<T>)> {
        Seq::new(self.param_len(), |k: int| (param_shapes(self.config)[k], self.weights()[k]))
    }

    /// Copies of the trainable tensors with their shapes, in `param_shapes` order.
    pub fn save_weights(&self) -> (r: Vec<(Vec<usize>, Vec<T>)>)
        requires
            self.wf(),
        ensures
            pair_views(r@) == self.saved_pairs(),
    {
        let shapes = param_shape_vecs(self.config);
        let mut r: Vec<(Vec<usize>, Vec<T>)> = Vec::new();
        let mut k: usize = 0;
        proof {
            assert(self.graph.nodes().len() >= shapes.len());
        }
        while k < shapes.len()
            invariant
                self.wf(),
                k <= shapes.len(),
                shapes@.map_values(|v: Vec<usize>| v@) == param_shapes(self.config),
                r.len() == k,
                forall|j: int| 0 <= j < k ==> #[trigger] pair_views(r@)[j] == self.saved_pairs()[j],
            decreases shapes.len() - k,
        {
            proof {
                assert(shapes@.map_values(|v: Vec<usize>| v@)[k as int] == shapes@[k as int]@);
            }
            let data = copy_vec(&self.graph.data(k).data);
            let ghost r0 = r@;
            r.push((copy_vec(&shapes[k]), data));
            proof {
                assert forall|j: int| 0 <= j < k + 1 implies #[trigger] pair_views(r@)[j] == self.saved_pairs()[j] by {
                    if j < k {
                        assert(r@[j] == r0[j]);
                        assert(pair_views(r0)[j] == self.saved_pairs()[j]);
                    }
                }
            }
            k = k + 1;
        }
        assert(pair_views(r@) =~= self.saved_pairs());
        r
    }

    /// Replaces the trainable tensors by `tensors` (shape and data, in `param_shapes` order)
    /// when every shape and element count matches; otherwise nothing changes.
    pub fn load_weights(&mut self, tensors: Vec<(Vec<usize>, Vec<T>)>) -> (r: Result<(), NetworkError>)
        requires
            old(self).wf(),
        ensures
            final(self).wf(),
            final(self).config() == old(self).config(),
            final(self).zero() == old(self).zero(),
            final(self).lowest() == old(self).lowest(),
            match layout_check(view_layouts(pair_views(tensors@)), param_shapes(old(self).config())) {
                Some(e) => r == Err::<(), NetworkError>(e) && final(self).weights() == old(self).weights(),
                None => r is Ok && final(self).weights() == view_data(pair_views(tensors@)),
            },
    {
        let want = param_shape_vecs(self.config);
        let ghost got = view_layouts(pair_views(tensors@));
        if tensors.len() != want.len() {
            return Err(NetworkError::WeightCount { expected: want.len(), found: tensors.len() });
        }
        let mut shapes: Vec<Vec<usize>> = Vec::new();
        let mut lens: Vec<usize> = Vec::new();
        let mut i: usize = 0;
        while i < tensors.len()
            invariant
                i <= tensors.len(),
                got == view_layouts(pair_views(tensors@)),
                shapes.len() == i,
                lens.len() == i,
                forall|k: int| 0 <= k < i ==> #[trigger] got[k] == (shapes@[k]@, lens@[k] as nat),
            decreases tensors.len() - i,
        {
            shapes.push(copy_vec(&tensors[i].0));
            lens.push(tensors[i].1.len());
            i = i + 1;
        }
        proof {
            let w = want@.map_values(|v: Vec<usize>| v@);
            assert forall|k: int| 0 <= k < want.len() implies shape_fits(#[trigger] want@[k]@) by {
                assert(w[k] == want@[k]@);
            }
        }
        let bad = find_mismatch(Ghost(got), &shapes, &lens, &want);
        proof {
            lemma_first_mismatch_bounds(got, param_shapes(self.config), 0);
        }
        if bad < tensors.len() {
            return Err(NetworkError::WeightShape { index: bad });
        }
        proof {
            assert forall|j: int| 0 <= j < got.len() implies layout_matches(#[trigger] got[j], param_shapes(self.config)[j]) by {}
        }
        let ghost before = *self;
        let ghost p = param_shapes(self.config).len();
        let ghost orig = pair_views(tensors@);
        let mut tensors = tensors;
        let mut k: usize = tensors.len();
        while k > 0
            invariant
                k <= p,
                tensors.len() == k,
                pair_views(tensors@) == orig.take(k as int),
                orig.len() == p,
                before.wf(),
                p == param_shapes(before.config).len(),
                self.config == before.config,
                self.conv1_w == before.conv1_w,
                self.conv1_b == before.conv1_b,
                self.conv2_w == before.conv2_w,
                self.conv2_b == before.conv2_b,
                self.fc_w == before.fc_w,
                self.fc_b == before.fc_b,
                self.graph.wf(),
                self.graph.nodes().len() == before.graph.nodes().len(),
                self.graph.parameters() == before.graph.parameters(),
                self.graph.param_count() == before.graph.param_count(),
                self.graph.params_kept() == before.graph.params_kept(),
                self.graph.zero() == before.graph.zero(),
                self.graph.lowest() == before.graph.lowest(),
                forall|j: int| 0 <= j < self.graph.nodes().len() ==> (#[trigger] self.graph.nodes()[j]).data.shape@
                    == before.graph.nodes()[j].data.shape@,
                forall|j: int| 0 <= j < self.graph.nodes().len() ==> (#[trigger] self.graph.nodes()[j]).op
                    == before.graph.nodes()[j].op,
                forall|j: int| k <= j < p ==> #[trigger] self.graph.nodes()[j].data.data@ == orig[j].1,
                forall|j: int| 0 <= j < p ==> layout_matches(#[trigger] got[j], param_shapes(before.config)[j]),
                got == view_layouts(orig),
            decreases k,
        {
            let ghost k_head = k;
            assert(forall|j: int| k_head <= j < p ==> #[trigger] self.graph.nodes()[j].data.data@ == orig[j].1);
            k = k - 1;
            let ghost t0 = tensors@;
            let (shape, data) = tensors.pop().unwrap();
            proof {
                assert(pair_views(t0)[k as int] == orig[k as int]);
                assert(layout_matches(got[k as int], param_shapes(before.config)[k as int]));
                assert(shape_fits(param_shapes(before.config)[k as int]));
                assert(self.graph.nodes()[k as int].data.shape@ == param_shapes(before.config)[k as int]);
                assert(pair_views(tensors@) =~= orig.take(k as int)) by {
                    assert forall|j: int| 0 <= j < k implies pair_views(tensors@)[j] == orig[j] by {
                        assert(tensors@[j] == t0[j]);
                        assert(pair_views(t0)[j] == orig.take(k + 1)[j]);
                    }
                }
            }
            let t = Tensor::from_data(data, shape);
            let ghost g_before = self.graph;
            self.graph.set_data(k, t);
            proof {
                assert(self.graph.nodes()[k as int].data.data@ == orig[k as int].1);
                assert forall|j: int| k <= j < p implies #[trigger] self.graph.nodes()[j].data.data@ == orig[j].1 by {
                    if j != k {
                        assert(self.graph.nodes()[j] == g_before.nodes()[j]);
                        assert(g_before.nodes()[j].data.data@ == orig[j].1);
                    }
                }
            }
        }
        proof {
            assert(self.weights() =~= view_data(orig));
        }
        Ok(())
    }

    /// Exporting the weights and loading them into a network of the same configuration is
    /// always accepted (`load_weights` answers `Ok` exactly when `layout_check` finds nothing)
    /// and restores every weight exactly. The two networks then compute the same logits for
    /// every batch, and with a `softmax` that depends on the logits alone they make the same
    /// predictions (`lemma_same_predictions`).
    pub proof fn lemma_saved_weights_reload(&self, other: &Self, x: Seq<T>, n: usize)
        requires
            self.wf(),
            other.wf(),
            other.config() == self.config(),
            other.zero() == self.zero(),
            other.lowest() == self.lowest(),
            other.weights() == view_data(self.saved_pairs()),
        ensures
            layout_check(view_layouts(self.saved_pairs()), param_shapes(self.config())) is None,
            view_data(self.saved_pairs()) == self.weights(),
            forall|logits: Tensor<T>| #[trigger] logits_of(logits, *other, x, n) == logits_of(logits, *self, x, n),
            forward_spec(other.config(), other.weights(), x, n, self.zero(), self.lowest()) == forward_spec(
                self.config(),
                self.weights(),
                x,
                n,
                self.zero(),
                self.lowest(),
            ),
    {
        self.lemma_wf_facts();
        let got = view_layouts(self.saved_pairs());
        let want = param_shapes(self.config());
        lemma_first_mismatch_bounds(got, want, 0);
        if first_mismatch_from(got, want, 0) < got.len() {
            let k = first_mismatch_from(got, want, 0);
            assert(layout_matches(got[k], want[k]));
        }
        assert(view_data(self.saved_pairs()) =~= self.weights());
    }

    /// Two networks with the same configuration, weights and element constants predict the
    /// same for the same batch: a `softmax` that depends on the logits alone gives both the
    /// same probabilities, so `predict_batch` fails for both or for neither, and the
    /// predictions it returns are equal. With `other` the network the saved weights of `self`
    /// were loaded into (see `lemma_saved_weights_reload`), this is the reload law.
    pub proof fn lemma_same_predictions<F: Fn(&Tensor<T>) -> Tensor<T>>(
        &self,
        other: &Self,
        x: Seq<T>,
        n: usize,
        softmax: F,
        l1: Tensor<T>,
        p1: Tensor<T>,
        l2: Tensor<T>,
        p2: Tensor<T>,
        q1: Seq<usize>,
        q2: Seq<usize>,
    )
        requires
            exact_arith::<T>() && exact_order::<T>(),
            other.config() == self.config(),
            other.weights() == self.weights(),
            other.zero() == self.zero(),
            other.lowest() == self.lowest(),
            softmax_deterministic(softmax),
            logits_of(l1, *self, x, n),
            softmax.ensures((&l1,), p1),
            logits_of(l2, *other, x, n),
            softmax.ensures((&l2,), p2),
        ensures
            probs_ok(p1, n, self.config().num_classes) == probs_ok(p2, n, self.config().num_classes),
            predictions_of(q1, p1, n, self.config().num_classes) && predictions_of(q2, p2, n, self.config().num_classes)
                ==> q1 == q2,
    {
        let c = self.config().num_classes;
        assert(l1.data@ == l2.data@);
        assert(l1.shape@ == l2.shape@);
        assert(p1.data@ == p2.data@ && p1.shape@ == p2.shape@);
        if predictions_of(q1, p1, n, c) && predictions_of(q2, p2, n, c) {
            assert(q1 =~= q2);
        }
    }

    /// Two networks with the same configuration, weights and element constants take the same
    /// training step on the same batch and labels when `loss_fn` depends on the logits and
    /// labels alone: both steps fail or neither does, and they report the same loss and the
    /// same predictions (so the same number of correct ones) — see what
    /// `train_step_batch` returns for `out` and its probabilities.
    pub proof fn lemma_same_step<F: Fn(&Tensor<T>, &[usize]) -> (Tensor<T>, T, T)>(
        &self,
        other: &Self,
        x: Seq<T>,
        n: usize,
        targets: &[usize],
        loss_fn: F,
        l1: Tensor<T>,
        o1: (Tensor<T>, T, T),
        l2: Tensor<T>,
        o2: (Tensor<T>, T, T),
    )
        requires
            exact_arith::<T>() && exact_order::<T>(),
            other.config() == self.config(),
            other.weights() == self.weights(),
            other.zero() == self.zero(),
            other.lowest() == self.lowest(),
            loss_deterministic(loss_fn),
            logits_of(l1, *self, x, n),
            loss_fn.ensures((&l1, targets), o1),
            logits_of(l2, *other, x, n),
            loss_fn.ensures((&l2, targets), o2),
        ensures
            o1.1 == o2.1,
            o1.2 == o2.2,
            probs_ok(o1.0, n, self.config().num_classes) == probs_ok(o2.0, n, self.config().num_classes),
            argmax_seq(o1.0, n, self.config().num_classes) == argmax_seq(o2.0, n, self.config().num_classes),
    {
        assert(l1.data@ == l2.data@);
        assert(l1.shape@ == l2.shape@);
        assert(o1.0.data@ == o2.0.data@ && o1.0.shape@ == o2.0.shape@ && o1.1 == o2.1 && o1.2 == o2.2);
        assert(argmax_seq(o1.0, n, self.config().num_classes) =~= argmax_seq(o2.0, n, self.config().num_classes));
    }

    /// `input` is a well-formed batch of images of the configured size that the network can run.
    pub open spec fn input_ok(&self, input: Tensor<T>) -> bool {
        let cfg = self.config();
        &&& input.wf()
        &&& input.shape.len() == 4
        &&& input.shape@[1] == cfg.input_channels
        &&& input.shape@[2] == cfg.input_height
        &&& input.shape@[3] == cfg.input_width
        &&& batch_ok(cfg, input.shape@[0])
    }

    /// Clears the previous iteration and records the forward pass of `input` on the graph;
    /// returns the logits node.
    #[verifier::spinoff_prover]
    #[verifier::rlimit(60)]
    fn forward_logits_node(&mut self, input: &Tensor<T>) -> (id: NodeId)
        requires
            arith_total::<T>(),
            old(self).wf(),
            old(self).input_ok(*input),
        ensures
            final(self).wf(),
            final(self).config() == old(self).config(),
            final(self).weights() == old(self).weights(),
            final(self).zero() == old(self).zero(),
            final(self).lowest() == old(self).lowest(),
            id < final(self).graph.nodes().len(),
            id + 1 == final(self).graph.nodes().len(),
            forward_chain(final(self).graph.nodes(), old(self).config(), old(self).param_len() as int, id as int),
            final(self).graph.no_grads(),
            exact_arith::<T>() && exact_order::<T>() ==> forward_values(
                final(self).graph.nodes(),
                old(self).config(),
                old(self).weights(),
                input.data@,
                input.shape@[0],
                old(self).zero(),
                old(self).lowest(),
                old(self).param_len() as int,
            ),
            final(self).one() == old(self).one(),
            final(self).graph.nodes()[old(self).param_len() as int].op is Leaf,
            final(self).graph.nodes()[old(self).param_len() as int].data.data@ == input.data@,
            final(self).graph.nodes()[id as int].data.shape@ == seq![
                input.shape@[0],
                old(self).config().num_classes,
            ],
            exact_arith::<T>() && exact_order::<T>() ==> final(self).graph.nodes()[id as int].data.data@
                == forward_spec(
                old(self).config(),
                old(self).weights(),
                input.data@,
                input.shape@[0],
                old(self).zero(),
                old(self).lowest(),
            ),
    {
        let ghost ws = self.weights();
        let ghost cfg = self.config;
        let ghost n = input.shape@[0];
        let ghost zero = self.graph.zero();
        let ghost lowest = self.graph.lowest();
        proof {
            self.lemma_wf_facts();
        }
        self.graph.reset_for_iteration();
        let ghost g0 = self.graph;
        proof {
            assert forall|k: int| 0 <= k < param_shapes(cfg).len() implies (#[trigger] g0.nodes()[k]).data.data@ == ws[k]
                && g0.nodes()[k].data.shape@ == param_shapes(cfg)[k] by {}
            assert forall|i: int| 0 <= i < g0.nodes().len() implies (#[trigger] g0.nodes()[i]).grad is None by {
                assert(old(self).graph.parameters()[i] == i as usize);
            }
        }
        let ghost pn = param_shapes(cfg).len() as int;
        let x_id = self.graph.add_leaf(input.duplicate(), false);
        let ghost gx = self.graph;
        proof {
            Self::lemma_prefix_all(g0, g0, gx, x_id as int, pn);
            Graph::lemma_appended_no_grads(&g0, &gx);
        }
        let pad = self.config.conv_padding;
        let ghost s1 = stage1_shape(cfg, n);
        proof {
            lemma_shape1(cfg.conv_out_channels);
            assert(g0.nodes()[1].data.data.len() == cfg.conv_out_channels);
            assert(self.graph.nodes()[0] == g0.nodes()[0]);
            assert(self.graph.nodes()[1] == g0.nodes()[1]);
            assert(self.graph.nodes()[x_id as int].data.shape@ =~= seq![n, cfg.input_channels, cfg.input_height, cfg.input_width]);
        }
        let c1 = self.graph.conv2d(x_id, self.conv1_w, self.conv1_b, pad);
        let ghost g1 = self.graph;
        proof {
            Self::lemma_prefix_all(g0, gx, g1, c1 as int, pn);
            Graph::lemma_appended_no_grads(&gx, &g1);
            Self::lemma_prefix(gx, g1, c1 as int, x_id as int);
        }
        let ghost conv1 = conv_output_seq(input.data@, ws[0], ws[1], s1);
        let ghost relu1 = relu_seq(conv1, zero);
        let ghost pool1 = pool_seq(relu1, n * cfg.conv_out_channels, s1.h_out as int, s1.w_out as int, lowest);
        proof {
            let out = g1.nodes()[c1 as int].data;
            assert(node_ok(g1.nodes(), c1 as int));
            lemma_shape4(s1.n, s1.c_out, s1.h_out, s1.w_out);
            if exact_arith::<T>() {
                lemma_conv_output_seq(out.data@, input.data@, ws[0], ws[1], s1);
            }
        }
        let r1 = self.graph.relu(c1);
        let ghost g2 = self.graph;
        proof {
            Self::lemma_prefix(g1, g2, r1 as int, c1 as int);
            Graph::lemma_appended_no_grads(&g1, &g2);
            Self::lemma_prefix(g1, g2, r1 as int, x_id as int);
            Self::lemma_prefix_all(g0, g1, g2, r1 as int, pn);
            if exact_order::<T>() {
                assert(g2.nodes()[r1 as int].data.data@ =~= relu_seq(g1.nodes()[c1 as int].data.data@, zero));
            }
        }
        let m1 = self.graph.maxpool2x2(r1);
        let ghost g3 = self.graph;
        proof {
            assert(extends(g1.nodes(), gx.nodes()));
            assert(extends(g2.nodes(), g1.nodes()));
            assert(extends(g3.nodes(), g2.nodes()));
            lemma_extends_trans(g1.nodes(), g2.nodes(), g3.nodes());
            lemma_extends_at(g1.nodes(), g3.nodes(), c1 as int);
            lemma_extends_at(g2.nodes(), g3.nodes(), r1 as int);
            assert(stage1_chain(g3.nodes(), pn));
            Self::lemma_prefix(g2, g3, m1 as int, r1 as int);
            Graph::lemma_appended_no_grads(&g2, &g3);
            Self::lemma_prefix(g2, g3, m1 as int, x_id as int);
            Self::lemma_prefix_all(g0, g2, g3, m1 as int, pn);
            let out = g3.nodes()[m1 as int].data;
            assert(node_ok(g3.nodes(), m1 as int));
            lemma_shape4(n, cfg.conv_out_channels, s1.h_out / 2, s1.w_out / 2);
            assert(out.shape@ == seq![n, cfg.conv_out_channels, s1.h_out / 2, s1.w_out / 2]);
            if exact_arith::<T>() && exact_order::<T>() {
                lemma_pool_seq(out.data@, relu1, n * cfg.conv_out_channels, s1.h_out as int, s1.w_out as int, lowest);
                assert(out.data@ == pool1);
                let a = g3.nodes()[m1 as int].aux_argmax.unwrap();
                lemma_pool_argmax_seq(a@, relu1, n * cfg.conv_out_channels, s1.h_out as int, s1.w_out as int, lowest);
                assert(g1.nodes()[c1 as int].data.data@ == conv1);
                assert(g3.nodes()[c1 as int] == g1.nodes()[c1 as int]);
                assert(g3.nodes()[r1 as int] == g2.nodes()[r1 as int]);
                assert(g3.nodes()[r1 as int].data.data@ == relu1);
            }
        }
        let last = match (self.conv2_w, self.conv2_b) {
            (Some(w2), Some(b2)) => {
                let ghost c2 = cfg.conv2_out_channels.unwrap();
                let ghost s2 = stage2_shape(cfg, n, c2);
                let ghost conv2 = conv_output_seq(pool1, ws[2], ws[3], s2);
                let ghost relu2 = relu_seq(conv2, zero);
                let ghost pool2 = pool_seq(relu2, n * c2, s2.h_out as int, s2.w_out as int, lowest);
                proof {
                    lemma_shape1(c2);
                    assert(g0.nodes()[2].data.shape@ == conv2_weight_shape(cfg, c2));
                    assert(g0.nodes()[3].data.data.len() == c2);
                }
                let c2_id = self.graph.conv2d(m1, w2, b2, pad);
                let ghost g4 = self.graph;
                proof {
                    Self::lemma_prefix(g3, g4, c2_id as int, m1 as int);
                    Graph::lemma_appended_no_grads(&g3, &g4);
                    Self::lemma_prefix(g3, g4, c2_id as int, x_id as int);
                    Self::lemma_prefix_all(g0, g3, g4, c2_id as int, pn);
                    let out = g4.nodes()[c2_id as int].data;
                    assert(node_ok(g4.nodes(), c2_id as int));
                    lemma_shape4(s2.n, s2.c_out, s2.h_out, s2.w_out);
                    if exact_arith::<T>() && exact_order::<T>() {
                        lemma_conv_output_seq(out.data@, pool1, ws[2], ws[3], s2);
                    }
                }
                let r2 = self.graph.relu(c2_id);
                let ghost g5 = self.graph;
                proof {
                    Self::lemma_prefix(g4, g5, r2 as int, c2_id as int);
                    Graph::lemma_appended_no_grads(&g4, &g5);
                    Self::lemma_prefix(g4, g5, r2 as int, x_id as int);
                    Self::lemma_prefix_all(g0, g4, g5, r2 as int, pn);
                    if exact_order::<T>() {
                        assert(g5.nodes()[r2 as int].data.data@ =~= relu_seq(g4.nodes()[c2_id as int].data.data@, zero));
                    }
                }
                let m2 = self.graph.maxpool2x2(r2);
                proof {
                    let g6 = self.graph;
                    assert(extends(g4.nodes(), g3.nodes()));
                    assert(extends(g5.nodes(), g4.nodes()));
                    assert(extends(g6.nodes(), g5.nodes()));
                    lemma_extends_trans(g3.nodes(), g4.nodes(), g5.nodes());
                    lemma_extends_trans(g3.nodes(), g5.nodes(), g6.nodes());
                    lemma_extends_trans(g4.nodes(), g5.nodes(), g6.nodes());
                    lemma_stage1_chain_kept(g3.nodes(), g6.nodes(), pn);
                    lemma_extends_at(g4.nodes(), g6.nodes(), c2_id as int);
                    lemma_extends_at(g5.nodes(), g6.nodes(), r2 as int);
                    assert(stage2_chain(g6.nodes(), pn));
                    Self::lemma_prefix(g5, g6, m2 as int, r2 as int);
                    Graph::lemma_appended_no_grads(&g5, &g6);
                    Self::lemma_prefix(g5, g6, m2 as int, x_id as int);
                    Self::lemma_prefix_all(g0, g5, g6, m2 as int, pn);
                    let out = g6.nodes()[m2 as int].data;
                    assert(node_ok(g6.nodes(), m2 as int));
                    lemma_shape4(n, c2, s2.h_out / 2, s2.w_out / 2);
                    if exact_arith::<T>() && exact_order::<T>() {
                        lemma_pool_seq(out.data@, relu2, n * c2, s2.h_out as int, s2.w_out as int, lowest);
                        let a = g6.nodes()[m2 as int].aux_argmax.unwrap();
                        lemma_pool_argmax_seq(a@, relu2, n * c2, s2.h_out as int, s2.w_out as int, lowest);
                        assert(g4.nodes()[c2_id as int].data.data@ == conv2);
                        assert(g6.nodes()[c2_id as int].data.data@ == conv2);
                        assert(g6.nodes()[r2 as int].data.data@ == relu2);
                        lemma_extends_at(g3.nodes(), g6.nodes(), c1 as int);
                        lemma_extends_at(g3.nodes(), g6.nodes(), r1 as int);
                        lemma_extends_at(g3.nodes(), g6.nodes(), m1 as int);
                    }
                }
                m2
            },
            _ => m1,
        };
        let ghost feat = forward_features(cfg, ws, input.data@, n, zero, lowest);
        let ghost fshape = feature_shape(cfg, n);
        let ghost fc_at = param_shapes(cfg).len() - 2;
        proof {
            match cfg.conv2_out_channels {
                Some(c2) => {
                    assert(stage1_chain(self.graph.nodes(), pn) && stage2_chain(self.graph.nodes(), pn));
                    assert(last == pn + 6);
                },
                None => {
                    assert(last == m1);
                    assert(stage1_chain(self.graph.nodes(), pn));
                    assert(last == pn + 3);
                },
            }
            assert(self.graph.wf());
            assert(last as int == self.graph.nodes().len() - 1);
            assert(self.graph.nodes()[last as int].data.shape@ == fshape);
            assert(exact_arith::<T>() && exact_order::<T>() ==> self.graph.nodes()[last as int].data.data@ == feat);
            assert(forall|k: int| 0 <= k < pn ==> #[trigger] self.graph.nodes()[k] == g0.nodes()[k]);
            assert(self.graph.params_kept());
            assert(self.graph.param_count() == pn);
        }
        let ghost ga = self.graph;
        let ghost flat = cfg.spec_flat_dim();
        proof {
            let (a, b, c, d) = (fshape[0], fshape[1], fshape[2], fshape[3]);
            assert(node_ok(ga.nodes(), last as int));
            lemma_shape4(a, b, c, d);
            assert(b * c * d == flat) by {
                match cfg.conv2_out_channels {
                    Some(c2) => {
                        let s2 = stage2_shape(cfg, n, c2);
                        assert(c == cfg.spec_pool2_height());
                        assert(d == cfg.spec_pool2_width());
                    },
                    None => {
                        assert(c == cfg.spec_pool1_height());
                        assert(d == cfg.spec_pool1_width());
                    },
                }
            }
            assert((a * b) * (c * d) == a * (b * c * d)) by (nonlinear_arith);
            vstd::arithmetic::div_mod::lemma_div_multiples_vanish((b * c * d) as int, a as int);
        }
        let f = self.graph.flatten(last);
        let ghost gf = self.graph;
        proof {
            Self::lemma_prefix(ga, gf, f as int, last as int);
            Graph::lemma_appended_no_grads(&ga, &gf);
            Self::lemma_prefix(ga, gf, f as int, x_id as int);
            Self::lemma_prefix_all(g0, ga, gf, f as int, pn);
            lemma_shape1(cfg.num_classes);
            lemma_shape2(n, cfg.num_classes);
        }
        let logits = self.graph.linear(f, self.fc_w, self.fc_b);
        let ghost gl = self.graph;
        proof {
            Self::lemma_prefix_all(g0, gf, gl, logits as int, pn);
            Graph::lemma_appended_no_grads(&gf, &gl);
            Self::lemma_prefix(gf, gl, logits as int, x_id as int);
            let out = gl.nodes()[logits as int].data;
            assert(node_ok(gl.nodes(), logits as int));
            if exact_arith::<T>() && exact_order::<T>() {
                lemma_linear_seq(out.data@, feat, ws[fc_at], ws[fc_at + 1], flat, n as int, cfg.num_classes as int);
            }
            assert forall|k: int| 0 <= k < pn implies (#[trigger] gl.nodes()[k]).data.shape@ == param_shapes(cfg)[k] by {
                assert(gl.nodes()[k] == g0.nodes()[k]);
            }
            assert(gl.parameters() == g0.parameters());
            assert(self.weights() =~= ws);
            assert(extends(gf.nodes(), ga.nodes()));
            assert(extends(gl.nodes(), gf.nodes()));
            lemma_extends_trans(ga.nodes(), gf.nodes(), gl.nodes());
            lemma_stage1_chain_kept(ga.nodes(), gl.nodes(), pn);
            if cfg.conv2_out_channels is Some {
                lemma_stage2_chain_kept(ga.nodes(), gl.nodes(), pn);
            }
            lemma_extends_at(gf.nodes(), gl.nodes(), f as int);
            assert(forward_chain(gl.nodes(), cfg, pn, logits as int));
            if exact_arith::<T>() && exact_order::<T>() {
                assert(c1 == pn + 1 && r1 == pn + 2 && m1 == pn + 3);
                lemma_extends_at(ga.nodes(), gl.nodes(), pn + 1);
                lemma_extends_at(ga.nodes(), gl.nodes(), pn + 2);
                lemma_extends_at(ga.nodes(), gl.nodes(), pn + 3);
                if cfg.conv2_out_channels is Some {
                    lemma_extends_at(ga.nodes(), gl.nodes(), pn + 4);
                    lemma_extends_at(ga.nodes(), gl.nodes(), pn + 5);
                    lemma_extends_at(ga.nodes(), gl.nodes(), pn + 6);
                }
                assert(gf.nodes()[f as int].data.data@ == feat);
                assert(forward_values(gl.nodes(), cfg, ws, input.data@, n, zero, lowest, pn));
            }
        }
        logits
    }

    proof fn lemma_prefix(a: Graph<T>, b: Graph<T>, id: int, k: int)
        requires
            0 <= k < id,
            id == a.nodes().len(),
            b.nodes().len() > id,
            b.nodes().take(id) == a.nodes(),
        ensures
            b.nodes()[k] == a.nodes()[k],
    {
        assert(b.nodes().take(id)[k] == b.nodes()[k]);
    }

    /// Appending a node to `a` keeps the first `p` nodes, which `a` shares with `base`.
    proof fn lemma_prefix_all(base: Graph<T>, a: Graph<T>, b: Graph<T>, id: int, p: int)
        requires
            p <= id,
            id == a.nodes().len(),
            b.nodes().len() > id,
            b.nodes().take(id) == a.nodes(),
            forall|k: int| 0 <= k < p ==> #[trigger] a.nodes()[k] == base.nodes()[k],
        ensures
            forall|k: int| 0 <= k < p ==> #[trigger] b.nodes()[k] == base.nodes()[k],
    {
        assert forall|k: int| 0 <= k < p implies #[trigger] b.nodes()[k] == base.nodes()[k] by {
            assert(b.nodes().take(id)[k] == b.nodes()[k]);
            assert(a.nodes()[k] == base.nodes()[k]);
        }
    }

    /// Logits `[n, num_classes]` of the batch `input`; the graph is cleared first and the
    /// weights are not changed.
    pub fn forward_logits(&mut self, input: &Tensor<T>) -> (logits: Tensor<T>)
        requires
            arith_total::<T>(),
            old(self).wf(),
            old(self).input_ok(*input),
        ensures
            final(self).wf(),
            final(self).config() == old(self).config(),
            final(self).weights() == old(self).weights(),
            final(self).zero() == old(self).zero(),
            final(self).lowest() == old(self).lowest(),
            logits.wf(),
            logits.shape@ == seq![input.shape@[0], old(self).config().num_classes],
            exact_arith::<T>() && exact_order::<T>() ==> logits.data@ == forward_spec(
                old(self).config(),
                old(self).weights(),
                input.data@,
                input.shape@[0],
                old(self).zero(),
                old(self).lowest(),
            ),
    {
        let id = self.forward_logits_node(input);
        proof {
            assert(node_ok(self.graph.nodes(), id as int));
        }
        self.graph.data(id).duplicate()
    }

    /// Predicted class of every image of the batch `input`: the position of the largest
    /// probability in its row, where `softmax` turns the logits into probabilities (ties go
    /// to the last largest). Fails when `softmax` does not return an `[n, num_classes]` tensor.
    pub fn predict_batch(&mut self, input: &Tensor<T>, softmax: impl Fn(&Tensor<T>) -> Tensor<T>) -> (r: Result<
        Vec<usize>,
        NetworkError,
    >)
        requires
            arith_total::<T>(),
            old(self).wf(),
            old(self).input_ok(*input),
            old(self).config().num_classes > 0,
            forall|t: &Tensor<T>| softmax.requires((t,)),
        ensures
            final(self).wf(),
            final(self).config() == old(self).config(),
            final(self).weights() == old(self).weights(),
            final(self).zero() == old(self).zero(),
            final(self).lowest() == old(self).lowest(),
            exists|logits: Tensor<T>, probs: Tensor<T>|
                {
                    &&& logits_of(logits, *old(self), input.data@, input.shape@[0])
                    &&& softmax.ensures((&logits,), probs)
                    &&& (r is Ok <==> probs_ok(probs, input.shape@[0], old(self).config().num_classes))
                    &&& (r matches Ok(p) ==> predictions_of(p@, probs, input.shape@[0], old(self).config().num_classes))
                },
    {
        let logits = self.forward_logits(input);
        let probs = softmax(&logits);
        let n = input.shape[0];
        let classes = self.config.num_classes;
        if !Self::check_probs(&probs, n, classes) {
            return Err(NetworkError::ProbabilityShape);
        }
        let p = argmax_rows(&probs.data, n, classes);
        proof {
            assert(predictions_of(p@, probs, n, classes));
        }
        Ok(p)
    }

    /// Like `predict_batch`, also returning the probabilities of every image, row after row
    /// (`n * num_classes` values).
    pub fn predict_batch_with_scores(&mut self, input: &Tensor<T>, softmax: impl Fn(&Tensor<T>) -> Tensor<T>) -> (r:
        Result<(Vec<usize>, Vec<T>), NetworkError>)
        requires
            arith_total::<T>(),
            old(self).wf(),
            old(self).input_ok(*input),
            old(self).config().num_classes > 0,
            forall|t: &Tensor<T>| softmax.requires((t,)),
        ensures
            final(self).wf(),
            final(self).config() == old(self).config(),
            final(self).weights() == old(self).weights(),
            final(self).zero() == old(self).zero(),
            final(self).lowest() == old(self).lowest(),
            exists|logits: Tensor<T>, probs: Tensor<T>|
                #![trigger softmax.ensures((&logits,), probs)]
                {
                    let n = input.shape@[0];
                    let classes = old(self).config().num_classes;
                    &&& logits_of(logits, *old(self), input.data@, input.shape@[0])
                    &&& softmax.ensures((&logits,), probs)
                    &&& (r is Ok <==> probs_ok(probs, n, classes))
                    &&& (r matches Ok((p, scores)) ==> predictions_of(p@, probs, n, classes) && scores@ == probs.data@)
                },
    {
        let logits = self.forward_logits(input);
        let probs = softmax(&logits);
        let n = input.shape[0];
        let classes = self.config.num_classes;
        if !Self::check_probs(&probs, n, classes) {
            return Err(NetworkError::ProbabilityShape);
        }
        let p = argmax_rows(&probs.data, n, classes);
        proof {
            assert(predictions_of(p@, probs, n, classes));
        }
        Ok((p, probs.data))
    }

    /// One SGD step on the batch `input` with labels `targets`: a forward pass, the mean
    /// softmax cross-entropy loss, back-propagation and `w -= lr * grad` on every weight.
    ///
    /// `loss_fn` maps the logits and labels to the row-wise softmax probabilities, the mean
    /// cross-entropy and the batch size, all in the element type. Returns the loss and the
    /// predicted class of every image; fails, changing no weight, when the probabilities do
    /// not have the logits' shape.
    ///
    /// The third value of `loss_fn` is the divisor of the loss node's gradient (the row count
    /// `n` in the element type, for a mean loss); the library takes it as given. With exact
    /// element types every weight ends as `sgd_value(old, g, lr)` where `g` is the chain-rule
    /// gradient of the recorded pass (`step_recorded`).
    pub fn train_step_batch_with_predictions(
        &mut self,
        input: &Tensor<T>,
        targets: &[usize],
        lr: T,
        loss_fn: impl Fn(&Tensor<T>, &[usize]) -> (Tensor<T>, T, T),
    ) -> (r: Result<(T, Vec<usize>), NetworkError>)
        requires
            arith_total::<T>(),
            old(self).wf(),
            old(self).input_ok(*input),
            old(self).config().num_classes > 0,
            targets@.len() == input.shape@[0],
            forall|b: int| 0 <= b < targets@.len() ==> #[trigger] targets@[b] < old(self).config().num_classes,
            forall|t: &Tensor<T>, ts: &[usize]| loss_fn.requires((t, ts)),
        ensures
            final(self).wf(),
            final(self).config() == old(self).config(),
            final(self).zero() == old(self).zero(),
            final(self).lowest() == old(self).lowest(),
            exists|logits: Tensor<T>, out: (Tensor<T>, T, T)|
                #![trigger loss_fn.ensures((&logits, targets), out)]
                {
                    let n = input.shape@[0];
                    let classes = old(self).config().num_classes;
                    &&& logits_of(logits, *old(self), input.data@, input.shape@[0])
                    &&& loss_fn.ensures((&logits, targets), out)
                    &&& (r is Ok <==> probs_ok(out.0, n, classes))
                    &&& (r matches Ok((loss, p)) ==> loss == out.1 && predictions_of(p@, out.0, n, classes))
                    &&& (r is Ok && exact_arith::<T>() && exact_order::<T>() ==> step_recorded(
                        *final(self),
                        *old(self),
                        input.data@,
                        targets@,
                        logits,
                        out,
                        lr,
                    ))
                },
            r is Err ==> final(self).weights() == old(self).weights(),
            r is Ok && exact_arith::<T>() ==> forall|k: int|
                0 <= k < old(self).param_len() ==> #[trigger] sgd_updated(
                    final(self).weights()[k],
                    old(self).weights()[k],
                    lr,
                ),
    {
        let ghost w0 = self.weights();
        let ghost net0 = *self;
        let logits_id = self.forward_logits_node(input);
        proof {
            assert(node_ok(self.graph.nodes(), logits_id as int));
        }
        let out = loss_fn(self.graph.data(logits_id), targets);
        let (probs, loss, batch) = out;
        let n = input.shape[0];
        let classes = self.config.num_classes;
        if !Self::check_probs(&probs, n, classes) {
            return Err(NetworkError::ProbabilityShape);
        }
        proof {
            lemma_shape2(n, classes);
        }
        let ghost g1 = self.graph;
        let loss_id = self.graph.softmax_ce(logits_id, targets, probs, loss, batch);
        let predictions = self.graph.predictions_for_loss(loss_id);
        let ghost g2 = self.graph;
        self.graph.backward(loss_id);
        let ghost g3 = self.graph;
        self.graph.sgd_step(lr);
        proof {
            let pn = self.param_len() as int;
            Self::lemma_prefix_all(g1, g1, g2, loss_id as int, pn);
            assert forall|k: int| 0 <= k < pn implies (#[trigger] self.graph.nodes()[k]).data.shape@ == param_shapes(
                self.config,
            )[k] by {
                assert(g2.nodes()[k] == g1.nodes()[k]);
                assert(g3.nodes()[k].data == g2.nodes()[k].data);
            }
            if exact_arith::<T>() {
                let cfg = self.config;
                let logits = logits_id as int;
                let loss = loss_id as int;
                assert(loss == logits + 1);
                lemma_forward_chain_ops(g1.nodes(), g2.nodes(), cfg, pn, logits);
                assert forall|i: int| 0 <= i < g2.nodes().len() implies (#[trigger] g3.nodes()[i]).op
                    == g2.nodes()[i].op by {
                    assert(same_frame(g3.nodes()[i], g2.nodes()[i]));
                }
                lemma_forward_chain_ops(g2.nodes(), g3.nodes(), cfg, pn, logits);
                assert(same_frame(g3.nodes()[loss], g2.nodes()[loss]));
                lemma_params_need_grad(g3.nodes(), cfg, pn, logits);
                assert forall|k: int| 0 <= k < pn implies #[trigger] sgd_updated(self.weights()[k], w0[k], lr) by {
                    assert(g2.nodes()[k] == g1.nodes()[k]);
                    assert(g3.nodes()[k].data == g2.nodes()[k].data);
                    let a = self.graph.nodes()[k];
                    let b = g3.nodes()[k];
                    assert(node_ok(g3.nodes(), k));
                    assert(needs_grad(g3.nodes(), loss, k));
                    assert(b.grad is Some);
                    assert(g3.parameters()[k] == k as usize);
                    assert(g3.parameters().contains(k as usize));
                    let g = b.grad.unwrap().data@;
                    assert(a.data.data@.len() == b.data.data@.len());
                    assert(g.len() == w0[k].len());
                    assert(forall|i: int|
                        0 <= i < w0[k].len() ==> #[trigger] self.weights()[k][i] == sgd_value(w0[k][i], g[i], lr));
                }
                if exact_order::<T>() {
                    let tape = g2.nodes();
                    let zero = net0.zero();
                    let one = net0.one();
                    assert(g1.no_grads());
                    Graph::lemma_appended_no_grads(&g1, &g2);
                    Self::lemma_prefix(g1, g2, loss_id as int, pn);
                    assert forall|k: int| 0 <= k <= pn implies (#[trigger] tape[k]).op is Leaf by {
                        if k < pn {
                            assert(g2.nodes()[k] == g1.nodes()[k]);
                        }
                    }
                    lemma_chain_distinct(tape, cfg, pn, logits);
                    assert forall|k: int| 0 <= k < pn implies (#[trigger] tape[k]).data.data@ == net0.weights()[k]
                        && tape[k].op is Leaf by {
                        assert(g2.nodes()[k] == g1.nodes()[k]);
                    }
                    assert forall|k: int| 0 <= k < g1.nodes().len() implies #[trigger] tape[k] == g1.nodes()[k] by {
                        Self::lemma_prefix(g1, g2, loss_id as int, k);
                    }
                    lemma_forward_values_kept(
                        g1.nodes(),
                        tape,
                        cfg,
                        net0.weights(),
                        input.data@,
                        n,
                        net0.zero(),
                        net0.lowest(),
                        pn,
                    );
                    assert(step_tape(tape, net0, input.data@, targets@, out.0, out.2));
                    lemma_chain_grad_stable(g3.nodes(), self.graph.nodes(), tape, zero, one, loss, 0, 0);
                    assert forall|k: int| 0 <= k <= loss implies #[trigger] grad_data(self.graph.nodes()[k].grad) == chain_grad(
                        self.graph.nodes(),
                        tape,
                        zero,
                        one,
                        loss,
                        k,
                        k + 1,
                    ) by {
                        lemma_chain_grad_stable(g3.nodes(), self.graph.nodes(), tape, zero, one, loss, k, k + 1);
                        assert(self.graph.nodes()[k].grad == g3.nodes()[k].grad);
                    }
                    assert forall|k: int, i: int|
                        0 <= k < pn && 0 <= i < w0[k].len() implies #[trigger] self.weights()[k][i] == sgd_value(
                        w0[k][i],
                        step_grad(self.graph.nodes(), tape, zero, one, k)[i],
                        lr,
                    ) by {
                        assert(g2.nodes()[k] == g1.nodes()[k]);
                        assert(g3.nodes()[k].data == g2.nodes()[k].data);
                        assert(node_ok(g3.nodes(), k));
                        assert(needs_grad(g3.nodes(), loss, k));
                        assert(g3.parameters()[k] == k as usize);
                        assert(g3.parameters().contains(k as usize));
                        assert(grad_data(self.graph.nodes()[k].grad) == chain_grad(self.graph.nodes(), tape, zero, one, loss, k, k + 1));
                    }
                    assert(trained_on(*self, net0, tape, lr));
                    assert(tape[tape.len() - 2].data == g1.nodes()[logits_id as int].data);
                }
            }
        }
        Ok((loss, predictions))
    }

    /// One SGD step on a batch, as `train_step_batch_with_predictions`; returns the loss and
    /// how many images were predicted correctly.
    pub fn train_step_batch(
        &mut self,
        input: &Tensor<T>,
        targets: &[usize],
        lr: T,
        loss_fn: impl Fn(&Tensor<T>, &[usize]) -> (Tensor<T>, T, T),
    ) -> (r: Result<(T, usize), NetworkError>)
        requires
            arith_total::<T>(),
            old(self).wf(),
            old(self).input_ok(*input),
            old(self).config().num_classes > 0,
            targets@.len() == input.shape@[0],
            forall|b: int| 0 <= b < targets@.len() ==> #[trigger] targets@[b] < old(self).config().num_classes,
            forall|t: &Tensor<T>, ts: &[usize]| loss_fn.requires((t, ts)),
        ensures
            final(self).wf(),
            final(self).config() == old(self).config(),
            final(self).zero() == old(self).zero(),
            final(self).lowest() == old(self).lowest(),
            exists|logits: Tensor<T>, out: (Tensor<T>, T, T)|
                #![trigger loss_fn.ensures((&logits, targets), out)]
                {
                    let n = input.shape@[0];
                    let classes = old(self).config().num_classes;
                    &&& logits_of(logits, *old(self), input.data@, n)
                    &&& loss_fn.ensures((&logits, targets), out)
                    &&& (r is Ok <==> probs_ok(out.0, n, classes))
                    &&& (r matches Ok((loss, correct)) ==> {
                        &&& loss == out.1
                        &&& correct <= n
                        &&& exact_order::<T>() ==> correct == count_matches(
                            argmax_seq(out.0, n, classes),
                            targets@,
                            n as nat,
                        )
                    })
                    &&& (r is Ok && exact_arith::<T>() && exact_order::<T>() ==> step_recorded(
                        *final(self),
                        *old(self),
                        input.data@,
                        targets@,
                        logits,
                        out,
                        lr,
                    ))
                },
            r is Err ==> final(self).weights() == old(self).weights(),
            r is Ok && exact_arith::<T>() ==> forall|k: int|
                0 <= k < old(self).param_len() ==> #[trigger] sgd_updated(
                    final(self).weights()[k],
                    old(self).weights()[k],
                    lr,
                ),
    {
        let r = self.train_step_batch_with_predictions(input, targets, lr, loss_fn);
        match r {
            Ok((loss, predictions)) => {
                let correct = count_correct(&predictions, targets);
                proof {
                    let n = input.shape@[0];
                    let classes = self.config.num_classes;
                    let (logits, out) = choose|logits: Tensor<T>, out: (Tensor<T>, T, T)|
                        {
                            &&& logits_of(logits, *old(self), input.data@, n)
                            &&& #[trigger] loss_fn.ensures((&logits, targets), out)
                            &&& (r is Ok <==> probs_ok(out.0, n, classes))
                            &&& (r matches Ok((loss, p)) ==> loss == out.1 && predictions_of(p@, out.0, n, classes))
                            &&& (r is Ok && exact_arith::<T>() && exact_order::<T>() ==> step_recorded(
                                *self,
                                *old(self),
                                input.data@,
                                targets@,
                                logits,
                                out,
                                lr,
                            ))
                        };
                    if exact_order::<T>() {
                        assert(predictions@ =~= argmax_seq(out.0, n, classes));
                    }
                }
                Ok((loss, correct))
            },
            Err(e) => Err(e),
        }
    }

    /// One SGD step on the single image `input` (any shape with `input_dim` elements) with
    /// label `target`; returns the loss and the predicted class.
    pub fn train_step(
        &mut self,
        input: &Tensor<T>,
        target: usize,
        lr: T,
        loss_fn: impl Fn(&Tensor<T>, &[usize]) -> (Tensor<T>, T, T),
    ) -> (r: Result<(T, usize), NetworkError>)
        requires
            arith_total::<T>(),
            old(self).wf(),
            input.data@.len() == old(self).config().spec_input_dim(),
            old(self).config().input_channels * old(self).config().input_height <= usize::MAX,
            batch_ok(old(self).config(), 1),
            old(self).config().num_classes > 0,
            target < old(self).config().num_classes,
            forall|t: &Tensor<T>, ts: &[usize]| loss_fn.requires((t, ts)),
        ensures
            final(self).wf(),
            final(self).config() == old(self).config(),
            final(self).zero() == old(self).zero(),
            final(self).lowest() == old(self).lowest(),
            exists|logits: Tensor<T>, ts: &[usize], out: (Tensor<T>, T, T)|
                #![trigger loss_fn.ensures((&logits, ts), out)]
                {
                    let classes = old(self).config().num_classes;
                    &&& ts@ == seq![target]
                    &&& logits_of(logits, *old(self), input.data@, 1)
                    &&& loss_fn.ensures((&logits, ts), out)
                    &&& (r is Ok <==> probs_ok(out.0, 1, classes))
                    &&& (r matches Ok((loss, predicted)) ==> {
                        &&& loss == out.1
                        &&& predicted < classes
                        &&& exact_order::<T>() ==> predicted == argmax_prefix(out.0.data@, 0, classes as nat)
                    })
                    &&& (r is Ok && exact_arith::<T>() && exact_order::<T>() ==> step_recorded(
                        *final(self),
                        *old(self),
                        input.data@,
                        seq![target],
                        logits,
                        out,
                        lr,
                    ))
                },
            r is Err ==> final(self).weights() == old(self).weights(),
            r is Ok && exact_arith::<T>() ==> forall|k: int|
                0 <= k < old(self).param_len() ==> #[trigger] sgd_updated(
                    final(self).weights()[k],
                    old(self).weights()[k],
                    lr,
                ),
    {
        let cfg = self.config;
        let shape = shape_vec4(1, cfg.input_channels, cfg.input_height, cfg.input_width);
        proof {
            lemma_shape4(1, cfg.input_channels, cfg.input_height, cfg.input_width);
            let s1 = stage1_shape(cfg, 1);
            assert(s1.n * s1.c_in <= usize::MAX);
            assert(cfg.input_channels * cfg.input_height * cfg.input_width == (1 * cfg.input_channels) * (
            cfg.input_height * cfg.input_width)) by (nonlinear_arith);
        }
        let batch = Tensor::from_data(copy_vec(&input.data), shape);
        let targets: Vec<usize> = vec![target];
        proof {
            assert(targets@ =~= seq![target]);
        }
        let ts = targets.as_slice();
        let r = self.train_step_batch_with_predictions(&batch, ts, lr, loss_fn);
        match r {
            Ok((loss, predictions)) => {
                proof {
                    let classes = self.config.num_classes;
                    let (logits, out) = choose|logits: Tensor<T>, out: (Tensor<T>, T, T)|
                        {
                            &&& logits_of(logits, *old(self), batch.data@, 1)
                            &&& #[trigger] loss_fn.ensures((&logits, ts), out)
                            &&& (r is Ok <==> probs_ok(out.0, 1, classes))
                            &&& (r matches Ok((loss, p)) ==> loss == out.1 && predictions_of(p@, out.0, 1, classes))
                            &&& (r is Ok && exact_arith::<T>() && exact_order::<T>() ==> step_recorded(
                                *self,
                                *old(self),
                                batch.data@,
                                ts@,
                                logits,
                                out,
                                lr,
                            ))
                        };
                    assert(0 * classes == 0);
                }
                Ok((loss, predictions[0]))
            },
            Err(e) => Err(e),
        }
    }

    /// Whether `probs` is an `[n, classes]` tensor.
    fn check_probs(probs: &Tensor<T>, n: usize, classes: usize) -> (ok: bool)
        requires
            n * classes <= usize::MAX,
        ensures
            ok == probs_ok(*probs, n, classes),
    {
        if probs.shape.len() == 2 && probs.shape[0] == n && probs.shape[1] == classes && probs.data.len() == n
            * classes {
            assert(probs.shape@ =~= seq![n, classes]);
            true
        } else {
            false
        }
    }
}

/// `logits` are the logits the network `net` computes for the batch of `n` images `x`.
pub open spec fn logits_of<T: Scalar>(logits: Tensor<T>, net: Network<T>, x: Seq<T>, n: usize) -> bool {
    &&& logits.wf()
    &&& logits.shape@ == seq![n, net.config().num_classes]
    &&& exact_arith::<T>() && exact_order::<T>() ==> logits.data@ == forward_spec(
        net.config(),
        net.weights(),
        x,
        n,
        net.zero(),
        net.lowest(),
    )
}

/// Row-wise argmax positions of an `[n, classes]` tensor (the last one among equals).
pub open spec fn argmax_seq<T: Scalar>(probs: Tensor<T>, n: usize, classes: usize) -> Seq<usize> {
    Seq::new(n as nat, |b: int| argmax_prefix(probs.data@, b * classes, classes as nat) as usize)
}

/// Number of positions `b < m` where `p[b] == t[b]`.
pub open spec fn count_matches(p: Seq<usize>, t: Seq<usize>, m: nat) -> nat
    decreases m,
{
    if m == 0 {
        0
    } else {
        count_matches(p, t, (m - 1) as nat) + if p[m - 1] == t[m - 1] { 1nat } else { 0nat }
    }
}

/// `count_matches` is the number of positions `b < m` where the prediction equals the label:
/// the size of the set of those positions.
pub proof fn lemma_count_matches_counts(p: Seq<usize>, t: Seq<usize>, m: nat)
    ensures
        Set::new(|b: int| 0 <= b < m && p[b] == t[b]).finite(),
        count_matches(p, t, m) == Set::new(|b: int| 0 <= b < m && p[b] == t[b]).len(),
    decreases m,
{
    let hits = Set::new(|b: int| 0 <= b < m && p[b] == t[b]);
    if m == 0 {
        assert(hits =~= Set::empty());
    } else {
        lemma_count_matches_counts(p, t, (m - 1) as nat);
        let before = Set::new(|b: int| 0 <= b < m - 1 && p[b] == t[b]);
        if p[m - 1] == t[m - 1] {
            assert(hits =~= before.insert(m - 1));
            assert(!before.contains(m - 1));
        } else {
            assert(hits =~= before);
        }
    }
}

/// Number of predictions that equal their label.
pub fn count_correct(predictions: &Vec<usize>, targets: &[usize]) -> (r: usize)
    requires
        predictions.len() == targets@.len(),
    ensures
        r == count_matches(predictions@, targets@, predictions.len() as nat),
        r <= predictions.len(),
{
    let mut r: usize = 0;
    let mut b: usize = 0;
    while b < predictions.len()
        invariant
            b <= predictions.len(),
            predictions.len() == targets@.len(),
            r == count_matches(predictions@, targets@, b as nat),
            r <= b,
        decreases predictions.len() - b,
    {
        if predictions[b] == targets[b] {
            r = r + 1;
        }
        b = b + 1;
    }
    r
}

} // verus!
