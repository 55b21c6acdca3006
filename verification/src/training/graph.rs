//! A tape-style computation graph: nodes are appended in evaluation order and
//! gradients flow back from the loss in reverse order.
use vstd::prelude::*;
use crate::compute::conv_grad::{conv_backward, input_grad_seq, weight_grad_seq, bias_grad_seq};
use crate::compute::kernels::{ConvShape, linear_backward, relu_backward, scatter_add_into_zeros, conv_forward, conv_output_offset, conv_value, relu_forward, relu_value, maxpool_forward, pool_cell, grid3, linear_forward, linear_value, argmax_rows, argmax_prefix, relu_grad_value, scatter_add, cell, linear_input_grad, linear_weight_grad, linear_bias_grad, linear_input_grad_seq, linear_weight_grad_seq, linear_bias_grad_seq, lemma_cells_seq};
use crate::compute::index::{lemma_mul_mono, lemma_offset_in_grid};
use crate::compute::scalar::{Scalar, arith_total, exact_arith, exact_order};
use vstd::std_specs::ops::AddSpec;
use vstd::std_specs::ops::DivSpec;
use vstd::std_specs::ops::SubSpec;
use vstd::std_specs::ops::MulSpec;
use crate::training::loss::{scaled_ce_grad, scaled_target_grad};
use crate::training::optimizer::sgd_value;
use crate::compute::tensor::{Tensor, shape_product, shape_fits, lemma_shape2, lemma_shape4, shape_vec1, shape_vec2, shape_vec4, copy_vec};

verus! {

/// Index of a node in its graph.
pub type NodeId = usize;

/// How a node's value was computed from earlier nodes.
pub enum Op<T> {
    Leaf,
    Conv2d { input: NodeId, weights: NodeId, bias: NodeId, padding: usize, k: usize },
    Relu { input: NodeId },
    MaxPool { input: NodeId },
    Flatten { input: NodeId, original_shape: Vec<usize> },
    Linear { input: NodeId, weights: NodeId, bias: NodeId },
    /// Mean softmax cross-entropy of `logits` rows against `targets`; `batch_size` is the
    /// number of rows in the element type.
    SoftmaxCE { logits: NodeId, targets: Vec<usize>, batch_size: T },
}

/// A value in the graph, with its gradient once backward has reached it.
pub struct Node<T> {
    pub data: Tensor<T>,
    pub shape: Vec<usize>,
    pub grad: Option<Tensor<T>>,
    pub op: Op<T>,
    pub is_param: bool,
    pub aux_argmax: Option<Vec<usize>>,
    pub aux_probs: Option<Tensor<T>>,
}

/// Convolution dimensions for input shape `xs`, kernel shape `ws` and `padding`.
pub open spec fn conv_shape_of(xs: Seq<usize>, ws: Seq<usize>, padding: usize) -> ConvShape {
    ConvShape {
        n: xs[0],
        c_in: xs[1],
        h: xs[2],
        w: xs[3],
        c_out: ws[0],
        h_out: (xs[2] + 2 * padding - ws[2] + 1) as usize,
        w_out: (xs[3] + 2 * padding - ws[2] + 1) as usize,
        kernel: ws[2],
        padding,
    }
}

/// A convolution of `x` by `w` with `padding` is well defined.
pub open spec fn conv_operands_ok<T>(x: Tensor<T>, w: Tensor<T>, bias_len: int, padding: usize) -> bool {
    &&& x.shape.len() == 4
    &&& w.shape.len() == 4
    &&& w.shape@[1] == x.shape@[1]
    &&& w.shape@[3] == w.shape@[2]
    &&& conv_shape_of(x.shape@, w.shape@, padding).wf()
    &&& bias_len >= w.shape@[0]
}

/// A fully connected map of `x` by `w` is well defined.
pub open spec fn linear_operands_ok<T>(x: Tensor<T>, w: Tensor<T>, bias_len: int) -> bool {
    &&& x.shape.len() == 2
    &&& w.shape.len() == 2
    &&& x.shape@[1] == w.shape@[1]
    &&& bias_len >= w.shape@[0]
    &&& x.shape@[0] * w.shape@[0] <= usize::MAX
}

/// The operation of node `i` only reads earlier nodes, and its value, cached data and
/// operands have the shapes the operation produces and needs.
pub open spec fn op_ok<T>(nodes: Seq<Node<T>>, i: int) -> bool {
    let nd = nodes[i];
    match nd.op {
        Op::Leaf => true,
        Op::Relu { input } => {
            &&& input < i
            &&& nodes[input as int].data.data.len() == nd.data.data.len()
        },
        Op::MaxPool { input } => {
            &&& input < i
            &&& nd.aux_argmax matches Some(a) && {
                &&& a.len() == nd.data.data.len()
                &&& forall|k: int|
                    0 <= k < a.len() ==> #[trigger] a@[k] < nodes[input as int].data.data.len()
            }
        },
        Op::Flatten { input, original_shape } => {
            &&& input < i
            &&& original_shape@ == nodes[input as int].data.shape@
            &&& shape_fits(original_shape@)
            &&& nd.data.data.len() == shape_product(original_shape@)
        },
        Op::Linear { input, weights, bias } => {
            &&& input < i
            &&& weights < i
            &&& bias < i
            &&& linear_operands_ok(
                nodes[input as int].data,
                nodes[weights as int].data,
                nodes[bias as int].data.data.len() as int,
            )
            &&& nd.data.shape@ == seq![
                nodes[input as int].data.shape@[0],
                nodes[weights as int].data.shape@[0],
            ]
        },
        Op::Conv2d { input, weights, bias, padding, k } => {
            let s = conv_shape_of(nodes[input as int].data.shape@, nodes[weights as int].data.shape@, padding);
            &&& input < i
            &&& weights < i
            &&& bias < i
            &&& k == nodes[weights as int].data.shape@[2]
            &&& conv_operands_ok(
                nodes[input as int].data,
                nodes[weights as int].data,
                nodes[bias as int].data.data.len() as int,
                padding,
            )
            &&& nd.data.shape@ == seq![s.n, s.c_out, s.h_out, s.w_out]
        },
        Op::SoftmaxCE { logits, targets, batch_size } => {
            &&& logits < i
            &&& nd.aux_probs matches Some(p) && {
                &&& p.wf()
                &&& p.shape@ == nodes[logits as int].data.shape@
                &&& p.shape.len() == 2
                &&& targets.len() == p.shape@[0]
                &&& forall|b: int| 0 <= b < targets.len() ==> #[trigger] targets@[b] < p.shape@[1]
            }
            &&& nd.data.data.len() == 1
        },
    }
}

/// Node `i` is consistent: its tensors are well formed, its gradient (if any) has as many
/// elements as its value, and its operation is well formed.
pub open spec fn node_ok<T>(nodes: Seq<Node<T>>, i: int) -> bool {
    let nd = nodes[i];
    &&& nd.data.wf()
    &&& nd.shape@ == nd.data.shape@
    &&& (nd.grad matches Some(g) ==> g.wf() && g.data.len() == nd.data.data.len())
    &&& op_ok(nodes, i)
}

/// Two nodes agree on everything the consistency of other nodes can depend on.
pub open spec fn same_frame<T>(a: Node<T>, b: Node<T>) -> bool {
    &&& a.data.shape@ == b.data.shape@
    &&& a.data.data.len() == b.data.data.len()
    &&& a.shape@ == b.shape@
    &&& a.op == b.op
    &&& a.aux_argmax == b.aux_argmax
    &&& a.aux_probs == b.aux_probs
}

/// Ops that read `nodes[j]` only read its frame, so replacing nodes by ones with the same
/// frame keeps every operation well formed.
pub proof fn lemma_op_ok_frame<T>(a: Seq<Node<T>>, b: Seq<Node<T>>, i: int)
    requires
        0 <= i < a.len(),
        i < b.len(),
        forall|j: int| 0 <= j <= i ==> same_frame(#[trigger] a[j], b[j]),
        op_ok(a, i),
    ensures
        op_ok(b, i),
{
    assert(same_frame(a[i], b[i]));
    match a[i].op {
        Op::Leaf => {},
        Op::Relu { input } => {
            assert(same_frame(a[input as int], b[input as int]));
        },
        Op::MaxPool { input } => {
            assert(same_frame(a[input as int], b[input as int]));
        },
        Op::Flatten { input, original_shape } => {
            assert(same_frame(a[input as int], b[input as int]));
        },
        Op::Linear { input, weights, bias } => {
            assert(same_frame(a[input as int], b[input as int]));
            assert(same_frame(a[weights as int], b[weights as int]));
            assert(same_frame(a[bias as int], b[bias as int]));
        },
        Op::Conv2d { input, weights, bias, padding, k } => {
            assert(same_frame(a[input as int], b[input as int]));
            assert(same_frame(a[weights as int], b[weights as int]));
            assert(same_frame(a[bias as int], b[bias as int]));
        },
        Op::SoftmaxCE { logits, targets, batch_size } => {
            assert(same_frame(a[logits as int], b[logits as int]));
        },
    }
}

/// The gradient a node holds once `part` is added to its gradient `before` (or `part`
/// itself when it had none).
pub open spec fn grad_plus<T: Scalar>(before: Option<Tensor<T>>, part: Seq<T>) -> Seq<T> {
    match before {
        Some(e) => elementwise_sum(e.data@, part),
        None => part,
    }
}

/// Node `after` is node `before` having received the gradient contribution `part`.
pub open spec fn received<T: Scalar>(after: Node<T>, before: Node<T>, part: Seq<T>) -> bool {
    &&& after.grad is Some
    &&& exact_arith::<T>() && exact_order::<T>() ==> after.grad.unwrap().data@ == grad_plus(before.grad, part)
}

/// Gradient a ReLU sends to its input `x` for the output gradient `g`.
pub open spec fn relu_grad_seq<T: Scalar>(x: Seq<T>, g: Seq<T>, zero: T) -> Seq<T> {
    Seq::new(g.len(), |i: int| relu_grad_value(x[i], g[i], zero))
}

/// Gradient a 2x2 max pooling sends to its `len`-element input: each output gradient goes to
/// the input position its window's maximum came from.
pub open spec fn pool_grad_seq<T: Scalar>(len: nat, argmax: Seq<usize>, g: Seq<T>, zero: T) -> Seq<T> {
    scatter_add(Seq::new(len, |_i: int| zero), argmax, g, argmax.len())
}

/// Gradient a softmax cross-entropy node with probabilities `p` sends to its logits when
/// its own gradient is `g`: `(p - onehot(targets)) * (g[0] / batch_size)`.
pub open spec fn ce_grad_seq<T: Scalar>(p: Tensor<T>, targets: Seq<usize>, one: T, batch_size: T, g: Seq<T>) -> Seq<T> {
    scaled_target_grad(p.data@, targets, p.shape@[1] as int, one, g[0].div_spec(batch_size))
}

/// Three node ids are pairwise different.
pub open spec fn distinct3(a: NodeId, b: NodeId, c: NodeId) -> bool {
    a != b && a != c && b != c
}

/// A tape of nodes; the first `param_count` nodes survive `reset_for_iteration`.
pub struct Graph<T> {
    nodes: Vec<Node<T>>,
    parameters: Vec<NodeId>,
    param_count: usize,
    zero: T,
    one: T,
    lowest: T,
}

impl<T: Scalar> Graph<T> {
    pub closed spec fn nodes(&self) -> Seq<Node<T>> {
        self.nodes@
    }

    pub closed spec fn parameters(&self) -> Seq<NodeId> {
        self.parameters@
    }

    pub closed spec fn param_count(&self) -> nat {
        self.param_count as nat
    }

    pub closed spec fn zero(&self) -> T {
        self.zero
    }

    pub closed spec fn one(&self) -> T {
        self.one
    }

    pub closed spec fn lowest(&self) -> T {
        self.lowest
    }

    /// Every node is consistent, the parameter ids are nodes, and the kept prefix exists.
    pub open spec fn wf(&self) -> bool {
        &&& forall|i: int| 0 <= i < self.nodes().len() ==> #[trigger] node_ok(self.nodes(), i)
        &&& forall|k: int|
            0 <= k < self.parameters().len() ==> #[trigger] self.parameters()[k] < self.nodes().len()
        &&& forall|a: int, b: int|
            0 <= a < b < self.parameters().len() ==> #[trigger] self.parameters()[a]
                < #[trigger] self.parameters()[b]
        &&& self.param_count() <= self.nodes().len()
    }

    /// All parameters lie in the prefix kept between iterations.
    pub open spec fn params_kept(&self) -> bool {
        forall|k: int|
            0 <= k < self.parameters().len() ==> #[trigger] self.parameters()[k] < self.param_count()
    }

    /// An empty graph; `zero`, `one` and `lowest` are the element type's zero, one and
    /// the starting value of max-pooling scans.
    pub fn new(zero: T, one: T, lowest: T) -> (g: Self)
        ensures
            g.wf(),
            g.params_kept(),
            g.nodes().len() == 0,
            g.parameters().len() == 0,
            g.param_count() == 0,
            g.zero() == zero,
            g.one() == one,
            g.lowest() == lowest,
    {
        Graph { nodes: Vec::new(), parameters: Vec::new(), param_count: 0, zero, one, lowest }
    }

    /// Marks every node added so far as kept between iterations.
    pub fn finalize_params(&mut self)
        requires
            old(self).wf(),
        ensures
            final(self).wf(),
            final(self).params_kept(),
            final(self).nodes() == old(self).nodes(),
            final(self).parameters() == old(self).parameters(),
            final(self).param_count() == old(self).nodes().len(),
            final(self).zero() == old(self).zero(),
            final(self).one() == old(self).one(),
            final(self).lowest() == old(self).lowest(),
    {
        self.param_count = self.nodes.len();
        proof {
            assert(self.nodes() == old(self).nodes());
            assert(self.parameters() == old(self).parameters());
            assert forall|i: int| 0 <= i < self.nodes().len() implies #[trigger] node_ok(self.nodes(), i) by {
                assert(node_ok(old(self).nodes(), i));
            }
            assert forall|k: int| 0 <= k < self.parameters().len() implies #[trigger] self.parameters()[k] < self.param_count() by {
                assert(old(self).parameters()[k] < old(self).nodes().len());
            }
        }
    }

    /// Value of node `id`.
    pub fn data(&self, id: NodeId) -> (t: &Tensor<T>)
        requires
            id < self.nodes().len(),
        ensures
            *t == self.nodes()[id as int].data,
    {
        &self.nodes[id]
            .data
    }

    /// Number of nodes.
    pub fn len(&self) -> (n: usize)
        ensures
            n == self.nodes().len(),
    {
        self.nodes.len()
    }

    /// Number of nodes kept between iterations.
    pub fn kept_len(&self) -> (n: usize)
        ensures
            n == self.param_count(),
    {
        self.param_count
    }

    /// Gradient of node `id`, once backward has reached it.
    pub fn grad(&self, id: NodeId) -> (g: Option<&Tensor<T>>)
        requires
            id < self.nodes().len(),
        ensures
            match self.nodes()[id as int].grad {
                Some(t) => g == Some(&t),
                None => g is None,
            },
    {
        match &self.nodes[id].grad {
            Some(t) => Some(t),
            None => None,
        }
    }

    /// Replaces the value of node `id` by `data` of the same shape; nothing else changes.
    pub fn set_data(&mut self, id: NodeId, data: Tensor<T>)
        requires
            old(self).wf(),
            id < old(self).nodes().len(),
            data.wf(),
            data.shape@ == old(self).nodes()[id as int].data.shape@,
        ensures
            final(self).wf(),
            final(self).nodes().len() == old(self).nodes().len(),
            final(self).nodes()[id as int].data == data,
            final(self).nodes()[id as int].grad == old(self).nodes()[id as int].grad,
            final(self).nodes()[id as int].op == old(self).nodes()[id as int].op,
            final(self).nodes()[id as int].is_param == old(self).nodes()[id as int].is_param,
            same_frame(final(self).nodes()[id as int], old(self).nodes()[id as int]),
            forall|i: int| 0 <= i < final(self).nodes().len() && i != id ==> #[trigger] final(self).nodes()[i]
                == old(self).nodes()[i],
            final(self).parameters() == old(self).parameters(),
            final(self).param_count() == old(self).param_count(),
            final(self).params_kept() == old(self).params_kept(),
            final(self).zero() == old(self).zero(),
            final(self).one() == old(self).one(),
            final(self).lowest() == old(self).lowest(),
    {
        let ghost before = self.nodes();
        proof {
            assert(node_ok(before, id as int));
        }
        let ghost s0 = *self;
        self.nodes[id].data = data;
        proof {
            assert forall|i: int| 0 <= i < self.nodes().len() implies #[trigger] node_ok(self.nodes(), i) by {
                assert(node_ok(before, i));
                assert forall|j: int| 0 <= j <= i implies same_frame(#[trigger] before[j], self.nodes()[j]) by {}
                lemma_op_ok_frame(before, self.nodes(), i);
            }
            assert forall|k: int| 0 <= k < self.parameters().len() implies #[trigger] self.parameters()[k] < self.nodes().len() by {
                assert(s0.parameters()[k] < s0.nodes().len());
            }
            assert forall|a: int, b: int|
                0 <= a < b < self.parameters().len() implies #[trigger] self.parameters()[a] < #[trigger] self.parameters()[b] by {
                assert(s0.parameters()[a] < s0.parameters()[b]);
            }
        }
    }

    /// Appends a node computed by `op`; returns its id.
    fn push_op(
        &mut self,
        data: Tensor<T>,
        op: Op<T>,
        aux_argmax: Option<Vec<usize>>,
        aux_probs: Option<Tensor<T>>,
    ) -> (id: NodeId)
        requires
            old(self).wf(),
            data.wf(),
            op_ok(
                old(self).nodes().push(
                    Node {
                        data: data,
                        shape: data.shape,
                        grad: None,
                        op: op,
                        is_param: false,
                        aux_argmax: aux_argmax,
                        aux_probs: aux_probs,
                    },
                ),
                old(self).nodes().len() as int,
            ),
        ensures
            final(self).wf(),
            id == old(self).nodes().len(),
            final(self).nodes().len() == old(self).nodes().len() + 1,
            final(self).nodes().take(id as int) == old(self).nodes(),
            final(self).nodes()[id as int].data == data,
            final(self).nodes()[id as int].grad is None,
            final(self).nodes()[id as int].op == op,
            !final(self).nodes()[id as int].is_param,
            final(self).nodes()[id as int].aux_argmax == aux_argmax,
            final(self).nodes()[id as int].aux_probs == aux_probs,
            final(self).parameters() == old(self).parameters(),
            final(self).param_count() == old(self).param_count(),
            final(self).params_kept() == old(self).params_kept(),
            final(self).zero() == old(self).zero(),
            final(self).one() == old(self).one(),
            final(self).lowest() == old(self).lowest(),
    {
        let id = self.nodes.len();
        let ghost pushed = old(self).nodes().push(
            Node {
                data: data,
                shape: data.shape,
                grad: None,
                op: op,
                is_param: false,
                aux_argmax: aux_argmax,
                aux_probs: aux_probs,
            },
        );
        let shape = crate::compute::tensor::copy_vec(&data.shape);
        self.nodes.push(
            Node { data, shape, grad: None, op, is_param: false, aux_argmax, aux_probs },
        );
        proof {
            assert(self.nodes().take(old(self).nodes().len() as int) =~= old(self).nodes());
            assert(pushed.take(old(self).nodes().len() as int) =~= old(self).nodes());
            self.lemma_pushed_node_keeps_wf(old(self).nodes(), pushed);
            assert forall|k: int|
                0 <= k < self.parameters().len() implies #[trigger] self.parameters()[k] < self.nodes().len() by {
                assert(old(self).parameters()[k] < old(self).nodes().len());
            }
            assert(self.params_kept() == old(self).params_kept());
        }
        id
    }

    proof fn lemma_pushed_node_keeps_wf(&self, before: Seq<Node<T>>, pushed: Seq<Node<T>>)
        requires
            forall|i: int| 0 <= i < before.len() ==> #[trigger] node_ok(before, i),
            self.nodes().len() == before.len() + 1,
            self.nodes().take(before.len() as int) == before,
            pushed.len() == before.len() + 1,
            pushed.take(before.len() as int) == before,
            same_frame(pushed[before.len() as int], self.nodes()[before.len() as int]),
            op_ok(pushed, before.len() as int),
            self.nodes()[before.len() as int].data.wf(),
            self.nodes()[before.len() as int].shape@ == self.nodes()[before.len() as int].data.shape@,
            self.nodes()[before.len() as int].grad is None,
        ensures
            forall|i: int| 0 <= i < self.nodes().len() ==> #[trigger] node_ok(self.nodes(), i),
    {
        assert forall|i: int| 0 <= i < self.nodes().len() implies #[trigger] node_ok(self.nodes(), i) by {
            if i < before.len() {
                assert(node_ok(before, i));
                assert forall|j: int| 0 <= j <= i implies same_frame(#[trigger] before[j], self.nodes()[j]) by {
                    assert(self.nodes().take(before.len() as int)[j] == self.nodes()[j]);
                }
                lemma_op_ok_frame(before, self.nodes(), i);
            } else {
                assert forall|j: int| 0 <= j <= i implies same_frame(#[trigger] pushed[j], self.nodes()[j]) by {
                    if j < before.len() {
                        assert(self.nodes().take(before.len() as int)[j] == self.nodes()[j]);
                        assert(pushed.take(before.len() as int)[j] == pushed[j]);
                    }
                }
                lemma_op_ok_frame(pushed, self.nodes(), i);
            }
        }
    }

    /// Appends a leaf holding `data`; parameters are also recorded in the parameter list.
    pub fn add_leaf(&mut self, data: Tensor<T>, is_param: bool) -> (id: NodeId)
        requires
            old(self).wf(),
            data.wf(),
        ensures
            final(self).wf(),
            id == old(self).nodes().len(),
            final(self).nodes().len() == old(self).nodes().len() + 1,
            final(self).nodes().take(id as int) == old(self).nodes(),
            final(self).nodes()[id as int].data == data,
            final(self).nodes()[id as int].grad is None,
            final(self).nodes()[id as int].op is Leaf,
            final(self).nodes()[id as int].is_param == is_param,
            final(self).parameters() == if is_param {
                old(self).parameters().push(id)
            } else {
                old(self).parameters()
            },
            final(self).param_count() == old(self).param_count(),
            !is_param ==> final(self).params_kept() == old(self).params_kept(),
            final(self).zero() == old(self).zero(),
            final(self).one() == old(self).one(),
            final(self).lowest() == old(self).lowest(),
    {
        let id = self.nodes.len();
        if is_param {
            self.parameters.push(id);
        }
        let ghost pushed = old(self).nodes().push(
            Node {
                data: data,
                shape: data.shape,
                grad: None,
                op: Op::Leaf,
                is_param: is_param,
                aux_argmax: None,
                aux_probs: None,
            },
        );
        let shape = crate::compute::tensor::copy_vec(&data.shape);
        self.nodes.push(
            Node { data, shape, grad: None, op: Op::Leaf, is_param, aux_argmax: None, aux_probs: None },
        );
        proof {
            assert(self.nodes().take(old(self).nodes().len() as int) =~= old(self).nodes());
            assert(pushed.take(old(self).nodes().len() as int) =~= old(self).nodes());
            self.lemma_pushed_node_keeps_wf(old(self).nodes(), pushed);
            assert forall|k: int|
                0 <= k < self.parameters().len() implies #[trigger] self.parameters()[k] < self.nodes().len() by {
                if k < old(self).parameters().len() {
                    assert(old(self).parameters()[k] < old(self).nodes().len());
                }
            }
            assert forall|a: int, b: int|
                0 <= a < b < self.parameters().len() implies #[trigger] self.parameters()[a]
                    < #[trigger] self.parameters()[b] by {
                if b < old(self).parameters().len() {
                } else {
                    assert(old(self).parameters()[a] < old(self).nodes().len());
                }
            }
            if !is_param && old(self).params_kept() {
                assert forall|k: int| 0 <= k < self.parameters().len() implies #[trigger] self.parameters()[k] < self.param_count() by {
                    assert(old(self).parameters()[k] < old(self).param_count());
                }
            }
        }
        id
    }

    /// Drops every node after the kept prefix and clears the parameters' gradients.
    pub fn reset_for_iteration(&mut self)
        requires
            old(self).wf(),
            old(self).params_kept(),
        ensures
            final(self).wf(),
            final(self).params_kept(),
            final(self).nodes().len() == old(self).param_count(),
            forall|i: int| 0 <= i < final(self).nodes().len() ==> {
                let a = #[trigger] final(self).nodes()[i];
                let b = old(self).nodes()[i];
                &&& a.data == b.data
                &&& a.shape == b.shape
                &&& a.op == b.op
                &&& a.is_param == b.is_param
                &&& a.aux_argmax == b.aux_argmax
                &&& a.aux_probs == b.aux_probs
                &&& (old(self).parameters().contains(i as usize) ==> a.grad is None)
                &&& (!old(self).parameters().contains(i as usize) ==> a.grad == b.grad)
            },
            final(self).parameters() == old(self).parameters(),
            final(self).param_count() == old(self).param_count(),
            final(self).zero() == old(self).zero(),
            final(self).one() == old(self).one(),
            final(self).lowest() == old(self).lowest(),
    {
        self.nodes.truncate(self.param_count);
        let ghost kept = self.nodes@;
        proof {
            assert(kept == old(self).nodes().take(old(self).param_count() as int));
            assert forall|i: int| 0 <= i < kept.len() implies #[trigger] node_ok(kept, i) by {
                assert(node_ok(old(self).nodes(), i));
                assert forall|j: int| 0 <= j <= i implies same_frame(#[trigger] old(self).nodes()[j], kept[j]) by {}
                lemma_op_ok_frame(old(self).nodes(), kept, i);
            }
        }
        let mut k: usize = 0;
        while k < self.parameters.len()
            invariant
                k <= self.parameters.len(),
                self.parameters@ == old(self).parameters(),
                self.param_count == old(self).param_count(),
                self.zero == old(self).zero(),
                self.one == old(self).one(),
                self.lowest == old(self).lowest(),
                old(self).params_kept(),
                self.nodes@.len() == kept.len(),
                kept.len() == old(self).param_count(),
                forall|i: int| 0 <= i < kept.len() ==> #[trigger] node_ok(kept, i),
                forall|i: int| 0 <= i < kept.len() ==> {
                    let a = #[trigger] self.nodes@[i];
                    let b = kept[i];
                    &&& a.data == b.data
                    &&& a.shape == b.shape
                    &&& a.op == b.op
                    &&& a.is_param == b.is_param
                    &&& a.aux_argmax == b.aux_argmax
                    &&& a.aux_probs == b.aux_probs
                    &&& (self.parameters@.take(k as int).contains(i as usize) ==> a.grad is None)
                    &&& (!self.parameters@.take(k as int).contains(i as usize) ==> a.grad == b.grad)
                },
            decreases self.parameters.len() - k,
        {
            let id = self.parameters[k];
            proof {
                assert(old(self).parameters()[k as int] < old(self).param_count());
            }
            self.nodes[id].grad = None;
            proof {
                let ps = self.parameters@;
                assert forall|i: int| 0 <= i < kept.len() implies {
                    let a = #[trigger] self.nodes@[i];
                    let b = kept[i];
                    &&& a.data == b.data
                    &&& a.shape == b.shape
                    &&& a.op == b.op
                    &&& a.is_param == b.is_param
                    &&& a.aux_argmax == b.aux_argmax
                    &&& a.aux_probs == b.aux_probs
                    &&& (ps.take(k + 1).contains(i as usize) ==> a.grad is None)
                    &&& (!ps.take(k + 1).contains(i as usize) ==> a.grad == b.grad)
                } by {
                    assert(ps.take(k + 1)[k as int] == id);
                    if ps.take(k as int).contains(i as usize) {
                        let w = choose|w: int| 0 <= w < k && #[trigger] ps.take(k as int)[w] == i as usize;
                        assert(ps.take(k + 1)[w] == i as usize);
                    }
                    if ps.take(k + 1).contains(i as usize) && i != id as int {
                        let w = choose|w: int| 0 <= w < k + 1 && #[trigger] ps.take(k + 1)[w] == i as usize;
                        assert(ps.take(k as int)[w] == i as usize);
                    }
                }
            }
            k = k + 1;
        }
        proof {
            assert(self.parameters@.take(self.parameters@.len() as int) =~= self.parameters@);
            assert forall|i: int| 0 <= i < self.nodes().len() implies #[trigger] node_ok(self.nodes(), i) by {
                assert(node_ok(kept, i));
                assert forall|j: int| 0 <= j <= i implies same_frame(#[trigger] kept[j], self.nodes()[j]) by {}
                lemma_op_ok_frame(kept, self.nodes(), i);
            }
            assert forall|i: int| 0 <= i < self.nodes().len() implies {
                let a = #[trigger] self.nodes()[i];
                let b = old(self).nodes()[i];
                &&& a.data == b.data
                &&& a.shape == b.shape
                &&& a.op == b.op
                &&& a.is_param == b.is_param
                &&& a.aux_argmax == b.aux_argmax
                &&& a.aux_probs == b.aux_probs
                &&& (old(self).parameters().contains(i as usize) ==> a.grad is None)
                &&& (!old(self).parameters().contains(i as usize) ==> a.grad == b.grad)
            } by {
                assert(kept[i] == old(self).nodes()[i]);
                assert(self.nodes@[i] == self.nodes()[i]);
            }
            assert forall|k: int| 0 <= k < self.parameters().len() implies #[trigger] self.parameters()[k] < self.nodes().len() by {
                assert(old(self).parameters()[k] < old(self).param_count());
            }
        }
    }

    /// Adds `grad` into the gradient of node `id` (or sets it if there is none yet).
    pub fn add_grad(&mut self, id: NodeId, grad: Tensor<T>)
        requires
            arith_total::<T>(),
            old(self).wf(),
            id < old(self).nodes().len(),
            grad.wf(),
            grad.data.len() == old(self).nodes()[id as int].data.data.len(),
        ensures
            final(self).wf(),
            final(self).nodes().len() == old(self).nodes().len(),
            forall|i: int| 0 <= i < final(self).nodes().len() && i != id ==> #[trigger] final(self).nodes()[i] == old(self).nodes()[i],
            same_frame(final(self).nodes()[id as int], old(self).nodes()[id as int]),
            final(self).nodes()[id as int].data == old(self).nodes()[id as int].data,
            final(self).nodes()[id as int].is_param == old(self).nodes()[id as int].is_param,
            final(self).nodes()[id as int].grad is Some,
            old(self).nodes()[id as int].grad is None ==> final(self).nodes()[id as int].grad == Some(grad),
            old(self).nodes()[id as int].grad matches Some(e) ==> {
                let r = final(self).nodes()[id as int].grad.unwrap();
                &&& r.shape == e.shape
                &&& r.data.len() == e.data.len()
                &&& exact_arith::<T>() ==> r.data@ == elementwise_sum(e.data@, grad.data@)
            },
            final(self).parameters() == old(self).parameters(),
            final(self).param_count() == old(self).param_count(),
            final(self).zero() == old(self).zero(),
            final(self).one() == old(self).one(),
            final(self).lowest() == old(self).lowest(),
    {
        proof {
            assert(node_ok(old(self).nodes(), id as int));
        }
        let existing = self.nodes[id].grad.take();
        match existing {
            Some(e) => {
                let mut e = e;
                let ghost e0 = e;
                let mut k: usize = 0;
                while k < e.data.len()
                    invariant
                        arith_total::<T>(),
                        k <= e.data.len(),
                        e.data.len() == e0.data.len(),
                        e.shape == e0.shape,
                        e0.data.len() == grad.data.len(),
                        forall|q: int| k <= q < e.data.len() ==> #[trigger] e.data@[q] == e0.data@[q],
                        exact_arith::<T>() ==> forall|q: int|
                            0 <= q < k ==> #[trigger] e.data@[q] == e0.data@[q].add_spec(grad.data@[q]),
                    decreases e.data.len() - k,
                {
                    let v = e.data[k] + grad.data[k];
                    e.data.set(k, v);
                    k = k + 1;
                }
                proof {
                    if exact_arith::<T>() {
                        assert(e.data@ =~= elementwise_sum(e0.data@, grad.data@));
                    }
                }
                self.nodes[id].grad = Some(e);
            },
            None => {
                self.nodes[id].grad = Some(grad);
            },
        }
        proof {
            assert forall|i: int| 0 <= i < self.nodes().len() implies #[trigger] node_ok(self.nodes(), i) by {
                assert(node_ok(old(self).nodes(), i));
                assert forall|j: int| 0 <= j <= i implies same_frame(#[trigger] old(self).nodes()[j], self.nodes()[j]) by {}
                lemma_op_ok_frame(old(self).nodes(), self.nodes(), i);
            }
            assert forall|k: int|
                0 <= k < self.parameters().len() implies #[trigger] self.parameters()[k] < self.nodes().len() by {
                assert(old(self).parameters()[k] < old(self).nodes().len());
            }
        }
    }

    /// `self` is `before` with one fresh, gradient-free, non-parameter node `id` appended.
    pub open spec fn appended_to(&self, before: &Self, id: NodeId) -> bool {
        &&& self.wf()
        &&& id == before.nodes().len()
        &&& self.nodes().len() == before.nodes().len() + 1
        &&& self.nodes().take(id as int) == before.nodes()
        &&& self.nodes()[id as int].grad is None
        &&& !self.nodes()[id as int].is_param
        &&& self.parameters() == before.parameters()
        &&& self.param_count() == before.param_count()
        &&& self.params_kept() == before.params_kept()
        &&& self.zero() == before.zero()
        &&& self.one() == before.one()
        &&& self.lowest() == before.lowest()
    }

    /// Appends the convolution of node `input` by kernel node `weights` plus bias node `bias`.
    pub fn conv2d(&mut self, input: NodeId, weights: NodeId, bias: NodeId, padding: usize) -> (id: NodeId)
        requires
            arith_total::<T>(),
            old(self).wf(),
            input < old(self).nodes().len(),
            weights < old(self).nodes().len(),
            bias < old(self).nodes().len(),
            conv_operands_ok(
                old(self).nodes()[input as int].data,
                old(self).nodes()[weights as int].data,
                old(self).nodes()[bias as int].data.data.len() as int,
                padding,
            ),
        ensures
            final(self).appended_to(old(self), id),
            ({
                let x = old(self).nodes()[input as int].data;
                let w = old(self).nodes()[weights as int].data;
                let s = conv_shape_of(x.shape@, w.shape@, padding);
                let out = final(self).nodes()[id as int];
                &&& out.op == (Op::<T>::Conv2d { input, weights, bias, padding, k: w.shape@[2] })
                &&& out.data.shape@ == seq![s.n, s.c_out, s.h_out, s.w_out]
                &&& exact_arith::<T>() ==> forall|b: int, co: int, i: int, j: int|
                    0 <= b < s.n && 0 <= co < s.c_out && 0 <= i < s.h_out && 0 <= j < s.w_out
                        ==> out.data.data@[conv_output_offset(s, b, co, i, j)] == #[trigger] conv_value(
                        x.data@,
                        w.data@,
                        old(self).nodes()[bias as int].data.data@,
                        s,
                        b,
                        co,
                        i,
                        j,
                    )
            }),
    {
        proof {
            assert(node_ok(self.nodes(), input as int));
            assert(node_ok(self.nodes(), weights as int));
        }
        let x = &self.nodes[input].data;
        let w = &self.nodes[weights].data;
        let b = &self.nodes[bias].data;
        let k = w.shape[2];
        let s = ConvShape {
            n: x.shape[0],
            c_in: x.shape[1],
            h: x.shape[2],
            w: x.shape[3],
            c_out: w.shape[0],
            h_out: x.shape[2] + 2 * padding - k + 1,
            w_out: x.shape[3] + 2 * padding - k + 1,
            kernel: k,
            padding,
        };
        proof {
            assert(x.shape@ =~= seq![s.n, s.c_in, s.h, s.w]);
            assert(w.shape@ =~= seq![s.c_out, s.c_in, s.kernel, s.kernel]);
            lemma_shape4(s.n, s.c_in, s.h, s.w);
            lemma_shape4(s.c_out, s.c_in, s.kernel, s.kernel);
            lemma_shape4(s.n, s.c_out, s.h_out, s.w_out);
        }
        let data = conv_forward(&x.data, &w.data, &b.data, s);
        let output = Tensor::from_data(data, shape_vec4(s.n, s.c_out, s.h_out, s.w_out));
        self.push_op(output, Op::Conv2d { input, weights, bias, padding, k }, None, None)
    }

    /// Appends the ReLU of node `input`.
    pub fn relu(&mut self, input: NodeId) -> (id: NodeId)
        requires
            old(self).wf(),
            input < old(self).nodes().len(),
        ensures
            final(self).appended_to(old(self), id),
            ({
                let x = old(self).nodes()[input as int].data;
                let out = final(self).nodes()[id as int];
                &&& out.op == (Op::<T>::Relu { input })
                &&& out.data.shape@ == x.shape@
                &&& out.data.data.len() == x.data.len()
                &&& forall|i: int|
                    0 <= i < x.data.len() ==> #[trigger] out.data.data@[i] == x.data@[i]
                        || out.data.data@[i] == old(self).zero()
                &&& exact_order::<T>() ==> forall|i: int|
                    0 <= i < x.data.len() ==> #[trigger] out.data.data@[i] == relu_value(
                        x.data@[i],
                        old(self).zero(),
                    )
            }),
    {
        proof {
            assert(node_ok(self.nodes(), input as int));
        }
        let x = &self.nodes[input].data;
        let data = relu_forward(&x.data, self.zero);
        let output = Tensor::from_data(data, copy_vec(&x.shape));
        self.push_op(output, Op::Relu { input }, None, None)
    }

    /// Appends the 2x2 max pooling of the `[n, c, h, w]` node `input`.
    pub fn maxpool2x2(&mut self, input: NodeId) -> (id: NodeId)
        requires
            old(self).wf(),
            input < old(self).nodes().len(),
            old(self).nodes()[input as int].data.shape.len() == 4,
        ensures
            final(self).appended_to(old(self), id),
            ({
                let x = old(self).nodes()[input as int].data;
                let h = x.shape@[2];
                let w = x.shape@[3];
                let out = final(self).nodes()[id as int];
                &&& out.op == (Op::<T>::MaxPool { input })
                &&& out.data.shape@ == seq![x.shape@[0], x.shape@[1], h / 2, w / 2]
                &&& out.aux_argmax matches Some(a) && {
                    &&& a.len() == out.data.data.len()
                    &&& exact_order::<T>() ==> forall|p: int, i: int, j: int|
                        0 <= p < x.shape@[0] * x.shape@[1] && 0 <= i < h / 2 && 0 <= j < w / 2 ==> (
                        out.data.data@[grid3((h / 2) as int, (w / 2) as int, p, i, j)],
                        a@[grid3((h / 2) as int, (w / 2) as int, p, i, j)],
                    ) == #[trigger] pool_cell(x.data@, h as int, w as int, old(self).lowest(), p, i, j)
                }
            }),
    {
        proof {
            assert(node_ok(self.nodes(), input as int));
        }
        let x = &self.nodes[input].data;
        let n = x.shape[0];
        let c = x.shape[1];
        let h = x.shape[2];
        let w = x.shape[3];
        proof {
            assert(x.shape@ =~= seq![n, c, h, w]);
            lemma_shape4(n, c, h, w);
            lemma_shape4(n, c, h / 2, w / 2);
            lemma_mul_mono((h / 2) as int, h as int, (w / 2) as int);
            lemma_mul_mono((w / 2) as int, w as int, h as int);
            lemma_mul_mono(((h / 2) * (w / 2)) as int, (h * w) as int, (n * c) as int);
            lemma_mul_mono((h / 2) as int, h as int, (n * c) as int);
            assert((n * c) * (h / 2) == n * c * (h / 2));
            assert((n * c) * h == n * c * h);
        }
        let (data, argmax) = maxpool_forward(&x.data, n * c, h, w, self.lowest);
        let output = Tensor::from_data(data, shape_vec4(n, c, h / 2, w / 2));
        self.push_op(output, Op::MaxPool { input }, Some(argmax), None)
    }

    /// Appends node `input` reshaped from `[n, ...]` to `[n, features]`.
    pub fn flatten(&mut self, input: NodeId) -> (id: NodeId)
        requires
            old(self).wf(),
            input < old(self).nodes().len(),
            old(self).nodes()[input as int].data.shape.len() == 4,
            old(self).nodes()[input as int].data.shape@[0] > 0,
        ensures
            final(self).appended_to(old(self), id),
            ({
                let x = old(self).nodes()[input as int].data;
                let out = final(self).nodes()[id as int];
                &&& out.op is Flatten
                &&& out.op->Flatten_input == input
                &&& out.op->Flatten_original_shape@ == x.shape@
                &&& out.data.data@ == x.data@
                &&& out.data.shape@ == seq![x.shape@[0], (x.data.len() as int / x.shape@[0] as int) as usize]
            }),
    {
        proof {
            assert(node_ok(self.nodes(), input as int));
        }
        let x = &self.nodes[input].data;
        let batch_size = x.shape[0];
        let features = x.numel() / batch_size;
        proof {
            let (a, b, c, d) = (x.shape@[0], x.shape@[1], x.shape@[2], x.shape@[3]);
            assert(x.shape@ =~= seq![a, b, c, d]);
            lemma_shape4(a, b, c, d);
            assert((a * b) * (c * d) == a * (b * c * d)) by (nonlinear_arith);
            vstd::arithmetic::div_mod::lemma_div_multiples_vanish((b * c * d) as int, a as int);
            assert(batch_size * features == x.data.len());
            lemma_shape2(batch_size, features);
        }
        let original_shape = copy_vec(&x.shape);
        let output = Tensor::from_data(x.duplicate().data, shape_vec2(batch_size, features));
        self.push_op(output, Op::Flatten { input, original_shape }, None, None)
    }

    /// Appends `x W^T + b` for the `[n, in]` node `input`, `[out, in]` node `weights` and bias node `bias`.
    pub fn linear(&mut self, input: NodeId, weights: NodeId, bias: NodeId) -> (id: NodeId)
        requires
            arith_total::<T>(),
            old(self).wf(),
            input < old(self).nodes().len(),
            weights < old(self).nodes().len(),
            bias < old(self).nodes().len(),
            linear_operands_ok(
                old(self).nodes()[input as int].data,
                old(self).nodes()[weights as int].data,
                old(self).nodes()[bias as int].data.data.len() as int,
            ),
        ensures
            final(self).appended_to(old(self), id),
            ({
                let x = old(self).nodes()[input as int].data;
                let w = old(self).nodes()[weights as int].data;
                let out = final(self).nodes()[id as int];
                &&& out.op == (Op::<T>::Linear { input, weights, bias })
                &&& out.data.shape@ == seq![x.shape@[0], w.shape@[0]]
                &&& exact_arith::<T>() ==> forall|row: int, o: int|
                    0 <= row < x.shape@[0] && 0 <= o < w.shape@[0] ==> out.data.data@[row
                        * w.shape@[0] + o] == #[trigger] linear_value(
                        x.data@,
                        w.data@,
                        old(self).nodes()[bias as int].data.data@,
                        w.shape@[1] as int,
                        row,
                        o,
                    )
            }),
    {
        proof {
            assert(node_ok(self.nodes(), input as int));
            assert(node_ok(self.nodes(), weights as int));
        }
        let x = &self.nodes[input].data;
        let w = &self.nodes[weights].data;
        let b = &self.nodes[bias].data;
        let n = x.shape[0];
        let in_f = w.shape[1];
        let out_f = w.shape[0];
        proof {
            assert(x.shape@ =~= seq![n, in_f]);
            assert(w.shape@ =~= seq![out_f, in_f]);
            lemma_shape2(n, in_f);
            lemma_shape2(out_f, in_f);
            lemma_shape2(n, out_f);
        }
        let data = linear_forward(&x.data, &w.data, &b.data, n, in_f, out_f);
        let output = Tensor::from_data(data, shape_vec2(n, out_f));
        self.push_op(output, Op::Linear { input, weights, bias }, None, None)
    }

    /// Appends the mean softmax cross-entropy loss node of the `[n, classes]` node `logits`
    /// against `targets`.
    ///
    /// The floating-point part is done by the caller: `probs` are the row-wise softmax
    /// probabilities of the logits, `loss` the mean cross-entropy and `batch_size` equals `n`
    /// in the element type.
    pub fn softmax_ce(&mut self, logits: NodeId, targets: &[usize], probs: Tensor<T>, loss: T, batch_size: T) -> (id: NodeId)
        requires
            old(self).wf(),
            logits < old(self).nodes().len(),
            old(self).nodes()[logits as int].data.shape.len() == 2,
            probs.wf(),
            probs.shape@ == old(self).nodes()[logits as int].data.shape@,
            targets@.len() == probs.shape@[0],
            forall|b: int| 0 <= b < targets@.len() ==> #[trigger] targets@[b] < probs.shape@[1],
        ensures
            final(self).appended_to(old(self), id),
            ({
                let out = final(self).nodes()[id as int];
                &&& out.op == (Op::<T>::SoftmaxCE {
                    logits,
                    targets: out.op->SoftmaxCE_targets,
                    batch_size,
                })
                &&& out.op->SoftmaxCE_targets@ == targets@
                &&& out.data.data@ == seq![loss]
                &&& out.data.shape@ == seq![1usize]
                &&& out.aux_probs == Some(probs)
            }),
    {
        let ghost tg = targets@;
        let mut ts: Vec<usize> = Vec::with_capacity(targets.len());
        let mut b: usize = 0;
        while b < targets.len()
            invariant
                b <= targets@.len(),
                tg == targets@,
                ts@ == targets@.take(b as int),
            decreases targets@.len() - b,
        {
            ts.push(targets[b]);
            b = b + 1;
            assert(ts@ =~= targets@.take(b as int));
        }
        assert(ts@ =~= targets@);
        let mut data: Vec<T> = Vec::new();
        data.push(loss);
        proof {
            assert(data@ =~= seq![loss]);
            crate::compute::tensor::lemma_shape1(1);
        }
        let output = Tensor::from_data(data, shape_vec1(1));
        self.push_op(output, Op::SoftmaxCE { logits, targets: ts, batch_size }, None, Some(probs))
    }

    /// Predicted class of every row of a loss node's probabilities: the row's argmax.
    pub fn predictions_for_loss(&self, loss: NodeId) -> (predictions: Vec<usize>)
        requires
            self.wf(),
            loss < self.nodes().len(),
            self.nodes()[loss as int].aux_probs matches Some(p) && p.wf() && p.shape.len() == 2
                && (p.shape@[0] > 0 ==> p.shape@[1] > 0),
        ensures
            ({
                let p = self.nodes()[loss as int].aux_probs.unwrap();
                let n = p.shape@[0];
                let classes = p.shape@[1];
                &&& predictions.len() == n
                &&& forall|b: int| 0 <= b < n ==> #[trigger] predictions@[b] < classes
                &&& exact_order::<T>() ==> forall|b: int|
                    0 <= b < n ==> #[trigger] predictions@[b] == argmax_prefix(
                        p.data@,
                        b * classes,
                        classes as nat,
                    )
            }),
    {
        match &self.nodes[loss].aux_probs {
            Some(probs) => {
                let n = probs.shape[0];
                let classes = probs.shape[1];
                proof {
                    assert(probs.shape@ =~= seq![n, classes]);
                    lemma_shape2(n, classes);
                }
                argmax_rows(&probs.data, n, classes)
            },
            None => Vec::new(),
        }
    }

    /// `self` is `before` with gradients possibly added: values, shapes, operations and
    /// parameter flags are unchanged, and no gradient was removed.
    pub open spec fn grads_grown_from(&self, before: &Self) -> bool {
        &&& self.wf()
        &&& self.nodes().len() == before.nodes().len()
        &&& forall|i: int| 0 <= i < self.nodes().len() ==> {
            let a = #[trigger] self.nodes()[i];
            let b = before.nodes()[i];
            &&& same_frame(a, b)
            &&& a.data == b.data
            &&& a.is_param == b.is_param
            &&& (b.grad is Some ==> a.grad is Some)
        }
        &&& self.parameters() == before.parameters()
        &&& self.param_count() == before.param_count()
        &&& self.zero() == before.zero()
        &&& self.one() == before.one()
        &&& self.lowest() == before.lowest()
    }

    /// No node holds a gradient.
    pub open spec fn no_grads(&self) -> bool {
        forall|i: int| 0 <= i < self.nodes().len() ==> (#[trigger] self.nodes()[i]).grad is None
    }

    /// Appending a node without a gradient to a graph without gradients leaves none.
    pub proof fn lemma_appended_no_grads(a: &Self, b: &Self)
        requires
            a.no_grads(),
            b.nodes().len() == a.nodes().len() + 1,
            b.nodes().take(a.nodes().len() as int) == a.nodes(),
            b.nodes()[a.nodes().len() as int].grad is None,
        ensures
            b.no_grads(),
    {
        assert forall|i: int| 0 <= i < b.nodes().len() implies (#[trigger] b.nodes()[i]).grad is None by {
            if i < a.nodes().len() {
                assert(b.nodes().take(a.nodes().len() as int)[i] == b.nodes()[i]);
            }
        }
    }

    /// Nodes from `id` on are exactly as in `before`.
    pub open spec fn unchanged_from(&self, before: &Self, id: int) -> bool {
        forall|i: int| id <= i < self.nodes().len() ==> #[trigger] self.nodes()[i] == before.nodes()[i]
    }

    /// `self` is `before` after node `id` sent the gradient `g` to its operands: each operand
    /// received the chain-rule contribution of the node's operation (for a layer with weights,
    /// when its three operands are different nodes).
    pub open spec fn sent_from(&self, before: &Self, id: int, g: Seq<T>) -> bool {
        let nodes = before.nodes();
        let after = self.nodes();
        match nodes[id].op {
            Op::Leaf => true,
            Op::Relu { input } => received(
                after[input as int],
                nodes[input as int],
                relu_grad_seq(nodes[input as int].data.data@, g, before.zero()),
            ),
            Op::MaxPool { input } => received(
                after[input as int],
                nodes[input as int],
                pool_grad_seq(
                    nodes[input as int].data.data.len() as nat,
                    nodes[id].aux_argmax.unwrap()@,
                    g,
                    before.zero(),
                ),
            ),
            Op::Flatten { input, .. } => received(after[input as int], nodes[input as int], g),
            Op::SoftmaxCE { logits, targets, batch_size } => received(
                after[logits as int],
                nodes[logits as int],
                ce_grad_seq(nodes[id].aux_probs.unwrap(), targets@, before.one(), batch_size, g),
            ),
            Op::Linear { input, weights, bias } => {
                let x = nodes[input as int].data;
                let w = nodes[weights as int].data;
                let n = x.shape@[0] as int;
                let in_f = w.shape@[1] as int;
                let out_f = w.shape@[0] as int;
                distinct3(input, weights, bias) ==> {
                    &&& received(
                        after[input as int],
                        nodes[input as int],
                        linear_input_grad_seq(w.data@, g, n, in_f, out_f, before.zero()),
                    )
                    &&& received(
                        after[weights as int],
                        nodes[weights as int],
                        linear_weight_grad_seq(x.data@, g, n, in_f, out_f, before.zero()),
                    )
                    &&& received(
                        after[bias as int],
                        nodes[bias as int],
                        linear_bias_grad_seq(g, n, out_f, nodes[bias as int].data.data.len() as nat, before.zero()),
                    )
                }
            },
            Op::Conv2d { input, weights, bias, padding, .. } => {
                let x = nodes[input as int].data;
                let w = nodes[weights as int].data;
                let cs = conv_shape_of(x.shape@, w.shape@, padding);
                distinct3(input, weights, bias) ==> {
                    &&& received(after[input as int], nodes[input as int], input_grad_seq(w.data@, g, cs, before.zero()))
                    &&& received(after[weights as int], nodes[weights as int], weight_grad_seq(x.data@, g, cs, before.zero()))
                    &&& received(
                        after[bias as int],
                        nodes[bias as int],
                        bias_grad_seq(g, cs, nodes[bias as int].data.data.len() as nat, before.zero()),
                    )
                }
            },
        }
    }

    /// What `sent_from` says of one operand `k`, through `part_sent`.
    proof fn lemma_sent_part(after: &Self, before: &Self, id: int, g: Seq<T>, k: int)
        requires
            0 <= id < before.nodes().len(),
            after.sent_from(before, id, g),
            operands_distinct(before.nodes()[id].op),
            operand_of(before.nodes()[id].op, k),
        ensures
            part_sent(before.nodes(), before.zero(), before.one(), id, g, k) is Some,
            received(
                after.nodes()[k],
                before.nodes()[k],
                part_sent(before.nodes(), before.zero(), before.one(), id, g, k).unwrap(),
            ),
    {
    }

    /// After node `i` sent its gradient, node `k` below it holds its former gradient plus the
    /// part `i` sends it.
    proof fn lemma_visit_operand(s0: &Self, before: &Self, after: &Self, loss: int, i: int, k: int)
        requires
            exact_arith::<T>() && exact_order::<T>(),
            operands_distinct(s0.nodes()[i].op),
            0 <= k < i <= loss,
            loss < before.nodes().len(),
            before.grads_grown_from(s0),
            before.nodes()[i].grad is Some,
            after.nodes().len() == before.nodes().len(),
            after.sent_from(before, i, before.nodes()[i].grad.unwrap().data@),
            !operand_of(before.nodes()[i].op, k) ==> after.nodes()[k] == before.nodes()[k],
        ensures
            grad_data(after.nodes()[k].grad) == match part_sent(
                s0.nodes(),
                s0.zero(),
                s0.one(),
                i,
                before.nodes()[i].grad.unwrap().data@,
                k,
            ) {
                Some(p) => accumulate(grad_data(before.nodes()[k].grad), p),
                None => grad_data(before.nodes()[k].grad),
            },
    {
        let g = before.nodes()[i].grad.unwrap().data@;
        assert(same_frame(before.nodes()[i], s0.nodes()[i]));
        assert(node_ok(before.nodes(), i));
        assert forall|q: int| 0 <= q <= i implies same_frame(#[trigger] before.nodes()[q], s0.nodes()[q])
            && before.nodes()[q].data == s0.nodes()[q].data by {}
        lemma_part_sent_frame(before.nodes(), s0.nodes(), s0.zero(), s0.one(), i, g, k);
        if operand_of(before.nodes()[i].op, k) {
            Self::lemma_sent_part(after, before, i, g, k);
        }
    }

    /// Visiting node `i` (sending its gradient, if it has one) extends the chain-rule account
    /// of every gradient from the nodes above `i` to `i` itself.
    proof fn lemma_backward_step(s0: &Self, before: &Self, after: &Self, loss: int, i: int)
        requires
            exact_arith::<T>() && exact_order::<T>(),
            forall|j: int| 0 <= j <= loss ==> operands_distinct(#[trigger] s0.nodes()[j].op),
            0 <= i <= loss,
            loss < before.nodes().len(),
            before.grads_grown_from(s0),
            forall|k: int|
                0 <= k < i + 1 ==> #[trigger] grad_data(before.nodes()[k].grad) == chain_grad(
                    before.nodes(),
                    s0.nodes(),
                    s0.zero(),
                    s0.one(),
                    loss,
                    k,
                    i + 1,
                ),
            forall|k: int|
                i + 1 <= k <= loss ==> #[trigger] grad_data(before.nodes()[k].grad) == chain_grad(
                    before.nodes(),
                    s0.nodes(),
                    s0.zero(),
                    s0.one(),
                    loss,
                    k,
                    k + 1,
                ),
            before.nodes()[i].grad is None ==> *after == *before,
            before.nodes()[i].grad is Some ==> {
                &&& after.nodes().len() == before.nodes().len()
                &&& after.sent_from(before, i, before.nodes()[i].grad.unwrap().data@)
                &&& after.unchanged_from(before, i)
                &&& forall|k: int|
                    0 <= k < after.nodes().len() && !operand_of(before.nodes()[i].op, k) ==> #[trigger] after.nodes()[k]
                        == before.nodes()[k]
            },
        ensures
            forall|k: int|
                0 <= k < i ==> #[trigger] grad_data(after.nodes()[k].grad) == chain_grad(
                    after.nodes(),
                    s0.nodes(),
                    s0.zero(),
                    s0.one(),
                    loss,
                    k,
                    i,
                ),
            forall|k: int|
                i <= k <= loss ==> #[trigger] grad_data(after.nodes()[k].grad) == chain_grad(
                    after.nodes(),
                    s0.nodes(),
                    s0.zero(),
                    s0.one(),
                    loss,
                    k,
                    k + 1,
                ),
    {
        let (zero, one) = (s0.zero(), s0.one());
        assert forall|j: int| i <= j <= loss implies (#[trigger] after.nodes()[j]).grad == before.nodes()[j].grad by {
            if before.nodes()[i].grad is Some {
                assert(after.nodes()[j] == before.nodes()[j]);
            }
        }
        assert forall|k: int| 0 <= k < i implies #[trigger] grad_data(after.nodes()[k].grad) == chain_grad(
            after.nodes(),
            s0.nodes(),
            zero,
            one,
            loss,
            k,
            i,
        ) by {
            lemma_chain_grad_stable(after.nodes(), before.nodes(), s0.nodes(), zero, one, loss, k, i + 1);
            assert(grad_data(before.nodes()[k].grad) == chain_grad(before.nodes(), s0.nodes(), zero, one, loss, k, i + 1));
            if before.nodes()[i].grad is Some {
                Self::lemma_visit_operand(s0, before, after, loss, i, k);
            }
        }
        assert forall|k: int| i <= k <= loss implies #[trigger] grad_data(after.nodes()[k].grad) == chain_grad(
            after.nodes(),
            s0.nodes(),
            zero,
            one,
            loss,
            k,
            k + 1,
        ) by {
            lemma_chain_grad_stable(after.nodes(), before.nodes(), s0.nodes(), zero, one, loss, k, k + 1);
            if k == i {
                lemma_chain_grad_stable(after.nodes(), before.nodes(), s0.nodes(), zero, one, loss, k, i + 1);
            }
        }
    }

    proof fn lemma_grown_trans(a: &Self, b: &Self, c: &Self, id: int)
        requires
            b.grads_grown_from(a),
            c.grads_grown_from(b),
            b.unchanged_from(a, id),
            c.unchanged_from(b, id),
        ensures
            c.grads_grown_from(a),
            c.unchanged_from(a, id),
    {
        Self::lemma_grown_trans_only(a, b, c);
        assert forall|i: int| id <= i < c.nodes().len() implies #[trigger] c.nodes()[i] == a.nodes()[i] by {
            assert(b.nodes()[i] == a.nodes()[i]);
        }
    }

    proof fn lemma_grown_trans_only(a: &Self, b: &Self, c: &Self)
        requires
            b.grads_grown_from(a),
            c.grads_grown_from(b),
        ensures
            c.grads_grown_from(a),
    {
        assert forall|i: int| 0 <= i < c.nodes().len() implies {
            let x = #[trigger] c.nodes()[i];
            let y = a.nodes()[i];
            &&& same_frame(x, y)
            &&& x.data == y.data
            &&& x.is_param == y.is_param
            &&& (y.grad is Some ==> x.grad is Some)
        } by {
            assert(same_frame(c.nodes()[i], b.nodes()[i]));
            assert(same_frame(b.nodes()[i], a.nodes()[i]));
        }
    }

    proof fn lemma_add_grad_grows(a: &Self, b: &Self, k: int)
        requires
            a.wf(),
            b.wf(),
            0 <= k < a.nodes().len(),
            b.nodes().len() == a.nodes().len(),
            forall|i: int| 0 <= i < b.nodes().len() && i != k ==> #[trigger] b.nodes()[i] == a.nodes()[i],
            same_frame(b.nodes()[k], a.nodes()[k]),
            b.nodes()[k].data == a.nodes()[k].data,
            b.nodes()[k].is_param == a.nodes()[k].is_param,
            b.nodes()[k].grad is Some,
            b.parameters() == a.parameters(),
            b.param_count() == a.param_count(),
            b.zero() == a.zero(),
            b.one() == a.one(),
            b.lowest() == a.lowest(),
        ensures
            b.grads_grown_from(a),
            b.unchanged_from(a, k + 1),
    {
    }

    /// Adds `grad` into node `k` for a node `k` below `id`.
    fn add_grad_below(&mut self, k: NodeId, grad: Tensor<T>, Ghost(id): Ghost<int>)
        requires
            arith_total::<T>(),
            old(self).wf(),
            k < id,
            k < old(self).nodes().len(),
            grad.wf(),
            grad.data.len() == old(self).nodes()[k as int].data.data.len(),
        ensures
            final(self).grads_grown_from(old(self)),
            final(self).unchanged_from(old(self), id),
            final(self).nodes()[k as int].grad is Some,
            forall|i: int| 0 <= i < final(self).nodes().len() && i != k ==> #[trigger] final(self).nodes()[i] == old(self).nodes()[i],
            received(final(self).nodes()[k as int], old(self).nodes()[k as int], grad.data@),
    {
        self.add_grad(k, grad);
        proof {
            Self::lemma_add_grad_grows(old(self), self, k as int);
        }
    }

    /// Gradient of a ReLU node `id` sent to its input.
    fn backward_relu(&mut self, id: NodeId, input: NodeId, grad: &Tensor<T>)
        requires
            arith_total::<T>(),
            old(self).wf(),
            id < old(self).nodes().len(),
            old(self).nodes()[id as int].op == (Op::<T>::Relu { input }),
            grad.wf(),
            grad.data.len() == old(self).nodes()[id as int].data.data.len(),
        ensures
            final(self).grads_grown_from(old(self)),
            final(self).unchanged_from(old(self), id as int),
            final(self).nodes()[input as int].grad is Some,
            final(self).sent_from(old(self), id as int, grad.data@),
            forall|i: int|
                0 <= i < final(self).nodes().len() && !operand_of(old(self).nodes()[id as int].op, i)
                    ==> #[trigger] final(self).nodes()[i] == old(self).nodes()[i],
    {
        proof {
            assert(node_ok(self.nodes(), id as int));
        }
        let x = &self.nodes[input].data;
        let data = relu_backward(&x.data, &grad.data, self.zero);
        proof {
            if exact_order::<T>() {
                assert(data@ =~= relu_grad_seq(x.data@, grad.data@, self.zero));
            }
        }
        let g = Tensor::from_data(data, copy_vec(&grad.shape));
        self.add_grad_below(input, g, Ghost(id as int));
    }

    /// Gradient of a max-pooling node `id` sent to its input.
    fn backward_maxpool(&mut self, id: NodeId, input: NodeId, grad: &Tensor<T>)
        requires
            arith_total::<T>(),
            old(self).wf(),
            id < old(self).nodes().len(),
            old(self).nodes()[id as int].op == (Op::<T>::MaxPool { input }),
            grad.wf(),
            grad.data.len() == old(self).nodes()[id as int].data.data.len(),
        ensures
            final(self).grads_grown_from(old(self)),
            final(self).unchanged_from(old(self), id as int),
            final(self).nodes()[input as int].grad is Some,
            final(self).sent_from(old(self), id as int, grad.data@),
            forall|i: int|
                0 <= i < final(self).nodes().len() && !operand_of(old(self).nodes()[id as int].op, i)
                    ==> #[trigger] final(self).nodes()[i] == old(self).nodes()[i],
    {
        proof {
            assert(node_ok(self.nodes(), id as int));
            assert(node_ok(self.nodes(), input as int));
        }
        let x = &self.nodes[input].data;
        let len = x.data.len();
        let shape = copy_vec(&x.shape);
        let data = match &self.nodes[id].aux_argmax {
            Some(argmax) => scatter_add_into_zeros(len, argmax, &grad.data, self.zero),
            None => crate::compute::tensor::filled_vec(self.zero, len),
        };
        let g = Tensor::from_data(data, shape);
        self.add_grad_below(input, g, Ghost(id as int));
    }

    /// Gradient of a flatten node `id`, reshaped back for its input.
    fn backward_flatten(&mut self, id: NodeId, input: NodeId, original_shape: Vec<usize>, grad: &Tensor<T>)
        requires
            arith_total::<T>(),
            old(self).wf(),
            id < old(self).nodes().len(),
            old(self).nodes()[id as int].op is Flatten,
            old(self).nodes()[id as int].op->Flatten_input == input,
            old(self).nodes()[id as int].op->Flatten_original_shape@ == original_shape@,
            grad.wf(),
            grad.data.len() == old(self).nodes()[id as int].data.data.len(),
        ensures
            final(self).grads_grown_from(old(self)),
            final(self).unchanged_from(old(self), id as int),
            final(self).nodes()[input as int].grad is Some,
            final(self).sent_from(old(self), id as int, grad.data@),
            forall|i: int|
                0 <= i < final(self).nodes().len() && !operand_of(old(self).nodes()[id as int].op, i)
                    ==> #[trigger] final(self).nodes()[i] == old(self).nodes()[i],
    {
        proof {
            assert(node_ok(self.nodes(), id as int));
            assert(node_ok(self.nodes(), input as int));
        }
        let g = grad.duplicate().reshape(original_shape);
        self.add_grad_below(input, g, Ghost(id as int));
    }

    /// Gradient of a softmax cross-entropy node `id` sent to its logits:
    /// `(probs - onehot(targets)) * (grad[0] / batch_size)`.
    fn backward_softmax_ce(
        &mut self,
        id: NodeId,
        logits: NodeId,
        targets: &Vec<usize>,
        batch_size: T,
        grad: &Tensor<T>,
    )
        requires
            arith_total::<T>(),
            old(self).wf(),
            id < old(self).nodes().len(),
            old(self).nodes()[id as int].op is SoftmaxCE,
            old(self).nodes()[id as int].op->SoftmaxCE_logits == logits,
            old(self).nodes()[id as int].op->SoftmaxCE_targets@ == targets@,
            old(self).nodes()[id as int].op->SoftmaxCE_batch_size == batch_size,
            grad.wf(),
            grad.data.len() == old(self).nodes()[id as int].data.data.len(),
        ensures
            final(self).grads_grown_from(old(self)),
            final(self).unchanged_from(old(self), id as int),
            final(self).nodes()[logits as int].grad is Some,
            final(self).sent_from(old(self), id as int, grad.data@),
            forall|i: int|
                0 <= i < final(self).nodes().len() && !operand_of(old(self).nodes()[id as int].op, i)
                    ==> #[trigger] final(self).nodes()[i] == old(self).nodes()[i],
    {
        proof {
            assert(node_ok(self.nodes(), id as int));
            assert(node_ok(self.nodes(), logits as int));
        }
        let g = match &self.nodes[id].aux_probs {
            Some(probs) => {
                let scale = grad.data[0] / batch_size;
                scaled_ce_grad(probs, targets.as_slice(), self.one, scale)
            },
            None => Tensor::from_data(copy_vec(&grad.data), copy_vec(&grad.shape)),
        };
        self.add_grad_below(logits, g, Ghost(id as int));
    }

    /// Gradients of a fully connected node sent to its input, weights and bias.
    fn backward_linear(&mut self, id: NodeId, input: NodeId, weights: NodeId, bias: NodeId, grad: &Tensor<T>)
        requires
            arith_total::<T>(),
            old(self).wf(),
            id < old(self).nodes().len(),
            old(self).nodes()[id as int].op == (Op::<T>::Linear { input, weights, bias }),
            grad.wf(),
            grad.data.len() == old(self).nodes()[id as int].data.data.len(),
        ensures
            final(self).grads_grown_from(old(self)),
            final(self).unchanged_from(old(self), id as int),
            final(self).nodes()[input as int].grad is Some,
            final(self).nodes()[weights as int].grad is Some,
            final(self).nodes()[bias as int].grad is Some,
            final(self).sent_from(old(self), id as int, grad.data@),
            forall|i: int|
                0 <= i < final(self).nodes().len() && !operand_of(old(self).nodes()[id as int].op, i)
                    ==> #[trigger] final(self).nodes()[i] == old(self).nodes()[i],
    {
        proof {
            assert(node_ok(self.nodes(), id as int));
            assert(node_ok(self.nodes(), input as int));
            assert(node_ok(self.nodes(), weights as int));
            assert(node_ok(self.nodes(), bias as int));
        }
        let x = &self.nodes[input].data;
        let w = &self.nodes[weights].data;
        let bias_len = self.nodes[bias].data.data.len();
        let bias_shape = copy_vec(&self.nodes[bias].data.shape);
        let n = x.shape[0];
        let in_f = w.shape[1];
        let out_f = w.shape[0];
        proof {
            assert(x.shape@ =~= seq![n, in_f]);
            assert(w.shape@ =~= seq![out_f, in_f]);
            lemma_shape2(n, in_f);
            lemma_shape2(out_f, in_f);
            let o = self.nodes()[id as int];
            assert(o.data.shape@ =~= seq![n, out_f]);
            lemma_shape2(n, out_f);
        }
        let x_shape = copy_vec(&x.shape);
        let w_shape = copy_vec(&w.shape);
        let (gi, gw, gb) = linear_backward(&x.data, &w.data, &grad.data, n, in_f, out_f, bias_len, self.zero);
        proof {
            if exact_arith::<T>() {
                let zero = self.zero;
                let (xd, wd, gd) = (x.data@, w.data@, grad.data@);
                lemma_cells_seq(
                    gi@,
                    |b: int, j: int| linear_input_grad(wd, gd, in_f as int, out_f as int, b, j, out_f as nat, zero),
                    n as int,
                    in_f as int,
                );
                assert(gi@ =~= linear_input_grad_seq(wd, gd, n as int, in_f as int, out_f as int, zero));
                lemma_cells_seq(
                    gw@,
                    |o: int, j: int| linear_weight_grad(xd, gd, in_f as int, out_f as int, o, j, n as nat, zero),
                    out_f as int,
                    in_f as int,
                );
                assert(gw@ =~= linear_weight_grad_seq(xd, gd, n as int, in_f as int, out_f as int, zero));
                assert(gb@ =~= linear_bias_grad_seq(gd, n as int, out_f as int, bias_len as nat, zero));
            }
        }
        let ghost s0 = *self;
        self.add_grad_below(input, Tensor::from_data(gi, x_shape), Ghost(id as int));
        let ghost s1 = *self;
        self.add_grad_below(weights, Tensor::from_data(gw, w_shape), Ghost(id as int));
        let ghost s2 = *self;
        proof {
            Self::lemma_grown_trans(&s0, &s1, &s2, id as int);
        }
        self.add_grad_below(bias, Tensor::from_data(gb, bias_shape), Ghost(id as int));
        proof {
            Self::lemma_grown_trans(&s0, &s2, self, id as int);
        }
    }

    /// Gradients of a convolution node sent to its input, kernel and bias.
    fn backward_conv2d(
        &mut self,
        id: NodeId,
        input: NodeId,
        weights: NodeId,
        bias: NodeId,
        padding: usize,
        k: usize,
        grad: &Tensor<T>,
    )
        requires
            arith_total::<T>(),
            old(self).wf(),
            id < old(self).nodes().len(),
            old(self).nodes()[id as int].op == (Op::<T>::Conv2d { input, weights, bias, padding, k }),
            grad.wf(),
            grad.data.len() == old(self).nodes()[id as int].data.data.len(),
        ensures
            final(self).grads_grown_from(old(self)),
            final(self).unchanged_from(old(self), id as int),
            final(self).nodes()[input as int].grad is Some,
            final(self).nodes()[weights as int].grad is Some,
            final(self).nodes()[bias as int].grad is Some,
            final(self).sent_from(old(self), id as int, grad.data@),
            forall|i: int|
                0 <= i < final(self).nodes().len() && !operand_of(old(self).nodes()[id as int].op, i)
                    ==> #[trigger] final(self).nodes()[i] == old(self).nodes()[i],
    {
        proof {
            assert(node_ok(self.nodes(), id as int));
            assert(node_ok(self.nodes(), input as int));
            assert(node_ok(self.nodes(), weights as int));
            assert(node_ok(self.nodes(), bias as int));
        }
        let x = &self.nodes[input].data;
        let w = &self.nodes[weights].data;
        let bias_len = self.nodes[bias].data.data.len();
        let bias_shape = copy_vec(&self.nodes[bias].data.shape);
        let s = ConvShape {
            n: x.shape[0],
            c_in: x.shape[1],
            h: x.shape[2],
            w: x.shape[3],
            c_out: w.shape[0],
            h_out: x.shape[2] + 2 * padding - k + 1,
            w_out: x.shape[3] + 2 * padding - k + 1,
            kernel: k,
            padding,
        };
        proof {
            assert(x.shape@ =~= seq![s.n, s.c_in, s.h, s.w]);
            assert(w.shape@ =~= seq![s.c_out, s.c_in, s.kernel, s.kernel]);
            lemma_shape4(s.n, s.c_in, s.h, s.w);
            lemma_shape4(s.c_out, s.c_in, s.kernel, s.kernel);
            let o = self.nodes()[id as int];
            assert(o.data.shape@ =~= seq![s.n, s.c_out, s.h_out, s.w_out]);
            lemma_shape4(s.n, s.c_out, s.h_out, s.w_out);
        }
        let x_shape = copy_vec(&x.shape);
        let w_shape = copy_vec(&w.shape);
        let (gi, gw, gb) = conv_backward(&x.data, &w.data, &grad.data, s, bias_len, self.zero);
        let ghost s0 = *self;
        self.add_grad_below(input, Tensor::from_data(gi, x_shape), Ghost(id as int));
        let ghost s1 = *self;
        self.add_grad_below(weights, Tensor::from_data(gw, w_shape), Ghost(id as int));
        let ghost s2 = *self;
        proof {
            Self::lemma_grown_trans(&s0, &s1, &s2, id as int);
        }
        self.add_grad_below(bias, Tensor::from_data(gb, bias_shape), Ghost(id as int));
        proof {
            Self::lemma_grown_trans(&s0, &s2, self, id as int);
        }
    }

    /// Sends the gradient of node `id` to the operands of its operation.
    fn backward_node(&mut self, id: NodeId)
        requires
            arith_total::<T>(),
            old(self).wf(),
            id < old(self).nodes().len(),
            old(self).nodes()[id as int].grad is Some,
        ensures
            final(self).grads_grown_from(old(self)),
            final(self).unchanged_from(old(self), id as int),
            forall|k: int|
                operand_of(old(self).nodes()[id as int].op, k) ==> #[trigger] final(self).nodes()[k].grad is Some,
            final(self).sent_from(old(self), id as int, old(self).nodes()[id as int].grad.unwrap().data@),
            forall|i: int|
                0 <= i < final(self).nodes().len() && !operand_of(old(self).nodes()[id as int].op, i)
                    ==> #[trigger] final(self).nodes()[i] == old(self).nodes()[i],
    {
        proof {
            assert(node_ok(self.nodes(), id as int));
        }
        let grad = match &self.nodes[id].grad {
            Some(g) => g.duplicate(),
            None => Tensor::from_data(Vec::new(), Vec::new()),
        };
        match &self.nodes[id].op {
            Op::Leaf => {},
            Op::Relu { input } => {
                let input = *input;
                self.backward_relu(id, input, &grad);
            },
            Op::MaxPool { input } => {
                let input = *input;
                self.backward_maxpool(id, input, &grad);
            },
            Op::Flatten { input, original_shape } => {
                let input = *input;
                let original_shape = copy_vec(original_shape);
                self.backward_flatten(id, input, original_shape, &grad);
            },
            Op::SoftmaxCE { logits, targets, batch_size } => {
                let logits = *logits;
                let targets = copy_vec(targets);
                let batch_size = *batch_size;
                self.backward_softmax_ce(id, logits, &targets, batch_size, &grad);
            },
            Op::Linear { input, weights, bias } => {
                let (input, weights, bias) = (*input, *weights, *bias);
                self.backward_linear(id, input, weights, bias, &grad);
            },
            Op::Conv2d { input, weights, bias, padding, k } => {
                let (input, weights, bias, padding, k) = (*input, *weights, *bias, *padding, *k);
                self.backward_conv2d(id, input, weights, bias, padding, k, &grad);
            },
        }
    }

    /// Back-propagates from node `loss`: seeds its gradient with one and visits nodes from
    /// `loss` down to the first, sending every gradient that exists to the operands.
    pub fn backward(&mut self, loss: NodeId)
        requires
            arith_total::<T>(),
            old(self).wf(),
            loss < old(self).nodes().len(),
            old(self).nodes()[loss as int].data.data.len() == 1,
        ensures
            final(self).grads_grown_from(old(self)),
            final(self).nodes()[loss as int].grad is Some,
            final(self).nodes()[loss as int].grad.unwrap().data@ == seq![old(self).one()],
            forall|i: int| 0 <= i < final(self).nodes().len() && #[trigger] needs_grad(final(self).nodes(), loss as int, i)
                ==> final(self).nodes()[i].grad is Some,
            exact_arith::<T>() && exact_order::<T>() && (forall|j: int|
                0 <= j <= loss ==> operands_distinct(#[trigger] old(self).nodes()[j].op)) ==> forall|k: int|
                0 <= k <= loss ==> #[trigger] grad_data(final(self).nodes()[k].grad) == chain_grad(
                    final(self).nodes(),
                    old(self).nodes(),
                    old(self).zero(),
                    old(self).one(),
                    loss as int,
                    k,
                    k + 1,
                ),
    {
        let mut seed_data: Vec<T> = Vec::new();
        seed_data.push(self.one);
        proof {
            crate::compute::tensor::lemma_shape1(1);
            assert(node_ok(self.nodes(), loss as int));
        }
        let seed = Tensor::from_data(seed_data, shape_vec1(1));
        let ghost s0 = *self;
        let len = self.nodes.len();
        self.nodes[loss].grad = Some(seed);
        proof {
            assert forall|i: int| 0 <= i < self.nodes().len() implies #[trigger] node_ok(self.nodes(), i) by {
                assert(node_ok(s0.nodes(), i));
                assert forall|j: int| 0 <= j <= i implies same_frame(#[trigger] s0.nodes()[j], self.nodes()[j]) by {}
                lemma_op_ok_frame(s0.nodes(), self.nodes(), i);
            }
            assert forall|k: int| 0 <= k < self.parameters().len() implies #[trigger] self.parameters()[k] < self.nodes().len() by {
                assert(s0.parameters()[k] < s0.nodes().len());
            }
            assert forall|a: int, b: int|
                0 <= a < b < self.parameters().len() implies #[trigger] self.parameters()[a] < #[trigger] self.parameters()[b] by {
                assert(s0.parameters()[a] < s0.parameters()[b]);
            }
            assert forall|i: int| 0 <= i < self.nodes().len() implies {
                let a = #[trigger] self.nodes()[i];
                let b = s0.nodes()[i];
                &&& same_frame(a, b)
                &&& a.data == b.data
                &&& a.is_param == b.is_param
                &&& (b.grad is Some ==> a.grad is Some)
            } by {}
        }
        let ghost s1 = *self;
        assert(s1.nodes()[loss as int].grad.unwrap().data@ =~= seq![s0.one()]);
        let ghost chain_on = exact_arith::<T>() && exact_order::<T>() && (forall|j: int|
            0 <= j <= loss ==> operands_distinct(#[trigger] s0.nodes()[j].op));
        proof {
            if chain_on {
                assert forall|k: int| 0 <= k < loss + 1 implies #[trigger] grad_data(self.nodes()[k].grad) == chain_grad(
                    self.nodes(),
                    s0.nodes(),
                    s0.zero(),
                    s0.one(),
                    loss as int,
                    k,
                    loss + 1,
                ) by {
                    if k != loss {
                        assert(self.nodes()[k] == s0.nodes()[k]);
                    }
                }
            }
        }
        let mut id: usize = loss + 1;
        while id > 0
            invariant
                arith_total::<T>(),
                id <= loss + 1,
                loss < s1.nodes().len(),
                s1.wf(),
                self.grads_grown_from(&s1),
                s1.grads_grown_from(&s0),
                s1.nodes()[loss as int].grad is Some,
                self.nodes()[loss as int] == s1.nodes()[loss as int],
                forall|j: int| id <= j <= loss && #[trigger] self.nodes()[j].grad is Some ==> forall|k: int|
                    operand_of(self.nodes()[j].op, k) ==> #[trigger] self.nodes()[k].grad is Some,
                chain_on == (exact_arith::<T>() && exact_order::<T>() && (forall|j: int|
                    0 <= j <= loss ==> operands_distinct(#[trigger] s0.nodes()[j].op))),
                chain_on ==> forall|k: int|
                    0 <= k < id ==> #[trigger] grad_data(self.nodes()[k].grad) == chain_grad(
                        self.nodes(),
                        s0.nodes(),
                        s0.zero(),
                        s0.one(),
                        loss as int,
                        k,
                        id as int,
                    ),
                chain_on ==> forall|k: int|
                    id <= k <= loss ==> #[trigger] grad_data(self.nodes()[k].grad) == chain_grad(
                        self.nodes(),
                        s0.nodes(),
                        s0.zero(),
                        s0.one(),
                        loss as int,
                        k,
                        k + 1,
                    ),
            decreases id,
        {
            id = id - 1;
            let ghost before = *self;
            let has_grad = self.nodes[id].grad.is_some();
            if has_grad {
                self.backward_node(id);
                proof {
                    Self::lemma_grown_trans_only(&s1, &before, self);
                }
            }
            proof {
                if chain_on {
                    Self::lemma_grown_trans_only(&s0, &s1, &before);
                    Self::lemma_backward_step(&s0, &before, self, loss as int, id as int);
                }
                assert forall|j: int| id <= j <= loss && #[trigger] self.nodes()[j].grad is Some implies forall|k: int|
                    operand_of(self.nodes()[j].op, k) ==> #[trigger] self.nodes()[k].grad is Some by {
                    if j > id {
                        assert(self.nodes()[j] == before.nodes()[j]);
                        assert forall|k: int| operand_of(self.nodes()[j].op, k) implies #[trigger] self.nodes()[k].grad is Some by {
                            assert(node_ok(before.nodes(), j));
                            lemma_operand_in_range(before.nodes(), j, k);
                            assert(before.nodes()[k].grad is Some);
                        }
                    }
                }
            }
        }
        proof {
            Self::lemma_grown_trans_only(&s0, &s1, self);
            assert(self.nodes()[loss as int].grad is Some);
            assert forall|i: int| 0 <= i < self.nodes().len() && #[trigger] needs_grad(self.nodes(), loss as int, i)
                implies self.nodes()[i].grad is Some by {
                lemma_needs_grad_has_grad(self.nodes(), loss as int, i);
            }
        }
    }

    /// Applies `param -= lr * grad` to every parameter that has a gradient.
    pub fn sgd_step(&mut self, lr: T)
        requires
            arith_total::<T>(),
            old(self).wf(),
        ensures
            final(self).wf(),
            final(self).nodes().len() == old(self).nodes().len(),
            final(self).parameters() == old(self).parameters(),
            final(self).param_count() == old(self).param_count(),
            final(self).params_kept() == old(self).params_kept(),
            final(self).zero() == old(self).zero(),
            final(self).one() == old(self).one(),
            final(self).lowest() == old(self).lowest(),
            forall|i: int| 0 <= i < final(self).nodes().len() ==> {
                let a = #[trigger] final(self).nodes()[i];
                let b = old(self).nodes()[i];
                &&& same_frame(a, b)
                &&& a.grad == b.grad
                &&& a.is_param == b.is_param
                &&& (!(old(self).parameters().contains(i as usize) && b.grad is Some) ==> a.data == b.data)
                &&& (old(self).parameters().contains(i as usize) && b.grad is Some && exact_arith::<T>()) ==> forall|k: int|
                    0 <= k < a.data.data.len() ==> #[trigger] a.data.data@[k] == sgd_value(
                        b.data.data@[k],
                        b.grad.unwrap().data@[k],
                        lr,
                    )
            },
    {
        let mut p: usize = 0;
        while p < self.parameters.len()
            invariant
                arith_total::<T>(),
                p <= self.parameters.len(),
                self.wf(),
                self.nodes().len() == old(self).nodes().len(),
                self.parameters() == old(self).parameters(),
                self.param_count() == old(self).param_count(),
                self.zero() == old(self).zero(),
                self.one() == old(self).one(),
                self.lowest() == old(self).lowest(),
                forall|i: int| 0 <= i < self.nodes().len() ==> {
                    let a = #[trigger] self.nodes()[i];
                    let b = old(self).nodes()[i];
                    &&& same_frame(a, b)
                    &&& a.grad == b.grad
                    &&& a.is_param == b.is_param
                    &&& (!(self.parameters().take(p as int).contains(i as usize) && b.grad is Some) ==> a.data == b.data)
                    &&& (self.parameters().take(p as int).contains(i as usize) && b.grad is Some && exact_arith::<T>()) ==> forall|k: int|
                        0 <= k < a.data.data.len() ==> #[trigger] a.data.data@[k] == sgd_value(
                            b.data.data@[k],
                            b.grad.unwrap().data@[k],
                            lr,
                        )
                },
            decreases self.parameters.len() - p,
        {
            let id = self.parameters[p];
            proof {
                assert(self.parameters()[p as int] < self.nodes().len());
                assert(node_ok(self.nodes(), id as int));
                assert(!self.parameters().take(p as int).contains(id)) by {
                    if self.parameters().take(p as int).contains(id) {
                        let w = choose|w: int| 0 <= w < p && #[trigger] self.parameters().take(p as int)[w] == id;
                        assert(self.parameters()[w] < self.parameters()[p as int]);
                    }
                }
            }
            let ghost before = *self;
            let node_count = self.nodes.len();
            let g = self.nodes[id].grad.take();
            match g {
                Some(gt) => {
                    let mut k: usize = 0;
                    while k < self.nodes[id].data.data.len()
                        invariant
                            arith_total::<T>(),
                            id < self.nodes().len(),
                            self.nodes().len() == before.nodes().len(),
                            k <= self.nodes()[id as int].data.data.len(),
                            gt.data.len() == before.nodes()[id as int].data.data.len(),
                            Some(gt) == before.nodes()[id as int].grad,
                            forall|i: int| 0 <= i < self.nodes().len() && i != id ==> #[trigger] self.nodes()[i] == before.nodes()[i],
                            self.nodes()[id as int].grad is None,
                            self.nodes()[id as int].op == before.nodes()[id as int].op,
                            self.nodes()[id as int].shape == before.nodes()[id as int].shape,
                            self.nodes()[id as int].is_param == before.nodes()[id as int].is_param,
                            self.nodes()[id as int].aux_argmax == before.nodes()[id as int].aux_argmax,
                            self.nodes()[id as int].aux_probs == before.nodes()[id as int].aux_probs,
                            self.nodes()[id as int].data.shape == before.nodes()[id as int].data.shape,
                            self.nodes()[id as int].data.data.len() == before.nodes()[id as int].data.data.len(),
                            forall|q: int| k <= q < self.nodes()[id as int].data.data.len() ==> #[trigger] self.nodes()[id as int].data.data@[q] == before.nodes()[id as int].data.data@[q],
                            exact_arith::<T>() ==> forall|q: int| 0 <= q < k ==> #[trigger] self.nodes()[id as int].data.data@[q] == sgd_value(
                                before.nodes()[id as int].data.data@[q],
                                gt.data@[q],
                                lr,
                            ),
                            self.parameters() == before.parameters(),
                            self.param_count() == before.param_count(),
                            self.zero() == before.zero(),
                            self.one() == before.one(),
                            self.lowest() == before.lowest(),
                        decreases self.nodes()[id as int].data.data.len() - k,
                    {
                        let v = self.nodes[id].data.data[k] - lr * gt.data[k];
                        self.nodes[id].data.data.set(k, v);
                        k = k + 1;
                    }
                    self.nodes[id].grad = Some(gt);
                },
                None => {
                    self.nodes[id].grad = None;
                },
            }
            proof {
                let ps = self.parameters();
                assert(ps.take(p + 1)[p as int] == id);
                assert forall|i: int| 0 <= i < self.nodes().len() implies #[trigger] node_ok(self.nodes(), i) by {
                    assert(node_ok(before.nodes(), i));
                    assert forall|j: int| 0 <= j <= i implies same_frame(#[trigger] before.nodes()[j], self.nodes()[j]) by {}
                    lemma_op_ok_frame(before.nodes(), self.nodes(), i);
                }
                assert forall|i: int| 0 <= i < self.nodes().len() implies {
                    let a = #[trigger] self.nodes()[i];
                    let b = old(self).nodes()[i];
                    &&& same_frame(a, b)
                    &&& a.grad == b.grad
                    &&& a.is_param == b.is_param
                    &&& (!(ps.take(p + 1).contains(i as usize) && b.grad is Some) ==> a.data == b.data)
                    &&& (ps.take(p + 1).contains(i as usize) && b.grad is Some && exact_arith::<T>()) ==> forall|k: int|
                        0 <= k < a.data.data.len() ==> #[trigger] a.data.data@[k] == sgd_value(
                            b.data.data@[k],
                            b.grad.unwrap().data@[k],
                            lr,
                        )
                } by {
                    if i != id as int {
                        assert(self.nodes()[i] == before.nodes()[i]);
                        if ps.take(p as int).contains(i as usize) {
                            let w = choose|w: int| 0 <= w < p && #[trigger] ps.take(p as int)[w] == i as usize;
                            assert(ps.take(p + 1)[w] == i as usize);
                        }
                        if ps.take(p + 1).contains(i as usize) {
                            let w = choose|w: int| 0 <= w < p + 1 && #[trigger] ps.take(p + 1)[w] == i as usize;
                            assert(i < node_count);
                            assert((i as usize) as int == i);
                            assert(ps.take(p + 1)[p as int] == id);
                            assert(w != p);
                            assert(ps.take(p as int)[w] == i as usize);
                        }
                    } else {
                        assert(ps.take(p + 1).contains(i as usize));
                        assert(before.nodes()[i].data == old(self).nodes()[i].data);
                        assert(before.nodes()[i].grad == old(self).nodes()[i].grad);
                    }
                }
            }
            p = p + 1;
        }
        proof {
            assert(self.parameters().take(self.parameters().len() as int) =~= self.parameters());
        }
    }
}

/// Node `k` is read by operation `op`.
pub open spec fn operand_of<T>(op: Op<T>, k: int) -> bool {
    match op {
        Op::Leaf => false,
        Op::Relu { input } => k == input,
        Op::MaxPool { input } => k == input,
        Op::Flatten { input, original_shape } => k == input,
        Op::Linear { input, weights, bias } => k == input || k == weights || k == bias,
        Op::Conv2d { input, weights, bias, padding, k: _ } => k == input || k == weights || k == bias,
        Op::SoftmaxCE { logits, targets, batch_size } => k == logits,
    }
}

proof fn lemma_operand_in_range<T>(nodes: Seq<Node<T>>, j: int, k: int)
    requires
        0 <= j < nodes.len(),
        op_ok(nodes, j),
        operand_of(nodes[j].op, k),
    ensures
        0 <= k < j,
{
}

/// The gradient values held in `g`, if any.
pub open spec fn grad_data<T>(g: Option<Tensor<T>>) -> Option<Seq<T>> {
    match g {
        Some(t) => Some(t.data@),
        None => None,
    }
}

/// A gradient `acc` after `part` is added to it (or `part` when there was none).
pub open spec fn accumulate<T: Scalar>(acc: Option<Seq<T>>, part: Seq<T>) -> Option<Seq<T>> {
    match acc {
        Some(a) => Some(elementwise_sum(a, part)),
        None => Some(part),
    }
}

/// A layer with weights reads three different nodes.
pub open spec fn operands_distinct<T>(op: Op<T>) -> bool {
    match op {
        Op::Linear { input, weights, bias } => distinct3(input, weights, bias),
        Op::Conv2d { input, weights, bias, .. } => distinct3(input, weights, bias),
        _ => true,
    }
}

/// The chain-rule part node `j` of `nodes` sends to node `k` when its gradient is `g`, or
/// `None` when `k` is not an operand of `j`; `zero` and `one` are the element type's.
pub open spec fn part_sent<T: Scalar>(nodes: Seq<Node<T>>, zero: T, one: T, j: int, g: Seq<T>, k: int) -> Option<Seq<T>> {
    match nodes[j].op {
        Op::Leaf => None,
        Op::Relu { input } => if k == input {
            Some(relu_grad_seq(nodes[input as int].data.data@, g, zero))
        } else {
            None
        },
        Op::MaxPool { input } => if k == input {
            Some(pool_grad_seq(nodes[input as int].data.data.len() as nat, nodes[j].aux_argmax.unwrap()@, g, zero))
        } else {
            None
        },
        Op::Flatten { input, .. } => if k == input {
            Some(g)
        } else {
            None
        },
        Op::SoftmaxCE { logits, targets, batch_size } => if k == logits {
            Some(ce_grad_seq(nodes[j].aux_probs.unwrap(), targets@, one, batch_size, g))
        } else {
            None
        },
        Op::Linear { input, weights, bias } => {
            let x = nodes[input as int].data;
            let w = nodes[weights as int].data;
            let n = x.shape@[0] as int;
            let in_f = w.shape@[1] as int;
            let out_f = w.shape@[0] as int;
            if k == input {
                Some(linear_input_grad_seq(w.data@, g, n, in_f, out_f, zero))
            } else if k == weights {
                Some(linear_weight_grad_seq(x.data@, g, n, in_f, out_f, zero))
            } else if k == bias {
                Some(linear_bias_grad_seq(g, n, out_f, nodes[bias as int].data.data.len() as nat, zero))
            } else {
                None
            }
        },
        Op::Conv2d { input, weights, bias, padding, .. } => {
            let x = nodes[input as int].data;
            let w = nodes[weights as int].data;
            let cs = conv_shape_of(x.shape@, w.shape@, padding);
            if k == input {
                Some(input_grad_seq(w.data@, g, cs, zero))
            } else if k == weights {
                Some(weight_grad_seq(x.data@, g, cs, zero))
            } else if k == bias {
                Some(bias_grad_seq(g, cs, nodes[bias as int].data.data.len() as nat, zero))
            } else {
                None
            }
        },
    }
}

/// What a mean softmax cross-entropy node `j` sends its logits when its own gradient is `g`:
/// element `k` (row `k / classes`, class `k % classes` of the stored probabilities `probs`)
/// is `(probs[k] - [class is the row's target] * one) * (g[0] / batch_size)`, the gradient of
/// the mean loss scaled by `g[0]`.
pub proof fn lemma_ce_part<T: Scalar>(nodes: Seq<Node<T>>, zero: T, one: T, j: int, g: Seq<T>, k: int)
    requires
        0 <= j < nodes.len(),
        op_ok(nodes, j),
        nodes[j].op is SoftmaxCE,
        0 <= k < nodes[j].aux_probs.unwrap().data.len(),
    ensures
        ({
            let probs = nodes[j].aux_probs.unwrap();
            let classes = probs.shape@[1] as int;
            let targets = nodes[j].op->SoftmaxCE_targets@;
            let batch_size = nodes[j].op->SoftmaxCE_batch_size;
            let part = part_sent(nodes, zero, one, j, g, nodes[j].op->SoftmaxCE_logits as int);
            &&& part is Some
            &&& part.unwrap().len() == probs.data.len()
            &&& part.unwrap()[k] == (if k % classes == targets[k / classes] as int {
                probs.data@[k].sub_spec(one)
            } else {
                probs.data@[k]
            }).mul_spec(g[0].div_spec(batch_size))
        }),
{
    let probs = nodes[j].aux_probs.unwrap();
    let rows = probs.shape@[0];
    let classes = probs.shape@[1];
    assert(probs.shape@ =~= seq![rows, classes]);
    lemma_shape2(rows, classes);
    crate::compute::outputs::lemma_grid2_decode(rows as int, classes as int, k);
}

/// What a fully connected node `j` (input `x` of `n x in_f`, weights of `out_f x in_f`)
/// sends its three operands when its own gradient is `g`: its weights, at `o * in_f + c`,
/// the sum over samples `b` of `g[b * out_f + o] * x[b * in_f + c]`; its input, at
/// `b * in_f + c`, the sum over outputs `o` of `g[b * out_f + o] * w[o * in_f + c]`; its
/// bias, at `o`, the sum over samples of `g[b * out_f + o]`.
pub proof fn lemma_linear_part<T: Scalar>(
    nodes: Seq<Node<T>>,
    zero: T,
    one: T,
    j: int,
    g: Seq<T>,
    b: int,
    o: int,
    c: int,
)
    requires
        0 <= j < nodes.len(),
        op_ok(nodes, j),
        nodes[j].op is Linear,
        operands_distinct(nodes[j].op),
        0 <= b < nodes[nodes[j].op->Linear_input as int].data.shape@[0],
        0 <= o < nodes[nodes[j].op->Linear_weights as int].data.shape@[0],
        0 <= c < nodes[nodes[j].op->Linear_weights as int].data.shape@[1],
    ensures
        ({
            let x = nodes[nodes[j].op->Linear_input as int].data;
            let w = nodes[nodes[j].op->Linear_weights as int].data;
            let bias = nodes[j].op->Linear_bias as int;
            let n = x.shape@[0] as int;
            let in_f = w.shape@[1] as int;
            let out_f = w.shape@[0] as int;
            let to_w = part_sent(nodes, zero, one, j, g, nodes[j].op->Linear_weights as int);
            let to_x = part_sent(nodes, zero, one, j, g, nodes[j].op->Linear_input as int);
            let to_b = part_sent(nodes, zero, one, j, g, bias);
            &&& to_w is Some && to_x is Some && to_b is Some
            &&& to_w.unwrap()[o * in_f + c] == linear_weight_grad(x.data@, g, in_f, out_f, o, c, n as nat, zero)
            &&& to_x.unwrap()[b * in_f + c] == linear_input_grad(w.data@, g, in_f, out_f, b, c, out_f as nat, zero)
            &&& to_b.unwrap()[o] == linear_bias_grad(g, out_f, o, n as nat, zero)
        }),
{
    let x = nodes[nodes[j].op->Linear_input as int].data;
    let w = nodes[nodes[j].op->Linear_weights as int].data;
    let bias_len = nodes[nodes[j].op->Linear_bias as int].data.data.len();
    crate::compute::kernels::lemma_linear_grad_entries(
        x.data@,
        w.data@,
        g,
        x.shape@[0] as int,
        w.shape@[1] as int,
        w.shape@[0] as int,
        bias_len as nat,
        zero,
        b,
        o,
        c,
    );
}

/// What a convolution node `j` sends its kernel when its own gradient is `g`: the entry for
/// kernel weight `(co, ci, ki, kj)` sits at `co * c_in * k * k + ci * k * k + ki * k + kj` and
/// is the gradient of that weight, `conv_weight_grad`.
pub proof fn lemma_conv_kernel_part<T: Scalar>(
    nodes: Seq<Node<T>>,
    zero: T,
    one: T,
    j: int,
    g: Seq<T>,
    co: int,
    ci: int,
    ki: int,
    kj: int,
)
    requires
        0 <= j < nodes.len(),
        op_ok(nodes, j),
        nodes[j].op is Conv2d,
        operands_distinct(nodes[j].op),
        ({
            let s = conv_shape_of(
                nodes[nodes[j].op->Conv2d_input as int].data.shape@,
                nodes[nodes[j].op->Conv2d_weights as int].data.shape@,
                nodes[j].op->Conv2d_padding,
            );
            &&& 0 <= co < s.c_out
            &&& 0 <= ci < s.c_in
            &&& 0 <= ki < s.kernel
            &&& 0 <= kj < s.kernel
        }),
    ensures
        ({
            let x = nodes[nodes[j].op->Conv2d_input as int].data;
            let w = nodes[nodes[j].op->Conv2d_weights as int].data;
            let s = conv_shape_of(x.shape@, w.shape@, nodes[j].op->Conv2d_padding);
            let k = s.kernel as int;
            let to_w = part_sent(nodes, zero, one, j, g, nodes[j].op->Conv2d_weights as int);
            &&& to_w is Some
            &&& to_w.unwrap()[co * s.c_in * k * k + ci * k * k + ki * k + kj]
                == crate::compute::conv_grad::conv_weight_grad(x.data@, g, s, (co, ci, ki, kj), zero)
        }),
{
    let x = nodes[nodes[j].op->Conv2d_input as int].data;
    let w = nodes[nodes[j].op->Conv2d_weights as int].data;
    let s = conv_shape_of(x.shape@, w.shape@, nodes[j].op->Conv2d_padding);
    crate::compute::conv_grad::lemma_kernel_grad_entry(x.data@, g, s, zero, co, ci, ki, kj);
}

/// The gradient of node `k` once back-propagation from `loss` has visited the nodes `loss`
/// down to `j`: its gradient in `start` (for the loss node, the seed `[one]`), then, for each
/// visited node `i` from `loss` down to `j` whose gradient in `nodes` is `g`, the part `i`
/// sends to `k` added in.
pub open spec fn chain_grad<T: Scalar>(
    nodes: Seq<Node<T>>,
    start: Seq<Node<T>>,
    zero: T,
    one: T,
    loss: int,
    k: int,
    j: int,
) -> Option<Seq<T>>
    decreases loss + 1 - j,
{
    if j > loss {
        if k == loss {
            Some(seq![one])
        } else {
            grad_data(start[k].grad)
        }
    } else {
        let acc = chain_grad(nodes, start, zero, one, loss, k, j + 1);
        match nodes[j].grad {
            Some(g) => match part_sent(start, zero, one, j, g.data@, k) {
                Some(p) => accumulate(acc, p),
                None => acc,
            },
            None => acc,
        }
    }
}

/// `chain_grad` from `j` on reads only the gradients of nodes `j` to `loss`.
pub proof fn lemma_chain_grad_stable<T: Scalar>(
    a: Seq<Node<T>>,
    b: Seq<Node<T>>,
    start: Seq<Node<T>>,
    zero: T,
    one: T,
    loss: int,
    k: int,
    j: int,
)
    requires
        forall|i: int| j <= i <= loss ==> (#[trigger] a[i]).grad == b[i].grad,
    ensures
        chain_grad(a, start, zero, one, loss, k, j) == chain_grad(b, start, zero, one, loss, k, j),
    decreases loss + 1 - j,
{
    if j <= loss {
        lemma_chain_grad_stable(a, b, start, zero, one, loss, k, j + 1);
        assert(a[j].grad == b[j].grad);
    }
}

/// The part a node sends depends only on the operations, values and saved tensors of the
/// nodes up to it.
proof fn lemma_part_sent_frame<T: Scalar>(a: Seq<Node<T>>, b: Seq<Node<T>>, zero: T, one: T, j: int, g: Seq<T>, k: int)
    requires
        0 <= j < a.len(),
        j < b.len(),
        op_ok(a, j),
        forall|i: int| 0 <= i <= j ==> same_frame(#[trigger] a[i], b[i]) && a[i].data == b[i].data,
    ensures
        part_sent(a, zero, one, j, g, k) == part_sent(b, zero, one, j, g, k),
{
    assert(same_frame(a[j], b[j]));
    match a[j].op {
        Op::Leaf => {},
        Op::Relu { input } => {
            assert(same_frame(a[input as int], b[input as int]));
        },
        Op::MaxPool { input } => {
            assert(same_frame(a[input as int], b[input as int]));
        },
        Op::Flatten { input, .. } => {},
        Op::SoftmaxCE { logits, .. } => {},
        Op::Linear { input, weights, bias } => {
            assert(same_frame(a[input as int], b[input as int]));
            assert(same_frame(a[weights as int], b[weights as int]));
            assert(same_frame(a[bias as int], b[bias as int]));
        },
        Op::Conv2d { input, weights, bias, .. } => {
            assert(same_frame(a[input as int], b[input as int]));
            assert(same_frame(a[weights as int], b[weights as int]));
            assert(same_frame(a[bias as int], b[bias as int]));
        },
    }
}

/// Node `i` lies on a path of operands from the loss node `loss`: its value influences the loss.
pub open spec fn needs_grad<T>(nodes: Seq<Node<T>>, loss: int, i: int) -> bool
    decreases loss - i,
{
    if i >= loss {
        i == loss
    } else {
        exists|j: int| i < j <= loss && #[trigger] operand_of(nodes[j].op, i) && needs_grad(nodes, loss, j)
    }
}

proof fn lemma_needs_grad_has_grad<T>(nodes: Seq<Node<T>>, loss: int, i: int)
    requires
        0 <= i,
        loss < nodes.len(),
        nodes[loss].grad is Some,
        forall|j: int| 0 <= j <= loss && #[trigger] nodes[j].grad is Some ==> forall|k: int|
            operand_of(nodes[j].op, k) ==> #[trigger] nodes[k].grad is Some,
        needs_grad(nodes, loss, i),
    ensures
        nodes[i].grad is Some,
    decreases loss - i,
{
    if i < loss {
        let j = choose|j: int| i < j <= loss && #[trigger] operand_of(nodes[j].op, i) && needs_grad(nodes, loss, j);
        lemma_needs_grad_has_grad(nodes, loss, j);
    }
}

/// Element-wise sum `a[k] + b[k]` over the length of `a`.
pub open spec fn elementwise_sum<T: Scalar>(a: Seq<T>, b: Seq<T>) -> Seq<T> {
    Seq::new(a.len(), |k: int| a[k].add_spec(b[k]))
}

} // verus!
