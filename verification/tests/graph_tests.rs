use cifar10_cnn::compute::wrap64::Wrap64;
use cifar10_cnn::compute::tensor::Tensor;
use cifar10_cnn::training::graph::Graph;

fn softmax_rows(data: &[f32], classes: usize) -> Vec<f32> {
    let mut out = Vec::with_capacity(data.len());
    for row in data.chunks(classes) {
        let max = row.iter().cloned().fold(f32::NEG_INFINITY, f32::max);
        let exps: Vec<f32> = row.iter().map(|v| (v - max).exp()).collect();
        let sum: f32 = exps.iter().sum();
        out.extend(exps.iter().map(|e| e / sum));
    }
    out
}

/// Appends the softmax cross-entropy loss node of `logits` against `targets`.
fn add_loss(graph: &mut Graph<f32>, logits: usize, targets: &[usize]) -> usize {
    let t = graph.data(logits).clone();
    let classes = t.shape[1];
    let probs = softmax_rows(&t.data, classes);
    let n = targets.len();
    let loss = targets
        .iter()
        .enumerate()
        .map(|(b, &c)| -(probs[b * classes + c].max(1e-12)).ln())
        .sum::<f32>()
        / n as f32;
    graph.softmax_ce(logits, targets, Tensor::from_data(probs, t.shape.clone()), loss, n as f32)
}

fn new_graph() -> Graph<f32> {
    Graph::new(0.0, 1.0, f32::NEG_INFINITY)
}

#[test]
fn linear_softmax_ce_backward_populates_parameter_grads() {
    let mut graph = new_graph();
    let weights = graph.add_leaf(Tensor::from_data(vec![0.1, 0.2, 0.3, 0.4], vec![2, 2]), true);
    let bias = graph.add_leaf(Tensor::zeros(vec![2], 0.0), true);
    graph.finalize_params();
    graph.reset_for_iteration();

    let input = graph.add_leaf(Tensor::from_data(vec![1.0, 2.0], vec![1, 2]), false);
    let logits = graph.linear(input, weights, bias);
    let loss = add_loss(&mut graph, logits, &[1]);
    let before = graph.data(weights).data.clone();

    graph.backward(loss);
    graph.sgd_step(0.1);

    assert!(graph.data(loss).data[0].is_finite());
    assert_ne!(graph.data(weights).data, before);
}

#[test]
fn conv2d_padding_preserves_spatial_shape() {
    let mut graph = new_graph();
    let weights = graph.add_leaf(Tensor::from_data(vec![1.0; 9], vec![1, 1, 3, 3]), true);
    let bias = graph.add_leaf(Tensor::zeros(vec![1], 0.0), true);
    graph.finalize_params();
    graph.reset_for_iteration();

    let input = graph.add_leaf(Tensor::zeros(vec![1, 1, 3, 3], 0.0), false);
    let output = graph.conv2d(input, weights, bias, 1);

    assert_eq!(graph.data(output).shape, vec![1, 1, 3, 3]);
}

#[test]
fn reset_keeps_parameters_and_drops_activations() {
    let mut graph = new_graph();
    let weights = graph.add_leaf(Tensor::from_data(vec![1.0, 2.0], vec![1, 2]), true);
    let bias = graph.add_leaf(Tensor::zeros(vec![1], 0.0), true);
    graph.finalize_params();

    let input = graph.add_leaf(Tensor::from_data(vec![3.0, 4.0], vec![1, 2]), false);
    let output = graph.linear(input, weights, bias);

    assert!(graph.len() > graph.kept_len());
    assert_eq!(graph.data(output).shape, vec![1, 1]);
    assert_eq!(graph.data(output).data, vec![11.0]);

    graph.add_grad(weights, Tensor::from_data(vec![1.0, 1.0], vec![1, 2]));
    graph.reset_for_iteration();

    assert_eq!(graph.len(), graph.kept_len());
    assert_eq!(graph.data(weights).data, vec![1.0, 2.0]);
    assert!(graph.grad(weights).is_none());
    assert!(graph.grad(bias).is_none());
}

#[test]
fn accumulate_grad_adds_multiple_contributions() {
    let mut graph = new_graph();
    let input = graph.add_leaf(Tensor::zeros(vec![2], 0.0), false);

    graph.add_grad(input, Tensor::from_data(vec![1.0, 2.0], vec![2]));
    graph.add_grad(input, Tensor::from_data(vec![3.0, 4.0], vec![2]));

    assert_eq!(graph.grad(input).unwrap().data, vec![4.0, 6.0]);
}

#[test]
fn backward_covers_conv_relu_pool_flatten_linear_chain() {
    let mut graph = new_graph();
    let conv_w = graph.add_leaf(Tensor::from_data(vec![0.1; 9], vec![1, 1, 3, 3]), true);
    let conv_b = graph.add_leaf(Tensor::zeros(vec![1], 0.0), true);
    let linear_w = graph.add_leaf(
        Tensor::from_data(vec![0.1, -0.2, 0.3, -0.4, -0.1, 0.2, -0.3, 0.4], vec![2, 4]),
        true,
    );
    let linear_b = graph.add_leaf(Tensor::zeros(vec![2], 0.0), true);
    graph.finalize_params();
    graph.reset_for_iteration();

    let input = graph.add_leaf(
        Tensor::from_data(
            vec![
                1.0, -1.0, 2.0, -2.0, 0.5, -0.5, 1.5, -1.5, 2.0, 1.0, -1.0, -2.0, 0.0, 0.25, -0.25,
                0.75,
            ],
            vec![1, 1, 4, 4],
        ),
        false,
    );
    let x = graph.conv2d(input, conv_w, conv_b, 1);
    let x = graph.relu(x);
    let x = graph.maxpool2x2(x);
    let x = graph.flatten(x);
    let logits = graph.linear(x, linear_w, linear_b);
    let loss = add_loss(&mut graph, logits, &[1]);
    let before = graph.data(conv_w).data.clone();

    graph.backward(loss);
    graph.sgd_step(0.01);

    for id in [input, conv_w, conv_b, linear_w, linear_b] {
        let grad = graph.grad(id).expect("node must receive a backward gradient");
        assert!(grad.data.iter().all(|value| value.is_finite()), "non-finite gradient for node {id}");
    }
    assert_ne!(graph.data(conv_w).data, before);
}

#[test]
fn predictions_for_loss_take_row_argmax() {
    let mut graph = new_graph();
    let weights = graph.add_leaf(Tensor::from_data(vec![1.0, 0.0, 0.0, 1.0], vec![2, 2]), true);
    let bias = graph.add_leaf(Tensor::zeros(vec![2], 0.0), true);
    graph.finalize_params();
    graph.reset_for_iteration();

    let input = graph.add_leaf(Tensor::from_data(vec![3.0, 1.0, 0.0, 2.0], vec![2, 2]), false);
    let logits = graph.linear(input, weights, bias);
    let loss = add_loss(&mut graph, logits, &[0, 1]);

    assert_eq!(graph.predictions_for_loss(loss), vec![0, 1]);
}

#[test]
fn backward_sends_chain_rule_gradients_through_linear_layer() {
    let mut graph: Graph<i64> = Graph::new(0, 1, i64::MIN);
    let weights = graph.add_leaf(Tensor::from_data(vec![1, 2, 3, 4], vec![2, 2]), true);
    let bias = graph.add_leaf(Tensor::from_data(vec![0, 0], vec![2]), true);
    graph.finalize_params();
    graph.reset_for_iteration();

    let input = graph.add_leaf(Tensor::from_data(vec![1, 2], vec![1, 2]), false);
    let logits = graph.linear(input, weights, bias);
    assert_eq!(graph.data(logits).data, vec![5, 11]);
    let probs = Tensor::from_data(vec![3, 5], vec![1, 2]);
    let loss = graph.softmax_ce(logits, &[1], probs, 7, 1);
    graph.backward(loss);

    assert_eq!(graph.grad(loss).unwrap().data, vec![1]);
    assert_eq!(graph.grad(logits).unwrap().data, vec![3, 4]);
    assert_eq!(graph.grad(weights).unwrap().data, vec![3, 6, 4, 8]);
    assert_eq!(graph.grad(bias).unwrap().data, vec![3, 4]);
    assert_eq!(graph.grad(input).unwrap().data, vec![15, 22]);
}

#[test]
fn wrap64_backward_matches_chain_rule_values() {
    let w = |v: i64| Wrap64 { v };
    let mut graph: Graph<Wrap64> = Graph::new(w(0), w(1), w(i64::MIN));
    let weights = graph.add_leaf(Tensor::from_data(vec![w(1), w(2), w(3), w(4)], vec![2, 2]), true);
    let bias = graph.add_leaf(Tensor::from_data(vec![w(0), w(0)], vec![2]), true);
    graph.finalize_params();
    graph.reset_for_iteration();

    let input = graph.add_leaf(Tensor::from_data(vec![w(1), w(2)], vec![1, 2]), false);
    let logits = graph.linear(input, weights, bias);
    let probs = Tensor::from_data(vec![w(3), w(5)], vec![1, 2]);
    let loss = graph.softmax_ce(logits, &[1], probs, w(7), w(1));
    graph.backward(loss);
    graph.sgd_step(w(1));

    assert_eq!(graph.grad(weights).unwrap().data, vec![w(3), w(6), w(4), w(8)]);
    assert_eq!(graph.data(weights).data, vec![w(-2), w(-4), w(-1), w(-4)]);
    assert_eq!(graph.data(bias).data, vec![w(-3), w(-4)]);
}

#[test]
fn wrap64_arithmetic_wraps_and_divides_by_zero_to_zero() {
    let w = |v: i64| Wrap64 { v };
    assert_eq!(w(i64::MAX) + w(1), w(i64::MIN));
    assert_eq!(w(7) / w(0), w(0));
    assert_eq!(w(-7) / w(2), w(-3));
    assert_eq!(w(i64::MIN) / w(-1), w(i64::MIN));
    assert!(w(-1) < w(0));
}
