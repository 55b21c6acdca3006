use cifar10_cnn::compute::tensor::Tensor;
use cifar10_cnn::training::loss::{argmax, argmax_batch, softmax_ce_grad_batch};

/// Row-wise softmax of a `[rows, classes]` buffer, as the application computes it.
fn softmax_rows(data: &[f32], classes: usize) -> Vec<f32> {
    let mut out = Vec::with_capacity(data.len());
    for row in data.chunks(classes) {
        let max = row.iter().cloned().fold(f32::NEG_INFINITY, f32::max);
        let exps: Vec<f32> = row.iter().map(|v| (v - max).exp()).collect();
        let sum: f32 = exps.iter().sum();
        out.extend(exps.iter().map(|e| e / sum));
    }
    out
}

#[test]
fn loss_softmax_outputs_probabilities() {
    let logits = Tensor::from_data(vec![1.0f32, 2.0, 3.0], vec![3]);
    let probs = Tensor::from_data(softmax_rows(&logits.data, 3), vec![3]);
    let sum: f32 = probs.data.iter().sum();

    assert!((sum - 1.0).abs() < 1e-6);
    assert_eq!(probs.shape, vec![3]);
    assert_eq!(argmax(&probs), 2);
}

#[test]
fn loss_cross_entropy_uses_target_probability() {
    let probs = Tensor::from_data(vec![0.1f32, 0.8, 0.1], vec![3]);
    let loss = -(probs.data[1].max(1e-12)).ln();
    let expected = -0.8_f32.ln();

    assert!((loss - expected).abs() < 1e-6);
    assert_eq!(argmax(&probs), 1);
}

#[test]
fn softmax_batch_outputs_probabilities_per_row() {
    let logits = [1.0f32, 2.0, 3.0, 3.0, 2.0, 1.0];
    let probs = Tensor::from_data(softmax_rows(&logits, 3), vec![2, 3]);

    assert_eq!(probs.shape, vec![2, 3]);
    assert!((probs.data[0..3].iter().sum::<f32>() - 1.0).abs() < 1e-6);
    assert!((probs.data[3..6].iter().sum::<f32>() - 1.0).abs() < 1e-6);
    assert_eq!(argmax_batch(&probs), vec![2, 0]);
}

#[test]
fn softmax_ce_grad_batch_scales_by_batch_size() {
    let probs = Tensor::from_data(vec![0.1f32, 0.8, 0.1, 0.7, 0.2, 0.1], vec![2, 3]);
    let grad = softmax_ce_grad_batch(&probs, &[1, 0], 1.0, 2.0);

    assert_eq!(grad.shape, vec![2, 3]);
    let expected = [0.05, -0.1, 0.05, -0.15, 0.1, 0.05];
    for (actual, expected) in grad.data.iter().zip(expected) {
        assert!((actual - expected).abs() < 1e-6);
    }
}

#[test]
fn argmax_takes_the_last_of_equal_maxima() {
    let t = Tensor::from_data(vec![3.0f32, 7.0, 7.0, 1.0], vec![4]);
    assert_eq!(argmax(&t), 2);
}

#[test]
fn argmax_batch_of_integer_rows() {
    let t = Tensor::from_data(vec![4i64, 1, 0, 2, 9, 9], vec![3, 2]);
    assert_eq!(argmax_batch(&t), vec![0, 1, 1]);
}
