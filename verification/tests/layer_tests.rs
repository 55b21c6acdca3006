use cifar10_cnn::compute::tensor::Tensor;
use cifar10_cnn::layers::conv::Conv2D;
use cifar10_cnn::layers::dense::Dense;
use cifar10_cnn::layers::maxpool::MaxPool2x2;
use cifar10_cnn::layers::relu::ReLU;

fn filled(value: f32, shape: Vec<usize>) -> Tensor<f32> {
    let n = shape.iter().product();
    Tensor::from_data(vec![value; n], shape)
}

#[test]
fn forward_without_padding_matches_existing_shape() {
    let conv = Conv2D::new(1, 2, 3, 0, filled(0.5, vec![2, 1, 3, 3]), 0.0f32);
    let input = Tensor::zeros(vec![1, 1, 5, 5], 0.0f32);

    let (output, _) = conv.forward(&input);

    assert_eq!(output.shape, vec![1, 2, 3, 3]);
}

#[test]
fn forward_with_padding_preserves_spatial_dims() {
    let conv = Conv2D::new(1, 2, 3, 1, filled(0.5, vec![2, 1, 3, 3]), 0.0f32);
    let input = Tensor::zeros(vec![1, 1, 3, 3], 0.0f32);

    let (output, _) = conv.forward(&input);

    assert_eq!(output.shape, vec![1, 2, 3, 3]);
}

#[test]
fn backward_with_padding_returns_input_shape_and_valid_gradients() {
    let mut conv = Conv2D::new(1, 1, 3, 1, filled(1.0, vec![1, 1, 3, 3]), 0.0f32);

    let input = Tensor::from_data(vec![1.0, 2.0, 3.0, 4.0], vec![1, 1, 2, 2]);
    let (output, cache) = conv.forward(&input);
    let grad_output = Tensor::from_data(vec![1.0; output.numel()], output.shape);

    let grad_input = conv.backward(&cache, &grad_output);

    assert_eq!(grad_input.shape, vec![1, 1, 2, 2]);
    assert_eq!(grad_input.data, vec![4.0, 4.0, 4.0, 4.0]);
}

#[test]
fn forward_supports_multiple_batch_items() {
    let mut conv = Conv2D::new(1, 1, 1, 0, filled(2.0, vec![1, 1, 1, 1]), 0.0f32);
    {
        let [_, bias] = conv.trainable_parameters_mut();
        bias.param.data[0] = 1.0;
    }
    let input = Tensor::from_data(vec![1.0, 2.0], vec![2, 1, 1, 1]);

    let (output, _) = conv.forward(&input);

    assert_eq!(output.shape, vec![2, 1, 1, 1]);
    assert_eq!(output.data, vec![3.0, 5.0]);
}

#[test]
fn conv_forward_sums_taps_inside_the_image() {
    let conv = Conv2D::new(1, 1, 3, 1, filled(1.0, vec![1, 1, 3, 3]), 0.0f32);
    let input = Tensor::from_data((1..=9).map(|v| v as f32).collect(), vec![1, 1, 3, 3]);

    let (output, _) = conv.forward(&input);

    assert_eq!(output.data, vec![12.0, 21.0, 16.0, 27.0, 45.0, 33.0, 24.0, 39.0, 28.0]);
}

#[test]
fn conv_backward_accumulates_weight_and_bias_gradients() {
    let mut conv = Conv2D::new(1, 1, 1, 0, filled(3.0, vec![1, 1, 1, 1]), 0.0f32);
    let input = Tensor::from_data(vec![1.0, 2.0], vec![2, 1, 1, 1]);
    let (_, cache) = conv.forward(&input);
    let grad_output = Tensor::from_data(vec![0.5, 1.0], vec![2, 1, 1, 1]);

    let grad_input = conv.backward(&cache, &grad_output);

    assert_eq!(grad_input.data, vec![1.5, 3.0]);
    let [weights, bias] = conv.trainable_parameters_mut();
    assert_eq!(weights.grad.data, vec![2.5]);
    assert_eq!(bias.grad.data, vec![1.5]);
}

#[test]
fn forward_supports_batches() {
    let dense = Dense::new(2, 2, Tensor::from_data(vec![1.0, 2.0, 3.0, 4.0], vec![2, 2]), 0.0f32);
    let mut dense = dense;
    {
        let [_, bias] = dense.trainable_parameters_mut();
        bias.param.data[0] = 0.5;
        bias.param.data[1] = -0.5;
    }
    let input = Tensor::from_data(vec![1.0, 2.0, 3.0, 4.0], vec![2, 2]);

    let (output, _) = dense.forward(&input);

    assert_eq!(output.shape, vec![2, 2]);
    assert_eq!(output.data, vec![5.5, 10.5, 11.5, 24.5]);
}

#[test]
fn backward_accumulates_gradients_across_batch() {
    let mut dense = Dense::new(2, 1, Tensor::from_data(vec![2.0, 3.0], vec![1, 2]), 0.0f32);
    let input = Tensor::from_data(vec![1.0, 2.0, 3.0, 4.0], vec![2, 2]);
    let (_, cache) = dense.forward(&input);
    let grad_output = Tensor::from_data(vec![0.5, 1.5], vec![2, 1]);

    let grad_input = dense.backward(&cache, &grad_output);

    assert_eq!(grad_input.shape, vec![2, 2]);
    assert_eq!(grad_input.data, vec![1.0, 1.5, 3.0, 4.5]);
    let [weights, bias] = dense.trainable_parameters_mut();
    assert_eq!(bias.grad.data, vec![2.0]);
    assert_eq!(weights.grad.data, vec![5.0, 7.0]);
}

#[test]
fn maxpool_backward_uses_explicit_cache() {
    let pool = MaxPool2x2::new(f32::NEG_INFINITY, 0.0f32);
    let first = Tensor::from_data(vec![1.0, 4.0, 2.0, 3.0], vec![1, 1, 2, 2]);
    let second = Tensor::from_data(vec![9.0, 1.0, 2.0, 3.0], vec![1, 1, 2, 2]);

    let (_, first_cache) = pool.forward(&first);
    let _ = pool.forward(&second);

    let grad = Tensor::from_data(vec![1.0], vec![1, 1, 1, 1]);
    let grad_input = pool.backward(&first_cache, &grad);

    assert_eq!(grad_input.data, vec![0.0, 1.0, 0.0, 0.0]);
}

#[test]
fn forward_and_backward_support_batches() {
    let pool = MaxPool2x2::new(f32::NEG_INFINITY, 0.0f32);
    let input = Tensor::from_data(vec![1.0, 4.0, 2.0, 3.0, 9.0, 1.0, 2.0, 3.0], vec![2, 1, 2, 2]);

    let (output, cache) = pool.forward(&input);
    let grad = Tensor::from_data(vec![1.0, 2.0], vec![2, 1, 1, 1]);
    let grad_input = pool.backward(&cache, &grad);

    assert_eq!(output.shape, vec![2, 1, 1, 1]);
    assert_eq!(output.data, vec![4.0, 9.0]);
    assert_eq!(grad_input.data, vec![0.0, 1.0, 0.0, 0.0, 2.0, 0.0, 0.0, 0.0]);
}

#[test]
fn maxpool_keeps_the_first_of_equal_maxima_and_drops_odd_edges() {
    let pool = MaxPool2x2::new(f32::NEG_INFINITY, 0.0f32);
    let input = Tensor::from_data(vec![5.0, 5.0, 1.0, 5.0, 5.0, 1.0], vec![1, 1, 2, 3]);

    let (output, cache) = pool.forward(&input);
    let grad_input = pool.backward(&cache, &Tensor::from_data(vec![1.0], vec![1, 1, 1, 1]));

    assert_eq!(output.shape, vec![1, 1, 1, 1]);
    assert_eq!(output.data, vec![5.0]);
    assert_eq!(grad_input.data, vec![1.0, 0.0, 0.0, 0.0, 0.0, 0.0]);
}

#[test]
fn relu_backward_uses_explicit_cache() {
    let relu = ReLU::new(0.0f32);
    let first = Tensor::from_data(vec![-1.0, 2.0], vec![2]);
    let second = Tensor::from_data(vec![3.0, -4.0], vec![2]);

    let (_, first_cache) = relu.forward(&first);
    let _ = relu.forward(&second);

    let grad = Tensor::from_data(vec![1.0, 1.0], vec![2]);
    let grad_input = relu.backward(&first_cache, &grad);

    assert_eq!(grad_input.data, vec![0.0, 1.0]);
}

#[test]
fn relu_forward_clamps_negatives() {
    let relu = ReLU::new(0.0f32);
    let (output, _) = relu.forward(&Tensor::from_data(vec![-2.0, 0.0, 3.5], vec![3]));
    assert_eq!(output.data, vec![0.0, 0.0, 3.5]);
}
