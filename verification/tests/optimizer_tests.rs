use cifar10_cnn::compute::tensor::Tensor;
use cifar10_cnn::training::optimizer::{ParamGrad, Sgd};

#[test]
fn sgd_updates_parameter_tensor() {
    let mut param = Tensor::from_data(vec![1.0f32, -2.0], vec![2]);
    let grad = Tensor::from_data(vec![0.5f32, -0.25], vec![2]);

    Sgd::new(0.1f32).step(vec![ParamGrad::new(&mut param, &grad)]);

    assert!((param.data[0] - 0.95).abs() < 1e-6);
    assert!((param.data[1] - -1.975).abs() < 1e-6);
}

#[test]
fn sgd_update_is_exact_on_integers() {
    let mut param = Tensor::from_data(vec![10i64, -4, 0], vec![3]);
    let grad = Tensor::from_data(vec![1i64, -2, 3], vec![3]);

    Sgd::new(2i64).update(&mut param, &grad);

    assert_eq!(param.data, vec![8, 0, -6]);
    assert_eq!(param.shape, vec![3]);
}
