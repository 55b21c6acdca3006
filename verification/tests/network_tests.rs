use cifar10_cnn::compute::random::Rng;
use cifar10_cnn::compute::tensor::Tensor;
use cifar10_cnn::config::ModelConfig;
use cifar10_cnn::data::datasets::make_fake_dataset;
use cifar10_cnn::training::checkpoint::{decode, encode};
use cifar10_cnn::training::network::{weight_init_specs, Backend, Network, NetworkError};

fn uniform(rng: &mut Rng) -> f32 {
    ((rng.next_u64() >> 40) as f32 + 0.5) / (1u64 << 24) as f32
}

fn normal(rng: &mut Rng) -> f32 {
    let u1 = uniform(rng);
    let u2 = uniform(rng);
    (-2.0 * u1.ln()).sqrt() * (2.0 * std::f32::consts::PI * u2).cos()
}

fn random_init(config: ModelConfig, rng: &mut Rng) -> Vec<Tensor<f32>> {
    weight_init_specs(config)
        .into_iter()
        .map(|(shape, fan_in)| {
            let scale = (2.0 / fan_in as f32).sqrt();
            let n = shape.iter().product();
            Tensor::from_data((0..n).map(|_| normal(rng) * scale).collect(), shape)
        })
        .collect()
}

fn new_net(config: ModelConfig, seed: u64) -> Network<f32> {
    let mut rng = Rng::new(seed);
    let init = random_init(config, &mut rng);
    Network::new(config, Backend::Cpu, init, 0.0, 1.0, f32::NEG_INFINITY).expect("network must build")
}

fn softmax(logits: &Tensor<f32>) -> Tensor<f32> {
    let classes = logits.shape[1];
    let mut out = Vec::with_capacity(logits.data.len());
    for row in logits.data.chunks(classes) {
        let max = row.iter().cloned().fold(f32::NEG_INFINITY, f32::max);
        let exps: Vec<f32> = row.iter().map(|v| (v - max).exp()).collect();
        let sum: f32 = exps.iter().sum();
        out.extend(exps.iter().map(|e| e / sum));
    }
    Tensor::from_data(out, logits.shape.clone())
}

fn softmax_ce(logits: &Tensor<f32>, targets: &[usize]) -> (Tensor<f32>, f32, f32) {
    let probs = softmax(logits);
    let classes = logits.shape[1];
    let n = targets.len() as f32;
    let loss = targets
        .iter()
        .enumerate()
        .map(|(b, &c)| -(probs.data[b * classes + c].max(1e-12)).ln())
        .sum::<f32>()
        / n;
    (probs, loss, n)
}

fn demo_batch(count: usize) -> (Tensor<f32>, Vec<usize>) {
    let dataset = make_fake_dataset(0.0f32, 1.0f32);
    let input = Tensor::from_data(
        dataset.iter().take(count).flat_map(|(x, _)| x.data.iter().copied()).collect(),
        vec![count, 1, 8, 8],
    );
    let targets = dataset.iter().take(count).map(|(_, t)| *t).collect();
    (input, targets)
}

#[test]
fn save_and_load_weights_preserves_predictions() {
    let config = ModelConfig::demo();
    let (input, targets) = demo_batch(2);

    let mut net = new_net(config, 99);
    for _ in 0..5 {
        net.train_step_batch(&input, &targets, 0.05, softmax_ce).unwrap();
    }

    let saved: Vec<(Vec<usize>, Vec<u32>)> = net
        .save_weights()
        .into_iter()
        .map(|(shape, data)| (shape, data.iter().map(|v| v.to_bits()).collect()))
        .collect();
    let bytes = encode(&saved);

    let mut fresh = new_net(config, 0);
    let loaded = decode(&bytes).expect("checkpoint must decode");
    let loaded = loaded
        .into_iter()
        .map(|(shape, words)| (shape, words.into_iter().map(f32::from_bits).collect()))
        .collect();
    fresh.load_weights(loaded).expect("weights must load");

    let original = net.predict_batch(&input, softmax).unwrap();
    let restored = fresh.predict_batch(&input, softmax).unwrap();
    assert_eq!(original, restored);
    assert_eq!(net.forward_logits(&input).data, fresh.forward_logits(&input).data);
}

#[test]
fn cpu_train_step_is_deterministic_for_fixed_seed() {
    let config = ModelConfig::demo();
    let dataset = make_fake_dataset(0.0f32, 1.0f32);
    let mut first = new_net(config, 7);
    let mut second = new_net(config, 7);

    for (input, target) in dataset.iter() {
        let (first_loss, first_predicted) = first.train_step(input, *target, 0.05, softmax_ce).unwrap();
        let (second_loss, second_predicted) = second.train_step(input, *target, 0.05, softmax_ce).unwrap();

        assert_eq!(first_predicted, second_predicted);
        assert!(
            (first_loss - second_loss).abs() <= f32::EPSILON,
            "loss mismatch: {first_loss} != {second_loss}"
        );
    }
}

#[test]
fn cpu_train_step_batch_is_deterministic_for_fixed_seed() {
    let config = ModelConfig::demo();
    let (input, targets) = demo_batch(2);
    let mut first = new_net(config, 7);
    let mut second = new_net(config, 7);

    let (first_loss, first_correct) = first.train_step_batch(&input, &targets, 0.05, softmax_ce).unwrap();
    let (second_loss, second_correct) = second.train_step_batch(&input, &targets, 0.05, softmax_ce).unwrap();

    assert_eq!(first_correct, second_correct);
    assert!(
        (first_loss - second_loss).abs() <= f32::EPSILON,
        "loss mismatch: {first_loss} != {second_loss}"
    );
}

#[test]
fn cpu_cifar10_train_step_accepts_two_layer_batch() {
    let config = ModelConfig::cifar10();
    let input = Tensor::zeros(vec![1, 3, 32, 32], 0.0f32);
    let targets = [0];
    let mut net = new_net(config, 13);

    let (loss, correct) = net.train_step_batch(&input, &targets, 0.01, softmax_ce).unwrap();

    assert!(loss.is_finite());
    assert!(correct <= targets.len());
}

#[test]
fn gpu_backend_is_unavailable() {
    let config = ModelConfig::demo();
    let mut rng = Rng::new(1);
    let init = random_init(config, &mut rng);
    let err = Network::new(config, Backend::Gpu, init, 0.0f32, 1.0, f32::NEG_INFINITY).err();
    assert_eq!(err, Some(NetworkError::GpuUnavailable));
}

#[test]
fn new_rejects_wrong_weight_count_and_shape() {
    let config = ModelConfig::demo();
    let mut rng = Rng::new(1);
    let mut init = random_init(config, &mut rng);
    assert_eq!(init.len(), 2);
    let extra = init[0].clone();
    init.push(extra);
    let err = Network::new(config, Backend::Cpu, init, 0.0f32, 1.0, f32::NEG_INFINITY).err();
    assert_eq!(err, Some(NetworkError::WeightCount { expected: 2, found: 3 }));

    let mut init = random_init(config, &mut rng);
    init[1] = Tensor::zeros(vec![3, 35], 0.0);
    let err = Network::new(config, Backend::Cpu, init, 0.0f32, 1.0, f32::NEG_INFINITY).err();
    assert_eq!(err, Some(NetworkError::WeightShape { index: 1 }));
}

#[test]
fn load_weights_rejects_mismatch_and_keeps_weights() {
    let config = ModelConfig::demo();
    let mut net = new_net(config, 5);
    let before = net.save_weights();

    let mut bad = before.clone();
    bad[2].0 = vec![36, 3];
    assert_eq!(net.load_weights(bad), Err(NetworkError::WeightShape { index: 2 }));
    assert_eq!(net.load_weights(Vec::new()), Err(NetworkError::WeightCount { expected: 4, found: 0 }));
    assert_eq!(net.save_weights(), before);
}

#[test]
fn weight_init_specs_list_kernels_and_classifier() {
    let specs = weight_init_specs(ModelConfig::cifar10());
    assert_eq!(specs, vec![(vec![32, 3, 3, 3], 27), (vec![64, 32, 3, 3], 288), (vec![10, 4096], 4096)]);
}

#[test]
fn initial_biases_are_zero() {
    let config = ModelConfig::demo();
    let net = new_net(config, 3);
    let saved = net.save_weights();
    assert_eq!(saved.len(), 4);
    assert_eq!(saved[1], (vec![4], vec![0.0; 4]));
    assert_eq!(saved[3], (vec![3], vec![0.0; 3]));
}

#[test]
fn forward_logits_compose_the_layers_exactly() {
    // A one-stage network on a 2x2 image with a 1x1 kernel: conv, ReLU, pooling, then a
    // classifier with an identity-like weight row.
    let config = ModelConfig {
        input_channels: 1,
        input_height: 2,
        input_width: 2,
        conv_out_channels: 1,
        conv2_out_channels: None,
        conv_kernel: 1,
        conv_padding: 0,
        num_classes: 2,
    };
    let init = vec![
        Tensor::from_data(vec![2.0f32], vec![1, 1, 1, 1]),
        Tensor::from_data(vec![1.0f32, -1.0], vec![2, 1]),
    ];
    let mut net = Network::new(config, Backend::Cpu, init, 0.0, 1.0, f32::NEG_INFINITY).unwrap();
    let input = Tensor::from_data(vec![1.0f32, -3.0, 0.5, 2.5], vec![1, 1, 2, 2]);

    let logits = net.forward_logits(&input);

    assert_eq!(logits.shape, vec![1, 2]);
    assert_eq!(logits.data, vec![5.0, -5.0]);
}

#[test]
fn predict_rejects_probabilities_of_the_wrong_shape() {
    let config = ModelConfig::demo();
    let mut net = new_net(config, 2);
    let (input, _) = demo_batch(2);
    let err = net.predict_batch(&input, |_logits: &Tensor<f32>| Tensor::zeros(vec![1, 3], 0.0)).err();
    assert_eq!(err, Some(NetworkError::ProbabilityShape));
}

#[test]
fn predict_with_scores_returns_every_probability() {
    let config = ModelConfig::demo();
    let mut net = new_net(config, 4);
    let (input, _) = demo_batch(3);
    let probs = softmax(&net.forward_logits(&input));
    let (predictions, scores) = net.predict_batch_with_scores(&input, softmax).unwrap();
    assert_eq!(predictions.len(), 3);
    assert_eq!(scores, probs.data);
    for (b, p) in predictions.iter().enumerate() {
        let row = &scores[b * 3..b * 3 + 3];
        assert!(row.iter().all(|v| *v <= row[*p]));
    }
}
