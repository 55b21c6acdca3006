use cifar10_cnn::compute::random::Rng;
use cifar10_cnn::compute::tensor::Tensor;
use cifar10_cnn::config::ModelConfig;
use cifar10_cnn::data::datasets::make_fake_dataset;
use cifar10_cnn::training::network::{weight_init_specs, Backend, Network};
use cifar10_cnn::training::trainer::{demo_dataset_len, evaluate, make_batch, shuffle_indices, train_epoch};

fn softmax(logits: &Tensor<f32>) -> Tensor<f32> {
    let classes = logits.shape[1];
    let mut out = Vec::with_capacity(logits.data.len());
    for row in logits.data.chunks(classes) {
        let max = row.iter().cloned().fold(f32::NEG_INFINITY, f32::max);
        let exps: Vec<f32> = row.iter().map(|v| (v - max).exp()).collect();
        let sum: f32 = exps.iter().sum();
        out.extend(exps.iter().map(|e| e / sum));
    }
    Tensor::from_data(out, logits.shape.clone())
}

fn softmax_ce(logits: &Tensor<f32>, targets: &[usize]) -> (Tensor<f32>, f32, f32) {
    let probs = softmax(logits);
    let classes = logits.shape[1];
    let n = targets.len() as f32;
    let loss = targets
        .iter()
        .enumerate()
        .map(|(b, &c)| -(probs.data[b * classes + c].max(1e-12)).ln())
        .sum::<f32>()
        / n;
    (probs, loss, n)
}

fn small_init(config: ModelConfig, rng: &mut Rng) -> Vec<Tensor<f32>> {
    weight_init_specs(config)
        .into_iter()
        .map(|(shape, fan_in)| {
            let n = shape.iter().product();
            let scale = 1.0 / fan_in as f32;
            let data = (0..n).map(|_| ((rng.next_u64() >> 40) as f32 / (1u64 << 24) as f32 - 0.5) * scale).collect();
            Tensor::from_data(data, shape)
        })
        .collect()
}

#[test]
fn make_batch_copies_samples_as_contiguous_nchw() {
    let dataset = make_fake_dataset(0.0f32, 1.0f32);
    let indices = [2, 0];

    let (batch, targets) = make_batch(&dataset, &indices, 0, 2);

    assert_eq!(batch.shape, vec![2, 1, 8, 8]);
    assert_eq!(targets, vec![dataset[2].1, dataset[0].1]);
    assert_eq!(&batch.data[0..64], &dataset[2].0.data[..]);
    assert_eq!(&batch.data[64..128], &dataset[0].0.data[..]);
}

#[test]
fn make_batch_takes_what_is_left_at_the_end() {
    let dataset = make_fake_dataset(0.0f32, 1.0f32);
    let indices: Vec<usize> = (0..12).collect();

    let (batch, targets) = make_batch(&dataset, &indices, 10, 5);

    assert_eq!(batch.shape, vec![2, 1, 8, 8]);
    assert_eq!(targets, vec![dataset[10].1, dataset[11].1]);
}

#[test]
fn shuffle_is_deterministic_for_fixed_seed() {
    let mut first = (0..8).collect::<Vec<_>>();
    let mut second = (0..8).collect::<Vec<_>>();
    let mut first_rng = Rng::new(123);
    let mut second_rng = Rng::new(123);

    shuffle_indices(&mut first, &mut first_rng);
    shuffle_indices(&mut second, &mut second_rng);

    assert_eq!(first, second);
    assert_ne!(first, (0..8).collect::<Vec<_>>());
}

#[test]
fn shuffle_keeps_every_index_once() {
    let mut indices = (0..50).collect::<Vec<_>>();
    let mut rng = Rng::new(9);
    shuffle_indices(&mut indices, &mut rng);
    let mut sorted = indices.clone();
    sorted.sort();
    assert_eq!(sorted, (0..50).collect::<Vec<_>>());
}

#[test]
fn demo_dataset_has_twelve_samples() {
    assert_eq!(demo_dataset_len(), 12);
}

#[test]
fn train_demo_still_runs_after_batch_migration() {
    let config = ModelConfig::demo();
    let train = make_fake_dataset(0.0f32, 1.0f32);
    let mut rng = Rng::new(42);
    let init = small_init(config, &mut rng);
    let mut net = Network::new(config, Backend::Cpu, init, 0.0, 1.0, f32::NEG_INFINITY).unwrap();
    let indices: Vec<usize> = (0..train.len()).collect();

    for _epoch in 0..2 {
        let (losses, correct) = train_epoch(&mut net, &train, &indices, 3, 0.05, softmax_ce).unwrap();
        assert_eq!(losses.len(), 4);
        assert!(losses.iter().all(|(loss, size)| loss.is_finite() && *size == 3));
        assert!(correct <= train.len());
    }

    let (correct, total) = evaluate(&mut net, &train, 5, softmax).unwrap();
    assert_eq!(total, train.len());
    assert!(correct <= total);
}

#[test]
fn train_epoch_reports_the_short_last_batch() {
    let config = ModelConfig::demo();
    let train = make_fake_dataset(0.0f32, 1.0f32);
    let mut rng = Rng::new(1);
    let init = small_init(config, &mut rng);
    let mut net = Network::new(config, Backend::Cpu, init, 0.0, 1.0, f32::NEG_INFINITY).unwrap();
    let indices: Vec<usize> = (0..train.len()).collect();

    let (losses, _) = train_epoch(&mut net, &train, &indices, 5, 0.05, softmax_ce).unwrap();

    let sizes: Vec<usize> = losses.iter().map(|(_, size)| *size).collect();
    assert_eq!(sizes, vec![5, 5, 2]);
}
