use cifar10_cnn::data::datasets::{
    load_cifar10, make_fake_dataset, parse_cifar10_batch, DatasetError, CIFAR10_HEIGHT,
    CIFAR10_RECORD_LEN, CIFAR10_WIDTH,
};

fn record(label: u8, red: u8, green: u8, blue: u8) -> Vec<u8> {
    let mut bytes = vec![0; CIFAR10_RECORD_LEN];
    bytes[0] = label;
    bytes[1] = red;
    bytes[1 + CIFAR10_HEIGHT * CIFAR10_WIDTH] = green;
    bytes[1 + 2 * CIFAR10_HEIGHT * CIFAR10_WIDTH + CIFAR10_HEIGHT * CIFAR10_WIDTH - 1] = blue;
    bytes
}

#[test]
fn fake_dataset_has_expected_shape_and_classes() {
    let dataset = make_fake_dataset(0.0f32, 1.0f32);

    assert_eq!(dataset.len(), 12);

    for (input, target) in dataset {
        assert_eq!(input.shape, vec![1, 8, 8]);
        assert_eq!(input.data.len(), 64);
        assert!((0..3).contains(&target), "unexpected class: {target}");
    }
}

#[test]
fn fake_dataset_draws_a_line_per_class() {
    let dataset = make_fake_dataset(0.0f32, 1.0f32);
    let (first, class) = &dataset[0];
    assert_eq!(*class, 0);
    assert_eq!(first.data.iter().filter(|v| **v == 1.0).count(), 8);
}

#[test]
fn load_cifar10_batch_reads_shape_target_and_normalizes_channels() {
    let mut bytes = record(7, 255, 128, 64);
    bytes.extend(record(3, 0, 255, 128));

    let dataset = parse_cifar10_batch(&bytes).expect("batch must parse");

    assert_eq!(dataset.len(), 2);
    assert_eq!(dataset[0].label, 7);
    assert_eq!(dataset[1].label, 3);
    assert_eq!(dataset[0].pixels.len(), 3 * CIFAR10_HEIGHT * CIFAR10_WIDTH);

    let channel_len = CIFAR10_HEIGHT * CIFAR10_WIDTH;
    assert_eq!(dataset[0].pixels[0], 255);
    assert_eq!(dataset[0].pixels[channel_len], 128);
    assert_eq!(dataset[0].pixels[3 * channel_len - 1], 64);
    assert_eq!(dataset[1].pixels[channel_len], 255);
}

#[test]
fn load_cifar10_batch_rejects_incomplete_record() {
    let bytes = vec![0; CIFAR10_RECORD_LEN - 1];

    let err = parse_cifar10_batch(&bytes).err().expect("batch length must be rejected");

    assert_eq!(err, DatasetError::LengthNotMultiple { len: CIFAR10_RECORD_LEN - 1 });
}

#[test]
fn load_cifar10_batch_rejects_invalid_label() {
    let bytes = record(10, 0, 0, 0);

    let err = parse_cifar10_batch(&bytes).err().expect("invalid label must be rejected");

    assert_eq!(err, DatasetError::LabelOutOfRange { label: 10 });
}

#[test]
fn parse_reports_the_first_invalid_label() {
    let mut bytes = record(2, 0, 0, 0);
    bytes.extend(record(12, 0, 0, 0));
    bytes.extend(record(11, 0, 0, 0));

    let err = parse_cifar10_batch(&bytes).err().expect("invalid label must be rejected");

    assert_eq!(err, DatasetError::LabelOutOfRange { label: 12 });
}

#[test]
fn empty_batch_file_has_no_records() {
    let dataset = parse_cifar10_batch(&[]).expect("empty batch parses");
    assert!(dataset.is_empty());
}

#[test]
fn load_cifar10_reads_train_and_test_files() {
    let train_files: Vec<Vec<u8>> = (1..=5u8).map(|i| record(i, 0, 0, 0)).collect();
    let test_file = record(9, 0, 0, 0);

    let (train, test) = load_cifar10(&train_files, &test_file).expect("dataset must load");

    assert_eq!(train.len(), 5);
    assert_eq!(test.len(), 1);
    assert_eq!(train[0].label, 1);
    assert_eq!(train[4].label, 5);
    assert_eq!(test[0].label, 9);
}

#[test]
fn load_cifar10_reports_the_first_bad_file() {
    let mut train_files: Vec<Vec<u8>> = (1..=5u8).map(|i| record(i, 0, 0, 0)).collect();
    train_files[1] = vec![0; 10];
    train_files[3] = record(42, 0, 0, 0);
    let test_file = record(9, 0, 0, 0);

    let err = load_cifar10(&train_files, &test_file).err().expect("bad file must be rejected");

    assert_eq!(err, DatasetError::LengthNotMultiple { len: 10 });
}

#[test]
fn load_cifar10_checks_the_test_file() {
    let train_files: Vec<Vec<u8>> = (1..=5u8).map(|i| record(i, 0, 0, 0)).collect();
    let test_file = record(77, 0, 0, 0);

    let err = load_cifar10(&train_files, &test_file).err().expect("bad test file must be rejected");

    assert_eq!(err, DatasetError::LabelOutOfRange { label: 77 });
}
