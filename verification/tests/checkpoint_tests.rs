use cifar10_cnn::training::checkpoint::{decode, encode, CheckpointError};

fn bits(values: &[f32]) -> Vec<u32> {
    values.iter().map(|v| v.to_bits()).collect()
}

#[test]
fn save_load_roundtrip() {
    let w = [1.0f32, 2.0, 3.0, 4.0];
    let b = [0.5f32];
    let bytes = encode(&[(vec![2, 2], bits(&w)), (vec![1], bits(&b))]);

    let loaded = decode(&bytes).unwrap();

    assert_eq!(loaded.len(), 2);
    assert_eq!(loaded[0].0, vec![2, 2]);
    assert_eq!(loaded[0].1, bits(&[1.0, 2.0, 3.0, 4.0]));
    assert_eq!(loaded[1].0, vec![1]);
    assert_eq!(loaded[1].1, bits(&[0.5]));
}

#[test]
fn load_rejects_wrong_magic() {
    let err = decode(b"XBAD\x01\x00\x00\x00\x00").unwrap_err();
    assert_eq!(err, CheckpointError::BadMagic);
}

#[test]
fn load_rejects_wrong_version() {
    let err = decode(b"CK10\x02\x00\x00\x00\x00").unwrap_err();
    assert_eq!(err, CheckpointError::UnsupportedVersion { version: 2 });
}

#[test]
fn encode_writes_the_documented_layout() {
    let bytes = encode(&[(vec![1, 2], vec![0x0403_0201, 0xdead_beef])]);
    let mut expected = b"CK10\x01".to_vec();
    expected.extend_from_slice(&1u32.to_le_bytes());
    expected.extend_from_slice(&2u32.to_le_bytes());
    expected.extend_from_slice(&1u64.to_le_bytes());
    expected.extend_from_slice(&2u64.to_le_bytes());
    expected.extend_from_slice(&[1, 2, 3, 4]);
    expected.extend_from_slice(&0xdead_beefu32.to_le_bytes());
    assert_eq!(bytes, expected);
}

#[test]
fn decode_ignores_trailing_bytes() {
    let mut bytes = encode(&[(vec![3], vec![7, 8, 9])]);
    bytes.extend_from_slice(b"trailing");
    assert_eq!(decode(&bytes).unwrap(), vec![(vec![3], vec![7, 8, 9])]);
}

#[test]
fn decode_rejects_truncated_input() {
    let bytes = encode(&[(vec![2, 2], vec![1, 2, 3, 4])]);
    for cut in 0..bytes.len() {
        let err = decode(&bytes[..cut]).unwrap_err();
        assert_eq!(err, CheckpointError::Truncated, "prefix of length {cut}");
    }
}

#[test]
fn empty_checkpoint_roundtrips() {
    let bytes = encode(&[]);
    assert_eq!(bytes, b"CK10\x01\x00\x00\x00\x00".to_vec());
    assert_eq!(decode(&bytes).unwrap(), Vec::<(Vec<usize>, Vec<u32>)>::new());
}

#[test]
fn scalar_tensor_of_rank_zero_holds_one_element() {
    let bytes = encode(&[(vec![], vec![42])]);
    assert_eq!(decode(&bytes).unwrap(), vec![(vec![], vec![42])]);
}
