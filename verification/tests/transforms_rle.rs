use hlc::transforms::rle::{decode, encode};

#[test]
fn test_rle_empty() {
    let data: Vec<u8> = vec![];
    let encoded = encode(&data);
    let decoded = decode(&encoded);
    assert_eq!(data, decoded);
}

#[test]
fn test_rle_no_zeros() {
    let data = vec![1, 2, 3, 4, 5];
    let encoded = encode(&data);
    let decoded = decode(&encoded);
    assert_eq!(data, decoded);
    assert_eq!(encoded, data);
}

#[test]
fn test_rle_with_zeros() {
    let data = vec![1, 0, 0, 0, 2, 0, 3];
    let encoded = encode(&data);
    let decoded = decode(&encoded);
    assert_eq!(data, decoded);
    let expected = vec![1, 0, 3, 2, 0, 1, 3];
    assert_eq!(encoded, expected);
}

#[test]
fn test_rle_long_zero_run() {
    let mut data = vec![1];
    data.extend(vec![0; 100]);
    data.push(2);
    let encoded = encode(&data);
    let decoded = decode(&encoded);
    assert_eq!(data, decoded);
    assert!(encoded.len() < data.len());
}

#[test]
fn rle_splits_runs_longer_than_255() {
    let data = vec![0u8; 600];
    let encoded = encode(&data);
    assert_eq!(encoded, vec![0, 255, 0, 255, 0, 90]);
    assert_eq!(decode(&encoded), data);
}

#[test]
fn rle_decodes_a_trailing_zero_without_count_as_one_zero() {
    assert_eq!(decode(&[7, 0]), vec![7, 0]);
    assert_eq!(decode(&[0]), vec![0]);
    assert_eq!(decode(&[0, 0]), Vec::<u8>::new());
}
