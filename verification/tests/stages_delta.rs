use hlc::stages::delta::{DeltaMode, DeltaTransform};
use hlc::stages::Transform;

#[test]
fn test_byte_delta_roundtrip() {
    let transform = DeltaTransform::new();
    let original = b"Hello, world!";
    let encoded = transform.encode(original).unwrap();
    let decoded = transform.decode(&encoded).unwrap();
    assert_eq!(original, &decoded[..]);
}

#[test]
fn test_word_delta_roundtrip() {
    let transform = DeltaTransform::with_mode(DeltaMode::Word);
    let original = b"Hello, world! This is a test.";
    let encoded = transform.encode(original).unwrap();
    let decoded = transform.decode(&encoded).unwrap();
    assert_eq!(original, &decoded[..]);
}

#[test]
fn test_dword_delta_roundtrip() {
    let transform = DeltaTransform::with_mode(DeltaMode::DWord);
    let original = b"Hello, world! This is a test for dword delta.";
    let encoded = transform.encode(original).unwrap();
    let decoded = transform.decode(&encoded).unwrap();
    assert_eq!(original, &decoded[..]);
}

#[test]
fn delta_test_empty_data() {
    let transform = DeltaTransform::new();
    let empty: &[u8] = &[];
    let encoded = transform.encode(empty).unwrap();
    let decoded = transform.decode(&encoded).unwrap();
    assert_eq!(empty, &decoded[..]);
}

#[test]
fn test_single_byte() {
    let transform = DeltaTransform::new();
    let single = b"A";
    let encoded = transform.encode(single).unwrap();
    let decoded = transform.decode(&encoded).unwrap();
    assert_eq!(single, &decoded[..]);
}

#[test]
fn delta_transform_exact_output_by_mode() {
    let data = [10u8, 0, 12, 0, 9, 0, 200];
    assert_eq!(DeltaTransform::new().encode(&data).unwrap(), vec![10, 246, 12, 244, 9, 247, 200]);
    assert_eq!(
        DeltaTransform::with_mode(DeltaMode::Word).encode(&data).unwrap(),
        vec![10, 0, 2, 0, 253, 255, 200]
    );
    assert_eq!(
        DeltaTransform::with_mode(DeltaMode::DWord).encode(&data).unwrap(),
        vec![10, 0, 12, 0, 9, 0, 200]
    );
    assert_eq!(DeltaTransform::new().id(), 1);
    let transform = DeltaTransform::new();
    assert_eq!(transform.encode_byte_delta(&data).unwrap(), transform.encode(&data).unwrap());
    assert_eq!(transform.decode_word_delta(&transform.encode_word_delta(&data).unwrap()).unwrap(), data);
    assert_eq!(transform.decode_dword_delta(&transform.encode_dword_delta(&data).unwrap()).unwrap(), data);
    assert_eq!(transform.decode_byte_delta(&[10, 246, 12]).unwrap(), vec![10, 0, 12]);
}
