use hlc::stages::rle::{OptimizedRLETransform, RLETransform};
use hlc::stages::Transform;

#[test]
fn test_rle_roundtrip() {
    let transform = RLETransform::new();
    let original = b"AAAABBBBCCCC";
    let encoded = transform.encode(original).unwrap();
    let decoded = transform.decode(&encoded).unwrap();
    assert_eq!(original, &decoded[..]);
}

#[test]
fn test_rle_mixed_data() {
    let transform = RLETransform::new();
    let original = b"ABCAAAABBBBCCCCDEF";
    let encoded = transform.encode(original).unwrap();
    let decoded = transform.decode(&encoded).unwrap();
    assert_eq!(original, &decoded[..]);
}

#[test]
fn test_rle_zero_bytes() {
    let transform = RLETransform::new();
    let original = b"\x00\x00\x00\x00ABC";
    let encoded = transform.encode(original).unwrap();
    let decoded = transform.decode(&encoded).unwrap();
    assert_eq!(original, &decoded[..]);
}

#[test]
fn test_rle_single_bytes() {
    let transform = RLETransform::new();
    let original = b"ABCDEF";
    let encoded = transform.encode(original).unwrap();
    let decoded = transform.decode(&encoded).unwrap();
    assert_eq!(original, &decoded[..]);
}

#[test]
fn test_optimized_rle() {
    let transform = OptimizedRLETransform::with_threshold(3);
    let original = b"ABCAAAABBBBCCCCDEF";
    let encoded = transform.encode(original).unwrap();
    let decoded = transform.decode(&encoded).unwrap();
    assert_eq!(original, &decoded[..]);
}

#[test]
fn rle_test_empty_data() {
    let transform = RLETransform::new();
    let empty: &[u8] = &[];
    let encoded = transform.encode(empty).unwrap();
    let decoded = transform.decode(&encoded).unwrap();
    assert_eq!(empty, &decoded[..]);
}

#[test]
fn test_long_run() {
    let transform = RLETransform::new();
    let original = vec![b'A'; 300];
    let encoded = transform.encode(&original).unwrap();
    let decoded = transform.decode(&encoded).unwrap();
    assert_eq!(original, decoded);
}

#[test]
fn rle_transform_exact_output() {
    let transform = RLETransform::new();
    assert_eq!(transform.encode(b"AAAAB\x00C\x00\x00").unwrap(), vec![0, b'A', 4, b'B', 0, 0, 1, b'C', 0, 0, 2]);
    assert_eq!(transform.encode(&vec![b'A'; 300]).unwrap(), vec![0, b'A', 255, 0, b'A', 45]);
    assert_eq!(transform.id(), 2);
    let short = RLETransform::with_max_run_length(2);
    assert_eq!(short.encode(b"AAAAA").unwrap(), vec![0, b'A', 2, 0, b'A', 2, b'A']);
    let none = RLETransform::with_max_run_length(0);
    assert_eq!(none.encode(b"AA\x00").unwrap(), vec![b'A', b'A', 0, 0, 1]);
    assert_eq!(none.decode(&none.encode(b"AA\x00").unwrap()).unwrap(), b"AA\x00".to_vec());
    assert_eq!(transform.decode(&[0, 7]).unwrap(), vec![0, 7]);
    assert_eq!(transform.decode(&[0, 7, 0]).unwrap(), Vec::<u8>::new());
}

#[test]
fn optimized_rle_exact_output() {
    let transform = OptimizedRLETransform::new();
    assert_eq!(
        transform.encode(b"ABCAAAABBBBCCCCDEF").unwrap(),
        vec![
            b'A', b'B', b'C', 0xFF, b'A', 4, 0, 0xFF, b'B', 4, 0, 0xFF, b'C', 4, 0, b'D', b'E', b'F'
        ]
    );
    assert_eq!(transform.encode(b"AAB").unwrap(), b"AAB".to_vec());
    assert_eq!(transform.id(), 3);
    let long = vec![7u8; 70_000];
    let encoded = transform.encode(&long).unwrap();
    assert_eq!(encoded, vec![0xFF, 7, 0xFF, 0xFF, 0xFF, 7, 0x71, 0x11]);
    assert_eq!(transform.decode(&encoded).unwrap(), long);
}

#[test]
fn optimized_rle_keeps_the_marker_byte_apart() {
    let transform = OptimizedRLETransform::new();
    let data = vec![0xFF, 1, 2, 3, 4, 0xFF, 0xFF, 9];
    let encoded = transform.encode(&data).unwrap();
    assert_eq!(encoded, vec![0xFF, 0xFF, 1, 0, 1, 2, 3, 4, 0xFF, 0xFF, 2, 0, 9]);
    assert_eq!(transform.decode(&encoded).unwrap(), data);
    let every = OptimizedRLETransform::with_threshold(0);
    let encoded = every.encode(b"AB").unwrap();
    assert_eq!(encoded, vec![0xFF, b'A', 1, 0, 0xFF, b'B', 1, 0]);
    assert_eq!(every.decode(&encoded).unwrap(), b"AB".to_vec());
}
