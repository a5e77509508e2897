use hlc::stages::dictionary::{DictionaryTransform, LZ4DictionaryTransform};
use hlc::stages::Transform;

#[test]
fn test_dictionary_roundtrip() {
    let transform = DictionaryTransform::new();
    let original = b"Hello, world! Hello, world!";
    let encoded = transform.encode(original).unwrap();
    let decoded = transform.decode(&encoded).unwrap();
    assert_eq!(original, &decoded[..]);
}

#[test]
fn test_dictionary_repeated_patterns() {
    let transform = DictionaryTransform::new();
    let original = b"ABCABCABCABCABC";
    let encoded = transform.encode(original).unwrap();
    let decoded = transform.decode(&encoded).unwrap();
    assert_eq!(original, &decoded[..]);
}

#[test]
fn test_dictionary_no_matches() {
    let transform = DictionaryTransform::new();
    let original = b"ABCDEFGHIJKLMNOP";
    let encoded = transform.encode(original).unwrap();
    let decoded = transform.decode(&encoded).unwrap();
    assert_eq!(original, &decoded[..]);
}

#[test]
fn test_dictionary_escape_sequence() {
    let transform = DictionaryTransform::new();
    let original = b"Hello\xFFWorld";
    let encoded = transform.encode(original).unwrap();
    let decoded = transform.decode(&encoded).unwrap();
    assert_eq!(original, &decoded[..]);
}

#[test]
fn dictionary_test_empty_data() {
    let transform = DictionaryTransform::new();
    let empty: &[u8] = &[];
    let encoded = transform.encode(empty).unwrap();
    let decoded = transform.decode(&encoded).unwrap();
    assert_eq!(empty, &decoded[..]);
}

#[test]
fn test_lz4_dictionary() {
    let transform = LZ4DictionaryTransform::new();
    let original = b"Hello, world! Hello, world! This is a test.";
    let encoded = transform.encode(original).unwrap();
    let decoded = transform.decode(&encoded).unwrap();
    assert_eq!(original, &decoded[..]);
}

#[test]
fn dictionary_transform_exact_output() {
    let transform = DictionaryTransform::new();
    let encoded = transform.encode(b"Hello, world! Hello, world!").unwrap();
    let mut expected = b"Hello, world! ".to_vec();
    expected.extend([0xFF, 14, 0, 13]);
    assert_eq!(encoded, expected);
    assert_eq!(transform.encode(b"Hello\xFFWorld").unwrap(), b"Hello\xFF\x00\x00\x01World".to_vec());
    assert_eq!(transform.find_longest_match(b"abcXabcY", 4), (3, 4));
    assert_eq!(transform.find_longest_match(b"abcXabcY", 0), (0, 0));
    assert_eq!(transform.find_longest_match(b"aaaa", 2), (2, 2));
    assert_eq!(transform.id(), 4);
    assert_eq!(LZ4DictionaryTransform::new().id(), 5);
}

#[test]
fn dictionary_transform_long_repeats_roundtrip() {
    let transform = DictionaryTransform::new();
    let data = vec![b'A'; 2000];
    let encoded = transform.encode(&data).unwrap();
    assert!(encoded.len() < 100);
    assert_eq!(transform.decode(&encoded).unwrap(), data);
    let mut mixed: Vec<u8> = (0..600u32).map(|i| (i % 256) as u8).collect();
    mixed.extend_from_slice(&mixed.clone());
    mixed.extend([0xFF; 300]);
    let encoded = transform.encode(&mixed).unwrap();
    assert_eq!(transform.decode(&encoded).unwrap(), mixed);
}

#[test]
fn dictionary_transform_any_parameters_roundtrip() {
    let data = b"abcabcabcabc\xFF\xFFabcabc".to_vec();
    for (window, min, max) in [(0usize, 0usize, 0usize), (1, 0, 1), (3, 1, 2), (100_000, 0, 1000), (2, 5, 4)] {
        let transform = DictionaryTransform::with_params(window, min, max);
        let encoded = transform.encode(&data).unwrap();
        assert_eq!(transform.decode(&encoded).unwrap(), data);
    }
}
