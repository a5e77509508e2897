use hlc::error::HlcError;
use hlc::transforms::entropy::{decode, encode, encode_balanced, encode_fast, encode_max, EntropyEncoder};

#[test]
fn test_entropy_empty() {
    let data: Vec<u8> = vec![];
    let encoded = encode(&data, 5).unwrap();
    let decoded = decode(&encoded).unwrap();
    assert_eq!(data, decoded);
}

#[test]
fn test_entropy_roundtrip() {
    let data = b"Hello, world! This is a test string for compression.".to_vec();
    let encoded = encode(&data, 5).unwrap();
    let decoded = decode(&encoded).unwrap();
    assert_eq!(data, decoded);
}

#[test]
fn test_entropy_compression_levels() {
    let data = vec![0u8; 1000];
    let fast = encode_fast(&data).unwrap();
    let balanced = encode_balanced(&data).unwrap();
    let max = encode_max(&data).unwrap();
    assert_eq!(decode(&fast).unwrap(), data);
    assert_eq!(decode(&balanced).unwrap(), data);
    assert_eq!(decode(&max).unwrap(), data);
    println!("Fast: {} bytes", fast.len());
    println!("Balanced: {} bytes", balanced.len());
    println!("Max: {} bytes", max.len());
}

#[test]
fn entropy_encoding_is_not_the_input() {
    let data = vec![7u8; 4096];
    let encoded = encode(&data, 5).unwrap();
    assert_ne!(encoded, data);
    assert!(encoded.len() < data.len());
    assert!(encoded.is_empty() == false);
}

#[test]
fn entropy_decode_rejects_garbage() {
    let result = decode(b"this is not a zstandard frame");
    assert!(matches!(result, Err(HlcError::DecompressionError(_))));
}

#[test]
fn entropy_encoder_object_roundtrip() {
    let encoder = EntropyEncoder::new(3).with_dictionary(vec![1, 2, 3]);
    let data = b"abcabcabcabcabcabcabcabcabcabcabcabc".to_vec();
    let encoded = encoder.encode(&data).unwrap();
    assert_eq!(encoder.decode(&encoded).unwrap(), data);
    assert_eq!(encoded, encode(&data, 3).unwrap());
    assert!(encoder.encode(&[]).unwrap().is_empty());
    assert!(encoder.decode(&[]).unwrap().is_empty());
}

#[test]
fn entropy_decoding_error_carries_the_words_of_the_decoder() {
    match decode(b"this is no frame") {
        Err(HlcError::DecompressionError(text)) => {
            assert!(text.starts_with("Entropy decoding failed: "));
            assert!(text.len() > "Entropy decoding failed: ".len());
        }
        other => panic!("unexpected result: {:?}", other),
    }
}
