use hlc::entropy::range::{range_decode, range_encode, RangeCoder};
use hlc::entropy::EntropyCoder;
use hlc::error::HlcError;
use hlc::headers::EntropyMethod;

#[test]
fn test_range_coder_roundtrip() {
    let coder = RangeCoder::new();
    let original = b"Hello, world! This is a test of range coding.";
    let encoded = coder.encode(original).unwrap();
    let decoded = coder.decode(&encoded).unwrap();
    assert_eq!(original, &decoded[..]);
}

#[test]
fn test_range_coder_repeated_data() {
    let coder = RangeCoder::new();
    let original = b"AAAABBBBCCCCDDDD";
    let encoded = coder.encode(original).unwrap();
    let decoded = coder.decode(&encoded).unwrap();
    assert_eq!(original, &decoded[..]);
}

#[test]
fn test_range_coder_empty_data() {
    let coder = RangeCoder::new();
    let empty: &[u8] = &[];
    let encoded = coder.encode(empty).unwrap();
    let decoded = coder.decode(&encoded).unwrap();
    assert_eq!(empty, &decoded[..]);
}

#[test]
fn test_range_coder_single_byte() {
    let coder = RangeCoder::new();
    let original = b"A";
    let encoded = coder.encode(original).unwrap();
    let decoded = coder.decode(&encoded).unwrap();
    assert_eq!(original, &decoded[..]);
}

#[test]
fn test_range_coder_high_entropy() {
    let coder = RangeCoder::new();
    let original: Vec<u8> = (0..1000).map(|i| (i % 256) as u8).collect();
    let encoded = coder.encode(&original).unwrap();
    let decoded = coder.decode(&encoded).unwrap();
    assert_eq!(original, decoded);
}

#[test]
fn range_code_layout() {
    let encoded = range_encode(b"AAAB").unwrap();
    assert_eq!(&encoded[4 * 65..4 * 65 + 4], &[0x40, 0xBF, 0, 0]);
    assert_eq!(&encoded[4 * 66..4 * 66 + 4], &[0xC0, 0x3F, 0, 0]);
    assert_eq!(&encoded[0..4], &[0, 0, 0, 0]);
    assert_eq!(&encoded[1024..1028], &[4, 0, 0, 0]);
    assert!(encoded.len() >= 1032);
    assert!(range_encode(b"").unwrap().is_empty());
    assert_eq!(RangeCoder::with_precision(12).method(), EntropyMethod::RangeCoder);
}

#[test]
fn range_coder_shrinks_skewed_data() {
    let mut data = vec![0u8; 60_000];
    for i in (0..data.len()).step_by(97) {
        data[i] = (i % 7) as u8 + 1;
    }
    let encoded = range_encode(&data).unwrap();
    assert!(encoded.len() < 1032 + 2000);
    assert_eq!(range_decode(&encoded).unwrap(), data);
}

#[test]
fn range_coder_roundtrip_on_many_inputs() {
    let mut seed: u32 = 12345;
    for round in 0..60usize {
        let len = 1 + round * 37;
        let spread = 1 + (round % 9) * 31;
        let data: Vec<u8> = (0..len)
            .map(|_| {
                seed = seed.wrapping_mul(1664525).wrapping_add(1013904223);
                ((seed >> 16) as usize % spread) as u8
            })
            .collect();
        let encoded = range_encode(&data).unwrap();
        assert_eq!(range_decode(&encoded).unwrap(), data);
    }
    let all: Vec<u8> = (0..=255u8).collect();
    assert_eq!(range_decode(&range_encode(&all).unwrap()).unwrap(), all);
    let long = vec![0xFFu8; 300_000];
    assert_eq!(range_decode(&range_encode(&long).unwrap()).unwrap(), long);
    let ramp: Vec<u8> = (0..200_000u32).map(|i| (i / 1000) as u8).collect();
    assert_eq!(range_decode(&range_encode(&ramp).unwrap()).unwrap(), ramp);
}

#[test]
fn range_decoder_rejects_bad_codes() {
    assert!(matches!(range_decode(&[1, 2, 3]), Err(HlcError::DecompressionError(_))));
    assert!(matches!(range_decode(&vec![0u8; 1031]), Err(HlcError::DecompressionError(_))));
    assert!(matches!(range_decode(&vec![0u8; 1032]), Err(HlcError::DecompressionError(_))));
    assert!(matches!(range_decode(&vec![0xFFu8; 1032]), Err(HlcError::DecompressionError(_))));
    let encoded = range_encode(b"some text to cut short, some text to cut short").unwrap();
    assert!(matches!(range_decode(&encoded[..encoded.len() - 6]), Err(HlcError::DecompressionError(_))));
    let mut none = vec![0u8; 1032];
    none[0] = 1;
    assert!(range_decode(&none).unwrap().is_empty());
}
