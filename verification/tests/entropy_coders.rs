use hlc::entropy::{has_short_runs, ANSCoder, AnyCoder, EntropyCoder, EntropyCoderFactory, LZ4Coder, NoOpCoder};
use hlc::entropy::{RangeCoder, ZstdCoder};
use hlc::error::HlcError;
use hlc::headers::EntropyMethod;

#[test]
fn test_lz4_roundtrip() {
    let coder = LZ4Coder::new();
    let original = b"Hello, world! This is a test of LZ4 compression.";
    let encoded = coder.encode(original).unwrap();
    let decoded = coder.decode(&encoded).unwrap();
    assert_eq!(original, &decoded[..]);
}

#[test]
fn test_zstd_roundtrip() {
    let coder = ZstdCoder::new();
    let original = b"Hello, world! This is a test of Zstd compression.";
    let encoded = coder.encode(original).unwrap();
    let decoded = coder.decode(&encoded).unwrap();
    assert_eq!(original, &decoded[..]);
}

#[test]
fn test_noop_coder() {
    let coder = NoOpCoder;
    let original = b"Hello, world!";
    let encoded = coder.encode(original).unwrap();
    let decoded = coder.decode(&encoded).unwrap();
    assert_eq!(original, &decoded[..]);
}

#[test]
fn test_factory() {
    let coder = EntropyCoderFactory::create(EntropyMethod::LZ4, Some(1));
    let original = b"Test data for factory";
    let encoded = coder.encode(original).unwrap();
    let decoded = coder.decode(&encoded).unwrap();
    assert_eq!(original, &decoded[..]);
}

#[test]
fn factory_makes_the_coder_of_each_method() {
    for method in [
        EntropyMethod::NoCoder,
        EntropyMethod::RangeCoder,
        EntropyMethod::ANS,
        EntropyMethod::LZ4,
        EntropyMethod::Zstd,
    ] {
        let coder = EntropyCoderFactory::create(method, None);
        assert_eq!(coder.method(), method);
        let data = b"aaaaaaaaaaaaaaaaaaaaaaaaaaaabbbbbbbbbbbbbbbbbbbbbbbbbbbbbbbbbbb".to_vec();
        let encoded = coder.encode(&data).unwrap();
        assert_eq!(coder.decode(&encoded).unwrap(), data);
    }
    assert!(matches!(EntropyCoderFactory::create(EntropyMethod::Zstd, Some(9)), AnyCoder::Zstd(_)));
    assert!(matches!(EntropyCoderFactory::create(EntropyMethod::ANS, Some(9)), AnyCoder::Ans(_)));
}

#[test]
fn lz4_block_carries_the_length_in_front() {
    let data = vec![9u8; 300];
    let encoded = LZ4Coder::with_level(1).encode(&data).unwrap();
    assert_eq!(&encoded[..4], &[44, 1, 0, 0]);
    assert!(encoded.len() < data.len());
    assert_ne!(encoded, data);
}

#[test]
fn zstd_coder_changes_and_shrinks_repetitive_data() {
    let data = vec![9u8; 3000];
    let encoded = ZstdCoder::with_level(3).encode(&data).unwrap();
    assert!(encoded.len() < 100);
    assert_eq!(&encoded[..4], &[0x28, 0xB5, 0x2F, 0xFD]);
}

#[test]
fn coders_reject_garbage() {
    assert!(matches!(ZstdCoder::new().decode(b"garbage!"), Err(HlcError::DecompressionError(_))));
    assert!(matches!(LZ4Coder::new().decode(&[1, 2]), Err(HlcError::DecompressionError(_))));
}

#[test]
fn pass_through_coders() {
    let data = b"left as it is".to_vec();
    assert_eq!(RangeCoder::new().encode(&data).unwrap(), data);
    assert_eq!(RangeCoder::with_precision(24).decode(&data).unwrap(), data);
    assert_eq!(ANSCoder::new().encode(&data).unwrap(), data);
    assert_eq!(ANSCoder::with_precision(8).decode(&data).unwrap(), data);
    assert_eq!(RangeCoder::new().method(), EntropyMethod::RangeCoder);
    assert_eq!(ANSCoder::new().method(), EntropyMethod::ANS);
    assert_eq!(NoOpCoder.method(), EntropyMethod::NoCoder);
    assert_eq!(LZ4Coder::new().method(), EntropyMethod::LZ4);
    assert_eq!(ZstdCoder::new().method(), EntropyMethod::Zstd);
}

#[test]
fn coder_errors_carry_the_words_of_the_decoder() {
    match LZ4Coder::new().decode(&[200, 0, 0, 0, 1, 2, 3]) {
        Err(HlcError::DecompressionError(text)) => {
            assert!(text.starts_with("LZ4 decompression failed: "));
            assert!(text.len() > "LZ4 decompression failed: ".len());
        }
        other => panic!("unexpected result: {:?}", other),
    }
    match ZstdCoder::new().decode(b"this is no frame") {
        Err(HlcError::DecompressionError(text)) => {
            assert!(text.starts_with("Zstd decompression failed: "));
            assert!(text.len() > "Zstd decompression failed: ".len());
        }
        other => panic!("unexpected result: {:?}", other),
    }
}

#[test]
fn lz4_blocks_with_overlong_runs_are_refused() {
    let mut block = vec![0xFFu8; 16_843_009];
    assert!(!has_short_runs(&block));
    assert!(matches!(LZ4Coder::new().decode(&block), Err(HlcError::DecompressionError(_))));
    block[5] = 0xFE;
    assert!(has_short_runs(&block));
    block.insert(0, 0xFE);
    block.push(0x01);
    assert!(has_short_runs(&block));
    block[6] = 0xFF;
    assert!(!has_short_runs(&block));
    assert!(has_short_runs(&[]));
    assert!(has_short_runs(&[0xFF, 0xFF, 0x00, 0xFF]));
}

#[test]
fn lz4_roundtrip_of_long_runs() {
    let coder = LZ4Coder::new();
    let data = vec![0xFFu8; 3_000_000];
    let encoded = coder.encode(&data).unwrap();
    assert!(encoded.len() < 20_000);
    assert_eq!(coder.decode(&encoded).unwrap(), data);
}
