use hlc::config::{HlcConfig, HlcMode};
use hlc::transforms::analyzer::EntropyEstimate;
use hlc::{compress_auto, compress_data, decompress_data, get_compression_info, validate_data, version_info};

fn entropy_of(data: &[u8]) -> f32 {
    let mut counts = [0u32; 256];
    for &byte in data {
        counts[byte as usize] += 1;
    }
    let len = data.len() as f32;
    let mut entropy = 0.0;
    for &count in &counts {
        if count > 0 {
            let p = count as f32 / len;
            entropy -= p * p.log2();
        }
    }
    entropy
}

fn estimate(data: &[u8]) -> EntropyEstimate {
    if data.is_empty() {
        return EntropyEstimate { original: 0, delta: 0 };
    }
    let original = entropy_of(data);
    let delta = if data.len() < 2 {
        original
    } else {
        let deltas: Vec<u8> = (1..data.len()).map(|i| data[i].wrapping_sub(data[i - 1])).collect();
        entropy_of(&deltas)
    };
    EntropyEstimate {
        original: (original as f64 * 1_000_000.0).round() as u32,
        delta: (delta as f64 * 1_000_000.0).round() as u32,
    }
}

fn pack(data: &[u8], config: &HlcConfig) -> Vec<u8> {
    let estimates: Vec<EntropyEstimate> = data.chunks(config.chunk_size).map(estimate).collect();
    compress_data(data, config, &estimates).unwrap()
}

#[test]
fn test_compress_decompress_data() {
    let original = b"Hello, world! This is a test of the HLC library API.";
    let config = HlcConfig::default();
    let compressed = pack(original, &config);
    assert!(!compressed.is_empty());
    let decompressed = decompress_data(&compressed).unwrap();
    assert_eq!(original.to_vec(), decompressed);
}

#[test]
fn lib_test_empty_data() {
    let original = b"";
    let config = HlcConfig::default();
    let compressed = pack(original, &config);
    let decompressed = decompress_data(&compressed).unwrap();
    assert_eq!(original.to_vec(), decompressed);
}

#[test]
fn test_large_data() {
    let original = vec![42u8; 10000];
    let config = HlcConfig::default();
    let compressed = pack(&original, &config);
    println!("Original: {}, Compressed: {}", original.len(), compressed.len());
    let decompressed = decompress_data(&compressed).unwrap();
    assert_eq!(original, decompressed);
}

#[test]
fn test_compression_modes() {
    let data = vec![0u8; 1000];
    let balanced = HlcConfig::default().with_mode(HlcMode::Balanced);
    let max = HlcConfig::default().with_mode(HlcMode::Max);
    let compressed_balanced = pack(&data, &balanced);
    let compressed_max = pack(&data, &max);
    assert!(decompress_data(&compressed_balanced).is_ok());
    assert!(decompress_data(&compressed_max).is_ok());
}

#[test]
fn lib_test_validation() {
    let data = b"Test data for validation";
    let config = HlcConfig::default();
    let compressed = pack(data, &config);
    assert!(validate_data(&compressed).unwrap());
    let mut corrupted = compressed.clone();
    if !corrupted.is_empty() {
        let len = corrupted.len();
        corrupted[len - 1] ^= 0xFF;
        assert!(!matches!(validate_data(&corrupted), Ok(true)));
        assert!(decompress_data(&corrupted).is_err());
    }
}

#[test]
fn test_compression_info() {
    let data = vec![1u8; 1000];
    let config = HlcConfig::default();
    let compressed = pack(&data, &config);
    let info = get_compression_info(&compressed).unwrap();
    assert_eq!(info.original_size, 1000);
    assert!(info.compressed_size > 0);
}

#[test]
fn lib_test_auto_compression() {
    let data = vec![0u8; 1000];
    let (compressed, mode) = compress_auto(&data, &[estimate(&data)]).unwrap();
    assert!(!compressed.is_empty());
    println!("Auto selected mode: {:?}", mode);
    let decompressed = decompress_data(&compressed).unwrap();
    assert_eq!(data, decompressed);
}

#[test]
fn lib_test_version_info() {
    let info = version_info();
    assert!(!info.version.is_empty());
    assert!(!info.description.is_empty());
}

#[test]
fn auto_compression_prefers_balanced_on_a_tie() {
    let data = b"tiny".to_vec();
    let (compressed, mode) = compress_auto(&data, &[estimate(&data)]).unwrap();
    assert_eq!(mode, HlcMode::Balanced);
    assert_eq!(compressed, pack(&data, &HlcConfig::default()));
}
