use hlc::config::{ChecksumType, HlcConfig, HlcMode};
use hlc::transforms::analyzer::EntropyEstimate;
use hlc::{compress_auto, compress_data, decompress_data, get_compression_info, validate_data, version_info};

fn entropy_of(data: &[u8]) -> f32 {
    let mut counts = [0u32; 256];
    for &byte in data {
        counts[byte as usize] += 1;
    }
    let len = data.len() as f32;
    let mut entropy = 0.0;
    for &count in &counts {
        if count > 0 {
            let p = count as f32 / len;
            entropy -= p * p.log2();
        }
    }
    entropy
}

fn estimate(data: &[u8]) -> EntropyEstimate {
    if data.is_empty() {
        return EntropyEstimate { original: 0, delta: 0 };
    }
    let original = entropy_of(data);
    let delta = if data.len() < 2 {
        original
    } else {
        let deltas: Vec<u8> = (1..data.len()).map(|i| data[i].wrapping_sub(data[i - 1])).collect();
        entropy_of(&deltas)
    };
    EntropyEstimate {
        original: (original as f64 * 1_000_000.0).round() as u32,
        delta: (delta as f64 * 1_000_000.0).round() as u32,
    }
}

fn estimates(data: &[u8], config: &HlcConfig) -> Vec<EntropyEstimate> {
    data.chunks(config.chunk_size).map(estimate).collect()
}

fn pack(data: &[u8], config: &HlcConfig) -> Vec<u8> {
    compress_data(data, config, &estimates(data, config)).unwrap()
}

fn create_test_data(size: usize) -> Vec<u8> {
    let mut data = Vec::with_capacity(size);
    let pattern_size = size / 4;
    for i in 0..pattern_size {
        data.push((i % 256) as u8);
    }
    for i in 0..pattern_size {
        if i % 10 == 0 {
            data.push(255);
        } else {
            data.push(0);
        }
    }
    let pattern = b"PATTERN";
    for _ in 0..(pattern_size / pattern.len()) {
        data.extend_from_slice(pattern);
    }
    while data.len() < size {
        data.push(((data.len() * 17 + 42) % 256) as u8);
    }
    data.truncate(size);
    data
}

#[test]
fn test_basic_compression_roundtrip() {
    let original_data = b"Hello, world! This is a basic compression test.";
    let config = HlcConfig::default();
    let compressed = pack(original_data, &config);
    let decompressed = decompress_data(&compressed).unwrap();
    assert_eq!(original_data.to_vec(), decompressed);
}

#[test]
fn test_empty_data_handling() {
    let empty_data = b"";
    let config = HlcConfig::default();
    let compressed = pack(empty_data, &config);
    let decompressed = decompress_data(&compressed).unwrap();
    assert_eq!(empty_data.to_vec(), decompressed);
    assert!(validate_data(&compressed).unwrap());
}

#[test]
fn test_large_data_compression() {
    let mut large_data = Vec::with_capacity(1_000_000);
    for i in 0..10000 {
        large_data.extend_from_slice(&(i as u32).to_le_bytes());
        large_data.extend_from_slice(b"PADDING");
        large_data.extend_from_slice(&[0u8; 90]);
    }
    let config = HlcConfig::default();
    let compressed = pack(&large_data, &config);
    let decompressed = decompress_data(&compressed).unwrap();
    assert_eq!(large_data, decompressed);
    assert!(compressed.len() < large_data.len());
    let info = get_compression_info(&compressed).unwrap();
    assert!(info.original_size > info.compressed_size);
}

#[test]
fn test_different_compression_modes() {
    let test_data = create_test_data(10000);
    let balanced_config = HlcConfig::default().with_mode(HlcMode::Balanced);
    let max_config = HlcConfig::default().with_mode(HlcMode::Max);
    let compressed_balanced = pack(&test_data, &balanced_config);
    let compressed_max = pack(&test_data, &max_config);
    let decompressed_balanced = decompress_data(&compressed_balanced).unwrap();
    let decompressed_max = decompress_data(&compressed_max).unwrap();
    assert_eq!(test_data, decompressed_balanced);
    assert_eq!(test_data, decompressed_max);
    let info_balanced = get_compression_info(&compressed_balanced).unwrap();
    let info_max = get_compression_info(&compressed_max).unwrap();
    let ratio_balanced = info_balanced.original_size as f64 / info_balanced.compressed_size as f64;
    let ratio_max = info_max.original_size as f64 / info_max.compressed_size as f64;
    assert!(ratio_max >= ratio_balanced * 0.9);
}

#[test]
fn test_different_checksum_types() {
    let test_data = b"Test data for checksum validation";
    let crc32_config = HlcConfig::default().with_checksum(ChecksumType::CRC32);
    let sha256_config = HlcConfig::default().with_checksum(ChecksumType::SHA256);
    let compressed_crc32 = pack(test_data, &crc32_config);
    let compressed_sha256 = pack(test_data, &sha256_config);
    let decompressed_crc32 = decompress_data(&compressed_crc32).unwrap();
    let decompressed_sha256 = decompress_data(&compressed_sha256).unwrap();
    assert_eq!(test_data.to_vec(), decompressed_crc32);
    assert_eq!(test_data.to_vec(), decompressed_sha256);
    assert!(validate_data(&compressed_crc32).unwrap());
    assert!(validate_data(&compressed_sha256).unwrap());
}

#[test]
fn test_multithreaded_compression() {
    let test_data = create_test_data(100000);
    for threads in [1, 2, 4, 8] {
        let config = HlcConfig::default().with_threads(threads);
        let compressed = pack(&test_data, &config);
        let decompressed = decompress_data(&compressed).unwrap();
        assert_eq!(test_data, decompressed);
        println!("Threads: {}, compressed size: {}", threads, compressed.len());
    }
}

#[test]
fn test_chunk_size_variations() {
    let test_data = create_test_data(100000);
    for chunk_size in [1024, 4096, 16384, 65536, 262144] {
        let config = HlcConfig::default().with_chunk_size(chunk_size);
        let compressed = pack(&test_data, &config);
        let decompressed = decompress_data(&compressed).unwrap();
        assert_eq!(test_data, decompressed);
        let info = get_compression_info(&compressed).unwrap();
        assert_eq!(info.total_chunks, (100000 + chunk_size - 1) / chunk_size);
    }
}

#[test]
fn test_data_corruption_detection() {
    let test_data = b"Test data for corruption detection";
    let config = HlcConfig::default();
    let mut compressed = pack(test_data, &config);
    if compressed.len() > 10 {
        let at = compressed.len() - 5;
        compressed[at] ^= 0xFF;
        assert!(decompress_data(&compressed).is_err());
        assert!(!matches!(validate_data(&compressed), Ok(true)));
    }
}

#[test]
fn test_various_data_types() {
    let test_cases: Vec<(&str, Vec<u8>)> = vec![
        ("Text data", b"The quick brown fox jumps over the lazy dog. ".repeat(100)),
        ("Binary data", (0..1000u16).flat_map(|i| i.to_le_bytes()).collect()),
        ("Sparse data", {
            let mut data = vec![0u8; 1000];
            for i in (0..1000).step_by(100) {
                data[i] = 255;
            }
            data
        }),
        ("Random data", (0..1000).map(|i| (i * 17 + 42) as u8).collect()),
        ("Repeated patterns", b"ABCDEFGH".repeat(125)),
    ];
    for (name, data) in test_cases {
        let config = HlcConfig::default();
        let compressed = pack(&data, &config);
        let decompressed = decompress_data(&compressed).unwrap();
        assert_eq!(data, decompressed);
        let ratio = data.len() as f64 / compressed.len() as f64;
        println!("{}: {:.2}x compression ratio", name, ratio);
        assert!(validate_data(&compressed).unwrap());
    }
}

#[test]
fn test_pipeline_info_and_stats() {
    let test_data = create_test_data(50000);
    let config = HlcConfig::default();
    let compressed = pack(&test_data, &config);
    let info = get_compression_info(&compressed).unwrap();
    assert_eq!(info.original_size, test_data.len() as u64);
    assert!(info.compressed_size > 0);
    assert!(info.total_chunks > 0);
    let total_chunks = info.chunk_stats.total_chunks;
    assert_eq!(total_chunks, info.total_chunks);
    let transform_usage = info.chunk_stats.stored_chunks + info.chunk_stats.rle_chunks
        + info.chunk_stats.delta_chunks + info.chunk_stats.dictionary_chunks + info.chunk_stats.entropy_chunks;
    assert!(transform_usage >= total_chunks);
}

#[test]
fn test_error_conditions() {
    let invalid_data = b"This is not HLC data";
    assert!(decompress_data(invalid_data).is_err());
    assert!(validate_data(invalid_data).is_err());
    assert!(get_compression_info(invalid_data).is_err());
    let valid_data = b"Test data";
    let config = HlcConfig::default();
    let mut compressed = pack(valid_data, &config);
    if compressed.len() > 5 {
        compressed.truncate(compressed.len() / 2);
        assert!(decompress_data(&compressed).is_err());
        assert!(validate_data(&compressed).is_err());
    }
}

#[test]
fn integration_test_test_auto_compression() {
    let test_data = create_test_data(10000);
    let config = HlcConfig::default();
    let (compressed, selected_mode) = compress_auto(&test_data, &estimates(&test_data, &config)).unwrap();
    println!("Auto-selected mode: {:?}", selected_mode);
    let decompressed = decompress_data(&compressed).unwrap();
    assert_eq!(test_data, decompressed);
    assert!(matches!(selected_mode, HlcMode::Balanced | HlcMode::Max));
}

#[test]
fn integration_test_test_version_info() {
    let version_info = version_info();
    assert!(!version_info.version.is_empty());
    assert!(!version_info.description.is_empty());
    println!("HLC Version: {}", version_info.version);
    println!("Description: {}", version_info.description);
}
