use hlc::config::{ChecksumType, HlcConfig, HlcMode};
use hlc::container::{read_hlc_container, ContainerHeader, DELTA, ENTROPY, RLE, STORED};
use hlc::error::HlcError;
use hlc::pipeline::{compress, decompress, info, validate};
use hlc::transforms::analyzer::{analyze_chunk, EntropyEstimate};

fn entropy_of(data: &[u8]) -> f32 {
    let mut counts = [0u32; 256];
    for &byte in data {
        counts[byte as usize] += 1;
    }
    let len = data.len() as f32;
    let mut entropy = 0.0;
    for &count in &counts {
        if count > 0 {
            let p = count as f32 / len;
            entropy -= p * p.log2();
        }
    }
    entropy
}

fn estimate(data: &[u8]) -> EntropyEstimate {
    if data.is_empty() {
        return EntropyEstimate { original: 0, delta: 0 };
    }
    let original = entropy_of(data);
    let delta = if data.len() < 2 {
        original
    } else {
        let deltas: Vec<u8> = (1..data.len()).map(|i| data[i].wrapping_sub(data[i - 1])).collect();
        entropy_of(&deltas)
    };
    EntropyEstimate {
        original: (original as f64 * 1_000_000.0).round() as u32,
        delta: (delta as f64 * 1_000_000.0).round() as u32,
    }
}

fn estimates(data: &[u8], chunk_size: usize) -> Vec<EntropyEstimate> {
    data.chunks(chunk_size).map(estimate).collect()
}

fn pack(data: &[u8], config: &HlcConfig) -> Vec<u8> {
    compress(data, config, &estimates(data, config.chunk_size)).unwrap().0
}

#[test]
fn test_compress_decompress_roundtrip() {
    let original_data = b"Hello, world! This is a test of the HLC compression system.";
    let config = HlcConfig::default();
    let (compressed, stats) = compress(original_data, &config, &estimates(original_data, config.chunk_size)).unwrap();
    assert!(stats.original_size > 0);
    assert!(stats.chunks_processed > 0);
    let decompressed = decompress(&compressed, None).unwrap();
    assert_eq!(original_data.to_vec(), decompressed);
}

#[test]
fn test_empty_file_compression() {
    let original_data = b"";
    let config = HlcConfig::default();
    let (compressed, stats) = compress(original_data, &config, &[]).unwrap();
    assert_eq!(stats.original_size, 0);
    assert_eq!(stats.chunks_processed, 0);
    let decompressed = decompress(&compressed, None).unwrap();
    assert_eq!(original_data.to_vec(), decompressed);
}

#[test]
fn test_file_info() {
    let original_data = vec![0u8; 1000];
    let config = HlcConfig::default();
    let compressed = pack(&original_data, &config);
    let info = info(&compressed).unwrap();
    assert_eq!(info.original_size, 1000);
    assert!(info.original_size > 0);
    assert!(info.compressed_size > 0);
}

#[test]
fn pipeline_test_validation() {
    let original_data = b"Test data for validation";
    let config = HlcConfig::default();
    let compressed = pack(original_data, &config);
    let is_valid = validate(&compressed).unwrap();
    assert!(is_valid);
}

#[test]
fn empty_input_gives_a_header_only_container() {
    for kind in [ChecksumType::CRC32, ChecksumType::SHA256] {
        let config = HlcConfig::default().with_checksum(kind);
        let (compressed, stats) = compress(&[], &config, &[]).unwrap();
        assert_eq!(compressed.len(), 30);
        let header = ContainerHeader::read(&compressed).unwrap();
        assert_eq!(header.chunk_count, 0);
        assert_eq!(header.original_size, 0);
        assert_eq!(header.compressed_size, 0);
        assert_eq!(header.checksum_type, kind);
        assert_eq!(stats.compressed_size, 0);
        assert!(decompress(&compressed, None).unwrap().is_empty());
        assert!(decompress(&compressed, Some(0)).unwrap().is_empty());
        assert!(validate(&compressed).unwrap());
        assert_eq!(info(&compressed).unwrap().total_chunks, 0);
    }
}

#[test]
fn single_byte_roundtrip() {
    let config = HlcConfig::default();
    let compressed = pack(&[0x5A], &config);
    assert_eq!(compressed.len(), 30 + 17 + 1);
    assert_eq!(compressed[30], STORED);
    assert_eq!(decompress(&compressed, None).unwrap(), vec![0x5A]);
}

#[test]
fn exactly_one_chunk_at_the_boundary() {
    let config = HlcConfig::default().with_chunk_size(1024);
    let data: Vec<u8> = (0..1024u32).map(|i| (i * 7 % 256) as u8).collect();
    let (compressed, stats) = compress(&data, &config, &estimates(&data, 1024)).unwrap();
    assert_eq!(stats.chunks_processed, 1);
    assert_eq!(ContainerHeader::read(&compressed).unwrap().chunk_count, 1);
    assert_eq!(decompress(&compressed, None).unwrap(), data);
}

#[test]
fn one_byte_over_the_boundary_gives_two_chunks() {
    let config = HlcConfig::default().with_chunk_size(1024);
    let data: Vec<u8> = (0..1025u32).map(|i| (i * 7 % 256) as u8).collect();
    let (compressed, stats) = compress(&data, &config, &estimates(&data, 1024)).unwrap();
    assert_eq!(stats.chunks_processed, 2);
    let (chunks, _) = read_hlc_container(&compressed, None).unwrap();
    assert_eq!(chunks.len(), 2);
    assert_eq!(chunks[0].original_size, 1024);
    assert_eq!(chunks[1].original_size, 1);
    assert_eq!(chunks[1].id, 1);
    assert_eq!(decompress(&compressed, None).unwrap(), data);
}

#[test]
fn long_zero_run_across_chunks() {
    let config = HlcConfig::default().with_chunk_size(4096);
    let mut data = vec![1u8; 100];
    data.extend(vec![0u8; 20_000]);
    data.extend(vec![2u8; 100]);
    let (compressed, stats) = compress(&data, &config, &estimates(&data, 4096)).unwrap();
    assert_eq!(stats.chunks_processed, 5);
    assert!(compressed.len() < data.len() / 10);
    assert_eq!(decompress(&compressed, None).unwrap(), data);
}

#[test]
fn scenario_zeros_in_one_chunk() {
    let data = vec![0u8; 1024];
    let config = HlcConfig::default();
    let (compressed, stats) = compress(&data, &config, &estimates(&data, config.chunk_size)).unwrap();
    assert_eq!(stats.chunks_processed, 1);
    let (chunks, _) = read_hlc_container(&compressed, None).unwrap();
    assert_eq!(chunks.len(), 1);
    // The zero runs take ten bytes, which the entropy coder does not shrink;
    // a record without the entropy stage is stored.
    assert_eq!(chunks[0].flags.bits(), STORED);
    assert_eq!(chunks[0].data, data);
    assert_eq!(compressed.len(), 30 + 17 + 1024);
    assert_eq!(decompress(&compressed, None).unwrap(), data);
}

#[test]
fn scenario_short_text_with_zeros() {
    let data = b"Hello Hello Hello\x00\x00\x00\x00\x00 world!".to_vec();
    let config = HlcConfig::default();
    let (compressed, stats) = compress(&data, &config, &estimates(&data, config.chunk_size)).unwrap();
    assert_eq!(stats.chunks_processed, 1);
    let (chunks, _) = read_hlc_container(&compressed, None).unwrap();
    assert_eq!(chunks.len(), 1);
    assert_eq!(chunks[0].flags.bits(), STORED);
    assert_eq!(chunks[0].data, data);
    assert_eq!(decompress(&compressed, None).unwrap(), data);
}

#[test]
fn scenario_sequential_integers() {
    let data: Vec<u8> = (0..1024u32).flat_map(|i| i.to_le_bytes()).collect();
    assert_eq!(data.len(), 4096);
    let strategy = analyze_chunk(&data, HlcMode::Max, estimate(&data));
    assert!(strategy.use_delta);
    assert!(strategy.use_rle);
    for mode in [HlcMode::Balanced, HlcMode::Max] {
        let config = HlcConfig::default().with_mode(mode);
        let (compressed, stats) = compress(&data, &config, &estimates(&data, config.chunk_size)).unwrap();
        assert_eq!(stats.chunks_processed, 1);
        let (chunks, _) = read_hlc_container(&compressed, None).unwrap();
        assert!((chunks[0].compressed_size as usize) < data.len());
        if mode == HlcMode::Max {
            assert_eq!(chunks[0].flags.bits(), RLE | DELTA | ENTROPY);
        } else {
            assert_eq!(chunks[0].flags.bits(), RLE | ENTROPY);
        }
        assert_eq!(decompress(&compressed, None).unwrap(), data);
    }
}

#[test]
fn scenario_two_mebibytes_of_zeros() {
    let data = vec![0u8; 2 * 1024 * 1024];
    let config = HlcConfig::default().with_chunk_size(1024 * 1024);
    let (compressed, stats) = compress(&data, &config, &estimates(&data, 1024 * 1024)).unwrap();
    assert_eq!(stats.chunks_processed, 2);
    let header = ContainerHeader::read(&compressed).unwrap();
    assert_eq!(header.chunk_count, 2);
    assert_eq!(header.original_size, 2 * 1024 * 1024);
    assert!(header.compressed_size < 1024);
    assert!(compressed.len() < 1024);
    let (chunks, _) = read_hlc_container(&compressed, None).unwrap();
    assert_eq!(chunks.len(), 2);
    for chunk in &chunks {
        assert_eq!(chunk.flags.bits(), RLE | ENTROPY);
        assert!(chunk.data.len() < 64);
        assert_eq!(chunk.original_size, 1024 * 1024);
    }
    assert_eq!(decompress(&compressed, None).unwrap(), data);
}

#[test]
fn scenario_uniformly_spread_bytes() {
    let data: Vec<u8> = (0..65536u32).map(|i| ((i * 17 + 42) % 256) as u8).collect();
    let config = HlcConfig::default();
    let (compressed, stats) = compress(&data, &config, &estimates(&data, config.chunk_size)).unwrap();
    assert_eq!(stats.chunks_processed, 1);
    let (chunks, _) = read_hlc_container(&compressed, None).unwrap();
    assert_eq!(chunks[0].flags.bits(), STORED);
    assert_eq!(compressed.len(), 30 + 17 + 65536);
    assert_eq!(decompress(&compressed, None).unwrap(), data);
}

#[test]
fn scenario_flipped_last_byte_is_detected() {
    let data = vec![0u8; 1024];
    let config = HlcConfig::default();
    let mut compressed = pack(&data, &config);
    let last = compressed.len() - 1;
    compressed[last] ^= 0x01;
    let result = decompress(&compressed, None);
    assert!(matches!(result, Err(HlcError::ChecksumMismatch) | Err(HlcError::DecompressionError(_))));
}

#[test]
fn payload_tamper_never_returns_wrong_bytes() {
    let data: Vec<u8> = (0..3000u32).map(|i| if i % 3 == 0 { 0 } else { (i % 11) as u8 }).collect();
    let config = HlcConfig::default().with_chunk_size(1024);
    let compressed = pack(&data, &config);
    for at in 30..compressed.len() {
        let mut tampered = compressed.clone();
        tampered[at] ^= 0x55;
        match decompress(&tampered, None) {
            Ok(out) => assert_eq!(out, data),
            Err(_) => {}
        }
    }
}

#[test]
fn header_tamper_gives_invalid_format() {
    let compressed = pack(b"some bytes to protect", &HlcConfig::default());
    for at in 0..5 {
        for flip in [0x01u8, 0x80, 0xFF] {
            let mut tampered = compressed.clone();
            tampered[at] ^= flip;
            assert!(matches!(decompress(&tampered, None), Err(HlcError::InvalidFormat(_))));
            assert!(matches!(validate(&tampered), Err(HlcError::InvalidFormat(_))));
            assert!(matches!(info(&tampered), Err(HlcError::InvalidFormat(_))));
        }
    }
}

#[test]
fn compression_is_deterministic_and_ignores_threads() {
    let data: Vec<u8> = (0..50_000u32).map(|i| if i % 5 < 3 { 0 } else { (i % 251) as u8 }).collect();
    let config = HlcConfig::default().with_chunk_size(4096);
    let first = pack(&data, &config);
    let second = pack(&data, &config);
    assert_eq!(first, second);
    for threads in [1usize, 2, 4, 8] {
        let other = pack(&data, &config.clone().with_threads(threads));
        assert_eq!(first, other);
    }
}

#[test]
fn roundtrip_in_all_modes_and_checksums() {
    let inputs: Vec<Vec<u8>> = vec![
        b"The quick brown fox jumps over the lazy dog. ".repeat(100),
        (0..1000u16).flat_map(|i| i.to_le_bytes()).collect(),
        (0..5000u32).map(|i| if i % 100 == 0 { 255 } else { 0 }).collect(),
        b"ABCDEFGH".repeat(125),
    ];
    for mode in [HlcMode::Balanced, HlcMode::Max] {
        for kind in [ChecksumType::CRC32, ChecksumType::SHA256] {
            for chunk_size in [1024usize, 4096] {
                let config = HlcConfig::default().with_mode(mode).with_checksum(kind).with_chunk_size(chunk_size);
                for data in &inputs {
                    let compressed = pack(data, &config);
                    assert_eq!(decompress(&compressed, None).unwrap(), *data);
                    assert!(validate(&compressed).unwrap());
                    let (chunks, read_config) = read_hlc_container(&compressed, None).unwrap();
                    assert_eq!(read_config.checksum, kind);
                    for chunk in &chunks {
                        assert!(chunk.compressed_size <= chunk.original_size);
                        let bits = chunk.flags.bits();
                        assert!(bits == STORED || (bits & STORED == 0 && bits & ENTROPY != 0));
                    }
                }
            }
        }
    }
}

#[test]
fn missing_estimates_count_as_zero_entropy() {
    let data: Vec<u8> = (0..2048u32).map(|i| (i % 256) as u8).collect();
    let config = HlcConfig::default().with_chunk_size(1024);
    let none = compress(&data, &config, &[]).unwrap().0;
    let zeros = compress(&data, &config, &[EntropyEstimate { original: 0, delta: 0 }; 2]).unwrap().0;
    assert_eq!(none, zeros);
    assert_eq!(decompress(&none, None).unwrap(), data);
}

#[test]
fn zero_chunk_size_is_a_configuration_error() {
    let mut config = HlcConfig::default();
    config.chunk_size = 0;
    assert!(matches!(compress(b"abc", &config, &[]), Err(HlcError::ConfigError(_))));
    assert!(compress(b"", &config, &[]).is_ok());
}

#[test]
fn validate_tells_corrupt_content_from_a_bad_container() {
    let compressed = pack(b"Test data for validation", &HlcConfig::default());
    let mut corrupted = compressed.clone();
    let last = corrupted.len() - 1;
    corrupted[last] ^= 0xFF;
    assert_eq!(validate(&corrupted).unwrap(), false);
    assert!(matches!(validate(b"This is not HLC data"), Err(HlcError::InvalidFormat(_))));
    assert!(matches!(validate(&compressed[..compressed.len() / 2]), Err(_)));
}

#[test]
fn decompress_honours_the_output_limit() {
    let data = vec![9u8; 5000];
    let config = HlcConfig::default().with_chunk_size(1024);
    let compressed = pack(&data, &config);
    assert_eq!(decompress(&compressed, Some(5000)).unwrap(), data);
    assert!(matches!(decompress(&compressed, Some(4999)), Err(HlcError::DecompressionError(_))));
}

#[test]
fn info_counts_flags_and_sizes() {
    let mut data = vec![0u8; 4096];
    data.extend((0..4096u32).map(|i| (i * 151 % 256) as u8));
    let config = HlcConfig::default().with_chunk_size(4096);
    let blind = [EntropyEstimate { original: 8_000_000, delta: 8_000_000 }; 2];
    let (compressed, stats) = compress(&data, &config, &blind).unwrap();
    let report = info(&compressed).unwrap();
    assert_eq!(report.version, 1);
    assert_eq!(report.total_chunks, 2);
    assert_eq!(report.original_size, 8192);
    assert_eq!(report.chunk_stats.total_chunks, 2);
    assert_eq!(report.chunk_stats.rle_chunks, 1);
    assert_eq!(report.chunk_stats.entropy_chunks, 1);
    assert_eq!(report.chunk_stats.stored_chunks, 1);
    assert_eq!(report.chunk_stats.delta_chunks, 0);
    assert_eq!(report.chunk_stats.total_original_size, 8192);
    assert_eq!(report.compressed_size, report.chunk_stats.total_compressed_size);
    assert_eq!(report.compressed_size + 30 + 2 * 17, compressed.len() as u64);
    assert_eq!(stats.compressed_size, compressed.len() as u64);
    assert_eq!(stats.chunk_stats.total_compressed_size, report.compressed_size);
}
