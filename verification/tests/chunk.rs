use hlc::chunk::{merge_chunks, process_chunk, split_into_chunks, validate_chunk, ChunkStats, RawChunk};
use hlc::config::{ChecksumType, HlcConfig, HlcMode};
use hlc::container::{calculate_checksum, CompressedChunk, PipelineFlags, ENTROPY, RLE, STORED};
use hlc::transforms::analyzer::EntropyEstimate;

fn entropy_of(data: &[u8]) -> f32 {
    let mut counts = [0u32; 256];
    for &byte in data {
        counts[byte as usize] += 1;
    }
    let len = data.len() as f32;
    let mut entropy = 0.0;
    for &count in &counts {
        if count > 0 {
            let p = count as f32 / len;
            entropy -= p * p.log2();
        }
    }
    entropy
}

fn estimate(data: &[u8]) -> EntropyEstimate {
    if data.is_empty() {
        return EntropyEstimate { original: 0, delta: 0 };
    }
    let original = entropy_of(data);
    let delta = if data.len() < 2 {
        original
    } else {
        let deltas: Vec<u8> = (1..data.len()).map(|i| data[i].wrapping_sub(data[i - 1])).collect();
        entropy_of(&deltas)
    };
    EntropyEstimate {
        original: (original as f64 * 1_000_000.0).round() as u32,
        delta: (delta as f64 * 1_000_000.0).round() as u32,
    }
}

#[test]
fn test_chunk_creation() {
    let data = b"Hello, world!".to_vec();
    let chunk = RawChunk::new(0, data.clone());
    assert_eq!(chunk.id, 0);
    assert_eq!(chunk.data, data);
    assert_eq!(chunk.size(), data.len());
    assert!(!chunk.is_empty());
}

#[test]
fn test_empty_chunk() {
    let chunk = RawChunk::new(0, Vec::new());
    assert!(chunk.is_empty());
    assert_eq!(chunk.size(), 0);
}

#[test]
fn test_split_into_chunks() {
    let data = b"Hello, world! This is a test.";
    let chunks = split_into_chunks(data, 10);
    assert_eq!(chunks.len(), 3);
    assert_eq!(chunks[0].data, b"Hello, wor");
    assert_eq!(chunks[1].data, b"ld! This i");
    assert_eq!(chunks[2].data, b"s a test.");
}

#[test]
fn test_merge_chunks() {
    let original_data = b"Hello, world! This is a test.";
    let chunks = split_into_chunks(original_data, 10);
    let merged = merge_chunks(&chunks);
    assert_eq!(merged, original_data);
}

#[test]
fn test_process_chunk() {
    let data = vec![0u8; 1000];
    let chunk = RawChunk::new(0, data.clone());
    let config = HlcConfig::default().with_mode(HlcMode::Balanced);
    let compressed = process_chunk(chunk, &config, estimate(&data)).unwrap();
    assert_eq!(compressed.id, 0);
    assert_eq!(compressed.original_size as usize, data.len());
    assert!(compressed.original_size > 0);
}

#[test]
fn test_chunk_stats() {
    let mut stats = ChunkStats::new();
    let data = vec![1u8; 100];
    let checksum = calculate_checksum(&data, ChecksumType::CRC32);
    let chunk = CompressedChunk {
        id: 0,
        flags: PipelineFlags::from_bits_truncate(RLE | ENTROPY),
        original_checksum: checksum,
        original_size: 100,
        compressed_size: 50,
        data: vec![0u8; 50],
    };
    stats.add_chunk(&chunk);
    assert_eq!(stats.total_chunks, 1);
    assert_eq!(stats.rle_chunks, 1);
    assert_eq!(stats.entropy_chunks, 1);
    assert_eq!(stats.stored_chunks, 0);
    assert_eq!(stats.delta_chunks, 0);
    assert_eq!(stats.dictionary_chunks, 0);
    assert_eq!(stats.total_original_size, 100);
    assert_eq!(stats.total_compressed_size, 50);
    assert_eq!(stats.space_saved(), 50);
}

#[test]
fn test_validate_chunk() {
    let valid_chunk = RawChunk::new(0, vec![1, 2, 3, 4, 5]);
    assert!(validate_chunk(&valid_chunk).is_ok());
    let large_chunk = RawChunk::new(0, vec![0; 1000]);
    assert!(validate_chunk(&large_chunk).is_ok());
}

#[test]
fn split_numbers_chunks_by_position() {
    let data: Vec<u8> = (0..25u8).collect();
    let chunks = split_into_chunks(&data, 10);
    assert_eq!(chunks.len(), 3);
    for (i, chunk) in chunks.iter().enumerate() {
        assert_eq!(chunk.id, i);
    }
    assert_eq!(chunks[2].data, vec![20, 21, 22, 23, 24]);
}

#[test]
fn split_of_empty_input_has_no_chunks() {
    let chunks = split_into_chunks(&[], 1024);
    assert!(chunks.is_empty());
    assert!(merge_chunks(&chunks).is_empty());
}

#[test]
fn split_at_exact_multiple_has_no_short_chunk() {
    let data = vec![3u8; 30];
    let chunks = split_into_chunks(&data, 10);
    assert_eq!(chunks.len(), 3);
    assert!(chunks.iter().all(|c| c.size() == 10));
    let one = split_into_chunks(&data, 30);
    assert_eq!(one.len(), 1);
    let two = split_into_chunks(&data, 29);
    assert_eq!(two.len(), 2);
    assert_eq!(two[1].size(), 1);
}

#[test]
fn process_chunk_stores_an_empty_chunk() {
    let config = HlcConfig::default();
    let record = process_chunk(RawChunk::new(4, Vec::new()), &config, estimate(&[])).unwrap();
    assert_eq!(record.id, 4);
    assert_eq!(record.flags.bits(), STORED);
    assert_eq!(record.original_size, 0);
    assert_eq!(record.compressed_size, 0);
    assert!(record.data.is_empty());
    assert_eq!(record.original_checksum, calculate_checksum(&[], ChecksumType::CRC32));
}

#[test]
fn process_chunk_keeps_rle_and_entropy_for_long_zero_runs() {
    let data = vec![0u8; 100_000];
    let config = HlcConfig::default();
    let record = process_chunk(RawChunk::new(0, data.clone()), &config, estimate(&data)).unwrap();
    assert_eq!(record.flags.bits(), RLE | ENTROPY);
    assert!(record.data.len() < 100);
    assert_eq!(record.compressed_size as usize, record.data.len());
    assert_eq!(record.decompress(&config).unwrap().data, data);
}

#[test]
fn process_chunk_falls_back_to_stored() {
    let data: Vec<u8> = (0..200u32).map(|i| (i * 151 % 256) as u8).collect();
    let config = HlcConfig::default();
    let blind = EntropyEstimate { original: 8_000_000, delta: 8_000_000 };
    let record = process_chunk(RawChunk::new(9, data.clone()), &config, blind).unwrap();
    assert_eq!(record.flags.bits(), STORED);
    assert_eq!(record.data, data);
    assert_eq!(record.original_size as usize, data.len());
    assert_eq!(record.decompress(&config).unwrap().data, data);
}

#[test]
fn process_chunk_payload_never_exceeds_the_chunk() {
    let inputs: Vec<Vec<u8>> = vec![
        vec![5],
        vec![0],
        vec![0, 0],
        b"Hello Hello Hello\x00\x00\x00\x00\x00 world!".to_vec(),
        (0..4096u32).map(|i| (i % 7) as u8).collect(),
        (0..1024u32).flat_map(|i| i.to_le_bytes()).collect(),
    ];
    for mode in [HlcMode::Balanced, HlcMode::Max] {
        for kind in [ChecksumType::CRC32, ChecksumType::SHA256] {
            let config = HlcConfig::default().with_mode(mode).with_checksum(kind);
            for data in &inputs {
                let record = process_chunk(RawChunk::new(1, data.clone()), &config, estimate(data)).unwrap();
                assert!(record.data.len() <= data.len());
                let bits = record.flags.bits();
                assert!(bits == STORED || (bits & STORED == 0 && bits & ENTROPY != 0));
                assert_eq!(record.decompress(&config).unwrap().data, *data);
            }
        }
    }
}

#[test]
fn chunk_stats_space_saved_is_never_negative() {
    let mut stats = ChunkStats::new();
    stats.total_original_size = 10;
    stats.total_compressed_size = 25;
    assert_eq!(stats.space_saved(), 0);
    stats.total_original_size = 25;
    stats.total_compressed_size = 10;
    assert_eq!(stats.space_saved(), 15);
}
