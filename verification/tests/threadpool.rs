use hlc::analyzer::{AnalysisResult, CompressionHint, ContentAnalyzer, ContentType, TransformRecommendation};
use hlc::checksum::ChecksumUtils;
use hlc::chunker::Chunk;
use hlc::entropy::{EntropyCoder, LZ4Coder, ZstdCoder};
use hlc::stages::rle::RLETransform;
use hlc::stages::Transform;
use hlc::threadpool::{RayonChunkProcessor, ThreadPoolStats};

fn entropy_microbits(data: &[u8]) -> u32 {
    if data.is_empty() {
        return 0;
    }
    let mut counts = [0u32; 256];
    for &byte in data {
        counts[byte as usize] += 1;
    }
    let mut entropy = 0.0f64;
    let data_len = data.len() as f64;
    for &count in counts.iter() {
        if count > 0 {
            let probability = count as f64 / data_len;
            entropy -= probability * probability.log2();
        }
    }
    (entropy * 1_000_000.0).round() as u32
}

#[test]
fn test_rayon_processor() {
    let processor = RayonChunkProcessor::new();
    let chunks = vec![Chunk::new(0, b"Hello, world!".to_vec()), Chunk::new(1, b"This is a test.".to_vec())];
    let mut results = Vec::new();
    for chunk in chunks {
        let entropy = entropy_microbits(&chunk.data);
        results.push(processor.process_chunk(chunk, entropy).unwrap());
    }
    assert_eq!(results.len(), 2);
}

#[test]
fn test_thread_pool_processing() {
    let chunks = vec![Chunk::new(0, b"Hello, world!".to_vec()), Chunk::new(1, b"This is a test.".to_vec())];
    let analyzer = ContentAnalyzer::new();
    let mut results = Vec::new();
    for chunk in chunks {
        let analysis = analyzer.analyze_chunk(&chunk.data, entropy_microbits(&chunk.data));
        results.push(RayonChunkProcessor::process_single_chunk(chunk, analysis).unwrap());
    }
    assert_eq!(results.len(), 2);
    results.sort_by_key(|r| r.chunk_id);
    assert_eq!(results[0].chunk_id, 0);
    assert_eq!(results[1].chunk_id, 1);
}

#[test]
fn single_chunk_header_and_payload() {
    let data = b"aaaaaaaaaaaaaaaaaaaaaaaaaaaaaaaaaaaaaaaa".to_vec();
    let analysis = AnalysisResult {
        content_type: ContentType::Binary,
        entropy: 0,
        compression_hint: CompressionHint::Fast,
        recommended_transforms: vec![TransformRecommendation::RLE, TransformRecommendation::XOR],
    };
    let result = RayonChunkProcessor::process_single_chunk(Chunk::new(5, data.clone()), analysis).unwrap();
    let transformed = RLETransform::new().encode(&data).unwrap();
    let expected = LZ4Coder::new().encode(&transformed).unwrap();
    assert_eq!(result.chunk_id, 5);
    assert_eq!(result.original_data, data);
    assert_eq!(result.compressed_data, expected);
    assert_eq!(result.header.chunk_id, 5);
    assert_eq!(result.header.original_size, 40);
    assert_eq!(result.header.compressed_size as usize, expected.len());
    assert_eq!(result.header.transform_flags, 2);
    assert_eq!(result.header.entropy_method, 3);
    assert_eq!(result.header.crc32, ChecksumUtils::crc32(&data));
    assert_eq!(result.header.sha256, None);
}

#[test]
fn single_chunk_entropy_method_by_hint() {
    let data = b"some bytes".to_vec();
    let make = |hint| AnalysisResult {
        content_type: ContentType::Text,
        entropy: 3_000_000,
        compression_hint: hint,
        recommended_transforms: vec![],
    };
    let balanced = RayonChunkProcessor::process_single_chunk(Chunk::new(0, data.clone()), make(CompressionHint::Balanced))
        .unwrap();
    assert_eq!(balanced.header.entropy_method, 4);
    assert_eq!(balanced.compressed_data, ZstdCoder::new().encode(&data).unwrap());
    assert_eq!(balanced.header.transform_flags, 0);
    let max = RayonChunkProcessor::process_single_chunk(Chunk::new(0, data.clone()), make(CompressionHint::Max)).unwrap();
    assert_eq!(max.header.entropy_method, 1);
    assert_eq!(max.compressed_data, data);
}

#[test]
fn thread_pool_stats_hold_counters() {
    let stats = ThreadPoolStats { num_workers: 2, pending_tasks: 3, completed_tasks: 4 };
    let copy = stats.clone();
    assert_eq!(copy.num_workers, 2);
    assert_eq!(copy.pending_tasks, 3);
    assert_eq!(copy.completed_tasks, 4);
}
