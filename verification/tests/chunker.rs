use hlc::chunker::{AdaptiveChunker, Chunk, ChunkStep, FixedChunker};

#[test]
fn test_fixed_chunker() {
    let chunker = FixedChunker::new(1024);
    let data = vec![1u8; 5000];
    let chunks = chunker.chunk_data(&data).unwrap();
    assert_eq!(chunks.len(), 5);
    for chunk in &chunks[..4] {
        assert_eq!(chunk.size(), 1024);
    }
    assert_eq!(chunks[4].size(), 5000 - 4 * 1024);
}

#[test]
fn fixed_chunker_numbers_and_keeps_bytes() {
    let chunker = FixedChunker::new(4);
    let data: Vec<u8> = (0..10u8).collect();
    let chunks = chunker.chunk_data(&data).unwrap();
    assert_eq!(chunks.len(), 3);
    assert_eq!(chunks[0].id, 0);
    assert_eq!(chunks[1].id, 1);
    assert_eq!(chunks[2].id, 2);
    assert_eq!(chunks[0].data, vec![0, 1, 2, 3]);
    assert_eq!(chunks[1].data, vec![4, 5, 6, 7]);
    assert_eq!(chunks[2].data, vec![8, 9]);
}

#[test]
fn fixed_chunker_edge_cases() {
    assert!(FixedChunker::new(16).chunk_data(&[]).unwrap().is_empty());
    assert!(FixedChunker::new(0).chunk_data(&[1, 2, 3]).unwrap().is_empty());
    let one = FixedChunker::new(3).chunk_data(&[1, 2, 3]).unwrap();
    assert_eq!(one.len(), 1);
    let chunk = Chunk::new(7, vec![1, 2]);
    assert_eq!(chunk.id, 7);
    assert_eq!(chunk.size(), 2);
}

fn entropy_microbits(data: &[u8]) -> u32 {
    if data.is_empty() {
        return 0;
    }
    let mut counts = [0u32; 256];
    for &byte in data {
        counts[byte as usize] += 1;
    }
    let total = data.len() as f64;
    let mut entropy = 0.0f64;
    for &count in counts.iter() {
        if count > 0 {
            let p = count as f64 / total;
            entropy -= p * p.log2();
        }
    }
    (entropy * 1_000_000.0).round() as u32
}

fn adaptive_chunks(chunker: &AdaptiveChunker, data: &[u8], block_size: usize) -> Vec<Chunk> {
    let mut chunks = Vec::new();
    let mut current = Vec::new();
    for block in data.chunks(block_size) {
        let mut offset = 0;
        while offset < block.len() {
            let available = &block[offset..];
            let entropy = entropy_microbits(chunker.sample(available));
            let step = chunker.advance(&mut current, available, entropy);
            assert!(step.taken >= 1);
            if step.complete && !current.is_empty() {
                chunks.push(Chunk::new(chunks.len() as u32, std::mem::take(&mut current)));
            }
            offset += step.taken;
        }
    }
    if !current.is_empty() {
        chunks.push(Chunk::new(chunks.len() as u32, current));
    }
    chunks
}

#[test]
fn test_adaptive_chunker() {
    let chunker = AdaptiveChunker::new(1024, 8192);
    let data = b"Hello, world! This is a test of adaptive chunking.".repeat(100);

    let chunks = adaptive_chunks(&chunker, &data, 8192);
    assert!(!chunks.is_empty());

    for chunk in &chunks {
        assert!(chunk.size() >= 1024 || chunk.size() <= 8192);
    }
}

#[test]
fn adaptive_chunks_hold_the_input_in_order() {
    let chunker = AdaptiveChunker::new(1024, 8192);
    let data = b"Hello, world! This is a test of adaptive chunking.".repeat(100);
    let chunks = adaptive_chunks(&chunker, &data, 8192);
    let mut joined = Vec::new();
    for (i, chunk) in chunks.iter().enumerate() {
        assert_eq!(chunk.id as usize, i);
        joined.extend_from_slice(&chunk.data);
    }
    assert_eq!(joined, data);
    // Dense text: steps of half the target size, and a cut where the chunk
    // reaches the target size.
    assert_eq!(chunks.len(), 2);
    assert_eq!(chunks[0].size(), 4608);
    assert_eq!(chunks[1].size(), 392);
}

#[test]
fn adaptive_step_sizes() {
    let chunker = AdaptiveChunker::new(1024, 8192);
    // A block shorter than the smallest step is taken whole.
    assert_eq!(chunker.determine_chunk_size(1000, 5_000_000), 1000);
    assert_eq!(chunker.determine_chunk_size(0, 0), 0);
    // Dense content: half the target size of 4608.
    assert_eq!(chunker.determine_chunk_size(5000, 700_001), 2304);
    // Sparse content: twice the target size, capped by the largest step.
    assert_eq!(chunker.determine_chunk_size(5000, 700_000), 8192);
    assert_eq!(chunker.determine_chunk_size(1024, 0), 8192);
    // The smallest step wins over half the target size.
    let narrow = AdaptiveChunker::new(4000, 4100);
    assert_eq!(narrow.determine_chunk_size(5000, 8_000_000), 4000);
    assert_eq!(narrow.determine_chunk_size(5000, 0), 4100);
    // Sizes near the largest number do not overflow.
    let huge = AdaptiveChunker::new(usize::MAX, usize::MAX);
    assert_eq!(huge.determine_chunk_size(usize::MAX, 0), usize::MAX);
    assert_eq!(huge.determine_chunk_size(usize::MAX, 8_000_000), usize::MAX);
}

#[test]
fn adaptive_natural_boundaries() {
    let chunker = AdaptiveChunker::new(1024, 8192);
    assert!(chunker.is_natural_boundary(b"{\"a\": 1}\n"));
    assert!(chunker.is_natural_boundary(b"[1, 2]\r"));
    assert!(chunker.is_natural_boundary(b"}\t"));
    assert!(chunker.is_natural_boundary(b"]\n"));
    assert!(chunker.is_natural_boundary(b"<a/>\n"));
    assert!(chunker.is_natural_boundary(b"<a/>\r"));
    assert!(chunker.is_natural_boundary(&[7, 0]));
    assert!(!chunker.is_natural_boundary(b">\t"));
    assert!(!chunker.is_natural_boundary(b"}"));
    assert!(!chunker.is_natural_boundary(&[0]));
    assert!(!chunker.is_natural_boundary(b""));
    assert!(!chunker.is_natural_boundary(b"} "));
    assert!(!chunker.is_natural_boundary(b"ab"));
}

#[test]
fn adaptive_sample_is_the_front_of_the_block() {
    let chunker = AdaptiveChunker::new(1024, 8192);
    let block: Vec<u8> = (0..3000u32).map(|i| (i % 251) as u8).collect();
    assert_eq!(chunker.sample(&block), &block[..1024]);
    assert_eq!(chunker.sample(&block[..10]), &block[..10]);
    assert!(chunker.sample(&[]).is_empty());
}

#[test]
fn adaptive_advance_moves_bytes_and_reports() {
    let chunker = AdaptiveChunker::new(4, 16);
    // The target size is 10; dense steps are of 5 bytes, sparse steps of 16.
    let block: Vec<u8> = (1..=12u8).collect();
    let mut current = Vec::new();
    let step = chunker.advance(&mut current, &block, 3_000_000);
    assert_eq!(step, ChunkStep { taken: 5, complete: false });
    assert_eq!(current, vec![1, 2, 3, 4, 5]);
    let step = chunker.advance(&mut current, &block[5..], 3_000_000);
    assert_eq!(step, ChunkStep { taken: 5, complete: true });
    assert_eq!(current, (1..=10u8).collect::<Vec<u8>>());
    // A block that ends before the step does completes the chunk.
    let mut current = Vec::new();
    let step = chunker.advance(&mut current, &block[..8], 0);
    assert_eq!(step, ChunkStep { taken: 8, complete: true });
    // A short block is taken whole; it completes nothing by itself.
    let mut current = Vec::new();
    let step = chunker.advance(&mut current, &[1, 2, 3], 0);
    assert_eq!(step, ChunkStep { taken: 3, complete: false });
    // A natural boundary completes the chunk.
    let mut current = Vec::new();
    let step = chunker.advance(&mut current, &[1, 2, 0], 0);
    assert_eq!(step, ChunkStep { taken: 3, complete: true });
    // Nothing is taken from an empty block.
    let mut current = vec![9];
    let step = chunker.advance(&mut current, &[], 0);
    assert_eq!(step, ChunkStep { taken: 0, complete: false });
    assert_eq!(current, vec![9]);
}
