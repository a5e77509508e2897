use hlc::chunker::Chunk;
use hlc::compressor::{Config, HLCCompressor};
use hlc::error::HlcError;
use hlc::headers::{ChunkHeader, GlobalHeader};
use hlc::io::{chunk_offsets, read_chunk_at};
use hlc::threadpool::{ChunkResult, RayonChunkProcessor};

fn results_of(parts: &[&[u8]]) -> Vec<ChunkResult> {
    let processor = RayonChunkProcessor::new();
    let mut results = Vec::new();
    for (i, part) in parts.iter().enumerate() {
        results.push(processor.process_chunk(Chunk::new(i as u32, part.to_vec()), 4_000_000).unwrap());
    }
    results
}

#[test]
fn assemble_writes_the_header_and_the_chunks() {
    let parts: [&[u8]; 3] = [b"first chunk of the stream", b"second", b"the third chunk, a little longer"];
    let results = results_of(&parts);
    let compressor = HLCCompressor::new(Config::default());
    let original: u64 = parts.iter().map(|p| p.len() as u64).sum();
    let bytes = compressor.assemble(&results, original).unwrap();

    let payloads: usize = results.iter().map(|r| r.compressed_data.len()).sum();
    assert_eq!(bytes.len(), 42 + 3 * 52 + payloads);

    let header = GlobalHeader::read(&bytes).unwrap();
    assert_eq!(&header.magic, b"HLC\x00\x01\x00\x00\x00");
    assert_eq!(header.version, 1);
    assert_eq!(header.flags, 0);
    assert_eq!(header.total_chunks, 3);
    assert_eq!(header.total_size, original);
    assert_eq!(header.compressed_size, payloads as u64);

    let mut at = 42;
    for result in &results {
        let chunk_header = ChunkHeader::read(&bytes[at..]).unwrap();
        assert_eq!(chunk_header.chunk_id, result.chunk_id);
        assert_eq!(chunk_header.original_size as usize, result.original_data.len());
        assert_eq!(chunk_header.compressed_size as usize, result.compressed_data.len());
        assert_eq!(chunk_header.crc32, result.header.crc32);
        at += 52;
        assert_eq!(&bytes[at..at + result.compressed_data.len()], &result.compressed_data[..]);
        at += result.compressed_data.len();
    }
    assert_eq!(at, bytes.len());
}

#[test]
fn assembled_chunks_are_found_again() {
    let parts: [&[u8]; 2] = [b"one one one one one one", b"two two two two"];
    let results = results_of(&parts);
    let compressor = HLCCompressor::new(Config::default());
    let bytes = compressor.assemble(&results, 38).unwrap();
    let offsets = chunk_offsets(&bytes, 2).unwrap();
    assert_eq!(offsets.len(), 2);
    assert_eq!(offsets[0], 42);
    assert_eq!(offsets[1], 42 + 52 + results[0].compressed_data.len() as u64);
    for (offset, result) in offsets.iter().zip(results.iter()) {
        let chunk = read_chunk_at(&bytes, *offset).unwrap();
        assert_eq!(chunk.chunk_id, result.chunk_id);
        assert_eq!(chunk.compressed_data, result.compressed_data);
    }
}

#[test]
fn assemble_of_no_chunks_is_a_header() {
    let compressor = HLCCompressor::new(Config::default());
    let bytes = compressor.assemble(&[], 0).unwrap();
    assert_eq!(bytes.len(), 42);
    let header = GlobalHeader::read(&bytes).unwrap();
    assert_eq!(header.total_chunks, 0);
    assert_eq!(header.total_size, 0);
    assert_eq!(header.compressed_size, 0);
    assert!(!matches!(compressor.assemble(&[], 7), Err(HlcError::PipelineError(_))));
}
