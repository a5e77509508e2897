use hlc::error::HlcError;
use hlc::headers::{ChunkHeader, GlobalHeader};
use hlc::io::{chunk_offsets, read_chunk_at, write_single_chunk, ChunkData, IOUtils};

fn chunk(id: u32, payload: &[u8]) -> ChunkData {
    ChunkData {
        chunk_id: id,
        original_data: Vec::new(),
        compressed_data: payload.to_vec(),
        header: ChunkHeader::new(id, 10, payload.len() as u32, 0, 0, 0x12345678 + id, None),
    }
}

fn stream() -> Vec<u8> {
    let mut bytes = Vec::new();
    GlobalHeader::new(2, 100, 50).write(&mut bytes).unwrap();
    write_single_chunk(&mut bytes, &chunk(0, b"data0")).unwrap();
    write_single_chunk(&mut bytes, &chunk(1, b"data1!")).unwrap();
    bytes
}

#[test]
fn test_streaming_reader() {
    let bytes = stream();
    let header = GlobalHeader::read(&bytes).unwrap();
    let offsets = chunk_offsets(&bytes, header.total_chunks).unwrap();
    let chunk0 = read_chunk_at(&bytes, offsets[0]).unwrap();
    assert_eq!(chunk0.chunk_id, 0);
    assert_eq!(chunk0.compressed_data, b"data0");
    let chunk1 = read_chunk_at(&bytes, offsets[1]).unwrap();
    assert_eq!(chunk1.chunk_id, 1);
    assert_eq!(chunk1.compressed_data, b"data1!");
    assert_eq!(offsets.len(), 2);
}

#[test]
fn stream_sizes_and_offsets() {
    assert_eq!(IOUtils::global_header_size(), 42);
    assert_eq!(IOUtils::chunk_header_size(), 52);
    let bytes = stream();
    assert_eq!(bytes.len(), 42 + 52 + 5 + 52 + 6);
    let header = GlobalHeader::read(&bytes).unwrap();
    let chunks = vec![chunk(0, b"data0"), chunk(1, b"data1!")];
    assert_eq!(IOUtils::estimate_file_size(&header, &chunks), bytes.len() as u64);
    assert_eq!(IOUtils::estimate_file_size(&header, &[]), 42);
    assert_eq!(chunk_offsets(&bytes, 2).unwrap(), vec![42, 42 + 52 + 5]);
    assert_eq!(chunk_offsets(&bytes, 0).unwrap(), Vec::<u64>::new());
    assert!(matches!(chunk_offsets(&bytes, 3), Err(HlcError::Io(_))));
    assert!(matches!(chunk_offsets(&bytes[..bytes.len() - 1], 2), Err(HlcError::Io(_))));
    assert!(matches!(read_chunk_at(&bytes, bytes.len() as u64), Err(HlcError::Io(_))));
    assert!(matches!(read_chunk_at(&bytes, u64::MAX), Err(HlcError::Io(_))));
    assert!(matches!(read_chunk_at(&bytes[..bytes.len() - 1], 42 + 52 + 5), Err(HlcError::Io(_))));
}

#[test]
fn test_ordered_writer() {
    let mut buffer = hlc::io::ReorderBuffer::new();
    let mut written = Vec::new();
    for ready in buffer.accept(chunk(1, b"compressed1")) {
        write_single_chunk(&mut written, &ready).unwrap();
    }
    assert!(written.is_empty());
    for ready in buffer.accept(chunk(0, b"compressed0")) {
        write_single_chunk(&mut written, &ready).unwrap();
    }
    for left in buffer.finish() {
        write_single_chunk(&mut written, &left).unwrap();
    }
    let mut expected = Vec::new();
    write_single_chunk(&mut expected, &chunk(0, b"compressed0")).unwrap();
    write_single_chunk(&mut expected, &chunk(1, b"compressed1")).unwrap();
    assert_eq!(written, expected);
}

fn ids(chunks: &[ChunkData]) -> Vec<u32> {
    chunks.iter().map(|c| c.chunk_id).collect()
}

#[test]
fn reorder_buffer_hands_on_without_gaps() {
    let mut buffer = hlc::io::ReorderBuffer::new();
    assert_eq!(ids(&buffer.accept(chunk(2, b"c"))), Vec::<u32>::new());
    assert_eq!(ids(&buffer.accept(chunk(4, b"e"))), Vec::<u32>::new());
    assert_eq!(ids(&buffer.accept(chunk(0, b"a"))), vec![0]);
    assert_eq!(ids(&buffer.accept(chunk(1, b"b"))), vec![1, 2]);
    assert_eq!(ids(&buffer.accept(chunk(6, b"g"))), Vec::<u32>::new());
    assert_eq!(ids(&buffer.accept(chunk(3, b"d"))), vec![3, 4]);
    assert_eq!(ids(&buffer.finish()), vec![6]);
}

#[test]
fn reorder_buffer_replaces_and_keeps_late_chunks() {
    let mut buffer = hlc::io::ReorderBuffer::new();
    assert!(buffer.accept(chunk(1, b"first")).is_empty());
    assert!(buffer.accept(chunk(1, b"second")).is_empty());
    let ready = buffer.accept(chunk(0, b"zero"));
    assert_eq!(ids(&ready), vec![0, 1]);
    assert_eq!(ready[1].compressed_data, b"second");
    assert!(buffer.accept(chunk(0, b"late")).is_empty());
    assert!(buffer.accept(chunk(2, b"stuck behind the late one")).is_empty());
    assert_eq!(ids(&buffer.finish()), vec![0, 2]);
    assert!(hlc::io::ReorderBuffer::new().finish().is_empty());
}
