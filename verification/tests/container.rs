use hlc::config::{ChecksumType, HlcConfig};
use hlc::container::{calculate_checksum, read_hlc_container, verify_container, write_hlc_container};
use hlc::container::{CompressedChunk, ContainerHeader, PipelineFlags, DELTA, ENTROPY, RLE, STORED};
use hlc::error::HlcError;

#[test]
fn test_container_header_roundtrip() {
    let original = ContainerHeader::new(ChecksumType::CRC32, 5);
    let mut buffer = Vec::new();
    original.write(&mut buffer).unwrap();
    let decoded = ContainerHeader::read(&buffer).unwrap();
    assert_eq!(original.version, decoded.version);
    assert_eq!(original.checksum_type, decoded.checksum_type);
    assert_eq!(original.chunk_count, decoded.chunk_count);
}

#[test]
fn test_pipeline_flags() {
    let flags = PipelineFlags::rle().union(PipelineFlags::delta()).union(PipelineFlags::entropy());
    assert!(flags.contains(PipelineFlags::rle()));
    assert!(flags.contains(PipelineFlags::delta()));
    assert!(flags.contains(PipelineFlags::entropy()));
    assert!(!flags.contains(PipelineFlags::stored()));
    let bits = flags.bits();
    let restored = PipelineFlags::from_bits_truncate(bits);
    assert_eq!(flags, restored);
    assert_eq!(bits, RLE | DELTA | ENTROPY);
}

#[test]
fn test_checksum_calculation() {
    let data = b"Hello, world!";
    let crc32 = calculate_checksum(data, ChecksumType::CRC32);
    let sha256 = calculate_checksum(data, ChecksumType::SHA256);
    assert_ne!(crc32, sha256);
    assert_eq!(crc32, calculate_checksum(data, ChecksumType::CRC32));
    assert_eq!(sha256, calculate_checksum(data, ChecksumType::SHA256));
}

#[test]
fn test_compressed_chunk() {
    let data = b"Test data for compression".to_vec();
    let checksum = calculate_checksum(&data, ChecksumType::CRC32);
    let chunk = CompressedChunk::new(0, data.clone(), data.len(), checksum);
    assert_eq!(chunk.original_size as usize, data.len());
    assert_eq!(chunk.compressed_size as usize, data.len());
    let config = HlcConfig::default();
    let decompressed = chunk.decompress(&config).unwrap();
    assert_eq!(decompressed.data, data);
}

#[test]
fn checksum_known_values() {
    assert_eq!(calculate_checksum(b"123456789", ChecksumType::CRC32), 0xCBF43926);
    assert_eq!(calculate_checksum(b"", ChecksumType::CRC32), 0);
    assert_eq!(calculate_checksum(b"", ChecksumType::SHA256), 0x141cfc9842c4b0e3);
    assert_eq!(calculate_checksum(b"abc", ChecksumType::SHA256), 0xeacf018fbf1678ba);
}

#[test]
fn header_has_the_documented_layout() {
    let mut header = ContainerHeader::new(ChecksumType::SHA256, 3);
    header.original_size = 0x0102030405060708;
    header.compressed_size = 0x1112131415161718;
    let mut buffer = vec![0xEE];
    header.write(&mut buffer).unwrap();
    let expected: Vec<u8> = vec![
        0xEE, b'H', b'L', b'C', b'1', 1, 1, 3, 0, 0, 0, 8, 7, 6, 5, 4, 3, 2, 1, 0x18, 0x17, 0x16, 0x15, 0x14,
        0x13, 0x12, 0x11, 0, 0, 0, 0,
    ];
    assert_eq!(buffer, expected);
    assert_eq!(ContainerHeader::size(), 30);
    let read = ContainerHeader::read(&buffer[1..]).unwrap();
    assert_eq!(read.checksum_type, ChecksumType::SHA256);
    assert_eq!(read.chunk_count, 3);
    assert_eq!(read.original_size, 0x0102030405060708);
    assert_eq!(read.compressed_size, 0x1112131415161718);
    assert_eq!(read.flags, 0);
}

fn valid_header() -> Vec<u8> {
    let mut buffer = Vec::new();
    ContainerHeader::new(ChecksumType::CRC32, 0).write(&mut buffer).unwrap();
    buffer
}

#[test]
fn header_read_rejects_bad_magic_version_and_checksum() {
    let good = valid_header();
    for at in 0..4 {
        let mut bad = good.clone();
        bad[at] ^= 0x20;
        assert!(matches!(ContainerHeader::read(&bad), Err(HlcError::InvalidFormat(_))));
    }
    let mut bad = good.clone();
    bad[4] = 2;
    assert!(matches!(ContainerHeader::read(&bad), Err(HlcError::InvalidFormat(_))));
    let mut bad = good.clone();
    bad[5] = 2;
    assert!(matches!(ContainerHeader::read(&bad), Err(HlcError::InvalidFormat(_))));
}

#[test]
fn header_read_reports_short_input_as_io() {
    let good = valid_header();
    for len in [0usize, 3, 4, 5, 29] {
        assert!(matches!(ContainerHeader::read(&good[..len]), Err(HlcError::Io(_))));
    }
    assert!(matches!(ContainerHeader::read(b"XYZ"), Err(HlcError::Io(_))));
    assert!(matches!(ContainerHeader::read(b"XYZ1"), Err(HlcError::InvalidFormat(_))));
}

fn stored(id: usize, data: &[u8]) -> CompressedChunk {
    CompressedChunk::new(id, data.to_vec(), data.len(), calculate_checksum(data, ChecksumType::CRC32))
}

#[test]
fn container_roundtrip_with_exact_bytes() {
    let chunks = vec![stored(0, b"ab"), stored(1, b""), stored(2, b"xyz")];
    let config = HlcConfig::default();
    let mut buffer = Vec::new();
    let written = write_hlc_container(&mut buffer, &chunks, &config).unwrap();
    assert_eq!(written as usize, buffer.len());
    assert_eq!(buffer.len(), 30 + 3 * 17 + 5);
    assert_eq!(&buffer[6..10], &[3, 0, 0, 0]);
    assert_eq!(&buffer[10..18], &[5, 0, 0, 0, 0, 0, 0, 0]);
    assert_eq!(&buffer[18..26], &[5, 0, 0, 0, 0, 0, 0, 0]);
    assert_eq!(buffer[30], STORED);
    assert_eq!(&buffer[31..35], &[2, 0, 0, 0]);
    assert_eq!(&buffer[35..39], &[2, 0, 0, 0]);
    assert_eq!(&buffer[47..49], b"ab");
    let (read, read_config) = read_hlc_container(&buffer, None).unwrap();
    assert_eq!(read_config.checksum, ChecksumType::CRC32);
    assert_eq!(read.len(), 3);
    for (i, chunk) in read.iter().enumerate() {
        assert_eq!(chunk.id, i);
        assert_eq!(chunk.flags, chunks[i].flags);
        assert_eq!(chunk.original_size, chunks[i].original_size);
        assert_eq!(chunk.compressed_size, chunks[i].compressed_size);
        assert_eq!(chunk.original_checksum, chunks[i].original_checksum);
        assert_eq!(chunk.data, chunks[i].data);
    }
    assert!(verify_container(&buffer).unwrap());
}

#[test]
fn container_read_reports_truncation() {
    let chunks = vec![stored(0, b"abcdef")];
    let mut buffer = Vec::new();
    write_hlc_container(&mut buffer, &chunks, &HlcConfig::default()).unwrap();
    assert!(matches!(read_hlc_container(&buffer[..30 + 16], None), Err(HlcError::Io(_))));
    assert!(matches!(read_hlc_container(&buffer[..30], None), Err(HlcError::Io(_))));
    assert!(matches!(read_hlc_container(&buffer[..30 + 17], None), Err(HlcError::InvalidFormat(_))));
    assert!(matches!(read_hlc_container(&buffer[..buffer.len() - 1], None), Err(HlcError::InvalidFormat(_))));
    let mut extended = buffer.clone();
    extended.extend_from_slice(b"trailing bytes are ignored");
    assert_eq!(read_hlc_container(&extended, None).unwrap().0.len(), 1);
}

#[test]
fn container_read_honours_the_output_limit() {
    let chunks = vec![stored(0, b"abcd"), stored(1, b"efgh")];
    let mut buffer = Vec::new();
    write_hlc_container(&mut buffer, &chunks, &HlcConfig::default()).unwrap();
    assert!(read_hlc_container(&buffer, Some(8)).is_ok());
    assert!(read_hlc_container(&buffer, Some(100)).is_ok());
    assert!(matches!(read_hlc_container(&buffer, Some(7)), Err(HlcError::DecompressionError(_))));
    assert!(matches!(read_hlc_container(&buffer, Some(3)), Err(HlcError::DecompressionError(_))));
    assert!(matches!(read_hlc_container(&buffer, Some(0)), Err(HlcError::DecompressionError(_))));
}

#[test]
fn chunk_decompress_checks_size_and_checksum() {
    let config = HlcConfig::default();
    let mut chunk = stored(0, b"payload");
    chunk.original_size = 6;
    assert!(matches!(chunk.decompress(&config), Err(HlcError::DecompressionError(_))));
    let mut chunk = stored(0, b"payload");
    chunk.original_checksum ^= 1;
    assert!(matches!(chunk.decompress(&config), Err(HlcError::ChecksumMismatch)));
    let mut chunk = stored(0, b"payload");
    chunk.flags = PipelineFlags::entropy();
    assert!(matches!(chunk.decompress(&config), Err(HlcError::DecompressionError(_))));
}

#[test]
fn chunk_decompress_undoes_transforms_in_reverse_order() {
    let original = vec![5u8, 5, 5, 0, 0, 0, 0, 9];
    let after_rle = hlc::transforms::rle::encode(&original);
    let after_delta = hlc::transforms::delta::encode(&after_rle);
    let chunk = CompressedChunk {
        id: 3,
        flags: PipelineFlags::from_bits_truncate(RLE | DELTA),
        original_checksum: calculate_checksum(&original, ChecksumType::CRC32),
        original_size: original.len() as u32,
        compressed_size: after_delta.len() as u32,
        data: after_delta,
    };
    let raw = chunk.decompress(&HlcConfig::default()).unwrap();
    assert_eq!(raw.id, 3);
    assert_eq!(raw.data, original);
}

#[test]
fn flags_insert_and_empty() {
    let mut flags = PipelineFlags::empty();
    assert!(flags.is_empty());
    flags.insert(PipelineFlags::dictionary());
    assert!(!flags.is_empty());
    assert_eq!(flags.bits(), 0x10);
    assert!(flags.contains(PipelineFlags::empty()));
    assert_eq!(PipelineFlags::stored().bits(), 1);
    assert_eq!(PipelineFlags::entropy().bits(), 2);
    assert_eq!(PipelineFlags::rle().bits(), 4);
    assert_eq!(PipelineFlags::delta().bits(), 8);
}

#[test]
fn container_header_names_a_wrong_version() {
    let mut bytes = Vec::new();
    ContainerHeader::new(ChecksumType::CRC32, 0).write(&mut bytes).unwrap();
    bytes[4] = 9;
    match ContainerHeader::read(&bytes) {
        Err(HlcError::InvalidFormat(text)) => assert_eq!(text, "Unsupported version: 9"),
        other => panic!("unexpected result: {:?}", other),
    }
}

#[test]
fn verify_container_tells_corrupt_content_from_a_bad_container() {
    let data = b"stored as it is".to_vec();
    let checksum = calculate_checksum(&data, ChecksumType::CRC32);
    let chunk = CompressedChunk::new(0, data.clone(), data.len(), checksum ^ 1);
    let mut buffer = Vec::new();
    write_hlc_container(&mut buffer, &[chunk], &HlcConfig::default()).unwrap();
    assert_eq!(verify_container(&buffer).unwrap(), false);
    let good = CompressedChunk::new(0, data.clone(), data.len(), checksum);
    let mut buffer = Vec::new();
    write_hlc_container(&mut buffer, &[good], &HlcConfig::default()).unwrap();
    assert_eq!(verify_container(&buffer).unwrap(), true);
    let cut = &buffer[..buffer.len() - 3];
    assert!(matches!(verify_container(cut), Err(HlcError::InvalidFormat(_)) | Err(HlcError::Io(_))));
    buffer[0] = b'X';
    assert!(matches!(verify_container(&buffer), Err(HlcError::InvalidFormat(_))));
}
