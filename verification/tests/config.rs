use hlc::compressor::{mode_from_lowercase, parse_mode, CompressionMode, Config, HLCCompressor};
use hlc::config::{ChecksumType, HlcConfig, HlcMode};
use hlc::error::{ErrorKind, HlcError};

#[test]
fn default_config() {
    let config = HlcConfig::new();
    assert_eq!(config.mode, HlcMode::Balanced);
    assert_eq!(config.checksum, ChecksumType::CRC32);
    assert!(config.threads >= 1);
    assert_eq!(config.chunk_size, 1024 * 1024);
    assert_eq!(config.entropy_level, 5);
}

#[test]
fn builders_adjust_and_clamp() {
    let config = HlcConfig::new().with_mode(HlcMode::Max);
    assert_eq!(config.mode, HlcMode::Max);
    assert_eq!(config.entropy_level, 19);
    assert_eq!(config.clone().with_mode(HlcMode::Balanced).entropy_level, 5);
    assert_eq!(config.clone().with_threads(0).threads, 1);
    assert_eq!(config.clone().with_threads(7).threads, 7);
    assert_eq!(config.clone().with_chunk_size(10).chunk_size, 1024);
    assert_eq!(config.clone().with_chunk_size(1023).chunk_size, 1024);
    assert_eq!(config.clone().with_chunk_size(4096).chunk_size, 4096);
    assert_eq!(config.clone().with_checksum(ChecksumType::SHA256).checksum, ChecksumType::SHA256);
}

#[test]
fn mode_and_checksum_names() {
    assert_eq!(HlcMode::parse("balanced").unwrap(), HlcMode::Balanced);
    assert_eq!(HlcMode::parse("MAX").unwrap(), HlcMode::Max);
    assert_eq!("Max".parse::<HlcMode>().unwrap(), HlcMode::Max);
    assert!(matches!(HlcMode::parse("fastest"), Err(HlcError::ConfigError(_))));
    assert!(matches!(HlcMode::from_lowercase("MAX"), Err(HlcError::ConfigError(_))));
    assert_eq!(ChecksumType::parse("Crc32").unwrap(), ChecksumType::CRC32);
    assert_eq!("SHA256".parse::<ChecksumType>().unwrap(), ChecksumType::SHA256);
    assert!(matches!(ChecksumType::parse("md5"), Err(HlcError::ConfigError(_))));
    assert_eq!(ChecksumType::CRC32.id(), 0);
    assert_eq!(ChecksumType::SHA256.id(), 1);
}

#[test]
fn stream_compressor_settings() {
    assert_eq!(parse_mode("fast").unwrap(), CompressionMode::Fast);
    assert_eq!(parse_mode("Balanced").unwrap(), CompressionMode::Balanced);
    assert_eq!(parse_mode("MAX").unwrap(), CompressionMode::Max);
    assert!(matches!(parse_mode("slow"), Err(HlcError::ConfigError(_))));
    assert!(matches!(mode_from_lowercase("Fast"), Err(HlcError::ConfigError(_))));
    let config = Config::default();
    assert_eq!(config.mode, CompressionMode::Balanced);
    assert!(config.threads >= 1);
    assert!(!config.enable_sha256);
    assert!(!config.enable_encryption);
    assert_eq!(config.chunk_size_min, 1024);
    assert_eq!(config.chunk_size_max, 65536);
    let compressor = HLCCompressor::new(config);
    assert_eq!(compressor.settings().chunk_size_max, 65536);
}

#[test]
fn error_kinds_and_messages() {
    assert_eq!(HlcError::ChecksumMismatch.kind(), ErrorKind::ChecksumMismatch);
    assert_eq!(HlcError::Io("short".to_string()).kind(), ErrorKind::Io);
    assert_eq!(HlcError::ChecksumMismatch.message(), "Data integrity check failed: checksum mismatch");
    assert_eq!(HlcError::Io("short read".to_string()).message(), "I/O error: short read");
    assert_eq!(
        HlcError::InvalidFormat("Invalid magic number".to_string()).message(),
        "Invalid HLC container format: Invalid magic number"
    );
    assert_eq!(HlcError::CompressionError("x".to_string()).message(), "Compression failed: x");
    assert_eq!(HlcError::DecompressionError("x".to_string()).message(), "Decompression failed: x");
    assert_eq!(HlcError::ConfigError("x".to_string()).message(), "Configuration error: x");
    assert_eq!(HlcError::PipelineError("x".to_string()).message(), "Pipeline processing error: x");
    assert_eq!(HlcError::TransformError("x".to_string()).message(), "Transform error: x");
    assert_eq!(HlcError::ThreadPoolError("x".to_string()).message(), "Thread pool initialization error: x");
    match HlcMode::parse("quick") {
        Err(e) => assert_eq!(e.message(), "Configuration error: Invalid mode: quick"),
        Ok(_) => panic!("an unknown mode was accepted"),
    }
}
