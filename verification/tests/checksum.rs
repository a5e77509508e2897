use hlc::checksum::{digests_equal, ChecksumCalculator, ChecksumResult, ChecksumType, ChecksumUtils};
use hlc::error::HlcError;

#[test]
fn test_crc32_calculation() {
    let calculator = ChecksumCalculator::new(ChecksumType::Crc32);
    let data = b"Hello, world!";
    let result = calculator.calculate(data).unwrap();
    match result {
        ChecksumResult::Crc32(crc) => {
            assert_eq!(crc, ChecksumUtils::crc32(data));
        }
        _ => panic!("Expected CRC32 result"),
    }
}

#[test]
fn test_sha256_calculation() {
    let calculator = ChecksumCalculator::new(ChecksumType::Sha256);
    let data = b"Hello, world!";
    let result = calculator.calculate(data).unwrap();
    match result {
        ChecksumResult::Sha256(hash) => {
            assert_eq!(hash, ChecksumUtils::sha256(data));
        }
        _ => panic!("Expected SHA256 result"),
    }
}

#[test]
fn test_checksum_verification() {
    let calculator = ChecksumCalculator::new(ChecksumType::Crc32);
    let data = b"Hello, world!";
    let result = calculator.calculate(data).unwrap();
    assert!(calculator.verify(data, &result).unwrap());
    let wrong_data = b"Hello, world?";
    assert!(!calculator.verify(wrong_data, &result).unwrap());
}

#[test]
fn test_checksum_result_serialization() {
    let data = b"Test data";
    let crc32 = ChecksumUtils::crc32(data);
    let sha256 = ChecksumUtils::sha256(data);
    let crc_result = ChecksumResult::Crc32(crc32);
    let sha_result = ChecksumResult::Sha256(sha256);
    let crc_bytes = crc_result.as_bytes();
    let sha_bytes = sha_result.as_bytes();
    assert_eq!(crc_bytes.len(), 4);
    assert_eq!(sha_bytes.len(), 32);
    let crc_deserialized = ChecksumResult::from_bytes(ChecksumType::Crc32, &crc_bytes).unwrap();
    let sha_deserialized = ChecksumResult::from_bytes(ChecksumType::Sha256, &sha_bytes).unwrap();
    assert_eq!(crc_result, crc_deserialized);
    assert_eq!(sha_result, sha_deserialized);
}

#[test]
fn test_checksum_size() {
    let crc_result = ChecksumResult::Crc32(0x12345678);
    let sha_result = ChecksumResult::Sha256([0u8; 32]);
    assert_eq!(crc_result.size(), 4);
    assert_eq!(sha_result.size(), 32);
}

#[test]
fn checksum_known_digests() {
    assert_eq!(ChecksumUtils::crc32(b"123456789"), 0xCBF43926);
    let hash = ChecksumUtils::sha256(b"abc");
    assert_eq!(
        hash,
        [
            0xba, 0x78, 0x16, 0xbf, 0x8f, 0x01, 0xcf, 0xea, 0x41, 0x41, 0x40, 0xde, 0x5d, 0xae, 0x22, 0x23, 0xb0,
            0x03, 0x61, 0xa3, 0x96, 0x17, 0x7a, 0x9c, 0xb4, 0x10, 0xff, 0x61, 0xf2, 0x00, 0x15, 0xad
        ]
    );
    let (crc, sha) = ChecksumUtils::calculate_both(b"abc");
    assert_eq!(crc, ChecksumUtils::crc32(b"abc"));
    assert_eq!(sha, hash);
}

#[test]
fn checksum_verify_functions() {
    assert!(ChecksumUtils::verify_crc32(b"123456789", 0xCBF43926));
    assert!(!ChecksumUtils::verify_crc32(b"123456789", 0xCBF43927));
    let hash = ChecksumUtils::sha256(b"abc");
    assert!(ChecksumUtils::verify_sha256(b"abc", &hash));
    assert!(!ChecksumUtils::verify_sha256(b"abd", &hash));
    let mut other = hash;
    other[31] ^= 1;
    assert!(!digests_equal(&hash, &other));
    assert!(digests_equal(&hash, &hash));
}

#[test]
fn checksum_result_bytes_and_types() {
    let crc = ChecksumResult::Crc32(0x12345678);
    assert_eq!(crc.as_bytes(), vec![0x78, 0x56, 0x34, 0x12]);
    assert_eq!(crc.checksum_type(), ChecksumType::Crc32);
    let sha = ChecksumResult::Sha256([7u8; 32]);
    assert_eq!(sha.as_bytes(), vec![7u8; 32]);
    assert_eq!(sha.checksum_type(), ChecksumType::Sha256);
    assert!(crc.same_as(&ChecksumResult::Crc32(0x12345678)));
    assert!(!crc.same_as(&ChecksumResult::Crc32(0x12345679)));
    assert!(!crc.same_as(&sha));
    assert!(sha.same_as(&ChecksumResult::Sha256([7u8; 32])));
}

#[test]
fn checksum_from_bytes_rejects_wrong_lengths() {
    assert!(matches!(
        ChecksumResult::from_bytes(ChecksumType::Crc32, &[1, 2, 3]),
        Err(HlcError::InvalidFormat(_))
    ));
    assert!(matches!(
        ChecksumResult::from_bytes(ChecksumType::Crc32, &[1, 2, 3, 4, 5]),
        Err(HlcError::InvalidFormat(_))
    ));
    assert!(matches!(
        ChecksumResult::from_bytes(ChecksumType::Sha256, &[0u8; 31]),
        Err(HlcError::InvalidFormat(_))
    ));
    assert_eq!(
        ChecksumResult::from_bytes(ChecksumType::Crc32, &[1, 2, 3, 4]).unwrap(),
        ChecksumResult::Crc32(0x04030201)
    );
}

#[test]
fn sha256_calculator_verifies() {
    let calculator = ChecksumCalculator::new(ChecksumType::Sha256);
    let result = calculator.calculate(b"payload").unwrap();
    assert!(calculator.verify(b"payload", &result).unwrap());
    assert!(!calculator.verify(b"payloae", &result).unwrap());
    let crc = ChecksumCalculator::new(ChecksumType::Crc32).calculate(b"payload").unwrap();
    assert!(!calculator.verify(b"payload", &crc).unwrap());
}

#[test]
fn test_streaming_calculator() {
    let mut calculator = hlc::checksum::StreamingChecksumCalculator::new(ChecksumType::Crc32);
    calculator.update(b"Hello, ");
    calculator.update(b"world!");
    let result = calculator.finalize().unwrap();
    let expected = ChecksumUtils::crc32(b"Hello, world!");
    match result {
        ChecksumResult::Crc32(crc) => assert_eq!(crc, expected),
        _ => panic!("Expected CRC32 result"),
    }
}

#[test]
fn streaming_sha256_equals_one_shot() {
    let mut calculator = hlc::checksum::StreamingChecksumCalculator::new(ChecksumType::Sha256);
    calculator.update(b"a");
    calculator.update(b"");
    calculator.update(b"bc");
    assert_eq!(calculator.finalize().unwrap(), ChecksumResult::Sha256(ChecksumUtils::sha256(b"abc")));
    let empty = hlc::checksum::StreamingChecksumCalculator::new(ChecksumType::Crc32);
    assert_eq!(empty.finalize().unwrap(), ChecksumResult::Crc32(0));
}
