//! Integrity tags: CRC32 and SHA-256.

use vstd::prelude::*;
use sha2::Digest;
use crate::endian::{append, lemma_u32_roundtrip, push_u32, read_u32, u32_bytes};
use crate::error::HlcError;

verus! {

/// The CRC32 (IEEE) of a byte sequence.
pub uninterp spec fn crc32_of(data: Seq<u8>) -> u32;

/// The SHA-256 digest of a byte sequence.
pub uninterp spec fn sha256_of(data: Seq<u8>) -> Seq<u8>;

/// The algorithms for integrity tags.
#[derive(Debug, Clone, Copy, PartialEq, Eq, Structural)]
pub enum ChecksumType {
    Crc32,
    Sha256,
}

/// An integrity tag.
#[derive(Debug, Clone, PartialEq, Eq)]
pub enum ChecksumResult {
    Crc32(u32),
    Sha256([u8; 32]),
}

/// Computes tags of one algorithm.
pub struct ChecksumCalculator {
    checksum_type: ChecksumType,
}

/// One-shot tag functions.
pub struct ChecksumUtils;

/// Whether two digests hold the same bytes.
pub fn digests_equal(a: &[u8; 32], b: &[u8; 32]) -> (same: bool)
    ensures
        same == (a@ == b@),
{
    let mut i: usize = 0;
    while i < 32
        invariant
            i <= 32,
            forall|j: int| 0 <= j < i ==> a@[j] == b@[j],
        decreases 32 - i,
    {
        if a[i] != b[i] {
            return false;
        }
        i += 1;
    }
    assert(a@ =~= b@);
    true
}

impl ChecksumUtils {
    /// `crc32fast::hash`: the CRC32 of `data`, which depends on `data` alone.
    #[verifier::external_body]
    pub fn crc32(data: &[u8]) -> (crc: u32)
        ensures
            crc == crc32_of(data@),
    {
        crc32fast::hash(data)
    }

    /// `Sha256::digest` of the crate sha2: the SHA-256 digest of `data`, which
    /// depends on `data` alone.
    #[verifier::external_body]
    pub fn sha256(data: &[u8]) -> (hash: [u8; 32])
        ensures
            hash@ == sha256_of(data@),
    {
        sha2::Sha256::digest(data).into()
    }

    /// Whether `expected` is the CRC32 of `data`.
    pub fn verify_crc32(data: &[u8], expected: u32) -> (ok: bool)
        ensures
            ok == (crc32_of(data@) == expected),
    {
        Self::crc32(data) == expected
    }

    /// Whether `expected` is the SHA-256 digest of `data`.
    pub fn verify_sha256(data: &[u8], expected: &[u8; 32]) -> (ok: bool)
        ensures
            ok == (sha256_of(data@) == expected@),
    {
        let hash = Self::sha256(data);
        digests_equal(&hash, expected)
    }

    /// Both tags of `data`.
    pub fn calculate_both(data: &[u8]) -> (tags: (u32, [u8; 32]))
        ensures
            tags.0 == crc32_of(data@),
            tags.1@ == sha256_of(data@),
    {
        (Self::crc32(data), Self::sha256(data))
    }
}

impl ChecksumResult {
    /// The algorithm of this tag.
    pub open spec fn type_spec(self) -> ChecksumType {
        match self {
            ChecksumResult::Crc32(_) => ChecksumType::Crc32,
            ChecksumResult::Sha256(_) => ChecksumType::Sha256,
        }
    }

    /// The bytes of this tag: a CRC32 least significant byte first, a digest as it is.
    pub open spec fn bytes_spec(self) -> Seq<u8> {
        match self {
            ChecksumResult::Crc32(crc) => u32_bytes(crc),
            ChecksumResult::Sha256(hash) => hash@,
        }
    }

    /// The number of bytes of a tag of each algorithm.
    pub open spec fn size_of(kind: ChecksumType) -> nat {
        match kind {
            ChecksumType::Crc32 => 4,
            ChecksumType::Sha256 => 32,
        }
    }

    /// The algorithm of this tag.
    pub fn checksum_type(&self) -> (kind: ChecksumType)
        ensures
            kind == self.type_spec(),
    {
        match self {
            ChecksumResult::Crc32(_) => ChecksumType::Crc32,
            ChecksumResult::Sha256(_) => ChecksumType::Sha256,
        }
    }

    /// The bytes of this tag.
    pub fn as_bytes(&self) -> (bytes: Vec<u8>)
        ensures
            bytes@ == self.bytes_spec(),
            bytes@.len() == Self::size_of(self.type_spec()),
    {
        let mut bytes: Vec<u8> = Vec::new();
        match self {
            ChecksumResult::Crc32(crc) => {
                push_u32(&mut bytes, *crc);
                assert(bytes@ =~= u32_bytes(*crc));
            },
            ChecksumResult::Sha256(hash) => {
                let mut i: usize = 0;
                while i < 32
                    invariant
                        i <= 32,
                        bytes@ == hash@.take(i as int),
                    decreases 32 - i,
                {
                    bytes.push(hash[i]);
                    i += 1;
                    assert(bytes@ =~= hash@.take(i as int));
                }
                assert(bytes@ =~= hash@);
            },
        }
        bytes
    }

    /// The tag of algorithm `checksum_type` that `bytes` holds. The length must be
    /// that of the algorithm: 4 bytes for CRC32, 32 for SHA-256.
    pub fn from_bytes(checksum_type: ChecksumType, bytes: &[u8]) -> (result: Result<Self, HlcError>)
        ensures
            bytes@.len() == Self::size_of(checksum_type) ==> result is Ok
                && result->Ok_0.type_spec() == checksum_type
                && result->Ok_0.bytes_spec() == bytes@,
            bytes@.len() != Self::size_of(checksum_type) ==> result is Err
                && result->Err_0 is InvalidFormat,
    {
        match checksum_type {
            ChecksumType::Crc32 => {
                if bytes.len() != 4 {
                    return Err(HlcError::InvalidFormat("Invalid CRC32 length".to_string()));
                }
                let crc: u32 = read_u32(bytes, 0);
                proof {
                    crate::endian::lemma_u32_bytes_of_read(bytes@, 0);
                    assert(bytes@.subrange(0, 4) =~= bytes@);
                }
                Ok(ChecksumResult::Crc32(crc))
            },
            ChecksumType::Sha256 => {
                if bytes.len() != 32 {
                    return Err(HlcError::InvalidFormat("Invalid SHA256 length".to_string()));
                }
                let mut hash: [u8; 32] = [0u8; 32];
                let mut i: usize = 0;
                while i < 32
                    invariant
                        i <= 32,
                        bytes@.len() == 32,
                        forall|j: int| 0 <= j < i ==> hash@[j] == bytes@[j],
                    decreases 32 - i,
                {
                    hash[i] = bytes[i];
                    i += 1;
                }
                assert(hash@ =~= bytes@);
                Ok(ChecksumResult::Sha256(hash))
            },
        }
    }

    /// The number of bytes of this tag.
    pub fn size(&self) -> (size: usize)
        ensures
            size == Self::size_of(self.type_spec()),
    {
        match self {
            ChecksumResult::Crc32(_) => 4,
            ChecksumResult::Sha256(_) => 32,
        }
    }

    /// Whether two tags are of the same algorithm and hold the same bytes.
    pub fn same_as(&self, other: &ChecksumResult) -> (same: bool)
        ensures
            same == (self.type_spec() == other.type_spec() && self.bytes_spec() == other.bytes_spec()),
    {
        match (self, other) {
            (ChecksumResult::Crc32(a), ChecksumResult::Crc32(b)) => {
                proof {
                    lemma_u32_roundtrip(*a);
                    lemma_u32_roundtrip(*b);
                }
                *a == *b
            },
            (ChecksumResult::Sha256(a), ChecksumResult::Sha256(b)) => digests_equal(a, b),
            _ => false,
        }
    }
}

/// The tag of `data` under each algorithm.
pub open spec fn tag_of(kind: ChecksumType, data: Seq<u8>) -> (ChecksumType, Seq<u8>) {
    match kind {
        ChecksumType::Crc32 => (kind, u32_bytes(crc32_of(data))),
        ChecksumType::Sha256 => (kind, sha256_of(data)),
    }
}

impl ChecksumCalculator {
    /// A calculator for one algorithm.
    pub fn new(checksum_type: ChecksumType) -> (calculator: Self)
        ensures
            calculator.kind() == checksum_type,
    {
        ChecksumCalculator { checksum_type }
    }

    /// The algorithm of this calculator.
    pub closed spec fn kind(self) -> ChecksumType {
        self.checksum_type
    }

    /// The tag of `data`. It never fails.
    pub fn calculate(&self, data: &[u8]) -> (result: Result<ChecksumResult, HlcError>)
        ensures
            result is Ok,
            (result->Ok_0.type_spec(), result->Ok_0.bytes_spec()) == tag_of(self.kind(), data@),
    {
        match self.checksum_type {
            ChecksumType::Crc32 => Ok(ChecksumResult::Crc32(ChecksumUtils::crc32(data))),
            ChecksumType::Sha256 => Ok(ChecksumResult::Sha256(ChecksumUtils::sha256(data))),
        }
    }

    /// Whether `expected` is the tag of `data` under this calculator's algorithm.
    /// It never fails.
    pub fn verify(&self, data: &[u8], expected: &ChecksumResult) -> (result: Result<bool, HlcError>)
        ensures
            result is Ok,
            result->Ok_0 == ((expected.type_spec(), expected.bytes_spec()) == tag_of(self.kind(), data@)),
    {
        match self.calculate(data) {
            Ok(calculated) => Ok(calculated.same_as(expected)),
            Err(e) => Err(e),
        }
    }
}

/// Computes the tag of data that comes in pieces. The pieces are kept until the
/// tag is asked for.
pub struct StreamingChecksumCalculator {
    checksum_type: ChecksumType,
    pending: Vec<u8>,
}

impl StreamingChecksumCalculator {
    /// The algorithm of this calculator.
    pub closed spec fn kind(self) -> ChecksumType {
        self.checksum_type
    }

    /// The bytes taken in so far.
    pub closed spec fn taken(self) -> Seq<u8> {
        self.pending@
    }

    /// A calculator for one algorithm that has taken in nothing yet.
    pub fn new(checksum_type: ChecksumType) -> (calculator: Self)
        ensures
            calculator.kind() == checksum_type,
            calculator.taken().len() == 0,
    {
        StreamingChecksumCalculator { checksum_type, pending: Vec::new() }
    }

    /// Takes in one more piece.
    pub fn update(&mut self, data: &[u8])
        ensures
            final(self).kind() == old(self).kind(),
            final(self).taken() == old(self).taken() + data@,
    {
        append(&mut self.pending, data);
    }

    /// The tag of all the pieces in a row. It never fails.
    pub fn finalize(self) -> (result: Result<ChecksumResult, HlcError>)
        ensures
            result is Ok,
            (result->Ok_0.type_spec(), result->Ok_0.bytes_spec()) == tag_of(self.kind(), self.taken()),
    {
        ChecksumCalculator::new(self.checksum_type).calculate(self.pending.as_slice())
    }
}

} // verus!
