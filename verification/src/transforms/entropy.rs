//! The entropy stage: a general-purpose coder (Zstandard) behind a small interface.
//!
//! The coder is treated as a black box. Its output for given bytes and level is
//! named, not described; what the library relies on is that decoding an encoded
//! frame gives the bytes back.

use vstd::prelude::*;
use crate::error::HlcError;
use crate::text::with_io_error;

verus! {

/// The frame that Zstandard produces for `data` at `level`, or `None` where it fails.
pub uninterp spec fn zstd_frame(data: Seq<u8>, level: i32) -> Option<Seq<u8>>;

/// The content that Zstandard recovers from `frame`, or `None` where it fails.
pub uninterp spec fn zstd_content(frame: Seq<u8>) -> Option<Seq<u8>>;

/// `zstd::encode_all` on a byte slice: the frame for `data` at `level`, which
/// depends on these two alone. Zstandard is lossless: the content of the frame
/// is `data`.
#[verifier::external_body]
pub(crate) fn zstd_encode_all(data: &[u8], level: i32) -> (result: Result<Vec<u8>, std::io::Error>)
    ensures
        result matches Ok(frame) ==> zstd_frame(data@, level) == Some(frame@) && zstd_content(frame@) == Some(data@),
        result is Err ==> zstd_frame(data@, level) is None,
{
    zstd::encode_all(data, level)
}

/// `zstd::decode_all` on a byte slice: the content of `frame`, which depends on
/// `frame` alone.
#[verifier::external_body]
pub(crate) fn zstd_decode_all(frame: &[u8]) -> (result: Result<Vec<u8>, std::io::Error>)
    ensures
        result matches Ok(content) ==> zstd_content(frame@) == Some(content@),
        result is Err ==> zstd_content(frame@) is None,
{
    zstd::decode_all(frame)
}

/// What `encode` returns for `data` at `level`: nothing for no data, else the
/// Zstandard frame. An empty frame counts as a failure, so that an encoding is
/// empty only for empty data.
pub open spec fn encode_spec(data: Seq<u8>, level: i32) -> Option<Seq<u8>> {
    if data.len() == 0 {
        Some(Seq::<u8>::empty())
    } else {
        match zstd_frame(data, level) {
            Some(frame) => if frame.len() > 0 { Some(frame) } else { None },
            None => None,
        }
    }
}

/// What `decode` returns for `data`: nothing for no data, else the content of the
/// Zstandard frame.
pub open spec fn decode_spec(data: Seq<u8>) -> Option<Seq<u8>> {
    if data.len() == 0 {
        Some(Seq::<u8>::empty())
    } else {
        zstd_content(data)
    }
}

/// Entropy-codes `data` at `level`. Empty data gives an empty result. Fails with
/// a compression error exactly where the coder does.
pub fn encode(data: &[u8], level: i32) -> (result: Result<Vec<u8>, HlcError>)
    ensures
        match encode_spec(data@, level) {
            Some(encoded) => result is Ok && result->Ok_0@ == encoded,
            None => result is Err && result->Err_0 is CompressionError,
        },
        result is Ok ==> decode_spec(result->Ok_0@) == Some(data@),
{
    if data.len() == 0 {
        let empty: Vec<u8> = Vec::new();
        assert(data@ =~= Seq::<u8>::empty());
        return Ok(empty);
    }
    match zstd_encode_all(data, level) {
        Ok(frame) => {
            if frame.len() == 0 {
                Err(HlcError::CompressionError("Entropy encoding failed: empty frame".to_string()))
            } else {
                Ok(frame)
            }
        },
        Err(e) => Err(HlcError::CompressionError(with_io_error("Entropy encoding failed: ", &e))),
    }
}

/// Inverts `encode`. Empty data gives an empty result. Fails with a
/// decompression error exactly where the coder does.
pub fn decode(data: &[u8]) -> (result: Result<Vec<u8>, HlcError>)
    ensures
        match decode_spec(data@) {
            Some(decoded) => result is Ok && result->Ok_0@ == decoded,
            None => result is Err && result->Err_0 is DecompressionError,
        },
{
    if data.len() == 0 {
        let empty: Vec<u8> = Vec::new();
        return Ok(empty);
    }
    match zstd_decode_all(data) {
        Ok(content) => Ok(content),
        Err(e) => Err(HlcError::DecompressionError(with_io_error("Entropy decoding failed: ", &e))),
    }
}

/// An entropy coder with a fixed level and an optional dictionary.
///
/// The dictionary is carried but not used yet: coding is the same with and without it.
pub struct EntropyEncoder {
    level: i32,
    dictionary: Option<Vec<u8>>,
}

impl EntropyEncoder {
    /// The level of this encoder.
    pub closed spec fn level(self) -> i32 {
        self.level
    }

    /// The dictionary of this encoder.
    pub closed spec fn dictionary(self) -> Option<Seq<u8>> {
        match self.dictionary {
            Some(d) => Some(d@),
            None => None,
        }
    }

    /// An encoder at `level` without a dictionary.
    pub fn new(level: i32) -> (encoder: Self)
        ensures
            encoder.level() == level,
            encoder.dictionary() is None,
    {
        EntropyEncoder { level, dictionary: None }
    }

    /// The same encoder with the dictionary `dict`.
    pub fn with_dictionary(self, dict: Vec<u8>) -> (encoder: Self)
        ensures
            encoder.level() == self.level(),
            encoder.dictionary() == Some(dict@),
    {
        EntropyEncoder { level: self.level, dictionary: Some(dict) }
    }

    /// Entropy-codes `data` at this encoder's level.
    pub fn encode(&self, data: &[u8]) -> (result: Result<Vec<u8>, HlcError>)
        ensures
            match encode_spec(data@, self.level()) {
                Some(encoded) => result is Ok && result->Ok_0@ == encoded,
                None => result is Err && result->Err_0 is CompressionError,
            },
            result is Ok ==> decode_spec(result->Ok_0@) == Some(data@),
    {
        encode(data, self.level)
    }

    /// Inverts `encode`.
    pub fn decode(&self, data: &[u8]) -> (result: Result<Vec<u8>, HlcError>)
        ensures
            match decode_spec(data@) {
                Some(decoded) => result is Ok && result->Ok_0@ == decoded,
                None => result is Err && result->Err_0 is DecompressionError,
            },
    {
        decode(data)
    }
}

/// Entropy-codes at level 1.
pub fn encode_fast(data: &[u8]) -> (result: Result<Vec<u8>, HlcError>)
    ensures
        match encode_spec(data@, 1) {
            Some(encoded) => result is Ok && result->Ok_0@ == encoded,
            None => result is Err && result->Err_0 is CompressionError,
        },
        result is Ok ==> decode_spec(result->Ok_0@) == Some(data@),
{
    encode(data, 1)
}

/// Entropy-codes at level 19.
pub fn encode_max(data: &[u8]) -> (result: Result<Vec<u8>, HlcError>)
    ensures
        match encode_spec(data@, 19) {
            Some(encoded) => result is Ok && result->Ok_0@ == encoded,
            None => result is Err && result->Err_0 is CompressionError,
        },
        result is Ok ==> decode_spec(result->Ok_0@) == Some(data@),
{
    encode(data, 19)
}

/// Entropy-codes at level 5.
pub fn encode_balanced(data: &[u8]) -> (result: Result<Vec<u8>, HlcError>)
    ensures
        match encode_spec(data@, 5) {
            Some(encoded) => result is Ok && result->Ok_0@ == encoded,
            None => result is Err && result->Err_0 is CompressionError,
        },
        result is Ok ==> decode_spec(result->Ok_0@) == Some(data@),
{
    encode(data, 5)
}

} // verus!
