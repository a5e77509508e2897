//! Delta coding as a transform object, by bytes or by little-endian words.

use vstd::prelude::*;
use crate::error::HlcError;
use crate::stages::Transform;
use crate::transforms::delta::{decode, decode_u16_delta, decode_u32_delta, encode, encode_u16_delta, encode_u32_delta};
use crate::transforms::delta::{decode_spec, decode_u16_spec, decode_u32_spec, encode_spec, encode_u16_spec, encode_u32_spec};
use crate::transforms::delta::{lemma_delta_roundtrip, lemma_delta_u16_roundtrip, lemma_delta_u32_roundtrip};

verus! {

/// The unit of delta coding.
#[derive(Debug, Clone, Copy, PartialEq, Eq, Structural)]
pub enum DeltaMode {
    /// Differences of bytes.
    Byte,
    /// Differences of 16-bit words.
    Word,
    /// Differences of 32-bit words.
    DWord,
}

/// The delta transform.
pub struct DeltaTransform {
    mode: DeltaMode,
}

/// The delta coding of `s` in `mode`.
pub open spec fn delta_encoding(mode: DeltaMode, s: Seq<u8>) -> Seq<u8> {
    match mode {
        DeltaMode::Byte => encode_spec(s),
        DeltaMode::Word => encode_u16_spec(s),
        DeltaMode::DWord => encode_u32_spec(s),
    }
}

/// The inverse of `delta_encoding` in the same `mode`.
pub open spec fn delta_decoding(mode: DeltaMode, s: Seq<u8>) -> Seq<u8> {
    match mode {
        DeltaMode::Byte => decode_spec(s),
        DeltaMode::Word => decode_u16_spec(s),
        DeltaMode::DWord => decode_u32_spec(s),
    }
}

/// Decoding inverts encoding in every mode.
pub proof fn lemma_delta_transform_roundtrip(mode: DeltaMode, s: Seq<u8>)
    ensures
        delta_decoding(mode, delta_encoding(mode, s)) == s,
{
    lemma_delta_roundtrip(s);
    lemma_delta_u16_roundtrip(s);
    lemma_delta_u32_roundtrip(s);
}

impl DeltaTransform {
    /// The unit of this transform.
    pub closed spec fn mode(self) -> DeltaMode {
        self.mode
    }

    /// Byte-wise delta coding.
    pub fn new() -> (transform: Self)
        ensures
            transform.mode() == DeltaMode::Byte,
    {
        DeltaTransform { mode: DeltaMode::Byte }
    }

    /// Delta coding by the given unit.
    pub fn with_mode(mode: DeltaMode) -> (transform: Self)
        ensures
            transform.mode() == mode,
    {
        DeltaTransform { mode }
    }

    /// Differences of bytes; the first byte is kept.
    pub fn encode_byte_delta(&self, data: &[u8]) -> (result: Result<Vec<u8>, HlcError>)
        ensures
            result is Ok,
            result->Ok_0@ == encode_spec(data@),
    {
        Ok(encode(data))
    }

    /// Running sums of bytes: the inverse of `encode_byte_delta`.
    pub fn decode_byte_delta(&self, data: &[u8]) -> (result: Result<Vec<u8>, HlcError>)
        ensures
            result is Ok,
            result->Ok_0@ == decode_spec(data@),
    {
        Ok(decode(data))
    }

    /// Differences of 16-bit words; the first word and an odd last byte are kept.
    pub fn encode_word_delta(&self, data: &[u8]) -> (result: Result<Vec<u8>, HlcError>)
        ensures
            result is Ok,
            result->Ok_0@ == encode_u16_spec(data@),
    {
        Ok(encode_u16_delta(data))
    }

    /// The inverse of `encode_word_delta`.
    pub fn decode_word_delta(&self, data: &[u8]) -> (result: Result<Vec<u8>, HlcError>)
        ensures
            result is Ok,
            result->Ok_0@ == decode_u16_spec(data@),
    {
        Ok(decode_u16_delta(data))
    }

    /// Differences of 32-bit words; the first word and up to three last bytes are kept.
    pub fn encode_dword_delta(&self, data: &[u8]) -> (result: Result<Vec<u8>, HlcError>)
        ensures
            result is Ok,
            result->Ok_0@ == encode_u32_spec(data@),
    {
        Ok(encode_u32_delta(data))
    }

    /// The inverse of `encode_dword_delta`.
    pub fn decode_dword_delta(&self, data: &[u8]) -> (result: Result<Vec<u8>, HlcError>)
        ensures
            result is Ok,
            result->Ok_0@ == decode_u32_spec(data@),
    {
        Ok(decode_u32_delta(data))
    }
}

impl Transform for DeltaTransform {
    open spec fn encoding(&self, data: Seq<u8>) -> Option<Seq<u8>> {
        Some(delta_encoding(self.mode(), data))
    }

    open spec fn decoding(&self, data: Seq<u8>) -> Option<Seq<u8>> {
        Some(delta_decoding(self.mode(), data))
    }

    open spec fn id_spec(&self) -> u8 {
        1
    }

    fn encode(&self, data: &[u8]) -> (result: Result<Vec<u8>, HlcError>)
        ensures
            result is Ok,
            result->Ok_0@ == delta_encoding(self.mode(), data@),
    {
        proof {
            lemma_delta_transform_roundtrip(self.mode, data@);
        }
        match self.mode {
            DeltaMode::Byte => self.encode_byte_delta(data),
            DeltaMode::Word => self.encode_word_delta(data),
            DeltaMode::DWord => self.encode_dword_delta(data),
        }
    }

    fn decode(&self, data: &[u8]) -> (result: Result<Vec<u8>, HlcError>)
        ensures
            result is Ok,
            result->Ok_0@ == delta_decoding(self.mode(), data@),
    {
        match self.mode {
            DeltaMode::Byte => self.decode_byte_delta(data),
            DeltaMode::Word => self.decode_word_delta(data),
            DeltaMode::DWord => self.decode_dword_delta(data),
        }
    }

    fn id(&self) -> (id: u8) {
        1
    }

}

} // verus!
