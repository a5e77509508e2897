//! Entropy coders behind one interface: Zstandard, LZ4, and pass-through coders
//! that keep the places of a range coder and of an ANS coder.

pub mod codec_utils;
pub mod range;
pub mod range_inverse;

use vstd::prelude::*;
use vstd::slice::slice_to_vec;
use crate::error::HlcError;
use crate::headers::EntropyMethod;
use crate::text::with_io_error;
use crate::transforms::entropy::{zstd_content, zstd_decode_all, zstd_encode_all, zstd_frame};

verus! {

/// The block that LZ4 produces for `data`, with the length of `data` in front.
pub uninterp spec fn lz4_block(data: Seq<u8>) -> Seq<u8>;

/// The content that LZ4 recovers from a block with a length in front, or `None`
/// where it fails.
pub uninterp spec fn lz4_content(block: Seq<u8>) -> Option<Seq<u8>>;

/// `lz4_flex::block::DecompressError`, the error of the LZ4 decoder.
#[verifier::external_type_specification]
#[verifier::external_body]
pub struct ExDecompressError(lz4_flex::block::DecompressError);

/// `lz4_flex::compress_prepend_size`: the LZ4 block for `data` with the length
/// of `data` in front, which depends on `data` alone. LZ4 is lossless: the
/// content of the block is `data`. The length in front has 32 bits, so `data`
/// must be no longer than they can say.
#[verifier::external_body]
pub(crate) fn lz4_compress_prepend_size(data: &[u8]) -> (block: Vec<u8>)
    requires
        data@.len() <= u32::MAX,
    ensures
        block@ == lz4_block(data@),
        lz4_content(block@) == Some(data@),
{
    lz4_flex::compress_prepend_size(data)
}

/// `lz4_flex::decompress_size_prepended`: the content of `block`, which depends
/// on `block` alone. The decoder sums the bytes of a length, a run of `0xFF`
/// and one more byte, in 32 bits, so the runs of `0xFF` in `block` must be
/// short enough for the sum.
#[verifier::external_body]
pub(crate) fn lz4_decompress_size_prepended(block: &[u8]) -> (result: Result<
    Vec<u8>,
    lz4_flex::block::DecompressError,
>)
    requires
        short_runs(block@),
    ensures
        result matches Ok(content) ==> lz4_content(block@) == Some(content@),
        result is Err ==> lz4_content(block@) is None,
{
    lz4_flex::decompress_size_prepended(block)
}

/// `format!` with a text and an LZ4 error: a message that starts with `head`.
/// Nothing is claimed of the error's own words.
#[verifier::external_body]
pub(crate) fn with_lz4_error(head: &str, error: &lz4_flex::block::DecompressError) -> (text: String)
    ensures
        text@.len() >= head@.len(),
        text@.subrange(0, head@.len() as int) == head@,
{
    format!("{}{}", head, error)
}

/// The length that no run of `0xFF` in an LZ4 block may reach: a run of this
/// length and one more byte can sum to more than 32 bits hold.
pub const RUN_LIMIT: usize = 16_843_009;

/// The length of the run of `0xFF` that ends before position `n` of `block`.
pub open spec fn run_before(block: Seq<u8>, n: int) -> nat
    decreases n,
{
    if n <= 0 || n > block.len() || block[n - 1] != 0xFF {
        0
    } else {
        run_before(block, n - 1) + 1
    }
}

/// Whether every run of `0xFF` in `block` is shorter than `RUN_LIMIT`.
pub open spec fn short_runs(block: Seq<u8>) -> bool {
    forall|n: int| 0 <= n <= block.len() ==> #[trigger] run_before(block, n) < RUN_LIMIT
}

/// Whether every run of `0xFF` in `block` is shorter than `RUN_LIMIT`.
pub fn has_short_runs(block: &[u8]) -> (short: bool)
    ensures
        short == short_runs(block@),
{
    let n: usize = block.len();
    let mut run: usize = 0;
    let mut i: usize = 0;
    while i < n
        invariant
            n == block@.len(),
            i <= n,
            run == run_before(block@, i as int),
            run < RUN_LIMIT,
            forall|k: int| 0 <= k <= i ==> #[trigger] run_before(block@, k) < RUN_LIMIT,
        decreases n - i,
    {
        if block[i] == 0xFF {
            run = run + 1;
            if run >= RUN_LIMIT {
                assert(run_before(block@, i + 1) >= RUN_LIMIT);
                return false;
            }
        } else {
            run = 0;
        }
        i += 1;
    }
    true
}

/// What the LZ4 coder makes of `data`: the block with the length in front.
/// `None` for data longer than the 32 bits of the length can say, and for a
/// block with a run of `0xFF` that the decoder could not sum.
pub open spec fn lz4_encoding(data: Seq<u8>) -> Option<Seq<u8>> {
    if data.len() > u32::MAX || !short_runs(lz4_block(data)) {
        None
    } else {
        Some(lz4_block(data))
    }
}

/// What the LZ4 coder makes of a block: its content. `None` for a block with a
/// run of `0xFF` that the decoder could not sum, and where the decoder fails.
pub open spec fn lz4_decoding(block: Seq<u8>) -> Option<Seq<u8>> {
    if short_runs(block) {
        lz4_content(block)
    } else {
        None
    }
}

/// An entropy coder: a pair of functions on byte sequences with a method identifier.
///
/// `encoding` and `decoding` say what the two functions return; `None` is a failure.
pub trait EntropyCoder: Send + Sync {
    /// What `encode` returns for `data`.
    spec fn encoding(&self, data: Seq<u8>) -> Option<Seq<u8>>;

    /// What `decode` returns for `data`.
    spec fn decoding(&self, data: Seq<u8>) -> Option<Seq<u8>>;

    /// The identifier of the method.
    spec fn method_spec(&self) -> EntropyMethod;

    /// Encodes `data`. What it returns decodes to `data`.
    fn encode(&self, data: &[u8]) -> (result: Result<Vec<u8>, HlcError>)
        ensures
            match self.encoding(data@) {
                Some(encoded) => result is Ok && result->Ok_0@ == encoded,
                None => result is Err && result->Err_0 is CompressionError,
            },
            result is Ok ==> self.decoding(result->Ok_0@) == Some(data@),
    ;

    /// Decodes `data`.
    fn decode(&self, data: &[u8]) -> (result: Result<Vec<u8>, HlcError>)
        ensures
            match self.decoding(data@) {
                Some(decoded) => result is Ok && result->Ok_0@ == decoded,
                None => result is Err && result->Err_0 is DecompressionError,
            },
    ;

    /// The identifier of the method.
    fn method(&self) -> (method: EntropyMethod)
        ensures
            method == self.method_spec(),
    ;
}

/// The place of a range coder among the methods: it passes data through.
pub struct RangeCoder {
    precision: u32,
}

impl RangeCoder {
    /// The precision in bits.
    pub closed spec fn precision(self) -> u32 {
        self.precision
    }

    /// A coder with 16 bits of precision.
    pub fn new() -> (coder: Self)
        ensures
            coder.precision() == 16,
    {
        RangeCoder { precision: 16 }
    }

    /// A coder with the given precision.
    pub fn with_precision(precision: u32) -> (coder: Self)
        ensures
            coder.precision() == precision,
    {
        RangeCoder { precision }
    }
}

impl EntropyCoder for RangeCoder {
    open spec fn encoding(&self, data: Seq<u8>) -> Option<Seq<u8>> {
        Some(data)
    }

    open spec fn decoding(&self, data: Seq<u8>) -> Option<Seq<u8>> {
        Some(data)
    }

    open spec fn method_spec(&self) -> EntropyMethod {
        EntropyMethod::RangeCoder
    }

    fn encode(&self, data: &[u8]) -> (result: Result<Vec<u8>, HlcError>) {
        Ok(slice_to_vec(data))
    }

    fn decode(&self, data: &[u8]) -> (result: Result<Vec<u8>, HlcError>) {
        Ok(slice_to_vec(data))
    }

    fn method(&self) -> (method: EntropyMethod) {
        EntropyMethod::RangeCoder
    }
}

/// The place of an ANS coder among the methods: it passes data through.
pub struct ANSCoder {
    precision: u32,
}

impl ANSCoder {
    /// The precision in bits.
    pub closed spec fn precision(self) -> u32 {
        self.precision
    }

    /// A coder with 16 bits of precision.
    pub fn new() -> (coder: Self)
        ensures
            coder.precision() == 16,
    {
        ANSCoder { precision: 16 }
    }

    /// A coder with the given precision.
    pub fn with_precision(precision: u32) -> (coder: Self)
        ensures
            coder.precision() == precision,
    {
        ANSCoder { precision }
    }
}

impl EntropyCoder for ANSCoder {
    open spec fn encoding(&self, data: Seq<u8>) -> Option<Seq<u8>> {
        Some(data)
    }

    open spec fn decoding(&self, data: Seq<u8>) -> Option<Seq<u8>> {
        Some(data)
    }

    open spec fn method_spec(&self) -> EntropyMethod {
        EntropyMethod::ANS
    }

    fn encode(&self, data: &[u8]) -> (result: Result<Vec<u8>, HlcError>) {
        Ok(slice_to_vec(data))
    }

    fn decode(&self, data: &[u8]) -> (result: Result<Vec<u8>, HlcError>) {
        Ok(slice_to_vec(data))
    }

    fn method(&self) -> (method: EntropyMethod) {
        EntropyMethod::ANS
    }
}

/// LZ4 block coding with the length of the data in front of the block.
pub struct LZ4Coder {
    level: i32,
}

impl LZ4Coder {
    /// The level. LZ4 block coding has one speed; the level is kept for the record.
    pub closed spec fn level(self) -> i32 {
        self.level
    }

    /// A coder at level 1.
    pub fn new() -> (coder: Self)
        ensures
            coder.level() == 1,
    {
        LZ4Coder { level: 1 }
    }

    /// A coder at the given level.
    pub fn with_level(level: i32) -> (coder: Self)
        ensures
            coder.level() == level,
    {
        LZ4Coder { level }
    }
}

impl EntropyCoder for LZ4Coder {
    open spec fn encoding(&self, data: Seq<u8>) -> Option<Seq<u8>> {
        lz4_encoding(data)
    }

    open spec fn decoding(&self, data: Seq<u8>) -> Option<Seq<u8>> {
        lz4_decoding(data)
    }

    open spec fn method_spec(&self) -> EntropyMethod {
        EntropyMethod::LZ4
    }

    fn encode(&self, data: &[u8]) -> (result: Result<Vec<u8>, HlcError>) {
        if data.len() > u32::MAX as usize {
            return Err(HlcError::CompressionError("Too much data for LZ4".to_string()));
        }
        let block = lz4_compress_prepend_size(data);
        if !has_short_runs(block.as_slice()) {
            return Err(HlcError::CompressionError("LZ4 block out of range".to_string()));
        }
        Ok(block)
    }

    fn decode(&self, data: &[u8]) -> (result: Result<Vec<u8>, HlcError>) {
        if !has_short_runs(data) {
            return Err(HlcError::DecompressionError("Invalid LZ4 block".to_string()));
        }
        match lz4_decompress_size_prepended(data) {
            Ok(content) => Ok(content),
            Err(e) => Err(HlcError::DecompressionError(with_lz4_error("LZ4 decompression failed: ", &e))),
        }
    }

    fn method(&self) -> (method: EntropyMethod) {
        EntropyMethod::LZ4
    }
}

/// Zstandard coding at a fixed level.
pub struct ZstdCoder {
    level: i32,
}

impl ZstdCoder {
    /// The level.
    pub closed spec fn level(self) -> i32 {
        self.level
    }

    /// A coder at level 3.
    pub fn new() -> (coder: Self)
        ensures
            coder.level() == 3,
    {
        ZstdCoder { level: 3 }
    }

    /// A coder at the given level.
    pub fn with_level(level: i32) -> (coder: Self)
        ensures
            coder.level() == level,
    {
        ZstdCoder { level }
    }
}

impl EntropyCoder for ZstdCoder {
    open spec fn encoding(&self, data: Seq<u8>) -> Option<Seq<u8>> {
        zstd_frame(data, self.level())
    }

    open spec fn decoding(&self, data: Seq<u8>) -> Option<Seq<u8>> {
        zstd_content(data)
    }

    open spec fn method_spec(&self) -> EntropyMethod {
        EntropyMethod::Zstd
    }

    fn encode(&self, data: &[u8]) -> (result: Result<Vec<u8>, HlcError>) {
        match zstd_encode_all(data, self.level) {
            Ok(frame) => Ok(frame),
            Err(e) => Err(HlcError::CompressionError(with_io_error("Zstd compression failed: ", &e))),
        }
    }

    fn decode(&self, data: &[u8]) -> (result: Result<Vec<u8>, HlcError>) {
        match zstd_decode_all(data) {
            Ok(content) => Ok(content),
            Err(e) => Err(HlcError::DecompressionError(with_io_error("Zstd decompression failed: ", &e))),
        }
    }

    fn method(&self) -> (method: EntropyMethod) {
        EntropyMethod::Zstd
    }
}

/// A coder that passes data through.
pub struct NoOpCoder;

impl EntropyCoder for NoOpCoder {
    open spec fn encoding(&self, data: Seq<u8>) -> Option<Seq<u8>> {
        Some(data)
    }

    open spec fn decoding(&self, data: Seq<u8>) -> Option<Seq<u8>> {
        Some(data)
    }

    open spec fn method_spec(&self) -> EntropyMethod {
        EntropyMethod::NoCoder
    }

    fn encode(&self, data: &[u8]) -> (result: Result<Vec<u8>, HlcError>) {
        Ok(slice_to_vec(data))
    }

    fn decode(&self, data: &[u8]) -> (result: Result<Vec<u8>, HlcError>) {
        Ok(slice_to_vec(data))
    }

    fn method(&self) -> (method: EntropyMethod) {
        EntropyMethod::NoCoder
    }
}

/// One of the coders of this module.
pub enum AnyCoder {
    Range(RangeCoder),
    Ans(ANSCoder),
    Lz4(LZ4Coder),
    Zstd(ZstdCoder),
    NoOp(NoOpCoder),
}

impl EntropyCoder for AnyCoder {
    open spec fn encoding(&self, data: Seq<u8>) -> Option<Seq<u8>> {
        match self {
            AnyCoder::Range(c) => c.encoding(data),
            AnyCoder::Ans(c) => c.encoding(data),
            AnyCoder::Lz4(c) => c.encoding(data),
            AnyCoder::Zstd(c) => c.encoding(data),
            AnyCoder::NoOp(c) => c.encoding(data),
        }
    }

    open spec fn decoding(&self, data: Seq<u8>) -> Option<Seq<u8>> {
        match self {
            AnyCoder::Range(c) => c.decoding(data),
            AnyCoder::Ans(c) => c.decoding(data),
            AnyCoder::Lz4(c) => c.decoding(data),
            AnyCoder::Zstd(c) => c.decoding(data),
            AnyCoder::NoOp(c) => c.decoding(data),
        }
    }

    open spec fn method_spec(&self) -> EntropyMethod {
        match self {
            AnyCoder::Range(c) => c.method_spec(),
            AnyCoder::Ans(c) => c.method_spec(),
            AnyCoder::Lz4(c) => c.method_spec(),
            AnyCoder::Zstd(c) => c.method_spec(),
            AnyCoder::NoOp(c) => c.method_spec(),
        }
    }

    fn encode(&self, data: &[u8]) -> (result: Result<Vec<u8>, HlcError>) {
        match self {
            AnyCoder::Range(c) => c.encode(data),
            AnyCoder::Ans(c) => c.encode(data),
            AnyCoder::Lz4(c) => c.encode(data),
            AnyCoder::Zstd(c) => c.encode(data),
            AnyCoder::NoOp(c) => c.encode(data),
        }
    }

    fn decode(&self, data: &[u8]) -> (result: Result<Vec<u8>, HlcError>) {
        match self {
            AnyCoder::Range(c) => c.decode(data),
            AnyCoder::Ans(c) => c.decode(data),
            AnyCoder::Lz4(c) => c.decode(data),
            AnyCoder::Zstd(c) => c.decode(data),
            AnyCoder::NoOp(c) => c.decode(data),
        }
    }

    fn method(&self) -> (method: EntropyMethod) {
        match self {
            AnyCoder::Range(c) => c.method(),
            AnyCoder::Ans(c) => c.method(),
            AnyCoder::Lz4(c) => c.method(),
            AnyCoder::Zstd(c) => c.method(),
            AnyCoder::NoOp(c) => c.method(),
        }
    }
}

/// Makes coders by method.
pub struct EntropyCoderFactory;

impl EntropyCoderFactory {
    /// The coder that `create` makes for `method` is of this method.
    pub open spec fn kind_matches(coder: AnyCoder, method: EntropyMethod) -> bool {
        match method {
            EntropyMethod::RangeCoder => coder is Range,
            EntropyMethod::ANS => coder is Ans,
            EntropyMethod::LZ4 => coder is Lz4,
            EntropyMethod::Zstd => coder is Zstd,
            EntropyMethod::NoCoder => coder is NoOp,
        }
    }

    /// The coder for `method`. LZ4 and Zstandard take `level`, or their default
    /// levels 1 and 3 where none is given.
    pub fn create(method: EntropyMethod, level: Option<i32>) -> (coder: AnyCoder)
        ensures
            Self::kind_matches(coder, method),
            coder.method_spec() == method,
            coder matches AnyCoder::Lz4(c) ==> c.level() == (if level is Some { level->Some_0 } else { 1 }),
            coder matches AnyCoder::Zstd(c) ==> c.level() == (if level is Some { level->Some_0 } else { 3 }),
    {
        match method {
            EntropyMethod::RangeCoder => AnyCoder::Range(RangeCoder::new()),
            EntropyMethod::ANS => AnyCoder::Ans(ANSCoder::new()),
            EntropyMethod::LZ4 => AnyCoder::Lz4(LZ4Coder::with_level(match level {
                Some(l) => l,
                None => 1,
            })),
            EntropyMethod::Zstd => AnyCoder::Zstd(ZstdCoder::with_level(match level {
                Some(l) => l,
                None => 3,
            })),
            EntropyMethod::NoCoder => AnyCoder::NoOp(NoOpCoder),
        }
    }
}

} // verus!
