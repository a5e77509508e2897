//! The settings of the stream compressor and the layout of its output.

use vstd::prelude::*;
use crate::config::available_cpus;
use crate::endian::append;
use crate::error::{ErrorKind, HlcError};
use crate::headers::{lemma_chunk_header_roundtrip, lemma_global_header_roundtrip, parse_global_header};
use crate::headers::{GlobalHeader, CHUNK_HEADER_SIZE, GLOBAL_HEADER_SIZE};
use crate::io::offsets_spec;
use crate::threadpool::ChunkResult;
use crate::text::{joined, lowercase, lowercase_of};

verus! {

/// The speed against ratio trade-off.
#[derive(Debug, Clone, Copy, PartialEq, Eq, Structural)]
pub enum CompressionMode {
    Fast,
    Balanced,
    Max,
}

/// The settings of the stream compressor.
#[derive(Debug, Clone)]
pub struct Config {
    pub mode: CompressionMode,
    pub threads: usize,
    pub enable_sha256: bool,
    pub enable_encryption: bool,
    pub chunk_size_min: usize,
    pub chunk_size_max: usize,
}

impl Default for Config {
    /// Balanced mode, one worker per processor, no SHA-256, no encryption,
    /// chunks from 1 KiB to 64 KiB.
    fn default() -> (config: Self)
        ensures
            config.mode == CompressionMode::Balanced,
            config.threads >= 1,
            !config.enable_sha256,
            !config.enable_encryption,
            config.chunk_size_min == 1024,
            config.chunk_size_max == 65536,
    {
        Config {
            mode: CompressionMode::Balanced,
            threads: available_cpus(),
            enable_sha256: false,
            enable_encryption: false,
            chunk_size_min: 1024,
            chunk_size_max: 64 * 1024,
        }
    }
}

/// The stream compressor: it holds the settings of a run.
pub struct HLCCompressor {
    config: Config,
}

impl HLCCompressor {
    /// The settings.
    pub closed spec fn config(self) -> Config {
        self.config
    }

    /// A compressor with the given settings.
    pub fn new(config: Config) -> (compressor: Self)
        ensures
            compressor.config() == config,
    {
        HLCCompressor { config }
    }

    /// The settings.
    pub fn settings(&self) -> (config: &Config)
        ensures
            *config == self.config(),
    {
        &self.config
    }

    /// Lays out the stream for the chunks `results` of an input of
    /// `original_size` bytes: a global header with the number of chunks, the
    /// size of the input and the sum of the payload sizes, stamped with the
    /// current time, and then each chunk's header and payload.
    ///
    /// Fails with a pipeline error exactly where the chunks are more than 32
    /// bits can count, or their payloads more than 64 bits can.
    pub fn assemble(&self, results: &[ChunkResult], original_size: u64) -> (result: Result<Vec<u8>, HlcError>)
        ensures
            match result {
                Ok(bytes) => {
                    &&& results@.len() <= u32::MAX
                    &&& payload_sum(results@, results@.len() as int) <= u64::MAX
                    &&& parse_global_header(bytes@) matches Ok(fields) && fields.flags == 0 && fields.total_chunks
                        == results@.len() && fields.total_size == original_size && fields.compressed_size
                        == payload_sum(results@, results@.len() as int)
                    &&& bytes@.skip(42) == stream_chunks(results@, results@.len() as int)
                },
                Err(e) => e is PipelineError && (results@.len() > u32::MAX || payload_sum(
                    results@,
                    results@.len() as int,
                ) > u64::MAX),
            },
    {
        let count: usize = results.len();
        if count > u32::MAX as usize {
            return Err(HlcError::PipelineError("Too many chunks".to_string()));
        }
        let mut compressed_size: u64 = 0;
        let mut i: usize = 0;
        while i < count
            invariant
                i <= count,
                count == results@.len(),
                compressed_size == payload_sum(results@, i as int),
            decreases count - i,
        {
            let length: u64 = results[i].compressed_data.len() as u64;
            if length > u64::MAX - compressed_size {
                proof {
                    lemma_payload_sum_monotone(results@, i + 1, count as int);
                }
                return Err(HlcError::PipelineError("Compressed size out of range".to_string()));
            }
            compressed_size = compressed_size + length;
            i += 1;
        }
        let mut output: Vec<u8> = Vec::new();
        let header = GlobalHeader::new(count as u32, original_size, compressed_size);
        let _ = header.write(&mut output);
        let mut k: usize = 0;
        assert(output@ =~= header.bytes_spec() + stream_chunks(results@, 0));
        while k < count
            invariant
                k <= count,
                count == results@.len(),
                output@ == header.bytes_spec() + stream_chunks(results@, k as int),
            decreases count - k,
        {
            let ghost before = output@;
            let _ = results[k].header.write(&mut output);
            append(&mut output, results[k].compressed_data.as_slice());
            assert(output@ =~= header.bytes_spec() + stream_chunks(results@, k + 1));
            k += 1;
        }
        proof {
            let rest = stream_chunks(results@, count as int);
            lemma_global_header_roundtrip(header, rest);
            assert(output@.skip(42) =~= rest);
        }
        Ok(output)
    }
}

/// The sum of the payload sizes of the first `n` chunks.
pub open spec fn payload_sum(results: Seq<ChunkResult>, n: int) -> nat
    decreases n,
{
    if n <= 0 {
        0
    } else {
        payload_sum(results, n - 1) + results[n - 1].compressed_data@.len()
    }
}

/// The bytes of the first `n` chunks in a stream: for each chunk its header
/// and then its payload.
pub open spec fn stream_chunks(results: Seq<ChunkResult>, n: int) -> Seq<u8>
    decreases n,
{
    if n <= 0 {
        Seq::<u8>::empty()
    } else {
        stream_chunks(results, n - 1) + results[n - 1].header.bytes_spec() + results[n - 1].compressed_data@
    }
}

/// The payload sums grow with the number of chunks.
proof fn lemma_payload_sum_monotone(results: Seq<ChunkResult>, m: int, n: int)
    requires
        0 <= m <= n,
    ensures
        payload_sum(results, m) <= payload_sum(results, n),
    decreases n - m,
{
    if m < n {
        lemma_payload_sum_monotone(results, m, n - 1);
    }
}

/// The offset of chunk `i` in the stream of the chunks `results`: behind the
/// global header and the chunks before it.
pub open spec fn offset_of(results: Seq<ChunkResult>, i: int) -> int {
    GLOBAL_HEADER_SIZE + CHUNK_HEADER_SIZE * i + payload_sum(results, i)
}

/// Every header records the size of its payload.
pub open spec fn sized(results: Seq<ChunkResult>) -> bool {
    forall|i: int|
        0 <= i < results.len() ==> (#[trigger] results[i]).header.compressed_size
            == results[i].compressed_data@.len()
}

/// The first `n` chunks take 52 bytes each and the bytes of their payloads.
proof fn lemma_stream_chunks_len(results: Seq<ChunkResult>, n: int)
    requires
        0 <= n,
    ensures
        stream_chunks(results, n).len() == CHUNK_HEADER_SIZE * n + payload_sum(results, n),
    decreases n,
{
    if n > 0 {
        lemma_stream_chunks_len(results, n - 1);
        lemma_chunk_header_roundtrip(results[n - 1].header, Seq::<u8>::empty());
    }
}

/// Chunk `k` stands at its place among the first `n` chunks.
proof fn lemma_stream_chunk_at(results: Seq<ChunkResult>, k: int, n: int)
    requires
        0 <= k < n,
    ensures
        CHUNK_HEADER_SIZE * k + payload_sum(results, k) + CHUNK_HEADER_SIZE + results[k].compressed_data@.len()
            <= stream_chunks(results, n).len(),
        stream_chunks(results, n).subrange(
            CHUNK_HEADER_SIZE * k + payload_sum(results, k),
            CHUNK_HEADER_SIZE * k + payload_sum(results, k) + CHUNK_HEADER_SIZE,
        ) == results[k].header.bytes_spec(),
    decreases n,
{
    let at = CHUNK_HEADER_SIZE * k + payload_sum(results, k);
    let front = stream_chunks(results, n - 1);
    let all = stream_chunks(results, n);
    lemma_stream_chunks_len(results, n - 1);
    lemma_stream_chunks_len(results, n);
    lemma_chunk_header_roundtrip(results[n - 1].header, Seq::<u8>::empty());
    if k == n - 1 {
        assert(all.subrange(at, at + CHUNK_HEADER_SIZE) =~= results[k].header.bytes_spec());
    } else {
        lemma_stream_chunk_at(results, k, n - 1);
        assert(all.subrange(at, at + CHUNK_HEADER_SIZE) =~= front.subrange(at, at + CHUNK_HEADER_SIZE));
    }
}

/// In a stream laid out as `assemble` does it, behind any 42 bytes in place
/// of the global header, the chunks from `k` on are found at their offsets,
/// provided every header records the size of its payload.
pub proof fn lemma_stream_offsets(front: Seq<u8>, results: Seq<ChunkResult>, k: int)
    requires
        front.len() == GLOBAL_HEADER_SIZE,
        sized(results),
        0 <= k <= results.len(),
        offset_of(results, results.len() as int) <= u64::MAX,
    ensures
        offsets_spec(
            front + stream_chunks(results, results.len() as int),
            offset_of(results, k),
            (results.len() - k) as nat,
        ) == Ok::<Seq<u64>, ErrorKind>(
            Seq::new((results.len() - k) as nat, |i: int| offset_of(results, k + i) as u64),
        ),
    decreases results.len() - k,
{
    let n = results.len() as int;
    let chunks = stream_chunks(results, n);
    let b = front + chunks;
    let wanted = Seq::new((n - k) as nat, |i: int| offset_of(results, k + i) as u64);
    if k == n {
        assert(wanted =~= Seq::<u64>::empty());
    } else {
        let at = offset_of(results, k);
        let header = results[k].header;
        lemma_stream_chunk_at(results, k, n);
        lemma_chunk_header_roundtrip(header, Seq::<u8>::empty());
        assert(b.subrange(at, at + CHUNK_HEADER_SIZE) =~= chunks.subrange(
            at - GLOBAL_HEADER_SIZE,
            at - GLOBAL_HEADER_SIZE + CHUNK_HEADER_SIZE,
        ));
        assert(header.bytes_spec() + Seq::<u8>::empty() =~= header.bytes_spec());
        assert(offset_of(results, k + 1) == at + CHUNK_HEADER_SIZE + header.compressed_size);
        lemma_stream_offsets(front, results, k + 1);
        let rest = Seq::new((n - k - 1) as nat, |i: int| offset_of(results, k + 1 + i) as u64);
        assert(seq![at as u64] + rest =~= wanted);
    }
}

/// The mode that a lower-case name stands for.
pub open spec fn compression_mode_named(name: Seq<char>) -> Option<CompressionMode> {
    if name == "fast"@ {
        Some(CompressionMode::Fast)
    } else if name == "balanced"@ {
        Some(CompressionMode::Balanced)
    } else if name == "max"@ {
        Some(CompressionMode::Max)
    } else {
        None
    }
}

/// The mode with the lower-case name `name`: `"fast"`, `"balanced"` or
/// `"max"`. Any other name is a configuration error.
pub fn mode_from_lowercase(name: &str) -> (result: Result<CompressionMode, HlcError>)
    ensures
        match compression_mode_named(name@) {
            Some(mode) => result == Ok::<CompressionMode, HlcError>(mode),
            None => result is Err && result->Err_0 is ConfigError,
        },
{
    let owned = name.to_string();
    if owned == "fast".to_string() {
        Ok(CompressionMode::Fast)
    } else if owned == "balanced".to_string() {
        Ok(CompressionMode::Balanced)
    } else if owned == "max".to_string() {
        Ok(CompressionMode::Max)
    } else {
        Err(HlcError::ConfigError(joined("Invalid mode. Must be one of: fast, balanced, max: ", name)))
    }
}

/// The mode named by `mode_str`, whatever its case.
pub fn parse_mode(mode_str: &str) -> (result: Result<CompressionMode, HlcError>)
    ensures
        match compression_mode_named(lowercase_of(mode_str@)) {
            Some(mode) => result == Ok::<CompressionMode, HlcError>(mode),
            None => result is Err && result->Err_0 is ConfigError,
        },
{
    let lowered = lowercase(mode_str);
    match mode_from_lowercase(lowered.as_str()) {
        Ok(mode) => Ok(mode),
        Err(_) => Err(
            HlcError::ConfigError(joined("Invalid mode. Must be one of: fast, balanced, max: ", mode_str)),
        ),
    }
}

} // verus!
