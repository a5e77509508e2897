//! Lossless compression by adaptive per-chunk transform pipelines, with a
//! self-describing container format and per-chunk integrity checks.
//!
//! `compress_data` turns bytes into a container and `decompress_data` turns a
//! container back into the bytes. The modules `chunk`, `container`, `pipeline`
//! and `transforms` hold the container pipeline; `analyzer`, `chunker`,
//! `entropy`, `headers`, `io`, `stages` and `threadpool` hold the chunked stream
//! format with its transforms and coders as objects.

pub mod analyzer;
pub mod checksum;
pub mod chunk;
pub mod chunker;
pub mod cli;
pub mod compressor;
pub mod config;
pub mod container;
pub mod endian;
pub mod entropy;
pub mod error;
pub mod headers;
pub mod io;
pub mod pipeline;
pub mod stages;
pub mod text;
pub mod threadpool;
pub mod transforms;

use vstd::prelude::*;
use crate::config::{HlcConfig, HlcMode};
use crate::container::{parse_container, validate_spec};
use crate::container::{total_original, total_payload};
use crate::error::{ErrorKind, HlcError};
use crate::pipeline::{compress_spec, decompress_spec, stats_of, FileInfo};
use crate::transforms::analyzer::EntropyEstimate;

verus! {

/// The version of the library.
pub const VERSION: &'static str = "0.1.0";

/// The authors of the library.
pub const AUTHORS: &'static str = "Project Vision Team";

/// What the library is.
pub const DESCRIPTION: &'static str = "Hybrid Lossless Compression (HLC) Platform";

/// The version, the authors and the description of the library.
#[derive(Debug, Clone)]
pub struct VersionInfo {
    pub version: &'static str,
    pub authors: &'static str,
    pub description: &'static str,
}

/// The version, the authors and the description of the library.
pub fn version_info() -> (info: VersionInfo)
    ensures
        info.version@ == VERSION@,
        info.authors@ == AUTHORS@,
        info.description@ == DESCRIPTION@,
{
    VersionInfo { version: VERSION, authors: AUTHORS, description: DESCRIPTION }
}

/// Compresses `data` into a container; see `pipeline::compress`.
pub fn compress_data(data: &[u8], config: &HlcConfig, estimates: &[EntropyEstimate]) -> (result: Result<
    Vec<u8>,
    HlcError,
>)
    ensures
        match compress_spec(data@, *config, estimates@) {
            Ok(bytes) => result is Ok && result->Ok_0@ == bytes,
            Err(kind) => result is Err && result->Err_0.kind_spec() == kind,
        },
        result is Ok ==> decompress_spec(result->Ok_0@, None) == Ok::<Seq<u8>, ErrorKind>(data@),
{
    match pipeline::compress(data, config, estimates) {
        Ok((output, _)) => Ok(output),
        Err(e) => Err(e),
    }
}

/// Recovers the bytes that a container holds; see `pipeline::decompress`.
pub fn decompress_data(compressed_data: &[u8]) -> (result: Result<Vec<u8>, HlcError>)
    ensures
        match decompress_spec(compressed_data@, None) {
            Ok(data) => result is Ok && result->Ok_0@ == data,
            Err(kind) => result is Err && result->Err_0.kind_spec() == kind,
        },
{
    pipeline::decompress(compressed_data, None)
}

/// Reports what a container says of itself; see `pipeline::info`.
pub fn get_compression_info(compressed_data: &[u8]) -> (result: Result<FileInfo, HlcError>)
    ensures
        match parse_container(compressed_data@, None) {
            Ok((header, records)) => {
                &&& result is Ok
                &&& result->Ok_0.version == header.version
                &&& result->Ok_0.checksum_type == header.checksum_type
                &&& result->Ok_0.total_chunks == records.len()
                &&& result->Ok_0.original_size == total_original(records)
                &&& result->Ok_0.compressed_size == total_payload(records)
                &&& result->Ok_0.chunk_stats == stats_of(records)
            },
            Err(kind) => result is Err && result->Err_0.kind_spec() == kind,
        },
{
    pipeline::info(compressed_data)
}

/// Checks a container by decompressing every record; see `pipeline::validate`.
pub fn validate_data(compressed_data: &[u8]) -> (result: Result<bool, HlcError>)
    ensures
        match validate_spec(compressed_data@) {
            Ok(valid) => result == Ok::<bool, HlcError>(valid),
            Err(kind) => result is Err && result->Err_0.kind_spec() == kind,
        },
{
    pipeline::validate(compressed_data)
}

/// The mode that `compress_auto` keeps: balanced, unless the container of the
/// max mode is smaller by more than a tenth of its own size.
pub open spec fn preferred_mode(balanced_len: nat, max_len: nat) -> HlcMode {
    if 10 * balanced_len <= 11 * max_len {
        HlcMode::Balanced
    } else {
        HlcMode::Max
    }
}

/// The default settings with the given mode and its entropy level, for one worker.
pub open spec fn auto_config(mode: HlcMode) -> HlcConfig {
    HlcConfig {
        mode,
        checksum: crate::config::ChecksumType::CRC32,
        threads: 1,
        chunk_size: crate::config::DEFAULT_CHUNK_SIZE,
        entropy_level: crate::config::level_of(mode),
    }
}

/// What `compress_auto` returns: the container of the preferred mode and this
/// mode, or the kind of the failure of the balanced run or else of the max run.
pub open spec fn compress_auto_spec(data: Seq<u8>, estimates: Seq<EntropyEstimate>) -> Result<
    (Seq<u8>, HlcMode),
    ErrorKind,
> {
    match compress_spec(data, auto_config(HlcMode::Balanced), estimates) {
        Err(kind) => Err(kind),
        Ok(balanced) => match compress_spec(data, auto_config(HlcMode::Max), estimates) {
            Err(kind) => Err(kind),
            Ok(max) => if preferred_mode(balanced.len(), max.len()) == HlcMode::Balanced {
                Ok((balanced, HlcMode::Balanced))
            } else {
                Ok((max, HlcMode::Max))
            },
        },
    }
}

/// Compresses `data` in both modes with otherwise default settings and keeps
/// the container of the preferred mode: the balanced one, unless the max one is
/// smaller by more than a tenth of its own size. Returns the container and its mode.
pub fn compress_auto(data: &[u8], estimates: &[EntropyEstimate]) -> (result: Result<(Vec<u8>, HlcMode), HlcError>)
    ensures
        match compress_auto_spec(data@, estimates@) {
            Ok((bytes, mode)) => result is Ok && result->Ok_0.0@ == bytes && result->Ok_0.1 == mode,
            Err(kind) => result is Err && result->Err_0.kind_spec() == kind,
        },
        result is Ok ==> decompress_spec(result->Ok_0.0@, None) == Ok::<Seq<u8>, ErrorKind>(data@),
{
    let balanced_config = HlcConfig::new().with_mode(HlcMode::Balanced);
    let max_config = HlcConfig::new().with_mode(HlcMode::Max);
    proof {
        crate::pipeline::lemma_thread_invariance(
            data@,
            balanced_config,
            auto_config(HlcMode::Balanced),
            estimates@,
        );
        crate::pipeline::lemma_thread_invariance(data@, max_config, auto_config(HlcMode::Max), estimates@);
    }
    let balanced = match compress_data(data, &balanced_config, estimates) {
        Ok(bytes) => bytes,
        Err(e) => {
            return Err(e);
        },
    };
    let max = match compress_data(data, &max_config, estimates) {
        Ok(bytes) => bytes,
        Err(e) => {
            return Err(e);
        },
    };
    if 10 * (balanced.len() as u128) <= 11 * (max.len() as u128) {
        Ok((balanced, HlcMode::Balanced))
    } else {
        Ok((max, HlcMode::Max))
    }
}

} // verus!
