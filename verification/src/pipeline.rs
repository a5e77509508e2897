//! The pipeline driver: compresses a byte sequence into a container and back.
//!
//! Chunks are processed one after the other here. They are independent of each
//! other, so a caller may hand them to workers instead and write the records with
//! `write_hlc_container`; the container is the same.

use vstd::prelude::*;
use vstd::slice::slice_to_vec;
use crate::chunk::{chunk_data, concat_all, dense_ids, lemma_pieces, pieces, process_chunk, process_spec};
use crate::chunk::{merge_chunks, split_into_chunks, ChunkStats, RawChunk};
use crate::config::{ChecksumType, HlcConfig};
use crate::container::{all_wf, container_bytes, decode_all, decode_record, header_for, in_order, parse_container};
use crate::container::{lemma_container_roundtrip, lemma_decode_all_prefix, lemma_totals_bounded, payloads_fit};
use crate::container::{read_hlc_container, records_of, total_original, total_payload, write_hlc_container};
use crate::container::{checksum_spec, has_flag, parse_header, unpack_spec, CompressedChunk, ContainerHeader, Record};
use crate::container::{validate_spec, verify_container, ENTROPY, STORED, VERSION};
use crate::chunk::lemma_process_record;
use crate::error::{ErrorKind, HlcError};
use crate::transforms::analyzer::EntropyEstimate;

verus! {

/// The estimate for chunk `i`: the `i`-th of `estimates`, or zero entropies
/// where there is none.
pub open spec fn estimate_at(estimates: Seq<EntropyEstimate>, i: int) -> EntropyEstimate {
    if 0 <= i < estimates.len() {
        estimates[i]
    } else {
        EntropyEstimate { original: 0, delta: 0 }
    }
}

/// The records of the chunks `parts` under `config`.
pub open spec fn records_for(parts: Seq<Seq<u8>>, config: HlcConfig, estimates: Seq<EntropyEstimate>) -> Seq<
    Record,
> {
    Seq::new(
        parts.len(),
        |i: int|
            process_spec(parts[i], config.mode, config.checksum, config.entropy_level, estimate_at(estimates, i)),
    )
}

/// The container that `compress` makes of `data`, or the kind of its failure.
///
/// Empty data gives a container without records. Otherwise a chunk size of zero
/// is a configuration error, and a chunk longer than 32 bits can count, or more
/// chunks than 32 bits can count, a pipeline error. The number of workers plays
/// no part.
pub open spec fn compress_spec(data: Seq<u8>, config: HlcConfig, estimates: Seq<EntropyEstimate>) -> Result<
    Seq<u8>,
    ErrorKind,
> {
    if data.len() == 0 {
        Ok(container_bytes(config.checksum, Seq::<Record>::empty()))
    } else if config.chunk_size == 0 {
        Err(ErrorKind::ConfigError)
    } else if pieces(data, config.chunk_size as nat).len() > u32::MAX || (data.len() > u32::MAX
        && config.chunk_size > u32::MAX) {
        Err(ErrorKind::PipelineError)
    } else {
        Ok(container_bytes(config.checksum, records_for(pieces(data, config.chunk_size as nat), config, estimates)))
    }
}

/// The bytes that `decompress` recovers from the container `b`, or the kind of
/// its failure: that of reading the container, or of the first record that
/// does not decode.
pub open spec fn decompress_spec(b: Seq<u8>, limit: Option<u64>) -> Result<Seq<u8>, ErrorKind> {
    match parse_container(b, limit) {
        Err(kind) => Err(kind),
        Ok((header, records)) => decode_all(records, header.checksum_type),
    }
}

/// What a compression run did.
#[derive(Debug, Clone)]
pub struct CompressionReport {
    /// The number of input bytes.
    pub original_size: u64,
    /// The number of container bytes written; zero for empty input.
    pub compressed_size: u64,
    /// The number of chunks.
    pub chunks_processed: usize,
    /// Counters over the records.
    pub chunk_stats: ChunkStats,
}

/// Records that decode to the parts decode, in a row, to the parts in a row.
pub proof fn lemma_decode_all_parts(records: Seq<Record>, parts: Seq<Seq<u8>>, kind: ChecksumType)
    requires
        records.len() == parts.len(),
        forall|i: int|
            0 <= i < records.len() ==> decode_record(#[trigger] records[i], kind) == Ok::<Seq<u8>, ErrorKind>(
                parts[i],
            ),
    ensures
        decode_all(records, kind) == Ok::<Seq<u8>, ErrorKind>(concat_all(parts)),
    decreases records.len(),
{
    if records.len() > 0 {
        let front = records.drop_last();
        assert forall|i: int| 0 <= i < front.len() implies decode_record(#[trigger] front[i], kind) == Ok::<
            Seq<u8>,
            ErrorKind,
        >(parts.drop_last()[i]) by {
            assert(front[i] == records[i]);
        }
        lemma_decode_all_parts(front, parts.drop_last(), kind);
        assert(decode_record(records[records.len() - 1], kind) == Ok::<Seq<u8>, ErrorKind>(parts.last()));
    }
}

/// The first piece is the longest: it holds `chunk_size` bytes, or all of the
/// data where that is less.
pub proof fn lemma_first_piece(data: Seq<u8>, chunk_size: nat)
    requires
        chunk_size > 0,
        data.len() > 0,
    ensures
        pieces(data, chunk_size).len() > 0,
        pieces(data, chunk_size)[0].len() == if data.len() <= chunk_size { data.len() } else { chunk_size },
        forall|k: int|
            0 <= k < pieces(data, chunk_size).len() ==> (#[trigger] pieces(data, chunk_size)[k]).len() <= pieces(
                data,
                chunk_size,
            )[0].len(),
{
    lemma_pieces(data, chunk_size);
    let p = pieces(data, chunk_size);
    if data.len() <= chunk_size {
        assert(p[0] == data);
    } else {
        assert(p[0] == data.take(chunk_size as int));
    }
}

/// A container of records that decode to the pieces of `data` decompresses to `data`.
pub proof fn lemma_container_decodes(
    data: Seq<u8>,
    chunk_size: nat,
    kind: ChecksumType,
    records: Seq<Record>,
)
    requires
        chunk_size > 0,
        records.len() == pieces(data, chunk_size).len(),
        records.len() <= u32::MAX,
        payloads_fit(records),
        forall|i: int|
            0 <= i < records.len() ==> decode_record(#[trigger] records[i], kind) == Ok::<Seq<u8>, ErrorKind>(
                pieces(data, chunk_size)[i],
            ),
    ensures
        decompress_spec(container_bytes(kind, records), None) == Ok::<Seq<u8>, ErrorKind>(data),
{
    lemma_pieces(data, chunk_size);
    lemma_container_roundtrip(kind, records, None);
    lemma_decode_all_parts(records, pieces(data, chunk_size), kind);
}

/// Compresses `data` into a container.
///
/// The input is split into chunks of `config.chunk_size` bytes; chunk `i` is
/// compressed by `process_chunk` with the `i`-th estimate (zero entropies where
/// `estimates` is shorter), and the records are written in order behind the
/// global header. The container is `compress_spec` of the arguments, so it
/// depends on them alone, and not on `config.threads`. Decompressing it
/// gives `data` back.
pub fn compress(data: &[u8], config: &HlcConfig, estimates: &[EntropyEstimate]) -> (result: Result<
    (Vec<u8>, CompressionReport),
    HlcError,
>)
    ensures
        match compress_spec(data@, *config, estimates@) {
            Ok(bytes) => result is Ok && result->Ok_0.0@ == bytes,
            Err(kind) => result is Err && result->Err_0.kind_spec() == kind,
        },
        result is Ok ==> decompress_spec(result->Ok_0.0@, None) == Ok::<Seq<u8>, ErrorKind>(data@),
        result is Ok ==> result->Ok_0.1.original_size == data@.len(),
        result is Ok ==> result->Ok_0.1.chunks_processed == pieces(data@, config.chunk_size as nat).len(),
        result is Ok && data@.len() > 0 ==> result->Ok_0.1.compressed_size == result->Ok_0.0@.len(),
        result is Ok && data@.len() == 0 ==> result->Ok_0.1.compressed_size == 0,
        result is Ok ==> result->Ok_0.1.chunk_stats == stats_of(
            records_for(pieces(data@, config.chunk_size as nat), *config, estimates@),
        ),
{
    let mut output: Vec<u8> = Vec::new();
    let original_size: u64 = data.len() as u64;
    if data.len() == 0 {
        proof {
            assert(records_for(pieces(data@, config.chunk_size as nat), *config, estimates@) =~= Seq::<
                Record,
            >::empty());
        }
        return compress_empty(data, config, estimates);
    }
    if config.chunk_size == 0 {
        return Err(HlcError::ConfigError("Chunk size must be positive".to_string()));
    }
    let raw_chunks = split_into_chunks(data, config.chunk_size);
    let total_chunks: usize = raw_chunks.len();
    if total_chunks > u32::MAX as usize {
        return Err(HlcError::PipelineError("Too many chunks for one container".to_string()));
    }
    let ghost parts = pieces(data@, config.chunk_size as nat);
    let ghost wanted = records_for(parts, *config, estimates@);
    proof {
        lemma_first_piece(data@, config.chunk_size as nat);
    }
    let mut compressed: Vec<CompressedChunk> = Vec::new();
    let mut stats = ChunkStats::new();
    let mut i: usize = 0;
    proof {
        assert(wanted.take(0) =~= Seq::<Record>::empty());
    }
    while i < total_chunks
        invariant
            i <= total_chunks,
            total_chunks == raw_chunks@.len(),
            total_chunks <= u32::MAX,
            parts == pieces(data@, config.chunk_size as nat),
            chunk_data(raw_chunks@) == parts,
            dense_ids(raw_chunks@),
            wanted == records_for(parts, *config, estimates@),
            data@.len() > 0,
            config.chunk_size > 0,
            parts[0].len() == if data@.len() <= config.chunk_size { data@.len() } else { config.chunk_size as nat },
            forall|k: int| 0 <= k < parts.len() ==> (#[trigger] parts[k]).len() <= parts[0].len(),
            compressed@.len() == i,
            all_wf(compressed@),
            in_order(compressed@),
            records_of(compressed@) == wanted.take(i as int),
            forall|k: int|
                0 <= k < i ==> decode_record(#[trigger] wanted[k], config.checksum) == Ok::<Seq<u8>, ErrorKind>(
                    parts[k],
                ),
            stats.wf(),
            stats == stats_of(wanted.take(i as int)),
            stats.total_chunks == i,
            stats.total_original_size == total_original(wanted.take(i as int)),
            stats.total_compressed_size == total_payload(wanted.take(i as int)),
            payloads_fit(wanted.take(i as int)),
        decreases total_chunks - i,
    {
        let estimate = if i < estimates.len() {
            estimates[i]
        } else {
            EntropyEstimate { original: 0, delta: 0 }
        };
        let piece = RawChunk::new(raw_chunks[i].id, slice_to_vec(raw_chunks[i].data.as_slice()));
        proof {
            assert(piece.data@ == parts[i as int]);
            assert(estimate == estimate_at(estimates@, i as int));
        }
        let record = match process_chunk(piece, config, estimate) {
            Ok(record) => record,
            Err(e) => {
                proof {
                    assert(parts[i as int].len() > u32::MAX);
                    assert(parts[0].len() > u32::MAX);
                }
                return Err(e);
            },
        };
        proof {
            let next = wanted.take(i + 1);
            assert(wanted[i as int] == record.record());
            assert(records_of(compressed@.push(record)) =~= next);
            assert(next.drop_last() =~= wanted.take(i as int));
            assert(next.last() == record.record());
            assert forall|k: int| 0 <= k < next.len() implies (#[trigger] next[k]).payload.len()
                <= u32::MAX by {
                if k < i {
                    assert(next[k] == wanted.take(i as int)[k]);
                }
            }
            lemma_totals_bounded(next);
            assert(next.len() * 0xFFFF_FFFF <= 0xFFFF_FFFF * 0xFFFF_FFFF) by (nonlinear_arith)
                requires
                    next.len() <= 0xFFFF_FFFF,
            ;
        }
        stats.add_chunk(&record);
        compressed.push(record);
        i += 1;
    }
    proof {
        assert(wanted.take(i as int) =~= wanted);
        lemma_container_decodes(data@, config.chunk_size as nat, config.checksum, wanted);
    }
    let compressed_size: u64 = match write_hlc_container(&mut output, compressed.as_slice(), config) {
        Ok(written) => written,
        Err(e) => {
            return Err(e);
        },
    };
    assert(output@ =~= container_bytes(config.checksum, wanted));
    let report = CompressionReport {
        original_size,
        compressed_size,
        chunks_processed: total_chunks,
        chunk_stats: stats,
    };
    Ok((output, report))
}

/// The container for no data: a header that counts no records.
fn compress_empty(data: &[u8], config: &HlcConfig, estimates: &[EntropyEstimate]) -> (result: Result<
    (Vec<u8>, CompressionReport),
    HlcError,
>)
    requires
        data@.len() == 0,
    ensures
        result is Ok,
        result->Ok_0.0@ == container_bytes(config.checksum, Seq::<Record>::empty()),
        decompress_spec(result->Ok_0.0@, None) == Ok::<Seq<u8>, ErrorKind>(data@),
        result->Ok_0.1.original_size == 0,
        result->Ok_0.1.chunks_processed == 0,
        result->Ok_0.1.compressed_size == 0,
        result->Ok_0.1.chunk_stats == stats_of(Seq::<Record>::empty()),
{
    let mut output: Vec<u8> = Vec::new();
    let none: Vec<CompressedChunk> = Vec::new();
    proof {
        assert(records_of(none@) =~= Seq::<Record>::empty());
        lemma_container_roundtrip(config.checksum, Seq::<Record>::empty(), None);
        assert(data@ =~= Seq::<u8>::empty());
    }
    match write_hlc_container(&mut output, none.as_slice(), config) {
        Ok(_) => {},
        Err(e) => {
            return Err(e);
        },
    }
    assert(output@ =~= container_bytes(config.checksum, Seq::<Record>::empty()));
    let report = CompressionReport {
        original_size: 0,
        compressed_size: 0,
        chunks_processed: 0,
        chunk_stats: ChunkStats::new(),
    };
    Ok((output, report))
}

/// Recovers the bytes that a container holds.
///
/// The container is read with `read_hlc_container`, under the output limit
/// where one is given; then every record is decompressed, in order, and the
/// results are put in a row. The first failure ends the run with its error: an
/// I/O or format error from reading, a decompression error or a checksum
/// mismatch from a record.
pub fn decompress(reader: &[u8], limit: Option<u64>) -> (result: Result<Vec<u8>, HlcError>)
    ensures
        match decompress_spec(reader@, limit) {
            Ok(data) => result is Ok && result->Ok_0@ == data,
            Err(kind) => result is Err && result->Err_0.kind_spec() == kind,
        },
{
    let (chunks, config) = match read_hlc_container(reader, limit) {
        Ok(pair) => pair,
        Err(e) => {
            return Err(e);
        },
    };
    let ghost records = records_of(chunks@);
    let ghost kind = config.checksum;
    let mut decoded: Vec<RawChunk> = Vec::new();
    let mut i: usize = 0;
    proof {
        assert(records.take(0) =~= Seq::<Record>::empty());
        assert(chunk_data(decoded@) =~= Seq::<Seq<u8>>::empty());
    }
    while i < chunks.len()
        invariant
            i <= chunks@.len(),
            records == records_of(chunks@),
            kind == config.checksum,
            parse_container(reader@, limit) is Ok,
            parse_container(reader@, limit)->Ok_0.1 == records,
            parse_container(reader@, limit)->Ok_0.0.checksum_type == kind,
            decoded@.len() == i,
            decode_all(records.take(i as int), kind) == Ok::<Seq<u8>, ErrorKind>(concat_all(chunk_data(decoded@))),
        decreases chunks.len() - i,
    {
        proof {
            assert(records.take(i + 1).drop_last() =~= records.take(i as int));
            assert(records.take(i + 1).last() == chunks@[i as int].record());
            lemma_decode_all_prefix(records, kind, i + 1);
        }
        let chunk = match chunks[i].decompress(&config) {
            Ok(chunk) => chunk,
            Err(e) => {
                return Err(e);
            },
        };
        proof {
            let grown = decoded@.push(chunk);
            assert(chunk_data(grown).drop_last() =~= chunk_data(decoded@));
            assert(chunk_data(grown).last() == chunk.data@);
        }
        decoded.push(chunk);
        i += 1;
    }
    proof {
        assert(records.take(i as int) =~= records);
    }
    Ok(merge_chunks(decoded.as_slice()))
}

/// Checks a container by decompressing every record of it, stopping at the
/// first failure. A checksum mismatch gives `false`; a container that cannot be
/// read, or a record that does not decode, gives the error.
pub fn validate(reader: &[u8]) -> (result: Result<bool, HlcError>)
    ensures
        match validate_spec(reader@) {
            Ok(valid) => result == Ok::<bool, HlcError>(valid),
            Err(kind) => result is Err && result->Err_0.kind_spec() == kind,
        },
{
    verify_container(reader)
}

/// The counters over `records`.
pub open spec fn stats_of(records: Seq<Record>) -> ChunkStats
    decreases records.len(),
{
    if records.len() == 0 {
        ChunkStats {
            total_chunks: 0,
            stored_chunks: 0,
            rle_chunks: 0,
            delta_chunks: 0,
            dictionary_chunks: 0,
            entropy_chunks: 0,
            total_original_size: 0,
            total_compressed_size: 0,
        }
    } else {
        stats_of(records.drop_last()).with_chunk(
            records.last().flags,
            records.last().original_size,
            records.last().payload.len() as u32,
        )
    }
}

/// What a container says of itself, found without decompressing anything.
#[derive(Debug)]
pub struct FileInfo {
    pub version: u8,
    pub checksum_type: ChecksumType,
    pub total_chunks: usize,
    pub original_size: u64,
    pub compressed_size: u64,
    pub chunk_stats: ChunkStats,
}

/// Reads a container and reports its version, checksum algorithm, number of
/// records, the sums of the original and of the payload sizes of its records,
/// and the counters over its records. No record is decompressed. Fails where
/// reading the container fails.
pub fn info(reader: &[u8]) -> (result: Result<FileInfo, HlcError>)
    ensures
        match parse_container(reader@, None) {
            Ok((header, records)) => {
                &&& result is Ok
                &&& result->Ok_0.version == header.version
                &&& result->Ok_0.checksum_type == header.checksum_type
                &&& result->Ok_0.total_chunks == records.len()
                &&& result->Ok_0.original_size == total_original(records)
                &&& result->Ok_0.compressed_size == total_payload(records)
                &&& result->Ok_0.chunk_stats == stats_of(records)
            },
            Err(kind) => result is Err && result->Err_0.kind_spec() == kind,
        },
{
    let (chunks, config) = match read_hlc_container(reader, None) {
        Ok(pair) => pair,
        Err(e) => {
            return Err(e);
        },
    };
    let ghost records = records_of(chunks@);
    let count: usize = chunks.len();
    let mut stats = ChunkStats::new();
    let mut i: usize = 0;
    proof {
        assert(records.take(0) =~= Seq::<Record>::empty());
        assert forall|k: int| 0 <= k < records.len() implies (#[trigger] records[k]).payload.len()
            <= u32::MAX by {
            assert(chunks@[k].wf());
        }
    }
    while i < count
        invariant
            i <= count,
            count == chunks@.len(),
            count <= u32::MAX,
            records == records_of(chunks@),
            all_wf(chunks@),
            payloads_fit(records),
            stats.wf(),
            stats == stats_of(records.take(i as int)),
            stats.total_chunks == i,
            stats.total_original_size == total_original(records.take(i as int)),
            stats.total_compressed_size == total_payload(records.take(i as int)),
        decreases count - i,
    {
        proof {
            let next = records.take(i + 1);
            assert(next.drop_last() =~= records.take(i as int));
            assert(next.last() == chunks@[i as int].record());
            assert(chunks@[i as int].wf());
            assert forall|k: int| 0 <= k < next.len() implies (#[trigger] next[k]).payload.len()
                <= u32::MAX by {
                assert(next[k] == records[k]);
            }
            lemma_totals_bounded(next);
            assert(next.len() * 0xFFFF_FFFF <= 0xFFFF_FFFF * 0xFFFF_FFFF) by (nonlinear_arith)
                requires
                    next.len() <= 0xFFFF_FFFF,
            ;
        }
        stats.add_chunk(&chunks[i]);
        i += 1;
    }
    proof {
        assert(records.take(i as int) =~= records);
    }
    Ok(
        FileInfo {
            version: VERSION,
            checksum_type: config.checksum,
            total_chunks: count,
            original_size: stats.total_original_size,
            compressed_size: stats.total_compressed_size,
            chunk_stats: stats,
        },
    )
}

/// Decompressing what was compressed gives the data back, provided the entropy
/// coder gives back what it coded; the wrappers of the coder state this of
/// every buffer that they encode.
pub proof fn lemma_roundtrip(data: Seq<u8>, config: HlcConfig, estimates: Seq<EntropyEstimate>)
    requires
        compress_spec(data, config, estimates) is Ok,
        forall|buffer: Seq<u8>| #[trigger] crate::chunk::coder_inverts(buffer, config.entropy_level),
    ensures
        decompress_spec(compress_spec(data, config, estimates)->Ok_0, None) == Ok::<Seq<u8>, ErrorKind>(data),
{
    if data.len() == 0 {
        lemma_container_roundtrip(config.checksum, Seq::<Record>::empty(), None);
        assert(data =~= Seq::<u8>::empty());
    } else {
        let parts = pieces(data, config.chunk_size as nat);
        let records = records_for(parts, config, estimates);
        lemma_first_piece(data, config.chunk_size as nat);
        assert forall|i: int| 0 <= i < records.len() implies decode_record(
            #[trigger] records[i],
            config.checksum,
        ) == Ok::<Seq<u8>, ErrorKind>(parts[i]) && records[i].payload.len() <= u32::MAX by {
            assert(parts[i].len() <= parts[0].len());
            assert(crate::chunk::coder_inverts(
                crate::chunk::pre_entropy(parts[i], config.mode, estimate_at(estimates, i)),
                config.entropy_level,
            ));
            lemma_process_record(
                parts[i],
                config.mode,
                config.checksum,
                config.entropy_level,
                estimate_at(estimates, i),
            );
        }
        lemma_container_decodes(data, config.chunk_size as nat, config.checksum, records);
    }
}

/// The container does not depend on the number of workers: two configurations
/// that differ in `threads` alone give the same result.
pub proof fn lemma_thread_invariance(
    data: Seq<u8>,
    first: HlcConfig,
    second: HlcConfig,
    estimates: Seq<EntropyEstimate>,
)
    requires
        first.mode == second.mode,
        first.checksum == second.checksum,
        first.chunk_size == second.chunk_size,
        first.entropy_level == second.entropy_level,
    ensures
        compress_spec(data, first, estimates) == compress_spec(data, second, estimates),
{
    let parts = pieces(data, first.chunk_size as nat);
    assert(records_for(parts, first, estimates) =~= records_for(parts, second, estimates));
}

/// Empty input gives a container whose header counts no chunk and no byte, and
/// which decompresses to nothing.
pub proof fn lemma_empty_input(config: HlcConfig, estimates: Seq<EntropyEstimate>, limit: Option<u64>)
    ensures
        compress_spec(Seq::<u8>::empty(), config, estimates) is Ok,
        parse_header(compress_spec(Seq::<u8>::empty(), config, estimates)->Ok_0) is Ok,
        parse_header(compress_spec(Seq::<u8>::empty(), config, estimates)->Ok_0)->Ok_0.chunk_count == 0,
        parse_header(compress_spec(Seq::<u8>::empty(), config, estimates)->Ok_0)->Ok_0.original_size == 0,
        decompress_spec(compress_spec(Seq::<u8>::empty(), config, estimates)->Ok_0, limit) == Ok::<
            Seq<u8>,
            ErrorKind,
        >(Seq::<u8>::empty()),
{
    let none = Seq::<Record>::empty();
    lemma_container_roundtrip(config.checksum, none, limit);
    crate::container::lemma_header_roundtrip(
        header_for(config.checksum, none),
        crate::container::records_bytes(none),
    );
}

/// Every record of a container that `compress` makes has a payload no longer
/// than its original size, and flags that are `STORED` alone or hold `ENTROPY`
/// and not `STORED`.
pub proof fn lemma_emitted_records(data: Seq<u8>, config: HlcConfig, estimates: Seq<EntropyEstimate>)
    requires
        compress_spec(data, config, estimates) is Ok,
    ensures
        parse_container(compress_spec(data, config, estimates)->Ok_0, None) is Ok,
        forall|i: int|
            #![trigger parse_container(compress_spec(data, config, estimates)->Ok_0, None)->Ok_0.1[i]]
            0 <= i < parse_container(compress_spec(data, config, estimates)->Ok_0, None)->Ok_0.1.len() ==> {
                let record = parse_container(compress_spec(data, config, estimates)->Ok_0, None)->Ok_0.1[i];
                &&& record.payload.len() <= record.original_size
                &&& (record.flags == STORED || (!has_flag(record.flags, STORED) && has_flag(
                    record.flags,
                    ENTROPY,
                )))
            },
{
    if data.len() == 0 {
        lemma_container_roundtrip(config.checksum, Seq::<Record>::empty(), None);
    } else {
        let parts = pieces(data, config.chunk_size as nat);
        let records = records_for(parts, config, estimates);
        lemma_first_piece(data, config.chunk_size as nat);
        assert forall|i: int| 0 <= i < records.len() implies {
            &&& (#[trigger] records[i]).payload.len() <= records[i].original_size
            &&& records[i].payload.len() <= u32::MAX
            &&& (records[i].flags == STORED || (!has_flag(records[i].flags, STORED) && has_flag(
                records[i].flags,
                ENTROPY,
            )))
        } by {
            assert(parts[i].len() <= parts[0].len());
            lemma_process_record(
                parts[i],
                config.mode,
                config.checksum,
                config.entropy_level,
                estimate_at(estimates, i),
            );
        }
        lemma_container_roundtrip(config.checksum, records, None);
    }
}

/// Changing one of the first five bytes of a container, the magic and the
/// version, makes reading it fail with a format error.
pub proof fn lemma_header_tamper(b: Seq<u8>, at: int, value: u8, limit: Option<u64>)
    requires
        parse_header(b) is Ok,
        0 <= at < 5,
        value != b[at],
    ensures
        parse_header(b.update(at, value)) == Err::<ContainerHeader, ErrorKind>(ErrorKind::InvalidFormat),
        decompress_spec(b.update(at, value), limit) == Err::<Seq<u8>, ErrorKind>(ErrorKind::InvalidFormat),
{
    let t = b.update(at, value);
    if at < 4 {
        assert(t.subrange(0, 4)[at] == value);
        assert(b.subrange(0, 4)[at] == b[at]);
    } else {
        assert(t.subrange(0, 4) =~= b.subrange(0, 4));
    }
}

/// Where the records decode, each one unpacks to bytes of the recorded length
/// and with the recorded checksum: no output holds a part that fails its check.
pub proof fn lemma_decoded_parts_checked(records: Seq<Record>, kind: ChecksumType, i: int)
    requires
        decode_all(records, kind) is Ok,
        0 <= i < records.len(),
    ensures
        unpack_spec(records[i].flags, records[i].payload) is Some,
        unpack_spec(records[i].flags, records[i].payload)->Some_0.len() == records[i].original_size,
        checksum_spec(unpack_spec(records[i].flags, records[i].payload)->Some_0, kind) == records[i].checksum,
    decreases records.len(),
{
    if i < records.len() - 1 {
        lemma_decoded_parts_checked(records.drop_last(), kind, i);
        assert(records.drop_last()[i] == records[i]);
    }
}

/// Records of the same sizes have the same totals.
proof fn lemma_totals_alike(first: Seq<Record>, second: Seq<Record>)
    requires
        first.len() == second.len(),
        forall|i: int|
            0 <= i < first.len() ==> (#[trigger] first[i]).original_size == second[i].original_size
                && first[i].payload.len() == second[i].payload.len(),
    ensures
        total_original(first) == total_original(second),
        total_payload(first) == total_payload(second),
    decreases first.len(),
{
    if first.len() > 0 {
        assert forall|i: int| 0 <= i < first.drop_last().len() implies (#[trigger] first.drop_last()[i]).original_size
            == second.drop_last()[i].original_size && first.drop_last()[i].payload.len()
            == second.drop_last()[i].payload.len() by {
            assert(first.drop_last()[i] == first[i]);
        }
        lemma_totals_alike(first.drop_last(), second.drop_last());
        assert(first.last() == first[first.len() - 1]);
    }
}

/// Records that decode alike one by one decode alike in a row.
proof fn lemma_decode_all_alike(first: Seq<Record>, second: Seq<Record>, kind: ChecksumType)
    requires
        first.len() == second.len(),
        forall|i: int| 0 <= i < first.len() ==> decode_record(#[trigger] first[i], kind) == decode_record(second[i], kind),
    ensures
        decode_all(first, kind) == decode_all(second, kind),
    decreases first.len(),
{
    if first.len() > 0 {
        assert forall|i: int| 0 <= i < first.drop_last().len() implies decode_record(
            #[trigger] first.drop_last()[i],
            kind,
        ) == decode_record(second.drop_last()[i], kind) by {
            assert(first.drop_last()[i] == first[i]);
        }
        lemma_decode_all_alike(first.drop_last(), second.drop_last(), kind);
        assert(first.last() == first[first.len() - 1]);
    }
}

/// Decoding records fails with a decompression error or a checksum mismatch,
/// and in no other way.
pub proof fn lemma_decode_all_errors(records: Seq<Record>, kind: ChecksumType)
    ensures
        decode_all(records, kind) is Err ==> decode_all(records, kind)->Err_0 == ErrorKind::DecompressionError
            || decode_all(records, kind)->Err_0 == ErrorKind::ChecksumMismatch,
    decreases records.len(),
{
    if records.len() > 0 {
        lemma_decode_all_errors(records.drop_last(), kind);
    }
}

/// A container in which the payload of one record was changed, in any of its
/// bytes but not in its length, has the header that it had. Decompressing it
/// fails with a decompression error or a checksum mismatch, or the changed
/// record unpacks to bytes of the same length and with the same checksum as
/// before; where these are the bytes that it gave before, so is the whole
/// output. A changed payload passes with other bytes only where two chunks of
/// one length share a checksum.
pub proof fn lemma_payload_tamper(kind: ChecksumType, records: Seq<Record>, at: int, payload: Seq<u8>)
    requires
        records.len() <= u32::MAX,
        payloads_fit(records),
        decode_all(records, kind) is Ok,
        0 <= at < records.len(),
        payload.len() == records[at].payload.len(),
    ensures
        ({
            let record = records[at];
            let changed = records.update(
                at,
                Record {
                    flags: record.flags,
                    original_size: record.original_size,
                    checksum: record.checksum,
                    payload,
                },
            );
            let before = decompress_spec(container_bytes(kind, records), None);
            let after = decompress_spec(container_bytes(kind, changed), None);
            let was = unpack_spec(record.flags, record.payload);
            let is = unpack_spec(record.flags, payload);
            &&& header_for(kind, changed) == header_for(kind, records)
            &&& before is Ok
            &&& after is Err ==> after->Err_0 == ErrorKind::DecompressionError || after->Err_0
                == ErrorKind::ChecksumMismatch
            &&& after is Ok ==> {
                &&& was is Some && is is Some
                &&& is->Some_0.len() == was->Some_0.len()
                &&& checksum_spec(is->Some_0, kind) == checksum_spec(was->Some_0, kind)
                &&& is == was ==> after == before
            }
        }),
{
    let record = records[at];
    let changed = records.update(
        at,
        Record { flags: record.flags, original_size: record.original_size, checksum: record.checksum, payload },
    );
    lemma_totals_alike(changed, records);
    lemma_container_roundtrip(kind, records, None);
    lemma_container_roundtrip(kind, changed, None);
    lemma_decode_all_errors(changed, kind);
    lemma_decoded_parts_checked(records, kind, at);
    if decode_all(changed, kind) is Ok {
        lemma_decoded_parts_checked(changed, kind, at);
        if unpack_spec(record.flags, payload) == unpack_spec(record.flags, record.payload) {
            lemma_decode_all_alike(changed, records, kind);
        }
    }
}

} // verus!
