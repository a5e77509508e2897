//! Raw chunks and the chunk processor.

use vstd::prelude::*;
use vstd::slice::{slice_subrange, slice_to_vec};
use crate::endian::append;
use crate::config::{ChecksumType, HlcConfig, HlcMode};
use crate::container::{calculate_checksum, checksum_spec, decode_record, has_flag, unpack_spec};
use crate::container::{CompressedChunk, PipelineFlags, Record, DELTA, DICTIONARY, ENTROPY, RLE, STORED};
use crate::error::HlcError;
use crate::transforms::analyzer::{analyze_chunk, strategy_spec, CompressionStrategy, EntropyEstimate};
use crate::transforms::{delta, dictionary, entropy, rle};

verus! {

/// A contiguous piece of the input, with its position in the stream.
#[derive(Debug, Clone)]
pub struct RawChunk {
    pub id: usize,
    pub data: Vec<u8>,
}

impl RawChunk {
    /// The chunk number `id` holding `data`.
    pub fn new(id: usize, data: Vec<u8>) -> (chunk: Self)
        ensures
            chunk.id == id,
            chunk.data == data,
    {
        RawChunk { id, data }
    }

    /// The number of bytes of the chunk.
    pub fn size(&self) -> (size: usize)
        ensures
            size == self.data@.len(),
    {
        self.data.len()
    }

    /// Whether the chunk holds no bytes.
    pub fn is_empty(&self) -> (empty: bool)
        ensures
            empty == (self.data@.len() == 0),
    {
        self.data.len() == 0
    }
}

/// The result of the gated transform stages on `data`: the buffer and its flags.
///
/// The zero-run, delta and dictionary transforms are tried in this order, each
/// on the buffer that the stages before it left, and each only if selected. The
/// zero-run and dictionary outputs are kept if they are strictly smaller, the
/// delta output if it is not larger. If nothing was kept, or the buffer is not
/// smaller than `data`, the result is `fallback` with the flag `STORED`.
pub open spec fn apply_transforms_spec(
    data: Seq<u8>,
    use_rle: bool,
    use_delta: bool,
    use_dictionary: bool,
    fallback: Seq<u8>,
) -> (Seq<u8>, u8) {
    let (b1, f1) = if use_rle && rle::encode_spec(data).len() < data.len() {
        (rle::encode_spec(data), RLE)
    } else {
        (data, 0u8)
    };
    let (b2, f2) = if use_delta && delta::encode_spec(b1).len() <= b1.len() {
        (delta::encode_spec(b1), f1 | DELTA)
    } else {
        (b1, f1)
    };
    let (b3, f3) = if use_dictionary && dictionary::encode_spec(b2).len() < b2.len() {
        (dictionary::encode_spec(b2), f2 | DICTIONARY)
    } else {
        (b2, f2)
    };
    if f3 == 0 || b3.len() >= data.len() {
        (fallback, STORED)
    } else {
        (b3, f3)
    }
}

/// The buffer that reaches the entropy stage for `data`.
pub open spec fn pre_entropy(data: Seq<u8>, mode: HlcMode, estimate: EntropyEstimate) -> Seq<u8> {
    let (r, d, c) = strategy_spec(data, mode, estimate);
    apply_transforms_spec(data, r, d, c, data).0
}

/// The record that the chunk processor emits for `data`.
///
/// An empty chunk is stored. Otherwise the gated transforms run; unless they
/// ended in `STORED`, the entropy coder runs on their buffer at `level`, and its
/// output is kept with the flag `ENTROPY` if it is strictly smaller, while a
/// failure or no gain ends in `STORED`. At last a payload that is not smaller
/// than `data` is replaced by `data`, stored.
pub open spec fn process_spec(
    data: Seq<u8>,
    mode: HlcMode,
    kind: ChecksumType,
    level: i32,
    estimate: EntropyEstimate,
) -> Record {
    let checksum = checksum_spec(data, kind);
    if data.len() == 0 {
        Record { flags: STORED, original_size: 0, checksum, payload: data }
    } else {
        let (r, d, c) = strategy_spec(data, mode, estimate);
        let (b1, f1) = apply_transforms_spec(data, r, d, c, data);
        let (b2, f2) = if has_flag(f1, STORED) {
            (b1, f1)
        } else {
            match entropy::encode_spec(b1, level) {
                Some(coded) => if coded.len() < b1.len() {
                    (coded, f1 | ENTROPY)
                } else {
                    (data, STORED)
                },
                None => (data, STORED),
            }
        };
        let (b3, f3) = if b2.len() >= data.len() {
            (data, STORED)
        } else {
            (b2, f2)
        };
        Record { flags: f3, original_size: data.len() as u32, checksum, payload: b3 }
    }
}

/// The entropy coder gives `buffer` back from what it made of it at `level`.
pub open spec fn coder_inverts(buffer: Seq<u8>, level: i32) -> bool {
    entropy::encode_spec(buffer, level) matches Some(coded) ==> entropy::decode_spec(coded) == Some(buffer)
}

/// The flag sets that the chunk processor can reach, and the flags each holds.
proof fn lemma_flag_values()
    ensures
        0u8 | RLE == 4,
        0u8 | DELTA == 8,
        RLE | DELTA == 12,
        4u8 | ENTROPY == 6,
        8u8 | ENTROPY == 10,
        12u8 | ENTROPY == 14,
        has_flag(1, STORED),
        !has_flag(4, STORED) && !has_flag(8, STORED) && !has_flag(12, STORED),
        !has_flag(6, STORED) && has_flag(6, ENTROPY) && has_flag(6, RLE) && !has_flag(6, DELTA) && !has_flag(
            6,
            DICTIONARY,
        ),
        !has_flag(10, STORED) && has_flag(10, ENTROPY) && !has_flag(10, RLE) && has_flag(10, DELTA) && !has_flag(
            10,
            DICTIONARY,
        ),
        !has_flag(14, STORED) && has_flag(14, ENTROPY) && has_flag(14, RLE) && has_flag(14, DELTA) && !has_flag(
            14,
            DICTIONARY,
        ),
{
    assert(0u8 | 4 == 4 && 0u8 | 8 == 8 && 4u8 | 8 == 12 && 4u8 | 2 == 6 && 8u8 | 2 == 10 && 12u8 | 2 == 14)
        by (bit_vector);
    assert(1u8 & 1 == 1 && 4u8 & 1 != 1 && 8u8 & 1 != 1 && 12u8 & 1 != 1) by (bit_vector);
    assert(6u8 & 1 != 1 && 6u8 & 2 == 2 && 6u8 & 4 == 4 && 6u8 & 8 != 8 && 6u8 & 16 != 16) by (bit_vector);
    assert(10u8 & 1 != 1 && 10u8 & 2 == 2 && 10u8 & 4 != 4 && 10u8 & 8 == 8 && 10u8 & 16 != 16) by (bit_vector);
    assert(14u8 & 1 != 1 && 14u8 & 2 == 2 && 14u8 & 4 == 4 && 14u8 & 8 == 8 && 14u8 & 16 != 16) by (bit_vector);
}

/// The flags of a record that the chunk processor emits are `STORED` alone, or
/// hold `ENTROPY` and not `STORED`; its payload is no longer than the chunk; and
/// it decodes to the chunk, provided the entropy coder inverts what it coded.
pub proof fn lemma_process_record(
    data: Seq<u8>,
    mode: HlcMode,
    kind: ChecksumType,
    level: i32,
    estimate: EntropyEstimate,
)
    requires
        data.len() <= u32::MAX,
    ensures
        process_spec(data, mode, kind, level, estimate).payload.len() <= data.len(),
        process_spec(data, mode, kind, level, estimate).original_size == data.len(),
        process_spec(data, mode, kind, level, estimate).flags == STORED || (!has_flag(
            process_spec(data, mode, kind, level, estimate).flags,
            STORED,
        ) && has_flag(process_spec(data, mode, kind, level, estimate).flags, ENTROPY)),
        process_spec(data, mode, kind, level, estimate).flags == STORED ==> process_spec(
            data,
            mode,
            kind,
            level,
            estimate,
        ).payload == data,
        (process_spec(data, mode, kind, level, estimate).flags == STORED || coder_inverts(
            pre_entropy(data, mode, estimate),
            level,
        )) ==> decode_record(process_spec(data, mode, kind, level, estimate), kind) == Ok::<
            Seq<u8>,
            crate::error::ErrorKind,
        >(data),
{
    let record = process_spec(data, mode, kind, level, estimate);
    lemma_flag_values();
    if data.len() == 0 {
    } else {
        let (r, d, c) = strategy_spec(data, mode, estimate);
        let r1 = r && rle::encode_spec(data).len() < data.len();
        let b1 = if r1 { rle::encode_spec(data) } else { data };
        let d1 = d && delta::encode_spec(b1).len() <= b1.len();
        let b2 = if d1 { delta::encode_spec(b1) } else { b1 };
        let f: u8 = if r1 && d1 { 12 } else if r1 { 4 } else if d1 { 8 } else { 0 };
        rle::lemma_rle_roundtrip(data);
        delta::lemma_delta_roundtrip(b1);
        let (t, tf) = apply_transforms_spec(data, r, d, c, data);
        assert(tf == STORED || (tf == f && t == b2 && f != 0));
        if record.flags != STORED {
            assert(tf == f);
            let coded = entropy::encode_spec(b2, level)->Some_0;
            assert(record.flags == f | ENTROPY);
            assert(record.payload == coded);
            if coder_inverts(pre_entropy(data, mode, estimate), level) {
                assert(pre_entropy(data, mode, estimate) == b2);
                assert(unpack_spec(record.flags, record.payload) == Some(data));
            }
        }
    }
}

/// Runs the transforms that `strategy` selects on `data`, each kept only if it
/// pays, and falls back to the strategy's copy of the chunk, stored, if none was
/// kept or nothing was gained. It never fails.
pub fn apply_transforms(data: Vec<u8>, strategy: &CompressionStrategy) -> (result: Result<
    (Vec<u8>, PipelineFlags),
    HlcError,
>)
    ensures
        result is Ok,
        (result->Ok_0.0@, result->Ok_0.1@) == apply_transforms_spec(
            data@,
            strategy.use_rle,
            strategy.use_delta,
            strategy.use_dictionary,
            strategy.original_data@,
        ),
{
    let mut flags = PipelineFlags::empty();
    let original_len: usize = data.len();
    let mut data = data;
    if strategy.use_rle {
        let rle_data = rle::encode(data.as_slice());
        if rle_data.len() < data.len() {
            data = rle_data;
            flags.insert(PipelineFlags::rle());
            proof {
                lemma_flag_values();
            }
        }
    }
    if strategy.use_delta {
        let delta_data = delta::encode(data.as_slice());
        if delta_data.len() <= data.len() {
            data = delta_data;
            flags.insert(PipelineFlags::delta());
        }
    }
    if strategy.use_dictionary {
        let dict_data = dictionary::encode(data.as_slice());
        if dict_data.len() < data.len() {
            data = dict_data;
            flags.insert(PipelineFlags::dictionary());
        }
    }
    if flags.is_empty() || data.len() >= original_len {
        flags = PipelineFlags::stored();
        data = slice_to_vec(strategy.original_data.as_slice());
    }
    Ok((data, flags))
}

/// Checks that a chunk can be recorded: its length must fit the 32-bit size
/// field. Fails with a pipeline error exactly where it does not.
pub fn validate_chunk(chunk: &RawChunk) -> (result: Result<(), HlcError>)
    ensures
        chunk.data@.len() <= u32::MAX ==> result is Ok,
        chunk.data@.len() > u32::MAX ==> result is Err && result->Err_0 is PipelineError,
{
    if chunk.data.len() > u32::MAX as usize {
        return Err(HlcError::PipelineError("Chunk too large for processing".to_string()));
    }
    Ok(())
}

/// Compresses one chunk into a record.
///
/// The record is the one `process_spec` describes. Its payload is never longer
/// than the chunk, its flags are `STORED` alone or hold `ENTROPY` without
/// `STORED`, and decompressing it gives the chunk back. `estimate` holds the
/// entropies that the analyzer compares. A chunk whose length does not fit 32
/// bits is refused with a pipeline error; nothing else fails.
pub fn process_chunk(chunk: RawChunk, config: &HlcConfig, estimate: EntropyEstimate) -> (result: Result<
    CompressedChunk,
    HlcError,
>)
    ensures
        chunk.data@.len() > u32::MAX ==> result is Err && result->Err_0 is PipelineError,
        chunk.data@.len() <= u32::MAX ==> {
            &&& result is Ok
            &&& result->Ok_0.id == chunk.id
            &&& result->Ok_0.wf()
            &&& result->Ok_0.record() == process_spec(
                chunk.data@,
                config.mode,
                config.checksum,
                config.entropy_level,
                estimate,
            )
            &&& result->Ok_0.data@.len() <= result->Ok_0.original_size
            &&& result->Ok_0.original_size == chunk.data@.len()
            &&& (result->Ok_0.flags@ == STORED || (!has_flag(result->Ok_0.flags@, STORED) && has_flag(
                result->Ok_0.flags@,
                ENTROPY,
            )))
            &&& decode_record(result->Ok_0.record(), config.checksum) == Ok::<Seq<u8>, crate::error::ErrorKind>(
                chunk.data@,
            )
        },
{
    match validate_chunk(&chunk) {
        Ok(_) => {},
        Err(e) => {
            return Err(e);
        },
    }
    let ghost original = chunk.data@;
    let original_size: usize = chunk.data.len();
    let checksum: u64 = calculate_checksum(chunk.data.as_slice(), config.checksum);
    proof {
        lemma_process_record(original, config.mode, config.checksum, config.entropy_level, estimate);
    }
    if original_size == 0 {
        let stored = CompressedChunk::new(chunk.id, chunk.data, original_size, checksum);
        return Ok(stored);
    }
    let strategy = analyze_chunk(chunk.data.as_slice(), config.mode, estimate);
    let id: usize = chunk.id;
    let (mut transformed, mut flags) = match apply_transforms(chunk.data, &strategy) {
        Ok(pair) => pair,
        Err(e) => {
            return Err(e);
        },
    };
    let ghost buffer = transformed@;
    let ghost gated = flags@;
    assert(buffer == pre_entropy(original, config.mode, estimate));
    if !flags.contains(PipelineFlags::stored()) {
        match entropy::encode(transformed.as_slice(), config.entropy_level) {
            Ok(coded) => {
                if coded.len() < transformed.len() {
                    transformed = coded;
                    flags.insert(PipelineFlags::entropy());
                } else {
                    flags = PipelineFlags::stored();
                    transformed = slice_to_vec(strategy.original_data.as_slice());
                }
            },
            Err(_) => {
                flags = PipelineFlags::stored();
                transformed = slice_to_vec(strategy.original_data.as_slice());
            },
        }
    }
    assert(has_flag(gated, STORED) || coder_inverts(buffer, config.entropy_level));
    if transformed.len() >= original_size {
        flags = PipelineFlags::stored();
        transformed = slice_to_vec(strategy.original_data.as_slice());
    }
    let compressed_size: u32 = transformed.len() as u32;
    Ok(
        CompressedChunk {
            id,
            flags,
            original_checksum: checksum,
            original_size: original_size as u32,
            compressed_size,
            data: transformed,
        },
    )
}

/// The pieces of `data`, each of `chunk_size` bytes but the last, which holds
/// what is left. Empty data has no pieces.
pub open spec fn pieces(data: Seq<u8>, chunk_size: nat) -> Seq<Seq<u8>>
    decreases data.len(),
{
    if data.len() == 0 || chunk_size == 0 {
        Seq::<Seq<u8>>::empty()
    } else if data.len() <= chunk_size {
        seq![data]
    } else {
        seq![data.take(chunk_size as int)] + pieces(data.skip(chunk_size as int), chunk_size)
    }
}

/// The byte sequences in a row.
pub open spec fn concat_all(parts: Seq<Seq<u8>>) -> Seq<u8>
    decreases parts.len(),
{
    if parts.len() == 0 {
        Seq::<u8>::empty()
    } else {
        concat_all(parts.drop_last()) + parts.last()
    }
}

/// The bytes of each chunk.
pub open spec fn chunk_data(chunks: Seq<RawChunk>) -> Seq<Seq<u8>> {
    Seq::new(chunks.len(), |i: int| chunks[i].data@)
}

/// Chunk `i` has the id `i`.
pub open spec fn dense_ids(chunks: Seq<RawChunk>) -> bool {
    forall|i: int| 0 <= i < chunks.len() ==> (#[trigger] chunks[i]).id == i
}

/// Putting a part in front of a row of parts puts it in front of their concatenation.
pub proof fn lemma_concat_front(head: Seq<u8>, tail: Seq<Seq<u8>>)
    ensures
        concat_all(seq![head] + tail) == head + concat_all(tail),
    decreases tail.len(),
{
    let all = seq![head] + tail;
    if tail.len() == 0 {
        assert(all.drop_last() =~= Seq::<Seq<u8>>::empty());
        assert(all.last() == head);
        assert(concat_all(all.drop_last()) =~= Seq::<u8>::empty());
        assert(concat_all(all) =~= head + concat_all(tail));
    } else {
        lemma_concat_front(head, tail.drop_last());
        assert(all.drop_last() =~= seq![head] + tail.drop_last());
        assert(all.last() == tail.last());
        assert(concat_all(all) =~= head + concat_all(tail));
    }
}

/// The pieces of `data` in a row are `data`; each piece holds at least one byte
/// and at most `chunk_size`; all but the last hold exactly `chunk_size`.
pub proof fn lemma_pieces(data: Seq<u8>, chunk_size: nat)
    requires
        chunk_size > 0,
    ensures
        concat_all(pieces(data, chunk_size)) == data,
        forall|i: int|
            0 <= i < pieces(data, chunk_size).len() ==> 1 <= (#[trigger] pieces(data, chunk_size)[i]).len()
                <= chunk_size,
        forall|i: int|
            0 <= i < pieces(data, chunk_size).len() - 1 ==> (#[trigger] pieces(data, chunk_size)[i]).len()
                == chunk_size,
        data.len() == 0 <==> pieces(data, chunk_size).len() == 0,
        pieces(data, chunk_size).len() <= data.len(),
    decreases data.len(),
{
    let p = pieces(data, chunk_size);
    if data.len() == 0 {
        assert(concat_all(p) =~= data);
    } else if data.len() <= chunk_size {
        assert(p.drop_last() =~= Seq::<Seq<u8>>::empty());
        assert(p.last() == data);
        assert(concat_all(p.drop_last()) =~= Seq::<u8>::empty());
        assert(concat_all(p) =~= data);
    } else {
        let head = data.take(chunk_size as int);
        let rest = data.skip(chunk_size as int);
        lemma_pieces(rest, chunk_size);
        lemma_concat_front(head, pieces(rest, chunk_size));
        assert(head + rest =~= data);
        assert forall|i: int| 0 <= i < p.len() implies 1 <= (#[trigger] p[i]).len() <= chunk_size by {
            if i > 0 {
                assert(p[i] == pieces(rest, chunk_size)[i - 1]);
            }
        }
        assert forall|i: int| 0 <= i < p.len() - 1 implies (#[trigger] p[i]).len() == chunk_size by {
            if i > 0 {
                assert(p[i] == pieces(rest, chunk_size)[i - 1]);
            }
        }
    }
}

/// Splits `data` into chunks of `chunk_size` bytes, the last one possibly
/// shorter, numbered from 0 in stream order. Empty data gives no chunk.
pub fn split_into_chunks(data: &[u8], chunk_size: usize) -> (chunks: Vec<RawChunk>)
    requires
        chunk_size > 0,
    ensures
        chunk_data(chunks@) == pieces(data@, chunk_size as nat),
        dense_ids(chunks@),
{
    let n: usize = data.len();
    let mut chunks: Vec<RawChunk> = Vec::new();
    let mut start: usize = 0;
    proof {
        assert(data@.skip(0) =~= data@);
        assert(chunk_data(chunks@) + pieces(data@, chunk_size as nat) =~= pieces(data@, chunk_size as nat));
    }
    while start < n
        invariant
            n == data@.len(),
            chunk_size > 0,
            start <= n,
            chunks@.len() <= start,
            dense_ids(chunks@),
            chunk_data(chunks@) + pieces(data@.skip(start as int), chunk_size as nat) == pieces(
                data@,
                chunk_size as nat,
            ),
        decreases n - start,
    {
        let end: usize = if n - start <= chunk_size { n } else { start + chunk_size };
        let piece: Vec<u8> = slice_to_vec(slice_subrange(data, start, end));
        let ghost before = chunks@;
        let ghost rest = data@.skip(start as int);
        let id: usize = chunks.len();
        chunks.push(RawChunk::new(id, piece));
        proof {
            if n - start <= chunk_size {
                assert(rest =~= data@.subrange(start as int, end as int));
                assert(data@.skip(end as int).len() == 0);
                assert(chunk_data(chunks@) + pieces(data@.skip(end as int), chunk_size as nat) =~= chunk_data(
                    before,
                ) + seq![rest]);
            } else {
                assert(rest.take(chunk_size as int) =~= data@.subrange(start as int, end as int));
                assert(rest.skip(chunk_size as int) =~= data@.skip(end as int));
                assert(chunk_data(chunks@) + pieces(data@.skip(end as int), chunk_size as nat) =~= chunk_data(
                    before,
                ) + (seq![rest.take(chunk_size as int)] + pieces(rest.skip(chunk_size as int), chunk_size as nat)));
            }
        }
        start = end;
    }
    proof {
        assert(data@.skip(start as int).len() == 0);
        assert(chunk_data(chunks@) + Seq::<Seq<u8>>::empty() =~= chunk_data(chunks@));
    }
    chunks
}

/// Puts the bytes of the chunks in a row, in the order given.
pub fn merge_chunks(chunks: &[RawChunk]) -> (merged: Vec<u8>)
    ensures
        merged@ == concat_all(chunk_data(chunks@)),
{
    let mut merged: Vec<u8> = Vec::new();
    let mut i: usize = 0;
    proof {
        assert(chunk_data(chunks@).take(0) =~= Seq::<Seq<u8>>::empty());
    }
    while i < chunks.len()
        invariant
            i <= chunks.len(),
            merged@ == concat_all(chunk_data(chunks@).take(i as int)),
        decreases chunks.len() - i,
    {
        proof {
            let parts = chunk_data(chunks@);
            assert(parts.take(i + 1).drop_last() =~= parts.take(i as int));
            assert(parts.take(i + 1).last() == chunks@[i as int].data@);
        }
        append(&mut merged, chunks[i].data.as_slice());
        i += 1;
    }
    proof {
        assert(chunk_data(chunks@).take(i as int) =~= chunk_data(chunks@));
    }
    merged
}

/// Splitting and merging gives the data back.
pub proof fn lemma_split_merge(data: Seq<u8>, chunk_size: nat)
    requires
        chunk_size > 0,
    ensures
        concat_all(pieces(data, chunk_size)) == data,
{
    lemma_pieces(data, chunk_size);
}

/// Counters over the records of a container.
#[derive(Debug, Clone, Default)]
pub struct ChunkStats {
    pub total_chunks: usize,
    pub stored_chunks: usize,
    pub rle_chunks: usize,
    pub delta_chunks: usize,
    pub dictionary_chunks: usize,
    pub entropy_chunks: usize,
    pub total_original_size: u64,
    pub total_compressed_size: u64,
}

impl ChunkStats {
    /// No counter of a flag exceeds the number of chunks.
    pub open spec fn wf(self) -> bool {
        &&& self.stored_chunks <= self.total_chunks
        &&& self.rle_chunks <= self.total_chunks
        &&& self.delta_chunks <= self.total_chunks
        &&& self.dictionary_chunks <= self.total_chunks
        &&& self.entropy_chunks <= self.total_chunks
    }

    /// The counters after one more chunk with the given flags and sizes.
    pub open spec fn with_chunk(self, flags: u8, original_size: u32, compressed_size: u32) -> ChunkStats {
        ChunkStats {
            total_chunks: (self.total_chunks + 1) as usize,
            stored_chunks: (self.stored_chunks + if has_flag(flags, STORED) { 1int } else { 0int }) as usize,
            rle_chunks: (self.rle_chunks + if has_flag(flags, RLE) { 1int } else { 0int }) as usize,
            delta_chunks: (self.delta_chunks + if has_flag(flags, DELTA) { 1int } else { 0int }) as usize,
            dictionary_chunks: (self.dictionary_chunks + if has_flag(flags, DICTIONARY) {
                1int
            } else {
                0int
            }) as usize,
            entropy_chunks: (self.entropy_chunks + if has_flag(flags, ENTROPY) { 1int } else { 0int }) as usize,
            total_original_size: (self.total_original_size + original_size) as u64,
            total_compressed_size: (self.total_compressed_size + compressed_size) as u64,
        }
    }

    /// All counters at zero.
    pub fn new() -> (stats: Self)
        ensures
            stats.total_chunks == 0,
            stats.stored_chunks == 0,
            stats.rle_chunks == 0,
            stats.delta_chunks == 0,
            stats.dictionary_chunks == 0,
            stats.entropy_chunks == 0,
            stats.total_original_size == 0,
            stats.total_compressed_size == 0,
            stats.wf(),
    {
        ChunkStats {
            total_chunks: 0,
            stored_chunks: 0,
            rle_chunks: 0,
            delta_chunks: 0,
            dictionary_chunks: 0,
            entropy_chunks: 0,
            total_original_size: 0,
            total_compressed_size: 0,
        }
    }

    /// Counts `chunk`: one more chunk, its sizes added to the totals, and one
    /// more for each flag it holds. The counters must have room.
    pub fn add_chunk(&mut self, chunk: &CompressedChunk)
        requires
            old(self).wf(),
            old(self).total_chunks < usize::MAX,
            old(self).total_original_size + chunk.original_size <= u64::MAX,
            old(self).total_compressed_size + chunk.compressed_size <= u64::MAX,
        ensures
            *final(self) == old(self).with_chunk(chunk.flags@, chunk.original_size, chunk.compressed_size),
            final(self).wf(),
    {
        self.total_chunks += 1;
        self.total_original_size += chunk.original_size as u64;
        self.total_compressed_size += chunk.compressed_size as u64;
        if chunk.flags.contains(PipelineFlags::stored()) {
            self.stored_chunks += 1;
        }
        if chunk.flags.contains(PipelineFlags::rle()) {
            self.rle_chunks += 1;
        }
        if chunk.flags.contains(PipelineFlags::delta()) {
            self.delta_chunks += 1;
        }
        if chunk.flags.contains(PipelineFlags::dictionary()) {
            self.dictionary_chunks += 1;
        }
        if chunk.flags.contains(PipelineFlags::entropy()) {
            self.entropy_chunks += 1;
        }
    }

    /// The bytes saved: the original total less the compressed total, or zero
    /// where the compressed total is the larger.
    pub fn space_saved(&self) -> (saved: u64)
        ensures
            saved == if self.total_original_size >= self.total_compressed_size {
                self.total_original_size - self.total_compressed_size
            } else {
                0
            },
    {
        self.total_original_size.saturating_sub(self.total_compressed_size)
    }
}

} // verus!
