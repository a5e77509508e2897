//! The container format: pipeline flags, chunk records, the global header, and
//! the functions that write and read a container as bytes.

use vstd::prelude::*;
use vstd::slice::{slice_subrange, slice_to_vec};
use crate::checksum::{crc32_of, sha256_of, ChecksumUtils};
use crate::chunk::RawChunk;
use crate::config::{ChecksumType, HlcConfig};
use crate::endian::{append, push_u32, push_u64, read_u32, read_u64, u32_at, u32_bytes, u64_at, u64_bytes};
use crate::endian::{lemma_u32_roundtrip, lemma_u64_roundtrip};
use crate::error::{ErrorKind, HlcError};
use crate::text::with_number;
use crate::transforms::{delta, dictionary, entropy, rle};

verus! {

/// The payload is the original bytes, verbatim.
pub const STORED: u8 = 0x01;

/// The payload went through the entropy coder.
pub const ENTROPY: u8 = 0x02;

/// The zero-run transform was applied.
pub const RLE: u8 = 0x04;

/// The delta transform was applied.
pub const DELTA: u8 = 0x08;

/// The dictionary transform was applied.
pub const DICTIONARY: u8 = 0x10;

/// Reserved.
pub const RESERVED_1: u8 = 0x20;

/// Reserved.
pub const RESERVED_2: u8 = 0x40;

/// Reserved.
pub const RESERVED_3: u8 = 0x80;

/// Whether every bit of `flag` is set in `bits`.
pub open spec fn has_flag(bits: u8, flag: u8) -> bool {
    bits & flag == flag
}

/// The set of stages that a chunk went through, as a bit mask.
#[derive(Debug, Clone, Copy, PartialEq, Eq, Structural)]
pub struct PipelineFlags {
    bits: u8,
}

impl View for PipelineFlags {
    type V = u8;

    closed spec fn view(&self) -> u8 {
        self.bits
    }
}

impl PipelineFlags {
    /// No flag.
    pub fn empty() -> (flags: Self)
        ensures
            flags@ == 0,
    {
        PipelineFlags { bits: 0 }
    }

    /// The flags with the bit mask `bits`. All eight bits are defined, so none is dropped.
    pub fn from_bits_truncate(bits: u8) -> (flags: Self)
        ensures
            flags@ == bits,
    {
        PipelineFlags { bits }
    }

    /// `STORED` alone.
    pub fn stored() -> (flags: Self)
        ensures
            flags@ == STORED,
    {
        PipelineFlags { bits: STORED }
    }

    /// `ENTROPY` alone.
    pub fn entropy() -> (flags: Self)
        ensures
            flags@ == ENTROPY,
    {
        PipelineFlags { bits: ENTROPY }
    }

    /// `RLE` alone.
    pub fn rle() -> (flags: Self)
        ensures
            flags@ == RLE,
    {
        PipelineFlags { bits: RLE }
    }

    /// `DELTA` alone.
    pub fn delta() -> (flags: Self)
        ensures
            flags@ == DELTA,
    {
        PipelineFlags { bits: DELTA }
    }

    /// `DICTIONARY` alone.
    pub fn dictionary() -> (flags: Self)
        ensures
            flags@ == DICTIONARY,
    {
        PipelineFlags { bits: DICTIONARY }
    }

    /// The bit mask.
    pub fn bits(&self) -> (bits: u8)
        ensures
            bits == self@,
    {
        self.bits
    }

    /// Whether no flag is set.
    pub fn is_empty(&self) -> (empty: bool)
        ensures
            empty == (self@ == 0),
    {
        self.bits == 0
    }

    /// Whether every flag of `other` is set.
    pub fn contains(&self, other: PipelineFlags) -> (found: bool)
        ensures
            found == has_flag(self@, other@),
    {
        self.bits & other.bits == other.bits
    }

    /// The flags of both.
    pub fn union(self, other: PipelineFlags) -> (flags: Self)
        ensures
            flags@ == self@ | other@,
    {
        PipelineFlags { bits: self.bits | other.bits }
    }

    /// Sets the flags of `other`.
    pub fn insert(&mut self, other: PipelineFlags)
        ensures
            final(self)@ == old(self)@ | other@,
    {
        self.bits = self.bits | other.bits;
    }
}

/// What a chunk record says, apart from its position: the wire fields with the
/// payload as a sequence.
pub struct Record {
    pub flags: u8,
    pub original_size: u32,
    pub checksum: u64,
    pub payload: Seq<u8>,
}

/// The 64-bit integrity tag of `data`: its CRC32, or the first eight bytes of
/// its SHA-256 digest read least significant byte first.
pub open spec fn checksum_spec(data: Seq<u8>, kind: ChecksumType) -> u64 {
    match kind {
        ChecksumType::CRC32 => crc32_of(data) as u64,
        ChecksumType::SHA256 => u64_at(sha256_of(data), 0),
    }
}

/// Computes the 64-bit integrity tag of `data`.
pub fn calculate_checksum(data: &[u8], checksum_type: ChecksumType) -> (checksum: u64)
    ensures
        checksum == checksum_spec(data@, checksum_type),
{
    match checksum_type {
        ChecksumType::CRC32 => ChecksumUtils::crc32(data) as u64,
        ChecksumType::SHA256 => {
            let hash: [u8; 32] = ChecksumUtils::sha256(data);
            read_u64(hash.as_slice(), 0)
        },
    }
}

/// The bytes that the inverse stages give for a payload: the payload itself if
/// `STORED` is set; else the entropy stage is undone if `ENTROPY` is set, and
/// then the dictionary, delta and zero-run transforms, in this order, each if
/// its flag is set. `None` where the entropy decoder fails.
pub open spec fn unpack_spec(flags: u8, payload: Seq<u8>) -> Option<Seq<u8>> {
    if has_flag(flags, STORED) {
        Some(payload)
    } else {
        let coded = if has_flag(flags, ENTROPY) { entropy::decode_spec(payload) } else { Some(payload) };
        match coded {
            None => None,
            Some(d0) => {
                let d1 = if has_flag(flags, DICTIONARY) { dictionary::decode_spec(d0) } else { d0 };
                let d2 = if has_flag(flags, DELTA) { delta::decode_spec(d1) } else { d1 };
                let d3 = if has_flag(flags, RLE) { rle::decode_spec(d2) } else { d2 };
                Some(d3)
            },
        }
    }
}

/// What decompressing a record gives: its unpacked bytes, if they have the
/// recorded length and the recorded checksum.
pub open spec fn decode_record(record: Record, kind: ChecksumType) -> Result<Seq<u8>, ErrorKind> {
    match unpack_spec(record.flags, record.payload) {
        None => Err(ErrorKind::DecompressionError),
        Some(data) => {
            if data.len() != record.original_size {
                Err(ErrorKind::DecompressionError)
            } else if checksum_spec(data, kind) != record.checksum {
                Err(ErrorKind::ChecksumMismatch)
            } else {
                Ok(data)
            }
        },
    }
}

/// A compressed chunk: a record with its position in the stream.
#[derive(Debug, Clone)]
pub struct CompressedChunk {
    pub id: usize,
    pub flags: PipelineFlags,
    pub original_checksum: u64,
    pub original_size: u32,
    pub compressed_size: u32,
    pub data: Vec<u8>,
}

impl CompressedChunk {
    /// What this chunk says as a record.
    pub open spec fn record(self) -> Record {
        Record {
            flags: self.flags@,
            original_size: self.original_size,
            checksum: self.original_checksum,
            payload: self.data@,
        }
    }

    /// The recorded payload size is the payload's length.
    pub open spec fn wf(self) -> bool {
        self.compressed_size == self.data@.len()
    }

    /// A stored chunk: `data` is the payload, kept verbatim. Both sizes must fit
    /// the 32-bit fields of a record.
    pub fn new(id: usize, data: Vec<u8>, original_size: usize, checksum: u64) -> (chunk: Self)
        requires
            original_size <= u32::MAX,
            data@.len() <= u32::MAX,
        ensures
            chunk.id == id,
            chunk.flags@ == STORED,
            chunk.original_checksum == checksum,
            chunk.original_size == original_size,
            chunk.compressed_size == data@.len(),
            chunk.data == data,
            chunk.wf(),
    {
        let compressed_size: u32 = data.len() as u32;
        CompressedChunk {
            id,
            flags: PipelineFlags::stored(),
            original_checksum: checksum,
            original_size: original_size as u32,
            compressed_size,
            data,
        }
    }

    /// Recovers the original chunk: undoes the stages that the flags name, in
    /// reverse order, then checks the length and the checksum against the record.
    ///
    /// Fails with a decompression error where the entropy decoder fails or the
    /// length is wrong, and with a checksum mismatch where the checksum, computed
    /// with the algorithm of `config`, differs.
    pub fn decompress(&self, config: &HlcConfig) -> (result: Result<RawChunk, HlcError>)
        ensures
            match decode_record(self.record(), config.checksum) {
                Ok(data) => result is Ok && result->Ok_0.data@ == data && result->Ok_0.id == self.id,
                Err(kind) => result is Err && result->Err_0.kind_spec() == kind,
            },
    {
        let mut data: Vec<u8> = slice_to_vec(self.data.as_slice());
        if self.flags.contains(PipelineFlags::stored()) {
        } else {
            if self.flags.contains(PipelineFlags::entropy()) {
                match entropy::decode(data.as_slice()) {
                    Ok(decoded) => {
                        data = decoded;
                    },
                    Err(e) => {
                        return Err(e);
                    },
                }
            }
            if self.flags.contains(PipelineFlags::dictionary()) {
                data = dictionary::decode(data.as_slice());
            }
            if self.flags.contains(PipelineFlags::delta()) {
                data = delta::decode(data.as_slice());
            }
            if self.flags.contains(PipelineFlags::rle()) {
                data = rle::decode(data.as_slice());
            }
        }
        assert(unpack_spec(self.flags@, self.data@) == Some(data@));
        if data.len() != self.original_size as usize {
            return Err(HlcError::DecompressionError(with_number(
                "Decompressed size does not match expected size ",
                self.original_size as u64,
            )));
        }
        let checksum: u64 = calculate_checksum(data.as_slice(), config.checksum);
        if checksum != self.original_checksum {
            return Err(HlcError::ChecksumMismatch);
        }
        Ok(RawChunk { id: self.id, data })
    }
}

/// The four bytes that open a container: `HLC1`.
pub open spec fn magic() -> Seq<u8> {
    seq![0x48u8, 0x4Cu8, 0x43u8, 0x31u8]
}

/// The format version that this library writes and reads.
pub const VERSION: u8 = 1;

/// The size of the global header in bytes.
pub const HEADER_SIZE: usize = 30;

/// The size of the fixed part of a record in bytes.
pub const RECORD_HEADER_SIZE: usize = 17;

/// The global header of a container.
#[derive(Debug)]
pub struct ContainerHeader {
    pub version: u8,
    pub checksum_type: ChecksumType,
    pub chunk_count: u32,
    pub original_size: u64,
    pub compressed_size: u64,
    pub flags: u32,
}

/// The checksum algorithm with the identifier `id`, for the identifiers 0 and 1.
pub open spec fn checksum_with_id(id: u8) -> ChecksumType {
    if id == 0 {
        ChecksumType::CRC32
    } else {
        ChecksumType::SHA256
    }
}

/// What reading a global header from `b` gives. The fields are read in order;
/// a field that `b` is too short for is an I/O error, a wrong magic, version or
/// checksum identifier a format error.
pub open spec fn parse_header(b: Seq<u8>) -> Result<ContainerHeader, ErrorKind> {
    if b.len() < 4 {
        Err(ErrorKind::Io)
    } else if b.subrange(0, 4) != magic() {
        Err(ErrorKind::InvalidFormat)
    } else if b.len() < 5 {
        Err(ErrorKind::Io)
    } else if b[4] != VERSION {
        Err(ErrorKind::InvalidFormat)
    } else if b.len() < 6 {
        Err(ErrorKind::Io)
    } else if b[5] > 1 {
        Err(ErrorKind::InvalidFormat)
    } else if b.len() < 30 {
        Err(ErrorKind::Io)
    } else {
        Ok(
            ContainerHeader {
                version: b[4],
                checksum_type: checksum_with_id(b[5]),
                chunk_count: u32_at(b, 6),
                original_size: u64_at(b, 10),
                compressed_size: u64_at(b, 18),
                flags: u32_at(b, 26),
            },
        )
    }
}

impl ContainerHeader {
    /// The 30 bytes of this header.
    pub open spec fn bytes_spec(self) -> Seq<u8> {
        magic() + seq![self.version] + seq![self.checksum_type.id_spec()] + u32_bytes(self.chunk_count)
            + u64_bytes(self.original_size) + u64_bytes(self.compressed_size) + u32_bytes(self.flags)
    }

    /// A header of the current version for `chunk_count` chunks, with both sizes
    /// and the flags at zero. The count must fit its 32-bit field.
    pub fn new(checksum_type: ChecksumType, chunk_count: usize) -> (header: Self)
        requires
            chunk_count <= u32::MAX,
        ensures
            header.version == VERSION,
            header.checksum_type == checksum_type,
            header.chunk_count == chunk_count,
            header.original_size == 0,
            header.compressed_size == 0,
            header.flags == 0,
    {
        ContainerHeader {
            version: VERSION,
            checksum_type,
            chunk_count: chunk_count as u32,
            original_size: 0,
            compressed_size: 0,
            flags: 0,
        }
    }

    /// Appends the bytes of this header to `writer`. It never fails.
    pub fn write(&self, writer: &mut Vec<u8>) -> (result: Result<(), HlcError>)
        ensures
            result is Ok,
            final(writer)@ == old(writer)@ + self.bytes_spec(),
    {
        let ghost start = writer@;
        let ghost lead0 = magic() + seq![self.version] + seq![self.checksum_type.id_spec()];
        writer.push(0x48);
        writer.push(0x4C);
        writer.push(0x43);
        writer.push(0x31);
        writer.push(self.version);
        writer.push(self.checksum_type.id());
        assert(writer@ =~= start + lead0);
        push_u32(writer, self.chunk_count);
        let ghost lead1 = lead0 + u32_bytes(self.chunk_count);
        assert(writer@ =~= start + lead1);
        push_u64(writer, self.original_size);
        let ghost lead2 = lead1 + u64_bytes(self.original_size);
        assert(writer@ =~= start + lead2);
        push_u64(writer, self.compressed_size);
        let ghost lead3 = lead2 + u64_bytes(self.compressed_size);
        assert(writer@ =~= start + lead3);
        push_u32(writer, self.flags);
        assert(writer@ =~= start + (lead3 + u32_bytes(self.flags)));
        Ok(())
    }

    /// Reads a header from the start of `reader`.
    ///
    /// Fails with an I/O error where `reader` ends inside the header, and with a
    /// format error on a wrong magic, a version other than 1, or a checksum
    /// identifier other than 0 and 1, whichever comes first in reading order.
    pub fn read(reader: &[u8]) -> (result: Result<Self, HlcError>)
        ensures
            match parse_header(reader@) {
                Ok(header) => result == Ok::<ContainerHeader, HlcError>(header),
                Err(kind) => result is Err && result->Err_0.kind_spec() == kind,
            },
    {
        let n: usize = reader.len();
        if n < 4 {
            return Err(HlcError::Io("failed to fill whole buffer".to_string()));
        }
        if reader[0] != 0x48 || reader[1] != 0x4C || reader[2] != 0x43 || reader[3] != 0x31 {
            assert(reader@.subrange(0, 4)[0] == reader@[0]);
            assert(reader@.subrange(0, 4)[1] == reader@[1]);
            assert(reader@.subrange(0, 4)[2] == reader@[2]);
            assert(reader@.subrange(0, 4)[3] == reader@[3]);
            return Err(HlcError::InvalidFormat("Invalid magic number".to_string()));
        }
        assert(reader@.subrange(0, 4) =~= magic());
        if n < 5 {
            return Err(HlcError::Io("failed to fill whole buffer".to_string()));
        }
        let version: u8 = reader[4];
        if version != VERSION {
            return Err(HlcError::InvalidFormat(with_number("Unsupported version: ", version as u64)));
        }
        if n < 6 {
            return Err(HlcError::Io("failed to fill whole buffer".to_string()));
        }
        let checksum_id: u8 = reader[5];
        if checksum_id > 1 {
            return Err(HlcError::InvalidFormat("Unknown checksum type".to_string()));
        }
        let checksum_type = if checksum_id == 0 { ChecksumType::CRC32 } else { ChecksumType::SHA256 };
        if n < 30 {
            return Err(HlcError::Io("failed to fill whole buffer".to_string()));
        }
        let chunk_count: u32 = read_u32(reader, 6);
        let original_size: u64 = read_u64(reader, 10);
        let compressed_size: u64 = read_u64(reader, 18);
        let flags: u32 = read_u32(reader, 26);
        Ok(ContainerHeader { version, checksum_type, chunk_count, original_size, compressed_size, flags })
    }

    /// The size of a header in bytes: 30.
    pub fn size() -> (size: usize)
        ensures
            size == HEADER_SIZE,
    {
        4 + 1 + 1 + 4 + 8 + 8 + 4
    }
}

/// Reading the bytes of a header of the current version gives the header back,
/// whatever follows them.
pub proof fn lemma_header_roundtrip(header: ContainerHeader, rest: Seq<u8>)
    requires
        header.version == VERSION,
    ensures
        header.bytes_spec().len() == 30,
        parse_header(header.bytes_spec() + rest) == Ok::<ContainerHeader, ErrorKind>(header),
{
    let h = header.bytes_spec();
    let b = h + rest;
    let lead0 = magic() + seq![header.version] + seq![header.checksum_type.id_spec()];
    let c = u32_bytes(header.chunk_count);
    let o = u64_bytes(header.original_size);
    let z = u64_bytes(header.compressed_size);
    let f = u32_bytes(header.flags);
    assert(h.len() == 30);
    assert(b.subrange(0, 4) =~= magic());
    assert(b[4] == header.version);
    assert(b[5] == header.checksum_type.id_spec());
    assert(u32_at(b, 6) == header.chunk_count) by {
        assert(b =~= lead0 + c + (o + z + f + rest));
        crate::endian::lemma_u32_embedded(lead0, header.chunk_count, o + z + f + rest);
    }
    assert(u64_at(b, 10) == header.original_size) by {
        assert(b =~= (lead0 + c) + o + (z + f + rest));
        crate::endian::lemma_u64_embedded(lead0 + c, header.original_size, z + f + rest);
    }
    assert(u64_at(b, 18) == header.compressed_size) by {
        assert(b =~= (lead0 + c + o) + z + (f + rest));
        crate::endian::lemma_u64_embedded(lead0 + c + o, header.compressed_size, f + rest);
    }
    assert(u32_at(b, 26) == header.flags) by {
        assert(b =~= (lead0 + c + o + z) + f + rest);
        crate::endian::lemma_u32_embedded(lead0 + c + o + z, header.flags, rest);
    }
}

/// The bytes of a record: flags, original size, payload size, checksum, payload.
#[verifier::opaque]
pub open spec fn record_bytes(record: Record) -> Seq<u8> {
    seq![record.flags] + u32_bytes(record.original_size) + u32_bytes(record.payload.len() as u32) + u64_bytes(
        record.checksum,
    ) + record.payload
}

/// The bytes of the records in a row.
pub open spec fn records_bytes(records: Seq<Record>) -> Seq<u8>
    decreases records.len(),
{
    if records.len() == 0 {
        Seq::<u8>::empty()
    } else {
        record_bytes(records[0]) + records_bytes(records.skip(1))
    }
}

/// The sum of the original sizes of the records.
pub open spec fn total_original(records: Seq<Record>) -> nat
    decreases records.len(),
{
    if records.len() == 0 {
        0
    } else {
        total_original(records.drop_last()) + records.last().original_size as nat
    }
}

/// The sum of the payload sizes of the records.
pub open spec fn total_payload(records: Seq<Record>) -> nat
    decreases records.len(),
{
    if records.len() == 0 {
        0
    } else {
        total_payload(records.drop_last()) + records.last().payload.len()
    }
}

/// The header of the container that holds `records`.
pub open spec fn header_for(kind: ChecksumType, records: Seq<Record>) -> ContainerHeader {
    ContainerHeader {
        version: VERSION,
        checksum_type: kind,
        chunk_count: records.len() as u32,
        original_size: total_original(records) as u64,
        compressed_size: total_payload(records) as u64,
        flags: 0,
    }
}

/// The bytes of the container that holds `records`: the header with the number
/// of records and the two totals, then the records in order.
pub open spec fn container_bytes(kind: ChecksumType, records: Seq<Record>) -> Seq<u8> {
    header_for(kind, records).bytes_spec() + records_bytes(records)
}

/// The records of the chunks.
pub open spec fn records_of(chunks: Seq<CompressedChunk>) -> Seq<Record> {
    Seq::new(chunks.len(), |i: int| chunks[i].record())
}

/// Every chunk records its payload's length.
pub open spec fn all_wf(chunks: Seq<CompressedChunk>) -> bool {
    forall|i: int| 0 <= i < chunks.len() ==> (#[trigger] chunks[i]).wf()
}

/// Chunk `i` has the id `i`.
pub open spec fn in_order(chunks: Seq<CompressedChunk>) -> bool {
    forall|i: int| 0 <= i < chunks.len() ==> (#[trigger] chunks[i]).id == i
}

/// Every payload fits the 32-bit size field.
pub open spec fn payloads_fit(records: Seq<Record>) -> bool {
    forall|i: int| 0 <= i < records.len() ==> (#[trigger] records[i]).payload.len() <= u32::MAX
}

/// The bytes of records followed by one more record.
pub proof fn lemma_records_bytes_push(records: Seq<Record>, last: Record)
    ensures
        records_bytes(records.push(last)) == records_bytes(records) + record_bytes(last),
    decreases records.len(),
{
    let all = records.push(last);
    if records.len() == 0 {
        assert(all.skip(1) =~= Seq::<Record>::empty());
        assert(records_bytes(all.skip(1)) =~= Seq::<u8>::empty());
        assert(records_bytes(all) =~= records_bytes(records) + record_bytes(last));
    } else {
        lemma_records_bytes_push(records.skip(1), last);
        assert(all.skip(1) =~= records.skip(1).push(last));
        assert(records_bytes(all) =~= records_bytes(records) + record_bytes(last));
    }
}

/// Both totals are bounded by the number of records times the largest size.
pub proof fn lemma_totals_bounded(records: Seq<Record>)
    requires
        payloads_fit(records),
    ensures
        total_original(records) <= records.len() * 0xFFFF_FFFF,
        total_payload(records) <= records.len() * 0xFFFF_FFFF,
    decreases records.len(),
{
    if records.len() > 0 {
        let front = records.drop_last();
        assert forall|i: int| 0 <= i < front.len() implies (#[trigger] front[i]).payload.len() <= u32::MAX by {
            assert(front[i] == records[i]);
        }
        lemma_totals_bounded(front);
    }
}

/// Writes the container that holds `chunks` to `writer`: the global header with
/// the number of chunks and the two totals, then one record per chunk in the
/// order given. Returns the number of bytes written.
///
/// Fails with a pipeline error, writing nothing, exactly where there are more
/// chunks than the 32-bit count can hold.
pub fn write_hlc_container(writer: &mut Vec<u8>, chunks: &[CompressedChunk], config: &HlcConfig) -> (result:
    Result<u64, HlcError>)
    requires
        all_wf(chunks@),
    ensures
        chunks@.len() <= u32::MAX ==> result is Ok && final(writer)@ == old(writer)@ + container_bytes(
            config.checksum,
            records_of(chunks@),
        ) && result->Ok_0 == container_bytes(config.checksum, records_of(chunks@)).len(),
        chunks@.len() > u32::MAX ==> result is Err && result->Err_0 is PipelineError && final(writer)@ == old(
            writer,
        )@,
{
    let count: usize = chunks.len();
    if count > u32::MAX as usize {
        return Err(HlcError::PipelineError("Too many chunks for one container".to_string()));
    }
    let length_before: usize = writer.len();
    let ghost records = records_of(chunks@);
    let ghost start = writer@;
    let mut total_original_size: u64 = 0;
    let mut total_compressed_size: u64 = 0;
    let mut i: usize = 0;
    proof {
        assert(records.take(0) =~= Seq::<Record>::empty());
        assert forall|k: int| 0 <= k < records.len() implies (#[trigger] records[k]).payload.len()
            <= u32::MAX by {
            assert(chunks@[k].wf());
        }
    }
    while i < count
        invariant
            i <= count,
            count == chunks@.len(),
            count <= u32::MAX,
            records == records_of(chunks@),
            payloads_fit(records),
            all_wf(chunks@),
            total_original_size == total_original(records.take(i as int)),
            total_compressed_size == total_payload(records.take(i as int)),
        decreases count - i,
    {
        proof {
            let next = records.take(i + 1);
            assert(next.drop_last() =~= records.take(i as int));
            assert(next.last() == chunks@[i as int].record());
            assert(chunks@[i as int].wf());
            assert forall|k: int| 0 <= k < next.len() implies (#[trigger] next[k]).payload.len()
                <= u32::MAX by {
                assert(next[k] == records[k]);
            }
            lemma_totals_bounded(next);
            assert(next.len() * 0xFFFF_FFFF <= 0xFFFF_FFFF * 0xFFFF_FFFF) by (nonlinear_arith)
                requires
                    next.len() <= 0xFFFF_FFFF,
            ;
        }
        total_original_size = total_original_size + chunks[i].original_size as u64;
        total_compressed_size = total_compressed_size + chunks[i].compressed_size as u64;
        i += 1;
    }
    proof {
        assert(records.take(i as int) =~= records);
    }
    let mut header = ContainerHeader::new(config.checksum, count);
    header.original_size = total_original_size;
    header.compressed_size = total_compressed_size;
    assert(header == header_for(config.checksum, records));
    let _ = header.write(writer);
    let mut j: usize = 0;
    proof {
        assert(records.take(0) =~= Seq::<Record>::empty());
        assert(writer@ =~= start + header.bytes_spec() + records_bytes(records.take(0)));
    }
    while j < count
        invariant
            j <= count,
            count == chunks@.len(),
            records == records_of(chunks@),
            all_wf(chunks@),
            writer@ == start + header.bytes_spec() + records_bytes(records.take(j as int)),
        decreases count - j,
    {
        let chunk = &chunks[j];
        let ghost before = writer@;
        proof {
            assert(chunk.wf());
            assert(records.take(j + 1) =~= records.take(j as int).push(chunk.record()));
            lemma_records_bytes_push(records.take(j as int), chunk.record());
        }
        writer.push(chunk.flags.bits());
        push_u32(writer, chunk.original_size);
        push_u32(writer, chunk.compressed_size);
        push_u64(writer, chunk.original_checksum);
        append(writer, chunk.data.as_slice());
        assert(writer@ =~= before + record_bytes(chunk.record())) by {
            reveal(record_bytes);
        }
        j += 1;
    }
    proof {
        assert(records.take(j as int) =~= records);
        assert(writer@ =~= start + container_bytes(config.checksum, records));
    }
    let written: usize = writer.len() - length_before;
    Ok(written as u64)
}

/// What is left of an output limit after `size` more bytes; `None` is no limit.
pub open spec fn budget_after(budget: Option<u64>, size: u32) -> Option<u64> {
    match budget {
        Some(left) => Some((left - size) as u64),
        None => None,
    }
}

/// Whether `size` more bytes stay within the output limit.
pub open spec fn within_budget(budget: Option<u64>, size: u32) -> bool {
    match budget {
        Some(left) => size <= left,
        None => true,
    }
}

/// What reading `count` records from `b` at `at` gives.
///
/// For each record: if fewer than 17 bytes are left, an I/O error; if the
/// original size goes over what is left of the output limit, a decompression
/// error; if the payload size is more than the bytes that follow, a format
/// error. Bytes after the last record are ignored.
pub open spec fn parse_records(b: Seq<u8>, at: int, count: nat, budget: Option<u64>) -> Result<
    Seq<Record>,
    ErrorKind,
>
    decreases count,
{
    if count == 0 {
        Ok(Seq::<Record>::empty())
    } else if b.len() - at < 17 {
        Err(ErrorKind::Io)
    } else {
        let original_size = u32_at(b, at + 1);
        let payload_size = u32_at(b, at + 5);
        if !within_budget(budget, original_size) {
            Err(ErrorKind::DecompressionError)
        } else if payload_size > b.len() - at - 17 {
            Err(ErrorKind::InvalidFormat)
        } else {
            let record = Record {
                flags: b[at],
                original_size,
                checksum: u64_at(b, at + 9),
                payload: b.subrange(at + 17, at + 17 + payload_size),
            };
            match parse_records(
                b,
                at + 17 + payload_size,
                (count - 1) as nat,
                budget_after(budget, original_size),
            ) {
                Ok(rest) => Ok(seq![record] + rest),
                Err(kind) => Err(kind),
            }
        }
    }
}

/// What reading a container from `b` gives: its header and its records.
/// `limit`, where given, bounds the sum of the original sizes.
pub open spec fn parse_container(b: Seq<u8>, limit: Option<u64>) -> Result<
    (ContainerHeader, Seq<Record>),
    ErrorKind,
> {
    match parse_header(b) {
        Err(kind) => Err(kind),
        Ok(header) => match parse_records(b, 30, header.chunk_count as nat, limit) {
            Err(kind) => Err(kind),
            Ok(records) => Ok((header, records)),
        },
    }
}

/// The records read so far, followed by what the rest of the input gives.
pub open spec fn continued(done: Seq<Record>, rest: Result<Seq<Record>, ErrorKind>) -> Result<
    Seq<Record>,
    ErrorKind,
> {
    match rest {
        Ok(more) => Ok(done + more),
        Err(kind) => Err(kind),
    }
}

/// Whether the original sizes of `records` stay within the output limit.
pub open spec fn fits_limit(records: Seq<Record>, limit: Option<u64>) -> bool {
    match limit {
        Some(most) => total_original(records) <= most,
        None => true,
    }
}

/// The total of records with one more in front.
pub proof fn lemma_total_original_front(first: Record, rest: Seq<Record>)
    ensures
        total_original(seq![first] + rest) == first.original_size + total_original(rest),
    decreases rest.len(),
{
    let all = seq![first] + rest;
    if rest.len() == 0 {
        assert(all.drop_last() =~= Seq::<Record>::empty());
        assert(total_original(all.drop_last()) == 0);
    } else {
        lemma_total_original_front(first, rest.drop_last());
        assert(all.drop_last() =~= seq![first] + rest.drop_last());
    }
}

/// The fields of a record are read back from its bytes, whatever stands before
/// and after them.
pub proof fn lemma_record_fields(before: Seq<u8>, record: Record, after: Seq<u8>)
    requires
        record.payload.len() <= u32::MAX,
    ensures
        record_bytes(record).len() == 17 + record.payload.len(),
        (before + record_bytes(record) + after)[before.len() as int] == record.flags,
        u32_at(before + record_bytes(record) + after, before.len() as int + 1) == record.original_size,
        u32_at(before + record_bytes(record) + after, before.len() as int + 5) == record.payload.len(),
        u64_at(before + record_bytes(record) + after, before.len() as int + 9) == record.checksum,
        (before + record_bytes(record) + after).subrange(
            before.len() as int + 17,
            before.len() as int + 17 + record.payload.len(),
        ) == record.payload,
{
    reveal(record_bytes);
    let b = before + record_bytes(record) + after;
    let at = before.len() as int;
    let head = seq![record.flags];
    let o = u32_bytes(record.original_size);
    let z = u32_bytes(record.payload.len() as u32);
    let c = u64_bytes(record.checksum);
    lemma_u32_roundtrip(record.original_size);
    lemma_u32_roundtrip(record.payload.len() as u32);
    lemma_u64_roundtrip(record.checksum);
    assert(record_bytes(record).len() == 17 + record.payload.len());
    assert(b[at] == record.flags);
    assert(u32_at(b, at + 1) == record.original_size) by {
        assert(b =~= (before + head) + o + (z + c + record.payload + after));
        crate::endian::lemma_u32_embedded(before + head, record.original_size, z + c + record.payload + after);
    }
    assert(u32_at(b, at + 5) == record.payload.len()) by {
        assert(b =~= (before + head + o) + z + (c + record.payload + after));
        crate::endian::lemma_u32_embedded(
            before + head + o,
            record.payload.len() as u32,
            c + record.payload + after,
        );
    }
    assert(u64_at(b, at + 9) == record.checksum) by {
        assert(b =~= (before + head + o + z) + c + (record.payload + after));
        crate::endian::lemma_u64_embedded(before + head + o + z, record.checksum, record.payload + after);
    }
    assert(b.subrange(at + 17, at + 17 + record.payload.len()) =~= record.payload);
}

/// Two ways to bracket a row of four byte sequences.
proof fn lemma_regroup(a: Seq<u8>, b: Seq<u8>, c: Seq<u8>, d: Seq<u8>)
    ensures
        a + (b + c) + d == a + b + (c + d),
        a + (b + c) + d == (a + b) + c + d,
{
    assert(a + (b + c) + d =~= a + b + (c + d));
    assert(a + (b + c) + d =~= (a + b) + c + d);
}

/// One step of reading records: where the fields of `record` stand at `at` and
/// its original size is within the budget, the records read from `at` are
/// `record` and those read behind it.
proof fn lemma_parse_step(b: Seq<u8>, at: int, count: nat, budget: Option<u64>, record: Record)
    requires
        count > 0,
        0 <= at,
        at + 17 + record.payload.len() <= b.len(),
        b[at] == record.flags,
        u32_at(b, at + 1) == record.original_size,
        u32_at(b, at + 5) == record.payload.len(),
        u64_at(b, at + 9) == record.checksum,
        b.subrange(at + 17, at + 17 + record.payload.len()) == record.payload,
        within_budget(budget, record.original_size),
    ensures
        parse_records(b, at, count, budget) == match parse_records(
            b,
            at + 17 + record.payload.len(),
            (count - 1) as nat,
            budget_after(budget, record.original_size),
        ) {
            Ok(rest) => Ok::<Seq<Record>, ErrorKind>(seq![record] + rest),
            Err(kind) => Err(kind),
        },
{
    let parsed = Record {
        flags: b[at],
        original_size: u32_at(b, at + 1),
        checksum: u64_at(b, at + 9),
        payload: b.subrange(at + 17, at + 17 + u32_at(b, at + 5)),
    };
    assert(parsed == record);
}

/// Reading the bytes of records gives the records back, whatever stands before
/// and after them, provided the payloads fit their size fields and the original
/// sizes stay within the limit.
pub proof fn lemma_records_roundtrip(
    before: Seq<u8>,
    records: Seq<Record>,
    after: Seq<u8>,
    limit: Option<u64>,
)
    requires
        payloads_fit(records),
        fits_limit(records, limit),
    ensures
        parse_records(before + records_bytes(records) + after, before.len() as int, records.len(), limit) == Ok::<
            Seq<Record>,
            ErrorKind,
        >(records),
    decreases records.len(),
{
    let b = before + records_bytes(records) + after;
    let at = before.len() as int;
    if records.len() == 0 {
        assert(records =~= Seq::<Record>::empty());
    } else {
        let first = records[0];
        let rest = records.skip(1);
        let tail = records_bytes(rest) + after;
        let next = before + record_bytes(first);
        let left = budget_after(limit, first.original_size);
        assert(records_bytes(records) == record_bytes(first) + records_bytes(rest));
        lemma_regroup(before, record_bytes(first), records_bytes(rest), after);
        assert(b == before + record_bytes(first) + tail);
        assert(b == next + records_bytes(rest) + after);
        lemma_record_fields(before, first, tail);
        assert(within_budget(limit, first.original_size) && fits_limit(rest, left)) by {
            assert(records =~= seq![first] + rest);
            lemma_total_original_front(first, rest);
        }
        assert(payloads_fit(rest)) by {
            assert forall|i: int| 0 <= i < rest.len() implies (#[trigger] rest[i]).payload.len()
                <= u32::MAX by {
                assert(rest[i] == records[i + 1]);
            }
        }
        lemma_records_roundtrip(next, rest, after, left);
        assert(next.len() == at + 17 + first.payload.len());
        assert(b.len() >= next.len());
        lemma_parse_step(b, at, records.len(), limit, first);
        assert(seq![first] + rest =~= records);
    }
}

/// Reading the bytes of a container gives its header and its records back,
/// provided there are no more records than the count can hold, the payloads
/// fit their size fields, and the original sizes stay within the limit.
pub proof fn lemma_container_roundtrip(kind: ChecksumType, records: Seq<Record>, limit: Option<u64>)
    requires
        records.len() <= u32::MAX,
        payloads_fit(records),
        fits_limit(records, limit),
    ensures
        parse_container(container_bytes(kind, records), limit) == Ok::<(ContainerHeader, Seq<Record>), ErrorKind>(
            (header_for(kind, records), records),
        ),
{
    let header = header_for(kind, records);
    lemma_header_roundtrip(header, records_bytes(records));
    lemma_records_roundtrip(header.bytes_spec(), records, Seq::<u8>::empty(), limit);
    assert(header.bytes_spec() + records_bytes(records) + Seq::<u8>::empty() =~= container_bytes(kind, records));
}

/// Reads a container from `reader`: the header, then as many records as the
/// header counts, numbered by position.
///
/// `limit`, where given, bounds the sum of the original sizes that the records
/// announce; a record that goes over it fails with a decompression error.
/// Other failures are those of `parse_container`: an I/O error where the input
/// ends inside the header or the fixed part of a record, a format error on a bad
/// header field or a payload size larger than what is left.
///
/// The configuration returned holds the checksum algorithm of the header and is
/// otherwise the default one.
pub fn read_hlc_container(reader: &[u8], limit: Option<u64>) -> (result: Result<
    (Vec<CompressedChunk>, HlcConfig),
    HlcError,
>)
    ensures
        match parse_container(reader@, limit) {
            Ok((header, records)) => {
                &&& result is Ok
                &&& records_of(result->Ok_0.0@) == records
                &&& records.len() == header.chunk_count
                &&& in_order(result->Ok_0.0@)
                &&& all_wf(result->Ok_0.0@)
                &&& result->Ok_0.1.checksum == header.checksum_type
                &&& result->Ok_0.1.mode == crate::config::HlcMode::Balanced
                &&& result->Ok_0.1.chunk_size == crate::config::DEFAULT_CHUNK_SIZE
                &&& result->Ok_0.1.entropy_level == crate::config::BALANCED_LEVEL
                &&& result->Ok_0.1.threads >= 1
            },
            Err(kind) => result is Err && result->Err_0.kind_spec() == kind,
        },
{
    let header = match ContainerHeader::read(reader) {
        Ok(header) => header,
        Err(e) => {
            return Err(e);
        },
    };
    let config = HlcConfig::new().with_checksum(header.checksum_type);
    let n: usize = reader.len();
    let count: u32 = header.chunk_count;
    let mut chunks: Vec<CompressedChunk> = Vec::new();
    let mut at: usize = 30;
    let mut budget: Option<u64> = limit;
    let mut id: u32 = 0;
    let ghost whole = parse_records(reader@, 30, count as nat, limit);
    proof {
        assert(records_of(chunks@) =~= Seq::<Record>::empty());
        assert(continued(records_of(chunks@), whole) == whole) by {
            if whole is Ok {
                assert(Seq::<Record>::empty() + whole->Ok_0 =~= whole->Ok_0);
            }
        }
    }
    while id < count
        invariant
            n == reader@.len(),
            30 <= at <= n,
            id <= count,
            chunks@.len() == id,
            in_order(chunks@),
            all_wf(chunks@),
            parse_header(reader@) == Ok::<ContainerHeader, ErrorKind>(header),
            count == header.chunk_count,
            config.checksum == header.checksum_type,
            config.mode == crate::config::HlcMode::Balanced,
            config.chunk_size == crate::config::DEFAULT_CHUNK_SIZE,
            config.entropy_level == crate::config::BALANCED_LEVEL,
            config.threads >= 1,
            whole == parse_records(reader@, 30, count as nat, limit),
            continued(
                records_of(chunks@),
                parse_records(reader@, at as int, (count - id) as nat, budget),
            ) == whole,
        decreases count - id,
    {
        if n - at < 17 {
            return Err(HlcError::Io("failed to fill whole buffer".to_string()));
        }
        let flags_byte: u8 = reader[at];
        let original_size: u32 = read_u32(reader, at + 1);
        let compressed_size: u32 = read_u32(reader, at + 5);
        let original_checksum: u64 = read_u64(reader, at + 9);
        match budget {
            Some(left) => {
                if original_size as u64 > left {
                    return Err(HlcError::DecompressionError("Output limit exceeded".to_string()));
                }
                budget = Some(left - original_size as u64);
            },
            None => {},
        }
        if compressed_size as usize > n - at - 17 {
            return Err(HlcError::InvalidFormat("Chunk payload exceeds the remaining input".to_string()));
        }
        let payload_start: usize = at + 17;
        let payload_end: usize = payload_start + compressed_size as usize;
        let data: Vec<u8> = slice_to_vec(slice_subrange(reader, payload_start, payload_end));
        let ghost done = records_of(chunks@);
        let chunk = CompressedChunk {
            id: id as usize,
            flags: PipelineFlags::from_bits_truncate(flags_byte),
            original_checksum,
            original_size,
            compressed_size,
            data,
        };
        proof {
            let rest = parse_records(reader@, payload_end as int, (count - id - 1) as nat, budget);
            assert(records_of(chunks@.push(chunk)) =~= done.push(chunk.record()));
            if rest is Ok {
                assert(done + (seq![chunk.record()] + rest->Ok_0) =~= done.push(chunk.record()) + rest->Ok_0);
            }
        }
        chunks.push(chunk);
        at = payload_end;
        id += 1;
    }
    proof {
        assert(records_of(chunks@) + Seq::<Record>::empty() =~= records_of(chunks@));
    }
    Ok((chunks, config))
}

/// The bytes that decompressing the records in order gives, in a row, or the
/// error of the first record that fails.
pub open spec fn decode_all(records: Seq<Record>, kind: ChecksumType) -> Result<Seq<u8>, ErrorKind>
    decreases records.len(),
{
    if records.len() == 0 {
        Ok(Seq::<u8>::empty())
    } else {
        match decode_all(records.drop_last(), kind) {
            Err(e) => Err(e),
            Ok(front) => match decode_record(records.last(), kind) {
                Err(e) => Err(e),
                Ok(data) => Ok(front + data),
            },
        }
    }
}

/// What decompressing every record of the container `b` finds out: that all
/// of them decompress, or the first error on the way.
pub open spec fn verify_spec(b: Seq<u8>) -> Result<(), ErrorKind> {
    match parse_container(b, None) {
        Err(kind) => Err(kind),
        Ok((header, records)) => match decode_all(records, header.checksum_type) {
            Err(kind) => Err(kind),
            Ok(_) => Ok(()),
        },
    }
}

/// What a validation says of the container `b`: `true` where every record
/// decompresses, `false` where the first failure is a checksum mismatch, and
/// the kind of any other failure.
pub open spec fn validate_spec(b: Seq<u8>) -> Result<bool, ErrorKind> {
    match verify_spec(b) {
        Ok(_) => Ok(true),
        Err(kind) => if kind == ErrorKind::ChecksumMismatch {
            Ok(false)
        } else {
            Err(kind)
        },
    }
}

/// Checks a container by decompressing every record of it, stopping at the
/// first failure. Returns `true` where all records decompress and `false`
/// where the first failure is a checksum mismatch. A container that cannot
/// be read, or a record that does not decode, gives the error.
pub fn verify_container(reader: &[u8]) -> (result: Result<bool, HlcError>)
    ensures
        match validate_spec(reader@) {
            Ok(valid) => result == Ok::<bool, HlcError>(valid),
            Err(kind) => result is Err && result->Err_0.kind_spec() == kind,
        },
{
    let (chunks, config) = match read_hlc_container(reader, None) {
        Ok(pair) => pair,
        Err(e) => {
            match e {
                HlcError::ChecksumMismatch => {
                    return Ok(false);
                },
                _ => {
                    return Err(e);
                },
            }
        },
    };
    let ghost records = records_of(chunks@);
    let ghost kind = config.checksum;
    let mut i: usize = 0;
    proof {
        assert(records.take(0) =~= Seq::<Record>::empty());
    }
    while i < chunks.len()
        invariant
            i <= chunks@.len(),
            records == records_of(chunks@),
            kind == config.checksum,
            parse_container(reader@, None) is Ok,
            parse_container(reader@, None)->Ok_0.1 == records,
            parse_container(reader@, None)->Ok_0.0.checksum_type == kind,
            decode_all(records.take(i as int), kind) is Ok,
        decreases chunks.len() - i,
    {
        proof {
            assert(records.take(i + 1).drop_last() =~= records.take(i as int));
            assert(records.take(i + 1).last() == chunks@[i as int].record());
            lemma_decode_all_prefix(records, kind, i + 1);
        }
        match chunks[i].decompress(&config) {
            Ok(_) => {},
            Err(e) => {
                match e {
                    HlcError::ChecksumMismatch => {
                        return Ok(false);
                    },
                    _ => {
                        return Err(e);
                    },
                }
            },
        }
        i += 1;
    }
    proof {
        assert(records.take(i as int) =~= records);
    }
    Ok(true)
}

/// The records decode as a whole only if every prefix does, and an error of a
/// prefix is the error of the whole.
pub proof fn lemma_decode_all_prefix(records: Seq<Record>, kind: ChecksumType, n: int)
    requires
        0 <= n <= records.len(),
    ensures
        decode_all(records.take(n), kind) is Err ==> decode_all(records, kind) == decode_all(
            records.take(n),
            kind,
        ),
    decreases records.len() - n,
{
    if n == records.len() {
        assert(records.take(n) =~= records);
    } else {
        lemma_decode_all_prefix(records, kind, n + 1);
        assert(records.take(n + 1).drop_last() =~= records.take(n));
    }
}

} // verus!
