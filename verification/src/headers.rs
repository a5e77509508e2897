//! Headers of the chunked stream format: a global header, one header before
//! each chunk's payload, and index entries for random access.

use vstd::prelude::*;
use crate::endian::{append, push_u16, push_u32, push_u64, read_u16, read_u32, read_u64};
use crate::endian::{u16_at, u16_bytes, u32_at, u32_bytes, u64_at, u64_bytes};
use crate::endian::{lemma_u16_roundtrip, lemma_u32_embedded, lemma_u64_embedded};
use crate::error::{ErrorKind, HlcError};
use crate::text::with_number;

verus! {

/// The current format version.
pub const FORMAT_VERSION: u16 = 1;

/// The size of a global header in bytes.
pub const GLOBAL_HEADER_SIZE: usize = 42;

/// The size of a chunk header in bytes.
pub const CHUNK_HEADER_SIZE: usize = 52;

/// The size of an index entry in bytes.
pub const INDEX_ENTRY_SIZE: usize = 20;

/// The eight bytes that open a stream: `HLC`, a zero byte, then the bytes 1, 0, 0, 0.
pub open spec fn hlc_magic() -> Seq<u8> {
    seq![0x48u8, 0x4Cu8, 0x43u8, 0u8, 1u8, 0u8, 0u8, 0u8]
}

/// The magic number as an array.
pub fn magic_bytes() -> (magic: [u8; 8])
    ensures
        magic@ == hlc_magic(),
{
    let magic: [u8; 8] = [0x48, 0x4C, 0x43, 0x00, 0x01, 0x00, 0x00, 0x00];
    assert(magic@ =~= hlc_magic());
    magic
}

/// `SystemTime::now` and `duration_since` the Unix epoch: the seconds since
/// 1970, or zero where the clock stands before it. The value depends on the clock.
#[verifier::external_body]
pub(crate) fn unix_seconds_now() -> (seconds: u64) {
    std::time::SystemTime::now().duration_since(std::time::UNIX_EPOCH).unwrap_or_default().as_secs()
}

/// The header at the start of a stream.
#[derive(Debug, Clone)]
pub struct GlobalHeader {
    pub magic: [u8; 8],
    pub version: u16,
    pub flags: u32,
    pub total_chunks: u32,
    pub total_size: u64,
    pub compressed_size: u64,
    pub created_timestamp: u64,
}

/// What reading a global header from `b` gives: the fields in order. An input
/// too short for the next field is an I/O error; a wrong magic or version is a
/// format error.
pub open spec fn parse_global_header(b: Seq<u8>) -> Result<GlobalHeaderFields, ErrorKind> {
    if b.len() < 8 {
        Err(ErrorKind::Io)
    } else if b.subrange(0, 8) != hlc_magic() {
        Err(ErrorKind::InvalidFormat)
    } else if b.len() < 10 {
        Err(ErrorKind::Io)
    } else if u16_at(b, 8) != FORMAT_VERSION {
        Err(ErrorKind::InvalidFormat)
    } else if b.len() < 42 {
        Err(ErrorKind::Io)
    } else {
        Ok(
            GlobalHeaderFields {
                magic: b.subrange(0, 8),
                version: u16_at(b, 8),
                flags: u32_at(b, 10),
                total_chunks: u32_at(b, 14),
                total_size: u64_at(b, 18),
                compressed_size: u64_at(b, 26),
                created_timestamp: u64_at(b, 34),
            },
        )
    }
}

/// The fields of a global header as plain values.
pub struct GlobalHeaderFields {
    pub magic: Seq<u8>,
    pub version: u16,
    pub flags: u32,
    pub total_chunks: u32,
    pub total_size: u64,
    pub compressed_size: u64,
    pub created_timestamp: u64,
}

impl View for GlobalHeader {
    type V = GlobalHeaderFields;

    open spec fn view(&self) -> GlobalHeaderFields {
        GlobalHeaderFields {
            magic: self.magic@,
            version: self.version,
            flags: self.flags,
            total_chunks: self.total_chunks,
            total_size: self.total_size,
            compressed_size: self.compressed_size,
            created_timestamp: self.created_timestamp,
        }
    }
}

impl GlobalHeader {
    /// The 42 bytes of this header.
    pub open spec fn bytes_spec(self) -> Seq<u8> {
        self.magic@ + u16_bytes(self.version) + u32_bytes(self.flags) + u32_bytes(self.total_chunks) + u64_bytes(
            self.total_size,
        ) + u64_bytes(self.compressed_size) + u64_bytes(self.created_timestamp)
    }

    /// A header of the current version, stamped with the current time.
    pub fn new(total_chunks: u32, total_size: u64, compressed_size: u64) -> (header: Self)
        ensures
            header.magic@ == hlc_magic(),
            header.version == FORMAT_VERSION,
            header.flags == 0,
            header.total_chunks == total_chunks,
            header.total_size == total_size,
            header.compressed_size == compressed_size,
    {
        GlobalHeader {
            magic: magic_bytes(),
            version: FORMAT_VERSION,
            flags: 0,
            total_chunks,
            total_size,
            compressed_size,
            created_timestamp: unix_seconds_now(),
        }
    }

    /// Appends the bytes of this header to `writer`. It never fails.
    pub fn write(&self, writer: &mut Vec<u8>) -> (result: Result<(), HlcError>)
        ensures
            result is Ok,
            final(writer)@ == old(writer)@ + self.bytes_spec(),
    {
        let ghost start = writer@;
        append(writer, self.magic.as_slice());
        push_u16(writer, self.version);
        push_u32(writer, self.flags);
        push_u32(writer, self.total_chunks);
        let ghost lead1 = self.magic@ + u16_bytes(self.version) + u32_bytes(self.flags) + u32_bytes(self.total_chunks);
        assert(writer@ =~= start + lead1);
        push_u64(writer, self.total_size);
        let ghost lead2 = lead1 + u64_bytes(self.total_size);
        assert(writer@ =~= start + lead2);
        push_u64(writer, self.compressed_size);
        let ghost lead3 = lead2 + u64_bytes(self.compressed_size);
        assert(writer@ =~= start + lead3);
        push_u64(writer, self.created_timestamp);
        assert(writer@ =~= start + (lead3 + u64_bytes(self.created_timestamp)));
        Ok(())
    }

    /// Reads a header from the start of `reader`.
    ///
    /// Fails with an I/O error where `reader` ends inside the header, and with
    /// a format error on a wrong magic or version, whichever comes first in
    /// reading order.
    pub fn read(reader: &[u8]) -> (result: Result<Self, HlcError>)
        ensures
            match parse_global_header(reader@) {
                Ok(fields) => result is Ok && result->Ok_0@ == fields,
                Err(kind) => result is Err && result->Err_0.kind_spec() == kind,
            },
    {
        let n: usize = reader.len();
        if n < 8 {
            return Err(HlcError::Io("failed to fill whole buffer".to_string()));
        }
        let expected = magic_bytes();
        let mut magic: [u8; 8] = [0u8; 8];
        let mut i: usize = 0;
        let mut same: bool = true;
        while i < 8
            invariant
                i <= 8,
                n == reader@.len(),
                n >= 8,
                expected@ == hlc_magic(),
                forall|j: int| 0 <= j < i ==> magic@[j] == reader@[j],
                same == (forall|j: int| 0 <= j < i ==> reader@[j] == expected@[j]),
            decreases 8 - i,
        {
            magic[i] = reader[i];
            if reader[i] != expected[i] {
                same = false;
            }
            i += 1;
        }
        assert(magic@ =~= reader@.subrange(0, 8));
        if !same {
            assert(reader@.subrange(0, 8) != hlc_magic()) by {
                let j = choose|j: int| 0 <= j < 8 && reader@[j] != expected@[j];
                assert(reader@.subrange(0, 8)[j] == reader@[j]);
            }
            return Err(HlcError::InvalidFormat("Invalid HLC magic number".to_string()));
        }
        assert(reader@.subrange(0, 8) =~= hlc_magic());
        if n < 10 {
            return Err(HlcError::Io("failed to fill whole buffer".to_string()));
        }
        let version: u16 = read_u16(reader, 8);
        if version != FORMAT_VERSION {
            return Err(HlcError::InvalidFormat(with_number("Unsupported format version: ", version as u64)));
        }
        if n < 42 {
            return Err(HlcError::Io("failed to fill whole buffer".to_string()));
        }
        let flags: u32 = read_u32(reader, 10);
        let total_chunks: u32 = read_u32(reader, 14);
        let total_size: u64 = read_u64(reader, 18);
        let compressed_size: u64 = read_u64(reader, 26);
        let created_timestamp: u64 = read_u64(reader, 34);
        Ok(GlobalHeader { magic, version, flags, total_chunks, total_size, compressed_size, created_timestamp })
    }

    /// The size of a global header in bytes: 42.
    pub fn size() -> (size: usize)
        ensures
            size == GLOBAL_HEADER_SIZE,
    {
        8 + 2 + 4 + 4 + 8 + 8 + 8
    }
}

/// Reading the bytes of a global header with the right magic and version
/// gives its fields back, whatever follows them.
pub proof fn lemma_global_header_roundtrip(header: GlobalHeader, rest: Seq<u8>)
    requires
        header.magic@ == hlc_magic(),
        header.version == FORMAT_VERSION,
    ensures
        header.bytes_spec().len() == 42,
        parse_global_header(header.bytes_spec() + rest) == Ok::<GlobalHeaderFields, ErrorKind>(header@),
{
    let b = header.bytes_spec() + rest;
    let m = header.magic@;
    let v = u16_bytes(header.version);
    let f = u32_bytes(header.flags);
    let c = u32_bytes(header.total_chunks);
    let t = u64_bytes(header.total_size);
    let z = u64_bytes(header.compressed_size);
    let s = u64_bytes(header.created_timestamp);
    assert(header.bytes_spec().len() == 42);
    assert(b.subrange(0, 8) =~= m);
    assert(u16_at(b, 8) == header.version) by {
        lemma_u16_roundtrip(header.version);
        assert(b[8] == v[0]);
        assert(b[9] == v[1]);
    }
    assert(u32_at(b, 10) == header.flags) by {
        assert(b =~= (m + v) + f + (c + t + z + s + rest));
        lemma_u32_embedded(m + v, header.flags, c + t + z + s + rest);
    }
    assert(u32_at(b, 14) == header.total_chunks) by {
        assert(b =~= (m + v + f) + c + (t + z + s + rest));
        lemma_u32_embedded(m + v + f, header.total_chunks, t + z + s + rest);
    }
    assert(u64_at(b, 18) == header.total_size) by {
        assert(b =~= (m + v + f + c) + t + (z + s + rest));
        lemma_u64_embedded(m + v + f + c, header.total_size, z + s + rest);
    }
    assert(u64_at(b, 26) == header.compressed_size) by {
        assert(b =~= (m + v + f + c + t) + z + (s + rest));
        lemma_u64_embedded(m + v + f + c + t, header.compressed_size, s + rest);
    }
    assert(u64_at(b, 34) == header.created_timestamp) by {
        assert(b =~= (m + v + f + c + t + z) + s + rest);
        lemma_u64_embedded(m + v + f + c + t + z, header.created_timestamp, rest);
    }
}

/// The transforms that a chunk header can name.
#[derive(Debug, Clone, Copy, PartialEq, Eq, Structural)]
pub enum TransformMethod {
    NoTransform,
    Delta,
    RLE,
    Dictionary,
    XOR,
}

/// The entropy coders that a chunk header can name.
#[derive(Debug, Clone, Copy, PartialEq, Eq, Structural)]
pub enum EntropyMethod {
    NoCoder,
    RangeCoder,
    ANS,
    LZ4,
    Zstd,
}

/// The header that stands before the payload of a chunk.
#[derive(Debug, Clone)]
pub struct ChunkHeader {
    pub chunk_id: u32,
    pub original_size: u32,
    pub compressed_size: u32,
    pub transform_flags: u8,
    pub entropy_method: u8,
    pub crc32: u32,
    pub sha256: Option<[u8; 32]>,
    pub reserved: [u8; 2],
}

/// 32 zero bytes.
pub open spec fn no_digest() -> Seq<u8> {
    Seq::new(32, |i: int| 0u8)
}

/// The fields of a chunk header as plain values.
pub struct ChunkHeaderFields {
    pub chunk_id: u32,
    pub original_size: u32,
    pub compressed_size: u32,
    pub transform_flags: u8,
    pub entropy_method: u8,
    pub crc32: u32,
    pub sha256: Option<Seq<u8>>,
    pub reserved: Seq<u8>,
}

impl View for ChunkHeader {
    type V = ChunkHeaderFields;

    open spec fn view(&self) -> ChunkHeaderFields {
        ChunkHeaderFields {
            chunk_id: self.chunk_id,
            original_size: self.original_size,
            compressed_size: self.compressed_size,
            transform_flags: self.transform_flags,
            entropy_method: self.entropy_method,
            crc32: self.crc32,
            sha256: match self.sha256 {
                Some(hash) => Some(hash@),
                None => None,
            },
            reserved: self.reserved@,
        }
    }
}

/// What reading a chunk header from `b` gives. An input shorter than 52 bytes
/// is an I/O error. A digest of 32 zero bytes reads as no digest.
pub open spec fn parse_chunk_header(b: Seq<u8>) -> Result<ChunkHeaderFields, ErrorKind> {
    if b.len() < 52 {
        Err(ErrorKind::Io)
    } else {
        Ok(
            ChunkHeaderFields {
                chunk_id: u32_at(b, 0),
                original_size: u32_at(b, 4),
                compressed_size: u32_at(b, 8),
                transform_flags: b[12],
                entropy_method: b[13],
                crc32: u32_at(b, 14),
                sha256: if b.subrange(18, 50) == no_digest() {
                    None
                } else {
                    Some(b.subrange(18, 50))
                },
                reserved: b.subrange(50, 52),
            },
        )
    }
}

impl ChunkHeader {
    /// The bytes of this header: 52 in all, with 32 zero bytes in place of a
    /// missing digest.
    pub open spec fn bytes_spec(self) -> Seq<u8> {
        u32_bytes(self.chunk_id) + u32_bytes(self.original_size) + u32_bytes(self.compressed_size) + seq![
            self.transform_flags,
        ] + seq![self.entropy_method] + u32_bytes(self.crc32) + (match self.sha256 {
            Some(hash) => hash@,
            None => no_digest(),
        }) + self.reserved@
    }

    /// A header with the given fields and the reserved bytes at zero.
    pub fn new(
        chunk_id: u32,
        original_size: u32,
        compressed_size: u32,
        transform_flags: u8,
        entropy_method: u8,
        crc32: u32,
        sha256: Option<[u8; 32]>,
    ) -> (header: Self)
        ensures
            header.chunk_id == chunk_id,
            header.original_size == original_size,
            header.compressed_size == compressed_size,
            header.transform_flags == transform_flags,
            header.entropy_method == entropy_method,
            header.crc32 == crc32,
            header.sha256 == sha256,
            header.reserved@ == seq![0u8, 0u8],
    {
        let reserved: [u8; 2] = [0, 0];
        assert(reserved@ =~= seq![0u8, 0u8]);
        ChunkHeader {
            chunk_id,
            original_size,
            compressed_size,
            transform_flags,
            entropy_method,
            crc32,
            sha256,
            reserved,
        }
    }

    /// Appends the bytes of this header to `writer`. It never fails.
    pub fn write(&self, writer: &mut Vec<u8>) -> (result: Result<(), HlcError>)
        ensures
            result is Ok,
            final(writer)@ == old(writer)@ + self.bytes_spec(),
    {
        let ghost start = writer@;
        push_u32(writer, self.chunk_id);
        push_u32(writer, self.original_size);
        push_u32(writer, self.compressed_size);
        writer.push(self.transform_flags);
        writer.push(self.entropy_method);
        push_u32(writer, self.crc32);
        let ghost lead1 = u32_bytes(self.chunk_id) + u32_bytes(self.original_size) + u32_bytes(self.compressed_size)
            + seq![self.transform_flags] + seq![self.entropy_method] + u32_bytes(self.crc32);
        assert(writer@ =~= start + lead1);
        match &self.sha256 {
            Some(hash) => {
                append(writer, hash.as_slice());
            },
            None => {
                let mut i: usize = 0;
                let ghost before = writer@;
                while i < 32
                    invariant
                        i <= 32,
                        writer@ == before + no_digest().take(i as int),
                    decreases 32 - i,
                {
                    writer.push(0);
                    i += 1;
                    assert(writer@ =~= before + no_digest().take(i as int));
                }
                assert(no_digest().take(32) =~= no_digest());
            },
        }
        let ghost digest = match self.sha256 {
            Some(hash) => hash@,
            None => no_digest(),
        };
        assert(writer@ =~= start + (lead1 + digest));
        append(writer, self.reserved.as_slice());
        assert(writer@ =~= start + (lead1 + digest + self.reserved@));
        Ok(())
    }

    /// Reads a header from the start of `reader`. Fails with an I/O error
    /// exactly where `reader` holds fewer than 52 bytes.
    pub fn read(reader: &[u8]) -> (result: Result<Self, HlcError>)
        ensures
            match parse_chunk_header(reader@) {
                Ok(fields) => result is Ok && result->Ok_0@ == fields,
                Err(kind) => result is Err && result->Err_0.kind_spec() == kind,
            },
    {
        if reader.len() < 52 {
            return Err(HlcError::Io("failed to fill whole buffer".to_string()));
        }
        let chunk_id: u32 = read_u32(reader, 0);
        let original_size: u32 = read_u32(reader, 4);
        let compressed_size: u32 = read_u32(reader, 8);
        let transform_flags: u8 = reader[12];
        let entropy_method: u8 = reader[13];
        let crc32: u32 = read_u32(reader, 14);
        let mut hash: [u8; 32] = [0u8; 32];
        let mut any: bool = false;
        let mut i: usize = 0;
        while i < 32
            invariant
                i <= 32,
                reader@.len() >= 52,
                forall|j: int| 0 <= j < i ==> hash@[j] == reader@[18 + j],
                any == (exists|k: int| 18 <= k < 18 + i && #[trigger] reader@[k] != 0),
            decreases 32 - i,
        {
            hash[i] = reader[18 + i];
            if reader[18 + i] != 0 {
                any = true;
            }
            i += 1;
        }
        assert(hash@ =~= reader@.subrange(18, 50));
        proof {
            if any {
                let k = choose|k: int| 18 <= k < 50 && #[trigger] reader@[k] != 0;
                assert(reader@.subrange(18, 50)[k - 18] != no_digest()[k - 18]);
            } else {
                assert(reader@.subrange(18, 50) =~= no_digest());
            }
        }
        let sha256: Option<[u8; 32]> = if any { Some(hash) } else { None };
        let mut reserved: [u8; 2] = [0u8; 2];
        reserved[0] = reader[50];
        reserved[1] = reader[51];
        assert(reserved@ =~= reader@.subrange(50, 52));
        Ok(
            ChunkHeader {
                chunk_id,
                original_size,
                compressed_size,
                transform_flags,
                entropy_method,
                crc32,
                sha256,
                reserved,
            },
        )
    }

    /// The size of a chunk header in bytes: 52.
    pub fn size() -> (size: usize)
        ensures
            size == CHUNK_HEADER_SIZE,
    {
        4 + 4 + 4 + 1 + 1 + 4 + 32 + 2
    }
}

/// An entry of the chunk index, for random access.
#[derive(Debug, Clone)]
pub struct ChunkIndexEntry {
    pub chunk_id: u32,
    pub offset: u64,
    pub header_size: u32,
    pub payload_size: u32,
}

/// What reading an index entry from `b` gives. An input shorter than 20 bytes
/// is an I/O error.
pub open spec fn parse_index_entry(b: Seq<u8>) -> Result<ChunkIndexEntry, ErrorKind> {
    if b.len() < 20 {
        Err(ErrorKind::Io)
    } else {
        Ok(
            ChunkIndexEntry {
                chunk_id: u32_at(b, 0),
                offset: u64_at(b, 4),
                header_size: u32_at(b, 12),
                payload_size: u32_at(b, 16),
            },
        )
    }
}

impl ChunkIndexEntry {
    /// The 20 bytes of this entry.
    pub open spec fn bytes_spec(self) -> Seq<u8> {
        u32_bytes(self.chunk_id) + u64_bytes(self.offset) + u32_bytes(self.header_size) + u32_bytes(
            self.payload_size,
        )
    }

    /// Appends the bytes of this entry to `writer`. It never fails.
    pub fn write(&self, writer: &mut Vec<u8>) -> (result: Result<(), HlcError>)
        ensures
            result is Ok,
            final(writer)@ == old(writer)@ + self.bytes_spec(),
    {
        let ghost start = writer@;
        push_u32(writer, self.chunk_id);
        push_u64(writer, self.offset);
        let ghost lead1 = u32_bytes(self.chunk_id) + u64_bytes(self.offset);
        assert(writer@ =~= start + lead1);
        push_u32(writer, self.header_size);
        push_u32(writer, self.payload_size);
        assert(writer@ =~= start + (lead1 + u32_bytes(self.header_size) + u32_bytes(self.payload_size)));
        Ok(())
    }

    /// Reads an entry from the start of `reader`. Fails with an I/O error
    /// exactly where `reader` holds fewer than 20 bytes.
    pub fn read(reader: &[u8]) -> (result: Result<Self, HlcError>)
        ensures
            match parse_index_entry(reader@) {
                Ok(entry) => result == Ok::<ChunkIndexEntry, HlcError>(entry),
                Err(kind) => result is Err && result->Err_0.kind_spec() == kind,
            },
    {
        if reader.len() < 20 {
            return Err(HlcError::Io("failed to fill whole buffer".to_string()));
        }
        let chunk_id: u32 = read_u32(reader, 0);
        let offset: u64 = read_u64(reader, 4);
        let header_size: u32 = read_u32(reader, 12);
        let payload_size: u32 = read_u32(reader, 16);
        Ok(ChunkIndexEntry { chunk_id, offset, header_size, payload_size })
    }
}

/// Reading the bytes of an index entry gives the entry back, whatever follows them.
pub proof fn lemma_index_entry_roundtrip(entry: ChunkIndexEntry, rest: Seq<u8>)
    ensures
        entry.bytes_spec().len() == 20,
        parse_index_entry(entry.bytes_spec() + rest) == Ok::<ChunkIndexEntry, ErrorKind>(entry),
{
    let b = entry.bytes_spec() + rest;
    let c = u32_bytes(entry.chunk_id);
    let o = u64_bytes(entry.offset);
    let h = u32_bytes(entry.header_size);
    let p = u32_bytes(entry.payload_size);
    let none = Seq::<u8>::empty();
    assert(entry.bytes_spec().len() == 20);
    assert(u32_at(b, 0) == entry.chunk_id) by {
        assert(b =~= none + c + (o + h + p + rest));
        lemma_u32_embedded(none, entry.chunk_id, o + h + p + rest);
    }
    assert(u64_at(b, 4) == entry.offset) by {
        assert(b =~= c + o + (h + p + rest));
        lemma_u64_embedded(c, entry.offset, h + p + rest);
    }
    assert(u32_at(b, 12) == entry.header_size) by {
        assert(b =~= (c + o) + h + (p + rest));
        lemma_u32_embedded(c + o, entry.header_size, p + rest);
    }
    assert(u32_at(b, 16) == entry.payload_size) by {
        assert(b =~= (c + o + h) + p + rest);
        lemma_u32_embedded(c + o + h, entry.payload_size, rest);
    }
}

/// Reading the bytes of a chunk header gives its fields back, whatever follows
/// them, except that a digest of 32 zero bytes comes back as no digest.
pub proof fn lemma_chunk_header_roundtrip(header: ChunkHeader, rest: Seq<u8>)
    ensures
        header.bytes_spec().len() == 52,
        parse_chunk_header(header.bytes_spec() + rest) == Ok::<ChunkHeaderFields, ErrorKind>(
            ChunkHeaderFields {
                sha256: if header@.sha256 == Some(no_digest()) {
                    None
                } else {
                    header@.sha256
                },
                ..header@
            },
        ),
{
    let b = header.bytes_spec() + rest;
    let i = u32_bytes(header.chunk_id);
    let o = u32_bytes(header.original_size);
    let c = u32_bytes(header.compressed_size);
    let t = seq![header.transform_flags];
    let e = seq![header.entropy_method];
    let r = u32_bytes(header.crc32);
    let d = match header.sha256 {
        Some(hash) => hash@,
        None => no_digest(),
    };
    let v = header.reserved@;
    let none = Seq::<u8>::empty();
    assert(header.bytes_spec().len() == 52);
    assert(u32_at(b, 0) == header.chunk_id) by {
        assert(b =~= none + i + (o + c + t + e + r + d + v + rest));
        lemma_u32_embedded(none, header.chunk_id, o + c + t + e + r + d + v + rest);
    }
    assert(u32_at(b, 4) == header.original_size) by {
        assert(b =~= i + o + (c + t + e + r + d + v + rest));
        lemma_u32_embedded(i, header.original_size, c + t + e + r + d + v + rest);
    }
    assert(u32_at(b, 8) == header.compressed_size) by {
        assert(b =~= (i + o) + c + (t + e + r + d + v + rest));
        lemma_u32_embedded(i + o, header.compressed_size, t + e + r + d + v + rest);
    }
    assert(b[12] == header.transform_flags);
    assert(b[13] == header.entropy_method);
    assert(u32_at(b, 14) == header.crc32) by {
        assert(b =~= (i + o + c + t + e) + r + (d + v + rest));
        lemma_u32_embedded(i + o + c + t + e, header.crc32, d + v + rest);
    }
    assert(b.subrange(18, 50) =~= d);
    assert(b.subrange(50, 52) =~= v);
}

impl TransformMethod {
    /// The number that stands for this method in a header.
    pub open spec fn code_spec(self) -> u8 {
        match self {
            TransformMethod::NoTransform => 0,
            TransformMethod::Delta => 1,
            TransformMethod::RLE => 2,
            TransformMethod::Dictionary => 4,
            TransformMethod::XOR => 8,
        }
    }

    /// The method that a number stands for; an unknown number stands for none.
    pub open spec fn of_code(code: u8) -> TransformMethod {
        if code == 1 {
            TransformMethod::Delta
        } else if code == 2 {
            TransformMethod::RLE
        } else if code == 4 {
            TransformMethod::Dictionary
        } else if code == 8 {
            TransformMethod::XOR
        } else {
            TransformMethod::NoTransform
        }
    }

    /// The number that stands for this method in a header.
    pub fn code(self) -> (code: u8)
        ensures
            code == self.code_spec(),
            Self::of_code(code) == self,
    {
        match self {
            TransformMethod::NoTransform => 0,
            TransformMethod::Delta => 1,
            TransformMethod::RLE => 2,
            TransformMethod::Dictionary => 4,
            TransformMethod::XOR => 8,
        }
    }
}

impl EntropyMethod {
    /// The number that stands for this method in a header.
    pub open spec fn code_spec(self) -> u8 {
        match self {
            EntropyMethod::NoCoder => 0,
            EntropyMethod::RangeCoder => 1,
            EntropyMethod::ANS => 2,
            EntropyMethod::LZ4 => 3,
            EntropyMethod::Zstd => 4,
        }
    }

    /// The method that a number stands for; an unknown number stands for none.
    pub open spec fn of_code(code: u8) -> EntropyMethod {
        if code == 1 {
            EntropyMethod::RangeCoder
        } else if code == 2 {
            EntropyMethod::ANS
        } else if code == 3 {
            EntropyMethod::LZ4
        } else if code == 4 {
            EntropyMethod::Zstd
        } else {
            EntropyMethod::NoCoder
        }
    }

    /// The number that stands for this method in a header.
    pub fn code(self) -> (code: u8)
        ensures
            code == self.code_spec(),
            Self::of_code(code) == self,
    {
        match self {
            EntropyMethod::NoCoder => 0,
            EntropyMethod::RangeCoder => 1,
            EntropyMethod::ANS => 2,
            EntropyMethod::LZ4 => 3,
            EntropyMethod::Zstd => 4,
        }
    }
}

impl From<u8> for TransformMethod {
    fn from(flags: u8) -> (method: Self) {
        match flags {
            1 => TransformMethod::Delta,
            2 => TransformMethod::RLE,
            4 => TransformMethod::Dictionary,
            8 => TransformMethod::XOR,
            _ => TransformMethod::NoTransform,
        }
    }
}

impl vstd::std_specs::convert::FromSpecImpl<u8> for TransformMethod {
    open spec fn obeys_from_spec() -> bool {
        true
    }

    open spec fn from_spec(flags: u8) -> Self {
        TransformMethod::of_code(flags)
    }
}

impl From<u8> for EntropyMethod {
    fn from(method: u8) -> (result: Self) {
        match method {
            1 => EntropyMethod::RangeCoder,
            2 => EntropyMethod::ANS,
            3 => EntropyMethod::LZ4,
            4 => EntropyMethod::Zstd,
            _ => EntropyMethod::NoCoder,
        }
    }
}

impl vstd::std_specs::convert::FromSpecImpl<u8> for EntropyMethod {
    open spec fn obeys_from_spec() -> bool {
        true
    }

    open spec fn from_spec(method: u8) -> Self {
        EntropyMethod::of_code(method)
    }
}

} // verus!
