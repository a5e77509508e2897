//! Laying out a stream of chunks as bytes, and finding the chunks in it again.

use vstd::prelude::*;
use vstd::slice::{slice_subrange, slice_to_vec};
use crate::endian::append;
use crate::error::{ErrorKind, HlcError};
use crate::headers::{parse_chunk_header, ChunkHeader, GlobalHeader, CHUNK_HEADER_SIZE, GLOBAL_HEADER_SIZE};

verus! {

/// A chunk ready for writing: its header and payload, with the bytes it was made of.
#[derive(Debug, Clone)]
pub struct ChunkData {
    pub chunk_id: u32,
    pub original_data: Vec<u8>,
    pub compressed_data: Vec<u8>,
    pub header: ChunkHeader,
}

/// Sizes of the parts of a stream.
pub struct IOUtils;

/// The sum of the payload lengths of the first `n` chunks.
pub open spec fn payload_total(chunks: Seq<ChunkData>, n: int) -> nat
    decreases n,
{
    if n <= 0 {
        0
    } else {
        payload_total(chunks, n - 1) + chunks[n - 1].compressed_data@.len()
    }
}

/// The size of a stream that holds `chunks`: the global header, and a chunk
/// header and the payload for each chunk.
pub open spec fn file_size_spec(chunks: Seq<ChunkData>) -> nat {
    GLOBAL_HEADER_SIZE as nat + CHUNK_HEADER_SIZE as nat * chunks.len() + payload_total(chunks, chunks.len() as int)
}

impl IOUtils {
    /// The size of a global header: 42 bytes.
    pub fn global_header_size() -> (size: usize)
        ensures
            size == GLOBAL_HEADER_SIZE,
    {
        GlobalHeader::size()
    }

    /// The size of a chunk header: 52 bytes.
    pub fn chunk_header_size() -> (size: usize)
        ensures
            size == CHUNK_HEADER_SIZE,
    {
        ChunkHeader::size()
    }

    /// The size of the stream that holds `chunks`, which must fit 64 bits.
    pub fn estimate_file_size(_global_header: &GlobalHeader, chunks: &[ChunkData]) -> (size: u64)
        requires
            file_size_spec(chunks@) <= u64::MAX,
        ensures
            size == file_size_spec(chunks@),
    {
        let mut size: u64 = GlobalHeader::size() as u64;
        let mut i: usize = 0;
        while i < chunks.len()
            invariant
                i <= chunks@.len(),
                file_size_spec(chunks@) <= u64::MAX,
                size == GLOBAL_HEADER_SIZE as nat + CHUNK_HEADER_SIZE as nat * (i as nat) + payload_total(
                    chunks@,
                    i as int,
                ),
            decreases chunks@.len() - i,
        {
            proof {
                lemma_payload_total_monotone(chunks@, i + 1, chunks@.len() as int);
                assert(CHUNK_HEADER_SIZE as nat * ((i + 1) as nat) <= CHUNK_HEADER_SIZE as nat * chunks@.len())
                    by (nonlinear_arith)
                    requires
                        i + 1 <= chunks@.len(),
                ;
                assert(CHUNK_HEADER_SIZE as nat * ((i + 1) as nat) == CHUNK_HEADER_SIZE as nat * (i as nat)
                    + CHUNK_HEADER_SIZE as nat) by (nonlinear_arith);
            }
            size = size + ChunkHeader::size() as u64 + chunks[i].compressed_data.len() as u64;
            i += 1;
        }
        size
    }
}

/// The payload totals grow with the number of chunks.
pub proof fn lemma_payload_total_monotone(chunks: Seq<ChunkData>, m: int, n: int)
    requires
        0 <= m <= n,
    ensures
        payload_total(chunks, m) <= payload_total(chunks, n),
    decreases n - m,
{
    if m < n {
        lemma_payload_total_monotone(chunks, m, n - 1);
    }
}

/// The bytes of a chunk in a stream: its header, then its payload.
pub open spec fn chunk_bytes(chunk: ChunkData) -> Seq<u8> {
    chunk.header.bytes_spec() + chunk.compressed_data@
}

/// Appends a chunk to `writer`: its header, then its payload. It never fails.
pub fn write_single_chunk(writer: &mut Vec<u8>, chunk_data: &ChunkData) -> (result: Result<(), HlcError>)
    ensures
        result is Ok,
        final(writer)@ == old(writer)@ + chunk_bytes(*chunk_data),
{
    let ghost start = writer@;
    let _ = chunk_data.header.write(writer);
    append(writer, chunk_data.compressed_data.as_slice());
    assert(writer@ =~= start + chunk_bytes(*chunk_data));
    Ok(())
}

/// The offsets of `count` chunks that stand in `b` from `at` on, one behind the
/// other, or the kind of the failure: an I/O error where `b` ends inside a
/// chunk header or a payload.
pub open spec fn offsets_spec(b: Seq<u8>, at: int, count: nat) -> Result<Seq<u64>, ErrorKind>
    decreases count,
{
    if count == 0 {
        Ok(Seq::<u64>::empty())
    } else if at < 0 || b.len() - at < CHUNK_HEADER_SIZE {
        Err(ErrorKind::Io)
    } else {
        match parse_chunk_header(b.subrange(at, at + CHUNK_HEADER_SIZE as int)) {
            Err(kind) => Err(kind),
            Ok(header) => {
                if header.compressed_size > b.len() - at - CHUNK_HEADER_SIZE {
                    Err(ErrorKind::Io)
                } else {
                    match offsets_spec(
                        b,
                        at + CHUNK_HEADER_SIZE + header.compressed_size,
                        (count - 1) as nat,
                    ) {
                        Err(kind) => Err(kind),
                        Ok(rest) => Ok(seq![at as u64] + rest),
                    }
                }
            },
        }
    }
}

/// The offsets found so far, followed by what the rest of the input gives.
pub open spec fn offsets_continued(done: Seq<u64>, rest: Result<Seq<u64>, ErrorKind>) -> Result<
    Seq<u64>,
    ErrorKind,
> {
    match rest {
        Ok(more) => Ok(done + more),
        Err(kind) => Err(kind),
    }
}

/// Finds the offsets of the chunks of a stream: `total_chunks` chunks, one
/// behind the other, from the end of the global header on. Fails with an I/O
/// error where the stream ends inside a chunk.
pub fn chunk_offsets(data: &[u8], total_chunks: u32) -> (result: Result<Vec<u64>, HlcError>)
    ensures
        match offsets_spec(data@, GLOBAL_HEADER_SIZE as int, total_chunks as nat) {
            Ok(offsets) => result is Ok && result->Ok_0@ == offsets,
            Err(kind) => result is Err && result->Err_0.kind_spec() == kind,
        },
{
    let n: usize = data.len();
    let mut offsets: Vec<u64> = Vec::new();
    let mut at: usize = GLOBAL_HEADER_SIZE;
    let mut found: u32 = 0;
    let ghost whole = offsets_spec(data@, GLOBAL_HEADER_SIZE as int, total_chunks as nat);
    proof {
        if whole is Ok {
            assert(offsets@ + whole->Ok_0 =~= whole->Ok_0);
        }
    }
    while found < total_chunks
        invariant
            n == data@.len(),
            found <= total_chunks,
            at <= n || found == 0,
            whole == offsets_spec(data@, GLOBAL_HEADER_SIZE as int, total_chunks as nat),
            offsets_continued(offsets@, offsets_spec(data@, at as int, (total_chunks - found) as nat)) == whole,
        decreases total_chunks - found,
    {
        if at > n || n - at < CHUNK_HEADER_SIZE {
            return Err(HlcError::Io("failed to fill whole buffer".to_string()));
        }
        let header = match ChunkHeader::read(slice_subrange(data, at, at + CHUNK_HEADER_SIZE)) {
            Ok(header) => header,
            Err(e) => {
                return Err(e);
            },
        };
        if header.compressed_size as usize > n - at - CHUNK_HEADER_SIZE {
            return Err(HlcError::Io("failed to fill whole buffer".to_string()));
        }
        let ghost before = offsets@;
        offsets.push(at as u64);
        let next: usize = at + CHUNK_HEADER_SIZE + header.compressed_size as usize;
        proof {
            let rest = offsets_spec(data@, next as int, (total_chunks - found - 1) as nat);
            if rest is Ok {
                assert(before + (seq![at as u64] + rest->Ok_0) =~= offsets@ + rest->Ok_0);
            }
        }
        at = next;
        found += 1;
    }
    proof {
        assert(offsets@ + Seq::<u64>::empty() =~= offsets@);
    }
    Ok(offsets)
}

/// Reads the chunk that stands at `offset` in a stream: its header and its
/// payload. The original bytes are not part of a stream and stay empty. Fails
/// with an I/O error exactly where the stream ends inside the chunk.
pub fn read_chunk_at(data: &[u8], offset: u64) -> (result: Result<ChunkData, HlcError>)
    ensures
        offset + CHUNK_HEADER_SIZE > data@.len() ==> result is Err && result->Err_0 is Io,
        offset + CHUNK_HEADER_SIZE <= data@.len() ==> {
            let header = parse_chunk_header(
                data@.subrange(offset as int, offset + CHUNK_HEADER_SIZE),
            )->Ok_0;
            if header.compressed_size <= data@.len() - offset - CHUNK_HEADER_SIZE {
                &&& result is Ok
                &&& result->Ok_0.header@ == header
                &&& result->Ok_0.chunk_id == header.chunk_id
                &&& result->Ok_0.original_data@.len() == 0
                &&& result->Ok_0.compressed_data@ == data@.subrange(
                    offset + CHUNK_HEADER_SIZE,
                    offset + CHUNK_HEADER_SIZE + header.compressed_size,
                )
            } else {
                result is Err && result->Err_0 is Io
            }
        },
{
    let n: usize = data.len();
    if offset > n as u64 || n - (offset as usize) < CHUNK_HEADER_SIZE {
        return Err(HlcError::Io("failed to fill whole buffer".to_string()));
    }
    let at: usize = offset as usize;
    let header = match ChunkHeader::read(slice_subrange(data, at, at + CHUNK_HEADER_SIZE)) {
        Ok(header) => header,
        Err(e) => {
            return Err(e);
        },
    };
    if header.compressed_size as usize > n - at - CHUNK_HEADER_SIZE {
        return Err(HlcError::Io("failed to fill whole buffer".to_string()));
    }
    let start: usize = at + CHUNK_HEADER_SIZE;
    let end: usize = start + header.compressed_size as usize;
    let compressed_data: Vec<u8> = slice_to_vec(slice_subrange(data, start, end));
    Ok(ChunkData { chunk_id: header.chunk_id, original_data: Vec::new(), compressed_data, header })
}

/// The first position from `at` on whose chunk has the number `id` at least.
pub open spec fn first_at_least(pending: Seq<ChunkData>, id: u32, at: int) -> int
    decreases pending.len() - at,
{
    if 0 <= at < pending.len() && pending[at].chunk_id < id {
        first_at_least(pending, id, at + 1)
    } else {
        at
    }
}

/// The waiting chunks with `chunk` among them: in place of the chunk of the
/// same number, or before the first chunk of a higher number.
pub open spec fn placed(pending: Seq<ChunkData>, chunk: ChunkData) -> Seq<ChunkData> {
    let at = first_at_least(pending, chunk.chunk_id, 0);
    if 0 <= at < pending.len() && pending[at].chunk_id == chunk.chunk_id {
        pending.update(at, chunk)
    } else {
        pending.insert(at, chunk)
    }
}

/// The number of chunks from the front, counted from `at`, whose numbers
/// follow on `expected` without a gap.
pub open spec fn ready_count(pending: Seq<ChunkData>, expected: int, at: int) -> int
    decreases pending.len() - at,
{
    if 0 <= at < pending.len() && pending[at].chunk_id == expected + at {
        ready_count(pending, expected, at + 1)
    } else {
        at
    }
}

/// The chunks stand by rising numbers, each number once.
pub open spec fn rising(pending: Seq<ChunkData>) -> bool {
    forall|i: int, j: int|
        0 <= i < j < pending.len() ==> (#[trigger] pending[i]).chunk_id < (#[trigger] pending[j]).chunk_id
}

/// What `first_at_least` finds splits rising chunks into those under `id` and the others.
pub proof fn lemma_first_at_least(pending: Seq<ChunkData>, id: u32, at: int)
    requires
        rising(pending),
        0 <= at <= pending.len(),
        forall|i: int| 0 <= i < at ==> (#[trigger] pending[i]).chunk_id < id,
    ensures
        at <= first_at_least(pending, id, at) <= pending.len(),
        forall|i: int| 0 <= i < first_at_least(pending, id, at) ==> (#[trigger] pending[i]).chunk_id < id,
        forall|i: int|
            first_at_least(pending, id, at) <= i < pending.len() ==> (#[trigger] pending[i]).chunk_id >= id,
    decreases pending.len() - at,
{
    if at < pending.len() && pending[at].chunk_id < id {
        lemma_first_at_least(pending, id, at + 1);
    } else {
        assert forall|i: int| at <= i < pending.len() implies (#[trigger] pending[i]).chunk_id >= id by {
            if i > at {
                assert(pending[at].chunk_id < pending[i].chunk_id);
            }
        }
    }
}

/// Rising chunks stay rising when a chunk is placed among them.
pub proof fn lemma_placed(pending: Seq<ChunkData>, chunk: ChunkData)
    requires
        rising(pending),
    ensures
        rising(placed(pending, chunk)),
{
    lemma_first_at_least(pending, chunk.chunk_id, 0);
    let at = first_at_least(pending, chunk.chunk_id, 0);
    let now = placed(pending, chunk);
    assert forall|i: int, j: int| 0 <= i < j < now.len() implies (#[trigger] now[i]).chunk_id < (
    #[trigger] now[j]).chunk_id by {
        if at < pending.len() && pending[at].chunk_id == chunk.chunk_id {
            if i != at && j != at {
                assert(now[i] == pending[i] && now[j] == pending[j]);
            } else if i == at {
                assert(now[j] == pending[j]);
                assert(pending[at].chunk_id < pending[j].chunk_id);
            } else {
                assert(now[i] == pending[i]);
                assert(pending[i].chunk_id < pending[at].chunk_id);
            }
        } else {
            if j < at {
                assert(now[i] == pending[i] && now[j] == pending[j]);
            } else if j == at {
                assert(now[i] == pending[i]);
            } else if i < at {
                assert(now[i] == pending[i] && now[j] == pending[j - 1]);
                assert(pending[i].chunk_id < pending[j - 1].chunk_id);
            } else if i == at {
                assert(now[j] == pending[j - 1]);
                assert(pending[j - 1].chunk_id >= chunk.chunk_id);
                assert(pending[j - 1].chunk_id != chunk.chunk_id) by {
                    if j - 1 > at {
                        assert(pending[at].chunk_id < pending[j - 1].chunk_id);
                    }
                }
            } else {
                assert(now[i] == pending[i - 1] && now[j] == pending[j - 1]);
            }
        }
    }
}

/// Chunks that arrive in any order, handed on in the order of their numbers.
///
/// A chunk is handed on as soon as all chunks before it were handed on; until
/// then it waits.
pub struct ReorderBuffer {
    expected: u64,
    pending: Vec<ChunkData>,
}

impl ReorderBuffer {
    /// The number of the chunk that is handed on next.
    pub closed spec fn expected(self) -> int {
        self.expected as int
    }

    /// The chunks that wait, by rising numbers.
    pub closed spec fn pending(self) -> Seq<ChunkData> {
        self.pending@
    }

    /// The waiting chunks stand by rising numbers, and no more chunks were
    /// handed on than there are numbers.
    pub open spec fn wf(self) -> bool {
        rising(self.pending()) && 0 <= self.expected() <= 0x1_0000_0000
    }

    /// A buffer that waits for the chunk number 0.
    pub fn new() -> (buffer: Self)
        ensures
            buffer.wf(),
            buffer.expected() == 0,
            buffer.pending().len() == 0,
    {
        ReorderBuffer { expected: 0, pending: Vec::new() }
    }

    /// Takes in a chunk and returns the chunks that can be handed on now, in
    /// order: the chunk is placed among the waiting ones, in place of a
    /// waiting chunk of the same number, and the chunks at the front whose
    /// numbers follow on the expected number without a gap leave.
    pub fn accept(&mut self, chunk: ChunkData) -> (ready: Vec<ChunkData>)
        requires
            old(self).wf(),
        ensures
            final(self).wf(),
            ready@ == placed(old(self).pending(), chunk).take(
                ready_count(placed(old(self).pending(), chunk), old(self).expected(), 0),
            ),
            final(self).pending() == placed(old(self).pending(), chunk).skip(
                ready_count(placed(old(self).pending(), chunk), old(self).expected(), 0),
            ),
            final(self).expected() == old(self).expected() + ready@.len(),
    {
        let ghost before = self.pending@;
        let ghost merged = placed(before, chunk);
        let id: u32 = chunk.chunk_id;
        let mut at: usize = 0;
        while at < self.pending.len() && self.pending[at].chunk_id < id
            invariant
                at <= self.pending@.len(),
                self.pending@ == before,
                first_at_least(before, id, at as int) == first_at_least(before, id, 0),
            decreases self.pending@.len() - at,
        {
            at += 1;
        }
        proof {
            lemma_placed(before, chunk);
        }
        if at < self.pending.len() && self.pending[at].chunk_id == id {
            self.pending[at] = chunk;
        } else {
            self.pending.insert(at, chunk);
        }
        assert(self.pending@ =~= merged);
        let first: u64 = self.expected;
        let mut count: usize = 0;
        while count < self.pending.len() && self.pending[count].chunk_id as u64 == first + count as u64
            invariant
                count <= self.pending@.len(),
                self.pending@ == merged,
                rising(merged),
                first <= 0x1_0000_0000,
                first + count <= 0x1_0000_0000,
                ready_count(merged, first as int, count as int) == ready_count(merged, first as int, 0),
            decreases self.pending@.len() - count,
        {
            count += 1;
        }
        let mut ready = self.pending.split_off(count);
        std::mem::swap(&mut self.pending, &mut ready);
        self.expected = first + count as u64;
        proof {
            assert(ready@ =~= merged.take(count as int));
            assert(self.pending@ =~= merged.skip(count as int));
            assert forall|i: int, j: int| 0 <= i < j < self.pending@.len() implies (
            #[trigger] self.pending@[i]).chunk_id < (#[trigger] self.pending@[j]).chunk_id by {
                assert(self.pending@[i] == merged[i + count]);
                assert(self.pending@[j] == merged[j + count]);
            }
        }
        ready
    }

    /// The chunks that wait still, by rising numbers.
    pub fn finish(self) -> (left: Vec<ChunkData>)
        ensures
            left@ == self.pending(),
    {
        self.pending
    }
}

} // verus!
