//! Chunks of the stream format, the fixed-size chunker, and the steps of the
//! chunker that follows the content.

use vstd::prelude::*;
use vstd::slice::{slice_subrange, slice_to_vec};
use crate::chunk::pieces;
use crate::endian::append;
use crate::error::HlcError;

verus! {

/// A piece of the input with its number.
#[derive(Debug, Clone)]
pub struct Chunk {
    pub id: u32,
    pub data: Vec<u8>,
}

impl Chunk {
    /// The chunk number `id` holding `data`.
    pub fn new(id: u32, data: Vec<u8>) -> (chunk: Self)
        ensures
            chunk.id == id,
            chunk.data == data,
    {
        Chunk { id, data }
    }

    /// The number of bytes of the chunk.
    pub fn size(&self) -> (size: usize)
        ensures
            size == self.data@.len(),
    {
        self.data.len()
    }
}

/// Splits input into chunks of one size.
pub struct FixedChunker {
    chunk_size: usize,
}

/// The bytes of each chunk.
pub open spec fn data_of(chunks: Seq<Chunk>) -> Seq<Seq<u8>> {
    Seq::new(chunks.len(), |i: int| chunks[i].data@)
}

/// Chunk `i` has the id `i`.
pub open spec fn numbered(chunks: Seq<Chunk>) -> bool {
    forall|i: int| 0 <= i < chunks.len() ==> (#[trigger] chunks[i]).id == i
}

impl FixedChunker {
    /// The size of the chunks.
    pub closed spec fn chunk_size(self) -> usize {
        self.chunk_size
    }

    /// A chunker for chunks of `chunk_size` bytes.
    pub fn new(chunk_size: usize) -> (chunker: Self)
        ensures
            chunker.chunk_size() == chunk_size,
    {
        FixedChunker { chunk_size }
    }

    /// Splits `data` into chunks of the chunker's size, the last one possibly
    /// shorter, numbered from 0. A chunk size of zero gives no chunk. Fails with
    /// a pipeline error exactly where there are more chunks than 32 bits can count.
    pub fn chunk_data(&self, data: &[u8]) -> (result: Result<Vec<Chunk>, HlcError>)
        ensures
            pieces(data@, self.chunk_size() as nat).len() <= u32::MAX ==> result is Ok && data_of(result->Ok_0@)
                == pieces(data@, self.chunk_size() as nat) && numbered(result->Ok_0@),
            pieces(data@, self.chunk_size() as nat).len() > u32::MAX ==> result is Err && result->Err_0
                is PipelineError,
    {
        let n: usize = data.len();
        let size: usize = self.chunk_size;
        let mut chunks: Vec<Chunk> = Vec::new();
        if size == 0 {
            assert(data_of(chunks@) =~= pieces(data@, 0));
            return Ok(chunks);
        }
        let mut start: usize = 0;
        let ghost whole = pieces(data@, size as nat);
        proof {
            assert(data@.skip(0) =~= data@);
            assert(data_of(chunks@) + whole =~= whole);
        }
        while start < n
            invariant
                n == data@.len(),
                size > 0,
                size == self.chunk_size(),
                start <= n,
                whole == pieces(data@, size as nat),
                chunks@.len() <= u32::MAX,
                numbered(chunks@),
                data_of(chunks@) + pieces(data@.skip(start as int), size as nat) == whole,
            decreases n - start,
        {
            let end: usize = if n - start <= size { n } else { start + size };
            let ghost before = chunks@;
            let ghost rest = data@.skip(start as int);
            proof {
                assert(pieces(rest, size as nat).len() >= 1);
                assert(data_of(before).len() == before.len());
                assert((data_of(before) + pieces(rest, size as nat)).len() == before.len() + pieces(
                    rest,
                    size as nat,
                ).len());
                assert(whole.len() >= before.len() + 1);
            }
            if chunks.len() >= u32::MAX as usize {
                return Err(HlcError::PipelineError("Too many chunks".to_string()));
            }
            let id: u32 = chunks.len() as u32;
            let piece: Vec<u8> = slice_to_vec(slice_subrange(data, start, end));
            chunks.push(Chunk::new(id, piece));
            proof {
                if n - start <= size {
                    assert(rest =~= data@.subrange(start as int, end as int));
                    assert(data@.skip(end as int).len() == 0);
                    assert(data_of(chunks@) + pieces(data@.skip(end as int), size as nat) =~= data_of(before)
                        + seq![rest]);
                } else {
                    assert(rest.take(size as int) =~= data@.subrange(start as int, end as int));
                    assert(rest.skip(size as int) =~= data@.skip(end as int));
                    assert(data_of(chunks@) + pieces(data@.skip(end as int), size as nat) =~= data_of(before) + (
                    seq![rest.take(size as int)] + pieces(rest.skip(size as int), size as nat)));
                }
            }
            start = end;
        }
        proof {
            assert(data@.skip(start as int).len() == 0);
            assert(data_of(chunks@) + Seq::<Seq<u8>>::empty() =~= data_of(chunks@));
        }
        Ok(chunks)
    }
}

/// The entropy above which content counts as dense: 0.7 bits per byte, in
/// millionths of a bit.
pub const DENSE_ENTROPY: u32 = 700_000;

/// The number of bytes at the front of a block whose entropy decides a step.
pub const ENTROPY_SAMPLE: usize = 1024;

/// Whether chunk data ends at a natural boundary: a closing brace or bracket
/// before a line feed, a carriage return or a tab; a closing angle bracket
/// before a line feed or a carriage return; or a zero byte at the end. Data
/// of fewer than two bytes has none.
pub open spec fn natural_boundary(data: Seq<u8>) -> bool {
    data.len() >= 2 && {
        let first = data[data.len() - 2];
        let second = data[data.len() - 1];
        ||| ((first == 125 || first == 93) && (second == 10 || second == 13 || second == 9))
        ||| (first == 62 && (second == 10 || second == 13))
        ||| second == 0
    }
}

/// What one step of the adaptive chunker did.
#[derive(Debug, Clone, Copy, PartialEq, Eq)]
pub struct ChunkStep {
    /// The number of bytes that went from the block into the chunk.
    pub taken: usize,
    /// Whether the chunk is complete with them.
    pub complete: bool,
}

/// Cuts input into chunks whose sizes follow the content: small steps through
/// dense content, large steps through sparse content, and a cut at the target
/// size, at a natural boundary, or where a block ends.
///
/// The chunker decides step by step. The caller holds the chunk that is being
/// filled and the block of input that is left, measures the entropy of the
/// front of the block, and calls `advance`.
pub struct AdaptiveChunker {
    min_size: usize,
    max_size: usize,
    target_size: usize,
    entropy_threshold: u32,
}

impl AdaptiveChunker {
    /// The smallest step through a block that is at least as long.
    pub closed spec fn min_size(self) -> usize {
        self.min_size
    }

    /// The largest step.
    pub closed spec fn max_size(self) -> usize {
        self.max_size
    }

    /// The size from which a chunk is complete.
    pub closed spec fn target_size(self) -> usize {
        self.target_size
    }

    /// The entropy above which content counts as dense.
    pub closed spec fn entropy_threshold(self) -> u32 {
        self.entropy_threshold
    }

    /// A chunker with the target size half way between the two sizes.
    pub fn new(min_size: usize, max_size: usize) -> (chunker: Self)
        ensures
            chunker.min_size() == min_size,
            chunker.max_size() == max_size,
            chunker.target_size() == (min_size + max_size) / 2,
            chunker.entropy_threshold() == DENSE_ENTROPY,
    {
        AdaptiveChunker {
            min_size,
            max_size,
            target_size: min_size / 2 + max_size / 2 + (min_size % 2 + max_size % 2) / 2,
            entropy_threshold: DENSE_ENTROPY,
        }
    }

    /// The size of the step through a block of `available` bytes whose front
    /// has the entropy `entropy`: a block shorter than the smallest step is
    /// taken whole; dense content gives half the target size, but the smallest
    /// step at least; other content gives twice the target size, but the
    /// largest step at most.
    pub open spec fn step_size(self, available: nat, entropy: u32) -> nat {
        if available < self.min_size() {
            available
        } else if entropy > self.entropy_threshold() {
            if self.min_size() >= self.target_size() / 2 {
                self.min_size() as nat
            } else {
                (self.target_size() / 2) as nat
            }
        } else {
            if self.max_size() <= self.target_size() * 2 {
                self.max_size() as nat
            } else {
                (self.target_size() * 2) as nat
            }
        }
    }

    /// The front of a block whose entropy decides the step: its first 1024
    /// bytes, or all of a shorter block.
    pub fn sample<'a>(&self, available: &'a [u8]) -> (front: &'a [u8])
        ensures
            front@ == available@.take(
                if available@.len() <= ENTROPY_SAMPLE {
                    available@.len() as int
                } else {
                    ENTROPY_SAMPLE as int
                },
            ),
    {
        let n: usize = available.len();
        let length: usize = if n <= ENTROPY_SAMPLE { n } else { ENTROPY_SAMPLE };
        slice_subrange(available, 0, length)
    }

    /// The size of the step through a block of `available` bytes.
    pub fn determine_chunk_size(&self, available: usize, entropy: u32) -> (size: usize)
        ensures
            size == self.step_size(available as nat, entropy),
    {
        if available < self.min_size {
            available
        } else if entropy > self.entropy_threshold {
            let half: usize = self.target_size / 2;
            if self.min_size >= half {
                self.min_size
            } else {
                half
            }
        } else if self.target_size >= self.max_size || self.target_size >= self.max_size - self.target_size {
            self.max_size
        } else {
            self.target_size * 2
        }
    }

    /// Whether `data` ends at a natural boundary.
    pub fn is_natural_boundary(&self, data: &[u8]) -> (found: bool)
        ensures
            found == natural_boundary(data@),
    {
        let n: usize = data.len();
        if n < 2 {
            return false;
        }
        let first: u8 = data[n - 2];
        let second: u8 = data[n - 1];
        ((first == 125 || first == 93) && (second == 10 || second == 13 || second == 9)) || (first == 62 && (second
            == 10 || second == 13)) || second == 0
    }

    /// The number of bytes that a step takes from a block: the size of the
    /// step, or the whole block where it is shorter.
    pub open spec fn taken(self, available: nat, entropy: u32) -> nat {
        if self.step_size(available, entropy) <= available {
            self.step_size(available, entropy)
        } else {
            available
        }
    }

    /// One step: moves the front of the block `available` into the chunk
    /// `current` and says whether the chunk is complete. `entropy` is the
    /// entropy of the front of the block, as `sample` gives it.
    ///
    /// The chunk is complete where it has reached the target size, where it
    /// ends at a natural boundary, or where the block ended before the step
    /// did. With a smallest step of one byte at least, a largest step that is
    /// no smaller and the target size half way between them, each step through
    /// a block that is not empty takes a byte at least.
    pub fn advance(&self, current: &mut Vec<u8>, available: &[u8], entropy: u32) -> (step: ChunkStep)
        ensures
            step.taken == self.taken(available@.len(), entropy),
            final(current)@ == old(current)@ + available@.take(step.taken as int),
            step.complete == (final(current)@.len() >= self.target_size() || natural_boundary(final(current)@)
                || step.taken < self.step_size(available@.len(), entropy)),
            1 <= self.min_size() <= self.max_size() && self.target_size() == (self.min_size() + self.max_size()) / 2
                && available@.len() >= 1 ==> step.taken >= 1,
    {
        let remaining: usize = available.len();
        let chunk_size: usize = self.determine_chunk_size(remaining, entropy);
        let actual_size: usize = if chunk_size <= remaining { chunk_size } else { remaining };
        append(current, slice_subrange(available, 0, actual_size));
        let complete: bool = current.len() >= self.target_size || self.is_natural_boundary(current.as_slice())
            || actual_size < chunk_size;
        ChunkStep { taken: actual_size, complete }
    }
}

} // verus!
