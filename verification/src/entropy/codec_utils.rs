//! Frequency tables and thresholds for the entropy coders.
//!
//! Entropies are Shannon entropies in millionths of a bit per byte, measured by
//! the caller.

use vstd::prelude::*;

verus! {

/// The number of bytes equal to `byte` among the first `n` of `s`.
pub open spec fn occurrences_in(s: Seq<u8>, byte: u8, n: int) -> nat
    decreases n,
{
    if n <= 0 {
        0
    } else {
        occurrences_in(s, byte, n - 1) + if s[n - 1] == byte { 1nat } else { 0nat }
    }
}

/// The number of bytes of `s` equal to `byte`.
pub open spec fn occurrences(s: Seq<u8>, byte: u8) -> nat {
    occurrences_in(s, byte, s.len() as int)
}

/// No byte occurs more often than there are bytes.
pub proof fn lemma_occurrences_bound(s: Seq<u8>, byte: u8, n: int)
    requires
        0 <= n,
    ensures
        occurrences_in(s, byte, n) <= n,
    decreases n,
{
    if n > 0 {
        lemma_occurrences_bound(s, byte, n - 1);
    }
}

/// Counts how often each byte value occurs in `data`. The counts are 32 bits
/// wide, so `data` may hold at most `u32::MAX` bytes.
pub fn build_frequency_table(data: &[u8]) -> (frequencies: [u32; 256])
    requires
        data@.len() <= u32::MAX,
    ensures
        forall|b: u8| #[trigger] frequencies@[b as int] == occurrences(data@, b),
{
    let mut frequencies: [u32; 256] = [0u32; 256];
    let mut i: usize = 0;
    while i < data.len()
        invariant
            i <= data.len(),
            data@.len() <= u32::MAX,
            forall|b: u8| #[trigger] frequencies@[b as int] == occurrences_in(data@, b, i as int),
        decreases data.len() - i,
    {
        let byte: u8 = data[i];
        proof {
            lemma_occurrences_bound(data@, byte, i as int);
        }
        let count: u32 = frequencies[byte as usize];
        frequencies[byte as usize] = count + 1;
        i += 1;
    }
    frequencies
}

/// The sum of the first `n` entries of `values`.
pub open spec fn sum_of(values: Seq<u32>, n: int) -> nat
    decreases n,
{
    if n <= 0 {
        0
    } else {
        sum_of(values, n - 1) + values[n - 1] as nat
    }
}

/// An entry of a table scaled to `max_freq` for a table total of `total`; an
/// entry that is not zero stays at least 1.
pub open spec fn normalized(frequency: u32, max_freq: u32, total: nat) -> nat {
    if total == 0 {
        0
    } else {
        let scaled = (frequency as nat * max_freq as nat) / total;
        if scaled == 0 && frequency > 0 {
            1
        } else {
            scaled
        }
    }
}

/// The sums grow with the number of entries.
pub proof fn lemma_sum_monotone(values: Seq<u32>, m: int, n: int)
    requires
        0 <= m <= n,
    ensures
        sum_of(values, m) <= sum_of(values, n),
    decreases n - m,
{
    if m < n {
        lemma_sum_monotone(values, m, n - 1);
    }
}

/// An entry is at most the table total.
pub proof fn lemma_entry_le_sum(values: Seq<u32>, i: int, n: int)
    requires
        0 <= i < n,
    ensures
        values[i] <= sum_of(values, n),
{
    lemma_sum_monotone(values, i + 1, n);
}

/// Scales a frequency table so that the whole table stands for `max_freq`:
/// each entry becomes `entry * max_freq / total`, and an entry that is not zero
/// stays at least 1. A table of zeros stays as it is.
///
/// The table total and each `entry * max_freq` must fit 32 bits.
pub fn normalize_frequencies(frequencies: &[u32; 256], max_freq: u32) -> (table: [u32; 256])
    requires
        sum_of(frequencies@, 256) <= u32::MAX,
        forall|i: int| 0 <= i < 256 ==> (#[trigger] frequencies@[i]) * max_freq <= u32::MAX,
    ensures
        forall|i: int|
            0 <= i < 256 ==> (#[trigger] table@[i]) == normalized(
                frequencies@[i],
                max_freq,
                sum_of(frequencies@, 256),
            ),
{
    let mut total: u32 = 0;
    let mut k: usize = 0;
    while k < 256
        invariant
            k <= 256,
            sum_of(frequencies@, 256) <= u32::MAX,
            total == sum_of(frequencies@, k as int),
        decreases 256 - k,
    {
        proof {
            lemma_sum_monotone(frequencies@, k + 1, 256);
        }
        total = total + frequencies[k];
        k += 1;
    }
    let mut table: [u32; 256] = [0u32; 256];
    if total == 0 {
        return table;
    }
    let mut i: usize = 0;
    while i < 256
        invariant
            i <= 256,
            total > 0,
            total == sum_of(frequencies@, 256),
            forall|j: int| 0 <= j < 256 ==> (#[trigger] frequencies@[j]) * max_freq <= u32::MAX,
            forall|j: int|
                0 <= j < i ==> (#[trigger] table@[j]) == normalized(frequencies@[j], max_freq, total as nat),
        decreases 256 - i,
    {
        let frequency: u32 = frequencies[i];
        assert(frequencies@[i as int] * max_freq <= u32::MAX);
        let mut value: u32 = (frequency * max_freq) / total;
        if value == 0 && frequency > 0 {
            value = 1;
        }
        table[i] = value;
        i += 1;
    }
    table
}

/// The running totals of a frequency table: entry `i` is the sum of the first
/// `i` frequencies, so the first entry is 0 and the last the table total, which
/// must fit 32 bits.
pub fn build_cumulative_frequencies(frequencies: &[u32; 256]) -> (cumulative: [u32; 257])
    requires
        sum_of(frequencies@, 256) <= u32::MAX,
    ensures
        forall|i: int| 0 <= i <= 256 ==> (#[trigger] cumulative@[i]) == sum_of(frequencies@, i),
{
    let mut cumulative: [u32; 257] = [0u32; 257];
    let mut i: usize = 0;
    while i < 256
        invariant
            i <= 256,
            sum_of(frequencies@, 256) <= u32::MAX,
            forall|j: int| 0 <= j <= i ==> (#[trigger] cumulative@[j]) == sum_of(frequencies@, j),
        decreases 256 - i,
    {
        proof {
            lemma_sum_monotone(frequencies@, i + 1, 256);
        }
        let next: u32 = cumulative[i] + frequencies[i];
        cumulative[i + 1] = next;
        i += 1;
    }
    cumulative
}

/// The entropy under which data counts as highly compressible: 4 bits per byte.
pub const HIGHLY_COMPRESSIBLE_BELOW: u32 = 4_000_000;

/// The entropy over which data counts as compressed already: 7.5 bits per byte.
pub const LIKELY_COMPRESSED_ABOVE: u32 = 7_500_000;

/// Whether data of the given entropy is highly compressible: under 4 bits per byte.
pub fn is_highly_compressible(entropy: u32) -> (compressible: bool)
    ensures
        compressible == (entropy < HIGHLY_COMPRESSIBLE_BELOW),
{
    entropy < HIGHLY_COMPRESSIBLE_BELOW
}

/// Whether `data`, of the given entropy, looks compressed already: at least four
/// bytes with over 7.5 bits per byte.
pub fn is_likely_compressed(data: &[u8], entropy: u32) -> (compressed: bool)
    ensures
        compressed == (data@.len() >= 4 && entropy > LIKELY_COMPRESSED_ABOVE),
{
    if data.len() < 4 {
        return false;
    }
    entropy > LIKELY_COMPRESSED_ABOVE
}

/// The entropy under which chunks are doubled: 2 bits per byte.
pub const LARGER_CHUNKS_BELOW: u32 = 2_000_000;

/// The entropy over which chunks are halved: 7 bits per byte.
pub const SMALLER_CHUNKS_ABOVE: u32 = 7_000_000;

/// The chunk size that suits data of the given entropy: twice `base_size`
/// under 2 bits per byte, half of it over 7 bits per byte, and `base_size`
/// between them. Twice `base_size` must fit the machine word where it is asked for.
pub fn estimate_optimal_chunk_size(entropy: u32, base_size: usize) -> (size: usize)
    requires
        entropy < LARGER_CHUNKS_BELOW ==> base_size * 2 <= usize::MAX,
    ensures
        size == if entropy < LARGER_CHUNKS_BELOW {
            base_size * 2
        } else if entropy > SMALLER_CHUNKS_ABOVE {
            base_size as int / 2
        } else {
            base_size as int
        },
{
    if entropy < LARGER_CHUNKS_BELOW {
        base_size * 2
    } else if entropy > SMALLER_CHUNKS_ABOVE {
        base_size / 2
    } else {
        base_size
    }
}

/// Whether the entry `a` stands before the entry `b` in a distribution: by
/// falling count, and by rising byte value among equal counts.
pub open spec fn stands_before(a: (u8, u32), b: (u8, u32)) -> bool {
    a.1 > b.1 || (a.1 == b.1 && a.0 < b.0)
}

/// Whether `entries` is the distribution of `data`: one entry for each byte
/// value that occurs, with its count, in the order of `stands_before`.
pub open spec fn is_distribution(entries: Seq<(u8, u32)>, data: Seq<u8>) -> bool {
    &&& forall|i: int|
        0 <= i < entries.len() ==> (#[trigger] entries[i]).1 > 0 && entries[i].1 == occurrences(
            data,
            entries[i].0,
        )
    &&& forall|i: int, j: int| 0 <= i < j < entries.len() ==> stands_before(#[trigger] entries[i], #[trigger] entries[j])
    &&& forall|b: u8|
        occurrences(data, b) > 0 ==> exists|i: int| 0 <= i < entries.len() && (#[trigger] entries[i]).0 == b
}

/// The byte values that occur in `data` with their counts, the most frequent
/// first; equal counts stand by rising byte value. `data` may hold at most
/// `u32::MAX` bytes.
pub fn byte_frequency_distribution(data: &[u8]) -> (distribution: Vec<(u8, u32)>)
    requires
        data@.len() <= u32::MAX,
    ensures
        is_distribution(distribution@, data@),
        distribution@.len() <= 256,
{
    let frequencies = build_frequency_table(data);
    let mut distribution: Vec<(u8, u32)> = Vec::new();
    let mut b: usize = 0;
    while b < 256
        invariant
            b <= 256,
            distribution@.len() <= b,
            forall|c: u8| #[trigger] frequencies@[c as int] == occurrences(data@, c),
            forall|i: int|
                0 <= i < distribution@.len() ==> (#[trigger] distribution@[i]).1 > 0 && distribution@[i].1
                    == occurrences(data@, distribution@[i].0) && distribution@[i].0 < b,
            forall|i: int, j: int|
                0 <= i < j < distribution@.len() ==> stands_before(
                    #[trigger] distribution@[i],
                    #[trigger] distribution@[j],
                ),
            forall|c: u8|
                c < b && occurrences(data@, c) > 0 ==> exists|i: int|
                    0 <= i < distribution@.len() && (#[trigger] distribution@[i]).0 == c,
        decreases 256 - b,
    {
        let frequency: u32 = frequencies[b];
        assert(frequencies@[(b as u8) as int] == occurrences(data@, b as u8));
        if frequency > 0 {
            let mut position: usize = 0;
            while position < distribution.len() && distribution[position].1 >= frequency
                invariant
                    position <= distribution@.len(),
                    forall|i: int| 0 <= i < position ==> (#[trigger] distribution@[i]).1 >= frequency,
                decreases distribution@.len() - position,
            {
                position += 1;
            }
            let ghost before = distribution@;
            let entry: (u8, u32) = (b as u8, frequency);
            distribution.insert(position, entry);
            proof {
                assert(distribution@ == before.insert(position as int, entry));
                assert forall|i: int, j: int| 0 <= i < j < distribution@.len() implies stands_before(
                    #[trigger] distribution@[i],
                    #[trigger] distribution@[j],
                ) by {
                    if j < position {
                        assert(distribution@[i] == before[i] && distribution@[j] == before[j]);
                    } else if j == position {
                        assert(distribution@[i] == before[i]);
                    } else if i < position {
                        assert(distribution@[i] == before[i] && distribution@[j] == before[j - 1]);
                    } else if i == position {
                        assert(distribution@[j] == before[j - 1]);
                        if j - 1 > position {
                            assert(stands_before(before[position as int], before[j - 1]));
                        }
                    } else {
                        assert(distribution@[i] == before[i - 1] && distribution@[j] == before[j - 1]);
                    }
                }
                assert forall|i: int| 0 <= i < distribution@.len() implies (#[trigger] distribution@[i]).1 > 0
                    && distribution@[i].1 == occurrences(data@, distribution@[i].0) && distribution@[i].0 < b
                    + 1 by {
                    if i < position {
                        assert(distribution@[i] == before[i]);
                    } else if i > position {
                        assert(distribution@[i] == before[i - 1]);
                    }
                }
                assert forall|c: u8| c < b + 1 && occurrences(data@, c) > 0 implies exists|i: int|
                    0 <= i < distribution@.len() && (#[trigger] distribution@[i]).0 == c by {
                    if c == b {
                        assert(distribution@[position as int].0 == c);
                    } else {
                        let i = choose|i: int| 0 <= i < before.len() && (#[trigger] before[i]).0 == c;
                        if i < position {
                            assert(distribution@[i].0 == c);
                        } else {
                            assert(distribution@[i + 1].0 == c);
                        }
                    }
                }
            }
        }
        b += 1;
    }
    distribution
}

/// The first `count` entries of `entries`, or all of them where there are fewer.
pub open spec fn first_entries(entries: Seq<(u8, u32)>, count: usize) -> Seq<(u8, u32)> {
    if count <= entries.len() {
        entries.take(count as int)
    } else {
        entries
    }
}

/// The first `count` entries of the distribution of `data`, or all of it where
/// it has fewer.
pub fn most_frequent_bytes(data: &[u8], count: usize) -> (entries: Vec<(u8, u32)>)
    requires
        data@.len() <= u32::MAX,
    ensures
        exists|distribution: Seq<(u8, u32)>|
            #[trigger] is_distribution(distribution, data@) && entries@ == first_entries(distribution, count),
{
    let mut distribution = byte_frequency_distribution(data);
    let ghost whole = distribution@;
    distribution.truncate(count);
    proof {
        assert(distribution@ =~= first_entries(whole, count));
        assert(is_distribution(whole, data@));
    }
    distribution
}

} // verus!
