//! The chunk analyzer: picks the transforms to try on a chunk from cheap statistics.
//!
//! The statistics are the share of zero bytes, the number of zero runs, the
//! share of neighbours that differ by at most 2, a count of recurring four-byte
//! windows, and the Shannon entropies of the chunk and of its delta sequence.
//! The entropies are measured by the caller and handed in as integers.

use vstd::prelude::*;
use vstd::slice::slice_to_vec;
use crate::config::HlcMode;

verus! {

/// The transforms to try on a chunk, with a copy of the chunk to fall back on.
#[derive(Debug, Clone)]
pub struct CompressionStrategy {
    pub use_rle: bool,
    pub use_delta: bool,
    pub use_dictionary: bool,
    pub original_data: Vec<u8>,
}

/// Shannon entropies (base 2) of a chunk's byte histogram and of the histogram
/// of its byte-wise differences, in millionths of a bit per byte.
#[derive(Debug, Clone, Copy, PartialEq, Eq, Structural)]
pub struct EntropyEstimate {
    pub original: u32,
    pub delta: u32,
}

/// The number of zero bytes among the first `n` bytes of `s`.
pub open spec fn zeros_in(s: Seq<u8>, n: int) -> nat
    decreases n,
{
    if n <= 0 {
        0
    } else {
        zeros_in(s, n - 1) + if s[n - 1] == 0 { 1nat } else { 0nat }
    }
}

/// Whether a maximal run of zeros starts at `i`.
pub open spec fn run_starts_at(s: Seq<u8>, i: int) -> bool {
    s[i] == 0 && (i == 0 || s[i - 1] != 0)
}

/// The number of maximal zero runs that start among the first `n` bytes of `s`.
pub open spec fn runs_in(s: Seq<u8>, n: int) -> nat
    decreases n,
{
    if n <= 0 {
        0
    } else {
        runs_in(s, n - 1) + if run_starts_at(s, n - 1) { 1nat } else { 0nat }
    }
}

/// Whether two bytes differ by at most 2.
pub open spec fn near(a: u8, b: u8) -> bool {
    a - b <= 2 && b - a <= 2
}

/// The number of positions `i` with `1 <= i < n` whose byte is near the one before.
pub open spec fn near_in(s: Seq<u8>, n: int) -> nat
    decreases n,
{
    if n <= 1 {
        0
    } else {
        near_in(s, n - 1) + if near(s[n - 1], s[n - 2]) { 1nat } else { 0nat }
    }
}

/// Whether the four bytes at `i` and at `j` are the same.
pub open spec fn same_window(s: Seq<u8>, i: int, j: int) -> bool {
    s[i] == s[j] && s[i + 1] == s[j + 1] && s[i + 2] == s[j + 2] && s[i + 3] == s[j + 3]
}

/// Whether the window at `i` recurs at `j` or at a later position in steps of
/// four, before the last four bytes.
pub open spec fn recurs_from(s: Seq<u8>, i: int, j: int) -> bool
    decreases s.len() - j,
{
    if j + 4 >= s.len() || j < 0 {
        false
    } else {
        same_window(s, i, j) || recurs_from(s, i, j + 4)
    }
}

/// The number of windows that start among the first `n` positions and recur later.
pub open spec fn recurring_in(s: Seq<u8>, n: int) -> nat
    decreases n,
{
    if n <= 0 {
        0
    } else {
        recurring_in(s, n - 1) + if recurs_from(s, n - 1, n + 3) { 1nat } else { 0nat }
    }
}

/// Run-length coding is worth trying: more than 30% zeros, or more than one
/// zero run per 20 bytes.
pub open spec fn wants_rle(s: Seq<u8>) -> bool {
    10 * zeros_in(s, s.len() as int) > 3 * s.len() || runs_in(s, s.len() as int) > s.len() / 20
}

/// The delta sequence has less than 80% of the chunk's entropy.
pub open spec fn entropy_drops(entropy: EntropyEstimate) -> bool {
    10 * entropy.delta < 8 * entropy.original
}

/// More than a third of the neighbours are near one another.
pub open spec fn has_sequential_patterns_spec(s: Seq<u8>) -> bool {
    s.len() >= 2 && 3 * near_in(s, s.len() as int) > s.len() - 1
}

/// More than one window in 64 recurs later.
pub open spec fn has_repeating_patterns_spec(s: Seq<u8>) -> bool {
    s.len() >= 8 && recurring_in(s, s.len() - 8) > s.len() / 64
}

/// The transforms the analyzer selects for `s`: `(use_rle, use_delta, use_dictionary)`.
/// For an empty chunk all are off.
pub open spec fn strategy_spec(s: Seq<u8>, mode: HlcMode, entropy: EntropyEstimate) -> (bool, bool, bool) {
    if s.len() == 0 {
        (false, false, false)
    } else {
        (
            wants_rle(s),
            entropy_drops(entropy) || (mode == HlcMode::Max && has_sequential_patterns_spec(s)),
            mode == HlcMode::Max && has_repeating_patterns_spec(s),
        )
    }
}

/// Counts the zero bytes of `data`.
pub fn count_zeros(data: &[u8]) -> (count: usize)
    ensures
        count == zeros_in(data@, data@.len() as int),
{
    let mut count: usize = 0;
    let mut i: usize = 0;
    while i < data.len()
        invariant
            i <= data.len(),
            count <= i,
            count == zeros_in(data@, i as int),
        decreases data.len() - i,
    {
        if data[i] == 0 {
            count += 1;
        }
        i += 1;
    }
    count
}

/// Counts the maximal runs of zero bytes of `data`.
pub fn count_zero_runs(data: &[u8]) -> (runs: usize)
    ensures
        runs == runs_in(data@, data@.len() as int),
{
    let mut runs: usize = 0;
    let mut in_run: bool = false;
    let mut i: usize = 0;
    while i < data.len()
        invariant
            i <= data.len(),
            runs <= i,
            runs == runs_in(data@, i as int),
            in_run == (i > 0 && data@[i - 1] == 0),
        decreases data.len() - i,
    {
        if data[i] == 0 {
            if !in_run {
                runs += 1;
                in_run = true;
            }
        } else {
            in_run = false;
        }
        i += 1;
    }
    runs
}

/// Whether more than a third of the neighbouring bytes of `data` differ by at most 2.
pub fn has_sequential_patterns(data: &[u8]) -> (found: bool)
    ensures
        found == has_sequential_patterns_spec(data@),
{
    if data.len() < 2 {
        return false;
    }
    let mut sequential_count: usize = 0;
    let mut i: usize = 1;
    while i < data.len()
        invariant
            1 <= i <= data.len(),
            sequential_count <= i - 1,
            sequential_count == near_in(data@, i as int),
        decreases data.len() - i,
    {
        let a: u8 = data[i];
        let b: u8 = data[i - 1];
        let diff: u8 = if a >= b { a - b } else { b - a };
        if diff <= 2 {
            sequential_count += 1;
        }
        i += 1;
    }
    3 * (sequential_count as u128) > (data.len() - 1) as u128
}

/// Whether the four bytes at `i` and at `j` of `data` are the same.
fn windows_equal(data: &[u8], i: usize, j: usize) -> (same: bool)
    requires
        i + 4 <= data@.len(),
        j + 4 <= data@.len(),
    ensures
        same == same_window(data@, i as int, j as int),
{
    data[i] == data[j] && data[i + 1] == data[j + 1] && data[i + 2] == data[j + 2] && data[i + 3] == data[j + 3]
}

/// Whether more than one four-byte window in 64 recurs later in `data`, looking
/// at later positions in steps of four.
pub fn has_repeating_patterns(data: &[u8]) -> (found: bool)
    ensures
        found == has_repeating_patterns_spec(data@),
{
    let n: usize = data.len();
    if n < 8 {
        return false;
    }
    let mut pattern_count: usize = 0;
    let mut i: usize = 0;
    while i < n - 8
        invariant
            n == data@.len(),
            n >= 8,
            i <= n - 8,
            pattern_count <= i,
            pattern_count == recurring_in(data@, i as int),
        decreases n - i,
    {
        let mut j: usize = i + 4;
        let mut hit: bool = false;
        while j < n - 4 && !hit
            invariant
                n == data@.len(),
                i < n - 8,
                i + 4 <= j,
                j <= n,
                recurs_from(data@, i as int, i + 4) == (hit || recurs_from(data@, i as int, j as int)),
            decreases n - j + if hit { 0int } else { 1int },
        {
            if windows_equal(data, i, j) {
                hit = true;
            } else {
                j += 4;
            }
        }
        if hit {
            pattern_count += 1;
        }
        i += 1;
    }
    pattern_count > n / 64
}

/// Selects the transforms to try on `data`.
///
/// Run-length coding is selected for more than 30% zero bytes or more than one
/// zero run per 20 bytes; delta coding where `entropy` says that the delta
/// sequence has under 80% of the chunk's entropy. In `Max` mode delta coding is
/// also selected where more than a third of the neighbours differ by at most 2,
/// and the dictionary where four-byte windows recur. An empty chunk selects nothing.
pub fn analyze_chunk(data: &[u8], mode: HlcMode, entropy: EntropyEstimate) -> (strategy: CompressionStrategy)
    ensures
        (strategy.use_rle, strategy.use_delta, strategy.use_dictionary) == strategy_spec(data@, mode, entropy),
        strategy.original_data@ == data@,
{
    let n: usize = data.len();
    if n == 0 {
        return CompressionStrategy {
            use_rle: false,
            use_delta: false,
            use_dictionary: false,
            original_data: slice_to_vec(data),
        };
    }
    let zero_runs: usize = count_zero_runs(data);
    let zero_count: usize = count_zeros(data);
    let use_rle: bool = 10 * (zero_count as u128) > 3 * (n as u128) || zero_runs > n / 20;
    let mut use_delta: bool = 10 * (entropy.delta as u64) < 8 * (entropy.original as u64);
    let mut use_dictionary: bool = false;
    if mode == HlcMode::Max {
        if !use_delta && has_sequential_patterns(data) {
            use_delta = true;
        }
        if has_repeating_patterns(data) {
            use_dictionary = true;
        }
    }
    CompressionStrategy { use_rle, use_delta, use_dictionary, original_data: slice_to_vec(data) }
}

} // verus!
