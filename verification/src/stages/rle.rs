//! Run-length coding of repeated bytes, as transform objects.
//!
//! `RLETransform` writes a run as the three bytes `0x00 byte count`, a single
//! zero byte as `0x00 0x00 0x01`, and any other single byte as it is.
//! `OptimizedRLETransform` writes a run as the four bytes `0xFF byte low high`
//! with a 16-bit count, and short runs as they are.

use vstd::prelude::*;
use crate::error::HlcError;
use crate::stages::Transform;

verus! {

/// The number of leading bytes of `s` equal to `byte`, capped at `cap`.
pub open spec fn leading(s: Seq<u8>, byte: u8, cap: nat) -> nat
    decreases cap,
{
    if cap == 0 || s.len() == 0 || s[0] != byte {
        0
    } else {
        1 + leading(s.skip(1), byte, (cap - 1) as nat)
    }
}

/// `n` copies of `byte`.
pub open spec fn repeat(byte: u8, n: nat) -> Seq<u8> {
    Seq::new(n, |i: int| byte)
}

/// The length of the run at the start of a non-empty `s`, capped at `max` and
/// at least 1.
pub open spec fn run_length(s: Seq<u8>, max: nat) -> nat {
    1 + leading(s.skip(1), s[0], if max >= 1 { (max - 1) as nat } else { 0 })
}

/// The bytes that `leading` counts lie inside `s` and are equal to `byte`.
pub proof fn lemma_leading(s: Seq<u8>, byte: u8, cap: nat)
    ensures
        leading(s, byte, cap) <= cap,
        leading(s, byte, cap) <= s.len(),
        forall|i: int| 0 <= i < leading(s, byte, cap) ==> s[i] == byte,
    decreases cap,
{
    if cap == 0 || s.len() == 0 || s[0] != byte {
    } else {
        let t = s.skip(1);
        lemma_leading(t, byte, (cap - 1) as nat);
        assert forall|i: int| 0 <= i < leading(s, byte, cap) implies s[i] == byte by {
            if i > 0 {
                assert(t[i - 1] == s[i]);
            }
        }
    }
}

/// A run at the start of `s` is `run_length` copies of its first byte.
pub proof fn lemma_run(s: Seq<u8>, max: nat)
    requires
        s.len() > 0,
    ensures
        1 <= run_length(s, max) <= s.len(),
        run_length(s, max) <= if max >= 1 { max } else { 1 },
        s.take(run_length(s, max) as int) == repeat(s[0], run_length(s, max)),
{
    let cap: nat = if max >= 1 { (max - 1) as nat } else { 0 };
    lemma_leading(s.skip(1), s[0], cap);
    let n = run_length(s, max);
    assert forall|i: int| 0 <= i < n implies #[trigger] s[i] == s[0] by {
        if i > 0 {
            assert(s.skip(1)[i - 1] == s[i]);
        }
    }
    assert(s.take(n as int) =~= repeat(s[0], n));
}

/// Counts the run at `at`: the bytes from `at` on that are equal to the one at
/// `at`, at most `max` of them and at least 1.
fn measure_run(data: &[u8], at: usize, max: usize) -> (length: usize)
    requires
        at < data@.len(),
    ensures
        length == run_length(data@.skip(at as int), max as nat),
        at + length <= data@.len(),
{
    let current: u8 = data[at];
    let ghost rest = data@.skip(at as int);
    let ghost cap: nat = if max >= 1 { (max - 1) as nat } else { 0 };
    let mut length: usize = 1;
    let n: usize = data.len();
    proof {
        assert(rest[0] == current);
        assert(rest.skip(1).skip(0) =~= rest.skip(1));
    }
    while at + length < n && data[at + length] == current && length < max
        invariant
            n == data@.len(),
            at < data@.len(),
            1 <= length,
            at + length <= data@.len(),
            rest == data@.skip(at as int),
            cap == (if max >= 1 { (max - 1) as nat } else { 0 }),
            length - 1 <= cap,
            leading(rest.skip(1), current, cap) == (length - 1) + leading(
                rest.skip(1).skip(length - 1),
                current,
                (cap - (length - 1)) as nat,
            ),
        decreases data@.len() - at - length,
    {
        proof {
            let t = rest.skip(1).skip(length - 1);
            assert(t[0] == data@[at + length]);
            assert(t.skip(1) =~= rest.skip(1).skip(length as int));
        }
        length += 1;
    }
    proof {
        let t = rest.skip(1).skip(length - 1);
        if at + length < data@.len() && length - 1 < cap {
            assert(t[0] == data@[at + length]);
        }
        assert(leading(t, current, (cap - (length - 1)) as nat) == 0);
    }
    length
}

/// The run-length coding of `s` with runs of at most `max` bytes.
pub open spec fn rle_encoding(s: Seq<u8>, max: u8) -> Seq<u8>
    decreases s.len(),
{
    if s.len() == 0 {
        Seq::<u8>::empty()
    } else {
        let n = run_length(s, max as nat);
        if n > s.len() {
            Seq::<u8>::empty()
        } else if n > 1 {
            seq![0u8, s[0], n as u8] + rle_encoding(s.skip(n as int), max)
        } else if s[0] == 0 {
            seq![0u8, 0u8, 1u8] + rle_encoding(s.skip(1), max)
        } else {
            seq![s[0]] + rle_encoding(s.skip(1), max)
        }
    }
}

/// The inverse of `rle_encoding`: a zero byte with two bytes behind it stands
/// for a run, any other byte for itself.
pub open spec fn rle_decoding(s: Seq<u8>) -> Seq<u8>
    decreases s.len(),
{
    if s.len() == 0 {
        Seq::<u8>::empty()
    } else if s[0] == 0 && s.len() >= 3 {
        repeat(s[1], s[2] as nat) + rle_decoding(s.skip(3))
    } else {
        seq![s[0]] + rle_decoding(s.skip(1))
    }
}

/// Decoding inverts encoding, whatever the longest run.
pub proof fn lemma_rle_transform_roundtrip(s: Seq<u8>, max: u8)
    ensures
        rle_decoding(rle_encoding(s, max)) == s,
    decreases s.len(),
{
    if s.len() == 0 {
    } else {
        lemma_run(s, max as nat);
        let n = run_length(s, max as nat);
        if n > 1 {
            let rest = rle_encoding(s.skip(n as int), max);
            let e = seq![0u8, s[0], n as u8] + rest;
            lemma_rle_transform_roundtrip(s.skip(n as int), max);
            assert(e.skip(3) =~= rest);
            assert(s.take(n as int) + s.skip(n as int) =~= s);
        } else if s[0] == 0 {
            let rest = rle_encoding(s.skip(1), max);
            let e = seq![0u8, 0u8, 1u8] + rest;
            lemma_rle_transform_roundtrip(s.skip(1), max);
            assert(e.skip(3) =~= rest);
            assert(repeat(0u8, 1) + s.skip(1) =~= s);
        } else {
            let rest = rle_encoding(s.skip(1), max);
            let e = seq![s[0]] + rest;
            lemma_rle_transform_roundtrip(s.skip(1), max);
            assert(e.skip(1) =~= rest);
            assert(seq![s[0]] + s.skip(1) =~= s);
        }
    }
}

/// Appends `count` copies of `byte` to `out`.
fn push_repeated(out: &mut Vec<u8>, byte: u8, count: usize)
    ensures
        final(out)@ == old(out)@ + repeat(byte, count as nat),
{
    let ghost start = out@;
    let mut j: usize = 0;
    assert(out@ =~= start + repeat(byte, 0));
    while j < count
        invariant
            j <= count,
            out@ == start + repeat(byte, j as nat),
        decreases count - j,
    {
        out.push(byte);
        j += 1;
        assert(out@ =~= start + repeat(byte, j as nat));
    }
}

/// The run-length transform.
pub struct RLETransform {
    max_run_length: u8,
}

impl RLETransform {
    /// The longest run that is written as one run.
    pub closed spec fn max_run(self) -> u8 {
        self.max_run_length
    }

    /// Runs of up to 255 bytes.
    pub fn new() -> (transform: Self)
        ensures
            transform.max_run() == 255,
    {
        RLETransform { max_run_length: 255 }
    }

    /// Runs of up to `max_run_length` bytes; under 2, no run is written.
    pub fn with_max_run_length(max_run_length: u8) -> (transform: Self)
        ensures
            transform.max_run() == max_run_length,
    {
        RLETransform { max_run_length }
    }
}

impl Transform for RLETransform {
    open spec fn encoding(&self, data: Seq<u8>) -> Option<Seq<u8>> {
        Some(rle_encoding(data, self.max_run()))
    }

    open spec fn decoding(&self, data: Seq<u8>) -> Option<Seq<u8>> {
        Some(rle_decoding(data))
    }

    open spec fn id_spec(&self) -> u8 {
        2
    }

    fn encode(&self, data: &[u8]) -> (result: Result<Vec<u8>, HlcError>)
        ensures
            result is Ok,
            result->Ok_0@ == rle_encoding(data@, self.max_run()),
    {
        let mut result: Vec<u8> = Vec::new();
        let mut i: usize = 0;
        let max: u8 = self.max_run_length;
        proof {
            lemma_rle_transform_roundtrip(data@, max);
            assert(data@.skip(0) =~= data@);
            assert(result@ + rle_encoding(data@, max) =~= rle_encoding(data@, max));
        }
        while i < data.len()
            invariant
                i <= data.len(),
                max == self.max_run_length,
                result@ + rle_encoding(data@.skip(i as int), max) == rle_encoding(data@, max),
            decreases data.len() - i,
        {
            let ghost rest = data@.skip(i as int);
            let ghost before = result@;
            let current_byte: u8 = data[i];
            let length: usize = measure_run(data, i, max as usize);
            proof {
                lemma_run(rest, max as nat);
                assert(rest[0] == current_byte);
                assert(rest.skip(length as int) =~= data@.skip(i + length));
            }
            if length > 1 {
                result.push(0x00);
                result.push(current_byte);
                result.push(length as u8);
                assert(result@ + rle_encoding(data@.skip(i + length), max) =~= before + (seq![
                    0u8,
                    current_byte,
                    length as u8,
                ] + rle_encoding(rest.skip(length as int), max)));
            } else if current_byte == 0x00 {
                result.push(0x00);
                result.push(0x00);
                result.push(0x01);
                assert(result@ + rle_encoding(data@.skip(i + length), max) =~= before + (seq![0u8, 0u8, 1u8]
                    + rle_encoding(rest.skip(1), max)));
            } else {
                result.push(current_byte);
                assert(result@ + rle_encoding(data@.skip(i + length), max) =~= before + (seq![current_byte]
                    + rle_encoding(rest.skip(1), max)));
            }
            i += length;
        }
        proof {
            assert(data@.skip(i as int).len() == 0);
            assert(result@ + Seq::<u8>::empty() =~= result@);
        }
        Ok(result)
    }

    fn decode(&self, data: &[u8]) -> (result: Result<Vec<u8>, HlcError>)
        ensures
            result is Ok,
            result->Ok_0@ == rle_decoding(data@),
    {
        let mut result: Vec<u8> = Vec::new();
        let mut i: usize = 0;
        proof {
            assert(data@.skip(0) =~= data@);
            assert(result@ + rle_decoding(data@) =~= rle_decoding(data@));
        }
        while i < data.len()
            invariant
                i <= data.len(),
                result@ + rle_decoding(data@.skip(i as int)) == rle_decoding(data@),
            decreases data.len() - i,
        {
            let ghost rest = data@.skip(i as int);
            let ghost before = result@;
            proof {
                assert(rest[0] == data@[i as int]);
            }
            if data[i] == 0x00 && data.len() - i >= 3 {
                let byte: u8 = data[i + 1];
                let count: usize = data[i + 2] as usize;
                proof {
                    assert(rest[1] == byte);
                    assert(rest[2] == data@[i + 2]);
                    assert(rest.skip(3) =~= data@.skip(i + 3));
                }
                if byte == 0x00 && count == 1 {
                    result.push(0x00);
                    assert(result@ =~= before + repeat(0u8, 1));
                } else {
                    push_repeated(&mut result, byte, count);
                }
                assert(result@ + rle_decoding(data@.skip(i + 3)) =~= before + (repeat(rest[1], rest[2] as nat)
                    + rle_decoding(rest.skip(3))));
                i += 3;
            } else {
                result.push(data[i]);
                proof {
                    assert(rest.skip(1) =~= data@.skip(i + 1));
                    assert(result@ + rle_decoding(data@.skip(i + 1)) =~= before + (seq![rest[0]] + rle_decoding(
                        rest.skip(1),
                    )));
                }
                i += 1;
            }
        }
        proof {
            assert(data@.skip(i as int).len() == 0);
            assert(result@ + Seq::<u8>::empty() =~= result@);
        }
        Ok(result)
    }

    fn id(&self) -> (id: u8) {
        2
    }

}

/// The longest run that `OptimizedRLETransform` writes as one run.
pub const LONGEST_RUN: usize = 65535;

/// The run-length coding of `s` that writes runs of at least `threshold` bytes,
/// and every run of the byte `0xFF`, as `0xFF byte low high`, and other runs as
/// they are. Runs longer than 65535 bytes are split.
pub open spec fn optimized_encoding(s: Seq<u8>, threshold: usize) -> Seq<u8>
    decreases s.len(),
{
    if s.len() == 0 {
        Seq::<u8>::empty()
    } else {
        let n = run_length(s, LONGEST_RUN as nat);
        if n > s.len() {
            Seq::<u8>::empty()
        } else if n >= threshold || s[0] == 0xFF {
            seq![0xFFu8, s[0], (n % 256) as u8, (n / 256) as u8] + optimized_encoding(s.skip(n as int), threshold)
        } else {
            s.take(n as int) + optimized_encoding(s.skip(n as int), threshold)
        }
    }
}

/// The inverse of `optimized_encoding`: the byte `0xFF` with three bytes behind
/// it stands for a run, any other byte for itself.
pub open spec fn optimized_decoding(s: Seq<u8>) -> Seq<u8>
    decreases s.len(),
{
    if s.len() == 0 {
        Seq::<u8>::empty()
    } else if s[0] == 0xFF && s.len() >= 4 {
        repeat(s[1], (s[2] as nat) + 256 * (s[3] as nat)) + optimized_decoding(s.skip(4))
    } else {
        seq![s[0]] + optimized_decoding(s.skip(1))
    }
}

/// Bytes other than `0xFF` decode to themselves.
pub proof fn lemma_optimized_literals(literals: Seq<u8>, rest: Seq<u8>)
    requires
        forall|i: int| 0 <= i < literals.len() ==> literals[i] != 0xFF,
    ensures
        optimized_decoding(literals + rest) == literals + optimized_decoding(rest),
    decreases literals.len(),
{
    let all = literals + rest;
    if literals.len() == 0 {
        assert(all =~= rest);
        assert(literals + optimized_decoding(rest) =~= optimized_decoding(rest));
    } else {
        let tail = literals.skip(1);
        assert(all[0] == literals[0]);
        assert(all.skip(1) =~= tail + rest);
        assert forall|i: int| 0 <= i < tail.len() implies tail[i] != 0xFF by {
            assert(tail[i] == literals[i + 1]);
        }
        lemma_optimized_literals(tail, rest);
        assert(seq![literals[0]] + (tail + optimized_decoding(rest)) =~= literals + optimized_decoding(rest));
    }
}

/// Decoding inverts encoding, whatever the threshold.
pub proof fn lemma_optimized_roundtrip(s: Seq<u8>, threshold: usize)
    ensures
        optimized_decoding(optimized_encoding(s, threshold)) == s,
    decreases s.len(),
{
    if s.len() == 0 {
    } else {
        lemma_run(s, LONGEST_RUN as nat);
        let n = run_length(s, LONGEST_RUN as nat);
        let rest = optimized_encoding(s.skip(n as int), threshold);
        lemma_optimized_roundtrip(s.skip(n as int), threshold);
        assert(s.take(n as int) + s.skip(n as int) =~= s);
        if n >= threshold || s[0] == 0xFF {
            let e = seq![0xFFu8, s[0], (n % 256) as u8, (n / 256) as u8] + rest;
            assert(e.skip(4) =~= rest);
            assert((e[2] as nat) + 256 * (e[3] as nat) == n);
        } else {
            assert forall|i: int| 0 <= i < n implies s.take(n as int)[i] != 0xFF by {
                assert(s.take(n as int)[i] == repeat(s[0], n)[i]);
            }
            lemma_optimized_literals(s.take(n as int), rest);
        }
    }
}

/// Run-length coding with a threshold and 16-bit counts.
pub struct OptimizedRLETransform {
    threshold: usize,
}

impl OptimizedRLETransform {
    /// The shortest run that is written as a run.
    pub closed spec fn threshold(self) -> usize {
        self.threshold
    }

    /// Runs from 3 bytes on.
    pub fn new() -> (transform: Self)
        ensures
            transform.threshold() == 3,
    {
        OptimizedRLETransform { threshold: 3 }
    }

    /// Runs from `threshold` bytes on.
    pub fn with_threshold(threshold: usize) -> (transform: Self)
        ensures
            transform.threshold() == threshold,
    {
        OptimizedRLETransform { threshold }
    }
}

impl Transform for OptimizedRLETransform {
    open spec fn encoding(&self, data: Seq<u8>) -> Option<Seq<u8>> {
        Some(optimized_encoding(data, self.threshold()))
    }

    open spec fn decoding(&self, data: Seq<u8>) -> Option<Seq<u8>> {
        Some(optimized_decoding(data))
    }

    open spec fn id_spec(&self) -> u8 {
        3
    }

    fn encode(&self, data: &[u8]) -> (result: Result<Vec<u8>, HlcError>)
        ensures
            result is Ok,
            result->Ok_0@ == optimized_encoding(data@, self.threshold()),
    {
        let mut result: Vec<u8> = Vec::new();
        let mut i: usize = 0;
        let threshold: usize = self.threshold;
        proof {
            lemma_optimized_roundtrip(data@, threshold);
            assert(data@.skip(0) =~= data@);
            assert(result@ + optimized_encoding(data@, threshold) =~= optimized_encoding(data@, threshold));
        }
        while i < data.len()
            invariant
                i <= data.len(),
                threshold == self.threshold,
                result@ + optimized_encoding(data@.skip(i as int), threshold) == optimized_encoding(
                    data@,
                    threshold,
                ),
            decreases data.len() - i,
        {
            let ghost rest = data@.skip(i as int);
            let ghost before = result@;
            let current_byte: u8 = data[i];
            let length: usize = measure_run(data, i, LONGEST_RUN);
            proof {
                lemma_run(rest, LONGEST_RUN as nat);
                assert(rest[0] == current_byte);
                assert(rest.skip(length as int) =~= data@.skip(i + length));
            }
            if length >= threshold || current_byte == 0xFF {
                result.push(0xFF);
                result.push(current_byte);
                result.push((length % 256) as u8);
                result.push((length / 256) as u8);
                assert(result@ + optimized_encoding(data@.skip(i + length), threshold) =~= before + (seq![
                    0xFFu8,
                    current_byte,
                    (length % 256) as u8,
                    (length / 256) as u8,
                ] + optimized_encoding(rest.skip(length as int), threshold)));
            } else {
                push_repeated(&mut result, current_byte, length);
                assert(result@ + optimized_encoding(data@.skip(i + length), threshold) =~= before + (rest.take(
                    length as int,
                ) + optimized_encoding(rest.skip(length as int), threshold)));
            }
            i += length;
        }
        proof {
            assert(data@.skip(i as int).len() == 0);
            assert(result@ + Seq::<u8>::empty() =~= result@);
        }
        Ok(result)
    }

    fn decode(&self, data: &[u8]) -> (result: Result<Vec<u8>, HlcError>)
        ensures
            result is Ok,
            result->Ok_0@ == optimized_decoding(data@),
    {
        let mut result: Vec<u8> = Vec::new();
        let mut i: usize = 0;
        proof {
            assert(data@.skip(0) =~= data@);
            assert(result@ + optimized_decoding(data@) =~= optimized_decoding(data@));
        }
        while i < data.len()
            invariant
                i <= data.len(),
                result@ + optimized_decoding(data@.skip(i as int)) == optimized_decoding(data@),
            decreases data.len() - i,
        {
            let ghost rest = data@.skip(i as int);
            let ghost before = result@;
            proof {
                assert(rest[0] == data@[i as int]);
            }
            if data[i] == 0xFF && data.len() - i >= 4 {
                let byte: u8 = data[i + 1];
                let count: usize = data[i + 2] as usize + 256 * (data[i + 3] as usize);
                proof {
                    assert(rest[1] == byte);
                    assert(rest[2] == data@[i + 2]);
                    assert(rest[3] == data@[i + 3]);
                    assert(rest.skip(4) =~= data@.skip(i + 4));
                }
                push_repeated(&mut result, byte, count);
                assert(result@ + optimized_decoding(data@.skip(i + 4)) =~= before + (repeat(
                    rest[1],
                    (rest[2] as nat) + 256 * (rest[3] as nat),
                ) + optimized_decoding(rest.skip(4))));
                i += 4;
            } else {
                result.push(data[i]);
                proof {
                    assert(rest.skip(1) =~= data@.skip(i + 1));
                    assert(result@ + optimized_decoding(data@.skip(i + 1)) =~= before + (seq![rest[0]]
                        + optimized_decoding(rest.skip(1))));
                }
                i += 1;
            }
        }
        proof {
            assert(data@.skip(i as int).len() == 0);
            assert(result@ + Seq::<u8>::empty() =~= result@);
        }
        Ok(result)
    }

    fn id(&self) -> (id: u8) {
        3
    }

}

} // verus!
