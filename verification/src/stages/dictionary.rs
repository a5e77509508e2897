//! Dictionary coding in the manner of LZ77, as a transform object.
//!
//! A repeat of earlier bytes is written as `0xFF low high length`, where
//! `low high` is the 16-bit distance back to the earlier bytes. The byte `0xFF`
//! itself is written as `0xFF 0x00 0x00 0x01`, any other byte as it is.

use vstd::prelude::*;
use crate::error::HlcError;
use crate::stages::Transform;

verus! {

/// The farthest distance that a repeat can name.
pub const FARTHEST: usize = 65535;

/// The longest repeat that one token can name.
pub const LONGEST: usize = 255;

/// The number of bytes from `k` on that agree at `from + ..` and `pos + ..`,
/// where the earlier bytes end before `pos` and at most `max` bytes count.
pub open spec fn common_from(data: Seq<u8>, from: int, pos: int, max: int, k: int) -> int
    decreases max - k,
{
    if k < max && pos + k < data.len() && from + k < pos && data[from + k] == data[pos + k] {
        common_from(data, from, pos, max, k + 1)
    } else {
        k
    }
}

/// The longest repeat at `pos` among the earlier positions from `from` on, as
/// `(length, distance)`, given the best one found before `from`. Of repeats of
/// equal length the farthest wins.
pub open spec fn best_from(data: Seq<u8>, pos: int, max: int, from: int, best: (int, int)) -> (int, int)
    decreases pos - from,
{
    if from >= pos {
        best
    } else {
        let length = common_from(data, from, pos, max, 0);
        if length > best.0 {
            best_from(data, pos, max, from + 1, (length, pos - from))
        } else {
            best_from(data, pos, max, from + 1, best)
        }
    }
}

/// The window that is searched: at most `FARTHEST` bytes back.
pub open spec fn window_of(window_size: usize) -> int {
    if window_size <= FARTHEST { window_size as int } else { FARTHEST as int }
}

/// The longest repeat that is looked for at `pos`.
pub open spec fn longest_at(data: Seq<u8>, pos: int, max_match_length: usize) -> int {
    let left = data.len() - pos;
    let most = if max_match_length <= LONGEST { max_match_length as int } else { LONGEST as int };
    if left <= most { left } else { most }
}

/// The longest repeat at `pos` within the window, as `(length, distance)`;
/// `(0, 0)` where there is none.
pub open spec fn longest_match(data: Seq<u8>, pos: int, window_size: usize, max_match_length: usize) -> (int, int) {
    let start = if pos >= window_of(window_size) { pos - window_of(window_size) } else { 0 };
    best_from(data, pos, longest_at(data, pos, max_match_length), start, (0, 0))
}

/// Whether a repeat is no longer than `max`, lies wholly before `pos`, at a
/// distance of at least 1 and at most `reach`, and agrees with the bytes at `pos`.
pub open spec fn is_repeat(data: Seq<u8>, pos: int, max: int, reach: int, found: (int, int)) -> bool {
    let (length, distance) = found;
    &&& 0 <= length <= max
    &&& length > 0 ==> {
        &&& 1 <= distance <= reach
        &&& distance <= pos
        &&& length <= distance
        &&& pos + length <= data.len()
        &&& forall|k: int| 0 <= k < length ==> data[pos - distance + k] == #[trigger] data[pos + k]
    }
}

/// The bytes that `common_from` counts agree.
pub proof fn lemma_common(data: Seq<u8>, from: int, pos: int, max: int, k: int)
    requires
        0 <= from,
        0 <= k <= max,
        from + k <= pos,
        pos + k <= data.len(),
        forall|j: int| 0 <= j < k ==> data[from + j] == #[trigger] data[pos + j],
    ensures
        k <= common_from(data, from, pos, max, k) <= max,
        from + common_from(data, from, pos, max, k) <= pos,
        pos + common_from(data, from, pos, max, k) <= data.len(),
        forall|j: int|
            0 <= j < common_from(data, from, pos, max, k) ==> data[from + j] == #[trigger] data[pos + j],
    decreases max - k,
{
    if k < max && pos + k < data.len() && from + k < pos && data[from + k] == data[pos + k] {
        lemma_common(data, from, pos, max, k + 1);
    }
}

/// The best repeat found is a repeat.
pub proof fn lemma_best(data: Seq<u8>, pos: int, max: int, reach: int, from: int, best: (int, int))
    requires
        0 <= from,
        0 <= max,
        pos <= data.len(),
        pos - from <= reach,
        is_repeat(data, pos, max, reach, best),
    ensures
        is_repeat(data, pos, max, reach, best_from(data, pos, max, from, best)),
    decreases pos - from,
{
    if from < pos {
        lemma_common(data, from, pos, max, 0);
        let length = common_from(data, from, pos, max, 0);
        if length > best.0 {
            let found = (length, pos - from);
            assert forall|k: int| 0 <= k < length implies data[pos - (pos - from) + k] == #[trigger] data[pos
                + k] by {
                assert(data[from + k] == data[pos + k]);
            }
            lemma_best(data, pos, max, reach, from + 1, found);
        } else {
            lemma_best(data, pos, max, reach, from + 1, best);
        }
    }
}

/// The longest match is a repeat of at most `LONGEST` bytes at a distance of at
/// most `FARTHEST`.
pub proof fn lemma_longest_match(data: Seq<u8>, pos: int, window_size: usize, max_match_length: usize)
    requires
        0 <= pos <= data.len(),
    ensures
        is_repeat(
            data,
            pos,
            LONGEST as int,
            FARTHEST as int,
            longest_match(data, pos, window_size, max_match_length),
        ),
{
    let start = if pos >= window_of(window_size) { pos - window_of(window_size) } else { 0 };
    let max = longest_at(data, pos, max_match_length);
    lemma_best(data, pos, max, FARTHEST as int, start, (0, 0));
}

/// The shortest repeat that is written as a repeat: `min_match_length`, and at least 1.
pub open spec fn shortest_of(min_match_length: usize) -> int {
    if min_match_length >= 1 { min_match_length as int } else { 1 }
}

/// The coding of the bytes of `data` from `pos` on.
pub open spec fn dictionary_encoding_from(
    data: Seq<u8>,
    pos: int,
    window_size: usize,
    min_match_length: usize,
    max_match_length: usize,
) -> Seq<u8>
    decreases data.len() - pos,
{
    if pos >= data.len() || pos < 0 {
        Seq::<u8>::empty()
    } else {
        let (length, distance) = longest_match(data, pos, window_size, max_match_length);
        if length >= shortest_of(min_match_length) && pos + length <= data.len() {
            seq![0xFFu8, (distance % 256) as u8, (distance / 256) as u8, length as u8] + dictionary_encoding_from(
                data,
                pos + length,
                window_size,
                min_match_length,
                max_match_length,
            )
        } else if data[pos] == 0xFF {
            seq![0xFFu8, 0u8, 0u8, 1u8] + dictionary_encoding_from(
                data,
                pos + 1,
                window_size,
                min_match_length,
                max_match_length,
            )
        } else {
            seq![data[pos]] + dictionary_encoding_from(data, pos + 1, window_size, min_match_length, max_match_length)
        }
    }
}

/// `out` with `length` more bytes, each a copy of the byte `start` positions
/// into the growing output; copying stops where `start` runs off the end.
pub open spec fn copied(out: Seq<u8>, start: int, length: int) -> Seq<u8>
    decreases length,
{
    if length <= 0 || start < 0 || start >= out.len() {
        out
    } else {
        copied(out.push(out[start]), start + 1, length - 1)
    }
}

/// The decoding of `s` behind the output `out`.
pub open spec fn dictionary_decoding_from(s: Seq<u8>, out: Seq<u8>) -> Seq<u8>
    decreases s.len(),
{
    if s.len() == 0 {
        out
    } else if s[0] == 0xFF && s.len() >= 4 {
        let distance = s[1] as int + 256 * (s[2] as int);
        let length = s[3] as int;
        if distance == 0 && length == 1 {
            dictionary_decoding_from(s.skip(4), out.push(0xFFu8))
        } else {
            let start = if out.len() >= distance { out.len() - distance } else { 0 };
            dictionary_decoding_from(s.skip(4), copied(out, start, length))
        }
    } else {
        dictionary_decoding_from(s.skip(1), out.push(s[0]))
    }
}

/// Copying a repeat extends the output by the repeated bytes.
pub proof fn lemma_copied(data: Seq<u8>, pos: int, distance: int, length: int, done: int)
    requires
        0 <= done <= length,
        1 <= distance <= pos,
        pos + length <= data.len(),
        forall|k: int| 0 <= k < length ==> data[pos - distance + k] == #[trigger] data[pos + k],
    ensures
        copied(data.take(pos + done), pos - distance + done, length - done) == data.take(pos + length),
    decreases length - done,
{
    if done < length {
        let out = data.take(pos + done);
        assert(out[pos - distance + done] == data[pos - distance + done]);
        assert(data[pos - distance + done] == data[pos + done]);
        assert(out.push(out[pos - distance + done]) =~= data.take(pos + done + 1));
        lemma_copied(data, pos, distance, length, done + 1);
    }
}

/// Decoding what was coded from `pos` on, behind the bytes before `pos`, gives `data`.
pub proof fn lemma_dictionary_roundtrip_from(
    data: Seq<u8>,
    pos: int,
    window_size: usize,
    min_match_length: usize,
    max_match_length: usize,
)
    requires
        0 <= pos <= data.len(),
    ensures
        dictionary_decoding_from(
            dictionary_encoding_from(data, pos, window_size, min_match_length, max_match_length),
            data.take(pos),
        ) == data,
    decreases data.len() - pos,
{
    if pos >= data.len() {
        assert(data.take(pos) =~= data);
    } else {
        lemma_longest_match(data, pos, window_size, max_match_length);
        let (length, distance) = longest_match(data, pos, window_size, max_match_length);
        if length >= shortest_of(min_match_length) {
            let rest = dictionary_encoding_from(
                data,
                pos + length,
                window_size,
                min_match_length,
                max_match_length,
            );
            let e = seq![0xFFu8, (distance % 256) as u8, (distance / 256) as u8, length as u8] + rest;
            assert(e.skip(4) =~= rest);
            assert(e[1] as int + 256 * (e[2] as int) == distance);
            assert(e[3] as int == length);
            lemma_copied(data, pos, distance, length, 0);
            lemma_dictionary_roundtrip_from(data, pos + length, window_size, min_match_length, max_match_length);
        } else if data[pos] == 0xFF {
            let rest = dictionary_encoding_from(data, pos + 1, window_size, min_match_length, max_match_length);
            let e = seq![0xFFu8, 0u8, 0u8, 1u8] + rest;
            assert(e.skip(4) =~= rest);
            assert(data.take(pos).push(0xFFu8) =~= data.take(pos + 1));
            lemma_dictionary_roundtrip_from(data, pos + 1, window_size, min_match_length, max_match_length);
        } else {
            let rest = dictionary_encoding_from(data, pos + 1, window_size, min_match_length, max_match_length);
            let e = seq![data[pos]] + rest;
            assert(e.skip(1) =~= rest);
            assert(data.take(pos).push(data[pos]) =~= data.take(pos + 1));
            lemma_dictionary_roundtrip_from(data, pos + 1, window_size, min_match_length, max_match_length);
        }
    }
}

/// The dictionary transform.
pub struct DictionaryTransform {
    window_size: usize,
    min_match_length: usize,
    max_match_length: usize,
}

impl DictionaryTransform {
    /// `(window_size, min_match_length, max_match_length)`.
    pub closed spec fn params(self) -> (usize, usize, usize) {
        (self.window_size, self.min_match_length, self.max_match_length)
    }

    /// A window of 32 KiB and repeats of 3 to 258 bytes.
    pub fn new() -> (transform: Self)
        ensures
            transform.params() == (32768usize, 3usize, 258usize),
    {
        DictionaryTransform { window_size: 32 * 1024, min_match_length: 3, max_match_length: 258 }
    }

    /// The given window and repeat lengths. Whatever they are, a repeat is at
    /// least 1 and at most 255 bytes long and at most 65535 bytes back.
    pub fn with_params(window_size: usize, min_match_length: usize, max_match_length: usize) -> (transform: Self)
        ensures
            transform.params() == (window_size, min_match_length, max_match_length),
    {
        DictionaryTransform { window_size, min_match_length, max_match_length }
    }

    /// The coding of `data` under this transform.
    pub open spec fn encoding_spec(self, data: Seq<u8>) -> Seq<u8> {
        dictionary_encoding_from(data, 0, self.params().0, self.params().1, self.params().2)
    }

    /// Finds the longest repeat of earlier bytes at `pos`, as `(length,
    /// distance)`, or `(0, 0)` where there is none.
    pub fn find_longest_match(&self, data: &[u8], pos: usize) -> (found: (usize, usize))
        requires
            pos <= data@.len(),
        ensures
            (found.0 as int, found.1 as int) == longest_match(
                data@,
                pos as int,
                self.params().0,
                self.params().2,
            ),
            found.0 <= LONGEST,
            found.1 <= FARTHEST,
            pos + found.0 <= data@.len(),
    {
        let n: usize = data.len();
        let window: usize = if self.window_size <= FARTHEST { self.window_size } else { FARTHEST };
        let most: usize = if self.max_match_length <= LONGEST { self.max_match_length } else { LONGEST };
        let max_length: usize = if n - pos <= most { n - pos } else { most };
        let search_start: usize = if pos >= window { pos - window } else { 0 };
        let mut best_length: usize = 0;
        let mut best_distance: usize = 0;
        let mut search_pos: usize = search_start;
        proof {
            lemma_longest_match(data@, pos as int, self.window_size, self.max_match_length);
        }
        while search_pos < pos
            invariant
                n == data@.len(),
                pos <= n,
                search_start <= search_pos <= pos,
                pos - search_start <= FARTHEST,
                max_length == longest_at(data@, pos as int, self.max_match_length),
                best_length <= max_length,
                best_distance <= pos - search_start,
                best_from(
                    data@,
                    pos as int,
                    max_length as int,
                    search_pos as int,
                    (best_length as int, best_distance as int),
                ) == longest_match(data@, pos as int, self.window_size, self.max_match_length),
            decreases pos - search_pos,
        {
            let mut match_length: usize = 0;
            while match_length < max_length && pos + match_length < n && search_pos + match_length < pos && data[search_pos
                + match_length] == data[pos + match_length]
                invariant
                    n == data@.len(),
                    pos <= n,
                    search_pos < pos,
                    match_length <= max_length,
                    max_length <= n - pos,
                    common_from(data@, search_pos as int, pos as int, max_length as int, match_length as int)
                        == common_from(data@, search_pos as int, pos as int, max_length as int, 0),
                decreases max_length - match_length,
            {
                match_length += 1;
            }
            if match_length > best_length {
                best_length = match_length;
                best_distance = pos - search_pos;
            }
            search_pos += 1;
        }
        (best_length, best_distance)
    }
}

impl Transform for DictionaryTransform {
    open spec fn encoding(&self, data: Seq<u8>) -> Option<Seq<u8>> {
        Some(self.encoding_spec(data))
    }

    open spec fn decoding(&self, data: Seq<u8>) -> Option<Seq<u8>> {
        Some(dictionary_decoding_from(data, Seq::<u8>::empty()))
    }

    open spec fn id_spec(&self) -> u8 {
        4
    }

    fn encode(&self, data: &[u8]) -> (result: Result<Vec<u8>, HlcError>)
        ensures
            result is Ok,
            result->Ok_0@ == self.encoding_spec(data@),
    {
        let n: usize = data.len();
        let shortest: usize = if self.min_match_length >= 1 { self.min_match_length } else { 1 };
        let mut result: Vec<u8> = Vec::new();
        let mut i: usize = 0;
        let ghost whole = self.encoding_spec(data@);
        proof {
            assert(result@ + whole =~= whole);
            lemma_dictionary_roundtrip_from(
                data@,
                0,
                self.window_size,
                self.min_match_length,
                self.max_match_length,
            );
            assert(data@.take(0) =~= Seq::<u8>::empty());
        }
        while i < n
            invariant
                n == data@.len(),
                i <= n,
                shortest == shortest_of(self.min_match_length),
                whole == self.encoding_spec(data@),
                result@ + dictionary_encoding_from(
                    data@,
                    i as int,
                    self.window_size,
                    self.min_match_length,
                    self.max_match_length,
                ) == whole,
            decreases n - i,
        {
            let ghost before = result@;
            let (match_length, match_distance) = self.find_longest_match(data, i);
            if match_length >= shortest {
                result.push(0xFF);
                result.push((match_distance % 256) as u8);
                result.push((match_distance / 256) as u8);
                result.push(match_length as u8);
                proof {
                    let rest = dictionary_encoding_from(
                        data@,
                        i + match_length,
                        self.window_size,
                        self.min_match_length,
                        self.max_match_length,
                    );
                    assert(result@ + rest =~= before + (seq![
                        0xFFu8,
                        (match_distance % 256) as u8,
                        (match_distance / 256) as u8,
                        match_length as u8,
                    ] + rest));
                }
                i += match_length;
            } else {
                proof {
                    let rest = dictionary_encoding_from(
                        data@,
                        i + 1,
                        self.window_size,
                        self.min_match_length,
                        self.max_match_length,
                    );
                    if data@[i as int] == 0xFF {
                        assert(before.push(0xFFu8).push(0u8).push(0u8).push(1u8) + rest =~= before + (seq![
                            0xFFu8,
                            0u8,
                            0u8,
                            1u8,
                        ] + rest));
                    } else {
                        assert(before.push(data@[i as int]) + rest =~= before + (seq![data@[i as int]] + rest));
                    }
                }
                if data[i] == 0xFF {
                    result.push(0xFF);
                    result.push(0x00);
                    result.push(0x00);
                    result.push(0x01);
                } else {
                    result.push(data[i]);
                }
                i += 1;
            }
        }
        proof {
            assert(result@ + Seq::<u8>::empty() =~= result@);
        }
        Ok(result)
    }

    fn decode(&self, data: &[u8]) -> (result: Result<Vec<u8>, HlcError>)
        ensures
            result is Ok,
            result->Ok_0@ == dictionary_decoding_from(data@, Seq::<u8>::empty()),
    {
        let n: usize = data.len();
        let mut result: Vec<u8> = Vec::new();
        let mut i: usize = 0;
        let ghost whole = dictionary_decoding_from(data@, Seq::<u8>::empty());
        proof {
            assert(data@.skip(0) =~= data@);
        }
        while i < n
            invariant
                n == data@.len(),
                i <= n,
                dictionary_decoding_from(data@.skip(i as int), result@) == whole,
            decreases n - i,
        {
            let ghost rest = data@.skip(i as int);
            proof {
                assert(rest[0] == data@[i as int]);
            }
            if data[i] == 0xFF && n - i >= 4 {
                let distance: usize = data[i + 1] as usize + 256 * (data[i + 2] as usize);
                let length: usize = data[i + 3] as usize;
                proof {
                    assert(rest[1] == data@[i + 1]);
                    assert(rest[2] == data@[i + 2]);
                    assert(rest[3] == data@[i + 3]);
                    assert(rest.skip(4) =~= data@.skip(i + 4));
                }
                if distance == 0 && length == 1 {
                    result.push(0xFF);
                } else {
                    let start_pos: usize = if result.len() >= distance { result.len() - distance } else { 0 };
                    let ghost target = copied(result@, start_pos as int, length as int);
                    let mut j: usize = 0;
                    while j < length
                        invariant
                            j <= length,
                            length <= 255,
                            start_pos <= result@.len(),
                            copied(result@, start_pos + j, length - j) == target,
                        decreases length - j,
                    {
                        if j < result.len() - start_pos {
                            let byte: u8 = result[start_pos + j];
                            result.push(byte);
                        }
                        j += 1;
                    }
                }
                i += 4;
            } else {
                result.push(data[i]);
                proof {
                    assert(rest.skip(1) =~= data@.skip(i + 1));
                }
                i += 1;
            }
        }
        Ok(result)
    }

    fn id(&self) -> (id: u8) {
        4
    }

}

/// The dictionary transform with the distances and lengths of LZ4: up to 65535
/// bytes back, repeats of at least 4 bytes.
pub struct LZ4DictionaryTransform {
    max_distance: usize,
    max_length: usize,
}

impl LZ4DictionaryTransform {
    /// `(max_distance, max_length)`.
    pub closed spec fn params(self) -> (usize, usize) {
        (self.max_distance, self.max_length)
    }

    /// Distances and lengths of up to 65535.
    pub fn new() -> (transform: Self)
        ensures
            transform.params() == (65535usize, 65535usize),
    {
        LZ4DictionaryTransform { max_distance: 65535, max_length: 65535 }
    }

    /// The dictionary transform that does the work.
    fn standard(&self) -> (transform: DictionaryTransform)
        ensures
            transform.params() == (
                self.max_distance,
                4usize,
                if self.max_length <= 258 { self.max_length } else { 258usize },
            ),
    {
        DictionaryTransform::with_params(
            self.max_distance,
            4,
            if self.max_length <= 258 { self.max_length } else { 258 },
        )
    }
}

impl Transform for LZ4DictionaryTransform {
    open spec fn encoding(&self, data: Seq<u8>) -> Option<Seq<u8>> {
        Some(
            dictionary_encoding_from(
                data,
                0,
                self.params().0,
                4,
                if self.params().1 <= 258 { self.params().1 } else { 258usize },
            ),
        )
    }

    open spec fn decoding(&self, data: Seq<u8>) -> Option<Seq<u8>> {
        Some(dictionary_decoding_from(data, Seq::<u8>::empty()))
    }

    open spec fn id_spec(&self) -> u8 {
        5
    }

    fn encode(&self, data: &[u8]) -> (result: Result<Vec<u8>, HlcError>)
        ensures
            result is Ok,
    {
        self.standard().encode(data)
    }

    fn decode(&self, data: &[u8]) -> (result: Result<Vec<u8>, HlcError>)
        ensures
            result is Ok,
            result->Ok_0@ == dictionary_decoding_from(data@, Seq::<u8>::empty()),
    {
        self.standard().decode(data)
    }

    fn id(&self) -> (id: u8) {
        5
    }

}

} // verus!
