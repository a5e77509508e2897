//! Delta coding: each byte (or little-endian word) is replaced by its difference
//! from the one before it, modulo the width. The first one is kept.

use vstd::prelude::*;
use crate::endian::{u16_at, u16_bytes, u32_at, u32_bytes, read_u16, read_u32, push_u16, push_u32};
use crate::endian::{lemma_u16_roundtrip, lemma_u32_roundtrip, lemma_u16_bytes_of_read, lemma_u32_bytes_of_read};

verus! {

/// `a - b` modulo 256.
pub open spec fn sub8(a: u8, b: u8) -> u8 {
    if a >= b { (a - b) as u8 } else { (a - b + 256) as u8 }
}

/// `a + b` modulo 256.
pub open spec fn add8(a: u8, b: u8) -> u8 {
    if a + b > 255 { (a + b - 256) as u8 } else { (a + b) as u8 }
}

/// `a - b` modulo 65536.
pub open spec fn sub16(a: u16, b: u16) -> u16 {
    if a >= b { (a - b) as u16 } else { (a - b + 65536) as u16 }
}

/// `a + b` modulo 65536.
pub open spec fn add16(a: u16, b: u16) -> u16 {
    if a + b > 65535 { (a + b - 65536) as u16 } else { (a + b) as u16 }
}

/// `a - b` modulo 2^32.
pub open spec fn sub32(a: u32, b: u32) -> u32 {
    if a >= b { (a - b) as u32 } else { (a - b + 4294967296) as u32 }
}

/// `a + b` modulo 2^32.
pub open spec fn add32(a: u32, b: u32) -> u32 {
    if a + b > 4294967295 { (a + b - 4294967296) as u32 } else { (a + b) as u32 }
}

/// Byte-wise delta coding of `s`.
pub open spec fn encode_spec(s: Seq<u8>) -> Seq<u8> {
    Seq::new(s.len(), |i: int| if i == 0 { s[0] } else { sub8(s[i], s[i - 1]) })
}

/// The inverse of byte-wise delta coding: running sums modulo 256.
pub open spec fn decode_spec(s: Seq<u8>) -> Seq<u8>
    decreases s.len(),
{
    if s.len() == 0 {
        Seq::<u8>::empty()
    } else if s.len() == 1 {
        seq![s[0]]
    } else {
        let p = decode_spec(s.drop_last());
        p.push(add8(s.last(), p.last()))
    }
}

/// Decoding keeps the length.
pub proof fn lemma_decode_len(s: Seq<u8>)
    ensures
        decode_spec(s).len() == s.len(),
    decreases s.len(),
{
    if s.len() >= 2 {
        lemma_decode_len(s.drop_last());
    }
}

/// Byte-wise decoding inverts byte-wise encoding.
pub proof fn lemma_delta_roundtrip(s: Seq<u8>)
    ensures
        decode_spec(encode_spec(s)) == s,
    decreases s.len(),
{
    let e = encode_spec(s);
    if s.len() == 0 {
    } else if s.len() == 1 {
        assert(decode_spec(e) =~= s);
    } else {
        lemma_delta_roundtrip(s.drop_last());
        assert(e.drop_last() =~= encode_spec(s.drop_last()));
        assert(decode_spec(e) =~= s);
    }
}

/// Byte-wise delta coding.
pub fn encode(data: &[u8]) -> (encoded: Vec<u8>)
    ensures
        encoded@ == encode_spec(data@),
{
    let mut encoded: Vec<u8> = Vec::new();
    if data.len() == 0 {
        assert(encoded@ =~= encode_spec(data@));
        return encoded;
    }
    encoded.push(data[0]);
    let mut i: usize = 1;
    while i < data.len()
        invariant
            1 <= i <= data.len(),
            encoded@ == encode_spec(data@).take(i as int),
        decreases data.len() - i,
    {
        let delta: u8 = data[i].wrapping_sub(data[i - 1]);
        encoded.push(delta);
        i += 1;
        assert(encoded@ =~= encode_spec(data@).take(i as int));
    }
    assert(encoded@ =~= encode_spec(data@));
    encoded
}

/// Inverse of byte-wise delta coding.
pub fn decode(data: &[u8]) -> (decoded: Vec<u8>)
    ensures
        decoded@ == decode_spec(data@),
{
    let mut decoded: Vec<u8> = Vec::new();
    if data.len() == 0 {
        return decoded;
    }
    decoded.push(data[0]);
    let mut i: usize = 1;
    assert(data@.take(1) =~= seq![data@[0]]);
    while i < data.len()
        invariant
            1 <= i <= data.len(),
            decoded@.len() == i,
            decoded@ == decode_spec(data@.take(i as int)),
        decreases data.len() - i,
    {
        let previous: u8 = decoded[i - 1];
        let current: u8 = data[i].wrapping_add(previous);
        proof {
            let t = data@.take(i + 1);
            assert(t.drop_last() =~= data@.take(i as int));
        }
        decoded.push(current);
        i += 1;
    }
    assert(data@.take(i as int) =~= data@);
    decoded
}

/// The number of bytes of `s` that lie in whole words of `width` bytes.
pub open spec fn whole_words(s: Seq<u8>, width: int) -> int {
    (s.len() as int / width) * width
}

/// Delta coding of the 16-bit little-endian words of `s`; an odd last byte is kept.
pub open spec fn encode_u16_spec(s: Seq<u8>) -> Seq<u8> {
    Seq::new(
        s.len(),
        |i: int|
            if i >= whole_words(s, 2) {
                s[i]
            } else if i < 2 {
                s[i]
            } else {
                u16_bytes(sub16(u16_at(s, i - i % 2), u16_at(s, i - i % 2 - 2)))[i % 2]
            },
    )
}

/// The `k`-th word of the decoding of `s`: the sum of its first `k + 1` words modulo 65536.
pub open spec fn summed_u16(s: Seq<u8>, k: int) -> u16
    decreases k,
{
    if k <= 0 {
        u16_at(s, 0)
    } else {
        add16(u16_at(s, 2 * k), summed_u16(s, k - 1))
    }
}

/// The inverse of `encode_u16_spec`.
pub open spec fn decode_u16_spec(s: Seq<u8>) -> Seq<u8> {
    Seq::new(
        s.len(),
        |i: int|
            if i >= whole_words(s, 2) {
                s[i]
            } else {
                u16_bytes(summed_u16(s, i / 2))[i % 2]
            },
    )
}

/// Delta coding of the 32-bit little-endian words of `s`; up to three last bytes are kept.
pub open spec fn encode_u32_spec(s: Seq<u8>) -> Seq<u8> {
    Seq::new(
        s.len(),
        |i: int|
            if i >= whole_words(s, 4) {
                s[i]
            } else if i < 4 {
                s[i]
            } else {
                u32_bytes(sub32(u32_at(s, i - i % 4), u32_at(s, i - i % 4 - 4)))[i % 4]
            },
    )
}

/// The `k`-th word of the decoding of `s`: the sum of its first `k + 1` words modulo 2^32.
pub open spec fn summed_u32(s: Seq<u8>, k: int) -> u32
    decreases k,
{
    if k <= 0 {
        u32_at(s, 0)
    } else {
        add32(u32_at(s, 4 * k), summed_u32(s, k - 1))
    }
}

/// The inverse of `encode_u32_spec`.
pub open spec fn decode_u32_spec(s: Seq<u8>) -> Seq<u8> {
    Seq::new(
        s.len(),
        |i: int|
            if i >= whole_words(s, 4) {
                s[i]
            } else {
                u32_bytes(summed_u32(s, i / 4))[i % 4]
            },
    )
}

/// The `k`-th word of a 16-bit encoding, as an integer.
pub open spec fn encoded_u16_word(s: Seq<u8>, k: int) -> u16 {
    if k == 0 {
        u16_at(s, 0)
    } else {
        sub16(u16_at(s, 2 * k), u16_at(s, 2 * k - 2))
    }
}

/// The `k`-th word of a 32-bit encoding, as an integer.
pub open spec fn encoded_u32_word(s: Seq<u8>, k: int) -> u32 {
    if k == 0 {
        u32_at(s, 0)
    } else {
        sub32(u32_at(s, 4 * k), u32_at(s, 4 * k - 4))
    }
}

#[verifier::spinoff_prover]
#[verifier::rlimit(40)]
proof fn lemma_encode_u16_bytes(s: Seq<u8>, k: int)
    requires
        0 <= k,
        2 * k + 2 <= s.len(),
    ensures
        encode_u16_spec(s).subrange(2 * k, 2 * k + 2) == u16_bytes(encoded_u16_word(s, k)),
{
    let e = encode_u16_spec(s);
    let b = u16_bytes(encoded_u16_word(s, k));
    assert(whole_words(s, 2) >= 2 * k + 2) by {
        assert(s.len() as int / 2 >= k + 1);
    }
    if k == 0 {
        lemma_u16_bytes_of_read(s, 0);
        assert(e.subrange(0, 2) =~= s.subrange(0, 2));
    } else {
        assert(e[2 * k] == b[0]) by {
            assert((2 * k) % 2 == 0);
        }
        assert(e[2 * k + 1] == b[1]) by {
            assert((2 * k + 1) % 2 == 1);
        }
        assert(e.subrange(2 * k, 2 * k + 2) =~= b);
    }
}

#[verifier::spinoff_prover]
#[verifier::rlimit(40)]
proof fn lemma_decode_u16_bytes(s: Seq<u8>, k: int)
    requires
        0 <= k,
        2 * k + 2 <= s.len(),
    ensures
        decode_u16_spec(s).subrange(2 * k, 2 * k + 2) == u16_bytes(summed_u16(s, k)),
{
    let d = decode_u16_spec(s);
    let b = u16_bytes(summed_u16(s, k));
    assert(whole_words(s, 2) >= 2 * k + 2) by {
        assert(s.len() as int / 2 >= k + 1);
    }
    assert(d[2 * k] == b[0]) by {
        assert((2 * k) / 2 == k && (2 * k) % 2 == 0);
    }
    assert(d[2 * k + 1] == b[1]) by {
        assert((2 * k + 1) / 2 == k && (2 * k + 1) % 2 == 1);
    }
    assert(d.subrange(2 * k, 2 * k + 2) =~= b);
}

#[verifier::spinoff_prover]
#[verifier::rlimit(40)]
proof fn lemma_encode_u32_bytes(s: Seq<u8>, k: int)
    requires
        0 <= k,
        4 * k + 4 <= s.len(),
    ensures
        encode_u32_spec(s).subrange(4 * k, 4 * k + 4) == u32_bytes(encoded_u32_word(s, k)),
{
    let e = encode_u32_spec(s);
    let b = u32_bytes(encoded_u32_word(s, k));
    assert(whole_words(s, 4) >= 4 * k + 4) by {
        assert(s.len() as int / 4 >= k + 1);
    }
    if k == 0 {
        lemma_u32_bytes_of_read(s, 0);
        assert(e.subrange(0, 4) =~= s.subrange(0, 4));
    } else {
        assert(e[4 * k] == b[0]) by {
            assert((4 * k) % 4 == 0);
        }
        assert(e[4 * k + 1] == b[1]) by {
            assert((4 * k + 1) % 4 == 1);
        }
        assert(e[4 * k + 2] == b[2]) by {
            assert((4 * k + 2) % 4 == 2);
        }
        assert(e[4 * k + 3] == b[3]) by {
            assert((4 * k + 3) % 4 == 3);
        }
        assert(e.subrange(4 * k, 4 * k + 4) =~= b);
    }
}

#[verifier::spinoff_prover]
#[verifier::rlimit(40)]
proof fn lemma_decode_u32_bytes(s: Seq<u8>, k: int)
    requires
        0 <= k,
        4 * k + 4 <= s.len(),
    ensures
        decode_u32_spec(s).subrange(4 * k, 4 * k + 4) == u32_bytes(summed_u32(s, k)),
{
    let d = decode_u32_spec(s);
    let b = u32_bytes(summed_u32(s, k));
    assert(whole_words(s, 4) >= 4 * k + 4) by {
        assert(s.len() as int / 4 >= k + 1);
    }
    assert(d[4 * k] == b[0]) by {
        assert((4 * k) / 4 == k && (4 * k) % 4 == 0);
    }
    assert(d[4 * k + 1] == b[1]) by {
        assert((4 * k + 1) / 4 == k && (4 * k + 1) % 4 == 1);
    }
    assert(d[4 * k + 2] == b[2]) by {
        assert((4 * k + 2) / 4 == k && (4 * k + 2) % 4 == 2);
    }
    assert(d[4 * k + 3] == b[3]) by {
        assert((4 * k + 3) / 4 == k && (4 * k + 3) % 4 == 3);
    }
    assert(d.subrange(4 * k, 4 * k + 4) =~= b);
}

/// The `k`-th word of an encoding is the difference of the words `k` and `k - 1`.
pub proof fn lemma_encoded_u16_word(s: Seq<u8>, k: int)
    requires
        0 <= k,
        2 * k + 2 <= s.len(),
    ensures
        u16_at(encode_u16_spec(s), 2 * k) == encoded_u16_word(s, k),
{
    let e = encode_u16_spec(s);
    let w = encoded_u16_word(s, k);
    lemma_encode_u16_bytes(s, k);
    lemma_u16_roundtrip(w);
    assert(e.subrange(2 * k, 2 * k + 2)[0] == e[2 * k]);
    assert(e.subrange(2 * k, 2 * k + 2)[1] == e[2 * k + 1]);
}

/// Summing the words of an encoding restores the words.
pub proof fn lemma_summed_u16(s: Seq<u8>, k: int)
    requires
        0 <= k,
        2 * k + 2 <= s.len(),
    ensures
        summed_u16(encode_u16_spec(s), k) == u16_at(s, 2 * k),
    decreases k,
{
    lemma_encoded_u16_word(s, k);
    if k > 0 {
        lemma_summed_u16(s, k - 1);
    }
}

/// Word-wise decoding inverts word-wise encoding (16 bit).
pub proof fn lemma_delta_u16_roundtrip(s: Seq<u8>)
    ensures
        decode_u16_spec(encode_u16_spec(s)) == s,
{
    let e = encode_u16_spec(s);
    let d = decode_u16_spec(e);
    assert forall|i: int| 0 <= i < s.len() implies d[i] == s[i] by {
        if i < whole_words(s, 2) {
            let k = i / 2;
            lemma_summed_u16(s, k);
            lemma_u16_bytes_of_read(s, 2 * k);
            assert(s.subrange(2 * k, 2 * k + 2)[i % 2] == s[i]);
        }
    }
    assert(d =~= s);
}

/// The `k`-th word of an encoding is the difference of the words `k` and `k - 1`.
pub proof fn lemma_encoded_u32_word(s: Seq<u8>, k: int)
    requires
        0 <= k,
        4 * k + 4 <= s.len(),
    ensures
        u32_at(encode_u32_spec(s), 4 * k) == encoded_u32_word(s, k),
{
    let e = encode_u32_spec(s);
    let w = encoded_u32_word(s, k);
    let part = e.subrange(4 * k, 4 * k + 4);
    lemma_encode_u32_bytes(s, k);
    lemma_u32_roundtrip(w);
    assert(part[0] == e[4 * k]);
    assert(part[1] == e[4 * k + 1]);
    assert(part[2] == e[4 * k + 2]);
    assert(part[3] == e[4 * k + 3]);
    assert(u32_at(e, 4 * k) == u32_at(part, 0));
}

/// Summing the words of an encoding restores the words.
pub proof fn lemma_summed_u32(s: Seq<u8>, k: int)
    requires
        0 <= k,
        4 * k + 4 <= s.len(),
    ensures
        summed_u32(encode_u32_spec(s), k) == u32_at(s, 4 * k),
    decreases k,
{
    lemma_encoded_u32_word(s, k);
    if k > 0 {
        lemma_summed_u32(s, k - 1);
    }
}

/// Word-wise decoding inverts word-wise encoding (32 bit).
pub proof fn lemma_delta_u32_roundtrip(s: Seq<u8>)
    ensures
        decode_u32_spec(encode_u32_spec(s)) == s,
{
    let e = encode_u32_spec(s);
    let d = decode_u32_spec(e);
    assert forall|i: int| 0 <= i < s.len() implies d[i] == s[i] by {
        if i < whole_words(s, 4) {
            let k = i / 4;
            lemma_summed_u32(s, k);
            lemma_u32_bytes_of_read(s, 4 * k);
            assert(s.subrange(4 * k, 4 * k + 4)[i % 4] == s[i]);
        }
    }
    assert(d =~= s);
}

/// Delta coding of 16-bit little-endian words.
pub fn encode_u16_delta(data: &[u8]) -> (result: Vec<u8>)
    ensures
        result@ == encode_u16_spec(data@),
{
    let n: usize = data.len();
    let words: usize = n / 2;
    let mut result: Vec<u8> = Vec::new();
    let ghost e = encode_u16_spec(data@);
    let mut k: usize = 0;
    while k < words
        invariant
            k <= words,
            words == n / 2,
            n == data@.len(),
            e == encode_u16_spec(data@),
            result@ == e.take(2 * k),
        decreases words - k,
    {
        let current: u16 = read_u16(data, 2 * k);
        let word: u16 = if k == 0 {
            current
        } else {
            let previous: u16 = read_u16(data, 2 * k - 2);
            current.wrapping_sub(previous)
        };
        proof {
            lemma_encode_u16_bytes(data@, k as int);
            assert(e.take(2 * k) + e.subrange(2 * k, 2 * k + 2) =~= e.take(2 * k + 2));
        }
        push_u16(&mut result, word);
        k += 1;
    }
    if n % 2 == 1 {
        result.push(data[n - 1]);
    }
    assert(result@ =~= e);
    result
}

/// Inverse of delta coding of 16-bit little-endian words.
pub fn decode_u16_delta(data: &[u8]) -> (result: Vec<u8>)
    ensures
        result@ == decode_u16_spec(data@),
{
    let n: usize = data.len();
    let words: usize = n / 2;
    let mut result: Vec<u8> = Vec::new();
    let ghost d = decode_u16_spec(data@);
    let mut current: u16 = 0;
    let mut k: usize = 0;
    while k < words
        invariant
            k <= words,
            words == n / 2,
            n == data@.len(),
            d == decode_u16_spec(data@),
            k > 0 ==> current == summed_u16(data@, k - 1),
            result@ == d.take(2 * k),
        decreases words - k,
    {
        let word: u16 = read_u16(data, 2 * k);
        if k == 0 {
            current = word;
        } else {
            current = current.wrapping_add(word);
        }
        proof {
            assert(current == summed_u16(data@, k as int));
            lemma_decode_u16_bytes(data@, k as int);
            assert(d.take(2 * k) + d.subrange(2 * k, 2 * k + 2) =~= d.take(2 * k + 2));
        }
        push_u16(&mut result, current);
        k += 1;
    }
    if n % 2 == 1 {
        result.push(data[n - 1]);
    }
    assert(result@ =~= d);
    result
}

/// Delta coding of 32-bit little-endian words.
pub fn encode_u32_delta(data: &[u8]) -> (result: Vec<u8>)
    ensures
        result@ == encode_u32_spec(data@),
{
    let n: usize = data.len();
    let words: usize = n / 4;
    let mut result: Vec<u8> = Vec::new();
    let ghost e = encode_u32_spec(data@);
    let mut k: usize = 0;
    while k < words
        invariant
            k <= words,
            words == n / 4,
            n == data@.len(),
            e == encode_u32_spec(data@),
            result@ == e.take(4 * k),
        decreases words - k,
    {
        let current: u32 = read_u32(data, 4 * k);
        let word: u32 = if k == 0 {
            current
        } else {
            let previous: u32 = read_u32(data, 4 * k - 4);
            current.wrapping_sub(previous)
        };
        proof {
            lemma_encode_u32_bytes(data@, k as int);
            assert(e.take(4 * k) + e.subrange(4 * k, 4 * k + 4) =~= e.take(4 * k + 4));
        }
        push_u32(&mut result, word);
        k += 1;
    }
    let mut i: usize = 4 * words;
    while i < n
        invariant
            4 * words <= i <= n,
            words == n / 4,
            n == data@.len(),
            e == encode_u32_spec(data@),
            result@ == e.take(i as int),
        decreases n - i,
    {
        result.push(data[i]);
        i += 1;
        assert(result@ =~= e.take(i as int));
    }
    assert(result@ =~= e);
    result
}

/// Inverse of delta coding of 32-bit little-endian words.
pub fn decode_u32_delta(data: &[u8]) -> (result: Vec<u8>)
    ensures
        result@ == decode_u32_spec(data@),
{
    let n: usize = data.len();
    let words: usize = n / 4;
    let mut result: Vec<u8> = Vec::new();
    let ghost d = decode_u32_spec(data@);
    let mut current: u32 = 0;
    let mut k: usize = 0;
    while k < words
        invariant
            k <= words,
            words == n / 4,
            n == data@.len(),
            d == decode_u32_spec(data@),
            k > 0 ==> current == summed_u32(data@, k - 1),
            result@ == d.take(4 * k),
        decreases words - k,
    {
        let word: u32 = read_u32(data, 4 * k);
        if k == 0 {
            current = word;
        } else {
            current = current.wrapping_add(word);
        }
        proof {
            assert(current == summed_u32(data@, k as int));
            lemma_decode_u32_bytes(data@, k as int);
            assert(d.take(4 * k) + d.subrange(4 * k, 4 * k + 4) =~= d.take(4 * k + 4));
        }
        push_u32(&mut result, current);
        k += 1;
    }
    let mut i: usize = 4 * words;
    while i < n
        invariant
            4 * words <= i <= n,
            words == n / 4,
            n == data@.len(),
            d == decode_u32_spec(data@),
            result@ == d.take(i as int),
        decreases n - i,
    {
        result.push(data[i]);
        i += 1;
        assert(result@ =~= d.take(i as int));
    }
    assert(result@ =~= d);
    result
}

/// The delta coding of `s` by words of `word_size` bytes; any size but 2 and 4
/// selects byte-wise coding.
pub open spec fn encode_advanced_spec(s: Seq<u8>, word_size: usize) -> Seq<u8> {
    if word_size == 2 {
        encode_u16_spec(s)
    } else if word_size == 4 {
        encode_u32_spec(s)
    } else {
        encode_spec(s)
    }
}

/// The inverse of `encode_advanced_spec` for the same `word_size`.
pub open spec fn decode_advanced_spec(s: Seq<u8>, word_size: usize) -> Seq<u8> {
    if word_size == 2 {
        decode_u16_spec(s)
    } else if word_size == 4 {
        decode_u32_spec(s)
    } else {
        decode_spec(s)
    }
}

/// Decoding inverts encoding for every word size.
pub proof fn lemma_delta_advanced_roundtrip(s: Seq<u8>, word_size: usize)
    ensures
        decode_advanced_spec(encode_advanced_spec(s, word_size), word_size) == s,
{
    lemma_delta_roundtrip(s);
    lemma_delta_u16_roundtrip(s);
    lemma_delta_u32_roundtrip(s);
}

/// Delta coding by words of `word_size` bytes (1, 2 or 4; anything else is
/// treated as 1).
pub fn encode_advanced(data: &[u8], word_size: usize) -> (result: Vec<u8>)
    ensures
        result@ == encode_advanced_spec(data@, word_size),
{
    if word_size == 2 {
        encode_u16_delta(data)
    } else if word_size == 4 {
        encode_u32_delta(data)
    } else {
        encode(data)
    }
}

/// Inverse of `encode_advanced` for the same `word_size`.
pub fn decode_advanced(data: &[u8], word_size: usize) -> (result: Vec<u8>)
    ensures
        result@ == decode_advanced_spec(data@, word_size),
{
    if word_size == 2 {
        decode_u16_delta(data)
    } else if word_size == 4 {
        decode_u32_delta(data)
    } else {
        decode(data)
    }
}

} // verus!
