//! Little-endian integers in byte sequences.

use vstd::prelude::*;

verus! {

/// The value of the two bytes at `at`, least significant first.
pub open spec fn u16_at(s: Seq<u8>, at: int) -> u16 {
    (s[at] as int + 256 * (s[at + 1] as int)) as u16
}

/// The value of the four bytes at `at`, least significant first.
pub open spec fn u32_at(s: Seq<u8>, at: int) -> u32 {
    (s[at] as int + 256 * (s[at + 1] as int) + 65536 * (s[at + 2] as int) + 16777216 * (s[at + 3] as int)) as u32
}

/// The value of the eight bytes at `at`, least significant first.
pub open spec fn u64_at(s: Seq<u8>, at: int) -> u64 {
    (u32_at(s, at) as int + 4294967296 * (u32_at(s, at + 4) as int)) as u64
}

/// The two bytes of `x`, least significant first.
pub open spec fn u16_bytes(x: u16) -> Seq<u8> {
    seq![(x % 256) as u8, (x / 256) as u8]
}

/// The four bytes of `x`, least significant first.
pub open spec fn u32_bytes(x: u32) -> Seq<u8> {
    seq![
        (x % 256) as u8,
        ((x / 256) % 256) as u8,
        ((x / 65536) % 256) as u8,
        (x / 16777216) as u8,
    ]
}

/// The eight bytes of `x`, least significant first.
pub open spec fn u64_bytes(x: u64) -> Seq<u8> {
    u32_bytes((x % 4294967296) as u32) + u32_bytes((x / 4294967296) as u32)
}

/// Reading the bytes of a `u16` gives it back.
pub proof fn lemma_u16_roundtrip(x: u16)
    ensures
        u16_bytes(x).len() == 2,
        u16_at(u16_bytes(x), 0) == x,
{
}

/// The digits of a number written in base 256 with four digits.
proof fn lemma_base256(b0: int, b1: int, b2: int, b3: int)
    requires
        0 <= b0 < 256,
        0 <= b1 < 256,
        0 <= b2 < 256,
        0 <= b3 < 256,
    ensures
        0 <= b0 + 256 * b1 + 65536 * b2 + 16777216 * b3 < 4294967296,
        (b0 + 256 * b1 + 65536 * b2 + 16777216 * b3) % 256 == b0,
        ((b0 + 256 * b1 + 65536 * b2 + 16777216 * b3) / 256) % 256 == b1,
        ((b0 + 256 * b1 + 65536 * b2 + 16777216 * b3) / 65536) % 256 == b2,
        (b0 + 256 * b1 + 65536 * b2 + 16777216 * b3) / 16777216 == b3,
{
    let x = b0 + 256 * b1 + 65536 * b2 + 16777216 * b3;
    let y1 = b1 + 256 * b2 + 65536 * b3;
    let y2 = b2 + 256 * b3;
    assert(x == 256 * y1 + b0);
    assert(x / 256 == y1 && x % 256 == b0);
    assert(y1 == 256 * y2 + b1);
    assert(y1 % 256 == b1);
    assert(x == 65536 * y2 + (b0 + 256 * b1));
    assert(x / 65536 == y2);
    assert(y2 % 256 == b2);
    assert(x == 16777216 * b3 + (b0 + 256 * b1 + 65536 * b2));
    assert(x / 16777216 == b3);
}

/// Reading the bytes of a `u32` gives it back.
pub proof fn lemma_u32_roundtrip(x: u32)
    ensures
        u32_bytes(x).len() == 4,
        u32_at(u32_bytes(x), 0) == x,
{
    let v = x as int;
    let b0 = v % 256;
    let b1 = (v / 256) % 256;
    let b2 = (v / 65536) % 256;
    let b3 = v / 16777216;
    assert(v == 256 * (v / 256) + b0);
    assert(v / 256 == 256 * ((v / 256) / 256) + b1);
    assert((v / 256) / 256 == v / 65536);
    assert(v / 65536 == 256 * ((v / 65536) / 256) + b2);
    assert((v / 65536) / 256 == b3);
    assert(v == b0 + 256 * b1 + 65536 * b2 + 16777216 * b3);
}

/// Reading the bytes of a `u64` gives it back.
pub proof fn lemma_u64_roundtrip(x: u64)
    ensures
        u64_bytes(x).len() == 8,
        u64_at(u64_bytes(x), 0) == x,
{
    let lo = (x % 4294967296) as u32;
    let hi = (x / 4294967296) as u32;
    lemma_u32_roundtrip(lo);
    lemma_u32_roundtrip(hi);
    let s = u64_bytes(x);
    assert(u32_at(s, 0) == u32_at(u32_bytes(lo), 0));
    assert(u32_at(s, 4) == u32_at(u32_bytes(hi), 0));
}

/// Writing the two bytes read at `at` gives them back.
pub proof fn lemma_u16_bytes_of_read(s: Seq<u8>, at: int)
    requires
        0 <= at,
        at + 2 <= s.len(),
    ensures
        u16_bytes(u16_at(s, at)) == s.subrange(at, at + 2),
{
    assert(u16_bytes(u16_at(s, at)) =~= s.subrange(at, at + 2));
}

/// Writing the four bytes read at `at` gives them back.
pub proof fn lemma_u32_bytes_of_read(s: Seq<u8>, at: int)
    requires
        0 <= at,
        at + 4 <= s.len(),
    ensures
        u32_bytes(u32_at(s, at)) == s.subrange(at, at + 4),
{
    lemma_base256(s[at] as int, s[at + 1] as int, s[at + 2] as int, s[at + 3] as int);
    assert(u32_bytes(u32_at(s, at)) =~= s.subrange(at, at + 4));
}

/// A `u32` written between two byte sequences is read back at its place.
pub proof fn lemma_u32_embedded(before: Seq<u8>, x: u32, after: Seq<u8>)
    ensures
        u32_at(before + u32_bytes(x) + after, before.len() as int) == x,
{
    lemma_u32_roundtrip(x);
    let all = before + u32_bytes(x) + after;
    let at = before.len() as int;
    assert(all[at] == u32_bytes(x)[0]);
    assert(all[at + 1] == u32_bytes(x)[1]);
    assert(all[at + 2] == u32_bytes(x)[2]);
    assert(all[at + 3] == u32_bytes(x)[3]);
}

/// A `u64` written between two byte sequences is read back at its place.
pub proof fn lemma_u64_embedded(before: Seq<u8>, x: u64, after: Seq<u8>)
    ensures
        u64_at(before + u64_bytes(x) + after, before.len() as int) == x,
{
    lemma_u64_roundtrip(x);
    let lo = (x % 4294967296) as u32;
    let hi = (x / 4294967296) as u32;
    let all = before + u64_bytes(x) + after;
    assert(all =~= before + u32_bytes(lo) + (u32_bytes(hi) + after));
    lemma_u32_embedded(before, lo, u32_bytes(hi) + after);
    assert(all =~= (before + u32_bytes(lo)) + u32_bytes(hi) + after);
    lemma_u32_embedded(before + u32_bytes(lo), hi, after);
}

/// Reads a `u16` at `at`.
pub fn read_u16(data: &[u8], at: usize) -> (x: u16)
    requires
        at + 2 <= data@.len(),
    ensures
        x == u16_at(data@, at as int),
{
    let b0: u16 = data[at] as u16;
    let b1: u16 = data[at + 1] as u16;
    b0 + 256 * b1
}

/// Reads a `u32` at `at`.
pub fn read_u32(data: &[u8], at: usize) -> (x: u32)
    requires
        at + 4 <= data@.len(),
    ensures
        x == u32_at(data@, at as int),
{
    let b0: u32 = data[at] as u32;
    let b1: u32 = data[at + 1] as u32;
    let b2: u32 = data[at + 2] as u32;
    let b3: u32 = data[at + 3] as u32;
    b0 + 256 * b1 + 65536 * b2 + 16777216 * b3
}

/// Reads a `u64` at `at`.
pub fn read_u64(data: &[u8], at: usize) -> (x: u64)
    requires
        at + 8 <= data@.len(),
    ensures
        x == u64_at(data@, at as int),
{
    let len: usize = data.len();
    assert(at + 8 <= len);
    let lo: u64 = read_u32(data, at) as u64;
    let hi: u64 = read_u32(data, at + 4) as u64;
    lo + 4294967296 * hi
}

/// Appends the two bytes of `x` to `out`.
pub fn push_u16(out: &mut Vec<u8>, x: u16)
    ensures
        final(out)@ == old(out)@ + u16_bytes(x),
{
    out.push((x % 256) as u8);
    out.push((x / 256) as u8);
    assert(out@ =~= old(out)@ + u16_bytes(x));
}

/// Appends the four bytes of `x` to `out`.
pub fn push_u32(out: &mut Vec<u8>, x: u32)
    ensures
        final(out)@ == old(out)@ + u32_bytes(x),
{
    out.push((x % 256) as u8);
    out.push(((x / 256) % 256) as u8);
    out.push(((x / 65536) % 256) as u8);
    out.push((x / 16777216) as u8);
    assert(out@ =~= old(out)@ + u32_bytes(x));
}

/// Appends the eight bytes of `x` to `out`.
pub fn push_u64(out: &mut Vec<u8>, x: u64)
    ensures
        final(out)@ == old(out)@ + u64_bytes(x),
{
    let ghost before = out@;
    push_u32(out, (x % 4294967296) as u32);
    push_u32(out, (x / 4294967296) as u32);
    assert(out@ =~= before + u64_bytes(x));
}

/// Appends `bytes` to `out`.
pub fn append(out: &mut Vec<u8>, bytes: &[u8])
    ensures
        final(out)@ == old(out)@ + bytes@,
{
    out.extend_from_slice(bytes);
    assert(out@ =~= old(out)@ + bytes@);
}

} // verus!
