//! Zero-run run-length encoding.
//!
//! Non-zero bytes are emitted verbatim. A run of `k` zero bytes, `1 <= k <= 255`,
//! is emitted as the pair `0x00 k`; longer runs are split into successive pairs.

use vstd::prelude::*;

verus! {

/// Number of leading zero bytes of `s`, capped at `cap`.
pub open spec fn zero_run(s: Seq<u8>, cap: nat) -> nat
    decreases cap,
{
    if cap == 0 || s.len() == 0 || s[0] != 0 {
        0
    } else {
        1 + zero_run(s.skip(1), (cap - 1) as nat)
    }
}

/// `n` zero bytes.
pub open spec fn zeros(n: nat) -> Seq<u8> {
    Seq::new(n, |i: int| 0u8)
}

/// The encoding of `s`.
pub open spec fn encode_spec(s: Seq<u8>) -> Seq<u8>
    decreases s.len(),
{
    if s.len() == 0 {
        Seq::<u8>::empty()
    } else if s[0] != 0 {
        seq![s[0]] + encode_spec(s.skip(1))
    } else {
        let k = zero_run(s, 255);
        if 1 <= k <= s.len() {
            seq![0u8, k as u8] + encode_spec(s.skip(k as int))
        } else {
            Seq::<u8>::empty()
        }
    }
}

/// The decoding of `s`. A trailing `0x00` without a count byte stands for one zero.
pub open spec fn decode_spec(s: Seq<u8>) -> Seq<u8>
    decreases s.len(),
{
    if s.len() == 0 {
        Seq::<u8>::empty()
    } else if s[0] != 0 {
        seq![s[0]] + decode_spec(s.skip(1))
    } else if s.len() >= 2 {
        zeros(s[1] as nat) + decode_spec(s.skip(2))
    } else {
        seq![0u8]
    }
}

/// A run counted by `zero_run` lies inside `s`, consists of zeros, and is
/// maximal unless it hit the cap.
pub proof fn lemma_zero_run(s: Seq<u8>, cap: nat)
    ensures
        zero_run(s, cap) <= cap,
        zero_run(s, cap) <= s.len(),
        forall|i: int| 0 <= i < zero_run(s, cap) ==> s[i] == 0,
        zero_run(s, cap) < cap && zero_run(s, cap) < s.len() ==> s[zero_run(s, cap) as int] != 0,
        s.len() > 0 && s[0] == 0 && cap > 0 ==> zero_run(s, cap) >= 1,
    decreases cap,
{
    if cap == 0 || s.len() == 0 || s[0] != 0 {
    } else {
        let t = s.skip(1);
        lemma_zero_run(t, (cap - 1) as nat);
        let k = zero_run(t, (cap - 1) as nat);
        assert forall|i: int| 0 <= i < zero_run(s, cap) implies s[i] == 0 by {
            if i > 0 {
                assert(t[i - 1] == s[i]);
            }
        }
        if k < cap - 1 && k < t.len() {
            assert(t[k as int] == s[k as int + 1]);
        }
    }
}

/// Decoding inverts encoding.
pub proof fn lemma_rle_roundtrip(s: Seq<u8>)
    ensures
        decode_spec(encode_spec(s)) == s,
    decreases s.len(),
{
    if s.len() == 0 {
    } else if s[0] != 0 {
        let rest = encode_spec(s.skip(1));
        let e = seq![s[0]] + rest;
        lemma_rle_roundtrip(s.skip(1));
        assert(e.skip(1) =~= rest);
        assert(seq![s[0]] + s.skip(1) =~= s);
    } else {
        lemma_zero_run(s, 255);
        let k = zero_run(s, 255);
        let rest = encode_spec(s.skip(k as int));
        let e = seq![0u8, k as u8] + rest;
        lemma_rle_roundtrip(s.skip(k as int));
        assert(e.skip(2) =~= rest);
        assert(e[1] == k as u8);
        assert(zeros(k) + s.skip(k as int) =~= s);
    }
}

/// Encodes the zero runs of `data`.
pub fn encode(data: &[u8]) -> (encoded: Vec<u8>)
    ensures
        encoded@ == encode_spec(data@),
{
    let mut encoded: Vec<u8> = Vec::new();
    let mut i: usize = 0;
    proof {
        assert(data@.skip(0) =~= data@);
        assert(encoded@ + encode_spec(data@) =~= encode_spec(data@));
    }
    while i < data.len()
        invariant
            i <= data.len(),
            encoded@ + encode_spec(data@.skip(i as int)) == encode_spec(data@),
        decreases data.len() - i,
    {
        let ghost rest = data@.skip(i as int);
        if data[i] == 0 {
            let mut count: usize = 0;
            proof {
                assert(rest.skip(0) =~= rest);
            }
            while i + count < data.len() && data[i + count] == 0 && count < 255
                invariant
                    i < data.len(),
                    count <= 255,
                    i + count <= data.len(),
                    rest == data@.skip(i as int),
                    zero_run(rest, 255) == count + zero_run(rest.skip(count as int), (255 - count) as nat),
                decreases data.len() - i - count,
            {
                proof {
                    let t = rest.skip(count as int);
                    assert(t[0] == data@[i + count]);
                    assert(t.skip(1) =~= rest.skip(count + 1));
                }
                count += 1;
            }
            proof {
                let t = rest.skip(count as int);
                if count < 255 && i + count < data.len() {
                    assert(t[0] == data@[i + count]);
                }
                assert(zero_run(t, (255 - count) as nat) == 0);
                lemma_zero_run(rest, 255);
                assert(rest[0] == data@[i as int]);
                assert(rest.skip(count as int) =~= data@.skip(i + count));
                assert(encoded@.push(0u8).push(count as u8) + encode_spec(data@.skip(i + count))
                    =~= encoded@ + (seq![0u8, count as u8] + encode_spec(rest.skip(count as int))));
            }
            encoded.push(0);
            encoded.push(count as u8);
            i += count;
        } else {
            proof {
                assert(rest[0] == data@[i as int]);
                assert(rest.skip(1) =~= data@.skip(i + 1));
                assert(encoded@.push(data@[i as int]) + encode_spec(data@.skip(i + 1))
                    =~= encoded@ + (seq![rest[0]] + encode_spec(rest.skip(1))));
            }
            encoded.push(data[i]);
            i += 1;
        }
    }
    proof {
        assert(data@.skip(i as int).len() == 0);
        assert(encoded@ + Seq::<u8>::empty() =~= encoded@);
    }
    encoded
}

/// Expands the zero runs of `data`.
pub fn decode(data: &[u8]) -> (decoded: Vec<u8>)
    ensures
        decoded@ == decode_spec(data@),
{
    let mut decoded: Vec<u8> = Vec::new();
    let mut i: usize = 0;
    proof {
        assert(data@.skip(0) =~= data@);
        assert(decoded@ + decode_spec(data@) =~= decode_spec(data@));
    }
    while i < data.len()
        invariant
            i <= data.len(),
            decoded@ + decode_spec(data@.skip(i as int)) == decode_spec(data@),
        decreases data.len() - i,
    {
        let ghost rest = data@.skip(i as int);
        let ghost before = decoded@;
        proof {
            assert(rest[0] == data@[i as int]);
        }
        if data[i] == 0 {
            if i + 1 < data.len() {
                let count: u8 = data[i + 1];
                let mut j: u8 = 0;
                while j < count
                    invariant
                        j <= count,
                        decoded@ == before + zeros(j as nat),
                    decreases count - j,
                {
                    proof {
                        assert((before + zeros(j as nat)).push(0u8) =~= before + zeros((j + 1) as nat));
                    }
                    decoded.push(0);
                    j += 1;
                }
                proof {
                    assert(rest[1] == data@[i + 1]);
                    assert(rest.skip(2) =~= data@.skip(i + 2));
                    assert(decoded@ + decode_spec(data@.skip(i + 2))
                        =~= before + (zeros(rest[1] as nat) + decode_spec(rest.skip(2))));
                }
                i += 2;
            } else {
                proof {
                    assert(rest.len() == 1);
                    assert(data@.skip(i + 1).len() == 0);
                    assert(decoded@.push(0u8) + decode_spec(data@.skip(i + 1)) =~= before + seq![0u8]);
                }
                decoded.push(0);
                i += 1;
            }
        } else {
            proof {
                assert(rest.skip(1) =~= data@.skip(i + 1));
                assert(decoded@.push(data@[i as int]) + decode_spec(data@.skip(i + 1))
                    =~= before + (seq![rest[0]] + decode_spec(rest.skip(1))));
            }
            decoded.push(data[i]);
            i += 1;
        }
    }
    proof {
        assert(data@.skip(i as int).len() == 0);
        assert(decoded@ + Seq::<u8>::empty() =~= decoded@);
    }
    decoded
}

} // verus!
