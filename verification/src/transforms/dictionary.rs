//! The dictionary stage of the pipeline, and pattern dictionaries.
//!
//! The stage itself is an identity pass: it keeps its place in the canonical
//! order and in the flag set, and decoding accepts it. Pattern dictionaries
//! replace byte patterns by two-byte identifiers behind the escape byte `0xFF`;
//! they are offered on their own and are not part of the stage.

use vstd::prelude::*;
use vstd::slice::{slice_subrange, slice_to_vec};
use crate::endian::{append, push_u16, push_u32, read_u16, read_u32, u16_at, u16_bytes, u32_at, u32_bytes};
use crate::error::HlcError;
use crate::text::with_number;

verus! {

/// The encoding of `s`: `s` itself.
pub open spec fn encode_spec(s: Seq<u8>) -> Seq<u8> {
    s
}

/// The decoding of `s`: `s` itself.
pub open spec fn decode_spec(s: Seq<u8>) -> Seq<u8> {
    s
}

/// Decoding inverts encoding.
pub proof fn lemma_dictionary_roundtrip(s: Seq<u8>)
    ensures
        decode_spec(encode_spec(s)) == s,
{
}

/// The dictionary stage forward: a copy of `data`.
pub fn encode(data: &[u8]) -> (encoded: Vec<u8>)
    ensures
        encoded@ == encode_spec(data@),
{
    slice_to_vec(data)
}

/// The dictionary stage backward: a copy of `data`.
pub fn decode(data: &[u8]) -> (decoded: Vec<u8>)
    ensures
        decoded@ == decode_spec(data@),
{
    slice_to_vec(data)
}

/// A pattern with its identifier.
#[derive(Debug, Clone)]
pub struct PatternEntry {
    pub pattern: Vec<u8>,
    pub id: u16,
}

/// A pattern with its identifier, as plain values.
pub struct Pattern {
    pub bytes: Seq<u8>,
    pub id: u16,
}

impl View for PatternEntry {
    type V = Pattern;

    open spec fn view(&self) -> Pattern {
        Pattern { bytes: self.pattern@, id: self.id }
    }
}

/// The entries as plain values.
pub open spec fn patterns_of(entries: Seq<PatternEntry>) -> Seq<Pattern> {
    Seq::new(entries.len(), |i: int| entries[i]@)
}

/// The first position among the first `n` entries that holds the bytes
/// `bytes`, or `-1`.
pub open spec fn position_of(entries: Seq<Pattern>, bytes: Seq<u8>, n: int) -> int
    decreases n,
{
    if n <= 0 {
        -1
    } else if position_of(entries, bytes, n - 1) >= 0 {
        position_of(entries, bytes, n - 1)
    } else if entries[n - 1].bytes == bytes {
        n - 1
    } else {
        -1
    }
}

/// The first position among the first `n` entries that holds the identifier
/// `id`, or `-1`.
pub open spec fn position_of_id(entries: Seq<Pattern>, id: u16, n: int) -> int
    decreases n,
{
    if n <= 0 {
        -1
    } else if position_of_id(entries, id, n - 1) >= 0 {
        position_of_id(entries, id, n - 1)
    } else if entries[n - 1].id == id {
        n - 1
    } else {
        -1
    }
}

/// What `position_of` finds is a position of `bytes`, and there is none before it.
pub proof fn lemma_position_of(entries: Seq<Pattern>, bytes: Seq<u8>, n: int)
    requires
        0 <= n <= entries.len(),
    ensures
        -1 <= position_of(entries, bytes, n) < n,
        position_of(entries, bytes, n) >= 0 ==> entries[position_of(entries, bytes, n)].bytes == bytes,
        forall|i: int|
            0 <= i < n && (position_of(entries, bytes, n) < 0 || i < position_of(entries, bytes, n))
                ==> (#[trigger] entries[i]).bytes != bytes,
    decreases n,
{
    if n > 0 {
        lemma_position_of(entries, bytes, n - 1);
    }
}

/// What `position_of_id` finds is a position of `id`, and there is none before it.
pub proof fn lemma_position_of_id(entries: Seq<Pattern>, id: u16, n: int)
    requires
        0 <= n <= entries.len(),
    ensures
        -1 <= position_of_id(entries, id, n) < n,
        position_of_id(entries, id, n) >= 0 ==> entries[position_of_id(entries, id, n)].id == id,
        forall|i: int|
            0 <= i < n && (position_of_id(entries, id, n) < 0 || i < position_of_id(entries, id, n))
                ==> (#[trigger] entries[i]).id != id,
    decreases n,
{
    if n > 0 {
        lemma_position_of_id(entries, id, n - 1);
    }
}

/// The entries with `bytes` standing for `id`: in place of the entry that held
/// `bytes`, or at the end.
pub open spec fn with_pattern(entries: Seq<Pattern>, bytes: Seq<u8>, id: u16) -> Seq<Pattern> {
    let at = position_of(entries, bytes, entries.len() as int);
    if at >= 0 {
        entries.update(at, Pattern { bytes, id })
    } else {
        entries.push(Pattern { bytes, id })
    }
}

/// The entries with `id` standing for `bytes`: in place of the entry that held
/// `id`, or at the end.
pub open spec fn with_id(entries: Seq<Pattern>, bytes: Seq<u8>, id: u16) -> Seq<Pattern> {
    let at = position_of_id(entries, id, entries.len() as int);
    if at >= 0 {
        entries.update(at, Pattern { bytes, id })
    } else {
        entries.push(Pattern { bytes, id })
    }
}

/// No two entries hold the same bytes.
pub open spec fn distinct_patterns(entries: Seq<Pattern>) -> bool {
    forall|i: int, j: int|
        0 <= i < j < entries.len() ==> (#[trigger] entries[i]).bytes != (#[trigger] entries[j]).bytes
}

/// No two entries hold the same identifier.
pub open spec fn distinct_ids(entries: Seq<Pattern>) -> bool {
    forall|i: int, j: int| 0 <= i < j < entries.len() ==> (#[trigger] entries[i]).id != (#[trigger] entries[j]).id
}

/// A dictionary of byte patterns: each pattern has an identifier, and each
/// identifier has a pattern.
pub struct Dictionary {
    patterns: Vec<PatternEntry>,
    reverse_patterns: Vec<PatternEntry>,
    next_id: u16,
}

impl Dictionary {
    /// The patterns with their identifiers, each pattern once.
    pub closed spec fn patterns(self) -> Seq<Pattern> {
        patterns_of(self.patterns@)
    }

    /// The identifiers with their patterns, each identifier once.
    pub closed spec fn reverse_patterns(self) -> Seq<Pattern> {
        patterns_of(self.reverse_patterns@)
    }

    /// The identifier that the next pattern gets.
    pub closed spec fn next_id(self) -> u16 {
        self.next_id
    }

    /// Each pattern and each identifier stands once.
    pub open spec fn wf(self) -> bool {
        distinct_patterns(self.patterns()) && distinct_ids(self.reverse_patterns())
    }

    /// The identifier of `bytes`, if it is a pattern of the dictionary.
    pub open spec fn id_of(self, bytes: Seq<u8>) -> Option<u16> {
        let at = position_of(self.patterns(), bytes, self.patterns().len() as int);
        if at >= 0 {
            Some(self.patterns()[at].id)
        } else {
            None
        }
    }

    /// The pattern of `id`, if it is an identifier of the dictionary.
    pub open spec fn pattern_of(self, id: u16) -> Option<Seq<u8>> {
        let at = position_of_id(self.reverse_patterns(), id, self.reverse_patterns().len() as int);
        if at >= 0 {
            Some(self.reverse_patterns()[at].bytes)
        } else {
            None
        }
    }

    /// An empty dictionary. Identifiers start at 256, above the byte values.
    pub fn new() -> (dictionary: Self)
        ensures
            dictionary.patterns().len() == 0,
            dictionary.reverse_patterns().len() == 0,
            dictionary.next_id() == 256,
            dictionary.wf(),
    {
        Dictionary { patterns: Vec::new(), reverse_patterns: Vec::new(), next_id: 256 }
    }

    /// The number of patterns.
    pub fn len(&self) -> (count: usize)
        ensures
            count == self.patterns().len(),
    {
        self.patterns.len()
    }

    /// Whether the dictionary holds no pattern.
    pub fn is_empty(&self) -> (empty: bool)
        ensures
            empty == (self.patterns().len() == 0),
    {
        self.patterns.len() == 0
    }

    /// The patterns with their identifiers.
    pub fn entries(&self) -> (entries: &Vec<PatternEntry>)
        ensures
            patterns_of(entries@) == self.patterns(),
    {
        &self.patterns
    }

    /// The identifier of `pattern`, if it is a pattern of the dictionary.
    pub fn get(&self, pattern: &[u8]) -> (id: Option<u16>)
        ensures
            id == self.id_of(pattern@),
    {
        match find_pattern(&self.patterns, pattern) {
            Some(at) => Some(self.patterns[at].id),
            None => None,
        }
    }

    /// The pattern of `id`, if it is an identifier of the dictionary.
    pub fn pattern(&self, id: u16) -> (pattern: Option<&Vec<u8>>)
        ensures
            match self.pattern_of(id) {
                Some(bytes) => pattern is Some && pattern->Some_0@ == bytes,
                None => pattern is None,
            },
    {
        match find_id(&self.reverse_patterns, id) {
            Some(at) => Some(&self.reverse_patterns[at].pattern),
            None => None,
        }
    }

    /// Lets `pattern` stand for `id` and `id` for `pattern`, in place of what
    /// stood for them before.
    pub fn insert(&mut self, pattern: &[u8], id: u16)
        requires
            old(self).wf(),
        ensures
            final(self).wf(),
            final(self).patterns() == with_pattern(old(self).patterns(), pattern@, id),
            final(self).reverse_patterns() == with_id(old(self).reverse_patterns(), pattern@, id),
            final(self).next_id() == old(self).next_id(),
            final(self).id_of(pattern@) == Some(id),
            final(self).pattern_of(id) == Some(pattern@),
    {
        let ghost before = self.patterns();
        let ghost reverse_before = self.reverse_patterns();
        proof {
            lemma_position_of(before, pattern@, before.len() as int);
            lemma_position_of_id(reverse_before, id, reverse_before.len() as int);
        }
        match find_pattern(&self.patterns, pattern) {
            Some(at) => {
                self.patterns[at] = PatternEntry { pattern: slice_to_vec(pattern), id };
            },
            None => {
                self.patterns.push(PatternEntry { pattern: slice_to_vec(pattern), id });
            },
        }
        match find_id(&self.reverse_patterns, id) {
            Some(at) => {
                self.reverse_patterns[at] = PatternEntry { pattern: slice_to_vec(pattern), id };
            },
            None => {
                self.reverse_patterns.push(PatternEntry { pattern: slice_to_vec(pattern), id });
            },
        }
        proof {
            let now = self.patterns();
            let reverse_now = self.reverse_patterns();
            assert(now =~= with_pattern(before, pattern@, id));
            assert(reverse_now =~= with_id(reverse_before, pattern@, id));
            lemma_with_pattern(before, pattern@, id);
            lemma_with_id(reverse_before, pattern@, id);
        }
    }
}

/// After `with_pattern` the patterns are distinct still, and `bytes` is found
/// with `id`.
pub proof fn lemma_with_pattern(entries: Seq<Pattern>, bytes: Seq<u8>, id: u16)
    requires
        distinct_patterns(entries),
    ensures
        distinct_patterns(with_pattern(entries, bytes, id)),
        position_of(with_pattern(entries, bytes, id), bytes, with_pattern(entries, bytes, id).len() as int) >= 0,
        with_pattern(entries, bytes, id)[position_of(
            with_pattern(entries, bytes, id),
            bytes,
            with_pattern(entries, bytes, id).len() as int,
        )].id == id,
{
    let now = with_pattern(entries, bytes, id);
    let at = position_of(entries, bytes, entries.len() as int);
    lemma_position_of(entries, bytes, entries.len() as int);
    lemma_position_of(now, bytes, now.len() as int);
    let found = position_of(now, bytes, now.len() as int);
    if at >= 0 {
        assert(now[at].bytes == bytes);
    } else {
        assert(now[entries.len() as int].bytes == bytes);
    }
    assert(found >= 0);
    assert(now[found].bytes == bytes);
    if at >= 0 {
        if found != at {
            if found < at {
                assert(entries[found].bytes == bytes);
            } else {
                assert(now[found] == entries[found]);
                assert(entries[at].bytes != entries[found].bytes);
            }
        }
    } else {
        if found != entries.len() {
            assert(now[found] == entries[found]);
        }
    }
}

/// After `with_id` the identifiers are distinct still, and `id` is found with `bytes`.
pub proof fn lemma_with_id(entries: Seq<Pattern>, bytes: Seq<u8>, id: u16)
    requires
        distinct_ids(entries),
    ensures
        distinct_ids(with_id(entries, bytes, id)),
        position_of_id(with_id(entries, bytes, id), id, with_id(entries, bytes, id).len() as int) >= 0,
        with_id(entries, bytes, id)[position_of_id(
            with_id(entries, bytes, id),
            id,
            with_id(entries, bytes, id).len() as int,
        )].bytes == bytes,
{
    let now = with_id(entries, bytes, id);
    let at = position_of_id(entries, id, entries.len() as int);
    lemma_position_of_id(entries, id, entries.len() as int);
    lemma_position_of_id(now, id, now.len() as int);
    let found = position_of_id(now, id, now.len() as int);
    if at >= 0 {
        assert(now[at].id == id);
    } else {
        assert(now[entries.len() as int].id == id);
    }
    assert(found >= 0);
    assert(now[found].id == id);
    if at >= 0 {
        if found != at {
            if found < at {
                assert(entries[found].id == id);
            } else {
                assert(now[found] == entries[found]);
                assert(entries[at].id != entries[found].id);
            }
        }
    } else {
        if found != entries.len() {
            assert(now[found] == entries[found]);
        }
    }
}

/// Whether two byte sequences are the same.
fn same_bytes(a: &[u8], b: &[u8]) -> (same: bool)
    ensures
        same == (a@ == b@),
{
    if a.len() != b.len() {
        return false;
    }
    let mut i: usize = 0;
    while i < a.len()
        invariant
            i <= a@.len(),
            a@.len() == b@.len(),
            forall|j: int| 0 <= j < i ==> a@[j] == b@[j],
        decreases a@.len() - i,
    {
        if a[i] != b[i] {
            return false;
        }
        i += 1;
    }
    assert(a@ =~= b@);
    true
}

/// The first entry that holds `pattern`.
fn find_pattern(entries: &Vec<PatternEntry>, pattern: &[u8]) -> (found: Option<usize>)
    ensures
        match found {
            Some(at) => at < entries@.len() && entries@[at as int].pattern@ == pattern@ && at == position_of(
                patterns_of(entries@),
                pattern@,
                entries@.len() as int,
            ),
            None => position_of(patterns_of(entries@), pattern@, entries@.len() as int) < 0,
        },
{
    let mut i: usize = 0;
    while i < entries.len()
        invariant
            i <= entries@.len(),
            position_of(patterns_of(entries@), pattern@, i as int) < 0,
        decreases entries@.len() - i,
    {
        if same_bytes(entries[i].pattern.as_slice(), pattern) {
            proof {
                lemma_position_found(patterns_of(entries@), pattern@, i as int, entries@.len() as int);
            }
            return Some(i);
        }
        i += 1;
    }
    None
}

/// The first entry that holds `id`.
fn find_id(entries: &Vec<PatternEntry>, id: u16) -> (found: Option<usize>)
    ensures
        match found {
            Some(at) => at < entries@.len() && entries@[at as int].id == id && at == position_of_id(
                patterns_of(entries@),
                id,
                entries@.len() as int,
            ),
            None => position_of_id(patterns_of(entries@), id, entries@.len() as int) < 0,
        },
{
    let mut i: usize = 0;
    while i < entries.len()
        invariant
            i <= entries@.len(),
            position_of_id(patterns_of(entries@), id, i as int) < 0,
        decreases entries@.len() - i,
    {
        if entries[i].id == id {
            proof {
                lemma_id_found(patterns_of(entries@), id, i as int, entries@.len() as int);
            }
            return Some(i);
        }
        i += 1;
    }
    None
}

/// A position found among the first entries is found among all.
proof fn lemma_position_found(entries: Seq<Pattern>, bytes: Seq<u8>, at: int, n: int)
    requires
        0 <= at < n <= entries.len(),
        position_of(entries, bytes, at) < 0,
        entries[at].bytes == bytes,
    ensures
        position_of(entries, bytes, n) == at,
    decreases n - at,
{
    if n > at + 1 {
        lemma_position_found(entries, bytes, at, n - 1);
    }
}

/// A position found among the first entries is found among all.
proof fn lemma_id_found(entries: Seq<Pattern>, id: u16, at: int, n: int)
    requires
        0 <= at < n <= entries.len(),
        position_of_id(entries, id, at) < 0,
        entries[at].id == id,
    ensures
        position_of_id(entries, id, n) == at,
    decreases n - at,
{
    if n > at + 1 {
        lemma_id_found(entries, id, at, n - 1);
    }
}

/// Whether `pattern` stands in `data` at `at`.
pub open spec fn occurs_at(data: Seq<u8>, at: int, pattern: Seq<u8>) -> bool {
    0 <= at && at + pattern.len() <= data.len() && data.subrange(at, at + pattern.len()) == pattern
}

/// Whether the coder can write the identifier of `entry`: its low byte is
/// not zero, which after the escape byte reads as the byte `0xFF`, and it
/// has the pattern of `entry` among `reverse`. The patterns of the
/// identifiers 256, 512 and so on are coded byte by byte.
pub open spec fn usable(reverse: Seq<Pattern>, entry: Pattern) -> bool {
    entry.id % 256 != 0 && pattern_lookup(reverse, entry.id) == Some(entry.bytes)
}

/// The position, among the first `n` entries, of the longest pattern that
/// stands in `data` at `at` and whose identifier the coder can write, or `-1`
/// where none of at least one byte does.
pub open spec fn longest_pattern(entries: Seq<Pattern>, reverse: Seq<Pattern>, data: Seq<u8>, at: int, n: int) -> int
    decreases n,
{
    if n <= 0 {
        -1
    } else {
        let before = longest_pattern(entries, reverse, data, at, n - 1);
        let length: int = if before >= 0 { entries[before].bytes.len() as int } else { 0 };
        if occurs_at(data, at, entries[n - 1].bytes) && entries[n - 1].bytes.len() > length && usable(
            reverse,
            entries[n - 1],
        ) {
            n - 1
        } else {
            before
        }
    }
}

/// What the longest pattern is, lies among the entries.
pub proof fn lemma_longest_pattern(entries: Seq<Pattern>, reverse: Seq<Pattern>, data: Seq<u8>, at: int, n: int)
    requires
        0 <= n <= entries.len(),
    ensures
        -1 <= longest_pattern(entries, reverse, data, at, n) < n,
        longest_pattern(entries, reverse, data, at, n) >= 0 ==> occurs_at(
            data,
            at,
            entries[longest_pattern(entries, reverse, data, at, n)].bytes,
        ) && entries[longest_pattern(entries, reverse, data, at, n)].bytes.len() > 0 && usable(
            reverse,
            entries[longest_pattern(entries, reverse, data, at, n)],
        ),
    decreases n,
{
    if n > 0 {
        lemma_longest_pattern(entries, reverse, data, at, n - 1);
    }
}

/// The coding of the bytes of `data` from `at` on with the patterns `entries`
/// and the identifiers `reverse`: the longest pattern that stands at a
/// position and whose identifier the coder can write, if it has more than two
/// bytes, becomes `0xFF` and its identifier, low byte first; the byte `0xFF`
/// becomes `0xFF 0x00`; any other byte stays.
pub open spec fn encoded_with(entries: Seq<Pattern>, reverse: Seq<Pattern>, data: Seq<u8>, at: int) -> Seq<u8>
    decreases data.len() - at,
{
    if at >= data.len() || at < 0 {
        Seq::<u8>::empty()
    } else {
        let best = longest_pattern(entries, reverse, data, at, entries.len() as int);
        if 0 <= best < entries.len() && entries[best].bytes.len() > 2 && at + entries[best].bytes.len()
            <= data.len() {
            seq![0xFFu8] + u16_bytes(entries[best].id) + encoded_with(
                entries,
                reverse,
                data,
                at + entries[best].bytes.len(),
            )
        } else if data[at] == 0xFF {
            seq![0xFFu8, 0u8] + encoded_with(entries, reverse, data, at + 1)
        } else {
            seq![data[at]] + encoded_with(entries, reverse, data, at + 1)
        }
    }
}

/// `head` before `rest`, where there is a rest.
pub open spec fn before(head: Seq<u8>, rest: Option<Seq<u8>>) -> Option<Seq<u8>> {
    match rest {
        Some(tail) => Some(head + tail),
        None => None,
    }
}

/// The decoding of `s` with the identifiers `entries`: `0xFF 0x00` is the byte
/// `0xFF`; `0xFF` before two other bytes is the pattern of the identifier that
/// they hold, low byte first; `0xFF` before fewer bytes, and any other byte,
/// stands for itself. `None` where an identifier has no pattern.
pub open spec fn decoded_with(entries: Seq<Pattern>, s: Seq<u8>) -> Option<Seq<u8>>
    decreases s.len(),
{
    if s.len() == 0 {
        Some(Seq::<u8>::empty())
    } else if s[0] == 0xFF && s.len() >= 2 && s[1] == 0 {
        before(seq![0xFFu8], decoded_with(entries, s.skip(2)))
    } else if s[0] == 0xFF && s.len() >= 3 {
        let at = position_of_id(entries, u16_at(s, 1), entries.len() as int);
        if at >= 0 {
            before(entries[at].bytes, decoded_with(entries, s.skip(3)))
        } else {
            None
        }
    } else {
        before(seq![s[0]], decoded_with(entries, s.skip(1)))
    }
}

/// Whether `pattern` stands in `data` at `at`.
fn pattern_at(data: &[u8], at: usize, pattern: &[u8]) -> (found: bool)
    requires
        at <= data@.len(),
    ensures
        found == occurs_at(data@, at as int, pattern@),
{
    if pattern.len() > data.len() - at {
        return false;
    }
    same_bytes(slice_subrange(data, at, at + pattern.len()), pattern)
}

/// Whether the coder can write the identifier of the pattern at `k`.
fn can_write(dict: &Dictionary, k: usize) -> (yes: bool)
    requires
        k < dict.patterns().len(),
    ensures
        yes == usable(dict.reverse_patterns(), dict.patterns()[k as int]),
{
    let entry = &dict.patterns[k];
    if entry.id % 256 == 0 {
        return false;
    }
    match dict.pattern(entry.id) {
        Some(bytes) => same_bytes(bytes.as_slice(), entry.pattern.as_slice()),
        None => false,
    }
}

/// Replaces the patterns of `dict` in `data` by their identifiers. It never
/// fails, and what it returns decodes to `data`.
///
/// A pattern is replaced only where decoding gives it back: its identifier
/// has a low byte that is not zero and names this pattern in `dict`.
pub fn encode_with_dictionary(data: &[u8], dict: &Dictionary) -> (result: Result<Vec<u8>, HlcError>)
    ensures
        result is Ok,
        result->Ok_0@ == encoded_with(dict.patterns(), dict.reverse_patterns(), data@, 0),
        decoded_with(dict.reverse_patterns(), result->Ok_0@) == Some(data@),
{
    proof {
        lemma_dictionary_coding_roundtrip(dict.patterns(), dict.reverse_patterns(), data@, 0);
        assert(data@.skip(0) =~= data@);
    }
    let n: usize = data.len();
    let mut result: Vec<u8> = Vec::new();
    let mut i: usize = 0;
    let ghost entries = dict.patterns();
    let ghost reverse = dict.reverse_patterns();
    let ghost whole = encoded_with(entries, reverse, data@, 0);
    proof {
        assert(result@ + whole =~= whole);
    }
    while i < n
        invariant
            n == data@.len(),
            i <= n,
            entries == dict.patterns(),
            reverse == dict.reverse_patterns(),
            result@ + encoded_with(entries, reverse, data@, i as int) == whole,
        decreases n - i,
    {
        let mut best: Option<usize> = None;
        let mut best_len: usize = 0;
        let mut k: usize = 0;
        while k < dict.patterns.len()
            invariant
                n == data@.len(),
                i < n,
                k <= dict.patterns@.len(),
                entries == dict.patterns(),
                reverse == dict.reverse_patterns(),
                match best {
                    Some(b) => b < k && b == longest_pattern(entries, reverse, data@, i as int, k as int)
                        && best_len == entries[b as int].bytes.len() && best_len > 0 && best_len <= n - i,
                    None => longest_pattern(entries, reverse, data@, i as int, k as int) < 0 && best_len == 0,
                },
            decreases dict.patterns@.len() - k,
        {
            let pattern = &dict.patterns[k].pattern;
            if pattern.len() > best_len && pattern_at(data, i, pattern.as_slice()) && can_write(dict, k) {
                best = Some(k);
                best_len = pattern.len();
            }
            k += 1;
        }
        let ghost before_push = result@;
        match best {
            Some(b) => {
                if best_len > 2 {
                    result.push(0xFF);
                    push_u16(&mut result, dict.patterns[b].id);
                    proof {
                        let rest = encoded_with(entries, reverse, data@, i + best_len);
                        assert(result@ + rest =~= before_push + (seq![0xFFu8] + u16_bytes(entries[b as int].id)
                            + rest));
                    }
                    i += best_len;
                    continue ;
                }
            },
            None => {},
        }
        proof {
            let rest = encoded_with(entries, reverse, data@, i + 1);
            if data@[i as int] == 0xFF {
                assert(before_push.push(0xFFu8).push(0u8) + rest =~= before_push + (seq![0xFFu8, 0u8] + rest));
            } else {
                assert(before_push.push(data@[i as int]) + rest =~= before_push + (seq![data@[i as int]] + rest));
            }
        }
        if data[i] == 0xFF {
            result.push(0xFF);
            result.push(0x00);
        } else {
            result.push(data[i]);
        }
        i += 1;
    }
    proof {
        assert(result@ + Seq::<u8>::empty() =~= result@);
    }
    Ok(result)
}

/// Replaces the identifiers in `data` by their patterns in `dict`. Fails with a
/// decompression error exactly where an identifier has no pattern.
pub fn decode_with_dictionary(data: &[u8], dict: &Dictionary) -> (result: Result<Vec<u8>, HlcError>)
    ensures
        match decoded_with(dict.reverse_patterns(), data@) {
            Some(decoded) => result is Ok && result->Ok_0@ == decoded,
            None => result is Err && result->Err_0 is DecompressionError,
        },
{
    let n: usize = data.len();
    let mut result: Vec<u8> = Vec::new();
    let mut i: usize = 0;
    let ghost entries = dict.reverse_patterns();
    let ghost whole = decoded_with(entries, data@);
    proof {
        assert(data@.skip(0) =~= data@);
        if whole is Some {
            assert(result@ + whole->Some_0 =~= whole->Some_0);
        }
    }
    while i < n
        invariant
            n == data@.len(),
            i <= n,
            entries == dict.reverse_patterns(),
            whole == decoded_with(entries, data@),
            before(result@, decoded_with(entries, data@.skip(i as int))) == whole,
        decreases n - i,
    {
        let ghost rest = data@.skip(i as int);
        let ghost done = result@;
        proof {
            assert(rest[0] == data@[i as int]);
            if n - i >= 2 {
                assert(rest[1] == data@[i + 1]);
            }
            if n - i >= 3 {
                assert(rest[2] == data@[i + 2]);
            }
        }
        if data[i] == 0xFF && n - i >= 2 && data[i + 1] == 0x00 {
            result.push(0xFF);
            proof {
                assert(rest.skip(2) =~= data@.skip(i + 2));
                let tail = decoded_with(entries, rest.skip(2));
                if tail is Some {
                    assert(done.push(0xFFu8) + tail->Some_0 =~= done + (seq![0xFFu8] + tail->Some_0));
                }
            }
            i += 2;
        } else if data[i] == 0xFF && n - i >= 3 {
            let id: u16 = read_u16(data, i + 1);
            proof {
                assert(u16_at(rest, 1) == id);
                assert(rest.skip(3) =~= data@.skip(i + 3));
            }
            match find_id(&dict.reverse_patterns, id) {
                Some(at) => {
                    append(&mut result, dict.reverse_patterns[at].pattern.as_slice());
                    proof {
                        let tail = decoded_with(entries, rest.skip(3));
                        if tail is Some {
                            assert(result@ + tail->Some_0 =~= done + (entries[at as int].bytes + tail->Some_0));
                        }
                    }
                },
                None => {
                    proof {
                        assert(entries.len() == dict.reverse_patterns@.len());
                        assert(decoded_with(entries, rest) is None);
                    }
                    return Err(
                        HlcError::DecompressionError(with_number("Unknown dictionary pattern ID: ", id as u64)),
                    );
                },
            }
            i += 3;
        } else {
            result.push(data[i]);
            proof {
                assert(rest.skip(1) =~= data@.skip(i + 1));
                let tail = decoded_with(entries, rest.skip(1));
                if tail is Some {
                    assert(done.push(rest[0]) + tail->Some_0 =~= done + (seq![rest[0]] + tail->Some_0));
                }
            }
            i += 1;
        }
    }
    proof {
        assert(data@.skip(i as int).len() == 0);
        assert(result@ + Seq::<u8>::empty() =~= result@);
    }
    Ok(result)
}

/// The bytes of an entry in storage: the identifier, the length of the
/// pattern, both as 16-bit numbers, and the pattern.
pub open spec fn entry_bytes(entry: Pattern) -> Seq<u8> {
    u16_bytes(entry.id) + u16_bytes(entry.bytes.len() as u16) + entry.bytes
}

/// The bytes of the entries in a row.
pub open spec fn entries_bytes(entries: Seq<Pattern>) -> Seq<u8>
    decreases entries.len(),
{
    if entries.len() == 0 {
        Seq::<u8>::empty()
    } else {
        entry_bytes(entries[0]) + entries_bytes(entries.skip(1))
    }
}

/// The bytes of a dictionary in storage: the number of patterns as a 32-bit
/// number, then the entries.
pub open spec fn serialized(entries: Seq<Pattern>) -> Seq<u8> {
    u32_bytes(entries.len() as u32) + entries_bytes(entries)
}

/// Whether the entries fit the storage format: at most `u32::MAX` of them, with
/// patterns of at most `u16::MAX` bytes.
pub open spec fn fits_format(entries: Seq<Pattern>) -> bool {
    &&& entries.len() <= u32::MAX
    &&& forall|i: int| 0 <= i < entries.len() ==> (#[trigger] entries[i]).bytes.len() <= u16::MAX
}

/// The bytes of entries followed by one more entry.
pub proof fn lemma_entries_bytes_push(entries: Seq<Pattern>, last: Pattern)
    ensures
        entries_bytes(entries.push(last)) == entries_bytes(entries) + entry_bytes(last),
    decreases entries.len(),
{
    let all = entries.push(last);
    if entries.len() == 0 {
        assert(all.skip(1) =~= Seq::<Pattern>::empty());
        assert(entries_bytes(all.skip(1)) =~= Seq::<u8>::empty());
        assert(entries_bytes(all) =~= entries_bytes(entries) + entry_bytes(last));
    } else {
        lemma_entries_bytes_push(entries.skip(1), last);
        assert(all.skip(1) =~= entries.skip(1).push(last));
        assert(entries_bytes(all) =~= entries_bytes(entries) + entry_bytes(last));
    }
}

/// Writes the patterns of a dictionary with their identifiers as bytes. The
/// patterns must fit the storage format.
pub fn serialize_dictionary(dict: &Dictionary) -> (result: Vec<u8>)
    requires
        fits_format(dict.patterns()),
    ensures
        result@ == serialized(dict.patterns()),
{
    let mut result: Vec<u8> = Vec::new();
    let ghost entries = dict.patterns();
    push_u32(&mut result, dict.patterns.len() as u32);
    let mut i: usize = 0;
    proof {
        assert(entries.take(0) =~= Seq::<Pattern>::empty());
        assert(result@ =~= u32_bytes(entries.len() as u32) + entries_bytes(entries.take(0)));
    }
    while i < dict.patterns.len()
        invariant
            i <= dict.patterns@.len(),
            entries == dict.patterns(),
            fits_format(entries),
            result@ == u32_bytes(entries.len() as u32) + entries_bytes(entries.take(i as int)),
        decreases dict.patterns@.len() - i,
    {
        let entry = &dict.patterns[i];
        let ghost done = result@;
        proof {
            assert(entries[i as int] == entry@);
            assert(entries.take(i + 1) =~= entries.take(i as int).push(entry@));
            lemma_entries_bytes_push(entries.take(i as int), entry@);
        }
        push_u16(&mut result, entry.id);
        push_u16(&mut result, entry.pattern.len() as u16);
        append(&mut result, entry.pattern.as_slice());
        assert(result@ =~= done + entry_bytes(entry@));
        i += 1;
    }
    proof {
        assert(entries.take(i as int) =~= entries);
    }
    result
}

/// A dictionary as plain values.
pub struct DictionaryModel {
    pub patterns: Seq<Pattern>,
    pub reverse_patterns: Seq<Pattern>,
    pub next_id: u16,
}

/// The identifier after `id`, or 0 after the last one.
pub open spec fn successor(id: u16) -> u16 {
    if id == u16::MAX {
        0
    } else {
        (id + 1) as u16
    }
}

/// The model with one more entry read from storage: the pattern and the
/// identifier stand for each other, and the next identifier lies above `id`.
pub open spec fn model_with(model: DictionaryModel, bytes: Seq<u8>, id: u16) -> DictionaryModel {
    DictionaryModel {
        patterns: with_pattern(model.patterns, bytes, id),
        reverse_patterns: with_id(model.reverse_patterns, bytes, id),
        next_id: if successor(id) > model.next_id { successor(id) } else { model.next_id },
    }
}

/// What reading `count` entries from `b` at `at` into `model` gives, or
/// `None` where `b` ends inside an entry.
pub open spec fn parsed_entries(b: Seq<u8>, at: int, count: nat, model: DictionaryModel) -> Option<
    DictionaryModel,
>
    decreases count,
{
    if count == 0 {
        Some(model)
    } else if at < 0 || at + 4 > b.len() {
        None
    } else {
        let id = u16_at(b, at);
        let length = u16_at(b, at + 2);
        if at + 4 + length > b.len() {
            None
        } else {
            parsed_entries(
                b,
                at + 4 + length,
                (count - 1) as nat,
                model_with(model, b.subrange(at + 4, at + 4 + length), id),
            )
        }
    }
}

/// What reading a dictionary from `b` gives, or `None` where `b` is too short.
pub open spec fn parsed_dictionary(b: Seq<u8>) -> Option<DictionaryModel> {
    if b.len() < 4 {
        None
    } else {
        parsed_entries(
            b,
            4,
            u32_at(b, 0) as nat,
            DictionaryModel {
                patterns: Seq::<Pattern>::empty(),
                reverse_patterns: Seq::<Pattern>::empty(),
                next_id: 256,
            },
        )
    }
}

impl Dictionary {
    /// The dictionary as plain values.
    pub open spec fn model(self) -> DictionaryModel {
        DictionaryModel {
            patterns: self.patterns(),
            reverse_patterns: self.reverse_patterns(),
            next_id: self.next_id(),
        }
    }
}

/// Reads a dictionary from bytes. Entries are taken in order, a later one
/// replacing an earlier one with the same pattern or the same identifier. Fails
/// with a decompression error exactly where the bytes end too early.
pub fn deserialize_dictionary(data: &[u8]) -> (result: Result<Dictionary, HlcError>)
    ensures
        match parsed_dictionary(data@) {
            Some(model) => result is Ok && result->Ok_0.model() == model && result->Ok_0.wf(),
            None => result is Err && result->Err_0 is DecompressionError,
        },
{
    let n: usize = data.len();
    if n < 4 {
        return Err(HlcError::DecompressionError("Invalid dictionary data".to_string()));
    }
    let mut dict = Dictionary::new();
    let pattern_count: u32 = read_u32(data, 0);
    let mut offset: usize = 4;
    let mut read: u32 = 0;
    assert(dict.model().patterns =~= Seq::<Pattern>::empty());
    assert(dict.model().reverse_patterns =~= Seq::<Pattern>::empty());
    while read < pattern_count
        invariant
            n == data@.len(),
            n >= 4,
            4 <= offset <= n,
            read <= pattern_count,
            pattern_count == u32_at(data@, 0),
            dict.wf(),
            parsed_entries(data@, offset as int, (pattern_count - read) as nat, dict.model())
                == parsed_dictionary(data@),
        decreases pattern_count - read,
    {
        if n - offset < 4 {
            return Err(HlcError::DecompressionError("Truncated dictionary data".to_string()));
        }
        let id: u16 = read_u16(data, offset);
        let pattern_len: usize = read_u16(data, offset + 2) as usize;
        offset += 4;
        if pattern_len > n - offset {
            return Err(HlcError::DecompressionError("Truncated dictionary pattern".to_string()));
        }
        let pattern = slice_subrange(data, offset, offset + pattern_len);
        offset += pattern_len;
        let ghost before_insert = dict.model();
        dict.insert(pattern, id);
        let next: u16 = if id == u16::MAX { 0 } else { id + 1 };
        if next > dict.next_id {
            dict.next_id = next;
        }
        assert(dict.model() == model_with(before_insert, pattern@, id));
        read += 1;
    }
    Ok(dict)
}

/// Reading the entries of storage puts distinct patterns behind those read before.
pub proof fn lemma_parsed_entries(
    front: Seq<u8>,
    entries: Seq<Pattern>,
    model: DictionaryModel,
    done: Seq<Pattern>,
)
    requires
        fits_format(entries),
        distinct_patterns(done + entries),
        model.patterns == done,
    ensures
        parsed_entries(front + entries_bytes(entries), front.len() as int, entries.len(), model) is Some,
        parsed_entries(front + entries_bytes(entries), front.len() as int, entries.len(), model)->Some_0.patterns
            == done + entries,
    decreases entries.len(),
{
    let b = front + entries_bytes(entries);
    let at = front.len() as int;
    if entries.len() == 0 {
        assert(done + entries =~= done);
    } else {
        let first = entries[0];
        let rest = entries.skip(1);
        let i = u16_bytes(first.id);
        let l = u16_bytes(first.bytes.len() as u16);
        let tail = entries_bytes(rest);
        crate::endian::lemma_u16_roundtrip(first.id);
        crate::endian::lemma_u16_roundtrip(first.bytes.len() as u16);
        assert(b =~= front + i + l + first.bytes + tail);
        assert(b[at] == i[0] && b[at + 1] == i[1]);
        assert(b[at + 2] == l[0] && b[at + 3] == l[1]);
        assert(u16_at(b, at) == first.id);
        assert(u16_at(b, at + 2) == first.bytes.len());
        assert(b.subrange(at + 4, at + 4 + first.bytes.len()) =~= first.bytes);
        let next_model = model_with(model, first.bytes, first.id);
        assert(position_of(done, first.bytes, done.len() as int) < 0) by {
            lemma_position_of(done, first.bytes, done.len() as int);
            let found = position_of(done, first.bytes, done.len() as int);
            if found >= 0 {
                assert((done + entries)[found] == done[found]);
                assert((done + entries)[done.len() as int] == first);
            }
        }
        assert(next_model.patterns == done.push(first));
        let next_front = front + entry_bytes(first);
        assert(b =~= next_front + entries_bytes(rest));
        assert(done.push(first) + rest =~= done + entries);
        assert forall|k: int| 0 <= k < rest.len() implies (#[trigger] rest[k]).bytes.len() <= u16::MAX by {
            assert(rest[k] == entries[k + 1]);
        }
        lemma_parsed_entries(next_front, rest, next_model, done.push(first));
    }
}

/// Reading what was written gives the patterns back with their identifiers,
/// provided no pattern stands twice and all fit the storage format.
pub proof fn lemma_dictionary_serialization(entries: Seq<Pattern>)
    requires
        fits_format(entries),
        distinct_patterns(entries),
    ensures
        parsed_dictionary(serialized(entries)) is Some,
        parsed_dictionary(serialized(entries))->Some_0.patterns == entries,
{
    let head = u32_bytes(entries.len() as u32);
    let b = serialized(entries);
    let none = Seq::<Pattern>::empty();
    crate::endian::lemma_u32_roundtrip(entries.len() as u32);
    assert(u32_at(b, 0) == entries.len()) by {
        assert(b[0] == head[0] && b[1] == head[1] && b[2] == head[2] && b[3] == head[3]);
    }
    assert(none + entries =~= entries);
    lemma_parsed_entries(
        head,
        entries,
        DictionaryModel { patterns: none, reverse_patterns: none, next_id: 256 },
        none,
    );
}

/// Positions depend on the bytes of the entries alone.
proof fn lemma_position_same_bytes(a: Seq<Pattern>, b: Seq<Pattern>, bytes: Seq<u8>, n: int)
    requires
        0 <= n <= a.len(),
        n <= b.len(),
        forall|i: int| 0 <= i < n ==> (#[trigger] a[i]).bytes == b[i].bytes,
    ensures
        position_of(a, bytes, n) == position_of(b, bytes, n),
    decreases n,
{
    if n > 0 {
        lemma_position_same_bytes(a, b, bytes, n - 1);
    }
}

/// Positions depend on the identifiers of the entries alone.
proof fn lemma_position_same_ids(a: Seq<Pattern>, b: Seq<Pattern>, id: u16, n: int)
    requires
        0 <= n <= a.len(),
        n <= b.len(),
        forall|i: int| 0 <= i < n ==> (#[trigger] a[i]).id == b[i].id,
    ensures
        position_of_id(a, id, n) == position_of_id(b, id, n),
    decreases n,
{
    if n > 0 {
        lemma_position_same_ids(a, b, id, n - 1);
    }
}

/// The identifier of `bytes` among the entries.
pub open spec fn id_lookup(entries: Seq<Pattern>, bytes: Seq<u8>) -> Option<u16> {
    let at = position_of(entries, bytes, entries.len() as int);
    if at >= 0 {
        Some(entries[at].id)
    } else {
        None
    }
}

/// The pattern of `id` among the entries.
pub open spec fn pattern_lookup(entries: Seq<Pattern>, id: u16) -> Option<Seq<u8>> {
    let at = position_of_id(entries, id, entries.len() as int);
    if at >= 0 {
        Some(entries[at].bytes)
    } else {
        None
    }
}

/// `with_pattern` changes the identifier of no other pattern.
pub proof fn lemma_with_pattern_other(entries: Seq<Pattern>, bytes: Seq<u8>, id: u16, other: Seq<u8>)
    requires
        other != bytes,
    ensures
        id_lookup(with_pattern(entries, bytes, id), other) == id_lookup(entries, other),
{
    let now = with_pattern(entries, bytes, id);
    let n = entries.len() as int;
    let at = position_of(entries, bytes, n);
    lemma_position_of(entries, bytes, n);
    lemma_position_of(entries, other, n);
    lemma_position_same_bytes(now, entries, other, n);
    if at < 0 {
        assert(now[n].bytes == bytes);
    }
}

/// `with_id` changes the pattern of no other identifier.
pub proof fn lemma_with_id_other(entries: Seq<Pattern>, bytes: Seq<u8>, id: u16, other: u16)
    requires
        other != id,
    ensures
        pattern_lookup(with_id(entries, bytes, id), other) == pattern_lookup(entries, other),
{
    let now = with_id(entries, bytes, id);
    let n = entries.len() as int;
    let at = position_of_id(entries, id, n);
    lemma_position_of_id(entries, id, n);
    lemma_position_of_id(entries, other, n);
    lemma_position_same_ids(now, entries, other, n);
    if at < 0 {
        assert(now[n].id == id);
    }
}

/// Whether `pattern` stands in `data` at two positions at least.
pub open spec fn occurs_twice(data: Seq<u8>, pattern: Seq<u8>) -> bool {
    exists|p: int, q: int|
        #![trigger occurs_at(data, p, pattern), occurs_at(data, q, pattern)]
        p < q && occurs_at(data, p, pattern) && occurs_at(data, q, pattern)
}

/// The longest pattern that `build_from_data` looks at.
pub const LONGEST_PATTERN: usize = 8;

/// The number of positions under `n` at which `pattern` stands in `data`.
pub open spec fn places(data: Seq<u8>, pattern: Seq<u8>, n: int) -> nat
    decreases n,
{
    if n <= 0 {
        0
    } else {
        places(data, pattern, n - 1) + if occurs_at(data, n - 1, pattern) {
            1nat
        } else {
            0nat
        }
    }
}

/// The number of positions at which `pattern` stands in `data`.
pub open spec fn frequency(data: Seq<u8>, pattern: Seq<u8>) -> nat {
    places(data, pattern, data.len() as int + 1)
}

/// The pattern that `id` names, or no bytes where it names none.
pub open spec fn pattern_named(model: DictionaryModel, id: u16) -> Seq<u8> {
    match pattern_lookup(model.reverse_patterns, id) {
        Some(bytes) => bytes,
        None => Seq::<u8>::empty(),
    }
}

/// Whether the step from `before` to `after` gave an identifier to `pattern`.
pub open spec fn learned_here(before: DictionaryModel, after: DictionaryModel, pattern: Seq<u8>) -> bool {
    exists|id: u16|
        before.next_id <= id < after.next_id && #[trigger] pattern_lookup(after.reverse_patterns, id) == Some(
            pattern,
        )
}

/// Whether `id` is an identifier that `build_from_data` gave to a pattern of
/// `data`: a pattern of `min` to 8 bytes that stands in `data` twice at least,
/// and that has this identifier in turn.
pub open spec fn names_repeat(model: DictionaryModel, data: Seq<u8>, min: usize, id: u16) -> bool {
    match pattern_lookup(model.reverse_patterns, id) {
        Some(bytes) => min <= bytes.len() <= LONGEST_PATTERN && occurs_twice(data, bytes) && frequency(data, bytes)
            >= 2 && id_lookup(model.patterns, bytes) == Some(id),
        None => false,
    }
}

/// What `build_from_data` does to a dictionary.
///
/// It gives the identifiers from the old next one up to the new next one, at
/// most `max_patterns` of them, to patterns of `min` to 8 bytes that stand in
/// `data` twice at least, and leaves the patterns of all other identifiers as
/// they are. The patterns that stand in `data` most often are learned, in the
/// order of falling frequency: no pattern that was left out stands there more
/// often than one that was learned. Every repeated pattern is learned unless
/// `max_patterns` or the 16 bits of the identifiers are used up. Which of the
/// patterns of one frequency come first is left open. Data shorter than `min`
/// changes nothing.
pub open spec fn built_from(
    before: DictionaryModel,
    after: DictionaryModel,
    data: Seq<u8>,
    min: usize,
    max_patterns: usize,
) -> bool {
    &&& distinct_patterns(after.patterns) && distinct_ids(after.reverse_patterns)
    &&& before.next_id <= after.next_id
    &&& after.next_id - before.next_id <= max_patterns
    &&& forall|id: u16| before.next_id <= id < after.next_id ==> #[trigger] names_repeat(after, data, min, id)
    &&& forall|id: u16|
        !(before.next_id <= id < after.next_id) ==> #[trigger] pattern_lookup(after.reverse_patterns, id)
            == pattern_lookup(before.reverse_patterns, id)
    &&& forall|a: u16, b: u16|
        before.next_id <= a <= b < after.next_id ==> frequency(data, #[trigger] pattern_named(after, a))
            >= frequency(data, #[trigger] pattern_named(after, b))
    &&& forall|id: u16, pattern: Seq<u8>|
        #![trigger pattern_named(after, id), frequency(data, pattern)]
        before.next_id <= id < after.next_id && min <= pattern.len() <= LONGEST_PATTERN && !learned_here(
            before,
            after,
            pattern,
        ) ==> frequency(data, pattern) <= frequency(data, pattern_named(after, id))
    &&& after.next_id - before.next_id < max_patterns && after.next_id < u16::MAX ==> forall|pattern: Seq<u8>|
        min <= pattern.len() <= LONGEST_PATTERN && #[trigger] frequency(data, pattern) >= 2 ==> learned_here(
            before,
            after,
            pattern,
        )
    &&& data.len() < min ==> after == before
}

/// A pattern does not stand at more positions than there are.
proof fn lemma_places_bound(data: Seq<u8>, pattern: Seq<u8>, n: int)
    requires
        0 <= n,
    ensures
        places(data, pattern, n) <= n,
    decreases n,
{
    if n > 0 {
        lemma_places_bound(data, pattern, n - 1);
    }
}

/// A pattern stands at no position from which it would reach over the end.
proof fn lemma_places_beyond(data: Seq<u8>, pattern: Seq<u8>, m: int, k: int)
    requires
        0 <= m <= k,
        m + pattern.len() > data.len(),
    ensures
        places(data, pattern, k) == places(data, pattern, m),
    decreases k - m,
{
    if m < k {
        lemma_places_beyond(data, pattern, m, k - 1);
    }
}

/// A pattern of the data with the number of places where it stands.
struct CountedPattern {
    pattern: Vec<u8>,
    count: u128,
    taken: bool,
}

/// The number of places of `pattern` that the counting has passed when it
/// stands before the pattern of `length` bytes at `at`.
spec fn seen(data: Seq<u8>, pattern: Seq<u8>, at: int, length: int) -> nat {
    places(data, pattern, at) + if occurs_at(data, at, pattern) && pattern.len() < length {
        1nat
    } else {
        0nat
    }
}

/// Whether `pattern` is among the counted patterns.
spec fn held(counts: Seq<CountedPattern>, pattern: Seq<u8>) -> bool {
    exists|k: int| 0 <= k < counts.len() && (#[trigger] counts[k]).pattern@ == pattern
}

/// The counted patterns are distinct, each stands in the data before `at` (or
/// at `at` with fewer than `length` bytes) and has the number of its places
/// there, and each pattern that stands there is counted.
spec fn counted(
    counts: Seq<CountedPattern>,
    first: Seq<int>,
    data: Seq<u8>,
    min: usize,
    at: int,
    length: int,
) -> bool {
    &&& first.len() == counts.len()
    &&& forall|i: int, j: int|
        0 <= i < j < counts.len() ==> (#[trigger] counts[i]).pattern@ != (#[trigger] counts[j]).pattern@
    &&& forall|i: int|
        0 <= i < counts.len() ==> {
            &&& min <= (#[trigger] counts[i]).pattern@.len() <= LONGEST_PATTERN
            &&& counts[i].count >= 1
            &&& occurs_at(data, first[i], counts[i].pattern@)
            &&& (first[i] < at || (first[i] == at && counts[i].pattern@.len() < length))
            &&& counts[i].count >= 2 ==> occurs_twice(data, counts[i].pattern@)
            &&& counts[i].count == seen(data, counts[i].pattern@, at, length)
        }
    &&& forall|pattern: Seq<u8>|
        min <= pattern.len() <= LONGEST_PATTERN && seen(data, pattern, at, length) >= 1 ==> #[trigger] held(
            counts,
            pattern,
        )
}

/// Counts the pattern of `length` bytes at `at`.
fn count_pattern(
    counts: &mut Vec<CountedPattern>,
    Ghost(first): Ghost<Seq<int>>,
    data: &[u8],
    min: usize,
    at: usize,
    length: usize,
) -> (now: Ghost<Seq<int>>)
    requires
        counted(old(counts)@, first, data@, min, at as int, length as int),
        at + length <= data@.len(),
        min <= length <= LONGEST_PATTERN,
        forall|i: int| 0 <= i < old(counts)@.len() ==> !(#[trigger] old(counts)@[i]).taken,
    ensures
        counted(final(counts)@, now@, data@, min, at as int, length + 1),
        forall|i: int| 0 <= i < final(counts)@.len() ==> !(#[trigger] final(counts)@[i]).taken,
{
    let n: usize = data.len();
    assert(at + length <= n);
    let pattern = slice_subrange(data, at, at + length);
    let ghost before = counts@;
    let mut k: usize = 0;
    assert(occurs_at(data@, at as int, pattern@));
    while k < counts.len()
        invariant
            k <= counts@.len(),
            counts@ == before,
            counted(before, first, data@, min, at as int, length as int),
            occurs_at(data@, at as int, pattern@),
            pattern@.len() == length,
            min <= length <= LONGEST_PATTERN,
            forall|i: int| 0 <= i < before.len() ==> !(#[trigger] before[i]).taken,
            forall|i: int| 0 <= i < k ==> (#[trigger] counts@[i]).pattern@ != pattern@,
        decreases counts@.len() - k,
    {
        if same_bytes(counts[k].pattern.as_slice(), pattern) {
            let entry = &counts[k];
            proof {
                lemma_places_bound(data@, pattern@, at as int);
            }
            let count: u128 = entry.count + 1;
            let updated = CountedPattern { pattern: slice_to_vec(pattern), count, taken: false };
            proof {
                assert(occurs_at(data@, first[k as int], pattern@));
                assert(occurs_at(data@, at as int, pattern@));
                assert(first[k as int] < at);
                assert(occurs_twice(data@, pattern@));
            }
            counts[k] = updated;
            proof {
                assert forall|i: int, j: int| 0 <= i < j < counts@.len() implies (#[trigger] counts@[i]).pattern@
                    != (#[trigger] counts@[j]).pattern@ by {
                    assert(counts@[i].pattern@ == before[i].pattern@);
                    assert(counts@[j].pattern@ == before[j].pattern@);
                }
                assert forall|i: int| 0 <= i < counts@.len() implies {
                    &&& min <= (#[trigger] counts@[i]).pattern@.len() <= LONGEST_PATTERN
                    &&& counts@[i].count >= 1
                    &&& occurs_at(data@, first[i], counts@[i].pattern@)
                    &&& (first[i] < at || (first[i] == at && counts@[i].pattern@.len() < length + 1))
                    &&& counts@[i].count >= 2 ==> occurs_twice(data@, counts@[i].pattern@)
                    &&& counts@[i].count == seen(data@, counts@[i].pattern@, at as int, length + 1)
                } by {
                    if i != k {
                        assert(counts@[i] == before[i]);
                        if i < k {
                            assert(before[i].pattern@ != before[k as int].pattern@);
                        } else {
                            assert(before[k as int].pattern@ != before[i].pattern@);
                        }
                        lemma_seen_other(data@, before[i].pattern@, pattern@, at as int, length as int);
                    } else {
                        lemma_seen_same(data@, pattern@, at as int);
                    }
                }
                assert forall|p: Seq<u8>|
                    min <= p.len() <= LONGEST_PATTERN && seen(data@, p, at as int, length + 1)
                        >= 1 implies #[trigger] held(counts@, p) by {
                    if p == pattern@ {
                        assert(counts@[k as int].pattern@ == p);
                    } else {
                        lemma_seen_other(data@, p, pattern@, at as int, length as int);
                        assert(held(before, p));
                        let w = choose|w: int| 0 <= w < before.len() && (#[trigger] before[w]).pattern@ == p;
                        assert(counts@[w].pattern@ == p);
                    }
                }
            }
            return Ghost(first);
        }
        k += 1;
    }
    counts.push(CountedPattern { pattern: slice_to_vec(pattern), count: 1, taken: false });
    let ghost now = first.push(at as int);
    proof {
        assert forall|i: int, j: int| 0 <= i < j < counts@.len() implies (#[trigger] counts@[i]).pattern@
            != (#[trigger] counts@[j]).pattern@ by {
            if j < before.len() {
                assert(counts@[i] == before[i] && counts@[j] == before[j]);
            } else {
                assert(counts@[i] == before[i]);
            }
        }
        if seen(data@, pattern@, at as int, length as int) >= 1 {
            assert(held(before, pattern@));
            let w = choose|w: int| 0 <= w < before.len() && (#[trigger] before[w]).pattern@ == pattern@;
            assert(counts@[w].pattern@ != pattern@);
        }
        assert forall|i: int| 0 <= i < counts@.len() implies {
            &&& min <= (#[trigger] counts@[i]).pattern@.len() <= LONGEST_PATTERN
            &&& counts@[i].count >= 1
            &&& occurs_at(data@, now[i], counts@[i].pattern@)
            &&& (now[i] < at || (now[i] == at && counts@[i].pattern@.len() < length + 1))
            &&& counts@[i].count >= 2 ==> occurs_twice(data@, counts@[i].pattern@)
            &&& counts@[i].count == seen(data@, counts@[i].pattern@, at as int, length + 1)
        } by {
            if i < before.len() {
                assert(counts@[i] == before[i]);
                lemma_seen_other(data@, before[i].pattern@, pattern@, at as int, length as int);
            } else {
                lemma_seen_same(data@, pattern@, at as int);
            }
        }
        assert forall|p: Seq<u8>|
            min <= p.len() <= LONGEST_PATTERN && seen(data@, p, at as int, length + 1) >= 1 implies #[trigger] held(
            counts@,
            p,
        ) by {
            if p == pattern@ {
                assert(counts@[before.len() as int].pattern@ == p);
            } else {
                lemma_seen_other(data@, p, pattern@, at as int, length as int);
                assert(held(before, p));
                let w = choose|w: int| 0 <= w < before.len() && (#[trigger] before[w]).pattern@ == p;
                assert(counts@[w].pattern@ == p);
            }
        }
    }
    Ghost(now)
}

/// Passing the pattern at `at` adds nothing to what was seen of another pattern.
proof fn lemma_seen_other(data: Seq<u8>, other: Seq<u8>, pattern: Seq<u8>, at: int, length: int)
    requires
        occurs_at(data, at, pattern),
        pattern.len() == length,
        other != pattern,
    ensures
        seen(data, other, at, length + 1) == seen(data, other, at, length),
{
    if occurs_at(data, at, other) && other.len() == length {
        assert(data.subrange(at, at + length) == other);
    }
}

/// Passing the pattern at `at` adds one to what was seen of it.
proof fn lemma_seen_same(data: Seq<u8>, pattern: Seq<u8>, at: int)
    requires
        occurs_at(data, at, pattern),
    ensures
        seen(data, pattern, at, pattern.len() as int + 1) == seen(data, pattern, at, pattern.len() as int) + 1,
{
}

/// Counts the patterns of `min` to 8 bytes that start at `at`.
fn count_patterns_at(
    counts: &mut Vec<CountedPattern>,
    Ghost(first): Ghost<Seq<int>>,
    data: &[u8],
    min: usize,
    at: usize,
) -> (now: Ghost<Seq<int>>)
    requires
        counted(old(counts)@, first, data@, min, at as int, 0),
        at <= data@.len(),
        forall|i: int| 0 <= i < old(counts)@.len() ==> !(#[trigger] old(counts)@[i]).taken,
    ensures
        counted(final(counts)@, now@, data@, min, at + 1, 0),
        forall|i: int| 0 <= i < final(counts)@.len() ==> !(#[trigger] final(counts)@[i]).taken,
{
    let n: usize = data.len();
    let most: usize = if n - at <= LONGEST_PATTERN { n - at } else { LONGEST_PATTERN };
    let mut length: usize = min;
    let mut first = Ghost(first);
    proof {
        assert forall|p: Seq<u8>| min <= p.len() implies seen(data@, p, at as int, 0) == #[trigger] seen(
            data@,
            p,
            at as int,
            min as int,
        ) by {}
        assert forall|p: Seq<u8>|
            min <= p.len() <= LONGEST_PATTERN && seen(data@, p, at as int, min as int) >= 1 implies #[trigger] held(
            counts@,
            p,
        ) by {
            assert(seen(data@, p, at as int, 0) >= 1);
        }
        assert(counted(counts@, first@, data@, min, at as int, length as int));
    }
    while length <= most
        invariant
            n == data@.len(),
            at <= n,
            most <= n - at,
            most <= LONGEST_PATTERN,
            most == n - at || most == LONGEST_PATTERN,
            min <= length,
            counted(counts@, first@, data@, min, at as int, length as int),
            forall|i: int| 0 <= i < counts@.len() ==> !(#[trigger] counts@[i]).taken,
        decreases most + 1 - length,
    {
        first = count_pattern(counts, first, data, min, at, length);
        length += 1;
    }
    proof {
        assert forall|p: Seq<u8>| p.len() <= LONGEST_PATTERN implies #[trigger] seen(data@, p, at + 1, 0) == seen(
            data@,
            p,
            at as int,
            length as int,
        ) by {}
        assert forall|p: Seq<u8>|
            min <= p.len() <= LONGEST_PATTERN && seen(data@, p, at + 1, 0) >= 1 implies #[trigger] held(
            counts@,
            p,
        ) by {
            assert(seen(data@, p, at as int, length as int) >= 1);
        }
        assert forall|i: int| 0 <= i < counts@.len() implies (#[trigger] counts@[i]).count == seen(
            data@,
            counts@[i].pattern@,
            at + 1,
            0,
        ) by {
            assert(counts@[i].pattern@.len() <= LONGEST_PATTERN);
        }
        assert(counted(counts@, first@, data@, min, at + 1, 0));
    }
    first
}

/// The number of patterns among the first `n` that were taken.
spec fn taken_count(counts: Seq<CountedPattern>, n: int) -> nat
    decreases n,
{
    if n <= 0 {
        0
    } else {
        taken_count(counts, n - 1) + if counts[n - 1].taken {
            1nat
        } else {
            0nat
        }
    }
}

/// As many patterns are taken as there are exactly where all are taken.
proof fn lemma_taken_count(counts: Seq<CountedPattern>, n: int)
    requires
        0 <= n <= counts.len(),
    ensures
        taken_count(counts, n) <= n,
        taken_count(counts, n) == n <==> (forall|l: int| 0 <= l < n ==> (#[trigger] counts[l]).taken),
    decreases n,
{
    if n > 0 {
        lemma_taken_count(counts, n - 1);
        if taken_count(counts, n) == n {
            assert forall|l: int| 0 <= l < n implies (#[trigger] counts[l]).taken by {}
        }
        if forall|l: int| 0 <= l < n ==> (#[trigger] counts[l]).taken {
            assert(counts[n - 1].taken);
        }
    }
}

/// Taking one more pattern makes one more of the taken.
proof fn lemma_taken_one_more(before: Seq<CountedPattern>, after: Seq<CountedPattern>, b: int, n: int)
    requires
        before.len() == after.len(),
        0 <= n <= before.len(),
        0 <= b < before.len(),
        !before[b].taken,
        after[b].taken,
        forall|l: int| 0 <= l < before.len() && l != b ==> (#[trigger] after[l]).taken == before[l].taken,
    ensures
        taken_count(after, n) == taken_count(before, n) + if b < n {
            1nat
        } else {
            0nat
        },
    decreases n,
{
    if n > 0 {
        lemma_taken_one_more(before, after, b, n - 1);
        if n - 1 != b {
            assert(after[n - 1].taken == before[n - 1].taken);
        }
    }
}

/// Whether the pattern at `k` has got an identifier.
spec fn owned(owner: Seq<int>, k: int) -> bool {
    exists|j: int| 0 <= j < owner.len() && #[trigger] owner[j] == k
}

/// The pattern counted most often among those not taken, the first of equals.
fn most_counted(counts: &Vec<CountedPattern>) -> (best: Option<usize>)
    ensures
        match best {
            Some(b) => b < counts@.len() && !counts@[b as int].taken && forall|l: int|
                0 <= l < counts@.len() && !(#[trigger] counts@[l]).taken ==> counts@[l].count
                    <= counts@[b as int].count,
            None => forall|l: int| 0 <= l < counts@.len() ==> (#[trigger] counts@[l]).taken,
        },
{
    let mut best: Option<usize> = None;
    let mut best_count: u128 = 0;
    let mut k: usize = 0;
    while k < counts.len()
        invariant
            k <= counts@.len(),
            match best {
                Some(b) => b < k && !counts@[b as int].taken && counts@[b as int].count == best_count
                    && forall|l: int|
                    0 <= l < k && !(#[trigger] counts@[l]).taken ==> counts@[l].count <= best_count,
                None => forall|l: int| 0 <= l < k ==> (#[trigger] counts@[l]).taken,
            },
        decreases counts@.len() - k,
    {
        if !counts[k].taken && (best.is_none() || counts[k].count > best_count) {
            best = Some(k);
            best_count = counts[k].count;
        }
        k += 1;
    }
    best
}

impl Dictionary {
    /// Learns patterns from `data`.
    ///
    /// All patterns of `min_pattern_length` to 8 bytes in `data` are counted.
    /// The `max_patterns` most frequent ones, of equal counts those seen first,
    /// are looked at in this order, and each that stands in `data` twice at
    /// least gets the next identifier, as long as identifiers are left. Data
    /// shorter than `min_pattern_length` changes nothing.
    pub fn build_from_data(&mut self, data: &[u8], min_pattern_length: usize, max_patterns: usize)
        requires
            old(self).wf(),
        ensures
            built_from(old(self).model(), final(self).model(), data@, min_pattern_length, max_patterns),
            final(self).wf(),
    {
        let n: usize = data.len();
        let min: usize = min_pattern_length;
        let ghost start_model = self.model();
        if n < min {
            proof {
                assert forall|pattern: Seq<u8>| min <= pattern.len() implies #[trigger] frequency(data@, pattern)
                    == 0 by {
                    lemma_places_beyond(data@, pattern, 0, n + 1);
                }
            }
            return;
        }
        let last: usize = n - min;
        let mut counts: Vec<CountedPattern> = Vec::new();
        let mut first: Ghost<Seq<int>> = Ghost(Seq::<int>::empty());
        let mut i: usize = 0;
        proof {
            assert forall|pattern: Seq<u8>| seen(data@, pattern, 0, 0) >= 1 implies #[trigger] held(
                counts@,
                pattern,
            ) by {}
        }
        while i < last
            invariant
                n == data@.len(),
                last <= n,
                i <= last,
                counted(counts@, first@, data@, min, i as int, 0),
                forall|k: int| 0 <= k < counts@.len() ==> !(#[trigger] counts@[k]).taken,
            decreases last - i,
        {
            first = count_patterns_at(&mut counts, first, data, min, i);
            i += 1;
        }
        first = count_patterns_at(&mut counts, first, data, min, last);
        proof {
            assert forall|pattern: Seq<u8>| min <= pattern.len() implies #[trigger] frequency(data@, pattern)
                == seen(data@, pattern, last + 1, 0) by {
                lemma_places_beyond(data@, pattern, last + 1, n + 1);
            }
            assert forall|k: int| 0 <= k < counts@.len() implies (#[trigger] counts@[k]).count == frequency(
                data@,
                counts@[k].pattern@,
            ) by {
                assert(min <= counts@[k].pattern@.len());
            }
            assert forall|pattern: Seq<u8>|
                min <= pattern.len() <= LONGEST_PATTERN && frequency(data@, pattern) >= 1 implies #[trigger] held(
                counts@,
                pattern,
            ) by {
                assert(seen(data@, pattern, last + 1, 0) >= 1);
            }
            lemma_taken_count(counts@, counts@.len() as int);
            lemma_none_taken(counts@, counts@.len() as int);
        }
        let rounds: usize = if max_patterns <= counts.len() { max_patterns } else { counts.len() };
        let start: u16 = self.next_id;
        let ghost mut owner: Seq<int> = Seq::<int>::empty();
        let mut round: usize = 0;
        while round < rounds
            invariant
                round <= rounds,
                rounds <= max_patterns,
                rounds <= counts@.len(),
                rounds == max_patterns || rounds == counts@.len(),
                start == start_model.next_id,
                start_model.reverse_patterns == old(self).reverse_patterns(),
                self.wf(),
                start <= self.next_id,
                self.next_id - start <= round,
                owner.len() == self.next_id - start,
                taken_count(counts@, counts@.len() as int) == round,
                forall|k: int, l: int|
                    0 <= k < l < counts@.len() ==> (#[trigger] counts@[k]).pattern@ != (
                    #[trigger] counts@[l]).pattern@,
                forall|k: int|
                    0 <= k < counts@.len() ==> min <= (#[trigger] counts@[k]).pattern@.len() <= LONGEST_PATTERN && (
                    counts@[k].count >= 2 ==> occurs_twice(data@, counts@[k].pattern@)) && counts@[k].count
                        == frequency(data@, counts@[k].pattern@),
                forall|pattern: Seq<u8>|
                    min <= pattern.len() <= LONGEST_PATTERN && frequency(data@, pattern) >= 1 ==> #[trigger] held(
                        counts@,
                        pattern,
                    ),
                forall|k: int, l: int|
                    0 <= k < counts@.len() && 0 <= l < counts@.len() && (#[trigger] counts@[k]).taken && !(
                    #[trigger] counts@[l]).taken ==> counts@[k].count >= counts@[l].count,
                forall|a: int, b: int|
                    0 <= a <= b < owner.len() ==> counts@[#[trigger] owner[a]].count >= counts@[#[trigger] owner[b]].count,
                self.next_id < u16::MAX ==> forall|k: int|
                    0 <= k < counts@.len() && (#[trigger] counts@[k]).taken && counts@[k].count >= 2 ==> owned(
                        owner,
                        k,
                    ),
                forall|k: int, j: int|
                    0 <= k < counts@.len() && 0 <= j < owner.len() && (#[trigger] counts@[k]).taken && !owned(
                        owner,
                        k,
                    ) ==> counts@[#[trigger] owner[j]].count >= counts@[k].count,
                forall|k: int|
                    0 <= k < counts@.len() && !(#[trigger] counts@[k]).taken && counts@[k].count >= 2
                        && self.next_id < u16::MAX ==> self.next_id - start == round,
                forall|j: int|
                    0 <= j < owner.len() ==> {
                        &&& 0 <= (#[trigger] owner[j]) < counts@.len()
                        &&& counts@[owner[j]].taken
                        &&& counts@[owner[j]].count >= 2
                        &&& pattern_lookup(self.reverse_patterns(), (start + j) as u16) == Some(
                            counts@[owner[j]].pattern@,
                        )
                        &&& id_lookup(self.patterns(), counts@[owner[j]].pattern@) == Some((start + j) as u16)
                    },
                forall|id: u16|
                    !(start <= id < self.next_id) ==> #[trigger] pattern_lookup(self.reverse_patterns(), id)
                        == pattern_lookup(start_model.reverse_patterns, id),
            decreases rounds - round,
        {
            proof {
                lemma_taken_count(counts@, counts@.len() as int);
            }
            match most_counted(&counts) {
                None => {
                    assert(false);
                },
                Some(b) => {
                    let ghost counts_before = counts@;
                    let ghost next_before = self.next_id;
                    let pattern: Vec<u8> = slice_to_vec(counts[b].pattern.as_slice());
                    let count: u128 = counts[b].count;
                    counts[b] = CountedPattern { pattern: slice_to_vec(pattern.as_slice()), count, taken: true };
                    proof {
                        lemma_taken_one_more(counts_before, counts@, b as int, counts@.len() as int);
                        assert forall|k: int| 0 <= k < counts@.len() implies (#[trigger] counts@[k]).pattern@
                            == counts_before[k].pattern@ && counts@[k].count == counts_before[k].count && (k != b
                            ==> counts@[k].taken == counts_before[k].taken) by {}
                        assert forall|pattern: Seq<u8>|
                            min <= pattern.len() <= LONGEST_PATTERN && frequency(data@, pattern)
                                >= 1 implies #[trigger] held(counts@, pattern) by {
                            assert(held(counts_before, pattern));
                            let w = choose|w: int|
                                0 <= w < counts_before.len() && (#[trigger] counts_before[w]).pattern@ == pattern;
                            assert(counts@[w].pattern@ == pattern);
                        }
                        assert forall|j: int| 0 <= j < owner.len() implies counts@[#[trigger] owner[j]]
                            == counts_before[owner[j]] by {
                            assert(counts_before[owner[j]].taken);
                        }
                        assert(!owned(owner, b as int)) by {
                            if owned(owner, b as int) {
                                let j = choose|j: int| 0 <= j < owner.len() && #[trigger] owner[j] == b;
                                assert(counts_before[owner[j]].taken);
                            }
                        }
                        assert forall|j: int| 0 <= j < owner.len() implies counts@[#[trigger] owner[j]].count
                            >= count by {
                            assert(counts_before[owner[j]].taken);
                            assert(!counts_before[b as int].taken);
                        }
                    }
                    if count > 1 && self.next_id < u16::MAX {
                        let id: u16 = self.next_id;
                        let ghost patterns_before = self.patterns();
                        let ghost reverse_before = self.reverse_patterns();
                        self.insert(pattern.as_slice(), id);
                        self.next_id = id + 1;
                        proof {
                            let grown = owner.push(b as int);
                            assert forall|j: int| 0 <= j < grown.len() implies {
                                &&& 0 <= (#[trigger] grown[j]) < counts@.len()
                                &&& counts@[grown[j]].taken
                                &&& counts@[grown[j]].count >= 2
                                &&& pattern_lookup(self.reverse_patterns(), (start + j) as u16) == Some(
                                    counts@[grown[j]].pattern@,
                                )
                                &&& id_lookup(self.patterns(), counts@[grown[j]].pattern@) == Some(
                                    (start + j) as u16,
                                )
                            } by {
                                if j < owner.len() {
                                    assert(grown[j] == owner[j]);
                                    assert(owner[j] != b);
                                    let other = counts@[owner[j]].pattern@;
                                    if owner[j] < b {
                                        assert(counts@[owner[j]].pattern@ != counts@[b as int].pattern@);
                                    } else {
                                        assert(counts@[b as int].pattern@ != counts@[owner[j]].pattern@);
                                    }
                                    lemma_with_pattern_other(patterns_before, pattern@, id, other);
                                    lemma_with_id_other(reverse_before, pattern@, id, (start + j) as u16);
                                }
                            }
                            assert forall|other: u16| !(start <= other < id + 1) implies #[trigger] pattern_lookup(
                                self.reverse_patterns(),
                                other,
                            ) == pattern_lookup(start_model.reverse_patterns, other) by {
                                lemma_with_id_other(reverse_before, pattern@, id, other);
                            }
                            assert forall|a: int, c: int| 0 <= a <= c < grown.len() implies counts@[#[trigger] grown[a]].count
                                >= counts@[#[trigger] grown[c]].count by {
                                if c < owner.len() {
                                    assert(grown[a] == owner[a] && grown[c] == owner[c]);
                                } else if a < owner.len() {
                                    assert(grown[a] == owner[a]);
                                }
                            }
                            assert forall|k: int| 0 <= k < counts@.len() && owned(owner, k) implies owned(
                                grown,
                                k,
                            ) by {
                                let j = choose|j: int| 0 <= j < owner.len() && #[trigger] owner[j] == k;
                                assert(grown[j] == k);
                            }
                            assert(owned(grown, b as int)) by {
                                assert(grown[owner.len() as int] == b);
                            }
                            assert forall|k: int|
                                0 <= k < counts@.len() && (#[trigger] counts@[k]).taken && counts@[k].count
                                    >= 2 implies owned(grown, k) by {
                                if k != b {
                                    assert(counts_before[k].taken);
                                    assert(owned(owner, k));
                                }
                            }
                            assert forall|k: int, j: int|
                                0 <= k < counts@.len() && 0 <= j < grown.len() && (#[trigger] counts@[k]).taken
                                    && !owned(grown, k) implies counts@[#[trigger] grown[j]].count
                                >= counts@[k].count by {
                                assert(k != b);
                                assert(counts_before[k].taken);
                                assert(!owned(owner, k));
                                assert(counts_before[k].count < 2);
                            }
                            owner = grown;
                        }
                    } else {
                        proof {
                            assert forall|k: int, j: int|
                                0 <= k < counts@.len() && 0 <= j < owner.len() && (#[trigger] counts@[k]).taken
                                    && !owned(owner, k) implies counts@[#[trigger] owner[j]].count
                                >= counts@[k].count by {
                                if k != b {
                                    assert(counts_before[k].taken);
                                }
                            }
                        }
                    }
                    proof {
                        assert forall|k: int, l: int|
                            0 <= k < counts@.len() && 0 <= l < counts@.len() && (#[trigger] counts@[k]).taken && !(
                            #[trigger] counts@[l]).taken implies counts@[k].count >= counts@[l].count by {
                            assert(!counts_before[l].taken);
                            if k != b {
                                assert(counts_before[k].taken);
                            }
                        }
                        assert forall|k: int|
                            0 <= k < counts@.len() && !(#[trigger] counts@[k]).taken && counts@[k].count >= 2
                                && self.next_id < u16::MAX implies self.next_id - start == round + 1 by {
                            assert(!counts_before[k].taken);
                            assert(counts_before[k].count <= count);
                            assert(next_before - start == round);
                        }
                    }
                    round += 1;
                },
            }
        }
        proof {
            let after = self.model();
            lemma_taken_count(counts@, counts@.len() as int);
            assert forall|id: u16| start <= id < self.next_id implies #[trigger] names_repeat(
                after,
                data@,
                min,
                id,
            ) && pattern_named(after, id) == counts@[owner[id - start]].pattern@ by {
                let j = id - start;
                assert(0 <= owner[j] < counts@.len());
            }
            assert forall|a: u16, b: u16| start <= a <= b < self.next_id implies frequency(
                data@,
                #[trigger] pattern_named(after, a),
            ) >= frequency(data@, #[trigger] pattern_named(after, b)) by {
                assert(names_repeat(after, data@, min, a));
                assert(names_repeat(after, data@, min, b));
                assert(0 <= owner[a - start] < counts@.len());
                assert(0 <= owner[b - start] < counts@.len());
            }
            assert forall|k: int| 0 <= k < counts@.len() && owned(owner, k) implies learned_here(
                start_model,
                after,
                (#[trigger] counts@[k]).pattern@,
            ) by {
                let j = choose|j: int| 0 <= j < owner.len() && #[trigger] owner[j] == k;
                let id = (start + j) as u16;
                assert(pattern_lookup(after.reverse_patterns, id) == Some(counts@[k].pattern@));
            }
            assert forall|id: u16, pattern: Seq<u8>|
                #![trigger pattern_named(after, id), frequency(data@, pattern)]
                start <= id < self.next_id && min <= pattern.len() <= LONGEST_PATTERN && !learned_here(
                    start_model,
                    after,
                    pattern,
                ) implies frequency(data@, pattern) <= frequency(data@, pattern_named(after, id)) by {
                assert(names_repeat(after, data@, min, id));
                let o = owner[id - start];
                assert(0 <= o < counts@.len());
                if frequency(data@, pattern) >= 1 {
                    assert(held(counts@, pattern));
                    let k = choose|k: int| 0 <= k < counts@.len() && (#[trigger] counts@[k]).pattern@ == pattern;
                    assert(!owned(owner, k));
                    if counts@[k].taken {
                        assert(counts@[owner[id - start]].count >= counts@[k].count);
                    } else {
                        assert(counts@[o].taken);
                    }
                }
            }
            if self.next_id - start < max_patterns && self.next_id < u16::MAX {
                assert forall|pattern: Seq<u8>|
                    min <= pattern.len() <= LONGEST_PATTERN && #[trigger] frequency(data@, pattern)
                        >= 2 implies learned_here(start_model, after, pattern) by {
                    assert(held(counts@, pattern));
                    let k = choose|k: int| 0 <= k < counts@.len() && (#[trigger] counts@[k]).pattern@ == pattern;
                    if counts@[k].taken {
                        assert(owned(owner, k));
                    } else {
                        assert(self.next_id - start == round);
                        assert(taken_count(counts@, counts@.len() as int) < counts@.len());
                    }
                }
            }
        }
    }
}

/// Where no pattern is taken, none counts as taken.
proof fn lemma_none_taken(counts: Seq<CountedPattern>, n: int)
    requires
        0 <= n <= counts.len(),
        forall|k: int| 0 <= k < counts.len() ==> !(#[trigger] counts[k]).taken,
    ensures
        taken_count(counts, n) == 0,
    decreases n,
{
    if n > 0 {
        lemma_none_taken(counts, n - 1);
    }
}

/// Decoding with a dictionary gives back what was encoded with it, from any
/// position on: the coder writes only identifiers that decoding reads as
/// their patterns.
pub proof fn lemma_dictionary_coding_roundtrip(patterns: Seq<Pattern>, reverse: Seq<Pattern>, data: Seq<u8>, at: int)
    requires
        0 <= at <= data.len(),
    ensures
        decoded_with(reverse, encoded_with(patterns, reverse, data, at)) == Some(data.skip(at)),
    decreases data.len() - at,
{
    let coded = encoded_with(patterns, reverse, data, at);
    if at >= data.len() {
        assert(data.skip(at) =~= Seq::<u8>::empty());
    } else {
        let best = longest_pattern(patterns, reverse, data, at, patterns.len() as int);
        lemma_longest_pattern(patterns, reverse, data, at, patterns.len() as int);
        if 0 <= best < patterns.len() && patterns[best].bytes.len() > 2 && at + patterns[best].bytes.len()
            <= data.len() {
            let bytes = patterns[best].bytes;
            let id = patterns[best].id;
            let next = at + bytes.len();
            let rest = encoded_with(patterns, reverse, data, next);
            lemma_dictionary_coding_roundtrip(patterns, reverse, data, next);
            assert(coded == seq![0xFFu8] + u16_bytes(id) + rest);
            assert(coded[1] == (id % 256) as u8);
            assert(coded[2] == (id / 256) as u8);
            assert(u16_at(coded, 1) == id);
            assert(coded.skip(3) =~= rest);
            assert(pattern_lookup(reverse, id) == Some(bytes));
            assert(bytes + data.skip(next) =~= data.skip(at)) by {
                assert(data.subrange(at, next) == bytes);
            }
        } else if data[at] == 0xFF {
            let rest = encoded_with(patterns, reverse, data, at + 1);
            lemma_dictionary_coding_roundtrip(patterns, reverse, data, at + 1);
            assert(coded == seq![0xFFu8, 0u8] + rest);
            assert(coded.skip(2) =~= rest);
            assert(seq![0xFFu8] + data.skip(at + 1) =~= data.skip(at));
        } else {
            let rest = encoded_with(patterns, reverse, data, at + 1);
            lemma_dictionary_coding_roundtrip(patterns, reverse, data, at + 1);
            assert(coded == seq![data[at]] + rest);
            assert(coded.skip(1) =~= rest);
            assert(seq![data[at]] + data.skip(at + 1) =~= data.skip(at));
        }
    }
}

/// Whether `id` names a pattern of three to eight bytes that stands twice at
/// least in one of the first `seen` samples.
pub open spec fn learned_from(model: DictionaryModel, samples: Seq<&[u8]>, seen: int, id: u16) -> bool {
    match pattern_lookup(model.reverse_patterns, id) {
        Some(bytes) => 3 <= bytes.len() <= LONGEST_PATTERN && exists|k: int|
            0 <= k < seen && k < samples.len() && occurs_twice((#[trigger] samples[k])@, bytes),
        None => false,
    }
}

/// The dictionary without patterns, with 256 as the next identifier.
pub open spec fn empty_model() -> DictionaryModel {
    DictionaryModel { patterns: Seq::<Pattern>::empty(), reverse_patterns: Seq::<Pattern>::empty(), next_id: 256 }
}

/// The share of `max_patterns` that each of `samples` samples gets.
pub open spec fn share_of(max_patterns: usize, samples: nat) -> usize {
    if samples >= 1 {
        (max_patterns as nat / samples) as usize
    } else {
        max_patterns
    }
}

/// Whether `steps` are the dictionaries of a training on `samples`: the empty
/// one first, and after each sample what `build_from_data` makes of the one
/// before with patterns of three bytes at least and `share` identifiers.
pub open spec fn trained_through(steps: Seq<DictionaryModel>, samples: Seq<&[u8]>, share: usize) -> bool {
    &&& steps.len() == samples.len() + 1
    &&& steps[0] == empty_model()
    &&& forall|i: int|
        0 <= i < samples.len() ==> built_from(steps[i], steps[i + 1], (#[trigger] samples[i])@, 3, share)
}

/// Learns patterns of at least three bytes from each of the samples in turn,
/// with an equal share of `max_patterns` for each sample.
///
/// The dictionary is what the steps of `build_from_data` make of the empty
/// one, sample by sample. So the identifiers from 256 up to the next free one,
/// at most `max_patterns` of them, each name a pattern that stands twice in
/// one of the samples; no other identifier names anything.
pub fn train_dictionary(training_data: &[&[u8]], max_patterns: usize) -> (dictionary: Dictionary)
    ensures
        dictionary.wf(),
        exists|steps: Seq<DictionaryModel>| #[trigger]
            trained_through(steps, training_data@, share_of(max_patterns, training_data@.len()))
                && steps[training_data@.len() as int] == dictionary.model(),
        dictionary.next_id() >= 256,
        dictionary.next_id() - 256 <= max_patterns,
        training_data@.len() == 0 ==> dictionary.patterns().len() == 0,
        forall|id: u16|
            256 <= id < dictionary.next_id() ==> #[trigger] learned_from(
                dictionary.model(),
                training_data@,
                training_data@.len() as int,
                id,
            ),
        forall|id: u16|
            !(256 <= id < dictionary.next_id()) ==> #[trigger] pattern_lookup(dictionary.reverse_patterns(), id)
                is None,
{
    let mut dict = Dictionary::new();
    let samples: usize = training_data.len();
    let share: usize = max_patterns / (if samples >= 1 { samples } else { 1 });
    let mut i: usize = 0;
    let ghost mut steps: Seq<DictionaryModel> = seq![dict.model()];
    proof {
        assert(samples >= 1 ==> samples * share <= max_patterns) by (nonlinear_arith)
            requires
                samples >= 1 ==> share == max_patterns / samples,
        ;
        assert(dict.model().patterns =~= Seq::<Pattern>::empty());
        assert(dict.model().reverse_patterns =~= Seq::<Pattern>::empty());
    }
    while i < samples
        invariant
            i <= samples,
            samples == training_data@.len(),
            share == share_of(max_patterns, samples as nat),
            steps.len() == i + 1,
            steps[0] == empty_model(),
            steps[i as int] == dict.model(),
            forall|k: int| 0 <= k < i ==> built_from(steps[k], steps[k + 1], (#[trigger] training_data@[k])@, 3, share),
            samples >= 1 ==> samples * share <= max_patterns,
            dict.wf(),
            dict.next_id() >= 256,
            dict.next_id() - 256 <= i * share,
            samples == 0 ==> dict.patterns().len() == 0,
            forall|id: u16|
                256 <= id < dict.next_id() ==> #[trigger] learned_from(dict.model(), training_data@, i as int, id),
            forall|id: u16|
                !(256 <= id < dict.next_id()) ==> #[trigger] pattern_lookup(dict.reverse_patterns(), id) is None,
        decreases samples - i,
    {
        let ghost before = dict.model();
        let ghost steps_before = steps;
        dict.build_from_data(training_data[i], 3, share);
        proof {
            let after = dict.model();
            steps = steps_before.push(after);
            assert forall|k: int| 0 <= k < i + 1 implies built_from(
                steps[k],
                steps[k + 1],
                (#[trigger] training_data@[k])@,
                3,
                share,
            ) by {
                if k < i {
                    assert(steps[k] == steps_before[k] && steps[k + 1] == steps_before[k + 1]);
                }
            }
            assert(after.next_id - 256 <= (i + 1) * share) by (nonlinear_arith)
                requires
                    after.next_id - before.next_id <= share,
                    before.next_id - 256 <= i * share,
            ;
            assert forall|id: u16| 256 <= id < after.next_id implies #[trigger] learned_from(
                after,
                training_data@,
                i + 1,
                id,
            ) by {
                if id < before.next_id {
                    assert(learned_from(before, training_data@, i as int, id));
                    assert(pattern_lookup(after.reverse_patterns, id) == pattern_lookup(
                        before.reverse_patterns,
                        id,
                    ));
                    let bytes = pattern_lookup(before.reverse_patterns, id)->Some_0;
                    let k = choose|k: int|
                        0 <= k < i && k < training_data@.len() && occurs_twice(
                            (#[trigger] training_data@[k])@,
                            bytes,
                        );
                    assert(occurs_twice(training_data@[k]@, bytes));
                } else {
                    assert(names_repeat(after, training_data@[i as int]@, 3, id));
                }
            }
            assert forall|id: u16| !(256 <= id < after.next_id) implies #[trigger] pattern_lookup(
                after.reverse_patterns,
                id,
            ) is None by {
                assert(pattern_lookup(after.reverse_patterns, id) == pattern_lookup(
                    before.reverse_patterns,
                    id,
                ));
            }
        }
        i += 1;
    }
    proof {
        assert(trained_through(steps, training_data@, share));
        assert(i * share <= max_patterns) by (nonlinear_arith)
            requires
                i == samples,
                samples >= 1 ==> samples * share <= max_patterns,
                samples == 0 ==> i == 0,
        ;
    }
    dict
}

} // verus!
