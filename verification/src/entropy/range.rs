//! A static range coder over bytes.
//!
//! The code of a byte sequence is a table of 256 symbol frequencies, scaled to
//! a total of at most 65536, the number of symbols, and the symbols coded
//! against the table with a 32-bit carry-less range coder. Empty data has an
//! empty code.

use vstd::prelude::*;
use crate::endian::{push_u32, read_u32, u32_at, u32_bytes};
use crate::entropy::codec_utils::{build_frequency_table, lemma_sum_monotone};
use crate::entropy::codec_utils::{occurrences, occurrences_in, sum_of};
use crate::entropy::range_inverse::{lemma_range_roundtrip, lemma_table_total};
use crate::entropy::EntropyCoder;
use crate::error::HlcError;
use crate::headers::EntropyMethod;

verus! {

/// One more than the largest 32-bit number.
pub const FULL: u64 = 4294967296;

/// The range below which the top byte of the interval is settled: 2^24.
pub const TOP: u64 = 16777216;

/// The smallest range that is coded with: 2^16. The table total is at most this.
pub const BOT: u64 = 65536;

/// The total that the frequencies are scaled to before rounding up.
pub const SCALE: u64 = 65280;

/// The size of the table and the symbol count in front of the code.
pub const PREFIX: usize = 1028;

/// The state of the coder: the interval from `low` of length `range`.
pub struct Interval {
    pub low: int,
    pub range: int,
}

impl Interval {
    /// The interval lies within 32 bits, is not empty, and where it ends at
    /// 2^32 it starts in the last 2^24 numbers.
    pub open spec fn wf(self) -> bool {
        &&& 0 <= self.low < FULL
        &&& 1 <= self.range
        &&& self.low + self.range <= FULL
        &&& self.low + self.range == FULL ==> self.low >= FULL - TOP
    }

    /// The first and the last number of the interval have the same top byte.
    pub open spec fn settled_top(self) -> bool {
        self.low / (TOP as int) == ((self.low + self.range) % (FULL as int)) / (TOP as int)
    }

    /// Whether a byte leaves the coder: the top byte is settled, or the range
    /// has fallen under 2^16.
    pub open spec fn shifts(self) -> bool {
        self.settled_top() || self.range < BOT
    }

    /// The interval after a byte has left: where the top byte was not settled,
    /// the range is first cut down to the next multiple of 2^16.
    pub open spec fn shifted(self) -> Interval {
        let range = if self.settled_top() {
            self.range
        } else {
            (BOT - self.low % (BOT as int)) % (BOT as int)
        };
        Interval { low: (self.low % (TOP as int)) * 256, range: (range * 256) % (FULL as int) }
    }

    /// The interval narrowed to a symbol that holds `frequency` of `total`
    /// above `below`.
    pub open spec fn narrowed(self, below: int, frequency: int, total: int) -> Interval {
        let unit = self.range / total;
        Interval { low: (self.low + below * unit) % (FULL as int), range: (unit * frequency) % (FULL as int) }
    }
}

/// The bytes that leave the coder until the interval is wide again, at most
/// `fuel` of them.
pub open spec fn settle_bytes(interval: Interval, fuel: nat) -> Seq<u8>
    decreases fuel,
{
    if fuel == 0 || !interval.shifts() {
        Seq::<u8>::empty()
    } else {
        seq![(interval.low / (TOP as int)) as u8] + settle_bytes(interval.shifted(), (fuel - 1) as nat)
    }
}

/// The interval after the bytes of `settle_bytes` have left.
pub open spec fn settled(interval: Interval, fuel: nat) -> Interval
    decreases fuel,
{
    if fuel == 0 || !interval.shifts() {
        interval
    } else {
        settled(interval.shifted(), (fuel - 1) as nat)
    }
}

/// The number of bytes after which an interval is always wide again.
pub const ENOUGH: usize = 8;

/// A shift keeps an interval well-formed.
pub proof fn lemma_shift(interval: Interval)
    requires
        interval.wf(),
        interval.shifts(),
    ensures
        interval.shifted().wf(),
        interval.shifted().low % 256 == 0,
        interval.low % 256 == 0 ==> interval.shifted().low % 65536 == 0,
        interval.low % 65536 == 0 ==> interval.shifted().low % (TOP as int) == 0 && interval.shifted().range
            == 256 * interval.range,
        interval.low % (TOP as int) == 0 ==> interval.shifted().low == 0,
        interval.low == 0 ==> interval.range < TOP,
{
    let low = interval.low;
    let range = interval.range;
    let t = low / (TOP as int);
    let m = low % (TOP as int);
    assert(low == t * TOP + m);
    if interval.settled_top() {
        if low + range == FULL {
            assert(t == 255);
            assert((low + range) % (FULL as int) == 0);
        }
        assert(low + range < FULL);
        assert((low + range) % (FULL as int) == low + range);
        assert((low + range) / (TOP as int) == t);
        assert(m + range < TOP);
        assert((range * 256) % (FULL as int) == range * 256);
    } else {
        let r = low % (BOT as int);
        let block = low / (BOT as int);
        assert(low == block * BOT + r);
        if r == 0 {
            assert(low + range < FULL);
            assert((low + range) % (FULL as int) == low + range);
            assert(low % (TOP as int) + range < TOP) by {
                assert(m % 65536 == 0);
            }
            assert((low + range) / (TOP as int) == t);
        }
        assert(r >= 1);
        let d = (BOT - r) % (BOT as int);
        assert(d == BOT - r);
        assert(m % 65536 == r);
        assert(m + d <= TOP);
        assert((d * 256) % (FULL as int) == d * 256);
    }
    if low % 65536 == 0 {
        if !interval.settled_top() {
            assert(low + range < FULL);
            assert((low + range) % (FULL as int) == low + range);
            assert(m % 65536 == 0);
            assert((low + range) / (TOP as int) == t);
        }
    }
}

/// Narrowing to a symbol keeps a wide interval well-formed.
pub proof fn lemma_narrow(interval: Interval, below: int, frequency: int, total: int)
    requires
        interval.wf(),
        interval.range >= BOT,
        0 <= below,
        1 <= frequency,
        below + frequency <= total <= BOT,
    ensures
        interval.narrowed(below, frequency, total).wf(),
{
    let unit = interval.range / total;
    assert(unit >= 1) by (nonlinear_arith)
        requires
            unit == interval.range / total,
            1 <= total <= interval.range,
    ;
    assert(unit * total <= interval.range) by (nonlinear_arith)
        requires
            unit == interval.range / total,
            total >= 1,
            interval.range >= 0,
    ;
    assert(below * unit + unit * frequency <= unit * total) by (nonlinear_arith)
        requires
            below + frequency <= total,
            unit >= 0,
    ;
    assert(below * unit >= 0) by (nonlinear_arith)
        requires
            below >= 0,
            unit >= 0,
    ;
    assert(unit * frequency >= 1) by (nonlinear_arith)
        requires
            unit >= 1,
            frequency >= 1,
    ;
}

/// After `ENOUGH` bytes at most, an interval is wide again.
pub proof fn lemma_settled(interval: Interval)
    requires
        interval.wf(),
    ensures
        settled(interval, ENOUGH as nat).wf(),
        !settled(interval, ENOUGH as nat).shifts(),
        settled(interval, ENOUGH as nat).range >= BOT,
        settle_bytes(interval, ENOUGH as nat).len() <= ENOUGH,
{
    let s0 = interval;
    if s0.shifts() {
        lemma_shift(s0);
        let s1 = s0.shifted();
        if s1.shifts() {
            lemma_shift(s1);
            let s2 = s1.shifted();
            if s2.shifts() {
                lemma_shift(s2);
                let s3 = s2.shifted();
                if s3.shifts() {
                    lemma_shift(s3);
                    let s4 = s3.shifted();
                    if s4.shifts() {
                        lemma_shift(s4);
                        let s5 = s4.shifted();
                        if s5.shifts() {
                            lemma_shift(s5);
                            let s6 = s5.shifted();
                            if s6.shifts() {
                                lemma_shift(s6);
                                let s7 = s6.shifted();
                                assert(s7.low == 0);
                                assert(s7.range >= TOP);
                            }
                        }
                    }
                }
            }
        }
    }
    reveal_with_fuel(settled, 9);
    reveal_with_fuel(settle_bytes, 9);
}

/// Lets the bytes leave that are settled: appends them to `out` and widens the interval.
fn settle(low: &mut u64, range: &mut u64, out: &mut Vec<u8>)
    requires
        (Interval { low: *old(low) as int, range: *old(range) as int }).wf(),
    ensures
        (Interval { low: *final(low) as int, range: *final(range) as int }) == settled(
            Interval { low: *old(low) as int, range: *old(range) as int },
            ENOUGH as nat,
        ),
        final(out)@ == old(out)@ + settle_bytes(
            Interval { low: *old(low) as int, range: *old(range) as int },
            ENOUGH as nat,
        ),
        (Interval { low: *final(low) as int, range: *final(range) as int }).wf(),
        *final(range) >= BOT,
{
    let ghost first = Interval { low: *low as int, range: *range as int };
    let ghost start = out@;
    let mut done: usize = 0;
    proof {
        lemma_settled(first);
        assert(out@ =~= start + Seq::<u8>::empty());
    }
    while done < ENOUGH && (*low / TOP == ((*low + *range) % FULL) / TOP || *range < BOT)
        invariant
            done <= ENOUGH,
            (Interval { low: *low as int, range: *range as int }).wf(),
            settled(Interval { low: *low as int, range: *range as int }, (ENOUGH - done) as nat) == settled(
                first,
                ENOUGH as nat,
            ),
            start + settle_bytes(first, ENOUGH as nat) == out@ + settle_bytes(
                Interval { low: *low as int, range: *range as int },
                (ENOUGH - done) as nat,
            ),
        decreases ENOUGH - done,
    {
        let ghost now = Interval { low: *low as int, range: *range as int };
        let ghost before = out@;
        proof {
            lemma_shift(now);
            assert(now.shifts());
        }
        let top_settled: bool = *low / TOP == ((*low + *range) % FULL) / TOP;
        let width: u64 = if top_settled { *range } else { (BOT - *low % BOT) % BOT };
        out.push((*low / TOP) as u8);
        *low = (*low % TOP) * 256;
        *range = (width * 256) % FULL;
        done += 1;
        proof {
            let rest = settle_bytes(now.shifted(), (ENOUGH - done) as nat);
            assert(before.push((now.low / (TOP as int)) as u8) + rest =~= before + (seq![
                (now.low / (TOP as int)) as u8,
            ] + rest));
        }
    }
    proof {
        let last = Interval { low: *low as int, range: *range as int };
        assert(settle_bytes(last, (ENOUGH - done) as nat) =~= Seq::<u8>::empty());
        assert(out@ =~= start + settle_bytes(first, ENOUGH as nat));
    }
}

/// A frequency scaled to the table: zero stays zero, and anything else is
/// `frequency * 65280 / count`, but 1 at least.
pub open spec fn scaled(frequency: nat, count: nat) -> u32 {
    if frequency == 0 || count == 0 {
        0
    } else {
        let value = (frequency * SCALE as nat) / count;
        if value == 0 {
            1
        } else if value > SCALE {
            SCALE as u32
        } else {
            value as u32
        }
    }
}

/// The table of the scaled frequencies of the 256 byte values in `data`.
pub open spec fn table_of(data: Seq<u8>) -> Seq<u32> {
    Seq::new(256, |symbol: int| scaled(occurrences(data, symbol as u8), data.len()))
}

/// The first `n` entries of a table as bytes, least significant byte first.
pub open spec fn table_bytes(table: Seq<u32>, n: int) -> Seq<u8>
    decreases n,
{
    if n <= 0 {
        Seq::<u8>::empty()
    } else {
        table_bytes(table, n - 1) + u32_bytes(table[n - 1])
    }
}

/// The four bytes of the start of an interval, most significant first.
pub open spec fn flushed(low: int) -> Seq<u8> {
    seq![
        (low / 16777216) as u8,
        ((low / 65536) % 256) as u8,
        ((low / 256) % 256) as u8,
        (low % 256) as u8,
    ]
}

/// The bytes that the symbols of `data` from `at` on give, coded from
/// `interval` against `table`, with the flushed interval at the end.
pub open spec fn coded_symbols(data: Seq<u8>, table: Seq<u32>, interval: Interval, at: int) -> Seq<u8>
    decreases data.len() - at,
{
    if at >= data.len() || at < 0 {
        flushed(interval.low)
    } else {
        let symbol = data[at] as int;
        let narrow = interval.narrowed(sum_of(table, symbol) as int, table[symbol] as int, sum_of(table, 256) as int);
        settle_bytes(narrow, ENOUGH as nat) + coded_symbols(data, table, settled(narrow, ENOUGH as nat), at + 1)
    }
}

/// The interval that coding starts with: all 32-bit numbers but the last.
pub open spec fn whole_interval() -> Interval {
    Interval { low: 0, range: FULL - 1 }
}

/// The code of `data`: nothing for no data; else the table, the number of
/// symbols and the coded symbols. `None` for more than `u32::MAX` symbols.
pub open spec fn range_encoding(data: Seq<u8>) -> Option<Seq<u8>> {
    if data.len() == 0 {
        Some(Seq::<u8>::empty())
    } else if data.len() > u32::MAX {
        None
    } else {
        Some(
            table_bytes(table_of(data), 256) + u32_bytes(data.len() as u32) + coded_symbols(
                data,
                table_of(data),
                whole_interval(),
                0,
            ),
        )
    }
}

/// A byte of the data occurs in the data.
pub proof fn lemma_occurs(data: Seq<u8>, at: int, n: int)
    requires
        0 <= at < n <= data.len(),
    ensures
        occurrences_in(data, data[at], n) >= 1,
    decreases n,
{
    if n - 1 > at {
        lemma_occurs(data, at, n - 1);
    }
}

/// Builds the table of scaled frequencies of `data` and its running totals.
fn build_table(data: &[u8]) -> (tables: ([u32; 256], [u32; 257], u64))
    requires
        0 < data@.len() <= u32::MAX,
    ensures
        tables.0@ == table_of(data@),
        tables.2 == sum_of(table_of(data@), 256),
        1 <= tables.2 <= BOT,
        forall|i: int| 0 <= i <= 256 ==> (#[trigger] tables.1@[i]) == sum_of(table_of(data@), i),
{
    let frequencies = build_frequency_table(data);
    let count: u64 = data.len() as u64;
    let mut table: [u32; 256] = [0u32; 256];
    let mut cumulative: [u32; 257] = [0u32; 257];
    let mut total: u64 = 0;
    let mut i: usize = 0;
    while i < 256
        invariant
            i <= 256,
            count == data@.len(),
            0 < count <= u32::MAX,
            forall|b: u8| #[trigger] frequencies@[b as int] == occurrences(data@, b),
            forall|j: int| 0 <= j < i ==> (#[trigger] table@[j]) == table_of(data@)[j],
            forall|j: int| 0 <= j < i ==> (#[trigger] table@[j]) <= SCALE,
            total == sum_of(table@, i as int),
            total <= i * SCALE,
            forall|j: int| 0 <= j <= i ==> (#[trigger] cumulative@[j]) == sum_of(table@, j),
        decreases 256 - i,
    {
        let frequency: u64 = frequencies[i] as u64;
        proof {
            assert(frequencies@[(i as u8) as int] == occurrences(data@, i as u8));
        }
        let value: u32 = if frequency == 0 {
            0
        } else {
            let v: u64 = (frequency * SCALE) / count;
            if v == 0 {
                1
            } else if v > SCALE {
                SCALE as u32
            } else {
                v as u32
            }
        };
        let ghost before = table@;
        let ghost cumulative_before = cumulative@;
        table[i] = value;
        total = total + value as u64;
        proof {
            assert forall|j: int| 0 <= j <= i implies sum_of(table@, j) == sum_of(before, j) by {
                lemma_sum_same(table@, before, j);
            }
        }
        cumulative[i + 1] = total as u32;
        proof {
            assert forall|j: int| 0 <= j <= i + 1 implies (#[trigger] cumulative@[j]) == sum_of(table@, j) by {
                if j <= i {
                    assert(sum_of(table@, j) == sum_of(before, j));
                    assert(cumulative@[j] == cumulative_before[j]);
                }
            }
        }
        i += 1;
    }
    proof {
        assert(table@ =~= table_of(data@));
        lemma_table_total(data@);
    }
    (table, cumulative, total)
}

/// Sums of tables that agree on their first entries agree.
proof fn lemma_sum_same(a: Seq<u32>, b: Seq<u32>, n: int)
    requires
        forall|j: int| 0 <= j < n ==> a[j] == b[j],
    ensures
        sum_of(a, n) == sum_of(b, n),
    decreases n,
{
    if n > 0 {
        lemma_sum_same(a, b, n - 1);
    }
}

/// The range coder.
pub struct RangeCoder {
    precision: u32,
}

impl RangeCoder {
    /// The precision in bits. The coder works with 32 bits whatever it is.
    pub closed spec fn precision(self) -> u32 {
        self.precision
    }

    /// A coder with 16 bits of precision.
    pub fn new() -> (coder: Self)
        ensures
            coder.precision() == 16,
    {
        RangeCoder { precision: 16 }
    }

    /// A coder with the given precision.
    pub fn with_precision(precision: u32) -> (coder: Self)
        ensures
            coder.precision() == precision,
    {
        RangeCoder { precision }
    }
}

/// Range-codes `data`. Fails with a compression error exactly for more than
/// `u32::MAX` bytes. What it returns decodes to `data`.
pub fn range_encode(data: &[u8]) -> (result: Result<Vec<u8>, HlcError>)
    ensures
        match range_encoding(data@) {
            Some(encoded) => result is Ok && result->Ok_0@ == encoded && range_decoding(encoded) == Some(data@),
            None => result is Err && result->Err_0 is CompressionError,
        },
{
    proof {
        if data@.len() <= u32::MAX {
            lemma_range_roundtrip(data@);
        }
    }
    let n: usize = data.len();
    let mut out: Vec<u8> = Vec::new();
    if n == 0 {
        return Ok(out);
    }
    if n > u32::MAX as usize {
        return Err(HlcError::CompressionError("Too much data for the range coder".to_string()));
    }
    let (table, cumulative, total) = build_table(data);
    let ghost model = table_of(data@);
    let mut k: usize = 0;
    while k < 256
        invariant
            k <= 256,
            table@ == model,
            out@ == table_bytes(model, k as int),
        decreases 256 - k,
    {
        push_u32(&mut out, table[k]);
        k += 1;
    }
    push_u32(&mut out, n as u32);
    let ghost prefix = out@;
    let mut low: u64 = 0;
    let mut range: u64 = FULL - 1;
    let mut i: usize = 0;
    let ghost whole = coded_symbols(data@, model, whole_interval(), 0);
    while i < n
        invariant
            n == data@.len(),
            i <= n,
            model == table_of(data@),
            table@ == model,
            total == sum_of(model, 256),
            1 <= total <= BOT,
            forall|j: int| 0 <= j <= 256 ==> (#[trigger] cumulative@[j]) == sum_of(model, j),
            (Interval { low: low as int, range: range as int }).wf(),
            range >= BOT,
            out@ + coded_symbols(data@, model, Interval { low: low as int, range: range as int }, i as int)
                == prefix + whole,
        decreases n - i,
    {
        let symbol: usize = data[i] as usize;
        let ghost interval = Interval { low: low as int, range: range as int };
        let below: u64 = cumulative[symbol] as u64;
        let frequency: u64 = table[symbol] as u64;
        proof {
            lemma_occurs(data@, i as int, n as int);
            assert(model[symbol as int] == scaled(occurrences(data@, symbol as u8), data@.len()));
            assert(frequency >= 1);
            lemma_sum_monotone(model, symbol + 1, 256);
            assert(cumulative@[symbol as int] == sum_of(model, symbol as int));
            lemma_narrow(interval, below as int, frequency as int, total as int);
        }
        let unit: u64 = range / total;
        proof {
            assert(unit * total <= range) by (nonlinear_arith)
                requires
                    unit == range / total,
                    total >= 1,
            ;
            assert(below * unit <= unit * total && unit * frequency <= unit * total) by (nonlinear_arith)
                requires
                    below + frequency <= total,
                    frequency >= 1,
                    below >= 0,
                    unit >= 0,
            ;
        }
        low = (low + below * unit) % FULL;
        range = (unit * frequency) % FULL;
        let ghost narrow = Interval { low: low as int, range: range as int };
        assert(narrow == interval.narrowed(below as int, frequency as int, total as int));
        let ghost before = out@;
        settle(&mut low, &mut range, &mut out);
        proof {
            let rest = coded_symbols(data@, model, settled(narrow, ENOUGH as nat), i + 1);
            assert(out@ + rest =~= before + (settle_bytes(narrow, ENOUGH as nat) + rest));
        }
        i += 1;
    }
    let ghost last = out@;
    out.push((low / 16777216) as u8);
    out.push(((low / 65536) % 256) as u8);
    out.push(((low / 256) % 256) as u8);
    out.push((low % 256) as u8);
    proof {
        assert(out@ =~= last + flushed(low as int));
        assert(out@ =~= prefix + whole);
    }
    Ok(out)
}

/// The code value after `count` more bytes of `input` from `at` on were taken in.
pub open spec fn refilled(code: int, input: Seq<u8>, at: int, count: nat) -> int
    decreases count,
{
    if count == 0 {
        code
    } else {
        refilled((code * 256 + input[at] as int) % (FULL as int), input, at + 1, (count - 1) as nat)
    }
}

/// The first symbol from `symbol` on whose running total lies above `value`;
/// the last symbol where there is none.
pub open spec fn symbol_above(table: Seq<u32>, value: int, symbol: int) -> int
    decreases 256 - symbol,
{
    if symbol >= 255 || value < sum_of(table, symbol + 1) {
        symbol
    } else {
        symbol_above(table, value, symbol + 1)
    }
}

/// `symbol_above` finds a symbol whose share of the table holds `value`.
pub proof fn lemma_symbol_above(table: Seq<u32>, value: int, symbol: int)
    requires
        0 <= symbol <= 255,
        sum_of(table, symbol) <= value < sum_of(table, 256),
    ensures
        symbol <= symbol_above(table, value, symbol) <= 255,
        sum_of(table, symbol_above(table, value, symbol)) <= value < sum_of(
            table,
            symbol_above(table, value, symbol) + 1,
        ),
    decreases 256 - symbol,
{
    if !(symbol >= 255 || value < sum_of(table, symbol + 1)) {
        lemma_symbol_above(table, value, symbol + 1);
    }
}

/// The symbols that `count` steps of decoding give, or `None` where the code
/// value falls outside the table or the input ends too early.
pub open spec fn decoded_symbols(
    input: Seq<u8>,
    at: int,
    table: Seq<u32>,
    interval: Interval,
    code: int,
    count: nat,
) -> Option<Seq<u8>>
    decreases count,
{
    if count == 0 {
        Some(Seq::<u8>::empty())
    } else {
        let total = sum_of(table, 256) as int;
        let value = code_value(interval, code, total);
        if value >= total {
            None
        } else {
            let symbol = symbol_above(table, value, 0);
            let narrow = interval.narrowed(sum_of(table, symbol) as int, table[symbol] as int, total);
            let taken = settle_bytes(narrow, ENOUGH as nat).len();
            if at + taken > input.len() {
                None
            } else {
                match decoded_symbols(
                    input,
                    at + taken,
                    table,
                    settled(narrow, ENOUGH as nat),
                    refilled(code, input, at, taken),
                    (count - 1) as nat,
                ) {
                    Some(rest) => Some(seq![symbol as u8] + rest),
                    None => None,
                }
            }
        }
    }
}

/// The table that stands at the start of `input`.
pub open spec fn stored_table(input: Seq<u8>) -> Seq<u32> {
    Seq::new(256, |symbol: int| u32_at(input, 4 * symbol))
}

/// The code value that four bytes hold, most significant first.
pub open spec fn first_code(input: Seq<u8>, at: int) -> int {
    input[at] as int * 16777216 + input[at + 1] as int * 65536 + input[at + 2] as int * 256 + input[at + 3] as int
}

/// The data that a code stands for: nothing for an empty code; `None` for a
/// code shorter than the table, the symbol count and four bytes, for a table
/// total of zero or over 65536, and where decoding the symbols fails.
pub open spec fn range_decoding(input: Seq<u8>) -> Option<Seq<u8>> {
    if input.len() == 0 {
        Some(Seq::<u8>::empty())
    } else if input.len() < PREFIX + 4 {
        None
    } else if sum_of(stored_table(input), 256) == 0 || sum_of(stored_table(input), 256) > BOT {
        None
    } else {
        decoded_symbols(
            input,
            PREFIX + 4,
            stored_table(input),
            whole_interval(),
            first_code(input, PREFIX as int),
            u32_at(input, 1024) as nat,
        )
    }
}

/// Lets the settled bytes leave on the decoding side: widens the interval and
/// takes as many bytes of `input` into the code value. Returns `false`, with
/// nothing said of the state, where the input ends too early.
fn settle_reading(low: &mut u64, range: &mut u64, code: &mut u64, input: &[u8], at: &mut usize) -> (ok: bool)
    requires
        (Interval { low: *old(low) as int, range: *old(range) as int }).wf(),
        *old(code) < FULL,
        *old(at) <= input@.len(),
    ensures
        ok == (*old(at) + settle_bytes(
            Interval { low: *old(low) as int, range: *old(range) as int },
            ENOUGH as nat,
        ).len() <= input@.len()),
        ok ==> {
            &&& (Interval { low: *final(low) as int, range: *final(range) as int }) == settled(
                Interval { low: *old(low) as int, range: *old(range) as int },
                ENOUGH as nat,
            )
            &&& *final(at) == *old(at) + settle_bytes(
                Interval { low: *old(low) as int, range: *old(range) as int },
                ENOUGH as nat,
            ).len()
            &&& *final(code) == refilled(
                *old(code) as int,
                input@,
                *old(at) as int,
                settle_bytes(Interval { low: *old(low) as int, range: *old(range) as int }, ENOUGH as nat).len(),
            )
            &&& (Interval { low: *final(low) as int, range: *final(range) as int }).wf()
            &&& *final(range) >= BOT
            &&& *final(code) < FULL
            &&& *final(at) <= input@.len()
        },
{
    let ghost first = Interval { low: *low as int, range: *range as int };
    let ghost first_code = *code as int;
    let ghost first_at = *at as int;
    let ghost all = settle_bytes(first, ENOUGH as nat).len();
    let n: usize = input.len();
    let mut done: usize = 0;
    proof {
        lemma_settled(first);
    }
    while done < ENOUGH && (*low / TOP == ((*low + *range) % FULL) / TOP || *range < BOT)
        invariant
            done <= ENOUGH,
            n == input@.len(),
            first == (Interval { low: *old(low) as int, range: *old(range) as int }),
            first_at == *old(at),
            first_at + done == *at,
            *at <= n,
            *code < FULL,
            all == settle_bytes(first, ENOUGH as nat).len(),
            (Interval { low: *low as int, range: *range as int }).wf(),
            settled(Interval { low: *low as int, range: *range as int }, (ENOUGH - done) as nat) == settled(
                first,
                ENOUGH as nat,
            ),
            all == done + settle_bytes(
                Interval { low: *low as int, range: *range as int },
                (ENOUGH - done) as nat,
            ).len(),
            refilled(first_code, input@, first_at, all) == refilled(
                *code as int,
                input@,
                *at as int,
                (all - done) as nat,
            ),
        decreases ENOUGH - done,
    {
        let ghost now = Interval { low: *low as int, range: *range as int };
        proof {
            lemma_shift(now);
            assert(now.shifts());
        }
        if *at >= n {
            proof {
                let fuel = (ENOUGH - done) as nat;
                assert(settle_bytes(now, fuel) == seq![(now.low / (TOP as int)) as u8] + settle_bytes(
                    now.shifted(),
                    (fuel - 1) as nat,
                ));
                assert(settle_bytes(now, fuel).len() >= 1);
            }
            return false;
        }
        let top_settled: bool = *low / TOP == ((*low + *range) % FULL) / TOP;
        let width: u64 = if top_settled { *range } else { (BOT - *low % BOT) % BOT };
        *low = (*low % TOP) * 256;
        *range = (width * 256) % FULL;
        *code = (*code * 256 + input[*at] as u64) % FULL;
        *at = *at + 1;
        done += 1;
    }
    proof {
        let last = Interval { low: *low as int, range: *range as int };
        assert(settle_bytes(last, (ENOUGH - done) as nat) =~= Seq::<u8>::empty());
    }
    true
}

/// The value that the code holds within the interval, in units of the table:
/// a number under the table total for a code that lies in the interval.
pub open spec fn code_value(interval: Interval, code: int, total: int) -> int {
    let unit = interval.range / total;
    if unit > 0 {
        ((code - interval.low) % (FULL as int)) / unit
    } else {
        total
    }
}

/// Finds the symbol that the code stands for and narrows the interval to it.
/// Returns `None` where the code lies outside the table.
fn next_symbol(
    table: &[u32; 256],
    cumulative: &[u64; 257],
    total: u64,
    low: &mut u64,
    range: &mut u64,
    code: u64,
) -> (found: Option<u8>)
    requires
        (Interval { low: *old(low) as int, range: *old(range) as int }).wf(),
        *old(range) >= BOT,
        code < FULL,
        1 <= total <= BOT,
        total == sum_of(table@, 256),
        forall|j: int| 0 <= j <= 256 ==> (#[trigger] cumulative@[j]) == sum_of(table@, j),
    ensures
        ({
            let interval = Interval { low: *old(low) as int, range: *old(range) as int };
            let value = code_value(interval, code as int, total as int);
            if value >= total {
                found is None
            } else {
                let symbol = symbol_above(table@, value, 0);
                &&& found == Some(symbol as u8)
                &&& 0 <= symbol <= 255
                &&& (Interval { low: *final(low) as int, range: *final(range) as int }) == interval.narrowed(
                    sum_of(table@, symbol) as int,
                    table@[symbol] as int,
                    total as int,
                )
                &&& (Interval { low: *final(low) as int, range: *final(range) as int }).wf()
            }
        }),
{
    let ghost interval = Interval { low: *low as int, range: *range as int };
    let unit: u64 = *range / total;
    proof {
        assert(unit >= 1) by (nonlinear_arith)
            requires
                unit == *range / total,
                1 <= total <= *range,
        ;
        assert(unit * total <= *range) by (nonlinear_arith)
            requires
                unit == *range / total,
                total >= 1,
        ;
    }
    let offset: u64 = if code >= *low { code - *low } else { code + FULL - *low };
    assert(offset == (code - *low) % (FULL as int));
    let value: u64 = offset / unit;
    assert(value == code_value(interval, code as int, total as int));
    if value >= total {
        return None;
    }
    let mut symbol: usize = 0;
    while symbol < 255 && value >= cumulative[symbol + 1]
        invariant
            symbol <= 255,
            value < total,
            total == sum_of(table@, 256),
            forall|j: int| 0 <= j <= 256 ==> (#[trigger] cumulative@[j]) == sum_of(table@, j),
            sum_of(table@, symbol as int) <= value,
            symbol_above(table@, value as int, symbol as int) == symbol_above(table@, value as int, 0),
        decreases 255 - symbol,
    {
        symbol += 1;
    }
    let below: u64 = cumulative[symbol];
    let frequency: u64 = table[symbol] as u64;
    proof {
        lemma_symbol_above(table@, value as int, symbol as int);
        assert(symbol_above(table@, value as int, 0) == symbol);
        assert(frequency >= 1);
        lemma_sum_monotone(table@, symbol + 1, 256);
        lemma_narrow(interval, below as int, frequency as int, total as int);
        assert(below * unit <= unit * total && unit * frequency <= unit * total) by (nonlinear_arith)
            requires
                below + frequency <= total,
                frequency >= 1,
                below >= 0,
                unit >= 0,
        ;
    }
    *low = (*low + below * unit) % FULL;
    *range = (unit * frequency) % FULL;
    Some(symbol as u8)
}

/// Reads the table of a code with its running totals.
fn read_table(data: &[u8]) -> (tables: ([u32; 256], [u64; 257], u64))
    requires
        data@.len() >= PREFIX + 4,
    ensures
        tables.0@ == stored_table(data@),
        tables.2 == sum_of(stored_table(data@), 256),
        forall|j: int| 0 <= j <= 256 ==> (#[trigger] tables.1@[j]) == sum_of(stored_table(data@), j),
{
    let mut table: [u32; 256] = [0u32; 256];
    let mut cumulative: [u64; 257] = [0u64; 257];
    let ghost model = stored_table(data@);
    let mut total: u64 = 0;
    let mut k: usize = 0;
    while k < 256
        invariant
            k <= 256,
            data@.len() >= PREFIX + 4,
            model == stored_table(data@),
            forall|j: int| 0 <= j < k ==> (#[trigger] table@[j]) == model[j],
            total == sum_of(model, k as int),
            total <= k * 0xFFFF_FFFF,
            forall|j: int| 0 <= j <= k ==> (#[trigger] cumulative@[j]) == sum_of(model, j),
        decreases 256 - k,
    {
        let frequency: u32 = read_u32(data, 4 * k);
        table[k] = frequency;
        total = total + frequency as u64;
        cumulative[k + 1] = total;
        k += 1;
    }
    assert(table@ =~= model);
    (table, cumulative, total)
}

/// Decodes what `range_encode` made. Fails with a decompression error exactly
/// where `range_decoding` gives nothing.
pub fn range_decode(data: &[u8]) -> (result: Result<Vec<u8>, HlcError>)
    ensures
        match range_decoding(data@) {
            Some(decoded) => result is Ok && result->Ok_0@ == decoded,
            None => result is Err && result->Err_0 is DecompressionError,
        },
{
    let n: usize = data.len();
    let mut result: Vec<u8> = Vec::new();
    if n == 0 {
        return Ok(result);
    }
    if n < PREFIX + 4 {
        return Err(HlcError::DecompressionError("Invalid range coded data".to_string()));
    }
    let (table, cumulative, total) = read_table(data);
    let ghost model = stored_table(data@);
    if total == 0 || total > BOT {
        return Err(HlcError::DecompressionError("Invalid frequency table".to_string()));
    }
    let count: u32 = read_u32(data, 1024);
    let mut code: u64 = (data[PREFIX] as u64) * 16777216 + (data[PREFIX + 1] as u64) * 65536 + (data[PREFIX
        + 2] as u64) * 256 + (data[PREFIX + 3] as u64);
    let mut at: usize = PREFIX + 4;
    let mut low: u64 = 0;
    let mut range: u64 = FULL - 1;
    let mut decoded: u32 = 0;
    let ghost whole = range_decoding(data@);
    proof {
        if whole is Some {
            assert(result@ + whole->Some_0 =~= whole->Some_0);
        }
    }
    while decoded < count
        invariant
            n == data@.len(),
            at <= n,
            decoded <= count,
            model == stored_table(data@),
            table@ == model,
            total == sum_of(model, 256),
            1 <= total <= BOT,
            forall|j: int| 0 <= j <= 256 ==> (#[trigger] cumulative@[j]) == sum_of(model, j),
            (Interval { low: low as int, range: range as int }).wf(),
            range >= BOT,
            code < FULL,
            whole == range_decoding(data@),
            crate::transforms::dictionary::before(
                result@,
                decoded_symbols(
                    data@,
                    at as int,
                    model,
                    Interval { low: low as int, range: range as int },
                    code as int,
                    (count - decoded) as nat,
                ),
            ) == whole,
        decreases count - decoded,
    {
        let ghost interval = Interval { low: low as int, range: range as int };
        let ghost code_before = code as int;
        let ghost at_before = at as int;
        let ghost done = result@;
        let ghost left = (count - decoded) as nat;
        let symbol = match next_symbol(&table, &cumulative, total, &mut low, &mut range, code) {
            Some(symbol) => symbol,
            None => {
                assert(decoded_symbols(data@, at_before, model, interval, code_before, left) is None);
                return Err(HlcError::DecompressionError("Invalid range coded data".to_string()));
            },
        };
        let ghost narrow = Interval { low: low as int, range: range as int };
        if !settle_reading(&mut low, &mut range, &mut code, data, &mut at) {
            assert(decoded_symbols(data@, at_before, model, interval, code_before, left) is None);
            return Err(HlcError::DecompressionError("Insufficient data for range".to_string()));
        }
        result.push(symbol);
        proof {
            let rest = decoded_symbols(
                data@,
                at as int,
                model,
                Interval { low: low as int, range: range as int },
                code as int,
                (left - 1) as nat,
            );
            assert(decoded_symbols(data@, at_before, model, interval, code_before, left) == (match rest {
                Some(tail) => Some(seq![symbol] + tail),
                None => None,
            }));
            if rest is Some {
                assert(done.push(symbol) + rest->Some_0 =~= done + (seq![symbol] + rest->Some_0));
            }
        }
        decoded += 1;
    }
    proof {
        assert(result@ + Seq::<u8>::empty() =~= result@);
    }
    Ok(result)
}

impl EntropyCoder for RangeCoder {
    open spec fn encoding(&self, data: Seq<u8>) -> Option<Seq<u8>> {
        range_encoding(data)
    }

    open spec fn decoding(&self, data: Seq<u8>) -> Option<Seq<u8>> {
        range_decoding(data)
    }

    open spec fn method_spec(&self) -> EntropyMethod {
        EntropyMethod::RangeCoder
    }

    fn encode(&self, data: &[u8]) -> (result: Result<Vec<u8>, HlcError>) {
        range_encode(data)
    }

    fn decode(&self, data: &[u8]) -> (result: Result<Vec<u8>, HlcError>) {
        range_decode(data)
    }

    fn method(&self) -> (method: EntropyMethod) {
        EntropyMethod::RangeCoder
    }
}

impl Default for RangeCoder {
    fn default() -> (coder: Self)
        ensures
            coder.precision() == 16,
    {
        Self::new()
    }
}

} // verus!
