//! The range decoder gives back what the range encoder coded.
//!
//! The bytes that leave the encoder are the top bytes of the start of its
//! interval, and no later step carries into them. So the four bytes that the
//! decoder holds always lie in the encoder's interval, and the decoder finds
//! the symbol that narrowed it.

use vstd::prelude::*;
use crate::endian::{lemma_u32_roundtrip, u32_at, u32_bytes};
use crate::entropy::codec_utils::{lemma_entry_le_sum, lemma_sum_monotone, occurrences, occurrences_in, sum_of};
use crate::entropy::range::{
    code_value, coded_symbols, decoded_symbols, first_code, flushed, lemma_narrow, lemma_occurs, lemma_settled,
    lemma_shift, range_decoding, range_encoding, refilled, scaled, settle_bytes, settled, stored_table,
    symbol_above, table_bytes, table_of, whole_interval, Interval, BOT, ENOUGH, FULL, PREFIX, SCALE, TOP,
};

verus! {

/// The number of bytes under `symbols` among the first `n` of `s`.
spec fn occurrences_below(s: Seq<u8>, symbols: int, n: int) -> nat
    decreases n,
{
    if n <= 0 {
        0
    } else {
        occurrences_below(s, symbols, n - 1) + if (s[n - 1] as int) < symbols { 1nat } else { 0nat }
    }
}

/// The bytes under `symbol + 1` are those under `symbol` and those equal to it.
proof fn lemma_occurrences_split(s: Seq<u8>, symbol: u8, n: int)
    ensures
        occurrences_below(s, symbol + 1, n) == occurrences_below(s, symbol as int, n) + occurrences_in(s, symbol, n),
    decreases n,
{
    if n > 0 {
        lemma_occurrences_split(s, symbol, n - 1);
    }
}

/// There are no more bytes under a bound than bytes.
proof fn lemma_occurrences_below_bound(s: Seq<u8>, symbols: int, n: int)
    requires
        0 <= n,
    ensures
        occurrences_below(s, symbols, n) <= n,
    decreases n,
{
    if n > 0 {
        lemma_occurrences_below_bound(s, symbols, n - 1);
    }
}

/// Rounding down two shares of a total gives no more than rounding down their sum.
proof fn lemma_shares(a: int, b: int, count: int)
    requires
        0 <= a,
        0 <= b,
        0 < count,
    ensures
        (a * SCALE) / count + (b * SCALE) / count <= ((a + b) * SCALE) / count,
{
    let x = a * SCALE;
    let y = b * SCALE;
    assert((a + b) * SCALE == x + y) by (nonlinear_arith)
        requires
            x == a * SCALE,
            y == b * SCALE,
    ;
    assert(x / count + y / count <= (x + y) / count) by (nonlinear_arith)
        requires
            0 <= x,
            0 <= y,
            0 < count,
    ;
}

/// The first `symbols` entries of the table of `data` sum to no more than the
/// share of the bytes under `symbols`, and one for each entry.
proof fn lemma_table_sum(data: Seq<u8>, symbols: int)
    requires
        0 < data.len(),
        0 <= symbols <= 256,
    ensures
        sum_of(table_of(data), symbols) <= (occurrences_below(data, symbols, data.len() as int) * SCALE) / (
        data.len() as int) + symbols,
    decreases symbols,
{
    let count = data.len() as int;
    if symbols > 0 {
        let symbol = (symbols - 1) as u8;
        let under = occurrences_below(data, symbols - 1, count) as int;
        let here = occurrences(data, symbol) as int;
        lemma_table_sum(data, symbols - 1);
        lemma_occurrences_split(data, symbol, count);
        lemma_shares(under, here, count);
        assert(table_of(data)[symbols - 1] == scaled(here as nat, count as nat));
        assert(scaled(here as nat, count as nat) <= (here * SCALE) / count + 1);
    } else {
        assert(occurrences_below(data, 0, count) * SCALE >= 0) by (nonlinear_arith);
    }
}

/// The table of `data` has a total of 1 at least and 65536 at most, and the
/// entry of each byte of `data` is 1 at least.
pub proof fn lemma_table_total(data: Seq<u8>)
    requires
        0 < data.len(),
    ensures
        1 <= sum_of(table_of(data), 256) <= BOT,
        forall|i: int| 0 <= i < data.len() ==> table_of(data)[#[trigger] data[i] as int] >= 1,
{
    let count = data.len() as int;
    let all = occurrences_below(data, 256, count) as int;
    lemma_table_sum(data, 256);
    lemma_occurrences_below_bound(data, 256, count);
    assert((all * SCALE) / count <= SCALE) by (nonlinear_arith)
        requires
            0 <= all <= count,
            0 < count,
    ;
    assert forall|i: int| 0 <= i < data.len() implies table_of(data)[#[trigger] data[i] as int] >= 1 by {
        lemma_occurs(data, i, count);
        assert(table_of(data)[data[i] as int] == scaled(occurrences(data, data[i]), data.len()));
    }
    lemma_entry_le_sum(table_of(data), data[0] as int, 256);
}

/// Taking a byte into the code value moves its four-byte window on by one.
proof fn lemma_refilled(code: int, input: Seq<u8>, at: int, count: nat)
    requires
        4 <= at,
        at + count <= input.len(),
        code == first_code(input, at - 4),
    ensures
        refilled(code, input, at, count) == first_code(input, at - 4 + count),
    decreases count,
{
    if count > 0 {
        let next = (code * 256 + input[at] as int) % (FULL as int);
        let kept = first_code(input, at - 3);
        assert(code * 256 + input[at] as int == input[at - 4] as int * FULL + kept);
        assert(0 <= kept < FULL);
        assert(next == kept) by (nonlinear_arith)
            requires
                next == (input[at - 4] as int * FULL + kept) % (FULL as int),
                0 <= kept < FULL,
                0 <= input[at - 4] as int,
        ;
        lemma_refilled(next, input, at + 1, (count - 1) as nat);
    }
}

/// A code that lies in the interval after a byte has left lay in the interval
/// before, with that byte in front.
proof fn lemma_shift_holds(interval: Interval, stream: Seq<u8>, at: int)
    requires
        interval.wf(),
        interval.shifts(),
        0 <= at,
        at + 5 <= stream.len(),
        stream[at] == (interval.low / (TOP as int)) as u8,
        interval.shifted().low <= first_code(stream, at + 1) < interval.shifted().low + interval.shifted().range,
    ensures
        interval.low <= first_code(stream, at) < interval.low + interval.range,
{
    let low = interval.low;
    let range = interval.range;
    let top = low / (TOP as int);
    let rest = low % (TOP as int);
    let after = first_code(stream, at + 1);
    let kept = stream[at + 1] as int * 65536 + stream[at + 2] as int * 256 + stream[at + 3] as int;
    lemma_shift(interval);
    assert(low == top * TOP + rest);
    assert(0 <= top < 256);
    assert(after == kept * 256 + stream[at + 4] as int);
    assert(first_code(stream, at) == top * TOP + kept);
    if interval.settled_top() {
        if low + range == FULL {
            assert((low + range) % (FULL as int) == 0);
        }
        assert((low + range) % (FULL as int) == low + range);
        assert(rest + range < TOP);
        assert((range * 256) % (FULL as int) == range * 256);
    } else {
        let under = low % (BOT as int);
        let block = low / (BOT as int);
        assert(low == block * BOT + under);
        let width = (BOT - under) % (BOT as int);
        if under == 0 {
            assert(low + range < FULL);
            assert((low + range) % (FULL as int) == low + range);
            assert(rest % 65536 == 0);
            assert((low + range) / (TOP as int) == top);
        }
        assert(width == BOT - under);
        assert((width * 256) % (FULL as int) == width * 256);
        if width > range {
            assert(low + range < (block + 1) * BOT);
            assert(low + range < FULL);
            assert((low + range) % (FULL as int) == low + range);
            assert((low + range) / (BOT as int) == block);
            assert((low + range) / (TOP as int) == block / 256);
            assert(top == block / 256);
        }
    }
}

/// A code that lies in the settled interval, with the bytes that left in
/// front of it, lies in the interval before.
proof fn lemma_settle_holds(interval: Interval, fuel: nat, stream: Seq<u8>, at: int)
    requires
        interval.wf(),
        0 <= at,
        at + settle_bytes(interval, fuel).len() + 4 <= stream.len(),
        forall|k: int|
            0 <= k < settle_bytes(interval, fuel).len() ==> stream[at + k] == #[trigger] settle_bytes(
                interval,
                fuel,
            )[k],
        settled(interval, fuel).low <= first_code(stream, at + settle_bytes(interval, fuel).len()) < settled(
            interval,
            fuel,
        ).low + settled(interval, fuel).range,
    ensures
        interval.low <= first_code(stream, at) < interval.low + interval.range,
    decreases fuel,
{
    if fuel > 0 && interval.shifts() {
        let next = interval.shifted();
        let left = (fuel - 1) as nat;
        let bytes = settle_bytes(interval, fuel);
        lemma_shift(interval);
        assert(bytes == seq![(interval.low / (TOP as int)) as u8] + settle_bytes(next, left));
        assert(bytes.len() == 1 + settle_bytes(next, left).len());
        assert forall|k: int| 0 <= k < settle_bytes(next, left).len() implies stream[at + 1 + k]
            == #[trigger] settle_bytes(next, left)[k] by {
            assert(bytes[k + 1] == settle_bytes(next, left)[k]);
        }
        lemma_settle_holds(next, left, stream, at + 1);
        assert(stream[at] == bytes[0]);
        lemma_shift_holds(interval, stream, at);
    }
}

/// Narrowing a wide interval to a symbol gives a part of it, without any wrap.
proof fn lemma_narrow_within(interval: Interval, below: int, frequency: int, total: int)
    requires
        interval.wf(),
        interval.range >= BOT,
        0 <= below,
        1 <= frequency,
        below + frequency <= total <= BOT,
    ensures
        interval.range / total >= 1,
        interval.narrowed(below, frequency, total).low == interval.low + below * (interval.range / total),
        interval.narrowed(below, frequency, total).range == (interval.range / total) * frequency,
        interval.low + below * (interval.range / total) + (interval.range / total) * frequency <= interval.low
            + interval.range,
        below * (interval.range / total) >= 0,
{
    let unit = interval.range / total;
    assert(unit >= 1) by (nonlinear_arith)
        requires
            unit == interval.range / total,
            1 <= total <= interval.range,
    ;
    assert(unit * total <= interval.range) by (nonlinear_arith)
        requires
            unit == interval.range / total,
            total >= 1,
            interval.range >= 0,
    ;
    assert(below * unit + unit * frequency <= unit * total) by (nonlinear_arith)
        requires
            below + frequency <= total,
            unit >= 0,
    ;
    assert(below * unit >= 0) by (nonlinear_arith)
        requires
            below >= 0,
            unit >= 0,
    ;
    assert(unit * frequency >= 1) by (nonlinear_arith)
        requires
            unit >= 1,
            frequency >= 1,
    ;
}

/// Whether `table` can code the symbols of `data` from `at` on: its total is
/// 1 at least and 65536 at most, and each of these symbols has an entry.
spec fn codes(table: Seq<u32>, data: Seq<u8>, at: int) -> bool {
    &&& table.len() == 256
    &&& 1 <= sum_of(table, 256) <= BOT
    &&& forall|i: int| at <= i < data.len() ==> table[#[trigger] data[i] as int] >= 1
}

/// The interval that the symbol at `at` narrows `interval` to.
spec fn narrowed_to(data: Seq<u8>, table: Seq<u32>, interval: Interval, at: int) -> Interval {
    let symbol = data[at] as int;
    interval.narrowed(sum_of(table, symbol) as int, table[symbol] as int, sum_of(table, 256) as int)
}

/// The first four bytes of what is coded from an interval on lie in it, and
/// in the part of it that the next symbol narrows it to.
proof fn lemma_code_within(data: Seq<u8>, table: Seq<u32>, interval: Interval, at: int)
    requires
        0 <= at <= data.len(),
        interval.wf(),
        interval.range >= BOT,
        codes(table, data, at),
    ensures
        coded_symbols(data, table, interval, at).len() >= 4,
        interval.low <= first_code(coded_symbols(data, table, interval, at), 0) < interval.low + interval.range,
        at < data.len() ==> narrowed_to(data, table, interval, at).low <= first_code(
            coded_symbols(data, table, interval, at),
            0,
        ) < narrowed_to(data, table, interval, at).low + narrowed_to(data, table, interval, at).range,
    decreases data.len() - at,
{
    let stream = coded_symbols(data, table, interval, at);
    if at >= data.len() {
        let low = interval.low;
        assert(stream == flushed(low));
        let b0 = low / 16777216;
        let b1 = (low / 65536) % 256;
        let b2 = (low / 256) % 256;
        let b3 = low % 256;
        assert(low == 256 * (low / 256) + b3);
        assert(low / 256 == 256 * ((low / 256) / 256) + b2);
        assert((low / 256) / 256 == low / 65536);
        assert(low / 65536 == 256 * ((low / 65536) / 256) + b1);
        assert((low / 65536) / 256 == b0);
        assert(first_code(stream, 0) == low);
    } else {
        let symbol = data[at] as int;
        let total = sum_of(table, 256) as int;
        let below = sum_of(table, symbol) as int;
        let frequency = table[symbol] as int;
        let narrow = interval.narrowed(below, frequency, total);
        lemma_sum_monotone(table, symbol + 1, 256);
        lemma_narrow(interval, below, frequency, total);
        lemma_narrow_within(interval, below, frequency, total);
        lemma_settled(narrow);
        let bytes = settle_bytes(narrow, ENOUGH as nat);
        let next = settled(narrow, ENOUGH as nat);
        let rest = coded_symbols(data, table, next, at + 1);
        lemma_code_within(data, table, next, at + 1);
        assert(stream == bytes + rest);
        let taken = bytes.len() as int;
        assert(first_code(stream, taken) == first_code(rest, 0)) by {
            assert(stream[taken] == rest[0]);
            assert(stream[taken + 1] == rest[1]);
            assert(stream[taken + 2] == rest[2]);
            assert(stream[taken + 3] == rest[3]);
        }
        assert forall|k: int| 0 <= k < bytes.len() implies stream[0 + k] == #[trigger] bytes[k] by {}
        lemma_settle_holds(narrow, ENOUGH as nat, stream, 0);
    }
}

/// The symbol whose share of the table holds `value` is the one that
/// `symbol_above` finds.
proof fn lemma_symbol_found(table: Seq<u32>, value: int, symbol: int, start: int)
    requires
        0 <= start <= symbol <= 255,
        sum_of(table, symbol) <= value < sum_of(table, symbol + 1),
    ensures
        symbol_above(table, value, start) == symbol,
    decreases symbol - start,
{
    if start < symbol {
        lemma_sum_monotone(table, start + 1, symbol);
        lemma_symbol_found(table, value, symbol, start + 1);
    }
}

/// A code within the part of a symbol has a value within the symbol's share.
proof fn lemma_value_within(offset: int, unit: int, below: int, frequency: int)
    requires
        1 <= unit,
        0 <= below,
        below * unit <= offset < below * unit + unit * frequency,
    ensures
        below <= offset / unit < below + frequency,
{
    assert(offset / unit >= below) by (nonlinear_arith)
        requires
            1 <= unit,
            below * unit <= offset,
    ;
    assert(below * unit + unit * frequency == (below + frequency) * unit) by (nonlinear_arith);
    assert(offset / unit < below + frequency) by (nonlinear_arith)
        requires
            1 <= unit,
            offset < (below + frequency) * unit,
    ;
}

/// Decoding what was coded from an interval on, with the first four bytes of
/// it as the code value, gives the symbols back.
proof fn lemma_decoded(input: Seq<u8>, from: int, data: Seq<u8>, table: Seq<u32>, interval: Interval, at: int)
    requires
        4 <= from <= input.len(),
        0 <= at <= data.len(),
        interval.wf(),
        interval.range >= BOT,
        codes(table, data, at),
        input.skip(from - 4) == coded_symbols(data, table, interval, at),
    ensures
        decoded_symbols(input, from, table, interval, first_code(input, from - 4), (data.len() - at) as nat)
            == Some(data.skip(at)),
    decreases data.len() - at,
{
    let count = (data.len() - at) as nat;
    let code = first_code(input, from - 4);
    if count == 0 {
        assert(data.skip(at) =~= Seq::<u8>::empty());
    } else {
        let stream = coded_symbols(data, table, interval, at);
        let symbol = data[at] as int;
        let total = sum_of(table, 256) as int;
        let below = sum_of(table, symbol) as int;
        let frequency = table[symbol] as int;
        let unit = interval.range / total;
        let narrow = interval.narrowed(below, frequency, total);
        lemma_sum_monotone(table, symbol + 1, 256);
        lemma_narrow(interval, below, frequency, total);
        lemma_narrow_within(interval, below, frequency, total);
        lemma_code_within(data, table, interval, at);
        assert(first_code(stream, 0) == code) by {
            assert(stream[0] == input[from - 4]);
            assert(stream[1] == input[from - 3]);
            assert(stream[2] == input[from - 2]);
            assert(stream[3] == input[from - 1]);
        }
        let offset = code - interval.low;
        assert((code - interval.low) % (FULL as int) == offset);
        lemma_value_within(offset, unit, below, frequency);
        let value = code_value(interval, code, total);
        assert(value == offset / unit);
        lemma_symbol_found(table, value, symbol, 0);
        lemma_settled(narrow);
        let bytes = settle_bytes(narrow, ENOUGH as nat);
        let next = settled(narrow, ENOUGH as nat);
        let rest = coded_symbols(data, table, next, at + 1);
        lemma_code_within(data, table, next, at + 1);
        assert(stream == bytes + rest);
        assert(stream.len() == input.len() - (from - 4));
        let taken = bytes.len() as int;
        assert(from + taken <= input.len());
        lemma_refilled(code, input, from, taken as nat);
        assert(input.skip(from + taken - 4) =~= rest) by {
            assert forall|k: int| 0 <= k < rest.len() implies input.skip(from + taken - 4)[k] == rest[k] by {
                assert(stream[taken + k] == rest[k]);
                assert(stream[taken + k] == input[from - 4 + taken + k]);
            }
        }
        lemma_decoded(input, from + taken, data, table, next, at + 1);
        assert(seq![symbol as u8] + data.skip(at + 1) =~= data.skip(at));
    }
}

/// The bytes of the first `n` entries of a table are four for each entry, and
/// hold the entries.
proof fn lemma_table_bytes(table: Seq<u32>, n: int, rest: Seq<u8>)
    requires
        0 <= n,
    ensures
        table_bytes(table, n).len() == 4 * n,
        forall|symbol: int|
            0 <= symbol < n ==> u32_at(table_bytes(table, n) + rest, 4 * symbol) == #[trigger] table[symbol],
    decreases n,
{
    if n > 0 {
        let front = table_bytes(table, n - 1);
        let entry = u32_bytes(table[n - 1]);
        lemma_table_bytes(table, n - 1, entry + rest);
        lemma_u32_roundtrip(table[n - 1]);
        assert(table_bytes(table, n) + rest =~= front + (entry + rest));
        let whole = table_bytes(table, n) + rest;
        assert(u32_at(whole, 4 * (n - 1)) == table[n - 1]) by {
            assert(whole[4 * (n - 1)] == entry[0]);
            assert(whole[4 * (n - 1) + 1] == entry[1]);
            assert(whole[4 * (n - 1) + 2] == entry[2]);
            assert(whole[4 * (n - 1) + 3] == entry[3]);
        }
    }
}

/// Decoding the code of `data` gives `data` back, for all data that the
/// encoder takes.
pub proof fn lemma_range_roundtrip(data: Seq<u8>)
    requires
        data.len() <= u32::MAX,
    ensures
        range_encoding(data) is Some,
        range_decoding(range_encoding(data)->Some_0) == Some(data),
{
    if data.len() > 0 {
        let table = table_of(data);
        let count = u32_bytes(data.len() as u32);
        let stream = coded_symbols(data, table, whole_interval(), 0);
        let input = table_bytes(table, 256) + count + stream;
        lemma_table_total(data);
        assert(codes(table, data, 0));
        lemma_code_within(data, table, whole_interval(), 0);
        lemma_table_bytes(table, 256, count + stream);
        lemma_u32_roundtrip(data.len() as u32);
        assert(input =~= table_bytes(table, 256) + (count + stream));
        assert(stored_table(input) =~= table);
        assert(u32_at(input, 1024) == data.len()) by {
            assert(input[1024] == count[0]);
            assert(input[1025] == count[1]);
            assert(input[1026] == count[2]);
            assert(input[1027] == count[3]);
        }
        assert(input.skip(PREFIX as int) =~= stream);
        lemma_decoded(input, PREFIX + 4, data, table, whole_interval(), 0);
        assert(data.skip(0) =~= data);
    }
}

} // verus!
