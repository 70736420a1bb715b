//! What holds of the arithmetic coder: the code of a message is decoded to
//! the message.

use crate::arithmetic::coder::{
    coded, coded_bits, coded_state, decoded_message, emitted, first_value, left_behind,
    message_bits, message_bytes, message_from, next_of, settled, symbol_at, taken_in, widened,
    with_next, with_symbol, CoderState, DecoderState,
};
use crate::arithmetic::frequencies::{
    halved, initial_model, lemma_sum_above_bumped, lemma_sum_at_least, lemma_sum_falls,
    lemma_sum_nonnegative, lemma_sum_of_ones, settled_index, sum_above, symbol_of, updated,
    Model,
};
use crate::arithmetic::limits::{
    is_interval, lemma_narrowed, narrowed_high, narrowed_low, target, CODE_VALUE_FIRST_QUARTER,
    CODE_VALUE_HALF, CODE_VALUE_MAX, CODE_VALUE_THIRD_QUARTER, EOF_SYMBOL, MAX_FREQUENCY,
    NUMBER_OF_CHARS, NUMBER_OF_SYMBOLS,
};
use crate::huffman::iterator::{bit_of, bit_value};
use crate::huffman::table::{letter_value, partial_letter};
use vstd::prelude::*;

verus! {

/// A byte has a symbol number in the model.
pub open spec fn has_symbol(model: Model, byte: u8) -> bool {
    exists|i: int| 1 <= i <= NUMBER_OF_CHARS && #[trigger] model.index_to_char[i] == byte
}

/// The model is consistent: each symbol has a frequency of one or more,
/// the frequencies add up to no more than their limit, and each byte has a
/// symbol number.
pub open spec fn model_ok(model: Model) -> bool {
    &&& model.frequencies.len() == NUMBER_OF_SYMBOLS + 1
    &&& model.index_to_char.len() == NUMBER_OF_SYMBOLS + 1
    &&& model.frequencies[0] == 0
    &&& forall|i: int| 1 <= i <= NUMBER_OF_SYMBOLS ==> #[trigger] model.frequencies[i] >= 1
    &&& sum_above(model.frequencies, 0) <= MAX_FREQUENCY
    &&& forall|byte: u8| #[trigger] has_symbol(model, byte)
}

/// The model at the start is consistent.
pub proof fn lemma_initial_model_ok()
    ensures
        model_ok(initial_model()),
{
    let model = initial_model();
    lemma_sum_of_ones(model.frequencies, 0);
    assert forall|byte: u8| #[trigger] has_symbol(model, byte) by {
        assert(model.index_to_char[byte as int + 1] == byte);
    }
}

/// The symbol number of a byte is the number of a byte, and the byte of
/// that number is the byte.
pub proof fn lemma_symbol_of(model: Model, byte: u8)
    requires
        model_ok(model),
    ensures
        1 <= symbol_of(model, byte) <= NUMBER_OF_CHARS,
        model.index_to_char[symbol_of(model, byte)] == byte,
{
    assert(has_symbol(model, byte));
}

/// Halved frequencies add up to half the sum, and at most one half more
/// for each.
pub proof fn lemma_halved_sum(frequencies: Seq<usize>, index: int)
    requires
        frequencies.len() == NUMBER_OF_SYMBOLS + 1,
        0 <= index <= NUMBER_OF_SYMBOLS,
    ensures
        2 * sum_above(halved(frequencies), index) <= sum_above(frequencies, index) + (
        NUMBER_OF_SYMBOLS - index),
    decreases NUMBER_OF_SYMBOLS - index,
{
    if index < NUMBER_OF_SYMBOLS {
        lemma_halved_sum(frequencies, index + 1);
    }
}

/// A symbol settles at the number of a symbol that is not above its own.
pub proof fn lemma_settled_index(frequencies: Seq<usize>, index: int)
    requires
        frequencies[0] == 0,
        1 <= index,
        forall|i: int| 1 <= i <= index ==> #[trigger] frequencies[i] >= 1,
    ensures
        1 <= settled_index(frequencies, index) <= index,
    decreases index,
{
    if index >= 1 && frequencies[index] == frequencies[index - 1] {
        assert(frequencies[index] >= 1);
        lemma_settled_index(frequencies, index - 1);
    }
}

/// A consistent model stays consistent when a byte is counted.
pub proof fn lemma_updated_ok(model: Model, symbol: int)
    requires
        model_ok(model),
        1 <= symbol <= NUMBER_OF_CHARS,
    ensures
        model_ok(updated(model, symbol)),
{
    let total = sum_above(model.frequencies, 0);
    let base = if total == MAX_FREQUENCY {
        halved(model.frequencies)
    } else {
        model.frequencies
    };
    if total == MAX_FREQUENCY {
        lemma_halved_sum(model.frequencies, 0);
    }
    assert forall|i: int| 1 <= i <= NUMBER_OF_SYMBOLS implies #[trigger] base[i] >= 1 by {
        assert(model.frequencies[i] >= 1);
    }
    assert(sum_above(base, 0) < MAX_FREQUENCY);
    lemma_settled_index(base, symbol);
    let place = settled_index(base, symbol);
    lemma_sum_falls(base, 0, place);
    lemma_sum_falls(base, 0, place - 1);
    assert(sum_above(base, place - 1) == base[place] + sum_above(base, place));
    let after = updated(model, symbol);
    lemma_sum_above_bumped(base, after.frequencies, 0, place);
    assert forall|byte: u8| #[trigger] has_symbol(after, byte) by {
        assert(has_symbol(model, byte));
        let i = choose|i: int|
            1 <= i <= NUMBER_OF_CHARS && #[trigger] model.index_to_char[i] == byte;
        if i == symbol {
            assert(after.index_to_char[place] == byte);
        } else if i == place {
            assert(after.index_to_char[symbol] == byte);
        } else {
            assert(after.index_to_char[i] == byte);
        }
    }
}

/// The symbol at a sum is the symbol between whose sums the sum lies.
pub proof fn lemma_symbol_at(frequencies: Seq<usize>, cum: int, from: int, symbol: int)
    requires
        1 <= from <= symbol <= NUMBER_OF_SYMBOLS,
        sum_above(frequencies, symbol) <= cum < sum_above(frequencies, symbol - 1),
    ensures
        symbol_at(frequencies, cum, from) == symbol,
    decreases symbol - from,
{
    if from < symbol {
        lemma_sum_falls(frequencies, from, symbol - 1);
        lemma_symbol_at(frequencies, cum, from + 1, symbol);
    }
}

/// The sum of a code value in the part of a symbol lies between the sums
/// of the symbol.
pub proof fn lemma_narrowed_target(
    low: int,
    high: int,
    code_value: int,
    symbol_low: int,
    symbol_high: int,
    total: int,
)
    requires
        0 <= low <= high,
        0 < total,
        0 <= symbol_low <= symbol_high,
        narrowed_low(low, high, symbol_low, total) <= code_value <= narrowed_high(
            low,
            high,
            symbol_high,
            total,
        ),
    ensures
        symbol_low <= target(low, high, code_value, total) < symbol_high,
{
    let range = high - low + 1;
    let v = code_value - low + 1;
    let x = v * total - 1;
    let below = range * symbol_low;
    let above = range * symbol_high;
    assert(below >= 0) by (nonlinear_arith)
        requires
            range >= 0,
            symbol_low >= 0,
            below == range * symbol_low,
    ;
    assert(above >= 0) by (nonlinear_arith)
        requires
            range >= 0,
            symbol_high >= 0,
            above == range * symbol_high,
    ;
    vstd::arithmetic::div_mod::lemma_fundamental_div_mod(below, total);
    vstd::arithmetic::div_mod::lemma_mod_bound(below, total);
    vstd::arithmetic::div_mod::lemma_fundamental_div_mod(above, total);
    vstd::arithmetic::div_mod::lemma_mod_bound(above, total);
    let q = below / total;
    let r = above / total;
    assert(v >= q + 1);
    assert(v <= r);
    assert(v * total >= (q + 1) * total) by (nonlinear_arith)
        requires
            v >= q + 1,
            total > 0,
    ;
    assert((q + 1) * total == total * q + total) by (nonlinear_arith);
    assert(below < v * total);
    assert(v * total <= r * total) by (nonlinear_arith)
        requires
            v <= r,
            total > 0,
    ;
    assert(r * total == total * r) by (nonlinear_arith);
    assert(v * total <= above);
    // below <= x < above
    assert(below <= x < above);
    vstd::arithmetic::div_mod::lemma_div_is_ordered(below, x, range);
    vstd::arithmetic::div_mod::lemma_div_multiples_vanish(symbol_low, range);
    assert(symbol_low * range == below) by (nonlinear_arith)
        requires
            below == range * symbol_low,
    ;
    assert(symbol_high * range == above) by (nonlinear_arith)
        requires
            above == range * symbol_high,
    ;
    vstd::arithmetic::div_mod::lemma_div_by_multiple_is_strongly_ordered(
        x,
        above,
        symbol_high,
        range,
    );
    vstd::arithmetic::div_mod::lemma_div_multiples_vanish(symbol_high, range);
}

/// The decoder finds the symbol in whose part of the interval the code
/// value lies.
pub proof fn lemma_symbol_found(state: DecoderState, model: Model, symbol: int)
    requires
        model_ok(model),
        0 <= state.low <= state.high,
        1 <= symbol <= NUMBER_OF_SYMBOLS,
        narrowed_low(
            state.low,
            state.high,
            sum_above(model.frequencies, symbol),
            sum_above(model.frequencies, 0),
        ) <= state.value <= narrowed_high(
            state.low,
            state.high,
            sum_above(model.frequencies, symbol - 1),
            sum_above(model.frequencies, 0),
        ),
    ensures
        next_of(state, model) == symbol,
{
    let total = sum_above(model.frequencies, 0);
    lemma_sum_at_least(model.frequencies, 0);
    lemma_sum_nonnegative(model.frequencies, symbol);
    lemma_sum_falls(model.frequencies, symbol - 1, symbol);
    lemma_narrowed_target(
        state.low,
        state.high,
        state.value,
        sum_above(model.frequencies, symbol),
        sum_above(model.frequencies, symbol - 1),
        total,
    );
    lemma_symbol_at(
        model.frequencies,
        target(state.low, state.high, state.value, total),
        1,
        symbol,
    );
}

/// The bits behind the first `count` bits; none where there are fewer.
pub open spec fn behind(bits: Seq<bool>, count: int) -> Seq<bool> {
    if 0 <= count <= bits.len() {
        bits.skip(count)
    } else {
        Seq::empty()
    }
}

/// The code value that a decoder holds in front of the bits `tail` that an
/// encoder still writes, while `pending` bits wait in the encoder: the
/// first bit, and the fifteen bits behind the bits that wait.
pub open spec fn window(tail: Seq<bool>, pending: int) -> int {
    32768 * bit_value(tail, 0) + partial_letter(tail, pending + 1, 15)
}

/// The bits that wait are the opposite of the first bit.
pub open spec fn waits(tail: Seq<bool>, pending: int) -> bool {
    forall|j: int| 1 <= j <= pending ==> #[trigger] bit_value(tail, j) == 1 - bit_value(tail, 0)
}

/// The bits `tail` suit an encoder with the interval from `low` to `high`
/// and `pending` bits that wait: the code value in front of them lies in
/// the interval.
pub open spec fn suits(low: int, high: int, pending: int, tail: Seq<bool>) -> bool {
    waits(tail, pending) && low <= window(tail, pending) <= high
}

/// No bit is 1.
pub open spec fn all_zero(bits: Seq<bool>) -> bool {
    forall|k: int| 0 <= k < bits.len() ==> !#[trigger] bits[k]
}

/// A number of bits is the first bit in its place and the number of the
/// others.
pub proof fn lemma_number_front(bits: Seq<bool>, from: int, count: int)
    requires
        0 <= count <= 16,
    ensures
        partial_letter(bits, from, count + 1) == crate::arithmetic::limits::doubled(count)
            * bit_value(bits, from) + partial_letter(bits, from + 1, count),
        0 <= partial_letter(bits, from, count) < crate::arithmetic::limits::doubled(count),
    decreases count,
{
    if count > 0 {
        lemma_number_front(bits, from, count - 1);
        lemma_number_front(bits, from + 1, count - 1);
        assert(crate::arithmetic::limits::doubled(count) == 2 * crate::arithmetic::limits::doubled(
            count - 1,
        ));
        let whole = crate::arithmetic::limits::doubled(count);
        let half = crate::arithmetic::limits::doubled(count - 1);
        let first = bit_value(bits, from);
        assert(whole * first == 2 * (half * first)) by (nonlinear_arith)
            requires
                whole == 2 * half,
        ;
        assert(partial_letter(bits, from, count + 1) == 2 * partial_letter(bits, from, count)
            + bit_value(bits, from + count));
        assert(partial_letter(bits, from + 1, count) == 2 * partial_letter(
            bits,
            from + 1,
            count - 1,
        ) + bit_value(bits, from + count));
    } else {
        assert(partial_letter(bits, from, 1) == 2 * partial_letter(bits, from, 0) + bit_value(
            bits,
            from,
        ));
    }
}

/// A number of bits behind a first part of a sequence is the number of the
/// bits of what stands behind that part.
pub proof fn lemma_number_shift(first: Seq<bool>, second: Seq<bool>, from: int, count: int)
    requires
        0 <= from,
    ensures
        partial_letter(first + second, first.len() + from, count) == partial_letter(
            second,
            from,
            count,
        ),
    decreases count,
{
    if count > 0 {
        lemma_number_shift(first, second, from, count - 1);
        assert(bit_value(first + second, first.len() + from + count - 1) == bit_value(
            second,
            from + count - 1,
        ));
    }
}

/// The number of bits 0, and of bits behind the end of a sequence, is 0.
pub proof fn lemma_number_zero(bits: Seq<bool>, from: int, count: int)
    requires
        forall|k: int| from <= k < from + count ==> bit_value(bits, k) == 0,
    ensures
        partial_letter(bits, from, count) == 0,
    decreases count,
{
    if count > 0 {
        lemma_number_zero(bits, from, count - 1);
    }
}

/// The state without the bits that are written.
pub open spec fn fresh(state: CoderState) -> CoderState {
    CoderState { low: state.low, high: state.high, pending: state.pending, bits: Seq::empty() }
}

/// What settles does not depend on the bits that are written: they stay,
/// and the bits that settling writes stand behind them.
pub proof fn lemma_settled_fresh(state: CoderState)
    ensures
        settled(state) == (CoderState {
            low: settled(fresh(state)).low,
            high: settled(fresh(state)).high,
            pending: settled(fresh(state)).pending,
            bits: state.bits + settled(fresh(state)).bits,
        }),
    decreases
        if 0 <= state.low <= state.high <= CODE_VALUE_MAX {
            CODE_VALUE_MAX - (state.high - state.low)
        } else {
            0
        },
{
    let empty = Seq::<bool>::empty();
    if !(0 <= state.low <= state.high <= CODE_VALUE_MAX) {
        assert(state.bits + empty =~= state.bits);
    } else if state.high < CODE_VALUE_HALF || state.low >= CODE_VALUE_HALF {
        let bit = state.low >= CODE_VALUE_HALF;
        let off = if bit {
            CODE_VALUE_HALF as int
        } else {
            0int
        };
        let next = CoderState {
            low: 2 * (state.low - off),
            high: 2 * (state.high - off) + 1,
            pending: 0,
            bits: emitted(state.bits, bit, state.pending),
        };
        let plain = CoderState {
            low: 2 * (state.low - off),
            high: 2 * (state.high - off) + 1,
            pending: 0,
            bits: emitted(empty, bit, state.pending),
        };
        assert(settled(state) == settled(next));
        assert(settled(fresh(state)) == settled(plain));
        lemma_settled_fresh(next);
        lemma_settled_fresh(plain);
        assert(fresh(next) == fresh(plain));
        assert(next.bits =~= state.bits + plain.bits);
        assert(next.bits + settled(fresh(next)).bits =~= state.bits + (plain.bits + settled(
            fresh(plain),
        ).bits));
    } else if state.low >= CODE_VALUE_FIRST_QUARTER && state.high < CODE_VALUE_THIRD_QUARTER {
        let next = CoderState {
            low: 2 * (state.low - CODE_VALUE_FIRST_QUARTER),
            high: 2 * (state.high - CODE_VALUE_FIRST_QUARTER) + 1,
            pending: state.pending + 1,
            bits: state.bits,
        };
        assert(settled(state) == settled(next));
        assert(settled(fresh(state)) == settled(fresh(next)));
        lemma_settled_fresh(next);
    } else {
        assert(state.bits + empty =~= state.bits);
    }
}

/// A settled interval holds the middle of the range, and reaches into the
/// first or into the last quarter.
pub proof fn lemma_settled_interval(state: CoderState)
    requires
        0 <= state.low <= state.high <= CODE_VALUE_MAX,
    ensures
        is_interval(settled(state).low, settled(state).high),
    decreases CODE_VALUE_MAX - (state.high - state.low),
{
    if state.high < CODE_VALUE_HALF {
        lemma_settled_interval(
            CoderState {
                low: 2 * state.low,
                high: 2 * state.high + 1,
                pending: 0,
                bits: emitted(state.bits, false, state.pending),
            },
        );
    } else if state.low >= CODE_VALUE_HALF {
        lemma_settled_interval(
            CoderState {
                low: 2 * (state.low - CODE_VALUE_HALF),
                high: 2 * (state.high - CODE_VALUE_HALF) + 1,
                pending: 0,
                bits: emitted(state.bits, true, state.pending),
            },
        );
    } else if state.low >= CODE_VALUE_FIRST_QUARTER && state.high < CODE_VALUE_THIRD_QUARTER {
        lemma_settled_interval(
            CoderState {
                low: 2 * (state.low - CODE_VALUE_FIRST_QUARTER),
                high: 2 * (state.high - CODE_VALUE_FIRST_QUARTER) + 1,
                pending: state.pending + 1,
                bits: state.bits,
            },
        );
    }
}

/// What a bit that is written, with the bits that waited, says of the bits
/// behind it: the code value in front of all of them is the bit and the
/// first fifteen bits of the others.
pub proof fn lemma_window_written(bit: bool, pending: nat, more: Seq<bool>)
    ensures
        waits(emitted(Seq::empty(), bit, pending) + more, pending as int),
        bit_value(emitted(Seq::empty(), bit, pending) + more, 0) == if bit {
            1int
        } else {
            0int
        },
        window(emitted(Seq::empty(), bit, pending) + more, pending as int) == (if bit {
            32768int
        } else {
            0int
        }) + partial_letter(more, 0, 15),
        window(more, 0) == 2 * partial_letter(more, 0, 15) + bit_value(more, 15),
        bit_value(emitted(Seq::empty(), bit, pending) + more, pending as int + 16) == bit_value(
            more,
            15,
        ),
        behind(emitted(Seq::empty(), bit, pending) + more, pending as int + 17) == behind(more, 16),
{
    let written = emitted(Seq::empty(), bit, pending);
    let all = written + more;
    assert(written.len() == pending + 1);
    assert(all[0] == bit);
    assert forall|j: int| 1 <= j <= pending implies #[trigger] bit_value(all, j) == 1 - bit_value(
        all,
        0,
    ) by {
        assert(all[j] == written[j]);
        assert(written[j] == !bit);
    }
    lemma_number_shift(written, more, 0, 15);
    lemma_number_front(more, 0, 15);
    assert(bit_value(all, written.len() as int + 15) == bit_value(more, 15));
    if pending + 17 <= all.len() {
        assert(all.skip(pending as int + 17) =~= more.skip(16));
    }
}

/// What one more bit that waits says of the bits behind the bits that wait.
pub proof fn lemma_window_waiting(tail: Seq<bool>, pending: int)
    requires
        0 <= pending,
        waits(tail, pending + 1),
    ensures
        waits(tail, pending),
        window(tail, pending + 1) == 2 * (window(tail, pending) - 16384) + bit_value(
            tail,
            pending + 16,
        ),
{
    lemma_number_front(tail, pending + 1, 14);
    assert(partial_letter(tail, pending + 2, 15) == 2 * partial_letter(tail, pending + 2, 14)
        + bit_value(tail, pending + 16));
    assert(bit_value(tail, pending + 1) == 1 - bit_value(tail, 0));
    assert forall|j: int| 1 <= j <= pending implies #[trigger] bit_value(tail, j) == 1 - bit_value(
        tail,
        0,
    ) by {
    }
}

/// The bit that a decoder takes in, and the bits that it leaves behind.
pub proof fn lemma_taken_in(tail: Seq<bool>, value: int, count: int)
    requires
        0 <= count,
    ensures
        taken_in(value, behind(tail, count)) == 2 * value + bit_value(tail, count),
        left_behind(behind(tail, count)) == behind(tail, count + 1),
{
    if count < tail.len() {
        assert(tail.skip(count)[0] == tail[count]);
        assert(tail.skip(count).skip(1) =~= tail.skip(count + 1));
    } else if count == tail.len() {
        assert(tail.skip(count) =~= Seq::<bool>::empty());
    }
}

/// Bits that suit the state that an encoder settles in suit the state
/// before, behind the bits that settling writes.
pub proof fn lemma_suits_settled(state: CoderState, more: Seq<bool>)
    requires
        0 <= state.low <= state.high <= CODE_VALUE_MAX,
        state.bits.len() == 0,
        suits(settled(state).low, settled(state).high, settled(state).pending as int, more),
    ensures
        suits(state.low, state.high, state.pending as int, settled(state).bits + more),
    decreases CODE_VALUE_MAX - (state.high - state.low),
{
    let empty = Seq::<bool>::empty();
    let pending = state.pending;
    assert(state.bits =~= empty);
    if state.high < CODE_VALUE_HALF || state.low >= CODE_VALUE_HALF {
        let bit = state.low >= CODE_VALUE_HALF;
        let off = if bit {
            CODE_VALUE_HALF as int
        } else {
            0int
        };
        let plain = CoderState {
            low: 2 * (state.low - off),
            high: 2 * (state.high - off) + 1,
            pending: 0,
            bits: emitted(empty, bit, pending),
        };
        assert(settled(state) == settled(plain));
        lemma_settled_fresh(plain);
        let inner = settled(fresh(plain));
        lemma_suits_settled(fresh(plain), more);
        let rest = inner.bits + more;
        assert(settled(state).bits + more =~= plain.bits + rest);
        lemma_window_written(bit, pending, rest);
    } else if state.low >= CODE_VALUE_FIRST_QUARTER && state.high < CODE_VALUE_THIRD_QUARTER {
        let next = CoderState {
            low: 2 * (state.low - CODE_VALUE_FIRST_QUARTER),
            high: 2 * (state.high - CODE_VALUE_FIRST_QUARTER) + 1,
            pending: pending + 1,
            bits: state.bits,
        };
        assert(settled(state) == settled(next));
        lemma_suits_settled(next, more);
        lemma_window_waiting(settled(state).bits + more, pending as int);
    } else {
        assert(settled(state).bits + more =~= more);
    }
}

/// A decoder that stands where an encoder stands, in front of the bits
/// that the encoder still writes, stands where the encoder stands once both
/// have settled.
pub proof fn lemma_widened_settled(state: CoderState, decoder: DecoderState, more: Seq<bool>)
    requires
        0 <= state.low <= state.high <= CODE_VALUE_MAX,
        state.bits.len() == 0,
        suits(settled(state).low, settled(state).high, settled(state).pending as int, more),
        decoder.low == state.low,
        decoder.high == state.high,
        decoder.value == window(settled(state).bits + more, state.pending as int),
        decoder.bits == behind(settled(state).bits + more, state.pending as int + 16),
    ensures
        widened(decoder).low == settled(state).low,
        widened(decoder).high == settled(state).high,
        widened(decoder).value == window(more, settled(state).pending as int),
        widened(decoder).bits == behind(more, settled(state).pending as int + 16),
    decreases CODE_VALUE_MAX - (state.high - state.low),
{
    let empty = Seq::<bool>::empty();
    let pending = state.pending;
    let tail = settled(state).bits + more;
    assert(state.bits =~= empty);
    if state.high < CODE_VALUE_HALF || state.low >= CODE_VALUE_HALF {
        let bit = state.low >= CODE_VALUE_HALF;
        let off = if bit {
            CODE_VALUE_HALF as int
        } else {
            0int
        };
        let plain = CoderState {
            low: 2 * (state.low - off),
            high: 2 * (state.high - off) + 1,
            pending: 0,
            bits: emitted(empty, bit, pending),
        };
        assert(settled(state) == settled(plain));
        lemma_settled_fresh(plain);
        let inner = settled(fresh(plain));
        let rest = inner.bits + more;
        assert(tail =~= plain.bits + rest);
        lemma_window_written(bit, pending, rest);
        lemma_taken_in(tail, decoder.value - off, pending as int + 16);
        
        let next = DecoderState {
            low: 2 * (decoder.low - off),
            high: 2 * (decoder.high - off) + 1,
            value: taken_in(decoder.value - off, decoder.bits),
            bits: left_behind(decoder.bits),
        };
        assert(widened(decoder) == widened(next));
        lemma_widened_settled(fresh(plain), next, more);
    } else if state.low >= CODE_VALUE_FIRST_QUARTER && state.high < CODE_VALUE_THIRD_QUARTER {
        let after = CoderState {
            low: 2 * (state.low - CODE_VALUE_FIRST_QUARTER),
            high: 2 * (state.high - CODE_VALUE_FIRST_QUARTER) + 1,
            pending: pending + 1,
            bits: state.bits,
        };
        assert(settled(state) == settled(after));
        lemma_suits_settled(after, more);
        lemma_window_waiting(tail, pending as int);
        lemma_taken_in(tail, decoder.value - CODE_VALUE_FIRST_QUARTER, pending as int + 16);
        let next = DecoderState {
            low: 2 * (decoder.low - CODE_VALUE_FIRST_QUARTER),
            high: 2 * (decoder.high - CODE_VALUE_FIRST_QUARTER) + 1,
            value: taken_in(decoder.value - CODE_VALUE_FIRST_QUARTER, decoder.bits),
            bits: left_behind(decoder.bits),
        };
        assert(widened(decoder) == widened(next));
        lemma_widened_settled(after, next, more);
    } else {
        assert(tail =~= more);
    }
}

/// The state with its interval narrowed to the part of a symbol.
pub open spec fn narrowed(state: CoderState, model: Model, symbol: int) -> CoderState {
    CoderState {
        low: narrowed_low(
            state.low,
            state.high,
            sum_above(model.frequencies, symbol),
            sum_above(model.frequencies, 0),
        ),
        high: narrowed_high(
            state.low,
            state.high,
            sum_above(model.frequencies, symbol - 1),
            sum_above(model.frequencies, 0),
        ),
        pending: state.pending,
        bits: state.bits,
    }
}

/// The part of a symbol lies in the interval, and is an interval of code
/// values.
pub proof fn lemma_narrowed_state(state: CoderState, model: Model, symbol: int)
    requires
        is_interval(state.low, state.high),
        model_ok(model),
        1 <= symbol <= NUMBER_OF_SYMBOLS,
    ensures
        state.low <= narrowed(state, model, symbol).low <= narrowed(state, model, symbol).high
            <= state.high,
        with_symbol(state, model, symbol) == settled(narrowed(state, model, symbol)),
        is_interval(
            with_symbol(state, model, symbol).low,
            with_symbol(state, model, symbol).high,
        ),
{
    let frequencies = model.frequencies;
    lemma_sum_at_least(frequencies, 0);
    lemma_sum_nonnegative(frequencies, symbol);
    lemma_sum_falls(frequencies, 0, symbol - 1);
    assert(sum_above(frequencies, symbol - 1) == frequencies[symbol] + sum_above(
        frequencies,
        symbol,
    ));
    lemma_narrowed(
        state.low,
        state.high,
        sum_above(frequencies, symbol),
        sum_above(frequencies, symbol - 1),
        sum_above(frequencies, 0),
    );
    lemma_settled_interval(narrowed(state, model, symbol));
}

/// The bits that tell the last interval apart.
pub open spec fn closing(last: CoderState) -> Seq<bool> {
    emitted(Seq::empty(), last.low >= CODE_VALUE_FIRST_QUARTER, last.pending + 1)
}

/// The bits that an encoder in the state `state` still writes for the
/// bytes `rest`: those of each byte, of the end of the message, and the
/// bits that tell the last interval apart.
pub open spec fn still_written(state: CoderState, model: Model, rest: Seq<u8>) -> Seq<bool>
    decreases rest.len(),
{
    if rest.len() == 0 {
        let last = with_symbol(fresh(state), model, EOF_SYMBOL as int);
        last.bits + closing(last)
    } else {
        let symbol = symbol_of(model, rest[0]);
        let next = with_symbol(fresh(state), model, symbol);
        next.bits + still_written(next, updated(model, symbol), rest.skip(1))
    }
}

/// What a symbol makes of a state does not depend on the bits that are
/// written: they stay, and the bits of the symbol stand behind them.
pub proof fn lemma_with_symbol_fresh(state: CoderState, model: Model, symbol: int)
    ensures
        with_symbol(state, model, symbol) == (CoderState {
            low: with_symbol(fresh(state), model, symbol).low,
            high: with_symbol(fresh(state), model, symbol).high,
            pending: with_symbol(fresh(state), model, symbol).pending,
            bits: state.bits + with_symbol(fresh(state), model, symbol).bits,
        }),
{
    lemma_settled_fresh(narrowed(state, model, symbol));
    assert(fresh(narrowed(state, model, symbol)) == narrowed(fresh(state), model, symbol));
    assert(with_symbol(state, model, symbol) == settled(narrowed(state, model, symbol)));
    assert(with_symbol(fresh(state), model, symbol) == settled(
        narrowed(fresh(state), model, symbol),
    ));
    lemma_settled_fresh(narrowed(fresh(state), model, symbol));
    assert(fresh(narrowed(fresh(state), model, symbol)) == narrowed(fresh(state), model, symbol));
    let empty = Seq::<bool>::empty();
    assert(empty + settled(narrowed(fresh(state), model, symbol)).bits =~= settled(
        narrowed(fresh(state), model, symbol),
    ).bits);
}

/// The bits of the code of bytes are the bits that are written for the
/// first of them, and the bits that are still written then for the others.
pub proof fn lemma_coded_still_written(first: Seq<u8>, rest: Seq<u8>)
    ensures
        coded_bits(first + rest) == coded_state(first).0.bits + still_written(
            coded_state(first).0,
            coded_state(first).1,
            rest,
        ),
    decreases rest.len(),
{
    let (state, model) = coded_state(first);
    if rest.len() == 0 {
        assert(first + rest =~= first);
        let last = with_symbol(state, model, EOF_SYMBOL as int);
        let plain = with_symbol(fresh(state), model, EOF_SYMBOL as int);
        lemma_with_symbol_fresh(state, model, EOF_SYMBOL as int);
        assert(coded_bits(first) =~= state.bits + (plain.bits + closing(plain)));
    } else {
        let longer = first.push(rest[0]);
        assert(longer.drop_last() =~= first);
        assert(longer + rest.skip(1) =~= first + rest);
        let symbol = symbol_of(model, rest[0]);
        lemma_coded_still_written(longer, rest.skip(1));
        lemma_with_symbol_fresh(state, model, symbol);
        let next = with_symbol(state, model, symbol);
        let plain = with_symbol(fresh(state), model, symbol);
        assert(coded_state(longer) == (next, updated(model, symbol)));
        assert(fresh(next) == fresh(plain));
        lemma_still_written_fresh(next, plain, updated(model, symbol), rest.skip(1));
        assert(next.bits + still_written(next, updated(model, symbol), rest.skip(1)) =~= state.bits
            + (plain.bits + still_written(plain, updated(model, symbol), rest.skip(1))));
    }
}

/// What is still written does not depend on the bits that are written.
pub proof fn lemma_still_written_fresh(a: CoderState, b: CoderState, model: Model, rest: Seq<u8>)
    requires
        fresh(a) == fresh(b),
    ensures
        still_written(a, model, rest) == still_written(b, model, rest),
{
}

/// The bits that tell the last interval apart, with bits 0 behind them,
/// suit the last state.
pub proof fn lemma_suits_closing(last: CoderState, zeros: Seq<bool>)
    requires
        is_interval(last.low, last.high),
        all_zero(zeros),
    ensures
        suits(last.low, last.high, last.pending as int, closing(last) + zeros),
{
    let bit = last.low >= CODE_VALUE_FIRST_QUARTER;
    let pending = last.pending as int;
    let all = closing(last) + zeros;
    lemma_window_written(bit, (last.pending + 1) as nat, zeros);
    lemma_window_waiting(all, pending);
    assert(closing(last).len() == pending + 2);
    assert(bit_value(all, pending + 16) == 0) by {
        if pending + 16 < all.len() {
            assert(all[pending + 16] == zeros[pending + 16 - (pending + 2)]);
        }
    }
    lemma_number_zero(zeros, 0, 15);
}

/// The bits that are still written, with bits 0 behind them, suit the
/// state in which they are written.
pub proof fn lemma_suits_still_written(
    state: CoderState,
    model: Model,
    rest: Seq<u8>,
    zeros: Seq<bool>,
)
    requires
        is_interval(state.low, state.high),
        model_ok(model),
        all_zero(zeros),
    ensures
        suits(
            state.low,
            state.high,
            state.pending as int,
            still_written(state, model, rest) + zeros,
        ),
        suits(
            narrowed(fresh(state), model, next_symbol(model, rest)).low,
            narrowed(fresh(state), model, next_symbol(model, rest)).high,
            state.pending as int,
            still_written(state, model, rest) + zeros,
        ),
    decreases rest.len(),
{
    let symbol = next_symbol(model, rest);
    if rest.len() > 0 {
        lemma_symbol_of(model, rest[0]);
    }
    let part = narrowed(fresh(state), model, symbol);
    let next = with_symbol(fresh(state), model, symbol);
    lemma_narrowed_state(fresh(state), model, symbol);
    let more = written_behind(state, model, rest) + zeros;
    if rest.len() == 0 {
        lemma_suits_closing(next, zeros);
    } else {
        lemma_updated_ok(model, symbol);
        lemma_suits_still_written(next, updated(model, symbol), rest.skip(1), zeros);
    }
    lemma_suits_settled(part, more);
    assert(still_written(state, model, rest) + zeros =~= next.bits + more);
}

/// The number of the symbol that is encoded next: that of the first byte,
/// or the end of the message.
pub open spec fn next_symbol(model: Model, rest: Seq<u8>) -> int {
    if rest.len() == 0 {
        EOF_SYMBOL as int
    } else {
        symbol_of(model, rest[0])
    }
}

/// The bits that are still written once the next symbol is encoded.
pub open spec fn written_behind(state: CoderState, model: Model, rest: Seq<u8>) -> Seq<bool> {
    let next = with_symbol(fresh(state), model, next_symbol(model, rest));
    if rest.len() == 0 {
        closing(next)
    } else {
        still_written(next, updated(model, next_symbol(model, rest)), rest.skip(1))
    }
}

/// A decoder that stands where an encoder stands, in front of the bits
/// that the encoder still writes for the bytes `rest`, decodes these bytes.
pub proof fn lemma_message_from(
    state: CoderState,
    decoder: DecoderState,
    model: Model,
    read: Seq<u8>,
    rest: Seq<u8>,
    zeros: Seq<bool>,
)
    requires
        is_interval(state.low, state.high),
        model_ok(model),
        all_zero(zeros),
        decoder.low == state.low,
        decoder.high == state.high,
        decoder.value == window(still_written(state, model, rest) + zeros, state.pending as int),
        decoder.bits == behind(
            still_written(state, model, rest) + zeros,
            state.pending as int + 16,
        ),
        read.len() + rest.len() <= usize::MAX,
    ensures
        message_from(decoder, model, read) == read + rest,
    decreases rest.len(),
{
    let symbol = next_symbol(model, rest);
    if rest.len() > 0 {
        lemma_symbol_of(model, rest[0]);
    }
    let part = narrowed(fresh(state), model, symbol);
    let next = with_symbol(fresh(state), model, symbol);
    lemma_narrowed_state(fresh(state), model, symbol);
    lemma_suits_still_written(state, model, rest, zeros);
    lemma_symbol_found(decoder, model, symbol);
    if rest.len() == 0 {
        assert(read + rest =~= read);
    } else {
        let more = written_behind(state, model, rest) + zeros;
        let after = updated(model, symbol);
        lemma_updated_ok(model, symbol);
        lemma_suits_still_written(next, after, rest.skip(1), zeros);
        let narrow = DecoderState {
            low: part.low,
            high: part.high,
            value: decoder.value,
            bits: decoder.bits,
        };
        assert(still_written(state, model, rest) + zeros =~= next.bits + more);
        lemma_widened_settled(part, narrow, more);
        assert(with_next(decoder, model, symbol) == widened(narrow));
        let byte = model.index_to_char[symbol] as u8;
        assert(byte == rest[0]);
        lemma_message_from(next, widened(narrow), after, read.push(byte), rest.skip(1), zeros);
        assert(read.push(byte) + rest.skip(1) =~= read + rest);
    }
}

/// The bits of a byte that is made of eight bits are those bits.
pub proof fn lemma_letter_bit(bits: Seq<bool>, from: int, i: int)
    requires
        0 <= i < 8,
    ensures
        0 <= letter_value(bits, from) < 256,
        bit_of(letter_value(bits, from) as u8, 7 - i) == (bit_value(bits, from + i) == 1),
{
}

/// The bits of the bytes that are made of bits are those bits, and bits 0
/// behind them up to the end of the last byte.
pub proof fn lemma_message_bits(bits: Seq<bool>)
    requires
        bits.len() > 0,
    ensures
        message_bits(message_bytes(bits)).len() >= bits.len(),
        message_bits(message_bytes(bits)) == bits + Seq::new(
            (message_bits(message_bytes(bits)).len() - bits.len()) as nat,
            |k: int| false,
        ),
{
    let bytes = message_bytes(bits);
    let all = message_bits(bytes);
    let zeros = Seq::new((all.len() - bits.len()) as nat, |k: int| false);
    assert forall|k: int| 0 <= k < all.len() implies all[k] == (bits + zeros)[k] by {
        lemma_letter_bit(bits, 8 * (k / 8), k % 8);
        assert(bytes[k / 8] == letter_value(bits, 8 * (k / 8)) as u8);
    }
    assert(all =~= bits + zeros);
}

/// The first bits of a stream as a code value, and the bits behind them.
pub proof fn lemma_first_value(bits: Seq<bool>, count: nat)
    ensures
        first_value(bits, count) == (partial_letter(bits, 0, count as int), behind(
            bits,
            count as int,
        )),
    decreases count,
{
    if count > 0 {
        lemma_first_value(bits, (count - 1) as nat);
        lemma_taken_in(bits, partial_letter(bits, 0, count - 1), count - 1);
    } else {
        assert(bits.skip(0) =~= bits);
    }
}

/// Round trip: the code of a message is decoded to the message.
pub proof fn lemma_decoded_coded(data: Seq<u8>)
    requires
        data.len() <= usize::MAX,
    ensures
        decoded_message(coded(data)) == data,
{
    let empty = Seq::<u8>::empty();
    let start = CoderState {
        low: 0,
        high: CODE_VALUE_MAX as int,
        pending: 0,
        bits: Seq::empty(),
    };
    let model = initial_model();
    lemma_initial_model_ok();
    lemma_coded_still_written(empty, data);
    assert(empty + data =~= data);
    let bits = coded_bits(data);
    let written = still_written(start, model, data);
    assert(bits =~= written);
    assert(bits.len() > 0);
    lemma_message_bits(bits);
    let all = message_bits(coded(data));
    let zeros = Seq::new((all.len() - bits.len()) as nat, |k: int| false);
    lemma_first_value(all, 16);
    lemma_number_front(all, 0, 15);
    let decoder = DecoderState {
        low: 0,
        high: CODE_VALUE_MAX as int,
        value: first_value(all, 16).0,
        bits: first_value(all, 16).1,
    };
    lemma_message_from(start, decoder, model, empty, data, zeros);
    assert(empty + data =~= data);
}

} // verus!
