//! What the arithmetic coder computes, as mathematics.

use crate::arithmetic::frequencies::{
    initial_model, sum_above, symbol_of, updated, Model,
};
use crate::arithmetic::limits::{
    narrowed_high, narrowed_low, target, CODE_VALUE_FIRST_QUARTER, CODE_VALUE_HALF,
    CODE_VALUE_MAX, CODE_VALUE_THIRD_QUARTER, EOF_SYMBOL, NUMBER_OF_SYMBOLS,
};
use crate::huffman::iterator::bit_of;
use crate::huffman::table::letter_value;
use vstd::prelude::*;

verus! {

/// Where the encoder stands: its interval, the number of bits that wait for
/// the next bit to be written, and the bits written.
pub struct CoderState {
    pub low: int,
    pub high: int,
    pub pending: nat,
    pub bits: Seq<bool>,
}

/// The bits with one more bit written, and behind it its opposite as often
/// as bits wait.
pub open spec fn emitted(bits: Seq<bool>, bit: bool, pending: nat) -> Seq<bool> {
    bits.push(bit) + Seq::new(pending, |k: int| !bit)
}

/// The state once all bits that the interval settles are written: while
/// the interval lies in one half of the range, the bit of that half is
/// written and the half is widened to the range; while it lies in the two
/// middle quarters, one more bit waits and the middle is widened.
pub open spec fn settled(state: CoderState) -> CoderState
    decreases
        if 0 <= state.low <= state.high <= CODE_VALUE_MAX {
            CODE_VALUE_MAX - (state.high - state.low)
        } else {
            0
        },
{
    if !(0 <= state.low <= state.high <= CODE_VALUE_MAX) {
        state
    } else if state.high < CODE_VALUE_HALF {
        settled(
            CoderState {
                low: 2 * state.low,
                high: 2 * state.high + 1,
                pending: 0,
                bits: emitted(state.bits, false, state.pending),
            },
        )
    } else if state.low >= CODE_VALUE_HALF {
        settled(
            CoderState {
                low: 2 * (state.low - CODE_VALUE_HALF),
                high: 2 * (state.high - CODE_VALUE_HALF) + 1,
                pending: 0,
                bits: emitted(state.bits, true, state.pending),
            },
        )
    } else if state.low >= CODE_VALUE_FIRST_QUARTER && state.high < CODE_VALUE_THIRD_QUARTER {
        settled(
            CoderState {
                low: 2 * (state.low - CODE_VALUE_FIRST_QUARTER),
                high: 2 * (state.high - CODE_VALUE_FIRST_QUARTER) + 1,
                pending: state.pending + 1,
                bits: state.bits,
            },
        )
    } else {
        state
    }
}

/// The state once the symbol with number `symbol` is encoded under `model`:
/// the interval is narrowed to the part of the symbol, and the bits that
/// this settles are written.
pub open spec fn with_symbol(state: CoderState, model: Model, symbol: int) -> CoderState {
    settled(
        CoderState {
            low: narrowed_low(
                state.low,
                state.high,
                sum_above(model.frequencies, symbol),
                sum_above(model.frequencies, 0),
            ),
            high: narrowed_high(
                state.low,
                state.high,
                sum_above(model.frequencies, symbol - 1),
                sum_above(model.frequencies, 0),
            ),
            pending: state.pending,
            bits: state.bits,
        },
    )
}

/// The state and the model once `data` is encoded.
pub open spec fn coded_state(data: Seq<u8>) -> (CoderState, Model)
    decreases data.len(),
{
    if data.len() == 0 {
        (
            CoderState { low: 0, high: CODE_VALUE_MAX as int, pending: 0, bits: Seq::empty() },
            initial_model(),
        )
    } else {
        let (state, model) = coded_state(data.drop_last());
        let symbol = symbol_of(model, data.last());
        (with_symbol(state, model, symbol), updated(model, symbol))
    }
}

/// The bits of the code of `data`: those of its bytes, of the end of the
/// message, and two bits or more that tell the last interval apart.
pub open spec fn coded_bits(data: Seq<u8>) -> Seq<bool> {
    let (state, model) = coded_state(data);
    let last = with_symbol(state, model, EOF_SYMBOL as int);
    emitted(last.bits, last.low >= CODE_VALUE_FIRST_QUARTER, last.pending + 1)
}

/// Bits in bytes, of each byte the most significant bit first; the last
/// byte is filled up with zero bits. No bits give one byte 0.
pub open spec fn message_bytes(bits: Seq<bool>) -> Seq<u8> {
    Seq::new(
        if bits.len() == 0 {
            1
        } else {
            ((bits.len() + 7) / 8) as nat
        },
        |j: int| letter_value(bits, 8 * j) as u8,
    )
}

/// The code of `data`.
pub open spec fn coded(data: Seq<u8>) -> Seq<u8> {
    message_bytes(coded_bits(data))
}

/// The bits of `data`, of each byte the most significant bit first.
pub open spec fn message_bits(data: Seq<u8>) -> Seq<bool> {
    Seq::new(8 * data.len(), |k: int| bit_of(data[k / 8], 7 - k % 8))
}

/// Where the decoder stands: its interval, the code value, and the bits
/// that are still to be read.
pub struct DecoderState {
    pub low: int,
    pub high: int,
    pub value: int,
    pub bits: Seq<bool>,
}

/// The code value with the next bit taken in; behind the last bit, a bit 0.
pub open spec fn taken_in(value: int, bits: Seq<bool>) -> int {
    2 * value + if bits.len() > 0 && bits[0] {
        1int
    } else {
        0int
    }
}

/// The bits without the bit that was taken.
pub open spec fn left_behind(bits: Seq<bool>) -> Seq<bool> {
    if bits.len() > 0 {
        bits.skip(1)
    } else {
        bits
    }
}

/// The code value of the first `count` bits, and the bits behind them.
pub open spec fn first_value(bits: Seq<bool>, count: nat) -> (int, Seq<bool>)
    decreases count,
{
    if count == 0 {
        (0, bits)
    } else {
        let (value, rest) = first_value(bits, (count - 1) as nat);
        (taken_in(value, rest), left_behind(rest))
    }
}

/// The first symbol number from `from` on above which the frequencies add
/// up to `cum` at most.
pub open spec fn symbol_at(frequencies: Seq<usize>, cum: int, from: int) -> int
    decreases NUMBER_OF_SYMBOLS - from,
{
    if from >= NUMBER_OF_SYMBOLS || sum_above(frequencies, from) <= cum {
        from
    } else {
        symbol_at(frequencies, cum, from + 1)
    }
}

/// The state once the interval is as wide as it must be: like the encoder
/// the decoder widens a half or the middle to the range, and takes in a bit
/// each time.
pub open spec fn widened(state: DecoderState) -> DecoderState
    decreases
        if 0 <= state.low <= state.high <= CODE_VALUE_MAX {
            CODE_VALUE_MAX - (state.high - state.low)
        } else {
            0
        },
{
    if !(0 <= state.low <= state.high <= CODE_VALUE_MAX) {
        state
    } else if state.high < CODE_VALUE_HALF {
        widened(
            DecoderState {
                low: 2 * state.low,
                high: 2 * state.high + 1,
                value: taken_in(state.value, state.bits),
                bits: left_behind(state.bits),
            },
        )
    } else if state.low >= CODE_VALUE_HALF {
        widened(
            DecoderState {
                low: 2 * (state.low - CODE_VALUE_HALF),
                high: 2 * (state.high - CODE_VALUE_HALF) + 1,
                value: taken_in(state.value - CODE_VALUE_HALF, state.bits),
                bits: left_behind(state.bits),
            },
        )
    } else if state.low >= CODE_VALUE_FIRST_QUARTER && state.high < CODE_VALUE_THIRD_QUARTER {
        widened(
            DecoderState {
                low: 2 * (state.low - CODE_VALUE_FIRST_QUARTER),
                high: 2 * (state.high - CODE_VALUE_FIRST_QUARTER) + 1,
                value: taken_in(state.value - CODE_VALUE_FIRST_QUARTER, state.bits),
                bits: left_behind(state.bits),
            },
        )
    } else {
        state
    }
}

/// The number of the symbol in whose part of the interval the code value
/// lies.
pub open spec fn next_of(state: DecoderState, model: Model) -> int {
    symbol_at(
        model.frequencies,
        target(state.low, state.high, state.value, sum_above(model.frequencies, 0)),
        1,
    )
}

/// The state once the symbol with number `symbol` is decoded.
pub open spec fn with_next(state: DecoderState, model: Model, symbol: int) -> DecoderState {
    widened(
        DecoderState {
            low: narrowed_low(
                state.low,
                state.high,
                sum_above(model.frequencies, symbol),
                sum_above(model.frequencies, 0),
            ),
            high: narrowed_high(
                state.low,
                state.high,
                sum_above(model.frequencies, symbol - 1),
                sum_above(model.frequencies, 0),
            ),
            value: state.value,
            bits: state.bits,
        },
    )
}

/// The message that is decoded from a state behind the bytes `read`:
/// symbols are decoded up to the end of the message. A message cannot be
/// longer than the machine can count.
pub open spec fn message_from(state: DecoderState, model: Model, read: Seq<u8>) -> Seq<u8>
    decreases usize::MAX - read.len(),
{
    if read.len() >= usize::MAX {
        read
    } else {
        let symbol = next_of(state, model);
        if symbol == EOF_SYMBOL {
            read
        } else {
            message_from(
                with_next(state, model, symbol),
                updated(model, symbol),
                read.push(model.index_to_char[symbol] as u8),
            )
        }
    }
}

/// The message of which `data` is the code.
pub open spec fn decoded_message(data: Seq<u8>) -> Seq<u8> {
    let (value, rest) = first_value(message_bits(data), 16);
    message_from(
        DecoderState { low: 0, high: CODE_VALUE_MAX as int, value, bits: rest },
        initial_model(),
        Seq::empty(),
    )
}

} // verus!
