//! Decoding with the adaptive arithmetic coder.

use crate::arithmetic::coder::{
    decoded_message, first_value, left_behind, message_bits, message_from, next_of, symbol_at,
    taken_in, widened, with_next, DecoderState,
};
use crate::arithmetic::frequencies::{sum_above, Frequencies};
use crate::arithmetic::limits::{
    doubled, is_interval, lemma_narrowed, lemma_target, lemma_target_narrowed, CODE_VALUE_BITS,
    CODE_VALUE_FIRST_QUARTER, CODE_VALUE_HALF, CODE_VALUE_MAX, CODE_VALUE_THIRD_QUARTER,
    EOF_SYMBOL, NUMBER_OF_SYMBOLS,
};
use crate::huffman::iterator::{place};
use vstd::prelude::*;

verus! {

/// Reads the bits of bytes, of each byte the most significant bit first.
pub struct BitReader<'a> {
    data: &'a [u8],
    byte_index: usize,
    bit_index: u8,
}

impl<'a> BitReader<'a> {
    #[verifier::type_invariant]
    spec fn wf(self) -> bool {
        &&& self.byte_index <= self.data@.len()
        &&& self.bit_index < 8
        &&& self.byte_index == self.data@.len() ==> self.bit_index == 0
    }

    /// The bits that are still to be read.
    pub closed spec fn remaining(self) -> Seq<bool> {
        message_bits(self.data@).skip(8 * self.byte_index + self.bit_index)
    }

    /// The next bit; nothing behind the last one.
    pub fn next(&mut self) -> (bit: Option<bool>)
        ensures
            bit.is_none() <==> old(self).remaining().len() == 0,
            bit.is_none() ==> final(self).remaining() == old(self).remaining(),
            bit.is_some() ==> bit.unwrap() == old(self).remaining()[0] && final(self).remaining()
                == old(self).remaining().skip(1),
    {
        proof {
            use_type_invariant(&*self);
        }
        if self.byte_index >= self.data.len() {
            return None;
        }
        let ghost before = self.remaining();
        let ghost at = 8 * self.byte_index + self.bit_index;
        let bit = (self.data[self.byte_index] / place(7 - self.bit_index)) % 2 == 1;
        proof {
            assert(at / 8 == self.byte_index as int && at % 8 == self.bit_index as int);
            assert(before[0] == message_bits(self.data@)[at]);
        }
        if self.bit_index == 7 {
            self.bit_index = 0;
            self.byte_index = self.byte_index + 1;
        } else {
            self.bit_index = self.bit_index + 1;
        }
        proof {
            assert(self.remaining() =~= before.skip(1));
        }
        Some(bit)
    }
}

/// A reader at the first bit of `data`.
pub fn bit_iterator(data: &[u8]) -> (iter: BitReader<'_>)
    ensures
        iter.remaining() == message_bits(data@),
{
    let iter = BitReader { data, byte_index: 0, bit_index: 0 };
    assert(iter.remaining() =~= message_bits(data@));
    iter
}

/// Takes the next bit into the code value; behind the last bit, a bit 0.
pub fn slide(iter: &mut BitReader<'_>, code_value: &mut usize)
    requires
        *old(code_value) < CODE_VALUE_HALF,
    ensures
        *final(code_value) == taken_in(*old(code_value) as int, old(iter).remaining()),
        final(iter).remaining() == left_behind(old(iter).remaining()),
{
    match iter.next() {
        Some(next_bit) => {
            *code_value = 2 * *code_value + if next_bit {
                1
            } else {
                0
            };
        },
        None => {
            *code_value = *code_value * 2;
        },
    }
}

/// The number of the symbol between whose sums `cum` lies: the first number
/// above which the frequencies add up to `cum` at most.
pub fn get_symbol_index(frequencies: &Frequencies, cum: usize) -> (symbol_index: usize)
    requires
        frequencies.wf(),
        cum < sum_above(frequencies.frequencies@, 0),
    ensures
        1 <= symbol_index <= NUMBER_OF_SYMBOLS,
        symbol_index == symbol_at(frequencies.frequencies@, cum as int, 1),
        sum_above(frequencies.frequencies@, symbol_index as int) <= cum,
        cum < sum_above(frequencies.frequencies@, symbol_index - 1),
{
    let mut symbol_index: usize = 1;
    while frequencies.get_low(symbol_index) > cum
        invariant
            1 <= symbol_index <= NUMBER_OF_SYMBOLS,
            frequencies.wf(),
            cum < sum_above(frequencies.frequencies@, symbol_index - 1),
            symbol_at(frequencies.frequencies@, cum as int, 1) == symbol_at(
                frequencies.frequencies@,
                cum as int,
                symbol_index as int,
            ),
        decreases NUMBER_OF_SYMBOLS - symbol_index,
    {
        proof {
            assert(sum_above(frequencies.frequencies@, NUMBER_OF_SYMBOLS as int) == 0);
        }
        symbol_index += 1;
    }
    symbol_index
}

/// The state of the decoder.
pub open spec fn decoder_state(iter: BitReader<'_>, low: usize, high: usize, code_value: usize) -> DecoderState {
    DecoderState {
        low: low as int,
        high: high as int,
        value: code_value as int,
        bits: iter.remaining(),
    }
}

/// Decodes one symbol: finds the symbol in whose part of the interval the
/// code value lies, narrows the interval to that part, and takes in the bits
/// that this makes room for.
pub fn next_symbol_index(
    iter: &mut BitReader<'_>,
    frequencies: &Frequencies,
    low: &mut usize,
    high: &mut usize,
    code_value: &mut usize,
) -> (symbol_index: usize)
    requires
        frequencies.wf(),
        is_interval(*old(low) as int, *old(high) as int),
        *old(low) <= *old(code_value) <= *old(high),
    ensures
        1 <= symbol_index <= NUMBER_OF_SYMBOLS,
        is_interval(*final(low) as int, *final(high) as int),
        *final(low) <= *final(code_value) <= *final(high),
        symbol_index == next_of(
            decoder_state(*old(iter), *old(low), *old(high), *old(code_value)),
            frequencies.model(),
        ),
        decoder_state(*final(iter), *final(low), *final(high), *final(code_value)) == with_next(
            decoder_state(*old(iter), *old(low), *old(high), *old(code_value)),
            frequencies.model(),
            symbol_index as int,
        ),
{
    let ghost start = decoder_state(*iter, *low, *high, *code_value);
    let range = *high - *low + 1;
    let total = frequencies.get_total();
    proof {
        lemma_target(*low as int, *high as int, *code_value as int, total as int);
        assert((*code_value - *low + 1) * total <= 65536 * 16383) by (nonlinear_arith)
            requires
                0 <= *code_value - *low + 1 <= 65536,
                0 <= total <= 16383,
        ;
        assert((*code_value - *low + 1) * total >= 1) by (nonlinear_arith)
            requires
                1 <= *code_value - *low + 1,
                1 <= total,
        ;
    }
    let cum = ((*code_value - *low + 1) * total - 1) / range;
    let symbol_index = get_symbol_index(frequencies, cum);
    let symbol_low = frequencies.get_low(symbol_index);
    let symbol_high = frequencies.get_high(symbol_index);
    proof {
        crate::arithmetic::frequencies::lemma_sum_nonnegative(
            frequencies.frequencies@,
            symbol_index as int,
        );
        lemma_narrowed(
            *low as int,
            *high as int,
            symbol_low as int,
            symbol_high as int,
            total as int,
        );
        lemma_target_narrowed(
            *low as int,
            *high as int,
            *code_value as int,
            symbol_low as int,
            symbol_high as int,
            total as int,
        );
        assert(range * symbol_high <= 65536 * 16383) by (nonlinear_arith)
            requires
                0 <= range <= 65536,
                0 <= symbol_high <= 16383,
        ;
        assert(range * symbol_low <= 65536 * 16383) by (nonlinear_arith)
            requires
                0 <= range <= 65536,
                0 <= symbol_low <= 16383,
        ;
    }
    *high = *low + range * symbol_high / total - 1;
    *low = *low + range * symbol_low / total;
    let ghost mut steps: int = 0;
    let ghost first_range = *high - *low + 1;
    let ghost goal = with_next(start, frequencies.model(), symbol_index as int);
    proof {
        assert(goal == widened(decoder_state(*iter, *low, *high, *code_value)));
    }
    loop
        invariant_except_break
            0 <= *low <= *code_value <= *high <= CODE_VALUE_MAX,
            0 <= steps <= 16,
            *high - *low + 1 == first_range * doubled(steps),
            first_range >= 1,
            goal == widened(decoder_state(*iter, *low, *high, *code_value)),
        ensures
            is_interval(*low as int, *high as int),
            *low <= *code_value <= *high,
            goal == decoder_state(*iter, *low, *high, *code_value),
        decreases 17 - steps,
    {
        if *high < CODE_VALUE_HALF {
        } else if *low >= CODE_VALUE_HALF {
            *code_value -= CODE_VALUE_HALF;
            *low -= CODE_VALUE_HALF;
            *high -= CODE_VALUE_HALF;
        } else if *low >= CODE_VALUE_FIRST_QUARTER && *high < CODE_VALUE_THIRD_QUARTER {
            *code_value -= CODE_VALUE_FIRST_QUARTER;
            *low -= CODE_VALUE_FIRST_QUARTER;
            *high -= CODE_VALUE_FIRST_QUARTER;
        } else {
            break ;
        }
        *low *= 2;
        *high = 2 * *high + 1;
        slide(iter, code_value);
        proof {
            assert(first_range * doubled(steps + 1) == 2 * (first_range * doubled(steps))) by {
                assert(doubled(steps + 1) == 2 * doubled(steps));
                assert(first_range * (2 * doubled(steps)) == 2 * (first_range * doubled(steps)))
                    by (nonlinear_arith);
            }
            assert(steps < 16) by {
                if steps >= 16 {
                    assert(first_range * doubled(16) >= 65536) by (nonlinear_arith)
                        requires
                            first_range >= 1,
                            doubled(16) == 65536,
                    ;
                }
            }
            steps = steps + 1;
        }
    }
    symbol_index
}

/// The message of which `data` is the code: symbols are decoded, each with
/// the model of the bytes before it, up to the end of the message. Behind
/// the last bit of `data` zero bits are read.
pub fn decode(data: &[u8]) -> (decoded_data: Vec<u8>)
    ensures
        decoded_data@ == decoded_message(data@),
{
    let mut encoded_data = bit_iterator(data);
    let mut decoded_data: Vec<u8> = Vec::new();
    let mut frequencies = Frequencies::new();
    let mut low: usize = 0;
    let mut high: usize = CODE_VALUE_MAX;
    let mut code_value: usize = 0;
    let mut taken: i32 = 0;
    while taken < CODE_VALUE_BITS
        invariant
            0 <= taken <= CODE_VALUE_BITS,
            code_value < doubled(taken as int),
            first_value(message_bits(data@), taken as nat) == (
                code_value as int,
                encoded_data.remaining(),
            ),
        decreases CODE_VALUE_BITS - taken,
    {
        slide(&mut encoded_data, &mut code_value);
        taken += 1;
    }
    let ghost whole = decoded_message(data@);
    while decoded_data.len() < usize::MAX
        invariant_except_break
            frequencies.wf(),
            is_interval(low as int, high as int),
            low <= code_value <= high,
            whole == message_from(
                decoder_state(encoded_data, low, high, code_value),
                frequencies.model(),
                decoded_data@,
            ),
        ensures
            whole == decoded_data@,
        decreases usize::MAX - decoded_data.len(),
    {
        let symbol_index = next_symbol_index(
            &mut encoded_data,
            &frequencies,
            &mut low,
            &mut high,
            &mut code_value,
        );
        if symbol_index == EOF_SYMBOL {
            break ;
        }
        let char = frequencies.index_to_char(symbol_index);
        decoded_data.push(char as u8);
        frequencies.update(symbol_index);
    }
    decoded_data
}

} // verus!
