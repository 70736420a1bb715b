//! Encoding with the adaptive arithmetic coder.

use crate::arithmetic::coder::{
    coded, coded_state, emitted, message_bytes, settled, with_symbol, CoderState,
};
use crate::arithmetic::frequencies::{Frequencies};
use crate::huffman::canon::lemma_binary;
use crate::huffman::iterator::bit_value;
use crate::arithmetic::limits::{
    doubled, is_interval, lemma_narrowed, CODE_VALUE_FIRST_QUARTER, CODE_VALUE_HALF,
    CODE_VALUE_MAX, CODE_VALUE_THIRD_QUARTER, EOF_SYMBOL, NUMBER_OF_SYMBOLS,
};
use crate::huffman::iterator::{bit_of, place, place_value};
use vstd::prelude::*;

verus! {

/// A message of `len` bytes can be encoded: the bits that wait for the next
/// bit written, at most 16 more for each symbol, can be counted.
pub open spec fn message_fits(len: int) -> bool {
    16 * len + 17 <= i32::MAX
}

/// Whether a message of `len` bytes can be encoded.
pub fn can_hold_message(len: usize) -> (fits: bool)
    ensures
        fits == message_fits(len as int),
{
    len <= 0x7FF_FFFE
}

/// Writes bits into bytes, of each byte the most significant bit first.
pub struct BitWriter {
    pub data: Vec<u8>,
    bit_index: isize,
}

/// A byte that is a multiple of the value of a place has no bit below that
/// place.
pub proof fn lemma_low_bits_clear(byte: int, above: int, place: int)
    requires
        0 <= byte < 256,
        0 <= place < above <= 8,
        byte % places_from(above) == 0,
    ensures
        !bit_of(byte as u8, place),
    decreases above - place,
{
    if above == place + 1 {
        lemma_set_bit(byte, place, place);
    } else {
        assert(byte % places_from(above - 1) == 0) by {
            lemma_multiple_of_half(byte, above);
        }
        lemma_low_bits_clear(byte, above - 1, place);
    }
}

/// A multiple of the value of a place is a multiple of the value of the
/// place below.
pub proof fn lemma_multiple_of_half(byte: int, above: int)
    requires
        0 <= byte < 256,
        1 <= above <= 8,
        byte % places_from(above) == 0,
    ensures
        byte % places_from(above - 1) == 0,
{
    if above == 1 {
    } else if above == 2 {
        assert(byte % 4 == 0 ==> byte % 2 == 0);
    } else if above == 3 {
        assert(byte % 8 == 0 ==> byte % 4 == 0);
    } else if above == 4 {
        assert(byte % 16 == 0 ==> byte % 8 == 0);
    } else if above == 5 {
        assert(byte % 32 == 0 ==> byte % 16 == 0);
    } else if above == 6 {
        assert(byte % 64 == 0 ==> byte % 32 == 0);
    } else if above == 7 {
        assert(byte % 128 == 0 ==> byte % 64 == 0);
    } else {
        assert(byte % 256 == 0 ==> byte % 128 == 0);
    }
}

/// The value of the places of a byte from place `i` on.
pub open spec fn places_from(i: int) -> int {
    if i >= 8 {
        256
    } else {
        place_value(i)
    }
}

proof fn lemma_set_place_zero(byte: int, other: int)
    requires
        0 <= byte < 256,
        byte % 2 == 0,
        0 <= other <= 7,
    ensures
        byte + 1 < 256,
        byte % 1 == 0,
        (byte + 1) % 1 == 0,
        bit_of((byte + 1) as u8, other) == (other == 0 || bit_of(byte as u8, other)),
        !bit_of(byte as u8, 0),
{
    if other == 0 {
        assert((byte + 1) / 1 % 2 == 1 && byte / 1 % 2 == 0);
    } else if other == 1 {
        assert((byte + 1) / 2 % 2 == byte / 2 % 2);
    } else if other == 2 {
        assert((byte + 1) / 4 % 2 == byte / 4 % 2);
    } else if other == 3 {
        assert((byte + 1) / 8 % 2 == byte / 8 % 2);
    } else if other == 4 {
        assert((byte + 1) / 16 % 2 == byte / 16 % 2);
    } else if other == 5 {
        assert((byte + 1) / 32 % 2 == byte / 32 % 2);
    } else if other == 6 {
        assert((byte + 1) / 64 % 2 == byte / 64 % 2);
    } else if other == 7 {
        assert((byte + 1) / 128 % 2 == byte / 128 % 2);
    }
}

proof fn lemma_set_place_one(byte: int, other: int)
    requires
        0 <= byte < 256,
        byte % 4 == 0,
        1 <= other <= 7,
    ensures
        byte + 2 < 256,
        byte % 2 == 0,
        (byte + 2) % 2 == 0,
        bit_of((byte + 2) as u8, other) == (other == 1 || bit_of(byte as u8, other)),
        !bit_of(byte as u8, 1),
{
    if other == 1 {
        assert((byte + 2) / 2 % 2 == 1 && byte / 2 % 2 == 0);
    } else if other == 2 {
        assert((byte + 2) / 4 % 2 == byte / 4 % 2);
    } else if other == 3 {
        assert((byte + 2) / 8 % 2 == byte / 8 % 2);
    } else if other == 4 {
        assert((byte + 2) / 16 % 2 == byte / 16 % 2);
    } else if other == 5 {
        assert((byte + 2) / 32 % 2 == byte / 32 % 2);
    } else if other == 6 {
        assert((byte + 2) / 64 % 2 == byte / 64 % 2);
    } else if other == 7 {
        assert((byte + 2) / 128 % 2 == byte / 128 % 2);
    }
}

proof fn lemma_set_place_two(byte: int, other: int)
    requires
        0 <= byte < 256,
        byte % 8 == 0,
        2 <= other <= 7,
    ensures
        byte + 4 < 256,
        byte % 4 == 0,
        (byte + 4) % 4 == 0,
        bit_of((byte + 4) as u8, other) == (other == 2 || bit_of(byte as u8, other)),
        !bit_of(byte as u8, 2),
{
    if other == 2 {
        assert((byte + 4) / 4 % 2 == 1 && byte / 4 % 2 == 0);
    } else if other == 3 {
        assert((byte + 4) / 8 % 2 == byte / 8 % 2);
    } else if other == 4 {
        assert((byte + 4) / 16 % 2 == byte / 16 % 2);
    } else if other == 5 {
        assert((byte + 4) / 32 % 2 == byte / 32 % 2);
    } else if other == 6 {
        assert((byte + 4) / 64 % 2 == byte / 64 % 2);
    } else if other == 7 {
        assert((byte + 4) / 128 % 2 == byte / 128 % 2);
    }
}

proof fn lemma_set_place_three(byte: int, other: int)
    requires
        0 <= byte < 256,
        byte % 16 == 0,
        3 <= other <= 7,
    ensures
        byte + 8 < 256,
        byte % 8 == 0,
        (byte + 8) % 8 == 0,
        bit_of((byte + 8) as u8, other) == (other == 3 || bit_of(byte as u8, other)),
        !bit_of(byte as u8, 3),
{
    if other == 3 {
        assert((byte + 8) / 8 % 2 == 1 && byte / 8 % 2 == 0);
    } else if other == 4 {
        assert((byte + 8) / 16 % 2 == byte / 16 % 2);
    } else if other == 5 {
        assert((byte + 8) / 32 % 2 == byte / 32 % 2);
    } else if other == 6 {
        assert((byte + 8) / 64 % 2 == byte / 64 % 2);
    } else if other == 7 {
        assert((byte + 8) / 128 % 2 == byte / 128 % 2);
    }
}

proof fn lemma_set_place_four(byte: int, other: int)
    requires
        0 <= byte < 256,
        byte % 32 == 0,
        4 <= other <= 7,
    ensures
        byte + 16 < 256,
        byte % 16 == 0,
        (byte + 16) % 16 == 0,
        bit_of((byte + 16) as u8, other) == (other == 4 || bit_of(byte as u8, other)),
        !bit_of(byte as u8, 4),
{
    if other == 4 {
        assert((byte + 16) / 16 % 2 == 1 && byte / 16 % 2 == 0);
    } else if other == 5 {
        assert((byte + 16) / 32 % 2 == byte / 32 % 2);
    } else if other == 6 {
        assert((byte + 16) / 64 % 2 == byte / 64 % 2);
    } else if other == 7 {
        assert((byte + 16) / 128 % 2 == byte / 128 % 2);
    }
}

proof fn lemma_set_place_five(byte: int, other: int)
    requires
        0 <= byte < 256,
        byte % 64 == 0,
        5 <= other <= 7,
    ensures
        byte + 32 < 256,
        byte % 32 == 0,
        (byte + 32) % 32 == 0,
        bit_of((byte + 32) as u8, other) == (other == 5 || bit_of(byte as u8, other)),
        !bit_of(byte as u8, 5),
{
    if other == 5 {
        assert((byte + 32) / 32 % 2 == 1 && byte / 32 % 2 == 0);
    } else if other == 6 {
        assert((byte + 32) / 64 % 2 == byte / 64 % 2);
    } else if other == 7 {
        assert((byte + 32) / 128 % 2 == byte / 128 % 2);
    }
}

proof fn lemma_set_place_six(byte: int, other: int)
    requires
        0 <= byte < 256,
        byte % 128 == 0,
        6 <= other <= 7,
    ensures
        byte + 64 < 256,
        byte % 64 == 0,
        (byte + 64) % 64 == 0,
        bit_of((byte + 64) as u8, other) == (other == 6 || bit_of(byte as u8, other)),
        !bit_of(byte as u8, 6),
{
    if other == 6 {
        assert((byte + 64) / 64 % 2 == 1 && byte / 64 % 2 == 0);
    } else if other == 7 {
        assert((byte + 64) / 128 % 2 == byte / 128 % 2);
    }
}

proof fn lemma_set_place_seven(byte: int, other: int)
    requires
        0 <= byte < 256,
        byte % 256 == 0,
        7 <= other <= 7,
    ensures
        byte + 128 < 256,
        byte % 128 == 0,
        (byte + 128) % 128 == 0,
        bit_of((byte + 128) as u8, other) == (other == 7 || bit_of(byte as u8, other)),
        !bit_of(byte as u8, 7),
{
    if other == 7 {
        assert((byte + 128) / 128 % 2 == 1 && byte / 128 % 2 == 0);
    }
}

/// Setting the lowest bit that may be set of a byte whose bits below are
/// clear changes that bit alone.
pub proof fn lemma_set_bit(byte: int, place: int, other: int)
    requires
        0 <= byte < 256,
        0 <= place <= 7,
        byte % places_from(place + 1) == 0,
        place <= other <= 7,
    ensures
        byte + place_value(place) < 256,
        byte % place_value(place) == 0,
        (byte + place_value(place)) % place_value(place) == 0,
        bit_of((byte + place_value(place)) as u8, other) == (other == place || bit_of(
            byte as u8,
            other,
        )),
        !bit_of(byte as u8, place),
{
    if place == 0 {
        lemma_set_place_zero(byte, other);
    } else if place == 1 {
        lemma_set_place_one(byte, other);
    } else if place == 2 {
        lemma_set_place_two(byte, other);
    } else if place == 3 {
        lemma_set_place_three(byte, other);
    } else if place == 4 {
        lemma_set_place_four(byte, other);
    } else if place == 5 {
        lemma_set_place_five(byte, other);
    } else if place == 6 {
        lemma_set_place_six(byte, other);
    } else {
        lemma_set_place_seven(byte, other);
    }
}

impl BitWriter {
    /// The writer is consistent: the bits of the last byte that are not
    /// written yet are clear.
    pub closed spec fn wf(self) -> bool {
        &&& self.data.len() >= 1
        &&& -1 <= self.bit_index <= 7
        &&& self.bit_index == 7 ==> self.data.len() == 1
        &&& self.data[self.data.len() - 1] as int % places_from(self.bit_index + 1) == 0
    }

    /// A bit of a byte of the writer is the bit written at its place; a bit
    /// that is not written yet is clear.
    proof fn lemma_bit(self, j: int, i: int)
        requires
            self.wf(),
            0 <= j < self.data.len(),
            0 <= i < 8,
        ensures
            bit_value(self.bits(), 8 * j + i) == (if bit_of(self.data[j], 7 - i) {
                1int
            } else {
                0int
            }),
    {
        let k = 8 * j + i;
        assert(k / 8 == j && k % 8 == i);
        if k >= self.bits().len() {
            lemma_low_bits_clear(self.data[j] as int, self.bit_index + 1, 7 - i);
        }
    }

    /// The bytes of the writer hold the bits written, of each byte the most
    /// significant bit first, and zero bits behind them.
    proof fn lemma_bytes(self)
        requires
            self.wf(),
        ensures
            self.data@ == message_bytes(self.bits()),
    {
        let bits = self.bits();
        let bytes = message_bytes(bits);
        let len = self.data.len() as int;
        assert(bytes.len() == len);
        assert forall|j: int| 0 <= j < len implies self.data[j] == bytes[j] by {
            let byte = self.data[j];
            self.lemma_bit(j, 0);
            self.lemma_bit(j, 1);
            self.lemma_bit(j, 2);
            self.lemma_bit(j, 3);
            self.lemma_bit(j, 4);
            self.lemma_bit(j, 5);
            self.lemma_bit(j, 6);
            self.lemma_bit(j, 7);
            lemma_binary(byte as int);
        }
        assert(self.data@ =~= bytes);
    }

    /// The bits written so far.
    pub closed spec fn bits(self) -> Seq<bool> {
        Seq::new(
            (8 * (self.data.len() - 1) + (7 - self.bit_index)) as nat,
            |k: int| bit_of(self.data[k / 8], 7 - k % 8),
        )
    }

    /// A writer that has written no bit; it holds one byte already.
    pub fn new() -> (writer: BitWriter)
        ensures
            writer.wf(),
            writer.bits() == Seq::<bool>::empty(),
    {
        let mut data: Vec<u8> = Vec::new();
        data.push(0);
        let writer = BitWriter { data, bit_index: 7 };
        assert(writer.bits() =~= Seq::<bool>::empty());
        writer
    }

    /// Writes one bit.
    pub fn write(&mut self, bit: bool)
        requires
            old(self).wf(),
        ensures
            final(self).wf(),
            final(self).bits() == old(self).bits().push(bit),
    {
        let ghost before = self.bits();
        if self.bit_index == -1 {
            self.data.push(0);
            self.bit_index = 7;
            proof {
                assert(self.bits() =~= before);
            }
        }
        let len = self.data.len();
        let ghost bytes = self.data@;
        let ghost place_index = self.bit_index as int;
        let last = self.data[len - 1];
        proof {
            lemma_set_bit(last as int, place_index, place_index);
        }
        if bit {
            self.data.set(len - 1, last + place(self.bit_index as u8));
        }
        self.bit_index = self.bit_index - 1;
        proof {
            let after = self.bits();
            let grown = before.push(bit);
            assert(after.len() == grown.len());
            assert forall|k: int| 0 <= k < after.len() implies after[k] == grown[k] by {
                if k / 8 == len - 1 {
                    let other = 7 - k % 8;
                    lemma_set_bit(last as int, place_index, other);
                } else {
                    assert(self.data[k / 8] == bytes[k / 8]);
                }
            }
            assert(after =~= grown);
        }
    }
}

/// Writes `bit` and behind it, as often as `bits_to_follow` says, its
/// opposite.
pub fn encode_following_bit(writer: &mut BitWriter, bits_to_follow: &mut i32, bit: bool)
    requires
        old(writer).wf(),
        0 <= *old(bits_to_follow),
    ensures
        final(writer).wf(),
        *final(bits_to_follow) == 0,
        final(writer).bits() == emitted(old(writer).bits(), bit, *old(bits_to_follow) as nat),
{
    writer.write(bit);
    let ghost start = writer.bits();
    let ghost count = *bits_to_follow as int;
    proof {
        assert(start + Seq::new(0, |k: int| !bit) =~= start);
    }
    while *bits_to_follow > 0
        invariant
            writer.wf(),
            0 <= *bits_to_follow <= count,
            writer.bits() == start + Seq::new((count - *bits_to_follow) as nat, |k: int| !bit),
        decreases *bits_to_follow,
    {
        writer.write(!bit);
        *bits_to_follow -= 1;
        proof {
            assert(writer.bits() =~= start + Seq::new(
                (count - *bits_to_follow) as nat,
                |k: int| !bit,
            ));
        }
    }
}

/// The state of the encoder.
pub open spec fn coder_state(writer: BitWriter, low: usize, high: usize, bits_to_follow: i32) -> CoderState {
    CoderState {
        low: low as int,
        high: high as int,
        pending: bits_to_follow as nat,
        bits: writer.bits(),
    }
}

/// Encodes one symbol: narrows the interval to the part of the symbol, and
/// writes the bits that are settled by that.
pub fn encode_char(
    writer: &mut BitWriter,
    frequencies: &Frequencies,
    low: &mut usize,
    high: &mut usize,
    bits_to_follow: &mut i32,
    char_index: usize,
)
    requires
        old(writer).wf(),
        frequencies.wf(),
        is_interval(*old(low) as int, *old(high) as int),
        1 <= char_index <= NUMBER_OF_SYMBOLS,
        0 <= *old(bits_to_follow) <= i32::MAX - 17,
    ensures
        final(writer).wf(),
        is_interval(*final(low) as int, *final(high) as int),
        0 <= *final(bits_to_follow) <= *old(bits_to_follow) + 16,
        coder_state(*final(writer), *final(low), *final(high), *final(bits_to_follow))
            == with_symbol(
            coder_state(*old(writer), *old(low), *old(high), *old(bits_to_follow)),
            frequencies.model(),
            char_index as int,
        ),
{
    let ghost start = coder_state(*writer, *low, *high, *bits_to_follow);
    let range = *high - *low + 1;
    let total = frequencies.get_total();
    let char_low = frequencies.get_low(char_index);
    let char_high = frequencies.get_high(char_index);
    proof {
        lemma_narrowed(*low as int, *high as int, char_low as int, char_high as int, total as int);
        assert(range * char_high <= 65536 * 16383) by (nonlinear_arith)
            requires
                0 <= range <= 65536,
                0 <= char_high <= 16383,
        ;
        assert(range * char_low <= 65536 * 16383) by (nonlinear_arith)
            requires
                0 <= range <= 65536,
                0 <= char_low <= 16383,
        ;
    }
    *high = *low + range * char_high / total - 1;
    *low = *low + range * char_low / total;
    let ghost mut steps: int = 0;
    let ghost first_range = *high - *low + 1;
    let ghost first_follow = *bits_to_follow as int;
    let ghost goal = with_symbol(start, frequencies.model(), char_index as int);
    proof {
        assert(goal == settled(coder_state(*writer, *low, *high, *bits_to_follow)));
    }
    loop
        invariant_except_break
            writer.wf(),
            0 <= *low <= *high <= CODE_VALUE_MAX,
            0 <= steps <= 16,
            *high - *low + 1 == first_range * doubled(steps),
            first_range >= 1,
            0 <= *bits_to_follow <= first_follow + steps,
            first_follow <= i32::MAX - 17,
            goal == settled(coder_state(*writer, *low, *high, *bits_to_follow)),
        ensures
            writer.wf(),
            is_interval(*low as int, *high as int),
            0 <= *bits_to_follow <= first_follow + 16,
            goal == coder_state(*writer, *low, *high, *bits_to_follow),
        decreases 17 - steps,
    {
        if *high < CODE_VALUE_HALF {
            encode_following_bit(writer, bits_to_follow, false);
        } else if *low >= CODE_VALUE_HALF {
            encode_following_bit(writer, bits_to_follow, true);
            *low -= CODE_VALUE_HALF;
            *high -= CODE_VALUE_HALF;
        } else if *low >= CODE_VALUE_FIRST_QUARTER && *high < CODE_VALUE_THIRD_QUARTER {
            *bits_to_follow += 1;
            *low -= CODE_VALUE_FIRST_QUARTER;
            *high -= CODE_VALUE_FIRST_QUARTER;
        } else {
            break ;
        }
        *low *= 2;
        *high = 2 * *high + 1;
        proof {
            assert(first_range * doubled(steps + 1) == 2 * (first_range * doubled(steps))) by {
                assert(doubled(steps + 1) == 2 * doubled(steps));
                assert(first_range * (2 * doubled(steps)) == 2 * (first_range * doubled(steps)))
                    by (nonlinear_arith);
            }
            assert(steps < 16) by {
                if steps >= 16 {
                    assert(first_range * doubled(16) >= 65536) by (nonlinear_arith)
                        requires
                            first_range >= 1,
                            doubled(16) == 65536,
                    ;
                }
            }
            steps = steps + 1;
        }
    }
}

/// The code of `data`: each byte is encoded with the model of the bytes
/// before it, then the end of the message, and the bits that settle the
/// last interval.
pub fn encode(data: &[u8]) -> (code: Vec<u8>)
    requires
        message_fits(data@.len() as int),
    ensures
        code@ == coded(data@),
{
    let mut writer = BitWriter::new();
    let mut frequencies = Frequencies::new();
    let mut low: usize = 0;
    let mut high: usize = CODE_VALUE_MAX;
    let mut bits_to_follow: i32 = 0;
    let mut done: usize = 0;
    proof {
        assert(data@.take(0) =~= Seq::<u8>::empty());
    }
    while done < data.len()
        invariant
            done <= data.len(),
            message_fits(data@.len() as int),
            writer.wf(),
            frequencies.wf(),
            is_interval(low as int, high as int),
            0 <= bits_to_follow <= 16 * done,
            coded_state(data@.take(done as int)) == (
                coder_state(writer, low, high, bits_to_follow),
                frequencies.model(),
            ),
        decreases data.len() - done,
    {
        proof {
            assert(data@.take(done + 1).drop_last() =~= data@.take(done as int));
        }
        let char_index = frequencies.char_to_index(data[done] as usize);
        encode_char(
            &mut writer,
            &frequencies,
            &mut low,
            &mut high,
            &mut bits_to_follow,
            char_index,
        );
        frequencies.update(char_index);
        done += 1;
    }
    proof {
        assert(data@.take(done as int) =~= data@);
    }
    encode_char(&mut writer, &frequencies, &mut low, &mut high, &mut bits_to_follow, EOF_SYMBOL);
    bits_to_follow += 1;
    encode_following_bit(&mut writer, &mut bits_to_follow, low >= CODE_VALUE_FIRST_QUARTER);
    proof {
        writer.lemma_bytes();
    }
    writer.data
}

} // verus!
