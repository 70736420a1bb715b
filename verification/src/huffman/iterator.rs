//! Bits in bytes: a byte holds eight bits of a stream, the first of them in
//! its least significant place.

use crate::bits::{bits_get, bits_len, bits_of};
use bit_vec::BitVec;
use vstd::prelude::*;

verus! {

/// The value of the binary place `i` of a byte.
pub open spec fn place_value(i: int) -> int {
    if i == 0 {
        1
    } else if i == 1 {
        2
    } else if i == 2 {
        4
    } else if i == 3 {
        8
    } else if i == 4 {
        16
    } else if i == 5 {
        32
    } else if i == 6 {
        64
    } else {
        128
    }
}

/// Bit `i` of `byte`, bit 0 being the least significant.
pub open spec fn bit_of(byte: u8, i: int) -> bool {
    (byte as int / place_value(i)) % 2 == 1
}

/// Bit `k` of a stream as a number; behind the end of the stream, 0.
pub open spec fn bit_value(bits: Seq<bool>, k: int) -> int {
    if 0 <= k < bits.len() && bits[k] {
        1
    } else {
        0
    }
}

/// The byte that holds the eight bits of a stream from bit `from` on.
pub open spec fn packed_byte(bits: Seq<bool>, from: int) -> int {
    bit_value(bits, from) + 2 * bit_value(bits, from + 1) + 4 * bit_value(bits, from + 2) + 8
        * bit_value(bits, from + 3) + 16 * bit_value(bits, from + 4) + 32 * bit_value(
        bits,
        from + 5,
    ) + 64 * bit_value(bits, from + 6) + 128 * bit_value(bits, from + 7)
}

/// A stream of bits packed into bytes; the last byte is filled up with
/// zero bits.
pub open spec fn packed(bits: Seq<bool>) -> Seq<u8> {
    Seq::new(((bits.len() + 7) / 8) as nat, |j: int| packed_byte(bits, 8 * j) as u8)
}

/// The bits that a sequence of bytes holds.
pub open spec fn stream_bits(bytes: Seq<u8>) -> Seq<bool> {
    Seq::new(8 * bytes.len(), |k: int| bit_of(bytes[k / 8], k % 8))
}

/// Unpacking gives back what was packed, and zero bits behind it.
pub proof fn lemma_stream_of_packed(bits: Seq<bool>, k: int)
    requires
        0 <= k < 8 * packed(bits).len(),
    ensures
        stream_bits(packed(bits))[k] == (bit_value(bits, k) == 1),
{
    let j = k / 8;
    let i = k % 8;
    let b0 = bit_value(bits, 8 * j);
    let b1 = bit_value(bits, 8 * j + 1);
    let b2 = bit_value(bits, 8 * j + 2);
    let b3 = bit_value(bits, 8 * j + 3);
    let b4 = bit_value(bits, 8 * j + 4);
    let b5 = bit_value(bits, 8 * j + 5);
    let b6 = bit_value(bits, 8 * j + 6);
    let b7 = bit_value(bits, 8 * j + 7);
    let byte = b0 + 2 * b1 + 4 * b2 + 8 * b3 + 16 * b4 + 32 * b5 + 64 * b6 + 128 * b7;
    assert(packed_byte(bits, 8 * j) == byte);
    assert(0 <= byte < 256);
    assert(packed(bits)[j] == byte as u8);
    assert(byte / 1 % 2 == b0);
    assert(byte / 2 % 2 == b1);
    assert(byte / 4 % 2 == b2);
    assert(byte / 8 % 2 == b3);
    assert(byte / 16 % 2 == b4);
    assert(byte / 32 % 2 == b5);
    assert(byte / 64 % 2 == b6);
    assert(byte / 128 % 2 == b7);
}

/// The value of the binary place `i`.
pub fn place(i: u8) -> (value: u8)
    requires
        i < 8,
    ensures
        value == place_value(i as int),
{
    if i == 0 {
        1
    } else if i == 1 {
        2
    } else if i == 2 {
        4
    } else if i == 3 {
        8
    } else if i == 4 {
        16
    } else if i == 5 {
        32
    } else if i == 6 {
        64
    } else {
        128
    }
}

/// Takes the bits of a stream eight at a time, as bytes.
pub struct ByteIterator {
    input: BitVec,
    position: usize,
}

impl ByteIterator {
    /// The bits that are still to be packed.
    pub closed spec fn remaining(self) -> Seq<bool> {
        bits_of(self.input).skip(self.position as int)
    }

    #[verifier::type_invariant]
    spec fn wf(self) -> bool {
        self.position <= bits_of(self.input).len()
    }

    /// Starts at the first bit of `input`.
    pub fn new(input: BitVec) -> (iterator: ByteIterator)
        ensures
            iterator.remaining() == bits_of(input),
    {
        let iterator = ByteIterator { input, position: 0 };
        assert(iterator.remaining() =~= bits_of(input));
        iterator
    }

    /// The byte of the next eight bits, the first bit in the least
    /// significant place; fewer bits at the end are filled up with zero
    /// bits. Nothing once all bits are taken.
    pub fn next(&mut self) -> (byte: Option<u8>)
        ensures
            old(self).remaining().len() == 0 ==> byte.is_none() && final(self).remaining()
                == old(self).remaining(),
            old(self).remaining().len() > 0 ==> byte == Some(
                packed_byte(old(self).remaining(), 0) as u8,
            ) && final(self).remaining() == old(self).remaining().skip(
                if old(self).remaining().len() < 8 {
                    old(self).remaining().len() as int
                } else {
                    8
                },
            ),
    {
        proof {
            use_type_invariant(&*self);
        }
        let length = bits_len(&self.input);
        if self.position >= length {
            return None;
        }
        let ghost all = bits_of(self.input);
        let ghost rest = self.remaining();
        let start = self.position;
        let mut byte: u8 = 0;
        let mut i: u8 = 0;
        while i < 8 && self.position < length
            invariant
                i <= 8,
                length == all.len(),
                bits_of(self.input) == all,
                start < length,
                self.position == start + i,
                start + i <= length,
                byte == partial_byte(rest, i as int),
                i < 8 ==> byte < place_value(i as int),
                rest == all.skip(start as int),
            decreases 8 - i,
        {
            let bit = bits_get(&self.input, self.position);
            assert(rest[i as int] == all[start + i]);
            if bit {
                byte = byte + place(i);
            }
            self.position = self.position + 1;
            i = i + 1;
        }
        proof {
            assert(partial_byte(rest, 8) == packed_byte(rest, 0)) by {
                reveal_with_fuel(partial_byte, 9);
            }
            if i < 8 {
                lemma_partial_byte_end(rest, i as int);
                assert(self.remaining() =~= rest.skip(rest.len() as int));
            } else {
                assert(self.remaining() =~= rest.skip(8));
            }
        }
        Some(byte)
    }
}

/// The byte made of the first `count` bits of a stream.
pub open spec fn partial_byte(bits: Seq<bool>, count: int) -> int
    decreases count,
{
    if count <= 0 {
        0
    } else {
        partial_byte(bits, count - 1) + if bit_value(bits, count - 1) == 1 {
            place_value(count - 1)
        } else {
            0
        }
    }
}

/// Places beyond the end of the bits add nothing to a byte.
pub proof fn lemma_partial_byte_end(bits: Seq<bool>, count: int)
    requires
        0 <= count <= 8,
        bits.len() <= count,
    ensures
        partial_byte(bits, 8) == partial_byte(bits, count),
{
    reveal_with_fuel(partial_byte, 9);
}

/// Reads a stream of bits out of bytes, up to a number of bits that can be
/// set while reading.
pub struct BitIterator<'a> {
    input: &'a [u8],
    byte_index: usize,
    current_position: u8,
    bit_size: usize,
}

impl<'a> BitIterator<'a> {
    #[verifier::type_invariant]
    spec fn wf(self) -> bool {
        &&& self.byte_index <= self.input@.len()
        &&& self.current_position < 8
        &&& self.byte_index == self.input@.len() ==> self.current_position == 0
    }

    /// The bits that the bytes still hold, whatever the number of bits that
    /// may be read.
    pub closed spec fn pending(self) -> Seq<bool> {
        stream_bits(self.input@).skip(8 * self.byte_index + self.current_position)
    }

    /// The number of bits that may still be read.
    pub closed spec fn budget(self) -> nat {
        self.bit_size as nat
    }

    /// The bytes that are read.
    pub closed spec fn source(self) -> Seq<u8> {
        self.input@
    }

    /// The bits that are still to be read.
    pub open spec fn remaining(self) -> Seq<bool> {
        if self.budget() < self.pending().len() {
            self.pending().take(self.budget() as int)
        } else {
            self.pending()
        }
    }

    /// `self` stands `used` bits behind `before`.
    pub open spec fn follows(self, before: BitIterator<'a>, used: int) -> bool {
        &&& self.source() == before.source()
        &&& 0 <= used <= before.remaining().len()
        &&& self.pending() == before.pending().skip(used)
        &&& self.budget() == before.budget() - used
    }

    /// Behind `used` bits, what is to be read is what was to be read without
    /// its first `used` bits.
    pub proof fn lemma_follows(self, before: BitIterator<'a>, used: int)
        requires
            self.follows(before, used),
        ensures
            self.remaining() == before.remaining().skip(used),
            self.remaining().len() == before.remaining().len() - used,
    {
        assert(self.remaining() =~= before.remaining().skip(used));
    }

    /// No more bits are to be read than may be read, and that number is a
    /// machine number.
    pub proof fn lemma_budget(self)
        ensures
            self.remaining().len() <= self.budget() <= usize::MAX,
    {
    }

    /// Steps add up.
    pub proof fn lemma_follows_twice(
        self,
        middle: BitIterator<'a>,
        before: BitIterator<'a>,
        first: int,
        second: int,
    )
        requires
            middle.follows(before, first),
            self.follows(middle, second),
        ensures
            self.follows(before, first + second),
    {
        middle.lemma_follows(before, first);
        assert(self.pending() =~= before.pending().skip(first + second));
    }

    /// Starts at the first bit of `input_iter`, to read at most `bit_size`
    /// bits.
    pub fn new(input_iter: &'a [u8], bit_size: usize) -> (iterator: BitIterator<'a>)
        ensures
            iterator.pending() == stream_bits(input_iter@),
            iterator.budget() == bit_size,
            iterator.source() == input_iter@,
    {
        let iterator = BitIterator { input: input_iter, byte_index: 0, current_position: 0, bit_size };
        assert(iterator.pending() =~= stream_bits(input_iter@));
        iterator
    }

    /// Sets the number of bits that may still be read.
    pub fn bit_size(&mut self, bit_size: usize)
        ensures
            final(self).pending() == old(self).pending(),
            final(self).budget() == bit_size,
            final(self).source() == old(self).source(),
    {
        proof {
            use_type_invariant(&*self);
        }
        self.bit_size = bit_size;
    }

    /// How many bytes have been read, a byte counting from its first bit on.
    pub fn consumed(&self) -> (count: usize)
        ensures
            count == (8 * self.source().len() - self.pending().len() + 7) / 8,
            count <= self.source().len(),
            self.pending().len() <= 8 * self.source().len(),
    {
        proof {
            use_type_invariant(self);
        }
        let length = self.input.len();
        if self.current_position == 0 || self.byte_index >= length {
            self.byte_index
        } else {
            self.byte_index + 1
        }
    }

    /// The number of bits that may still be read.
    pub fn allowed(&self) -> (count: usize)
        ensures
            count == self.budget(),
    {
        self.bit_size
    }

    /// Whether the bytes still hold `count` bits.
    pub fn holds(&self, count: usize) -> (enough: bool)
        ensures
            enough == (count <= self.pending().len()),
    {
        proof {
            use_type_invariant(self);
        }
        let whole = self.input.len() - self.byte_index;
        let needed = count / 8 + (count % 8 + self.current_position as usize + 7) / 8;
        needed <= whole
    }

    /// The next bit; nothing where no bit may be read or none is left.
    pub fn next(&mut self) -> (bit: Option<bool>)
        ensures
            bit.is_none() <==> old(self).remaining().len() == 0,
            bit.is_none() ==> final(self).follows(*old(self), 0),
            bit.is_some() ==> bit.unwrap() == old(self).remaining()[0] && final(self).follows(
                *old(self),
                1,
            ),
    {
        proof {
            use_type_invariant(&*self);
        }
        if self.bit_size == 0 || self.byte_index >= self.input.len() {
            assert(self.remaining().len() == 0);
            assert(self.pending() =~= self.pending().skip(0));
            return None;
        }
        let ghost before = self.pending();
        let ghost at = 8 * self.byte_index + self.current_position;
        let bit = (self.input[self.byte_index] / place(self.current_position)) % 2 == 1;
        proof {
            assert(at / 8 == self.byte_index as int && at % 8 == self.current_position as int);
            assert(before[0] == stream_bits(self.input@)[at]);
        }
        if self.current_position == 7 {
            self.current_position = 0;
            self.byte_index = self.byte_index + 1;
        } else {
            self.current_position = self.current_position + 1;
        }
        self.bit_size = self.bit_size - 1;
        proof {
            assert(self.pending() =~= before.skip(1));
        }
        Some(bit)
    }
}

} // verus!
