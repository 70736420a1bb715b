//! What holds of frequencies, codes and payloads.

use crate::huffman::encode::{frequencies, lemma_alive_with, occurrences, payload_of};
use crate::huffman::table::{
    code_before, entry_before, is_listing, lemma_code_before_strict, listing_bits, payload_size,
    zero_bits, TableEntry,
};
use crate::huffman::tree::{alive_weight, leaves, total_weight};
use crate::stable::{injective_into, lemma_pigeonhole};
use vstd::prelude::*;

verus! {

/// A listing holds each byte once; so it has at most 256 entries, and its
/// code words are code words of the table.
pub proof fn lemma_listing_length(codes: Map<u8, Seq<bool>>, entries: Seq<TableEntry>)
    requires
        is_listing(codes, entries),
    ensures
        entries.len() <= 256,
        forall|i: int, j: int|
            0 <= i < entries.len() && 0 <= j < entries.len() && i != j ==> (#[trigger] entries[i]).0
                != (#[trigger] entries[j]).0,
{
    assert forall|i: int, j: int|
        0 <= i < entries.len() && 0 <= j < entries.len() && i != j implies (#[trigger] entries[i]).0
        != (#[trigger] entries[j]).0 by {
        if entries[i].0 == entries[j].0 {
            assert(codes[entries[i].0] == entries[i].1);
            assert(codes[entries[j].0] == entries[j].1);
            if i < j {
                assert(entry_before(entries[i], entries[j]));
                if code_before(entries[i].1, entries[j].1) {
                    lemma_code_before_strict(entries[i].1, entries[j].1);
                }
            } else {
                assert(entry_before(entries[j], entries[i]));
                if code_before(entries[j].1, entries[i].1) {
                    lemma_code_before_strict(entries[j].1, entries[i].1);
                }
            }
        }
    }
    let letters = Seq::new(entries.len(), |i: int| entries[i].0 as int);
    assert(injective_into(letters, 256)) by {
        assert forall|i: int, j: int|
            0 <= i < letters.len() && 0 <= j < letters.len() && i != j implies letters[i]
            != letters[j] by {
            assert(entries[i].0 != entries[j].0);
        }
    }
    lemma_pigeonhole(letters, 256);
}

/// The bits of `count` entries with code words of at most 255 bits number
/// at most 264 for each entry.
pub proof fn lemma_listing_bits_length(entries: Seq<TableEntry>, count: int)
    requires
        0 <= count <= entries.len(),
        forall|i: int| 0 <= i < entries.len() ==> (#[trigger] entries[i]).1.len() <= 255,
    ensures
        listing_bits(entries, count).len() <= 264 * count,
    decreases count,
{
    if count > 0 {
        lemma_listing_bits_length(entries, count - 1);
        assert(entries[count - 1].1.len() <= 255);
        if count > 1 {
            lemma_trailing_ones_bound(entries[count - 2].1);
        }
    }
}

/// A code word has no more bits 1 at its end than it has bits.
pub proof fn lemma_trailing_ones_bound(code: Seq<bool>)
    ensures
        crate::huffman::table::trailing_ones(code) <= code.len(),
    decreases code.len(),
{
    if code.len() > 0 && code.last() {
        lemma_trailing_ones_bound(code.drop_last());
    }
}

/// A byte of the input occurs in it.
pub proof fn lemma_occurs(input: Seq<u8>, i: int)
    requires
        0 <= i < input.len(),
    ensures
        occurrences(input, input[i]) > 0,
    decreases input.len(),
{
    if i < input.len() - 1 {
        lemma_occurs(input.drop_last(), i);
    }
}

/// How many bytes of `input` are below `upto`.
pub open spec fn bytes_below(input: Seq<u8>, upto: int) -> nat
    decreases input.len(),
{
    if input.len() == 0 {
        0
    } else {
        bytes_below(input.drop_last(), upto) + if input.last() < upto {
            1nat
        } else {
            0nat
        }
    }
}

/// The bytes below a bound, counted one value at a time: each value adds the
/// number of times it occurs.
pub proof fn lemma_bytes_below_step(input: Seq<u8>, upto: int)
    ensures
        bytes_below(input, upto + 1) == bytes_below(input, upto) + (if 0 <= upto < 256 {
            occurrences(input, upto as u8)
        } else {
            0
        }),
        bytes_below(input, upto) <= input.len(),
        upto >= 256 ==> bytes_below(input, upto) == input.len(),
        upto <= 0 ==> bytes_below(input, upto) == 0,
    decreases input.len(),
{
    if input.len() > 0 {
        lemma_bytes_below_step(input.drop_last(), upto);
    }
}

/// The weights of the leaves for the bytes below `upto` add up to the number
/// of bytes of the input that are below `upto`.
pub proof fn lemma_leaves_weight(input: Seq<u8>, upto: int)
    requires
        0 <= upto <= 256,
        input.len() <= u64::MAX,
    ensures
        leaves(frequencies(input), upto).weights.len() == leaves(
            frequencies(input),
            upto,
        ).alive.len(),
        alive_weight(
            leaves(frequencies(input), upto).weights,
            leaves(frequencies(input), upto).alive,
        ) == bytes_below(input, upto),
    decreases upto,
{
    lemma_bytes_below_step(input, upto);
    if upto > 0 {
        lemma_leaves_weight(input, upto - 1);
        lemma_bytes_below_step(input, upto - 1);
        let freqs = frequencies(input);
        let before = leaves(freqs, upto - 1);
        let byte = (upto - 1) as u8;
        crate::huffman::encode::lemma_occurrences_bound(input, byte);
        if freqs.contains_key(byte) {
            lemma_alive_with(before.weights, before.alive, freqs[byte] as nat);
        }
    }
}

/// The frequencies of an input add up to its length.
pub proof fn lemma_total_weight(input: Seq<u8>)
    requires
        input.len() <= u64::MAX,
    ensures
        total_weight(frequencies(input)) == input.len(),
{
    lemma_leaves_weight(input, 256);
    lemma_bytes_below_step(input, 256);
}

/// The number of payload bits over the bytes below `upto` is the length of
/// the payload of the bytes of the input that are below `upto`.
pub open spec fn payload_below(codes: Map<u8, Seq<bool>>, input: Seq<u8>, upto: int) -> nat
    decreases input.len(),
{
    if input.len() == 0 {
        0
    } else {
        payload_below(codes, input.drop_last(), upto) + if input.last() < upto {
            codes[input.last()].len()
        } else {
            0nat
        }
    }
}

/// The payload below a bound, one value at a time: each value adds the
/// length of its code word once for each time it occurs.
pub proof fn lemma_payload_below_step(codes: Map<u8, Seq<bool>>, input: Seq<u8>, upto: int)
    requires
        0 <= upto < 256,
    ensures
        payload_below(codes, input, upto + 1) == payload_below(codes, input, upto) + codes[upto as u8].len()
            * occurrences(input, upto as u8),
    decreases input.len(),
{
    let byte = upto as u8;
    let word = codes[byte].len();
    if input.len() > 0 {
        lemma_payload_below_step(codes, input.drop_last(), upto);
        let shorter = occurrences(input.drop_last(), byte);
        if input.last() == byte {
            assert(word * (shorter + 1) == word * shorter + word) by (nonlinear_arith);
        }
    } else {
        assert(word * 0 == 0) by (nonlinear_arith);
    }
}

/// The payload below the end of the alphabet is the whole payload; below its
/// start there is none.
pub proof fn lemma_payload_below_all(codes: Map<u8, Seq<bool>>, input: Seq<u8>)
    ensures
        payload_below(codes, input, 256) == payload_of(codes, input).len(),
        payload_below(codes, input, 0) == 0,
    decreases input.len(),
{
    if input.len() > 0 {
        lemma_payload_below_all(codes, input.drop_last());
    }
}

/// The payload computed from the counts is the payload counted along the
/// input.
pub proof fn lemma_payload_size_below(codes: Map<u8, Seq<bool>>, input: Seq<u8>, upto: int)
    requires
        0 <= upto <= 256,
        input.len() <= u64::MAX,
    ensures
        payload_size(frequencies(input), codes, upto) == payload_below(codes, input, upto),
    decreases upto,
{
    lemma_payload_below_all(codes, input);
    if upto > 0 {
        lemma_payload_size_below(codes, input, upto - 1);
        lemma_payload_below_step(codes, input, upto - 1);
        let byte = (upto - 1) as u8;
        crate::huffman::encode::lemma_occurrences_bound(input, byte);
        if !frequencies(input).contains_key(byte) {
            assert(codes[byte].len() * occurrences(input, byte) == 0) by (nonlinear_arith)
                requires
                    occurrences(input, byte) == 0,
            ;
        }
    }
}

/// The number of payload bits that the frequencies of an input give is the
/// length of its payload.
pub proof fn lemma_payload_size(input: Seq<u8>, codes: Map<u8, Seq<bool>>)
    requires
        input.len() <= u64::MAX,
    ensures
        payload_size(frequencies(input), codes, 256) == payload_of(codes, input).len(),
{
    lemma_payload_size_below(codes, input, 256);
    lemma_payload_below_all(codes, input);
}

/// A payload takes at most 255 bits for each byte where no code word is
/// longer.
pub proof fn lemma_payload_bound(input: Seq<u8>, codes: Map<u8, Seq<bool>>)
    requires
        forall|i: int| 0 <= i < input.len() ==> codes[#[trigger] input[i]].len() <= 255,
    ensures
        payload_of(codes, input).len() <= 255 * input.len(),
    decreases input.len(),
{
    if input.len() > 0 {
        let shorter = input.drop_last();
        assert forall|i: int| 0 <= i < shorter.len() implies codes[#[trigger] shorter[i]].len()
            <= 255 by {
            assert(shorter[i] == input[i]);
        }
        lemma_payload_bound(shorter, codes);
        assert(codes[input[input.len() - 1]].len() <= 255);
    }
}

/// A table that parses takes at least nine bits, and no more than there are.
pub proof fn lemma_table_bits_used(bits: Seq<bool>, current: Seq<bool>)
    requires
        crate::huffman::table::parse_table(bits, current).is_some(),
    ensures
        9 <= crate::huffman::table::parse_table(bits, current).unwrap().1 <= bits.len(),
    decreases bits.len(),
{
    let zeros = crate::huffman::table::leading_zeros(bits) as int;
    let code = current + zero_bits(zeros);
    if crate::huffman::table::trailing_ones(code) != code.len() {
        lemma_table_bits_used(bits.skip(zeros + 9), crate::huffman::table::successor(code));
    }
}

/// A header that parses takes at least 96 bits, and no more than there are.
pub proof fn lemma_header_bits_used(bits: Seq<bool>)
    requires
        crate::huffman::table::parse_header(bits).is_some(),
    ensures
        96 <= crate::huffman::table::parse_header(bits).unwrap().1 <= bits.len(),
{
    reveal(crate::huffman::table::parse_header);
    if crate::huffman::table::int_value(bits, 32, 8) != 0 || bits.len() != 96 {
        lemma_table_bits_used(bits.skip(96), Seq::empty());
    }
}

} // verus!
