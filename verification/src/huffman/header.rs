//! The header of a block: the primary index, the number of payload bits, and
//! the canonical code table.

use crate::bits::{bits_clone, bits_get, bits_len, bits_new, bits_of, bits_push};
use crate::huffman::encode::code_view;
use crate::huffman::iterator::{place, place_value, stream_bits, BitIterator};
use crate::huffman::table::{
    be_byte, be_bytes, byte_power, carried_len, code_before, entry_before, entry_bits,
    header_bits, int_value, is_listing, key_bit, keys_agree, leading_zeros,
    lemma_code_before_strict, lemma_entry_before_total, lemma_entry_before_trans,
    lemma_partial_whole, letter_bits, letter_value, listing, listing_bits, parse_header,
    parse_table,
    partial_letter, partial_plain, payload_size, settled, successor, table_bits, trailing_ones,
    zero_bits, HeaderView, TableEntry,
};
use crate::rotation::{is_index_order, lemma_index_order_onto};
use bit_vec::BitVec;
use std::collections::HashMap;
use vstd::prelude::*;
use vstd::std_specs::hash::*;

verus! {

/// No code word of a table over bytes is longer than this.
pub const MAX_CODE_LENGTH: usize = 255;

/// A byte with its code word.
#[derive(Debug, PartialEq, Eq)]
pub struct CodeDescriptor {
    pub code: BitVec,
    pub letter: u8,
}

/// What the header of a block says.
#[derive(Debug)]
pub struct Header {
    pub code_descriptors: Vec<CodeDescriptor>,
    pub bit_size: usize,
    pub initial: u32,
}

/// A descriptor as an entry of the table.
pub open spec fn descriptor_view(descriptor: CodeDescriptor) -> TableEntry {
    (descriptor.letter, bits_of(descriptor.code))
}

/// Descriptors as entries of the table.
pub open spec fn descriptors_view(descriptors: Seq<CodeDescriptor>) -> Seq<TableEntry> {
    Seq::new(descriptors.len(), |i: int| descriptor_view(descriptors[i]))
}

/// Whether the first code word stands before the second in the table.
pub fn code_lt(first_code: &BitVec, second_code: &BitVec) -> (before: bool)
    ensures
        before == code_before(bits_of(*first_code), bits_of(*second_code)),
{
    let ghost a = bits_of(*first_code);
    let ghost b = bits_of(*second_code);
    let first_len = bits_len(first_code);
    let second_len = bits_len(second_code);
    let min_len = if first_len < second_len {
        first_len
    } else {
        second_len
    };
    let mut i: usize = 0;
    while i < min_len
        invariant
            i <= min_len,
            min_len <= a.len(),
            min_len <= b.len(),
            a == bits_of(*first_code),
            b == bits_of(*second_code),
            keys_agree(a, b, i as int),
        decreases min_len - i,
    {
        let x = bits_get(first_code, i);
        let y = bits_get(second_code, i);
        if x != y {
            proof {
                if !x {
                    assert(0 <= i && keys_agree(a, b, i as int) && !key_bit(a, i as int) && key_bit(
                        b,
                        i as int,
                    ));
                } else {
                    assert(keys_agree(b, a, i as int));
                    assert(0 <= i && keys_agree(b, a, i as int) && !key_bit(b, i as int) && key_bit(
                        a,
                        i as int,
                    ));
                    if code_before(a, b) {
                        lemma_code_before_strict(a, b);
                    }
                }
            }
            return !x;
        }
        proof {
            assert forall|j: int| 0 <= j < i + 1 implies key_bit(a, j) == key_bit(b, j) by {
                if j < i {
                }
            }
        }
        i += 1;
    }
    if first_len == second_len {
        proof {
            assert forall|j: int| 0 <= j < a.len() implies a[j] == b[j] by {
                assert(key_bit(a, j) == key_bit(b, j));
            }
            assert(a =~= b);
            if code_before(a, b) {
                lemma_code_before_strict(a, b);
            }
        }
        false
    } else if first_len > second_len {
        let next = bits_get(first_code, min_len);
        proof {
            let m = min_len as int;
            if !next {
                assert(0 <= m && keys_agree(a, b, m) && !key_bit(a, m) && key_bit(b, m));
            } else {
                if code_before(a, b) {
                    let k = choose|k: int|
                        0 <= k && keys_agree(a, b, k) && !key_bit(a, k) && key_bit(b, k);
                    if k < m {
                        assert(key_bit(a, k) == key_bit(b, k));
                    }
                }
            }
        }
        !next
    } else {
        let next = bits_get(second_code, min_len);
        proof {
            let m = min_len as int;
            if next {
                lemma_later_one(a, b, m + 1);
            } else {
                if code_before(a, b) {
                    let k = choose|k: int|
                        0 <= k && keys_agree(a, b, k) && !key_bit(a, k) && key_bit(b, k);
                    if k < m {
                        assert(key_bit(a, k) == key_bit(b, k));
                    } else if k > m {
                        assert(key_bit(a, m) == key_bit(b, m));
                    }
                }
            }
        }
        next
    }
}

/// Where the keys agree up to a place behind the end of `a`, `a` stands
/// before `b`: the key of `a` holds zero bits from there on, and the key of
/// `b` holds a bit 1 at its end at the latest.
pub proof fn lemma_later_one(a: Seq<bool>, b: Seq<bool>, from: int)
    requires
        a.len() < from <= b.len(),
        keys_agree(a, b, from),
    ensures
        code_before(a, b),
    decreases b.len() - from,
{
    if key_bit(b, from) {
        assert(0 <= from && keys_agree(a, b, from) && !key_bit(a, from) && key_bit(b, from));
    } else {
        assert(keys_agree(a, b, from + 1)) by {
            assert forall|j: int| 0 <= j < from + 1 implies key_bit(a, j) == key_bit(b, j) by {
                if j < from {
                }
            }
        }
        lemma_later_one(a, b, from + 1);
    }
}

/// The number of bits 1 at the end of `code`.
fn count_trailing_ones(code: &BitVec) -> (count: usize)
    ensures
        count == trailing_ones(bits_of(*code)),
        count <= bits_of(*code).len(),
{
    let ghost bits = bits_of(*code);
    let length = bits_len(code);
    let mut i: usize = length;
    proof {
        assert(bits.take(length as int) =~= bits);
    }
    while i > 0 && bits_get(code, i - 1)
        invariant
            i <= length,
            length == bits.len(),
            bits == bits_of(*code),
            trailing_ones(bits) == (length - i) + trailing_ones(bits.take(i as int)),
        decreases i,
    {
        proof {
            assert(bits.take(i as int).drop_last() =~= bits.take(i - 1));
        }
        i -= 1;
    }
    length - i
}

/// How many bits of `code` the entry behind it takes over.
fn carried(code: &BitVec) -> (count: usize)
    ensures
        count == carried_len(bits_of(*code)),
{
    let length = bits_len(code);
    let ones = count_trailing_ones(code);
    if ones == length {
        if length == 0 {
            0
        } else {
            length - 1
        }
    } else {
        length - ones
    }
}

/// The start of the code word behind `code` in the table.
fn successor_of(code: &BitVec) -> (next: BitVec)
    requires
        trailing_ones(bits_of(*code)) < bits_of(*code).len(),
    ensures
        bits_of(next) == successor(bits_of(*code)),
{
    let ghost bits = bits_of(*code);
    let keep = bits_len(code) - count_trailing_ones(code) - 1;
    let mut next = bits_new();
    let mut i: usize = 0;
    while i < keep
        invariant
            i <= keep,
            keep < bits.len(),
            bits == bits_of(*code),
            bits_of(next) == bits.take(i as int),
        decreases keep - i,
    {
        let bit = bits_get(code, i);
        bits_push(&mut next, bit);
        proof {
            assert(bits_of(next) =~= bits.take(i + 1));
        }
        i += 1;
    }
    bits_push(&mut next, true);
    next
}

/// The eight bits of a byte that stand in the stream as they are: the least
/// significant bit first. Nothing where fewer than eight bits are left.
fn read_plain_byte(input_iter: &mut BitIterator<'_>) -> (byte: Option<u8>)
    ensures
        byte.is_none() <==> old(input_iter).remaining().len() < 8,
        byte.is_some() ==> byte.unwrap() == crate::huffman::iterator::packed_byte(
            old(input_iter).remaining(),
            0,
        ) && final(input_iter).follows(*old(input_iter), 8),
        final(input_iter).source() == old(input_iter).source(),
{
    let ghost start = *input_iter;
    let ghost bits = input_iter.remaining();
    let mut byte: u8 = 0;
    let mut i: u8 = 0;
    proof {
        assert(input_iter.pending() =~= start.pending().skip(0));
    }
    while i < 8
        invariant
            i <= 8,
            bits == start.remaining(),
            start == *old(input_iter),
            input_iter.follows(start, i as int),
            byte == partial_plain(bits, 0, i as int),
            i < 8 ==> byte < place_value(i as int),
        decreases 8 - i,
    {
        let ghost middle = *input_iter;
        proof {
            middle.lemma_follows(start, i as int);
        }
        match input_iter.next() {
            None => {
                return None;
            },
            Some(bit) => {
                proof {
                    input_iter.lemma_follows_twice(middle, start, i as int, 1);
                    assert(bit == bits[i as int]);
                }
                if bit {
                    byte = byte + place(i);
                }
            },
        }
        i += 1;
    }
    proof {
        lemma_partial_whole(bits, 0);
    }
    Some(byte)
}

/// The eight bits of a byte of the table: the most significant bit first.
/// Nothing where fewer than eight bits are left.
fn read_letter(input_iter: &mut BitIterator<'_>) -> (byte: Option<u8>)
    ensures
        byte.is_none() <==> old(input_iter).remaining().len() < 8,
        byte.is_some() ==> byte.unwrap() == letter_value(old(input_iter).remaining(), 0)
            && final(input_iter).follows(*old(input_iter), 8),
        final(input_iter).source() == old(input_iter).source(),
{
    let ghost start = *input_iter;
    let ghost bits = input_iter.remaining();
    let mut byte: u8 = 0;
    let mut i: u8 = 0;
    proof {
        assert(input_iter.pending() =~= start.pending().skip(0));
    }
    while i < 8
        invariant
            i <= 8,
            bits == start.remaining(),
            start == *old(input_iter),
            input_iter.follows(start, i as int),
            byte == partial_letter(bits, 0, i as int),
            i < 8 ==> byte < place_value(i as int),
        decreases 8 - i,
    {
        let ghost middle = *input_iter;
        proof {
            middle.lemma_follows(start, i as int);
        }
        match input_iter.next() {
            None => {
                return None;
            },
            Some(bit) => {
                proof {
                    input_iter.lemma_follows_twice(middle, start, i as int, 1);
                    assert(bit == bits[i as int]);
                }
                byte = byte * 2 + if bit {
                    1
                } else {
                    0
                };
            },
        }
        i += 1;
    }
    proof {
        lemma_partial_whole(bits, 0);
    }
    Some(byte)
}

/// A big-endian number of `width` bytes. Nothing where fewer bits are left.
fn read_number(input_iter: &mut BitIterator<'_>, width: usize) -> (number: Option<u64>)
    requires
        width <= 8,
    ensures
        number.is_none() <==> old(input_iter).remaining().len() < 8 * width,
        number.is_some() ==> number.unwrap() == int_value(
            old(input_iter).remaining(),
            0,
            width as int,
        ) && final(input_iter).follows(*old(input_iter), 8 * width),
        number.is_some() ==> number.unwrap() < byte_power(width as int),
        final(input_iter).source() == old(input_iter).source(),
{
    let ghost start = *input_iter;
    let ghost bits = input_iter.remaining();
    let mut value: u64 = 0;
    let mut k: usize = 0;
    proof {
        assert(input_iter.pending() =~= start.pending().skip(0));
    }
    while k < width
        invariant
            k <= width <= 8,
            bits == start.remaining(),
            start == *old(input_iter),
            input_iter.follows(start, 8 * k),
            value == int_value(bits, 0, k as int),
            value < byte_power(k as int),
        decreases width - k,
    {
        let ghost middle = *input_iter;
        proof {
            middle.lemma_follows(start, 8 * k);
        }
        match read_plain_byte(input_iter) {
            None => {
                return None;
            },
            Some(byte) => {
                proof {
                    input_iter.lemma_follows_twice(middle, start, 8 * k, 8);
                    lemma_packed_skip(bits, 8 * k);
                }
                value = value * 256 + byte as u64;
            },
        }
        k += 1;
    }
    Some(value)
}

/// The byte at the start of a stream without its first `from` bits is the
/// byte at bit `from` of the stream.
pub proof fn lemma_packed_skip(bits: Seq<bool>, from: int)
    requires
        0 <= from <= bits.len(),
    ensures
        crate::huffman::iterator::packed_byte(bits.skip(from), 0)
            == crate::huffman::iterator::packed_byte(bits, from),
        letter_value(bits.skip(from), 0) == letter_value(bits, from),
{
}

impl Header {
    /// Appends the eight bits of `byte`, the most significant first.
    pub(crate) fn add_byte(bitvec: &mut BitVec, byte: u8)
        requires
            bits_of(*old(bitvec)).len() + 8 <= usize::MAX,
        ensures
            bits_of(*final(bitvec)) == bits_of(*old(bitvec)) + letter_bits(byte),
    {
        let ghost start = bits_of(*bitvec);
        let mut i: u8 = 0;
        while i < 8
            invariant
                i <= 8,
                start.len() + 8 <= usize::MAX,
                bits_of(*bitvec) == start + letter_bits(byte).take(i as int),
            decreases 8 - i,
        {
            let bit = (byte / place(7 - i)) % 2 == 1;
            bits_push(bitvec, bit);
            proof {
                assert(bits_of(*bitvec) =~= start + letter_bits(byte).take(i + 1));
            }
            i += 1;
        }
        proof {
            assert(letter_bits(byte).take(8) =~= letter_bits(byte));
        }
    }

    /// Appends the bits of `bytes`, of each byte the least significant bit
    /// first, so that the bytes stand in the packed stream as they are.
    pub(crate) fn add_bytes(bitvec: &mut BitVec, bytes: &[u8])
        requires
            bits_of(*old(bitvec)).len() + 8 * bytes.len() <= usize::MAX,
        ensures
            bits_of(*final(bitvec)) == bits_of(*old(bitvec)) + stream_bits(bytes@),
    {
        let ghost start = bits_of(*bitvec);
        let mut k: usize = 0;
        while k < bytes.len()
            invariant
                k <= bytes.len(),
                start.len() + 8 * bytes.len() <= usize::MAX,
                bits_of(*bitvec) == start + stream_bits(bytes@).take(8 * k),
            decreases bytes.len() - k,
        {
            let byte = bytes[k];
            let mut i: u8 = 0;
            while i < 8
                invariant
                    i <= 8,
                    k < bytes.len(),
                    byte == bytes[k as int],
                    start.len() + 8 * bytes.len() <= usize::MAX,
                    bits_of(*bitvec) == start + stream_bits(bytes@).take(8 * k + i),
                decreases 8 - i,
            {
                let bit = (byte / place(i)) % 2 == 1;
                bits_push(bitvec, bit);
                proof {
                    let at = 8 * k + i;
                    assert(at / 8 == k as int && at % 8 == i as int);
                    assert(bits_of(*bitvec) =~= start + stream_bits(bytes@).take(at + 1));
                }
                i += 1;
            }
            k += 1;
        }
        proof {
            assert(stream_bits(bytes@).take(8 * bytes.len()) =~= stream_bits(bytes@));
        }
    }
}

/// Whether the first entry stands before the second in the table.
pub fn entry_lt(first: &CodeDescriptor, second: &CodeDescriptor) -> (before: bool)
    ensures
        before == entry_before(descriptor_view(*first), descriptor_view(*second)),
{
    if code_lt(&first.code, &second.code) {
        true
    } else if code_lt(&second.code, &first.code) {
        proof {
            lemma_code_before_strict(bits_of(second.code), bits_of(first.code));
        }
        false
    } else {
        proof {
            if bits_of(first.code) != bits_of(second.code) {
                crate::huffman::table::lemma_code_before_total(
                    bits_of(first.code),
                    bits_of(second.code),
                );
            }
        }
        first.letter < second.letter
    }
}

/// The entries of a code table, by rising byte value.
pub(crate) fn collect_descriptors(codes: &HashMap<u8, BitVec>) -> (table: Vec<CodeDescriptor>)
    ensures
        table.len() <= 256,
        forall|i: int, j: int| 0 <= i < j < table.len() ==> table[i].letter < table[j].letter,
        forall|i: int|
            0 <= i < table.len() ==> codes@.contains_key(#[trigger] table[i].letter) && bits_of(
                table[i].code,
            ) == bits_of(codes@[table[i].letter]),
        forall|letter: u8| #[trigger]
            codes@.contains_key(letter) ==> exists|i: int|
                0 <= i < table.len() && #[trigger] table[i].letter == letter,
{
    broadcast use group_hash_axioms;

    let mut table: Vec<CodeDescriptor> = Vec::new();
    let mut next: usize = 0;
    while next < 256
        invariant
            next <= 256,
            table.len() <= next,
            forall|i: int| 0 <= i < table.len() ==> #[trigger] table[i].letter < next,
            forall|i: int, j: int| 0 <= i < j < table.len() ==> table[i].letter < table[j].letter,
            forall|i: int|
                0 <= i < table.len() ==> codes@.contains_key(#[trigger] table[i].letter)
                    && bits_of(table[i].code) == bits_of(codes@[table[i].letter]),
            forall|letter: u8|
                letter < next && #[trigger] codes@.contains_key(letter) ==> exists|i: int|
                    0 <= i < table.len() && #[trigger] table[i].letter == letter,
        decreases 256 - next,
    {
        let letter = next as u8;
        match codes.get(&letter) {
            Some(code) => {
                let ghost before = table@;
                table.push(CodeDescriptor { code: bits_clone(code), letter });
                proof {
                    assert forall|other: u8|
                        other < next + 1 && #[trigger] codes@.contains_key(
                            other,
                        ) implies exists|i: int|
                        0 <= i < table.len() && #[trigger] table[i].letter == other by {
                        if other == letter {
                            assert(table[table.len() - 1].letter == other);
                        } else {
                            let i = choose|i: int|
                                0 <= i < before.len() && #[trigger] before[i].letter == other;
                            assert(table[i].letter == other);
                        }
                    }
                }
            },
            None => {},
        }
        next += 1;
    }
    table
}

/// The places of the table's entries in the order of the table.
pub(crate) fn table_order(table: &Vec<CodeDescriptor>) -> (order: Vec<usize>)
    requires
        forall|i: int, j: int| 0 <= i < j < table.len() ==> table[i].letter < table[j].letter,
    ensures
        order.len() == table.len(),
        is_index_order(order@),
        forall|i: int, j: int|
            0 <= i < j < order.len() ==> entry_before(
                descriptor_view(table[#[trigger] order[i] as int]),
                descriptor_view(table[#[trigger] order[j] as int]),
            ),
{
    let n = table.len();
    let mut order: Vec<usize> = Vec::new();
    let mut i: usize = 0;
    while i < n
        invariant
            i <= n,
            n == table.len(),
            order.len() == i,
            forall|i: int, j: int| 0 <= i < j < table.len() ==> table[i].letter < table[j].letter,
            forall|k: int| 0 <= k < i ==> #[trigger] order[k] < i,
            forall|k: int, l: int| 0 <= k < i && 0 <= l < i && k != l ==> #[trigger] order[k]
                != #[trigger] order[l],
            forall|k: int, l: int|
                0 <= k < l < i ==> entry_before(
                    descriptor_view(table[#[trigger] order[k] as int]),
                    descriptor_view(table[#[trigger] order[l] as int]),
                ),
        decreases n - i,
    {
        let ghost new = descriptor_view(table[i as int]);
        let mut pos: usize = 0;
        while pos < i && !entry_lt(&table[i], &table[order[pos]])
            invariant
                pos <= i,
                i < n,
                n == table.len(),
                order.len() == i,
                new == descriptor_view(table[i as int]),
                forall|i: int, j: int|
                    0 <= i < j < table.len() ==> table[i].letter < table[j].letter,
                forall|k: int| 0 <= k < i ==> #[trigger] order[k] < i,
                forall|k: int|
                    0 <= k < pos ==> entry_before(
                        descriptor_view(table[#[trigger] order[k] as int]),
                        new,
                    ),
            decreases i - pos,
        {
            proof {
                let other = descriptor_view(table[order[pos as int] as int]);
                assert(order[pos as int] < i);
                assert(table[order[pos as int] as int].letter < table[i as int].letter);
                lemma_entry_before_total(new, other);
            }
            pos += 1;
        }
        let ghost before = order@;
        order.insert(pos, i);
        proof {
            assert forall|k: int| 0 <= k < i + 1 implies #[trigger] order[k] < i + 1 by {
                if k < pos {
                    assert(order[k] == before[k]);
                } else if k > pos {
                    assert(order[k] == before[k - 1]);
                }
            }
            assert forall|k: int, l: int|
                0 <= k < i + 1 && 0 <= l < i + 1 && k != l implies #[trigger] order[k]
                != #[trigger] order[l] by {
                let bk = if k < pos {
                    k
                } else {
                    k - 1
                };
                let bl = if l < pos {
                    l
                } else {
                    l - 1
                };
                if k != pos {
                    assert(order[k] == before[bk]);
                    assert(before[bk] < i);
                }
                if l != pos {
                    assert(order[l] == before[bl]);
                    assert(before[bl] < i);
                }
            }
            assert forall|k: int, l: int| 0 <= k < l < i + 1 implies entry_before(
                descriptor_view(table[#[trigger] order[k] as int]),
                descriptor_view(table[#[trigger] order[l] as int]),
            ) by {
                if l < pos {
                    assert(order[k] == before[k] && order[l] == before[l]);
                } else if l == pos {
                    assert(order[k] == before[k]);
                } else if k < pos {
                    assert(order[k] == before[k] && order[l] == before[l - 1]);
                } else if k == pos {
                    assert(order[l] == before[l - 1]);
                    if l - 1 > pos {
                        assert(entry_before(
                            descriptor_view(table[before[pos as int] as int]),
                            descriptor_view(table[before[l - 1] as int]),
                        ));
                        lemma_entry_before_trans(
                            new,
                            descriptor_view(table[before[pos as int] as int]),
                            descriptor_view(table[before[l - 1] as int]),
                        );
                    }
                } else {
                    assert(order[k] == before[k - 1] && order[l] == before[l - 1]);
                }
            }
        }
        i += 1;
    }
    order
}

/// The entries of `table` in the order `order`.
pub open spec fn ordered_entries(table: Seq<CodeDescriptor>, order: Seq<usize>) -> Seq<TableEntry> {
    Seq::new(order.len(), |i: int| descriptor_view(table[order[i] as int]))
}

/// Appends the bits of the code table.
pub(crate) fn add_table(bitvec: &mut BitVec, table: &Vec<CodeDescriptor>, order: &Vec<usize>)
    requires
        order.len() <= 256,
        forall|i: int| 0 <= i < order.len() ==> #[trigger] order[i] < table.len(),
        forall|i: int|
            0 <= i < table.len() ==> bits_of(#[trigger] table[i].code).len() <= MAX_CODE_LENGTH,
        bits_of(*old(bitvec)).len() <= 1024,
    ensures
        bits_of(*final(bitvec)) == bits_of(*old(bitvec)) + table_bits(
            ordered_entries(table@, order@),
        ),
{
    let ghost start = bits_of(*bitvec);
    let ghost entries = ordered_entries(table@, order@);
    let n = order.len();
    if n == 1 {
        bits_push(bitvec, true);
        Header::add_byte(bitvec, table[order[0]].letter);
        proof {
            let entry = (entries[0].0, Seq::<bool>::empty());
            assert(zero_bits(entry.1.len() - 0) =~= Seq::<bool>::empty());
            assert(bits_of(*bitvec) =~= start + entry_bits(entry, 0));
        }
        return ;
    }
    let mut current_len: usize = 0;
    let mut i: usize = 0;
    while i < n
        invariant
            i <= n,
            n == order.len(),
            n <= 256,
            start.len() <= 1024,
            entries == ordered_entries(table@, order@),
            forall|i: int| 0 <= i < order.len() ==> #[trigger] order[i] < table.len(),
            forall|i: int|
                0 <= i < table.len() ==> bits_of(#[trigger] table[i].code).len()
                    <= MAX_CODE_LENGTH,
            bits_of(*bitvec) == start + listing_bits(entries, i as int),
            bits_of(*bitvec).len() <= start.len() + 264 * i,
            current_len == if i == 0 {
                0
            } else {
                carried_len(entries[i - 1].1)
            },
        decreases n - i,
    {
        let descriptor = &table[order[i]];
        let length = bits_len(&descriptor.code);
        let ghost before = bits_of(*bitvec);
        let ghost entry = entries[i as int];
        assert(entry == descriptor_view(*descriptor));
        let mut z: usize = current_len;
        while z < length
            invariant
                current_len <= z || z == current_len,
                z <= length || z == current_len,
                length <= MAX_CODE_LENGTH,
                before.len() <= 1024 + 264 * 256,
                bits_of(*bitvec) == before + zero_bits(z - current_len),
            decreases length - z,
        {
            bits_push(bitvec, false);
            z += 1;
            proof {
                assert(bits_of(*bitvec) =~= before + zero_bits(z - current_len));
            }
        }
        proof {
            assert(zero_bits(z - current_len) =~= zero_bits(length - current_len));
            if z == current_len {
                assert(zero_bits(0) =~= Seq::<bool>::empty());
            }
        }
        bits_push(bitvec, true);
        Header::add_byte(bitvec, descriptor.letter);
        current_len = carried(&descriptor.code);
        proof {
            assert(bits_of(*bitvec) =~= before + entry_bits(entry, if i == 0 {
                0
            } else {
                carried_len(entries[i - 1].1)
            }));
            assert(entry_bits(entry, 0).len() <= 264) by {
                assert(zero_bits(entry.1.len() - 0).len() <= 255);
            }
        }
        i += 1;
    }
}

/// Appends the big-endian form of `value` in `width` bytes.
pub fn push_be_bytes(out: &mut Vec<u8>, value: u64, width: usize)
    ensures
        final(out)@ == old(out)@ + be_bytes(value as nat, width as int),
    decreases width,
{
    if width == 0 {
        assert(out@ =~= out@ + be_bytes(value as nat, 0));
        return ;
    }
    let ghost start = out@;
    push_be_bytes(out, value / 256, width - 1);
    out.push((value % 256) as u8);
    proof {
        let whole = be_bytes(value as nat, width as int);
        let front = be_bytes((value / 256) as nat, width - 1);
        assert forall|k: int| 0 <= k < width implies (front.push((value % 256) as u8))[k]
            == whole[k] by {
            if k < width - 1 {
                assert(be_byte(value as nat, width as int, k) == be_byte(
                    (value as nat) / 256,
                    width - 1,
                    k,
                ));
            }
        }
        assert(out@ =~= start + whole);
    }
}

/// What a header says, with its code words as sequences of bits.
pub open spec fn header_view(header: Header) -> HeaderView {
    HeaderView {
        initial: header.initial,
        bit_size: header.bit_size,
        entries: descriptors_view(header.code_descriptors@),
    }
}

/// Without frequencies there is no payload.
pub proof fn lemma_payload_size_none(freqs: Map<u8, u64>, codes: Map<u8, Seq<bool>>, upto: int)
    requires
        forall|letter: u8| !freqs.contains_key(letter),
    ensures
        payload_size(freqs, codes, upto) == 0,
    decreases upto,
{
    if upto > 0 {
        lemma_payload_size_none(freqs, codes, upto - 1);
    }
}

/// The payload of the bytes below a bound grows with the bound.
pub proof fn lemma_payload_size_grows(
    freqs: Map<u8, u64>,
    codes: Map<u8, Seq<bool>>,
    low: int,
    high: int,
)
    requires
        0 <= low <= high,
    ensures
        payload_size(freqs, codes, low) <= payload_size(freqs, codes, high),
    decreases high - low,
{
    if low < high {
        lemma_payload_size_grows(freqs, codes, low, high - 1);
    }
}

/// The number of payload bits that the frequencies and the code words make.
pub(crate) fn payload_bits(letter_frequency: &HashMap<u8, u64>, codes: &HashMap<u8, BitVec>) -> (bit_size:
    usize)
    requires
        forall|letter: u8| #[trigger]
            letter_frequency@.contains_key(letter) ==> codes@.contains_key(letter),
        payload_size(letter_frequency@, code_view(codes@), 256) <= usize::MAX,
    ensures
        bit_size == payload_size(letter_frequency@, code_view(codes@), 256),
{
    broadcast use group_hash_axioms;

    let ghost freqs = letter_frequency@;
    let ghost words = code_view(codes@);
    let mut bit_size: usize = 0;
    let mut next: usize = 0;
    while next < 256
        invariant
            next <= 256,
            freqs == letter_frequency@,
            words == code_view(codes@),
            forall|letter: u8| #[trigger]
                letter_frequency@.contains_key(letter) ==> codes@.contains_key(letter),
            bit_size == payload_size(freqs, words, next as int),
            payload_size(freqs, words, 256) <= usize::MAX,
        decreases 256 - next,
    {
        let letter = next as u8;
        proof {
            lemma_payload_size_grows(freqs, words, next + 1, 256);
        }
        match letter_frequency.get(&letter) {
            Some(number) => {
                let code = codes.get(&letter).unwrap();
                let length = bits_len(code);
                assert(words[letter].len() == length);
                if length > 0 {
                    let ghost product = (length as nat) * (*number as nat);
                    assert(*number <= product) by (nonlinear_arith)
                        requires
                            product == (length as nat) * (*number as nat),
                            length >= 1,
                    ;
                    bit_size = bit_size + length * (*number as usize);
                } else {
                    assert((length as nat) * (*number as nat) == 0) by (nonlinear_arith)
                        requires
                            length == 0,
                    ;
                }
            },
            None => {},
        }
        next += 1;
    }
    bit_size
}

impl Header {
    /// The bits of the header of a block: the primary index, the number of
    /// payload bits that the frequencies and the code words make, and the
    /// code table in its canonical order. The table holds a code word for
    /// each byte that has a frequency. Where the code is a prefix code,
    /// the header is read back as it was written, whatever stands behind
    /// it; the header of the empty code is read back at the end of a stream.
    pub fn encode(
        letter_frequency: HashMap<u8, u64>,
        codes: &HashMap<u8, BitVec>,
        initial: u32,
    ) -> (result: BitVec)
        requires
            crate::huffman::encode::encodable(
                letter_frequency@,
                Seq::empty(),
                code_view(codes@),
            ),
        ensures
            is_listing(code_view(codes@), listing(code_view(codes@))),
            bits_of(result) == header_bits(
                initial,
                payload_size(letter_frequency@, code_view(codes@), 256),
                listing(code_view(codes@)),
            ),
            crate::huffman::tree::is_prefix_code(code_view(codes@)) ==> forall|rest: Seq<bool>|
                (rest.len() == 0 || code_view(codes@) != Map::<u8, Seq<bool>>::empty())
                    ==> #[trigger] parse_header(bits_of(result) + rest) == Some(
                    (
                        HeaderView {
                            initial,
                            bit_size: payload_size(
                                letter_frequency@,
                                code_view(codes@),
                                256,
                            ) as usize,
                            entries: listing(code_view(codes@)),
                        },
                        bits_of(result).len(),
                    ),
                ),
    {
        proof {
            let words = code_view(codes@);
            assert forall|letter: u8| #[trigger] codes@.contains_key(letter) implies bits_of(
                codes@[letter],
            ).len() <= MAX_CODE_LENGTH by {
                assert(words.contains_key(letter));
            }
            assert forall|letter: u8| #[trigger]
                letter_frequency@.contains_key(letter) implies codes@.contains_key(letter) by {
                assert(words.contains_key(letter));
            }
        }
        let mut result = bits_new();
        let mut index_bytes: Vec<u8> = Vec::new();
        push_be_bytes(&mut index_bytes, initial as u64, 4);
        Header::add_bytes(&mut result, index_bytes.as_slice());
        let bit_size = payload_bits(&letter_frequency, codes);
        let mut size_bytes: Vec<u8> = Vec::new();
        push_be_bytes(&mut size_bytes, bit_size as u64, 8);
        Header::add_bytes(&mut result, size_bytes.as_slice());
        let table = collect_descriptors(codes);
        let order = table_order(&table);
        proof {
            assert forall|i: int| 0 <= i < table.len() implies bits_of(
                #[trigger] table[i].code,
            ).len() <= MAX_CODE_LENGTH by {
                assert(codes@.contains_key(table[i].letter));
            }
        }
        add_table(&mut result, &table, &order);
        proof {
            let entries = ordered_entries(table@, order@);
            let words = code_view(codes@);
            assert forall|letter: u8| #[trigger] words.contains_key(letter) implies exists|i: int|
                0 <= i < entries.len() && (#[trigger] entries[i]).0 == letter by {
                let t = choose|t: int| 0 <= t < table.len() && #[trigger] table[t].letter == letter;
                lemma_index_order_onto(order@, t);
                let i = choose|i: int| 0 <= i < order.len() && order[i] == t;
                assert(entries[i].0 == letter);
            }
            assert forall|i: int| 0 <= i < entries.len() implies words.contains_key(
                (#[trigger] entries[i]).0,
            ) && words[entries[i].0] == entries[i].1 by {
                assert(order[i] < table.len());
                assert(codes@.contains_key(table[order[i] as int].letter));
            }
            assert forall|i: int, j: int| 0 <= i < j < entries.len() implies entry_before(
                #[trigger] entries[i],
                #[trigger] entries[j],
            ) by {
                assert(entry_before(
                    descriptor_view(table[order[i] as int]),
                    descriptor_view(table[order[j] as int]),
                ));
            }
            assert(is_listing(words, entries));
            crate::huffman::canon::lemma_listing_unique(words, entries, listing(words));
            assert(bits_of(result) =~= header_bits(
                initial,
                payload_size(letter_frequency@, words, 256),
                entries,
            ));
            let size = payload_size(letter_frequency@, words, 256);
            if crate::huffman::tree::is_prefix_code(words) {
                if words == Map::<u8, Seq<bool>>::empty() {
                    assert forall|letter: u8| !letter_frequency@.contains_key(letter) by {
                        if letter_frequency@.contains_key(letter) {
                            assert(words.contains_key(letter));
                        }
                    }
                    lemma_payload_size_none(letter_frequency@, words, 256);
                }
                assert forall|rest: Seq<bool>|
                    (rest.len() == 0 || words != Map::<u8, Seq<bool>>::empty())
                        implies #[trigger] parse_header(bits_of(result) + rest) == Some(
                        (
                            HeaderView {
                                initial,
                                bit_size: size as usize,
                                entries: listing(words),
                            },
                            bits_of(result).len(),
                        ),
                    ) by {
                    crate::huffman::round_trip::lemma_header_round_trip(initial, size, words, rest);
                }
            }
        }
        result
    }

    /// Reads the header of a block: its two numbers and its table. Where
    /// the bits end behind the numbers and no payload bit is declared, the
    /// table has no entry. Nothing where the bits end before the header
    /// does.
    pub fn decode(input_iter: &mut BitIterator<'_>) -> (header: Option<Header>)
        ensures
            final(input_iter).source() == old(input_iter).source(),
            header.is_none() <==> parse_header(old(input_iter).remaining()).is_none(),
            header.is_some() ==> header_view(header.unwrap()) == parse_header(
                old(input_iter).remaining(),
            ).unwrap().0,
            header.is_some() ==> final(input_iter).follows(
                *old(input_iter),
                parse_header(old(input_iter).remaining()).unwrap().1 as int,
            ),
    {
        reveal(parse_header);
        let ghost start = *input_iter;
        let ghost all = input_iter.remaining();
        let initial = match read_number(input_iter, 4) {
            None => {
                return None;
            },
            Some(value) => value as u32,
        };
        let ghost after_index = *input_iter;
        proof {
            after_index.lemma_follows(start, 32);
        }
        let declared = match read_number(input_iter, 8) {
            None => {
                return None;
            },
            Some(value) => value,
        };
        proof {
            input_iter.lemma_follows_twice(after_index, start, 32, 64);
            input_iter.lemma_follows(start, 96);
            lemma_int_skip(all, 32, 8);
        }
        if declared > usize::MAX as u64 {
            return None;
        }
        let bit_size = declared as usize;
        let more = input_iter.allowed() > 0 && input_iter.holds(1);
        proof {
            assert(more == (all.len() != 96));
        }
        if bit_size == 0 && !more {
            let code_descriptors: Vec<CodeDescriptor> = Vec::new();
            assert(descriptors_view(code_descriptors@) =~= Seq::<TableEntry>::empty());
            return Some(Header { code_descriptors, bit_size, initial });
        }
        let ghost table_start = *input_iter;
        let code_descriptors = match read_table(input_iter) {
            None => {
                return None;
            },
            Some(table) => table,
        };
        proof {
            let used = parse_table(table_start.remaining(), Seq::empty()).unwrap().1 as int;
            input_iter.lemma_follows_twice(table_start, start, 96, used);
        }
        if code_descriptors.len() == 1 && bits_len(&code_descriptors[0].code) == 0 {
            let letter = code_descriptors[0].letter;
            let mut code = bits_new();
            bits_push(&mut code, false);
            let ghost parsed = descriptors_view(code_descriptors@);
            let mut single: Vec<CodeDescriptor> = Vec::new();
            single.push(CodeDescriptor { code, letter });
            proof {
                assert(bits_of(single[0].code) =~= seq![false]);
                assert(descriptors_view(single@) =~= settled(parsed));
            }
            return Some(Header { code_descriptors: single, bit_size, initial });
        }
        Some(Header { code_descriptors, bit_size, initial })
    }
}

/// Reads one entry of the table behind the start `current` of its code word:
/// appends to `current` a bit 0 for each bit 0 read, and gives the byte that
/// stands behind the bit 1. Nothing where the bits end before the entry does.
fn read_entry(input_iter: &mut BitIterator<'_>, current: &mut BitVec) -> (letter: Option<u8>)
    requires
        bits_of(*old(current)).len() + old(input_iter).remaining().len() <= usize::MAX,
    ensures
        final(input_iter).source() == old(input_iter).source(),
        letter.is_none() <==> old(input_iter).remaining().len() < leading_zeros(
            old(input_iter).remaining(),
        ) + 9,
        letter.is_some() ==> bits_of(*final(current)) == bits_of(*old(current)) + zero_bits(
            leading_zeros(old(input_iter).remaining()) as int,
        ),
        letter.is_some() ==> letter.unwrap() == letter_value(
            old(input_iter).remaining(),
            (leading_zeros(old(input_iter).remaining()) + 1) as int,
        ),
        letter.is_some() ==> final(input_iter).follows(
            *old(input_iter),
            (leading_zeros(old(input_iter).remaining()) + 9) as int,
        ),
{
    let ghost entry_start = *input_iter;
    let ghost rest = input_iter.remaining();
    let ghost prefix = bits_of(*current);
    let ghost mut zeros: int = 0;
    proof {
        assert(input_iter.pending() =~= entry_start.pending().skip(0));
        assert(prefix + zero_bits(0) =~= prefix);
        assert(rest.skip(0) =~= rest);
    }
    loop
        invariant_except_break
            input_iter.follows(entry_start, zeros),
            entry_start == *old(input_iter),
            rest == entry_start.remaining(),
            prefix == bits_of(*old(current)),
            prefix.len() + rest.len() <= usize::MAX,
            bits_of(*current) == prefix + zero_bits(zeros),
            0 <= zeros,
            leading_zeros(rest) == zeros + leading_zeros(rest.skip(zeros)),
        ensures
            input_iter.follows(entry_start, zeros + 1),
            entry_start == *old(input_iter),
            rest == entry_start.remaining(),
            bits_of(*current) == prefix + zero_bits(zeros),
            prefix == bits_of(*old(current)),
            leading_zeros(rest) == zeros,
            0 <= zeros,
        decreases rest.len() - zeros,
    {
        let ghost middle = *input_iter;
        proof {
            middle.lemma_follows(entry_start, zeros);
        }
        match input_iter.next() {
            None => {
                proof {
                    assert(rest.skip(zeros).len() == 0);
                }
                return None;
            },
            Some(bit) => {
                proof {
                    input_iter.lemma_follows_twice(middle, entry_start, zeros, 1);
                    assert(bit == rest.skip(zeros)[0]);
                }
                if bit {
                    break ;
                }
                bits_push(current, false);
                proof {
                    assert(rest.skip(zeros).skip(1) =~= rest.skip(zeros + 1));
                    assert(bits_of(*current) =~= prefix + zero_bits(zeros + 1));
                    zeros = zeros + 1;
                }
            },
        }
    }
    let ghost letter_start = *input_iter;
    proof {
        letter_start.lemma_follows(entry_start, zeros + 1);
    }
    match read_letter(input_iter) {
        None => None,
        Some(letter) => {
            proof {
                input_iter.lemma_follows_twice(letter_start, entry_start, zeros + 1, 8);
                lemma_packed_skip(rest, zeros + 1);
            }
            Some(letter)
        },
    }
}

/// Reads the code table. Nothing where the bits end before the table does.
fn read_table(input_iter: &mut BitIterator<'_>) -> (table: Option<Vec<CodeDescriptor>>)
    ensures
        final(input_iter).source() == old(input_iter).source(),
        table.is_none() <==> parse_table(old(input_iter).remaining(), Seq::empty()).is_none(),
        table.is_some() ==> descriptors_view(table.unwrap()@) == parse_table(
            old(input_iter).remaining(),
            Seq::empty(),
        ).unwrap().0,
        table.is_some() ==> final(input_iter).follows(
            *old(input_iter),
            parse_table(old(input_iter).remaining(), Seq::empty()).unwrap().1 as int,
        ),
{
    let ghost table_start = *input_iter;
    let ghost all = input_iter.remaining();
    let mut code_descriptors: Vec<CodeDescriptor> = Vec::new();
    let mut current = bits_new();
    let ghost mut used: int = 0;
    proof {
        assert(input_iter.pending() =~= table_start.pending().skip(0));
        assert(descriptors_view(code_descriptors@) =~= Seq::<TableEntry>::empty());
        table_start.lemma_budget();
    }
    loop
        invariant_except_break
            input_iter.follows(table_start, used),
            table_start == *old(input_iter),
            all == table_start.remaining(),
            all.len() <= usize::MAX,
            bits_of(current).len() <= used,
            parse_table(input_iter.remaining(), bits_of(current)).is_none() ==> parse_table(
                all,
                Seq::empty(),
            ).is_none(),
            parse_table(input_iter.remaining(), bits_of(current)).is_some() ==> parse_table(
                all,
                Seq::empty(),
            ) == Some(
                (
                    descriptors_view(code_descriptors@) + parse_table(
                        input_iter.remaining(),
                        bits_of(current),
                    ).unwrap().0,
                    (used + parse_table(input_iter.remaining(), bits_of(current)).unwrap().1) as nat,
                ),
            ),
        ensures
            input_iter.follows(table_start, used),
            table_start == *old(input_iter),
            all == table_start.remaining(),
            0 <= used,
            parse_table(all, Seq::empty()) == Some(
                (descriptors_view(code_descriptors@), used as nat),
            ),
        decreases all.len() - used,
    {
        let ghost entry_start = *input_iter;
        let ghost rest = input_iter.remaining();
        let ghost prefix = bits_of(current);
        let ghost zeros = leading_zeros(rest) as int;
        proof {
            entry_start.lemma_follows(table_start, used);
        }
        let letter = match read_entry(input_iter, &mut current) {
            None => {
                return None;
            },
            Some(letter) => letter,
        };
        proof {
            input_iter.lemma_follows_twice(entry_start, table_start, used, zeros + 9);
            input_iter.lemma_follows(entry_start, zeros + 9);
        }
        let ghost code = bits_of(current);
        let ghost before = descriptors_view(code_descriptors@);
        code_descriptors.push(CodeDescriptor { code: bits_clone(&current), letter });
        proof {
            assert(descriptors_view(code_descriptors@) =~= before + seq![(letter, code)]);
            used = used + zeros + 9;
        }
        let ones = count_trailing_ones(&current);
        let length = bits_len(&current);
        if ones == length {
            break ;
        }
        current = successor_of(&current);
        proof {
            let inner = parse_table(rest.skip(zeros + 9), successor(code));
            if inner.is_some() {
                assert(before + (seq![(letter, code)] + inner.unwrap().0) =~= (before
                    + seq![(letter, code)]) + inner.unwrap().0);
            }
        }
    }
    Some(code_descriptors)
}

/// A number behind the first `from` bits of a stream is the number at the
/// start of what is left.
pub proof fn lemma_int_skip(bits: Seq<bool>, from: int, width: int)
    requires
        0 <= from <= bits.len(),
        0 <= width,
    ensures
        int_value(bits.skip(from), 0, width) == int_value(bits, from, width),
    decreases width,
{
    if width > 0 {
        lemma_int_skip(bits, from, width - 1);
    }
}

} // verus!
