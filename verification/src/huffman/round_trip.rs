//! What is written is read back: numbers, headers, payloads and whole
//! blocks.

use crate::huffman::canon::{
    lemma_binary, lemma_listing_unique, lemma_table_round_trip, lemma_tree_entries,
    lemma_tree_entries_listed, tree_entries,
};
use crate::huffman::tree::{tree_code, tree_distinct, tree_leaves, CodeTree};
use crate::huffman::decode::{next_symbol, starts_with, Step};
use crate::huffman::encode::payload_of;
use crate::huffman::header::lemma_int_skip;
use crate::huffman::iterator::{bit_of, lemma_stream_of_packed, packed, packed_byte, stream_bits};
use crate::huffman::table::{
    be_byte, be_bytes, byte_power, header_bits, int_value, is_listing, leading_zeros, listing,
    parse_header, parse_table, table_bits, zero_bits, HeaderView, TableEntry,
};
use crate::huffman::tree::is_prefix_code;
use vstd::prelude::*;

verus! {

/// The bits of bytes one behind the other are their bits one behind the
/// other.
pub proof fn lemma_stream_bits_add(first: Seq<u8>, second: Seq<u8>)
    ensures
        stream_bits(first + second) == stream_bits(first) + stream_bits(second),
{
    let whole = stream_bits(first + second);
    let parts = stream_bits(first) + stream_bits(second);
    assert forall|k: int| 0 <= k < whole.len() implies whole[k] == parts[k] by {
        if k >= 8 * first.len() {
            let j = k - 8 * first.len();
            assert(j / 8 == k / 8 - first.len() && j % 8 == k % 8);
        }
    }
    assert(whole =~= parts);
}

/// The number of zero bits that fill up `count` bits to whole bytes.
pub open spec fn padding(count: int) -> int {
    8 * ((count + 7) / 8) - count
}

/// The bits of the bytes into which bits were packed are those bits, and
/// zero bits up to the end of the last byte.
pub proof fn lemma_unpack(bits: Seq<bool>)
    ensures
        stream_bits(packed(bits)) == bits + zero_bits(padding(bits.len() as int)),
        0 <= padding(bits.len() as int) < 8,
        packed(bits).len() == (bits.len() + 7) / 8,
{
    let unpacked = stream_bits(packed(bits));
    let padded = bits + zero_bits(padding(bits.len() as int));
    assert forall|k: int| 0 <= k < unpacked.len() implies unpacked[k] == padded[k] by {
        lemma_stream_of_packed(bits, k);
    }
    assert(unpacked =~= padded);
}

/// The byte that holds eight bits of a byte is that byte.
pub proof fn lemma_packed_byte_of_stream(bytes: Seq<u8>, rest: Seq<bool>, k: int)
    requires
        0 <= k < bytes.len(),
    ensures
        packed_byte(stream_bits(bytes) + rest, 8 * k) == bytes[k],
{
    let bits = stream_bits(bytes) + rest;
    let byte = bytes[k];
    assert(bits[8 * k] == bit_of(byte, 0)) by {
        assert((8 * k) / 8 == k && (8 * k) % 8 == 0);
    }
    assert(bits[8 * k + 1] == bit_of(byte, 1)) by {
        assert((8 * k + 1) / 8 == k && (8 * k + 1) % 8 == 1);
    }
    assert(bits[8 * k + 2] == bit_of(byte, 2)) by {
        assert((8 * k + 2) / 8 == k && (8 * k + 2) % 8 == 2);
    }
    assert(bits[8 * k + 3] == bit_of(byte, 3)) by {
        assert((8 * k + 3) / 8 == k && (8 * k + 3) % 8 == 3);
    }
    assert(bits[8 * k + 4] == bit_of(byte, 4)) by {
        assert((8 * k + 4) / 8 == k && (8 * k + 4) % 8 == 4);
    }
    assert(bits[8 * k + 5] == bit_of(byte, 5)) by {
        assert((8 * k + 5) / 8 == k && (8 * k + 5) % 8 == 5);
    }
    assert(bits[8 * k + 6] == bit_of(byte, 6)) by {
        assert((8 * k + 6) / 8 == k && (8 * k + 6) % 8 == 6);
    }
    assert(bits[8 * k + 7] == bit_of(byte, 7)) by {
        assert((8 * k + 7) / 8 == k && (8 * k + 7) % 8 == 7);
    }
    lemma_binary(byte as int);
}

/// A number depends on the bits of its bytes alone.
pub proof fn lemma_int_value_same(first: Seq<bool>, second: Seq<bool>, width: int)
    requires
        0 <= width,
        8 * width <= first.len(),
        8 * width <= second.len(),
        forall|k: int| 0 <= k < 8 * width ==> first[k] == second[k],
    ensures
        int_value(first, 0, width) == int_value(second, 0, width),
    decreases width,
{
    if width > 0 {
        lemma_int_value_same(first, second, width - 1);
        let from = 8 * (width - 1);
        assert(first[from] == second[from]);
        assert(first[from + 1] == second[from + 1]);
        assert(first[from + 2] == second[from + 2]);
        assert(first[from + 3] == second[from + 3]);
        assert(first[from + 4] == second[from + 4]);
        assert(first[from + 5] == second[from + 5]);
        assert(first[from + 6] == second[from + 6]);
        assert(first[from + 7] == second[from + 7]);
    }
}

/// A number that is written in big-endian bytes is read back.
pub proof fn lemma_int_round_trip(value: nat, width: int, rest: Seq<bool>)
    requires
        0 <= width <= 8,
        value < byte_power(width),
    ensures
        int_value(stream_bits(be_bytes(value, width)) + rest, 0, width) == value,
    decreases width,
{
    let bytes = be_bytes(value, width);
    let bits = stream_bits(bytes) + rest;
    if width > 0 {
        let front = be_bytes(value / 256, width - 1);
        assert(bytes =~= front.push((value % 256) as u8)) by {
            assert forall|k: int| 0 <= k < width - 1 implies bytes[k] == front[k] by {
                assert(be_byte(value, width, k) == be_byte(value / 256, width - 1, k));
            }
        }
        let tail = stream_bits(seq![(value % 256) as u8]) + rest;
        lemma_stream_bits_add(front, seq![(value % 256) as u8]);
        assert(front.push((value % 256) as u8) =~= front + seq![(value % 256) as u8]);
        assert(bits =~= stream_bits(front) + tail);
        lemma_int_round_trip(value / 256, width - 1, tail);
        lemma_int_value_same(bits, stream_bits(front) + tail, width - 1);
        lemma_packed_byte_of_stream(bytes, rest, width - 1);
    }
}

/// A header that is written is read back, whatever number of payload bits it
/// declares and whatever stands behind it: its numbers, and the listing of
/// its code. The code is a prefix code. The empty code is that of the empty
/// block, which declares no payload bit and ends the stream.
pub proof fn lemma_header_round_trip(
    initial: u32,
    bit_size: nat,
    codes: Map<u8, Seq<bool>>,
    rest: Seq<bool>,
)
    requires
        bit_size <= usize::MAX,
        is_prefix_code(codes),
        codes == Map::<u8, Seq<bool>>::empty() ==> bit_size == 0 && rest.len() == 0,
    ensures
        parse_header(header_bits(initial, bit_size, listing(codes)) + rest) == Some(
            (
                HeaderView { initial, bit_size: bit_size as usize, entries: listing(codes) },
                header_bits(initial, bit_size, listing(codes)).len(),
            ),
        ),
        is_listing(codes, listing(codes)),
{
    reveal(parse_header);
    let entries = listing(codes);
    let index_bits = stream_bits(be_bytes(initial as nat, 4));
    let size_bits = stream_bits(be_bytes(bit_size, 8));
    let table = table_bits(entries);
    let bits = header_bits(initial, bit_size, entries) + rest;
    assert(bits =~= index_bits + (size_bits + table + rest));
    lemma_int_round_trip(initial as nat, 4, size_bits + table + rest);
    assert(bits.skip(32) =~= size_bits + (table + rest));
    lemma_int_round_trip(bit_size, 8, table + rest);
    lemma_int_skip(bits, 32, 8);
    assert(bits.skip(96) =~= table + rest);
    assert(index_bits.len() == 32 && size_bits.len() == 64);
    if codes == Map::<u8, Seq<bool>>::empty() {
        let none = Seq::<TableEntry>::empty();
        assert(is_listing(codes, none));
        crate::huffman::canon::lemma_listing_unique(codes, none, entries);
        assert(table =~= Seq::<bool>::empty());
        assert(bits.len() == 96);
    } else {
        lemma_table_round_trip(codes, rest);
        crate::huffman::laws::lemma_table_bits_used(table + rest, Seq::empty());
        assert(bits.len() > 96);
    }
}

/// No code word of an entry is the start of the code word of another.
pub open spec fn prefix_free(entries: Seq<TableEntry>) -> bool {
    forall|i: int, j: int|
        0 <= i < entries.len() && 0 <= j < entries.len() && i != j ==> !starts_with(
            (#[trigger] entries[j]).1,
            (#[trigger] entries[i]).1,
        )
}

/// The code words of a tree are prefix-free.
pub proof fn lemma_tree_prefix_free(tree: CodeTree, prefix: Seq<bool>)
    ensures
        prefix_free(tree_entries(tree, prefix)),
    decreases tree,
{
    let entries = tree_entries(tree, prefix);
    match tree {
        CodeTree::Leaf(_) => {},
        CodeTree::Inner(left, right) => {
            let zero = prefix.push(false);
            let one = prefix.push(true);
            let a = tree_entries(*left, zero);
            let b = tree_entries(*right, one);
            lemma_tree_prefix_free(*left, zero);
            lemma_tree_prefix_free(*right, one);
            lemma_tree_entries(*left, zero);
            lemma_tree_entries(*right, one);
            let k = prefix.len() as int;
            assert forall|i: int, j: int|
                0 <= i < entries.len() && 0 <= j < entries.len() && i != j implies !starts_with(
                (#[trigger] entries[j]).1,
                (#[trigger] entries[i]).1,
            ) by {
                let x = entries[i].1;
                let y = entries[j].1;
                if i < a.len() && j < a.len() {
                    assert(entries[i] == a[i] && entries[j] == a[j]);
                } else if i >= a.len() && j >= a.len() {
                    assert(entries[i] == b[i - a.len()] && entries[j] == b[j - a.len()]);
                } else if i < a.len() {
                    assert(entries[i] == a[i] && entries[j] == b[j - a.len()]);
                    assert(starts_with(x, zero) && starts_with(y, one));
                    assert(x.take(k + 1)[k] == zero[k]);
                    assert(y.take(k + 1)[k] == one[k]);
                    if starts_with(y, x) {
                        assert(y.take(x.len() as int)[k] == x[k]);
                    }
                } else {
                    assert(entries[i] == b[i - a.len()] && entries[j] == a[j]);
                    assert(starts_with(x, one) && starts_with(y, zero));
                    assert(x.take(k + 1)[k] == one[k]);
                    assert(y.take(k + 1)[k] == zero[k]);
                    if starts_with(y, x) {
                        assert(y.take(x.len() as int)[k] == x[k]);
                    }
                }
            }
        },
    }
}

/// The listing of a prefix code is prefix-free, and its code words are not
/// empty.
pub proof fn lemma_listing_prefix_free(codes: Map<u8, Seq<bool>>)
    requires
        is_prefix_code(codes),
    ensures
        is_listing(codes, listing(codes)),
        prefix_free(listing(codes)),
        forall|i: int| 0 <= i < listing(codes).len() ==> (#[trigger] listing(codes)[i]).1.len() >= 1,
{
    if codes == Map::<u8, Seq<bool>>::empty() {
        let none = Seq::<TableEntry>::empty();
        assert(is_listing(codes, none));
        lemma_listing_unique(codes, none, listing(codes));
    } else {
        let tree = choose|tree: CodeTree|
            tree_distinct(tree) && tree_leaves(tree) <= 256 && codes == #[trigger] tree_code(tree);
        let word = match tree {
            CodeTree::Leaf(_) => seq![false],
            CodeTree::Inner(_, _) => Seq::<bool>::empty(),
        };
        let entries = tree_entries(tree, word);
        lemma_tree_entries_listed(tree, word);
        lemma_listing_unique(codes, entries, listing(codes));
        lemma_tree_prefix_free(tree, word);
        lemma_tree_entries(tree, word);
    }
}

/// Off bits that start with the code word of an entry of a prefix-free
/// table, that code word is read.
pub proof fn lemma_next_symbol(
    entries: Seq<TableEntry>,
    i: int,
    rest: Seq<bool>,
    taken: int,
)
    requires
        prefix_free(entries),
        0 <= i < entries.len(),
        0 <= taken < entries[i].1.len(),
    ensures
        next_symbol(entries, entries[i].1 + rest, taken) == (Step::Symbol {
            letter: entries[i].0,
            used: entries[i].1.len(),
        }),
    decreases entries[i].1.len() - taken,
{
    let code = entries[i].1;
    let bits = code + rest;
    let word = bits.take(taken + 1);
    assert(word =~= code.take(taken + 1));
    if taken + 1 == code.len() {
        assert(word =~= code);
        assert forall|j: int| 0 <= j < entries.len() && j != i implies (#[trigger] entries[j]).1
            != word by {
            if entries[j].1 == word {
                assert(code.take(code.len() as int) =~= code);
                assert(starts_with(entries[i].1, entries[j].1));
            }
        }
        crate::huffman::decode::lemma_find_first(entries, word, i, 0);
    } else {
        assert forall|j: int| 0 <= j < entries.len() implies (#[trigger] entries[j]).1 != word by {
            if entries[j].1 == word {
                if j != i {
                    assert(starts_with(entries[i].1, entries[j].1));
                }
            }
        }
        crate::huffman::decode::lemma_find_none(entries, word, 0);
        assert(starts_with(code, word));
        crate::huffman::decode::lemma_some_code_starts(entries, word, i, 0);
        lemma_next_symbol(entries, i, rest, taken + 1);
    }
}

/// The payload of bytes is the code word of the first byte and the payload
/// of the others.
pub proof fn lemma_payload_front(codes: Map<u8, Seq<bool>>, first: u8, others: Seq<u8>)
    ensures
        payload_of(codes, seq![first] + others) == codes[first] + payload_of(codes, others),
    decreases others.len(),
{
    let whole = seq![first] + others;
    if others.len() == 0 {
        assert(whole.drop_last() =~= Seq::<u8>::empty());
        assert(payload_of(codes, whole.drop_last()) =~= Seq::<bool>::empty());
        assert(payload_of(codes, others) =~= Seq::<bool>::empty());
        assert(payload_of(codes, whole) =~= codes[first]);
        assert(codes[first] + Seq::<bool>::empty() =~= codes[first]);
    } else {
        lemma_payload_front(codes, first, others.drop_last());
        assert(whole.drop_last() =~= seq![first] + others.drop_last());
        assert((codes[first] + payload_of(codes, others.drop_last())) + codes[others.last()]
            =~= codes[first] + (payload_of(codes, others.drop_last()) + codes[others.last()]));
    }
}

/// The bits 0 at the start of a stream are those at the start of a part of
/// it that holds the bit behind them.
pub proof fn lemma_leading_zeros_take(bits: Seq<bool>, count: int)
    requires
        leading_zeros(bits) < count <= bits.len(),
    ensures
        leading_zeros(bits.take(count)) == leading_zeros(bits),
    decreases bits.len(),
{
    if bits.len() > 0 && !bits[0] {
        assert(bits.take(count).skip(1) =~= bits.skip(1).take(count - 1));
        lemma_leading_zeros_take(bits.skip(1), count - 1);
    }
}

/// A table that is read off a stream is read in the same way off each part
/// of the stream that holds its bits.
pub proof fn lemma_parse_table_take(bits: Seq<bool>, current: Seq<bool>, count: int)
    requires
        parse_table(bits, current).is_some(),
        parse_table(bits, current).unwrap().1 <= count <= bits.len(),
    ensures
        parse_table(bits.take(count), current) == parse_table(bits, current),
    decreases bits.len(),
{
    let zeros = leading_zeros(bits) as int;
    let code = current + zero_bits(zeros);
    let part = bits.take(count);
    crate::huffman::laws::lemma_table_bits_used(bits, current);
    lemma_leading_zeros_take(bits, count);
    assert(part[zeros + 1] == bits[zeros + 1]);
    assert(part[zeros + 2] == bits[zeros + 2]);
    assert(part[zeros + 3] == bits[zeros + 3]);
    assert(part[zeros + 4] == bits[zeros + 4]);
    assert(part[zeros + 5] == bits[zeros + 5]);
    assert(part[zeros + 6] == bits[zeros + 6]);
    assert(part[zeros + 7] == bits[zeros + 7]);
    assert(part[zeros + 8] == bits[zeros + 8]);
    if crate::huffman::table::trailing_ones(code) != code.len() {
        let next = crate::huffman::table::successor(code);
        crate::huffman::laws::lemma_table_bits_used(bits.skip(zeros + 9), next);
        lemma_parse_table_take(bits.skip(zeros + 9), next, count - zeros - 9);
        assert(part.skip(zeros + 9) =~= bits.skip(zeros + 9).take(count - zeros - 9));
    }
}

/// A header that is read off a stream is read in the same way off each part
/// of the stream that holds its bits.
pub proof fn lemma_parse_header_take(bits: Seq<bool>, count: int)
    requires
        parse_header(bits).is_some(),
        parse_header(bits).unwrap().1 <= count <= bits.len(),
    ensures
        parse_header(bits.take(count)) == parse_header(bits),
{
    reveal(parse_header);
    let part = bits.take(count);
    crate::huffman::laws::lemma_header_bits_used(bits);
    lemma_int_value_same(bits, part, 4);
    lemma_int_skip(bits, 32, 8);
    lemma_int_skip(part, 32, 8);
    lemma_int_value_same(bits.skip(32), part.skip(32), 8);
    if int_value(bits, 32, 8) != 0 || bits.len() != 96 {
        crate::huffman::laws::lemma_table_bits_used(bits.skip(96), Seq::empty());
        lemma_parse_table_take(bits.skip(96), Seq::empty(), count - 96);
        assert(part.skip(96) =~= bits.skip(96).take(count - 96));
    }
}

} // verus!
