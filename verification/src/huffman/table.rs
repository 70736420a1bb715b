//! The order of code words in the canonical table and the bits of the table,
//! as mathematics.

use crate::huffman::iterator::bit_of;
use vstd::prelude::*;

verus! {

/// An entry of the code table: a byte and its code word.
pub type TableEntry = (u8, Seq<bool>);

/// Bit `k` of the key by which code words are ordered: the code word, then
/// one bit 1, then zero bits without end.
pub open spec fn key_bit(code: Seq<bool>, k: int) -> bool {
    if k < code.len() {
        code[k]
    } else {
        k == code.len()
    }
}

/// The keys of `a` and `b` agree on their first `k` bits.
pub open spec fn keys_agree(a: Seq<bool>, b: Seq<bool>, k: int) -> bool {
    forall|j: int| 0 <= j < k ==> key_bit(a, j) == key_bit(b, j)
}

/// Code word `a` stands before code word `b` in the table. Code words are
/// compared bit by bit up to the length of the shorter one; where they agree
/// so far, the longer one stands first if its next bit is 0 and last if it is
/// 1. This is the order of their keys.
pub open spec fn code_before(a: Seq<bool>, b: Seq<bool>) -> bool {
    exists|k: int| 0 <= k && keys_agree(a, b, k) && !key_bit(a, k) && key_bit(b, k)
}

/// Entry `x` stands before entry `y` in the table: by code word, and among
/// equal code words by byte value.
pub open spec fn entry_before(x: TableEntry, y: TableEntry) -> bool {
    code_before(x.1, y.1) || (x.1 == y.1 && x.0 < y.0)
}

/// `entries` lists the code table `codes` in the order of the table.
pub open spec fn is_listing(codes: Map<u8, Seq<bool>>, entries: Seq<TableEntry>) -> bool {
    &&& forall|i: int|
        0 <= i < entries.len() ==> codes.contains_key((#[trigger] entries[i]).0) && codes[entries[i].0]
            == entries[i].1
    &&& forall|letter: u8| #[trigger]
        codes.contains_key(letter) ==> exists|i: int|
            0 <= i < entries.len() && (#[trigger] entries[i]).0 == letter
    &&& forall|i: int, j: int|
        0 <= i < j < entries.len() ==> entry_before(#[trigger] entries[i], #[trigger] entries[j])
}

/// The listing of a code table: its entries in the order of the table.
pub open spec fn listing(codes: Map<u8, Seq<bool>>) -> Seq<TableEntry> {
    choose|entries: Seq<TableEntry>| is_listing(codes, entries)
}

/// The number of bits 1 at the end of a code word.
pub open spec fn trailing_ones(code: Seq<bool>) -> nat
    decreases code.len(),
{
    if code.len() == 0 || !code.last() {
        0
    } else {
        1 + trailing_ones(code.drop_last())
    }
}

/// How many bits of a code word the entry behind it takes over: the code
/// word without its last bit 0 and the bits 1 behind that, and then one bit.
/// This is the length of the code word less its bits 1 at the end.
pub open spec fn carried_len(code: Seq<bool>) -> int {
    if trailing_ones(code) == code.len() {
        if code.len() == 0 {
            0
        } else {
            code.len() - 1
        }
    } else {
        code.len() - trailing_ones(code)
    }
}

/// The eight bits of a byte, the most significant first.
pub open spec fn letter_bits(letter: u8) -> Seq<bool> {
    Seq::new(8, |i: int| bit_of(letter, 7 - i))
}

/// `count` bits 0, none for a count below one.
pub open spec fn zero_bits(count: int) -> Seq<bool> {
    Seq::new(
        if count > 0 {
            count as nat
        } else {
            0
        },
        |i: int| false,
    )
}

/// The bits of one entry behind an entry that carried `carried` bits: a bit
/// 0 for each bit that its code word is longer, one bit 1, and its byte.
pub open spec fn entry_bits(entry: TableEntry, carried: int) -> Seq<bool> {
    zero_bits(entry.1.len() - carried) + seq![true] + letter_bits(entry.0)
}

/// The bits of the first `count` entries of a listing.
pub open spec fn listing_bits(entries: Seq<TableEntry>, count: int) -> Seq<bool>
    decreases count,
{
    if count <= 0 {
        Seq::empty()
    } else {
        listing_bits(entries, count - 1) + entry_bits(
            entries[count - 1],
            if count == 1 {
                0
            } else {
                carried_len(entries[count - 2].1)
            },
        )
    }
}

/// The bits of the code table. A table of one entry is written as the entry
/// of the empty code word, which ends the table at once.
pub open spec fn table_bits(entries: Seq<TableEntry>) -> Seq<bool> {
    if entries.len() == 1 {
        entry_bits((entries[0].0, Seq::empty()), 0)
    } else {
        listing_bits(entries, entries.len() as int)
    }
}

/// Byte `k` of the big-endian form of `value` in `width` bytes.
pub open spec fn be_byte(value: nat, width: int, k: int) -> u8
    decreases width - k,
{
    if k >= width - 1 {
        (value % 256) as u8
    } else {
        be_byte(value / 256, width - 1, k)
    }
}

/// The big-endian bytes of `value`, `width` of them.
pub open spec fn be_bytes(value: nat, width: int) -> Seq<u8> {
    Seq::new(
        if width > 0 {
            width as nat
        } else {
            0
        },
        |k: int| be_byte(value, width, k),
    )
}

/// The number of payload bits: for each byte that has a frequency, the
/// length of its code word times the frequency, over the bytes below `upto`.
pub open spec fn payload_size(freqs: Map<u8, u64>, codes: Map<u8, Seq<bool>>, upto: int) -> nat
    decreases upto,
{
    if upto <= 0 {
        0
    } else {
        let byte = (upto - 1) as u8;
        payload_size(freqs, codes, upto - 1) + if freqs.contains_key(byte) {
            codes[byte].len() * (freqs[byte] as nat)
        } else {
            0
        }
    }
}

/// The bits of a header: the primary index in four bytes and the number of
/// payload bits in eight, both big-endian, and the code table.
pub open spec fn header_bits(initial: u32, bit_size: nat, entries: Seq<TableEntry>) -> Seq<bool> {
    crate::huffman::iterator::stream_bits(be_bytes(initial as nat, 4))
        + crate::huffman::iterator::stream_bits(be_bytes(bit_size, 8)) + table_bits(entries)
}

/// The value of `width` bytes that stand in a stream of bits from bit `from`
/// on, read as a big-endian number.
pub open spec fn int_value(bits: Seq<bool>, from: int, width: int) -> nat
    decreases width,
{
    if width <= 0 {
        0
    } else {
        (int_value(bits, from, width - 1) * 256 + crate::huffman::iterator::packed_byte(
            bits,
            from + 8 * (width - 1),
        )) as nat
    }
}

/// The byte whose eight bits, the most significant first, stand in a stream
/// from bit `from` on.
pub open spec fn letter_value(bits: Seq<bool>, from: int) -> int {
    128 * crate::huffman::iterator::bit_value(bits, from) + 64
        * crate::huffman::iterator::bit_value(bits, from + 1) + 32
        * crate::huffman::iterator::bit_value(bits, from + 2) + 16
        * crate::huffman::iterator::bit_value(bits, from + 3) + 8
        * crate::huffman::iterator::bit_value(bits, from + 4) + 4
        * crate::huffman::iterator::bit_value(bits, from + 5) + 2
        * crate::huffman::iterator::bit_value(bits, from + 6)
        + crate::huffman::iterator::bit_value(bits, from + 7)
}

/// The byte made of the first `count` bits from bit `from` on, the first bit
/// in the least significant place.
pub open spec fn partial_plain(bits: Seq<bool>, from: int, count: int) -> int
    decreases count,
{
    if count <= 0 {
        0
    } else {
        partial_plain(bits, from, count - 1) + if crate::huffman::iterator::bit_value(
            bits,
            from + count - 1,
        ) == 1 {
            crate::huffman::iterator::place_value(count - 1)
        } else {
            0
        }
    }
}

/// The number made of the first `count` bits from bit `from` on, the first
/// bit in the most significant place.
pub open spec fn partial_letter(bits: Seq<bool>, from: int, count: int) -> int
    decreases count,
{
    if count <= 0 {
        0
    } else {
        2 * partial_letter(bits, from, count - 1) + crate::huffman::iterator::bit_value(
            bits,
            from + count - 1,
        )
    }
}

/// A byte read to its eighth bit is the whole byte.
pub proof fn lemma_partial_whole(bits: Seq<bool>, from: int)
    ensures
        partial_plain(bits, from, 8) == crate::huffman::iterator::packed_byte(bits, from),
        partial_letter(bits, from, 8) == letter_value(bits, from),
{
    reveal_with_fuel(partial_plain, 9);
    reveal_with_fuel(partial_letter, 9);
}

/// 256 to the power `k`, for the widths of the header's numbers.
pub open spec fn byte_power(k: int) -> int {
    if k <= 0 {
        1
    } else if k == 1 {
        0x100
    } else if k == 2 {
        0x1_0000
    } else if k == 3 {
        0x100_0000
    } else if k == 4 {
        0x1_0000_0000
    } else if k == 5 {
        0x100_0000_0000
    } else if k == 6 {
        0x1_0000_0000_0000
    } else if k == 7 {
        0x100_0000_0000_0000
    } else {
        0x1_0000_0000_0000_0000
    }
}

/// The number of bits 0 with which a stream starts.
pub open spec fn leading_zeros(bits: Seq<bool>) -> nat
    decreases bits.len(),
{
    if bits.len() == 0 || bits[0] {
        0
    } else {
        1 + leading_zeros(bits.skip(1))
    }
}

/// The start of the code word behind `code` in the table: `code` without its
/// last bit 0 and the bits 1 behind that, and then a bit 1.
pub open spec fn successor(code: Seq<bool>) -> Seq<bool> {
    code.take(code.len() - trailing_ones(code) - 1).push(true)
}

/// The entries that the bits of a table stand for, and the number of bits
/// that the table takes, where `current` is the start of the next code word.
/// An entry is a bit 0 for each further bit 0 of its code word, a bit 1 and
/// the eight bits of its byte. A code word of bits 1 alone ends the table.
/// Nothing where the bits end before the table does.
pub open spec fn parse_table(bits: Seq<bool>, current: Seq<bool>) -> Option<(Seq<TableEntry>, nat)>
    decreases bits.len(),
{
    let zeros = leading_zeros(bits) as int;
    if bits.len() < zeros + 9 {
        None
    } else {
        let code = current + zero_bits(zeros);
        let entry = (letter_value(bits, zeros + 1) as u8, code);
        if trailing_ones(code) == code.len() {
            Some((seq![entry], (zeros + 9) as nat))
        } else {
            match parse_table(bits.skip(zeros + 9), successor(code)) {
                None => None,
                Some((more, used)) => Some((seq![entry] + more, (zeros + 9 + used) as nat)),
            }
        }
    }
}

/// The table as it is used: a table of the one entry of the empty code word
/// gives its byte the one-bit code word 0.
pub open spec fn settled(entries: Seq<TableEntry>) -> Seq<TableEntry> {
    if entries.len() == 1 && entries[0].1.len() == 0 {
        seq![(entries[0].0, seq![false])]
    } else {
        entries
    }
}

/// What a header says.
pub struct HeaderView {
    pub initial: u32,
    pub bit_size: usize,
    pub entries: Seq<TableEntry>,
}

/// The header with which a stream of bits starts, and the number of bits
/// that it takes: the two numbers, and the table behind them. Where the bits
/// end behind the numbers and no payload bit is declared, the header is that
/// of an empty block, whose table has no entry. Nothing where the bits end
/// before the header does, or where the header declares more payload bits
/// than the machine can count.
#[verifier::opaque]
pub open spec fn parse_header(bits: Seq<bool>) -> Option<(HeaderView, nat)> {
    if bits.len() < 96 {
        None
    } else {
        let initial = int_value(bits, 0, 4);
        let bit_size = int_value(bits, 32, 8);
        if bit_size > usize::MAX {
            None
        } else if bit_size == 0 && bits.len() == 96 {
            Some(
                (
                    HeaderView {
                        initial: initial as u32,
                        bit_size: 0,
                        entries: Seq::empty(),
                    },
                    96,
                ),
            )
        } else {
            match parse_table(bits.skip(96), Seq::empty()) {
                None => None,
                Some((entries, used)) => Some(
                    (
                        HeaderView {
                            initial: initial as u32,
                            bit_size: bit_size as usize,
                            entries: settled(entries),
                        },
                        96 + used,
                    ),
                ),
            }
        }
    }
}

/// The first place from `from` on at which the keys of `a` and `b` differ,
/// given that they differ at `at`.
pub open spec fn first_difference(a: Seq<bool>, b: Seq<bool>, from: int, at: int) -> int
    decreases at - from,
{
    if from >= at || key_bit(a, from) != key_bit(b, from) {
        from
    } else {
        first_difference(a, b, from + 1, at)
    }
}

/// Two keys that differ at a place differ first at or before it, and agree
/// up to there.
pub proof fn lemma_first_difference(a: Seq<bool>, b: Seq<bool>, from: int, at: int)
    requires
        0 <= from <= at,
        key_bit(a, at) != key_bit(b, at),
        keys_agree(a, b, from),
    ensures
        from <= first_difference(a, b, from, at) <= at,
        keys_agree(a, b, first_difference(a, b, from, at)),
        key_bit(a, first_difference(a, b, from, at)) != key_bit(
            b,
            first_difference(a, b, from, at),
        ),
    decreases at - from,
{
    if from < at && key_bit(a, from) == key_bit(b, from) {
        assert(keys_agree(a, b, from + 1)) by {
            assert forall|j: int| 0 <= j < from + 1 implies key_bit(a, j) == key_bit(b, j) by {
                if j < from {
                }
            }
        }
        lemma_first_difference(a, b, from + 1, at);
    }
}

/// Of two code words that differ, one stands before the other.
pub proof fn lemma_code_before_total(a: Seq<bool>, b: Seq<bool>)
    requires
        a != b,
    ensures
        code_before(a, b) || code_before(b, a),
{
    // the keys differ: at the end of the shorter code word, or where the
    // code words differ
    let at = if a.len() < b.len() {
        if key_bit(b, a.len() as int) {
            b.len() as int
        } else {
            a.len() as int
        }
    } else if b.len() < a.len() {
        if key_bit(a, b.len() as int) {
            a.len() as int
        } else {
            b.len() as int
        }
    } else {
        assert(!(a =~= b));
        choose|i: int| 0 <= i < a.len() && a[i] != b[i]
    };
    assert(key_bit(a, at) != key_bit(b, at));
    lemma_first_difference(a, b, 0, at);
    let k = first_difference(a, b, 0, at);
    if key_bit(b, k) {
        assert(0 <= k && keys_agree(a, b, k) && !key_bit(a, k) && key_bit(b, k));
    } else {
        assert(keys_agree(b, a, k));
        assert(0 <= k && keys_agree(b, a, k) && !key_bit(b, k) && key_bit(a, k));
    }
}

/// A code word does not stand before itself, and of two code words not each
/// stands before the other.
pub proof fn lemma_code_before_strict(a: Seq<bool>, b: Seq<bool>)
    requires
        code_before(a, b),
    ensures
        a != b,
        !code_before(b, a),
{
    let k = choose|k: int| 0 <= k && keys_agree(a, b, k) && !key_bit(a, k) && key_bit(b, k);
    if code_before(b, a) {
        let k2 = choose|k2: int| 0 <= k2 && keys_agree(b, a, k2) && !key_bit(b, k2) && key_bit(a, k2);
        if k2 < k {
            assert(key_bit(a, k2) == key_bit(b, k2));
        } else if k < k2 {
            assert(key_bit(b, k) == key_bit(a, k));
        }
    }
}

/// The order of code words is transitive.
pub proof fn lemma_code_before_trans(a: Seq<bool>, b: Seq<bool>, c: Seq<bool>)
    requires
        code_before(a, b),
        code_before(b, c),
    ensures
        code_before(a, c),
{
    let k = choose|k: int| 0 <= k && keys_agree(a, b, k) && !key_bit(a, k) && key_bit(b, k);
    let k2 = choose|k2: int| 0 <= k2 && keys_agree(b, c, k2) && !key_bit(b, k2) && key_bit(c, k2);
    let m = if k <= k2 {
        k
    } else {
        k2
    };
    assert(keys_agree(a, c, m)) by {
        assert forall|j: int| 0 <= j < m implies key_bit(a, j) == key_bit(c, j) by {
            assert(key_bit(a, j) == key_bit(b, j));
            assert(key_bit(b, j) == key_bit(c, j));
        }
    }
    if k < k2 {
        assert(key_bit(b, k) == key_bit(c, k));
    } else if k2 < k {
        assert(key_bit(a, k2) == key_bit(b, k2));
    }
    assert(0 <= m && keys_agree(a, c, m) && !key_bit(a, m) && key_bit(c, m));
}

/// The order of entries is transitive.
pub proof fn lemma_entry_before_trans(x: TableEntry, y: TableEntry, z: TableEntry)
    requires
        entry_before(x, y),
        entry_before(y, z),
    ensures
        entry_before(x, z),
{
    if code_before(x.1, y.1) && code_before(y.1, z.1) {
        lemma_code_before_trans(x.1, y.1, z.1);
    }
}

/// Of two entries with different bytes, one stands before the other.
pub proof fn lemma_entry_before_total(x: TableEntry, y: TableEntry)
    requires
        x.0 != y.0,
    ensures
        entry_before(x, y) || entry_before(y, x),
{
    if x.1 != y.1 {
        lemma_code_before_total(x.1, y.1);
    }
}

} // verus!
