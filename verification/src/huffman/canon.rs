//! The canonical table: a code table has one listing, and the bits of the
//! listing of a prefix code are read back as that listing.

use crate::huffman::decode::starts_with;
use crate::huffman::forest::lemma_leaf_codes_dom;
use crate::huffman::table::{
    carried_len, code_before, entry_before, entry_bits, is_listing, key_bit, keys_agree,
    leading_zeros, lemma_code_before_strict, letter_bits, letter_value, listing, listing_bits,
    parse_table, settled, successor, table_bits, trailing_ones, zero_bits, TableEntry,
};
use crate::huffman::tree::{
    is_prefix_code, leaf_codes, tree_code, tree_distinct, tree_leaves, tree_letters, CodeTree,
};
use crate::stable::{injective_into, lemma_pigeonhole};
use vstd::prelude::*;

verus! {

/// Of two entries not each stands before the other.
pub proof fn lemma_entry_before_strict(x: TableEntry, y: TableEntry)
    requires
        entry_before(x, y),
    ensures
        !entry_before(y, x),
        x != y,
{
    if code_before(x.1, y.1) {
        lemma_code_before_strict(x.1, y.1);
    }
    if code_before(y.1, x.1) {
        lemma_code_before_strict(y.1, x.1);
    }
}

/// The place in the listing `entries` at which the byte `letter` stands.
pub open spec fn place_of(entries: Seq<TableEntry>, letter: u8) -> int {
    choose|i: int| 0 <= i < entries.len() && (#[trigger] entries[i]).0 == letter
}

/// Places that rise strictly from below stand at least at their number.
pub proof fn lemma_rising_from_below(p: Seq<int>, i: int)
    requires
        forall|a: int, b: int| 0 <= a < b < p.len() ==> #[trigger] p[a] < #[trigger] p[b],
        forall|a: int| 0 <= a < p.len() ==> 0 <= #[trigger] p[a] < p.len(),
        0 <= i < p.len(),
    ensures
        i <= p[i],
    decreases i,
{
    if i > 0 {
        lemma_rising_from_below(p, i - 1);
        assert(p[i - 1] < p[i]);
    }
}

/// Places that rise strictly below the length stand at most at their number.
pub proof fn lemma_rising_from_above(p: Seq<int>, i: int)
    requires
        forall|a: int, b: int| 0 <= a < b < p.len() ==> #[trigger] p[a] < #[trigger] p[b],
        forall|a: int| 0 <= a < p.len() ==> 0 <= #[trigger] p[a] < p.len(),
        0 <= i < p.len(),
    ensures
        p[i] <= i,
    decreases p.len() - i,
{
    if i < p.len() - 1 {
        lemma_rising_from_above(p, i + 1);
        assert(p[i] < p[i + 1]);
    }
}

/// A listing is no longer than another listing of the same table.
pub proof fn lemma_listing_no_longer(
    codes: Map<u8, Seq<bool>>,
    first: Seq<TableEntry>,
    second: Seq<TableEntry>,
)
    requires
        is_listing(codes, first),
        is_listing(codes, second),
    ensures
        first.len() <= second.len(),
{
    let p = Seq::new(first.len(), |i: int| place_of(second, first[i].0));
    assert forall|i: int| 0 <= i < p.len() implies 0 <= #[trigger] p[i] < second.len() && second[p[i]].0
        == first[i].0 by {
        assert(codes.contains_key(first[i].0));
    }
    assert forall|i: int, j: int| 0 <= i < p.len() && 0 <= j < p.len() && i != j implies p[i]
        != p[j] by {
        assert(second[p[i]].0 == first[i].0);
        assert(second[p[j]].0 == first[j].0);
        crate::huffman::laws::lemma_listing_length(codes, first);
    }
    assert(injective_into(p, second.len() as int));
    lemma_pigeonhole(p, second.len() as int);
}

/// A code table has one listing: the bits of its header do not depend on
/// the order in which the table was made.
pub proof fn lemma_listing_unique(
    codes: Map<u8, Seq<bool>>,
    first: Seq<TableEntry>,
    second: Seq<TableEntry>,
)
    requires
        is_listing(codes, first),
        is_listing(codes, second),
    ensures
        first == second,
{
    lemma_listing_no_longer(codes, first, second);
    lemma_listing_no_longer(codes, second, first);
    let n = first.len() as int;
    let p = Seq::new(first.len(), |i: int| place_of(second, first[i].0));
    assert forall|i: int| 0 <= i < n implies 0 <= #[trigger] p[i] < n && second[p[i]] == first[i] by {
        assert(codes.contains_key(first[i].0));
        assert(second[p[i]].0 == first[i].0);
        assert(codes[second[p[i]].0] == second[p[i]].1);
    }
    assert forall|a: int, b: int| 0 <= a < b < n implies #[trigger] p[a] < #[trigger] p[b] by {
        assert(entry_before(first[a], first[b]));
        lemma_entry_before_strict(first[a], first[b]);
        if p[a] > p[b] {
            assert(entry_before(second[p[b]], second[p[a]]));
        }
    }
    assert forall|i: int| 0 <= i < n implies first[i] == second[i] by {
        lemma_rising_from_below(p, i);
        lemma_rising_from_above(p, i);
    }
    assert(first =~= second);
}

/// The entries of a tree from left to right, each with the path to its
/// leaf behind `prefix`.
pub open spec fn tree_entries(tree: CodeTree, prefix: Seq<bool>) -> Seq<TableEntry>
    decreases tree,
{
    match tree {
        CodeTree::Leaf(byte) => seq![(byte, prefix)],
        CodeTree::Inner(left, right) => tree_entries(*left, prefix.push(false)) + tree_entries(
            *right,
            prefix.push(true),
        ),
    }
}

/// The code word of the rightmost leaf of a tree.
pub open spec fn last_code(tree: CodeTree, prefix: Seq<bool>) -> Seq<bool>
    decreases tree,
{
    match tree {
        CodeTree::Leaf(_) => prefix,
        CodeTree::Inner(_, right) => last_code(*right, prefix.push(true)),
    }
}

/// The entries of a tree are as many as its leaves, their code words start
/// with the prefix, and the last of them is that of the rightmost leaf.
pub proof fn lemma_tree_entries(tree: CodeTree, prefix: Seq<bool>)
    ensures
        tree_entries(tree, prefix).len() == tree_leaves(tree),
        tree_leaves(tree) >= 1,
        tree_entries(tree, prefix).last().1 == last_code(tree, prefix),
        forall|i: int|
            0 <= i < tree_entries(tree, prefix).len() ==> starts_with(
                (#[trigger] tree_entries(tree, prefix)[i]).1,
                prefix,
            ) && tree_letters(tree).contains(tree_entries(tree, prefix)[i].0),
        forall|letter: u8| #[trigger]
            tree_letters(tree).contains(letter) ==> exists|i: int|
                0 <= i < tree_entries(tree, prefix).len() && (#[trigger] tree_entries(
                    tree,
                    prefix,
                )[i]).0 == letter,
        tree is Inner ==> forall|i: int|
            0 <= i < tree_entries(tree, prefix).len() ==> (#[trigger] tree_entries(
                tree,
                prefix,
            )[i]).1.len() > prefix.len(),
    decreases tree,
{
    let entries = tree_entries(tree, prefix);
    match tree {
        CodeTree::Leaf(byte) => {
            assert(prefix.take(prefix.len() as int) =~= prefix);
            assert(entries[0].0 == byte);
        },
        CodeTree::Inner(left, right) => {
            let zero = prefix.push(false);
            let one = prefix.push(true);
            lemma_tree_entries(*left, zero);
            lemma_tree_entries(*right, one);
            let a = tree_entries(*left, zero);
            let b = tree_entries(*right, one);
            assert forall|i: int| 0 <= i < entries.len() implies starts_with(
                (#[trigger] entries[i]).1,
                prefix,
            ) && tree_letters(tree).contains(entries[i].0) && entries[i].1.len() > prefix.len() by {
                if i < a.len() {
                    assert(entries[i] == a[i]);
                    assert(starts_with(a[i].1, zero));
                    assert(a[i].1.take(prefix.len() as int) =~= zero.take(prefix.len() as int));
                    assert(zero.take(prefix.len() as int) =~= prefix);
                } else {
                    assert(entries[i] == b[i - a.len()]);
                    assert(starts_with(b[i - a.len()].1, one));
                    assert(b[i - a.len()].1.take(prefix.len() as int) =~= one.take(
                        prefix.len() as int,
                    ));
                    assert(one.take(prefix.len() as int) =~= prefix);
                }
            }
            assert forall|letter: u8| #[trigger]
                tree_letters(tree).contains(letter) implies exists|i: int|
                0 <= i < entries.len() && (#[trigger] entries[i]).0 == letter by {
                if tree_letters(*left).contains(letter) {
                    let i = choose|i: int| 0 <= i < a.len() && (#[trigger] a[i]).0 == letter;
                    assert(entries[i].0 == letter);
                } else {
                    let i = choose|i: int| 0 <= i < b.len() && (#[trigger] b[i]).0 == letter;
                    assert(entries[i + a.len()].0 == letter);
                }
            }
        },
    }
}

/// The code word of a byte is the code word of its entry.
pub proof fn lemma_tree_entries_codes(tree: CodeTree, prefix: Seq<bool>, i: int)
    requires
        tree_distinct(tree),
        0 <= i < tree_entries(tree, prefix).len(),
    ensures
        leaf_codes(tree, prefix).contains_key(tree_entries(tree, prefix)[i].0),
        leaf_codes(tree, prefix)[tree_entries(tree, prefix)[i].0] == tree_entries(
            tree,
            prefix,
        )[i].1,
    decreases tree,
{
    match tree {
        CodeTree::Leaf(_) => {},
        CodeTree::Inner(left, right) => {
            let zero = prefix.push(false);
            let one = prefix.push(true);
            let a = tree_entries(*left, zero);
            lemma_tree_entries(*left, zero);
            lemma_tree_entries(*right, one);
            lemma_leaf_codes_dom(*left, zero);
            lemma_leaf_codes_dom(*right, one);
            if i < a.len() {
                lemma_tree_entries_codes(*left, zero, i);
                assert(tree_letters(*left).contains(a[i].0));
                assert(!tree_letters(*right).contains(a[i].0));
            } else {
                lemma_tree_entries_codes(*right, one, i - a.len());
            }
        },
    }
}

/// A code word that starts with a prefix and a bit 0 stands before one
/// that starts with the prefix and a bit 1.
pub proof fn lemma_left_before_right(prefix: Seq<bool>, a: Seq<bool>, b: Seq<bool>)
    requires
        starts_with(a, prefix.push(false)),
        starts_with(b, prefix.push(true)),
    ensures
        code_before(a, b),
{
    let k = prefix.len() as int;
    let zero = prefix.push(false);
    let one = prefix.push(true);
    assert forall|j: int| 0 <= j < k implies key_bit(a, j) == key_bit(b, j) by {
        assert(a.take(k + 1)[j] == zero[j]);
        assert(b.take(k + 1)[j] == one[j]);
    }
    assert(a.take(k + 1)[k] == zero[k]);
    assert(b.take(k + 1)[k] == one[k]);
    assert(0 <= k && keys_agree(a, b, k) && !key_bit(a, k) && key_bit(b, k));
}

/// The entries of a tree, from left to right, are the listing of its code.
pub proof fn lemma_tree_entries_listed(tree: CodeTree, prefix: Seq<bool>)
    requires
        tree_distinct(tree),
    ensures
        is_listing(leaf_codes(tree, prefix), tree_entries(tree, prefix)),
    decreases tree,
{
    let entries = tree_entries(tree, prefix);
    let codes = leaf_codes(tree, prefix);
    lemma_tree_entries(tree, prefix);
    lemma_leaf_codes_dom(tree, prefix);
    assert forall|i: int| 0 <= i < entries.len() implies codes.contains_key(
        (#[trigger] entries[i]).0,
    ) && codes[entries[i].0] == entries[i].1 by {
        lemma_tree_entries_codes(tree, prefix, i);
    }
    assert forall|letter: u8| #[trigger] codes.contains_key(letter) implies exists|i: int|
        0 <= i < entries.len() && (#[trigger] entries[i]).0 == letter by {
        assert(tree_letters(tree).contains(letter));
    }
    match tree {
        CodeTree::Leaf(_) => {},
        CodeTree::Inner(left, right) => {
            let zero = prefix.push(false);
            let one = prefix.push(true);
            let a = tree_entries(*left, zero);
            let b = tree_entries(*right, one);
            lemma_tree_entries_listed(*left, zero);
            lemma_tree_entries_listed(*right, one);
            lemma_tree_entries(*left, zero);
            lemma_tree_entries(*right, one);
            assert forall|i: int, j: int| 0 <= i < j < entries.len() implies entry_before(
                #[trigger] entries[i],
                #[trigger] entries[j],
            ) by {
                if j < a.len() {
                    assert(entries[i] == a[i] && entries[j] == a[j]);
                } else if i >= a.len() {
                    assert(entries[i] == b[i - a.len()] && entries[j] == b[j - a.len()]);
                } else {
                    assert(entries[i] == a[i] && entries[j] == b[j - a.len()]);
                    lemma_left_before_right(prefix, a[i].1, b[j - a.len()].1);
                }
            }
        },
    }
}

/// The bits of the entries of a tree, where the entry before them carried
/// `carried` bits.
pub open spec fn tree_bits(tree: CodeTree, prefix: Seq<bool>, carried: int) -> Seq<bool>
    decreases tree,
{
    match tree {
        CodeTree::Leaf(byte) => entry_bits((byte, prefix), carried),
        CodeTree::Inner(left, right) => tree_bits(*left, prefix.push(false), carried) + tree_bits(
            *right,
            prefix.push(true),
            (prefix.len() + 1) as int,
        ),
    }
}

/// The bits of the entries from place `from` up to place `to`, where the
/// entry before them carried `carried` bits.
pub open spec fn run_bits(entries: Seq<TableEntry>, from: int, to: int, carried: int) -> Seq<
    bool,
>
    decreases to - from,
{
    if to <= from {
        Seq::empty()
    } else {
        run_bits(entries, from, to - 1, carried) + entry_bits(
            entries[to - 1],
            if to - 1 == from {
                carried
            } else {
                carried_len(entries[to - 2].1)
            },
        )
    }
}

/// The bits of the first entries of a table are the run that starts at its
/// first entry with nothing carried.
pub proof fn lemma_listing_bits_run(entries: Seq<TableEntry>, count: int)
    ensures
        listing_bits(entries, count) == run_bits(entries, 0, count, 0),
    decreases count,
{
    if count > 0 {
        lemma_listing_bits_run(entries, count - 1);
    }
}

/// The bits of a run are the bits of its two parts.
pub proof fn lemma_run_bits_split(
    entries: Seq<TableEntry>,
    from: int,
    mid: int,
    to: int,
    carried: int,
)
    requires
        from < mid <= to,
    ensures
        run_bits(entries, from, to, carried) == run_bits(entries, from, mid, carried) + run_bits(
            entries,
            mid,
            to,
            carried_len(entries[mid - 1].1),
        ),
    decreases to - mid,
{
    if mid < to {
        lemma_run_bits_split(entries, from, mid, to - 1, carried);
        let first = run_bits(entries, from, mid, carried);
        let second = run_bits(entries, mid, to - 1, carried_len(entries[mid - 1].1));
        let last = entry_bits(
            entries[to - 1],
            if to - 1 == mid {
                carried_len(entries[mid - 1].1)
            } else {
                carried_len(entries[to - 2].1)
            },
        );
        assert((first + second) + last =~= first + (second + last));
    } else {
        assert(run_bits(entries, from, mid, carried) + Seq::<bool>::empty() =~= run_bits(
            entries,
            from,
            mid,
            carried,
        ));
    }
}

/// The bits of a run depend on the entries of the run alone.
pub proof fn lemma_run_bits_same(
    first: Seq<TableEntry>,
    second: Seq<TableEntry>,
    from: int,
    to: int,
    shift: int,
    carried: int,
)
    requires
        0 <= from <= to <= first.len(),
        0 <= from + shift,
        to + shift <= second.len(),
        forall|i: int| from <= i < to ==> first[i] == second[i + shift],
    ensures
        run_bits(first, from, to, carried) == run_bits(second, from + shift, to + shift, carried),
    decreases to - from,
{
    if from < to {
        lemma_run_bits_same(first, second, from, to - 1, shift, carried);
        assert(first[to - 1] == second[to - 1 + shift]);
        if to - 1 > from {
            assert(first[to - 2] == second[to - 2 + shift]);
        }
    }
}

/// The rightmost leaf of a tree has the code word of the prefix and bits
/// 1 behind it.
pub proof fn lemma_last_code(tree: CodeTree, prefix: Seq<bool>)
    ensures
        last_code(tree, prefix).len() >= prefix.len(),
        trailing_ones(last_code(tree, prefix)) == last_code(tree, prefix).len() - prefix.len()
            + trailing_ones(prefix),
        last_code(tree, prefix).take(prefix.len() as int) == prefix,
    decreases tree,
{
    match tree {
        CodeTree::Leaf(_) => {
            assert(prefix.take(prefix.len() as int) =~= prefix);
        },
        CodeTree::Inner(_, right) => {
            let one = prefix.push(true);
            lemma_last_code(*right, one);
            assert(one.drop_last() =~= prefix);
            assert(last_code(tree, prefix).take(prefix.len() as int) =~= one.take(
                prefix.len() as int,
            ));
            assert(one.take(prefix.len() as int) =~= prefix);
        },
    }
}

/// The bits of a tree are the bits of the run of its entries.
pub proof fn lemma_tree_bits_run(tree: CodeTree, prefix: Seq<bool>, carried: int)
    ensures
        tree_bits(tree, prefix, carried) == run_bits(
            tree_entries(tree, prefix),
            0,
            tree_entries(tree, prefix).len() as int,
            carried,
        ),
    decreases tree,
{
    let entries = tree_entries(tree, prefix);
    match tree {
        CodeTree::Leaf(byte) => {
            assert(run_bits(entries, 0, 0, carried) =~= Seq::<bool>::empty());
            assert(run_bits(entries, 0, 1, carried) =~= entry_bits(entries[0], carried));
        },
        CodeTree::Inner(left, right) => {
            let zero = prefix.push(false);
            let one = prefix.push(true);
            let a = tree_entries(*left, zero);
            let b = tree_entries(*right, one);
            lemma_tree_entries(*left, zero);
            lemma_tree_entries(*right, one);
            lemma_tree_bits_run(*left, zero, carried);
            lemma_tree_bits_run(*right, one, (prefix.len() + 1) as int);
            let n = a.len() as int;
            let m = b.len() as int;
            lemma_run_bits_split(entries, 0, n, n + m, carried);
            lemma_run_bits_same(a, entries, 0, n, 0, carried);
            assert(entries[n - 1] == a[n - 1]);
            // the last entry on the left carries the prefix and one bit
            lemma_last_code(*left, zero);
            assert(zero.drop_last() =~= prefix);
            assert(trailing_ones(zero) == 0);
            assert(carried_len(a[n - 1].1) == prefix.len() + 1);
            lemma_run_bits_same(b, entries, 0, m, n, (prefix.len() + 1) as int);
        },
    }
}

/// A stream that starts with `count` bits 0 and a bit 1 starts with `count`
/// bits 0.
pub proof fn lemma_leading_zeros(count: int, rest: Seq<bool>)
    requires
        0 <= count,
    ensures
        leading_zeros(zero_bits(count) + seq![true] + rest) == count,
    decreases count,
{
    let bits = zero_bits(count) + seq![true] + rest;
    if count > 0 {
        lemma_leading_zeros(count - 1, rest);
        assert(bits.skip(1) =~= zero_bits(count - 1) + seq![true] + rest);
    }
}

/// The value of the eight bits of a byte, the most significant first, is the
/// byte.
pub proof fn lemma_letter_value(letter: u8, before: Seq<bool>, rest: Seq<bool>)
    ensures
        letter_value(before + letter_bits(letter) + rest, before.len() as int) == letter,
{
    let bits = before + letter_bits(letter) + rest;
    let k = before.len() as int;
    assert(bits[k] == letter_bits(letter)[0]);
    assert(bits[k + 1] == letter_bits(letter)[1]);
    assert(bits[k + 2] == letter_bits(letter)[2]);
    assert(bits[k + 3] == letter_bits(letter)[3]);
    assert(bits[k + 4] == letter_bits(letter)[4]);
    assert(bits[k + 5] == letter_bits(letter)[5]);
    assert(bits[k + 6] == letter_bits(letter)[6]);
    assert(bits[k + 7] == letter_bits(letter)[7]);
    lemma_binary(letter as int);
}

/// A byte is the sum of the values of its bits.
pub proof fn lemma_binary(byte: int)
    requires
        0 <= byte < 256,
    ensures
        byte == 128 * (byte / 128 % 2) + 64 * (byte / 64 % 2) + 32 * (byte / 32 % 2) + 16 * (byte
            / 16 % 2) + 8 * (byte / 8 % 2) + 4 * (byte / 4 % 2) + 2 * (byte / 2 % 2) + byte % 2,
{
    let b = byte as u8;
    assert(b == 128 * (b / 128 % 2) + 64 * (b / 64 % 2) + 32 * (b / 32 % 2) + 16 * (b / 16 % 2)
        + 8 * (b / 8 % 2) + 4 * (b / 4 % 2) + 2 * (b / 2 % 2) + b % 2) by (bit_vector);
}

/// The start of the code word behind a code word with a bit 0 in it does
/// not depend on bits 1 behind that code word.
pub proof fn lemma_successor_push(code: Seq<bool>)
    ensures
        trailing_ones(code.push(true)) == trailing_ones(code) + 1,
        trailing_ones(code.push(false)) == 0,
        successor(code.push(false)) == code.push(true),
        trailing_ones(code) < code.len() ==> successor(code.push(true)) == successor(code),
{
    assert(code.push(true).drop_last() =~= code);
    assert(code.push(false).drop_last() =~= code);
    assert(code.push(false).take(code.len() as int) =~= code);
    crate::huffman::laws::lemma_trailing_ones_bound(code);
    if trailing_ones(code) < code.len() {
        let keep = code.len() - trailing_ones(code) - 1;
        assert(code.push(true).take(keep) =~= code.take(keep));
    }
}

/// The start of the code word behind the rightmost leaf of a tree is that
/// behind the prefix.
pub proof fn lemma_last_successor(tree: CodeTree, prefix: Seq<bool>)
    requires
        trailing_ones(prefix) < prefix.len(),
    ensures
        successor(last_code(tree, prefix)) == successor(prefix),
    decreases tree,
{
    match tree {
        CodeTree::Leaf(_) => {},
        CodeTree::Inner(_, right) => {
            lemma_successor_push(prefix);
            lemma_last_successor(*right, prefix.push(true));
        },
    }
}

/// What parsing gives behind entries that are read already.
pub open spec fn parsed_behind(
    entries: Seq<TableEntry>,
    used: int,
    more: Option<(Seq<TableEntry>, nat)>,
) -> Option<(Seq<TableEntry>, nat)> {
    match more {
        None => None,
        Some((others, further)) => Some((entries + others, (used + further) as nat)),
    }
}

/// The bits of a tree are read back as the entries of the tree. Where the
/// prefix holds bits 1 alone, the table ends with the tree; else the table
/// goes on behind it.
pub proof fn lemma_parse_tree(
    tree: CodeTree,
    prefix: Seq<bool>,
    current: Seq<bool>,
    rest: Seq<bool>,
)
    requires
        current.len() <= prefix.len(),
        prefix == current + zero_bits(prefix.len() - current.len()),
    ensures
        trailing_ones(prefix) == prefix.len() ==> parse_table(
            tree_bits(tree, prefix, current.len() as int) + rest,
            current,
        ) == Some(
            (
                tree_entries(tree, prefix),
                tree_bits(tree, prefix, current.len() as int).len(),
            ),
        ),
        trailing_ones(prefix) != prefix.len() ==> parse_table(
            tree_bits(tree, prefix, current.len() as int) + rest,
            current,
        ) == parsed_behind(
            tree_entries(tree, prefix),
            tree_bits(tree, prefix, current.len() as int).len() as int,
            parse_table(rest, successor(prefix)),
        ),
    decreases tree,
{
    let carried = current.len() as int;
    let bits = tree_bits(tree, prefix, carried) + rest;
    crate::huffman::laws::lemma_trailing_ones_bound(prefix);
    match tree {
        CodeTree::Leaf(byte) => {
            let zeros = prefix.len() - current.len();
            let front = zero_bits(zeros) + seq![true];
            assert(bits =~= zero_bits(zeros) + seq![true] + (letter_bits(byte) + rest));
            lemma_leading_zeros(zeros, letter_bits(byte) + rest);
            assert(bits =~= front + letter_bits(byte) + rest);
            lemma_letter_value(byte, front, rest);
            assert(bits.skip(zeros + 9) =~= rest);
            assert(current + zero_bits(zeros) =~= prefix);
            if trailing_ones(prefix) != prefix.len() {
                match parse_table(rest, successor(prefix)) {
                    None => {},
                    Some((more, used)) => {},
                }
            }
        },
        CodeTree::Inner(left, right) => {
            let zero = prefix.push(false);
            let one = prefix.push(true);
            let left_bits = tree_bits(*left, zero, carried);
            let right_bits = tree_bits(*right, one, (prefix.len() + 1) as int);
            assert(zero =~= current + zero_bits(zero.len() - current.len()));
            assert(one =~= one + zero_bits(0));
            lemma_successor_push(prefix);
            lemma_parse_tree(*left, zero, current, right_bits + rest);
            lemma_parse_tree(*right, one, one, rest);
            assert(bits =~= left_bits + (right_bits + rest));
            let a = tree_entries(*left, zero);
            let b = tree_entries(*right, one);
            if trailing_ones(prefix) == prefix.len() {
                assert(a + b =~= tree_entries(tree, prefix));
            } else {
                match parse_table(rest, successor(prefix)) {
                    None => {},
                    Some((more, used)) => {
                        assert(a + (b + more) =~= (a + b) + more);
                    },
                }
            }
        },
    }
}

/// Canonical table round trip: the bits of the table of a prefix code that
/// is not empty, whatever stands behind them, are read back as the listing
/// of the code, and as many bits are read as the table has. With the
/// uniqueness of the listing, the table that is read does not depend on the
/// order in which the code was made.
pub proof fn lemma_table_round_trip(codes: Map<u8, Seq<bool>>, rest: Seq<bool>)
    requires
        is_prefix_code(codes),
        codes != Map::<u8, Seq<bool>>::empty(),
    ensures
        is_listing(codes, listing(codes)),
        parse_table(table_bits(listing(codes)) + rest, Seq::empty()).is_some(),
        settled(parse_table(table_bits(listing(codes)) + rest, Seq::empty()).unwrap().0)
            == listing(codes),
        parse_table(table_bits(listing(codes)) + rest, Seq::empty()).unwrap().1 == table_bits(
            listing(codes),
        ).len(),
{
    let tree = choose|tree: CodeTree|
        tree_distinct(tree) && tree_leaves(tree) <= 256 && codes == #[trigger] tree_code(tree);
    let empty = Seq::<bool>::empty();
    match tree {
        CodeTree::Leaf(byte) => {
            let entries = tree_entries(tree, seq![false]);
            lemma_tree_entries_listed(tree, seq![false]);
            lemma_listing_unique(codes, entries, listing(codes));
            assert(entries =~= seq![(byte, seq![false])]);
            let bits = table_bits(entries) + rest;
            let written = (byte, empty);
            assert(table_bits(entries) == entry_bits(written, 0));
            assert(zero_bits(0) =~= empty);
            assert(bits =~= zero_bits(0) + seq![true] + (letter_bits(byte) + rest));
            lemma_leading_zeros(0, letter_bits(byte) + rest);
            assert(bits =~= seq![true] + letter_bits(byte) + rest);
            lemma_letter_value(byte, seq![true], rest);
            assert(empty + zero_bits(0) =~= empty);
            let parsed = parse_table(bits, empty);
            assert(parsed == Some((seq![written], 9nat)));
            assert(settled(seq![written]) =~= entries);
        },
        CodeTree::Inner(left, right) => {
            let entries = tree_entries(tree, empty);
            lemma_tree_entries_listed(tree, empty);
            lemma_listing_unique(codes, entries, listing(codes));
            lemma_tree_entries(tree, empty);
            lemma_tree_entries(*left, empty.push(false));
            lemma_tree_entries(*right, empty.push(true));
            assert(entries.len() >= 2);
            lemma_tree_bits_run(tree, empty, 0);
            lemma_listing_bits_run(entries, entries.len() as int);
            assert(empty =~= empty + zero_bits(0));
            lemma_parse_tree(tree, empty, empty, rest);
        },
    }
}

} // verus!
