//! The Huffman model: the frequencies of a block and the code built from
//! them.

use crate::bits::{bits_clone, bits_get, bits_len, bits_new, bits_of, bits_push, vec_with};
use crate::huffman::header::{Header, MAX_CODE_LENGTH};
use crate::huffman::iterator::{packed, packed_byte, ByteIterator};
use crate::huffman::table::{header_bits, is_listing, listing, payload_size, TableEntry};
use crate::huffman::forest::lemma_huffman_codes;
use crate::huffman::tree::{
    alive_count, alive_weight, huffman_codes, huffman_forest, is_prefix_code, leaf_codes, leaves,
    total_weight, tree_at, Forest, HuffmanNode,
};
use crate::queue::{
    is_greatest_entry, queue_entries, queue_len, queue_pop, queue_push, queue_with_capacity,
    NodeQueue, NodeQueueEntries,
};
use bit_vec::BitVec;
use std::collections::HashMap;
use vstd::prelude::*;
use vstd::std_specs::hash::*;

verus! {

/// How often `byte` occurs in `input`.
pub open spec fn occurrences(input: Seq<u8>, byte: u8) -> nat
    decreases input.len(),
{
    if input.len() == 0 {
        0
    } else {
        occurrences(input.drop_last(), byte) + if input.last() == byte {
            1nat
        } else {
            0nat
        }
    }
}

/// The table of frequencies of `input`: each byte that occurs, with the
/// number of its occurrences.
pub open spec fn frequencies(input: Seq<u8>) -> Map<u8, u64> {
    Map::new(|byte: u8| occurrences(input, byte) > 0, |byte: u8| occurrences(input, byte) as u64)
}

/// A table of code words, each as the sequence of its bits.
pub open spec fn code_view(codes: Map<u8, BitVec>) -> Map<u8, Seq<bool>> {
    Map::new(|byte: u8| codes.contains_key(byte), |byte: u8| bits_of(codes[byte]))
}

/// A byte occurs no more often than the input is long.
pub proof fn lemma_occurrences_bound(input: Seq<u8>, byte: u8)
    ensures
        occurrences(input, byte) <= input.len(),
    decreases input.len(),
{
    if input.len() > 0 {
        lemma_occurrences_bound(input.drop_last(), byte);
    }
}

/// Counts how often each byte occurs.
pub fn count_frequency(input: &[u8]) -> (letter_frequency: HashMap<u8, u64>)
    ensures
        letter_frequency@ == frequencies(input@),
{
    broadcast use group_hash_axioms;

    let mut letter_frequency: HashMap<u8, u64> = HashMap::new();
    let mut done: usize = 0;
    while done < input.len()
        invariant
            done <= input.len(),
            letter_frequency@ == frequencies(input@.take(done as int)),
        decreases input.len() - done,
    {
        let byte = input[done];
        let ghost before = input@.take(done as int);
        let ghost after = input@.take(done + 1);
        proof {
            assert(after.drop_last() =~= before);
            lemma_occurrences_bound(before, byte);
        }
        let seen: u64 = match letter_frequency.get(&byte) {
            Some(count) => *count,
            None => 0,
        };
        letter_frequency.insert(byte, seen + 1);
        proof {
            assert(letter_frequency@ =~= frequencies(after));
        }
        done += 1;
    }
    proof {
        assert(input@.take(input.len() as int) =~= input@);
    }
    letter_frequency
}

/// The queue holds the nodes of `forest` that have no parent, each with a
/// priority that is the greater the earlier the node comes; `nodes` and
/// `weights` hold the forest.
pub open spec fn queue_holds(
    nodes: Seq<HuffmanNode>,
    weights: Seq<u64>,
    forest: Forest,
    entries: NodeQueueEntries,
) -> bool {
    &&& forest.wf()
    &&& nodes == forest.nodes
    &&& weights.len() == forest.weights.len()
    &&& forall|i: int| 0 <= i < weights.len() ==> #[trigger] weights[i] as nat == forest.weights[i]
    &&& forall|i: usize| #[trigger]
        entries.contains_key(i) <==> (i < forest.alive.len() && forest.alive[i as int])
    &&& forall|i: usize| #[trigger]
        entries.contains_key(i) ==> entries[i] == ((u64::MAX - weights[i as int]) as u64, (u64::MAX
            - i) as u64)
}

/// A set of the numbers of the nodes without a parent has as many members
/// as there are such nodes.
pub proof fn lemma_alive_set(alive: Seq<bool>, set: Set<usize>)
    requires
        alive.len() <= usize::MAX,
        forall|i: usize| #[trigger] set.contains(i) <==> (i < alive.len() && alive[i as int]),
    ensures
        set.finite(),
        set.len() == alive_count(alive),
    decreases alive.len(),
{
    if alive.len() == 0 {
        assert(set =~= Set::empty());
    } else {
        let last = (alive.len() - 1) as usize;
        let shorter = alive.drop_last();
        let rest = set.remove(last);
        assert forall|i: usize| #[trigger] rest.contains(i) <==> (i < shorter.len() && shorter[i as int]) by {}
        lemma_alive_set(shorter, rest);
        if alive.last() {
            assert(set =~= rest.insert(last));
        } else {
            assert(set =~= rest);
        }
    }
}

/// What a node without a parent adds to the count and to the weight.
pub proof fn lemma_alive_without(weights: Seq<nat>, alive: Seq<bool>, i: int)
    requires
        weights.len() == alive.len(),
        0 <= i < alive.len(),
        alive[i],
    ensures
        alive_count(alive.update(i, false)) + 1 == alive_count(alive),
        alive_weight(weights, alive.update(i, false)) + weights[i] == alive_weight(weights, alive),
    decreases alive.len(),
{
    let changed = alive.update(i, false);
    if i == alive.len() - 1 {
        assert(changed.drop_last() =~= alive.drop_last());
    } else {
        lemma_alive_without(weights.drop_last(), alive.drop_last(), i);
        assert(changed.drop_last() =~= alive.drop_last().update(i, false));
    }
}

/// A new live node adds one to the count and its weight to the sum.
pub proof fn lemma_alive_with(weights: Seq<nat>, alive: Seq<bool>, weight: nat)
    requires
        weights.len() == alive.len(),
    ensures
        alive_count(alive.push(true)) == alive_count(alive) + 1,
        alive_weight(weights.push(weight), alive.push(true)) == alive_weight(weights, alive)
            + weight,
{
    assert(alive.push(true).drop_last() =~= alive);
    assert(weights.push(weight).drop_last() =~= weights);
}

/// The forest of leaves has a leaf for each byte with a frequency, all
/// without a parent.
pub proof fn lemma_leaves(freqs: Map<u8, u64>, upto: int)
    requires
        0 <= upto <= 256,
    ensures
        leaves(freqs, upto).wf(),
        leaves(freqs, upto).nodes.len() <= upto,
        alive_count(leaves(freqs, upto).alive) == leaves(freqs, upto).nodes.len(),
        forall|i: int|
            0 <= i < leaves(freqs, upto).nodes.len() ==> #[trigger] leaves(freqs, upto).alive[i],
        forall|i: int|
            0 <= i < leaves(freqs, upto).nodes.len() ==> #[trigger] leaves(freqs, upto).weights[i]
                <= u64::MAX,
    decreases upto,
{
    if upto > 0 {
        lemma_leaves(freqs, upto - 1);
        let before = leaves(freqs, upto - 1);
        let byte = (upto - 1) as u8;
        if freqs.contains_key(byte) {
            lemma_alive_with(before.weights, before.alive, freqs[byte] as nat);
        }
    }
}

/// A node that the queue gives out first is the node that comes first.
pub proof fn lemma_popped_is_lightest(
    nodes: Seq<HuffmanNode>,
    weights: Seq<u64>,
    forest: Forest,
    entries: NodeQueueEntries,
    item: usize,
    priority: (u64, u64),
)
    requires
        nodes.len() <= usize::MAX,
        queue_holds(nodes, weights, forest, entries),
        is_greatest_entry(entries, item, priority),
    ensures
        forest.is_lightest(item as int),
        forest.lightest() == item,
{
    assert(entries.contains_key(item));
    assert forall|j: int| 0 <= j < forest.alive.len() && #[trigger] forest.alive[j] implies forest.lighter(
        item as int,
        j,
    ) by {
        let other = j as usize;
        assert(entries.contains_key(other));
        assert(weights[j] as nat == forest.weights[j]);
        assert(weights[item as int] as nat == forest.weights[item as int]);
    }
    assert(forest.is_lightest(item as int));
    let chosen = forest.lightest();
    assert(forest.is_lightest(chosen));
    assert(forest.lighter(item as int, chosen));
    assert(forest.lighter(chosen, item as int));
}

/// Puts the code word of each leaf below node `index` into `codes`: the path
/// from that node, behind `code`.
pub(crate) fn update_codes(
    codes: &mut HashMap<u8, BitVec>,
    nodes: &Vec<HuffmanNode>,
    index: usize,
    code: BitVec,
)
    requires
        index < nodes.len(),
        bits_of(code).len() + index < usize::MAX,
        forall|i: int|
            0 <= i < nodes.len() ==> match #[trigger] nodes[i] {
                HuffmanNode::Leaf(_) => true,
                HuffmanNode::InnerVertex(l, r) => l < i && r < i,
            },
    ensures
        code_view(final(codes)@) == code_view(old(codes)@).union_prefer_right(
            leaf_codes(tree_at(nodes@, index as int), bits_of(code)),
        ),
    decreases index,
{
    broadcast use group_hash_axioms;

    match nodes[index] {
        HuffmanNode::Leaf(letter) => {
            let ghost before = codes@;
            let ghost word = bits_of(code);
            codes.insert(letter, code);
            proof {
                assert(code_view(codes@) =~= code_view(before).union_prefer_right(
                    Map::empty().insert(letter, word),
                ));
            }
        },
        HuffmanNode::InnerVertex(left, right) => {
            let ghost before = code_view(codes@);
            let ghost word = bits_of(code);
            let left_code = vec_with(&code, false);
            let right_code = vec_with(&code, true);
            update_codes(codes, nodes, left, left_code);
            update_codes(codes, nodes, right, right_code);
            proof {
                let l = leaf_codes(tree_at(nodes@, left as int), word.push(false));
                let r = leaf_codes(tree_at(nodes@, right as int), word.push(true));
                assert(before.union_prefer_right(l).union_prefer_right(r)
                    =~= before.union_prefer_right(l.union_prefer_right(r)));
            }
        },
    }
}

/// The sum of the frequencies of the bytes below `upto`.
pub open spec fn weight_below(freqs: Map<u8, u64>, upto: int) -> nat {
    alive_weight(leaves(freqs, upto).weights, leaves(freqs, upto).alive)
}

/// The sum of the frequencies grows with the bytes that are counted.
pub proof fn lemma_weight_below(freqs: Map<u8, u64>, upto: int)
    requires
        0 <= upto < 256,
    ensures
        weight_below(freqs, upto + 1) == weight_below(freqs, upto) + (if freqs.contains_key(
            upto as u8,
        ) {
            freqs[upto as u8] as nat
        } else {
            0nat
        }),
{
    lemma_leaves(freqs, upto);
    let before = leaves(freqs, upto);
    if freqs.contains_key(upto as u8) {
        lemma_alive_with(before.weights, before.alive, freqs[upto as u8] as nat);
    }
}

/// The weight of the bytes below a bound grows with the bound.
pub proof fn lemma_weight_below_grows(freqs: Map<u8, u64>, low: int, high: int)
    requires
        0 <= low <= high <= 256,
    ensures
        weight_below(freqs, low) <= weight_below(freqs, high),
    decreases high - low,
{
    if low < high {
        lemma_weight_below_grows(freqs, low, high - 1);
        lemma_weight_below(freqs, high - 1);
    }
}

/// Whether the frequencies add up to a number that the machine can hold, so
/// that a code can be built from them.
pub fn weights_fit(letter_frequency: &HashMap<u8, u64>) -> (fit: bool)
    ensures
        fit == (total_weight(letter_frequency@) <= u64::MAX),
{
    broadcast use group_hash_axioms;

    let ghost freqs = letter_frequency@;
    let mut sum: u64 = 0;
    let mut next: usize = 0;
    while next < 256
        invariant
            next <= 256,
            freqs == letter_frequency@,
            sum == weight_below(freqs, next as int),
        decreases 256 - next,
    {
        proof {
            lemma_weight_below(freqs, next as int);
            lemma_weight_below_grows(freqs, next + 1, 256);
        }
        match letter_frequency.get(&(next as u8)) {
            Some(number) => {
                if *number > u64::MAX - sum {
                    return false;
                }
                sum = sum + *number;
            },
            None => {},
        }
        next += 1;
    }
    true
}

/// Builds the Huffman code of a table of frequencies. The two nodes of least
/// weight are merged until one is left; among nodes of equal weight leaves
/// come first, by rising byte value, then vertices in the order in which
/// they were made. A single byte gets the one-bit code 0.
pub fn build_codes(letter_frequency: &HashMap<u8, u64>) -> (codes: HashMap<u8, BitVec>)
    requires
        total_weight(letter_frequency@) <= u64::MAX,
    ensures
        code_view(codes@) == huffman_codes(letter_frequency@),
        is_prefix_code(code_view(codes@)),
        forall|letter: u8| #[trigger]
            codes@.contains_key(letter) <==> letter_frequency@.contains_key(letter),
        forall|letter: u8| #[trigger]
            codes@.contains_key(letter) ==> 1 <= bits_of(codes@[letter]).len() <= 255,
{
    broadcast use group_hash_axioms;

    let ghost freqs = letter_frequency@;
    let room = if letter_frequency.len() > 256 {
        256
    } else {
        letter_frequency.len()
    };
    let mut queue: NodeQueue = queue_with_capacity(room);
    let mut nodes: Vec<HuffmanNode> = Vec::new();
    let mut weights: Vec<u64> = Vec::new();
    let ghost mut forest = leaves(freqs, 0);
    let mut next: usize = 0;
    while next < 256
        invariant
            next <= 256,
            freqs == letter_frequency@,
            forest == leaves(freqs, next as int),
            queue_holds(nodes@, weights@, forest, queue_entries(queue)),
        decreases 256 - next,
    {
        let byte = next as u8;
        proof {
            lemma_leaves(freqs, next as int);
            lemma_leaves(freqs, next + 1);
        }
        match letter_frequency.get(&byte) {
            Some(number) => {
                let index = nodes.len();
                nodes.push(HuffmanNode::Leaf(byte));
                weights.push(*number);
                let _ = queue_push(&mut queue, index, (u64::MAX - *number, u64::MAX - index as u64));
                proof {
                    forest = forest.with_node(HuffmanNode::Leaf(byte), *number as nat);
                }
            },
            None => {},
        }
        next += 1;
    }
    let mut codes: HashMap<u8, BitVec> = HashMap::new();
    proof {
        lemma_leaves(freqs, 256);
        lemma_huffman_codes(freqs);
        assert(code_view(codes@) =~= Map::empty());
    }
    if nodes.len() == 0 {
        return codes;
    }
    let ghost leaf_count = nodes.len();
    let ghost mut steps_left: nat = (nodes.len() - 1) as nat;
    loop
        invariant_except_break
            queue_holds(nodes@, weights@, forest, queue_entries(queue)),
            alive_count(forest.alive) == steps_left + 1,
            forest.merged(steps_left) == huffman_forest(freqs),
            alive_weight(forest.weights, forest.alive) == total_weight(freqs),
            total_weight(freqs) <= u64::MAX,
            1 <= leaf_count <= 256,
            nodes.len() + steps_left == 2 * leaf_count - 1,
            nodes.len() > leaf_count ==> forest.alive[nodes.len() - 1],
            codes@ == Map::<u8, BitVec>::empty(),
        ensures
            queue_holds(nodes@, weights@, forest, queue_entries(queue)),
            alive_count(forest.alive) == 1,
            forest == huffman_forest(freqs),
            1 <= leaf_count <= 256,
            nodes.len() == 2 * leaf_count - 1,
            nodes.len() > leaf_count ==> forest.alive[nodes.len() - 1],
            codes@ == Map::<u8, BitVec>::empty(),
        decreases steps_left,
    {
        let length = queue_len(&queue);
        proof {
            lemma_alive_set(forest.alive, queue_entries(queue).dom());
        }
        if length == 1 {
            break ;
        }
        let ghost entries = queue_entries(queue);
        let (left, _) = queue_pop(&mut queue).unwrap();
        proof {
            lemma_popped_is_lightest(
                nodes@,
                weights@,
                forest,
                entries,
                left,
                entries[left],
            );
            lemma_alive_without(forest.weights, forest.alive, left as int);
        }
        let ghost rest = forest.without(left as int);
        let ghost entries_rest = queue_entries(queue);
        proof {
            assert(queue_holds(nodes@, weights@, rest, entries_rest));
            lemma_alive_set(rest.alive, entries_rest.dom());
        }
        let (right, _) = queue_pop(&mut queue).unwrap();
        proof {
            lemma_popped_is_lightest(
                nodes@,
                weights@,
                rest,
                entries_rest,
                right,
                entries_rest[right],
            );
            lemma_alive_without(rest.weights, rest.alive, right as int);
        }
        let weight = weights[left] + weights[right];
        let index = nodes.len();
        nodes.push(HuffmanNode::InnerVertex(left, right));
        weights.push(weight);
        let _ = queue_push(&mut queue, index, (u64::MAX - weight, u64::MAX - index as u64));
        proof {
            let both = rest.without(right as int);
            lemma_alive_with(both.weights, both.alive, weight as nat);
            assert(forest.merge_step() == both.with_node(
                HuffmanNode::InnerVertex(left, right),
                weight as nat,
            ));
            forest = forest.merge_step();
            steps_left = (steps_left - 1) as nat;
        }
    }
    let ghost entries = queue_entries(queue);
    proof {
        lemma_alive_set(forest.alive, entries.dom());
        assert(!entries.dom().is_empty()) by {
            if entries.dom().is_empty() {
                assert(entries.dom() =~= Set::empty());
            }
        }
    }
    let (root, _) = queue_pop(&mut queue).unwrap();
    assert(entries.contains_key(root));
    let code = if nodes.len() == 1 {
        vec_with(&bits_new(), false)
    } else {
        bits_new()
    };
    proof {
        if nodes.len() > 1 {
            lemma_single_alive(forest.alive, root as int, nodes.len() - 1);
        } else {
            assert(root == 0);
        }
        assert(code_view(codes@) =~= Map::empty());
    }
    update_codes(&mut codes, &nodes, root, code);
    proof {
        let word = if nodes.len() == 1 {
            seq![false]
        } else {
            Seq::<bool>::empty()
        };
        assert(bits_of(code) =~= word);
        assert(code_view(codes@) =~= leaf_codes(tree_at(nodes@, root as int), word));
        assert forall|letter: u8| #[trigger]
            codes@.contains_key(letter) <==> letter_frequency@.contains_key(letter) by {
            assert(codes@.contains_key(letter) <==> code_view(codes@).contains_key(letter));
        }
        assert forall|letter: u8| #[trigger] codes@.contains_key(letter) implies 1 <= bits_of(
            codes@[letter],
        ).len() <= 255 by {
            assert(code_view(codes@).contains_key(letter));
        }
    }
    codes
}

/// Where one node is without a parent, two such nodes are the same node.
pub proof fn lemma_single_alive(alive: Seq<bool>, i: int, j: int)
    requires
        alive_count(alive) == 1,
        0 <= i < alive.len(),
        0 <= j < alive.len(),
        alive[i],
        alive[j],
    ensures
        i == j,
    decreases alive.len(),
{
    if i != j {
        let weights = Seq::new(alive.len(), |k: int| 0nat);
        lemma_alive_without(weights, alive, i);
        let rest = alive.update(i, false);
        lemma_alive_without(weights, rest, j);
    }
}

/// No header takes more bits than this: 96 for the two numbers, and for
/// each of 256 entries at most 255 bits 0, a bit 1 and 8 bits of the byte.
pub const MAX_HEADER_BITS: usize = 67680;

/// The payload of `input` under a code: the code words of its bytes, one
/// behind the other.
pub open spec fn payload_of(codes: Map<u8, Seq<bool>>, input: Seq<u8>) -> Seq<bool>
    decreases input.len(),
{
    if input.len() == 0 {
        Seq::empty()
    } else {
        payload_of(codes, input.drop_last()) + codes[input.last()]
    }
}

/// Gives the code word of each byte of a block in turn.
pub struct EncodingIterator<'a> {
    input_iter: &'a [u8],
    position: usize,
    codes: &'a HashMap<u8, BitVec>,
}

impl<'a> EncodingIterator<'a> {
    #[verifier::type_invariant]
    spec fn wf(self) -> bool {
        &&& self.position <= self.input_iter@.len()
        &&& forall|i: int|
            0 <= i < self.input_iter@.len() ==> self.codes@.contains_key(#[trigger] self.input_iter@[i])
    }

    /// The bytes whose code words are still to be given.
    pub closed spec fn remaining(self) -> Seq<u8> {
        self.input_iter@.skip(self.position as int)
    }

    /// The code in use.
    pub closed spec fn table(self) -> Map<u8, BitVec> {
        self.codes@
    }

    /// Starts at the first byte of `input_iter`. Each byte must have a code
    /// word: a byte without one shows that the table was not made for this
    /// block.
    pub fn new(input_iter: &'a [u8], codes: &'a HashMap<u8, BitVec>) -> (iterator: EncodingIterator<
        'a,
    >)
        requires
            forall|i: int| 0 <= i < input_iter@.len() ==> codes@.contains_key(#[trigger] input_iter@[i]),
        ensures
            iterator.remaining() == input_iter@,
            iterator.table() == codes@,
    {
        let iterator = EncodingIterator { input_iter, position: 0, codes };
        assert(iterator.remaining() =~= input_iter@);
        iterator
    }

    /// The code word of the next byte; nothing behind the last byte.
    pub fn next(&mut self) -> (code: Option<BitVec>)
        ensures
            final(self).table() == old(self).table(),
            code.is_none() <==> old(self).remaining().len() == 0,
            code.is_none() ==> final(self).remaining() == old(self).remaining(),
            code.is_some() ==> old(self).table().contains_key(old(self).remaining()[0]) && bits_of(
                code.unwrap(),
            ) == bits_of(old(self).table()[old(self).remaining()[0]]),
            code.is_some() ==> final(self).remaining() == old(self).remaining().skip(1),
    {
        broadcast use group_hash_axioms;

        proof {
            use_type_invariant(&*self);
        }
        if self.position >= self.input_iter.len() {
            return None;
        }
        let byte = self.input_iter[self.position];
        let ghost before = self.remaining();
        assert(before[0] == byte);
        let code = bits_clone(self.codes.get(&byte).unwrap());
        self.position = self.position + 1;
        assert(self.remaining() =~= before.skip(1));
        Some(code)
    }
}

/// Appends the bits of `code` to `bits`.
pub(crate) fn append_bits(bits: &mut BitVec, code: &BitVec)
    requires
        bits_of(*old(bits)).len() + bits_of(*code).len() <= usize::MAX,
    ensures
        bits_of(*final(bits)) == bits_of(*old(bits)) + bits_of(*code),
{
    let ghost start = bits_of(*bits);
    let ghost word = bits_of(*code);
    let length = bits_len(code);
    let mut i: usize = 0;
    while i < length
        invariant
            i <= length,
            length == word.len(),
            word == bits_of(*code),
            start.len() + word.len() <= usize::MAX,
            bits_of(*bits) == start + word.take(i as int),
        decreases length - i,
    {
        let bit = bits_get(code, i);
        bits_push(bits, bit);
        proof {
            assert(bits_of(*bits) =~= start + word.take(i + 1));
        }
        i += 1;
    }
    proof {
        assert(word.take(length as int) =~= word);
    }
}

/// The bytes of a stream of bits.
pub fn pack(bits: BitVec) -> (bytes: Vec<u8>)
    ensures
        bytes@ == packed(bits_of(bits)),
{
    let ghost all = bits_of(bits);
    let mut bytes: Vec<u8> = Vec::new();
    let mut iterator = ByteIterator::new(bits);
    let ghost mut taken: int = 0;
    proof {
        assert(all.skip(0) =~= all);
    }
    loop
        invariant_except_break
            0 <= taken <= all.len(),
            taken == all.len() || taken == 8 * bytes.len(),
            bytes.len() == (taken + 7) / 8,
            iterator.remaining() == all.skip(taken),
            forall|j: int| 0 <= j < bytes.len() ==> bytes[j] == packed_byte(all, 8 * j) as u8,
        ensures
            bytes@ == packed(all),
        decreases all.len() - taken,
    {
        let ghost rest = iterator.remaining();
        let ghost count = bytes.len();
        match iterator.next() {
            None => {
                proof {
                    assert(bytes@ =~= packed(all));
                }
                break ;
            },
            Some(byte) => {
                bytes.push(byte);
                proof {
                    assert(taken == 8 * count);
                    assert(packed_byte(rest, 0) == packed_byte(all, 8 * count));
                    if rest.len() < 8 {
                        assert(iterator.remaining() =~= all.skip(all.len() as int));
                        taken = all.len() as int;
                    } else {
                        assert(iterator.remaining() =~= all.skip(taken + 8));
                        taken = taken + 8;
                    }
                }
            },
        }
    }
    bytes
}

/// The payload of `input_iter` under a given code, packed into bytes.
pub fn encoded_iterator(input_iter: &[u8], codes: &HashMap<u8, BitVec>) -> (bytes: Vec<u8>)
    requires
        encodable(Map::empty(), input_iter@, code_view(codes@)),
    ensures
        bytes@ == packed(payload_of(code_view(codes@), input_iter@)),
{
    let ghost words = code_view(codes@);
    proof {
        assert forall|i: int| 0 <= i < input_iter@.len() implies codes@.contains_key(
            #[trigger] input_iter@[i],
        ) by {
            assert(words.contains_key(input_iter@[i]));
        }
    }
    let mut bits = bits_new();
    let mut coded_iter = EncodingIterator::new(input_iter, codes);
    let ghost mut done: int = 0;
    proof {
        assert(input_iter@.take(0) =~= Seq::<u8>::empty());
        assert(input_iter@.skip(0) =~= input_iter@);
    }
    loop
        invariant_except_break
            0 <= done <= input_iter@.len(),
            words == code_view(codes@),
            coded_iter.table() == codes@,
            coded_iter.remaining() == input_iter@.skip(done),
            bits_of(bits) == payload_of(words, input_iter@.take(done)),
            payload_of(words, input_iter@).len() <= usize::MAX,
        ensures
            bits_of(bits) == payload_of(words, input_iter@),
        decreases input_iter@.len() - done,
    {
        match coded_iter.next() {
            None => {
                proof {
                    assert(input_iter@.take(done) =~= input_iter@);
                }
                break ;
            },
            Some(code) => {
                proof {
                    assert(input_iter@.skip(done)[0] == input_iter@[done]);
                    assert(input_iter@.take(done + 1).drop_last() =~= input_iter@.take(done));
                    assert(input_iter@.skip(done).skip(1) =~= input_iter@.skip(done + 1));
                    lemma_payload_grows(words, input_iter@, done + 1);
                }
                append_bits(&mut bits, &code);
                proof {
                    done = done + 1;
                }
            },
        }
    }
    pack(bits)
}

/// The frequencies, the input and the code fit together, so that a block
/// can be written: each byte of the input and each byte with a frequency has
/// a code word, no code word has more than 255 bits, and the machine can
/// count the bits of the payload, both as the frequencies give it and as the
/// input makes it behind the header.
pub open spec fn encodable(
    letter_frequency: Map<u8, u64>,
    input: Seq<u8>,
    codes: Map<u8, Seq<bool>>,
) -> bool {
    &&& forall|i: int| 0 <= i < input.len() ==> codes.contains_key(#[trigger] input[i])
    &&& forall|letter: u8| #[trigger]
        letter_frequency.contains_key(letter) ==> codes.contains_key(letter)
    &&& forall|letter: u8| #[trigger]
        codes.contains_key(letter) ==> codes[letter].len() <= MAX_CODE_LENGTH
    &&& payload_size(letter_frequency, codes, 256) <= usize::MAX
    &&& payload_of(codes, input).len() + MAX_HEADER_BITS <= usize::MAX
}

/// Whether the frequencies, the input and the code fit together.
pub fn can_encode(
    letter_frequency: &HashMap<u8, u64>,
    input: &[u8],
    codes: &HashMap<u8, BitVec>,
) -> (fits: bool)
    ensures
        fits == encodable(letter_frequency@, input@, code_view(codes@)),
{
    broadcast use group_hash_axioms;

    let ghost freqs = letter_frequency@;
    let ghost words = code_view(codes@);
    let mut size: usize = 0;
    let mut next: usize = 0;
    while next < 256
        invariant
            next <= 256,
            freqs == letter_frequency@,
            words == code_view(codes@),
            forall|letter: u8|
                letter < next && #[trigger] freqs.contains_key(letter) ==> words.contains_key(
                    letter,
                ),
            forall|letter: u8|
                letter < next && #[trigger] words.contains_key(letter) ==> words[letter].len()
                    <= MAX_CODE_LENGTH,
            size == payload_size(freqs, words, next as int),
        decreases 256 - next,
    {
        let letter = next as u8;
        proof {
            crate::huffman::header::lemma_payload_size_grows(freqs, words, next + 1, 256);
        }
        let length = match codes.get(&letter) {
            Some(code) => {
                let length = bits_len(code);
                assert(words[letter].len() == length);
                if length > MAX_CODE_LENGTH {
                    return false;
                }
                Some(length)
            },
            None => None,
        };
        match letter_frequency.get(&letter) {
            Some(number) => {
                match length {
                    None => {
                        return false;
                    },
                    Some(length) => {
                        let ghost product = (length as nat) * (*number as nat);
                        if length > 0 {
                            if *number > ((usize::MAX - size) / length) as u64 {
                                proof {
                                    assert(product > usize::MAX - size) by (nonlinear_arith)
                                        requires
                                            product == (length as nat) * (*number as nat),
                                            *number > (usize::MAX - size) / (length as int),
                                            length > 0,
                                            usize::MAX - size >= 0,
                                    ;
                                }
                                return false;
                            }
                            assert(product <= usize::MAX - size) by (nonlinear_arith)
                                requires
                                    product == (length as nat) * (*number as nat),
                                    *number <= (usize::MAX - size) / (length as int),
                                    length > 0,
                                    usize::MAX - size >= 0,
                            ;
                            size = size + length * (*number as usize);
                        } else {
                            assert(product == 0) by (nonlinear_arith)
                                requires
                                    product == (length as nat) * (*number as nat),
                                    length == 0,
                            ;
                        }
                    },
                }
            },
            None => {},
        }
        next += 1;
    }
    let mut bits: usize = MAX_HEADER_BITS;
    let mut done: usize = 0;
    proof {
        assert(input@.take(0) =~= Seq::<u8>::empty());
    }
    while done < input.len()
        invariant
            done <= input.len(),
            words == code_view(codes@),
            forall|i: int| 0 <= i < done ==> words.contains_key(#[trigger] input@[i]),
            bits == payload_of(words, input@.take(done as int)).len() + MAX_HEADER_BITS,
        decreases input.len() - done,
    {
        proof {
            assert(input@.take(done + 1).drop_last() =~= input@.take(done as int));
            lemma_payload_grows(words, input@, done + 1);
        }
        match codes.get(&input[done]) {
            None => {
                return false;
            },
            Some(code) => {
                let length = bits_len(code);
                if length > usize::MAX - bits {
                    return false;
                }
                bits = bits + length;
            },
        }
        done += 1;
    }
    proof {
        assert(input@.take(done as int) =~= input@);
    }
    true
}

/// The bytes of a block under a given code: the header of the block, made
/// with the given frequencies, and the code words of the bytes of `input`,
/// packed into bytes.
pub fn iter(
    letter_frequency: HashMap<u8, u64>,
    input: &[u8],
    codes: HashMap<u8, BitVec>,
    initial: u32,
) -> (bytes: Vec<u8>)
    requires
        encodable(letter_frequency@, input@, code_view(codes@)),
    ensures
        bytes@ == packed(
            header_bits(
                initial,
                payload_size(letter_frequency@, code_view(codes@), 256),
                listing(code_view(codes@)),
            ) + payload_of(code_view(codes@), input@),
        ),
{
    let ghost words = code_view(codes@);
    let ghost size = payload_size(letter_frequency@, words, 256);
    proof {
        assert forall|i: int| 0 <= i < input@.len() implies codes@.contains_key(
            #[trigger] input@[i],
        ) by {
            assert(words.contains_key(input@[i]));
        }
        assert(payload_of(words, Seq::<u8>::empty()).len() == 0);
    }
    let mut bits = Header::encode(letter_frequency, &codes, initial);
    let ghost header = bits_of(bits);
    let ghost entries = listing(words);
    proof {
        lemma_header_length(initial, size, entries, words);
    }
    let mut coded_iter = EncodingIterator::new(input, &codes);
    let ghost mut done: int = 0;
    proof {
        assert(input@.take(0) =~= Seq::<u8>::empty());
        assert(input@.skip(0) =~= input@);
    }
    loop
        invariant_except_break
            0 <= done <= input@.len(),
            words == code_view(codes@),
            coded_iter.table() == codes@,
            coded_iter.remaining() == input@.skip(done),
            bits_of(bits) == header + payload_of(words, input@.take(done)),
            header.len() <= MAX_HEADER_BITS,
            payload_of(words, input@).len() + MAX_HEADER_BITS <= usize::MAX,
        ensures
            bits_of(bits) == header + payload_of(words, input@),
        decreases input@.len() - done,
    {
        match coded_iter.next() {
            None => {
                proof {
                    assert(input@.take(done) =~= input@);
                }
                break ;
            },
            Some(code) => {
                proof {
                    let byte = input@[done];
                    assert(input@.skip(done)[0] == byte);
                    assert(input@.take(done + 1).drop_last() =~= input@.take(done));
                    assert(input@.skip(done).skip(1) =~= input@.skip(done + 1));
                    lemma_payload_grows(words, input@, done + 1);
                }
                append_bits(&mut bits, &code);
                proof {
                    assert(bits_of(bits) =~= header + payload_of(words, input@.take(done + 1)));
                    done = done + 1;
                }
            },
        }
    }
    pack(bits)
}

/// The payload of a part of the input is no longer than that of the whole.
pub proof fn lemma_payload_grows(codes: Map<u8, Seq<bool>>, input: Seq<u8>, count: int)
    requires
        0 <= count <= input.len(),
    ensures
        payload_of(codes, input.take(count)).len() <= payload_of(codes, input).len(),
    decreases input.len() - count,
{
    if count < input.len() {
        lemma_payload_grows(codes, input, count + 1);
        assert(input.take(count + 1).drop_last() =~= input.take(count));
    } else {
        assert(input.take(count) =~= input);
    }
}

/// A header of a table whose code words are of at most 255 bits takes at
/// most `MAX_HEADER_BITS` bits.
pub proof fn lemma_header_length(
    initial: u32,
    size: nat,
    entries: Seq<TableEntry>,
    codes: Map<u8, Seq<bool>>,
)
    requires
        is_listing(codes, entries),
        forall|letter: u8| #[trigger] codes.contains_key(letter) ==> codes[letter].len() <= 255,
    ensures
        header_bits(initial, size, entries).len() <= MAX_HEADER_BITS,
{
    crate::huffman::laws::lemma_listing_length(codes, entries);
    crate::huffman::laws::lemma_listing_bits_length(entries, entries.len() as int);
}

/// The bytes of a block: its header with the primary index `initial`, the
/// number of payload bits and the Huffman code of the block, and the code
/// words of its bytes.
pub fn encode(input: &[u8], initial: u32) -> (bytes: Vec<u8>)
    requires
        MAX_HEADER_BITS + 255 * input@.len() <= usize::MAX,
    ensures
        bytes@ == packed(
            header_bits(
                initial,
                payload_of(huffman_codes(frequencies(input@)), input@).len(),
                listing(huffman_codes(frequencies(input@))),
            ) + payload_of(huffman_codes(frequencies(input@)), input@),
        ),
{
    let frequencies = count_frequency(input);
    proof {
        crate::huffman::laws::lemma_total_weight(input@);
    }
    let codes = build_codes(&frequencies);
    proof {
        let words = code_view(codes@);
        assert forall|letter: u8| #[trigger] words.contains_key(letter) implies words[letter].len()
            <= MAX_CODE_LENGTH by {
            assert(codes@.contains_key(letter));
        }
        assert forall|letter: u8| #[trigger]
            frequencies@.contains_key(letter) implies words.contains_key(letter) by {
            assert(codes@.contains_key(letter));
        }
        assert forall|i: int| 0 <= i < input@.len() implies words.contains_key(
            #[trigger] input@[i],
        ) && words[input@[i]].len() <= 255 by {
            crate::huffman::laws::lemma_occurs(input@, i);
            assert(frequencies@.contains_key(input@[i]));
        }
        crate::huffman::laws::lemma_payload_size(input@, words);
        crate::huffman::laws::lemma_payload_bound(input@, words);
    }
    iter(frequencies, input, codes, initial)
}

/// A block of `len` bytes can be encoded: its primary index fits in the four
/// bytes of the header, and the machine can count the bits of its record.
pub open spec fn block_fits(len: int) -> bool {
    len <= u32::MAX && MAX_HEADER_BITS + 255 * len <= usize::MAX
}

/// Whether a block of `len` bytes can be encoded.
pub fn can_hold_block(len: usize) -> (fits: bool)
    ensures
        fits == block_fits(len as int),
{
    len <= u32::MAX as usize && len <= (usize::MAX - MAX_HEADER_BITS) / 255
}

} // verus!
