//! What the construction keeps true of its forest.

use crate::huffman::encode::{lemma_alive_with, lemma_alive_without, lemma_single_alive};
use crate::huffman::tree::{
    alive_count, alive_weight, huffman_codes, huffman_forest, is_prefix_code, leaf_codes, leaves,
    tree_at, tree_code, tree_distinct, tree_height, tree_leaves, tree_letters, CodeTree, Forest,
    HuffmanNode,
};
use vstd::prelude::*;

verus! {

/// The number of leaves below each node.
pub open spec fn leaf_counts(nodes: Seq<HuffmanNode>) -> Seq<nat> {
    Seq::new(nodes.len(), |i: int| tree_leaves(tree_at(nodes, i)))
}

/// The trees of the nodes without a parent hold each byte below `upto` that
/// has a frequency at exactly one leaf, and no other byte.
pub open spec fn forest_sound(forest: Forest, freqs: Map<u8, u64>, upto: int) -> bool {
    &&& forest.wf()
    &&& forall|i: int|
        0 <= i < forest.nodes.len() && #[trigger] forest.alive[i] ==> tree_distinct(
            tree_at(forest.nodes, i),
        ) && tree_height(tree_at(forest.nodes, i)) < tree_leaves(tree_at(forest.nodes, i))
    &&& forall|i: int, j: int|
        0 <= i < forest.nodes.len() && 0 <= j < forest.nodes.len() && i != j
            && #[trigger] forest.alive[i] && #[trigger] forest.alive[j] ==> tree_letters(
            tree_at(forest.nodes, i),
        ).disjoint(tree_letters(tree_at(forest.nodes, j)))
    &&& forall|byte: u8|
        (byte < upto && #[trigger] freqs.contains_key(byte)) <==> exists|i: int|
            0 <= i < forest.nodes.len() && #[trigger] forest.alive[i] && tree_letters(
                tree_at(forest.nodes, i),
            ).contains(byte)
    &&& alive_weight(leaf_counts(forest.nodes), forest.alive) <= upto
}

/// A tree does not change when nodes are added behind it.
pub proof fn lemma_tree_at_stable(nodes: Seq<HuffmanNode>, node: HuffmanNode, i: int)
    requires
        0 <= i < nodes.len(),
    ensures
        tree_at(nodes.push(node), i) == tree_at(nodes, i),
    decreases i,
{
    match nodes[i] {
        HuffmanNode::Leaf(_) => {},
        HuffmanNode::InnerVertex(l, r) => {
            if l < i && r < i {
                lemma_tree_at_stable(nodes, node, l as int);
                lemma_tree_at_stable(nodes, node, r as int);
            }
        },
    }
}

/// A node added at the end leaves the leaf counts of the others unchanged.
pub proof fn lemma_leaf_counts_push(nodes: Seq<HuffmanNode>, node: HuffmanNode)
    ensures
        leaf_counts(nodes.push(node)).drop_last() == leaf_counts(nodes),
{
    assert forall|i: int| 0 <= i < nodes.len() implies leaf_counts(nodes.push(node))[i]
        == leaf_counts(nodes)[i] by {
        lemma_tree_at_stable(nodes, node, i);
    }
    assert(leaf_counts(nodes.push(node)).drop_last() =~= leaf_counts(nodes));
}

/// The bytes with a code word are the bytes at the leaves.
pub proof fn lemma_leaf_codes_dom(tree: CodeTree, prefix: Seq<bool>)
    ensures
        leaf_codes(tree, prefix).dom() == tree_letters(tree),
    decreases tree,
{
    match tree {
        CodeTree::Leaf(byte) => {
            assert(leaf_codes(tree, prefix).dom() =~= tree_letters(tree));
        },
        CodeTree::Inner(left, right) => {
            lemma_leaf_codes_dom(*left, prefix.push(false));
            lemma_leaf_codes_dom(*right, prefix.push(true));
            assert(leaf_codes(tree, prefix).dom() =~= tree_letters(tree));
        },
    }
}

/// No code word is longer than the prefix and the height of the tree, and
/// none is shorter than the prefix.
pub proof fn lemma_leaf_codes_length(tree: CodeTree, prefix: Seq<bool>, byte: u8)
    requires
        leaf_codes(tree, prefix).contains_key(byte),
    ensures
        prefix.len() <= leaf_codes(tree, prefix)[byte].len() <= prefix.len() + tree_height(tree),
        tree is Inner ==> prefix.len() < leaf_codes(tree, prefix)[byte].len(),
    decreases tree,
{
    match tree {
        CodeTree::Leaf(_) => {},
        CodeTree::Inner(left, right) => {
            if leaf_codes(*right, prefix.push(true)).contains_key(byte) {
                lemma_leaf_codes_length(*right, prefix.push(true), byte);
            } else {
                lemma_leaf_codes_length(*left, prefix.push(false), byte);
            }
        },
    }
}

/// The forest of leaves is sound.
pub proof fn lemma_leaves_sound(freqs: Map<u8, u64>, upto: int)
    requires
        0 <= upto <= 256,
    ensures
        forest_sound(leaves(freqs, upto), freqs, upto),
        forall|i: int|
            0 <= i < leaves(freqs, upto).nodes.len() ==> #[trigger] leaves(freqs, upto).alive[i],
        forall|i: int|
            0 <= i < leaves(freqs, upto).nodes.len() ==> exists|byte: u8|
                byte < upto && #[trigger] leaves(freqs, upto).nodes[i] == HuffmanNode::Leaf(byte),
    decreases upto,
{
    let forest = leaves(freqs, upto);
    if upto == 0 {
        assert(leaf_counts(forest.nodes) =~= Seq::<nat>::empty());
    } else {
        lemma_leaves_sound(freqs, upto - 1);
        let before = leaves(freqs, upto - 1);
        let byte = (upto - 1) as u8;
        if freqs.contains_key(byte) {
            let node = HuffmanNode::Leaf(byte);
            let n = before.nodes.len() as int;
            assert forall|i: int| 0 <= i < n implies tree_at(forest.nodes, i) == tree_at(
                before.nodes,
                i,
            ) by {
                lemma_tree_at_stable(before.nodes, node, i);
            }
            assert(tree_at(forest.nodes, n) == CodeTree::Leaf(byte));
            lemma_leaf_counts_push(before.nodes, node);
            crate::huffman::encode::lemma_alive_with(leaf_counts(before.nodes), before.alive, 1);
            assert(leaf_counts(forest.nodes) =~= leaf_counts(before.nodes).push(1));
            assert forall|i: int| 0 <= i < n implies !tree_letters(
                tree_at(before.nodes, i),
            ).contains(byte) by {
                let other = choose|other: u8|
                    other < upto - 1 && #[trigger] before.nodes[i] == HuffmanNode::Leaf(other);
                assert(tree_at(before.nodes, i) == CodeTree::Leaf(other));
            }
            assert forall|i: int|
                0 <= i < forest.nodes.len() implies exists|b: u8|
                b < upto && #[trigger] forest.nodes[i] == HuffmanNode::Leaf(b) by {
                if i < n {
                    let other = choose|other: u8|
                        other < upto - 1 && #[trigger] before.nodes[i] == HuffmanNode::Leaf(other);
                    assert(forest.nodes[i] == HuffmanNode::Leaf(other));
                } else {
                    assert(forest.nodes[i] == HuffmanNode::Leaf(byte));
                }
            }
            assert forall|b: u8|
                (b < upto && #[trigger] freqs.contains_key(b)) <==> exists|i: int|
                    0 <= i < forest.nodes.len() && #[trigger] forest.alive[i] && tree_letters(
                        tree_at(forest.nodes, i),
                    ).contains(b) by {
                if b < upto && freqs.contains_key(b) {
                    if b == byte {
                        assert(forest.alive[n] && tree_letters(tree_at(forest.nodes, n)).contains(
                            b,
                        ));
                    } else {
                        let i = choose|i: int|
                            0 <= i < before.nodes.len() && #[trigger] before.alive[i]
                                && tree_letters(tree_at(before.nodes, i)).contains(b);
                        assert(forest.alive[i] && tree_letters(tree_at(forest.nodes, i)).contains(
                            b,
                        ));
                    }
                }
                if exists|i: int|
                    0 <= i < forest.nodes.len() && #[trigger] forest.alive[i] && tree_letters(
                        tree_at(forest.nodes, i),
                    ).contains(b) {
                    let i = choose|i: int|
                        0 <= i < forest.nodes.len() && #[trigger] forest.alive[i] && tree_letters(
                            tree_at(forest.nodes, i),
                        ).contains(b);
                    if i < n {
                        assert(before.alive[i] && tree_letters(tree_at(before.nodes, i)).contains(
                            b,
                        ));
                    }
                }
            }
            assert forall|i: int, j: int|
                0 <= i < forest.nodes.len() && 0 <= j < forest.nodes.len() && i != j
                    && #[trigger] forest.alive[i] && #[trigger] forest.alive[j] implies tree_letters(
                tree_at(forest.nodes, i),
            ).disjoint(tree_letters(tree_at(forest.nodes, j))) by {
                if i < n && j < n {
                    assert(before.alive[i] && before.alive[j]);
                }
            }
        } else {
            assert forall|b: u8|
                (b < upto && #[trigger] freqs.contains_key(b)) <==> exists|i: int|
                    0 <= i < forest.nodes.len() && #[trigger] forest.alive[i] && tree_letters(
                        tree_at(forest.nodes, i),
                    ).contains(b) by {
                assert((b < upto - 1 && freqs.contains_key(b)) <==> exists|i: int|
                    0 <= i < before.nodes.len() && #[trigger] before.alive[i] && tree_letters(
                        tree_at(before.nodes, i),
                    ).contains(b));
            }
            assert forall|i: int|
                0 <= i < forest.nodes.len() implies exists|b: u8|
                b < upto && #[trigger] forest.nodes[i] == HuffmanNode::Leaf(b) by {
                let other = choose|other: u8|
                    other < upto - 1 && #[trigger] before.nodes[i] == HuffmanNode::Leaf(other);
                assert(forest.nodes[i] == HuffmanNode::Leaf(other));
            }
        }
    }
}

/// A step of the construction leaves a sound forest sound.
pub proof fn lemma_merge_sound(forest: Forest, freqs: Map<u8, u64>, left: int, right: int)
    requires
        forest_sound(forest, freqs, 256),
        0 <= left < forest.nodes.len(),
        0 <= right < forest.nodes.len(),
        left != right,
        forest.alive[left],
        forest.alive[right],
        forest.nodes.len() <= usize::MAX,
    ensures
        forest_sound(
            forest.without(left).without(right).with_node(
                HuffmanNode::InnerVertex(left as usize, right as usize),
                forest.weights[left] + forest.weights[right],
            ),
            freqs,
            256,
        ),
{
    let node = HuffmanNode::InnerVertex(left as usize, right as usize);
    let next = forest.without(left).without(right).with_node(
        node,
        forest.weights[left] + forest.weights[right],
    );
    let n = forest.nodes.len() as int;
    assert forall|i: int| 0 <= i < n implies tree_at(next.nodes, i) == tree_at(forest.nodes, i) by {
        lemma_tree_at_stable(forest.nodes, node, i);
    }
    let lt = tree_at(forest.nodes, left);
    let rt = tree_at(forest.nodes, right);
    assert(tree_at(next.nodes, n) == CodeTree::Inner(Box::new(lt), Box::new(rt)));
    assert(next.wf());
    // the leaves are counted once
    let counts = leaf_counts(forest.nodes);
    crate::huffman::encode::lemma_alive_without(counts, forest.alive, left);
    crate::huffman::encode::lemma_alive_without(counts, forest.alive.update(left, false), right);
    let both = forest.alive.update(left, false).update(right, false);
    crate::huffman::encode::lemma_alive_with(counts, both, counts[left] + counts[right]);
    lemma_leaf_counts_push(forest.nodes, node);
    assert(leaf_counts(next.nodes) =~= counts.push(counts[left] + counts[right]));
    assert forall|byte: u8|
        (byte < 256 && #[trigger] freqs.contains_key(byte)) <==> exists|i: int|
            0 <= i < next.nodes.len() && #[trigger] next.alive[i] && tree_letters(
                tree_at(next.nodes, i),
            ).contains(byte) by {
        if freqs.contains_key(byte) {
            let i = choose|i: int|
                0 <= i < forest.nodes.len() && #[trigger] forest.alive[i] && tree_letters(
                    tree_at(forest.nodes, i),
                ).contains(byte);
            if i == left || i == right {
                assert(next.alive[n] && tree_letters(tree_at(next.nodes, n)).contains(byte));
            } else {
                assert(next.alive[i] && tree_letters(tree_at(next.nodes, i)).contains(byte));
            }
        }
        if exists|i: int|
            0 <= i < next.nodes.len() && #[trigger] next.alive[i] && tree_letters(
                tree_at(next.nodes, i),
            ).contains(byte) {
            let i = choose|i: int|
                0 <= i < next.nodes.len() && #[trigger] next.alive[i] && tree_letters(
                    tree_at(next.nodes, i),
                ).contains(byte);
            if i == n {
                if tree_letters(lt).contains(byte) {
                    assert(forest.alive[left]);
                } else {
                    assert(forest.alive[right]);
                }
            } else {
                assert(forest.alive[i] && tree_letters(tree_at(forest.nodes, i)).contains(byte));
            }
        }
    }
    assert forall|i: int, j: int|
        0 <= i < next.nodes.len() && 0 <= j < next.nodes.len() && i != j && #[trigger] next.alive[i]
            && #[trigger] next.alive[j] implies tree_letters(tree_at(next.nodes, i)).disjoint(
        tree_letters(tree_at(next.nodes, j)),
    ) by {
        if i < n && j < n {
            assert(forest.alive[i] && forest.alive[j]);
        } else if i == n {
            assert(forest.alive[j] && forest.alive[left] && forest.alive[right]);
            assert(tree_letters(lt).disjoint(tree_letters(tree_at(forest.nodes, j))));
            assert(tree_letters(rt).disjoint(tree_letters(tree_at(forest.nodes, j))));
        } else {
            assert(forest.alive[i] && forest.alive[left] && forest.alive[right]);
            assert(tree_letters(tree_at(forest.nodes, i)).disjoint(tree_letters(lt)));
            assert(tree_letters(tree_at(forest.nodes, i)).disjoint(tree_letters(rt)));
        }
    }
    assert forall|i: int| 0 <= i < next.nodes.len() && #[trigger] next.alive[i] implies tree_distinct(
        tree_at(next.nodes, i),
    ) && tree_height(tree_at(next.nodes, i)) < tree_leaves(tree_at(next.nodes, i)) by {
        if i < n {
            assert(forest.alive[i]);
        } else {
            assert(forest.alive[left] && forest.alive[right]);
        }
    }
}

/// Among the first `upto` nodes, the node without a parent that comes first.
pub open spec fn lightest_below(forest: Forest, upto: int) -> int
    decreases upto,
{
    if upto <= 0 {
        -1
    } else {
        let before = lightest_below(forest, upto - 1);
        if forest.alive[upto - 1] && (before < 0 || !forest.lighter(before, upto - 1)) {
            upto - 1
        } else {
            before
        }
    }
}

/// The lightest live node below a bound is live and no heavier than any
/// other live node below it.
pub proof fn lemma_lightest_below(forest: Forest, upto: int)
    requires
        0 <= upto <= forest.alive.len(),
    ensures
        lightest_below(forest, upto) < upto,
        lightest_below(forest, upto) >= 0 ==> forest.alive[lightest_below(forest, upto)],
        forall|j: int|
            0 <= j < upto && #[trigger] forest.alive[j] ==> lightest_below(forest, upto) >= 0
                && forest.lighter(lightest_below(forest, upto), j),
    decreases upto,
{
    if upto > 0 {
        lemma_lightest_below(forest, upto - 1);
    }
}

/// Where a node is without a parent, one such node comes first, and it is
/// the only one that does.
pub proof fn lemma_lightest(forest: Forest, some: int)
    requires
        0 <= some < forest.alive.len(),
        forest.alive[some],
    ensures
        forest.is_lightest(forest.lightest()),
        forall|i: int| forest.is_lightest(i) ==> i == forest.lightest(),
{
    lemma_lightest_below(forest, forest.alive.len() as int);
    let found = lightest_below(forest, forest.alive.len() as int);
    assert(forest.alive[some]);
    assert(forest.is_lightest(found));
    let chosen = forest.lightest();
    assert forall|i: int| forest.is_lightest(i) implies i == chosen by {
        assert(forest.lighter(i, chosen));
        assert(forest.lighter(chosen, i));
    }
}

/// The forest has its leaves first, and behind them vertices, of which the
/// last is without a parent.
pub open spec fn leaves_first(forest: Forest, leaf_count: int) -> bool {
    &&& 1 <= leaf_count <= forest.nodes.len()
    &&& forall|i: int| 0 <= i < leaf_count ==> #[trigger] forest.nodes[i] is Leaf
    &&& forall|i: int| leaf_count <= i < forest.nodes.len() ==> #[trigger] forest.nodes[i] is InnerVertex
    &&& forest.nodes.len() > leaf_count ==> forest.alive[forest.nodes.len() - 1]
}

/// The steps of the construction keep the forest sound, and leave as many
/// nodes without a parent as are there before the steps, less the steps.
pub proof fn lemma_merged_sound(
    forest: Forest,
    freqs: Map<u8, u64>,
    steps: nat,
    leaf_count: int,
)
    requires
        forest_sound(forest, freqs, 256),
        leaves_first(forest, leaf_count),
        alive_count(forest.alive) == steps + 1,
        forest.nodes.len() <= usize::MAX - steps,
    ensures
        forest_sound(forest.merged(steps), freqs, 256),
        leaves_first(forest.merged(steps), leaf_count),
        alive_count(forest.merged(steps).alive) == 1,
        forest.merged(steps).nodes.len() == forest.nodes.len() + steps,
    decreases steps,
{
    if steps > 0 {
        let some = first_alive(forest.alive);
        lemma_first_alive(forest.alive);
        lemma_lightest(forest, some);
        let left = forest.lightest();
        let weights = forest.weights;
        lemma_alive_without(weights, forest.alive, left);
        let rest = forest.without(left);
        let other = first_alive(rest.alive);
        lemma_first_alive(rest.alive);
        lemma_lightest(rest, other);
        let right = rest.lightest();
        lemma_alive_without(weights, rest.alive, right);
        let both = rest.without(right);
        let node = HuffmanNode::InnerVertex(left as usize, right as usize);
        lemma_alive_with(weights, both.alive, weights[left] + weights[right]);
        lemma_merge_sound(forest, freqs, left, right);
        let next = forest.merge_step();
        assert(next == both.with_node(node, weights[left] + weights[right]));
        assert(leaves_first(next, leaf_count)) by {
            assert forall|i: int| 0 <= i < leaf_count implies #[trigger] next.nodes[i] is Leaf by {
                assert(forest.nodes[i] is Leaf);
            }
            assert forall|i: int|
                leaf_count <= i < next.nodes.len() implies #[trigger] next.nodes[i] is InnerVertex by {
                if i < forest.nodes.len() {
                    assert(forest.nodes[i] is InnerVertex);
                }
            }
        }
        lemma_merged_sound(next, freqs, (steps - 1) as nat, leaf_count);
    }
}

/// The number of the first node without a parent.
pub open spec fn first_alive(alive: Seq<bool>) -> int
    decreases alive.len(),
{
    if alive.len() == 0 {
        -1
    } else if first_alive(alive.drop_last()) >= 0 {
        first_alive(alive.drop_last())
    } else if alive.last() {
        alive.len() - 1
    } else {
        -1
    }
}

/// Where a node is live, the first live node is one of them.
pub proof fn lemma_first_alive(alive: Seq<bool>)
    requires
        alive_count(alive) >= 1,
    ensures
        0 <= first_alive(alive) < alive.len(),
        alive[first_alive(alive)],
    decreases alive.len(),
{
    if alive.len() > 0 {
        if alive_count(alive.drop_last()) >= 1 {
            lemma_first_alive(alive.drop_last());
        } else {
            lemma_none_alive(alive.drop_last());
        }
    }
}

/// Where no node is live, there is no first one.
pub proof fn lemma_none_alive(alive: Seq<bool>)
    requires
        alive_count(alive) == 0,
    ensures
        first_alive(alive) == -1,
    decreases alive.len(),
{
    if alive.len() > 0 {
        lemma_none_alive(alive.drop_last());
    }
}

/// The Huffman code of a table of frequencies is a prefix code; it holds a
/// code word for each byte that has a frequency and for no other, and its
/// code words have between 1 and 255 bits.
pub proof fn lemma_huffman_codes(freqs: Map<u8, u64>)
    ensures
        is_prefix_code(huffman_codes(freqs)),
        forall|letter: u8| #[trigger]
            huffman_codes(freqs).contains_key(letter) <==> freqs.contains_key(letter),
        forall|letter: u8| #[trigger]
            huffman_codes(freqs).contains_key(letter) ==> 1 <= huffman_codes(freqs)[letter].len()
                <= 255,
{
    let start = leaves(freqs, 256);
    let codes = huffman_codes(freqs);
    lemma_leaves_sound(freqs, 256);
    crate::huffman::encode::lemma_leaves(freqs, 256);
    if start.nodes.len() == 0 {
        assert(codes =~= Map::empty());
        assert forall|letter: u8| !freqs.contains_key(letter) by {
            if freqs.contains_key(letter) {
                let i = choose|i: int|
                    0 <= i < start.nodes.len() && #[trigger] start.alive[i] && tree_letters(
                        tree_at(start.nodes, i),
                    ).contains(letter);
            }
        }
    } else {
        let k = start.nodes.len() as int;
        assert(leaves_first(start, k)) by {
            assert forall|i: int| 0 <= i < k implies #[trigger] start.nodes[i] is Leaf by {
                let byte = choose|byte: u8|
                    byte < 256 && #[trigger] start.nodes[i] == HuffmanNode::Leaf(byte);
            }
        }
        lemma_merged_sound(start, freqs, (k - 1) as nat, k);
        let forest = huffman_forest(freqs);
        let n = forest.nodes.len() as int;
        let root = first_alive(forest.alive);
        lemma_first_alive(forest.alive);
        if n > 1 {
            lemma_single_alive(forest.alive, root, n - 1);
        }
        let word = if n == 1 {
            seq![false]
        } else {
            Seq::<bool>::empty()
        };
        let tree = tree_at(forest.nodes, root);
        assert(forest.nodes[root] is Leaf <==> n == 1);
        assert(codes == tree_code(tree));
        lemma_leaf_codes_dom(tree, word);
        let counts = leaf_counts(forest.nodes);
        lemma_alive_without(counts, forest.alive, root);
        assert(tree_leaves(tree) <= 256);
        assert(is_prefix_code(codes));
        assert forall|letter: u8| #[trigger]
            codes.contains_key(letter) <==> freqs.contains_key(letter) by {
            if freqs.contains_key(letter) {
                let i = choose|i: int|
                    0 <= i < forest.nodes.len() && #[trigger] forest.alive[i] && tree_letters(
                        tree_at(forest.nodes, i),
                    ).contains(letter);
                lemma_single_alive(forest.alive, i, root);
            }
            if codes.contains_key(letter) {
                assert(tree_letters(tree).contains(letter));
                assert(forest.alive[root]);
            }
        }
        assert forall|letter: u8| #[trigger] codes.contains_key(letter) implies 1
            <= codes[letter].len() <= 255 by {
            lemma_leaf_codes_length(tree, word, letter);
        }
    }
}

} // verus!
