//! Huffman trees and the construction that the coder follows, as mathematics.

use vstd::prelude::*;

verus! {

/// A node of the forest that the construction grows: a leaf for a byte, or
/// a vertex over two nodes that were made before it, named by their numbers.
#[derive(Debug, Clone, Copy, PartialEq, Eq)]
pub enum HuffmanNode {
    Leaf(u8),
    InnerVertex(usize, usize),
}

/// A prefix code as a binary tree: a byte at each leaf, and at each vertex
/// bit 0 to the left and bit 1 to the right.
pub enum CodeTree {
    Leaf(u8),
    Inner(Box<CodeTree>, Box<CodeTree>),
}

/// The forest while it is built. Node `i` has weight `weights[i]`, and is
/// still without a parent where `alive[i]` holds.
pub struct Forest {
    pub nodes: Seq<HuffmanNode>,
    pub weights: Seq<nat>,
    pub alive: Seq<bool>,
}

impl Forest {
    /// The three sequences speak of the same nodes, and each vertex stands
    /// over nodes made before it.
    pub open spec fn wf(self) -> bool {
        &&& self.nodes.len() == self.weights.len()
        &&& self.nodes.len() == self.alive.len()
        &&& forall|i: int|
            0 <= i < self.nodes.len() ==> match #[trigger] self.nodes[i] {
                HuffmanNode::Leaf(_) => true,
                HuffmanNode::InnerVertex(l, r) => l < i && r < i,
            }
    }

    /// Node `i` comes before node `j` in the order of the construction:
    /// by weight, and among equal weights by number. Leaves are numbered by
    /// rising byte value, vertices after them as they are made.
    pub open spec fn lighter(self, i: int, j: int) -> bool {
        self.weights[i] < self.weights[j] || (self.weights[i] == self.weights[j] && i <= j)
    }

    /// Node `i` is without a parent and comes before every other such node.
    pub open spec fn is_lightest(self, i: int) -> bool {
        &&& 0 <= i < self.alive.len()
        &&& self.alive[i]
        &&& forall|j: int| 0 <= j < self.alive.len() && #[trigger] self.alive[j] ==> self.lighter(i, j)
    }

    /// The node without a parent that comes first.
    pub open spec fn lightest(self) -> int {
        choose|i: int| self.is_lightest(i)
    }

    /// The forest once node `i` has a parent.
    pub open spec fn without(self, i: int) -> Forest {
        Forest { nodes: self.nodes, weights: self.weights, alive: self.alive.update(i, false) }
    }

    /// The forest with one more node, which has no parent.
    pub open spec fn with_node(self, node: HuffmanNode, weight: nat) -> Forest {
        Forest {
            nodes: self.nodes.push(node),
            weights: self.weights.push(weight),
            alive: self.alive.push(true),
        }
    }

    /// One step of the construction: the two nodes that come first get a new
    /// vertex as their parent, the first of them to the left; its weight is
    /// the sum of theirs.
    pub open spec fn merge_step(self) -> Forest {
        let left = self.lightest();
        let rest = self.without(left);
        let right = rest.lightest();
        rest.without(right).with_node(
            HuffmanNode::InnerVertex(left as usize, right as usize),
            self.weights[left] + self.weights[right],
        )
    }

    /// The forest after `steps` steps.
    pub open spec fn merged(self, steps: nat) -> Forest
        decreases steps,
    {
        if steps == 0 {
            self
        } else {
            self.merge_step().merged((steps - 1) as nat)
        }
    }
}

/// How many of the flags hold.
pub open spec fn alive_count(alive: Seq<bool>) -> nat
    decreases alive.len(),
{
    if alive.len() == 0 {
        0
    } else {
        alive_count(alive.drop_last()) + if alive.last() {
            1nat
        } else {
            0nat
        }
    }
}

/// The sum of the weights of the nodes whose flag holds.
pub open spec fn alive_weight(weights: Seq<nat>, alive: Seq<bool>) -> nat
    decreases alive.len(),
{
    if alive.len() == 0 {
        0
    } else {
        alive_weight(weights.drop_last(), alive.drop_last()) + if alive.last() {
            weights.last()
        } else {
            0nat
        }
    }
}

/// The forest of leaves for the bytes below `upto` that have a frequency, in
/// rising order of the bytes.
pub open spec fn leaves(freqs: Map<u8, u64>, upto: int) -> Forest
    decreases upto,
{
    if upto <= 0 {
        Forest { nodes: Seq::empty(), weights: Seq::empty(), alive: Seq::empty() }
    } else {
        let before = leaves(freqs, upto - 1);
        let byte = (upto - 1) as u8;
        if freqs.contains_key(byte) {
            before.with_node(HuffmanNode::Leaf(byte), freqs[byte] as nat)
        } else {
            before
        }
    }
}

/// The sum of all frequencies.
pub open spec fn total_weight(freqs: Map<u8, u64>) -> nat {
    alive_weight(leaves(freqs, 256).weights, leaves(freqs, 256).alive)
}

/// The forest when the construction ends: leaves for all bytes that have a
/// frequency, then one vertex for each step until one node is left without
/// a parent.
pub open spec fn huffman_forest(freqs: Map<u8, u64>) -> Forest {
    let start = leaves(freqs, 256);
    if start.nodes.len() == 0 {
        start
    } else {
        start.merged((start.nodes.len() - 1) as nat)
    }
}

/// The tree below node `i` of a forest.
pub open spec fn tree_at(nodes: Seq<HuffmanNode>, i: int) -> CodeTree
    decreases i,
{
    if 0 <= i < nodes.len() {
        match nodes[i] {
            HuffmanNode::Leaf(byte) => CodeTree::Leaf(byte),
            HuffmanNode::InnerVertex(l, r) => if l < i && r < i {
                CodeTree::Inner(Box::new(tree_at(nodes, l as int)), Box::new(tree_at(nodes, r as int)))
            } else {
                CodeTree::Leaf(0)
            },
        }
    } else {
        CodeTree::Leaf(0)
    }
}

/// The code words of the leaves of `tree`, each the path from the root
/// behind `prefix`. Where a byte stands at two leaves, the right one counts.
pub open spec fn leaf_codes(tree: CodeTree, prefix: Seq<bool>) -> Map<u8, Seq<bool>>
    decreases tree,
{
    match tree {
        CodeTree::Leaf(byte) => Map::empty().insert(byte, prefix),
        CodeTree::Inner(left, right) => leaf_codes(*left, prefix.push(false)).union_prefer_right(
            leaf_codes(*right, prefix.push(true)),
        ),
    }
}

/// The Huffman code of a table of frequencies: no code word for no byte; the
/// single bit 0 for a single byte; else the paths of the tree that the
/// construction ends with.
pub open spec fn huffman_codes(freqs: Map<u8, u64>) -> Map<u8, Seq<bool>> {
    let forest = huffman_forest(freqs);
    if forest.nodes.len() == 0 {
        Map::empty()
    } else if forest.nodes.len() == 1 {
        leaf_codes(tree_at(forest.nodes, 0), seq![false])
    } else {
        leaf_codes(tree_at(forest.nodes, forest.nodes.len() - 1), Seq::empty())
    }
}

/// The bytes at the leaves of a tree.
pub open spec fn tree_letters(tree: CodeTree) -> Set<u8>
    decreases tree,
{
    match tree {
        CodeTree::Leaf(byte) => Set::empty().insert(byte),
        CodeTree::Inner(left, right) => tree_letters(*left).union(tree_letters(*right)),
    }
}

/// No byte stands at two leaves of the tree.
pub open spec fn tree_distinct(tree: CodeTree) -> bool
    decreases tree,
{
    match tree {
        CodeTree::Leaf(_) => true,
        CodeTree::Inner(left, right) => tree_distinct(*left) && tree_distinct(*right)
            && tree_letters(*left).disjoint(tree_letters(*right)),
    }
}

/// The number of leaves of a tree.
pub open spec fn tree_leaves(tree: CodeTree) -> nat
    decreases tree,
{
    match tree {
        CodeTree::Leaf(_) => 1,
        CodeTree::Inner(left, right) => tree_leaves(*left) + tree_leaves(*right),
    }
}

/// The length of the longest path from the root to a leaf.
pub open spec fn tree_height(tree: CodeTree) -> nat
    decreases tree,
{
    match tree {
        CodeTree::Leaf(_) => 0,
        CodeTree::Inner(left, right) => 1 + if tree_height(*left) >= tree_height(*right) {
            tree_height(*left)
        } else {
            tree_height(*right)
        },
    }
}

/// The code that a tree stands for: the paths to its leaves; for a tree of
/// one leaf, the one-bit code word 0 for its byte.
pub open spec fn tree_code(tree: CodeTree) -> Map<u8, Seq<bool>> {
    match tree {
        CodeTree::Leaf(_) => leaf_codes(tree, seq![false]),
        CodeTree::Inner(_, _) => leaf_codes(tree, Seq::empty()),
    }
}

/// `codes` is a prefix code over bytes: the empty code, or the code of a
/// binary tree with a byte at each leaf, no byte at two leaves, and at most
/// 256 leaves.
pub open spec fn is_prefix_code(codes: Map<u8, Seq<bool>>) -> bool {
    codes == Map::<u8, Seq<bool>>::empty() || exists|tree: CodeTree|
        tree_distinct(tree) && tree_leaves(tree) <= 256 && codes == #[trigger] tree_code(tree)
}

} // verus!
