//! The list of move-to-front as a tree: the bytes stand at the leaves of a
//! binary tree, from left to right in the order of their last use, and each
//! vertex knows how many leaves stand below it. The place of a byte is
//! counted on the way from its leaf to the root. The nodes live in one
//! vector and name each other by their places in it.

use crate::mtf::{
    initial_alphabet, is_alphabet, lemma_initial_alphabet, lemma_move_keeps_alphabet,
    lemma_rank_of, moved_to_front, rank_of,
};
use vstd::prelude::*;

verus! {

/// The number of nodes: 256 leaves and 255 vertices.
pub const NODE_COUNT: usize = 511;

/// The place that stands for no node.
pub const NO_NODE: usize = usize::MAX;

/// A node of the tree. The leaf of a byte lives at the place of the byte's
/// value, the vertices behind the leaves.
#[derive(Clone, Copy)]
pub struct Node {
    pub parent: usize,
    pub left: usize,
    pub right: usize,
    pub subsize: u16,
    pub leaf: bool,
    pub byte: u8,
}

/// The tree as mathematics: a byte at each leaf, and at each vertex its
/// place in the vector.
pub enum Shape {
    Leaf(u8),
    Inner(usize, Box<Shape>, Box<Shape>),
}

/// The place of the root of a tree.
pub open spec fn top(shape: Shape) -> usize {
    match shape {
        Shape::Leaf(byte) => byte as usize,
        Shape::Inner(place, _, _) => place,
    }
}

/// The bytes at the leaves, from left to right.
pub open spec fn flat(shape: Shape) -> Seq<u8>
    decreases shape,
{
    match shape {
        Shape::Leaf(byte) => seq![byte],
        Shape::Inner(_, left, right) => flat(*left) + flat(*right),
    }
}

/// The places of the nodes of a tree.
pub open spec fn slots(shape: Shape) -> Set<usize>
    decreases shape,
{
    match shape {
        Shape::Leaf(byte) => Set::empty().insert(byte as usize),
        Shape::Inner(place, left, right) => slots(*left).union(slots(*right)).insert(place),
    }
}

/// No place is used twice, and vertices stand behind the leaves.
pub open spec fn sound(shape: Shape) -> bool
    decreases shape,
{
    match shape {
        Shape::Leaf(_) => true,
        Shape::Inner(place, left, right) => {
            &&& 256 <= place < NODE_COUNT
            &&& sound(*left)
            &&& sound(*right)
            &&& slots(*left).disjoint(slots(*right))
            &&& !slots(*left).contains(place)
            &&& !slots(*right).contains(place)
        },
    }
}

/// The nodes in the vector are the nodes of the tree, below the node at
/// place `parent`.
pub open spec fn agrees(nodes: Seq<Node>, shape: Shape, parent: usize) -> bool
    decreases shape,
{
    &&& top(shape) < nodes.len()
    &&& nodes[top(shape) as int].parent == parent
    &&& nodes[top(shape) as int].subsize == flat(shape).len()
    &&& match shape {
        Shape::Leaf(byte) => nodes[byte as int].leaf && nodes[byte as int].byte == byte,
        Shape::Inner(place, left, right) => {
            &&& !nodes[place as int].leaf
            &&& nodes[place as int].left == top(*left)
            &&& nodes[place as int].right == top(*right)
            &&& agrees(nodes, *left, place)
            &&& agrees(nodes, *right, place)
        },
    }
}

/// `part` is a tree inside `shape`, or `shape` itself.
pub open spec fn within(shape: Shape, part: Shape) -> bool
    decreases shape,
{
    shape == part || match shape {
        Shape::Leaf(_) => false,
        Shape::Inner(_, left, right) => within(*left, part) || within(*right, part),
    }
}

/// `part` stands directly below the root of `shape`.
pub open spec fn is_child(shape: Shape, part: Shape) -> bool {
    match shape {
        Shape::Leaf(_) => false,
        Shape::Inner(_, left, right) => *left == part || *right == part,
    }
}

/// The tree without the leaf at place `rank` from the left: the vertex
/// above that leaf goes, and the other tree below that vertex takes its
/// place.
pub open spec fn removed_at(shape: Shape, rank: int) -> Shape
    decreases shape,
{
    match shape {
        Shape::Leaf(byte) => shape,
        Shape::Inner(place, left, right) => if rank < flat(*left).len() {
            if *left is Leaf {
                *right
            } else {
                Shape::Inner(place, Box::new(removed_at(*left, rank)), right)
            }
        } else {
            if *right is Leaf {
                *left
            } else {
                Shape::Inner(place, left, Box::new(removed_at(*right, rank - flat(*left).len())))
            }
        },
    }
}

/// The place of the vertex that goes with the leaf at place `rank`.
pub open spec fn freed_at(shape: Shape, rank: int) -> usize
    decreases shape,
{
    match shape {
        Shape::Leaf(byte) => NO_NODE,
        Shape::Inner(place, left, right) => if rank < flat(*left).len() {
            if *left is Leaf {
                place
            } else {
                freed_at(*left, rank)
            }
        } else {
            if *right is Leaf {
                place
            } else {
                freed_at(*right, rank - flat(*left).len())
            }
        },
    }
}

/// The tree with a leaf for `byte` before all other leaves: the leftmost
/// leaf gets a vertex at place `fresh` above it, with the new leaf to its
/// left.
pub open spec fn inserted(shape: Shape, byte: u8, fresh: usize) -> Shape
    decreases shape,
{
    match shape {
        Shape::Leaf(other) => Shape::Inner(
            fresh,
            Box::new(Shape::Leaf(byte)),
            Box::new(Shape::Leaf(other)),
        ),
        Shape::Inner(place, left, right) => Shape::Inner(
            place,
            Box::new(inserted(*left, byte, fresh)),
            right,
        ),
    }
}

/// The leaves of a tree are the bytes whose places the tree uses, and all
/// places lie inside the vector.
pub proof fn lemma_flat_slots(shape: Shape)
    requires
        sound(shape),
    ensures
        flat(shape).len() >= 1,
        slots(shape).contains(top(shape)),
        forall|byte: u8| flat(shape).contains(byte) <==> #[trigger] slots(shape).contains(
            byte as usize,
        ),
        forall|place: usize| #[trigger] slots(shape).contains(place) ==> place < NODE_COUNT,
    decreases shape,
{
    match shape {
        Shape::Leaf(own) => {
            assert(flat(shape)[0] == own);
        },
        Shape::Inner(place, left, right) => {
            lemma_flat_slots(*left);
            lemma_flat_slots(*right);
            let whole = flat(shape);
            assert forall|byte: u8| whole.contains(byte) <==> #[trigger] slots(shape).contains(
                byte as usize,
            ) by {
                if whole.contains(byte) {
                    let k = choose|k: int| 0 <= k < whole.len() && whole[k] == byte;
                    if k < flat(*left).len() {
                        assert(flat(*left)[k] == byte);
                    } else {
                        assert(flat(*right)[k - flat(*left).len()] == byte);
                    }
                }
                if flat(*left).contains(byte) {
                    let k = choose|k: int| 0 <= k < flat(*left).len() && flat(*left)[k] == byte;
                    assert(whole[k] == byte);
                }
                if flat(*right).contains(byte) {
                    let k = choose|k: int| 0 <= k < flat(*right).len() && flat(*right)[k] == byte;
                    assert(whole[k + flat(*left).len()] == byte);
                }
            }
        },
    }
}

/// A tree agrees with a vector that holds the nodes of the tree unchanged.
pub proof fn lemma_frame(before: Seq<Node>, after: Seq<Node>, shape: Shape, parent: usize)
    requires
        sound(shape),
        agrees(before, shape, parent),
        after.len() == before.len(),
        forall|place: usize| #[trigger]
            slots(shape).contains(place) ==> after[place as int] == before[place as int],
    ensures
        agrees(after, shape, parent),
    decreases shape,
{
    lemma_flat_slots(shape);
    match shape {
        Shape::Leaf(_) => {},
        Shape::Inner(place, left, right) => {
            assert forall|other: usize| #[trigger] slots(*left).contains(other) implies after[other as int]
                == before[other as int] by {
                assert(slots(shape).contains(other));
            }
            assert forall|other: usize| #[trigger] slots(*right).contains(other) implies after[other as int]
                == before[other as int] by {
                assert(slots(shape).contains(other));
            }
            lemma_frame(before, after, *left, place);
            lemma_frame(before, after, *right, place);
        },
    }
}

/// A tree agrees with a vector in which its root alone is given another
/// parent.
pub proof fn lemma_reparent(before: Seq<Node>, after: Seq<Node>, shape: Shape, parent: usize)
    requires
        sound(shape),
        agrees(before, shape, before[top(shape) as int].parent),
        after.len() == before.len(),
        forall|place: usize| #[trigger]
            slots(shape).contains(place) && place != top(shape) ==> after[place as int]
                == before[place as int],
        after[top(shape) as int] == (Node { parent, ..before[top(shape) as int] }),
    ensures
        agrees(after, shape, parent),
{
    lemma_flat_slots(shape);
    match shape {
        Shape::Leaf(_) => {},
        Shape::Inner(place, left, right) => {
            lemma_flat_slots(*left);
            lemma_flat_slots(*right);
            assert forall|other: usize| #[trigger] slots(*left).contains(other) implies after[other as int]
                == before[other as int] by {
                assert(slots(shape).contains(other));
            }
            assert forall|other: usize| #[trigger] slots(*right).contains(other) implies after[other as int]
                == before[other as int] by {
                assert(slots(shape).contains(other));
            }
            lemma_frame(before, after, *left, place);
            lemma_frame(before, after, *right, place);
        },
    }
}

/// A tree inside a sound tree that agrees with a vector is sound and agrees
/// with the vector, it has no more leaves, and its leaves are leaves of the
/// tree.
pub proof fn lemma_within(nodes: Seq<Node>, shape: Shape, parent: usize, part: Shape)
    requires
        sound(shape),
        agrees(nodes, shape, parent),
        within(shape, part),
    ensures
        sound(part),
        agrees(nodes, part, nodes[top(part) as int].parent),
        flat(part).len() <= flat(shape).len(),
        shape != part ==> flat(part).len() < flat(shape).len(),
        forall|byte: u8| flat(part).contains(byte) ==> flat(shape).contains(byte),
        shape == part ==> nodes[top(part) as int].parent == parent,
    decreases shape,
{
    if shape != part {
        match shape {
            Shape::Leaf(_) => {},
            Shape::Inner(place, left, right) => {
                lemma_flat_slots(*left);
                lemma_flat_slots(*right);
                lemma_flat_slots(shape);
                if within(*left, part) {
                    lemma_within(nodes, *left, place, part);
                    lemma_flat_slots(part);
                } else {
                    lemma_within(nodes, *right, place, part);
                    lemma_flat_slots(part);
                }
                assert forall|byte: u8| flat(part).contains(byte) implies flat(shape).contains(
                    byte,
                ) by {
                    if within(*left, part) {
                        assert(flat(*left).contains(byte));
                        assert(slots(*left).contains(byte as usize));
                    } else {
                        assert(flat(*right).contains(byte));
                        assert(slots(*right).contains(byte as usize));
                    }
                    assert(slots(shape).contains(byte as usize));
                }
            },
        }
    }
}

/// A tree inside another stands directly below the root of a tree inside
/// that other, and the parent of its root is that root.
pub proof fn lemma_up(nodes: Seq<Node>, shape: Shape, parent: usize, part: Shape)
    requires
        sound(shape),
        agrees(nodes, shape, parent),
        within(shape, part),
        shape != part,
    ensures
        exists|above: Shape|
            within(shape, above) && #[trigger] is_child(above, part) && nodes[top(
                part,
            ) as int].parent == top(above),
    decreases shape,
{
    match shape {
        Shape::Leaf(_) => {
            assert(!within(shape, part));
        },
        Shape::Inner(place, left, right) => {
            reveal_with_fuel(agrees, 2);
            if *left == part || *right == part {
                assert(within(shape, shape) && is_child(shape, part) && nodes[top(
                    part,
                ) as int].parent == top(shape));
            } else if within(*left, part) {
                lemma_up(nodes, *left, place, part);
                let above = choose|above: Shape|
                    within(*left, above) && #[trigger] is_child(above, part) && nodes[top(
                        part,
                    ) as int].parent == top(above);
                assert(within(shape, above) && is_child(above, part) && nodes[top(
                    part,
                ) as int].parent == top(above));
            } else {
                lemma_up(nodes, *right, place, part);
                let above = choose|above: Shape|
                    within(*right, above) && #[trigger] is_child(above, part) && nodes[top(
                        part,
                    ) as int].parent == top(above);
                assert(within(shape, above) && is_child(above, part) && nodes[top(
                    part,
                ) as int].parent == top(above));
            }
        },
    }
}

/// The leaf of a byte of a tree stands inside the tree.
pub proof fn lemma_leaf_within(shape: Shape, byte: u8)
    requires
        sound(shape),
        flat(shape).contains(byte),
    ensures
        within(shape, Shape::Leaf(byte)),
    decreases shape,
{
    lemma_flat_slots(shape);
    match shape {
        Shape::Leaf(own) => {
            assert(slots(shape).contains(byte as usize));
        },
        Shape::Inner(place, left, right) => {
            lemma_flat_slots(*left);
            lemma_flat_slots(*right);
            assert(slots(shape).contains(byte as usize));
            if slots(*left).contains(byte as usize) {
                lemma_leaf_within(*left, byte);
            } else {
                lemma_leaf_within(*right, byte);
            }
        },
    }
}

/// The place of a byte in two lists one behind the other.
pub proof fn lemma_rank_concat(first: Seq<u8>, second: Seq<u8>, byte: u8)
    ensures
        first.contains(byte) ==> rank_of(first + second, byte) == rank_of(first, byte),
        !first.contains(byte) ==> rank_of(first + second, byte) == first.len() + rank_of(
            second,
            byte,
        ),
    decreases first.len(),
{
    let whole = first + second;
    if first.len() == 0 {
        assert(whole =~= second);
    } else {
        assert(whole.drop_first() =~= first.drop_first() + second);
        lemma_rank_concat(first.drop_first(), second, byte);
        if first[0] != byte {
            if first.contains(byte) {
                let k = choose|k: int| 0 <= k < first.len() && first[k] == byte;
                assert(first.drop_first()[k - 1] == byte);
            }
            if first.drop_first().contains(byte) {
                let k = choose|k: int|
                    0 <= k < first.drop_first().len() && first.drop_first()[k] == byte;
                assert(first[k + 1] == byte);
            }
        } else {
            assert(first[0] == byte);
        }
    }
}

/// What is left of a sound tree without one of its leaves: a sound tree of
/// the other leaves, which uses the other places, but for that of the vertex
/// that goes.
pub proof fn lemma_removed(shape: Shape, rank: int)
    requires
        sound(shape),
        shape is Inner,
        0 <= rank < flat(shape).len(),
    ensures
        sound(removed_at(shape, rank)),
        flat(removed_at(shape, rank)) == flat(shape).remove(rank),
        256 <= freed_at(shape, rank) < NODE_COUNT,
        slots(shape).contains(freed_at(shape, rank)),
        !slots(removed_at(shape, rank)).contains(freed_at(shape, rank)),
        !slots(removed_at(shape, rank)).contains(flat(shape)[rank] as usize),
        forall|place: usize| #[trigger]
            slots(removed_at(shape, rank)).contains(place) ==> slots(shape).contains(place),
    decreases shape,
{
    lemma_flat_slots(shape);
    match shape {
        Shape::Leaf(_) => {},
        Shape::Inner(place, left, right) => {
            let a = flat(*left);
            let b = flat(*right);
            lemma_flat_slots(*left);
            lemma_flat_slots(*right);
            if rank < a.len() {
                if *left is Leaf {
                    assert((a + b).remove(rank) =~= b);
                    assert(a[0] == flat(shape)[rank]);
                    assert(slots(*left).contains(a[0] as usize));
                } else {
                    lemma_removed(*left, rank);
                    assert((a + b).remove(rank) =~= a.remove(rank) + b);
                    assert(a[rank] == flat(shape)[rank]);
                    assert(a.contains(a[rank]));
                    assert(slots(*left).contains(a[rank] as usize));
                }
            } else {
                let inner = rank - a.len();
                if *right is Leaf {
                    assert((a + b).remove(rank) =~= a);
                    assert(b[0] == flat(shape)[rank]);
                    assert(slots(*right).contains(b[0] as usize));
                } else {
                    lemma_removed(*right, inner);
                    assert((a + b).remove(rank) =~= a + b.remove(inner));
                    assert(b[inner] == flat(shape)[rank]);
                    assert(b.contains(b[inner]));
                    assert(slots(*right).contains(b[inner] as usize));
                }
            }
        },
    }
}

/// A sound tree with one more leaf in front is sound, where the places of
/// the leaf and of its vertex are free.
pub proof fn lemma_inserted(shape: Shape, byte: u8, fresh: usize)
    requires
        sound(shape),
        256 <= fresh < NODE_COUNT,
        !slots(shape).contains(fresh),
        !slots(shape).contains(byte as usize),
    ensures
        sound(inserted(shape, byte, fresh)),
        flat(inserted(shape, byte, fresh)) == seq![byte] + flat(shape),
        forall|place: usize| #[trigger]
            slots(inserted(shape, byte, fresh)).contains(place) <==> (slots(shape).contains(place)
                || place == fresh || place == byte as usize),
    decreases shape,
{
    lemma_flat_slots(shape);
    let grown = inserted(shape, byte, fresh);
    match shape {
        Shape::Leaf(other) => {
            let new_leaf = Shape::Leaf(byte);
            assert(grown == Shape::Inner(fresh, Box::new(new_leaf), Box::new(shape)));
            assert(flat(new_leaf) =~= seq![byte]);
            assert(slots(new_leaf) =~= Set::empty().insert(byte as usize));
            assert(slots(shape).contains(other as usize));
            assert(sound(new_leaf));
            assert(slots(new_leaf).disjoint(slots(shape)));
            assert(flat(grown) =~= seq![byte] + flat(shape));
            assert forall|place: usize| #[trigger]
                slots(grown).contains(place) <==> (slots(shape).contains(place) || place == fresh
                    || place == byte as usize) by {
                assert(slots(grown) == slots(new_leaf).union(slots(shape)).insert(fresh));
            }
        },
        Shape::Inner(place, left, right) => {
            lemma_inserted(*left, byte, fresh);
            lemma_flat_slots(*right);
            let grown_left = inserted(*left, byte, fresh);
            assert(grown == Shape::Inner(place, Box::new(grown_left), right));
            assert(flat(grown) =~= seq![byte] + flat(shape));
            assert forall|other: usize| #[trigger]
                slots(grown).contains(other) <==> (slots(shape).contains(other) || other == fresh
                    || other == byte as usize) by {
                assert(slots(grown) == slots(grown_left).union(slots(*right)).insert(place));
                assert(slots(shape) == slots(*left).union(slots(*right)).insert(place));
            }
            assert(slots(grown_left).disjoint(slots(*right))) by {
                assert forall|other: usize| slots(grown_left).contains(other) implies !slots(
                    *right,
                ).contains(other) by {
                    if slots(*right).contains(other) {
                        assert(slots(shape).contains(other));
                    }
                }
            }
            assert(!slots(grown_left).contains(place)) by {
                assert(slots(shape).contains(place));
            }
        },
    }
}

/// What a vector that agrees with a tree holds at the root of the tree and
/// at the roots of the two trees below it.
pub proof fn lemma_children(nodes: Seq<Node>, shape: Shape, parent: usize)
    requires
        sound(shape),
        agrees(nodes, shape, parent),
    ensures
        match shape {
            Shape::Leaf(byte) => nodes[top(shape) as int].leaf,
            Shape::Inner(place, left, right) => {
                &&& !nodes[place as int].leaf
                &&& nodes[place as int].left == top(*left)
                &&& nodes[place as int].right == top(*right)
                &&& top(*left) != top(*right)
                &&& top(*left) < NODE_COUNT
                &&& top(*right) < NODE_COUNT
                &&& nodes[top(*left) as int].subsize == flat(*left).len()
                &&& nodes[top(*right) as int].subsize == flat(*right).len()
                &&& nodes[top(*left) as int].leaf == (*left is Leaf)
                &&& nodes[top(*right) as int].leaf == (*right is Leaf)
                &&& agrees(nodes, *left, place)
                &&& agrees(nodes, *right, place)
                &&& flat(shape).len() == flat(*left).len() + flat(*right).len()
                &&& flat(*left).len() >= 1
                &&& flat(*right).len() >= 1
            },
        },
{
    reveal_with_fuel(agrees, 2);
    match shape {
        Shape::Leaf(byte) => {
            assert(nodes[byte as int].leaf);
        },
        Shape::Inner(place, left, right) => {
            lemma_flat_slots(*left);
            lemma_flat_slots(*right);
        },
    }
}

/// The places of the trees below the root of a tree are places of the tree,
/// and the root has a place of its own.
pub proof fn lemma_slots_below(shape: Shape)
    requires
        sound(shape),
    ensures
        match shape {
            Shape::Leaf(_) => true,
            Shape::Inner(place, left, right) => {
                &&& forall|other: usize| #[trigger]
                    slots(*left).contains(other) ==> slots(shape).contains(other) && other != place
                        && !slots(*right).contains(other)
                &&& forall|other: usize| #[trigger]
                    slots(*right).contains(other) ==> slots(shape).contains(other) && other != place
                        && !slots(*left).contains(other)
                &&& forall|other: usize| #[trigger]
                    slots(shape).contains(other) ==> other == place || slots(*left).contains(other)
                        || slots(*right).contains(other)
                &&& slots(shape).contains(place)
            },
        },
{
}

/// Sets up the tree below the node at place `parent` for the bytes from
/// `low` up to `high`, in two halves; the vertices take their places from
/// `next` on. Gives the place of the root of that tree.
fn construct(
    nodes: &mut Vec<Node>,
    parent: usize,
    low: usize,
    high: usize,
    next: &mut usize,
) -> (built: (usize, Ghost<Shape>))
    requires
        old(nodes).len() == NODE_COUNT,
        low < high <= 256,
        256 <= *old(next),
        *old(next) + (high - low - 1) <= NODE_COUNT,
    ensures
        final(nodes).len() == NODE_COUNT,
        *final(next) == *old(next) + (high - low - 1),
        sound(built.1@),
        agrees(final(nodes)@, built.1@, parent),
        built.0 == top(built.1@),
        flat(built.1@) == Seq::new((high - low) as nat, |i: int| (low + i) as u8),
        forall|place: usize| #[trigger]
            slots(built.1@).contains(place) ==> (low <= place < high || *old(next) <= place
                < *final(next)),
        forall|place: int|
            0 <= place < NODE_COUNT && !(low <= place < high || *old(next) <= place < *final(next))
                ==> final(nodes)@[place] == old(nodes)@[place],
    decreases high - low,
{
    if high - low == 1 {
        nodes.set(
            low,
            Node { parent, left: NO_NODE, right: NO_NODE, subsize: 1, leaf: true, byte: low as u8 },
        );
        let ghost shape = Shape::Leaf(low as u8);
        proof {
            assert(flat(shape) =~= Seq::new(1, |i: int| (low + i) as u8));
        }
        return (low, Ghost(shape));
    }
    let place = *next;
    *next = *next + 1;
    let middle = low + (high - low) / 2;
    let ghost start = nodes@;
    let (left, Ghost(left_shape)) = construct(nodes, place, low, middle, next);
    let ghost between = nodes@;
    let ghost next_between = *next;
    let (right, Ghost(right_shape)) = construct(nodes, place, middle, high, next);
    let ghost behind = nodes@;
    nodes.set(
        place,
        Node { parent, left, right, subsize: (high - low) as u16, leaf: false, byte: 0 },
    );
    let ghost shape = Shape::Inner(place, Box::new(left_shape), Box::new(right_shape));
    proof {
        lemma_flat_slots(left_shape);
        lemma_flat_slots(right_shape);
        assert(slots(left_shape).disjoint(slots(right_shape)));
        lemma_frame(between, nodes@, left_shape, place);
        lemma_frame(behind, nodes@, right_shape, place);
        assert(flat(shape) =~= Seq::new((high - low) as nat, |i: int| (low + i) as u8));
    }
    (place, Ghost(shape))
}

/// Takes the leaf at place `rank` from the left out of the tree below the
/// node at place `index`, and with it the vertex above it. Gives the place
/// of the root of what is left, and the place of the vertex that went.
fn remove_node(
    nodes: &mut Vec<Node>,
    index: usize,
    rank: usize,
    parent: usize,
    Ghost(shape): Ghost<Shape>,
) -> (left_over: (usize, usize))
    requires
        old(nodes).len() == NODE_COUNT,
        sound(shape),
        shape is Inner,
        top(shape) == index,
        agrees(old(nodes)@, shape, parent),
        rank < flat(shape).len(),
    ensures
        final(nodes).len() == NODE_COUNT,
        agrees(final(nodes)@, removed_at(shape, rank as int), parent),
        left_over.0 == top(removed_at(shape, rank as int)),
        left_over.1 == freed_at(shape, rank as int),
        forall|place: usize|
            place < NODE_COUNT && !(#[trigger] slots(shape).contains(place)) ==> final(nodes)@[place as int] == old(nodes)@[place as int],
    decreases shape,
{
    let ghost before = nodes@;
    let ghost left_shape = match shape {
        Shape::Inner(_, left, _) => *left,
        Shape::Leaf(_) => shape,
    };
    let ghost right_shape = match shape {
        Shape::Inner(_, _, right) => *right,
        Shape::Leaf(_) => shape,
    };
    proof {
        lemma_flat_slots(shape);
        lemma_flat_slots(left_shape);
        lemma_flat_slots(right_shape);
        lemma_removed(shape, rank as int);
        lemma_children(before, shape, parent);
    }
    let node = nodes[index];
    let left = node.left;
    let right = node.right;
    let left_size = nodes[left].subsize as usize;
    if rank < left_size {
        if nodes[left].leaf {
            let other = nodes[right];
            nodes.set(right, Node { parent, ..other });
            proof {
                assert(removed_at(shape, rank as int) == right_shape);
                lemma_slots_below(shape);
                lemma_reparent(before, nodes@, right_shape, parent);
            }
            (right, index)
        } else {
            let (new_left, freed) = remove_node(nodes, left, rank, index, Ghost(left_shape));
            let ghost between = nodes@;
            let node = nodes[index];
            nodes.set(index, Node { left: new_left, subsize: (node.subsize - 1) as u16, ..node });
            proof {
                lemma_removed(left_shape, rank as int);
                lemma_slots_below(shape);
                let rest = removed_at(left_shape, rank as int);
                assert(removed_at(shape, rank as int) == Shape::Inner(
                    index,
                    Box::new(rest),
                    Box::new(right_shape),
                ));
                lemma_flat_slots(rest);
                assert forall|place: usize| #[trigger] slots(rest).contains(place) implies nodes@[place as int]
                    == between[place as int] by {
                    assert(slots(left_shape).contains(place));
                }
                lemma_frame(between, nodes@, rest, index);
                assert forall|place: usize| #[trigger]
                    slots(right_shape).contains(place) implies nodes@[place as int]
                    == before[place as int] by {
                    assert(!slots(left_shape).contains(place));
                }
                lemma_frame(before, nodes@, right_shape, index);
                assert(flat(removed_at(shape, rank as int)).len() == flat(shape).len() - 1);
                assert forall|place: usize|
                    place < NODE_COUNT && !(#[trigger] slots(shape).contains(place)) implies nodes@[place as int]
                    == before[place as int] by {
                    assert(!slots(left_shape).contains(place));
                }
            }
            (index, freed)
        }
    } else {
        if nodes[right].leaf {
            let other = nodes[left];
            nodes.set(left, Node { parent, ..other });
            proof {
                assert(removed_at(shape, rank as int) == left_shape);
                lemma_slots_below(shape);
                lemma_reparent(before, nodes@, left_shape, parent);
            }
            (left, index)
        } else {
            let (new_right, freed) = remove_node(
                nodes,
                right,
                rank - left_size,
                index,
                Ghost(right_shape),
            );
            let ghost between = nodes@;
            let node = nodes[index];
            nodes.set(
                index,
                Node { right: new_right, subsize: (node.subsize - 1) as u16, ..node },
            );
            proof {
                lemma_removed(right_shape, rank - left_size);
                lemma_slots_below(shape);
                let rest = removed_at(right_shape, rank - left_size);
                assert(removed_at(shape, rank as int) == Shape::Inner(
                    index,
                    Box::new(left_shape),
                    Box::new(rest),
                ));
                lemma_flat_slots(rest);
                assert forall|place: usize| #[trigger] slots(rest).contains(place) implies nodes@[place as int]
                    == between[place as int] by {
                    assert(slots(right_shape).contains(place));
                }
                lemma_frame(between, nodes@, rest, index);
                assert forall|place: usize| #[trigger]
                    slots(left_shape).contains(place) implies nodes@[place as int]
                    == before[place as int] by {
                    assert(!slots(right_shape).contains(place));
                }
                lemma_frame(before, nodes@, left_shape, index);
                assert(flat(removed_at(shape, rank as int)).len() == flat(shape).len() - 1);
                assert forall|place: usize|
                    place < NODE_COUNT && !(#[trigger] slots(shape).contains(place)) implies nodes@[place as int]
                    == before[place as int] by {
                    assert(!slots(right_shape).contains(place));
                }
            }
            (index, freed)
        }
    }
}

/// Puts a leaf for `byte` before all leaves of the tree below the node at
/// place `index`: the leftmost leaf gets the vertex at place `fresh` above
/// it. Gives the place of the root of the tree.
fn insert_front(
    nodes: &mut Vec<Node>,
    index: usize,
    byte: u8,
    fresh: usize,
    parent: usize,
    Ghost(shape): Ghost<Shape>,
) -> (root: usize)
    requires
        old(nodes).len() == NODE_COUNT,
        sound(shape),
        top(shape) == index,
        agrees(old(nodes)@, shape, parent),
        flat(shape).len() < 256,
        256 <= fresh < NODE_COUNT,
        !slots(shape).contains(fresh),
        !slots(shape).contains(byte as usize),
    ensures
        final(nodes).len() == NODE_COUNT,
        agrees(final(nodes)@, inserted(shape, byte, fresh), parent),
        root == top(inserted(shape, byte, fresh)),
        forall|place: usize|
            place < NODE_COUNT && !(#[trigger] slots(shape).contains(place)) && place != fresh
                && place != byte as usize ==> final(nodes)@[place as int] == old(nodes)@[place as int],
    decreases shape,
{
    let ghost before = nodes@;
    proof {
        lemma_flat_slots(shape);
        lemma_inserted(shape, byte, fresh);
    }
    proof {
        lemma_children(before, shape, parent);
        lemma_slots_below(shape);
    }
    let node = nodes[index];
    if node.leaf {
        nodes.set(
            fresh,
            Node { parent, left: byte as usize, right: index, subsize: 2, leaf: false, byte: 0 },
        );
        nodes.set(
            byte as usize,
            Node { parent: fresh, left: NO_NODE, right: NO_NODE, subsize: 1, leaf: true, byte },
        );
        nodes.set(index, Node { parent: fresh, ..node });
        proof {
            let new_leaf = Shape::Leaf(byte);
            let grown = inserted(shape, byte, fresh);
            assert(grown == Shape::Inner(fresh, Box::new(new_leaf), Box::new(shape)));
            assert(flat(new_leaf) =~= seq![byte]);
            assert(flat(grown).len() == 2);
            assert(slots(shape).contains(index));
            assert(agrees(nodes@, new_leaf, fresh));
            assert(agrees(nodes@, shape, fresh));
        }
        fresh
    } else {
        let ghost left_shape = match shape {
            Shape::Inner(_, left, _) => *left,
            Shape::Leaf(_) => shape,
        };
        let ghost right_shape = match shape {
            Shape::Inner(_, _, right) => *right,
            Shape::Leaf(_) => shape,
        };
        proof {
            lemma_flat_slots(left_shape);
            lemma_flat_slots(right_shape);
            assert(!slots(left_shape).contains(fresh)) by {
                if slots(left_shape).contains(fresh) {
                    assert(slots(shape).contains(fresh));
                }
            }
            assert(!slots(left_shape).contains(byte as usize)) by {
                if slots(left_shape).contains(byte as usize) {
                    assert(slots(shape).contains(byte as usize));
                }
            }
        }
        let new_left = insert_front(nodes, node.left, byte, fresh, index, Ghost(left_shape));
        let ghost between = nodes@;
        let node = nodes[index];
        nodes.set(index, Node { left: new_left, subsize: (node.subsize + 1) as u16, ..node });
        proof {
            lemma_inserted(left_shape, byte, fresh);
            let grown = inserted(left_shape, byte, fresh);
            assert(inserted(shape, byte, fresh) == Shape::Inner(
                index,
                Box::new(grown),
                Box::new(right_shape),
            ));
            lemma_flat_slots(grown);
            assert forall|place: usize| #[trigger] slots(grown).contains(place) implies nodes@[place as int]
                == between[place as int] by {
                assert(slots(left_shape).contains(place) || place == fresh || place
                    == byte as usize);
            }
            lemma_frame(between, nodes@, grown, index);
            assert forall|place: usize| #[trigger]
                slots(right_shape).contains(place) implies nodes@[place as int]
                == before[place as int] by {
                assert(!slots(left_shape).contains(place));
                assert(slots(shape).contains(place));
            }
            lemma_frame(before, nodes@, right_shape, index);
            assert forall|place: usize|
                place < NODE_COUNT && !(#[trigger] slots(shape).contains(place)) && place != fresh
                    && place != byte as usize implies nodes@[place as int]
                == before[place as int] by {
                assert(!slots(left_shape).contains(place));
            }
        }
        index
    }
}

/// The bytes in the order of their last use, the byte used last first, as a
/// tree.
pub struct MoveToFrontTree {
    nodes: Vec<Node>,
    root: usize,
    shape: Ghost<Shape>,
}

impl MoveToFrontTree {
    /// The structure is consistent: the nodes are those of a tree that holds
    /// each byte at one leaf.
    pub closed spec fn wf(self) -> bool {
        &&& self.nodes.len() == NODE_COUNT
        &&& sound(self.shape@)
        &&& agrees(self.nodes@, self.shape@, NO_NODE)
        &&& self.root == top(self.shape@)
        &&& is_alphabet(flat(self.shape@))
    }

    /// The bytes in their order.
    pub closed spec fn view(self) -> Seq<u8> {
        flat(self.shape@)
    }

    /// All bytes in ascending order.
    pub fn new() -> (tree: MoveToFrontTree)
        ensures
            tree.wf(),
            tree.view() == initial_alphabet(),
    {
        let mut nodes: Vec<Node> = Vec::new();
        let mut made: usize = 0;
        while made < NODE_COUNT
            invariant
                made <= NODE_COUNT,
                nodes.len() == made,
            decreases NODE_COUNT - made,
        {
            nodes.push(
                Node {
                    parent: NO_NODE,
                    left: NO_NODE,
                    right: NO_NODE,
                    subsize: 0,
                    leaf: true,
                    byte: 0,
                },
            );
            made += 1;
        }
        let mut next: usize = 256;
        let (root, Ghost(shape)) = construct(&mut nodes, NO_NODE, 0, 256, &mut next);
        proof {
            assert(flat(shape) =~= initial_alphabet());
            lemma_initial_alphabet();
        }
        MoveToFrontTree { nodes, root, shape: Ghost(shape) }
    }

    /// The place at which `byte` stands: on the way from its leaf to the
    /// root, the leaves to the left of the way are counted.
    pub fn count_index(&self, byte: u8) -> (index: u8)
        requires
            self.wf(),
        ensures
            index == rank_of(self.view(), byte),
            self.view()[index as int] == byte,
    {
        let ghost shape = self.shape@;
        let ghost mut part = Shape::Leaf(byte);
        let mut current: usize = byte as usize;
        let mut index: usize = 0;
        proof {
            assert(flat(shape).contains(byte));
            lemma_leaf_within(shape, byte);
            assert(flat(part)[0] == byte);
            assert(flat(part).contains(byte));
            lemma_rank_of(flat(part), byte);
        }
        loop
            invariant_except_break
                self.wf(),
                shape == self.shape@,
                within(shape, part),
                top(part) == current,
                flat(part).contains(byte),
                index == rank_of(flat(part), byte),
                index < flat(part).len(),
            ensures
                index == rank_of(flat(shape), byte),
                index < 256,
            decreases flat(shape).len() - flat(part).len(),
        {
            proof {
                lemma_within(self.nodes@, shape, NO_NODE, part);
                lemma_flat_slots(part);
            }
            let parent = self.nodes[current].parent;
            if parent == NO_NODE {
                proof {
                    if shape != part {
                        lemma_up(self.nodes@, shape, NO_NODE, part);
                        let above = choose|above: Shape|
                            within(shape, above) && #[trigger] is_child(above, part)
                                && self.nodes@[top(part) as int].parent == top(above);
                        lemma_within(self.nodes@, shape, NO_NODE, above);
                        lemma_flat_slots(above);
                    }
                }
                break ;
            }
            proof {
                lemma_up(self.nodes@, shape, NO_NODE, part);
            }
            let ghost above = choose|above: Shape|
                within(shape, above) && #[trigger] is_child(above, part) && self.nodes@[top(
                    part,
                ) as int].parent == top(above);
            let ghost left_shape = match above {
                Shape::Inner(_, left, _) => *left,
                Shape::Leaf(_) => above,
            };
            let ghost right_shape = match above {
                Shape::Inner(_, _, right) => *right,
                Shape::Leaf(_) => above,
            };
            proof {
                lemma_within(self.nodes@, shape, NO_NODE, above);
                lemma_flat_slots(above);
                lemma_flat_slots(left_shape);
                lemma_flat_slots(right_shape);
                lemma_children(self.nodes@, above, self.nodes@[top(above) as int].parent);
                lemma_slots_below(above);
                lemma_rank_concat(flat(left_shape), flat(right_shape), byte);
                assert(slots(part).contains(byte as usize));
                assert(above == Shape::Inner(
                    parent,
                    Box::new(left_shape),
                    Box::new(right_shape),
                ));
                assert(left_shape == part || right_shape == part);
                if left_shape == part {
                    assert(flat(left_shape).contains(byte));
                } else {
                    assert(slots(right_shape).contains(byte as usize));
                    assert(!slots(left_shape).contains(byte as usize));
                    assert(!flat(left_shape).contains(byte));
                }
                assert(flat(above).contains(byte)) by {
                    assert(slots(above).contains(byte as usize));
                }
            }
            let left = self.nodes[parent].left;
            if left != current {
                index = index + self.nodes[left].subsize as usize;
            }
            proof {
                lemma_rank_of(flat(above), byte);
            }
            current = parent;
            proof {
                part = above;
            }
        }
        proof {
            lemma_rank_of(flat(shape), byte);
        }
        index as u8
    }

    /// Gives the place at which `byte` stands, and moves the byte to the
    /// front: its leaf leaves the tree with the vertex above it, and comes
    /// back before all other leaves.
    pub fn move_to_front(&mut self, byte: u8) -> (index: u8)
        requires
            old(self).wf(),
        ensures
            final(self).wf(),
            index == rank_of(old(self).view(), byte),
            final(self).view() == moved_to_front(old(self).view(), index as int),
    {
        let index = self.count_index(byte);
        let ghost shape = self.shape@;
        proof {
            lemma_move_keeps_alphabet(flat(shape), index as int);
        }
        if index != 0 {
            proof {
                lemma_removed(shape, index as int);
            }
            let (rest, fresh) = remove_node(
                &mut self.nodes,
                self.root,
                index as usize,
                NO_NODE,
                Ghost(shape),
            );
            let ghost rest_shape = removed_at(shape, index as int);
            proof {
                lemma_inserted(rest_shape, byte, fresh);
            }
            let root = insert_front(&mut self.nodes, rest, byte, fresh, NO_NODE, Ghost(rest_shape));
            self.root = root;
            self.shape = Ghost(inserted(rest_shape, byte, fresh));
        } else {
            proof {
                assert(flat(shape) =~= moved_to_front(flat(shape), 0));
            }
        }
        index
    }
}

} // verus!
