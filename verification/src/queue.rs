//! The priority queue of the Huffman construction, held in
//! `priority_queue::PriorityQueue`.

use priority_queue::PriorityQueue;
use std::collections::hash_map::RandomState;
use vstd::prelude::*;

verus! {

/// `priority_queue::PriorityQueue`, taken as it is: Verus sees nothing
/// inside it.
#[verifier::external_type_specification]
#[verifier::external_body]
#[verifier::reject_recursive_types(I)]
#[verifier::reject_recursive_types(P)]
#[verifier::reject_recursive_types(H)]
pub struct ExPriorityQueue<I, P, H>(PriorityQueue<I, P, H>);

/// A priority: a pair of numbers, compared by the first number and, where
/// the first numbers are equal, by the second.
pub type Priority = (u64, u64);

/// The queue of the Huffman construction: its items are node numbers.
pub type NodeQueue = PriorityQueue<usize, Priority, RandomState>;

/// What a queue holds: each item with its priority.
pub type NodeQueueEntries = Map<usize, Priority>;

/// The entries of a queue.
pub uninterp spec fn queue_entries(q: NodeQueue) -> NodeQueueEntries;

/// The order of priorities: that of pairs, first part first.
pub open spec fn priority_le(a: Priority, b: Priority) -> bool {
    a.0 < b.0 || (a.0 == b.0 && a.1 <= b.1)
}

/// `PriorityQueue::with_capacity`: a queue without entries. The outside
/// function panics where the room asked for passes what can be allocated;
/// `requires` keeps far below that.
#[verifier::external_body]
pub(crate) fn queue_with_capacity(capacity: usize) -> (q: NodeQueue)
    requires
        capacity <= 256,
    ensures
        queue_entries(q) == NodeQueueEntries::empty(),
{
    PriorityQueue::with_capacity(capacity)
}

/// The entries number `n`.
pub open spec fn holds_entries(entries: NodeQueueEntries, n: int) -> bool {
    entries.dom().finite() && entries.dom().len() == n
}

/// `item` is an entry with `priority`, and no entry has a greater priority.
pub open spec fn is_greatest_entry(
    entries: NodeQueueEntries,
    item: usize,
    priority: Priority,
) -> bool {
    &&& entries.contains_key(item)
    &&& entries[item] == priority
    &&& forall|other: usize| #[trigger]
        entries.contains_key(other) ==> priority_le(entries[other], priority)
}

/// `PriorityQueue::len`: the number of entries.
#[verifier::external_body]
pub(crate) fn queue_len(q: &NodeQueue) -> (n: usize)
    ensures
        holds_entries(queue_entries(*q), n as int),
{
    q.len()
}

/// `PriorityQueue::push`: the item enters with the given priority, or takes
/// it if it is in the queue already; the priority that it had is returned.
#[verifier::external_body]
pub(crate) fn queue_push(q: &mut NodeQueue, item: usize, priority: Priority) -> (had: Option<
    Priority,
>)
    ensures
        queue_entries(*final(q)) == queue_entries(*old(q)).insert(item, priority),
        had == if queue_entries(*old(q)).contains_key(item) {
            Some(queue_entries(*old(q))[item])
        } else {
            None
        },
{
    q.push(item, priority)
}

/// `PriorityQueue::pop`: nothing from a queue without entries; else an entry
/// of the queue than whose priority no entry has a greater one, which leaves
/// the queue.
#[verifier::external_body]
pub(crate) fn queue_pop(q: &mut NodeQueue) -> (top: Option<(usize, Priority)>)
    ensures
        top.is_none() <==> queue_entries(*old(q)).dom().is_empty(),
        top.is_none() ==> queue_entries(*final(q)) == queue_entries(*old(q)),
        top.is_some() ==> is_greatest_entry(queue_entries(*old(q)), top.unwrap().0, top.unwrap().1),
        top.is_some() ==> queue_entries(*final(q)) == queue_entries(*old(q)).remove(top.unwrap().0),
{
    q.pop()
}

} // verus!
