//! The recency list of move-to-front, held in `atlist_rs::LinkedList`.

use atlist_rs::IterMut;
use atlist_rs::LinkedList;
use vstd::prelude::*;

verus! {

/// `atlist_rs::LinkedList`, taken as it is: Verus sees nothing inside it.
#[verifier::external_type_specification]
#[verifier::external_body]
#[verifier::reject_recursive_types(T)]
pub struct ExLinkedList<T>(LinkedList<T>);

/// `atlist_rs::IterMut`, a cursor into a list, taken as it is.
#[verifier::external_type_specification]
#[verifier::external_body]
#[verifier::reject_recursive_types(T)]
pub struct ExIterMut<T>(IterMut<T>);

/// The items of a list, front first.
pub uninterp spec fn list_items(list: LinkedList<u8>) -> Seq<u8>;

/// The index in `list` of the item at which `cursor` stands; the length of
/// the list where it stands behind the last item.
pub uninterp spec fn cursor_at(list: LinkedList<u8>, cursor: IterMut<u8>) -> int;

/// `LinkedList::new`: a list without items.
#[verifier::external_body]
pub(crate) fn list_new() -> (list: LinkedList<u8>)
    ensures
        list_items(list) == Seq::<u8>::empty(),
{
    LinkedList::new()
}

/// `LinkedList::push_back`: the item is appended behind the last one. The
/// outside function fails only on a lock that another thread has poisoned.
#[verifier::external_body]
pub(crate) fn list_push_back(list: &mut LinkedList<u8>, item: u8)
    ensures
        list_items(*final(list)) == list_items(*old(list)).push(item),
{
    list.push_back(item).unwrap()
}

/// `LinkedList::push_front`: the item is put before the first one. The
/// outside function fails only on a lock that another thread has poisoned.
#[verifier::external_body]
pub(crate) fn list_push_front(list: &mut LinkedList<u8>, item: u8)
    ensures
        list_items(*final(list)) == seq![item] + list_items(*old(list)),
{
    list.push_front(item).unwrap()
}

/// `LinkedList::iter_mut`: a cursor at the first item; the list keeps its
/// items.
#[verifier::external_body]
pub(crate) fn list_cursor(list: &mut LinkedList<u8>) -> (cursor: IterMut<u8>)
    ensures
        list_items(*final(list)) == list_items(*old(list)),
        cursor_at(*final(list), cursor) == 0,
{
    list.iter_mut()
}

/// `IterMut::unwrap`: the item at which the cursor stands. The outside
/// function panics behind the last item, which `requires` leaves out. The
/// list is named for the contract alone: the cursor knows its item.
#[verifier::external_body]
pub(crate) fn cursor_value(list: &LinkedList<u8>, cursor: &IterMut<u8>) -> (item: u8)
    requires
        0 <= cursor_at(*list, *cursor) < list_items(*list).len(),
    ensures
        item == list_items(*list)[cursor_at(*list, *cursor)],
{
    *cursor.unwrap()
}

/// `IterMut::next` on a cursor that stands at an item: the cursor moves to
/// the item behind it, or behind the last item. The list is named for the
/// contract alone.
#[verifier::external_body]
pub(crate) fn cursor_step(list: &LinkedList<u8>, cursor: &mut IterMut<u8>)
    requires
        0 <= cursor_at(*list, *old(cursor)) < list_items(*list).len(),
    ensures
        cursor_at(*list, *final(cursor)) == cursor_at(*list, *old(cursor)) + 1,
{
    cursor.next();
}

/// `LinkedList::remove_iter_mut` on a cursor that stands at an item: that
/// item leaves the list, the others keep their order. The outside function
/// fails behind the last item, and it refuses to take the only item of a
/// list; `requires` leaves both out.
#[verifier::external_body]
pub(crate) fn list_remove(list: &mut LinkedList<u8>, cursor: &mut IterMut<u8>)
    requires
        0 <= cursor_at(*old(list), *old(cursor)) < list_items(*old(list)).len(),
        2 <= list_items(*old(list)).len(),
    ensures
        list_items(*final(list)) == list_items(*old(list)).remove(
            cursor_at(*old(list), *old(cursor)),
        ),
{
    list.remove_iter_mut(cursor).unwrap();
}

} // verus!
