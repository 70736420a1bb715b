//! Move-to-front: each byte is written as its place in a list of all bytes
//! that starts in ascending order, and is then moved to the front of the list.

use crate::alphabet::{
    cursor_at, cursor_step, cursor_value, list_cursor, list_items, list_new, list_push_back,
    list_push_front, list_remove,
};
use atlist_rs::LinkedList;
use vstd::prelude::*;

verus! {

/// The list at the start: all bytes in ascending order.
pub open spec fn initial_alphabet() -> Seq<u8> {
    Seq::new(256, |i: int| i as u8)
}

/// The list after the item at index `i` has moved to the front.
pub open spec fn moved_to_front(list: Seq<u8>, i: int) -> Seq<u8> {
    seq![list[i]] + list.remove(i)
}

/// The first index at which `list` holds `byte`; the length of the list if
/// it holds it nowhere.
pub open spec fn rank_of(list: Seq<u8>, byte: u8) -> int
    decreases list.len(),
{
    if list.len() == 0 {
        0
    } else if list[0] == byte {
        0
    } else {
        1 + rank_of(list.drop_first(), byte)
    }
}

/// The list after the bytes of `input` have been encoded.
pub open spec fn alphabet_after(input: Seq<u8>) -> Seq<u8>
    decreases input.len(),
{
    if input.len() == 0 {
        initial_alphabet()
    } else {
        let list = alphabet_after(input.drop_last());
        moved_to_front(list, rank_of(list, input.last()))
    }
}

/// The move-to-front code of `input`: for each byte its place in the list
/// that the bytes before it have left.
pub open spec fn encoded(input: Seq<u8>) -> Seq<u8> {
    Seq::new(input.len(), |i: int| rank_of(alphabet_after(input.take(i)), input[i]) as u8)
}

/// The list after the ranks of `ranks` have been decoded.
pub open spec fn alphabet_after_ranks(ranks: Seq<u8>) -> Seq<u8>
    decreases ranks.len(),
{
    if ranks.len() == 0 {
        initial_alphabet()
    } else {
        moved_to_front(alphabet_after_ranks(ranks.drop_last()), ranks.last() as int)
    }
}

/// The bytes that `ranks` stand for: for each rank the byte at that place
/// in the list that the ranks before it have left.
pub open spec fn decoded(ranks: Seq<u8>) -> Seq<u8> {
    Seq::new(ranks.len(), |i: int| alphabet_after_ranks(ranks.take(i))[ranks[i] as int])
}

/// `list` holds each byte exactly once.
pub open spec fn is_alphabet(list: Seq<u8>) -> bool {
    &&& list.len() == 256
    &&& forall|i: int, j: int| 0 <= i < j < 256 ==> list[i] != list[j]
    &&& forall|b: u8| list.contains(b)
}

/// The rank of a byte is the first place that holds it, or the list's length
/// where none does.
pub proof fn lemma_rank_of(list: Seq<u8>, byte: u8)
    ensures
        0 <= rank_of(list, byte) <= list.len(),
        rank_of(list, byte) < list.len() ==> list[rank_of(list, byte)] == byte,
        forall|j: int| 0 <= j < rank_of(list, byte) ==> list[j] != byte,
        list.contains(byte) ==> rank_of(list, byte) < list.len(),
    decreases list.len(),
{
    if list.len() > 0 && list[0] != byte {
        let rest = list.drop_first();
        lemma_rank_of(rest, byte);
        assert forall|j: int| 0 <= j < rank_of(list, byte) implies list[j] != byte by {
            if j > 0 {
                assert(rest[j - 1] == list[j]);
            }
        }
        if list.contains(byte) {
            let i = choose|i: int| 0 <= i < list.len() && list[i] == byte;
            assert(rest[i - 1] == byte);
            assert(rest.contains(byte));
        }
    }
}

/// The first index is the only index below which the byte does not occur
/// and at which it does.
pub proof fn lemma_rank_is(list: Seq<u8>, byte: u8, i: int)
    requires
        0 <= i < list.len(),
        list[i] == byte,
        forall|j: int| 0 <= j < i ==> list[j] != byte,
    ensures
        rank_of(list, byte) == i,
{
    lemma_rank_of(list, byte);
    assert(list.contains(byte));
}

/// The list at the start holds every byte once.
pub proof fn lemma_initial_alphabet()
    ensures
        is_alphabet(initial_alphabet()),
{
    let list = initial_alphabet();
    assert forall|b: u8| list.contains(b) by {
        assert(list[b as int] == b);
    }
}

/// Moving an item to the front leaves a list of all bytes a list of all bytes.
pub proof fn lemma_move_keeps_alphabet(list: Seq<u8>, i: int)
    requires
        is_alphabet(list),
        0 <= i < 256,
    ensures
        is_alphabet(moved_to_front(list, i)),
{
    let moved = moved_to_front(list, i);
    assert forall|a: int, b: int| 0 <= a < b < 256 implies moved[a] != moved[b] by {
        let ia = if a == 0 {
            i
        } else if a - 1 < i {
            a - 1
        } else {
            a
        };
        let ib = if b - 1 < i {
            b - 1
        } else {
            b
        };
        assert(moved[a] == list[ia]);
        assert(moved[b] == list[ib]);
        if ia < ib {
            assert(list[ia] != list[ib]);
        } else {
            assert(list[ib] != list[ia]);
        }
    }
    assert forall|b: u8| moved.contains(b) by {
        assert(list.contains(b));
        let k = choose|k: int| 0 <= k < list.len() && list[k] == b;
        if k == i {
            assert(moved[0] == b);
        } else if k < i {
            assert(moved[k + 1] == b);
        } else {
            assert(moved[k] == b);
        }
    }
}

/// Whatever was encoded, the list still holds every byte once.
pub proof fn lemma_alphabet_after(input: Seq<u8>)
    ensures
        is_alphabet(alphabet_after(input)),
    decreases input.len(),
{
    if input.len() == 0 {
        lemma_initial_alphabet();
    } else {
        lemma_alphabet_after(input.drop_last());
        let list = alphabet_after(input.drop_last());
        lemma_rank_of(list, input.last());
        lemma_move_keeps_alphabet(list, rank_of(list, input.last()));
    }
}

/// Whatever was decoded, the list still holds every byte once.
pub proof fn lemma_alphabet_after_ranks(ranks: Seq<u8>)
    ensures
        is_alphabet(alphabet_after_ranks(ranks)),
    decreases ranks.len(),
{
    if ranks.len() == 0 {
        lemma_initial_alphabet();
    } else {
        lemma_alphabet_after_ranks(ranks.drop_last());
        lemma_move_keeps_alphabet(alphabet_after_ranks(ranks.drop_last()), ranks.last() as int);
    }
}

/// The list of all bytes in ascending order.
fn new_alphabet() -> (alphabet: LinkedList<u8>)
    ensures
        list_items(alphabet) == initial_alphabet(),
{
    let mut alphabet = list_new();
    let mut next: usize = 0;
    while next < 256
        invariant
            next <= 256,
            list_items(alphabet).len() == next,
            forall|i: int| 0 <= i < next ==> list_items(alphabet)[i] == i as u8,
        decreases 256 - next,
    {
        list_push_back(&mut alphabet, next as u8);
        next += 1;
    }
    assert(list_items(alphabet) =~= initial_alphabet());
    alphabet
}

/// The move-to-front code of `buffer`.
pub fn apply(buffer: &[u8]) -> (output: Vec<u8>)
    ensures
        output@ == encoded(buffer@),
{
    let mut alphabet = new_alphabet();
    let mut output: Vec<u8> = Vec::with_capacity(buffer.len());
    let mut done: usize = 0;
    while done < buffer.len()
        invariant
            done <= buffer.len(),
            output.len() == done,
            list_items(alphabet) == alphabet_after(buffer@.take(done as int)),
            forall|i: int|
                0 <= i < done ==> output[i] == rank_of(
                    alphabet_after(buffer@.take(i)),
                    buffer[i],
                ) as u8,
        decreases buffer.len() - done,
    {
        let byte = buffer[done];
        let ghost list = list_items(alphabet);
        proof {
            lemma_alphabet_after(buffer@.take(done as int));
            lemma_rank_of(list, byte);
            assert(list.contains(byte));
        }
        let mut cursor = list_cursor(&mut alphabet);
        let mut index: u8 = 0;
        while cursor_value(&alphabet, &cursor) != byte
            invariant
                list_items(alphabet) == list,
                list.len() == 256,
                cursor_at(alphabet, cursor) == index,
                index <= rank_of(list, byte) < 256,
                list[rank_of(list, byte)] == byte,
                forall|j: int| 0 <= j < index ==> list[j] != byte,
            decreases 256 - index,
        {
            cursor_step(&alphabet, &mut cursor);
            index += 1;
        }
        proof {
            lemma_rank_is(list, byte, index as int);
        }
        output.push(index);
        list_remove(&mut alphabet, &mut cursor);
        list_push_front(&mut alphabet, byte);
        proof {
            let next = buffer@.take(done + 1);
            assert(next.drop_last() =~= buffer@.take(done as int));
            assert(next.last() == byte);
            assert(list_items(alphabet) =~= moved_to_front(list, index as int));
        }
        done += 1;
    }
    assert(output@ =~= encoded(buffer@));
    output
}

/// The bytes of which `buffer` is the move-to-front code.
pub fn reverse(buffer: &[u8]) -> (output: Vec<u8>)
    ensures
        output@ == decoded(buffer@),
{
    let mut alphabet = new_alphabet();
    let mut output: Vec<u8> = Vec::with_capacity(buffer.len());
    let mut done: usize = 0;
    while done < buffer.len()
        invariant
            done <= buffer.len(),
            output.len() == done,
            list_items(alphabet) == alphabet_after_ranks(buffer@.take(done as int)),
            forall|i: int|
                0 <= i < done ==> output[i] == alphabet_after_ranks(buffer@.take(i))[buffer[i] as int],
        decreases buffer.len() - done,
    {
        let rank = buffer[done];
        let ghost list = list_items(alphabet);
        proof {
            lemma_alphabet_after_ranks(buffer@.take(done as int));
        }
        let mut cursor = list_cursor(&mut alphabet);
        let mut index: u8 = 0;
        while index < rank
            invariant
                list_items(alphabet) == list,
                list.len() == 256,
                cursor_at(alphabet, cursor) == index,
                index <= rank,
            decreases rank - index,
        {
            cursor_step(&alphabet, &mut cursor);
            index += 1;
        }
        let letter = cursor_value(&alphabet, &cursor);
        output.push(letter);
        list_remove(&mut alphabet, &mut cursor);
        list_push_front(&mut alphabet, letter);
        proof {
            let next = buffer@.take(done + 1);
            assert(next.drop_last() =~= buffer@.take(done as int));
            assert(next.last() == rank);
            assert(list_items(alphabet) =~= moved_to_front(list, rank as int));
        }
        done += 1;
    }
    assert(output@ =~= decoded(buffer@));
    output
}

/// The code of a shorter input is the start of the code of a longer one.
pub proof fn lemma_encoded_take(input: Seq<u8>, i: int)
    requires
        0 <= i <= input.len(),
    ensures
        encoded(input).take(i) == encoded(input.take(i)),
{
    assert forall|j: int| 0 <= j < i implies encoded(input).take(i)[j] == encoded(input.take(i))[j] by {
        assert(input.take(i).take(j) =~= input.take(j));
    }
    assert(encoded(input).take(i) =~= encoded(input.take(i)));
}

/// Decoding follows encoding through the same lists.
pub proof fn lemma_same_alphabet(input: Seq<u8>)
    ensures
        alphabet_after_ranks(encoded(input)) == alphabet_after(input),
    decreases input.len(),
{
    if input.len() > 0 {
        let shorter = input.drop_last();
        lemma_same_alphabet(shorter);
        lemma_encoded_take(input, input.len() - 1);
        assert(input.take(input.len() - 1) =~= shorter);
        assert(encoded(input).drop_last() =~= encoded(input).take(input.len() - 1));
        let list = alphabet_after(shorter);
        lemma_alphabet_after(shorter);
        lemma_rank_of(list, input.last());
        assert(list.contains(input.last()));
        assert(encoded(input).last() == rank_of(list, input.last()) as u8);
    } else {
        assert(encoded(input) =~= Seq::<u8>::empty());
    }
}

/// Decoding undoes encoding, for every byte sequence.
pub proof fn lemma_decoded_encoded(input: Seq<u8>)
    ensures
        decoded(encoded(input)) == input,
{
    let code = encoded(input);
    assert forall|i: int| 0 <= i < input.len() implies decoded(code)[i] == input[i] by {
        lemma_encoded_take(input, i);
        lemma_same_alphabet(input.take(i));
        let list = alphabet_after(input.take(i));
        lemma_alphabet_after(input.take(i));
        lemma_rank_of(list, input[i]);
        assert(list.contains(input[i]));
    }
    assert(decoded(code) =~= input);
}

} // verus!
