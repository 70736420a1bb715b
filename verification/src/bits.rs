//! Bit sequences, held in `bit_vec::BitVec`.

use bit_vec::BitVec;
use vstd::prelude::*;

verus! {

/// `bit_vec::BitVec`, taken as it is: Verus sees nothing inside it.
#[verifier::external_type_specification]
#[verifier::external_body]
#[verifier::reject_recursive_types(B)]
pub struct ExBitVec<B>(BitVec<B>);

/// The bits that a `BitVec` holds, first pushed first.
pub uninterp spec fn bits_of(v: BitVec<u32>) -> Seq<bool>;

/// `BitVec::new`: a vector that holds no bit.
#[verifier::external_body]
pub(crate) fn bits_new() -> (v: BitVec<u32>)
    ensures
        bits_of(v) == Seq::<bool>::empty(),
{
    BitVec::new()
}

/// `BitVec::len`: the number of bits held.
#[verifier::external_body]
pub(crate) fn bits_len(v: &BitVec<u32>) -> (n: usize)
    ensures
        n == bits_of(*v).len(),
{
    v.len()
}

/// `BitVec::get` inside the bounds: the bit at index `i`.
#[verifier::external_body]
pub(crate) fn bits_get(v: &BitVec<u32>, i: usize) -> (bit: bool)
    requires
        i < bits_of(*v).len(),
    ensures
        bit == bits_of(*v)[i as int],
{
    v.get(i).unwrap()
}

/// `BitVec::push`: appends one bit. The outside function panics when the
/// length would pass `usize::MAX`, which `requires` leaves out.
#[verifier::external_body]
pub(crate) fn bits_push(v: &mut BitVec<u32>, bit: bool)
    requires
        bits_of(*old(v)).len() < usize::MAX,
    ensures
        bits_of(*final(v)) == bits_of(*old(v)).push(bit),
{
    v.push(bit)
}

/// `BitVec::clone`: a vector that holds the same bits.
#[verifier::external_body]
pub(crate) fn bits_clone(v: &BitVec<u32>) -> (copy: BitVec<u32>)
    ensures
        bits_of(copy) == bits_of(*v),
{
    v.clone()
}

/// A copy of `vec` with `element` behind its last bit.
pub fn vec_with(vec: &BitVec<u32>, element: bool) -> (longer: BitVec<u32>)
    requires
        bits_of(*vec).len() < usize::MAX,
    ensures
        bits_of(longer) == bits_of(*vec).push(element),
{
    let mut new_vec = bits_clone(vec);
    bits_push(&mut new_vec, element);
    new_vec
}

} // verus!
