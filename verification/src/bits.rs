//! Trusted interface to `bit_vec::BitVec`, the bit set used to record the
//! capturing directions of a cell. A value is modeled by `bits_of`, the
//! sequence of its bits.

use vstd::prelude::*;
use bit_vec::BitVec;

verus! {

#[verifier::external_type_specification]
#[verifier::external_body]
#[verifier::reject_recursive_types(B)]
pub struct ExBitVec<B>(BitVec<B>);

/// The bits held by a `BitVec`, in index order.
pub uninterp spec fn bits_of(bv: BitVec) -> Seq<bool>;

/// Relies on BitVec::from_elem: a vector of `len` bits, each set to `bit`.
#[verifier::external_body]
pub fn bits_new(len: usize, bit: bool) -> (r: BitVec)
    ensures
        bits_of(r) == Seq::new(len as nat, |i: int| bit),
{
    BitVec::from_elem(len, bit)
}

/// Relies on BitVec::set: writes one bit; panics only out of range.
#[verifier::external_body]
pub fn bits_set(bv: &mut BitVec, i: usize, x: bool)
    requires
        i < bits_of(*old(bv)).len(),
    ensures
        bits_of(*final(bv)) == bits_of(*old(bv)).update(i as int, x),
{
    bv.set(i, x)
}

/// Relies on BitVec::none: true exactly when every bit is 0.
#[verifier::external_body]
pub fn bits_none(bv: &BitVec) -> (r: bool)
    ensures
        r == forall|i: int| 0 <= i < bits_of(*bv).len() ==> !bits_of(*bv)[i],
{
    bv.none()
}

} // verus!
