//! The packet-availability bitmap: one bit per packet, 1 = packet present.
//!
//! The bitmap is stored in a `bit_vec::BitVec`. The crate never looks inside
//! it: the spec function [`bits_of`] names the sequence of bits it holds, and
//! a handful of trusted wrappers state, over that name, what the `bit-vec`
//! crate's source shows of each call.

use vstd::prelude::*;

verus! {

/// The sequence of bits a `bit_vec::BitVec` holds, index 0 first.
pub uninterp spec fn bits_of(bv: bit_vec::BitVec) -> Seq<bool>;

#[verifier::external_type_specification]
#[verifier::external_body]
#[verifier::reject_recursive_types(B)]
pub struct ExBitVec<B>(bit_vec::BitVec<B>);

/// Relies on `bit_vec::BitVec::from_elem`: a vector of `nbits` copies of `bit`.
#[verifier::external_body]
pub fn bv_from_elem(nbits: usize, bit: bool) -> (r: bit_vec::BitVec)
    ensures
        bits_of(r) == Seq::new(nbits as nat, |i: int| bit),
{
    bit_vec::BitVec::from_elem(nbits, bit)
}

/// Relies on `bit_vec::BitVec::len`: the number of bits held.
#[verifier::external_body]
pub fn bv_len(bv: &bit_vec::BitVec) -> (r: usize)
    ensures
        r == bits_of(*bv).len(),
{
    bv.len()
}

/// Relies on `bit_vec::BitVec::get`: `Some(bit i)` within bounds, else `None`.
#[verifier::external_body]
pub fn bv_get(bv: &bit_vec::BitVec, i: usize) -> (r: Option<bool>)
    ensures
        r == if i < bits_of(*bv).len() {
            Some(bits_of(*bv)[i as int])
        } else {
            None::<bool>
        },
{
    bv.get(i)
}

/// Relies on `bit_vec::BitVec::set`: writes bit `i`; panics out of bounds,
/// which the `requires` rules out.
#[verifier::external_body]
pub fn bv_set(bv: &mut bit_vec::BitVec, i: usize, x: bool)
    requires
        i < bits_of(*old(bv)).len(),
    ensures
        bits_of(*final(bv)) == bits_of(*old(bv)).update(i as int, x),
{
    bv.set(i, x)
}

/// Relies on the `Clone` impl of `bit_vec::BitVec`: the copy holds the same bits.
#[verifier::external_body]
pub fn bv_clone(bv: &bit_vec::BitVec) -> (r: bit_vec::BitVec)
    ensures
        bits_of(r) == bits_of(*bv),
{
    bv.clone()
}

} // verus!
