use vstd::prelude::*;

verus! {

#[verifier::external_type_specification]
#[verifier::external_body]
#[verifier::reject_recursive_types(B)]
pub struct ExBitVec<B>(bit_vec::BitVec<B>);

/// The bits that a `bit_vec::BitVec` holds, in order.
pub uninterp spec fn bits_of(v: bit_vec::BitVec<u32>) -> Seq<bool>;

/// Relies on bit_vec::BitVec::from_elem: a vector of `len` bits, each
/// set to `bit`.
#[verifier::external_body]
pub(crate) fn bits_from_elem(len: usize, bit: bool) -> (r: bit_vec::BitVec<u32>)
    requires
        len < 0x1000_0000,
    ensures
        bits_of(r) == Seq::new(len as nat, |i: int| bit),
{
    bit_vec::BitVec::from_elem(len, bit)
}

/// Relies on bit_vec::BitVec's `Index` impl: the stored bit at `i`.
#[verifier::external_body]
pub(crate) fn bits_get(v: &bit_vec::BitVec<u32>, i: usize) -> (r: bool)
    requires
        i < bits_of(*v).len(),
    ensures
        r == bits_of(*v)[i as int],
{
    v[i]
}

/// Relies on bit_vec::BitVec::set: stores `x` at `i` and moves no other
/// bit.
#[verifier::external_body]
pub(crate) fn bits_set(v: &mut bit_vec::BitVec<u32>, i: usize, x: bool)
    requires
        i < bits_of(*old(v)).len(),
    ensures
        bits_of(*final(v)) == bits_of(*old(v)).update(i as int, x),
{
    v.set(i, x)
}

} // verus!
