//! One bit per graph node, held in a `BitVec`.

use vstd::prelude::*;

use bitvec::vec::BitVec;

verus! {

/// A `BitVec` of the `bitvec` crate, one bit per graph node.
///
/// Verus cannot declare `BitVec` itself (its parameters are bound by traits of
/// `bitvec`), so the vector is held here and reached through the functions below.
#[verifier::external_body]
pub struct NodeBits {
    bits: BitVec,
}

/// The bits that a [`NodeBits`] holds, in index order.
pub uninterp spec fn bit_values(v: NodeBits) -> Seq<bool>;

/// `BitVec::repeat`: a bit-vector of `len` copies of `bit`.
#[verifier::external_body]
pub(crate) fn bits_repeat(bit: bool, len: usize) -> (r: NodeBits)
    requires
        len <= usize::MAX / 8,
    ensures
        bit_values(r) == Seq::new(len as nat, |_i: int| bit),
{
    NodeBits { bits: BitVec::repeat(bit, len) }
}

/// Indexing a `BitVec` (through `BitSlice`'s `Index<usize>`): the bit at `index`.
#[verifier::external_body]
pub(crate) fn bits_get(v: &NodeBits, index: usize) -> (r: bool)
    requires
        index < bit_values(*v).len(),
    ensures
        r == bit_values(*v)[index as int],
{
    v.bits[index]
}

/// `BitSlice::set`: writes `value` into the bit at `index`.
#[verifier::external_body]
pub(crate) fn bits_set(v: &mut NodeBits, index: usize, value: bool)
    requires
        index < bit_values(*old(v)).len(),
    ensures
        bit_values(*final(v)) == bit_values(*old(v)).update(index as int, value),
{
    v.bits.set(index, value)
}

} // verus!
