//! The buffer ids of one side of a node, held in a `SmallVec`.

use vstd::prelude::*;

use smallvec::SmallVec;

use crate::id::IncrementalId;
use crate::pipeline::BufferId;

verus! {

/// A `SmallVec<[BufferId; 16]>` of the `smallvec` crate: the buffers of one side
/// (inputs or outputs) of a node.
///
/// Verus cannot declare `SmallVec` itself (its parameter is bound by a trait of
/// `smallvec`), so the vector is held here and reached through the functions below.
#[verifier::external_body]
#[derive(Debug)]
pub struct BufferSlots {
    ids: SmallVec<[BufferId; 16]>,
}

/// The positions of the buffer ids that a [`BufferSlots`] holds, in index order.
pub uninterp spec fn slot_positions(v: BufferSlots) -> Seq<nat>;

/// The positions of a sequence of buffer ids.
pub open spec fn buffer_positions(s: Seq<BufferId>) -> Seq<nat> {
    Seq::new(s.len(), |i: int| s[i].position())
}

/// `SmallVec::clone`: a vector with the same ids.
#[verifier::external_body]
fn slots_clone(v: &BufferSlots) -> (r: BufferSlots)
    ensures
        slot_positions(r) == slot_positions(*v),
{
    BufferSlots { ids: v.ids.clone() }
}

impl Clone for BufferSlots {
    fn clone(&self) -> (r: Self)
        ensures
            slot_positions(r) == slot_positions(*self),
    {
        slots_clone(self)
    }
}

/// `SmallVec::from_elem` (what `smallvec![elem; n]` expands to): `n` copies of `elem`.
#[verifier::external_body]
pub(crate) fn slots_from_elem(elem: BufferId, n: usize) -> (r: BufferSlots)
    ensures
        slot_positions(r) == Seq::new(n as nat, |_i: int| elem.position()),
{
    BufferSlots { ids: SmallVec::from_elem(elem, n) }
}

/// Indexing a `SmallVec` (`Index<usize>`): the id at `index`.
#[verifier::external_body]
pub(crate) fn slots_get(v: &BufferSlots, index: usize) -> (r: BufferId)
    requires
        index < slot_positions(*v).len(),
    ensures
        r.position() == slot_positions(*v)[index as int],
{
    v.ids[index]
}

/// Writing through `IndexMut<usize>` of a `SmallVec`: replaces the id at `index`.
#[verifier::external_body]
pub(crate) fn slots_set(v: &mut BufferSlots, index: usize, id: BufferId)
    requires
        index < slot_positions(*old(v)).len(),
    ensures
        slot_positions(*final(v)) == slot_positions(*old(v)).update(index as int, id.position()),
{
    v.ids[index] = id;
}

/// `SmallVec::as_slice`: the ids in index order.
#[verifier::external_body]
pub(crate) fn slots_as_slice(v: &BufferSlots) -> (r: &[BufferId])
    ensures
        buffer_positions(r@) == slot_positions(*v),
{
    v.ids.as_slice()
}

} // verus!
