//! Incremental ids, sequences of them, and containers indexed by them.

use vstd::prelude::*;

mod container;
mod index;

pub use container::IdContainer;
pub use index::{IndexById, IndexByIdMut};

verus! {

/// An identifier that can produce its successor.
///
/// The ids of a type form a sequence `first(), first().next(), ...`; `position`
/// is the place of an id in that sequence and `limit` the number of distinct ids.
/// `next` saturates at the last id of the sequence.
pub trait IncrementalId: Sized {
    spec fn position(&self) -> nat;

    spec fn limit() -> nat;

    /// Ids at the same position are the same id.
    proof fn lemma_same_position_same_id(a: Self, b: Self)
        requires
            a.position() == b.position(),
        ensures
            a == b,
    ;

    /// The first id of the sequence.
    fn first() -> (r: Self)
        ensures
            r.position() == 0,
            Self::limit() > 0,
    ;

    /// The id that follows `self`, or `self` when it is the last one.
    fn next(&self) -> (r: Self)
        requires
            self.position() < Self::limit(),
        ensures
            r.position() == next_position(self.position(), Self::limit()),
    ;
}

/// The position that follows `pos` in a sequence of `limit` ids.
pub open spec fn next_position(pos: nat, limit: nat) -> nat {
    if pos + 1 < limit {
        (pos + 1) as nat
    } else {
        pos
    }
}

/// Allows an [`IncrementalId`] to be used as an index into containers.
///
/// The index of an id is its position in the id sequence.
pub trait NumericId: IncrementalId {
    fn as_index(&self) -> (r: usize)
        ensures
            r == self.position(),
            self.position() < Self::limit(),
    ;

    fn from_index(index: usize) -> (r: Self)
        requires
            index < Self::limit(),
        ensures
            r.position() == index,
    ;
}

/// Continuously yields incremental ids in the order [`IncrementalId::next`] provides them.
#[derive(Debug, Clone)]
pub struct IdSequence<I: IncrementalId> {
    next: I,
}

impl<I: IncrementalId> IdSequence<I> {
    /// The position of the id that the next call of `next_id` returns.
    pub closed spec fn upcoming(&self) -> nat {
        self.next.position()
    }

    pub closed spec fn wf(&self) -> bool {
        self.next.position() < I::limit()
    }

    pub fn new() -> (r: Self)
        ensures
            r.wf(),
            r.upcoming() == 0,
    {
        IdSequence { next: I::first() }
    }

    /// Returns the upcoming id and advances the sequence.
    pub fn next_id(&mut self) -> (r: I)
        requires
            old(self).wf(),
        ensures
            final(self).wf(),
            r.position() == old(self).upcoming(),
            final(self).upcoming() == next_position(old(self).upcoming(), I::limit()),
    {
        let mut next = self.next.next();
        std::mem::swap(&mut next, &mut self.next);
        next
    }
}

impl<I: IncrementalId> Default for IdSequence<I> {
    fn default() -> (r: Self)
        ensures
            r.wf(),
            r.upcoming() == 0,
    {
        Self::new()
    }
}

/// Two calls of `next_id` on a sequence that has not reached its last id give
/// different ids, the second one directly after the first.
pub proof fn lemma_sequence_ids_distinct(pos: nat, limit: nat)
    requires
        pos + 1 < limit,
    ensures
        next_position(pos, limit) == pos + 1,
        next_position(pos, limit) != pos,
{
}

} // verus!
