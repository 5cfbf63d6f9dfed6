//! Indexing containers by ids.

use vstd::prelude::*;

use crate::id::NumericId;

verus! {

/// A container that can be indexed by a numeric id.
pub trait IndexById {
    type Output;

    /// The number of ids that index an element of the container.
    spec fn id_count(&self) -> nat;

    /// The element that the id at position `index` refers to.
    spec fn element_at(&self, index: int) -> Self::Output;

    fn index_by_id<I: NumericId>(&self, id: I) -> (r: &Self::Output)
        requires
            id.position() < self.id_count(),
        ensures
            *r == self.element_at(id.position() as int),
    ;
}

/// Mutable version of [`IndexById`].
pub trait IndexByIdMut: IndexById {
    fn index_by_id_mut<I: NumericId>(&mut self, id: I) -> (r: &mut Self::Output)
        requires
            id.position() < old(self).id_count(),
        ensures
            *r == old(self).element_at(id.position() as int),
            final(self).id_count() == old(self).id_count(),
            final(self).element_at(id.position() as int) == *final(r),
            forall|k: int|
                0 <= k < old(self).id_count() && k != id.position()
                    ==> #[trigger] final(self).element_at(k) == old(self).element_at(k),
    ;
}

impl<T> IndexById for Vec<T> {
    type Output = T;

    open spec fn id_count(&self) -> nat {
        self@.len()
    }

    open spec fn element_at(&self, index: int) -> T {
        self@[index]
    }

    fn index_by_id<I: NumericId>(&self, id: I) -> (r: &T) {
        &self[id.as_index()]
    }
}

impl<T> IndexByIdMut for Vec<T> {
    fn index_by_id_mut<I: NumericId>(&mut self, id: I) -> (r: &mut T) {
        &mut self[id.as_index()]
    }
}

} // verus!
