//! A vector indexed by ids.

use vstd::prelude::*;

use crate::id::{IndexById, NumericId};

verus! {

/// A vector that can be indexed by [`NumericId`]s as well as by plain indices.
///
/// The id at position `i` of its id sequence refers to the element at index `i`.
#[derive(Debug, Clone)]
pub struct IdContainer<T> {
    inner: Vec<T>,
}

impl<T> View for IdContainer<T> {
    type V = Seq<T>;

    closed spec fn view(&self) -> Seq<T> {
        self.inner@
    }
}

impl<T> IdContainer<T> {
    pub fn new(a: Vec<T>) -> (r: Self)
        ensures
            r@ == a@,
    {
        IdContainer { inner: a }
    }

    pub fn into_inner(self) -> (r: Vec<T>)
        ensures
            r@ == self@,
    {
        self.inner
    }

    pub fn as_inner(&self) -> (r: &Vec<T>)
        ensures
            r@ == self@,
    {
        &self.inner
    }

    pub fn as_inner_mut(&mut self) -> (r: &mut Vec<T>)
        ensures
            r@ == old(self)@,
            final(self)@ == final(r)@,
    {
        &mut self.inner
    }

    pub fn len(&self) -> (r: usize)
        ensures
            r == self@.len(),
    {
        self.inner.len()
    }

    pub fn is_empty(&self) -> (r: bool)
        ensures
            r == (self@.len() == 0),
    {
        self.inner.len() == 0
    }

    /// Returns the element at `index`, or `None` when the index is out of range.
    pub fn get(&self, index: usize) -> (r: Option<&T>)
        ensures
            index < self@.len() ==> r == Some(&self@[index as int]),
            index >= self@.len() ==> r is None,
    {
        if index < self.inner.len() {
            Some(&self.inner[index])
        } else {
            None
        }
    }

    /// Returns the element that `id` refers to.
    pub fn get_by_id<I: NumericId>(&self, id: I) -> (r: &T)
        requires
            id.position() < self@.len(),
        ensures
            *r == self@[id.position() as int],
    {
        self.inner.index_by_id(id)
    }

    /// Replaces the element that `id` refers to.
    pub fn set_by_id<I: NumericId>(&mut self, id: I, value: T)
        requires
            id.position() < old(self)@.len(),
        ensures
            final(self)@ == old(self)@.update(id.position() as int, value),
    {
        let i = id.as_index();
        self.inner.set(i, value);
    }

    pub fn push(&mut self, value: T)
        ensures
            final(self)@ == old(self)@.push(value),
    {
        self.inner.push(value);
    }

    /// Pairs every element with the id that refers to it, in index order.
    pub fn iter_with_id<I: NumericId>(&self) -> (r: Vec<(I, &T)>)
        requires
            self@.len() <= I::limit(),
        ensures
            r@.len() == self@.len(),
            forall|i: int|
                0 <= i < r@.len() ==> (#[trigger] r@[i]).0.position() == i && *r@[i].1
                    == self@[i],
    {
        let mut out: Vec<(I, &T)> = Vec::new();
        let n = self.inner.len();
        for i in 0..n
            invariant
                n == self@.len(),
                n <= I::limit(),
                out@.len() == i,
                forall|k: int|
                    0 <= k < i ==> (#[trigger] out@[k]).0.position() == k && *out@[k].1
                        == self@[k],
        {
            out.push((I::from_index(i), &self.inner[i]));
        }
        out
    }

    /// Appends `value` and returns the id that refers to it.
    pub fn push_id<I: NumericId>(&mut self, value: T) -> (r: I)
        requires
            old(self)@.len() < I::limit(),
        ensures
            final(self)@ == old(self)@.push(value),
            r.position() == old(self)@.len(),
    {
        let new_idx = self.inner.len();
        self.inner.push(value);
        I::from_index(new_idx)
    }

    /// The id that the next pushed element would get.
    pub fn next_id<I: NumericId>(&self) -> (r: I)
        requires
            self@.len() < I::limit(),
        ensures
            r.position() == self@.len(),
    {
        I::from_index(self.inner.len())
    }
}

impl<T> std::ops::Index<usize> for IdContainer<T> {
    type Output = T;

    fn index(&self, index: usize) -> (r: &T)
        ensures
            *r == self@[index as int],
    {
        &self.inner[index]
    }
}

impl<T> vstd::std_specs::core::IndexSpecImpl<usize> for IdContainer<T> {
    open spec fn index_req(&self, index: &usize) -> bool {
        *index < self@.len()
    }
}

impl<T, I: NumericId> std::ops::Index<I> for IdContainer<T> {
    type Output = T;

    fn index(&self, index: I) -> (r: &T)
        ensures
            *r == self@[index.position() as int],
    {
        self.inner.index_by_id(index)
    }
}

impl<T, I: NumericId> vstd::std_specs::core::IndexSpecImpl<I> for IdContainer<T> {
    open spec fn index_req(&self, index: &I) -> bool {
        index.position() < self@.len()
    }
}

impl<T> Default for IdContainer<T> {
    fn default() -> (r: Self)
        ensures
            r@ == Seq::<T>::empty(),
    {
        IdContainer { inner: Vec::new() }
    }
}

/// The id that `next_id` names is the id that the following `push_id` hands
/// out: both stand at the position of the container's length.
pub proof fn lemma_next_id_then_push_id<T, I: NumericId>(elements: Seq<T>, named: I, pushed: I)
    requires
        named.position() == elements.len(),
        pushed.position() == elements.len(),
    ensures
        named == pushed,
{
    I::lemma_same_position_same_id(named, pushed);
}

/// Reading by the id that `push_id` handed out gives back the pushed value, and
/// the elements already there keep their ids.
pub proof fn lemma_push_id_reads_back<T>(before: Seq<T>, after: Seq<T>, value: T, pos: nat)
    requires
        after == before.push(value),
        pos == before.len(),
    ensures
        after[pos as int] == value,
        forall|i: int| 0 <= i < before.len() ==> #[trigger] after[i] == before[i],
{
}

} // verus!
