//! Duplicating values that cannot always be copied.

use vstd::prelude::*;

use crate::id::IdContainer;

verus! {

/// A variant of `Clone` for types whose values cannot always be copied:
/// `dupe` gives a copy, or `None` when there is none to give.
pub trait Dupe: Sized {
    /// A copy of the value, if one can be made. Unless a type says otherwise,
    /// none can.
    fn dupe(&self) -> (r: Option<Self>)
        default_ensures
            r is None,
    {
        None
    }
}

/// Whether `copies` holds, item by item, a copy that `dupe` can give of each
/// item of `items`.
pub open spec fn duped_items<T: Dupe>(items: Seq<T>, copies: Seq<T>) -> bool {
    &&& copies.len() == items.len()
    &&& forall|i: int| 0 <= i < items.len() ==> call_ensures(T::dupe, (&items[i],), Some(#[trigger] copies[i]))
}

/// Whether `dupe` can fail on some item of `items`.
pub open spec fn some_item_refuses<T: Dupe>(items: Seq<T>) -> bool {
    exists|i: int| 0 <= i < items.len() && call_ensures(T::dupe, (&#[trigger] items[i],), None::<T>)
}

impl<T: Dupe> Dupe for Vec<T> {
    /// Dupes the items in order; fails as soon as one of them fails.
    fn dupe(&self) -> (r: Option<Self>)
        ensures
            r matches Some(v) ==> duped_items(self@, v@),
            r is None ==> some_item_refuses(self@),
    {
        let mut copies: Vec<T> = Vec::with_capacity(self.len());
        for i in 0..self.len()
            invariant
                copies@.len() == i,
                forall|j: int| 0 <= j < i ==> call_ensures(T::dupe, (&self@[j],), Some(#[trigger] copies@[j])),
        {
            match self[i].dupe() {
                Some(c) => copies.push(c),
                None => {
                    assert(call_ensures(T::dupe, (&self@[i as int],), None::<T>));
                    return None;
                },
            }
        }
        Some(copies)
    }
}

/// `<[T; N]>::try_from(Vec<T>)`: the vector's items as an array, given that
/// there are exactly `N` of them.
#[verifier::external_body]
fn vec_into_array<T, const N: usize>(v: Vec<T>) -> (r: [T; N])
    requires
        v@.len() == N,
    ensures
        r@ == v@,
{
    <[T; N]>::try_from(v).ok().unwrap()
}

impl<T: Dupe, const N: usize> Dupe for [T; N] {
    /// Dupes every item, then gives the copies if all of them could be made.
    fn dupe(&self) -> (r: Option<Self>)
        ensures
            r matches Some(v) ==> duped_items(self@, v@),
            r is None ==> some_item_refuses(self@),
    {
        let mut attempts: Vec<Option<T>> = Vec::new();
        for i in 0..N
            invariant
                self@.len() == N,
                attempts@.len() == i,
                forall|j: int| 0 <= j < i ==> call_ensures(T::dupe, (&self@[j],), #[trigger] attempts@[j]),
        {
            attempts.push(self[i].dupe());
        }
        let ghost tried = attempts@;
        let mut copies: Vec<T> = Vec::new();
        for j in 0..N
            invariant
                self@.len() == N,
                attempts@.len() == N,
                copies@.len() == j,
                forall|m: int| j <= m < N ==> #[trigger] attempts@[m] == tried[m],
                forall|m: int| 0 <= m < N ==> call_ensures(T::dupe, (&self@[m],), #[trigger] tried[m]),
                forall|m: int| 0 <= m < j ==> call_ensures(T::dupe, (&self@[m],), Some(#[trigger] copies@[m])),
        {
            let mut attempt: Option<T> = None;
            std::mem::swap(&mut attempt, &mut attempts[j]);
            match attempt {
                Some(c) => copies.push(c),
                None => {
                    assert(call_ensures(T::dupe, (&self@[j as int],), None::<T>));
                    return None;
                },
            }
        }
        Some(vec_into_array(copies))
    }
}

impl<T: Dupe> Dupe for Option<T> {
    /// `None` is always copied; a `Some` is copied when its value's `dupe`
    /// gives a copy, and otherwise there is no copy.
    fn dupe(&self) -> (r: Option<Self>)
        ensures
            self is None ==> r == Some(None::<T>),
            self matches Some(x) ==> (r matches Some(inner) ==> (inner matches Some(c) && call_ensures(
                T::dupe,
                (&x,),
                Some(c),
            ))),
            self matches Some(x) ==> (r is None ==> call_ensures(T::dupe, (&x,), None::<T>)),
    {
        match self {
            Some(x) => match x.dupe() {
                Some(c) => Some(Some(c)),
                None => None,
            },
            None => Some(None),
        }
    }
}

impl<T: Dupe> Dupe for IdContainer<T> {
    /// Dupes the items of the container, as a `Vec` does.
    fn dupe(&self) -> (r: Option<Self>)
        ensures
            r matches Some(c) ==> duped_items(self@, c@),
            r is None ==> some_item_refuses(self@),
    {
        match self.as_inner().dupe() {
            Some(v) => Some(IdContainer::new(v)),
            None => None,
        }
    }
}

} // verus!
