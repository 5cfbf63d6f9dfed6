//! Handing out buffer ids while buffers are assigned: the connections of a
//! pipeline are live from their source's turn to their reader's turn, and each
//! takes an id when it starts and gives it back when it ends.

use vstd::prelude::*;

use crate::id::{IncrementalId, NumericId};
use crate::pipeline::BufferId;

verus! {

/// Hands out buffer ids like a sequence of allocations: a freed id is handed out
/// again before a new one.
#[derive(Debug)]
pub(crate) struct BufferIdAllocator {
    pub(crate) unused: Vec<BufferId>,
    pub(crate) free: BufferId,
}

/// Position of the placeholder id, which stands for an unclaimed buffer slot.
pub open spec fn placeholder_position() -> nat {
    (u32::MAX - 1) as nat
}

/// An id handed out by an allocator whose next new id is `free`: either below
/// it, or the placeholder once the ids have run out.
pub open spec fn issued_before(p: nat, free: nat) -> bool {
    p < free || p == placeholder_position()
}

impl BufferIdAllocator {
    /// The positions of the freed ids that wait to be handed out again.
    pub(crate) closed spec fn unused_positions(&self) -> Seq<nat> {
        Seq::new(self.unused@.len(), |i: int| self.unused@[i].position())
    }

    /// The position of the next new id.
    pub(crate) closed spec fn next_new(&self) -> nat {
        self.free.position()
    }

    pub(crate) closed spec fn wf(&self) -> bool {
        &&& self.unused_positions().no_duplicates()
        &&& forall|i: int|
            0 <= i < self.unused@.len() ==> issued_before(#[trigger] self.unused@[i].position(), self.free.position())
        &&& self.free.position() < BufferId::limit()
    }

    pub(crate) fn new() -> (r: Self)
        ensures
            r.wf(),
            r.unused_positions() == Seq::<nat>::empty(),
            r.next_new() == 0,
    {
        let r = BufferIdAllocator { unused: Vec::new(), free: BufferId::first() };
        assert(r.unused_positions() =~= Seq::<nat>::empty());
        r
    }

    /// Hands out a freed id if there is one, else a new one.
    pub(crate) fn allocate(&mut self) -> (r: BufferId)
        requires
            old(self).wf(),
        ensures
            final(self).wf(),
            old(self).unused_positions().len() > 0 ==> {
                &&& old(self).unused_positions().contains(r.position())
                &&& final(self).unused_positions().to_set() == old(self).unused_positions().to_set().remove(
                    r.position(),
                )
                &&& final(self).next_new() == old(self).next_new()
            },
            old(self).unused_positions().len() == 0 ==> {
                &&& r.position() == old(self).next_new()
                &&& final(self).unused_positions() == Seq::<nat>::empty()
                &&& final(self).next_new() == crate::id::next_position(
                    old(self).next_new(),
                    BufferId::limit(),
                )
            },
            issued_before(r.position(), final(self).next_new()),
            old(self).next_new() <= final(self).next_new(),
    {
        let ghost before = self.unused_positions();
        if let Some(reused) = self.unused.pop() {
            proof {
                let after = self.unused_positions();
                assert(before =~= after.push(reused.position()));
                assert(before[before.len() - 1] == reused.position());
                assert(after.no_duplicates()) by {
                    assert forall|i: int, j: int| 0 <= i < after.len() && 0 <= j < after.len() && i != j implies after[i]
                        != after[j] by {
                        assert(before[i] == after[i] && before[j] == after[j]);
                    }
                }
                assert(after.to_set() =~= before.to_set().remove(reused.position())) by {
                    assert forall|x: nat| after.to_set().contains(x) <==> before.to_set().remove(
                        reused.position(),
                    ).contains(x) by {
                        if after.contains(x) {
                            let i = choose|i: int| 0 <= i < after.len() && after[i] == x;
                            assert(before[i] == x);
                            assert(x != reused.position());
                        }
                        if before.contains(x) && x != reused.position() {
                            let i = choose|i: int| 0 <= i < before.len() && before[i] == x;
                            assert(i != before.len() - 1);
                            assert(after[i] == x);
                        }
                    }
                }
                assert(issued_before(before[before.len() - 1], self.free.position()));
            }
            return reused;
        }
        let id = self.free;
        self.free = id.next();
        proof {
            assert(self.unused_positions() =~= Seq::<nat>::empty());
        }
        id
    }

    /// Returns an id to the pool of freed ids (a set: freeing twice keeps one).
    pub(crate) fn free(&mut self, id: BufferId)
        requires
            old(self).wf(),
            issued_before(id.position(), old(self).next_new()),
        ensures
            final(self).wf(),
            final(self).unused_positions().to_set() == old(self).unused_positions().to_set().insert(
                id.position(),
            ),
            final(self).next_new() == old(self).next_new(),
    {
        let ghost before = self.unused_positions();
        let mut i: usize = 0;
        let n = self.unused.len();
        while i < n
            invariant
                n == self.unused@.len(),
                before == self.unused_positions(),
                self.wf(),
                0 <= i <= n,
                forall|j: int| 0 <= j < i ==> before[j] != id.position(),
            decreases n - i,
        {
            if self.unused[i] == id {
                proof {
                    assert(before[i as int] == id.position());
                    assert(before.to_set().insert(id.position()) =~= before.to_set());
                }
                return;
            }
            assert(before[i as int] != id.position()) by {
                if before[i as int] == id.position() {
                    BufferId::lemma_position_injective(self.unused@[i as int], id);
                }
            }
            i = i + 1;
        }
        self.unused.push(id);
        proof {
            let after = self.unused_positions();
            assert(after =~= before.push(id.position()));
            assert(after.no_duplicates()) by {
                assert forall|a: int, b: int| 0 <= a < after.len() && 0 <= b < after.len() && a != b implies after[a]
                    != after[b] by {
                    if a < before.len() && b < before.len() {
                        assert(before[a] == after[a] && before[b] == after[b]);
                    }
                }
            }
            assert(after.to_set() =~= before.to_set().insert(id.position())) by {
                assert forall|x: nat| after.to_set().contains(x) <==> before.to_set().insert(id.position()).contains(
                    x,
                ) by {
                    if after.contains(x) {
                        let j = choose|j: int| 0 <= j < after.len() && after[j] == x;
                        if j < before.len() {
                            assert(before[j] == x);
                        }
                    }
                    if before.contains(x) {
                        let j = choose|j: int| 0 <= j < before.len() && before[j] == x;
                        assert(after[j] == x);
                    }
                    if x == id.position() {
                        assert(after[before.len() as int] == x);
                    }
                }
            }
        }
    }

    /// The number of new ids handed out so far.
    pub(crate) fn issued(&self) -> (r: usize)
        ensures
            r == self.next_new(),
    {
        self.free.as_index()
    }
}

} // verus!
