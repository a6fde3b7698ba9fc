use vstd::prelude::*;

use crate::vector::VectorID;

verus! {

/// The generation at which the backing store is wiped and counting restarts.
pub const LAST_GENERATION: u8 = 249;

/// A set of vector identifiers with constant-time clearing: a slot is in the
/// set when it holds the current generation, and clearing advances the
/// generation instead of wiping the store.
#[derive(Clone)]
pub struct Visited {
    store: Vec<u8>,
    generation: u8,
}

/// The state of a visited set: its backing store and its generation.
pub type VisitedState = (Seq<u8>, u8);

/// The generation lies in `[1, 249)` and no slot is ahead of it.
pub open spec fn state_wf(s: VisitedState) -> bool {
    &&& 1 <= s.1 < LAST_GENERATION
    &&& forall|i: int| 0 <= i < s.0.len() ==> #[trigger] s.0[i] <= s.1
}

/// Membership of each identifier below the capacity.
pub open spec fn members(s: VisitedState) -> Seq<bool> {
    Seq::new(s.0.len(), |i: int| s.0[i] == s.1)
}

/// What one call of `clear` makes of a state.
pub open spec fn cleared(s: VisitedState) -> VisitedState {
    if s.1 + 1 < LAST_GENERATION {
        (s.0, (s.1 + 1) as u8)
    } else {
        (Seq::new(s.0.len(), |i: int| 0u8), 1u8)
    }
}

/// The state that `n` consecutive calls of `clear` leave behind.
pub open spec fn cleared_times(s: VisitedState, n: nat) -> VisitedState
    decreases n,
{
    if n == 0 {
        s
    } else {
        cleared(cleared_times(s, (n - 1) as nat))
    }
}

impl Visited {
    pub closed spec fn state(&self) -> VisitedState {
        (self.store@, self.generation)
    }

    pub open spec fn wf(&self) -> bool {
        state_wf(self.state())
    }

    pub open spec fn view(&self) -> Seq<bool> {
        members(self.state())
    }

    pub open spec fn capacity(&self) -> nat {
        self.state().0.len()
    }

    /// An empty set over the identifiers `0..capacity`.
    pub fn with_capacity(capacity: usize) -> (r: Self)
        ensures
            r.wf(),
            r@ == Seq::new(capacity as nat, |i: int| false),
    {
        let store = vec![0u8; capacity];
        let r = Visited { store, generation: 1 };
        assert(r@ =~= Seq::new(capacity as nat, |i: int| false));
        r
    }

    /// Grows or shrinks the range of identifiers; new identifiers are absent.
    pub fn resize_capacity(&mut self, capacity: usize)
        requires
            old(self).wf(),
        ensures
            final(self).wf(),
            capacity <= old(self)@.len() ==> final(self)@ == old(self)@.take(capacity as int),
            capacity > old(self)@.len() ==> final(self)@ == old(self)@ + Seq::new(
                (capacity - old(self)@.len()) as nat,
                |i: int| false,
            ),
    {
        if capacity <= self.store.len() {
            self.store.truncate(capacity);
        } else {
            let fill = self.generation - 1;
            while self.store.len() < capacity
                invariant
                    self.generation == old(self).generation,
                    1 <= fill + 1 == self.generation < LAST_GENERATION,
                    old(self).store@.len() <= self.store@.len() <= capacity,
                    self.store@.subrange(0, old(self).store@.len() as int) == old(self).store@,
                    forall|i: int|
                        old(self).store@.len() <= i < self.store@.len() ==> #[trigger] self.store@[i]
                            == fill,
                decreases capacity - self.store@.len(),
            {
                self.store.push(fill);
                assert(self.store@.subrange(0, old(self).store@.len() as int) =~= old(
                    self,
                ).store@);
            }
            assert forall|i: int| 0 <= i < old(self).store@.len() implies #[trigger] self.store@[i]
                == old(self).store@[i] by {
                assert(self.store@.subrange(0, old(self).store@.len() as int)[i] == self.store@[i]);
            }
        }
        proof {
            if capacity <= old(self)@.len() {
                assert(self@ =~= old(self)@.take(capacity as int));
            } else {
                assert(self@ =~= old(self)@ + Seq::new(
                    (capacity - old(self)@.len()) as nat,
                    |i: int| false,
                ));
            }
        }
    }

    /// Adds `vector_id`; true if it was absent and within the capacity.
    pub fn insert(&mut self, vector_id: &VectorID) -> (r: bool)
        requires
            old(self).wf(),
        ensures
            final(self).wf(),
            final(self).state().1 == old(self).state().1,
            r == (vector_id.0 < old(self)@.len() && !old(self)@[vector_id.0 as int]),
            final(self)@ == if vector_id.0 < old(self)@.len() {
                old(self)@.update(vector_id.0 as int, true)
            } else {
                old(self)@
            },
    {
        let i = vector_id.0 as usize;
        if i >= self.store.len() {
            return false;
        }
        if self.store[i] != self.generation {
            let g = self.generation;
            self.store.set(i, g);
            assert(self@ =~= old(self)@.update(i as int, true));
            return true;
        }
        false
    }

    /// Adds every identifier of `vector_ids`.
    pub fn extend(&mut self, vector_ids: &Vec<VectorID>)
        requires
            old(self).wf(),
        ensures
            final(self).wf(),
            final(self)@.len() == old(self)@.len(),
            forall|i: int|
                0 <= i < old(self)@.len() ==> #[trigger] final(self)@[i] == (old(self)@[i] || exists|j: int|
                    0 <= j < vector_ids@.len() && vector_ids@[j].0 == i),
    {
        let mut k: usize = 0;
        while k < vector_ids.len()
            invariant
                self.wf(),
                k <= vector_ids@.len(),
                self@.len() == old(self)@.len(),
                forall|i: int|
                    0 <= i < old(self)@.len() ==> #[trigger] self@[i] == (old(self)@[i] || exists|j: int|
                        0 <= j < k && vector_ids@[j].0 == i),
            decreases vector_ids@.len() - k,
        {
            let id = vector_ids[k];
            self.insert(&id);
            assert forall|i: int| 0 <= i < old(self)@.len() implies #[trigger] self@[i] == (old(
                self,
            )@[i] || exists|j: int| 0 <= j < k + 1 && vector_ids@[j].0 == i) by {
                if i == id.0 {
                    assert(vector_ids@[k as int].0 == i);
                }
            }
            k = k + 1;
        }
    }

    /// Empties the set in constant time, except once every 248 calls, when
    /// the store is wiped.
    pub fn clear(&mut self)
        requires
            old(self).wf(),
        ensures
            final(self).state() == cleared(old(self).state()),
            final(self).wf(),
            final(self)@ == Seq::new(old(self)@.len(), |i: int| false),
    {
        if self.generation + 1 < LAST_GENERATION {
            self.generation = self.generation + 1;
            assert(self@ =~= Seq::new(old(self)@.len(), |i: int| false));
            return;
        }
        let n = self.store.len();
        self.store = vec![0u8; n];
        self.generation = 1;
        assert(self.store@ =~= Seq::new(old(self).store@.len(), |i: int| 0u8));
        assert(self@ =~= Seq::new(old(self)@.len(), |i: int| false));
    }
}

/// However many times a well-formed set is cleared, it stays well formed,
/// keeps its capacity and holds no identifier, so each identifier within the
/// capacity is inserted afresh (`insert` returns true).
pub proof fn lemma_clear_forgets(s: VisitedState, n: nat)
    requires
        state_wf(s),
    ensures
        state_wf(cleared_times(s, n)),
        cleared_times(s, n).0.len() == s.0.len(),
        n > 0 ==> members(cleared_times(s, n)) == Seq::new(s.0.len(), |i: int| false),
    decreases n,
{
    if n > 0 {
        lemma_clear_forgets(s, (n - 1) as nat);
        let q = cleared_times(s, n);
        assert(members(q) =~= Seq::new(s.0.len(), |i: int| false));
    }
}

} // verus!
