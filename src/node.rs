use vstd::prelude::*;

use crate::vector::{VectorID, SENTINEL};

verus! {

/// The fan-out of an upper-layer node; ground-layer nodes hold twice as many.
pub const M: usize = 32;

/// The number of slots of a ground-layer node.
pub const BASE_SLOTS: usize = 64;

/// Once a slot is empty, every later slot is empty too.
pub open spec fn valid_prefix(s: Seq<VectorID>) -> bool {
    forall|i: int, j: int| 0 <= i < j < s.len() && !(#[trigger] s[i]).is_valid() ==> !(#[trigger] s[j]).is_valid()
}

/// The number of valid slots from `i` up to the first empty one.
pub open spec fn valid_run(s: Seq<VectorID>, i: int) -> nat
    decreases s.len() - i,
{
    if i < 0 || i >= s.len() || !s[i].is_valid() {
        0
    } else {
        1 + valid_run(s, i + 1)
    }
}

/// The neighbours a node lists: its slots up to the first empty one.
pub open spec fn neighbors(s: Seq<VectorID>) -> Seq<VectorID> {
    s.take(valid_run(s, 0) as int)
}

pub proof fn lemma_valid_run(s: Seq<VectorID>, i: int)
    requires
        0 <= i <= s.len(),
    ensures
        i + valid_run(s, i) <= s.len(),
        forall|k: int| i <= k < i + valid_run(s, i) ==> (#[trigger] s[k]).is_valid(),
        i + valid_run(s, i) < s.len() ==> !s[i + valid_run(s, i)].is_valid(),
    decreases s.len() - i,
{
    if i < s.len() && s[i].is_valid() {
        lemma_valid_run(s, i + 1);
    }
}

/// The neighbours of a node are its valid slots, in order.
pub proof fn lemma_neighbors(s: Seq<VectorID>)
    ensures
        neighbors(s).len() <= s.len(),
        forall|k: int| 0 <= k < neighbors(s).len() ==> (#[trigger] neighbors(s)[k]).is_valid() && neighbors(s)[k] == s[k],
        neighbors(s).len() < s.len() ==> !s[neighbors(s).len() as int].is_valid(),
{
    lemma_valid_run(s, 0);
}

/// Yields the valid neighbours of one node, in stored order, and stops at the
/// first empty slot.
pub struct NearestIter {
    node: Vec<VectorID>,
    current: usize,
}

impl NearestIter {
    /// What remains to be yielded.
    pub closed spec fn remaining(&self) -> Seq<VectorID> {
        neighbors(self.node@.skip(self.current as int))
    }

    pub closed spec fn wf(&self) -> bool {
        self.current <= self.node@.len()
    }

    /// An iterator over the neighbours listed in `node`.
    pub fn new(node: Vec<VectorID>) -> (r: Self)
        ensures
            r.wf(),
            r.remaining() == neighbors(node@),
    {
        let r = NearestIter { node, current: 0 };
        assert(r.node@.skip(0) =~= node@);
        r
    }

    /// The next neighbour, or `None` once an empty slot or the end is reached.
    pub fn next(&mut self) -> (r: Option<VectorID>)
        requires
            old(self).wf(),
        ensures
            final(self).wf(),
            old(self).remaining().len() == 0 ==> r.is_none() && final(self).remaining().len() == 0,
            old(self).remaining().len() > 0 ==> r == Some(old(self).remaining()[0])
                && final(self).remaining() == old(self).remaining().drop_first(),
            r is Some ==> r->Some_0.is_valid(),
    {
        proof {
            lemma_neighbors(self.node@.skip(self.current as int));
        }
        if self.current >= self.node.len() {
            return None;
        }
        let item = self.node[self.current];
        if !item.is_valid() {
            self.current = self.node.len();
            assert(self.node@.skip(self.current as int).len() == 0);
            assert(valid_run(self.node@.skip(self.current as int), 0) == 0);
            return None;
        }
        proof {
            let s = old(self).node@.skip(old(self).current as int);
            let t = s.skip(1);
            assert(t =~= old(self).node@.skip(old(self).current + 1));
            assert(valid_run(s, 0) == 1 + valid_run(s, 1));
            lemma_run_shift(s, 1, valid_run(s, 1) as int);
            lemma_valid_run(s, 0);
            assert(valid_run(t, 0) == valid_run(s, 1));
            assert(neighbors(t).len() == neighbors(s).len() - 1);
            assert forall|k: int| 0 <= k < neighbors(t).len() implies #[trigger] neighbors(t)[k]
                == neighbors(s).drop_first()[k] by {
                assert(neighbors(t)[k] == t[k]);
                assert(t[k] == s[k + 1]);
            }
            assert(neighbors(t) =~= neighbors(s).drop_first());
        }
        self.current = self.current + 1;
        Some(item)
    }
}

/// The valid run of a suffix starts where the valid run of the whole left off.
proof fn lemma_run_shift(s: Seq<VectorID>, k: int, n: int)
    requires
        0 <= k <= s.len(),
        n == valid_run(s, k),
    ensures
        valid_run(s.skip(k), 0) == n,
{
    lemma_run_skip(s, k, 0);
}

proof fn lemma_run_skip(s: Seq<VectorID>, k: int, i: int)
    requires
        0 <= k <= s.len(),
        0 <= i <= s.len() - k,
    ensures
        valid_run(s.skip(k), i) == valid_run(s, k + i),
    decreases s.len() - k - i,
{
    if i < s.len() - k {
        lemma_run_skip(s, k, i + 1);
    }
}

/// A layer identifier: 0 is the ground layer.
#[derive(Clone, Copy, Debug, PartialEq, Eq, Structural, Hash)]
pub struct LayerID(pub usize);

impl LayerID {
    /// The layers from this one down to the ground: `L, L-1, ..., 0`.
    pub fn descend(&self) -> (r: Vec<LayerID>)
        ensures
            r@.len() == self.0 + 1,
            forall|i: int| 0 <= i < r@.len() ==> (#[trigger] r@[i]).0 == self.0 - i,
    {
        let mut r: Vec<LayerID> = Vec::new();
        let mut next: usize = self.0;
        loop
            invariant_except_break
                next <= self.0,
                r@.len() == self.0 - next,
                forall|i: int| 0 <= i < r@.len() ==> (#[trigger] r@[i]).0 == self.0 - i,
            ensures
                r@.len() == self.0 + 1,
                forall|i: int| 0 <= i < r@.len() ==> (#[trigger] r@[i]).0 == self.0 - i,
            decreases next,
        {
            r.push(LayerID(next));
            if next == 0 {
                break;
            }
            next = next - 1;
        }
        r
    }

    /// True for the ground layer.
    pub fn is_zero(&self) -> (r: bool)
        ensures
            r == (self.0 == 0),
    {
        self.0 == 0
    }
}

/// The content of a node after `id` is inserted at `index`: later slots move
/// one place up when the slot was taken, and the last one falls off.
pub open spec fn inserted_at(s: Seq<VectorID>, index: int, id: VectorID) -> Seq<VectorID> {
    if index < 0 || index >= s.len() {
        s
    } else if s[index].is_valid() {
        s.take(index).push(id) + s.subrange(index, s.len() - 1)
    } else {
        s.update(index, id)
    }
}

/// The content of a node after `allocate(ids)`: the identifiers first, then
/// empty slots up to and including the first slot that was already empty.
pub open spec fn allocated(s: Seq<VectorID>, ids: Seq<VectorID>) -> Seq<VectorID> {
    Seq::new(
        s.len(),
        |i: int|
            if i < ids.len() {
                ids[i]
            } else if forall|j: int| ids.len() <= j < i ==> (#[trigger] s[j]).is_valid() {
                VectorID(SENTINEL)
            } else {
                s[i]
            },
    )
}

fn slots_insert(slots: &mut Vec<VectorID>, index: usize, vector_id: VectorID)
    requires
        old(slots)@.len() > 0,
    ensures
        final(slots)@ == inserted_at(old(slots)@, index as int, vector_id),
{
    let n = slots.len();
    if index >= n {
        return;
    }
    if slots[index].is_valid() {
        let mut k: usize = n - 1;
        while k > index
            invariant
                index < n,
                n == slots@.len() == old(slots)@.len(),
                index <= k < n,
                forall|j: int| 0 <= j <= k ==> #[trigger] slots@[j] == old(slots)@[j],
                forall|j: int| k < j < n ==> #[trigger] slots@[j] == old(slots)@[j - 1],
            decreases k,
        {
            let prev = slots[k - 1];
            slots.set(k, prev);
            k = k - 1;
        }
        slots.set(index, vector_id);
        assert(slots@ =~= inserted_at(old(slots)@, index as int, vector_id));
    } else {
        slots.set(index, vector_id);
        assert(slots@ =~= inserted_at(old(slots)@, index as int, vector_id));
    }
}

/// The content of a node after the slot at `index` is removed: later slots
/// move one place down and an empty slot fills the end.
pub open spec fn removed_at(s: Seq<VectorID>, index: int) -> Seq<VectorID> {
    s.remove(index).push(VectorID(SENTINEL))
}

fn slots_remove(slots: &mut Vec<VectorID>, index: usize)
    requires
        index < old(slots)@.len(),
    ensures
        final(slots)@ == removed_at(old(slots)@, index as int),
{
    let n = slots.len();
    let mut k: usize = index;
    while k + 1 < n
        invariant
            n == slots@.len() == old(slots)@.len(),
            index <= k < n,
            forall|j: int| 0 <= j < index ==> #[trigger] slots@[j] == old(slots)@[j],
            forall|j: int| index <= j < k ==> #[trigger] slots@[j] == old(slots)@[j + 1],
            forall|j: int| k <= j < n ==> #[trigger] slots@[j] == old(slots)@[j],
        decreases n - k,
    {
        let next = slots[k + 1];
        slots.set(k, next);
        k = k + 1;
    }
    slots.set(n - 1, VectorID(SENTINEL));
    assert(slots@ =~= removed_at(old(slots)@, index as int));
}

fn slots_allocate(slots: &mut Vec<VectorID>, ids: &Vec<VectorID>)
    ensures
        final(slots)@ == allocated(old(slots)@, ids@),
{
    let n = slots.len();
    let mut i: usize = 0;
    while i < n
        invariant
            n == slots@.len() == old(slots)@.len(),
            i <= n,
            forall|j: int| 0 <= j < i ==> #[trigger] slots@[j] == allocated(old(slots)@, ids@)[j],
            forall|j: int| i <= j < n ==> #[trigger] slots@[j] == old(slots)@[j],
            i > ids@.len() ==> forall|j: int| ids@.len() <= j < i ==> (#[trigger] old(slots)@[j]).is_valid(),
        decreases n - i,
    {
        if i < ids.len() {
            slots.set(i, ids[i]);
        } else if slots[i].is_valid() {
            slots.set(i, VectorID(SENTINEL));
        } else {
            proof {
                assert forall|j: int| i <= j < n implies #[trigger] slots@[j] == allocated(
                    old(slots)@,
                    ids@,
                )[j] by {
                    assert(!(old(slots)@[i as int]).is_valid());
                    if j > i {
                        assert(!(forall|t: int|
                            ids@.len() <= t < j ==> (#[trigger] old(slots)@[t]).is_valid()));
                    }
                }
                assert(slots@ =~= allocated(old(slots)@, ids@));
            }
            return;
        }
        i = i + 1;
    }
    assert(slots@ =~= allocated(old(slots)@, ids@));
}

/// A ground-layer node: `2 * M` neighbour slots.
#[derive(Clone, Debug)]
pub struct BaseNode(Vec<VectorID>);

/// An upper-layer node: `M` neighbour slots.
#[derive(Clone, Debug)]
pub struct UpperNode(Vec<VectorID>);

impl BaseNode {
    pub closed spec fn slots(&self) -> Seq<VectorID> {
        self.0@
    }

    /// A node holding exactly `slots`.
    pub fn from_slots(slots: Vec<VectorID>) -> (r: Self)
        requires
            slots@.len() == BASE_SLOTS,
        ensures
            r.slots() == slots@,
    {
        BaseNode(slots)
    }

    /// A node with every slot empty.
    pub fn new() -> (r: Self)
        ensures
            r.slots() == Seq::new(BASE_SLOTS as nat, |i: int| VectorID(SENTINEL)),
    {
        let r = BaseNode(vec![VectorID(SENTINEL); BASE_SLOTS]);
        assert(r.slots() =~= Seq::new(BASE_SLOTS as nat, |i: int| VectorID(SENTINEL)));
        r
    }

    /// Writes `ids` from the first slot on and empties the slots after them
    /// up to the first one that was empty already.
    pub fn allocate(&mut self, ids: &Vec<VectorID>)
        ensures
            final(self).slots() == allocated(old(self).slots(), ids@),
    {
        slots_allocate(&mut self.0, ids);
    }

    /// Inserts `vector_id` at `index`, shifting the later slots up when that
    /// slot is taken; an index past the end changes nothing.
    pub fn insert(&mut self, index: usize, vector_id: &VectorID)
        requires
            old(self).slots().len() > 0,
        ensures
            final(self).slots() == inserted_at(old(self).slots(), index as int, *vector_id),
    {
        slots_insert(&mut self.0, index, *vector_id);
    }

    /// Removes the slot at `index`, moving the later slots down and leaving
    /// the last slot empty.
    pub fn remove(&mut self, index: usize)
        requires
            index < old(self).slots().len(),
        ensures
            final(self).slots() == removed_at(old(self).slots(), index as int),
    {
        slots_remove(&mut self.0, index);
    }

    /// Sets the slot at `index`.
    pub fn set(&mut self, index: usize, vector_id: &VectorID)
        requires
            index < old(self).slots().len(),
        ensures
            final(self).slots() == old(self).slots().update(index as int, *vector_id),
    {
        self.0.set(index, *vector_id);
    }

    /// The slot at `index`.
    pub fn get(&self, index: usize) -> (r: VectorID)
        requires
            index < self.slots().len(),
        ensures
            r == self.slots()[index as int],
    {
        self.0[index]
    }

    /// A copy of every slot.
    pub fn to_vec(&self) -> (r: Vec<VectorID>)
        ensures
            r@ == self.slots(),
    {
        self.0.clone()
    }

    /// The valid neighbours of this node, in stored order.
    pub fn nearest_iter(&self) -> (r: NearestIter)
        ensures
            r.wf(),
            r.remaining() == neighbors(self.slots()),
    {
        NearestIter::new(self.0.clone())
    }
}

impl UpperNode {
    pub closed spec fn slots(&self) -> Seq<VectorID> {
        self.0@
    }

    /// A node holding exactly `slots`.
    pub fn from_slots(slots: Vec<VectorID>) -> (r: Self)
        requires
            slots@.len() == M,
        ensures
            r.slots() == slots@,
    {
        UpperNode(slots)
    }

    /// A node with every slot empty.
    pub fn new() -> (r: Self)
        ensures
            r.slots() == Seq::new(M as nat, |i: int| VectorID(SENTINEL)),
    {
        let r = UpperNode(vec![VectorID(SENTINEL); M]);
        assert(r.slots() =~= Seq::new(M as nat, |i: int| VectorID(SENTINEL)));
        r
    }

    /// The first `M` slots of a ground-layer node.
    pub fn from_zero(node: &BaseNode) -> (r: Self)
        requires
            node.slots().len() >= M,
        ensures
            r.slots() == node.slots().take(M as int),
    {
        let mut nearest: Vec<VectorID> = Vec::with_capacity(M);
        let mut i: usize = 0;
        while i < M
            invariant
                i <= M <= node.slots().len(),
                nearest@ == node.slots().take(i as int),
            decreases M - i,
        {
            nearest.push(node.get(i));
            assert(nearest@ =~= node.slots().take(i + 1));
            i = i + 1;
        }
        UpperNode(nearest)
    }

    /// Writes `ids` from the first slot on and empties the slots after them
    /// up to the first one that was empty already.
    pub fn allocate(&mut self, ids: &Vec<VectorID>)
        ensures
            final(self).slots() == allocated(old(self).slots(), ids@),
    {
        slots_allocate(&mut self.0, ids);
    }

    /// Inserts `vector_id` at `index`, shifting the later slots up when that
    /// slot is taken; an index past the end changes nothing.
    pub fn insert(&mut self, index: usize, vector_id: &VectorID)
        requires
            old(self).slots().len() > 0,
        ensures
            final(self).slots() == inserted_at(old(self).slots(), index as int, *vector_id),
    {
        slots_insert(&mut self.0, index, *vector_id);
    }

    /// Removes the slot at `index`, moving the later slots down and leaving
    /// the last slot empty.
    pub fn remove(&mut self, index: usize)
        requires
            index < old(self).slots().len(),
        ensures
            final(self).slots() == removed_at(old(self).slots(), index as int),
    {
        slots_remove(&mut self.0, index);
    }

    /// Sets the slot at `index`.
    pub fn set(&mut self, index: usize, vector_id: &VectorID)
        requires
            index < old(self).slots().len(),
        ensures
            final(self).slots() == old(self).slots().update(index as int, *vector_id),
    {
        self.0.set(index, *vector_id);
    }

    /// The slot at `index`.
    pub fn get(&self, index: usize) -> (r: VectorID)
        requires
            index < self.slots().len(),
        ensures
            r == self.slots()[index as int],
    {
        self.0[index]
    }

    /// A copy of every slot.
    pub fn to_vec(&self) -> (r: Vec<VectorID>)
        ensures
            r@ == self.slots(),
    {
        self.0.clone()
    }

    /// The valid neighbours of this node, in stored order.
    pub fn nearest_iter(&self) -> (r: NearestIter)
        ensures
            r.wf(),
            r.remaining() == neighbors(self.slots()),
    {
        NearestIter::new(self.0.clone())
    }
}

} // verus!
