use vstd::prelude::*;

use crate::entropy::{next_word, seeded};
use crate::graph::{encode, encodes_graph, lemma_round_trip, Error, Index};
use crate::search::{key_lt, measured, sorted_strict, Candidate};
use crate::vector::{sq_dist, Vector, VectorID, SENTINEL};

verus! {

/// The `ef_search` of a collection that names none.
pub const DEFAULT_EF_SEARCH: usize = 16;

/// The `ef_construction` of a collection that names none.
pub const DEFAULT_EF_CONSTRUCTION: usize = 100;

/// The settings of a database: the embedding dimension, the shared secret of
/// the private endpoints and the persistence directory.
#[derive(Debug)]
pub struct Config {
    pub dimension: usize,
    pub token: String,
    pub path: String,
}

/// A stored record: its key, its embedding and its string metadata.
#[derive(Debug)]
pub struct Record {
    pub key: String,
    pub vector: Vector,
    pub data: Vec<(String, String)>,
}

/// The number of live records out of the identifiers in `slots`.
pub open spec fn live_count(slots: Seq<Option<Record>>) -> nat
    decreases slots.len(),
{
    if slots.len() == 0 {
        0
    } else {
        live_count(slots.drop_last()) + if slots.last() is Some {
            1nat
        } else {
            0nat
        }
    }
}

/// The coordinates of the live records, in identifier order.
pub open spec fn live_coords(slots: Seq<Option<Record>>) -> Seq<Seq<i32>>
    decreases slots.len(),
{
    if slots.len() == 0 {
        Seq::empty()
    } else {
        live_coords(slots.drop_last()) + if slots.last() is Some {
            seq![slots.last()->Some_0.vector.coords()]
        } else {
            Seq::empty()
        }
    }
}

/// `bytes` is the serialized form of a well-formed index `g` of dimension
/// `dimension`, every vector live, over vectors of the coordinates `coords`.
pub open spec fn saved_over(bytes: Seq<u8>, coords: Seq<Seq<i32>>, dimension: nat, g: Index) -> bool {
    &&& g.wf()
    &&& encode(&g) == bytes
    &&& g.spec_dimension() == dimension
    &&& g.n() == coords.len()
    &&& forall|i: int| 0 <= i < g.n() ==> (#[trigger] g.vecs()[i]).coords() == coords[i]
    &&& forall|i: int| 0 <= i < g.n() ==> #[trigger] g.is_live(i)
}

/// Counts that describe a collection.
#[derive(Clone, Copy, Debug, PartialEq, Eq, Structural)]
pub struct Stats {
    /// The live records.
    pub records: usize,
    /// The identifiers handed out, deleted records included.
    pub identifiers: usize,
    /// Whether an index has been built.
    pub built: bool,
}

/// A hit of the index carried over to the record identifier it was built from.
pub open spec fn mapped(map: Seq<VectorID>, h: Candidate) -> Candidate {
    Candidate { distance: h.distance, vector_id: map[h.vector_id.0 as int] }
}

/// `slots` with the record under `key`, if any, removed.
pub open spec fn without_key(slots: Seq<Option<Record>>, key: Seq<char>) -> Seq<Option<Record>> {
    Seq::new(
        slots.len(),
        |i: int|
            if holds_key(slots, i, key) {
                None
            } else {
                slots[i]
            },
    )
}

/// Records under dense identifiers, with an index built over them on demand.
#[derive(Debug)]
pub struct Collection {
    dimension: usize,
    slots: Vec<Option<Record>>,
    index: Option<Index>,
    index_map: Vec<VectorID>,
}

/// True when slot `i` holds a record under `key`.
pub open spec fn holds_key(slots: Seq<Option<Record>>, i: int, key: Seq<char>) -> bool {
    0 <= i < slots.len() && slots[i] is Some && slots[i]->Some_0.key@ == key
}

impl Collection {
    /// The record slots, indexed by identifier; deleted ones are `None`.
    pub closed spec fn entries(&self) -> Seq<Option<Record>> {
        self.slots@
    }

    pub closed spec fn spec_dimension(&self) -> nat {
        self.dimension as nat
    }

    /// True once an index has been built.
    pub closed spec fn is_built(&self) -> bool {
        self.index is Some
    }

    /// The built index.
    pub closed spec fn built_index(&self) -> Index {
        self.index->Some_0
    }

    /// The record identifier of each vector of the built index.
    pub closed spec fn indexed_ids(&self) -> Seq<VectorID> {
        self.index_map@
    }

    /// True when some record is stored under `key`.
    pub open spec fn has_key(&self, key: Seq<char>) -> bool {
        exists|i: int| holds_key(self.entries(), i, key)
    }

    pub closed spec fn wf(&self) -> bool {
        &&& self.slots@.len() < SENTINEL
        &&& forall|i: int|
            0 <= i < self.slots@.len() && (#[trigger] self.slots@[i]) is Some ==> self.slots@[i]->Some_0.vector.coords().len()
                == self.dimension
        &&& forall|i: int, j: int|
            0 <= i < j < self.slots@.len() && (#[trigger] self.slots@[i]) is Some && (#[trigger] self.slots@[j]) is Some
                ==> self.slots@[i]->Some_0.key@ != self.slots@[j]->Some_0.key@
        &&& self.index is Some ==> {
            let g = self.index->Some_0;
            &&& g.wf()
            &&& g.spec_dimension() == self.dimension
            &&& g.n() == self.index_map@.len()
            &&& forall|j: int| 0 <= j < g.n() ==> (g.is_live(j) <==> #[trigger] self.slots@[self.index_map@[j].0 as int] is Some)
            &&& forall|j: int| 0 <= j < self.index_map@.len() ==> (#[trigger] self.index_map@[j]).0 < self.slots@.len()
            &&& forall|a: int, b: int| 0 <= a < b < self.index_map@.len() ==> (#[trigger] self.index_map@[a]).0 < (#[trigger] self.index_map@[b]).0
            &&& forall|j: int|
                0 <= j < self.index_map@.len() && (#[trigger] self.slots@[self.index_map@[j].0 as int]) is Some
                    ==> g.vecs()[j].coords() == self.slots@[self.index_map@[j].0 as int]->Some_0.vector.coords()
        }
    }

    /// An empty collection of `dimension`-dimensional records.
    pub fn new(dimension: usize) -> (r: Self)
        ensures
            r.wf(),
            r.spec_dimension() == dimension,
            r.entries().len() == 0,
            !r.is_built(),
    {
        Collection { dimension, slots: Vec::new(), index: None, index_map: Vec::new() }
    }

    /// The embedding dimension.
    pub fn dimension(&self) -> (r: usize)
        ensures
            r == self.spec_dimension(),
    {
        self.dimension
    }

    /// The number of identifiers handed out, deleted ones included.
    pub fn len(&self) -> (r: usize)
        ensures
            r == self.entries().len(),
    {
        self.slots.len()
    }

    /// The index, once built.
    pub fn index(&self) -> (r: Option<&Index>)
        requires
            self.wf(),
        ensures
            r is Some <==> self.is_built(),
            r is Some ==> r->Some_0.wf() && r->Some_0.spec_dimension() == self.spec_dimension(),
            r is Some ==> *r->Some_0 == self.built_index(),
    {
        match &self.index {
            Some(g) => Some(g),
            None => None,
        }
    }

    /// The number of live records and of identifiers, and whether an index
    /// is built.
    pub fn stats(&self) -> (r: Stats)
        ensures
            r.records == live_count(self.entries()),
            r.identifiers == self.entries().len(),
            r.built == self.is_built(),
    {
        let mut count: usize = 0;
        let mut i: usize = 0;
        while i < self.slots.len()
            invariant
                i <= self.slots@.len(),
                count == live_count(self.slots@.take(i as int)),
                count <= i,
            decreases self.slots@.len() - i,
        {
            assert(self.slots@.take(i + 1).drop_last() =~= self.slots@.take(i as int));
            if self.slots[i].is_some() {
                count = count + 1;
            }
            i = i + 1;
        }
        assert(self.slots@.take(i as int) =~= self.slots@);
        Stats { records: count, identifiers: self.slots.len(), built: self.index.is_some() }
    }

    /// The identifier of the record under `key`.
    pub fn find(&self, key: &String) -> (r: Option<VectorID>)
        requires
            self.wf(),
        ensures
            r is None <==> !self.has_key(key@),
            r is Some ==> holds_key(self.entries(), r->Some_0.0 as int, key@),
    {
        let mut i: usize = 0;
        while i < self.slots.len()
            invariant
                self.wf(),
                i <= self.slots@.len(),
                forall|j: int| 0 <= j < i ==> !holds_key(self.slots@, j, key@),
            decreases self.slots@.len() - i,
        {
            match &self.slots[i] {
                Some(rec) => {
                    if rec.key == *key {
                        assert(holds_key(self.entries(), i as int, key@));
                        return Some(VectorID(i as u32));
                    }
                },
                None => {},
            }
            i = i + 1;
        }
        None
    }

    /// Stores a new record under the next identifier. Fails with
    /// `InvalidDimension` when the embedding has the wrong length, and then
    /// with `Duplicate` when the key is taken.
    pub fn insert(&mut self, key: String, vector: Vector, data: Vec<(String, String)>) -> (r: Result<VectorID, Error>)
        requires
            old(self).wf(),
            old(self).entries().len() + 1 < SENTINEL,
        ensures
            final(self).wf(),
            final(self).spec_dimension() == old(self).spec_dimension(),
            final(self).is_built() == old(self).is_built(),
            vector.coords().len() != old(self).spec_dimension() ==> r == Err::<VectorID, Error>(Error::InvalidDimension),
            vector.coords().len() == old(self).spec_dimension() && old(self).has_key(key@) ==> r == Err::<VectorID, Error>(Error::Duplicate),
            r.is_err() ==> final(self).entries() == old(self).entries(),
            r.is_ok() <==> vector.coords().len() == old(self).spec_dimension() && !old(self).has_key(key@),
            r.is_ok() ==> {
                &&& r->Ok_0.0 == old(self).entries().len()
                &&& final(self).entries().len() == old(self).entries().len() + 1
                &&& forall|i: int| 0 <= i < old(self).entries().len() ==> #[trigger] final(self).entries()[i] == old(self).entries()[i]
                &&& final(self).entries()[r->Ok_0.0 as int] is Some
                &&& final(self).entries()[r->Ok_0.0 as int]->Some_0.key@ == key@
                &&& final(self).entries()[r->Ok_0.0 as int]->Some_0.vector.coords() == vector.coords()
            },
    {
        if vector.len() != self.dimension {
            return Err(Error::InvalidDimension);
        }
        if self.find(&key).is_some() {
            return Err(Error::Duplicate);
        }
        let id = VectorID(self.slots.len() as u32);
        let ghost k = key@;
        let ghost c = vector.coords();
        self.slots.push(Some(Record { key, vector, data }));
        proof {
            let n = old(self).slots@.len();
            assert forall|i: int, j: int|
                0 <= i < j < self.slots@.len() && (#[trigger] self.slots@[i]) is Some && (#[trigger] self.slots@[j]) is Some
                    implies self.slots@[i]->Some_0.key@ != self.slots@[j]->Some_0.key@ by {
                if j == n {
                    assert(!holds_key(old(self).slots@, i, k));
                } else {
                    assert(old(self).slots@[i] == self.slots@[i]);
                    assert(old(self).slots@[j] == self.slots@[j]);
                }
            }
            if self.index is Some {
                assert forall|j: int|
                    0 <= j < self.index_map@.len() && (#[trigger] self.slots@[self.index_map@[j].0 as int]) is Some
                        implies self.index->Some_0.vecs()[j].coords() == self.slots@[self.index_map@[j].0 as int]->Some_0.vector.coords() by {
                    assert(self.index_map@[j].0 < old(self).slots@.len());
                    assert(self.slots@[self.index_map@[j].0 as int] == old(self).slots@[self.index_map@[j].0 as int]);
                }
            }
        }
        Ok(id)
    }

    /// Stores a record under `key`, replacing the record already there, if
    /// any; the record gets the next identifier. Fails with
    /// `InvalidDimension`, changing nothing, when the embedding has the wrong
    /// length.
    pub fn set(&mut self, key: String, vector: Vector, data: Vec<(String, String)>) -> (r: Result<VectorID, Error>)
        requires
            old(self).wf(),
            old(self).entries().len() + 1 < SENTINEL,
        ensures
            final(self).wf(),
            final(self).spec_dimension() == old(self).spec_dimension(),
            final(self).is_built() == old(self).is_built(),
            r.is_err() <==> vector.coords().len() != old(self).spec_dimension(),
            r.is_err() ==> r == Err::<VectorID, Error>(Error::InvalidDimension) && final(self).entries() == old(self).entries(),
            r.is_ok() ==> {
                &&& r->Ok_0.0 == old(self).entries().len()
                &&& final(self).entries().len() == old(self).entries().len() + 1
                &&& final(self).entries().drop_last() == without_key(old(self).entries(), key@)
                &&& final(self).entries().last() is Some
                &&& final(self).entries().last()->Some_0.key@ == key@
                &&& final(self).entries().last()->Some_0.vector.coords() == vector.coords()
            },
    {
        if vector.len() != self.dimension {
            return Err(Error::InvalidDimension);
        }
        let ghost before = self.slots@;
        let removed = self.delete(&key);
        proof {
            let w = without_key(before, key@);
            if removed.is_ok() {
                let i = choose|i: int| {
                    &&& holds_key(before, i, key@)
                    &&& before[i] == Some(removed->Ok_0)
                    &&& self.slots@ == before.update(i, None)
                };
                assert forall|j: int| 0 <= j < before.len() implies #[trigger] self.slots@[j] == w[j] by {
                    if j != i && holds_key(before, j, key@) {
                        if j < i {
                            assert(before[j]->Some_0.key@ != before[i]->Some_0.key@);
                        } else {
                            assert(before[i]->Some_0.key@ != before[j]->Some_0.key@);
                        }
                    }
                }
                assert(self.slots@ =~= w);
            } else {
                assert(self.slots@ =~= w);
            }
        }
        let r = self.insert(key, vector, data);
        proof {
            assert(self.slots@.drop_last() =~= without_key(before, key@));
        }
        r
    }

    /// The record under `key`, or `NotFound`.
    pub fn get(&self, key: &String) -> (r: Result<&Record, Error>)
        requires
            self.wf(),
        ensures
            r.is_err() <==> !self.has_key(key@),
            r.is_err() ==> r == Err::<&Record, Error>(Error::NotFound),
            r.is_ok() ==> exists|i: int| holds_key(self.entries(), i, key@) && self.entries()[i] == Some(*r->Ok_0),
    {
        match self.find(key) {
            Some(id) => match &self.slots[id.0 as usize] {
                Some(rec) => Ok(rec),
                None => Err(Error::NotFound),
            },
            None => Err(Error::NotFound),
        }
    }

    /// The record with identifier `id`, unless it was deleted.
    pub fn record(&self, id: VectorID) -> (r: Option<&Record>)
        ensures
            id.0 < self.entries().len() && self.entries()[id.0 as int] is Some ==> r == Some(&self.entries()[id.0 as int]->Some_0),
            !(id.0 < self.entries().len() && self.entries()[id.0 as int] is Some) ==> r is None,
    {
        if (id.0 as usize) < self.slots.len() {
            match &self.slots[id.0 as usize] {
                Some(rec) => Some(rec),
                None => None,
            }
        } else {
            None
        }
    }

    /// Deletes the record `id` from the built index, if it is there.
    fn unindex(&mut self, id: VectorID)
        requires
            old(self).wf(),
            id.0 < old(self).slots@.len(),
            old(self).slots@[id.0 as int] is Some,
        ensures
            final(self).slots@ == old(self).slots@,
            final(self).dimension == old(self).dimension,
            final(self).index_map@ == old(self).index_map@,
            final(self).index is Some <==> old(self).index is Some,
            final(self).wf_except(id),
    {
        let built = self.index.take();
        match built {
            Some(mut g) => {
                let ghost g0 = g;
                let mut j: usize = 0;
                let mut found = false;
                while j < self.index_map.len()
                    invariant
                        j <= self.index_map@.len(),
                        forall|k: int| 0 <= k < j ==> (#[trigger] self.index_map@[k]) != id,
                        found ==> j < self.index_map@.len() && self.index_map@[j as int] == id,
                    ensures
                        found ==> j < self.index_map@.len() && self.index_map@[j as int] == id,
                        !found ==> forall|k: int| 0 <= k < self.index_map@.len() ==> (#[trigger] self.index_map@[k]) != id,
                    decreases self.index_map@.len() - j,
                {
                    if self.index_map[j] == id {
                        found = true;
                        break;
                    }
                    j = j + 1;
                }
                if found {
                    proof {
                        g.lemma_shape();
                        assert(g.is_live(j as int));
                    }
                    let _ = g.delete(VectorID(j as u32));
                }
                proof {
                    assert forall|k: int|
                        0 <= k < self.index_map@.len() && (#[trigger] self.slots@[self.index_map@[k].0 as int]) is Some
                            ==> g.vecs()[k].coords() == self.slots@[self.index_map@[k].0 as int]->Some_0.vector.coords() by {}
                    assert forall|k: int| 0 <= k < g.n() && self.index_map@[k] != id implies (g.is_live(k) <==> #[trigger] self.slots@[self.index_map@[k].0 as int] is Some) by {
                        if found {
                            assert(k != j);
                        }
                    }
                    assert forall|k: int| 0 <= k < g.n() && self.index_map@[k] == id implies !g.is_live(k) by {
                        if found {
                            assert(self.index_map@[j as int] == id);
                            if k != j {
                                if k < j {
                                    assert(self.index_map@[k].0 < self.index_map@[j as int].0);
                                } else {
                                    assert(self.index_map@[j as int].0 < self.index_map@[k].0);
                                }
                            }
                        }
                    }
                }
                self.index = Some(g);
            },
            None => {},
        }
    }

    /// The well-formedness of the collection, except that the record `id`
    /// may be indexed while no longer live in the index.
    closed spec fn wf_except(&self, id: VectorID) -> bool {
        &&& self.slots@.len() < SENTINEL
        &&& forall|i: int|
            0 <= i < self.slots@.len() && (#[trigger] self.slots@[i]) is Some ==> self.slots@[i]->Some_0.vector.coords().len()
                == self.dimension
        &&& forall|i: int, j: int|
            0 <= i < j < self.slots@.len() && (#[trigger] self.slots@[i]) is Some && (#[trigger] self.slots@[j]) is Some
                ==> self.slots@[i]->Some_0.key@ != self.slots@[j]->Some_0.key@
        &&& self.index is Some ==> {
            let g = self.index->Some_0;
            &&& g.wf()
            &&& g.spec_dimension() == self.dimension
            &&& g.n() == self.index_map@.len()
            &&& forall|j: int| 0 <= j < g.n() && self.index_map@[j] != id ==> (g.is_live(j) <==> #[trigger] self.slots@[self.index_map@[j].0 as int] is Some)
            &&& forall|j: int| 0 <= j < g.n() && self.index_map@[j] == id ==> !g.is_live(j)
            &&& forall|j: int| 0 <= j < self.index_map@.len() ==> (#[trigger] self.index_map@[j]).0 < self.slots@.len()
            &&& forall|a: int, b: int| 0 <= a < b < self.index_map@.len() ==> (#[trigger] self.index_map@[a]).0 < (#[trigger] self.index_map@[b]).0
            &&& forall|j: int|
                0 <= j < self.index_map@.len() && (#[trigger] self.slots@[self.index_map@[j].0 as int]) is Some
                    ==> g.vecs()[j].coords() == self.slots@[self.index_map@[j].0 as int]->Some_0.vector.coords()
        }
    }

    /// Removes the record under `key` and returns it, or fails with
    /// `NotFound`. Its identifier is not handed out again, and an index built
    /// before no longer reports it.
    pub fn delete(&mut self, key: &String) -> (r: Result<Record, Error>)
        requires
            old(self).wf(),
        ensures
            final(self).wf(),
            final(self).spec_dimension() == old(self).spec_dimension(),
            final(self).is_built() == old(self).is_built(),
            r.is_err() <==> !old(self).has_key(key@),
            r.is_err() ==> r == Err::<Record, Error>(Error::NotFound) && final(self).entries() == old(self).entries(),
            r.is_ok() ==> exists|i: int| {
                &&& holds_key(old(self).entries(), i, key@)
                &&& old(self).entries()[i] == Some(r->Ok_0)
                &&& final(self).entries() == old(self).entries().update(i, None)
            },
            !final(self).has_key(key@),
    {
        match self.find(key) {
            None => Err(Error::NotFound),
            Some(id) => {
                let i = id.0 as usize;
                self.unindex(id);
                let ghost mid = *self;
                let old_slot = self.slots[i].take();
                proof {
                    assert(self.slots@ == old(self).slots@.update(i as int, None));
                    if self.index is Some {
                        let g = self.index->Some_0;
                        assert forall|j: int| 0 <= j < g.n() implies (g.is_live(j) <==> #[trigger] self.slots@[self.index_map@[j].0 as int] is Some) by {
                            assert(self.index_map@[j].0 < old(self).slots@.len());
                            if self.index_map@[j].0 != i {
                                assert(self.slots@[self.index_map@[j].0 as int] == old(self).slots@[self.index_map@[j].0 as int]);
                            }
                        }
                    }
                    if self.index is Some {
                        assert forall|j: int|
                            0 <= j < self.index_map@.len() && (#[trigger] self.slots@[self.index_map@[j].0 as int]) is Some
                                implies self.index->Some_0.vecs()[j].coords() == self.slots@[self.index_map@[j].0 as int]->Some_0.vector.coords() by {
                            assert(self.index_map@[j].0 < old(self).slots@.len());
                            assert(self.slots@[self.index_map@[j].0 as int] == old(self).slots@[self.index_map@[j].0 as int]);
                        }
                    }
                    assert forall|i2: int, j: int|
                        0 <= i2 < j < self.slots@.len() && (#[trigger] self.slots@[i2]) is Some && (#[trigger] self.slots@[j]) is Some
                            implies self.slots@[i2]->Some_0.key@ != self.slots@[j]->Some_0.key@ by {
                        assert(old(self).slots@[i2] == self.slots@[i2]);
                        assert(old(self).slots@[j] == self.slots@[j]);
                    }
                    assert forall|j: int| !holds_key(self.slots@, j, key@) by {
                        if holds_key(self.slots@, j, key@) {
                            assert(j != i);
                            assert(old(self).slots@[j] == self.slots@[j]);
                            if j < i {
                                assert(old(self).slots@[j]->Some_0.key@ != old(self).slots@[i as int]->Some_0.key@);
                            } else {
                                assert(old(self).slots@[i as int]->Some_0.key@ != old(self).slots@[j]->Some_0.key@);
                            }
                        }
                    }
                }
                match old_slot {
                    Some(rec) => Ok(rec),
                    None => Err(Error::NotFound),
                }
            },
        }
    }

    /// Builds the index afresh over the live records, in identifier order,
    /// the record with identifier `i` drawing its top layer from `draws[i]`.
    pub fn build_with_draws(&mut self, ef_search: usize, ef_construction: usize, draws: &Vec<u64>)
        requires
            old(self).wf(),
            draws@.len() == old(self).entries().len(),
        ensures
            final(self).wf(),
            final(self).is_built(),
            final(self).entries() == old(self).entries(),
            final(self).spec_dimension() == old(self).spec_dimension(),
            final(self).built_index().n() == final(self).indexed_ids().len(),
            final(self).built_index().n() == live_count(final(self).entries()),
            forall|a: int, b: int|
                0 <= a < b < final(self).indexed_ids().len() ==> (#[trigger] final(self).indexed_ids()[a]).0 < (#[trigger] final(self).indexed_ids()[b]).0,
            forall|j: int| 0 <= j < final(self).indexed_ids().len() ==> final(self).built_index().is_live(j)
                && #[trigger] final(self).entries()[final(self).indexed_ids()[j].0 as int] is Some,
            forall|i: int|
                0 <= i < final(self).entries().len() && #[trigger] final(self).entries()[i] is Some ==> exists|j: int|
                    0 <= j < final(self).indexed_ids().len() && final(self).indexed_ids()[j].0 == i,
    {
        let mut index = Index::new(self.dimension, ef_search, ef_construction);
        let mut map: Vec<VectorID> = Vec::new();
        let mut i: usize = 0;
        while i < self.slots.len()
            invariant
                self.wf(),
                self.slots@ == old(self).slots@,
                self.dimension == old(self).dimension,
                draws@.len() == self.slots@.len(),
                i <= self.slots@.len(),
                index.wf(),
                index.spec_dimension() == self.dimension,
                index.n() == map@.len(),
                map@.len() <= i,
                forall|j: int| 0 <= j < index.n() ==> index.is_live(j),
                map@.len() == live_count(self.slots@.take(i as int)),
                forall|j: int| 0 <= j < map@.len() ==> (#[trigger] self.slots@[map@[j].0 as int]) is Some,
                forall|k: int| 0 <= k < i && (#[trigger] self.slots@[k]) is Some ==> exists|j: int| 0 <= j < map@.len() && map@[j].0 == k,
                forall|j: int| 0 <= j < map@.len() ==> (#[trigger] map@[j]).0 < i,
                forall|a: int, b: int| 0 <= a < b < map@.len() ==> (#[trigger] map@[a]).0 < (#[trigger] map@[b]).0,
                forall|j: int|
                    0 <= j < map@.len() && (#[trigger] self.slots@[map@[j].0 as int]) is Some ==> index.vecs()[j].coords()
                        == self.slots@[map@[j].0 as int]->Some_0.vector.coords(),
            decreases self.slots@.len() - i,
        {
            proof {
                assert(self.slots@.take(i + 1).drop_last() =~= self.slots@.take(i as int));
            }
            match &self.slots[i] {
                Some(rec) => {
                    let v = rec.vector.clone();
                    let ghost before = index.vecs();
                    let ghost before_live = index.lives();
                    let ghost before_idx = index;
                    proof {
                        index.lemma_shape();
                    }
                    let r = index.insert(v, draws[i]);
                    proof {
                        index.lemma_shape();
                        assert(r.is_ok());
                        assert(index.vecs()[map@.len() as int].coords() == rec.vector.coords());
                    }
                    let ghost before_map = map@;
                    map.push(VectorID(i as u32));
                    proof {
                        assert forall|k: int| 0 <= k < i + 1 && (#[trigger] self.slots@[k]) is Some implies exists|j: int| 0 <= j < map@.len() && map@[j].0 == k by {
                            if k < i {
                                let j = choose|j: int| 0 <= j < before_map.len() && before_map[j].0 == k;
                                assert(map@[j] == before_map[j]);
                            } else {
                                assert(map@[map@.len() - 1].0 == k);
                            }
                        }
                        assert forall|j: int|
                            0 <= j < map@.len() && (#[trigger] self.slots@[map@[j].0 as int]) is Some implies index.vecs()[j].coords()
                                == self.slots@[map@[j].0 as int]->Some_0.vector.coords() by {
                            if j < map@.len() - 1 {
                                assert(index.vecs()[j] == before[j]);
                            }
                        }
                        assert forall|j: int| 0 <= j < index.n() implies index.is_live(j) by {
                            if j < index.n() - 1 {
                                assert(before_idx.is_live(j));
                                assert(index.lives()[j] == before_live[j]);
                            }
                        }
                    }
                },
                None => {},
            }
            i = i + 1;
        }
        proof {
            assert(self.slots@.take(i as int) =~= self.slots@);
        }
        self.index = Some(index);
        self.index_map = map;
    }

    /// Builds the index afresh over the live records, drawing the top layers
    /// from a generator seeded with `seed`.
    pub fn build(&mut self, ef_search: usize, ef_construction: usize, seed: u64)
        requires
            old(self).wf(),
        ensures
            final(self).wf(),
            final(self).is_built(),
            final(self).entries() == old(self).entries(),
            final(self).spec_dimension() == old(self).spec_dimension(),
            final(self).built_index().n() == final(self).indexed_ids().len(),
            final(self).built_index().n() == live_count(final(self).entries()),
            forall|a: int, b: int|
                0 <= a < b < final(self).indexed_ids().len() ==> (#[trigger] final(self).indexed_ids()[a]).0 < (#[trigger] final(self).indexed_ids()[b]).0,
            forall|j: int| 0 <= j < final(self).indexed_ids().len() ==> final(self).built_index().is_live(j)
                && #[trigger] final(self).entries()[final(self).indexed_ids()[j].0 as int] is Some,
            forall|i: int|
                0 <= i < final(self).entries().len() && #[trigger] final(self).entries()[i] is Some ==> exists|j: int|
                    0 <= j < final(self).indexed_ids().len() && final(self).indexed_ids()[j].0 == i,
    {
        let mut rng = seeded(seed);
        let mut draws: Vec<u64> = Vec::new();
        let mut i: usize = 0;
        while i < self.slots.len()
            invariant
                i <= self.slots@.len(),
                draws@.len() == i,
            decreases self.slots@.len() - i,
        {
            draws.push(next_word(&mut rng));
            i = i + 1;
        }
        self.build_with_draws(ef_search, ef_construction, &draws);
    }

    /// The records nearest to `query` that the index finds, at most `count`
    /// of them, nearest first (ties to the lower identifier), each with its
    /// squared distance. Fails with `InvalidDimension` when the query has the
    /// wrong length, then with `IndexNotBuilt` before any build. Records
    /// deleted since the build are left out.
    #[verifier::spinoff_prover]
    pub fn search(&self, query: &Vector, count: usize) -> (r: Result<Vec<Candidate>, Error>)
        requires
            self.wf(),
        ensures
            query.coords().len() != self.spec_dimension() ==> r == Err::<Vec<Candidate>, Error>(Error::InvalidDimension),
            query.coords().len() == self.spec_dimension() && !self.is_built() ==> r == Err::<Vec<Candidate>, Error>(Error::IndexNotBuilt),
            r.is_ok() <==> query.coords().len() == self.spec_dimension() && self.is_built(),
            r.is_ok() ==> {
                let v = r->Ok_0@;
                &&& sorted_strict(v)
                &&& v.len() <= count
                &&& forall|i: int|
                    0 <= i < v.len() ==> {
                        &&& (#[trigger] v[i]).vector_id.0 < self.entries().len()
                        &&& self.entries()[v[i].vector_id.0 as int] is Some
                        &&& v[i].distance == sq_dist(query.coords(), self.entries()[v[i].vector_id.0 as int]->Some_0.vector.coords())
                    }
            },
            r.is_ok() && count > 0 && (exists|j: int|
                0 <= j < self.indexed_ids().len() && #[trigger] self.entries()[self.indexed_ids()[j].0 as int] is Some)
                ==> r->Ok_0@.len() > 0,
    {
        if query.len() != self.dimension {
            return Err(Error::InvalidDimension);
        }
        let g = match &self.index {
            Some(g) => g,
            None => {
                return Err(Error::IndexNotBuilt);
            },
        };
        let hits = match g.search(query, count) {
            Ok(h) => h,
            Err(e) => {
                return Err(e);
            },
        };
        let ghost hs = hits@;
        proof {
            if count > 0 && (exists|j: int|
                0 <= j < self.indexed_ids().len() && #[trigger] self.entries()[self.indexed_ids()[j].0 as int] is Some) {
                let j = choose|j: int|
                    0 <= j < self.indexed_ids().len() && #[trigger] self.entries()[self.indexed_ids()[j].0 as int] is Some;
                assert(g.is_live(j));
            }
        }
        let mut out: Vec<Candidate> = Vec::new();
        let mut k: usize = 0;
        while k < hits.len()
            invariant
                self.wf(),
                self.index == Some(*g),
                query.coords().len() == self.dimension,
                hits@ == hs,
                sorted_strict(hs),
                measured(hs, query.coords(), g.vecs()),
                hs.len() <= count,
                forall|i: int| 0 <= i < hs.len() ==> g.is_live((#[trigger] hs[i]).vector_id.0 as int),
                k <= hs.len(),
                out@.len() == k,
                sorted_strict(out@),
                forall|a: int| 0 <= a < out@.len() ==> exists|j: int| 0 <= j < k && #[trigger] out@[a] == mapped(self.index_map@, hs[j]),
                forall|i: int|
                    0 <= i < out@.len() ==> {
                        &&& (#[trigger] out@[i]).vector_id.0 < self.slots@.len()
                        &&& self.slots@[out@[i].vector_id.0 as int] is Some
                        &&& out@[i].distance == sq_dist(query.coords(), self.slots@[out@[i].vector_id.0 as int]->Some_0.vector.coords())
                    },
            decreases hs.len() - k,
        {
            let h = hits[k];
            let rid = self.index_map[h.vector_id.0 as usize];
            let c = Candidate { distance: h.distance, vector_id: rid };
            let live = match &self.slots[rid.0 as usize] {
                Some(_) => true,
                None => false,
            };
            proof {
                assert(hs[k as int] == h);
                assert(g.is_live(h.vector_id.0 as int));
                assert(self.slots@[self.index_map@[h.vector_id.0 as int].0 as int] is Some);
            }
            if live {
                proof {
                    let j0 = h.vector_id.0 as int;
                    assert(hs[k as int] == h);
                    assert(h == crate::search::candidate_for(query.coords(), g.vecs(), h.vector_id));
                    assert(g.vecs()[j0].coords() == self.slots@[rid.0 as int]->Some_0.vector.coords());
                    g.lemma_shape();
                    assert(g.spec_dimension() == self.dimension);
                    assert(j0 < g.n());
                    assert(g.vecs()[j0].coords().len() == query.coords().len());
                    crate::vector::lemma_sq_dist_bound(query.coords(), g.vecs()[j0].coords());
                    crate::vector::lemma_sq_dist_nonneg(query.coords(), g.vecs()[j0].coords());
                    assert(rid.0 < self.slots@.len());
                    assert(self.slots@[rid.0 as int] is Some);
                    assert(c.distance == sq_dist(query.coords(), self.slots@[rid.0 as int]->Some_0.vector.coords()));
                    assert forall|a: int| 0 <= a < out@.len() implies key_lt(#[trigger] out@[a], c) by {
                        let j = choose|j: int| 0 <= j < k && out@[a] == mapped(self.index_map@, hs[j]);
                        assert(key_lt(hs[j], hs[k as int]));
                        if hs[j].distance == hs[k as int].distance {
                            assert(hs[j].vector_id.0 < hs[k as int].vector_id.0);
                            assert(self.index_map@[hs[j].vector_id.0 as int].0 < self.index_map@[hs[k as int].vector_id.0 as int].0);
                        }
                    }
                }
                out.push(c);
                proof {
                    assert(out@[out@.len() - 1] == c);
                    assert forall|i: int, j: int| 0 <= i < j < out@.len() implies key_lt(#[trigger] out@[i], #[trigger] out@[j]) by {
                        if j == out@.len() - 1 {
                            assert(out@[j] == c);
                        }
                    }
                    assert forall|a: int| 0 <= a < out@.len() implies exists|j: int| 0 <= j < k + 1 && #[trigger] out@[a] == mapped(self.index_map@, hs[j]) by {
                        if a == out@.len() - 1 {
                            assert(out@[a] == mapped(self.index_map@, hs[k as int]));
                        } else {
                            let j = choose|j: int| 0 <= j < k && out@[a] == mapped(self.index_map@, hs[j]);
                            assert(0 <= j < k + 1);
                        }
                    }
                }
            }
            k = k + 1;
        }
        Ok(out)
    }

    /// The serialized form of the built index, or `IndexNotBuilt`.
    pub fn save_index(&self) -> (r: Result<Vec<u8>, Error>)
        requires
            self.wf(),
        ensures
            !self.is_built() ==> r == Err::<Vec<u8>, Error>(Error::IndexNotBuilt),
            self.is_built() ==> r.is_ok() && r->Ok_0@ == encode(&self.built_index()),
    {
        match &self.index {
            Some(g) => Ok(g.save()),
            None => Err(Error::IndexNotBuilt),
        }
    }

    /// Restores an index saved over the current live records (those of a
    /// collection with no deletion since the build). Fails with
    /// `SerializationError`, leaving the collection as it was, unless the
    /// bytes are the serialized form of a well-formed index over those
    /// records, in identifier order, of this dimension.
    #[verifier::spinoff_prover]
    pub fn load_index(&mut self, bytes: &Vec<u8>) -> (r: Result<(), Error>)
        requires
            old(self).wf(),
        ensures
            final(self).wf(),
            final(self).entries() == old(self).entries(),
            final(self).spec_dimension() == old(self).spec_dimension(),
            r.is_err() ==> r == Err::<(), Error>(Error::SerializationError) && final(self).is_built() == old(self).is_built(),
            r.is_ok() ==> final(self).is_built() && encode(&final(self).built_index()) == bytes@,
            (exists|g: Index| saved_over(bytes@, live_coords(old(self).entries()), old(self).spec_dimension(), g)) ==> r.is_ok(),
    {
        let mut vectors: Vec<Vector> = Vec::new();
        let mut map: Vec<VectorID> = Vec::new();
        let mut i: usize = 0;
        while i < self.slots.len()
            invariant
                self.wf(),
                self.slots@ == old(self).slots@,
                self.index == old(self).index,
                self.dimension == old(self).dimension,
                i <= self.slots@.len(),
                vectors@.len() == map@.len(),
                vectors@.len() == live_coords(self.slots@.take(i as int)).len(),
                forall|j: int| 0 <= j < vectors@.len() ==> (#[trigger] vectors@[j]).coords() == live_coords(self.slots@.take(i as int))[j],
                map@.len() <= i,
                forall|j: int| 0 <= j < map@.len() ==> (#[trigger] map@[j]).0 < i,
                forall|a: int, b: int| 0 <= a < b < map@.len() ==> (#[trigger] map@[a]).0 < (#[trigger] map@[b]).0,
                forall|j: int|
                    0 <= j < map@.len() ==> (#[trigger] self.slots@[map@[j].0 as int]) is Some && vectors@[j].coords()
                        == self.slots@[map@[j].0 as int]->Some_0.vector.coords(),
            decreases self.slots@.len() - i,
        {
            proof {
                assert(self.slots@.take(i + 1).drop_last() =~= self.slots@.take(i as int));
            }
            let ghost before = vectors@;
            match &self.slots[i] {
                Some(rec) => {
                    vectors.push(rec.vector.clone());
                    map.push(VectorID(i as u32));
                    proof {
                        assert forall|j: int| 0 <= j < vectors@.len() implies (#[trigger] vectors@[j]).coords() == live_coords(self.slots@.take(i + 1))[j] by {
                            if j < before.len() {
                                assert(vectors@[j] == before[j]);
                            }
                        }
                    }
                },
                None => {},
            }
            i = i + 1;
        }
        let ghost vs = vectors@;
        proof {
            assert(self.slots@.take(i as int) =~= self.slots@);
            if exists|g: Index| saved_over(bytes@, live_coords(old(self).entries()), old(self).spec_dimension(), g) {
                let g = choose|g: Index| saved_over(bytes@, live_coords(old(self).entries()), old(self).spec_dimension(), g);
                assert(encodes_graph(bytes@, vs, g));
            }
        }
        let h = match Index::load(bytes, vectors) {
            Ok(h) => h,
            Err(e) => {
                return Err(e);
            },
        };
        proof {
            assert((exists|g: Index| saved_over(bytes@, live_coords(old(self).entries()), old(self).spec_dimension(), g)) ==> (
            h.spec_dimension() == old(self).spec_dimension() && forall|k: int| 0 <= k < h.n() ==> #[trigger] h.is_live(k))) by {
                if exists|g: Index| saved_over(bytes@, live_coords(old(self).entries()), old(self).spec_dimension(), g) {
                    let g = choose|g: Index| saved_over(bytes@, live_coords(old(self).entries()), old(self).spec_dimension(), g);
                    lemma_round_trip(&g, vs);
                    assert(crate::graph::same_graph(&g, &h));
                    assert forall|k: int| 0 <= k < h.n() implies #[trigger] h.is_live(k) by {
                        assert(g.is_live(k));
                    }
                }
            }
        }
        if h.dimension() != self.dimension {
            return Err(Error::SerializationError);
        }
        proof {
            h.lemma_shape();
        }
        let mut j: usize = 0;
        while j < h.len()
            invariant
                h.wf(),
                self.wf(),
                self.slots@ == old(self).slots@,
                self.index == old(self).index,
                self.dimension == old(self).dimension,
                j <= h.n(),
                forall|k: int| 0 <= k < j ==> h.is_live(k),
                (exists|g: Index| saved_over(bytes@, live_coords(old(self).entries()), old(self).spec_dimension(), g)) ==> forall|k: int| 0 <= k < h.n() ==> #[trigger] h.is_live(k),
            decreases h.n() - j,
        {
            if !h.live_at(j) {
                proof {
                    assert(!h.is_live(j as int));
                }
                return Err(Error::SerializationError);
            }
            j = j + 1;
        }
        self.index = Some(h);
        self.index_map = map;
        Ok(())
    }
}

} // verus!
