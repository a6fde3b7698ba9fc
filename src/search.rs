use vstd::prelude::*;

use crate::node::{neighbors, BaseNode, NearestIter, UpperNode};
use crate::vector::{sq_dist, Vector, VectorID};
use crate::visited::{state_wf, Visited};

verus! {

/// A candidate neighbour: a vector and its distance from the query.
#[derive(Clone, Copy, Debug, PartialEq, Eq, Structural)]
pub struct Candidate {
    pub distance: u128,
    pub vector_id: VectorID,
}

/// Candidates are ordered by distance, and ties go to the lower identifier.
pub open spec fn key_lt(a: Candidate, b: Candidate) -> bool {
    a.distance < b.distance || (a.distance == b.distance && a.vector_id.0 < b.vector_id.0)
}

/// Strictly ascending in the candidate order.
pub open spec fn sorted_strict(s: Seq<Candidate>) -> bool {
    forall|i: int, j: int| 0 <= i < j < s.len() ==> key_lt(#[trigger] s[i], #[trigger] s[j])
}

/// The number of elements of `s` that come before `c`.
pub open spec fn count_less(s: Seq<Candidate>, c: Candidate) -> nat
    decreases s.len(),
{
    if s.len() == 0 {
        0
    } else {
        count_less(s.drop_last(), c) + if key_lt(s.last(), c) {
            1nat
        } else {
            0nat
        }
    }
}

/// The identifiers of a candidate list.
pub open spec fn ids_of(s: Seq<Candidate>) -> Seq<VectorID> {
    s.map_values(|c: Candidate| c.vector_id)
}

/// Every vector has `dimension` coordinates.
pub open spec fn dims_ok(vectors: Seq<Vector>, dimension: nat) -> bool {
    forall|i: int| 0 <= i < vectors.len() ==> (#[trigger] vectors[i]).coords().len() == dimension
}

/// The candidate for `id` when searching for `query`.
pub open spec fn candidate_for(query: Seq<i32>, vectors: Seq<Vector>, id: VectorID) -> Candidate {
    Candidate { distance: sq_dist(query, vectors[id.0 as int].coords()) as u128, vector_id: id }
}

/// Each candidate names a stored vector and carries its exact distance.
pub open spec fn measured(s: Seq<Candidate>, query: Seq<i32>, vectors: Seq<Vector>) -> bool {
    forall|i: int|
        0 <= i < s.len() ==> (#[trigger] s[i]).vector_id.0 < vectors.len() && s[i] == candidate_for(
            query,
            vectors,
            s[i].vector_id,
        )
}

/// The number of identifiers that are not yet visited.
pub open spec fn unvisited(s: Seq<bool>) -> nat
    decreases s.len(),
{
    if s.len() == 0 {
        0
    } else {
        unvisited(s.drop_last()) + if s.last() {
            0nat
        } else {
            1nat
        }
    }
}

proof fn lemma_unvisited_update(s: Seq<bool>, i: int)
    requires
        0 <= i < s.len(),
        !s[i],
    ensures
        unvisited(s.update(i, true)) + 1 == unvisited(s),
    decreases s.len(),
{
    let t = s.update(i, true);
    if i < s.len() - 1 {
        assert(t.drop_last() =~= s.drop_last().update(i, true));
        lemma_unvisited_update(s.drop_last(), i);
    } else {
        assert(t.drop_last() =~= s.drop_last());
    }
}

proof fn lemma_count_less(s: Seq<Candidate>, c: Candidate)
    requires
        sorted_strict(s),
    ensures
        count_less(s, c) <= s.len(),
        forall|i: int| 0 <= i < count_less(s, c) ==> key_lt(#[trigger] s[i], c),
        forall|i: int| count_less(s, c) <= i < s.len() ==> !key_lt(#[trigger] s[i], c),
    decreases s.len(),
{
    if s.len() > 0 {
        let t = s.drop_last();
        assert(sorted_strict(t));
        lemma_count_less(t, c);
        if key_lt(s.last(), c) {
            if count_less(t, c) < t.len() {
                let k = count_less(t, c) as int;
                assert(t[k] == s[k]);
                assert(key_lt(s[k], s.last()));
            }
            assert forall|i: int| 0 <= i < count_less(s, c) implies key_lt(#[trigger] s[i], c) by {
                if i < s.len() - 1 {
                    assert(key_lt(s[i], s.last()));
                }
            }
        } else {
            assert forall|i: int| 0 <= i < count_less(s, c) implies key_lt(#[trigger] s[i], c) by {
                assert(t[i] == s[i]);
            }
            assert forall|i: int| count_less(s, c) <= i < s.len() implies !key_lt(#[trigger] s[i], c) by {
                if i < s.len() - 1 {
                    assert(t[i] == s[i]);
                    assert(key_lt(s[i], s.last()));
                }
            }
        }
    }
}

/// Nothing comes before a candidate in an empty list.
pub proof fn lemma_count_less_empty(c: Candidate)
    ensures
        count_less(Seq::<Candidate>::empty(), c) == 0,
{
}

/// Some candidate of `s` names `id`.
pub open spec fn holds_id(s: Seq<Candidate>, id: VectorID) -> bool {
    exists|j: int| 0 <= j < s.len() && (#[trigger] s[j]).vector_id == id
}

/// The first `links` neighbours that `layer` lists for `id` are visited (or
/// lie beyond the visited set's range).
pub open spec fn expanded<L: Layer>(visited: Seq<bool>, layer: &L, id: VectorID, links: nat) -> bool {
    forall|k: int|
        0 <= k < neighbors(layer.spec_node(id.0 as int)).len() && k < links ==> {
            let v = #[trigger] neighbors(layer.spec_node(id.0 as int))[k];
            v.0 >= visited.len() || visited[v.0 as int]
        }
}

/// `id` was expanded on `layer`, or was handed in among the nearest without
/// being on the frontier.
pub open spec fn settled<L: Layer>(
    visited: Seq<bool>,
    layer: &L,
    id: VectorID,
    links: nat,
    nearest: Seq<Candidate>,
    candidates: Seq<Candidate>,
) -> bool {
    expanded(visited, layer, id, links) || (holds_id(nearest, id) && !holds_id(candidates, id))
}

proof fn lemma_expanded_grow<L: Layer>(v1: Seq<bool>, v2: Seq<bool>, layer: &L, id: VectorID, links: nat)
    requires
        expanded(v1, layer, id, links),
        v1.len() == v2.len(),
        forall|j: int| 0 <= j < v1.len() && v1[j] ==> v2[j],
    ensures
        expanded(v2, layer, id, links),
{
    assert forall|k: int| 0 <= k < neighbors(layer.spec_node(id.0 as int)).len() && k < links implies {
        let v = #[trigger] neighbors(layer.spec_node(id.0 as int))[k];
        v.0 >= v2.len() || v2[v.0 as int]
    } by {
        let v = neighbors(layer.spec_node(id.0 as int))[k];
        if v.0 < v1.len() {
            assert(v1[v.0 as int]);
        }
    }
}

/// Up to the bound `ef`, each place of `a` is at least as near as the same
/// place of `b`.
pub open spec fn no_worse(a: Seq<Candidate>, b: Seq<Candidate>, ef: nat) -> bool {
    forall|i: int| 0 <= i < b.len() && i < ef ==> #[trigger] place_no_worse(a, b, i)
}

/// Place `i` of `a` exists and is at least as near as place `i` of `b`.
pub open spec fn place_no_worse(a: Seq<Candidate>, b: Seq<Candidate>, i: int) -> bool {
    i < a.len() && a[i].distance <= b[i].distance
}

/// Inserting a candidate at its place makes no place of a sorted list worse.
proof fn lemma_insert_no_worse(s: Seq<Candidate>, c: Candidate, ef: nat, base: Seq<Candidate>)
    requires
        sorted_strict(s),
        no_worse(s, base, ef),
    ensures
        no_worse(s.insert(count_less(s, c) as int, c), base, ef),
{
    lemma_count_less(s, c);
    let pos = count_less(s, c) as int;
    let t = s.insert(pos, c);
    assert forall|i: int| 0 <= i < base.len() && i < ef implies #[trigger] place_no_worse(t, base, i) by {
        assert(place_no_worse(s, base, i));
        if i == pos {
            assert(t[i] == c);
            assert(!key_lt(s[i], c));
        } else if i > pos {
            assert(t[i] == s[i - 1]);
            assert(key_lt(s[i - 1], s[i]));
        } else {
            assert(t[i] == s[i]);
        }
    }
}

/// One layer of the graph, read-only: the nodes of the layer, by vector
/// identifier, each giving its valid neighbours in stored order.
pub trait Layer {
    spec fn spec_len(&self) -> nat;

    spec fn spec_node(&self, id: int) -> Seq<VectorID>;

    /// The valid neighbours of the node of `vector_id`.
    fn nearest_iter(&self, vector_id: &VectorID) -> (r: NearestIter)
        requires
            vector_id.0 < self.spec_len(),
        ensures
            r.wf(),
            r.remaining() == neighbors(self.spec_node(vector_id.0 as int)),
    ;
}

impl Layer for Vec<BaseNode> {
    open spec fn spec_len(&self) -> nat {
        self@.len()
    }

    open spec fn spec_node(&self, id: int) -> Seq<VectorID> {
        self@[id].slots()
    }

    fn nearest_iter(&self, vector_id: &VectorID) -> (r: NearestIter) {
        self[vector_id.0 as usize].nearest_iter()
    }
}

impl Layer for Vec<UpperNode> {
    open spec fn spec_len(&self) -> nat {
        self@.len()
    }

    open spec fn spec_node(&self, id: int) -> Seq<VectorID> {
        self@[id].slots()
    }

    fn nearest_iter(&self, vector_id: &VectorID) -> (r: NearestIter) {
        self[vector_id.0 as usize].nearest_iter()
    }
}

/// True when `id` is listed by some node of the layer.
pub open spec fn listed<L: Layer>(layer: &L, id: VectorID) -> bool {
    exists|u: int, k: int|
        0 <= u < layer.spec_len() && 0 <= k < neighbors(layer.spec_node(u)).len() && #[trigger] neighbors(
            layer.spec_node(u),
        )[k] == id
}

/// Every identifier listed by the layer names a stored vector.
pub open spec fn layer_closed<L: Layer>(layer: &L, n: nat) -> bool {
    &&& layer.spec_len() == n
    &&& forall|u: int, k: int|
        0 <= u < n && 0 <= k < neighbors(layer.spec_node(u)).len() ==> (#[trigger] neighbors(
            layer.spec_node(u),
        )[k]).0 < n
}

/// The scratch state of one search.
#[derive(Clone)]
pub struct Search {
    pub ef: usize,
    pub visited: Visited,
    candidates: Vec<Candidate>,
    nearest: Vec<Candidate>,
    working: Vec<Candidate>,
    discarded: Vec<Candidate>,
}

impl Search {
    /// The best candidates found so far, nearest first.
    pub closed spec fn nearest_seq(&self) -> Seq<Candidate> {
        self.nearest@
    }

    /// The frontier still to be expanded.
    pub closed spec fn candidate_seq(&self) -> Seq<Candidate> {
        self.candidates@
    }

    /// Which identifiers have been visited.
    pub closed spec fn visited_seq(&self) -> Seq<bool> {
        self.visited@
    }

    /// The bound on the length of the nearest list.
    pub closed spec fn spec_ef(&self) -> nat {
        self.ef as nat
    }

    /// The visited set is well formed, the nearest list is strictly
    /// ascending, and each of its members has been visited.
    pub closed spec fn wf(&self) -> bool {
        &&& self.visited.wf()
        &&& sorted_strict(self.nearest_seq())
        &&& forall|i: int|
            0 <= i < self.nearest_seq().len() ==> (#[trigger] self.nearest_seq()[i]).vector_id.0
                < self.visited@.len() && self.visited@[self.nearest_seq()[i].vector_id.0 as int]
    }

    /// The nearest list of a well-formed search is strictly ascending.
    pub proof fn lemma_sorted(&self)
        requires
            self.wf(),
        ensures
            sorted_strict(self.nearest_seq()),
    {
    }

    /// Every candidate held is measured against `query`.
    pub open spec fn measured_for(&self, query: Seq<i32>, vectors: Seq<Vector>) -> bool {
        &&& measured(self.nearest_seq(), query, vectors)
        &&& measured(self.candidate_seq(), query, vectors)
    }

    /// A search state for the identifiers `0..capacity`, with nothing found.
    pub fn new(capacity: usize) -> (r: Self)
        ensures
            r.wf(),
            r.spec_ef() == 5,
            r.visited_seq() == Seq::new(capacity as nat, |i: int| false),
            r.nearest_seq().len() == 0,
            r.candidate_seq().len() == 0,
    {
        let visited = Visited::with_capacity(capacity);
        Search {
            ef: 5,
            visited,
            candidates: Vec::new(),
            nearest: Vec::new(),
            working: Vec::new(),
            discarded: Vec::new(),
        }
    }

    /// Offers `vector_id` as a neighbour of `vector`. An identifier already
    /// visited is skipped; otherwise it enters the nearest list at its place
    /// in the candidate order, and the frontier, unless that place is `ef` or
    /// beyond.
    pub fn push(&mut self, vector_id: &VectorID, vector: &Vector, vectors: &Vec<Vector>)
        requires
            old(self).wf(),
            vector_id.0 < vectors@.len(),
            dims_ok(vectors@, vector.coords().len()),
        ensures
            final(self).wf(),
            final(self).spec_ef() == old(self).spec_ef(),
            ({
                let new = candidate_for(vector.coords(), vectors@, *vector_id);
                let pos = count_less(old(self).nearest_seq(), new);
                let fresh = vector_id.0 < old(self).visited_seq().len() && !old(self).visited_seq()[vector_id.0 as int];
                if fresh {
                    &&& final(self).visited_seq() == old(self).visited_seq().update(vector_id.0 as int, true)
                    &&& pos < old(self).spec_ef() ==> final(self).nearest_seq() == old(self).nearest_seq().insert(pos as int, new)
                        && final(self).candidate_seq() == old(self).candidate_seq().push(new)
                    &&& pos >= old(self).spec_ef() ==> final(self).nearest_seq() == old(self).nearest_seq()
                        && final(self).candidate_seq() == old(self).candidate_seq()
                } else {
                    &&& final(self).visited_seq() == old(self).visited_seq()
                    &&& final(self).nearest_seq() == old(self).nearest_seq()
                    &&& final(self).candidate_seq() == old(self).candidate_seq()
                }
            }),
    {
        let ghost old_visited = self.visited@;
        if !self.visited.insert(vector_id) {
            return;
        }
        let other = &vectors[vector_id.0 as usize];
        let distance = vector.distance(other);
        let new = Candidate { distance, vector_id: *vector_id };
        proof {
            lemma_count_less(self.nearest@, new);
        }
        // Binary search for the first entry that does not come before `new`.
        let mut lo: usize = 0;
        let mut hi: usize = self.nearest.len();
        while lo < hi
            invariant
                0 <= lo <= hi <= self.nearest@.len(),
                sorted_strict(self.nearest@),
                forall|i: int| 0 <= i < lo ==> key_lt(#[trigger] self.nearest@[i], new),
                forall|i: int| hi <= i < self.nearest@.len() ==> !key_lt(#[trigger] self.nearest@[i], new),
            decreases hi - lo,
        {
            let mid = lo + (hi - lo) / 2;
            let c = self.nearest[mid];
            if c.distance < new.distance || (c.distance == new.distance && c.vector_id.0 < new.vector_id.0) {
                assert forall|i: int| 0 <= i < mid + 1 implies key_lt(#[trigger] self.nearest@[i], new) by {
                    if i < mid {
                        assert(key_lt(self.nearest@[i], self.nearest@[mid as int]));
                    }
                }
                lo = mid + 1;
            } else {
                assert forall|i: int| mid <= i < self.nearest@.len() implies !key_lt(#[trigger] self.nearest@[i], new) by {
                    if i > mid {
                        assert(key_lt(self.nearest@[mid as int], self.nearest@[i]));
                    }
                }
                hi = mid;
            }
        }
        let index = lo;
        proof {
            assert(index == count_less(self.nearest@, new)) by {
                if index < count_less(self.nearest@, new) {
                    assert(key_lt(self.nearest@[index as int], new));
                } else if index > count_less(self.nearest@, new) {
                    let k = count_less(self.nearest@, new) as int;
                    assert(!key_lt(self.nearest@[k], new));
                }
            }
        }
        if index >= self.ef {
            return;
        }
        proof {
            // `new` names an identifier that was not visited, so no member of
            // the nearest list shares its key.
            assert forall|i: int| index <= i < self.nearest@.len() implies key_lt(new, #[trigger] self.nearest@[i]) by {
                assert(!key_lt(self.nearest@[i], new));
                assert(self.nearest@[i].vector_id != new.vector_id);
            }
        }
        self.nearest.insert(index, new);
        self.candidates.push(new);
        proof {
            let s = self.nearest@;
            assert forall|i: int, j: int| 0 <= i < j < s.len() implies key_lt(#[trigger] s[i], #[trigger] s[j]) by {
                let o = old(self).nearest@;
                if j < index {
                    assert(key_lt(o[i], o[j]));
                } else if j == index {
                    assert(key_lt(o[i], new));
                } else if i < index {
                    assert(key_lt(o[i], o[j - 1]));
                } else if i == index {
                    assert(key_lt(new, o[j - 1]));
                } else {
                    assert(key_lt(o[i - 1], o[j - 1]));
                }
            }
            assert forall|i: int| 0 <= i < s.len() implies (#[trigger] s[i]).vector_id.0
                < self.visited@.len() && self.visited@[s[i].vector_id.0 as int] by {
                let o = old(self).nearest@;
                if i < index {
                    assert(s[i] == o[i]);
                } else if i > index {
                    assert(s[i] == o[i - 1]);
                }
            }
        }
    }

    /// Sets the bound on the nearest list.
    pub fn set_ef(&mut self, ef: usize)
        requires
            old(self).wf(),
        ensures
            final(self).wf(),
            final(self).spec_ef() == ef,
            final(self).visited_seq() == old(self).visited_seq(),
            final(self).nearest_seq() == old(self).nearest_seq(),
            final(self).candidate_seq() == old(self).candidate_seq(),
    {
        self.ef = ef;
    }

    /// Removes and returns the frontier candidate that comes first in the
    /// candidate order.
    fn pop_nearest(&mut self) -> (r: Candidate)
        requires
            old(self).candidates@.len() > 0,
        ensures
            final(self).ef == old(self).ef,
            final(self).visited == old(self).visited,
            final(self).nearest@ == old(self).nearest@,
            final(self).candidates@.len() == old(self).candidates@.len() - 1,
            old(self).candidates@.contains(r),
            forall|i: int| 0 <= i < old(self).candidates@.len() ==> !key_lt(#[trigger] old(self).candidates@[i], r),
            forall|i: int|
                0 <= i < final(self).candidates@.len() ==> old(self).candidates@.contains(
                    #[trigger] final(self).candidates@[i],
                ),
            forall|j: int|
                0 <= j < old(self).candidates@.len() && #[trigger] old(self).candidates@[j] != r ==> final(self).candidates@.contains(
                    old(self).candidates@[j],
                ),
    {
        let mut best: usize = 0;
        let mut i: usize = 1;
        while i < self.candidates.len()
            invariant
                self.candidates@ == old(self).candidates@,
                0 <= best < i <= self.candidates@.len(),
                forall|j: int| 0 <= j < i ==> !key_lt(#[trigger] self.candidates@[j], self.candidates@[best as int]),
            decreases self.candidates@.len() - i,
        {
            let c = self.candidates[i];
            let b = self.candidates[best];
            if c.distance < b.distance || (c.distance == b.distance && c.vector_id.0 < b.vector_id.0) {
                best = i;
            }
            i = i + 1;
        }
        let r = self.candidates.swap_remove(best);
        proof {
            assert(old(self).candidates@[best as int] == r);
            assert forall|i: int| 0 <= i < self.candidates@.len() implies old(self).candidates@.contains(
                #[trigger] self.candidates@[i],
            ) by {
                if i == best {
                    assert(self.candidates@[i] == old(self).candidates@.last());
                    assert(old(self).candidates@[old(self).candidates@.len() - 1] == self.candidates@[i]);
                } else {
                    assert(old(self).candidates@[i] == self.candidates@[i]);
                }
            }
            assert forall|j: int|
                0 <= j < old(self).candidates@.len() && #[trigger] old(self).candidates@[j] != r implies self.candidates@.contains(
                    old(self).candidates@[j],
                ) by {
                let last = old(self).candidates@.len() - 1;
                if j < last {
                    if j != best {
                        assert(self.candidates@[j] == old(self).candidates@[j]);
                    } else {
                        assert(false);
                    }
                } else {
                    assert(j != best);
                    assert(self.candidates@[best as int] == old(self).candidates@[j]);
                }
            }
        }
        r
    }

    /// Expands the frontier on `layer`: while the nearest frontier candidate
    /// is no farther than the worst of the nearest list, it is removed and up
    /// to `links` of its neighbours are offered (see `push`); the nearest
    /// list is cut to `ef` after each expansion.
    #[verifier::spinoff_prover]
    pub fn search<L: Layer>(&mut self, layer: &L, vector: &Vector, vectors: &Vec<Vector>, links: usize)
        requires
            old(self).wf(),
            old(self).spec_ef() >= 1,
            old(self).measured_for(vector.coords(), vectors@),
            dims_ok(vectors@, vector.coords().len()),
            layer_closed(layer, vectors@.len()),
        ensures
            final(self).wf(),
            final(self).spec_ef() == old(self).spec_ef(),
            final(self).measured_for(vector.coords(), vectors@),
            final(self).visited_seq().len() == old(self).visited_seq().len(),
            old(self).nearest_seq().len() <= old(self).spec_ef() ==> final(self).nearest_seq().len() <= old(self).spec_ef(),
            old(self).nearest_seq().len() > 0 ==> final(self).nearest_seq().len() > 0,
            forall|i: int|
                0 <= i < final(self).nearest_seq().len() ==> #[trigger] found(
                    final(self).nearest_seq()[i].vector_id,
                    old(self).nearest_seq(),
                    old(self).candidate_seq(),
                    layer,
                ),
            forall|i: int|
                0 <= i < final(self).candidate_seq().len() ==> #[trigger] found(
                    final(self).candidate_seq()[i].vector_id,
                    old(self).nearest_seq(),
                    old(self).candidate_seq(),
                    layer,
                ),
            final(self).candidate_seq().len() > 0 ==> final(self).nearest_seq().len() > 0 && forall|i: int|
                0 <= i < final(self).candidate_seq().len() ==> (#[trigger] final(self).candidate_seq()[i]).distance
                    > final(self).nearest_seq().last().distance,
            no_worse(final(self).nearest_seq(), old(self).nearest_seq(), old(self).spec_ef()),
            forall|i: int|
                0 <= i < final(self).nearest_seq().len() ==> settled(
                    final(self).visited_seq(),
                    layer,
                    (#[trigger] final(self).nearest_seq()[i]).vector_id,
                    links as nat,
                    old(self).nearest_seq(),
                    old(self).candidate_seq(),
                ),
    {
        let ghost n0 = old(self).nearest@;
        let ghost c0 = old(self).candidates@;
        proof {
            assert forall|i: int| 0 <= i < n0.len() implies #[trigger] found(n0[i].vector_id, n0, c0, layer) by {
                assert(ids_of(n0)[i] == n0[i].vector_id);
            }
            assert forall|i: int| 0 <= i < c0.len() implies #[trigger] found(c0[i].vector_id, n0, c0, layer) by {
                assert(ids_of(c0)[i] == c0[i].vector_id);
            }
            assert forall|i: int| 0 <= i < n0.len() && i < old(self).ef implies #[trigger] place_no_worse(n0, n0, i) by {}
            assert forall|i: int| 0 <= i < n0.len() implies holds_id(c0, (#[trigger] n0[i]).vector_id) || settled(old(self).visited@, layer, n0[i].vector_id, links as nat, n0, c0) by {
                if !holds_id(c0, n0[i].vector_id) {
                    assert(holds_id(n0, n0[i].vector_id));
                }
            }
        }
        loop
            invariant
                self.wf(),
                self.ef == old(self).ef,
                self.ef >= 1,
                self.measured_for(vector.coords(), vectors@),
                dims_ok(vectors@, vector.coords().len()),
                layer_closed(layer, vectors@.len()),
                self.visited@.len() == old(self).visited@.len(),
                n0.len() <= self.ef ==> self.nearest@.len() <= self.ef,
                n0.len() > 0 ==> self.nearest@.len() > 0,
                forall|i: int| 0 <= i < self.nearest@.len() ==> #[trigger] found(self.nearest@[i].vector_id, n0, c0, layer),
                forall|i: int| 0 <= i < self.candidates@.len() ==> #[trigger] found(self.candidates@[i].vector_id, n0, c0, layer),
                no_worse(self.nearest@, n0, old(self).ef as nat),
                forall|i: int| 0 <= i < self.nearest@.len() ==> holds_id(self.candidates@, (#[trigger] self.nearest@[i]).vector_id) || settled(self.visited@, layer, self.nearest@[i].vector_id, links as nat, n0, c0),
            ensures
                self.wf(),
                self.ef == old(self).ef,
                self.ef >= 1,
                self.measured_for(vector.coords(), vectors@),
                self.visited@.len() == old(self).visited@.len(),
                n0.len() <= self.ef ==> self.nearest@.len() <= self.ef,
                n0.len() > 0 ==> self.nearest@.len() > 0,
                forall|i: int| 0 <= i < self.nearest@.len() ==> #[trigger] found(self.nearest@[i].vector_id, n0, c0, layer),
                forall|i: int| 0 <= i < self.candidates@.len() ==> #[trigger] found(self.candidates@[i].vector_id, n0, c0, layer),
                no_worse(self.nearest@, n0, old(self).ef as nat),
                forall|i: int| 0 <= i < self.nearest@.len() ==> holds_id(self.candidates@, (#[trigger] self.nearest@[i]).vector_id) || settled(self.visited@, layer, self.nearest@[i].vector_id, links as nat, n0, c0),
                self.candidates@.len() > 0 ==> self.nearest@.len() > 0 && forall|i: int|
                    0 <= i < self.candidates@.len() ==> (#[trigger] self.candidates@[i]).distance > self.nearest@.last().distance,
            decreases unvisited(self.visited@), self.candidates@.len(),
        {
            if self.candidates.len() == 0 {
                break;
            }
            let ghost u0 = unvisited(self.visited@);
            let ghost before = self.candidates@;
            let candidate = self.pop_nearest();
            let ghost k0 = self.candidates@.len();
            proof {
                let j = choose|j: int| 0 <= j < before.len() && before[j] == candidate;
                assert(found(before[j].vector_id, n0, c0, layer));
                assert forall|i: int| 0 <= i < self.candidates@.len() implies #[trigger] found(self.candidates@[i].vector_id, n0, c0, layer) by {
                    let jj = choose|jj: int| 0 <= jj < before.len() && before[jj] == self.candidates@[i];
                    assert(found(before[jj].vector_id, n0, c0, layer));
                }
                assert forall|i: int| 0 <= i < self.nearest@.len() implies holds_id(self.candidates@, (#[trigger] self.nearest@[i]).vector_id)
                    || settled(self.visited@, layer, self.nearest@[i].vector_id, links as nat, n0, c0)
                    || self.nearest@[i].vector_id == candidate.vector_id by {
                    let id = self.nearest@[i].vector_id;
                    if holds_id(before, id) && id != candidate.vector_id {
                        let j = choose|j: int| 0 <= j < before.len() && (#[trigger] before[j]).vector_id == id;
                        assert(before[j] != candidate);
                        assert(self.candidates@.contains(before[j]));
                        let jj = choose|jj: int| 0 <= jj < self.candidates@.len() && self.candidates@[jj] == before[j];
                        assert(self.candidates@[jj].vector_id == id);
                    }
                }
            }
            if self.nearest.len() > 0 {
                let furthest = self.nearest[self.nearest.len() - 1];
                if candidate.distance > furthest.distance {
                    proof {
                        assert forall|i: int| 0 <= i < self.candidates@.len() implies (#[trigger] self.candidates@[i]).distance > self.nearest@.last().distance by {
                            let j = choose|j: int| 0 <= j < before.len() && before[j] == self.candidates@[i];
                            assert(!key_lt(before[j], candidate));
                        }
                        let cj = choose|j: int| 0 <= j < before.len() && before[j] == candidate;
                        assert(before[cj] == candidate_for(vector.coords(), vectors@, candidate.vector_id));
                        assert forall|i: int| 0 <= i < self.nearest@.len() implies self.nearest@[i].vector_id != candidate.vector_id by {
                            let last = self.nearest@.len() - 1;
                            assert(self.nearest@[i] == candidate_for(vector.coords(), vectors@, self.nearest@[i].vector_id));
                            if i < last {
                                assert(key_lt(self.nearest@[i], self.nearest@[last]));
                            }
                        }
                    }
                    break;
                }
            }
            let mut iter = layer.nearest_iter(&candidate.vector_id);
            let mut taken: usize = 0;
            proof {
                assert(neighbors(layer.spec_node(candidate.vector_id.0 as int)).skip(0) =~= neighbors(layer.spec_node(candidate.vector_id.0 as int)));
            }
            while taken < links
                invariant
                    self.wf(),
                    self.ef == old(self).ef,
                    self.ef >= 1,
                    iter.wf(),
                    self.measured_for(vector.coords(), vectors@),
                    dims_ok(vectors@, vector.coords().len()),
                    layer_closed(layer, vectors@.len()),
                    candidate.vector_id.0 < vectors@.len(),
                    forall|k: int| 0 <= k < iter.remaining().len() ==> #[trigger] listed(layer, iter.remaining()[k]),
                    forall|k: int| 0 <= k < iter.remaining().len() ==> (#[trigger] iter.remaining()[k]).0 < vectors@.len(),
                    self.visited@.len() == old(self).visited@.len(),
                    n0.len() > 0 ==> self.nearest@.len() > 0,
                    unvisited(self.visited@) < u0 || (unvisited(self.visited@) == u0 && self.candidates@.len() == k0),
                    forall|i: int| 0 <= i < self.nearest@.len() ==> #[trigger] found(self.nearest@[i].vector_id, n0, c0, layer),
                    forall|i: int| 0 <= i < self.candidates@.len() ==> #[trigger] found(self.candidates@[i].vector_id, n0, c0, layer),
                    no_worse(self.nearest@, n0, old(self).ef as nat),
                    forall|i: int| 0 <= i < self.nearest@.len() ==> holds_id(self.candidates@, (#[trigger] self.nearest@[i]).vector_id) || settled(self.visited@, layer, self.nearest@[i].vector_id, links as nat, n0, c0) || self.nearest@[i].vector_id == candidate.vector_id,
                    taken <= neighbors(layer.spec_node(candidate.vector_id.0 as int)).len(),
                    iter.remaining() == neighbors(layer.spec_node(candidate.vector_id.0 as int)).skip(taken as int),
                    expanded(self.visited@, layer, candidate.vector_id, taken as nat),
                ensures
                    self.wf(),
                    self.ef == old(self).ef,
                    self.ef >= 1,
                    iter.wf(),
                    self.measured_for(vector.coords(), vectors@),
                    dims_ok(vectors@, vector.coords().len()),
                    layer_closed(layer, vectors@.len()),
                    candidate.vector_id.0 < vectors@.len(),
                    forall|k: int| 0 <= k < iter.remaining().len() ==> #[trigger] listed(layer, iter.remaining()[k]),
                    forall|k: int| 0 <= k < iter.remaining().len() ==> (#[trigger] iter.remaining()[k]).0 < vectors@.len(),
                    self.visited@.len() == old(self).visited@.len(),
                    n0.len() > 0 ==> self.nearest@.len() > 0,
                    unvisited(self.visited@) < u0 || (unvisited(self.visited@) == u0 && self.candidates@.len() == k0),
                    forall|i: int| 0 <= i < self.nearest@.len() ==> #[trigger] found(self.nearest@[i].vector_id, n0, c0, layer),
                    forall|i: int| 0 <= i < self.candidates@.len() ==> #[trigger] found(self.candidates@[i].vector_id, n0, c0, layer),
                    no_worse(self.nearest@, n0, old(self).ef as nat),
                    forall|i: int| 0 <= i < self.nearest@.len() ==> holds_id(self.candidates@, (#[trigger] self.nearest@[i]).vector_id) || settled(self.visited@, layer, self.nearest@[i].vector_id, links as nat, n0, c0) || self.nearest@[i].vector_id == candidate.vector_id,
                    taken <= neighbors(layer.spec_node(candidate.vector_id.0 as int)).len(),
                    iter.remaining() == neighbors(layer.spec_node(candidate.vector_id.0 as int)).skip(taken as int),
                    expanded(self.visited@, layer, candidate.vector_id, taken as nat),
                    expanded(self.visited@, layer, candidate.vector_id, links as nat),
                decreases iter.remaining().len(),
            {
                let ghost rem = iter.remaining();
                match iter.next() {
                    None => {
                        proof {
                            assert(rem.len() == 0);
                            let nb = neighbors(layer.spec_node(candidate.vector_id.0 as int));
                            assert(taken == nb.len());
                            assert forall|k: int| 0 <= k < nb.len() && k < links implies {
                                let v = #[trigger] nb[k];
                                v.0 >= self.visited@.len() || self.visited@[v.0 as int]
                            } by {
                                assert(k < taken);
                            }
                        }
                        break;
                    },
                    Some(vector_id) => {
                        let ghost before_v = self.visited@;
                        let ghost before_n = self.nearest@;
                        let ghost before_c = self.candidates@;
                        proof {
                            assert(listed(layer, vector_id));
                        }
                        self.push(&vector_id, vector, vectors);
                        proof {
                            let nb = neighbors(layer.spec_node(candidate.vector_id.0 as int));
                            assert(vector_id == nb[taken as int]);
                            assert(iter.remaining() =~= nb.skip(taken + 1));
                            assert(forall|j: int| 0 <= j < before_v.len() && before_v[j] ==> self.visited@[j]);
                            lemma_expanded_grow(before_v, self.visited@, layer, candidate.vector_id, taken as nat);
                            assert forall|k: int| 0 <= k < nb.len() && k < taken + 1 implies {
                                let v = #[trigger] nb[k];
                                v.0 >= self.visited@.len() || self.visited@[v.0 as int]
                            } by {
                                if k == taken {
                                    assert(nb[k] == vector_id);
                                }
                            }
                            assert forall|i: int| 0 <= i < self.nearest@.len() implies holds_id(self.candidates@, (#[trigger] self.nearest@[i]).vector_id) || settled(self.visited@, layer, self.nearest@[i].vector_id, links as nat, n0, c0) || self.nearest@[i].vector_id == candidate.vector_id by {
                                let id = self.nearest@[i].vector_id;
                                let new = candidate_for(vector.coords(), vectors@, vector_id);
                                let pos = count_less(before_n, new);
                                lemma_count_less(before_n, new);
                                let fresh = vector_id.0 < before_v.len() && !before_v[vector_id.0 as int];
                                if fresh && pos < self.ef && i == pos {
                                    assert(self.candidates@[before_c.len() as int] == new);
                                } else {
                                    let i0 = if fresh && pos < self.ef && i > pos { i - 1 } else { i };
                                    assert(self.nearest@[i] == before_n[i0]);
                                    if holds_id(before_c, id) {
                                        let j = choose|j: int| 0 <= j < before_c.len() && (#[trigger] before_c[j]).vector_id == id;
                                        assert(self.candidates@[j] == before_c[j]);
                                    } else if expanded(before_v, layer, id, links as nat) {
                                        lemma_expanded_grow(before_v, self.visited@, layer, id, links as nat);
                                    }
                                }
                            }
                            if vector_id.0 < before_v.len() && !before_v[vector_id.0 as int] {
                                lemma_unvisited_update(before_v, vector_id.0 as int);
                                let new = candidate_for(vector.coords(), vectors@, vector_id);
                                let pos = count_less(before_n, new);
                                lemma_count_less(before_n, new);
                                if pos < self.ef {
                                    lemma_insert_no_worse(before_n, new, old(self).ef as nat, n0);
                                    assert forall|i: int| 0 <= i < self.nearest@.len() implies #[trigger] found(self.nearest@[i].vector_id, n0, c0, layer) by {
                                        if i < pos {
                                            assert(self.nearest@[i] == before_n[i]);
                                        } else if i > pos {
                                            assert(self.nearest@[i] == before_n[i - 1]);
                                        }
                                    }
                                    assert forall|i: int| 0 <= i < self.candidates@.len() implies #[trigger] found(self.candidates@[i].vector_id, n0, c0, layer) by {
                                        if i < before_c.len() {
                                            assert(self.candidates@[i] == before_c[i]);
                                        }
                                    }
                                    assert(measured(self.nearest@, vector.coords(), vectors@)) by {
                                        assert forall|i: int| 0 <= i < self.nearest@.len() implies (#[trigger] self.nearest@[i]).vector_id.0 < vectors@.len() && self.nearest@[i] == candidate_for(vector.coords(), vectors@, self.nearest@[i].vector_id) by {
                                            if i < pos {
                                                assert(self.nearest@[i] == before_n[i]);
                                            } else if i > pos {
                                                assert(self.nearest@[i] == before_n[i - 1]);
                                            }
                                        }
                                    }
                                    assert(measured(self.candidates@, vector.coords(), vectors@)) by {
                                        assert forall|i: int| 0 <= i < self.candidates@.len() implies (#[trigger] self.candidates@[i]).vector_id.0 < vectors@.len() && self.candidates@[i] == candidate_for(vector.coords(), vectors@, self.candidates@[i].vector_id) by {
                                            if i < before_c.len() {
                                                assert(self.candidates@[i] == before_c[i]);
                                            }
                                        }
                                    }
                                }
                            }
                        }
                        taken = taken + 1;
                    },
                }
            }
            let ghost before_t = self.nearest@;
            self.nearest.truncate(self.ef);
            proof {
                assert forall|i: int| 0 <= i < self.nearest@.len() implies #[trigger] found(self.nearest@[i].vector_id, n0, c0, layer) by {
                    assert(self.nearest@[i] == before_t[i]);
                }
                assert(measured(self.nearest@, vector.coords(), vectors@)) by {
                    assert forall|i: int| 0 <= i < self.nearest@.len() implies (#[trigger] self.nearest@[i]).vector_id.0 < vectors@.len() && self.nearest@[i] == candidate_for(vector.coords(), vectors@, self.nearest@[i].vector_id) by {
                        assert(self.nearest@[i] == before_t[i]);
                    }
                }
                assert(sorted_strict(self.nearest@)) by {
                    assert forall|i: int, j: int| 0 <= i < j < self.nearest@.len() implies key_lt(#[trigger] self.nearest@[i], #[trigger] self.nearest@[j]) by {
                        assert(self.nearest@[i] == before_t[i]);
                        assert(self.nearest@[j] == before_t[j]);
                    }
                }
                assert forall|i: int| 0 <= i < self.nearest@.len() implies (#[trigger] self.nearest@[i]).vector_id.0
                    < self.visited@.len() && self.visited@[self.nearest@[i].vector_id.0 as int] by {
                    assert(self.nearest@[i] == before_t[i]);
                }
                assert forall|i: int| 0 <= i < n0.len() && i < old(self).ef implies #[trigger] place_no_worse(self.nearest@, n0, i) by {
                    assert(place_no_worse(before_t, n0, i));
                    assert(self.nearest@[i] == before_t[i]);
                }
                assert forall|i: int| 0 <= i < self.nearest@.len() implies holds_id(self.candidates@, (#[trigger] self.nearest@[i]).vector_id) || settled(self.visited@, layer, self.nearest@[i].vector_id, links as nat, n0, c0) by {
                    assert(self.nearest@[i] == before_t[i]);
                }
            }
        }
    }

    /// Prepares the descent to the next layer: the frontier becomes the
    /// nearest list, and the visited set holds exactly its members.
    pub fn cull(&mut self)
        requires
            old(self).wf(),
        ensures
            final(self).wf(),
            final(self).spec_ef() == old(self).spec_ef(),
            final(self).nearest_seq() == old(self).nearest_seq(),
            final(self).candidate_seq() == old(self).nearest_seq(),
            final(self).visited_seq().len() == old(self).visited_seq().len(),
            forall|i: int|
                0 <= i < final(self).visited_seq().len() ==> #[trigger] final(self).visited_seq()[i]
                    == exists|j: int| 0 <= j < old(self).nearest_seq().len() && old(self).nearest_seq()[j].vector_id.0 == i,
    {
        self.candidates.clear();
        self.visited.clear();
        let mut ids: Vec<VectorID> = Vec::new();
        let mut k: usize = 0;
        while k < self.nearest.len()
            invariant
                self.nearest@ == old(self).nearest@,
                self.ef == old(self).ef,
                self.visited.wf(),
                self.visited@.len() == old(self).visited@.len(),
                forall|i: int| 0 <= i < self.visited@.len() ==> !#[trigger] self.visited@[i],
                k <= self.nearest@.len(),
                self.candidates@ == self.nearest@.take(k as int),
                ids@ == ids_of(self.nearest@.take(k as int)),
            decreases self.nearest@.len() - k,
        {
            let c = self.nearest[k];
            self.candidates.push(c);
            ids.push(c.vector_id);
            assert(self.candidates@ =~= self.nearest@.take(k + 1));
            assert(ids@ =~= ids_of(self.nearest@.take(k + 1)));
            k = k + 1;
        }
        assert(self.candidates@ =~= self.nearest@);
        assert(ids@ =~= ids_of(self.nearest@));
        self.visited.extend(&ids);
        proof {
            let o = old(self).nearest@;
            assert forall|i: int| 0 <= i < self.visited@.len() implies #[trigger] self.visited@[i]
                == exists|j: int| 0 <= j < o.len() && o[j].vector_id.0 == i by {
                if exists|j: int| 0 <= j < o.len() && o[j].vector_id.0 == i {
                    let j = choose|j: int| 0 <= j < o.len() && o[j].vector_id.0 == i;
                    assert(ids@[j].0 == i);
                }
                if exists|j: int| 0 <= j < ids@.len() && ids@[j].0 == i {
                    let j = choose|j: int| 0 <= j < ids@.len() && ids@[j].0 == i;
                    assert(o[j].vector_id.0 == i);
                }
            }
            assert forall|i: int| 0 <= i < self.nearest@.len() implies (#[trigger] self.nearest@[i]).vector_id.0
                < self.visited@.len() && self.visited@[self.nearest@[i].vector_id.0 as int] by {
                let id = self.nearest@[i].vector_id;
                assert(ids@[i] == id);
                assert(ids_of(o)[i] == id);
            }
        }
    }

    /// Empties every buffer and the visited set.
    pub fn reset(&mut self)
        requires
            old(self).wf(),
        ensures
            final(self).wf(),
            final(self).spec_ef() == old(self).spec_ef(),
            final(self).nearest_seq().len() == 0,
            final(self).candidate_seq().len() == 0,
            final(self).visited_seq() == Seq::new(old(self).visited_seq().len(), |i: int| false),
    {
        self.visited.clear();
        self.candidates.clear();
        self.nearest.clear();
        self.working.clear();
        self.discarded.clear();
    }

    /// Keeps the first `k` members of the nearest list.
    pub fn truncate(&mut self, k: usize)
        requires
            old(self).wf(),
        ensures
            final(self).wf(),
            final(self).spec_ef() == old(self).spec_ef(),
            final(self).visited_seq() == old(self).visited_seq(),
            final(self).candidate_seq() == old(self).candidate_seq(),
            k <= old(self).nearest_seq().len() ==> final(self).nearest_seq() == old(self).nearest_seq().take(k as int),
            k > old(self).nearest_seq().len() ==> final(self).nearest_seq() == old(self).nearest_seq(),
    {
        self.nearest.truncate(k);
        proof {
            let o = old(self).nearest@;
            assert forall|i: int, j: int| 0 <= i < j < self.nearest@.len() implies key_lt(#[trigger] self.nearest@[i], #[trigger] self.nearest@[j]) by {
                assert(self.nearest@[i] == o[i]);
                assert(self.nearest@[j] == o[j]);
            }
            assert forall|i: int| 0 <= i < self.nearest@.len() implies (#[trigger] self.nearest@[i]).vector_id.0
                < self.visited@.len() && self.visited@[self.nearest@[i].vector_id.0 as int] by {
                assert(self.nearest@[i] == o[i]);
            }
        }
    }

    /// The nearest list, nearest first.
    pub fn select_simple(&self) -> (r: &[Candidate])
        ensures
            r@ == self.nearest_seq(),
    {
        self.nearest.as_slice()
    }

    /// A copy of the nearest list, nearest first.
    pub fn iter(&self) -> (r: Vec<Candidate>)
        ensures
            r@ == self.nearest_seq(),
    {
        self.nearest.clone()
    }
}

/// `id` was held by the search before, or is listed on the layer.
pub open spec fn found<L: Layer>(id: VectorID, nearest: Seq<Candidate>, candidates: Seq<Candidate>, layer: &L) -> bool {
    ids_of(nearest).contains(id) || ids_of(candidates).contains(id) || listed(layer, id)
}

/// `a` is `b` after `reset`: the same bound, nothing found, nothing visited.
pub open spec fn reset_of(a: Search, b: Search) -> bool {
    &&& a.wf()
    &&& a.spec_ef() == b.spec_ef()
    &&& a.nearest_seq().len() == 0
    &&& a.candidate_seq().len() == 0
    &&& a.visited_seq() == Seq::new(b.visited_seq().len(), |i: int| false)
}

/// `a` is a search state as `Search::new(capacity)` makes it.
pub open spec fn fresh(a: Search, capacity: nat) -> bool {
    &&& a.wf()
    &&& a.spec_ef() == 5
    &&& a.nearest_seq().len() == 0
    &&& a.candidate_seq().len() == 0
    &&& a.visited_seq() == Seq::new(capacity, |i: int| false)
}

/// A stack of reusable pairs of search states, all of one capacity.
pub struct SearchPool {
    pool: Vec<(Search, Search)>,
    len: usize,
}

impl SearchPool {
    /// The capacity of the search states the pool hands out.
    pub closed spec fn capacity(&self) -> nat {
        self.len as nat
    }

    /// The pooled pairs, the most recently returned last.
    pub closed spec fn pairs(&self) -> Seq<(Search, Search)> {
        self.pool@
    }

    /// Every pooled state is well formed and sized for the pool's capacity.
    pub closed spec fn wf(&self) -> bool {
        forall|i: int|
            0 <= i < self.pool@.len() ==> {
                let (a, b) = #[trigger] self.pool@[i];
                &&& a.wf() && b.wf()
                &&& a.visited_seq().len() == self.len && b.visited_seq().len() == self.len
                &&& a.nearest_seq().len() == 0 && b.nearest_seq().len() == 0
                &&& a.candidate_seq().len() == 0 && b.candidate_seq().len() == 0
            }
    }

    /// An empty pool of states over the identifiers `0..len`.
    pub fn new(len: usize) -> (r: Self)
        ensures
            r.wf(),
            r.capacity() == len,
            r.pairs().len() == 0,
    {
        SearchPool { pool: Vec::new(), len }
    }

    /// The most recently returned pair, or a fresh one.
    pub fn pop(&mut self) -> (r: (Search, Search))
        requires
            old(self).wf(),
        ensures
            final(self).wf(),
            final(self).capacity() == old(self).capacity(),
            r.0.wf() && r.1.wf(),
            r.0.visited_seq().len() == old(self).capacity(),
            r.1.visited_seq().len() == old(self).capacity(),
            r.0.nearest_seq().len() == 0 && r.1.nearest_seq().len() == 0,
            r.0.candidate_seq().len() == 0 && r.1.candidate_seq().len() == 0,
            old(self).pairs().len() > 0 ==> r == old(self).pairs().last() && final(self).pairs() == old(self).pairs().drop_last(),
            old(self).pairs().len() == 0 ==> fresh(r.0, old(self).capacity()) && fresh(r.1, old(self).capacity())
                && final(self).pairs().len() == 0,
    {
        match self.pool.pop() {
            Some(pair) => {
                proof {
                    assert(old(self).pool@[old(self).pool@.len() - 1] == pair);
                    assert(self.pool@ =~= old(self).pool@.drop_last());
                    assert forall|i: int| 0 <= i < self.pool@.len() implies #[trigger] self.pool@[i] == old(self).pool@[i] by {}
                }
                pair
            },
            None => (Search::new(self.len), Search::new(self.len)),
        }
    }

    /// Returns a pair to the pool after resetting it.
    pub fn push(&mut self, item: (Search, Search))
        requires
            old(self).wf(),
            item.0.wf() && item.1.wf(),
            item.0.visited_seq().len() == old(self).capacity(),
            item.1.visited_seq().len() == old(self).capacity(),
        ensures
            final(self).wf(),
            final(self).capacity() == old(self).capacity(),
            final(self).pairs().len() == old(self).pairs().len() + 1,
            final(self).pairs().drop_last() == old(self).pairs(),
            reset_of(final(self).pairs().last().0, item.0),
            reset_of(final(self).pairs().last().1, item.1),
    {
        let (mut a, mut b) = item;
        a.reset();
        b.reset();
        self.pool.push((a, b));
        proof {
            assert forall|i: int| 0 <= i < self.pool@.len() - 1 implies #[trigger] self.pool@[i] == old(self).pool@[i] by {}
            assert(self.pool@.drop_last() =~= old(self).pool@);
        }
    }
}

} // verus!
