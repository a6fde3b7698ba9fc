use vstd::prelude::*;

use crate::node::{lemma_neighbors, neighbors, removed_at, valid_prefix, BaseNode, UpperNode, BASE_SLOTS, M};
use crate::search::{candidate_for, dims_ok, found, ids_of, key_lt, layer_closed, listed, measured, sorted_strict, Candidate, Layer, Search};
use crate::codec::{decode_words, encode_words, le_words, lemma_le_words, lemma_le_words_injective};
use crate::vector::{Vector, VectorID, SENTINEL};

verus! {

/// The errors of the index and of the collection around it.
#[derive(Clone, Copy, Debug, PartialEq, Eq, Structural)]
pub enum Error {
    /// A vector's length differs from the collection's dimension.
    InvalidDimension,
    /// No record has the identifier or key.
    NotFound,
    /// A search came before any build.
    IndexNotBuilt,
    /// A build holds the index.
    IndexBuilding,
    /// The key is taken and overwriting was not asked for.
    Duplicate,
    /// Persisted bytes do not describe an index.
    SerializationError,
    /// The underlying store failed.
    BackingStoreError,
}

/// The highest layer a vector can be assigned.
pub const MAX_LAYER: u8 = 16;

/// The random word below which a vector reaches layer 1; each further layer
/// divides it by `M`, so a vector reaches layer `l` with probability `M^-l`.
pub const LAYER_ONE_BOUND: u64 = 0x0800_0000_0000_0000;

/// The top layer drawn from `draw`, counting from layer `l` whose bound is
/// `bound`.
pub open spec fn layer_from(draw: u64, l: nat, bound: nat) -> nat
    decreases MAX_LAYER - l,
{
    if l < MAX_LAYER && draw < bound {
        layer_from(draw, l + 1, bound / 32)
    } else {
        l
    }
}

/// The top layer of a vector whose random word is `draw`: the geometric
/// assignment `floor(-ln(U) / ln(M))` for `U = (draw + 1) / 2^64`, capped at
/// `MAX_LAYER`.
pub open spec fn layer_for(draw: u64) -> nat {
    layer_from(draw, 0, LAYER_ONE_BOUND as nat)
}

proof fn lemma_layer_from_bound(draw: u64, l: nat, bound: nat)
    requires
        l <= MAX_LAYER,
    ensures
        l <= layer_from(draw, l, bound) <= MAX_LAYER,
    decreases MAX_LAYER - l,
{
    if l < MAX_LAYER && draw < bound {
        lemma_layer_from_bound(draw, l + 1, bound / 32);
    }
}

/// The top layer for the random word `draw`.
pub fn layer_of(draw: u64) -> (r: u8)
    ensures
        r == layer_for(draw),
        r <= MAX_LAYER,
{
    proof {
        lemma_layer_from_bound(draw, 0, LAYER_ONE_BOUND as nat);
    }
    let mut l: u8 = 0;
    let mut bound: u64 = LAYER_ONE_BOUND;
    while l < MAX_LAYER && draw < bound
        invariant
            l <= MAX_LAYER,
            layer_from(draw, l as nat, bound as nat) == layer_for(draw),
        decreases MAX_LAYER - l,
    {
        bound = bound / 32;
        l = l + 1;
    }
    l
}

/// The number of slots of a node on layer `l`.
pub open spec fn slot_cap(l: int) -> nat {
    if l == 0 {
        BASE_SLOTS as nat
    } else {
        M as nat
    }
}

/// Every identifier a node lists is a live vector other than the node's own
/// (`i`) that is present on the node's layer (`l`).
pub open spec fn links_ok(s: Seq<VectorID>, i: int, l: int, levels: Seq<u8>, live: Seq<bool>) -> bool {
    forall|p: int|
        0 <= p < s.len() && (#[trigger] s[p]).is_valid() ==> {
            &&& s[p].0 < levels.len()
            &&& s[p].0 != i
            &&& live[s[p].0 as int]
            &&& levels[s[p].0 as int] >= l
        }
}

/// The listed identifiers are strictly ascending in distance from `query`,
/// ties going to the lower identifier.
pub open spec fn ordered_for(s: Seq<VectorID>, query: Seq<i32>, vs: Seq<Vector>) -> bool {
    forall|p: int, q: int|
        0 <= p < q < s.len() && (#[trigger] s[q]).is_valid() ==> key_lt(
            candidate_for(query, vs, #[trigger] s[p]),
            candidate_for(query, vs, s[q]),
        )
}

/// No slot is taken.
pub open spec fn empty_slots(s: Seq<VectorID>) -> bool {
    forall|p: int| 0 <= p < s.len() ==> !(#[trigger] s[p]).is_valid()
}

/// The node of vector `i` on layer `l` is well formed.
pub open spec fn node_ok(s: Seq<VectorID>, i: int, l: int, vs: Seq<Vector>, levels: Seq<u8>, live: Seq<bool>) -> bool {
    &&& s.len() == slot_cap(l)
    &&& valid_prefix(s)
    &&& links_ok(s, i, l, levels, live)
    &&& ordered_for(s, vs[i].coords(), vs)
    &&& (levels[i] < l || !live[i]) ==> empty_slots(s)
}

/// A layered navigable small-world graph over a dense array of vectors.
#[derive(Debug)]
pub struct Index {
    dimension: usize,
    ef_search: usize,
    ef_construction: usize,
    vectors: Vec<Vector>,
    levels: Vec<u8>,
    live: Vec<bool>,
    base: Vec<BaseNode>,
    upper: Vec<Vec<UpperNode>>,
    entry: VectorID,
}

impl Index {
    /// The vectors, indexed by identifier.
    pub closed spec fn vecs(&self) -> Seq<Vector> {
        self.vectors@
    }

    /// The top layer of each vector.
    pub closed spec fn layers(&self) -> Seq<u8> {
        self.levels@
    }

    /// Which vectors are live (not deleted).
    pub closed spec fn lives(&self) -> Seq<bool> {
        self.live@
    }

    /// The number of layers above the ground layer.
    pub closed spec fn num_upper(&self) -> nat {
        self.upper@.len()
    }

    /// The slots of the node of vector `i` on layer `l`.
    pub closed spec fn slots(&self, l: int, i: int) -> Seq<VectorID> {
        if l == 0 {
            self.base@[i].slots()
        } else {
            self.upper@[l - 1]@[i].slots()
        }
    }

    pub closed spec fn entry_point(&self) -> VectorID {
        self.entry
    }

    pub closed spec fn spec_dimension(&self) -> nat {
        self.dimension as nat
    }

    pub closed spec fn spec_ef_search(&self) -> nat {
        self.ef_search as nat
    }

    pub closed spec fn spec_ef_construction(&self) -> nat {
        self.ef_construction as nat
    }

    /// The number of vector slots.
    pub open spec fn n(&self) -> nat {
        self.vecs().len()
    }

    /// True when `i` names a live vector.
    pub open spec fn is_live(&self, i: int) -> bool {
        0 <= i < self.n() && self.lives()[i]
    }

    /// The well-formedness of the graph.
    pub closed spec fn wf(&self) -> bool {
        let n = self.vectors@.len();
        &&& self.levels@.len() == n
        &&& self.live@.len() == n
        &&& self.base@.len() == n
        &&& n < SENTINEL
        &&& self.upper@.len() <= MAX_LAYER
        &&& dims_ok(self.vectors@, self.dimension as nat)
        &&& forall|i: int| 0 <= i < n ==> #[trigger] self.levels@[i] <= self.upper@.len()
        &&& self.upper@.len() > 0 ==> exists|i: int| 0 <= i < n && #[trigger] self.levels@[i] == self.upper@.len()
        &&& forall|l: int| 0 <= l < self.upper@.len() ==> (#[trigger] self.upper@[l])@.len() == n
        &&& forall|l: int, i: int|
            0 <= l <= self.upper@.len() && 0 <= i < n ==> #[trigger] node_ok(
                self.slots(l, i),
                i,
                l,
                self.vectors@,
                self.levels@,
                self.live@,
            )
        &&& self.entry.is_valid() ==> {
            &&& self.entry.0 < n
            &&& self.live@[self.entry.0 as int]
            &&& forall|i: int| 0 <= i < n && self.live@[i] ==> #[trigger] self.levels@[i] <= self.levels@[self.entry.0 as int]
        }
        &&& !self.entry.is_valid() ==> forall|i: int| 0 <= i < n ==> !#[trigger] self.live@[i]
    }

    /// The per-vector sequences of a well-formed graph are aligned and every
    /// vector has the graph's dimension.
    pub proof fn lemma_shape(&self)
        requires
            self.wf(),
        ensures
            self.layers().len() == self.n(),
            self.lives().len() == self.n(),
            self.n() < SENTINEL,
            dims_ok(self.vecs(), self.spec_dimension()),
    {
    }

    /// A well-formed graph has fewer layers than `usize::MAX`.
    pub proof fn lemma_layers_bounded(&self)
        requires
            self.wf(),
        ensures
            self.num_upper() <= MAX_LAYER,
    {
    }

    /// An empty graph for vectors of `dimension` coordinates.
    pub fn new(dimension: usize, ef_search: usize, ef_construction: usize) -> (r: Self)
        ensures
            r.wf(),
            r.n() == 0,
            r.num_upper() == 0,
            r.spec_dimension() == dimension,
            r.spec_ef_search() == ef_search,
            r.spec_ef_construction() == ef_construction,
            !r.entry_point().is_valid(),
    {
        Index {
            dimension,
            ef_search,
            ef_construction,
            vectors: Vec::new(),
            levels: Vec::new(),
            live: Vec::new(),
            base: Vec::new(),
            upper: Vec::new(),
            entry: VectorID(SENTINEL),
        }
    }

    /// The dimension of the indexed vectors.
    pub fn dimension(&self) -> (r: usize)
        ensures
            r == self.spec_dimension(),
    {
        self.dimension
    }

    /// The number of layers, the ground layer included.
    pub fn num_layers(&self) -> (r: usize)
        requires
            self.wf(),
        ensures
            r == self.num_upper() + 1,
    {
        proof {
            self.lemma_layers_bounded();
        }
        self.upper.len() + 1
    }

    /// The entry point, or the sentinel when no vector is live.
    pub fn entry(&self) -> (r: VectorID)
        ensures
            r == self.entry_point(),
    {
        self.entry
    }

    /// The top layer of vector `i`.
    pub fn top_layer(&self, i: usize) -> (r: u8)
        requires
            self.wf(),
            i < self.n(),
        ensures
            r == self.layers()[i as int],
    {
        self.levels[i]
    }

    /// Whether vector `i` is live.
    pub fn live_at(&self, i: usize) -> (r: bool)
        requires
            self.wf(),
            i < self.n(),
        ensures
            r == self.lives()[i as int],
    {
        self.live[i]
    }

    /// A copy of the slots of the node of vector `i` on layer `l`.
    pub fn node(&self, l: usize, i: usize) -> (r: Vec<VectorID>)
        requires
            self.wf(),
            l <= self.num_upper(),
            i < self.n(),
        ensures
            r@ == self.slots(l as int, i as int),
    {
        if l == 0 {
            self.base[i].to_vec()
        } else {
            self.upper[l - 1][i].to_vec()
        }
    }

    /// The number of vector slots, deleted ones included.
    pub fn len(&self) -> (r: usize)
        requires
            self.wf(),
        ensures
            r == self.n(),
    {
        self.vectors.len()
    }

    /// The slot `p` of the node of `i` on layer `l`.
    fn slot(&self, l: usize, i: usize, p: usize) -> (r: VectorID)
        requires
            self.wf(),
            l <= self.num_upper(),
            i < self.n(),
            p < slot_cap(l as int),
        ensures
            r == self.slots(l as int, i as int)[p as int],
    {
        assert(node_ok(self.slots(l as int, i as int), i as int, l as int, self.vectors@, self.levels@, self.live@));
        if l == 0 {
            self.base[i].get(p)
        } else {
            self.upper[l - 1][i].get(p)
        }
    }

    /// Adds `q` to the neighbours of `u` on layer `l`, at the place its
    /// distance from `u` gives it; when the node is full the farthest
    /// neighbour falls off, and nothing changes when `q` is farther than all.
    fn link_back(&mut self, l: usize, u: VectorID, q: VectorID)
        requires
            old(self).wf(),
            l <= old(self).num_upper(),
            u.0 < old(self).n(),
            q.0 < old(self).n(),
            u != q,
            old(self).lives()[u.0 as int],
            old(self).lives()[q.0 as int],
            old(self).layers()[u.0 as int] >= l,
            old(self).layers()[q.0 as int] >= l,
            forall|p: int| 0 <= p < old(self).slots(l as int, u.0 as int).len() ==> #[trigger] old(self).slots(l as int, u.0 as int)[p] != q,
        ensures
            final(self).wf(),
            final(self).vecs() == old(self).vecs(),
            final(self).layers() == old(self).layers(),
            final(self).lives() == old(self).lives(),
            final(self).num_upper() == old(self).num_upper(),
            final(self).entry_point() == old(self).entry_point(),
            final(self).spec_dimension() == old(self).spec_dimension(),
            final(self).spec_ef_search() == old(self).spec_ef_search(),
            final(self).spec_ef_construction() == old(self).spec_ef_construction(),
            forall|l2: int, i: int| 0 <= l2 <= old(self).num_upper() && 0 <= i < old(self).n() && (l2 != l || i != u.0) ==> #[trigger] final(self).slots(l2, i) == old(self).slots(l2, i),
            final(self).slots(l as int, u.0 as int).contains(q) || full(final(self).slots(l as int, u.0 as int)),
    {
        let ghost g0 = *self;
        let uu = u.0 as usize;
        let qq = q.0 as usize;
        let ghost s = self.slots(l as int, uu as int);
        let ghost qv = self.vectors@[uu as int].coords();
        proof {
            assert(node_ok(s, uu as int, l as int, self.vectors@, self.levels@, self.live@));
            assert(dims_ok(self.vectors@, self.dimension as nat));
            assert(self.vectors@[qq as int].coords().len() == self.dimension);
            assert(self.vectors@[uu as int].coords().len() == self.dimension);
            crate::vector::lemma_sq_dist_bound(qv, self.vectors@[qq as int].coords());
        }
        let dq = self.vectors[uu].distance(&self.vectors[qq]);
        let cap: usize = if l == 0 {
            BASE_SLOTS
        } else {
            M
        };
        let mut p: usize = 0;
        while p < cap
            invariant
                self.wf(),
                s == self.slots(l as int, uu as int),
                qv == self.vectors@[uu as int].coords(),
                l <= self.num_upper(),
                uu < self.n(),
                qq < self.n(),
                cap == slot_cap(l as int),
                s.len() == cap,
                dq == candidate_for(qv, self.vectors@, q).distance,
                p <= cap,
                node_ok(s, uu as int, l as int, self.vectors@, self.levels@, self.live@),
                forall|k: int| 0 <= k < p ==> (#[trigger] s[k]).is_valid() && closer(qv, self.vectors@, s[k], q),
            ensures
                p <= cap,
                forall|k: int| 0 <= k < p ==> (#[trigger] s[k]).is_valid() && closer(qv, self.vectors@, s[k], q),
                p < cap && s[p as int].is_valid() ==> !closer(qv, self.vectors@, s[p as int], q),
            decreases cap - p,
        {
            let x = self.slot(l, uu, p);
            if !x.is_valid() {
                break;
            }
            proof {
                assert(links_ok(s, uu as int, l as int, self.levels@, self.live@));
                assert(self.vectors@[x.0 as int].coords().len() == self.dimension);
                crate::vector::lemma_sq_dist_bound(qv, self.vectors@[x.0 as int].coords());
            }
            let dx = self.vectors[uu].distance(&self.vectors[x.0 as usize]);
            if !(dx < dq || (dx == dq && x.0 < q.0)) {
                break;
            }
            p = p + 1;
        }
        proof {
            lemma_insert_node_ok(s, p as int, q, uu as int, l as int, self.vectors@, self.levels@, self.live@);
        }
        if l == 0 {
            self.base[uu].insert(p, &q);
        } else {
            self.upper[l - 1][uu].insert(p, &q);
        }
        proof {
            let cur = *self;
            lemma_top_kept(&g0, &cur);
            assert(self.slots(l as int, uu as int) == crate::node::inserted_at(s, p as int, q));
            if p < cap {
                assert(self.slots(l as int, uu as int)[p as int] == q);
            } else {
                assert(full(s));
            }
            assert forall|l2: int, i: int| 0 <= l2 <= old(self).num_upper() && 0 <= i < old(self).n() && (l2 != l || i != u.0) implies #[trigger] self.slots(l2, i) == old(self).slots(l2, i) by {}
            assert forall|l2: int| 0 <= l2 < self.upper@.len() implies (#[trigger] self.upper@[l2])@.len() == self.vectors@.len() by {
                assert(old(self).upper@[l2]@.len() == self.vectors@.len());
            }
            assert forall|l2: int, i: int| 0 <= l2 <= self.upper@.len() && 0 <= i < self.vectors@.len() implies #[trigger] node_ok(
                self.slots(l2, i),
                i,
                l2,
                self.vectors@,
                self.levels@,
                self.live@,
            ) by {
                if l2 != l || i != u.0 {
                    assert(self.slots(l2, i) == old(self).slots(l2, i));
                }
            }
        }
    }

    /// Appends the vector `vector` with top layer `level`, with empty nodes
    /// on every layer; it becomes the entry point when the graph holds no
    /// live vector or when it reaches higher than the entry point.
    fn add_slot(&mut self, vector: Vector, level: u8) -> (r: VectorID)
        requires
            old(self).wf(),
            vector.coords().len() == old(self).spec_dimension(),
            old(self).n() + 1 < SENTINEL,
            level <= MAX_LAYER,
        ensures
            final(self).wf(),
            r.0 == old(self).n(),
            final(self).vecs() == old(self).vecs().push(vector),
            final(self).layers() == old(self).layers().push(level),
            final(self).lives() == old(self).lives().push(true),
            final(self).num_upper() == if level > old(self).num_upper() { level as nat } else { old(self).num_upper() },
            final(self).spec_dimension() == old(self).spec_dimension(),
            final(self).spec_ef_search() == old(self).spec_ef_search(),
            final(self).spec_ef_construction() == old(self).spec_ef_construction(),
            forall|l: int, i: int| 0 <= l <= old(self).num_upper() && 0 <= i < old(self).n() ==> #[trigger] final(self).slots(l, i) == old(self).slots(l, i),
            forall|l: int| 0 <= l <= final(self).num_upper() ==> #[trigger] final(self).slots(l, r.0 as int) == blank(slot_cap(l)),
            forall|l: int, i: int| old(self).num_upper() < l <= final(self).num_upper() && 0 <= i < final(self).n() ==> #[trigger] final(self).slots(l, i) == blank(slot_cap(l)),
            !old(self).entry_point().is_valid() || level > old(self).layers()[old(self).entry_point().0 as int] ==> final(self).entry_point() == r,
            old(self).entry_point().is_valid() && level <= old(self).layers()[old(self).entry_point().0 as int] ==> final(self).entry_point() == old(self).entry_point(),
    {
        let n = self.vectors.len();
        let q = VectorID(n as u32);
        let ghost old_vs = self.vectors@;
        self.vectors.push(vector);
        self.levels.push(level);
        self.live.push(true);
        self.base.push(BaseNode::new());
        assert(self.base@[n as int].slots() == blank(BASE_SLOTS as nat));
        let mut l: usize = 0;
        while l < self.upper.len()
            invariant
                self.vectors@ == old(self).vectors@.push(vector),
                self.levels@ == old(self).levels@.push(level),
                self.live@ == old(self).live@.push(true),
                self.base@.len() == n + 1,
                forall|i: int| 0 <= i < n ==> #[trigger] self.base@[i] == old(self).base@[i],
                self.base@[n as int].slots() == blank(BASE_SLOTS as nat),
                self.entry == old(self).entry,
                self.dimension == old(self).dimension,
                self.ef_search == old(self).ef_search,
                self.ef_construction == old(self).ef_construction,
                old(self).wf(),
                n == old(self).vectors@.len(),
                n + 1 < SENTINEL,
                self.upper@.len() == old(self).upper@.len(),
                l <= self.upper@.len(),
                forall|l2: int| 0 <= l2 < l ==> (#[trigger] self.upper@[l2])@.len() == n + 1,
                forall|l2: int| l <= l2 < self.upper@.len() ==> #[trigger] self.upper@[l2] == old(self).upper@[l2],
                forall|l2: int, i: int| 0 <= l2 < l && 0 <= i < n ==> (#[trigger] self.upper@[l2]@[i]) == old(self).upper@[l2]@[i],
                forall|l2: int| 0 <= l2 < l ==> (#[trigger] self.upper@[l2])@[n as int].slots() == blank(M as nat),
                forall|l2: int| 0 <= l2 < old(self).upper@.len() ==> (#[trigger] old(self).upper@[l2])@.len() == n,
            decreases self.upper@.len() - l,
        {
            self.upper[l].push(UpperNode::new());
            l = l + 1;
        }
        while self.upper.len() < level as usize
            invariant
                self.vectors@ == old(self).vectors@.push(vector),
                self.levels@ == old(self).levels@.push(level),
                self.live@ == old(self).live@.push(true),
                self.base@.len() == n + 1,
                forall|i: int| 0 <= i < n ==> #[trigger] self.base@[i] == old(self).base@[i],
                self.base@[n as int].slots() == blank(BASE_SLOTS as nat),
                self.entry == old(self).entry,
                self.dimension == old(self).dimension,
                self.ef_search == old(self).ef_search,
                self.ef_construction == old(self).ef_construction,
                old(self).wf(),
                n == old(self).vectors@.len(),
                n + 1 < SENTINEL,
                self.upper@.len() >= old(self).upper@.len(),
                forall|l2: int| 0 <= l2 < self.upper@.len() ==> (#[trigger] self.upper@[l2])@.len() == n + 1,
                forall|l2: int, i: int| 0 <= l2 < old(self).upper@.len() && 0 <= i < n ==> (#[trigger] self.upper@[l2]@[i]) == old(self).upper@[l2]@[i],
                forall|l2: int| 0 <= l2 < old(self).upper@.len() ==> (#[trigger] self.upper@[l2])@[n as int].slots() == blank(M as nat),
                forall|l2: int, i: int| old(self).upper@.len() <= l2 < self.upper@.len() && 0 <= i <= n ==> (#[trigger] self.upper@[l2]@[i]).slots() == blank(M as nat),
                self.upper@.len() <= if level > old(self).upper@.len() { level as nat } else { old(self).upper@.len() },
            decreases level - self.upper@.len(),
        {
            let mut layer: Vec<UpperNode> = Vec::new();
            let mut i: usize = 0;
            while i <= n
                invariant
                    i <= n + 1,
                    n < SENTINEL,
                    layer@.len() == i,
                    forall|j: int| 0 <= j < i ==> (#[trigger] layer@[j]).slots() == blank(M as nat),
                decreases n + 1 - i,
            {
                layer.push(UpperNode::new());
                i = i + 1;
            }
            self.upper.push(layer);
        }
        if !self.entry.is_valid() || level > self.levels[self.entry.0 as usize] {
            self.entry = q;
        }
        proof {
            let vs = self.vectors@;
            let lv = self.levels@;
            let lf = self.live@;
            assert(dims_ok(vs, self.dimension as nat));
            assert forall|l2: int, i: int| 0 <= l2 <= old(self).upper@.len() && 0 <= i < n implies #[trigger] self.slots(l2, i) == old(self).slots(l2, i) by {}
            assert forall|l2: int, i: int| 0 <= l2 <= self.upper@.len() && 0 <= i < vs.len() implies #[trigger] node_ok(
                self.slots(l2, i),
                i,
                l2,
                vs,
                lv,
                lf,
            ) by {
                if i == n {
                    assert(self.slots(l2, i) == blank(slot_cap(l2)));
                    lemma_empty_node_ok(self.slots(l2, i), i, l2, vs, lv, lf);
                } else if l2 <= old(self).upper@.len() {
                    assert(node_ok(old(self).slots(l2, i), i, l2, old(self).vectors@, old(self).levels@, old(self).live@));
                    lemma_node_ok_extend(old(self).slots(l2, i), i, l2, old(self).vectors@, old(self).levels@, old(self).live@, vector, level);
                } else {
                    assert(self.slots(l2, i) == blank(slot_cap(l2)));
                    assert(lv[i] <= old(self).upper@.len());
                    lemma_empty_node_ok(self.slots(l2, i), i, l2, vs, lv, lf);
                }
            }
            assert forall|i: int| 0 <= i < vs.len() implies #[trigger] lv[i] <= self.upper@.len() by {
                if i < n {
                    assert(old(self).levels@[i] <= old(self).upper@.len());
                }
            }
            if self.upper@.len() > 0 {
                if level as nat > old(self).upper@.len() {
                    assert(lv[n as int] == self.upper@.len());
                } else {
                    let i = choose|i: int| 0 <= i < old(self).vectors@.len() && #[trigger] old(self).levels@[i] == old(self).upper@.len();
                    assert(lv[i] == self.upper@.len());
                }
            }
        }
        q
    }

    /// Gives `q` the neighbours `chosen` on layer `l` and adds `q` back to
    /// the neighbours of each of them.
    fn connect(&mut self, l: usize, q: VectorID, chosen: &Vec<VectorID>)
        requires
            old(self).wf(),
            l <= old(self).num_upper(),
            q.0 < old(self).n(),
            old(self).lives()[q.0 as int],
            old(self).layers()[q.0 as int] >= l,
            old(self).slots(l as int, q.0 as int) == blank(slot_cap(l as int)),
            chosen@.len() <= slot_cap(l as int),
            forall|k: int| 0 <= k < chosen@.len() ==> {
                &&& (#[trigger] chosen@[k]).is_valid()
                &&& chosen@[k].0 < old(self).n()
                &&& chosen@[k] != q
                &&& old(self).lives()[chosen@[k].0 as int]
                &&& old(self).layers()[chosen@[k].0 as int] >= l
            },
            ordered_for(chosen@, old(self).vecs()[q.0 as int].coords(), old(self).vecs()),
            forall|i: int, p: int| 0 <= i < old(self).n() && 0 <= p < old(self).slots(l as int, i).len() ==> #[trigger] old(self).slots(l as int, i)[p] != q,
        ensures
            final(self).wf(),
            final(self).vecs() == old(self).vecs(),
            final(self).layers() == old(self).layers(),
            final(self).lives() == old(self).lives(),
            final(self).num_upper() == old(self).num_upper(),
            final(self).entry_point() == old(self).entry_point(),
            final(self).spec_dimension() == old(self).spec_dimension(),
            final(self).spec_ef_search() == old(self).spec_ef_search(),
            final(self).spec_ef_construction() == old(self).spec_ef_construction(),
            forall|l2: int, i: int| 0 <= l2 <= old(self).num_upper() && l2 != l && 0 <= i < old(self).n() ==> #[trigger] final(self).slots(l2, i) == old(self).slots(l2, i),
            chosen@.len() > 0 ==> final(self).slots(l as int, q.0 as int)[0] == chosen@[0],
            linked_back(final(self), l as int, q),
    {
        let ghost g0 = *self;
        let qq = q.0 as usize;
        let ghost cap = slot_cap(l as int);
        let ghost vs = self.vectors@;
        if l == 0 {
            self.base[qq].allocate(chosen);
        } else {
            self.upper[l - 1][qq].allocate(chosen);
        }
        proof {
            let t = self.slots(l as int, qq as int);
            assert(t == crate::node::allocated(blank(cap), chosen@));
            assert forall|a: int| 0 <= a < t.len() implies #[trigger] t[a] == if a < chosen@.len() {
                chosen@[a]
            } else {
                VectorID(SENTINEL)
            } by {
                if a > chosen@.len() {
                    assert(!blank(cap)[chosen@.len() as int].is_valid());
                }
            }
            assert(valid_prefix(t));
            assert(ordered_for(t, vs[qq as int].coords(), vs)) by {
                assert forall|p: int, r: int| 0 <= p < r < t.len() && (#[trigger] t[r]).is_valid() implies key_lt(
                    candidate_for(vs[qq as int].coords(), vs, #[trigger] t[p]),
                    candidate_for(vs[qq as int].coords(), vs, t[r]),
                ) by {
                    assert(r < chosen@.len());
                    assert(chosen@[r].is_valid());
                }
            }
            assert(node_ok(t, qq as int, l as int, self.vectors@, self.levels@, self.live@));
            let cur = *self;
            lemma_top_kept(&g0, &cur);
            assert forall|l2: int, i: int| 0 <= l2 <= self.upper@.len() && 0 <= i < self.vectors@.len() implies #[trigger] node_ok(
                self.slots(l2, i),
                i,
                l2,
                self.vectors@,
                self.levels@,
                self.live@,
            ) by {
                if l2 != l || i != qq {
                    assert(self.slots(l2, i) == old(self).slots(l2, i));
                }
            }
            assert forall|l2: int| 0 <= l2 < self.upper@.len() implies (#[trigger] self.upper@[l2])@.len() == self.vectors@.len() by {
                assert(old(self).upper@[l2]@.len() == self.vectors@.len());
            }
        }
        let ghost mid = *self;
        proof {
            let t = mid.slots(l as int, qq as int);
            assert forall|a: int| 0 <= a < t.len() && (#[trigger] t[a]).is_valid() implies a < chosen@.len() && t[a] == chosen@[a] by {
                if a > chosen@.len() {
                    assert(!blank(cap)[chosen@.len() as int].is_valid());
                }
            }
        }
        let mut k: usize = 0;
        while k < chosen.len()
            invariant
                self.wf(),
                self.vectors@ == old(self).vectors@,
                self.levels@ == old(self).levels@,
                self.live@ == old(self).live@,
                self.upper@.len() == old(self).upper@.len(),
                self.entry == old(self).entry,
                self.dimension == old(self).dimension,
                self.ef_search == old(self).ef_search,
                self.ef_construction == old(self).ef_construction,
                l <= self.upper@.len(),
                qq == q.0,
                q.0 < self.vectors@.len(),
                self.live@[qq as int],
                self.levels@[qq as int] >= l,
                k <= chosen@.len(),
                forall|k2: int| 0 <= k2 < chosen@.len() ==> {
                    &&& (#[trigger] chosen@[k2]).is_valid()
                    &&& chosen@[k2].0 < old(self).vectors@.len()
                    &&& chosen@[k2] != q
                    &&& old(self).live@[chosen@[k2].0 as int]
                    &&& old(self).levels@[chosen@[k2].0 as int] >= l
                },
                ordered_for(chosen@, old(self).vectors@[q.0 as int].coords(), old(self).vectors@),
                forall|l2: int, i: int| 0 <= l2 <= old(self).upper@.len() && l2 != l && 0 <= i < old(self).vectors@.len() ==> #[trigger] self.slots(l2, i) == old(self).slots(l2, i),
                forall|i: int| 0 <= i < old(self).vectors@.len() && i != qq && !(exists|k2: int| 0 <= k2 < k && chosen@[k2].0 == i) ==> #[trigger] self.slots(l as int, i) == old(self).slots(l as int, i),
                forall|i: int, p: int| 0 <= i < old(self).vectors@.len() && 0 <= p < old(self).slots(l as int, i).len() ==> #[trigger] old(self).slots(l as int, i)[p] != q,
                self.slots(l as int, qq as int) == mid.slots(l as int, qq as int),
                forall|a: int| 0 <= a < mid.slots(l as int, qq as int).len() && (#[trigger] mid.slots(l as int, qq as int)[a]).is_valid() ==> a < chosen@.len() && mid.slots(l as int, qq as int)[a] == chosen@[a],
                forall|k2: int| 0 <= k2 < k ==> backlinked(self, l as int, #[trigger] chosen@[k2], q),
            decreases chosen@.len() - k,
        {
            let u = chosen[k];
            proof {
                assert forall|k2: int| 0 <= k2 < k implies chosen@[k2].0 != u.0 by {
                    assert(key_lt(
                        candidate_for(old(self).vectors@[q.0 as int].coords(), old(self).vectors@, chosen@[k2]),
                        candidate_for(old(self).vectors@[q.0 as int].coords(), old(self).vectors@, chosen@[k as int]),
                    ));
                }
                assert(self.slots(l as int, u.0 as int) == old(self).slots(l as int, u.0 as int));
            }
            let ghost before = *self;
            self.link_back(l, u, q);
            k = k + 1;
            proof {
                assert forall|k2: int| 0 <= k2 < k implies backlinked(self, l as int, #[trigger] chosen@[k2], q) by {
                    if k2 < k - 1 {
                        assert(chosen@[k2].0 != u.0);
                        assert(self.slots(l as int, chosen@[k2].0 as int) == before.slots(l as int, chosen@[k2].0 as int));
                    }
                }
                assert forall|i: int| 0 <= i < old(self).vectors@.len() && i != qq && !(exists|k2: int| 0 <= k2 < k && chosen@[k2].0 == i) implies #[trigger] self.slots(l as int, i) == old(self).slots(l as int, i) by {
                    assert(chosen@[k - 1].0 == u.0);
                    if i == u.0 {
                        assert(exists|k2: int| 0 <= k2 < k && chosen@[k2].0 == i);
                    }
                }
            }
        }
        proof {
            let t = self.slots(l as int, qq as int);
            assert forall|p: int| 0 <= p < t.len() && (#[trigger] t[p]).is_valid() implies backlinked(self, l as int, t[p], q) by {
                assert(t[p] == chosen@[p]);
            }
            if chosen@.len() > 0 {
                assert(mid.slots(l as int, qq as int)[0] == chosen@[0]);
            }
        }
    }

    /// Inserts `vector` under the next identifier. Its top layer is drawn
    /// from the random word `draw` (see `layer_for`); from the entry point
    /// down, each layer above it is searched with a beam of one, and on each
    /// layer it reaches the `ef_construction` nearest found become its
    /// neighbours (as many as the node holds) and it is added back to theirs.
    #[verifier::spinoff_prover]
    pub fn insert(&mut self, vector: Vector, draw: u64) -> (r: Result<VectorID, Error>)
        requires
            old(self).wf(),
            old(self).n() + 1 < SENTINEL,
        ensures
            r.is_err() <==> vector.coords().len() != old(self).spec_dimension(),
            r.is_err() ==> r == Err::<VectorID, Error>(Error::InvalidDimension) && *final(self) == *old(self),
            r.is_ok() ==> {
                &&& final(self).wf()
                &&& r->Ok_0.0 == old(self).n()
                &&& final(self).vecs() == old(self).vecs().push(vector)
                &&& final(self).layers() == old(self).layers().push(layer_for(draw) as u8)
                &&& final(self).lives() == old(self).lives().push(true)
                &&& final(self).spec_dimension() == old(self).spec_dimension()
                &&& final(self).spec_ef_search() == old(self).spec_ef_search()
                &&& final(self).spec_ef_construction() == old(self).spec_ef_construction()
            },
            r.is_ok() && old(self).entry_point().is_valid() ==> forall|l: int|
                0 <= l <= layer_for(draw) && l <= old(self).layers()[old(self).entry_point().0 as int] ==> {
                    &&& (#[trigger] final(self).slots(l, r->Ok_0.0 as int))[0].is_valid()
                    &&& linked_back(final(self), l, r->Ok_0)
                },
    {
        if vector.len() != self.dimension {
            return Err(Error::InvalidDimension);
        }
        let level = layer_of(draw);
        let ep = self.entry;
        let had_entry = ep.is_valid();
        let q = self.add_slot(vector, level);
        if !had_entry {
            return Ok(q);
        }
        let qq = q.0 as usize;
        let ghost g0 = *self;
        proof {
            assert(ep.0 < qq);
            assert(self.slots(0, qq as int) == blank(slot_cap(0)));
            assert forall|l: int, i: int, p: int| 0 <= l <= self.num_upper() && 0 <= i < self.n() && 0 <= p < self.slots(l, i).len() implies #[trigger] self.slots(l, i)[p] != q by {
                assert(node_ok(self.slots(l, i), i, l, self.vectors@, self.levels@, self.live@));
                if self.slots(l, i)[p].is_valid() && i != qq {
                    if l <= old(self).num_upper() {
                        assert(self.slots(l, i) == old(self).slots(l, i));
                        assert(node_ok(old(self).slots(l, i), i, l, old(self).vectors@, old(self).levels@, old(self).live@));
                        assert(links_ok(old(self).slots(l, i), i, l, old(self).levels@, old(self).live@));
                    } else {
                        assert(self.slots(l, i) == blank(slot_cap(l)));
                    }
                }
                if i == qq {
                    assert(self.slots(l, i) == blank(slot_cap(l)));
                }
            }
        }
        let top = self.levels[ep.0 as usize] as usize;
        let mut search = Search::new(self.vectors.len());
        search.set_ef(1);
        proof {
            assert(dims_ok(self.vectors@, self.vectors@[qq as int].coords().len()));
        }
        search.push(&ep, &self.vectors[qq], &self.vectors);
        proof {
            crate::search::lemma_count_less_empty(candidate_for(self.vectors@[qq as int].coords(), self.vectors@, ep));
        }
        let mut layer: usize = top;
        loop
            invariant_except_break
                forall|l: int, i: int, p: int| 0 <= l <= layer && 0 <= i < self.n() && 0 <= p < self.slots(l, i).len() ==> #[trigger] self.slots(l, i)[p] != q,
                forall|l: int| 0 <= l <= layer ==> #[trigger] self.slots(l, qq as int) == blank(slot_cap(l)),
            invariant
                self.wf(),
                self.vectors@ == g0.vectors@,
                self.levels@ == g0.levels@,
                self.live@ == g0.live@,
                self.upper@.len() == g0.upper@.len(),
                self.entry == g0.entry,
                self.dimension == g0.dimension,
                self.ef_search == g0.ef_search,
                self.ef_construction == g0.ef_construction,
                qq == q.0,
                qq + 1 == self.vectors@.len(),
                self.levels@[qq as int] == level,
                self.live@[qq as int],
                layer <= self.upper@.len(),
                level <= self.upper@.len(),
                search.wf(),
                search.measured_for(self.vectors@[qq as int].coords(), self.vectors@),
                search.visited_seq().len() == self.vectors@.len(),
                search.nearest_seq().len() > 0,
                held_ok(self, search.nearest_seq(), layer as int, q),
                held_ok(self, search.candidate_seq(), layer as int, q),
                top == g0.levels@[ep.0 as int],
                forall|l2: int| layer < l2 <= top && l2 <= level ==> {
                    &&& (#[trigger] self.slots(l2, qq as int))[0].is_valid()
                    &&& linked_back(self, l2, q)
                },
            ensures
                self.wf(),
                self.vectors@ == g0.vectors@,
                self.levels@ == g0.levels@,
                self.live@ == g0.live@,
                self.upper@.len() == g0.upper@.len(),
                self.dimension == g0.dimension,
                self.ef_search == g0.ef_search,
                self.ef_construction == g0.ef_construction,
                forall|l2: int| 0 <= l2 <= top && l2 <= level ==> {
                    &&& (#[trigger] self.slots(l2, qq as int))[0].is_valid()
                    &&& linked_back(self, l2, q)
                },
            decreases layer,
        {
            let ghost before_layer = *self;
            let ef = if layer > level as usize {
                1
            } else if self.ef_construction > 1 {
                self.ef_construction
            } else {
                1
            };
            search.set_ef(ef);
            let ghost n0 = search.nearest_seq();
            let ghost c0 = search.candidate_seq();
            if layer == 0 {
                proof {
                    lemma_layer_view(self, &self.base, 0);
                }
                search.search(&self.base, &self.vectors[qq], &self.vectors, BASE_SLOTS);
                proof {
                    lemma_found_held(self, &self.base, 0, q, n0, c0, search.nearest_seq());
                    lemma_found_held(self, &self.base, 0, q, n0, c0, search.candidate_seq());
                }
            } else {
                proof {
                    lemma_layer_view(self, &self.upper@[layer - 1], layer as int);
                }
                search.search(&self.upper[layer - 1], &self.vectors[qq], &self.vectors, M);
                proof {
                    lemma_found_held(self, &self.upper@[layer - 1], layer as int, q, n0, c0, search.nearest_seq());
                    lemma_found_held(self, &self.upper@[layer - 1], layer as int, q, n0, c0, search.candidate_seq());
                }
            }
            if layer <= level as usize {
                let cap: usize = if layer == 0 {
                    BASE_SLOTS
                } else {
                    M
                };
                let chosen = choose_nearest(&search, cap);
                proof {
                    search.lemma_sorted();
                    let near = search.nearest_seq();
                    let qv = self.vectors@[qq as int].coords();
                    assert forall|k: int| 0 <= k < chosen@.len() implies #[trigger] chosen@[k] == near[k].vector_id by {}
                    assert(ordered_for(chosen@, qv, self.vectors@)) by {
                        assert forall|p: int, r: int| 0 <= p < r < chosen@.len() && (#[trigger] chosen@[r]).is_valid() implies key_lt(
                            candidate_for(qv, self.vectors@, #[trigger] chosen@[p]),
                            candidate_for(qv, self.vectors@, chosen@[r]),
                        ) by {
                            assert(key_lt(near[p], near[r]));
                            assert(measured(near, qv, self.vectors@));
                            assert(near[p] == candidate_for(qv, self.vectors@, near[p].vector_id));
                            assert(near[r] == candidate_for(qv, self.vectors@, near[r].vector_id));
                        }
                    }
                    assert forall|k: int| 0 <= k < chosen@.len() implies {
                        &&& (#[trigger] chosen@[k]).is_valid()
                        &&& chosen@[k].0 < self.n()
                        &&& chosen@[k] != q
                        &&& self.lives()[chosen@[k].0 as int]
                        &&& self.layers()[chosen@[k].0 as int] >= layer
                    } by {
                        assert(chosen@[k] == near[k].vector_id);
                        assert(near[k].vector_id.0 < self.n());
                    }
                }
                self.connect(layer, q, &chosen);
            }
            proof {
                assert forall|l2: int| layer <= l2 <= top && l2 <= level implies {
                    &&& (#[trigger] self.slots(l2, qq as int))[0].is_valid()
                    &&& linked_back(self, l2, q)
                } by {
                    if l2 > layer {
                        assert(before_layer.slots(l2, qq as int)[0].is_valid());
                        assert(linked_back(&before_layer, l2, q));
                        assert(self.slots(l2, qq as int) == before_layer.slots(l2, qq as int));
                        assert forall|p: int| 0 <= p < self.slots(l2, qq as int).len() && (#[trigger] self.slots(l2, qq as int)[p]).is_valid() implies backlinked(self, l2, self.slots(l2, qq as int)[p], q) by {
                            let v = self.slots(l2, qq as int)[p];
                            assert(backlinked(&before_layer, l2, v, q));
                            assert(node_ok(before_layer.slots(l2, qq as int), qq as int, l2, before_layer.vectors@, before_layer.levels@, before_layer.live@));
                            assert(links_ok(before_layer.slots(l2, qq as int), qq as int, l2, before_layer.levels@, before_layer.live@));
                            assert(self.slots(l2, v.0 as int) == before_layer.slots(l2, v.0 as int));
                        }
                    }
                }
            }
            if layer == 0 {
                break;
            }
            search.cull();
            layer = layer - 1;
            proof {
                assert forall|l: int| 0 <= l <= layer implies #[trigger] self.slots(l, qq as int) == blank(slot_cap(l)) by {}
            }
        }
        Ok(q)
    }

    /// The `k` nearest live vectors to `query` that a descent from the entry
    /// point finds: each upper layer is searched with a beam of one, the
    /// ground layer with a beam of `max(ef_search, k)`. The result is in
    /// ascending distance, ties going to the lower identifier, and holds the
    /// exact squared distances.
    pub fn search(&self, query: &Vector, k: usize) -> (r: Result<Vec<Candidate>, Error>)
        requires
            self.wf(),
        ensures
            r.is_err() <==> query.coords().len() != self.spec_dimension(),
            r.is_err() ==> r == Err::<Vec<Candidate>, Error>(Error::InvalidDimension),
            r.is_ok() ==> {
                let v = r->Ok_0@;
                &&& sorted_strict(v)
                &&& measured(v, query.coords(), self.vecs())
                &&& v.len() <= k
                &&& forall|i: int| 0 <= i < v.len() ==> self.is_live((#[trigger] v[i]).vector_id.0 as int)
                &&& (k > 0 && exists|i: int| #[trigger] self.is_live(i)) ==> v.len() > 0
            },
    {
        if query.len() != self.dimension {
            return Err(Error::InvalidDimension);
        }
        let ep = self.entry;
        if !ep.is_valid() {
            let empty: Vec<Candidate> = Vec::new();
            return Ok(empty);
        }
        let mut search = Search::new(self.vectors.len());
        search.set_ef(1);
        proof {
            assert(dims_ok(self.vectors@, query.coords().len()));
        }
        search.push(&ep, query, &self.vectors);
        proof {
            crate::search::lemma_count_less_empty(candidate_for(query.coords(), self.vectors@, ep));
        }
        let mut layer: usize = self.levels[ep.0 as usize] as usize;
        while layer > 0
            invariant
                self.wf(),
                layer <= self.upper@.len(),
                dims_ok(self.vectors@, query.coords().len()),
                search.wf(),
                search.measured_for(query.coords(), self.vectors@),
                search.visited_seq().len() == self.vectors@.len(),
                search.nearest_seq().len() > 0,
                held_live(self, search.nearest_seq(), layer as int),
                held_live(self, search.candidate_seq(), layer as int),
            decreases layer,
        {
            search.set_ef(1);
            let ghost n0 = search.nearest_seq();
            let ghost c0 = search.candidate_seq();
            proof {
                lemma_layer_view(self, &self.upper@[layer - 1], layer as int);
            }
            search.search(&self.upper[layer - 1], query, &self.vectors, M);
            proof {
                lemma_found_live(self, &self.upper@[layer - 1], layer as int, n0, c0, search.nearest_seq());
                lemma_found_live(self, &self.upper@[layer - 1], layer as int, n0, c0, search.candidate_seq());
            }
            search.cull();
            layer = layer - 1;
        }
        let mut ef: usize = if self.ef_search > k {
            self.ef_search
        } else {
            k
        };
        if ef == 0 {
            ef = 1;
        }
        search.set_ef(ef);
        let ghost n0 = search.nearest_seq();
        let ghost c0 = search.candidate_seq();
        proof {
            lemma_layer_view(self, &self.base, 0);
        }
        search.search(&self.base, query, &self.vectors, BASE_SLOTS);
        proof {
            lemma_found_live(self, &self.base, 0, n0, c0, search.nearest_seq());
        }
        search.truncate(k);
        let found = search.iter();
        proof {
            search.lemma_sorted();
            let v = found@;
            let o = n0;
            assert forall|i: int| 0 <= i < v.len() implies self.is_live((#[trigger] v[i]).vector_id.0 as int) by {
                assert(held_live(self, search.nearest_seq(), 0));
            }
            if k > 0 {
                assert(v.len() > 0);
            }
        }
        Ok(found)
    }
}

/// Every held candidate names a live vector present on layer `l`.
pub open spec fn held_live(g: &Index, s: Seq<Candidate>, l: int) -> bool {
    forall|i: int|
        0 <= i < s.len() ==> {
            &&& (#[trigger] s[i]).vector_id.0 < g.n()
            &&& g.lives()[s[i].vector_id.0 as int]
            &&& g.layers()[s[i].vector_id.0 as int] >= l
        }
}

proof fn lemma_found_live<L: Layer>(
    g: &Index,
    layer: &L,
    l: int,
    n0: Seq<Candidate>,
    c0: Seq<Candidate>,
    s: Seq<Candidate>,
)
    requires
        g.wf(),
        0 <= l <= g.num_upper(),
        shows_layer(g, layer, l),
        held_live(g, n0, l),
        held_live(g, c0, l),
        forall|i: int| 0 <= i < s.len() ==> #[trigger] found(s[i].vector_id, n0, c0, layer),
    ensures
        held_live(g, s, l),
{
    assert forall|i: int| 0 <= i < s.len() implies {
        &&& (#[trigger] s[i]).vector_id.0 < g.n()
        &&& g.lives()[s[i].vector_id.0 as int]
        &&& g.layers()[s[i].vector_id.0 as int] >= l
    } by {
        let id = s[i].vector_id;
        assert(found(id, n0, c0, layer));
        if ids_of(n0).contains(id) {
            let j = choose|j: int| 0 <= j < ids_of(n0).len() && ids_of(n0)[j] == id;
            assert(n0[j].vector_id == id);
        } else if ids_of(c0).contains(id) {
            let j = choose|j: int| 0 <= j < ids_of(c0).len() && ids_of(c0)[j] == id;
            assert(c0[j].vector_id == id);
        } else {
            assert(listed(layer, id));
            let (u, k) = choose|u: int, k: int| 0 <= u < layer.spec_len() && 0 <= k < neighbors(layer.spec_node(u)).len() && #[trigger] neighbors(layer.spec_node(u))[k] == id;
            let t = g.slots(l, u);
            lemma_neighbors(t);
            assert(t[k] == id);
            assert(node_ok(t, u, l, g.vecs(), g.layers(), g.lives()));
            assert(links_ok(t, u, l, g.layers(), g.lives()));
        }
    }
}

impl Index {
    /// Whether the node of `i` on layer `l` is well formed.
    fn check_node(&self, l: usize, i: usize) -> (r: bool)
        requires
            l <= self.upper@.len(),
            i < self.vectors@.len(),
            self.base@.len() == self.vectors@.len(),
            self.levels@.len() == self.vectors@.len(),
            self.live@.len() == self.vectors@.len(),
            forall|l2: int| 0 <= l2 < self.upper@.len() ==> (#[trigger] self.upper@[l2])@.len() == self.vectors@.len(),
            dims_ok(self.vectors@, self.dimension as nat),
        ensures
            r == node_ok(self.slots(l as int, i as int), i as int, l as int, self.vectors@, self.levels@, self.live@),
    {
        let s = if l == 0 {
            self.base[i].to_vec()
        } else {
            self.upper[l - 1][i].to_vec()
        };
        let cap: usize = if l == 0 {
            BASE_SLOTS
        } else {
            M
        };
        if s.len() != cap {
            proof {
                assert(s@.len() != slot_cap(l as int));
            }
            return false;
        }
        let present = self.live[i] && self.levels[i] as usize >= l;
        let ok = check_slots(&s, i, l, present, &self.vectors, &self.levels, &self.live);
        proof {
            let qv = self.vectors@[i as int].coords();
            if ok {
                lemma_adjacent_ordered(s@, qv, self.vectors@);
            } else if node_ok(s@, i as int, l as int, self.vectors@, self.levels@, self.live@) {
                assert forall|a: int| 0 < a < s@.len() && (#[trigger] s@[a]).is_valid() implies closer(qv, self.vectors@, s@[a - 1], s@[a]) by {
                    assert(ordered_for(s@, qv, self.vectors@));
                    assert(key_lt(candidate_for(qv, self.vectors@, s@[a - 1]), candidate_for(qv, self.vectors@, s@[a])));
                }
            }
        }
        ok
    }

    /// Whether the graph is well formed; only a well-formed graph passes.
    pub fn check(&self) -> (r: bool)
        ensures
            r == self.wf(),
    {
        let n = self.vectors.len();
        if n >= SENTINEL as usize || self.levels.len() != n || self.live.len() != n || self.base.len() != n {
            return false;
        }
        if self.upper.len() > MAX_LAYER as usize {
            return false;
        }
        let mut l: usize = 0;
        while l < self.upper.len()
            invariant
                l <= self.upper@.len(),
                n == self.vectors@.len(),
                forall|l2: int| 0 <= l2 < l ==> (#[trigger] self.upper@[l2])@.len() == n,
            decreases self.upper@.len() - l,
        {
            if self.upper[l].len() != n {
                return false;
            }
            l = l + 1;
        }
        let mut i: usize = 0;
        while i < n
            invariant
                i <= n,
                n == self.vectors@.len(),
                self.levels@.len() == n,
                forall|j: int| 0 <= j < i ==> (#[trigger] self.vectors@[j]).coords().len() == self.dimension,
                forall|j: int| 0 <= j < i ==> #[trigger] self.levels@[j] <= self.upper@.len(),
            decreases n - i,
        {
            if self.vectors[i].len() != self.dimension || self.levels[i] as usize > self.upper.len() {
                return false;
            }
            i = i + 1;
        }
        if self.upper.len() > 0 {
            let mut i: usize = 0;
            let mut seen = false;
            while i < n
                invariant
                    i <= n,
                    n == self.vectors@.len(),
                    self.levels@.len() == n,
                    seen ==> exists|j: int| 0 <= j < n && #[trigger] self.levels@[j] == self.upper@.len(),
                    !seen ==> forall|j: int| 0 <= j < i ==> #[trigger] self.levels@[j] != self.upper@.len(),
                decreases n - i,
            {
                if self.levels[i] as usize == self.upper.len() {
                    seen = true;
                }
                i = i + 1;
            }
            if !seen {
                return false;
            }
        }
        let mut l: usize = 0;
        while l <= self.upper.len()
            invariant
                l <= self.upper@.len() + 1,
                self.upper@.len() <= MAX_LAYER,
                n == self.vectors@.len(),
                self.base@.len() == n,
                self.levels@.len() == n,
                self.live@.len() == n,
                forall|l2: int| 0 <= l2 < self.upper@.len() ==> (#[trigger] self.upper@[l2])@.len() == n,
                dims_ok(self.vectors@, self.dimension as nat),
                forall|l2: int, j: int| 0 <= l2 < l && 0 <= j < n ==> #[trigger] node_ok(
                    self.slots(l2, j),
                    j,
                    l2,
                    self.vectors@,
                    self.levels@,
                    self.live@,
                ),
            decreases self.upper@.len() + 1 - l,
        {
            let mut i: usize = 0;
            while i < n
                invariant
                    l <= self.upper@.len(),
                    i <= n,
                    n == self.vectors@.len(),
                    self.base@.len() == n,
                    self.levels@.len() == n,
                    self.live@.len() == n,
                    forall|l2: int| 0 <= l2 < self.upper@.len() ==> (#[trigger] self.upper@[l2])@.len() == n,
                    dims_ok(self.vectors@, self.dimension as nat),
                    forall|l2: int, j: int| 0 <= l2 < l && 0 <= j < n ==> #[trigger] node_ok(
                        self.slots(l2, j),
                        j,
                        l2,
                        self.vectors@,
                        self.levels@,
                        self.live@,
                    ),
                    forall|j: int| 0 <= j < i ==> #[trigger] node_ok(
                        self.slots(l as int, j),
                        j,
                        l as int,
                        self.vectors@,
                        self.levels@,
                        self.live@,
                    ),
                decreases n - i,
            {
                if !self.check_node(l, i) {
                    return false;
                }
                i = i + 1;
            }
            l = l + 1;
        }
        let e = self.entry;
        if e.is_valid() {
            let ei = e.0 as usize;
            if ei >= n || !self.live[ei] {
                return false;
            }
            let mut i: usize = 0;
            while i < n
                invariant
                    i <= n,
                    ei < n,
                    self.entry.is_valid(),
                    ei == self.entry.0,
                    n == self.vectors@.len(),
                    self.levels@.len() == n,
                    self.live@.len() == n,
                    forall|j: int| 0 <= j < i && self.live@[j] ==> #[trigger] self.levels@[j] <= self.levels@[ei as int],
                decreases n - i,
            {
                if self.live[i] && self.levels[i] > self.levels[ei] {
                    proof {
                        assert(self.live@[i as int] && self.levels@[i as int] > self.levels@[self.entry.0 as int]);
                    }
                    return false;
                }
                i = i + 1;
            }
        } else {
            let mut i: usize = 0;
            while i < n
                invariant
                    i <= n,
                    !self.entry.is_valid(),
                    n == self.vectors@.len(),
                    self.live@.len() == n,
                    forall|j: int| 0 <= j < i ==> !#[trigger] self.live@[j],
                decreases n - i,
            {
                if self.live[i] {
                    proof {
                        assert(self.live@[i as int]);
                    }
                    return false;
                }
                i = i + 1;
            }
        }
        true
    }

    /// The serialized form of the graph (see `graph_words`).
    pub fn save(&self) -> (r: Vec<u8>)
        requires
            self.wf(),
        ensures
            r@ == encode(self),
    {
        proof {
            self.lemma_shape();
        }
        let n = self.vectors.len();
        let mut ws: Vec<u32> = Vec::new();
        let d = self.dimension as u64;
        let es = self.ef_search as u64;
        let ec = self.ef_construction as u64;
        ws.push(MAGIC);
        ws.push(FORMAT_VERSION);
        ws.push((d % 0x1_0000_0000) as u32);
        ws.push((d / 0x1_0000_0000) as u32);
        ws.push(M as u32);
        ws.push(n as u32);
        ws.push((self.upper.len() + 1) as u32);
        ws.push(self.entry.0);
        ws.push((es % 0x1_0000_0000) as u32);
        ws.push((es / 0x1_0000_0000) as u32);
        ws.push((ec % 0x1_0000_0000) as u32);
        ws.push((ec / 0x1_0000_0000) as u32);
        proof {
            assert(d / 0x1_0000_0000 < 0x1_0000_0000) by (nonlinear_arith)
                requires
                    d < 0x1_0000_0000_0000_0000,
            ;
            assert(es / 0x1_0000_0000 < 0x1_0000_0000) by (nonlinear_arith)
                requires
                    es < 0x1_0000_0000_0000_0000,
            ;
            assert(ec / 0x1_0000_0000 < 0x1_0000_0000) by (nonlinear_arith)
                requires
                    ec < 0x1_0000_0000_0000_0000,
            ;
            assert(ws@ =~= header_words(self));
        }
        let ghost lw = Seq::new(self.n(), |i: int| self.layers()[i] as u32);
        let ghost lv = Seq::new(self.n(), |i: int| if self.lives()[i] { 1u32 } else { 0u32 });
        let mut i: usize = 0;
        while i < n
            invariant
                self.wf(),
                n == self.n(),
                i <= n,
                lw == Seq::new(self.n(), |i: int| self.layers()[i] as u32),
                ws@ == header_words(self) + lw.take(i as int),
            decreases n - i,
        {
            ws.push(self.levels[i] as u32);
            assert(ws@ =~= header_words(self) + lw.take(i + 1));
            i = i + 1;
        }
        assert(lw.take(n as int) =~= lw);
        let mut i: usize = 0;
        while i < n
            invariant
                self.wf(),
                n == self.n(),
                i <= n,
                lv == Seq::new(self.n(), |i: int| if self.lives()[i] { 1u32 } else { 0u32 }),
                ws@ == header_words(self) + lw + lv.take(i as int),
            decreases n - i,
        {
            ws.push(if self.live[i] { 1u32 } else { 0u32 });
            assert(ws@ =~= header_words(self) + lw + lv.take(i + 1));
            i = i + 1;
        }
        assert(lv.take(n as int) =~= lv);
        let ghost pre = header_words(self) + lw + lv;
        let layers = self.upper.len() + 1;
        let mut l: usize = 0;
        while l < layers
            invariant
                self.wf(),
                n == self.n(),
                layers == self.num_upper() + 1,
                l <= layers,
                ws@ == pre + layers_flat(self, l as nat),
            decreases layers - l,
        {
            let ghost ss = layer_slots(self, l as int);
            let mut i: usize = 0;
            while i < n
                invariant
                    self.wf(),
                    n == self.n(),
                    l < layers,
                    layers == self.num_upper() + 1,
                    ss == layer_slots(self, l as int),
                    i <= n,
                    ws@ == pre + layers_flat(self, l as nat) + nodes_flat(ss.take(i as int)),
                decreases n - i,
            {
                let node = self.node(l, i);
                let ghost before = ws@;
                let mut p: usize = 0;
                while p < node.len()
                    invariant
                        p <= node@.len(),
                        ws@ == before + node_words(node@).take(p as int),
                    decreases node@.len() - p,
                {
                    ws.push(node[p].0);
                    assert(ws@ =~= before + node_words(node@).take(p + 1));
                    p = p + 1;
                }
                proof {
                    assert(node_words(node@).take(p as int) =~= node_words(node@));
                    assert(ss.take(i + 1).drop_last() =~= ss.take(i as int));
                    assert(ss.take(i + 1).last() == ss[i as int]);
                    assert(ss[i as int] == node@);
                }
                i = i + 1;
            }
            proof {
                assert(ss.take(n as int) =~= ss);
            }
            l = l + 1;
        }
        assert(ws@ =~= graph_words(self));
        encode_words(&ws)
    }

    /// Restores a graph over `vectors` from its serialized form. Fails with
    /// `SerializationError` unless the bytes are exactly the serialized form
    /// of a well-formed graph over vectors of these coordinates, and succeeds
    /// whenever they are.
    #[verifier::rlimit(100)]
    #[verifier::spinoff_prover]
    pub fn load(bytes: &Vec<u8>, vectors: Vec<Vector>) -> (r: Result<Index, Error>)
        ensures
            r.is_err() ==> r == Err::<Index, Error>(Error::SerializationError),
            r.is_ok() ==> {
                &&& r->Ok_0.wf()
                &&& encode(&r->Ok_0) == bytes@
                &&& r->Ok_0.vecs() == vectors@
            },
            (exists|g: Index| encodes_graph(bytes@, vectors@, g)) ==> r.is_ok(),
    {
        let ghost vs0 = vectors@;
        let ghost src: Option<Index> = if exists|g: Index| encodes_graph(bytes@, vectors@, g) {
            Some(choose|g: Index| encodes_graph(bytes@, vectors@, g))
        } else {
            None
        };
        proof {
            if src is Some {
                let g = src->Some_0;
                lemma_graph_words(&g);
                lemma_le_words(graph_words(&g));
            }
        }
        let ws = match decode_words(bytes) {
            Some(w) => w,
            None => {
                return Err(Error::SerializationError);
            },
        };
        proof {
            if src is Some {
                lemma_le_words_injective(ws@, graph_words(&src->Some_0));
            }
        }
        if ws.len() < HEADER_WORDS {
            return Err(Error::SerializationError);
        }
        if ws[0] != MAGIC || ws[1] != FORMAT_VERSION || ws[4] != M as u32 {
            return Err(Error::SerializationError);
        }
        proof {
            if src is Some {
                let g = src->Some_0;
                lemma_halves_join(g.spec_dimension());
                lemma_halves_join(g.spec_ef_search());
                lemma_halves_join(g.spec_ef_construction());
            }
        }
        let dimension = match join_halves(ws[2], ws[3]) {
            Some(x) => x,
            None => {
                return Err(Error::SerializationError);
            },
        };
        let ef_search = match join_halves(ws[8], ws[9]) {
            Some(x) => x,
            None => {
                return Err(Error::SerializationError);
            },
        };
        let ef_construction = match join_halves(ws[10], ws[11]) {
            Some(x) => x,
            None => {
                return Err(Error::SerializationError);
            },
        };
        let n = ws[5] as usize;
        let layers = ws[6] as usize;
        if n != vectors.len() || n >= SENTINEL as usize || layers == 0 || layers > MAX_LAYER as usize + 1 {
            return Err(Error::SerializationError);
        }
        proof {
            if src is Some {
                let g = src->Some_0;
                lemma_halves(dimension as nat, g.spec_dimension());
                lemma_halves(ef_search as nat, g.spec_ef_search());
                lemma_halves(ef_construction as nat, g.spec_ef_construction());
                assert(n == g.n());
                assert(layers == g.num_upper() + 1);
                lemma_layer_offset_grows(g.n(), 1, layers as nat);
            }
        }
        let expected = expected_words(n, layers);
        if ws.len() as u64 != expected {
            proof {
                if src is Some {
                    lemma_graph_words(&src->Some_0);
                }
            }
            return Err(Error::SerializationError);
        }
        let ghost start = (HEADER_WORDS + 2 * n) as int;
        let levels = match read_levels(&ws, n, layers) {
            Some(v) => v,
            None => {
                proof {
                    if src is Some {
                        let g = src->Some_0;
                        lemma_graph_words(&g);
                        let j = choose|j: int| HEADER_WORDS <= j < HEADER_WORDS + n && #[trigger] ws@[j] >= layers;
                        let k = j - HEADER_WORDS;
                        assert(g.layers()[k] <= g.num_upper());
                    }
                }
                return Err(Error::SerializationError);
            },
        };
        let live = match read_live(&ws, n) {
            Some(v) => v,
            None => {
                proof {
                    if src is Some {
                        let g = src->Some_0;
                        lemma_graph_words(&g);
                        let j = choose|j: int| HEADER_WORDS + n <= j < HEADER_WORDS + 2 * n && #[trigger] ws@[j] > 1;
                        let k = j - HEADER_WORDS - n;
                        assert(ws@[j] == if g.lives()[k] { 1u32 } else { 0u32 });
                    }
                }
                return Err(Error::SerializationError);
            },
        };
        proof {
            lemma_layer_offset_grows(n as nat, 1, layers as nat);
            assert(layer_offset(n as nat, 1) == layer_offset(n as nat, 0) + n * slot_cap(0));
        }
        let base = read_base(&ws, n);
        let upper = read_upper(&ws, n, layers);
        let h = Index {
            dimension,
            ef_search,
            ef_construction,
            vectors,
            levels,
            live,
            base,
            upper,
            entry: VectorID(ws[7]),
        };
        proof {
            if src is Some {
                let g = src->Some_0;
                lemma_graph_words(&g);
                assert(encodes_graph(bytes@, vs0, g));
                lemma_rebuilt_slots(&g, &h, ws@);
                assert forall|k: int| 0 <= k < n implies h.levels@[k] == g.levels@[k] by {
                    assert(g.layers()[k] as u32 == ws@[HEADER_WORDS + k]);
                }
                assert(h.levels@ =~= g.levels@);
                assert forall|k: int| 0 <= k < n implies h.live@[k] == g.live@[k] by {
                    assert(ws@[HEADER_WORDS + n + k] == if g.lives()[k] { 1u32 } else { 0u32 });
                    assert(flag_word(ws@, n as int, k) == ws@[HEADER_WORDS + n + k]);
                    assert(h.live@[k] <==> flag_word(ws@, n as int, k) == 1);
                }
                assert(h.live@ =~= g.live@);
                assert(h.entry == g.entry);
                assert forall|k: int| 0 <= k < g.vectors@.len() implies (#[trigger] g.vectors@[k]).coords() == h.vectors@[k].coords() by {
                    assert(g.vecs()[k].coords() == vs0[k].coords());
                }
                lemma_wf_transfer(&g, &h);
                lemma_words_agree(&g, &h);
            }
        }
        if !h.check() {
            return Err(Error::SerializationError);
        }
        let again = h.save();
        if !same_bytes(&again, bytes) {
            return Err(Error::SerializationError);
        }
        Ok(h)
    }
}

/// A graph whose nodes were read from the words of a well-formed graph `g`,
/// each from its place, has the nodes of `g`.
proof fn lemma_rebuilt_slots(g: &Index, h: &Index, ws: Seq<u32>)
    requires
        g.wf(),
        ws == graph_words(g),
        h.upper@.len() == g.num_upper(),
        h.base@.len() == g.n(),
        forall|k: int| 0 <= k < g.n() ==> (#[trigger] h.base@[k]).slots().len() == BASE_SLOTS,
        forall|k: int, p: int| 0 <= k < g.n() && 0 <= p < BASE_SLOTS ==> #[trigger] h.base@[k].slots()[p] == VectorID(ws[HEADER_WORDS + 2 * g.n() + BASE_SLOTS * k + p]),
        forall|l: int| 0 <= l < g.num_upper() ==> (#[trigger] h.upper@[l])@.len() == g.n(),
        forall|l: int, k: int| 0 <= l < g.num_upper() && 0 <= k < g.n() ==> (#[trigger] h.upper@[l]@[k]).slots().len() == M,
        forall|l: int, k: int, p: int| 0 <= l < g.num_upper() && 0 <= k < g.n() && 0 <= p < M ==> #[trigger] h.upper@[l]@[k].slots()[p] == VectorID(ws[HEADER_WORDS + 2 * g.n() + layer_offset(g.n(), (l + 1) as nat) + M * k + p]),
    ensures
        forall|l: int, k: int| 0 <= l <= g.num_upper() && 0 <= k < g.n() ==> #[trigger] h.slots(l, k) == g.slots(l, k),
{
    lemma_graph_words(g);
    let n = g.n();
    let start = HEADER_WORDS + 2 * n;
    assert forall|l2: int, k: int| 0 <= l2 <= g.num_upper() && 0 <= k < n implies #[trigger] h.slots(l2, k) == g.slots(l2, k) by {
        assert(node_ok(g.slots(l2, k), k, l2, g.vectors@, g.levels@, g.live@));
        let c = slot_cap(l2);
        assert forall|p: int| 0 <= p < c implies h.slots(l2, k)[p] == g.slots(l2, k)[p] by {
            assert(graph_words(g)[start + layer_offset(n, l2 as nat) + k * c + p] == g.slots(l2, k)[p].0);
            if l2 == 0 {
                assert(BASE_SLOTS * k == k * c) by (nonlinear_arith)
                    requires
                        c == BASE_SLOTS,
                ;
            } else {
                assert(M * k == k * c) by (nonlinear_arith)
                    requires
                        c == M,
                ;
            }
        }
        assert(h.slots(l2, k) =~= g.slots(l2, k));
    }
}

/// The number of words of a serialized graph of `n` vectors and `layers`
/// layers.
fn expected_words(n: usize, layers: usize) -> (r: u64)
    requires
        n < SENTINEL,
        1 <= layers <= MAX_LAYER + 1,
    ensures
        r == HEADER_WORDS + 2 * n + layer_offset(n as nat, layers as nat),
{
    let mut off: u64 = 0;
    let mut l: usize = 0;
    while l < layers
        invariant
            n < SENTINEL,
            layers <= MAX_LAYER + 1,
            l <= layers,
            off == layer_offset(n as nat, l as nat),
            off <= l * (n * 64),
        decreases layers - l,
    {
        let cap: u64 = if l == 0 {
            BASE_SLOTS as u64
        } else {
            M as u64
        };
        proof {
            assert(n * cap <= n * 64) by (nonlinear_arith)
                requires
                    cap <= 64,
            ;
            assert(l * (n * 64) + n * 64 == (l + 1) * (n * 64)) by (nonlinear_arith);
            assert((l + 1) * (n * 64) <= 17 * (0xffff_ffff * 64)) by (nonlinear_arith)
                requires
                    l + 1 <= 17,
                    n <= 0xffff_ffff,
            ;
            assert(cap == slot_cap(l as int));
        }
        off = off + (n as u64) * cap;
        l = l + 1;
    }
    proof {
        assert(layers * (n * 64) <= 17 * (0xffff_ffff * 64)) by (nonlinear_arith)
            requires
                layers <= 17,
                n <= 0xffff_ffff,
        ;
    }
    HEADER_WORDS as u64 + 2 * (n as u64) + off
}

/// The top layer of each of `n` vectors, from the words after the header;
/// `None` when one is not below `layers`.
fn read_levels(ws: &Vec<u32>, n: usize, layers: usize) -> (r: Option<Vec<u8>>)
    requires
        HEADER_WORDS + 2 * n <= ws@.len(),
        layers <= MAX_LAYER + 1,
    ensures
        r is None <==> exists|j: int| HEADER_WORDS <= j < HEADER_WORDS + n && #[trigger] ws@[j] >= layers,
        r is Some ==> r->Some_0@.len() == n && forall|k: int| 0 <= k < n ==> #[trigger] r->Some_0@[k] == ws@[HEADER_WORDS + k] as u8 && ws@[HEADER_WORDS + k] < layers,
{
    let total = ws.len();
    let mut levels: Vec<u8> = Vec::new();
    let mut i: usize = 0;
    while i < n
        invariant
            total == ws@.len(),
            HEADER_WORDS + 2 * n <= ws@.len(),
            layers <= MAX_LAYER + 1,
            i <= n,
            levels@.len() == i,
            forall|k: int| 0 <= k < i ==> #[trigger] levels@[k] == ws@[HEADER_WORDS + k] as u8 && ws@[HEADER_WORDS + k] < layers,
        decreases n - i,
    {
        let w = ws[HEADER_WORDS + i];
        if w as usize >= layers {
            assert(ws@[HEADER_WORDS + i] >= layers);
            return None;
        }
        let ghost before = levels@;
        levels.push(w as u8);
        proof {
            assert forall|k: int| 0 <= k < i + 1 implies #[trigger] levels@[k] == ws@[HEADER_WORDS + k] as u8 && ws@[HEADER_WORDS + k] < layers by {
                if k < i {
                    assert(levels@[k] == before[k]);
                }
            }
        }
        i = i + 1;
    }
    assert forall|j: int| HEADER_WORDS <= j < HEADER_WORDS + n implies !(#[trigger] ws@[j] >= layers) by {
        assert(levels@[j - HEADER_WORDS] == ws@[j] as u8);
    }
    Some(levels)
}

/// Whether each of `n` vectors is live, from the words after the levels;
/// `None` when one is neither 0 nor 1.
#[verifier::spinoff_prover]
fn read_live(ws: &Vec<u32>, n: usize) -> (r: Option<Vec<bool>>)
    requires
        HEADER_WORDS + 2 * n <= ws@.len(),
    ensures
        r is None <==> exists|j: int| HEADER_WORDS + n <= j < HEADER_WORDS + 2 * n && #[trigger] ws@[j] > 1,
        r is Some ==> r->Some_0@.len() == n && forall|k: int| 0 <= k < n ==> (#[trigger] r->Some_0@[k] <==> flag_word(ws@, n as int, k) == 1) && flag_word(ws@, n as int, k) <= 1,
{
    let total = ws.len();
    let mut live: Vec<bool> = Vec::new();
    let mut i: usize = 0;
    while i < n
        invariant
            total == ws@.len(),
            HEADER_WORDS + 2 * n <= ws@.len(),
            i <= n,
            live@.len() == i,
            forall|k: int| 0 <= k < i ==> (#[trigger] live@[k] <==> flag_word(ws@, n as int, k) == 1) && flag_word(ws@, n as int, k) <= 1,
        decreases n - i,
    {
        let w = ws[HEADER_WORDS + n + i];
        assert(w == flag_word(ws@, n as int, i as int));
        if w > 1 {
            assert(ws@[HEADER_WORDS + n + i] > 1);
            return None;
        }
        let b = w == 1;
        let ghost before = live@;
        live.push(b);
        proof {
            assert forall|k: int| 0 <= k < i + 1 implies (#[trigger] live@[k] <==> flag_word(ws@, n as int, k) == 1) && flag_word(ws@, n as int, k) <= 1 by {
                if k < i {
                    assert(live@[k] == before[k]);
                } else {
                    assert(live@[k] == b);
                }
            }
            assert(forall|k: int| 0 <= k < i + 1 ==> (#[trigger] live@[k] <==> flag_word(ws@, n as int, k) == 1) && flag_word(ws@, n as int, k) <= 1);
            assert(live@.len() == i + 1);
        }
        i = i + 1;
    }
    assert forall|j: int| HEADER_WORDS + n <= j < HEADER_WORDS + 2 * n implies !(#[trigger] ws@[j] > 1) by {
        assert(flag_word(ws@, n as int, j - HEADER_WORDS - n) == ws@[j]);
        assert(live@[j - HEADER_WORDS - n] <==> flag_word(ws@, n as int, j - HEADER_WORDS - n) == 1);
    }
    Some(live)
}

/// The word that says whether vector `k` is live.
pub open spec fn flag_word(ws: Seq<u32>, n: int, k: int) -> u32 {
    ws[HEADER_WORDS + n + k]
}

/// The ground-layer nodes of `n` vectors, from the words after the flags.
fn read_base(ws: &Vec<u32>, n: usize) -> (r: Vec<BaseNode>)
    requires
        HEADER_WORDS + 2 * n + n * BASE_SLOTS <= ws@.len(),
    ensures
        r@.len() == n,
        forall|k: int| 0 <= k < n ==> (#[trigger] r@[k]).slots().len() == BASE_SLOTS,
        forall|k: int, p: int| 0 <= k < n && 0 <= p < BASE_SLOTS ==> #[trigger] r@[k].slots()[p] == VectorID(ws@[HEADER_WORDS + 2 * n + BASE_SLOTS * k + p]),
{
    let total = ws.len();
    let start = HEADER_WORDS + 2 * n;
    let mut base: Vec<BaseNode> = Vec::new();
    let mut i: usize = 0;
    while i < n
        invariant
            total == ws@.len(),
            start == HEADER_WORDS + 2 * n,
            start + n * BASE_SLOTS <= ws@.len(),
            i <= n,
            base@.len() == i,
            forall|k: int| 0 <= k < i ==> (#[trigger] base@[k]).slots().len() == BASE_SLOTS,
            forall|k: int, p: int| 0 <= k < i && 0 <= p < BASE_SLOTS ==> #[trigger] base@[k].slots()[p] == VectorID(ws@[start + BASE_SLOTS * k + p]),
        decreases n - i,
    {
        proof {
            assert(BASE_SLOTS * i + BASE_SLOTS <= n * BASE_SLOTS) by (nonlinear_arith)
                requires
                    i < n,
            ;
        }
        let slots = read_slots(ws, start + BASE_SLOTS * i, BASE_SLOTS);
        let ghost before = base@;
        base.push(BaseNode::from_slots(slots));
        proof {
            assert forall|k: int, p: int| 0 <= k < i + 1 && 0 <= p < BASE_SLOTS implies #[trigger] base@[k].slots()[p] == VectorID(ws@[start + BASE_SLOTS * k + p]) by {
                if k < i {
                    assert(base@[k] == before[k]);
                }
            }
        }
        i = i + 1;
    }
    base
}

/// The nodes of the layers above the ground, `layers - 1` of them, each of
/// `n` nodes, from the words after the ground layer.
fn read_upper(ws: &Vec<u32>, n: usize, layers: usize) -> (r: Vec<Vec<UpperNode>>)
    requires
        n < SENTINEL,
        1 <= layers <= MAX_LAYER + 1,
        ws@.len() == HEADER_WORDS + 2 * n + layer_offset(n as nat, layers as nat),
    ensures
        r@.len() == layers - 1,
        forall|l: int| 0 <= l < layers - 1 ==> (#[trigger] r@[l])@.len() == n,
        forall|l: int, k: int| 0 <= l < layers - 1 && 0 <= k < n ==> (#[trigger] r@[l]@[k]).slots().len() == M,
        forall|l: int, k: int, p: int| 0 <= l < layers - 1 && 0 <= k < n && 0 <= p < M ==> #[trigger] r@[l]@[k].slots()[p] == VectorID(ws@[HEADER_WORDS + 2 * n + layer_offset(n as nat, (l + 1) as nat) + M * k + p]),
{
    let total = ws.len();
    let start = HEADER_WORDS + 2 * n;
    let mut upper: Vec<Vec<UpperNode>> = Vec::new();
    let mut l: usize = 1;
    while l < layers
        invariant
            total == ws@.len(),
            n < SENTINEL,
            1 <= l <= layers,
            layers <= MAX_LAYER + 1,
            start == HEADER_WORDS + 2 * n,
            ws@.len() == start + layer_offset(n as nat, layers as nat),
            upper@.len() == l - 1,
            forall|l2: int| 0 <= l2 < l - 1 ==> (#[trigger] upper@[l2])@.len() == n,
            forall|l2: int, k: int| 0 <= l2 < l - 1 && 0 <= k < n ==> (#[trigger] upper@[l2]@[k]).slots().len() == M,
            forall|l2: int, k: int, p: int| 0 <= l2 < l - 1 && 0 <= k < n && 0 <= p < M ==> #[trigger] upper@[l2]@[k].slots()[p] == VectorID(ws@[start + layer_offset(n as nat, (l2 + 1) as nat) + M * k + p]),
        decreases layers - l,
    {
        proof {
            lemma_layer_offset_grows(n as nat, (l + 1) as nat, layers as nat);
            assert(layer_offset(n as nat, (l + 1) as nat) == layer_offset(n as nat, l as nat) + n * slot_cap(l as int));
        }
        let ghost layer_start = start + layer_offset(n as nat, l as nat);
        let mut layer: Vec<UpperNode> = Vec::new();
        let mut i: usize = 0;
        while i < n
            invariant
                total == ws@.len(),
                n < SENTINEL,
                layers <= MAX_LAYER + 1,
                start == HEADER_WORDS + 2 * n,
                ws@.len() == start + layer_offset(n as nat, layers as nat),
                1 <= l < layers,
                layer_start == start + layer_offset(n as nat, l as nat),
                layer_start + n * M <= ws@.len(),
                i <= n,
                layer@.len() == i,
                forall|k: int| 0 <= k < i ==> (#[trigger] layer@[k]).slots().len() == M,
                forall|k: int, p: int| 0 <= k < i && 0 <= p < M ==> #[trigger] layer@[k].slots()[p] == VectorID(ws@[layer_start + M * k + p]),
            decreases n - i,
        {
            proof {
                assert(M * i + M <= n * M) by (nonlinear_arith)
                    requires
                        i < n,
                ;
            }
            let slots = read_slots(ws, start + layer_offset_exec(n, l) + M * i, M);
            let ghost before = layer@;
            layer.push(UpperNode::from_slots(slots));
            proof {
                assert forall|k: int, p: int| 0 <= k < i + 1 && 0 <= p < M implies #[trigger] layer@[k].slots()[p] == VectorID(ws@[layer_start + M * k + p]) by {
                    if k < i {
                        assert(layer@[k] == before[k]);
                    }
                }
            }
            i = i + 1;
        }
        let ghost before_upper = upper@;
        upper.push(layer);
        proof {
            assert forall|l2: int, k: int, p: int| 0 <= l2 < l && 0 <= k < n && 0 <= p < M implies #[trigger] upper@[l2]@[k].slots()[p] == VectorID(ws@[start + layer_offset(n as nat, (l2 + 1) as nat) + M * k + p]) by {
                if l2 < l - 1 {
                    assert(upper@[l2] == before_upper[l2]);
                }
            }
            assert forall|l2: int, k: int| 0 <= l2 < l && 0 <= k < n implies (#[trigger] upper@[l2]@[k]).slots().len() == M by {
                if l2 < l - 1 {
                    assert(upper@[l2] == before_upper[l2]);
                }
            }
        }
        l = l + 1;
    }
    upper
}

/// Where layer `l` starts within the layer words, for `n` vectors.
fn layer_offset_exec(n: usize, l: usize) -> (r: usize)
    requires
        n < SENTINEL,
        l <= MAX_LAYER + 1,
        HEADER_WORDS + 2 * n + layer_offset(n as nat, l as nat) <= usize::MAX,
    ensures
        r == layer_offset(n as nat, l as nat),
{
    let mut off: usize = 0;
    let mut k: usize = 0;
    while k < l
        invariant
            k <= l,
            off == layer_offset(n as nat, k as nat),
            layer_offset(n as nat, l as nat) <= usize::MAX,
        decreases l - k,
    {
        proof {
            lemma_layer_offset_grows(n as nat, (k + 1) as nat, l as nat);
        }
        let cap: usize = if k == 0 {
            BASE_SLOTS
        } else {
            M
        };
        off = off + n * cap;
        k = k + 1;
    }
    off
}

/// The identifiers in the `count` words from `start` on.
fn read_slots(ws: &Vec<u32>, start: usize, count: usize) -> (r: Vec<VectorID>)
    requires
        start + count <= ws@.len(),
    ensures
        r@.len() == count,
        forall|p: int| 0 <= p < count ==> #[trigger] r@[p] == VectorID(ws@[start + p]),
{
    let total = ws.len();
    let mut r: Vec<VectorID> = Vec::new();
    let mut p: usize = 0;
    while p < count
        invariant
            total == ws@.len(),
            start + count <= ws@.len(),
            p <= count,
            r@.len() == p,
            forall|q: int| 0 <= q < p ==> #[trigger] r@[q] == VectorID(ws@[start + q]),
        decreases count - p,
    {
        r.push(VectorID(ws[start + p]));
        p = p + 1;
    }
    r
}

/// The quantity whose low and high halves are `lo` and `hi`, if it fits in
/// a `usize`.
fn join_halves(lo: u32, hi: u32) -> (r: Option<usize>)
    ensures
        r is Some ==> lo_word(r->Some_0 as nat) == lo && hi_word(r->Some_0 as nat) == hi,
        r is None ==> hi * 0x1_0000_0000 + lo > usize::MAX,
{
    let x: u64 = (hi as u64) * 0x1_0000_0000 + lo as u64;
    proof {
        assert((hi as u64) * 0x1_0000_0000 + lo as u64 <= u64::MAX) by (nonlinear_arith)
            requires
                hi < 0x1_0000_0000,
                lo < 0x1_0000_0000,
        ;
    }
    if x > usize::MAX as u64 {
        return None;
    }
    proof {
        let xn = x as nat;
        assert(xn % 0x1_0000_0000 == lo && xn / 0x1_0000_0000 == hi) by (nonlinear_arith)
            requires
                xn == hi * 0x1_0000_0000 + lo,
                lo < 0x1_0000_0000,
                hi < 0x1_0000_0000,
        ;
    }
    Some(x as usize)
}

/// `bytes` is the serialized form of the well-formed graph `g` over vectors
/// with the coordinates of `vectors`.
pub open spec fn encodes_graph(bytes: Seq<u8>, vectors: Seq<Vector>, g: Index) -> bool {
    &&& g.wf()
    &&& encode(&g) == bytes
    &&& g.n() == vectors.len()
    &&& forall|i: int| 0 <= i < g.n() ==> (#[trigger] g.vecs()[i]).coords() == vectors[i].coords()
}

/// The words `ws` are those of the well-formed graph `g` of `n` vectors and
/// `layers` layers.
pub open spec fn shaped(g: Index, ws: Seq<u32>, n: nat, layers: nat) -> bool {
    &&& g.wf()
    &&& ws == graph_words(&g)
    &&& n == g.n()
    &&& layers == g.num_upper() + 1
}

proof fn lemma_halves_join(x: nat)
    requires
        x < 0x1_0000_0000_0000_0000,
    ensures
        hi_word(x) * 0x1_0000_0000 + lo_word(x) == x,
        hi_word(x) == x / 0x1_0000_0000,
{
    assert(x == (x / 0x1_0000_0000) * 0x1_0000_0000 + x % 0x1_0000_0000) by (nonlinear_arith);
    assert(x / 0x1_0000_0000 < 0x1_0000_0000) by (nonlinear_arith)
        requires
            x < 0x1_0000_0000_0000_0000,
    ;
}

/// Where each part of a well-formed graph sits among its words.
proof fn lemma_graph_words(g: &Index)
    requires
        g.wf(),
    ensures
        graph_words(g).len() == HEADER_WORDS + 2 * g.n() + layer_offset(g.n(), g.num_upper() + 1),
        forall|k: int| 0 <= k < HEADER_WORDS ==> graph_words(g)[k] == #[trigger] header_words(g)[k],
        forall|k: int| 0 <= k < g.n() ==> graph_words(g)[HEADER_WORDS + k] == #[trigger] g.layers()[k] as u32,
        forall|k: int| 0 <= k < g.n() ==> graph_words(g)[HEADER_WORDS + g.n() + k] == if #[trigger] g.lives()[k] { 1u32 } else { 0u32 },
        forall|l: int, i: int, p: int|
            0 <= l <= g.num_upper() && 0 <= i < g.n() && 0 <= p < slot_cap(l) ==> graph_words(g)[HEADER_WORDS + 2 * g.n() + layer_offset(g.n(), l as nat) + i * slot_cap(l) + p]
                == (#[trigger] g.slots(l, i)[p]).0,
        g.n() < SENTINEL,
        g.num_upper() <= MAX_LAYER,
        g.layers().len() == g.n(),
        g.lives().len() == g.n(),
{
    g.lemma_shape();
    lemma_layers_flat(g, g.num_upper() + 1);
    let w = graph_words(g);
    let n = g.n();
    assert forall|l: int, i: int, p: int|
        0 <= l <= g.num_upper() && 0 <= i < g.n() && 0 <= p < slot_cap(l) implies w[HEADER_WORDS + 2 * n + layer_offset(n, l as nat) + i * slot_cap(l) + p]
            == (#[trigger] g.slots(l, i)[p]).0 by {
        assert(layers_flat(g, g.num_upper() + 1)[layer_offset(n, l as nat) + i * slot_cap(l) + p] == g.slots(l, i)[p].0);
        assert(i * slot_cap(l) + p < n * slot_cap(l)) by (nonlinear_arith)
            requires
                i < n,
                p < slot_cap(l),
        ;
        lemma_layer_offset_grows(n, (l + 1) as nat, g.num_upper() + 1);
    }
}

/// A node stays well formed over other vectors of the same coordinates.
proof fn lemma_node_ok_coords(s: Seq<VectorID>, i: int, l: int, vs1: Seq<Vector>, vs2: Seq<Vector>, levels: Seq<u8>, live: Seq<bool>)
    requires
        node_ok(s, i, l, vs1, levels, live),
        0 <= i < vs1.len(),
        vs1.len() == vs2.len(),
        vs1.len() == levels.len(),
        forall|k: int| 0 <= k < vs1.len() ==> (#[trigger] vs1[k]).coords() == vs2[k].coords(),
    ensures
        node_ok(s, i, l, vs2, levels, live),
{
    assert(vs1[i].coords() == vs2[i].coords());
    assert forall|p: int, q: int| 0 <= p < q < s.len() && (#[trigger] s[q]).is_valid() implies key_lt(
        candidate_for(vs2[i].coords(), vs2, #[trigger] s[p]),
        candidate_for(vs2[i].coords(), vs2, s[q]),
    ) by {
        assert(valid_prefix(s));
        assert(s[p].is_valid());
        assert(links_ok(s, i, l, levels, live));
        assert(vs1[s[p].0 as int].coords() == vs2[s[p].0 as int].coords());
        assert(vs1[s[q].0 as int].coords() == vs2[s[q].0 as int].coords());
        assert(key_lt(candidate_for(vs1[i].coords(), vs1, s[p]), candidate_for(vs1[i].coords(), vs1, s[q])));
    }
}

/// A graph with the parts of a well-formed one, over vectors of the same
/// coordinates, is well formed.
proof fn lemma_wf_transfer(g: &Index, h: &Index)
    requires
        g.wf(),
        h.vectors@.len() == g.vectors@.len(),
        forall|k: int| 0 <= k < g.vectors@.len() ==> (#[trigger] g.vectors@[k]).coords() == h.vectors@[k].coords(),
        h.dimension == g.dimension,
        h.levels@ == g.levels@,
        h.live@ == g.live@,
        h.base@.len() == g.base@.len(),
        h.upper@.len() == g.upper@.len(),
        forall|l: int| 0 <= l < h.upper@.len() ==> (#[trigger] h.upper@[l])@.len() == h.vectors@.len(),
        h.entry == g.entry,
        forall|l: int, i: int| 0 <= l <= g.num_upper() && 0 <= i < g.n() ==> #[trigger] h.slots(l, i) == g.slots(l, i),
    ensures
        h.wf(),
{
    lemma_top_kept(g, h);
    let n = h.vectors@.len();
    assert forall|i: int| 0 <= i < n implies (#[trigger] h.vectors@[i]).coords().len() == h.dimension by {
        assert(g.vectors@[i].coords().len() == g.dimension);
    }
    assert forall|l: int, i: int| 0 <= l <= h.upper@.len() && 0 <= i < n implies #[trigger] node_ok(
        h.slots(l, i),
        i,
        l,
        h.vectors@,
        h.levels@,
        h.live@,
    ) by {
        assert(node_ok(g.slots(l, i), i, l, g.vectors@, g.levels@, g.live@));
        lemma_node_ok_coords(g.slots(l, i), i, l, g.vectors@, h.vectors@, g.levels@, g.live@);
    }
}

proof fn lemma_layers_flat_agree(g: &Index, h: &Index, top: nat)
    requires
        g.n() == h.n(),
        top <= g.num_upper() + 1,
        forall|l: int, i: int| 0 <= l <= g.num_upper() && 0 <= i < g.n() ==> #[trigger] h.slots(l, i) == g.slots(l, i),
    ensures
        layers_flat(g, top) == layers_flat(h, top),
    decreases top,
{
    if top > 0 {
        lemma_layers_flat_agree(g, h, (top - 1) as nat);
        assert(layer_slots(g, top - 1) =~= layer_slots(h, top - 1));
    }
}

/// Graphs with the same parts have the same words.
proof fn lemma_words_agree(g: &Index, h: &Index)
    requires
        g.n() == h.n(),
        g.num_upper() == h.num_upper(),
        g.spec_dimension() == h.spec_dimension(),
        g.spec_ef_search() == h.spec_ef_search(),
        g.spec_ef_construction() == h.spec_ef_construction(),
        g.entry_point() == h.entry_point(),
        g.layers() == h.layers(),
        g.lives() == h.lives(),
        forall|l: int, i: int| 0 <= l <= g.num_upper() && 0 <= i < g.n() ==> #[trigger] h.slots(l, i) == g.slots(l, i),
    ensures
        graph_words(g) == graph_words(h),
{
    lemma_layers_flat_agree(g, h, g.num_upper() + 1);
    assert(header_words(g) =~= header_words(h));
    assert(Seq::new(g.n(), |i: int| g.layers()[i] as u32) =~= Seq::new(h.n(), |i: int| h.layers()[i] as u32));
    assert(Seq::new(g.n(), |i: int| if g.lives()[i] { 1u32 } else { 0u32 }) =~= Seq::new(h.n(), |i: int| if h.lives()[i] { 1u32 } else { 0u32 }));
}

/// Whether two byte strings are equal.
fn same_bytes(a: &Vec<u8>, b: &Vec<u8>) -> (r: bool)
    ensures
        r == (a@ == b@),
{
    if a.len() != b.len() {
        return false;
    }
    let mut i: usize = 0;
    while i < a.len()
        invariant
            a@.len() == b@.len(),
            i <= a@.len(),
            forall|j: int| 0 <= j < i ==> a@[j] == b@[j],
        decreases a@.len() - i,
    {
        if a[i] != b[i] {
            return false;
        }
        i = i + 1;
    }
    assert(a@ =~= b@);
    true
}

/// Whether the slots `s` of the node of `i` on layer `l` have a valid
/// prefix, list only live vectors present on the layer other than `i`, in
/// strictly ascending order from `i` (each after its predecessor), and are
/// all empty when the node is not `present`.
#[verifier::spinoff_prover]
fn check_slots(
    s: &Vec<VectorID>,
    i: usize,
    l: usize,
    present: bool,
    vectors: &Vec<Vector>,
    levels: &Vec<u8>,
    live: &Vec<bool>,
) -> (r: bool)
    requires
        i < vectors@.len(),
        levels@.len() == vectors@.len(),
        live@.len() == vectors@.len(),
        dims_ok(vectors@, vectors@[i as int].coords().len()),
        vectors@[i as int].coords().len() <= usize::MAX,
    ensures
        r == {
            &&& valid_prefix(s@)
            &&& links_ok(s@, i as int, l as int, levels@, live@)
            &&& forall|a: int| 0 < a < s@.len() && (#[trigger] s@[a]).is_valid() ==> closer(vectors@[i as int].coords(), vectors@, s@[a - 1], s@[a])
            &&& !present ==> empty_slots(s@)
        },
{
    let n = vectors.len();
    let ghost qv = vectors@[i as int].coords();
    let mut p: usize = 0;
    let mut ended = false;
    while p < s.len()
        invariant
            n == vectors@.len(),
            i < n,
            levels@.len() == n,
            live@.len() == n,
            qv == vectors@[i as int].coords(),
            dims_ok(vectors@, qv.len()),
            qv.len() <= usize::MAX,
            p <= s@.len(),
            ended == (p > 0 && !s@[p - 1].is_valid()),
            forall|a: int, b: int| 0 <= a < b < p && !(#[trigger] s@[a]).is_valid() ==> !(#[trigger] s@[b]).is_valid(),
            forall|a: int| 0 <= a < p && (#[trigger] s@[a]).is_valid() ==> {
                &&& s@[a].0 < levels@.len()
                &&& s@[a].0 != i
                &&& live@[s@[a].0 as int]
                &&& levels@[s@[a].0 as int] >= l
            },
            forall|a: int| 0 < a < p && (#[trigger] s@[a]).is_valid() ==> closer(qv, vectors@, s@[a - 1], s@[a]),
            !present ==> forall|a: int| 0 <= a < p ==> !(#[trigger] s@[a]).is_valid(),
        decreases s@.len() - p,
    {
        let x = s[p];
        if x.is_valid() {
            if ended || !present {
                proof {
                    if ended {
                        assert(!s@[p - 1].is_valid() && s@[p as int].is_valid());
                    } else {
                        assert(s@[p as int].is_valid());
                    }
                }
                return false;
            }
            let xi = x.0 as usize;
            if xi >= n || xi == i || !live[xi] || (levels[xi] as usize) < l {
                proof {
                    assert(s@[p as int].is_valid());
                }
                return false;
            }
            if p > 0 {
                let y = s[p - 1];
                proof {
                    assert(s@[p - 1].is_valid());
                    crate::vector::lemma_sq_dist_bound(qv, vectors@[y.0 as int].coords());
                    crate::vector::lemma_sq_dist_bound(qv, vectors@[xi as int].coords());
                    crate::vector::lemma_sq_dist_nonneg(qv, vectors@[y.0 as int].coords());
                    crate::vector::lemma_sq_dist_nonneg(qv, vectors@[xi as int].coords());
                }
                let dy = vectors[i].distance(&vectors[y.0 as usize]);
                let dx = vectors[i].distance(&vectors[xi]);
                if !(dy < dx || (dy == dx && y.0 < x.0)) {
                    proof {
                        assert(s@[p as int].is_valid());
                        assert(!closer(qv, vectors@, s@[p - 1], s@[p as int]));
                    }
                    return false;
                }
            }
        } else {
            ended = true;
        }
        p = p + 1;
    }
    true
}

impl Index {
    /// Removes `id` from the neighbours of the node of `i` on layer `l`.
    fn unlink(&mut self, l: usize, i: usize, id: VectorID)
        requires
            old(self).wf(),
            l <= old(self).num_upper(),
            i < old(self).n(),
            id.is_valid(),
        ensures
            final(self).wf(),
            final(self).vecs() == old(self).vecs(),
            final(self).layers() == old(self).layers(),
            final(self).lives() == old(self).lives(),
            final(self).num_upper() == old(self).num_upper(),
            final(self).entry_point() == old(self).entry_point(),
            final(self).spec_dimension() == old(self).spec_dimension(),
            final(self).spec_ef_search() == old(self).spec_ef_search(),
            final(self).spec_ef_construction() == old(self).spec_ef_construction(),
            forall|l2: int, j: int| 0 <= l2 <= old(self).num_upper() && 0 <= j < old(self).n() && (l2 != l || j != i) ==> #[trigger] final(self).slots(l2, j) == old(self).slots(l2, j),
            forall|p: int| 0 <= p < final(self).slots(l as int, i as int).len() ==> #[trigger] final(self).slots(l as int, i as int)[p] != id,
            final(self).slots(l as int, i as int) == without_id(old(self).slots(l as int, i as int), id),
    {
        let ghost s = self.slots(l as int, i as int);
        proof {
            assert(node_ok(s, i as int, l as int, self.vectors@, self.levels@, self.live@));
        }
        let cap: usize = if l == 0 {
            BASE_SLOTS
        } else {
            M
        };
        let mut p: usize = 0;
        while p < cap
            invariant
                self.wf(),
                *self == *old(self),
                id.is_valid(),
                cap == slot_cap(l as int),
                node_ok(s, i as int, l as int, self.vectors@, self.levels@, self.live@),
                s == self.slots(l as int, i as int),
                s.len() == cap,
                l <= self.num_upper(),
                i < self.n(),
                p <= cap,
                forall|q: int| 0 <= q < p ==> #[trigger] s[q] != id,
            decreases cap - p,
        {
            if self.slot(l, i, p) == id {
                proof {
                    lemma_remove_node_ok(s, p as int, i as int, l as int, self.vectors@, self.levels@, self.live@);
                }
                if l == 0 {
                    self.base[i].remove(p);
                } else {
                    self.upper[l - 1][i].remove(p);
                }
                proof {
                    let cur = *self;
                    lemma_top_kept(old(self), &cur);
                    assert(self.slots(l as int, i as int) == removed_at(s, p as int));
                    assert forall|l2: int| 0 <= l2 < self.upper@.len() implies (#[trigger] self.upper@[l2])@.len() == self.vectors@.len() by {
                        assert(old(self).upper@[l2]@.len() == self.vectors@.len());
                    }
                    assert forall|l2: int, j: int| 0 <= l2 <= self.upper@.len() && 0 <= j < self.vectors@.len() implies #[trigger] node_ok(
                        self.slots(l2, j),
                        j,
                        l2,
                        self.vectors@,
                        self.levels@,
                        self.live@,
                    ) by {
                        if l2 != l || j != i {
                            assert(self.slots(l2, j) == old(self).slots(l2, j));
                        }
                    }
                    lemma_remove_unique(s, p as int, self.vectors@[i as int].coords(), self.vectors@);
                    let c = choose|c: int| 0 <= c < s.len() && s[c] == id;
                    if c != p {
                        let t = removed_at(s, p as int);
                        if c < p {
                            assert(t[c] == s[c]);
                        } else {
                            assert(t[c - 1] == s[c]);
                        }
                    }
                    assert(self.slots(l as int, i as int) == without_id(s, id));
                }
                return;
            }
            p = p + 1;
        }
        proof {
            assert(!(exists|c: int| 0 <= c < s.len() && s[c] == id));
        }
    }

    /// Deletes vector `id`: it leaves every neighbour list, its own nodes
    /// are emptied, and it is no longer live; when it was the entry point, a
    /// live vector on the highest layer (the lowest identifier among them)
    /// takes its place. Fails with `NotFound` unless `id` is live.
    #[verifier::spinoff_prover]
    pub fn delete(&mut self, id: VectorID) -> (r: Result<(), Error>)
        requires
            old(self).wf(),
        ensures
            r.is_err() <==> !old(self).is_live(id.0 as int),
            r.is_err() ==> r == Err::<(), Error>(Error::NotFound) && *final(self) == *old(self),
            r.is_ok() ==> {
                &&& final(self).wf()
                &&& final(self).vecs() == old(self).vecs()
                &&& final(self).layers() == old(self).layers()
                &&& final(self).lives() == old(self).lives().update(id.0 as int, false)
                &&& final(self).num_upper() == old(self).num_upper()
                &&& final(self).spec_dimension() == old(self).spec_dimension()
                &&& final(self).spec_ef_search() == old(self).spec_ef_search()
                &&& final(self).spec_ef_construction() == old(self).spec_ef_construction()
                &&& forall|l: int, i: int, p: int|
                    0 <= l <= final(self).num_upper() && 0 <= i < final(self).n() && 0 <= p < final(self).slots(l, i).len()
                        ==> #[trigger] final(self).slots(l, i)[p] != id
                &&& forall|l: int, i: int|
                    0 <= l <= final(self).num_upper() && 0 <= i < final(self).n() && i != id.0 ==> #[trigger] final(self).slots(l, i)
                        == without_id(old(self).slots(l, i), id)
                &&& forall|l: int| 0 <= l <= final(self).num_upper() ==> #[trigger] final(self).slots(l, id.0 as int) == blank(slot_cap(l))
            },
    {
        let n = self.vectors.len();
        let idx = id.0 as usize;
        if idx >= n || !self.live[idx] {
            return Err(Error::NotFound);
        }
        proof {
            self.lemma_shape();
        }
        let layers = self.upper.len() + 1;
        let ghost g0 = *self;
        let mut l: usize = 0;
        while l < layers
            invariant
                self.wf(),
                self.vectors@ == g0.vectors@,
                self.levels@ == g0.levels@,
                self.live@ == g0.live@,
                self.upper@.len() == g0.upper@.len(),
                self.entry == g0.entry,
                self.dimension == g0.dimension,
                self.ef_search == g0.ef_search,
                self.ef_construction == g0.ef_construction,
                layers == self.upper@.len() + 1,
                n == self.vectors@.len(),
                idx == id.0,
                idx < n,
                id.is_valid(),
                l <= layers,
                forall|l2: int, j: int, p: int| 0 <= l2 < l && 0 <= j < n && 0 <= p < self.slots(l2, j).len() ==> #[trigger] self.slots(l2, j)[p] != id,
                forall|l2: int, j: int| 0 <= l2 < l && 0 <= j < n ==> #[trigger] self.slots(l2, j) == without_id(g0.slots(l2, j), id),
                forall|l2: int, j: int| l <= l2 < layers && 0 <= j < n ==> #[trigger] self.slots(l2, j) == g0.slots(l2, j),
            decreases layers - l,
        {
            let mut i: usize = 0;
            while i < n
                invariant
                    self.wf(),
                    self.vectors@ == g0.vectors@,
                    self.levels@ == g0.levels@,
                    self.live@ == g0.live@,
                    self.upper@.len() == g0.upper@.len(),
                    self.entry == g0.entry,
                    self.dimension == g0.dimension,
                    self.ef_search == g0.ef_search,
                    self.ef_construction == g0.ef_construction,
                    layers == self.upper@.len() + 1,
                    n == self.vectors@.len(),
                    idx == id.0,
                    id.is_valid(),
                    l < layers,
                    i <= n,
                    forall|l2: int, j: int, p: int| 0 <= l2 < l && 0 <= j < n && 0 <= p < self.slots(l2, j).len() ==> #[trigger] self.slots(l2, j)[p] != id,
                    forall|j: int, p: int| 0 <= j < i && 0 <= p < self.slots(l as int, j).len() ==> #[trigger] self.slots(l as int, j)[p] != id,
                    forall|l2: int, j: int| 0 <= l2 < l && 0 <= j < n ==> #[trigger] self.slots(l2, j) == without_id(g0.slots(l2, j), id),
                    forall|j: int| 0 <= j < i ==> #[trigger] self.slots(l as int, j) == without_id(g0.slots(l as int, j), id),
                    forall|l2: int, j: int| l <= l2 < layers && 0 <= j < n && (l2 != l || j >= i) ==> #[trigger] self.slots(l2, j) == g0.slots(l2, j),
                decreases n - i,
            {
                let ghost before = *self;
                self.unlink(l, i, id);
                proof {
                    assert forall|l2: int, j: int| 0 <= l2 < l && 0 <= j < n implies #[trigger] self.slots(l2, j) == without_id(g0.slots(l2, j), id) by {
                        assert(self.slots(l2, j) == before.slots(l2, j));
                    }
                    assert forall|j: int| 0 <= j < i + 1 implies #[trigger] self.slots(l as int, j) == without_id(g0.slots(l as int, j), id) by {
                        if j < i {
                            assert(self.slots(l as int, j) == before.slots(l as int, j));
                        } else {
                            assert(before.slots(l as int, j) == g0.slots(l as int, j));
                        }
                    }
                    assert forall|l2: int, j: int| l <= l2 < layers && 0 <= j < n && (l2 != l || j >= i + 1) implies #[trigger] self.slots(l2, j) == g0.slots(l2, j) by {
                        assert(self.slots(l2, j) == before.slots(l2, j));
                    }
                    assert forall|l2: int, j: int, p: int| 0 <= l2 < l && 0 <= j < n && 0 <= p < self.slots(l2, j).len() implies #[trigger] self.slots(l2, j)[p] != id by {
                        assert(self.slots(l2, j) == before.slots(l2, j));
                    }
                    assert forall|j: int, p: int| 0 <= j < i + 1 && 0 <= p < self.slots(l as int, j).len() implies #[trigger] self.slots(l as int, j)[p] != id by {
                        if j < i {
                            assert(self.slots(l as int, j) == before.slots(l as int, j));
                        }
                    }
                }
                i = i + 1;
            }
            l = l + 1;
        }
        // Empty the vector's own nodes.
        let ghost g1 = *self;
        self.base.set(idx, BaseNode::new());
        proof {
            assert(self.base@[idx as int].slots() == blank(BASE_SLOTS as nat));
        }
        let mut l: usize = 0;
        while l < self.upper.len()
            invariant
                self.upper@.len() == g0.upper@.len(),
                n == self.vectors@.len(),
                idx < n,
                l <= self.upper@.len(),
                forall|l2: int| 0 <= l2 < self.upper@.len() ==> (#[trigger] self.upper@[l2])@.len() == n,
                forall|l2: int| 0 <= l2 < l ==> (#[trigger] self.upper@[l2])@[idx as int].slots() == blank(M as nat),
                forall|l2: int, j: int| 0 <= l2 < self.upper@.len() && 0 <= j < n && (l2 >= l || j != idx) ==> #[trigger] self.upper@[l2]@[j] == g1.upper@[l2]@[j],
                g1.wf(),
                g1.upper@.len() == self.upper@.len(),
                g1.vectors@.len() == n,
                self.vectors@ == g1.vectors@,
                self.levels@ == g1.levels@,
                self.live@ == g1.live@,
                self.entry == g1.entry,
                self.dimension == g1.dimension,
                self.ef_search == g1.ef_search,
                self.ef_construction == g1.ef_construction,
                self.base@.len() == n,
                self.base@[idx as int].slots() == blank(BASE_SLOTS as nat),
                forall|j: int| 0 <= j < n && j != idx ==> #[trigger] self.base@[j] == g1.base@[j],
                forall|l2: int, j: int, p: int| 0 <= l2 <= g1.upper@.len() && 0 <= j < n && 0 <= p < g1.slots(l2, j).len() ==> #[trigger] g1.slots(l2, j)[p] != id,
            decreases self.upper@.len() - l,
        {
            self.upper[l].set(idx, UpperNode::new());
            l = l + 1;
        }
        self.live.set(idx, false);
        if self.entry == id {
            self.entry = highest_live(&self.levels, &self.live);
        }
        proof {
            let lv = self.live@;
            assert(lv == g0.live@.update(idx as int, false));
            assert forall|l2: int, j: int| 0 <= l2 <= self.upper@.len() && 0 <= j < n implies #[trigger] node_ok(
                self.slots(l2, j),
                j,
                l2,
                self.vectors@,
                self.levels@,
                self.live@,
            ) by {
                if j == idx {
                    assert(self.slots(l2, j) == blank(slot_cap(l2)));
                    lemma_empty_node_ok(self.slots(l2, j), j, l2, self.vectors@, self.levels@, self.live@);
                } else {
                    let t = self.slots(l2, j);
                    assert(t == g1.slots(l2, j));
                    assert(node_ok(t, j, l2, g1.vectors@, g1.levels@, g1.live@));
                    lemma_node_ok_unlisted(t, j, l2, self.vectors@, self.levels@, g1.live@, idx as int);
                }
            }
            assert forall|l2: int, j: int, p: int|
                0 <= l2 <= self.upper@.len() && 0 <= j < n && 0 <= p < self.slots(l2, j).len() implies #[trigger] self.slots(l2, j)[p] != id by {
                if j != idx {
                    assert(self.slots(l2, j) == g1.slots(l2, j));
                } else {
                    assert(self.slots(l2, j) == blank(slot_cap(l2)));
                }
            }
            assert forall|l2: int| 0 <= l2 < self.upper@.len() implies (#[trigger] self.upper@[l2])@.len() == n by {}
            assert forall|i: int| 0 <= i < n implies #[trigger] self.levels@[i] <= self.upper@.len() by {
                assert(g1.levels@[i] <= g1.upper@.len());
            }
            if g1.entry != id {
                assert(self.entry == g1.entry);
                assert forall|i: int| 0 <= i < n && self.live@[i] implies #[trigger] self.levels@[i] <= self.levels@[self.entry.0 as int] by {
                    assert(g1.live@[i]);
                }
            }
            if !self.entry.is_valid() {
                assert(g1.entry == id || !g1.entry.is_valid());
            }
            assert forall|l2: int, j: int| 0 <= l2 <= self.upper@.len() && 0 <= j < n && j != idx implies #[trigger] self.slots(l2, j) == without_id(g0.slots(l2, j), id) by {
                assert(self.slots(l2, j) == g1.slots(l2, j));
            }
            assert forall|l2: int| 0 <= l2 <= self.upper@.len() implies #[trigger] self.slots(l2, idx as int) == blank(slot_cap(l2)) by {}
            let cur = *self;
            lemma_top_kept(&g1, &cur);
            assert(self.wf());
        }
        Ok(())
    }
}

/// A live vector with the highest top layer, the lowest identifier among
/// ties, or the sentinel when none is live.
fn highest_live(levels: &Vec<u8>, live: &Vec<bool>) -> (r: VectorID)
    requires
        levels@.len() == live@.len(),
        live@.len() < SENTINEL,
    ensures
        r.is_valid() ==> r.0 < live@.len() && live@[r.0 as int] && forall|i: int| 0 <= i < live@.len() && live@[i] ==> #[trigger] levels@[i] <= levels@[r.0 as int],
        !r.is_valid() ==> forall|i: int| 0 <= i < live@.len() ==> !#[trigger] live@[i],
{
    let mut best = VectorID(SENTINEL);
    let mut i: usize = 0;
    while i < live.len()
        invariant
            levels@.len() == live@.len(),
            live@.len() < SENTINEL,
            i <= live@.len(),
            best.is_valid() ==> best.0 < i && live@[best.0 as int] && forall|j: int| 0 <= j < i && live@[j] ==> #[trigger] levels@[j] <= levels@[best.0 as int],
            !best.is_valid() ==> forall|j: int| 0 <= j < i ==> !#[trigger] live@[j],
        decreases live@.len() - i,
    {
        if live[i] && (!best.is_valid() || levels[i] > levels[best.0 as usize]) {
            best = VectorID(i as u32);
        }
        i = i + 1;
    }
    best
}

/// Removing a listed vector keeps a node well formed, and a vector listed
/// once is not listed after its slot is removed.
proof fn lemma_remove_node_ok(s: Seq<VectorID>, p: int, i: int, l: int, vs: Seq<Vector>, levels: Seq<u8>, live: Seq<bool>)
    requires
        node_ok(s, i, l, vs, levels, live),
        0 <= p < s.len(),
    ensures
        node_ok(removed_at(s, p), i, l, vs, levels, live),
{
    let t = removed_at(s, p);
    assert forall|a: int| 0 <= a < t.len() implies #[trigger] t[a] == if a < p {
        s[a]
    } else if a < t.len() - 1 {
        s[a + 1]
    } else {
        VectorID(SENTINEL)
    } by {}
    assert forall|a: int, b: int| 0 <= a < b < t.len() && !(#[trigger] t[a]).is_valid() implies !(#[trigger] t[b]).is_valid() by {
        if b < t.len() - 1 {
            if a < p {
                assert(!s[a].is_valid());
            } else {
                assert(!s[a + 1].is_valid());
            }
        }
    }
    assert forall|a: int, b: int| 0 <= a < b < t.len() && (#[trigger] t[b]).is_valid() implies key_lt(
        candidate_for(vs[i].coords(), vs, #[trigger] t[a]),
        candidate_for(vs[i].coords(), vs, t[b]),
    ) by {
        assert(b < t.len() - 1);
        let a0 = if a < p { a } else { a + 1 };
        let b0 = if b < p { b } else { b + 1 };
        assert(t[a] == s[a0]);
        assert(t[b] == s[b0]);
        assert(a0 < b0);
    }
    assert forall|a: int| 0 <= a < t.len() && (#[trigger] t[a]).is_valid() implies {
        &&& t[a].0 < levels.len()
        &&& t[a].0 != i
        &&& live[t[a].0 as int]
        &&& levels[t[a].0 as int] >= l
    } by {
        if a < p {
            assert(t[a] == s[a]);
        } else {
            assert(t[a] == s[a + 1]);
        }
    }
}

/// Once the slot of a listed vector is removed, the vector is no longer
/// listed: an ordered node lists each vector once.
proof fn lemma_remove_unique(s: Seq<VectorID>, p: int, qv: Seq<i32>, vs: Seq<Vector>)
    requires
        ordered_for(s, qv, vs),
        0 <= p < s.len(),
        s[p].is_valid(),
    ensures
        forall|q: int| 0 <= q < removed_at(s, p).len() ==> #[trigger] removed_at(s, p)[q] != s[p],
{
    let t = removed_at(s, p);
    assert forall|q: int| 0 <= q < t.len() implies #[trigger] t[q] != s[p] by {
        if q < p {
            assert(t[q] == s[q]);
            if s[q] == s[p] {
                assert(key_lt(candidate_for(qv, vs, s[q]), candidate_for(qv, vs, s[p])));
            }
        } else if q < t.len() - 1 {
            assert(t[q] == s[q + 1]);
            if s[q + 1] == s[p] {
                assert(key_lt(candidate_for(qv, vs, s[p]), candidate_for(qv, vs, s[q + 1])));
            }
        } else {
            assert(t[q] == VectorID(SENTINEL));
        }
    }
}

/// A node that does not list `d` stays well formed when `d` stops being
/// live, unless it is the node of `d` itself.
proof fn lemma_node_ok_unlisted(s: Seq<VectorID>, i: int, l: int, vs: Seq<Vector>, levels: Seq<u8>, live: Seq<bool>, d: int)
    requires
        node_ok(s, i, l, vs, levels, live),
        i != d,
        0 <= i < live.len(),
        0 <= d < live.len(),
        levels.len() == live.len(),
        forall|p: int| 0 <= p < s.len() ==> (#[trigger] s[p]).0 != d,
    ensures
        node_ok(s, i, l, vs, levels, live.update(d, false)),
{
    let live2 = live.update(d, false);
    assert(live2[i] == live[i]);
    assert forall|p: int| 0 <= p < s.len() && (#[trigger] s[p]).is_valid() implies {
        &&& s[p].0 < levels.len()
        &&& s[p].0 != i
        &&& live2[s[p].0 as int]
        &&& levels[s[p].0 as int] >= l
    } by {
        assert(links_ok(s, i, l, levels, live));
        assert(s[p].0 != d);
    }
}

/// Ordered neighbours with each valid slot after its predecessor are
/// ordered pairwise.
proof fn lemma_adjacent_ordered(s: Seq<VectorID>, qv: Seq<i32>, vs: Seq<Vector>)
    requires
        valid_prefix(s),
        forall|a: int| 0 < a < s.len() && (#[trigger] s[a]).is_valid() ==> closer(qv, vs, s[a - 1], s[a]),
    ensures
        ordered_for(s, qv, vs),
{
    assert forall|p: int, q: int| 0 <= p < q < s.len() && (#[trigger] s[q]).is_valid() implies key_lt(
        candidate_for(qv, vs, #[trigger] s[p]),
        candidate_for(qv, vs, s[q]),
    ) by {
        lemma_chain(s, qv, vs, p, q);
    }
}

proof fn lemma_chain(s: Seq<VectorID>, qv: Seq<i32>, vs: Seq<Vector>, p: int, q: int)
    requires
        valid_prefix(s),
        forall|a: int| 0 < a < s.len() && (#[trigger] s[a]).is_valid() ==> closer(qv, vs, s[a - 1], s[a]),
        0 <= p < q < s.len(),
        s[q].is_valid(),
    ensures
        closer(qv, vs, s[p], s[q]),
    decreases q - p,
{
    assert(closer(qv, vs, s[q - 1], s[q]));
    if p < q - 1 {
        assert(s[q - 1].is_valid());
        lemma_chain(s, qv, vs, p, q - 1);
    }
}

/// Every held candidate names a live vector other than `q` that is present
/// on layer `l`.
pub open spec fn held_ok(g: &Index, s: Seq<Candidate>, l: int, q: VectorID) -> bool {
    forall|i: int|
        0 <= i < s.len() ==> {
            &&& (#[trigger] s[i]).vector_id.0 < g.n()
            &&& s[i].vector_id != q
            &&& g.lives()[s[i].vector_id.0 as int]
            &&& g.layers()[s[i].vector_id.0 as int] >= l
        }
}

/// The first `cap` identifiers of the nearest list.
fn choose_nearest(search: &Search, cap: usize) -> (r: Vec<VectorID>)
    ensures
        r@.len() == if search.nearest_seq().len() < cap { search.nearest_seq().len() } else { cap as nat },
        forall|k: int| 0 <= k < r@.len() ==> #[trigger] r@[k] == search.nearest_seq()[k].vector_id,
{
    let near = search.iter();
    let mut r: Vec<VectorID> = Vec::new();
    let mut k: usize = 0;
    while k < near.len() && k < cap
        invariant
            near@ == search.nearest_seq(),
            k <= near@.len(),
            k <= cap,
            r@.len() == k,
            forall|j: int| 0 <= j < k ==> #[trigger] r@[j] == near@[j].vector_id,
        decreases cap - k,
    {
        r.push(near[k].vector_id);
        k = k + 1;
    }
    r
}

/// A layer object of the graph shows the nodes of layer `l`.
pub open spec fn shows_layer<L: Layer>(g: &Index, layer: &L, l: int) -> bool {
    &&& layer.spec_len() == g.n()
    &&& forall|u: int| 0 <= u < g.n() ==> #[trigger] layer.spec_node(u) == g.slots(l, u)
}

proof fn lemma_layer_view<L: Layer>(g: &Index, layer: &L, l: int)
    requires
        g.wf(),
        0 <= l <= g.num_upper(),
        shows_layer(g, layer, l),
    ensures
        layer_closed(layer, g.n()),
{
    assert forall|u: int, k: int| 0 <= u < g.n() && 0 <= k < neighbors(layer.spec_node(u)).len() implies (#[trigger] neighbors(
        layer.spec_node(u),
    )[k]).0 < g.n() by {
        let s = g.slots(l, u);
        assert(layer.spec_node(u) == s);
        lemma_neighbors(s);
        assert(node_ok(s, u, l, g.vecs(), g.layers(), g.lives()));
        assert(links_ok(s, u, l, g.layers(), g.lives()));
        assert(neighbors(s)[k] == s[k]);
        assert(s[k].is_valid());
    }
}

proof fn lemma_found_held<L: Layer>(
    g: &Index,
    layer: &L,
    l: int,
    q: VectorID,
    n0: Seq<Candidate>,
    c0: Seq<Candidate>,
    s: Seq<Candidate>,
)
    requires
        g.wf(),
        0 <= l <= g.num_upper(),
        shows_layer(g, layer, l),
        held_ok(g, n0, l, q),
        held_ok(g, c0, l, q),
        forall|i: int, p: int| 0 <= i < g.n() && 0 <= p < g.slots(l, i).len() ==> #[trigger] g.slots(l, i)[p] != q,
        forall|i: int| 0 <= i < s.len() ==> #[trigger] found(s[i].vector_id, n0, c0, layer),
    ensures
        held_ok(g, s, l, q),
{
    assert forall|i: int| 0 <= i < s.len() implies {
        &&& (#[trigger] s[i]).vector_id.0 < g.n()
        &&& s[i].vector_id != q
        &&& g.lives()[s[i].vector_id.0 as int]
        &&& g.layers()[s[i].vector_id.0 as int] >= l
    } by {
        let id = s[i].vector_id;
        assert(found(id, n0, c0, layer));
        if ids_of(n0).contains(id) {
            let j = choose|j: int| 0 <= j < ids_of(n0).len() && ids_of(n0)[j] == id;
            assert(n0[j].vector_id == id);
        } else if ids_of(c0).contains(id) {
            let j = choose|j: int| 0 <= j < ids_of(c0).len() && ids_of(c0)[j] == id;
            assert(c0[j].vector_id == id);
        } else {
            assert(listed(layer, id));
            let (u, k) = choose|u: int, k: int| 0 <= u < layer.spec_len() && 0 <= k < neighbors(layer.spec_node(u)).len() && #[trigger] neighbors(layer.spec_node(u))[k] == id;
            let t = g.slots(l, u);
            lemma_neighbors(t);
            assert(t[k] == id);
            assert(node_ok(t, u, l, g.vecs(), g.layers(), g.lives()));
            assert(links_ok(t, u, l, g.layers(), g.lives()));
        }
    }
}

/// Every slot empty.
pub open spec fn blank(cap: nat) -> Seq<VectorID> {
    Seq::new(cap, |i: int| VectorID(SENTINEL))
}

/// A node with no slot taken is well formed when it has the right size.
proof fn lemma_empty_node_ok(s: Seq<VectorID>, i: int, l: int, vs: Seq<Vector>, levels: Seq<u8>, live: Seq<bool>)
    requires
        s == blank(slot_cap(l)),
    ensures
        node_ok(s, i, l, vs, levels, live),
{
}

/// Appending a vector keeps the nodes of the others well formed.
proof fn lemma_node_ok_extend(
    s: Seq<VectorID>,
    i: int,
    l: int,
    vs: Seq<Vector>,
    levels: Seq<u8>,
    live: Seq<bool>,
    v: Vector,
    level: u8,
)
    requires
        node_ok(s, i, l, vs, levels, live),
        0 <= i < vs.len(),
        vs.len() == levels.len() == live.len(),
    ensures
        node_ok(s, i, l, vs.push(v), levels.push(level), live.push(true)),
{
    let vs2 = vs.push(v);
    assert forall|p: int, q: int| 0 <= p < q < s.len() && (#[trigger] s[q]).is_valid() implies key_lt(
        candidate_for(vs2[i].coords(), vs2, #[trigger] s[p]),
        candidate_for(vs2[i].coords(), vs2, s[q]),
    ) by {
        assert(valid_prefix(s));
        assert(s[p].is_valid());
        assert(links_ok(s, i, l, levels, live));
        assert(key_lt(candidate_for(vs[i].coords(), vs, s[p]), candidate_for(vs[i].coords(), vs, s[q])));
    }
}

/// In a well-formed graph the entry point is a live vector on the highest
/// layer any live vector reaches, and there is none exactly when no vector is
/// live; the layers above the ground are as many as the highest top layer of
/// any vector. So when every vector is live, the entry point's top layer is
/// that of the graph.
pub proof fn lemma_entry_point(g: &Index)
    requires
        g.wf(),
    ensures
        g.entry_point().is_valid() ==> g.is_live(g.entry_point().0 as int) && forall|i: int|
            #[trigger] g.is_live(i) ==> g.layers()[i] <= g.layers()[g.entry_point().0 as int],
        !g.entry_point().is_valid() <==> forall|i: int| !#[trigger] g.is_live(i),
        forall|i: int| 0 <= i < g.n() ==> #[trigger] g.layers()[i] <= g.num_upper(),
        g.num_upper() > 0 ==> exists|i: int| 0 <= i < g.n() && #[trigger] g.layers()[i] == g.num_upper(),
        (forall|i: int| 0 <= i < g.n() ==> #[trigger] g.is_live(i)) && g.n() > 0 ==> g.entry_point().is_valid()
            && g.layers()[g.entry_point().0 as int] == g.num_upper(),
{
    if g.entry_point().is_valid() {
        assert(g.is_live(g.entry_point().0 as int));
    }
    if g.num_upper() > 0 {
        let i = choose|i: int| 0 <= i < g.vectors@.len() && #[trigger] g.levels@[i] == g.upper@.len();
        assert(g.layers()[i] == g.num_upper());
    }
    if (forall|i: int| 0 <= i < g.n() ==> #[trigger] g.is_live(i)) && g.n() > 0 {
        assert(g.is_live(0));
        if g.num_upper() > 0 {
            let i = choose|i: int| 0 <= i < g.n() && #[trigger] g.layers()[i] == g.num_upper();
            assert(g.is_live(i));
        }
    }
}

/// A node's slots with `id` removed (see `removed_at`), or unchanged when
/// the node does not list `id`.
pub open spec fn without_id(s: Seq<VectorID>, id: VectorID) -> Seq<VectorID> {
    if exists|p: int| 0 <= p < s.len() && s[p] == id {
        removed_at(s, choose|p: int| 0 <= p < s.len() && s[p] == id)
    } else {
        s
    }
}

/// Every slot is taken.
pub open spec fn full(s: Seq<VectorID>) -> bool {
    forall|p: int| 0 <= p < s.len() ==> (#[trigger] s[p]).is_valid()
}

/// On layer `l`, `v` lists `q` or has no room left.
pub open spec fn backlinked(g: &Index, l: int, v: VectorID, q: VectorID) -> bool {
    g.slots(l, v.0 as int).contains(q) || full(g.slots(l, v.0 as int))
}

/// On layer `l`, every neighbour of `q` lists `q` back or has no room left.
pub open spec fn linked_back(g: &Index, l: int, q: VectorID) -> bool {
    forall|p: int|
        0 <= p < g.slots(l, q.0 as int).len() && (#[trigger] g.slots(l, q.0 as int)[p]).is_valid() ==> backlinked(
            g,
            l,
            g.slots(l, q.0 as int)[p],
            q,
        )
}

/// A graph with the top layers and layer count of a well-formed one still
/// has a vector on its highest layer.
proof fn lemma_top_kept(g: &Index, h: &Index)
    requires
        g.wf(),
        h.levels@ == g.levels@,
        h.upper@.len() == g.upper@.len(),
        h.vectors@.len() == g.vectors@.len(),
    ensures
        h.upper@.len() > 0 ==> exists|i: int| 0 <= i < h.vectors@.len() && #[trigger] h.levels@[i] == h.upper@.len(),
{
    if h.upper@.len() > 0 {
        let i = choose|i: int| 0 <= i < g.vectors@.len() && #[trigger] g.levels@[i] == g.upper@.len();
        assert(h.levels@[i] == h.upper@.len());
    }
}

/// The candidate order of `a` and `b` as seen from the vector `query`.
pub open spec fn closer(query: Seq<i32>, vs: Seq<Vector>, a: VectorID, b: VectorID) -> bool {
    key_lt(candidate_for(query, vs, a), candidate_for(query, vs, b))
}

proof fn lemma_key_total(query: Seq<i32>, vs: Seq<Vector>, a: VectorID, b: VectorID)
    requires
        a != b,
    ensures
        closer(query, vs, a, b) || closer(query, vs, b, a),
        !(closer(query, vs, a, b) && closer(query, vs, b, a)),
{
    assert(a.0 != b.0);
}

/// Inserting `q` at the place its distance gives it keeps a node well formed.
proof fn lemma_insert_node_ok(
    s: Seq<VectorID>,
    pos: int,
    q: VectorID,
    i: int,
    l: int,
    vs: Seq<Vector>,
    levels: Seq<u8>,
    live: Seq<bool>,
)
    requires
        node_ok(s, i, l, vs, levels, live),
        0 <= pos <= s.len(),
        s.len() > 0,
        forall|p: int| 0 <= p < pos ==> (#[trigger] s[p]).is_valid() && closer(vs[i].coords(), vs, s[p], q),
        pos < s.len() && s[pos].is_valid() ==> !closer(vs[i].coords(), vs, s[pos], q),
        forall|p: int| 0 <= p < s.len() ==> #[trigger] s[p] != q,
        q.is_valid(),
        q.0 < levels.len(),
        q.0 != i,
        live[q.0 as int],
        levels[q.0 as int] >= l,
        0 <= i < levels.len(),
        live[i],
        levels[i] >= l,
    ensures
        node_ok(crate::node::inserted_at(s, pos, q), i, l, vs, levels, live),
{
    let t = crate::node::inserted_at(s, pos, q);
    let qv = vs[i].coords();
    if pos < s.len() {
        if s[pos].is_valid() {
            lemma_key_total(qv, vs, s[pos], q);
            assert(closer(qv, vs, q, s[pos]));
            assert forall|a: int| 0 <= a < t.len() implies #[trigger] t[a] == if a < pos {
                s[a]
            } else if a == pos {
                q
            } else {
                s[a - 1]
            } by {}
            assert forall|a: int, b: int| 0 <= a < b < t.len() && !(#[trigger] t[a]).is_valid() implies !(#[trigger] t[b]).is_valid() by {
                assert(a > pos);
                assert(!s[a - 1].is_valid());
            }
            assert forall|p: int, r: int| 0 <= p < r < t.len() && (#[trigger] t[r]).is_valid() implies
                key_lt(candidate_for(qv, vs, #[trigger] t[p]), candidate_for(qv, vs, t[r])) by {
                if r > pos {
                    if p < pos {
                        assert(closer(qv, vs, s[p], q));
                        assert(s[pos].is_valid());
                        if r - 1 > pos {
                            assert(closer(qv, vs, s[pos], s[r - 1]));
                        }
                    } else if p == pos {
                        if r - 1 > pos {
                            assert(closer(qv, vs, s[pos], s[r - 1]));
                        }
                    } else {
                        assert(closer(qv, vs, s[p - 1], s[r - 1]));
                    }
                } else if r == pos {
                    assert(closer(qv, vs, s[p], q));
                } else {
                    assert(valid_prefix(s));
                    assert(closer(qv, vs, s[p], s[r]));
                }
            }
            assert forall|p: int| 0 <= p < t.len() && (#[trigger] t[p]).is_valid() implies {
                &&& t[p].0 < levels.len()
                &&& t[p].0 != i
                &&& live[t[p].0 as int]
                &&& levels[t[p].0 as int] >= l
            } by {
                if p < pos {
                    assert(t[p] == s[p]);
                } else if p > pos {
                    assert(t[p] == s[p - 1]);
                }
            }
        } else {
            assert(t == s.update(pos, q));
            assert forall|a: int, b: int| 0 <= a < b < t.len() && !(#[trigger] t[a]).is_valid() implies !(#[trigger] t[b]).is_valid() by {
                if b == pos {
                    assert(s[a].is_valid());
                } else if a != pos {
                    assert(!s[a].is_valid());
                }
                if a == pos {
                    assert(false);
                }
                if b > pos {
                    assert(!s[b].is_valid()) by {
                        assert(!s[pos].is_valid());
                    }
                }
            }
            assert forall|p: int, r: int| 0 <= p < r < t.len() && (#[trigger] t[r]).is_valid() implies
                key_lt(candidate_for(qv, vs, #[trigger] t[p]), candidate_for(qv, vs, t[r])) by {
                if r == pos {
                    assert(closer(qv, vs, s[p], q));
                } else if r > pos {
                    assert(!s[r].is_valid()) by {
                        assert(!s[pos].is_valid());
                    }
                } else {
                    assert(closer(qv, vs, s[p], s[r]));
                }
            }
            assert forall|p: int| 0 <= p < t.len() && (#[trigger] t[p]).is_valid() implies {
                &&& t[p].0 < levels.len()
                &&& t[p].0 != i
                &&& live[t[p].0 as int]
                &&& levels[t[p].0 as int] >= l
            } by {
                if p != pos {
                    assert(t[p] == s[p]);
                }
            }
        }
    }
}

/// In a well-formed graph, every node on every layer has a valid prefix:
/// once a slot is empty, all later slots are empty.
pub proof fn lemma_valid_prefix(g: &Index, l: int, i: int)
    requires
        g.wf(),
        0 <= l <= g.num_upper(),
        0 <= i < g.n(),
    ensures
        valid_prefix(g.slots(l, i)),
{
    assert(node_ok(g.slots(l, i), i, l, g.vecs(), g.layers(), g.lives()));
}

/// In a well-formed graph, no node lists itself and no identifier appears
/// twice in one node.
pub proof fn lemma_no_self_loops_or_duplicates(g: &Index, l: int, i: int)
    requires
        g.wf(),
        0 <= l <= g.num_upper(),
        0 <= i < g.n(),
    ensures
        forall|p: int| 0 <= p < g.slots(l, i).len() ==> #[trigger] g.slots(l, i)[p].0 != i,
        forall|p: int, q: int|
            0 <= p < q < g.slots(l, i).len() && (#[trigger] g.slots(l, i)[q]).is_valid() ==> #[trigger] g.slots(l, i)[p] != g.slots(l, i)[q],
{
    let s = g.slots(l, i);
    assert(node_ok(s, i, l, g.vecs(), g.layers(), g.lives()));
    assert forall|p: int| 0 <= p < s.len() implies #[trigger] s[p].0 != i by {
        if s[p].is_valid() {
            assert(links_ok(s, i, l, g.layers(), g.lives()));
        } else {
            assert(i < SENTINEL);
        }
    }
    assert forall|p: int, q: int| 0 <= p < q < s.len() && (#[trigger] s[q]).is_valid() implies #[trigger] s[p] != s[q] by {
        assert(key_lt(candidate_for(g.vecs()[i].coords(), g.vecs(), s[p]), candidate_for(g.vecs()[i].coords(), g.vecs(), s[q])));
    }
}

/// In a well-formed graph, each node's neighbours are in non-decreasing
/// distance from the node's own vector.
pub proof fn lemma_sorted_neighbors(g: &Index, l: int, i: int)
    requires
        g.wf(),
        0 <= l <= g.num_upper(),
        0 <= i < g.n(),
    ensures
        forall|p: int, q: int|
            0 <= p < q < g.slots(l, i).len() && (#[trigger] g.slots(l, i)[q]).is_valid() ==>
                crate::vector::sq_dist(g.vecs()[i].coords(), g.vecs()[#[trigger] g.slots(l, i)[p].0 as int].coords())
                <= crate::vector::sq_dist(g.vecs()[i].coords(), g.vecs()[g.slots(l, i)[q].0 as int].coords()),
{
    let s = g.slots(l, i);
    assert(node_ok(s, i, l, g.vecs(), g.layers(), g.lives()));
    assert forall|p: int, q: int| 0 <= p < q < s.len() && (#[trigger] s[q]).is_valid() implies
        crate::vector::sq_dist(g.vecs()[i].coords(), g.vecs()[#[trigger] s[p].0 as int].coords())
        <= crate::vector::sq_dist(g.vecs()[i].coords(), g.vecs()[s[q].0 as int].coords()) by {
        assert(key_lt(candidate_for(g.vecs()[i].coords(), g.vecs(), s[p]), candidate_for(g.vecs()[i].coords(), g.vecs(), s[q])));
        assert(valid_prefix(s));
        assert(s[p].is_valid());
        assert(links_ok(s, i, l, g.layers(), g.lives()));
        crate::vector::lemma_sq_dist_nonneg(g.vecs()[i].coords(), g.vecs()[s[p].0 as int].coords());
        crate::vector::lemma_sq_dist_bound(g.vecs()[i].coords(), g.vecs()[s[p].0 as int].coords());
        crate::vector::lemma_sq_dist_nonneg(g.vecs()[i].coords(), g.vecs()[s[q].0 as int].coords());
        crate::vector::lemma_sq_dist_bound(g.vecs()[i].coords(), g.vecs()[s[q].0 as int].coords());
    }
}

/// In a well-formed graph, a vector listed on layer `l` is live and present
/// on layer `l`, so it has a node there.
pub proof fn lemma_mutual_presence(g: &Index, l: int, i: int, p: int)
    requires
        g.wf(),
        0 <= l <= g.num_upper(),
        0 <= i < g.n(),
        0 <= p < g.slots(l, i).len(),
        g.slots(l, i)[p].is_valid(),
    ensures
        g.is_live(g.slots(l, i)[p].0 as int),
        g.layers()[g.slots(l, i)[p].0 as int] >= l,
        g.slots(l, g.slots(l, i)[p].0 as int).len() == slot_cap(l),
{
    let s = g.slots(l, i);
    assert(node_ok(s, i, l, g.vecs(), g.layers(), g.lives()));
    assert(links_ok(s, i, l, g.layers(), g.lives()));
    let j = s[p].0 as int;
    assert(node_ok(g.slots(l, j), j, l, g.vecs(), g.layers(), g.lives()));
}

/// The first word of a serialized index.
pub const MAGIC: u32 = 0x4244_4853;

/// The format version of a serialized index.
pub const FORMAT_VERSION: u32 = 1;

/// The number of header words.
pub const HEADER_WORDS: usize = 12;

/// The low and high halves of a 64-bit quantity.
pub open spec fn lo_word(x: nat) -> u32 {
    (x % 0x1_0000_0000) as u32
}

pub open spec fn hi_word(x: nat) -> u32 {
    ((x / 0x1_0000_0000) % 0x1_0000_0000) as u32
}

/// The identifiers of a node, as words.
pub open spec fn node_words(s: Seq<VectorID>) -> Seq<u32> {
    s.map_values(|x: VectorID| x.0)
}

/// The words of a sequence of nodes, one after another.
pub open spec fn nodes_flat(ss: Seq<Seq<VectorID>>) -> Seq<u32>
    decreases ss.len(),
{
    if ss.len() == 0 {
        Seq::empty()
    } else {
        nodes_flat(ss.drop_last()) + node_words(ss.last())
    }
}

/// The nodes of layer `l`, by vector identifier.
pub open spec fn layer_slots(g: &Index, l: int) -> Seq<Seq<VectorID>> {
    Seq::new(g.n(), |i: int| g.slots(l, i))
}

/// The words of the layers below `l`, ground layer first.
pub open spec fn layers_flat(g: &Index, l: nat) -> Seq<u32>
    decreases l,
{
    if l == 0 {
        Seq::empty()
    } else {
        layers_flat(g, (l - 1) as nat) + nodes_flat(layer_slots(g, l - 1))
    }
}

/// Where layer `l` starts within the layer words of a graph of `n` vectors.
pub open spec fn layer_offset(n: nat, l: nat) -> nat
    decreases l,
{
    if l == 0 {
        0
    } else {
        layer_offset(n, (l - 1) as nat) + n * slot_cap(l - 1)
    }
}

/// The header words of a graph.
pub open spec fn header_words(g: &Index) -> Seq<u32> {
    seq![
        MAGIC,
        FORMAT_VERSION,
        lo_word(g.spec_dimension()),
        hi_word(g.spec_dimension()),
        M as u32,
        g.n() as u32,
        (g.num_upper() + 1) as u32,
        g.entry_point().0,
        lo_word(g.spec_ef_search()),
        hi_word(g.spec_ef_search()),
        lo_word(g.spec_ef_construction()),
        hi_word(g.spec_ef_construction()),
    ]
}

/// The words of a serialized graph: the header, the top layer of each
/// vector, the liveness of each vector (1 or 0), then every node of every
/// layer, ground layer first, each as its fixed number of identifiers.
pub open spec fn graph_words(g: &Index) -> Seq<u32> {
    header_words(g) + Seq::new(g.n(), |i: int| g.layers()[i] as u32) + Seq::new(
        g.n(),
        |i: int|
            if g.lives()[i] {
                1u32
            } else {
                0u32
            },
    ) + layers_flat(g, g.num_upper() + 1)
}

/// The serialized form of a graph: its words in little-endian bytes.
pub open spec fn encode(g: &Index) -> Seq<u8> {
    le_words(graph_words(g))
}

/// Two graphs over vectors of the same coordinates that agree in every
/// part of their state.
pub open spec fn same_graph(g: &Index, h: &Index) -> bool {
    &&& g.spec_dimension() == h.spec_dimension()
    &&& g.spec_ef_search() == h.spec_ef_search()
    &&& g.spec_ef_construction() == h.spec_ef_construction()
    &&& g.n() == h.n()
    &&& forall|i: int| 0 <= i < g.n() ==> (#[trigger] g.vecs()[i]).coords() == h.vecs()[i].coords()
    &&& g.layers() == h.layers()
    &&& g.lives() == h.lives()
    &&& g.num_upper() == h.num_upper()
    &&& g.entry_point() == h.entry_point()
    &&& forall|l: int, i: int| 0 <= l <= g.num_upper() && 0 <= i < g.n() ==> #[trigger] g.slots(l, i) == h.slots(l, i)
}

proof fn lemma_nodes_flat(ss: Seq<Seq<VectorID>>, cap: nat)
    requires
        cap == 64 || cap == 32,
        forall|i: int| 0 <= i < ss.len() ==> (#[trigger] ss[i]).len() == cap,
    ensures
        nodes_flat(ss).len() == ss.len() * cap,
        forall|i: int, p: int| 0 <= i < ss.len() && 0 <= p < cap ==> #[trigger] nodes_flat(ss)[i * cap + p] == (#[trigger] ss[i])[p].0,
    decreases ss.len(),
{
    if ss.len() > 0 {
        let init = ss.drop_last();
        lemma_nodes_flat(init, cap);
        let f = nodes_flat(ss);
        assert(f == nodes_flat(init) + node_words(ss.last()));
        assert(init.len() * cap + cap == ss.len() * cap) by (nonlinear_arith)
            requires
                init.len() + 1 == ss.len(),
        ;
        assert forall|i: int, p: int| 0 <= i < ss.len() && 0 <= p < cap implies #[trigger] f[i * cap + p] == (#[trigger] ss[i])[p].0 by {
            if i < ss.len() - 1 {
                assert(i * cap + p < init.len() * cap) by (nonlinear_arith)
                    requires
                        i < init.len(),
                        p < cap,
                ;
                assert(init[i] == ss[i]);
            } else {
                assert(i * cap == init.len() * cap);
            }
        }
    }
}

proof fn lemma_layer_offset_grows(n: nat, a: nat, b: nat)
    requires
        a <= b,
    ensures
        layer_offset(n, a) <= layer_offset(n, b),
    decreases b,
{
    if a < b {
        lemma_layer_offset_grows(n, a, (b - 1) as nat);
    }
}

proof fn lemma_layers_flat(g: &Index, top: nat)
    requires
        g.wf(),
        top <= g.num_upper() + 1,
    ensures
        layers_flat(g, top).len() == layer_offset(g.n(), top),
        forall|l: int, i: int, p: int|
            0 <= l < top && 0 <= i < g.n() && 0 <= p < slot_cap(l) ==> #[trigger] layers_flat(g, top)[layer_offset(g.n(), l as nat) + i * slot_cap(l) + p]
                == (#[trigger] g.slots(l, i))[p].0,
    decreases top,
{
    if top > 0 {
        let t = (top - 1) as nat;
        lemma_layers_flat(g, t);
        let ss = layer_slots(g, t as int);
        assert forall|i: int| 0 <= i < ss.len() implies (#[trigger] ss[i]).len() == slot_cap(t as int) by {
            assert(node_ok(g.slots(t as int, i), i, t as int, g.vecs(), g.layers(), g.lives()));
        }
        lemma_nodes_flat(ss, slot_cap(t as int));
        let f = layers_flat(g, top);
        assert(f == layers_flat(g, t) + nodes_flat(ss));
        assert forall|l: int, i: int, p: int|
            0 <= l < top && 0 <= i < g.n() && 0 <= p < slot_cap(l) implies #[trigger] f[layer_offset(g.n(), l as nat) + i * slot_cap(l) + p]
                == (#[trigger] g.slots(l, i))[p].0 by {
            let c = slot_cap(l);
            assert(i * c + p < g.n() * c) by (nonlinear_arith)
                requires
                    i < g.n(),
                    p < c,
            ;
            let k = layer_offset(g.n(), l as nat) + i * c + p;
            if l < t {
                lemma_layer_offset_grows(g.n(), (l + 1) as nat, t);
                assert(layer_offset(g.n(), (l + 1) as nat) == layer_offset(g.n(), l as nat) + g.n() * c);
                assert(k < layers_flat(g, t).len());
                assert(f[k] == layers_flat(g, t)[k]);
            } else {
                assert(ss[i] == g.slots(l, i));
                assert(k - layers_flat(g, t).len() == i * c + p);
                assert(f[k] == nodes_flat(ss)[i * c + p]);
            }
        }
    }
}

/// Serializing is injective: two well-formed graphs over vectors of the same
/// coordinates whose serialized forms agree are the same graph.
proof fn lemma_encode_injective(g: &Index, h: &Index)
    requires
        g.wf(),
        h.wf(),
        encode(g) == encode(h),
        g.n() == h.n(),
        forall|i: int| 0 <= i < g.n() ==> (#[trigger] g.vecs()[i]).coords() == h.vecs()[i].coords(),
    ensures
        same_graph(g, h),
{
    lemma_le_words_injective(graph_words(g), graph_words(h));
    let wg = graph_words(g);
    let wh = graph_words(h);
    assert(wg[2] == wh[2] && wg[3] == wh[3]);
    lemma_halves(g.spec_dimension(), h.spec_dimension());
    assert(wg[8] == wh[8] && wg[9] == wh[9]);
    lemma_halves(g.spec_ef_search(), h.spec_ef_search());
    assert(wg[10] == wh[10] && wg[11] == wh[11]);
    lemma_halves(g.spec_ef_construction(), h.spec_ef_construction());
    g.lemma_shape();
    h.lemma_shape();
    g.lemma_layers_bounded();
    h.lemma_layers_bounded();
    assert(wg[6] == wh[6]);
    assert(g.num_upper() == h.num_upper());
    assert(wg[7] == wh[7]);
    let n = g.n();
    assert forall|i: int| 0 <= i < n implies g.layers()[i] == h.layers()[i] by {
        assert(wg[12 + i] == wh[12 + i]);
    }
    assert(g.layers() =~= h.layers());
    assert forall|i: int| 0 <= i < n implies g.lives()[i] == h.lives()[i] by {
        assert(wg[12 + n + i] == wh[12 + n + i]);
    }
    assert(g.lives() =~= h.lives());
    let top = g.num_upper() + 1;
    lemma_layers_flat(g, top);
    lemma_layers_flat(h, top);
    let base = (12 + 2 * n) as int;
    assert(layers_flat(g, top) == wg.subrange(base, wg.len() as int));
    assert(layers_flat(h, top) == wh.subrange(base, wh.len() as int));
    assert forall|l: int, i: int| 0 <= l <= g.num_upper() && 0 <= i < g.n() implies #[trigger] g.slots(l, i) == h.slots(l, i) by {
        assert(node_ok(g.slots(l, i), i, l, g.vecs(), g.layers(), g.lives()));
        assert(node_ok(h.slots(l, i), i, l, h.vecs(), h.layers(), h.lives()));
        assert forall|p: int| 0 <= p < slot_cap(l) implies g.slots(l, i)[p] == h.slots(l, i)[p] by {
            let k = layer_offset(n, l as nat) + i * slot_cap(l) + p;
            assert(layers_flat(g, top)[k] == g.slots(l, i)[p].0);
            assert(layers_flat(h, top)[k] == h.slots(l, i)[p].0);
        }
        assert(g.slots(l, i) =~= h.slots(l, i));
    }
}

/// Loading what was saved gives the graph back. For a well-formed graph `g`
/// and vectors of its coordinates, the bytes `save` returns (`encode(g)`)
/// encode `g`, so `load` succeeds on them; and every graph `load` can return
/// for them (a well-formed `h` over those vectors with `encode(h)` equal to
/// the bytes) is the same graph as `g`.
pub proof fn lemma_round_trip(g: &Index, vectors: Seq<Vector>)
    requires
        g.wf(),
        vectors.len() == g.n(),
        forall|i: int| 0 <= i < g.n() ==> (#[trigger] g.vecs()[i]).coords() == vectors[i].coords(),
    ensures
        encodes_graph(encode(g), vectors, *g),
        forall|h: Index| h.wf() && #[trigger] encode(&h) == encode(g) && h.vecs() == vectors ==> same_graph(g, &h),
{
    assert forall|h: Index| h.wf() && #[trigger] encode(&h) == encode(g) && h.vecs() == vectors implies same_graph(g, &h) by {
        assert forall|i: int| 0 <= i < g.n() implies (#[trigger] g.vecs()[i]).coords() == h.vecs()[i].coords() by {}
        lemma_encode_injective(g, &h);
    }
}

proof fn lemma_halves(a: nat, b: nat)
    requires
        a < 0x1_0000_0000_0000_0000,
        b < 0x1_0000_0000_0000_0000,
        lo_word(a) == lo_word(b),
        hi_word(a) == hi_word(b),
    ensures
        a == b,
{
    assert(a == (a / 0x1_0000_0000) * 0x1_0000_0000 + a % 0x1_0000_0000) by (nonlinear_arith);
    assert(b == (b / 0x1_0000_0000) * 0x1_0000_0000 + b % 0x1_0000_0000) by (nonlinear_arith);
    assert(a / 0x1_0000_0000 < 0x1_0000_0000) by (nonlinear_arith)
        requires
            a < 0x1_0000_0000_0000_0000,
    ;
    assert(b / 0x1_0000_0000 < 0x1_0000_0000) by (nonlinear_arith)
        requires
            b < 0x1_0000_0000_0000_0000,
    ;
}

} // verus!
