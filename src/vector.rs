use vstd::prelude::*;

use crate::entropy::random_word;

verus! {

/// The identifier of a vector record. Identifiers are dense and index the
/// node arrays of every layer directly.
#[derive(Clone, Copy, Debug, PartialEq, Eq, Structural, Hash)]
pub struct VectorID(pub u32);

/// The raw value of the identifier that marks an empty neighbour slot.
pub const SENTINEL: u32 = 0xffff_ffff;

/// The fixed-point value of the coordinate 1.0.
pub const UNIT: i32 = 65536;

impl VectorID {
    /// The empty-slot sentinel.
    pub fn invalid() -> (r: VectorID)
        ensures
            r.0 == SENTINEL,
    {
        VectorID(SENTINEL)
    }

    pub open spec fn spec_is_valid(&self) -> bool {
        self.0 != SENTINEL
    }

    /// True if this identifier is not the empty-slot sentinel.
    #[verifier::when_used_as_spec(spec_is_valid)]
    pub fn is_valid(&self) -> (r: bool)
        ensures
            r == self.spec_is_valid(),
    {
        self.0 != SENTINEL
    }
}

/// Squared Euclidean distance between the first `n` coordinates of `a` and `b`.
pub open spec fn sq_dist_prefix(a: Seq<i32>, b: Seq<i32>, n: nat) -> int
    decreases n,
{
    if n == 0 {
        0
    } else {
        let d = a[n - 1] - b[n - 1];
        sq_dist_prefix(a, b, (n - 1) as nat) + d * d
    }
}

/// Squared Euclidean distance between two coordinate sequences of one length.
pub open spec fn sq_dist(a: Seq<i32>, b: Seq<i32>) -> int {
    sq_dist_prefix(a, b, a.len())
}

/// The largest square of a coordinate difference.
pub open spec fn max_term() -> int {
    0xffff_fffe_0000_0001int
}

proof fn lemma_term_bound(x: i32, y: i32)
    ensures
        0 <= (x - y) * (x - y) <= max_term(),
{
    let d: int = x - y;
    assert(-0xffff_ffff <= d <= 0xffff_ffff);
    assert(0 <= d * d <= 0xffff_fffe_0000_0001int) by (nonlinear_arith)
        requires
            -0xffff_ffff <= d <= 0xffff_ffff,
    ;
}

proof fn lemma_prefix_bound(a: Seq<i32>, b: Seq<i32>, n: nat)
    requires
        n <= a.len(),
        n <= b.len(),
    ensures
        0 <= sq_dist_prefix(a, b, n) <= n * max_term(),
    decreases n,
{
    if n > 0 {
        lemma_prefix_bound(a, b, (n - 1) as nat);
        lemma_term_bound(a[n - 1], b[n - 1]);
        assert((n - 1) * max_term() + max_term() == n * max_term()) by (nonlinear_arith);
    }
}

/// A squared distance is never negative.
pub proof fn lemma_sq_dist_nonneg(a: Seq<i32>, b: Seq<i32>)
    requires
        a.len() == b.len(),
    ensures
        sq_dist(a, b) >= 0,
{
    lemma_prefix_bound(a, b, a.len());
}

/// A squared distance between vectors of one dimension fits in a `u128`.
pub proof fn lemma_sq_dist_bound(a: Seq<i32>, b: Seq<i32>)
    requires
        a.len() == b.len(),
        a.len() <= usize::MAX,
    ensures
        sq_dist(a, b) <= u128::MAX,
{
    lemma_prefix_bound(a, b, a.len());
    assert(a.len() * max_term() <= 0xffff_ffff_ffff_ffff * max_term()) by (nonlinear_arith)
        requires
            a.len() <= 0xffff_ffff_ffff_ffff,
            max_term() >= 0,
    ;
}

/// An embedding: a fixed-length sequence of fixed-point coordinates.
#[derive(Debug)]
pub struct Vector(pub Vec<i32>);

impl Clone for Vector {
    fn clone(&self) -> (r: Self)
        ensures
            r.coords() == self.coords(),
    {
        let mut coords: Vec<i32> = Vec::with_capacity(self.0.len());
        let mut i: usize = 0;
        while i < self.0.len()
            invariant
                i <= self.coords().len(),
                coords@ == self.coords().take(i as int),
            decreases self.coords().len() - i,
        {
            coords.push(self.0[i]);
            assert(coords@ =~= self.coords().take(i + 1));
            i = i + 1;
        }
        assert(coords@ =~= self.coords());
        Vector(coords)
    }
}

impl Vector {
    pub open spec fn coords(&self) -> Seq<i32> {
        self.0@
    }

    /// The dimension of the vector.
    pub fn len(&self) -> (r: usize)
        ensures
            r == self.coords().len(),
    {
        self.0.len()
    }

    /// True if the vector has no coordinates.
    pub fn is_empty(&self) -> (r: bool)
        ensures
            r == (self.coords().len() == 0),
    {
        self.0.len() == 0
    }

    /// The squared Euclidean distance to `other`, which has the same dimension.
    /// It orders pairs exactly as the Euclidean distance does.
    pub fn distance(&self, other: &Self) -> (r: u128)
        requires
            self.coords().len() == other.coords().len(),
        ensures
            r == sq_dist(self.coords(), other.coords()),
    {
        let n = self.0.len();
        let mut sum: u128 = 0;
        let mut i: usize = 0;
        while i < n
            invariant
                n == self.coords().len(),
                n == other.coords().len(),
                i <= n,
                sum == sq_dist_prefix(self.coords(), other.coords(), i as nat),
            decreases n - i,
        {
            let a = self.0[i] as i64;
            let b = other.0[i] as i64;
            let d: u64 = if a >= b {
                (a - b) as u64
            } else {
                (b - a) as u64
            };
            proof {
                lemma_prefix_bound(self.coords(), other.coords(), (i + 1) as nat);
                lemma_term_bound(self.coords()[i as int], other.coords()[i as int]);
                assert(d * d == (a - b) * (a - b)) by (nonlinear_arith)
                    requires
                        d == a - b || d == b - a,
                ;
                assert((i + 1) * max_term() <= 0xffff_ffff_ffff_ffff * max_term())
                    by (nonlinear_arith)
                    requires
                        i + 1 <= 0xffff_ffff_ffff_ffff,
                        max_term() >= 0,
                ;
            }
            let sq: u128 = (d as u128) * (d as u128);
            sum = sum + sq;
            i = i + 1;
        }
        sum
    }

    /// A vector of `dimension` coordinates drawn uniformly from `[0, UNIT)`,
    /// that is from `[0.0, 1.0)` at the fixed-point scale.
    pub fn random(dimension: usize) -> (r: Vector)
        ensures
            r.coords().len() == dimension,
            forall|i: int| 0 <= i < dimension ==> 0 <= #[trigger] r.coords()[i] < UNIT,
    {
        let mut coords: Vec<i32> = Vec::with_capacity(dimension);
        let mut i: usize = 0;
        while i < dimension
            invariant
                i <= dimension,
                coords@.len() == i,
                forall|j: int| 0 <= j < i ==> 0 <= #[trigger] coords@[j] < UNIT,
            decreases dimension - i,
        {
            let word = random_word();
            coords.push((word % 65536) as i32);
            i = i + 1;
        }
        Vector(coords)
    }
}

} // verus!
