//! Boundaries along a ray and the containment model of a boundary stream.
//!
//! A `BoundaryStream` is an ascending `Vec<Boundary>`: containment starts
//! outside before the first boundary and alternates at each one. The spec
//! function `inside_at` makes that reading precise, and every combinator's
//! contract is stated through it.

use vstd::prelude::*;

verus! {

/// A ray parameter at which a solid's containment flips between outside and
/// inside: either one of the two infinities, or a finite scalar represented
/// by an order key.
///
/// The combinators only ever compare boundaries, so a finite value carries
/// any strictly monotone encoding of the caller's scalar type into `u64`.
/// Not-a-number scalars have no encoding, so they can never enter a stream.
#[derive(Clone, Copy, Debug, PartialEq, Eq, Structural)]
pub enum Boundary {
    NegInf,
    Finite(u64),
    PosInf,
}

impl Boundary {
    /// Total order on boundaries: negative infinity below every finite key,
    /// positive infinity above, finite keys by their numeric order.
    pub open spec fn spec_le(self, other: Boundary) -> bool {
        match (self, other) {
            (Boundary::NegInf, _) => true,
            (_, Boundary::PosInf) => true,
            (Boundary::Finite(x), Boundary::Finite(y)) => x <= y,
            _ => false,
        }
    }

    pub open spec fn spec_lt(self, other: Boundary) -> bool {
        !other.spec_le(self)
    }

    pub fn le(self, other: Boundary) -> (r: bool)
        ensures
            r == self.spec_le(other),
    {
        match (self, other) {
            (Boundary::NegInf, _) => true,
            (_, Boundary::PosInf) => true,
            (Boundary::Finite(x), Boundary::Finite(y)) => x <= y,
            _ => false,
        }
    }

    pub fn lt(self, other: Boundary) -> (r: bool)
        ensures
            r == self.spec_lt(other),
    {
        !other.le(self)
    }

    /// The smaller of two boundaries.
    pub fn min(self, other: Boundary) -> (r: Boundary)
        ensures
            r == spec_min(self, other),
    {
        if self.le(other) {
            self
        } else {
            other
        }
    }

    /// The larger of two boundaries.
    pub fn max(self, other: Boundary) -> (r: Boundary)
        ensures
            r == spec_max(self, other),
    {
        if self.le(other) {
            other
        } else {
            self
        }
    }
}

pub open spec fn spec_min(a: Boundary, b: Boundary) -> Boundary {
    if a.spec_le(b) {
        a
    } else {
        b
    }
}

pub open spec fn spec_max(a: Boundary, b: Boundary) -> Boundary {
    if a.spec_le(b) {
        b
    } else {
        a
    }
}

/// An ascending stream: no later boundary lies below an earlier one. Exact
/// ties are allowed; they encode zero-width intervals.
pub open spec fn ascending(s: Seq<Boundary>) -> bool {
    forall|i: int, j: int| 0 <= i <= j < s.len() ==> #[trigger] s[i].spec_le(s[j])
}

/// How many boundaries of `s` lie at or below `q`.
pub open spec fn count_le(s: Seq<Boundary>, q: Boundary) -> nat
    decreases s.len(),
{
    if s.len() == 0 {
        0
    } else {
        count_le(s.drop_last(), q) + if s.last().spec_le(q) {
            1nat
        } else {
            0nat
        }
    }
}

/// Containment at parameter `q`: the stream starts outside and flips at each
/// boundary, so `q` is inside exactly when an odd number of boundaries lie
/// at or below it.
pub open spec fn inside_at(s: Seq<Boundary>, q: Boundary) -> bool {
    count_le(s, q) % 2 == 1
}

/// Appending one boundary adds one to the count exactly when it lies at or
/// below the query.
pub proof fn lemma_count_le_push(s: Seq<Boundary>, x: Boundary, q: Boundary)
    ensures
        count_le(s.push(x), q) == count_le(s, q) + if x.spec_le(q) {
            1nat
        } else {
            0nat
        },
{
    assert(s.push(x).drop_last() =~= s);
    assert(s.push(x).last() == x);
}

/// When the first `m` boundaries lie at or below `q` and the rest lie above,
/// the count is exactly `m`.
pub proof fn lemma_count_le_split(s: Seq<Boundary>, q: Boundary, m: int)
    requires
        0 <= m <= s.len(),
        forall|k: int| 0 <= k < m ==> #[trigger] s[k].spec_le(q),
        forall|k: int| m <= k < s.len() ==> !(#[trigger] s[k].spec_le(q)),
    ensures
        count_le(s, q) == m,
    decreases s.len(),
{
    if s.len() == 0 {
    } else if m == s.len() {
        assert(s.last().spec_le(q));
        lemma_count_le_split(s.drop_last(), q, m - 1);
    } else {
        assert(!s[s.len() - 1].spec_le(q));
        lemma_count_le_split(s.drop_last(), q, m);
    }
}

/// When every boundary lies at or below `q`, the count is the whole length.
pub proof fn lemma_count_le_all(s: Seq<Boundary>, q: Boundary)
    requires
        forall|k: int| 0 <= k < s.len() ==> #[trigger] s[k].spec_le(q),
    ensures
        count_le(s, q) == s.len(),
{
    lemma_count_le_split(s, q, s.len() as int);
}

/// Containment for a single closed pair: inside exactly between the two
/// boundaries, the lower one included, the upper one excluded from the count
/// parity's point of view.
pub proof fn lemma_pair_inside(a: Boundary, b: Boundary, q: Boundary)
    requires
        a.spec_le(b),
    ensures
        inside_at(seq![a, b], q) == (a.spec_le(q) && !b.spec_le(q)),
{
    let s = seq![a, b];
    assert(count_le(Seq::<Boundary>::empty(), q) == 0);
    assert(count_le(seq![a], q) == if a.spec_le(q) {
        1nat
    } else {
        0nat
    }) by {
        assert(seq![a].drop_last() =~= Seq::<Boundary>::empty());
        assert(seq![a].last() == a);
    }
    assert(s.drop_last() =~= seq![a]);
    assert(s.last() == b);
}

/// In an ascending stream, a parameter at or past boundary `2i` and strictly
/// before boundary `2i + 1` is inside.
pub proof fn lemma_inside_interval(s: Seq<Boundary>, i: int, q: Boundary)
    requires
        ascending(s),
        0 <= 2 * i + 1 < s.len(),
        s[2 * i].spec_le(q),
        q.spec_lt(s[2 * i + 1]),
    ensures
        inside_at(s, q),
{
    assert forall|k: int| 0 <= k < 2 * i + 1 implies #[trigger] s[k].spec_le(q) by {
        assert(s[k].spec_le(s[2 * i]));
    }
    assert forall|k: int| 2 * i + 1 <= k < s.len() implies !(#[trigger] s[k].spec_le(q)) by {
        assert(s[2 * i + 1].spec_le(s[k]));
    }
    lemma_count_le_split(s, q, 2 * i + 1);
}

/// Runtime check that a stream is ascending.
pub fn is_ascending(s: &Vec<Boundary>) -> (r: bool)
    ensures
        r == ascending(s@),
{
    let mut k: usize = 1;
    if s.len() == 0 {
        return true;
    }
    while k < s.len()
        invariant
            1 <= k <= s@.len(),
            forall|i: int, j: int| 0 <= i <= j < k ==> #[trigger] s@[i].spec_le(s@[j]),
        decreases s@.len() - k,
    {
        if !s[k - 1].le(s[k]) {
            assert(!ascending(s@)) by {
                assert(!s@[k - 1].spec_le(s@[k as int]));
            }
            return false;
        }
        assert forall|i: int, j: int| 0 <= i <= j < k + 1 implies #[trigger] s@[i].spec_le(
            s@[j],
        ) by {
            if j == k && i < k {
                assert(s@[i].spec_le(s@[k - 1]));
                assert(s@[k - 1].spec_le(s@[k as int]));
            }
        }
        k = k + 1;
    }
    true
}

/// Containment test: is the point at parameter `q` inside the solid whose
/// stream is `s`?
pub fn contains_point(s: &Vec<Boundary>, q: Boundary) -> (r: bool)
    ensures
        r == inside_at(s@, q),
{
    let mut k: usize = 0;
    let mut odd: bool = false;
    while k < s.len()
        invariant
            k <= s@.len(),
            odd == (count_le(s@.take(k as int), q) % 2 == 1),
        decreases s@.len() - k,
    {
        proof {
            assert(s@.take(k as int + 1) =~= s@.take(k as int).push(s@[k as int]));
            lemma_count_le_push(s@.take(k as int), s@[k as int], q);
        }
        if s[k].le(q) {
            odd = !odd;
        }
        k = k + 1;
    }
    proof {
        assert(s@.take(s@.len() as int) =~= s@);
    }
    odd
}

} // verus!
