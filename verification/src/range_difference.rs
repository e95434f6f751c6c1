//! Difference of two boundary streams: inside the first operand and outside
//! the second.

use vstd::prelude::*;

use crate::boundary::ascending;
use crate::boundary::inside_at;
use crate::boundary::lemma_inside_interval;
use crate::boundary::Boundary;
use crate::merge::merge_boundaries;
use crate::merge::merge_spec;
use crate::merge::SetOp;

verus! {

/// The result stream describes the difference of the operands' inside
/// regions: inside the result exactly when inside the first operand and not
/// inside the second.
pub open spec fn difference_semantics(out: Seq<Boundary>, obj1: Seq<Boundary>, obj2: Seq<
    Boundary,
>) -> bool {
    forall|q: Boundary|
        #[trigger] inside_at(out, q) == (inside_at(obj1, q) && !inside_at(obj2, q))
}

/// Difference of two solids' boundary streams along one ray: the first
/// operand's region with the second's cut away.
pub struct RangeDifference {
    pub obj1: Vec<Boundary>,
    pub obj2: Vec<Boundary>,
}

impl RangeDifference {
    pub open spec fn wf(&self) -> bool {
        ascending(self.obj1@) && ascending(self.obj2@)
    }

    pub fn new(obj1: Vec<Boundary>, obj2: Vec<Boundary>) -> (r: Self)
        requires
            ascending(obj1@),
            ascending(obj2@),
        ensures
            r.wf(),
            r.obj1 == obj1,
            r.obj2 == obj2,
    {
        RangeDifference { obj1, obj2 }
    }

    /// The merged stream: exactly the canonical merge sequence of the two
    /// operands under the "inside the first, not the second" predicate — so
    /// it is ascending, no longer than the operands together, inside exactly
    /// where the first operand is inside and the second is not, and made
    /// only of operand boundaries.
    pub fn boundaries(&self) -> (out: Vec<Boundary>)
        requires
            self.wf(),
        ensures
            out@ == merge_spec(SetOp::Difference, self.obj1@, self.obj2@, false, false),
            out@.len() <= self.obj1@.len() + self.obj2@.len(),
            ascending(out@),
            difference_semantics(out@, self.obj1@, self.obj2@),
            forall|m: int|
                0 <= m < out@.len() ==> self.obj1@.contains(#[trigger] out@[m])
                    || self.obj2@.contains(out@[m]),
    {
        merge_boundaries(SetOp::Difference, &self.obj1, &self.obj2)
    }
}

/// Law: every parameter strictly inside an emitted interval of a difference
/// stream lies inside the first operand and outside the second. The emitted
/// intervals of an ascending stream are the pairs of consecutive boundaries
/// at even positions.
pub proof fn lemma_difference_interior(
    out: Seq<Boundary>,
    obj1: Seq<Boundary>,
    obj2: Seq<Boundary>,
    i: int,
    q: Boundary,
)
    requires
        ascending(out),
        difference_semantics(out, obj1, obj2),
        0 <= 2 * i + 1 < out.len(),
        out[2 * i].spec_lt(q),
        q.spec_lt(out[2 * i + 1]),
    ensures
        inside_at(obj1, q),
        !inside_at(obj2, q),
{
    lemma_inside_interval(out, i, q);
}

/// Law: subtracting the empty stream changes nothing — the difference emits
/// the first operand element for element — and an empty first operand makes
/// the difference emit exactly nothing.
pub proof fn lemma_difference_empty(s: Seq<Boundary>)
    ensures
        merge_spec(SetOp::Difference, s, Seq::<Boundary>::empty(), false, false) == s,
        merge_spec(SetOp::Difference, Seq::<Boundary>::empty(), s, false, false)
            == Seq::<Boundary>::empty(),
{
    lemma_difference_empty_second(s, false);
    lemma_difference_empty_first(s, false);
}

proof fn lemma_difference_empty_second(s: Seq<Boundary>, in1: bool)
    ensures
        merge_spec(SetOp::Difference, s, Seq::<Boundary>::empty(), in1, false) == s,
    decreases s.len(),
{
    if s.len() == 0 {
        assert(merge_spec(SetOp::Difference, s, Seq::<Boundary>::empty(), in1, false) =~= s);
    } else {
        lemma_difference_empty_second(s.skip(1), !in1);
        assert(seq![s[0]] + s.skip(1) =~= s);
    }
}

proof fn lemma_difference_empty_first(s: Seq<Boundary>, in2: bool)
    ensures
        merge_spec(SetOp::Difference, Seq::<Boundary>::empty(), s, false, in2)
            == Seq::<Boundary>::empty(),
    decreases s.len(),
{
    if s.len() > 0 {
        lemma_difference_empty_first(s.skip(1), !in2);
    }
}

} // verus!
