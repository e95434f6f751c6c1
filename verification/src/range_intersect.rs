//! Binary intersection of two boundary streams.

use vstd::prelude::*;

use crate::boundary::ascending;
use crate::boundary::inside_at;
use crate::boundary::Boundary;
use crate::merge::merge_boundaries;
use crate::merge::merge_spec;
use crate::merge::SetOp;

verus! {

/// The result stream describes the intersection of the operands' inside
/// regions: inside the result exactly when inside both operands.
pub open spec fn intersect_semantics(out: Seq<Boundary>, obj1: Seq<Boundary>, obj2: Seq<
    Boundary,
>) -> bool {
    forall|q: Boundary|
        #[trigger] inside_at(out, q) == (inside_at(obj1, q) && inside_at(obj2, q))
}

/// Intersection of two solids' boundary streams along one ray. The caller's
/// visibility window is applied the same way: intersect with the stream
/// `[0, +inf)`.
pub struct RangeIntersect {
    pub obj1: Vec<Boundary>,
    pub obj2: Vec<Boundary>,
}

impl RangeIntersect {
    pub open spec fn wf(&self) -> bool {
        ascending(self.obj1@) && ascending(self.obj2@)
    }

    pub fn new(obj1: Vec<Boundary>, obj2: Vec<Boundary>) -> (r: Self)
        requires
            ascending(obj1@),
            ascending(obj2@),
        ensures
            r.wf(),
            r.obj1 == obj1,
            r.obj2 == obj2,
    {
        RangeIntersect { obj1, obj2 }
    }

    /// The merged stream: exactly the canonical merge sequence of the two
    /// operands under the "both inside" predicate — so it is ascending, no
    /// longer than the operands together, inside exactly where both operands
    /// are inside, and made only of operand boundaries.
    pub fn boundaries(&self) -> (out: Vec<Boundary>)
        requires
            self.wf(),
        ensures
            out@ == merge_spec(SetOp::Intersect, self.obj1@, self.obj2@, false, false),
            out@.len() <= self.obj1@.len() + self.obj2@.len(),
            ascending(out@),
            intersect_semantics(out@, self.obj1@, self.obj2@),
            forall|m: int|
                0 <= m < out@.len() ==> self.obj1@.contains(#[trigger] out@[m])
                    || self.obj2@.contains(out@[m]),
    {
        merge_boundaries(SetOp::Intersect, &self.obj1, &self.obj2)
    }
}

/// Law: an empty operand, in either position, makes the intersection emit
/// exactly nothing.
pub proof fn lemma_intersect_empty(s: Seq<Boundary>)
    ensures
        merge_spec(SetOp::Intersect, s, Seq::<Boundary>::empty(), false, false)
            == Seq::<Boundary>::empty(),
        merge_spec(SetOp::Intersect, Seq::<Boundary>::empty(), s, false, false)
            == Seq::<Boundary>::empty(),
{
    lemma_intersect_empty_second(s, false);
    lemma_intersect_empty_first(s, false);
}

proof fn lemma_intersect_empty_second(s: Seq<Boundary>, in1: bool)
    ensures
        merge_spec(SetOp::Intersect, s, Seq::<Boundary>::empty(), in1, false)
            == Seq::<Boundary>::empty(),
    decreases s.len(),
{
    if s.len() > 0 {
        lemma_intersect_empty_second(s.skip(1), !in1);
    }
}

proof fn lemma_intersect_empty_first(s: Seq<Boundary>, in2: bool)
    ensures
        merge_spec(SetOp::Intersect, Seq::<Boundary>::empty(), s, false, in2)
            == Seq::<Boundary>::empty(),
    decreases s.len(),
{
    if s.len() > 0 {
        lemma_intersect_empty_first(s.skip(1), !in2);
    }
}

/// Law: the whole line is the identity of the intersection — merging any
/// even-length stream of boundaries below positive infinity with the pair
/// `[-inf, +inf]` emits that stream element for element. A clip plane whose
/// ray runs parallel to it on the inside therefore returns the wrapped
/// solid's stream unchanged.
pub proof fn lemma_intersect_whole_line(s: Seq<Boundary>)
    requires
        s.len() % 2 == 0,
        forall|k: int| 0 <= k < s.len() ==> (#[trigger] s[k]).spec_lt(Boundary::PosInf),
    ensures
        merge_spec(SetOp::Intersect, s, seq![Boundary::NegInf, Boundary::PosInf], false, false)
            == s,
{
    let pair = seq![Boundary::NegInf, Boundary::PosInf];
    assert(pair.skip(1) =~= seq![Boundary::PosInf]);
    lemma_intersect_posinf_tail(s, false);
}

proof fn lemma_intersect_posinf_tail(s: Seq<Boundary>, in1: bool)
    requires
        in1 == (s.len() % 2 == 1),
        forall|k: int| 0 <= k < s.len() ==> (#[trigger] s[k]).spec_lt(Boundary::PosInf),
    ensures
        merge_spec(SetOp::Intersect, s, seq![Boundary::PosInf], in1, true) == s,
    decreases s.len(),
{
    let tail = seq![Boundary::PosInf];
    if s.len() == 0 {
        assert(s =~= Seq::<Boundary>::empty());
        assert(tail.skip(1) =~= Seq::<Boundary>::empty());
        assert(merge_spec(
            SetOp::Intersect,
            Seq::<Boundary>::empty(),
            Seq::<Boundary>::empty(),
            false,
            false,
        ) =~= Seq::<Boundary>::empty());
    } else {
        assert(s[0].spec_lt(tail[0]));
        assert forall|k: int| 0 <= k < s.skip(1).len() implies (#[trigger] s.skip(1)[k]).spec_lt(
            Boundary::PosInf,
        ) by {
            assert(s[k + 1].spec_lt(Boundary::PosInf));
        }
        lemma_intersect_posinf_tail(s.skip(1), !in1);
        assert(seq![s[0]] + s.skip(1) =~= s);
    }
}

} // verus!
