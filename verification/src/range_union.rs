//! Binary union of two boundary streams.

use vstd::prelude::*;

use crate::boundary::ascending;
use crate::boundary::inside_at;
use crate::boundary::Boundary;
use crate::merge::merge_boundaries;
use crate::merge::merge_spec;
use crate::merge::op_apply;
use crate::merge::SetOp;

verus! {

/// The result stream describes the union of the operands' inside regions:
/// at every parameter, inside the result exactly when inside either operand.
pub open spec fn union_semantics(out: Seq<Boundary>, obj1: Seq<Boundary>, obj2: Seq<
    Boundary,
>) -> bool {
    forall|q: Boundary|
        #[trigger] inside_at(out, q) == (inside_at(obj1, q) || inside_at(obj2, q))
}

/// Union of two solids' boundary streams along one ray.
pub struct RangeUnion {
    pub obj1: Vec<Boundary>,
    pub obj2: Vec<Boundary>,
}

impl RangeUnion {
    pub open spec fn wf(&self) -> bool {
        ascending(self.obj1@) && ascending(self.obj2@)
    }

    pub fn new(obj1: Vec<Boundary>, obj2: Vec<Boundary>) -> (r: Self)
        requires
            ascending(obj1@),
            ascending(obj2@),
        ensures
            r.wf(),
            r.obj1 == obj1,
            r.obj2 == obj2,
    {
        RangeUnion { obj1, obj2 }
    }

    /// The merged stream: exactly the canonical merge sequence of the two
    /// operands under the "either inside" predicate — so it is ascending,
    /// no longer than the operands together, inside exactly where either
    /// operand is inside, and made only of operand boundaries.
    pub fn boundaries(&self) -> (out: Vec<Boundary>)
        requires
            self.wf(),
        ensures
            out@ == merge_spec(SetOp::Union, self.obj1@, self.obj2@, false, false),
            out@.len() <= self.obj1@.len() + self.obj2@.len(),
            ascending(out@),
            union_semantics(out@, self.obj1@, self.obj2@),
            forall|m: int|
                0 <= m < out@.len() ==> self.obj1@.contains(#[trigger] out@[m])
                    || self.obj2@.contains(out@[m]),
    {
        merge_boundaries(SetOp::Union, &self.obj1, &self.obj2)
    }
}

/// Law: the empty stream is the identity of the union, exactly — the merge
/// of a stream with an empty operand, in either position, emits that stream
/// element for element.
pub proof fn lemma_union_empty_identity(s: Seq<Boundary>)
    ensures
        merge_spec(SetOp::Union, s, Seq::<Boundary>::empty(), false, false) == s,
        merge_spec(SetOp::Union, Seq::<Boundary>::empty(), s, false, false) == s,
{
    lemma_union_empty_second(s, false);
    lemma_union_empty_first(s, false);
}

proof fn lemma_union_empty_second(s: Seq<Boundary>, in1: bool)
    ensures
        merge_spec(SetOp::Union, s, Seq::<Boundary>::empty(), in1, false) == s,
    decreases s.len(),
{
    if s.len() == 0 {
        assert(merge_spec(SetOp::Union, s, Seq::<Boundary>::empty(), in1, false) =~= s);
    } else {
        lemma_union_empty_second(s.skip(1), !in1);
        assert(seq![s[0]] + s.skip(1) =~= s);
    }
}

proof fn lemma_union_empty_first(s: Seq<Boundary>, in2: bool)
    ensures
        merge_spec(SetOp::Union, Seq::<Boundary>::empty(), s, false, in2) == s,
    decreases s.len(),
{
    if s.len() == 0 {
        assert(merge_spec(SetOp::Union, Seq::<Boundary>::empty(), s, false, in2) =~= s);
    } else {
        lemma_union_empty_first(s.skip(1), !in2);
        assert(seq![s[0]] + s.skip(1) =~= s);
    }
}

/// Law: an operand covering the whole line absorbs the union — merging any
/// even-length stream of boundaries below positive infinity with the pair
/// `[-inf, +inf]` emits exactly that pair.
pub proof fn lemma_union_whole_line(s: Seq<Boundary>)
    requires
        s.len() % 2 == 0,
        forall|k: int| 0 <= k < s.len() ==> (#[trigger] s[k]).spec_lt(Boundary::PosInf),
    ensures
        merge_spec(SetOp::Union, s, seq![Boundary::NegInf, Boundary::PosInf], false, false)
            == seq![Boundary::NegInf, Boundary::PosInf],
{
    let pair = seq![Boundary::NegInf, Boundary::PosInf];
    assert(pair.skip(1) =~= seq![Boundary::PosInf]);
    lemma_union_posinf_tail(s, false);
    assert(seq![Boundary::NegInf] + seq![Boundary::PosInf] =~= pair);
}

proof fn lemma_union_posinf_tail(s: Seq<Boundary>, in1: bool)
    requires
        in1 == (s.len() % 2 == 1),
        forall|k: int| 0 <= k < s.len() ==> (#[trigger] s[k]).spec_lt(Boundary::PosInf),
    ensures
        merge_spec(SetOp::Union, s, seq![Boundary::PosInf], in1, true) == seq![Boundary::PosInf],
    decreases s.len(),
{
    let tail = seq![Boundary::PosInf];
    if s.len() == 0 {
        assert(s =~= Seq::<Boundary>::empty());
        assert(tail.skip(1) =~= Seq::<Boundary>::empty());
        assert(merge_spec(
            SetOp::Union,
            Seq::<Boundary>::empty(),
            Seq::<Boundary>::empty(),
            false,
            false,
        ) =~= Seq::<Boundary>::empty());
        assert(seq![tail[0]] + Seq::<Boundary>::empty() =~= tail);
    } else {
        assert(s[0].spec_lt(tail[0]));
        assert forall|k: int| 0 <= k < s.skip(1).len() implies (#[trigger] s.skip(1)[k]).spec_lt(
            Boundary::PosInf,
        ) by {
            assert(s[k + 1].spec_lt(Boundary::PosInf));
        }
        lemma_union_posinf_tail(s.skip(1), !in1);
        assert(op_apply(SetOp::Union, in1, true) == op_apply(SetOp::Union, !in1, true));
    }
}

} // verus!
