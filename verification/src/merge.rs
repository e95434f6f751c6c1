//! The two-operand boolean merge: one loop shared by union, intersection and
//! difference.
//!
//! Both operands' streams are consumed in ascending order (on an exact tie
//! the second operand goes first — a fixed, deterministic choice). Each
//! consumed boundary flips that operand's containment flag, and the boundary
//! is emitted exactly when the combined predicate changes truth value. The
//! spec function `merge_spec` states that emission rule word for word, and
//! `merge_boundaries` returns exactly that sequence.

use vstd::prelude::*;

use crate::boundary::ascending;
use crate::boundary::inside_at;
use crate::boundary::lemma_count_le_all;
use crate::boundary::lemma_count_le_push;
use crate::boundary::Boundary;

verus! {

/// The boolean operation a combinator applies to its operands' containment
/// states.
#[derive(Clone, Copy, Debug, PartialEq, Eq, Structural)]
pub enum SetOp {
    Union,
    Intersect,
    Difference,
}

/// Truth table of each operation over the two containment flags.
pub open spec fn op_apply(op: SetOp, in1: bool, in2: bool) -> bool {
    match op {
        SetOp::Union => in1 || in2,
        SetOp::Intersect => in1 && in2,
        SetOp::Difference => in1 && !in2,
    }
}

fn op_eval(op: SetOp, in1: bool, in2: bool) -> (r: bool)
    ensures
        r == op_apply(op, in1, in2),
{
    match op {
        SetOp::Union => in1 || in2,
        SetOp::Intersect => in1 && in2,
        SetOp::Difference => in1 && !in2,
    }
}

/// The canonical merge sequence, given the operands' remaining streams and
/// current containment flags: consume the smaller head — the second operand
/// first on an exact tie — flip that operand's flag, and keep the boundary
/// exactly when the combined predicate changes truth value.
pub open spec fn merge_spec(
    op: SetOp,
    s1: Seq<Boundary>,
    s2: Seq<Boundary>,
    in1: bool,
    in2: bool,
) -> Seq<Boundary>
    decreases s1.len() + s2.len(),
{
    if s1.len() == 0 && s2.len() == 0 {
        Seq::<Boundary>::empty()
    } else if s2.len() == 0 || (s1.len() > 0 && s1[0].spec_lt(s2[0])) {
        let rest = merge_spec(op, s1.skip(1), s2, !in1, in2);
        if op_apply(op, in1, in2) != op_apply(op, !in1, in2) {
            seq![s1[0]] + rest
        } else {
            rest
        }
    } else {
        let rest = merge_spec(op, s1, s2.skip(1), in1, !in2);
        if op_apply(op, in1, in2) != op_apply(op, in1, !in2) {
            seq![s2[0]] + rest
        } else {
            rest
        }
    }
}

/// Law: the merge emits at most one boundary per consumed boundary, so its
/// output is no longer than its operands together.
pub proof fn lemma_merge_spec_len(op: SetOp, s1: Seq<Boundary>, s2: Seq<Boundary>, in1: bool, in2: bool)
    ensures
        merge_spec(op, s1, s2, in1, in2).len() <= s1.len() + s2.len(),
    decreases s1.len() + s2.len(),
{
    if s1.len() == 0 && s2.len() == 0 {
    } else if s2.len() == 0 || (s1.len() > 0 && s1[0].spec_lt(s2[0])) {
        lemma_merge_spec_len(op, s1.skip(1), s2, !in1, in2);
    } else {
        lemma_merge_spec_len(op, s1, s2.skip(1), in1, !in2);
    }
}

/// Merge two ascending streams into the ascending stream of `op` applied to
/// their inside regions. The output is exactly the canonical merge sequence;
/// consequently, at every parameter, containment in the result is the
/// operation applied to containment in the operands, and every emitted
/// boundary is one of the operands' boundaries.
#[verifier::rlimit(50)]
pub fn merge_boundaries(op: SetOp, obj1: &Vec<Boundary>, obj2: &Vec<Boundary>) -> (out: Vec<
    Boundary,
>)
    requires
        ascending(obj1@),
        ascending(obj2@),
    ensures
        out@ == merge_spec(op, obj1@, obj2@, false, false),
        out@.len() <= obj1@.len() + obj2@.len(),
        ascending(out@),
        forall|q: Boundary|
            #[trigger] inside_at(out@, q) == op_apply(op, inside_at(obj1@, q), inside_at(obj2@, q)),
        forall|m: int| 0 <= m < out@.len() ==> obj1@.contains(#[trigger] out@[m]) || obj2@.contains(
            out@[m],
        ),
{
    let ghost whole = merge_spec(op, obj1@, obj2@, false, false);
    let mut out: Vec<Boundary> = Vec::new();
    let mut i: usize = 0;
    let mut j: usize = 0;
    let mut in1: bool = false;
    let mut in2: bool = false;
    proof {
        assert(obj1@.skip(0) =~= obj1@);
        assert(obj2@.skip(0) =~= obj2@);
        assert(out@ + merge_spec(op, obj1@.skip(0), obj2@.skip(0), false, false) =~= whole);
    }
    while i < obj1.len() || j < obj2.len()
        invariant
            i <= obj1@.len(),
            j <= obj2@.len(),
            ascending(obj1@),
            ascending(obj2@),
            ascending(out@),
            in1 == (i % 2 == 1),
            in2 == (j % 2 == 1),
            out@.len() <= i + j,
            whole == merge_spec(op, obj1@, obj2@, false, false),
            out@ + merge_spec(op, obj1@.skip(i as int), obj2@.skip(j as int), in1, in2) == whole,
            (out@.len() % 2 == 1) == op_apply(op, in1, in2),
            forall|m: int, k: int|
                0 <= m < out@.len() && i <= k < obj1@.len() ==> #[trigger] out@[m].spec_le(
                    obj1@[k],
                ),
            forall|m: int, k: int|
                0 <= m < out@.len() && j <= k < obj2@.len() ==> #[trigger] out@[m].spec_le(
                    obj2@[k],
                ),
            forall|m: int, k: int|
                0 <= m < i && j <= k < obj2@.len() ==> #[trigger] obj1@[m].spec_le(obj2@[k]),
            forall|m: int, k: int|
                0 <= m < j && i <= k < obj1@.len() ==> #[trigger] obj2@[m].spec_le(obj1@[k]),
            forall|q: Boundary|
                #[trigger] inside_at(out@, q) == op_apply(
                    op,
                    inside_at(obj1@.take(i as int), q),
                    inside_at(obj2@.take(j as int), q),
                ),
            forall|m: int|
                0 <= m < out@.len() ==> obj1@.contains(#[trigger] out@[m]) || obj2@.contains(
                    out@[m],
                ),
        decreases obj1@.len() + obj2@.len() - i - j,
    {
        let take_first = if j == obj2.len() {
            true
        } else if i == obj1.len() {
            false
        } else {
            obj1[i].lt(obj2[j])
        };
        if take_first {
            let x = obj1[i];
            let ghost prev_out = out@;
            let ghost pi = i as int;
            let ghost pj = j as int;
            let ghost oin1 = in1;
            let ghost oin2 = in2;
            let pred_before = op_eval(op, in1, in2);
            in1 = !in1;
            let pred_after = op_eval(op, in1, in2);
            let emit = pred_before != pred_after;
            if emit {
                out.push(x);
            }
            i = i + 1;
            proof {
                assert(obj1@.contains(x)) by {
                    assert(obj1@[pi] == x);
                }
                // the consumed boundary does not exceed anything remaining
                assert forall|k: int| pj <= k < obj2@.len() implies x.spec_le(obj2@[k]) by {
                    assert(x.spec_le(obj2@[pj]));
                    assert(obj2@[pj].spec_le(obj2@[k]));
                }
                assert forall|m: int| 0 <= m < prev_out.len() implies prev_out[m].spec_le(x) by {
                    assert(prev_out[m].spec_le(obj1@[pi]));
                }
                // the exec step is one unfolding of the canonical merge
                let s1 = obj1@.skip(pi);
                let s2 = obj2@.skip(pj);
                let rest = merge_spec(op, obj1@.skip(pi + 1), obj2@.skip(pj), !oin1, oin2);
                assert(s1[0] == x);
                assert(s1.skip(1) =~= obj1@.skip(pi + 1));
                if pj < obj2@.len() {
                    assert(s2[0] == obj2@[pj]);
                }
                assert(s2.len() == 0 || (s1.len() > 0 && s1[0].spec_lt(s2[0])));
                assert(merge_spec(op, s1, s2, oin1, oin2) == if emit {
                    seq![x] + rest
                } else {
                    rest
                });
                if emit {
                    assert(prev_out.push(x) + rest =~= prev_out + (seq![x] + rest));
                }
                assert(out@ + merge_spec(op, obj1@.skip(pi + 1), obj2@.skip(pj), !oin1, oin2)
                    == whole);
                assert(obj1@.take(pi + 1) =~= obj1@.take(pi).push(x));
                assert forall|q: Boundary|
                    #[trigger] inside_at(out@, q) == op_apply(
                        op,
                        inside_at(obj1@.take(pi + 1), q),
                        inside_at(obj2@.take(pj), q),
                    ) by {
                    lemma_count_le_push(obj1@.take(pi), x, q);
                    if emit {
                        lemma_count_le_push(prev_out, x, q);
                    }
                    if x.spec_le(q) {
                        assert forall|k: int| 0 <= k < pi + 1 implies #[trigger] obj1@.take(
                            pi + 1,
                        )[k].spec_le(q) by {
                            assert(obj1@[k].spec_le(obj1@[pi]));
                        }
                        lemma_count_le_all(obj1@.take(pi + 1), q);
                        assert forall|k: int| 0 <= k < pj implies #[trigger] obj2@.take(
                            pj,
                        )[k].spec_le(q) by {
                            assert(obj2@[k].spec_le(obj1@[pi]));
                        }
                        lemma_count_le_all(obj2@.take(pj), q);
                        assert forall|m: int| 0 <= m < prev_out.len() implies
                            #[trigger] prev_out[m].spec_le(q) by {
                            assert(prev_out[m].spec_le(obj1@[pi]));
                        }
                        lemma_count_le_all(prev_out, q);
                    } else {
                        assert(inside_at(prev_out, q) == op_apply(
                            op,
                            inside_at(obj1@.take(pi), q),
                            inside_at(obj2@.take(pj), q),
                        ));
                    }
                }
            }
        } else {
            let x = obj2[j];
            let ghost prev_out = out@;
            let ghost pi = i as int;
            let ghost pj = j as int;
            let ghost oin1 = in1;
            let ghost oin2 = in2;
            let pred_before = op_eval(op, in1, in2);
            in2 = !in2;
            let pred_after = op_eval(op, in1, in2);
            let emit = pred_before != pred_after;
            if emit {
                out.push(x);
            }
            j = j + 1;
            proof {
                assert(obj2@.contains(x)) by {
                    assert(obj2@[pj] == x);
                }
                assert forall|k: int| pi <= k < obj1@.len() implies x.spec_le(obj1@[k]) by {
                    assert(x.spec_le(obj1@[pi]));
                    assert(obj1@[pi].spec_le(obj1@[k]));
                }
                assert forall|m: int| 0 <= m < prev_out.len() implies prev_out[m].spec_le(x) by {
                    assert(prev_out[m].spec_le(obj2@[pj]));
                }
                // the exec step is one unfolding of the canonical merge
                let s1 = obj1@.skip(pi);
                let s2 = obj2@.skip(pj);
                let rest = merge_spec(op, obj1@.skip(pi), obj2@.skip(pj + 1), oin1, !oin2);
                assert(s2[0] == x);
                assert(s2.skip(1) =~= obj2@.skip(pj + 1));
                if pi < obj1@.len() {
                    assert(s1[0] == obj1@[pi]);
                }
                assert(!(s2.len() == 0 || (s1.len() > 0 && s1[0].spec_lt(s2[0]))));
                assert(merge_spec(op, s1, s2, oin1, oin2) == if emit {
                    seq![x] + rest
                } else {
                    rest
                });
                if emit {
                    assert(prev_out.push(x) + rest =~= prev_out + (seq![x] + rest));
                }
                assert(out@ + merge_spec(op, obj1@.skip(pi), obj2@.skip(pj + 1), oin1, !oin2)
                    == whole);
                assert(obj2@.take(pj + 1) =~= obj2@.take(pj).push(x));
                assert forall|q: Boundary|
                    #[trigger] inside_at(out@, q) == op_apply(
                        op,
                        inside_at(obj1@.take(pi), q),
                        inside_at(obj2@.take(pj + 1), q),
                    ) by {
                    lemma_count_le_push(obj2@.take(pj), x, q);
                    if emit {
                        lemma_count_le_push(prev_out, x, q);
                    }
                    if x.spec_le(q) {
                        assert forall|k: int| 0 <= k < pj + 1 implies #[trigger] obj2@.take(
                            pj + 1,
                        )[k].spec_le(q) by {
                            assert(obj2@[k].spec_le(obj2@[pj]));
                        }
                        lemma_count_le_all(obj2@.take(pj + 1), q);
                        assert forall|k: int| 0 <= k < pi implies #[trigger] obj1@.take(
                            pi,
                        )[k].spec_le(q) by {
                            assert(obj1@[k].spec_le(obj2@[pj]));
                        }
                        lemma_count_le_all(obj1@.take(pi), q);
                        assert forall|m: int| 0 <= m < prev_out.len() implies
                            #[trigger] prev_out[m].spec_le(q) by {
                            assert(prev_out[m].spec_le(obj2@[pj]));
                        }
                        lemma_count_le_all(prev_out, q);
                    } else {
                        assert(inside_at(prev_out, q) == op_apply(
                            op,
                            inside_at(obj1@.take(pi), q),
                            inside_at(obj2@.take(pj), q),
                        ));
                    }
                }
            }
        }
    }
    proof {
        assert(obj1@.take(obj1@.len() as int) =~= obj1@);
        assert(obj2@.take(obj2@.len() as int) =~= obj2@);
        assert(obj1@.skip(obj1@.len() as int) =~= Seq::<Boundary>::empty());
        assert(obj2@.skip(obj2@.len() as int) =~= Seq::<Boundary>::empty());
        assert(out@ + merge_spec(
            op,
            Seq::<Boundary>::empty(),
            Seq::<Boundary>::empty(),
            in1,
            in2,
        ) =~= out@);
    }
    out
}

} // verus!
