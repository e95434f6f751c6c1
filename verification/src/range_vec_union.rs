//! N-ary union of boundary streams: a k-way merge with a shared containment
//! count.
//!
//! Among all operands with a remaining boundary the smallest head is consumed
//! (on an exact tie the operand of the highest position goes first — a fixed,
//! deterministic choice). Consuming a boundary flips that operand's
//! containment parity and moves the shared count of inside operands by one;
//! the boundary is emitted exactly when the count leaves or reaches zero,
//! that is, when the "any operand inside" predicate changes.

use vstd::pervasive::VecAdditionalExecFns;
use vstd::prelude::*;

use crate::boundary::ascending;
use crate::boundary::count_le;
use crate::boundary::inside_at;
use crate::boundary::lemma_count_le_all;
use crate::boundary::lemma_count_le_push;
use crate::boundary::Boundary;

verus! {

/// Every operand stream is ascending.
pub open spec fn all_ascending(ms: Seq<Vec<Boundary>>) -> bool {
    forall|k: int| 0 <= k < ms.len() ==> ascending(#[trigger] ms[k]@)
}

/// The result stream describes the union of all operands' inside regions:
/// at every parameter, inside the result exactly when inside some operand.
pub open spec fn union_all_semantics(out: Seq<Boundary>, ms: Seq<Vec<Boundary>>) -> bool {
    forall|q: Boundary|
        #[trigger] inside_at(out, q) == (exists|k: int|
            0 <= k < ms.len() && inside_at(#[trigger] ms[k]@, q))
}

/// How many operands are currently inside: cursors of odd parity, since each
/// consumed boundary flips its operand.
pub open spec fn num_inside(cs: Seq<usize>) -> nat
    decreases cs.len(),
{
    if cs.len() == 0 {
        0
    } else {
        num_inside(cs.drop_last()) + if cs.last() % 2 == 1 {
            1nat
        } else {
            0nat
        }
    }
}

/// Total number of boundaries not yet consumed, the merge's termination
/// measure.
pub open spec fn sum_remaining(ms: Seq<Vec<Boundary>>, cs: Seq<usize>) -> int
    decreases ms.len(),
{
    if ms.len() == 0 || ms.len() != cs.len() {
        0
    } else {
        sum_remaining(ms.drop_last(), cs.drop_last()) + ms.last()@.len() - cs.last()
    }
}

proof fn lemma_num_inside_le_len(cs: Seq<usize>)
    ensures
        num_inside(cs) <= cs.len(),
    decreases cs.len(),
{
    if cs.len() > 0 {
        lemma_num_inside_le_len(cs.drop_last());
    }
}

proof fn lemma_num_inside_update(cs: Seq<usize>, k: int, v: usize)
    requires
        0 <= k < cs.len(),
        v == cs[k] + 1,
    ensures
        cs[k] % 2 == 1 ==> num_inside(cs) == num_inside(cs.update(k, v)) + 1,
        cs[k] % 2 == 0 ==> num_inside(cs.update(k, v)) == num_inside(cs) + 1,
    decreases cs.len(),
{
    let cs2 = cs.update(k, v);
    if k == cs.len() - 1 {
        assert(cs2.drop_last() =~= cs.drop_last());
        assert(cs2.last() == v);
    } else {
        assert(cs2.drop_last() =~= cs.drop_last().update(k, v));
        assert(cs2.last() == cs.last());
        lemma_num_inside_update(cs.drop_last(), k, v);
    }
}

proof fn lemma_num_inside_zero(cs: Seq<usize>)
    ensures
        (num_inside(cs) == 0) <==> (forall|k: int|
            0 <= k < cs.len() ==> (#[trigger] cs[k]) % 2 == 0),
    decreases cs.len(),
{
    if cs.len() > 0 {
        lemma_num_inside_zero(cs.drop_last());
        if num_inside(cs) == 0 {
            assert forall|k: int| 0 <= k < cs.len() implies (#[trigger] cs[k]) % 2 == 0 by {
                if k < cs.len() - 1 {
                    assert(cs.drop_last()[k] % 2 == 0);
                } else {
                    assert(cs.last() % 2 == 0);
                }
            }
        }
        if forall|k: int| 0 <= k < cs.len() ==> (#[trigger] cs[k]) % 2 == 0 {
            let front = cs.drop_last();
            assert forall|k: int| 0 <= k < front.len() implies (#[trigger] front[k]) % 2 == 0 by {
                assert(cs[k] % 2 == 0);
            }
            assert(cs[cs.len() - 1] % 2 == 0);
        }
    }
}

proof fn lemma_sum_remaining_nonneg(ms: Seq<Vec<Boundary>>, cs: Seq<usize>)
    requires
        ms.len() == cs.len(),
        forall|k: int| 0 <= k < cs.len() ==> (#[trigger] cs[k]) <= ms[k]@.len(),
    ensures
        sum_remaining(ms, cs) >= 0,
    decreases ms.len(),
{
    if ms.len() > 0 {
        assert forall|k: int| 0 <= k < cs.drop_last().len() implies (#[trigger] cs.drop_last()[k])
            <= ms.drop_last()[k]@.len() by {
            assert(cs[k] <= ms[k]@.len());
        }
        lemma_sum_remaining_nonneg(ms.drop_last(), cs.drop_last());
        assert(cs[cs.len() - 1] <= ms[ms.len() - 1]@.len());
    }
}

proof fn lemma_sum_remaining_update(ms: Seq<Vec<Boundary>>, cs: Seq<usize>, k: int, v: usize)
    requires
        ms.len() == cs.len(),
        0 <= k < cs.len(),
        v == cs[k] + 1,
    ensures
        sum_remaining(ms, cs.update(k, v)) == sum_remaining(ms, cs) - 1,
    decreases ms.len(),
{
    let cs2 = cs.update(k, v);
    if k == cs.len() - 1 {
        assert(cs2.drop_last() =~= cs.drop_last());
        assert(cs2.last() == v);
    } else {
        assert(cs2.drop_last() =~= cs.drop_last().update(k, v));
        assert(cs2.last() == cs.last());
        lemma_sum_remaining_update(ms.drop_last(), cs.drop_last(), k, v);
    }
}


/// The operand streams as plain sequences.
pub open spec fn stream_views(ms: Seq<Vec<Boundary>>) -> Seq<Seq<Boundary>> {
    Seq::new(ms.len(), |k: int| ms[k]@)
}

/// What is left of each operand once its first `cs[k]` boundaries are
/// consumed.
spec fn remaining_views(ms: Seq<Vec<Boundary>>, cs: Seq<usize>) -> Seq<Seq<Boundary>> {
    Seq::new(ms.len(), |k: int| ms[k]@.skip(cs[k] as int))
}

/// Each operand's containment flag: flipped once per consumed boundary.
spec fn cursor_parities(cs: Seq<usize>) -> Seq<bool> {
    Seq::new(cs.len(), |k: int| cs[k] % 2 == 1)
}

/// Every operand outside: the state a trace starts from.
pub open spec fn all_outside(n: int) -> Seq<bool> {
    Seq::new(n as nat, |k: int| false)
}

/// Sum of the streams' lengths.
pub open spec fn total_len(streams: Seq<Seq<Boundary>>) -> nat
    decreases streams.len(),
{
    if streams.len() == 0 {
        0
    } else {
        total_len(streams.drop_last()) + streams.last().len()
    }
}

/// The operand whose head the merge consumes next: the smallest remaining
/// head, the highest position on an exact tie; `-1` when every stream is
/// exhausted.
pub open spec fn best_head_index(streams: Seq<Seq<Boundary>>) -> int
    decreases streams.len(),
{
    if streams.len() == 0 {
        -1
    } else {
        let front = best_head_index(streams.drop_last());
        if streams.last().len() == 0 {
            front
        } else if front == -1 {
            streams.len() - 1
        } else if streams.last()[0].spec_le(streams[front][0]) {
            streams.len() - 1
        } else {
            front
        }
    }
}

/// Some operand is currently inside.
pub open spec fn any_inside(ps: Seq<bool>) -> bool {
    exists|k: int| 0 <= k < ps.len() && ps[k]
}

/// The canonical n-ary merge sequence, given the operands' remaining streams
/// and current containment flags: consume the selected head, flip that
/// operand's flag, and keep the boundary exactly when the "any operand
/// inside" predicate changes truth value.
pub open spec fn vec_merge_spec(streams: Seq<Seq<Boundary>>, ps: Seq<bool>) -> Seq<Boundary>
    decreases total_len(streams)
    via vec_merge_spec_decreases
{
    let b = best_head_index(streams);
    if b == -1 {
        Seq::<Boundary>::empty()
    } else {
        let streams2 = streams.update(b, streams[b].skip(1));
        let ps2 = ps.update(b, !ps[b]);
        let rest = vec_merge_spec(streams2, ps2);
        if any_inside(ps) != any_inside(ps2) {
            seq![streams[b][0]] + rest
        } else {
            rest
        }
    }
}

#[via_fn]
proof fn vec_merge_spec_decreases(streams: Seq<Seq<Boundary>>, ps: Seq<bool>) {
    let b = best_head_index(streams);
    if b != -1 {
        lemma_best_head_index(streams);
        lemma_total_len_update(streams, b);
    }
}

proof fn lemma_total_len_update(streams: Seq<Seq<Boundary>>, b: int)
    requires
        0 <= b < streams.len(),
        streams[b].len() > 0,
    ensures
        total_len(streams.update(b, streams[b].skip(1))) + 1 == total_len(streams),
    decreases streams.len(),
{
    let s2 = streams.update(b, streams[b].skip(1));
    if b == streams.len() - 1 {
        assert(s2.drop_last() =~= streams.drop_last());
        assert(s2.last() == streams[b].skip(1));
    } else {
        assert(s2.drop_last() =~= streams.drop_last().update(b, streams[b].skip(1)));
        assert(s2.last() == streams.last());
        lemma_total_len_update(streams.drop_last(), b);
    }
}

/// What the selection returns: `-1` exactly when everything is exhausted;
/// otherwise a position with a remaining head no larger than any other
/// remaining head, and strictly smaller than every remaining head at a
/// higher position.
proof fn lemma_best_head_index(streams: Seq<Seq<Boundary>>)
    ensures
        (best_head_index(streams) == -1) <==> (forall|k: int|
            0 <= k < streams.len() ==> (#[trigger] streams[k]).len() == 0),
        best_head_index(streams) != -1 ==> 0 <= best_head_index(streams) < streams.len(),
        best_head_index(streams) != -1 ==> streams[best_head_index(streams)].len() > 0,
        best_head_index(streams) != -1 ==> (forall|k: int|
            0 <= k < streams.len() && (#[trigger] streams[k]).len() > 0 ==> streams[
                best_head_index(streams)
            ][0].spec_le(streams[k][0])),
        best_head_index(streams) != -1 ==> (forall|k: int|
            best_head_index(streams) < k < streams.len() && (#[trigger] streams[k]).len() > 0
                ==> streams[best_head_index(streams)][0].spec_lt(streams[k][0])),
    decreases streams.len(),
{
    if streams.len() > 0 {
        let front = streams.drop_last();
        lemma_best_head_index(front);
        let fb = best_head_index(front);
        let last_k = streams.len() - 1;
        let b = best_head_index(streams);
        assert forall|k: int| 0 <= k < last_k implies #[trigger] front[k] == streams[k] by {}
        if streams.last().len() == 0 {
            if fb == -1 {
                assert forall|k: int| 0 <= k < streams.len() implies (#[trigger] streams[k]).len()
                    == 0 by {
                    if k < last_k {
                        assert(front[k].len() == 0);
                    }
                }
            } else {
                assert(streams[b].len() > 0) by {
                    assert(front[fb].len() > 0);
                }
                assert forall|k: int|
                    0 <= k < streams.len() && (#[trigger] streams[k]).len() > 0 implies streams[
                    b
                ][0].spec_le(streams[k][0]) by {
                    assert(front[fb][0].spec_le(front[k][0]));
                }
                assert forall|k: int|
                    b < k < streams.len() && (#[trigger] streams[k]).len() > 0 implies streams[
                    b
                ][0].spec_lt(streams[k][0]) by {
                    assert(front[fb][0].spec_lt(front[k][0]));
                }
            }
        } else if fb == -1 {
            assert forall|k: int|
                0 <= k < streams.len() && (#[trigger] streams[k]).len() > 0 implies streams[
                b
            ][0].spec_le(streams[k][0]) by {
                if k < last_k {
                    assert(front[k].len() == 0);
                }
            }
        } else if streams.last()[0].spec_le(streams[fb][0]) {
            assert(front[fb].len() > 0);
            assert forall|k: int|
                0 <= k < streams.len() && (#[trigger] streams[k]).len() > 0 implies streams[
                b
            ][0].spec_le(streams[k][0]) by {
                if k < last_k {
                    assert(front[fb][0].spec_le(front[k][0]));
                }
            }
        } else {
            assert(streams[b].len() > 0) by {
                assert(front[fb].len() > 0);
            }
            assert forall|k: int|
                0 <= k < streams.len() && (#[trigger] streams[k]).len() > 0 implies streams[
                b
            ][0].spec_le(streams[k][0]) by {
                if k < last_k {
                    assert(front[fb][0].spec_le(front[k][0]));
                }
            }
            assert forall|k: int|
                b < k < streams.len() && (#[trigger] streams[k]).len() > 0 implies streams[
                b
            ][0].spec_lt(streams[k][0]) by {
                if k < last_k {
                    assert(front[fb][0].spec_lt(front[k][0]));
                }
            }
        }
    }
}

/// Law: the n-ary merge emits at most one boundary per consumed boundary,
/// so its output is no longer than all operands together.
pub proof fn lemma_vec_merge_spec_len(streams: Seq<Seq<Boundary>>, ps: Seq<bool>)
    ensures
        vec_merge_spec(streams, ps).len() <= total_len(streams),
    decreases total_len(streams),
{
    let b = best_head_index(streams);
    if b != -1 {
        lemma_best_head_index(streams);
        lemma_total_len_update(streams, b);
        lemma_vec_merge_spec_len(streams.update(b, streams[b].skip(1)), ps.update(b, !ps[b]));
    }
}

/// Law: the union of a single operand emits exactly that operand — every
/// boundary moves the count between zero and one.
pub proof fn lemma_vec_union_single(s: Seq<Boundary>)
    ensures
        vec_merge_spec(seq![s], seq![false]) == s,
{
    lemma_vec_union_single_parity(s, false);
}

proof fn lemma_vec_union_single_parity(s: Seq<Boundary>, p: bool)
    ensures
        vec_merge_spec(seq![s], seq![p]) == s,
    decreases s.len(),
{
    lemma_best_head_index(seq![s]);
    let b = best_head_index(seq![s]);
    if s.len() == 0 {
        assert(b == -1) by {
            assert forall|k: int| 0 <= k < 1 implies (#[trigger] seq![s][k]).len() == 0 by {
                assert(seq![s][k] == s);
            }
        }
        assert(vec_merge_spec(seq![s], seq![p]) =~= s);
    } else {
        assert(b != -1) by {
            assert(seq![s][0].len() > 0);
        }
        assert(b == 0);
        let streams2 = seq![s].update(0, s.skip(1));
        assert(streams2 =~= seq![s.skip(1)]);
        let ps2 = seq![p].update(0, !p);
        assert(ps2 =~= seq![!p]);
        assert(any_inside(seq![p]) == p) by {
            assert(seq![p][0] == p);
            if any_inside(seq![p]) {
                let kw = choose|k: int| 0 <= k < 1 && #[trigger] seq![p][k];
                assert(kw == 0);
            }
        }
        let np = !p;
        assert(any_inside(seq![np]) == np) by {
            assert(seq![np][0] == np);
            if any_inside(seq![np]) {
                let kw = choose|k: int| 0 <= k < 1 && #[trigger] seq![np][k];
                assert(kw == 0);
            }
        }
        lemma_vec_union_single_parity(s.skip(1), !p);
        assert(seq![s[0]] + s.skip(1) =~= s);
    }
}

/// Union of any number of solids' boundary streams along one ray.
pub struct RangeVecUnion {
    pub machines: Vec<Vec<Boundary>>,
}

impl RangeVecUnion {
    pub open spec fn wf(&self) -> bool {
        all_ascending(self.machines@)
    }

    pub fn new(objects: Vec<Vec<Boundary>>) -> (r: Self)
        requires
            all_ascending(objects@),
        ensures
            r.wf(),
            r.machines == objects,
    {
        RangeVecUnion { machines: objects }
    }

    /// The merged stream: exactly the canonical n-ary merge sequence of the
    /// operands — so it is ascending, no longer than all operands together,
    /// inside exactly where some operand is inside, and made only of operand
    /// boundaries.
    #[verifier::rlimit(50)]
    pub fn boundaries(&self) -> (out: Vec<Boundary>)
        requires
            self.wf(),
        ensures
            out@ == vec_merge_spec(
                stream_views(self.machines@),
                all_outside(self.machines@.len() as int),
            ),
            out@.len() <= total_len(stream_views(self.machines@)),
            ascending(out@),
            union_all_semantics(out@, self.machines@),
            forall|m: int|
                0 <= m < out@.len() ==> (exists|k: int|
                    0 <= k < self.machines@.len() && self.machines@[k]@.contains(
                        #[trigger] out@[m],
                    )),
    {
        let n: usize = self.machines.len();
        let ghost nn = self.machines@.len() as int;
        let ghost full_streams = stream_views(self.machines@);
        let ghost whole = vec_merge_spec(full_streams, all_outside(nn));
        let mut cursors: Vec<usize> = Vec::new();
        let mut t: usize = 0;
        while t < n
            invariant
                t <= n,
                cursors@.len() == t,
                forall|k: int| 0 <= k < t ==> #[trigger] cursors@[k] == 0,
            decreases n - t,
        {
            cursors.push(0);
            t = t + 1;
        }
        let mut count: usize = 0;
        let mut out: Vec<Boundary> = Vec::new();
        proof {
            lemma_num_inside_zero(cursors@);
            assert(remaining_views(self.machines@, cursors@) =~= full_streams) by {
                assert forall|k: int| 0 <= k < nn implies #[trigger] remaining_views(
                    self.machines@,
                    cursors@,
                )[k] == full_streams[k] by {
                    assert(self.machines@[k]@.skip(cursors@[k] as int) =~= self.machines@[k]@);
                }
            }
            assert(cursor_parities(cursors@) =~= all_outside(nn));
            assert(out@ + whole =~= whole);
            assert forall|q: Boundary| #[trigger] inside_at(out@, q) == (exists|k: int|
                0 <= k < nn && inside_at(
                    #[trigger] self.machines@[k]@.take(cursors@[k] as int),
                    q,
                )) by {
                assert(count_le(out@, q) == 0);
                assert forall|k: int| 0 <= k < nn implies !inside_at(
                    self.machines@[k]@.take(cursors@[k] as int),
                    q,
                ) by {
                    assert(self.machines@[k]@.take(cursors@[k] as int)
                        =~= Seq::<Boundary>::empty());
                    assert(count_le(Seq::<Boundary>::empty(), q) == 0);
                }
            }
        }
        loop
            invariant
                self.wf(),
                nn == self.machines@.len(),
                n == self.machines@.len(),
                cursors@.len() == nn,
                forall|k: int| 0 <= k < nn ==> #[trigger] cursors@[k] <= self.machines@[k]@.len(),
                ascending(out@),
                count == num_inside(cursors@),
                (out@.len() % 2 == 1) == (count > 0),
                full_streams == stream_views(self.machines@),
                whole == vec_merge_spec(full_streams, all_outside(nn)),
                out@ + vec_merge_spec(
                    remaining_views(self.machines@, cursors@),
                    cursor_parities(cursors@),
                ) == whole,
                forall|m: int, k: int, l: int|
                    #![trigger out@[m], self.machines@[k]@[l]]
                    0 <= m < out@.len() && 0 <= k < nn && cursors@[k] <= l
                        < self.machines@[k]@.len() ==> out@[m].spec_le(
                        self.machines@[k]@[l],
                    ),
                forall|k1: int, m: int, k2: int, l: int|
                    #![trigger self.machines@[k1]@[m], self.machines@[k2]@[l]]
                    0 <= k1 < nn && 0 <= m < cursors@[k1] && 0 <= k2 < nn && cursors@[k2] <= l
                        < self.machines@[k2]@.len() ==> self.machines@[k1]@[m].spec_le(
                        self.machines@[k2]@[l],
                    ),
                forall|q: Boundary|
                    #[trigger] inside_at(out@, q) == (exists|k: int|
                        0 <= k < nn && inside_at(
                            #[trigger] self.machines@[k]@.take(cursors@[k] as int),
                            q,
                        )),
                forall|m: int|
                    0 <= m < out@.len() ==> (exists|k: int|
                        0 <= k < nn && self.machines@[k]@.contains(#[trigger] out@[m])),
            ensures
                forall|k: int| 0 <= k < nn ==> #[trigger] cursors@[k] == self.machines@[k]@.len(),
                out@ + vec_merge_spec(
                    remaining_views(self.machines@, cursors@),
                    cursor_parities(cursors@),
                ) == whole,
                ascending(out@),
                forall|q: Boundary|
                    #[trigger] inside_at(out@, q) == (exists|k: int|
                        0 <= k < nn && inside_at(
                            #[trigger] self.machines@[k]@.take(cursors@[k] as int),
                            q,
                        )),
                forall|m: int|
                    0 <= m < out@.len() ==> (exists|k: int|
                        0 <= k < nn && self.machines@[k]@.contains(#[trigger] out@[m])),
            decreases sum_remaining(self.machines@, cursors@),
        {
            proof {
                lemma_sum_remaining_nonneg(self.machines@, cursors@);
            }
            // select the operand with the smallest remaining head; on a tie
            // the highest position wins
            let mut best: usize = n;
            let mut k: usize = 0;
            while k < n
                invariant
                    k <= n,
                    n == self.machines@.len(),
                    cursors@.len() == nn,
                    nn == self.machines@.len(),
                    forall|k2: int|
                        0 <= k2 < nn ==> #[trigger] cursors@[k2] <= self.machines@[k2]@.len(),
                    best == n || best < k,
                    best == n ==> forall|k2: int|
                        0 <= k2 < k ==> #[trigger] cursors@[k2] == self.machines@[k2]@.len(),
                    best < n ==> cursors@[best as int] < self.machines@[best as int]@.len(),
                    best < n ==> forall|k2: int|
                        0 <= k2 < k && cursors@[k2] < self.machines@[k2]@.len()
                            ==> self.machines@[best as int]@[cursors@[best as int] as int].spec_le(
                            #[trigger] self.machines@[k2]@[cursors@[k2] as int],
                        ),
                    best < n ==> forall|k2: int|
                        best < k2 < k && cursors@[k2] < self.machines@[k2]@.len()
                            ==> self.machines@[best as int]@[cursors@[best as int] as int].spec_lt(
                            #[trigger] self.machines@[k2]@[cursors@[k2] as int],
                        ),
                decreases n - k,
            {
                if cursors[k] < self.machines[k].len() {
                    if best == n {
                        best = k;
                    } else if self.machines[k][cursors[k]].le(
                        self.machines[best][cursors[best]],
                    ) {
                        best = k;
                    }
                }
                k = k + 1;
            }
            if best == n {
                break ;
            }
            let c: usize = cursors[best];
            let blen: usize = self.machines[best].len();
            assert(c < blen);
            let c1: usize = c + 1;
            let x = self.machines[best][c];
            let ghost prev_cursors = cursors@;
            let ghost prev_out = out@;
            let ghost new_cs = prev_cursors.update(best as int, c1);
            proof {
                lemma_num_inside_zero(prev_cursors);
                lemma_num_inside_update(prev_cursors, best as int, c1);
                lemma_num_inside_le_len(new_cs);
                lemma_sum_remaining_update(self.machines@, prev_cursors, best as int, c1);
                if c % 2 == 1 {
                    assert(prev_cursors[best as int] % 2 == 1);
                    assert(num_inside(prev_cursors) != 0);
                }
            }
            let count_before: usize = count;
            if c % 2 == 1 {
                count = count - 1;
            } else {
                count = count + 1;
            }
            cursors.set(best, c1);
            let emit = count_before == 0 || count == 0;
            if emit {
                out.push(x);
            }
            proof {
                assert(cursors@ == new_cs);
                lemma_sum_remaining_nonneg(self.machines@, new_cs);
                // the consumed boundary does not exceed anything remaining
                assert forall|k2: int, l: int|
                    0 <= k2 < nn && new_cs[k2] <= l < self.machines@[k2]@.len() implies x.spec_le(
                    #[trigger] self.machines@[k2]@[l],
                ) by {
                    if k2 == best as int {
                        assert(self.machines@[k2]@[c as int].spec_le(self.machines@[k2]@[l]));
                    } else {
                        assert(x.spec_le(self.machines@[k2]@[prev_cursors[k2] as int]));
                        assert(self.machines@[k2]@[prev_cursors[k2] as int].spec_le(
                            self.machines@[k2]@[l],
                        ));
                    }
                }
                // consumed prefixes stay below everything remaining
                assert forall|k1: int, m: int, k2: int, l: int|
                    #![trigger self.machines@[k1]@[m], self.machines@[k2]@[l]]
                    0 <= k1 < nn && 0 <= m < new_cs[k1] && 0 <= k2 < nn && new_cs[k2] <= l
                        < self.machines@[k2]@.len() implies self.machines@[k1]@[m].spec_le(
                    self.machines@[k2]@[l],
                ) by {
                    if k1 == best as int && m == c as int {
                        assert(x.spec_le(self.machines@[k2]@[l]));
                    } else {
                        assert(self.machines@[k1]@[m].spec_le(self.machines@[k2]@[l]));
                    }
                }
                // emitted boundaries stay below everything remaining
                assert forall|m: int, k2: int, l: int|
                    #![trigger out@[m], self.machines@[k2]@[l]]
                    0 <= m < out@.len() && 0 <= k2 < nn && new_cs[k2] <= l
                        < self.machines@[k2]@.len() implies out@[m].spec_le(
                    self.machines@[k2]@[l],
                ) by {
                    if emit && m == prev_out.len() {
                        assert(x.spec_le(self.machines@[k2]@[l]));
                    } else {
                        assert(prev_out[m].spec_le(self.machines@[k2]@[l]));
                    }
                }
                assert forall|m1: int, m2: int| 0 <= m1 <= m2 < out@.len() implies
                    #[trigger] out@[m1].spec_le(out@[m2]) by {
                    if emit && m2 == prev_out.len() {
                        if m1 < m2 {
                            assert(prev_out[m1].spec_le(self.machines@[best as int]@[c as int]));
                        }
                    } else {
                        assert(prev_out[m1].spec_le(prev_out[m2]));
                    }
                }
                // every emitted boundary comes from some operand
                assert forall|m: int| 0 <= m < out@.len() implies (exists|k2: int|
                    0 <= k2 < nn && self.machines@[k2]@.contains(#[trigger] out@[m])) by {
                    if emit && m == prev_out.len() {
                        assert(self.machines@[best as int]@[c as int] == out@[m]);
                        assert(self.machines@[best as int]@.contains(out@[m]));
                    } else {
                        assert(exists|k2: int|
                            0 <= k2 < nn && self.machines@[k2]@.contains(#[trigger] prev_out[m]));
                    }
                }
                // containment at every parameter
                assert forall|q: Boundary| #[trigger] inside_at(out@, q) == (exists|k2: int|
                    0 <= k2 < nn && inside_at(
                        #[trigger] self.machines@[k2]@.take(new_cs[k2] as int),
                        q,
                    )) by {
                    assert(self.machines@[best as int]@.take(c + 1) =~= self.machines@[
                        best as int
                    ]@.take(c as int).push(x));
                    lemma_count_le_push(self.machines@[best as int]@.take(c as int), x, q);
                    if emit {
                        lemma_count_le_push(prev_out, x, q);
                    }
                    if x.spec_le(q) {
                        assert forall|k2: int| 0 <= k2 < nn implies count_le(
                            #[trigger] self.machines@[k2]@.take(new_cs[k2] as int),
                            q,
                        ) == new_cs[k2] by {
                            let tk = self.machines@[k2]@.take(new_cs[k2] as int);
                            assert forall|m: int| 0 <= m < tk.len() implies (#[trigger] tk[m]).spec_le(q) by {
                                if k2 == best as int && m == c as int {
                                } else {
                                    assert(self.machines@[k2]@[m].spec_le(self.machines@[
                                        best as int
                                    ]@[c as int]));
                                }
                            }
                            lemma_count_le_all(tk, q);
                        }
                        assert forall|m: int| 0 <= m < prev_out.len() implies
                            #[trigger] prev_out[m].spec_le(q) by {
                            assert(prev_out[m].spec_le(self.machines@[best as int]@[c as int]));
                        }
                        lemma_count_le_all(prev_out, q);
                        lemma_num_inside_zero(new_cs);
                        let has_inside = exists|k2: int|
                            0 <= k2 < nn && inside_at(
                                #[trigger] self.machines@[k2]@.take(new_cs[k2] as int),
                                q,
                            );
                        let has_odd = exists|k2: int|
                            0 <= k2 < nn && (#[trigger] new_cs[k2]) % 2 == 1;
                        if has_inside {
                            let kw = choose|k2: int|
                                0 <= k2 < nn && inside_at(
                                    #[trigger] self.machines@[k2]@.take(new_cs[k2] as int),
                                    q,
                                );
                            assert((new_cs[kw]) % 2 == 1);
                            assert(has_odd);
                        }
                        if has_odd {
                            let kw = choose|k2: int|
                                0 <= k2 < nn && (#[trigger] new_cs[k2]) % 2 == 1;
                            assert(inside_at(self.machines@[kw]@.take(new_cs[kw] as int), q));
                            assert(has_inside);
                        }
                        if !has_odd {
                            assert forall|k2: int| 0 <= k2 < nn implies (#[trigger] new_cs[k2]) % 2
                                == 0 by {
                                if new_cs[k2] % 2 == 1 {
                                    assert(has_odd);
                                }
                            }
                            assert(num_inside(new_cs) == 0);
                        }
                        assert(has_odd == (num_inside(new_cs) > 0));
                        assert(count_le(out@, q) == prev_out.len() + if emit {
                            1int
                        } else {
                            0int
                        });
                    } else {
                        assert(count_le(self.machines@[best as int]@.take(c + 1), q) == count_le(
                            self.machines@[best as int]@.take(c as int),
                            q,
                        ));
                        assert(inside_at(prev_out, q) == (exists|k2: int|
                            0 <= k2 < nn && inside_at(
                                #[trigger] self.machines@[k2]@.take(prev_cursors[k2] as int),
                                q,
                            )));
                        assert forall|k2: int| 0 <= k2 < nn implies inside_at(
                            #[trigger] self.machines@[k2]@.take(new_cs[k2] as int),
                            q,
                        ) == inside_at(self.machines@[k2]@.take(prev_cursors[k2] as int), q) by {
                            if k2 != best as int {
                                assert(new_cs[k2] == prev_cursors[k2]);
                            }
                        }
                        let has_new = exists|k2: int|
                            0 <= k2 < nn && inside_at(
                                #[trigger] self.machines@[k2]@.take(new_cs[k2] as int),
                                q,
                            );
                        let has_prev = exists|k2: int|
                            0 <= k2 < nn && inside_at(
                                #[trigger] self.machines@[k2]@.take(prev_cursors[k2] as int),
                                q,
                            );
                        if has_new {
                            let kw = choose|k2: int|
                                0 <= k2 < nn && inside_at(
                                    #[trigger] self.machines@[k2]@.take(new_cs[k2] as int),
                                    q,
                                );
                            assert(inside_at(
                                self.machines@[kw]@.take(prev_cursors[kw] as int),
                                q,
                            ));
                            assert(has_prev);
                        }
                        if has_prev {
                            let kw = choose|k2: int|
                                0 <= k2 < nn && inside_at(
                                    #[trigger] self.machines@[k2]@.take(prev_cursors[k2] as int),
                                    q,
                                );
                            assert(inside_at(self.machines@[kw]@.take(new_cs[kw] as int), q));
                            assert(has_new);
                        }
                    }
                }
            }
            proof {
                let rem_prev = remaining_views(self.machines@, prev_cursors);
                let pars_prev = cursor_parities(prev_cursors);
                let rem_new = remaining_views(self.machines@, new_cs);
                let pars_new = cursor_parities(new_cs);
                lemma_best_head_index(rem_prev);
                let sb = best_head_index(rem_prev);
                // remaining heads are the operands' next boundaries
                assert forall|k2: int|
                    0 <= k2 < nn && prev_cursors[k2] < self.machines@[k2]@.len() implies
                    #[trigger] rem_prev[k2][0] == self.machines@[k2]@[prev_cursors[k2] as int] by {}
                assert(rem_prev[best as int].len() > 0);
                assert(sb != -1);
                // the exec selection and the canonical selection agree
                assert(sb == best as int) by {
                    if sb < best as int {
                        assert(rem_prev[sb][0].spec_lt(rem_prev[best as int][0]));
                        assert(self.machines@[best as int]@[c as int].spec_le(
                            self.machines@[sb]@[prev_cursors[sb] as int],
                        ));
                    }
                    if sb > best as int {
                        assert(rem_prev[sb][0].spec_le(rem_prev[best as int][0]));
                        assert(self.machines@[best as int]@[c as int].spec_lt(
                            self.machines@[sb]@[prev_cursors[sb] as int],
                        ));
                    }
                }
                assert(rem_prev[best as int][0] == x);
                let streams2 = rem_prev.update(best as int, rem_prev[best as int].skip(1));
                let ps2 = pars_prev.update(best as int, !pars_prev[best as int]);
                assert(streams2 =~= rem_new) by {
                    assert forall|k2: int| 0 <= k2 < nn implies #[trigger] streams2[k2]
                        == rem_new[k2] by {
                        if k2 == best as int {
                            assert(self.machines@[k2]@.skip(c as int).skip(1) =~= self.machines@[
                                k2
                            ]@.skip(c1 as int));
                        }
                    }
                }
                assert(ps2 =~= pars_new);
                // the "any operand inside" predicate is the count being positive
                let has_odd_prev = exists|k2: int|
                    0 <= k2 < nn && (#[trigger] prev_cursors[k2]) % 2 == 1;
                if !has_odd_prev {
                    assert forall|k2: int| 0 <= k2 < nn implies (#[trigger] prev_cursors[k2]) % 2
                        == 0 by {
                        if prev_cursors[k2] % 2 == 1 {
                            assert(has_odd_prev);
                        }
                    }
                }
                assert(has_odd_prev == (count_before > 0));
                assert(any_inside(pars_prev) == has_odd_prev) by {
                    if any_inside(pars_prev) {
                        let kw = choose|k2: int| 0 <= k2 < pars_prev.len() && #[trigger] pars_prev[k2];
                        assert(prev_cursors[kw] % 2 == 1);
                    }
                    if has_odd_prev {
                        let kw = choose|k2: int|
                            0 <= k2 < nn && (#[trigger] prev_cursors[k2]) % 2 == 1;
                        assert(pars_prev[kw]);
                        assert(any_inside(pars_prev));
                    }
                }
                lemma_num_inside_zero(new_cs);
                let has_odd_new = exists|k2: int|
                    0 <= k2 < nn && (#[trigger] new_cs[k2]) % 2 == 1;
                if !has_odd_new {
                    assert forall|k2: int| 0 <= k2 < nn implies (#[trigger] new_cs[k2]) % 2
                        == 0 by {
                        if new_cs[k2] % 2 == 1 {
                            assert(has_odd_new);
                        }
                    }
                }
                assert(has_odd_new == (count > 0));
                assert(any_inside(pars_new) == has_odd_new) by {
                    if any_inside(pars_new) {
                        let kw = choose|k2: int| 0 <= k2 < pars_new.len() && #[trigger] pars_new[k2];
                        assert(new_cs[kw] % 2 == 1);
                    }
                    if has_odd_new {
                        let kw = choose|k2: int| 0 <= k2 < nn && (#[trigger] new_cs[k2]) % 2 == 1;
                        assert(pars_new[kw]);
                        assert(any_inside(pars_new));
                    }
                }
                // the exec step is one unfolding of the canonical merge
                let rest = vec_merge_spec(streams2, ps2);
                assert(vec_merge_spec(rem_prev, pars_prev) == if emit {
                    seq![x] + rest
                } else {
                    rest
                });
                if emit {
                    assert(prev_out.push(x) + rest =~= prev_out + (seq![x] + rest));
                }
                assert(vec_merge_spec(rem_new, pars_new) == rest);
                assert(out@ + vec_merge_spec(rem_new, pars_new) == whole);
            }
        }
        proof {
            let rem = remaining_views(self.machines@, cursors@);
            lemma_best_head_index(rem);
            assert forall|k: int| 0 <= k < nn implies (#[trigger] rem[k]).len() == 0 by {
                assert(cursors@[k] == self.machines@[k]@.len());
            }
            assert(best_head_index(rem) == -1);
            assert(vec_merge_spec(rem, cursor_parities(cursors@)) == Seq::<Boundary>::empty());
            assert(out@ + Seq::<Boundary>::empty() =~= out@);
            lemma_vec_merge_spec_len(full_streams, all_outside(nn));
            assert forall|q: Boundary| #[trigger] inside_at(out@, q) == (exists|k: int|
                0 <= k < nn && inside_at(#[trigger] self.machines@[k]@, q)) by {
                assert forall|k: int| 0 <= k < nn implies #[trigger] self.machines@[k]@.take(
                    cursors@[k] as int,
                ) == self.machines@[k]@ by {
                    assert(self.machines@[k]@.take(cursors@[k] as int) =~= self.machines@[k]@);
                }
                let has_take = exists|k: int|
                    0 <= k < nn && inside_at(
                        #[trigger] self.machines@[k]@.take(cursors@[k] as int),
                        q,
                    );
                let has_full = exists|k: int|
                    0 <= k < nn && inside_at(#[trigger] self.machines@[k]@, q);
                if has_take {
                    let kw = choose|k: int|
                        0 <= k < nn && inside_at(
                            #[trigger] self.machines@[k]@.take(cursors@[k] as int),
                            q,
                        );
                    assert(inside_at(self.machines@[kw]@, q));
                    assert(has_full);
                }
                if has_full {
                    let kw = choose|k: int|
                        0 <= k < nn && inside_at(#[trigger] self.machines@[k]@, q);
                    assert(inside_at(self.machines@[kw]@.take(cursors@[kw] as int), q));
                    assert(has_take);
                }
            }
        }
        out
    }
}

} // verus!
