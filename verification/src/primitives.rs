//! Emission logic of the primitive intersectors.
//!
//! The analytic part of each tracer — dot products, the quadratic, square
//! roots, the plane division — happens outside on machine scalars; what
//! arrives here are the candidate boundaries in key order and the branch
//! flags. These functions hold the decision logic: what is emitted, in what
//! order, and when the stream is empty.

use vstd::prelude::*;

use crate::boundary::ascending;
use crate::boundary::inside_at;
use crate::boundary::lemma_pair_inside;
use crate::boundary::spec_max;
use crate::boundary::spec_min;
use crate::boundary::Boundary;

verus! {

/// Sphere: a missing ray (negative discriminant) yields the empty stream;
/// otherwise exactly the two quadratic roots in ascending order. A tangent
/// ray repeats one root as a zero-width pair.
pub fn sphere_boundaries(hit: bool, t_enter: Boundary, t_exit: Boundary) -> (out: Vec<Boundary>)
    requires
        hit ==> t_enter.spec_le(t_exit),
    ensures
        ascending(out@),
        hit ==> out@ == seq![t_enter, t_exit],
        !hit ==> out@ == Seq::<Boundary>::empty(),
{
    let mut out: Vec<Boundary> = Vec::new();
    if hit {
        out.push(t_enter);
        out.push(t_exit);
        proof {
            assert(out@ =~= seq![t_enter, t_exit]);
        }
    } else {
        proof {
            assert(out@ =~= Seq::<Boundary>::empty());
        }
    }
    out
}

/// The radial interval clamped by the axial slab: the stream the cylinder
/// emits when the ray crosses the axial planes.
pub open spec fn clamped_stream(
    r1: Boundary,
    r2: Boundary,
    slab_a: Boundary,
    slab_b: Boundary,
) -> Seq<Boundary> {
    let lo = spec_max(r1, spec_min(slab_a, slab_b));
    let hi = spec_min(r2, spec_max(slab_a, slab_b));
    if hi.spec_lt(lo) {
        Seq::<Boundary>::empty()
    } else {
        seq![lo, hi]
    }
}

/// Cylinder: the radial quadratic gives the interval `[r1, r2]` (or a miss
/// when its discriminant is negative). A ray that crosses the axial planes
/// is clamped to the slab between them, whichever order it meets them in;
/// a ray that never crosses them (axis coordinate of the direction is zero)
/// passes the radial interval through unclamped. The clamped stream is
/// exactly the intersection of the radial and slab intervals, pointwise.
pub fn cylinder_boundaries(
    hit: bool,
    r1: Boundary,
    r2: Boundary,
    slab_parallel: bool,
    slab_a: Boundary,
    slab_b: Boundary,
) -> (out: Vec<Boundary>)
    requires
        hit ==> r1.spec_le(r2),
    ensures
        ascending(out@),
        !hit ==> out@ == Seq::<Boundary>::empty(),
        (hit && slab_parallel) ==> out@ == seq![r1, r2],
        (hit && !slab_parallel) ==> out@ == clamped_stream(r1, r2, slab_a, slab_b),
        (hit && !slab_parallel) ==> forall|q: Boundary|
            #[trigger] inside_at(out@, q) == (inside_at(seq![r1, r2], q) && inside_at(
                seq![spec_min(slab_a, slab_b), spec_max(slab_a, slab_b)],
                q,
            )),
{
    let mut out: Vec<Boundary> = Vec::new();
    if !hit {
        proof {
            assert(out@ =~= Seq::<Boundary>::empty());
        }
        return out;
    }
    if slab_parallel {
        out.push(r1);
        out.push(r2);
        proof {
            assert(out@ =~= seq![r1, r2]);
        }
        return out;
    }
    let lo = r1.max(slab_a.min(slab_b));
    let hi = r2.min(slab_a.max(slab_b));
    if !hi.lt(lo) {
        out.push(lo);
        out.push(hi);
        proof {
            assert(out@ =~= seq![lo, hi]);
        }
    } else {
        proof {
            assert(out@ =~= Seq::<Boundary>::empty());
        }
    }
    proof {
        let slo = spec_min(slab_a, slab_b);
        let shi = spec_max(slab_a, slab_b);
        assert forall|q: Boundary|
            #[trigger] inside_at(out@, q) == (inside_at(seq![r1, r2], q) && inside_at(
                seq![slo, shi],
                q,
            )) by {
            lemma_pair_inside(r1, r2, q);
            lemma_pair_inside(slo, shi, q);
            if !hi.spec_lt(lo) {
                lemma_pair_inside(lo, hi, q);
            }
        }
    }
    out
}

/// Half-space clip plane: a ray parallel to the plane is either always
/// inside (the unbounded pair) or never; a crossing ray is inside on one
/// side of the threshold, the side given by the sign of the direction's
/// component along the normal (`entering` means that component is negative,
/// so the ray moves into the inside half and stays there).
pub fn halfspace_boundaries(
    parallel: bool,
    origin_inside: bool,
    entering: bool,
    threshold: Boundary,
) -> (out: Vec<Boundary>)
    ensures
        ascending(out@),
        (parallel && origin_inside) ==> out@ == seq![Boundary::NegInf, Boundary::PosInf],
        (parallel && !origin_inside) ==> out@ == Seq::<Boundary>::empty(),
        (!parallel && entering) ==> out@ == seq![threshold, Boundary::PosInf],
        (!parallel && !entering) ==> out@ == seq![Boundary::NegInf, threshold],
{
    let mut out: Vec<Boundary> = Vec::new();
    if parallel {
        if origin_inside {
            out.push(Boundary::NegInf);
            out.push(Boundary::PosInf);
            proof {
                assert(out@ =~= seq![Boundary::NegInf, Boundary::PosInf]);
            }
        } else {
            proof {
                assert(out@ =~= Seq::<Boundary>::empty());
            }
        }
    } else if entering {
        out.push(threshold);
        out.push(Boundary::PosInf);
        proof {
            assert(out@ =~= seq![threshold, Boundary::PosInf]);
        }
    } else {
        out.push(Boundary::NegInf);
        out.push(threshold);
        proof {
            assert(out@ =~= seq![Boundary::NegInf, threshold]);
        }
    }
    out
}

} // verus!
