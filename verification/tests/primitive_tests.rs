use csg_trace::boundary::Boundary;
use csg_trace::primitives::cylinder_boundaries;
use csg_trace::primitives::halfspace_boundaries;
use csg_trace::primitives::sphere_boundaries;
use csg_trace::range_intersect::RangeIntersect;

/// Encode an `f32` scalar as a boundary: a strictly monotone map of the
/// finite floats into `u64` keys, infinities to the unbounded variants.
fn fb(v: f32) -> Boundary {
    if v == f32::INFINITY {
        return Boundary::PosInf;
    }
    if v == f32::NEG_INFINITY {
        return Boundary::NegInf;
    }
    assert!(!v.is_nan());
    let b: u32 = v.to_bits();
    let k: u32 = if b & 0x8000_0000 != 0 { !b } else { b | 0x8000_0000 };
    Boundary::Finite(k as u64)
}

/// The scalar half of the sphere tracer, as the rendering side computes it:
/// the quadratic in `t` for `|o + t*d - c|^2 = r^2` on a unit direction.
fn sphere_trace(
    center: (f32, f32, f32),
    radius: f32,
    origin: (f32, f32, f32),
    direction: (f32, f32, f32),
) -> Vec<Boundary> {
    let oc: (f32, f32, f32) = (origin.0 - center.0, origin.1 - center.1, origin.2 - center.2);
    let uoc: f32 = oc.0 * direction.0 + oc.1 * direction.1 + oc.2 * direction.2;
    let d: f32 = uoc * uoc - (oc.0 * oc.0 + oc.1 * oc.1 + oc.2 * oc.2) + radius * radius;
    if d < 0.0 {
        sphere_boundaries(false, Boundary::NegInf, Boundary::NegInf)
    } else {
        let sd: f32 = d.sqrt();
        sphere_boundaries(true, fb(-uoc - sd), fb(-uoc + sd))
    }
}

#[test]
fn sphere_head_on_hit() {
    let out: Vec<Boundary> = sphere_trace((0.0, 0.0, 0.0), 1.0, (0.0, 0.0, -2.0), (0.0, 0.0, 1.0));
    assert_eq!(out, vec![fb(1.0), fb(3.0)]);
}

#[test]
fn sphere_ray_aimed_away_yields_nothing_visible() {
    // the quadratic still has roots, but both lie behind the origin; the
    // visibility window [0, +inf) leaves nothing
    let out: Vec<Boundary> = sphere_trace((0.0, 0.0, 0.0), 1.0, (0.0, 0.0, -2.0), (0.0, 0.0, -1.0));
    assert_eq!(out, vec![fb(-3.0), fb(-1.0)]);
    let window: Vec<Boundary> = vec![fb(0.0), Boundary::PosInf];
    let visible: Vec<Boundary> = RangeIntersect::new(out, window).boundaries();
    assert_eq!(visible, vec![]);
}

#[test]
fn sphere_miss() {
    let out: Vec<Boundary> = sphere_trace((0.0, 0.0, 0.0), 1.0, (0.0, 0.0, -2.0), (0.0, 1.0, 0.0));
    assert_eq!(out, vec![]);
}

#[test]
fn sphere_tangent_ray_zero_width() {
    // grazing ray: discriminant zero, both roots equal
    let out: Vec<Boundary> = sphere_trace((0.0, 0.0, 0.0), 1.0, (1.0, 0.0, -2.0), (0.0, 0.0, 1.0));
    assert_eq!(out, vec![fb(2.0), fb(2.0)]);
}

#[test]
fn cylinder_clamped_by_slab() {
    // radial interval [2, 4], slab crossings at 1 and 3, in either order
    let out: Vec<Boundary> =
        cylinder_boundaries(true, fb(2.0), fb(4.0), false, fb(1.0), fb(3.0));
    assert_eq!(out, vec![fb(2.0), fb(3.0)]);
    let out: Vec<Boundary> =
        cylinder_boundaries(true, fb(2.0), fb(4.0), false, fb(3.0), fb(1.0));
    assert_eq!(out, vec![fb(2.0), fb(3.0)]);
}

#[test]
fn cylinder_slab_disjoint_is_empty() {
    let out: Vec<Boundary> =
        cylinder_boundaries(true, fb(0.0), fb(1.0), false, fb(2.0), fb(3.0));
    assert_eq!(out, vec![]);
}

#[test]
fn cylinder_parallel_ray_passes_unclamped() {
    let out: Vec<Boundary> =
        cylinder_boundaries(true, fb(2.0), fb(4.0), true, Boundary::NegInf, Boundary::PosInf);
    assert_eq!(out, vec![fb(2.0), fb(4.0)]);
}

#[test]
fn cylinder_radial_miss() {
    let out: Vec<Boundary> =
        cylinder_boundaries(false, Boundary::NegInf, Boundary::NegInf, false, fb(0.0), fb(1.0));
    assert_eq!(out, vec![]);
}

#[test]
fn halfspace_cases() {
    // parallel ray inside: always inside
    let out: Vec<Boundary> = halfspace_boundaries(true, true, false, Boundary::NegInf);
    assert_eq!(out, vec![Boundary::NegInf, Boundary::PosInf]);
    // parallel ray outside: never inside
    let out: Vec<Boundary> = halfspace_boundaries(true, false, false, Boundary::NegInf);
    assert_eq!(out, vec![]);
    // crossing into the inside half
    let out: Vec<Boundary> = halfspace_boundaries(false, false, true, fb(2.0));
    assert_eq!(out, vec![fb(2.0), Boundary::PosInf]);
    // crossing out of the inside half
    let out: Vec<Boundary> = halfspace_boundaries(false, false, false, fb(2.0));
    assert_eq!(out, vec![Boundary::NegInf, fb(2.0)]);
}

#[test]
fn clip_composition_cuts_sphere() {
    // sphere interval [1, 3] clipped to the half-space ending at 2
    let sphere: Vec<Boundary> = vec![fb(1.0), fb(3.0)];
    let plane: Vec<Boundary> = halfspace_boundaries(false, false, false, fb(2.0));
    let out: Vec<Boundary> = RangeIntersect::new(sphere, plane).boundaries();
    assert_eq!(out, vec![fb(1.0), fb(2.0)]);
}
