use csg_trace::boundary::contains_point;
use csg_trace::boundary::is_ascending;
use csg_trace::boundary::Boundary;
use csg_trace::range_difference::RangeDifference;
use csg_trace::range_intersect::RangeIntersect;

/// Encode an `f32` scalar as a boundary: a strictly monotone map of the
/// finite floats into `u64` keys, infinities to the unbounded variants.
fn fb(v: f32) -> Boundary {
    if v == f32::INFINITY {
        return Boundary::PosInf;
    }
    if v == f32::NEG_INFINITY {
        return Boundary::NegInf;
    }
    assert!(!v.is_nan());
    let b: u32 = v.to_bits();
    let k: u32 = if b & 0x8000_0000 != 0 { !b } else { b | 0x8000_0000 };
    Boundary::Finite(k as u64)
}

#[test]
fn intersect_overlap() {
    let obj1: Vec<Boundary> = vec![fb(0.0), fb(4.0)];
    let obj2: Vec<Boundary> = vec![fb(1.0), fb(2.0)];
    let out: Vec<Boundary> = RangeIntersect::new(obj1, obj2).boundaries();
    assert_eq!(out, vec![fb(1.0), fb(2.0)]);
}

#[test]
fn intersect_disjoint_is_empty() {
    let obj1: Vec<Boundary> = vec![fb(0.0), fb(1.0)];
    let obj2: Vec<Boundary> = vec![fb(2.0), fb(3.0)];
    let out: Vec<Boundary> = RangeIntersect::new(obj1, obj2).boundaries();
    assert_eq!(out, vec![]);
}

#[test]
fn intersect_with_visibility_window() {
    // boundaries behind the ray's origin are discarded by intersecting with
    // the window [0, +inf)
    let stream: Vec<Boundary> = vec![fb(-3.0), fb(-1.0)];
    let window: Vec<Boundary> = vec![fb(0.0), Boundary::PosInf];
    let out: Vec<Boundary> = RangeIntersect::new(stream, window).boundaries();
    assert_eq!(out, vec![]);

    let stream: Vec<Boundary> = vec![fb(-1.0), fb(3.0)];
    let window: Vec<Boundary> = vec![fb(0.0), Boundary::PosInf];
    let out: Vec<Boundary> = RangeIntersect::new(stream, window).boundaries();
    assert_eq!(out, vec![fb(0.0), fb(3.0)]);
}

#[test]
fn difference_cuts_a_hole() {
    let obj1: Vec<Boundary> = vec![fb(0.0), fb(4.0)];
    let obj2: Vec<Boundary> = vec![fb(1.0), fb(2.0)];
    let out: Vec<Boundary> = RangeDifference::new(obj1, obj2).boundaries();
    assert_eq!(out, vec![fb(0.0), fb(1.0), fb(2.0), fb(4.0)]);
}

#[test]
fn difference_of_disjoint_keeps_first() {
    let obj1: Vec<Boundary> = vec![fb(0.0), fb(1.0)];
    let obj2: Vec<Boundary> = vec![fb(2.0), fb(3.0)];
    let out: Vec<Boundary> = RangeDifference::new(obj1, obj2).boundaries();
    assert_eq!(out, vec![fb(0.0), fb(1.0)]);
}

#[test]
fn difference_midpoints_inside_first_outside_second() {
    // sample each emitted interval's midpoint against the operands'
    // independent containment tests
    let obj1: Vec<Boundary> = vec![fb(0.0), fb(4.0)];
    let obj2: Vec<Boundary> = vec![fb(1.0), fb(2.0)];
    let out: Vec<Boundary> = RangeDifference::new(obj1.clone(), obj2.clone()).boundaries();
    assert_eq!(out.len() % 2, 0);
    let midpoints: Vec<Boundary> = vec![fb(0.5), fb(3.0)];
    for q in midpoints {
        assert!(contains_point(&obj1, q));
        assert!(!contains_point(&obj2, q));
        assert!(contains_point(&out, q));
    }
}

#[test]
fn difference_shared_upper_boundary() {
    // the operands end at the same parameter; the tail of the result is a
    // zero-width pair, passed through unfiltered
    let obj1: Vec<Boundary> = vec![fb(0.0), fb(2.0)];
    let obj2: Vec<Boundary> = vec![fb(1.0), fb(2.0)];
    let out: Vec<Boundary> = RangeDifference::new(obj1, obj2).boundaries();
    assert_eq!(out, vec![fb(0.0), fb(1.0), fb(2.0), fb(2.0)]);
}

#[test]
fn combinator_outputs_are_ascending() {
    let obj1: Vec<Boundary> = vec![fb(-1.0), fb(1.0), fb(2.0), fb(5.0)];
    let obj2: Vec<Boundary> = vec![fb(0.0), fb(3.0)];
    let out: Vec<Boundary> = RangeDifference::new(obj1.clone(), obj2.clone()).boundaries();
    assert!(is_ascending(&out));
    let out: Vec<Boundary> = RangeIntersect::new(obj1, obj2).boundaries();
    assert!(is_ascending(&out));
}

#[test]
fn contains_point_alternates() {
    let stream: Vec<Boundary> = vec![fb(0.0), fb(1.0), fb(2.0), fb(3.0)];
    assert!(!contains_point(&stream, fb(-0.5)));
    assert!(contains_point(&stream, fb(0.5)));
    assert!(!contains_point(&stream, fb(1.5)));
    assert!(contains_point(&stream, fb(2.5)));
    assert!(!contains_point(&stream, fb(3.5)));
}

#[test]
fn is_ascending_rejects_disorder() {
    let good: Vec<Boundary> = vec![Boundary::NegInf, fb(1.0), fb(1.0), Boundary::PosInf];
    assert!(is_ascending(&good));
    let bad: Vec<Boundary> = vec![fb(1.0), fb(0.0)];
    assert!(!is_ascending(&bad));
}
