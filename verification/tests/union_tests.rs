use csg_trace::boundary::Boundary;
use csg_trace::range_union::RangeUnion;
use csg_trace::range_vec_union::RangeVecUnion;

/// Encode an `f32` scalar as a boundary: a strictly monotone map of the
/// finite floats into `u64` keys, infinities to the unbounded variants.
fn fb(v: f32) -> Boundary {
    if v == f32::INFINITY {
        return Boundary::PosInf;
    }
    if v == f32::NEG_INFINITY {
        return Boundary::NegInf;
    }
    assert!(!v.is_nan());
    let b: u32 = v.to_bits();
    let k: u32 = if b & 0x8000_0000 != 0 { !b } else { b | 0x8000_0000 };
    Boundary::Finite(k as u64)
}

fn union2(obj1: Vec<Boundary>, obj2: Vec<Boundary>) -> Vec<Boundary> {
    RangeUnion::new(obj1, obj2).boundaries()
}

fn union_vec(objects: Vec<Vec<Boundary>>) -> Vec<Boundary> {
    RangeVecUnion::new(objects).boundaries()
}

#[test]
fn range_union_union_null() {
    let obj1: Vec<Boundary> = vec![];
    let obj2: Vec<Boundary> = vec![];
    let union: Vec<Boundary> = union2(obj1, obj2);
    assert_eq!(union, vec![]);
}

#[test]
fn range_union_union_single() {
    let obj1: Vec<Boundary> = vec![fb(0.0), fb(1.0)];
    let obj2: Vec<Boundary> = vec![];
    let union: Vec<Boundary> = union2(obj1, obj2);
    assert_eq!(union, vec![fb(0.0), fb(1.0)]);

    let obj1: Vec<Boundary> = vec![];
    let obj2: Vec<Boundary> = vec![fb(0.0), fb(1.0)];
    let union: Vec<Boundary> = union2(obj1, obj2);
    assert_eq!(union, vec![fb(0.0), fb(1.0)]);
}

#[test]
fn range_union_union_intersect_once() {
    let obj1: Vec<Boundary> = vec![fb(0.0), fb(1.0)];
    let obj2: Vec<Boundary> = vec![fb(0.5), fb(2.0)];
    let union: Vec<Boundary> = union2(obj1, obj2);
    assert_eq!(union, vec![fb(0.0), fb(2.0)]);
}

#[test]
fn range_union_union_contain() {
    let obj1: Vec<Boundary> = vec![fb(0.0), fb(1.0)];
    let obj2: Vec<Boundary> = vec![fb(0.5), fb(0.7)];
    let union: Vec<Boundary> = union2(obj1, obj2);
    assert_eq!(union, vec![fb(0.0), fb(1.0)]);
}

#[test]
fn range_union_union_multiple() {
    let obj1: Vec<Boundary> = vec![fb(0.0), fb(1.0), fb(2.0), fb(3.0)];
    let obj2: Vec<Boundary> = vec![fb(0.5), fb(2.5)];
    let union: Vec<Boundary> = union2(obj1, obj2);
    assert_eq!(union, vec![fb(0.0), fb(3.0)]);
}

#[test]
fn range_vec_union_union_null() {
    let obj1: Vec<Boundary> = vec![];
    let obj2: Vec<Boundary> = vec![];
    let union: Vec<Boundary> = union_vec(vec![obj1, obj2]);
    assert_eq!(union, vec![]);
}

#[test]
fn range_vec_union_union_single() {
    let obj1: Vec<Boundary> = vec![fb(0.0), fb(1.0)];
    let obj2: Vec<Boundary> = vec![];
    let union: Vec<Boundary> = union_vec(vec![obj1, obj2]);
    assert_eq!(union, vec![fb(0.0), fb(1.0)]);

    let obj1: Vec<Boundary> = vec![];
    let obj2: Vec<Boundary> = vec![fb(0.0), fb(1.0)];
    let union: Vec<Boundary> = union_vec(vec![obj1, obj2]);
    assert_eq!(union, vec![fb(0.0), fb(1.0)]);
}

#[test]
fn range_vec_union_union_intersect_once() {
    let obj1: Vec<Boundary> = vec![fb(0.0), fb(1.0)];
    let obj2: Vec<Boundary> = vec![fb(0.5), fb(2.0)];
    let union: Vec<Boundary> = union_vec(vec![obj1, obj2]);
    assert_eq!(union, vec![fb(0.0), fb(2.0)]);
}

#[test]
fn range_vec_union_union_contain() {
    let obj1: Vec<Boundary> = vec![fb(0.0), fb(1.0)];
    let obj2: Vec<Boundary> = vec![fb(0.5), fb(0.7)];
    let union: Vec<Boundary> = union_vec(vec![obj1, obj2]);
    assert_eq!(union, vec![fb(0.0), fb(1.0)]);
}

#[test]
fn range_vec_union_union_multiple() {
    let obj1: Vec<Boundary> = vec![fb(0.0), fb(1.0), fb(2.0), fb(3.0)];
    let obj2: Vec<Boundary> = vec![fb(0.5), fb(2.5)];
    let union: Vec<Boundary> = union_vec(vec![obj1, obj2]);
    assert_eq!(union, vec![fb(0.0), fb(3.0)]);
}

#[test]
fn union_adjacent_intervals_merge_at_tie() {
    // the operands meet exactly at one boundary; the union is seamless
    let obj1: Vec<Boundary> = vec![fb(0.0), fb(1.0)];
    let obj2: Vec<Boundary> = vec![fb(1.0), fb(2.0)];
    let union: Vec<Boundary> = union2(obj1.clone(), obj2.clone());
    assert_eq!(union, vec![fb(0.0), fb(2.0)]);
    let union: Vec<Boundary> = union_vec(vec![obj1, obj2]);
    assert_eq!(union, vec![fb(0.0), fb(2.0)]);
}

#[test]
fn union_keeps_zero_width_interval() {
    // a tangent ray's zero-width pair passes through a union unfiltered
    let obj1: Vec<Boundary> = vec![fb(1.0), fb(1.0)];
    let obj2: Vec<Boundary> = vec![];
    let union: Vec<Boundary> = union2(obj1, obj2);
    assert_eq!(union, vec![fb(1.0), fb(1.0)]);
}

#[test]
fn union_with_itself_collapses_here() {
    // whether duplicated operands collapse is not promised in general; this
    // records what the merge does on one such input
    let obj: Vec<Boundary> = vec![fb(0.0), fb(1.0)];
    let union: Vec<Boundary> = union2(obj.clone(), obj.clone());
    assert_eq!(union, vec![fb(0.0), fb(1.0)]);
}

#[test]
fn vec_union_three_operands() {
    let obj1: Vec<Boundary> = vec![fb(0.0), fb(1.0)];
    let obj2: Vec<Boundary> = vec![fb(0.5), fb(2.0)];
    let obj3: Vec<Boundary> = vec![fb(3.0), fb(4.0)];
    let union: Vec<Boundary> = union_vec(vec![obj1, obj2, obj3]);
    assert_eq!(union, vec![fb(0.0), fb(2.0), fb(3.0), fb(4.0)]);
}

#[test]
fn union_unbounded_operand_swallows_everything() {
    let obj1: Vec<Boundary> = vec![Boundary::NegInf, Boundary::PosInf];
    let obj2: Vec<Boundary> = vec![fb(0.0), fb(1.0)];
    let union: Vec<Boundary> = union2(obj1, obj2);
    assert_eq!(union, vec![Boundary::NegInf, Boundary::PosInf]);
}
