//! Interval-algebra core of a constructive-solid-geometry ray intersector.
//!
//! A solid's intersection with a ray is an ascending stream of boundaries,
//! parameters at which containment flips between outside and inside. This
//! crate holds the verified set algebra on such streams: the binary and
//! n-ary combinators that merge operand streams into the stream of a union,
//! intersection or difference, and the emission logic of the primitive
//! intersectors. Scalar geometry (dot products, square roots, affine maps)
//! happens outside; the combinators only ever compare boundaries, so a
//! finite boundary carries an order key rather than a machine real.

pub mod boundary;
pub mod merge;
pub mod primitives;
pub mod range_difference;
pub mod range_intersect;
pub mod range_union;
pub mod range_vec_union;
