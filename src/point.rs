//! Points: decoding, drawing and hashing.
use crate::group::Point;
use crate::primitives::{hash_point, is_point, os_rng};
use vstd::prelude::*;

verus! {

/// The point with the given compressed encoding; `None` when the bytes are
/// not the canonical encoding of a group element.
pub fn from_slice(bytes: &[u8; 32]) -> (r: Option<Point>)
    ensures
        r is Some <==> is_point(bytes@),
        r matches Some(p) ==> p@ == bytes@,
{
    crate::group::point_from_slice(bytes)
}

/// A point drawn uniformly with the operating system's generator.
pub fn random() -> (r: Point) {
    let mut rng = os_rng();
    crate::group::point_random(&mut rng)
}

/// The hash-to-point map `Hₚ`.
pub fn hash(point: Point) -> (r: Point)
    ensures
        r@ == hash_point(point@),
{
    crate::group::point_hash(point)
}

} // verus!
