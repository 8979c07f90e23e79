//! Scalars: drawing, decoding and hashing.
use crate::group::Scalar;
use crate::primitives::{group_order, hash_scalar, le_value};
use rand_core::OsRng;
use vstd::prelude::*;

verus! {

/// A scalar drawn uniformly: 32 random bytes reduced mod ℓ.
pub fn random(rng: &mut OsRng) -> (r: Scalar) {
    crate::group::scalar_random(rng)
}

/// The scalar that a canonical encoding stands for; `None` when the value is
/// not below ℓ.
pub fn from_canonical(bytes: [u8; 32]) -> (r: Option<Scalar>)
    ensures
        r is Some <==> le_value(bytes@) < group_order(),
        r matches Some(s) ==> s@ == le_value(bytes@),
{
    crate::group::scalar_from_canonical(bytes)
}

/// The scalar zero.
pub fn zero() -> (r: Scalar)
    ensures
        r@ == 0,
{
    crate::group::scalar_zero()
}

/// The SHA-512 digest of `data`, reduced mod ℓ.
pub fn from_hash(data: &[u8]) -> (r: Scalar)
    ensures
        r@ == hash_scalar(data@),
{
    crate::group::scalar_from_hash(data)
}

} // verus!
