//! Linkable ring signatures over the Ristretto group.
//!
//! Four schemes share one challenge chain (`kernel`): SAG (no key image),
//! BLSAG (one key image), MLSAG (one image per column, a challenge per row
//! over all columns) and CLSAG (columns folded into one with hashed
//! weights). Each signs with the operating system's generator (`sign`) or
//! with randomness handed in (`sign_with`), verifies with an exact contract,
//! and encodes to and from bytes (`codec`). Group arithmetic, SHA-512 and
//! the generator are reached through the trusted items of `primitives`.
pub mod blsag;
pub mod bytes;
pub mod clsag;
pub mod codec;
pub mod group;
pub mod kernel;
pub mod laws;
pub mod mlsag;
pub mod point;
pub mod primitives;
pub mod rows;
pub mod sag;
pub mod scalar;

pub use group::{
    image, images, point_from_slice, point_hash, point_random, scalar_from_canonical,
    scalar_from_hash, scalar_random, scalar_zero, Point, Scalar,
};
