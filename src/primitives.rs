//! The group and hash backend: scalars mod the group order, Ristretto points,
//! SHA-512 and the operating-system RNG.
//!
//! A scalar is held as its canonical 32-byte little-endian encoding and is
//! modelled by the integer it encodes. A point is held as its canonical
//! 32-byte compressed encoding and is modelled by its discrete logarithm with
//! respect to the Ristretto basepoint: the group has prime order, so every
//! element is `k·G` for exactly one `k` in `[0, group_order())`.
use curve25519_dalek::ristretto::{CompressedRistretto, RistrettoPoint};
use curve25519_dalek::traits::MultiscalarMul;
use digest::Digest;
use rand::Rng;
use rand_core::{OsRng, RngCore};
use sha2::Sha512;
use vstd::prelude::*;

verus! {

#[verifier::external_type_specification]
#[verifier::external_body]
pub struct ExOsRng(OsRng);

/// The prime order ℓ = 2^252 + 27742317777372353535851937790883648493 of the
/// Ristretto group.
pub open spec fn group_order() -> int {
    (85070591730234615865843651857942052864 * 85070591730234615865843651857942052864
        + 27742317777372353535851937790883648493) as int
}

/// The integer that a byte string encodes, least significant byte first.
pub open spec fn le_value(b: Seq<u8>) -> int
    decreases b.len(),
{
    if b.len() == 0 {
        0
    } else {
        b[0] as int + 256 * le_value(b.subrange(1, b.len() as int))
    }
}

/// Little-endian values are never negative.
pub broadcast proof fn lemma_le_nonneg(b: Seq<u8>)
    ensures
        0 <= #[trigger] le_value(b),
    decreases b.len(),
{
    if b.len() > 0 {
        lemma_le_nonneg(b.subrange(1, b.len() as int));
    }
}

/// A canonical scalar encoding: 32 bytes whose value is below the group order.
pub open spec fn is_scalar(b: Seq<u8>) -> bool {
    b.len() == 32 && le_value(b) < group_order()
}

/// The compressed encoding of the point `k·G`.
pub uninterp spec fn encoding_of(k: int) -> Seq<u8>;

/// SHA-512 of a byte string.
pub uninterp spec fn sha512_of(data: Seq<u8>) -> Seq<u8>;

/// The compressed encoding of the point that the Ristretto uniform-bytes map
/// sends a 64-byte string to.
pub uninterp spec fn uniform_point(b: Seq<u8>) -> Seq<u8>;

/// `b` is the encoding of `k·G`, and of no other multiple of `G`: the
/// Ristretto encoding is canonical, one encoding per group element.
pub open spec fn encodes(b: Seq<u8>, k: int) -> bool {
    &&& 0 <= k < group_order()
    &&& encoding_of(k) == b
    &&& forall|j: int| 0 <= j < group_order() && #[trigger] encoding_of(j) == b ==> j == k
}

/// `b` is the canonical encoding of a group element.
pub open spec fn is_point(b: Seq<u8>) -> bool {
    exists|k: int| encodes(b, k)
}

/// The discrete logarithm of an encoded point with respect to `G`.
pub open spec fn log_of(b: Seq<u8>) -> int {
    choose|k: int| encodes(b, k)
}

/// The encoding of `a·P + b·Q`.
pub open spec fn lin(a: int, p: Seq<u8>, b: int, q: Seq<u8>) -> Seq<u8> {
    encoding_of((a * log_of(p) + b * log_of(q)) % group_order())
}

/// The scalar that a hash input is folded into: SHA-512, reduced mod ℓ.
pub open spec fn hash_scalar(data: Seq<u8>) -> int {
    le_value(sha512_of(data)) % group_order()
}

/// The hash-to-point map: SHA-512 of the input fed to the uniform-bytes map.
pub open spec fn hash_point(b: Seq<u8>) -> Seq<u8> {
    uniform_point(sha512_of(b))
}

pub proof fn lemma_log_of(b: Seq<u8>, k: int)
    requires
        encodes(b, k),
    ensures
        log_of(b) == k,
        is_point(b),
{
    let j = log_of(b);
    assert(encodes(b, j));
}

/// Relies on Scalar::from_bytes_mod_order: the 256-bit little-endian value
/// reduced mod ℓ, written back with Scalar::to_bytes.
#[verifier::external_body]
pub(crate) fn reduce32(b: [u8; 32]) -> (r: [u8; 32])
    ensures
        le_value(r@) == le_value(b@) % group_order(),
{
    curve25519_dalek::Scalar::from_bytes_mod_order(b).to_bytes()
}

/// Relies on Scalar::from_bytes_mod_order_wide: the 512-bit little-endian
/// value reduced mod ℓ.
#[verifier::external_body]
pub(crate) fn reduce64(b: &[u8; 64]) -> (r: [u8; 32])
    ensures
        le_value(r@) == le_value(b@) % group_order(),
{
    curve25519_dalek::Scalar::from_bytes_mod_order_wide(b).to_bytes()
}

/// Relies on Scalar::from_canonical_bytes: it succeeds exactly on the
/// encodings of values below ℓ.
#[verifier::external_body]
pub(crate) fn scalar_canonical(b: [u8; 32]) -> (r: bool)
    ensures
        r == (le_value(b@) < group_order()),
{
    bool::from(curve25519_dalek::Scalar::from_canonical_bytes(b).is_some())
}

/// Relies on `Scalar + Scalar`: addition mod ℓ.
#[verifier::external_body]
pub(crate) fn scalar_add(a: [u8; 32], b: [u8; 32]) -> (r: [u8; 32])
    requires
        is_scalar(a@),
        is_scalar(b@),
    ensures
        le_value(r@) == (le_value(a@) + le_value(b@)) % group_order(),
{
    let x = curve25519_dalek::Scalar::from_bytes_mod_order(a);
    let y = curve25519_dalek::Scalar::from_bytes_mod_order(b);
    (x + y).to_bytes()
}

/// Relies on `Scalar - Scalar`: subtraction mod ℓ.
#[verifier::external_body]
pub(crate) fn scalar_sub(a: [u8; 32], b: [u8; 32]) -> (r: [u8; 32])
    requires
        is_scalar(a@),
        is_scalar(b@),
    ensures
        le_value(r@) == (le_value(a@) - le_value(b@)) % group_order(),
{
    let x = curve25519_dalek::Scalar::from_bytes_mod_order(a);
    let y = curve25519_dalek::Scalar::from_bytes_mod_order(b);
    (x - y).to_bytes()
}

/// Relies on `Scalar * Scalar`: multiplication mod ℓ.
#[verifier::external_body]
pub(crate) fn scalar_mul(a: [u8; 32], b: [u8; 32]) -> (r: [u8; 32])
    requires
        is_scalar(a@),
        is_scalar(b@),
    ensures
        le_value(r@) == (le_value(a@) * le_value(b@)) % group_order(),
{
    let x = curve25519_dalek::Scalar::from_bytes_mod_order(a);
    let y = curve25519_dalek::Scalar::from_bytes_mod_order(b);
    (x * y).to_bytes()
}

/// Relies on CompressedRistretto::decompress: it succeeds exactly on the
/// canonical encodings of group elements.
#[verifier::external_body]
pub(crate) fn point_canonical(b: &[u8; 32]) -> (r: bool)
    ensures
        r == is_point(b@),
{
    CompressedRistretto(*b).decompress().is_some()
}

/// Relies on RistrettoPoint::mul_base: the point `s·G`.
#[verifier::external_body]
pub(crate) fn mul_base(s: [u8; 32]) -> (r: [u8; 32])
    requires
        is_scalar(s@),
    ensures
        r@ == encoding_of(le_value(s@)),
        encodes(r@, le_value(s@)),
{
    let x = curve25519_dalek::Scalar::from_bytes_mod_order(s);
    RistrettoPoint::mul_base(&x).compress().to_bytes()
}

/// Relies on `Scalar * RistrettoPoint`: the point `s·P`.
#[verifier::external_body]
pub(crate) fn mul_point(s: [u8; 32], p: &[u8; 32]) -> (r: [u8; 32])
    requires
        is_scalar(s@),
        is_point(p@),
    ensures
        encodes(r@, (le_value(s@) * log_of(p@)) % group_order()),
{
    let x = curve25519_dalek::Scalar::from_bytes_mod_order(s);
    let q = CompressedRistretto(*p).decompress().unwrap();
    (x * q).compress().to_bytes()
}

/// Relies on `RistrettoPoint + RistrettoPoint`: the group operation.
#[verifier::external_body]
pub(crate) fn add_points(p: &[u8; 32], q: &[u8; 32]) -> (r: [u8; 32])
    requires
        is_point(p@),
        is_point(q@),
    ensures
        encodes(r@, (log_of(p@) + log_of(q@)) % group_order()),
{
    let x = CompressedRistretto(*p).decompress().unwrap();
    let y = CompressedRistretto(*q).decompress().unwrap();
    (x + y).compress().to_bytes()
}

/// Relies on RistrettoPoint::multiscalar_mul with two terms: `a·P + b·Q`.
#[verifier::external_body]
pub(crate) fn double_mul(a: [u8; 32], p: &[u8; 32], b: [u8; 32], q: &[u8; 32]) -> (r: [u8; 32])
    requires
        is_scalar(a@),
        is_scalar(b@),
        is_point(p@),
        is_point(q@),
    ensures
        encodes(r@, (le_value(a@) * log_of(p@) + le_value(b@) * log_of(q@)) % group_order()),
{
    let x = curve25519_dalek::Scalar::from_bytes_mod_order(a);
    let y = curve25519_dalek::Scalar::from_bytes_mod_order(b);
    let pp = CompressedRistretto(*p).decompress().unwrap();
    let qq = CompressedRistretto(*q).decompress().unwrap();
    RistrettoPoint::multiscalar_mul(&[x, y], &[pp, qq]).compress().to_bytes()
}

/// Relies on RistrettoPoint::from_uniform_bytes: a group element that is a
/// function of the 64 input bytes.
#[verifier::external_body]
pub(crate) fn from_uniform(b: &[u8; 64]) -> (r: [u8; 32])
    ensures
        r@ == uniform_point(b@),
        is_point(r@),
{
    RistrettoPoint::from_uniform_bytes(b).compress().to_bytes()
}

/// Relies on sha2's Sha512 through digest::Digest::digest: the 64-byte
/// digest of the input.
#[verifier::external_body]
pub(crate) fn sha512(data: &[u8]) -> (r: [u8; 64])
    ensures
        r@ == sha512_of(data@),
{
    Sha512::digest(data).into()
}

/// Relies on RngCore::fill_bytes of OsRng: `N` bytes from the operating
/// system, of which nothing can be promised. It panics only when the
/// operating system's generator fails.
#[verifier::external_body]
pub(crate) fn random_bytes<const N: usize>(rng: &mut OsRng) -> (r: [u8; N]) {
    let mut b = [0u8; N];
    rng.fill_bytes(&mut b);
    b
}

/// Relies on rand_core's OsRng: a handle on the operating system's
/// generator.
#[verifier::external_body]
pub(crate) fn os_rng() -> (r: OsRng) {
    OsRng
}

/// Relies on Rng::gen_range over `0..=n`: an index in that range.
#[verifier::external_body]
pub(crate) fn random_index(rng: &mut OsRng, n: usize) -> (r: usize)
    ensures
        r <= n,
{
    rng.gen_range(0..=n)
}

} // verus!
