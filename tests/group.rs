use curve25519_dalek::constants::RISTRETTO_BASEPOINT_POINT;
use curve25519_dalek::ristretto::{CompressedRistretto, RistrettoPoint};
use digest::Digest;
use rand_core::OsRng;
use ring_signature::{
    image, images, point_from_slice, point_hash, point_random, scalar_from_canonical,
    scalar_from_hash, scalar_random, scalar_zero,
};
use sha2::Sha512;

fn dalek_scalar(s: &ring_signature::Scalar) -> curve25519_dalek::Scalar {
    curve25519_dalek::Scalar::from_canonical_bytes(s.to_bytes()).unwrap()
}

fn dalek_point(p: &ring_signature::Point) -> RistrettoPoint {
    CompressedRistretto(p.to_bytes()).decompress().unwrap()
}

#[test]
fn zero_scalar_is_all_zero_bytes() {
    assert_eq!(scalar_zero().to_bytes(), [0u8; 32]);
    assert_eq!(ring_signature::scalar::zero().to_bytes(), [0u8; 32]);
}

#[test]
fn canonical_scalars_accepted_others_rejected() {
    assert!(scalar_from_canonical([0xFF; 32]).is_none());
    let mut one = [0u8; 32];
    one[0] = 1;
    assert_eq!(scalar_from_canonical(one).unwrap().to_bytes(), one);
    let order: [u8; 32] = curve25519_dalek::constants::BASEPOINT_ORDER.to_bytes();
    assert!(scalar_from_canonical(order).is_none());
    assert!(ring_signature::scalar::from_canonical([0xFF; 32]).is_none());
}

#[test]
fn scalar_from_hash_is_wide_reduction_of_sha512() {
    let s = scalar_from_hash(b"abc");
    let digest: [u8; 64] = Sha512::digest(b"abc").into();
    let expected = curve25519_dalek::Scalar::from_bytes_mod_order_wide(&digest);
    assert_eq!(s.to_bytes(), expected.to_bytes());
    assert_eq!(ring_signature::scalar::from_hash(b"abc").to_bytes(), expected.to_bytes());
}

#[test]
fn points_decode_only_when_canonical() {
    let p = point_random(&mut OsRng);
    assert_eq!(point_from_slice(&p.to_bytes()).unwrap().to_bytes(), p.to_bytes());
    assert!(point_from_slice(&[0xFF; 32]).is_none());
    assert!(ring_signature::point::from_slice(&[0xFF; 32]).is_none());
    let q = ring_signature::point::random();
    assert!(point_from_slice(&q.to_bytes()).is_some());
}

#[test]
fn point_hash_is_uniform_map_of_sha512() {
    let p = point_random(&mut OsRng);
    let digest: [u8; 64] = Sha512::digest(p.to_bytes()).into();
    let expected = RistrettoPoint::from_uniform_bytes(&digest).compress().to_bytes();
    assert_eq!(point_hash(p).to_bytes(), expected);
    assert_eq!(ring_signature::point::hash(p).to_bytes(), expected);
    assert_ne!(point_hash(p).to_bytes(), p.to_bytes());
}

#[test]
fn public_key_and_image_match_the_group() {
    let s = scalar_random(&mut OsRng);
    let ds = dalek_scalar(&s);
    let public = ds * RISTRETTO_BASEPOINT_POINT;
    assert_eq!(s.public_key().to_bytes(), public.compress().to_bytes());
    let base = dalek_point(&point_hash(s.public_key()));
    assert_eq!(image(&s).to_bytes(), (ds * base).compress().to_bytes());
    let t = scalar_random(&mut OsRng);
    assert_ne!(image(&s).to_bytes(), image(&t).to_bytes());
}

#[test]
fn images_share_the_first_base() {
    let s = vec![scalar_random(&mut OsRng), scalar_random(&mut OsRng)];
    let out = images(&s);
    assert_eq!(out.len(), 2);
    let base = dalek_point(&point_hash(s[0].public_key()));
    assert_eq!(out[0].to_bytes(), image(&s[0]).to_bytes());
    assert_eq!(out[1].to_bytes(), (dalek_scalar(&s[1]) * base).compress().to_bytes());
    assert!(images(&[]).is_empty());
}

#[test]
fn scalar_random_draws_differ() {
    let a = ring_signature::scalar::random(&mut OsRng);
    let b = scalar_random(&mut OsRng);
    assert_ne!(a.to_bytes(), b.to_bytes());
}
