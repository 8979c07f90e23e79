use curve25519_dalek::constants::RISTRETTO_BASEPOINT_POINT;
use curve25519_dalek::ristretto::{CompressedRistretto, RistrettoPoint};
use curve25519_dalek::Scalar as DalekScalar;
use digest::Digest;
use rand_core::OsRng;
use ring_signature::blsag::BLSAG;
use ring_signature::clsag::CLSAG;
use ring_signature::{point_random, scalar_random, Point};
use sha2::Sha512;

fn point(b: &[u8; 32]) -> RistrettoPoint {
    CompressedRistretto(*b).decompress().unwrap()
}

fn scalar(b: &[u8; 32]) -> DalekScalar {
    DalekScalar::from_canonical_bytes(*b).unwrap()
}

fn hash_to_scalar(data: &[u8]) -> DalekScalar {
    let d: [u8; 64] = Sha512::digest(data).into();
    DalekScalar::from_bytes_mod_order_wide(&d)
}

fn hash_to_point(p: &RistrettoPoint) -> RistrettoPoint {
    let d: [u8; 64] = Sha512::digest(p.compress().as_bytes()).into();
    RistrettoPoint::from_uniform_bytes(&d)
}

#[test]
fn blsag_chain_recomputed_by_hand() {
    let secret = scalar_random(&mut OsRng);
    let ring: Vec<Point> = (0..3).map(|_| point_random(&mut OsRng)).collect();
    let message = b"layout";
    let sig = BLSAG::sign(&mut OsRng, &secret, ring, message).unwrap();
    let image = point(&sig.image);
    let c0 = scalar(&sig.challenge);
    let mut c = c0;
    for i in 0..sig.ring.len() {
        let p = point(&sig.ring[i]);
        let r = scalar(&sig.response[i]);
        let l = r * RISTRETTO_BASEPOINT_POINT + c * p;
        let rr = r * hash_to_point(&p) + c * image;
        let mut data = message.to_vec();
        data.extend_from_slice(l.compress().as_bytes());
        data.extend_from_slice(rr.compress().as_bytes());
        c = hash_to_scalar(&data);
    }
    assert_eq!(c, c0);
}

#[test]
fn clsag_chain_recomputed_by_hand() {
    let secrets: Vec<_> = (0..2).map(|_| scalar_random(&mut OsRng)).collect();
    let rings: Vec<Vec<Point>> =
        (0..2).map(|_| (0..2).map(|_| point_random(&mut OsRng)).collect()).collect();
    let message = b"layout";
    let sig = CLSAG::sign(&mut OsRng, &secrets, rings, message).unwrap();
    let mut ring_bytes = Vec::new();
    for row in &sig.rings {
        for p in row {
            ring_bytes.extend_from_slice(p);
        }
    }
    let mut image_bytes = Vec::new();
    for p in &sig.images {
        image_bytes.extend_from_slice(p);
    }
    let weights: Vec<DalekScalar> = (0..sig.images.len())
        .map(|j| {
            let mut data = format!("CLSAG_{}", j).into_bytes();
            data.extend_from_slice(&ring_bytes);
            data.extend_from_slice(&image_bytes);
            hash_to_scalar(&data)
        })
        .collect();
    let aggregate_image: RistrettoPoint =
        sig.images.iter().zip(&weights).map(|(p, w)| w * point(p)).sum();
    let c0 = scalar(&sig.challenge);
    let mut c = c0;
    for i in 0..sig.rings.len() {
        let key: RistrettoPoint =
            sig.rings[i].iter().zip(&weights).map(|(p, w)| w * point(p)).sum();
        let r = scalar(&sig.response[i]);
        let l = r * RISTRETTO_BASEPOINT_POINT + c * key;
        let rr = r * hash_to_point(&point(&sig.rings[i][0])) + c * aggregate_image;
        let mut data = b"CLSAG_c".to_vec();
        data.extend_from_slice(&ring_bytes);
        data.extend_from_slice(message);
        data.extend_from_slice(l.compress().as_bytes());
        data.extend_from_slice(rr.compress().as_bytes());
        c = hash_to_scalar(&data);
    }
    assert_eq!(c, c0);
}
