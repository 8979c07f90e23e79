use rand_core::OsRng;
use ring_signature::sag::SAG;
use ring_signature::{point_random, scalar_random, Point};

const DATA: &[u8] = b"hello from zudo";
const X: usize = 2;

fn random_ring(size: usize) -> Vec<Point> {
    (0..size).map(|_| point_random(&mut OsRng)).collect()
}

#[test]
fn sag_sign_verify() {
    let secret_0 = scalar_random(&mut OsRng);
    let secret_1 = scalar_random(&mut OsRng);
    let ring_0 = random_ring(X);
    let ring_1 = random_ring(X);
    let rng = &mut OsRng;
    let a = SAG::sign(rng, &secret_0, ring_0.clone(), DATA).unwrap();
    let b = SAG::sign(rng, &secret_0, ring_1.clone(), DATA).unwrap();
    let c = SAG::sign(rng, &secret_1, ring_0.clone(), DATA).unwrap();
    let d = SAG::sign(rng, &secret_1, ring_1.clone(), DATA).unwrap();
    assert!(a.verify(DATA));
    assert!(b.verify(DATA));
    assert!(c.verify(DATA));
    assert!(d.verify(DATA));
}

#[test]
fn sag_hello_world_and_flipped_message() {
    let secret = scalar_random(&mut OsRng);
    let ring = random_ring(1);
    let sig = SAG::sign(&mut OsRng, &secret, ring, b"hello world").unwrap();
    assert!(sig.verify(b"hello world"));
    let mut other = b"hello world".to_vec();
    let last = other.len() - 1;
    other[last] ^= 1;
    assert!(!sig.verify(&other));
}

#[test]
fn sag_without_decoys() {
    let secret = scalar_random(&mut OsRng);
    let sig = SAG::sign(&mut OsRng, &secret, Vec::new(), DATA).unwrap();
    assert_eq!(sig.ring.len(), 1);
    assert_eq!(sig.response.len(), 1);
    assert!(sig.verify(DATA));
}

#[test]
fn sag_non_canonical_challenge_rejected() {
    let secret = scalar_random(&mut OsRng);
    let mut sig = SAG::sign(&mut OsRng, &secret, random_ring(2), DATA).unwrap();
    sig.challenge = [0xFF; 32];
    assert!(!sig.verify(DATA));
}

#[test]
fn sag_wrong_shapes_rejected() {
    let secret = scalar_random(&mut OsRng);
    let sig = SAG::sign(&mut OsRng, &secret, random_ring(2), DATA).unwrap();
    let mut short = sig.clone();
    short.response.pop();
    assert!(!short.verify(DATA));
    let mut empty = sig.clone();
    empty.ring.clear();
    empty.response.clear();
    assert!(!empty.verify(DATA));
}

#[test]
fn sag_ring_keeps_decoy_order() {
    let secret = scalar_random(&mut OsRng);
    let ring = random_ring(3);
    let sig = SAG::sign(&mut OsRng, &secret, ring.clone(), DATA).unwrap();
    let key = secret.public_key().to_bytes();
    let pos = sig.ring.iter().position(|p| *p == key).unwrap();
    let mut decoys = sig.ring.clone();
    decoys.remove(pos);
    let expected: Vec<[u8; 32]> = ring.iter().map(|p| p.to_bytes()).collect();
    assert_eq!(decoys, expected);
    let mut reversed = ring.clone();
    reversed.reverse();
    let sig_rev = SAG::sign(&mut OsRng, &secret, reversed, DATA).unwrap();
    assert!(sig_rev.verify(DATA));
}

#[test]
fn sag_signer_position_spreads_over_ring() {
    let secret = scalar_random(&mut OsRng);
    let ring = random_ring(2);
    let key = secret.public_key().to_bytes();
    let mut seen = [0usize; 3];
    for _ in 0..60 {
        let sig = SAG::sign(&mut OsRng, &secret, ring.clone(), DATA).unwrap();
        let pos = sig.ring.iter().position(|p| *p == key).unwrap();
        seen[pos] += 1;
    }
    assert!(seen.iter().all(|&n| n > 0));
}
