use rand_core::OsRng;
use ring_signature::blsag::BLSAG;
use ring_signature::{image, point_random, scalar_random, Point};

const DATA_0: &[u8] = b"hello from";
const DATA_1: &str = "zudo";
const X: usize = 2;

fn random_ring(size: usize) -> Vec<Point> {
    (0..size).map(|_| point_random(&mut OsRng)).collect()
}

#[test]
fn blsag_sign_verify() {
    let secret_0 = scalar_random(&mut OsRng);
    let secret_1 = scalar_random(&mut OsRng);
    let ring_0 = random_ring(X);
    let ring_1 = random_ring(X);
    let rng = &mut OsRng;
    let a = BLSAG::sign(rng, &secret_0, ring_0.clone(), DATA_0).unwrap();
    let b = BLSAG::sign(rng, &secret_0, ring_1.clone(), DATA_0).unwrap();
    let c = BLSAG::sign(rng, &secret_1, ring_0.clone(), DATA_0).unwrap();
    let d = BLSAG::sign(rng, &secret_1, ring_1.clone(), DATA_0).unwrap();
    assert!(a.verify(DATA_0));
    assert!(b.verify(DATA_0));
    assert!(c.verify(DATA_0));
    assert!(d.verify(DATA_0));
}

#[test]
fn blsag_link() {
    let secret_0 = scalar_random(&mut OsRng);
    let secret_1 = scalar_random(&mut OsRng);
    let ring_0 = random_ring(X);
    let ring_1 = random_ring(X);
    let rng = &mut OsRng;
    let a = BLSAG::sign(rng, &secret_0, ring_0.clone(), DATA_1.as_bytes()).unwrap();
    let b = BLSAG::sign(rng, &secret_0, ring_1.clone(), DATA_0).unwrap();
    let c = BLSAG::sign(rng, &secret_1, ring_0.clone(), DATA_0).unwrap();
    let d = BLSAG::sign(rng, &secret_0, ring_1.clone(), DATA_1.as_bytes()).unwrap();
    let e = BLSAG::sign(rng, &secret_1, ring_0.clone(), DATA_1.as_bytes()).unwrap();
    let f = BLSAG::sign(rng, &secret_1, ring_1.clone(), DATA_1.as_bytes()).unwrap();
    assert!(BLSAG::link(&[a.image, b.image]));
    assert!(!BLSAG::link(&[a.image, c.image]));
    assert!(BLSAG::link(&[a.image, d.image]));
    assert!(!BLSAG::link(&[a.image, e.image]));
    assert!(!BLSAG::link(&[a.image, f.image]));
}

#[test]
fn blsag_link_across_rings_and_messages() {
    let s = scalar_random(&mut OsRng);
    let s_other = scalar_random(&mut OsRng);
    let ring_0 = random_ring(1);
    let ring_1 = random_ring(1);
    let sig_0 = BLSAG::sign(&mut OsRng, &s, ring_0.clone(), b"hello").unwrap();
    let sig_1 = BLSAG::sign(&mut OsRng, &s, ring_1, b"world").unwrap();
    let sig_2 = BLSAG::sign(&mut OsRng, &s_other, ring_0, b"hello").unwrap();
    assert!(sig_0.verify(b"hello"));
    assert!(sig_1.verify(b"world"));
    assert!(BLSAG::link(&[sig_0.image, sig_1.image]));
    assert!(!BLSAG::link(&[sig_0.image, sig_2.image]));
    assert_eq!(sig_0.image, image(&s).to_bytes());
}

#[test]
fn blsag_link_of_nothing_is_false() {
    assert!(!BLSAG::link(&[]));
    assert!(BLSAG::link(&[[7u8; 32]]));
}

#[test]
fn blsag_without_decoys() {
    let secret = scalar_random(&mut OsRng);
    let sig = BLSAG::sign(&mut OsRng, &secret, Vec::new(), DATA_0).unwrap();
    assert!(sig.verify(DATA_0));
    assert!(!sig.verify(DATA_1.as_bytes()));
}

#[test]
fn blsag_tampering_rejected() {
    let secret = scalar_random(&mut OsRng);
    let sig = BLSAG::sign(&mut OsRng, &secret, random_ring(3), DATA_0).unwrap();
    let mut bad_challenge = sig.clone();
    bad_challenge.challenge = [0xFF; 32];
    assert!(!bad_challenge.verify(DATA_0));
    let mut bad_response = sig.clone();
    bad_response.response[1][0] ^= 1;
    assert!(!bad_response.verify(DATA_0));
    let mut bad_image = sig.clone();
    bad_image.image = point_random(&mut OsRng).to_bytes();
    assert!(!bad_image.verify(DATA_0));
    let mut bad_point = sig.clone();
    bad_point.ring[0] = [0xFF; 32];
    assert!(!bad_point.verify(DATA_0));
}
