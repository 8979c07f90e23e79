use rand_core::OsRng;
use ring_signature::clsag::CLSAG;
use ring_signature::mlsag::MLSAG;
use ring_signature::{images, point_random, scalar_random, Point, Scalar};

const DATA_0: &[u8] = b"hello from";
const DATA_1: &str = "zudo";
const X: usize = 2;
const Y: usize = 2;

fn random_secrets(y: usize) -> Vec<Scalar> {
    (0..y).map(|_| scalar_random(&mut OsRng)).collect()
}

fn random_rings(x: usize, y: usize) -> Vec<Vec<Point>> {
    (0..x).map(|_| (0..y).map(|_| point_random(&mut OsRng)).collect()).collect()
}

#[test]
fn clsag_sign_verify() {
    let secrets_0 = random_secrets(Y);
    let secrets_1 = random_secrets(Y);
    let rings_0 = random_rings(X, Y);
    let rings_1 = random_rings(X, Y);
    let rng = &mut OsRng;
    let a = CLSAG::sign(rng, &secrets_0, rings_0.clone(), DATA_0).unwrap();
    let b = CLSAG::sign(rng, &secrets_0, rings_1.clone(), DATA_0).unwrap();
    let c = CLSAG::sign(rng, &secrets_1, rings_0.clone(), DATA_0).unwrap();
    let d = CLSAG::sign(rng, &secrets_1, rings_1.clone(), DATA_0).unwrap();
    assert!(a.verify(DATA_0));
    assert!(b.verify(DATA_0));
    assert!(c.verify(DATA_0));
    assert!(d.verify(DATA_0));
}

#[test]
fn clsag_link() {
    let secrets_0 = random_secrets(Y);
    let secrets_1 = random_secrets(Y);
    let rings_0 = random_rings(X, Y);
    let rings_1 = random_rings(X, Y);
    let rng = &mut OsRng;
    let a = CLSAG::sign(rng, &secrets_0, rings_0.clone(), DATA_1.as_bytes()).unwrap();
    let b = CLSAG::sign(rng, &secrets_0, rings_1.clone(), DATA_0).unwrap();
    let c = CLSAG::sign(rng, &secrets_1, rings_0.clone(), DATA_0).unwrap();
    let d = CLSAG::sign(rng, &secrets_0, rings_1.clone(), DATA_1.as_bytes()).unwrap();
    let e = CLSAG::sign(rng, &secrets_1, rings_0.clone(), DATA_1.as_bytes()).unwrap();
    let f = CLSAG::sign(rng, &secrets_1, rings_1.clone(), DATA_1.as_bytes()).unwrap();
    assert!(CLSAG::link(&[&a.images, &b.images]));
    assert!(!CLSAG::link(&[&a.images, &c.images]));
    assert!(CLSAG::link(&[&a.images, &d.images]));
    assert!(!CLSAG::link(&[&a.images, &e.images]));
    assert!(!CLSAG::link(&[&a.images, &f.images]));
}

#[test]
fn clsag_links_like_mlsag() {
    let secrets = random_secrets(2);
    let other = random_secrets(2);
    let c_0 = CLSAG::sign(&mut OsRng, &secrets, random_rings(1, 2), b"first").unwrap();
    let c_1 = CLSAG::sign(&mut OsRng, &secrets, random_rings(3, 2), b"second").unwrap();
    let c_2 = CLSAG::sign(&mut OsRng, &other, random_rings(1, 2), b"first").unwrap();
    let m_0 = MLSAG::sign(&mut OsRng, &secrets, random_rings(2, 2), b"third").unwrap();
    assert!(c_0.verify(b"first"));
    assert!(c_1.verify(b"second"));
    assert_eq!(c_0.images[0], c_1.images[0]);
    assert!(CLSAG::link(&[&c_0.images, &c_1.images]));
    assert!(!CLSAG::link(&[&c_0.images, &c_2.images]));
    assert_eq!(c_0.images[0], m_0.images[0]);
    assert!(MLSAG::link(&[&c_0.images, &m_0.images]));
    let expected: Vec<[u8; 32]> = images(&secrets).iter().map(|p| p.to_bytes()).collect();
    assert_eq!(c_0.images, expected);
}

#[test]
fn clsag_size_and_shapes() {
    let secrets = random_secrets(3);
    let sig = CLSAG::sign(&mut OsRng, &secrets, random_rings(4, 3), DATA_0).unwrap();
    assert_eq!(sig.response.len(), 5);
    assert_eq!(sig.rings.len(), 5);
    assert!(sig.rings.iter().all(|row| row.len() == 3));
    assert_eq!(sig.images.len(), 3);
    assert!(sig.verify(DATA_0));
    assert!(!sig.verify(DATA_1.as_bytes()));
}

#[test]
fn clsag_structurally_impossible_inputs() {
    assert!(CLSAG::sign(&mut OsRng, &[], random_rings(1, 2), DATA_0).is_none());
    let secrets = random_secrets(2);
    assert!(CLSAG::sign(&mut OsRng, &secrets, random_rings(2, 1), DATA_0).is_none());
    let sig = CLSAG::sign(&mut OsRng, &secrets, Vec::new(), DATA_0).unwrap();
    assert!(sig.verify(DATA_0));
}

#[test]
fn clsag_tampering_rejected() {
    let secrets = random_secrets(2);
    let sig = CLSAG::sign(&mut OsRng, &secrets, random_rings(2, 2), DATA_0).unwrap();
    let mut bad_challenge = sig.clone();
    bad_challenge.challenge = [0xFF; 32];
    assert!(!bad_challenge.verify(DATA_0));
    let mut bad_image = sig.clone();
    bad_image.images[1] = point_random(&mut OsRng).to_bytes();
    assert!(!bad_image.verify(DATA_0));
    let mut short = sig.clone();
    short.response.pop();
    assert!(!short.verify(DATA_0));
}
