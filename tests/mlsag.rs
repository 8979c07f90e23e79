use rand_core::OsRng;
use ring_signature::mlsag::MLSAG;
use ring_signature::{point_random, scalar_random, Point, Scalar};

const DATA_0: &[u8] = b"hello from";
const DATA_1: &str = "zudo";
const X: usize = 2;
const Y: usize = 2;

fn random_secrets(y: usize) -> Vec<Scalar> {
    (0..y).map(|_| scalar_random(&mut OsRng)).collect()
}

fn random_rings(x: usize, y: usize) -> Vec<Vec<Point>> {
    (0..x).map(|_| (0..y).map(|_| point_random(&mut OsRng)).collect()).collect()
}

#[test]
fn mlsag_sign_verify() {
    let secrets_0 = random_secrets(Y);
    let secrets_1 = random_secrets(Y);
    let rings_0 = random_rings(X, Y);
    let rings_1 = random_rings(X, Y);
    let rng = &mut OsRng;
    let a = MLSAG::sign(rng, &secrets_0, rings_0.clone(), DATA_0).unwrap();
    let b = MLSAG::sign(rng, &secrets_0, rings_1.clone(), DATA_0).unwrap();
    let c = MLSAG::sign(rng, &secrets_1, rings_0.clone(), DATA_0).unwrap();
    let d = MLSAG::sign(rng, &secrets_1, rings_1.clone(), DATA_0).unwrap();
    assert!(a.verify(DATA_0));
    assert!(b.verify(DATA_0));
    assert!(c.verify(DATA_0));
    assert!(d.verify(DATA_0));
}

#[test]
fn mlsag_link() {
    let secrets_0 = random_secrets(Y);
    let secrets_1 = random_secrets(Y);
    let rings_0 = random_rings(X, Y);
    let rings_1 = random_rings(X, Y);
    let rng = &mut OsRng;
    let a = MLSAG::sign(rng, &secrets_0, rings_0.clone(), DATA_1.as_bytes()).unwrap();
    let b = MLSAG::sign(rng, &secrets_0, rings_1.clone(), DATA_0).unwrap();
    let c = MLSAG::sign(rng, &secrets_1, rings_0.clone(), DATA_0).unwrap();
    let d = MLSAG::sign(rng, &secrets_0, rings_1.clone(), DATA_1.as_bytes()).unwrap();
    let e = MLSAG::sign(rng, &secrets_1, rings_0.clone(), DATA_1.as_bytes()).unwrap();
    let f = MLSAG::sign(rng, &secrets_1, rings_1.clone(), DATA_1.as_bytes()).unwrap();
    assert!(MLSAG::link(&[&a.images, &b.images]));
    assert!(!MLSAG::link(&[&a.images, &c.images]));
    assert!(MLSAG::link(&[&a.images, &d.images]));
    assert!(!MLSAG::link(&[&a.images, &e.images]));
    assert!(!MLSAG::link(&[&a.images, &f.images]));
}

#[test]
fn mlsag_two_columns_one_decoy_row() {
    let secrets = random_secrets(2);
    let rings = random_rings(1, 2);
    let message = b"This is the message";
    let sig = MLSAG::sign(&mut OsRng, &secrets, rings, message).unwrap();
    assert!(sig.verify(message));
    assert_eq!(sig.rings.len(), 2);
    assert_eq!(sig.images.len(), 2);
    for i in 0..sig.responses.len() {
        for j in 0..sig.responses[i].len() {
            for k in 0..32 {
                let mut bad = sig.clone();
                bad.responses[i][j][k] ^= 1;
                assert!(!bad.verify(message));
            }
        }
    }
}

#[test]
fn mlsag_structurally_impossible_inputs() {
    assert!(MLSAG::sign(&mut OsRng, &[], random_rings(1, 2), DATA_0).is_none());
    let secrets = random_secrets(2);
    assert!(MLSAG::sign(&mut OsRng, &secrets, random_rings(2, 3), DATA_0).is_none());
    let sig = MLSAG::sign(&mut OsRng, &secrets, Vec::new(), DATA_0).unwrap();
    assert!(sig.verify(DATA_0));
}

#[test]
fn mlsag_wrong_shapes_rejected() {
    let secrets = random_secrets(2);
    let sig = MLSAG::sign(&mut OsRng, &secrets, random_rings(2, 2), DATA_0).unwrap();
    let mut short = sig.clone();
    short.responses[0].pop();
    assert!(!short.verify(DATA_0));
    let mut few_images = sig.clone();
    few_images.images.pop();
    assert!(!few_images.verify(DATA_0));
    let mut bad_challenge = sig.clone();
    bad_challenge.challenge = [0xFF; 32];
    assert!(!bad_challenge.verify(DATA_0));
}

#[test]
fn mlsag_link_of_empty_lists_is_false() {
    assert!(!MLSAG::link(&[]));
    let empty: Vec<[u8; 32]> = Vec::new();
    assert!(!MLSAG::link(&[&empty]));
    assert!(!MLSAG::link(&[&[[1u8; 32]], &empty]));
    assert!(MLSAG::link(&[&[[1u8; 32], [2u8; 32]], &[[1u8; 32], [3u8; 32]]]));
}
