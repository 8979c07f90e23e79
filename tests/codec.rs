use rand_core::OsRng;
use ring_signature::blsag::BLSAG;
use ring_signature::clsag::CLSAG;
use ring_signature::mlsag::MLSAG;
use ring_signature::sag::SAG;
use ring_signature::{point_random, scalar_random, Point, Scalar};

fn random_ring(size: usize) -> Vec<Point> {
    (0..size).map(|_| point_random(&mut OsRng)).collect()
}

fn random_rings(x: usize, y: usize) -> Vec<Vec<Point>> {
    (0..x).map(|_| random_ring(y)).collect()
}

fn random_secrets(y: usize) -> Vec<Scalar> {
    (0..y).map(|_| scalar_random(&mut OsRng)).collect()
}

#[test]
fn sag_encoding_round_trip() {
    let sig = SAG::sign(&mut OsRng, &scalar_random(&mut OsRng), random_ring(2), b"m").unwrap();
    let bytes = sig.to_bytes();
    assert_eq!(bytes.len(), 32 + (8 + 3 * 32) * 2);
    assert_eq!(&bytes[32..40], &[3, 0, 0, 0, 0, 0, 0, 0]);
    let back = SAG::from_bytes(&bytes).unwrap();
    assert_eq!(back, sig);
    assert!(back.verify(b"m"));
}

#[test]
fn blsag_encoding_round_trip() {
    let sig = BLSAG::sign(&mut OsRng, &scalar_random(&mut OsRng), random_ring(1), b"m").unwrap();
    let bytes = sig.to_bytes();
    assert_eq!(bytes.len(), 32 + (8 + 2 * 32) * 2 + 32);
    assert_eq!(BLSAG::from_bytes(&bytes).unwrap(), sig);
}

#[test]
fn mlsag_encoding_round_trip() {
    let sig = MLSAG::sign(&mut OsRng, &random_secrets(2), random_rings(1, 2), b"m").unwrap();
    let bytes = sig.to_bytes();
    assert_eq!(bytes.len(), 32 + (8 + 2 * (8 + 2 * 32)) * 2 + 8 + 2 * 32);
    assert_eq!(MLSAG::from_bytes(&bytes).unwrap(), sig);
}

#[test]
fn clsag_encoding_round_trip() {
    let sig = CLSAG::sign(&mut OsRng, &random_secrets(2), random_rings(2, 2), b"m").unwrap();
    let bytes = sig.to_bytes();
    assert_eq!(bytes.len(), 32 + (8 + 3 * 32) + (8 + 3 * (8 + 2 * 32)) + 8 + 2 * 32);
    let back = CLSAG::from_bytes(&bytes).unwrap();
    assert_eq!(back, sig);
    assert!(back.verify(b"m"));
}

#[test]
fn decoding_rejects_non_canonical_scalars_and_points() {
    let sig = BLSAG::sign(&mut OsRng, &scalar_random(&mut OsRng), random_ring(1), b"m").unwrap();
    let bytes = sig.to_bytes();
    let mut bad_challenge = bytes.clone();
    bad_challenge[..32].copy_from_slice(&[0xFF; 32]);
    assert!(BLSAG::from_bytes(&bad_challenge).is_none());
    let mut bad_point = bytes.clone();
    let ring_start = 32 + 8 + 2 * 32 + 8;
    bad_point[ring_start..ring_start + 32].copy_from_slice(&[0xFF; 32]);
    assert!(BLSAG::from_bytes(&bad_point).is_none());
    let mut high_bit = bytes.clone();
    high_bit[31] |= 0x80;
    assert!(BLSAG::from_bytes(&high_bit).is_none());
}

#[test]
fn decoding_rejects_wrong_lengths() {
    let sig = SAG::sign(&mut OsRng, &scalar_random(&mut OsRng), random_ring(2), b"m").unwrap();
    let bytes = sig.to_bytes();
    assert!(SAG::from_bytes(&bytes[..bytes.len() - 1]).is_none());
    let mut longer = bytes.clone();
    longer.push(0);
    assert!(SAG::from_bytes(&longer).is_none());
    let mut huge_count = bytes.clone();
    huge_count[32..40].copy_from_slice(&[0xFF; 8]);
    assert!(SAG::from_bytes(&huge_count).is_none());
    assert!(SAG::from_bytes(&[]).is_none());
    let mut mismatched = sig.clone();
    mismatched.response.pop();
    assert!(SAG::from_bytes(&mismatched.to_bytes()).is_none());
}
