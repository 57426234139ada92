use overpass_core::pedersen_parameters::{
    bytes_equal, scalar_from_u64, Commitment, CommitmentError, PedersenParameters, SerdePedersenParameters,
};
use curve25519_dalek::ristretto::CompressedRistretto;
use curve25519_dalek::scalar::Scalar;
use sha2::{Digest, Sha256};

fn scalar(n: u8) -> [u8; 32] {
    let mut b = [0u8; 32];
    b[0] = n;
    b
}

#[test]
fn new_is_deterministic() {
    let a = PedersenParameters::new(128);
    let b = PedersenParameters::new(128);
    assert_eq!(a, b);
    assert_eq!(a.lambda, 128);
    assert_ne!(a.g, a.h);
}

#[test]
fn new_uses_basepoint_and_hashed_generator() {
    let p = PedersenParameters::new(64);
    assert_eq!(
        p.g,
        curve25519_dalek::constants::RISTRETTO_BASEPOINT_COMPRESSED.to_bytes()
    );
    let seed = Sha256::digest(b"Pedersen blinding generator");
    let h = curve25519_dalek::ristretto::RistrettoPoint::hash_from_bytes::<sha2::Sha512>(seed.as_slice());
    assert_eq!(p.h, h.compress().to_bytes());
    assert_eq!(p.lambda, 64);
}

#[test]
fn default_is_lambda_128() {
    assert_eq!(PedersenParameters::default(), PedersenParameters::new(128));
}

#[test]
fn serde_form_round_trip() {
    let params = PedersenParameters::new(128);
    let s: SerdePedersenParameters = params.into();
    assert_eq!(s.g, params.g);
    assert_eq!(s.h, params.h);
    assert_eq!(s.lambda, 128);
    let back = PedersenParameters::from_serde(s).unwrap();
    assert_eq!(back, params);
}

#[test]
fn serde_form_rejects_non_canonical_point() {
    let params = PedersenParameters::new(128);
    let mut s: SerdePedersenParameters = params.into();
    s.h = [0xff; 32];
    assert_eq!(PedersenParameters::from_serde(s), Err(CommitmentError::InvalidEncoding));
    let mut s2: SerdePedersenParameters = params.into();
    s2.g = [0xff; 32];
    assert_eq!(PedersenParameters::from_serde(s2), Err(CommitmentError::InvalidEncoding));
}

#[test]
fn commitment_binds_value_and_blinding() {
    let p = PedersenParameters::new(128);
    let c1 = p.commit(10, &scalar(7));
    let c2 = p.commit(11, &scalar(7));
    let c3 = p.commit(10, &scalar(8));
    assert_ne!(c1, c2);
    assert_ne!(c1, c3);
    assert!(p.verify_opening(&c1, 10, &scalar(7)));
    assert!(!p.verify_opening(&c1, 11, &scalar(7)));
    assert!(!p.verify_opening(&c1, 10, &scalar(8)));
}

#[test]
fn commit_of_zero_is_identity() {
    let p = PedersenParameters::new(128);
    assert_eq!(p.commit(0, &[0u8; 32]).point, [0u8; 32]);
    assert_eq!(p.commit(1, &[0u8; 32]).point, p.g);
    assert_eq!(p.commit(0, &scalar(1)).point, p.h);
}

#[test]
fn commitments_add_homomorphically() {
    let p = PedersenParameters::new(128);
    let a = p.commit(30, &scalar(5));
    let b = p.commit(12, &scalar(9));
    assert_eq!(a.add(&b), p.commit(42, &scalar(14)));
}

#[test]
fn commitment_from_bytes() {
    let p = PedersenParameters::new(128);
    let c = p.commit(3, &scalar(4));
    assert_eq!(Commitment::from_bytes(c.point), Ok(c));
    assert_eq!(Commitment::from_bytes([0xff; 32]), Err(CommitmentError::InvalidEncoding));
}

#[test]
fn bytes_equal_compares_all_bytes() {
    let a = [1u8; 32];
    let mut b = a;
    assert!(bytes_equal(&a, &b));
    b[31] = 2;
    assert!(!bytes_equal(&a, &b));
}

#[test]
fn scalar_from_u64_is_little_endian() {
    let b = scalar_from_u64(0x0102_0304_0506_0708);
    assert_eq!(&b[..8], &[8, 7, 6, 5, 4, 3, 2, 1]);
    assert_eq!(&b[8..], &[0u8; 24]);
    assert_eq!(
        b,
        Scalar::from(0x0102_0304_0506_0708u64).to_bytes()
    );
}

#[test]
fn commit_matches_group_formula() {
    let p = PedersenParameters::new(128);
    let g = CompressedRistretto(p.g).decompress().unwrap();
    let h = CompressedRistretto(p.h).decompress().unwrap();
    let expected = g * Scalar::from(77u64) + h * Scalar::from_bytes_mod_order(scalar(9));
    assert_eq!(p.commit(77, &scalar(9)).point, expected.compress().to_bytes());
}
