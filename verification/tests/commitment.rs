use board_pedersen::commit::{
    derive_commitment, derive_generator, get_coordinates, try_get_coordinates,
};
use halo2_proofs::arithmetic::{CurveAffine, CurveExt};
use halo2_proofs::pasta::group::ff::{Field, PrimeField};
use halo2_proofs::pasta::group::{Curve, GroupEncoding};
use halo2_proofs::pasta::pallas;
use rand::rngs::OsRng;
use rand::Rng;

fn random_scalar() -> pallas::Scalar {
    let mut rng = OsRng;
    let shift = pallas::Scalar::from(2).pow_vartime([64u64, 0, 0, 0]);
    let mut acc = pallas::Scalar::ZERO;
    for _ in 0..4 {
        let limb: u64 = rng.gen();
        acc = acc * shift + pallas::Scalar::from(limb);
    }
    acc
}

fn fp_bytes(v: u64) -> Vec<u8> {
    pallas::Base::from(v).to_repr().to_vec()
}

fn fq_bytes(v: u64) -> Vec<u8> {
    pallas::Scalar::from(v).to_repr().to_vec()
}

fn reference_commitment(value: &pallas::Base, rcv: &pallas::Scalar) -> pallas::Point {
    let hasher = pallas::Point::hash_to_curve("battlezips:hash2curve");
    let v = hasher(b"v");
    let r = hasher(b"r");
    let value = pallas::Scalar::from_repr(value.to_repr()).unwrap();
    v * value + r * rcv
}

#[test]
fn test_pedersen() {
    let value = pallas::Base::from(100);
    let rcv = pallas::Scalar::from(300);
    let commitment = derive_commitment(&fp_bytes(100), &fq_bytes(300));
    let expected = reference_commitment(&value, &rcv);
    assert_eq!(commitment, expected.to_bytes().to_vec());
}

#[test]
fn generator_is_deterministic() {
    let first = derive_generator(b'v');
    let second = derive_generator(b'v');
    assert_eq!(first, second);
}

#[test]
fn generators_are_domain_separated() {
    let v = derive_generator(b'v');
    let r = derive_generator(b'r');
    assert_ne!(v, r);
}

#[test]
fn generator_matches_hash_to_curve() {
    let hasher = pallas::Point::hash_to_curve("battlezips:hash2curve");
    let expected_v = hasher(b"v").to_bytes().to_vec();
    let expected_r = hasher(b"r").to_bytes().to_vec();
    assert_eq!(derive_generator(b'v'), expected_v);
    assert_eq!(derive_generator(b'r'), expected_r);
}

#[test]
fn commitment_coordinates_match_reference() {
    let value = pallas::Base::from(88675409);
    let rcv = random_scalar();
    let expected = reference_commitment(&value, &rcv).to_affine();
    let expected_x = expected.coordinates().unwrap().x().to_repr().to_vec();
    let expected_y = expected.coordinates().unwrap().y().to_repr().to_vec();

    let commitment = derive_commitment(&fp_bytes(88675409), &rcv.to_repr().to_vec());
    let (x, y) = get_coordinates(&commitment);
    assert_eq!(x, expected_x);
    assert_eq!(y, expected_y);
}

#[test]
fn binding_distinct_values_give_distinct_commitments() {
    for i in 0..16u64 {
        let r1 = random_scalar();
        let r2 = random_scalar();
        let c1 = derive_commitment(&fp_bytes(1000 + i), &r1.to_repr().to_vec());
        let c2 = derive_commitment(&fp_bytes(2000 + i), &r2.to_repr().to_vec());
        assert_ne!(c1, c2);
    }
}

#[test]
fn hiding_distinct_trapdoors_give_distinct_commitments() {
    let mut seen: Vec<Vec<u8>> = Vec::new();
    for _ in 0..16 {
        let r = random_scalar();
        let c = derive_commitment(&fp_bytes(5), &r.to_repr().to_vec());
        assert!(!seen.contains(&c));
        seen.push(c);
    }
}

#[test]
fn try_get_coordinates_rejects_bad_encodings() {
    let identity = vec![0u8; 32];
    assert!(try_get_coordinates(&identity).is_none());

    let invalid = vec![0xffu8; 32];
    assert!(try_get_coordinates(&invalid).is_none());

    let short = vec![1u8; 16];
    assert!(try_get_coordinates(&short).is_none());

    let generator = derive_generator(b'v');
    let coords = try_get_coordinates(&generator);
    assert!(coords.is_some());
    let (x, y) = coords.unwrap();
    let (x2, y2) = get_coordinates(&generator);
    assert_eq!(x, x2);
    assert_eq!(y, y2);
}
