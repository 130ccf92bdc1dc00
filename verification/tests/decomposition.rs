use board_pedersen::scalar::{recompose_windows, scalar_round_trip, witness_scalar_windows};
use halo2_proofs::pasta::group::ff::{Field, PrimeField};
use halo2_proofs::pasta::pallas;
use rand::rngs::OsRng;
use rand::Rng;

fn random_scalar() -> pallas::Scalar {
    let mut rng = OsRng;
    let shift = pallas::Scalar::from(2).pow_vartime([64u64, 0, 0, 0]);
    let mut acc = pallas::Scalar::ZERO;
    for _ in 0..4 {
        let limb: u64 = rng.gen();
        acc = acc * shift + pallas::Scalar::from(limb);
    }
    acc
}

fn expected_window(bytes: &[u8], i: usize) -> u64 {
    let mut w = 0u64;
    for t in 0..3 {
        let k = 3 * i + t;
        let bit = (bytes[k / 8] >> (k % 8)) & 1;
        w |= (bit as u64) << t;
    }
    w
}

fn recompose_by_hand(windows: &[u64]) -> Vec<u8> {
    let mut bytes = vec![0u8; 32];
    for (i, w) in windows.iter().enumerate() {
        for t in 0..3 {
            let k = 3 * i + t;
            if (w >> t) & 1 == 1 {
                bytes[k / 8] |= 1 << (k % 8);
            }
        }
    }
    bytes
}

#[test]
fn small_scalar_windows_match_shifts() {
    let value: u64 = 88675409;
    let repr = pallas::Scalar::from(value).to_repr().to_vec();
    let windows = witness_scalar_windows(&repr);
    assert_eq!(windows.len(), 85);
    for i in 0..85 {
        if 3 * i < 64 {
            assert_eq!(windows[i], (value >> (3 * i)) & 7);
        } else {
            assert_eq!(windows[i], 0);
        }
    }
}

#[test]
fn random_scalar_windows_match_bits() {
    let scalar = random_scalar();
    let repr = scalar.to_repr().to_vec();
    let windows = witness_scalar_windows(&repr);
    assert_eq!(windows.len(), 85);
    for i in 0..85 {
        assert!(windows[i] < 8);
        assert_eq!(windows[i], expected_window(&repr, i));
    }
}

#[test]
fn decomposition_round_trip() {
    let samples = [
        pallas::Scalar::ZERO,
        pallas::Scalar::ONE,
        pallas::Scalar::from(300),
        pallas::Scalar::from(u64::MAX),
        -pallas::Scalar::ONE,
        random_scalar(),
    ];
    for scalar in samples.iter() {
        let repr = scalar.to_repr().to_vec();
        let windows = witness_scalar_windows(&repr);
        assert_eq!(recompose_windows(&windows), repr);
        assert_eq!(recompose_by_hand(&windows), repr);
        assert_eq!(scalar_round_trip(&repr), repr);
    }
}
