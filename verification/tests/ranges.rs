use board_pedersen::range_check::{check_range, lookup_table_rows, pow2_u64};
use halo2_proofs::pasta::group::ff::{Field, PrimeField};
use halo2_proofs::pasta::pallas;
use rand::rngs::OsRng;
use rand::Rng;

fn random_base() -> pallas::Base {
    let mut rng = OsRng;
    let shift = pallas::Base::from(2).pow_vartime([64u64, 0, 0, 0]);
    let mut acc = pallas::Base::ZERO;
    for _ in 0..4 {
        let limb: u64 = rng.gen();
        acc = acc * shift + pallas::Base::from(limb);
    }
    acc
}

fn fp_bytes(v: u64) -> Vec<u8> {
    pallas::Base::from(v).to_repr().to_vec()
}

#[test]
fn table_holds_consecutive_integers() {
    let rows = lookup_table_rows();
    assert_eq!(rows.len(), 1024);
    for (i, row) in rows.iter().enumerate() {
        assert_eq!(*row, i as u64);
    }
}

#[test]
fn pow2_u64_values() {
    assert_eq!(pow2_u64(0), 1);
    assert_eq!(pow2_u64(1), 2);
    assert_eq!(pow2_u64(10), 1024);
    assert_eq!(pow2_u64(63), 1u64 << 63);
}

#[test]
fn in_range_value_yields_words() {
    let words = check_range(&fp_bytes(1023), 10).unwrap();
    assert_eq!(words, vec![1023]);

    let words = check_range(&fp_bytes(1024), 11).unwrap();
    assert_eq!(words, vec![0, 1]);

    let value: u64 = 88675409;
    let words = check_range(&fp_bytes(value), 27).unwrap();
    assert_eq!(words.len(), 3);
    for (i, w) in words.iter().enumerate() {
        assert_eq!(*w, (value >> (10 * i)) & 1023);
    }
}

#[test]
fn out_of_range_value_is_rejected() {
    assert!(check_range(&fp_bytes(1024), 10).is_none());
    assert!(check_range(&fp_bytes(88675409), 26).is_none());
    assert!(check_range(&fp_bytes(2), 1).is_none());
}

#[test]
fn full_width_base_element_fits() {
    let value = random_base();
    let repr = value.to_repr().to_vec();
    let words = check_range(&repr, 255).unwrap();
    assert_eq!(words.len(), 26);
    for w in words.iter() {
        assert!(*w < 1024);
    }
}
