//! Field elements carried over to bn254.

use mavros_compiler::field::{noir_field_to_bn254, Field, FieldElement};

const MODULUS: [u64; 4] =
    [0x43e1f593f0000001, 0x2833e84879b97091, 0xb85045b68181585d, 0x30644e72e131a029];

fn bytes(limbs: [u64; 4]) -> Vec<u8> {
    let mut le_bytes = vec![];
    for limb in limbs {
        le_bytes.extend_from_slice(&limb.to_le_bytes());
    }
    le_bytes
}

fn carried(le_bytes: Vec<u8>) -> [u64; 4] {
    noir_field_to_bn254(&FieldElement { le_bytes }).limbs
}

#[test]
fn small_numbers_are_kept() {
    assert_eq!(Field::from_u64(0).limbs, [0, 0, 0, 0]);
    assert_eq!(Field::from_u64(7).limbs, [7, 0, 0, 0]);
    assert_eq!(Field::from_u64(u64::MAX).limbs, [u64::MAX, 0, 0, 0]);
}

#[test]
fn elements_below_the_modulus_are_kept() {
    assert_eq!(carried(vec![]), [0, 0, 0, 0]);
    assert_eq!(carried(vec![1, 2]), [513, 0, 0, 0]);
    assert_eq!(carried(bytes([1, 2, 3, 4])), [1, 2, 3, 4]);
    let mut largest = MODULUS;
    largest[0] -= 1;
    assert_eq!(carried(bytes(largest)), largest);
}

#[test]
fn elements_below_the_modulus_stay_apart() {
    let elements = [[0, 0, 0, 0], [1, 0, 0, 0], [0, 1, 0, 0], [0, 0, 0, 1]];
    for a in elements {
        for b in elements {
            assert_eq!(carried(bytes(a)) == carried(bytes(b)), a == b);
        }
    }
}

#[test]
fn other_numbers_are_reduced() {
    assert_eq!(carried(bytes(MODULUS)), [0, 0, 0, 0]);
    let mut beyond = MODULUS;
    beyond[0] += 5;
    assert_eq!(carried(bytes(beyond)), [5, 0, 0, 0]);
}

/// The largest Goldilocks element has eight bytes, and its bytes may be padded.
#[test]
fn the_width_of_the_source_field_does_not_matter() {
    let largest: u64 = 0xffff_ffff_0000_0000;
    assert_eq!(carried(largest.to_le_bytes().to_vec()), [largest, 0, 0, 0]);
    assert_eq!(carried(bytes([largest, 0, 0, 0])), [largest, 0, 0, 0]);
    let mut padded = bytes([1, 2, 3, 4]);
    padded.extend_from_slice(&[0; 16]);
    assert_eq!(carried(padded), [1, 2, 3, 4]);
}

#[test]
fn random_elements_are_elements() {
    for _ in 0..50 {
        let limbs = Field::random().limbs;
        let below = (0..4).rev().find(|&i| limbs[i] != MODULUS[i]).map(|i| limbs[i] < MODULUS[i]);
        assert_eq!(below, Some(true));
    }
}
