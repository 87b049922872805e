use ark_bn254::Fr;
use ark_ff::{BigInt, One, PrimeField, Zero};
use expander_coder::field::{hash_pair, hash_to_field, rand_field, rand_nonzero, Fe};
use sha2::{Digest, Sha256};

fn to_fr(x: Fe) -> Fr {
    Fr::from_bigint(BigInt::new(x.limbs)).unwrap()
}

fn coefficient(layer_id: usize, position: usize, tag: u8) -> Fr {
    let mut input = Vec::new();
    input.extend_from_slice(&layer_id.to_le_bytes());
    input.extend_from_slice(&position.to_le_bytes());
    input.push(tag);
    let h = Fr::from_le_bytes_mod_order(&Sha256::digest(&input));
    if h.is_zero() {
        Fr::one()
    } else {
        h
    }
}

#[test]
fn small_constants() {
    assert_eq!(to_fr(Fe::zero()), Fr::zero());
    assert_eq!(to_fr(Fe::one()), Fr::one());
    assert_eq!(to_fr(Fe::from_u64(12345)), Fr::from(12345u64));
}

#[test]
fn hash_to_field_reads_the_digest_little_endian() {
    let input = b"expander";
    let expected = Fr::from_le_bytes_mod_order(&Sha256::digest(input));
    assert_eq!(to_fr(hash_to_field(input)), expected);
    assert_ne!(hash_to_field(b"a"), hash_to_field(b"b"));
}

#[test]
fn hash_pair_matches_its_definition() {
    for (layer_id, position) in [(0usize, 0usize), (0, 1), (1, 0), (3, 17)] {
        let (a, b) = hash_pair(layer_id, position);
        assert_eq!(to_fr(a), coefficient(layer_id, position, 0));
        assert_eq!(to_fr(b), coefficient(layer_id, position, 1));
        assert_ne!(a, b);
        assert!(!to_fr(a).is_zero());
    }
}

#[test]
fn random_elements_are_reduced() {
    for _ in 0..20 {
        let x = rand_field();
        assert!(Fr::from_bigint(BigInt::new(x.limbs)).is_some());
        let y = rand_nonzero();
        assert!(!to_fr(y).is_zero());
    }
}
