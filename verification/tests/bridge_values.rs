//! Exact values for the field/integer bridge.
use curve25519_dalek::scalar::Scalar;
use num_bigint::BigUint;
use fhe_bulletproofs::bridge::biguint2scalar;
use fhe_bulletproofs::bridge::div_scalar;
use fhe_bulletproofs::bridge::log2_scalar;
use fhe_bulletproofs::bridge::mod_scalar;
use fhe_bulletproofs::bridge::scalar2biguint;
use fhe_bulletproofs::bridge::scalar_2_u64;

#[test]
fn scalar_to_u64_reads_low_bytes() {
    assert_eq!(scalar_2_u64(Scalar::from(0u64)), 0);
    assert_eq!(scalar_2_u64(Scalar::from(1u64)), 1);
    assert_eq!(scalar_2_u64(Scalar::from(0xdead_beef_u64)), 0xdead_beef);
    assert_eq!(scalar_2_u64(Scalar::from(u64::MAX)), u64::MAX);
}

#[test]
fn integer_roundtrip_is_identity() {
    // a canonical element
    let x = Scalar::from(123_456_789_u64);
    assert_eq!(biguint2scalar(scalar2biguint(x)), x);
    // an element written bytewise, top bit clear
    let mut bytes = [0x5au8; 32];
    bytes[31] = 0x3f;
    let y = Scalar::from_bits(bytes);
    assert_eq!(biguint2scalar(scalar2biguint(y)).to_bytes(), y.to_bytes());
}

#[test]
fn to_field_truncates_past_255_bits() {
    // 2^300 + 5 reduces to 5 mod 2^255
    let big = (BigUint::from(1u8) << 300u32) + BigUint::from(5u8);
    assert_eq!(biguint2scalar(big), Scalar::from(5u64));
}

#[test]
fn integer_division_and_remainder() {
    let a = Scalar::from(7u64);
    let b = Scalar::from(3u64);
    assert_eq!(div_scalar(a, b), Scalar::from(2u64));
    assert_eq!(mod_scalar(a, b), Scalar::from(1u64));
    // reconstruction: 3*2 + 1 == 7
    assert_eq!(3u64 * 2 + 1, 7);
    // a large dividend
    let c = Scalar::from(u64::MAX);
    let d = Scalar::from(10u64);
    assert_eq!(div_scalar(c, d), Scalar::from(u64::MAX / 10));
    assert_eq!(mod_scalar(c, d), Scalar::from(u64::MAX % 10));
}

#[test]
fn bit_lengths() {
    assert_eq!(log2_scalar(Scalar::from(0u64)), 0);
    assert_eq!(log2_scalar(Scalar::from(1u64)), 1);
    assert_eq!(log2_scalar(Scalar::from(7u64)), 3);
    assert_eq!(log2_scalar(Scalar::from(8u64)), 4);
    assert_eq!(log2_scalar(Scalar::from(u64::MAX)), 64);
}
