//! Constraint-level tests: build a proving-side system, run a gadget, and
//! check whether the stored witnesses satisfy every emitted constraint.
use curve25519_dalek::scalar::Scalar;
use fhe_bulletproofs::gadgets::lt_constant;
use fhe_bulletproofs::gadgets::mod_gate;
use fhe_bulletproofs::gadgets::range_proof;
use fhe_bulletproofs::r1cs::check_satisfied;
use fhe_bulletproofs::r1cs::Cs;
use fhe_bulletproofs::r1cs::GadgetError;
use fhe_bulletproofs::r1cs::LinComb;

fn range_check(v: u64, bits: usize) -> bool {
    let mut cs = Cs::new();
    let w = Scalar::from(v);
    let vid = cs.allocate(Some(w));
    let lc = LinComb::from_variable(vid);
    range_proof(&mut cs, lc, Some(w), bits).unwrap();
    check_satisfied(&cs)
}

fn lt_check(v: u64, ct: u64) -> bool {
    let mut cs = Cs::new();
    let w = Scalar::from(v);
    let vid = cs.allocate(Some(w));
    let lc = LinComb::from_variable(vid);
    lt_constant(&mut cs, lc, Some(w), Scalar::from(ct)).unwrap();
    check_satisfied(&cs)
}

#[test]
fn range_two_bits_exhaustive() {
    for v in 0u64..4 {
        assert!(range_check(v, 2), "value {} must fit in 2 bits", v);
    }
    assert!(!range_check(4, 2), "4 is one past the 2-bit bound");
}

#[test]
fn range_wider_widths() {
    for &n in [10usize, 32, 63].iter() {
        let max: u64 = ((1u128 << n) - 1) as u64;
        assert!(range_check(0, n));
        assert!(range_check(max / 2, n));
        assert!(range_check(max, n));
        assert!(!range_check(max + 1, n), "2^{} must not fit in {} bits", n, n);
    }
}

#[test]
fn range_zero_bits_proves_zero() {
    assert!(range_check(0, 0));
    assert!(!range_check(1, 0));
}

#[test]
fn range_rejects_oversized_width() {
    let mut cs = Cs::new();
    let w = Scalar::from(5u64);
    let vid = cs.allocate(Some(w));
    let lc = LinComb::from_variable(vid);
    assert_eq!(range_proof(&mut cs, lc, Some(w), 253), Err(GadgetError::InvalidParameter));
}

#[test]
fn lt_constant_boundary() {
    assert!(lt_check(0, 3));
    assert!(lt_check(1, 3));
    assert!(lt_check(2, 3));
    assert!(!lt_check(3, 3), "v == ct must not satisfy the less-than gadget");
    assert!(lt_check(999, 1000));
    assert!(!lt_check(1000, 1000));
}

#[test]
fn mod_gate_seven_mod_three() {
    let mut cs = Cs::new();
    let w = Scalar::from(7u64);
    let vid = cs.allocate(Some(w));
    let lc = LinComb::from_variable(vid);
    let out = mod_gate(&mut cs, lc, Some(w), Scalar::from(3u64)).unwrap();
    // witnesses: quotient 2, remainder 1, and 3*2 + 1 == 7
    assert_eq!(out.assignment, Some(Scalar::from(1u64)));
    assert_eq!(cs.assignments[1], Some(Scalar::from(2u64)));
    assert!(check_satisfied(&cs));
}

#[test]
fn mod_gate_tampered_remainder_fails() {
    let mut cs = Cs::new();
    let w = Scalar::from(7u64);
    let vid = cs.allocate(Some(w));
    let lc = LinComb::from_variable(vid);
    let out = mod_gate(&mut cs, lc, Some(w), Scalar::from(3u64)).unwrap();
    // forge the remainder: 3*2 + 2 == 8 != 7
    cs.assignments[out.variable] = Some(Scalar::from(2u64));
    assert!(!check_satisfied(&cs));
}

#[test]
fn lt_constant_rejects_wide_constant() {
    // a constant of 252 bits needs a 253-bit range proof, past the cap
    let mut wide = [0u8; 32];
    wide[31] = 0x08;
    let ct = Scalar::from_bits(wide);
    let mut cs = Cs::new();
    let w = Scalar::from(5u64);
    let vid = cs.allocate(Some(w));
    let lc = LinComb::from_variable(vid);
    assert_eq!(lt_constant(&mut cs, lc, Some(w), ct), Err(GadgetError::InvalidParameter));
}

#[test]
fn mod_gate_rejects_tiny_constant() {
    // with ct == 1 the quotient bound needs more bits than the field supports
    let mut cs = Cs::new();
    let w = Scalar::from(5u64);
    let vid = cs.allocate(Some(w));
    let lc = LinComb::from_variable(vid);
    assert!(matches!(
        mod_gate(&mut cs, lc, Some(w), Scalar::from(1u64)),
        Err(GadgetError::InvalidParameter)
    ));
}

#[test]
fn verifier_side_emits_same_shape() {
    // without witnesses the same constraints are emitted, unassigned
    let mut pcs = Cs::new();
    let w = Scalar::from(3u64);
    let pv = pcs.allocate(Some(w));
    range_proof(&mut pcs, LinComb::from_variable(pv), Some(w), 8).unwrap();
    let mut vcs = Cs::new();
    let vv = vcs.allocate(None);
    range_proof(&mut vcs, LinComb::from_variable(vv), None, 8).unwrap();
    assert_eq!(pcs.assignments.len(), vcs.assignments.len());
    assert_eq!(pcs.muls, vcs.muls);
    assert_eq!(pcs.constraints.len(), vcs.constraints.len());
    assert!(vcs.assignments[1..].iter().all(|a| a.is_none()));
}
