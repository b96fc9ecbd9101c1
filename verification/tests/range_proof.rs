//! End-to-end proving and verifying: the gadget's emitted constraints are
//! replayed into a real rank-1 constraint system, a proof is produced, and
//! the verifier checks it.
use bulletproofs::r1cs::ConstraintSystem;
use bulletproofs::r1cs::LinearCombination;
use bulletproofs::r1cs::Prover;
use bulletproofs::r1cs::R1CSError;
use bulletproofs::r1cs::Variable;
use bulletproofs::r1cs::Verifier;
use bulletproofs::BulletproofGens;
use bulletproofs::PedersenGens;
use curve25519_dalek::scalar::Scalar;
use curve25519_dalek_ng::scalar::Scalar as BpScalar;
use merlin::Transcript;
use fhe_bulletproofs::gadgets::mod_gate;
use fhe_bulletproofs::gadgets::range_proof;
use fhe_bulletproofs::r1cs::Cs;
use fhe_bulletproofs::r1cs::LinComb;

/// The proof system's scalar type, from the library's byte representation.
fn bp(s: Scalar) -> BpScalar {
    BpScalar::from_bits(s.to_bytes())
}

/// Feed the gadget-emitted allocations and constraints into a real
/// constraint system, mapping model variable ids to its variables.
/// `var_map` already holds the committed inputs' variables.
fn replay<CS: ConstraintSystem>(
    model: &Cs,
    sys: &mut CS,
    var_map: &mut Vec<Variable>,
    proving: bool,
) -> Result<(), R1CSError> {
    let mut mul_idx = 0;
    let mut id = var_map.len();
    while id < model.assignments.len() {
        if mul_idx < model.muls.len() && model.muls[mul_idx].0 == id {
            let assn = if proving {
                match (model.assignments[id], model.assignments[id + 1]) {
                    (Some(l), Some(r)) => Some((bp(l), bp(r))),
                    _ => None,
                }
            } else {
                None
            };
            let (l, r, o) = sys.allocate_multiplier(assn)?;
            var_map.push(l);
            var_map.push(r);
            var_map.push(o);
            mul_idx += 1;
            id += 3;
        } else {
            let assn = if proving { model.assignments[id].map(bp) } else { None };
            let v = sys.allocate(assn)?;
            var_map.push(v);
            id += 1;
        }
    }
    for lc in model.constraints.iter() {
        let mut acc: LinearCombination = bp(lc.constant).into();
        for (vid, coeff) in lc.terms.iter() {
            acc = acc + bp(*coeff) * var_map[*vid];
        }
        sys.constrain(acc);
    }
    Ok(())
}

fn range_proof_helper(v_val: Scalar, n: usize) -> Result<(), R1CSError> {
    let pc_gens = PedersenGens::default();
    let bp_gens = BulletproofGens::new(128, 1);
    let blinding = BpScalar::from_bits([7u8; 32]);
    let gadget_err = |_| R1CSError::GadgetError {
        description: "invalid bit width".to_string(),
    };

    // Prover's scope
    let (proof, commitment) = {
        let mut prover_transcript = Transcript::new(b"RangeProofTest");
        let mut prover = Prover::new(&pc_gens, &mut prover_transcript);
        let (com, var) = prover.commit(bp(v_val), blinding);

        let mut model = Cs::new();
        let vid = model.allocate(Some(v_val));
        range_proof(&mut model, LinComb::from_variable(vid), Some(v_val), n).map_err(gadget_err)?;

        let mut var_map = vec![var];
        replay(&model, &mut prover, &mut var_map, true)?;
        let proof = prover.prove(&bp_gens)?;
        (proof, com)
    };

    // Verifier's scope
    let mut verifier_transcript = Transcript::new(b"RangeProofTest");
    let mut verifier = Verifier::new(&mut verifier_transcript);
    let var = verifier.commit(commitment);

    let mut model = Cs::new();
    let vid = model.allocate(None);
    range_proof(&mut model, LinComb::from_variable(vid), None, n).map_err(gadget_err)?;

    let mut var_map = vec![var];
    replay(&model, &mut verifier, &mut var_map, false)?;
    verifier.verify(&proof, &pc_gens, &bp_gens)
}

#[test]
fn range_proof_gadget() {
    for n in [2usize, 10, 32, 63].iter() {
        let (min, max) = (0u64, ((1u128 << n) - 1) as u64);
        let values: Vec<u64> = vec![min, max / 2, max]; // three values to test per `n`
        for v in values {
            assert!(range_proof_helper(v.into(), *n).is_ok());
        }
        assert!(range_proof_helper((max + 1).into(), *n).is_err());
    }
}

fn mod_gate_helper(v_val: Scalar, ct: u64, forged_rem: Option<Scalar>) -> Result<(), R1CSError> {
    let pc_gens = PedersenGens::default();
    let bp_gens = BulletproofGens::new(1024, 1);
    let blinding = BpScalar::from_bits([9u8; 32]);
    let gadget_err = |_| R1CSError::GadgetError {
        description: "invalid constant".to_string(),
    };

    let (proof, commitment) = {
        let mut prover_transcript = Transcript::new(b"ModGateTest");
        let mut prover = Prover::new(&pc_gens, &mut prover_transcript);
        let (com, var) = prover.commit(bp(v_val), blinding);

        let mut model = Cs::new();
        let vid = model.allocate(Some(v_val));
        let out = mod_gate(
            &mut model,
            LinComb::from_variable(vid),
            Some(v_val),
            Scalar::from(ct),
        )
        .map_err(gadget_err)?;
        if let Some(r) = forged_rem {
            // tamper with the remainder's witness before proving
            model.assignments[out.variable] = Some(r);
        }

        let mut var_map = vec![var];
        replay(&model, &mut prover, &mut var_map, true)?;
        let proof = prover.prove(&bp_gens)?;
        (proof, com)
    };

    let mut verifier_transcript = Transcript::new(b"ModGateTest");
    let mut verifier = Verifier::new(&mut verifier_transcript);
    let var = verifier.commit(commitment);

    let mut model = Cs::new();
    let vid = model.allocate(None);
    mod_gate(&mut model, LinComb::from_variable(vid), None, Scalar::from(ct)).map_err(gadget_err)?;

    let mut var_map = vec![var];
    replay(&model, &mut verifier, &mut var_map, false)?;
    verifier.verify(&proof, &pc_gens, &bp_gens)
}

#[test]
fn mod_gate_proof_roundtrip() {
    // 7 = 3*2 + 1: honest witnesses verify
    assert!(mod_gate_helper(Scalar::from(7u64), 3, None).is_ok());
    // a forged remainder (3*2 + 2 = 8 != 7) must not verify
    assert!(mod_gate_helper(Scalar::from(7u64), 3, Some(Scalar::from(2u64))).is_err());
}
