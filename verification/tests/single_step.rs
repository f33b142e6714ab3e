//! One step of the circuit on small predicates.
#![allow(non_snake_case)]

use kilonova::cs::ConstraintSystem;
use kilonova::engine::CurveEngine;
use kilonova::field::FieldElement;
use kilonova::pasta::{Fp, Fq, Vesta, VestaKey};
use kilonova::r1cs::{R1CSInstance, R1CSShape, R1CSWitness};
use kilonova::relaxed::{RelaxedR1CSInstance, RelaxedR1CSWitness};
use kilonova::shape::shape_cs_to_shape;
use kilonova::single_step::{
    build_direct_secondary_case_with_predicates, build_direct_secondary_single_step_snark, synthesize_secondary_direct,
};
use kilonova::span::single_step::{
    build_span_secondary_case_with_predicates, build_span_secondary_single_step_snark, synthesize_secondary_span,
};

/// A relaxed instance with the factor one and no errors is satisfied where the plain instance is.
fn relaxed_is_satisfied(
    shape: &R1CSShape<Vesta>,
    ck: &VestaKey,
    u: &RelaxedR1CSInstance<Vesta>,
    w: &RelaxedR1CSWitness<Vesta>,
) -> bool {
    let plain = R1CSInstance { comm_W: u.comm_W.copied(), X: u.X.clone() };
    let witness = R1CSWitness { W: w.W.clone(), r_W: w.r_W };
    u.u.equals(&Fp::from_u64(1))
        && w.E.iter().all(|e| e.equals(&Fp::from_u64(0)))
        && Vesta::commit(ck, &w.E, &w.r_E).equals(&u.comm_E)
        && shape.is_sat(ck, &plain, &witness).is_ok()
}

#[test]
fn test_span_secondary_single_step_snark_roundtrip() {
    let span = build_span_secondary_single_step_snark();
    assert!(span.num_constraints() > 0);
    assert!(relaxed_is_satisfied(span.shape(), span.ck(), span.relaxed_instance(), span.relaxed_witness()));
}

#[test]
fn test_secondary_augmented_non_base_case_satisfiable() {
    let case = build_direct_secondary_case_with_predicates(2);
    let mut cs: ConstraintSystem<Fp> = ConstraintSystem::new(true);
    synthesize_secondary_direct(&case, &mut cs).unwrap();
    assert!(cs.is_satisfied(), "direct circuit unsatisfied: {:?}", cs.which_is_unsatisfied());
    assert!(cs.num_constraints() > 0);
}

#[test]
fn test_secondary_augmented_rejects_bad_hash() {
    let mut case = build_direct_secondary_case_with_predicates(2);
    case.u.X[0] = case.u.X[0].add(&Fq::from_u64(1));
    let mut cs: ConstraintSystem<Fp> = ConstraintSystem::new(true);
    synthesize_secondary_direct(&case, &mut cs).unwrap();
    assert!(!cs.is_satisfied());
}

#[test]
fn test_span_reconstructed_folded_commitments_match_direct() {
    let span = build_span_secondary_single_step_snark();
    let a = span.reconstruct_folded_index_commitments();
    let b = span.expected_folded_index_commitments();
    assert!((0..3).all(|j| a[j].equals(&b[j])));
}

#[test]
fn span_circuit_is_satisfied() {
    let case = build_span_secondary_case_with_predicates(2);
    let mut cs: ConstraintSystem<Fp> = ConstraintSystem::new(true);
    synthesize_secondary_span(&case, &mut cs).unwrap();
    assert!(cs.is_satisfied());
}

#[test]
fn shapes_have_the_sizes_of_their_systems() {
    let case = build_span_secondary_case_with_predicates(2);
    let mut cs: ConstraintSystem<Fp> = ConstraintSystem::new(true);
    synthesize_secondary_span(&case, &mut cs).unwrap();
    let shape = shape_cs_to_shape::<Vesta>(&cs);
    assert_eq!(cs.num_inputs(), 3);
    assert_eq!(shape.num_io(), 2);
    assert_eq!(shape.num_cons(), cs.num_constraints());
    assert_eq!(shape.num_vars(), cs.num_aux());
}

#[test]
fn a_step_publishes_its_hash_though_it_is_rejected() {
    let good = build_direct_secondary_case_with_predicates(2);
    let mut bad = build_direct_secondary_case_with_predicates(2);
    bad.u.X[0] = bad.u.X[0].add(&Fq::from_u64(1));
    let mut first: ConstraintSystem<Fp> = ConstraintSystem::new(true);
    let mut second: ConstraintSystem<Fp> = ConstraintSystem::new(true);
    let a = synthesize_secondary_direct(&good, &mut first).unwrap();
    let b = synthesize_secondary_direct(&bad, &mut second).unwrap();
    assert!(first.is_satisfied() && !second.is_satisfied());
    assert_eq!(a.len(), 1);
    assert!(a[0].value.equals(&b[0].value));
    assert_eq!(first.num_constraints(), second.num_constraints());
    assert_eq!(first.num_inputs(), second.num_inputs());
}
