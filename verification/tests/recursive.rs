//! Chains of steps over the Pallas/Vesta cycle. The search for the sizes of real circuits is long work, so that only its
//! first round is run here, and chains run under parameters of small shapes.
use kilonova::engine::{CurveEngine, RandomOracle};
use kilonova::errors::{NovaError, ProofVerifyReason};
use kilonova::field::FieldElement;
use kilonova::pasta::{Fp, Fq, Pallas, PallasOracle, Vesta, VestaOracle};
use kilonova::quadratic::{Quadratic, QuadraticPredicates};
use kilonova::r1cs::R1CSShape;
use kilonova::span::params::{
    dummy_shape, max_commitment_key_size, setup_round, structure_signature, PublicParams,
};
use kilonova::span::recursive::{update_trace_digest, RecursiveSNARK};
use kilonova::span::relation::GlobalStructure;

type Params = PublicParams<Pallas, Vesta, QuadraticPredicates<Fq>>;

fn polynomial(square: u64, linear: u64, constant: u64) -> Quadratic<Fq> {
    Quadratic { square: Fq::from_u64(square), linear: Fq::from_u64(linear), constant: Fq::from_u64(constant) }
}

fn bootstrap_predicates() -> QuadraticPredicates<Fq> {
    QuadraticPredicates { polynomials: vec![polynomial(0, 1, 5)] }
}

fn example_predicates() -> QuadraticPredicates<Fq> {
    QuadraticPredicates { polynomials: vec![polynomial(0, 1, 5), polynomial(1, 1, 7)] }
}

/// Parameters of shapes without constraints, so that a chain of several steps is short work.
fn small_params(predicates: &QuadraticPredicates<Fq>) -> Params {
    let primary: Vec<R1CSShape<Pallas>> = predicates.polynomials.iter().map(|_| dummy_shape::<Pallas>()).collect();
    let secondary: Vec<R1CSShape<Vesta>> = vec![dummy_shape::<Vesta>()];
    PublicParams {
        F_arity: 1,
        ro_consts_primary: PallasOracle::constants(),
        ro_consts_secondary: VestaOracle::constants(),
        ck_primary: Pallas::setup("ck", 4),
        structure_primary: GlobalStructure::new(&primary),
        ck_secondary: Vesta::setup("ck", 4),
        structure_secondary: GlobalStructure::new(&secondary),
        digest: Fq::from_u64(42),
        _p: std::marker::PhantomData,
    }
}

fn equal(a: &[Fq], b: &[Fq]) -> bool {
    a.len() == b.len() && a.iter().zip(b).all(|(x, y)| x.equals(y))
}

fn run_nonuniform_trace_test(predicate_trace: &[usize], expected: u64) {
    let predicates = example_predicates();
    let pp = small_params(&predicates);
    let z0 = vec![Fq::from_u64(0)];
    let mut recursive_snark = RecursiveSNARK::new(&pp, &predicates, &z0, predicate_trace[0]).unwrap();
    for (step, predicate_id) in predicate_trace.iter().enumerate().skip(1) {
        recursive_snark.prove_step(&pp, &predicates, *predicate_id).unwrap();
        assert!(recursive_snark.verify(&pp, step + 1, &z0, &predicate_trace[..=step].to_vec()).is_ok());
    }
    let trace = predicate_trace.to_vec();
    let zn = recursive_snark.verify(&pp, trace.len(), &z0, &trace).unwrap();
    let mut zn_direct = z0[0];
    for predicate_id in predicate_trace {
        zn_direct = predicates.polynomials[*predicate_id].eval(&zn_direct);
    }
    assert!(equal(&zn, &[zn_direct]));
    assert!(equal(&zn, &[Fq::from_u64(expected)]));
    assert!(equal(recursive_snark.outputs(), &zn));
    assert_eq!(recursive_snark.num_steps(), trace.len());
}

#[test]
fn test_ivc_nontrivial_nonuniform_bootstrap() {
    let predicates = bootstrap_predicates();
    let pp = small_params(&predicates);
    assert!(pp.digest().equals(&Fq::from_u64(42)));
    let predicate_trace = vec![0usize];
    let z0 = vec![Fq::from_u64(0)];
    let recursive_snark = RecursiveSNARK::new(&pp, &predicates, &z0, 0).unwrap();
    let zn = recursive_snark.verify(&pp, predicate_trace.len(), &z0, &predicate_trace).unwrap();
    assert!(equal(&zn, &[Fq::from_u64(5)]));
}

#[test]
fn test_ivc_nontrivial_nonuniform_smoke() {
    run_nonuniform_trace_test(&[0usize, 1usize], 37);
}

#[test]
fn test_ivc_nontrivial_nonuniform() {
    run_nonuniform_trace_test(&[0usize, 1usize, 0usize], 42);
}

#[test]
fn verification_names_what_is_wrong() {
    let predicates = example_predicates();
    let pp = small_params(&predicates);
    let z0 = vec![Fq::from_u64(1)];
    let mut snark = RecursiveSNARK::new(&pp, &predicates, &z0, 1).unwrap();
    assert!(equal(snark.outputs(), &[Fq::from_u64(9)]));
    let failed = |reason| Some(NovaError::ProofVerifyError { reason });
    assert!(snark.verify(&pp, 1, &z0, &vec![1]).is_ok());
    assert_eq!(snark.verify(&pp, 0, &z0, &vec![]).err(), failed(ProofVerifyReason::StepsOrInputs));
    assert_eq!(snark.verify(&pp, 2, &z0, &vec![1, 1]).err(), failed(ProofVerifyReason::StepsOrInputs));
    assert_eq!(snark.verify(&pp, 1, &z0, &vec![2]).err(), failed(ProofVerifyReason::StepsOrInputs));
    assert_eq!(snark.verify(&pp, 1, &vec![Fq::from_u64(2)], &vec![1]).err(), failed(ProofVerifyReason::StepsOrInputs));
    assert_eq!(snark.verify(&pp, 1, &z0, &vec![0]).err(), failed(ProofVerifyReason::PredicateTrace));
    let zi = snark.zi[0];
    snark.zi[0] = zi.add(&Fq::from_u64(1));
    assert_eq!(snark.verify(&pp, 1, &z0, &vec![1]).err(), failed(ProofVerifyReason::OutputHash));
    snark.zi[0] = zi;
    snark.r_W_secondary.W[0] = Fp::from_u64(1);
    assert!(matches!(snark.verify(&pp, 1, &z0, &vec![1]).err(), Some(NovaError::UnSat { .. })));
    assert_eq!(ProofVerifyReason::OutputHash.message(), "Invalid output hash");
}

#[test]
fn steps_are_refused() {
    let predicates = example_predicates();
    let pp = small_params(&predicates);
    let z0 = vec![Fq::from_u64(0)];
    let long = vec![Fq::from_u64(0), Fq::from_u64(0)];
    assert_eq!(
        RecursiveSNARK::new(&pp, &predicates, &long, 0).err(),
        Some(NovaError::InvalidInitialInputLength)
    );
    assert_eq!(RecursiveSNARK::new(&pp, &predicates, &z0, 2).err(), Some(NovaError::InvalidInitialInputLength));
    let mut snark = RecursiveSNARK::new(&pp, &predicates, &z0, 0).unwrap();
    assert_eq!(snark.prove_step(&pp, &predicates, 2), Err(NovaError::InvalidInputLength));
    assert_eq!(snark.num_steps(), 1);
    assert_eq!(snark.i, 1);
}

#[test]
fn trace_digests_square() {
    // (0 + 1)^2 + 1 = 2, then (2 + 3)^2 + 3 = 28.
    let first = update_trace_digest(&Fq::from_u64(0), 0);
    assert!(first.equals(&Fq::from_u64(2)));
    assert!(update_trace_digest(&first, 2).equals(&Fq::from_u64(28)));
}

#[test]
fn sizes_of_the_first_guess() {
    let shapes = vec![dummy_shape::<Vesta>()];
    let structure = GlobalStructure::new_for_setup(&shapes);
    assert_eq!(structure_signature(&structure), (4, 2, 3, 1, vec![(4, 4, 2)]));
    assert_eq!(max_commitment_key_size(&shapes, &|_shape: &R1CSShape<Vesta>| 0), 4);
    assert_eq!(max_commitment_key_size(&shapes, &|shape: &R1CSShape<Vesta>| shape.num_cons() + 3), 7);
}

#[test]
fn the_first_round_does_not_settle() {
    let predicates = bootstrap_predicates();
    let guess = GlobalStructure::new_for_setup(&vec![dummy_shape::<Vesta>()]);
    let (c1, c2) = (PallasOracle::constants(), VestaOracle::constants());
    let round = setup_round::<Pallas, Vesta, _>(&predicates, &c1, &c2, &guess).unwrap();
    assert!(!round.settled);
    assert_eq!(round.primary_shapes.len(), 1);
    assert_eq!(round.primary_shapes[0].num_io(), 2);
    assert_eq!(round.shape_secondary.num_io(), 2);
    assert!(round.shape_secondary.num_cons() > 4);
}
