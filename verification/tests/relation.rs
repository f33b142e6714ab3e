//! Shapes, instances and witnesses on small values, and what is refused of them.
#![allow(non_snake_case)]

use kilonova::cs::{ConstraintSystem, LinearCombination, Variable};
use kilonova::engine::{Commitment, CurveEngine, RandomOracle};
use kilonova::errors::{NovaError, SynthesisError, UnSatReason};
use kilonova::field::FieldElement;
use kilonova::gadgets::{alloc_bit, alloc_num_equals, conditionally_select, le_bits_to_num, AllocatedNum};
use kilonova::instance_circuit::AllocatedR1CSInstance;
use kilonova::math::log_2;
use kilonova::nifs::{interpolate, NIFS};
use kilonova::pasta::{Fp, Fq, Pallas, PallasKey, PallasOracle};
use kilonova::r1cs::{R1CSInstance, R1CSShape, R1CSWitness};
use kilonova::relation::{bits_le, eq_at, eq_eval, FoldedInstance, FoldedWitness, GlobalStructure};
use kilonova::relaxed::{derandomize_commitment, RelaxedR1CSInstance, RelaxedR1CSWitness};
use kilonova::shape::{instance_and_witness, shape_cs_to_shape};

fn fp(v: u64) -> Fp {
    Fp::from_u64(v)
}

fn fq(v: u64) -> Fq {
    Fq::from_u64(v)
}

/// One constraint: the first variable times the second is the first public value.
fn product_shape() -> R1CSShape<Pallas> {
    R1CSShape::new(1, 2, 1, vec![(0, 0, fq(1))], vec![(0, 1, fq(1))], vec![(0, 3, fq(1))]).ok().unwrap()
}

fn committed(ck: &PallasKey, w: &R1CSWitness<Pallas>) -> Commitment<Pallas> {
    Pallas::commit(ck, &w.W, &w.r_W)
}

#[test]
fn entries_outside_of_the_sizes_are_refused() {
    let refused = |row: usize, col: usize| {
        R1CSShape::<Pallas>::new(1, 2, 1, vec![(row, col, fq(1))], vec![], vec![]).err() == Some(NovaError::InvalidIndex)
    };
    assert!(!refused(0, 3));
    assert!(refused(0, 4));
    assert!(refused(1, 0));
}

#[test]
fn instances_are_checked_in_order() {
    let shape = product_shape();
    let ck = shape.commitment_key(0);
    let w = R1CSWitness { W: vec![fq(3), fq(5)], r_W: fq(7) };
    let u = R1CSInstance { comm_W: committed(&ck, &w), X: vec![fq(15)] };
    assert_eq!(shape.is_sat(&ck, &u, &w), Ok(()));
    let short = R1CSWitness { W: vec![fq(3)], r_W: fq(7) };
    assert_eq!(shape.is_sat(&ck, &u, &short), Err(NovaError::InvalidWitnessLength));
    let long = R1CSInstance { comm_W: committed(&ck, &w), X: vec![fq(15), fq(0)] };
    assert_eq!(shape.is_sat(&ck, &long, &w), Err(NovaError::InvalidInputLength));
    let wrong = R1CSInstance { comm_W: committed(&ck, &w), X: vec![fq(16)] };
    assert_eq!(shape.is_sat(&ck, &wrong, &w), Err(NovaError::UnSat { reason: UnSatReason::Constraints }));
    let other = R1CSInstance { comm_W: committed(&ck, &short), X: vec![fq(15)] };
    assert_eq!(shape.is_sat(&ck, &other, &w), Err(NovaError::UnSat { reason: UnSatReason::Commitment }));
}

#[test]
fn folded_instances_are_checked_in_order() {
    let shape = product_shape();
    let ck = shape.commitment_key(0);
    let S = GlobalStructure::new(&vec![product_shape(), product_shape()]);
    let w = R1CSWitness { W: vec![fq(3), fq(5)], r_W: fq(7) };
    let u = R1CSInstance { comm_W: committed(&ck, &w), X: vec![fq(15)] };
    let W = FoldedWitness::from_r1cs_witness(&S, 1, &w);
    let U = || FoldedInstance::from_r1cs_instance_witness(&S, 1, &u, &w);
    assert_eq!(S.is_sat(&ck, &U(), &W), Ok(()));
    let mut long = U();
    long.v.push(fp(0));
    assert_eq!(S.is_sat(&ck, &long, &W), Err(NovaError::InvalidWitnessLength));
    let mut moved = U();
    moved.comm_W = Pallas::identity_commitment();
    assert_eq!(S.is_sat(&ck, &moved, &W), Err(NovaError::UnSat { reason: UnSatReason::WitnessCommitment }));
    let mut other = U();
    other.comm_M = S.predicate_commitments(0);
    other.comm_M[0] = Pallas::identity_commitment();
    assert_eq!(S.is_sat(&ck, &other, &W), Err(NovaError::UnSat { reason: UnSatReason::IndexCommitment }));
    let mut claimed = U();
    claimed.v[0] = claimed.v[0].add(&fp(1));
    assert_eq!(S.is_sat(&ck, &claimed, &W), Err(NovaError::UnSat { reason: UnSatReason::Relation }));
}

#[test]
fn proofs_for_unknown_predicates_are_refused() {
    let ck = product_shape().commitment_key(0);
    let S = GlobalStructure::new(&vec![product_shape(), product_shape()]);
    let w = R1CSWitness { W: vec![fq(3), fq(5)], r_W: fq(7) };
    let u = R1CSInstance { comm_W: committed(&ck, &w), X: vec![fq(15)] };
    let U = FoldedInstance::from_r1cs_instance_witness(&S, 0, &u, &w);
    let W = FoldedWitness::from_r1cs_witness(&S, 0, &w);
    let consts = PallasOracle::constants();
    let unknown = NIFS::prove(&ck, &consts, &fq(0), &S, 2, &U, &W, &u, &w).err();
    assert_eq!(unknown, Some(NovaError::InvalidInputLength));
    let long = R1CSWitness { W: vec![fq(3), fq(5), fq(0), fq(0), fq(0)], r_W: fq(7) };
    let refused = NIFS::prove(&ck, &consts, &fq(0), &S, 1, &U, &W, &u, &long).err();
    assert_eq!(refused, Some(NovaError::InvalidWitnessLength));
    let (mut nifs, _) = NIFS::prove(&ck, &consts, &fq(0), &S, 1, &U, &W, &u, &w).ok().unwrap();
    assert!(nifs.verify(&consts, &fq(0), &S, 1, &U, &u).is_ok());
    assert_eq!(nifs.verify(&consts, &fq(0), &S, 2, &U, &u).err(), Some(NovaError::InvalidInputLength));
    nifs.sigmas.pop();
    assert_eq!(nifs.verify(&consts, &fq(0), &S, 1, &U, &u).err(), Some(NovaError::InvalidSumcheckProof));
}

#[test]
fn blindings_come_off() {
    let shape = product_shape();
    let ck = shape.commitment_key(0);
    let w = R1CSWitness { W: vec![fq(3), fq(5)], r_W: fq(7) };
    let u = R1CSInstance { comm_W: committed(&ck, &w), X: vec![fq(15)] };
    let plain = Pallas::commit(&ck, &w.W, &fq(0));
    assert!(derandomize_commitment::<Pallas>(&ck, &u.comm_W, &w.r_W).equals(&plain));
    let (relaxed_w, r_W, r_E) = RelaxedR1CSWitness::from_r1cs_witness(&shape, &w).derandomize();
    let relaxed_u = RelaxedR1CSInstance::from_r1cs_instance(&u).derandomize(&ck, &r_W, &r_E);
    assert!(relaxed_u.comm_W.equals(&plain));
    assert!(relaxed_u.comm_E.equals(&Pallas::identity_commitment()));
    assert!(relaxed_w.r_W.equals(&fq(0)) && relaxed_w.E.len() == 1);
}

#[test]
fn weights_of_indices() {
    assert_eq!(bits_le(6, 4), vec![false, true, true, false]);
    let point = vec![fp(2), fp(3)];
    // Index two has the bits zero and one: the weight is (1 - 2) times 3.
    assert!(eq_at(2, &point).equals(&fp(0).sub(&fp(3))));
    assert!(eq_eval(&vec![true, true], &point).equals(&fp(6)));
    assert_eq!((log_2(1), log_2(5), log_2(8)), (0, 3, 3));
}

#[test]
fn polynomials_through_points() {
    let points = vec![fp(0), fp(1), fp(2)];
    let evals = vec![fp(1), fp(2), fp(5)];
    assert!(interpolate(&points, &evals, &fp(10)).ok().unwrap().equals(&fp(101)));
    let twice = vec![fp(1), fp(1), fp(2)];
    assert!(interpolate(&twice, &evals, &fp(10)).is_err());
}

#[test]
fn field_elements() {
    let minus_one = Fp::minus_one();
    assert!(minus_one.add(&fp(1)).equals(&fp(0)));
    assert_eq!(minus_one.to_limbs(), [0x992d30ed00000000, 0x224698fc094cf91b, 0, 0x4000000000000000]);
    assert_eq!(fp(0x0102).to_bytes()[..3], [2, 1, 0]);
    assert!(Fp::from_bytes(&minus_one.to_bytes()).equals(&minus_one));
    assert!(fp(4).invert().unwrap().mul(&fp(4)).equals(&fp(1)));
    assert!(fp(0).invert().is_none());
    // The order of the base field of Pallas is below that of its scalar field.
    let scalar = Fq::minus_one();
    let read = Pallas::scalar_as_base(&scalar);
    assert!(!Pallas::base_as_scalar(&read).equals(&scalar));
    assert!(Pallas::base_as_scalar(&fp(9)).equals(&fq(9)));
}

#[test]
fn systems_say_which_constraint_fails() {
    let mut cs: ConstraintSystem<Fq> = ConstraintSystem::new(true);
    let x = AllocatedNum::allocate(&mut cs, &fq(3));
    let y = AllocatedNum::allocate(&mut cs, &fq(5));
    let z = x.mul(&mut cs, &y);
    assert!(z.value.equals(&fq(15)));
    assert_eq!(cs.which_is_unsatisfied(), None);
    let one = |v: Variable| LinearCombination::zero().plus(&fq(1), v);
    cs.enforce(one(x.variable), one(x.variable), one(z.variable));
    assert_eq!(cs.which_is_unsatisfied(), Some(1));
    assert!(!cs.is_satisfied());
}

#[test]
fn systems_make_up_instances() {
    let mut cs: ConstraintSystem<Fq> = ConstraintSystem::new(true);
    let x = AllocatedNum::allocate(&mut cs, &fq(3));
    let y = x.square(&mut cs);
    y.inputize(&mut cs);
    let shape = shape_cs_to_shape::<Pallas>(&cs);
    assert_eq!((shape.num_cons(), shape.num_vars(), shape.num_io()), (2, 2, 1));
    let ck = shape.commitment_key(0);
    let (u, w) = instance_and_witness::<Pallas>(&cs, &shape, &ck, &fq(4)).ok().unwrap();
    assert!(u.X[0].equals(&fq(9)));
    assert_eq!(shape.is_sat(&ck, &u, &w), Ok(()));
    let padded = shape.pad();
    assert_eq!((padded.num_cons(), padded.num_vars()), (2, 2));
}

#[test]
fn numbers_and_bits_in_a_system() {
    let mut cs: ConstraintSystem<Fp> = ConstraintSystem::new(true);
    let (a, b) = (AllocatedNum::allocate(&mut cs, &fp(6)), AllocatedNum::allocate(&mut cs, &fp(7)));
    let same = alloc_num_equals(&mut cs, &a, &a);
    let different = alloc_num_equals(&mut cs, &a, &b);
    assert!(same.num.value.equals(&fp(1)) && different.num.value.equals(&fp(0)));
    assert!(conditionally_select(&mut cs, &a, &b, &different).value.equals(&fp(7)));
    let bits = vec![alloc_bit(&mut cs, true), alloc_bit(&mut cs, false), alloc_bit(&mut cs, true)];
    assert!(le_bits_to_num(&mut cs, &bits).value.equals(&fp(5)));
    assert!(cs.is_satisfied());
}

#[test]
fn instances_have_to_be_there_where_values_are_wanted() {
    let mut cs: ConstraintSystem<Fp> = ConstraintSystem::new(true);
    let missing = AllocatedR1CSInstance::<Pallas>::allocate(&mut cs, None).err();
    assert_eq!(missing, Some(SynthesisError::AssignmentMissing));
    let mut cs: ConstraintSystem<Fp> = ConstraintSystem::new(false);
    assert!(AllocatedR1CSInstance::<Pallas>::allocate(&mut cs, None).is_ok());
}
