//! Folding on small predicates.
#![allow(non_snake_case)]

use kilonova::engine::{CurveEngine, RandomOracle};
use kilonova::field::FieldElement;
use kilonova::nifs::NIFS;
use kilonova::pasta::{Fp, Fq, Pallas, PallasKey, PallasOracle};
use kilonova::r1cs::{R1CSInstance, R1CSShape, R1CSWitness};
use kilonova::relation::{FoldedInstance, FoldedWitness, GlobalStructure};

struct Tiny {
    S: GlobalStructure<Pallas>,
    ck: PallasKey,
    U0: R1CSInstance<Pallas>,
    W0: R1CSWitness<Pallas>,
    U1: R1CSInstance<Pallas>,
    W1: R1CSWitness<Pallas>,
}

fn one() -> Fq {
    Fq::from_u64(1)
}

fn zero() -> Fq {
    Fq::from_u64(0)
}

fn tiny_r1cs(scale: Fq) -> Tiny {
    assert!(scale == one());
    let one = one();
    let shape0 = R1CSShape::<Pallas>::new(
        4,
        4,
        2,
        vec![(0, 0, scale), (1, 1, one), (2, 2, one), (3, 3, one)],
        vec![(0, 0, one), (1, 1, scale), (2, 2, one), (3, 3, one)],
        vec![(0, 4, one), (1, 5, scale)],
    )
    .ok()
    .unwrap();
    let shape1 = R1CSShape::<Pallas>::new(
        8,
        8,
        2,
        vec![(0, 0, one), (1, 1, scale), (4, 4, one)],
        vec![(0, 0, scale), (1, 1, one), (4, 4, one)],
        vec![(0, 8, one), (1, 9, one)],
    )
    .ok()
    .unwrap();
    let ck = Pallas::setup("ck", 8);
    let S = GlobalStructure::new(&vec![shape0, shape1]);
    let W0 = R1CSWitness { W: vec![one, one, zero(), zero()], r_W: zero() };
    let U0 = R1CSInstance { comm_W: Pallas::commit(&ck, &W0.W, &W0.r_W), X: vec![one, zero()] };
    let W1 = R1CSWitness {
        W: vec![one, one, zero(), zero(), zero(), zero(), zero(), zero()],
        r_W: zero(),
    };
    let U1 = R1CSInstance { comm_W: Pallas::commit(&ck, &W1.W, &W1.r_W), X: vec![one, zero()] };
    Tiny { S, ck, U0, W0, U1, W1 }
}

fn same_instance(a: &FoldedInstance<Pallas>, b: &FoldedInstance<Pallas>) -> bool {
    a.comm_W.equals(&b.comm_W)
        && (0..3).all(|j| a.comm_M[j].equals(&b.comm_M[j]))
        && a.u == b.u
        && a.X == b.X
        && a.r_x == b.r_x
        && a.r_y == b.r_y
        && a.v == b.v
}

#[test]
fn test_nifs_roundtrip() {
    let t = tiny_r1cs(one());
    let U1 = FoldedInstance::from_r1cs_instance_witness(&t.S, 0, &t.U0, &t.W0);
    let W1 = FoldedWitness::from_r1cs_witness(&t.S, 0, &t.W0);
    let ro_consts = PallasOracle::constants();
    let pp_digest = zero();
    let (nifs, (folded_u, folded_w)) =
        NIFS::prove(&t.ck, &ro_consts, &pp_digest, &t.S, 1, &U1, &W1, &t.U1, &t.W1).ok().unwrap();
    let folded_u_v = nifs.verify(&ro_consts, &pp_digest, &t.S, 1, &U1, &t.U1).ok().unwrap();
    assert!(same_instance(&folded_u, &folded_u_v));
    assert!(t.S.is_sat(&t.ck, &folded_u, &folded_w).is_ok());
}

#[test]
fn test_nifs_rejects_tampered_proof() {
    let t = tiny_r1cs(one());
    let U1 = FoldedInstance::from_r1cs_instance_witness(&t.S, 0, &t.U0, &t.W0);
    let W1 = FoldedWitness::from_r1cs_witness(&t.S, 0, &t.W0);
    let ro_consts = PallasOracle::constants();
    let pp_digest = zero();
    let (mut nifs, _) =
        NIFS::prove(&t.ck, &ro_consts, &pp_digest, &t.S, 1, &U1, &W1, &t.U1, &t.W1).ok().unwrap();
    nifs.sc_proof_x.polys[0][0] = nifs.sc_proof_x.polys[0][0].add(&Fp::from_u64(1));
    assert!(nifs.verify(&ro_consts, &pp_digest, &t.S, 1, &U1, &t.U1).is_err());
}

#[test]
fn test_nifs_rejects_tampered_helper_claims() {
    let t = tiny_r1cs(one());
    let U1 = FoldedInstance::from_r1cs_instance_witness(&t.S, 0, &t.U0, &t.W0);
    let W1 = FoldedWitness::from_r1cs_witness(&t.S, 0, &t.W0);
    let ro_consts = PallasOracle::constants();
    let pp_digest = zero();
    let (nifs, _) = NIFS::prove(&t.ck, &ro_consts, &pp_digest, &t.S, 1, &U1, &W1, &t.U1, &t.W1).ok().unwrap();
    let base_one = Fp::from_u64(1);

    let mut tampered_sigma = nifs.copied();
    tampered_sigma.sigmas[0] = tampered_sigma.sigmas[0].add(&base_one);
    assert!(tampered_sigma.verify(&ro_consts, &pp_digest, &t.S, 1, &U1, &t.U1).is_err());

    let mut tampered_tau = nifs.copied();
    tampered_tau.taus[0] = tampered_tau.taus[0].add(&base_one);
    assert!(tampered_tau.verify(&ro_consts, &pp_digest, &t.S, 1, &U1, &t.U1).is_err());

    let mut tampered_epsilon = nifs.copied();
    tampered_epsilon.epsilons[0] = tampered_epsilon.epsilons[0].add(&base_one);
    assert!(tampered_epsilon.verify(&ro_consts, &pp_digest, &t.S, 1, &U1, &t.U1).is_err());

    let mut tampered_theta = nifs;
    tampered_theta.thetas[0] = tampered_theta.thetas[0].add(&base_one);
    assert!(tampered_theta.verify(&ro_consts, &pp_digest, &t.S, 1, &U1, &t.U1).is_err());
}

fn scaled_shape(scale: Fq) -> R1CSShape<Pallas> {
    let one = one();
    R1CSShape::<Pallas>::new(
        4,
        4,
        2,
        vec![(0, 0, scale), (1, 1, one), (2, 2, one), (3, 3, one)],
        vec![(0, 0, one), (1, 1, scale), (2, 2, one), (3, 3, one)],
        vec![(0, 4, one), (1, 5, scale)],
    )
    .ok()
    .unwrap()
}

#[test]
fn test_folded_relation_sat() {
    let shape0 = scaled_shape(one());
    let shape1 = scaled_shape(Fq::from_u64(2));
    let ck0 = shape0.commitment_key(0);
    let num_vars = shape0.num_vars();
    let S = GlobalStructure::new(&vec![shape0, shape1]);
    let W = R1CSWitness { W: vec![zero(); num_vars], r_W: zero() };
    let U = R1CSInstance { comm_W: Pallas::commit(&ck0, &W.W, &W.r_W), X: vec![zero(), zero()] };

    let folded_w = FoldedWitness::from_r1cs_witness(&S, 0, &W);
    let folded_u = FoldedInstance::from_r1cs_instance_witness(&S, 0, &U, &W);
    assert!(S.is_sat(&ck0, &folded_u, &folded_w).is_ok());
}

#[test]
fn test_cross_predicate_fold_sat() {
    let shape0 = scaled_shape(one());
    let shape1 = scaled_shape(Fq::from_u64(2));
    let ck0 = shape0.commitment_key(0);
    let (vars0, vars1) = (shape0.num_vars(), shape1.num_vars());
    let S = GlobalStructure::new(&vec![shape0, shape1]);

    let W0 = R1CSWitness { W: vec![zero(); vars0], r_W: zero() };
    let U0 = R1CSInstance { comm_W: Pallas::commit(&ck0, &W0.W, &W0.r_W), X: vec![zero(), zero()] };
    let W1 = R1CSWitness { W: vec![zero(); vars1], r_W: zero() };
    let U1 = R1CSInstance { comm_W: Pallas::commit(&ck0, &W1.W, &W1.r_W), X: vec![zero(), zero()] };

    let running_w = FoldedWitness::from_r1cs_witness(&S, 0, &W0);
    let running_u = FoldedInstance::from_r1cs_instance_witness(&S, 0, &U0, &W0);
    let rho_base = Fp::from_u64(3);
    let rho_scalar = Fq::from_u64(3);
    let folded_w = running_w.fold(&S, 1, &W1, &rho_base, &rho_scalar).ok().unwrap();
    let z = S.z_from_folded(&running_u, &running_w);
    let _sigmas = S.compute_sigmas(&running_w.lambda_proj, &running_u.r_y, &running_u.r_x);
    let folded_u = running_u.fold(
        &S,
        1,
        &U1,
        &rho_base,
        &rho_scalar,
        running_u.r_x.clone(),
        running_u.r_y.clone(),
        S.compute_v_from_coeffs(&folded_w.lambda_proj, &running_u.r_x, &running_u.r_y, &z),
    );
    assert!(folded_w.lambda_scalar[1].equals(&Fq::from_u64(3)));
    let expected = S.commit_index_coeffs(&folded_w.lambda_scalar);
    assert!((0..3).all(|j| folded_u.comm_M[j].equals(&expected[j])));
}

#[test]
fn transcript_bytes_are_those_of_the_parts() {
    let t = tiny_r1cs(one());
    let U = FoldedInstance::from_r1cs_instance_witness(&t.S, 0, &t.U0, &t.W0);
    let bytes = U.to_transcript_bytes();
    let elements = 1 + U.X.len() + U.r_x.len() + U.r_y.len() + U.v.len();
    assert_eq!(bytes.len(), 4 * 65 + 32 * elements);
    let (x, y, infinite) = U.comm_W.to_coordinates();
    assert_eq!(bytes[..32], x.to_bytes());
    assert_eq!(bytes[32..64], y.to_bytes());
    assert_eq!(bytes[64], infinite as u8);
    assert_eq!(bytes[260..292], U.u.to_bytes());
    assert_eq!(bytes[292..324], U.X[0].to_bytes());
    assert_eq!(bytes[bytes.len() - 32..], U.v[U.v.len() - 1].to_bytes());
}
