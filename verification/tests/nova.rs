//! Steps that fold a relaxed instance by the three schemes, over the Pallas curve.
#![allow(non_snake_case)]

use kilonova::augmented::TrivialPredicateSet;
use kilonova::cs::ConstraintSystem;
use kilonova::engine::{Commitment, CurveEngine, RandomOracle};
use kilonova::errors::{NovaError, SynthesisError};
use kilonova::field::FieldElement;
use kilonova::nova::circuit::{NovaAugmentedCircuit, NovaAugmentedCircuitInputs, Scheme};
use kilonova::nova::cubic::CubicCircuit;
use kilonova::nova::prover::{prove_products, sumcheck_prove};
use kilonova::nova::simulation::simulate;
use kilonova::nova::univariate::CompressedUniPoly;
use kilonova::pasta::{Fp, Fq, Pallas, PallasOracle, Vesta};
use kilonova::r1cs::R1CSInstance;
use kilonova::relaxed::RelaxedR1CSInstance;

fn fp(v: u64) -> Fp {
    Fp::from_u64(v)
}

fn fq(v: u64) -> Fq {
    Fq::from_u64(v)
}

fn commitment(v: u64) -> Commitment<Pallas> {
    Pallas::commit(&Pallas::setup("ck", 2), &vec![fq(v), fq(2)], &fq(5))
}

fn absorb_point(ro: &mut PallasOracle, c: &Commitment<Pallas>) {
    let (x, y, infinite) = c.to_coordinates();
    ro.absorb(&x);
    ro.absorb(&y);
    ro.absorb(&fp(infinite as u64));
}

struct Step {
    digest: Fq,
    i: Fp,
    z0: Fp,
    zi: Fp,
    U: (u64, u64, u64, [Fq; 2]),
    ri: Fp,
    u: (u64, [Fq; 2]),
    T: u64,
    S: u64,
}

impl Step {
    fn new() -> Self {
        let large = fq(0).sub(&fq(9));
        let mut step = Step {
            digest: fq(77),
            i: fp(3),
            z0: fp(10),
            zi: fp(11),
            U: (21, 22, 23, [large, fq(1000)]),
            ri: fp(31),
            u: (41, [fq(0), large]),
            T: 51,
            S: 52,
        };
        step.u.1[0] = Pallas::base_as_scalar(&step.hash());
        step
    }

    fn hash(&self) -> Fp {
        let mut ro = PallasOracle::new(&PallasOracle::constants());
        ro.absorb(&Pallas::scalar_as_base(&self.digest));
        ro.absorb(&self.i);
        ro.absorb(&self.z0);
        ro.absorb(&self.zi);
        absorb_point(&mut ro, &commitment(self.U.0));
        absorb_point(&mut ro, &commitment(self.U.0));
        absorb_point(&mut ro, &commitment(self.U.1));
        ro.absorb(&fp(self.U.2));
        for x in &self.U.3 {
            for limb in x.to_limbs() {
                ro.absorb(&fp(limb));
            }
        }
        ro.absorb(&self.ri);
        ro.squeeze(250)
    }

    fn challenge(&self) -> Fp {
        let mut ro = PallasOracle::new(&PallasOracle::constants());
        ro.absorb(&Pallas::scalar_as_base(&self.digest));
        absorb_point(&mut ro, &commitment(self.u.0));
        ro.absorb(&Pallas::scalar_as_base(&self.u.1[0]));
        ro.absorb(&Pallas::scalar_as_base(&self.u.1[1]));
        absorb_point(&mut ro, &commitment(self.T));
        absorb_point(&mut ro, &commitment(self.S));
        ro.squeeze(128)
    }

    fn inputs(&self, polys: Vec<CompressedUniPoly<Fp>>, product: u64) -> NovaAugmentedCircuitInputs<Pallas> {
        let rounds = polys.len();
        NovaAugmentedCircuitInputs::new(
            self.digest,
            self.i,
            vec![self.z0],
            Some(vec![self.zi]),
            Some(RelaxedR1CSInstance {
                comm_W: commitment(self.U.0),
                comm_E: commitment(self.U.1),
                X: self.U.3.to_vec(),
                u: fq(self.U.2),
            }),
            Some(self.ri),
            fp(32),
            Some(R1CSInstance { comm_W: commitment(self.u.0), X: self.u.1.to_vec() }),
            Some(commitment(self.T)),
            Some(commitment(self.S)),
            None,
            Some(polys),
            Some(vec![fp(6); rounds]),
            Some(vec![fp(2), fp(3), fp(product)]),
        )
    }
}

fn polynomial(c0: u64, c2: u64, c3: u64) -> CompressedUniPoly<Fp> {
    CompressedUniPoly { coeffs_except_linear_term: vec![fp(c0), fp(c2), fp(c3)] }
}

fn satisfied(step: &Step, flag: Scheme, polys: Vec<CompressedUniPoly<Fp>>) -> bool {
    satisfied_with(step, flag, polys, 6)
}

fn satisfied_with(step: &Step, flag: Scheme, polys: Vec<CompressedUniPoly<Fp>>, product: u64) -> bool {
    let consts = PallasOracle::constants();
    let predicate = TrivialPredicateSet::default();
    let circuit = NovaAugmentedCircuit::new(true, Some(step.inputs(polys, product)), &predicate, &consts, 1, 2, flag);
    let mut cs: ConstraintSystem<Fp> = ConstraintSystem::new(true);
    let out = circuit.synthesize(&mut cs).unwrap();
    assert_eq!(out.len(), 1);
    assert!(out[0].value.equals(&step.zi));
    assert_eq!(cs.num_inputs(), 3);
    cs.is_satisfied()
}

#[test]
fn steps_with_the_right_hash_are_satisfied() {
    let step = Step::new();
    assert!(satisfied(&step, Scheme::Nova, vec![polynomial(1, 2, 3)]));
    assert!(satisfied(&step, Scheme::ZKPCD, vec![polynomial(0, 0, 0)]));
    assert!(satisfied(&step, Scheme::KiloNova, vec![polynomial(0, 0, 0)]));
}

#[test]
fn steps_with_a_wrong_hash_are_not_satisfied() {
    let mut step = Step::new();
    step.ri = fp(99);
    assert!(!satisfied(&step, Scheme::Nova, vec![polynomial(0, 0, 0)]));
}

#[test]
fn a_claim_that_is_not_zero_is_not_satisfied() {
    let step = Step::new();
    assert!(!satisfied(&step, Scheme::ZKPCD, vec![polynomial(1, 2, 3)]));
    assert!(!satisfied(&step, Scheme::KiloNova, vec![polynomial(1, 2, 3)]));
}

#[test]
fn values_that_are_no_product_are_not_satisfied() {
    // The equality polynomial starts at one, so that a wrong product is not lost in it.
    let step = Step::new();
    assert!(!satisfied_with(&step, Scheme::ZKPCD, vec![polynomial(0, 0, 0)], 4));
    assert!(!satisfied_with(&step, Scheme::KiloNova, vec![polynomial(0, 0, 0)], 4));
    assert!(satisfied_with(&step, Scheme::Nova, vec![polynomial(0, 0, 0)], 4));
}

#[test]
fn public_values_and_commitments_fold() {
    let step = Step::new();
    let r = Pallas::base_as_scalar(&step.challenge());
    let consts = PallasOracle::constants();
    let predicate = TrivialPredicateSet::default();
    let inputs = step.inputs(vec![polynomial(0, 0, 0)], 6);
    let circuit = NovaAugmentedCircuit::new(true, Some(inputs), &predicate, &consts, 1, 2, Scheme::KiloNova);
    let mut cs: ConstraintSystem<Fp> = ConstraintSystem::new(true);
    let folded = circuit.synthesize_step(&mut cs).unwrap().folded;
    for (limbs, old, new) in [(&folded.X0.limbs, step.U.3[0], step.u.1[0]), (&folded.X1.limbs, step.U.3[1], step.u.1[1])] {
        // The second value is above the order of the base field, in which it is read.
        let read = Pallas::base_as_scalar(&Pallas::scalar_as_base(&new));
        let expected = old.add(&r.mul(&read)).to_limbs();
        assert_eq!(limbs.len(), 4);
        assert!((0..4).all(|k| limbs[k].value.equals(&fp(expected[k]))));
    }
    assert!(folded.u.value.equals(&fp(step.U.2).add(&step.challenge())));
    let same = |p: &kilonova::points::AllocatedPoint<Pallas>, c: &Commitment<Pallas>| {
        let (x, y, _) = c.to_coordinates();
        p.x.value.equals(&x) && p.y.value.equals(&y)
    };
    let plus = |a: u64, b: u64, s: &Fq| {
        Pallas::add_commitments(&commitment(a), &Pallas::scale_commitment(&commitment(b), s))
    };
    assert!(same(&folded.W, &plus(step.U.0, step.u.0, &r)));
    assert!(same(&folded.E, &plus(step.U.1, step.T, &r)));
    let powers = r.add(&r.mul(&r)).add(&r.mul(&r).mul(&r));
    assert!(same(&folded.R, &plus(step.U.0, step.S, &powers)));
}

#[test]
fn missing_inputs_are_refused() {
    let consts = PallasOracle::constants();
    let predicate = TrivialPredicateSet::default();
    let circuit = NovaAugmentedCircuit::<Pallas, TrivialPredicateSet>::new(
        true,
        None,
        &predicate,
        &consts,
        1,
        1,
        Scheme::Nova,
    );
    let mut cs: ConstraintSystem<Fp> = ConstraintSystem::new(false);
    assert_eq!(circuit.synthesize(&mut cs).err(), Some(SynthesisError::AssignmentMissing));
    let mut inputs = Step::new().inputs(vec![], 6);
    inputs.taus = None;
    let circuit = NovaAugmentedCircuit::new(true, Some(inputs), &predicate, &consts, 1, 1, Scheme::Nova);
    assert_eq!(circuit.synthesize(&mut cs).err(), Some(SynthesisError::AssignmentMissing));
}

#[test]
fn constraints_grow_with_the_degree_and_the_rounds() {
    let digest = fq(1234);
    let count =
        |flag: Scheme, mu: usize, deg: usize| simulate::<Pallas, Vesta>(flag, mu, deg, &digest).ok().unwrap().num_constraints();
    let nova = count(Scheme::Nova, 1, 1);
    let zkpcd: Vec<usize> = [1, 2, 3].iter().map(|mu| count(Scheme::ZKPCD, *mu, 2)).collect();
    let kilonova: Vec<usize> = [2, 3].iter().map(|deg| count(Scheme::KiloNova, 1, *deg)).collect();
    assert!(nova < zkpcd[0]);
    assert_eq!(zkpcd[2] - zkpcd[1], zkpcd[1] - zkpcd[0]);
    assert_eq!(kilonova[1] - kilonova[0], 2 * (kilonova[0] - zkpcd[0]));
}

#[test]
fn sumcheck_proofs_have_their_lengths() {
    assert_eq!(sumcheck_prove::<Pallas>(0).err(), Some(NovaError::InvalidSumcheckProof));
    assert_eq!(sumcheck_prove::<Pallas>(usize::BITS as usize).err(), Some(NovaError::InvalidSumcheckProof));
    let (polys, taus, evals) = sumcheck_prove::<Pallas>(3).unwrap();
    assert_eq!((polys.len(), taus.len(), evals.len()), (3, 3, 3));
    assert!(polys.iter().all(|p| p.coeffs_except_linear_term.len() == 3));
}

#[test]
fn sumcheck_proofs_of_one_variable() {
    // Tables a, b over one variable, at the point tau: the polynomial is eq(tau, X) (a(X) b(X) - c(X)).
    let (a, b, tau) = (vec![fq(2), fq(5)], vec![fq(3), fq(7)], fq(4));
    let (polys, evals) = prove_products::<Pallas>(&a, &b, &vec![tau]);
    let c = [fq(6), fq(35)];
    let (da, db, dc) = (a[1].sub(&a[0]), b[1].sub(&b[0]), c[1].sub(&c[0]));
    // a b - c = da db X^2 + (a0 db + b0 da - dc) X, and the weight is (1 - tau) + (2 tau - 1) X.
    let (k2, k1) = (da.mul(&db), a[0].mul(&db).add(&b[0].mul(&da)).sub(&dc));
    let (w0, w1) = (fq(1).sub(&tau), tau.add(&tau).sub(&fq(1)));
    let expected = [fq(0), w0.mul(&k2).add(&w1.mul(&k1)), w1.mul(&k2)];
    let got = &polys[0].coeffs_except_linear_term;
    assert!((0..3).all(|i| got[i].equals(&expected[i])));
    // The last values are those of the lines through the tables at one point.
    let t = evals[0].sub(&a[0]).mul(&da.invert().unwrap());
    assert!(evals[1].equals(&b[0].add(&t.mul(&db))));
    assert!(evals[2].equals(&c[0].add(&t.mul(&dc))));
    let whole = polys[0].decompress(&fq(0));
    let total = whole.iter().fold(whole[0], |acc, x| acc.add(x));
    assert!(total.equals(&fq(0)));
}

#[test]
fn cubes_plus_five() {
    let z = CubicCircuit {}.output(&vec![fp(3)]);
    assert_eq!(z.len(), 1);
    assert!(z[0].equals(&fp(35)));
    let consts = PallasOracle::constants();
    let predicate = CubicCircuit {};
    let step = Step::new();
    let inputs = step.inputs(vec![polynomial(0, 0, 0)], 6);
    let circuit = NovaAugmentedCircuit::new(false, Some(inputs), &predicate, &consts, 1, 1, Scheme::Nova);
    let mut cs: ConstraintSystem<Fp> = ConstraintSystem::new(true);
    let out = circuit.synthesize(&mut cs).unwrap();
    assert!(out[0].value.equals(&fp(11 * 11 * 11 + 11 + 5)));
    assert!(cs.is_satisfied());
}

#[test]
fn masks_come_in_with_a_geometric_series() {
    // Degrees zero and one add the masking commitment once, degree two adds it three times.
    let digest = fq(1234);
    let count = |deg: usize| {
        simulate::<Pallas, Vesta>(Scheme::KiloNova, 1, deg, &digest).ok().unwrap().num_constraints()
    };
    assert_eq!(count(0), count(1));
    assert!(count(1) < count(2));
}
