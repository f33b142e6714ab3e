//! A step of a cycle of curves for which nothing but a sum-check proof is given, as it is used to count constraints.
use crate::augmented::{PredicateSet, TrivialPredicateSet};
use crate::cs::{ConstraintSystem, CsView};
use crate::engine::{vals, CurveGroup, RandomOracle};
use crate::errors::NovaError;
use crate::field::FieldElement;
use crate::fragment::CircuitEngine;
use crate::nova::circuit::{AllocatedNovaStep, NovaAugmentedCircuit, NovaAugmentedCircuitInputs, Scheme};
use crate::nova::prover::{compressed_vals, proves_products, sumcheck_prove};
use crate::nova::univariate::CompressedUniPoly;
use crate::proof_circuit::nvals;
use vstd::prelude::*;

verus! {

/// Whether inputs hold a digest, a sum-check proof and nothing else: the step is the first one from the state zero.
pub open spec fn bare_inputs<E: CurveGroup>(
    g: NovaAugmentedCircuitInputs<E>,
    digest: int,
    r_next: int,
    polys: Seq<Seq<int>>,
    taus: Seq<int>,
    evals: Seq<int>,
) -> bool {
    &&& g.pp_digest.val() == digest
    &&& g.i.val() == 0
    &&& g.r_next.val() == r_next
    &&& vals(g.z0@) == seq![0int]
    &&& g.zi is None && g.U is None && g.ri is None && g.u is None && g.T is None && g.S is None && g.c is None
    &&& g.polys matches Some(list) && compressed_vals::<E::Base>(list@) == polys
    &&& g.taus matches Some(list) && vals(list@) == taus
    &&& g.evals matches Some(list) && vals(list@) == evals
}

/// Whether a system was made by a step that leaves the state as it is.
pub open spec fn made_by_step<E: CircuitEngine>(
    flag: Scheme,
    mu: usize,
    deg: usize,
    consts: <E::RO as RandomOracle<E::Base>>::Constants,
    g: NovaAugmentedCircuitInputs<E>,
    s: AllocatedNovaStep<E>,
    before: CsView,
    after: CsView,
) -> bool {
    NovaAugmentedCircuit::<E, TrivialPredicateSet> {
        is_primary_circuit: true,
        ro_consts: &consts,
        inputs: Some(g),
        step_circuit: &TrivialPredicateSet {  },
        mu,
        deg,
        flag,
    }.synthesized(s, before, after)
}

/// Whether a system is that of a bare step for a sum-check proof.
pub open spec fn simulated<E: CircuitEngine>(
    flag: Scheme,
    mu: usize,
    deg: usize,
    digest: int,
    r_next: int,
    polys: Seq<Seq<int>>,
    taus: Seq<int>,
    evals: Seq<int>,
    cs: CsView,
) -> bool {
    exists|
        consts: <E::RO as RandomOracle<E::Base>>::Constants,
        g: NovaAugmentedCircuitInputs<E>,
        s: AllocatedNovaStep<E>,
        before: CsView,
    | #[trigger]
        made_by_step::<E>(flag, mu, deg, consts, g, s, before, cs) && bare_inputs(
            g,
            digest,
            r_next,
            polys,
            taus,
            evals,
        )
            && before.inputs == seq![1int] && before.aux.len() == 0 && before.constraints.len() == 0
}

/// The system of a bare step, without values, for a sum-check proof.
pub fn simulate_with<E: CircuitEngine>(
    flag: Scheme,
    mu: usize,
    deg: usize,
    digest: E::Scalar,
    r_next: E::Base,
    polys: Vec<CompressedUniPoly<E::Base>>,
    taus: Vec<E::Base>,
    evals: Vec<E::Base>,
) -> (r: ConstraintSystem<E::Base>)
    requires
        mu >= 1,
        flag == Scheme::KiloNova ==> deg <= 30,
        polys@.len() == taus@.len(),
        forall|k: int| 0 <= k < polys@.len() ==> (#[trigger] polys@[k]).coeffs_except_linear_term@.len() == 3,
        evals@.len() >= 3,
    ensures
        r@.wf(),
        simulated::<E>(
            flag,
            mu,
            deg,
            digest.val(),
            r_next.val(),
            compressed_vals::<E::Base>(polys@),
            vals(taus@),
            vals(evals@),
            r@,
        ),
{
    let zero = E::Base::from_u64(0);
    let mut z0: Vec<E::Base> = Vec::new();
    z0.push(zero);
    assert(vals(z0@) =~= seq![0int]);
    let inputs = NovaAugmentedCircuitInputs::<E>::new(
        digest,
        zero,
        z0,
        None,
        None,
        None,
        r_next,
        None,
        None,
        None,
        None,
        Some(polys),
        Some(taus),
        Some(evals),
    );
    let ghost g = inputs;
    let consts = <E::RO as RandomOracle<E::Base>>::constants();
    let predicate = TrivialPredicateSet::default();
    let circuit = NovaAugmentedCircuit::new(true, Some(inputs), &predicate, &consts, mu, deg, flag);
    let mut cs: ConstraintSystem<E::Base> = ConstraintSystem::new(false);
    let ghost before = cs@;
    let synthesized = circuit.synthesize_step(&mut cs);
    proof {
        assert(synthesized is Ok);
        let s = synthesized->Ok_0;
        assert(made_by_step::<E>(flag, mu, deg, consts, g, s, before, cs@));
    }
    cs
}

/// Whether a system is that of a bare step for some sum-check proof of products, the digest being taken to the other
/// field.
pub open spec fn simulated_at_random<E1: CircuitEngine, E2: CircuitEngine>(
    flag: Scheme,
    mu: usize,
    deg: usize,
    digest: int,
    cs: CsView,
) -> bool {
    exists|a: Seq<int>, b: Seq<int>, polys: Seq<Seq<int>>, taus: Seq<int>, evals: Seq<int>, r_next: int|
        #![trigger proves_products::<E1>(a, b, taus, polys, evals), simulated::<E2>(flag, mu, deg, digest
            % E1::Base::modulus(), r_next, polys, taus, evals, cs)]
        {
            &&& proves_products::<E1>(a, b, taus, polys, evals)
            &&& taus.len() == mu
            &&& simulated::<E2>(flag, mu, deg, digest % E1::Base::modulus(), r_next, polys, taus, evals, cs)
        }
}

/// The system of a bare step, without values, for a sum-check proof of random tables. There has to be a round, and the
/// tables have to be addressable.
pub fn simulate<E1, E2>(flag: Scheme, mu: usize, deg: usize, digest: &E1::Scalar) -> (r: Result<
    ConstraintSystem<E2::Base>,
    NovaError,
>) where
    E1: CircuitEngine + CurveGroup<Base = <E2 as CurveGroup>::Scalar>,
    E2: CircuitEngine + CurveGroup<Base = <E1 as CurveGroup>::Scalar>,

    requires
        mu <= u32::MAX,
        flag == Scheme::KiloNova ==> deg <= 30,
    ensures
        r is Err <==> mu == 0 || mu >= usize::BITS,
        r matches Err(e) ==> e == NovaError::InvalidSumcheckProof,
        r matches Ok(cs) ==> {
            &&& cs@.wf()
            &&& simulated_at_random::<E1, E2>(flag, mu, deg, digest.val(), cs@)
        },
{
    let (polys, taus, evals) = match sumcheck_prove::<E1>(mu) {
        Ok(p) => p,
        Err(e) => {
            return Err(e);
        },
    };
    let ghost (p, t, e) = (compressed_vals::<E1::Scalar>(polys@), vals(taus@), vals(evals@));
    let ghost (a, b) = choose|a: Seq<int>, b: Seq<int>| #[trigger] proves_products::<E1>(a, b, t, p, e);
    let r_next = E1::random_scalar();
    let base_digest = E1::scalar_as_base(digest);
    let cs = simulate_with::<E2>(flag, mu, deg, base_digest, r_next, polys, taus, evals);
    proof {
        assert(proves_products::<E1>(a, b, t, p, e));
        assert(simulated::<E2>(flag, mu, deg, digest.val() % E1::Base::modulus(), r_next.val(), p, t, e, cs@));
        assert(simulated_at_random::<E1, E2>(flag, mu, deg, digest.val(), cs@));
    }
    Ok(cs)
}

/// A simulated step is the first one from the state zero, has the digest, the blinding and the sum-check proof that it was
/// given, and nothing to fold; its constraints are the first of the system.
pub proof fn simulated_step_starts_from_zero<E: CircuitEngine>(
    flag: Scheme,
    mu: usize,
    deg: usize,
    digest: int,
    r_next: int,
    polys: Seq<Seq<int>>,
    taus: Seq<int>,
    evals: Seq<int>,
    cs: CsView,
) -> (s: AllocatedNovaStep<E>)
    requires
        simulated::<E>(flag, mu, deg, digest, r_next, polys, taus, evals, cs),
    ensures
        s.inputs.pp_digest.value.val() == digest % E::Base::modulus(),
        s.inputs.i.value.val() == 0,
        nvals(s.inputs.z_0@) == seq![0int],
        nvals(s.inputs.z_i@) == seq![0int],
        s.inputs.r_i.value.val() == 0,
        s.inputs.r_next.value.val() == r_next,
        s.inputs.u.X0.value.val() == 0,
        s.inputs.u.X1.value.val() == 0,
        nvals(s.inputs.taus@) == taus,
        nvals(s.inputs.evals@) == evals,
        nvals(s.z_next@) == seq![0int],
        cs.inputs.len() == 3,
        cs.inputs[1] == 0,
{
    let (consts, g, s, before) = choose|
        consts: <E::RO as RandomOracle<E::Base>>::Constants,
        g: NovaAugmentedCircuitInputs<E>,
        s: AllocatedNovaStep<E>,
        before: CsView,
    | #[trigger]
        made_by_step::<E>(flag, mu, deg, consts, g, s, before, cs) && bare_inputs(g, digest, r_next, polys, taus, evals)
            && before.inputs == seq![1int] && before.aux.len() == 0 && before.constraints.len() == 0;
    assert(nvals(s.inputs.z_0@) =~= seq![0int]);
    assert(nvals(s.inputs.z_i@) =~= seq![0int]);
    s
}

} // verus!
