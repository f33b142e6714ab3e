//! The circuit of a step that folds the last instance of the other circuit into the running one.
use crate::augmented::{PredicateSet, NUM_HASH_BITS};
use crate::bignat::checked_sum;
use crate::cs::{lemma_own_follows, lemma_step_trans, step, Assignment, ConstraintSystem, CsView, Variable};
use crate::engine::{vals, Commitment, CurveGroup, RandomOracle, MAX_ABSORBED};
use crate::errors::SynthesisError;
use crate::evaluation::lemma_step_refl;
use crate::field::FieldElement;
use crate::fragment::{log_of, CircuitEngine};
use crate::gadgets::{
    all_within, alloc_num_equals, alloc_one, alloc_zero, assert_false, ats, conditionally_select_vec, lemma_own, nor,
    AllocatedNum,
};
use crate::instance_circuit::alloc_num_vec;
use crate::nifs::hash_of;
use crate::nova::fold::{check_passes, fold_challenge, fold_inputs, folded, mask_terms};
use crate::nova::instance::{
    alloc_scalar_as_base, given_instance, given_relaxed, lemma_instance_within, lemma_relaxed_within,
    AllocatedR1CSInstance, AllocatedRelaxedR1CSInstance,
};
use crate::nova::sumcheck::{lemma_all_step, list_ats, list_vals, lists_within, rounds_fit};
use crate::nova::univariate::{decompressed, CompressedUniPoly};
use crate::oracle::OracleCircuit;
use crate::points::AllocatedPoint;
use crate::proof_circuit::{lemma_ats, lemma_own_agrees, nvals};
use crate::r1cs::R1CSInstance;
use crate::relaxed::RelaxedR1CSInstance;
use vstd::arithmetic::power2::pow2;
use vstd::prelude::*;

verus! {

/// How an instance is folded into the running one.
#[derive(Clone, Copy, Debug, PartialEq, Eq, Structural)]
pub enum Scheme {
    /// Without a sum-check.
    Nova,
    /// With a sum-check, and the masking commitment once for each power of the challenge.
    KiloNova,
    /// With a sum-check, and the masking commitment once.
    ZKPCD,
}

/// What a step is given.
pub struct NovaAugmentedCircuitInputs<E: CurveGroup> {
    pub pp_digest: E::Scalar,
    pub i: E::Base,
    pub z0: Vec<E::Base>,
    pub zi: Option<Vec<E::Base>>,
    pub U: Option<RelaxedR1CSInstance<E>>,
    pub ri: Option<E::Base>,
    pub r_next: E::Base,
    pub u: Option<R1CSInstance<E>>,
    pub T: Option<Commitment<E>>,
    pub S: Option<Commitment<E>>,
    pub c: Option<Vec<E::Base>>,
    pub polys: Option<Vec<CompressedUniPoly<E::Base>>>,
    pub taus: Option<Vec<E::Base>>,
    pub evals: Option<Vec<E::Base>>,
}

impl<E: CurveGroup> NovaAugmentedCircuitInputs<E> {
    /// The inputs of a step, by their parts.
    pub fn new(
        pp_digest: E::Scalar,
        i: E::Base,
        z0: Vec<E::Base>,
        zi: Option<Vec<E::Base>>,
        U: Option<RelaxedR1CSInstance<E>>,
        ri: Option<E::Base>,
        r_next: E::Base,
        u: Option<R1CSInstance<E>>,
        T: Option<Commitment<E>>,
        S: Option<Commitment<E>>,
        c: Option<Vec<E::Base>>,
        polys: Option<Vec<CompressedUniPoly<E::Base>>>,
        taus: Option<Vec<E::Base>>,
        evals: Option<Vec<E::Base>>,
    ) -> (r: Self)
        ensures
            r == (NovaAugmentedCircuitInputs { pp_digest, i, z0, zi, U, ri, r_next, u, T, S, c, polys, taus, evals }),
    {
        NovaAugmentedCircuitInputs { pp_digest, i, z0, zi, U, ri, r_next, u, T, S, c, polys, taus, evals }
    }
}

/// What a step reads, in a system.
pub struct AllocatedInputs<E: CurveGroup> {
    pub pp_digest: AllocatedNum<E::Base>,
    pub i: AllocatedNum<E::Base>,
    pub z_0: Vec<AllocatedNum<E::Base>>,
    pub z_i: Vec<AllocatedNum<E::Base>>,
    pub U: AllocatedRelaxedR1CSInstance<E>,
    pub r_i: AllocatedNum<E::Base>,
    pub r_next: AllocatedNum<E::Base>,
    pub u: AllocatedR1CSInstance<E>,
    pub T: AllocatedPoint<E>,
    pub S: AllocatedPoint<E>,
    pub c: Vec<Vec<AllocatedNum<E::Base>>>,
    pub polys: Vec<Vec<AllocatedNum<E::Base>>>,
    pub taus: Vec<AllocatedNum<E::Base>>,
    pub evals: Vec<AllocatedNum<E::Base>>,
}

impl<E: CircuitEngine> AllocatedInputs<E> {
    /// Whether all numbers are of the system.
    pub open spec fn within(&self, cs: CsView) -> bool {
        &&& self.pp_digest.within(cs)
        &&& self.i.within(cs)
        &&& all_within(self.z_0@, cs)
        &&& all_within(self.z_i@, cs)
        &&& self.U.within(cs)
        &&& self.r_i.within(cs)
        &&& self.r_next.within(cs)
        &&& self.u.within(cs)
        &&& self.T.within(cs)
        &&& self.S.within(cs)
        &&& lists_within(self.c@, cs)
        &&& lists_within(self.polys@, cs)
        &&& all_within(self.taus@, cs)
        &&& all_within(self.evals@, cs)
    }

    /// Whether the numbers were given the inputs of a step: what is not there is zero, and so are all coefficients of the
    /// cross terms.
    pub open spec fn given(&self, g: NovaAugmentedCircuitInputs<E>, arity: nat, mu: nat, deg: nat) -> bool {
        &&& self.pp_digest.value.val() == g.pp_digest.val() % E::Base::modulus()
        &&& self.i.value.val() == g.i.val()
        &&& nvals(self.z_0@) == vals(g.z0@).take(arity as int)
        &&& nvals(self.z_i@) == match g.zi {
            Some(zi) => vals(zi@).take(arity as int),
            None => Seq::new(arity, |k: int| 0int),
        }
        &&& given_relaxed(
            self.U,
            match g.U {
                Some(U) => Some(&U),
                None => None,
            },
        )
        &&& self.r_i.value.val() == match g.ri {
            Some(ri) => ri.val(),
            None => 0,
        }
        &&& self.r_next.value.val() == g.r_next.val()
        &&& given_instance(
            self.u,
            match g.u {
                Some(u) => Some(&u),
                None => None,
            },
        )
        &&& log_of::<E>(self.T.values(), 0) == match g.T {
            Some(T) => T@,
            None => 0,
        }
        &&& log_of::<E>(self.S.values(), 0) == match g.S {
            Some(S) => S@,
            None => 0,
        }
        &&& list_vals(self.c@) == Seq::new(mu, |k: int| Seq::new(deg, |j: int| 0int))
        &&& g.polys matches Some(polys) && list_vals(self.polys@) == decompressed_all::<E::Base>(polys@)
        &&& g.taus matches Some(taus) && nvals(self.taus@) == vals(taus@)
        &&& g.evals matches Some(evals) && nvals(self.evals@) == vals(evals@)
    }

    /// The numbers that go into the challenge of the fold.
    pub open spec fn fold_inputs(&self) -> Seq<AllocatedNum<E::Base>> {
        fold_inputs(self.pp_digest, self.u, self.T, self.S)
    }
}

/// The coefficients of polynomials, the hint being zero.
pub open spec fn decompressed_all<F: FieldElement>(polys: Seq<CompressedUniPoly<F>>) -> Seq<Seq<int>> {
    Seq::new(polys.len(), |k: int| decompressed(vals(polys[k].coeffs_except_linear_term@), 0, F::modulus()))
}

/// What a step reads stays of a system that is extended.
pub proof fn lemma_inputs_within<E: CircuitEngine>(g: AllocatedInputs<E>, a: CsView, b: CsView)
    requires
        g.within(a),
        step(a, b),
    ensures
        g.within(b),
{
    lemma_all_step(g.z_0@, a, b);
    lemma_all_step(g.z_i@, a, b);
    lemma_relaxed_within(g.U, a, b);
    lemma_instance_within(g.u, a, b);
    lemma_lists_step(g.c@, a, b);
    lemma_lists_step(g.polys@, a, b);
    lemma_all_step(g.taus@, a, b);
    lemma_all_step(g.evals@, a, b);
}

/// Lists of numbers stay of a system that is extended.
pub proof fn lemma_lists_step<F: FieldElement>(lists: Seq<Vec<AllocatedNum<F>>>, a: CsView, b: CsView)
    requires
        lists_within(lists, a),
        step(a, b),
    ensures
        lists_within(lists, b),
{
    assert forall|k: int| 0 <= k < lists.len() implies all_within((#[trigger] lists[k])@, b) by {
        lemma_all_step(lists[k]@, a, b);
    }
}

/// New numbers for lists of values.
fn alloc_lists<F: FieldElement>(cs: &mut ConstraintSystem<F>, lists: &Vec<Vec<F>>) -> (r: Vec<Vec<AllocatedNum<F>>>)
    requires
        old(cs)@.wf(),
    ensures
        step(old(cs)@, final(cs)@),
        final(cs)@.satisfied() == old(cs)@.satisfied(),
        final(cs).witness == old(cs).witness,
        final(cs)@.inputs == old(cs)@.inputs,
        lists_within(r@, final(cs)@),
        list_vals(r@) == Seq::new(lists@.len(), |k: int| vals(lists@[k]@)),
{
    let ghost before = cs@;
    let mut r: Vec<Vec<AllocatedNum<F>>> = Vec::new();
    let mut i: usize = 0;
    proof {
        lemma_step_refl(before);
    }
    while i < lists.len()
        invariant
            i <= lists.len(),
            r@.len() == i,
            step(before, cs@),
            cs@.satisfied() == before.satisfied(),
            cs.witness == old(cs).witness,
            cs@.inputs == before.inputs,
            lists_within(r@, cs@),
            forall|k: int| 0 <= k < i ==> nvals((#[trigger] r@[k])@) == vals(lists@[k]@),
        decreases lists.len() - i,
    {
        let ghost (mid, some) = (cs@, r@);
        let list = &lists[i];
        let nums = alloc_num_vec(cs, Some(list), list.len());
        r.push(nums);
        proof {
            lemma_step_trans(before, mid, cs@);
            assert(nvals(nums@) =~= vals(list@));
            assert forall|k: int| 0 <= k < r@.len() implies all_within((#[trigger] r@[k])@, cs@) by {
                if k < i {
                    assert(all_within(some[k]@, mid));
                    lemma_all_step(some[k]@, mid, cs@);
                }
            }
        }
        i = i + 1;
    }
    proof {
        assert(list_vals(r@) =~= Seq::new(lists@.len(), |k: int| vals(lists@[k]@)));
    }
    r
}

/// The coefficients of polynomials, the hint being zero.
fn decompress_all<F: FieldElement>(polys: &Vec<CompressedUniPoly<F>>) -> (r: Vec<Vec<F>>)
    requires
        forall|k: int| 0 <= k < polys@.len() ==> (#[trigger] polys@[k]).coeffs_except_linear_term@.len() > 0,
    ensures
        Seq::new(r@.len(), |k: int| vals(r@[k]@)) == decompressed_all::<F>(polys@),
{
    let zero = F::from_u64(0);
    let mut r: Vec<Vec<F>> = Vec::new();
    let mut i: usize = 0;
    while i < polys.len()
        invariant
            i <= polys.len(),
            zero.val() == 0,
            r@.len() == i,
            forall|k: int| 0 <= k < polys@.len() ==> (#[trigger] polys@[k]).coeffs_except_linear_term@.len() > 0,
            forall|k: int|
                0 <= k < i ==> vals((#[trigger] r@[k])@) == decompressed(
                    vals(polys@[k].coeffs_except_linear_term@),
                    0,
                    F::modulus(),
                ),
        decreases polys.len() - i,
    {
        assert(polys@[i as int].coeffs_except_linear_term@.len() > 0);
        r.push(polys[i].decompress(&zero));
        i = i + 1;
    }
    assert(Seq::new(r@.len(), |k: int| vals(r@[k]@)) =~= decompressed_all::<F>(polys@));
    r
}

/// Lists of zeros.
fn zero_lists<F: FieldElement>(count: usize, len: usize) -> (r: Vec<Vec<F>>)
    ensures
        Seq::new(r@.len(), |k: int| vals(r@[k]@)) == Seq::new(count as nat, |k: int| Seq::new(len as nat, |j: int| 0int)),
{
    let mut r: Vec<Vec<F>> = Vec::new();
    let mut i: usize = 0;
    while i < count
        invariant
            i <= count,
            r@.len() == i,
            forall|k: int| 0 <= k < i ==> vals((#[trigger] r@[k])@) == Seq::new(len as nat, |j: int| 0int),
        decreases count - i,
    {
        let list: Vec<F> = crate::relation::zeros(len);
        assert(vals(list@) =~= Seq::new(len as nat, |j: int| 0int));
        r.push(list);
        i = i + 1;
    }
    assert(Seq::new(r@.len(), |k: int| vals(r@[k]@)) =~= Seq::new(
        count as nat,
        |k: int| Seq::new(len as nat, |j: int| 0int),
    ));
    r
}

/// A step: the verifier of a fold around the constraints of a state that goes on.
pub struct NovaAugmentedCircuit<'a, E: CircuitEngine, PS: PredicateSet<E::Base>> {
    pub is_primary_circuit: bool,
    pub ro_consts: &'a <E::RO as RandomOracle<E::Base>>::Constants,
    pub inputs: Option<NovaAugmentedCircuitInputs<E>>,
    pub step_circuit: &'a PS,
    pub mu: usize,
    pub deg: usize,
    pub flag: Scheme,
}

impl<'a, E: CircuitEngine, PS: PredicateSet<E::Base>> NovaAugmentedCircuit<'a, E, PS> {
    /// Whether the inputs that are there are long enough, for the sum-check too if the scheme has one.
    pub open spec fn inputs_fit(&self) -> bool {
        self.inputs matches Some(g) ==> {
            &&& g.z0@.len() >= self.step_circuit.width()
            &&& g.zi matches Some(zi) ==> zi@.len() >= self.step_circuit.width()
            &&& g.U matches Some(U) ==> U.X@.len() >= 2
            &&& g.u matches Some(u) ==> u.X@.len() >= 2
            &&& g.polys matches Some(polys) ==> forall|k: int|
                0 <= k < polys@.len() ==> (#[trigger] polys@[k]).coeffs_except_linear_term@.len() > 0
            &&& self.flag != Scheme::Nova && !self.missing() ==> {
                &&& g.polys->0@.len() == g.taus->0@.len()
                &&& forall|k: int|
                    0 <= k < g.polys->0@.len() ==> (#[trigger] g.polys->0@[k]).coeffs_except_linear_term@.len() == 3
                &&& g.evals->0@.len() >= 3
            }
        }
    }

    /// Whether the circuit can be synthesized: its inputs fit, and it is not too large.
    pub open spec fn wf(&self) -> bool {
        &&& self.inputs_fit()
        &&& self.flag == Scheme::KiloNova ==> self.deg <= 30
        &&& self.flag == Scheme::Nova ==> self.mu >= 1
        &&& 2 * self.step_circuit.width() + 21 <= MAX_ABSORBED
    }

    /// The state that the step starts from.
    pub open spec fn state(&self) -> Seq<int> {
        match self.inputs->0.zi {
            Some(zi) => vals(zi@).take(self.step_circuit.width() as int),
            None => Seq::new(self.step_circuit.width(), |k: int| 0int),
        }
    }

    /// Whether the inputs or those of the sum-check are not there.
    pub open spec fn missing(&self) -> bool {
        self.inputs matches Some(g) ==> g.polys is None || g.taus is None || g.evals is None
    }

    /// A step, by its parts.
    pub fn new(
        is_primary_circuit: bool,
        inputs: Option<NovaAugmentedCircuitInputs<E>>,
        step_circuit: &'a PS,
        ro_consts: &'a <E::RO as RandomOracle<E::Base>>::Constants,
        mu: usize,
        deg: usize,
        flag: Scheme,
    ) -> (r: Self)
        ensures
            r.is_primary_circuit == is_primary_circuit,
            r.inputs == inputs,
            r.step_circuit == step_circuit,
            r.ro_consts == ro_consts,
            r.mu == mu,
            r.deg == deg,
            r.flag == flag,
    {
        NovaAugmentedCircuit { is_primary_circuit, ro_consts, inputs, step_circuit, mu, deg, flag }
    }

    /// New numbers for what the step reads. The commitments that are folded in have to be on the curve.
    #[verifier::rlimit(40)]
    fn alloc_witness(&self, cs: &mut ConstraintSystem<E::Base>, arity: usize) -> (r: Result<
        AllocatedInputs<E>,
        SynthesisError,
    >)
        requires
            old(cs)@.wf(),
            self.inputs_fit(),
            arity == self.step_circuit.width(),
        ensures
            step(old(cs)@, final(cs)@),
            final(cs)@.satisfied() == old(cs)@.satisfied(),
            final(cs).witness == old(cs).witness,
            final(cs)@.inputs == old(cs)@.inputs,
            r is Err <==> self.missing(),
            r matches Err(e) ==> e == SynthesisError::AssignmentMissing,
            r matches Ok(a) ==> {
                &&& a.within(final(cs)@)
                &&& a.given(self.inputs->0, arity as nat, self.mu as nat, self.deg as nat)
                &&& a.z_0@.len() == arity
                &&& a.z_i@.len() == arity
                &&& forall|x: Assignment| #[trigger]
                    final(cs)@.follows(x) && a.u.comm_W.is_infinity.at(x) == 0 ==> a.u.comm_W.is_point_at(x)
                &&& forall|x: Assignment| #[trigger]
                    final(cs)@.follows(x) && a.T.is_infinity.at(x) == 0 ==> a.T.is_point_at(x)
                &&& forall|x: Assignment| #[trigger]
                    final(cs)@.follows(x) && a.S.is_infinity.at(x) == 0 ==> a.S.is_point_at(x)
            },
    {
        let ghost before = cs@;
        let g = match &self.inputs {
            Some(g) => g,
            None => {
                proof {
                    lemma_step_refl(before);
                }
                return Err(SynthesisError::AssignmentMissing);
            },
        };
        let pp_digest = alloc_scalar_as_base::<E>(cs, Some(&g.pp_digest));
        let ghost s1 = cs@;
        let i = AllocatedNum::allocate(cs, &g.i);
        let ghost s2 = cs@;
        let z_0 = alloc_num_vec(cs, Some(&g.z0), arity);
        let ghost s3 = cs@;
        let z_i = match &g.zi {
            Some(zi) => alloc_num_vec(cs, Some(zi), arity),
            None => alloc_num_vec(cs, None, arity),
        };
        let ghost s4 = cs@;
        let U = AllocatedRelaxedR1CSInstance::allocate(
            cs,
            match &g.U {
                Some(U) => Some(U),
                None => None,
            },
        );
        let ghost s5 = cs@;
        let zero = E::Base::from_u64(0);
        let ri = match &g.ri {
            Some(ri) => *ri,
            None => zero,
        };
        let r_i = AllocatedNum::allocate(cs, &ri);
        let ghost s6 = cs@;
        let r_next = AllocatedNum::allocate(cs, &g.r_next);
        let ghost s7 = cs@;
        let u = AllocatedR1CSInstance::allocate(
            cs,
            match &g.u {
                Some(u) => Some(u),
                None => None,
            },
        );
        let ghost s8 = cs@;
        let T = AllocatedPoint::allocate(
            cs,
            match &g.T {
                Some(T) => Some(T),
                None => None,
            },
        );
        let ghost s9 = cs@;
        T.check_on_curve(cs);
        let ghost s10 = cs@;
        let S = AllocatedPoint::allocate(
            cs,
            match &g.S {
                Some(S) => Some(S),
                None => None,
            },
        );
        let ghost s11 = cs@;
        S.check_on_curve(cs);
        let ghost s12 = cs@;
        let zeros = zero_lists(self.mu, self.deg);
        let c = alloc_lists(cs, &zeros);
        let ghost s13 = cs@;
        proof {
            lemma_step_trans(before, s1, s2);
            lemma_step_trans(before, s2, s3);
            lemma_step_trans(before, s3, s4);
            lemma_step_trans(before, s4, s5);
            lemma_step_trans(before, s5, s6);
            lemma_step_trans(before, s6, s7);
            lemma_step_trans(before, s7, s8);
            lemma_step_trans(before, s8, s9);
            lemma_step_trans(before, s9, s10);
            lemma_step_trans(before, s10, s11);
            lemma_step_trans(before, s11, s12);
            lemma_step_trans(before, s12, s13);
        }
        let compressed = match &g.polys {
            Some(polys) => polys,
            None => {
                return Err(SynthesisError::AssignmentMissing);
            },
        };
        let coefficients = decompress_all(compressed);
        let polys = alloc_lists(cs, &coefficients);
        let ghost s14 = cs@;
        proof {
            lemma_step_trans(before, s13, s14);
        }
        let given_taus = match &g.taus {
            Some(taus) => taus,
            None => {
                return Err(SynthesisError::AssignmentMissing);
            },
        };
        let taus = alloc_num_vec(cs, Some(given_taus), given_taus.len());
        let ghost s15 = cs@;
        proof {
            lemma_step_trans(before, s14, s15);
        }
        let given_evals = match &g.evals {
            Some(evals) => evals,
            None => {
                return Err(SynthesisError::AssignmentMissing);
            },
        };
        let evals = alloc_num_vec(cs, Some(given_evals), given_evals.len());
        let r = AllocatedInputs { pp_digest, i, z_0, z_i, U, r_i, r_next, u, T, S, c, polys, taus, evals };
        proof {
            let after = cs@;
            lemma_step_trans(before, s15, after);
            lemma_step_trans(s14, s15, after);
            lemma_step_trans(s13, s14, after);
            lemma_step_trans(s12, s13, after);
            lemma_step_trans(s11, s12, after);
            lemma_step_trans(s10, s11, after);
            lemma_step_trans(s9, s10, after);
            lemma_step_trans(s8, s9, after);
            lemma_step_trans(s7, s8, after);
            lemma_step_trans(s6, s7, after);
            lemma_step_trans(s5, s6, after);
            lemma_step_trans(s4, s5, after);
            lemma_step_trans(s3, s4, after);
            lemma_step_trans(s2, s3, after);
            lemma_step_trans(s1, s2, after);
            lemma_all_step(z_0@, s3, after);
            lemma_all_step(z_i@, s4, after);
            lemma_relaxed_within(U, s5, after);
            lemma_instance_within(u, s8, after);
            lemma_lists_step(c@, s13, after);
            lemma_lists_step(polys@, s14, after);
            lemma_all_step(taus@, s15, after);
            assert(r.within(after));
            assert(nvals(z_0@) =~= vals(g.z0@).take(arity as int));
            match &g.zi {
                Some(zi) => {
                    assert(nvals(z_i@) =~= vals(zi@).take(arity as int));
                },
                None => {
                    assert(nvals(z_i@) =~= Seq::new(arity as nat, |k: int| 0int));
                },
            }
            assert(nvals(taus@) =~= vals(given_taus@));
            assert(nvals(evals@) =~= vals(given_evals@));
            assert(r.given(*g, arity as nat, self.mu as nat, self.deg as nat));
            assert forall|x: Assignment| #[trigger] after.follows(x) implies s8.follows(x) && s10.follows(x) && s12.follows(
                x,
            ) by {}
        }
        Ok(r)
    }
}

/// The hash of what a step hands on, with the numbers that stand for the running instance.
pub open spec fn relaxed_hash<E: CircuitEngine>(
    pp_digest: int,
    i: int,
    z0: Seq<int>,
    zi: Seq<int>,
    U: Seq<int>,
    ri: int,
) -> int {
    hash_of::<E>()(seq![pp_digest, i] + z0 + zi + U + seq![ri]) % (pow2(250) as int)
}

/// The hash of what a step hands on.
fn synthesize_hash_check<E: CircuitEngine>(
    cs: &mut ConstraintSystem<E::Base>,
    ro_consts: &<E::RO as RandomOracle<E::Base>>::Constants,
    pp_digest: &AllocatedNum<E::Base>,
    i: &AllocatedNum<E::Base>,
    z_0: &Vec<AllocatedNum<E::Base>>,
    z_i: &Vec<AllocatedNum<E::Base>>,
    U: &AllocatedRelaxedR1CSInstance<E>,
    r_i: &AllocatedNum<E::Base>,
) -> (r: AllocatedNum<E::Base>)
    requires
        old(cs)@.wf(),
        pp_digest.within(old(cs)@),
        i.within(old(cs)@),
        all_within(z_0@, old(cs)@),
        all_within(z_i@, old(cs)@),
        U.within(old(cs)@),
        r_i.within(old(cs)@),
        z_0@.len() + z_i@.len() + 21 <= MAX_ABSORBED,
    ensures
        step(old(cs)@, final(cs)@),
        final(cs)@.satisfied() == old(cs)@.satisfied(),
        final(cs).witness == old(cs).witness,
        final(cs)@.inputs == old(cs)@.inputs,
        r.within(final(cs)@),
        forall|x: Assignment| #[trigger]
            final(cs)@.follows(x) ==> r.at(x) == relaxed_hash::<E>(
                pp_digest.at(x),
                i.at(x),
                ats(z_0@, x),
                ats(z_i@, x),
                ats(U.elements(), x),
                r_i.at(x),
            ),
{
    let ghost before = cs@;
    let mut ro = OracleCircuit::<E>::new();
    ro.absorb(pp_digest);
    ro.absorb(i);
    ro.absorb_all(z_0);
    ro.absorb_all(z_i);
    let ghost head = ro.state@;
    U.absorb_in_ro(cs, &mut ro);
    let ghost s1 = cs@;
    let ghost tail = ro.state@.skip(head.len() as int);
    ro.absorb(r_i);
    let ghost all = ro.state@;
    proof {
        assert(head =~= seq![*pp_digest, *i] + z_0@ + z_i@);
        assert(all =~= head + tail + seq![*r_i]);
        assert forall|k: int| 0 <= k < all.len() implies (#[trigger] all[k]).within(s1) by {
            let (m, n) = (z_0@.len() as int, z_i@.len() as int);
            if 2 <= k < m + 2 {
                assert(z_0@[k - 2].within(before));
            } else if m + 2 <= k < m + n + 2 {
                assert(z_i@[k - m - 2].within(before));
            } else if m + n + 2 <= k < m + n + 20 {
                assert(tail[k - m - n - 2].within(s1));
            }
        }
    }
    let (hash, _bits) = ro.squeeze_num(cs, ro_consts, NUM_HASH_BITS);
    proof {
        lemma_step_trans(before, s1, cs@);
        assert forall|x: Assignment| #[trigger] cs@.follows(x) implies hash.at(x) == relaxed_hash::<E>(
            pp_digest.at(x),
            i.at(x),
            ats(z_0@, x),
            ats(z_i@, x),
            ats(U.elements(), x),
            r_i.at(x),
        ) by {
            assert(s1.follows(x));
            assert(ats(all, x) =~= seq![pp_digest.at(x), i.at(x)] + ats(z_0@, x) + ats(z_i@, x) + ats(tail, x) + seq![
                r_i.at(x),
            ]);
        }
    }
    hash
}

/// What a step reads and what it makes of it, in a system.
pub struct AllocatedNovaStep<E: CurveGroup> {
    pub inputs: AllocatedInputs<E>,
    pub folded: AllocatedRelaxedR1CSInstance<E>,
    pub z_next: Vec<AllocatedNum<E::Base>>,
}

/// The polynomials of a sum-check that were given have as many coefficients as the compressed ones and one more.
proof fn lemma_rounds_fit<F: FieldElement>(
    nums: Seq<Vec<AllocatedNum<F>>>,
    polys: Seq<CompressedUniPoly<F>>,
    rounds: nat,
)
    requires
        list_vals(nums) == decompressed_all::<F>(polys),
        polys.len() == rounds,
        forall|k: int| 0 <= k < polys.len() ==> (#[trigger] polys[k]).coeffs_except_linear_term@.len() == 3,
    ensures
        rounds_fit(nums, rounds, 3),
{
    assert(nums.len() == list_vals(nums).len());
    assert forall|k: int| 0 <= k < nums.len() implies (#[trigger] nums[k])@.len() == 4 by {
        assert(polys[k].coeffs_except_linear_term@.len() == 3);
        assert(list_vals(nums)[k] == nvals(nums[k]@));
        let c = vals(polys[k].coeffs_except_linear_term@);
        assert(c.skip(1).len() == 2);
        assert(decompressed_all::<F>(polys)[k] == decompressed(c, 0, F::modulus()));
    }
}

impl<'a, E: CircuitEngine, PS: PredicateSet<E::Base>> NovaAugmentedCircuit<'a, E, PS> {
    /// How often the scheme adds the masking commitment.
    pub open spec fn terms(&self) -> nat {
        if self.flag == Scheme::KiloNova {
            mask_terms(self.deg as int)
        } else {
            1
        }
    }

    /// Whether the sum-check is accepted under an assignment, if the scheme has one.
    pub open spec fn check_holds(&self, a: AllocatedInputs<E>, x: Assignment) -> bool {
        self.flag != Scheme::Nova ==> check_passes::<E>(
            ats(a.fold_inputs(), x),
            list_ats(a.polys@, x),
            ats(a.taus@, x),
            ats(a.evals@, x),
        )
    }

    /// Whether the sum-check that was given is accepted, if the scheme has one.
    pub open spec fn check_given(&self, a: AllocatedInputs<E>) -> bool {
        self.flag != Scheme::Nova ==> check_passes::<E>(
            nvals(a.fold_inputs()),
            list_vals(a.polys@),
            nvals(a.taus@),
            nvals(a.evals@),
        )
    }

    /// The running instance that a first step starts from.
    fn synthesize_base_case(&self, cs: &mut ConstraintSystem<E::Base>) -> (r: AllocatedRelaxedR1CSInstance<E>)
        requires
            old(cs)@.wf(),
        ensures
            step(old(cs)@, final(cs)@),
            final(cs)@.satisfied() == old(cs)@.satisfied(),
            final(cs).witness == old(cs).witness,
            final(cs)@.inputs == old(cs)@.inputs,
            r.within(final(cs)@),
            forall|x: Assignment| #[trigger]
                final(cs)@.follows(x) ==> r.points_at(x) && r.W.log_at(x) == 0 && r.R.log_at(x) == 0 && r.E.log_at(x) == 0
                    && r.u.at(x) == 0,
    {
        AllocatedRelaxedR1CSInstance::default(cs)
    }

    /// The fold of the instance into the running one, by the scheme.
    fn synthesize_non_base_case(&self, cs: &mut ConstraintSystem<E::Base>, a: &AllocatedInputs<E>) -> (r:
        AllocatedRelaxedR1CSInstance<E>)
        requires
            old(cs)@.wf(),
            a.within(old(cs)@),
            self.flag != Scheme::Nova ==> a.evals@.len() >= 3 && rounds_fit(a.polys@, a.taus@.len(), 3),
            self.flag == Scheme::KiloNova ==> self.deg <= 30,
            self.flag == Scheme::Nova ==> a.c@.len() > 0,
        ensures
            step(old(cs)@, final(cs)@),
            final(cs).witness == old(cs).witness,
            final(cs)@.inputs == old(cs)@.inputs,
            final(cs)@.satisfied() == (old(cs)@.satisfied() && self.check_given(*a)),
            r.within(final(cs)@),
            forall|x: Assignment| #[trigger]
                final(cs)@.follows(x) ==> folded(
                    a.U,
                    a.u,
                    a.T,
                    a.S,
                    self.terms(),
                    fold_challenge(a.pp_digest, a.u, a.T, a.S, x),
                    r,
                    x,
                ),
            forall|x: Assignment| #[trigger] final(cs)@.holds(x) ==> self.check_holds(*a, x),
    {
        match self.flag {
            Scheme::Nova => a.U.fold_with_r1cs(
                cs,
                &a.pp_digest,
                &a.u,
                &a.T,
                &a.S,
                &a.c,
                self.deg,
                self.ro_consts,
            ),
            Scheme::KiloNova => a.U.fold_with_r1cs_blc21(
                cs,
                &a.pp_digest,
                &a.u,
                &a.T,
                &a.S,
                &a.polys,
                &a.taus,
                &a.evals,
                self.deg,
                self.ro_consts,
            ),
            Scheme::ZKPCD => a.U.fold_with_r1cs_zkpcd(
                cs,
                &a.pp_digest,
                &a.u,
                &a.T,
                &a.S,
                &a.polys,
                &a.taus,
                &a.evals,
                self.deg,
                self.ro_consts,
            ),
        }
    }

    /// The hash that the first public value of the instance has to be, under an assignment.
    pub open spec fn hash_in(&self, a: AllocatedInputs<E>, x: Assignment) -> int {
        relaxed_hash::<E>(
            a.pp_digest.at(x),
            a.i.at(x),
            ats(a.z_0@, x),
            ats(a.z_i@, x),
            ats(a.U.elements(), x),
            a.r_i.at(x),
        )
    }

    /// The hash of what the step hands on, under an assignment.
    pub open spec fn hash_out(&self, s: AllocatedNovaStep<E>, x: Assignment) -> int {
        relaxed_hash::<E>(
            s.inputs.pp_digest.at(x),
            (1 + s.inputs.i.at(x)) % E::Base::modulus(),
            ats(s.inputs.z_0@, x),
            ats(s.z_next@, x),
            ats(s.folded.elements(), x),
            s.inputs.r_next.at(x),
        )
    }

    /// What the constraints of a step ask of an assignment: the instance hashes the running one, the running one is
    /// folded, the sum-check is accepted, the state goes on, and the two public values from the index on are the second
    /// value of the instance and the hash of what the step hands on.
    pub open spec fn enforces(&self, s: AllocatedNovaStep<E>, n: int, cs: CsView) -> bool {
        forall|x: Assignment| #[trigger]
            cs.holds(x) ==> {
                let a = s.inputs;
                &&& a.u.X0.at(x) == self.hash_in(a, x)
                &&& folded(
                    a.U,
                    a.u,
                    a.T,
                    a.S,
                    self.terms(),
                    fold_challenge(a.pp_digest, a.u, a.T, a.S, x),
                    s.folded,
                    x,
                )
                &&& self.check_holds(a, x)
                &&& self.step_circuit.allows(0, ats(a.z_i@, x), ats(s.z_next@, x))
                &&& x.inputs[n] == a.u.X1.at(x)
                &&& x.inputs[n + 1] == self.hash_out(s, x)
            }
    }

    /// Whether the values that were given satisfy the constraints of a step.
    pub open spec fn solvable(&self, a: AllocatedInputs<E>, x: Assignment) -> bool {
        &&& a.u.X0.at(x) == self.hash_in(a, x)
        &&& self.check_given(a)
        &&& self.step_circuit.solves(0, nvals(a.z_i@))
    }

    /// What a step adds to a system.
    pub open spec fn synthesized(&self, s: AllocatedNovaStep<E>, before: CsView, after: CsView) -> bool {
        let n = after.inputs.len() - 2;
        &&& s.inputs.within(after)
        &&& s.inputs.given(self.inputs->0, self.step_circuit.width(), self.mu as nat, self.deg as nat)
        &&& s.folded.within(after)
        &&& all_within(s.z_next@, after)
        &&& s.z_next@.len() == self.step_circuit.width()
        &&& n == before.inputs.len() + self.step_circuit.publishes(0)
        &&& self.step_circuit.yields(0, self.state(), nvals(s.z_next@))
        &&& self.enforces(s, n, after)
        &&& after.satisfied() == (before.satisfied() && self.solvable(s.inputs, after.own()))
        &&& after.inputs[n] == s.inputs.u.X1.value.val()
        &&& after.inputs[n + 1] == self.hash_out(s, after.own())
    }

    /// Adds the constraints of the step to a system: returned are what the step reads, what it folds, and the next state.
    #[verifier::rlimit(80)]
    pub fn synthesize_step(&self, cs: &mut ConstraintSystem<E::Base>) -> (r: Result<AllocatedNovaStep<E>, SynthesisError>)
        requires
            old(cs)@.wf(),
            self.wf(),
        ensures
            step(old(cs)@, final(cs)@),
            final(cs).witness == old(cs).witness,
            self.missing() ==> r == Err::<AllocatedNovaStep<E>, SynthesisError>(SynthesisError::AssignmentMissing),
            self.inputs is None || self.inputs->0.polys is None || self.inputs->0.taus is None || self.inputs->0.evals is None
                ==> r == Err::<AllocatedNovaStep<E>, SynthesisError>(SynthesisError::AssignmentMissing),
            r matches Err(e) ==> self.missing() || self.step_circuit.fails(0, self.state(), e),
            self.step_circuit.total() && !self.missing() ==> r is Ok,
            r matches Ok(s) ==> self.synthesized(s, old(cs)@, final(cs)@),
            r matches Ok(s) ==> ({
                let (a, x, n) = (s.inputs, final(cs)@.own(), final(cs)@.inputs.len() as int);
                final(cs)@.inputs[n - 1] == hash_of::<E>()(
                    seq![a.pp_digest.at(x), (1 + a.i.at(x)) % E::Base::modulus()] + ats(a.z_0@, x) + ats(s.z_next@, x) + ats(
                        s.folded.elements(),
                        x,
                    ) + seq![a.r_next.at(x)],
                ) % (pow2(250) as int)
            }),
    {
        let ghost before = cs@;
        let ghost p = E::Base::modulus();
        let arity = self.step_circuit.arity();
        let a = match self.alloc_witness(cs, arity) {
            Ok(a) => a,
            Err(e) => {
                return Err(e);
            },
        };
        let ghost s1 = cs@;
        let zero = alloc_zero(cs);
        let ghost s2 = cs@;
        let one = alloc_one(cs);
        let ghost s3 = cs@;
        let is_base = alloc_num_equals(cs, &one, &zero);
        let ghost s4 = cs@;
        proof {
            lemma_step_trans(s1, s2, s3);
            lemma_step_trans(s1, s3, s4);
            lemma_step_trans(s2, s3, s4);
            lemma_inputs_within(a, s1, s4);
            assert forall|x: Assignment| #[trigger] s4.follows(x) implies is_base.at(x) == 0 by {
                assert(s3.follows(x) && s2.follows(x));
            }
        }
        let hash = synthesize_hash_check(cs, self.ro_consts, &a.pp_digest, &a.i, &a.z_0, &a.z_i, &a.U, &a.r_i);
        let ghost s5 = cs@;
        proof {
            lemma_step_trans(s1, s4, s5);
            lemma_inputs_within(a, s1, s5);
        }
        let check_hash = alloc_num_equals(cs, &a.u.X0, &hash);
        let ghost s6 = cs@;
        proof {
            lemma_step_trans(s4, s5, s6);
        }
        let U_base = self.synthesize_base_case(cs);
        let ghost s7 = cs@;
        proof {
            lemma_step_trans(s5, s6, s7);
            lemma_step_trans(s1, s5, s7);
            lemma_inputs_within(a, s1, s7);
            assert(a.c@.len() == list_vals(a.c@).len());
            if self.flag != Scheme::Nova {
                let g = self.inputs->0;
                lemma_rounds_fit(a.polys@, g.polys->0@, g.taus->0@.len());
                assert(a.taus@.len() == nvals(a.taus@).len());
                assert(a.evals@.len() == nvals(a.evals@).len());
            }
        }
        let V = self.synthesize_non_base_case(cs, &a);
        let ghost s8 = cs@;
        proof {
            lemma_step_trans(s6, s7, s8);
            lemma_step_trans(s4, s6, s8);
        }
        let neither = nor(cs, &check_hash, &is_base);
        let ghost s9 = cs@;
        assert_false(cs, &neither);
        let ghost s10 = cs@;
        proof {
            lemma_step_trans(s8, s9, s10);
            lemma_step_trans(s7, s8, s10);
            lemma_step_trans(s4, s8, s10);
            lemma_relaxed_within(U_base, s7, s10);
            lemma_relaxed_within(V, s8, s10);
        }
        let U_new = U_base.conditionally_select(cs, &V, &is_base);
        let ghost s11 = cs@;
        proof {
            crate::cs::lemma_one(s11);
            lemma_step_trans(s1, s7, s8);
            lemma_step_trans(s1, s8, s10);
            lemma_step_trans(s1, s10, s11);
            lemma_inputs_within(a, s1, s11);
        }
        let constant = AllocatedNum { variable: Variable::Input(0), value: E::Base::from_u64(1) };
        let i_new = checked_sum(cs, &constant, &a.i);
        let ghost s12 = cs@;
        proof {
            lemma_step_trans(s1, s11, s12);
            lemma_inputs_within(a, s1, s12);
            lemma_step_trans(s4, s10, s11);
            lemma_step_trans(s4, s11, s12);
        }
        let z_input = conditionally_select_vec(cs, &a.z_0, &a.z_i, &is_base);
        let ghost s13 = cs@;
        proof {
            lemma_step_trans(s1, s12, s13);
            lemma_step_trans(before, s1, s13);
            lemma_step_trans(s4, s12, s13);
            lemma_step_trans(s11, s12, s13);
            lemma_own_agrees(s13);
            lemma_inputs_within(a, s1, s13);
            lemma_ats(z_input@, s13, s13.own());
            lemma_ats(a.z_i@, s13, s13.own());
            assert(s4.follows(s13.own()));
            assert(nvals(z_input@) == self.state());
        }
        let z_next = match self.step_circuit.synthesize(0, cs, &z_input) {
            Ok(z) => z,
            Err(e) => {
                proof {
                    lemma_step_trans(before, s13, cs@);
                }
                return Err(e);
            },
        };
        let ghost s14 = cs@;
        proof {
            lemma_step_trans(before, s13, s14);
            lemma_step_trans(s1, s13, s14);
            lemma_step_trans(s12, s13, s14);
            lemma_step_trans(s11, s13, s14);
            lemma_inputs_within(a, s1, s14);
            lemma_relaxed_within(U_new, s11, s14);
        }
        let hash_out = synthesize_hash_check(
            cs,
            self.ro_consts,
            &a.pp_digest,
            &i_new,
            &a.z_0,
            &z_next,
            &U_new,
            &a.r_next,
        );
        let ghost s15 = cs@;
        proof {
            lemma_step_trans(s1, s14, s15);
            lemma_inputs_within(a, s1, s15);
        }
        a.u.X1.inputize(cs);
        let ghost s16 = cs@;
        hash_out.inputize(cs);
        let r = AllocatedNovaStep { inputs: a, folded: V, z_next };
        proof {
            let after = cs@;
            let n = after.inputs.len() - 2;
            lemma_step_trans(s15, s16, after);
            lemma_step_trans(s14, s15, after);
            lemma_step_trans(before, s14, after);
            lemma_step_trans(s13, s14, after);
            lemma_step_trans(s12, s13, after);
            lemma_step_trans(s11, s12, after);
            lemma_step_trans(s10, s11, after);
            lemma_step_trans(s9, s10, after);
            lemma_step_trans(s8, s9, after);
            lemma_step_trans(s6, s8, after);
            lemma_step_trans(s5, s6, after);
            lemma_step_trans(s4, s5, after);
            lemma_step_trans(s1, s4, after);
            lemma_inputs_within(a, s1, after);
            lemma_relaxed_within(V, s8, after);
            lemma_all_step(z_next@, s14, after);
            assert forall|x: Assignment| #[trigger] after.follows(x) implies {
                &&& is_base.at(x) == 0
                &&& hash.at(x) == self.hash_in(a, x)
                &&& check_hash.at(x) == crate::gadgets::bool_int(a.u.X0.at(x) == hash.at(x))
                &&& neither.at(x) == crate::gadgets::bool_int(check_hash.at(x) == 0 && is_base.at(x) == 0)
                &&& x.inputs[n + 1] == self.hash_out(r, x)
                &&& x.inputs[n] == a.u.X1.at(x)
                &&& ats(z_input@, x) == ats(a.z_i@, x)
            } by {
                assert(s16.follows(x) && s15.follows(x) && s14.follows(x) && s13.follows(x) && s12.follows(x));
                assert(s11.follows(x) && s10.follows(x) && s9.follows(x) && s8.follows(x) && s6.follows(x));
                assert(s5.follows(x) && s4.follows(x));
                crate::cs::lemma_follows(s11, x, Variable::Input(0), 1);
            }
            assert forall|x: Assignment| #[trigger] after.holds(x) implies {
                &&& a.u.X0.at(x) == self.hash_in(a, x)
                &&& folded(a.U, a.u, a.T, a.S, self.terms(), fold_challenge(a.pp_digest, a.u, a.T, a.S, x), V, x)
                &&& self.check_holds(a, x)
                &&& self.step_circuit.allows(0, ats(a.z_i@, x), ats(z_next@, x))
                &&& x.inputs[n] == a.u.X1.at(x)
                &&& x.inputs[n + 1] == self.hash_out(r, x)
            } by {
                assert(after.follows(x));
                assert(s14.holds(x) && s10.holds(x) && s8.holds(x));
                assert(s8.follows(x));
            }
            assert(self.enforces(r, n, after));
            let own = after.own();
            lemma_own_follows(after);
            lemma_own(neither.num, after);
            lemma_own(hash_out, s16);
            lemma_own_agrees(after);
            assert(after.inputs[n + 1] == own.inputs[n + 1]);
        }
        Ok(r)
    }

    /// Adds the constraints of the step to a system, and returns the next state.
    pub fn synthesize(&self, cs: &mut ConstraintSystem<E::Base>) -> (r: Result<Vec<AllocatedNum<E::Base>>, SynthesisError>)
        requires
            old(cs)@.wf(),
            self.wf(),
        ensures
            step(old(cs)@, final(cs)@),
            final(cs).witness == old(cs).witness,
            self.missing() ==> r == Err::<Vec<AllocatedNum<E::Base>>, SynthesisError>(SynthesisError::AssignmentMissing),
            r matches Err(e) ==> self.missing() || self.step_circuit.fails(0, self.state(), e),
            self.step_circuit.total() && !self.missing() ==> r is Ok,
            r matches Ok(out) ==> exists|s: AllocatedNovaStep<E>| #[trigger]
                self.synthesized(s, old(cs)@, final(cs)@) && s.z_next@ == out@,
    {
        let ghost before = cs@;
        match self.synthesize_step(cs) {
            Ok(s) => {
                let ghost whole = s;
                assert(self.synthesized(whole, before, cs@));
                Ok(s.z_next)
            },
            Err(e) => Err(e),
        }
    }
}

} // verus!
