//! Proofs of chains of steps: every step folds the one before it, on both curves, and runs one of the predicates.
use super::augmented::{
    advanced, layout_depends_on_sizes, step_hash, step_output, step_state, stepped, CircuitView,
    KiloNovaAugmentedCircuit, KiloNovaAugmentedCircuitInputs, StepView,
};
use super::circuit::{empty_instance, given_instance, honest_fold_satisfies_circuit};
use super::honest::{
    empty_instance_is_satisfied, empty_witness, first_fold_is_accepted, lemma_given_empty, started_instance_is_first,
};
use super::nifs::{absorbed_inputs, first_instance_is_satisfied, fold_stays_satisfied, proved, running, NIFS};
use super::params::PublicParams;
use super::relation::{
    first_instance, first_witness, folded_instance_elements, folded_sat, FoldedInstance, FoldedInstanceView,
    FoldedWitness, FoldedWitnessView,
};
use super::single_step::lemma_given_instance;
use crate::augmented::{trace_step, PredicateSet, TrivialPredicateSet, NUM_HASH_BITS};
use crate::completeness::{lemma_transcript_points, rows_satisfied};
use crate::cs::{ConstraintSystem, CsView};
use crate::engine::{commitment_log, vals, CurveEngine, CurveGroup, RandomOracle, MAX_ABSORBED};
use crate::errors::{NovaError, ProofVerifyReason};
use crate::field::FieldElement;
use crate::fragment::CircuitEngine;
use crate::instance_circuit::{given_nifs, lemma_given_nifs};
use crate::math::{lemma_canonical, lemma_cong_mod, lemma_residue_add, lemma_residue_mul};
use crate::nifs::hash_of;
use crate::proof_circuit::nvals;
use crate::r1cs::{InstanceView, R1CSInstance, R1CSShape, R1CSWitness, ShapeView, WitnessView};
use crate::relation::{absorb_all, copy_vec, equal_vecs, incoming_z, projected, resized, zeros};
use crate::shape::{
    padding_keeps_rows, r1cs_instance_and_witness, r1cs_sat, shape_of, system_instance, system_satisfies_its_shape,
    system_witness,
};
use crate::layout::bare_layout;
use vstd::arithmetic::power2::pow2;
use vstd::prelude::*;

verus! {

/// The digest of a trace with one predicate more.
pub fn update_trace_digest<F: FieldElement>(trace_digest: &F, predicate_id: usize) -> (r: F)
    requires
        predicate_id < usize::MAX,
    ensures
        r.val() == trace_step(trace_digest.val(), predicate_id as int, F::modulus()),
        r.val() == ((trace_digest.val() + predicate_id + 1) * (trace_digest.val() + predicate_id + 1) + predicate_id + 1)
            % F::modulus(),
{
    let delta = F::from_u64((predicate_id as u64) + 1);
    let t = trace_digest.add(&delta);
    let r = t.mul(&t).add(&delta);
    proof {
        let p = F::modulus();
        F::modulus_bounds();
        let (a, d) = (trace_digest.val() + delta.val(), delta.val());
        lemma_cong_mod(a, p);
        lemma_residue_mul(a % p, a, a % p, a, p);
        lemma_residue_add(((a % p) * (a % p)) % p, a * a, d, d, p);
        r.val_bounds();
        lemma_canonical(r.val(), a * a + d, p);
    }
    r
}

/// The digest of a trace of predicates.
pub open spec fn trace_digest(trace: Seq<usize>, p: int) -> int
    decreases trace.len(),
{
    if trace.len() == 0 {
        0
    } else {
        trace_step(trace_digest(trace.drop_last(), p), trace.last() as int, p)
    }
}

/// The digest of no predicates is zero, and one more predicate squares the digest plus its number, counted from one, and
/// adds that number.
pub proof fn trace_digest_grows(trace: Seq<usize>, id: usize, p: int)
    ensures
        trace_digest(Seq::empty(), p) == 0,
        ({
            let t = trace_digest(trace, p);
            trace_digest(trace.push(id), p) == ((t + id + 1) * (t + id + 1) + id + 1) % p
        }),
{
    assert(trace.push(id).drop_last() =~= trace);
}

/// The digest of a trace of predicates.
fn compute_trace_digest<F: FieldElement>(trace: &Vec<usize>) -> (r: F)
    requires
        forall|k: int| 0 <= k < trace@.len() ==> #[trigger] trace@[k] < usize::MAX,
    ensures
        r.val() == trace_digest(trace@, F::modulus()),
{
    let mut r = F::from_u64(0);
    let mut i: usize = 0;
    while i < trace.len()
        invariant
            i <= trace.len(),
            forall|k: int| 0 <= k < trace@.len() ==> #[trigger] trace@[k] < usize::MAX,
            r.val() == trace_digest(trace@.take(i as int), F::modulus()),
        decreases trace.len() - i,
    {
        r = update_trace_digest(&r, trace[i]);
        proof {
            let next = trace@.take(i + 1);
            assert(next.drop_last() =~= trace@.take(i as int));
            assert(next.last() == trace@[i as int]);
        }
        i = i + 1;
    }
    assert(trace@.take(trace@.len() as int) =~= trace@);
    r
}

/// The hash that stands for all that a step hands on.
fn hash_step<E: CurveEngine>(
    ro_consts: &<E::RO as RandomOracle<E::Base>>::Constants,
    pp_digest: &E::Base,
    i: usize,
    z0: &Vec<E::Base>,
    zi: &Vec<E::Base>,
    U: &FoldedInstance<E>,
    ri: &E::Base,
    trace: &E::Base,
) -> (r: E::Base)
    requires
        z0@.len() + zi@.len() + folded_instance_elements::<E>(U@).len() + 4 <= MAX_ABSORBED,
    ensures
        r.val() == step_hash::<E>(pp_digest.val(), i as int, vals(z0@), vals(zi@), U@, ri.val(), trace.val()),
{
    let mut ro = E::RO::new(ro_consts);
    ro.absorb(pp_digest);
    let num_steps = E::Base::from_u64(i as u64);
    ro.absorb(&num_steps);
    absorb_all(&mut ro, z0);
    absorb_all(&mut ro, zi);
    U.absorb_in_ro(&mut ro);
    ro.absorb(ri);
    ro.absorb(trace);
    assert(ro.state() =~= seq![pp_digest.val(), i as int] + vals(z0@) + vals(zi@) + folded_instance_elements::<E>(U@)
        + seq![ri.val(), trace.val()]);
    ro.squeeze(NUM_HASH_BITS)
}

/// A short number is the same residue in every field.
pub(crate) proof fn lemma_short<F: FieldElement>(h: int)
    requires
        0 <= h < pow2(250),
    ensures
        h % F::modulus() == h,
{
    F::modulus_bounds();
    lemma_pow250();
    vstd::arithmetic::div_mod::lemma_small_mod(h as nat, F::modulus() as nat);
}

proof fn lemma_pow250()
    ensures
        pow2(250) < 0x4000000000000000000000000000000000000000000000000000000000000000int,
{
    vstd::arithmetic::power2::lemma2_to64_rest();
    vstd::arithmetic::power2::lemma2_to64();
    vstd::arithmetic::power2::lemma_pow2_adds(64, 64);
    vstd::arithmetic::power2::lemma_pow2_adds(128, 64);
    vstd::arithmetic::power2::lemma_pow2_adds(192, 58);
    assert(pow2(128) == 0x1_0000_0000_0000_0000 * 0x1_0000_0000_0000_0000);
    assert(pow2(192) == 0x1_0000_0000_0000_0000_0000_0000_0000_0000int * 0x1_0000_0000_0000_0000);
}

/// The hash of a step is short.
proof fn lemma_step_hash_short<E: CurveEngine>(
    pp_digest: int,
    i: int,
    z0: Seq<int>,
    zi: Seq<int>,
    U: FoldedInstanceView,
    r: int,
    trace: int,
)
    ensures
        0 <= step_hash::<E>(pp_digest, i, z0, zi, U, r, trace) < pow2(250),
{
    vstd::arithmetic::power2::lemma_pow2_pos(250);
    let h = hash_of::<E>()(
        seq![pp_digest, i] + z0 + zi + folded_instance_elements::<E>(U) + seq![r, trace],
    );
    vstd::arithmetic::div_mod::lemma_mod_bound(h, pow2(250) as int);
}

/// What running the circuit of a step comes to: the next state, and the instance and the witness that its system
/// makes up.
pub open spec fn ran<E: CircuitEngine, EO: CurveEngine, PS: PredicateSet<E::Base>>(
    circuit: KiloNovaAugmentedCircuit<'_, E, PS>,
    cs: CsView,
    shape: ShapeView,
    ck: EO::CommitmentKey,
    z: Seq<int>,
    u: InstanceView,
    w: WitnessView,
) -> bool {
    let v = circuit.reads();
    &&& cs.wf()
    &&& cs.p == E::Base::modulus()
    &&& cs.inputs.len() - 1 == shape.num_io
    &&& w == system_witness(cs, shape, w.r_W)
    &&& u == system_instance(cs, commitment_log::<EO>(EO::generators(&ck), EO::blinding(&ck), w.W, w.r_W))
    &&& cs.satisfied() == circuit.satisfiable()
    &&& z.len() == circuit.predicate_set.width()
    &&& shape.num_io >= 2
    &&& u.X[shape.num_io - 2] == v.u.X[1]
    &&& cs.layout() == circuit.lays(bare_layout()).0
    &&& shape.num_io == 2 + circuit.predicate_set.publishes(circuit.step_predicate_id as int)
    &&& circuit.predicate_set.yields(circuit.step_predicate_id as int, step_state(v), z)
    &&& u.X[shape.num_io - 1] == step_output::<E>(circuit.rules(), v, advanced::<E>(circuit.rules(), v), z)
    &&& cs.satisfied() ==> {
        &&& u.X[shape.num_io - 1] == step_output::<E>(circuit.rules(), v, stepped::<E>(circuit.rules(), v)->0, z)
        &&& circuit.predicate_set.allows(circuit.step_predicate_id as int, step_state(v), z)
    }
}

/// Runs the circuit of a step over one curve: returned are the next state, and the instance and the witness over the
/// other curve.
fn run_step<E, EO, PS>(circuit: &KiloNovaAugmentedCircuit<'_, E, PS>, shape: &R1CSShape<EO>, ck: &EO::CommitmentKey) -> (r:
    Result<(Vec<EO::Scalar>, R1CSInstance<EO>, R1CSWitness<EO>), NovaError>) where
    E: CircuitEngine + CurveGroup<Base = <EO as CurveGroup>::Scalar>,
    EO: CurveEngine,
    PS: PredicateSet<<EO as CurveGroup>::Scalar>,

    requires
        circuit.wf(),
        !circuit.inputs_missing(),
        shape@.num_vars <= EO::generators(ck).len(),
    ensures
        match r {
            Ok((z, u, w)) => exists|cs: CsView| #[trigger]
                ran::<E, EO, PS>(*circuit, cs, shape@, *ck, vals(z@), u@, w@),
            Err(NovaError::SynthesisError { reason }) => !circuit.predicate_set.total() && circuit.predicate_set.fails(
                circuit.step_predicate_id as int,
                step_state(circuit.reads()),
                reason,
            ),
            Err(e) => e == NovaError::InvalidInputLength && shape@.num_io != 2 + circuit.predicate_set.publishes(
                circuit.step_predicate_id as int,
            ),
        },
{
    let mut cs: ConstraintSystem<EO::Scalar> = ConstraintSystem::new(true);
    assert(cs@.layout() =~= bare_layout());
    let out = match circuit.synthesize(&mut cs) {
        Ok(out) => out,
        Err(e) => {
            return Err(NovaError::SynthesisError { reason: e });
        },
    };
    let (u, w) = match r1cs_instance_and_witness::<EO>(&cs, shape, ck) {
        Ok(r) => r,
        Err(e) => {
            return Err(e);
        },
    };
    let mut z: Vec<EO::Scalar> = Vec::new();
    let mut i: usize = 0;
    while i < out.len()
        invariant
            i <= out.len(),
            z@.len() == i,
            forall|k: int| 0 <= k < i ==> (#[trigger] z@[k]).val() == out@[k].value.val(),
        decreases out.len() - i,
    {
        z.push(out[i].value);
        i = i + 1;
    }
    proof {
        reveal(CsView::wf);
        assert(vals(z@) =~= nvals(out@));
        assert(ran::<E, EO, PS>(*circuit, cs@, shape@, *ck, vals(z@), u@, w@));
    }
    let r = Ok((z, u, w));
    assert(ran::<E, EO, PS>(*circuit, cs@, shape@, *ck, vals(r->Ok_0.0@), r->Ok_0.1@, r->Ok_0.2@));
    r
}

/// A proof of a chain of steps.
pub struct RecursiveSNARK<E1, E2, PS> where
    E1: CircuitEngine + CurveGroup<Base = <E2 as CurveGroup>::Scalar>,
    E2: CircuitEngine + CurveGroup<Base = <E1 as CurveGroup>::Scalar>,
    PS: PredicateSet<<E1 as CurveGroup>::Scalar>,
 {
    pub z0: Vec<E1::Scalar>,
    pub r_W_primary: FoldedWitness<E1>,
    pub r_U_primary: FoldedInstance<E1>,
    pub ri_primary: E1::Scalar,
    pub r_W_secondary: FoldedWitness<E2>,
    pub r_U_secondary: FoldedInstance<E2>,
    pub ri_secondary: E2::Scalar,
    pub l_w_secondary: R1CSWitness<E2>,
    pub l_u_secondary: R1CSInstance<E2>,
    pub i: usize,
    pub zi: Vec<E1::Scalar>,
    pub trace_primary: E1::Scalar,
    pub trace_secondary: E2::Scalar,
    pub _p: core::marker::PhantomData<PS>,
}

impl<E1, E2, PS> RecursiveSNARK<E1, E2, PS> where
    E1: CircuitEngine + CurveGroup<Base = <E2 as CurveGroup>::Scalar>,
    E2: CircuitEngine + CurveGroup<Base = <E1 as CurveGroup>::Scalar>,
    PS: PredicateSet<<E1 as CurveGroup>::Scalar>,
 {
    /// Whether the states have the length that the parameters ask for, the folded instances are satisfied by their
    /// witnesses, and the commitment of the last instance opens to its witness.
    pub open spec fn wf(&self, pp: &PublicParams<E1, E2, PS>) -> bool {
        &&& self.i >= 1
        &&& self.z0@.len() == pp.F_arity
        &&& self.zi@.len() == pp.F_arity
        &&& folded_sat::<E1>(pp.structure_primary@, pp.ck_primary, self.r_U_primary@, self.r_W_primary@) is Ok
        &&& folded_sat::<E2>(pp.structure_secondary@, pp.ck_secondary, self.r_U_secondary@, self.r_W_secondary@) is Ok
        &&& opens::<E2>(
            pp.structure_secondary.index.predicates@[0].shape@,
            pp.ck_secondary,
            self.l_u_secondary@,
            self.l_w_secondary@,
        )
    }

    /// The hashes on both curves of what the last step hands on.
    pub open spec fn output_hashes(&self, pp: &PublicParams<E1, E2, PS>, num_steps: int, z0: Seq<int>) -> (int, int) {
        (
            step_hash::<E2>(
                pp.digest.val(),
                num_steps,
                z0,
                vals(self.zi@),
                self.r_U_secondary@,
                self.ri_primary.val(),
                self.trace_primary.val(),
            ),
            step_hash::<E1>(
                pp.digest.val() % E1::Base::modulus(),
                num_steps,
                seq![0],
                seq![0],
                self.r_U_primary@,
                self.ri_secondary.val(),
                self.trace_secondary.val(),
            ),
        )
    }

    /// Whether the public values of the last instance are the hashes of what the last step hands on.
    pub open spec fn hashes_match(&self, pp: &PublicParams<E1, E2, PS>, num_steps: int, z0: Seq<int>) -> bool {
        let (h1, h2) = self.output_hashes(pp, num_steps, z0);
        h1 == self.l_u_secondary@.X[0] % E2::Base::modulus() && h2 == self.l_u_secondary@.X[1]
    }

    /// Whether a system makes up the last instance and its witness.
    pub open spec fn last_made_by(&self, pp: &PublicParams<E1, E2, PS>, cs: CsView) -> bool {
        made_by::<E2>(
            pp.structure_secondary.index.predicates@[0].shape@,
            pp.ck_secondary,
            self.l_u_secondary@,
            self.l_w_secondary@,
            cs,
        )
    }

    /// Whether the last step is one that a satisfied circuit makes up, which takes a step of a predicate, and hashes what
    /// is handed on.
    pub open spec fn honest(&self, pp: &PublicParams<E1, E2, PS>, id: int) -> bool {
        &&& self.hashes_match(pp, self.i as int, vals(self.z0@))
        &&& exists|cs: CsView| #[trigger] self.last_made_by(pp, cs) && cs.satisfied() && cs.layout() == pp.secondary_layout(id)
    }

    /// Whether the digests are those of a trace of predicates.
    pub open spec fn traced(&self, trace: Seq<usize>) -> bool {
        &&& self.trace_primary.val() == trace_digest(trace, E1::Scalar::modulus())
        &&& self.trace_secondary.val() == trace_digest(trace, E2::Scalar::modulus())
    }

    /// What verifying the proof comes to.
    pub open spec fn verdict(
        &self,
        pp: &PublicParams<E1, E2, PS>,
        num_steps: int,
        z0: Seq<int>,
        trace: Seq<usize>,
    ) -> Result<(), NovaError> {
        if num_steps == 0 || self.i != num_steps || vals(self.z0@) != z0 || trace.len() != num_steps || (exists|k: int|
            0 <= k < trace.len() && #[trigger] trace[k] >= pp.structure_primary@.len()) || self.l_u_secondary@.X.len() != 2
            || self.r_U_primary@.X.len() != 2 || self.r_U_secondary@.X.len() != 2 {
            Err(NovaError::ProofVerifyError { reason: ProofVerifyReason::StepsOrInputs })
        } else if !self.traced(trace) {
            Err(NovaError::ProofVerifyError { reason: ProofVerifyReason::PredicateTrace })
        } else if !self.hashes_match(pp, num_steps, z0) {
            Err(NovaError::ProofVerifyError { reason: ProofVerifyReason::OutputHash })
        } else {
            match folded_sat::<E1>(pp.structure_primary@, pp.ck_primary, self.r_U_primary@, self.r_W_primary@) {
                Err(e) => Err(e),
                Ok(_) => match folded_sat::<E2>(
                    pp.structure_secondary@,
                    pp.ck_secondary,
                    self.r_U_secondary@,
                    self.r_W_secondary@,
                ) {
                    Err(e) => Err(e),
                    Ok(_) => r1cs_sat::<E2>(
                        pp.structure_secondary.index.predicates@[0].shape@,
                        pp.ck_secondary,
                        self.l_u_secondary@,
                        self.l_w_secondary@,
                    ),
                },
            }
        }
    }

    /// Whether an oracle can absorb what the last step hands on.
    pub open spec fn hashable(&self) -> bool {
        &&& self.z0@.len() + self.zi@.len() + folded_instance_elements::<E2>(self.r_U_secondary@).len() + 4 <= MAX_ABSORBED
        &&& folded_instance_elements::<E1>(self.r_U_primary@).len() + 6 <= MAX_ABSORBED
    }

    /// Verifies that the proof is one of so many steps from a state, by the predicates of a trace: returned is the
    /// state that they lead to.
    pub fn verify(
        &self,
        pp: &PublicParams<E1, E2, PS>,
        num_steps: usize,
        z0: &Vec<E1::Scalar>,
        predicate_trace: &Vec<usize>,
    ) -> (r: Result<Vec<E1::Scalar>, NovaError>)
        requires
            pp.wf(),
            self.hashable(),
        ensures
            match r {
                Ok(z) => self.verdict(pp, num_steps as int, vals(z0@), predicate_trace@) is Ok && vals(z@) == vals(self.zi@),
                Err(e) => self.verdict(pp, num_steps as int, vals(z0@), predicate_trace@) == Err::<(), NovaError>(e),
            },
            r is Ok <==> {
                &&& num_steps != 0 && self.i == num_steps && vals(self.z0@) == vals(z0@)
                &&& predicate_trace@.len() == num_steps
                &&& forall|k: int|
                    0 <= k < predicate_trace@.len() ==> #[trigger] predicate_trace@[k] < pp.structure_primary@.len()
                &&& self.l_u_secondary.X@.len() == 2 && self.r_U_primary.X@.len() == 2 && self.r_U_secondary.X@.len() == 2
                &&& self.trace_primary.val() == trace_digest(predicate_trace@, E1::Scalar::modulus())
                &&& self.trace_secondary.val() == trace_digest(predicate_trace@, E2::Scalar::modulus())
                &&& self.l_u_secondary.X@[0].val() % E2::Base::modulus() == hash_of::<E2>()(
                    seq![pp.digest.val(), num_steps as int] + vals(z0@) + vals(self.zi@) + folded_instance_elements::<E2>(
                        self.r_U_secondary@,
                    ) + seq![self.ri_primary.val(), self.trace_primary.val()],
                ) % (pow2(250) as int)
                &&& self.l_u_secondary.X@[1].val() == hash_of::<E1>()(
                    seq![pp.digest.val() % E1::Base::modulus(), num_steps as int] + seq![0] + seq![0]
                        + folded_instance_elements::<E1>(self.r_U_primary@) + seq![
                        self.ri_secondary.val(),
                        self.trace_secondary.val(),
                    ],
                ) % (pow2(250) as int)
                &&& folded_sat::<E1>(pp.structure_primary@, pp.ck_primary, self.r_U_primary@, self.r_W_primary@) is Ok
                &&& folded_sat::<E2>(pp.structure_secondary@, pp.ck_secondary, self.r_U_secondary@, self.r_W_secondary@) is Ok
                &&& r1cs_sat::<E2>(
                    pp.structure_secondary.index.predicates@[0].shape@,
                    pp.ck_secondary,
                    self.l_u_secondary@,
                    self.l_w_secondary@,
                ) is Ok
            },
            r matches Ok(z) ==> vals(z@) == vals(self.zi@),
            r matches Err(e) ==> ({
                let fits = num_steps != 0 && self.i == num_steps && vals(self.z0@) == vals(z0@) && predicate_trace@.len()
                    == num_steps && (forall|k: int|
                    0 <= k < predicate_trace@.len() ==> #[trigger] predicate_trace@[k] < pp.structure_primary@.len())
                    && self.l_u_secondary.X@.len() == 2 && self.r_U_primary.X@.len() == 2 && self.r_U_secondary.X@.len() == 2;
                let traced = self.trace_primary.val() == trace_digest(predicate_trace@, E1::Scalar::modulus())
                    && self.trace_secondary.val() == trace_digest(predicate_trace@, E2::Scalar::modulus());
                let hashed = self.l_u_secondary.X@[0].val() % E2::Base::modulus() == hash_of::<E2>()(
                    seq![pp.digest.val(), num_steps as int] + vals(z0@) + vals(self.zi@) + folded_instance_elements::<E2>(
                        self.r_U_secondary@,
                    ) + seq![self.ri_primary.val(), self.trace_primary.val()],
                ) % (pow2(250) as int) && self.l_u_secondary.X@[1].val() == hash_of::<E1>()(
                    seq![pp.digest.val() % E1::Base::modulus(), num_steps as int] + seq![0] + seq![0]
                        + folded_instance_elements::<E1>(self.r_U_primary@) + seq![
                        self.ri_secondary.val(),
                        self.trace_secondary.val(),
                    ],
                ) % (pow2(250) as int);
                let first = folded_sat::<E1>(pp.structure_primary@, pp.ck_primary, self.r_U_primary@, self.r_W_primary@);
                let second = folded_sat::<E2>(
                    pp.structure_secondary@,
                    pp.ck_secondary,
                    self.r_U_secondary@,
                    self.r_W_secondary@,
                );
                let last = r1cs_sat::<E2>(
                    pp.structure_secondary.index.predicates@[0].shape@,
                    pp.ck_secondary,
                    self.l_u_secondary@,
                    self.l_w_secondary@,
                );
                &&& !fits ==> e == NovaError::ProofVerifyError { reason: ProofVerifyReason::StepsOrInputs }
                &&& fits && !traced ==> e == NovaError::ProofVerifyError { reason: ProofVerifyReason::PredicateTrace }
                &&& fits && traced && !hashed ==> e == NovaError::ProofVerifyError { reason: ProofVerifyReason::OutputHash }
                &&& fits && traced && hashed && first is Err ==> first == Err::<(), NovaError>(e)
                &&& fits && traced && hashed && first is Ok && second is Err ==> second == Err::<(), NovaError>(e)
                &&& fits && traced && hashed && first is Ok && second is Ok ==> last == Err::<(), NovaError>(e)
            }),
    {
        proof {
            assert(vals(self.l_u_secondary.X@).len() == self.l_u_secondary.X@.len());
            assert(vals(self.r_U_primary.X@).len() == self.r_U_primary.X@.len());
            assert(vals(self.r_U_secondary.X@).len() == self.r_U_secondary.X@.len());
        }
        let invalid = num_steps == 0 || self.i != num_steps || !equal_vecs(&self.z0, z0) || predicate_trace.len()
            != num_steps;
        let mut k: usize = 0;
        let num_predicates = pp.structure_primary.index.predicates.len();
        let mut known = true;
        while k < predicate_trace.len()
            invariant
                k <= predicate_trace.len(),
                known == (forall|j: int| 0 <= j < k ==> #[trigger] predicate_trace@[j] < num_predicates),
            decreases predicate_trace.len() - k,
        {
            if predicate_trace[k] >= num_predicates {
                known = false;
            }
            k = k + 1;
        }
        if invalid || !known || self.l_u_secondary.X.len() != 2 || self.r_U_primary.X.len() != 2
            || self.r_U_secondary.X.len() != 2 {
            return Err(NovaError::ProofVerifyError { reason: ProofVerifyReason::StepsOrInputs });
        }
        let expected_trace_primary: E1::Scalar = compute_trace_digest(predicate_trace);
        let expected_trace_secondary: E2::Scalar = compute_trace_digest(predicate_trace);
        if !expected_trace_primary.equals(&self.trace_primary) || !expected_trace_secondary.equals(&self.trace_secondary) {
            return Err(NovaError::ProofVerifyError { reason: ProofVerifyReason::PredicateTrace });
        }
        let hash_primary: E2::Base = hash_step::<E2>(
            &pp.ro_consts_secondary,
            &pp.digest,
            num_steps,
            z0,
            &self.zi,
            &self.r_U_secondary,
            &self.ri_primary,
            &self.trace_primary,
        );
        let mut zero: Vec<E2::Scalar> = Vec::new();
        zero.push(E2::Scalar::from_u64(0));
        assert(vals(zero@) =~= seq![0int]);
        let hash_secondary: E1::Base = hash_step::<E1>(
            &pp.ro_consts_primary,
            &E1::scalar_as_base(&pp.digest),
            num_steps,
            &zero,
            &zero,
            &self.r_U_primary,
            &self.ri_secondary,
            &self.trace_secondary,
        );
        if !hash_primary.equals(&E2::scalar_as_base(&self.l_u_secondary.X[0])) || !hash_secondary.equals(
            &self.l_u_secondary.X[1],
        ) {
            return Err(NovaError::ProofVerifyError { reason: ProofVerifyReason::OutputHash });
        }
        match pp.structure_primary.is_sat(&pp.ck_primary, &self.r_U_primary, &self.r_W_primary) {
            Ok(_) => {},
            Err(e) => {
                return Err(e);
            },
        }
        match pp.structure_secondary.is_sat(&pp.ck_secondary, &self.r_U_secondary, &self.r_W_secondary) {
            Ok(_) => {},
            Err(e) => {
                return Err(e);
            },
        }
        match pp.structure_secondary.index.predicates[0].shape.is_sat(
            &pp.ck_secondary,
            &self.l_u_secondary,
            &self.l_w_secondary,
        ) {
            Ok(_) => {},
            Err(e) => {
                return Err(e);
            },
        }
        Ok(copy_vec(&self.zi))
    }

    /// The state that the steps have led to.
    pub fn outputs(&self) -> (r: &Vec<E1::Scalar>)
        ensures
            *r == self.zi,
    {
        &self.zi
    }

    /// The number of steps.
    pub fn num_steps(&self) -> (r: usize)
        ensures
            r == self.i,
    {
        self.i
    }
}

/// The proof of a chain of steps whose last circuit is satisfied, and hashes what is handed on, is accepted under
/// parameters that fit the predicates.
#[verifier::rlimit(60)]
#[verifier::spinoff_prover]
pub proof fn honest_proof_is_accepted<E1, E2, PS>(
    pp: PublicParams<E1, E2, PS>,
    predicates: PS,
    snark: RecursiveSNARK<E1, E2, PS>,
    id: int,
    trace: Seq<usize>,
) where
    E1: CircuitEngine + CurveGroup<Base = <E2 as CurveGroup>::Scalar>,
    E2: CircuitEngine + CurveGroup<Base = <E1 as CurveGroup>::Scalar>,
    PS: PredicateSet<<E1 as CurveGroup>::Scalar>,

    requires
        pp.wf(),
        pp.fits(predicates),
        0 <= id < pp.structure_primary@.len(),
        snark.wf(&pp),
        snark.honest(&pp, id),
        snark.traced(trace),
        trace.len() == snark.i,
        forall|k: int| 0 <= k < trace.len() ==> #[trigger] trace[k] < pp.structure_primary@.len(),
    ensures
        snark.verdict(&pp, snark.i as int, vals(snark.z0@), trace) is Ok,
{
    let cs = choose|cs: CsView| #[trigger]
        snark.last_made_by(&pp, cs) && cs.satisfied() && cs.layout() == pp.secondary_layout(id);
    assert(pp.takes(id));
    layout_depends_on_sizes::<E1, TrivialPredicateSet>(
        pp.secondary_rules(0),
        pp.secondary_rules(id),
        TrivialPredicateSet {  },
        bare_layout(),
    );
    let shape = pp.structure_secondary.index.predicates@[0].shape@;
    assert(shape_of(cs).pad() == shape);
    let (u, w) = (snark.l_u_secondary@, snark.l_w_secondary@);
    let p = E2::Scalar::modulus();
    let s = shape_of(cs);
    system_satisfies_its_shape::<E2>(cs, pp.ck_secondary, w.r_W);
    crate::shape::lemma_shape_fits(cs);
    assert(resized(cs.aux, s.num_vars) =~= cs.aux);
    padding_keeps_rows(s, cs.aux, u.X, p);
    assert(r1cs_sat::<E2>(shape, pp.ck_secondary, u, w) is Ok);
}

/// An instance whose commitment and public values are zero.
pub fn dummy_r1cs_instance<E: CurveEngine>(num_io: usize) -> (r: R1CSInstance<E>)
    ensures
        r@ == (InstanceView { comm_W: 0, X: Seq::new(num_io as nat, |i: int| 0int) }),
{
    R1CSInstance { comm_W: E::identity_commitment(), X: zeros(num_io) }
}

/// The folded instance that has folded nothing.
fn empty_folded<E: CurveEngine>(structure: &super::relation::GlobalStructure<E>) -> (r: FoldedInstance<E>)
    ensures
        r@ == empty_instance(structure@),
{
    let r = FoldedInstance::default(structure);
    proof {
        let e = empty_instance(structure@);
        assert(r@.lambda =~= e.lambda);
        assert(r@.X =~= e.X);
        assert(r@.r_x =~= e.r_x);
        assert(r@.r_y =~= e.r_y);
        assert(r@.v =~= e.v);
    }
    r
}

/// Whether an instance with two public values and its witness are those of a shape, the commitment made with a key.
pub open spec fn opens<E: CurveEngine>(shape: ShapeView, ck: E::CommitmentKey, u: InstanceView, w: WitnessView) -> bool {
    &&& u.X.len() == 2
    &&& w.W.len() == shape.num_vars
    &&& u.comm_W == commitment_log::<E>(E::generators(&ck), E::blinding(&ck), w.W, w.r_W)
}

/// The first step over the first curve: nothing is folded.
#[verifier::rlimit(60)]
#[verifier::spinoff_prover]
fn first_primary<E1, E2, PS>(
    pp: &PublicParams<E1, E2, PS>,
    predicates: &PS,
    z0: &Vec<E1::Scalar>,
    id: usize,
    ri: &E1::Scalar,
) -> (r: Result<(Vec<E1::Scalar>, R1CSInstance<E1>, R1CSWitness<E1>), NovaError>) where
    E1: CircuitEngine + CurveGroup<Base = <E2 as CurveGroup>::Scalar>,
    E2: CircuitEngine + CurveGroup<Base = <E1 as CurveGroup>::Scalar>,
    PS: PredicateSet<<E1 as CurveGroup>::Scalar>,

    requires
        pp.wf(),
        pp.serves(*predicates),
        z0@.len() == pp.F_arity,
        id < predicates.count(),
    ensures
        predicates.total() && predicates.publishes(id as int) == 0 ==> r is Ok,
        match r {
            Ok((z, u, w)) => {
                &&& z@.len() == pp.F_arity
                &&& opens::<E1>(pp.structure_primary.index.predicates@[id as int].shape@, pp.ck_primary, u@, w@)
                &&& predicates.publishes(id as int) == 0
                &&& predicates.yields(id as int, vals(z0@), vals(z@))
                &&& u@.X[1] == step_hash::<E2>(
                    pp.digest.val(),
                    1,
                    vals(z0@),
                    vals(z@),
                    empty_instance(pp.structure_secondary@),
                    ri.val(),
                    trace_step(0, id as int, E2::Base::modulus()),
                )
                &&& predicates.solves(id as int, vals(z0@)) ==> predicates.allows(id as int, vals(z0@), vals(z@))
            },
            Err(NovaError::SynthesisError { reason }) => !predicates.total() && predicates.fails(
                id as int,
                vals(z0@),
                reason,
            ),
            Err(e) => e == NovaError::InvalidInputLength && predicates.publishes(id as int) != 0,
        },
{
    let structure = &pp.structure_secondary;
    let ghost s = structure@;
    let ghost p = E2::Base::modulus();
    let digest: E2::Scalar = E1::scalar_as_base(&pp.digest);
    let u0 = dummy_r1cs_instance::<E2>(structure.index.num_io);
    let nifs = NIFS::<E2>::dummy(&pp.ro_consts_secondary, &digest, structure, 0, &u0);
    let ghost u0v = u0@;
    let inputs: KiloNovaAugmentedCircuitInputs<E2> = KiloNovaAugmentedCircuitInputs::new(
        digest,
        E2::Base::from_u64(0),
        copy_vec(z0),
        None,
        E2::Base::from_u64(0),
        E2::Base::from_u64(id as u64),
        E2::Base::from_u64(0),
        Some(empty_folded(structure)),
        Some(zeros(structure.index.num_vars_max)),
        None,
        *ri,
        Some(u0),
        Some(zeros(structure.index.num_vars_max)),
        Some(nifs),
    );
    assert(vals(inputs.u->0.X@).len() == inputs.u->0.X@.len());
    let circuit: KiloNovaAugmentedCircuit<'_, E2, PS> = KiloNovaAugmentedCircuit::new(
        true,
        Some(inputs),
        predicates,
        id,
        0,
        &pp.ro_consts_secondary,
        structure,
    );
    proof {
        let v = circuit.reads();
        E2::Base::modulus_bounds();
        lemma_given_empty(s);
        assert(v.U == empty_instance(s));
        assert(v.z0 =~= vals(z0@));
        assert(v.u.X =~= projected(u0v.X, s.num_io, p));
        vstd::arithmetic::div_mod::lemma_small_mod(1, p as nat);
        pp.digest.val_bounds();
        lemma_short::<E1::Base>(pp.digest.val());
        lemma_short::<E2::Base>(pp.digest.val());
        first_fold_is_accepted::<E2>(s, digest.val(), 0, u0v);
        assert(stepped::<E2>(circuit.rules(), v) == Some(empty_instance(s)));
        assert(advanced::<E2>(circuit.rules(), v) == empty_instance(s));
    }
    run_step::<E2, E1, PS>(&circuit, &pp.structure_primary.index.predicates[id].shape, &pp.ck_primary)
}

/// Whether a system makes up an instance with two public values and its witness, of a shape.
pub open spec fn made_by<E: CurveEngine>(
    shape: ShapeView,
    ck: E::CommitmentKey,
    u: InstanceView,
    w: WitnessView,
    cs: CsView,
) -> bool {
    &&& cs.wf()
    &&& cs.p == E::Scalar::modulus()
    &&& cs.inputs.len() == 3
    &&& w == system_witness(cs, shape, w.r_W)
    &&& u == system_instance(cs, commitment_log::<E>(E::generators(&ck), E::blinding(&ck), w.W, w.r_W))
}

/// The first step over the second curve: it takes the instance of the first step over the first curve as it is.
#[verifier::rlimit(60)]
#[verifier::spinoff_prover]
fn first_secondary<E1, E2, PS>(
    pp: &PublicParams<E1, E2, PS>,
    u1: &R1CSInstance<E1>,
    w1: &R1CSWitness<E1>,
    id: usize,
    ri: &E2::Scalar,
) -> (r: (R1CSInstance<E2>, R1CSWitness<E2>)) where
    E1: CircuitEngine + CurveGroup<Base = <E2 as CurveGroup>::Scalar>,
    E2: CircuitEngine + CurveGroup<Base = <E1 as CurveGroup>::Scalar>,
    PS: PredicateSet<<E1 as CurveGroup>::Scalar>,

    requires
        pp.wf(),
        id < pp.structure_primary@.len(),
        opens::<E1>(pp.structure_primary.index.predicates@[id as int].shape@, pp.ck_primary, u1@, w1@),
    ensures
        opens::<E2>(pp.structure_secondary.index.predicates@[0].shape@, pp.ck_secondary, r.0@, r.1@),
        r.0@.X[0] == u1@.X[1] % E1::Base::modulus(),
        r.0@.X[1] == step_hash::<E1>(
            pp.digest.val() % E1::Base::modulus(),
            1,
            seq![0],
            seq![0],
            first_instance(pp.structure_primary@, id as int, u1@, w1@, E1::Base::modulus()),
            ri.val(),
            trace_step(0, id as int, E2::Scalar::modulus()),
        ),
        exists|cs: CsView| #[trigger]
            made_by::<E2>(
                pp.structure_secondary.index.predicates@[0].shape@,
                pp.ck_secondary,
                r.0@,
                r.1@,
                cs,
            ) && cs.satisfied() && cs.layout() == pp.secondary_layout(id as int),
{
    let structure = &pp.structure_primary;
    let ghost s = structure@;
    let ghost p = E1::Base::modulus();
    let nifs = NIFS::<E1>::dummy(&pp.ro_consts_primary, &pp.digest, structure, id, u1);
    let mut zero: Vec<E1::Base> = Vec::new();
    zero.push(E1::Base::from_u64(0));
    let inputs: KiloNovaAugmentedCircuitInputs<E1> = KiloNovaAugmentedCircuitInputs::new(
        pp.digest,
        E1::Base::from_u64(0),
        zero,
        None,
        E1::Base::from_u64(0),
        E1::Base::from_u64(0),
        E1::Base::from_u64(id as u64),
        Some(empty_folded(structure)),
        Some(zeros(structure.index.num_vars_max)),
        None,
        *ri,
        Some(u1.copied()),
        Some(structure.project_witness(&w1.W)),
        Some(nifs),
    );
    proof {
        assert(vals(inputs.u->0.X@).len() == inputs.u->0.X@.len());
        assert(vals(inputs.w->0@).len() == inputs.w->0@.len());
        assert(vals(u1.X@).len() == u1.X@.len());
    }
    let tc = TrivialPredicateSet::default();
    let circuit: KiloNovaAugmentedCircuit<'_, E1, TrivialPredicateSet> = KiloNovaAugmentedCircuit::new(
        false,
        Some(inputs),
        &tc,
        0,
        id,
        &pp.ro_consts_primary,
        structure,
    );
    proof {
        let v = circuit.reads();
        E1::Base::modulus_bounds();
        lemma_given_empty(s);
        assert(v.U == empty_instance(s));
        assert(v.z0 =~= seq![0int]);
        assert(v.u.X =~= projected(u1@.X, s.num_io, p));
        vstd::arithmetic::div_mod::lemma_small_mod(1, p as nat);
        let shape = structure.index.predicates@[id as int].shape@;
        assert(s.num_vars_max > 0);
        assert(v.w_eval == vals(inputs.w->0@)[0]);
        first_fold_is_accepted::<E1>(s, pp.digest.val(), id as int, u1@);
        started_instance_is_first::<E1>(s, id as int, u1@, w1@);
        assert(stepped::<E1>(circuit.rules(), v) == Some(first_instance(s, id as int, u1@, w1@, p)));
        assert(circuit.satisfiable());
        assert(circuit.rules() == pp.secondary_rules(id as int));
    }
    match run_step::<E1, E2, TrivialPredicateSet>(
        &circuit,
        &pp.structure_secondary.index.predicates[0].shape,
        &pp.ck_secondary,
    ) {
        Ok((_z, u, w)) => {
            proof {
                let shape = pp.structure_secondary.index.predicates@[0].shape@;
                let cs = choose|cs: CsView| #[trigger]
                    ran::<E1, E2, TrivialPredicateSet>(circuit, cs, shape, pp.ck_secondary, vals(_z@), u@, w@);
                assert(made_by::<E2>(shape, pp.ck_secondary, u@, w@, cs));
                assert(cs.layout() == pp.secondary_layout(id as int));
                assert(cs.satisfied());
                assert(vals(_z@) =~= seq![0int]);
            }
            (u, w)
        },
        Err(_) => vstd::pervasive::unreached(),
    }
}

impl<E1, E2, PS> RecursiveSNARK<E1, E2, PS> where
    E1: CircuitEngine + CurveGroup<Base = <E2 as CurveGroup>::Scalar>,
    E2: CircuitEngine + CurveGroup<Base = <E1 as CurveGroup>::Scalar>,
    PS: PredicateSet<<E1 as CurveGroup>::Scalar>,
 {
    /// The proof of one step: a predicate takes the state to the next one.
    #[verifier::rlimit(60)]
    #[verifier::spinoff_prover]
    pub fn new(
        pp: &PublicParams<E1, E2, PS>,
        predicates: &PS,
        z0: &Vec<E1::Scalar>,
        first_predicate_id: usize,
    ) -> (r: Result<Self, NovaError>)
        requires
            pp.wf(),
            pp.serves(*predicates),
        ensures
            ({
                let id = first_predicate_id as int;
                if z0@.len() != pp.F_arity || id >= predicates.count() {
                    r == Err::<Self, NovaError>(NovaError::InvalidInitialInputLength)
                } else {
                    &&& predicates.total() && predicates.publishes(id) == 0 ==> r is Ok
                    &&& match r {
                        Ok(s) => {
                            &&& s.wf(pp)
                            &&& s.i == 1
                            &&& vals(s.z0@) == vals(z0@)
                            &&& s.traced(seq![first_predicate_id])
                            &&& s.r_U_secondary@ == empty_instance(pp.structure_secondary@)
                            &&& s.r_W_secondary@ == empty_witness(pp.structure_secondary@)
                            &&& exists|u: InstanceView, w: WitnessView| #[trigger]
                                opens::<E1>(
                                    pp.structure_primary.index.predicates@[id].shape@,
                                    pp.ck_primary,
                                    u,
                                    w,
                                ) && s.r_U_primary@ == first_instance(
                                    pp.structure_primary@,
                                    id,
                                    u,
                                    w,
                                    E1::Base::modulus(),
                                ) && s.r_W_primary@ == first_witness(pp.structure_primary@, w, E1::Base::modulus())
                            &&& predicates.publishes(id) == 0
                            &&& predicates.yields(id, vals(z0@), vals(s.zi@))
                            &&& s.honest(pp, id)
                            &&& predicates.solves(id, vals(z0@)) ==> predicates.allows(id, vals(z0@), vals(s.zi@))
                            &&& pp.fits(*predicates) ==> s.verdict(
                                pp,
                                1,
                                vals(z0@),
                                seq![first_predicate_id],
                            ) is Ok
                        },
                        Err(NovaError::SynthesisError { reason }) => !predicates.total() && predicates.fails(
                            id,
                            vals(z0@),
                            reason,
                        ),
                        Err(e) => e == NovaError::InvalidInputLength && predicates.publishes(id) != 0,
                    }
                }
            }),
    {
        if z0.len() != pp.F_arity || first_predicate_id >= predicates.num_predicates() {
            return Err(NovaError::InvalidInitialInputLength);
        }
        let ghost id = first_predicate_id as int;
        let ri_primary = E1::random_scalar();
        let ri_secondary = E2::random_scalar();
        let (zi, u_primary, w_primary) = match first_primary(pp, predicates, z0, first_predicate_id, &ri_primary) {
            Ok(r) => r,
            Err(e) => {
                return Err(e);
            },
        };
        let r_W_primary = FoldedWitness::from_r1cs_witness(&pp.structure_primary, &w_primary);
        proof {
            assert(vals(u_primary.X@).len() == u_primary.X@.len());
            assert(vals(w_primary.W@).len() == w_primary.W@.len());
        }
        let r_U_primary = FoldedInstance::from_r1cs_instance_witness(
            &pp.structure_primary,
            first_predicate_id,
            &u_primary,
            &w_primary,
        );
        let (l_u_secondary, l_w_secondary) = first_secondary(
            pp,
            &u_primary,
            &w_primary,
            first_predicate_id,
            &ri_secondary,
        );
        let r = RecursiveSNARK {
            z0: copy_vec(z0),
            r_W_primary,
            r_U_primary,
            ri_primary,
            r_W_secondary: FoldedWitness::default(&pp.structure_secondary),
            r_U_secondary: empty_folded(&pp.structure_secondary),
            ri_secondary,
            l_w_secondary,
            l_u_secondary,
            i: 1,
            zi,
            trace_primary: update_trace_digest(&E1::Scalar::from_u64(0), first_predicate_id),
            trace_secondary: update_trace_digest(&E2::Scalar::from_u64(0), first_predicate_id),
            _p: core::marker::PhantomData,
        };
        proof {
            let s1 = pp.structure_primary@;
            let s2 = pp.structure_secondary@;
            first_instance_is_satisfied::<E1>(s1, pp.ck_primary, id, u_primary@, w_primary@);
            empty_instance_is_satisfied::<E2>(s2, pp.ck_secondary);
            let t = seq![first_predicate_id];
            assert(t.drop_last() =~= Seq::<usize>::empty());
            assert(trace_digest(t.drop_last(), E1::Scalar::modulus()) == 0);
            assert(trace_digest(t.drop_last(), E2::Scalar::modulus()) == 0);
            assert(opens::<E1>(
                pp.structure_primary.index.predicates@[id].shape@,
                pp.ck_primary,
                u_primary@,
                w_primary@,
            ));
            {
                let h = u_primary@.X[1];
                lemma_step_hash_short::<E2>(
                    pp.digest.val(),
                    1,
                    vals(z0@),
                    vals(zi@),
                    empty_instance(s2),
                    ri_primary.val(),
                    trace_step(0, id, E2::Base::modulus()),
                );
                lemma_short::<E1::Base>(h);
                lemma_short::<E2::Base>(h);
                assert(r.hashes_match(pp, 1, vals(r.z0@)));
                let cs = choose|cs: CsView| #[trigger]
                    made_by::<E2>(
                        pp.structure_secondary.index.predicates@[0].shape@,
                        pp.ck_secondary,
                        l_u_secondary@,
                        l_w_secondary@,
                        cs,
                    ) && cs.satisfied() && cs.layout() == pp.secondary_layout(id);
                assert(r.last_made_by(pp, cs));
            }
            if pp.fits(*predicates) {
                honest_proof_is_accepted::<E1, E2, PS>(*pp, *predicates, r, id, t);
            }
        }
        Ok(r)
    }
}

/// A step that is given what its prover came to accepts it: where the incoming instance hashes what is handed on, and
/// its vector satisfies the rows of its predicate in the base field.
proof fn lemma_honest_step<E: CurveEngine>(
    c: CircuitView,
    v: StepView,
    ck: E::CommitmentKey,
    pp_digest: int,
    u1: FoldedInstanceView,
    w1: FoldedWitnessView,
    u2: InstanceView,
    w2: WitnessView,
)
    requires
        c.s.wf(),
        c.s.num_io == 2,
        0 <= c.incoming_predicate_id < c.s.len(),
        u2.X.len() == 2,
        folded_sat::<E>(c.s, ck, u1, w1) is Ok,
        rows_satisfied(
            c.s,
            c.incoming_predicate_id,
            incoming_z(c.s, u2, w2, E::Base::modulus()),
            E::Base::modulus(),
        ),
        v.i != 0,
        v.local_predicate_id == c.step_predicate_id,
        v.incoming_predicate_id == c.incoming_predicate_id,
        v.pp_digest == pp_digest % E::Base::modulus(),
        v.u == (InstanceView {
            comm_W: u2.comm_W,
            X: seq![u2.X[0] % E::Base::modulus(), u2.X[1] % E::Base::modulus()],
        }),
        v.u.X[0] == step_hash::<E>(v.pp_digest, v.i, v.z0, v.zi, v.U, v.ri, v.trace_digest_in),
        v.U == given_instance(c.s, Some(u1)),
        v.nifs == given_nifs(
            c.s,
            Some(proved::<E>(c.s, pp_digest, c.incoming_predicate_id, u1, w1, u2, w2).proof_),
        ),
    ensures
        stepped::<E>(c, v) == Some(proved::<E>(c.s, pp_digest, c.incoming_predicate_id, u1, w1, u2, w2).instance),
{
    let p = E::Base::modulus();
    let id = c.incoming_predicate_id;
    let f = proved::<E>(c.s, pp_digest, id, u1, w1, u2, w2);
    honest_fold_satisfies_circuit::<E>(c.s, ck, pp_digest, id, u1, w1, u2, w2);
    lemma_given_instance(c.s, u1);
    lemma_transcript_points::<E>(
        c.s,
        absorbed_inputs::<E>(pp_digest, id, u2),
        id,
        running(u1, w1),
        incoming_z(c.s, u2, w2, p),
    );
    lemma_given_nifs(c.s, f.proof_);
    assert(v.u.X =~= projected(u2.X, c.s.num_io, p));
}

impl<E1, E2, PS> RecursiveSNARK<E1, E2, PS> where
    E1: CircuitEngine + CurveGroup<Base = <E2 as CurveGroup>::Scalar>,
    E2: CircuitEngine + CurveGroup<Base = <E1 as CurveGroup>::Scalar>,
    PS: PredicateSet<<E1 as CurveGroup>::Scalar>,
 {
    /// What folding the last instance comes to.
    pub open spec fn folds(&self, pp: &PublicParams<E1, E2, PS>) -> super::nifs::Folded {
        proved::<E2>(
            pp.structure_secondary@,
            pp.digest.val() % E2::Scalar::modulus(),
            0,
            self.r_U_secondary@,
            self.r_W_secondary@,
            self.l_u_secondary@,
            self.l_w_secondary@,
        )
    }

    /// What folding an instance of the first curve comes to.
    pub open spec fn folds_primary(
        &self,
        pp: &PublicParams<E1, E2, PS>,
        id: int,
        u: InstanceView,
        w: WitnessView,
    ) -> super::nifs::Folded {
        proved::<E1>(pp.structure_primary@, pp.digest.val(), id, self.r_U_primary@, self.r_W_primary@, u, w)
    }

    /// Whether the vector of the last instance satisfies the rows of its predicate in the base field.
    pub open spec fn last_rows_hold(&self, pp: &PublicParams<E1, E2, PS>) -> bool {
        let p = E2::Base::modulus();
        rows_satisfied(
            pp.structure_secondary@,
            0,
            incoming_z(pp.structure_secondary@, self.l_u_secondary@, self.l_w_secondary@, p),
            p,
        )
    }

    /// What a step over the first curve comes to: the next state, and an instance with its witness.
    pub open spec fn leads_to(
        &self,
        pp: &PublicParams<E1, E2, PS>,
        predicates: PS,
        id: int,
        z: Seq<int>,
        u: InstanceView,
        w: WitnessView,
        r_next: int,
    ) -> bool {
        &&& z.len() == pp.F_arity
        &&& opens::<E1>(pp.structure_primary.index.predicates@[id].shape@, pp.ck_primary, u, w)
        &&& u.X[0] == self.l_u_secondary@.X[1] % E2::Base::modulus()
        &&& predicates.publishes(id) == 0
        &&& predicates.yields(id, vals(self.zi@), z)
        &&& self.hashes_match(pp, self.i as int, vals(self.z0@)) && self.last_rows_hold(pp) && predicates.solves(
            id,
            vals(self.zi@),
        ) ==> {
            &&& predicates.allows(id, vals(self.zi@), z)
            &&& u.X[1] == step_hash::<E2>(
                pp.digest.val(),
                self.i + 1,
                vals(self.z0@),
                z,
                self.folds(pp).instance,
                r_next,
                trace_step(self.trace_primary.val(), id, E2::Base::modulus()),
            )
        }
    }

    /// What a step over the second curve comes to: an instance with its witness.
    pub open spec fn answers(
        &self,
        pp: &PublicParams<E1, E2, PS>,
        id: int,
        u1: InstanceView,
        w1: WitnessView,
        u: InstanceView,
        w: WitnessView,
        r_next: int,
    ) -> bool {
        let p = E1::Base::modulus();
        let shape = pp.structure_secondary.index.predicates@[0].shape@;
        &&& opens::<E2>(shape, pp.ck_secondary, u, w)
        &&& u.X[0] == u1.X[1] % p
        &&& u1.X[0] % p == self.output_hashes(pp, self.i as int, vals(self.z0@)).1 && rows_satisfied(
            pp.structure_primary@,
            id,
            incoming_z(pp.structure_primary@, u1, w1, p),
            p,
        ) ==> {
            &&& u.X[1] == step_hash::<E1>(
                pp.digest.val() % p,
                self.i + 1,
                seq![0],
                seq![0],
                self.folds_primary(pp, id, u1, w1).instance,
                r_next,
                trace_step(self.trace_secondary.val(), id, p),
            )
            &&& exists|cs: CsView| #[trigger]
                made_by::<E2>(shape, pp.ck_secondary, u, w, cs) && cs.satisfied() && cs.layout() == pp.secondary_layout(id)
        }
    }

    /// A step over the first curve: the last instance is folded, and a predicate takes the state to the next one.
    #[verifier::rlimit(60)]
    #[verifier::spinoff_prover]
    fn next_primary(
        &self,
        pp: &PublicParams<E1, E2, PS>,
        predicates: &PS,
        id: usize,
        nifs: NIFS<E2>,
        r_next: &E1::Scalar,
    ) -> (r: Result<(Vec<E1::Scalar>, R1CSInstance<E1>, R1CSWitness<E1>), NovaError>)
        requires
            pp.wf(),
            pp.serves(*predicates),
            self.wf(pp),
            id < predicates.count(),
            nifs@ == self.folds(pp).proof_,
        ensures
            predicates.total() && predicates.publishes(id as int) == 0 ==> r is Ok,
            match r {
                Ok((z, u, w)) => self.leads_to(pp, *predicates, id as int, vals(z@), u@, w@, r_next.val()),
                Err(NovaError::SynthesisError { reason }) => !predicates.total() && predicates.fails(
                    id as int,
                    vals(self.zi@),
                    reason,
                ),
                Err(e) => e == NovaError::InvalidInputLength && predicates.publishes(id as int) != 0,
            },
    {
        let structure = &pp.structure_secondary;
        let ghost s = structure@;
        let ghost p = E2::Base::modulus();
        let digest: E2::Scalar = E1::scalar_as_base(&pp.digest);
        let inputs: KiloNovaAugmentedCircuitInputs<E2> = KiloNovaAugmentedCircuitInputs::new(
            digest,
            E2::Base::from_u64(self.i as u64),
            copy_vec(&self.z0),
            Some(copy_vec(&self.zi)),
            self.trace_primary,
            E2::Base::from_u64(id as u64),
            E2::Base::from_u64(0),
            Some(self.r_U_secondary.copied()),
            Some(copy_vec(&self.r_W_secondary.W_proj)),
            Some(self.ri_primary),
            *r_next,
            Some(self.l_u_secondary.copied()),
            Some(structure.project_witness(&self.l_w_secondary.W)),
            Some(nifs),
        );
        assert(vals(inputs.u->0.X@).len() == inputs.u->0.X@.len());
        let circuit: KiloNovaAugmentedCircuit<'_, E2, PS> = KiloNovaAugmentedCircuit::new(
            true,
            Some(inputs),
            predicates,
            id,
            0,
            &pp.ro_consts_secondary,
            structure,
        );
        proof {
            let v = circuit.reads();
            E2::Base::modulus_bounds();
            pp.digest.val_bounds();
            lemma_short::<E1::Base>(pp.digest.val());
            lemma_short::<E2::Base>(pp.digest.val());
            assert(v.z0 =~= vals(self.z0@));
            assert(v.zi =~= vals(self.zi@));
            lemma_given_instance(s, self.r_U_secondary@);
            vstd::arithmetic::div_mod::lemma_small_mod((self.i + 1) as nat, p as nat);
            if self.hashes_match(pp, self.i as int, vals(self.z0@)) && self.last_rows_hold(pp) {
                lemma_honest_step::<E2>(
                    circuit.rules(),
                    v,
                    pp.ck_secondary,
                    digest.val(),
                    self.r_U_secondary@,
                    self.r_W_secondary@,
                    self.l_u_secondary@,
                    self.l_w_secondary@,
                );
            }
        }
        run_step::<E2, E1, PS>(&circuit, &pp.structure_primary.index.predicates[id].shape, &pp.ck_primary)
    }

    /// A step over the second curve: an instance of the first curve is folded.
    #[verifier::rlimit(60)]
    #[verifier::spinoff_prover]
    fn next_secondary(
        &self,
        pp: &PublicParams<E1, E2, PS>,
        u1: &R1CSInstance<E1>,
        w1: &R1CSWitness<E1>,
        id: usize,
        nifs: NIFS<E1>,
        r_next: &E2::Scalar,
    ) -> (r: (R1CSInstance<E2>, R1CSWitness<E2>))
        requires
            pp.wf(),
            self.wf(pp),
            id < pp.structure_primary@.len(),
            opens::<E1>(pp.structure_primary.index.predicates@[id as int].shape@, pp.ck_primary, u1@, w1@),
            nifs@ == self.folds_primary(pp, id as int, u1@, w1@).proof_,
        ensures
            self.answers(pp, id as int, u1@, w1@, r.0@, r.1@, r_next.val()),
    {
        let structure = &pp.structure_primary;
        let ghost s = structure@;
        let ghost p = E1::Base::modulus();
        let mut z0: Vec<E1::Base> = Vec::new();
        z0.push(E1::Base::from_u64(0));
        let mut zi: Vec<E1::Base> = Vec::new();
        zi.push(E1::Base::from_u64(0));
        let inputs: KiloNovaAugmentedCircuitInputs<E1> = KiloNovaAugmentedCircuitInputs::new(
            pp.digest,
            E1::Base::from_u64(self.i as u64),
            z0,
            Some(zi),
            self.trace_secondary,
            E1::Base::from_u64(0),
            E1::Base::from_u64(id as u64),
            Some(self.r_U_primary.copied()),
            Some(copy_vec(&self.r_W_primary.W_proj)),
            Some(self.ri_secondary),
            *r_next,
            Some(u1.copied()),
            Some(structure.project_witness(&w1.W)),
            Some(nifs),
        );
        assert(vals(inputs.u->0.X@).len() == inputs.u->0.X@.len());
        let tc = TrivialPredicateSet::default();
        let circuit: KiloNovaAugmentedCircuit<'_, E1, TrivialPredicateSet> = KiloNovaAugmentedCircuit::new(
            false,
            Some(inputs),
            &tc,
            0,
            id,
            &pp.ro_consts_primary,
            structure,
        );
        let ghost good = u1@.X[0] % p == self.output_hashes(pp, self.i as int, vals(self.z0@)).1 && rows_satisfied(
            s,
            id as int,
            incoming_z(s, u1@, w1@, p),
            p,
        );
        proof {
            let v = circuit.reads();
            E1::Base::modulus_bounds();
            assert(v.z0 =~= seq![0int]);
            assert(v.zi =~= seq![0int]);
            lemma_given_instance(s, self.r_U_primary@);
            vstd::arithmetic::div_mod::lemma_small_mod((self.i + 1) as nat, p as nat);
            if good {
                assert(circuit.rules() == pp.secondary_rules(id as int));
                lemma_honest_step::<E1>(
                    circuit.rules(),
                    v,
                    pp.ck_primary,
                    pp.digest.val(),
                    self.r_U_primary@,
                    self.r_W_primary@,
                    u1@,
                    w1@,
                );
                assert(circuit.satisfiable());
            }
        }
        match run_step::<E1, E2, TrivialPredicateSet>(
            &circuit,
            &pp.structure_secondary.index.predicates[0].shape,
            &pp.ck_secondary,
        ) {
            Ok((z, u, w)) => {
                let ghost shape = pp.structure_secondary.index.predicates@[0].shape@;
                let ghost cs = choose|cs: CsView| #[trigger]
                    ran::<E1, E2, TrivialPredicateSet>(circuit, cs, shape, pp.ck_secondary, vals(z@), u@, w@);
                proof {
                    if good {
                        assert(vals(z@) =~= seq![0int]);
                        assert(cs.layout() == pp.secondary_layout(id as int));
                        assert(cs.satisfied());
                    }
                }
                assert(made_by::<E2>(shape, pp.ck_secondary, u@, w@, cs));
                (u, w)
            },
            Err(_) => vstd::pervasive::unreached(),
        }
    }
}

/// The chain of an honest prover goes on.
#[verifier::rlimit(60)]
#[verifier::spinoff_prover]
proof fn lemma_followed<E1, E2, PS>(
    pp: PublicParams<E1, E2, PS>,
    predicates: PS,
    id: int,
    before: RecursiveSNARK<E1, E2, PS>,
    after: RecursiveSNARK<E1, E2, PS>,
    u: InstanceView,
    w: WitnessView,
) where
    E1: CircuitEngine + CurveGroup<Base = <E2 as CurveGroup>::Scalar>,
    E2: CircuitEngine + CurveGroup<Base = <E1 as CurveGroup>::Scalar>,
    PS: PredicateSet<<E1 as CurveGroup>::Scalar>,

    requires
        pp.wf(),
        before.wf(&pp),
        before.leads_to(&pp, predicates, id, vals(after.zi@), u, w, after.ri_primary.val()),
        before.answers(
            &pp,
            id,
            u,
            w,
            after.l_u_secondary@,
            after.l_w_secondary@,
            after.ri_secondary.val(),
        ),
        after.i == before.i + 1,
        after.z0 == before.z0,
        after.r_U_secondary@ == before.folds(&pp).instance,
        after.r_W_secondary@ == before.folds(&pp).witness,
        after.r_U_primary@ == before.folds_primary(&pp, id, u, w).instance,
        after.r_W_primary@ == before.folds_primary(&pp, id, u, w).witness,
        after.trace_primary.val() == trace_step(before.trace_primary.val(), id, E1::Scalar::modulus()),
        after.trace_secondary.val() == trace_step(before.trace_secondary.val(), id, E2::Scalar::modulus()),
    ensures
        before.followed_by(&pp, predicates, id, after, u, w),
{
    let p = E1::Base::modulus();
    let matches = before.hashes_match(&pp, before.i as int, vals(before.z0@));
    if matches && before.last_rows_hold(&pp) && predicates.solves(id, vals(before.zi@)) && rows_satisfied(
        pp.structure_primary@,
        id,
        incoming_z(pp.structure_primary@, u, w, p),
        p,
    ) {
        // The second hash is short, and so the same residue in both fields.
        let h2 = before.output_hashes(&pp, before.i as int, vals(before.z0@)).1;
        lemma_step_hash_short::<E1>(
            pp.digest.val() % E1::Base::modulus(),
            before.i as int,
            seq![0],
            seq![0],
            before.r_U_primary@,
            before.ri_secondary.val(),
            before.trace_secondary.val(),
        );
        lemma_short::<E1::Base>(h2);
        lemma_short::<E2::Base>(h2);
        assert(u.X[0] == h2);
        // So is the first one of the next step.
        lemma_step_hash_short::<E2>(
            pp.digest.val(),
            before.i + 1,
            vals(before.z0@),
            vals(after.zi@),
            before.folds(&pp).instance,
            after.ri_primary.val(),
            trace_step(before.trace_primary.val(), id, E2::Base::modulus()),
        );
        lemma_short::<E1::Base>(u.X[1]);
        lemma_short::<E2::Base>(u.X[1]);
        assert(after.hashes_match(&pp, after.i as int, vals(after.z0@)));
        let cs = choose|cs: CsView| #[trigger]
            made_by::<E2>(
                pp.structure_secondary.index.predicates@[0].shape@,
                pp.ck_secondary,
                after.l_u_secondary@,
                after.l_w_secondary@,
                cs,
            ) && cs.satisfied() && cs.layout() == pp.secondary_layout(id);
        assert(after.last_made_by(&pp, cs));
    }
}

impl<E1, E2, PS> RecursiveSNARK<E1, E2, PS> where
    E1: CircuitEngine + CurveGroup<Base = <E2 as CurveGroup>::Scalar>,
    E2: CircuitEngine + CurveGroup<Base = <E1 as CurveGroup>::Scalar>,
    PS: PredicateSet<<E1 as CurveGroup>::Scalar>,
 {
    /// Whether this proof is one step behind another one, in which an instance of the first curve was folded: the
    /// chain of an honest prover goes on, where the vectors folded satisfy the rows of their predicates in the base
    /// field.
    pub open spec fn followed_by(
        &self,
        pp: &PublicParams<E1, E2, PS>,
        predicates: PS,
        id: int,
        next: Self,
        u: InstanceView,
        w: WitnessView,
    ) -> bool {
        let p = E1::Base::modulus();
        &&& opens::<E1>(pp.structure_primary.index.predicates@[id].shape@, pp.ck_primary, u, w)
        &&& next.r_U_secondary@ == self.folds(pp).instance
        &&& next.r_W_secondary@ == self.folds(pp).witness
        &&& next.r_U_primary@ == self.folds_primary(pp, id, u, w).instance
        &&& next.r_W_primary@ == self.folds_primary(pp, id, u, w).witness
        &&& next.i == self.i + 1
        &&& next.z0 == self.z0
        &&& next.trace_primary.val() == trace_step(self.trace_primary.val(), id, E1::Scalar::modulus())
        &&& next.trace_secondary.val() == trace_step(self.trace_secondary.val(), id, E2::Scalar::modulus())
        &&& predicates.publishes(id) == 0
        &&& predicates.yields(id, vals(self.zi@), vals(next.zi@))
        &&& self.hashes_match(pp, self.i as int, vals(self.z0@)) && self.last_rows_hold(pp) && predicates.solves(id, vals(self.zi@)) && rows_satisfied(
            pp.structure_primary@,
            id,
            incoming_z(pp.structure_primary@, u, w, p),
            p,
        ) ==> {
            &&& next.honest(pp, id)
            &&& predicates.allows(id, vals(self.zi@), vals(next.zi@))
        }
    }

    /// Adds a step to the proof: a predicate takes the state to the next one.
    #[verifier::rlimit(60)]
    #[verifier::spinoff_prover]
    pub fn prove_step(&mut self, pp: &PublicParams<E1, E2, PS>, predicates: &PS, predicate_id: usize) -> (r: Result<
        (),
        NovaError,
    >)
        requires
            pp.wf(),
            pp.serves(*predicates),
            old(self).wf(pp),
            old(self).i < usize::MAX,
        ensures
            final(self).wf(pp),
            predicate_id >= predicates.count() ==> r == Err::<(), NovaError>(NovaError::InvalidInputLength),
            predicate_id < predicates.count() && predicates.total() && predicates.publishes(predicate_id as int) == 0
                ==> r is Ok,
            match r {
                Ok(_) => {
                    &&& predicate_id < predicates.count()
                    &&& final(self).i == old(self).i + 1
                    &&& final(self).z0 == old(self).z0
                    &&& forall|trace: Seq<usize>| #[trigger]
                        old(self).traced(trace) ==> final(self).traced(trace.push(predicate_id))
                    &&& exists|u: InstanceView, w: WitnessView| #[trigger]
                        old(self).followed_by(pp, *predicates, predicate_id as int, *final(self), u, w)
                    &&& predicates.publishes(predicate_id as int) == 0
                    &&& predicates.yields(predicate_id as int, vals(old(self).zi@), vals(final(self).zi@))
                    &&& ({
                        let t = old(self).trace_primary.val() + predicate_id + 1;
                        final(self).trace_primary.val() == (t * t + predicate_id + 1) % E1::Scalar::modulus()
                    })
                    &&& ({
                        let t = old(self).trace_secondary.val() + predicate_id + 1;
                        final(self).trace_secondary.val() == (t * t + predicate_id + 1) % E2::Scalar::modulus()
                    })
                    &&& ({
                        let f = proved::<E2>(
                            pp.structure_secondary@,
                            pp.digest.val() % E2::Scalar::modulus(),
                            0,
                            old(self).r_U_secondary@,
                            old(self).r_W_secondary@,
                            old(self).l_u_secondary@,
                            old(self).l_w_secondary@,
                        );
                        final(self).r_U_secondary@ == f.instance && final(self).r_W_secondary@ == f.witness
                    })
                    &&& exists|u: InstanceView, w: WitnessView| #[trigger]
                        opens::<E1>(
                            pp.structure_primary.index.predicates@[predicate_id as int].shape@,
                            pp.ck_primary,
                            u,
                            w,
                        ) && ({
                            let f = proved::<E1>(
                                pp.structure_primary@,
                                pp.digest.val(),
                                predicate_id as int,
                                old(self).r_U_primary@,
                                old(self).r_W_primary@,
                                u,
                                w,
                            );
                            final(self).r_U_primary@ == f.instance && final(self).r_W_primary@ == f.witness
                        })
                },
                Err(e) => {
                    &&& *final(self) == *old(self)
                    &&& match e {
                        NovaError::SynthesisError { reason } => predicate_id < predicates.count() && !predicates.total()
                            && predicates.fails(predicate_id as int, vals(old(self).zi@), reason),
                        _ => e == NovaError::InvalidInputLength && (predicate_id >= predicates.count()
                            || predicates.publishes(predicate_id as int) != 0),
                    }
                },
            },
    {
        if predicate_id >= predicates.num_predicates() {
            return Err(NovaError::InvalidInputLength);
        }
        let ghost id = predicate_id as int;
        let ghost s1 = pp.structure_primary@;
        let ghost s2 = pp.structure_secondary@;
        let ghost before = *self;
        let digest: E2::Scalar = E1::scalar_as_base(&pp.digest);
        proof {
            assert(vals(self.l_u_secondary.X@).len() == self.l_u_secondary.X@.len());
            assert(vals(self.l_w_secondary.W@).len() == self.l_w_secondary.W@.len());
            assert(vals(self.r_U_secondary.r_x@).len() == self.r_U_secondary.r_x@.len());
            assert(vals(self.r_U_secondary.r_y@).len() == self.r_U_secondary.r_y@.len());
            assert(vals(self.r_U_secondary.lambda@).len() == self.r_U_secondary.lambda@.len());
            assert(vals(self.r_W_secondary.W@).len() == self.r_W_secondary.W@.len());
            assert(vals(self.r_U_primary.r_x@).len() == self.r_U_primary.r_x@.len());
            assert(vals(self.r_U_primary.r_y@).len() == self.r_U_primary.r_y@.len());
            assert(vals(self.r_U_primary.lambda@).len() == self.r_U_primary.lambda@.len());
            assert(vals(self.r_W_primary.W@).len() == self.r_W_primary.W@.len());
            let shape0 = pp.structure_secondary.index.predicates@[0].shape@;
            assert(shape0.num_vars <= s2.num_vars_max);
            fold_stays_satisfied::<E2>(
                s2,
                pp.ck_secondary,
                digest.val(),
                0,
                self.r_U_secondary@,
                self.r_W_secondary@,
                self.l_u_secondary@,
                self.l_w_secondary@,
            );
        }
        let (nifs_secondary, (r_U_secondary, r_W_secondary)) = match NIFS::<E2>::prove(
            &pp.ck_secondary,
            &pp.ro_consts_secondary,
            &digest,
            &pp.structure_secondary,
            0,
            &self.r_U_secondary,
            &self.r_W_secondary,
            &self.l_u_secondary,
            &self.l_w_secondary,
        ) {
            Ok(r) => r,
            Err(_) => vstd::pervasive::unreached(),
        };
        let r_next_primary = E1::random_scalar();
        let (zi, l_u_primary, l_w_primary) = match self.next_primary(
            pp,
            predicates,
            predicate_id,
            nifs_secondary,
            &r_next_primary,
        ) {
            Ok(r) => r,
            Err(e) => {
                return Err(e);
            },
        };
        let ghost (u, w) = (l_u_primary@, l_w_primary@);
        proof {
            assert(vals(l_u_primary.X@).len() == l_u_primary.X@.len());
            assert(vals(l_w_primary.W@).len() == l_w_primary.W@.len());
            let shape = pp.structure_primary.index.predicates@[id].shape@;
            assert(shape.num_vars <= s1.num_vars_max);
            fold_stays_satisfied::<E1>(
                s1,
                pp.ck_primary,
                pp.digest.val(),
                id,
                self.r_U_primary@,
                self.r_W_primary@,
                u,
                w,
            );
        }
        let (nifs_primary, (r_U_primary, r_W_primary)) = match NIFS::<E1>::prove(
            &pp.ck_primary,
            &pp.ro_consts_primary,
            &pp.digest,
            &pp.structure_primary,
            predicate_id,
            &self.r_U_primary,
            &self.r_W_primary,
            &l_u_primary,
            &l_w_primary,
        ) {
            Ok(r) => r,
            Err(_) => vstd::pervasive::unreached(),
        };
        let r_next_secondary = E2::random_scalar();
        let (l_u_secondary, l_w_secondary) = self.next_secondary(
            pp,
            &l_u_primary,
            &l_w_primary,
            predicate_id,
            nifs_primary,
            &r_next_secondary,
        );
        self.zi = zi;
        self.l_u_secondary = l_u_secondary;
        self.l_w_secondary = l_w_secondary;
        self.r_U_primary = r_U_primary;
        self.r_W_primary = r_W_primary;
        self.r_U_secondary = r_U_secondary;
        self.r_W_secondary = r_W_secondary;
        self.ri_primary = r_next_primary;
        self.ri_secondary = r_next_secondary;
        self.i = self.i + 1;
        self.trace_primary = update_trace_digest(&self.trace_primary, predicate_id);
        self.trace_secondary = update_trace_digest(&self.trace_secondary, predicate_id);
        proof {
            let after = *self;
            assert forall|trace: Seq<usize>| #[trigger] before.traced(trace) implies after.traced(
                trace.push(predicate_id),
            ) by {
                assert(trace.push(predicate_id).drop_last() =~= trace);
            }
            lemma_followed::<E1, E2, PS>(*pp, *predicates, id, before, after, u, w);
        }
        Ok(())
    }
}

/// A step that an honest prover adds to a chain, whose vectors folded satisfy the rows of their predicates in the base
/// field, leads to a proof that is accepted.
#[verifier::rlimit(60)]
#[verifier::spinoff_prover]
pub proof fn honest_step_is_accepted<E1, E2, PS>(
    pp: PublicParams<E1, E2, PS>,
    predicates: PS,
    before: RecursiveSNARK<E1, E2, PS>,
    after: RecursiveSNARK<E1, E2, PS>,
    id: usize,
    u: InstanceView,
    w: WitnessView,
    trace: Seq<usize>,
) where
    E1: CircuitEngine + CurveGroup<Base = <E2 as CurveGroup>::Scalar>,
    E2: CircuitEngine + CurveGroup<Base = <E1 as CurveGroup>::Scalar>,
    PS: PredicateSet<<E1 as CurveGroup>::Scalar>,

    requires
        pp.wf(),
        pp.fits(predicates),
        id < pp.structure_primary@.len(),
        before.wf(&pp),
        after.wf(&pp),
        before.followed_by(&pp, predicates, id as int, after, u, w),
        before.verdict(&pp, before.i as int, vals(before.z0@), trace) is Ok,
        before.last_rows_hold(&pp),
        predicates.solves(id as int, vals(before.zi@)),
        rows_satisfied(
            pp.structure_primary@,
            id as int,
            incoming_z(pp.structure_primary@, u, w, E1::Base::modulus()),
            E1::Base::modulus(),
        ),
    ensures
        after.verdict(&pp, before.i + 1, vals(before.z0@), trace.push(id)) is Ok,
{
    let longer = trace.push(id);
    assert(longer.drop_last() =~= trace);
    assert(after.traced(longer)) by {
        assert(before.traced(trace));
    }
    assert(before.hashes_match(&pp, before.i as int, vals(before.z0@)));
    assert(after.honest(&pp, id as int));
    assert forall|k: int| 0 <= k < longer.len() implies #[trigger] longer[k] < pp.structure_primary@.len() by {
        if k < trace.len() {
            assert(longer[k] == trace[k]);
        }
    }
    honest_proof_is_accepted::<E1, E2, PS>(pp, predicates, after, id as int, longer);
}

} // verus!
