//! One step of the circuit over Pallas, on small predicates and with folded instances that carry the coefficients of
//! the index, as a relaxed instance over Vesta with its witness.
use super::augmented::{
    advanced, step_hash, step_output, step_state, stepped, CircuitView, KiloNovaAugmentedCircuit,
    KiloNovaAugmentedCircuitInputs, StepView,
};
use super::circuit::{given_instance, honest_fold_satisfies_circuit};
use super::nifs::{absorbed_inputs, first_instance_is_satisfied, fold_stays_satisfied, proved, running, NIFS};
use super::relation::{
    first_instance, first_witness, folded_instance_elements, folded_sat, reconstruction_is_commitment, reduced,
    FoldedInstance, FoldedInstanceView, FoldedWitness, GlobalStructure,
};
use crate::augmented::{TrivialPredicateSet, NUM_HASH_BITS};
use crate::completeness::lemma_transcript_points;
use crate::cs::{step, ConstraintSystem};
use crate::engine::{vals, Commitment, CurveEngine, RandomOracle, MAX_ABSORBED};
use crate::errors::SynthesisError;
use crate::field::FieldElement;
use crate::gadgets::AllocatedNum;
use crate::instance_circuit::{given_nifs, lemma_given_nifs};
use crate::nifs::hash_of;
use crate::pasta::{Fp, Fq, Pallas, PallasOracle, Vesta, VestaKey};
use crate::r1cs::{copy_triples, InstanceView, R1CSInstance, R1CSShape, WitnessView};
use crate::relation::{
    absorb_all, copy_vec, incoming_z, index_commitments, projected, resized, shape_views, views3, StructureView,
};
use crate::relaxed::{relaxed_sat, RelaxedR1CSInstance, RelaxedR1CSWitness};
use crate::single_step::{
    lemma_small_hash, lemma_tiny_rows, lemma_tiny_shapes, relaxed_instance_of, tiny_nonuniform_base_data, tiny_shape,
    tiny_shapes, MAX_PREDICATES,
};
use crate::proof_circuit::nvals;
use vstd::arithmetic::power2::pow2;
use vstd::prelude::*;

verus! {

/// The hash that a step hands on to the next one.
pub fn compute_augmented_input_hash<E: CurveEngine>(
    ro_consts: &<E::RO as RandomOracle<E::Base>>::Constants,
    pp_digest: &E::Scalar,
    i: &E::Base,
    z0: &Vec<E::Base>,
    zi: &Vec<E::Base>,
    U: &FoldedInstance<E>,
    ri: &E::Base,
    trace_digest_in: &E::Base,
) -> (r: E::Base)
    requires
        z0@.len() + zi@.len() + folded_instance_elements::<E>(U@).len() + 4 <= MAX_ABSORBED,
    ensures
        r.val() == step_hash::<E>(
            pp_digest.val() % E::Base::modulus(),
            i.val(),
            vals(z0@),
            vals(zi@),
            U@,
            ri.val(),
            trace_digest_in.val(),
        ),
        r.val() == hash_of::<E>()(
            seq![pp_digest.val() % E::Base::modulus(), i.val()] + vals(z0@) + vals(zi@) + folded_instance_elements::<E>(U@) + seq![
                ri.val(),
                trace_digest_in.val(),
            ],
        ) % (pow2(250) as int),
{
    let mut ro = E::RO::new(ro_consts);
    let digest = E::scalar_as_base(pp_digest);
    ro.absorb(&digest);
    ro.absorb(i);
    absorb_all(&mut ro, z0);
    absorb_all(&mut ro, zi);
    U.absorb_in_ro(&mut ro);
    ro.absorb(ri);
    ro.absorb(trace_digest_in);
    assert(ro.state() =~= seq![digest.val(), i.val()] + vals(z0@) + vals(zi@) + folded_instance_elements::<E>(U@) + seq![
        ri.val(),
        trace_digest_in.val(),
    ]);
    ro.squeeze(NUM_HASH_BITS)
}

/// What the circuit of one step is run on.
pub struct SpanSecondaryCase {
    pub structure: GlobalStructure<Pallas>,
    pub pp_digest: Fq,
    pub i: Fp,
    pub z0: Vec<Fp>,
    pub zi: Vec<Fp>,
    pub trace_digest_in: Fp,
    pub local_predicate_id: Fp,
    pub incoming_predicate_id: usize,
    pub incoming_predicate_id_runtime: Fp,
    pub U: FoldedInstance<Pallas>,
    pub W_proj: Vec<Fp>,
    pub ri: Fp,
    pub r_next: Fp,
    pub u: R1CSInstance<Pallas>,
    pub w_proj: Vec<Fp>,
    pub nifs: NIFS<Pallas>,
    pub folded_u: FoldedInstance<Pallas>,
}

impl SpanSecondaryCase {
    /// What the circuit checks against.
    pub open spec fn rules(&self) -> CircuitView {
        CircuitView {
            is_primary_circuit: false,
            s: self.structure@,
            step_predicate_id: 0,
            incoming_predicate_id: self.incoming_predicate_id as int,
        }
    }

    /// What the circuit reads.
    pub open spec fn reads(&self) -> StepView {
        let s = self.structure@;
        StepView {
            pp_digest: self.pp_digest.val() % Fp::modulus(),
            i: self.i.val(),
            z0: resized(vals(self.z0@), 1),
            zi: resized(vals(self.zi@), 1),
            trace_digest_in: self.trace_digest_in.val(),
            local_predicate_id: self.local_predicate_id.val(),
            incoming_predicate_id: self.incoming_predicate_id_runtime.val(),
            U: given_instance(s, Some(self.U@)),
            ri: self.ri.val(),
            r_next: self.r_next.val(),
            u: InstanceView {
                comm_W: self.u@.comm_W,
                X: seq![self.u@.X[0] % Fp::modulus(), self.u@.X[1] % Fp::modulus()],
            },
            w_eval: if self.w_proj@.len() > 0 {
                self.w_proj@[0].val()
            } else {
                0
            },
            nifs: given_nifs(s, Some(self.nifs@)),
        }
    }

    /// Whether the circuit can be synthesized on the case.
    pub open spec fn wf(&self) -> bool {
        &&& self.structure.wf()
        &&& self.structure@.num_io == 2
        &&& self.incoming_predicate_id < self.structure@.len()
        &&& self.structure@.len() <= 0x2000_0000
        &&& self.z0@.len() >= 1
        &&& self.zi@.len() >= 1
        &&& self.u.X@.len() >= 2
    }

    /// Whether the case is the one that is built for so many predicates: the first predicate has been run on a witness of
    /// zeros, and an instance of the last one with a witness of zeros is folded into it.
    pub open spec fn built(&self, n: int) -> bool {
        let s = self.structure@;
        let p = Fp::modulus();
        let w1 = WitnessView { W: seq![0, 0], r_W: 0 };
        let w2 = WitnessView { W: seq![0, 0, 0, 0], r_W: 0 };
        let f = proved::<Pallas>(s, 42, n - 1, self.U@, first_witness(s, w1, p), self.u@, w2);
        &&& self.wf()
        &&& tiny_shapes(n).describes::<Pallas>(s)
        &&& s.len() == n
        &&& self.pp_digest.val() == 42
        &&& self.i.val() == 1
        &&& vals(self.z0@) == seq![0int]
        &&& vals(self.zi@) == seq![0int]
        &&& self.trace_digest_in.val() == 3
        &&& self.local_predicate_id.val() == 0
        &&& self.incoming_predicate_id == n - 1
        &&& self.incoming_predicate_id_runtime.val() == n - 1
        &&& self.ri.val() == 7
        &&& self.r_next.val() == 11
        &&& self.U@ == first_instance(s, 0, InstanceView { comm_W: self.U@.comm_W, X: seq![0, 0] }, w1, p)
        &&& self.u@.X == seq![
            step_hash::<Pallas>(42int % p, 1, seq![0], seq![0], self.U@, 7, 3),
            0,
        ]
        &&& vals(self.W_proj@) == projected(w1.W, s.num_vars_max, p)
        &&& vals(self.w_proj@) == projected(w2.W, s.num_vars_max, p)
        &&& self.nifs@ == f.proof_
        &&& self.folded_u@ == f.instance
        &&& stepped::<Pallas>(self.rules(), self.reads()) == Some(self.folded_u@)
        &&& self.structure.index.predicates@.len() == n
        &&& forall|i: int| 0 <= i < n ==> (#[trigger] self.structure.index.predicates@[i]).shape@ == tiny_shape(i)
        &&& self.folded_u@.lambda.len() == n
    }
}

/// Adds the constraints of the step to a system, and returns the next state.
pub fn synthesize_secondary_span(case: &SpanSecondaryCase, cs: &mut ConstraintSystem<Fp>) -> (r: Result<
    Vec<AllocatedNum<Fp>>,
    SynthesisError,
>)
    requires
        old(cs)@.wf(),
        case.wf(),
    ensures
        step(old(cs)@, final(cs)@),
        final(cs).witness == old(cs).witness,
        r is Ok,
        final(cs)@.inputs.len() == old(cs)@.inputs.len() + 2,
        final(cs)@.constraints.len() > old(cs)@.constraints.len(),
        r matches Ok(out) ==> {
            let n = old(cs)@.inputs.len() as int;
            &&& nvals(out@) == step_state(case.reads())
            &&& final(cs)@.inputs[n] == case.reads().u.X[1]
            &&& final(cs)@.inputs[n + 1] == step_output::<Pallas>(
                case.rules(),
                case.reads(),
                advanced::<Pallas>(case.rules(), case.reads()),
                step_state(case.reads()),
            )
        },
        final(cs)@.satisfied() == (old(cs)@.satisfied() && stepped::<Pallas>(case.rules(), case.reads()) is Some),
{
    let predicate_set = TrivialPredicateSet::default();
    let inputs = KiloNovaAugmentedCircuitInputs::new(
        case.pp_digest,
        case.i,
        copy_vec(&case.z0),
        Some(copy_vec(&case.zi)),
        case.trace_digest_in,
        case.local_predicate_id,
        case.incoming_predicate_id_runtime,
        Some(case.U.copied()),
        Some(copy_vec(&case.W_proj)),
        Some(case.ri),
        case.r_next,
        Some(case.u.copied()),
        Some(copy_vec(&case.w_proj)),
        Some(NIFS { rounds: case.nifs.rounds.copied() }),
    );
    let ro_consts = PallasOracle::constants();
    proof {
        assert(vals(inputs.z0@).len() == vals(case.z0@).len());
        assert(vals(inputs.zi->0@).len() == vals(case.zi@).len());
        assert(vals(inputs.u->0.X@).len() == vals(case.u.X@).len());
    }
    let circuit: KiloNovaAugmentedCircuit<'_, Pallas, TrivialPredicateSet> = KiloNovaAugmentedCircuit::new(
        false,
        Some(inputs),
        &predicate_set,
        0,
        case.incoming_predicate_id,
        &ro_consts,
        &case.structure,
    );
    assert(circuit.reads() == case.reads());
    circuit.synthesize(cs)
}

/// A case that the circuit of one step accepts, with so many predicates.
#[verifier::rlimit(60)]
pub fn build_span_secondary_case_with_predicates(num_predicates: usize) -> (r: SpanSecondaryCase)
    requires
        2 <= num_predicates <= MAX_PREDICATES,
    ensures
        r.built(num_predicates as int),
        r.pp_digest.val() == 42 && r.i.val() == 1 && r.trace_digest_in.val() == 3 && r.ri.val() == 7 && r.r_next.val() == 11,
        vals(r.z0@) == seq![0int] && vals(r.zi@) == seq![0int],
        r.structure@.len() == num_predicates,
        r.local_predicate_id.val() == 0,
        r.incoming_predicate_id == num_predicates - 1 && r.incoming_predicate_id_runtime.val() == num_predicates - 1,
{
    let ghost n = num_predicates as int;
    let ghost p = Fp::modulus();
    let ghost q = Fq::modulus();
    let base = tiny_nonuniform_base_data::<Pallas>(num_predicates);
    let incoming_predicate_id: usize = num_predicates - 1;
    proof {
        lemma_tiny_shapes(n);
    }
    let structure = GlobalStructure::new(&base.shapes);
    let ghost s = structure@;
    proof {
        assert forall|i: int| 0 <= i < n implies (#[trigger] structure.index.predicates@[i]).shape@ == tiny_shape(i) by {
            assert(tiny_shapes(n).padded(i) == tiny_shape(i));
        }
    }
    let running_w = FoldedWitness::from_r1cs_witness(&structure, &base.running_witness);
    let running_u = FoldedInstance::from_r1cs_instance_witness(
        &structure,
        0,
        &base.running_instance,
        &base.running_witness,
    );
    proof {
        first_instance_is_satisfied::<Pallas>(s, base.ck, 0, base.running_instance@, base.running_witness@);
        assert(folded_sat::<Pallas>(s, base.ck, running_u@, running_w@) is Ok);
        let u = running_u@;
        assert(u.lambda.len() == n && u.X.len() == 2 && u.r_x.len() == 2 && u.r_y.len() == 3 && u.v.len() == 4);
        assert(vals(base.z0@).len() == 1 && vals(base.zi@).len() == 1);
    }
    let ro_consts = PallasOracle::constants();
    let input_hash = compute_augmented_input_hash(
        &ro_consts,
        &base.pp_digest,
        &base.i,
        &base.z0,
        &base.zi,
        &running_u,
        &base.ri,
        &base.trace_digest_in,
    );
    let mut X: Vec<Fq> = Vec::new();
    X.push(Pallas::base_as_scalar(&input_hash));
    X.push(base.incoming_instance.X[1]);
    let incoming_u = R1CSInstance { comm_W: base.incoming_instance.comm_W.copied(), X };
    let ghost zn = incoming_z(s, incoming_u@, base.incoming_witness@, p);
    proof {
        Fp::modulus_bounds();
        lemma_tiny_rows::<Pallas>(n, s, n - 1, zn, p);
        fold_stays_satisfied::<Pallas>(
            s,
            base.ck,
            base.pp_digest.val(),
            n - 1,
            running_u@,
            running_w@,
            incoming_u@,
            base.incoming_witness@,
        );
        assert(vals(base.incoming_witness.W@).len() == 4);
        assert(running_w@.W.len() == 4);
    }
    let (nifs, (folded_u, _folded_w)) = match NIFS::prove(
        &base.ck,
        &ro_consts,
        &base.pp_digest,
        &structure,
        incoming_predicate_id,
        &running_u,
        &running_w,
        &incoming_u,
        &base.incoming_witness,
    ) {
        Ok(r) => r,
        Err(_) => vstd::pervasive::unreached(),
    };
    let w_proj = structure.project_witness(&base.incoming_witness.W);
    let r = SpanSecondaryCase {
        structure,
        pp_digest: base.pp_digest,
        i: base.i,
        z0: base.z0,
        zi: base.zi,
        trace_digest_in: base.trace_digest_in,
        local_predicate_id: Fp::from_u64(0),
        incoming_predicate_id,
        incoming_predicate_id_runtime: Fp::from_u64(incoming_predicate_id as u64),
        U: running_u,
        W_proj: running_w.W_proj,
        ri: base.ri,
        r_next: base.r_next,
        u: incoming_u,
        w_proj,
        nifs,
        folded_u,
    };
    proof {
        let f = proved::<Pallas>(
            s,
            base.pp_digest.val(),
            n - 1,
            running_u@,
            running_w@,
            incoming_u@,
            base.incoming_witness@,
        );
        honest_fold_satisfies_circuit::<Pallas>(
            s,
            base.ck,
            base.pp_digest.val(),
            n - 1,
            running_u@,
            running_w@,
            incoming_u@,
            base.incoming_witness@,
        );
        let v = r.reads();
        let h = input_hash.val();
        lemma_small_hash(
            hash_of::<Pallas>()(
                seq![42int % p, 1int] + seq![0int] + seq![0int] + folded_instance_elements::<Pallas>(running_u@) + seq![
                    7int,
                    3int,
                ],
            ),
        );
        assert(incoming_u@.X[0] == h);
        assert(v.z0 =~= seq![0int]);
        assert(v.zi =~= seq![0int]);
        lemma_given_instance(s, running_u@);
        assert(v.U == running_u@);
        lemma_transcript_points::<Pallas>(
            s,
            absorbed_inputs::<Pallas>(base.pp_digest.val(), n - 1, incoming_u@),
            n - 1,
            running(running_u@, running_w@),
            zn,
        );
        lemma_given_nifs(s, f.proof_);
        assert(v.nifs == f.proof_);
        assert(v.u.X =~= projected(incoming_u@.X, s.num_io, p));
        assert(r.u@.X =~= seq![h, 0int]);
        let w1 = base.running_witness@;
        assert(running_u@ == first_instance(s, 0, InstanceView { comm_W: running_u@.comm_W, X: seq![0, 0] }, w1, p));
        assert(running_w@ == first_witness(s, w1, p));
    }
    r
}

/// One step as a relaxed instance over Vesta, with its witness.
pub struct SpanSecondarySingleStepSnark {
    pub case: SpanSecondaryCase,
    pub shape: R1CSShape<Vesta>,
    pub ck: VestaKey,
    pub relaxed_u: RelaxedR1CSInstance<Vesta>,
    pub relaxed_w: RelaxedR1CSWitness<Vesta>,
    pub expected_folded_index_commitments: [Commitment<Pallas>; 3],
    pub num_constraints: usize,
    pub num_aux: usize,
    pub num_inputs: usize,
}

impl SpanSecondarySingleStepSnark {
    /// Whether the shape is that of a system on which the circuit of the case was synthesized, and is satisfied by the
    /// relaxed instance and its witness.
    pub open spec fn wf(&self) -> bool {
        &&& relaxed_sat::<Vesta>(self.shape@, self.ck, self.relaxed_u@, self.relaxed_w@)
        &&& self.relaxed_u@.u == 1
        &&& self.relaxed_w@.r_W == 0
        &&& self.relaxed_w@.r_E == 0
        &&& self.num_constraints > 0
        &&& self.shape@.num_cons == self.num_constraints
        &&& self.shape@.num_vars == self.num_aux
        &&& self.num_inputs == 3
        &&& self.shape@.num_io == 2
        &&& stepped::<Pallas>(self.case.rules(), self.case.reads()) == Some(self.case.folded_u@)
        &&& self.case.structure.wf()
        &&& self.case.folded_u@.lambda.len() == self.case.structure@.len()
        &&& views3(self.expected_folded_index_commitments) == index_commitments::<Pallas>(
            self.case.structure@,
            reduced(self.case.folded_u@.lambda, Fq::modulus()),
        )
    }

    /// The shape of the step.
    pub fn shape(&self) -> (r: &R1CSShape<Vesta>)
        ensures
            *r == self.shape,
    {
        &self.shape
    }

    /// The key of the commitments.
    pub fn ck(&self) -> (r: &VestaKey)
        ensures
            *r == self.ck,
    {
        &self.ck
    }

    /// The relaxed instance.
    pub fn relaxed_instance(&self) -> (r: &RelaxedR1CSInstance<Vesta>)
        ensures
            *r == self.relaxed_u,
    {
        &self.relaxed_u
    }

    /// The relaxed witness.
    pub fn relaxed_witness(&self) -> (r: &RelaxedR1CSWitness<Vesta>)
        ensures
            *r == self.relaxed_w,
    {
        &self.relaxed_w
    }

    /// The number of constraints.
    pub fn num_constraints(&self) -> (r: usize)
        ensures
            r == self.num_constraints,
    {
        self.num_constraints
    }

    /// The number of variables.
    pub fn num_aux(&self) -> (r: usize)
        ensures
            r == self.num_aux,
    {
        self.num_aux
    }

    /// The number of public values, with the constant.
    pub fn num_inputs(&self) -> (r: usize)
        ensures
            r == self.num_inputs,
    {
        self.num_inputs
    }

    /// The commitments to the index after the step, reconstructed from the coefficients that the folded instance
    /// carries: they are those that are expected.
    pub fn reconstruct_folded_index_commitments(&self) -> (r: [Commitment<Pallas>; 3])
        requires
            self.wf(),
        ensures
            views3(r) == index_commitments::<Pallas>(
                self.case.structure@,
                reduced(self.case.folded_u@.lambda, Fq::modulus()),
            ),
            views3(r) == views3(self.expected_folded_index_commitments),
    {
        assert(vals(self.case.folded_u.lambda@).len() == self.case.folded_u.lambda@.len());
        self.case.structure.reconstruct_folded_index_commitments(&self.case.folded_u.lambda)
    }

    /// The commitments to the index after the step, made directly from the coefficients.
    pub fn expected_folded_index_commitments(&self) -> (r: [Commitment<Pallas>; 3])
        ensures
            views3(r) == views3(self.expected_folded_index_commitments),
    {
        let c = &self.expected_folded_index_commitments;
        let r = [c[0].copied(), c[1].copied(), c[2].copied()];
        assert(views3(r) =~= views3(self.expected_folded_index_commitments));
        r
    }
}

/// The shapes of the predicates of a structure, once more.
fn copy_shapes(structure: &GlobalStructure<Pallas>, Ghost(n): Ghost<int>) -> (r: Vec<R1CSShape<Pallas>>)
    requires
        2 <= n <= MAX_PREDICATES,
        structure@.len() == n,
        structure.index.predicates@.len() == n,
        forall|i: int| 0 <= i < n ==> (#[trigger] structure.index.predicates@[i]).shape@ == tiny_shape(i),
    ensures
        shape_views(r@) == tiny_shapes(n),
{
    let mut r: Vec<R1CSShape<Pallas>> = Vec::new();
    let mut i: usize = 0;
    while i < structure.index.predicates.len()
        invariant
            i <= structure.index.predicates.len(),
            structure.index.predicates@.len() == n,
            forall|k: int| 0 <= k < n ==> (#[trigger] structure.index.predicates@[k]).shape@ == tiny_shape(k),
            r@.len() == i,
            forall|k: int| 0 <= k < i ==> (#[trigger] r@[k])@ == tiny_shape(k),
        decreases structure.index.predicates.len() - i,
    {
        let s = &structure.index.predicates[i].shape;
        let copy = R1CSShape::<Pallas> {
            num_cons: s.num_cons,
            num_vars: s.num_vars,
            num_io: s.num_io,
            A: copy_triples(&s.A),
            B: copy_triples(&s.B),
            C: copy_triples(&s.C),
        };
        assert(copy@ == s@);
        r.push(copy);
        i = i + 1;
    }
    assert(shape_views(r@).shapes =~= tiny_shapes(n).shapes);
    r
}

/// The commitments to the index with the coefficients that a folded instance carries, made directly from them.
fn commit_directly(case: &SpanSecondaryCase, Ghost(n): Ghost<int>) -> (r: [Commitment<Pallas>; 3])
    requires
        2 <= n <= MAX_PREDICATES,
        tiny_shapes(n).describes::<Pallas>(case.structure@),
        case.structure@.len() == n,
        case.structure.index.predicates@.len() == n,
        forall|i: int| 0 <= i < n ==> (#[trigger] case.structure.index.predicates@[i]).shape@ == tiny_shape(i),
        case.folded_u@.lambda.len() == n,
    ensures
        views3(r) == index_commitments::<Pallas>(case.structure@, reduced(case.folded_u@.lambda, Fq::modulus())),
{
    let direct_shapes = copy_shapes(&case.structure, Ghost(n));
    proof {
        lemma_tiny_shapes(n);
    }
    let direct_structure = crate::relation::GlobalStructure::<Pallas>::new(&direct_shapes);
    let mut lambda_scalar: Vec<Fq> = Vec::new();
    let mut i: usize = 0;
    while i < case.folded_u.lambda.len()
        invariant
            i <= case.folded_u.lambda.len(),
            lambda_scalar@.len() == i,
            forall|k: int|
                0 <= k < i ==> (#[trigger] lambda_scalar@[k]).val() == case.folded_u.lambda@[k].val() % Fq::modulus(),
        decreases case.folded_u.lambda.len() - i,
    {
        lambda_scalar.push(Pallas::base_as_scalar(&case.folded_u.lambda[i]));
        i = i + 1;
    }
    let ghost want = reduced(case.folded_u@.lambda, Fq::modulus());
    assert(vals(lambda_scalar@) =~= want);
    proof {
        assert(direct_structure@.len() == n);
        reconstruction_is_commitment::<Pallas>(
            tiny_shapes(n),
            tiny_shapes(n),
            case.structure@,
            direct_structure@,
            want,
        );
    }
    direct_structure.commit_index_coeffs(&lambda_scalar)
}

/// One step with so many predicates, as a relaxed instance with its witness.
pub fn build_span_secondary_single_step_snark_with_predicates(num_predicates: usize) -> (r: SpanSecondarySingleStepSnark)
    requires
        2 <= num_predicates <= MAX_PREDICATES,
    ensures
        r.wf(),
        r.case.built(num_predicates as int),
{
    let case = build_span_secondary_case_with_predicates(num_predicates);
    let mut cs: ConstraintSystem<Fp> = ConstraintSystem::new(true);
    let _next = synthesize_secondary_span(&case, &mut cs);
    let num_constraints = cs.num_constraints();
    let num_aux = cs.num_aux();
    let num_inputs = cs.num_inputs();
    assert(cs@.satisfied());
    let expected_folded_index_commitments = commit_directly(&case, Ghost(num_predicates as int));
    let (shape, ck, relaxed_u, relaxed_w) = relaxed_instance_of(&cs);
    SpanSecondarySingleStepSnark {
        case,
        shape,
        ck,
        relaxed_u,
        relaxed_w,
        expected_folded_index_commitments,
        num_constraints,
        num_aux,
        num_inputs,
    }
}

/// One step with two predicates, as a relaxed instance with its witness.
pub fn build_span_secondary_single_step_snark() -> (r: SpanSecondarySingleStepSnark)
    ensures
        r.wf(),
        r.case.built(2),
{
    build_span_secondary_single_step_snark_with_predicates(2)
}

/// An instance of the right lengths is what is allocated for it.
pub(crate) proof fn lemma_given_instance(s: StructureView, u: FoldedInstanceView)
    requires
        u.lambda.len() == s.len(),
        u.X.len() == s.num_io,
        u.r_x.len() == s.s_max,
        u.r_y.len() == s.s_prime_max,
        u.v.len() == 4,
    ensures
        given_instance(s, Some(u)) == u,
{
    let g = given_instance(s, Some(u));
    assert(g.lambda =~= u.lambda);
    assert(g.X =~= u.X);
    assert(g.r_x =~= u.r_x);
    assert(g.r_y =~= u.r_y);
    assert(g.v =~= u.v);
}

} // verus!
