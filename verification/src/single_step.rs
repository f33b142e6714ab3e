//! One step of the circuit over Pallas, on small predicates, as a relaxed instance over Vesta with its witness.
use crate::augmented::{
    advanced, step_hash, step_output, step_state, stepped, CircuitView, KiloNovaAugmentedCircuit,
    KiloNovaAugmentedCircuitInputs, NUM_HASH_BITS, StepView, TrivialPredicateSet,
};
use crate::completeness::{first_instance_is_satisfied, fold_stays_satisfied, lemma_transcript_points, rows_satisfied};
use crate::cs::{step, ConstraintSystem, CsView};
use crate::engine::{commitment_log, vals, Commitment, CurveEngine, RandomOracle, MAX_ABSORBED};
use crate::errors::SynthesisError;
use crate::field::FieldElement;
use crate::fragment::CircuitEngine;
use crate::gadgets::AllocatedNum;
use crate::holographic::honest_fold_satisfies_circuit;
use crate::instance_circuit::{given_instance, given_nifs, lemma_given_nifs};
use crate::math::{ceil_log2, lemma_ceil_log2, max, next_pow2};
use crate::matrix::{row_sum, values};
use crate::nifs::{absorbed_inputs, hash_of, proved, running, transcript, NIFS};
use crate::pasta::{Fp, Fq, Pallas, PallasOracle, Vesta, VestaKey};
use crate::r1cs::{entries, Entries, InstanceView, R1CSInstance, R1CSShape, R1CSWitness, ShapeView, WitnessView};
use crate::relation::{
    absorb_all, copy_vec, first_instance, first_witness, folded_instance_elements, folded_sat, incoming_z, max_upto,
    projected, resized, shape_views, unit, views3, zeros, FoldedInstance, FoldedInstanceView, FoldedWitness,
    FoldedWitnessView, GlobalStructure, Shapes, StructureView,
};
use crate::relaxed::{relaxed_form_is_satisfied, relaxed_sat, RelaxedR1CSInstance, RelaxedR1CSWitness};
use crate::shape::{instance_and_witness, shape_cs_to_shape, shape_of, system_satisfies_its_shape};
use crate::proof_circuit::nvals;
use vstd::arithmetic::power2::pow2;
use vstd::prelude::*;

verus! {

/// The largest number of predicates for which a case is built: an oracle has to absorb one coefficient of each.
pub const MAX_PREDICATES: usize = 0x2000_0000;

/// A shape without entries: of two constraints and variables or, at odd places, of four.
pub open spec fn tiny_shape(i: int) -> ShapeView {
    let n = if i % 2 == 0 {
        2int
    } else {
        4
    };
    ShapeView { num_cons: n, num_vars: n, num_io: 2, mats: seq![Entries::empty(), Entries::empty(), Entries::empty()] }
}

/// Some such shapes.
pub open spec fn tiny_shapes(n: int) -> Shapes {
    Shapes { shapes: Seq::new(n as nat, |i: int| tiny_shape(i)) }
}

/// What `tiny_nonuniform_base_data` gives: shapes, and two instances with witnesses of zeros.
pub struct TinyBaseData<E: CurveEngine> {
    pub shapes: Vec<R1CSShape<E>>,
    pub ck: E::CommitmentKey,
    pub running_instance: R1CSInstance<E>,
    pub running_witness: R1CSWitness<E>,
    pub incoming_instance: R1CSInstance<E>,
    pub incoming_witness: R1CSWitness<E>,
    pub pp_digest: E::Scalar,
    pub i: E::Base,
    pub z0: Vec<E::Base>,
    pub zi: Vec<E::Base>,
    pub trace_digest_in: E::Base,
    pub ri: E::Base,
    pub r_next: E::Base,
}

/// A shape without entries.
fn empty_shape<E: CurveEngine>(n: usize) -> (r: R1CSShape<E>)
    requires
        n <= 4,
    ensures
        r@ == (ShapeView {
            num_cons: n as int,
            num_vars: n as int,
            num_io: 2,
            mats: seq![Entries::empty(), Entries::empty(), Entries::empty()],
        }),
{
    let a: Vec<(usize, usize, E::Scalar)> = Vec::new();
    let b: Vec<(usize, usize, E::Scalar)> = Vec::new();
    let c: Vec<(usize, usize, E::Scalar)> = Vec::new();
    assert(entries(a@) =~= Entries::empty());
    assert(entries(b@) =~= Entries::empty());
    assert(entries(c@) =~= Entries::empty());
    match R1CSShape::new(n, n, 2, a, b, c) {
        Ok(s) => s,
        Err(_) => vstd::pervasive::unreached(),
    }
}

/// Shapes, a key, and two instances with witnesses of zeros.
pub(crate) fn tiny_nonuniform_base_data<E: CurveEngine>(num_predicates: usize) -> (r: TinyBaseData<E>)
    ensures
        shape_views(r.shapes@) == tiny_shapes(num_predicates as int),
        E::generators(&r.ck).len() == 4,
        r.running_witness@ == (WitnessView { W: seq![0, 0], r_W: 0 }),
        r.running_instance@ == (InstanceView {
            comm_W: commitment_log::<E>(E::generators(&r.ck), E::blinding(&r.ck), seq![0, 0], 0),
            X: seq![0, 0],
        }),
        r.incoming_witness@ == (WitnessView { W: seq![0, 0, 0, 0], r_W: 0 }),
        r.incoming_instance@ == (InstanceView {
            comm_W: commitment_log::<E>(E::generators(&r.ck), E::blinding(&r.ck), seq![0, 0, 0, 0], 0),
            X: seq![0, 0],
        }),
        r.pp_digest.val() == 42,
        r.i.val() == 1,
        vals(r.z0@) == seq![0int],
        vals(r.zi@) == seq![0int],
        r.trace_digest_in.val() == 3,
        r.ri.val() == 7,
        r.r_next.val() == 11,
{
    let mut shapes: Vec<R1CSShape<E>> = Vec::new();
    let mut i: usize = 0;
    while i < num_predicates
        invariant
            i <= num_predicates,
            shapes@.len() == i,
            forall|k: int| 0 <= k < i ==> (#[trigger] shapes@[k])@ == tiny_shape(k),
        decreases num_predicates - i,
    {
        if i % 2 == 0 {
            shapes.push(empty_shape(2));
        } else {
            shapes.push(empty_shape(4));
        }
        i = i + 1;
    }
    assert(shape_views(shapes@).shapes =~= tiny_shapes(num_predicates as int).shapes);
    let shape1 = empty_shape::<E>(4);
    proof {
        lemma_tiny_logs();
    }
    let ck = shape1.commitment_key(0);
    let running_witness = R1CSWitness::<E> { W: zeros(2), r_W: E::Scalar::from_u64(0) };
    let incoming_witness = R1CSWitness::<E> { W: zeros(4), r_W: E::Scalar::from_u64(0) };
    assert(vals(running_witness.W@) =~= seq![0int, 0]);
    assert(vals(incoming_witness.W@) =~= seq![0int, 0, 0, 0]);
    proof {
        assert(vals(running_witness.W@).len() == 2);
        assert(vals(incoming_witness.W@).len() == 4);
    }
    let running_instance = R1CSInstance::<E> {
        comm_W: E::commit(&ck, &running_witness.W, &running_witness.r_W),
        X: zeros(2),
    };
    let incoming_instance = R1CSInstance::<E> {
        comm_W: E::commit(&ck, &incoming_witness.W, &incoming_witness.r_W),
        X: zeros(2),
    };
    assert(vals(running_instance.X@) =~= seq![0int, 0]);
    assert(vals(incoming_instance.X@) =~= seq![0int, 0]);
    let r = TinyBaseData {
        shapes,
        ck,
        running_instance,
        running_witness,
        incoming_instance,
        incoming_witness,
        pp_digest: E::Scalar::from_u64(42),
        i: E::Base::from_u64(1),
        z0: zeros(1),
        zi: zeros(1),
        trace_digest_in: E::Base::from_u64(3),
        ri: E::Base::from_u64(7),
        r_next: E::Base::from_u64(11),
    };
    assert(vals(r.z0@) =~= seq![0int]);
    assert(vals(r.zi@) =~= seq![0int]);
    r
}

/// The logarithms of the sizes of small shapes.
proof fn lemma_tiny_logs()
    ensures
        ceil_log2(2) == 1,
        ceil_log2(4) == 2,
        ceil_log2(7) == 3,
        next_pow2(2) == 2,
        next_pow2(4) == 4,
        pow2(1) == 2,
        pow2(2) == 4,
        pow2(3) == 8,
{
    reveal_with_fuel(ceil_log2, 5);
    vstd::arithmetic::power2::lemma2_to64();
}

/// Of values that are alternately small and large, the largest is a large one.
proof fn lemma_max_alternating(f: spec_fn(int) -> int, low: int, small: int, large: int, n: int)
    requires
        n >= 0,
        low <= large,
        small <= large,
        forall|i: int| 0 <= i < n ==> #[trigger] f(i) == if i % 2 == 0 {
            small
        } else {
            large
        },
    ensures
        n >= 2 ==> max_upto(f, low, n) == large,
        max_upto(f, low, n) <= large,
    decreases n,
{
    if n > 0 {
        lemma_max_alternating(f, low, small, large, n - 1);
        assert(f(n - 1) == if (n - 1) % 2 == 0 {
            small
        } else {
            large
        });
    }
}

/// Small shapes are padded already, a structure can be built of them, and its sizes are small.
pub(crate) proof fn lemma_tiny_shapes(n: int)
    requires
        2 <= n <= MAX_PREDICATES,
    ensures
        tiny_shapes(n).buildable(),
        tiny_shapes(n).num_io() == 2,
        tiny_shapes(n).num_vars_max() == 4,
        tiny_shapes(n).s_max() == 2,
        tiny_shapes(n).s_prime_max() == 3,
        forall|i: int| 0 <= i < n ==> #[trigger] tiny_shapes(n).padded(i) == tiny_shape(i),
{
    let t = tiny_shapes(n);
    lemma_tiny_logs();
    lemma_ceil_log2(n);
    assert forall|i: int| 0 <= i < n implies #[trigger] t.padded(i) == tiny_shape(i) by {
        let s = t.shapes[i];
        assert(s == tiny_shape(i));
        assert(s.pad().mats =~= s.mats) by {
            assert(crate::r1cs::shifted(Entries::empty(), s.num_vars, 0) =~= Entries::empty());
        }
    }
    lemma_max_alternating(|i: int| t.padded(i).num_vars, 0, 2, 4, n);
    lemma_max_alternating(|i: int| ceil_log2(t.padded(i).num_cons) as int, 1, 1, 2, n);
    assert(t.padded(0) == tiny_shape(0));
    assert forall|i: int| 0 <= i < t.shapes.len() implies {
        &&& (#[trigger] t.shapes[i]).wf()
        &&& t.shapes[i].padded_size() + t.shapes[i].num_io < usize::MAX
        &&& next_pow2(t.shapes[i].num_cons) <= usize::MAX
        &&& next_pow2(t.shapes[i].num_vars) <= usize::MAX
        &&& t.padded(i).num_vars + 1 + t.padded(i).num_io <= pow2(t.s_prime_max() as nat)
        &&& t.padded(i).num_vars + 1 + t.padded(i).num_io <= usize::MAX
    } by {
        assert(t.padded(i) == tiny_shape(i));
    }
}

/// Without entries, every row is satisfied by every vector.
pub(crate) proof fn lemma_tiny_rows<E: CurveEngine>(n: int, s: StructureView, id: int, z: Seq<int>, p: int)
    requires
        2 <= n <= MAX_PREDICATES,
        tiny_shapes(n).describes::<E>(s),
        0 <= id < n,
        p > 1,
    ensures
        rows_satisfied(s, id, z, p),
{
    lemma_tiny_shapes(n);
    assert(tiny_shapes(n).padded(id) == tiny_shape(id));
    assert forall|r: int| 0 <= r < pow2(s.s_max) implies crate::math::cong(
        #[trigger] row_sum(s.mats[id][0], r, values(z)) * row_sum(s.mats[id][1], r, values(z)),
        row_sum(s.mats[id][2], r, values(z)),
        p,
    ) by {
        assert(s.mats[id][0].len() == 0 && s.mats[id][1].len() == 0 && s.mats[id][2].len() == 0);
        assert(0 * 0 == 0);
    }
}

/// The hash that a step hands on to the next one.
pub fn compute_augmented_input_hash<E: CurveEngine>(
    ro_consts: &<E::RO as RandomOracle<E::Base>>::Constants,
    pp_digest: &E::Scalar,
    i: &E::Base,
    z0: &Vec<E::Base>,
    zi: &Vec<E::Base>,
    U: &FoldedInstance<E>,
    ri: &E::Base,
    trace_digest_in: &E::Base,
) -> (r: E::Base)
    requires
        z0@.len() + zi@.len() + folded_instance_elements::<E>(U@).len() + 4 <= MAX_ABSORBED,
    ensures
        r.val() == step_hash::<E>(
            pp_digest.val() % E::Base::modulus(),
            i.val(),
            vals(z0@),
            vals(zi@),
            U@,
            ri.val(),
            trace_digest_in.val(),
        ),
        r.val() == hash_of::<E>()(
            seq![pp_digest.val() % E::Base::modulus(), i.val()] + vals(z0@) + vals(zi@) + folded_instance_elements::<E>(U@) + seq![
                ri.val(),
                trace_digest_in.val(),
            ],
        ) % (pow2(250) as int),
{
    let mut ro = E::RO::new(ro_consts);
    let digest = E::scalar_as_base(pp_digest);
    ro.absorb(&digest);
    ro.absorb(i);
    absorb_all(&mut ro, z0);
    absorb_all(&mut ro, zi);
    U.absorb_in_ro(&mut ro);
    ro.absorb(ri);
    ro.absorb(trace_digest_in);
    assert(ro.state() =~= seq![digest.val(), i.val()] + vals(z0@) + vals(zi@) + folded_instance_elements::<E>(U@) + seq![
        ri.val(),
        trace_digest_in.val(),
    ]);
    ro.squeeze(NUM_HASH_BITS)
}

/// What the circuit of one step is run on.
pub struct DirectSecondaryCase {
    pub structure: GlobalStructure<Pallas>,
    pub pp_digest: Fq,
    pub i: Fp,
    pub z0: Vec<Fp>,
    pub zi: Vec<Fp>,
    pub trace_digest_in: Fp,
    pub local_predicate_id: Fp,
    pub incoming_predicate_id: usize,
    pub incoming_predicate_id_runtime: Fp,
    pub U: FoldedInstance<Pallas>,
    pub W_proj: Vec<Fp>,
    pub lambda: Vec<Fp>,
    pub ri: Fp,
    pub r_next: Fp,
    pub u: R1CSInstance<Pallas>,
    pub w_proj: Vec<Fp>,
    pub nifs: NIFS<Pallas>,
    pub folded_u: FoldedInstance<Pallas>,
}

impl DirectSecondaryCase {
    /// What the circuit checks against.
    pub open spec fn rules(&self) -> CircuitView {
        CircuitView {
            is_primary_circuit: false,
            s: self.structure@,
            step_predicate_id: 0,
            incoming_predicate_id: self.incoming_predicate_id as int,
        }
    }

    /// What the circuit reads.
    pub open spec fn reads(&self) -> StepView {
        let s = self.structure@;
        StepView {
            pp_digest: self.pp_digest.val() % Fp::modulus(),
            i: self.i.val(),
            z0: resized(vals(self.z0@), 1),
            zi: resized(vals(self.zi@), 1),
            trace_digest_in: self.trace_digest_in.val(),
            local_predicate_id: self.local_predicate_id.val(),
            incoming_predicate_id: self.incoming_predicate_id_runtime.val(),
            U: given_instance(s, Some(self.U@)),
            W: resized(vals(self.W_proj@), s.num_vars_max),
            lambda: resized(vals(self.lambda@), s.len() as int),
            ri: self.ri.val(),
            r_next: self.r_next.val(),
            u: InstanceView {
                comm_W: self.u@.comm_W,
                X: seq![self.u@.X[0] % Fp::modulus(), self.u@.X[1] % Fp::modulus()],
            },
            w: resized(vals(self.w_proj@), s.num_vars_max),
            nifs: given_nifs(s, Some(self.nifs@)),
        }
    }

    /// Whether the circuit can be synthesized on the case.
    pub open spec fn wf(&self) -> bool {
        &&& self.structure.wf()
        &&& self.structure@.num_io == 2
        &&& self.structure@.num_vars_max > 0
        &&& self.incoming_predicate_id < self.structure@.len()
        &&& self.z0@.len() >= 1
        &&& self.zi@.len() >= 1
        &&& self.u.X@.len() >= 2
    }

    /// Whether the case is the one that is built for so many predicates: the first predicate has been run on a witness of
    /// zeros, and an instance of the last one with a witness of zeros is folded into it.
    pub open spec fn built(&self, n: int) -> bool {
        let s = self.structure@;
        let p = Fp::modulus();
        let q = Fq::modulus();
        let w1 = WitnessView { W: seq![0, 0], r_W: 0 };
        let w2 = WitnessView { W: seq![0, 0, 0, 0], r_W: 0 };
        let f = proved::<Pallas>(s, 42, n - 1, self.U@, first_witness(s, 0, w1, p), self.u@, w2);
        &&& self.wf()
        &&& tiny_shapes(n).describes::<Pallas>(s)
        &&& s.len() == n
        &&& self.pp_digest.val() == 42
        &&& self.i.val() == 1
        &&& vals(self.z0@) == seq![0int]
        &&& vals(self.zi@) == seq![0int]
        &&& self.trace_digest_in.val() == 3
        &&& self.local_predicate_id.val() == 0
        &&& self.incoming_predicate_id == n - 1
        &&& self.incoming_predicate_id_runtime.val() == n - 1
        &&& self.ri.val() == 7
        &&& self.r_next.val() == 11
        &&& self.U@ == first_instance(s, 0, InstanceView { comm_W: self.U@.comm_W, X: seq![0, 0] }, w1, p)
        &&& self.u@.X == seq![
            step_hash::<Pallas>(42int % p, 1, seq![0], seq![0], self.U@, 7, 3),
            0,
        ]
        &&& vals(self.W_proj@) == projected(w1.W, s.num_vars_max, p)
        &&& vals(self.w_proj@) == projected(w2.W, s.num_vars_max, p)
        &&& vals(self.lambda@) == unit(0, n)
        &&& self.nifs@ == f.proof_
        &&& self.folded_u@ == f.instance
        &&& stepped::<Pallas>(self.rules(), self.reads()) == Some(self.folded_u@)
        &&& exists|rho: int| #[trigger]
            self.folded_by(rho) && self.folded_u@.comm_M == Seq::new(
                3,
                |j: int| (s.comm_M[0][j] + s.comm_M[n - 1][j] * (rho % q)) % q,
            )
    }

    /// Whether a challenge is the one by which the instance is folded in.
    pub open spec fn folded_by(&self, rho: int) -> bool {
        &&& 0 <= rho < pow2(128)
        &&& self.folded_u@.u == (1 + rho) % Fp::modulus()
    }
}

/// Adds the constraints of the step to a system, and returns the next state.
pub fn synthesize_secondary_direct(case: &DirectSecondaryCase, cs: &mut ConstraintSystem<Fp>) -> (r: Result<
    Vec<AllocatedNum<Fp>>,
    SynthesisError,
>)
    requires
        old(cs)@.wf(),
        case.wf(),
    ensures
        step(old(cs)@, final(cs)@),
        final(cs).witness == old(cs).witness,
        r is Ok,
        final(cs)@.inputs.len() == old(cs)@.inputs.len() + 2,
        final(cs)@.constraints.len() > old(cs)@.constraints.len(),
        r matches Ok(out) ==> {
            let n = old(cs)@.inputs.len() as int;
            &&& nvals(out@) == step_state(case.reads())
            &&& final(cs)@.inputs[n] == case.reads().u.X[1]
            &&& final(cs)@.inputs[n + 1] == step_output::<Pallas>(
                case.rules(),
                case.reads(),
                advanced::<Pallas>(case.rules(), case.reads()),
                step_state(case.reads()),
            )
        },
        final(cs)@.satisfied() == (old(cs)@.satisfied() && stepped::<Pallas>(case.rules(), case.reads()) is Some),
{
    let predicate_set = TrivialPredicateSet::default();
    let inputs = KiloNovaAugmentedCircuitInputs::new(
        case.pp_digest,
        case.i,
        copy_vec(&case.z0),
        Some(copy_vec(&case.zi)),
        case.trace_digest_in,
        case.local_predicate_id,
        case.incoming_predicate_id_runtime,
        Some(case.U.copied()),
        Some(copy_vec(&case.W_proj)),
        Some(copy_vec(&case.lambda)),
        Some(case.ri),
        case.r_next,
        Some(case.u.copied()),
        Some(copy_vec(&case.w_proj)),
        Some(case.nifs.copied()),
    );
    let ro_consts = PallasOracle::constants();
    proof {
        assert(vals(inputs.z0@).len() == vals(case.z0@).len());
        assert(vals(inputs.zi->0@).len() == vals(case.zi@).len());
        assert(vals(inputs.u->0.X@).len() == vals(case.u.X@).len());
    }
    let circuit: KiloNovaAugmentedCircuit<'_, Pallas, TrivialPredicateSet> = KiloNovaAugmentedCircuit::new(
        false,
        Some(inputs),
        &predicate_set,
        0,
        case.incoming_predicate_id,
        &ro_consts,
        &case.structure,
    );
    assert(circuit.reads() == case.reads());
    circuit.synthesize(cs)
}

/// A hash of some bits is the same residue in both fields.
pub(crate) proof fn lemma_small_hash(h: int)
    ensures
        ({
            let k = h % (pow2(250) as int);
            &&& 0 <= k < Fp::modulus()
            &&& k % Fq::modulus() == k
            &&& k % Fp::modulus() == k
        }),
{
    let k = h % (pow2(250) as int);
    vstd::arithmetic::power2::lemma_pow2_pos(250);
    vstd::arithmetic::div_mod::lemma_mod_bound(h, pow2(250) as int);
    vstd::arithmetic::power2::lemma2_to64_rest();
    vstd::arithmetic::power2::lemma2_to64();
    vstd::arithmetic::power2::lemma_pow2_adds(64, 64);
    vstd::arithmetic::power2::lemma_pow2_adds(128, 64);
    vstd::arithmetic::power2::lemma_pow2_adds(192, 58);
    assert(pow2(250) == 0x400_0000_0000_0000_0000_0000_0000_0000_0000_0000_0000_0000_0000_0000_0000_0000int)
        by (nonlinear_arith)
        requires
            pow2(128) == pow2(64) * pow2(64),
            pow2(192) == pow2(128) * pow2(64),
            pow2(250) == pow2(192) * pow2(58),
            pow2(64) == 0x1_0000_0000_0000_0000,
            pow2(58) == 0x400_0000_0000_0000,
    ;
    Fp::modulus_bounds();
    Fq::modulus_bounds();
    vstd::arithmetic::div_mod::lemma_small_mod(k as nat, Fq::modulus() as nat);
    vstd::arithmetic::div_mod::lemma_small_mod(k as nat, Fp::modulus() as nat);
}

/// The commitments to the index are those of the first predicate, and those of the last one times the challenge.
proof fn lemma_built_index(r: DirectSecondaryCase, n: int)
    requires
        2 <= n,
        r.U@.comm_M == r.structure@.comm_M[0],
        r.U@.u == 1,
        exists|w1: FoldedWitnessView, w2: WitnessView|
            r.folded_u@ == (#[trigger] proved::<Pallas>(r.structure@, 42, n - 1, r.U@, w1, r.u@, w2)).instance,
    ensures
        exists|rho: int| #[trigger]
            r.folded_by(rho) && r.folded_u@.comm_M == Seq::new(
                3,
                |j: int|
                    (r.structure@.comm_M[0][j] + r.structure@.comm_M[n - 1][j] * (rho % Fq::modulus())) % Fq::modulus(),
            ),
{
    let (w1, w2) = choose|w1: FoldedWitnessView, w2: WitnessView|
        r.folded_u@ == (#[trigger] proved::<Pallas>(r.structure@, 42, n - 1, r.U@, w1, r.u@, w2)).instance;
    let s = r.structure@;
    let t = transcript::<Pallas>(
        s,
        absorbed_inputs::<Pallas>(s, 42, n - 1, r.u@),
        n - 1,
        running(r.U@, w1),
        incoming_z(s, r.u@, w2, Fp::modulus()),
    );
    let rho = t.result.rho;
    vstd::arithmetic::power2::lemma_pow2_pos(128);
    assert(r.folded_by(rho));
}

/// A case that the circuit of one step accepts, with so many predicates.
#[verifier::rlimit(60)]
pub fn build_direct_secondary_case_with_predicates(num_predicates: usize) -> (r: DirectSecondaryCase)
    requires
        2 <= num_predicates <= MAX_PREDICATES,
    ensures
        r.built(num_predicates as int),
        r.pp_digest.val() == 42 && r.i.val() == 1 && r.trace_digest_in.val() == 3 && r.ri.val() == 7 && r.r_next.val() == 11,
        vals(r.z0@) == seq![0int] && vals(r.zi@) == seq![0int],
        r.structure@.len() == num_predicates,
        r.local_predicate_id.val() == 0,
        r.incoming_predicate_id == num_predicates - 1 && r.incoming_predicate_id_runtime.val() == num_predicates - 1,
{
    let ghost n = num_predicates as int;
    let ghost p = Fp::modulus();
    let ghost q = Fq::modulus();
    let base = tiny_nonuniform_base_data::<Pallas>(num_predicates);
    let incoming_predicate_id: usize = num_predicates - 1;
    proof {
        lemma_tiny_shapes(n);
    }
    let structure = GlobalStructure::new(&base.shapes);
    let ghost s = structure@;
    let running_w = FoldedWitness::from_r1cs_witness(&structure, 0, &base.running_witness);
    let running_u = FoldedInstance::from_r1cs_instance_witness(
        &structure,
        0,
        &base.running_instance,
        &base.running_witness,
    );
    proof {
        first_instance_is_satisfied::<Pallas>(s, base.ck, 0, base.running_instance@, base.running_witness@);
        assert(folded_sat::<Pallas>(s, base.ck, running_u@, running_w@) is Ok);
        let u = running_u@;
        assert(u.X.len() == 2 && u.r_x.len() == 2 && u.r_y.len() == 3 && u.v.len() == 4);
        assert(vals(base.z0@).len() == 1 && vals(base.zi@).len() == 1);
    }
    let ro_consts = PallasOracle::constants();
    let input_hash = compute_augmented_input_hash(
        &ro_consts,
        &base.pp_digest,
        &base.i,
        &base.z0,
        &base.zi,
        &running_u,
        &base.ri,
        &base.trace_digest_in,
    );
    let mut X: Vec<Fq> = Vec::new();
    X.push(Pallas::base_as_scalar(&input_hash));
    X.push(base.incoming_instance.X[1]);
    let incoming_u = R1CSInstance { comm_W: base.incoming_instance.comm_W.copied(), X };
    let ghost zn = incoming_z(s, incoming_u@, base.incoming_witness@, p);
    proof {
        Fp::modulus_bounds();
        lemma_tiny_rows::<Pallas>(n, s, n - 1, zn, p);
        fold_stays_satisfied::<Pallas>(
            s,
            base.ck,
            base.pp_digest.val(),
            n - 1,
            running_u@,
            running_w@,
            incoming_u@,
            base.incoming_witness@,
        );
        assert(vals(base.incoming_witness.W@).len() == 4);
        assert(running_w@.W.len() == 4);
    }
    let (nifs, (folded_u, _folded_w)) = match NIFS::prove(
        &base.ck,
        &ro_consts,
        &base.pp_digest,
        &structure,
        incoming_predicate_id,
        &running_u,
        &running_w,
        &incoming_u,
        &base.incoming_witness,
    ) {
        Ok(r) => r,
        Err(_) => vstd::pervasive::unreached(),
    };
    let w_proj = structure.project_witness(&base.incoming_witness.W);
    let r = DirectSecondaryCase {
        structure,
        pp_digest: base.pp_digest,
        i: base.i,
        z0: base.z0,
        zi: base.zi,
        trace_digest_in: base.trace_digest_in,
        local_predicate_id: Fp::from_u64(0),
        incoming_predicate_id,
        incoming_predicate_id_runtime: Fp::from_u64(incoming_predicate_id as u64),
        U: running_u,
        W_proj: running_w.W_proj,
        lambda: running_w.lambda_proj,
        ri: base.ri,
        r_next: base.r_next,
        u: incoming_u,
        w_proj,
        nifs,
        folded_u,
    };
    proof {
        let f = proved::<Pallas>(
            s,
            base.pp_digest.val(),
            n - 1,
            running_u@,
            running_w@,
            incoming_u@,
            base.incoming_witness@,
        );
        honest_fold_satisfies_circuit::<Pallas>(
            s,
            base.ck,
            base.pp_digest.val(),
            n - 1,
            running_u@,
            running_w@,
            incoming_u@,
            base.incoming_witness@,
        );
        let v = r.reads();
        let h = input_hash.val();
        lemma_small_hash(
            hash_of::<Pallas>()(
                seq![42int % p, 1int] + seq![0int] + seq![0int] + folded_instance_elements::<Pallas>(running_u@) + seq![
                    7int,
                    3int,
                ],
            ),
        );
        assert(incoming_u@.X[0] == h);
        assert(v.z0 =~= seq![0int]);
        assert(v.zi =~= seq![0int]);
        lemma_given_instance(s, running_u@);
        assert(v.U == running_u@);
        assert(v.W =~= running_w@.W_proj);
        assert(v.lambda =~= running_w@.lambda_proj);
        assert(v.w =~= projected(base.incoming_witness@.W, s.num_vars_max, p));
        lemma_transcript_points::<Pallas>(
            s,
            absorbed_inputs::<Pallas>(s, base.pp_digest.val(), n - 1, incoming_u@),
            n - 1,
            running(running_u@, running_w@),
            zn,
        );
        lemma_given_nifs(s, f.proof_);
        assert(v.nifs == f.proof_);
        assert(v.u.X =~= projected(incoming_u@.X, s.num_io, p));
        assert(r.u@.X =~= seq![h, 0int]);
        let w1 = base.running_witness@;
        assert(running_u@ == first_instance(s, 0, InstanceView { comm_W: running_u@.comm_W, X: seq![0, 0] }, w1, p));
        assert(running_w@ == first_witness(s, 0, w1, p));
        lemma_built_index(r, n);
    }
    r
}

/// An instance of the right lengths is what is allocated for it.
pub(crate) proof fn lemma_given_instance(s: StructureView, u: FoldedInstanceView)
    requires
        u.X.len() == s.num_io,
        u.r_x.len() == s.s_max,
        u.r_y.len() == s.s_prime_max,
        u.v.len() == 4,
    ensures
        given_instance(s, Some(u)) == u,
{
    let g = given_instance(s, Some(u));
    assert(g.X =~= u.X);
    assert(g.r_x =~= u.r_x);
    assert(g.r_y =~= u.r_y);
    assert(g.v =~= u.v);
}

/// One step as a relaxed instance over Vesta, with its witness.
pub struct DirectSecondarySingleStepSnark {
    pub case: DirectSecondaryCase,
    pub shape: R1CSShape<Vesta>,
    pub ck: VestaKey,
    pub relaxed_u: RelaxedR1CSInstance<Vesta>,
    pub relaxed_w: RelaxedR1CSWitness<Vesta>,
    pub num_constraints: usize,
    pub num_aux: usize,
    pub num_inputs: usize,
}

/// The shape of a system, a key for it, and the relaxed instance and witness that the values of the system make up,
/// without blindings.
pub(crate) fn relaxed_instance_of(cs: &ConstraintSystem<Fp>) -> (r: (
    R1CSShape<Vesta>,
    VestaKey,
    RelaxedR1CSInstance<Vesta>,
    RelaxedR1CSWitness<Vesta>,
))
    requires
        cs@.wf(),
    ensures
        ({
            let (shape, ck, u, w) = r;
            &&& shape@ == shape_of(cs@)
            &&& Vesta::generators(&ck).len() >= max(shape@.num_cons, shape@.num_vars)
            &&& u@.X == cs@.inputs.skip(1)
            &&& u@.u == 1
            &&& w@.W == cs@.aux
            &&& w@.r_W == 0
            &&& w@.r_E == 0
            &&& cs@.satisfied() ==> relaxed_sat::<Vesta>(shape@, ck, u@, w@)
        }),
{
    cs.limit_sizes();
    let shape: R1CSShape<Vesta> = shape_cs_to_shape(cs);
    proof {
        reveal(CsView::wf);
        let v = shape@;
        let top = max(max(v.num_vars, v.num_cons), v.num_io);
        lemma_next_pow2_bound(v.num_cons);
        lemma_next_pow2_bound(v.num_vars);
        lemma_next_pow2_bound(top);
        lemma_pad_sizes(v);
    }
    let padded = shape.pad();
    let ck = padded.commitment_key(0);
    let r_W = Vesta::random_scalar();
    let (u, w) = match instance_and_witness::<Vesta>(cs, &shape, &ck, &r_W) {
        Ok(r) => r,
        Err(_) => vstd::pervasive::unreached(),
    };
    let relaxed_u = RelaxedR1CSInstance::from_r1cs_instance(&u);
    let relaxed_w = RelaxedR1CSWitness::from_r1cs_witness(&shape, &w);
    let (relaxed_w, blind_w, blind_e) = relaxed_w.derandomize();
    let relaxed_u = relaxed_u.derandomize(&ck, &blind_w, &blind_e);
    proof {
        assert(w@.W =~= cs@.aux);
        system_satisfies_its_shape::<Vesta>(cs@, ck, r_W.val());
        if cs@.satisfied() {
            relaxed_form_is_satisfied::<Vesta>(shape@, ck, u@, w@);
        }
    }
    (shape, ck, relaxed_u, relaxed_w)
}

/// The next power of two is less than twice a number.
proof fn lemma_next_pow2_bound(n: int)
    requires
        0 <= n <= usize::MAX / 4,
    ensures
        n <= next_pow2(n) <= usize::MAX / 2,
{
    if n >= 1 {
        lemma_ceil_log2(n);
    } else {
        vstd::arithmetic::power2::lemma2_to64();
    }
}

/// A padded shape has no more than the next power of two of constraints and of variables.
proof fn lemma_pad_sizes(s: ShapeView)
    requires
        0 <= s.num_cons <= usize::MAX / 4,
        0 <= s.num_vars <= usize::MAX / 4,
        0 <= s.num_io <= usize::MAX / 4,
    ensures
        next_pow2(max(max(s.pad().num_cons, s.pad().num_vars), 0)) < usize::MAX,
        max(max(s.pad().num_cons, s.pad().num_vars), 0) >= max(s.num_cons, s.num_vars),
        max(max(s.pad().num_cons, s.pad().num_vars), 0) <= next_pow2(max(max(s.pad().num_cons, s.pad().num_vars), 0)),
{
    let top = max(max(s.num_vars, s.num_cons), s.num_io);
    lemma_next_pow2_bound(top);
    let n = max(max(s.pad().num_cons, s.pad().num_vars), 0);
    if s.is_regular() {
        lemma_next_pow2_bound(n);
    } else {
        let k = ceil_log2(top);
        lemma_power_is_fixed(k);
        assert(n == pow2(k));
    }
}

/// A power of two is its own next power of two.
proof fn lemma_power_is_fixed(k: nat)
    ensures
        ceil_log2(pow2(k) as int) == k,
    decreases k,
{
    vstd::arithmetic::power2::lemma2_to64();
    if k > 0 {
        lemma_power_is_fixed((k - 1) as nat);
        vstd::arithmetic::power2::lemma_pow2_unfold(k);
        vstd::arithmetic::power2::lemma_pow2_pos((k - 1) as nat);
    }
}

impl DirectSecondarySingleStepSnark {
    /// Whether the shape is that of a system on which the circuit of the case was synthesized, and is satisfied by the
    /// relaxed instance and its witness.
    pub open spec fn wf(&self) -> bool {
        &&& relaxed_sat::<Vesta>(self.shape@, self.ck, self.relaxed_u@, self.relaxed_w@)
        &&& self.relaxed_u@.u == 1
        &&& self.relaxed_w@.r_W == 0
        &&& self.relaxed_w@.r_E == 0
        &&& self.num_constraints > 0
        &&& self.shape@.num_cons == self.num_constraints
        &&& self.shape@.num_vars == self.num_aux
        &&& self.num_inputs == 3
        &&& self.shape@.num_io == 2
        &&& stepped::<Pallas>(self.case.rules(), self.case.reads()) == Some(self.case.folded_u@)
    }

    /// The shape of the step.
    pub fn shape(&self) -> (r: &R1CSShape<Vesta>)
        ensures
            *r == self.shape,
    {
        &self.shape
    }

    /// The key of the commitments.
    pub fn ck(&self) -> (r: &VestaKey)
        ensures
            *r == self.ck,
    {
        &self.ck
    }

    /// The relaxed instance.
    pub fn relaxed_instance(&self) -> (r: &RelaxedR1CSInstance<Vesta>)
        ensures
            *r == self.relaxed_u,
    {
        &self.relaxed_u
    }

    /// The relaxed witness.
    pub fn relaxed_witness(&self) -> (r: &RelaxedR1CSWitness<Vesta>)
        ensures
            *r == self.relaxed_w,
    {
        &self.relaxed_w
    }

    /// The number of constraints.
    pub fn num_constraints(&self) -> (r: usize)
        ensures
            r == self.num_constraints,
    {
        self.num_constraints
    }

    /// The number of variables.
    pub fn num_aux(&self) -> (r: usize)
        ensures
            r == self.num_aux,
    {
        self.num_aux
    }

    /// The number of public values, with the constant.
    pub fn num_inputs(&self) -> (r: usize)
        ensures
            r == self.num_inputs,
    {
        self.num_inputs
    }

    /// The commitments to the index after the step.
    pub fn folded_index_commitments(&self) -> (r: [Commitment<Pallas>; 3])
        ensures
            views3(r) == self.case.folded_u@.comm_M,
    {
        let c = &self.case.folded_u.comm_M;
        let r = [c[0].copied(), c[1].copied(), c[2].copied()];
        assert(views3(r) =~= self.case.folded_u@.comm_M);
        r
    }
}

/// One step with so many predicates, as a relaxed instance with its witness.
pub fn build_direct_secondary_single_step_snark_with_predicates(num_predicates: usize) -> (r:
    DirectSecondarySingleStepSnark)
    requires
        2 <= num_predicates <= MAX_PREDICATES,
    ensures
        r.wf(),
        r.case.built(num_predicates as int),
{
    let case = build_direct_secondary_case_with_predicates(num_predicates);
    let mut cs: ConstraintSystem<Fp> = ConstraintSystem::new(true);
    let _next = synthesize_secondary_direct(&case, &mut cs);
    let num_constraints = cs.num_constraints();
    let num_aux = cs.num_aux();
    let num_inputs = cs.num_inputs();
    assert(cs@.satisfied());
    let (shape, ck, relaxed_u, relaxed_w) = relaxed_instance_of(&cs);
    DirectSecondarySingleStepSnark { case, shape, ck, relaxed_u, relaxed_w, num_constraints, num_aux, num_inputs }
}

/// One step with two predicates, as a relaxed instance with its witness.
pub fn build_direct_secondary_single_step_snark() -> (r: DirectSecondarySingleStepSnark)
    ensures
        r.wf(),
        r.case.built(2),
{
    build_direct_secondary_single_step_snark_with_predicates(2)
}

} // verus!
