//! The circuit of one step, with folded instances that carry the coefficients of the index.
use super::circuit::{
    corners, empty_instance, given_instance, lemma_folded_ats, lemma_folded_elements, lemma_folded_within,
    lemma_nums_within, sizes, started_instance, AllocatedFoldedInstance,
};
use super::nifs::{absorbed_inputs, folded_anyway, verified, NIFS};
use super::relation::{folded_instance_elements, FoldedInstance, FoldedInstanceView, GlobalStructure};
use crate::augmented::{lemma_small_exponent, trace_step, update_trace_digest_circuit, PredicateSet, NUM_HASH_BITS};
use crate::cs::{lemma_own_keeps, lemma_step_trans, step, Assignment, ConstraintSystem, CsView, Variable};
use crate::engine::{vals, CurveEngine, RandomOracle, MAX_ABSORBED};
use crate::errors::SynthesisError;
use crate::field::FieldElement;
use crate::fold_circuit::lemma_nifs_within;
use crate::fragment::CircuitEngine;
use crate::gadgets::{
    all_within, alloc_num_equals, alloc_zero, assert_false, assert_true, ats, conditionally_select_vec, lemma_at,
    lemma_own, nor, wires, AllocatedBit, AllocatedNum,
};
use crate::instance_circuit::{alloc_num_vec, given_nifs, lemma_given_nifs, lemma_instance_ats, AllocatedR1CSInstance};
use crate::nifs::{hash_of, NIFSView};
use crate::oracle::OracleCircuit;
use crate::proof_circuit::{accepted_is_reached, lemma_ats, lemma_nifs_ats, lemma_own_agrees, nvals, AllocatedNIFS};
use crate::r1cs::{InstanceView, R1CSInstance};
use crate::relation::{resized, StructureView};
use crate::layout::{
    bare_layout, first_is_free, lay_add_const, lay_check_step, lay_folded, lay_hash_check, lay_inputize, lay_instance,
    lay_local, lay_nifs, lay_reads, lay_select_all, lay_started, lay_vars, reads_leave_first_free, Layout, StepWires,
};
use crate::soundness::lemma_parts;
use super::soundness::absorbed_folded_instance_is_determined;
use super::single_step::lemma_given_instance;
use vstd::arithmetic::power2::pow2;
use vstd::prelude::*;

verus! {

/// What the circuit of a step is given. Of the two witnesses, it reads only the first value of that of the incoming
/// instance.
pub struct KiloNovaAugmentedCircuitInputs<E: CurveEngine> {
    pub pp_digest: E::Scalar,
    pub i: E::Base,
    pub z0: Vec<E::Base>,
    pub zi: Option<Vec<E::Base>>,
    pub trace_digest_in: E::Base,
    pub local_predicate_id: E::Base,
    pub incoming_predicate_id: E::Base,
    pub U: Option<FoldedInstance<E>>,
    pub W: Option<Vec<E::Base>>,
    pub ri: Option<E::Base>,
    pub r_next: E::Base,
    pub u: Option<R1CSInstance<E>>,
    pub w: Option<Vec<E::Base>>,
    pub nifs: Option<NIFS<E>>,
}

impl<E: CurveEngine> KiloNovaAugmentedCircuitInputs<E> {
    /// The inputs made of their parts.
    pub fn new(
        pp_digest: E::Scalar,
        i: E::Base,
        z0: Vec<E::Base>,
        zi: Option<Vec<E::Base>>,
        trace_digest_in: E::Base,
        local_predicate_id: E::Base,
        incoming_predicate_id: E::Base,
        U: Option<FoldedInstance<E>>,
        W: Option<Vec<E::Base>>,
        ri: Option<E::Base>,
        r_next: E::Base,
        u: Option<R1CSInstance<E>>,
        w: Option<Vec<E::Base>>,
        nifs: Option<NIFS<E>>,
    ) -> (r: Self)
        ensures
            r == (KiloNovaAugmentedCircuitInputs {
                pp_digest,
                i,
                z0,
                zi,
                trace_digest_in,
                local_predicate_id,
                incoming_predicate_id,
                U,
                W,
                ri,
                r_next,
                u,
                w,
                nifs,
            }),
    {
        KiloNovaAugmentedCircuitInputs {
            pp_digest,
            i,
            z0,
            zi,
            trace_digest_in,
            local_predicate_id,
            incoming_predicate_id,
            U,
            W,
            ri,
            r_next,
            u,
            w,
            nifs,
        }
    }
}

/// What the circuit of a step reads, over the integers.
pub struct StepView {
    pub pp_digest: int,
    pub i: int,
    pub z0: Seq<int>,
    pub zi: Seq<int>,
    pub trace_digest_in: int,
    pub local_predicate_id: int,
    pub incoming_predicate_id: int,
    pub U: FoldedInstanceView,
    pub ri: int,
    pub r_next: int,
    pub u: InstanceView,
    pub w_eval: int,
    pub nifs: NIFSView,
}

/// What the circuit of a step reads, in a system.
pub struct AllocatedStep<E: CurveEngine> {
    pub pp_digest: AllocatedNum<E::Base>,
    pub i: AllocatedNum<E::Base>,
    pub z0: Vec<AllocatedNum<E::Base>>,
    pub zi: Vec<AllocatedNum<E::Base>>,
    pub trace_digest_in: AllocatedNum<E::Base>,
    pub local_predicate_id: AllocatedNum<E::Base>,
    pub incoming_predicate_id: AllocatedNum<E::Base>,
    pub U: AllocatedFoldedInstance<E>,
    pub ri: AllocatedNum<E::Base>,
    pub r_next: AllocatedNum<E::Base>,
    pub u: AllocatedR1CSInstance<E>,
    pub w_eval: AllocatedNum<E::Base>,
    pub nifs: AllocatedNIFS<E>,
}

impl<E: CurveEngine> AllocatedStep<E> {
    /// The variables.
    pub open spec fn wires(&self) -> StepWires {
        StepWires {
            pp_digest: self.pp_digest.variable,
            i: self.i.variable,
            z0: wires(self.z0@),
            zi: wires(self.zi@),
            trace_digest_in: self.trace_digest_in.variable,
            local_predicate_id: self.local_predicate_id.variable,
            incoming_predicate_id: self.incoming_predicate_id.variable,
            U: self.U.wires(),
            ri: self.ri.variable,
            r_next: self.r_next.variable,
            u: self.u.wires(),
            w_eval: self.w_eval.variable,
            nifs: self.nifs.wires(),
        }
    }

    /// What is read under an assignment.
    pub open spec fn at(&self, x: Assignment) -> StepView {
        StepView {
            pp_digest: self.pp_digest.at(x),
            i: self.i.at(x),
            z0: ats(self.z0@, x),
            zi: ats(self.zi@, x),
            trace_digest_in: self.trace_digest_in.at(x),
            local_predicate_id: self.local_predicate_id.at(x),
            incoming_predicate_id: self.incoming_predicate_id.at(x),
            U: self.U.at(x),
            ri: self.ri.at(x),
            r_next: self.r_next.at(x),
            u: self.u.at(x),
            w_eval: self.w_eval.at(x),
            nifs: self.nifs.at(x),
        }
    }

    /// What was given.
    pub open spec fn values(&self) -> StepView {
        StepView {
            pp_digest: self.pp_digest.value.val(),
            i: self.i.value.val(),
            z0: nvals(self.z0@),
            zi: nvals(self.zi@),
            trace_digest_in: self.trace_digest_in.value.val(),
            local_predicate_id: self.local_predicate_id.value.val(),
            incoming_predicate_id: self.incoming_predicate_id.value.val(),
            U: self.U.values(),
            ri: self.ri.value.val(),
            r_next: self.r_next.value.val(),
            u: self.u.values(),
            w_eval: self.w_eval.value.val(),
            nifs: self.nifs.values(),
        }
    }

    /// Whether all numbers are of the system.
    pub open spec fn within(&self, cs: CsView) -> bool {
        &&& self.pp_digest.within(cs)
        &&& self.i.within(cs)
        &&& all_within(self.z0@, cs)
        &&& all_within(self.zi@, cs)
        &&& self.trace_digest_in.within(cs)
        &&& self.local_predicate_id.within(cs)
        &&& self.incoming_predicate_id.within(cs)
        &&& self.U.within(cs)
        &&& self.ri.within(cs)
        &&& self.r_next.within(cs)
        &&& self.u.within(cs)
        &&& self.w_eval.within(cs)
        &&& self.nifs.within(cs)
    }

    /// Whether the parts have the lengths that a structure and a state ask for.
    pub open spec fn shaped(&self, s: StructureView, arity: nat) -> bool {
        &&& self.z0@.len() == arity
        &&& self.zi@.len() == arity
        &&& self.U.shaped(s)
        &&& self.u.X@.len() == 2
        &&& self.nifs.shaped(s)
    }

    /// Whether the commitments are points under an assignment.
    pub open spec fn points_at(&self, x: Assignment) -> bool {
        self.U.points_at(x) && self.u.comm_W.is_point_at(x)
    }
}

/// The parts of inputs that may be missing, brought to the lengths that a structure and a state ask for.
pub open spec fn given_step<E: CurveEngine>(
    s: StructureView,
    arity: int,
    inputs: Option<KiloNovaAugmentedCircuitInputs<E>>,
) -> StepView {
    let p = E::Base::modulus();
    match inputs {
        Some(g) => StepView {
            pp_digest: g.pp_digest.val() % p,
            i: g.i.val(),
            z0: resized(vals(g.z0@), arity),
            zi: resized(
                match g.zi {
                    Some(zi) => vals(zi@),
                    None => Seq::empty(),
                },
                arity,
            ),
            trace_digest_in: g.trace_digest_in.val(),
            local_predicate_id: g.local_predicate_id.val(),
            incoming_predicate_id: g.incoming_predicate_id.val(),
            U: given_instance(
                s,
                match g.U {
                    Some(u) => Some(u@),
                    None => None,
                },
            ),
            ri: match g.ri {
                Some(r) => r.val(),
                None => 0,
            },
            r_next: g.r_next.val(),
            u: match g.u {
                Some(u) => InstanceView { comm_W: u@.comm_W, X: seq![u@.X[0] % p, u@.X[1] % p] },
                None => InstanceView { comm_W: 0, X: seq![0, 0] },
            },
            w_eval: match g.w {
                Some(w) => if w@.len() > 0 {
                    w@[0].val()
                } else {
                    0
                },
                None => 0,
            },
            nifs: given_nifs(
                s,
                match g.nifs {
                    Some(n) => Some(n@),
                    None => None,
                },
            ),
        },
        None => StepView {
            pp_digest: 0,
            i: 0,
            z0: resized(Seq::empty(), arity),
            zi: resized(Seq::empty(), arity),
            trace_digest_in: 0,
            local_predicate_id: 0,
            incoming_predicate_id: 0,
            U: empty_instance(s),
            ri: 0,
            r_next: 0,
            u: InstanceView { comm_W: 0, X: seq![0, 0] },
            w_eval: 0,
            nifs: given_nifs(s, None),
        },
    }
}

/// The circuit of one step.
pub struct KiloNovaAugmentedCircuit<'a, E: CircuitEngine, PS: PredicateSet<E::Base>> {
    pub is_primary_circuit: bool,
    pub ro_consts: &'a <E::RO as RandomOracle<E::Base>>::Constants,
    pub structure: &'a GlobalStructure<E>,
    pub inputs: Option<KiloNovaAugmentedCircuitInputs<E>>,
    pub predicate_set: &'a PS,
    pub step_predicate_id: usize,
    pub incoming_predicate_id: usize,
}

/// What the circuit of a step checks against.
pub struct CircuitView {
    pub is_primary_circuit: bool,
    pub s: StructureView,
    pub step_predicate_id: int,
    pub incoming_predicate_id: int,
}

/// The hash that stands for all that a step hands on.
pub open spec fn step_hash<E: CurveEngine>(
    pp_digest: int,
    i: int,
    z0: Seq<int>,
    zi: Seq<int>,
    U: FoldedInstanceView,
    r: int,
    trace_digest: int,
) -> int {
    hash_of::<E>()(seq![pp_digest, i] + z0 + zi + folded_instance_elements::<E>(U) + seq![r, trace_digest]) % (pow2(250) as int)
}

/// The state that the predicate of a step starts from.
pub open spec fn step_state(v: StepView) -> Seq<int> {
    if v.i == 0 {
        v.z0
    } else {
        v.zi
    }
}

/// The folded instance after a step, unless the step is rejected. The fold has to be right even where the first step
/// does without its result.
pub open spec fn stepped<E: CurveEngine>(c: CircuitView, v: StepView) -> Option<FoldedInstanceView> {
    if v.local_predicate_id != c.step_predicate_id || v.incoming_predicate_id != c.incoming_predicate_id {
        None
    } else if v.i != 0 && v.u.X[0] != step_hash::<E>(v.pp_digest, v.i, v.z0, v.zi, v.U, v.ri, v.trace_digest_in) {
        None
    } else {
        match verified::<E>(c.s, v.pp_digest, c.incoming_predicate_id, v.U, v.u, v.nifs) {
            None => None,
            Some(f) => Some(
                if v.i != 0 {
                    f
                } else if c.is_primary_circuit {
                    empty_instance(c.s)
                } else {
                    started_instance(c.s, c.incoming_predicate_id, v.u, v.w_eval, E::Base::modulus())
                },
            ),
        }
    }
}

/// The folded instance that a step comes to, whether or not it is rejected.
pub open spec fn advanced<E: CurveEngine>(c: CircuitView, v: StepView) -> FoldedInstanceView {
    if v.i != 0 {
        folded_anyway::<E>(c.s, v.pp_digest, v.incoming_predicate_id, c.incoming_predicate_id, v.U, v.u, v.nifs)
    } else if c.is_primary_circuit {
        empty_instance(c.s)
    } else {
        started_instance(c.s, c.incoming_predicate_id, v.u, v.w_eval, E::Base::modulus())
    }
}

/// A step that is not rejected comes to the folded instance that it comes to anyway.
pub proof fn accepted_step_is_advanced<E: CurveEngine>(c: CircuitView, v: StepView)
    requires
        c.s.s_max > 0,
        c.s.s_prime_max > 0,
        forall|i: int| 0 <= i < v.nifs.sc_proof_x.polys.len() ==> (#[trigger] v.nifs.sc_proof_x.polys[i]).len() == 4,
        forall|i: int| 0 <= i < v.nifs.sc_proof_y.polys.len() ==> (#[trigger] v.nifs.sc_proof_y.polys[i]).len() == 3,
    ensures
        stepped::<E>(c, v) matches Some(U) ==> U == advanced::<E>(c, v),
{
    accepted_is_reached::<E>(
        c.s,
        absorbed_inputs::<E>(v.pp_digest, c.incoming_predicate_id, v.u),
        v.U.r_x,
        v.U.r_y,
        v.U.v,
        v.nifs,
    );
}

/// The hash that a step makes public, given the next folded instance and the next state.
pub open spec fn step_output<E: CurveEngine>(c: CircuitView, v: StepView, U: FoldedInstanceView, out: Seq<int>) -> int {
    let p = E::Base::modulus();
    step_hash::<E>(
        v.pp_digest,
        (v.i + 1) % p,
        v.z0,
        out,
        U,
        v.r_next,
        trace_step(
            v.trace_digest_in,
            if c.is_primary_circuit {
                v.local_predicate_id
            } else {
                v.incoming_predicate_id
            },
            p,
        ),
    )
}

/// Two steps chain: a step is not rejected for its hash that reads the counter after that of another step, what that step
/// started from, the state, the folded instance, the blinding and the digest of the trace that it came to, and an instance
/// whose first public value is the hash that it made public.
pub proof fn steps_chain<E: CurveEngine>(c: CircuitView, v: StepView, out: Seq<int>, d: CircuitView, w: StepView)
    requires
        w.pp_digest == v.pp_digest,
        w.i == (v.i + 1) % E::Base::modulus(),
        w.z0 == v.z0,
        w.zi == out,
        w.U == advanced::<E>(c, v),
        w.ri == v.r_next,
        ({
            let id = if c.is_primary_circuit {
                v.local_predicate_id
            } else {
                v.incoming_predicate_id
            };
            let t = v.trace_digest_in + id + 1;
            w.trace_digest_in == (t * t + id + 1) % E::Base::modulus()
        }),
        w.u.X[0] == step_output::<E>(c, v, advanced::<E>(c, v), out),
    ensures
        w.u.X[0] == step_hash::<E>(w.pp_digest, w.i, w.z0, w.zi, w.U, w.ri, w.trace_digest_in),
        stepped::<E>(d, w) is Some <==> {
            &&& w.local_predicate_id == d.step_predicate_id
            &&& w.incoming_predicate_id == d.incoming_predicate_id
            &&& verified::<E>(d.s, w.pp_digest, d.incoming_predicate_id, w.U, w.u, w.nifs) is Some
        },
{
}

/// A step that is not rejected takes the predicates that it reads, folds what its verifier accepts, and after the first
/// step finds in its instance the hash of the digest of the parameters, the counter, the states, the folded instance, the
/// blinding and the digest of the trace. The first step comes to an instance of its own.
pub proof fn accepted_step_finds_its_hash<E: CurveEngine>(c: CircuitView, v: StepView)
    requires
        stepped::<E>(c, v) is Some,
    ensures
        v.local_predicate_id == c.step_predicate_id,
        v.incoming_predicate_id == c.incoming_predicate_id,
        v.i != 0 ==> v.u.X[0] == hash_of::<E>()(
            seq![v.pp_digest, v.i] + v.z0 + v.zi + folded_instance_elements::<E>(v.U) + seq![v.ri, v.trace_digest_in],
        ) % (pow2(250) as int),
        verified::<E>(c.s, v.pp_digest, c.incoming_predicate_id, v.U, v.u, v.nifs) is Some,
        v.i != 0 ==> stepped::<E>(c, v) == verified::<E>(c.s, v.pp_digest, c.incoming_predicate_id, v.U, v.u, v.nifs),
        v.i == 0 && c.is_primary_circuit ==> stepped::<E>(c, v) == Some(empty_instance(c.s)),
        v.i == 0 && !c.is_primary_circuit ==> stepped::<E>(c, v) == Some(
            started_instance(c.s, c.incoming_predicate_id, v.u, v.w_eval, E::Base::modulus()),
        ),
{
}

/// The first step is not rejected for its hash, whatever its instance holds.
pub proof fn first_step_reads_any_hash<E: CurveEngine>(c: CircuitView, v: StepView)
    requires
        v.i == 0,
        v.local_predicate_id == c.step_predicate_id,
        v.incoming_predicate_id == c.incoming_predicate_id,
    ensures
        stepped::<E>(c, v) is Some <==> verified::<E>(c.s, v.pp_digest, c.incoming_predicate_id, v.U, v.u, v.nifs) is Some,
{
}

/// What a step makes public determines what is handed on, as far as the hash determines what it hashes: what is hashed for
/// two steps is the same only where the digests of the parameters, the counters, the states, the folded instances, the
/// blindings and the digests of the traces are.
pub proof fn hashed_parts_are_determined<E: CurveEngine>(v: StepView, w: StepView)
    requires
        v.z0.len() == w.z0.len(),
        v.zi.len() == w.zi.len(),
        v.U.X.len() == w.U.X.len(),
        v.U.r_x.len() == w.U.r_x.len(),
        v.U.r_y.len() == w.U.r_y.len(),
        v.U.v.len() == w.U.v.len(),
        v.U.lambda.len() == w.U.lambda.len(),
        seq![v.pp_digest, v.i] + v.z0 + v.zi + folded_instance_elements::<E>(v.U) + seq![v.ri, v.trace_digest_in]
            == seq![w.pp_digest, w.i] + w.z0 + w.zi + folded_instance_elements::<E>(w.U) + seq![w.ri, w.trace_digest_in],
    ensures
        v.pp_digest == w.pp_digest,
        v.i == w.i,
        v.z0 == w.z0,
        v.zi == w.zi,
        v.ri == w.ri,
        v.trace_digest_in == w.trace_digest_in,
        E::multiple(v.U.comm_W) == E::multiple(w.U.comm_W),
        v.U.lambda == w.U.lambda,
        v.U.u == w.U.u,
        v.U.X == w.U.X,
        v.U.r_x == w.U.r_x,
        v.U.r_y == w.U.r_y,
        v.U.v == w.U.v,
{
    let (a1, a2) = (seq![v.pp_digest, v.i], seq![w.pp_digest, w.i]);
    let (b1, b2) = (a1 + v.z0, a2 + w.z0);
    let (c1, c2) = (b1 + v.zi, b2 + w.zi);
    let (u1, u2) = (folded_instance_elements::<E>(v.U), folded_instance_elements::<E>(w.U));
    let (e1, e2) = (seq![v.ri, v.trace_digest_in], seq![w.ri, w.trace_digest_in]);
    assert(u1.len() == u2.len());
    lemma_parts(c1 + u1, e1, c2 + u2, e2);
    lemma_parts(c1, u1, c2, u2);
    lemma_parts(b1, v.zi, b2, w.zi);
    lemma_parts(a1, v.z0, a2, w.z0);
    assert(a1[0] == a2[0] && a1[1] == a2[1] && e1[0] == e2[0] && e1[1] == e2[1]);
    absorbed_folded_instance_is_determined::<E>(v.U, w.U);
}

/// The layout that the circuit of a step leads to from another, and the variables of the next state.
#[verifier::opaque]
pub open spec fn lay_step<E: CircuitEngine, PS: PredicateSet<E::Base>>(c: CircuitView, predicates: PS, l: Layout) -> (
    Layout,
    Seq<Variable>,
) {
    let p = E::Base::modulus();
    let s = sizes(c.s);
    let (l1, a) = lay_reads::<E>(l, s, predicates.width() as int, p);
    let (l2, U, is_base, trace) = lay_check_step::<E>(
        l1,
        c.is_primary_circuit,
        s,
        corners(c.s, c.incoming_predicate_id, p),
        a,
        p,
    );
    let (l3, i_new) = lay_add_const(l2, a.i, 1);
    let (l4, z) = lay_select_all(l3, a.z0, a.zi, is_base, p, a.z0.len() as int);
    let (l5, out) = predicates.lays(c.step_predicate_id, l4, z);
    let (l6, hash) = lay_hash_check::<E>(l5, a.pp_digest, i_new, a.z0, out, U, a.r_next, trace, p);
    (lay_inputize(lay_inputize(l6, a.u.X[1]), hash), out)
}

/// Circuits of steps that check against structures of the same sizes have the same layout; those over the second curve,
/// where the matrices of the incoming predicates have the same first entries.
pub proof fn layout_depends_on_sizes<E: CircuitEngine, PS: PredicateSet<E::Base>>(
    c: CircuitView,
    d: CircuitView,
    predicates: PS,
    l: Layout,
)
    requires
        c.is_primary_circuit == d.is_primary_circuit,
        c.step_predicate_id == d.step_predicate_id,
        sizes(c.s) == sizes(d.s),
        c.is_primary_circuit || corners(c.s, c.incoming_predicate_id, E::Base::modulus()) == corners(
            d.s,
            d.incoming_predicate_id,
            E::Base::modulus(),
        ),
    ensures
        lay_step::<E, PS>(c, predicates, l) == lay_step::<E, PS>(d, predicates, l),
{
    reveal(lay_step);
    reveal(lay_check_step);
}

/// The hash that stands for all that a step hands on; the commitment has to be on the curve.
fn synthesize_hash_check<E: CircuitEngine>(
    cs: &mut ConstraintSystem<E::Base>,
    ro_consts: &<E::RO as RandomOracle<E::Base>>::Constants,
    pp_digest: &AllocatedNum<E::Base>,
    i: &AllocatedNum<E::Base>,
    z0: &Vec<AllocatedNum<E::Base>>,
    zi: &Vec<AllocatedNum<E::Base>>,
    U: &AllocatedFoldedInstance<E>,
    ri: &AllocatedNum<E::Base>,
    trace_digest: &AllocatedNum<E::Base>,
) -> (r: Result<AllocatedNum<E::Base>, SynthesisError>)
    requires
        old(cs)@.wf(),
        pp_digest.within(old(cs)@),
        i.within(old(cs)@),
        all_within(z0@, old(cs)@),
        all_within(zi@, old(cs)@),
        U.within(old(cs)@),
        ri.within(old(cs)@),
        trace_digest.within(old(cs)@),
        z0@.len() + zi@.len() + U.elements().len() + 4 <= MAX_ABSORBED,
    ensures
        r matches Ok(h) ==> (final(cs)@.layout(), h.variable) == lay_hash_check::<E>(
            old(cs)@.layout(),
            pp_digest.variable,
            i.variable,
            wires(z0@),
            wires(zi@),
            U.wires(),
            ri.variable,
            trace_digest.variable,
            E::Base::modulus(),
        ),
        step(old(cs)@, final(cs)@),
        final(cs)@.satisfied() == old(cs)@.satisfied(),
        final(cs).witness == old(cs).witness,
        final(cs)@.inputs == old(cs)@.inputs,
        r is Ok,
        r matches Ok(h) ==> {
            &&& h.within(final(cs)@)
            &&& forall|x: Assignment| #[trigger] final(cs)@.follows(x) ==> U.checked_at(x)
            &&& forall|x: Assignment| #[trigger]
                final(cs)@.follows(x) && U.points_at(x) ==> h.at(x) == step_hash::<E>(
                    pp_digest.at(x),
                    i.at(x),
                    ats(z0@, x),
                    ats(zi@, x),
                    U.at(x),
                    ri.at(x),
                    trace_digest.at(x),
                )
        },
{
    proof {
        reveal(lay_hash_check);
    }
    let ghost before = cs@;
    let mut ro = OracleCircuit::<E>::new();
    ro.absorb(pp_digest);
    ro.absorb(i);
    ro.absorb_all(z0);
    ro.absorb_all(zi);
    match U.absorb_in_ro(cs, &mut ro) {
        Ok(_) => {},
        Err(e) => {
            return Err(e);
        },
    }
    ro.absorb(ri);
    ro.absorb(trace_digest);
    let ghost s1 = cs@;
    let ghost all = ro.state@;
    proof {
        assert(all =~= seq![*pp_digest, *i] + z0@ + zi@ + U.elements() + seq![*ri, *trace_digest]);
        lemma_nums_within(*U, before);
        assert(wires(U.elements()) =~= U.wires().list());
        assert(wires(all) =~= seq![pp_digest.variable, i.variable] + wires(z0@) + wires(zi@) + wires(U.elements())
            + seq![ri.variable, trace_digest.variable]);
        let a = seq![*pp_digest, *i];
        let b = a + z0@;
        let c = b + zi@;
        let d = c + U.elements();
        let e = d + seq![*ri, *trace_digest];
        assert(e =~= all);
        assert(all_within(a, s1));
        assert(all_within(z0@, s1));
        assert(all_within(b, s1));
        assert(all_within(zi@, s1));
        assert(all_within(c, s1));
        assert(all_within(U.elements(), s1));
        assert(all_within(d, s1));
        assert(all_within(e, s1));
    }
    let (hash, _bits) = ro.squeeze_num(cs, ro_consts, NUM_HASH_BITS);
    proof {
        lemma_step_trans(before, s1, cs@);
        assert forall|x: Assignment| #[trigger] cs@.follows(x) implies U.checked_at(x) by {
            assert(s1.follows(x));
        }
        assert forall|x: Assignment| #[trigger] cs@.follows(x) && U.points_at(x) implies hash.at(x) == step_hash::<E>(
            pp_digest.at(x),
            i.at(x),
            ats(z0@, x),
            ats(zi@, x),
            U.at(x),
            ri.at(x),
            trace_digest.at(x),
        ) by {
            lemma_folded_elements(*U, x);
            assert(ats(all, x) =~= seq![pp_digest.at(x), i.at(x)] + ats(z0@, x) + ats(zi@, x) + ats(U.elements(), x) + seq![
                ri.at(x),
                trace_digest.at(x),
            ]);
        }
    }
    Ok(hash)
}

impl<'a, E: CircuitEngine, PS: PredicateSet<E::Base>> KiloNovaAugmentedCircuit<'a, E, PS> {
    /// What the circuit checks against.
    pub open spec fn rules(&self) -> CircuitView {
        CircuitView {
            is_primary_circuit: self.is_primary_circuit,
            s: self.structure@,
            step_predicate_id: self.step_predicate_id as int,
            incoming_predicate_id: self.incoming_predicate_id as int,
        }
    }

    /// What the circuit reads.
    pub open spec fn reads(&self) -> StepView {
        given_step(self.structure@, self.predicate_set.width() as int, self.inputs)
    }

    /// Whether the inputs that are there are long enough.
    pub open spec fn inputs_fit(&self) -> bool {
        self.inputs matches Some(g) ==> {
            &&& g.z0@.len() >= self.predicate_set.width()
            &&& g.zi matches Some(zi) ==> zi@.len() >= self.predicate_set.width()
            &&& g.u matches Some(u) ==> u.X@.len() >= 2
        }
    }

    /// Whether an input is missing that has to be there where values are wanted.
    pub open spec fn inputs_missing(&self) -> bool {
        match self.inputs {
            Some(g) => g.u is None,
            None => true,
        }
    }

    /// The circuit made of its parts.
    pub fn new(
        is_primary_circuit: bool,
        inputs: Option<KiloNovaAugmentedCircuitInputs<E>>,
        predicate_set: &'a PS,
        step_predicate_id: usize,
        incoming_predicate_id: usize,
        ro_consts: &'a <E::RO as RandomOracle<E::Base>>::Constants,
        structure: &'a GlobalStructure<E>,
    ) -> (r: Self)
        ensures
            r.is_primary_circuit == is_primary_circuit,
            r.inputs == inputs,
            r.predicate_set == predicate_set,
            r.step_predicate_id == step_predicate_id,
            r.incoming_predicate_id == incoming_predicate_id,
            r.ro_consts == ro_consts,
            r.structure == structure,
    {
        KiloNovaAugmentedCircuit {
            is_primary_circuit,
            ro_consts,
            structure,
            inputs,
            predicate_set,
            step_predicate_id,
            incoming_predicate_id,
        }
    }
}

/// The inputs behind a reference that may be missing.
pub open spec fn read_inputs<E: CurveEngine>(g: Option<&KiloNovaAugmentedCircuitInputs<E>>) -> Option<
    KiloNovaAugmentedCircuitInputs<E>,
> {
    match g {
        Some(g) => Some(*g),
        None => None,
    }
}

/// What a circuit reads of the step before it.
struct AllocatedStart<E: CurveEngine> {
    pp_digest: AllocatedNum<E::Base>,
    i: AllocatedNum<E::Base>,
    z0: Vec<AllocatedNum<E::Base>>,
    zi: Vec<AllocatedNum<E::Base>>,
    trace_digest_in: AllocatedNum<E::Base>,
    local_predicate_id: AllocatedNum<E::Base>,
    incoming_predicate_id: AllocatedNum<E::Base>,
}

/// New numbers for what a circuit reads of the step before it.
fn alloc_start<E: CircuitEngine>(
    cs: &mut ConstraintSystem<E::Base>,
    g: Option<&KiloNovaAugmentedCircuitInputs<E>>,
    arity: usize,
    Ghost(s): Ghost<StructureView>,
) -> (r: AllocatedStart<E>)
    requires
        old(cs)@.wf(),
    ensures
        ({
            let l = old(cs)@.layout();
            let l1 = l.grown();
            let (l3, z0) = lay_vars(l1.grown(), arity as int);
            let (l4, zi) = lay_vars(l3, arity as int);
            let l5 = l4.grown();
            let l6 = l5.grown();
            &&& final(cs)@.layout() == l6.grown()
            &&& r.pp_digest.variable == l.next()
            &&& r.i.variable == l1.next()
            &&& wires(r.z0@) == z0
            &&& wires(r.zi@) == zi
            &&& r.trace_digest_in.variable == l4.next()
            &&& r.local_predicate_id.variable == l5.next()
            &&& r.incoming_predicate_id.variable == l6.next()
        }),
        step(old(cs)@, final(cs)@),
        final(cs)@.satisfied() == old(cs)@.satisfied(),
        final(cs).witness == old(cs).witness,
        final(cs)@.inputs == old(cs)@.inputs,
        r.pp_digest.within(final(cs)@),
        r.i.within(final(cs)@),
        all_within(r.z0@, final(cs)@),
        all_within(r.zi@, final(cs)@),
        r.trace_digest_in.within(final(cs)@),
        r.local_predicate_id.within(final(cs)@),
        r.incoming_predicate_id.within(final(cs)@),
        r.z0@.len() == arity,
        r.zi@.len() == arity,
        ({
            let v = given_step(s, arity as int, read_inputs(g));
            &&& r.pp_digest.value.val() == v.pp_digest
            &&& r.i.value.val() == v.i
            &&& nvals(r.z0@) == v.z0
            &&& nvals(r.zi@) == v.zi
            &&& r.trace_digest_in.value.val() == v.trace_digest_in
            &&& r.local_predicate_id.value.val() == v.local_predicate_id
            &&& r.incoming_predicate_id.value.val() == v.incoming_predicate_id
        }),
{
    let ghost before = cs@;
    let pp_digest = AllocatedNum::allocate(
        cs,
        &match g {
            Some(g) => E::scalar_as_base(&g.pp_digest),
            None => E::Base::from_u64(0),
        },
    );
    let ghost s1 = cs@;
    let i = AllocatedNum::allocate(
        cs,
        &match g {
            Some(g) => g.i,
            None => E::Base::from_u64(0),
        },
    );
    let ghost s2 = cs@;
    let z0 = alloc_num_vec(
        cs,
        match g {
            Some(g) => Some(&g.z0),
            None => None,
        },
        arity,
    );
    let ghost s3 = cs@;
    let zi = alloc_num_vec(
        cs,
        match g {
            Some(g) => match &g.zi {
                Some(v) => Some(v),
                None => None,
            },
            None => None,
        },
        arity,
    );
    let ghost s4 = cs@;
    let trace_digest_in = AllocatedNum::allocate(
        cs,
        &match g {
            Some(g) => g.trace_digest_in,
            None => E::Base::from_u64(0),
        },
    );
    let ghost s5 = cs@;
    let local_predicate_id = AllocatedNum::allocate(
        cs,
        &match g {
            Some(g) => g.local_predicate_id,
            None => E::Base::from_u64(0),
        },
    );
    let ghost s6 = cs@;
    let incoming_predicate_id = AllocatedNum::allocate(
        cs,
        &match g {
            Some(g) => g.incoming_predicate_id,
            None => E::Base::from_u64(0),
        },
    );
    proof {
        let after = cs@;
        lemma_step_trans(s5, s6, after);
        lemma_step_trans(s4, s5, after);
        lemma_step_trans(s3, s4, after);
        lemma_step_trans(s2, s3, after);
        lemma_step_trans(s1, s2, after);
        lemma_step_trans(before, s1, after);
    }
    AllocatedStart { pp_digest, i, z0, zi, trace_digest_in, local_predicate_id, incoming_predicate_id }
}

/// What a circuit reads of the folded instance.
struct AllocatedRest<E: CurveEngine> {
    U: AllocatedFoldedInstance<E>,
    ri: AllocatedNum<E::Base>,
    r_next: AllocatedNum<E::Base>,
}

/// New numbers for what a circuit reads of the folded instance.
fn alloc_rest<E: CircuitEngine>(
    cs: &mut ConstraintSystem<E::Base>,
    g: Option<&KiloNovaAugmentedCircuitInputs<E>>,
    structure: &GlobalStructure<E>,
    Ghost(arity): Ghost<int>,
) -> (r: Result<AllocatedRest<E>, SynthesisError>)
    requires
        old(cs)@.wf(),
    ensures
        r matches Ok(r) ==> {
            let (l8, U) = lay_folded(old(cs)@.layout(), sizes(structure@), E::Base::modulus());
            let l9 = l8.grown();
            &&& final(cs)@.layout() == l9.grown()
            &&& r.U.wires() == U
            &&& r.ri.variable == l8.next()
            &&& r.r_next.variable == l9.next()
        },
        step(old(cs)@, final(cs)@),
        final(cs)@.satisfied() == old(cs)@.satisfied(),
        final(cs).witness == old(cs).witness,
        final(cs)@.inputs == old(cs)@.inputs,
        r is Ok,
        r matches Ok(r) ==> {
            let v = given_step(structure@, arity, read_inputs(g));
            &&& r.U.within(final(cs)@)
            &&& r.U.shaped(structure@)
            &&& r.ri.within(final(cs)@)
            &&& r.r_next.within(final(cs)@)
            &&& r.U.values() == v.U
            &&& r.ri.value.val() == v.ri
            &&& r.r_next.value.val() == v.r_next
        },
{
    let ghost before = cs@;
    let U = match AllocatedFoldedInstance::allocate(
        cs,
        match g {
            Some(g) => match &g.U {
                Some(v) => Some(v),
                None => None,
            },
            None => None,
        },
        structure,
    ) {
        Ok(a) => a,
        Err(e) => {
            return Err(e);
        },
    };
    let ghost s1 = cs@;
    let ri = AllocatedNum::allocate(
        cs,
        &match g {
            Some(g) => match &g.ri {
                Some(r) => *r,
                None => E::Base::from_u64(0),
            },
            None => E::Base::from_u64(0),
        },
    );
    let ghost s3 = cs@;
    let r_next = AllocatedNum::allocate(
        cs,
        &match g {
            Some(g) => g.r_next,
            None => E::Base::from_u64(0),
        },
    );
    proof {
        let after = cs@;
        lemma_step_trans(s1, s3, after);
        lemma_step_trans(before, s1, after);
    }
    Ok(AllocatedRest { U, ri, r_next })
}

/// What a circuit reads of the incoming instance.
struct AllocatedIncoming<E: CurveEngine> {
    u: AllocatedR1CSInstance<E>,
    w_eval: AllocatedNum<E::Base>,
    nifs: AllocatedNIFS<E>,
}

/// New numbers for what a circuit reads of the incoming instance.
fn alloc_incoming<E: CircuitEngine>(
    cs: &mut ConstraintSystem<E::Base>,
    g: Option<&KiloNovaAugmentedCircuitInputs<E>>,
    structure: &GlobalStructure<E>,
    Ghost(arity): Ghost<int>,
) -> (r: Result<AllocatedIncoming<E>, SynthesisError>)
    requires
        old(cs)@.wf(),
        g matches Some(g) ==> (g.u matches Some(u) ==> u.X@.len() >= 2),
    ensures
        r matches Ok(r) ==> {
            let (l11, u) = lay_instance::<E>(old(cs)@.layout(), E::Base::modulus());
            let (l13, nifs) = lay_nifs(l11.grown(), sizes(structure@).s_max, sizes(structure@).s_prime_max);
            &&& final(cs)@.layout() == l13
            &&& r.u.wires() == u
            &&& r.w_eval.variable == l11.next()
            &&& r.nifs.wires() == nifs
        },
        step(old(cs)@, final(cs)@),
        final(cs)@.satisfied() == old(cs)@.satisfied(),
        final(cs).witness == old(cs).witness,
        final(cs)@.inputs == old(cs)@.inputs,
        r is Err <==> old(cs).witness && match g {
            Some(g) => g.u is None,
            None => true,
        },
        r matches Err(e) ==> e == SynthesisError::AssignmentMissing,
        r matches Ok(r) ==> {
            let v = given_step(structure@, arity, read_inputs(g));
            &&& r.u.within(final(cs)@)
            &&& r.u.X@.len() == 2
            &&& r.w_eval.within(final(cs)@)
            &&& r.nifs.within(final(cs)@)
            &&& r.nifs.shaped(structure@)
            &&& r.u.values() == v.u
            &&& r.w_eval.value.val() == v.w_eval
            &&& r.nifs.values() == v.nifs
            &&& forall|x: Assignment| #[trigger]
                final(cs)@.follows(x) && r.u.comm_W.is_infinity.at(x) == 0 ==> r.u.comm_W.is_point_at(x)
        },
{
    let ghost before = cs@;
    let u = match AllocatedR1CSInstance::allocate(
        cs,
        match g {
            Some(g) => match &g.u {
                Some(v) => Some(v),
                None => None,
            },
            None => None,
        },
    ) {
        Ok(a) => a,
        Err(e) => {
            return Err(e);
        },
    };
    let ghost s1 = cs@;
    let w_eval = AllocatedNum::allocate(
        cs,
        &match g {
            Some(g) => match &g.w {
                Some(w) => if w.len() > 0 {
                    w[0]
                } else {
                    E::Base::from_u64(0)
                },
                None => E::Base::from_u64(0),
            },
            None => E::Base::from_u64(0),
        },
    );
    let ghost s2 = cs@;
    let nifs = match AllocatedNIFS::allocate(
        cs,
        match g {
            Some(g) => match &g.nifs {
                Some(v) => Some(&v.rounds),
                None => None,
            },
            None => None,
        },
        &structure.index,
    ) {
        Ok(a) => a,
        Err(e) => {
            return Err(e);
        },
    };
    proof {
        let after = cs@;
        lemma_step_trans(s1, s2, after);
        lemma_step_trans(before, s1, after);
        assert forall|x: Assignment| #[trigger]
            after.follows(x) && u.comm_W.is_infinity.at(x) == 0 implies u.comm_W.is_point_at(x) by {
            assert(s1.follows(x));
        }
    }
    Ok(AllocatedIncoming { u, w_eval, nifs })
}

impl<'a, E: CircuitEngine, PS: PredicateSet<E::Base>> KiloNovaAugmentedCircuit<'a, E, PS> {
    /// New numbers for all that the circuit reads.
    fn alloc_witness(&self, cs: &mut ConstraintSystem<E::Base>, arity: usize) -> (r: Result<
        AllocatedStep<E>,
        SynthesisError,
    >)
        requires
            old(cs)@.wf(),
            arity == self.predicate_set.width(),
            self.inputs_fit(),
        ensures
            r matches Ok(a) ==> (final(cs)@.layout(), a.wires()) == lay_reads::<E>(
                old(cs)@.layout(),
                sizes(self.structure@),
                arity as int,
                E::Base::modulus(),
            ),
            step(old(cs)@, final(cs)@),
            final(cs)@.satisfied() == old(cs)@.satisfied(),
            final(cs).witness == old(cs).witness,
            final(cs)@.inputs == old(cs)@.inputs,
            r is Err <==> old(cs).witness && self.inputs_missing(),
            r matches Err(e) ==> e == SynthesisError::AssignmentMissing,
            r matches Ok(a) ==> {
                &&& a.within(final(cs)@)
                &&& a.shaped(self.structure@, arity as nat)
                &&& a.values() == self.reads()
                &&& forall|x: Assignment| #[trigger]
                    final(cs)@.follows(x) && a.u.comm_W.is_infinity.at(x) == 0 ==> a.u.comm_W.is_point_at(x)
            },
    {
        proof {
            reveal(lay_reads);
        }
        let ghost before = cs@;
        let g: Option<&KiloNovaAugmentedCircuitInputs<E>> = match &self.inputs {
            Some(g) => Some(g),
            None => None,
        };
        assert(read_inputs(g) == self.inputs);
        let start = alloc_start(cs, g, arity, Ghost(self.structure@));
        let ghost s1 = cs@;
        let rest = match alloc_rest(cs, g, self.structure, Ghost(arity as int)) {
            Ok(a) => a,
            Err(e) => {
                return Err(e);
            },
        };
        let ghost s2 = cs@;
        proof {
            lemma_step_trans(before, s1, s2);
        }
        let incoming = match alloc_incoming(cs, g, self.structure, Ghost(arity as int)) {
            Ok(a) => a,
            Err(e) => {
                proof {
                    lemma_step_trans(before, s2, cs@);
                }
                return Err(e);
            },
        };
        proof {
            lemma_step_trans(before, s2, cs@);
            lemma_step_trans(s1, s2, cs@);
        }
        let r = AllocatedStep {
            pp_digest: start.pp_digest,
            i: start.i,
            z0: start.z0,
            zi: start.zi,
            trace_digest_in: start.trace_digest_in,
            local_predicate_id: start.local_predicate_id,
            incoming_predicate_id: start.incoming_predicate_id,
            U: rest.U,
            ri: rest.ri,
            r_next: rest.r_next,
            u: incoming.u,
            w_eval: incoming.w_eval,
            nifs: incoming.nifs,
        };
        Ok(r)
    }
}

/// The numbers of a step stay numbers of the system.
proof fn lemma_step_within<E: CircuitEngine>(a: AllocatedStep<E>, before: CsView, after: CsView)
    requires
        a.within(before),
        step(before, after),
    ensures
        a.within(after),
{
    lemma_folded_within(a.U, before, after);
    lemma_nifs_within(a.nifs, before, after);
}

/// Where an assignment agrees with the values given, it gives a step its values.
proof fn lemma_step_ats<E: CircuitEngine>(a: AllocatedStep<E>, cs: CsView, x: Assignment)
    requires
        a.within(cs),
        cs.agrees(x),
    ensures
        a.at(x) == a.values(),
        a.points_at(x),
{
    lemma_at(a.pp_digest, cs, x);
    lemma_at(a.i, cs, x);
    lemma_ats(a.z0@, cs, x);
    lemma_ats(a.zi@, cs, x);
    lemma_at(a.trace_digest_in, cs, x);
    lemma_at(a.local_predicate_id, cs, x);
    lemma_at(a.incoming_predicate_id, cs, x);
    lemma_folded_ats(a.U, cs, x);
    lemma_at(a.ri, cs, x);
    lemma_at(a.r_next, cs, x);
    lemma_instance_ats(a.u, cs, x);
    lemma_at(a.w_eval, cs, x);
    lemma_nifs_ats(a.nifs, cs, x);
}

impl<'a, E: CircuitEngine, PS: PredicateSet<E::Base>> KiloNovaAugmentedCircuit<'a, E, PS> {
    /// Whether the circuit can be synthesized: the predicates exist, and the sizes are those of a step.
    pub open spec fn wf(&self) -> bool {
        &&& self.structure.wf()
        &&& self.incoming_predicate_id < self.structure@.len()
        &&& self.structure@.num_io == 2
        &&& self.structure@.len() <= 0x2000_0000
        &&& self.predicate_set.width() <= 0x2000_0000
        &&& self.inputs_fit()
    }

    /// The folded instance that the first step starts from.
    fn synthesize_base_case(
        &self,
        cs: &mut ConstraintSystem<E::Base>,
        u: &AllocatedR1CSInstance<E>,
        w_eval: &AllocatedNum<E::Base>,
    ) -> (r: Result<AllocatedFoldedInstance<E>, SynthesisError>)
        requires
            old(cs)@.wf(),
            self.wf(),
            u.within(old(cs)@),
            u.X@.len() == 2,
            w_eval.within(old(cs)@),
        ensures
            r matches Ok(a) ==> (final(cs)@.layout(), a.wires()) == if self.is_primary_circuit {
                lay_folded(old(cs)@.layout(), sizes(self.structure@), E::Base::modulus())
            } else {
                lay_started(
                    old(cs)@.layout(),
                    sizes(self.structure@),
                    corners(self.structure@, self.incoming_predicate_id as int, E::Base::modulus()),
                    u.wires(),
                    w_eval.variable,
                )
            },
            step(old(cs)@, final(cs)@),
            final(cs)@.satisfied() == old(cs)@.satisfied(),
            final(cs).witness == old(cs).witness,
            final(cs)@.inputs == old(cs)@.inputs,
            r is Ok,
            r matches Ok(a) ==> {
                &&& a.within(final(cs)@)
                &&& a.shaped(self.structure@)
                &&& forall|x: Assignment| #[trigger]
                    final(cs)@.follows(x) && final(cs)@.keeps(x) && u.comm_W.is_point_at(x) ==> a.points_at(x) && a.at(x)
                        == if self.is_primary_circuit {
                        empty_instance(self.structure@)
                    } else {
                        started_instance(
                            self.structure@,
                            self.incoming_predicate_id as int,
                            u.at(x),
                            w_eval.at(x),
                            E::Base::modulus(),
                        )
                    }
            },
    {
        if self.is_primary_circuit {
            AllocatedFoldedInstance::default(cs, self.structure)
        } else {
            let r = AllocatedFoldedInstance::from_r1cs_instance_witness(
                cs,
                self.structure,
                self.incoming_predicate_id,
                u,
                w_eval,
            );
            proof {
                let a = r->Ok_0;
                assert forall|x: Assignment| #[trigger]
                    cs@.follows(x) && cs@.keeps(x) && u.comm_W.is_point_at(x) implies a.points_at(x) && a.at(x) == started_instance(
                    self.structure@,
                    self.incoming_predicate_id as int,
                    u.at(x),
                    w_eval.at(x),
                    E::Base::modulus(),
                ) by {
                    assert(cs@.follows(x));
                }
            }
            r
        }
    }

    /// The predicate of a step has to be that of the circuit.
    fn check_local(&self, cs: &mut ConstraintSystem<E::Base>, local_predicate_id: &AllocatedNum<E::Base>)
        requires
            old(cs)@.wf(),
            local_predicate_id.within(old(cs)@),
        ensures
            final(cs)@.layout() == lay_local(old(cs)@.layout(), local_predicate_id.variable, E::Base::modulus()),
            step(old(cs)@, final(cs)@),
            final(cs).witness == old(cs).witness,
            final(cs)@.inputs == old(cs)@.inputs,
            final(cs)@.satisfied() == (old(cs)@.satisfied() && local_predicate_id.value.val()
                == self.step_predicate_id),
            forall|x: Assignment| #[trigger]
                final(cs)@.honors(x) ==> local_predicate_id.at(x) == self.step_predicate_id,
    {
        proof {
            reveal(lay_local);
        }
        let ghost before = cs@;
        let expected = AllocatedNum::allocate(cs, &E::Base::from_u64(self.step_predicate_id as u64));
        let ghost s1 = cs@;
        cs.fix(expected.variable, Ghost(self.step_predicate_id as int));
        let ghost s2 = cs@;
        proof {
            lemma_step_trans(before, s1, s2);
        }
        let matching = alloc_num_equals(cs, local_predicate_id, &expected);
        let ghost s3 = cs@;
        assert_true(cs, &matching);
        proof {
            lemma_step_trans(before, s2, s3);
            lemma_step_trans(before, s3, cs@);
            lemma_step_trans(s2, s3, cs@);
            lemma_own_agrees(s3);
            let own = s3.own();
            lemma_own(matching.num, s3);
            lemma_at(*local_predicate_id, s3, own);
            lemma_at(expected, s3, own);
            assert forall|x: Assignment| #[trigger] cs@.honors(x) implies local_predicate_id.at(x)
                == self.step_predicate_id by {
                assert(s3.holds(x) && s3.follows(x));
                assert(s2.keeps(x));
            }
        }
    }

    /// Checks what the step before says of itself, and folds its instance: returned are the next folded instance,
    /// whether this is the first step, and the next digest of the trace.
    #[verifier::rlimit(80)]
    fn check_step(&self, cs: &mut ConstraintSystem<E::Base>, a: &AllocatedStep<E>) -> (r: Result<
        (AllocatedFoldedInstance<E>, AllocatedBit<E::Base>, AllocatedNum<E::Base>),
        SynthesisError,
    >)
        requires
            old(cs)@.wf(),
            self.wf(),
            a.within(old(cs)@),
            a.shaped(self.structure@, self.predicate_set.width()),
        ensures
            r matches Ok(r) ==> (final(cs)@.layout(), r.0.wires(), r.1.num.variable, r.2.variable) == lay_check_step::<E>(
                old(cs)@.layout(),
                self.is_primary_circuit,
                sizes(self.structure@),
                corners(self.structure@, self.incoming_predicate_id as int, E::Base::modulus()),
                a.wires(),
                E::Base::modulus(),
            ),
            r matches Ok(r) ==> r.0.values() == advanced::<E>(self.rules(), a.values()),
            step(old(cs)@, final(cs)@),
            final(cs).witness == old(cs).witness,
            final(cs)@.inputs == old(cs)@.inputs,
            final(cs)@.satisfied() == (old(cs)@.satisfied() && stepped::<E>(self.rules(), a.values()) is Some),
            r is Ok,
            r matches Ok(r) ==> {
                &&& r.0.within(final(cs)@)
                &&& r.0.shaped(self.structure@)
                &&& r.1.within(final(cs)@)
                &&& r.2.within(final(cs)@)
                &&& forall|x: Assignment| #[trigger]
                    final(cs)@.honors(x) && a.points_at(x) ==> r.0.points_at(x) && stepped::<E>(self.rules(), a.at(x))
                        == Some(r.0.at(x))
                &&& forall|x: Assignment| #[trigger]
                    final(cs)@.follows(x) ==> {
                        &&& (r.1.at(x) == 1) == (a.i.at(x) == 0)
                        &&& a.U.checked_at(x)
                        &&& r.2.at(x) == trace_step(
                            a.trace_digest_in.at(x),
                            if self.is_primary_circuit {
                                a.local_predicate_id.at(x)
                            } else {
                                a.incoming_predicate_id.at(x)
                            },
                            E::Base::modulus(),
                        )
                    }
            },
    {
        proof {
            reveal(lay_check_step);
        }
        let ghost before = cs@;
        let ghost c = self.rules();
        proof {
            lemma_small_exponent(self.structure@.s_max);
            lemma_small_exponent(self.structure@.s_prime_max);
        }
        self.check_local(cs, &a.local_predicate_id);
        let ghost s1 = cs@;
        let zero = alloc_zero(cs);
        let ghost s2 = cs@;
        proof {
            lemma_step_trans(before, s1, s2);
            lemma_step_within(*a, before, s2);
        }
        let is_base = alloc_num_equals(cs, &a.i, &zero);
        let ghost s3 = cs@;
        proof {
            lemma_step_trans(before, s2, s3);
            lemma_step_within(*a, before, s3);
        }
        let hash = match synthesize_hash_check(
            cs,
            self.ro_consts,
            &a.pp_digest,
            &a.i,
            &a.z0,
            &a.zi,
            &a.U,
            &a.ri,
            &a.trace_digest_in,
        ) {
            Ok(h) => h,
            Err(e) => {
                return Err(e);
            },
        };
        let ghost s4 = cs@;
        proof {
            lemma_step_trans(before, s3, s4);
            lemma_step_within(*a, before, s4);
            assert(a.u.X@[0].within(s4));
        }
        let check_hash = alloc_num_equals(cs, &a.u.X[0], &hash);
        let ghost s5 = cs@;
        proof {
            lemma_step_trans(before, s4, s5);
            lemma_step_within(*a, before, s5);
        }
        let U_base = match self.synthesize_base_case(cs, &a.u, &a.w_eval) {
            Ok(u) => u,
            Err(e) => {
                return Err(e);
            },
        };
        let ghost s6 = cs@;
        proof {
            lemma_step_trans(before, s5, s6);
            lemma_step_within(*a, before, s6);
        }
        let U_non_base = match a.U.fold_with_r1cs_holographic(
            cs,
            &a.pp_digest,
            self.structure,
            self.incoming_predicate_id,
            &a.incoming_predicate_id,
            &a.u,
            &a.nifs,
            self.ro_consts,
        ) {
            Ok(u) => u,
            Err(e) => {
                return Err(e);
            },
        };
        let ghost s7 = cs@;
        proof {
            lemma_step_trans(before, s6, s7);
            lemma_step_within(*a, before, s7);
        }
        let selector = if self.is_primary_circuit {
            a.local_predicate_id
        } else {
            a.incoming_predicate_id
        };
        let trace = update_trace_digest_circuit(cs, &a.trace_digest_in, &selector);
        let ghost s8 = cs@;
        proof {
            lemma_step_trans(s3, s4, s5);
            lemma_step_trans(s3, s5, s6);
            lemma_step_trans(s3, s6, s7);
            lemma_step_trans(s3, s7, s8);
            lemma_step_trans(s5, s6, s7);
            lemma_step_trans(s5, s7, s8);
        }
        let neither = nor(cs, &check_hash, &is_base);
        let ghost s9 = cs@;
        assert_false(cs, &neither);
        let ghost s10 = cs@;
        proof {
            lemma_step_trans(s8, s9, s10);
            lemma_step_trans(s7, s8, s10);
            lemma_step_trans(s6, s7, s10);
            lemma_step_trans(s3, s8, s10);
            lemma_folded_within(U_base, s6, s10);
            lemma_folded_within(U_non_base, s7, s10);
        }
        let U_new = match U_base.conditionally_select(cs, &U_non_base, &is_base) {
            Ok(u) => u,
            Err(e) => {
                return Err(e);
            },
        };
        proof {
            let after = cs@;
            lemma_step_trans(before, s7, s10);
            lemma_step_trans(before, s10, after);
            lemma_step_trans(s8, s10, after);
            lemma_step_trans(s3, s10, after);
            lemma_step_trans(s9, s10, after);
            lemma_step_trans(s7, s10, after);
            lemma_step_trans(s6, s10, after);
            lemma_step_trans(s5, s8, after);
            lemma_step_trans(s4, s5, after);
            lemma_step_trans(s1, s2, s3);
            lemma_step_trans(s1, s3, after);
            lemma_step_trans(s2, s3, after);
            lemma_own_agrees(after);
            lemma_own_keeps(after);
            let last = after.own();
            lemma_step_within(*a, before, after);
            lemma_step_ats(*a, after, last);
            lemma_folded_ats(U_new, after, last);
            assert(s7.follows(last) && s6.follows(last) && s7.keeps(last) && s6.keeps(last) && s3.follows(last)
                && s2.follows(last) && after.follows(last));
            assert(U_new.at(last) == advanced::<E>(c, a.at(last)));
            assert forall|x: Assignment| #[trigger] after.honors(x) && a.points_at(x) implies U_new.points_at(x)
                && stepped::<E>(c, a.at(x)) == Some(U_new.at(x)) by {
                assert(s10.holds(x) && s9.holds(x) && s7.holds(x) && s6.holds(x) && s1.holds(x));
                assert(s7.keeps(x) && s6.keeps(x) && s1.keeps(x));
                assert(s7.honors(x) && s6.honors(x) && s1.honors(x));
                assert(after.follows(x) && s9.follows(x) && s5.follows(x) && s4.follows(x) && s3.follows(x)
                    && s2.follows(x));
                assert(a.u.X@[0].at(x) == a.at(x).u.X[0]);
            }
            assert forall|x: Assignment| #[trigger] after.follows(x) implies {
                &&& (is_base.at(x) == 1) == (a.i.at(x) == 0)
                &&& trace.at(x) == trace_step(
                    a.trace_digest_in.at(x),
                    if self.is_primary_circuit {
                        a.local_predicate_id.at(x)
                    } else {
                        a.incoming_predicate_id.at(x)
                    },
                    E::Base::modulus(),
                )
            } by {
                assert(s8.follows(x) && s3.follows(x) && s2.follows(x));
            }
            // The values given.
            let own = s9.own();
            lemma_own_agrees(s9);
            lemma_step_trans(s7, s8, s9);
            lemma_step_trans(before, s7, s9);
            lemma_step_within(*a, before, s9);
            lemma_step_ats(*a, s9, own);
            lemma_own(neither.num, s9);
            assert(s5.follows(own) && s4.follows(own) && s3.follows(own) && s2.follows(own));
            assert(a.u.X@[0].at(own) == a.at(own).u.X[0]);
        }
        Ok((U_new, is_base, trace))
    }
}

impl<'a, E: CircuitEngine, PS: PredicateSet<E::Base>> KiloNovaAugmentedCircuit<'a, E, PS> {
    /// What the constraints of a step ask of an assignment that keeps the constants and gives points to the
    /// commitments: the step is not rejected, its predicate takes the state to the next one, and the two public
    /// values from the index on are the second value of the incoming instance and the hash of what the step hands on.
    pub open spec fn enforces(&self, a: AllocatedStep<E>, out: Seq<AllocatedNum<E::Base>>, n: int, cs: CsView) -> bool {
        forall|x: Assignment| #[trigger]
            cs.honors(x) && a.points_at(x) ==> {
                let v = a.at(x);
                let next = stepped::<E>(self.rules(), v);
                &&& next is Some
                &&& self.predicate_set.allows(self.step_predicate_id as int, step_state(v), ats(out, x))
                &&& x.inputs[n] == v.u.X[1]
                &&& x.inputs[n + 1] == step_output::<E>(self.rules(), v, next->0, ats(out, x))
            }
    }

    /// Whether the values given satisfy the constraints of a step.
    pub open spec fn satisfiable(&self) -> bool {
        &&& stepped::<E>(self.rules(), self.reads()) is Some
        &&& self.predicate_set.solves(self.step_predicate_id as int, step_state(self.reads()))
    }

    /// Whether a system is one on which the circuit was synthesized: unless the predicates fail, its constraints are
    /// those of a step.
    pub open spec fn synthesized(&self, cs: CsView) -> bool {
        &&& cs.wf()
        &&& cs.p == E::Base::modulus()
        &&& cs.inputs.len() >= 1
        &&& self.predicate_set.total() ==> {
            &&& cs.inputs.len() == 3 + self.predicate_set.publishes(self.step_predicate_id as int)
            &&& exists|a: AllocatedStep<E>, out: Seq<AllocatedNum<E::Base>>|
                a.within(cs) && a.shaped(self.structure@, self.predicate_set.width()) && out.len()
                    == self.predicate_set.width() && #[trigger] self.enforces(a, out, cs.inputs.len() - 2, cs)
        }
    }

    /// The layout that the circuit leads to from another, and the variables of the next state.
    pub open spec fn lays(&self, l: Layout) -> (Layout, Seq<Variable>) {
        lay_step::<E, PS>(self.rules(), *self.predicate_set, l)
    }

    /// Adds the constraints of the step to a system: returned are what the step reads, and the next state.
    #[verifier::rlimit(80)]
    pub fn synthesize_step(&self, cs: &mut ConstraintSystem<E::Base>) -> (r: Result<
        (AllocatedStep<E>, Vec<AllocatedNum<E::Base>>),
        SynthesisError,
    >)
        requires
            old(cs)@.wf(),
            self.wf(),
        ensures
            r matches Err(e) ==> old(cs).witness && self.inputs_missing() || self.predicate_set.fails(
                self.step_predicate_id as int,
                step_state(self.reads()),
                e,
            ),
            r matches Ok((_, out)) ==> {
                let n = final(cs)@.inputs.len() - 2;
                &&& (final(cs)@.layout(), wires(out@)) == self.lays(old(cs)@.layout())
                &&& old(cs)@.layout() == bare_layout() ==> first_is_free(final(cs)@.layout()) && final(cs)@.aux.len() > 0
                &&& self.predicate_set.yields(self.step_predicate_id as int, step_state(self.reads()), nvals(out@))
                &&& final(cs)@.inputs[n + 1] == step_output::<E>(
                    self.rules(),
                    self.reads(),
                    advanced::<E>(self.rules(), self.reads()),
                    nvals(out@),
                )
                &&& ({
                    let (v, p) = (self.reads(), E::Base::modulus());
                    let id = if self.is_primary_circuit {
                        v.local_predicate_id
                    } else {
                        v.incoming_predicate_id
                    };
                    let t = v.trace_digest_in + id + 1;
                    final(cs)@.inputs[n + 1] == hash_of::<E>()(
                        seq![v.pp_digest, (v.i + 1) % p] + v.z0 + nvals(out@) + folded_instance_elements::<E>(
                            advanced::<E>(self.rules(), v),
                        ) + seq![v.r_next, (t * t + id + 1) % p],
                    ) % (pow2(250) as int)
                })
            },
            step(old(cs)@, final(cs)@),
            final(cs).witness == old(cs).witness,
            old(cs).witness && self.inputs_missing() ==> r == Err::<
                (AllocatedStep<E>, Vec<AllocatedNum<E::Base>>),
                SynthesisError,
            >(SynthesisError::AssignmentMissing),
            old(cs).witness && (self.inputs is None || self.inputs->0.u is None) ==> r == Err::<
                (AllocatedStep<E>, Vec<AllocatedNum<E::Base>>),
                SynthesisError,
            >(SynthesisError::AssignmentMissing),
            self.predicate_set.total() && (!old(cs).witness || self.inputs is Some && self.inputs->0.u is Some) ==> r is Ok,
            self.predicate_set.total() && !(old(cs).witness && self.inputs_missing()) ==> r is Ok,
            r matches Ok((a, out)) ==> {
                let n = final(cs)@.inputs.len() - 2;
                &&& a.within(final(cs)@)
                &&& a.shaped(self.structure@, self.predicate_set.width())
                &&& a.values() == self.reads()
                &&& all_within(out@, final(cs)@)
                &&& out@.len() == self.predicate_set.width()
                &&& final(cs)@.constraints.len() > old(cs)@.constraints.len()
                &&& n == old(cs)@.inputs.len() + self.predicate_set.publishes(self.step_predicate_id as int)
                &&& self.enforces(a, out@, n, final(cs)@)
                &&& forall|x: Assignment| #[trigger] final(cs)@.follows(x) ==> a.U.checked_at(x)
                &&& final(cs)@.satisfied() == (old(cs)@.satisfied() && self.satisfiable())
                &&& final(cs)@.inputs[n] == self.reads().u.X[1]
                &&& final(cs)@.satisfied() ==> final(cs)@.inputs[n + 1] == step_output::<E>(
                    self.rules(),
                    self.reads(),
                    stepped::<E>(self.rules(), self.reads())->0,
                    nvals(out@),
                )
                &&& final(cs)@.satisfied() ==> self.predicate_set.allows(
                    self.step_predicate_id as int,
                    step_state(self.reads()),
                    nvals(out@),
                )
            },
    {
        proof {
            reveal(lay_step);
        }
        let ghost before = cs@;
        let ghost c = self.rules();
        let ghost p = E::Base::modulus();
        let arity = self.predicate_set.arity();
        let a = match self.alloc_witness(cs, arity) {
            Ok(a) => a,
            Err(e) => {
                return Err(e);
            },
        };
        let ghost s1 = cs@;
        let (U_new, is_base, trace) = match self.check_step(cs, &a) {
            Ok(r) => r,
            Err(e) => {
                return Err(e);
            },
        };
        let ghost s2 = cs@;
        let one = E::Base::from_u64(1);
        proof {
            lemma_step_trans(before, s1, s2);
            lemma_step_within(a, s1, s2);
        }
        let i_new = a.i.add_const(cs, &one);
        let ghost s3 = cs@;
        proof {
            lemma_step_trans(s1, s2, s3);
            lemma_step_within(a, s1, s3);
        }
        let z_input = conditionally_select_vec(cs, &a.z0, &a.zi, &is_base);
        let ghost s4 = cs@;
        proof {
            lemma_step_trans(s2, s3, s4);
            lemma_step_trans(before, s2, s4);
            lemma_step_trans(s1, s2, s4);
            // The values of the state are those that the step starts from.
            lemma_own_agrees(s4);
            lemma_ats(z_input@, s4, s4.own());
            lemma_step_within(a, s1, s4);
            lemma_step_ats(a, s4, s4.own());
            assert(s2.follows(s4.own()));
            assert(nvals(z_input@) == step_state(a.values()));
        }
        let z_next = match self.predicate_set.synthesize(self.step_predicate_id, cs, &z_input) {
            Ok(z) => z,
            Err(e) => {
                proof {
                    lemma_step_trans(before, s4, cs@);
                }
                return Err(e);
            },
        };
        let ghost s5 = cs@;
        proof {
            lemma_step_trans(before, s4, s5);
            lemma_step_trans(s3, s4, s5);
            lemma_step_trans(s2, s4, s5);
            lemma_step_trans(s1, s4, s5);
            lemma_step_within(a, s1, s5);
            lemma_folded_within(U_new, s2, s5);
            lemma_small_exponent(self.structure@.s_max);
            lemma_small_exponent(self.structure@.s_prime_max);
        }
        let hash_out = match synthesize_hash_check(
            cs,
            self.ro_consts,
            &a.pp_digest,
            &i_new,
            &a.z0,
            &z_next,
            &U_new,
            &a.r_next,
            &trace,
        ) {
            Ok(h) => h,
            Err(e) => {
                return Err(e);
            },
        };
        let ghost s6 = cs@;
        proof {
            lemma_step_trans(s1, s5, s6);
            lemma_step_within(a, s1, s6);
            assert(a.u.X@[1].within(s6));
        }
        a.u.X[1].inputize(cs);
        let ghost s7 = cs@;
        hash_out.inputize(cs);
        proof {
            let after = cs@;
            lemma_step_trans(s6, s7, after);
            lemma_step_trans(s5, s6, after);
            lemma_step_trans(before, s5, after);
            lemma_step_trans(s4, s5, after);
            lemma_step_trans(s3, s4, after);
            lemma_step_trans(s2, s3, after);
            lemma_step_trans(s1, s2, after);
            lemma_step_within(a, s1, after);
            let n = after.inputs.len() - 2;
            assert forall|x: Assignment| #[trigger] after.honors(x) && a.points_at(x) implies {
                let v = a.at(x);
                let next = stepped::<E>(c, v);
                &&& next is Some
                &&& self.predicate_set.allows(self.step_predicate_id as int, step_state(v), ats(z_next@, x))
                &&& x.inputs[n] == v.u.X[1]
                &&& x.inputs[n + 1] == step_output::<E>(c, v, next->0, ats(z_next@, x))
            } by {
                assert(s7.holds(x) && s6.holds(x) && s5.holds(x) && s2.holds(x) && s2.keeps(x));
                assert(s2.honors(x));
                assert(after.follows(x) && s7.follows(x) && s6.follows(x) && s5.follows(x) && s4.follows(x));
                assert(s3.follows(x) && s2.follows(x));
                assert(a.u.X@[1].at(x) == a.at(x).u.X[1]);
                assert(ats(z_input@, x) == step_state(a.at(x)));
            }
            assert(self.enforces(a, z_next@, n, after));
            // The values given, whether or not they satisfy the constraints.
            let last = after.own();
            lemma_own_agrees(after);
            lemma_step_ats(a, after, last);
            lemma_ats(z_next@, after, last);
            lemma_step_trans(s2, s5, s6);
            lemma_step_trans(s2, s6, after);
            lemma_folded_within(U_new, s2, after);
            lemma_folded_ats(U_new, after, last);
            assert(s7.follows(last) && s6.follows(last) && s5.follows(last) && s3.follows(last) && s2.follows(last));
            assert(U_new.points_at(last));
            assert(after.inputs[n + 1] == hash_out.value.val());
            lemma_own(hash_out, s6);
            lemma_at(hash_out, after, last);
            assert(wires(a.z0@).len() == a.z0@.len());
            if before.layout() == bare_layout() {
                reads_leave_first_free::<E>(sizes(self.structure@), self.predicate_set.width() as int, p);
                assert(a.wires().pp_digest == Variable::Aux(0));
                assert(a.pp_digest.within(after));
                assert(s1.layout().constraints == s1.constraints);
                assert(after.aux.len() > 0 && after.constraints[0] == s1.constraints[0] && s1.constraints.len() > 0
                    && after.constraints.len() > 0) by {
                    reveal(CsView::extended_by);
                    reveal(CsView::assigns);
                }
            }
            assert(after.constraints.len() > before.constraints.len()) by {
                reveal(CsView::extended_by);
            }
            assert(a.values().u.X[1] == a.u.X@[1].value.val());
            if after.satisfied() {
                let own = after.own();
                lemma_own_agrees(after);
                lemma_own_keeps(after);
                assert(after.honors(own));
                lemma_step_ats(a, after, own);
                lemma_ats(z_next@, after, own);
            }
        }
        Ok((a, z_next))
    }

    /// Adds the constraints of the step to a system, and returns the next state.
    pub fn synthesize(&self, cs: &mut ConstraintSystem<E::Base>) -> (r: Result<
        Vec<AllocatedNum<E::Base>>,
        SynthesisError,
    >)
        requires
            old(cs)@.wf(),
            self.wf(),
        ensures
            r matches Err(e) ==> old(cs).witness && self.inputs_missing() || self.predicate_set.fails(
                self.step_predicate_id as int,
                step_state(self.reads()),
                e,
            ),
            r matches Ok(out) ==> {
                let n = final(cs)@.inputs.len() - 2;
                &&& (final(cs)@.layout(), wires(out@)) == self.lays(old(cs)@.layout())
                &&& old(cs)@.layout() == bare_layout() ==> first_is_free(final(cs)@.layout()) && final(cs)@.aux.len() > 0
                &&& self.predicate_set.yields(self.step_predicate_id as int, step_state(self.reads()), nvals(out@))
                &&& final(cs)@.inputs[n + 1] == step_output::<E>(
                    self.rules(),
                    self.reads(),
                    advanced::<E>(self.rules(), self.reads()),
                    nvals(out@),
                )
                &&& ({
                    let (v, p) = (self.reads(), E::Base::modulus());
                    let id = if self.is_primary_circuit {
                        v.local_predicate_id
                    } else {
                        v.incoming_predicate_id
                    };
                    let t = v.trace_digest_in + id + 1;
                    final(cs)@.inputs[n + 1] == hash_of::<E>()(
                        seq![v.pp_digest, (v.i + 1) % p] + v.z0 + nvals(out@) + folded_instance_elements::<E>(
                            advanced::<E>(self.rules(), v),
                        ) + seq![v.r_next, (t * t + id + 1) % p],
                    ) % (pow2(250) as int)
                })
            },
            step(old(cs)@, final(cs)@),
            final(cs).witness == old(cs).witness,
            old(cs).witness && self.inputs_missing() ==> r == Err::<Vec<AllocatedNum<E::Base>>, SynthesisError>(
                SynthesisError::AssignmentMissing,
            ),
            self.predicate_set.total() && !(old(cs).witness && self.inputs_missing()) ==> r is Ok,
            r matches Ok(out) ==> {
                let n = final(cs)@.inputs.len() - 2;
                &&& all_within(out@, final(cs)@)
                &&& out@.len() == self.predicate_set.width()
                &&& final(cs)@.constraints.len() > old(cs)@.constraints.len()
                &&& n == old(cs)@.inputs.len() + self.predicate_set.publishes(self.step_predicate_id as int)
                &&& exists|a: AllocatedStep<E>|
                    a.within(final(cs)@) && a.shaped(self.structure@, self.predicate_set.width()) && a.values()
                        == self.reads() && #[trigger] self.enforces(
                        a,
                        out@,
                        n,
                        final(cs)@,
                    )
                &&& final(cs)@.satisfied() == (old(cs)@.satisfied() && self.satisfiable())
                &&& final(cs)@.inputs[n] == self.reads().u.X[1]
                &&& final(cs)@.satisfied() ==> final(cs)@.inputs[n + 1] == step_output::<E>(
                    self.rules(),
                    self.reads(),
                    stepped::<E>(self.rules(), self.reads())->0,
                    nvals(out@),
                )
                &&& final(cs)@.satisfied() ==> self.predicate_set.allows(
                    self.step_predicate_id as int,
                    step_state(self.reads()),
                    nvals(out@),
                )
            },
    {
        match self.synthesize_step(cs) {
            Ok((a, out)) => {
                assert(self.enforces(a, out@, cs@.inputs.len() - 2, cs@));
                Ok(out)
            },
            Err(e) => Err(e),
        }
    }
}

/// What the constraints of a step show: the predicates are those that the circuit is for, an instance after the first
/// step holds the hash of what is handed on to it, the predicate takes the first state in the first step and the last state
/// after it, the second public value of the instance is handed on, and the hash that is made public is that of the next
/// counter, the first and the next state, the folded instance, the next blinding, and the digest of the trace with one
/// predicate more.
pub proof fn enforced_step_is_checked<'a, E: CircuitEngine, PS: PredicateSet<E::Base>>(
    c: KiloNovaAugmentedCircuit<'a, E, PS>,
    a: AllocatedStep<E>,
    out: Seq<AllocatedNum<E::Base>>,
    n: int,
    cs: CsView,
    x: Assignment,
)
    requires
        c.enforces(a, out, n, cs),
        cs.honors(x),
        a.points_at(x),
    ensures
        ({
            let (p, v) = (E::Base::modulus(), a.at(x));
            let U = stepped::<E>(c.rules(), v);
            let id = if c.is_primary_circuit {
                v.local_predicate_id
            } else {
                v.incoming_predicate_id
            };
            let t = v.trace_digest_in + id + 1;
            &&& v.local_predicate_id == c.step_predicate_id
            &&& v.incoming_predicate_id == c.incoming_predicate_id
            &&& v.i != 0 ==> v.u.X[0] == hash_of::<E>()(
                seq![v.pp_digest, v.i] + v.z0 + v.zi + folded_instance_elements::<E>(v.U) + seq![v.ri, v.trace_digest_in],
            ) % (pow2(250) as int)
            &&& v.i == 0 ==> c.predicate_set.allows(c.step_predicate_id as int, v.z0, ats(out, x))
            &&& v.i != 0 ==> c.predicate_set.allows(c.step_predicate_id as int, v.zi, ats(out, x))
            &&& U is Some
            &&& x.inputs[n] == v.u.X[1]
            &&& x.inputs[n + 1] == hash_of::<E>()(
                seq![v.pp_digest, (v.i + 1) % p] + v.z0 + ats(out, x) + folded_instance_elements::<E>(U->0) + seq![
                    v.r_next,
                    (t * t + id + 1) % p,
                ],
            ) % (pow2(250) as int)
        }),
{
    accepted_step_finds_its_hash::<E>(c.rules(), a.at(x));
}

/// The values that a step is given satisfy its constraints only if the fold is accepted, the instance holds the hash of
/// what is handed on, and the predicate can be satisfied on the first state in the first step, and on the last one after it.
pub proof fn satisfiable_step_is_checked<'a, E: CircuitEngine, PS: PredicateSet<E::Base>>(
    c: KiloNovaAugmentedCircuit<'a, E, PS>,
)
    requires
        c.satisfiable(),
    ensures
        ({
            let v = c.reads();
            &&& v.local_predicate_id == c.step_predicate_id
            &&& v.incoming_predicate_id == c.incoming_predicate_id
            &&& v.i != 0 ==> v.u.X[0] == hash_of::<E>()(
                seq![v.pp_digest, v.i] + v.z0 + v.zi + folded_instance_elements::<E>(v.U) + seq![v.ri, v.trace_digest_in],
            ) % (pow2(250) as int)
            &&& v.i == 0 ==> c.predicate_set.solves(c.step_predicate_id as int, v.z0)
            &&& v.i != 0 ==> c.predicate_set.solves(c.step_predicate_id as int, v.zi)
            &&& verified::<E>(c.structure@, v.pp_digest, v.incoming_predicate_id, v.U, v.u, v.nifs) is Some
        }),
{
    accepted_step_finds_its_hash::<E>(c.rules(), c.reads());
}

/// A step is not rejected that takes the predicates that it reads, folds what its verifier accepts, and, after the first
/// step, finds in its instance the hash of what is handed on to it.
pub proof fn checked_step_is_accepted<E: CurveEngine>(c: CircuitView, v: StepView)
    requires
        v.local_predicate_id == c.step_predicate_id,
        v.incoming_predicate_id == c.incoming_predicate_id,
        v.i == 0 || v.u.X[0] == hash_of::<E>()(
            seq![v.pp_digest, v.i] + v.z0 + v.zi + folded_instance_elements::<E>(v.U) + seq![v.ri, v.trace_digest_in],
        ) % (pow2(250) as int),
        verified::<E>(c.s, v.pp_digest, c.incoming_predicate_id, v.U, v.u, v.nifs) is Some,
    ensures
        stepped::<E>(c, v) is Some,
{
}

/// A step reads what it is given: everything of the length that it has to be is read as it is, numbers of the other field
/// by their residues, and what is missing is read as zero.
pub proof fn given_values_are_read<E: CurveEngine>(
    s: StructureView,
    arity: int,
    g: KiloNovaAugmentedCircuitInputs<E>,
)
    requires
        arity >= 0,
        s.num_vars_max >= 0,
    ensures
        ({
            let p = E::Base::modulus();
            let v = given_step::<E>(s, arity, Some(g));
            &&& v.pp_digest == g.pp_digest.val() % p
            &&& v.i == g.i.val()
            &&& g.z0@.len() == arity ==> v.z0 == vals(g.z0@)
            &&& g.zi matches Some(zi) ==> zi@.len() == arity ==> v.zi == vals(zi@)
            &&& g.zi is None ==> v.zi == Seq::new(arity as nat, |k: int| 0int)
            &&& v.trace_digest_in == g.trace_digest_in.val()
            &&& v.local_predicate_id == g.local_predicate_id.val()
            &&& v.incoming_predicate_id == g.incoming_predicate_id.val()
            &&& g.U matches Some(u) ==> u@.lambda.len() == s.len() && u@.X.len() == s.num_io && u@.r_x.len() == s.s_max && u@.r_y.len() == s.s_prime_max
                && u@.v.len() == 4 ==> v.U == u@
            &&& g.U is None ==> v.U == empty_instance(s)
            &&& g.w matches Some(w) ==> w@.len() > 0 ==> v.w_eval == w@[0].val()
            &&& g.w is None ==> v.w_eval == 0
            &&& g.ri matches Some(r) ==> v.ri == r.val()
            &&& g.ri is None ==> v.ri == 0
            &&& v.r_next == g.r_next.val()
            &&& g.u matches Some(u) ==> v.u.comm_W == u@.comm_W && v.u.X.len() == 2 && v.u.X[0] == u@.X[0] % p && v.u.X[1]
                == u@.X[1] % p
            &&& g.u is None ==> v.u.comm_W == 0 && v.u.X == seq![0int, 0int]
            &&& g.nifs matches Some(n) ==> n@.sc_proof_x.point.len() == s.s_max && n@.sc_proof_y.point.len()
                == s.s_prime_max && n@.sc_proof_x.polys.len() == s.s_max && n@.sc_proof_y.polys.len() == s.s_prime_max && (
            forall|i: int| 0 <= i < s.s_max ==> (#[trigger] n@.sc_proof_x.polys[i]).len() == 4) && (forall|i: int|
                0 <= i < s.s_prime_max ==> (#[trigger] n@.sc_proof_y.polys[i]).len() == 3) && n@.sigmas.len() == 3
                && n@.taus.len() == 3 && n@.epsilons.len() == 4 && n@.thetas.len() == 4 ==> v.nifs == n@
        }),
{
    let v = given_step::<E>(s, arity, Some(g));
    if g.z0@.len() == arity {
        assert(v.z0 =~= vals(g.z0@));
    }
    if let Some(zi) = g.zi {
        if zi@.len() == arity {
            assert(v.zi =~= vals(zi@));
        }
    } else {
        assert(v.zi =~= Seq::new(arity as nat, |k: int| 0int));
    }
    if let Some(u) = g.U {
        if u@.lambda.len() == s.len() && u@.X.len() == s.num_io && u@.r_x.len() == s.s_max && u@.r_y.len() == s.s_prime_max && u@.v.len() == 4 {
            lemma_given_instance(s, u@);
        }
    }
    if let Some(n) = g.nifs {
        if n@.sc_proof_x.point.len() == s.s_max && n@.sc_proof_y.point.len() == s.s_prime_max && n@.sc_proof_x.polys.len()
            == s.s_max && n@.sc_proof_y.polys.len() == s.s_prime_max && (forall|i: int|
            0 <= i < s.s_max ==> (#[trigger] n@.sc_proof_x.polys[i]).len() == 4) && (forall|i: int|
            0 <= i < s.s_prime_max ==> (#[trigger] n@.sc_proof_y.polys[i]).len() == 3) && n@.sigmas.len() == 3
            && n@.taus.len() == 3 && n@.epsilons.len() == 4 && n@.thetas.len() == 4 {
            lemma_given_nifs(s, n@);
        }
    }
}

} // verus!
