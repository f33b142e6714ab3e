//! Folding an instance into a folded instance in a constraint system.
use crate::completeness::{lemma_incoming_len, lemma_transcript_points, rows_satisfied, transcript_is_accepted};
use crate::cs::{lemma_own_keeps, lemma_step_trans, step, Assignment, ConstraintSystem, CsView, Variable};
use crate::engine::{CurveEngine, RandomOracle};
use crate::errors::SynthesisError;
use crate::evaluation::lemma_step_refl;
use crate::field::FieldElement;
use crate::fold_circuit::{
    accepted_with_witness, accepted_x, accepted_y, fold_checks, lemma_nifs_within, witness_verifier_is_stricter,
    AllocatedRunning,
};
use crate::fragment::CircuitEngine;
use crate::gadgets::{
    all_within, alloc_one, assert_equal, ats, bit_ats, bit_wires, bits_value, bits_within, lemma_at, lemma_own, wires,
    AllocatedBit, AllocatedNum,
};
use crate::instance_circuit::{
    constant_point, lemma_folded_ats, lemma_folded_within, lemma_instance_ats, lemma_instance_elements,
    lemma_point_elements, AllocatedFoldedInstance, AllocatedIndexWitness, AllocatedProjectedWitness,
    AllocatedR1CSInstance,
};
use crate::math::{lemma_cong_add, lemma_cong_mod};
use crate::mle::reversed;
use crate::nifs::{
    absorbed_inputs, proved, proved_x, proved_y, running, transcript, verified, well_shaped, Accepted, NIFSView,
    Running,
};
use crate::oracle::OracleCircuit;
use crate::points::AllocatedPoint;
use crate::proof_circuit::{accepted_is_reached, lemma_ats, lemma_own_agrees, nvals, reached, AllocatedNIFS};
use crate::r1cs::{InstanceView, WitnessView};
use crate::relation::{
    combined, commitments3_elements, folded_sat, incoming_z, instance_elements, projected, views3, FoldedInstanceView,
    FoldedWitnessView, GlobalStructure, StructureView,
};
use crate::layout::{lay_fold_all, lay_fold_point};
use vstd::arithmetic::power2::pow2;
use vstd::prelude::*;

verus! {

/// What a verifier that knows the witnesses comes to on a fold, unless it rejects.
pub open spec fn verified_with_witness<E: CurveEngine>(
    s: StructureView,
    pp_digest: int,
    id: int,
    u1: FoldedInstanceView,
    w1: Seq<int>,
    lambda: Seq<int>,
    u2: InstanceView,
    w2: Seq<int>,
    proof_: NIFSView,
) -> Option<FoldedInstanceView> {
    let run = Running { lambda, r_x: u1.r_x, r_y: u1.r_y, v: u1.v, z: w1 + seq![u1.u] + u1.X };
    match accepted_with_witness::<E>(
        s,
        absorbed_inputs::<E>(s, pp_digest, id, u2),
        id,
        run,
        w2 + seq![1int] + u2.X,
        proof_,
    ) {
        None => None,
        Some(a) => Some(folded_with::<E>(s, id, u1, u2, proof_, a)),
    }
}

/// The fold of two instances by what a verifier comes to.
pub open spec fn folded_with<E: CurveEngine>(
    s: StructureView,
    id: int,
    u1: FoldedInstanceView,
    u2: InstanceView,
    proof_: NIFSView,
    a: Accepted,
) -> FoldedInstanceView {
    let p = E::Base::modulus();
    let q = E::Scalar::modulus();
    FoldedInstanceView {
        comm_W: (u1.comm_W + u2.comm_W * a.rho) % q,
        comm_M: Seq::new(3, |j: int| (u1.comm_M[j] + s.comm_M[id][j] * a.rho) % q),
        u: (u1.u + a.rho) % p,
        X: combined(u1.X, u2.X, a.rho, p),
        r_x: a.r_x,
        r_y: a.r_y,
        v: combined(proof_.epsilons, proof_.thetas, a.rho, p),
    }
}

/// What the verifier of a fold absorbs first, where it reads the predicate as `id_read`.
pub open spec fn absorbed_as<E: CurveEngine>(s: StructureView, pp_digest: int, id_read: int, id: int, u2: InstanceView) -> Seq<
    int,
> {
    seq![pp_digest % E::Base::modulus(), id_read] + instance_elements::<E>(u2) + commitments3_elements::<E>(s.comm_M[id])
}

/// The folded instance that the verifier comes to, whether or not it accepts; it reads the predicate as `id_read`.
pub open spec fn folded_anyway<E: CurveEngine>(
    s: StructureView,
    pp_digest: int,
    id_read: int,
    id: int,
    u1: FoldedInstanceView,
    u2: InstanceView,
    proof_: NIFSView,
) -> FoldedInstanceView {
    let a = reached::<E>(s, absorbed_as::<E>(s, pp_digest, id_read, id, u2), proof_);
    folded_with::<E>(s, id, u1, u2, proof_, a)
}

/// What a verifier with the witnesses that accepts comes to is what it comes to anyway.
pub proof fn accepted_fold_is_reached<E: CurveEngine>(
    s: StructureView,
    pp_digest: int,
    id: int,
    u1: FoldedInstanceView,
    w1: Seq<int>,
    lambda: Seq<int>,
    u2: InstanceView,
    w2: Seq<int>,
    proof_: NIFSView,
)
    requires
        s.s_max > 0,
        s.s_prime_max > 0,
        well_shaped(s, proof_),
        forall|i: int| 0 <= i < proof_.sc_proof_x.polys.len() ==> (#[trigger] proof_.sc_proof_x.polys[i]).len() == 4,
        forall|i: int| 0 <= i < proof_.sc_proof_y.polys.len() ==> (#[trigger] proof_.sc_proof_y.polys[i]).len() == 3,
    ensures
        verified_with_witness::<E>(s, pp_digest, id, u1, w1, lambda, u2, w2, proof_) matches Some(f) ==> f == folded_anyway::<
            E,
        >(s, pp_digest, id, id, u1, u2, proof_),
{
    let run = Running { lambda, r_x: u1.r_x, r_y: u1.r_y, v: u1.v, z: w1 + seq![u1.u] + u1.X };
    let start = absorbed_inputs::<E>(s, pp_digest, id, u2);
    assert(start == absorbed_as::<E>(s, pp_digest, id, id, u2));
    let z = w2 + seq![1int] + u2.X;
    if accepted_with_witness::<E>(s, start, id, run, z, proof_) is Some {
        witness_verifier_is_stricter::<E>(s, start, id, run, z, proof_);
        accepted_is_reached::<E>(s, start, u1.r_x, u1.r_y, u1.v, proof_);
    }
}

/// Numbers plus multiples of others, over the shorter list.
pub(crate) fn fold_nums<F: FieldElement>(
    cs: &mut ConstraintSystem<F>,
    a: &Vec<AllocatedNum<F>>,
    b: &Vec<AllocatedNum<F>>,
    rho: &AllocatedNum<F>,
) -> (r: Vec<AllocatedNum<F>>)
    requires
        old(cs)@.wf(),
        all_within(a@, old(cs)@),
        all_within(b@, old(cs)@),
        rho.within(old(cs)@),
    ensures
        (final(cs)@.layout(), wires(r@)) == lay_fold_all(old(cs)@.layout(), wires(a@), wires(b@), rho.variable, r@.len() as int),
        step(old(cs)@, final(cs)@),
        final(cs)@.satisfied() == old(cs)@.satisfied(),
        final(cs).witness == old(cs).witness,
        final(cs)@.inputs == old(cs)@.inputs,
        all_within(r@, final(cs)@),
        r@.len() == if a@.len() <= b@.len() {
            a@.len()
        } else {
            b@.len()
        },
        forall|x: Assignment| #[trigger]
            final(cs)@.follows(x) ==> ats(r@, x) == combined(ats(a@, x), ats(b@, x), rho.at(x), F::modulus()),
{
    let ghost before = cs@;
    let ghost p = F::modulus();
    let n: usize = if a.len() <= b.len() {
        a.len()
    } else {
        b.len()
    };
    let mut r: Vec<AllocatedNum<F>> = Vec::new();
    let mut i: usize = 0;
    proof {
        assert(wires(r@) =~= Seq::<Variable>::empty());
        F::modulus_bounds();
        lemma_step_refl(before);
    }
    while i < n
        invariant
            (cs@.layout(), wires(r@)) == lay_fold_all(before.layout(), wires(a@), wires(b@), rho.variable, i as int),
            i <= n <= a.len(),
            n <= b.len(),
            p == F::modulus(),
            p > 1,
            step(before, cs@),
            all_within(a@, before),
            all_within(b@, before),
            rho.within(before),
            cs@.satisfied() == before.satisfied(),
            cs.witness == old(cs).witness,
            cs@.inputs == before.inputs,
            all_within(r@, cs@),
            r@.len() == i,
            forall|x: Assignment, k: int|
                #![trigger cs@.follows(x), r@[k]]
                cs@.follows(x) && 0 <= k < i ==> r@[k].at(x) == (a@[k].at(x) + rho.at(x) * b@[k].at(x)) % p,
        decreases n - i,
    {
        let ghost mid = cs@;
        let ghost first = r@;
        assert(a@[i as int].within(before));
        assert(b@[i as int].within(before));
        let term = rho.mul(cs, &b[i]);
        let ghost s1 = cs@;
        let total = a[i].add(cs, &term);
        r.push(total);
        proof {
            assert(wires(r@) =~= wires(first).push(total.variable));
            lemma_step_trans(mid, s1, cs@);
            lemma_step_trans(before, mid, cs@);
            assert forall|k: int| 0 <= k < r@.len() implies (#[trigger] r@[k]).within(cs@) by {
                if k < i {
                    assert(first[k].within(mid));
                }
            }
            assert forall|x: Assignment, k: int|
                #![trigger cs@.follows(x), r@[k]]
                cs@.follows(x) && 0 <= k < i + 1 implies r@[k].at(x) == (a@[k].at(x) + rho.at(x) * b@[k].at(x)) % p by {
                assert(s1.follows(x) && mid.follows(x));
                if k < i {
                    assert(r@[k] == first[k]);
                } else {
                    let t = rho.at(x) * b@[k].at(x);
                    lemma_cong_mod(t, p);
                    lemma_cong_add(a@[k].at(x), a@[k].at(x), t % p, t, p);
                }
            }
        }
        i = i + 1;
    }
    proof {
        assert forall|x: Assignment| #[trigger] cs@.follows(x) implies ats(r@, x) == combined(
            ats(a@, x),
            ats(b@, x),
            rho.at(x),
            p,
        ) by {
            assert(ats(r@, x) =~= combined(ats(a@, x), ats(b@, x), rho.at(x), p));
        }
    }
    r
}

/// A point plus a multiple of another.
pub(crate) fn fold_point<E: CircuitEngine>(
    cs: &mut ConstraintSystem<E::Base>,
    a: &AllocatedPoint<E>,
    b: &AllocatedPoint<E>,
    bits: &Vec<AllocatedBit<E::Base>>,
) -> (r: AllocatedPoint<E>)
    requires
        old(cs)@.wf(),
        a.within(old(cs)@),
        b.within(old(cs)@),
        bits_within(bits@, old(cs)@),
        0 < bits.len() <= 250,
    ensures
        (final(cs)@.layout(), r.wires()) == lay_fold_point::<E>(old(cs)@.layout(), a.wires(), b.wires(), bit_wires(bits@)),
        step(old(cs)@, final(cs)@),
        final(cs)@.satisfied() == old(cs)@.satisfied(),
        final(cs).witness == old(cs).witness,
        final(cs)@.inputs == old(cs)@.inputs,
        r.within(final(cs)@),
        forall|x: Assignment| #[trigger]
            final(cs)@.follows(x) && a.is_point_at(x) && b.is_point_at(x) ==> r.is_point_at(x) && r.log_at(x) == (
            a.log_at(x) + b.log_at(x) * bits_value(bit_ats(bits@, x), bits@.len() as int)) % E::Scalar::modulus(),
{
    proof {
        reveal(lay_fold_point);
    }
    let ghost before = cs@;
    let ghost q = E::Scalar::modulus();
    let scaled = b.scalar_mul(cs, bits);
    let ghost s1 = cs@;
    let r = a.add(cs, &scaled);
    proof {
        lemma_step_trans(before, s1, cs@);
        E::Scalar::modulus_bounds();
        assert forall|x: Assignment| #[trigger]
            cs@.follows(x) && a.is_point_at(x) && b.is_point_at(x) implies r.is_point_at(x) && r.log_at(x) == (
        a.log_at(x) + b.log_at(x) * bits_value(bit_ats(bits@, x), bits@.len() as int)) % q by {
            assert(s1.follows(x));
            let t = b.log_at(x) * bits_value(bit_ats(bits@, x), bits@.len() as int);
            lemma_cong_mod(t, q);
            lemma_cong_add(a.log_at(x), a.log_at(x), t % q, t, q);
        }
    }
    r
}

/// The vector of a witness, a number and public values.
pub(crate) fn vector_of<F: FieldElement>(w: &Vec<AllocatedNum<F>>, u: &AllocatedNum<F>, X: &Vec<AllocatedNum<F>>) -> (r: Vec<
    AllocatedNum<F>,
>)
    ensures
        r@ == w@ + seq![*u] + X@,
{
    let mut r: Vec<AllocatedNum<F>> = crate::instance_circuit::copy_nums(w);
    r.push(*u);
    let ghost start = r@;
    let mut i: usize = 0;
    while i < X.len()
        invariant
            i <= X.len(),
            r@ == start + X@.take(i as int),
        decreases X.len() - i,
    {
        r.push(X[i]);
        assert(X@.take(i + 1) =~= X@.take(i as int).push(X@[i as int]));
        i = i + 1;
    }
    assert(X@.take(X@.len() as int) =~= X@);
    assert(r@ =~= w@ + seq![*u] + X@);
    r
}

/// The state of an oracle once a system has absorbed the inputs of a fold.
proof fn lemma_start<E: CircuitEngine>(
    s: StructureView,
    id: int,
    params: AllocatedNum<E::Base>,
    id_num: AllocatedNum<E::Base>,
    u: AllocatedR1CSInstance<E>,
    m0: AllocatedPoint<E>,
    m1: AllocatedPoint<E>,
    m2: AllocatedPoint<E>,
    cs: CsView,
    x: Assignment,
)
    requires
        cs.p == E::Base::modulus(),
        cs.follows(x),
        params.within(cs),
        u.within(cs),
        u.comm_W.is_point_at(x),
        m0.is_point_at(x) && m0.log_at(x) == s.comm_M[id][0],
        m1.is_point_at(x) && m1.log_at(x) == s.comm_M[id][1],
        m2.is_point_at(x) && m2.log_at(x) == s.comm_M[id][2],
    ensures
        ats(seq![params, id_num] + u.elements() + m0.nums() + m1.nums() + m2.nums(), x) == absorbed_as::<E>(
            s,
            params.at(x),
            id_num.at(x),
            id,
            u.at(x),
        ),
{
    lemma_instance_elements(u, cs, x);
    lemma_point_elements(m0, x);
    lemma_point_elements(m1, x);
    lemma_point_elements(m2, x);
    lemma_at(params, cs, x);
    vstd::arithmetic::div_mod::lemma_small_mod(params.at(x) as nat, cs.p as nat);
    let parts = seq![params.at(x), id_num.at(x)] + ats(u.elements(), x) + (ats(m0.nums(), x) + ats(m1.nums(), x) + ats(
        m2.nums(),
        x,
    ));
    assert(ats(seq![params, id_num] + u.elements() + m0.nums() + m1.nums() + m2.nums(), x) =~= parts);
}

impl<E: CircuitEngine> AllocatedFoldedInstance<E> {
    /// Folds an instance into this one, given both witnesses and the proof of the fold.
    #[verifier::rlimit(60)]
    pub fn fold_with_r1cs_holographic(
        &self,
        cs: &mut ConstraintSystem<E::Base>,
        params: &AllocatedNum<E::Base>,
        structure: &GlobalStructure<E>,
        predicate_id: usize,
        predicate_id_num: &AllocatedNum<E::Base>,
        u: &AllocatedR1CSInstance<E>,
        running_w: &AllocatedProjectedWitness<E>,
        running_lambda: &AllocatedIndexWitness<E>,
        incoming_w: &AllocatedProjectedWitness<E>,
        nifs: &AllocatedNIFS<E>,
        ro_consts: &<E::RO as RandomOracle<E::Base>>::Constants,
    ) -> (r: Result<Self, SynthesisError>)
        requires
            old(cs)@.wf(),
            structure.wf(),
            predicate_id < structure@.len(),
            self.within(old(cs)@),
            self.shaped(structure@),
            params.within(old(cs)@),
            predicate_id_num.within(old(cs)@),
            u.within(old(cs)@),
            u.X@.len() == 2,
            all_within(running_w.W@, old(cs)@),
            all_within(running_lambda.lambda@, old(cs)@),
            running_lambda.lambda@.len() == structure@.len(),
            all_within(incoming_w.W@, old(cs)@),
            nifs.within(old(cs)@),
            nifs.shaped(structure@),
        ensures
            step(old(cs)@, final(cs)@),
            final(cs).witness == old(cs).witness,
            final(cs)@.inputs == old(cs)@.inputs,
            r is Ok,
            r matches Ok(a) ==> {
                &&& a.within(final(cs)@)
                &&& a.X@.len() == if self.X@.len() <= 2 {
                    self.X@.len()
                } else {
                    2
                }
                &&& a.r_x@.len() == structure@.s_max
                &&& a.r_y@.len() == structure@.s_prime_max
                &&& a.v@.len() == 4
                &&& forall|x: Assignment| #[trigger]
                    final(cs)@.follows(x) && final(cs)@.keeps(x) && self.points_at(x) && u.comm_W.is_point_at(x) ==> {
                        &&& a.points_at(x)
                        &&& a.at(x) == folded_anyway::<E>(
                            structure@,
                            params.at(x),
                            predicate_id_num.at(x),
                            predicate_id as int,
                            self.at(x),
                            u.at(x),
                            nifs.at(x),
                        )
                    }
                &&& forall|x: Assignment| #[trigger]
                    final(cs)@.honors(x) && self.points_at(x) && u.comm_W.is_point_at(x) ==> {
                        &&& predicate_id_num.at(x) == predicate_id
                        &&& a.points_at(x)
                        &&& verified_with_witness::<E>(
                            structure@,
                            params.at(x),
                            predicate_id as int,
                            self.at(x),
                            ats(running_w.W@, x),
                            ats(running_lambda.lambda@, x),
                            u.at(x),
                            ats(incoming_w.W@, x),
                            nifs.at(x),
                        ) == Some(a.at(x))
                    }
            },
            final(cs)@.satisfied() == (old(cs)@.satisfied() && predicate_id_num.value.val() == predicate_id
                && verified_with_witness::<E>(
                structure@,
                params.value.val(),
                predicate_id as int,
                self.values(),
                nvals(running_w.W@),
                nvals(running_lambda.lambda@),
                u.values(),
                nvals(incoming_w.W@),
                nifs.values(),
            ) is Some),
    {
        let ghost before = cs@;
        let ghost p = E::Base::modulus();
        let ghost s = structure@;
        let ghost id = predicate_id as int;
        let expected = AllocatedNum::allocate(cs, &E::Base::from_u64(predicate_id as u64));
        let ghost s1 = cs@;
        cs.fix(expected.variable, Ghost(id));
        let ghost s2 = cs@;
        proof {
            lemma_step_trans(before, s1, s2);
        }
        assert_equal(cs, predicate_id_num, &expected);
        let ghost s3 = cs@;
        let mut ro = OracleCircuit::<E>::new();
        ro.absorb(params);
        ro.absorb(predicate_id_num);
        u.absorb_in_ro(&mut ro);
        let c = structure.predicate_commitments(predicate_id);
        let m0 = constant_point(cs, &c[0]);
        let ghost s4 = cs@;
        let m1 = constant_point(cs, &c[1]);
        let ghost s5 = cs@;
        let m2 = constant_point(cs, &c[2]);
        let ghost s6 = cs@;
        ro.absorb_point(&m0);
        ro.absorb_point(&m1);
        ro.absorb_point(&m2);
        let ghost start = ro.state@;
        let one = alloc_one(cs);
        let ghost s7 = cs@;
        let z_running = vector_of(&running_w.W, &self.u, &self.X);
        let z_new = vector_of(&incoming_w.W, &one, &u.X);
        proof {
            assert(start =~= seq![*params, *predicate_id_num] + u.elements() + m0.nums() + m1.nums() + m2.nums());
            lemma_step_trans(before, s2, s3);
            lemma_step_trans(s5, s6, s7);
            lemma_step_trans(s4, s5, s7);
            lemma_step_trans(s3, s4, s7);
            lemma_step_trans(before, s3, s7);
            lemma_folded_within(*self, before, s7);
            lemma_nifs_within(*nifs, before, s7);
            assert(u.within(s7));
            assert(m0.within(s7) && m1.within(s7) && m2.within(s7));
            assert(all_within(start, s7)) by {
                let ue = u.elements();
                assert(all_within(ue, s7)) by {
                    assert(ue[0] == u.comm_W.x && ue[1] == u.comm_W.y && ue[2] == u.comm_W.is_infinity);
                    assert(u.X@[0].within(s7) && u.X@[1].within(s7));
                    assert(ue[3] == u.X@[0] && ue[4] == u.X@[1]);
                }
                assert forall|i: int| 0 <= i < start.len() implies (#[trigger] start[i]).within(s7) by {
                    if 2 <= i < 7 {
                        assert(start[i] == ue[i - 2]);
                    }
                }
            }
            assert(all_within(z_running@, s7));
            assert(all_within(z_new@, s7));
        }
        let run = AllocatedRunning {
            lambda: &running_lambda.lambda,
            r_x: &self.r_x,
            r_y: &self.r_y,
            v: &self.v,
            z: &z_running,
        };
        let (r_x, r_y, rho, bits) = fold_checks(cs, ro_consts, &mut ro, structure, predicate_id, &run, &z_new, nifs);
        let ghost s8 = cs@;
        proof {
            lemma_step_trans(before, s7, s8);
            lemma_folded_within(*self, before, s8);
            assert(u.comm_W.within(s8));
        }
        let W = fold_point(cs, &self.W, &u.comm_W, &bits);
        let ghost s9 = cs@;
        proof {
            lemma_step_trans(before, s8, s9);
            lemma_folded_within(*self, before, s9);
            lemma_bits_within(bits@, s8, s9);
            lemma_step_trans(s7, s8, s9);
        }
        let M0 = fold_point(cs, &self.M[0], &m0, &bits);
        let ghost s10 = cs@;
        proof {
            lemma_step_trans(before, s9, s10);
            lemma_folded_within(*self, before, s10);
            lemma_bits_within(bits@, s9, s10);
            lemma_step_trans(s7, s9, s10);
        }
        let M1 = fold_point(cs, &self.M[1], &m1, &bits);
        let ghost s11 = cs@;
        proof {
            lemma_step_trans(before, s10, s11);
            lemma_folded_within(*self, before, s11);
            lemma_bits_within(bits@, s10, s11);
            lemma_step_trans(s7, s10, s11);
        }
        let M2 = fold_point(cs, &self.M[2], &m2, &bits);
        let ghost s12 = cs@;
        proof {
            lemma_step_trans(before, s11, s12);
            lemma_step_trans(s8, s9, s10);
            lemma_step_trans(s8, s10, s11);
            lemma_step_trans(s8, s11, s12);
        }
        let u_fold = self.u.add(cs, &rho);
        let ghost s13 = cs@;
        proof {
            lemma_step_trans(before, s12, s13);
            lemma_step_trans(s8, s12, s13);
            lemma_folded_within(*self, before, s13);
            assert(all_within(u.X@, s13));
        }
        let X = fold_nums(cs, &self.X, &u.X, &rho);
        let ghost s14 = cs@;
        proof {
            lemma_step_trans(before, s13, s14);
            lemma_step_trans(s8, s13, s14);
            lemma_nifs_within(*nifs, before, s14);
        }
        let v = fold_nums(cs, &nifs.epsilons, &nifs.thetas, &rho);
        let r = AllocatedFoldedInstance { W, M: [M0, M1, M2], u: u_fold, X, r_x, r_y, v };
        proof {
            let after = cs@;
            lemma_step_trans(before, s14, after);
            lemma_step_trans(s8, s14, after);
            lemma_step_trans(s13, s14, after);
            lemma_step_trans(s12, s13, after);
            lemma_step_trans(s11, s12, after);
            lemma_step_trans(s10, s11, after);
            lemma_step_trans(s9, s10, after);
            lemma_step_trans(s7, s8, after);
            assert(r.within(after));
            assert(views3(c)[0] == c[0]@ && views3(c)[1] == c[1]@ && views3(c)[2] == c[2]@);
            assert(s.comm_M[id].len() == 3);
            assert forall|x: Assignment| #[trigger]
                after.follows(x) && after.keeps(x) && self.points_at(x) && u.comm_W.is_point_at(x) implies {
                &&& r.points_at(x)
                &&& r.at(x) == folded_anyway::<E>(
                    s,
                    params.at(x),
                    predicate_id_num.at(x),
                    id,
                    self.at(x),
                    u.at(x),
                    nifs.at(x),
                )
            } by {
                assert(s14.follows(x) && s13.follows(x) && s12.follows(x) && s11.follows(x) && s10.follows(x));
                assert(s9.follows(x) && s8.follows(x) && s7.follows(x));
                assert(s8.keeps(x) && s7.keeps(x));
                assert(s6.keeps(x) && s5.keeps(x) && s4.keeps(x));
                lemma_start(s, id, *params, *predicate_id_num, *u, m0, m1, m2, s7, x);
                let want = folded_anyway::<E>(
                    s,
                    params.at(x),
                    predicate_id_num.at(x),
                    id,
                    self.at(x),
                    u.at(x),
                    nifs.at(x),
                );
                assert(r.at(x).comm_M =~= want.comm_M);
            }
            assert forall|x: Assignment| #[trigger]
                after.honors(x) && self.points_at(x) && u.comm_W.is_point_at(x) implies {
                &&& predicate_id_num.at(x) == predicate_id
                &&& r.points_at(x)
                &&& verified_with_witness::<E>(
                    s,
                    params.at(x),
                    id,
                    self.at(x),
                    ats(running_w.W@, x),
                    ats(running_lambda.lambda@, x),
                    u.at(x),
                    ats(incoming_w.W@, x),
                    nifs.at(x),
                ) == Some(r.at(x))
            } by {
                assert(s14.holds(x) && s13.holds(x) && s12.holds(x) && s11.holds(x) && s10.holds(x) && s9.holds(x));
                assert(s8.holds(x) && s7.holds(x) && s3.holds(x));
                assert(s14.follows(x) && s13.follows(x) && s12.follows(x) && s11.follows(x) && s10.follows(x));
                assert(s9.follows(x) && s8.follows(x) && s7.follows(x) && after.follows(x));
                assert(s8.keeps(x) && s7.keeps(x));
                assert(s6.keeps(x) && s5.keeps(x) && s4.keeps(x) && s3.keeps(x) && s2.keeps(x));
                assert(predicate_id_num.at(x) == id);
                lemma_start(s, id, *params, *predicate_id_num, *u, m0, m1, m2, s7, x);
                assert(ats(z_running@, x) =~= ats(running_w.W@, x) + seq![self.u.at(x)] + ats(self.X@, x));
                assert(ats(z_new@, x) =~= ats(incoming_w.W@, x) + seq![1int] + ats(u.X@, x));
                let a = Accepted { r_x: ats(r_x@, x), r_y: ats(r_y@, x), rho: rho.at(x) };
                let want = verified_with_witness::<E>(
                    s,
                    params.at(x),
                    id,
                    self.at(x),
                    ats(running_w.W@, x),
                    ats(running_lambda.lambda@, x),
                    u.at(x),
                    ats(incoming_w.W@, x),
                    nifs.at(x),
                );
                assert(want is Some);
                assert(r.at(x).comm_M =~= want->0.comm_M);
            }
            // The values given.
            let own = s7.own();
            lemma_own_agrees(s7);
            lemma_own_keeps(s7);
            if predicate_id_num.value.val() == id {
                lemma_instance_ats(*u, s7, own);
                lemma_folded_ats(*self, s7, own);
                lemma_own(*predicate_id_num, s7);
                lemma_own(*params, s7);
                assert(s6.keeps(own) && s5.keeps(own) && s4.keeps(own));
                lemma_start(s, id, *params, *predicate_id_num, *u, m0, m1, m2, s7, own);
                lemma_ats(start, s7, own);
                lemma_ats(z_running@, s7, own);
                lemma_ats(z_new@, s7, own);
                lemma_ats(running_w.W@, s7, own);
                lemma_ats(incoming_w.W@, s7, own);
                lemma_own(one, s7);
                assert(nvals(z_running@) =~= nvals(running_w.W@) + seq![self.u.value.val()] + nvals(self.X@));
                assert(nvals(z_new@) =~= nvals(incoming_w.W@) + seq![1int] + nvals(u.X@));
            }
        }
        Ok(r)
    }
}

/// Bits stay bits of the system.
pub(crate) proof fn lemma_bits_within<F: FieldElement>(bits: Seq<AllocatedBit<F>>, a: CsView, b: CsView)
    requires
        bits_within(bits, a),
        step(a, b),
    ensures
        bits_within(bits, b),
{
    assert forall|i: int| 0 <= i < bits.len() implies (#[trigger] bits[i]).within(b) by {
        assert(bits[i].within(a));
    }
}

/// A challenge is small.
pub(crate) proof fn lemma_challenge(h: int, q: int)
    requires
        q > 0x4000000000000000000000000000000000000000000000000000000000000000int,
    ensures
        0 <= h % (pow2(128) as int) < q,
{
    vstd::arithmetic::power2::lemma2_to64();
    vstd::arithmetic::power2::lemma2_to64_rest();
    vstd::arithmetic::power2::lemma_pow2_adds(64, 64);
    assert(pow2(128) == 0x1_0000_0000_0000_0000_0000_0000_0000_0000int) by (nonlinear_arith)
        requires
            pow2(128) == pow2(64) * pow2(64),
            pow2(64) == 0x1_0000_0000_0000_0000,
    ;
    vstd::arithmetic::div_mod::lemma_mod_bound(h, pow2(128) as int);
}

/// What the circuit accepts, the verifier of a fold accepts, and both come to the same folded instance.
pub proof fn circuit_agrees_with_verifier<E: CurveEngine>(
    s: StructureView,
    pp_digest: int,
    id: int,
    u1: FoldedInstanceView,
    w1: Seq<int>,
    lambda: Seq<int>,
    u2: InstanceView,
    w2: Seq<int>,
    proof_: NIFSView,
)
    requires
        well_shaped(s, proof_),
        u2.X.len() == s.num_io,
        forall|i: int| 0 <= i < u2.X.len() ==> 0 <= #[trigger] u2.X[i] < E::Base::modulus(),
        verified_with_witness::<E>(s, pp_digest, id, u1, w1, lambda, u2, w2, proof_) is Some,
    ensures
        verified::<E>(s, pp_digest, id, u1, u2, proof_) == verified_with_witness::<E>(
            s,
            pp_digest,
            id,
            u1,
            w1,
            lambda,
            u2,
            w2,
            proof_,
        ),
{
    let p = E::Base::modulus();
    let q = E::Scalar::modulus();
    let run = Running { lambda, r_x: u1.r_x, r_y: u1.r_y, v: u1.v, z: w1 + seq![u1.u] + u1.X };
    let start = absorbed_inputs::<E>(s, pp_digest, id, u2);
    let z = w2 + seq![1int] + u2.X;
    witness_verifier_is_stricter::<E>(s, start, id, run, z, proof_);
    E::Scalar::modulus_bounds();
    let a = accepted_with_witness::<E>(s, start, id, run, z, proof_)->0;
    let x = accepted_x::<E>(s, start, id, run, z, proof_)->0;
    let y = accepted_y::<E>(s, x.state, id, reversed(x.point), run, z, proof_)->0;
    lemma_challenge(crate::nifs::hash_of::<E>()(y.state), q);
    vstd::arithmetic::div_mod::lemma_small_mod(a.rho as nat, q as nat);
    assert(projected(u2.X, s.num_io, p) =~= u2.X) by {
        assert forall|i: int| 0 <= i < u2.X.len() implies u2.X[i] % p == u2.X[i] by {
            vstd::arithmetic::div_mod::lemma_small_mod(u2.X[i] as nat, p as nat);
        }
    }
    let f = verified_with_witness::<E>(s, pp_digest, id, u1, w1, lambda, u2, w2, proof_)->0;
    let g = verified::<E>(s, pp_digest, id, u1, u2, proof_)->0;
    assert(f.comm_M =~= g.comm_M);
}

/// The circuit accepts what the prover of a fold sends, and comes to the same folded instance: where the running
/// instance is satisfied by its witness, and the incoming vector satisfies the rows of its predicate in the base
/// field.
pub proof fn honest_fold_satisfies_circuit<E: CurveEngine>(
    s: StructureView,
    ck: E::CommitmentKey,
    pp_digest: int,
    id: int,
    u1: FoldedInstanceView,
    w1: FoldedWitnessView,
    u2: InstanceView,
    w2: WitnessView,
)
    requires
        s.wf(),
        0 <= id < s.len(),
        u2.X.len() == s.num_io,
        folded_sat::<E>(s, ck, u1, w1) is Ok,
        rows_satisfied(s, id, incoming_z(s, u2, w2, E::Base::modulus()), E::Base::modulus()),
    ensures
        ({
            let p = E::Base::modulus();
            let f = proved::<E>(s, pp_digest, id, u1, w1, u2, w2);
            verified_with_witness::<E>(
                s,
                pp_digest % p,
                id,
                u1,
                w1.W_proj,
                w1.lambda_proj,
                InstanceView { comm_W: u2.comm_W, X: projected(u2.X, s.num_io, p) },
                projected(w2.W, s.num_vars_max, p),
                f.proof_,
            ) == Some(f.instance)
        }),
{
    let p = E::Base::modulus();
    let q = E::Scalar::modulus();
    E::Base::modulus_bounds();
    E::Scalar::modulus_bounds();
    let f = proved::<E>(s, pp_digest, id, u1, w1, u2, w2);
    lemma_incoming_len(s, u2, w2, p);
    let v2 = InstanceView { comm_W: u2.comm_W, X: projected(u2.X, s.num_io, p) };
    let start = absorbed_inputs::<E>(s, pp_digest, id, u2);
    let start2 = absorbed_inputs::<E>(s, pp_digest % p, id, v2);
    assert(start =~= start2) by {
        vstd::arithmetic::div_mod::lemma_mod_twice(pp_digest, p);
        let a = instance_elements::<E>(u2);
        let b = instance_elements::<E>(v2);
        assert forall|i: int| 0 <= i < u2.X.len() implies #[trigger] v2.X[i] % p == u2.X[i] % p by {
            vstd::arithmetic::div_mod::lemma_mod_twice(u2.X[i], p);
        }
        assert(a =~= b);
    }
    let run = running(u1, w1);
    let z = incoming_z(s, u2, w2, p);
    let t = transcript::<E>(s, start, id, run, z);
    let y = proved_y::<E>(s, start, id, run, z);
    transcript_is_accepted::<E>(s, start, id, run, z);
    assert(well_shaped(s, t.proof_));
    let px = proved_x::<E>(s, start, id, run, z);
    let cx = accepted_x::<E>(s, start, id, run, z, t.proof_);
    assert(cx is Some && reversed(cx->0.point) == reversed(px.point));
    assert(accepted_with_witness::<E>(s, start, id, run, z, t.proof_) == Some(t.result));
    lemma_challenge(crate::nifs::hash_of::<E>()(y.state), q);
    vstd::arithmetic::div_mod::lemma_small_mod(t.result.rho as nat, q as nat);
    let g = verified_with_witness::<E>(
        s,
        pp_digest % p,
        id,
        u1,
        w1.W_proj,
        w1.lambda_proj,
        v2,
        projected(w2.W, s.num_vars_max, p),
        f.proof_,
    )->0;
    assert(g.comm_M =~= f.instance.comm_M);
}

/// What the gadget of a fold comes to on what an honest prover sends is the prover's folded instance.
pub proof fn honest_fold_is_reached<E: CurveEngine>(
    s: StructureView,
    ck: E::CommitmentKey,
    pp_digest: int,
    id: int,
    u1: FoldedInstanceView,
    w1: FoldedWitnessView,
    u2: InstanceView,
    w2: WitnessView,
)
    requires
        s.wf(),
        0 <= id < s.len(),
        u2.X.len() == s.num_io,
        folded_sat::<E>(s, ck, u1, w1) is Ok,
        rows_satisfied(s, id, incoming_z(s, u2, w2, E::Base::modulus()), E::Base::modulus()),
    ensures
        ({
            let p = E::Base::modulus();
            let f = proved::<E>(s, pp_digest, id, u1, w1, u2, w2);
            folded_anyway::<E>(
                s,
                pp_digest % p,
                id,
                id,
                u1,
                InstanceView { comm_W: u2.comm_W, X: projected(u2.X, s.num_io, p) },
                f.proof_,
            ) == f.instance
        }),
{
    let p = E::Base::modulus();
    let f = proved::<E>(s, pp_digest, id, u1, w1, u2, w2);
    honest_fold_satisfies_circuit::<E>(s, ck, pp_digest, id, u1, w1, u2, w2);
    lemma_transcript_points::<E>(
        s,
        absorbed_inputs::<E>(s, pp_digest, id, u2),
        id,
        running(u1, w1),
        incoming_z(s, u2, w2, p),
    );
    accepted_fold_is_reached::<E>(
        s,
        pp_digest % p,
        id,
        u1,
        w1.W_proj,
        w1.lambda_proj,
        InstanceView { comm_W: u2.comm_W, X: projected(u2.X, s.num_io, p) },
        projected(w2.W, s.num_vars_max, p),
        f.proof_,
    );
}

} // verus!
