//! The verifier of a fold in a constraint system.
use crate::combine::{combine_x, combine_y, lemma_combine_x_low_degree, lemma_combine_y_low_degree, sum_x, sum_y};
use crate::cs::{lemma_step_trans, step, Assignment, ConstraintSystem, CsView, Variable};
use crate::engine::{CurveEngine, RandomOracle, MAX_ABSORBED};
use crate::evaluation::{
    eq_points_gadget, eval_matrix_folded, eval_matrix_predicate, eval_row_compression_predicate, eval_z,
    powers_gadget,
};
use crate::field::FieldElement;
use crate::fragment::CircuitEngine;
use crate::gadgets::{
    all_within, assert_equal, ats, bit_ats, bits_value, bits_within, lemma_at, lemma_own, wires, AllocatedBit,
    AllocatedNum,
};
use crate::math::{
    cong, lemma_canonical, lemma_cong_add, lemma_cong_mod, lemma_cong_mul, lemma_residue_add, lemma_residue_mul,
    lemma_residue_sub,
};
use crate::mle::{eq_points, reversed};
use crate::nifs::{
    accepted, checked_proof, claim_x, claim_y, hash_of, min_len, opening, squeezed, squeezed_state, well_shaped,
    Accepted, NIFSView, Running,
};
use crate::oracle::OracleCircuit;
use crate::proof_circuit::{
    assert_all_equal, lemma_ats, lemma_nifs_ats, lemma_own_agrees, nvals, played, reached, verify_rounds,
    AllocatedNIFS,
};
use crate::relation::{claims, sigmas, taus, thetas, GlobalStructure, StructureView};
use crate::sumcheck::{challenge, columns_cong, first_points, Check, NUM_CHALLENGE_BITS};
use crate::layout::{
    backwards, lay_add_product, lay_challenges, lay_cx, lay_cy, lay_mul, lay_squeeze_num, lay_sum_x, lay_sum_y,
};
use vstd::arithmetic::power::pow;
use vstd::prelude::*;

verus! {

/// What the first half of a verifier that knows the witnesses comes to, unless it rejects.
pub open spec fn accepted_x<E: CurveEngine>(
    s: StructureView,
    start: Seq<int>,
    id: int,
    run: Running,
    z: Seq<int>,
    proof_: NIFSView,
) -> Option<Check> {
    let hash = hash_of::<E>();
    let p = E::Base::modulus();
    let o = opening::<E>(s, start);
    match checked_proof(first_points(4), hash, p, o.state, sum_x(o.gamma, run.v) % p, proof_.sc_proof_x) {
        None => None,
        Some(c) => {
            let r_x = reversed(c.point);
            if proof_.sigmas == sigmas(s, run.lambda, r_x, run.r_y, p) && proof_.taus == taus(s, id, r_x, z, p) && c.claim
                == claim_x(o.gamma, run.r_x, o.alpha, r_x, proof_.sigmas, proof_.taus) % p {
                Some(c)
            } else {
                None
            }
        },
    }
}

/// What the second half of a verifier that knows the witnesses comes to, unless it rejects.
pub open spec fn accepted_y<E: CurveEngine>(
    s: StructureView,
    state: Seq<int>,
    id: int,
    r_x: Seq<int>,
    run: Running,
    z: Seq<int>,
    proof_: NIFSView,
) -> Option<Check> {
    let hash = hash_of::<E>();
    let p = E::Base::modulus();
    let delta = challenge(hash, state);
    match checked_proof(
        first_points(3),
        hash,
        p,
        seq![hash(state)],
        sum_y(delta, run.v, proof_.sigmas, proof_.taus) % p,
        proof_.sc_proof_y,
    ) {
        None => None,
        Some(c) => {
            let r_y = reversed(c.point);
            if proof_.epsilons == claims(s, run.lambda, r_x, r_y, run.z, p) && proof_.thetas == thetas(
                s,
                id,
                r_x,
                r_y,
                z,
                p,
            ) && c.claim == claim_y(delta, run.r_y, r_y, proof_.epsilons, proof_.thetas) % p {
                Some(c)
            } else {
                None
            }
        },
    }
}

/// What a verifier that knows the witnesses comes to, unless it rejects: besides what the verifier of a fold checks,
/// the claims of the proof have to be those of the witnesses.
pub open spec fn accepted_with_witness<E: CurveEngine>(
    s: StructureView,
    start: Seq<int>,
    id: int,
    run: Running,
    z: Seq<int>,
    proof_: NIFSView,
) -> Option<Accepted> {
    match accepted_x::<E>(s, start, id, run, z, proof_) {
        None => None,
        Some(x) => match accepted_y::<E>(s, x.state, id, reversed(x.point), run, z, proof_) {
            None => None,
            Some(y) => Some(
                Accepted {
                    r_x: reversed(x.point),
                    r_y: reversed(y.point),
                    rho: challenge(hash_of::<E>(), y.state),
                },
            ),
        },
    }
}

/// What a verifier that knows the witnesses accepts, the verifier of a fold accepts.
pub proof fn witness_verifier_is_stricter<E: CurveEngine>(
    s: StructureView,
    start: Seq<int>,
    id: int,
    run: Running,
    z: Seq<int>,
    proof_: NIFSView,
)
    requires
        well_shaped(s, proof_),
        accepted_with_witness::<E>(s, start, id, run, z, proof_) is Some,
    ensures
        accepted::<E>(s, start, run.r_x, run.r_y, run.v, proof_) == accepted_with_witness::<E>(
            s,
            start,
            id,
            run,
            z,
            proof_,
        ),
{
}

/// Whether numbers are the first powers of another.
pub open spec fn are_powers<F: FieldElement>(pows: Seq<AllocatedNum<F>>, base: AllocatedNum<F>, cs: CsView) -> bool {
    &&& all_within(pows, cs)
    &&& forall|x: Assignment, k: int|
        #![trigger cs.follows(x), pows[k]]
        cs.follows(x) && 0 <= k < pows.len() ==> pows[k].at(x) == pow(base.at(x), k as nat) % F::modulus()
}

pub(crate) proof fn lemma_powers<F: FieldElement>(pows: Seq<AllocatedNum<F>>, base: AllocatedNum<F>, a: CsView, b: CsView)
    requires
        step(a, b),
        are_powers(pows, base, a),
    ensures
        are_powers(pows, base, b),
{
    assert forall|x: Assignment, k: int|
        #![trigger b.follows(x), pows[k]]
        b.follows(x) && 0 <= k < pows.len() implies pows[k].at(x) == pow(base.at(x), k as nat) % F::modulus() by {
        assert(a.follows(x));
    }
}

/// A number plus a product.
fn add_product<F: FieldElement>(
    cs: &mut ConstraintSystem<F>,
    acc: &AllocatedNum<F>,
    a: &AllocatedNum<F>,
    b: &AllocatedNum<F>,
) -> (r: AllocatedNum<F>)
    requires
        old(cs)@.wf(),
        acc.within(old(cs)@),
        a.within(old(cs)@),
        b.within(old(cs)@),
    ensures
        (final(cs)@.layout(), r.variable) == lay_add_product(old(cs)@.layout(), acc.variable, a.variable, b.variable),
        step(old(cs)@, final(cs)@),
        final(cs)@.satisfied() == old(cs)@.satisfied(),
        r.within(final(cs)@),
        final(cs).witness == old(cs).witness,
        final(cs)@.inputs == old(cs)@.inputs,
        forall|x: Assignment| #[trigger]
            final(cs)@.follows(x) ==> cong(r.at(x), acc.at(x) + a.at(x) * b.at(x), F::modulus()),
{
    let ghost before = cs@;
    let product = a.mul(cs, b);
    let ghost mid = cs@;
    let r = acc.add(cs, &product);
    proof {
        F::modulus_bounds();
        lemma_step_trans(before, mid, cs@);
        assert forall|x: Assignment| #[trigger] cs@.follows(x) implies cong(
            r.at(x),
            acc.at(x) + a.at(x) * b.at(x),
            F::modulus(),
        ) by {
            assert(mid.follows(x));
            lemma_cong_mod(a.at(x) * b.at(x), F::modulus());
            lemma_residue_add(acc.at(x), acc.at(x), product.at(x), a.at(x) * b.at(x), F::modulus());
        }
    }
    r
}

/// A number plus a power times a number.
fn add_power<F: FieldElement>(
    cs: &mut ConstraintSystem<F>,
    acc: &AllocatedNum<F>,
    pows: &Vec<AllocatedNum<F>>,
    k: usize,
    b: &AllocatedNum<F>,
    Ghost(base): Ghost<AllocatedNum<F>>,
    Ghost(so_far): Ghost<spec_fn(Assignment) -> int>,
    Ghost(factor): Ghost<spec_fn(Assignment) -> int>,
) -> (r: AllocatedNum<F>)
    requires
        old(cs)@.wf(),
        acc.within(old(cs)@),
        b.within(old(cs)@),
        k < pows.len(),
        are_powers(pows@, base, old(cs)@),
        forall|x: Assignment| #[trigger] old(cs)@.follows(x) ==> cong(acc.at(x), so_far(x), F::modulus()),
        forall|x: Assignment| #[trigger] old(cs)@.follows(x) ==> cong(b.at(x), factor(x), F::modulus()),
    ensures
        (final(cs)@.layout(), r.variable) == lay_add_product(old(cs)@.layout(), acc.variable, wires(pows@)[k as int], b.variable),
        step(old(cs)@, final(cs)@),
        final(cs)@.satisfied() == old(cs)@.satisfied(),
        r.within(final(cs)@),
        final(cs).witness == old(cs).witness,
        final(cs)@.inputs == old(cs)@.inputs,
        are_powers(pows@, base, final(cs)@),
        forall|x: Assignment| #[trigger]
            final(cs)@.follows(x) ==> cong(
                r.at(x),
                so_far(x) + pow(base.at(x), k as nat) * factor(x),
                F::modulus(),
            ),
{
    let ghost before = cs@;
    assert(pows@[k as int].within(before));
    let r = add_product(cs, acc, &pows[k], b);
    proof {
        F::modulus_bounds();
        let p = F::modulus();
        lemma_powers(pows@, base, before, cs@);
        assert forall|x: Assignment| #[trigger] cs@.follows(x) implies cong(
            r.at(x),
            so_far(x) + pow(base.at(x), k as nat) * factor(x),
            p,
        ) by {
            assert(before.follows(x));
            let m = pow(base.at(x), k as nat);
            assert(pows@[k as int].at(x) == m % p);
            lemma_cong_mod(m, p);
            lemma_cong_mul(pows@[k as int].at(x), m, b.at(x), factor(x), p);
            lemma_cong_add(acc.at(x), so_far(x), pows@[k as int].at(x) * b.at(x), m * factor(x), p);
        }
    }
    r
}

/// The sum that the first sum-check proves.
pub(crate) fn sum_x_gadget<F: FieldElement>(
    cs: &mut ConstraintSystem<F>,
    pows: &Vec<AllocatedNum<F>>,
    v: &Vec<AllocatedNum<F>>,
    Ghost(gamma): Ghost<AllocatedNum<F>>,
) -> (r: AllocatedNum<F>)
    requires
        old(cs)@.wf(),
        pows.len() >= 3,
        v.len() >= 3,
        are_powers(pows@, gamma, old(cs)@),
        all_within(v@, old(cs)@),
    ensures
        (final(cs)@.layout(), r.variable) == lay_sum_x(old(cs)@.layout(), wires(pows@), wires(v@)),
        step(old(cs)@, final(cs)@),
        final(cs)@.satisfied() == old(cs)@.satisfied(),
        r.within(final(cs)@),
        final(cs).witness == old(cs).witness,
        final(cs)@.inputs == old(cs)@.inputs,
        are_powers(pows@, gamma, final(cs)@),
        forall|x: Assignment| #[trigger]
            final(cs)@.follows(x) ==> r.at(x) == sum_x(gamma.at(x), ats(v@, x)) % F::modulus(),
{
    proof {
        reveal(lay_sum_x);
    }
    let ghost before = cs@;
    let (v0, v1, v2) = (v[0], v[1], v[2]);
    assert(v@[0].within(before) && v@[1].within(before) && v@[2].within(before));
    let ghost f0 = |x: Assignment| v0.at(x);
    let ghost f1 = |x: Assignment| f0(x) + pow(gamma.at(x), 1) * v1.at(x);
    let t1 = add_power(cs, &v0, pows, 1, &v1, Ghost(gamma), Ghost(f0), Ghost(|x: Assignment| v1.at(x)));
    let ghost s1 = cs@;
    let t2 = add_power(cs, &t1, pows, 2, &v2, Ghost(gamma), Ghost(f1), Ghost(|x: Assignment| v2.at(x)));
    proof {
        F::modulus_bounds();
        lemma_step_trans(before, s1, cs@);
        assert forall|x: Assignment| #[trigger] cs@.follows(x) implies t2.at(x) == sum_x(gamma.at(x), ats(v@, x))
            % F::modulus() by {
            lemma_at(t2, cs@, x);
            lemma_canonical(t2.at(x), sum_x(gamma.at(x), ats(v@, x)), F::modulus());
        }
    }
    t2
}

/// The column of the first polynomial at the last point.
pub open spec fn column_x(eq_running: int, sg: Seq<int>, eq_alpha: int, ta: Seq<int>) -> Seq<int> {
    seq![eq_running, sg[0], sg[1], sg[2], eq_alpha, ta[0], ta[1], ta[2]]
}

/// What the last claim of the first sum-check has to be.
pub(crate) fn cx_gadget<F: FieldElement>(
    cs: &mut ConstraintSystem<F>,
    pows: &Vec<AllocatedNum<F>>,
    eq_running: &AllocatedNum<F>,
    sg: &Vec<AllocatedNum<F>>,
    eq_alpha: &AllocatedNum<F>,
    ta: &Vec<AllocatedNum<F>>,
    Ghost(gamma): Ghost<AllocatedNum<F>>,
) -> (r: AllocatedNum<F>)
    requires
        old(cs)@.wf(),
        pows.len() == 4,
        sg.len() == 3,
        ta.len() == 3,
        are_powers(pows@, gamma, old(cs)@),
        eq_running.within(old(cs)@),
        eq_alpha.within(old(cs)@),
        all_within(sg@, old(cs)@),
        all_within(ta@, old(cs)@),
    ensures
        (final(cs)@.layout(), r.variable) == lay_cx(
            old(cs)@.layout(),
            wires(pows@),
            eq_running.variable,
            wires(sg@),
            eq_alpha.variable,
            wires(ta@),
            F::modulus(),
        ),
        step(old(cs)@, final(cs)@),
        final(cs)@.satisfied() == old(cs)@.satisfied(),
        r.within(final(cs)@),
        final(cs).witness == old(cs).witness,
        final(cs)@.inputs == old(cs)@.inputs,
        forall|x: Assignment| #[trigger]
            final(cs)@.follows(x) ==> cong(
                r.at(x),
                combine_x(gamma.at(x), column_x(eq_running.at(x), ats(sg@, x), eq_alpha.at(x), ats(ta@, x))),
                F::modulus(),
            ),
{
    proof {
        reveal(lay_cx);
    }
    let ghost before = cs@;
    let ghost p = F::modulus();
    let acc = sum_x_gadget(cs, pows, sg, Ghost(gamma));
    let ghost s1 = cs@;
    let left = eq_running.mul(cs, &acc);
    let ghost s2 = cs@;
    assert(ta@[0].within(before) && ta@[1].within(before) && ta@[2].within(before));
    let product = ta[0].mul(cs, &ta[1]);
    let ghost s3 = cs@;
    let diff = product.sub(cs, &ta[2]);
    let ghost s4 = cs@;
    let weighted = eq_alpha.mul(cs, &diff);
    let ghost s5 = cs@;
    proof {
        F::modulus_bounds();
        lemma_step_trans(before, s1, s2);
        lemma_step_trans(before, s2, s3);
        lemma_step_trans(before, s3, s4);
        lemma_step_trans(before, s4, s5);
        lemma_step_trans(s1, s2, s3);
        lemma_step_trans(s1, s3, s4);
        lemma_step_trans(s1, s4, s5);
        lemma_powers(pows@, gamma, s1, s5);
    }
    let ghost ft = |x: Assignment| eq_alpha.at(x) * (ta@[0].at(x) * ta@[1].at(x) - ta@[2].at(x));
    let ghost fl = |x: Assignment| eq_running.at(x) * sum_x(gamma.at(x), ats(sg@, x));
    proof {
        assert forall|x: Assignment| #[trigger] s5.follows(x) implies cong(weighted.at(x), ft(x), p) by {
            assert(s4.follows(x) && s3.follows(x));
            let (a, b, c) = (ta@[0].at(x), ta@[1].at(x), ta@[2].at(x));
            lemma_cong_mod(a * b, p);
            lemma_residue_sub(product.at(x), a * b, c, c, p);
            lemma_residue_mul(eq_alpha.at(x), eq_alpha.at(x), diff.at(x), a * b - c, p);
        }
        assert forall|x: Assignment| #[trigger] s5.follows(x) implies cong(left.at(x), fl(x), p) by {
            assert(s4.follows(x) && s3.follows(x) && s2.follows(x) && s1.follows(x));
            let m = sum_x(gamma.at(x), ats(sg@, x));
            lemma_cong_mod(m, p);
            lemma_residue_mul(eq_running.at(x), eq_running.at(x), acc.at(x), m, p);
        }
    }
    let r = add_power(cs, &left, pows, 3, &weighted, Ghost(gamma), Ghost(fl), Ghost(ft));
    proof {
        lemma_step_trans(before, s5, cs@);
        assert forall|x: Assignment| #[trigger] cs@.follows(x) implies cong(
            r.at(x),
            combine_x(gamma.at(x), column_x(eq_running.at(x), ats(sg@, x), eq_alpha.at(x), ats(ta@, x))),
            p,
        ) by {
            let g = gamma.at(x);
            let e = eq_running.at(x);
            let (a, b, c) = (sg@[0].at(x), sg@[1].at(x), sg@[2].at(x));
            let (g1, g2) = (pow(g, 1), pow(g, 2));
            assert(e * (a + g1 * b + g2 * c) == e * a + g1 * (e * b) + g2 * (e * c)) by (nonlinear_arith);
        }
    }
    r
}

/// The sum that the second sum-check proves.
pub(crate) fn sum_y_gadget<F: FieldElement>(
    cs: &mut ConstraintSystem<F>,
    pows: &Vec<AllocatedNum<F>>,
    v: &Vec<AllocatedNum<F>>,
    sg: &Vec<AllocatedNum<F>>,
    ta: &Vec<AllocatedNum<F>>,
    Ghost(delta): Ghost<AllocatedNum<F>>,
) -> (r: AllocatedNum<F>)
    requires
        old(cs)@.wf(),
        pows.len() == 7,
        v.len() >= 4,
        sg.len() == 3,
        ta.len() == 3,
        are_powers(pows@, delta, old(cs)@),
        all_within(v@, old(cs)@),
        all_within(sg@, old(cs)@),
        all_within(ta@, old(cs)@),
    ensures
        (final(cs)@.layout(), r.variable) == lay_sum_y(old(cs)@.layout(), wires(pows@), wires(v@), wires(sg@), wires(ta@)),
        step(old(cs)@, final(cs)@),
        final(cs)@.satisfied() == old(cs)@.satisfied(),
        r.within(final(cs)@),
        final(cs).witness == old(cs).witness,
        final(cs)@.inputs == old(cs)@.inputs,
        are_powers(pows@, delta, final(cs)@),
        forall|x: Assignment| #[trigger]
            final(cs)@.follows(x) ==> r.at(x) == sum_y(delta.at(x), ats(v@, x), ats(sg@, x), ats(ta@, x))
                % F::modulus(),
{
    proof {
        reveal(lay_sum_y);
    }
    let ghost before = cs@;
    let (a0, a1, a2) = (sg[0], sg[1], sg[2]);
    let (b0, b1, b2) = (ta[0], ta[1], ta[2]);
    let c = v[3];
    assert(sg@[0].within(before) && sg@[1].within(before) && sg@[2].within(before));
    assert(ta@[0].within(before) && ta@[1].within(before) && ta@[2].within(before));
    assert(v@[3].within(before));
    let ghost f0 = |x: Assignment| a0.at(x);
    let ghost f1 = |x: Assignment| f0(x) + pow(delta.at(x), 1) * a1.at(x);
    let ghost f2 = |x: Assignment| f1(x) + pow(delta.at(x), 2) * a2.at(x);
    let ghost f3 = |x: Assignment| f2(x) + pow(delta.at(x), 3) * c.at(x);
    let ghost f4 = |x: Assignment| f3(x) + pow(delta.at(x), 4) * b0.at(x);
    let ghost f5 = |x: Assignment| f4(x) + pow(delta.at(x), 5) * b1.at(x);
    let t1 = add_power(cs, &a0, pows, 1, &a1, Ghost(delta), Ghost(f0), Ghost(|x: Assignment| a1.at(x)));
    let ghost s1 = cs@;
    let t2 = add_power(cs, &t1, pows, 2, &a2, Ghost(delta), Ghost(f1), Ghost(|x: Assignment| a2.at(x)));
    let ghost s2 = cs@;
    proof {
        lemma_step_trans(before, s1, s2);
    }
    let t3 = add_power(cs, &t2, pows, 3, &c, Ghost(delta), Ghost(f2), Ghost(|x: Assignment| c.at(x)));
    let ghost s3 = cs@;
    let t4 = add_power(cs, &t3, pows, 4, &b0, Ghost(delta), Ghost(f3), Ghost(|x: Assignment| b0.at(x)));
    let ghost s4 = cs@;
    proof {
        lemma_step_trans(before, s2, s3);
        lemma_step_trans(before, s3, s4);
    }
    let t5 = add_power(cs, &t4, pows, 5, &b1, Ghost(delta), Ghost(f4), Ghost(|x: Assignment| b1.at(x)));
    let ghost s5 = cs@;
    let t6 = add_power(cs, &t5, pows, 6, &b2, Ghost(delta), Ghost(f5), Ghost(|x: Assignment| b2.at(x)));
    proof {
        F::modulus_bounds();
        lemma_step_trans(before, s4, s5);
        lemma_step_trans(before, s5, cs@);
        assert forall|x: Assignment| #[trigger] cs@.follows(x) implies t6.at(x) == sum_y(
            delta.at(x),
            ats(v@, x),
            ats(sg@, x),
            ats(ta@, x),
        ) % F::modulus() by {
            lemma_at(t6, cs@, x);
            lemma_canonical(t6.at(x), sum_y(delta.at(x), ats(v@, x), ats(sg@, x), ats(ta@, x)), F::modulus());
        }
    }
    t6
}

/// The column of the second polynomial at the last point.
pub open spec fn column_y(eq_running: int, ep: Seq<int>, th: Seq<int>) -> Seq<int> {
    seq![eq_running, ep[0], ep[1], ep[2], ep[3], th[0], th[1], th[2], th[3]]
}

/// The product of two numbers of which one is a list element.
fn product_of<F: FieldElement>(cs: &mut ConstraintSystem<F>, list: &Vec<AllocatedNum<F>>, i: usize, b: &AllocatedNum<F>) -> (r:
    AllocatedNum<F>)
    requires
        old(cs)@.wf(),
        i < list.len(),
        all_within(list@, old(cs)@),
        b.within(old(cs)@),
    ensures
        (final(cs)@.layout(), r.variable) == lay_mul(old(cs)@.layout(), b.variable, wires(list@)[i as int]),
        step(old(cs)@, final(cs)@),
        final(cs)@.satisfied() == old(cs)@.satisfied(),
        r.within(final(cs)@),
        final(cs).witness == old(cs).witness,
        final(cs)@.inputs == old(cs)@.inputs,
        all_within(list@, final(cs)@),
        b.within(final(cs)@),
        forall|x: Assignment| #[trigger]
            final(cs)@.follows(x) ==> cong(r.at(x), b.at(x) * list@[i as int].at(x), F::modulus()),
{
    let ghost before = cs@;
    assert(list@[i as int].within(before));
    let r = b.mul(cs, &list[i]);
    proof {
        F::modulus_bounds();
        assert forall|x: Assignment| #[trigger] cs@.follows(x) implies cong(
            r.at(x),
            b.at(x) * list@[i as int].at(x),
            F::modulus(),
        ) by {
            lemma_cong_mod(b.at(x) * list@[i as int].at(x), F::modulus());
        }
    }
    r
}

/// What the last claim of the second sum-check has to be.
#[verifier::rlimit(40)]
pub(crate) fn cy_gadget<F: FieldElement>(
    cs: &mut ConstraintSystem<F>,
    pows: &Vec<AllocatedNum<F>>,
    eq_running: &AllocatedNum<F>,
    ep: &Vec<AllocatedNum<F>>,
    th: &Vec<AllocatedNum<F>>,
    Ghost(delta): Ghost<AllocatedNum<F>>,
) -> (r: AllocatedNum<F>)
    requires
        old(cs)@.wf(),
        pows.len() == 7,
        ep.len() == 4,
        th.len() == 4,
        are_powers(pows@, delta, old(cs)@),
        eq_running.within(old(cs)@),
        all_within(ep@, old(cs)@),
        all_within(th@, old(cs)@),
    ensures
        (final(cs)@.layout(), r.variable) == lay_cy(old(cs)@.layout(), wires(pows@), eq_running.variable, wires(ep@), wires(th@)),
        step(old(cs)@, final(cs)@),
        final(cs)@.satisfied() == old(cs)@.satisfied(),
        r.within(final(cs)@),
        final(cs).witness == old(cs).witness,
        final(cs)@.inputs == old(cs)@.inputs,
        forall|x: Assignment| #[trigger]
            final(cs)@.follows(x) ==> cong(
                r.at(x),
                combine_y(delta.at(x), column_y(eq_running.at(x), ats(ep@, x), ats(th@, x))),
                F::modulus(),
            ),
{
    proof {
        reveal(lay_cy);
    }
    let ghost before = cs@;
    let ghost p = F::modulus();
    let ghost e = *eq_running;
    let last = th[3];
    assert(th@[3].within(before));
    let m0 = product_of(cs, ep, 0, eq_running);
    let ghost q0 = cs@;
    let m1 = product_of(cs, ep, 1, eq_running);
    let ghost q1 = cs@;
    let m2 = product_of(cs, ep, 2, eq_running);
    let ghost q2 = cs@;
    let m3 = product_of(cs, ep, 3, eq_running);
    let ghost q3 = cs@;
    proof {
        lemma_step_trans(before, q0, q1);
        lemma_step_trans(before, q1, q2);
        lemma_step_trans(before, q2, q3);
        assert(all_within(th@, q3));
    }
    let m4 = product_of(cs, th, 0, &last);
    let ghost q4 = cs@;
    let m5 = product_of(cs, th, 1, &last);
    let ghost q5 = cs@;
    let m6 = product_of(cs, th, 2, &last);
    let ghost q6 = cs@;
    assert(pows@[0].within(before));
    proof {
        lemma_step_trans(before, q3, q4);
        lemma_step_trans(before, q4, q5);
        lemma_step_trans(before, q5, q6);
        lemma_powers(pows@, delta, before, q6);
    }
    let c0 = pows[0].mul(cs, &m0);
    let ghost s0 = cs@;
    let ghost g0 = |x: Assignment| e.at(x) * ep@[0].at(x);
    let ghost g1 = |x: Assignment| e.at(x) * ep@[1].at(x);
    let ghost g2 = |x: Assignment| e.at(x) * ep@[2].at(x);
    let ghost g3 = |x: Assignment| e.at(x) * ep@[3].at(x);
    let ghost g4 = |x: Assignment| th@[0].at(x) * last.at(x);
    let ghost g5 = |x: Assignment| th@[1].at(x) * last.at(x);
    let ghost g6 = |x: Assignment| th@[2].at(x) * last.at(x);
    proof {
        F::modulus_bounds();
        lemma_step_trans(before, q6, s0);
        lemma_powers(pows@, delta, q6, s0);
        assert forall|x: Assignment| #[trigger] s0.follows(x) implies {
            &&& cong(c0.at(x), g0(x), p)
            &&& cong(m1.at(x), g1(x), p)
            &&& cong(m2.at(x), g2(x), p)
            &&& cong(m3.at(x), g3(x), p)
            &&& cong(m4.at(x), g4(x), p)
            &&& cong(m5.at(x), g5(x), p)
            &&& cong(m6.at(x), g6(x), p)
        } by {
            assert(q6.follows(x) && q5.follows(x) && q4.follows(x) && q3.follows(x));
            assert(q2.follows(x) && q1.follows(x) && q0.follows(x) && before.follows(x));
            assert(pows@[0].at(x) == pow(delta.at(x), 0) % p);
            vstd::arithmetic::power::lemma_pow0(delta.at(x));
            lemma_cong_mod(1, p);
            lemma_residue_mul(pows@[0].at(x), 1, m0.at(x), g0(x), p);
            let l = last.at(x);
            let (t0, t1, t2) = (th@[0].at(x), th@[1].at(x), th@[2].at(x));
            assert(l * t0 == t0 * l) by (nonlinear_arith);
            assert(l * t1 == t1 * l) by (nonlinear_arith);
            assert(l * t2 == t2 * l) by (nonlinear_arith);
        }
    }
    let ghost f1 = |x: Assignment| g0(x) + pow(delta.at(x), 1) * g1(x);
    let ghost f2 = |x: Assignment| f1(x) + pow(delta.at(x), 2) * g2(x);
    let ghost f3 = |x: Assignment| f2(x) + pow(delta.at(x), 3) * g3(x);
    let ghost f4 = |x: Assignment| f3(x) + pow(delta.at(x), 4) * g4(x);
    let ghost f5 = |x: Assignment| f4(x) + pow(delta.at(x), 5) * g5(x);
    let t1 = add_power(cs, &c0, pows, 1, &m1, Ghost(delta), Ghost(g0), Ghost(g1));
    let ghost s1 = cs@;
    let t2 = add_power(cs, &t1, pows, 2, &m2, Ghost(delta), Ghost(f1), Ghost(g2));
    let ghost s2 = cs@;
    let t3 = add_power(cs, &t2, pows, 3, &m3, Ghost(delta), Ghost(f2), Ghost(g3));
    let ghost s3 = cs@;
    let t4 = add_power(cs, &t3, pows, 4, &m4, Ghost(delta), Ghost(f3), Ghost(g4));
    let ghost s4 = cs@;
    let t5 = add_power(cs, &t4, pows, 5, &m5, Ghost(delta), Ghost(f4), Ghost(g5));
    let ghost s5 = cs@;
    let t6 = add_power(cs, &t5, pows, 6, &m6, Ghost(delta), Ghost(f5), Ghost(g6));
    proof {
        lemma_step_trans(before, s0, s1);
        lemma_step_trans(before, s1, s2);
        lemma_step_trans(before, s2, s3);
        lemma_step_trans(before, s3, s4);
        lemma_step_trans(before, s4, s5);
        lemma_step_trans(before, s5, cs@);
    }
    t6
}

/// Squeezes the challenges that start a fold.
pub(crate) fn open_gadget<E: CircuitEngine>(
    cs: &mut ConstraintSystem<E::Base>,
    constants: &<E::RO as RandomOracle<E::Base>>::Constants,
    ro: &mut OracleCircuit<E>,
    structure: &GlobalStructure<E>,
) -> (r: (AllocatedNum<E::Base>, Vec<AllocatedNum<E::Base>>))
    requires
        old(cs)@.wf(),
        0 < old(ro).state@.len() <= MAX_ABSORBED,
        all_within(old(ro).state@, old(cs)@),
    ensures
        ({
            let p = E::Base::modulus();
            let (l1, w) = lay_squeeze_num::<E>(old(cs)@.layout(), wires(old(ro).state@), 128, p);
            &&& r.0.variable == w.num
            &&& (final(cs)@.layout(), wires(r.1@), wires(final(ro).state@)) == lay_challenges::<E>(l1, w.state, p, structure.s_max as int)
        }),
        step(old(cs)@, final(cs)@),
        final(cs)@.satisfied() == old(cs)@.satisfied(),
        final(cs).witness == old(cs).witness,
        final(cs)@.inputs == old(cs)@.inputs,
        r.0.within(final(cs)@),
        all_within(r.1@, final(cs)@),
        r.1@.len() == structure.s_max,
        final(ro).state@.len() == 1,
        all_within(final(ro).state@, final(cs)@),
        forall|x: Assignment| #[trigger]
            final(cs)@.follows(x) ==> ({
                let o = opening::<E>(structure@, ats(old(ro).state@, x));
                &&& r.0.at(x) == o.gamma
                &&& ats(r.1@, x) == o.alpha
                &&& ats(final(ro).state@, x) == o.state
            }),
{
    let ghost before = cs@;
    let ghost hash = hash_of::<E>();
    let ghost state0 = ro.state@;
    let gamma = ro.squeeze_challenge(cs, constants);
    let ghost s1 = cs@;
    let ghost state1 = ro.state@;
    let mut alpha: Vec<AllocatedNum<E::Base>> = Vec::new();
    let mut i: usize = 0;
    assert(wires(alpha@) =~= Seq::<Variable>::empty());
    assert forall|x: Assignment| #[trigger] s1.follows(x) implies ats(alpha@, x) == squeezed(
        hash,
        ats(state1, x),
        0,
    ) by {
        assert(ats(alpha@, x) =~= squeezed(hash, ats(state1, x), 0));
    }
    while i < structure.s_max
        invariant
            (cs@.layout(), wires(alpha@), wires(ro.state@)) == lay_challenges::<E>(
                s1.layout(),
                wires(state1),
                E::Base::modulus(),
                i as int,
            ),
            i <= structure.s_max,
            hash == hash_of::<E>(),
            step(before, cs@),
            step(before, s1),
            cs@.satisfied() == before.satisfied(),
            cs.witness == old(cs).witness,
            cs@.inputs == before.inputs,
            gamma.within(cs@),
            alpha@.len() == i,
            all_within(alpha@, cs@),
            ro.state@.len() == 1,
            all_within(ro.state@, cs@),
            forall|x: Assignment| #[trigger]
                cs@.follows(x) ==> {
                    &&& gamma.at(x) == challenge(hash, ats(state0, x))
                    &&& ats(state1, x) == seq![hash(ats(state0, x))]
                    &&& ats(alpha@, x) == squeezed(hash, ats(state1, x), i as nat)
                    &&& ats(ro.state@, x) == squeezed_state(hash, ats(state1, x), i as nat)
                },
        decreases structure.s_max - i,
    {
        let ghost m0 = cs@;
        let ghost ro0 = ro.state@;
        let ghost alpha0 = alpha@;
        let a = ro.squeeze_challenge(cs, constants);
        alpha.push(a);
        proof {
            assert(wires(alpha@) =~= wires(alpha0).push(a.variable));
            lemma_step_trans(before, m0, cs@);
            assert forall|k: int| 0 <= k < alpha@.len() implies (#[trigger] alpha@[k]).within(cs@) by {
                if k < i {
                    assert(alpha0[k].within(m0));
                }
            }
            assert forall|x: Assignment| #[trigger] cs@.follows(x) implies {
                &&& gamma.at(x) == challenge(hash, ats(state0, x))
                &&& ats(state1, x) == seq![hash(ats(state0, x))]
                &&& ats(alpha@, x) == squeezed(hash, ats(state1, x), (i + 1) as nat)
                &&& ats(ro.state@, x) == squeezed_state(hash, ats(state1, x), (i + 1) as nat)
            } by {
                assert(m0.follows(x));
                let want = squeezed(hash, ats(state1, x), (i + 1) as nat);
                assert(ats(alpha@, x).len() == want.len());
                assert forall|k: int| 0 <= k < want.len() implies #[trigger] ats(alpha@, x)[k] == want[k] by {
                    if k < i {
                        assert(ats(alpha0, x)[k] == squeezed(hash, ats(state1, x), i as nat)[k]);
                        assert(alpha@[k] == alpha0[k]);
                    }
                }
                assert(ats(alpha@, x) =~= want);
            }
        }
        i = i + 1;
    }
    (gamma, alpha)
}

/// Three evaluations of folded matrices.
fn folded_evals<E: CircuitEngine>(
    cs: &mut ConstraintSystem<E::Base>,
    structure: &GlobalStructure<E>,
    lambda: &Vec<AllocatedNum<E::Base>>,
    r_x: &Vec<AllocatedNum<E::Base>>,
    r_y: &Vec<AllocatedNum<E::Base>>,
) -> (r: Vec<AllocatedNum<E::Base>>)
    requires
        old(cs)@.wf(),
        structure.wf(),
        lambda.len() == structure@.len(),
        all_within(lambda@, old(cs)@),
        all_within(r_x@, old(cs)@),
        all_within(r_y@, old(cs)@),
    ensures
        step(old(cs)@, final(cs)@),
        final(cs)@.satisfied() == old(cs)@.satisfied(),
        final(cs).witness == old(cs).witness,
        final(cs)@.inputs == old(cs)@.inputs,
        r@.len() == 3,
        all_within(r@, final(cs)@),
        forall|x: Assignment| #[trigger]
            final(cs)@.follows(x) ==> ats(r@, x) == sigmas(
                structure@,
                ats(lambda@, x),
                ats(r_x@, x),
                ats(r_y@, x),
                E::Base::modulus(),
            ),
{
    let ghost before = cs@;
    let a = eval_matrix_folded(cs, structure, lambda, 0, r_x, r_y);
    let ghost s1 = cs@;
    assert(all_within(lambda@, s1) && all_within(r_x@, s1) && all_within(r_y@, s1));
    let b = eval_matrix_folded(cs, structure, lambda, 1, r_x, r_y);
    let ghost s2 = cs@;
    assert(all_within(lambda@, s2) && all_within(r_x@, s2) && all_within(r_y@, s2));
    let c = eval_matrix_folded(cs, structure, lambda, 2, r_x, r_y);
    let mut r: Vec<AllocatedNum<E::Base>> = Vec::new();
    r.push(a);
    r.push(b);
    r.push(c);
    proof {
        lemma_step_trans(before, s1, s2);
        lemma_step_trans(before, s2, cs@);
        assert forall|x: Assignment| #[trigger] cs@.follows(x) implies ats(r@, x) == sigmas(
            structure@,
            ats(lambda@, x),
            ats(r_x@, x),
            ats(r_y@, x),
            E::Base::modulus(),
        ) by {
            assert(s2.follows(x) && s1.follows(x));
            assert(ats(r@, x) =~= sigmas(
                structure@,
                ats(lambda@, x),
                ats(r_x@, x),
                ats(r_y@, x),
                E::Base::modulus(),
            ));
        }
    }
    r
}

/// Three evaluations of the matrices of a predicate times a vector.
fn compressed_evals<E: CircuitEngine>(
    cs: &mut ConstraintSystem<E::Base>,
    structure: &GlobalStructure<E>,
    predicate_id: usize,
    r_x: &Vec<AllocatedNum<E::Base>>,
    z: &Vec<AllocatedNum<E::Base>>,
) -> (r: Vec<AllocatedNum<E::Base>>)
    requires
        old(cs)@.wf(),
        structure.wf(),
        predicate_id < structure@.len(),
        all_within(r_x@, old(cs)@),
        all_within(z@, old(cs)@),
    ensures
        step(old(cs)@, final(cs)@),
        final(cs)@.satisfied() == old(cs)@.satisfied(),
        final(cs).witness == old(cs).witness,
        final(cs)@.inputs == old(cs)@.inputs,
        r@.len() == 3,
        all_within(r@, final(cs)@),
        forall|x: Assignment| #[trigger]
            final(cs)@.follows(x) ==> ats(r@, x) == taus(
                structure@,
                predicate_id as int,
                ats(r_x@, x),
                ats(z@, x),
                E::Base::modulus(),
            ),
{
    let ghost before = cs@;
    let a = eval_row_compression_predicate(cs, structure, predicate_id, 0, r_x, z);
    let ghost s1 = cs@;
    assert(all_within(r_x@, s1) && all_within(z@, s1));
    let b = eval_row_compression_predicate(cs, structure, predicate_id, 1, r_x, z);
    let ghost s2 = cs@;
    assert(all_within(r_x@, s2) && all_within(z@, s2));
    let c = eval_row_compression_predicate(cs, structure, predicate_id, 2, r_x, z);
    let mut r: Vec<AllocatedNum<E::Base>> = Vec::new();
    r.push(a);
    r.push(b);
    r.push(c);
    proof {
        lemma_step_trans(before, s1, s2);
        lemma_step_trans(before, s2, cs@);
        assert forall|x: Assignment| #[trigger] cs@.follows(x) implies ats(r@, x) == taus(
            structure@,
            predicate_id as int,
            ats(r_x@, x),
            ats(z@, x),
            E::Base::modulus(),
        ) by {
            assert(s2.follows(x) && s1.follows(x));
            assert(ats(r@, x) =~= taus(
                structure@,
                predicate_id as int,
                ats(r_x@, x),
                ats(z@, x),
                E::Base::modulus(),
            ));
        }
    }
    r
}

/// The evaluations of folded matrices and of a vector.
fn claim_evals<E: CircuitEngine>(
    cs: &mut ConstraintSystem<E::Base>,
    structure: &GlobalStructure<E>,
    lambda: &Vec<AllocatedNum<E::Base>>,
    r_x: &Vec<AllocatedNum<E::Base>>,
    r_y: &Vec<AllocatedNum<E::Base>>,
    z: &Vec<AllocatedNum<E::Base>>,
) -> (r: Vec<AllocatedNum<E::Base>>)
    requires
        old(cs)@.wf(),
        structure.wf(),
        lambda.len() == structure@.len(),
        all_within(lambda@, old(cs)@),
        all_within(r_x@, old(cs)@),
        all_within(r_y@, old(cs)@),
        all_within(z@, old(cs)@),
    ensures
        step(old(cs)@, final(cs)@),
        final(cs)@.satisfied() == old(cs)@.satisfied(),
        final(cs).witness == old(cs).witness,
        final(cs)@.inputs == old(cs)@.inputs,
        r@.len() == 4,
        all_within(r@, final(cs)@),
        forall|x: Assignment| #[trigger]
            final(cs)@.follows(x) ==> ats(r@, x) == claims(
                structure@,
                ats(lambda@, x),
                ats(r_x@, x),
                ats(r_y@, x),
                ats(z@, x),
                E::Base::modulus(),
            ),
{
    let ghost before = cs@;
    let mut r = folded_evals(cs, structure, lambda, r_x, r_y);
    let ghost first = r@;
    let ghost s1 = cs@;
    assert(all_within(z@, s1) && all_within(r_y@, s1));
    let e = eval_z(cs, z, r_y);
    r.push(e);
    proof {
        lemma_step_trans(before, s1, cs@);
        assert forall|k: int| 0 <= k < r@.len() implies (#[trigger] r@[k]).within(cs@) by {
            if k < 3 {
                assert(first[k].within(s1));
            }
        }
        assert forall|x: Assignment| #[trigger] cs@.follows(x) implies ats(r@, x) == claims(
            structure@,
            ats(lambda@, x),
            ats(r_x@, x),
            ats(r_y@, x),
            ats(z@, x),
            E::Base::modulus(),
        ) by {
            assert(s1.follows(x));
            let want = sigmas(structure@, ats(lambda@, x), ats(r_x@, x), ats(r_y@, x), E::Base::modulus());
            assert(ats(first, x)[0] == want[0] && ats(first, x)[1] == want[1] && ats(first, x)[2] == want[2]);
            assert(ats(r@, x) =~= claims(
                structure@,
                ats(lambda@, x),
                ats(r_x@, x),
                ats(r_y@, x),
                ats(z@, x),
                E::Base::modulus(),
            ));
        }
    }
    r
}

/// The evaluations of the matrices of a predicate and of a vector.
fn theta_evals<E: CircuitEngine>(
    cs: &mut ConstraintSystem<E::Base>,
    structure: &GlobalStructure<E>,
    predicate_id: usize,
    r_x: &Vec<AllocatedNum<E::Base>>,
    r_y: &Vec<AllocatedNum<E::Base>>,
    z: &Vec<AllocatedNum<E::Base>>,
) -> (r: Vec<AllocatedNum<E::Base>>)
    requires
        old(cs)@.wf(),
        structure.wf(),
        predicate_id < structure@.len(),
        all_within(r_x@, old(cs)@),
        all_within(r_y@, old(cs)@),
        all_within(z@, old(cs)@),
    ensures
        step(old(cs)@, final(cs)@),
        final(cs)@.satisfied() == old(cs)@.satisfied(),
        final(cs).witness == old(cs).witness,
        final(cs)@.inputs == old(cs)@.inputs,
        r@.len() == 4,
        all_within(r@, final(cs)@),
        forall|x: Assignment| #[trigger]
            final(cs)@.follows(x) ==> ats(r@, x) == thetas(
                structure@,
                predicate_id as int,
                ats(r_x@, x),
                ats(r_y@, x),
                ats(z@, x),
                E::Base::modulus(),
            ),
{
    let ghost before = cs@;
    let a = eval_matrix_predicate(cs, structure, predicate_id, 0, r_x, r_y);
    let ghost s1 = cs@;
    assert(all_within(r_x@, s1) && all_within(r_y@, s1) && all_within(z@, s1));
    let b = eval_matrix_predicate(cs, structure, predicate_id, 1, r_x, r_y);
    let ghost s2 = cs@;
    assert(all_within(r_x@, s2) && all_within(r_y@, s2) && all_within(z@, s2));
    let c = eval_matrix_predicate(cs, structure, predicate_id, 2, r_x, r_y);
    let ghost s3 = cs@;
    assert(all_within(r_y@, s3) && all_within(z@, s3));
    let d = eval_z(cs, z, r_y);
    let mut r: Vec<AllocatedNum<E::Base>> = Vec::new();
    r.push(a);
    r.push(b);
    r.push(c);
    r.push(d);
    proof {
        lemma_step_trans(before, s1, s2);
        lemma_step_trans(before, s2, s3);
        lemma_step_trans(before, s3, cs@);
        assert forall|x: Assignment| #[trigger] cs@.follows(x) implies ats(r@, x) == thetas(
            structure@,
            predicate_id as int,
            ats(r_x@, x),
            ats(r_y@, x),
            ats(z@, x),
            E::Base::modulus(),
        ) by {
            assert(s3.follows(x) && s2.follows(x) && s1.follows(x));
            assert(ats(r@, x) =~= thetas(
                structure@,
                predicate_id as int,
                ats(r_x@, x),
                ats(r_y@, x),
                ats(z@, x),
                E::Base::modulus(),
            ));
        }
    }
    r
}

/// Numbers in the opposite order.
pub(crate) fn reverse_nums<F: FieldElement>(v: &Vec<AllocatedNum<F>>) -> (r: Vec<AllocatedNum<F>>)
    ensures
        wires(r@) == backwards(wires(v@)),
        r@.len() == v@.len(),
        forall|i: int| 0 <= i < r@.len() ==> #[trigger] r@[i] == v@[v@.len() - 1 - i],
        forall|x: Assignment| #[trigger] ats(r@, x) == reversed(ats(v@, x)),
        forall|cs: CsView| all_within(v@, cs) ==> #[trigger] all_within(r@, cs),
{
    let mut r: Vec<AllocatedNum<F>> = Vec::new();
    let mut i: usize = v.len();
    while i > 0
        invariant
            i <= v.len(),
            r@.len() == v@.len() - i,
            forall|k: int| 0 <= k < r@.len() ==> #[trigger] r@[k] == v@[v@.len() - 1 - k],
        decreases i,
    {
        i = i - 1;
        r.push(v[i]);
    }
    proof {
        assert forall|x: Assignment| #[trigger] ats(r@, x) == reversed(ats(v@, x)) by {
            assert(ats(r@, x) =~= reversed(ats(v@, x)));
        }
        assert forall|cs: CsView| all_within(v@, cs) implies #[trigger] all_within(r@, cs) by {
            assert forall|k: int| 0 <= k < r@.len() implies (#[trigger] r@[k]).within(cs) by {
                assert(v@[v@.len() - 1 - k].within(cs));
            }
        }
    }
    assert(wires(r@) =~= backwards(wires(v@)));
    r
}

/// What a fold reads of a running instance and of its witness, in a system.
pub struct AllocatedRunning<'a, F: FieldElement> {
    pub lambda: &'a Vec<AllocatedNum<F>>,
    pub r_x: &'a Vec<AllocatedNum<F>>,
    pub r_y: &'a Vec<AllocatedNum<F>>,
    pub v: &'a Vec<AllocatedNum<F>>,
    pub z: &'a Vec<AllocatedNum<F>>,
}

impl<'a, F: FieldElement> AllocatedRunning<'a, F> {
    pub open spec fn at(&self, x: Assignment) -> Running {
        Running {
            lambda: ats(self.lambda@, x),
            r_x: ats(self.r_x@, x),
            r_y: ats(self.r_y@, x),
            v: ats(self.v@, x),
            z: ats(self.z@, x),
        }
    }

    pub open spec fn values(&self) -> Running {
        Running {
            lambda: nvals(self.lambda@),
            r_x: nvals(self.r_x@),
            r_y: nvals(self.r_y@),
            v: nvals(self.v@),
            z: nvals(self.z@),
        }
    }

    pub open spec fn within(&self, cs: CsView) -> bool {
        &&& all_within(self.lambda@, cs)
        &&& all_within(self.r_x@, cs)
        &&& all_within(self.r_y@, cs)
        &&& all_within(self.v@, cs)
        &&& all_within(self.z@, cs)
    }

    pub open spec fn shaped(&self, s: StructureView) -> bool {
        &&& self.lambda@.len() == s.len()
        &&& self.r_x@.len() == s.s_max
        &&& self.r_y@.len() == s.s_prime_max
        &&& self.v@.len() == 4
    }
}

pub(crate) proof fn lemma_running_ats<F: FieldElement>(run: AllocatedRunning<F>, cs: CsView, x: Assignment)
    requires
        run.within(cs),
        cs.agrees(x),
    ensures
        run.at(x) == run.values(),
{
    lemma_ats(run.lambda@, cs, x);
    lemma_ats(run.r_x@, cs, x);
    lemma_ats(run.r_y@, cs, x);
    lemma_ats(run.v@, cs, x);
    lemma_ats(run.z@, cs, x);
}

/// The column of the first polynomial is the same up to reduction of the two products.
pub(crate) proof fn lemma_column_x(
    gamma: int,
    a: Seq<int>,
    b: Seq<int>,
    pt: Seq<int>,
    ea: int,
    eb: int,
    sg: Seq<int>,
    ta: Seq<int>,
    c: int,
    p: int,
)
    requires
        p > 6,
        a.len() == pt.len(),
        b.len() == pt.len(),
        ea == eq_points(a, pt, a.len() as int) % p,
        eb == eq_points(b, pt, b.len() as int) % p,
        cong(c, combine_x(gamma, column_x(ea, sg, eb, ta)), p),
    ensures
        cong(c, claim_x(gamma, a, b, pt, sg, ta), p),
{
    lemma_combine_x_low_degree(gamma, p);
    let h = |c: Seq<int>| combine_x(gamma, c);
    let got = column_x(ea, sg, eb, ta);
    let want = column_x(eq_points(a, pt, min_len(a, pt)), sg, eq_points(b, pt, min_len(b, pt)), ta);
    lemma_cong_mod(want[0], p);
    lemma_cong_mod(want[4], p);
    assert(columns_cong(got, want, p));
    assert(cong(h(got), h(want), p));
}

/// The column of the second polynomial is the same up to reduction of the product.
pub(crate) proof fn lemma_column_y(delta: int, a: Seq<int>, pt: Seq<int>, ea: int, ep: Seq<int>, th: Seq<int>, c: int, p: int)
    requires
        p > 6,
        a.len() == pt.len(),
        ea == eq_points(a, pt, a.len() as int) % p,
        cong(c, combine_y(delta, column_y(ea, ep, th)), p),
    ensures
        cong(c, claim_y(delta, a, pt, ep, th), p),
{
    lemma_combine_y_low_degree(delta, p);
    let h = |c: Seq<int>| combine_y(delta, c);
    let got = column_y(ea, ep, th);
    let want = column_y(eq_points(a, pt, min_len(a, pt)), ep, th);
    lemma_cong_mod(want[0], p);
    assert(columns_cong(got, want, p));
    assert(cong(h(got), h(want), p));
}

/// The first half of the verifier: the new point of the rows is returned, and the claims there.
#[verifier::rlimit(40)]
fn check_x<E: CircuitEngine>(
    cs: &mut ConstraintSystem<E::Base>,
    constants: &<E::RO as RandomOracle<E::Base>>::Constants,
    ro: &mut OracleCircuit<E>,
    structure: &GlobalStructure<E>,
    predicate_id: usize,
    run: &AllocatedRunning<E::Base>,
    z: &Vec<AllocatedNum<E::Base>>,
    nifs: &AllocatedNIFS<E>,
) -> (r: (Vec<AllocatedNum<E::Base>>, Vec<AllocatedNum<E::Base>>, Vec<AllocatedNum<E::Base>>))
    requires
        old(cs)@.wf(),
        structure.wf(),
        predicate_id < structure@.len(),
        0 < old(ro).state@.len() <= MAX_ABSORBED,
        all_within(old(ro).state@, old(cs)@),
        run.within(old(cs)@),
        run.shaped(structure@),
        all_within(z@, old(cs)@),
        nifs.within(old(cs)@),
        nifs.shaped(structure@),
    ensures
        step(old(cs)@, final(cs)@),
        final(cs).witness == old(cs).witness,
        final(cs)@.inputs == old(cs)@.inputs,
        all_within(r.0@, final(cs)@),
        r.0@.len() == structure.s_max,
        all_within(r.1@, final(cs)@),
        r.1@.len() == 3,
        all_within(r.2@, final(cs)@),
        r.2@.len() == 3,
        final(ro).state@.len() == 1,
        all_within(final(ro).state@, final(cs)@),
        forall|x: Assignment| #[trigger]
            final(cs)@.follows(x) ==> ({
                let o = opening::<E>(structure@, ats(old(ro).state@, x));
                let c = played(first_points(4), hash_of::<E>(), E::Base::modulus(), o.state, nifs.at(x).sc_proof_x.polys);
                &&& ats(r.0@, x) == reversed(c.point)
                &&& ats(final(ro).state@, x) == c.state
            }),
        forall|x: Assignment| #[trigger]
            final(cs)@.holds(x) ==> ({
                let c = accepted_x::<E>(
                    structure@,
                    ats(old(ro).state@, x),
                    predicate_id as int,
                    run.at(x),
                    ats(z@, x),
                    nifs.at(x),
                );
                &&& c is Some
                &&& ats(r.0@, x) == reversed(c->0.point)
                &&& ats(final(ro).state@, x) == c->0.state
                &&& ats(r.1@, x) == nifs.at(x).sigmas
                &&& ats(r.2@, x) == nifs.at(x).taus
            }),
        final(cs)@.satisfied() == (old(cs)@.satisfied() && accepted_x::<E>(
            structure@,
            nvals(old(ro).state@),
            predicate_id as int,
            run.values(),
            nvals(z@),
            nifs.values(),
        ) is Some),
{
    let ghost before = cs@;
    let ghost p = E::Base::modulus();
    let ghost hash = hash_of::<E>();
    let ghost s = structure@;
    let ghost id = predicate_id as int;
    let ghost state0 = ro.state@;
    let (gamma, alpha) = open_gadget(cs, constants, ro, structure);
    let ghost s1 = cs@;
    let ghost state1 = ro.state@;
    let pows = powers_gadget(cs, &gamma, 4);
    let ghost s2 = cs@;
    proof {
        E::Base::modulus_bounds();
        lemma_step_trans(before, s1, s2);
        assert(are_powers(pows@, gamma, s2));
        assert(all_within(run.v@, s2));
    }
    let expected = sum_x_gadget(cs, &pows, run.v, Ghost(gamma));
    let ghost s3 = cs@;
    proof {
        lemma_step_trans(before, s2, s3);
        lemma_step_trans(s1, s2, s3);
        assert(all_within(ro.state@, s3));
        assert(nifs.sc_proof_x.within(s3)) by {
            assert forall|i: int| 0 <= i < nifs.sc_proof_x.polys@.len() implies all_within(
                (#[trigger] nifs.sc_proof_x.polys@[i])@,
                s3,
            ) by {
                assert(all_within(nifs.sc_proof_x.polys@[i]@, before));
            }
        }
    }
    let (claim, point) = verify_rounds(cs, constants, ro, &expected, &nifs.sc_proof_x, 4);
    let ghost s4 = cs@;
    let r_x_prime = reverse_nums(&point);
    proof {
        lemma_step_trans(before, s3, s4);
        lemma_step_trans(s1, s3, s4);
        lemma_powers(pows@, gamma, s3, s4);
        assert(all_within(r_x_prime@, s4));
        assert(run.within(s4));
        assert(all_within(z@, s4));
    }
    let sg = folded_evals(cs, structure, run.lambda, &r_x_prime, run.r_y);
    let ghost s5 = cs@;
    assert(all_within(nifs.sigmas@, s5));
    assert_all_equal(cs, &sg, &nifs.sigmas);
    let ghost s6 = cs@;
    proof {
        lemma_step_trans(before, s4, s5);
        lemma_step_trans(before, s5, s6);
        lemma_step_trans(s4, s5, s6);
        assert(all_within(r_x_prime@, s6));
        assert(all_within(z@, s6));
    }
    let ta = compressed_evals(cs, structure, predicate_id, &r_x_prime, z);
    let ghost s7 = cs@;
    assert(all_within(nifs.taus@, before));
    proof {
        lemma_step_trans(before, s6, s7);
        assert(all_within(nifs.taus@, s7));
    }
    assert_all_equal(cs, &ta, &nifs.taus);
    let ghost s8 = cs@;
    proof {
        lemma_step_trans(before, s7, s8);
        lemma_step_trans(s4, s6, s7);
        lemma_step_trans(s4, s7, s8);
        assert(all_within(run.r_x@, s8));
        assert(all_within(r_x_prime@, s8));
    }
    let eq_running = eq_points_gadget(cs, run.r_x, &r_x_prime);
    let ghost s9 = cs@;
    proof {
        lemma_step_trans(before, s8, s9);
        lemma_step_trans(s4, s8, s9);
        lemma_step_trans(s1, s4, s9);
        assert(all_within(alpha@, s9));
        assert(all_within(r_x_prime@, s9));
    }
    let eq_alpha = eq_points_gadget(cs, &alpha, &r_x_prime);
    let ghost s10 = cs@;
    proof {
        lemma_step_trans(before, s9, s10);
        lemma_step_trans(s4, s9, s10);
        lemma_powers(pows@, gamma, s4, s10);
        lemma_step_trans(s5, s6, s7);
        lemma_step_trans(s5, s7, s8);
        lemma_step_trans(s5, s8, s9);
        lemma_step_trans(s5, s9, s10);
        lemma_step_trans(s7, s8, s9);
        lemma_step_trans(s7, s9, s10);
        assert(all_within(sg@, s10));
        assert(all_within(ta@, s10));
    }
    let cx = cx_gadget(cs, &pows, &eq_running, &sg, &eq_alpha, &ta, Ghost(gamma));
    let ghost s11 = cs@;
    proof {
        lemma_step_trans(before, s10, s11);
        lemma_step_trans(s4, s10, s11);
    }
    assert_equal(cs, &claim, &cx);
    proof {
        let after = cs@;
        lemma_step_trans(before, s11, after);
        lemma_step_trans(s4, s11, after);
        lemma_step_trans(s5, s10, s11);
        lemma_step_trans(s5, s11, after);
        lemma_step_trans(s7, s10, s11);
        lemma_step_trans(s7, s11, after);
        // Under any assignment that follows the system, the last claim has to be this.
        assert forall|x: Assignment| #[trigger] s11.follows(x) implies cx.at(x) == claim_x(
            gamma.at(x),
            ats(run.r_x@, x),
            ats(alpha@, x),
            ats(r_x_prime@, x),
            ats(sg@, x),
            ats(ta@, x),
        ) % p by {
            assert(s10.follows(x) && s9.follows(x));
            lemma_column_x(
                gamma.at(x),
                ats(run.r_x@, x),
                ats(alpha@, x),
                ats(r_x_prime@, x),
                eq_running.at(x),
                eq_alpha.at(x),
                ats(sg@, x),
                ats(ta@, x),
                cx.at(x),
                p,
            );
            lemma_at(cx, s11, x);
            lemma_canonical(
                cx.at(x),
                claim_x(
                    gamma.at(x),
                    ats(run.r_x@, x),
                    ats(alpha@, x),
                    ats(r_x_prime@, x),
                    ats(sg@, x),
                    ats(ta@, x),
                ),
                p,
            );
        }
        assert forall|x: Assignment| #[trigger] after.follows(x) implies ({
            let o = opening::<E>(s, ats(state0, x));
            let c = played(first_points(4), hash, p, o.state, nifs.at(x).sc_proof_x.polys);
            &&& ats(r_x_prime@, x) == reversed(c.point)
            &&& ats(ro.state@, x) == c.state
        }) by {
            assert(s4.follows(x) && s1.follows(x));
        }
        assert forall|x: Assignment| #[trigger] after.holds(x) implies ({
            let c = accepted_x::<E>(s, ats(state0, x), id, run.at(x), ats(z@, x), nifs.at(x));
            &&& c is Some
            &&& ats(r_x_prime@, x) == reversed(c->0.point)
            &&& ats(ro.state@, x) == c->0.state
            &&& ats(sg@, x) == nifs.at(x).sigmas
            &&& ats(ta@, x) == nifs.at(x).taus
        }) by {
            assert(s11.holds(x) && s10.holds(x) && s9.holds(x) && s8.holds(x));
            assert(s7.holds(x) && s6.holds(x) && s5.holds(x) && s4.holds(x) && s3.holds(x));
            assert(s11.follows(x) && s7.follows(x) && s5.follows(x) && s3.follows(x) && s1.follows(x));
        }
        // The values given.
        let own = s11.own();
        lemma_own_agrees(s11);
        assert(nifs.within(s11)) by {
            assert forall|i: int| 0 <= i < nifs.sc_proof_x.polys@.len() implies all_within(
                (#[trigger] nifs.sc_proof_x.polys@[i])@,
                s11,
            ) by {
                assert(all_within(nifs.sc_proof_x.polys@[i]@, before));
            }
            assert forall|i: int| 0 <= i < nifs.sc_proof_y.polys@.len() implies all_within(
                (#[trigger] nifs.sc_proof_y.polys@[i])@,
                s11,
            ) by {
                assert(all_within(nifs.sc_proof_y.polys@[i]@, before));
            }
        }
        lemma_nifs_ats(*nifs, s11, own);
        lemma_running_ats(*run, s11, own);
        lemma_ats(state0, s11, own);
        assert(all_within(state1, s11));
        lemma_ats(state1, s11, own);
        lemma_ats(z@, s11, own);
        assert(all_within(sg@, s11));
        lemma_ats(sg@, s11, own);
        assert(all_within(ta@, s11));
        lemma_ats(ta@, s11, own);
        assert(all_within(point@, s11));
        lemma_own(expected, s11);
        lemma_own(claim, s11);
        lemma_own(cx, s11);
        assert(s7.follows(own) && s5.follows(own) && s3.follows(own) && s1.follows(own));
        let o = opening::<E>(s, nvals(state0));
        let px = checked_proof(first_points(4), hash, p, o.state, sum_x(o.gamma, run.values().v) % p, nifs.values().sc_proof_x);
        assert(s4.satisfied() == (before.satisfied() && px is Some));
        if s4.satisfied() {
            crate::cs::lemma_satisfied_before(s4, s11);
            assert(s4.holds(own));
            assert(px == Some(Check { state: ats(ro.state@, own), claim: claim.at(own), point: ats(point@, own) }));
        }
    }
    (r_x_prime, sg, ta)
}

/// The second half of the verifier: the new point of the columns is returned.
#[verifier::rlimit(60)]
fn check_y<E: CircuitEngine>(
    cs: &mut ConstraintSystem<E::Base>,
    constants: &<E::RO as RandomOracle<E::Base>>::Constants,
    ro: &mut OracleCircuit<E>,
    structure: &GlobalStructure<E>,
    predicate_id: usize,
    r_x: &Vec<AllocatedNum<E::Base>>,
    sg: &Vec<AllocatedNum<E::Base>>,
    ta: &Vec<AllocatedNum<E::Base>>,
    run: &AllocatedRunning<E::Base>,
    z: &Vec<AllocatedNum<E::Base>>,
    nifs: &AllocatedNIFS<E>,
) -> (r: Vec<AllocatedNum<E::Base>>)
    requires
        old(cs)@.wf(),
        structure.wf(),
        predicate_id < structure@.len(),
        0 < old(ro).state@.len() <= MAX_ABSORBED,
        all_within(old(ro).state@, old(cs)@),
        all_within(r_x@, old(cs)@),
        all_within(sg@, old(cs)@),
        sg@.len() == 3,
        all_within(ta@, old(cs)@),
        ta@.len() == 3,
        run.within(old(cs)@),
        run.shaped(structure@),
        all_within(z@, old(cs)@),
        nifs.within(old(cs)@),
        nifs.shaped(structure@),
    ensures
        step(old(cs)@, final(cs)@),
        final(cs).witness == old(cs).witness,
        final(cs)@.inputs == old(cs)@.inputs,
        all_within(r@, final(cs)@),
        r@.len() == structure.s_prime_max,
        final(ro).state@.len() == 1,
        all_within(final(ro).state@, final(cs)@),
        forall|x: Assignment| #[trigger]
            final(cs)@.follows(x) ==> ({
                let hash = hash_of::<E>();
                let start = seq![hash(ats(old(ro).state@, x))];
                let c = played(first_points(3), hash, E::Base::modulus(), start, nifs.at(x).sc_proof_y.polys);
                &&& ats(r@, x) == reversed(c.point)
                &&& ats(final(ro).state@, x) == c.state
            }),
        forall|x: Assignment| #[trigger]
            final(cs)@.holds(x) && ats(sg@, x) == nifs.at(x).sigmas && ats(ta@, x) == nifs.at(x).taus ==> ({
                let c = accepted_y::<E>(
                    structure@,
                    ats(old(ro).state@, x),
                    predicate_id as int,
                    ats(r_x@, x),
                    run.at(x),
                    ats(z@, x),
                    nifs.at(x),
                );
                &&& c is Some
                &&& ats(r@, x) == reversed(c->0.point)
                &&& ats(final(ro).state@, x) == c->0.state
            }),
        nvals(sg@) == nifs.values().sigmas && nvals(ta@) == nifs.values().taus ==> final(cs)@.satisfied() == (old(
            cs,
        )@.satisfied() && accepted_y::<E>(
            structure@,
            nvals(old(ro).state@),
            predicate_id as int,
            nvals(r_x@),
            run.values(),
            nvals(z@),
            nifs.values(),
        ) is Some),
        final(cs)@.satisfied() ==> old(cs)@.satisfied(),
{
    let ghost before = cs@;
    let ghost p = E::Base::modulus();
    let ghost hash = hash_of::<E>();
    let ghost s = structure@;
    let ghost id = predicate_id as int;
    let ghost state0 = ro.state@;
    let delta = ro.squeeze_challenge(cs, constants);
    let ghost s1 = cs@;
    let ghost state1 = ro.state@;
    let pows = powers_gadget(cs, &delta, 7);
    let ghost s2 = cs@;
    proof {
        E::Base::modulus_bounds();
        lemma_step_trans(before, s1, s2);
        assert(are_powers(pows@, delta, s2));
        assert(all_within(run.v@, s2));
        assert(all_within(sg@, s2));
        assert(all_within(ta@, s2));
    }
    let expected = sum_y_gadget(cs, &pows, run.v, sg, ta, Ghost(delta));
    let ghost s3 = cs@;
    proof {
        lemma_step_trans(before, s2, s3);
        lemma_step_trans(s1, s2, s3);
        assert(all_within(ro.state@, s3));
        assert(nifs.sc_proof_y.within(s3)) by {
            assert forall|i: int| 0 <= i < nifs.sc_proof_y.polys@.len() implies all_within(
                (#[trigger] nifs.sc_proof_y.polys@[i])@,
                s3,
            ) by {
                assert(all_within(nifs.sc_proof_y.polys@[i]@, before));
            }
        }
    }
    let (claim, point) = verify_rounds(cs, constants, ro, &expected, &nifs.sc_proof_y, 3);
    let ghost s4 = cs@;
    let r_y_prime = reverse_nums(&point);
    proof {
        lemma_step_trans(before, s3, s4);
        lemma_step_trans(s1, s3, s4);
        lemma_powers(pows@, delta, s3, s4);
        assert(all_within(r_y_prime@, s4));
        assert(run.within(s4));
        assert(all_within(r_x@, s4));
    }
    let ep = claim_evals(cs, structure, run.lambda, r_x, &r_y_prime, run.z);
    let ghost s5 = cs@;
    assert(all_within(nifs.epsilons@, s5));
    assert_all_equal(cs, &ep, &nifs.epsilons);
    let ghost s6 = cs@;
    proof {
        lemma_step_trans(before, s4, s5);
        lemma_step_trans(before, s5, s6);
        lemma_step_trans(s4, s5, s6);
        assert(all_within(r_y_prime@, s6));
        assert(all_within(r_x@, s6));
        assert(all_within(z@, s6));
    }
    let th = theta_evals(cs, structure, predicate_id, r_x, &r_y_prime, z);
    let ghost s7 = cs@;
    proof {
        lemma_step_trans(before, s6, s7);
        assert(all_within(nifs.thetas@, s7));
    }
    assert_all_equal(cs, &th, &nifs.thetas);
    let ghost s8 = cs@;
    proof {
        lemma_step_trans(before, s7, s8);
        lemma_step_trans(s4, s6, s7);
        lemma_step_trans(s4, s7, s8);
        assert(all_within(run.r_y@, s8));
        assert(all_within(r_y_prime@, s8));
    }
    let eq_running = eq_points_gadget(cs, run.r_y, &r_y_prime);
    let ghost s9 = cs@;
    proof {
        lemma_step_trans(before, s8, s9);
        lemma_step_trans(s4, s8, s9);
        lemma_powers(pows@, delta, s4, s9);
        lemma_step_trans(s5, s6, s7);
        lemma_step_trans(s5, s7, s8);
        lemma_step_trans(s5, s8, s9);
        lemma_step_trans(s7, s8, s9);
        assert(all_within(ep@, s9));
        assert(all_within(th@, s9));
    }
    let cy = cy_gadget(cs, &pows, &eq_running, &ep, &th, Ghost(delta));
    let ghost s11 = cs@;
    proof {
        lemma_step_trans(before, s9, s11);
        lemma_step_trans(s4, s9, s11);
    }
    assert_equal(cs, &claim, &cy);
    proof {
        let after = cs@;
        lemma_step_trans(before, s11, after);
        lemma_step_trans(s4, s11, after);
        lemma_step_trans(s5, s9, s11);
        lemma_step_trans(s5, s11, after);
        lemma_step_trans(s7, s9, s11);
        lemma_step_trans(s7, s11, after);
        assert forall|x: Assignment| #[trigger] s11.follows(x) implies cy.at(x) == claim_y(
            delta.at(x),
            ats(run.r_y@, x),
            ats(r_y_prime@, x),
            ats(ep@, x),
            ats(th@, x),
        ) % p by {
            assert(s9.follows(x));
            lemma_column_y(
                delta.at(x),
                ats(run.r_y@, x),
                ats(r_y_prime@, x),
                eq_running.at(x),
                ats(ep@, x),
                ats(th@, x),
                cy.at(x),
                p,
            );
            lemma_at(cy, s11, x);
            lemma_canonical(
                cy.at(x),
                claim_y(delta.at(x), ats(run.r_y@, x), ats(r_y_prime@, x), ats(ep@, x), ats(th@, x)),
                p,
            );
        }
        assert forall|x: Assignment| #[trigger] after.follows(x) implies ({
            let c = played(first_points(3), hash, p, seq![hash(ats(state0, x))], nifs.at(x).sc_proof_y.polys);
            &&& ats(r_y_prime@, x) == reversed(c.point)
            &&& ats(ro.state@, x) == c.state
        }) by {
            assert(s4.follows(x) && s3.follows(x) && s1.follows(x));
        }
        assert forall|x: Assignment| #[trigger]
            after.holds(x) && ats(sg@, x) == nifs.at(x).sigmas && ats(ta@, x) == nifs.at(x).taus implies ({
            let c = accepted_y::<E>(s, ats(state0, x), id, ats(r_x@, x), run.at(x), ats(z@, x), nifs.at(x));
            &&& c is Some
            &&& ats(r_y_prime@, x) == reversed(c->0.point)
            &&& ats(ro.state@, x) == c->0.state
        }) by {
            assert(s11.holds(x) && s9.holds(x) && s8.holds(x));
            assert(s7.holds(x) && s6.holds(x) && s5.holds(x) && s4.holds(x) && s3.holds(x));
            assert(s11.follows(x) && s7.follows(x) && s5.follows(x) && s3.follows(x) && s1.follows(x));
        }
        let own = s11.own();
        lemma_own_agrees(s11);
        assert(nifs.within(s11)) by {
            assert forall|i: int| 0 <= i < nifs.sc_proof_x.polys@.len() implies all_within(
                (#[trigger] nifs.sc_proof_x.polys@[i])@,
                s11,
            ) by {
                assert(all_within(nifs.sc_proof_x.polys@[i]@, before));
            }
            assert forall|i: int| 0 <= i < nifs.sc_proof_y.polys@.len() implies all_within(
                (#[trigger] nifs.sc_proof_y.polys@[i])@,
                s11,
            ) by {
                assert(all_within(nifs.sc_proof_y.polys@[i]@, before));
            }
        }
        lemma_nifs_ats(*nifs, s11, own);
        lemma_running_ats(*run, s11, own);
        lemma_ats(state0, s11, own);
        assert(all_within(state1, s11));
        lemma_ats(state1, s11, own);
        lemma_ats(z@, s11, own);
        lemma_ats(r_x@, s11, own);
        lemma_ats(sg@, s11, own);
        lemma_ats(ta@, s11, own);
        assert(all_within(ep@, s11));
        lemma_ats(ep@, s11, own);
        assert(all_within(th@, s11));
        lemma_ats(th@, s11, own);
        assert(all_within(point@, s11));
        lemma_own(expected, s11);
        lemma_own(claim, s11);
        lemma_own(cy, s11);
        assert(s7.follows(own) && s5.follows(own) && s3.follows(own) && s1.follows(own));
        if nvals(sg@) == nifs.values().sigmas && nvals(ta@) == nifs.values().taus {
            let d = challenge(hash, nvals(state0));
            let py = checked_proof(
                first_points(3),
                hash,
                p,
                seq![hash(nvals(state0))],
                sum_y(d, run.values().v, nifs.values().sigmas, nifs.values().taus) % p,
                nifs.values().sc_proof_y,
            );
            assert(s4.satisfied() == (before.satisfied() && py is Some));
            if s4.satisfied() {
                crate::cs::lemma_satisfied_before(s4, s11);
                assert(s4.holds(own));
                assert(py == Some(
                    Check { state: ats(ro.state@, own), claim: claim.at(own), point: ats(point@, own) },
                ));
            }
        }
    }
    r_y_prime
}

/// Checks a proof of a fold against the witnesses: returned are the new points, and the challenge of the fold with
/// its bits.
pub fn fold_checks<E: CircuitEngine>(
    cs: &mut ConstraintSystem<E::Base>,
    constants: &<E::RO as RandomOracle<E::Base>>::Constants,
    ro: &mut OracleCircuit<E>,
    structure: &GlobalStructure<E>,
    predicate_id: usize,
    run: &AllocatedRunning<E::Base>,
    z: &Vec<AllocatedNum<E::Base>>,
    nifs: &AllocatedNIFS<E>,
) -> (r: (
    Vec<AllocatedNum<E::Base>>,
    Vec<AllocatedNum<E::Base>>,
    AllocatedNum<E::Base>,
    Vec<AllocatedBit<E::Base>>,
))
    requires
        old(cs)@.wf(),
        structure.wf(),
        predicate_id < structure@.len(),
        0 < old(ro).state@.len() <= MAX_ABSORBED,
        all_within(old(ro).state@, old(cs)@),
        run.within(old(cs)@),
        run.shaped(structure@),
        all_within(z@, old(cs)@),
        nifs.within(old(cs)@),
        nifs.shaped(structure@),
    ensures
        step(old(cs)@, final(cs)@),
        final(cs).witness == old(cs).witness,
        final(cs)@.inputs == old(cs)@.inputs,
        all_within(r.0@, final(cs)@),
        r.0@.len() == structure.s_max,
        all_within(r.1@, final(cs)@),
        r.1@.len() == structure.s_prime_max,
        r.2.within(final(cs)@),
        bits_within(r.3@, final(cs)@),
        r.3@.len() == NUM_CHALLENGE_BITS,
        forall|x: Assignment| #[trigger]
            final(cs)@.follows(x) ==> {
                &&& reached::<E>(structure@, ats(old(ro).state@, x), nifs.at(x)) == (Accepted {
                    r_x: ats(r.0@, x),
                    r_y: ats(r.1@, x),
                    rho: r.2.at(x),
                })
                &&& bits_value(bit_ats(r.3@, x), NUM_CHALLENGE_BITS as int) == r.2.at(x)
            },
        forall|x: Assignment| #[trigger]
            final(cs)@.holds(x) ==> accepted_with_witness::<E>(
                structure@,
                ats(old(ro).state@, x),
                predicate_id as int,
                run.at(x),
                ats(z@, x),
                nifs.at(x),
            ) == Some(Accepted { r_x: ats(r.0@, x), r_y: ats(r.1@, x), rho: r.2.at(x) }) && bits_value(
                bit_ats(r.3@, x),
                NUM_CHALLENGE_BITS as int,
            ) == r.2.at(x),
        final(cs)@.satisfied() == (old(cs)@.satisfied() && accepted_with_witness::<E>(
            structure@,
            nvals(old(ro).state@),
            predicate_id as int,
            run.values(),
            nvals(z@),
            nifs.values(),
        ) is Some),
{
    let ghost before = cs@;
    let ghost s = structure@;
    let ghost id = predicate_id as int;
    let ghost state0 = ro.state@;
    let (r_x, sg, ta) = check_x(cs, constants, ro, structure, predicate_id, run, z, nifs);
    let ghost s1 = cs@;
    let ghost state1 = ro.state@;
    proof {
        assert(run.within(s1));
        assert(all_within(z@, s1));
        lemma_nifs_within(*nifs, before, s1);
    }
    let r_y = check_y(cs, constants, ro, structure, predicate_id, &r_x, &sg, &ta, run, z, nifs);
    let ghost s2 = cs@;
    let ghost state2 = ro.state@;
    let (rho, bits) = ro.squeeze_num(cs, constants, NUM_CHALLENGE_BITS);
    proof {
        let after = cs@;
        lemma_step_trans(before, s1, s2);
        lemma_step_trans(before, s2, after);
        lemma_step_trans(s1, s2, after);
        assert(all_within(r_x@, after));
        assert(all_within(r_y@, after));
        assert forall|x: Assignment| #[trigger] after.follows(x) implies {
            &&& reached::<E>(s, ats(state0, x), nifs.at(x)) == (Accepted {
                r_x: ats(r_x@, x),
                r_y: ats(r_y@, x),
                rho: rho.at(x),
            })
            &&& bits_value(bit_ats(bits@, x), NUM_CHALLENGE_BITS as int) == rho.at(x)
        } by {
            assert(s2.follows(x) && s1.follows(x));
        }
        assert forall|x: Assignment| #[trigger] after.holds(x) implies accepted_with_witness::<E>(
            s,
            ats(state0, x),
            id,
            run.at(x),
            ats(z@, x),
            nifs.at(x),
        ) == Some(Accepted { r_x: ats(r_x@, x), r_y: ats(r_y@, x), rho: rho.at(x) }) && bits_value(
            bit_ats(bits@, x),
            NUM_CHALLENGE_BITS as int,
        ) == rho.at(x) by {
            assert(s2.holds(x) && s1.holds(x));
            assert(after.follows(x));
        }
        if s1.satisfied() {
            // The values given follow the first half, so that they are what the second half starts from.
            lemma_own_agrees(s1);
            let own = s1.own();
            assert(s1.holds(own));
            lemma_nifs_ats(*nifs, s1, own);
            lemma_running_ats(*run, s1, own);
            lemma_ats(state0, s1, own);
            lemma_ats(state1, s1, own);
            lemma_ats(z@, s1, own);
            lemma_ats(r_x@, s1, own);
            lemma_ats(sg@, s1, own);
            lemma_ats(ta@, s1, own);
        }
    }
    (r_x, r_y, rho, bits)
}

/// The numbers of a proof stay numbers of the system.
pub(crate) proof fn lemma_nifs_within<E: CircuitEngine>(nifs: AllocatedNIFS<E>, a: CsView, b: CsView)
    requires
        nifs.within(a),
        step(a, b),
    ensures
        nifs.within(b),
{
    assert forall|i: int| 0 <= i < nifs.sc_proof_x.polys@.len() implies all_within(
        (#[trigger] nifs.sc_proof_x.polys@[i])@,
        b,
    ) by {
        assert(all_within(nifs.sc_proof_x.polys@[i]@, a));
    }
    assert forall|i: int| 0 <= i < nifs.sc_proof_y.polys@.len() implies all_within(
        (#[trigger] nifs.sc_proof_y.polys@[i])@,
        b,
    ) by {
        assert(all_within(nifs.sc_proof_y.polys@[i]@, a));
    }
}

} // verus!
