//! The verifier of a fold in a constraint system, without the witnesses: the claims are those of the proof.
use crate::combine::{sum_x, sum_y};
use crate::cs::{lemma_step_trans, step, Assignment, ConstraintSystem};
use crate::engine::{CurveEngine, RandomOracle, MAX_ABSORBED};
use crate::evaluation::{eq_points_gadget, powers_gadget};
use crate::field::FieldElement;
use crate::fold_circuit::{
    are_powers, cx_gadget, cy_gadget, lemma_column_x, lemma_column_y, lemma_nifs_within, lemma_powers, open_gadget,
    reverse_nums, sum_x_gadget, sum_y_gadget,
};
use crate::fragment::CircuitEngine;
use crate::gadgets::{
    all_within, assert_equal, ats, bit_ats, bit_wires, bits_value, bits_within, lemma_at, lemma_own, wires,
    AllocatedBit, AllocatedNum,
};
use crate::math::lemma_canonical;
use crate::mle::reversed;
use crate::nifs::{accepted, checked_proof, claim_x, claim_y, hash_of, opening, Accepted, NIFSView};
use crate::oracle::OracleCircuit;
use crate::proof_circuit::{
    lemma_ats, lemma_nifs_ats, lemma_own_agrees, nvals, played, reached, verify_rounds, AllocatedNIFS,
};
use crate::relation::{GlobalStructure, StructureView};
use crate::sumcheck::{challenge, first_points, Check, NUM_CHALLENGE_BITS};
use crate::layout::{lay_checks, lay_verify_x, lay_verify_y, CheckWires};
use vstd::prelude::*;

verus! {

/// What the first half of the verifier comes to, unless it rejects.
pub open spec fn verified_x<E: CurveEngine>(
    s: StructureView,
    start: Seq<int>,
    r_x: Seq<int>,
    v: Seq<int>,
    proof_: NIFSView,
) -> Option<Check> {
    let p = E::Base::modulus();
    let o = opening::<E>(s, start);
    match checked_proof(first_points(4), hash_of::<E>(), p, o.state, sum_x(o.gamma, v) % p, proof_.sc_proof_x) {
        None => None,
        Some(c) => if c.claim == claim_x(o.gamma, r_x, o.alpha, reversed(c.point), proof_.sigmas, proof_.taus) % p {
            Some(c)
        } else {
            None
        },
    }
}

/// What the second half of the verifier comes to, unless it rejects.
pub open spec fn verified_y<E: CurveEngine>(state: Seq<int>, r_y: Seq<int>, v: Seq<int>, proof_: NIFSView) -> Option<Check> {
    let hash = hash_of::<E>();
    let p = E::Base::modulus();
    let delta = challenge(hash, state);
    match checked_proof(
        first_points(3),
        hash,
        p,
        seq![hash(state)],
        sum_y(delta, v, proof_.sigmas, proof_.taus) % p,
        proof_.sc_proof_y,
    ) {
        None => None,
        Some(c) => if c.claim == claim_y(delta, r_y, reversed(c.point), proof_.epsilons, proof_.thetas) % p {
            Some(c)
        } else {
            None
        },
    }
}

/// The first half of the verifier: the new point of the rows is returned.
#[verifier::rlimit(40)]
fn verify_x<E: CircuitEngine>(
    cs: &mut ConstraintSystem<E::Base>,
    constants: &<E::RO as RandomOracle<E::Base>>::Constants,
    ro: &mut OracleCircuit<E>,
    structure: &GlobalStructure<E>,
    r_x: &Vec<AllocatedNum<E::Base>>,
    v: &Vec<AllocatedNum<E::Base>>,
    nifs: &AllocatedNIFS<E>,
) -> (r: Vec<AllocatedNum<E::Base>>)
    requires
        old(cs)@.wf(),
        structure.wf(),
        0 < old(ro).state@.len() <= MAX_ABSORBED,
        all_within(old(ro).state@, old(cs)@),
        all_within(r_x@, old(cs)@),
        r_x@.len() == structure@.s_max,
        all_within(v@, old(cs)@),
        v@.len() == 4,
        nifs.within(old(cs)@),
        nifs.shaped(structure@),
    ensures
        (final(cs)@.layout(), wires(r@), wires(final(ro).state@)) == lay_verify_x::<E>(
            old(cs)@.layout(),
            wires(old(ro).state@),
            wires(r_x@),
            wires(v@),
            nifs.wires(),
            structure.s_max as int,
            E::Base::modulus(),
        ),
        forall|x: Assignment| #[trigger]
            final(cs)@.follows(x) ==> ({
                let o = opening::<E>(structure@, ats(old(ro).state@, x));
                let c = played(first_points(4), hash_of::<E>(), E::Base::modulus(), o.state, nifs.at(x).sc_proof_x.polys);
                &&& ats(r@, x) == reversed(c.point)
                &&& ats(final(ro).state@, x) == c.state
            }),
        step(old(cs)@, final(cs)@),
        final(cs).witness == old(cs).witness,
        final(cs)@.inputs == old(cs)@.inputs,
        all_within(r@, final(cs)@),
        r@.len() == structure.s_max,
        final(ro).state@.len() == 1,
        all_within(final(ro).state@, final(cs)@),
        forall|x: Assignment| #[trigger]
            final(cs)@.holds(x) ==> ({
                let c = verified_x::<E>(structure@, ats(old(ro).state@, x), ats(r_x@, x), ats(v@, x), nifs.at(x));
                &&& c is Some
                &&& ats(r@, x) == reversed(c->0.point)
                &&& ats(final(ro).state@, x) == c->0.state
            }),
        final(cs)@.satisfied() == (old(cs)@.satisfied() && verified_x::<E>(
            structure@,
            nvals(old(ro).state@),
            nvals(r_x@),
            nvals(v@),
            nifs.values(),
        ) is Some),
{
    proof {
        reveal(lay_verify_x);
    }
    let ghost before = cs@;
    let ghost p = E::Base::modulus();
    let ghost hash = hash_of::<E>();
    let ghost s = structure@;
    let ghost state0 = ro.state@;
    let (gamma, alpha) = open_gadget(cs, constants, ro, structure);
    let ghost s1 = cs@;
    let ghost state1 = ro.state@;
    let pows = powers_gadget(cs, &gamma, 4);
    let ghost s2 = cs@;
    proof {
        E::Base::modulus_bounds();
        lemma_step_trans(before, s1, s2);
        assert(are_powers(pows@, gamma, s2));
        assert(all_within(v@, s2));
    }
    let expected = sum_x_gadget(cs, &pows, v, Ghost(gamma));
    let ghost s3 = cs@;
    proof {
        lemma_step_trans(before, s2, s3);
        lemma_step_trans(s1, s2, s3);
        assert(all_within(ro.state@, s3));
        lemma_nifs_within(*nifs, before, s3);
    }
    let (claim, point) = verify_rounds(cs, constants, ro, &expected, &nifs.sc_proof_x, 4);
    let ghost s4 = cs@;
    let r_x_prime = reverse_nums(&point);
    proof {
        lemma_step_trans(before, s3, s4);
        lemma_step_trans(s1, s3, s4);
        lemma_powers(pows@, gamma, s3, s4);
        assert(all_within(r_x_prime@, s4));
        assert(all_within(r_x@, s4));
    }
    let eq_running = eq_points_gadget(cs, r_x, &r_x_prime);
    let ghost s9 = cs@;
    proof {
        lemma_step_trans(before, s4, s9);
        lemma_step_trans(s1, s4, s9);
        assert(all_within(alpha@, s9));
        assert(all_within(r_x_prime@, s9));
    }
    let eq_alpha = eq_points_gadget(cs, &alpha, &r_x_prime);
    let ghost s10 = cs@;
    proof {
        lemma_step_trans(before, s9, s10);
        lemma_step_trans(s4, s9, s10);
        lemma_powers(pows@, gamma, s4, s10);
        lemma_nifs_within(*nifs, before, s10);
    }
    let cx = cx_gadget(cs, &pows, &eq_running, &nifs.sigmas, &eq_alpha, &nifs.taus, Ghost(gamma));
    let ghost s11 = cs@;
    proof {
        lemma_step_trans(before, s10, s11);
        lemma_step_trans(s4, s10, s11);
    }
    assert_equal(cs, &claim, &cx);
    proof {
        let after = cs@;
        lemma_step_trans(before, s11, after);
        lemma_step_trans(s4, s11, after);
        assert forall|x: Assignment| #[trigger] s11.follows(x) implies cx.at(x) == claim_x(
            gamma.at(x),
            ats(r_x@, x),
            ats(alpha@, x),
            ats(r_x_prime@, x),
            ats(nifs.sigmas@, x),
            ats(nifs.taus@, x),
        ) % p by {
            assert(s10.follows(x) && s9.follows(x));
            lemma_column_x(
                gamma.at(x),
                ats(r_x@, x),
                ats(alpha@, x),
                ats(r_x_prime@, x),
                eq_running.at(x),
                eq_alpha.at(x),
                ats(nifs.sigmas@, x),
                ats(nifs.taus@, x),
                cx.at(x),
                p,
            );
            lemma_at(cx, s11, x);
            lemma_canonical(
                cx.at(x),
                claim_x(
                    gamma.at(x),
                    ats(r_x@, x),
                    ats(alpha@, x),
                    ats(r_x_prime@, x),
                    ats(nifs.sigmas@, x),
                    ats(nifs.taus@, x),
                ),
                p,
            );
        }
        assert forall|x: Assignment| #[trigger] after.follows(x) implies ({
            let o = opening::<E>(s, ats(state0, x));
            let c = played(first_points(4), hash, p, o.state, nifs.at(x).sc_proof_x.polys);
            &&& ats(r_x_prime@, x) == reversed(c.point)
            &&& ats(ro.state@, x) == c.state
        }) by {
            assert(s4.follows(x) && s1.follows(x));
        }
        assert forall|x: Assignment| #[trigger] after.holds(x) implies ({
            let c = verified_x::<E>(s, ats(state0, x), ats(r_x@, x), ats(v@, x), nifs.at(x));
            &&& c is Some
            &&& ats(r_x_prime@, x) == reversed(c->0.point)
            &&& ats(ro.state@, x) == c->0.state
        }) by {
            assert(s11.holds(x) && s10.holds(x) && s9.holds(x) && s4.holds(x) && s3.holds(x));
            assert(s11.follows(x) && s3.follows(x) && s1.follows(x));
        }
        // The values given.
        let own = s11.own();
        lemma_own_agrees(s11);
        lemma_nifs_within(*nifs, before, s11);
        lemma_nifs_ats(*nifs, s11, own);
        lemma_ats(r_x@, s11, own);
        lemma_ats(v@, s11, own);
        lemma_ats(state0, s11, own);
        assert(all_within(state1, s11));
        lemma_ats(state1, s11, own);
        lemma_own(expected, s11);
        lemma_own(claim, s11);
        lemma_own(cx, s11);
        assert(s3.follows(own) && s1.follows(own));
        let o = opening::<E>(s, nvals(state0));
        let px = checked_proof(first_points(4), hash, p, o.state, sum_x(o.gamma, nvals(v@)) % p, nifs.values().sc_proof_x);
        assert(s4.satisfied() == (before.satisfied() && px is Some));
        if s4.satisfied() {
            crate::cs::lemma_satisfied_before(s4, s11);
            assert(s4.holds(own));
            assert(px == Some(Check { state: ats(ro.state@, own), claim: claim.at(own), point: ats(point@, own) }));
        }
    }
    r_x_prime
}

/// The second half of the verifier: the new point of the columns is returned.
#[verifier::rlimit(40)]
fn verify_y<E: CircuitEngine>(
    cs: &mut ConstraintSystem<E::Base>,
    constants: &<E::RO as RandomOracle<E::Base>>::Constants,
    ro: &mut OracleCircuit<E>,
    structure: &GlobalStructure<E>,
    r_y: &Vec<AllocatedNum<E::Base>>,
    v: &Vec<AllocatedNum<E::Base>>,
    nifs: &AllocatedNIFS<E>,
) -> (r: Vec<AllocatedNum<E::Base>>)
    requires
        old(cs)@.wf(),
        structure.wf(),
        0 < old(ro).state@.len() <= MAX_ABSORBED,
        all_within(old(ro).state@, old(cs)@),
        all_within(r_y@, old(cs)@),
        r_y@.len() == structure@.s_prime_max,
        all_within(v@, old(cs)@),
        v@.len() == 4,
        nifs.within(old(cs)@),
        nifs.shaped(structure@),
    ensures
        (final(cs)@.layout(), wires(r@), wires(final(ro).state@)) == lay_verify_y::<E>(
            old(cs)@.layout(),
            wires(old(ro).state@),
            wires(r_y@),
            wires(v@),
            nifs.wires(),
            E::Base::modulus(),
        ),
        forall|x: Assignment| #[trigger]
            final(cs)@.follows(x) ==> ({
                let hash = hash_of::<E>();
                let start = seq![hash(ats(old(ro).state@, x))];
                let c = played(first_points(3), hash, E::Base::modulus(), start, nifs.at(x).sc_proof_y.polys);
                &&& ats(r@, x) == reversed(c.point)
                &&& ats(final(ro).state@, x) == c.state
            }),
        step(old(cs)@, final(cs)@),
        final(cs).witness == old(cs).witness,
        final(cs)@.inputs == old(cs)@.inputs,
        all_within(r@, final(cs)@),
        r@.len() == structure.s_prime_max,
        final(ro).state@.len() == 1,
        all_within(final(ro).state@, final(cs)@),
        forall|x: Assignment| #[trigger]
            final(cs)@.holds(x) ==> ({
                let c = verified_y::<E>(ats(old(ro).state@, x), ats(r_y@, x), ats(v@, x), nifs.at(x));
                &&& c is Some
                &&& ats(r@, x) == reversed(c->0.point)
                &&& ats(final(ro).state@, x) == c->0.state
            }),
        final(cs)@.satisfied() == (old(cs)@.satisfied() && verified_y::<E>(
            nvals(old(ro).state@),
            nvals(r_y@),
            nvals(v@),
            nifs.values(),
        ) is Some),
{
    proof {
        reveal(lay_verify_y);
    }
    let ghost before = cs@;
    let ghost p = E::Base::modulus();
    let ghost hash = hash_of::<E>();
    let ghost state0 = ro.state@;
    let delta = ro.squeeze_challenge(cs, constants);
    let ghost s1 = cs@;
    let ghost state1 = ro.state@;
    let pows = powers_gadget(cs, &delta, 7);
    let ghost s2 = cs@;
    proof {
        E::Base::modulus_bounds();
        lemma_step_trans(before, s1, s2);
        assert(are_powers(pows@, delta, s2));
        assert(all_within(v@, s2));
        lemma_nifs_within(*nifs, before, s2);
    }
    let expected = sum_y_gadget(cs, &pows, v, &nifs.sigmas, &nifs.taus, Ghost(delta));
    let ghost s3 = cs@;
    proof {
        lemma_step_trans(before, s2, s3);
        lemma_step_trans(s1, s2, s3);
        assert(all_within(ro.state@, s3));
        lemma_nifs_within(*nifs, before, s3);
    }
    let (claim, point) = verify_rounds(cs, constants, ro, &expected, &nifs.sc_proof_y, 3);
    let ghost s4 = cs@;
    let r_y_prime = reverse_nums(&point);
    proof {
        lemma_step_trans(before, s3, s4);
        lemma_step_trans(s1, s3, s4);
        lemma_powers(pows@, delta, s3, s4);
        assert(all_within(r_y_prime@, s4));
        assert(all_within(r_y@, s4));
    }
    let eq_running = eq_points_gadget(cs, r_y, &r_y_prime);
    let ghost s9 = cs@;
    proof {
        lemma_step_trans(before, s4, s9);
        lemma_powers(pows@, delta, s4, s9);
        lemma_nifs_within(*nifs, before, s9);
    }
    let cy = cy_gadget(cs, &pows, &eq_running, &nifs.epsilons, &nifs.thetas, Ghost(delta));
    let ghost s11 = cs@;
    proof {
        lemma_step_trans(before, s9, s11);
        lemma_step_trans(s4, s9, s11);
    }
    assert_equal(cs, &claim, &cy);
    proof {
        let after = cs@;
        lemma_step_trans(before, s11, after);
        lemma_step_trans(s4, s11, after);
        assert forall|x: Assignment| #[trigger] s11.follows(x) implies cy.at(x) == claim_y(
            delta.at(x),
            ats(r_y@, x),
            ats(r_y_prime@, x),
            ats(nifs.epsilons@, x),
            ats(nifs.thetas@, x),
        ) % p by {
            assert(s9.follows(x));
            lemma_column_y(
                delta.at(x),
                ats(r_y@, x),
                ats(r_y_prime@, x),
                eq_running.at(x),
                ats(nifs.epsilons@, x),
                ats(nifs.thetas@, x),
                cy.at(x),
                p,
            );
            lemma_at(cy, s11, x);
            lemma_canonical(
                cy.at(x),
                claim_y(delta.at(x), ats(r_y@, x), ats(r_y_prime@, x), ats(nifs.epsilons@, x), ats(nifs.thetas@, x)),
                p,
            );
        }
        assert forall|x: Assignment| #[trigger] after.follows(x) implies ({
            let c = played(first_points(3), hash, p, seq![hash(ats(state0, x))], nifs.at(x).sc_proof_y.polys);
            &&& ats(r_y_prime@, x) == reversed(c.point)
            &&& ats(ro.state@, x) == c.state
        }) by {
            assert(s4.follows(x) && s1.follows(x));
        }
        assert forall|x: Assignment| #[trigger] after.holds(x) implies ({
            let c = verified_y::<E>(ats(state0, x), ats(r_y@, x), ats(v@, x), nifs.at(x));
            &&& c is Some
            &&& ats(r_y_prime@, x) == reversed(c->0.point)
            &&& ats(ro.state@, x) == c->0.state
        }) by {
            assert(s11.holds(x) && s9.holds(x) && s4.holds(x) && s3.holds(x));
            assert(s11.follows(x) && s3.follows(x) && s1.follows(x));
        }
        // The values given.
        let own = s11.own();
        lemma_own_agrees(s11);
        lemma_nifs_within(*nifs, before, s11);
        lemma_nifs_ats(*nifs, s11, own);
        lemma_ats(r_y@, s11, own);
        lemma_ats(v@, s11, own);
        lemma_ats(state0, s11, own);
        assert(all_within(state1, s11));
        lemma_ats(state1, s11, own);
        lemma_own(expected, s11);
        lemma_own(claim, s11);
        lemma_own(cy, s11);
        assert(s3.follows(own) && s1.follows(own));
        let d = challenge(hash, nvals(state0));
        let py = checked_proof(
            first_points(3),
            hash,
            p,
            seq![hash(nvals(state0))],
            sum_y(d, nvals(v@), nifs.values().sigmas, nifs.values().taus) % p,
            nifs.values().sc_proof_y,
        );
        assert(s4.satisfied() == (before.satisfied() && py is Some));
        if s4.satisfied() {
            crate::cs::lemma_satisfied_before(s4, s11);
            assert(s4.holds(own));
            assert(py == Some(Check { state: ats(ro.state@, own), claim: claim.at(own), point: ats(point@, own) }));
        }
    }
    r_y_prime
}

/// Checks a proof of a fold: returned are the new points, and the challenge of the fold with its bits.
pub fn verify_checks<E: CircuitEngine>(
    cs: &mut ConstraintSystem<E::Base>,
    constants: &<E::RO as RandomOracle<E::Base>>::Constants,
    ro: &mut OracleCircuit<E>,
    structure: &GlobalStructure<E>,
    r_x: &Vec<AllocatedNum<E::Base>>,
    r_y: &Vec<AllocatedNum<E::Base>>,
    v: &Vec<AllocatedNum<E::Base>>,
    nifs: &AllocatedNIFS<E>,
) -> (r: (
    Vec<AllocatedNum<E::Base>>,
    Vec<AllocatedNum<E::Base>>,
    AllocatedNum<E::Base>,
    Vec<AllocatedBit<E::Base>>,
))
    requires
        old(cs)@.wf(),
        structure.wf(),
        0 < old(ro).state@.len() <= MAX_ABSORBED,
        all_within(old(ro).state@, old(cs)@),
        all_within(r_x@, old(cs)@),
        r_x@.len() == structure@.s_max,
        all_within(r_y@, old(cs)@),
        r_y@.len() == structure@.s_prime_max,
        all_within(v@, old(cs)@),
        v@.len() == 4,
        nifs.within(old(cs)@),
        nifs.shaped(structure@),
    ensures
        (final(cs)@.layout(), (CheckWires { r_x: wires(r.0@), r_y: wires(r.1@), rho: r.2.variable, bits: bit_wires(r.3@) }))
            == lay_checks::<E>(
            old(cs)@.layout(),
            wires(old(ro).state@),
            wires(r_x@),
            wires(r_y@),
            wires(v@),
            nifs.wires(),
            structure.s_max as int,
            E::Base::modulus(),
        ),
        forall|x: Assignment| #[trigger]
            final(cs)@.follows(x) ==> {
                &&& reached::<E>(structure@, ats(old(ro).state@, x), nifs.at(x)) == (Accepted {
                    r_x: ats(r.0@, x),
                    r_y: ats(r.1@, x),
                    rho: r.2.at(x),
                })
                &&& bits_value(bit_ats(r.3@, x), NUM_CHALLENGE_BITS as int) == r.2.at(x)
            },
        step(old(cs)@, final(cs)@),
        final(cs).witness == old(cs).witness,
        final(cs)@.inputs == old(cs)@.inputs,
        all_within(r.0@, final(cs)@),
        r.0@.len() == structure.s_max,
        all_within(r.1@, final(cs)@),
        r.1@.len() == structure.s_prime_max,
        r.2.within(final(cs)@),
        bits_within(r.3@, final(cs)@),
        r.3@.len() == NUM_CHALLENGE_BITS,
        forall|x: Assignment| #[trigger]
            final(cs)@.holds(x) ==> accepted::<E>(
                structure@,
                ats(old(ro).state@, x),
                ats(r_x@, x),
                ats(r_y@, x),
                ats(v@, x),
                nifs.at(x),
            ) == Some(Accepted { r_x: ats(r.0@, x), r_y: ats(r.1@, x), rho: r.2.at(x) }) && bits_value(
                bit_ats(r.3@, x),
                NUM_CHALLENGE_BITS as int,
            ) == r.2.at(x),
        final(cs)@.satisfied() == (old(cs)@.satisfied() && accepted::<E>(
            structure@,
            nvals(old(ro).state@),
            nvals(r_x@),
            nvals(r_y@),
            nvals(v@),
            nifs.values(),
        ) is Some),
{
    proof {
        reveal(lay_checks);
    }
    let ghost before = cs@;
    let ghost s = structure@;
    let ghost state0 = ro.state@;
    let new_r_x = verify_x(cs, constants, ro, structure, r_x, v, nifs);
    let ghost s1 = cs@;
    let ghost state1 = ro.state@;
    proof {
        assert(all_within(r_y@, s1));
        assert(all_within(v@, s1));
        lemma_nifs_within(*nifs, before, s1);
    }
    let new_r_y = verify_y(cs, constants, ro, structure, r_y, v, nifs);
    let ghost s2 = cs@;
    let (rho, bits) = ro.squeeze_num(cs, constants, NUM_CHALLENGE_BITS);
    proof {
        let after = cs@;
        lemma_step_trans(before, s1, s2);
        lemma_step_trans(before, s2, after);
        lemma_step_trans(s1, s2, after);
        assert(all_within(new_r_x@, after));
        assert(all_within(new_r_y@, after));
        assert forall|x: Assignment| #[trigger] after.follows(x) implies {
            &&& reached::<E>(s, ats(state0, x), nifs.at(x)) == (Accepted {
                r_x: ats(new_r_x@, x),
                r_y: ats(new_r_y@, x),
                rho: rho.at(x),
            })
            &&& bits_value(bit_ats(bits@, x), NUM_CHALLENGE_BITS as int) == rho.at(x)
        } by {
            assert(s2.follows(x) && s1.follows(x));
        }
        assert forall|x: Assignment| #[trigger] after.holds(x) implies accepted::<E>(
            s,
            ats(state0, x),
            ats(r_x@, x),
            ats(r_y@, x),
            ats(v@, x),
            nifs.at(x),
        ) == Some(Accepted { r_x: ats(new_r_x@, x), r_y: ats(new_r_y@, x), rho: rho.at(x) }) && bits_value(
            bit_ats(bits@, x),
            NUM_CHALLENGE_BITS as int,
        ) == rho.at(x) by {
            assert(s2.holds(x) && s1.holds(x));
            assert(after.follows(x));
        }
        if s1.satisfied() {
            // The values given follow the first half, so that they are what the second half starts from.
            lemma_own_agrees(s1);
            let own = s1.own();
            assert(s1.holds(own));
            lemma_nifs_ats(*nifs, s1, own);
            lemma_ats(state0, s1, own);
            lemma_ats(state1, s1, own);
            lemma_ats(r_x@, s1, own);
            lemma_ats(r_y@, s1, own);
            lemma_ats(v@, s1, own);
        }
    }
    (new_r_x, new_r_y, rho, bits)
}

} // verus!
