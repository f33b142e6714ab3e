//! The rounds of a sum-check in a constraint system, each given by the coefficients of its polynomial.
use crate::cs::{lc_eval, lemma_own_follows, lemma_step_trans, step, Assignment, ConstraintSystem, CsView};
use crate::engine::{RandomOracle, MAX_ABSORBED};
use crate::errors::NovaError;
use crate::evaluation::lemma_step_refl;
use crate::field::FieldElement;
use crate::fragment::CircuitEngine;
use crate::gadgets::{
    all_within, alloc_one, alloc_zero, ats, constrain, demand, lc_minus, lc_plus, lc_var, lemma_at, lemma_own,
    AllocatedNum,
};
use crate::math::{cong, lemma_canonical, lemma_cong_add, lemma_cong_mod, lemma_cong_mul, lemma_cong_sub};
use crate::nifs::hash_of;
use crate::nova::instance::AllocatedRelaxedR1CSInstance;
use crate::oracle::OracleCircuit;
use crate::proof_circuit::{lemma_ats, lemma_own_agrees, nvals};
use crate::sumcheck::challenge;
use crate::mle::eq_points;
use vstd::arithmetic::power2::pow2;
use vstd::arithmetic::power::pow;
use vstd::prelude::*;

verus! {

/// The value of the polynomial of the first `n` coefficients.
pub open spec fn poly_value(coeffs: Seq<int>, r: int, n: int) -> int
    decreases n,
{
    if n <= 0 {
        0
    } else {
        poly_value(coeffs, r, n - 1) + pow(r, (n - 1) as nat) * coeffs[n - 1]
    }
}

/// The verifier between two rounds: the state of the oracle, the value of the last polynomial at its challenge, and the
/// product of the factors of the equality polynomial.
pub struct RoundsView {
    pub state: Seq<int>,
    pub claim: int,
    pub eq: int,
}

/// One round: the coefficients are absorbed, and the polynomial and the factor are taken at the challenge.
pub open spec fn next_round(hash: spec_fn(Seq<int>) -> int, p: int, v: RoundsView, poly: Seq<int>, tau: int) -> RoundsView {
    let r = challenge(hash, v.state + poly);
    RoundsView {
        state: seq![hash(v.state + poly)],
        claim: poly_value(poly, r, poly.len() as int) % p,
        eq: (v.eq * (tau * r + (1 - tau) * (1 - r))) % p,
    }
}

/// The verifier after `k` rounds: the claim starts at zero, the product at one.
pub open spec fn after_rounds(
    hash: spec_fn(Seq<int>) -> int,
    p: int,
    state: Seq<int>,
    polys: Seq<Seq<int>>,
    taus: Seq<int>,
    k: nat,
) -> RoundsView
    decreases k,
{
    if k == 0 {
        RoundsView { state, claim: 0, eq: 1 }
    } else {
        next_round(hash, p, after_rounds(hash, p, state, polys, taus, (k - 1) as nat), polys[k - 1], taus[k - 1])
    }
}

/// Whether the last claim is the product of the equality polynomial and what the evaluations stand for.
pub open spec fn sumcheck_accepted(
    hash: spec_fn(Seq<int>) -> int,
    p: int,
    state: Seq<int>,
    polys: Seq<Seq<int>>,
    taus: Seq<int>,
    evals: Seq<int>,
    e: int,
    u: int,
) -> bool {
    let last = after_rounds(hash, p, state, polys, taus, taus.len());
    cong(last.eq * (evals[0] * evals[1] - u * evals[2] - e), last.claim, p)
}

/// The challenges of the first `k` rounds.
pub open spec fn round_point(
    hash: spec_fn(Seq<int>) -> int,
    p: int,
    state: Seq<int>,
    polys: Seq<Seq<int>>,
    taus: Seq<int>,
    k: nat,
) -> Seq<int> {
    Seq::new(
        k,
        |i: int| challenge(hash, after_rounds(hash, p, state, polys, taus, i as nat).state + polys[i]),
    )
}

/// The equality polynomial of the first `k` coordinates of two points.
pub open spec fn equality(taus: Seq<int>, point: Seq<int>, k: nat) -> int
    decreases k,
{
    if k == 0 {
        1
    } else {
        equality(taus, point, (k - 1) as nat) * (taus[k - 1] * point[k - 1] + (1 - taus[k - 1]) * (1 - point[k - 1]))
    }
}

/// A sum-check of at least one round is accepted exactly if the last polynomial at the last challenge is the equality
/// polynomial of the taus and the challenges times what the evaluations stand for.
pub proof fn last_polynomial_decides(
    hash: spec_fn(Seq<int>) -> int,
    p: int,
    state: Seq<int>,
    polys: Seq<Seq<int>>,
    taus: Seq<int>,
    evals: Seq<int>,
    e: int,
    u: int,
)
    requires
        p > 1,
        polys.len() == taus.len(),
        taus.len() > 0,
    ensures
        ({
            let point = round_point(hash, p, state, polys, taus, taus.len());
            sumcheck_accepted(hash, p, state, polys, taus, evals, e, u) == cong(
                equality(taus, point, taus.len()) * (evals[0] * evals[1] - u * evals[2] - e),
                poly_value(polys.last(), point.last(), polys.last().len() as int),
                p,
            )
        }),
{
    let n = taus.len();
    let last = after_rounds(hash, p, state, polys, taus, n);
    let point = round_point(hash, p, state, polys, taus, n);
    let t = evals[0] * evals[1] - u * evals[2] - e;
    lemma_equality(hash, p, state, polys, taus, n, n);
    lemma_cong_mul(last.eq, equality(taus, point, n), t, t, p);
    lemma_cong_mod(poly_value(polys.last(), point.last(), polys.last().len() as int), p);
}

/// The product of the factors is the equality polynomial at the challenges.
proof fn lemma_equality(
    hash: spec_fn(Seq<int>) -> int,
    p: int,
    state: Seq<int>,
    polys: Seq<Seq<int>>,
    taus: Seq<int>,
    k: nat,
    n: nat,
)
    requires
        p > 1,
        k <= n,
    ensures
        cong(
            after_rounds(hash, p, state, polys, taus, k).eq,
            equality(taus, round_point(hash, p, state, polys, taus, n), k),
            p,
        ),
    decreases k,
{
    if k > 0 {
        lemma_equality(hash, p, state, polys, taus, (k - 1) as nat, n);
        let before = after_rounds(hash, p, state, polys, taus, (k - 1) as nat);
        let point = round_point(hash, p, state, polys, taus, n);
        let r = challenge(hash, before.state + polys[k - 1]);
        assert(point[k - 1] == r);
        let f = taus[k - 1] * r + (1 - taus[k - 1]) * (1 - r);
        lemma_cong_mul(before.eq, equality(taus, point, (k - 1) as nat), f, f, p);
        lemma_cong_mod(before.eq * f, p);
    }
}

/// A number plus a product, by one constraint.
fn accumulate<F: FieldElement>(
    cs: &mut ConstraintSystem<F>,
    acc: &AllocatedNum<F>,
    a: &AllocatedNum<F>,
    b: &AllocatedNum<F>,
) -> (r: AllocatedNum<F>)
    requires
        old(cs)@.wf(),
        acc.within(old(cs)@),
        a.within(old(cs)@),
        b.within(old(cs)@),
    ensures
        step(old(cs)@, final(cs)@),
        final(cs)@.satisfied() == old(cs)@.satisfied(),
        r.within(final(cs)@),
        final(cs).witness == old(cs).witness,
        final(cs)@.inputs == old(cs)@.inputs,
        forall|x: Assignment| #[trigger]
            final(cs)@.follows(x) ==> r.at(x) == (acc.at(x) + a.at(x) * b.at(x)) % F::modulus(),
{
    let ghost before = cs@;
    let ghost p = F::modulus();
    let product = a.value.mul(&b.value);
    let value = acc.value.add(&product);
    let r = AllocatedNum::allocate(cs, &value);
    let ghost mid = cs@;
    let left = lc_var(a.variable);
    let right = lc_var(b.variable);
    let rest = lc_minus(lc_var(r.variable), acc.variable);
    proof {
        F::modulus_bounds();
        lemma_own(*acc, mid);
        lemma_own(*a, mid);
        lemma_own(*b, mid);
        lemma_own(r, mid);
        lemma_cong_mod(a.value.val() * b.value.val(), p);
        lemma_cong_mod(acc.value.val() + product.val(), p);
        lemma_cong_add(acc.value.val(), acc.value.val(), product.val(), a.value.val() * b.value.val(), p);
        lemma_cong_sub(
            value.val(),
            acc.value.val() + a.value.val() * b.value.val(),
            acc.value.val(),
            acc.value.val(),
            p,
        );
        assert(cong(lc_eval(rest@, mid.own()), r.at(mid.own()) - acc.at(mid.own()), p));
    }
    demand(cs, left, right, rest, Ghost(true));
    proof {
        lemma_step_trans(before, mid, cs@);
        assert forall|x: Assignment| #[trigger] cs@.follows(x) implies r.at(x) == (acc.at(x) + a.at(x) * b.at(x))
            % p by {
            lemma_at(*acc, cs@, x);
            lemma_at(*a, cs@, x);
            lemma_at(*b, cs@, x);
            lemma_at(r, cs@, x);
            if cs@.holds(x) {
                assert(cong(lc_eval(rest@, x), r.at(x) - acc.at(x), p));
                lemma_cong_add(a.at(x) * b.at(x), r.at(x) - acc.at(x), acc.at(x), acc.at(x), p);
                lemma_canonical(r.at(x), acc.at(x) + a.at(x) * b.at(x), p);
            } else {
                lemma_canonical(value.val(), acc.at(x) + a.at(x) * b.at(x), p);
            }
        }
    }
    r
}

/// The next power of a challenge.
proof fn lemma_next_power(r: int, j: nat, t: int, p: int)
    requires
        p > 1,
        t == pow(r, j) % p,
    ensures
        (r * t) % p == pow(r, j + 1) % p,
{
    lemma_cong_mod(pow(r, j), p);
    lemma_cong_mul(r, r, t, pow(r, j), p);
    vstd::arithmetic::power::lemma_pow_adds(r, 1, j);
    vstd::arithmetic::power::lemma_pow1(r);
}

/// The claim with one more term of a polynomial.
proof fn lemma_next_term(claim: int, coeffs: Seq<int>, r: int, j: int, c: int, t: int, p: int)
    requires
        p > 1,
        j >= 0,
        c == (claim + poly_value(coeffs, r, j)) % p,
        t == pow(r, j as nat) % p,
    ensures
        (c + t * coeffs[j]) % p == (claim + poly_value(coeffs, r, j + 1)) % p,
{
    let k = coeffs[j];
    let w = pow(r, j as nat);
    lemma_cong_mod(claim + poly_value(coeffs, r, j), p);
    lemma_cong_mod(w, p);
    lemma_cong_mul(t, w, k, k, p);
    lemma_cong_add(c, claim + poly_value(coeffs, r, j), t * k, w * k, p);
}

/// A claim plus the value of a polynomial at a challenge.
fn add_poly_value<F: FieldElement>(
    cs: &mut ConstraintSystem<F>,
    claim: &AllocatedNum<F>,
    poly: &Vec<AllocatedNum<F>>,
    r_i: &AllocatedNum<F>,
) -> (r: AllocatedNum<F>)
    requires
        old(cs)@.wf(),
        claim.within(old(cs)@),
        all_within(poly@, old(cs)@),
        r_i.within(old(cs)@),
        poly.len() > 0,
    ensures
        step(old(cs)@, final(cs)@),
        final(cs)@.satisfied() == old(cs)@.satisfied(),
        r.within(final(cs)@),
        final(cs).witness == old(cs).witness,
        final(cs)@.inputs == old(cs)@.inputs,
        forall|x: Assignment| #[trigger]
            final(cs)@.follows(x) ==> r.at(x) == (claim.at(x) + poly_value(ats(poly@, x), r_i.at(x), poly.len() as int))
                % F::modulus(),
{
    let ghost before = cs@;
    let ghost p = F::modulus();
    let mut r_term = alloc_one(cs);
    let mut r = *claim;
    let mut j: usize = 0;
    proof {
        F::modulus_bounds();
        lemma_own_follows(before);
        assert forall|x: Assignment| #[trigger] cs@.follows(x) implies r.at(x) == (claim.at(x) + poly_value(
            ats(poly@, x),
            r_i.at(x),
            0,
        )) % p && r_term.at(x) == pow(r_i.at(x), 0) % p by {
            lemma_at(*claim, cs@, x);
            vstd::arithmetic::power::lemma_pow0(r_i.at(x));
            vstd::arithmetic::div_mod::lemma_small_mod(1, p as nat);
            vstd::arithmetic::div_mod::lemma_small_mod(claim.at(x) as nat, p as nat);
        }
    }
    while j < poly.len()
        invariant
            j <= poly.len(),
            p == F::modulus(),
            p > 1,
            all_within(poly@, before),
            claim.within(before),
            r_i.within(before),
            step(before, cs@),
            cs@.satisfied() == before.satisfied(),
            cs.witness == old(cs).witness,
            cs@.inputs == before.inputs,
            r_term.within(cs@),
            r.within(cs@),
            forall|x: Assignment| #[trigger]
                cs@.follows(x) ==> r.at(x) == (claim.at(x) + poly_value(ats(poly@, x), r_i.at(x), j as int)) % p
                    && r_term.at(x) == pow(r_i.at(x), if j > 0 {
                    (j - 1) as nat
                } else {
                    0
                }) % p,
        decreases poly.len() - j,
    {
        let ghost (s0, term0, r0) = (cs@, r_term, r);
        if j > 0 {
            r_term = r_i.mul(cs, &r_term);
        }
        let ghost s1 = cs@;
        proof {
            lemma_step_refl(s0);
            lemma_step_trans(before, s0, s1);
            assert(poly@[j as int].within(before));
            assert forall|x: Assignment| #[trigger] s1.follows(x) implies r_term.at(x) == pow(r_i.at(x), j as nat) % p by {
                assert(s0.follows(x));
                if j > 0 {
                    lemma_next_power(r_i.at(x), (j - 1) as nat, term0.at(x), p);
                }
            }
        }
        r = accumulate(cs, &r, &r_term, &poly[j]);
        proof {
            lemma_step_trans(before, s1, cs@);
            lemma_step_trans(s0, s1, cs@);
            assert forall|x: Assignment| #[trigger] cs@.follows(x) implies r.at(x) == (claim.at(x) + poly_value(
                ats(poly@, x),
                r_i.at(x),
                j + 1,
            )) % p && r_term.at(x) == pow(r_i.at(x), j as nat) % p by {
                assert(s1.follows(x) && s0.follows(x));
                lemma_next_term(claim.at(x), ats(poly@, x), r_i.at(x), j as int, r0.at(x), r_term.at(x), p);
            }
        }
        j = j + 1;
    }
    r
}

/// The product of the equality polynomial with the factor of one more round.
fn extend_eq<F: FieldElement>(
    cs: &mut ConstraintSystem<F>,
    eq: &AllocatedNum<F>,
    tau: &AllocatedNum<F>,
    r_i: &AllocatedNum<F>,
    one: &AllocatedNum<F>,
) -> (r: AllocatedNum<F>)
    requires
        old(cs)@.wf(),
        eq.within(old(cs)@),
        tau.within(old(cs)@),
        r_i.within(old(cs)@),
        one.within(old(cs)@),
        forall|x: Assignment| #[trigger] old(cs)@.follows(x) ==> one.at(x) == 1,
    ensures
        step(old(cs)@, final(cs)@),
        final(cs)@.satisfied() == old(cs)@.satisfied(),
        r.within(final(cs)@),
        final(cs).witness == old(cs).witness,
        final(cs)@.inputs == old(cs)@.inputs,
        forall|x: Assignment| #[trigger]
            final(cs)@.follows(x) ==> r.at(x) == (eq.at(x) * (tau.at(x) * r_i.at(x) + (1 - tau.at(x)) * (1 - r_i.at(x))))
                % F::modulus(),
{
    let ghost before = cs@;
    let ghost p = F::modulus();
    let left = tau.mul(cs, r_i);
    let ghost s1 = cs@;
    let a = lc_minus(lc_var(one.variable), tau.variable);
    let b = lc_minus(lc_var(one.variable), r_i.variable);
    let value = one.value.sub(&tau.value).mul(&one.value.sub(&r_i.value));
    proof {
        F::modulus_bounds();
        let own = s1.own();
        lemma_own(*one, s1);
        lemma_own(*tau, s1);
        lemma_own(*r_i, s1);
        let (d, e) = (one.value.val() - tau.value.val(), one.value.val() - r_i.value.val());
        lemma_cong_mod(d, p);
        lemma_cong_mod(e, p);
        lemma_cong_mul(d % p, d, e % p, e, p);
        lemma_cong_mod((d % p) * (e % p), p);
        assert(cong(lc_eval(a@, own), d, p) && cong(lc_eval(b@, own), e, p));
        lemma_cong_mul(lc_eval(a@, own), d, lc_eval(b@, own), e, p);
    }
    let right = constrain(cs, a, b, value);
    let ghost s2 = cs@;
    let factor = lc_plus(lc_var(left.variable), right.variable);
    let whole = lc_var(eq.variable);
    let product = eq.value.mul(&left.value.add(&right.value));
    proof {
        lemma_step_trans(before, s1, s2);
        let own = s2.own();
        lemma_own(*eq, s2);
        lemma_own(left, s2);
        lemma_own(right, s2);
        let t = left.value.val() + right.value.val();
        assert(lc_eval(factor@, own) == t);
        lemma_cong_mod(t, p);
        lemma_cong_mul(eq.value.val(), eq.value.val(), t % p, t, p);
        lemma_cong_mod(eq.value.val() * (t % p), p);
    }
    let r = constrain(cs, whole, factor, product);
    proof {
        lemma_step_trans(before, s2, cs@);
        assert forall|x: Assignment| #[trigger] cs@.follows(x) implies r.at(x) == (eq.at(x) * (tau.at(x) * r_i.at(x) + (1
            - tau.at(x)) * (1 - r_i.at(x)))) % p by {
            assert(s2.follows(x) && s1.follows(x) && before.follows(x));
            let (t, k) = (tau.at(x), r_i.at(x));
            lemma_cong_mod(t * k, p);
            assert(cong(lc_eval(a@, x), 1 - t, p) && cong(lc_eval(b@, x), 1 - k, p));
            lemma_cong_mul(lc_eval(a@, x), 1 - t, lc_eval(b@, x), 1 - k, p);
            lemma_cong_mod(lc_eval(a@, x) * lc_eval(b@, x), p);
            lemma_cong_add(left.at(x), t * k, right.at(x), (1 - t) * (1 - k), p);
            let f = t * k + (1 - t) * (1 - k);
            assert(lc_eval(factor@, x) == left.at(x) + right.at(x));
            lemma_cong_mul(eq.at(x), eq.at(x), lc_eval(factor@, x), f, p);
        }
    }
    r
}

/// Lists of numbers under an assignment.
pub open spec fn list_ats<F: FieldElement>(lists: Seq<Vec<AllocatedNum<F>>>, x: Assignment) -> Seq<Seq<int>> {
    Seq::new(lists.len(), |i: int| ats(lists[i]@, x))
}

/// The values that lists of numbers were given.
pub open spec fn list_vals<F: FieldElement>(lists: Seq<Vec<AllocatedNum<F>>>) -> Seq<Seq<int>> {
    Seq::new(lists.len(), |i: int| nvals(lists[i]@))
}

/// Whether all numbers of all lists are of the system.
pub open spec fn lists_within<F: FieldElement>(lists: Seq<Vec<AllocatedNum<F>>>, cs: CsView) -> bool {
    forall|i: int| 0 <= i < lists.len() ==> all_within((#[trigger] lists[i])@, cs)
}

/// Where an assignment agrees with the values given, it gives lists of numbers their values.
pub proof fn lemma_list_ats<F: FieldElement>(lists: Seq<Vec<AllocatedNum<F>>>, cs: CsView, x: Assignment)
    requires
        lists_within(lists, cs),
        cs.agrees(x),
    ensures
        list_ats(lists, x) == list_vals(lists),
{
    assert forall|i: int| 0 <= i < lists.len() implies ats(lists[i]@, x) == nvals((#[trigger] lists[i])@) by {
        lemma_ats(lists[i]@, cs, x);
    }
    assert(list_ats(lists, x) =~= list_vals(lists));
}

/// Whether there is one polynomial for each round, and each has as many coefficients as the degree allows.
pub open spec fn rounds_fit<F: FieldElement>(polys: Seq<Vec<AllocatedNum<F>>>, rounds: nat, degree_bound: int) -> bool {
    &&& polys.len() == rounds
    &&& forall|i: int| 0 <= i < polys.len() ==> (#[trigger] polys[i])@.len() == degree_bound + 1
}

impl<E: CircuitEngine> AllocatedRelaxedR1CSInstance<E> {
    /// The verifier of a sum-check in a system: the last claim has to be the product of the equality polynomial and what
    /// the evaluations stand for.
    pub fn sumcheck_verify(
        cs: &mut ConstraintSystem<E::Base>,
        ro: OracleCircuit<E>,
        ro_consts: &<E::RO as RandomOracle<E::Base>>::Constants,
        degree_bound: usize,
        polys: &Vec<Vec<AllocatedNum<E::Base>>>,
        taus: &Vec<AllocatedNum<E::Base>>,
        evals: &Vec<AllocatedNum<E::Base>>,
        eval_e: &AllocatedNum<E::Base>,
        u_u: &AllocatedNum<E::Base>,
    ) -> (r: Result<(), NovaError>)
        requires
            old(cs)@.wf(),
            all_within(ro.state@, old(cs)@),
            ro.state@.len() + degree_bound + 2 <= MAX_ABSORBED,
            lists_within(polys@, old(cs)@),
            all_within(taus@, old(cs)@),
            all_within(evals@, old(cs)@),
            evals@.len() >= 3,
            eval_e.within(old(cs)@),
            u_u.within(old(cs)@),
        ensures
            step(old(cs)@, final(cs)@),
            final(cs).witness == old(cs).witness,
            final(cs)@.inputs == old(cs)@.inputs,
            r is Ok <==> rounds_fit(polys@, taus@.len(), degree_bound as int),
            r matches Err(e) ==> e == NovaError::InvalidSumcheckProof && final(cs)@.satisfied() == old(cs)@.satisfied(),
            r is Ok ==> final(cs)@.satisfied() == (old(cs)@.satisfied() && sumcheck_accepted(
                hash_of::<E>(),
                E::Base::modulus(),
                nvals(ro.state@),
                list_vals(polys@),
                nvals(taus@),
                nvals(evals@),
                eval_e.value.val(),
                u_u.value.val(),
            )),
            r is Ok ==> forall|x: Assignment| #[trigger]
                final(cs)@.holds(x) ==> sumcheck_accepted(
                    hash_of::<E>(),
                    E::Base::modulus(),
                    ats(ro.state@, x),
                    list_ats(polys@, x),
                    ats(taus@, x),
                    ats(evals@, x),
                    eval_e.at(x),
                    u_u.at(x),
                ),
    {
        let ghost before = cs@;
        let ghost p = E::Base::modulus();
        let ghost hash = hash_of::<E>();
        let ghost start = ro.state@;
        let mut ro = ro;
        let zero = alloc_zero(cs);
        let mut claim = zero;
        if polys.len() != taus.len() {
            return Err(NovaError::InvalidSumcheckProof);
        }
        let ghost s1 = cs@;
        let one = alloc_one(cs);
        let ghost s2 = cs@;
        let mut eq = alloc_one(cs);
        let ghost s3 = cs@;
        let mut i: usize = 0;
        proof {
            E::Base::modulus_bounds();
            lemma_step_trans(before, s1, s2);
            lemma_step_trans(before, s2, s3);
            assert forall|k: int| 0 <= k < start.len() implies (#[trigger] start[k]).within(s3) by {
                assert(start[k].within(before));
            }
        }
        while i < polys.len()
            invariant
                i <= polys.len(),
                polys.len() == taus.len(),
                before == old(cs)@,
                p == E::Base::modulus(),
                p > 1,
                hash == hash_of::<E>(),
                start.len() + degree_bound + 2 <= MAX_ABSORBED,
                lists_within(polys@, before),
                all_within(taus@, before),
                step(before, cs@),
                cs@.satisfied() == before.satisfied(),
                cs.witness == old(cs).witness,
                cs@.inputs == before.inputs,
                one.within(cs@),
                zero.within(cs@),
                claim.within(cs@),
                eq.within(cs@),
                all_within(ro.state@, cs@),
                ro.state@.len() <= start.len() + 1,
                forall|x: Assignment| #[trigger]
                    cs@.follows(x) ==> one.at(x) == 1 && zero.at(x) == 0 && after_rounds(
                        hash,
                        p,
                        ats(start, x),
                        list_ats(polys@, x),
                        ats(taus@, x),
                        i as nat,
                    ) == (RoundsView { state: ats(ro.state@, x), claim: claim.at(x), eq: eq.at(x) }),
                forall|k: int| 0 <= k < i ==> (#[trigger] polys@[k])@.len() == degree_bound + 1,
            decreases polys.len() - i,
        {
            let ghost (t0, claim0, eq0, state0) = (cs@, claim, eq, ro.state@);
            let poly = &polys[i];
            assert(*poly == polys@[i as int]);
            if poly.len() == 0 || poly.len() - 1 != degree_bound {
                return Err(NovaError::InvalidSumcheckProof);
            }
            ro.absorb_all(poly);
            let ghost absorbed = ro.state@;
            proof {
                assert forall|k: int| 0 <= k < absorbed.len() implies (#[trigger] absorbed[k]).within(t0) by {
                    if k < state0.len() {
                        assert(state0[k].within(t0));
                    } else {
                        assert(poly@[k - state0.len()].within(before));
                    }
                }
            }
            let (r_i, _bits) = ro.squeeze_num(cs, ro_consts, 128);
            let ghost t1 = cs@;
            proof {
                lemma_step_trans(before, t0, t1);
                assert(taus@[i as int].within(before));
                assert forall|k: int| 0 <= k < poly@.len() implies (#[trigger] poly@[k]).within(t1) by {
                    assert(poly@[k].within(before));
                }
            }
            claim = add_poly_value(cs, &zero, poly, &r_i);
            let ghost t2 = cs@;
            proof {
                lemma_step_trans(before, t1, t2);
                lemma_step_trans(t0, t1, t2);
            }
            eq = extend_eq(cs, &eq, &taus[i], &r_i, &one);
            proof {
                lemma_step_trans(before, t2, cs@);
                lemma_step_trans(t1, t2, cs@);
                assert forall|k: int| 0 <= k < ro.state@.len() implies (#[trigger] ro.state@[k]).within(cs@) by {
                    assert(ro.state@[k].within(t1));
                }
                assert forall|x: Assignment| #[trigger] cs@.follows(x) implies one.at(x) == 1 && zero.at(x) == 0 && after_rounds(
                    hash,
                    p,
                    ats(start, x),
                    list_ats(polys@, x),
                    ats(taus@, x),
                    (i + 1) as nat,
                ) == (RoundsView { state: ats(ro.state@, x), claim: claim.at(x), eq: eq.at(x) }) by {
                    assert(t2.follows(x) && t1.follows(x) && t0.follows(x));
                    let prev = RoundsView { state: ats(state0, x), claim: claim0.at(x), eq: eq0.at(x) };
                    let poly_at = list_ats(polys@, x)[i as int];
                    assert(poly_at == ats(poly@, x));
                    assert(ats(absorbed, x) =~= prev.state + poly_at);
                    assert(r_i.at(x) == challenge(hash, prev.state + poly_at));
                }
            }
            i = i + 1;
        }
        let ghost s4 = cs@;
        proof {
            assert(evals@[0].within(before) && evals@[1].within(before) && evals@[2].within(before));
        }
        let eval_ab = evals[0].mul(cs, &evals[1]);
        let ghost s5 = cs@;
        let eval_uc = u_u.mul(cs, &evals[2]);
        let ghost s6 = cs@;
        let expected = eq.value.mul(&eval_ab.value.sub(&eval_uc.value).sub(&eval_e.value));
        let _claim_final_expected = AllocatedNum::allocate(cs, &expected);
        let ghost s7 = cs@;
        let a = lc_var(eq.variable);
        let part = lc_minus(lc_var(eval_ab.variable), eval_uc.variable);
        let b = lc_minus(part, eval_e.variable);
        let c = lc_var(claim.variable);
        let ghost good = sumcheck_accepted(
            hash,
            p,
            nvals(start),
            list_vals(polys@),
            nvals(taus@),
            nvals(evals@),
            eval_e.value.val(),
            u_u.value.val(),
        );
        proof {
            lemma_step_trans(before, s4, s5);
            lemma_step_trans(before, s5, s6);
            lemma_step_trans(before, s6, s7);
            lemma_step_trans(s4, s5, s6);
            lemma_step_trans(s4, s6, s7);
            lemma_step_trans(s5, s6, s7);
            assert forall|x: Assignment| #[trigger] s7.follows(x) implies cong(
                lc_eval(a@, x) * lc_eval(b@, x),
                lc_eval(c@, x),
                p,
            ) == sumcheck_accepted(
                hash,
                p,
                ats(start, x),
                list_ats(polys@, x),
                ats(taus@, x),
                ats(evals@, x),
                eval_e.at(x),
                u_u.at(x),
            ) by {
                assert(s6.follows(x) && s5.follows(x) && s4.follows(x));
                let (e0, e1, e2) = (evals@[0].at(x), evals@[1].at(x), evals@[2].at(x));
                let (u, e) = (u_u.at(x), eval_e.at(x));
                lemma_cong_mod(e0 * e1, p);
                lemma_cong_mod(u * e2, p);
                assert(cong(lc_eval(part@, x), eval_ab.at(x) - eval_uc.at(x), p));
                assert(cong(lc_eval(b@, x), lc_eval(part@, x) - e, p));
                lemma_cong_sub(eval_ab.at(x), e0 * e1, eval_uc.at(x), u * e2, p);
                lemma_cong_sub(lc_eval(part@, x), e0 * e1 - u * e2, e, e, p);
                let t = e0 * e1 - u * e2 - e;
                lemma_cong_mul(eq.at(x), eq.at(x), lc_eval(b@, x), t, p);
                assert(ats(evals@, x)[0] == e0 && ats(evals@, x)[1] == e1 && ats(evals@, x)[2] == e2);
            }
            lemma_own_agrees(s7);
            let own = s7.own();
            lemma_all_step(start, before, s7);
            lemma_all_step(taus@, before, s7);
            lemma_all_step(evals@, before, s7);
            assert forall|k: int| 0 <= k < polys@.len() implies all_within((#[trigger] polys@[k])@, s7) by {
                lemma_all_step(polys@[k]@, before, s7);
            }
            lemma_ats(start, s7, own);
            lemma_ats(taus@, s7, own);
            lemma_ats(evals@, s7, own);
            lemma_list_ats(polys@, s7, own);
            lemma_at(*eval_e, s7, own);
            lemma_at(*u_u, s7, own);
        }
        demand(cs, a, b, c, Ghost(good));
        proof {
            lemma_step_trans(before, s7, cs@);
            assert forall|x: Assignment| #[trigger] cs@.holds(x) implies sumcheck_accepted(
                hash,
                p,
                ats(start, x),
                list_ats(polys@, x),
                ats(taus@, x),
                ats(evals@, x),
                eval_e.at(x),
                u_u.at(x),
            ) by {
                assert(s7.holds(x));
                assert(s7.follows(x));
            }
        }
        Ok(())
    }
}

/// Numbers stay of a system that is extended.
pub proof fn lemma_all_step<F: FieldElement>(nums: Seq<AllocatedNum<F>>, a: CsView, b: CsView)
    requires
        all_within(nums, a),
        step(a, b),
    ensures
        all_within(nums, b),
{
    assert forall|k: int| 0 <= k < nums.len() implies (#[trigger] nums[k]).within(b) by {
        assert(nums[k].within(a));
    }
}

/// Whether numbers are the hashes of the rounds: that of the first polynomial behind what was absorbed before it, and that
/// of each later one behind the hash before it.
pub open spec fn hashes_rounds(hash: spec_fn(Seq<int>) -> int, state: Seq<int>, polys: Seq<Seq<int>>, h: Seq<int>) -> bool {
    &&& h.len() > 0 ==> h[0] == hash(state + polys[0])
    &&& forall|k: int| 0 < k < h.len() ==> #[trigger] h[k] == hash(seq![h[k - 1]] + polys[k])
}

/// The hashes of the rounds.
proof fn lemma_hashes_rounds(
    hash: spec_fn(Seq<int>) -> int,
    p: int,
    state: Seq<int>,
    polys: Seq<Seq<int>>,
    taus: Seq<int>,
    n: nat,
) -> (h: Seq<int>)
    ensures
        h.len() == n,
        hashes_rounds(hash, state, polys, h),
        n > 0 ==> after_rounds(hash, p, state, polys, taus, n).state == seq![h[n - 1]],
        n == 0 ==> after_rounds(hash, p, state, polys, taus, n).state == state,
        forall|k: int| 0 <= k < n ==> #[trigger] round_point(hash, p, state, polys, taus, n)[k] == h[k] % (pow2(128) as int),
    decreases n,
{
    if n == 0 {
        Seq::empty()
    } else {
        let g = lemma_hashes_rounds(hash, p, state, polys, taus, (n - 1) as nat);
        let before = after_rounds(hash, p, state, polys, taus, (n - 1) as nat);
        let h = g.push(hash(before.state + polys[n - 1]));
        let (a, b) = (
            round_point(hash, p, state, polys, taus, (n - 1) as nat),
            round_point(hash, p, state, polys, taus, n),
        );
        assert forall|k: int| 0 <= k < n implies #[trigger] b[k] == h[k] % (pow2(128) as int) by {
            if k < n - 1 {
                assert(a[k] == b[k]);
            }
        }
        h
    }
}

/// A sum-check of at least one round is accepted exactly if, at the short hashes of its rounds, the last polynomial is the
/// equality polynomial of the taus and the challenges times what the evaluations stand for.
pub proof fn check_is_decided_by_hashes(
    hash: spec_fn(Seq<int>) -> int,
    p: int,
    state: Seq<int>,
    polys: Seq<Seq<int>>,
    taus: Seq<int>,
    evals: Seq<int>,
    e: int,
    u: int,
) -> (h: Seq<int>)
    requires
        p > 1,
        polys.len() == taus.len(),
        taus.len() > 0,
    ensures
        h.len() == taus.len(),
        hashes_rounds(hash, state, polys, h),
        ({
            let point = Seq::new(h.len(), |k: int| h[k] % (pow2(128) as int));
            sumcheck_accepted(hash, p, state, polys, taus, evals, e, u) <==> cong(
                equality(taus, point, taus.len()) * (evals[0] * evals[1] - u * evals[2] - e),
                poly_value(polys.last(), point.last(), polys.last().len() as int),
                p,
            )
        }),
{
    let h = lemma_hashes_rounds(hash, p, state, polys, taus, taus.len());
    let point = Seq::new(h.len(), |k: int| h[k] % (pow2(128) as int));
    assert(point =~= round_point(hash, p, state, polys, taus, taus.len()));
    last_polynomial_decides(hash, p, state, polys, taus, evals, e, u);
    h
}

/// The values of a polynomial at zero and one are its constant coefficient and the sum of its coefficients, and the value
/// of a cubic one is that of its powers.
pub proof fn polynomial_is_its_powers(c: Seq<int>, r: int)
    requires
        c.len() == 4,
    ensures
        poly_value(c, r, 4) == c[0] + c[1] * r + c[2] * (r * r) + c[3] * (r * r * r),
{
    reveal_with_fuel(poly_value, 5);
    reveal_with_fuel(pow, 4);
    assert(pow(r, 0) == 1 && pow(r, 1) == r);
    assert(pow(r, 2) == r * r);
    assert(pow(r, 3) == r * r * r) by (nonlinear_arith)
        requires
            pow(r, 3) == r * pow(r, 2),
            pow(r, 2) == r * r,
    ;
    let (a, b, d) = (c[1], c[2], c[3]);
    assert(1 * c[0] == c[0]);
    assert(r * a == a * r && (r * r) * b == b * (r * r) && (r * r * r) * d == d * (r * r * r)) by (nonlinear_arith);
}

/// The equality polynomial of the rounds is the one that tells the corners of the hypercube apart.
pub proof fn equality_is_that_of_points(taus: Seq<int>, point: Seq<int>, k: nat)
    ensures
        equality(taus, point, k) == eq_points(taus, point, k as int),
    decreases k,
{
    if k > 0 {
        equality_is_that_of_points(taus, point, (k - 1) as nat);
    }
}

} // verus!
