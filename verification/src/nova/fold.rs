//! The folds of an instance into a relaxed one in a constraint system.
use crate::bignat::{checked_sum, lemma_nat_within, AllocatedBigNat};
use crate::cs::{lemma_own_follows, lemma_step_trans, step, Assignment, ConstraintSystem, CsView};
use crate::engine::{CurveGroup, RandomOracle};
use crate::field::FieldElement;
use crate::fragment::CircuitEngine;
use crate::gadgets::{
    all_within, alloc_one, alloc_zero, ats, bit_ats, bits_value, bits_within, lemma_at, AllocatedBit, AllocatedNum,
};
use crate::math::{cong, lemma_cong_add, lemma_cong_mod, lemma_cong_mul};
use crate::nifs::hash_of;
use crate::nova::instance::{
    lemma_instance_nums, lemma_relaxed_within, AllocatedR1CSInstance, AllocatedRelaxedR1CSInstance,
};
use crate::nova::sumcheck::{lemma_all_step, list_ats, list_vals, lists_within, rounds_fit, sumcheck_accepted};
use crate::oracle::OracleCircuit;
use crate::points::AllocatedPoint;
use crate::proof_circuit::{lemma_ats, lemma_own_agrees, nvals};
use crate::sumcheck::challenge;
use vstd::arithmetic::power::pow;
use vstd::arithmetic::power2::pow2;
use vstd::prelude::*;

verus! {

/// The sum of the powers of a number from the first to the `n`th.
pub open spec fn power_sum(r: int, n: nat) -> int
    decreases n,
{
    if n == 0 {
        0
    } else {
        power_sum(r, (n - 1) as nat) + pow(r, n)
    }
}

/// How often the masking commitment is added: once for each power of the challenge below the one that the degree gives.
pub open spec fn mask_terms(deg: int) -> nat {
    if deg > 1 {
        (pow2(deg as nat) - 1) as nat
    } else {
        1
    }
}

/// The powers that the masking commitment comes in with are a geometric series.
pub proof fn masks_are_geometric(r: int, n: nat)
    ensures
        (r - 1) * power_sum(r, n) == pow(r, n + 1) - r,
    decreases n,
{
    vstd::arithmetic::power::lemma_pow_adds(r, 1, n);
    vstd::arithmetic::power::lemma_pow1(r);
    if n == 0 {
        vstd::arithmetic::power::lemma_pow0(r);
        assert((r - 1) * 0 == 0);
    } else {
        masks_are_geometric(r, (n - 1) as nat);
        let (g, w) = (power_sum(r, (n - 1) as nat), pow(r, n));
        assert((r - 1) * (g + w) == (r - 1) * g + r * w - w) by (nonlinear_arith);
    }
}

/// Whether a number is congruent to another plus a product, the factors of which are given by their residues.
pub open spec fn adds_product(a: int, b: int, old_: int, new_: int, r: int, k: int, p: int, q: int) -> bool {
    &&& a % p == r
    &&& b % p == k
    &&& cong(new_, old_ + b * a, q)
}

/// Whether a public value was folded.
pub open spec fn folds_value(old_: int, new_: int, r: int, k: int, p: int, q: int) -> bool {
    exists|a: int, b: int| #[trigger] adds_product(a, b, old_, new_, r, k, p, q)
}

/// A point plus a multiple of another.
pub open spec fn folds_point<E: CurveGroup>(
    acc: AllocatedPoint<E>,
    other: AllocatedPoint<E>,
    factor: int,
    r: AllocatedPoint<E>,
    x: Assignment,
) -> bool {
    acc.is_point_at(x) && other.is_point_at(x) ==> r.is_point_at(x) && r.log_at(x) == (acc.log_at(x) + other.log_at(x)
        * factor) % E::Scalar::modulus()
}

/// What an oracle absorbs before the challenge of a fold.
pub open spec fn fold_inputs<E: CurveGroup>(
    params: AllocatedNum<E::Base>,
    u: AllocatedR1CSInstance<E>,
    T: AllocatedPoint<E>,
    S: AllocatedPoint<E>,
) -> Seq<AllocatedNum<E::Base>> {
    seq![params] + u.elements() + T.nums() + S.nums()
}

/// The challenge of a fold under an assignment.
pub open spec fn fold_challenge<E: CircuitEngine>(
    params: AllocatedNum<E::Base>,
    u: AllocatedR1CSInstance<E>,
    T: AllocatedPoint<E>,
    S: AllocatedPoint<E>,
    x: Assignment,
) -> int {
    challenge(hash_of::<E>(), ats(fold_inputs(params, u, T, S), x))
}

/// Whether a relaxed instance is the fold of an instance into another: the commitments and the factor are those of the
/// one plus the challenge times those of the other, the masking commitment comes in with several powers, and so do the
/// public values, as far as their limbs are limbs.
pub open spec fn folded<E: CircuitEngine>(
    U: AllocatedRelaxedR1CSInstance<E>,
    u: AllocatedR1CSInstance<E>,
    T: AllocatedPoint<E>,
    S: AllocatedPoint<E>,
    terms: nat,
    r: int,
    V: AllocatedRelaxedR1CSInstance<E>,
    x: Assignment,
) -> bool {
    let (p, q) = (E::Base::modulus(), E::Scalar::modulus());
    &&& folds_point(U.W, u.comm_W, r, V.W, x)
    &&& folds_point(U.R, S, power_sum(r, terms), V.R, x)
    &&& folds_point(U.E, T, r, V.E, x)
    &&& V.u.at(x) == (U.u.at(x) + r) % p
    &&& U.X0.proper_at(x) ==> V.X0.proper_at(x) && folds_value(U.X0.at(x), V.X0.at(x), r, u.X0.at(x), p, q)
    &&& U.X1.proper_at(x) ==> V.X1.proper_at(x) && folds_value(U.X1.at(x), V.X1.at(x), r, u.X1.at(x), p, q)
}

/// The public value that the values given fold to.
pub open spec fn folded_public(old_: int, k: int, r: int, q: int) -> int {
    (old_ + k * r) % q
}

/// A point plus a product of another and a number of bits.
fn fold_point<E: CircuitEngine>(
    cs: &mut ConstraintSystem<E::Base>,
    acc: &AllocatedPoint<E>,
    other: &AllocatedPoint<E>,
    bits: &Vec<AllocatedBit<E::Base>>,
) -> (r: (AllocatedPoint<E>, AllocatedPoint<E>))
    requires
        old(cs)@.wf(),
        acc.within(old(cs)@),
        other.within(old(cs)@),
        bits_within(bits@, old(cs)@),
        0 < bits.len() <= 250,
    ensures
        step(old(cs)@, final(cs)@),
        final(cs)@.satisfied() == old(cs)@.satisfied(),
        final(cs).witness == old(cs).witness,
        final(cs)@.inputs == old(cs)@.inputs,
        r.0.within(final(cs)@),
        r.1.within(final(cs)@),
        forall|x: Assignment| #[trigger]
            final(cs)@.follows(x) ==> ({
                let k = bits_value(bit_ats(bits@, x), bits.len() as int);
                &&& other.is_point_at(x) ==> r.1.is_point_at(x) && r.1.log_at(x) == (other.log_at(x) * k)
                    % E::Scalar::modulus()
                &&& folds_point(*acc, *other, k, r.0, x)
            }),
{
    let ghost before = cs@;
    let ghost q = E::Scalar::modulus();
    let product = other.scalar_mul(cs, bits);
    let ghost s1 = cs@;
    let total = acc.add(cs, &product);
    proof {
        E::Scalar::modulus_bounds();
        lemma_step_trans(before, s1, cs@);
        assert forall|x: Assignment| #[trigger] cs@.follows(x) implies ({
            let k = bits_value(bit_ats(bits@, x), bits.len() as int);
            &&& other.is_point_at(x) ==> product.is_point_at(x) && product.log_at(x) == (other.log_at(x) * k) % q
            &&& folds_point(*acc, *other, k, total, x)
        }) by {
            assert(s1.follows(x));
            let k = bits_value(bit_ats(bits@, x), bits.len() as int);
            let t = other.log_at(x) * k;
            lemma_cong_mod(t, q);
            lemma_cong_add(acc.log_at(x), acc.log_at(x), t % q, t, q);
        }
    }
    (total, product)
}

/// One more power of the challenge times a point, added to the sum of those before.
proof fn lemma_next_mask(acc: int, s: int, r: int, i: nat, term: int, total: int, q: int)
    requires
        q > 1,
        term == (s * pow(r, i)) % q,
        total == (acc + s * power_sum(r, i)) % q,
    ensures
        (term * r) % q == (s * pow(r, i + 1)) % q,
        (total + (term * r) % q) % q == (acc + s * power_sum(r, i + 1)) % q,
{
    let w = pow(r, i);
    lemma_cong_mod(s * w, q);
    lemma_cong_mul(term, s * w, r, r, q);
    vstd::arithmetic::power::lemma_pow_adds(r, i, 1);
    vstd::arithmetic::power::lemma_pow1(r);
    assert((s * w) * r == s * (w * r)) by (nonlinear_arith);
    let v = pow(r, i + 1);
    lemma_cong_mod(term * r, q);
    lemma_cong_mod(acc + s * power_sum(r, i), q);
    lemma_cong_add(total, acc + s * power_sum(r, i), (term * r) % q, s * v, q);
    let g = power_sum(r, i);
    assert(s * g + s * v == s * (g + v)) by (nonlinear_arith);
    assert(power_sum(r, i + 1) == g + v);
}

/// A point plus the first `terms` powers of a number of bits times another.
fn fold_mask<E: CircuitEngine>(
    cs: &mut ConstraintSystem<E::Base>,
    acc: &AllocatedPoint<E>,
    S: &AllocatedPoint<E>,
    bits: &Vec<AllocatedBit<E::Base>>,
    terms: u32,
) -> (r: AllocatedPoint<E>)
    requires
        old(cs)@.wf(),
        acc.within(old(cs)@),
        S.within(old(cs)@),
        bits_within(bits@, old(cs)@),
        0 < bits.len() <= 250,
        terms >= 1,
    ensures
        step(old(cs)@, final(cs)@),
        final(cs)@.satisfied() == old(cs)@.satisfied(),
        final(cs).witness == old(cs).witness,
        final(cs)@.inputs == old(cs)@.inputs,
        r.within(final(cs)@),
        forall|x: Assignment| #[trigger]
            final(cs)@.follows(x) ==> folds_point(
                *acc,
                *S,
                power_sum(bits_value(bit_ats(bits@, x), bits.len() as int), terms as nat),
                r,
                x,
            ),
{
    let ghost before = cs@;
    let ghost q = E::Scalar::modulus();
    let ghost n = bits.len() as int;
    let (mut total, mut term) = fold_point(cs, acc, S, bits);
    let mut i: u32 = 1;
    proof {
        E::Scalar::modulus_bounds();
        assert forall|x: Assignment| #[trigger] cs@.follows(x) && acc.is_point_at(x) && S.is_point_at(x) implies ({
            let k = bits_value(bit_ats(bits@, x), n);
            &&& total.is_point_at(x)
            &&& term.is_point_at(x)
            &&& term.log_at(x) == (S.log_at(x) * pow(k, 1)) % q
            &&& total.log_at(x) == (acc.log_at(x) + S.log_at(x) * power_sum(k, 1)) % q
        }) by {
            let k = bits_value(bit_ats(bits@, x), n);
            vstd::arithmetic::power::lemma_pow1(k);
            reveal_with_fuel(power_sum, 2);
            assert(folds_point(*acc, *S, k, total, x));
        }
    }
    while i < terms
        invariant
            1 <= i <= terms,
            q == E::Scalar::modulus(),
            q > 1,
            n == bits.len(),
            0 < bits.len() <= 250,
            acc.within(before),
            S.within(before),
            bits_within(bits@, before),
            step(before, cs@),
            cs@.satisfied() == before.satisfied(),
            cs.witness == old(cs).witness,
            cs@.inputs == before.inputs,
            total.within(cs@),
            term.within(cs@),
            forall|x: Assignment| #[trigger]
                cs@.follows(x) && acc.is_point_at(x) && S.is_point_at(x) ==> ({
                    let k = bits_value(bit_ats(bits@, x), n);
                    &&& total.is_point_at(x)
                    &&& term.is_point_at(x)
                    &&& term.log_at(x) == (S.log_at(x) * pow(k, i as nat)) % q
                    &&& total.log_at(x) == (acc.log_at(x) + S.log_at(x) * power_sum(k, i as nat)) % q
                }),
        decreases terms - i,
    {
        let ghost (s0, term0, total0) = (cs@, term, total);
        proof {
            assert forall|k: int| 0 <= k < bits@.len() implies (#[trigger] bits@[k]).within(s0) by {
                assert(bits@[k].within(before));
            }
        }
        term = term.scalar_mul(cs, bits);
        let ghost s1 = cs@;
        total = total.add(cs, &term);
        proof {
            lemma_step_trans(s0, s1, cs@);
            lemma_step_trans(before, s0, cs@);
            assert forall|x: Assignment| #[trigger] cs@.follows(x) && acc.is_point_at(x) && S.is_point_at(x) implies ({
                let k = bits_value(bit_ats(bits@, x), n);
                &&& total.is_point_at(x)
                &&& term.is_point_at(x)
                &&& term.log_at(x) == (S.log_at(x) * pow(k, (i + 1) as nat)) % q
                &&& total.log_at(x) == (acc.log_at(x) + S.log_at(x) * power_sum(k, (i + 1) as nat)) % q
            }) by {
                assert(s1.follows(x) && s0.follows(x));
                let k = bits_value(bit_ats(bits@, x), n);
                lemma_next_mask(acc.log_at(x), S.log_at(x), k, i as nat, term0.log_at(x), total0.log_at(x), q);
            }
        }
        i = i + 1;
    }
    total
}

/// A public value plus the challenge times another, modulo the order of the scalar field.
fn fold_value<E: CircuitEngine>(
    cs: &mut ConstraintSystem<E::Base>,
    X: &AllocatedBigNat<E>,
    k: &AllocatedNum<E::Base>,
    r: &AllocatedNum<E::Base>,
    r_bn: &AllocatedBigNat<E>,
    m_bn: &AllocatedBigNat<E>,
) -> (v: AllocatedBigNat<E>)
    requires
        old(cs)@.wf(),
        X.within(old(cs)@),
        k.within(old(cs)@),
        r.within(old(cs)@),
        r_bn.within(old(cs)@),
        m_bn.within(old(cs)@),
        r_bn.value() == r.value.val(),
        m_bn.value() == E::Scalar::modulus(),
        forall|x: Assignment| #[trigger]
            old(cs)@.follows(x) ==> r_bn.proper_at(x) && r_bn.at(x) % E::Base::modulus() == r.at(x) && m_bn.proper_at(x)
                && m_bn.at(x) == E::Scalar::modulus(),
    ensures
        step(old(cs)@, final(cs)@),
        final(cs)@.satisfied() == old(cs)@.satisfied(),
        final(cs).witness == old(cs).witness,
        final(cs)@.inputs == old(cs)@.inputs,
        v.within(final(cs)@),
        v.value() == folded_public(X.value(), k.value.val(), r.value.val(), E::Scalar::modulus()),
        forall|x: Assignment| #[trigger]
            final(cs)@.follows(x) && X.proper_at(x) ==> v.proper_at(x) && folds_value(
                X.at(x),
                v.at(x),
                r.at(x),
                k.at(x),
                E::Base::modulus(),
                E::Scalar::modulus(),
            ),
{
    let ghost before = cs@;
    let ghost (p, q) = (E::Base::modulus(), E::Scalar::modulus());
    let k_bn = AllocatedBigNat::from_num(cs, k);
    let ghost s1 = cs@;
    proof {
        lemma_nat_within(*X, before, s1);
        lemma_nat_within(*r_bn, before, s1);
        lemma_nat_within(*m_bn, before, s1);
    }
    let product = k_bn.mult_mod(cs, r_bn, m_bn);
    let ghost s2 = cs@;
    proof {
        lemma_nat_within(*X, s1, s2);
        lemma_nat_within(*m_bn, s1, s2);
    }
    let v = X.add_mod(cs, &product, m_bn);
    proof {
        E::Scalar::modulus_bounds();
        lemma_step_trans(before, s1, s2);
        lemma_step_trans(before, s2, cs@);
        lemma_step_trans(s1, s2, cs@);
        let t = k.value.val() * r.value.val();
        lemma_cong_mod(t, q);
        lemma_cong_add(X.value(), X.value(), t % q, t, q);
        assert forall|x: Assignment| #[trigger] cs@.follows(x) && X.proper_at(x) implies v.proper_at(x) && folds_value(
            X.at(x),
            v.at(x),
            r.at(x),
            k.at(x),
            p,
            q,
        ) by {
            assert(s2.follows(x) && s1.follows(x) && before.follows(x));
            let (a, b) = (r_bn.at(x), k_bn.at(x));
            lemma_cong_add(X.at(x), X.at(x), product.at(x), b * a, q);
            assert(adds_product(a, b, X.at(x), v.at(x), r.at(x), k.at(x), p, q));
        }
    }
    v
}

/// The folds of the two public values.
fn fold_values<E: CircuitEngine>(
    cs: &mut ConstraintSystem<E::Base>,
    U: &AllocatedRelaxedR1CSInstance<E>,
    u: &AllocatedR1CSInstance<E>,
    r: &AllocatedNum<E::Base>,
) -> (v: (AllocatedBigNat<E>, AllocatedBigNat<E>))
    requires
        old(cs)@.wf(),
        U.within(old(cs)@),
        u.within(old(cs)@),
        r.within(old(cs)@),
    ensures
        step(old(cs)@, final(cs)@),
        final(cs)@.satisfied() == old(cs)@.satisfied(),
        final(cs).witness == old(cs).witness,
        final(cs)@.inputs == old(cs)@.inputs,
        v.0.within(final(cs)@),
        v.1.within(final(cs)@),
        v.0.value() == folded_public(U.X0.value(), u.X0.value.val(), r.value.val(), E::Scalar::modulus()),
        v.1.value() == folded_public(U.X1.value(), u.X1.value.val(), r.value.val(), E::Scalar::modulus()),
        forall|x: Assignment| #[trigger]
            final(cs)@.follows(x) ==> ({
                let (p, q) = (E::Base::modulus(), E::Scalar::modulus());
                &&& U.X0.proper_at(x) ==> v.0.proper_at(x) && folds_value(
                    U.X0.at(x),
                    v.0.at(x),
                    r.at(x),
                    u.X0.at(x),
                    p,
                    q,
                )
                &&& U.X1.proper_at(x) ==> v.1.proper_at(x) && folds_value(
                    U.X1.at(x),
                    v.1.at(x),
                    r.at(x),
                    u.X1.at(x),
                    p,
                    q,
                )
            }),
{
    let ghost before = cs@;
    let r_bn = AllocatedBigNat::from_num(cs, r);
    let ghost s1 = cs@;
    let m_bn = AllocatedBigNat::alloc_constant(cs, E::scalar_limbs());
    let ghost s2 = cs@;
    proof {
        lemma_step_trans(before, s1, s2);
        lemma_nat_within(r_bn, s1, s2);
        lemma_relaxed_within(*U, before, s2);
        assert forall|x: Assignment| #[trigger] s2.follows(x) implies r_bn.proper_at(x) && r_bn.at(x)
            % E::Base::modulus() == r.at(x) && m_bn.proper_at(x) && m_bn.at(x) == E::Scalar::modulus() by {
            assert(s1.follows(x));
        }
    }
    let X0 = fold_value(cs, &U.X0, &u.X0, r, &r_bn, &m_bn);
    let ghost s3 = cs@;
    proof {
        lemma_step_trans(before, s2, s3);
        lemma_nat_within(r_bn, s2, s3);
        lemma_nat_within(m_bn, s2, s3);
        lemma_relaxed_within(*U, before, s3);
        assert forall|x: Assignment| #[trigger] s3.follows(x) implies r_bn.proper_at(x) && r_bn.at(x)
            % E::Base::modulus() == r.at(x) && m_bn.proper_at(x) && m_bn.at(x) == E::Scalar::modulus() by {
            assert(s2.follows(x));
        }
    }
    let X1 = fold_value(cs, &U.X1, &u.X1, r, &r_bn, &m_bn);
    proof {
        lemma_step_trans(before, s3, cs@);
        lemma_nat_within(X0, s3, cs@);
        assert forall|x: Assignment| #[trigger] cs@.follows(x) implies s3.follows(x) by {}
    }
    (X0, X1)
}

/// The sum-check that goes with a fold.
pub struct FoldCheck<'a, E: CurveGroup> {
    pub polys: &'a Vec<Vec<AllocatedNum<E::Base>>>,
    pub taus: &'a Vec<AllocatedNum<E::Base>>,
    pub evals: &'a Vec<AllocatedNum<E::Base>>,
}

impl<'a, E: CircuitEngine> FoldCheck<'a, E> {
    /// Whether the numbers are of the system, and there are as many as a sum-check of cubic polynomials has.
    pub open spec fn within(&self, cs: CsView) -> bool {
        &&& lists_within(self.polys@, cs)
        &&& all_within(self.taus@, cs)
        &&& all_within(self.evals@, cs)
        &&& self.evals@.len() >= 3
        &&& rounds_fit(self.polys@, self.taus@.len(), 3)
    }

    /// Whether the sum-check is accepted under an assignment, once the oracle has absorbed some numbers.
    pub open spec fn passes_at(&self, inputs: Seq<AllocatedNum<E::Base>>, x: Assignment) -> bool {
        check_passes::<E>(ats(inputs, x), list_ats(self.polys@, x), ats(self.taus@, x), ats(self.evals@, x))
    }

    /// Whether the sum-check that was given is accepted.
    pub open spec fn passes(&self, inputs: Seq<AllocatedNum<E::Base>>) -> bool {
        check_passes::<E>(nvals(inputs), list_vals(self.polys@), nvals(self.taus@), nvals(self.evals@))
    }
}

/// Whether a sum-check that starts from the hash of what was absorbed is accepted, without error and with factor one.
pub open spec fn check_passes<E: CircuitEngine>(
    absorbed: Seq<int>,
    polys: Seq<Seq<int>>,
    taus: Seq<int>,
    evals: Seq<int>,
) -> bool {
    let hash = hash_of::<E>();
    sumcheck_accepted(hash, E::Base::modulus(), seq![hash(absorbed)], polys, taus, evals, 0, 1)
}

/// Runs the sum-check of a fold.
fn run_check<E: CircuitEngine>(
    cs: &mut ConstraintSystem<E::Base>,
    ro: OracleCircuit<E>,
    ro_consts: &<E::RO as RandomOracle<E::Base>>::Constants,
    check: &FoldCheck<E>,
    Ghost(inputs): Ghost<Seq<AllocatedNum<E::Base>>>,
)
    requires
        old(cs)@.wf(),
        check.within(old(cs)@),
        all_within(inputs, old(cs)@),
        ro.state@.len() == 1,
        all_within(ro.state@, old(cs)@),
        forall|x: Assignment| #[trigger]
            old(cs)@.follows(x) ==> ats(ro.state@, x) == seq![hash_of::<E>()(ats(inputs, x))],
    ensures
        step(old(cs)@, final(cs)@),
        final(cs).witness == old(cs).witness,
        final(cs)@.inputs == old(cs)@.inputs,
        final(cs)@.satisfied() == (old(cs)@.satisfied() && check.passes(inputs)),
        forall|x: Assignment| #[trigger] final(cs)@.holds(x) ==> check.passes_at(inputs, x),
{
    let ghost before = cs@;
    let ghost state = ro.state@;
    let eval_e = alloc_zero(cs);
    let ghost s1 = cs@;
    let u_u = alloc_one(cs);
    let ghost s2 = cs@;
    proof {
        lemma_step_trans(before, s1, s2);
        lemma_all_step(state, before, s2);
        lemma_all_step(check.taus@, before, s2);
        lemma_all_step(check.evals@, before, s2);
        assert forall|k: int| 0 <= k < check.polys@.len() implies all_within((#[trigger] check.polys@[k])@, s2) by {
            lemma_all_step(check.polys@[k]@, before, s2);
        }
    }
    let verified = AllocatedRelaxedR1CSInstance::sumcheck_verify(cs, ro, ro_consts, 3, check.polys, check.taus, check.evals, &eval_e, &u_u);
    proof {
        lemma_step_trans(before, s2, cs@);
        lemma_own_agrees(before);
        lemma_ats(state, before, before.own());
        lemma_ats(inputs, before, before.own());
        lemma_own_agrees(s1);
        lemma_at(eval_e, s1, s1.own());
        assert(verified is Ok);
        assert forall|x: Assignment| #[trigger] cs@.holds(x) implies check.passes_at(inputs, x) by {
            assert(s2.holds(x));
            assert(s2.follows(x) && s1.follows(x) && before.follows(x));
        }
    }
}

/// Absorbs what goes into a fold and squeezes its challenge.
fn squeeze_fold<E: CircuitEngine>(
    cs: &mut ConstraintSystem<E::Base>,
    ro_consts: &<E::RO as RandomOracle<E::Base>>::Constants,
    params: &AllocatedNum<E::Base>,
    u: &AllocatedR1CSInstance<E>,
    T: &AllocatedPoint<E>,
    S: &AllocatedPoint<E>,
) -> (v: (OracleCircuit<E>, AllocatedNum<E::Base>, Vec<AllocatedBit<E::Base>>))
    requires
        old(cs)@.wf(),
        params.within(old(cs)@),
        u.within(old(cs)@),
        T.within(old(cs)@),
        S.within(old(cs)@),
    ensures
        step(old(cs)@, final(cs)@),
        final(cs)@.satisfied() == old(cs)@.satisfied(),
        final(cs).witness == old(cs).witness,
        final(cs)@.inputs == old(cs)@.inputs,
        all_within(fold_inputs(*params, *u, *T, *S), old(cs)@),
        v.0.state@.len() == 1,
        all_within(v.0.state@, final(cs)@),
        v.1.within(final(cs)@),
        v.2@.len() == 128,
        bits_within(v.2@, final(cs)@),
        forall|x: Assignment| #[trigger]
            final(cs)@.follows(x) ==> ({
                let r = fold_challenge(*params, *u, *T, *S, x);
                &&& ats(v.0.state@, x) == seq![hash_of::<E>()(ats(fold_inputs(*params, *u, *T, *S), x))]
                &&& v.1.at(x) == r
                &&& bits_value(bit_ats(v.2@, x), 128) == r
            }),
{
    let ghost before = cs@;
    let ghost inputs = fold_inputs(*params, *u, *T, *S);
    let mut ro = OracleCircuit::<E>::new();
    ro.absorb(params);
    u.absorb_in_ro(&mut ro);
    ro.absorb_point(T);
    ro.absorb_point(S);
    proof {
        assert(ro.state@ =~= inputs);
        lemma_instance_nums(*u, before);
        assert forall|k: int| 0 <= k < inputs.len() implies (#[trigger] inputs[k]).within(before) by {
            if 1 <= k < 6 {
                assert(inputs[k] == u.elements()[k - 1]);
            }
        }
    }
    let (r, bits) = ro.squeeze_num(cs, ro_consts, 128);
    (ro, r, bits)
}

/// The fold of an instance into a relaxed one, with a sum-check if there is one.
fn fold_instance<E: CircuitEngine>(
    U: &AllocatedRelaxedR1CSInstance<E>,
    cs: &mut ConstraintSystem<E::Base>,
    params: &AllocatedNum<E::Base>,
    u: &AllocatedR1CSInstance<E>,
    T: &AllocatedPoint<E>,
    S: &AllocatedPoint<E>,
    terms: u32,
    check: Option<&FoldCheck<E>>,
    ro_consts: &<E::RO as RandomOracle<E::Base>>::Constants,
) -> (V: AllocatedRelaxedR1CSInstance<E>)
    requires
        old(cs)@.wf(),
        U.within(old(cs)@),
        params.within(old(cs)@),
        u.within(old(cs)@),
        T.within(old(cs)@),
        S.within(old(cs)@),
        terms >= 1,
        check matches Some(c) ==> c.within(old(cs)@),
    ensures
        step(old(cs)@, final(cs)@),
        final(cs).witness == old(cs).witness,
        final(cs)@.inputs == old(cs)@.inputs,
        final(cs)@.satisfied() == (old(cs)@.satisfied() && (check matches Some(c) ==> c.passes(
            fold_inputs(*params, *u, *T, *S),
        ))),
        V.within(final(cs)@),
        V.X0.value() == given_public::<E>(*params, *u, *T, *S, U.X0.value(), u.X0.value.val()),
        V.X1.value() == given_public::<E>(*params, *u, *T, *S, U.X1.value(), u.X1.value.val()),
        forall|x: Assignment| #[trigger]
            final(cs)@.follows(x) ==> folded(
                *U,
                *u,
                *T,
                *S,
                terms as nat,
                fold_challenge(*params, *u, *T, *S, x),
                V,
                x,
            ),
        check matches Some(c) ==> forall|x: Assignment| #[trigger]
            final(cs)@.holds(x) ==> c.passes_at(fold_inputs(*params, *u, *T, *S), x),
{
    let ghost before = cs@;
    let ghost inputs = fold_inputs(*params, *u, *T, *S);
    let (ro, r, bits) = squeeze_fold(cs, ro_consts, params, u, T, S);
    let ghost s1 = cs@;
    let ghost state = ro.state@;
    let (W, _product) = fold_point(cs, &U.W, &u.comm_W, &bits);
    let ghost s2 = cs@;
    proof {
        lemma_step_trans(before, s1, s2);
        lemma_bits_step(bits@, s1, s2);
    }
    let R = fold_mask(cs, &U.R, S, &bits, terms);
    let ghost s3 = cs@;
    proof {
        lemma_step_trans(before, s2, s3);
        lemma_step_trans(s1, s2, s3);
        lemma_all_step(state, s1, s3);
        lemma_all_step(inputs, before, s3);
        lemma_own_follows(s3);
    }
    match check {
        Some(c) => {
            proof {
                lemma_check_step(*c, before, s3);
                assert forall|x: Assignment| #[trigger] s3.follows(x) implies ats(state, x) == seq![
                    hash_of::<E>()(ats(inputs, x)),
                ] by {
                    assert(s1.follows(x));
                }
            }
            run_check(cs, ro, ro_consts, c, Ghost(inputs));
        },
        None => {
            proof {
                crate::evaluation::lemma_step_refl(s3);
            }
        },
    }
    let ghost s4 = cs@;
    proof {
        lemma_step_trans(before, s3, s4);
        lemma_step_trans(s1, s3, s4);
        lemma_step_trans(s2, s3, s4);
        lemma_bits_step(bits@, s1, s4);
    }
    let (E, _product) = fold_point(cs, &U.E, T, &bits);
    let ghost s5 = cs@;
    proof {
        lemma_step_trans(before, s4, s5);
        lemma_step_trans(s1, s4, s5);
    }
    let folded_u = checked_sum(cs, &U.u, &r);
    let ghost s6 = cs@;
    proof {
        lemma_step_trans(before, s5, s6);
        lemma_step_trans(s1, s5, s6);
        lemma_relaxed_within(*U, before, s6);
    }
    let (X0, X1) = fold_values(cs, U, u, &r);
    let V = AllocatedRelaxedR1CSInstance { W, R, E, u: folded_u, X0, X1 };
    proof {
        let after = cs@;
        lemma_step_trans(before, s6, after);
        lemma_step_trans(s5, s6, after);
        lemma_step_trans(s4, s5, after);
        lemma_step_trans(s3, s4, after);
        lemma_step_trans(s2, s3, after);
        lemma_step_trans(s1, s2, after);
        lemma_own_agrees(s1);
        lemma_at(r, s1, s1.own());
        lemma_all_step(inputs, before, s1);
        lemma_ats(inputs, s1, s1.own());
        assert forall|x: Assignment| #[trigger] after.follows(x) implies folded(
            *U,
            *u,
            *T,
            *S,
            terms as nat,
            fold_challenge(*params, *u, *T, *S, x),
            V,
            x,
        ) by {
            assert(s6.follows(x) && s5.follows(x) && s4.follows(x) && s3.follows(x) && s2.follows(x) && s1.follows(x));
        }
    }
    V
}

/// The public value that the values given fold to.
pub open spec fn given_public<E: CircuitEngine>(
    params: AllocatedNum<E::Base>,
    u: AllocatedR1CSInstance<E>,
    T: AllocatedPoint<E>,
    S: AllocatedPoint<E>,
    old_: int,
    k: int,
) -> int {
    folded_public(old_, k, challenge(hash_of::<E>(), nvals(fold_inputs(params, u, T, S))), E::Scalar::modulus())
}

/// Bits stay of a system that is extended.
proof fn lemma_bits_step<F: FieldElement>(bits: Seq<AllocatedBit<F>>, a: CsView, b: CsView)
    requires
        bits_within(bits, a),
        step(a, b),
    ensures
        bits_within(bits, b),
{
    assert forall|k: int| 0 <= k < bits.len() implies (#[trigger] bits[k]).within(b) by {
        assert(bits[k].within(a));
    }
}

/// A sum-check stays of a system that is extended.
pub proof fn lemma_check_step<E: CircuitEngine>(c: FoldCheck<E>, a: CsView, b: CsView)
    requires
        c.within(a),
        step(a, b),
    ensures
        c.within(b),
{
    lemma_all_step(c.taus@, a, b);
    lemma_all_step(c.evals@, a, b);
    assert forall|k: int| 0 <= k < c.polys@.len() implies all_within((#[trigger] c.polys@[k])@, b) by {
        lemma_all_step(c.polys@[k]@, a, b);
    }
}

/// A power of two.
fn power_of_two(n: usize) -> (r: u32)
    requires
        n <= 30,
    ensures
        r == pow2(n as nat),
        r >= 1,
{
    let mut r: u32 = 1;
    let mut i: usize = 0;
    proof {
        vstd::arithmetic::power2::lemma2_to64();
    }
    while i < n
        invariant
            i <= n <= 30,
            r == pow2(i as nat),
            r >= 1,
        decreases n - i,
    {
        proof {
            vstd::arithmetic::power2::lemma_pow2_unfold((i + 1) as nat);
            if i + 1 < 30 {
                vstd::arithmetic::power2::lemma_pow2_strictly_increases((i + 1) as nat, 30);
            }
            vstd::arithmetic::power2::lemma2_to64();
            assert(pow2(30) == 0x4000_0000);
        }
        r = 2 * r;
        i = i + 1;
    }
    r
}

impl<E: CircuitEngine> AllocatedRelaxedR1CSInstance<E> {
    /// Folds an instance into this one with a sum-check: the masking commitment is added with all powers of the
    /// challenge that the degree asks for.
    pub fn fold_with_r1cs_blc21(
        &self,
        cs: &mut ConstraintSystem<E::Base>,
        params: &AllocatedNum<E::Base>,
        u: &AllocatedR1CSInstance<E>,
        T: &AllocatedPoint<E>,
        S: &AllocatedPoint<E>,
        compressed_polys: &Vec<Vec<AllocatedNum<E::Base>>>,
        taus: &Vec<AllocatedNum<E::Base>>,
        final_evals: &Vec<AllocatedNum<E::Base>>,
        deg: usize,
        ro_consts: &<E::RO as RandomOracle<E::Base>>::Constants,
    ) -> (r: Self)
        requires
            old(cs)@.wf(),
            self.within(old(cs)@),
            params.within(old(cs)@),
            u.within(old(cs)@),
            T.within(old(cs)@),
            S.within(old(cs)@),
            lists_within(compressed_polys@, old(cs)@),
            all_within(taus@, old(cs)@),
            all_within(final_evals@, old(cs)@),
            final_evals@.len() >= 3,
            rounds_fit(compressed_polys@, taus@.len(), 3),
            deg <= 30,
        ensures
            step(old(cs)@, final(cs)@),
            final(cs).witness == old(cs).witness,
            final(cs)@.inputs == old(cs)@.inputs,
            final(cs)@.satisfied() == (old(cs)@.satisfied() && check_passes::<E>(
                nvals(fold_inputs(*params, *u, *T, *S)),
                list_vals(compressed_polys@),
                nvals(taus@),
                nvals(final_evals@),
            )),
            r.within(final(cs)@),
            r.X0.value() == given_public::<E>(*params, *u, *T, *S, self.X0.value(), u.X0.value.val()),
            r.X1.value() == given_public::<E>(*params, *u, *T, *S, self.X1.value(), u.X1.value.val()),
            forall|x: Assignment| #[trigger]
                final(cs)@.follows(x) ==> folded(
                    *self,
                    *u,
                    *T,
                    *S,
                    mask_terms(deg as int),
                    fold_challenge(*params, *u, *T, *S, x),
                    r,
                    x,
                ),
            forall|x: Assignment| #[trigger]
                final(cs)@.holds(x) ==> check_passes::<E>(
                    ats(fold_inputs(*params, *u, *T, *S), x),
                    list_ats(compressed_polys@, x),
                    ats(taus@, x),
                    ats(final_evals@, x),
                ),
    {
        let terms: u32 = if deg > 1 {
            proof {
                vstd::arithmetic::power2::lemma2_to64();
                vstd::arithmetic::power2::lemma_pow2_strictly_increases(1, deg as nat);
            }
            power_of_two(deg) - 1
        } else {
            1
        };
        let check = FoldCheck { polys: compressed_polys, taus, evals: final_evals };
        fold_instance(self, cs, params, u, T, S, terms, Some(&check), ro_consts)
    }

    /// Folds an instance into this one with a sum-check: the masking commitment is added once.
    pub fn fold_with_r1cs_zkpcd(
        &self,
        cs: &mut ConstraintSystem<E::Base>,
        params: &AllocatedNum<E::Base>,
        u: &AllocatedR1CSInstance<E>,
        T: &AllocatedPoint<E>,
        S: &AllocatedPoint<E>,
        compressed_polys: &Vec<Vec<AllocatedNum<E::Base>>>,
        taus: &Vec<AllocatedNum<E::Base>>,
        final_evals: &Vec<AllocatedNum<E::Base>>,
        _deg: usize,
        ro_consts: &<E::RO as RandomOracle<E::Base>>::Constants,
    ) -> (r: Self)
        requires
            old(cs)@.wf(),
            self.within(old(cs)@),
            params.within(old(cs)@),
            u.within(old(cs)@),
            T.within(old(cs)@),
            S.within(old(cs)@),
            lists_within(compressed_polys@, old(cs)@),
            all_within(taus@, old(cs)@),
            all_within(final_evals@, old(cs)@),
            final_evals@.len() >= 3,
            rounds_fit(compressed_polys@, taus@.len(), 3),
        ensures
            step(old(cs)@, final(cs)@),
            final(cs).witness == old(cs).witness,
            final(cs)@.inputs == old(cs)@.inputs,
            final(cs)@.satisfied() == (old(cs)@.satisfied() && check_passes::<E>(
                nvals(fold_inputs(*params, *u, *T, *S)),
                list_vals(compressed_polys@),
                nvals(taus@),
                nvals(final_evals@),
            )),
            r.within(final(cs)@),
            r.X0.value() == given_public::<E>(*params, *u, *T, *S, self.X0.value(), u.X0.value.val()),
            r.X1.value() == given_public::<E>(*params, *u, *T, *S, self.X1.value(), u.X1.value.val()),
            forall|x: Assignment| #[trigger]
                final(cs)@.follows(x) ==> folded(
                    *self,
                    *u,
                    *T,
                    *S,
                    1,
                    fold_challenge(*params, *u, *T, *S, x),
                    r,
                    x,
                ),
            forall|x: Assignment| #[trigger]
                final(cs)@.holds(x) ==> check_passes::<E>(
                    ats(fold_inputs(*params, *u, *T, *S), x),
                    list_ats(compressed_polys@, x),
                    ats(taus@, x),
                    ats(final_evals@, x),
                ),
    {
        let check = FoldCheck { polys: compressed_polys, taus, evals: final_evals };
        fold_instance(self, cs, params, u, T, S, 1, Some(&check), ro_consts)
    }

    /// Folds an instance into this one without a sum-check: the masking commitment is added once, whatever the
    /// coefficients of the cross terms, of which there has to be a list.
    pub fn fold_with_r1cs(
        &self,
        cs: &mut ConstraintSystem<E::Base>,
        params: &AllocatedNum<E::Base>,
        u: &AllocatedR1CSInstance<E>,
        T: &AllocatedPoint<E>,
        S: &AllocatedPoint<E>,
        c: &Vec<Vec<AllocatedNum<E::Base>>>,
        _deg: usize,
        ro_consts: &<E::RO as RandomOracle<E::Base>>::Constants,
    ) -> (r: Self)
        requires
            old(cs)@.wf(),
            self.within(old(cs)@),
            params.within(old(cs)@),
            u.within(old(cs)@),
            T.within(old(cs)@),
            S.within(old(cs)@),
            c.len() > 0,
        ensures
            step(old(cs)@, final(cs)@),
            final(cs).witness == old(cs).witness,
            final(cs)@.inputs == old(cs)@.inputs,
            final(cs)@.satisfied() == old(cs)@.satisfied(),
            r.within(final(cs)@),
            r.X0.value() == given_public::<E>(*params, *u, *T, *S, self.X0.value(), u.X0.value.val()),
            r.X1.value() == given_public::<E>(*params, *u, *T, *S, self.X1.value(), u.X1.value.val()),
            forall|x: Assignment| #[trigger]
                final(cs)@.follows(x) ==> folded(
                    *self,
                    *u,
                    *T,
                    *S,
                    1,
                    fold_challenge(*params, *u, *T, *S, x),
                    r,
                    x,
                ),
    {
        fold_instance(self, cs, params, u, T, S, 1, None, ro_consts)
    }
}

/// The ways of folding agree on all but the masking commitment, and on that too where they add it as often: the
/// commitments, the factor, and the multiple of the masking commitment are those of one challenge.
pub proof fn ways_of_folding_agree<E: CircuitEngine>(
    U: AllocatedRelaxedR1CSInstance<E>,
    u: AllocatedR1CSInstance<E>,
    T: AllocatedPoint<E>,
    S: AllocatedPoint<E>,
    deg: int,
    r: int,
    V: AllocatedRelaxedR1CSInstance<E>,
    V2: AllocatedRelaxedR1CSInstance<E>,
    x: Assignment,
)
    requires
        U.points_at(x),
        u.comm_W.is_point_at(x),
        T.is_point_at(x),
        S.is_point_at(x),
        folded(U, u, T, S, mask_terms(deg), r, V, x),
        folded(U, u, T, S, 1, r, V2, x),
    ensures
        V.W.log_at(x) == V2.W.log_at(x),
        V.E.log_at(x) == V2.E.log_at(x),
        V.u.at(x) == V2.u.at(x),
        deg <= 1 ==> V.R.log_at(x) == V2.R.log_at(x),
{
}

} // verus!
