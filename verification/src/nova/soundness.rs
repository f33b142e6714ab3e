//! What the constraints of a step show: how two steps chain, and what the running instance is folded to.
use crate::augmented::PredicateSet;
use crate::cs::{Assignment, CsView};
use crate::engine::{vals, CurveGroup, RandomOracle};
use crate::field::FieldElement;
use crate::fragment::{log_of, CircuitEngine};
use crate::gadgets::{ats, AllocatedNum};
use crate::math::{cong, lemma_cong_mod};
use crate::nifs::hash_of;
use crate::nova::circuit::{
    AllocatedInputs, AllocatedNovaStep, NovaAugmentedCircuit, NovaAugmentedCircuitInputs, Scheme,
};
use crate::nova::fold::{
    adds_product, fold_challenge, fold_inputs, folded, folds_point, folds_value, masks_are_geometric, power_sum,
};
use crate::nova::instance::AllocatedRelaxedR1CSInstance;
use crate::proof_circuit::nvals;
use crate::soundness::lemma_parts;
use crate::nova::sumcheck::{check_is_decided_by_hashes, equality, list_ats, poly_value};
use vstd::arithmetic::power::pow;
use vstd::arithmetic::power2::pow2;
use vstd::prelude::*;

verus! {

/// Whether two relaxed instances are the same numbers under two assignments.
pub open spec fn same_instance<E: CurveGroup>(
    U: AllocatedRelaxedR1CSInstance<E>,
    x: Assignment,
    V: AllocatedRelaxedR1CSInstance<E>,
    y: Assignment,
) -> bool {
    &&& ats(U.W.nums(), x) == ats(V.W.nums(), y)
    &&& ats(U.R.nums(), x) == ats(V.R.nums(), y)
    &&& ats(U.E.nums(), x) == ats(V.E.nums(), y)
    &&& U.u.at(x) == V.u.at(y)
    &&& ats(U.X0.limbs@, x) == ats(V.X0.limbs@, y)
    &&& ats(U.X1.limbs@, x) == ats(V.X1.limbs@, y)
}

/// The values of two sequences one after the other.
proof fn lemma_ats_joined<F: FieldElement>(a: Seq<AllocatedNum<F>>, b: Seq<AllocatedNum<F>>, x: Assignment)
    ensures
        ats(a + b, x) == ats(a, x) + ats(b, x),
{
    assert(ats(a + b, x) =~= ats(a, x) + ats(b, x));
}

/// The values of the numbers that stand for a relaxed instance, part by part.
proof fn lemma_ats_elements<E: CurveGroup>(U: AllocatedRelaxedR1CSInstance<E>, x: Assignment)
    ensures
        ats(U.elements(), x) == ats(U.W.nums(), x) + ats(U.R.nums(), x) + ats(U.E.nums(), x) + seq![U.u.at(x)] + ats(
            U.X0.limbs@,
            x,
        ) + ats(U.X1.limbs@, x),
{
    let a = U.W.nums() + U.R.nums();
    let b = a + U.E.nums();
    let c = b + seq![U.u];
    let d = c + U.X0.limbs@;
    lemma_ats_joined(U.W.nums(), U.R.nums(), x);
    lemma_ats_joined(a, U.E.nums(), x);
    lemma_ats_joined(b, seq![U.u], x);
    assert(ats(seq![U.u], x) =~= seq![U.u.at(x)]);
    lemma_ats_joined(c, U.X0.limbs@, x);
    lemma_ats_joined(d, U.X1.limbs@, x);
}

/// Two steps chain: what a step makes public is the hash that a next step has to find in its instance that reads the
/// counter after that of the step, the state that it started from, the state, the folded instance and the blinding that
/// it came to. The next step is then satisfied by the values given to it if its sum-check is accepted and its circuit is
/// satisfied.
pub proof fn steps_chain<'a, 'b, E: CircuitEngine, PS: PredicateSet<E::Base>>(
    c: NovaAugmentedCircuit<'a, E, PS>,
    s: AllocatedNovaStep<E>,
    before: CsView,
    after: CsView,
    x: Assignment,
    d: NovaAugmentedCircuit<'b, E, PS>,
    a: AllocatedInputs<E>,
    y: Assignment,
)
    requires
        c.synthesized(s, before, after),
        after.holds(x),
        a.pp_digest.at(y) == s.inputs.pp_digest.at(x),
        a.i.at(y) == (s.inputs.i.at(x) + 1) % E::Base::modulus(),
        ats(a.z_0@, y) == ats(s.inputs.z_0@, x),
        ats(a.z_i@, y) == ats(s.z_next@, x),
        same_instance(a.U, y, s.folded, x),
        a.r_i.at(y) == s.inputs.r_next.at(x),
        a.u.X0.at(y) == x.inputs[after.inputs.len() - 1],
    ensures
        a.u.X0.at(y) == d.hash_in(a, y),
        d.solvable(a, y) == (d.check_given(a) && d.step_circuit.solves(0, nvals(a.z_i@))),
{
    lemma_ats_elements(a.U, y);
    lemma_ats_elements(s.folded, x);
}

/// The value that a step was made with is the hash that the next step has to find, as in `steps_chain`.
pub proof fn given_steps_chain<'a, 'b, E: CircuitEngine, PS: PredicateSet<E::Base>>(
    c: NovaAugmentedCircuit<'a, E, PS>,
    s: AllocatedNovaStep<E>,
    before: CsView,
    after: CsView,
    d: NovaAugmentedCircuit<'b, E, PS>,
    a: AllocatedInputs<E>,
    y: Assignment,
)
    requires
        c.synthesized(s, before, after),
        a.pp_digest.at(y) == s.inputs.pp_digest.at(after.own()),
        a.i.at(y) == (s.inputs.i.at(after.own()) + 1) % E::Base::modulus(),
        ats(a.z_0@, y) == ats(s.inputs.z_0@, after.own()),
        ats(a.z_i@, y) == ats(s.z_next@, after.own()),
        same_instance(a.U, y, s.folded, after.own()),
        a.r_i.at(y) == s.inputs.r_next.at(after.own()),
        a.u.X0.at(y) == after.inputs[after.inputs.len() - 1],
    ensures
        a.u.X0.at(y) == d.hash_in(a, y),
        d.solvable(a, y) == (d.check_given(a) && d.step_circuit.solves(0, nvals(a.z_i@))),
{
    lemma_ats_elements(a.U, y);
    lemma_ats_elements(s.folded, after.own());
}

/// What the constraints of a step show of what it reads and makes public: the first public value of the instance is the
/// hash of the digest of the parameters, the counter, the states, the running instance and the blinding; the second one is
/// handed on; and last comes the hash of the digest, the next counter, the first and the next state, the folded instance
/// and the next blinding.
pub proof fn step_hashes_what_it_reads<'a, E: CircuitEngine, PS: PredicateSet<E::Base>>(
    c: NovaAugmentedCircuit<'a, E, PS>,
    s: AllocatedNovaStep<E>,
    before: CsView,
    after: CsView,
    x: Assignment,
)
    requires
        c.synthesized(s, before, after),
        after.holds(x),
    ensures
        ({
            let (a, V) = (s.inputs, s.folded);
            let n = after.inputs.len();
            &&& a.u.X0.at(x) == hash_of::<E>()(
                seq![a.pp_digest.at(x), a.i.at(x)] + ats(a.z_0@, x) + ats(a.z_i@, x) + (ats(a.U.W.nums(), x) + ats(
                    a.U.R.nums(),
                    x,
                ) + ats(a.U.E.nums(), x) + seq![a.U.u.at(x)] + ats(a.U.X0.limbs@, x) + ats(a.U.X1.limbs@, x)) + seq![
                    a.r_i.at(x),
                ],
            ) % (pow2(250) as int)
            &&& x.inputs[n - 2] == a.u.X1.at(x)
            &&& x.inputs[n - 1] == hash_of::<E>()(
                seq![a.pp_digest.at(x), (a.i.at(x) + 1) % E::Base::modulus()] + ats(a.z_0@, x) + ats(s.z_next@, x) + (ats(
                    V.W.nums(),
                    x,
                ) + ats(V.R.nums(), x) + ats(V.E.nums(), x) + seq![V.u.at(x)] + ats(V.X0.limbs@, x) + ats(
                    V.X1.limbs@,
                    x,
                )) + seq![a.r_next.at(x)],
            ) % (pow2(250) as int)
            &&& c.step_circuit.allows(0, ats(a.z_i@, x), ats(s.z_next@, x))
        }),
{
    lemma_ats_elements(s.inputs.U, x);
    lemma_ats_elements(s.folded, x);
}

/// What is hashed for two steps is the same only where the digests of the parameters, the counters, the states, the
/// relaxed instances and the blindings are.
pub proof fn hashed_parts_are_determined<E: CurveGroup>(
    a: AllocatedInputs<E>,
    x: Assignment,
    b: AllocatedInputs<E>,
    y: Assignment,
)
    requires
        a.z_0@.len() == b.z_0@.len(),
        a.z_i@.len() == b.z_i@.len(),
        a.U.X0.limbs@.len() == b.U.X0.limbs@.len(),
        a.U.X1.limbs@.len() == b.U.X1.limbs@.len(),
        seq![a.pp_digest.at(x), a.i.at(x)] + ats(a.z_0@, x) + ats(a.z_i@, x) + ats(a.U.elements(), x) + seq![a.r_i.at(x)]
            == seq![b.pp_digest.at(y), b.i.at(y)] + ats(b.z_0@, y) + ats(b.z_i@, y) + ats(b.U.elements(), y) + seq![
            b.r_i.at(y),
        ],
    ensures
        a.pp_digest.at(x) == b.pp_digest.at(y),
        a.i.at(x) == b.i.at(y),
        ats(a.z_0@, x) == ats(b.z_0@, y),
        ats(a.z_i@, x) == ats(b.z_i@, y),
        same_instance(a.U, x, b.U, y),
        a.r_i.at(x) == b.r_i.at(y),
{
    let (h1, h2) = (seq![a.pp_digest.at(x), a.i.at(x)], seq![b.pp_digest.at(y), b.i.at(y)]);
    let (z1, z2) = (ats(a.z_0@, x), ats(b.z_0@, y));
    let (w1, w2) = (ats(a.z_i@, x), ats(b.z_i@, y));
    let (u1, u2) = (ats(a.U.elements(), x), ats(b.U.elements(), y));
    assert(u1.len() == u2.len());
    lemma_parts(h1 + z1 + w1 + u1, seq![a.r_i.at(x)], h2 + z2 + w2 + u2, seq![b.r_i.at(y)]);
    assert(seq![a.r_i.at(x)][0] == seq![b.r_i.at(y)][0]);
    lemma_parts(h1 + z1 + w1, u1, h2 + z2 + w2, u2);
    lemma_parts(h1 + z1, w1, h2 + z2, w2);
    lemma_parts(h1, z1, h2, z2);
    assert(h1[0] == h2[0] && h1[1] == h2[1]);
    lemma_same_elements(a.U, x, b.U, y);
}

proof fn lemma_same_elements<E: CurveGroup>(
    U: AllocatedRelaxedR1CSInstance<E>,
    x: Assignment,
    V: AllocatedRelaxedR1CSInstance<E>,
    y: Assignment,
)
    requires
        U.X0.limbs@.len() == V.X0.limbs@.len(),
        U.X1.limbs@.len() == V.X1.limbs@.len(),
        ats(U.elements(), x) == ats(V.elements(), y),
    ensures
        same_instance(U, x, V, y),
{
    lemma_ats_elements(U, x);
    lemma_ats_elements(V, y);
    let (a1, a2) = (ats(U.W.nums(), x), ats(V.W.nums(), y));
    let (b1, b2) = (ats(U.R.nums(), x), ats(V.R.nums(), y));
    let (c1, c2) = (ats(U.E.nums(), x), ats(V.E.nums(), y));
    let (d1, d2) = (seq![U.u.at(x)], seq![V.u.at(y)]);
    let (e1, e2) = (ats(U.X0.limbs@, x), ats(V.X0.limbs@, y));
    let (f1, f2) = (ats(U.X1.limbs@, x), ats(V.X1.limbs@, y));
    lemma_parts(a1 + b1 + c1 + d1 + e1, f1, a2 + b2 + c2 + d2 + e2, f2);
    lemma_parts(a1 + b1 + c1 + d1, e1, a2 + b2 + c2 + d2, e2);
    lemma_parts(a1 + b1 + c1, d1, a2 + b2 + c2, d2);
    lemma_parts(a1 + b1, c1, a2 + b2, c2);
    lemma_parts(a1, b1, a2, b2);
    assert(d1[0] == d2[0]);
}

/// The factor that the masking commitment comes in with: the challenge itself, or, by the scheme that has one for each
/// power of the challenge below the one that the degree gives, their sum.
pub open spec fn is_mask_factor(scheme: Scheme, deg: nat, r: int, m: int) -> bool {
    &&& scheme != Scheme::KiloNova || deg <= 1 ==> m == r
    &&& scheme == Scheme::KiloNova && deg > 1 ==> (r - 1) * m == pow(r, pow2(deg)) - r
}

/// What the running instance is folded to: the commitments and the factor are those of the running instance plus the
/// challenge times those of the incoming one, the errors come in with the cross terms, the masking commitment with its own
/// factor, and the public values are folded modulo the order of the scalar field. The challenge is the short hash of the
/// digest of the parameters, the incoming instance, the commitment to the cross terms and the masking commitment.
pub proof fn step_folds_its_instance<'a, E: CircuitEngine, PS: PredicateSet<E::Base>>(
    c: NovaAugmentedCircuit<'a, E, PS>,
    s: AllocatedNovaStep<E>,
    before: CsView,
    after: CsView,
    x: Assignment,
) -> (m: int)
    requires
        c.synthesized(s, before, after),
        after.holds(x),
        s.inputs.U.points_at(x),
        s.inputs.u.comm_W.is_point_at(x),
        s.inputs.T.is_point_at(x),
        s.inputs.S.is_point_at(x),
        s.inputs.U.X0.proper_at(x),
        s.inputs.U.X1.proper_at(x),
    ensures
        ({
            let (p, q) = (E::Base::modulus(), E::Scalar::modulus());
            let (a, V) = (s.inputs, s.folded);
            let r = hash_of::<E>()(
                seq![a.pp_digest.at(x)] + ats(a.u.comm_W.nums(), x) + seq![a.u.X0.at(x), a.u.X1.at(x)] + ats(
                    a.T.nums(),
                    x,
                ) + ats(a.S.nums(), x),
            ) % (pow2(128) as int);
            &&& V.points_at(x)
            &&& cong(V.W.log_at(x), a.U.W.log_at(x) + r * a.u.comm_W.log_at(x), q)
            &&& cong(V.E.log_at(x), a.U.E.log_at(x) + r * a.T.log_at(x), q)
            &&& is_mask_factor(c.flag, c.deg as nat, r, m)
            &&& cong(V.R.log_at(x), a.U.R.log_at(x) + m * a.S.log_at(x), q)
            &&& cong(V.u.at(x), a.U.u.at(x) + r, p)
            &&& V.X0.proper_at(x) && V.X1.proper_at(x)
            &&& exists|f: int, g: int|
                f % p == r && g % p == a.u.X0.at(x) && #[trigger] cong(V.X0.at(x), a.U.X0.at(x) + g * f, q)
            &&& exists|f: int, g: int|
                f % p == r && g % p == a.u.X1.at(x) && #[trigger] cong(V.X1.at(x), a.U.X1.at(x) + g * f, q)
        }),
{
    let (p, q) = (E::Base::modulus(), E::Scalar::modulus());
    E::Base::modulus_bounds();
    E::Scalar::modulus_bounds();
    let (a, V) = (s.inputs, s.folded);
    let r = fold_challenge(a.pp_digest, a.u, a.T, a.S, x);
    let m = power_sum(r, c.terms());
    assert(ats(fold_inputs(a.pp_digest, a.u, a.T, a.S), x) =~= seq![a.pp_digest.at(x)] + ats(a.u.comm_W.nums(), x) + seq![
        a.u.X0.at(x),
        a.u.X1.at(x),
    ] + ats(a.T.nums(), x) + ats(a.S.nums(), x));
    assert(folded(a.U, a.u, a.T, a.S, c.terms(), r, V, x));
    assert(folds_point(a.U.W, a.u.comm_W, r, V.W, x));
    assert(folds_point(a.U.R, a.S, m, V.R, x));
    assert(folds_point(a.U.E, a.T, r, V.E, x));
    lemma_cong_mod(a.U.W.log_at(x) + a.u.comm_W.log_at(x) * r, q);
    lemma_cong_mod(a.U.R.log_at(x) + a.S.log_at(x) * m, q);
    lemma_cong_mod(a.U.E.log_at(x) + a.T.log_at(x) * r, q);
    lemma_cong_mod(a.U.u.at(x) + r, p);
    vstd::arithmetic::mul::lemma_mul_is_commutative(a.u.comm_W.log_at(x), r);
    vstd::arithmetic::mul::lemma_mul_is_commutative(a.S.log_at(x), m);
    vstd::arithmetic::mul::lemma_mul_is_commutative(a.T.log_at(x), r);
    if c.terms() == 1 {
        reveal_with_fuel(power_sum, 2);
        vstd::arithmetic::power::lemma_pow1(r);
    }
    if c.flag == Scheme::KiloNova && c.deg > 1 {
        vstd::arithmetic::power2::lemma_pow2_pos(c.deg as nat);
        masks_are_geometric(r, c.terms());
    }
    assert(folds_value(a.U.X0.at(x), V.X0.at(x), r, a.u.X0.at(x), p, q));
    assert(folds_value(a.U.X1.at(x), V.X1.at(x), r, a.u.X1.at(x), p, q));
    let (f0, g0) = choose|f: int, g: int| #[trigger]
        adds_product(f, g, a.U.X0.at(x), V.X0.at(x), r, a.u.X0.at(x), p, q);
    assert(cong(V.X0.at(x), a.U.X0.at(x) + g0 * f0, q));
    let (f1, g1) = choose|f: int, g: int| #[trigger]
        adds_product(f, g, a.U.X1.at(x), V.X1.at(x), r, a.u.X1.at(x), p, q);
    assert(cong(V.X1.at(x), a.U.X1.at(x) + g1 * f1, q));
    m
}

/// By the schemes with a sum-check of at least one round, the constraints of a step ask that it is accepted: at the short
/// hashes of its rounds, the first behind the hash of what goes into the challenge of the fold, the last polynomial is the
/// equality polynomial of the taus and the challenges times the product of the first two evaluations less the third.
pub proof fn step_checks_its_sumcheck<'a, E: CircuitEngine, PS: PredicateSet<E::Base>>(
    c: NovaAugmentedCircuit<'a, E, PS>,
    s: AllocatedNovaStep<E>,
    before: CsView,
    after: CsView,
    x: Assignment,
) -> (h: Seq<int>)
    requires
        c.synthesized(s, before, after),
        after.holds(x),
        c.flag != Scheme::Nova,
        s.inputs.polys@.len() == s.inputs.taus@.len(),
        s.inputs.taus@.len() > 0,
    ensures
        ({
            let hash = hash_of::<E>();
            let (a, p) = (s.inputs, E::Base::modulus());
            let polys = list_ats(a.polys@, x);
            let taus = ats(a.taus@, x);
            let evals = ats(a.evals@, x);
            let start = hash(
                seq![a.pp_digest.at(x)] + ats(a.u.comm_W.nums(), x) + seq![a.u.X0.at(x), a.u.X1.at(x)] + ats(
                    a.T.nums(),
                    x,
                ) + ats(a.S.nums(), x),
            );
            let point = Seq::new(h.len(), |k: int| h[k] % (pow2(128) as int));
            &&& h.len() == taus.len()
            &&& h[0] == hash(seq![start] + polys[0])
            &&& forall|k: int| 0 < k < h.len() ==> #[trigger] h[k] == hash(seq![h[k - 1]] + polys[k])
            &&& cong(
                equality(taus, point, taus.len()) * (evals[0] * evals[1] - evals[2]),
                poly_value(polys.last(), point.last(), polys.last().len() as int),
                p,
            )
        }),
{
    let hash = hash_of::<E>();
    E::Base::modulus_bounds();
    let a = s.inputs;
    let absorbed = ats(a.fold_inputs(), x);
    assert(absorbed =~= seq![a.pp_digest.at(x)] + ats(a.u.comm_W.nums(), x) + seq![a.u.X0.at(x), a.u.X1.at(x)] + ats(
        a.T.nums(),
        x,
    ) + ats(a.S.nums(), x));
    let (polys, taus, evals) = (list_ats(a.polys@, x), ats(a.taus@, x), ats(a.evals@, x));
    assert(c.check_holds(a, x));
    let h = check_is_decided_by_hashes(hash, E::Base::modulus(), seq![hash(absorbed)], polys, taus, evals, 0, 1);
    let t = evals[2];
    assert(1 * t == t);
    h
}

/// A step reads what it is given: numbers of the other field by their residues, the parts of the instances as they are, the
/// commitment to the variables for the masking commitment of the running instance too, and zero for what is missing.
pub proof fn given_values_are_read<'a, E: CircuitEngine, PS: PredicateSet<E::Base>>(
    c: NovaAugmentedCircuit<'a, E, PS>,
    s: AllocatedNovaStep<E>,
    before: CsView,
    after: CsView,
    g: NovaAugmentedCircuitInputs<E>,
)
    requires
        c.synthesized(s, before, after),
        c.inputs == Some(g),
    ensures
        ({
            let (a, p, n) = (s.inputs, E::Base::modulus(), c.step_circuit.width());
            &&& a.pp_digest.value.val() == g.pp_digest.val() % p
            &&& a.i.value.val() == g.i.val()
            &&& g.z0@.len() == n ==> nvals(a.z_0@) == vals(g.z0@)
            &&& g.zi matches Some(zi) ==> zi@.len() == n ==> nvals(a.z_i@) == vals(zi@)
            &&& g.zi is None ==> nvals(a.z_i@) == Seq::new(n, |k: int| 0int)
            &&& g.U matches Some(U) ==> {
                &&& log_of::<E>(a.U.W.values(), 0) == U@.comm_W
                &&& log_of::<E>(a.U.R.values(), 0) == U@.comm_W
                &&& log_of::<E>(a.U.E.values(), 0) == U@.comm_E
                &&& a.U.u.value.val() == U@.u % p
                &&& a.U.X0.value() == U@.X[0] && a.U.X1.value() == U@.X[1]
            }
            &&& g.U is None ==> {
                &&& log_of::<E>(a.U.W.values(), 0) == 0 && log_of::<E>(a.U.R.values(), 0) == 0 && log_of::<E>(
                    a.U.E.values(),
                    0,
                ) == 0
                &&& a.U.u.value.val() == 0 && a.U.X0.value() == 0 && a.U.X1.value() == 0
            }
            &&& g.ri matches Some(r) ==> a.r_i.value.val() == r.val()
            &&& g.ri is None ==> a.r_i.value.val() == 0
            &&& a.r_next.value.val() == g.r_next.val()
            &&& g.u matches Some(u) ==> log_of::<E>(a.u.comm_W.values(), 0) == u@.comm_W && a.u.X0.value.val() == u@.X[0] % p
                && a.u.X1.value.val() == u@.X[1] % p
            &&& g.u is None ==> log_of::<E>(a.u.comm_W.values(), 0) == 0 && a.u.X0.value.val() == 0 && a.u.X1.value.val() == 0
            &&& g.T matches Some(T) ==> log_of::<E>(a.T.values(), 0) == T@
            &&& g.T is None ==> log_of::<E>(a.T.values(), 0) == 0
            &&& g.S matches Some(S) ==> log_of::<E>(a.S.values(), 0) == S@
            &&& g.S is None ==> log_of::<E>(a.S.values(), 0) == 0
            &&& g.taus matches Some(taus) ==> nvals(a.taus@) == vals(taus@)
            &&& g.evals matches Some(evals) ==> nvals(a.evals@) == vals(evals@)
        }),
{
    let (a, n) = (s.inputs, c.step_circuit.width() as int);
    if g.z0@.len() == n {
        assert(vals(g.z0@).take(n) =~= vals(g.z0@));
    }
    if let Some(zi) = g.zi {
        if zi@.len() == n {
            assert(vals(zi@).take(n) =~= vals(zi@));
        }
    }
}

} // verus!
