//! What acceptance shows: what the verifier of a fold comes to, and what a folded instance has to be that is satisfied by
//! its witness.
use super::nifs::{absorbed_inputs, verified};
use super::relation::{
    first_instance, first_witness, fold_instance, fold_witness, folded_instance_elements, folded_sat, folded_z,
    FoldedInstanceView, FoldedWitnessView,
};
use crate::engine::{commitment_log, CurveEngine};
use crate::errors::{NovaError, UnSatReason};
use crate::field::FieldElement;
use crate::math::{cong, lemma_cong_add, lemma_cong_mod, lemma_cong_mul, lemma_sum_ext, sum};
use crate::matrix::{weighted, weights};
use crate::mle::{eq_weight, reversed};
use crate::nifs::{accepted, hash_of, opening, NIFSView};
use crate::r1cs::{InstanceView, WitnessView};
use crate::relation::{claims, commitment_elements, instance_elements, StructureView};
use crate::soundness::{
    absorbed_instance_is_determined, accepted_fold_ties_claims, lemma_commitment_absorbed, lemma_folds_projected,
    lemma_parts, lemma_short_challenge, ties_claims,
};
use crate::sumcheck::Check;
use super::circuit::empty_instance;
use vstd::arithmetic::power2::pow2;
use vstd::prelude::*;

verus! {

/// What is absorbed before the challenges of a fold determines the digest of the parameters, the predicate and the
/// incoming instance.
pub proof fn absorbed_inputs_are_determined<E: CurveEngine>(
    pp_digest: int,
    id: int,
    u: InstanceView,
    pp_digest2: int,
    id2: int,
    v: InstanceView,
)
    requires
        u.X.len() == v.X.len(),
        absorbed_inputs::<E>(pp_digest, id, u) == absorbed_inputs::<E>(pp_digest2, id2, v),
    ensures
        cong(pp_digest, pp_digest2, E::Base::modulus()),
        id == id2,
        E::multiple(u.comm_W) == E::multiple(v.comm_W),
        forall|i: int| 0 <= i < u.X.len() ==> cong(#[trigger] u.X[i], v.X[i], E::Base::modulus()),
{
    let p = E::Base::modulus();
    let (a, b) = (seq![pp_digest % p, id], seq![pp_digest2 % p, id2]);
    lemma_parts(a, instance_elements::<E>(u), b, instance_elements::<E>(v));
    assert(a[0] == b[0] && a[1] == b[1]);
    absorbed_instance_is_determined::<E>(u, v);
}

/// What is absorbed of a folded instance determines all of it, for instances of the same sizes.
pub proof fn absorbed_folded_instance_is_determined<E: CurveEngine>(u: FoldedInstanceView, v: FoldedInstanceView)
    requires
        u.lambda.len() == v.lambda.len(),
        u.X.len() == v.X.len(),
        u.r_x.len() == v.r_x.len(),
        u.r_y.len() == v.r_y.len(),
        folded_instance_elements::<E>(u) == folded_instance_elements::<E>(v),
    ensures
        E::multiple(u.comm_W) == E::multiple(v.comm_W),
        u.lambda == v.lambda,
        u.u == v.u,
        u.X == v.X,
        u.r_x == v.r_x,
        u.r_y == v.r_y,
        u.v == v.v,
{
    let (w1, w2) = (commitment_elements::<E>(u.comm_W), commitment_elements::<E>(v.comm_W));
    let (a1, a2) = (w1 + u.lambda, w2 + v.lambda);
    let (b1, b2) = (a1 + seq![u.u], a2 + seq![v.u]);
    let (c1, c2) = (b1 + u.X, b2 + v.X);
    let (d1, d2) = (c1 + u.r_x, c2 + v.r_x);
    lemma_parts(d1 + u.r_y, u.v, d2 + v.r_y, v.v);
    lemma_parts(d1, u.r_y, d2, v.r_y);
    lemma_parts(c1, u.r_x, c2, v.r_x);
    lemma_parts(b1, u.X, b2, v.X);
    lemma_parts(a1, seq![u.u], a2, seq![v.u]);
    assert(seq![u.u][0] == seq![v.u][0]);
    lemma_parts(w1, u.lambda, w2, v.lambda);
    lemma_commitment_absorbed::<E>(u.comm_W, v.comm_W);
}

/// Whether a folded instance is another one plus a multiple of an instance of a predicate: that predicate alone gets a
/// larger coefficient.
pub open spec fn adds_multiple<E: CurveEngine>(
    id: int,
    u1: FoldedInstanceView,
    u2: InstanceView,
    proof_: NIFSView,
    f: FoldedInstanceView,
    rho: int,
) -> bool {
    let (p, q) = (E::Base::modulus(), E::Scalar::modulus());
    &&& cong(f.comm_W, u1.comm_W + rho * u2.comm_W, q)
    &&& f.lambda.len() == u1.lambda.len()
    &&& cong(f.lambda[id], u1.lambda[id] + rho, p)
    &&& forall|i: int| 0 <= i < f.lambda.len() && i != id ==> #[trigger] f.lambda[i] == u1.lambda[i]
    &&& cong(f.u, u1.u + rho, p)
    &&& f.X.len() == u1.X.len()
    &&& forall|i: int| 0 <= i < f.X.len() ==> cong(#[trigger] f.X[i], u1.X[i] + rho * u2.X[i], p)
    &&& f.v.len() == 4
    &&& forall|j: int| 0 <= j < 4 ==> cong(#[trigger] f.v[j], proof_.epsilons[j] + rho * proof_.thetas[j], p)
}

/// What the verifier of a fold returns is the running instance plus a multiple of the incoming one, at the points of the
/// two sum-checks, by the challenge that comes after all that the proof holds; and the claims that the sum-checks leave
/// are those of the values that the proof holds.
pub proof fn verified_fold_adds_incoming<E: CurveEngine>(
    s: StructureView,
    pp_digest: int,
    id: int,
    u1: FoldedInstanceView,
    u2: InstanceView,
    proof_: NIFSView,
)
    requires
        0 <= id < u1.lambda.len(),
        u1.r_x.len() == s.s_max,
        u1.r_y.len() == s.s_prime_max,
        u1.X.len() == s.num_io,
        u2.X.len() == s.num_io,
        verified::<E>(s, pp_digest, id, u1, u2, proof_) is Some,
    ensures
        ({
            let o = opening::<E>(s, absorbed_inputs::<E>(pp_digest, id, u2));
            let f = verified::<E>(s, pp_digest, id, u1, u2, proof_)->0;
            exists|x: Check, y: Check|
                {
                    &&& #[trigger] ties_claims::<E>(s, o.gamma, o.alpha, o.state, u1.r_x, u1.r_y, u1.v, proof_, x, y)
                    &&& f.r_x == reversed(x.point)
                    &&& f.r_y == reversed(y.point)
                    &&& adds_multiple::<E>(id, u1, u2, proof_, f, hash_of::<E>()(y.state) % (pow2(128) as int))
                }
        }),
{
    let (p, q) = (E::Base::modulus(), E::Scalar::modulus());
    E::Base::modulus_bounds();
    E::Scalar::modulus_bounds();
    let start = absorbed_inputs::<E>(pp_digest, id, u2);
    let o = opening::<E>(s, start);
    accepted_fold_ties_claims::<E>(s, start, u1.r_x, u1.r_y, u1.v, proof_);
    let a = accepted::<E>(s, start, u1.r_x, u1.r_y, u1.v, proof_)->0;
    let (x, y) = choose|x: Check, y: Check| #[trigger]
        ties_claims::<E>(s, o.gamma, o.alpha, o.state, u1.r_x, u1.r_y, u1.v, proof_, x, y) && a.r_x == reversed(x.point)
            && a.r_y == reversed(y.point) && a.rho == hash_of::<E>()(y.state) % (pow2(128) as int);
    let h = hash_of::<E>()(y.state);
    let rho = h % (pow2(128) as int);
    let f = verified::<E>(s, pp_digest, id, u1, u2, proof_)->0;
    lemma_short_challenge(h, q);
    lemma_cong_mod(u1.comm_W + u2.comm_W * rho, q);
    let c = u2.comm_W;
    assert(c * rho == rho * c) by (nonlinear_arith);
    lemma_cong_mod(u1.lambda[id] + rho, p);
    lemma_cong_mod(u1.u + rho, p);
    assert forall|i: int| 0 <= i < f.X.len() implies cong(#[trigger] f.X[i], u1.X[i] + rho * u2.X[i], p) by {
        let (a, b) = (u1.X[i], u2.X[i]);
        lemma_cong_mod(a + rho * (b % p), p);
        lemma_cong_mod(b, p);
        lemma_cong_mul(rho, rho, b % p, b, p);
        lemma_cong_add(a, a, rho * (b % p), rho * b, p);
    }
    assert forall|j: int| 0 <= j < 4 implies cong(#[trigger] f.v[j], proof_.epsilons[j] + rho * proof_.thetas[j], p) by {
        lemma_cong_mod(proof_.epsilons[j] + rho * proof_.thetas[j], p);
    }
    assert(adds_multiple::<E>(id, u1, u2, proof_, f, rho));
}

/// A witness is that of one folded instance only, of those with the same coefficients, points, factor and public values.
pub proof fn witness_determines_instance<E: CurveEngine>(
    s: StructureView,
    ck: E::CommitmentKey,
    u: FoldedInstanceView,
    v: FoldedInstanceView,
    w: FoldedWitnessView,
)
    requires
        folded_sat::<E>(s, ck, u, w) is Ok,
        folded_sat::<E>(s, ck, v, w) is Ok,
        u.lambda == v.lambda,
        u.u == v.u,
        u.X == v.X,
        u.r_x == v.r_x,
        u.r_y == v.r_y,
    ensures
        u == v,
{
}

/// A folded instance that is satisfied by a witness has its lengths, commits to it, and claims what the matrices, each
/// times its coefficient, and the vector are at its points.
pub proof fn satisfied_instance_opens<E: CurveEngine>(
    s: StructureView,
    ck: E::CommitmentKey,
    u: FoldedInstanceView,
    w: FoldedWitnessView,
)
    requires
        folded_sat::<E>(s, ck, u, w) is Ok,
    ensures
        ({
            let p = E::Base::modulus();
            let z = w.W_proj + seq![u.u] + u.X;
            &&& w.W.len() == s.num_vars_max && w.W_proj.len() == s.num_vars_max
            &&& u.lambda.len() == s.mats.len()
            &&& u.X.len() == s.num_io && u.r_x.len() == s.s_max && u.r_y.len() == s.s_prime_max && u.v.len() == 4
            &&& u.comm_W == commitment_log::<E>(E::generators(&ck), E::blinding(&ck), w.W, w.r_W)
            &&& forall|j: int|
                0 <= j < 3 ==> #[trigger] u.v[j] == sum(
                    |i: int| u.lambda[i] * weighted(s.mats[i][j], weights(u.r_x), weights(u.r_y)),
                    s.mats.len() as int,
                ) % p
            &&& u.v[3] == sum(|i: int| z[i] * eq_weight(i, u.r_y), z.len() as int) % p
        }),
{
    let p = E::Base::modulus();
    assert forall|j: int| 0 <= j < 3 implies #[trigger] u.v[j] == sum(
        |i: int| u.lambda[i] * weighted(s.mats[i][j], weights(u.r_x), weights(u.r_y)),
        s.mats.len() as int,
    ) % p by {
        let (a, b) = (weights(u.r_x), weights(u.r_y));
        let f = |i: int| u.lambda[i] * weighted(s.mats[i][j], a, b);
        let g = |i: int| u.lambda[i] * weighted(s.mats_of(j)[i], a, b);
        assert(u.v[j] == s.eval_folded(u.lambda, j, u.r_x, u.r_y) % p);
        assert(s.eval_folded(u.lambda, j, u.r_x, u.r_y) == sum(g, u.lambda.len() as int));
        lemma_sum_ext(f, g, s.mats.len() as int);
    }
}

/// Checking a folded instance names the first thing that is wrong with it: the lengths, the commitment to the witness, or
/// the claims.
pub proof fn unsatisfied_instance_is_told_why<E: CurveEngine>(
    s: StructureView,
    ck: E::CommitmentKey,
    u: FoldedInstanceView,
    w: FoldedWitnessView,
)
    ensures
        w.W.len() != s.num_vars_max || w.W_proj.len() != s.num_vars_max || u.lambda.len() != s.mats.len() || u.X.len()
            != s.num_io || u.r_x.len() != s.s_max || u.r_y.len() != s.s_prime_max || u.v.len() != 4 ==> folded_sat::<E>(
            s,
            ck,
            u,
            w,
        ) == Err::<(), NovaError>(NovaError::InvalidWitnessLength),
        folded_sat::<E>(s, ck, u, w) is Ok ==> {
            &&& forall|c: int|
                c != u.comm_W ==> #[trigger] folded_sat::<E>(s, ck, FoldedInstanceView { comm_W: c, ..u }, w) == Err::<
                    (),
                    NovaError,
                >(NovaError::UnSat { reason: UnSatReason::WitnessCommitment })
            &&& forall|c: Seq<int>|
                c.len() == 4 && c != u.v ==> #[trigger] folded_sat::<E>(s, ck, FoldedInstanceView { v: c, ..u }, w) == Err::<
                    (),
                    NovaError,
                >(NovaError::UnSat { reason: UnSatReason::Relation })
        },
{
}

/// A folded instance that has its lengths, commits to a witness, and claims what the matrices, each times its coefficient,
/// and the vector are at its points, is satisfied by the witness.
pub proof fn opened_instance_is_satisfied<E: CurveEngine>(
    s: StructureView,
    ck: E::CommitmentKey,
    u: FoldedInstanceView,
    w: FoldedWitnessView,
)
    requires
        ({
            let p = E::Base::modulus();
            let z = w.W_proj + seq![u.u] + u.X;
            &&& w.W.len() == s.num_vars_max && w.W_proj.len() == s.num_vars_max
            &&& u.lambda.len() == s.mats.len()
            &&& u.X.len() == s.num_io && u.r_x.len() == s.s_max && u.r_y.len() == s.s_prime_max && u.v.len() == 4
            &&& u.comm_W == commitment_log::<E>(E::generators(&ck), E::blinding(&ck), w.W, w.r_W)
            &&& forall|j: int|
                0 <= j < 3 ==> #[trigger] u.v[j] == sum(
                    |i: int| u.lambda[i] * weighted(s.mats[i][j], weights(u.r_x), weights(u.r_y)),
                    s.mats.len() as int,
                ) % p
            &&& u.v[3] == sum(|i: int| z[i] * eq_weight(i, u.r_y), z.len() as int) % p
        }),
    ensures
        folded_sat::<E>(s, ck, u, w) is Ok,
{
    let p = E::Base::modulus();
    let c = claims(s, u.lambda, u.r_x, u.r_y, folded_z(u, w), p);
    assert forall|j: int| 0 <= j < 3 implies #[trigger] u.v[j] == c[j] by {
        let (a, b) = (weights(u.r_x), weights(u.r_y));
        let f = |i: int| u.lambda[i] * weighted(s.mats[i][j], a, b);
        let g = |i: int| u.lambda[i] * weighted(s.mats_of(j)[i], a, b);
        assert(s.eval_folded(u.lambda, j, u.r_x, u.r_y) == sum(g, u.lambda.len() as int));
        lemma_sum_ext(f, g, s.mats.len() as int);
    }
    assert(u.v =~= c);
}

/// Where the parts of the inputs of a fold stand in what is absorbed of them: the digest of the parameters, the predicate,
/// and the incoming instance.
pub proof fn inputs_are_absorbed_in_order<E: CurveEngine>(pp_digest: int, id: int, u: InstanceView)
    ensures
        ({
            let e = absorbed_inputs::<E>(pp_digest, id, u);
            &&& e.len() == 2 + instance_elements::<E>(u).len()
            &&& e[0] == pp_digest % E::Base::modulus()
            &&& e[1] == id
            &&& e.skip(2) == instance_elements::<E>(u)
        }),
{
    let e = absorbed_inputs::<E>(pp_digest, id, u);
    assert(e.skip(2) =~= instance_elements::<E>(u));
}

/// Where the parts of a folded instance stand in what is absorbed of it: the commitment to the witness, the coefficients of
/// the index, the factor, the public values, the two points and the claims.
pub proof fn folded_instance_is_absorbed_in_order<E: CurveEngine>(u: FoldedInstanceView)
    ensures
        ({
            let (e, c) = (folded_instance_elements::<E>(u), E::multiple(u.comm_W));
            let n = 3 + u.lambda.len();
            let (a, b) = (n + 1 + u.X.len(), n + 1 + u.X.len() + u.r_x.len());
            &&& e.len() == b + u.r_y.len() + u.v.len()
            &&& e[0] == c.0 && e[1] == c.1 && (e[2] == 1 <==> c.2) && (e[2] == 0 <==> !c.2)
            &&& forall|i: int| 0 <= i < u.lambda.len() ==> #[trigger] e[3 + i] == u.lambda[i]
            &&& e[n as int] == u.u
            &&& forall|i: int| 0 <= i < u.X.len() ==> #[trigger] e[n + 1 + i] == u.X[i]
            &&& forall|i: int| 0 <= i < u.r_x.len() ==> #[trigger] e[a + i] == u.r_x[i]
            &&& forall|i: int| 0 <= i < u.r_y.len() ==> #[trigger] e[b + i] == u.r_y[i]
            &&& forall|i: int| 0 <= i < u.v.len() ==> #[trigger] e[b + u.r_y.len() + i] == u.v[i]
        }),
{
}

/// The folded instance that one instance and its witness make up carries its commitment and its public values, the factor
/// one, the coefficient one of its predicate alone and the points of zeros, where it claims the first entries of the
/// matrices and of the vector; its witness carries the same values in both fields.
pub proof fn first_instance_carries_instance<E: CurveEngine>(s: StructureView, id: int, u: InstanceView, w: WitnessView)
    requires
        s.wf(),
        s.num_vars_max > 0,
        0 <= id < s.len(),
        u.X.len() == s.num_io,
        w.W.len() <= s.num_vars_max,
    ensures
        ({
            let p = E::Base::modulus();
            let (f, g) = (first_instance(s, id, u, w, p), first_witness(s, w, p));
            &&& f.comm_W == u.comm_W
            &&& f.lambda.len() == s.len() && f.lambda[id] == 1
            &&& forall|i: int| 0 <= i < s.len() && i != id ==> #[trigger] f.lambda[i] == 0
            &&& f.u == 1
            &&& f.X.len() == s.num_io
            &&& forall|i: int| 0 <= i < s.num_io ==> #[trigger] f.X[i] == u.X[i] % p
            &&& f.r_x.len() == s.s_max && f.r_y.len() == s.s_prime_max && f.v.len() == 4
            &&& forall|i: int| 0 <= i < s.s_max ==> #[trigger] f.r_x[i] == 0
            &&& forall|i: int| 0 <= i < s.s_prime_max ==> #[trigger] f.r_y[i] == 0
            &&& forall|j: int|
                0 <= j < 3 ==> #[trigger] f.v[j] == sum(
                    |k: int|
                        if s.mats[id][j][k].0 == 0 && s.mats[id][j][k].1 == 0 {
                            s.mats[id][j][k].2
                        } else {
                            0
                        },
                    s.mats[id][j].len() as int,
                ) % p
            &&& w.W.len() > 0 ==> f.v[3] == w.W[0] % p
            &&& g.W.len() == s.num_vars_max && g.W_proj.len() == s.num_vars_max && g.r_W == w.r_W
            &&& forall|i: int| 0 <= i < w.W.len() ==> #[trigger] g.W[i] == w.W[i] && g.W_proj[i] == w.W[i] % p
            &&& forall|i: int| w.W.len() <= i < s.num_vars_max ==> #[trigger] g.W[i] == 0 && g.W_proj[i] == 0
        }),
{
    let p = E::Base::modulus();
    E::Base::modulus_bounds();
    vstd::arithmetic::div_mod::lemma_small_mod(0, p as nat);
    crate::soundness::first_instance_carries_instance::<E>(s, id, u, w);
}

/// The folded instance that has folded nothing is zero throughout.
pub proof fn empty_instance_is_zero(s: StructureView)
    requires
        s.num_io >= 0,
    ensures
        ({
            let e = empty_instance(s);
            &&& e.comm_W == 0 && e.u == 0
            &&& e.lambda == Seq::new(s.len(), |i: int| 0int)
            &&& e.X == Seq::new(s.num_io as nat, |i: int| 0int)
            &&& e.r_x == Seq::new(s.s_max, |i: int| 0int)
            &&& e.r_y == Seq::new(s.s_prime_max, |i: int| 0int)
            &&& e.v == seq![0int, 0int, 0int, 0int]
        }),
{
    let e = empty_instance(s);
    assert(e.lambda =~= Seq::new(s.len(), |i: int| 0int));
    assert(e.X =~= Seq::new(s.num_io as nat, |i: int| 0int));
    assert(e.r_x =~= Seq::new(s.s_max, |i: int| 0int));
    assert(e.r_y =~= Seq::new(s.s_prime_max, |i: int| 0int));
    assert(e.v =~= seq![0int, 0int, 0int, 0int]);
}

/// Folding an instance in adds its multiples: in the scalar field the commitments by the one factor, in the base field the
/// factor and the public values by the other; the points and the claims are the given ones.
pub proof fn folded_instance_adds_multiples(
    s: StructureView,
    id: int,
    u: FoldedInstanceView,
    u2: InstanceView,
    rho: int,
    rho_scalar: int,
    r_x: Seq<int>,
    r_y: Seq<int>,
    v: Seq<int>,
    p: int,
    q: int,
)
    requires
        p > 0,
        q > 0,
        u.X.len() == s.num_io,
        u2.X.len() == s.num_io,
        0 <= id < u.lambda.len(),
    ensures
        ({
            let f = fold_instance(s, id, u, u2, rho, rho_scalar, r_x, r_y, v, p, q);
            &&& cong(f.comm_W, u.comm_W + rho_scalar * u2.comm_W, q)
            &&& f.lambda.len() == u.lambda.len()
            &&& cong(f.lambda[id], u.lambda[id] + rho, p)
            &&& forall|i: int| 0 <= i < f.lambda.len() && i != id ==> #[trigger] f.lambda[i] == u.lambda[i]
            &&& cong(f.u, u.u + rho, p)
            &&& f.X.len() == s.num_io
            &&& forall|i: int| 0 <= i < s.num_io ==> cong(#[trigger] f.X[i], u.X[i] + rho * u2.X[i], p)
            &&& f.r_x == r_x && f.r_y == r_y && f.v == v
        }),
{
    let f = fold_instance(s, id, u, u2, rho, rho_scalar, r_x, r_y, v, p, q);
    let c = u2.comm_W;
    assert(c * rho_scalar == rho_scalar * c) by (nonlinear_arith);
    lemma_cong_mod(u.comm_W + c * rho_scalar, q);
    lemma_cong_mod(u.u + rho, p);
    lemma_cong_mod(u.lambda[id] + rho, p);
    assert forall|i: int| 0 <= i < s.num_io implies cong(#[trigger] f.X[i], u.X[i] + rho * u2.X[i], p) by {
        lemma_folds_projected(u.X[i], u2.X[i], rho, p);
    }
}

/// Folding a witness in adds its multiples: in the scalar field its values and its blinding by the one factor, in the base
/// field its values by the other.
pub proof fn folded_witness_adds_multiples(
    s: StructureView,
    w: FoldedWitnessView,
    w2: WitnessView,
    rho: int,
    rho_scalar: int,
    p: int,
    q: int,
)
    requires
        p > 0,
        q > 0,
        w.W.len() == s.num_vars_max,
        w.W_proj.len() == s.num_vars_max,
        w2.W.len() <= s.num_vars_max,
    ensures
        ({
            let f = fold_witness(s, w, w2, rho, rho_scalar, p, q);
            &&& f.W.len() == s.num_vars_max && f.W_proj.len() == s.num_vars_max
            &&& forall|i: int| 0 <= i < w2.W.len() ==> cong(#[trigger] f.W[i], w.W[i] + rho_scalar * w2.W[i], q)
            &&& forall|i: int| 0 <= i < w2.W.len() ==> cong(#[trigger] f.W_proj[i], w.W_proj[i] + rho * w2.W[i], p)
            &&& forall|i: int| w2.W.len() <= i < s.num_vars_max ==> cong(#[trigger] f.W[i], w.W[i], q)
            &&& forall|i: int| w2.W.len() <= i < s.num_vars_max ==> cong(#[trigger] f.W_proj[i], w.W_proj[i], p)
            &&& cong(f.r_W, w.r_W + rho_scalar * w2.r_W, q)
        }),
{
    let f = fold_witness(s, w, w2, rho, rho_scalar, p, q);
    assert forall|i: int| 0 <= i < w2.W.len() implies cong(#[trigger] f.W[i], w.W[i] + rho_scalar * w2.W[i], q) by {
        lemma_cong_mod(w.W[i] + rho_scalar * w2.W[i], q);
    }
    assert forall|i: int| 0 <= i < w2.W.len() implies cong(#[trigger] f.W_proj[i], w.W_proj[i] + rho * w2.W[i], p) by {
        lemma_folds_projected(w.W_proj[i], w2.W[i], rho, p);
    }
    assert forall|i: int| w2.W.len() <= i < s.num_vars_max implies cong(#[trigger] f.W[i], w.W[i], q) by {
        assert(rho_scalar * 0 == 0);
        lemma_cong_mod(w.W[i], q);
    }
    assert forall|i: int| w2.W.len() <= i < s.num_vars_max implies cong(#[trigger] f.W_proj[i], w.W_proj[i], p) by {
        vstd::arithmetic::div_mod::lemma_small_mod(0, p as nat);
        assert(rho * 0 == 0);
        lemma_cong_mod(w.W_proj[i], p);
    }
    lemma_cong_mod(w.r_W + rho_scalar * w2.r_W, q);
}

} // verus!
