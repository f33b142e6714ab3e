//! What acceptance shows: what a proof has to satisfy that a verifier accepts, and what an instance has to be that is
//! satisfied by its witness.
use crate::combine::{sum_x, sum_y};
use crate::completeness::lemma_check_some;
use crate::engine::{commitment_log, discrete_log, logs, CurveEngine, CurveGroup, PointView, RandomOracle};
use crate::field::FieldElement;
use crate::math::{
    cong, inner_product, lemma_cong_add, lemma_cong_mod, lemma_cong_mul, lemma_sum_ext, lemma_sum_zero, next_pow2,
    sum,
};
use crate::mle::{eq_points, eq_weight, reversed};
use crate::nifs::{
    absorbed_inputs, accepted, checked_proof, claim_x, claim_y, hash_of, min_len, opening, squeezed, squeezed_state,
    verified, NIFSView, Running, SumcheckProofView,
};
use crate::relation::{
    claims, claims_at_zero, commitment_elements, commitments3_elements, corner, first_instance, first_witness,
    fold_instance, fold_witness, folded_instance_elements, folded_sat, folded_z, incoming_z, index_commitments,
    instance_elements, matrix_corner, projected, FoldedInstanceView, FoldedWitnessView, Shapes, StructureView,
};
use crate::sumcheck::{
    challenge, check_rounds, cubic, first_points, good_modulus, lemma_interpolate_cubic, lemma_interpolate_quadratic,
    Check,
};
use crate::errors::{NovaError, UnSatReason};
use crate::fold_circuit::accepted_with_witness;
use crate::matrix::{row_sum, values, weighted, weights};
use crate::r1cs::{InstanceView, ShapeView, WitnessView};
use crate::shape::{full_vector, r1cs_sat};
use crate::instance_circuit::{empty_instance, started_instance};
use crate::relaxed::{relaxed_sat, RelaxedInstanceView, RelaxedWitnessView};
use vstd::arithmetic::div_mod::lemma_mod_twice;
use vstd::arithmetic::power::pow;
use vstd::arithmetic::power2::pow2;
use vstd::prelude::*;

verus! {

/// Whether a polynomial of degree below `d` has the given values at 0, 1 and so on.
pub open spec fn through(c: (int, int, int, int), evals: Seq<int>, d: nat, p: int) -> bool {
    &&& d == 3 ==> c.3 == 0
    &&& evals.len() == d
    &&& forall|t: int| 0 <= t < d ==> cong(#[trigger] evals[t], c.0 + c.1 * t + c.2 * (t * t) + c.3 * (t * t * t), p)
}

/// Whether the rounds of a proof reduce claim after claim: the polynomial of a round adds up over 0 and 1 to the claim
/// before it, it is absorbed before its challenge is squeezed, and its value at the challenge is the next claim.
pub open spec fn reduces(
    d: nat,
    hash: spec_fn(Seq<int>) -> int,
    p: int,
    proof_: SumcheckProofView,
    claims: Seq<int>,
    states: Seq<Seq<int>>,
) -> bool {
    let n = proof_.polys.len();
    &&& proof_.point.len() == n
    &&& claims.len() == n + 1
    &&& states.len() == n + 1
    &&& forall|k: int|
        0 <= k < n ==> {
            let evals = #[trigger] proof_.polys[k];
            let r = proof_.point[k];
            &&& evals.len() == d
            &&& cong(evals[0] + evals[1], claims[k], p)
            &&& r == hash(states[k] + evals) % (pow2(128) as int)
            &&& states[k + 1] == seq![hash(states[k] + evals)]
            &&& forall|c: (int, int, int, int)| #[trigger]
                through(c, evals, d, p) ==> claims[k + 1] == (c.0 + c.1 * r + c.2 * (r * r) + c.3 * (r * r * r)) % p
        }
}

/// The point of the verifier after some rounds is the start of its last point.
proof fn lemma_point_grows(
    points: Seq<int>,
    hash: spec_fn(Seq<int>) -> int,
    p: int,
    c: Check,
    polys: Seq<Seq<int>>,
    k: nat,
    n: nat,
)
    requires
        k <= n,
        c.point == Seq::<int>::empty(),
        check_rounds(points, hash, p, c, polys, n) is Some,
    ensures
        check_rounds(points, hash, p, c, polys, k) is Some,
        check_rounds(points, hash, p, c, polys, n)->0.point.len() == n,
        check_rounds(points, hash, p, c, polys, k)->0.point == check_rounds(points, hash, p, c, polys, n)->0.point.take(
            k as int,
        ),
    decreases n,
{
    let last = check_rounds(points, hash, p, c, polys, n)->0;
    if n == 0 {
        assert(last.point.take(0) =~= last.point);
    } else {
        let m = (n - 1) as nat;
        lemma_check_some(points, hash, p, c, polys, m, n);
        if k < n {
            lemma_point_grows(points, hash, p, c, polys, k, m);
            let before = check_rounds(points, hash, p, c, polys, m)->0;
            assert(last.point.take(k as int) =~= before.point.take(k as int));
        } else {
            lemma_point_grows(points, hash, p, c, polys, m, m);
            assert(last.point.take(k as int) =~= last.point);
        }
    }
}

/// What the verifier of a sum-check accepts reduces the claim it starts from to the one it leaves, by challenges that
/// are squeezed from all that was sent before them.
pub proof fn accepted_sumcheck_reduces_its_claim(
    d: nat,
    hash: spec_fn(Seq<int>) -> int,
    p: int,
    state: Seq<int>,
    claim: int,
    proof_: SumcheckProofView,
)
    requires
        d == 3 || d == 4,
        good_modulus(p),
        checked_proof(first_points(d), hash, p, state, claim, proof_) is Some,
    ensures
        exists|claims: Seq<int>, states: Seq<Seq<int>>| #[trigger]
            reduces(d, hash, p, proof_, claims, states) && claims[0] == claim && states[0] == state && checked_proof(
                first_points(d),
                hash,
                p,
                state,
                claim,
                proof_,
            ) == Some(Check { state: states.last(), claim: claims.last(), point: proof_.point }),
{
    let pts = first_points(d);
    let start = Check { state, claim, point: Seq::empty() };
    let n = proof_.polys.len();
    let claims = Seq::new(n + 1, |k: int| check_rounds(pts, hash, p, start, proof_.polys, k as nat)->0.claim);
    let states = Seq::new(n + 1, |k: int| check_rounds(pts, hash, p, start, proof_.polys, k as nat)->0.state);
    assert forall|k: int| 0 <= k < n implies {
        let evals = #[trigger] proof_.polys[k];
        let r = proof_.point[k];
        &&& evals.len() == d
        &&& cong(evals[0] + evals[1], claims[k], p)
        &&& r == hash(states[k] + evals) % (pow2(128) as int)
        &&& states[k + 1] == seq![hash(states[k] + evals)]
        &&& forall|c: (int, int, int, int)| #[trigger]
            through(c, evals, d, p) ==> claims[k + 1] == (c.0 + c.1 * r + c.2 * (r * r) + c.3 * (r * r * r)) % p
    } by {
        let evals = proof_.polys[k];
        let r = proof_.point[k];
        lemma_check_some(pts, hash, p, start, proof_.polys, (k + 1) as nat, n);
        lemma_check_some(pts, hash, p, start, proof_.polys, k as nat, n);
        lemma_point_grows(pts, hash, p, start, proof_.polys, (k + 1) as nat, n);
        lemma_point_grows(pts, hash, p, start, proof_.polys, k as nat, n);
        let before = check_rounds(pts, hash, p, start, proof_.polys, k as nat)->0;
        let after = check_rounds(pts, hash, p, start, proof_.polys, (k + 1) as nat)->0;
        assert(after.point[k] == proof_.point[k]);
        assert(after.point == before.point.push(challenge(hash, before.state + evals)));
        lemma_mod_twice(evals[0] + evals[1], p);
        assert forall|c: (int, int, int, int)| #[trigger] through(c, evals, d, p) implies claims[k + 1] == (c.0 + c.1 * r
            + c.2 * (r * r) + c.3 * (r * r * r)) % p by {
            assert forall|t: int| 0 <= t < d implies cong(#[trigger] evals[t], cubic(c, t), p) by {}
            if d == 4 {
                lemma_interpolate_cubic(c, evals, r, p);
            } else {
                lemma_interpolate_quadratic(c, evals, r, p);
            }
        }
    }
    assert(reduces(d, hash, p, proof_, claims, states)) by {
        lemma_point_grows(pts, hash, p, start, proof_.polys, n, n);
    }
}

/// The first powers of a number, written out.
proof fn lemma_first_powers(g: int)
    ensures
        pow(g, 1) == g,
        pow(g, 2) == g * g,
        pow(g, 3) == g * g * g,
        pow(g, 4) == g * g * g * g,
        pow(g, 5) == g * g * g * g * g,
        pow(g, 6) == g * g * g * g * g * g,
{
    reveal(pow);
    reveal_with_fuel(pow, 7);
    let (b, c, d, e) = (g * g, g * g * g, g * g * g * g, g * g * g * g * g);
    assert(g * 1 == g);
    assert(g * b == c) by (nonlinear_arith)
        requires
            b == g * g,
            c == g * g * g,
    ;
    assert(g * c == d) by (nonlinear_arith)
        requires
            c == g * g * g,
            d == g * g * g * g,
    ;
    assert(g * d == e) by (nonlinear_arith)
        requires
            d == g * g * g * g,
            e == g * g * g * g * g,
    ;
    assert(g * e == g * g * g * g * g * g) by (nonlinear_arith)
        requires
            e == g * g * g * g * g,
    ;
}

/// What the last claim of the first sum-check of a fold has to be: the running matrices at the new point of the rows,
/// and the constraints of the incoming instance there.
pub open spec fn first_last_claim(g: int, eq_running: int, eq_alpha: int, sigmas: Seq<int>, taus: Seq<int>) -> int {
    eq_running * (sigmas[0] + g * sigmas[1] + g * g * sigmas[2]) + g * g * g * (eq_alpha * (taus[0] * taus[1] - taus[2]))
}

/// What the last claim of the second sum-check of a fold has to be: the running matrices and the running vector at the
/// new points, and the products of the matrices of the predicate with the incoming vector there.
pub open spec fn second_last_claim(d: int, eq_running: int, epsilons: Seq<int>, thetas: Seq<int>) -> int {
    eq_running * (epsilons[0] + d * epsilons[1] + d * d * epsilons[2] + d * d * d * epsilons[3]) + d * d * d * d * (thetas[3]
        * (thetas[0] + d * thetas[1] + d * d * thetas[2]))
}

proof fn lemma_claim_x(g: int, r_x: Seq<int>, alpha: Seq<int>, point: Seq<int>, sigmas: Seq<int>, taus: Seq<int>)
    ensures
        claim_x(g, r_x, alpha, point, sigmas, taus) == first_last_claim(
            g,
            eq_points(r_x, point, min_len(r_x, point)),
            eq_points(alpha, point, min_len(alpha, point)),
            sigmas,
            taus,
        ),
{
    lemma_first_powers(g);
    let (x, s0, s1, s2) = (eq_points(r_x, point, min_len(r_x, point)), sigmas[0], sigmas[1], sigmas[2]);
    let b = g * g;
    assert(x * (s0 + g * s1 + b * s2) == x * s0 + g * (x * s1) + b * (x * s2)) by (nonlinear_arith);
}

proof fn lemma_claim_y(d: int, r_y: Seq<int>, point: Seq<int>, epsilons: Seq<int>, thetas: Seq<int>)
    ensures
        claim_y(d, r_y, point, epsilons, thetas) == second_last_claim(
            d,
            eq_points(r_y, point, min_len(r_y, point)),
            epsilons,
            thetas,
        ),
{
    lemma_first_powers(d);
    let (x, e0, e1, e2, e3) = (eq_points(r_y, point, min_len(r_y, point)), epsilons[0], epsilons[1], epsilons[2], epsilons[3]);
    let (b, c, f) = (d * d, d * d * d, d * d * d * d);
    let (m1, m2, m3) = (d * e1, b * e2, c * e3);
    assert(x * (e0 + m1 + m2 + m3) == x * e0 + x * m1 + x * m2 + x * m3) by (nonlinear_arith);
    assert(x * m1 == d * (x * e1)) by (nonlinear_arith)
        requires
            m1 == d * e1,
    ;
    assert(x * m2 == b * (x * e2)) by (nonlinear_arith)
        requires
            m2 == b * e2,
    ;
    assert(x * m3 == c * (x * e3)) by (nonlinear_arith)
        requires
            m3 == c * e3,
    ;
    let (t0, t1, t2, t3) = (thetas[0], thetas[1], thetas[2], thetas[3]);
    let (n1, n2) = (d * t1, b * t2);
    let (k0, k1, k2) = (t0 * t3, n1 * t3, n2 * t3);
    assert(t3 * (t0 + n1 + n2) == k0 + k1 + k2) by (nonlinear_arith)
        requires
            k0 == t0 * t3,
            k1 == n1 * t3,
            k2 == n2 * t3,
    ;
    assert(f * (k0 + k1 + k2) == f * k0 + f * k1 + f * k2) by (nonlinear_arith);
    assert(f * k1 == (f * d) * (t1 * t3)) by (nonlinear_arith)
        requires
            k1 == (d * t1) * t3,
    ;
    assert(f * k2 == (f * b) * (t2 * t3)) by (nonlinear_arith)
        requires
            k2 == (b * t2) * t3,
    ;
    assert(f * b == f * d * d) by (nonlinear_arith)
        requires
            b == d * d,
    ;
}

/// Whether the two sum-checks of a fold start from the claims that they are to start from, and end in those that the
/// helper claims of the proof give.
pub open spec fn ties_claims<E: CurveEngine>(
    s: StructureView,
    gamma: int,
    alpha: Seq<int>,
    state: Seq<int>,
    r_x: Seq<int>,
    r_y: Seq<int>,
    v: Seq<int>,
    proof_: NIFSView,
    x: Check,
    y: Check,
) -> bool {
    let hash = hash_of::<E>();
    let p = E::Base::modulus();
    let d = hash(x.state) % (pow2(128) as int);
    &&& checked_proof(
        first_points(4),
        hash,
        p,
        state,
        (v[0] + gamma * v[1] + gamma * gamma * v[2]) % p,
        proof_.sc_proof_x,
    ) == Some(x)
    &&& cong(
        x.claim,
        first_last_claim(
            gamma,
            eq_points(r_x, reversed(x.point), s.s_max as int),
            eq_points(alpha, reversed(x.point), s.s_max as int),
            proof_.sigmas,
            proof_.taus,
        ),
        p,
    )
    &&& checked_proof(
        first_points(3),
        hash,
        p,
        seq![hash(x.state)],
        (proof_.sigmas[0] + d * proof_.sigmas[1] + d * d * proof_.sigmas[2] + d * d * d * v[3] + d * d * d * d
            * proof_.taus[0] + d * d * d * d * d * proof_.taus[1] + d * d * d * d * d * d * proof_.taus[2]) % p,
        proof_.sc_proof_y,
    ) == Some(y)
    &&& cong(
        y.claim,
        second_last_claim(d, eq_points(r_y, reversed(y.point), s.s_prime_max as int), proof_.epsilons, proof_.thetas),
        p,
    )
}

/// What the verifier of a fold accepts ties all claims together: the first sum-check starts from the running claims of
/// the matrices and ends in what the first helper claims give, the second one starts from these and from the running
/// claim of the vector, and ends in what the new claims give.
pub proof fn accepted_fold_ties_claims<E: CurveEngine>(
    s: StructureView,
    start: Seq<int>,
    r_x: Seq<int>,
    r_y: Seq<int>,
    v: Seq<int>,
    proof_: NIFSView,
)
    requires
        r_x.len() == s.s_max,
        r_y.len() == s.s_prime_max,
        accepted::<E>(s, start, r_x, r_y, v, proof_) is Some,
    ensures
        ({
            let o = opening::<E>(s, start);
            let a = accepted::<E>(s, start, r_x, r_y, v, proof_)->0;
            &&& proof_.sigmas.len() == 3 && proof_.taus.len() == 3
            &&& proof_.epsilons.len() == 4 && proof_.thetas.len() == 4
            &&& proof_.sc_proof_x.polys.len() == s.s_max
            &&& proof_.sc_proof_y.polys.len() == s.s_prime_max
            &&& exists|x: Check, y: Check| #[trigger]
                ties_claims::<E>(s, o.gamma, o.alpha, o.state, r_x, r_y, v, proof_, x, y) && a.r_x == reversed(x.point)
                    && a.r_y == reversed(y.point) && a.rho == hash_of::<E>()(y.state) % (pow2(128) as int)
        }),
{
    let hash = hash_of::<E>();
    let p = E::Base::modulus();
    E::Base::modulus_bounds();
    let o = opening::<E>(s, start);
    let g = o.gamma;
    lemma_first_powers(g);
    let x = checked_proof(first_points(4), hash, p, o.state, sum_x(g, v) % p, proof_.sc_proof_x)->0;
    let d = challenge(hash, x.state);
    lemma_first_powers(d);
    let y = checked_proof(
        first_points(3),
        hash,
        p,
        seq![hash(x.state)],
        sum_y(d, v, proof_.sigmas, proof_.taus) % p,
        proof_.sc_proof_y,
    )->0;
    assert(x.point.len() == s.s_max && y.point.len() == s.s_prime_max);
    let (cx, cy) = (
        claim_x(g, r_x, o.alpha, reversed(x.point), proof_.sigmas, proof_.taus),
        claim_y(d, r_y, reversed(y.point), proof_.epsilons, proof_.thetas),
    );
    lemma_claim_x(g, r_x, o.alpha, reversed(x.point), proof_.sigmas, proof_.taus);
    lemma_claim_y(d, r_y, reversed(y.point), proof_.epsilons, proof_.thetas);
    lemma_mod_twice(cx, p);
    lemma_mod_twice(cy, p);
    assert(ties_claims::<E>(s, o.gamma, o.alpha, o.state, r_x, r_y, v, proof_, x, y));
}

/// A proof of a fold is rejected whose first sum-check leaves another claim than its helper claims give.
pub proof fn wrong_first_claim_is_rejected<E: CurveEngine>(
    s: StructureView,
    start: Seq<int>,
    r_x: Seq<int>,
    r_y: Seq<int>,
    v: Seq<int>,
    proof_: NIFSView,
    x: Check,
)
    requires
        r_x.len() == s.s_max,
        r_y.len() == s.s_prime_max,
        ({
            let o = opening::<E>(s, start);
            let p = E::Base::modulus();
            &&& checked_proof(
                first_points(4),
                hash_of::<E>(),
                p,
                o.state,
                (v[0] + o.gamma * v[1] + o.gamma * o.gamma * v[2]) % p,
                proof_.sc_proof_x,
            ) == Some(x)
            &&& !cong(
                x.claim,
                eq_points(r_x, reversed(x.point), s.s_max as int) * (proof_.sigmas[0] + o.gamma * proof_.sigmas[1]
                    + o.gamma * o.gamma * proof_.sigmas[2]) + o.gamma * o.gamma * o.gamma * (eq_points(
                    o.alpha,
                    reversed(x.point),
                    s.s_max as int,
                ) * (proof_.taus[0] * proof_.taus[1] - proof_.taus[2])),
                p,
            )
        }),
    ensures
        accepted::<E>(s, start, r_x, r_y, v, proof_) is None,
{
    if accepted::<E>(s, start, r_x, r_y, v, proof_) is Some {
        accepted_fold_ties_claims::<E>(s, start, r_x, r_y, v, proof_);
    }
}

/// A proof of a fold is rejected whose second sum-check leaves another claim than its new claims give.
pub proof fn wrong_second_claim_is_rejected<E: CurveEngine>(
    s: StructureView,
    start: Seq<int>,
    r_x: Seq<int>,
    r_y: Seq<int>,
    v: Seq<int>,
    proof_: NIFSView,
    x: Check,
    y: Check,
)
    requires
        r_x.len() == s.s_max,
        r_y.len() == s.s_prime_max,
        ({
            let o = opening::<E>(s, start);
            let hash = hash_of::<E>();
            let p = E::Base::modulus();
            let d = hash(x.state) % (pow2(128) as int);
            let (sg, ta, ep, th) = (proof_.sigmas, proof_.taus, proof_.epsilons, proof_.thetas);
            &&& checked_proof(
                first_points(4),
                hash,
                p,
                o.state,
                (v[0] + o.gamma * v[1] + o.gamma * o.gamma * v[2]) % p,
                proof_.sc_proof_x,
            ) == Some(x)
            &&& checked_proof(
                first_points(3),
                hash,
                p,
                seq![hash(x.state)],
                (sg[0] + d * sg[1] + d * d * sg[2] + d * d * d * v[3] + d * d * d * d * ta[0] + d * d * d * d * d * ta[1]
                    + d * d * d * d * d * d * ta[2]) % p,
                proof_.sc_proof_y,
            ) == Some(y)
            &&& !cong(
                y.claim,
                eq_points(r_y, reversed(y.point), s.s_prime_max as int) * (ep[0] + d * ep[1] + d * d * ep[2] + d * d * d
                    * ep[3]) + d * d * d * d * (th[3] * (th[0] + d * th[1] + d * d * th[2])),
                p,
            )
        }),
    ensures
        accepted::<E>(s, start, r_x, r_y, v, proof_) is None,
{
    if accepted::<E>(s, start, r_x, r_y, v, proof_) is Some {
        accepted_fold_ties_claims::<E>(s, start, r_x, r_y, v, proof_);
    }
}

/// The challenges that start a fold are squeezed one after the other from an oracle that has absorbed the inputs, and
/// the first sum-check goes on with that oracle.
pub proof fn fold_opens_by_squeezing<E: CurveEngine>(s: StructureView, start: Seq<int>)
    ensures
        ({
            let hash = hash_of::<E>();
            let o = opening::<E>(s, start);
            &&& o.gamma == hash(start) % (pow2(128) as int)
            &&& o.alpha.len() == s.s_max
            &&& exists|states: Seq<Seq<int>>|
                {
                    &&& #[trigger] states.len() == s.s_max + 2
                    &&& states[0] == start
                    &&& forall|k: int| 0 <= k <= s.s_max ==> #[trigger] states[k + 1] == seq![hash(states[k])]
                    &&& forall|k: int| 0 <= k < s.s_max ==> #[trigger] o.alpha[k] == hash(states[k + 1]) % (pow2(128) as int)
                    &&& o.state == states.last()
                }
        }),
{
    let hash = hash_of::<E>();
    let o = opening::<E>(s, start);
    let after = seq![hash(start)];
    let states = Seq::new(
        s.s_max + 2,
        |k: int|
            if k == 0 {
                start
            } else {
                squeezed_state(hash, after, (k - 1) as nat)
            },
    );
    assert forall|k: int| 0 <= k <= s.s_max implies #[trigger] states[k + 1] == seq![hash(states[k])] by {
        if k > 0 {
            assert(squeezed_state(hash, after, k as nat) == seq![hash(squeezed_state(hash, after, (k - 1) as nat))]);
        }
    }
    assert(o.alpha == squeezed(hash, after, s.s_max));
    assert(states.len() == s.s_max + 2);
}

/// Two sequences that start alike long parts are the same only part by part.
pub(crate) proof fn lemma_parts<A>(a: Seq<A>, b: Seq<A>, c: Seq<A>, d: Seq<A>)
    requires
        a + b == c + d,
        a.len() == c.len(),
    ensures
        a == c,
        b == d,
{
    assert(a =~= (a + b).take(a.len() as int));
    assert(c =~= (c + d).take(a.len() as int));
    assert(b =~= (a + b).skip(a.len() as int));
    assert(d =~= (c + d).skip(a.len() as int));
}

/// What is absorbed of a commitment determines its point.
pub(crate) proof fn lemma_commitment_absorbed<E: CurveGroup>(a: int, b: int)
    requires
        commitment_elements::<E>(a) == commitment_elements::<E>(b),
    ensures
        E::multiple(a) == E::multiple(b),
{
    let (x, y) = (commitment_elements::<E>(a), commitment_elements::<E>(b));
    assert(x[0] == y[0] && x[1] == y[1] && x[2] == y[2]);
}

/// What is absorbed of three commitments determines their points.
proof fn lemma_commitments_absorbed<E: CurveGroup>(a: Seq<int>, b: Seq<int>)
    requires
        commitments3_elements::<E>(a) == commitments3_elements::<E>(b),
    ensures
        forall|j: int| 0 <= j < 3 ==> E::multiple(#[trigger] a[j]) == E::multiple(b[j]),
{
    let (a0, a1, a2) = (
        commitment_elements::<E>(a[0]),
        commitment_elements::<E>(a[1]),
        commitment_elements::<E>(a[2]),
    );
    let (b0, b1, b2) = (
        commitment_elements::<E>(b[0]),
        commitment_elements::<E>(b[1]),
        commitment_elements::<E>(b[2]),
    );
    lemma_parts(a0 + a1, a2, b0 + b1, b2);
    lemma_parts(a0, a1, b0, b1);
    lemma_commitment_absorbed::<E>(a[0], b[0]);
    lemma_commitment_absorbed::<E>(a[1], b[1]);
    lemma_commitment_absorbed::<E>(a[2], b[2]);
}

/// What is absorbed of an instance determines its commitment and its public values, in the base field.
pub proof fn absorbed_instance_is_determined<E: CurveGroup>(u: InstanceView, v: InstanceView)
    requires
        u.X.len() == v.X.len(),
        instance_elements::<E>(u) == instance_elements::<E>(v),
    ensures
        E::multiple(u.comm_W) == E::multiple(v.comm_W),
        forall|i: int| 0 <= i < u.X.len() ==> cong(#[trigger] u.X[i], v.X[i], E::Base::modulus()),
{
    let p = E::Base::modulus();
    let a = Seq::new(u.X.len(), |i: int| u.X[i] % p);
    let b = Seq::new(v.X.len(), |i: int| v.X[i] % p);
    lemma_parts(commitment_elements::<E>(u.comm_W), a, commitment_elements::<E>(v.comm_W), b);
    lemma_commitment_absorbed::<E>(u.comm_W, v.comm_W);
    assert forall|i: int| 0 <= i < u.X.len() implies cong(#[trigger] u.X[i], v.X[i], p) by {
        assert(a[i] == b[i]);
    }
}

/// What is absorbed before the challenges of a fold determines the digest of the parameters, the predicate, the
/// commitments to it and the incoming instance.
pub proof fn absorbed_inputs_are_determined<E: CurveEngine>(
    s: StructureView,
    pp_digest: int,
    id: int,
    u: InstanceView,
    t: StructureView,
    pp_digest2: int,
    id2: int,
    v: InstanceView,
)
    requires
        u.X.len() == v.X.len(),
        absorbed_inputs::<E>(s, pp_digest, id, u) == absorbed_inputs::<E>(t, pp_digest2, id2, v),
    ensures
        cong(pp_digest, pp_digest2, E::Base::modulus()),
        id == id2,
        E::multiple(u.comm_W) == E::multiple(v.comm_W),
        forall|i: int| 0 <= i < u.X.len() ==> cong(#[trigger] u.X[i], v.X[i], E::Base::modulus()),
        forall|j: int| 0 <= j < 3 ==> E::multiple(#[trigger] s.comm_M[id][j]) == E::multiple(t.comm_M[id2][j]),
{
    let p = E::Base::modulus();
    let (a, b) = (seq![pp_digest % p, id], seq![pp_digest2 % p, id2]);
    let (x, y) = (instance_elements::<E>(u), instance_elements::<E>(v));
    lemma_parts(
        a + x,
        commitments3_elements::<E>(s.comm_M[id]),
        b + y,
        commitments3_elements::<E>(t.comm_M[id2]),
    );
    lemma_parts(a, x, b, y);
    assert(a[0] == b[0] && a[1] == b[1]);
    absorbed_instance_is_determined::<E>(u, v);
    lemma_commitments_absorbed::<E>(s.comm_M[id], t.comm_M[id2]);
}

/// What is absorbed of a folded instance determines all of it, for instances of the same sizes.
pub proof fn absorbed_folded_instance_is_determined<E: CurveGroup>(u: FoldedInstanceView, v: FoldedInstanceView)
    requires
        u.X.len() == v.X.len(),
        u.r_x.len() == v.r_x.len(),
        u.r_y.len() == v.r_y.len(),
        folded_instance_elements::<E>(u) == folded_instance_elements::<E>(v),
    ensures
        E::multiple(u.comm_W) == E::multiple(v.comm_W),
        forall|j: int| 0 <= j < 3 ==> E::multiple(#[trigger] u.comm_M[j]) == E::multiple(v.comm_M[j]),
        u.u == v.u,
        u.X == v.X,
        u.r_x == v.r_x,
        u.r_y == v.r_y,
        u.v == v.v,
{
    let (w1, w2) = (commitment_elements::<E>(u.comm_W), commitment_elements::<E>(v.comm_W));
    let (m1, m2) = (commitments3_elements::<E>(u.comm_M), commitments3_elements::<E>(v.comm_M));
    let (a1, a2) = (w1 + m1, w2 + m2);
    let (b1, b2) = (a1 + seq![u.u], a2 + seq![v.u]);
    let (c1, c2) = (b1 + u.X, b2 + v.X);
    let (d1, d2) = (c1 + u.r_x, c2 + v.r_x);
    lemma_parts(d1 + u.r_y, u.v, d2 + v.r_y, v.v);
    lemma_parts(d1, u.r_y, d2, v.r_y);
    lemma_parts(c1, u.r_x, c2, v.r_x);
    lemma_parts(b1, u.X, b2, v.X);
    lemma_parts(a1, seq![u.u], a2, seq![v.u]);
    assert(seq![u.u][0] == seq![v.u][0]);
    lemma_parts(w1, m1, w2, m2);
    lemma_commitment_absorbed::<E>(u.comm_W, v.comm_W);
    lemma_commitments_absorbed::<E>(u.comm_M, v.comm_M);
}

/// Whether a folded instance is another one plus a multiple of an instance.
pub open spec fn adds_multiple<E: CurveEngine>(
    s: StructureView,
    id: int,
    u1: FoldedInstanceView,
    u2: InstanceView,
    proof_: NIFSView,
    f: FoldedInstanceView,
    rho: int,
) -> bool {
    let (p, q) = (E::Base::modulus(), E::Scalar::modulus());
    &&& cong(f.comm_W, u1.comm_W + rho * u2.comm_W, q)
    &&& f.comm_M.len() == 3
    &&& forall|j: int| 0 <= j < 3 ==> cong(#[trigger] f.comm_M[j], u1.comm_M[j] + rho * s.comm_M[id][j], q)
    &&& cong(f.u, u1.u + rho, p)
    &&& f.X.len() == u1.X.len()
    &&& forall|i: int| 0 <= i < f.X.len() ==> cong(#[trigger] f.X[i], u1.X[i] + rho * u2.X[i], p)
    &&& f.v.len() == 4
    &&& forall|j: int| 0 <= j < 4 ==> cong(#[trigger] f.v[j], proof_.epsilons[j] + rho * proof_.thetas[j], p)
}

/// A number below the second power of the word is its own residue.
pub(crate) proof fn lemma_short_challenge(h: int, q: int)
    requires
        q > 0x4000000000000000000000000000000000000000000000000000000000000000int,
    ensures
        (h % (pow2(128) as int)) % q == h % (pow2(128) as int),
{
    crate::holographic::lemma_challenge(h, q);
    vstd::arithmetic::div_mod::lemma_small_mod((h % (pow2(128) as int)) as nat, q as nat);
}

/// What the verifier of a fold returns is the running instance plus a multiple of the incoming one, at the points of the
/// two sum-checks, by the challenge that comes after all that the proof holds.
pub proof fn verified_fold_adds_incoming<E: CurveEngine>(
    s: StructureView,
    pp_digest: int,
    id: int,
    u1: FoldedInstanceView,
    u2: InstanceView,
    proof_: NIFSView,
)
    requires
        u1.r_x.len() == s.s_max,
        u1.r_y.len() == s.s_prime_max,
        u1.X.len() == s.num_io,
        u2.X.len() == s.num_io,
        verified::<E>(s, pp_digest, id, u1, u2, proof_) is Some,
    ensures
        ({
            let o = opening::<E>(s, absorbed_inputs::<E>(s, pp_digest, id, u2));
            let f = verified::<E>(s, pp_digest, id, u1, u2, proof_)->0;
            exists|x: Check, y: Check|
                {
                    &&& #[trigger] ties_claims::<E>(s, o.gamma, o.alpha, o.state, u1.r_x, u1.r_y, u1.v, proof_, x, y)
                    &&& f.r_x == reversed(x.point)
                    &&& f.r_y == reversed(y.point)
                    &&& adds_multiple::<E>(
                        s,
                        id,
                        u1,
                        u2,
                        proof_,
                        f,
                        hash_of::<E>()(y.state) % (pow2(128) as int),
                    )
                }
        }),
{
    let (p, q) = (E::Base::modulus(), E::Scalar::modulus());
    E::Base::modulus_bounds();
    E::Scalar::modulus_bounds();
    let start = absorbed_inputs::<E>(s, pp_digest, id, u2);
    let o = opening::<E>(s, start);
    accepted_fold_ties_claims::<E>(s, start, u1.r_x, u1.r_y, u1.v, proof_);
    let (x, y) = choose|x: Check, y: Check| #[trigger]
        ties_claims::<E>(s, o.gamma, o.alpha, o.state, u1.r_x, u1.r_y, u1.v, proof_, x, y) && accepted::<E>(
            s,
            start,
            u1.r_x,
            u1.r_y,
            u1.v,
            proof_,
        )->0.r_x == reversed(x.point) && accepted::<E>(s, start, u1.r_x, u1.r_y, u1.v, proof_)->0.r_y == reversed(y.point)
            && accepted::<E>(s, start, u1.r_x, u1.r_y, u1.v, proof_)->0.rho == hash_of::<E>()(y.state) % (pow2(128) as int);
    let h = hash_of::<E>()(y.state);
    let rho = h % (pow2(128) as int);
    let f = verified::<E>(s, pp_digest, id, u1, u2, proof_)->0;
    lemma_short_challenge(h, q);
    lemma_cong_mod(u1.comm_W + u2.comm_W * rho, q);
    let c = u2.comm_W;
    assert(c * rho == rho * c) by (nonlinear_arith);
    assert forall|j: int| 0 <= j < 3 implies cong(#[trigger] f.comm_M[j], u1.comm_M[j] + rho * s.comm_M[id][j], q) by {
        let m = s.comm_M[id][j];
        lemma_cong_mod(u1.comm_M[j] + m * rho, q);
        assert(m * rho == rho * m) by (nonlinear_arith);
    }
    lemma_cong_mod(u1.u + rho, p);
    assert forall|i: int| 0 <= i < f.X.len() implies cong(#[trigger] f.X[i], u1.X[i] + rho * u2.X[i], p) by {
        let (a, b) = (u1.X[i], u2.X[i]);
        lemma_cong_mod(a + rho * (b % p), p);
        lemma_cong_mod(b, p);
        lemma_cong_mul(rho, rho, b % p, b, p);
        lemma_cong_add(a, a, rho * (b % p), rho * b, p);
    }
    assert forall|j: int| 0 <= j < 4 implies cong(#[trigger] f.v[j], proof_.epsilons[j] + rho * proof_.thetas[j], p) by {
        lemma_cong_mod(proof_.epsilons[j] + rho * proof_.thetas[j], p);
    }
    assert(adds_multiple::<E>(s, id, u1, u2, proof_, f, rho));
}

/// A witness is that of one folded instance only, of those with the same points, factor and public values.
pub proof fn witness_determines_instance<E: CurveEngine>(
    s: StructureView,
    ck: E::CommitmentKey,
    u: FoldedInstanceView,
    v: FoldedInstanceView,
    w: FoldedWitnessView,
)
    requires
        folded_sat::<E>(s, ck, u, w) is Ok,
        folded_sat::<E>(s, ck, v, w) is Ok,
        u.u == v.u,
        u.X == v.X,
        u.r_x == v.r_x,
        u.r_y == v.r_y,
    ensures
        u == v,
{
}

/// A folded instance that is satisfied by a witness has its lengths, commits to it and to the coefficients of the index,
/// and claims what the matrices, each times its coefficient, and the vector are at its points.
pub proof fn satisfied_instance_opens<E: CurveEngine>(
    s: StructureView,
    ck: E::CommitmentKey,
    u: FoldedInstanceView,
    w: FoldedWitnessView,
)
    requires
        folded_sat::<E>(s, ck, u, w) is Ok,
    ensures
        ({
            let p = E::Base::modulus();
            let z = w.W_proj + seq![u.u] + u.X;
            &&& w.W.len() == s.num_vars_max && w.W_proj.len() == s.num_vars_max
            &&& w.lambda_scalar.len() == s.mats.len() && w.lambda_proj.len() == s.mats.len()
            &&& u.X.len() == s.num_io && u.r_x.len() == s.s_max && u.r_y.len() == s.s_prime_max && u.v.len() == 4
            &&& u.comm_W == commitment_log::<E>(E::generators(&ck), E::blinding(&ck), w.W, w.r_W)
            &&& forall|j: int|
                0 <= j < 3 ==> #[trigger] u.comm_M[j] == commitment_log::<E>(s.keys[j], s.blindings[j], w.lambda_scalar, 0)
            &&& forall|j: int|
                0 <= j < 3 ==> #[trigger] u.v[j] == sum(
                    |i: int| w.lambda_proj[i] * weighted(s.mats[i][j], weights(u.r_x), weights(u.r_y)),
                    s.mats.len() as int,
                ) % p
            &&& u.v[3] == sum(|i: int| z[i] * eq_weight(i, u.r_y), z.len() as int) % p
        }),
{
    let p = E::Base::modulus();
    assert forall|j: int| 0 <= j < 3 implies #[trigger] u.v[j] == sum(
        |i: int| w.lambda_proj[i] * weighted(s.mats[i][j], weights(u.r_x), weights(u.r_y)),
        s.mats.len() as int,
    ) % p by {
        let (a, b) = (weights(u.r_x), weights(u.r_y));
        let f = |i: int| w.lambda_proj[i] * weighted(s.mats[i][j], a, b);
        let g = |i: int| w.lambda_proj[i] * weighted(s.mats_of(j)[i], a, b);
        assert(u.v[j] == s.eval_folded(w.lambda_proj, j, u.r_x, u.r_y) % p);
        assert(s.eval_folded(w.lambda_proj, j, u.r_x, u.r_y) == sum(g, w.lambda_proj.len() as int));
        lemma_sum_ext(f, g, s.mats.len() as int);
    }
}

/// Checking a folded instance names the first thing that is wrong with it: the lengths, the commitment to the witness,
/// the commitments to the coefficients, or the claims.
pub proof fn unsatisfied_instance_is_told_why<E: CurveEngine>(
    s: StructureView,
    ck: E::CommitmentKey,
    u: FoldedInstanceView,
    w: FoldedWitnessView,
)
    ensures
        w.W.len() != s.num_vars_max || w.W_proj.len() != s.num_vars_max || w.lambda_scalar.len() != s.mats.len()
            || w.lambda_proj.len() != s.mats.len() || u.X.len() != s.num_io || u.r_x.len() != s.s_max || u.r_y.len()
            != s.s_prime_max || u.v.len() != 4 ==> folded_sat::<E>(s, ck, u, w) == Err::<(), NovaError>(
            NovaError::InvalidWitnessLength,
        ),
        folded_sat::<E>(s, ck, u, w) is Ok ==> {
            &&& forall|c: int|
                c != u.comm_W ==> #[trigger] folded_sat::<E>(s, ck, FoldedInstanceView { comm_W: c, ..u }, w) == Err::<
                    (),
                    NovaError,
                >(NovaError::UnSat { reason: UnSatReason::WitnessCommitment })
            &&& forall|c: Seq<int>|
                c != u.comm_M ==> #[trigger] folded_sat::<E>(s, ck, FoldedInstanceView { comm_M: c, ..u }, w) == Err::<
                    (),
                    NovaError,
                >(NovaError::UnSat { reason: UnSatReason::IndexCommitment })
            &&& forall|c: Seq<int>|
                c.len() == 4 && c != u.v ==> #[trigger] folded_sat::<E>(s, ck, FoldedInstanceView { v: c, ..u }, w) == Err::<
                    (),
                    NovaError,
                >(NovaError::UnSat { reason: UnSatReason::Relation })
        },
{
}

/// An instance that is satisfied by a witness has the lengths of the shape, commits to the witness, and in every row the
/// product of the first two matrices with the vector is that of the third.
pub proof fn satisfied_shape_opens<E: CurveEngine>(s: ShapeView, ck: E::CommitmentKey, u: InstanceView, w: WitnessView)
    requires
        r1cs_sat::<E>(s, ck, u, w) is Ok,
    ensures
        ({
            let z = w.W + seq![1int] + u.X;
            &&& w.W.len() == s.num_vars
            &&& u.X.len() == s.num_io
            &&& u.comm_W == commitment_log::<E>(E::generators(&ck), E::blinding(&ck), w.W, w.r_W)
            &&& forall|r: int|
                0 <= r < s.num_cons ==> cong(
                    #[trigger] row_sum(s.mats[0], r, values(z)) * row_sum(s.mats[1], r, values(z)),
                    row_sum(s.mats[2], r, values(z)),
                    E::Scalar::modulus(),
                )
        }),
{
}

/// What a verifier that knows the witnesses accepts claims what the matrices and the vectors are at the points of the
/// proof: the running ones at the new point of the rows and the old one of the columns, the incoming ones there, and all
/// of them at the new points.
pub proof fn accepted_claims_are_evaluations<E: CurveEngine>(
    s: StructureView,
    start: Seq<int>,
    id: int,
    run: Running,
    z: Seq<int>,
    proof_: NIFSView,
)
    requires
        run.lambda.len() <= s.mats.len(),
        accepted_with_witness::<E>(s, start, id, run, z, proof_) is Some,
    ensures
        ({
            let p = E::Base::modulus();
            let a = accepted_with_witness::<E>(s, start, id, run, z, proof_)->0;
            let n = run.lambda.len() as int;
            &&& proof_.sigmas.len() == 3 && proof_.taus.len() == 3
            &&& proof_.epsilons.len() == 4 && proof_.thetas.len() == 4
            &&& forall|j: int|
                0 <= j < 3 ==> #[trigger] proof_.sigmas[j] == sum(
                    |i: int| run.lambda[i] * weighted(s.mats[i][j], weights(a.r_x), weights(run.r_y)),
                    n,
                ) % p
            &&& forall|j: int|
                0 <= j < 3 ==> #[trigger] proof_.taus[j] == weighted(s.mats[id][j], weights(a.r_x), values(z)) % p
            &&& forall|j: int|
                0 <= j < 3 ==> #[trigger] proof_.epsilons[j] == sum(
                    |i: int| run.lambda[i] * weighted(s.mats[i][j], weights(a.r_x), weights(a.r_y)),
                    n,
                ) % p
            &&& forall|j: int|
                0 <= j < 3 ==> #[trigger] proof_.thetas[j] == weighted(s.mats[id][j], weights(a.r_x), weights(a.r_y)) % p
            &&& proof_.epsilons[3] == sum(|i: int| run.z[i] * eq_weight(i, a.r_y), run.z.len() as int) % p
            &&& proof_.thetas[3] == sum(|i: int| z[i] * eq_weight(i, a.r_y), z.len() as int) % p
        }),
{
    let p = E::Base::modulus();
    let a = accepted_with_witness::<E>(s, start, id, run, z, proof_)->0;
    let n = run.lambda.len() as int;
    assert forall|j: int| 0 <= j < 3 implies #[trigger] proof_.sigmas[j] == sum(
        |i: int| run.lambda[i] * weighted(s.mats[i][j], weights(a.r_x), weights(run.r_y)),
        n,
    ) % p by {
        let (b, c) = (weights(a.r_x), weights(run.r_y));
        let f = |i: int| run.lambda[i] * weighted(s.mats[i][j], b, c);
        let g = |i: int| run.lambda[i] * weighted(s.mats_of(j)[i], b, c);
        assert(proof_.sigmas[j] == s.eval_folded(run.lambda, j, a.r_x, run.r_y) % p);
        assert(s.eval_folded(run.lambda, j, a.r_x, run.r_y) == sum(g, n));
        lemma_sum_ext(f, g, n);
    }
    assert forall|j: int| 0 <= j < 3 implies #[trigger] proof_.epsilons[j] == sum(
        |i: int| run.lambda[i] * weighted(s.mats[i][j], weights(a.r_x), weights(a.r_y)),
        n,
    ) % p by {
        let (b, c) = (weights(a.r_x), weights(a.r_y));
        let f = |i: int| run.lambda[i] * weighted(s.mats[i][j], b, c);
        let g = |i: int| run.lambda[i] * weighted(s.mats_of(j)[i], b, c);
        assert(proof_.epsilons[j] == s.eval_folded(run.lambda, j, a.r_x, a.r_y) % p);
        assert(s.eval_folded(run.lambda, j, a.r_x, a.r_y) == sum(g, n));
        lemma_sum_ext(f, g, n);
    }
}

/// A witness is that of one instance only, of those with the same public values.
pub proof fn witness_determines_commitment<E: CurveEngine>(
    s: ShapeView,
    ck: E::CommitmentKey,
    u: InstanceView,
    v: InstanceView,
    w: WitnessView,
)
    requires
        r1cs_sat::<E>(s, ck, u, w) is Ok,
        r1cs_sat::<E>(s, ck, v, w) is Ok,
        u.X == v.X,
    ensures
        u == v,
{
}

/// Checking an instance names the first thing that is wrong with it: the length of the witness, that of the public values,
/// the rows, or the commitment.
pub proof fn unsatisfied_shape_is_told_why<E: CurveEngine>(
    s: ShapeView,
    ck: E::CommitmentKey,
    u: InstanceView,
    w: WitnessView,
    r: int,
)
    ensures
        w.W.len() != s.num_vars ==> r1cs_sat::<E>(s, ck, u, w) == Err::<(), NovaError>(NovaError::InvalidWitnessLength),
        w.W.len() == s.num_vars && u.X.len() != s.num_io ==> r1cs_sat::<E>(s, ck, u, w) == Err::<(), NovaError>(
            NovaError::InvalidInputLength,
        ),
        ({
            let z = values(w.W + seq![1int] + u.X);
            w.W.len() == s.num_vars && u.X.len() == s.num_io && 0 <= r < s.num_cons && !cong(
                row_sum(s.mats[0], r, z) * row_sum(s.mats[1], r, z),
                row_sum(s.mats[2], r, z),
                E::Scalar::modulus(),
            ) ==> r1cs_sat::<E>(s, ck, u, w) == Err::<(), NovaError>(
                NovaError::UnSat { reason: UnSatReason::Constraints },
            )
        }),
        r1cs_sat::<E>(s, ck, u, w) is Ok ==> forall|c: int|
            c != u.comm_W ==> #[trigger] r1cs_sat::<E>(s, ck, InstanceView { comm_W: c, ..u }, w) == Err::<(), NovaError>(
                NovaError::UnSat { reason: UnSatReason::Commitment },
            ),
{
}

/// The folded instance that has folded nothing is satisfied by the witness of zeros.
pub proof fn empty_instance_is_satisfied<E: CurveEngine>(s: StructureView, ck: E::CommitmentKey)
    requires
        s.wf(),
        s.num_vars_max >= 0,
        s.num_io >= 0,
    ensures
        folded_sat::<E>(
            s,
            ck,
            empty_instance(s),
            FoldedWitnessView {
                W: Seq::new(s.num_vars_max as nat, |i: int| 0int),
                W_proj: Seq::new(s.num_vars_max as nat, |i: int| 0int),
                r_W: 0,
                lambda_scalar: Seq::new(s.mats.len(), |i: int| 0int),
                lambda_proj: Seq::new(s.mats.len(), |i: int| 0int),
            },
        ) is Ok,
{
    let u = empty_instance(s);
    let zeros = Seq::new(s.num_vars_max as nat, |i: int| 0int);
    let none = Seq::new(s.mats.len(), |i: int| 0int);
    let w = FoldedWitnessView { W: zeros, W_proj: zeros, r_W: 0, lambda_scalar: none, lambda_proj: none };
    let p = E::Base::modulus();
    E::Base::modulus_bounds();
    vstd::arithmetic::div_mod::lemma_small_mod(0, p as nat);
    lemma_zero_commitment::<E>(E::generators(&ck), E::blinding(&ck), zeros);
    assert forall|j: int| 0 <= j < 3 implies #[trigger] u.comm_M[j] == index_commitments::<E>(s, none)[j] by {
        lemma_zero_commitment::<E>(s.keys[j], s.blindings[j], none);
    }
    assert(u.comm_M =~= index_commitments::<E>(s, none));
    let z = folded_z(u, w);
    assert forall|i: int| 0 <= i < z.len() implies z[i] == 0 by {
        let n = s.num_vars_max;
        if i > n {
            assert(z[i] == u.X[i - n - 1]);
        }
    }
    let g = |i: int| z[i] * eq_weight(i, u.r_y);
    assert forall|i: int| 0 <= i < z.len() implies #[trigger] g(i) == 0 by {
        let e = eq_weight(i, u.r_y);
        assert(0 * e == 0);
    }
    lemma_sum_zero(g, z.len() as int);
    assert forall|j: int| 0 <= j < 3 implies #[trigger] s.eval_folded(none, j, u.r_x, u.r_y) == 0 by {
        let mats = s.mats_of(j);
        let (a, c) = (weights(u.r_x), weights(u.r_y));
        let h = |i: int| none[i] * weighted(mats[i], a, c);
        assert forall|i: int| 0 <= i < none.len() implies #[trigger] h(i) == 0 by {
            let e = weighted(mats[i], a, c);
            assert(0 * e == 0);
        }
        lemma_sum_zero(h, none.len() as int);
        assert(s.eval_folded(none, j, u.r_x, u.r_y) == sum(h, none.len() as int));
    }
    assert(u.v =~= claims(s, none, u.r_x, u.r_y, z, p));
}

/// The commitment to zeros is the identity.
proof fn lemma_zero_commitment<E: CurveEngine>(g: Seq<PointView>, b: PointView, zeros: Seq<int>)
    requires
        forall|i: int| 0 <= i < zeros.len() ==> zeros[i] == 0,
    ensures
        commitment_log::<E>(g, b, zeros, 0) == 0,
{
    E::Scalar::modulus_bounds();
    let l = logs::<E>(g);
    let f = |i: int| zeros[i] * l[i];
    assert forall|i: int| 0 <= i < zeros.len() implies #[trigger] f(i) == 0 by {
        assert(0 * l[i] == 0);
    }
    lemma_sum_zero(f, zeros.len() as int);
    assert(inner_product(zeros, l) == 0);
    let d = discrete_log::<E>(b);
    assert(0 * d == 0);
    vstd::arithmetic::div_mod::lemma_small_mod(0, E::Scalar::modulus() as nat);
}

/// The public values of an instance, and the first value of its vector, read in the base field make up the same folded
/// instance as the instance and its witness.
pub proof fn started_instance_is_first<E: CurveEngine>(s: StructureView, id: int, u: InstanceView, w: WitnessView)
    requires
        s.wf(),
        s.num_vars_max > 0,
        0 <= id < s.len(),
        u.X.len() == s.num_io,
    ensures
        ({
            let p = E::Base::modulus();
            started_instance(
                s,
                id,
                InstanceView { comm_W: u.comm_W, X: projected(u.X, s.num_io, p) },
                projected(w.W, s.num_vars_max, p)[0],
                p,
            ) == first_instance(s, id, u, w, p)
        }),
{
    let p = E::Base::modulus();
    E::Base::modulus_bounds();
    let z = incoming_z(s, u, w, p);
    assert(z.len() == s.num_vars_max + 1 + s.num_io);
    claims_at_zero(s, id, z, p);
    assert(z[0] == projected(w.W, s.num_vars_max, p)[0]);
}

/// A proof whose rounds reduce claim after claim is accepted, and leaves the last of these claims.
pub proof fn reducing_sumcheck_is_accepted(
    d: nat,
    hash: spec_fn(Seq<int>) -> int,
    p: int,
    proof_: SumcheckProofView,
    claims: Seq<int>,
    states: Seq<Seq<int>>,
    coeffs: Seq<(int, int, int, int)>,
)
    requires
        d == 3 || d == 4,
        good_modulus(p),
        0 <= claims[0] < p,
        reduces(d, hash, p, proof_, claims, states),
        coeffs.len() == proof_.polys.len(),
        forall|k: int| 0 <= k < coeffs.len() ==> through(#[trigger] coeffs[k], proof_.polys[k], d, p),
    ensures
        checked_proof(first_points(d), hash, p, states[0], claims[0], proof_) == Some(
            Check { state: states.last(), claim: claims.last(), point: proof_.point },
        ),
{
    let n = proof_.polys.len();
    lemma_reducing_rounds(d, hash, p, proof_, claims, states, coeffs, n);
    assert(proof_.point.take(n as int) =~= proof_.point);
}

proof fn lemma_reducing_rounds(
    d: nat,
    hash: spec_fn(Seq<int>) -> int,
    p: int,
    proof_: SumcheckProofView,
    claims: Seq<int>,
    states: Seq<Seq<int>>,
    coeffs: Seq<(int, int, int, int)>,
    k: nat,
)
    requires
        d == 3 || d == 4,
        good_modulus(p),
        0 <= claims[0] < p,
        reduces(d, hash, p, proof_, claims, states),
        coeffs.len() == proof_.polys.len(),
        forall|k: int| 0 <= k < coeffs.len() ==> through(#[trigger] coeffs[k], proof_.polys[k], d, p),
        k <= proof_.polys.len(),
    ensures
        0 <= claims[k as int] < p,
        check_rounds(
            first_points(d),
            hash,
            p,
            Check { state: states[0], claim: claims[0], point: Seq::empty() },
            proof_.polys,
            k,
        ) == Some(Check { state: states[k as int], claim: claims[k as int], point: proof_.point.take(k as int) }),
    decreases k,
{
    let pts = first_points(d);
    let start = Check { state: states[0], claim: claims[0], point: Seq::empty() };
    if k == 0 {
        assert(proof_.point.take(0) =~= Seq::<int>::empty());
    } else {
        let m = k - 1;
        lemma_reducing_rounds(d, hash, p, proof_, claims, states, coeffs, m as nat);
        let evals = proof_.polys[m];
        let r = proof_.point[m];
        let c = coeffs[m];
        assert(through(c, evals, d, p));
        let e = c.0 + c.1 * r + c.2 * (r * r) + c.3 * (r * r * r);
        assert(claims[m + 1] == e % p);
        vstd::arithmetic::div_mod::lemma_mod_bound(e, p);
        vstd::arithmetic::div_mod::lemma_small_mod(claims[m] as nat, p as nat);
        assert forall|t: int| 0 <= t < d implies cong(#[trigger] evals[t], cubic(c, t), p) by {}
        if d == 4 {
            lemma_interpolate_cubic(c, evals, r, p);
        } else {
            lemma_interpolate_quadratic(c, evals, r, p);
        }
        assert(proof_.point.take(k as int) =~= proof_.point.take(m).push(r));
    }
}

/// What a verifier of rounds leaves is a residue.
proof fn lemma_claim_reduced(d: nat, hash: spec_fn(Seq<int>) -> int, p: int, c: Check, polys: Seq<Seq<int>>, k: nat)
    requires
        p > 0,
        0 <= c.claim < p,
        check_rounds(first_points(d), hash, p, c, polys, k) is Some,
    ensures
        0 <= check_rounds(first_points(d), hash, p, c, polys, k)->0.claim < p,
{
    if k > 0 {
        let before = check_rounds(first_points(d), hash, p, c, polys, (k - 1) as nat)->0;
        let r = challenge(hash, before.state + polys[k - 1]);
        let t = sum(
            |i: int| crate::sumcheck::interpolation_term(first_points(d), polys[k - 1], r, p, i),
            first_points(d).len() as int,
        );
        vstd::arithmetic::div_mod::lemma_mod_bound(t, p);
    }
}

/// A proof of a fold that ties its claims together is accepted, at the points of its sum-checks.
pub proof fn tied_fold_is_accepted<E: CurveEngine>(
    s: StructureView,
    start: Seq<int>,
    r_x: Seq<int>,
    r_y: Seq<int>,
    v: Seq<int>,
    proof_: NIFSView,
    x: Check,
    y: Check,
)
    requires
        r_x.len() == s.s_max,
        r_y.len() == s.s_prime_max,
        proof_.sigmas.len() == 3 && proof_.taus.len() == 3,
        proof_.epsilons.len() == 4 && proof_.thetas.len() == 4,
        proof_.sc_proof_x.polys.len() == s.s_max,
        proof_.sc_proof_y.polys.len() == s.s_prime_max,
        ({
            let o = opening::<E>(s, start);
            ties_claims::<E>(s, o.gamma, o.alpha, o.state, r_x, r_y, v, proof_, x, y)
        }),
    ensures
        accepted::<E>(s, start, r_x, r_y, v, proof_) matches Some(a) && a.r_x == reversed(x.point) && a.r_y == reversed(
            y.point,
        ) && a.rho == hash_of::<E>()(y.state) % (pow2(128) as int),
{
    let hash = hash_of::<E>();
    let p = E::Base::modulus();
    E::Base::modulus_bounds();
    let o = opening::<E>(s, start);
    let g = o.gamma;
    lemma_first_powers(g);
    let d = challenge(hash, x.state);
    lemma_first_powers(d);
    let (sx, sy) = (sum_x(g, v), sum_y(d, v, proof_.sigmas, proof_.taus));
    vstd::arithmetic::div_mod::lemma_mod_bound(sx, p);
    vstd::arithmetic::div_mod::lemma_mod_bound(sy, p);
    lemma_claim_reduced(
        4,
        hash,
        p,
        Check { state: o.state, claim: sx % p, point: Seq::empty() },
        proof_.sc_proof_x.polys,
        proof_.sc_proof_x.polys.len(),
    );
    lemma_claim_reduced(
        3,
        hash,
        p,
        Check { state: seq![hash(x.state)], claim: sy % p, point: Seq::empty() },
        proof_.sc_proof_y.polys,
        proof_.sc_proof_y.polys.len(),
    );
    lemma_claim_x(g, r_x, o.alpha, reversed(x.point), proof_.sigmas, proof_.taus);
    lemma_claim_y(d, r_y, reversed(y.point), proof_.epsilons, proof_.thetas);
    vstd::arithmetic::div_mod::lemma_small_mod(x.claim as nat, p as nat);
    vstd::arithmetic::div_mod::lemma_small_mod(y.claim as nat, p as nat);
}

/// A folded instance that has its lengths, commits to a witness and to the coefficients of the index, and claims what the
/// matrices, each times its coefficient, and the vector are at its points, is satisfied by the witness.
pub proof fn opened_instance_is_satisfied<E: CurveEngine>(
    s: StructureView,
    ck: E::CommitmentKey,
    u: FoldedInstanceView,
    w: FoldedWitnessView,
)
    requires
        ({
            let p = E::Base::modulus();
            let z = w.W_proj + seq![u.u] + u.X;
            &&& w.W.len() == s.num_vars_max && w.W_proj.len() == s.num_vars_max
            &&& w.lambda_scalar.len() == s.mats.len() && w.lambda_proj.len() == s.mats.len()
            &&& u.X.len() == s.num_io && u.r_x.len() == s.s_max && u.r_y.len() == s.s_prime_max && u.v.len() == 4
            &&& u.comm_W == commitment_log::<E>(E::generators(&ck), E::blinding(&ck), w.W, w.r_W)
            &&& u.comm_M.len() == 3
            &&& forall|j: int|
                0 <= j < 3 ==> #[trigger] u.comm_M[j] == commitment_log::<E>(s.keys[j], s.blindings[j], w.lambda_scalar, 0)
            &&& forall|j: int|
                0 <= j < 3 ==> #[trigger] u.v[j] == sum(
                    |i: int| w.lambda_proj[i] * weighted(s.mats[i][j], weights(u.r_x), weights(u.r_y)),
                    s.mats.len() as int,
                ) % p
            &&& u.v[3] == sum(|i: int| z[i] * eq_weight(i, u.r_y), z.len() as int) % p
        }),
    ensures
        folded_sat::<E>(s, ck, u, w) is Ok,
{
    let p = E::Base::modulus();
    assert(u.comm_M =~= index_commitments::<E>(s, w.lambda_scalar));
    let c = claims(s, w.lambda_proj, u.r_x, u.r_y, folded_z(u, w), p);
    assert forall|j: int| 0 <= j < 3 implies #[trigger] u.v[j] == c[j] by {
        let (a, b) = (weights(u.r_x), weights(u.r_y));
        let f = |i: int| w.lambda_proj[i] * weighted(s.mats[i][j], a, b);
        let g = |i: int| w.lambda_proj[i] * weighted(s.mats_of(j)[i], a, b);
        assert(s.eval_folded(w.lambda_proj, j, u.r_x, u.r_y) == sum(g, w.lambda_proj.len() as int));
        lemma_sum_ext(f, g, s.mats.len() as int);
    }
    assert(u.v =~= c);
}

/// An instance that has the lengths of a shape, commits to a witness and satisfies every row with it is satisfied by it.
pub proof fn opened_shape_is_satisfied<E: CurveEngine>(s: ShapeView, ck: E::CommitmentKey, u: InstanceView, w: WitnessView)
    requires
        ({
            let z = w.W + seq![1int] + u.X;
            &&& w.W.len() == s.num_vars
            &&& u.X.len() == s.num_io
            &&& u.comm_W == commitment_log::<E>(E::generators(&ck), E::blinding(&ck), w.W, w.r_W)
            &&& forall|r: int|
                0 <= r < s.num_cons ==> cong(
                    #[trigger] row_sum(s.mats[0], r, values(z)) * row_sum(s.mats[1], r, values(z)),
                    row_sum(s.mats[2], r, values(z)),
                    E::Scalar::modulus(),
                )
        }),
    ensures
        r1cs_sat::<E>(s, ck, u, w) is Ok,
{
}

/// A relaxed instance that is satisfied by a witness has the lengths of the shape, commits to the witness and to the errors,
/// and in every row the product of the first two matrices with the vector is that of the third times the factor, plus the
/// error.
pub proof fn satisfied_relaxed_instance_opens<E: CurveEngine>(
    s: ShapeView,
    ck: E::CommitmentKey,
    u: RelaxedInstanceView,
    w: RelaxedWitnessView,
)
    requires
        relaxed_sat::<E>(s, ck, u, w),
    ensures
        ({
            let z = w.W + seq![u.u] + u.X;
            &&& w.W.len() == s.num_vars && w.E.len() == s.num_cons && u.X.len() == s.num_io
            &&& u.comm_W == commitment_log::<E>(E::generators(&ck), E::blinding(&ck), w.W, w.r_W)
            &&& u.comm_E == commitment_log::<E>(E::generators(&ck), E::blinding(&ck), w.E, w.r_E)
            &&& forall|r: int|
                0 <= r < s.num_cons ==> cong(
                    #[trigger] row_sum(s.mats[0], r, values(z)) * row_sum(s.mats[1], r, values(z)),
                    u.u * row_sum(s.mats[2], r, values(z)) + w.E[r],
                    E::Scalar::modulus(),
                )
        }),
{
    let z = full_vector(w.W, u.u, u.X);
    assert(z == w.W + seq![u.u] + u.X);
    assert forall|r: int| 0 <= r < s.num_cons implies cong(
        #[trigger] row_sum(s.mats[0], r, values(z)) * row_sum(s.mats[1], r, values(z)),
        u.u * row_sum(s.mats[2], r, values(z)) + w.E[r],
        E::Scalar::modulus(),
    ) by {}
}

/// A relaxed instance that has the lengths of a shape, commits to a witness and to its errors, and satisfies every row up to
/// its error is satisfied by the witness.
pub proof fn opened_relaxed_instance_is_satisfied<E: CurveEngine>(
    s: ShapeView,
    ck: E::CommitmentKey,
    u: RelaxedInstanceView,
    w: RelaxedWitnessView,
)
    requires
        ({
            let z = w.W + seq![u.u] + u.X;
            &&& w.W.len() == s.num_vars && w.E.len() == s.num_cons && u.X.len() == s.num_io
            &&& u.comm_W == commitment_log::<E>(E::generators(&ck), E::blinding(&ck), w.W, w.r_W)
            &&& u.comm_E == commitment_log::<E>(E::generators(&ck), E::blinding(&ck), w.E, w.r_E)
            &&& forall|r: int|
                0 <= r < s.num_cons ==> cong(
                    #[trigger] row_sum(s.mats[0], r, values(z)) * row_sum(s.mats[1], r, values(z)),
                    u.u * row_sum(s.mats[2], r, values(z)) + w.E[r],
                    E::Scalar::modulus(),
                )
        }),
    ensures
        relaxed_sat::<E>(s, ck, u, w),
{
}

/// Where the parts of an instance stand in what is absorbed of it: the coordinates of the commitment, whether it is the
/// point at infinity, and the public values in the base field.
pub proof fn instance_is_absorbed_in_order<E: CurveGroup>(u: InstanceView)
    ensures
        ({
            let (e, c) = (instance_elements::<E>(u), E::multiple(u.comm_W));
            &&& e.len() == 3 + u.X.len()
            &&& e[0] == c.0 && e[1] == c.1 && (e[2] == 1 <==> c.2) && (e[2] == 0 <==> !c.2)
            &&& forall|i: int| 0 <= i < u.X.len() ==> #[trigger] e[3 + i] == u.X[i] % E::Base::modulus()
        }),
{
}

/// Where the parts of the inputs of a fold stand in what is absorbed of them: the digest of the parameters, the predicate,
/// the incoming instance, and the commitments to the predicate.
pub proof fn inputs_are_absorbed_in_order<E: CurveEngine>(s: StructureView, pp_digest: int, id: int, u: InstanceView)
    ensures
        ({
            let e = absorbed_inputs::<E>(s, pp_digest, id, u);
            let n = 2 + instance_elements::<E>(u).len();
            &&& e.len() == n + 9
            &&& e[0] == pp_digest % E::Base::modulus()
            &&& e[1] == id
            &&& e.subrange(2, n as int) == instance_elements::<E>(u)
            &&& forall|j: int|
                0 <= j < 3 ==> {
                    let c = E::multiple(#[trigger] s.comm_M[id][j]);
                    &&& e[n + 3 * j] == c.0 && e[n + 3 * j + 1] == c.1
                    &&& (e[n + 3 * j + 2] == 1 <==> c.2) && (e[n + 3 * j + 2] == 0 <==> !c.2)
                }
        }),
{
    let e = absorbed_inputs::<E>(s, pp_digest, id, u);
    let n = 2 + instance_elements::<E>(u).len();
    assert(e.subrange(2, n as int) =~= instance_elements::<E>(u));
}

/// Where the parts of a folded instance stand in what is absorbed of it: the commitment to the witness, those to the index,
/// the factor, the public values, the two points and the claims.
pub proof fn folded_instance_is_absorbed_in_order<E: CurveGroup>(u: FoldedInstanceView)
    ensures
        ({
            let (e, c) = (folded_instance_elements::<E>(u), E::multiple(u.comm_W));
            let (a, b) = (13 + u.X.len(), 13 + u.X.len() + u.r_x.len());
            &&& e.len() == b + u.r_y.len() + u.v.len()
            &&& e[0] == c.0 && e[1] == c.1 && (e[2] == 1 <==> c.2) && (e[2] == 0 <==> !c.2)
            &&& forall|j: int|
                0 <= j < 3 ==> {
                    let d = E::multiple(#[trigger] u.comm_M[j]);
                    &&& e[3 + 3 * j] == d.0 && e[4 + 3 * j] == d.1
                    &&& (e[5 + 3 * j] == 1 <==> d.2) && (e[5 + 3 * j] == 0 <==> !d.2)
                }
            &&& e[12] == u.u
            &&& forall|i: int| 0 <= i < u.X.len() ==> #[trigger] e[13 + i] == u.X[i]
            &&& forall|i: int| 0 <= i < u.r_x.len() ==> #[trigger] e[a + i] == u.r_x[i]
            &&& forall|i: int| 0 <= i < u.r_y.len() ==> #[trigger] e[b + i] == u.r_y[i]
            &&& forall|i: int| 0 <= i < u.v.len() ==> #[trigger] e[b + u.r_y.len() + i] == u.v[i]
        }),
{
}

/// The folded instance that one instance and its witness make up carries its commitment and its public values, the factor
/// one, the commitments to its predicate and the points of zeros, where it claims the first entries of the matrices and of
/// the vector; its witness carries the same values in both fields, and the coefficient one of its predicate alone.
pub proof fn first_instance_carries_instance<E: CurveEngine>(s: StructureView, id: int, u: InstanceView, w: WitnessView)
    requires
        s.wf(),
        s.num_vars_max > 0,
        0 <= id < s.len(),
        u.X.len() == s.num_io,
        w.W.len() <= s.num_vars_max,
    ensures
        ({
            let p = E::Base::modulus();
            let (f, g) = (first_instance(s, id, u, w, p), first_witness(s, id, w, p));
            &&& f.comm_W == u.comm_W
            &&& f.comm_M == s.comm_M[id]
            &&& f.u == 1
            &&& f.X.len() == s.num_io
            &&& forall|i: int| 0 <= i < s.num_io ==> #[trigger] f.X[i] == u.X[i] % p
            &&& f.r_x.len() == s.s_max && f.r_y.len() == s.s_prime_max && f.v.len() == 4
            &&& forall|i: int| 0 <= i < s.s_max ==> #[trigger] f.r_x[i] == 0
            &&& forall|i: int| 0 <= i < s.s_prime_max ==> #[trigger] f.r_y[i] == 0
            &&& forall|j: int|
                0 <= j < 3 ==> #[trigger] f.v[j] == sum(
                    |k: int|
                        if s.mats[id][j][k].0 == 0 && s.mats[id][j][k].1 == 0 {
                            s.mats[id][j][k].2
                        } else {
                            0
                        },
                    s.mats[id][j].len() as int,
                ) % p
            &&& w.W.len() > 0 ==> f.v[3] == w.W[0] % p
            &&& g.W.len() == s.num_vars_max && g.W_proj.len() == s.num_vars_max && g.r_W == w.r_W
            &&& forall|i: int| 0 <= i < w.W.len() ==> #[trigger] g.W[i] == w.W[i] && g.W_proj[i] == w.W[i] % p
            &&& forall|i: int| w.W.len() <= i < s.num_vars_max ==> #[trigger] g.W[i] == 0 && g.W_proj[i] == 0
            &&& g.lambda_scalar.len() == s.len() && g.lambda_proj.len() == s.len()
            &&& g.lambda_scalar[id] == 1 && g.lambda_proj[id] == 1
            &&& forall|i: int|
                0 <= i < s.len() && i != id ==> #[trigger] g.lambda_scalar[i] == 0 && #[trigger] g.lambda_proj[i] == 0
        }),
{
    let p = E::Base::modulus();
    E::Base::modulus_bounds();
    vstd::arithmetic::div_mod::lemma_small_mod(0, p as nat);
    let z = incoming_z(s, u, w, p);
    assert(z.len() == s.num_vars_max + 1 + s.num_io);
    claims_at_zero(s, id, z, p);
    let f = first_instance(s, id, u, w, p);
    assert forall|j: int| 0 <= j < 3 implies #[trigger] f.v[j] == sum(
        |k: int|
            if s.mats[id][j][k].0 == 0 && s.mats[id][j][k].1 == 0 {
                s.mats[id][j][k].2
            } else {
                0
            },
        s.mats[id][j].len() as int,
    ) % p by {
        let m = s.mats[id][j];
        let a = |k: int|
            if s.mats[id][j][k].0 == 0 && s.mats[id][j][k].1 == 0 {
                s.mats[id][j][k].2
            } else {
                0
            };
        let b = |k: int| corner(m[k]);
        lemma_sum_ext(a, b, m.len() as int);
        assert(matrix_corner(m) == sum(b, m.len() as int));
    }
    assert(z[0] == projected(w.W, s.num_vars_max, p)[0]);
    if w.W.len() > 0 {
        lemma_mod_twice(w.W[0], p);
    }
}

/// The folded instance that has folded nothing is zero throughout.
pub proof fn empty_instance_is_zero(s: StructureView)
    requires
        s.num_io >= 0,
    ensures
        ({
            let e = empty_instance(s);
            &&& e.comm_W == 0 && e.comm_M == seq![0int, 0int, 0int] && e.u == 0
            &&& e.X == Seq::new(s.num_io as nat, |i: int| 0int)
            &&& e.r_x == Seq::new(s.s_max, |i: int| 0int)
            &&& e.r_y == Seq::new(s.s_prime_max, |i: int| 0int)
            &&& e.v == seq![0int, 0int, 0int, 0int]
        }),
{
    let e = empty_instance(s);
    assert(e.X =~= Seq::new(s.num_io as nat, |i: int| 0int));
    assert(e.r_x =~= Seq::new(s.s_max, |i: int| 0int));
    assert(e.r_y =~= Seq::new(s.s_prime_max, |i: int| 0int));
    assert(e.v =~= seq![0int, 0int, 0int, 0int]);
}

/// A structure that shapes make up commits to the coefficients of the index by the points of three labels, one for each
/// matrix, and has the entries of the padded shapes, in the base field.
pub proof fn described_structure_is_labelled<E: CurveEngine>(t: Shapes, s: StructureView)
    requires
        t.describes::<E>(s),
    ensures
        s.blindings[0] == E::labelled_point("kilonova_idx_a"@, 0),
        s.blindings[1] == E::labelled_point("kilonova_idx_b"@, 0),
        s.blindings[2] == E::labelled_point("kilonova_idx_c"@, 0),
        forall|i: int| 0 <= i < s.keys[0].len() ==> #[trigger] s.keys[0][i] == E::labelled_point("kilonova_idx_a"@, i + 1),
        forall|i: int| 0 <= i < s.keys[1].len() ==> #[trigger] s.keys[1][i] == E::labelled_point("kilonova_idx_b"@, i + 1),
        forall|i: int| 0 <= i < s.keys[2].len() ==> #[trigger] s.keys[2][i] == E::labelled_point("kilonova_idx_c"@, i + 1),
        s.mats.len() == t.shapes.len(),
        forall|i: int, j: int, k: int|
            0 <= i < s.mats.len() && 0 <= j < 3 && 0 <= k < s.mats[i][j].len() ==> {
                let (a, b) = (#[trigger] s.mats[i][j][k], t.shapes[i].pad().mats[j][k]);
                a.0 == b.0 && a.1 == b.1 && a.2 == b.2 % E::Base::modulus()
            },
        forall|i: int, j: int|
            0 <= i < s.mats.len() && 0 <= j < 3 ==> #[trigger] s.mats[i][j].len() == t.shapes[i].pad().mats[j].len(),
{
    let n = next_pow2(t.shapes.len() as int);
    assert(s.keys[0].len() == n && s.keys[1].len() == n && s.keys[2].len() == n);
}

/// Folding an instance in adds its multiples: in the scalar field the commitments by the one factor, in the base field the
/// factor and the public values by the other; the points and the claims are the given ones.
pub proof fn folded_instance_adds_multiples(
    s: StructureView,
    id: int,
    u: FoldedInstanceView,
    u2: InstanceView,
    rho: int,
    rho_scalar: int,
    r_x: Seq<int>,
    r_y: Seq<int>,
    v: Seq<int>,
    p: int,
    q: int,
)
    requires
        p > 0,
        q > 0,
        u.X.len() == s.num_io,
        u2.X.len() == s.num_io,
    ensures
        ({
            let f = fold_instance(s, id, u, u2, rho, rho_scalar, r_x, r_y, v, p, q);
            &&& cong(f.comm_W, u.comm_W + rho_scalar * u2.comm_W, q)
            &&& f.comm_M.len() == 3
            &&& forall|j: int|
                0 <= j < 3 ==> cong(#[trigger] f.comm_M[j], u.comm_M[j] + rho_scalar * s.comm_M[id][j], q)
            &&& cong(f.u, u.u + rho, p)
            &&& f.X.len() == s.num_io
            &&& forall|i: int| 0 <= i < s.num_io ==> cong(#[trigger] f.X[i], u.X[i] + rho * u2.X[i], p)
            &&& f.r_x == r_x && f.r_y == r_y && f.v == v
        }),
{
    let f = fold_instance(s, id, u, u2, rho, rho_scalar, r_x, r_y, v, p, q);
    let c = u2.comm_W;
    assert(c * rho_scalar == rho_scalar * c) by (nonlinear_arith);
    lemma_cong_mod(u.comm_W + c * rho_scalar, q);
    lemma_cong_mod(u.u + rho, p);
    assert forall|j: int| 0 <= j < 3 implies cong(
        #[trigger] f.comm_M[j],
        u.comm_M[j] + rho_scalar * s.comm_M[id][j],
        q,
    ) by {
        let m = s.comm_M[id][j];
        assert(m * rho_scalar == rho_scalar * m) by (nonlinear_arith);
        lemma_cong_mod(u.comm_M[j] + m * rho_scalar, q);
    }
    assert forall|i: int| 0 <= i < s.num_io implies cong(#[trigger] f.X[i], u.X[i] + rho * u2.X[i], p) by {
        lemma_folds_projected(u.X[i], u2.X[i], rho, p);
    }
}

/// Folding a witness in adds its multiples: in the scalar field its values and its blinding by the one factor, in the base
/// field its values by the other, and each factor to the coefficient of its predicate alone.
pub proof fn folded_witness_adds_multiples(
    s: StructureView,
    id: int,
    w: FoldedWitnessView,
    w2: WitnessView,
    rho: int,
    rho_scalar: int,
    p: int,
    q: int,
)
    requires
        p > 0,
        q > 0,
        w.W.len() == s.num_vars_max,
        w.W_proj.len() == s.num_vars_max,
        w2.W.len() <= s.num_vars_max,
        0 <= id < w.lambda_scalar.len(),
        w.lambda_proj.len() == w.lambda_scalar.len(),
    ensures
        ({
            let f = fold_witness(s, id, w, w2, rho, rho_scalar, p, q);
            &&& f.W.len() == s.num_vars_max && f.W_proj.len() == s.num_vars_max
            &&& forall|i: int| 0 <= i < w2.W.len() ==> cong(#[trigger] f.W[i], w.W[i] + rho_scalar * w2.W[i], q)
            &&& forall|i: int| 0 <= i < w2.W.len() ==> cong(#[trigger] f.W_proj[i], w.W_proj[i] + rho * w2.W[i], p)
            &&& forall|i: int| w2.W.len() <= i < s.num_vars_max ==> cong(#[trigger] f.W[i], w.W[i], q)
            &&& forall|i: int| w2.W.len() <= i < s.num_vars_max ==> cong(#[trigger] f.W_proj[i], w.W_proj[i], p)
            &&& cong(f.r_W, w.r_W + rho_scalar * w2.r_W, q)
            &&& f.lambda_scalar.len() == w.lambda_scalar.len() && f.lambda_proj.len() == w.lambda_proj.len()
            &&& cong(f.lambda_scalar[id], w.lambda_scalar[id] + rho_scalar, q)
            &&& cong(f.lambda_proj[id], w.lambda_proj[id] + rho, p)
            &&& forall|i: int| 0 <= i < f.lambda_scalar.len() && i != id ==> #[trigger] f.lambda_scalar[i] == w.lambda_scalar[i]
            &&& forall|i: int| 0 <= i < f.lambda_proj.len() && i != id ==> #[trigger] f.lambda_proj[i] == w.lambda_proj[i]
        }),
{
    let f = fold_witness(s, id, w, w2, rho, rho_scalar, p, q);
    assert forall|i: int| 0 <= i < w2.W.len() implies cong(#[trigger] f.W[i], w.W[i] + rho_scalar * w2.W[i], q) by {
        lemma_cong_mod(w.W[i] + rho_scalar * w2.W[i], q);
    }
    assert forall|i: int| 0 <= i < w2.W.len() implies cong(#[trigger] f.W_proj[i], w.W_proj[i] + rho * w2.W[i], p) by {
        lemma_folds_projected(w.W_proj[i], w2.W[i], rho, p);
    }
    assert forall|i: int| w2.W.len() <= i < s.num_vars_max implies cong(#[trigger] f.W[i], w.W[i], q) by {
        assert(rho_scalar * 0 == 0);
        lemma_cong_mod(w.W[i], q);
    }
    assert forall|i: int| w2.W.len() <= i < s.num_vars_max implies cong(#[trigger] f.W_proj[i], w.W_proj[i], p) by {
        vstd::arithmetic::div_mod::lemma_small_mod(0, p as nat);
        assert(rho * 0 == 0);
        lemma_cong_mod(w.W_proj[i], p);
    }
    lemma_cong_mod(w.r_W + rho_scalar * w2.r_W, q);
    lemma_cong_mod(w.lambda_scalar[id] + rho_scalar, q);
    lemma_cong_mod(w.lambda_proj[id] + rho, p);
}

/// A value plus a multiple of the residue of another is the first plus a multiple of the other.
pub(crate) proof fn lemma_folds_projected(a: int, b: int, rho: int, p: int)
    requires
        p > 0,
    ensures
        cong((a + rho * (b % p)) % p, a + rho * b, p),
{
    lemma_cong_mod(a + rho * (b % p), p);
    lemma_cong_mod(b, p);
    lemma_cong_mul(rho, rho, b % p, b, p);
    lemma_cong_add(a, a, rho * (b % p), rho * b, p);
}

} // verus!
