//! What the first steps of an honest prover come to.
use super::circuit::{empty_instance, given_instance, lemma_read_in_base, started_instance};
use super::nifs::{absorbed_inputs, verified};
use super::relation::{first_instance, folded_sat, folded_z, FoldedWitnessView};
use crate::engine::{commitment_log, discrete_log, logs, CurveEngine};
use crate::field::FieldElement;
use crate::instance_circuit::{given_nifs, lemma_given_nifs};
use crate::math::{inner_product, lemma_sum_zero};
use crate::matrix::{folded, weighted, weights};
use crate::mle::eq_weight;
use crate::nifs::{dummy_is_accepted, dummy_nifs};
use crate::r1cs::{InstanceView, WitnessView};
use crate::relation::{claims, claims_at_zero, incoming_z, projected, vector_eval, StructureView};
use vstd::prelude::*;

verus! {

/// The folded witness that has folded nothing.
pub open spec fn empty_witness(s: StructureView) -> FoldedWitnessView {
    FoldedWitnessView {
        W: Seq::new(s.num_vars_max as nat, |i: int| 0int),
        W_proj: Seq::new(s.num_vars_max as nat, |i: int| 0int),
        r_W: 0,
    }
}

/// The folded instance that has folded nothing is satisfied by the witness of zeros.
pub proof fn empty_instance_is_satisfied<E: CurveEngine>(s: StructureView, ck: E::CommitmentKey)
    requires
        s.wf(),
    ensures
        folded_sat::<E>(s, ck, empty_instance(s), empty_witness(s)) is Ok,
{
    let u = empty_instance(s);
    let w = empty_witness(s);
    let p = E::Base::modulus();
    let q = E::Scalar::modulus();
    E::Base::modulus_bounds();
    E::Scalar::modulus_bounds();
    let l = logs::<E>(E::generators(&ck));
    let f = |i: int| w.W[i] * l[i];
    assert forall|i: int| 0 <= i < w.W.len() implies #[trigger] f(i) == 0 by {
        assert(0 * l[i] == 0);
    }
    lemma_sum_zero(f, w.W.len() as int);
    assert(inner_product(w.W, l) == 0);
    let b = discrete_log::<E>(E::blinding(&ck));
    assert(0 * b == 0);
    vstd::arithmetic::div_mod::lemma_small_mod(0, q as nat);
    vstd::arithmetic::div_mod::lemma_small_mod(0, p as nat);
    assert(commitment_log::<E>(E::generators(&ck), E::blinding(&ck), w.W, 0) == 0);
    let z = folded_z(u, w);
    assert forall|i: int| 0 <= i < z.len() implies z[i] == 0 by {
        let n = s.num_vars_max;
        if i > n {
            assert(z[i] == u.X[i - n - 1]);
        }
    }
    let g = |i: int| z[i] * eq_weight(i, u.r_y);
    assert forall|i: int| 0 <= i < z.len() implies #[trigger] g(i) == 0 by {
        let e = eq_weight(i, u.r_y);
        assert(0 * e == 0);
    }
    lemma_sum_zero(g, z.len() as int);
    assert(vector_eval(z, u.r_y) == 0);
    assert forall|j: int| 0 <= j < 3 implies #[trigger] s.eval_folded(u.lambda, j, u.r_x, u.r_y) == 0 by {
        let mats = s.mats_of(j);
        let (a, c) = (weights(u.r_x), weights(u.r_y));
        let h = |i: int| u.lambda[i] * weighted(mats[i], a, c);
        assert forall|i: int| 0 <= i < u.lambda.len() implies #[trigger] h(i) == 0 by {
            let e = weighted(mats[i], a, c);
            assert(0 * e == 0);
        }
        lemma_sum_zero(h, u.lambda.len() as int);
        assert(folded(mats, u.lambda, a, c) == 0);
    }
    assert(u.v =~= claims(s, u.lambda, u.r_x, u.r_y, z, p));
}

/// The public values of an instance, and the first value of its vector, read in the base field make up the same folded
/// instance as the instance and its witness.
pub proof fn started_instance_is_first<E: CurveEngine>(s: StructureView, id: int, u: InstanceView, w: WitnessView)
    requires
        s.wf(),
        s.num_vars_max > 0,
        0 <= id < s.len(),
        u.X.len() == s.num_io,
    ensures
        ({
            let p = E::Base::modulus();
            started_instance(
                s,
                id,
                InstanceView { comm_W: u.comm_W, X: projected(u.X, s.num_io, p) },
                projected(w.W, s.num_vars_max, p)[0],
                p,
            ) == first_instance(s, id, u, w, p)
        }),
{
    let p = E::Base::modulus();
    E::Base::modulus_bounds();
    let z = incoming_z(s, u, w, p);
    assert(z.len() == s.num_vars_max + 1 + s.num_io);
    claims_at_zero(s, id, z, p);
    assert(z[0] == projected(w.W, s.num_vars_max, p)[0]);
}

/// A circuit accepts the proof in which everything is zero for any instance, where nothing has been folded before.
pub proof fn first_fold_is_accepted<E: CurveEngine>(s: StructureView, pp_digest: int, id: int, u: InstanceView)
    requires
        s.wf(),
        0 <= id < s.len(),
        u.X.len() == s.num_io,
    ensures
        ({
            let p = E::Base::modulus();
            verified::<E>(
                s,
                pp_digest % p,
                id,
                empty_instance(s),
                InstanceView { comm_W: u.comm_W, X: projected(u.X, s.num_io, p) },
                given_nifs(s, Some(dummy_nifs::<E>(s, absorbed_inputs::<E>(pp_digest, id, u)))),
            ) is Some
        }),
{
    let start = absorbed_inputs::<E>(pp_digest, id, u);
    lemma_read_in_base::<E>(s, pp_digest, id, u);
    let n = dummy_nifs::<E>(s, start);
    lemma_given_nifs(s, n);
    let e = empty_instance(s);
    dummy_is_accepted::<E>(s, start, e.r_x, e.r_y, e.v);
}

/// The folded instance that has folded nothing is what is allocated for it.
pub(crate) proof fn lemma_given_empty(s: StructureView)
    ensures
        given_instance(s, Some(empty_instance(s))) == empty_instance(s),
{
    let e = empty_instance(s);
    let g = given_instance(s, Some(e));
    assert(g.lambda =~= e.lambda);
    assert(g.X =~= e.X);
    assert(g.r_x =~= e.r_x);
    assert(g.r_y =~= e.r_y);
    assert(g.v =~= e.v);
}

} // verus!
