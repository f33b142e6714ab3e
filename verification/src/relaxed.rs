//! Relaxed instances and witnesses, and taking the blinding off their commitments.
use crate::engine::{commitment_log, vals, Commitment, CurveEngine, CurveGroup};
use crate::field::FieldElement;
use crate::math::{cong, inner_product, lemma_cong_add, lemma_cong_mod, lemma_cong_mul};
use crate::matrix::{row_sum, values};
use crate::r1cs::{InstanceView, R1CSInstance, R1CSShape, R1CSWitness, ShapeView, WitnessView};
use crate::relation::{copy_vec, zeros};
use crate::shape::full_vector;
use vstd::prelude::*;

verus! {

/// A relaxed witness: the values of the variables and the errors of the constraints, with their blindings.
pub struct RelaxedR1CSWitness<E: CurveGroup> {
    pub W: Vec<E::Scalar>,
    pub r_W: E::Scalar,
    pub E: Vec<E::Scalar>,
    pub r_E: E::Scalar,
}

/// A relaxed instance: the commitments to the variables and to the errors, the public values and the factor.
pub struct RelaxedR1CSInstance<E: CurveGroup> {
    pub comm_W: Commitment<E>,
    pub comm_E: Commitment<E>,
    pub X: Vec<E::Scalar>,
    pub u: E::Scalar,
}

/// A relaxed witness over the integers.
pub struct RelaxedWitnessView {
    pub W: Seq<int>,
    pub r_W: int,
    pub E: Seq<int>,
    pub r_E: int,
}

/// A relaxed instance over the integers.
pub struct RelaxedInstanceView {
    pub comm_W: int,
    pub comm_E: int,
    pub X: Seq<int>,
    pub u: int,
}

impl<E: CurveGroup> View for RelaxedR1CSWitness<E> {
    type V = RelaxedWitnessView;

    open spec fn view(&self) -> RelaxedWitnessView {
        RelaxedWitnessView { W: vals(self.W@), r_W: self.r_W.val(), E: vals(self.E@), r_E: self.r_E.val() }
    }
}

impl<E: CurveGroup> View for RelaxedR1CSInstance<E> {
    type V = RelaxedInstanceView;

    open spec fn view(&self) -> RelaxedInstanceView {
        RelaxedInstanceView { comm_W: self.comm_W@, comm_E: self.comm_E@, X: vals(self.X@), u: self.u.val() }
    }
}

/// Whether a relaxed instance is satisfied by its witness: the lengths are those of the shape, every row holds up to
/// its error, and the commitments open to the vectors.
pub open spec fn relaxed_sat<E: CurveEngine>(
    s: ShapeView,
    ck: E::CommitmentKey,
    u: RelaxedInstanceView,
    w: RelaxedWitnessView,
) -> bool {
    let q = E::Scalar::modulus();
    let z = full_vector(w.W, u.u, u.X);
    &&& w.W.len() == s.num_vars
    &&& w.E.len() == s.num_cons
    &&& u.X.len() == s.num_io
    &&& forall|r: int|
        0 <= r < s.num_cons ==> cong(
            #[trigger] row_sum(s.mats[0], r, values(z)) * row_sum(s.mats[1], r, values(z)),
            u.u * row_sum(s.mats[2], r, values(z)) + w.E[r],
            q,
        )
    &&& u.comm_W == commitment_log::<E>(E::generators(&ck), E::blinding(&ck), w.W, w.r_W)
    &&& u.comm_E == commitment_log::<E>(E::generators(&ck), E::blinding(&ck), w.E, w.r_E)
}

/// A commitment without its blinding.
pub open spec fn derandomized<E: CurveEngine>(ck: E::CommitmentKey, c: int, r: int) -> int {
    (c - r * crate::engine::discrete_log::<E>(E::blinding(&ck))) % E::Scalar::modulus()
}

impl<E: CurveEngine> RelaxedR1CSWitness<E> {
    /// The relaxed witness of a witness, without errors.
    pub fn from_r1cs_witness(S: &R1CSShape<E>, witness: &R1CSWitness<E>) -> (r: Self)
        ensures
            r@ == (RelaxedWitnessView {
                W: witness@.W,
                r_W: witness@.r_W,
                E: Seq::new(S@.num_cons as nat, |i: int| 0int),
                r_E: 0,
            }),
    {
        RelaxedR1CSWitness {
            W: copy_vec(&witness.W),
            r_W: witness.r_W,
            E: zeros(S.num_cons),
            r_E: E::Scalar::from_u64(0),
        }
    }

    /// The relaxed witness without blindings, and the blindings.
    pub fn derandomize(&self) -> (r: (Self, E::Scalar, E::Scalar))
        ensures
            r.0@ == (RelaxedWitnessView { W: self@.W, r_W: 0, E: self@.E, r_E: 0 }),
            r.1.val() == self@.r_W,
            r.2.val() == self@.r_E,
    {
        (
            RelaxedR1CSWitness {
                W: copy_vec(&self.W),
                r_W: E::Scalar::from_u64(0),
                E: copy_vec(&self.E),
                r_E: E::Scalar::from_u64(0),
            },
            self.r_W,
            self.r_E,
        )
    }
}

/// A commitment without its blinding.
pub fn derandomize_commitment<E: CurveEngine>(ck: &E::CommitmentKey, c: &Commitment<E>, r: &E::Scalar) -> (d: Commitment<E>)
    ensures
        d@ == derandomized::<E>(*ck, c@, r.val()),
{
    let zero = E::Scalar::from_u64(0);
    let minus = zero.sub(r);
    let none: Vec<E::Scalar> = Vec::new();
    let blinding = E::commit(ck, &none, &minus);
    let d = E::add_commitments(c, &blinding);
    proof {
        let q = E::Scalar::modulus();
        E::Scalar::modulus_bounds();
        let h = crate::engine::discrete_log::<E>(E::blinding(ck));
        let (k, m) = (r.val(), minus.val());
        assert(vals(none@) =~= Seq::<int>::empty());
        assert(inner_product(vals(none@), crate::engine::logs::<E>(E::generators(ck))) == 0);
        lemma_cong_mod(0 - k, q);
        lemma_cong_mul(m, 0 - k, h, h, q);
        assert((0 - k) * h == 0 - k * h) by (nonlinear_arith);
        lemma_cong_mod(m * h, q);
        lemma_cong_add(c@, c@, blinding@, 0 - k * h, q);
    }
    d
}

impl<E: CurveEngine> RelaxedR1CSInstance<E> {
    /// The relaxed instance of an instance, without errors.
    pub fn from_r1cs_instance(instance: &R1CSInstance<E>) -> (r: Self)
        ensures
            r@ == (RelaxedInstanceView { comm_W: instance@.comm_W, comm_E: 0, X: instance@.X, u: 1 }),
    {
        RelaxedR1CSInstance {
            comm_W: instance.comm_W.copied(),
            comm_E: E::identity_commitment(),
            X: copy_vec(&instance.X),
            u: E::Scalar::from_u64(1),
        }
    }

    /// The relaxed instance without the blindings of its commitments.
    pub fn derandomize(&self, ck: &E::CommitmentKey, r_W: &E::Scalar, r_E: &E::Scalar) -> (r: Self)
        ensures
            r@ == (RelaxedInstanceView {
                comm_W: derandomized::<E>(*ck, self@.comm_W, r_W.val()),
                comm_E: derandomized::<E>(*ck, self@.comm_E, r_E.val()),
                X: self@.X,
                u: self@.u,
            }),
    {
        RelaxedR1CSInstance {
            comm_W: derandomize_commitment(ck, &self.comm_W, r_W),
            comm_E: derandomize_commitment(ck, &self.comm_E, r_E),
            X: copy_vec(&self.X),
            u: self.u,
        }
    }
}

/// Taking off the blinding of a commitment gives the commitment to the same vector without blinding.
pub proof fn derandomized_opens<E: CurveEngine>(ck: E::CommitmentKey, v: Seq<int>, r: int)
    ensures
        derandomized::<E>(ck, commitment_log::<E>(E::generators(&ck), E::blinding(&ck), v, r), r) == commitment_log::<E>(
            E::generators(&ck),
            E::blinding(&ck),
            v,
            0,
        ),
{
    let q = E::Scalar::modulus();
    E::Scalar::modulus_bounds();
    let h = crate::engine::discrete_log::<E>(E::blinding(&ck));
    let a = inner_product(v, crate::engine::logs::<E>(E::generators(&ck)));
    lemma_cong_mod(a + r * h, q);
    lemma_cong_add((a + r * h) % q, a + r * h, 0 - r * h, 0 - r * h, q);
    assert(0 * h == 0);
}

/// What satisfies a shape satisfies it in relaxed form, also without blindings.
pub proof fn relaxed_form_is_satisfied<E: CurveEngine>(s: ShapeView, ck: E::CommitmentKey, u: InstanceView, w: WitnessView)
    requires
        s.num_cons >= 0,
        crate::shape::r1cs_sat::<E>(s, ck, u, w) is Ok,
    ensures
        ({
            let errors = Seq::new(s.num_cons as nat, |i: int| 0int);
            relaxed_sat::<E>(
                s,
                ck,
                RelaxedInstanceView {
                    comm_W: derandomized::<E>(ck, u.comm_W, w.r_W),
                    comm_E: derandomized::<E>(ck, 0, 0),
                    X: u.X,
                    u: 1,
                },
                RelaxedWitnessView { W: w.W, r_W: 0, E: errors, r_E: 0 },
            )
        }),
{
    let q = E::Scalar::modulus();
    E::Scalar::modulus_bounds();
    let errors = Seq::new(s.num_cons as nat, |i: int| 0int);
    derandomized_opens::<E>(ck, w.W, w.r_W);
    let z = full_vector(w.W, 1, u.X);
    assert forall|r: int| 0 <= r < s.num_cons implies cong(
        #[trigger] row_sum(s.mats[0], r, values(z)) * row_sum(s.mats[1], r, values(z)),
        1 * row_sum(s.mats[2], r, values(z)) + errors[r],
        q,
    ) by {
        assert(1 * row_sum(s.mats[2], r, values(z)) == row_sum(s.mats[2], r, values(z)));
    }
    let h = crate::engine::discrete_log::<E>(E::blinding(&ck));
    assert(0 * h == 0);
    let g = crate::engine::logs::<E>(E::generators(&ck));
    let f = |i: int| errors[i] * g[i];
    let n = inner_product(errors, g);
    assert(n == 0) by {
        lemma_zero_product(errors, g);
    }
}

/// A product with zeros is zero.
proof fn lemma_zero_product(a: Seq<int>, b: Seq<int>)
    requires
        forall|i: int| 0 <= i < a.len() ==> #[trigger] a[i] == 0,
    ensures
        inner_product(a, b) == 0,
{
    let f = |i: int| a[i] * b[i];
    assert forall|i: int| 0 <= i < a.len() implies #[trigger] f(i) == 0 by {
        assert(a[i] == 0);
        assert(0 * b[i] == 0);
    }
    crate::math::lemma_sum_zero(f, a.len() as int);
}

} // verus!
