//! The folded relation whose instances carry the coefficients of the index.
use crate::engine::{commitment_log, vals, Commitment, CurveEngine, RandomOracle};
use crate::errors::{NovaError, UnSatReason};
use crate::field::FieldElement;
use crate::r1cs::{InstanceView, R1CSInstance, R1CSShape, R1CSWitness, WitnessView};
use crate::relation::{
    absorb_all, absorb_commitment, claims, combined, commitment_elements, copy_vec, equal_vecs, fold_commitment,
    fold_element, fold_vec, incoming_z, index_commitments, predicate_is, projected, resize, resized, shape_views,
    unit, views3, zeros, Shapes, StructureView,
};
use crate::shape::{full_vector, join};
use vstd::prelude::*;

verus! {

/// The predicates that can be folded together.
pub struct GlobalStructure<E: CurveEngine> {
    pub index: crate::relation::GlobalStructure<E>,
}

/// A folded witness, in the scalar field and projected into the base field.
pub struct FoldedWitness<E: CurveEngine> {
    pub W: Vec<E::Scalar>,
    pub W_proj: Vec<E::Base>,
    pub r_W: E::Scalar,
}

/// A folded instance, with the coefficients of the index.
pub struct FoldedInstance<E: CurveEngine> {
    pub comm_W: Commitment<E>,
    pub lambda: Vec<E::Base>,
    pub u: E::Base,
    pub X: Vec<E::Base>,
    pub r_x: Vec<E::Base>,
    pub r_y: Vec<E::Base>,
    pub v: Vec<E::Base>,
}

/// A folded witness over the integers.
pub struct FoldedWitnessView {
    pub W: Seq<int>,
    pub W_proj: Seq<int>,
    pub r_W: int,
}

/// A folded instance over the integers.
pub struct FoldedInstanceView {
    pub comm_W: int,
    pub lambda: Seq<int>,
    pub u: int,
    pub X: Seq<int>,
    pub r_x: Seq<int>,
    pub r_y: Seq<int>,
    pub v: Seq<int>,
}

impl<E: CurveEngine> View for GlobalStructure<E> {
    type V = StructureView;

    open spec fn view(&self) -> StructureView {
        self.index@
    }
}

impl<E: CurveEngine> View for FoldedWitness<E> {
    type V = FoldedWitnessView;

    open spec fn view(&self) -> FoldedWitnessView {
        FoldedWitnessView { W: vals(self.W@), W_proj: vals(self.W_proj@), r_W: self.r_W.val() }
    }
}

impl<E: CurveEngine> View for FoldedInstance<E> {
    type V = FoldedInstanceView;

    open spec fn view(&self) -> FoldedInstanceView {
        FoldedInstanceView {
            comm_W: self.comm_W@,
            lambda: vals(self.lambda@),
            u: self.u.val(),
            X: vals(self.X@),
            r_x: vals(self.r_x@),
            r_y: vals(self.r_y@),
            v: vals(self.v@),
        }
    }
}

/// Whether the parts of a folded instance and of its witness have the lengths of the structure.
pub open spec fn lengths_fit(s: StructureView, u: FoldedInstanceView, w: FoldedWitnessView) -> bool {
    &&& w.W.len() == s.num_vars_max
    &&& w.W_proj.len() == s.num_vars_max
    &&& u.lambda.len() == s.len()
    &&& u.X.len() == s.num_io
    &&& u.r_x.len() == s.s_max
    &&& u.r_y.len() == s.s_prime_max
    &&& u.v.len() == 4
}

/// The vector that a folded instance and its witness make up.
pub open spec fn folded_z(u: FoldedInstanceView, w: FoldedWitnessView) -> Seq<int> {
    full_vector(w.W_proj, u.u, u.X)
}

/// What checking a folded instance against its witness returns.
pub open spec fn folded_sat<E: CurveEngine>(
    s: StructureView,
    ck: E::CommitmentKey,
    u: FoldedInstanceView,
    w: FoldedWitnessView,
) -> Result<(), NovaError> {
    if !lengths_fit(s, u, w) {
        Err(NovaError::InvalidWitnessLength)
    } else if u.comm_W != commitment_log::<E>(E::generators(&ck), E::blinding(&ck), w.W, w.r_W) {
        Err(NovaError::UnSat { reason: UnSatReason::WitnessCommitment })
    } else if u.v != claims(s, u.lambda, u.r_x, u.r_y, folded_z(u, w), E::Base::modulus()) {
        Err(NovaError::UnSat { reason: UnSatReason::Relation })
    } else {
        Ok(())
    }
}

/// The folded witness after a step.
pub open spec fn fold_witness(
    s: StructureView,
    w: FoldedWitnessView,
    w2: WitnessView,
    rho: int,
    rho_scalar: int,
    p: int,
    q: int,
) -> FoldedWitnessView {
    FoldedWitnessView {
        W: combined(w.W, resized(w2.W, w.W.len() as int), rho_scalar, q),
        W_proj: combined(w.W_proj, projected(w2.W, s.num_vars_max, p), rho, p),
        r_W: (w.r_W + rho_scalar * w2.r_W) % q,
    }
}

/// The folded instance after a step.
pub open spec fn fold_instance(
    s: StructureView,
    id: int,
    u: FoldedInstanceView,
    u2: InstanceView,
    rho: int,
    rho_scalar: int,
    r_x: Seq<int>,
    r_y: Seq<int>,
    v: Seq<int>,
    p: int,
    q: int,
) -> FoldedInstanceView {
    FoldedInstanceView {
        comm_W: (u.comm_W + u2.comm_W * rho_scalar) % q,
        lambda: u.lambda.update(id, (u.lambda[id] + rho) % p),
        u: (u.u + rho) % p,
        X: combined(u.X, projected(u2.X, s.num_io, p), rho, p),
        r_x,
        r_y,
        v,
    }
}

/// The folded witness that one witness makes up.
pub open spec fn first_witness(s: StructureView, w: WitnessView, p: int) -> FoldedWitnessView {
    FoldedWitnessView { W: resized(w.W, s.num_vars_max), W_proj: projected(w.W, s.num_vars_max, p), r_W: w.r_W }
}

/// The folded instance that one instance and its witness make up.
pub open spec fn first_instance(s: StructureView, id: int, u: InstanceView, w: WitnessView, p: int) -> FoldedInstanceView {
    let r_x = Seq::new(s.s_max, |i: int| 0int);
    let r_y = Seq::new(s.s_prime_max, |i: int| 0int);
    FoldedInstanceView {
        comm_W: u.comm_W,
        lambda: unit(id, s.len() as int),
        u: 1,
        X: projected(u.X, s.num_io, p),
        r_x,
        r_y,
        v: claims(s, unit(id, s.len() as int), r_x, r_y, incoming_z(s, u, w, p), p),
    }
}

/// What absorbing a folded instance appends to the state of an oracle.
pub open spec fn folded_instance_elements<E: CurveEngine>(u: FoldedInstanceView) -> Seq<int> {
    commitment_elements::<E>(u.comm_W) + u.lambda + seq![u.u] + u.X + u.r_x + u.r_y + u.v
}

/// The residues of a sequence in the other field.
pub open spec fn reduced(s: Seq<int>, q: int) -> Seq<int> {
    Seq::new(s.len(), |i: int| s[i] % q)
}

impl<E: CurveEngine> GlobalStructure<E> {
    /// Whether the tables are those of the matrices, and everything fits the sizes.
    pub open spec fn wf(&self) -> bool {
        self.index.wf()
    }

    /// The structure of the predicates with the given shapes.
    pub fn new(shapes: &Vec<R1CSShape<E>>) -> (r: Self)
        requires
            shape_views(shapes@).buildable(),
        ensures
            r.wf(),
            shape_views(shapes@).describes::<E>(r@),
            r@.len() == shapes@.len(),
            forall|i: int|
                0 <= i < shapes.len() ==> predicate_is(
                    #[trigger] r.index.predicates@[i],
                    i,
                    shape_views(shapes@).padded(i),
                    r@.s_max,
                    r@.s_prime_max,
                ),
    {
        GlobalStructure { index: crate::relation::GlobalStructure::new(shapes) }
    }

    /// The structure of the predicates with the given shapes, for the setup of parameters.
    pub fn new_for_setup(shapes: &Vec<R1CSShape<E>>) -> (r: Self)
        requires
            shape_views(shapes@).buildable(),
        ensures
            r.wf(),
            shape_views(shapes@).describes::<E>(r@),
            r@.len() == shapes@.len(),
            forall|i: int|
                0 <= i < shapes.len() ==> predicate_is(
                    #[trigger] r.index.predicates@[i],
                    i,
                    shape_views(shapes@).padded(i),
                    r@.s_max,
                    r@.s_prime_max,
                ),
    {
        GlobalStructure { index: crate::relation::GlobalStructure::new_for_setup(shapes) }
    }

    /// A witness in the base field, brought to the length of the structure.
    pub fn project_witness(&self, W: &Vec<E::Scalar>) -> (r: Vec<E::Base>)
        ensures
            vals(r@) == projected(vals(W@), self@.num_vars_max, E::Base::modulus()),
    {
        self.index.project_witness(W)
    }

    /// The commitments to the index with the given coefficients.
    pub fn reconstruct_folded_index_commitments(&self, lambda: &Vec<E::Base>) -> (r: [Commitment<E>; 3])
        requires
            self.wf(),
            lambda@.len() == self@.len(),
        ensures
            views3(r) == index_commitments::<E>(self@, reduced(vals(lambda@), E::Scalar::modulus())),
    {
        let mut coeffs: Vec<E::Scalar> = Vec::new();
        let mut i: usize = 0;
        while i < lambda.len()
            invariant
                i <= lambda.len(),
                coeffs@.len() == i,
                forall|k: int| 0 <= k < i ==> (#[trigger] coeffs@[k]).val() == lambda@[k].val() % E::Scalar::modulus(),
            decreases lambda.len() - i,
        {
            coeffs.push(E::base_as_scalar(&lambda[i]));
            i = i + 1;
        }
        assert(vals(coeffs@) =~= reduced(vals(lambda@), E::Scalar::modulus()));
        self.index.commit_index_coeffs(&coeffs)
    }

    /// Checks a folded instance against its witness.
    pub fn is_sat(&self, ck_witness: &E::CommitmentKey, U: &FoldedInstance<E>, W: &FoldedWitness<E>) -> (r: Result<
        (),
        NovaError,
    >)
        requires
            self.wf(),
            lengths_fit(self@, U@, W@) ==> self@.num_vars_max <= E::generators(ck_witness).len(),
        ensures
            r == folded_sat::<E>(self@, *ck_witness, U@, W@),
    {
        let s = &self.index;
        if W.W.len() != s.num_vars_max || W.W_proj.len() != s.num_vars_max || U.lambda.len() != s.predicates.len()
            || U.X.len() != s.num_io || U.r_x.len() != s.s_max || U.r_y.len() != s.s_prime_max || U.v.len() != 4 {
            return Err(NovaError::InvalidWitnessLength);
        }
        let comm_W = E::commit(ck_witness, &W.W, &W.r_W);
        if !comm_W.equals(&U.comm_W) {
            return Err(NovaError::UnSat { reason: UnSatReason::WitnessCommitment });
        }
        let z = join(&W.W_proj, &U.u, &U.X);
        let expected_v = s.compute_v_from_coeffs(&U.lambda, &U.r_x, &U.r_y, &z);
        if !equal_vecs(&expected_v, &U.v) {
            return Err(NovaError::UnSat { reason: UnSatReason::Relation });
        }
        Ok(())
    }
}

impl<E: CurveEngine> FoldedWitness<E> {
    /// The witness of the folded instance that has folded nothing.
    pub fn default(S: &GlobalStructure<E>) -> (r: Self)
        ensures
            r@ == (FoldedWitnessView {
                W: Seq::new(S@.num_vars_max as nat, |i: int| 0int),
                W_proj: Seq::new(S@.num_vars_max as nat, |i: int| 0int),
                r_W: 0,
            }),
    {
        FoldedWitness { W: zeros(S.index.num_vars_max), W_proj: zeros(S.index.num_vars_max), r_W: E::Scalar::from_u64(0) }
    }

    /// The folded witness that one witness makes up.
    pub fn from_r1cs_witness(S: &GlobalStructure<E>, witness: &R1CSWitness<E>) -> (r: Self)
        ensures
            r@ == first_witness(S@, witness@, E::Base::modulus()),
    {
        FoldedWitness {
            W: resize(&witness.W, S.index.num_vars_max),
            W_proj: S.project_witness(&witness.W),
            r_W: witness.r_W,
        }
    }

    /// Folds a witness into this one; it may not be longer.
    pub fn fold(&self, S: &GlobalStructure<E>, W2: &R1CSWitness<E>, rho_base: &E::Base, rho_scalar: &E::Scalar) -> (r: Result<
        Self,
        NovaError,
    >)
        ensures
            match r {
                Ok(w) => W2.W.len() <= self.W.len() && w@ == fold_witness(
                    S@,
                    self@,
                    W2@,
                    rho_base.val(),
                    rho_scalar.val(),
                    E::Base::modulus(),
                    E::Scalar::modulus(),
                ),
                Err(e) => W2.W.len() > self.W.len() && e == NovaError::InvalidWitnessLength,
            },
    {
        if W2.W.len() > self.W.len() {
            return Err(NovaError::InvalidWitnessLength);
        }
        let W2_padded = resize(&W2.W, self.W.len());
        let W2_proj = S.project_witness(&W2.W);
        Ok(
            FoldedWitness {
                W: fold_vec(&self.W, &W2_padded, rho_scalar),
                W_proj: fold_vec(&self.W_proj, &W2_proj, rho_base),
                r_W: fold_element(&self.r_W, &W2.r_W, rho_scalar),
            },
        )
    }
}

impl<E: CurveEngine> FoldedInstance<E> {
    /// The folded instance that has folded nothing.
    pub fn default(S: &GlobalStructure<E>) -> (r: Self)
        ensures
            r@ == (FoldedInstanceView {
                comm_W: 0,
                lambda: Seq::new(S@.len(), |i: int| 0int),
                u: 0,
                X: Seq::new(S@.num_io as nat, |i: int| 0int),
                r_x: Seq::new(S@.s_max, |i: int| 0int),
                r_y: Seq::new(S@.s_prime_max, |i: int| 0int),
                v: seq![0, 0, 0, 0],
            }),
    {
        let r = FoldedInstance {
            comm_W: E::identity_commitment(),
            lambda: zeros(S.index.predicates.len()),
            u: E::Base::from_u64(0),
            X: zeros(S.index.num_io),
            r_x: S.index.zero_r_x(),
            r_y: S.index.zero_r_y(),
            v: zeros(4),
        };
        assert(r@.v =~= seq![0, 0, 0, 0]);
        r
    }

    /// The folded instance that one instance and its witness make up.
    pub fn from_r1cs_instance_witness(
        S: &GlobalStructure<E>,
        predicate_id: usize,
        instance: &R1CSInstance<E>,
        witness: &R1CSWitness<E>,
    ) -> (r: Self)
        requires
            S.wf(),
            predicate_id < S@.len(),
        ensures
            r@ == first_instance(S@, predicate_id as int, instance@, witness@, E::Base::modulus()),
    {
        let r_x = S.index.zero_r_x();
        let r_y = S.index.zero_r_y();
        let X = S.index.project_io(&instance.X);
        let z = S.index.z_from_r1cs(instance, witness);
        let lambda = S.index.basis_coeffs_base(predicate_id);
        assert(vals(r_x@).len() == S.index.s_max);
        assert(vals(r_y@).len() == S.index.s_prime_max);
        assert(vals(lambda@).len() == S@.len());
        let v = S.index.compute_v_from_coeffs(&lambda, &r_x, &r_y, &z);
        FoldedInstance { comm_W: instance.comm_W.copied(), lambda, u: E::Base::from_u64(1), X, r_x, r_y, v }
    }

    /// The same folded instance once more.
    pub fn copied(&self) -> (r: Self)
        ensures
            r@ == self@,
    {
        FoldedInstance {
            comm_W: self.comm_W.copied(),
            lambda: copy_vec(&self.lambda),
            u: self.u,
            X: copy_vec(&self.X),
            r_x: copy_vec(&self.r_x),
            r_y: copy_vec(&self.r_y),
            v: copy_vec(&self.v),
        }
    }

    /// Folds an instance into this one, with a new point and new claims.
    pub fn fold(
        &self,
        S: &GlobalStructure<E>,
        predicate_id: usize,
        U2: &R1CSInstance<E>,
        rho_base: &E::Base,
        rho_scalar: &E::Scalar,
        r_x: Vec<E::Base>,
        r_y: Vec<E::Base>,
        v: Vec<E::Base>,
    ) -> (r: Self)
        requires
            predicate_id < self.lambda@.len(),
        ensures
            r@ == fold_instance(
                S@,
                predicate_id as int,
                self@,
                U2@,
                rho_base.val(),
                rho_scalar.val(),
                vals(r_x@),
                vals(r_y@),
                vals(v@),
                E::Base::modulus(),
                E::Scalar::modulus(),
            ),
    {
        let X2 = S.index.project_io(&U2.X);
        let X = fold_vec(&self.X, &X2, rho_base);
        let mut lambda = copy_vec(&self.lambda);
        let raised = lambda[predicate_id].add(rho_base);
        lambda.set(predicate_id, raised);
        assert(vals(lambda@) =~= self@.lambda.update(predicate_id as int, raised.val()));
        let comm_W = fold_commitment(&self.comm_W, &U2.comm_W, rho_scalar);
        FoldedInstance { comm_W, lambda, u: self.u.add(rho_base), X, r_x, r_y, v }
    }

    /// Absorbs the folded instance.
    pub fn absorb_in_ro(&self, ro: &mut E::RO)
        ensures
            final(ro).state() == old(ro).state() + folded_instance_elements::<E>(self@),
    {
        absorb_commitment::<E>(ro, &self.comm_W);
        absorb_all(ro, &self.lambda);
        ro.absorb(&self.u);
        absorb_all(ro, &self.X);
        absorb_all(ro, &self.r_x);
        absorb_all(ro, &self.r_y);
        absorb_all(ro, &self.v);
        assert(ro.state() =~= old(ro).state() + folded_instance_elements::<E>(self@));
    }
}

/// Two structures with as many predicates give the same commitments to the index: reconstructing them from the
/// coefficients that an instance carries gives what committing to these coefficients gives.
pub proof fn reconstruction_is_commitment<E: CurveEngine>(
    a: Shapes,
    b: Shapes,
    s: StructureView,
    t: StructureView,
    lambda: Seq<int>,
)
    requires
        a.shapes.len() == b.shapes.len(),
        a.describes::<E>(s),
        b.describes::<E>(t),
    ensures
        index_commitments::<E>(s, lambda) == index_commitments::<E>(t, lambda),
{
    assert forall|j: int| 0 <= j < 3 implies #[trigger] index_commitments::<E>(s, lambda)[j]
        == index_commitments::<E>(t, lambda)[j] by {
        assert(s.keys[j] =~= t.keys[j]);
    }
    assert(index_commitments::<E>(s, lambda) =~= index_commitments::<E>(t, lambda));
}

} // verus!
