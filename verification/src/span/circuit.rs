//! Folded instances that carry the coefficients of the index, in a constraint system, and folding an instance into
//! one.
use super::checks::verify_checks;
use super::nifs::{absorbed_inputs, fold_is_accepted, folded_anyway, proved, running, verified};
use super::relation::{
    folded_instance_elements, folded_sat, FoldedInstance, FoldedInstanceView, FoldedWitnessView, GlobalStructure,
};
use crate::completeness::{lemma_transcript_points, rows_satisfied};
use crate::cs::{lemma_step_trans, step, Assignment, ConstraintSystem, CsView};
use crate::engine::{vals, CurveEngine, CurveGroup, RandomOracle};
use crate::errors::SynthesisError;
use crate::field::FieldElement;
use crate::fold_circuit::lemma_nifs_within;
use crate::fragment::{log_of, CircuitEngine};
use crate::gadgets::{
    all_within, alloc_one, assert_equal, ats, conditionally_select, conditionally_select_vec, lemma_at, lemma_own,
    wires, AllocatedBit, AllocatedNum,
};
use crate::holographic::{fold_nums, fold_point, lemma_challenge};
use crate::instance_circuit::{
    alloc_num_vec, alloc_zeros, copy_nums, fix_nums, lemma_instance_ats, lemma_instance_elements,
    lemma_point_elements, AllocatedR1CSInstance,
};
use crate::nifs::{hash_of, opening};
use crate::oracle::OracleCircuit;
use crate::points::{lemma_point_own, AllocatedPoint};
use crate::proof_circuit::{accepted_is_reached, lemma_ats, lemma_own_agrees, nvals, played, reached, AllocatedNIFS};
use crate::r1cs::{InstanceView, WitnessView};
use crate::relation::{
    incoming_z, instance_elements, matrix_corner, projected, resized, unit, zero_claims, StructureView,
};
use crate::sumcheck::first_points;
use crate::layout::{lay_check, lay_fold, lay_folded, lay_select_folded, lay_started, lay_vars, FoldedWires, Sizes};
use vstd::prelude::*;

verus! {

/// A folded instance in a system, with the coefficients of the index.
pub struct AllocatedFoldedInstance<E: CurveGroup> {
    pub W: AllocatedPoint<E>,
    pub lambda: Vec<AllocatedNum<E::Base>>,
    pub u: AllocatedNum<E::Base>,
    pub X: Vec<AllocatedNum<E::Base>>,
    pub r_x: Vec<AllocatedNum<E::Base>>,
    pub r_y: Vec<AllocatedNum<E::Base>>,
    pub v: Vec<AllocatedNum<E::Base>>,
}

impl<E: CurveGroup> AllocatedFoldedInstance<E> {
    /// The variables.
    pub open spec fn wires(&self) -> FoldedWires {
        FoldedWires {
            W: self.W.wires(),
            lambda: wires(self.lambda@),
            u: self.u.variable,
            X: wires(self.X@),
            r_x: wires(self.r_x@),
            r_y: wires(self.r_y@),
            v: wires(self.v@),
        }
    }

    /// The folded instance under an assignment.
    pub open spec fn at(&self, x: Assignment) -> FoldedInstanceView {
        FoldedInstanceView {
            comm_W: self.W.log_at(x),
            lambda: ats(self.lambda@, x),
            u: self.u.at(x),
            X: ats(self.X@, x),
            r_x: ats(self.r_x@, x),
            r_y: ats(self.r_y@, x),
            v: ats(self.v@, x),
        }
    }

    /// The folded instance that was given.
    pub open spec fn values(&self) -> FoldedInstanceView {
        FoldedInstanceView {
            comm_W: log_of::<E>(self.W.values(), 0),
            lambda: nvals(self.lambda@),
            u: self.u.value.val(),
            X: nvals(self.X@),
            r_x: nvals(self.r_x@),
            r_y: nvals(self.r_y@),
            v: nvals(self.v@),
        }
    }

    /// Whether all numbers are of the system.
    pub open spec fn within(&self, cs: CsView) -> bool {
        &&& self.W.within(cs)
        &&& all_within(self.lambda@, cs)
        &&& self.u.within(cs)
        &&& all_within(self.X@, cs)
        &&& all_within(self.r_x@, cs)
        &&& all_within(self.r_y@, cs)
        &&& all_within(self.v@, cs)
    }

    /// Whether the parts have the lengths that the structure asks for.
    pub open spec fn shaped(&self, s: StructureView) -> bool {
        &&& self.lambda@.len() == s.len()
        &&& self.X@.len() == s.num_io
        &&& self.r_x@.len() == s.s_max
        &&& self.r_y@.len() == s.s_prime_max
        &&& self.v@.len() == 4
    }

    /// Whether the commitment is a point under an assignment.
    pub open spec fn points_at(&self, x: Assignment) -> bool {
        self.W.is_point_at(x)
    }

    /// Whether the commitment is a point under an assignment unless it is marked as the point at infinity.
    pub open spec fn checked_at(&self, x: Assignment) -> bool {
        self.W.is_infinity.at(x) == 0 ==> self.W.is_point_at(x)
    }

    /// All numbers, as an oracle absorbs them.
    pub open spec fn elements(&self) -> Seq<AllocatedNum<E::Base>> {
        self.W.nums() + self.lambda@ + seq![self.u] + self.X@ + self.r_x@ + self.r_y@ + self.v@
    }
}

/// What absorbing a folded instance appends is what its numbers are.
pub proof fn lemma_folded_elements<E: CurveEngine>(u: AllocatedFoldedInstance<E>, x: Assignment)
    requires
        u.points_at(x),
    ensures
        ats(u.elements(), x) == folded_instance_elements::<E>(u.at(x)),
{
    lemma_point_elements(u.W, x);
    let got = ats(u.elements(), x);
    let parts = ats(u.W.nums(), x) + ats(u.lambda@, x) + seq![u.u.at(x)] + ats(u.X@, x) + ats(u.r_x@, x) + ats(
        u.r_y@,
        x,
    ) + ats(u.v@, x);
    assert(got =~= parts);
}

/// Where an assignment agrees with the values given, it gives a folded instance its values.
pub proof fn lemma_folded_ats<E: CurveGroup>(u: AllocatedFoldedInstance<E>, cs: CsView, x: Assignment)
    requires
        u.within(cs),
        cs.agrees(x),
    ensures
        u.at(x) == u.values(),
        u.points_at(x),
{
    lemma_point_own(u.W, cs, x);
    lemma_ats(u.lambda@, cs, x);
    lemma_at(u.u, cs, x);
    lemma_ats(u.X@, cs, x);
    lemma_ats(u.r_x@, cs, x);
    lemma_ats(u.r_y@, cs, x);
    lemma_ats(u.v@, cs, x);
}

/// A folded instance with the parts of one that may be missing, brought to the lengths of a structure.
pub open spec fn given_instance(s: StructureView, inst: Option<FoldedInstanceView>) -> FoldedInstanceView {
    match inst {
        Some(u) => FoldedInstanceView {
            comm_W: u.comm_W,
            lambda: resized(u.lambda, s.len() as int),
            u: u.u,
            X: resized(u.X, s.num_io),
            r_x: resized(u.r_x, s.s_max as int),
            r_y: resized(u.r_y, s.s_prime_max as int),
            v: resized(u.v, 4),
        },
        None => empty_instance(s),
    }
}

/// The folded instance that has folded nothing.
pub open spec fn empty_instance(s: StructureView) -> FoldedInstanceView {
    FoldedInstanceView {
        comm_W: 0,
        lambda: resized(Seq::empty(), s.len() as int),
        u: 0,
        X: resized(Seq::empty(), s.num_io),
        r_x: resized(Seq::empty(), s.s_max as int),
        r_y: resized(Seq::empty(), s.s_prime_max as int),
        v: resized(Seq::empty(), 4),
    }
}

/// The folded instance that an instance makes up, with a witness that starts with the given value.
pub open spec fn started_instance(s: StructureView, id: int, u: InstanceView, first: int, p: int) -> FoldedInstanceView {
    FoldedInstanceView {
        comm_W: u.comm_W,
        lambda: unit(id, s.len() as int),
        u: 1,
        X: u.X,
        r_x: Seq::new(s.s_max, |i: int| 0int),
        r_y: Seq::new(s.s_prime_max, |i: int| 0int),
        v: zero_claims(s, id, first, p),
    }
}

/// The numbers of a folded instance stay numbers of the system.
pub proof fn lemma_folded_within<E: CurveGroup>(u: AllocatedFoldedInstance<E>, a: CsView, b: CsView)
    requires
        u.within(a),
        step(a, b),
    ensures
        u.within(b),
{
}

/// The numbers of a folded instance are all of the system.
pub(crate) proof fn lemma_nums_within<E: CurveGroup>(u: AllocatedFoldedInstance<E>, cs: CsView)
    requires
        u.within(cs),
    ensures
        all_within(u.elements(), cs),
{
    let a = u.W.nums() + u.lambda@ + seq![u.u];
    let b = a + u.X@;
    let c = b + u.r_x@;
    let d = c + u.r_y@;
    let all = d + u.v@;
    assert(all =~= u.elements());
    let w = u.W.nums();
    assert(w[0] == u.W.x && w[1] == u.W.y && w[2] == u.W.is_infinity);
    assert(all_within(w, cs));
    assert(all_within(w + u.lambda@, cs));
    assert(all_within(a, cs));
    assert(all_within(b, cs));
    assert(all_within(c, cs));
    assert(all_within(d, cs));
}

/// Where an assignment gives the numbers of a folded instance their values, it gives the instance its values.
proof fn lemma_fixed_instance<E: CurveGroup>(u: AllocatedFoldedInstance<E>, x: Assignment)
    requires
        ats(u.elements(), x) == nvals(u.elements()),
    ensures
        u.at(x) == u.values(),
        ats(u.W.nums(), x) == u.W.values(),
{
    let e = u.elements();
    assert forall|i: int| 0 <= i < e.len() implies (#[trigger] e[i]).at(x) == e[i].value.val() by {
        assert(ats(e, x)[i] == nvals(e)[i]);
    }
    assert(e[0] == u.W.x && e[1] == u.W.y && e[2] == u.W.is_infinity);
    assert(ats(u.W.nums(), x) =~= u.W.values());
    let l = u.lambda@.len() as int;
    let n = l + u.X@.len();
    let m = n + u.r_x@.len();
    let k = m + u.r_y@.len();
    assert(e[3 + l] == u.u);
    assert forall|i: int| 0 <= i < u.lambda@.len() implies (#[trigger] u.lambda@[i]).at(x) == u.lambda@[i].value.val() by {
        assert(e[3 + i] == u.lambda@[i]);
    }
    assert forall|i: int| 0 <= i < u.X@.len() implies (#[trigger] u.X@[i]).at(x) == u.X@[i].value.val() by {
        assert(e[4 + l + i] == u.X@[i]);
    }
    assert forall|i: int| 0 <= i < u.r_x@.len() implies (#[trigger] u.r_x@[i]).at(x) == u.r_x@[i].value.val() by {
        assert(e[4 + n + i] == u.r_x@[i]);
    }
    assert forall|i: int| 0 <= i < u.r_y@.len() implies (#[trigger] u.r_y@[i]).at(x) == u.r_y@[i].value.val() by {
        assert(e[4 + m + i] == u.r_y@[i]);
    }
    assert forall|i: int| 0 <= i < u.v@.len() implies (#[trigger] u.v@[i]).at(x) == u.v@[i].value.val() by {
        assert(e[4 + k + i] == u.v@[i]);
    }
    assert(ats(u.lambda@, x) =~= nvals(u.lambda@));
    assert(ats(u.X@, x) =~= nvals(u.X@));
    assert(ats(u.r_x@, x) =~= nvals(u.r_x@));
    assert(ats(u.r_y@, x) =~= nvals(u.r_y@));
    assert(ats(u.v@, x) =~= nvals(u.v@));
}

/// The unit vector of a predicate, as constants.
fn unit_nums<F: FieldElement>(cs: &mut ConstraintSystem<F>, id: usize, len: usize) -> (r: Vec<AllocatedNum<F>>)
    requires
        old(cs)@.wf(),
        id < len,
    ensures
        (final(cs)@.layout(), wires(r@)) == lay_vars(old(cs)@.layout(), len as int),
        step(old(cs)@, final(cs)@),
        final(cs)@.satisfied() == old(cs)@.satisfied(),
        final(cs).witness == old(cs).witness,
        final(cs)@.inputs == old(cs)@.inputs,
        all_within(r@, final(cs)@),
        r@.len() == len,
        forall|x: Assignment| #[trigger] final(cs)@.keeps(x) ==> ats(r@, x) == unit(id as int, len as int),
{
    let ghost before = cs@;
    let coeffs: Vec<F> = crate::relation::unit_vec(id, len);
    let r = alloc_num_vec(cs, Some(&coeffs), len);
    let ghost s1 = cs@;
    fix_nums(cs, &r);
    proof {
        lemma_step_trans(before, s1, cs@);
        assert(vals(coeffs@).len() == len);
        assert(nvals(r@) =~= unit(id as int, len as int));
    }
    r
}

/// The sizes of a structure that circuits depend on.
pub open spec fn sizes(s: StructureView) -> Sizes {
    Sizes {
        len: s.len() as int,
        num_io: s.num_io as int,
        s_max: s.s_max as int,
        s_prime_max: s.s_prime_max as int,
    }
}

/// The first entries of the matrices of a predicate.
pub open spec fn corners(s: StructureView, id: int, p: int) -> Seq<int> {
    Seq::new(3, |j: int| matrix_corner(s.mats[id][j]) % p)
}

impl<E: CircuitEngine> AllocatedFoldedInstance<E> {
    /// A new folded instance with the lengths of a structure. Values that are missing are zero, and a commitment
    /// that is missing the point at infinity.
    pub fn allocate(
        cs: &mut ConstraintSystem<E::Base>,
        inst: Option<&FoldedInstance<E>>,
        structure: &GlobalStructure<E>,
    ) -> (r: Result<Self, SynthesisError>)
        requires
            old(cs)@.wf(),
        ensures
            r matches Ok(a) ==> (final(cs)@.layout(), a.wires()) == lay_folded(old(cs)@.layout(), sizes(structure@), E::Base::modulus()),
            step(old(cs)@, final(cs)@),
            final(cs)@.satisfied() == old(cs)@.satisfied(),
            final(cs).witness == old(cs).witness,
            final(cs)@.inputs == old(cs)@.inputs,
            r is Ok,
            r matches Ok(a) ==> {
                &&& a.within(final(cs)@)
                &&& a.shaped(structure@)
                &&& a.values() == given_instance(
                    structure@,
                    match inst {
                        Some(u) => Some(u@),
                        None => None,
                    },
                )
            },
    {
        proof {
            reveal(lay_folded);
        }
        let ghost before = cs@;
        let s = &structure.index;
        let W = AllocatedPoint::allocate(
            cs,
            match inst {
                Some(inst) => Some(&inst.comm_W),
                None => None,
            },
        );
        let ghost s1 = cs@;
        let lambda = alloc_num_vec(
            cs,
            match inst {
                Some(inst) => Some(&inst.lambda),
                None => None,
            },
            s.predicates.len(),
        );
        let ghost s2 = cs@;
        let u = AllocatedNum::allocate(
            cs,
            &match inst {
                Some(inst) => inst.u,
                None => E::Base::from_u64(0),
            },
        );
        let ghost s3 = cs@;
        let X = alloc_num_vec(
            cs,
            match inst {
                Some(inst) => Some(&inst.X),
                None => None,
            },
            s.num_io,
        );
        let ghost s4 = cs@;
        let r_x = alloc_num_vec(
            cs,
            match inst {
                Some(inst) => Some(&inst.r_x),
                None => None,
            },
            s.s_max,
        );
        let ghost s5 = cs@;
        let r_y = alloc_num_vec(
            cs,
            match inst {
                Some(inst) => Some(&inst.r_y),
                None => None,
            },
            s.s_prime_max,
        );
        let ghost s6 = cs@;
        let v = alloc_num_vec(
            cs,
            match inst {
                Some(inst) => Some(&inst.v),
                None => None,
            },
            4,
        );
        let r = AllocatedFoldedInstance { W, lambda, u, X, r_x, r_y, v };
        proof {
            let after = cs@;
            lemma_step_trans(s5, s6, after);
            lemma_step_trans(s4, s5, after);
            lemma_step_trans(s3, s4, after);
            lemma_step_trans(s2, s3, after);
            lemma_step_trans(s1, s2, after);
            lemma_step_trans(before, s1, after);
        }
        Ok(r)
    }

    /// The folded instance that has folded nothing, as constants. No constraint binds them.
    pub fn default(cs: &mut ConstraintSystem<E::Base>, structure: &GlobalStructure<E>) -> (r: Result<
        Self,
        SynthesisError,
    >)
        requires
            old(cs)@.wf(),
        ensures
            r matches Ok(a) ==> (final(cs)@.layout(), a.wires()) == lay_folded(old(cs)@.layout(), sizes(structure@), E::Base::modulus()),
            step(old(cs)@, final(cs)@),
            final(cs)@.satisfied() == old(cs)@.satisfied(),
            final(cs).witness == old(cs).witness,
            final(cs)@.inputs == old(cs)@.inputs,
            r is Ok,
            r matches Ok(a) ==> {
                &&& a.within(final(cs)@)
                &&& a.shaped(structure@)
                &&& a.values() == empty_instance(structure@)
                &&& forall|x: Assignment| #[trigger]
                    final(cs)@.keeps(x) ==> a.points_at(x) && a.at(x) == empty_instance(structure@)
            },
    {
        let ghost before = cs@;
        let inst = FoldedInstance::default(structure);
        let r = match Self::allocate(cs, Some(&inst), structure) {
            Ok(r) => r,
            Err(e) => {
                return Err(e);
            },
        };
        let ghost s1 = cs@;
        let nums = r.to_nums();
        proof {
            lemma_nums_within(r, s1);
        }
        fix_nums(cs, &nums);
        proof {
            let after = cs@;
            lemma_step_trans(before, s1, after);
            lemma_folded_within(r, s1, after);
            let e = empty_instance(structure@);
            assert(r.values().lambda =~= e.lambda);
            assert(r.values().X =~= e.X);
            assert(r.values().r_x =~= e.r_x);
            assert(r.values().r_y =~= e.r_y);
            assert(r.values().v =~= e.v);
            assert forall|x: Assignment| #[trigger] after.keeps(x) implies r.points_at(x) && r.at(x) == e by {
                lemma_fixed_instance(r, x);
            }
        }
        Ok(r)
    }

    /// All numbers, as an oracle absorbs them.
    fn to_nums(&self) -> (r: Vec<AllocatedNum<E::Base>>)
        ensures
            r@ == self.elements(),
    {
        let mut all = OracleCircuit::<E>::new();
        self.absorb_nums(&mut all);
        assert(all.state@ =~= self.elements());
        all.state
    }

    /// Absorbs all numbers.
    fn absorb_nums(&self, ro: &mut OracleCircuit<E>)
        ensures
            final(ro).state@ == old(ro).state@ + self.elements(),
    {
        ro.absorb_point(&self.W);
        ro.absorb_all(&self.lambda);
        ro.absorb(&self.u);
        ro.absorb_all(&self.X);
        ro.absorb_all(&self.r_x);
        ro.absorb_all(&self.r_y);
        ro.absorb_all(&self.v);
        assert(ro.state@ =~= old(ro).state@ + self.elements());
    }

    /// Absorbs the folded instance; its commitment has to be on the curve.
    pub fn absorb_in_ro(&self, cs: &mut ConstraintSystem<E::Base>, ro: &mut OracleCircuit<E>) -> (r: Result<
        (),
        SynthesisError,
    >)
        requires
            old(cs)@.wf(),
            self.within(old(cs)@),
        ensures
            final(cs)@.layout() == lay_check::<E>(old(cs)@.layout(), self.W.wires()),
            step(old(cs)@, final(cs)@),
            final(cs)@.satisfied() == old(cs)@.satisfied(),
            final(cs).witness == old(cs).witness,
            final(cs)@.inputs == old(cs)@.inputs,
            r is Ok,
            final(ro).state@ == old(ro).state@ + self.elements(),
            forall|x: Assignment| #[trigger] final(cs)@.follows(x) ==> self.checked_at(x),
    {
        self.W.check_on_curve(cs);
        self.absorb_nums(ro);
        Ok(())
    }

    /// The folded instance that an instance makes up, with the value of its vector at the point of zeros.
    pub fn from_r1cs_instance_witness(
        cs: &mut ConstraintSystem<E::Base>,
        structure: &GlobalStructure<E>,
        predicate_id: usize,
        inst: &AllocatedR1CSInstance<E>,
        z_eval: &AllocatedNum<E::Base>,
    ) -> (r: Result<Self, SynthesisError>)
        requires
            old(cs)@.wf(),
            structure.wf(),
            predicate_id < structure@.len(),
            inst.within(old(cs)@),
            z_eval.within(old(cs)@),
        ensures
            r matches Ok(a) ==> (final(cs)@.layout(), a.wires()) == lay_started(
                old(cs)@.layout(),
                sizes(structure@),
                corners(structure@, predicate_id as int, E::Base::modulus()),
                inst.wires(),
                z_eval.variable,
            ),
            step(old(cs)@, final(cs)@),
            final(cs)@.satisfied() == old(cs)@.satisfied(),
            final(cs).witness == old(cs).witness,
            final(cs)@.inputs == old(cs)@.inputs,
            r is Ok,
            r matches Ok(a) ==> {
                &&& a.within(final(cs)@)
                &&& a.X@ == inst.X@
                &&& a.lambda@.len() == structure@.len()
                &&& a.r_x@.len() == structure@.s_max
                &&& a.r_y@.len() == structure@.s_prime_max
                &&& a.v@.len() == 4
                &&& a.W == inst.comm_W
                &&& forall|x: Assignment| #[trigger]
                    final(cs)@.follows(x) && final(cs)@.keeps(x) ==> a.at(x) == started_instance(
                        structure@,
                        predicate_id as int,
                        inst.at(x),
                        z_eval.at(x),
                        E::Base::modulus(),
                    )
            },
    {
        proof {
            reveal(lay_started);
        }
        let ghost before = cs@;
        let ghost p = E::Base::modulus();
        let ghost id = predicate_id as int;
        let s = &structure.index;
        let u = alloc_one(cs);
        let ghost s1 = cs@;
        let r_x = alloc_zeros(cs, s.s_max);
        let ghost s2 = cs@;
        let r_y = alloc_zeros(cs, s.s_prime_max);
        let ghost s3 = cs@;
        let predicate = &s.predicates[predicate_id];
        proof {
            lemma_step_trans(s1, s2, s3);
            assert(structure@.mats[id] == crate::relation::entries3(predicate.mats));
            let c = corners(structure@, id, p);
            assert(c[0] == predicate.matrix_at_zero[0].val());
            assert(c[1] == predicate.matrix_at_zero[1].val());
            assert(c[2] == predicate.matrix_at_zero[2].val());
        }
        let m0 = u.mul_const(cs, &predicate.matrix_at_zero[0]);
        let ghost s4 = cs@;
        let m1 = u.mul_const(cs, &predicate.matrix_at_zero[1]);
        let ghost s5 = cs@;
        let m2 = u.mul_const(cs, &predicate.matrix_at_zero[2]);
        let ghost s6 = cs@;
        let lambda = unit_nums(cs, predicate_id, s.predicates.len());
        let mut v: Vec<AllocatedNum<E::Base>> = Vec::new();
        v.push(m0);
        v.push(m1);
        v.push(m2);
        v.push(*z_eval);
        let X = copy_nums(&inst.X);
        let r = AllocatedFoldedInstance { W: inst.comm_W.copied(), lambda, u, X, r_x, r_y, v };
        proof {
            let after = cs@;
            lemma_step_trans(s5, s6, after);
            lemma_step_trans(s4, s5, after);
            lemma_step_trans(s3, s4, after);
            lemma_step_trans(s2, s3, after);
            lemma_step_trans(s1, s2, after);
            lemma_step_trans(before, s1, after);
            assert(all_within(r.v@, after)) by {
                assert(r.v@[0].within(s4));
                assert(r.v@[1].within(s5));
                assert(r.v@[2].within(s6));
            }
            E::Base::modulus_bounds();
            assert(wires(v@) =~= seq![m0.variable, m1.variable, m2.variable, z_eval.variable]);
            assert forall|x: Assignment| #[trigger] after.follows(x) && after.keeps(x) implies r.at(x) == started_instance(
                structure@,
                id,
                inst.at(x),
                z_eval.at(x),
                p,
            ) by {
                assert(s6.follows(x) && s5.follows(x) && s4.follows(x) && s3.follows(x) && s2.follows(x) && s1.follows(x));
                let want = started_instance(structure@, id, inst.at(x), z_eval.at(x), p);
                lemma_at(*z_eval, after, x);
                vstd::arithmetic::div_mod::lemma_small_mod(z_eval.at(x) as nat, p as nat);
                let (k0, k1, k2) = (
                    predicate.matrix_at_zero[0],
                    predicate.matrix_at_zero[1],
                    predicate.matrix_at_zero[2],
                );
                assert(1 * k0.val() == k0.val() && 1 * k1.val() == k1.val() && 1 * k2.val() == k2.val());
                k0.val_bounds();
                k1.val_bounds();
                k2.val_bounds();
                vstd::arithmetic::div_mod::lemma_small_mod(k0.val() as nat, p as nat);
                vstd::arithmetic::div_mod::lemma_small_mod(k1.val() as nat, p as nat);
                vstd::arithmetic::div_mod::lemma_small_mod(k2.val() as nat, p as nat);
                assert(structure@.mats[id] == crate::relation::entries3(s.predicates@[id].mats));
                assert(r.at(x).v =~= want.v);
            }
        }
        Ok(r)
    }

    /// This folded instance if the bit is one, else the other one.
    pub fn conditionally_select(&self, cs: &mut ConstraintSystem<E::Base>, other: &Self, condition: &AllocatedBit<E::Base>) -> (r: Result<
        Self,
        SynthesisError,
    >)
        requires
            old(cs)@.wf(),
            self.within(old(cs)@),
            other.within(old(cs)@),
            condition.within(old(cs)@),
            self.lambda@.len() == other.lambda@.len(),
            self.X@.len() == other.X@.len(),
            self.r_x@.len() == other.r_x@.len(),
            self.r_y@.len() == other.r_y@.len(),
            self.v@.len() == other.v@.len(),
        ensures
            r matches Ok(a) ==> (final(cs)@.layout(), a.wires()) == lay_select_folded(
                old(cs)@.layout(),
                self.wires(),
                other.wires(),
                condition.num.variable,
                E::Base::modulus(),
            ),
            step(old(cs)@, final(cs)@),
            final(cs)@.satisfied() == old(cs)@.satisfied(),
            final(cs).witness == old(cs).witness,
            final(cs)@.inputs == old(cs)@.inputs,
            r is Ok,
            r matches Ok(a) ==> {
                &&& a.within(final(cs)@)
                &&& a.lambda@.len() == self.lambda@.len()
                &&& a.X@.len() == self.X@.len()
                &&& a.r_x@.len() == self.r_x@.len()
                &&& a.r_y@.len() == self.r_y@.len()
                &&& a.v@.len() == self.v@.len()
                &&& forall|x: Assignment| #[trigger]
                    final(cs)@.follows(x) ==> if condition.at(x) == 1 {
                        a.at(x) == self.at(x) && a.points_at(x) == self.points_at(x)
                    } else {
                        a.at(x) == other.at(x) && a.points_at(x) == other.points_at(x)
                    }
            },
    {
        proof {
            reveal(lay_select_folded);
        }
        let ghost before = cs@;
        let W = AllocatedPoint::conditionally_select(cs, &self.W, &other.W, condition);
        let ghost s1 = cs@;
        let u = conditionally_select(cs, &self.u, &other.u, condition);
        let ghost s2 = cs@;
        proof {
            lemma_step_trans(before, s1, s2);
            lemma_folded_within(*self, before, s2);
            lemma_folded_within(*other, before, s2);
        }
        let lambda = conditionally_select_vec(cs, &self.lambda, &other.lambda, condition);
        let ghost s3 = cs@;
        proof {
            lemma_step_trans(before, s2, s3);
            lemma_folded_within(*self, before, s3);
            lemma_folded_within(*other, before, s3);
        }
        let X = conditionally_select_vec(cs, &self.X, &other.X, condition);
        let ghost s4 = cs@;
        proof {
            lemma_step_trans(before, s3, s4);
            lemma_folded_within(*self, before, s4);
            lemma_folded_within(*other, before, s4);
        }
        let r_x = conditionally_select_vec(cs, &self.r_x, &other.r_x, condition);
        let ghost s5 = cs@;
        proof {
            lemma_step_trans(before, s4, s5);
            lemma_folded_within(*self, before, s5);
            lemma_folded_within(*other, before, s5);
        }
        let r_y = conditionally_select_vec(cs, &self.r_y, &other.r_y, condition);
        let ghost s6 = cs@;
        proof {
            lemma_step_trans(before, s5, s6);
            lemma_folded_within(*self, before, s6);
            lemma_folded_within(*other, before, s6);
        }
        let v = conditionally_select_vec(cs, &self.v, &other.v, condition);
        let r = AllocatedFoldedInstance { W, lambda, u, X, r_x, r_y, v };
        proof {
            let after = cs@;
            lemma_step_trans(before, s6, after);
            lemma_step_trans(s5, s6, after);
            lemma_step_trans(s4, s5, after);
            lemma_step_trans(s3, s4, after);
            lemma_step_trans(s2, s3, after);
            lemma_step_trans(s1, s2, after);
            assert forall|x: Assignment| #[trigger] after.follows(x) implies if condition.at(x) == 1 {
                r.at(x) == self.at(x) && r.points_at(x) == self.points_at(x)
            } else {
                r.at(x) == other.at(x) && r.points_at(x) == other.points_at(x)
            } by {
                assert(s6.follows(x) && s5.follows(x) && s4.follows(x));
                assert(s3.follows(x) && s2.follows(x) && s1.follows(x));
            }
        }
        Ok(r)
    }
}

/// The state of an oracle once a system has absorbed the inputs of a fold.
proof fn lemma_start<E: CircuitEngine>(
    id: int,
    params: AllocatedNum<E::Base>,
    id_num: AllocatedNum<E::Base>,
    u: AllocatedR1CSInstance<E>,
    cs: CsView,
    x: Assignment,
)
    requires
        cs.p == E::Base::modulus(),
        cs.follows(x),
        params.within(cs),
        u.within(cs),
        id_num.at(x) == id,
        u.comm_W.is_point_at(x),
    ensures
        ats(seq![params, id_num] + u.elements(), x) == absorbed_inputs::<E>(params.at(x), id, u.at(x)),
{
    lemma_instance_elements(u, cs, x);
    lemma_at(params, cs, x);
    vstd::arithmetic::div_mod::lemma_small_mod(params.at(x) as nat, cs.p as nat);
    assert(ats(seq![params, id_num] + u.elements(), x) =~= seq![params.at(x), id] + ats(u.elements(), x));
}

/// The verifier folds the residues that a system gives an instance as they are.
proof fn lemma_reached_at<E: CircuitEngine>(
    s: StructureView,
    id: int,
    pp_digest: int,
    u2: AllocatedR1CSInstance<E>,
    nifs: AllocatedNIFS<E>,
    cs: CsView,
    x: Assignment,
)
    requires
        cs.p == E::Base::modulus(),
        cs.follows(x),
        u2.within(cs),
        u2.X@.len() == s.num_io,
    ensures
        ({
            let rho = reached::<E>(s, absorbed_inputs::<E>(pp_digest, id, u2.at(x)), nifs.at(x)).rho;
            rho % E::Scalar::modulus() == rho
        }),
        projected(u2.at(x).X, s.num_io, E::Base::modulus()) == u2.at(x).X,
{
    let p = E::Base::modulus();
    let q = E::Scalar::modulus();
    E::Scalar::modulus_bounds();
    let rho = reached::<E>(s, absorbed_inputs::<E>(pp_digest, id, u2.at(x)), nifs.at(x)).rho;
    let hash = hash_of::<E>();
    let start = absorbed_inputs::<E>(pp_digest, id, u2.at(x));
    let c = played(first_points(4), hash, p, opening::<E>(s, start).state, nifs.at(x).sc_proof_x.polys);
    let d = played(first_points(3), hash, p, seq![hash(c.state)], nifs.at(x).sc_proof_y.polys);
    lemma_challenge(hash(d.state), q);
    vstd::arithmetic::div_mod::lemma_small_mod(rho as nat, q as nat);
    assert(projected(u2.at(x).X, s.num_io, p) =~= u2.at(x).X) by {
        assert forall|i: int| 0 <= i < u2.X@.len() implies u2.at(x).X[i] % p == u2.at(x).X[i] by {
            lemma_at(u2.X@[i], cs, x);
            vstd::arithmetic::div_mod::lemma_small_mod(u2.at(x).X[i] as nat, p as nat);
        }
    }
}

impl<E: CircuitEngine> AllocatedFoldedInstance<E> {
    /// Folds an instance into this one, given the proof of the fold: no witness is read.
    #[verifier::rlimit(60)]
    pub fn fold_with_r1cs_holographic(
        &self,
        cs: &mut ConstraintSystem<E::Base>,
        params: &AllocatedNum<E::Base>,
        structure: &GlobalStructure<E>,
        predicate_id: usize,
        predicate_id_num: &AllocatedNum<E::Base>,
        u: &AllocatedR1CSInstance<E>,
        nifs: &AllocatedNIFS<E>,
        ro_consts: &<E::RO as RandomOracle<E::Base>>::Constants,
    ) -> (r: Result<Self, SynthesisError>)
        requires
            old(cs)@.wf(),
            structure.wf(),
            structure@.num_io == 2,
            predicate_id < structure@.len(),
            self.within(old(cs)@),
            self.shaped(structure@),
            params.within(old(cs)@),
            predicate_id_num.within(old(cs)@),
            u.within(old(cs)@),
            u.X@.len() == 2,
            nifs.within(old(cs)@),
            nifs.shaped(structure@),
        ensures
            r matches Ok(a) ==> (final(cs)@.layout(), a.wires()) == lay_fold::<E>(
                old(cs)@.layout(),
                sizes(structure@),
                self.wires(),
                params.variable,
                predicate_id_num.variable,
                u.wires(),
                nifs.wires(),
                E::Base::modulus(),
            ),
            r matches Ok(a) ==> forall|x: Assignment| #[trigger]
                final(cs)@.follows(x) && final(cs)@.keeps(x) && self.points_at(x) && u.comm_W.is_point_at(x) ==> {
                    &&& a.points_at(x)
                    &&& a.at(x) == folded_anyway::<E>(
                        structure@,
                        params.at(x),
                        predicate_id_num.at(x),
                        predicate_id as int,
                        self.at(x),
                        u.at(x),
                        nifs.at(x),
                    )
                },
            step(old(cs)@, final(cs)@),
            final(cs).witness == old(cs).witness,
            final(cs)@.inputs == old(cs)@.inputs,
            r is Ok,
            r matches Ok(a) ==> {
                &&& a.within(final(cs)@)
                &&& a.shaped(structure@)
                &&& forall|x: Assignment| #[trigger]
                    final(cs)@.honors(x) && self.points_at(x) && u.comm_W.is_point_at(x) ==> {
                        &&& predicate_id_num.at(x) == predicate_id
                        &&& a.points_at(x)
                        &&& verified::<E>(
                            structure@,
                            params.at(x),
                            predicate_id as int,
                            self.at(x),
                            u.at(x),
                            nifs.at(x),
                        ) == Some(a.at(x))
                    }
            },
            final(cs)@.satisfied() == (old(cs)@.satisfied() && predicate_id_num.value.val() == predicate_id
                && verified::<E>(
                structure@,
                params.value.val(),
                predicate_id as int,
                self.values(),
                u.values(),
                nifs.values(),
            ) is Some),
    {
        proof {
            reveal(lay_fold);
        }
        let ghost before = cs@;
        let ghost s = structure@;
        let ghost id = predicate_id as int;
        let expected = AllocatedNum::allocate(cs, &E::Base::from_u64(predicate_id as u64));
        let ghost s1 = cs@;
        cs.fix(expected.variable, Ghost(id));
        let ghost s2 = cs@;
        proof {
            lemma_step_trans(before, s1, s2);
        }
        assert_equal(cs, predicate_id_num, &expected);
        let ghost s3 = cs@;
        let mut ro = OracleCircuit::<E>::new();
        ro.absorb(params);
        ro.absorb(predicate_id_num);
        u.absorb_in_ro(&mut ro);
        let ghost start = ro.state@;
        let ghost s7 = cs@;
        proof {
            assert(start =~= seq![*params, *predicate_id_num] + u.elements());
            assert(wires(start) =~= seq![params.variable, predicate_id_num.variable] + u.wires().comm_W.list()
                + u.wires().X);
            lemma_step_trans(before, s2, s3);
            lemma_folded_within(*self, before, s7);
            lemma_nifs_within(*nifs, before, s7);
            assert(u.within(s7));
            assert(all_within(start, s7)) by {
                let ue = u.elements();
                assert(all_within(ue, s7)) by {
                    assert(ue[0] == u.comm_W.x && ue[1] == u.comm_W.y && ue[2] == u.comm_W.is_infinity);
                    assert(u.X@[0].within(s7) && u.X@[1].within(s7));
                    assert(ue[3] == u.X@[0] && ue[4] == u.X@[1]);
                }
                assert forall|i: int| 0 <= i < start.len() implies (#[trigger] start[i]).within(s7) by {
                    if 2 <= i {
                        assert(start[i] == ue[i - 2]);
                    }
                }
            }
        }
        let (r_x, r_y, rho, bits) = verify_checks(
            cs,
            ro_consts,
            &mut ro,
            &structure.index,
            &self.r_x,
            &self.r_y,
            &self.v,
            nifs,
        );
        let ghost s8 = cs@;
        proof {
            lemma_step_trans(before, s7, s8);
            lemma_folded_within(*self, before, s8);
            assert(u.comm_W.within(s8));
        }
        let W = fold_point(cs, &self.W, &u.comm_W, &bits);
        let ghost s9 = cs@;
        proof {
            lemma_step_trans(before, s8, s9);
            lemma_folded_within(*self, before, s9);
        }
        let basis = unit_nums(cs, predicate_id, structure.index.predicates.len());
        let ghost s91 = cs@;
        proof {
            lemma_step_trans(before, s9, s91);
            lemma_step_trans(s8, s9, s91);
            lemma_folded_within(*self, before, s91);
        }
        let lambda = fold_nums(cs, &self.lambda, &basis, &rho);
        let ghost s10 = cs@;
        proof {
            lemma_step_trans(s9, s91, s10);
            lemma_step_trans(s8, s9, s10);
            lemma_step_trans(before, s8, s10);
        }
        let u_fold = self.u.add(cs, &rho);
        let ghost s13 = cs@;
        proof {
            lemma_step_trans(before, s10, s13);
            lemma_step_trans(s8, s10, s13);
            lemma_folded_within(*self, before, s13);
            assert(all_within(u.X@, s13));
        }
        let X = fold_nums(cs, &self.X, &u.X, &rho);
        let ghost s14 = cs@;
        proof {
            lemma_step_trans(before, s13, s14);
            lemma_step_trans(s8, s13, s14);
            lemma_nifs_within(*nifs, before, s14);
        }
        let v = fold_nums(cs, &nifs.epsilons, &nifs.thetas, &rho);
        let r = AllocatedFoldedInstance { W, lambda, u: u_fold, X, r_x, r_y, v };
        proof {
            let after = cs@;
            lemma_step_trans(before, s14, after);
            lemma_step_trans(s8, s14, after);
            lemma_step_trans(s13, s14, after);
            lemma_step_trans(s10, s13, after);
            lemma_step_trans(s9, s10, after);
            lemma_step_trans(s7, s8, after);
            lemma_folded_within(*self, before, after);
            lemma_step_trans(s91, s10, after);
            assert(r.within(after));
            assert forall|x: Assignment| #[trigger]
                after.follows(x) && after.keeps(x) && self.points_at(x) && u.comm_W.is_point_at(x) implies {
                &&& r.points_at(x)
                &&& r.at(x) == folded_anyway::<E>(
                    s,
                    params.at(x),
                    predicate_id_num.at(x),
                    id,
                    self.at(x),
                    u.at(x),
                    nifs.at(x),
                )
            } by {
                assert(s14.follows(x) && s13.follows(x) && s10.follows(x) && s91.follows(x) && s91.keeps(x));
                assert(s9.follows(x) && s8.follows(x) && s7.follows(x));
                lemma_start(predicate_id_num.at(x), *params, *predicate_id_num, *u, s7, x);
                lemma_reached_at(s, predicate_id_num.at(x), params.at(x), *u, *nifs, s7, x);
                let want = folded_anyway::<E>(
                    s,
                    params.at(x),
                    predicate_id_num.at(x),
                    id,
                    self.at(x),
                    u.at(x),
                    nifs.at(x),
                );
                let p = E::Base::modulus();
                E::Base::modulus_bounds();
                assert(r.at(x).lambda =~= want.lambda) by {
                    assert forall|k: int| 0 <= k < s.len() implies #[trigger] r.at(x).lambda[k] == want.lambda[k] by {
                        lemma_at(self.lambda@[k], after, x);
                        let c = self.lambda@[k].at(x);
                        assert(ats(basis@, x)[k] == unit(id, s.len() as int)[k]);
                        let t = rho.at(x);
                        assert(t * 1 == t && t * 0 == 0);
                        vstd::arithmetic::div_mod::lemma_small_mod(c as nat, p as nat);
                    }
                }
            }
            assert forall|x: Assignment| #[trigger]
                after.honors(x) && self.points_at(x) && u.comm_W.is_point_at(x) implies {
                &&& predicate_id_num.at(x) == predicate_id
                &&& r.points_at(x)
                &&& verified::<E>(
                    s,
                    params.at(x),
                    id,
                    self.at(x),
                    u.at(x),
                    nifs.at(x),
                ) == Some(r.at(x))
            } by {
                assert(s14.holds(x) && s13.holds(x) && s10.holds(x) && s9.holds(x));
                assert(s8.holds(x) && s7.holds(x) && s3.holds(x));
                assert(s14.follows(x) && s13.follows(x) && s10.follows(x));
                assert(s9.follows(x) && s8.follows(x) && s7.follows(x) && after.follows(x));
                assert(s8.keeps(x) && s7.keeps(x) && s3.keeps(x) && s2.keeps(x));
                assert(predicate_id_num.at(x) == id);
                lemma_start(id, *params, *predicate_id_num, *u, s7, x);
                assert(verified::<E>(s, params.at(x), id, self.at(x), u.at(x), nifs.at(x)) == Some(
                    folded_anyway::<E>(s, params.at(x), id, id, self.at(x), u.at(x), nifs.at(x)),
                ));
            }
            // The values given.
            let own = s7.own();
            lemma_own_agrees(s7);
            if predicate_id_num.value.val() == id {
                lemma_instance_ats(*u, s7, own);
                lemma_folded_ats(*self, s7, own);
                lemma_own(*predicate_id_num, s7);
                lemma_own(*params, s7);
                lemma_start(id, *params, *predicate_id_num, *u, s7, own);
                lemma_ats(start, s7, own);
            }
        }
        Ok(r)
    }
}

/// The circuit accepts what the prover of a fold sends, and comes to the same folded instance: where the running
/// instance is satisfied by its witness, and the incoming vector satisfies the rows of its predicate in the base
/// field. The circuit reads the digest and the public values as elements of the base field.
pub proof fn honest_fold_satisfies_circuit<E: CurveEngine>(
    s: StructureView,
    ck: E::CommitmentKey,
    pp_digest: int,
    id: int,
    u1: FoldedInstanceView,
    w1: FoldedWitnessView,
    u2: InstanceView,
    w2: WitnessView,
)
    requires
        s.wf(),
        0 <= id < s.len(),
        u2.X.len() == s.num_io,
        folded_sat::<E>(s, ck, u1, w1) is Ok,
        rows_satisfied(s, id, incoming_z(s, u2, w2, E::Base::modulus()), E::Base::modulus()),
    ensures
        ({
            let p = E::Base::modulus();
            let f = proved::<E>(s, pp_digest, id, u1, w1, u2, w2);
            verified::<E>(
                s,
                pp_digest % p,
                id,
                u1,
                InstanceView { comm_W: u2.comm_W, X: projected(u2.X, s.num_io, p) },
                f.proof_,
            ) == Some(f.instance)
        }),
{
    fold_is_accepted::<E>(s, ck, pp_digest, id, u1, w1, u2, w2);
    let p = E::Base::modulus();
    E::Base::modulus_bounds();
    lemma_read_in_base::<E>(s, pp_digest, id, u2);
    let v2 = InstanceView { comm_W: u2.comm_W, X: projected(u2.X, s.num_io, p) };
    assert(projected(v2.X, s.num_io, p) =~= projected(u2.X, s.num_io, p)) by {
        assert forall|i: int| 0 <= i < u2.X.len() implies #[trigger] v2.X[i] % p == u2.X[i] % p by {
            vstd::arithmetic::div_mod::lemma_mod_twice(u2.X[i], p);
        }
    }
}

/// An oracle absorbs a digest and public values as elements of the base field.
pub(crate) proof fn lemma_read_in_base<E: CurveEngine>(s: StructureView, pp_digest: int, id: int, u2: InstanceView)
    requires
        u2.X.len() == s.num_io,
    ensures
        absorbed_inputs::<E>(pp_digest, id, u2) == absorbed_inputs::<E>(
            pp_digest % E::Base::modulus(),
            id,
            InstanceView { comm_W: u2.comm_W, X: projected(u2.X, s.num_io, E::Base::modulus()) },
        ),
{
    let p = E::Base::modulus();
    E::Base::modulus_bounds();
    let v2 = InstanceView { comm_W: u2.comm_W, X: projected(u2.X, s.num_io, p) };
    let start = absorbed_inputs::<E>(pp_digest, id, u2);
    let start2 = absorbed_inputs::<E>(pp_digest % p, id, v2);
    assert(start =~= start2) by {
        vstd::arithmetic::div_mod::lemma_mod_twice(pp_digest, p);
        let a = instance_elements::<E>(u2);
        let b = instance_elements::<E>(v2);
        assert forall|i: int| 0 <= i < u2.X.len() implies #[trigger] v2.X[i] % p == u2.X[i] % p by {
            vstd::arithmetic::div_mod::lemma_mod_twice(u2.X[i], p);
        }
        assert(a =~= b);
    }
}

/// What the gadget of a fold comes to on what an honest prover sends is the prover's folded instance.
pub proof fn honest_fold_is_reached<E: CurveEngine>(
    s: StructureView,
    ck: E::CommitmentKey,
    pp_digest: int,
    id: int,
    u1: FoldedInstanceView,
    w1: FoldedWitnessView,
    u2: InstanceView,
    w2: WitnessView,
)
    requires
        s.wf(),
        0 <= id < s.len(),
        u2.X.len() == s.num_io,
        folded_sat::<E>(s, ck, u1, w1) is Ok,
        rows_satisfied(s, id, incoming_z(s, u2, w2, E::Base::modulus()), E::Base::modulus()),
    ensures
        ({
            let p = E::Base::modulus();
            let f = proved::<E>(s, pp_digest, id, u1, w1, u2, w2);
            folded_anyway::<E>(
                s,
                pp_digest % p,
                id,
                id,
                u1,
                InstanceView { comm_W: u2.comm_W, X: projected(u2.X, s.num_io, p) },
                f.proof_,
            ) == f.instance
        }),
{
    let p = E::Base::modulus();
    let f = proved::<E>(s, pp_digest, id, u1, w1, u2, w2);
    let v2 = InstanceView { comm_W: u2.comm_W, X: projected(u2.X, s.num_io, p) };
    honest_fold_satisfies_circuit::<E>(s, ck, pp_digest, id, u1, w1, u2, w2);
    lemma_transcript_points::<E>(
        s,
        absorbed_inputs::<E>(pp_digest, id, u2),
        id,
        running(u1, w1),
        incoming_z(s, u2, w2, p),
    );
    accepted_is_reached::<E>(
        s,
        absorbed_inputs::<E>(pp_digest % p, id, v2),
        u1.r_x,
        u1.r_y,
        u1.v,
        f.proof_,
    );
}

} // verus!
