//! Instances and witnesses in a constraint system.
use crate::cs::{lemma_step_trans, step, Assignment, ConstraintSystem, CsView, Variable};
use crate::engine::{vals, CurveEngine, CurveGroup};
use crate::errors::SynthesisError;
use crate::evaluation::lemma_step_refl;
use crate::field::FieldElement;
use crate::fragment::{is_point, log_of, point_of, CircuitEngine};
use crate::gadgets::{
    all_within, alloc_one, alloc_zero, ats, conditionally_select, conditionally_select_vec, lemma_at, wires,
    AllocatedBit, AllocatedNum,
};
use crate::matrix::at;
use crate::nifs::{NIFSView, SumcheckProof, SumcheckProofView, NIFS};
use crate::oracle::OracleCircuit;
use crate::points::{lemma_point_own, AllocatedPoint};
use crate::proof_circuit::{lemma_ats, nvals, AllocatedNIFS, AllocatedSumcheckProof};
use crate::r1cs::{InstanceView, R1CSInstance};
use crate::relation::{
    commitment_elements, folded_instance_elements, instance_elements, point_elements, resized, views3, zero_claims,
    FoldedInstance, FoldedInstanceView, GlobalStructure, StructureView,
};
use crate::layout::{
    lay_instance, lay_lists, lay_nifs, lay_point, lay_sumcheck_proof, lay_vars, lay_zeros, InstanceWires, Layout,
};
use vstd::prelude::*;

verus! {

/// The residues that are given, none if there are no values.
pub open spec fn given<F: FieldElement>(values: Option<&Vec<F>>) -> Seq<int> {
    match values {
        Some(v) => vals(v@),
        None => Seq::empty(),
    }
}

/// New numbers with the values given, and zero where there are none.
pub fn alloc_num_vec<F: FieldElement>(cs: &mut ConstraintSystem<F>, values: Option<&Vec<F>>, len: usize) -> (r: Vec<
    AllocatedNum<F>,
>)
    requires
        old(cs)@.wf(),
    ensures
        (final(cs)@.layout(), wires(r@)) == lay_vars(old(cs)@.layout(), len as int),
        step(old(cs)@, final(cs)@),
        final(cs)@.satisfied() == old(cs)@.satisfied(),
        final(cs).witness == old(cs).witness,
        final(cs)@.inputs == old(cs)@.inputs,
        all_within(r@, final(cs)@),
        r@.len() == len,
        nvals(r@) == resized(given(values), len as int),
{
    let ghost before = cs@;
    let mut r: Vec<AllocatedNum<F>> = Vec::new();
    let mut i: usize = 0;
    proof {
        lemma_step_refl(before);
    }
    while i < len
        invariant
            cs@.layout() == (Layout { inputs: before.layout().inputs, aux: before.layout().aux + i, constraints: before.layout().constraints }),
            forall|k: int| 0 <= k < i ==> (#[trigger] r@[k]).variable == Variable::Aux((before.aux.len() + k) as usize),
            i <= len,
            step(before, cs@),
            cs@.satisfied() == before.satisfied(),
            cs.witness == old(cs).witness,
            cs@.inputs == before.inputs,
            all_within(r@, cs@),
            r@.len() == i,
            forall|k: int| 0 <= k < i ==> (#[trigger] r@[k]).value.val() == at(given(values), k),
        decreases len - i,
    {
        let ghost mid = cs@;
        let ghost first = r@;
        let value = match values {
            Some(v) => if i < v.len() {
                v[i]
            } else {
                F::from_u64(0)
            },
            None => F::from_u64(0),
        };
        let n = AllocatedNum::allocate(cs, &value);
        r.push(n);
        proof {
            lemma_step_trans(before, mid, cs@);
            assert forall|k: int| 0 <= k < r@.len() implies (#[trigger] r@[k]).within(cs@) by {
                if k < i {
                    assert(first[k].within(mid));
                }
            }
        }
        i = i + 1;
    }
    assert(nvals(r@) =~= resized(given(values), len as int));
    proof {
        reveal(lay_vars);
        assert(wires(r@) =~= lay_vars(before.layout(), len as int).1);
    }
    r
}

/// An instance in a system.
pub struct AllocatedR1CSInstance<E: CurveGroup> {
    pub comm_W: AllocatedPoint<E>,
    pub X: Vec<AllocatedNum<E::Base>>,
}

/// A witness in a system, in the base field.
pub struct AllocatedProjectedWitness<E: CurveGroup> {
    pub W: Vec<AllocatedNum<E::Base>>,
}

/// The coefficients of the index in a system, in the base field.
pub struct AllocatedIndexWitness<E: CurveGroup> {
    pub lambda: Vec<AllocatedNum<E::Base>>,
}

/// A folded instance in a system.
pub struct AllocatedFoldedInstance<E: CurveGroup> {
    pub W: AllocatedPoint<E>,
    pub M: [AllocatedPoint<E>; 3],
    pub u: AllocatedNum<E::Base>,
    pub X: Vec<AllocatedNum<E::Base>>,
    pub r_x: Vec<AllocatedNum<E::Base>>,
    pub r_y: Vec<AllocatedNum<E::Base>>,
    pub v: Vec<AllocatedNum<E::Base>>,
}

/// The coordinates of a point are what absorbing it appends.
pub proof fn lemma_point_elements<E: CurveGroup>(p: AllocatedPoint<E>, x: Assignment)
    requires
        p.is_point_at(x),
    ensures
        ats(p.nums(), x) == commitment_elements::<E>(p.log_at(x)),
{
    let s = ats(p.nums(), x);
    assert(s =~= point_elements(point_of(s, 0)));
}

impl<E: CurveGroup> AllocatedR1CSInstance<E> {
    /// The variables.
    pub open spec fn wires(&self) -> InstanceWires {
        InstanceWires { comm_W: self.comm_W.wires(), X: wires(self.X@) }
    }

    /// The instance under an assignment.
    pub open spec fn at(&self, x: Assignment) -> InstanceView {
        InstanceView { comm_W: self.comm_W.log_at(x), X: ats(self.X@, x) }
    }

    /// The instance that was given.
    pub open spec fn values(&self) -> InstanceView {
        InstanceView { comm_W: log_of::<E>(self.comm_W.values(), 0), X: nvals(self.X@) }
    }

    /// Whether all numbers are of the system.
    pub open spec fn within(&self, cs: CsView) -> bool {
        &&& self.comm_W.within(cs)
        &&& all_within(self.X@, cs)
    }

    /// All numbers, as an oracle absorbs them.
    pub open spec fn elements(&self) -> Seq<AllocatedNum<E::Base>> {
        self.comm_W.nums() + self.X@
    }
}

impl<E: CurveGroup> AllocatedFoldedInstance<E> {
    /// The folded instance under an assignment.
    pub open spec fn at(&self, x: Assignment) -> FoldedInstanceView {
        FoldedInstanceView {
            comm_W: self.W.log_at(x),
            comm_M: seq![self.M[0].log_at(x), self.M[1].log_at(x), self.M[2].log_at(x)],
            u: self.u.at(x),
            X: ats(self.X@, x),
            r_x: ats(self.r_x@, x),
            r_y: ats(self.r_y@, x),
            v: ats(self.v@, x),
        }
    }

    /// The folded instance that was given.
    pub open spec fn values(&self) -> FoldedInstanceView {
        FoldedInstanceView {
            comm_W: log_of::<E>(self.W.values(), 0),
            comm_M: seq![
                log_of::<E>(self.M[0].values(), 0),
                log_of::<E>(self.M[1].values(), 0),
                log_of::<E>(self.M[2].values(), 0),
            ],
            u: self.u.value.val(),
            X: nvals(self.X@),
            r_x: nvals(self.r_x@),
            r_y: nvals(self.r_y@),
            v: nvals(self.v@),
        }
    }

    /// Whether all numbers are of the system.
    pub open spec fn within(&self, cs: CsView) -> bool {
        &&& self.W.within(cs)
        &&& self.M[0].within(cs)
        &&& self.M[1].within(cs)
        &&& self.M[2].within(cs)
        &&& self.u.within(cs)
        &&& all_within(self.X@, cs)
        &&& all_within(self.r_x@, cs)
        &&& all_within(self.r_y@, cs)
        &&& all_within(self.v@, cs)
    }

    /// Whether the parts have the lengths that the structure asks for.
    pub open spec fn shaped(&self, s: StructureView) -> bool {
        &&& self.X@.len() == s.num_io
        &&& self.r_x@.len() == s.s_max
        &&& self.r_y@.len() == s.s_prime_max
        &&& self.v@.len() == 4
    }

    /// Whether the commitments are points under an assignment.
    pub open spec fn points_at(&self, x: Assignment) -> bool {
        &&& self.W.is_point_at(x)
        &&& self.M[0].is_point_at(x)
        &&& self.M[1].is_point_at(x)
        &&& self.M[2].is_point_at(x)
    }

    /// Whether every commitment that is not marked as the point at infinity is a point under an assignment.
    pub open spec fn checked_at(&self, x: Assignment) -> bool {
        &&& self.W.is_infinity.at(x) == 0 ==> self.W.is_point_at(x)
        &&& self.M[0].is_infinity.at(x) == 0 ==> self.M[0].is_point_at(x)
        &&& self.M[1].is_infinity.at(x) == 0 ==> self.M[1].is_point_at(x)
        &&& self.M[2].is_infinity.at(x) == 0 ==> self.M[2].is_point_at(x)
    }

    /// All numbers, as an oracle absorbs them.
    pub open spec fn elements(&self) -> Seq<AllocatedNum<E::Base>> {
        self.W.nums() + self.M[0].nums() + self.M[1].nums() + self.M[2].nums() + seq![self.u] + self.X@ + self.r_x@
            + self.r_y@ + self.v@
    }
}

/// What absorbing an instance appends is what its numbers are.
pub proof fn lemma_instance_elements<E: CurveGroup>(u: AllocatedR1CSInstance<E>, cs: CsView, x: Assignment)
    requires
        u.within(cs),
        cs.follows(x),
        cs.p == E::Base::modulus(),
        u.comm_W.is_point_at(x),
    ensures
        ats(u.elements(), x) == instance_elements::<E>(u.at(x)),
{
    lemma_point_elements(u.comm_W, x);
    let got = ats(u.elements(), x);
    let want = instance_elements::<E>(u.at(x));
    assert(got.len() == want.len());
    assert forall|i: int| 0 <= i < got.len() implies got[i] == want[i] by {
        if i < 3 {
            assert(got[i] == ats(u.comm_W.nums(), x)[i]);
        } else {
            let n = u.X@[i - 3];
            assert(n.within(cs));
            lemma_at(n, cs, x);
            vstd::arithmetic::div_mod::lemma_small_mod(n.at(x) as nat, cs.p as nat);
        }
    }
    assert(got =~= want);
}

/// What absorbing a folded instance appends is what its numbers are.
pub proof fn lemma_folded_elements<E: CurveGroup>(u: AllocatedFoldedInstance<E>, x: Assignment)
    requires
        u.points_at(x),
    ensures
        ats(u.elements(), x) == folded_instance_elements::<E>(u.at(x)),
{
    lemma_point_elements(u.W, x);
    lemma_point_elements(u.M[0], x);
    lemma_point_elements(u.M[1], x);
    lemma_point_elements(u.M[2], x);
    let got = ats(u.elements(), x);
    let parts = ats(u.W.nums(), x) + (ats(u.M[0].nums(), x) + ats(u.M[1].nums(), x) + ats(u.M[2].nums(), x)) + seq![
        u.u.at(x),
    ] + ats(u.X@, x) + ats(u.r_x@, x) + ats(u.r_y@, x) + ats(u.v@, x);
    assert(got =~= parts);
    assert(parts == folded_instance_elements::<E>(u.at(x)));
}

/// Where an assignment agrees with the values given, it gives an instance its values.
pub proof fn lemma_instance_ats<E: CurveGroup>(u: AllocatedR1CSInstance<E>, cs: CsView, x: Assignment)
    requires
        u.within(cs),
        cs.agrees(x),
    ensures
        u.at(x) == u.values(),
        u.comm_W.is_point_at(x),
{
    lemma_point_own(u.comm_W, cs, x);
    lemma_ats(u.X@, cs, x);
}

/// Where an assignment agrees with the values given, it gives a folded instance its values.
pub proof fn lemma_folded_ats<E: CurveGroup>(u: AllocatedFoldedInstance<E>, cs: CsView, x: Assignment)
    requires
        u.within(cs),
        cs.agrees(x),
    ensures
        u.at(x) == u.values(),
        u.points_at(x),
{
    lemma_point_own(u.W, cs, x);
    lemma_point_own(u.M[0], cs, x);
    lemma_point_own(u.M[1], cs, x);
    lemma_point_own(u.M[2], cs, x);
    lemma_at(u.u, cs, x);
    lemma_ats(u.X@, cs, x);
    lemma_ats(u.r_x@, cs, x);
    lemma_ats(u.r_y@, cs, x);
    lemma_ats(u.v@, cs, x);
    assert(u.at(x).comm_M =~= u.values().comm_M);
}

impl<E: CircuitEngine> AllocatedR1CSInstance<E> {
    /// A new instance, of two public values. Where values are wanted there has to be one.
    pub fn allocate(cs: &mut ConstraintSystem<E::Base>, u: Option<&R1CSInstance<E>>) -> (r: Result<
        Self,
        SynthesisError,
    >)
        requires
            old(cs)@.wf(),
            u matches Some(u) ==> u.X.len() >= 2,
        ensures
            r matches Ok(a) ==> (final(cs)@.layout(), a.wires()) == lay_instance::<E>(old(cs)@.layout(), E::Base::modulus()),
            step(old(cs)@, final(cs)@),
            final(cs)@.satisfied() == old(cs)@.satisfied(),
            final(cs).witness == old(cs).witness,
            final(cs)@.inputs == old(cs)@.inputs,
            r is Err <==> old(cs).witness && u is None,
            r matches Err(e) ==> e == SynthesisError::AssignmentMissing,
            r matches Ok(a) ==> {
                &&& a.within(final(cs)@)
                &&& a.X@.len() == 2
                &&& a.values() == match u {
                    Some(u) => InstanceView {
                        comm_W: u@.comm_W,
                        X: seq![u@.X[0] % E::Base::modulus(), u@.X[1] % E::Base::modulus()],
                    },
                    None => InstanceView { comm_W: 0, X: seq![0, 0] },
                }
                &&& forall|x: Assignment| #[trigger]
                    final(cs)@.follows(x) && a.comm_W.is_infinity.at(x) == 0 ==> a.comm_W.is_point_at(x)
            },
    {
        proof {
            reveal(lay_instance);
        }
        let ghost before = cs@;
        let comm_W = AllocatedPoint::allocate(
            cs,
            match u {
                Some(u) => Some(&u.comm_W),
                None => None,
            },
        );
        let ghost s1 = cs@;
        comm_W.check_on_curve(cs);
        let ghost s2 = cs@;
        proof {
            lemma_step_trans(before, s1, s2);
        }
        let mut values: Vec<E::Base> = Vec::new();
        match u {
            Some(u) => {
                values.push(E::scalar_as_base(&u.X[0]));
                values.push(E::scalar_as_base(&u.X[1]));
            },
            None => {
                if cs.witness {
                    return Err(SynthesisError::AssignmentMissing);
                }
            },
        }
        let X = alloc_num_vec(cs, Some(&values), 2);
        let r = AllocatedR1CSInstance { comm_W, X };
        proof {
            lemma_step_trans(before, s2, cs@);
            let want = match u {
                Some(u) => seq![u@.X[0] % E::Base::modulus(), u@.X[1] % E::Base::modulus()],
                None => seq![0, 0],
            };
            assert(r.values().X =~= want);
            assert forall|x: Assignment| #[trigger]
                cs@.follows(x) && r.comm_W.is_infinity.at(x) == 0 implies r.comm_W.is_point_at(x) by {
                assert(s2.follows(x));
            }
        }
        Ok(r)
    }

    /// Absorbs the instance.
    pub fn absorb_in_ro(&self, ro: &mut OracleCircuit<E>)
        ensures
            final(ro).state@ == old(ro).state@ + self.elements(),
    {
        ro.absorb_point(&self.comm_W);
        ro.absorb_all(&self.X);
        assert(ro.state@ =~= old(ro).state@ + self.elements());
    }
}

impl<E: CircuitEngine> AllocatedProjectedWitness<E> {
    /// A new witness of some length, with the values given, and zero where there are none.
    pub fn allocate(cs: &mut ConstraintSystem<E::Base>, witness: Option<&Vec<E::Base>>, num_vars: usize) -> (r: Result<
        Self,
        SynthesisError,
    >)
        requires
            old(cs)@.wf(),
        ensures
            step(old(cs)@, final(cs)@),
            final(cs)@.satisfied() == old(cs)@.satisfied(),
            final(cs).witness == old(cs).witness,
            final(cs)@.inputs == old(cs)@.inputs,
            r is Ok,
            r matches Ok(a) ==> {
                &&& all_within(a.W@, final(cs)@)
                &&& a.W@.len() == num_vars
                &&& nvals(a.W@) == resized(given(witness), num_vars as int)
            },
    {
        Ok(AllocatedProjectedWitness { W: alloc_num_vec(cs, witness, num_vars) })
    }
}

impl<E: CircuitEngine> AllocatedIndexWitness<E> {
    /// New coefficients, with the values given, and zero where there are none.
    pub fn allocate(cs: &mut ConstraintSystem<E::Base>, lambda: Option<&Vec<E::Base>>, num_predicates: usize) -> (r: Result<
        Self,
        SynthesisError,
    >)
        requires
            old(cs)@.wf(),
        ensures
            step(old(cs)@, final(cs)@),
            final(cs)@.satisfied() == old(cs)@.satisfied(),
            final(cs).witness == old(cs).witness,
            final(cs)@.inputs == old(cs)@.inputs,
            r is Ok,
            r matches Ok(a) ==> {
                &&& all_within(a.lambda@, final(cs)@)
                &&& a.lambda@.len() == num_predicates
                &&& nvals(a.lambda@) == resized(given(lambda), num_predicates as int)
            },
    {
        Ok(AllocatedIndexWitness { lambda: alloc_num_vec(cs, lambda, num_predicates) })
    }
}

/// Notes that numbers stand for the constants that they were given.
pub(crate) fn fix_nums<F: FieldElement>(cs: &mut ConstraintSystem<F>, nums: &Vec<AllocatedNum<F>>)
    requires
        old(cs)@.wf(),
        all_within(nums@, old(cs)@),
    ensures
        final(cs)@.layout() == old(cs)@.layout(),
        step(old(cs)@, final(cs)@),
        final(cs)@.satisfied() == old(cs)@.satisfied(),
        final(cs).witness == old(cs).witness,
        final(cs)@.inputs == old(cs)@.inputs,
        forall|x: Assignment| #[trigger] final(cs)@.keeps(x) ==> ats(nums@, x) == nvals(nums@),
{
    let ghost before = cs@;
    let mut i: usize = 0;
    proof {
        lemma_step_refl(before);
    }
    while i < nums.len()
        invariant
            cs@.layout() == before.layout(),
            i <= nums.len(),
            all_within(nums@, before),
            step(before, cs@),
            cs@.satisfied() == before.satisfied(),
            cs.witness == old(cs).witness,
            cs@.inputs == before.inputs,
            forall|x: Assignment, k: int|
                #![trigger cs@.keeps(x), nums@[k]]
                cs@.keeps(x) && 0 <= k < i ==> nums@[k].at(x) == nums@[k].value.val(),
        decreases nums.len() - i,
    {
        let ghost mid = cs@;
        assert(nums@[i as int].within(before));
        cs.fix(nums[i].variable, Ghost(nums@[i as int].value.val()));
        proof {
            lemma_step_trans(before, mid, cs@);
            assert forall|x: Assignment, k: int|
                #![trigger cs@.keeps(x), nums@[k]]
                cs@.keeps(x) && 0 <= k < i + 1 implies nums@[k].at(x) == nums@[k].value.val() by {
                assert(mid.keeps(x));
            }
        }
        i = i + 1;
    }
    proof {
        assert forall|x: Assignment| #[trigger] cs@.keeps(x) implies ats(nums@, x) == nvals(nums@) by {
            assert(ats(nums@, x) =~= nvals(nums@));
        }
    }
}

/// A new point that stands for a commitment. No constraint binds its coordinates.
pub(crate) fn constant_point<E: CircuitEngine>(cs: &mut ConstraintSystem<E::Base>, c: &crate::engine::Commitment<E>) -> (r: AllocatedPoint<
    E,
>)
    requires
        old(cs)@.wf(),
    ensures
        (final(cs)@.layout(), r.wires()) == lay_point(old(cs)@.layout(), E::Base::modulus()),
        step(old(cs)@, final(cs)@),
        final(cs)@.satisfied() == old(cs)@.satisfied(),
        final(cs).witness == old(cs).witness,
        final(cs)@.inputs == old(cs)@.inputs,
        r.within(final(cs)@),
        log_of::<E>(r.values(), 0) == c@,
        forall|x: Assignment| #[trigger] final(cs)@.keeps(x) ==> r.is_point_at(x) && r.log_at(x) == c@,
{
    let ghost before = cs@;
    let r = AllocatedPoint::allocate(cs, Some(c));
    let ghost s1 = cs@;
    let nums = r.to_nums();
    proof {
        assert(nums@[0] == r.x && nums@[1] == r.y && nums@[2] == r.is_infinity);
    }
    fix_nums(cs, &nums);
    proof {
        lemma_step_trans(before, s1, cs@);
        assert(nvals(nums@) =~= r.values());
    }
    r
}

/// A folded instance with the parts of one that may be missing, brought to the lengths of a structure.
pub open spec fn given_instance(s: StructureView, inst: Option<FoldedInstanceView>) -> FoldedInstanceView {
    match inst {
        Some(u) => FoldedInstanceView {
            comm_W: u.comm_W,
            comm_M: u.comm_M,
            u: u.u,
            X: resized(u.X, s.num_io),
            r_x: resized(u.r_x, s.s_max as int),
            r_y: resized(u.r_y, s.s_prime_max as int),
            v: resized(u.v, 4),
        },
        None => empty_instance(s),
    }
}

/// The folded instance that has folded nothing.
pub open spec fn empty_instance(s: StructureView) -> FoldedInstanceView {
    FoldedInstanceView {
        comm_W: 0,
        comm_M: seq![0, 0, 0],
        u: 0,
        X: resized(Seq::empty(), s.num_io),
        r_x: resized(Seq::empty(), s.s_max as int),
        r_y: resized(Seq::empty(), s.s_prime_max as int),
        v: resized(Seq::empty(), 4),
    }
}

/// The folded instance that an instance makes up, with a witness that starts with the given value.
pub open spec fn started_instance(s: StructureView, id: int, u: InstanceView, first: int, p: int) -> FoldedInstanceView {
    FoldedInstanceView {
        comm_W: u.comm_W,
        comm_M: s.comm_M[id],
        u: 1,
        X: u.X,
        r_x: Seq::new(s.s_max, |i: int| 0int),
        r_y: Seq::new(s.s_prime_max, |i: int| 0int),
        v: zero_claims(s, id, first, p),
    }
}

/// New numbers that are zero and can be nothing else.
pub(crate) fn alloc_zeros<F: FieldElement>(cs: &mut ConstraintSystem<F>, len: usize) -> (r: Vec<AllocatedNum<F>>)
    requires
        old(cs)@.wf(),
    ensures
        (final(cs)@.layout(), wires(r@)) == lay_zeros(old(cs)@.layout(), len as int),
        step(old(cs)@, final(cs)@),
        final(cs)@.satisfied() == old(cs)@.satisfied(),
        final(cs).witness == old(cs).witness,
        final(cs)@.inputs == old(cs)@.inputs,
        all_within(r@, final(cs)@),
        r@.len() == len,
        forall|x: Assignment| #[trigger] final(cs)@.follows(x) ==> ats(r@, x) == Seq::new(len as nat, |i: int| 0int),
{
    let ghost before = cs@;
    let mut r: Vec<AllocatedNum<F>> = Vec::new();
    let mut i: usize = 0;
    proof {
        assert(wires(r@) =~= Seq::<Variable>::empty());
        lemma_step_refl(before);
    }
    while i < len
        invariant
            (cs@.layout(), wires(r@)) == lay_zeros(before.layout(), i as int),
            i <= len,
            step(before, cs@),
            cs@.satisfied() == before.satisfied(),
            cs.witness == old(cs).witness,
            cs@.inputs == before.inputs,
            all_within(r@, cs@),
            r@.len() == i,
            forall|x: Assignment, k: int|
                #![trigger cs@.follows(x), r@[k]]
                cs@.follows(x) && 0 <= k < i ==> r@[k].at(x) == 0,
        decreases len - i,
    {
        let ghost mid = cs@;
        let ghost first = r@;
        let n = alloc_zero(cs);
        r.push(n);
        proof {
            assert(wires(r@) =~= wires(first).push(n.variable));
            lemma_step_trans(before, mid, cs@);
            assert forall|k: int| 0 <= k < r@.len() implies (#[trigger] r@[k]).within(cs@) by {
                if k < i {
                    assert(first[k].within(mid));
                }
            }
            assert forall|x: Assignment, k: int|
                #![trigger cs@.follows(x), r@[k]]
                cs@.follows(x) && 0 <= k < i + 1 implies r@[k].at(x) == 0 by {
                if k < i {
                    assert(r@[k] == first[k]);
                    assert(mid.follows(x));
                }
            }
        }
        i = i + 1;
    }
    proof {
        assert forall|x: Assignment| #[trigger] cs@.follows(x) implies ats(r@, x) == Seq::new(
            len as nat,
            |i: int| 0int,
        ) by {
            assert(ats(r@, x) =~= Seq::new(len as nat, |i: int| 0int));
        }
    }
    r
}

/// The numbers of a folded instance stay numbers of the system.
pub proof fn lemma_folded_within<E: CurveGroup>(u: AllocatedFoldedInstance<E>, a: CsView, b: CsView)
    requires
        u.within(a),
        step(a, b),
    ensures
        u.within(b),
{
}

impl<E: CircuitEngine> AllocatedFoldedInstance<E> {
    /// A new folded instance with the lengths of a structure. Values that are missing are zero, and commitments
    /// that are missing the point at infinity.
    pub fn allocate(
        cs: &mut ConstraintSystem<E::Base>,
        inst: Option<&FoldedInstance<E>>,
        structure: &GlobalStructure<E>,
    ) -> (r: Result<Self, SynthesisError>)
        requires
            old(cs)@.wf(),
        ensures
            step(old(cs)@, final(cs)@),
            final(cs)@.satisfied() == old(cs)@.satisfied(),
            final(cs).witness == old(cs).witness,
            final(cs)@.inputs == old(cs)@.inputs,
            r is Ok,
            r matches Ok(a) ==> {
                &&& a.within(final(cs)@)
                &&& a.shaped(structure@)
                &&& a.values() == given_instance(
                    structure@,
                    match inst {
                        Some(u) => Some(u@),
                        None => None,
                    },
                )
                &&& forall|x: Assignment| #[trigger]
                    final(cs)@.follows(x) ==> {
                        &&& a.M[0].is_infinity.at(x) == 0 ==> a.M[0].is_point_at(x)
                        &&& a.M[1].is_infinity.at(x) == 0 ==> a.M[1].is_point_at(x)
                        &&& a.M[2].is_infinity.at(x) == 0 ==> a.M[2].is_point_at(x)
                    }
            },
    {
        let ghost before = cs@;
        let W = AllocatedPoint::allocate(
            cs,
            match inst {
                Some(inst) => Some(&inst.comm_W),
                None => None,
            },
        );
        let ghost s1 = cs@;
        let M0 = Self::alloc_index(cs, inst, 0);
        let ghost s2 = cs@;
        let M1 = Self::alloc_index(cs, inst, 1);
        let ghost s3 = cs@;
        let M2 = Self::alloc_index(cs, inst, 2);
        let ghost s4 = cs@;
        let u = AllocatedNum::allocate(
            cs,
            &match inst {
                Some(inst) => inst.u,
                None => E::Base::from_u64(0),
            },
        );
        let ghost s5 = cs@;
        let X = alloc_num_vec(
            cs,
            match inst {
                Some(inst) => Some(&inst.X),
                None => None,
            },
            structure.num_io,
        );
        let ghost s6 = cs@;
        let r_x = alloc_num_vec(
            cs,
            match inst {
                Some(inst) => Some(&inst.r_x),
                None => None,
            },
            structure.s_max,
        );
        let ghost s7 = cs@;
        let r_y = alloc_num_vec(
            cs,
            match inst {
                Some(inst) => Some(&inst.r_y),
                None => None,
            },
            structure.s_prime_max,
        );
        let ghost s8 = cs@;
        let v = alloc_num_vec(
            cs,
            match inst {
                Some(inst) => Some(&inst.v),
                None => None,
            },
            4,
        );
        let r = AllocatedFoldedInstance { W, M: [M0, M1, M2], u, X, r_x, r_y, v };
        proof {
            let after = cs@;
            lemma_step_trans(s7, s8, after);
            lemma_step_trans(s6, s7, after);
            lemma_step_trans(s5, s6, after);
            lemma_step_trans(s4, s5, after);
            lemma_step_trans(s3, s4, after);
            lemma_step_trans(s2, s3, after);
            lemma_step_trans(s1, s2, after);
            lemma_step_trans(before, s1, after);
            let want = given_instance(
                structure@,
                match inst {
                    Some(u) => Some(u@),
                    None => None,
                },
            );
            assert(r.values().comm_M =~= want.comm_M);
            assert forall|x: Assignment| #[trigger] after.follows(x) implies {
                &&& r.M[0].is_infinity.at(x) == 0 ==> r.M[0].is_point_at(x)
                &&& r.M[1].is_infinity.at(x) == 0 ==> r.M[1].is_point_at(x)
                &&& r.M[2].is_infinity.at(x) == 0 ==> r.M[2].is_point_at(x)
            } by {
                assert(s4.follows(x) && s3.follows(x) && s2.follows(x));
            }
        }
        Ok(r)
    }

    /// One of the commitments to the index, which has to be on the curve.
    fn alloc_index(cs: &mut ConstraintSystem<E::Base>, inst: Option<&FoldedInstance<E>>, j: usize) -> (r: AllocatedPoint<E>)
        requires
            old(cs)@.wf(),
            j < 3,
        ensures
            step(old(cs)@, final(cs)@),
            final(cs)@.satisfied() == old(cs)@.satisfied(),
            final(cs).witness == old(cs).witness,
            final(cs)@.inputs == old(cs)@.inputs,
            r.within(final(cs)@),
            log_of::<E>(r.values(), 0) == match inst {
                Some(u) => u.comm_M[j as int]@,
                None => 0,
            },
            forall|x: Assignment| #[trigger]
                final(cs)@.follows(x) && r.is_infinity.at(x) == 0 ==> r.is_point_at(x),
    {
        let ghost before = cs@;
        let r = AllocatedPoint::allocate(
            cs,
            match inst {
                Some(inst) => Some(&inst.comm_M[j]),
                None => None,
            },
        );
        let ghost s1 = cs@;
        r.check_on_curve(cs);
        proof {
            lemma_step_trans(before, s1, cs@);
        }
        r
    }

    /// The folded instance that has folded nothing, as constants. No constraint binds them.
    pub fn default(cs: &mut ConstraintSystem<E::Base>, structure: &GlobalStructure<E>) -> (r: Result<
        Self,
        SynthesisError,
    >)
        requires
            old(cs)@.wf(),
        ensures
            step(old(cs)@, final(cs)@),
            final(cs)@.satisfied() == old(cs)@.satisfied(),
            final(cs).witness == old(cs).witness,
            final(cs)@.inputs == old(cs)@.inputs,
            r is Ok,
            r matches Ok(a) ==> {
                &&& a.within(final(cs)@)
                &&& a.shaped(structure@)
                &&& a.values() == empty_instance(structure@)
                &&& forall|x: Assignment| #[trigger]
                    final(cs)@.keeps(x) ==> a.points_at(x) && a.at(x) == empty_instance(structure@)
            },
    {
        let ghost before = cs@;
        let inst = FoldedInstance::default(structure);
        let r = match Self::allocate(cs, Some(&inst), structure) {
            Ok(r) => r,
            Err(e) => {
                return Err(e);
            },
        };
        let ghost s1 = cs@;
        let nums = r.to_nums();
        proof {
            lemma_nums_within(r, s1);
        }
        fix_nums(cs, &nums);
        proof {
            let after = cs@;
            lemma_step_trans(before, s1, after);
            lemma_folded_within(r, s1, after);
            let e = empty_instance(structure@);
            assert(r.values().X =~= e.X);
            assert(r.values().r_x =~= e.r_x);
            assert(r.values().r_y =~= e.r_y);
            assert(r.values().v =~= e.v);
            assert forall|x: Assignment| #[trigger] after.keeps(x) implies r.points_at(x) && r.at(x) == e by {
                lemma_fixed_instance(r, x);
                lemma_folded_points(r, s1);
            }
        }
        Ok(r)
    }

    /// All numbers, as an oracle absorbs them.
    fn to_nums(&self) -> (r: Vec<AllocatedNum<E::Base>>)
        ensures
            r@ == self.elements(),
    {
        let mut all = OracleCircuit::<E>::new();
        self.absorb_nums(&mut all);
        assert(all.state@ =~= self.elements());
        all.state
    }

    /// Absorbs all numbers.
    fn absorb_nums(&self, ro: &mut OracleCircuit<E>)
        ensures
            final(ro).state@ == old(ro).state@ + self.elements(),
    {
        ro.absorb_point(&self.W);
        ro.absorb_point(&self.M[0]);
        ro.absorb_point(&self.M[1]);
        ro.absorb_point(&self.M[2]);
        ro.absorb(&self.u);
        ro.absorb_all(&self.X);
        ro.absorb_all(&self.r_x);
        ro.absorb_all(&self.r_y);
        ro.absorb_all(&self.v);
        assert(ro.state@ =~= old(ro).state@ + self.elements());
    }

    /// Absorbs the folded instance; its commitments have to be on the curve.
    pub fn absorb_in_ro(&self, cs: &mut ConstraintSystem<E::Base>, ro: &mut OracleCircuit<E>) -> (r: Result<
        (),
        SynthesisError,
    >)
        requires
            old(cs)@.wf(),
            self.within(old(cs)@),
        ensures
            step(old(cs)@, final(cs)@),
            final(cs)@.satisfied() == old(cs)@.satisfied(),
            final(cs).witness == old(cs).witness,
            final(cs)@.inputs == old(cs)@.inputs,
            r is Ok,
            final(ro).state@ == old(ro).state@ + self.elements(),
            forall|x: Assignment| #[trigger] final(cs)@.follows(x) ==> self.checked_at(x),
    {
        let ghost before = cs@;
        self.W.check_on_curve(cs);
        let ghost s1 = cs@;
        self.M[0].check_on_curve(cs);
        let ghost s2 = cs@;
        self.M[1].check_on_curve(cs);
        let ghost s3 = cs@;
        self.M[2].check_on_curve(cs);
        self.absorb_nums(ro);
        proof {
            lemma_step_trans(before, s1, s2);
            lemma_step_trans(before, s2, s3);
            lemma_step_trans(before, s3, cs@);
            assert forall|x: Assignment| #[trigger] cs@.follows(x) implies self.checked_at(x) by {
                assert(s3.follows(x) && s2.follows(x) && s1.follows(x));
            }
        }
        Ok(())
    }

    /// The folded instance that an instance and its witness make up.
    pub fn from_r1cs_instance_witness(
        cs: &mut ConstraintSystem<E::Base>,
        structure: &GlobalStructure<E>,
        predicate_id: usize,
        inst: &AllocatedR1CSInstance<E>,
        witness: &AllocatedProjectedWitness<E>,
    ) -> (r: Result<Self, SynthesisError>)
        requires
            old(cs)@.wf(),
            structure.wf(),
            predicate_id < structure@.len(),
            inst.within(old(cs)@),
            witness.W@.len() > 0,
            all_within(witness.W@, old(cs)@),
        ensures
            step(old(cs)@, final(cs)@),
            final(cs)@.satisfied() == old(cs)@.satisfied(),
            final(cs).witness == old(cs).witness,
            final(cs)@.inputs == old(cs)@.inputs,
            r is Ok,
            r matches Ok(a) ==> {
                &&& a.within(final(cs)@)
                &&& a.X@ == inst.X@
                &&& a.r_x@.len() == structure@.s_max
                &&& a.r_y@.len() == structure@.s_prime_max
                &&& a.v@.len() == 4
                &&& a.W == inst.comm_W
                &&& forall|x: Assignment| #[trigger]
                    final(cs)@.follows(x) && final(cs)@.keeps(x) ==> {
                        &&& a.points_at(x) == inst.comm_W.is_point_at(x)
                        &&& a.at(x) == started_instance(
                            structure@,
                            predicate_id as int,
                            inst.at(x),
                            witness.W@[0].at(x),
                            E::Base::modulus(),
                        )
                    }
            },
    {
        let ghost before = cs@;
        let ghost p = E::Base::modulus();
        let ghost id = predicate_id as int;
        let u = alloc_one(cs);
        let ghost s1 = cs@;
        let r_x = alloc_zeros(cs, structure.s_max);
        let ghost s2 = cs@;
        let r_y = alloc_zeros(cs, structure.s_prime_max);
        let ghost s3 = cs@;
        let predicate = &structure.predicates[predicate_id];
        proof {
            lemma_step_trans(s1, s2, s3);
        }
        let m0 = u.mul_const(cs, &predicate.matrix_at_zero[0]);
        let ghost s4 = cs@;
        let m1 = u.mul_const(cs, &predicate.matrix_at_zero[1]);
        let ghost s5 = cs@;
        let m2 = u.mul_const(cs, &predicate.matrix_at_zero[2]);
        let ghost s6 = cs@;
        let z_eval = witness.W[0];
        let c = structure.predicate_commitments(predicate_id);
        let M0 = constant_point(cs, &c[0]);
        let ghost s7 = cs@;
        let M1 = constant_point(cs, &c[1]);
        let ghost s8 = cs@;
        let M2 = constant_point(cs, &c[2]);
        let mut v: Vec<AllocatedNum<E::Base>> = Vec::new();
        v.push(m0);
        v.push(m1);
        v.push(m2);
        v.push(z_eval);
        let X = copy_nums(&inst.X);
        let r = AllocatedFoldedInstance { W: inst.comm_W.copied(), M: [M0, M1, M2], u, X, r_x, r_y, v };
        proof {
            let after = cs@;
            lemma_step_trans(s7, s8, after);
            lemma_step_trans(s6, s7, after);
            lemma_step_trans(s5, s6, after);
            lemma_step_trans(s4, s5, after);
            lemma_step_trans(s3, s4, after);
            lemma_step_trans(s2, s3, after);
            lemma_step_trans(s1, s2, after);
            lemma_step_trans(before, s1, after);
            assert(witness.W@[0].within(before));
            assert(all_within(r.v@, after)) by {
                assert(r.v@[0].within(s4));
                assert(r.v@[1].within(s5));
                assert(r.v@[2].within(s6));
            }
            assert(views3(c)[0] == c[0]@ && views3(c)[1] == c[1]@ && views3(c)[2] == c[2]@);
            E::Base::modulus_bounds();
            assert forall|x: Assignment| #[trigger] after.follows(x) && after.keeps(x) implies {
                &&& r.points_at(x) == inst.comm_W.is_point_at(x)
                &&& r.at(x) == started_instance(structure@, id, inst.at(x), witness.W@[0].at(x), p)
            } by {
                assert(s8.keeps(x) && s7.keeps(x));
                assert(s6.follows(x) && s5.follows(x) && s4.follows(x) && s3.follows(x) && s2.follows(x) && s1.follows(x));
                let want = started_instance(structure@, id, inst.at(x), witness.W@[0].at(x), p);
                lemma_at(witness.W@[0], after, x);
                vstd::arithmetic::div_mod::lemma_small_mod(witness.W@[0].at(x) as nat, p as nat);
                let (k0, k1, k2) = (
                    predicate.matrix_at_zero[0],
                    predicate.matrix_at_zero[1],
                    predicate.matrix_at_zero[2],
                );
                assert(1 * k0.val() == k0.val() && 1 * k1.val() == k1.val() && 1 * k2.val() == k2.val());
                k0.val_bounds();
                k1.val_bounds();
                k2.val_bounds();
                vstd::arithmetic::div_mod::lemma_small_mod(k0.val() as nat, p as nat);
                vstd::arithmetic::div_mod::lemma_small_mod(k1.val() as nat, p as nat);
                vstd::arithmetic::div_mod::lemma_small_mod(k2.val() as nat, p as nat);
                assert(structure@.mats[id] == crate::relation::entries3(structure.predicates@[id].mats));
                assert(r.at(x).v =~= want.v);
                assert(r.at(x).comm_M =~= want.comm_M);
            }
        }
        Ok(r)
    }

    /// This folded instance if the bit is one, else the other one.
    pub fn conditionally_select(&self, cs: &mut ConstraintSystem<E::Base>, other: &Self, condition: &AllocatedBit<E::Base>) -> (r: Result<
        Self,
        SynthesisError,
    >)
        requires
            old(cs)@.wf(),
            self.within(old(cs)@),
            other.within(old(cs)@),
            condition.within(old(cs)@),
            self.X@.len() == other.X@.len(),
            self.r_x@.len() == other.r_x@.len(),
            self.r_y@.len() == other.r_y@.len(),
            self.v@.len() == other.v@.len(),
        ensures
            step(old(cs)@, final(cs)@),
            final(cs)@.satisfied() == old(cs)@.satisfied(),
            final(cs).witness == old(cs).witness,
            final(cs)@.inputs == old(cs)@.inputs,
            r is Ok,
            r matches Ok(a) ==> {
                &&& a.within(final(cs)@)
                &&& a.X@.len() == self.X@.len()
                &&& a.r_x@.len() == self.r_x@.len()
                &&& a.r_y@.len() == self.r_y@.len()
                &&& a.v@.len() == self.v@.len()
                &&& forall|x: Assignment| #[trigger]
                    final(cs)@.follows(x) ==> if condition.at(x) == 1 {
                        a.at(x) == self.at(x) && a.points_at(x) == self.points_at(x)
                    } else {
                        a.at(x) == other.at(x) && a.points_at(x) == other.points_at(x)
                    }
            },
    {
        let ghost before = cs@;
        let W = AllocatedPoint::conditionally_select(cs, &self.W, &other.W, condition);
        let ghost s1 = cs@;
        let M0 = AllocatedPoint::conditionally_select(cs, &self.M[0], &other.M[0], condition);
        let ghost s2 = cs@;
        proof {
            lemma_step_trans(before, s1, s2);
        }
        let M1 = AllocatedPoint::conditionally_select(cs, &self.M[1], &other.M[1], condition);
        let ghost s3 = cs@;
        proof {
            lemma_step_trans(before, s2, s3);
        }
        let M2 = AllocatedPoint::conditionally_select(cs, &self.M[2], &other.M[2], condition);
        let ghost s4 = cs@;
        proof {
            lemma_step_trans(before, s3, s4);
        }
        let u = conditionally_select(cs, &self.u, &other.u, condition);
        let ghost s5 = cs@;
        proof {
            lemma_step_trans(before, s4, s5);
            lemma_folded_within(*self, before, s5);
            lemma_folded_within(*other, before, s5);
        }
        let X = conditionally_select_vec(cs, &self.X, &other.X, condition);
        let ghost s6 = cs@;
        proof {
            lemma_step_trans(before, s5, s6);
            lemma_folded_within(*self, before, s6);
            lemma_folded_within(*other, before, s6);
        }
        let r_x = conditionally_select_vec(cs, &self.r_x, &other.r_x, condition);
        let ghost s7 = cs@;
        proof {
            lemma_step_trans(before, s6, s7);
            lemma_folded_within(*self, before, s7);
            lemma_folded_within(*other, before, s7);
        }
        let r_y = conditionally_select_vec(cs, &self.r_y, &other.r_y, condition);
        let ghost s8 = cs@;
        proof {
            lemma_step_trans(before, s7, s8);
            lemma_folded_within(*self, before, s8);
            lemma_folded_within(*other, before, s8);
        }
        let v = conditionally_select_vec(cs, &self.v, &other.v, condition);
        let r = AllocatedFoldedInstance { W, M: [M0, M1, M2], u, X, r_x, r_y, v };
        proof {
            let after = cs@;
            lemma_step_trans(before, s8, after);
            lemma_step_trans(s7, s8, after);
            lemma_step_trans(s6, s7, after);
            lemma_step_trans(s5, s6, after);
            lemma_step_trans(s4, s5, after);
            lemma_step_trans(s3, s4, after);
            lemma_step_trans(s2, s3, after);
            lemma_step_trans(s1, s2, after);
            assert forall|x: Assignment| #[trigger] after.follows(x) implies if condition.at(x) == 1 {
                r.at(x) == self.at(x) && r.points_at(x) == self.points_at(x)
            } else {
                r.at(x) == other.at(x) && r.points_at(x) == other.points_at(x)
            } by {
                assert(s8.follows(x) && s7.follows(x) && s6.follows(x) && s5.follows(x) && s4.follows(x));
                assert(s3.follows(x) && s2.follows(x) && s1.follows(x));
                if condition.at(x) == 1 {
                    assert(r.at(x).comm_M =~= self.at(x).comm_M);
                } else {
                    assert(r.at(x).comm_M =~= other.at(x).comm_M);
                }
            }
        }
        Ok(r)
    }
}

/// The same numbers once more.
pub(crate) fn copy_nums<F: FieldElement>(v: &Vec<AllocatedNum<F>>) -> (r: Vec<AllocatedNum<F>>)
    ensures
        r@ == v@,
{
    let mut r: Vec<AllocatedNum<F>> = Vec::new();
    let mut i: usize = 0;
    while i < v.len()
        invariant
            i <= v.len(),
            r@ == v@.take(i as int),
        decreases v.len() - i,
    {
        r.push(v[i]);
        assert(v@.take(i + 1) =~= v@.take(i as int).push(v@[i as int]));
        i = i + 1;
    }
    assert(v@.take(v@.len() as int) =~= v@);
    r
}

/// The numbers of a folded instance are all of the system.
pub(crate) proof fn lemma_nums_within<E: CurveGroup>(u: AllocatedFoldedInstance<E>, cs: CsView)
    requires
        u.within(cs),
    ensures
        all_within(u.elements(), cs),
{
    let a = u.W.nums() + u.M[0].nums() + u.M[1].nums() + u.M[2].nums() + seq![u.u];
    let b = a + u.X@;
    let c = b + u.r_x@;
    let d = c + u.r_y@;
    let all = d + u.v@;
    assert(all =~= u.elements());
    assert(a.len() == 13);
    assert(a[0] == u.W.x && a[1] == u.W.y && a[2] == u.W.is_infinity);
    assert(a[3] == u.M[0].x && a[4] == u.M[0].y && a[5] == u.M[0].is_infinity);
    assert(a[6] == u.M[1].x && a[7] == u.M[1].y && a[8] == u.M[1].is_infinity);
    assert(a[9] == u.M[2].x && a[10] == u.M[2].y && a[11] == u.M[2].is_infinity);
    assert(all_within(a, cs));
    assert(all_within(b, cs));
    assert(all_within(c, cs));
    assert(all_within(d, cs));
}

/// Where an assignment gives the numbers of a folded instance their values, it gives the instance its values.
proof fn lemma_fixed_instance<E: CurveGroup>(u: AllocatedFoldedInstance<E>, x: Assignment)
    requires
        ats(u.elements(), x) == nvals(u.elements()),
    ensures
        u.at(x) == u.values(),
        ats(u.W.nums(), x) == u.W.values(),
        ats(u.M[0].nums(), x) == u.M[0].values(),
        ats(u.M[1].nums(), x) == u.M[1].values(),
        ats(u.M[2].nums(), x) == u.M[2].values(),
{
    let e = u.elements();
    assert forall|i: int| 0 <= i < e.len() implies (#[trigger] e[i]).at(x) == e[i].value.val() by {
        assert(ats(e, x)[i] == nvals(e)[i]);
    }
    assert(e[0] == u.W.x && e[1] == u.W.y && e[2] == u.W.is_infinity);
    assert(e[3] == u.M[0].x && e[4] == u.M[0].y && e[5] == u.M[0].is_infinity);
    assert(e[6] == u.M[1].x && e[7] == u.M[1].y && e[8] == u.M[1].is_infinity);
    assert(e[9] == u.M[2].x && e[10] == u.M[2].y && e[11] == u.M[2].is_infinity);
    assert(e[12] == u.u);
    assert(ats(u.W.nums(), x) =~= u.W.values());
    assert(ats(u.M[0].nums(), x) =~= u.M[0].values());
    assert(ats(u.M[1].nums(), x) =~= u.M[1].values());
    assert(ats(u.M[2].nums(), x) =~= u.M[2].values());
    let n = u.X@.len() as int;
    let m = n + u.r_x@.len();
    let k = m + u.r_y@.len();
    assert forall|i: int| 0 <= i < u.X@.len() implies (#[trigger] u.X@[i]).at(x) == u.X@[i].value.val() by {
        assert(e[13 + i] == u.X@[i]);
    }
    assert forall|i: int| 0 <= i < u.r_x@.len() implies (#[trigger] u.r_x@[i]).at(x) == u.r_x@[i].value.val() by {
        assert(e[13 + n + i] == u.r_x@[i]);
    }
    assert forall|i: int| 0 <= i < u.r_y@.len() implies (#[trigger] u.r_y@[i]).at(x) == u.r_y@[i].value.val() by {
        assert(e[13 + m + i] == u.r_y@[i]);
    }
    assert forall|i: int| 0 <= i < u.v@.len() implies (#[trigger] u.v@[i]).at(x) == u.v@[i].value.val() by {
        assert(e[13 + k + i] == u.v@[i]);
    }
    assert(ats(u.X@, x) =~= nvals(u.X@));
    assert(ats(u.r_x@, x) =~= nvals(u.r_x@));
    assert(ats(u.r_y@, x) =~= nvals(u.r_y@));
    assert(ats(u.v@, x) =~= nvals(u.v@));
    assert(u.at(x).comm_M =~= u.values().comm_M);
}

/// The commitments of a folded instance were given the coordinates of points.
proof fn lemma_folded_points<E: CurveGroup>(u: AllocatedFoldedInstance<E>, cs: CsView)
    requires
        u.within(cs),
    ensures
        is_point::<E>(u.W.values(), 0),
        is_point::<E>(u.M[0].values(), 0),
        is_point::<E>(u.M[1].values(), 0),
        is_point::<E>(u.M[2].values(), 0),
{
}

/// A sum-check proof with the parts of one that may be missing, brought to some rounds of some values each.
pub open spec fn given_proof(proof_: Option<SumcheckProofView>, rounds: nat, d: nat) -> SumcheckProofView {
    match proof_ {
        Some(p) => SumcheckProofView {
            point: resized(p.point, rounds as int),
            polys: Seq::new(
                rounds,
                |i: int|
                    if i < p.polys.len() {
                        resized(p.polys[i], d as int)
                    } else {
                        resized(Seq::empty(), d as int)
                    },
            ),
        },
        None => SumcheckProofView {
            point: resized(Seq::empty(), rounds as int),
            polys: Seq::new(rounds, |i: int| resized(Seq::empty(), d as int)),
        },
    }
}

/// A proof of a fold with the parts of one that may be missing, brought to the lengths of a structure.
pub open spec fn given_nifs(s: StructureView, nifs: Option<NIFSView>) -> NIFSView {
    match nifs {
        Some(n) => NIFSView {
            sc_proof_x: given_proof(Some(n.sc_proof_x), s.s_max, 4),
            sc_proof_y: given_proof(Some(n.sc_proof_y), s.s_prime_max, 3),
            sigmas: resized(n.sigmas, 3),
            taus: resized(n.taus, 3),
            epsilons: resized(n.epsilons, 4),
            thetas: resized(n.thetas, 4),
        },
        None => NIFSView {
            sc_proof_x: given_proof(None, s.s_max, 4),
            sc_proof_y: given_proof(None, s.s_prime_max, 3),
            sigmas: resized(Seq::empty(), 3),
            taus: resized(Seq::empty(), 3),
            epsilons: resized(Seq::empty(), 4),
            thetas: resized(Seq::empty(), 4),
        },
    }
}

/// A proof of the right lengths is what is allocated for it.
pub proof fn lemma_given_nifs(s: StructureView, n: NIFSView)
    requires
        n.sc_proof_x.point.len() == s.s_max,
        n.sc_proof_y.point.len() == s.s_prime_max,
        n.sc_proof_x.polys.len() == s.s_max,
        n.sc_proof_y.polys.len() == s.s_prime_max,
        forall|i: int| 0 <= i < s.s_max ==> (#[trigger] n.sc_proof_x.polys[i]).len() == 4,
        forall|i: int| 0 <= i < s.s_prime_max ==> (#[trigger] n.sc_proof_y.polys[i]).len() == 3,
        n.sigmas.len() == 3,
        n.taus.len() == 3,
        n.epsilons.len() == 4,
        n.thetas.len() == 4,
    ensures
        given_nifs(s, Some(n)) == n,
{
    let g = given_nifs(s, Some(n));
    assert(g.sc_proof_x.point =~= n.sc_proof_x.point);
    assert(g.sc_proof_y.point =~= n.sc_proof_y.point);
    assert forall|i: int| 0 <= i < s.s_max implies g.sc_proof_x.polys[i] == #[trigger] n.sc_proof_x.polys[i] by {
        assert(g.sc_proof_x.polys[i] =~= n.sc_proof_x.polys[i]);
    }
    assert forall|i: int| 0 <= i < s.s_prime_max implies g.sc_proof_y.polys[i] == #[trigger] n.sc_proof_y.polys[i] by {
        assert(g.sc_proof_y.polys[i] =~= n.sc_proof_y.polys[i]);
    }
    assert(g.sc_proof_x.polys =~= n.sc_proof_x.polys);
    assert(g.sc_proof_y.polys =~= n.sc_proof_y.polys);
    assert(g.sigmas =~= n.sigmas);
    assert(g.taus =~= n.taus);
    assert(g.epsilons =~= n.epsilons);
    assert(g.thetas =~= n.thetas);
}

impl<E: CircuitEngine> AllocatedNIFS<E> {
    /// A new sum-check proof of some rounds, with the values given, and zero where there are none.
    fn alloc_sumcheck_proof(
        cs: &mut ConstraintSystem<E::Base>,
        proof_: Option<&SumcheckProof<E>>,
        rounds: usize,
        eval_len: usize,
    ) -> (r: AllocatedSumcheckProof<E>)
        requires
            old(cs)@.wf(),
        ensures
            (final(cs)@.layout(), r.wires()) == lay_sumcheck_proof(old(cs)@.layout(), rounds as int, eval_len as int),
            step(old(cs)@, final(cs)@),
            final(cs)@.satisfied() == old(cs)@.satisfied(),
            final(cs).witness == old(cs).witness,
            final(cs)@.inputs == old(cs)@.inputs,
            r.within(final(cs)@),
            r.shaped(rounds as nat, eval_len as nat),
            r.values() == given_proof(
                match proof_ {
                    Some(p) => Some(p@),
                    None => None,
                },
                rounds as nat,
                eval_len as nat,
            ),
    {
        proof {
            reveal(lay_sumcheck_proof);
        }
        let ghost before = cs@;
        let point = alloc_num_vec(
            cs,
            match proof_ {
                Some(p) => Some(&p.point),
                None => None,
            },
            rounds,
        );
        let ghost s1 = cs@;
        let ghost want = given_proof(
            match proof_ {
                Some(p) => Some(p@),
                None => None,
            },
            rounds as nat,
            eval_len as nat,
        );
        let mut polys: Vec<Vec<AllocatedNum<E::Base>>> = Vec::new();
        let mut i: usize = 0;
        proof {
            assert(Seq::new(polys@.len(), |k: int| wires(polys@[k]@)) =~= Seq::<Seq<Variable>>::empty());
            lemma_step_refl(s1);
        }
        while i < rounds
            invariant
                (cs@.layout(), Seq::new(polys@.len(), |k: int| wires(polys@[k]@))) == lay_lists(
                    s1.layout(),
                    eval_len as int,
                    i as int,
                ),
                i <= rounds,
                step(before, s1),
                step(s1, cs@),
                all_within(point@, s1),
                cs@.satisfied() == before.satisfied(),
                cs.witness == old(cs).witness,
                cs@.inputs == before.inputs,
                polys@.len() == i,
                want == given_proof(
                    match proof_ {
                        Some(p) => Some(p@),
                        None => None,
                    },
                    rounds as nat,
                    eval_len as nat,
                ),
                forall|k: int| 0 <= k < i ==> all_within((#[trigger] polys@[k])@, cs@),
                forall|k: int| 0 <= k < i ==> (#[trigger] polys@[k])@.len() == eval_len,
                forall|k: int| 0 <= k < i ==> nvals((#[trigger] polys@[k])@) == want.polys[k],
            decreases rounds - i,
        {
            let ghost mid = cs@;
            let ghost first = polys@;
            let poly = alloc_num_vec(
                cs,
                match proof_ {
                    Some(p) => if i < p.polys.len() {
                        Some(&p.polys[i])
                    } else {
                        None
                    },
                    None => None,
                },
                eval_len,
            );
            polys.push(poly);
            proof {
                assert(Seq::new(polys@.len(), |k: int| wires(polys@[k]@)) =~= Seq::new(
                    first.len(),
                    |k: int| wires(first[k]@),
                ).push(wires(poly@)));
                lemma_step_trans(s1, mid, cs@);
                assert forall|k: int| 0 <= k < polys@.len() implies all_within((#[trigger] polys@[k])@, cs@) by {
                    if k < i {
                        assert(all_within(first[k]@, mid));
                        assert(polys@[k] == first[k]);
                    }
                }
            }
            i = i + 1;
        }
        let r = AllocatedSumcheckProof { point, polys };
        proof {
            lemma_step_trans(before, s1, cs@);
            assert(r.values().polys =~= want.polys);
        }
        r
    }

    /// A new proof of a fold with the lengths of a structure, with the values given, and zero where there are none.
    pub fn allocate(cs: &mut ConstraintSystem<E::Base>, nifs: Option<&NIFS<E>>, structure: &GlobalStructure<E>) -> (r: Result<
        Self,
        SynthesisError,
    >)
        requires
            old(cs)@.wf(),
        ensures
            r matches Ok(a) ==> (final(cs)@.layout(), a.wires()) == lay_nifs(old(cs)@.layout(), structure.s_max as int, structure.s_prime_max as int),
            step(old(cs)@, final(cs)@),
            final(cs)@.satisfied() == old(cs)@.satisfied(),
            final(cs).witness == old(cs).witness,
            final(cs)@.inputs == old(cs)@.inputs,
            r is Ok,
            r matches Ok(a) ==> {
                &&& a.within(final(cs)@)
                &&& a.shaped(structure@)
                &&& a.values() == given_nifs(
                    structure@,
                    match nifs {
                        Some(n) => Some(n@),
                        None => None,
                    },
                )
            },
    {
        proof {
            reveal(lay_nifs);
        }
        let ghost before = cs@;
        let sc_proof_x = Self::alloc_sumcheck_proof(
            cs,
            match nifs {
                Some(n) => Some(&n.sc_proof_x),
                None => None,
            },
            structure.s_max,
            4,
        );
        let ghost s1 = cs@;
        let sc_proof_y = Self::alloc_sumcheck_proof(
            cs,
            match nifs {
                Some(n) => Some(&n.sc_proof_y),
                None => None,
            },
            structure.s_prime_max,
            3,
        );
        let ghost s2 = cs@;
        let sigmas = alloc_num_vec(
            cs,
            match nifs {
                Some(n) => Some(&n.sigmas),
                None => None,
            },
            3,
        );
        let ghost s3 = cs@;
        let taus = alloc_num_vec(
            cs,
            match nifs {
                Some(n) => Some(&n.taus),
                None => None,
            },
            3,
        );
        let ghost s4 = cs@;
        let epsilons = alloc_num_vec(
            cs,
            match nifs {
                Some(n) => Some(&n.epsilons),
                None => None,
            },
            4,
        );
        let ghost s5 = cs@;
        let thetas = alloc_num_vec(
            cs,
            match nifs {
                Some(n) => Some(&n.thetas),
                None => None,
            },
            4,
        );
        let r = AllocatedNIFS { sc_proof_x, sc_proof_y, sigmas, taus, epsilons, thetas };
        proof {
            let after = cs@;
            lemma_step_trans(s4, s5, after);
            lemma_step_trans(s3, s4, after);
            lemma_step_trans(s2, s3, after);
            lemma_step_trans(s1, s2, after);
            lemma_step_trans(before, s1, after);
            assert forall|i: int| 0 <= i < r.sc_proof_x.polys@.len() implies all_within(
                (#[trigger] r.sc_proof_x.polys@[i])@,
                after,
            ) by {
                assert(all_within(r.sc_proof_x.polys@[i]@, s1));
            }
            assert forall|i: int| 0 <= i < r.sc_proof_y.polys@.len() implies all_within(
                (#[trigger] r.sc_proof_y.polys@[i])@,
                after,
            ) by {
                assert(all_within(r.sc_proof_y.polys@[i]@, s2));
            }
        }
        Ok(r)
    }
}

} // verus!
