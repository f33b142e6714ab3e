//! Instances in a constraint system, and the fold of an instance into a relaxed one there.
use crate::bignat::{lemma_nat_within, AllocatedBigNat};
use crate::cs::{lemma_step_trans, step, Assignment, ConstraintSystem, CsView, Variable};
use crate::engine::CurveGroup;
use crate::field::FieldElement;
use crate::fragment::{log_of, CircuitEngine};
use crate::gadgets::{all_within, alloc_zero, ats, conditionally_select, AllocatedBit, AllocatedNum};
use crate::oracle::OracleCircuit;
use crate::points::AllocatedPoint;
use crate::proof_circuit::nvals;
use crate::r1cs::R1CSInstance;
use crate::relaxed::RelaxedR1CSInstance;
use vstd::prelude::*;

verus! {

/// An instance in a system.
pub struct AllocatedR1CSInstance<E: CurveGroup> {
    pub comm_W: AllocatedPoint<E>,
    pub X0: AllocatedNum<E::Base>,
    pub X1: AllocatedNum<E::Base>,
}

/// A relaxed instance in a system.
pub struct AllocatedRelaxedR1CSInstance<E: CurveGroup> {
    pub W: AllocatedPoint<E>,
    pub R: AllocatedPoint<E>,
    pub E: AllocatedPoint<E>,
    pub u: AllocatedNum<E::Base>,
    pub X0: AllocatedBigNat<E>,
    pub X1: AllocatedBigNat<E>,
}

impl<E: CurveGroup> AllocatedR1CSInstance<E> {
    /// Whether the numbers are of the system.
    pub open spec fn within(&self, cs: CsView) -> bool {
        &&& self.comm_W.within(cs)
        &&& self.X0.within(cs)
        &&& self.X1.within(cs)
    }

    /// The numbers that an oracle absorbs.
    pub open spec fn elements(&self) -> Seq<AllocatedNum<E::Base>> {
        self.comm_W.nums() + seq![self.X0, self.X1]
    }
}

impl<E: CurveGroup> AllocatedRelaxedR1CSInstance<E> {
    /// Whether the numbers are of the system.
    pub open spec fn within(&self, cs: CsView) -> bool {
        &&& self.W.within(cs)
        &&& self.R.within(cs)
        &&& self.E.within(cs)
        &&& self.u.within(cs)
        &&& self.X0.within(cs)
        &&& self.X1.within(cs)
    }

    /// The numbers that stand for the instance.
    pub open spec fn elements(&self) -> Seq<AllocatedNum<E::Base>> {
        self.W.nums() + self.R.nums() + self.E.nums() + seq![self.u] + self.X0.limbs@ + self.X1.limbs@
    }

    /// Whether the commitments are points under an assignment.
    pub open spec fn points_at(&self, x: Assignment) -> bool {
        &&& self.W.is_point_at(x)
        &&& self.R.is_point_at(x)
        &&& self.E.is_point_at(x)
    }
}

/// The numbers of a point are of the system that the point is of.
proof fn lemma_point_nums<E: CurveGroup>(p: AllocatedPoint<E>, cs: CsView)
    requires
        p.within(cs),
    ensures
        all_within(p.nums(), cs),
        nvals(p.nums()) == p.values(),
{
    assert(nvals(p.nums()) =~= p.values());
}

/// The numbers of an instance are of the system that the instance is of.
pub proof fn lemma_instance_nums<E: CurveGroup>(u: AllocatedR1CSInstance<E>, cs: CsView)
    requires
        u.within(cs),
    ensures
        all_within(u.elements(), cs),
{
    lemma_point_nums(u.comm_W, cs);
    let all = u.elements();
    assert forall|k: int| 0 <= k < all.len() implies (#[trigger] all[k]).within(cs) by {
        if k < 3 {
            assert(all[k] == u.comm_W.nums()[k]);
        }
    }
}

/// The numbers of a relaxed instance are of the system that the instance is of.
pub proof fn lemma_relaxed_nums<E: CurveGroup>(u: AllocatedRelaxedR1CSInstance<E>, cs: CsView)
    requires
        u.within(cs),
    ensures
        all_within(u.elements(), cs),
        u.elements().len() == 18,
{
    lemma_point_nums(u.W, cs);
    lemma_point_nums(u.R, cs);
    lemma_point_nums(u.E, cs);
    let a = u.W.nums() + u.R.nums();
    let b = a + u.E.nums();
    let c = b + seq![u.u];
    let d = c + u.X0.limbs@;
    assert(all_within(a, cs));
    assert(all_within(b, cs));
    assert(all_within(c, cs));
    assert(all_within(d, cs));
    assert(all_within(d + u.X1.limbs@, cs));
}

/// An instance stays of a system that is extended.
pub proof fn lemma_instance_within<E: CurveGroup>(u: AllocatedR1CSInstance<E>, a: CsView, b: CsView)
    requires
        u.within(a),
        step(a, b),
    ensures
        u.within(b),
{
}

/// A relaxed instance stays of a system that is extended.
pub proof fn lemma_relaxed_within<E: CurveGroup>(u: AllocatedRelaxedR1CSInstance<E>, a: CsView, b: CsView)
    requires
        u.within(a),
        step(a, b),
    ensures
        u.within(b),
{
    lemma_nat_within(u.X0, a, b);
    lemma_nat_within(u.X1, a, b);
}

/// Whether an instance was given the parts of another, all of them zero if there is none.
pub open spec fn given_instance<E: CircuitEngine>(r: AllocatedR1CSInstance<E>, u: Option<&R1CSInstance<E>>) -> bool {
    match u {
        Some(u) => {
            &&& log_of::<E>(r.comm_W.values(), 0) == u@.comm_W
            &&& r.X0.value.val() == u@.X[0] % E::Base::modulus()
            &&& r.X1.value.val() == u@.X[1] % E::Base::modulus()
        },
        None => {
            &&& log_of::<E>(r.comm_W.values(), 0) == 0
            &&& r.X0.value.val() == 0
            &&& r.X1.value.val() == 0
        },
    }
}

/// Whether a relaxed instance was given the parts of another, all of them zero if there is none. The masking commitment
/// is that to the variables.
pub open spec fn given_relaxed<E: CircuitEngine>(
    r: AllocatedRelaxedR1CSInstance<E>,
    inst: Option<&RelaxedR1CSInstance<E>>,
) -> bool {
    match inst {
        Some(u) => {
            &&& log_of::<E>(r.W.values(), 0) == u@.comm_W
            &&& log_of::<E>(r.R.values(), 0) == u@.comm_W
            &&& log_of::<E>(r.E.values(), 0) == u@.comm_E
            &&& r.u.value.val() == u@.u % E::Base::modulus()
            &&& r.X0.value() == u@.X[0]
            &&& r.X1.value() == u@.X[1]
        },
        None => {
            &&& log_of::<E>(r.W.values(), 0) == 0
            &&& log_of::<E>(r.R.values(), 0) == 0
            &&& log_of::<E>(r.E.values(), 0) == 0
            &&& r.u.value.val() == 0
            &&& r.X0.value() == 0
            &&& r.X1.value() == 0
        },
    }
}

/// A scalar that may be missing, as an element of the base field.
pub(crate) fn alloc_scalar_as_base<E: CircuitEngine>(cs: &mut ConstraintSystem<E::Base>, s: Option<&E::Scalar>) -> (r: AllocatedNum<
    E::Base,
>)
    requires
        old(cs)@.wf(),
    ensures
        step(old(cs)@, final(cs)@),
        final(cs)@.satisfied() == old(cs)@.satisfied(),
        final(cs).witness == old(cs).witness,
        final(cs)@.inputs == old(cs)@.inputs,
        r.within(final(cs)@),
        r.value.val() == match s {
            Some(s) => s.val() % E::Base::modulus(),
            None => 0,
        },
{
    let value = match s {
        Some(s) => E::scalar_as_base(s),
        None => E::Base::from_u64(0),
    };
    AllocatedNum::allocate(cs, &value)
}

impl<E: CircuitEngine> AllocatedR1CSInstance<E> {
    /// A new instance, of which the commitment has to be on the curve. With none given, all its parts are zero.
    pub fn allocate(cs: &mut ConstraintSystem<E::Base>, u: Option<&R1CSInstance<E>>) -> (r: Self)
        requires
            old(cs)@.wf(),
            u matches Some(u) ==> u.X.len() >= 2,
        ensures
            step(old(cs)@, final(cs)@),
            final(cs)@.satisfied() == old(cs)@.satisfied(),
            final(cs).witness == old(cs).witness,
            final(cs)@.inputs == old(cs)@.inputs,
            r.within(final(cs)@),
            given_instance(r, u),
            forall|x: Assignment| #[trigger]
                final(cs)@.follows(x) && r.comm_W.is_infinity.at(x) == 0 ==> r.comm_W.is_point_at(x),
    {
        let ghost before = cs@;
        let comm_W = AllocatedPoint::allocate(
            cs,
            match u {
                Some(u) => Some(&u.comm_W),
                None => None,
            },
        );
        let ghost s1 = cs@;
        comm_W.check_on_curve(cs);
        let ghost s2 = cs@;
        let X0 = alloc_scalar_as_base::<E>(
            cs,
            match u {
                Some(u) => Some(&u.X[0]),
                None => None,
            },
        );
        let ghost s3 = cs@;
        let X1 = alloc_scalar_as_base::<E>(
            cs,
            match u {
                Some(u) => Some(&u.X[1]),
                None => None,
            },
        );
        proof {
            lemma_step_trans(before, s1, s2);
            lemma_step_trans(before, s2, s3);
            lemma_step_trans(before, s3, cs@);
            lemma_step_trans(s2, s3, cs@);
        }
        AllocatedR1CSInstance { comm_W, X0, X1 }
    }

    /// Absorbs the instance.
    pub fn absorb_in_ro(&self, ro: &mut OracleCircuit<E>)
        ensures
            final(ro).state@ == old(ro).state@ + self.elements(),
    {
        ro.absorb_point(&self.comm_W);
        ro.absorb(&self.X0);
        ro.absorb(&self.X1);
        assert(ro.state@ =~= old(ro).state@ + self.elements());
    }
}

impl<E: CircuitEngine> AllocatedRelaxedR1CSInstance<E> {
    /// A new relaxed instance. Nothing is checked of the commitments, the second of which is that to the variables once
    /// more. With none given, all its parts are zero.
    pub fn allocate(cs: &mut ConstraintSystem<E::Base>, inst: Option<&RelaxedR1CSInstance<E>>) -> (r: Self)
        requires
            old(cs)@.wf(),
            inst matches Some(u) ==> u.X.len() >= 2,
        ensures
            step(old(cs)@, final(cs)@),
            final(cs)@.satisfied() == old(cs)@.satisfied(),
            final(cs).witness == old(cs).witness,
            final(cs)@.inputs == old(cs)@.inputs,
            r.within(final(cs)@),
            given_relaxed(r, inst),
    {
        let ghost before = cs@;
        let (w, e, u, x0, x1) = match inst {
            Some(inst) => (
                Some(&inst.comm_W),
                Some(&inst.comm_E),
                Some(&inst.u),
                inst.X[0].to_limbs(),
                inst.X[1].to_limbs(),
            ),
            None => (None, None, None, [0, 0, 0, 0], [0, 0, 0, 0]),
        };
        let W = AllocatedPoint::allocate(cs, w);
        let ghost s1 = cs@;
        let R = AllocatedPoint::allocate(cs, w);
        let ghost s2 = cs@;
        let E = AllocatedPoint::allocate(cs, e);
        let ghost s3 = cs@;
        let u = alloc_scalar_as_base::<E>(cs, u);
        let ghost s4 = cs@;
        let X0 = AllocatedBigNat::alloc_from_nat(cs, x0);
        let ghost s5 = cs@;
        let X1 = AllocatedBigNat::alloc_from_nat(cs, x1);
        proof {
            lemma_step_trans(before, s1, s2);
            lemma_step_trans(before, s2, s3);
            lemma_step_trans(before, s3, s4);
            lemma_step_trans(before, s4, s5);
            lemma_step_trans(before, s5, cs@);
            lemma_nat_within(X0, s5, cs@);
        }
        AllocatedRelaxedR1CSInstance { W, R, E, u, X0, X1 }
    }

    /// The relaxed instance of which all parts are zero. The public values are not constrained.
    pub fn default(cs: &mut ConstraintSystem<E::Base>) -> (r: Self)
        requires
            old(cs)@.wf(),
        ensures
            step(old(cs)@, final(cs)@),
            final(cs)@.satisfied() == old(cs)@.satisfied(),
            final(cs).witness == old(cs).witness,
            final(cs)@.inputs == old(cs)@.inputs,
            r.within(final(cs)@),
            r.X0.value() == 0,
            r.X1.value() == 0,
            forall|x: Assignment| #[trigger]
                final(cs)@.follows(x) ==> {
                    &&& r.points_at(x)
                    &&& r.W.log_at(x) == 0
                    &&& r.R.log_at(x) == 0
                    &&& r.E.log_at(x) == 0
                    &&& r.u.at(x) == 0
                },
    {
        let ghost before = cs@;
        let W = zero_point::<E>(cs);
        let ghost s1 = cs@;
        let R = W.copied();
        let E = W.copied();
        let u = W.x;
        let X0 = AllocatedBigNat::alloc_from_nat(cs, [0, 0, 0, 0]);
        let ghost s2 = cs@;
        let X1 = AllocatedBigNat::alloc_from_nat(cs, [0, 0, 0, 0]);
        proof {
            lemma_step_trans(before, s1, s2);
            lemma_step_trans(before, s2, cs@);
            lemma_step_trans(s1, s2, cs@);
            lemma_nat_within(X0, s2, cs@);
        }
        AllocatedRelaxedR1CSInstance { W, R, E, u, X0, X1 }
    }

    /// Absorbs the instance, its public values by numbers that have to be the limbs.
    pub fn absorb_in_ro(&self, cs: &mut ConstraintSystem<E::Base>, ro: &mut OracleCircuit<E>)
        requires
            old(cs)@.wf(),
            self.within(old(cs)@),
        ensures
            step(old(cs)@, final(cs)@),
            final(cs)@.satisfied() == old(cs)@.satisfied(),
            final(cs).witness == old(cs).witness,
            final(cs)@.inputs == old(cs)@.inputs,
            final(ro).state@.len() == old(ro).state@.len() + 18,
            final(ro).state@.take(old(ro).state@.len() as int) == old(ro).state@,
            all_within(final(ro).state@.skip(old(ro).state@.len() as int), final(cs)@),
            forall|x: Assignment| #[trigger]
                final(cs)@.follows(x) ==> ats(final(ro).state@.skip(old(ro).state@.len() as int), x) == ats(
                    self.elements(),
                    x,
                ),
    {
        let ghost before = cs@;
        let ghost start = ro.state@;
        let ghost n = ro.state@.len() as int;
        ro.absorb_point(&self.W);
        ro.absorb_point(&self.R);
        ro.absorb_point(&self.E);
        ro.absorb(&self.u);
        let ghost first = ro.state@;
        let X0 = self.X0.as_allocated_nums(cs);
        let ghost s1 = cs@;
        ro.absorb_all(&X0);
        proof {
            lemma_nat_within(self.X1, before, s1);
        }
        let X1 = self.X1.as_allocated_nums(cs);
        ro.absorb_all(&X1);
        proof {
            lemma_step_trans(before, s1, cs@);
            let head = self.W.nums() + self.R.nums() + self.E.nums() + seq![self.u];
            assert(first =~= start + head);
            let tail = ro.state@.skip(n);
            assert(tail =~= head + X0@ + X1@);
            assert(ro.state@.take(n) =~= start);
            lemma_relaxed_nums(*self, before);
            let all = self.elements();
            assert forall|k: int| 0 <= k < tail.len() implies (#[trigger] tail[k]).within(cs@) by {
                if k < 10 {
                    assert(tail[k] == all[k]);
                    assert(all[k].within(before));
                } else if k < 14 {
                    assert(X0@[k - 10].within(s1));
                } else {
                    assert(X1@[k - 14].within(cs@));
                }
            }
            assert forall|x: Assignment| #[trigger] cs@.follows(x) implies ats(tail, x) == ats(all, x) by {
                assert(s1.follows(x));
                assert(ats(tail, x) =~= ats(head, x) + ats(X0@, x) + ats(X1@, x));
                assert(ats(all, x) =~= ats(head, x) + ats(self.X0.limbs@, x) + ats(self.X1.limbs@, x));
            }
        }
    }

    /// The first instance if the bit is one, else the second.
    pub fn conditionally_select(&self, cs: &mut ConstraintSystem<E::Base>, other: &Self, condition: &AllocatedBit<E::Base>) -> (r:
        Self)
        requires
            old(cs)@.wf(),
            self.within(old(cs)@),
            other.within(old(cs)@),
            condition.within(old(cs)@),
        ensures
            step(old(cs)@, final(cs)@),
            final(cs)@.satisfied() == old(cs)@.satisfied(),
            final(cs).witness == old(cs).witness,
            final(cs)@.inputs == old(cs)@.inputs,
            r.within(final(cs)@),
            forall|x: Assignment| #[trigger]
                final(cs)@.follows(x) ==> ats(r.elements(), x) == if condition.at(x) == 1 {
                    ats(self.elements(), x)
                } else {
                    ats(other.elements(), x)
                },
    {
        let ghost before = cs@;
        let W = AllocatedPoint::conditionally_select(cs, &self.W, &other.W, condition);
        let ghost s1 = cs@;
        let R = AllocatedPoint::conditionally_select(cs, &self.R, &other.R, condition);
        let ghost s2 = cs@;
        proof {
            lemma_step_trans(before, s1, s2);
        }
        let E = AllocatedPoint::conditionally_select(cs, &self.E, &other.E, condition);
        let ghost s3 = cs@;
        proof {
            lemma_step_trans(before, s2, s3);
        }
        let u = conditionally_select(cs, &self.u, &other.u, condition);
        let ghost s4 = cs@;
        proof {
            lemma_step_trans(before, s3, s4);
            lemma_relaxed_within(*self, before, s4);
            lemma_relaxed_within(*other, before, s4);
        }
        let X0 = AllocatedBigNat::conditionally_select(cs, &self.X0, &other.X0, condition);
        let ghost s5 = cs@;
        proof {
            lemma_step_trans(before, s4, s5);
            lemma_relaxed_within(*self, before, s5);
            lemma_relaxed_within(*other, before, s5);
        }
        let X1 = AllocatedBigNat::conditionally_select(cs, &self.X1, &other.X1, condition);
        let r = AllocatedRelaxedR1CSInstance { W, R, E, u, X0, X1 };
        proof {
            let after = cs@;
            lemma_step_trans(before, s5, after);
            lemma_step_trans(s4, s5, after);
            lemma_step_trans(s3, s4, after);
            lemma_step_trans(s2, s3, after);
            lemma_step_trans(s1, s2, after);
            lemma_nat_within(X0, s5, after);
            assert forall|x: Assignment| #[trigger] after.follows(x) implies ats(r.elements(), x) == if condition.at(x)
                == 1 {
                ats(self.elements(), x)
            } else {
                ats(other.elements(), x)
            } by {
                assert(s5.follows(x) && s4.follows(x) && s3.follows(x) && s2.follows(x) && s1.follows(x));
                lemma_elements_at(r, x);
                lemma_elements_at(*self, x);
                lemma_elements_at(*other, x);
            }
        }
        r
    }
}

/// The parts of a relaxed instance under an assignment, one after the other.
proof fn lemma_elements_at<E: CurveGroup>(u: AllocatedRelaxedR1CSInstance<E>, x: Assignment)
    ensures
        ats(u.elements(), x) == ats(u.W.nums(), x) + ats(u.R.nums(), x) + ats(u.E.nums(), x) + seq![u.u.at(x)] + ats(
            u.X0.limbs@,
            x,
        ) + ats(u.X1.limbs@, x),
{
    assert(ats(u.elements(), x) =~= ats(u.W.nums(), x) + ats(u.R.nums(), x) + ats(u.E.nums(), x) + seq![u.u.at(x)]
        + ats(u.X0.limbs@, x) + ats(u.X1.limbs@, x));
}

/// The point at infinity, its coordinates being constants.
fn zero_point<E: CircuitEngine>(cs: &mut ConstraintSystem<E::Base>) -> (r: AllocatedPoint<E>)
    requires
        old(cs)@.wf(),
    ensures
        step(old(cs)@, final(cs)@),
        final(cs)@.satisfied() == old(cs)@.satisfied(),
        final(cs).witness == old(cs).witness,
        final(cs)@.inputs == old(cs)@.inputs,
        r.within(final(cs)@),
        forall|x: Assignment| #[trigger]
            final(cs)@.follows(x) ==> r.is_point_at(x) && r.log_at(x) == 0 && r.x.at(x) == 0,
{
    let identity = E::identity_commitment();
    let (_x, _y, _infinite) = identity.to_coordinates();
    let zero = alloc_zero(cs);
    let one = AllocatedNum { variable: Variable::Input(0), value: E::Base::from_u64(1) };
    let r = AllocatedPoint { x: zero, y: zero, is_infinity: one };
    proof {
        crate::cs::lemma_one(cs@);
        assert forall|x: Assignment| #[trigger] cs@.follows(x) implies r.is_point_at(x) && r.log_at(x) == 0 && r.x.at(x)
            == 0 by {
            crate::cs::lemma_follows(cs@, x, Variable::Input(0), 1);
            assert(crate::fragment::point_of(ats(r.nums(), x), 0) == identity.coordinates());
        }
        assert(crate::fragment::point_of(r.values(), 0) == identity.coordinates());
    }
    r
}

} // verus!
