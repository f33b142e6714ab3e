//! Points of a curve in a constraint system over the field of their coordinates.
use crate::cs::{lemma_own_follows, lemma_step_trans, step, Assignment, ConstraintSystem, CsView, Variable};
use crate::engine::{vals, Commitment, CurveGroup};
use crate::field::FieldElement;
use crate::fragment::{all_bits, is_point, log_of, point_of, projection, splice, CircuitEngine};
use crate::gadgets::{
    ats, bit_ats, bit_wires, bits_value, bits_within, bool_int, conditionally_select, demand, lc_minus, lc_var,
    lemma_at, lemma_own, wires, AllocatedBit, AllocatedNum,
};
use crate::layout::{lay_add_points, lay_check, lay_point, lay_scale, lay_select_point, lay_vars, PointWires};
use vstd::prelude::*;

verus! {

/// A point by its coordinates, and whether it is the point at infinity.
pub struct AllocatedPoint<E: CurveGroup> {
    pub x: AllocatedNum<E::Base>,
    pub y: AllocatedNum<E::Base>,
    pub is_infinity: AllocatedNum<E::Base>,
}

impl<E: CurveGroup> AllocatedPoint<E> {
    /// The variables.
    pub open spec fn wires(&self) -> PointWires {
        PointWires { x: self.x.variable, y: self.y.variable, is_infinity: self.is_infinity.variable }
    }

    /// The three numbers.
    pub open spec fn nums(&self) -> Seq<AllocatedNum<E::Base>> {
        seq![self.x, self.y, self.is_infinity]
    }

    /// Whether the numbers are coordinates of a point under an assignment.
    pub open spec fn is_point_at(&self, x: Assignment) -> bool {
        is_point::<E>(ats(self.nums(), x), 0)
    }

    /// The multiple of the generator that the point is under an assignment.
    pub open spec fn log_at(&self, x: Assignment) -> int {
        log_of::<E>(ats(self.nums(), x), 0)
    }

    /// The values that the numbers were given.
    pub open spec fn values(&self) -> Seq<int> {
        seq![self.x.value.val(), self.y.value.val(), self.is_infinity.value.val()]
    }

    /// Whether the numbers are of the system, and were given the coordinates of a point.
    pub open spec fn within(&self, cs: CsView) -> bool {
        &&& self.x.within(cs)
        &&& self.y.within(cs)
        &&& self.is_infinity.within(cs)
        &&& is_point::<E>(self.values(), 0)
    }
}

/// Under the values given, a point of the system is a point.
pub proof fn lemma_point_own<E: CurveGroup>(p: AllocatedPoint<E>, cs: CsView, x: Assignment)
    requires
        p.within(cs),
        cs.agrees(x),
    ensures
        ats(p.nums(), x) == p.values(),
        p.is_point_at(x),
{
    lemma_at(p.x, cs, x);
    lemma_at(p.y, cs, x);
    lemma_at(p.is_infinity, cs, x);
    assert(ats(p.nums(), x) =~= p.values());
}

impl<E: CircuitEngine> AllocatedPoint<E> {
    /// A new point. Nothing but the last number is constrained, to be zero or one; with no point given, it is
    /// the point at infinity.
    pub fn allocate(cs: &mut ConstraintSystem<E::Base>, point: Option<&Commitment<E>>) -> (r: Self)
        requires
            old(cs)@.wf(),
        ensures
            (final(cs)@.layout(), r.wires()) == lay_point(old(cs)@.layout(), E::Base::modulus()),
            step(old(cs)@, final(cs)@),
            final(cs)@.satisfied() == old(cs)@.satisfied(),
            final(cs).witness == old(cs).witness,
            final(cs)@.inputs == old(cs)@.inputs,
            r.within(final(cs)@),
            log_of::<E>(r.values(), 0) == match point {
                Some(c) => c@,
                None => 0,
            },
            match point {
                Some(c) => point_of(r.values(), 0) == c.coordinates(),
                None => true,
            },
            r.x.variable == Variable::Aux(old(cs)@.aux.len() as usize),
            r.y.variable == Variable::Aux((old(cs)@.aux.len() + 1) as usize),
            r.is_infinity.variable == Variable::Aux((old(cs)@.aux.len() + 2) as usize),
            final(cs)@.aux.len() == old(cs)@.aux.len() + 3,
    {
        proof {
            reveal(lay_point);
            reveal(lay_vars);
        }
        let ghost before = cs@;
        let (x, y, infinite) = match point {
            Some(c) => c.to_coordinates(),
            None => E::identity_commitment().to_coordinates(),
        };
        let flag = if infinite {
            E::Base::from_u64(1)
        } else {
            E::Base::from_u64(0)
        };
        let x = AllocatedNum::allocate(cs, &x);
        let ghost s1 = cs@;
        let y = AllocatedNum::allocate(cs, &y);
        let ghost s2 = cs@;
        let is_infinity = AllocatedNum::allocate(cs, &flag);
        let ghost s3 = cs@;
        let a = lc_var(is_infinity.variable);
        let b = lc_minus(lc_var(Variable::Input(0)), is_infinity.variable);
        let c = crate::cs::LinearCombination::zero();
        proof {
            E::Base::modulus_bounds();
            let p = E::Base::modulus();
            crate::cs::lemma_one(s3);
            reveal(CsView::assigns);
            lemma_own(is_infinity, s3);
            crate::cs::lemma_lc_empty(s3.own());
            let t = flag.val();
            let m = crate::cs::lc_eval(b@, s3.own());
            crate::math::lemma_cong_mul(t, t, m, 1 - t, p);
            assert(t * (1 - t) == 0) by (nonlinear_arith)
                requires
                    t == 0 || t == 1,
            ;
        }
        demand(cs, a, b, c, Ghost(true));
        let r = AllocatedPoint { x, y, is_infinity };
        proof {
            let laid = lay_vars(before.layout(), 3);
            assert(laid.1 =~= seq![x.variable, y.variable, is_infinity.variable]);
        }
        proof {
            lemma_step_trans(before, s1, s2);
            lemma_step_trans(before, s2, s3);
            lemma_step_trans(before, s3, cs@);
            assert(point_of(r.values(), 0) == (x.value.val(), y.value.val(), infinite));
        }
        r
    }

    /// The same point once more.
    pub(crate) fn copied(&self) -> (r: Self)
        ensures
            r == *self,
    {
        AllocatedPoint { x: self.x, y: self.y, is_infinity: self.is_infinity }
    }

    /// The values of the numbers.
    fn coordinates(&self) -> (r: [E::Base; 3])
        ensures
            vals(r@) == self.values(),
    {
        let r = [self.x.value, self.y.value, self.is_infinity.value];
        assert(vals(r@) =~= self.values());
        r
    }

    /// The three numbers.
    pub(crate) fn to_nums(&self) -> (r: Vec<AllocatedNum<E::Base>>)
        ensures
            r@ == self.nums(),
    {
        let mut r: Vec<AllocatedNum<E::Base>> = Vec::new();
        r.push(self.x);
        r.push(self.y);
        r.push(self.is_infinity);
        assert(r@ =~= self.nums());
        r
    }

    /// A point that has to be on the curve unless it is marked as the point at infinity.
    pub fn check_on_curve(&self, cs: &mut ConstraintSystem<E::Base>)
        requires
            old(cs)@.wf(),
            self.within(old(cs)@),
        ensures
            final(cs)@.layout() == lay_check::<E>(old(cs)@.layout(), self.wires()),
            step(old(cs)@, final(cs)@),
            final(cs)@.satisfied() == old(cs)@.satisfied(),
            final(cs).witness == old(cs).witness,
            final(cs)@.inputs == old(cs)@.inputs,
            forall|x: Assignment| #[trigger]
                final(cs)@.follows(x) && self.is_infinity.at(x) == 0 ==> self.is_point_at(x),
    {
        let ghost before = cs@;
        let values = self.coordinates();
        let fragment = E::check_fragment(&values);
        let inputs = self.to_nums();
        assert(Seq::new(inputs@.len(), |i: int| inputs@[i].value.val()) =~= vals(values@));
        let _results = splice(cs, &fragment, &inputs);
        assert(wires(inputs@) =~= self.wires().list());
        proof {
            assert forall|x: Assignment| #[trigger]
                cs@.follows(x) && self.is_infinity.at(x) == 0 implies self.is_point_at(x) by {
                let y = projection(inputs@, before.aux.len() as int, fragment.aux.len() as int, x);
                let s = ats(self.nums(), x);
                assert(y.inputs.skip(1) == s);
                assert(y.inputs[1] == s[0] && y.inputs[2] == s[1] && y.inputs[3] == s[2]);
                assert(fragment@.accepts(y, 3, E::Base::modulus()));
                assert(point_of(y.inputs, 1) == point_of(s, 0));
            }
        }
    }

    /// The sum of two points.
    pub fn add(&self, cs: &mut ConstraintSystem<E::Base>, other: &Self) -> (r: Self)
        requires
            old(cs)@.wf(),
            self.within(old(cs)@),
            other.within(old(cs)@),
        ensures
            (final(cs)@.layout(), r.wires()) == lay_add_points::<E>(old(cs)@.layout(), self.wires(), other.wires()),
            step(old(cs)@, final(cs)@),
            final(cs)@.satisfied() == old(cs)@.satisfied(),
            final(cs).witness == old(cs).witness,
            final(cs)@.inputs == old(cs)@.inputs,
            r.within(final(cs)@),
            forall|x: Assignment| #[trigger]
                final(cs)@.follows(x) && self.is_point_at(x) && other.is_point_at(x) ==> r.is_point_at(x) && r.log_at(x)
                    == (self.log_at(x) + other.log_at(x)) % E::Scalar::modulus(),
    {
        let ghost before = cs@;
        let values = [
            self.x.value,
            self.y.value,
            self.is_infinity.value,
            other.x.value,
            other.y.value,
            other.is_infinity.value,
        ];
        proof {
            assert(point_of(vals(values@), 0) == point_of(self.values(), 0));
            assert(point_of(vals(values@), 3) == point_of(other.values(), 0));
        }
        let fragment = E::add_fragment(&values);
        let mut inputs: Vec<AllocatedNum<E::Base>> = Vec::new();
        inputs.push(self.x);
        inputs.push(self.y);
        inputs.push(self.is_infinity);
        inputs.push(other.x);
        inputs.push(other.y);
        inputs.push(other.is_infinity);
        assert(Seq::new(inputs@.len(), |i: int| inputs@[i].value.val()) =~= vals(values@));
        let results = splice(cs, &fragment, &inputs);
        assert(wires(inputs@) =~= self.wires().list() + other.wires().list());
        let r = AllocatedPoint { x: results[0], y: results[1], is_infinity: results[2] };
        proof {
            assert(results@[0].within(cs@) && results@[1].within(cs@) && results@[2].within(cs@));
            assert forall|x: Assignment| #[trigger]
                cs@.follows(x) && self.is_point_at(x) && other.is_point_at(x) implies r.is_point_at(x) && r.log_at(x)
                == (self.log_at(x) + other.log_at(x)) % E::Scalar::modulus() by {
                let y = projection(inputs@, before.aux.len() as int, fragment.aux.len() as int, x);
                let (s, t) = (ats(self.nums(), x), ats(other.nums(), x));
                let all = ats(inputs@, x);
                assert(y.inputs.skip(1) == all);
                let sk = y.inputs.skip(1);
                assert(sk[0] == y.inputs[1] && sk[1] == y.inputs[2] && sk[2] == y.inputs[3]);
                assert(sk[3] == y.inputs[4] && sk[4] == y.inputs[5] && sk[5] == y.inputs[6]);
                assert(all[0] == s[0] && all[1] == s[1] && all[2] == s[2]);
                assert(all[3] == t[0] && all[4] == t[1] && all[5] == t[2]);
                assert(point_of(y.inputs, 1) == point_of(s, 0));
                assert(point_of(y.inputs, 4) == point_of(t, 0));
                assert(fragment@.accepts(y, 6, E::Base::modulus()));
                assert(fragment@.results(y) =~= ats(r.nums(), x)) by {
                    assert(fragment@.results(y) == ats(results@, x));
                }
            }
            lemma_own_follows(cs@);
            crate::points::lemma_result(r, cs@);
            reveal(CsView::agrees);
            reveal(CsView::wf);
            assert(cs@.agrees(cs@.own()));
            lemma_point_own(*self, cs@, cs@.own());
            lemma_point_own(*other, cs@, cs@.own());
            assert(r.is_point_at(cs@.own()));
        }
        r
    }

    /// The multiple of a point by the number that bits are.
    pub fn scalar_mul(&self, cs: &mut ConstraintSystem<E::Base>, bits: &Vec<AllocatedBit<E::Base>>) -> (r: Self)
        requires
            old(cs)@.wf(),
            self.within(old(cs)@),
            bits_within(bits@, old(cs)@),
            0 < bits.len() <= 250,
        ensures
            (final(cs)@.layout(), r.wires()) == lay_scale::<E>(old(cs)@.layout(), self.wires(), bit_wires(bits@)),
            step(old(cs)@, final(cs)@),
            final(cs)@.satisfied() == old(cs)@.satisfied(),
            final(cs).witness == old(cs).witness,
            final(cs)@.inputs == old(cs)@.inputs,
            r.within(final(cs)@),
            forall|x: Assignment| #[trigger]
                final(cs)@.follows(x) && self.is_point_at(x) ==> r.is_point_at(x) && r.log_at(x) == (self.log_at(x)
                    * bits_value(bit_ats(bits@, x), bits.len() as int)) % E::Scalar::modulus(),
    {
        let ghost before = cs@;
        let ghost n = bits.len() as int;
        let point = self.coordinates();
        let mut inputs = self.to_nums();
        let mut flags: Vec<bool> = Vec::new();
        let one = E::Base::from_u64(1);
        let mut i: usize = 0;
        proof {
            lemma_own_follows(before);
        }
        while i < bits.len()
            invariant
                i <= bits.len(),
                one.val() == 1,
                bits_within(bits@, before),
                before.follows(before.own()),
                flags.len() == i,
                inputs.len() == i + 3,
                inputs@[0] == self.x && inputs@[1] == self.y && inputs@[2] == self.is_infinity,
                forall|k: int| 0 <= k < i ==> #[trigger] inputs@[k + 3] == bits@[k].num,
                forall|k: int|
                    0 <= k < i ==> bool_int(#[trigger] flags@[k]) == bits@[k].num.value.val(),
            decreases bits.len() - i,
        {
            let b = bits[i].num;
            proof {
                assert(bits@[i as int].within(before));
                lemma_own(b, before);
                assert(bits@[i as int].at(before.own()) == b.value.val());
            }
            flags.push(b.value.equals(&one));
            inputs.push(b);
            i = i + 1;
        }
        let fragment = E::scale_fragment(&point, &flags);
        proof {
            let want = vals(point@) + Seq::new(flags@.len(), |i: int| bool_int(flags@[i]));
            let got = Seq::new(inputs@.len(), |i: int| inputs@[i].value.val());
            assert forall|k: int| 0 <= k < got.len() implies got[k] == want[k] by {
                if k >= 3 {
                    assert(inputs@[(k - 3) + 3] == bits@[k - 3].num);
                    assert(bool_int(flags@[k - 3]) == bits@[k - 3].num.value.val());
                }
            }
            assert(got =~= want);
            assert forall|k: int| 0 <= k < inputs@.len() implies (#[trigger] inputs@[k]).within(before) by {
                if k >= 3 {
                    assert(inputs@[(k - 3) + 3] == bits@[k - 3].num);
                    assert(bits@[k - 3].within(before));
                }
            }
        }
        let results = splice(cs, &fragment, &inputs);
        assert(wires(inputs@) =~= self.wires().list() + bit_wires(bits@)) by {
            assert forall|k: int| 0 <= k < inputs@.len() implies #[trigger] wires(inputs@)[k] == (self.wires().list()
                + bit_wires(bits@))[k] by {
                if k >= 3 {
                    assert(inputs@[(k - 3) + 3] == bits@[k - 3].num);
                }
            }
        }
        let r = AllocatedPoint { x: results[0], y: results[1], is_infinity: results[2] };
        proof {
            assert(results@[0].within(cs@) && results@[1].within(cs@) && results@[2].within(cs@));
            assert forall|x: Assignment| #[trigger] cs@.follows(x) && self.is_point_at(x) implies r.is_point_at(x)
                && r.log_at(x) == (self.log_at(x) * bits_value(bit_ats(bits@, x), n)) % E::Scalar::modulus() by {
                let y = projection(inputs@, before.aux.len() as int, fragment.aux.len() as int, x);
                let s = ats(self.nums(), x);
                let all = ats(inputs@, x);
                assert(y.inputs.skip(1) == all);
                assert(y.inputs.skip(1)[0] == y.inputs[1] && y.inputs.skip(1)[1] == y.inputs[2]
                    && y.inputs.skip(1)[2] == y.inputs[3]);
                assert(y.inputs[1] == s[0] && y.inputs[2] == s[1] && y.inputs[3] == s[2]);
                assert(point_of(y.inputs, 1) == point_of(s, 0));
                assert(fragment@.accepts(y, n + 3, E::Base::modulus()));
                let rest = y.inputs.skip(4);
                assert forall|k: int| 0 <= k < rest.len() implies #[trigger] rest[k] == bit_ats(bits@, x)[k] && (
                rest[k] == 0 || rest[k] == 1) by {
                    assert(rest[k] == y.inputs.skip(1)[k + 3]);
                    assert(inputs@[k + 3] == bits@[k].num);
                    assert(bits@[k].within(before));
                    assert(before.follows(x));
                }
                assert(rest =~= bit_ats(bits@, x));
                assert(all_bits(rest));
                assert(fragment@.results(y) =~= ats(r.nums(), x)) by {
                    assert(fragment@.results(y) == ats(results@, x));
                }
            }
            lemma_own_follows(cs@);
            crate::points::lemma_result(r, cs@);
            reveal(CsView::agrees);
            reveal(CsView::wf);
            assert(cs@.agrees(cs@.own()));
            lemma_point_own(*self, cs@, cs@.own());
            assert(r.is_point_at(cs@.own()));
        }
        r
    }

    /// The first point if the bit is one, else the second.
    pub fn conditionally_select(
        cs: &mut ConstraintSystem<E::Base>,
        a: &Self,
        b: &Self,
        condition: &AllocatedBit<E::Base>,
    ) -> (r: Self)
        requires
            old(cs)@.wf(),
            a.within(old(cs)@),
            b.within(old(cs)@),
            condition.within(old(cs)@),
        ensures
            (final(cs)@.layout(), r.wires()) == lay_select_point(
                old(cs)@.layout(),
                a.wires(),
                b.wires(),
                condition.num.variable,
                E::Base::modulus(),
            ),
            step(old(cs)@, final(cs)@),
            final(cs)@.satisfied() == old(cs)@.satisfied(),
            final(cs).witness == old(cs).witness,
            final(cs)@.inputs == old(cs)@.inputs,
            r.within(final(cs)@),
            forall|x: Assignment| #[trigger]
                final(cs)@.follows(x) ==> ats(r.nums(), x) == if condition.at(x) == 1 {
                    ats(a.nums(), x)
                } else {
                    ats(b.nums(), x)
                },
    {
        proof {
            reveal(lay_select_point);
        }
        let ghost before = cs@;
        let x = conditionally_select(cs, &a.x, &b.x, condition);
        let ghost s1 = cs@;
        let y = conditionally_select(cs, &a.y, &b.y, condition);
        let ghost s2 = cs@;
        let is_infinity = conditionally_select(cs, &a.is_infinity, &b.is_infinity, condition);
        let r = AllocatedPoint { x, y, is_infinity };
        proof {
            lemma_step_trans(before, s1, s2);
            lemma_step_trans(before, s2, cs@);
            assert forall|x: Assignment| #[trigger] cs@.follows(x) implies ats(r.nums(), x) == if condition.at(x) == 1 {
                ats(a.nums(), x)
            } else {
                ats(b.nums(), x)
            } by {
                assert(s2.follows(x) && s1.follows(x));
                if condition.at(x) == 1 {
                    assert(ats(r.nums(), x) =~= ats(a.nums(), x));
                } else {
                    assert(ats(r.nums(), x) =~= ats(b.nums(), x));
                }
            }
            lemma_own_follows(cs@);
            lemma_result(r, cs@);
            reveal(CsView::agrees);
            reveal(CsView::wf);
            assert(cs@.agrees(cs@.own()));
            lemma_point_own(*a, cs@, cs@.own());
            lemma_point_own(*b, cs@, cs@.own());
        }
        r
    }
}

/// Numbers that are a point under the values given were given the coordinates of a point.
proof fn lemma_result<E: CurveGroup>(r: AllocatedPoint<E>, cs: CsView)
    requires
        r.x.within(cs),
        r.y.within(cs),
        r.is_infinity.within(cs),
    ensures
        ats(r.nums(), cs.own()) == r.values(),
{
    lemma_own(r.x, cs);
    lemma_own(r.y, cs);
    lemma_own(r.is_infinity, cs);
    assert(ats(r.nums(), cs.own()) =~= r.values());
}

} // verus!
