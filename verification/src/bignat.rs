//! Numbers of 256 bits in a constraint system, by four limbs of 64 bits.
use crate::cs::{
    lc_eval, lemma_lc_empty, lemma_one, lemma_own_follows, lemma_step_trans, step, Assignment, ConstraintSystem,
    CsView, LinearCombination, Variable,
};
use crate::engine::{vals, CurveGroup};
use crate::evaluation::lemma_step_refl;
use crate::field::{limbs_value, FieldElement};
use crate::fragment::{is_nat, nat_of, projection, splice, CircuitEngine};
use crate::gadgets::{
    all_within, ats, conditionally_select_vec, demand, lc_minus, lc_of, lc_plus_scaled, lc_var, lemma_at, lemma_own,
    AllocatedBit, AllocatedNum,
};
use crate::instance_circuit::copy_nums;
use crate::math::{cong, lemma_canonical, lemma_cong_add, lemma_cong_mod, lemma_cong_sub};
use crate::oracle::OracleCircuit;
use crate::proof_circuit::{lemma_ats, lemma_own_agrees, nvals};
use vstd::prelude::*;

verus! {

/// A residue of which the difference to a number vanishes is the residue of the number.
proof fn lemma_settled(r: int, t: int, s: int, p: int)
    requires
        p > 1,
        0 <= r < p,
        cong(t, r - s, p),
    ensures
        cong(0, t, p) == (r == s % p),
{
    if cong(0, t, p) {
        lemma_cong_add(0, r - s, s, s, p);
        lemma_canonical(r, s, p);
    }
    if r == s % p {
        lemma_cong_mod(s, p);
        lemma_cong_sub(r, s, s, s, p);
    }
}

/// A number constrained to be the sum of two others.
pub fn checked_sum<F: FieldElement>(cs: &mut ConstraintSystem<F>, a: &AllocatedNum<F>, b: &AllocatedNum<F>) -> (r:
    AllocatedNum<F>)
    requires
        old(cs)@.wf(),
        a.within(old(cs)@),
        b.within(old(cs)@),
    ensures
        step(old(cs)@, final(cs)@),
        final(cs)@.satisfied() == old(cs)@.satisfied(),
        r.within(final(cs)@),
        final(cs).witness == old(cs).witness,
        final(cs)@.inputs == old(cs)@.inputs,
        forall|x: Assignment| #[trigger] final(cs)@.follows(x) ==> r.at(x) == (a.at(x) + b.at(x)) % F::modulus(),
{
    let ghost before = cs@;
    let ghost p = F::modulus();
    let value = a.value.add(&b.value);
    let r = AllocatedNum::allocate(cs, &value);
    let ghost mid = cs@;
    let part = lc_minus(lc_var(r.variable), a.variable);
    let total = lc_minus(part, b.variable);
    let none = LinearCombination::zero();
    let nothing = LinearCombination::zero();
    proof {
        F::modulus_bounds();
        assert forall|x: Assignment| cong(#[trigger] lc_eval(total@, x), r.at(x) - (a.at(x) + b.at(x)), p) by {
            assert(cong(lc_eval(part@, x), r.at(x) - a.at(x), p));
            lemma_cong_sub(lc_eval(part@, x), r.at(x) - a.at(x), b.at(x), b.at(x), p);
        }
        lemma_own(*a, mid);
        lemma_own(*b, mid);
        lemma_own(r, mid);
        lemma_own_follows(mid);
        lemma_at(r, mid, mid.own());
        lemma_lc_empty(mid.own());
        lemma_settled(r.value.val(), lc_eval(total@, mid.own()), a.value.val() + b.value.val(), p);
    }
    demand(cs, none, nothing, total, Ghost(true));
    proof {
        lemma_step_trans(before, mid, cs@);
        assert forall|x: Assignment| #[trigger] cs@.follows(x) implies r.at(x) == (a.at(x) + b.at(x)) % p by {
            lemma_at(*a, cs@, x);
            lemma_at(*b, cs@, x);
            lemma_at(r, cs@, x);
            lemma_lc_empty(x);
            lemma_settled(r.at(x), lc_eval(total@, x), a.at(x) + b.at(x), p);
        }
    }
    r
}

/// A number constrained to be another.
pub fn checked_copy<F: FieldElement>(cs: &mut ConstraintSystem<F>, a: &AllocatedNum<F>) -> (r: AllocatedNum<F>)
    requires
        old(cs)@.wf(),
        a.within(old(cs)@),
    ensures
        step(old(cs)@, final(cs)@),
        final(cs)@.satisfied() == old(cs)@.satisfied(),
        r.within(final(cs)@),
        final(cs).witness == old(cs).witness,
        final(cs)@.inputs == old(cs)@.inputs,
        forall|x: Assignment| #[trigger] final(cs)@.follows(x) ==> r.at(x) == a.at(x),
{
    let ghost before = cs@;
    let ghost p = F::modulus();
    let r = AllocatedNum::allocate(cs, &a.value);
    let ghost mid = cs@;
    let total = lc_minus(lc_var(r.variable), a.variable);
    let none = LinearCombination::zero();
    let nothing = LinearCombination::zero();
    proof {
        F::modulus_bounds();
        lemma_own(*a, mid);
        lemma_own(r, mid);
        lemma_own_follows(mid);
        lemma_at(r, mid, mid.own());
        lemma_lc_empty(mid.own());
        vstd::arithmetic::div_mod::lemma_small_mod(a.value.val() as nat, p as nat);
        assert(cong(lc_eval(total@, mid.own()), r.at(mid.own()) - a.at(mid.own()), p));
        lemma_settled(r.value.val(), lc_eval(total@, mid.own()), a.value.val(), p);
    }
    demand(cs, none, nothing, total, Ghost(true));
    proof {
        lemma_step_trans(before, mid, cs@);
        assert forall|x: Assignment| #[trigger] cs@.follows(x) implies r.at(x) == a.at(x) by {
            lemma_at(*a, cs@, x);
            lemma_at(r, cs@, x);
            lemma_lc_empty(x);
            vstd::arithmetic::div_mod::lemma_small_mod(a.at(x) as nat, p as nat);
            assert(cong(lc_eval(total@, x), r.at(x) - a.at(x), p));
            lemma_settled(r.at(x), lc_eval(total@, x), a.at(x), p);
        }
    }
    r
}

/// A number constrained to be a constant.
pub fn checked_constant<F: FieldElement>(cs: &mut ConstraintSystem<F>, c: &F) -> (r: AllocatedNum<F>)
    requires
        old(cs)@.wf(),
    ensures
        step(old(cs)@, final(cs)@),
        final(cs)@.satisfied() == old(cs)@.satisfied(),
        r.within(final(cs)@),
        r.value == *c,
        final(cs).witness == old(cs).witness,
        final(cs)@.inputs == old(cs)@.inputs,
        forall|x: Assignment| #[trigger] final(cs)@.follows(x) ==> r.at(x) == c.val(),
{
    let ghost before = cs@;
    let ghost p = F::modulus();
    let r = AllocatedNum::allocate(cs, c);
    let ghost mid = cs@;
    let a = lc_var(r.variable);
    let b = lc_var(Variable::Input(0));
    let none = LinearCombination::zero();
    let ghost empty = none@;
    let total = lc_plus_scaled(none, c, Variable::Input(0));
    proof {
        F::modulus_bounds();
        lemma_one(mid);
        lemma_own(r, mid);
        lemma_own_follows(mid);
        lemma_at(r, mid, mid.own());
        crate::cs::lemma_follows(mid, mid.own(), Variable::Input(0), 1);
        assert(lc_of(empty, mid));
        lemma_lc_empty(mid.own());
    }
    demand(cs, a, b, total, Ghost(true));
    proof {
        lemma_step_trans(before, mid, cs@);
        lemma_one(cs@);
        assert forall|x: Assignment| #[trigger] cs@.follows(x) implies r.at(x) == c.val() by {
            lemma_at(r, cs@, x);
            lemma_lc_empty(x);
            crate::cs::lemma_follows(cs@, x, Variable::Input(0), 1);
            if cs@.holds(x) {
                assert(lc_eval(a@, x) == r.at(x) && lc_eval(b@, x) == 1);
                assert(lc_eval(total@, x) == c.val() * 1);
                assert(cong(lc_eval(a@, x) * lc_eval(b@, x), lc_eval(total@, x), p));
                assert(lc_eval(a@, x) * lc_eval(b@, x) == r.at(x)) by (nonlinear_arith)
                    requires
                        lc_eval(a@, x) == r.at(x),
                        lc_eval(b@, x) == 1,
                ;
                lemma_canonical(r.at(x), c.val(), p);
                c.val_bounds();
                vstd::arithmetic::div_mod::lemma_small_mod(c.val() as nat, p as nat);
            }
        }
    }
    r
}

/// A number by its limbs, the least significant first.
pub struct AllocatedBigNat<E: CurveGroup> {
    pub limbs: Vec<AllocatedNum<E::Base>>,
}

impl<E: CurveGroup> AllocatedBigNat<E> {
    /// The number under an assignment.
    pub open spec fn at(&self, x: Assignment) -> int {
        nat_of(ats(self.limbs@, x), 0)
    }

    /// Whether the limbs have 64 bits under an assignment.
    pub open spec fn proper_at(&self, x: Assignment) -> bool {
        is_nat(ats(self.limbs@, x), 0)
    }

    /// The number that was given.
    pub open spec fn value(&self) -> int {
        nat_of(nvals(self.limbs@), 0)
    }

    /// Whether the limbs are of the system, and were given 64 bits each.
    pub open spec fn within(&self, cs: CsView) -> bool {
        &&& self.limbs@.len() == 4
        &&& all_within(self.limbs@, cs)
        &&& is_nat(nvals(self.limbs@), 0)
    }
}

/// Under the values given, a number is the one that was given.
pub proof fn lemma_nat_own<E: CurveGroup>(n: AllocatedBigNat<E>, cs: CsView, x: Assignment)
    requires
        n.within(cs),
        cs.agrees(x),
    ensures
        n.at(x) == n.value(),
        n.proper_at(x),
{
    lemma_ats(n.limbs@, cs, x);
}

/// A number stays of a system that is extended.
pub proof fn lemma_nat_within<E: CurveGroup>(n: AllocatedBigNat<E>, a: CsView, b: CsView)
    requires
        n.within(a),
        step(a, b),
    ensures
        n.within(b),
{
    assert forall|i: int| 0 <= i < n.limbs@.len() implies (#[trigger] n.limbs@[i]).within(b) by {
        assert(n.limbs@[i].within(a));
    }
}

impl<E: CircuitEngine> AllocatedBigNat<E> {
    /// A new number. Nothing is constrained.
    pub fn alloc_from_nat(cs: &mut ConstraintSystem<E::Base>, value: [u64; 4]) -> (r: Self)
        requires
            old(cs)@.wf(),
        ensures
            step(old(cs)@, final(cs)@),
            final(cs)@.satisfied() == old(cs)@.satisfied(),
            final(cs).witness == old(cs).witness,
            final(cs)@.inputs == old(cs)@.inputs,
            r.within(final(cs)@),
            r.value() == limbs_value(value),
    {
        let ghost before = cs@;
        let mut limbs: Vec<AllocatedNum<E::Base>> = Vec::new();
        let mut i: usize = 0;
        proof {
            lemma_step_refl(before);
        }
        while i < 4
            invariant
                i <= 4,
                limbs.len() == i,
                step(before, cs@),
                cs@.satisfied() == before.satisfied(),
                cs.witness == old(cs).witness,
                cs@.inputs == before.inputs,
                all_within(limbs@, cs@),
                forall|k: int| 0 <= k < i ==> (#[trigger] limbs@[k]).value.val() == value@[k],
            decreases 4 - i,
        {
            let ghost (mid, some) = (cs@, limbs@);
            let limb = E::Base::from_u64(value[i]);
            limbs.push(AllocatedNum::allocate(cs, &limb));
            proof {
                lemma_step_trans(before, mid, cs@);
                assert forall|k: int| 0 <= k < limbs@.len() implies (#[trigger] limbs@[k]).within(cs@) by {
                    if k < i {
                        assert(some[k].within(mid));
                    }
                }
            }
            i = i + 1;
        }
        proof {
            assert(limbs@[0].value.val() == value@[0] && limbs@[1].value.val() == value@[1]);
            assert(limbs@[2].value.val() == value@[2] && limbs@[3].value.val() == value@[3]);
        }
        AllocatedBigNat { limbs }
    }

    /// A number constrained to be a constant.
    pub fn alloc_constant(cs: &mut ConstraintSystem<E::Base>, value: [u64; 4]) -> (r: Self)
        requires
            old(cs)@.wf(),
        ensures
            step(old(cs)@, final(cs)@),
            final(cs)@.satisfied() == old(cs)@.satisfied(),
            final(cs).witness == old(cs).witness,
            final(cs)@.inputs == old(cs)@.inputs,
            r.within(final(cs)@),
            r.value() == limbs_value(value),
            forall|x: Assignment| #[trigger]
                final(cs)@.follows(x) ==> r.proper_at(x) && r.at(x) == limbs_value(value),
    {
        let ghost before = cs@;
        let mut limbs: Vec<AllocatedNum<E::Base>> = Vec::new();
        let mut i: usize = 0;
        proof {
            lemma_step_refl(before);
        }
        while i < 4
            invariant
                i <= 4,
                limbs.len() == i,
                step(before, cs@),
                cs@.satisfied() == before.satisfied(),
                cs.witness == old(cs).witness,
                cs@.inputs == before.inputs,
                all_within(limbs@, cs@),
                forall|k: int| 0 <= k < i ==> (#[trigger] limbs@[k]).value.val() == value@[k],
                forall|x: Assignment, k: int|
                    #![trigger cs@.follows(x), limbs@[k]]
                    cs@.follows(x) && 0 <= k < i ==> limbs@[k].at(x) == value@[k],
            decreases 4 - i,
        {
            let ghost (mid, some) = (cs@, limbs@);
            let limb = E::Base::from_u64(value[i]);
            limbs.push(checked_constant(cs, &limb));
            proof {
                lemma_step_trans(before, mid, cs@);
                assert forall|k: int| 0 <= k < limbs@.len() implies (#[trigger] limbs@[k]).within(cs@) by {
                    if k < i {
                        assert(some[k].within(mid));
                    }
                }
                assert forall|x: Assignment, k: int|
                    #![trigger cs@.follows(x), limbs@[k]]
                    cs@.follows(x) && 0 <= k < i + 1 implies limbs@[k].at(x) == value@[k] by {
                    if k < i {
                        assert(some[k] == limbs@[k]);
                        assert(mid.follows(x));
                    }
                }
            }
            i = i + 1;
        }
        let r = AllocatedBigNat { limbs };
        proof {
            assert(limbs@[0].value.val() == value@[0] && limbs@[1].value.val() == value@[1]);
            assert(limbs@[2].value.val() == value@[2] && limbs@[3].value.val() == value@[3]);
            assert forall|x: Assignment| #[trigger] cs@.follows(x) implies r.proper_at(x) && r.at(x) == limbs_value(
                value,
            ) by {
                assert(limbs@[0].at(x) == value@[0] && limbs@[1].at(x) == value@[1]);
                assert(limbs@[2].at(x) == value@[2] && limbs@[3].at(x) == value@[3]);
            }
        }
        r
    }

    /// The limbs of a number of the system, up to multiples of the order of the field.
    pub fn from_num(cs: &mut ConstraintSystem<E::Base>, n: &AllocatedNum<E::Base>) -> (r: Self)
        requires
            old(cs)@.wf(),
            n.within(old(cs)@),
        ensures
            step(old(cs)@, final(cs)@),
            final(cs)@.satisfied() == old(cs)@.satisfied(),
            final(cs).witness == old(cs).witness,
            final(cs)@.inputs == old(cs)@.inputs,
            r.within(final(cs)@),
            r.value() == n.value.val(),
            forall|x: Assignment| #[trigger]
                final(cs)@.follows(x) ==> r.proper_at(x) && r.at(x) % E::Base::modulus() == n.at(x),
    {
        let ghost before = cs@;
        let ghost p = E::Base::modulus();
        let fragment = E::split_fragment(&n.value);
        let mut inputs: Vec<AllocatedNum<E::Base>> = Vec::new();
        inputs.push(*n);
        assert(Seq::new(inputs@.len(), |i: int| inputs@[i].value.val()) =~= seq![n.value.val()]);
        let limbs = splice(cs, &fragment, &inputs);
        let r = AllocatedBigNat { limbs };
        proof {
            assert forall|x: Assignment| #[trigger] cs@.follows(x) implies r.proper_at(x) && r.at(x) % p == n.at(x) by {
                let y = projection(inputs@, before.aux.len() as int, fragment.aux.len() as int, x);
                assert(fragment@.accepts(y, 1, p));
                assert(y.inputs.skip(1)[0] == ats(inputs@, x)[0]);
                assert(y.inputs[1] == n.at(x));
            }
            lemma_own_agrees(cs@);
            lemma_ats(limbs@, cs@, cs@.own());
            assert(r.proper_at(cs@.own()));
            assert(nvals(limbs@) =~= Seq::new(limbs@.len(), |i: int| limbs@[i].value.val()));
        }
        r
    }

    /// The limbs of three numbers, one after the other.
    fn joined(a: &Self, b: &Self, m: &Self) -> (r: Vec<AllocatedNum<E::Base>>)
        ensures
            r@ == a.limbs@ + b.limbs@ + m.limbs@,
    {
        let mut all = OracleCircuit::<E>::new();
        all.absorb_all(&a.limbs);
        all.absorb_all(&b.limbs);
        all.absorb_all(&m.limbs);
        assert(all.state@ =~= a.limbs@ + b.limbs@ + m.limbs@);
        all.state
    }

    /// The product of two numbers modulo the order of the scalar field, which the third has to be.
    pub fn mult_mod(&self, cs: &mut ConstraintSystem<E::Base>, other: &Self, modulus: &Self) -> (r: Self)
        requires
            old(cs)@.wf(),
            self.within(old(cs)@),
            other.within(old(cs)@),
            modulus.within(old(cs)@),
            modulus.value() == E::Scalar::modulus(),
        ensures
            step(old(cs)@, final(cs)@),
            final(cs)@.satisfied() == old(cs)@.satisfied(),
            final(cs).witness == old(cs).witness,
            final(cs)@.inputs == old(cs)@.inputs,
            r.within(final(cs)@),
            r.value() == (self.value() * other.value()) % E::Scalar::modulus(),
            forall|x: Assignment| #[trigger]
                final(cs)@.follows(x) && self.proper_at(x) && other.proper_at(x) && modulus.proper_at(x) && modulus.at(x)
                    == E::Scalar::modulus() ==> r.proper_at(x) && cong(
                    r.at(x),
                    self.at(x) * other.at(x),
                    E::Scalar::modulus(),
                ),
    {
        let ghost before = cs@;
        let ghost (p, q) = (E::Base::modulus(), E::Scalar::modulus());
        let inputs = Self::joined(self, other, modulus);
        let values = twelve(&inputs);
        proof {
            lemma_joined(*self, *other, *modulus, before, inputs@, vals(values@));
        }
        let fragment = E::multiply_fragment(&values);
        let limbs = splice(cs, &fragment, &inputs);
        let r = AllocatedBigNat { limbs };
        proof {
            assert forall|x: Assignment| #[trigger]
                cs@.follows(x) && self.proper_at(x) && other.proper_at(x) && modulus.proper_at(x) && modulus.at(x)
                    == q implies r.proper_at(x) && cong(r.at(x), self.at(x) * other.at(x), q) by {
                let y = projection(inputs@, before.aux.len() as int, fragment.aux.len() as int, x);
                lemma_joined_at(*self, *other, *modulus, before, inputs@, x, y.inputs);
                assert(fragment@.accepts(y, 12, p));
            }
            lemma_own_agrees(cs@);
            lemma_ats(limbs@, cs@, cs@.own());
            lemma_nat_own(*self, cs@, cs@.own());
            lemma_nat_own(*other, cs@, cs@.own());
            lemma_nat_own(*modulus, cs@, cs@.own());
            assert(r.proper_at(cs@.own()));
            assert(nvals(limbs@) =~= Seq::new(limbs@.len(), |i: int| limbs@[i].value.val()));
        }
        r
    }

    /// The sum of two numbers modulo the order of the scalar field, which the third has to be.
    pub fn add_mod(&self, cs: &mut ConstraintSystem<E::Base>, other: &Self, modulus: &Self) -> (r: Self)
        requires
            old(cs)@.wf(),
            self.within(old(cs)@),
            other.within(old(cs)@),
            modulus.within(old(cs)@),
            modulus.value() == E::Scalar::modulus(),
        ensures
            step(old(cs)@, final(cs)@),
            final(cs)@.satisfied() == old(cs)@.satisfied(),
            final(cs).witness == old(cs).witness,
            final(cs)@.inputs == old(cs)@.inputs,
            r.within(final(cs)@),
            r.value() == (self.value() + other.value()) % E::Scalar::modulus(),
            forall|x: Assignment| #[trigger]
                final(cs)@.follows(x) && self.proper_at(x) && other.proper_at(x) && modulus.proper_at(x) && modulus.at(x)
                    == E::Scalar::modulus() ==> r.proper_at(x) && cong(
                    r.at(x),
                    self.at(x) + other.at(x),
                    E::Scalar::modulus(),
                ),
    {
        let ghost before = cs@;
        let ghost (p, q) = (E::Base::modulus(), E::Scalar::modulus());
        let inputs = Self::joined(self, other, modulus);
        let values = twelve(&inputs);
        proof {
            lemma_joined(*self, *other, *modulus, before, inputs@, vals(values@));
        }
        let fragment = E::reduce_fragment(&values);
        let limbs = splice(cs, &fragment, &inputs);
        let r = AllocatedBigNat { limbs };
        proof {
            assert forall|x: Assignment| #[trigger]
                cs@.follows(x) && self.proper_at(x) && other.proper_at(x) && modulus.proper_at(x) && modulus.at(x)
                    == q implies r.proper_at(x) && cong(r.at(x), self.at(x) + other.at(x), q) by {
                let y = projection(inputs@, before.aux.len() as int, fragment.aux.len() as int, x);
                lemma_joined_at(*self, *other, *modulus, before, inputs@, x, y.inputs);
                assert(fragment@.accepts(y, 12, p));
            }
            lemma_own_agrees(cs@);
            lemma_ats(limbs@, cs@, cs@.own());
            lemma_nat_own(*self, cs@, cs@.own());
            lemma_nat_own(*other, cs@, cs@.own());
            lemma_nat_own(*modulus, cs@, cs@.own());
            assert(r.proper_at(cs@.own()));
            assert(nvals(limbs@) =~= Seq::new(limbs@.len(), |i: int| limbs@[i].value.val()));
        }
        r
    }

    /// The first number if the bit is one, else the second.
    pub fn conditionally_select(
        cs: &mut ConstraintSystem<E::Base>,
        a: &Self,
        b: &Self,
        condition: &AllocatedBit<E::Base>,
    ) -> (r: Self)
        requires
            old(cs)@.wf(),
            a.within(old(cs)@),
            b.within(old(cs)@),
            condition.within(old(cs)@),
        ensures
            step(old(cs)@, final(cs)@),
            final(cs)@.satisfied() == old(cs)@.satisfied(),
            final(cs).witness == old(cs).witness,
            final(cs)@.inputs == old(cs)@.inputs,
            r.within(final(cs)@),
            forall|x: Assignment| #[trigger]
                final(cs)@.follows(x) ==> ats(r.limbs@, x) == if condition.at(x) == 1 {
                    ats(a.limbs@, x)
                } else {
                    ats(b.limbs@, x)
                },
    {
        let limbs = conditionally_select_vec(cs, &a.limbs, &b.limbs, condition);
        proof {
            lemma_own_agrees(cs@);
            lemma_ats(limbs@, cs@, cs@.own());
            lemma_nat_own(*a, cs@, cs@.own());
            lemma_nat_own(*b, cs@, cs@.own());
        }
        AllocatedBigNat { limbs }
    }

    /// Numbers constrained to be the limbs.
    pub fn as_allocated_nums(&self, cs: &mut ConstraintSystem<E::Base>) -> (r: Vec<AllocatedNum<E::Base>>)
        requires
            old(cs)@.wf(),
            self.within(old(cs)@),
        ensures
            step(old(cs)@, final(cs)@),
            final(cs)@.satisfied() == old(cs)@.satisfied(),
            final(cs).witness == old(cs).witness,
            final(cs)@.inputs == old(cs)@.inputs,
            r@.len() == 4,
            all_within(r@, final(cs)@),
            forall|x: Assignment| #[trigger] final(cs)@.follows(x) ==> ats(r@, x) == ats(self.limbs@, x),
    {
        let ghost before = cs@;
        let mut r: Vec<AllocatedNum<E::Base>> = Vec::new();
        let mut i: usize = 0;
        proof {
            lemma_step_refl(before);
        }
        while i < self.limbs.len()
            invariant
                i <= self.limbs.len(),
                r.len() == i,
                step(before, cs@),
                cs@.satisfied() == before.satisfied(),
                cs.witness == old(cs).witness,
                cs@.inputs == before.inputs,
                self.within(before),
                all_within(r@, cs@),
                forall|x: Assignment, k: int|
                    #![trigger cs@.follows(x), r@[k]]
                    cs@.follows(x) && 0 <= k < i ==> r@[k].at(x) == self.limbs@[k].at(x),
            decreases self.limbs.len() - i,
        {
            let ghost (mid, some) = (cs@, r@);
            assert(self.limbs@[i as int].within(before));
            r.push(checked_copy(cs, &self.limbs[i]));
            proof {
                lemma_step_trans(before, mid, cs@);
                assert forall|k: int| 0 <= k < r@.len() implies (#[trigger] r@[k]).within(cs@) by {
                    if k < i {
                        assert(some[k].within(mid));
                    }
                }
                assert forall|x: Assignment, k: int|
                    #![trigger cs@.follows(x), r@[k]]
                    cs@.follows(x) && 0 <= k < i + 1 implies r@[k].at(x) == self.limbs@[k].at(x) by {
                    if k < i {
                        assert(some[k] == r@[k]);
                        assert(mid.follows(x));
                    }
                }
            }
            i = i + 1;
        }
        proof {
            assert forall|x: Assignment| #[trigger] cs@.follows(x) implies ats(r@, x) == ats(self.limbs@, x) by {
                assert(ats(r@, x) =~= ats(self.limbs@, x));
            }
        }
        r
    }

    /// The same number once more.
    pub(crate) fn copied(&self) -> (r: Self)
        ensures
            r.limbs@ == self.limbs@,
    {
        AllocatedBigNat { limbs: copy_nums(&self.limbs) }
    }
}

/// The values of twelve numbers.
fn twelve<F: FieldElement>(nums: &Vec<AllocatedNum<F>>) -> (r: [F; 12])
    requires
        nums.len() == 12,
    ensures
        vals(r@) == nvals(nums@),
{
    let r = [
        nums[0].value,
        nums[1].value,
        nums[2].value,
        nums[3].value,
        nums[4].value,
        nums[5].value,
        nums[6].value,
        nums[7].value,
        nums[8].value,
        nums[9].value,
        nums[10].value,
        nums[11].value,
    ];
    assert(vals(r@) =~= nvals(nums@));
    r
}

/// The limbs of three numbers, one after the other, have the values of the numbers.
proof fn lemma_joined<E: CurveGroup>(
    a: AllocatedBigNat<E>,
    b: AllocatedBigNat<E>,
    m: AllocatedBigNat<E>,
    cs: CsView,
    inputs: Seq<AllocatedNum<E::Base>>,
    values: Seq<int>,
)
    requires
        a.within(cs),
        b.within(cs),
        m.within(cs),
        inputs == a.limbs@ + b.limbs@ + m.limbs@,
        values == nvals(inputs),
    ensures
        all_within(inputs, cs),
        values == Seq::new(inputs.len(), |i: int| inputs[i].value.val()),
        is_nat(values, 0),
        is_nat(values, 4),
        is_nat(values, 8),
        nat_of(values, 0) == a.value(),
        nat_of(values, 4) == b.value(),
        nat_of(values, 8) == m.value(),
{
    assert(values =~= Seq::new(inputs.len(), |i: int| inputs[i].value.val()));
    let (u, v, w) = (nvals(a.limbs@), nvals(b.limbs@), nvals(m.limbs@));
    assert(values[0] == u[0] && values[1] == u[1] && values[2] == u[2] && values[3] == u[3]);
    assert(values[4] == v[0] && values[5] == v[1] && values[6] == v[2] && values[7] == v[3]);
    assert(values[8] == w[0] && values[9] == w[1] && values[10] == w[2] && values[11] == w[3]);
    assert forall|k: int| 0 <= k < inputs.len() implies (#[trigger] inputs[k]).within(cs) by {
        if k < 4 {
            assert(a.limbs@[k].within(cs));
        } else if k < 8 {
            assert(b.limbs@[k - 4].within(cs));
        } else {
            assert(m.limbs@[k - 8].within(cs));
        }
    }
}

/// The limbs of three numbers, one after the other, are the numbers under an assignment.
proof fn lemma_joined_at<E: CurveGroup>(
    a: AllocatedBigNat<E>,
    b: AllocatedBigNat<E>,
    m: AllocatedBigNat<E>,
    cs: CsView,
    inputs: Seq<AllocatedNum<E::Base>>,
    x: Assignment,
    given: Seq<int>,
)
    requires
        a.within(cs),
        b.within(cs),
        m.within(cs),
        inputs == a.limbs@ + b.limbs@ + m.limbs@,
        given == seq![1int] + ats(inputs, x),
    ensures
        nat_of(given, 1) == a.at(x),
        nat_of(given, 5) == b.at(x),
        nat_of(given, 9) == m.at(x),
        is_nat(given, 1) == a.proper_at(x),
        is_nat(given, 5) == b.proper_at(x),
        is_nat(given, 9) == m.proper_at(x),
{
    let (u, v, w) = (ats(a.limbs@, x), ats(b.limbs@, x), ats(m.limbs@, x));
    assert(given[1] == u[0] && given[2] == u[1] && given[3] == u[2] && given[4] == u[3]);
    assert(given[5] == v[0] && given[6] == v[1] && given[7] == v[2] && given[8] == v[3]);
    assert(given[9] == w[0] && given[10] == w[1] && given[11] == w[2] && given[12] == w[3]);
}

} // verus!
