//! Numbers and bits in a constraint system, and what can be computed from them there.
use crate::cs::{
    lc_eval, lc_within, lemma_extends_trans, lemma_follows, lemma_lc_agrees, lemma_lc_empty, lemma_lc_push, lemma_one,
    lemma_own_follows, lemma_step, lemma_step_trans, step, Assignment, ConstraintSystem, ConstraintView, CsView,
    LcView, LinearCombination, Variable,
};
use crate::field::FieldElement;
use crate::layout::{
    bits_combination, doubled, lay_add, lay_add_const, lay_bit, lay_bits_to_num, lay_equal, lay_false, lay_inputize,
    lay_mul, lay_mul_const, lay_nor, lay_num_equals, lay_one, lay_one_minus, lay_product, lay_select, lay_select_all,
    lay_sub, lay_true, lay_zero, lone,
};
use crate::math::{cong, lemma_canonical, lemma_cong_add, lemma_cong_mod, lemma_cong_mul, lemma_cong_sub, sum, vanishes};
use vstd::arithmetic::power2::pow2;
use vstd::prelude::*;

verus! {

/// A number that a variable holds.
#[derive(Clone, Copy)]
pub struct AllocatedNum<F: FieldElement> {
    pub variable: Variable,
    pub value: F,
}

/// A number that is zero or one.
#[derive(Clone, Copy)]
pub struct AllocatedBit<F: FieldElement> {
    pub num: AllocatedNum<F>,
}

impl<F: FieldElement> AllocatedNum<F> {
    /// The number under an assignment.
    pub open spec fn at(&self, x: Assignment) -> int {
        x.get(self.variable)
    }

    /// Whether the variable is of the system and was given the value.
    pub open spec fn within(&self, cs: CsView) -> bool {
        cs.assigns(self.variable, self.value.val())
    }
}

impl<F: FieldElement> AllocatedBit<F> {
    /// The bit under an assignment.
    pub open spec fn at(&self, x: Assignment) -> int {
        self.num.at(x)
    }

    /// Whether the variable is of the system, was given the value, and can be zero or one only.
    pub open spec fn within(&self, cs: CsView) -> bool {
        &&& self.num.within(cs)
        &&& forall|x: Assignment| #[trigger] cs.follows(x) ==> self.at(x) == 0 || self.at(x) == 1
    }
}

/// The variables of numbers.
pub open spec fn wires<F: FieldElement>(nums: Seq<AllocatedNum<F>>) -> Seq<Variable> {
    Seq::new(nums.len(), |i: int| nums[i].variable)
}

/// The variables of bits.
pub open spec fn bit_wires<F: FieldElement>(bits: Seq<AllocatedBit<F>>) -> Seq<Variable> {
    Seq::new(bits.len(), |i: int| bits[i].num.variable)
}

/// The numbers under an assignment.
pub open spec fn ats<F: FieldElement>(nums: Seq<AllocatedNum<F>>, x: Assignment) -> Seq<int> {
    Seq::new(nums.len(), |i: int| nums[i].at(x))
}

/// The bits under an assignment.
pub open spec fn bit_ats<F: FieldElement>(bits: Seq<AllocatedBit<F>>, x: Assignment) -> Seq<int> {
    Seq::new(bits.len(), |i: int| bits[i].at(x))
}

/// Whether all numbers are of the system.
pub open spec fn all_within<F: FieldElement>(nums: Seq<AllocatedNum<F>>, cs: CsView) -> bool {
    forall|i: int| 0 <= i < nums.len() ==> (#[trigger] nums[i]).within(cs)
}

/// Whether all bits are of the system.
pub open spec fn bits_within<F: FieldElement>(bits: Seq<AllocatedBit<F>>, cs: CsView) -> bool {
    forall|i: int| 0 <= i < bits.len() ==> (#[trigger] bits[i]).within(cs)
}

/// What follows a system gives a residue to each of its numbers, and the given value where it agrees.
pub proof fn lemma_at<F: FieldElement>(n: AllocatedNum<F>, cs: CsView, x: Assignment)
    requires
        cs.follows(x),
        n.within(cs),
    ensures
        0 <= n.at(x) < cs.p,
        cs.agrees(x) ==> n.at(x) == n.value.val(),
{
    lemma_follows(cs, x, n.variable, n.value.val());
}

/// The values that were given assign to each number its value.
pub proof fn lemma_own<F: FieldElement>(n: AllocatedNum<F>, cs: CsView)
    requires
        n.within(cs),
    ensures
        n.at(cs.own()) == n.value.val(),
{
    reveal(CsView::assigns);
}

/// Whether all terms of a combination are of the system.
pub open spec fn lc_of(lc: LcView, cs: CsView) -> bool {
    lc_within(lc, cs.inputs.len() as int, cs.aux.len() as int)
}

/// The combination of one variable.
pub(crate) fn lc_var<F: FieldElement>(v: Variable) -> (r: LinearCombination<F>)
    ensures
        r@ == lone(v),
        forall|x: Assignment| #[trigger] lc_eval(r@, x) == x.get(v),
        forall|cs: CsView, k: int| #[trigger] cs.assigns(v, k) ==> lc_of(r@, cs),
{
    let r = LinearCombination::zero().plus(&F::from_u64(1), v);
    proof {
        reveal(CsView::assigns);
        assert(r@ =~= seq![(v, 1int)]);
        assert forall|x: Assignment| #[trigger] lc_eval(r@, x) == x.get(v) by {
            lemma_lc_empty(x);
            lemma_lc_push(LcView::empty(), v, 1, x);
        }
    }
    r
}

/// A combination with a multiple of a variable added.
pub(crate) fn lc_plus_scaled<F: FieldElement>(lc: LinearCombination<F>, c: &F, v: Variable) -> (r: LinearCombination<
    F,
>)
    ensures
        r@ == lc@.push((v, c.val())),
        forall|x: Assignment| #[trigger] lc_eval(r@, x) == lc_eval(lc@, x) + c.val() * x.get(v),
        forall|cs: CsView, k: int| #[trigger] cs.assigns(v, k) && lc_of(lc@, cs) ==> lc_of(r@, cs),
{
    let r = lc.plus(c, v);
    proof {
        reveal(CsView::assigns);
        assert forall|x: Assignment| #[trigger] lc_eval(r@, x) == lc_eval(lc@, x) + c.val() * x.get(v) by {
            lemma_lc_push(lc@, v, c.val(), x);
        }
        assert forall|cs: CsView, k: int| #[trigger] cs.assigns(v, k) && lc_of(lc@, cs) implies lc_of(r@, cs) by {
            assert forall|i: int| 0 <= i < r@.len() implies crate::cs::var_within(
                (#[trigger] r@[i]).0,
                cs.inputs.len() as int,
                cs.aux.len() as int,
            ) by {
                if i < lc@.len() {
                    assert(lc@[i] == r@[i]);
                }
            }
        }
    }
    r
}

/// A combination with a variable added.
pub(crate) fn lc_plus<F: FieldElement>(lc: LinearCombination<F>, v: Variable) -> (r: LinearCombination<F>)
    ensures
        r@ == lc@.push((v, 1)),
        forall|x: Assignment| #[trigger] lc_eval(r@, x) == lc_eval(lc@, x) + x.get(v),
        forall|cs: CsView, k: int| #[trigger] cs.assigns(v, k) && lc_of(lc@, cs) ==> lc_of(r@, cs),
{
    lc_plus_scaled(lc, &F::from_u64(1), v)
}

/// A combination with a variable subtracted.
pub(crate) fn lc_minus<F: FieldElement>(lc: LinearCombination<F>, v: Variable) -> (r: LinearCombination<F>)
    ensures
        r@ == lc@.push((v, F::modulus() - 1)),
        forall|x: Assignment|
            cong(#[trigger] lc_eval(r@, x), lc_eval(lc@, x) - x.get(v), F::modulus()),
        forall|cs: CsView, k: int| #[trigger] cs.assigns(v, k) && lc_of(lc@, cs) ==> lc_of(r@, cs),
{
    let minus_one = F::minus_one();
    let r = lc_plus_scaled(lc, &minus_one, v);
    proof {
        let p = F::modulus();
        F::modulus_bounds();
        assert(cong(p - 1, 0 - 1, p)) by {
            lemma_cong_sub(p, 0, 1, 1, p);
            vstd::arithmetic::div_mod::lemma_mod_self_0(p);
            vstd::arithmetic::div_mod::lemma_small_mod(0, p as nat);
        }
        assert forall|x: Assignment| cong(#[trigger] lc_eval(r@, x), lc_eval(lc@, x) - x.get(v), p) by {
            lemma_cong_mul(minus_one.val(), 0 - 1, x.get(v), x.get(v), p);
            lemma_cong_add(lc_eval(lc@, x), lc_eval(lc@, x), minus_one.val() * x.get(v), (0 - 1) * x.get(v), p);
            let t = x.get(v);
            assert((0 - 1) * t == -t) by (nonlinear_arith);
        }
    }
    r
}

/// A combination of a system has one value under all assignments that agree with the values given.
pub(crate) proof fn lemma_lc_own(lc: LcView, a: CsView, b: CsView, x: Assignment)
    requires
        a.extended_by(b),
        b.agrees(x),
        lc_of(lc, a),
    ensures
        lc_eval(lc, x) == lc_eval(lc, a.own()),
{
    reveal(CsView::extended_by);
    reveal(CsView::agrees);
    assert forall|k: int| 0 <= k < lc.len() implies x.get((#[trigger] lc[k]).0) == a.own().get(lc[k].0) by {
        assert(crate::cs::var_within(lc[k].0, a.inputs.len() as int, a.aux.len() as int));
        match lc[k].0 {
            Variable::Input(i) => {
                assert(b.inputs[i as int] == x.inputs[i as int]);
            },
            Variable::Aux(i) => {
                assert(b.aux[i as int] == x.aux[i as int]);
            },
        }
    }
    lemma_lc_agrees(lc, x, a.own());
}

/// A combination stays of the system that it is of.
pub(crate) proof fn lemma_lc_of(lc: LcView, a: CsView, b: CsView)
    requires
        a.extended_by(b),
        lc_of(lc, a),
    ensures
        lc_of(lc, b),
{
    reveal(CsView::extended_by);
    assert forall|k: int| 0 <= k < lc.len() implies crate::cs::var_within(
        (#[trigger] lc[k]).0,
        b.inputs.len() as int,
        b.aux.len() as int,
    ) by {
        assert(crate::cs::var_within(lc[k].0, a.inputs.len() as int, a.aux.len() as int));
    }
}

/// A number constrained to be the product of two combinations, of which the value is given.
pub(crate) fn constrain<F: FieldElement>(
    cs: &mut ConstraintSystem<F>,
    a: LinearCombination<F>,
    b: LinearCombination<F>,
    value: F,
) -> (r: AllocatedNum<F>)
    requires
        old(cs)@.wf(),
        lc_of(a@, old(cs)@),
        lc_of(b@, old(cs)@),
        cong(value.val(), lc_eval(a@, old(cs)@.own()) * lc_eval(b@, old(cs)@.own()), F::modulus()),
    ensures
        (final(cs)@.layout(), r.variable) == lay_product(old(cs)@.layout(), a@, b@),
        step(old(cs)@, final(cs)@),
        final(cs)@.satisfied() == old(cs)@.satisfied(),
        r.within(final(cs)@),
        r.value == value,
        final(cs).witness == old(cs).witness,
        final(cs)@.inputs == old(cs)@.inputs,
        forall|x: Assignment| #[trigger]
            final(cs)@.follows(x) ==> r.at(x) == (lc_eval(a@, x) * lc_eval(b@, x)) % F::modulus(),
{
    proof {
        reveal(lay_product);
    }
    let ghost before = cs@;
    let ghost p = F::modulus();
    let v = cs.allocate(&value);
    let ghost mid = cs@;
    let out = lc_var(v);
    proof {
        lemma_lc_of(a@, before, mid);
        lemma_lc_of(b@, before, mid);
        reveal(CsView::assigns);
        assert(mid.assigns(v, value.val()));
    }
    cs.enforce(a, b, out);
    let r = AllocatedNum { variable: v, value };
    proof {
        let after = cs@;
        let k = ConstraintView { a: a@, b: b@, c: out@ };
        lemma_extends_trans(before, mid, after);
        lemma_step(before, after);
        let own = after.own();
        assert(own == mid.own());
        lemma_own_follows(mid);
        reveal(CsView::agrees);
        reveal(CsView::wf);
        assert(mid.agrees(own));
        lemma_lc_own(a@, before, mid, own);
        lemma_lc_own(b@, before, mid, own);
        assert(lc_eval(out@, own) == own.get(v));
        assert(k.sat(own, p));
        assert(mid.holds(own) == mid.satisfied());
        assert(after.assigns(v, value.val()));
        assert forall|x: Assignment| #[trigger] after.follows(x) implies r.at(x) == (lc_eval(a@, x)
            * lc_eval(b@, x)) % p by {
            lemma_follows(after, x, v, value.val());
            assert(lc_eval(out@, x) == x.get(v));
            if after.holds(x) {
                assert(k.sat(x, p));
            } else {
                lemma_lc_own(a@, before, after, x);
                lemma_lc_own(b@, before, after, x);
            }
            lemma_canonical(r.at(x), lc_eval(a@, x) * lc_eval(b@, x), p);
        }
    }
    r
}

/// A constraint that the product of two combinations is a third, which they are for the values given if
/// `good`.
pub(crate) fn demand<F: FieldElement>(
    cs: &mut ConstraintSystem<F>,
    a: LinearCombination<F>,
    b: LinearCombination<F>,
    c: LinearCombination<F>,
    Ghost(good): Ghost<bool>,
)
    requires
        old(cs)@.wf(),
        lc_of(a@, old(cs)@),
        lc_of(b@, old(cs)@),
        lc_of(c@, old(cs)@),
        good == cong(
            lc_eval(a@, old(cs)@.own()) * lc_eval(b@, old(cs)@.own()),
            lc_eval(c@, old(cs)@.own()),
            F::modulus(),
        ),
    ensures
        final(cs)@.layout() == old(cs)@.layout().with(a@, b@, c@),
        step(old(cs)@, final(cs)@),
        final(cs)@.satisfied() == (old(cs)@.satisfied() && good),
        final(cs).witness == old(cs).witness,
        final(cs)@.inputs == old(cs)@.inputs,
        final(cs)@.aux == old(cs)@.aux,
        final(cs)@.constraints == old(cs)@.constraints.push((ConstraintView { a: a@, b: b@, c: c@ })),
        forall|x: Assignment| #[trigger]
            final(cs)@.holds(x) ==> cong(lc_eval(a@, x) * lc_eval(b@, x), lc_eval(c@, x), F::modulus()),
{
    let ghost before = cs@;
    cs.enforce(a, b, c);
    proof {
        lemma_step(before, cs@);
        assert(cs@.own() == before.own());
    }
}

impl<F: FieldElement> AllocatedNum<F> {
    /// A new number.
    pub fn allocate(cs: &mut ConstraintSystem<F>, value: &F) -> (r: Self)
        requires
            old(cs)@.wf(),
        ensures
            final(cs)@.layout() == old(cs)@.layout().grown(),
            r.variable == old(cs)@.layout().next(),
            step(old(cs)@, final(cs)@),
            final(cs)@.satisfied() == old(cs)@.satisfied(),
            r.within(final(cs)@),
            r.value == *value,
            r.variable == Variable::Aux(old(cs)@.aux.len() as usize),
            final(cs)@.aux == old(cs)@.aux.push(value.val()),
            final(cs).witness == old(cs).witness,
            final(cs)@.inputs == old(cs)@.inputs,
    {
        let ghost before = cs@;
        let variable = cs.allocate(value);
        proof {
            lemma_step(before, cs@);
            reveal(CsView::assigns);
        }
        AllocatedNum { variable, value: *value }
    }

    /// The sum of two numbers.
    pub fn add(&self, cs: &mut ConstraintSystem<F>, other: &Self) -> (r: Self)
        requires
            old(cs)@.wf(),
            self.within(old(cs)@),
            other.within(old(cs)@),
        ensures
            (final(cs)@.layout(), r.variable) == lay_add(old(cs)@.layout(), self.variable, other.variable),
            step(old(cs)@, final(cs)@),
            final(cs)@.satisfied() == old(cs)@.satisfied(),
            r.within(final(cs)@),
            final(cs).witness == old(cs).witness,
            final(cs)@.inputs == old(cs)@.inputs,
            forall|x: Assignment| #[trigger]
                final(cs)@.follows(x) ==> r.at(x) == (self.at(x) + other.at(x)) % F::modulus(),
    {
        let ghost before = cs@;
        let value = self.value.add(&other.value);
        let both = lc_plus(lc_var(self.variable), other.variable);
        let one = lc_var(Variable::Input(0));
        proof {
            lemma_one(before);
            F::modulus_bounds();
            lemma_own(*self, before);
            lemma_own(*other, before);
            reveal(CsView::assigns);
            lemma_cong_mod(self.value.val() + other.value.val(), F::modulus());
            let s = lc_eval(both@, before.own());
            assert(s * 1 == s);
        }
        let r = constrain(cs, both, one, value);
        proof {
            lemma_one(cs@);
            assert forall|x: Assignment| #[trigger] cs@.follows(x) implies r.at(x) == (self.at(x) + other.at(x))
                % F::modulus() by {
                lemma_follows(cs@, x, Variable::Input(0), 1);
                let s = lc_eval(both@, x);
                assert(s * 1 == s);
            }
        }
        r
    }

    /// The product of two numbers.
    pub fn mul(&self, cs: &mut ConstraintSystem<F>, other: &Self) -> (r: Self)
        requires
            old(cs)@.wf(),
            self.within(old(cs)@),
            other.within(old(cs)@),
        ensures
            (final(cs)@.layout(), r.variable) == lay_mul(old(cs)@.layout(), self.variable, other.variable),
            step(old(cs)@, final(cs)@),
            final(cs)@.satisfied() == old(cs)@.satisfied(),
            r.within(final(cs)@),
            final(cs).witness == old(cs).witness,
            final(cs)@.inputs == old(cs)@.inputs,
            forall|x: Assignment| #[trigger]
                final(cs)@.follows(x) ==> r.at(x) == (self.at(x) * other.at(x)) % F::modulus(),
    {
        let value = self.value.mul(&other.value);
        let a = lc_var(self.variable);
        let b = lc_var(other.variable);
        proof {
            F::modulus_bounds();
            lemma_own(*self, cs@);
            lemma_own(*other, cs@);
            lemma_cong_mod(self.value.val() * other.value.val(), F::modulus());
        }
        constrain(cs, a, b, value)
    }

    /// The square of a number.
    pub fn square(&self, cs: &mut ConstraintSystem<F>) -> (r: Self)
        requires
            old(cs)@.wf(),
            self.within(old(cs)@),
        ensures
            (final(cs)@.layout(), r.variable) == lay_mul(old(cs)@.layout(), self.variable, self.variable),
            step(old(cs)@, final(cs)@),
            final(cs)@.satisfied() == old(cs)@.satisfied(),
            r.within(final(cs)@),
            final(cs).witness == old(cs).witness,
            final(cs)@.inputs == old(cs)@.inputs,
            forall|x: Assignment| #[trigger]
                final(cs)@.follows(x) ==> r.at(x) == (self.at(x) * self.at(x)) % F::modulus(),
    {
        self.mul(cs, self)
    }

    /// The difference of two numbers.
    pub fn sub(&self, cs: &mut ConstraintSystem<F>, other: &Self) -> (r: Self)
        requires
            old(cs)@.wf(),
            self.within(old(cs)@),
            other.within(old(cs)@),
        ensures
            (final(cs)@.layout(), r.variable) == lay_sub(old(cs)@.layout(), self.variable, other.variable, F::modulus()),
            step(old(cs)@, final(cs)@),
            final(cs)@.satisfied() == old(cs)@.satisfied(),
            r.within(final(cs)@),
            final(cs).witness == old(cs).witness,
            final(cs)@.inputs == old(cs)@.inputs,
            forall|x: Assignment| #[trigger]
                final(cs)@.follows(x) ==> r.at(x) == (self.at(x) - other.at(x)) % F::modulus(),
    {
        let ghost before = cs@;
        let ghost p = F::modulus();
        let value = self.value.sub(&other.value);
        let one = lc_var(Variable::Input(0));
        let diff = lc_minus(lc_var(self.variable), other.variable);
        proof {
            F::modulus_bounds();
            lemma_one(before);
            lemma_own(*self, before);
            lemma_own(*other, before);
            reveal(CsView::assigns);
            lemma_cong_mod(self.value.val() - other.value.val(), p);
            let s = lc_eval(diff@, before.own());
            assert(cong(s, self.value.val() - other.value.val(), p));
            assert(1 * s == s);
        }
        let r = constrain(cs, one, diff, value);
        proof {
            lemma_one(cs@);
            assert forall|x: Assignment| #[trigger] cs@.follows(x) implies r.at(x) == (self.at(x) - other.at(x)) % p by {
                lemma_follows(cs@, x, Variable::Input(0), 1);
                let s = lc_eval(diff@, x);
                assert(1 * s == s);
                assert(cong(s, self.at(x) - other.at(x), p));
            }
        }
        r
    }

    /// A number plus a constant.
    pub fn add_const(&self, cs: &mut ConstraintSystem<F>, c: &F) -> (r: Self)
        requires
            old(cs)@.wf(),
            self.within(old(cs)@),
        ensures
            (final(cs)@.layout(), r.variable) == lay_add_const(old(cs)@.layout(), self.variable, c.val()),
            step(old(cs)@, final(cs)@),
            final(cs)@.satisfied() == old(cs)@.satisfied(),
            r.within(final(cs)@),
            final(cs).witness == old(cs).witness,
            final(cs)@.inputs == old(cs)@.inputs,
            forall|x: Assignment| #[trigger]
                final(cs)@.follows(x) ==> r.at(x) == (self.at(x) + c.val()) % F::modulus(),
    {
        let ghost before = cs@;
        let ghost p = F::modulus();
        let value = self.value.add(c);
        let one = lc_var(Variable::Input(0));
        let shifted = lc_plus_scaled(lc_var(self.variable), c, Variable::Input(0));
        proof {
            F::modulus_bounds();
            lemma_one(before);
            lemma_own(*self, before);
            reveal(CsView::assigns);
            lemma_cong_mod(self.value.val() + c.val(), p);
            let s = lc_eval(shifted@, before.own());
            assert(c.val() * 1 == c.val());
            assert(s == self.value.val() + c.val());
            assert(1 * s == s);
        }
        let r = constrain(cs, one, shifted, value);
        proof {
            lemma_one(cs@);
            assert forall|x: Assignment| #[trigger] cs@.follows(x) implies r.at(x) == (self.at(x) + c.val()) % p by {
                lemma_follows(cs@, x, Variable::Input(0), 1);
                let s = lc_eval(shifted@, x);
                assert(c.val() * 1 == c.val());
                assert(s == self.at(x) + c.val());
                assert(1 * s == s);
            }
        }
        r
    }

    /// A number times a constant.
    pub fn mul_const(&self, cs: &mut ConstraintSystem<F>, c: &F) -> (r: Self)
        requires
            old(cs)@.wf(),
            self.within(old(cs)@),
        ensures
            (final(cs)@.layout(), r.variable) == lay_mul_const(old(cs)@.layout(), self.variable, c.val()),
            step(old(cs)@, final(cs)@),
            final(cs)@.satisfied() == old(cs)@.satisfied(),
            r.within(final(cs)@),
            final(cs).witness == old(cs).witness,
            final(cs)@.inputs == old(cs)@.inputs,
            forall|x: Assignment| #[trigger]
                final(cs)@.follows(x) ==> r.at(x) == (self.at(x) * c.val()) % F::modulus(),
    {
        let ghost before = cs@;
        let ghost p = F::modulus();
        let value = self.value.mul(c);
        let a = lc_var(self.variable);
        let k = lc_plus_scaled(LinearCombination::zero(), c, Variable::Input(0));
        proof {
            F::modulus_bounds();
            lemma_one(before);
            lemma_own(*self, before);
            reveal(CsView::assigns);
            lemma_cong_mod(self.value.val() * c.val(), p);
            lemma_lc_empty(before.own());
            assert(c.val() * 1 == c.val());
        }
        let r = constrain(cs, a, k, value);
        proof {
            lemma_one(cs@);
            assert forall|x: Assignment| #[trigger] cs@.follows(x) implies r.at(x) == (self.at(x) * c.val()) % p by {
                lemma_follows(cs@, x, Variable::Input(0), 1);
                lemma_lc_empty(x);
                assert(c.val() * 1 == c.val());
            }
        }
        r
    }

    /// One minus a number.
    pub fn one_minus(&self, cs: &mut ConstraintSystem<F>) -> (r: Self)
        requires
            old(cs)@.wf(),
            self.within(old(cs)@),
        ensures
            (final(cs)@.layout(), r.variable) == lay_one_minus(old(cs)@.layout(), self.variable, F::modulus()),
            step(old(cs)@, final(cs)@),
            final(cs)@.satisfied() == old(cs)@.satisfied(),
            r.within(final(cs)@),
            final(cs).witness == old(cs).witness,
            final(cs)@.inputs == old(cs)@.inputs,
            forall|x: Assignment| #[trigger]
                final(cs)@.follows(x) ==> r.at(x) == (1 - self.at(x)) % F::modulus(),
    {
        let ghost before = cs@;
        let ghost p = F::modulus();
        let value = F::from_u64(1).sub(&self.value);
        let one = lc_var(Variable::Input(0));
        let diff = lc_minus(lc_var(Variable::Input(0)), self.variable);
        proof {
            F::modulus_bounds();
            lemma_one(before);
            lemma_own(*self, before);
            reveal(CsView::assigns);
            lemma_cong_mod(1 - self.value.val(), p);
            let s = lc_eval(diff@, before.own());
            assert(cong(s, 1 - self.value.val(), p));
            assert(1 * s == s);
        }
        let r = constrain(cs, one, diff, value);
        proof {
            lemma_one(cs@);
            assert forall|x: Assignment| #[trigger] cs@.follows(x) implies r.at(x) == (1 - self.at(x)) % p by {
                lemma_follows(cs@, x, Variable::Input(0), 1);
                let s = lc_eval(diff@, x);
                assert(1 * s == s);
                assert(cong(s, 1 - self.at(x), p));
            }
        }
        r
    }

    /// A number that is made public.
    pub fn inputize(&self, cs: &mut ConstraintSystem<F>)
        requires
            old(cs)@.wf(),
            self.within(old(cs)@),
        ensures
            final(cs)@.layout() == lay_inputize(old(cs)@.layout(), self.variable),
            step(old(cs)@, final(cs)@),
            final(cs)@.satisfied() == old(cs)@.satisfied(),
            final(cs).witness == old(cs).witness,
            final(cs)@.inputs == old(cs)@.inputs.push(self.value.val()),
            final(cs)@.constraints.len() == old(cs)@.constraints.len() + 1,
            forall|x: Assignment| #[trigger]
                final(cs)@.follows(x) ==> x.inputs[old(cs)@.inputs.len() as int] == self.at(x),
    {
        proof {
            reveal(lay_inputize);
        }
        let ghost before = cs@;
        let ghost p = F::modulus();
        let v = cs.allocate_input(&self.value);
        let ghost mid = cs@;
        let a = lc_var(v);
        let one = lc_var(Variable::Input(0));
        let c = lc_var(self.variable);
        proof {
            lemma_step(before, mid);
            lemma_one(mid);
            reveal(CsView::assigns);
            lemma_own(*self, mid);
            assert(mid.assigns(v, self.value.val()));
            assert(self.value.val() * 1 == self.value.val());
        }
        demand(cs, a, one, c, Ghost(true));
        proof {
            lemma_step_trans(before, mid, cs@);
            reveal(CsView::wf);
            assert forall|x: Assignment| #[trigger] cs@.follows(x) implies x.inputs[before.inputs.len() as int]
                == self.at(x) by {
                lemma_follows(cs@, x, Variable::Input(0), 1);
                lemma_follows(cs@, x, v, self.value.val());
                lemma_at(*self, cs@, x);
                if cs@.holds(x) {
                    assert(lc_eval(a@, x) * 1 == x.get(v));
                    lemma_canonical(x.get(v), self.at(x), p);
                    vstd::arithmetic::div_mod::lemma_small_mod(self.at(x) as nat, p as nat);
                }
            }
        }
    }
}

/// The number zero, which nothing else can be.
pub fn alloc_zero<F: FieldElement>(cs: &mut ConstraintSystem<F>) -> (r: AllocatedNum<F>)
    requires
        old(cs)@.wf(),
    ensures
        (final(cs)@.layout(), r.variable) == lay_zero(old(cs)@.layout()),
        step(old(cs)@, final(cs)@),
        final(cs)@.satisfied() == old(cs)@.satisfied(),
        r.within(final(cs)@),
        r.value.val() == 0,
        final(cs).witness == old(cs).witness,
        final(cs)@.inputs == old(cs)@.inputs,
        forall|x: Assignment| #[trigger] final(cs)@.follows(x) ==> r.at(x) == 0,
{
    proof {
        reveal(lay_zero);
    }
    let ghost before = cs@;
    let r = AllocatedNum::allocate(cs, &F::from_u64(0));
    let ghost mid = cs@;
    let c = lc_var(r.variable);
    let a = LinearCombination::zero();
    let b = LinearCombination::zero();
    proof {
        lemma_own(r, mid);
        lemma_lc_empty(mid.own());
    }
    demand(cs, a, b, c, Ghost(true));
    proof {
        lemma_step_trans(before, mid, cs@);
        F::modulus_bounds();
        assert forall|x: Assignment| #[trigger] cs@.follows(x) implies r.at(x) == 0 by {
            lemma_at(r, cs@, x);
            lemma_lc_empty(x);
            if cs@.holds(x) {
                lemma_canonical(r.at(x), 0, F::modulus());
            }
        }
    }
    r
}

/// The number one, which nothing else can be.
pub fn alloc_one<F: FieldElement>(cs: &mut ConstraintSystem<F>) -> (r: AllocatedNum<F>)
    requires
        old(cs)@.wf(),
    ensures
        (final(cs)@.layout(), r.variable) == lay_one(old(cs)@.layout()),
        step(old(cs)@, final(cs)@),
        final(cs)@.satisfied() == old(cs)@.satisfied(),
        r.within(final(cs)@),
        r.value.val() == 1,
        final(cs).witness == old(cs).witness,
        final(cs)@.inputs == old(cs)@.inputs,
        forall|x: Assignment| #[trigger] final(cs)@.follows(x) ==> r.at(x) == 1,
{
    let ghost before = cs@;
    let a = lc_var(Variable::Input(0));
    let b = lc_var(Variable::Input(0));
    let value = F::from_u64(1);
    proof {
        lemma_one(before);
        reveal(CsView::assigns);
        F::modulus_bounds();
    }
    let r = constrain(cs, a, b, value);
    proof {
        lemma_one(cs@);
        assert forall|x: Assignment| #[trigger] cs@.follows(x) implies r.at(x) == 1 by {
            lemma_follows(cs@, x, Variable::Input(0), 1);
            vstd::arithmetic::div_mod::lemma_small_mod(1, F::modulus() as nat);
        }
    }
    r
}

/// Two numbers that have to be the same.
pub fn assert_equal<F: FieldElement>(cs: &mut ConstraintSystem<F>, a: &AllocatedNum<F>, b: &AllocatedNum<F>)
    requires
        old(cs)@.wf(),
        a.within(old(cs)@),
        b.within(old(cs)@),
    ensures
        final(cs)@.layout() == lay_equal(old(cs)@.layout(), a.variable, b.variable, F::modulus()),
        step(old(cs)@, final(cs)@),
        final(cs)@.satisfied() == (old(cs)@.satisfied() && a.value.val() == b.value.val()),
        final(cs).witness == old(cs).witness,
        final(cs)@.inputs == old(cs)@.inputs,
        forall|x: Assignment| #[trigger] final(cs)@.holds(x) ==> a.at(x) == b.at(x),
{
    proof {
        reveal(lay_equal);
    }
    let ghost before = cs@;
    let ghost p = F::modulus();
    let one = lc_var(Variable::Input(0));
    let diff = lc_minus(lc_var(a.variable), b.variable);
    let c = LinearCombination::zero();
    proof {
        F::modulus_bounds();
        lemma_one(before);
        reveal(CsView::assigns);
        lemma_own(*a, before);
        lemma_own(*b, before);
        lemma_lc_empty(before.own());
        let s = lc_eval(diff@, before.own());
        assert(1 * s == s);
        assert(cong(s, a.value.val() - b.value.val(), p));
        a.value.val_bounds();
        b.value.val_bounds();
        lemma_zero_difference(a.value.val(), b.value.val(), p);
    }
    demand(cs, one, diff, c, Ghost(a.value.val() == b.value.val()));
    proof {
        assert forall|x: Assignment| #[trigger] cs@.holds(x) implies a.at(x) == b.at(x) by {
            assert(cs@.follows(x));
            lemma_one(cs@);
            lemma_follows(cs@, x, Variable::Input(0), 1);
            lemma_at(*a, cs@, x);
            lemma_at(*b, cs@, x);
            lemma_lc_empty(x);
            let s = lc_eval(diff@, x);
            assert(1 * s == s);
            assert(cong(s, a.at(x) - b.at(x), p));
            lemma_zero_difference(a.at(x), b.at(x), p);
        }
    }
}

/// The difference of two residues is congruent to zero exactly if they are the same.
pub proof fn lemma_zero_difference(a: int, b: int, p: int)
    requires
        0 <= a < p,
        0 <= b < p,
    ensures
        cong(a - b, 0, p) == (a == b),
{
    if cong(a - b, 0, p) {
        lemma_cong_add(a - b, 0, b, b, p);
        lemma_canonical(a, b, p);
        lemma_canonical(b, b, p);
    }
}

/// The number that a truth value is.
pub open spec fn bool_int(b: bool) -> int {
    if b {
        1
    } else {
        0
    }
}

/// A new bit.
pub fn alloc_bit<F: FieldElement>(cs: &mut ConstraintSystem<F>, value: bool) -> (r: AllocatedBit<F>)
    requires
        old(cs)@.wf(),
    ensures
        (final(cs)@.layout(), r.num.variable) == lay_bit(old(cs)@.layout(), F::modulus()),
        step(old(cs)@, final(cs)@),
        final(cs)@.satisfied() == old(cs)@.satisfied(),
        r.within(final(cs)@),
        r.num.value.val() == bool_int(value),
        final(cs).witness == old(cs).witness,
        final(cs)@.inputs == old(cs)@.inputs,
{
    proof {
        reveal(lay_bit);
    }
    let ghost before = cs@;
    let ghost p = F::modulus();
    let v = if value {
        F::from_u64(1)
    } else {
        F::from_u64(0)
    };
    let num = AllocatedNum::allocate(cs, &v);
    let ghost mid = cs@;
    let a = lc_minus(lc_var(Variable::Input(0)), num.variable);
    let b = lc_var(num.variable);
    let c = LinearCombination::zero();
    proof {
        F::modulus_bounds();
        lemma_one(mid);
        reveal(CsView::assigns);
        lemma_own(num, mid);
        lemma_lc_empty(mid.own());
        let s = lc_eval(a@, mid.own());
        let t = num.value.val();
        lemma_cong_mul(s, 1 - t, t, t, p);
        assert((1 - t) * t == 0) by (nonlinear_arith)
            requires
                t == 0 || t == 1,
        ;
    }
    demand(cs, a, b, c, Ghost(true));
    let r = AllocatedBit { num };
    proof {
        lemma_step_trans(before, mid, cs@);
        assert forall|x: Assignment| #[trigger] cs@.follows(x) implies r.at(x) == 0 || r.at(x) == 1 by {
            lemma_at(num, cs@, x);
            if cs@.holds(x) {
                lemma_one(cs@);
                lemma_follows(cs@, x, Variable::Input(0), 1);
                lemma_lc_empty(x);
                let s = lc_eval(a@, x);
                let t = num.at(x);
                lemma_cong_mul(s, 1 - t, t, t, p);
                assert(vanishes(1 - t, t, p));
                if (1 - t) % p == 0 {
                    lemma_zero_difference(1, t, p);
                    vstd::arithmetic::div_mod::lemma_small_mod(0, p as nat);
                } else {
                    vstd::arithmetic::div_mod::lemma_small_mod(t as nat, p as nat);
                }
            }
        }
    }
    r
}

/// Whether two numbers are the same, as a bit.
pub fn alloc_num_equals<F: FieldElement>(cs: &mut ConstraintSystem<F>, a: &AllocatedNum<F>, b: &AllocatedNum<F>) -> (r:
    AllocatedBit<F>)
    requires
        old(cs)@.wf(),
        a.within(old(cs)@),
        b.within(old(cs)@),
    ensures
        (final(cs)@.layout(), r.num.variable) == lay_num_equals(old(cs)@.layout(), a.variable, b.variable, F::modulus()),
        step(old(cs)@, final(cs)@),
        final(cs)@.satisfied() == old(cs)@.satisfied(),
        r.within(final(cs)@),
        final(cs).witness == old(cs).witness,
        final(cs)@.inputs == old(cs)@.inputs,
        forall|x: Assignment| #[trigger] final(cs)@.follows(x) ==> r.at(x) == bool_int(a.at(x) == b.at(x)),
{
    proof {
        reveal(lay_num_equals);
    }
    let ghost before = cs@;
    let ghost p = F::modulus();
    let same = a.value.equals(&b.value);
    let r = alloc_bit(cs, same);
    let ghost s1 = cs@;
    let difference = a.value.sub(&b.value);
    let t_value = match difference.invert() {
        Some(inverse) => inverse,
        None => F::from_u64(1),
    };
    let t = AllocatedNum::allocate(cs, &t_value);
    let ghost s2 = cs@;
    let lc_t = lc_var(t.variable);
    let lc_diff = lc_minus(lc_var(a.variable), b.variable);
    let lc_not = lc_minus(lc_var(Variable::Input(0)), r.num.variable);
    proof {
        F::modulus_bounds();
        lemma_one(s2);
        lemma_own(*a, s2);
        lemma_own(*b, s2);
        lemma_own(t, s2);
        lemma_own(r.num, s2);
        reveal(CsView::assigns);
        a.value.val_bounds();
        b.value.val_bounds();
        let (d, e) = (lc_eval(lc_diff@, s2.own()), a.value.val() - b.value.val());
        lemma_zero_difference(a.value.val(), b.value.val(), p);
        lemma_cong_mul(t_value.val(), t_value.val(), d, e, p);
        lemma_cong_mod(e, p);
        vstd::arithmetic::div_mod::lemma_small_mod(0, p as nat);
        let n = 1 - r.num.value.val();
        if same {
            assert(e == 0);
            assert(t_value.val() * e == 0) by (nonlinear_arith)
                requires
                    e == 0,
            ;
        } else {
            lemma_cong_mul(difference.val(), e, t_value.val(), t_value.val(), p);
            assert(e * t_value.val() == t_value.val() * e) by (nonlinear_arith);
            vstd::arithmetic::div_mod::lemma_small_mod(1, p as nat);
        }
        assert(cong(lc_eval(lc_not@, s2.own()), n, p));
    }
    demand(cs, lc_t, lc_diff, lc_not, Ghost(true));
    let ghost s3 = cs@;
    let lc_r = lc_var(r.num.variable);
    let lc_diff2 = lc_minus(lc_var(a.variable), b.variable);
    let zero = LinearCombination::zero();
    proof {
        lemma_own(*a, s3);
        lemma_own(*b, s3);
        lemma_own(r.num, s3);
        lemma_lc_empty(s3.own());
        let (d, e) = (lc_eval(lc_diff2@, s3.own()), a.value.val() - b.value.val());
        let k = r.num.value.val();
        lemma_cong_mul(k, k, d, e, p);
        assert(k * e == 0) by (nonlinear_arith)
            requires
                k == 0 || e == 0,
        ;
    }
    demand(cs, lc_r, lc_diff2, zero, Ghost(true));
    proof {
        lemma_step_trans(before, s1, s2);
        lemma_step_trans(before, s2, s3);
        lemma_step_trans(before, s3, cs@);
        assert forall|x: Assignment| #[trigger] cs@.follows(x) implies r.at(x) == bool_int(a.at(x) == b.at(x)) by {
            lemma_at(*a, cs@, x);
            lemma_at(*b, cs@, x);
            lemma_at(r.num, cs@, x);
            lemma_at(t, cs@, x);
            assert(s1.follows(x));
            if cs@.holds(x) {
                assert(s3.holds(x));
                lemma_one(cs@);
                lemma_follows(cs@, x, Variable::Input(0), 1);
                lemma_lc_empty(x);
                let e = a.at(x) - b.at(x);
                let (d, d2) = (lc_eval(lc_diff@, x), lc_eval(lc_diff2@, x));
                lemma_zero_difference(a.at(x), b.at(x), p);
                lemma_cong_mul(r.at(x), r.at(x), d2, e, p);
                lemma_cong_mul(t.at(x), t.at(x), d, e, p);
                assert(cong(lc_eval(lc_not@, x), 1 - r.at(x), p));
                if e == 0 {
                    assert(t.at(x) * e == 0) by (nonlinear_arith)
                        requires
                            e == 0,
                    ;
                    lemma_zero_difference(1, r.at(x), p);
                } else {
                    assert(1 * e == e);
                    vstd::arithmetic::div_mod::lemma_small_mod(0, p as nat);
                }
            }
        }
    }
    r
}

/// The first number if the bit is one, else the second.
pub fn conditionally_select<F: FieldElement>(
    cs: &mut ConstraintSystem<F>,
    a: &AllocatedNum<F>,
    b: &AllocatedNum<F>,
    condition: &AllocatedBit<F>,
) -> (r: AllocatedNum<F>)
    requires
        old(cs)@.wf(),
        a.within(old(cs)@),
        b.within(old(cs)@),
        condition.within(old(cs)@),
    ensures
        (final(cs)@.layout(), r.variable) == lay_select(old(cs)@.layout(), a.variable, b.variable, condition.num.variable, F::modulus()),
        step(old(cs)@, final(cs)@),
        final(cs)@.satisfied() == old(cs)@.satisfied(),
        r.within(final(cs)@),
        final(cs).witness == old(cs).witness,
        final(cs)@.inputs == old(cs)@.inputs,
        forall|x: Assignment| #[trigger]
            final(cs)@.follows(x) ==> r.at(x) == if condition.at(x) == 1 {
                a.at(x)
            } else {
                b.at(x)
            },
{
    proof {
        reveal(lay_select);
    }
    let ghost before = cs@;
    let ghost p = F::modulus();
    let one = F::from_u64(1);
    let value = if condition.num.value.equals(&one) {
        a.value
    } else {
        b.value
    };
    let r = AllocatedNum::allocate(cs, &value);
    let ghost mid = cs@;
    let lc_ab = lc_minus(lc_var(a.variable), b.variable);
    let lc_c = lc_var(condition.num.variable);
    let lc_rb = lc_minus(lc_var(r.variable), b.variable);
    proof {
        F::modulus_bounds();
        lemma_own(*a, mid);
        lemma_own(*b, mid);
        lemma_own(r, mid);
        lemma_own(condition.num, mid);
        lemma_own_follows(mid);
        let (d, e) = (lc_eval(lc_ab@, mid.own()), a.value.val() - b.value.val());
        let k = condition.num.value.val();
        assert(k == condition.at(mid.own()));
        lemma_cong_mul(d, e, k, k, p);
        assert(e * k == value.val() - b.value.val()) by (nonlinear_arith)
            requires
                k == 0 && value.val() == b.value.val() || k == 1 && value.val() == e + b.value.val(),
        ;
    }
    demand(cs, lc_ab, lc_c, lc_rb, Ghost(true));
    proof {
        lemma_step_trans(before, mid, cs@);
        assert forall|x: Assignment| #[trigger] cs@.follows(x) implies r.at(x) == if condition.at(x) == 1 {
            a.at(x)
        } else {
            b.at(x)
        } by {
            lemma_at(*a, cs@, x);
            lemma_at(*b, cs@, x);
            lemma_at(r, cs@, x);
            lemma_at(condition.num, cs@, x);
            assert(before.follows(x));
            if cs@.holds(x) {
                let (d, e) = (lc_eval(lc_ab@, x), a.at(x) - b.at(x));
                let k = condition.at(x);
                lemma_cong_mul(d, e, k, k, p);
                assert(cong(lc_eval(lc_rb@, x), r.at(x) - b.at(x), p));
                if k == 1 {
                    assert(e * 1 == e);
                    lemma_cong_add(a.at(x) - b.at(x), r.at(x) - b.at(x), b.at(x), b.at(x), p);
                    lemma_canonical(a.at(x), r.at(x), p);
                    lemma_canonical(r.at(x), r.at(x), p);
                } else {
                    assert(e * 0 == 0);
                    lemma_zero_difference(r.at(x), b.at(x), p);
                }
            }
        }
    }
    r
}

/// The numbers of the first list if the bit is one, else those of the second.
pub fn conditionally_select_vec<F: FieldElement>(
    cs: &mut ConstraintSystem<F>,
    a: &Vec<AllocatedNum<F>>,
    b: &Vec<AllocatedNum<F>>,
    condition: &AllocatedBit<F>,
) -> (r: Vec<AllocatedNum<F>>)
    requires
        old(cs)@.wf(),
        a.len() == b.len(),
        all_within(a@, old(cs)@),
        all_within(b@, old(cs)@),
        condition.within(old(cs)@),
    ensures
        (final(cs)@.layout(), wires(r@)) == lay_select_all(
            old(cs)@.layout(),
            wires(a@),
            wires(b@),
            condition.num.variable,
            F::modulus(),
            a@.len() as int,
        ),
        step(old(cs)@, final(cs)@),
        final(cs)@.satisfied() == old(cs)@.satisfied(),
        all_within(r@, final(cs)@),
        r.len() == a.len(),
        final(cs).witness == old(cs).witness,
        final(cs)@.inputs == old(cs)@.inputs,
        forall|x: Assignment| #[trigger]
            final(cs)@.follows(x) ==> ats(r@, x) == if condition.at(x) == 1 {
                ats(a@, x)
            } else {
                ats(b@, x)
            },
{
    let ghost before = cs@;
    let mut r: Vec<AllocatedNum<F>> = Vec::new();
    let mut i: usize = 0;
    proof {
        assert(wires(r@) =~= Seq::<Variable>::empty());
        crate::cs::lemma_extends_refl(before);
        lemma_step(before, before);
    }
    while i < a.len()
        invariant
            (cs@.layout(), wires(r@)) == lay_select_all(
                before.layout(),
                wires(a@),
                wires(b@),
                condition.num.variable,
                F::modulus(),
                i as int,
            ),
            i <= a.len(),
            r.len() == i,
            a.len() == b.len(),
            step(before, cs@),
            cs@.satisfied() == before.satisfied(),
            cs.witness == old(cs).witness,
            cs@.inputs == before.inputs,
            all_within(a@, before),
            all_within(b@, before),
            condition.within(before),
            all_within(r@, cs@),
            forall|x: Assignment, k: int|
                #![trigger cs@.follows(x), r@[k]]
                cs@.follows(x) && 0 <= k < i ==> r@[k].at(x) == if condition.at(x) == 1 {
                    a@[k].at(x)
                } else {
                    b@[k].at(x)
                },
        decreases a.len() - i,
    {
        let ghost s1 = cs@;
        let ghost r1 = r@;
        assert(a@[i as int].within(before));
        assert(b@[i as int].within(before));
        let n = conditionally_select(cs, &a[i], &b[i], condition);
        r.push(n);
        proof {
            assert(wires(r@) =~= wires(r1).push(n.variable));
            lemma_step_trans(before, s1, cs@);
            assert forall|k: int| 0 <= k < r@.len() implies (#[trigger] r@[k]).within(cs@) by {
                if k < i {
                    assert(r1[k].within(s1));
                }
            }
            assert forall|x: Assignment, k: int|
                #![trigger cs@.follows(x), r@[k]]
                cs@.follows(x) && 0 <= k < i + 1 implies r@[k].at(x) == if condition.at(x) == 1 {
                a@[k].at(x)
            } else {
                b@[k].at(x)
            } by {
                if k < i {
                    assert(r@[k] == r1[k]);
                    assert(s1.follows(x));
                }
            }
        }
        i = i + 1;
    }
    proof {
        assert forall|x: Assignment| #[trigger] cs@.follows(x) implies ats(r@, x) == if condition.at(x) == 1 {
            ats(a@, x)
        } else {
            ats(b@, x)
        } by {
            if condition.at(x) == 1 {
                assert(ats(r@, x) =~= ats(a@, x));
            } else {
                assert(ats(r@, x) =~= ats(b@, x));
            }
        }
    }
    r
}

/// Whether neither of two bits is one.
pub fn nor<F: FieldElement>(cs: &mut ConstraintSystem<F>, a: &AllocatedBit<F>, b: &AllocatedBit<F>) -> (r: AllocatedBit<F>)
    requires
        old(cs)@.wf(),
        a.within(old(cs)@),
        b.within(old(cs)@),
    ensures
        (final(cs)@.layout(), r.num.variable) == lay_nor(old(cs)@.layout(), a.num.variable, b.num.variable, F::modulus()),
        step(old(cs)@, final(cs)@),
        final(cs)@.satisfied() == old(cs)@.satisfied(),
        r.within(final(cs)@),
        final(cs).witness == old(cs).witness,
        final(cs)@.inputs == old(cs)@.inputs,
        forall|x: Assignment| #[trigger]
            final(cs)@.follows(x) ==> r.at(x) == bool_int(a.at(x) == 0 && b.at(x) == 0),
{
    let ghost before = cs@;
    let ghost p = F::modulus();
    let zero = F::from_u64(0);
    let value = if a.num.value.equals(&zero) && b.num.value.equals(&zero) {
        F::from_u64(1)
    } else {
        F::from_u64(0)
    };
    let not_a = lc_minus(lc_var(Variable::Input(0)), a.num.variable);
    let not_b = lc_minus(lc_var(Variable::Input(0)), b.num.variable);
    proof {
        F::modulus_bounds();
        lemma_one(before);
        lemma_own(a.num, before);
        lemma_own(b.num, before);
        lemma_own_follows(before);
        reveal(CsView::assigns);
        let (i, j) = (a.num.value.val(), b.num.value.val());
        assert(i == a.at(before.own()));
        assert(j == b.at(before.own()));
        lemma_cong_mul(lc_eval(not_a@, before.own()), 1 - i, lc_eval(not_b@, before.own()), 1 - j, p);
        lemma_nor(i, j);
    }
    let num = constrain(cs, not_a, not_b, value);
    let r = AllocatedBit { num };
    proof {
        lemma_one(cs@);
        assert forall|x: Assignment| #[trigger] cs@.follows(x) implies r.at(x) == bool_int(
            a.at(x) == 0 && b.at(x) == 0,
        ) by {
            assert(before.follows(x));
            lemma_follows(cs@, x, Variable::Input(0), 1);
            let (i, j) = (a.at(x), b.at(x));
            lemma_cong_mul(lc_eval(not_a@, x), 1 - i, lc_eval(not_b@, x), 1 - j, p);
            lemma_nor(i, j);
            vstd::arithmetic::div_mod::lemma_small_mod(1, p as nat);
            vstd::arithmetic::div_mod::lemma_small_mod(0, p as nat);
        }
    }
    r
}

proof fn lemma_nor(i: int, j: int)
    requires
        i == 0 || i == 1,
        j == 0 || j == 1,
    ensures
        (1 - i) * (1 - j) == bool_int(i == 0 && j == 0),
{
    assert((1 - i) * (1 - j) == bool_int(i == 0 && j == 0)) by (nonlinear_arith)
        requires
            i == 0 || i == 1,
            j == 0 || j == 1,
    ;
}

/// A bit that has to be one.
pub fn assert_true<F: FieldElement>(cs: &mut ConstraintSystem<F>, a: &AllocatedBit<F>)
    requires
        old(cs)@.wf(),
        a.within(old(cs)@),
    ensures
        final(cs)@.layout() == lay_true(old(cs)@.layout(), a.num.variable),
        step(old(cs)@, final(cs)@),
        final(cs)@.satisfied() == (old(cs)@.satisfied() && a.num.value.val() == 1),
        final(cs).witness == old(cs).witness,
        final(cs)@.inputs == old(cs)@.inputs,
        forall|x: Assignment| #[trigger] final(cs)@.holds(x) ==> a.at(x) == 1,
{
    proof {
        reveal(lay_true);
    }
    let ghost before = cs@;
    let ghost p = F::modulus();
    let lc_a = lc_var(a.num.variable);
    let b = lc_var(Variable::Input(0));
    let c = lc_var(Variable::Input(0));
    proof {
        F::modulus_bounds();
        lemma_one(before);
        lemma_own(a.num, before);
        reveal(CsView::assigns);
        a.num.value.val_bounds();
        let k = a.num.value.val();
        assert(k * 1 == k);
        vstd::arithmetic::div_mod::lemma_small_mod(k as nat, p as nat);
        vstd::arithmetic::div_mod::lemma_small_mod(1, p as nat);
    }
    demand(cs, lc_a, b, c, Ghost(a.num.value.val() == 1));
    proof {
        lemma_one(cs@);
        assert forall|x: Assignment| #[trigger] cs@.holds(x) implies a.at(x) == 1 by {
            assert(cs@.follows(x));
            lemma_follows(cs@, x, Variable::Input(0), 1);
            lemma_at(a.num, cs@, x);
            assert(lc_eval(lc_a@, x) * 1 == a.at(x));
            vstd::arithmetic::div_mod::lemma_small_mod(a.at(x) as nat, p as nat);
            vstd::arithmetic::div_mod::lemma_small_mod(1, p as nat);
        }
    }
}

/// A bit that has to be zero.
pub fn assert_false<F: FieldElement>(cs: &mut ConstraintSystem<F>, a: &AllocatedBit<F>)
    requires
        old(cs)@.wf(),
        a.within(old(cs)@),
    ensures
        final(cs)@.layout() == lay_false(old(cs)@.layout(), a.num.variable),
        step(old(cs)@, final(cs)@),
        final(cs)@.satisfied() == (old(cs)@.satisfied() && a.num.value.val() == 0),
        final(cs).witness == old(cs).witness,
        final(cs)@.inputs == old(cs)@.inputs,
        forall|x: Assignment| #[trigger] final(cs)@.holds(x) ==> a.at(x) == 0,
{
    proof {
        reveal(lay_false);
    }
    let ghost before = cs@;
    let ghost p = F::modulus();
    let lc_a = lc_var(a.num.variable);
    let b = lc_var(Variable::Input(0));
    let c = LinearCombination::zero();
    proof {
        F::modulus_bounds();
        lemma_one(before);
        lemma_own(a.num, before);
        lemma_lc_empty(before.own());
        reveal(CsView::assigns);
        a.num.value.val_bounds();
        let k = a.num.value.val();
        assert(k * 1 == k);
        vstd::arithmetic::div_mod::lemma_small_mod(k as nat, p as nat);
        vstd::arithmetic::div_mod::lemma_small_mod(0, p as nat);
    }
    demand(cs, lc_a, b, c, Ghost(a.num.value.val() == 0));
    proof {
        lemma_one(cs@);
        assert forall|x: Assignment| #[trigger] cs@.holds(x) implies a.at(x) == 0 by {
            assert(cs@.follows(x));
            lemma_follows(cs@, x, Variable::Input(0), 1);
            lemma_lc_empty(x);
            lemma_at(a.num, cs@, x);
            assert(lc_eval(lc_a@, x) * 1 == a.at(x));
            vstd::arithmetic::div_mod::lemma_small_mod(a.at(x) as nat, p as nat);
            vstd::arithmetic::div_mod::lemma_small_mod(0, p as nat);
        }
    }
}

/// The number that the first `n` bits are, the least significant first.
pub open spec fn bits_value(bits: Seq<int>, n: int) -> int
    decreases n,
{
    if n <= 0 {
        0
    } else {
        bits_value(bits, n - 1) + bits[n - 1] * pow2((n - 1) as nat)
    }
}

/// The number that bits are, the least significant first.
pub fn le_bits_to_num<F: FieldElement>(cs: &mut ConstraintSystem<F>, bits: &Vec<AllocatedBit<F>>) -> (r: AllocatedNum<F>)
    requires
        old(cs)@.wf(),
        bits_within(bits@, old(cs)@),
    ensures
        (final(cs)@.layout(), r.variable) == lay_bits_to_num(old(cs)@.layout(), bit_wires(bits@), F::modulus()),
        step(old(cs)@, final(cs)@),
        final(cs)@.satisfied() == old(cs)@.satisfied(),
        r.within(final(cs)@),
        final(cs).witness == old(cs).witness,
        final(cs)@.inputs == old(cs)@.inputs,
        forall|x: Assignment| #[trigger]
            final(cs)@.follows(x) ==> r.at(x) == bits_value(bit_ats(bits@, x), bits.len() as int) % F::modulus(),
{
    proof {
        reveal(lay_bits_to_num);
    }
    let ghost before = cs@;
    let ghost p = F::modulus();
    let mut lc = LinearCombination::zero();
    let mut coeff = F::from_u64(1);
    let mut value = F::from_u64(0);
    let mut i: usize = 0;
    proof {
        F::modulus_bounds();
        vstd::arithmetic::power2::lemma2_to64();
        assert forall|x: Assignment| cong(
            #[trigger] lc_eval(lc@, x),
            bits_value(bit_ats(bits@, x), 0),
            p,
        ) by {
            lemma_lc_empty(x);
        }
    }
    while i < bits.len()
        invariant
            coeff.val() == doubled(i as int, p),
            lc@ == bits_combination(bit_wires(bits@), p, i as int),
            i <= bits.len(),
            p == F::modulus(),
            p > 6,
            before == cs@,
            before.wf(),
            bits_within(bits@, before),
            lc_of(lc@, before),
            cong(coeff.val(), pow2(i as nat) as int, p),
            cong(value.val(), lc_eval(lc@, before.own()), p),
            forall|x: Assignment|
                cong(#[trigger] lc_eval(lc@, x), bits_value(bit_ats(bits@, x), i as int), p),
        decreases bits.len() - i,
    {
        let ghost lc0 = lc@;
        let v = bits[i].num;
        assert(bits@[i as int].within(before));
        lc = lc_plus_scaled(lc, &coeff, v.variable);
        let next = value.add(&coeff);
        proof {
            lemma_own(v, before);
            lemma_own_follows(before);
            let own = before.own();
            let k = v.value.val();
            assert(k == bits@[i as int].at(own));
            lemma_cong_add(value.val(), lc_eval(lc0, own), coeff.val(), coeff.val(), p);
            lemma_cong_mod(value.val() + coeff.val(), p);
            assert(coeff.val() * 1 == coeff.val());
            assert(coeff.val() * 0 == 0);
            assert forall|x: Assignment| cong(
                #[trigger] lc_eval(lc@, x),
                bits_value(bit_ats(bits@, x), i + 1),
                p,
            ) by {
                let b = bit_ats(bits@, x);
                assert(cong(lc_eval(lc0, x), bits_value(b, i as int), p));
                lemma_cong_mul(coeff.val(), pow2(i as nat) as int, b[i as int], b[i as int], p);
                let (m, t) = (pow2(i as nat) as int, b[i as int]);
                assert(m * t == t * m) by (nonlinear_arith);
                lemma_cong_add(lc_eval(lc0, x), bits_value(b, i as int), coeff.val() * t, m * t, p);
            }
        }
        if v.value.equals(&F::from_u64(1)) {
            value = next;
        }
        let ghost c0 = coeff.val();
        coeff = coeff.add(&coeff);
        proof {
            vstd::arithmetic::power2::lemma_pow2_unfold((i + 1) as nat);
            lemma_cong_add(c0, pow2(i as nat) as int, c0, pow2(i as nat) as int, p);
            lemma_cong_mod(c0 + c0, p);
        }
        i = i + 1;
    }
    let num = AllocatedNum::allocate(cs, &value);
    let ghost mid = cs@;
    let ghost sum0 = lc@;
    proof {
        lemma_lc_of(lc@, before, mid);
    }
    let total = lc_minus(lc, num.variable);
    let a = LinearCombination::zero();
    let b = LinearCombination::zero();
    proof {
        lemma_own(num, mid);
        lemma_own_follows(mid);
        reveal(CsView::agrees);
        reveal(CsView::wf);
        assert(mid.agrees(mid.own()));
        lemma_lc_own(sum0, before, mid, mid.own());
        lemma_lc_empty(mid.own());
        lemma_cong_sub(lc_eval(sum0, mid.own()), value.val(), value.val(), value.val(), p);
    }
    demand(cs, a, b, total, Ghost(true));
    proof {
        lemma_step_trans(before, mid, cs@);
        assert forall|x: Assignment| #[trigger] cs@.follows(x) implies num.at(x) == bits_value(
            bit_ats(bits@, x),
            bits.len() as int,
        ) % p by {
            lemma_at(num, cs@, x);
            lemma_lc_empty(x);
            assert(cong(lc_eval(sum0, x), bits_value(bit_ats(bits@, x), bits.len() as int), p));
            if cs@.holds(x) {
                assert(cong(lc_eval(total@, x), lc_eval(sum0, x) - num.at(x), p));
                lemma_cong_add(lc_eval(sum0, x) - num.at(x), 0, num.at(x), num.at(x), p);
            } else {
                lemma_lc_own(sum0, before, cs@, x);
            }
            lemma_canonical(num.at(x), bits_value(bit_ats(bits@, x), bits.len() as int), p);
        }
    }
    num
}

/// Bits stand for the sum of the powers of two at which they are set: so many bits for less than the power of two of their
/// number.
pub proof fn bits_are_powers_of_two(bits: Seq<int>, n: nat)
    requires
        forall|i: int| 0 <= i < n ==> 0 <= #[trigger] bits[i] <= 1,
    ensures
        bits_value(bits, n as int) == crate::math::sum(|i: int| bits[i] * pow2(i as nat), n as int),
        0 <= bits_value(bits, n as int) < pow2(n),
    decreases n,
{
    vstd::arithmetic::power2::lemma_pow2_pos(n);
    if n > 0 {
        let m = (n - 1) as nat;
        bits_are_powers_of_two(bits, m);
        let f = |i: int| bits[i] * pow2(i as nat);
        assert(crate::math::sum(f, n as int) == crate::math::sum(f, m as int) + f(m as int));
        vstd::arithmetic::power2::lemma_pow2_unfold(n);
        let (b, w) = (bits[m as int], pow2(m) as int);
        assert(b * w == 0 || b * w == w) by (nonlinear_arith)
            requires
                b == 0 || b == 1,
        ;
    } else {
        assert(crate::math::sum(|i: int| bits[i] * pow2(i as nat), 0) == 0);
    }
}

/// Two numbers of so many bits are the same only where their bits are.
pub proof fn bits_are_determined(a: Seq<int>, b: Seq<int>, n: nat)
    requires
        forall|i: int| 0 <= i < n ==> 0 <= #[trigger] a[i] <= 1,
        forall|i: int| 0 <= i < n ==> 0 <= #[trigger] b[i] <= 1,
        bits_value(a, n as int) == bits_value(b, n as int),
    ensures
        forall|i: int| 0 <= i < n ==> #[trigger] a[i] == b[i],
    decreases n,
{
    if n > 0 {
        let m = (n - 1) as nat;
        bits_are_powers_of_two(a, m);
        bits_are_powers_of_two(b, m);
        let (x, y, w) = (a[m as int], b[m as int], pow2(m) as int);
        assert(x * w == 0 && x == 0 || x * w == w && x == 1) by (nonlinear_arith)
            requires
                x == 0 || x == 1,
        ;
        assert(y * w == 0 && y == 0 || y * w == w && y == 1) by (nonlinear_arith)
            requires
                y == 0 || y == 1,
        ;
        bits_are_determined(a, b, m);
    }
}

} // verus!
