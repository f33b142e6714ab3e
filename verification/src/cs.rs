//! Constraint systems: linear combinations of variables, products of two of them that equal a third, and
//! the assignments that satisfy them.
use crate::engine::vals;
use crate::field::FieldElement;
use crate::layout::Layout;
use crate::math::{cong, integral, lemma_sum_ext, sum};
use vstd::prelude::*;

verus! {

/// A variable of a constraint system: the constant one and the public values, or the others.
#[derive(Clone, Copy, Debug, PartialEq, Eq, Structural)]
pub enum Variable {
    Input(usize),
    Aux(usize),
}

/// A value for every variable.
pub struct Assignment {
    pub inputs: Seq<int>,
    pub aux: Seq<int>,
}

impl Assignment {
    pub open spec fn get(self, v: Variable) -> int {
        match v {
            Variable::Input(i) => self.inputs[i as int],
            Variable::Aux(i) => self.aux[i as int],
        }
    }
}

/// A linear combination over the integers.
pub type LcView = Seq<(Variable, int)>;

/// The value of a linear combination.
pub open spec fn lc_eval(lc: LcView, a: Assignment) -> int {
    sum(|k: int| lc[k].1 * a.get(lc[k].0), lc.len() as int)
}

/// A constraint over the integers.
pub struct ConstraintView {
    pub a: LcView,
    pub b: LcView,
    pub c: LcView,
}

impl ConstraintView {
    /// Whether the product of the first two combinations is the third.
    pub open spec fn sat(self, x: Assignment, p: int) -> bool {
        cong(lc_eval(self.a, x) * lc_eval(self.b, x), lc_eval(self.c, x), p)
    }

    /// Whether all variables are below the sizes.
    pub open spec fn within(self, inputs: int, aux: int) -> bool {
        &&& lc_within(self.a, inputs, aux)
        &&& lc_within(self.b, inputs, aux)
        &&& lc_within(self.c, inputs, aux)
    }
}

pub open spec fn var_within(v: Variable, inputs: int, aux: int) -> bool {
    match v {
        Variable::Input(i) => i < inputs,
        Variable::Aux(i) => i < aux,
    }
}

pub open spec fn lc_within(lc: LcView, inputs: int, aux: int) -> bool {
    forall|k: int| 0 <= k < lc.len() ==> var_within((#[trigger] lc[k]).0, inputs, aux)
}

/// A constraint system over the integers, with the values that its variables were given.
pub struct CsView {
    pub inputs: Seq<int>,
    pub aux: Seq<int>,
    pub constraints: Seq<ConstraintView>,
    /// Variables that stand for constants, with these.
    pub fixed: Seq<(Variable, int)>,
    pub p: int,
}

impl CsView {
    /// What does not depend on the values.
    pub open spec fn layout(self) -> Layout {
        Layout { inputs: self.inputs.len() as int, aux: self.aux.len() as int, constraints: self.constraints }
    }

    /// The values that the variables were given.
    pub open spec fn own(self) -> Assignment {
        Assignment { inputs: self.inputs, aux: self.aux }
    }

    /// Whether an assignment covers the variables with residues and gives one to the constant.
    pub open spec fn covers(self, x: Assignment) -> bool {
        &&& x.inputs.len() >= self.inputs.len()
        &&& x.aux.len() >= self.aux.len()
        &&& x.inputs.len() >= 1
        &&& x.inputs[0] == 1
        &&& forall|i: int| 0 <= i < x.inputs.len() ==> 0 <= #[trigger] x.inputs[i] < self.p
        &&& forall|i: int| 0 <= i < x.aux.len() ==> 0 <= #[trigger] x.aux[i] < self.p
    }

    /// Whether an assignment of residues satisfies every constraint.
    #[verifier::opaque]
    pub open spec fn holds(self, x: Assignment) -> bool {
        &&& self.covers(x)
        &&& forall|i: int| 0 <= i < self.constraints.len() ==> (#[trigger] self.constraints[i]).sat(x, self.p)
    }

    /// Whether the values that the variables were given satisfy every constraint.
    pub open spec fn satisfied(self) -> bool {
        self.holds(self.own())
    }

    /// Whether the values are residues and the constraints speak of variables of the system only.
    #[verifier::opaque]
    pub open spec fn wf(self) -> bool {
        &&& self.p > 6
        &&& integral(self.p)
        &&& self.covers(self.own())
        &&& self.inputs.len() <= usize::MAX
        &&& self.aux.len() <= usize::MAX
        &&& forall|i: int|
            0 <= i < self.constraints.len() ==> (#[trigger] self.constraints[i]).within(
                self.inputs.len() as int,
                self.aux.len() as int,
            )
        &&& forall|i: int|
            0 <= i < self.fixed.len() ==> self.has((#[trigger] self.fixed[i]).0) && self.own().get(self.fixed[i].0)
                == self.fixed[i].1
    }

    /// Whether an assignment gives the variables that stand for constants these constants. No constraint asks it.
    #[verifier::opaque]
    pub open spec fn keeps(self, x: Assignment) -> bool {
        forall|i: int| 0 <= i < self.fixed.len() ==> x.get((#[trigger] self.fixed[i]).0) == self.fixed[i].1
    }

    /// Whether an assignment satisfies the constraints and keeps the constants.
    pub open spec fn honors(self, x: Assignment) -> bool {
        self.holds(x) && self.keeps(x)
    }

    /// Whether another system has this one's variables and constraints first.
    #[verifier::opaque]
    pub open spec fn extended_by(self, other: CsView) -> bool {
        &&& self.p == other.p
        &&& self.inputs.len() <= other.inputs.len()
        &&& self.aux.len() <= other.aux.len()
        &&& self.constraints.len() <= other.constraints.len()
        &&& forall|i: int| 0 <= i < self.inputs.len() ==> self.inputs[i] == #[trigger] other.inputs[i]
        &&& forall|i: int| 0 <= i < self.aux.len() ==> self.aux[i] == #[trigger] other.aux[i]
        &&& forall|i: int|
            0 <= i < self.constraints.len() ==> self.constraints[i] == #[trigger] other.constraints[i]
        &&& self.fixed.len() <= other.fixed.len()
        &&& forall|i: int| 0 <= i < self.fixed.len() ==> self.fixed[i] == #[trigger] other.fixed[i]
    }

    /// Whether an assignment of residues gives the variables the values that they were given.
    #[verifier::opaque]
    pub open spec fn agrees(self, x: Assignment) -> bool {
        &&& self.covers(x)
        &&& forall|i: int| 0 <= i < self.inputs.len() ==> self.inputs[i] == #[trigger] x.inputs[i]
        &&& forall|i: int| 0 <= i < self.aux.len() ==> self.aux[i] == #[trigger] x.aux[i]
    }

    /// Whether an assignment satisfies the constraints or gives the values that the variables were given.
    pub open spec fn follows(self, x: Assignment) -> bool {
        self.holds(x) || self.agrees(x)
    }

    /// Whether a variable of the system was given a value.
    #[verifier::opaque]
    pub open spec fn assigns(self, v: Variable, k: int) -> bool {
        self.has(v) && self.own().get(v) == k
    }

    /// Whether a variable is of the system.
    pub open spec fn has(self, v: Variable) -> bool {
        var_within(v, self.inputs.len() as int, self.aux.len() as int)
    }
}

pub proof fn lemma_extends_refl(a: CsView)
    ensures
        a.extended_by(a),
{
    reveal(CsView::extended_by);
}

pub proof fn lemma_extends_trans(a: CsView, b: CsView, c: CsView)
    requires
        a.extended_by(b),
        b.extended_by(c),
    ensures
        a.extended_by(c),
{
    reveal(CsView::extended_by);
}

/// What satisfies a system satisfies the system that it extends.
pub proof fn lemma_holds_before(a: CsView, b: CsView, x: Assignment)
    requires
        a.extended_by(b),
        b.holds(x),
    ensures
        a.holds(x),
{
    reveal(CsView::extended_by);
    reveal(CsView::holds);
    assert forall|i: int| 0 <= i < a.constraints.len() implies (#[trigger] a.constraints[i]).sat(x, a.p) by {
        assert(b.constraints[i].sat(x, b.p));
    }
}

/// A variable keeps its value.
pub proof fn lemma_keeps(a: CsView, b: CsView, v: Variable)
    requires
        a.extended_by(b),
        a.has(v),
    ensures
        b.has(v),
        a.own().get(v) == b.own().get(v),
{
    reveal(CsView::extended_by);
}

/// Whether a system extends another: what its assignments and values say of the other still holds.
pub open spec fn step(a: CsView, b: CsView) -> bool {
    &&& b.wf()
    &&& a.extended_by(b)
    &&& forall|x: Assignment| #[trigger] b.holds(x) ==> a.holds(x)
    &&& forall|x: Assignment| #[trigger] b.follows(x) ==> a.follows(x)
    &&& forall|x: Assignment| #[trigger] b.keeps(x) ==> a.keeps(x)
    &&& forall|v: Variable, k: int| #[trigger] a.assigns(v, k) ==> b.assigns(v, k)
}

pub proof fn lemma_step(a: CsView, b: CsView)
    requires
        b.wf(),
        a.extended_by(b),
    ensures
        step(a, b),
{
    assert forall|x: Assignment| #[trigger] b.holds(x) implies a.holds(x) by {
        lemma_holds_before(a, b, x);
    }
    assert forall|x: Assignment| #[trigger] b.follows(x) implies a.follows(x) by {
        reveal(CsView::agrees);
        reveal(CsView::extended_by);
        if b.agrees(x) {
            assert forall|i: int| 0 <= i < a.inputs.len() implies a.inputs[i] == #[trigger] x.inputs[i] by {
                assert(b.inputs[i] == x.inputs[i]);
            }
            assert forall|i: int| 0 <= i < a.aux.len() implies a.aux[i] == #[trigger] x.aux[i] by {
                assert(b.aux[i] == x.aux[i]);
            }
        }
    }
    assert forall|x: Assignment| #[trigger] b.keeps(x) implies a.keeps(x) by {
        reveal(CsView::keeps);
        reveal(CsView::extended_by);
        assert forall|i: int| 0 <= i < a.fixed.len() implies x.get((#[trigger] a.fixed[i]).0) == a.fixed[i].1 by {
            assert(b.fixed[i] == a.fixed[i]);
        }
    }
    assert forall|v: Variable, k: int| #[trigger] a.assigns(v, k) implies b.assigns(v, k) by {
        reveal(CsView::assigns);
        lemma_keeps(a, b, v);
    }
}

pub proof fn lemma_step_trans(a: CsView, b: CsView, c: CsView)
    requires
        step(a, b),
        step(b, c),
    ensures
        step(a, c),
{
    lemma_extends_trans(a, b, c);
    lemma_step(a, c);
}

/// The values that the variables were given follow the system.
pub proof fn lemma_own_follows(a: CsView)
    requires
        a.wf(),
    ensures
        a.follows(a.own()),
{
    reveal(CsView::wf);
    reveal(CsView::agrees);
}

/// The values that the variables were given keep the constants.
pub proof fn lemma_own_keeps(a: CsView)
    requires
        a.wf(),
    ensures
        a.keeps(a.own()),
{
    reveal(CsView::wf);
    reveal(CsView::keeps);
}

/// What follows a system gives residues, one to the constant, and the given values to an assigned variable
/// where it agrees with them.
pub proof fn lemma_follows(a: CsView, x: Assignment, v: Variable, k: int)
    requires
        a.follows(x),
        a.assigns(v, k),
    ensures
        0 <= x.get(v) < a.p,
        x.get(Variable::Input(0)) == 1,
        a.agrees(x) ==> x.get(v) == k,
        a.own().get(v) == k,
        a.has(v),
{
    reveal(CsView::holds);
    reveal(CsView::agrees);
    reveal(CsView::assigns);
}

/// The constant is of every system.
pub proof fn lemma_one(a: CsView)
    requires
        a.wf(),
    ensures
        a.assigns(Variable::Input(0), 1),
        a.p > 6,
        integral(a.p),
{
    reveal(CsView::wf);
    reveal(CsView::assigns);
}

pub proof fn lemma_residue(a: CsView, x: Assignment, v: Variable)
    requires
        a.holds(x),
        a.has(v),
    ensures
        0 <= x.get(v) < a.p,
        x.get(Variable::Input(0)) == 1,
{
    reveal(CsView::holds);
}

/// Two assignments that agree on the variables of a combination give it the same value.
pub proof fn lemma_lc_agrees(lc: LcView, x: Assignment, y: Assignment)
    requires
        forall|k: int| 0 <= k < lc.len() ==> x.get((#[trigger] lc[k]).0) == y.get(lc[k].0),
    ensures
        lc_eval(lc, x) == lc_eval(lc, y),
{
    let f = |k: int| lc[k].1 * x.get(lc[k].0);
    let g = |k: int| lc[k].1 * y.get(lc[k].0);
    assert forall|k: int| 0 <= k < lc.len() implies #[trigger] f(k) == g(k) by {
        assert(x.get(lc[k].0) == y.get(lc[k].0));
    }
    lemma_sum_ext(f, g, lc.len() as int);
}

/// Values that satisfy a system go on to satisfy it when variables are added.
pub proof fn lemma_satisfied_before(a: CsView, b: CsView)
    requires
        a.wf(),
        b.wf(),
        a.extended_by(b),
    ensures
        a.holds(b.own()) == a.satisfied(),
{
    reveal(CsView::wf);
    reveal(CsView::extended_by);
    reveal(CsView::holds);
    let (x, y) = (a.own(), b.own());
    assert forall|i: int| 0 <= i < a.constraints.len() implies (#[trigger] a.constraints[i]).sat(x, a.p)
        == a.constraints[i].sat(y, a.p) by {
        let c = a.constraints[i];
        assert(c.within(a.inputs.len() as int, a.aux.len() as int));
        lemma_lc_agrees(c.a, x, y);
        lemma_lc_agrees(c.b, x, y);
        lemma_lc_agrees(c.c, x, y);
    }
}

/// A linear combination of variables.
pub struct LinearCombination<F: FieldElement> {
    pub terms: Vec<(Variable, F)>,
}

/// A product of two linear combinations that equals a third.
pub struct Constraint<F: FieldElement> {
    pub a: LinearCombination<F>,
    pub b: LinearCombination<F>,
    pub c: LinearCombination<F>,
}

/// A constraint system with values for its variables.
pub struct ConstraintSystem<F: FieldElement> {
    pub inputs: Vec<F>,
    pub aux: Vec<F>,
    pub constraints: Vec<Constraint<F>>,
    /// Whether values are wanted: without them, a value that is missing is taken to be zero.
    pub witness: bool,
    /// Variables that stand for constants, with these.
    pub fixed: Ghost<Seq<(Variable, int)>>,
}

/// The terms of a combination.
pub open spec fn lc_view<F: FieldElement>(terms: Seq<(Variable, F)>) -> LcView {
    Seq::new(terms.len(), |k: int| (terms[k].0, terms[k].1.val()))
}

impl<F: FieldElement> View for LinearCombination<F> {
    type V = LcView;

    open spec fn view(&self) -> LcView {
        lc_view(self.terms@)
    }
}

impl<F: FieldElement> View for Constraint<F> {
    type V = ConstraintView;

    open spec fn view(&self) -> ConstraintView {
        ConstraintView { a: self.a@, b: self.b@, c: self.c@ }
    }
}

impl<F: FieldElement> View for ConstraintSystem<F> {
    type V = CsView;

    open spec fn view(&self) -> CsView {
        CsView {
            inputs: vals(self.inputs@),
            aux: vals(self.aux@),
            constraints: Seq::new(self.constraints@.len(), |i: int| self.constraints@[i]@),
            fixed: self.fixed@,
            p: F::modulus(),
        }
    }
}

impl<F: FieldElement> LinearCombination<F> {
    /// The empty combination.
    pub fn zero() -> (r: Self)
        ensures
            r@ == LcView::empty(),
    {
        let r = LinearCombination { terms: Vec::new() };
        assert(r@ =~= LcView::empty());
        r
    }

    /// The combination with a multiple of a variable added.
    pub fn plus(self, coeff: &F, v: Variable) -> (r: Self)
        ensures
            r@ == self@.push((v, coeff.val())),
    {
        let mut terms = self.terms;
        terms.push((v, *coeff));
        let r = LinearCombination { terms };
        assert(r@ =~= self@.push((v, coeff.val())));
        r
    }
}

/// The value of a combination with one term more.
pub proof fn lemma_lc_push(lc: LcView, v: Variable, c: int, x: Assignment)
    ensures
        lc_eval(lc.push((v, c)), x) == lc_eval(lc, x) + c * x.get(v),
{
    let t = lc.push((v, c));
    let f = |k: int| t[k].1 * x.get(t[k].0);
    let g = |k: int| lc[k].1 * x.get(lc[k].0);
    lemma_sum_ext(f, g, lc.len() as int);
}

pub proof fn lemma_lc_empty(x: Assignment)
    ensures
        lc_eval(LcView::empty(), x) == 0,
{
}

/// Asks with `Vec::capacity` for how many constraints there is room: no fewer than there are, and no more than
/// `isize::MAX` bytes hold, which is the most that a `Vec` allocates; a constraint is three vectors and takes at least 32
/// bytes.
#[verifier::external_body]
fn constraint_capacity<F: FieldElement>(v: &Vec<Constraint<F>>) -> (r: usize)
    ensures
        v@.len() <= r,
        r <= usize::MAX / 64,
{
    v.capacity()
}

impl<F: FieldElement> ConstraintSystem<F> {
    /// A system is in memory, which limits its sizes.
    pub(crate) fn limit_sizes(&self)
        ensures
            self@.constraints.len() <= usize::MAX / 64,
            self@.aux.len() <= usize::MAX / 64,
            self@.inputs.len() <= usize::MAX / 64,
    {
        let _constraints = constraint_capacity(&self.constraints);
        let _aux = F::capacity(&self.aux);
        let _inputs = F::capacity(&self.inputs);
    }

    /// A system with the constant one and nothing else.
    pub fn new(witness: bool) -> (r: Self)
        ensures
            r@.wf(),
            r@.inputs == seq![1int],
            r@.aux == Seq::<int>::empty(),
            r@.constraints == Seq::<ConstraintView>::empty(),
            r@.satisfied(),
            r@.fixed == Seq::<(Variable, int)>::empty(),
            r.witness == witness,
            r@.p == F::modulus(),
    {
        let mut inputs: Vec<F> = Vec::new();
        inputs.push(F::from_u64(1));
        let minus_one = F::minus_one();
        let r = ConstraintSystem { inputs, aux: Vec::new(), constraints: Vec::new(), witness, fixed: Ghost(Seq::empty()) };
        assert(r@.inputs =~= seq![1int]);
        assert(r@.aux =~= Seq::<int>::empty());
        assert(r@.constraints =~= Seq::<ConstraintView>::empty());
        proof {
            F::modulus_bounds();
            reveal(CsView::wf);
            reveal(CsView::holds);
        }
        r
    }

    /// The constant one.
    pub fn one() -> (r: Variable)
        ensures
            r == Variable::Input(0),
    {
        Variable::Input(0)
    }

    /// Adds a variable with a value.
    pub fn allocate(&mut self, value: &F) -> (v: Variable)
        requires
            old(self)@.wf(),
        ensures
            final(self)@.wf(),
            old(self)@.extended_by(final(self)@),
            v == Variable::Aux(old(self)@.aux.len() as usize),
            final(self)@.has(v),
            final(self)@.own().get(v) == value.val(),
            final(self)@.aux == old(self)@.aux.push(value.val()),
            final(self)@.inputs == old(self)@.inputs,
            final(self)@.constraints == old(self)@.constraints,
            final(self)@.satisfied() == old(self)@.satisfied(),
            final(self).witness == old(self).witness,
    {
        let ghost before = self@;
        let idx = self.aux.len();
        self.aux.push(*value);
        proof {
            value.val_bounds();
            reveal(CsView::wf);
            reveal(CsView::extended_by);
            assert(self@.aux.len() == self.aux.len());
            assert(self@.aux =~= before.aux.push(value.val()));
            assert(self@.inputs =~= before.inputs);
            assert(self@.constraints =~= before.constraints);
            assert forall|i: int| 0 <= i < self@.constraints.len() implies (#[trigger] self@.constraints[i]).within(
                self@.inputs.len() as int,
                self@.aux.len() as int,
            ) by {
                assert(before.constraints[i].within(before.inputs.len() as int, before.aux.len() as int));
            }
            assert(before.extended_by(self@));
            lemma_satisfied_before(before, self@);
            reveal(CsView::holds);
        }
        Variable::Aux(idx)
    }

    /// Adds a public variable with a value.
    pub fn allocate_input(&mut self, value: &F) -> (v: Variable)
        requires
            old(self)@.wf(),
        ensures
            final(self)@.wf(),
            old(self)@.extended_by(final(self)@),
            v == Variable::Input(old(self)@.inputs.len() as usize),
            final(self)@.has(v),
            final(self)@.own().get(v) == value.val(),
            final(self)@.inputs == old(self)@.inputs.push(value.val()),
            final(self)@.aux == old(self)@.aux,
            final(self)@.constraints == old(self)@.constraints,
            final(self)@.satisfied() == old(self)@.satisfied(),
            final(self).witness == old(self).witness,
    {
        let ghost before = self@;
        let idx = self.inputs.len();
        self.inputs.push(*value);
        proof {
            value.val_bounds();
            reveal(CsView::wf);
            reveal(CsView::extended_by);
            assert(self@.inputs.len() == self.inputs.len());
            assert(self@.inputs =~= before.inputs.push(value.val()));
            assert(self@.aux =~= before.aux);
            assert(self@.constraints =~= before.constraints);
            assert forall|i: int| 0 <= i < self@.constraints.len() implies (#[trigger] self@.constraints[i]).within(
                self@.inputs.len() as int,
                self@.aux.len() as int,
            ) by {
                assert(before.constraints[i].within(before.inputs.len() as int, before.aux.len() as int));
            }
            assert(before.extended_by(self@));
            lemma_satisfied_before(before, self@);
            reveal(CsView::holds);
        }
        Variable::Input(idx)
    }

    /// Adds a constraint.
    pub fn enforce(&mut self, a: LinearCombination<F>, b: LinearCombination<F>, c: LinearCombination<F>)
        requires
            old(self)@.wf(),
            lc_within(a@, old(self)@.inputs.len() as int, old(self)@.aux.len() as int),
            lc_within(b@, old(self)@.inputs.len() as int, old(self)@.aux.len() as int),
            lc_within(c@, old(self)@.inputs.len() as int, old(self)@.aux.len() as int),
        ensures
            final(self)@.wf(),
            old(self)@.extended_by(final(self)@),
            final(self)@.inputs == old(self)@.inputs,
            final(self)@.aux == old(self)@.aux,
            final(self)@.constraints == old(self)@.constraints.push((ConstraintView { a: a@, b: b@, c: c@ })),
            final(self).witness == old(self).witness,
            forall|x: Assignment|
                #[trigger] final(self)@.holds(x) <==> old(self)@.holds(x) && (ConstraintView {
                    a: a@,
                    b: b@,
                    c: c@,
                }).sat(x, F::modulus()),
    {
        let ghost before = self@;
        let ghost k = ConstraintView { a: a@, b: b@, c: c@ };
        self.constraints.push(Constraint { a, b, c });
        proof {
            reveal(CsView::wf);
            reveal(CsView::extended_by);
            reveal(CsView::holds);
            assert(self@.inputs =~= before.inputs);
            assert(self@.aux =~= before.aux);
            assert(self@.constraints =~= before.constraints.push(k));
            assert(self@.own() == before.own());
            assert forall|i: int| 0 <= i < self@.fixed.len() implies self@.has((#[trigger] self@.fixed[i]).0)
                && self@.own().get(self@.fixed[i].0) == self@.fixed[i].1 by {
                assert(before.has(before.fixed[i].0));
            }
            assert(self@.wf());
            assert forall|x: Assignment| #[trigger] self@.holds(x) <==> before.holds(x) && k.sat(x, F::modulus()) by {
                if self@.holds(x) {
                    assert(self@.constraints[before.constraints.len() as int].sat(x, self@.p));
                    assert forall|i: int| 0 <= i < before.constraints.len() implies (
                    #[trigger] before.constraints[i]).sat(x, before.p) by {
                        assert(self@.constraints[i].sat(x, self@.p));
                    }
                }
            }
        }
    }

    /// Notes that a variable stands for the constant that it was given.
    pub(crate) fn fix(&mut self, v: Variable, Ghost(k): Ghost<int>)
        requires
            old(self)@.wf(),
            old(self)@.assigns(v, k),
        ensures
            step(old(self)@, final(self)@),
            final(self)@.satisfied() == old(self)@.satisfied(),
            final(self)@.inputs == old(self)@.inputs,
            final(self)@.aux == old(self)@.aux,
            final(self)@.constraints == old(self)@.constraints,
            final(self).witness == old(self).witness,
            forall|x: Assignment| #[trigger] final(self)@.keeps(x) ==> x.get(v) == k,
    {
        let ghost before = self@;
        self.fixed = Ghost(self.fixed@.push((v, k)));
        proof {
            reveal(CsView::wf);
            reveal(CsView::extended_by);
            reveal(CsView::holds);
            reveal(CsView::assigns);
            reveal(CsView::keeps);
            assert(self@.constraints =~= before.constraints);
            assert forall|i: int| 0 <= i < self@.fixed.len() implies self@.has((#[trigger] self@.fixed[i]).0)
                && self@.own().get(self@.fixed[i].0) == self@.fixed[i].1 by {
                if i < before.fixed.len() {
                    assert(before.fixed[i] == self@.fixed[i]);
                }
            }
            assert(before.extended_by(self@));
            lemma_step(before, self@);
            assert forall|x: Assignment| #[trigger] self@.keeps(x) implies x.get(v) == k by {
                assert(self@.fixed[before.fixed.len() as int] == (v, k));
            }
        }
    }

    /// The value that a variable was given.
    pub fn value_of(&self, v: Variable) -> (r: F)
        requires
            self@.has(v),
        ensures
            r.val() == self@.own().get(v),
    {
        match v {
            Variable::Input(i) => self.inputs[i],
            Variable::Aux(i) => self.aux[i],
        }
    }

    /// The value of a combination.
    fn eval_lc(&self, lc: &LinearCombination<F>) -> (r: F)
        requires
            lc_within(lc@, self@.inputs.len() as int, self@.aux.len() as int),
        ensures
            r.val() == lc_eval(lc@, self@.own()) % F::modulus(),
    {
        let ghost p = F::modulus();
        let ghost x = self@.own();
        let ghost v = lc@;
        let ghost f = |k: int| v[k].1 * x.get(v[k].0);
        let mut acc = F::from_u64(0);
        let mut i: usize = 0;
        proof {
            F::modulus_bounds();
        }
        while i < lc.terms.len()
            invariant
                i <= lc.terms.len(),
                p == F::modulus(),
                p > 1,
                v == lc@,
                x == self@.own(),
                f == (|k: int| v[k].1 * x.get(v[k].0)),
                lc_within(v, self@.inputs.len() as int, self@.aux.len() as int),
                cong(acc.val(), sum(f, i as int), p),
            decreases lc.terms.len() - i,
        {
            let (var, c) = lc.terms[i];
            assert(v[i as int] == (var, c.val()));
            assert(var_within(v[i as int].0, self@.inputs.len() as int, self@.aux.len() as int));
            let value = self.value_of(var);
            let term = c.mul(&value);
            let next = acc.add(&term);
            proof {
                let t = c.val() * value.val();
                crate::math::lemma_cong_mod(t, p);
                crate::math::lemma_cong_add(acc.val(), sum(f, i as int), t % p, t, p);
                crate::math::lemma_cong_mod(acc.val() + t % p, p);
                assert(sum(f, i + 1) == sum(f, i as int) + f(i as int));
            }
            acc = next;
            i = i + 1;
        }
        proof {
            acc.val_bounds();
            crate::math::lemma_canonical(acc.val(), sum(f, v.len() as int), p);
        }
        acc
    }

    /// The first constraint that the values given do not satisfy.
    pub fn which_is_unsatisfied(&self) -> (r: Option<usize>)
        requires
            self@.wf(),
        ensures
            r is None <==> self@.satisfied(),
            r matches Some(i) ==> {
                &&& i < self@.constraints.len()
                &&& !self@.constraints[i as int].sat(self@.own(), F::modulus())
                &&& forall|k: int| 0 <= k < i ==> (#[trigger] self@.constraints[k]).sat(self@.own(), F::modulus())
            },
    {
        let ghost p = F::modulus();
        let mut i: usize = 0;
        proof {
            reveal(CsView::wf);
            reveal(CsView::holds);
            F::modulus_bounds();
        }
        while i < self.constraints.len()
            invariant
                i <= self.constraints.len(),
                p == F::modulus(),
                p > 1,
                self@.wf(),
                forall|k: int| 0 <= k < i ==> (#[trigger] self@.constraints[k]).sat(self@.own(), p),
            decreases self.constraints.len() - i,
        {
            let c = &self.constraints[i];
            proof {
                reveal(CsView::wf);
                assert(self@.constraints[i as int] == c@);
                assert(c@.within(self@.inputs.len() as int, self@.aux.len() as int));
            }
            let a = self.eval_lc(&c.a);
            let b = self.eval_lc(&c.b);
            let d = self.eval_lc(&c.c);
            let prod = a.mul(&b);
            let same = prod.equals(&d);
            proof {
                let (x, y, z) = (
                    lc_eval(c.a@, self@.own()),
                    lc_eval(c.b@, self@.own()),
                    lc_eval(c.c@, self@.own()),
                );
                crate::math::lemma_cong_mod(x, p);
                crate::math::lemma_cong_mod(y, p);
                crate::math::lemma_cong_mul(x % p, x, y % p, y, p);
                assert(same == c@.sat(self@.own(), p));
            }
            if !same {
                proof {
                    reveal(CsView::holds);
                }
                return Some(i);
            }
            i = i + 1;
        }
        None
    }

    /// Whether the values given satisfy every constraint.
    pub fn is_satisfied(&self) -> (r: bool)
        requires
            self@.wf(),
        ensures
            r == self@.satisfied(),
    {
        self.which_is_unsatisfied().is_none()
    }

    pub fn num_constraints(&self) -> (r: usize)
        ensures
            r == self@.constraints.len(),
    {
        self.constraints.len()
    }

    pub fn num_inputs(&self) -> (r: usize)
        ensures
            r == self@.inputs.len(),
    {
        self.inputs.len()
    }

    pub fn num_aux(&self) -> (r: usize)
        ensures
            r == self@.aux.len(),
    {
        self.aux.len()
    }
}

/// A system is satisfied by the values that its variables were given exactly if in every constraint the product of the
/// first two combinations is the third, each being the sum of its values times their coefficients.
pub proof fn satisfied_system_multiplies(s: CsView)
    requires
        s.wf(),
    ensures
        s.satisfied() <==> forall|i: int|
            0 <= i < s.constraints.len() ==> {
                let (c, x) = (#[trigger] s.constraints[i], s.own());
                cong(
                    sum(|k: int| c.a[k].1 * x.get(c.a[k].0), c.a.len() as int) * sum(
                        |k: int| c.b[k].1 * x.get(c.b[k].0),
                        c.b.len() as int,
                    ),
                    sum(|k: int| c.c[k].1 * x.get(c.c[k].0), c.c.len() as int),
                    s.p,
                )
            },
{
    reveal(CsView::wf);
    reveal(CsView::holds);
    let x = s.own();
    assert forall|i: int| 0 <= i < s.constraints.len() implies (#[trigger] s.constraints[i]).sat(x, s.p) == cong(
        sum(|k: int| s.constraints[i].a[k].1 * x.get(s.constraints[i].a[k].0), s.constraints[i].a.len() as int) * sum(
            |k: int| s.constraints[i].b[k].1 * x.get(s.constraints[i].b[k].0),
            s.constraints[i].b.len() as int,
        ),
        sum(|k: int| s.constraints[i].c[k].1 * x.get(s.constraints[i].c[k].0), s.constraints[i].c.len() as int),
        s.p,
    ) by {}
}

} // verus!
