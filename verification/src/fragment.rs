//! Parts of a constraint system that come from elsewhere, and how they become part of a system.
use crate::cs::{
    lc_eval, lemma_extends_refl, lemma_one, lemma_own_follows, lemma_step, lemma_step_trans, step, var_within,
    Assignment, Constraint, ConstraintSystem, ConstraintView, CsView, LcView, LinearCombination, Variable,
};
use crate::engine::{discrete_log, on_curve, vals, CurveEngine, CurveGroup, PointView, RandomOracle, MAX_ABSORBED};
use crate::field::{bytes_value, limbs_value, FieldElement};
use crate::gadgets::{all_within, ats, bits_value, bool_int, demand, lc_of, lemma_at, lemma_own, wires, AllocatedNum};
use crate::math::{cong, lemma_sum_ext, sum};
use crate::mle::bit;
use crate::layout::{lay_splice, placed, placed_constraint, placed_lc, FragmentLayout};
use vstd::arithmetic::power2::pow2;
use vstd::prelude::*;

verus! {

/// The number of bits of a limb of a large number.
pub const LIMB_WIDTH: usize = 64;

/// The number of limbs of a large number.
pub const NUM_LIMBS: usize = 4;


/// Constraints over some inputs and over variables of their own, values for these, and variables that are results.
pub struct FragmentView {
    pub constraints: Seq<ConstraintView>,
    pub aux: Seq<int>,
    pub outputs: Seq<Variable>,
}

impl FragmentView {
    /// What does not depend on the values.
    pub open spec fn layout(self) -> FragmentLayout {
        FragmentLayout { constraints: self.constraints, aux: self.aux.len() as int, outputs: self.outputs }
    }

    /// Whether all variables are those of the inputs and of the fragment, and its values are residues.
    pub open spec fn fits(self, n: int, p: int) -> bool {
        &&& forall|k: int| 0 <= k < self.constraints.len() ==> (#[trigger] self.constraints[k]).within(
            n + 1,
            self.aux.len() as int,
        )
        &&& forall|k: int| 0 <= k < self.outputs.len() ==> var_within(
            #[trigger] self.outputs[k],
            n + 1,
            self.aux.len() as int,
        )
        &&& forall|k: int| 0 <= k < self.aux.len() ==> 0 <= #[trigger] self.aux[k] < p
    }

    /// Whether an assignment of residues to the inputs and to the variables satisfies every constraint.
    pub open spec fn accepts(self, y: Assignment, n: int, p: int) -> bool {
        &&& y.inputs.len() == n + 1
        &&& y.inputs[0] == 1
        &&& y.aux.len() == self.aux.len()
        &&& forall|i: int| 0 <= i < y.inputs.len() ==> 0 <= #[trigger] y.inputs[i] < p
        &&& forall|i: int| 0 <= i < y.aux.len() ==> 0 <= #[trigger] y.aux[i] < p
        &&& forall|k: int| 0 <= k < self.constraints.len() ==> (#[trigger] self.constraints[k]).sat(y, p)
    }

    /// The values of the fragment, behind the constant and values for the inputs.
    pub open spec fn own(self, inputs: Seq<int>) -> Assignment {
        Assignment { inputs: seq![1int] + inputs, aux: self.aux }
    }

    /// Whether there is one result, which is the hash of the inputs under every satisfying assignment.
    pub open spec fn hashes(self, n: int, p: int, hash: spec_fn(Seq<int>) -> int) -> bool {
        &&& self.outputs.len() == 1
        &&& forall|y: Assignment| #[trigger] self.accepts(y, n, p) ==> y.get(self.outputs[0]) == hash(y.inputs.skip(1))
    }

    /// Whether there are 255 results, which are the bits of the one input under every satisfying assignment.
    pub open spec fn unpacks(self, p: int) -> bool {
        &&& self.outputs.len() == 255
        &&& forall|y: Assignment, k: int|
            #![trigger self.accepts(y, 1, p), self.outputs[k]]
            self.accepts(y, 1, p) && 0 <= k < 255 ==> y.get(self.outputs[k]) == bool_int(bit(y.inputs[1], k))
    }

    /// Whether three results are the coordinates of the sum of the two points whose coordinates the inputs are.
    pub open spec fn adds<E: CurveGroup>(self) -> bool {
        &&& self.outputs.len() == 3
        &&& forall|y: Assignment| #[trigger]
            self.accepts(y, 6, E::Base::modulus()) && is_point::<E>(y.inputs, 1) && is_point::<E>(y.inputs, 4) ==> {
                &&& is_point::<E>(self.results(y), 0)
                &&& log_of::<E>(self.results(y), 0) == (log_of::<E>(y.inputs, 1) + log_of::<E>(y.inputs, 4))
                    % E::Scalar::modulus()
            }
    }

    /// Whether three results are the coordinates of the multiple of a point: the first three inputs are the
    /// coordinates of the point, the others the bits of the multiplier.
    pub open spec fn scales<E: CurveGroup>(self, bits: int) -> bool {
        &&& self.outputs.len() == 3
        &&& forall|y: Assignment| #[trigger]
            self.accepts(y, bits + 3, E::Base::modulus()) && is_point::<E>(y.inputs, 1) && all_bits(y.inputs.skip(4))
                ==> {
                &&& is_point::<E>(self.results(y), 0)
                &&& log_of::<E>(self.results(y), 0) == (log_of::<E>(y.inputs, 1) * bits_value(y.inputs.skip(4), bits))
                    % E::Scalar::modulus()
            }
    }

    /// Whether three inputs are the coordinates of a point unless the third is not zero.
    pub open spec fn checks<E: CurveGroup>(self) -> bool {
        forall|y: Assignment| #[trigger]
            self.accepts(y, 3, E::Base::modulus()) && y.inputs[3] == 0 ==> is_point::<E>(y.inputs, 1)
    }

    /// Whether four results are limbs of a number that the residue of the one input is that of.
    pub open spec fn splits(self, p: int) -> bool {
        &&& self.outputs.len() == 4
        &&& forall|y: Assignment| #[trigger]
            self.accepts(y, 1, p) ==> is_nat(self.results(y), 0) && nat_of(self.results(y), 0) % p == y.inputs[1]
    }

    /// Whether four results are limbs of a number that is congruent to a product: the first eight inputs are the
    /// limbs of the factors, the others those of the modulus.
    pub open spec fn multiplies(self, p: int, m: int) -> bool {
        &&& self.outputs.len() == 4
        &&& forall|y: Assignment| #[trigger]
            self.accepts(y, 12, p) && is_nat(y.inputs, 1) && is_nat(y.inputs, 5) && is_nat(y.inputs, 9) && nat_of(
                y.inputs,
                9,
            ) == m ==> is_nat(self.results(y), 0) && cong(
                nat_of(self.results(y), 0),
                nat_of(y.inputs, 1) * nat_of(y.inputs, 5),
                m,
            )
    }

    /// Whether four results are limbs of a number that is congruent to a sum: the first eight inputs are the limbs
    /// of the summands, the others those of the modulus.
    pub open spec fn reduces(self, p: int, m: int) -> bool {
        &&& self.outputs.len() == 4
        &&& forall|y: Assignment| #[trigger]
            self.accepts(y, 12, p) && is_nat(y.inputs, 1) && is_nat(y.inputs, 5) && is_nat(y.inputs, 9) && nat_of(
                y.inputs,
                9,
            ) == m ==> is_nat(self.results(y), 0) && cong(
                nat_of(self.results(y), 0),
                nat_of(y.inputs, 1) + nat_of(y.inputs, 5),
                m,
            )
    }

    /// The results under an assignment.
    pub open spec fn results(self, y: Assignment) -> Seq<int> {
        Seq::new(self.outputs.len(), |i: int| y.get(self.outputs[i]))
    }
}

/// The number that four limbs of 64 bits from the index on are.
pub open spec fn nat_of(s: Seq<int>, i: int) -> int {
    s[i] + 0x1_0000_0000_0000_0000 * s[i + 1] + 0x1_0000_0000_0000_0000_0000_0000_0000_0000int * s[i + 2]
        + 0x1_0000_0000_0000_0000_0000_0000_0000_0000_0000_0000_0000_0000int * s[i + 3]
}

/// Whether four numbers from the index on are limbs of 64 bits.
pub open spec fn is_nat(s: Seq<int>, i: int) -> bool {
    &&& 0 <= s[i] < 0x1_0000_0000_0000_0000
    &&& 0 <= s[i + 1] < 0x1_0000_0000_0000_0000
    &&& 0 <= s[i + 2] < 0x1_0000_0000_0000_0000
    &&& 0 <= s[i + 3] < 0x1_0000_0000_0000_0000
}

/// Whether all numbers are zero or one.
pub open spec fn all_bits(s: Seq<int>) -> bool {
    forall|i: int| 0 <= i < s.len() ==> #[trigger] s[i] == 0 || s[i] == 1
}

/// The point whose coordinates are three numbers from the index on, one being there for the point at infinity.
pub open spec fn point_of(s: Seq<int>, i: int) -> PointView {
    (s[i], s[i + 1], s[i + 2] == 1)
}

/// Whether three numbers from the index on are the coordinates of a point.
pub open spec fn is_point<E: CurveGroup>(s: Seq<int>, i: int) -> bool {
    on_curve::<E>(point_of(s, i)) && (s[i + 2] == 0 || s[i + 2] == 1)
}

/// The multiple of the generator that three numbers from the index on are the coordinates of.
pub open spec fn log_of<E: CurveGroup>(s: Seq<int>, i: int) -> int {
    discrete_log::<E>(point_of(s, i))
}

/// A fragment with elements of a field.
pub struct Fragment<F: FieldElement> {
    pub constraints: Vec<Constraint<F>>,
    pub aux: Vec<F>,
    pub outputs: Vec<Variable>,
}

impl<F: FieldElement> View for Fragment<F> {
    type V = FragmentView;

    open spec fn view(&self) -> FragmentView {
        FragmentView {
            constraints: Seq::new(self.constraints@.len(), |i: int| self.constraints@[i]@),
            aux: vals(self.aux@),
            outputs: self.outputs@,
        }
    }
}

/// A variable by whether it is an input, and its index.
pub type RawVariable = (bool, usize);

/// A linear combination with the bytes of its coefficients.
pub type RawCombination = Vec<(RawVariable, [u8; 32])>;

/// The variable that a raw one is.
pub open spec fn raw_variable(v: RawVariable) -> Variable {
    if v.0 {
        Variable::Input(v.1)
    } else {
        Variable::Aux(v.1)
    }
}

/// The linear combination that a raw one is.
pub open spec fn raw_combination(lc: RawCombination, p: int) -> LcView {
    Seq::new(lc@.len(), |i: int| (raw_variable(lc@[i].0), bytes_value(lc@[i].1) % p))
}

/// The constraint that a raw one is.
pub open spec fn raw_constraint(k: [RawCombination; 3], p: int) -> ConstraintView {
    ConstraintView { a: raw_combination(k[0], p), b: raw_combination(k[1], p), c: raw_combination(k[2], p) }
}

/// The fragment that raw constraints, values and results are.
pub open spec fn raw_fragment(
    constraints: Seq<[RawCombination; 3]>,
    aux: Seq<[u8; 32]>,
    outputs: Seq<RawVariable>,
    p: int,
) -> FragmentView {
    FragmentView {
        constraints: Seq::new(constraints.len(), |i: int| raw_constraint(constraints[i], p)),
        aux: Seq::new(aux.len(), |i: int| bytes_value(aux[i]) % p),
        outputs: Seq::new(outputs.len(), |i: int| raw_variable(outputs[i])),
    }
}

/// The residues that byte strings stand for.
pub open spec fn raw_elements(raw: Seq<[u8; 32]>, p: int) -> Seq<int> {
    Seq::new(raw.len(), |i: int| bytes_value(raw[i]) % p)
}

/// The residues that lists of byte strings stand for.
pub open spec fn raw_lists(raw: Seq<Vec<[u8; 32]>>, p: int) -> Seq<Seq<int>> {
    Seq::new(raw.len(), |i: int| raw_elements(raw[i]@, p))
}

/// The elements that byte strings stand for.
pub(crate) fn read_elements<F: FieldElement>(raw: &Vec<[u8; 32]>) -> (r: Vec<F>)
    ensures
        vals(r@) == raw_elements(raw@, F::modulus()),
{
    let mut r: Vec<F> = Vec::new();
    let mut i: usize = 0;
    while i < raw.len()
        invariant
            i <= raw.len(),
            r@.len() == i,
            forall|k: int| 0 <= k < i ==> (#[trigger] r@[k]).val() == bytes_value(raw@[k]) % F::modulus(),
        decreases raw.len() - i,
    {
        r.push(F::from_bytes(&raw[i]));
        i = i + 1;
    }
    assert(vals(r@) =~= raw_elements(raw@, F::modulus()));
    r
}

/// The elements that lists of byte strings stand for.
pub(crate) fn read_lists<F: FieldElement>(raw: &Vec<Vec<[u8; 32]>>) -> (r: Vec<Vec<F>>)
    ensures
        Seq::new(r@.len(), |i: int| vals(r@[i]@)) == raw_lists(raw@, F::modulus()),
        r@.len() == raw@.len(),
{
    let mut r: Vec<Vec<F>> = Vec::new();
    let mut i: usize = 0;
    while i < raw.len()
        invariant
            i <= raw.len(),
            r@.len() == i,
            forall|k: int| 0 <= k < i ==> vals((#[trigger] r@[k])@) == raw_elements(raw@[k]@, F::modulus()),
        decreases raw.len() - i,
    {
        r.push(read_elements(&raw[i]));
        i = i + 1;
    }
    assert(Seq::new(r@.len(), |i: int| vals(r@[i]@)) =~= raw_lists(raw@, F::modulus()));
    r
}

/// The variables that combinations start with.
pub open spec fn first_variables(limbs: Seq<RawCombination>) -> Seq<RawVariable> {
    Seq::new(limbs.len(), |i: int| limbs[i]@[0].0)
}

/// The variables that combinations of one term are of.
pub(crate) fn read_limb_variables(limbs: &Vec<RawCombination>) -> (r: Vec<RawVariable>)
    requires
        forall|i: int| 0 <= i < limbs@.len() ==> (#[trigger] limbs@[i])@.len() == 1,
    ensures
        r@ == first_variables(limbs@),
{
    let mut r: Vec<RawVariable> = Vec::new();
    let mut i: usize = 0;
    while i < limbs.len()
        invariant
            i <= limbs.len(),
            r@.len() == i,
            forall|k: int| 0 <= k < limbs@.len() ==> (#[trigger] limbs@[k])@.len() == 1,
            forall|k: int| 0 <= k < i ==> #[trigger] r@[k] == limbs@[k]@[0].0,
        decreases limbs.len() - i,
    {
        assert(limbs@[i as int]@.len() == 1);
        r.push(limbs[i][0].0);
        i = i + 1;
    }
    assert(r@ =~= first_variables(limbs@));
    r
}

fn read_variable(v: RawVariable) -> (r: Variable)
    ensures
        r == raw_variable(v),
{
    if v.0 {
        Variable::Input(v.1)
    } else {
        Variable::Aux(v.1)
    }
}

fn read_combination<F: FieldElement>(lc: &RawCombination) -> (r: LinearCombination<F>)
    ensures
        r@ == raw_combination(*lc, F::modulus()),
{
    let mut r = LinearCombination::zero();
    let mut i: usize = 0;
    while i < lc.len()
        invariant
            i <= lc.len(),
            r@ == raw_combination(*lc, F::modulus()).take(i as int),
        decreases lc.len() - i,
    {
        let (v, bytes) = lc[i];
        r = r.plus(&F::from_bytes(&bytes), read_variable(v));
        assert(r@ =~= raw_combination(*lc, F::modulus()).take(i + 1));
        i = i + 1;
    }
    assert(raw_combination(*lc, F::modulus()).take(lc.len() as int) =~= raw_combination(*lc, F::modulus()));
    r
}

impl<F: FieldElement> Fragment<F> {
    /// The fragment that raw constraints, values and results are.
    pub fn read(constraints: &Vec<[RawCombination; 3]>, aux: &Vec<[u8; 32]>, outputs: &Vec<RawVariable>) -> (r: Self)
        ensures
            r@ == raw_fragment(constraints@, aux@, outputs@, F::modulus()),
    {
        let ghost p = F::modulus();
        let mut ks: Vec<Constraint<F>> = Vec::new();
        let mut i: usize = 0;
        while i < constraints.len()
            invariant
                i <= constraints.len(),
                p == F::modulus(),
                ks.len() == i,
                forall|k: int| 0 <= k < i ==> (#[trigger] ks@[k])@ == raw_constraint(constraints@[k], p),
            decreases constraints.len() - i,
        {
            let a = read_combination(&constraints[i][0]);
            let b = read_combination(&constraints[i][1]);
            let c = read_combination(&constraints[i][2]);
            ks.push(Constraint { a, b, c });
            i = i + 1;
        }
        let mut values: Vec<F> = Vec::new();
        let mut j: usize = 0;
        while j < aux.len()
            invariant
                j <= aux.len(),
                p == F::modulus(),
                values.len() == j,
                forall|k: int| 0 <= k < j ==> (#[trigger] values@[k]).val() == bytes_value(aux@[k]) % p,
            decreases aux.len() - j,
        {
            values.push(F::from_bytes(&aux[j]));
            j = j + 1;
        }
        let mut vars: Vec<Variable> = Vec::new();
        let mut l: usize = 0;
        while l < outputs.len()
            invariant
                l <= outputs.len(),
                vars.len() == l,
                forall|k: int| 0 <= k < l ==> #[trigger] vars@[k] == raw_variable(outputs@[k]),
            decreases outputs.len() - l,
        {
            vars.push(read_variable(outputs[l]));
            l = l + 1;
        }
        let r = Fragment { constraints: ks, aux: values, outputs: vars };
        proof {
            let want = raw_fragment(constraints@, aux@, outputs@, p);
            assert(r@.constraints =~= want.constraints);
            assert(r@.aux =~= want.aux);
            assert(r@.outputs =~= want.outputs);
        }
        r
    }
}

/// A curve whose hash and group operations are there as fragments.
pub trait CircuitEngine: CurveEngine {
    /// The layout of the hash of so many elements.
    spec fn hash_layout(n: int) -> FragmentLayout;

    /// The layout of the bits of so many numbers, of which there is one.
    spec fn bits_layout(n: int) -> FragmentLayout;

    /// The layout of the sum of two points, of so many coordinates.
    spec fn add_layout(n: int) -> FragmentLayout;

    /// The layout of the check of a point, of so many coordinates.
    spec fn check_layout(n: int) -> FragmentLayout;

    /// The layout of the multiple of a point, of so many coordinates and bits.
    spec fn scale_layout(n: int) -> FragmentLayout;

    /// The hash of what an oracle holds.
    fn hash_fragment(constants: &<Self::RO as RandomOracle<Self::Base>>::Constants, state: &Vec<Self::Base>) -> (r: Fragment<
        Self::Base,
    >)
        requires
            0 < state.len() <= MAX_ABSORBED,
        ensures
            r@.layout() == Self::hash_layout(state.len() as int),
            r@.fits(state.len() as int, Self::Base::modulus()),
            r@.accepts(r@.own(vals(state@)), state.len() as int, Self::Base::modulus()),
            r@.hashes(
                state.len() as int,
                Self::Base::modulus(),
                |s: Seq<int>| <Self::RO as RandomOracle<Self::Base>>::hash(s),
            ),
    ;

    /// The bits of a number.
    fn bits_fragment(value: &Self::Base) -> (r: Fragment<Self::Base>)
        ensures
            r@.layout() == Self::bits_layout(1),
            r@.fits(1, Self::Base::modulus()),
            r@.accepts(r@.own(seq![value.val()]), 1, Self::Base::modulus()),
            r@.unpacks(Self::Base::modulus()),
    ;

    /// The sum of two points.
    fn add_fragment(values: &[Self::Base; 6]) -> (r: Fragment<Self::Base>)
        requires
            is_point::<Self>(vals(values@), 0),
            is_point::<Self>(vals(values@), 3),
        ensures
            r@.layout() == Self::add_layout(6),
            r@.fits(6, Self::Base::modulus()),
            r@.accepts(r@.own(vals(values@)), 6, Self::Base::modulus()),
            r@.adds::<Self>(),
    ;

    /// The check that a point is on the curve.
    fn check_fragment(values: &[Self::Base; 3]) -> (r: Fragment<Self::Base>)
        requires
            is_point::<Self>(vals(values@), 0),
        ensures
            r@.layout() == Self::check_layout(3),
            r@.fits(3, Self::Base::modulus()),
            r@.accepts(r@.own(vals(values@)), 3, Self::Base::modulus()),
            r@.checks::<Self>(),
    ;

    /// The multiple of a point.
    fn scale_fragment(point: &[Self::Base; 3], bits: &Vec<bool>) -> (r: Fragment<Self::Base>)
        requires
            0 < bits.len() <= 250,
            is_point::<Self>(vals(point@), 0),
        ensures
            r@.layout() == Self::scale_layout(bits.len() + 3),
            r@.fits(bits.len() + 3, Self::Base::modulus()),
            r@.accepts(
                r@.own(vals(point@) + Seq::new(bits@.len(), |i: int| bool_int(bits@[i]))),
                bits.len() + 3,
                Self::Base::modulus(),
            ),
            r@.scales::<Self>(bits.len() as int),
    ;

    /// The limbs of a number.
    fn split_fragment(value: &Self::Base) -> (r: Fragment<Self::Base>)
        ensures
            r@.fits(1, Self::Base::modulus()),
            r@.accepts(r@.own(seq![value.val()]), 1, Self::Base::modulus()),
            r@.splits(Self::Base::modulus()),
            nat_of(r@.results(r@.own(seq![value.val()])), 0) == value.val(),
    ;

    /// The product of two large numbers modulo the order of the scalar field.
    fn multiply_fragment(values: &[Self::Base; 12]) -> (r: Fragment<Self::Base>)
        requires
            is_nat(vals(values@), 0),
            is_nat(vals(values@), 4),
            is_nat(vals(values@), 8),
            nat_of(vals(values@), 8) == Self::Scalar::modulus(),
        ensures
            r@.fits(12, Self::Base::modulus()),
            r@.accepts(r@.own(vals(values@)), 12, Self::Base::modulus()),
            r@.multiplies(Self::Base::modulus(), Self::Scalar::modulus()),
            nat_of(r@.results(r@.own(vals(values@))), 0) == (nat_of(vals(values@), 0) * nat_of(vals(values@), 4))
                % Self::Scalar::modulus(),
    ;

    /// The sum of two large numbers modulo the order of the scalar field.
    fn reduce_fragment(values: &[Self::Base; 12]) -> (r: Fragment<Self::Base>)
        requires
            is_nat(vals(values@), 0),
            is_nat(vals(values@), 4),
            is_nat(vals(values@), 8),
            nat_of(vals(values@), 8) == Self::Scalar::modulus(),
        ensures
            r@.fits(12, Self::Base::modulus()),
            r@.accepts(r@.own(vals(values@)), 12, Self::Base::modulus()),
            r@.reduces(Self::Base::modulus(), Self::Scalar::modulus()),
            nat_of(r@.results(r@.own(vals(values@))), 0) == (nat_of(vals(values@), 0) + nat_of(vals(values@), 4))
                % Self::Scalar::modulus(),
    ;

    /// The proof that the products of two tables are a third, in all points and with the weights that the first numbers
    /// give: the coefficients of one polynomial for each variable, and the last values of the tables.
    spec fn cubic_proof(label: Seq<char>, claim: int, taus: Seq<int>, a: Seq<int>, b: Seq<int>, c: Seq<int>) -> (
        Seq<Seq<int>>,
        Seq<int>,
    );

    /// The proof that the products of two tables are a third.
    fn prove_cubic(
        label: &'static str,
        claim: &Self::Scalar,
        taus: &Vec<Self::Scalar>,
        a: &Vec<Self::Scalar>,
        b: &Vec<Self::Scalar>,
        c: &Vec<Self::Scalar>,
    ) -> (r: (Vec<Vec<Self::Scalar>>, Vec<Self::Scalar>))
        requires
            taus@.len() >= 1,
            a@.len() == pow2(taus@.len()),
            b@.len() == pow2(taus@.len()),
            c@.len() == pow2(taus@.len()),
        ensures
            Self::cubic_proof(label@, claim.val(), vals(taus@), vals(a@), vals(b@), vals(c@)) == (
                Seq::new(r.0@.len(), |i: int| vals(r.0@[i]@)),
                vals(r.1@),
            ),
            r.0@.len() == taus@.len(),
            forall|i: int| 0 <= i < r.0@.len() ==> (#[trigger] r.0@[i])@.len() == 4,
            r.1@.len() == 3,
    ;

    /// The limbs of the order of the scalar field.
    fn scalar_limbs() -> (r: [u64; 4])
        ensures
            limbs_value(r) == Self::Scalar::modulus(),
    ;
}

/// What an assignment of a system gives to a fragment that was put into it behind `base` variables.
pub open spec fn projection<F: FieldElement>(
    inputs: Seq<AllocatedNum<F>>,
    base: int,
    len: int,
    x: Assignment,
) -> Assignment {
    Assignment { inputs: seq![1int] + ats(inputs, x), aux: x.aux.subrange(base, base + len) }
}

/// The variable of a system that a variable of a fragment becomes.
pub open spec fn renamed<F: FieldElement>(v: Variable, inputs: Seq<AllocatedNum<F>>, base: int) -> Variable {
    match v {
        Variable::Input(i) => if i == 0 {
            Variable::Input(0)
        } else {
            inputs[i - 1].variable
        },
        Variable::Aux(j) => Variable::Aux((base + j) as usize),
    }
}

/// A variable is placed as it is renamed.
proof fn lemma_placed<F: FieldElement>(v: Variable, inputs: Seq<AllocatedNum<F>>, base: int, len: int)
    requires
        var_within(v, inputs.len() as int + 1, len),
    ensures
        renamed(v, inputs, base) == placed(v, wires(inputs), base),
{
}

fn rename<F: FieldElement>(v: Variable, inputs: &Vec<AllocatedNum<F>>, base: usize, Ghost(len): Ghost<int>) -> (r: Variable)
    requires
        var_within(v, inputs.len() + 1, len),
        base + len <= usize::MAX,
    ensures
        r == placed(v, wires(inputs@), base as int),
        r == renamed(v, inputs@, base as int),
{
    match v {
        Variable::Input(i) => if i == 0 {
            Variable::Input(0)
        } else {
            inputs[i - 1].variable
        },
        Variable::Aux(j) => Variable::Aux(base + j),
    }
}

/// Whether a system holds the values of a fragment behind `base` variables, and its inputs.
pub open spec fn holds_fragment<F: FieldElement>(
    cs: CsView,
    inputs: Seq<AllocatedNum<F>>,
    base: int,
    len: int,
) -> bool {
    &&& cs.wf()
    &&& all_within(inputs, cs)
    &&& 0 <= base
    &&& 0 <= len
    &&& base + len <= cs.aux.len()
}

/// A renamed variable is of the system, and takes the value that the projection gives.
proof fn lemma_renamed<F: FieldElement>(
    v: Variable,
    inputs: Seq<AllocatedNum<F>>,
    base: int,
    len: int,
    cs: CsView,
    x: Assignment,
)
    requires
        holds_fragment(cs, inputs, base, len),
        var_within(v, inputs.len() as int + 1, len),
        cs.follows(x),
    ensures
        cs.has(renamed(v, inputs, base)),
        x.get(renamed(v, inputs, base)) == projection(inputs, base, len, x).get(v),
{
    lemma_one(cs);
    reveal(CsView::wf);
    reveal(CsView::assigns);
    reveal(CsView::holds);
    reveal(CsView::agrees);
    match v {
        Variable::Input(i) => {
            if i > 0 {
                assert(inputs[i - 1].within(cs));
                assert(projection(inputs, base, len, x).inputs[i as int] == inputs[i - 1].at(x));
            }
        },
        Variable::Aux(j) => {},
    }
}

fn rename_combination<F: FieldElement>(
    lc: &LinearCombination<F>,
    inputs: &Vec<AllocatedNum<F>>,
    base: usize,
    Ghost(len): Ghost<int>,
    Ghost(cs): Ghost<CsView>,
) -> (r: LinearCombination<F>)
    requires
        holds_fragment(cs, inputs@, base as int, len),
        base + len <= usize::MAX,
        crate::cs::lc_within(lc@, inputs.len() + 1, len),
    ensures
        r@ == placed_lc(lc@, wires(inputs@), base as int),
        lc_of(r@, cs),
        forall|x: Assignment| #[trigger]
            cs.follows(x) ==> lc_eval(r@, x) == lc_eval(lc@, projection(inputs@, base as int, len, x)),
{
    let mut r = LinearCombination::zero();
    let mut i: usize = 0;
    while i < lc.terms.len()
        invariant
            i <= lc.terms.len(),
            r@.len() == i,
            base + len <= usize::MAX,
            crate::cs::lc_within(lc@, inputs.len() + 1, len),
            forall|k: int| 0 <= k < i ==> #[trigger] r@[k] == (renamed(lc@[k].0, inputs@, base as int), lc@[k].1),
        decreases lc.terms.len() - i,
    {
        let (v, c) = lc.terms[i];
        assert(lc@[i as int] == (v, c.val()));
        let ghost before = r@;
        let w = rename(v, inputs, base, Ghost(len));
        r = r.plus(&c, w);
        assert forall|k: int| 0 <= k < i + 1 implies #[trigger] r@[k] == (
            renamed(lc@[k].0, inputs@, base as int),
            lc@[k].1,
        ) by {
            if k < i {
                assert(r@[k] == before[k]);
            }
        }
        i = i + 1;
    }
    proof {
        assert(r@ =~= placed_lc(lc@, wires(inputs@), base as int)) by {
            assert forall|k: int| 0 <= k < r@.len() implies #[trigger] r@[k] == placed_lc(lc@, wires(inputs@), base as int)[k] by {
                assert(var_within(lc@[k].0, inputs.len() + 1, len));
                lemma_placed(lc@[k].0, inputs@, base as int, len);
            }
        }
        let b = base as int;
        lemma_own_follows(cs);
        assert forall|k: int| 0 <= k < r@.len() implies var_within(
            (#[trigger] r@[k]).0,
            cs.inputs.len() as int,
            cs.aux.len() as int,
        ) by {
            lemma_renamed(lc@[k].0, inputs@, b, len, cs, cs.own());
        }
        assert forall|x: Assignment| #[trigger] cs.follows(x) implies lc_eval(r@, x) == lc_eval(
            lc@,
            projection(inputs@, b, len, x),
        ) by {
            let y = projection(inputs@, b, len, x);
            let rv = r@;
            let lv = lc@;
            let f = |k: int| rv[k].1 * x.get(rv[k].0);
            let g = |k: int| lv[k].1 * y.get(lv[k].0);
            assert forall|k: int| 0 <= k < rv.len() implies #[trigger] f(k) == g(k) by {
                assert(rv[k] == (renamed(lv[k].0, inputs@, b), lv[k].1));
                lemma_renamed(lv[k].0, inputs@, b, len, cs, x);
            }
            lemma_sum_ext(f, g, rv.len() as int);
        }
    }
    r
}

/// What the system says of a projection does not change when the system grows.
proof fn lemma_holds_fragment<F: FieldElement>(a: CsView, b: CsView, inputs: Seq<AllocatedNum<F>>, base: int, len: int)
    requires
        holds_fragment(a, inputs, base, len),
        step(a, b),
    ensures
        holds_fragment(b, inputs, base, len),
{
    reveal(CsView::extended_by);
}

/// Adds the values of a fragment as new variables.
fn splice_values<F: FieldElement>(cs: &mut ConstraintSystem<F>, aux: &Vec<F>)
    requires
        old(cs)@.wf(),
    ensures
        final(cs)@.constraints == old(cs)@.constraints,
        step(old(cs)@, final(cs)@),
        final(cs)@.satisfied() == old(cs)@.satisfied(),
        final(cs)@.aux == old(cs)@.aux + vals(aux@),
        final(cs)@.aux.len() <= usize::MAX,
        final(cs).witness == old(cs).witness,
        final(cs)@.inputs == old(cs)@.inputs,
{
    let ghost before = cs@;
    let mut i: usize = 0;
    proof {
        lemma_extends_refl(before);
        lemma_step(before, before);
    }
    while i < aux.len()
        invariant
            cs@.constraints == before.constraints,
            i <= aux.len(),
            step(before, cs@),
            cs@.satisfied() == before.satisfied(),
            cs@.aux == before.aux + vals(aux@).take(i as int),
            cs.witness == old(cs).witness,
            cs@.inputs == before.inputs,
        decreases aux.len() - i,
    {
        let ghost mid = cs@;
        let n = AllocatedNum::allocate(cs, &aux[i]);
        proof {
            lemma_step_trans(before, mid, cs@);
            assert(cs@.aux =~= before.aux + vals(aux@).take(i + 1));
        }
        i = i + 1;
    }
    proof {
        assert(vals(aux@).take(aux.len() as int) =~= vals(aux@));
        reveal(CsView::wf);
    }
}

/// Puts a fragment into a system, its inputs being numbers of the system, and returns the results.
pub fn splice<F: FieldElement>(cs: &mut ConstraintSystem<F>, fragment: &Fragment<F>, inputs: &Vec<AllocatedNum<F>>) -> (r:
    Vec<AllocatedNum<F>>)
    requires
        old(cs)@.wf(),
        all_within(inputs@, old(cs)@),
        fragment@.fits(inputs.len() as int, F::modulus()),
        fragment@.accepts(
            fragment@.own(Seq::new(inputs@.len(), |i: int| inputs@[i].value.val())),
            inputs.len() as int,
            F::modulus(),
        ),
    ensures
        (final(cs)@.layout(), wires(r@)) == lay_splice(old(cs)@.layout(), fragment@.layout(), wires(inputs@)),
        step(old(cs)@, final(cs)@),
        final(cs)@.satisfied() == old(cs)@.satisfied(),
        r.len() == fragment.outputs.len(),
        all_within(r@, final(cs)@),
        final(cs).witness == old(cs).witness,
        final(cs)@.inputs == old(cs)@.inputs,
        forall|x: Assignment| #[trigger]
            final(cs)@.follows(x) ==> ({
                let y = projection(inputs@, old(cs)@.aux.len() as int, fragment.aux.len() as int, x);
                &&& fragment@.accepts(y, inputs.len() as int, F::modulus())
                &&& y.inputs.skip(1) == ats(inputs@, x)
                &&& fragment@.results(y) == ats(r@, x)
            }),
        fragment@.results(fragment@.own(Seq::new(inputs@.len(), |i: int| inputs@[i].value.val()))) == Seq::new(
            r@.len(),
            |i: int| r@[i].value.val(),
        ),
{
    let ghost before = cs@;
    let ghost p = F::modulus();
    let ghost frag = fragment@;
    let ghost n = inputs.len() as int;
    let ghost len = fragment.aux.len() as int;
    let ghost ins = Seq::new(inputs@.len(), |i: int| inputs@[i].value.val());
    let base = cs.num_aux();
    splice_values(cs, &fragment.aux);
    let ghost start = cs@;
    let ghost b = base as int;
    assert(holds_fragment(start, inputs@, b, len));
    let mut i: usize = 0;
    proof {
        assert(start.constraints =~= start.constraints + Seq::new(
            0,
            |k: int| placed_constraint(frag.constraints[k], wires(inputs@), b),
        ));
        lemma_extends_refl(start);
        lemma_step(start, start);
    }
    while i < fragment.constraints.len()
        invariant
            cs@.constraints == start.constraints + Seq::new(
                i as nat,
                |k: int| placed_constraint(frag.constraints[k], wires(inputs@), b),
            ),
            i <= fragment.constraints.len(),
            p == F::modulus(),
            frag == fragment@,
            n == inputs.len(),
            len == fragment.aux.len(),
            b == base,
            base + len <= usize::MAX,
            ins == Seq::new(inputs@.len(), |i: int| inputs@[i].value.val()),
            frag.fits(n, p),
            frag.accepts(frag.own(ins), n, p),
            start.wf(),
            step(start, cs@),
            cs@.satisfied() == start.satisfied(),
            cs@.aux == start.aux,
            cs@.inputs == start.inputs,
            start.aux.subrange(b, b + len) == frag.aux,
            cs.witness == old(cs).witness,
            holds_fragment(start, inputs@, b, len),
            forall|x: Assignment, k: int|
                #![trigger cs@.holds(x), frag.constraints[k]]
                cs@.holds(x) && 0 <= k < i ==> frag.constraints[k].sat(projection(inputs@, b, len, x), p),
        decreases fragment.constraints.len() - i,
    {
        let ghost mid = cs@;
        proof {
            lemma_holds_fragment(start, mid, inputs@, b, len);
        }
        let constraint = &fragment.constraints[i];
        let ghost want = frag.constraints[i as int];
        assert(want == constraint@);
        assert(want.within(n + 1, len));
        let a = rename_combination(&constraint.a, inputs, base, Ghost(len), Ghost(mid));
        let bb = rename_combination(&constraint.b, inputs, base, Ghost(len), Ghost(mid));
        let c = rename_combination(&constraint.c, inputs, base, Ghost(len), Ghost(mid));
        proof {
            lemma_own_follows(mid);
            let y = projection(inputs@, b, len, mid.own());
            assert(y.inputs =~= frag.own(ins).inputs) by {
                assert forall|k: int| 0 <= k < inputs@.len() implies inputs@[k].at(mid.own()) == ins[k] by {
                    assert(inputs@[k].within(mid));
                    lemma_own(inputs@[k], mid);
                }
            }
            assert(y.aux =~= frag.aux);
            assert(want.sat(frag.own(ins), p));
        }
        demand(cs, a, bb, c, Ghost(true));
        proof {
            assert(cs@.constraints =~= start.constraints + Seq::new(
                (i + 1) as nat,
                |k: int| placed_constraint(frag.constraints[k], wires(inputs@), b),
            ));
            lemma_step_trans(start, mid, cs@);
            assert forall|x: Assignment, k: int|
                #![trigger cs@.holds(x), frag.constraints[k]]
                cs@.holds(x) && 0 <= k < i + 1 implies frag.constraints[k].sat(projection(inputs@, b, len, x), p) by {
                assert(mid.holds(x));
                assert(mid.follows(x));
            }
        }
        i = i + 1;
    }
    let ghost after = cs@;
    proof {
        lemma_holds_fragment(start, after, inputs@, b, len);
        lemma_step_trans(before, start, after);
        assert forall|x: Assignment| #[trigger] after.follows(x) implies frag.accepts(
            projection(inputs@, b, len, x),
            n,
            p,
        ) && projection(inputs@, b, len, x).inputs.skip(1) == ats(inputs@, x) by {
            let y = projection(inputs@, b, len, x);
            assert(y.inputs.skip(1) =~= ats(inputs@, x));
            assert forall|k: int| 0 <= k < y.inputs.len() implies 0 <= #[trigger] y.inputs[k] < p by {
                if k > 0 {
                    assert(inputs@[k - 1].within(after));
                    lemma_at(inputs@[k - 1], after, x);
                    assert(y.inputs[k] == inputs@[k - 1].at(x));
                } else {
                    F::modulus_bounds();
                }
            }
            reveal(CsView::holds);
            reveal(CsView::agrees);
            if after.holds(x) {
                assert forall|k: int| 0 <= k < frag.constraints.len() implies (#[trigger] frag.constraints[k]).sat(
                    y,
                    p,
                ) by {}
            } else {
                assert(y.inputs =~= frag.own(ins).inputs) by {
                    assert forall|k: int| 0 <= k < inputs@.len() implies #[trigger] inputs@[k].at(x) == ins[k] by {
                        assert(inputs@[k].within(after));
                        lemma_at(inputs@[k], after, x);
                    }
                }
                assert(y.aux =~= frag.aux) by {
                    assert forall|k: int| 0 <= k < len implies #[trigger] y.aux[k] == frag.aux[k] by {
                        assert(after.aux[b + k] == x.aux[b + k]);
                        assert(start.aux.subrange(b, b + len)[k] == frag.aux[k]);
                    }
                }
            }
        }
    }
    let mut r: Vec<AllocatedNum<F>> = Vec::new();
    let mut j: usize = 0;
    while j < fragment.outputs.len()
        invariant
            j <= fragment.outputs.len(),
            r.len() == j,
            after == cs@,
            frag == fragment@,
            n == inputs.len(),
            len == fragment.aux.len(),
            b == base,
            p == F::modulus(),
            base + len <= usize::MAX,
            frag.fits(n, p),
            holds_fragment(after, inputs@, b, len),
            all_within(r@, after),
            forall|k: int| 0 <= k < j ==> (#[trigger] r@[k]).variable == renamed(frag.outputs[k], inputs@, b),
        decreases fragment.outputs.len() - j,
    {
        assert(frag.outputs[j as int] == fragment.outputs@[j as int]);
        assert(var_within(frag.outputs[j as int], n + 1, len));
        let v = rename(fragment.outputs[j], inputs, base, Ghost(len));
        proof {
            lemma_own_follows(after);
            lemma_renamed(frag.outputs[j as int], inputs@, b, len, after, after.own());
        }
        let value = cs.value_of(v);
        let num = AllocatedNum { variable: v, value };
        proof {
            reveal(CsView::assigns);
            assert(num.within(after));
        }
        r.push(num);
        j = j + 1;
    }
    proof {
        reveal(lay_splice);
        let laid = lay_splice(before.layout(), frag.layout(), wires(inputs@));
        assert(after.layout() =~= laid.0);
        assert(wires(r@) =~= laid.1) by {
            assert forall|k: int| 0 <= k < r@.len() implies #[trigger] wires(r@)[k] == laid.1[k] by {
                assert(r@[k].variable == renamed(frag.outputs[k], inputs@, b));
                assert(var_within(frag.outputs[k], n + 1, len));
                lemma_placed(frag.outputs[k], inputs@, b, len);
            }
        }
        assert forall|x: Assignment| #[trigger] after.follows(x) implies frag.results(
            projection(inputs@, b, len, x),
        ) == ats(r@, x) by {
            let y = projection(inputs@, b, len, x);
            assert forall|k: int| 0 <= k < r@.len() implies y.get(frag.outputs[k]) == (#[trigger] r@[k]).at(x) by {
                lemma_renamed(frag.outputs[k], inputs@, b, len, after, x);
            }
            assert(frag.results(y) =~= ats(r@, x));
        }
        let x = after.own();
        lemma_own_follows(after);
        let y = projection(inputs@, b, len, x);
        assert(y.inputs =~= frag.own(ins).inputs) by {
            assert forall|k: int| 0 <= k < inputs@.len() implies #[trigger] inputs@[k].at(x) == ins[k] by {
                assert(inputs@[k].within(after));
                lemma_own(inputs@[k], after);
            }
        }
        assert(y.aux =~= frag.aux) by {
            assert forall|k: int| 0 <= k < len implies #[trigger] y.aux[k] == frag.aux[k] by {
                assert(start.aux.subrange(b, b + len)[k] == frag.aux[k]);
            }
        }
        assert forall|k: int| 0 <= k < r@.len() implies ats(r@, x)[k] == (#[trigger] r@[k]).value.val() by {
            lemma_own(r@[k], after);
        }
        assert(frag.results(frag.own(ins)) =~= Seq::new(r@.len(), |i: int| r@[i].value.val()));
    }
    r
}

} // verus!
