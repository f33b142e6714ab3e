//! Predicates on a state of one element, each of which is a quadratic polynomial.
use crate::augmented::PredicateSet;
use crate::cs::{lemma_step_trans, Assignment, ConstraintSystem, Variable};
use crate::errors::SynthesisError;
use crate::field::FieldElement;
use crate::gadgets::{ats, lemma_at, wires, AllocatedNum};
use crate::math::{cong, lemma_canonical, lemma_cong_mod, lemma_residue_add, lemma_residue_mul};
use crate::layout::{lay_add, lay_add_const, lay_mul, lay_mul_const, Layout};
use crate::proof_circuit::{lemma_ats, lemma_own_agrees};
use vstd::prelude::*;

verus! {

/// A polynomial of degree two.
#[derive(Clone, Copy, Debug)]
pub struct Quadratic<F: FieldElement> {
    pub square: F,
    pub linear: F,
    pub constant: F,
}

impl<F: FieldElement> Quadratic<F> {
    /// The value of the polynomial.
    pub open spec fn value(&self, x: int) -> int {
        (self.square.val() * (x * x) + self.linear.val() * x + self.constant.val()) % F::modulus()
    }

    /// The value of the polynomial.
    pub fn eval(&self, x: &F) -> (r: F)
        ensures
            r.val() == self.value(x.val()),
    {
        let sq = x.mul(x);
        let a = self.square.mul(&sq);
        let b = self.linear.mul(x);
        let ab = a.add(&b);
        let r = ab.add(&self.constant);
        proof {
            r.val_bounds();
            self.lemma_value(x.val(), sq.val(), a.val(), b.val(), ab.val(), r.val());
        }
        r
    }

    /// The value of the polynomial, computed by residues.
    proof fn lemma_value(&self, x: int, sq: int, a: int, b: int, ab: int, r: int)
        requires
            sq == (x * x) % F::modulus(),
            a == (self.square.val() * sq) % F::modulus(),
            b == (self.linear.val() * x) % F::modulus(),
            ab == (a + b) % F::modulus(),
            r == (ab + self.constant.val()) % F::modulus(),
            0 <= r < F::modulus(),
        ensures
            r == self.value(x),
    {
        let p = F::modulus();
        F::modulus_bounds();
        let (k2, k1, k0) = (self.square.val(), self.linear.val(), self.constant.val());
        lemma_cong_mod(x * x, p);
        lemma_residue_mul(k2, k2, sq, x * x, p);
        lemma_cong_mod(k1 * x, p);
        lemma_residue_add(a, k2 * (x * x), b, k1 * x, p);
        lemma_residue_add(ab, k2 * (x * x) + k1 * x, k0, k0, p);
        lemma_canonical(r, k2 * (x * x) + k1 * x + k0, p);
    }
}

/// Predicates, each of which is a quadratic polynomial. Any further predicate leaves the state as it is.
pub struct QuadraticPredicates<F: FieldElement> {
    pub polynomials: Vec<Quadratic<F>>,
}

impl<F: FieldElement> PredicateSet<F> for QuadraticPredicates<F> {
    open spec fn width(&self) -> nat {
        1
    }

    open spec fn count(&self) -> nat {
        self.polynomials@.len()
    }

    open spec fn publishes(&self, id: int) -> nat {
        0
    }

    open spec fn allows(&self, id: int, z: Seq<int>, out: Seq<int>) -> bool {
        if 0 <= id < self.polynomials@.len() {
            out == seq![self.polynomials@[id].value(z[0])]
        } else {
            out == z
        }
    }

    open spec fn solves(&self, id: int, z: Seq<int>) -> bool {
        true
    }

    open spec fn yields(&self, id: int, z: Seq<int>, out: Seq<int>) -> bool {
        self.allows(id, z, out)
    }

    open spec fn fails(&self, id: int, z: Seq<int>, e: SynthesisError) -> bool {
        false
    }

    open spec fn lays(&self, id: int, l: Layout, z: Seq<Variable>) -> (Layout, Seq<Variable>) {
        if 0 <= id < self.polynomials@.len() {
            let k = self.polynomials@[id];
            let (l1, sq) = lay_mul(l, z[0], z[0]);
            let (l2, a) = lay_mul_const(l1, sq, k.square.val());
            let (l3, b) = lay_mul_const(l2, z[0], k.linear.val());
            let (l4, ab) = lay_add(l3, a, b);
            let (l5, y) = lay_add_const(l4, ab, k.constant.val());
            (l5, seq![y])
        } else {
            (l, z)
        }
    }

    open spec fn total(&self) -> bool {
        true
    }

    fn arity(&self) -> (r: usize) {
        1
    }

    fn num_predicates(&self) -> (r: usize) {
        self.polynomials.len()
    }

    fn synthesize(&self, predicate_id: usize, cs: &mut ConstraintSystem<F>, z: &Vec<AllocatedNum<F>>) -> (r: Result<
        Vec<AllocatedNum<F>>,
        SynthesisError,
    >) {
        let ghost before = cs@;
        if predicate_id >= self.polynomials.len() {
            proof {
                crate::evaluation::lemma_step_refl(cs@);
            }
            return Ok(crate::instance_circuit::copy_nums(z));
        }
        let poly = self.polynomials[predicate_id];
        assert(z@[0].within(before));
        let x = z[0];
        let sq = x.square(cs);
        let ghost s1 = cs@;
        let a = sq.mul_const(cs, &poly.square);
        let ghost s2 = cs@;
        proof {
            lemma_step_trans(before, s1, s2);
        }
        let b = x.mul_const(cs, &poly.linear);
        let ghost s3 = cs@;
        let ab = a.add(cs, &b);
        let ghost s4 = cs@;
        let y = ab.add_const(cs, &poly.constant);
        let mut out: Vec<AllocatedNum<F>> = Vec::new();
        out.push(y);
        proof {
            let after = cs@;
            lemma_step_trans(before, s2, s3);
            lemma_step_trans(before, s3, s4);
            lemma_step_trans(before, s4, after);
            assert forall|v: Assignment| #[trigger] after.follows(v) implies self.allows(
                predicate_id as int,
                ats(z@, v),
                ats(out@, v),
            ) by {
                assert(s4.follows(v) && s3.follows(v) && s2.follows(v) && s1.follows(v));
                lemma_at(y, after, v);
                let (k2, k1) = (poly.square.val(), poly.linear.val());
                assert(sq.at(v) * k2 == k2 * sq.at(v)) by (nonlinear_arith);
                assert(x.at(v) * k1 == k1 * x.at(v)) by (nonlinear_arith);
                poly.lemma_value(x.at(v), sq.at(v), a.at(v), b.at(v), ab.at(v), y.at(v));
                assert(ats(out@, v) =~= seq![poly.value(x.at(v))]);
            }
            assert forall|v: Assignment| #[trigger] after.holds(v) implies self.allows(
                predicate_id as int,
                ats(z@, v),
                ats(out@, v),
            ) by {
                assert(after.follows(v));
            }
            let own = after.own();
            lemma_own_agrees(after);
            lemma_ats(z@, after, own);
            lemma_ats(out@, after, own);
            assert(wires(out@) =~= seq![y.variable]);
        }
        Ok(out)
    }
}

/// A predicate takes a state of one element to the residue that its polynomial has there, and to nothing else; any further
/// predicate leaves the state as it is.
pub proof fn quadratic_step_is_its_polynomial<F: FieldElement>(c: QuadraticPredicates<F>, id: int, z: Seq<int>, out: Seq<int>)
    ensures
        0 <= id < c.polynomials@.len() ==> ({
            let (k, x) = (c.polynomials@[id], z[0]);
            let e = k.square.val() * (x * x) + k.linear.val() * x + k.constant.val();
            let next = out.len() == 1 && 0 <= out[0] < F::modulus() && cong(out[0], e, F::modulus());
            &&& c.allows(id, z, out) <==> next
            &&& c.yields(id, z, out) <==> next
        }),
        id >= c.polynomials@.len() ==> (c.allows(id, z, out) <==> out == z) && (c.yields(id, z, out) <==> out == z),
{
    if 0 <= id < c.polynomials@.len() {
        let p = F::modulus();
        F::modulus_bounds();
        let (k, x) = (c.polynomials@[id], z[0]);
        let e = k.square.val() * (x * x) + k.linear.val() * x + k.constant.val();
        vstd::arithmetic::div_mod::lemma_mod_bound(e, p);
        lemma_cong_mod(e, p);
        if out.len() == 1 && 0 <= out[0] < p && cong(out[0], e, p) {
            lemma_canonical(out[0], e, p);
            assert(out =~= seq![k.value(x)]);
        }
    }
}

} // verus!
