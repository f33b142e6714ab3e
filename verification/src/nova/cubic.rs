//! The predicate that takes a state of one element to its cube plus itself plus five.
use crate::augmented::PredicateSet;
use crate::cs::{lc_eval, lemma_follows, lemma_one, lemma_step_trans, Assignment, ConstraintSystem, CsView, Variable};
use crate::errors::SynthesisError;
use crate::field::FieldElement;
use crate::gadgets::{ats, constrain, lc_plus, lc_plus_scaled, lc_var, lemma_at, lemma_own, wires, AllocatedNum};
use crate::math::{cong, lemma_canonical, lemma_cong_add, lemma_cong_mod, lemma_cong_mul};
use crate::layout::{lay_mul, lay_product, lone, the_one, Layout};
use crate::proof_circuit::{lemma_ats, lemma_own_agrees};
use vstd::prelude::*;

verus! {

/// The cube of a number plus the number plus five, modulo an order.
pub open spec fn cubic_value(x: int, p: int) -> int {
    (x * x * x + x + 5) % p
}

/// The predicate that takes a state of one element to its cube plus itself plus five.
#[derive(Clone, Copy, Debug)]
pub struct CubicCircuit {}

/// The cube of a residue by reduced products, plus the residue plus five.
proof fn lemma_cubic(x: int, sq: int, cu: int, p: int)
    requires
        p > 5,
        sq == (x * x) % p,
        cu == (sq * x) % p,
    ensures
        cong(cu + x + 5, x * x * x + x + 5, p),
{
    lemma_cong_mod(x * x, p);
    lemma_cong_mul(sq, x * x, x, x, p);
    lemma_cong_mod(sq * x, p);
    lemma_cong_add(cu, x * x * x, x + 5, x + 5, p);
}

impl CubicCircuit {
    /// The next state.
    pub fn output<F: FieldElement>(&self, z: &Vec<F>) -> (r: Vec<F>)
        requires
            z.len() > 0,
        ensures
            crate::engine::vals(r@) == seq![cubic_value(z@[0].val(), F::modulus())],
    {
        let x = z[0];
        let sq = x.mul(&x);
        let cu = sq.mul(&x);
        let sum = cu.add(&x);
        let y = sum.add(&F::from_u64(5));
        let mut r: Vec<F> = Vec::new();
        r.push(y);
        proof {
            let p = F::modulus();
            F::modulus_bounds();
            lemma_cubic(x.val(), sq.val(), cu.val(), p);
            lemma_cong_mod(cu.val() + x.val(), p);
            lemma_cong_add(sum.val(), cu.val() + x.val(), 5, 5, p);
            lemma_cong_mod(sum.val() + 5, p);
            y.val_bounds();
            lemma_canonical(y.val(), x.val() * x.val() * x.val() + x.val() + 5, p);
            assert(crate::engine::vals(r@) =~= seq![cubic_value(x.val(), p)]);
        }
        r
    }
}

impl<F: FieldElement> PredicateSet<F> for CubicCircuit {
    open spec fn width(&self) -> nat {
        1
    }

    open spec fn count(&self) -> nat {
        1
    }

    open spec fn publishes(&self, id: int) -> nat {
        0
    }

    open spec fn allows(&self, id: int, z: Seq<int>, out: Seq<int>) -> bool {
        out == seq![cubic_value(z[0], F::modulus())]
    }

    open spec fn solves(&self, id: int, z: Seq<int>) -> bool {
        true
    }

    open spec fn yields(&self, id: int, z: Seq<int>, out: Seq<int>) -> bool {
        out == seq![cubic_value(z[0], F::modulus())]
    }

    open spec fn fails(&self, id: int, z: Seq<int>, e: SynthesisError) -> bool {
        false
    }

    open spec fn lays(&self, id: int, l: Layout, z: Seq<Variable>) -> (Layout, Seq<Variable>) {
        let (l1, sq) = lay_mul(l, z[0], z[0]);
        let (l2, cu) = lay_mul(l1, sq, z[0]);
        let (l3, y) = lay_product(l2, lone(cu).push((z[0], 1)).push((the_one(), 5)), lone(the_one()));
        (l3, seq![y])
    }

    open spec fn total(&self) -> bool {
        true
    }

    fn arity(&self) -> (r: usize) {
        1
    }

    fn num_predicates(&self) -> (r: usize) {
        1
    }

    fn synthesize(&self, predicate_id: usize, cs: &mut ConstraintSystem<F>, z: &Vec<AllocatedNum<F>>) -> (r: Result<
        Vec<AllocatedNum<F>>,
        SynthesisError,
    >) {
        let ghost before = cs@;
        let ghost p = F::modulus();
        assert(z@[0].within(before));
        let x = z[0];
        let sq = x.square(cs);
        let ghost s1 = cs@;
        let cu = sq.mul(cs, &x);
        let ghost s2 = cs@;
        let five = F::from_u64(5);
        let value = cu.value.add(&x.value).add(&five);
        let part = lc_plus(lc_var(cu.variable), x.variable);
        let total = lc_plus_scaled(part, &five, Variable::Input(0));
        let one = lc_var(Variable::Input(0));
        proof {
            F::modulus_bounds();
            lemma_step_trans(before, s1, s2);
            lemma_one(s2);
            reveal(CsView::assigns);
            lemma_own(cu, s2);
            lemma_own(x, s2);
            let own = s2.own();
            let (c, t) = (cu.value.val(), x.value.val());
            lemma_cong_mod(c + t, p);
            lemma_cong_add((c + t) % p, c + t, 5, 5, p);
            lemma_cong_mod((c + t) % p + 5, p);
            assert(lc_eval(total@, own) == c + t + 5);
            assert(lc_eval(one@, own) == 1);
            assert(lc_eval(total@, own) * lc_eval(one@, own) == c + t + 5) by (nonlinear_arith)
                requires
                    lc_eval(total@, own) == c + t + 5,
                    lc_eval(one@, own) == 1,
            ;
        }
        let y = constrain(cs, total, one, value);
        let mut out: Vec<AllocatedNum<F>> = Vec::new();
        out.push(y);
        proof {
            let after = cs@;
            lemma_step_trans(before, s2, after);
            lemma_step_trans(s1, s2, after);
            lemma_one(after);
            assert forall|v: Assignment| #[trigger] after.follows(v) implies ats(out@, v) == seq![
                cubic_value(ats(z@, v)[0], p),
            ] by {
                assert(s2.follows(v) && s1.follows(v));
                lemma_follows(after, v, Variable::Input(0), 1);
                lemma_at(y, after, v);
                lemma_cubic(x.at(v), sq.at(v), cu.at(v), p);
                let t = cu.at(v) + x.at(v) + 5;
                assert(lc_eval(total@, v) == t && lc_eval(one@, v) == 1);
                assert(lc_eval(total@, v) * lc_eval(one@, v) == t) by (nonlinear_arith)
                    requires
                        lc_eval(total@, v) == t,
                        lc_eval(one@, v) == 1,
                ;
                assert(ats(out@, v) =~= seq![cubic_value(x.at(v), p)]);
            }
            assert forall|v: Assignment| #[trigger] after.holds(v) implies ats(out@, v) == seq![
                cubic_value(ats(z@, v)[0], p),
            ] by {
                assert(after.follows(v));
            }
            let own = after.own();
            lemma_own_agrees(after);
            lemma_ats(z@, after, own);
            lemma_ats(out@, after, own);
            assert(wires(out@) =~= seq![y.variable]);
        }
        Ok(out)
    }
}

/// The predicate takes a state of one element to the residue of its cube plus itself plus five, and to nothing else.
pub proof fn cubic_step_is_its_polynomial<F: FieldElement>(c: CubicCircuit, id: int, z: Seq<int>, out: Seq<int>)
    ensures
        ({
            let x = z[0];
            let next = out.len() == 1 && 0 <= out[0] < F::modulus() && cong(out[0], x * x * x + x + 5, F::modulus());
            &&& <CubicCircuit as PredicateSet<F>>::allows(&c, id, z, out) <==> next
            &&& <CubicCircuit as PredicateSet<F>>::yields(&c, id, z, out) <==> next
        }),
{
    let p = F::modulus();
    F::modulus_bounds();
    let x = z[0];
    let e = x * x * x + x + 5;
    vstd::arithmetic::div_mod::lemma_mod_bound(e, p);
    lemma_cong_mod(e, p);
    if out.len() == 1 && 0 <= out[0] < p && cong(out[0], e, p) {
        lemma_canonical(out[0], e, p);
        assert(out =~= seq![cubic_value(x, p)]);
    }
}

} // verus!
