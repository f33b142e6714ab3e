//! Evaluations of matrices, vectors and polynomials in a constraint system.
use crate::cs::{lemma_extends_refl, lemma_step, lemma_step_trans, step, Assignment, ConstraintSystem, CsView};
use crate::engine::{vals, CurveEngine};
use crate::field::FieldElement;
use crate::gadgets::{all_within, alloc_one, alloc_zero, ats, lemma_at, wires, AllocatedNum};
use crate::math::{cong, lemma_canonical, lemma_cong_mod, lemma_cong_mul, lemma_residue_add, lemma_residue_mul, sum};
use crate::matrix::{values, weighted, weighted_entry, weights};
use crate::mle::{eq_points, eq_weight};
use crate::nifs::compute_distances;
use crate::r1cs::{entries, Entries};
use crate::relation::{bits_le, bits_weight, lemma_bits_weight, vector_eval, GlobalStructure, StructureView};
use crate::sumcheck::{distances, interpolation, interpolation_term, lemma_inverse_is, separated};
use std::collections::BTreeMap;
use crate::layout::{lay_distances, lay_eq_points, lay_interpolate, lay_powers};
use vstd::arithmetic::power::pow;
use vstd::prelude::*;

verus! {

pub(crate) proof fn lemma_step_refl(a: CsView)
    requires
        a.wf(),
    ensures
        step(a, a),
{
    lemma_extends_refl(a);
    lemma_step(a, a);
}

/// The weight that bits have at a point.
pub fn eq_eval_bits<F: FieldElement>(cs: &mut ConstraintSystem<F>, bits: &Vec<bool>, point: &Vec<AllocatedNum<F>>) -> (r:
    AllocatedNum<F>)
    requires
        old(cs)@.wf(),
        bits.len() == point.len(),
        all_within(point@, old(cs)@),
    ensures
        step(old(cs)@, final(cs)@),
        final(cs)@.satisfied() == old(cs)@.satisfied(),
        r.within(final(cs)@),
        final(cs).witness == old(cs).witness,
        final(cs)@.inputs == old(cs)@.inputs,
        forall|x: Assignment| #[trigger]
            final(cs)@.follows(x) ==> r.at(x) == bits_weight(bits@, ats(point@, x), bits.len() as int) % F::modulus(),
{
    let ghost before = cs@;
    let ghost p = F::modulus();
    let mut acc = alloc_one(cs);
    let mut i: usize = 0;
    proof {
        F::modulus_bounds();
    }
    while i < bits.len()
        invariant
            i <= bits.len(),
            bits.len() == point.len(),
            p == F::modulus(),
            p > 6,
            step(before, cs@),
            cs@.satisfied() == before.satisfied(),
            cs.witness == old(cs).witness,
            cs@.inputs == before.inputs,
            all_within(point@, before),
            acc.within(cs@),
            forall|x: Assignment| #[trigger]
                cs@.follows(x) ==> cong(acc.at(x), bits_weight(bits@, ats(point@, x), i as int), p),
        decreases bits.len() - i,
    {
        let ghost s0 = cs@;
        let ghost acc0 = acc;
        assert(point@[i as int].within(before));
        let term = if bits[i] {
            point[i]
        } else {
            point[i].one_minus(cs)
        };
        let ghost s1 = cs@;
        proof {
            if bits[i as int] {
                lemma_step_refl(s0);
            }
        }
        acc = acc.mul(cs, &term);
        proof {
            lemma_step_trans(before, s0, s1);
            lemma_step_trans(before, s1, cs@);
            assert forall|x: Assignment| #[trigger] cs@.follows(x) implies cong(
                acc.at(x),
                bits_weight(bits@, ats(point@, x), i + 1),
                p,
            ) by {
                assert(s1.follows(x));
                assert(s0.follows(x));
                let pt = ats(point@, x);
                let t = if bits[i as int] {
                    pt[i as int]
                } else {
                    1 - pt[i as int]
                };
                lemma_cong_mod(t, p);
                lemma_residue_mul(acc0.at(x), bits_weight(bits@, pt, i as int), term.at(x), t, p);
            }
        }
        i = i + 1;
    }
    proof {
        assert forall|x: Assignment| #[trigger] cs@.follows(x) implies acc.at(x) == bits_weight(
            bits@,
            ats(point@, x),
            bits.len() as int,
        ) % p by {
            lemma_at(acc, cs@, x);
            lemma_canonical(acc.at(x), bits_weight(bits@, ats(point@, x), bits.len() as int), p);
        }
    }
    acc
}

/// The weight of an index at a point.
fn eq_at<F: FieldElement>(cs: &mut ConstraintSystem<F>, idx: usize, point: &Vec<AllocatedNum<F>>) -> (r: AllocatedNum<F>)
    requires
        old(cs)@.wf(),
        all_within(point@, old(cs)@),
    ensures
        step(old(cs)@, final(cs)@),
        final(cs)@.satisfied() == old(cs)@.satisfied(),
        r.within(final(cs)@),
        final(cs).witness == old(cs).witness,
        final(cs)@.inputs == old(cs)@.inputs,
        forall|x: Assignment| #[trigger]
            final(cs)@.follows(x) ==> r.at(x) == eq_weight(idx as int, ats(point@, x)) % F::modulus(),
{
    let bits = bits_le(idx, point.len());
    let r = eq_eval_bits(cs, &bits, point);
    proof {
        assert forall|x: Assignment| #[trigger] cs@.follows(x) implies r.at(x) == eq_weight(
            idx as int,
            ats(point@, x),
        ) % F::modulus() by {
            lemma_bits_weight(bits@, idx as int, ats(point@, x), point.len() as int);
        }
    }
    r
}

/// The product that is one where two points of the hypercube agree.
pub fn eq_points_gadget<F: FieldElement>(
    cs: &mut ConstraintSystem<F>,
    left: &Vec<AllocatedNum<F>>,
    right: &Vec<AllocatedNum<F>>,
) -> (r: AllocatedNum<F>)
    requires
        old(cs)@.wf(),
        left.len() == right.len(),
        all_within(left@, old(cs)@),
        all_within(right@, old(cs)@),
    ensures
        (final(cs)@.layout(), r.variable) == lay_eq_points(old(cs)@.layout(), wires(left@), wires(right@), F::modulus(), left.len() as int),
        step(old(cs)@, final(cs)@),
        final(cs)@.satisfied() == old(cs)@.satisfied(),
        r.within(final(cs)@),
        final(cs).witness == old(cs).witness,
        final(cs)@.inputs == old(cs)@.inputs,
        forall|x: Assignment| #[trigger]
            final(cs)@.follows(x) ==> r.at(x) == eq_points(ats(left@, x), ats(right@, x), left.len() as int)
                % F::modulus(),
{
    let ghost before = cs@;
    let ghost p = F::modulus();
    let mut acc = alloc_one(cs);
    let mut i: usize = 0;
    proof {
        F::modulus_bounds();
    }
    while i < left.len()
        invariant
            (cs@.layout(), acc.variable) == lay_eq_points(before.layout(), wires(left@), wires(right@), p, i as int),
            i <= left.len(),
            left.len() == right.len(),
            p == F::modulus(),
            p > 6,
            step(before, cs@),
            cs@.satisfied() == before.satisfied(),
            cs.witness == old(cs).witness,
            cs@.inputs == before.inputs,
            all_within(left@, before),
            all_within(right@, before),
            acc.within(cs@),
            forall|x: Assignment| #[trigger]
                cs@.follows(x) ==> cong(acc.at(x), eq_points(ats(left@, x), ats(right@, x), i as int), p),
        decreases left.len() - i,
    {
        let ghost s0 = cs@;
        let ghost acc0 = acc;
        let a = left[i];
        let b = right[i];
        assert(left@[i as int].within(before));
        assert(right@[i as int].within(before));
        let ab = a.mul(cs, &b);
        let ghost s1 = cs@;
        let one_minus_a = a.one_minus(cs);
        let ghost s2 = cs@;
        let one_minus_b = b.one_minus(cs);
        let ghost s3 = cs@;
        let not_ab = one_minus_a.mul(cs, &one_minus_b);
        let ghost s4 = cs@;
        let term = ab.add(cs, &not_ab);
        let ghost s5 = cs@;
        acc = acc.mul(cs, &term);
        proof {
            lemma_step_trans(before, s0, s1);
            lemma_step_trans(before, s1, s2);
            lemma_step_trans(before, s2, s3);
            lemma_step_trans(before, s3, s4);
            lemma_step_trans(before, s4, s5);
            lemma_step_trans(before, s5, cs@);
            assert forall|x: Assignment| #[trigger] cs@.follows(x) implies cong(
                acc.at(x),
                eq_points(ats(left@, x), ats(right@, x), i + 1),
                p,
            ) by {
                assert(s5.follows(x) && s4.follows(x) && s3.follows(x));
                assert(s2.follows(x) && s1.follows(x) && s0.follows(x));
                let (l, r) = (ats(left@, x), ats(right@, x));
                let (u, v) = (l[i as int], r[i as int]);
                lemma_cong_mod(u * v, p);
                lemma_cong_mod(1 - u, p);
                lemma_cong_mod(1 - v, p);
                lemma_residue_mul(one_minus_a.at(x), 1 - u, one_minus_b.at(x), 1 - v, p);
                lemma_residue_add(ab.at(x), u * v, not_ab.at(x), (1 - u) * (1 - v), p);
                lemma_residue_mul(
                    acc0.at(x),
                    eq_points(l, r, i as int),
                    term.at(x),
                    u * v + (1 - u) * (1 - v),
                    p,
                );
            }
        }
        i = i + 1;
    }
    proof {
        assert forall|x: Assignment| #[trigger] cs@.follows(x) implies acc.at(x) == eq_points(
            ats(left@, x),
            ats(right@, x),
            left.len() as int,
        ) % p by {
            lemma_at(acc, cs@, x);
            lemma_canonical(acc.at(x), eq_points(ats(left@, x), ats(right@, x), left.len() as int), p);
        }
    }
    acc
}

/// The first powers of a number.
pub fn powers_gadget<F: FieldElement>(cs: &mut ConstraintSystem<F>, base: &AllocatedNum<F>, count: usize) -> (r: Vec<
    AllocatedNum<F>,
>)
    requires
        old(cs)@.wf(),
        base.within(old(cs)@),
        count >= 1,
    ensures
        (final(cs)@.layout(), wires(r@)) == lay_powers(old(cs)@.layout(), base.variable, count as int),
        step(old(cs)@, final(cs)@),
        final(cs)@.satisfied() == old(cs)@.satisfied(),
        r.len() == count,
        all_within(r@, final(cs)@),
        final(cs).witness == old(cs).witness,
        final(cs)@.inputs == old(cs)@.inputs,
        forall|x: Assignment, k: int|
            #![trigger final(cs)@.follows(x), r@[k]]
            final(cs)@.follows(x) && 0 <= k < count ==> r@[k].at(x) == pow(base.at(x), k as nat) % F::modulus(),
{
    let ghost before = cs@;
    let ghost p = F::modulus();
    let mut r: Vec<AllocatedNum<F>> = Vec::new();
    let mut cur = alloc_one(cs);
    r.push(cur);
    let mut i: usize = 1;
    proof {
        assert(wires(r@) =~= seq![cur.variable]);
        F::modulus_bounds();
        reveal(pow);
        vstd::arithmetic::div_mod::lemma_small_mod(1, p as nat);
    }
    while i < count
        invariant
            (cs@.layout(), wires(r@)) == lay_powers(before.layout(), base.variable, i as int),
            1 <= i <= count,
            r.len() == i,
            p == F::modulus(),
            p > 6,
            step(before, cs@),
            cs@.satisfied() == before.satisfied(),
            cs.witness == old(cs).witness,
            cs@.inputs == before.inputs,
            base.within(before),
            all_within(r@, cs@),
            cur == r@[i - 1],
            forall|x: Assignment, k: int|
                #![trigger cs@.follows(x), r@[k]]
                cs@.follows(x) && 0 <= k < i ==> r@[k].at(x) == pow(base.at(x), k as nat) % p,
        decreases count - i,
    {
        let ghost s0 = cs@;
        let ghost r0 = r@;
        let ghost cur0 = cur;
        assert(r0[i - 1].within(s0));
        cur = cur.mul(cs, base);
        r.push(cur);
        proof {
            assert(wires(r@) =~= wires(r0).push(cur.variable));
            assert(wires(r0).last() == cur0.variable);
            lemma_step_trans(before, s0, cs@);
            assert forall|k: int| 0 <= k < r@.len() implies (#[trigger] r@[k]).within(cs@) by {
                if k < i {
                    assert(r0[k].within(s0));
                }
            }
            assert forall|x: Assignment, k: int|
                #![trigger cs@.follows(x), r@[k]]
                cs@.follows(x) && 0 <= k < i + 1 implies r@[k].at(x) == pow(base.at(x), k as nat) % p by {
                assert(s0.follows(x));
                assert(r0[i - 1].at(x) == pow(base.at(x), (i - 1) as nat) % p);
                if k < i {
                    assert(r@[k] == r0[k]);
                } else {
                    let b = base.at(x);
                    reveal(pow);
                    lemma_cong_mod(pow(b, (i - 1) as nat), p);
                    lemma_residue_mul(cur0.at(x), pow(b, (i - 1) as nat), b, b, p);
                    let m = pow(b, (i - 1) as nat);
                    assert(m * b == b * m) by (nonlinear_arith);
                    lemma_at(cur, cs@, x);
                    lemma_canonical(cur.at(x), pow(b, i as nat), p);
                }
            }
        }
        i = i + 1;
    }
    r
}

/// The weights of indices that are in a system already.
pub open spec fn cache_within<F: FieldElement>(
    cache: Map<usize, AllocatedNum<F>>,
    point: Seq<AllocatedNum<F>>,
    cs: CsView,
) -> bool {
    &&& forall|k: usize| #[trigger] cache.contains_key(k) ==> cache[k].within(cs)
    &&& forall|k: usize, x: Assignment|
        #![trigger cache.contains_key(k), cs.follows(x)]
        cache.contains_key(k) && cs.follows(x) ==> cache[k].at(x) == eq_weight(k as int, ats(point, x)) % F::modulus()
}

/// The weight of an index at a point, from the cache if it is there.
fn cached_weight<F: FieldElement>(
    cs: &mut ConstraintSystem<F>,
    cache: &mut BTreeMap<usize, AllocatedNum<F>>,
    idx: usize,
    point: &Vec<AllocatedNum<F>>,
) -> (r: AllocatedNum<F>)
    requires
        old(cs)@.wf(),
        all_within(point@, old(cs)@),
        cache_within(old(cache)@, point@, old(cs)@),
    ensures
        step(old(cs)@, final(cs)@),
        final(cs)@.satisfied() == old(cs)@.satisfied(),
        r.within(final(cs)@),
        final(cs).witness == old(cs).witness,
        final(cs)@.inputs == old(cs)@.inputs,
        cache_within(final(cache)@, point@, final(cs)@),
        forall|x: Assignment| #[trigger]
            final(cs)@.follows(x) ==> r.at(x) == eq_weight(idx as int, ats(point@, x)) % F::modulus(),
{
    let ghost before = cs@;
    match cache.get(&idx) {
        Some(found) => {
            let r = *found;
            proof {
                lemma_step_refl(before);
                assert(cache@.contains_key(idx));
            }
            return r;
        },
        None => {},
    }
    let ghost cache0 = cache@;
    let r = eq_at(cs, idx, point);
    cache.insert(idx, r);
    proof {
        assert(cache@ == cache0.insert(idx, r));
        assert forall|k: usize| #[trigger] cache@.contains_key(k) implies cache@[k].within(cs@) by {
            if k != idx {
                assert(cache0.contains_key(k));
            }
        }
        assert forall|k: usize, x: Assignment|
            #![trigger cache@.contains_key(k), cs@.follows(x)]
            cache@.contains_key(k) && cs@.follows(x) implies cache@[k].at(x) == eq_weight(k as int, ats(point@, x))
            % F::modulus() by {
            if k != idx {
                assert(cache0.contains_key(k));
                assert(before.follows(x));
            }
        }
    }
    r
}

/// A cache stays valid.
proof fn lemma_cache<F: FieldElement>(
    cache: Map<usize, AllocatedNum<F>>,
    point: Seq<AllocatedNum<F>>,
    a: CsView,
    b: CsView,
)
    requires
        step(a, b),
        cache_within(cache, point, a),
    ensures
        cache_within(cache, point, b),
{
    assert forall|k: usize, x: Assignment|
        #![trigger cache.contains_key(k), b.follows(x)]
        cache.contains_key(k) && b.follows(x) implies cache[k].at(x) == eq_weight(k as int, ats(point, x))
        % F::modulus() by {
        assert(a.follows(x));
    }
}

/// The first `i` terms of a weighted sum of entries.
spec fn partial(m: Entries, u: spec_fn(int) -> int, w: spec_fn(int) -> int, i: int) -> int {
    sum(|k: int| weighted_entry(m[k], u, w), i)
}

/// A matrix of a predicate, extended to a point.
pub fn eval_matrix_predicate<E: CurveEngine>(
    cs: &mut ConstraintSystem<E::Base>,
    structure: &GlobalStructure<E>,
    predicate_id: usize,
    which: usize,
    r_x: &Vec<AllocatedNum<E::Base>>,
    r_y: &Vec<AllocatedNum<E::Base>>,
) -> (r: AllocatedNum<E::Base>)
    requires
        old(cs)@.wf(),
        structure.wf(),
        predicate_id < structure@.len(),
        which < 3,
        all_within(r_x@, old(cs)@),
        all_within(r_y@, old(cs)@),
    ensures
        step(old(cs)@, final(cs)@),
        final(cs)@.satisfied() == old(cs)@.satisfied(),
        r.within(final(cs)@),
        final(cs).witness == old(cs).witness,
        final(cs)@.inputs == old(cs)@.inputs,
        forall|x: Assignment| #[trigger]
            final(cs)@.follows(x) ==> r.at(x) == structure@.eval_predicate(
                predicate_id as int,
                which as int,
                ats(r_x@, x),
                ats(r_y@, x),
            ) % E::Base::modulus(),
{
    let ghost before = cs@;
    let ghost p = E::Base::modulus();
    let mat = &structure.predicates[predicate_id].mats[which];
    let ghost m = entries(mat@);
    assert(m == structure@.mats[predicate_id as int][which as int]);
    let mut row_cache: BTreeMap<usize, AllocatedNum<E::Base>> = BTreeMap::new();
    let mut col_cache: BTreeMap<usize, AllocatedNum<E::Base>> = BTreeMap::new();
    let mut acc = alloc_zero(cs);
    let mut i: usize = 0;
    proof {
        E::Base::modulus_bounds();
    }
    while i < mat.len()
        invariant
            i <= mat.len(),
            m == entries(mat@),
            p == E::Base::modulus(),
            p > 6,
            step(before, cs@),
            cs@.satisfied() == before.satisfied(),
            cs.witness == old(cs).witness,
            cs@.inputs == before.inputs,
            all_within(r_x@, before),
            all_within(r_y@, before),
            cache_within(row_cache@, r_x@, cs@),
            cache_within(col_cache@, r_y@, cs@),
            acc.within(cs@),
            forall|x: Assignment| #[trigger]
                cs@.follows(x) ==> cong(
                    acc.at(x),
                    partial(m, weights(ats(r_x@, x)), weights(ats(r_y@, x)), i as int),
                    p,
                ),
        decreases mat.len() - i,
    {
        let (row, col, val) = mat[i];
        let ghost s0 = cs@;
        let ghost acc0 = acc;
        assert(all_within(r_x@, s0));
        let row_eval = cached_weight(cs, &mut row_cache, row, r_x);
        let ghost s1 = cs@;
        proof {
            lemma_step_trans(before, s0, s1);
            lemma_cache(col_cache@, r_y@, s0, s1);
            assert(all_within(r_y@, s1));
        }
        let col_eval = cached_weight(cs, &mut col_cache, col, r_y);
        let ghost s2 = cs@;
        let eq = row_eval.mul(cs, &col_eval);
        let ghost s3 = cs@;
        let term = eq.mul_const(cs, &val);
        let ghost s4 = cs@;
        acc = acc.add(cs, &term);
        proof {
            lemma_step_trans(before, s1, s2);
            lemma_step_trans(before, s2, s3);
            lemma_step_trans(before, s3, s4);
            lemma_step_trans(before, s4, cs@);
            lemma_step_trans(s2, s3, s4);
            lemma_step_trans(s2, s4, cs@);
            lemma_step_trans(s1, s2, cs@);
            lemma_cache(row_cache@, r_x@, s1, cs@);
            lemma_cache(col_cache@, r_y@, s2, cs@);
            assert forall|x: Assignment| #[trigger] cs@.follows(x) implies cong(
                acc.at(x),
                partial(m, weights(ats(r_x@, x)), weights(ats(r_y@, x)), i + 1),
                p,
            ) by {
                assert(s4.follows(x) && s3.follows(x) && s2.follows(x) && s1.follows(x) && s0.follows(x));
                let (u, w) = (weights(ats(r_x@, x)), weights(ats(r_y@, x)));
                let e = m[i as int];
                let (a, b, c) = (u(e.0), w(e.1), e.2);
                lemma_cong_mod(a, p);
                lemma_cong_mod(b, p);
                lemma_residue_mul(row_eval.at(x), a, col_eval.at(x), b, p);
                lemma_residue_mul(eq.at(x), a * b, val.val(), c, p);
                assert((a * b) * c == c * a * b) by (nonlinear_arith);
                lemma_residue_add(acc0.at(x), partial(m, u, w, i as int), term.at(x), c * a * b, p);
            }
        }
        i = i + 1;
    }
    proof {
        assert forall|x: Assignment| #[trigger] cs@.follows(x) implies acc.at(x) == structure@.eval_predicate(
            predicate_id as int,
            which as int,
            ats(r_x@, x),
            ats(r_y@, x),
        ) % p by {
            lemma_at(acc, cs@, x);
            lemma_canonical(acc.at(x), partial(m, weights(ats(r_x@, x)), weights(ats(r_y@, x)), m.len() as int), p);
        }
    }
    acc
}

/// The first `i` terms of a folded evaluation.
spec fn folded_partial(
    mats: Seq<Entries>,
    coeffs: Seq<int>,
    u: spec_fn(int) -> int,
    w: spec_fn(int) -> int,
    i: int,
) -> int {
    sum(|k: int| coeffs[k] * weighted(mats[k], u, w), i)
}

/// A matrix folded from those of the predicates, extended to a point.
pub fn eval_matrix_folded<E: CurveEngine>(
    cs: &mut ConstraintSystem<E::Base>,
    structure: &GlobalStructure<E>,
    coeffs: &Vec<AllocatedNum<E::Base>>,
    which: usize,
    r_x: &Vec<AllocatedNum<E::Base>>,
    r_y: &Vec<AllocatedNum<E::Base>>,
) -> (r: AllocatedNum<E::Base>)
    requires
        old(cs)@.wf(),
        structure.wf(),
        coeffs.len() == structure@.len(),
        which < 3,
        all_within(coeffs@, old(cs)@),
        all_within(r_x@, old(cs)@),
        all_within(r_y@, old(cs)@),
    ensures
        step(old(cs)@, final(cs)@),
        final(cs)@.satisfied() == old(cs)@.satisfied(),
        r.within(final(cs)@),
        final(cs).witness == old(cs).witness,
        final(cs)@.inputs == old(cs)@.inputs,
        forall|x: Assignment| #[trigger]
            final(cs)@.follows(x) ==> r.at(x) == structure@.eval_folded(
                ats(coeffs@, x),
                which as int,
                ats(r_x@, x),
                ats(r_y@, x),
            ) % E::Base::modulus(),
{
    let ghost before = cs@;
    let ghost p = E::Base::modulus();
    let ghost mats = structure@.mats_of(which as int);
    let mut acc = alloc_zero(cs);
    let mut i: usize = 0;
    proof {
        E::Base::modulus_bounds();
    }
    while i < structure.predicates.len()
        invariant
            i <= structure.predicates.len(),
            structure.wf(),
            mats == structure@.mats_of(which as int),
            coeffs.len() == structure@.len(),
            which < 3,
            p == E::Base::modulus(),
            p > 6,
            step(before, cs@),
            cs@.satisfied() == before.satisfied(),
            cs.witness == old(cs).witness,
            cs@.inputs == before.inputs,
            all_within(coeffs@, before),
            all_within(r_x@, before),
            all_within(r_y@, before),
            acc.within(cs@),
            forall|x: Assignment| #[trigger]
                cs@.follows(x) ==> cong(
                    acc.at(x),
                    folded_partial(mats, ats(coeffs@, x), weights(ats(r_x@, x)), weights(ats(r_y@, x)), i as int),
                    p,
                ),
        decreases structure.predicates.len() - i,
    {
        let ghost s0 = cs@;
        let ghost acc0 = acc;
        assert(all_within(r_x@, s0));
        assert(all_within(r_y@, s0));
        let eval = eval_matrix_predicate(cs, structure, i, which, r_x, r_y);
        let ghost s1 = cs@;
        assert(coeffs@[i as int].within(before));
        let term = coeffs[i].mul(cs, &eval);
        let ghost s2 = cs@;
        acc = acc.add(cs, &term);
        proof {
            lemma_step_trans(before, s0, s1);
            lemma_step_trans(before, s1, s2);
            lemma_step_trans(before, s2, cs@);
            assert forall|x: Assignment| #[trigger] cs@.follows(x) implies cong(
                acc.at(x),
                folded_partial(mats, ats(coeffs@, x), weights(ats(r_x@, x)), weights(ats(r_y@, x)), i + 1),
                p,
            ) by {
                assert(s2.follows(x) && s1.follows(x) && s0.follows(x));
                let (u, w) = (weights(ats(r_x@, x)), weights(ats(r_y@, x)));
                let c = ats(coeffs@, x);
                let v = weighted(mats[i as int], u, w);
                lemma_cong_mod(v, p);
                lemma_residue_mul(c[i as int], c[i as int], eval.at(x), v, p);
                lemma_residue_add(
                    acc0.at(x),
                    folded_partial(mats, c, u, w, i as int),
                    term.at(x),
                    c[i as int] * v,
                    p,
                );
            }
        }
        i = i + 1;
    }
    proof {
        assert forall|x: Assignment| #[trigger] cs@.follows(x) implies acc.at(x) == structure@.eval_folded(
            ats(coeffs@, x),
            which as int,
            ats(r_x@, x),
            ats(r_y@, x),
        ) % p by {
            lemma_at(acc, cs@, x);
            let c = ats(coeffs@, x);
            lemma_canonical(
                acc.at(x),
                folded_partial(mats, c, weights(ats(r_x@, x)), weights(ats(r_y@, x)), c.len() as int),
                p,
            );
        }
    }
    acc
}

/// A matrix of a predicate times a vector, extended to a point.
pub fn eval_row_compression_predicate<E: CurveEngine>(
    cs: &mut ConstraintSystem<E::Base>,
    structure: &GlobalStructure<E>,
    predicate_id: usize,
    which: usize,
    r_x: &Vec<AllocatedNum<E::Base>>,
    z: &Vec<AllocatedNum<E::Base>>,
) -> (r: AllocatedNum<E::Base>)
    requires
        old(cs)@.wf(),
        structure.wf(),
        predicate_id < structure@.len(),
        which < 3,
        all_within(r_x@, old(cs)@),
        all_within(z@, old(cs)@),
    ensures
        step(old(cs)@, final(cs)@),
        final(cs)@.satisfied() == old(cs)@.satisfied(),
        r.within(final(cs)@),
        final(cs).witness == old(cs).witness,
        final(cs)@.inputs == old(cs)@.inputs,
        forall|x: Assignment| #[trigger]
            final(cs)@.follows(x) ==> r.at(x) == structure@.eval_row_compression(
                predicate_id as int,
                which as int,
                ats(r_x@, x),
                ats(z@, x),
            ) % E::Base::modulus(),
{
    let ghost before = cs@;
    let ghost p = E::Base::modulus();
    let mat = &structure.predicates[predicate_id].mats[which];
    let ghost m = entries(mat@);
    assert(m == structure@.mats[predicate_id as int][which as int]);
    let mut row_cache: BTreeMap<usize, AllocatedNum<E::Base>> = BTreeMap::new();
    let mut acc = alloc_zero(cs);
    let mut i: usize = 0;
    proof {
        E::Base::modulus_bounds();
    }
    while i < mat.len()
        invariant
            i <= mat.len(),
            m == entries(mat@),
            p == E::Base::modulus(),
            p > 6,
            step(before, cs@),
            cs@.satisfied() == before.satisfied(),
            cs.witness == old(cs).witness,
            cs@.inputs == before.inputs,
            all_within(r_x@, before),
            all_within(z@, before),
            cache_within(row_cache@, r_x@, cs@),
            acc.within(cs@),
            forall|x: Assignment| #[trigger]
                cs@.follows(x) ==> cong(
                    acc.at(x),
                    partial(m, weights(ats(r_x@, x)), values(ats(z@, x)), i as int),
                    p,
                ),
        decreases mat.len() - i,
    {
        let (row, col, val) = mat[i];
        let ghost s0 = cs@;
        let ghost acc0 = acc;
        assert(all_within(r_x@, s0));
        let row_eval = cached_weight(cs, &mut row_cache, row, r_x);
        let ghost s1 = cs@;
        let scaled_row = row_eval.mul_const(cs, &val);
        let ghost s2 = cs@;
        proof {
            lemma_step_trans(before, s0, s1);
            lemma_step_trans(before, s1, s2);
        }
        let z_col = if col < z.len() {
            assert(z@[col as int].within(before));
            z[col]
        } else {
            alloc_zero(cs)
        };
        let ghost s3 = cs@;
        proof {
            if col < z.len() {
                lemma_step_refl(s2);
            }
        }
        let term = scaled_row.mul(cs, &z_col);
        let ghost s4 = cs@;
        acc = acc.add(cs, &term);
        proof {
            lemma_step_trans(before, s2, s3);
            lemma_step_trans(before, s3, s4);
            lemma_step_trans(before, s4, cs@);
            lemma_step_trans(s1, s2, s3);
            lemma_step_trans(s1, s3, s4);
            lemma_step_trans(s1, s4, cs@);
            lemma_cache(row_cache@, r_x@, s1, cs@);
            assert forall|x: Assignment| #[trigger] cs@.follows(x) implies cong(
                acc.at(x),
                partial(m, weights(ats(r_x@, x)), values(ats(z@, x)), i + 1),
                p,
            ) by {
                assert(s4.follows(x) && s3.follows(x) && s2.follows(x) && s1.follows(x) && s0.follows(x));
                let (u, w) = (weights(ats(r_x@, x)), values(ats(z@, x)));
                let e = m[i as int];
                let (a, b, c) = (u(e.0), w(e.1), e.2);
                assert(z_col.at(x) == b);
                lemma_cong_mod(a, p);
                lemma_residue_mul(row_eval.at(x), a, val.val(), c, p);
                lemma_residue_mul(scaled_row.at(x), a * c, z_col.at(x), b, p);
                assert((a * c) * b == c * a * b) by (nonlinear_arith);
                lemma_residue_add(acc0.at(x), partial(m, u, w, i as int), term.at(x), c * a * b, p);
            }
        }
        i = i + 1;
    }
    proof {
        assert forall|x: Assignment| #[trigger] cs@.follows(x) implies acc.at(x) == structure@.eval_row_compression(
            predicate_id as int,
            which as int,
            ats(r_x@, x),
            ats(z@, x),
        ) % p by {
            lemma_at(acc, cs@, x);
            lemma_canonical(acc.at(x), partial(m, weights(ats(r_x@, x)), values(ats(z@, x)), m.len() as int), p);
        }
    }
    acc
}

/// The first `i` terms of the extension of a vector.
spec fn vector_partial(z: Seq<int>, r_y: Seq<int>, i: int) -> int {
    sum(|k: int| z[k] * eq_weight(k, r_y), i)
}

/// The extension of a vector at a point.
pub fn eval_z<F: FieldElement>(cs: &mut ConstraintSystem<F>, z: &Vec<AllocatedNum<F>>, r_y: &Vec<AllocatedNum<F>>) -> (r:
    AllocatedNum<F>)
    requires
        old(cs)@.wf(),
        all_within(z@, old(cs)@),
        all_within(r_y@, old(cs)@),
    ensures
        step(old(cs)@, final(cs)@),
        final(cs)@.satisfied() == old(cs)@.satisfied(),
        r.within(final(cs)@),
        final(cs).witness == old(cs).witness,
        final(cs)@.inputs == old(cs)@.inputs,
        forall|x: Assignment| #[trigger]
            final(cs)@.follows(x) ==> r.at(x) == vector_eval(ats(z@, x), ats(r_y@, x)) % F::modulus(),
{
    let ghost before = cs@;
    let ghost p = F::modulus();
    let mut acc = alloc_zero(cs);
    let mut i: usize = 0;
    proof {
        F::modulus_bounds();
    }
    while i < z.len()
        invariant
            i <= z.len(),
            p == F::modulus(),
            p > 6,
            step(before, cs@),
            cs@.satisfied() == before.satisfied(),
            cs.witness == old(cs).witness,
            cs@.inputs == before.inputs,
            all_within(z@, before),
            all_within(r_y@, before),
            acc.within(cs@),
            forall|x: Assignment| #[trigger]
                cs@.follows(x) ==> cong(acc.at(x), vector_partial(ats(z@, x), ats(r_y@, x), i as int), p),
        decreases z.len() - i,
    {
        let ghost s0 = cs@;
        let ghost acc0 = acc;
        assert(all_within(r_y@, s0));
        let eq = eq_at(cs, i, r_y);
        let ghost s1 = cs@;
        assert(z@[i as int].within(before));
        let term = z[i].mul(cs, &eq);
        let ghost s2 = cs@;
        acc = acc.add(cs, &term);
        proof {
            lemma_step_trans(before, s0, s1);
            lemma_step_trans(before, s1, s2);
            lemma_step_trans(before, s2, cs@);
            assert forall|x: Assignment| #[trigger] cs@.follows(x) implies cong(
                acc.at(x),
                vector_partial(ats(z@, x), ats(r_y@, x), i + 1),
                p,
            ) by {
                assert(s2.follows(x) && s1.follows(x) && s0.follows(x));
                let (v, r) = (ats(z@, x), ats(r_y@, x));
                let w = eq_weight(i as int, r);
                lemma_cong_mod(w, p);
                lemma_residue_mul(v[i as int], v[i as int], eq.at(x), w, p);
                lemma_residue_add(acc0.at(x), vector_partial(v, r, i as int), term.at(x), v[i as int] * w, p);
            }
        }
        i = i + 1;
    }
    proof {
        assert forall|x: Assignment| #[trigger] cs@.follows(x) implies acc.at(x) == vector_eval(
            ats(z@, x),
            ats(r_y@, x),
        ) % p by {
            lemma_at(acc, cs@, x);
            let v = ats(z@, x);
            lemma_canonical(acc.at(x), vector_partial(v, ats(r_y@, x), v.len() as int), p);
        }
    }
    acc
}

/// The first `i` terms of an interpolation.
spec fn interpolation_partial(points: Seq<int>, evals: Seq<int>, at: int, p: int, i: int) -> int {
    sum(|k: int| interpolation_term(points, evals, at, p, k), i)
}

/// The product of the distances of a number from all points but the one at `i`.
fn distances_gadget<F: FieldElement>(
    cs: &mut ConstraintSystem<F>,
    at: &AllocatedNum<F>,
    points: &Vec<F>,
    i: usize,
) -> (r: AllocatedNum<F>)
    requires
        old(cs)@.wf(),
        at.within(old(cs)@),
    ensures
        (final(cs)@.layout(), r.variable) == lay_distances(
            old(cs)@.layout(),
            at.variable,
            vals(points@),
            i as int,
            F::modulus(),
            points.len() as int,
        ),
        step(old(cs)@, final(cs)@),
        final(cs)@.satisfied() == old(cs)@.satisfied(),
        r.within(final(cs)@),
        final(cs).witness == old(cs).witness,
        final(cs)@.inputs == old(cs)@.inputs,
        forall|x: Assignment| #[trigger]
            final(cs)@.follows(x) ==> r.at(x) == distances(vals(points@), at.at(x), i as int, points.len() as int)
                % F::modulus(),
{
    let ghost before = cs@;
    let ghost p = F::modulus();
    let ghost pts = vals(points@);
    let mut num = alloc_one(cs);
    let mut j: usize = 0;
    proof {
        F::modulus_bounds();
    }
    while j < points.len()
        invariant
            (cs@.layout(), num.variable) == lay_distances(before.layout(), at.variable, pts, i as int, p, j as int),
            j <= points.len(),
            pts == vals(points@),
            p == F::modulus(),
            p > 6,
            step(before, cs@),
            cs@.satisfied() == before.satisfied(),
            cs.witness == old(cs).witness,
            cs@.inputs == before.inputs,
            at.within(before),
            num.within(cs@),
            forall|x: Assignment| #[trigger]
                cs@.follows(x) ==> cong(num.at(x), distances(pts, at.at(x), i as int, j as int), p),
        decreases points.len() - j,
    {
        if i != j {
            let ghost s0 = cs@;
            let ghost num0 = num;
            let minus = F::from_u64(0).sub(&points[j]);
            let shifted = at.add_const(cs, &minus);
            let ghost s1 = cs@;
            num = num.mul(cs, &shifted);
            proof {
                lemma_step_trans(before, s0, s1);
                lemma_step_trans(before, s1, cs@);
                assert forall|x: Assignment| #[trigger] cs@.follows(x) implies cong(
                    num.at(x),
                    distances(pts, at.at(x), i as int, j + 1),
                    p,
                ) by {
                    assert(s1.follows(x) && s0.follows(x));
                    let c = pts[j as int];
                    lemma_cong_mod(0 - c, p);
                    lemma_residue_add(at.at(x), at.at(x), minus.val(), 0 - c, p);
                    lemma_residue_mul(
                        num0.at(x),
                        distances(pts, at.at(x), i as int, j as int),
                        shifted.at(x),
                        at.at(x) - c,
                        p,
                    );
                }
            }
        }
        j = j + 1;
    }
    proof {
        assert forall|x: Assignment| #[trigger] cs@.follows(x) implies num.at(x) == distances(
            pts,
            at.at(x),
            i as int,
            points.len() as int,
        ) % p by {
            lemma_at(num, cs@, x);
            lemma_canonical(num.at(x), distances(pts, at.at(x), i as int, points.len() as int), p);
        }
    }
    num
}

/// The value at a number of the polynomial of least degree through constant points.
pub fn interpolate<F: FieldElement>(
    cs: &mut ConstraintSystem<F>,
    evals: &Vec<AllocatedNum<F>>,
    at: &AllocatedNum<F>,
    points: &Vec<F>,
) -> (r: AllocatedNum<F>)
    requires
        old(cs)@.wf(),
        evals.len() == points.len(),
        points.len() > 0,
        separated(vals(points@), F::modulus()),
        all_within(evals@, old(cs)@),
        at.within(old(cs)@),
    ensures
        (final(cs)@.layout(), r.variable) == lay_interpolate(
            old(cs)@.layout(),
            wires(evals@),
            at.variable,
            vals(points@),
            F::modulus(),
            evals.len() as int,
        ),
        step(old(cs)@, final(cs)@),
        final(cs)@.satisfied() == old(cs)@.satisfied(),
        r.within(final(cs)@),
        final(cs).witness == old(cs).witness,
        final(cs)@.inputs == old(cs)@.inputs,
        forall|x: Assignment| #[trigger]
            final(cs)@.follows(x) ==> interpolation(vals(points@), ats(evals@, x), at.at(x), F::modulus()) == Some(
                r.at(x),
            ),
{
    let ghost before = cs@;
    let ghost p = F::modulus();
    let ghost pts = vals(points@);
    let mut acc = alloc_zero(cs);
    let mut i: usize = 0;
    proof {
        F::modulus_bounds();
    }
    while i < evals.len()
        invariant
            (cs@.layout(), acc.variable) == lay_interpolate(before.layout(), wires(evals@), at.variable, pts, p, i as int),
            i <= evals.len(),
            evals.len() == points.len(),
            pts == vals(points@),
            separated(pts, p),
            p == F::modulus(),
            p > 6,
            step(before, cs@),
            cs@.satisfied() == before.satisfied(),
            cs.witness == old(cs).witness,
            cs@.inputs == before.inputs,
            all_within(evals@, before),
            at.within(before),
            acc.within(cs@),
            forall|x: Assignment| #[trigger]
                cs@.follows(x) ==> cong(
                    acc.at(x),
                    interpolation_partial(pts, ats(evals@, x), at.at(x), p, i as int),
                    p,
                ),
        decreases evals.len() - i,
    {
        let ghost s0 = cs@;
        let ghost acc0 = acc;
        let num = distances_gadget(cs, at, points, i);
        let ghost s1 = cs@;
        let den = compute_distances(points, &points[i], i);
        let ghost d = distances(pts, pts[i as int], i as int, pts.len() as int);
        let inv = match den.invert() {
            Some(inv) => inv,
            None => {
                assert(d % p == 0);
                assert(!separated(pts, p));
                F::from_u64(0)
            },
        };
        let basis = num.mul_const(cs, &inv);
        let ghost s2 = cs@;
        assert(evals@[i as int].within(before));
        proof {
            lemma_step_trans(before, s0, s1);
            lemma_step_trans(before, s1, s2);
        }
        let term = basis.mul(cs, &evals[i]);
        let ghost s3 = cs@;
        acc = acc.add(cs, &term);
        proof {
            lemma_step_trans(before, s2, s3);
            lemma_step_trans(before, s3, cs@);
            inv.val_bounds();
            lemma_cong_mod(d, p);
            lemma_cong_mul(den.val(), d, inv.val(), inv.val(), p);
            lemma_inverse_is(d, inv.val(), p);
            assert forall|x: Assignment| #[trigger] cs@.follows(x) implies cong(
                acc.at(x),
                interpolation_partial(pts, ats(evals@, x), at.at(x), p, i + 1),
                p,
            ) by {
                assert(s3.follows(x) && s2.follows(x) && s1.follows(x) && s0.follows(x));
                let e = ats(evals@, x);
                let y = distances(pts, at.at(x), i as int, pts.len() as int);
                let (v, k) = (e[i as int], inv.val());
                lemma_cong_mod(y, p);
                lemma_residue_mul(num.at(x), y, k, k, p);
                lemma_residue_mul(basis.at(x), y * k, v, v, p);
                assert((y * k) * v == v * y * k) by (nonlinear_arith);
                lemma_residue_add(
                    acc0.at(x),
                    interpolation_partial(pts, e, at.at(x), p, i as int),
                    term.at(x),
                    v * y * k,
                    p,
                );
            }
        }
        i = i + 1;
    }
    proof {
        assert forall|x: Assignment| #[trigger] cs@.follows(x) implies interpolation(
            pts,
            ats(evals@, x),
            at.at(x),
            p,
        ) == Some(acc.at(x)) by {
            lemma_at(acc, cs@, x);
            lemma_canonical(
                acc.at(x),
                interpolation_partial(pts, ats(evals@, x), at.at(x), p, pts.len() as int),
                p,
            );
        }
    }
    acc
}

/// The number that a system comes to for a matrix of a predicate at a point is the element that is evaluated there.
pub proof fn circuit_evaluates_matrix<E: CurveEngine>(
    s: StructureView,
    id: int,
    which: int,
    r_x: Seq<AllocatedNum<E::Base>>,
    r_y: Seq<AllocatedNum<E::Base>>,
    num: AllocatedNum<E::Base>,
    x: Assignment,
    e: E::Base,
)
    requires
        num.at(x) == s.eval_predicate(id, which, ats(r_x, x), ats(r_y, x)) % E::Base::modulus(),
        e.val() == s.eval_predicate(id, which, ats(r_x, x), ats(r_y, x)) % E::Base::modulus(),
    ensures
        num.at(x) == e.val(),
{
}

} // verus!
