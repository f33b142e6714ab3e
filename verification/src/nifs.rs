//! The non-interactive folding of an instance into a folded instance, by two sum-checks.
use crate::combine::{combine_x, combine_y, lemma_combine_x_low_degree, lemma_combine_y_low_degree, sum_x, sum_y};
use crate::engine::{vals, CurveEngine, CurveGroup, RandomOracle, MAX_ABSORBED};
use crate::errors::NovaError;
use crate::field::FieldElement;
use crate::math::{
    cong, lemma_canonical, lemma_cong_mod, lemma_residue_add, lemma_residue_mul, lemma_residue_sub, lemma_sum_zero,
    sum,
};
use crate::matrix::{
    at, bucket_sum, col_sum, folded_col, folded_row, lemma_bucket_sum, row_bucket, row_sum, transposed, values,
    weights,
};
use crate::mle::{between, bound_table, eq_points, eq_weight, reversed};
use crate::r1cs::{entries, InstanceView, R1CSInstance, R1CSWitness, WitnessView, pow2_usize};
use crate::relation::{
    absorb_all, absorb_commitments3, claims, combined, commitments3_elements, copy_vec, eq_at, equal_vecs,
    fold_instance, fold_vec, fold_witness, folded_sat, folded_z, get_or_zero, incoming_z, instance_elements, sigmas,
    taus, thetas, zeros, bucket_is, buckets_are, FoldedInstance, FoldedInstanceView, FoldedWitness, FoldedWitnessView,
    GlobalStructure, StructureView,
};
use crate::sumcheck::{
    challenge, check_rounds, column_between, columns_cong, distances, first_points, interpolation, interpolation_term,
    inverse, lemma_inverse_is, lemma_separated, low_degree, prove_round, prove_rounds, round_evals, round_sum,
    separated, Check, NUM_CHALLENGE_BITS, Rounds,
};
use crate::soundness::{adds_multiple, ties_claims, verified_fold_adds_incoming};
use vstd::arithmetic::power::{lemma_pow0, lemma_pow1, lemma_pow_adds, pow};
use vstd::arithmetic::power2::{lemma_pow2_unfold, pow2};
use vstd::prelude::*;

verus! {

/// A sum-check proof: what the prover sent in each round, and the challenges that it got.
pub struct SumcheckProof<E: CurveGroup> {
    pub point: Vec<E::Base>,
    pub polys: Vec<Vec<E::Base>>,
}

/// A proof that an instance was folded.
pub struct NIFS<E: CurveGroup> {
    pub sc_proof_x: SumcheckProof<E>,
    pub sc_proof_y: SumcheckProof<E>,
    pub sigmas: Vec<E::Base>,
    pub taus: Vec<E::Base>,
    pub epsilons: Vec<E::Base>,
    pub thetas: Vec<E::Base>,
}

/// A sum-check proof over the integers.
pub struct SumcheckProofView {
    pub point: Seq<int>,
    pub polys: Seq<Seq<int>>,
}

/// A proof that an instance was folded, over the integers.
pub struct NIFSView {
    pub sc_proof_x: SumcheckProofView,
    pub sc_proof_y: SumcheckProofView,
    pub sigmas: Seq<int>,
    pub taus: Seq<int>,
    pub epsilons: Seq<int>,
    pub thetas: Seq<int>,
}

/// The residues of a list of vectors.
pub open spec fn vals2<F: FieldElement>(v: Seq<Vec<F>>) -> Seq<Seq<int>> {
    Seq::new(v.len(), |i: int| vals(v[i]@))
}

impl<E: CurveGroup> View for SumcheckProof<E> {
    type V = SumcheckProofView;

    open spec fn view(&self) -> SumcheckProofView {
        SumcheckProofView { point: vals(self.point@), polys: vals2(self.polys@) }
    }
}

impl<E: CurveGroup> View for NIFS<E> {
    type V = NIFSView;

    open spec fn view(&self) -> NIFSView {
        NIFSView {
            sc_proof_x: self.sc_proof_x@,
            sc_proof_y: self.sc_proof_y@,
            sigmas: vals(self.sigmas@),
            taus: vals(self.taus@),
            epsilons: vals(self.epsilons@),
            thetas: vals(self.thetas@),
        }
    }
}

/// The hash of the oracle of a curve.
pub open spec fn hash_of<E: CurveEngine>() -> spec_fn(Seq<int>) -> int {
    |s: Seq<int>| <E::RO as RandomOracle<E::Base>>::hash(s)
}

/// What an oracle holds once the inputs of a fold are absorbed.
pub open spec fn absorbed_inputs<E: CurveEngine>(
    s: StructureView,
    pp_digest: int,
    id: int,
    u2: InstanceView,
) -> Seq<int> {
    seq![pp_digest % E::Base::modulus(), id] + instance_elements::<E>(u2) + commitments3_elements::<E>(s.comm_M[id])
}

/// The state of an oracle after `n` squeezes.
pub open spec fn squeezed_state(hash: spec_fn(Seq<int>) -> int, state: Seq<int>, n: nat) -> Seq<int>
    decreases n,
{
    if n == 0 {
        state
    } else {
        seq![hash(squeezed_state(hash, state, (n - 1) as nat))]
    }
}

/// The challenges of `n` squeezes.
pub open spec fn squeezed(hash: spec_fn(Seq<int>) -> int, state: Seq<int>, n: nat) -> Seq<int> {
    Seq::new(n, |i: int| challenge(hash, squeezed_state(hash, state, i as nat)))
}

/// The most public values that an instance can have to be absorbed.
pub const MAX_IO: usize = 0x7fff_ff00;

/// The multilinear weights of all indices at a point, as a table.
pub open spec fn eq_table_of(point: Seq<int>, p: int) -> Seq<int> {
    Seq::new(pow2(point.len()), |i: int| eq_weight(i, point) % p)
}

/// The rows of folded matrices, each weighted by the columns at a point, as a table.
pub open spec fn row_table_folded(s: StructureView, coeffs: Seq<int>, which: int, r_y: Seq<int>, p: int) -> Seq<int> {
    Seq::new(pow2(s.s_max), |r: int| folded_row(s.mats_of(which), coeffs, r, weights(r_y)) % p)
}

/// The rows of a matrix of a predicate times a vector, as a table.
pub open spec fn row_table_compressed(s: StructureView, id: int, which: int, z: Seq<int>, p: int) -> Seq<int> {
    Seq::new(pow2(s.s_max), |r: int| row_sum(s.mats[id][which], r, values(z)) % p)
}

/// The columns of folded matrices, each weighted by the rows at a point, as a table.
pub open spec fn col_table_folded(s: StructureView, coeffs: Seq<int>, which: int, r_x: Seq<int>, p: int) -> Seq<int> {
    Seq::new(pow2(s.s_prime_max), |c: int| folded_col(s.mats_of(which), coeffs, c, weights(r_x)) % p)
}

/// The columns of a matrix of a predicate, each weighted by the rows at a point, as a table.
pub open spec fn col_table_predicate(s: StructureView, id: int, which: int, r_x: Seq<int>, p: int) -> Seq<int> {
    Seq::new(pow2(s.s_prime_max), |c: int| col_sum(s.mats[id][which], c, weights(r_x)) % p)
}

/// A vector, followed by zeros, as a table.
pub open spec fn z_table_of(s: StructureView, z: Seq<int>) -> Seq<int> {
    Seq::new(pow2(s.s_prime_max), |i: int| at(z, i))
}

/// The tables of the first sum-check.
pub open spec fn tables_x(
    s: StructureView,
    id: int,
    r_x: Seq<int>,
    r_y: Seq<int>,
    lambda: Seq<int>,
    alpha: Seq<int>,
    z_new: Seq<int>,
    p: int,
) -> Seq<Seq<int>> {
    seq![
        eq_table_of(r_x, p),
        row_table_folded(s, lambda, 0, r_y, p),
        row_table_folded(s, lambda, 1, r_y, p),
        row_table_folded(s, lambda, 2, r_y, p),
        eq_table_of(alpha, p),
        row_table_compressed(s, id, 0, z_new, p),
        row_table_compressed(s, id, 1, z_new, p),
        row_table_compressed(s, id, 2, z_new, p),
    ]
}

/// The tables of the second sum-check.
pub open spec fn tables_y(
    s: StructureView,
    id: int,
    r_x: Seq<int>,
    r_y: Seq<int>,
    lambda: Seq<int>,
    z_running: Seq<int>,
    z_new: Seq<int>,
    p: int,
) -> Seq<Seq<int>> {
    seq![
        eq_table_of(r_y, p),
        col_table_folded(s, lambda, 0, r_x, p),
        col_table_folded(s, lambda, 1, r_x, p),
        col_table_folded(s, lambda, 2, r_x, p),
        z_table_of(s, z_running),
        col_table_predicate(s, id, 0, r_x, p),
        col_table_predicate(s, id, 1, r_x, p),
        col_table_predicate(s, id, 2, r_x, p),
        z_table_of(s, z_new),
    ]
}

/// Sets the highest variable of a table to `r`.
pub(crate) fn bind_table<F: FieldElement>(table: &mut Vec<F>, r: &F)
    ensures
        vals(final(table)@) == bound_table(vals(old(table)@), r.val(), F::modulus()),
{
    let ghost p = F::modulus();
    let ghost before = vals(table@);
    let ghost start = table@;
    let half: usize = table.len() / 2;
    let mut i: usize = 0;
    proof {
        F::modulus_bounds();
    }
    while i < half
        invariant
            i <= half,
            half == start.len() / 2,
            table.len() == start.len(),
            before == vals(start),
            p == F::modulus(),
            p > 1,
            forall|k: int| 0 <= k < i ==> (#[trigger] table[k]).val() == between(before, k, r.val()) % p,
            forall|k: int| i <= k < start.len() ==> #[trigger] table[k] == start[k],
        decreases half - i,
    {
        let lo = table[i];
        let hi = table[half + i];
        let diff = hi.sub(&lo);
        let step = r.mul(&diff);
        let new = lo.add(&step);
        proof {
            let (a, b) = (before[i as int], before[half + i]);
            assert(lo == start[i as int] && hi == start[half + i]);
            lemma_residue_sub(b, b, a, a, p);
            lemma_residue_mul(r.val(), r.val(), diff.val(), b - a, p);
            lemma_residue_add(a, a, step.val(), r.val() * (b - a), p);
            new.val_bounds();
            lemma_canonical(new.val(), between(before, i as int, r.val()), p);
        }
        table.set(i, new);
        i = i + 1;
    }
    table.truncate(half);
    assert(vals(table@) =~= bound_table(before, r.val(), p));
}

/// The first powers of an element.
pub(crate) fn powers<F: FieldElement>(base: &F, count: usize) -> (r: Vec<F>)
    ensures
        r.len() == count,
        forall|k: int| 0 <= k < count ==> (#[trigger] r[k]).val() == pow(base.val(), k as nat) % F::modulus(),
{
    let ghost p = F::modulus();
    let ghost b = base.val();
    let mut cur = F::from_u64(1);
    let mut r: Vec<F> = Vec::new();
    let mut i: usize = 0;
    proof {
        F::modulus_bounds();
        lemma_pow0(b);
        vstd::arithmetic::div_mod::lemma_small_mod(1, p as nat);
    }
    while i < count
        invariant
            i <= count,
            r.len() == i,
            p == F::modulus(),
            p > 1,
            b == base.val(),
            cur.val() == pow(b, i as nat) % p,
            forall|k: int| 0 <= k < i ==> (#[trigger] r[k]).val() == pow(b, k as nat) % p,
        decreases count - i,
    {
        r.push(cur);
        let next = cur.mul(base);
        proof {
            lemma_cong_mod(pow(b, i as nat), p);
            lemma_residue_mul(cur.val(), pow(b, i as nat), b, b, p);
            lemma_pow1(b);
            lemma_pow_adds(b, i as nat, 1);
            next.val_bounds();
            lemma_canonical(next.val(), pow(b, (i + 1) as nat), p);
        }
        cur = next;
        i = i + 1;
    }
    r
}

/// A point with its coordinates in the opposite order.
pub(crate) fn canonical_point<F: FieldElement>(point: &Vec<F>) -> (r: Vec<F>)
    ensures
        vals(r@) == reversed(vals(point@)),
{
    let mut r: Vec<F> = Vec::new();
    let mut i: usize = 0;
    while i < point.len()
        invariant
            i <= point.len(),
            r.len() == i,
            forall|k: int| 0 <= k < i ==> #[trigger] r[k] == point[point.len() - 1 - k],
        decreases point.len() - i,
    {
        r.push(point[point.len() - 1 - i]);
        i = i + 1;
    }
    assert(vals(r@) =~= reversed(vals(point@)));
    r
}

/// Squeezes challenges.
pub(crate) fn squeeze_challenges<E: CurveEngine>(ro: &mut E::RO, n: usize) -> (r: Vec<E::Base>)
    requires
        0 < old(ro).state().len() <= MAX_ABSORBED,
    ensures
        vals(r@) == squeezed(hash_of::<E>(), old(ro).state(), n as nat),
        final(ro).state() == squeezed_state(hash_of::<E>(), old(ro).state(), n as nat),
{
    let ghost start = ro.state();
    let ghost hash = hash_of::<E>();
    let mut r: Vec<E::Base> = Vec::new();
    let mut i: usize = 0;
    while i < n
        invariant
            i <= n,
            r.len() == i,
            hash == hash_of::<E>(),
            0 < start.len() <= MAX_ABSORBED,
            ro.state() == squeezed_state(hash, start, i as nat),
            forall|k: int|
                0 <= k < i ==> (#[trigger] r[k]).val() == challenge(hash, squeezed_state(hash, start, k as nat)),
        decreases n - i,
    {
        let c = ro.squeeze(NUM_CHALLENGE_BITS);
        r.push(c);
        i = i + 1;
    }
    assert(vals(r@) =~= squeezed(hash, start, n as nat));
    r
}

/// The product of the distances of `at` from all points but the one at `i`.
pub(crate) fn compute_distances<F: FieldElement>(points: &Vec<F>, at: &F, i: usize) -> (r: F)
    ensures
        r.val() == distances(vals(points@), at.val(), i as int, points.len() as int) % F::modulus(),
{
    let ghost p = F::modulus();
    let ghost pts = vals(points@);
    let mut acc = F::from_u64(1);
    let mut j: usize = 0;
    proof {
        F::modulus_bounds();
    }
    while j < points.len()
        invariant
            j <= points.len(),
            p == F::modulus(),
            p > 1,
            pts == vals(points@),
            cong(acc.val(), distances(pts, at.val(), i as int, j as int), p),
        decreases points.len() - j,
    {
        if i != j {
            let diff = at.sub(&points[j]);
            proof {
                let x = at.val() - pts[j as int];
                lemma_cong_mod(x, p);
                lemma_residue_mul(acc.val(), distances(pts, at.val(), i as int, j as int), diff.val(), x, p);
            }
            acc = acc.mul(&diff);
        }
        j = j + 1;
    }
    proof {
        acc.val_bounds();
        lemma_canonical(acc.val(), distances(pts, at.val(), i as int, points.len() as int), p);
    }
    acc
}

/// The value at `at` of the polynomial of least degree through the points.
pub fn interpolate<F: FieldElement>(points: &Vec<F>, evals: &Vec<F>, at: &F) -> (r: Result<F, NovaError>)
    ensures
        match r {
            Ok(v) => interpolation(vals(points@), vals(evals@), at.val(), F::modulus()) == Some(v.val()),
            Err(e) => e == NovaError::InvalidSumcheckProof && interpolation(
                vals(points@),
                vals(evals@),
                at.val(),
                F::modulus(),
            ) is None,
        },
{
    let ghost p = F::modulus();
    let ghost pts = vals(points@);
    let ghost evs = vals(evals@);
    if points.len() != evals.len() || points.len() == 0 {
        return Err(NovaError::InvalidSumcheckProof);
    }
    let ghost f = |i: int| interpolation_term(pts, evs, at.val(), p, i);
    let mut out = F::from_u64(0);
    let mut i: usize = 0;
    proof {
        F::modulus_bounds();
    }
    while i < points.len()
        invariant
            i <= points.len(),
            points.len() == evals.len(),
            p == F::modulus(),
            p > 1,
            pts == vals(points@),
            evs == vals(evals@),
            f == (|i: int| interpolation_term(pts, evs, at.val(), p, i)),
            cong(out.val(), sum(f, i as int), p),
            forall|k: int|
                0 <= k < i ==> #[trigger] distances(pts, pts[k], k, pts.len() as int) % p != 0,
        decreases points.len() - i,
    {
        let num = compute_distances(points, at, i);
        let den = compute_distances(points, &points[i], i);
        let ghost x = distances(pts, pts[i as int], i as int, pts.len() as int);
        match den.invert() {
            None => {
                assert(x % p == 0);
                assert(!separated(pts, p));
                return Err(NovaError::InvalidSumcheckProof);
            },
            Some(inv) => {
                let part = evals[i].mul(&num);
                let term = part.mul(&inv);
                proof {
                    let y = distances(pts, at.val(), i as int, pts.len() as int);
                    inv.val_bounds();
                    lemma_cong_mod(x, p);
                    crate::math::lemma_cong_mul(den.val(), x, inv.val(), inv.val(), p);
                    lemma_inverse_is(x, inv.val(), p);
                    lemma_cong_mod(y, p);
                    lemma_residue_mul(evs[i as int], evs[i as int], num.val(), y, p);
                    lemma_residue_mul(part.val(), evs[i as int] * y, inv.val(), inv.val(), p);
                    lemma_residue_add(out.val(), sum(f, i as int), term.val(), f(i as int), p);
                }
                out = out.add(&term);
            },
        }
        i = i + 1;
    }
    proof {
        out.val_bounds();
        lemma_canonical(out.val(), sum(f, pts.len() as int), p);
        assert(separated(pts, p));
    }
    Ok(out)
}

/// Which of the two polynomials a sum-check runs over, with the powers of its challenge.
pub(crate) struct Combiner<F: FieldElement> {
    pub first: bool,
    pub base: F,
    pub powers: Vec<F>,
}

impl<F: FieldElement> Combiner<F> {
    /// The polynomial.
    pub closed spec fn poly(&self) -> spec_fn(Seq<int>) -> int {
        if self.first {
            |c: Seq<int>| combine_x(self.base.val(), c)
        } else {
            |c: Seq<int>| combine_y(self.base.val(), c)
        }
    }

    /// The number of tables.
    pub closed spec fn width(&self) -> nat {
        if self.first {
            8
        } else {
            9
        }
    }

    /// The number of sums that a round sends.
    pub closed spec fn evals(&self) -> nat {
        if self.first {
            4
        } else {
            3
        }
    }

    pub closed spec fn wf(&self) -> bool {
        &&& self.powers.len() == (if self.first {
            4int
        } else {
            7
        })
        &&& forall|k: int|
            0 <= k < self.powers.len() ==> (#[trigger] self.powers[k]).val() == pow(self.base.val(), k as nat)
                % F::modulus()
    }

    fn for_x(gamma: &F) -> (r: Self)
        ensures
            r.wf(),
            r.first,
            r.base == *gamma,
    {
        Combiner { first: true, base: *gamma, powers: powers(gamma, 4) }
    }

    fn for_y(delta: &F) -> (r: Self)
        ensures
            r.wf(),
            !r.first,
            r.base == *delta,
    {
        Combiner { first: false, base: *delta, powers: powers(delta, 7) }
    }

    proof fn lemma_low_degree(&self)
        ensures
            low_degree(self.poly(), self.width(), self.evals(), F::modulus()),
    {
        F::modulus_bounds();
        if self.first {
            lemma_combine_x_low_degree(self.base.val(), F::modulus());
        } else {
            lemma_combine_y_low_degree(self.base.val(), F::modulus());
        }
    }

    /// Adds a power of the challenge times a product.
    fn add_term(&self, acc: &F, k: usize, a: &F, b: &F, Ghost(x): Ghost<int>) -> (r: F)
        requires
            self.wf(),
            k < self.powers.len(),
            cong(acc.val(), x, F::modulus()),
        ensures
            cong(r.val(), x + pow(self.base.val(), k as nat) * (a.val() * b.val()), F::modulus()),
    {
        let part = self.powers[k].mul(a);
        let term = part.mul(b);
        let r = acc.add(&term);
        proof {
            let p = F::modulus();
            F::modulus_bounds();
            let g = pow(self.base.val(), k as nat);
            lemma_cong_mod(g, p);
            lemma_residue_mul(self.powers[k as int].val(), g, a.val(), a.val(), p);
            lemma_residue_mul(part.val(), g * a.val(), b.val(), b.val(), p);
            let (u, v) = (a.val(), b.val());
            assert((g * u) * v == g * (u * v)) by (nonlinear_arith);
            lemma_residue_add(acc.val(), x, term.val(), g * (u * v), p);
        }
        r
    }

    /// The polynomial at a column.
    fn combine(&self, c: &Vec<F>) -> (r: F)
        requires
            self.wf(),
            c.len() == self.width(),
        ensures
            cong(r.val(), self.poly()(vals(c@)), F::modulus()),
    {
        let ghost p = F::modulus();
        let ghost v = vals(c@);
        let ghost b = self.base.val();
        proof {
            F::modulus_bounds();
            lemma_pow0(b);
        }
        let zero = F::from_u64(0);
        let t0 = self.add_term(&zero, 0, &c[0], &c[1], Ghost(0));
        let ghost x0 = v[0] * v[1];
        assert(1 * x0 == x0);
        let t1 = self.add_term(&t0, 1, &c[0], &c[2], Ghost(x0));
        let ghost x1 = x0 + pow(b, 1) * (v[0] * v[2]);
        let t2 = self.add_term(&t1, 2, &c[0], &c[3], Ghost(x1));
        let ghost x2 = x1 + pow(b, 2) * (v[0] * v[3]);
        if self.first {
            let prod = c[5].mul(&c[6]);
            let diff = prod.sub(&c[7]);
            proof {
                lemma_residue_mul(v[5], v[5], v[6], v[6], p);
                lemma_residue_sub(prod.val(), v[5] * v[6], v[7], v[7], p);
            }
            let t3 = self.add_term(&t2, 3, &c[4], &diff, Ghost(x2));
            proof {
                let g = pow(b, 3);
                let w = v[5] * v[6] - v[7];
                crate::math::lemma_cong_mul(v[4], v[4], diff.val(), w, p);
                crate::math::lemma_cong_mul(g, g, v[4] * diff.val(), v[4] * w, p);
                crate::math::lemma_cong_add(x2, x2, g * (v[4] * diff.val()), g * (v[4] * w), p);
            }
            t3
        } else {
            let t3 = self.add_term(&t2, 3, &c[0], &c[4], Ghost(x2));
            let ghost x3 = x2 + pow(b, 3) * (v[0] * v[4]);
            let t4 = self.add_term(&t3, 4, &c[5], &c[8], Ghost(x3));
            let ghost x4 = x3 + pow(b, 4) * (v[5] * v[8]);
            let t5 = self.add_term(&t4, 5, &c[6], &c[8], Ghost(x4));
            let ghost x5 = x4 + pow(b, 5) * (v[6] * v[8]);
            let t6 = self.add_term(&t5, 6, &c[7], &c[8], Ghost(x5));
            t6
        }
    }
}

/// Whether all tables are vectors of `n` elements.
pub(crate) open spec fn sized<F>(tables: Seq<Vec<F>>, m: nat, n: int) -> bool {
    tables.len() == m && forall|j: int| 0 <= j < m ==> (#[trigger] tables[j])@.len() == n
}

/// The value of a table between two entries that differ in the highest bit alone.
fn interpolate_entry<F: FieldElement>(table: &Vec<F>, half: usize, i: usize, t: &F) -> (r: F)
    requires
        half == table.len() / 2,
        i < half,
    ensures
        cong(r.val(), between(vals(table@), i as int, t.val()), F::modulus()),
{
    let diff = table[half + i].sub(&table[i]);
    let step = t.mul(&diff);
    let r = table[i].add(&step);
    proof {
        let p = F::modulus();
        F::modulus_bounds();
        let v = vals(table@);
        let (a, b) = (v[i as int], v[half + i]);
        lemma_residue_sub(b, b, a, a, p);
        lemma_residue_mul(t.val(), t.val(), diff.val(), b - a, p);
        lemma_residue_add(a, a, step.val(), t.val() * (b - a), p);
    }
    r
}

/// The sum of the polynomial over the tables with their highest variable set to `t`.
fn sum_round<F: FieldElement>(h: &Combiner<F>, tables: &Vec<Vec<F>>, half: usize, t: u64) -> (r: F)
    requires
        h.wf(),
        sized(tables@, h.width(), 2 * half),
    ensures
        r.val() == round_sum(h.poly(), vals2(tables@), half as int, t as int) % F::modulus(),
{
    let ghost p = F::modulus();
    let ghost tabs = vals2(tables@);
    let ghost f = |i: int| h.poly()(column_between(tabs, i, t as int));
    let at = F::from_u64(t);
    let mut acc = F::from_u64(0);
    let mut i: usize = 0;
    proof {
        F::modulus_bounds();
        h.lemma_low_degree();
    }
    while i < half
        invariant
            i <= half,
            p == F::modulus(),
            p > 1,
            h.wf(),
            low_degree(h.poly(), h.width(), h.evals(), p),
            sized(tables@, h.width(), 2 * half),
            tabs == vals2(tables@),
            at.val() == t,
            f == (|i: int| h.poly()(column_between(tabs, i, t as int))),
            cong(acc.val(), sum(f, i as int), p),
        decreases half - i,
    {
        let mut c: Vec<F> = Vec::new();
        let ghost want = column_between(tabs, i as int, t as int);
        let mut j: usize = 0;
        while j < tables.len()
            invariant
                j <= tables.len(),
                i < half,
                sized(tables@, h.width(), 2 * half),
                tabs == vals2(tables@),
                at.val() == t,
                p == F::modulus(),
                want == column_between(tabs, i as int, t as int),
                c.len() == j,
                forall|k: int| 0 <= k < j ==> cong((#[trigger] c[k]).val(), want[k], p),
            decreases tables.len() - j,
        {
            assert(tables@[j as int]@.len() == 2 * half);
            c.push(interpolate_entry(&tables[j], half, i, &at));
            j = j + 1;
        }
        let term = h.combine(&c);
        proof {
            let got = vals(c@);
            assert forall|k: int| 0 <= k < got.len() implies cong(#[trigger] got[k], want[k], p) by {
                assert(cong(c@[k].val(), want[k], p));
            }
            assert(columns_cong(got, want, p));
            lemma_residue_add(acc.val(), sum(f, i as int), term.val(), f(i as int), p);
        }
        acc = acc.add(&term);
        i = i + 1;
    }
    proof {
        acc.val_bounds();
        lemma_canonical(acc.val(), sum(f, half as int), p);
    }
    acc
}

/// The prover of a sum-check.
fn sumcheck_prove<E: CurveEngine>(
    ro: &mut E::RO,
    h: &Combiner<E::Base>,
    tables: Vec<Vec<E::Base>>,
    rounds: usize,
) -> (r: SumcheckProof<E>)
    requires
        h.wf(),
        sized(tables@, h.width(), pow2(rounds as nat) as int),
        0 < old(ro).state().len() <= 1,
    ensures
        ({
            let s = (Rounds {
                tables: vals2(tables@),
                state: old(ro).state(),
                point: Seq::empty(),
                polys: Seq::empty(),
            });
            let after = prove_rounds(
                h.poly(),
                h.evals(),
                hash_of::<E>(),
                E::Base::modulus(),
                rounds as nat,
                s,
                rounds as nat,
            );
            &&& final(ro).state() == after.state
            &&& r@ == (SumcheckProofView { point: after.point, polys: after.polys })
            &&& r.point.len() == rounds
            &&& 0 < final(ro).state().len() <= 1
        }),
{
    let ghost p = E::Base::modulus();
    let ghost hash = hash_of::<E>();
    let ghost start = Rounds {
        tables: vals2(tables@),
        state: ro.state(),
        point: Seq::empty(),
        polys: Seq::empty(),
    };
    let mut tables = tables;
    let mut point: Vec<E::Base> = Vec::new();
    let mut polys: Vec<Vec<E::Base>> = Vec::new();
    let num_evals: u64 = if h.first {
        4
    } else {
        3
    };
    let mut k: usize = 0;
    assert(vals(point@) =~= Seq::<int>::empty());
    assert(vals2(polys@) =~= Seq::<Seq<int>>::empty());
    while k < rounds
        invariant
            k <= rounds,
            h.wf(),
            num_evals == h.evals(),
            p == E::Base::modulus(),
            hash == hash_of::<E>(),
            sized(tables@, h.width(), pow2((rounds - k) as nat) as int),
            0 < ro.state().len() <= 1,
            point.len() == k,
            polys.len() == k,
            (Rounds { tables: vals2(tables@), state: ro.state(), point: vals(point@), polys: vals2(polys@) })
                == prove_rounds(h.poly(), h.evals(), hash, p, rounds as nat, start, k as nat),
        decreases rounds - k,
    {
        let ghost before = Rounds {
            tables: vals2(tables@),
            state: ro.state(),
            point: vals(point@),
            polys: vals2(polys@),
        };
        let ghost n = pow2((rounds - k - 1) as nat) as int;
        proof {
            lemma_pow2_unfold((rounds - k) as nat);
            assert(h.width() > 0);
            assert(tables@[0]@.len() == 2 * n);
        }
        let half: usize = tables[0].len() / 2;
        let mut evals: Vec<E::Base> = Vec::new();
        let mut t: u64 = 0;
        while t < num_evals
            invariant
                t <= num_evals,
                h.wf(),
                p == E::Base::modulus(),
                half == n,
                sized(tables@, h.width(), 2 * half),
                before.tables == vals2(tables@),
                evals.len() == t,
                forall|i: int|
                    0 <= i < t ==> (#[trigger] evals[i]).val() == round_sum(h.poly(), before.tables, n, i) % p,
            decreases num_evals - t,
        {
            evals.push(sum_round(h, &tables, half, t));
            t = t + 1;
        }
        let ghost sent = round_evals(h.poly(), before.tables, n, h.evals(), p);
        assert(vals(evals@) =~= sent);
        absorb_all(ro, &evals);
        let r_i = ro.squeeze(NUM_CHALLENGE_BITS);
        let ghost old_point = point@;
        let ghost old_polys = polys@;
        point.push(r_i);
        polys.push(evals);
        let ghost unbound = tables@;
        let m = tables.len();
        let mut j: usize = 0;
        while j < m
            invariant
                j <= m,
                m == tables.len(),
                m == unbound.len(),
                p == E::Base::modulus(),
                forall|i: int|
                    0 <= i < j ==> vals((#[trigger] tables[i])@) == bound_table(vals(unbound[i]@), r_i.val(), p),
                forall|i: int| j <= i < m ==> #[trigger] tables[i] == unbound[i],
            decreases m - j,
        {
            bind_table(&mut tables[j], &r_i);
            j = j + 1;
        }
        proof {
            let after = prove_round(h.poly(), h.evals(), hash, p, n, before);
            assert(vals2(tables@) =~= after.tables) by {
                assert forall|i: int| 0 <= i < m implies vals2(tables@)[i] == #[trigger] after.tables[i] by {
                    assert(vals(tables@[i]@) == bound_table(vals(unbound[i]@), r_i.val(), p));
                }
            }
            assert(vals(point@) =~= after.point);
            assert(vals2(polys@) =~= after.polys);
            assert forall|i: int| 0 <= i < m implies (#[trigger] tables@[i])@.len() == n by {
                assert(vals(tables@[i]@).len() == bound_table(vals(unbound[i]@), r_i.val(), p).len());
                assert(unbound[i]@.len() == 2 * n);
            }
        }
        k = k + 1;
    }
    SumcheckProof { point, polys }
}

/// What a sum-check proof leads to: the state of the oracle, the last claim and the point.
pub open spec fn checked_proof(
    points: Seq<int>,
    hash: spec_fn(Seq<int>) -> int,
    p: int,
    state: Seq<int>,
    claim: int,
    proof_: SumcheckProofView,
) -> Option<Check> {
    if proof_.point.len() != proof_.polys.len() {
        None
    } else {
        match check_rounds(
            points,
            hash,
            p,
            Check { state, claim, point: Seq::empty() },
            proof_.polys,
            proof_.polys.len(),
        ) {
            Some(c) => if c.point == proof_.point {
                Some(c)
            } else {
                None
            },
            None => None,
        }
    }
}

proof fn lemma_check_none(
    points: Seq<int>,
    hash: spec_fn(Seq<int>) -> int,
    p: int,
    c: Check,
    polys: Seq<Seq<int>>,
    k: nat,
    n: nat,
)
    requires
        k <= n,
        check_rounds(points, hash, p, c, polys, k) is None,
    ensures
        check_rounds(points, hash, p, c, polys, n) is None,
    decreases n,
{
    if k < n {
        lemma_check_none(points, hash, p, c, polys, k, (n - 1) as nat);
    }
}

/// The verifier of a sum-check.
fn sumcheck_verify<E: CurveEngine>(
    ro: &mut E::RO,
    claim: E::Base,
    proof_: &SumcheckProof<E>,
    eval_points: &Vec<E::Base>,
) -> (r: Result<(Vec<E::Base>, E::Base), NovaError>)
    requires
        2 <= eval_points.len() < MAX_ABSORBED,
        old(ro).state().len() + eval_points.len() <= MAX_ABSORBED,
    ensures
        ({
            let c = checked_proof(
                vals(eval_points@),
                hash_of::<E>(),
                E::Base::modulus(),
                old(ro).state(),
                claim.val(),
                proof_@,
            );
            match r {
                Ok((point, last)) => {
                    &&& c == Some(Check { state: final(ro).state(), claim: last.val(), point: vals(point@) })
                    &&& final(ro).state().len() == 1 || final(ro).state() == old(ro).state()
                },
                Err(e) => c is None && e == NovaError::InvalidSumcheckProof,
            }
        }),
{
    let ghost p = E::Base::modulus();
    let ghost hash = hash_of::<E>();
    let ghost pts = vals(eval_points@);
    let ghost start = Check { state: ro.state(), claim: claim.val(), point: Seq::empty() };
    let ghost polys = proof_@.polys;
    if proof_.point.len() != proof_.polys.len() {
        return Err(NovaError::InvalidSumcheckProof);
    }
    let mut current = claim;
    let mut point: Vec<E::Base> = Vec::new();
    let mut k: usize = 0;
    assert(vals(point@) =~= Seq::<int>::empty());
    while k < proof_.polys.len()
        invariant
            k <= proof_.polys.len(),
            p == E::Base::modulus(),
            hash == hash_of::<E>(),
            pts == vals(eval_points@),
            2 <= eval_points.len() < MAX_ABSORBED,
            old(ro).state().len() + eval_points.len() <= MAX_ABSORBED,
            polys == proof_@.polys,
            ro.state().len() == 1 || ro.state() == old(ro).state(),
            proof_.point.len() == proof_.polys.len(),
            start == (Check { state: old(ro).state(), claim: claim.val(), point: Seq::empty() }),
            check_rounds(pts, hash, p, start, polys, k as nat) == Some(
                Check { state: ro.state(), claim: current.val(), point: vals(point@) },
            ),
        decreases proof_.polys.len() - k,
    {
        let evals = &proof_.polys[k];
        let ghost before = Check { state: ro.state(), claim: current.val(), point: vals(point@) };
        assert(polys[k as int] == vals(evals@));
        if evals.len() != eval_points.len() {
            proof {
                assert(check_rounds(pts, hash, p, start, polys, (k + 1) as nat) is None);
                lemma_check_none(pts, hash, p, start, polys, (k + 1) as nat, polys.len());
            }
            return Err(NovaError::InvalidSumcheckProof);
        }
        let both = evals[0].add(&evals[1]);
        if !both.equals(&current) {
            proof {
                assert(check_rounds(pts, hash, p, start, polys, (k + 1) as nat) is None);
                lemma_check_none(pts, hash, p, start, polys, (k + 1) as nat, polys.len());
            }
            return Err(NovaError::InvalidSumcheckProof);
        }
        absorb_all(ro, evals);
        let r_i = ro.squeeze(NUM_CHALLENGE_BITS);
        match interpolate(eval_points, evals, &r_i) {
            Err(e) => {
                proof {
                    assert(check_rounds(pts, hash, p, start, polys, (k + 1) as nat) is None);
                    lemma_check_none(pts, hash, p, start, polys, (k + 1) as nat, polys.len());
                }
                return Err(e);
            },
            Ok(next) => {
                let ghost old_point = vals(point@);
                current = next;
                point.push(r_i);
                assert(vals(point@) =~= old_point.push(r_i.val()));
            },
        }
        k = k + 1;
    }
    if !equal_vecs(&point, &proof_.point) {
        return Err(NovaError::InvalidSumcheckProof);
    }
    Ok((point, current))
}

/// The points 0, 1 and so on.
pub(crate) fn small_points<F: FieldElement>(n: u64) -> (r: Vec<F>)
    ensures
        vals(r@) == first_points(n as nat),
{
    let mut r: Vec<F> = Vec::new();
    let mut i: u64 = 0;
    while i < n
        invariant
            i <= n,
            r.len() == i,
            forall|k: int| 0 <= k < i ==> (#[trigger] r[k]).val() == k,
        decreases n - i,
    {
        r.push(F::from_u64(i));
        i = i + 1;
    }
    assert(vals(r@) =~= first_points(n as nat));
    r
}

/// The weights of all indices at a point.
fn eq_table<F: FieldElement>(point: &Vec<F>) -> (r: Vec<F>)
    requires
        pow2(point.len() as nat) <= usize::MAX,
    ensures
        vals(r@) == eq_table_of(vals(point@), F::modulus()),
{
    let size = pow2_usize(point.len());
    let mut r: Vec<F> = Vec::new();
    let mut i: usize = 0;
    while i < size
        invariant
            i <= size,
            r.len() == i,
            forall|k: int| 0 <= k < i ==> (#[trigger] r[k]).val() == eq_weight(k, vals(point@)) % F::modulus(),
        decreases size - i,
    {
        r.push(eq_at(i, point));
        i = i + 1;
    }
    assert(vals(r@) =~= eq_table_of(vals(point@), F::modulus()));
    r
}

/// The sum over a bucket, each value weighted by its index at a point.
fn sum_bucket_weights<F: FieldElement>(b: &Vec<(usize, F)>, point: &Vec<F>, Ghost(spec): Ghost<Seq<(int, int)>>) -> (r: F)
    requires
        bucket_is(b@, spec),
    ensures
        cong(r.val(), bucket_sum(spec, weights(vals(point@))), F::modulus()),
{
    let ghost p = F::modulus();
    let ghost w = weights(vals(point@));
    let ghost f = |k: int| spec[k].1 * w(spec[k].0);
    let mut acc = F::from_u64(0);
    let mut i: usize = 0;
    proof {
        F::modulus_bounds();
    }
    while i < b.len()
        invariant
            i <= b.len(),
            p == F::modulus(),
            p > 1,
            bucket_is(b@, spec),
            w == weights(vals(point@)),
            f == (|k: int| spec[k].1 * w(spec[k].0)),
            cong(acc.val(), sum(f, i as int), p),
        decreases b.len() - i,
    {
        let (idx, val) = b[i];
        let weight = eq_at(idx, point);
        let term = val.mul(&weight);
        proof {
            assert(b@[i as int].0 == spec[i as int].0 && b@[i as int].1.val() == spec[i as int].1);
            lemma_cong_mod(w(idx as int), p);
            lemma_residue_mul(val.val(), val.val(), weight.val(), w(idx as int), p);
            lemma_residue_add(acc.val(), sum(f, i as int), term.val(), f(i as int), p);
        }
        acc = acc.add(&term);
        i = i + 1;
    }
    acc
}

/// The sum over a bucket, each value times the entry of a vector.
fn sum_bucket_values<F: FieldElement>(b: &Vec<(usize, F)>, z: &Vec<F>, Ghost(spec): Ghost<Seq<(int, int)>>) -> (r: F)
    requires
        bucket_is(b@, spec),
    ensures
        cong(r.val(), bucket_sum(spec, values(vals(z@))), F::modulus()),
{
    let ghost p = F::modulus();
    let ghost w = values(vals(z@));
    let ghost f = |k: int| spec[k].1 * w(spec[k].0);
    let mut acc = F::from_u64(0);
    let mut i: usize = 0;
    proof {
        F::modulus_bounds();
    }
    while i < b.len()
        invariant
            i <= b.len(),
            p == F::modulus(),
            p > 1,
            bucket_is(b@, spec),
            w == values(vals(z@)),
            f == (|k: int| spec[k].1 * w(spec[k].0)),
            cong(acc.val(), sum(f, i as int), p),
        decreases b.len() - i,
    {
        let (idx, val) = b[i];
        let z_idx = get_or_zero(z, idx);
        let term = val.mul(&z_idx);
        proof {
            assert(b@[i as int].0 == spec[i as int].0 && b@[i as int].1.val() == spec[i as int].1);
            lemma_residue_mul(val.val(), val.val(), z_idx.val(), w(idx as int), p);
            lemma_residue_add(acc.val(), sum(f, i as int), term.val(), f(i as int), p);
        }
        acc = acc.add(&term);
        i = i + 1;
    }
    acc
}

impl<E: CurveEngine> GlobalStructure<E> {
    /// One row of the folded matrices, weighted by the columns at a point.
    fn folded_row_at(&self, coeffs: &Vec<E::Base>, which: usize, row: usize, r_y: &Vec<E::Base>) -> (r: E::Base)
        requires
            self.wf(),
            coeffs.len() <= self@.len(),
            which < 3,
            row < pow2(self.s_max as nat),
        ensures
            r.val() == folded_row(self@.mats_of(which as int), vals(coeffs@), row as int, weights(vals(r_y@)))
                % E::Base::modulus(),
    {
        let ghost p = E::Base::modulus();
        let ghost w = weights(vals(r_y@));
        let ghost mats = self@.mats_of(which as int);
        let ghost c = vals(coeffs@);
        let ghost f = |i: int| c[i] * row_sum(mats[i], row as int, w);
        let mut acc = E::Base::from_u64(0);
        let mut i: usize = 0;
        proof {
            E::Base::modulus_bounds();
        }
        while i < coeffs.len()
            invariant
                i <= coeffs.len(),
                self.wf(),
                coeffs.len() <= self@.len(),
                which < 3,
                row < pow2(self.s_max as nat),
                p == E::Base::modulus(),
                p > 1,
                w == weights(vals(r_y@)),
                mats == self@.mats_of(which as int),
                c == vals(coeffs@),
                f == (|i: int| c[i] * row_sum(mats[i], row as int, w)),
                cong(acc.val(), sum(f, i as int), p),
            decreases coeffs.len() - i,
        {
            let buckets = &self.predicates[i].row_buckets[which];
            let ghost m = entries(self.predicates@[i as int].mats[which as int]@);
            assert(buckets_are(buckets@, m, pow2(self.s_max as nat) as int));
            assert(m == mats[i as int]);
            assert(bucket_is(buckets@[row as int]@, row_bucket(m, row as int)));
            let part = sum_bucket_weights(&buckets[row], r_y, Ghost(row_bucket(m, row as int)));
            let term = coeffs[i].mul(&part);
            proof {
                lemma_bucket_sum(m, row as int, w);
                lemma_residue_mul(c[i as int], c[i as int], part.val(), row_sum(m, row as int, w), p);
                lemma_residue_add(acc.val(), sum(f, i as int), term.val(), f(i as int), p);
            }
            acc = acc.add(&term);
            i = i + 1;
        }
        proof {
            acc.val_bounds();
            lemma_canonical(acc.val(), sum(f, c.len() as int), p);
        }
        acc
    }

    /// One column of the folded matrices, weighted by the rows at a point.
    fn folded_col_at(&self, coeffs: &Vec<E::Base>, which: usize, col: usize, r_x: &Vec<E::Base>) -> (r: E::Base)
        requires
            self.wf(),
            coeffs.len() <= self@.len(),
            which < 3,
            col < pow2(self.s_prime_max as nat),
        ensures
            r.val() == folded_col(self@.mats_of(which as int), vals(coeffs@), col as int, weights(vals(r_x@)))
                % E::Base::modulus(),
    {
        let ghost p = E::Base::modulus();
        let ghost w = weights(vals(r_x@));
        let ghost mats = self@.mats_of(which as int);
        let ghost c = vals(coeffs@);
        let ghost f = |i: int| c[i] * col_sum(mats[i], col as int, w);
        let mut acc = E::Base::from_u64(0);
        let mut i: usize = 0;
        proof {
            E::Base::modulus_bounds();
        }
        while i < coeffs.len()
            invariant
                i <= coeffs.len(),
                self.wf(),
                coeffs.len() <= self@.len(),
                which < 3,
                col < pow2(self.s_prime_max as nat),
                p == E::Base::modulus(),
                p > 1,
                w == weights(vals(r_x@)),
                mats == self@.mats_of(which as int),
                c == vals(coeffs@),
                f == (|i: int| c[i] * col_sum(mats[i], col as int, w)),
                cong(acc.val(), sum(f, i as int), p),
            decreases coeffs.len() - i,
        {
            let buckets = &self.predicates[i].col_buckets[which];
            let ghost m = entries(self.predicates@[i as int].mats[which as int]@);
            let ghost mt = transposed(m);
            assert(buckets_are(buckets@, mt, pow2(self.s_prime_max as nat) as int));
            assert(m == mats[i as int]);
            assert(bucket_is(buckets@[col as int]@, row_bucket(mt, col as int)));
            let part = sum_bucket_weights(&buckets[col], r_x, Ghost(row_bucket(mt, col as int)));
            let term = coeffs[i].mul(&part);
            proof {
                lemma_bucket_sum(mt, col as int, w);
                lemma_residue_mul(c[i as int], c[i as int], part.val(), col_sum(m, col as int, w), p);
                lemma_residue_add(acc.val(), sum(f, i as int), term.val(), f(i as int), p);
            }
            acc = acc.add(&term);
            i = i + 1;
        }
        proof {
            acc.val_bounds();
            lemma_canonical(acc.val(), sum(f, c.len() as int), p);
        }
        acc
    }

    /// The rows of folded matrices, each weighted by the columns at a point.
    fn row_table_eval_folded(&self, coeffs: &Vec<E::Base>, which: usize, r_y: &Vec<E::Base>) -> (r: Vec<E::Base>)
        requires
            self.wf(),
            coeffs.len() <= self@.len(),
            which < 3,
        ensures
            vals(r@) == row_table_folded(self@, vals(coeffs@), which as int, vals(r_y@), E::Base::modulus()),
    {
        let size = pow2_usize(self.s_max);
        let mut r: Vec<E::Base> = Vec::new();
        let mut row: usize = 0;
        while row < size
            invariant
                row <= size,
                size == pow2(self.s_max as nat),
                self.wf(),
                coeffs.len() <= self@.len(),
                which < 3,
                r.len() == row,
                forall|k: int|
                    0 <= k < row ==> (#[trigger] r[k]).val() == folded_row(
                        self@.mats_of(which as int),
                        vals(coeffs@),
                        k,
                        weights(vals(r_y@)),
                    ) % E::Base::modulus(),
            decreases size - row,
        {
            r.push(self.folded_row_at(coeffs, which, row, r_y));
            row = row + 1;
        }
        assert(vals(r@) =~= row_table_folded(self@, vals(coeffs@), which as int, vals(r_y@), E::Base::modulus()));
        r
    }

    /// The rows of a matrix of a predicate times a vector.
    fn row_table_compressed_predicate(&self, predicate_id: usize, which: usize, z: &Vec<E::Base>) -> (r: Vec<E::Base>)
        requires
            self.wf(),
            predicate_id < self@.len(),
            which < 3,
        ensures
            vals(r@) == row_table_compressed(self@, predicate_id as int, which as int, vals(z@), E::Base::modulus()),
    {
        let ghost p = E::Base::modulus();
        let ghost m = self@.mats[predicate_id as int][which as int];
        let ghost w = values(vals(z@));
        let buckets = &self.predicates[predicate_id].row_buckets[which];
        assert(m == entries(self.predicates@[predicate_id as int].mats[which as int]@));
        let size = pow2_usize(self.s_max);
        let mut r: Vec<E::Base> = Vec::new();
        let mut row: usize = 0;
        proof {
            E::Base::modulus_bounds();
        }
        while row < size
            invariant
                row <= size,
                size == pow2(self.s_max as nat),
                p == E::Base::modulus(),
                p > 1,
                w == values(vals(z@)),
                buckets_are(buckets@, m, size as int),
                r.len() == row,
                forall|k: int| 0 <= k < row ==> (#[trigger] r[k]).val() == row_sum(m, k, w) % p,
            decreases size - row,
        {
            assert(bucket_is(buckets@[row as int]@, row_bucket(m, row as int)));
            let part = sum_bucket_values(&buckets[row], z, Ghost(row_bucket(m, row as int)));
            proof {
                lemma_bucket_sum(m, row as int, w);
                part.val_bounds();
                lemma_canonical(part.val(), row_sum(m, row as int, w), p);
            }
            r.push(part);
            row = row + 1;
        }
        assert(vals(r@) =~= row_table_compressed(self@, predicate_id as int, which as int, vals(z@), p));
        r
    }

    /// The columns of folded matrices, each weighted by the rows at a point.
    fn col_table_eval_folded(&self, coeffs: &Vec<E::Base>, which: usize, r_x: &Vec<E::Base>) -> (r: Vec<E::Base>)
        requires
            self.wf(),
            coeffs.len() <= self@.len(),
            which < 3,
        ensures
            vals(r@) == col_table_folded(self@, vals(coeffs@), which as int, vals(r_x@), E::Base::modulus()),
    {
        let size = pow2_usize(self.s_prime_max);
        let mut r: Vec<E::Base> = Vec::new();
        let mut col: usize = 0;
        while col < size
            invariant
                col <= size,
                size == pow2(self.s_prime_max as nat),
                self.wf(),
                coeffs.len() <= self@.len(),
                which < 3,
                r.len() == col,
                forall|k: int|
                    0 <= k < col ==> (#[trigger] r[k]).val() == folded_col(
                        self@.mats_of(which as int),
                        vals(coeffs@),
                        k,
                        weights(vals(r_x@)),
                    ) % E::Base::modulus(),
            decreases size - col,
        {
            r.push(self.folded_col_at(coeffs, which, col, r_x));
            col = col + 1;
        }
        assert(vals(r@) =~= col_table_folded(self@, vals(coeffs@), which as int, vals(r_x@), E::Base::modulus()));
        r
    }

    /// The columns of a matrix of a predicate, each weighted by the rows at a point.
    fn col_table_eval_predicate(&self, predicate_id: usize, which: usize, r_x: &Vec<E::Base>) -> (r: Vec<E::Base>)
        requires
            self.wf(),
            predicate_id < self@.len(),
            which < 3,
        ensures
            vals(r@) == col_table_predicate(self@, predicate_id as int, which as int, vals(r_x@), E::Base::modulus()),
    {
        let ghost p = E::Base::modulus();
        let ghost m = self@.mats[predicate_id as int][which as int];
        let ghost mt = transposed(m);
        let ghost w = weights(vals(r_x@));
        let buckets = &self.predicates[predicate_id].col_buckets[which];
        assert(m == entries(self.predicates@[predicate_id as int].mats[which as int]@));
        let size = pow2_usize(self.s_prime_max);
        let mut r: Vec<E::Base> = Vec::new();
        let mut col: usize = 0;
        proof {
            E::Base::modulus_bounds();
        }
        while col < size
            invariant
                col <= size,
                size == pow2(self.s_prime_max as nat),
                p == E::Base::modulus(),
                p > 1,
                mt == transposed(m),
                w == weights(vals(r_x@)),
                buckets_are(buckets@, mt, size as int),
                r.len() == col,
                forall|k: int| 0 <= k < col ==> (#[trigger] r[k]).val() == col_sum(m, k, w) % p,
            decreases size - col,
        {
            assert(bucket_is(buckets@[col as int]@, row_bucket(mt, col as int)));
            let part = sum_bucket_weights(&buckets[col], r_x, Ghost(row_bucket(mt, col as int)));
            proof {
                lemma_bucket_sum(mt, col as int, w);
                part.val_bounds();
                lemma_canonical(part.val(), col_sum(m, col as int, w), p);
            }
            r.push(part);
            col = col + 1;
        }
        assert(vals(r@) =~= col_table_predicate(self@, predicate_id as int, which as int, vals(r_x@), p));
        r
    }

    /// A vector, followed by zeros.
    fn z_table(&self, z: &Vec<E::Base>) -> (r: Vec<E::Base>)
        requires
            self.wf(),
        ensures
            vals(r@) == z_table_of(self@, vals(z@)),
    {
        let size = pow2_usize(self.s_prime_max);
        let r = crate::relation::resize(z, size);
        assert(vals(r@) =~= z_table_of(self@, vals(z@)));
        r
    }
}

pub open spec fn min_len(a: Seq<int>, b: Seq<int>) -> int {
    if a.len() <= b.len() {
        a.len() as int
    } else {
        b.len() as int
    }
}

/// What the last claim of the first sum-check has to be.
pub open spec fn claim_x(
    gamma: int,
    r_x: Seq<int>,
    alpha: Seq<int>,
    point: Seq<int>,
    sigmas: Seq<int>,
    taus: Seq<int>,
) -> int {
    combine_x(
        gamma,
        seq![
            eq_points(r_x, point, min_len(r_x, point)),
            sigmas[0],
            sigmas[1],
            sigmas[2],
            eq_points(alpha, point, min_len(alpha, point)),
            taus[0],
            taus[1],
            taus[2],
        ],
    )
}

/// What the last claim of the second sum-check has to be.
pub open spec fn claim_y(delta: int, r_y: Seq<int>, point: Seq<int>, epsilons: Seq<int>, thetas: Seq<int>) -> int {
    combine_y(
        delta,
        seq![
            eq_points(r_y, point, min_len(r_y, point)),
            epsilons[0],
            epsilons[1],
            epsilons[2],
            epsilons[3],
            thetas[0],
            thetas[1],
            thetas[2],
            thetas[3],
        ],
    )
}

/// The product that is one where two points of the hypercube agree.
pub(crate) fn eval_eq_points<F: FieldElement>(a: &Vec<F>, b: &Vec<F>) -> (r: F)
    ensures
        r.val() == eq_points(vals(a@), vals(b@), min_len(vals(a@), vals(b@))) % F::modulus(),
{
    let ghost p = F::modulus();
    let ghost (x, y) = (vals(a@), vals(b@));
    let one = F::from_u64(1);
    let mut acc = one;
    let mut i: usize = 0;
    proof {
        F::modulus_bounds();
    }
    while i < a.len() && i < b.len()
        invariant
            i <= a.len(),
            i <= b.len(),
            p == F::modulus(),
            p > 1,
            x == vals(a@),
            y == vals(b@),
            one.val() == 1,
            cong(acc.val(), eq_points(x, y, i as int), p),
        decreases a.len() - i,
    {
        let both = a[i].mul(&b[i]);
        let not_a = one.sub(&a[i]);
        let not_b = one.sub(&b[i]);
        let neither = not_a.mul(&not_b);
        let factor = both.add(&neither);
        proof {
            let (u, v) = (x[i as int], y[i as int]);
            lemma_residue_mul(u, u, v, v, p);
            lemma_residue_sub(1, 1, u, u, p);
            lemma_residue_sub(1, 1, v, v, p);
            lemma_residue_mul(not_a.val(), 1 - u, not_b.val(), 1 - v, p);
            lemma_residue_add(both.val(), u * v, neither.val(), (1 - u) * (1 - v), p);
            lemma_residue_mul(acc.val(), eq_points(x, y, i as int), factor.val(), u * v + (1 - u) * (1 - v), p);
        }
        acc = acc.mul(&factor);
        i = i + 1;
    }
    proof {
        acc.val_bounds();
        lemma_canonical(acc.val(), eq_points(x, y, min_len(x, y)), p);
    }
    acc
}

/// Adds a power of a challenge times an element.
fn add_power<F: FieldElement>(
    acc: &F,
    powers: &Vec<F>,
    k: usize,
    a: &F,
    Ghost(base): Ghost<int>,
    Ghost(x): Ghost<int>,
) -> (r: F)
    requires
        k < powers.len(),
        powers[k as int].val() == pow(base, k as nat) % F::modulus(),
        cong(acc.val(), x, F::modulus()),
    ensures
        cong(r.val(), x + pow(base, k as nat) * a.val(), F::modulus()),
{
    let term = powers[k].mul(a);
    proof {
        let p = F::modulus();
        F::modulus_bounds();
        let g = pow(base, k as nat);
        lemma_cong_mod(g, p);
        lemma_residue_mul(powers[k as int].val(), g, a.val(), a.val(), p);
        lemma_residue_add(acc.val(), x, term.val(), g * a.val(), p);
    }
    acc.add(&term)
}

impl<E: CurveEngine> GlobalStructure<E> {
    /// The sum that the first sum-check proves, from the running claims.
    pub fn compute_sum_x(&self, claims: &Vec<E::Base>, gamma: &E::Base) -> (r: E::Base)
        requires
            claims.len() >= 3,
        ensures
            r.val() == sum_x(gamma.val(), vals(claims@)) % E::Base::modulus(),
    {
        let ghost p = E::Base::modulus();
        let ghost g = gamma.val();
        let ghost v = vals(claims@);
        let pows = powers(gamma, 3);
        let t1 = add_power(&claims[0], &pows, 1, &claims[1], Ghost(g), Ghost(v[0]));
        let t2 = add_power(&t1, &pows, 2, &claims[2], Ghost(g), Ghost(v[0] + pow(g, 1) * v[1]));
        proof {
            t2.val_bounds();
            lemma_canonical(t2.val(), sum_x(g, v), p);
        }
        t2
    }

    /// What the last claim of the first sum-check has to be, from the running point of the rows.
    pub fn compute_cx(
        &self,
        r_x: &Vec<E::Base>,
        sigmas: &Vec<E::Base>,
        taus: &Vec<E::Base>,
        gamma: &E::Base,
        alpha: &Vec<E::Base>,
        r_x_prime: &Vec<E::Base>,
    ) -> (r: E::Base)
        requires
            sigmas.len() >= 3,
            taus.len() >= 3,
        ensures
            r.val() == claim_x(gamma.val(), vals(r_x@), vals(alpha@), vals(r_x_prime@), vals(sigmas@), vals(taus@))
                % E::Base::modulus(),
    {
        let ghost p = E::Base::modulus();
        let eq_running = eval_eq_points(r_x, r_x_prime);
        let eq_alpha = eval_eq_points(alpha, r_x_prime);
        let mut c: Vec<E::Base> = Vec::new();
        c.push(eq_running);
        c.push(sigmas[0]);
        c.push(sigmas[1]);
        c.push(sigmas[2]);
        c.push(eq_alpha);
        c.push(taus[0]);
        c.push(taus[1]);
        c.push(taus[2]);
        let h = Combiner::for_x(gamma);
        let r = h.combine(&c);
        proof {
            E::Base::modulus_bounds();
            h.lemma_low_degree();
            let (a, b, pt) = (vals(r_x@), vals(alpha@), vals(r_x_prime@));
            let (ss, ts) = (vals(sigmas@), vals(taus@));
            let want = seq![
                eq_points(a, pt, min_len(a, pt)),
                ss[0],
                ss[1],
                ss[2],
                eq_points(b, pt, min_len(b, pt)),
                ts[0],
                ts[1],
                ts[2],
            ];
            lemma_cong_mod(want[0], p);
            lemma_cong_mod(want[4], p);
            assert(columns_cong(vals(c@), want, p));
            r.val_bounds();
            lemma_canonical(r.val(), combine_x(gamma.val(), want), p);
        }
        r
    }

    /// The sum that the second sum-check proves, from the running claims.
    pub fn compute_sum_y(
        &self,
        claims: &Vec<E::Base>,
        sigmas: &Vec<E::Base>,
        taus: &Vec<E::Base>,
        delta: &E::Base,
    ) -> (r: E::Base)
        requires
            claims.len() >= 4,
            sigmas.len() >= 3,
            taus.len() >= 3,
        ensures
            r.val() == sum_y(delta.val(), vals(claims@), vals(sigmas@), vals(taus@)) % E::Base::modulus(),
    {
        let ghost p = E::Base::modulus();
        let ghost d = delta.val();
        let ghost (v, ss, ts) = (vals(claims@), vals(sigmas@), vals(taus@));
        let pows = powers(delta, 7);
        let ghost x0 = ss[0];
        let t1 = add_power(&sigmas[0], &pows, 1, &sigmas[1], Ghost(d), Ghost(x0));
        let ghost x1 = x0 + pow(d, 1) * ss[1];
        let t2 = add_power(&t1, &pows, 2, &sigmas[2], Ghost(d), Ghost(x1));
        let ghost x2 = x1 + pow(d, 2) * ss[2];
        let t3 = add_power(&t2, &pows, 3, &claims[3], Ghost(d), Ghost(x2));
        let ghost x3 = x2 + pow(d, 3) * v[3];
        let t4 = add_power(&t3, &pows, 4, &taus[0], Ghost(d), Ghost(x3));
        let ghost x4 = x3 + pow(d, 4) * ts[0];
        let t5 = add_power(&t4, &pows, 5, &taus[1], Ghost(d), Ghost(x4));
        let ghost x5 = x4 + pow(d, 5) * ts[1];
        let t6 = add_power(&t5, &pows, 6, &taus[2], Ghost(d), Ghost(x5));
        proof {
            t6.val_bounds();
            lemma_canonical(t6.val(), sum_y(d, v, ss, ts), p);
        }
        t6
    }

    /// What the last claim of the second sum-check has to be, from the running point of the columns.
    pub fn compute_cy(
        &self,
        r_y: &Vec<E::Base>,
        epsilons: &Vec<E::Base>,
        thetas: &Vec<E::Base>,
        delta: &E::Base,
        r_y_prime: &Vec<E::Base>,
    ) -> (r: E::Base)
        requires
            epsilons.len() >= 4,
            thetas.len() >= 4,
        ensures
            r.val() == claim_y(delta.val(), vals(r_y@), vals(r_y_prime@), vals(epsilons@), vals(thetas@))
                % E::Base::modulus(),
    {
        let ghost p = E::Base::modulus();
        let eq_ry = eval_eq_points(r_y, r_y_prime);
        let mut c: Vec<E::Base> = Vec::new();
        c.push(eq_ry);
        c.push(epsilons[0]);
        c.push(epsilons[1]);
        c.push(epsilons[2]);
        c.push(epsilons[3]);
        c.push(thetas[0]);
        c.push(thetas[1]);
        c.push(thetas[2]);
        c.push(thetas[3]);
        let h = Combiner::for_y(delta);
        let r = h.combine(&c);
        proof {
            E::Base::modulus_bounds();
            h.lemma_low_degree();
            let (a, pt) = (vals(r_y@), vals(r_y_prime@));
            let (es, ts) = (vals(epsilons@), vals(thetas@));
            let want = seq![
                eq_points(a, pt, min_len(a, pt)),
                es[0],
                es[1],
                es[2],
                es[3],
                ts[0],
                ts[1],
                ts[2],
                ts[3],
            ];
            lemma_cong_mod(want[0], p);
            assert(columns_cong(vals(c@), want, p));
            r.val_bounds();
            lemma_canonical(r.val(), combine_y(delta.val(), want), p);
        }
        r
    }
}

/// Whether the parts of a proof have the lengths that the structure asks for.
pub open spec fn well_shaped(s: StructureView, proof_: NIFSView) -> bool {
    &&& proof_.sigmas.len() == 3
    &&& proof_.taus.len() == 3
    &&& proof_.epsilons.len() == 4
    &&& proof_.thetas.len() == 4
    &&& proof_.sc_proof_x.polys.len() == s.s_max
    &&& proof_.sc_proof_y.polys.len() == s.s_prime_max
}

/// The challenges that start a fold, and the state of the oracle behind them.
pub struct Opening {
    pub gamma: int,
    pub alpha: Seq<int>,
    pub state: Seq<int>,
}

/// The challenges that start a fold, from what the oracle has absorbed.
pub open spec fn opening<E: CurveEngine>(s: StructureView, start: Seq<int>) -> Opening {
    let hash = hash_of::<E>();
    let after = seq![hash(start)];
    Opening {
        gamma: challenge(hash, start),
        alpha: squeezed(hash, after, s.s_max),
        state: squeezed_state(hash, after, s.s_max),
    }
}

/// What a verifier that accepts comes to: the new points of the rows and of the columns, and the last challenge.
pub struct Accepted {
    pub r_x: Seq<int>,
    pub r_y: Seq<int>,
    pub rho: int,
}

/// What the verifier of a fold comes to, unless it rejects.
pub open spec fn accepted<E: CurveEngine>(
    s: StructureView,
    start: Seq<int>,
    r_x: Seq<int>,
    r_y: Seq<int>,
    v: Seq<int>,
    proof_: NIFSView,
) -> Option<Accepted> {
    let hash = hash_of::<E>();
    let p = E::Base::modulus();
    let o = opening::<E>(s, start);
    if !well_shaped(s, proof_) {
        None
    } else {
        match checked_proof(first_points(4), hash, p, o.state, sum_x(o.gamma, v) % p, proof_.sc_proof_x) {
            None => None,
            Some(x) => {
                let new_r_x = reversed(x.point);
                let delta = challenge(hash, x.state);
                if x.claim != claim_x(o.gamma, r_x, o.alpha, new_r_x, proof_.sigmas, proof_.taus) % p {
                    None
                } else {
                    match checked_proof(
                        first_points(3),
                        hash,
                        p,
                        seq![hash(x.state)],
                        sum_y(delta, v, proof_.sigmas, proof_.taus) % p,
                        proof_.sc_proof_y,
                    ) {
                        None => None,
                        Some(y) => {
                            let new_r_y = reversed(y.point);
                            if y.claim != claim_y(delta, r_y, new_r_y, proof_.epsilons, proof_.thetas) % p {
                                None
                            } else {
                                Some(Accepted { r_x: new_r_x, r_y: new_r_y, rho: challenge(hash, y.state) })
                            }
                        },
                    }
                }
            },
        }
    }
}

/// The folded instance that the verifier accepts, unless it rejects.
pub open spec fn verified<E: CurveEngine>(
    s: StructureView,
    pp_digest: int,
    id: int,
    u1: FoldedInstanceView,
    u2: InstanceView,
    proof_: NIFSView,
) -> Option<FoldedInstanceView> {
    let p = E::Base::modulus();
    let q = E::Scalar::modulus();
    match accepted::<E>(s, absorbed_inputs::<E>(s, pp_digest, id, u2), u1.r_x, u1.r_y, u1.v, proof_) {
        None => None,
        Some(a) => Some(
            fold_instance(
                s,
                id,
                u1,
                u2,
                a.rho,
                a.rho % q,
                a.r_x,
                a.r_y,
                combined(proof_.epsilons, proof_.thetas, a.rho, p),
                p,
                q,
            ),
        ),
    }
}

/// Squeezes the challenges that start a fold.
pub(crate) fn open_fold<E: CurveEngine>(ro: &mut E::RO, structure: &GlobalStructure<E>) -> (r: (E::Base, Vec<E::Base>))
    requires
        0 < old(ro).state().len() <= MAX_ABSORBED,
    ensures
        ({
            let o = opening::<E>(structure@, old(ro).state());
            &&& final(ro).state() == o.state
            &&& final(ro).state().len() == 1
            &&& r.0.val() == o.gamma
            &&& vals(r.1@) == o.alpha
        }),
{
    let gamma = ro.squeeze(NUM_CHALLENGE_BITS);
    let alpha = squeeze_challenges::<E>(ro, structure.s_max);
    (gamma, alpha)
}

impl<E: CurveEngine> NIFS<E> {
    /// Checks the proof with an oracle that has absorbed the inputs, against the running points and claims.
    pub(crate) fn check(
        &self,
        ro: &mut E::RO,
        structure: &GlobalStructure<E>,
        r_x: &Vec<E::Base>,
        r_y: &Vec<E::Base>,
        v: &Vec<E::Base>,
    ) -> (r: Result<(Vec<E::Base>, Vec<E::Base>, E::Base), NovaError>)
        requires
            structure.wf(),
            0 < old(ro).state().len() <= MAX_ABSORBED,
            well_shaped(structure@, self@) ==> v.len() >= 4,
        ensures
            ({
                let c = accepted::<E>(structure@, old(ro).state(), vals(r_x@), vals(r_y@), vals(v@), self@);
                match r {
                    Ok((new_r_x, new_r_y, rho)) => c == Some(
                        Accepted { r_x: vals(new_r_x@), r_y: vals(new_r_y@), rho: rho.val() },
                    ),
                    Err(e) => c is None && e == NovaError::InvalidSumcheckProof,
                }
            }),
    {
        if self.sigmas.len() != 3 || self.taus.len() != 3 || self.epsilons.len() != 4 || self.thetas.len() != 4
            || self.sc_proof_x.polys.len() != structure.s_max || self.sc_proof_y.polys.len()
            != structure.s_prime_max {
            return Err(NovaError::InvalidSumcheckProof);
        }
        let (gamma, alpha) = open_fold::<E>(ro, structure);
        let sum_x = structure.compute_sum_x(v, &gamma);
        let points_x = small_points(4);
        assert(points_x.len() == vals(points_x@).len());
        let (point_x, last_x) = match sumcheck_verify::<E>(ro, sum_x, &self.sc_proof_x, &points_x) {
            Ok(c) => c,
            Err(e) => {
                return Err(e);
            },
        };
        let r_x_prime = canonical_point(&point_x);
        let cx = structure.compute_cx(r_x, &self.sigmas, &self.taus, &gamma, &alpha, &r_x_prime);
        if !last_x.equals(&cx) {
            return Err(NovaError::InvalidSumcheckProof);
        }
        let delta = ro.squeeze(NUM_CHALLENGE_BITS);
        let sum_y = structure.compute_sum_y(v, &self.sigmas, &self.taus, &delta);
        let points_y = small_points(3);
        assert(points_y.len() == vals(points_y@).len());
        let (point_y, last_y) = match sumcheck_verify::<E>(ro, sum_y, &self.sc_proof_y, &points_y) {
            Ok(c) => c,
            Err(e) => {
                return Err(e);
            },
        };
        let r_y_prime = canonical_point(&point_y);
        let cy = structure.compute_cy(r_y, &self.epsilons, &self.thetas, &delta, &r_y_prime);
        if !last_y.equals(&cy) {
            return Err(NovaError::InvalidSumcheckProof);
        }
        let rho = ro.squeeze(NUM_CHALLENGE_BITS);
        Ok((r_x_prime, r_y_prime, rho))
    }
}

impl<E: CurveEngine> SumcheckProof<E> {
    /// The same proof once more.
    pub fn copied(&self) -> (r: Self)
        ensures
            r@ == self@,
    {
        let mut polys: Vec<Vec<E::Base>> = Vec::new();
        let mut i: usize = 0;
        while i < self.polys.len()
            invariant
                i <= self.polys.len(),
                polys@.len() == i,
                forall|k: int| 0 <= k < i ==> vals((#[trigger] polys@[k])@) == vals(self.polys@[k]@),
            decreases self.polys.len() - i,
        {
            polys.push(copy_vec(&self.polys[i]));
            i = i + 1;
        }
        let r = SumcheckProof { point: copy_vec(&self.point), polys };
        assert(r@.polys =~= self@.polys);
        r
    }
}

impl<E: CurveEngine> NIFS<E> {
    /// The same proof once more.
    pub fn copied(&self) -> (r: Self)
        ensures
            r@ == self@,
    {
        NIFS {
            sc_proof_x: self.sc_proof_x.copied(),
            sc_proof_y: self.sc_proof_y.copied(),
            sigmas: copy_vec(&self.sigmas),
            taus: copy_vec(&self.taus),
            epsilons: copy_vec(&self.epsilons),
            thetas: copy_vec(&self.thetas),
        }
    }

    /// Absorbs the inputs of a fold.
    fn absorb_inputs(
        ro: &mut E::RO,
        pp_digest: &E::Scalar,
        predicate_id: usize,
        structure: &GlobalStructure<E>,
        U2: &R1CSInstance<E>,
    )
        requires
            predicate_id < structure@.len(),
            old(ro).state() == Seq::<int>::empty(),
        ensures
            final(ro).state() == absorbed_inputs::<E>(structure@, pp_digest.val(), predicate_id as int, U2@),
            final(ro).state().len() == U2.X.len() + 14,
    {
        let digest = E::scalar_as_base(pp_digest);
        ro.absorb(&digest);
        let id = E::Base::from_u64(predicate_id as u64);
        ro.absorb(&id);
        U2.absorb_in_ro(ro);
        let comm = structure.predicate_commitments(predicate_id);
        absorb_commitments3::<E>(ro, &comm);
        assert(ro.state() =~= absorbed_inputs::<E>(structure@, pp_digest.val(), predicate_id as int, U2@));
    }

    /// An oracle that has absorbed the inputs of a fold.
    fn oracle_of_inputs(
        ro_consts: &<E::RO as RandomOracle<E::Base>>::Constants,
        pp_digest: &E::Scalar,
        structure: &GlobalStructure<E>,
        predicate_id: usize,
        U2: &R1CSInstance<E>,
    ) -> (ro: E::RO)
        requires
            structure.wf(),
            predicate_id < structure@.len(),
            U2.X.len() <= MAX_IO,
        ensures
            ro.state() == absorbed_inputs::<E>(structure@, pp_digest.val(), predicate_id as int, U2@),
            0 < ro.state().len() <= MAX_ABSORBED,
    {
        let mut ro = E::RO::new(ro_consts);
        Self::absorb_inputs(&mut ro, pp_digest, predicate_id, structure, U2);
        ro
    }

    /// Checks the proof and folds the instance into the folded instance.
    pub fn verify(
        &self,
        ro_consts: &<E::RO as RandomOracle<E::Base>>::Constants,
        pp_digest: &E::Scalar,
        structure: &GlobalStructure<E>,
        predicate_id: usize,
        U1: &FoldedInstance<E>,
        U2: &R1CSInstance<E>,
    ) -> (r: Result<FoldedInstance<E>, NovaError>)
        requires
            structure.wf(),
            predicate_id < structure@.len() && well_shaped(structure@, self@) ==> U1.v.len() >= 4 && U2.X.len()
                <= MAX_IO,
        ensures
            match r {
                Ok(u) => predicate_id < structure@.len() && verified::<E>(
                    structure@,
                    pp_digest.val(),
                    predicate_id as int,
                    U1@,
                    U2@,
                    self@,
                ) == Some(u@),
                Err(e) => if predicate_id >= structure@.len() {
                    e == NovaError::InvalidInputLength
                } else {
                    e == NovaError::InvalidSumcheckProof && verified::<E>(
                        structure@,
                        pp_digest.val(),
                        predicate_id as int,
                        U1@,
                        U2@,
                        self@,
                    ) is None
                },
            },
            r matches Ok(u) ==> U1.r_x.len() == structure@.s_max && U1.r_y.len() == structure@.s_prime_max && U1.X.len()
                == structure@.num_io && U2.X.len() == structure@.num_io ==> ({
                let o = opening::<E>(
                    structure@,
                    absorbed_inputs::<E>(structure@, pp_digest.val(), predicate_id as int, U2@),
                );
                exists|x: Check, y: Check|
                    {
                        &&& #[trigger] ties_claims::<E>(
                            structure@,
                            o.gamma,
                            o.alpha,
                            o.state,
                            U1@.r_x,
                            U1@.r_y,
                            U1@.v,
                            self@,
                            x,
                            y,
                        )
                        &&& u@.r_x == reversed(x.point)
                        &&& u@.r_y == reversed(y.point)
                        &&& adds_multiple::<E>(
                            structure@,
                            predicate_id as int,
                            U1@,
                            U2@,
                            self@,
                            u@,
                            hash_of::<E>()(y.state) % (pow2(128) as int),
                        )
                    }
            }),
    {
        if predicate_id >= structure.predicates.len() {
            return Err(NovaError::InvalidInputLength);
        }
        if self.sigmas.len() != 3 || self.taus.len() != 3 || self.epsilons.len() != 4 || self.thetas.len() != 4
            || self.sc_proof_x.polys.len() != structure.s_max || self.sc_proof_y.polys.len()
            != structure.s_prime_max {
            return Err(NovaError::InvalidSumcheckProof);
        }
        let mut ro = Self::oracle_of_inputs(ro_consts, pp_digest, structure, predicate_id, U2);
        let (r_x, r_y, rho) = match self.check(&mut ro, structure, &U1.r_x, &U1.r_y, &U1.v) {
            Ok(c) => c,
            Err(e) => {
                return Err(e);
            },
        };
        let rho_scalar = E::base_as_scalar(&rho);
        let v = fold_vec(&self.epsilons, &self.thetas, &rho);
        let r = U1.fold(structure, predicate_id, U2, &rho, &rho_scalar, r_x, r_y, v);
        proof {
            assert(U1@.r_x.len() == U1.r_x@.len() && U1@.r_y.len() == U1.r_y@.len());
            assert(U1@.X.len() == U1.X@.len() && U2@.X.len() == U2.X@.len());
            if U1.r_x.len() == structure@.s_max && U1.r_y.len() == structure@.s_prime_max && U1.X.len()
                == structure@.num_io && U2.X.len() == structure@.num_io {
                verified_fold_adds_incoming::<E>(structure@, pp_digest.val(), predicate_id as int, U1@, U2@, self@);
            }
        }
        Ok(r)
    }
}

/// What a fold reads of a running instance and of its witness: the coefficients of the index, the points of the
/// rows and of the columns, the claims there, and the vector.
pub struct Running {
    pub lambda: Seq<int>,
    pub r_x: Seq<int>,
    pub r_y: Seq<int>,
    pub v: Seq<int>,
    pub z: Seq<int>,
}

/// The first sum-check of the prover.
pub open spec fn proved_x<E: CurveEngine>(s: StructureView, start: Seq<int>, id: int, run: Running, z: Seq<int>) -> Rounds {
    let p = E::Base::modulus();
    let o = opening::<E>(s, start);
    prove_rounds(
        |c: Seq<int>| combine_x(o.gamma, c),
        4,
        hash_of::<E>(),
        p,
        s.s_max,
        Rounds {
            tables: tables_x(s, id, run.r_x, run.r_y, run.lambda, o.alpha, z, p),
            state: o.state,
            point: Seq::empty(),
            polys: Seq::empty(),
        },
        s.s_max,
    )
}

/// The second sum-check of the prover.
pub open spec fn proved_y<E: CurveEngine>(s: StructureView, start: Seq<int>, id: int, run: Running, z: Seq<int>) -> Rounds {
    let p = E::Base::modulus();
    let hash = hash_of::<E>();
    let x = proved_x::<E>(s, start, id, run, z);
    let delta = challenge(hash, x.state);
    prove_rounds(
        |c: Seq<int>| combine_y(delta, c),
        3,
        hash,
        p,
        s.s_prime_max,
        Rounds {
            tables: tables_y(s, id, reversed(x.point), run.r_y, run.lambda, run.z, z, p),
            state: seq![hash(x.state)],
            point: Seq::empty(),
            polys: Seq::empty(),
        },
        s.s_prime_max,
    )
}

/// The proof of a fold, and what its verifier comes to.
pub struct Transcript {
    pub proof_: NIFSView,
    pub result: Accepted,
}

/// The proof that the prover sends.
pub open spec fn transcript<E: CurveEngine>(s: StructureView, start: Seq<int>, id: int, run: Running, z: Seq<int>) -> Transcript {
    let p = E::Base::modulus();
    let x = proved_x::<E>(s, start, id, run, z);
    let y = proved_y::<E>(s, start, id, run, z);
    let r_x = reversed(x.point);
    let r_y = reversed(y.point);
    Transcript {
        proof_: NIFSView {
            sc_proof_x: SumcheckProofView { point: x.point, polys: x.polys },
            sc_proof_y: SumcheckProofView { point: y.point, polys: y.polys },
            sigmas: sigmas(s, run.lambda, r_x, run.r_y, p),
            taus: taus(s, id, r_x, z, p),
            epsilons: claims(s, run.lambda, r_x, r_y, run.z, p),
            thetas: thetas(s, id, r_x, r_y, z, p),
        },
        result: Accepted { r_x, r_y, rho: challenge(hash_of::<E>(), y.state) },
    }
}

/// What a fold reads of a folded instance and of its witness.
pub open spec fn running(u1: FoldedInstanceView, w1: FoldedWitnessView) -> Running {
    Running { lambda: w1.lambda_proj, r_x: u1.r_x, r_y: u1.r_y, v: u1.v, z: folded_z(u1, w1) }
}

/// What the prover of a fold comes to.
pub struct Folded {
    pub proof_: NIFSView,
    pub instance: FoldedInstanceView,
    pub witness: FoldedWitnessView,
}

/// What the prover of a fold comes to.
pub open spec fn proved<E: CurveEngine>(
    s: StructureView,
    pp_digest: int,
    id: int,
    u1: FoldedInstanceView,
    w1: FoldedWitnessView,
    u2: InstanceView,
    w2: WitnessView,
) -> Folded {
    let p = E::Base::modulus();
    let q = E::Scalar::modulus();
    let t = transcript::<E>(
        s,
        absorbed_inputs::<E>(s, pp_digest, id, u2),
        id,
        running(u1, w1),
        incoming_z(s, u2, w2, p),
    );
    let a = t.result;
    let v = combined(t.proof_.epsilons, t.proof_.thetas, a.rho, p);
    Folded {
        proof_: t.proof_,
        instance: fold_instance(s, id, u1, u2, a.rho, a.rho % q, a.r_x, a.r_y, v, p, q),
        witness: fold_witness(s, id, w1, w2, a.rho, a.rho % q, p, q),
    }
}

impl<E: CurveEngine> NIFS<E> {
    /// Proves with an oracle that has absorbed the inputs, and returns the new points and the last challenge too.
    pub(crate) fn prove_rounds(
        ro: &mut E::RO,
        structure: &GlobalStructure<E>,
        predicate_id: usize,
        lambda: &Vec<E::Base>,
        r_x: &Vec<E::Base>,
        r_y: &Vec<E::Base>,
        z_running: &Vec<E::Base>,
        z_new: &Vec<E::Base>,
        Ghost(v): Ghost<Seq<int>>,
    ) -> (r: (Self, Vec<E::Base>, Vec<E::Base>, E::Base))
        requires
            structure.wf(),
            0 < old(ro).state().len() <= MAX_ABSORBED,
            predicate_id < structure@.len(),
            lambda.len() <= structure@.len(),
            r_x.len() == structure.s_max,
            r_y.len() == structure.s_prime_max,
        ensures
            ({
                let run = Running { lambda: vals(lambda@), r_x: vals(r_x@), r_y: vals(r_y@), v, z: vals(z_running@) };
                let t = transcript::<E>(structure@, old(ro).state(), predicate_id as int, run, vals(z_new@));
                &&& r.0@ == t.proof_
                &&& vals(r.1@) == t.result.r_x
                &&& vals(r.2@) == t.result.r_y
                &&& r.3.val() == t.result.rho
            }),
    {
        let (gamma, alpha) = open_fold::<E>(ro, structure);
        assert(alpha.len() == vals(alpha@).len());
        let ghost (s, p) = (structure@, E::Base::modulus());
        let ghost id = predicate_id as int;
        let mut tables: Vec<Vec<E::Base>> = Vec::new();
        tables.push(eq_table(r_x));
        tables.push(structure.row_table_eval_folded(lambda, 0, r_y));
        tables.push(structure.row_table_eval_folded(lambda, 1, r_y));
        tables.push(structure.row_table_eval_folded(lambda, 2, r_y));
        tables.push(eq_table(&alpha));
        tables.push(structure.row_table_compressed_predicate(predicate_id, 0, z_new));
        tables.push(structure.row_table_compressed_predicate(predicate_id, 1, z_new));
        tables.push(structure.row_table_compressed_predicate(predicate_id, 2, z_new));
        let ghost want_x = tables_x(s, id, vals(r_x@), vals(r_y@), vals(lambda@), vals(alpha@), vals(z_new@), p);
        proof {
            assert(vals2(tables@) =~= want_x);
            assert forall|j: int| 0 <= j < 8 implies (#[trigger] tables@[j])@.len() == pow2(s.s_max) by {
                assert(vals2(tables@)[j] == want_x[j]);
                assert(vals(tables@[j]@).len() == want_x[j].len());
            }
        }
        let h_x = Combiner::for_x(&gamma);
        let sc_proof_x = sumcheck_prove::<E>(ro, &h_x, tables, structure.s_max);
        let r_x_prime = canonical_point(&sc_proof_x.point);
        assert(r_x_prime.len() == vals(r_x_prime@).len());
        let sigmas = structure.compute_sigmas(lambda, r_y, &r_x_prime);
        let taus = structure.compute_taus(predicate_id, &r_x_prime, z_new);
        let delta = ro.squeeze(NUM_CHALLENGE_BITS);
        let mut tables: Vec<Vec<E::Base>> = Vec::new();
        tables.push(eq_table(r_y));
        tables.push(structure.col_table_eval_folded(lambda, 0, &r_x_prime));
        tables.push(structure.col_table_eval_folded(lambda, 1, &r_x_prime));
        tables.push(structure.col_table_eval_folded(lambda, 2, &r_x_prime));
        tables.push(structure.z_table(z_running));
        tables.push(structure.col_table_eval_predicate(predicate_id, 0, &r_x_prime));
        tables.push(structure.col_table_eval_predicate(predicate_id, 1, &r_x_prime));
        tables.push(structure.col_table_eval_predicate(predicate_id, 2, &r_x_prime));
        tables.push(structure.z_table(z_new));
        let ghost want_y = tables_y(
            s,
            id,
            vals(r_x_prime@),
            vals(r_y@),
            vals(lambda@),
            vals(z_running@),
            vals(z_new@),
            p,
        );
        proof {
            assert(vals2(tables@) =~= want_y);
            assert forall|j: int| 0 <= j < 9 implies (#[trigger] tables@[j])@.len() == pow2(s.s_prime_max) by {
                assert(vals2(tables@)[j] == want_y[j]);
                assert(vals(tables@[j]@).len() == want_y[j].len());
            }
        }
        let h_y = Combiner::for_y(&delta);
        let sc_proof_y = sumcheck_prove::<E>(ro, &h_y, tables, structure.s_prime_max);
        let r_y_prime = canonical_point(&sc_proof_y.point);
        assert(r_y_prime.len() == vals(r_y_prime@).len());
        let epsilons = structure.compute_epsilons(lambda, z_running, &r_x_prime, &r_y_prime);
        let thetas = structure.compute_thetas(predicate_id, z_new, &r_x_prime, &r_y_prime);
        let rho = ro.squeeze(NUM_CHALLENGE_BITS);
        (NIFS { sc_proof_x, sc_proof_y, sigmas, taus, epsilons, thetas }, r_x_prime, r_y_prime, rho)
    }
}

impl<E: CurveEngine> NIFS<E> {
    /// Folds an instance and its witness into a folded instance and its witness, with a proof.
    pub fn prove(
        ck_witness: &E::CommitmentKey,
        ro_consts: &<E::RO as RandomOracle<E::Base>>::Constants,
        pp_digest: &E::Scalar,
        structure: &GlobalStructure<E>,
        predicate_id: usize,
        U1: &FoldedInstance<E>,
        W1: &FoldedWitness<E>,
        U2: &R1CSInstance<E>,
        W2: &R1CSWitness<E>,
    ) -> (r: Result<(Self, (FoldedInstance<E>, FoldedWitness<E>)), NovaError>)
        requires
            structure.wf(),
            structure@.num_vars_max <= E::generators(ck_witness).len(),
            predicate_id < structure@.len() ==> {
                &&& U1.r_x.len() == structure.s_max
                &&& U1.r_y.len() == structure.s_prime_max
                &&& W1.lambda_proj.len() <= structure@.len()
                &&& predicate_id < W1.lambda_proj.len()
                &&& predicate_id < W1.lambda_scalar.len()
                &&& U2.X.len() <= MAX_IO
            },
        ensures
            ({
                let f = proved::<E>(structure@, pp_digest.val(), predicate_id as int, U1@, W1@, U2@, W2@);
                let sat = folded_sat::<E>(structure@, *ck_witness, f.instance, f.witness);
                match r {
                    Ok((nifs, (u, w))) => {
                        &&& predicate_id < structure@.len()
                        &&& W2.W.len() <= W1.W.len()
                        &&& sat is Ok
                        &&& nifs@ == f.proof_
                        &&& u@ == f.instance
                        &&& w@ == f.witness
                    },
                    Err(e) => if predicate_id >= structure@.len() {
                        e == NovaError::InvalidInputLength
                    } else if W2.W.len() > W1.W.len() {
                        e == NovaError::InvalidWitnessLength
                    } else {
                        sat == Err::<(), NovaError>(e)
                    },
                }
            }),
    {
        if predicate_id >= structure.predicates.len() {
            return Err(NovaError::InvalidInputLength);
        }
        let z_running = structure.z_from_folded(U1, W1);
        let z_new = structure.z_from_r1cs(U2, W2);
        let mut ro = Self::oracle_of_inputs(ro_consts, pp_digest, structure, predicate_id, U2);
        let (nifs, r_x, r_y, rho) = Self::prove_rounds(
            &mut ro,
            structure,
            predicate_id,
            &W1.lambda_proj,
            &U1.r_x,
            &U1.r_y,
            &z_running,
            &z_new,
            Ghost(U1@.v),
        );
        let rho_scalar = E::base_as_scalar(&rho);
        let v = fold_vec(&nifs.epsilons, &nifs.thetas, &rho);
        let U = U1.fold(structure, predicate_id, U2, &rho, &rho_scalar, r_x, r_y, v);
        let W = match W1.fold(structure, predicate_id, W2, &rho, &rho_scalar) {
            Ok(w) => w,
            Err(e) => {
                return Err(e);
            },
        };
        match structure.is_sat(ck_witness, &U, &W) {
            Ok(()) => {},
            Err(e) => {
                return Err(e);
            },
        }
        Ok((nifs, (U, W)))
    }
}

/// The oracle of a sum-check in which every sum is zero, after `k` rounds.
pub open spec fn dummy_state(hash: spec_fn(Seq<int>) -> int, state: Seq<int>, d: nat, k: nat) -> Seq<int>
    decreases k,
{
    if k == 0 {
        state
    } else {
        seq![hash(dummy_state(hash, state, d, (k - 1) as nat) + Seq::new(d, |i: int| 0int))]
    }
}

/// A sum-check proof in which every sum is zero.
pub open spec fn dummy_proof(hash: spec_fn(Seq<int>) -> int, state: Seq<int>, d: nat, rounds: nat) -> SumcheckProofView {
    let zero = Seq::new(d, |i: int| 0int);
    SumcheckProofView {
        point: Seq::new(rounds, |k: int| challenge(hash, dummy_state(hash, state, d, k as nat) + zero)),
        polys: Seq::new(rounds, |k: int| zero),
    }
}

/// Runs the oracle over rounds in which every sum is zero.
fn dummy_rounds<E: CurveEngine>(ro: &mut E::RO, d: usize, rounds: usize) -> (r: SumcheckProof<E>)
    requires
        0 < old(ro).state().len() <= 1,
        d <= 4,
    ensures
        r@ == dummy_proof(hash_of::<E>(), old(ro).state(), d as nat, rounds as nat),
        final(ro).state() == dummy_state(hash_of::<E>(), old(ro).state(), d as nat, rounds as nat),
        0 < final(ro).state().len() <= 1,
{
    let ghost hash = hash_of::<E>();
    let ghost start = ro.state();
    let ghost zero = Seq::new(d as nat, |i: int| 0int);
    let mut point: Vec<E::Base> = Vec::new();
    let mut polys: Vec<Vec<E::Base>> = Vec::new();
    let mut k: usize = 0;
    while k < rounds
        invariant
            k <= rounds,
            d <= 4,
            hash == hash_of::<E>(),
            zero == Seq::new(d as nat, |i: int| 0int),
            0 < ro.state().len() <= 1,
            ro.state() == dummy_state(hash, start, d as nat, k as nat),
            point.len() == k,
            polys.len() == k,
            forall|i: int|
                0 <= i < k ==> (#[trigger] point[i]).val() == challenge(
                    hash,
                    dummy_state(hash, start, d as nat, i as nat) + zero,
                ),
            forall|i: int| 0 <= i < k ==> vals((#[trigger] polys[i])@) == zero,
        decreases rounds - k,
    {
        let evals: Vec<E::Base> = zeros(d);
        absorb_all(ro, &evals);
        assert(vals(evals@).len() == d);
        let r_i = ro.squeeze(NUM_CHALLENGE_BITS);
        point.push(r_i);
        polys.push(evals);
        k = k + 1;
    }
    let r = SumcheckProof { point, polys };
    assert(r@.point =~= dummy_proof(hash, start, d as nat, rounds as nat).point);
    assert(r@.polys =~= dummy_proof(hash, start, d as nat, rounds as nat).polys);
    r
}

/// A proof in which every sum and every claim is zero.
pub open spec fn dummy_nifs<E: CurveEngine>(s: StructureView, start: Seq<int>) -> NIFSView {
    let hash = hash_of::<E>();
    let o = opening::<E>(s, start);
    let after_x = dummy_state(hash, o.state, 4, s.s_max);
    NIFSView {
        sc_proof_x: dummy_proof(hash, o.state, 4, s.s_max),
        sc_proof_y: dummy_proof(hash, seq![hash(after_x)], 3, s.s_prime_max),
        sigmas: Seq::new(3, |i: int| 0int),
        taus: Seq::new(3, |i: int| 0int),
        epsilons: Seq::new(4, |i: int| 0int),
        thetas: Seq::new(4, |i: int| 0int),
    }
}

impl<E: CurveEngine> NIFS<E> {
    /// A proof in which every sum and every claim is zero, with the challenges that follow from them.
    pub fn dummy(
        ro_consts: &<E::RO as RandomOracle<E::Base>>::Constants,
        pp_digest: &E::Scalar,
        structure: &GlobalStructure<E>,
        predicate_id: usize,
        U2: &R1CSInstance<E>,
    ) -> (r: Self)
        requires
            structure.wf(),
            predicate_id < structure@.len(),
            U2.X.len() <= MAX_IO,
        ensures
            r@ == dummy_nifs::<E>(
                structure@,
                absorbed_inputs::<E>(structure@, pp_digest.val(), predicate_id as int, U2@),
            ),
    {
        let mut ro = Self::oracle_of_inputs(ro_consts, pp_digest, structure, predicate_id, U2);
        Self::dummy_rounds(&mut ro, structure)
    }

    /// A proof in which every sum and every claim is zero, with an oracle that has absorbed the inputs.
    pub(crate) fn dummy_rounds(ro: &mut E::RO, structure: &GlobalStructure<E>) -> (r: Self)
        requires
            structure.wf(),
            0 < old(ro).state().len() <= MAX_ABSORBED,
        ensures
            r@ == dummy_nifs::<E>(structure@, old(ro).state()),
    {
        let (_gamma, _alpha) = open_fold::<E>(ro, structure);
        let sc_proof_x = dummy_rounds::<E>(ro, 4, structure.s_max);
        let _delta = ro.squeeze(NUM_CHALLENGE_BITS);
        let sc_proof_y = dummy_rounds::<E>(ro, 3, structure.s_prime_max);
        NIFS {
            sc_proof_x,
            sc_proof_y,
            sigmas: zeros(3),
            taus: zeros(3),
            epsilons: zeros(4),
            thetas: zeros(4),
        }
    }
}

/// The rounds of a sum-check in which every sum is zero match a claim of zero.
proof fn lemma_dummy_rounds(hash: spec_fn(Seq<int>) -> int, p: int, state: Seq<int>, d: nat, rounds: nat, k: nat)
    requires
        p > 6,
        d == 3 || d == 4,
        k <= rounds,
    ensures
        ({
            let proof_ = dummy_proof(hash, state, d, rounds);
            check_rounds(
                first_points(d),
                hash,
                p,
                Check { state, claim: 0, point: Seq::empty() },
                proof_.polys,
                k,
            ) == Some(Check { state: dummy_state(hash, state, d, k), claim: 0, point: proof_.point.take(k as int) })
        }),
    decreases k,
{
    let proof_ = dummy_proof(hash, state, d, rounds);
    if k == 0 {
        assert(proof_.point.take(0) =~= Seq::<int>::empty());
    } else {
        let j = (k - 1) as nat;
        lemma_dummy_rounds(hash, p, state, d, rounds, j);
        lemma_separated(d, p);
        let zero = Seq::new(d, |i: int| 0int);
        let pts = first_points(d);
        assert(proof_.polys[k - 1] == zero);
        let r = challenge(hash, dummy_state(hash, state, d, j) + zero);
        let f = |i: int| interpolation_term(pts, zero, r, p, i);
        assert forall|i: int| 0 <= i < d implies #[trigger] f(i) == 0 by {
            let a = distances(pts, r, i, pts.len() as int);
            let b = inverse(distances(pts, pts[i], i, pts.len() as int), p);
            assert(0 * a * b == 0) by (nonlinear_arith);
        }
        lemma_sum_zero(f, d as int);
        assert(0int % p == 0) by (nonlinear_arith)
            requires
                p > 6,
        ;
        assert(interpolation(pts, zero, r, p) == Some(0int));
        assert(proof_.point.take(k as int) =~= proof_.point.take(j as int).push(r));
    }
}

/// The verifier accepts the proof in which every sum and every claim is zero, where the running claims are zero.
pub proof fn dummy_is_accepted<E: CurveEngine>(s: StructureView, start: Seq<int>, r_x: Seq<int>, r_y: Seq<int>, v: Seq<int>)
    requires
        v[0] == 0,
        v[1] == 0,
        v[2] == 0,
        v[3] == 0,
    ensures
        accepted::<E>(s, start, r_x, r_y, v, dummy_nifs::<E>(s, start)) is Some,
{
    let p = E::Base::modulus();
    E::Base::modulus_bounds();
    let hash = hash_of::<E>();
    let o = opening::<E>(s, start);
    let proof_ = dummy_nifs::<E>(s, start);
    lemma_dummy_rounds(hash, p, o.state, 4, s.s_max, s.s_max);
    let px = proof_.sc_proof_x;
    assert(px.point.take(s.s_max as int) =~= px.point);
    let after_x = dummy_state(hash, o.state, 4, s.s_max);
    lemma_dummy_rounds(hash, p, seq![hash(after_x)], 3, s.s_prime_max, s.s_prime_max);
    let py = proof_.sc_proof_y;
    assert(py.point.take(s.s_prime_max as int) =~= py.point);
    vstd::arithmetic::div_mod::lemma_small_mod(0, p as nat);
    let new_r_x = reversed(px.point);
    let new_r_y = reversed(py.point);
    let delta = challenge(hash, after_x);
    assert(sum_x(o.gamma, v) == 0) by {
        let (a, b) = (pow(o.gamma, 1), pow(o.gamma, 2));
        assert(0 + a * 0 + b * 0 == 0) by (nonlinear_arith);
    }
    let (ex, ea) = (eq_points(r_x, new_r_x, min_len(r_x, new_r_x)), eq_points(o.alpha, new_r_x, min_len(o.alpha, new_r_x)));
    assert(claim_x(o.gamma, r_x, o.alpha, new_r_x, proof_.sigmas, proof_.taus) == 0) by {
        let (a, b, c) = (pow(o.gamma, 1), pow(o.gamma, 2), pow(o.gamma, 3));
        assert(ex * 0 + a * (ex * 0) + b * (ex * 0) + c * (ea * (0 * 0 - 0)) == 0) by (nonlinear_arith);
    }
    let (d1, d2, d3, d4, d5, d6) = (
        pow(delta, 1),
        pow(delta, 2),
        pow(delta, 3),
        pow(delta, 4),
        pow(delta, 5),
        pow(delta, 6),
    );
    assert(sum_y(delta, v, proof_.sigmas, proof_.taus) == 0) by {
        assert(0 + d1 * 0 + d2 * 0 + d3 * 0 + d4 * 0 + d5 * 0 + d6 * 0 == 0) by (nonlinear_arith);
    }
    let ey = eq_points(r_y, new_r_y, min_len(r_y, new_r_y));
    assert(claim_y(delta, r_y, new_r_y, proof_.epsilons, proof_.thetas) == 0) by {
        assert(ey * 0 + d1 * (ey * 0) + d2 * (ey * 0) + d3 * (ey * 0) + d4 * (0 * 0) + d5 * (0 * 0) + d6 * (0 * 0) == 0)
            by (nonlinear_arith);
    }
}

} // verus!
