//! Indexed relations for holographic folding: the structure that several predicates share, and the
//! folded instances and witnesses over it.
use crate::engine::{commitment_log, vals, Commitment, CurveEngine, CurveGroup, PointView, RandomOracle};
use crate::errors::{NovaError, UnSatReason};
use crate::field::FieldElement;
use crate::math::{
    ceil_log2, cong, lemma_canonical, lemma_ceil_log2, lemma_cong_mod, lemma_residue_add, lemma_residue_mul, log_2,
    logarithm_is_least, max, next_pow2, sum,
};
use crate::matrix::{at, folded, row_bucket, transposed, values, weighted, weighted_entry, weights};
use crate::mle::{bit, eq_prefix, eq_weight};
use crate::r1cs::{
    entries, entries_fit, lemma_pad, pow2_usize, Entries, InstanceView, R1CSInstance, R1CSShape, R1CSWitness,
    ShapeView, WitnessView,
};
use vstd::arithmetic::power2::{lemma_pow2_pos, lemma_pow2_unfold, pow2};
use vstd::prelude::*;

verus! {

/// What the relation sees of one predicate.
pub struct PredicateIndex<E: CurveEngine> {
    pub id: usize,
    pub shape: R1CSShape<E>,
    pub s: usize,
    pub s_prime: usize,
    pub z_len: usize,
    pub matrix_at_zero: [E::Base; 3],
    pub mats: [Vec<(usize, usize, E::Base)>; 3],
    pub row_buckets: [Vec<Vec<(usize, E::Base)>>; 3],
    pub col_buckets: [Vec<Vec<(usize, E::Base)>>; 3],
    pub comm_M: [Commitment<E>; 3],
}

/// The predicates that can be folded together, with the sizes that they share.
pub struct GlobalStructure<E: CurveEngine> {
    pub num_io: usize,
    pub num_vars_max: usize,
    pub s_max: usize,
    pub s_prime_max: usize,
    pub z_len_max: usize,
    pub predicates: Vec<PredicateIndex<E>>,
    pub ck_index: [E::CommitmentKey; 3],
}

/// The structure of folded relations.
pub type Structure<E> = GlobalStructure<E>;

/// A folded witness, in the scalar field and projected into the base field.
pub struct FoldedWitness<E: CurveEngine> {
    pub W: Vec<E::Scalar>,
    pub W_proj: Vec<E::Base>,
    pub r_W: E::Scalar,
    pub lambda_scalar: Vec<E::Scalar>,
    pub lambda_proj: Vec<E::Base>,
}

/// A folded instance.
pub struct FoldedInstance<E: CurveEngine> {
    pub comm_W: Commitment<E>,
    pub comm_M: [Commitment<E>; 3],
    pub u: E::Base,
    pub X: Vec<E::Base>,
    pub r_x: Vec<E::Base>,
    pub r_y: Vec<E::Base>,
    pub v: Vec<E::Base>,
}

/// A structure over the integers.
pub struct StructureView {
    pub num_io: int,
    pub num_vars_max: int,
    pub s_max: nat,
    pub s_prime_max: nat,
    /// The three matrices of every predicate.
    pub mats: Seq<Seq<Entries>>,
    /// The commitments to every predicate.
    pub comm_M: Seq<Seq<int>>,
    /// The generators of the three keys of the index.
    pub keys: Seq<Seq<PointView>>,
    /// The blinding generators of the three keys of the index.
    pub blindings: Seq<PointView>,
}

/// A folded witness over the integers.
pub struct FoldedWitnessView {
    pub W: Seq<int>,
    pub W_proj: Seq<int>,
    pub r_W: int,
    pub lambda_scalar: Seq<int>,
    pub lambda_proj: Seq<int>,
}

/// A folded instance over the integers.
pub struct FoldedInstanceView {
    pub comm_W: int,
    pub comm_M: Seq<int>,
    pub u: int,
    pub X: Seq<int>,
    pub r_x: Seq<int>,
    pub r_y: Seq<int>,
    pub v: Seq<int>,
}

/// The entries of the three matrices.
pub open spec fn entries3<F: FieldElement>(m: [Vec<(usize, usize, F)>; 3]) -> Seq<Entries> {
    seq![entries(m[0]@), entries(m[1]@), entries(m[2]@)]
}

/// The three commitments.
pub open spec fn views3<E: CurveGroup>(c: [Commitment<E>; 3]) -> Seq<int> {
    seq![c[0]@, c[1]@, c[2]@]
}

impl<E: CurveEngine> View for GlobalStructure<E> {
    type V = StructureView;

    open spec fn view(&self) -> StructureView {
        StructureView {
            num_io: self.num_io as int,
            num_vars_max: self.num_vars_max as int,
            s_max: self.s_max as nat,
            s_prime_max: self.s_prime_max as nat,
            mats: Seq::new(self.predicates@.len(), |i: int| entries3(self.predicates@[i].mats)),
            comm_M: Seq::new(self.predicates@.len(), |i: int| views3(self.predicates@[i].comm_M)),
            keys: Seq::new(3, |j: int| E::generators(&self.ck_index[j])),
            blindings: Seq::new(3, |j: int| E::blinding(&self.ck_index[j])),
        }
    }
}

impl<E: CurveEngine> View for FoldedWitness<E> {
    type V = FoldedWitnessView;

    open spec fn view(&self) -> FoldedWitnessView {
        FoldedWitnessView {
            W: vals(self.W@),
            W_proj: vals(self.W_proj@),
            r_W: self.r_W.val(),
            lambda_scalar: vals(self.lambda_scalar@),
            lambda_proj: vals(self.lambda_proj@),
        }
    }
}

impl<E: CurveEngine> View for FoldedInstance<E> {
    type V = FoldedInstanceView;

    open spec fn view(&self) -> FoldedInstanceView {
        FoldedInstanceView {
            comm_W: self.comm_W@,
            comm_M: views3(self.comm_M),
            u: self.u.val(),
            X: vals(self.X@),
            r_x: vals(self.r_x@),
            r_y: vals(self.r_y@),
            v: vals(self.v@),
        }
    }
}

/// Whether a list of pairs holds an index and a value for each pair of the bucket.
pub open spec fn bucket_is<F: FieldElement>(b: Seq<(usize, F)>, spec: Seq<(int, int)>) -> bool {
    &&& b.len() == spec.len()
    &&& forall|k: int| 0 <= k < b.len() ==> (#[trigger] b[k]).0 == spec[k].0 && b[k].1.val() == spec[k].1
}

/// Whether there is a bucket for each of `n` rows of the entries.
pub open spec fn buckets_are<F: FieldElement>(buckets: Seq<Vec<(usize, F)>>, m: Entries, n: int) -> bool {
    &&& buckets.len() == n
    &&& forall|r: int| 0 <= r < n ==> bucket_is((#[trigger] buckets[r])@, row_bucket(m, r))
}

impl StructureView {
    /// The number of predicates.
    pub open spec fn len(self) -> nat {
        self.mats.len()
    }

    /// One of the three matrices, of every predicate.
    pub open spec fn mats_of(self, which: int) -> Seq<Entries> {
        Seq::new(self.mats.len(), |i: int| self.mats[i][which])
    }

    /// A matrix of a predicate, extended to a point.
    pub open spec fn eval_predicate(self, id: int, which: int, r_x: Seq<int>, r_y: Seq<int>) -> int {
        weighted(self.mats[id][which], weights(r_x), weights(r_y))
    }

    /// A matrix folded from those of the predicates, extended to a point.
    pub open spec fn eval_folded(self, coeffs: Seq<int>, which: int, r_x: Seq<int>, r_y: Seq<int>) -> int {
        folded(self.mats_of(which), coeffs, weights(r_x), weights(r_y))
    }

    /// A matrix of a predicate times a vector, extended to a point.
    pub open spec fn eval_row_compression(self, id: int, which: int, r_x: Seq<int>, z: Seq<int>) -> int {
        weighted(self.mats[id][which], weights(r_x), values(z))
    }

    /// Whether the matrices and keys fit the sizes.
    pub open spec fn wf(self) -> bool {
        &&& self.num_io >= 0 && self.num_vars_max >= 0
        &&& self.mats.len() > 0
        &&& self.comm_M.len() == self.mats.len()
        &&& self.keys.len() == 3 && self.blindings.len() == 3
        &&& self.s_max >= 1 && self.s_prime_max >= 1
        &&& self.num_vars_max + 1 + self.num_io <= pow2(self.s_prime_max)
        &&& forall|i: int, j: int|
            0 <= i < self.mats.len() && 0 <= j < 3 ==> entries_fit(
                #[trigger] self.mats[i][j],
                pow2(self.s_max) as int,
                pow2(self.s_prime_max) as int,
            )
        &&& forall|i: int| 0 <= i < self.mats.len() ==> (#[trigger] self.mats[i]).len() == 3
        &&& forall|i: int| 0 <= i < self.mats.len() ==> (#[trigger] self.comm_M[i]).len() == 3
        &&& forall|j: int| 0 <= j < 3 ==> (#[trigger] self.keys[j]).len() >= self.mats.len()
    }

    /// Whether every predicate is committed to by its unit vector.
    pub open spec fn committed<E: CurveGroup>(self) -> bool {
        forall|i: int, j: int|
            0 <= i < self.mats.len() && 0 <= j < 3 ==> #[trigger] self.comm_M[i][j] == commitment_log::<E>(
                self.keys[j],
                self.blindings[j],
                unit(i, self.mats.len() as int),
                0,
            )
    }
}

/// The unit vector of length `n` with the one at `i`.
pub open spec fn unit(i: int, n: int) -> Seq<int> {
    Seq::new(
        n as nat,
        |k: int|
            if k == i {
                1int
            } else {
                0
            },
    )
}

/// A sequence cut off or filled up with zeros to a length, each value reduced.
pub open spec fn projected(s: Seq<int>, n: int, p: int) -> Seq<int> {
    Seq::new(n as nat, |i: int| at(s, i) % p)
}

/// A sequence cut off or filled up with zeros to a length.
pub open spec fn resized(s: Seq<int>, n: int) -> Seq<int> {
    Seq::new(n as nat, |i: int| at(s, i))
}

/// The extension of a vector at a point.
pub open spec fn vector_eval(z: Seq<int>, r_y: Seq<int>) -> int {
    sum(|i: int| z[i] * eq_weight(i, r_y), z.len() as int)
}

/// What the first `k` bits contribute to the weight at a point.
pub open spec fn bits_weight(bits: Seq<bool>, point: Seq<int>, k: int) -> int
    decreases k,
{
    if k <= 0 {
        1
    } else {
        bits_weight(bits, point, k - 1) * (if bits[k - 1] {
            point[k - 1]
        } else {
            1 - point[k - 1]
        })
    }
}

/// The bits of an index give its weight.
pub(crate) proof fn lemma_bits_weight(bits: Seq<bool>, idx: int, point: Seq<int>, k: int)
    requires
        forall|i: int| 0 <= i < k ==> #[trigger] bits[i] == bit(idx, i),
    ensures
        bits_weight(bits, point, k) == eq_prefix(idx, point, k),
    decreases k,
{
    if k > 0 {
        lemma_bits_weight(bits, idx, point, k - 1);
        assert(bits[k - 1] == bit(idx, k - 1));
    }
}

/// The low `len` bits of an index, the least significant first.
pub fn bits_le(idx: usize, len: usize) -> (bits: Vec<bool>)
    ensures
        bits.len() == len,
        forall|k: int| 0 <= k < len ==> #[trigger] bits[k] == bit(idx as int, k),
{
    let mut bits: Vec<bool> = Vec::new();
    let mut m: usize = idx;
    let mut i: usize = 0;
    proof {
        vstd::arithmetic::power2::lemma2_to64();
    }
    while i < len
        invariant
            i <= len,
            bits.len() == i,
            m == idx as int / pow2(i as nat) as int,
            forall|k: int| 0 <= k < i ==> #[trigger] bits[k] == bit(idx as int, k),
        decreases len - i,
    {
        bits.push(m % 2 == 1);
        proof {
            lemma_pow2_pos(i as nat);
            lemma_pow2_unfold((i + 1) as nat);
            let d = pow2(i as nat) as int;
            vstd::arithmetic::div_mod::lemma_div_denominator(idx as int, d, 2);
            assert(d * 2 == pow2((i + 1) as nat));
        }
        m = m / 2;
        i = i + 1;
    }
    bits
}

/// The weight that the bits have at a point.
pub fn eq_eval<F: FieldElement>(bits: &Vec<bool>, point: &Vec<F>) -> (r: F)
    requires
        bits.len() == point.len(),
    ensures
        r.val() == bits_weight(bits@, vals(point@), bits.len() as int) % F::modulus(),
{
    let ghost p = F::modulus();
    let ghost pt = vals(point@);
    let one = F::from_u64(1);
    let mut acc = one;
    let mut i: usize = 0;
    proof {
        F::modulus_bounds();
    }
    while i < bits.len()
        invariant
            p == F::modulus(),
            p > 1,
            pt == vals(point@),
            one.val() == 1,
            i <= bits.len(),
            bits.len() == point.len(),
            cong(acc.val(), bits_weight(bits@, pt, i as int), p),
        decreases bits.len() - i,
    {
        let term = if bits[i] {
            point[i]
        } else {
            one.sub(&point[i])
        };
        proof {
            assert(pt[i as int] == point@[i as int].val());
            if !bits[i as int] {
                lemma_cong_mod(1 - pt[i as int], p);
            }
            let t = if bits[i as int] {
                pt[i as int]
            } else {
                1 - pt[i as int]
            };
            lemma_residue_mul(acc.val(), bits_weight(bits@, pt, i as int), term.val(), t, p);
        }
        acc = acc.mul(&term);
        i = i + 1;
    }
    proof {
        acc.val_bounds();
        lemma_canonical(acc.val(), bits_weight(bits@, pt, bits.len() as int), p);
    }
    acc
}

/// The weight of an index at a point.
pub fn eq_at<F: FieldElement>(idx: usize, point: &Vec<F>) -> (r: F)
    ensures
        r.val() == eq_weight(idx as int, vals(point@)) % F::modulus(),
{
    let bits = bits_le(idx, point.len());
    proof {
        lemma_bits_weight(bits@, idx as int, vals(point@), point.len() as int);
    }
    eq_eval(&bits, point)
}

/// An element of a vector, or zero behind its end.
pub(crate) fn get_or_zero<F: FieldElement>(z: &Vec<F>, i: usize) -> (r: F)
    ensures
        r.val() == at(vals(z@), i as int),
{
    if i < z.len() {
        z[i]
    } else {
        F::from_u64(0)
    }
}

/// A vector of zeros.
pub(crate) fn zeros<F: FieldElement>(n: usize) -> (r: Vec<F>)
    ensures
        vals(r@) == Seq::new(n as nat, |i: int| 0int),
{
    let mut r: Vec<F> = Vec::new();
    let mut i: usize = 0;
    while i < n
        invariant
            i <= n,
            r.len() == i,
            forall|k: int| 0 <= k < i ==> (#[trigger] r[k]).val() == 0,
        decreases n - i,
    {
        r.push(F::from_u64(0));
        i = i + 1;
    }
    assert(vals(r@) =~= Seq::new(n as nat, |i: int| 0int));
    r
}

/// A copy of a vector of elements.
pub(crate) fn copy_vec<F: FieldElement>(v: &Vec<F>) -> (r: Vec<F>)
    ensures
        r@ == v@,
{
    let mut r: Vec<F> = Vec::new();
    let mut i: usize = 0;
    while i < v.len()
        invariant
            i <= v.len(),
            r@ == v@.take(i as int),
        decreases v.len() - i,
    {
        r.push(v[i]);
        i = i + 1;
    }
    assert(v@.take(v.len() as int) =~= v@);
    r
}

impl<E: CurveEngine> GlobalStructure<E> {
    /// Whether the tables are those of the matrices, and everything fits the sizes.
    pub open spec fn wf(&self) -> bool {
        &&& self@.wf()
        &&& self@.committed::<E>()
        &&& pow2(self.s_max as nat) <= usize::MAX
        &&& pow2(self.s_prime_max as nat) <= usize::MAX
        &&& self.z_len_max == self.num_vars_max + 1 + self.num_io
        &&& forall|i: int, j: int|
            #![trigger self.predicates@[i].matrix_at_zero[j]]
            0 <= i < self.predicates@.len() && 0 <= j < 3 ==> self.predicates@[i].matrix_at_zero[j].val()
                == matrix_corner(entries(self.predicates@[i].mats[j]@)) % E::Base::modulus()
        &&& forall|i: int, j: int|
            #![trigger self.predicates@[i].row_buckets[j]]
            0 <= i < self.predicates@.len() && 0 <= j < 3 ==> buckets_are(
                self.predicates@[i].row_buckets[j]@,
                entries(self.predicates@[i].mats[j]@),
                pow2(self.s_max as nat) as int,
            )
        &&& forall|i: int, j: int|
            #![trigger self.predicates@[i].col_buckets[j]]
            0 <= i < self.predicates@.len() && 0 <= j < 3 ==> buckets_are(
                self.predicates@[i].col_buckets[j]@,
                transposed(entries(self.predicates@[i].mats[j]@)),
                pow2(self.s_prime_max as nat) as int,
            )
    }

    /// A matrix of a predicate, extended to a point.
    pub fn eval_matrix_predicate(
        &self,
        predicate_id: usize,
        which: usize,
        r_x: &Vec<E::Base>,
        r_y: &Vec<E::Base>,
    ) -> (r: E::Base)
        requires
            self.wf(),
            predicate_id < self@.len(),
            which < 3,
            r_x.len() == self.s_max,
            r_y.len() == self.s_prime_max,
        ensures
            r.val() == self@.eval_predicate(predicate_id as int, which as int, vals(r_x@), vals(r_y@))
                % E::Base::modulus(),
    {
        let ghost p = E::Base::modulus();
        let ghost (u, w) = (weights(vals(r_x@)), weights(vals(r_y@)));
        let mat = &self.predicates[predicate_id].mats[which];
        let ghost m = entries(mat@);
        assert(m == self@.mats[predicate_id as int][which as int]);
        let ghost f = |k: int| weighted_entry(m[k], u, w);
        let mut acc = E::Base::from_u64(0);
        let mut i: usize = 0;
        proof {
            E::Base::modulus_bounds();
        }
        while i < mat.len()
            invariant
                p == E::Base::modulus(),
                p > 1,
                i <= mat.len(),
                m == entries(mat@),
                u == weights(vals(r_x@)),
                w == weights(vals(r_y@)),
                f == (|k: int| weighted_entry(m[k], u, w)),
                cong(acc.val(), sum(f, i as int), p),
            decreases mat.len() - i,
        {
            let (row, col, val) = mat[i];
            let row_weight = eq_at(row, r_x);
            let col_weight = eq_at(col, r_y);
            let partial = val.mul(&row_weight);
            let term = partial.mul(&col_weight);
            proof {
                let e = m[i as int];
                lemma_cong_mod(u(e.0), p);
                lemma_cong_mod(w(e.1), p);
                lemma_residue_mul(val.val(), e.2, row_weight.val(), u(e.0), p);
                lemma_residue_mul(partial.val(), e.2 * u(e.0), col_weight.val(), w(e.1), p);
                lemma_residue_add(acc.val(), sum(f, i as int), term.val(), f(i as int), p);
            }
            acc = acc.add(&term);
            i = i + 1;
        }
        proof {
            acc.val_bounds();
            lemma_canonical(acc.val(), sum(f, m.len() as int), p);
        }
        acc
    }

    /// A matrix folded from those of the predicates, extended to a point.
    pub fn eval_matrix_folded(
        &self,
        coeffs: &Vec<E::Base>,
        which: usize,
        r_x: &Vec<E::Base>,
        r_y: &Vec<E::Base>,
    ) -> (r: E::Base)
        requires
            self.wf(),
            coeffs.len() <= self@.len(),
            which < 3,
            r_x.len() == self.s_max,
            r_y.len() == self.s_prime_max,
        ensures
            r.val() == self@.eval_folded(vals(coeffs@), which as int, vals(r_x@), vals(r_y@)) % E::Base::modulus(),
    {
        let ghost p = E::Base::modulus();
        let ghost (u, w) = (weights(vals(r_x@)), weights(vals(r_y@)));
        let ghost mats = self@.mats_of(which as int);
        let ghost c = vals(coeffs@);
        let ghost f = |k: int| c[k] * weighted(mats[k], u, w);
        let mut acc = E::Base::from_u64(0);
        let mut i: usize = 0;
        proof {
            E::Base::modulus_bounds();
        }
        while i < coeffs.len()
            invariant
                self.wf(),
                coeffs.len() <= self@.len(),
                which < 3,
                r_x.len() == self.s_max,
                r_y.len() == self.s_prime_max,
                p == E::Base::modulus(),
                p > 1,
                i <= coeffs.len(),
                mats == self@.mats_of(which as int),
                c == vals(coeffs@),
                u == weights(vals(r_x@)),
                w == weights(vals(r_y@)),
                f == (|k: int| c[k] * weighted(mats[k], u, w)),
                cong(acc.val(), sum(f, i as int), p),
            decreases coeffs.len() - i,
        {
            let eval = self.eval_matrix_predicate(i, which, r_x, r_y);
            let term = coeffs[i].mul(&eval);
            proof {
                let x = weighted(mats[i as int], u, w);
                assert(c[i as int] == coeffs@[i as int].val());
                lemma_cong_mod(x, p);
                lemma_residue_mul(c[i as int], c[i as int], eval.val(), x, p);
                lemma_residue_add(acc.val(), sum(f, i as int), term.val(), f(i as int), p);
            }
            acc = acc.add(&term);
            i = i + 1;
        }
        proof {
            acc.val_bounds();
            lemma_canonical(acc.val(), sum(f, c.len() as int), p);
        }
        acc
    }

    /// A matrix of a predicate times a vector, extended to a point.
    pub fn eval_row_compression_predicate(
        &self,
        predicate_id: usize,
        which: usize,
        r_x: &Vec<E::Base>,
        z: &Vec<E::Base>,
    ) -> (r: E::Base)
        requires
            self.wf(),
            predicate_id < self@.len(),
            which < 3,
            r_x.len() == self.s_max,
        ensures
            r.val() == self@.eval_row_compression(predicate_id as int, which as int, vals(r_x@), vals(z@))
                % E::Base::modulus(),
    {
        let ghost p = E::Base::modulus();
        let ghost (u, w) = (weights(vals(r_x@)), values(vals(z@)));
        let mat = &self.predicates[predicate_id].mats[which];
        let ghost m = entries(mat@);
        assert(m == self@.mats[predicate_id as int][which as int]);
        let ghost f = |k: int| weighted_entry(m[k], u, w);
        let mut acc = E::Base::from_u64(0);
        let mut i: usize = 0;
        proof {
            E::Base::modulus_bounds();
        }
        while i < mat.len()
            invariant
                p == E::Base::modulus(),
                p > 1,
                i <= mat.len(),
                m == entries(mat@),
                u == weights(vals(r_x@)),
                w == values(vals(z@)),
                f == (|k: int| weighted_entry(m[k], u, w)),
                cong(acc.val(), sum(f, i as int), p),
            decreases mat.len() - i,
        {
            let (row, col, val) = mat[i];
            let row_weight = eq_at(row, r_x);
            let z_col = get_or_zero(z, col);
            let partial = val.mul(&row_weight);
            let term = partial.mul(&z_col);
            proof {
                let e = m[i as int];
                lemma_cong_mod(u(e.0), p);
                lemma_residue_mul(val.val(), e.2, row_weight.val(), u(e.0), p);
                lemma_residue_mul(partial.val(), e.2 * u(e.0), z_col.val(), w(e.1), p);
                lemma_residue_add(acc.val(), sum(f, i as int), term.val(), f(i as int), p);
            }
            acc = acc.add(&term);
            i = i + 1;
        }
        proof {
            acc.val_bounds();
            lemma_canonical(acc.val(), sum(f, m.len() as int), p);
        }
        acc
    }

    /// A vector, extended to a point.
    pub fn eval_z(&self, z: &Vec<E::Base>, r_y: &Vec<E::Base>) -> (r: E::Base)
        requires
            r_y.len() == self.s_prime_max,
        ensures
            r.val() == vector_eval(vals(z@), vals(r_y@)) % E::Base::modulus(),
    {
        let ghost p = E::Base::modulus();
        let ghost zs = vals(z@);
        let ghost pt = vals(r_y@);
        let ghost f = |i: int| zs[i] * eq_weight(i, pt);
        let mut acc = E::Base::from_u64(0);
        let mut i: usize = 0;
        proof {
            E::Base::modulus_bounds();
        }
        while i < z.len()
            invariant
                p == E::Base::modulus(),
                p > 1,
                i <= z.len(),
                zs == vals(z@),
                pt == vals(r_y@),
                f == (|i: int| zs[i] * eq_weight(i, pt)),
                cong(acc.val(), sum(f, i as int), p),
            decreases z.len() - i,
        {
            let weight = eq_at(i, r_y);
            let term = z[i].mul(&weight);
            proof {
                assert(zs[i as int] == z@[i as int].val());
                lemma_cong_mod(eq_weight(i as int, pt), p);
                lemma_residue_mul(zs[i as int], zs[i as int], weight.val(), eq_weight(i as int, pt), p);
                lemma_residue_add(acc.val(), sum(f, i as int), term.val(), f(i as int), p);
            }
            acc = acc.add(&term);
            i = i + 1;
        }
        proof {
            acc.val_bounds();
            lemma_canonical(acc.val(), sum(f, zs.len() as int), p);
        }
        acc
    }
}

/// The claimed evaluations of folded matrices and of a vector.
pub open spec fn claims(s: StructureView, coeffs: Seq<int>, r_x: Seq<int>, r_y: Seq<int>, z: Seq<int>, p: int) -> Seq<int> {
    seq![
        s.eval_folded(coeffs, 0, r_x, r_y) % p,
        s.eval_folded(coeffs, 1, r_x, r_y) % p,
        s.eval_folded(coeffs, 2, r_x, r_y) % p,
        vector_eval(z, r_y) % p,
    ]
}

/// The folded matrices at a new point of the rows and the old point of the columns.
pub open spec fn sigmas(s: StructureView, lambda: Seq<int>, r_x: Seq<int>, r_y: Seq<int>, p: int) -> Seq<int> {
    seq![
        s.eval_folded(lambda, 0, r_x, r_y) % p,
        s.eval_folded(lambda, 1, r_x, r_y) % p,
        s.eval_folded(lambda, 2, r_x, r_y) % p,
    ]
}

/// The matrices of a predicate times a vector, at a point of the rows.
pub open spec fn taus(s: StructureView, id: int, r_x: Seq<int>, z: Seq<int>, p: int) -> Seq<int> {
    seq![
        s.eval_row_compression(id, 0, r_x, z) % p,
        s.eval_row_compression(id, 1, r_x, z) % p,
        s.eval_row_compression(id, 2, r_x, z) % p,
    ]
}

/// The matrices of a predicate and a vector at a point.
pub open spec fn thetas(s: StructureView, id: int, r_x: Seq<int>, r_y: Seq<int>, z: Seq<int>, p: int) -> Seq<int> {
    seq![
        s.eval_predicate(id, 0, r_x, r_y) % p,
        s.eval_predicate(id, 1, r_x, r_y) % p,
        s.eval_predicate(id, 2, r_x, r_y) % p,
        vector_eval(z, r_y) % p,
    ]
}

/// The vector that a folded instance and its witness make up.
pub open spec fn folded_z(u: FoldedInstanceView, w: FoldedWitnessView) -> Seq<int> {
    w.W_proj + seq![u.u] + u.X
}

/// The vector that an instance and its witness make up in the base field.
pub open spec fn incoming_z(s: StructureView, u: InstanceView, w: WitnessView, p: int) -> Seq<int> {
    projected(w.W, s.num_vars_max, p) + seq![1int] + projected(u.X, s.num_io, p)
}

/// A linear combination of two vectors, over the shorter of the two.
pub open spec fn combined(a: Seq<int>, b: Seq<int>, r: int, p: int) -> Seq<int> {
    Seq::new(
        if a.len() <= b.len() {
            a.len()
        } else {
            b.len()
        },
        |i: int| (a[i] + r * b[i]) % p,
    )
}

/// The three commitments to coefficients of the index.
pub open spec fn index_commitments<E: CurveGroup>(s: StructureView, coeffs: Seq<int>) -> Seq<int> {
    Seq::new(3, |j: int| commitment_log::<E>(s.keys[j], s.blindings[j], coeffs, 0))
}

/// Whether the parts of a folded instance and of its witness have the lengths of the structure.
pub open spec fn lengths_fit(s: StructureView, u: FoldedInstanceView, w: FoldedWitnessView) -> bool {
    &&& w.W.len() == s.num_vars_max
    &&& w.W_proj.len() == s.num_vars_max
    &&& w.lambda_scalar.len() == s.len()
    &&& w.lambda_proj.len() == s.len()
    &&& u.X.len() == s.num_io
    &&& u.r_x.len() == s.s_max
    &&& u.r_y.len() == s.s_prime_max
    &&& u.v.len() == 4
}

/// What checking a folded instance against its witness returns.
pub open spec fn folded_sat<E: CurveEngine>(
    s: StructureView,
    ck: E::CommitmentKey,
    u: FoldedInstanceView,
    w: FoldedWitnessView,
) -> Result<(), NovaError> {
    if !lengths_fit(s, u, w) {
        Err(NovaError::InvalidWitnessLength)
    } else if u.comm_W != commitment_log::<E>(E::generators(&ck), E::blinding(&ck), w.W, w.r_W) {
        Err(NovaError::UnSat { reason: UnSatReason::WitnessCommitment })
    } else if u.comm_M != index_commitments::<E>(s, w.lambda_scalar) {
        Err(NovaError::UnSat { reason: UnSatReason::IndexCommitment })
    } else if u.v != claims(s, w.lambda_proj, u.r_x, u.r_y, folded_z(u, w), E::Base::modulus()) {
        Err(NovaError::UnSat { reason: UnSatReason::Relation })
    } else {
        Ok(())
    }
}

/// The folded witness after a step.
pub open spec fn fold_witness(
    s: StructureView,
    id: int,
    w: FoldedWitnessView,
    w2: WitnessView,
    rho: int,
    rho_scalar: int,
    p: int,
    q: int,
) -> FoldedWitnessView {
    FoldedWitnessView {
        W: combined(w.W, resized(w2.W, w.W.len() as int), rho_scalar, q),
        W_proj: combined(w.W_proj, projected(w2.W, s.num_vars_max, p), rho, p),
        r_W: (w.r_W + rho_scalar * w2.r_W) % q,
        lambda_scalar: w.lambda_scalar.update(id, (w.lambda_scalar[id] + rho_scalar) % q),
        lambda_proj: w.lambda_proj.update(id, (w.lambda_proj[id] + rho) % p),
    }
}

/// The folded instance after a step.
pub open spec fn fold_instance(
    s: StructureView,
    id: int,
    u: FoldedInstanceView,
    u2: InstanceView,
    rho: int,
    rho_scalar: int,
    r_x: Seq<int>,
    r_y: Seq<int>,
    v: Seq<int>,
    p: int,
    q: int,
) -> FoldedInstanceView {
    FoldedInstanceView {
        comm_W: (u.comm_W + u2.comm_W * rho_scalar) % q,
        comm_M: Seq::new(3, |j: int| (u.comm_M[j] + s.comm_M[id][j] * rho_scalar) % q),
        u: (u.u + rho) % p,
        X: combined(u.X, projected(u2.X, s.num_io, p), rho, p),
        r_x,
        r_y,
        v,
    }
}

/// Elements brought to a length, in the other field.
fn project<E: CurveEngine>(s: &Vec<E::Scalar>, n: usize) -> (r: Vec<E::Base>)
    ensures
        vals(r@) == projected(vals(s@), n as int, E::Base::modulus()),
{
    let ghost p = E::Base::modulus();
    let mut r: Vec<E::Base> = Vec::new();
    let mut i: usize = 0;
    proof {
        E::Base::modulus_bounds();
        vstd::arithmetic::div_mod::lemma_small_mod(0, p as nat);
    }
    while i < n
        invariant
            i <= n,
            p == E::Base::modulus(),
            0int % p == 0,
            r.len() == i,
            forall|k: int| 0 <= k < i ==> (#[trigger] r[k]).val() == at(vals(s@), k) % p,
        decreases n - i,
    {
        if i < s.len() {
            r.push(E::scalar_as_base(&s[i]));
        } else {
            r.push(E::Base::from_u64(0));
        }
        i = i + 1;
    }
    assert(vals(r@) =~= projected(vals(s@), n as int, p));
    r
}

/// Elements brought to a length.
pub(crate) fn resize<F: FieldElement>(s: &Vec<F>, n: usize) -> (r: Vec<F>)
    ensures
        vals(r@) == resized(vals(s@), n as int),
{
    let mut r: Vec<F> = Vec::new();
    let mut i: usize = 0;
    while i < n
        invariant
            i <= n,
            r.len() == i,
            forall|k: int| 0 <= k < i ==> (#[trigger] r[k]).val() == at(vals(s@), k),
        decreases n - i,
    {
        r.push(get_or_zero(s, i));
        i = i + 1;
    }
    assert(vals(r@) =~= resized(vals(s@), n as int));
    r
}

/// A linear combination of two elements.
pub(crate) fn fold_element<F: FieldElement>(a: &F, b: &F, r: &F) -> (c: F)
    ensures
        c.val() == (a.val() + r.val() * b.val()) % F::modulus(),
{
    let prod = r.mul(b);
    let c = a.add(&prod);
    proof {
        let p = F::modulus();
        F::modulus_bounds();
        lemma_cong_mod(r.val() * b.val(), p);
        lemma_residue_add(a.val(), a.val(), prod.val(), r.val() * b.val(), p);
        c.val_bounds();
        lemma_canonical(c.val(), a.val() + r.val() * b.val(), p);
    }
    c
}

/// A linear combination of two vectors, over the shorter of the two.
pub(crate) fn fold_vec<F: FieldElement>(a: &Vec<F>, b: &Vec<F>, r: &F) -> (c: Vec<F>)
    ensures
        vals(c@) == combined(vals(a@), vals(b@), r.val(), F::modulus()),
{
    let mut c: Vec<F> = Vec::new();
    let mut i: usize = 0;
    while i < a.len() && i < b.len()
        invariant
            i <= a.len(),
            i <= b.len(),
            c.len() == i,
            forall|k: int|
                0 <= k < i ==> (#[trigger] c[k]).val() == (a[k].val() + r.val() * b[k].val()) % F::modulus(),
        decreases a.len() - i,
    {
        c.push(fold_element(&a[i], &b[i], r));
        i = i + 1;
    }
    assert(vals(c@) =~= combined(vals(a@), vals(b@), r.val(), F::modulus()));
    c
}

/// Whether two vectors hold the same residues.
pub(crate) fn equal_vecs<F: FieldElement>(a: &Vec<F>, b: &Vec<F>) -> (r: bool)
    ensures
        r == (vals(a@) == vals(b@)),
{
    if a.len() != b.len() {
        assert(vals(a@).len() != vals(b@).len());
        return false;
    }
    let mut i: usize = 0;
    while i < a.len()
        invariant
            i <= a.len(),
            a.len() == b.len(),
            forall|k: int| 0 <= k < i ==> (#[trigger] a[k]).val() == b[k].val(),
        decreases a.len() - i,
    {
        if !a[i].equals(&b[i]) {
            assert(vals(a@)[i as int] != vals(b@)[i as int]);
            return false;
        }
        i = i + 1;
    }
    assert(vals(a@) =~= vals(b@));
    true
}

/// The unit vector of length `len` with the one at `id`.
pub(crate) fn unit_vec<F: FieldElement>(id: usize, len: usize) -> (r: Vec<F>)
    requires
        id < len,
    ensures
        vals(r@) == unit(id as int, len as int),
{
    let mut r: Vec<F> = Vec::new();
    let mut i: usize = 0;
    while i < len
        invariant
            i <= len,
            r.len() == i,
            forall|k: int|
                0 <= k < i ==> (#[trigger] r[k]).val() == (if k == id {
                    1int
                } else {
                    0
                }),
        decreases len - i,
    {
        if i == id {
            r.push(F::from_u64(1));
        } else {
            r.push(F::from_u64(0));
        }
        i = i + 1;
    }
    assert(vals(r@) =~= unit(id as int, len as int));
    r
}

impl<E: CurveEngine> GlobalStructure<E> {
    /// The unit vector of a predicate, in the scalar field.
    pub fn basis_coeffs_scalar(&self, id: usize) -> (r: Vec<E::Scalar>)
        requires
            id < self@.len(),
        ensures
            vals(r@) == unit(id as int, self@.len() as int),
    {
        unit_vec(id, self.predicates.len())
    }

    /// The unit vector of a predicate, in the base field.
    pub fn basis_coeffs_base(&self, id: usize) -> (r: Vec<E::Base>)
        requires
            id < self@.len(),
        ensures
            vals(r@) == unit(id as int, self@.len() as int),
    {
        unit_vec(id, self.predicates.len())
    }

    /// The origin of the points of the rows.
    pub fn zero_r_x(&self) -> (r: Vec<E::Base>)
        ensures
            vals(r@) == Seq::new(self@.s_max, |i: int| 0int),
    {
        zeros(self.s_max)
    }

    /// The origin of the points of the columns.
    pub fn zero_r_y(&self) -> (r: Vec<E::Base>)
        ensures
            vals(r@) == Seq::new(self@.s_prime_max, |i: int| 0int),
    {
        zeros(self.s_prime_max)
    }

    /// A witness in the base field, brought to the length of the longest.
    pub fn project_witness(&self, W: &Vec<E::Scalar>) -> (r: Vec<E::Base>)
        ensures
            vals(r@) == projected(vals(W@), self@.num_vars_max, E::Base::modulus()),
    {
        project::<E>(W, self.num_vars_max)
    }

    /// Public values in the base field, brought to their number.
    pub fn project_io(&self, X: &Vec<E::Scalar>) -> (r: Vec<E::Base>)
        ensures
            vals(r@) == projected(vals(X@), self@.num_io, E::Base::modulus()),
    {
        project::<E>(X, self.num_io)
    }

    /// The three commitments to coefficients of the index.
    pub fn commit_index_coeffs(&self, coeffs: &Vec<E::Scalar>) -> (r: [Commitment<E>; 3])
        requires
            self.wf(),
            coeffs.len() <= self@.len(),
        ensures
            views3(r) == index_commitments::<E>(self@, vals(coeffs@)),
    {
        let zero = E::Scalar::from_u64(0);
        assert(self@.keys[0].len() >= self@.len());
        assert(self@.keys[1].len() >= self@.len());
        assert(self@.keys[2].len() >= self@.len());
        let a = E::commit(&self.ck_index[0], coeffs, &zero);
        let b = E::commit(&self.ck_index[1], coeffs, &zero);
        let c = E::commit(&self.ck_index[2], coeffs, &zero);
        let r = [a, b, c];
        assert(views3(r) =~= index_commitments::<E>(self@, vals(coeffs@)));
        r
    }

    /// The three commitments to a predicate.
    pub fn predicate_commitments(&self, predicate_id: usize) -> (r: [Commitment<E>; 3])
        requires
            predicate_id < self@.len(),
        ensures
            views3(r) == self@.comm_M[predicate_id as int],
    {
        let c = &self.predicates[predicate_id].comm_M;
        let r = [c[0].copied(), c[1].copied(), c[2].copied()];
        assert(views3(r) =~= views3(*c));
        r
    }

    /// The vector that a folded instance and its witness make up.
    pub fn z_from_folded(&self, U: &FoldedInstance<E>, W: &FoldedWitness<E>) -> (r: Vec<E::Base>)
        ensures
            vals(r@) == folded_z(U@, W@),
    {
        let mut r = copy_vec(&W.W_proj);
        r.push(U.u);
        let mut tail = copy_vec(&U.X);
        r.append(&mut tail);
        assert(vals(r@) =~= folded_z(U@, W@));
        r
    }

    /// The vector that an instance and its witness make up in the base field.
    pub fn z_from_r1cs(&self, U: &R1CSInstance<E>, W: &R1CSWitness<E>) -> (r: Vec<E::Base>)
        ensures
            vals(r@) == incoming_z(self@, U@, W@, E::Base::modulus()),
    {
        let mut r = self.project_witness(&W.W);
        let ghost head = r@;
        r.push(E::Base::from_u64(1));
        let mut tail = self.project_io(&U.X);
        let ghost end = tail@;
        r.append(&mut tail);
        assert(vals(r@) =~= vals(head) + seq![1int] + vals(end));
        r
    }

    /// The claimed evaluations of folded matrices and of a vector.
    pub fn compute_v_from_coeffs(
        &self,
        coeffs: &Vec<E::Base>,
        r_x: &Vec<E::Base>,
        r_y: &Vec<E::Base>,
        z: &Vec<E::Base>,
    ) -> (r: Vec<E::Base>)
        requires
            self.wf(),
            coeffs.len() <= self@.len(),
            r_x.len() == self.s_max,
            r_y.len() == self.s_prime_max,
        ensures
            vals(r@) == claims(self@, vals(coeffs@), vals(r_x@), vals(r_y@), vals(z@), E::Base::modulus()),
    {
        let mut r: Vec<E::Base> = Vec::new();
        r.push(self.eval_matrix_folded(coeffs, 0, r_x, r_y));
        r.push(self.eval_matrix_folded(coeffs, 1, r_x, r_y));
        r.push(self.eval_matrix_folded(coeffs, 2, r_x, r_y));
        r.push(self.eval_z(z, r_y));
        assert(vals(r@) =~= claims(
            self@,
            vals(coeffs@),
            vals(r_x@),
            vals(r_y@),
            vals(z@),
            E::Base::modulus(),
        ));
        r
    }

    /// The folded matrices at a new point of the rows.
    pub fn compute_sigmas(&self, lambda: &Vec<E::Base>, r_y: &Vec<E::Base>, r_x_prime: &Vec<E::Base>) -> (r: Vec<E::Base>)
        requires
            self.wf(),
            lambda.len() <= self@.len(),
            r_x_prime.len() == self.s_max,
            r_y.len() == self.s_prime_max,
        ensures
            vals(r@) == sigmas(self@, vals(lambda@), vals(r_x_prime@), vals(r_y@), E::Base::modulus()),
    {
        let mut r: Vec<E::Base> = Vec::new();
        r.push(self.eval_matrix_folded(lambda, 0, r_x_prime, r_y));
        r.push(self.eval_matrix_folded(lambda, 1, r_x_prime, r_y));
        r.push(self.eval_matrix_folded(lambda, 2, r_x_prime, r_y));
        assert(vals(r@) =~= sigmas(self@, vals(lambda@), vals(r_x_prime@), vals(r_y@), E::Base::modulus()));
        r
    }

    /// The matrices of a predicate times a vector, at a point of the rows.
    pub fn compute_taus(&self, predicate_id: usize, r_x_prime: &Vec<E::Base>, z_new: &Vec<E::Base>) -> (r: Vec<
        E::Base,
    >)
        requires
            self.wf(),
            predicate_id < self@.len(),
            r_x_prime.len() == self.s_max,
        ensures
            vals(r@) == taus(self@, predicate_id as int, vals(r_x_prime@), vals(z_new@), E::Base::modulus()),
    {
        let mut r: Vec<E::Base> = Vec::new();
        r.push(self.eval_row_compression_predicate(predicate_id, 0, r_x_prime, z_new));
        r.push(self.eval_row_compression_predicate(predicate_id, 1, r_x_prime, z_new));
        r.push(self.eval_row_compression_predicate(predicate_id, 2, r_x_prime, z_new));
        assert(vals(r@) =~= taus(self@, predicate_id as int, vals(r_x_prime@), vals(z_new@), E::Base::modulus()));
        r
    }

    /// The folded matrices and the running vector at a new point.
    pub fn compute_epsilons(
        &self,
        lambda: &Vec<E::Base>,
        z_running: &Vec<E::Base>,
        r_x_prime: &Vec<E::Base>,
        r_y_prime: &Vec<E::Base>,
    ) -> (r: Vec<E::Base>)
        requires
            self.wf(),
            lambda.len() <= self@.len(),
            r_x_prime.len() == self.s_max,
            r_y_prime.len() == self.s_prime_max,
        ensures
            vals(r@) == claims(
                self@,
                vals(lambda@),
                vals(r_x_prime@),
                vals(r_y_prime@),
                vals(z_running@),
                E::Base::modulus(),
            ),
    {
        self.compute_v_from_coeffs(lambda, r_x_prime, r_y_prime, z_running)
    }

    /// The matrices of a predicate and the incoming vector at a new point.
    pub fn compute_thetas(
        &self,
        predicate_id: usize,
        z_new: &Vec<E::Base>,
        r_x_prime: &Vec<E::Base>,
        r_y_prime: &Vec<E::Base>,
    ) -> (r: Vec<E::Base>)
        requires
            self.wf(),
            predicate_id < self@.len(),
            r_x_prime.len() == self.s_max,
            r_y_prime.len() == self.s_prime_max,
        ensures
            vals(r@) == thetas(
                self@,
                predicate_id as int,
                vals(r_x_prime@),
                vals(r_y_prime@),
                vals(z_new@),
                E::Base::modulus(),
            ),
    {
        let mut r: Vec<E::Base> = Vec::new();
        r.push(self.eval_matrix_predicate(predicate_id, 0, r_x_prime, r_y_prime));
        r.push(self.eval_matrix_predicate(predicate_id, 1, r_x_prime, r_y_prime));
        r.push(self.eval_matrix_predicate(predicate_id, 2, r_x_prime, r_y_prime));
        r.push(self.eval_z(z_new, r_y_prime));
        assert(vals(r@) =~= thetas(
            self@,
            predicate_id as int,
            vals(r_x_prime@),
            vals(r_y_prime@),
            vals(z_new@),
            E::Base::modulus(),
        ));
        r
    }

    /// Checks a folded instance against its witness: the lengths, the two kinds of commitments and the
    /// claimed evaluations, in this order.
    pub fn is_sat(&self, ck_witness: &E::CommitmentKey, U: &FoldedInstance<E>, W: &FoldedWitness<E>) -> (r: Result<
        (),
        NovaError,
    >)
        requires
            self.wf(),
            lengths_fit(self@, U@, W@) ==> self@.num_vars_max <= E::generators(ck_witness).len(),
        ensures
            r == folded_sat::<E>(self@, *ck_witness, U@, W@),
    {
        if W.W.len() != self.num_vars_max || W.W_proj.len() != self.num_vars_max || W.lambda_scalar.len()
            != self.predicates.len() || W.lambda_proj.len() != self.predicates.len() || U.X.len() != self.num_io
            || U.r_x.len() != self.s_max || U.r_y.len() != self.s_prime_max || U.v.len() != 4 {
            return Err(NovaError::InvalidWitnessLength);
        }
        let comm_W = E::commit(ck_witness, &W.W, &W.r_W);
        if !comm_W.equals(&U.comm_W) {
            return Err(NovaError::UnSat { reason: UnSatReason::WitnessCommitment });
        }
        let comm_M = self.commit_index_coeffs(&W.lambda_scalar);
        let same = comm_M[0].equals(&U.comm_M[0]) && comm_M[1].equals(&U.comm_M[1]) && comm_M[2].equals(&U.comm_M[2]);
        assert(same == (U@.comm_M == index_commitments::<E>(self@, W@.lambda_scalar))) by {
            let a = views3(comm_M);
            let b = U@.comm_M;
            if same {
                assert(a =~= b);
            } else {
                assert(a[0] != b[0] || a[1] != b[1] || a[2] != b[2]);
            }
        }
        if !same {
            return Err(NovaError::UnSat { reason: UnSatReason::IndexCommitment });
        }
        let z = self.z_from_folded(U, W);
        let expected_v = self.compute_v_from_coeffs(&W.lambda_proj, &U.r_x, &U.r_y, &z);
        if !equal_vecs(&expected_v, &U.v) {
            return Err(NovaError::UnSat { reason: UnSatReason::Relation });
        }
        Ok(())
    }
}

impl<E: CurveEngine> FoldedWitness<E> {
    /// The witness of the folded instance that has folded nothing.
    pub fn default(S: &GlobalStructure<E>) -> (r: Self)
        ensures
            r@ == (FoldedWitnessView {
                W: Seq::new(S@.num_vars_max as nat, |i: int| 0int),
                W_proj: Seq::new(S@.num_vars_max as nat, |i: int| 0int),
                r_W: 0,
                lambda_scalar: Seq::new(S@.len(), |i: int| 0int),
                lambda_proj: Seq::new(S@.len(), |i: int| 0int),
            }),
    {
        FoldedWitness {
            W: zeros(S.num_vars_max),
            W_proj: zeros(S.num_vars_max),
            r_W: E::Scalar::from_u64(0),
            lambda_scalar: zeros(S.predicates.len()),
            lambda_proj: zeros(S.predicates.len()),
        }
    }

    /// The folded witness that one witness makes up.
    pub fn from_r1cs_witness(S: &GlobalStructure<E>, predicate_id: usize, witness: &R1CSWitness<E>) -> (r: Self)
        requires
            predicate_id < S@.len(),
        ensures
            r@ == first_witness(S@, predicate_id as int, witness@, E::Base::modulus()),
    {
        FoldedWitness {
            W: resize(&witness.W, S.num_vars_max),
            W_proj: S.project_witness(&witness.W),
            r_W: witness.r_W,
            lambda_scalar: S.basis_coeffs_scalar(predicate_id),
            lambda_proj: S.basis_coeffs_base(predicate_id),
        }
    }

    /// Folds a witness into this one.
    pub fn fold(
        &self,
        S: &GlobalStructure<E>,
        predicate_id: usize,
        W2: &R1CSWitness<E>,
        rho_base: &E::Base,
        rho_scalar: &E::Scalar,
    ) -> (r: Result<Self, NovaError>)
        requires
            W2.W.len() <= self.W.len() ==> predicate_id < self.lambda_scalar.len() && predicate_id
                < self.lambda_proj.len(),
        ensures
            match r {
                Ok(w) => W2.W.len() <= self.W.len() && w@ == fold_witness(
                    S@,
                    predicate_id as int,
                    self@,
                    W2@,
                    rho_base.val(),
                    rho_scalar.val(),
                    E::Base::modulus(),
                    E::Scalar::modulus(),
                ),
                Err(e) => W2.W.len() > self.W.len() && e == NovaError::InvalidWitnessLength,
            },
    {
        if W2.W.len() > self.W.len() {
            return Err(NovaError::InvalidWitnessLength);
        }
        let W2_padded = resize(&W2.W, self.W.len());
        let W2_proj = S.project_witness(&W2.W);
        let W = fold_vec(&self.W, &W2_padded, rho_scalar);
        let W_proj = fold_vec(&self.W_proj, &W2_proj, rho_base);
        let mut lambda_scalar = copy_vec(&self.lambda_scalar);
        let new_scalar = lambda_scalar[predicate_id].add(rho_scalar);
        lambda_scalar.set(predicate_id, new_scalar);
        let mut lambda_proj = copy_vec(&self.lambda_proj);
        let new_proj = lambda_proj[predicate_id].add(rho_base);
        lambda_proj.set(predicate_id, new_proj);
        assert(vals(lambda_scalar@) =~= self@.lambda_scalar.update(predicate_id as int, new_scalar.val()));
        assert(vals(lambda_proj@) =~= self@.lambda_proj.update(predicate_id as int, new_proj.val()));
        Ok(
            FoldedWitness {
                W,
                W_proj,
                r_W: fold_element(&self.r_W, &W2.r_W, rho_scalar),
                lambda_scalar,
                lambda_proj,
            },
        )
    }
}

/// The folded witness that one witness makes up.
pub open spec fn first_witness(s: StructureView, id: int, w: WitnessView, p: int) -> FoldedWitnessView {
    FoldedWitnessView {
        W: resized(w.W, s.num_vars_max),
        W_proj: projected(w.W, s.num_vars_max, p),
        r_W: w.r_W,
        lambda_scalar: unit(id, s.len() as int),
        lambda_proj: unit(id, s.len() as int),
    }
}

/// The folded instance that one instance and its witness make up.
pub open spec fn first_instance(
    s: StructureView,
    id: int,
    u: InstanceView,
    w: WitnessView,
    p: int,
) -> FoldedInstanceView {
    let r_x = Seq::new(s.s_max, |i: int| 0int);
    let r_y = Seq::new(s.s_prime_max, |i: int| 0int);
    FoldedInstanceView {
        comm_W: u.comm_W,
        comm_M: s.comm_M[id],
        u: 1,
        X: projected(u.X, s.num_io, p),
        r_x,
        r_y,
        v: claims(s, unit(id, s.len() as int), r_x, r_y, incoming_z(s, u, w, p), p),
    }
}

/// What absorbing a point appends to the state of an oracle.
pub open spec fn point_elements(point: PointView) -> Seq<int> {
    seq![
        point.0,
        point.1,
        if point.2 {
            1int
        } else {
            0
        },
    ]
}

/// What absorbing a commitment appends to the state of an oracle.
pub open spec fn commitment_elements<E: CurveGroup>(c: int) -> Seq<int> {
    point_elements(E::multiple(c))
}

/// What absorbing an instance appends to the state of an oracle.
pub open spec fn instance_elements<E: CurveGroup>(u: InstanceView) -> Seq<int> {
    commitment_elements::<E>(u.comm_W) + Seq::new(u.X.len(), |i: int| u.X[i] % E::Base::modulus())
}

/// What absorbing three commitments appends to the state of an oracle.
pub open spec fn commitments3_elements<E: CurveGroup>(c: Seq<int>) -> Seq<int> {
    commitment_elements::<E>(c[0]) + commitment_elements::<E>(c[1]) + commitment_elements::<E>(c[2])
}

/// What absorbing a folded instance appends to the state of an oracle.
pub open spec fn folded_instance_elements<E: CurveGroup>(u: FoldedInstanceView) -> Seq<int> {
    commitment_elements::<E>(u.comm_W) + commitments3_elements::<E>(u.comm_M) + seq![u.u] + u.X + u.r_x + u.r_y + u.v
}

/// Absorbs a commitment.
pub fn absorb_commitment<E: CurveEngine>(ro: &mut E::RO, c: &Commitment<E>)
    ensures
        final(ro).state() == old(ro).state() + commitment_elements::<E>(c@),
{
    let (x, y, is_infinity) = c.to_coordinates();
    ro.absorb(&x);
    ro.absorb(&y);
    if is_infinity {
        ro.absorb(&E::Base::from_u64(1));
    } else {
        ro.absorb(&E::Base::from_u64(0));
    }
    assert(ro.state() =~= old(ro).state() + commitment_elements::<E>(c@));
}

/// Absorbs three commitments.
pub fn absorb_commitments3<E: CurveEngine>(ro: &mut E::RO, c: &[Commitment<E>; 3])
    ensures
        final(ro).state() == old(ro).state() + commitments3_elements::<E>(views3(*c)),
{
    absorb_commitment::<E>(ro, &c[0]);
    absorb_commitment::<E>(ro, &c[1]);
    absorb_commitment::<E>(ro, &c[2]);
    assert(ro.state() =~= old(ro).state() + commitments3_elements::<E>(views3(*c)));
}

/// Absorbs elements.
pub fn absorb_all<F: FieldElement, R: RandomOracle<F>>(ro: &mut R, v: &Vec<F>)
    ensures
        final(ro).state() == old(ro).state() + vals(v@),
{
    let mut i: usize = 0;
    while i < v.len()
        invariant
            i <= v.len(),
            ro.state() == old(ro).state() + vals(v@).take(i as int),
        decreases v.len() - i,
    {
        ro.absorb(&v[i]);
        i = i + 1;
        assert(ro.state() =~= old(ro).state() + vals(v@).take(i as int));
    }
    assert(vals(v@).take(v.len() as int) =~= vals(v@));
}

impl<E: CurveEngine> R1CSInstance<E> {
    /// The same instance once more.
    pub fn copied(&self) -> (r: Self)
        ensures
            r@ == self@,
    {
        R1CSInstance { comm_W: self.comm_W.copied(), X: copy_vec(&self.X) }
    }

    /// Absorbs the instance.
    pub fn absorb_in_ro(&self, ro: &mut E::RO)
        ensures
            final(ro).state() == old(ro).state() + instance_elements::<E>(self@),
    {
        absorb_commitment::<E>(ro, &self.comm_W);
        let ghost head = ro.state();
        let ghost tail = Seq::new(self.X@.len(), |i: int| self.X@[i].val() % E::Base::modulus());
        let mut i: usize = 0;
        while i < self.X.len()
            invariant
                i <= self.X.len(),
                tail == Seq::new(self.X@.len(), |i: int| self.X@[i].val() % E::Base::modulus()),
                ro.state() == head + tail.take(i as int),
            decreases self.X.len() - i,
        {
            let x = E::scalar_as_base(&self.X[i]);
            ro.absorb(&x);
            i = i + 1;
            assert(ro.state() =~= head + tail.take(i as int));
        }
        assert(ro.state() =~= old(ro).state() + instance_elements::<E>(self@));
    }
}

impl<E: CurveEngine> FoldedInstance<E> {
    /// The folded instance that has folded nothing.
    pub fn default(S: &GlobalStructure<E>) -> (r: Self)
        ensures
            r@ == (FoldedInstanceView {
                comm_W: 0,
                comm_M: seq![0, 0, 0],
                u: 0,
                X: Seq::new(S@.num_io as nat, |i: int| 0int),
                r_x: Seq::new(S@.s_max, |i: int| 0int),
                r_y: Seq::new(S@.s_prime_max, |i: int| 0int),
                v: seq![0, 0, 0, 0],
            }),
    {
        let r = FoldedInstance {
            comm_W: E::identity_commitment(),
            comm_M: [E::identity_commitment(), E::identity_commitment(), E::identity_commitment()],
            u: E::Base::from_u64(0),
            X: zeros(S.num_io),
            r_x: S.zero_r_x(),
            r_y: S.zero_r_y(),
            v: zeros(4),
        };
        assert(r@.v =~= seq![0, 0, 0, 0]);
        assert(r@.comm_M =~= seq![0, 0, 0]);
        r
    }

    /// The folded instance that one instance and its witness make up.
    pub fn from_r1cs_instance_witness(
        S: &GlobalStructure<E>,
        predicate_id: usize,
        instance: &R1CSInstance<E>,
        witness: &R1CSWitness<E>,
    ) -> (r: Self)
        requires
            S.wf(),
            predicate_id < S@.len(),
        ensures
            r@ == first_instance(S@, predicate_id as int, instance@, witness@, E::Base::modulus()),
    {
        let r_x = S.zero_r_x();
        let r_y = S.zero_r_y();
        let X = S.project_io(&instance.X);
        let z = S.z_from_r1cs(instance, witness);
        let coeffs = S.basis_coeffs_base(predicate_id);
        assert(vals(r_x@).len() == S.s_max);
        assert(vals(r_y@).len() == S.s_prime_max);
        assert(vals(coeffs@).len() == S@.len());
        let v = S.compute_v_from_coeffs(&coeffs, &r_x, &r_y, &z);
        FoldedInstance {
            comm_W: instance.comm_W.copied(),
            comm_M: S.predicate_commitments(predicate_id),
            u: E::Base::from_u64(1),
            X,
            r_x,
            r_y,
            v,
        }
    }

    /// The same folded instance once more.
    pub fn copied(&self) -> (r: Self)
        ensures
            r@ == self@,
    {
        let r = FoldedInstance {
            comm_W: self.comm_W.copied(),
            comm_M: [self.comm_M[0].copied(), self.comm_M[1].copied(), self.comm_M[2].copied()],
            u: self.u,
            X: copy_vec(&self.X),
            r_x: copy_vec(&self.r_x),
            r_y: copy_vec(&self.r_y),
            v: copy_vec(&self.v),
        };
        assert(r@.comm_M =~= self@.comm_M);
        r
    }

    /// Folds an instance into this one, with a new point and new claims.
    pub fn fold(
        &self,
        S: &GlobalStructure<E>,
        predicate_id: usize,
        U2: &R1CSInstance<E>,
        rho_base: &E::Base,
        rho_scalar: &E::Scalar,
        r_x: Vec<E::Base>,
        r_y: Vec<E::Base>,
        v: Vec<E::Base>,
    ) -> (r: Self)
        requires
            predicate_id < S@.len(),
        ensures
            r@ == fold_instance(
                S@,
                predicate_id as int,
                self@,
                U2@,
                rho_base.val(),
                rho_scalar.val(),
                vals(r_x@),
                vals(r_y@),
                vals(v@),
                E::Base::modulus(),
                E::Scalar::modulus(),
            ),
    {
        let X2 = S.project_io(&U2.X);
        let X = fold_vec(&self.X, &X2, rho_base);
        let incoming = S.predicate_commitments(predicate_id);
        let comm_W = fold_commitment(&self.comm_W, &U2.comm_W, rho_scalar);
        let comm_M = [
            fold_commitment(&self.comm_M[0], &incoming[0], rho_scalar),
            fold_commitment(&self.comm_M[1], &incoming[1], rho_scalar),
            fold_commitment(&self.comm_M[2], &incoming[2], rho_scalar),
        ];
        assert(views3(incoming)[0] == incoming[0]@ && views3(incoming)[1] == incoming[1]@ && views3(incoming)[2]
            == incoming[2]@);
        let r = FoldedInstance { comm_W, comm_M, u: self.u.add(rho_base), X, r_x, r_y, v };
        assert(r@.comm_M =~= fold_instance(
            S@,
            predicate_id as int,
            self@,
            U2@,
            rho_base.val(),
            rho_scalar.val(),
            vals(r_x@),
            vals(r_y@),
            vals(v@),
            E::Base::modulus(),
            E::Scalar::modulus(),
        ).comm_M);
        r
    }

    /// Absorbs the folded instance.
    pub fn absorb_in_ro(&self, ro: &mut E::RO)
        ensures
            final(ro).state() == old(ro).state() + folded_instance_elements::<E>(self@),
    {
        absorb_commitment::<E>(ro, &self.comm_W);
        absorb_commitments3::<E>(ro, &self.comm_M);
        ro.absorb(&self.u);
        absorb_all(ro, &self.X);
        absorb_all(ro, &self.r_x);
        absorb_all(ro, &self.r_y);
        absorb_all(ro, &self.v);
        assert(ro.state() =~= old(ro).state() + folded_instance_elements::<E>(self@));
    }
}

/// A commitment plus a multiple of another.
pub(crate) fn fold_commitment<E: CurveEngine>(a: &Commitment<E>, b: &Commitment<E>, s: &E::Scalar) -> (c: Commitment<E>)
    ensures
        c@ == (a@ + b@ * s.val()) % E::Scalar::modulus(),
{
    let scaled = E::scale_commitment(b, s);
    proof {
        let q = E::Scalar::modulus();
        E::Scalar::modulus_bounds();
        lemma_cong_mod(b@ * s.val(), q);
        crate::math::lemma_cong_add(a@, a@, scaled@, b@ * s.val(), q);
    }
    E::add_commitments(a, &scaled)
}

/// The labels of the three keys of the index.
pub open spec fn index_label(j: int) -> Seq<char> {
    if j == 0 {
        "kilonova_idx_a"@
    } else if j == 1 {
        "kilonova_idx_b"@
    } else {
        "kilonova_idx_c"@
    }
}

/// One bucket for each of `n` rows.
fn build_buckets<F: FieldElement>(m: &Vec<(usize, usize, F)>, n: usize) -> (buckets: Vec<Vec<(usize, F)>>)
    requires
        forall|k: int| 0 <= k < m.len() ==> (#[trigger] m[k]).0 < n,
    ensures
        buckets_are(buckets@, entries(m@), n as int),
{
    let ghost e = entries(m@);
    let mut buckets: Vec<Vec<(usize, F)>> = Vec::new();
    let mut r: usize = 0;
    while r < n
        invariant
            r <= n,
            buckets.len() == r,
            forall|k: int| 0 <= k < r ==> (#[trigger] buckets[k])@.len() == 0,
        decreases n - r,
    {
        buckets.push(Vec::new());
        r = r + 1;
    }
    let mut i: usize = 0;
    while i < m.len()
        invariant
            i <= m.len(),
            e == entries(m@),
            buckets.len() == n,
            forall|k: int| 0 <= k < m.len() ==> (#[trigger] m[k]).0 < n,
            forall|k: int| 0 <= k < n ==> bucket_is((#[trigger] buckets[k])@, row_bucket(e.take(i as int), k)),
        decreases m.len() - i,
    {
        let (row, col, val) = m[i];
        let ghost before = buckets@;
        buckets[row].push((col, val));
        proof {
            let next = e.take(i + 1);
            assert(next.drop_last() =~= e.take(i as int));
            assert(next.last() == e[i as int]);
            assert forall|k: int| 0 <= k < n implies bucket_is((#[trigger] buckets@[k])@, row_bucket(next, k)) by {
                assert(bucket_is(before[k]@, row_bucket(e.take(i as int), k)));
            }
        }
        i = i + 1;
    }
    assert(e.take(m.len() as int) =~= e);
    buckets
}

/// The largest of the first `n` values of `f`, and at least `low`.
pub open spec fn max_upto(f: spec_fn(int) -> int, low: int, n: int) -> int
    decreases n,
{
    if n <= 0 {
        low
    } else {
        max(max_upto(f, low, n - 1), f(n - 1))
    }
}

pub(crate) proof fn lemma_max_upto(f: spec_fn(int) -> int, low: int, n: int, i: int)
    requires
        0 <= i < n,
    ensures
        f(i) <= max_upto(f, low, n),
        low <= max_upto(f, low, n),
    decreases n,
{
    if i < n - 1 {
        lemma_max_upto(f, low, n - 1, i);
    } else if n > 1 {
        lemma_max_upto(f, low, n - 1, 0);
    } else {
        assert(max_upto(f, low, 0) == low);
    }
}

/// The entries with every value reduced.
pub open spec fn reduced_entries(m: Entries, p: int) -> Entries {
    Seq::new(m.len(), |k: int| (m[k].0, m[k].1, m[k].2 % p))
}

/// The shapes of a structure, before they are padded.
pub struct Shapes {
    pub shapes: Seq<ShapeView>,
}

impl Shapes {
    pub open spec fn padded(self, i: int) -> ShapeView {
        self.shapes[i].pad()
    }

    /// The number of public values.
    pub open spec fn num_io(self) -> int {
        self.padded(0).num_io
    }

    /// The largest number of variables.
    pub open spec fn num_vars_max(self) -> int {
        max_upto(|i: int| self.padded(i).num_vars, 0, self.shapes.len() as int)
    }

    /// The number of variables that number the constraints.
    pub open spec fn s_max(self) -> int {
        max_upto(|i: int| ceil_log2(self.padded(i).num_cons) as int, 1, self.shapes.len() as int)
    }

    /// The number of variables that number the columns.
    pub open spec fn s_prime_max(self) -> int {
        max(1, ceil_log2(self.num_vars_max() + 1 + self.num_io()) as int)
    }

    /// Whether the shapes are well formed, the matrices fit the columns that they share and the sizes
    /// fit the machine.
    pub open spec fn buildable(self) -> bool {
        &&& self.shapes.len() > 0
        &&& next_pow2(self.shapes.len() as int) < usize::MAX
        &&& pow2(self.s_max() as nat) <= usize::MAX
        &&& pow2(self.s_prime_max() as nat) <= usize::MAX
        &&& self.num_vars_max() + 1 + self.num_io() <= usize::MAX
        &&& forall|i: int|
            0 <= i < self.shapes.len() ==> {
                &&& (#[trigger] self.shapes[i]).wf()
                &&& self.shapes[i].padded_size() + self.shapes[i].num_io < usize::MAX
                &&& next_pow2(self.shapes[i].num_cons) <= usize::MAX
                &&& next_pow2(self.shapes[i].num_vars) <= usize::MAX
                &&& self.padded(i).num_vars + 1 + self.padded(i).num_io <= pow2(self.s_prime_max() as nat)
                &&& self.padded(i).num_vars + 1 + self.padded(i).num_io <= usize::MAX
            }
    }

    /// The structure that the shapes make up, over the points that the labels give.
    pub open spec fn describes<E: CurveEngine>(self, s: StructureView) -> bool {
        &&& s.num_io == self.num_io()
        &&& s.num_vars_max == self.num_vars_max()
        &&& s.s_max == self.s_max()
        &&& s.s_prime_max == self.s_prime_max()
        &&& s.mats == Seq::new(
            self.shapes.len(),
            |i: int|
                Seq::new(3, |j: int| reduced_entries(self.padded(i).mats[j], E::Base::modulus())),
        )
        &&& forall|j: int|
            0 <= j < 3 ==> {
                &&& (#[trigger] s.keys[j]).len() == next_pow2(self.shapes.len() as int)
                &&& s.blindings[j] == E::labelled_point(index_label(j), 0)
                &&& forall|i: int|
                    0 <= i < s.keys[j].len() ==> #[trigger] s.keys[j][i] == E::labelled_point(index_label(j), i + 1)
            }
    }
}

/// The views of a list of shapes.
pub open spec fn shape_views<E: CurveGroup>(shapes: Seq<R1CSShape<E>>) -> Shapes {
    Shapes { shapes: Seq::new(shapes.len(), |i: int| shapes[i]@) }
}

/// The value of an entry in the first row and column, or zero.
pub open spec fn corner(e: (int, int, int)) -> int {
    if e.0 == 0 && e.1 == 0 {
        e.2
    } else {
        0
    }
}

/// The value of the matrix in the first row and column.
pub open spec fn matrix_corner(m: Entries) -> int {
    sum(|k: int| corner(m[k]), m.len() as int)
}

/// The claims at the point of zeros, for the coefficients of one predicate and a vector with the given start.
pub open spec fn zero_claims(s: StructureView, id: int, first: int, p: int) -> Seq<int> {
    seq![
        matrix_corner(s.mats[id][0]) % p,
        matrix_corner(s.mats[id][1]) % p,
        matrix_corner(s.mats[id][2]) % p,
        first % p,
    ]
}

/// At the point of zeros, the weight of the first index is one and that of every other is zero.
proof fn lemma_weight_at_zero(i: int, n: nat)
    requires
        0 <= i < pow2(n),
    ensures
        eq_weight(i, Seq::new(n, |k: int| 0int)) == if i == 0 {
            1int
        } else {
            0
        },
    decreases n,
{
    let zeros = Seq::new(n, |k: int| 0int);
    if n == 0 {
        vstd::arithmetic::power2::lemma2_to64();
    } else {
        let m = (n - 1) as nat;
        let less = Seq::new(m, |k: int| 0int);
        assert(zeros =~= less.push(0));
        vstd::arithmetic::power2::lemma_pow2_unfold(n);
        vstd::arithmetic::power2::lemma_pow2_pos(m);
        if i < pow2(m) {
            crate::mle::lemma_eq_weight_push(i, less, 0);
            lemma_weight_at_zero(i, m);
            assert(eq_weight(i, less) * 1 == eq_weight(i, less));
        } else {
            crate::mle::lemma_eq_weight_push(i - pow2(m), less, 0);
        }
    }
}

/// At the point of zeros, a matrix extends to the value in its first row and column.
proof fn lemma_matrix_at_zero(m: Entries, rows: nat, cols: nat)
    requires
        entries_fit(m, pow2(rows) as int, pow2(cols) as int),
    ensures
        weighted(m, weights(Seq::new(rows, |k: int| 0int)), weights(Seq::new(cols, |k: int| 0int))) == matrix_corner(m),
{
    let u = weights(Seq::new(rows, |k: int| 0int));
    let w = weights(Seq::new(cols, |k: int| 0int));
    let f = |k: int| weighted_entry(m[k], u, w);
    let g = |k: int| corner(m[k]);
    assert forall|k: int| 0 <= k < m.len() implies #[trigger] f(k) == g(k) by {
        let e = m[k];
        lemma_weight_at_zero(e.0, rows);
        lemma_weight_at_zero(e.1, cols);
        assert(e.2 * u(e.0) * w(e.1) == corner(e)) by (nonlinear_arith)
            requires
                u(e.0) == (if e.0 == 0 {
                    1int
                } else {
                    0
                }),
                w(e.1) == (if e.1 == 0 {
                    1int
                } else {
                    0
                }),
                corner(e) == (if e.0 == 0 && e.1 == 0 {
                    e.2
                } else {
                    0
                }),
        ;
    }
    crate::math::lemma_sum_ext(f, g, m.len() as int);
}

/// With the coefficients of one predicate, folded matrices are its matrices.
proof fn lemma_folded_unit(s: StructureView, id: int, which: int, r_x: Seq<int>, r_y: Seq<int>)
    requires
        0 <= id < s.len(),
    ensures
        s.eval_folded(unit(id, s.len() as int), which, r_x, r_y) == s.eval_predicate(id, which, r_x, r_y),
{
    let n = s.len() as int;
    let c = unit(id, n);
    let mats = s.mats_of(which);
    let f = |i: int| c[i] * weighted(mats[i], weights(r_x), weights(r_y));
    assert forall|i: int| 0 <= i < n && i != id implies #[trigger] f(i) == 0 by {
        assert(c[i] == 0);
        let t = weighted(mats[i], weights(r_x), weights(r_y));
        assert(0 * t == 0);
    }
    crate::math::lemma_sum_single(f, n, id);
    let t = weighted(mats[id], weights(r_x), weights(r_y));
    assert(1 * t == t);
}

/// The claims at the point of zeros are the values in the first row and column, and the start of the vector.
pub proof fn claims_at_zero(s: StructureView, id: int, z: Seq<int>, p: int)
    requires
        s.wf(),
        0 <= id < s.len(),
        0 < z.len() <= pow2(s.s_prime_max),
    ensures
        claims(
            s,
            unit(id, s.len() as int),
            Seq::new(s.s_max, |i: int| 0int),
            Seq::new(s.s_prime_max, |i: int| 0int),
            z,
            p,
        ) == zero_claims(s, id, z[0], p),
{
    let r_x = Seq::new(s.s_max, |i: int| 0int);
    let r_y = Seq::new(s.s_prime_max, |i: int| 0int);
    assert forall|j: int| 0 <= j < 3 implies #[trigger] s.eval_folded(unit(id, s.len() as int), j, r_x, r_y)
        == matrix_corner(s.mats[id][j]) by {
        lemma_folded_unit(s, id, j, r_x, r_y);
        assert(entries_fit(s.mats[id][j], pow2(s.s_max) as int, pow2(s.s_prime_max) as int));
        lemma_matrix_at_zero(s.mats[id][j], s.s_max, s.s_prime_max);
    }
    let f = |i: int| z[i] * eq_weight(i, r_y);
    assert forall|i: int| 0 <= i < z.len() && i != 0 implies #[trigger] f(i) == 0 by {
        lemma_weight_at_zero(i, s.s_prime_max);
        assert(z[i] * 0 == 0);
    }
    lemma_weight_at_zero(0, s.s_prime_max);
    crate::math::lemma_sum_single(f, z.len() as int, 0);
    assert(z[0] * 1 == z[0]);
}

/// The triples with their values in the base field.
fn project_triples<E: CurveEngine>(m: &Vec<(usize, usize, E::Scalar)>) -> (r: Vec<(usize, usize, E::Base)>)
    ensures
        entries(r@) == reduced_entries(entries(m@), E::Base::modulus()),
{
    let mut r: Vec<(usize, usize, E::Base)> = Vec::new();
    let mut i: usize = 0;
    while i < m.len()
        invariant
            i <= m.len(),
            r.len() == i,
            forall|k: int|
                0 <= k < i ==> (#[trigger] r[k]).0 == m[k].0 && r[k].1 == m[k].1 && r[k].2.val() == m[k].2.val()
                    % E::Base::modulus(),
        decreases m.len() - i,
    {
        let (row, col, val) = m[i];
        r.push((row, col, E::scalar_as_base(&val)));
        i = i + 1;
    }
    assert(entries(r@) =~= reduced_entries(entries(m@), E::Base::modulus()));
    r
}

/// The triples with rows and columns exchanged.
fn transpose_triples<F: FieldElement>(m: &Vec<(usize, usize, F)>) -> (r: Vec<(usize, usize, F)>)
    ensures
        r.len() == m.len(),
        forall|k: int| 0 <= k < m.len() ==> (#[trigger] r[k]).0 == m[k].1,
        entries(r@) == transposed(entries(m@)),
{
    let mut r: Vec<(usize, usize, F)> = Vec::new();
    let mut i: usize = 0;
    while i < m.len()
        invariant
            i <= m.len(),
            r.len() == i,
            forall|k: int|
                0 <= k < i ==> (#[trigger] r[k]).0 == m[k].1 && r[k].1 == m[k].0 && r[k].2.val() == m[k].2.val(),
        decreases m.len() - i,
    {
        let (row, col, val) = m[i];
        r.push((col, row, val));
        i = i + 1;
    }
    assert(entries(r@) =~= transposed(entries(m@)));
    r
}

/// The value of the matrix in the first row and column.
fn compute_corner<F: FieldElement>(m: &Vec<(usize, usize, F)>) -> (r: F)
    ensures
        r.val() == matrix_corner(entries(m@)) % F::modulus(),
{
    let ghost p = F::modulus();
    let ghost e = entries(m@);
    let ghost f = |k: int| corner(e[k]);
    let mut acc = F::from_u64(0);
    let mut i: usize = 0;
    proof {
        F::modulus_bounds();
    }
    while i < m.len()
        invariant
            i <= m.len(),
            p == F::modulus(),
            p > 1,
            e == entries(m@),
            f == (|k: int| corner(e[k])),
            cong(acc.val(), sum(f, i as int), p),
        decreases m.len() - i,
    {
        let (row, col, val) = m[i];
        assert(sum(f, i + 1) == sum(f, i as int) + f(i as int));
        if row == 0 && col == 0 {
            proof {
                lemma_residue_add(acc.val(), sum(f, i as int), val.val(), f(i as int), p);
            }
            acc = acc.add(&val);
        }
        i = i + 1;
    }
    proof {
        acc.val_bounds();
        lemma_canonical(acc.val(), sum(f, e.len() as int), p);
    }
    acc
}

/// Whether a predicate is the one that a shape makes up at an index of a structure.
pub open spec fn predicate_is<E: CurveEngine>(
    pred: PredicateIndex<E>,
    id: int,
    shape: ShapeView,
    s_max: nat,
    s_prime_max: nat,
) -> bool {
    let p = E::Base::modulus();
    &&& pred.id == id
    &&& pred.shape@ == shape
    &&& pred.s == max(1, ceil_log2(shape.num_cons) as int)
    &&& pred.z_len == shape.num_vars + 1 + shape.num_io
    &&& pred.s_prime == max(1, ceil_log2(shape.num_vars + 1 + shape.num_io) as int)
    &&& forall|j: int|
        #![trigger pred.mats[j]]
        0 <= j < 3 ==> {
            &&& entries(pred.mats[j]@) == reduced_entries(shape.mats[j], p)
            &&& pred.matrix_at_zero[j].val() == matrix_corner(entries(pred.mats[j]@)) % p
        }
    &&& forall|j: int|
        #![trigger pred.row_buckets[j]]
        0 <= j < 3 ==> buckets_are(pred.row_buckets[j]@, entries(pred.mats[j]@), pow2(s_max) as int)
    &&& forall|j: int|
        #![trigger pred.col_buckets[j]]
        0 <= j < 3 ==> buckets_are(
            pred.col_buckets[j]@,
            transposed(entries(pred.mats[j]@)),
            pow2(s_prime_max) as int,
        )
}

/// The predicate that a padded shape makes up.
fn build_predicate<E: CurveEngine>(
    id: usize,
    shape: R1CSShape<E>,
    s_max: usize,
    s_prime_max: usize,
    comm_M: [Commitment<E>; 3],
) -> (pred: PredicateIndex<E>)
    requires
        shape@.wf(),
        shape@.num_cons >= 1,
        pow2(s_max as nat) <= usize::MAX,
        pow2(s_prime_max as nat) <= usize::MAX,
        shape@.num_cons <= pow2(s_max as nat),
        shape@.num_vars + 1 + shape@.num_io <= pow2(s_prime_max as nat),
    ensures
        predicate_is(pred, id as int, shape@, s_max as nat, s_prime_max as nat),
        pred.comm_M == comm_M,
        forall|j: int|
            0 <= j < 3 ==> entries_fit(
                entries((#[trigger] pred.mats[j])@),
                pow2(s_max as nat) as int,
                pow2(s_prime_max as nat) as int,
            ),
{
    let mut s = log_2(shape.num_cons);
    if s < 1 {
        s = 1;
    }
    let z_len: usize = shape.num_vars + 1 + shape.num_io;
    let mut s_prime = log_2(z_len);
    if s_prime < 1 {
        s_prime = 1;
    }
    let rows = pow2_usize(s_max);
    let cols = pow2_usize(s_prime_max);
    let a = project_triples::<E>(&shape.A);
    let b = project_triples::<E>(&shape.B);
    let c = project_triples::<E>(&shape.C);
    proof {
        let v = shape@;
        lemma_reduced_fit(v.mats[0], entries(a@), a@, v.num_cons, v.num_vars + 1 + v.num_io, rows as int, cols as int, E::Base::modulus());
        lemma_reduced_fit(v.mats[1], entries(b@), b@, v.num_cons, v.num_vars + 1 + v.num_io, rows as int, cols as int, E::Base::modulus());
        lemma_reduced_fit(v.mats[2], entries(c@), c@, v.num_cons, v.num_vars + 1 + v.num_io, rows as int, cols as int, E::Base::modulus());
    }
    let (at, bt, ct) = (transpose_triples(&a), transpose_triples(&b), transpose_triples(&c));
    let matrix_at_zero = [compute_corner(&a), compute_corner(&b), compute_corner(&c)];
    let row_buckets = [build_buckets(&a, rows), build_buckets(&b, rows), build_buckets(&c, rows)];
    let col_buckets = [build_buckets(&at, cols), build_buckets(&bt, cols), build_buckets(&ct, cols)];
    let mats = [a, b, c];
    PredicateIndex { id, shape, s, s_prime, z_len, matrix_at_zero, mats, row_buckets, col_buckets, comm_M }
}

proof fn lemma_reduced_fit<F: FieldElement>(
    m: Entries,
    n: Entries,
    t: Seq<(usize, usize, F)>,
    rows: int,
    cols: int,
    more_rows: int,
    more_cols: int,
    p: int,
)
    requires
        entries_fit(m, rows, cols),
        n == reduced_entries(m, p),
        n == entries(t),
        rows <= more_rows,
        cols <= more_cols,
    ensures
        entries_fit(n, more_rows, more_cols),
        forall|k: int| 0 <= k < t.len() ==> (#[trigger] t[k]).0 < more_rows && t[k].1 < more_cols,
{
    assert forall|k: int| 0 <= k < n.len() implies 0 <= (#[trigger] n[k]).0 < more_rows && 0 <= n[k].1 < more_cols by {
        assert(0 <= m[k].0 < rows && 0 <= m[k].1 < cols);
    }
    assert forall|k: int| 0 <= k < t.len() implies (#[trigger] t[k]).0 < more_rows && t[k].1 < more_cols by {
        assert(n[k].0 == t[k].0);
    }
}

impl<E: CurveEngine> GlobalStructure<E> {
    /// The structure of the predicates with the given shapes.
    pub fn new(shapes: &Vec<R1CSShape<E>>) -> (r: Self)
        requires
            shape_views(shapes@).buildable(),
        ensures
            r.wf(),
            shape_views(shapes@).describes::<E>(r@),
            forall|i: int|
                0 <= i < shapes.len() ==> predicate_is(
                    #[trigger] r.predicates@[i],
                    i,
                    shape_views(shapes@).padded(i),
                    r@.s_max,
                    r@.s_prime_max,
                ),
    {
        Self::build(shapes)
    }

    /// The structure of the predicates with the given shapes, for the setup of parameters.
    pub fn new_for_setup(shapes: &Vec<R1CSShape<E>>) -> (r: Self)
        requires
            shape_views(shapes@).buildable(),
        ensures
            r.wf(),
            shape_views(shapes@).describes::<E>(r@),
            forall|i: int|
                0 <= i < shapes.len() ==> predicate_is(
                    #[trigger] r.predicates@[i],
                    i,
                    shape_views(shapes@).padded(i),
                    r@.s_max,
                    r@.s_prime_max,
                ),
    {
        Self::build(shapes)
    }

    fn build(shapes: &Vec<R1CSShape<E>>) -> (r: Self)
        requires
            shape_views(shapes@).buildable(),
        ensures
            r.wf(),
            shape_views(shapes@).describes::<E>(r@),
            forall|i: int|
                0 <= i < shapes.len() ==> predicate_is(
                    #[trigger] r.predicates@[i],
                    i,
                    shape_views(shapes@).padded(i),
                    r@.s_max,
                    r@.s_prime_max,
                ),
    {
        let ghost all = shape_views(shapes@);
        let ghost vars = |i: int| all.padded(i).num_vars;
        let ghost cons = |i: int| ceil_log2(all.padded(i).num_cons) as int;
        let n = shapes.len();
        let mut padded: Vec<R1CSShape<E>> = Vec::new();
        let mut num_vars_max: usize = 0;
        let mut s_max: usize = 1;
        let mut i: usize = 0;
        while i < n
            invariant
                i <= n,
                n == shapes.len(),
                all == shape_views(shapes@),
                all.buildable(),
                vars == (|i: int| all.padded(i).num_vars),
                cons == (|i: int| ceil_log2(all.padded(i).num_cons) as int),
                padded.len() == i,
                num_vars_max == max_upto(vars, 0, i as int),
                s_max == max_upto(cons, 1, i as int),
                forall|k: int| 0 <= k < i ==> (#[trigger] padded[k])@ == all.padded(k),
            decreases n - i,
        {
            assert(all.shapes[i as int].wf());
            proof {
                lemma_pad(all.shapes[i as int]);
            }
            let shape = shapes[i].pad();
            if shape.num_vars > num_vars_max {
                num_vars_max = shape.num_vars;
            }
            let s = log_2(shape.num_cons);
            if s > s_max {
                s_max = s;
            }
            assert(vars(i as int) == shape@.num_vars);
            assert(cons(i as int) == s);
            padded.push(shape);
            i = i + 1;
        }
        assert(all.shapes[0].wf());
        assert(padded@[0]@ == all.padded(0));
        let num_io = padded[0].num_io;
        let z_len_max: usize = num_vars_max + 1 + num_io;
        let mut s_prime_max = log_2(z_len_max);
        if s_prime_max < 1 {
            s_prime_max = 1;
        }
        let ck_index = [
            E::setup("kilonova_idx_a", n),
            E::setup("kilonova_idx_b", n),
            E::setup("kilonova_idx_c", n),
        ];
        proof {
            lemma_ceil_log2(n as int);
            lemma_ceil_log2(z_len_max as int);
            lemma_pow2_monotone(ceil_log2(z_len_max as int), s_prime_max as nat);
        }
        let zero = E::Scalar::from_u64(0);
        let mut predicates: Vec<PredicateIndex<E>> = Vec::new();
        let mut id: usize = 0;
        while id < n
            invariant
                id <= n,
                n == shapes.len(),
                all == shape_views(shapes@),
                all.buildable(),
                cons == (|i: int| ceil_log2(all.padded(i).num_cons) as int),
                s_max == all.s_max(),
                s_prime_max == all.s_prime_max(),
                zero.val() == 0,
                padded.len() == n - id,
                forall|k: int| 0 <= k < n - id ==> (#[trigger] padded[k])@ == all.padded(id + k),
                forall|j: int| 0 <= j < 3 ==> E::generators(&#[trigger] ck_index[j]).len() >= n,
                predicates.len() == id,
                forall|k: int|
                    0 <= k < id ==> {
                        &&& predicate_is(
                            #[trigger] predicates@[k],
                            k,
                            all.padded(k),
                            s_max as nat,
                            s_prime_max as nat,
                        )
                        &&& forall|j: int|
                            0 <= j < 3 ==> entries_fit(
                                entries((#[trigger] predicates@[k].mats[j])@),
                                pow2(s_max as nat) as int,
                                pow2(s_prime_max as nat) as int,
                            )
                        &&& forall|j: int|
                            0 <= j < 3 ==> (#[trigger] predicates@[k].comm_M[j])@ == commitment_log::<E>(
                                E::generators(&ck_index[j]),
                                E::blinding(&ck_index[j]),
                                unit(k, n as int),
                                0,
                            )
                    },
            decreases n - id,
        {
            let basis: Vec<E::Scalar> = unit_vec(id, n);
            assert(vals(basis@).len() == n);
            let comm_M = [
                E::commit(&ck_index[0], &basis, &zero),
                E::commit(&ck_index[1], &basis, &zero),
                E::commit(&ck_index[2], &basis, &zero),
            ];
            let ghost before = padded@;
            let shape = padded.remove(0);
            proof {
                assert(before[0]@ == all.padded(id as int));
                assert(all.shapes[id as int].wf());
                lemma_pad(all.shapes[id as int]);
                lemma_max_upto(cons, 1, n as int, id as int);
                lemma_ceil_log2(shape@.num_cons);
                lemma_pow2_monotone(ceil_log2(shape@.num_cons), s_max as nat);
                assert forall|k: int| 0 <= k < n - id - 1 implies (#[trigger] padded@[k])@ == all.padded(id + 1 + k) by {
                    assert(before[k + 1]@ == all.padded(id + (k + 1)));
                }
            }
            let pred = build_predicate(id, shape, s_max, s_prime_max, comm_M);
            predicates.push(pred);
            id = id + 1;
        }
        let r = GlobalStructure { num_io, num_vars_max, s_max, s_prime_max, z_len_max, predicates, ck_index };
        proof {
            lemma_max_upto(vars, 0, n as int, 0);
            lemma_max_upto(cons, 1, n as int, 0);
            assert(r@.mats =~= Seq::new(
                all.shapes.len(),
                |i: int|
                    Seq::new(3, |j: int| reduced_entries(all.padded(i).mats[j], E::Base::modulus())),
            )) by {
                assert forall|k: int| 0 <= k < n implies #[trigger] r@.mats[k] == Seq::new(
                    3,
                    |j: int| reduced_entries(all.padded(k).mats[j], E::Base::modulus()),
                ) by {
                    let pr = r.predicates@[k];
                    assert(predicate_is(pr, k, all.padded(k), s_max as nat, s_prime_max as nat));
                    assert(entries(pr.mats[0]@) == reduced_entries(all.padded(k).mats[0], E::Base::modulus()));
                    assert(entries(pr.mats[1]@) == reduced_entries(all.padded(k).mats[1], E::Base::modulus()));
                    assert(entries(pr.mats[2]@) == reduced_entries(all.padded(k).mats[2], E::Base::modulus()));
                    assert(r@.mats[k] =~= Seq::new(
                        3,
                        |j: int| reduced_entries(all.padded(k).mats[j], E::Base::modulus()),
                    ));
                }
            }
            assert forall|k: int, j: int| 0 <= k < n && 0 <= j < 3 implies entries_fit(
                #[trigger] r@.mats[k][j],
                pow2(r@.s_max) as int,
                pow2(r@.s_prime_max) as int,
            ) by {
                let pr = r.predicates@[k];
                assert(predicate_is(pr, k, all.padded(k), s_max as nat, s_prime_max as nat));
                assert(entries_fit(
                    entries(pr.mats[j]@),
                    pow2(s_max as nat) as int,
                    pow2(s_prime_max as nat) as int,
                ));
                assert(r@.mats[k][j] == entries(pr.mats[j]@));
            }
            assert forall|k: int, j: int| 0 <= k < n && 0 <= j < 3 implies #[trigger] r@.comm_M[k][j]
                == commitment_log::<E>(r@.keys[j], r@.blindings[j], unit(k, n as int), 0) by {
                let pr = r.predicates@[k];
                assert(predicate_is(pr, k, all.padded(k), s_max as nat, s_prime_max as nat));
                assert(pr.comm_M[j]@ == commitment_log::<E>(
                    E::generators(&ck_index[j]),
                    E::blinding(&ck_index[j]),
                    unit(k, n as int),
                    0,
                ));
                assert(r@.comm_M[k][j] == pr.comm_M[j]@);
            }
            assert forall|j: int| 0 <= j < 3 implies (#[trigger] r@.keys[j]).len() >= r@.mats.len() by {
                assert(E::generators(&ck_index[j]).len() >= n);
            }
            assert forall|k: int, j: int|
                #![trigger r.predicates@[k].row_buckets[j]]
                0 <= k < n && 0 <= j < 3 implies buckets_are(
                r.predicates@[k].row_buckets[j]@,
                entries(r.predicates@[k].mats[j]@),
                pow2(r.s_max as nat) as int,
            ) by {
                assert(predicate_is(r.predicates@[k], k, all.padded(k), s_max as nat, s_prime_max as nat));
            }
            assert forall|k: int, j: int|
                #![trigger r.predicates@[k].col_buckets[j]]
                0 <= k < n && 0 <= j < 3 implies buckets_are(
                r.predicates@[k].col_buckets[j]@,
                transposed(entries(r.predicates@[k].mats[j]@)),
                pow2(r.s_prime_max as nat) as int,
            ) by {
                assert(predicate_is(r.predicates@[k], k, all.padded(k), s_max as nat, s_prime_max as nat));
            }
        }
        r
    }
}

proof fn lemma_pow2_monotone(a: nat, b: nat)
    requires
        a <= b,
    ensures
        pow2(a) <= pow2(b),
{
    if a < b {
        vstd::arithmetic::power2::lemma_pow2_strictly_increases(a, b);
    }
}

/// A largest value is at least all of them and the lower bound, and is one of these.
pub proof fn largest_is_attained(f: spec_fn(int) -> int, low: int, n: int)
    ensures
        low <= max_upto(f, low, n),
        forall|i: int| 0 <= i < n ==> #[trigger] f(i) <= max_upto(f, low, n),
        max_upto(f, low, n) == low || exists|i: int| 0 <= i < n && max_upto(f, low, n) == #[trigger] f(i),
    decreases n,
{
    if n > 0 {
        largest_is_attained(f, low, n - 1);
        let (a, b) = (max_upto(f, low, n - 1), f(n - 1));
        if a >= b && a != low {
            let i = choose|i: int| 0 <= i < n - 1 && a == #[trigger] f(i);
            assert(f(i) == max_upto(f, low, n));
        } else if a < b {
            assert(f(n - 1) == max_upto(f, low, n));
        }
        assert forall|i: int| 0 <= i < n implies #[trigger] f(i) <= max_upto(f, low, n) by {
            if i == n - 1 {
                assert(f(i) == b);
            }
        }
    }
}

/// The sizes of a structure cover those of all its shapes, and are no larger than they have to be.
pub proof fn sizes_are_least(t: Shapes, k: nat)
    requires
        t.shapes.len() > 0,
    ensures
        forall|i: int|
            0 <= i < t.shapes.len() ==> {
                &&& (#[trigger] t.padded(i)).num_vars <= t.num_vars_max()
                &&& t.padded(i).num_cons <= pow2(t.s_max() as nat)
            },
        t.num_vars_max() + 1 + t.num_io() <= pow2(t.s_prime_max() as nat),
        t.num_vars_max() == 0 || exists|i: int| 0 <= i < t.shapes.len() && t.num_vars_max() == (#[trigger] t.padded(i)).num_vars,
        k >= 1 && (forall|i: int| 0 <= i < t.shapes.len() ==> (#[trigger] t.padded(i)).num_cons <= pow2(k)) ==> t.s_max() <= k,
        k >= 1 && t.num_vars_max() + 1 + t.num_io() <= pow2(k) ==> t.s_prime_max() <= k,
{
    let n = t.shapes.len() as int;
    let fv = |i: int| t.padded(i).num_vars;
    let fs = |i: int| ceil_log2(t.padded(i).num_cons) as int;
    largest_is_attained(fv, 0, n);
    largest_is_attained(fs, 1, n);
    if t.num_vars_max() != 0 {
        let i = choose|i: int| 0 <= i < n && max_upto(fv, 0, n) == #[trigger] fv(i);
        assert(t.num_vars_max() == t.padded(i).num_vars);
    }
    assert forall|i: int| 0 <= i < n implies {
        &&& (#[trigger] t.padded(i)).num_vars <= t.num_vars_max()
        &&& t.padded(i).num_cons <= pow2(t.s_max() as nat)
    } by {
        assert(fv(i) <= t.num_vars_max() && fs(i) <= t.s_max());
        let k = ceil_log2(t.padded(i).num_cons);
        logarithm_is_least(t.padded(i).num_cons, k);
        if k < t.s_max() {
            vstd::arithmetic::power2::lemma_pow2_strictly_increases(k, t.s_max() as nat);
        }
    }
    let z = t.num_vars_max() + 1 + t.num_io();
    logarithm_is_least(z, ceil_log2(z));
    if ceil_log2(z) < t.s_prime_max() {
        vstd::arithmetic::power2::lemma_pow2_strictly_increases(ceil_log2(z), t.s_prime_max() as nat);
    }
    if t.s_max() != 1 {
        let i = choose|i: int| 0 <= i < n && max_upto(fs, 1, n) == #[trigger] fs(i);
        logarithm_is_least(t.padded(i).num_cons, k);
    }
    logarithm_is_least(z, k);
}

/// What is cut off or filled up starts as before and goes on with zeros; in a field, all of it up to congruence.
pub proof fn lengths_are_brought(v: Seq<int>, n: nat, p: int)
    requires
        p > 0,
    ensures
        resized(v, n as int).len() == n && projected(v, n as int, p).len() == n,
        forall|i: int| 0 <= i < n && i < v.len() ==> #[trigger] resized(v, n as int)[i] == v[i],
        forall|i: int| 0 <= i < n && i >= v.len() ==> #[trigger] resized(v, n as int)[i] == 0,
        forall|i: int| 0 <= i < n && i < v.len() ==> cong(#[trigger] projected(v, n as int, p)[i], v[i], p),
        forall|i: int| 0 <= i < n && i >= v.len() ==> #[trigger] projected(v, n as int, p)[i] == 0,
        forall|i: int| 0 <= i < n ==> 0 <= #[trigger] projected(v, n as int, p)[i] < p,
{
    assert forall|i: int| 0 <= i < n implies 0 <= #[trigger] projected(v, n as int, p)[i] < p && (i < v.len() ==> cong(
        projected(v, n as int, p)[i],
        v[i],
        p,
    )) && (i >= v.len() ==> projected(v, n as int, p)[i] == 0) by {
        vstd::arithmetic::div_mod::lemma_mod_bound(at(v, i), p);
        crate::math::lemma_cong_mod(at(v, i), p);
        vstd::arithmetic::div_mod::lemma_small_mod(0, p as nat);
    }
}

/// A vector plus a multiple of another is the sum of both, entry by entry; none of it leaves the first one, and to fold in
/// two multiples is to fold in their sum.
pub proof fn folding_is_linear(a: Seq<int>, b: Seq<int>, r: int, t: int, p: int)
    requires
        p > 0,
        a.len() == b.len(),
    ensures
        combined(a, b, r, p).len() == a.len(),
        forall|i: int| 0 <= i < a.len() ==> cong(#[trigger] combined(a, b, 0, p)[i], a[i], p),
        forall|i: int| 0 <= i < a.len() ==> cong(#[trigger] combined(a, b, 1, p)[i], a[i] + b[i], p),
        combined(combined(a, b, r, p), b, t, p) == combined(a, b, r + t, p),
{
    assert forall|i: int| 0 <= i < a.len() implies cong(#[trigger] combined(a, b, 0, p)[i], a[i], p) by {
        let (x, y) = (a[i], b[i]);
        crate::math::lemma_cong_mod(x + 0 * y, p);
        assert(0 * y == 0);
    }
    assert forall|i: int| 0 <= i < a.len() implies cong(#[trigger] combined(a, b, 1, p)[i], a[i] + b[i], p) by {
        let (x, y) = (a[i], b[i]);
        crate::math::lemma_cong_mod(x + 1 * y, p);
        assert(1 * y == y);
    }
    assert forall|i: int| 0 <= i < a.len() implies combined(combined(a, b, r, p), b, t, p)[i] == combined(a, b, r + t, p)[i] by {
        let (x, y) = (a[i], b[i]);
        crate::math::lemma_cong_mod(x + r * y, p);
        crate::math::lemma_cong_add((x + r * y) % p, x + r * y, t * y, t * y, p);
        assert(x + r * y + t * y == x + (r + t) * y) by (nonlinear_arith);
    }
    assert(combined(combined(a, b, r, p), b, t, p) =~= combined(a, b, r + t, p));
}

} // verus!
