//! The sum-check proof that a simulated step carries.
use crate::engine::{vals, CurveGroup};
use crate::errors::NovaError;
use crate::field::FieldElement;
use crate::fragment::CircuitEngine;
use crate::math::{
    cong, lemma_canonical, lemma_cong_add, lemma_cong_mod, lemma_cong_mul, lemma_cong_sub, lemma_sum_zero, sum,
};
use crate::mle::{eq_weight, mle, reversed};
use crate::nifs::canonical_point;
use crate::nova::univariate::{decompressed, CompressedUniPoly};
use crate::r1cs::pow2_usize;
use crate::relation::eq_at;
use vstd::arithmetic::power2::pow2;
use vstd::prelude::*;

verus! {

/// The products of two tables, entry by entry.
pub open spec fn products(a: Seq<int>, b: Seq<int>, p: int) -> Seq<int> {
    Seq::new(a.len(), |i: int| (a[i] * b[i]) % p)
}

/// How far the products of two tables are from a third, entry by entry.
pub open spec fn product_errors(a: Seq<int>, b: Seq<int>, c: Seq<int>, p: int) -> Seq<int> {
    Seq::new(a.len(), |i: int| ((a[i] * b[i]) % p - c[i]) % p)
}

/// Coefficients without the linear one.
pub open spec fn without_linear(c: Seq<int>) -> Seq<int> {
    seq![c[0]] + c.skip(2)
}

/// Lists of coefficients without the linear ones.
pub open spec fn all_without_linear(lists: Seq<Seq<int>>) -> Seq<Seq<int>> {
    Seq::new(lists.len(), |k: int| without_linear(lists[k]))
}

/// The residues of compressed polynomials.
pub open spec fn compressed_vals<F: FieldElement>(polys: Seq<CompressedUniPoly<F>>) -> Seq<Seq<int>> {
    Seq::new(polys.len(), |k: int| vals(polys[k].coeffs_except_linear_term@))
}

/// Decompressing gives back what was left when the linear coefficient was taken out.
pub proof fn compress_undoes_decompress(c: Seq<int>, hint: int, p: int)
    requires
        c.len() > 0,
    ensures
        without_linear(decompressed(c, hint, p)) == c,
{
    assert(without_linear(decompressed(c, hint, p)) =~= c);
}

/// Where all products are what they have to be, the claim of the sum-check is zero.
pub proof fn claim_of_products_is_zero(a: Seq<int>, b: Seq<int>, point: Seq<int>, p: int)
    requires
        p > 1,
        a.len() == pow2(point.len()),
        b.len() == a.len(),
    ensures
        mle(product_errors(a, b, products(a, b, p), p), point) == 0,
{
    let table = product_errors(a, b, products(a, b, p), p);
    vstd::arithmetic::div_mod::lemma_small_mod(0, p as nat);
    let f = |i: int| table[i] * eq_weight(i, point);
    assert forall|i: int| 0 <= i < table.len() implies #[trigger] f(i) == 0 by {
        assert(table[i] == 0);
    }
    lemma_sum_zero(f, table.len() as int);
    assert(mle(table, point) == sum(f, table.len() as int));
}

/// The polynomial of all coefficients, compressed.
fn compress<F: FieldElement>(coeffs: &Vec<F>) -> (r: CompressedUniPoly<F>)
    requires
        coeffs.len() >= 2,
    ensures
        vals(r.coeffs_except_linear_term@) == without_linear(vals(coeffs@)),
        r.coeffs_except_linear_term@.len() == coeffs@.len() - 1,
{
    let mut rest: Vec<F> = Vec::new();
    rest.push(coeffs[0]);
    let mut i: usize = 2;
    while i < coeffs.len()
        invariant
            2 <= i <= coeffs.len(),
            rest@.len() == i - 1,
            rest@[0] == coeffs@[0],
            forall|k: int| 1 <= k < i - 1 ==> #[trigger] rest@[k] == coeffs@[k + 1],
        decreases coeffs.len() - i,
    {
        rest.push(coeffs[i]);
        i = i + 1;
    }
    assert(vals(rest@) =~= without_linear(vals(coeffs@)));
    CompressedUniPoly { coeffs_except_linear_term: rest }
}

/// The claim of a sum-check over the errors of products.
fn product_claim<F: FieldElement>(a: &Vec<F>, b: &Vec<F>, c: &Vec<F>, taus: &Vec<F>) -> (r: F)
    requires
        a.len() == pow2(taus@.len()),
        a.len() == b.len(),
        a.len() == c.len(),
    ensures
        r.val() == mle(product_errors(vals(a@), vals(b@), vals(c@), F::modulus()), reversed(vals(taus@))) % F::modulus(),
{
    let ghost p = F::modulus();
    let point = canonical_point(taus);
    let ghost pt = vals(point@);
    let ghost table = product_errors(vals(a@), vals(b@), vals(c@), p);
    let ghost f = |i: int| table[i] * eq_weight(i, pt);
    let mut acc = F::from_u64(0);
    let mut i: usize = 0;
    proof {
        F::modulus_bounds();
    }
    while i < a.len()
        invariant
            i <= a.len(),
            a.len() == b.len(),
            a.len() == c.len(),
            p == F::modulus(),
            p > 1,
            pt == vals(point@),
            table == product_errors(vals(a@), vals(b@), vals(c@), p),
            f == (|i: int| table[i] * eq_weight(i, pt)),
            cong(acc.val(), sum(f, i as int), p),
        decreases a.len() - i,
    {
        let ghost before = acc.val();
        let weight = eq_at(i, &point);
        let error = a[i].mul(&b[i]).sub(&c[i]);
        let term = error.mul(&weight);
        acc = acc.add(&term);
        proof {
            let (t, w) = (table[i as int], eq_weight(i as int, pt));
            assert(error.val() == t);
            lemma_cong_mod(w, p);
            lemma_cong_mul(t, t, weight.val(), w, p);
            lemma_cong_mod(t * weight.val(), p);
            lemma_cong_add(before, sum(f, i as int), term.val(), t * w, p);
            lemma_cong_mod(before + term.val(), p);
            assert(sum(f, i + 1) == sum(f, i as int) + f(i as int));
        }
        i = i + 1;
    }
    proof {
        acc.val_bounds();
        lemma_canonical(acc.val(), sum(f, table.len() as int), p);
        assert(mle(table, pt) == sum(f, table.len() as int));
    }
    acc
}

/// What a proof that products are products is: its polynomials without their linear terms, and the last values.
pub open spec fn product_proof<E: CircuitEngine>(a: Seq<int>, b: Seq<int>, taus: Seq<int>) -> (Seq<Seq<int>>, Seq<int>) {
    let whole = E::cubic_proof("sumcheck_test"@, 0, taus, a, b, products(a, b, E::Scalar::modulus()));
    (all_without_linear(whole.0), whole.1)
}

/// Proves by a sum-check that the products of two tables are their products.
pub fn prove_products<E: CircuitEngine>(a: &Vec<E::Scalar>, b: &Vec<E::Scalar>, taus: &Vec<E::Scalar>) -> (r: (
    Vec<CompressedUniPoly<E::Scalar>>,
    Vec<E::Scalar>,
))
    requires
        taus@.len() >= 1,
        a@.len() == pow2(taus@.len()),
        b@.len() == pow2(taus@.len()),
    ensures
        (compressed_vals::<E::Scalar>(r.0@), vals(r.1@)) == product_proof::<E>(vals(a@), vals(b@), vals(taus@)),
        r.0@.len() == taus@.len(),
        forall|k: int| 0 <= k < r.0@.len() ==> (#[trigger] r.0@[k]).coeffs_except_linear_term@.len() == 3,
        r.1@.len() == 3,
{
    let ghost q = E::Scalar::modulus();
    let mut c: Vec<E::Scalar> = Vec::new();
    let mut i: usize = 0;
    while i < a.len()
        invariant
            i <= a.len(),
            a.len() == b.len(),
            c@.len() == i,
            forall|k: int| 0 <= k < i ==> (#[trigger] c@[k]).val() == (a@[k].val() * b@[k].val()) % E::Scalar::modulus(),
        decreases a.len() - i,
    {
        c.push(a[i].mul(&b[i]));
        i = i + 1;
    }
    let claim = product_claim(a, b, &c, taus);
    proof {
        E::Scalar::modulus_bounds();
        assert(vals(c@) =~= products(vals(a@), vals(b@), q));
        claim_of_products_is_zero(vals(a@), vals(b@), reversed(vals(taus@)), q);
        vstd::arithmetic::div_mod::lemma_small_mod(0, q as nat);
    }
    let (lists, evals) = E::prove_cubic("sumcheck_test", &claim, taus, a, b, &c);
    let mut polys: Vec<CompressedUniPoly<E::Scalar>> = Vec::new();
    let mut j: usize = 0;
    while j < lists.len()
        invariant
            j <= lists.len(),
            polys@.len() == j,
            forall|k: int| 0 <= k < lists@.len() ==> (#[trigger] lists@[k])@.len() == 4,
            forall|k: int|
                0 <= k < j ==> vals((#[trigger] polys@[k]).coeffs_except_linear_term@) == without_linear(vals(lists@[k]@))
                    && polys@[k].coeffs_except_linear_term@.len() == 3,
        decreases lists.len() - j,
    {
        assert(lists@[j as int]@.len() == 4);
        polys.push(compress(&lists[j]));
        j = j + 1;
    }
    proof {
        let whole = E::cubic_proof("sumcheck_test"@, 0, vals(taus@), vals(a@), vals(b@), products(vals(a@), vals(b@), q));
        assert(whole.0 == Seq::new(lists@.len(), |i: int| vals(lists@[i]@)));
        assert(compressed_vals::<E::Scalar>(polys@) =~= all_without_linear(whole.0));
    }
    (polys, evals)
}

/// Whether polynomials and values are the proof for two tables of as many entries as a point has corners.
pub open spec fn proves_products<E: CircuitEngine>(
    a: Seq<int>,
    b: Seq<int>,
    taus: Seq<int>,
    polys: Seq<Seq<int>>,
    evals: Seq<int>,
) -> bool {
    &&& a.len() == pow2(taus.len())
    &&& b.len() == pow2(taus.len())
    &&& (polys, evals) == product_proof::<E>(a, b, taus)
}

/// Random elements.
fn random_elements<E: CircuitEngine>(n: usize) -> (r: Vec<E::Scalar>)
    ensures
        r@.len() == n,
{
    let mut r: Vec<E::Scalar> = Vec::new();
    while r.len() < n
        invariant
            r@.len() <= n,
        decreases n - r.len(),
    {
        r.push(E::random_scalar());
    }
    r
}

/// Proves by a sum-check of `n` rounds that the products of random tables are their products: returned are the
/// polynomials, the random point and the last values of the tables. There has to be a round, and the tables have to be
/// addressable.
pub fn sumcheck_prove<E: CircuitEngine>(n: usize) -> (r: Result<
    (Vec<CompressedUniPoly<E::Scalar>>, Vec<E::Scalar>, Vec<E::Scalar>),
    NovaError,
>)
    requires
        n <= u32::MAX,
    ensures
        r is Err <==> n == 0 || n >= usize::BITS,
        r matches Err(e) ==> e == NovaError::InvalidSumcheckProof,
        r matches Ok((polys, taus, evals)) ==> {
            &&& taus@.len() == n
            &&& polys@.len() == n
            &&& forall|k: int| 0 <= k < polys@.len() ==> (#[trigger] polys@[k]).coeffs_except_linear_term@.len() == 3
            &&& evals@.len() == 3
            &&& exists|a: Seq<int>, b: Seq<int>| #[trigger]
                proves_products::<E>(a, b, vals(taus@), compressed_vals::<E::Scalar>(polys@), vals(evals@))
        },
{
    if n == 0 || n >= usize::BITS as usize {
        return Err(NovaError::InvalidSumcheckProof);
    }
    proof {
        vstd::arithmetic::power2::lemma2_to64();
        if n < usize::BITS - 1 {
            vstd::arithmetic::power2::lemma_pow2_strictly_increases(n as nat, (usize::BITS - 1) as nat);
        }
        vstd::arithmetic::power2::lemma_pow2_unfold(64);
        assert(pow2(63) <= 0x8000_0000_0000_0000);
        assert(usize::BITS == 32 ==> usize::MAX == 0xffff_ffff);
        assert(usize::BITS == 64 ==> usize::MAX == 0xffff_ffff_ffff_ffff);
    }
    let len = pow2_usize(n);
    let a = random_elements::<E>(len);
    let b = random_elements::<E>(len);
    let taus = random_elements::<E>(n);
    let (polys, evals) = prove_products::<E>(&a, &b, &taus);
    assert(proves_products::<E>(
        vals(a@),
        vals(b@),
        vals(taus@),
        compressed_vals::<E::Scalar>(polys@),
        vals(evals@),
    ));
    let r = Ok((polys, taus, evals));
    assert(proves_products::<E>(
        vals(a@),
        vals(b@),
        vals(r->Ok_0.1@),
        compressed_vals::<E::Scalar>(r->Ok_0.0@),
        vals(r->Ok_0.2@),
    ));
    r
}

/// The errors of products are all zero exactly if every entry of the third table is the product of those of the first two.
pub proof fn errors_vanish_for_products(a: Seq<int>, b: Seq<int>, c: Seq<int>, p: int)
    requires
        p > 1,
        a.len() == b.len(),
        a.len() == c.len(),
    ensures
        product_errors(a, b, c, p).len() == a.len(),
        (forall|i: int| 0 <= i < a.len() ==> #[trigger] product_errors(a, b, c, p)[i] == 0) <==> (forall|i: int|
            0 <= i < a.len() ==> cong(#[trigger] c[i], a[i] * b[i], p)),
        products(a, b, p).len() == a.len(),
        forall|i: int| 0 <= i < a.len() ==> cong(#[trigger] products(a, b, p)[i], a[i] * b[i], p),
{
    let e = product_errors(a, b, c, p);
    assert forall|i: int| 0 <= i < a.len() implies (#[trigger] e[i] == 0 <==> cong(c[i], a[i] * b[i], p)) by {
        let t = a[i] * b[i];
        lemma_cong_mod(t, p);
        if cong(c[i], t, p) {
            lemma_cong_sub(t % p, t, c[i], t, p);
            vstd::arithmetic::div_mod::lemma_small_mod(0, p as nat);
        }
        if e[i] == 0 {
            lemma_cong_mod(t % p - c[i], p);
            lemma_cong_add(0, t % p - c[i], c[i], c[i], p);
        }
    }
    assert forall|i: int| 0 <= i < a.len() implies cong(#[trigger] products(a, b, p)[i], a[i] * b[i], p) by {
        lemma_cong_mod(a[i] * b[i], p);
    }
    if forall|i: int| 0 <= i < a.len() ==> cong(#[trigger] c[i], a[i] * b[i], p) {
        assert forall|i: int| 0 <= i < a.len() implies #[trigger] e[i] == 0 by {
            assert(cong(c[i], a[i] * b[i], p));
        }
    }
    if forall|i: int| 0 <= i < a.len() ==> #[trigger] e[i] == 0 {
        assert forall|i: int| 0 <= i < a.len() implies cong(#[trigger] c[i], a[i] * b[i], p) by {
            assert(e[i] == 0);
        }
    }
}

/// A proof of products is the one that is made under its label for the claim zero and the table of the products, without
/// the linear coefficients of its polynomials.
pub proof fn product_proof_drops_linear_terms<E: CircuitEngine>(a: Seq<int>, b: Seq<int>, c: Seq<int>, taus: Seq<int>)
    requires
        a.len() == c.len(),
        forall|i: int| 0 <= i < c.len() ==> #[trigger] c[i] == (a[i] * b[i]) % E::Scalar::modulus(),
    ensures
        ({
            let whole = E::cubic_proof("sumcheck_test"@, 0, taus, a, b, c);
            let (polys, evals) = product_proof::<E>(a, b, taus);
            &&& evals == whole.1
            &&& polys.len() == whole.0.len()
            &&& forall|k: int|
                0 <= k < polys.len() && whole.0[k].len() >= 2 ==> {
                    &&& (#[trigger] polys[k]).len() == whole.0[k].len() - 1
                    &&& polys[k][0] == whole.0[k][0]
                    &&& forall|i: int| 1 <= i < polys[k].len() ==> #[trigger] polys[k][i] == whole.0[k][i + 1]
                }
        }),
{
    assert(c =~= products(a, b, E::Scalar::modulus()));
}

} // verus!
