//! Polynomials of one variable that are kept without their linear term.
use crate::engine::vals;
use crate::field::FieldElement;
use crate::math::{cong, lemma_cong_add, lemma_cong_mod, lemma_cong_sub, sum};
use vstd::prelude::*;

verus! {

/// The coefficients of a polynomial without the linear one, the constant first.
pub struct CompressedUniPoly<F: FieldElement> {
    pub coeffs_except_linear_term: Vec<F>,
}

/// The sum of the first `n` numbers.
pub open spec fn total(s: Seq<int>, n: int) -> int {
    sum(|i: int| s[i], n)
}

/// All coefficients, the linear one being such that the values at zero and one add up to the hint.
pub open spec fn decompressed(c: Seq<int>, hint: int, p: int) -> Seq<int> {
    seq![c[0], (hint - c[0] - total(c, c.len() as int)) % p] + c.skip(1)
}

/// The values of a decompressed polynomial at zero and one, which is the sum of the coefficients, add up to the hint.
pub proof fn decompressed_matches_hint(c: Seq<int>, hint: int, p: int)
    requires
        c.len() > 0,
        p > 1,
    ensures
        ({
            let d = decompressed(c, hint, p);
            cong(d[0] + total(d, d.len() as int), hint, p)
        }),
{
    let d = decompressed(c, hint, p);
    let n = c.len() as int;
    lemma_shifted_total(c, d, n);
    let linear = hint - c[0] - total(c, n);
    lemma_cong_mod(linear, p);
    lemma_cong_add(d[1], linear, c[0] + total(c, n), c[0] + total(c, n), p);
}

/// A list with one more element at the second place has the total of the list and of that element.
proof fn lemma_shifted_total(c: Seq<int>, d: Seq<int>, n: int)
    requires
        1 <= n <= c.len(),
        d.len() == c.len() + 1,
        d[0] == c[0],
        forall|i: int| 1 <= i < c.len() ==> #[trigger] d[i + 1] == c[i],
    ensures
        total(d, n + 1) == total(c, n) + d[1],
    decreases n,
{
    let f = |i: int| d[i];
    let g = |i: int| c[i];
    if n == 1 {
        assert(sum(f, 2) == sum(f, 1) + f(1));
        assert(sum(f, 1) == sum(f, 0) + f(0));
        assert(sum(g, 1) == sum(g, 0) + g(0));
    } else {
        lemma_shifted_total(c, d, n - 1);
        assert(sum(f, n + 1) == sum(f, n) + f(n));
        assert(sum(g, n) == sum(g, n - 1) + g(n - 1));
        assert(d[(n - 1) + 1] == c[n - 1]);
    }
}

impl<F: FieldElement> CompressedUniPoly<F> {
    /// All coefficients, the linear one being such that the values at zero and one add up to the hint.
    pub fn decompress(&self, hint: &F) -> (r: Vec<F>)
        requires
            self.coeffs_except_linear_term.len() > 0,
        ensures
            vals(r@) == decompressed(vals(self.coeffs_except_linear_term@), hint.val(), F::modulus()),
    {
        let c = &self.coeffs_except_linear_term;
        let ghost s = vals(c@);
        let ghost p = F::modulus();
        let ghost f = |i: int| s[i];
        let first = hint.sub(&c[0]);
        let mut linear = first.sub(&c[0]);
        let mut i: usize = 1;
        proof {
            F::modulus_bounds();
            lemma_cong_mod(hint.val() - s[0], p);
            lemma_cong_mod(first.val() - s[0], p);
            lemma_cong_sub(first.val(), hint.val() - s[0], s[0], s[0], p);
            assert(sum(f, 1) == sum(f, 0) + f(0));
        }
        while i < c.len()
            invariant
                1 <= i <= c.len(),
                s == vals(c@),
                p == F::modulus(),
                p > 1,
                f == (|i: int| s[i]),
                0 <= linear.val() < p,
                cong(linear.val(), hint.val() - s[0] - sum(f, i as int), p),
            decreases c.len() - i,
        {
            let ghost before = linear.val();
            linear = linear.sub(&c[i]);
            proof {
                linear.val_bounds();
                lemma_cong_mod(before - s[i as int], p);
                lemma_cong_sub(before, hint.val() - s[0] - sum(f, i as int), s[i as int], s[i as int], p);
                assert(sum(f, i + 1) == sum(f, i as int) + f(i as int));
            }
            i = i + 1;
        }
        let mut r: Vec<F> = Vec::new();
        r.push(c[0]);
        r.push(linear);
        let mut j: usize = 1;
        while j < c.len()
            invariant
                1 <= j <= c.len(),
                s == vals(c@),
                r@.len() == j + 1,
                r@[0] == c@[0],
                r@[1] == linear,
                forall|k: int| 1 <= k < j ==> #[trigger] r@[k + 1] == c@[k],
            decreases c.len() - j,
        {
            r.push(c[j]);
            j = j + 1;
        }
        proof {
            crate::math::lemma_canonical(linear.val(), hint.val() - s[0] - sum(f, s.len() as int), p);
            let want = decompressed(s, hint.val(), p);
            assert forall|k: int| 0 <= k < want.len() implies vals(r@)[k] == want[k] by {
                if k >= 2 {
                    assert(r@[(k - 1) + 1] == c@[k - 1]);
                }
            }
            assert(vals(r@) =~= want);
        }
        r
    }
}

} // verus!
