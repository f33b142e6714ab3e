//! Finite sums, congruences and powers of two.
use vstd::arithmetic::div_mod::{
    lemma_add_mod_noop, lemma_mod_twice, lemma_mul_mod_noop, lemma_small_mod, lemma_sub_mod_noop,
};
use vstd::arithmetic::power2::{lemma_pow2_unfold, pow2};
use vstd::prelude::*;

verus! {

/// The sum of `f` over the first `n` indices.
pub open spec fn sum(f: spec_fn(int) -> int, n: int) -> int
    decreases n,
{
    if n <= 0 {
        0
    } else {
        sum(f, n - 1) + f(n - 1)
    }
}

/// Whether two integers leave the same remainder.
pub open spec fn cong(a: int, b: int, p: int) -> bool {
    a % p == b % p
}

/// Whether a product is a multiple of `p`.
pub open spec fn vanishes(a: int, b: int, p: int) -> bool {
    (a * b) % p == 0
}

/// Whether a product is a multiple of `p` only if a factor is, which holds of every prime.
pub open spec fn integral(p: int) -> bool {
    forall|a: int, b: int| #[trigger] vanishes(a, b, p) ==> a % p == 0 || b % p == 0
}

/// The inner product of two sequences, over the length of the first.
pub open spec fn inner_product(a: Seq<int>, b: Seq<int>) -> int {
    sum(|i: int| a[i] * b[i], a.len() as int)
}

/// The least exponent whose power of two is at least `n`.
pub open spec fn ceil_log2(n: int) -> nat
    decreases n,
{
    if n <= 1 {
        0
    } else {
        1 + ceil_log2((n + 1) / 2)
    }
}

/// The least power of two that is at least `n`.
pub open spec fn next_pow2(n: int) -> nat {
    pow2(ceil_log2(n))
}

pub open spec fn max(a: int, b: int) -> int {
    if a >= b {
        a
    } else {
        b
    }
}

/// Sums of functions that agree below `n` agree.
pub proof fn lemma_sum_ext(f: spec_fn(int) -> int, g: spec_fn(int) -> int, n: int)
    requires
        forall|i: int| 0 <= i < n ==> #[trigger] f(i) == g(i),
    ensures
        sum(f, n) == sum(g, n),
    decreases n,
{
    if n > 0 {
        lemma_sum_ext(f, g, n - 1);
        assert(f(n - 1) == g(n - 1));
    }
}

/// Sums of functions that are congruent below `n` are congruent.
pub proof fn lemma_sum_cong(f: spec_fn(int) -> int, g: spec_fn(int) -> int, n: int, p: int)
    requires
        p > 0,
        forall|i: int| 0 <= i < n ==> cong(#[trigger] f(i), g(i), p),
    ensures
        cong(sum(f, n), sum(g, n), p),
    decreases n,
{
    if n > 0 {
        lemma_sum_cong(f, g, n - 1, p);
        assert(cong(f(n - 1), g(n - 1), p));
        lemma_cong_add(sum(f, n - 1), sum(g, n - 1), f(n - 1), g(n - 1), p);
    }
}

/// The sum of sums.
pub proof fn lemma_sum_add(f: spec_fn(int) -> int, g: spec_fn(int) -> int, h: spec_fn(int) -> int, n: int)
    requires
        forall|i: int| 0 <= i < n ==> #[trigger] h(i) == f(i) + g(i),
    ensures
        sum(h, n) == sum(f, n) + sum(g, n),
    decreases n,
{
    if n > 0 {
        lemma_sum_add(f, g, h, n - 1);
        assert(h(n - 1) == f(n - 1) + g(n - 1));
    }
}

/// A factor moves out of a sum.
pub proof fn lemma_sum_scale(f: spec_fn(int) -> int, g: spec_fn(int) -> int, c: int, n: int)
    requires
        forall|i: int| 0 <= i < n ==> #[trigger] g(i) == c * f(i),
    ensures
        sum(g, n) == c * sum(f, n),
    decreases n,
{
    if n > 0 {
        lemma_sum_scale(f, g, c, n - 1);
        assert(g(n - 1) == c * f(n - 1));
        let s = sum(f, n - 1);
        let t = f(n - 1);
        assert(c * (s + t) == c * s + c * t) by (nonlinear_arith);
    } else {
        assert(c * 0 == 0) by (nonlinear_arith);
    }
}

/// A sum splits at any index.
pub proof fn lemma_sum_split(f: spec_fn(int) -> int, g: spec_fn(int) -> int, m: int, n: int)
    requires
        0 <= m,
        0 <= n,
        forall|i: int| 0 <= i < n ==> #[trigger] g(i) == f(m + i),
    ensures
        sum(f, m + n) == sum(f, m) + sum(g, n),
    decreases n,
{
    if n > 0 {
        lemma_sum_split(f, g, m, n - 1);
        assert(g(n - 1) == f(m + n - 1));
    }
}

/// A sum of zeros is zero.
pub proof fn lemma_sum_zero(f: spec_fn(int) -> int, n: int)
    requires
        forall|i: int| 0 <= i < n ==> #[trigger] f(i) == 0,
    ensures
        sum(f, n) == 0,
    decreases n,
{
    if n > 0 {
        lemma_sum_zero(f, n - 1);
        assert(f(n - 1) == 0);
    }
}

/// A sum with one term that is not zero is that term.
pub proof fn lemma_sum_single(f: spec_fn(int) -> int, n: int, at: int)
    requires
        0 <= at < n,
        forall|i: int| 0 <= i < n && i != at ==> #[trigger] f(i) == 0,
    ensures
        sum(f, n) == f(at),
    decreases n,
{
    if at == n - 1 {
        lemma_sum_zero(f, n - 1);
    } else {
        lemma_sum_single(f, n - 1, at);
        assert(f(n - 1) == 0);
    }
}

/// Changing the term at one index changes the sum by the difference.
pub proof fn lemma_sum_update(f: spec_fn(int) -> int, g: spec_fn(int) -> int, n: int, at: int)
    requires
        0 <= at < n,
        forall|i: int| 0 <= i < n && i != at ==> #[trigger] g(i) == f(i),
    ensures
        sum(g, n) == sum(f, n) + g(at) - f(at),
    decreases n,
{
    if at == n - 1 {
        lemma_sum_ext(g, f, n - 1);
    } else {
        lemma_sum_update(f, g, n - 1, at);
        assert(g(n - 1) == f(n - 1));
    }
}

pub proof fn lemma_cong_add(a: int, b: int, c: int, d: int, p: int)
    requires
        p > 0,
        cong(a, b, p),
        cong(c, d, p),
    ensures
        cong(a + c, b + d, p),
{
    lemma_add_mod_noop(a, c, p);
    lemma_add_mod_noop(b, d, p);
}

pub proof fn lemma_cong_sub(a: int, b: int, c: int, d: int, p: int)
    requires
        p > 0,
        cong(a, b, p),
        cong(c, d, p),
    ensures
        cong(a - c, b - d, p),
{
    lemma_sub_mod_noop(a, c, p);
    lemma_sub_mod_noop(b, d, p);
}

pub proof fn lemma_cong_mul(a: int, b: int, c: int, d: int, p: int)
    requires
        p > 0,
        cong(a, b, p),
        cong(c, d, p),
    ensures
        cong(a * c, b * d, p),
{
    lemma_mul_mod_noop(a, c, p);
    lemma_mul_mod_noop(b, d, p);
}

/// A remainder is congruent to what it is the remainder of.
pub proof fn lemma_cong_mod(a: int, p: int)
    requires
        p > 0,
    ensures
        cong(a % p, a, p),
{
    lemma_mod_twice(a, p);
}

/// A residue is the remainder of every number that it is congruent to.
pub proof fn lemma_canonical(v: int, x: int, p: int)
    requires
        0 <= v < p,
        cong(v, x, p),
    ensures
        v == x % p,
{
    lemma_small_mod(v as nat, p as nat);
}

/// The reduced sum of two residues.
pub proof fn lemma_residue_add(a: int, x: int, b: int, y: int, p: int)
    requires
        p > 0,
        cong(a, x, p),
        cong(b, y, p),
    ensures
        cong((a + b) % p, x + y, p),
{
    lemma_cong_add(a, x, b, y, p);
    lemma_cong_mod(a + b, p);
}

/// The reduced difference of two residues.
pub proof fn lemma_residue_sub(a: int, x: int, b: int, y: int, p: int)
    requires
        p > 0,
        cong(a, x, p),
        cong(b, y, p),
    ensures
        cong((a - b) % p, x - y, p),
{
    lemma_cong_sub(a, x, b, y, p);
    lemma_cong_mod(a - b, p);
}

/// The reduced product of two residues.
pub proof fn lemma_residue_mul(a: int, x: int, b: int, y: int, p: int)
    requires
        p > 0,
        cong(a, x, p),
        cong(b, y, p),
    ensures
        cong((a * b) % p, x * y, p),
{
    lemma_cong_mul(a, x, b, y, p);
    lemma_cong_mod(a * b, p);
}

/// A number is at most the power of two that its logarithm gives, which is at most twice the number.
pub proof fn lemma_ceil_log2(n: int)
    requires
        n >= 1,
    ensures
        n <= next_pow2(n),
        next_pow2(n) < 2 * n,
    decreases n,
{
    if n > 1 {
        let half = (n + 1) / 2;
        lemma_ceil_log2(half);
        lemma_pow2_unfold(ceil_log2(n));
        if half > 1 {
            lemma_pow2_unfold(ceil_log2(half));
        }
    } else {
        assert(pow2(0) == 1) by {
            vstd::arithmetic::power2::lemma2_to64();
        }
    }
}

/// The base-2 logarithm, rounded up.
pub fn log_2(n: usize) -> (r: usize)
    requires
        n > 0,
    ensures
        r == ceil_log2(n as int),
{
    let mut k: usize = 0;
    let mut m: usize = n;
    while m > 1
        invariant
            m >= 1,
            k + m <= n,
            ceil_log2(n as int) == k + ceil_log2(m as int),
        decreases m,
    {
        let half: usize = m / 2 + m % 2;
        assert(half == (m + 1) / 2);
        m = half;
        k = k + 1;
    }
    k
}

/// The logarithm rounded up is the least power of two that a number does not exceed.
pub proof fn logarithm_is_least(n: int, k: nat)
    ensures
        n <= next_pow2(n),
        next_pow2(n) == pow2(ceil_log2(n)),
        n <= pow2(k) ==> ceil_log2(n) <= k,
{
    vstd::arithmetic::power2::lemma_pow2_pos(ceil_log2(n));
    if n >= 1 {
        lemma_ceil_log2(n);
        if n <= pow2(k) && ceil_log2(n) > k {
            if ceil_log2(n) > k + 1 {
                vstd::arithmetic::power2::lemma_pow2_strictly_increases(k + 1, ceil_log2(n));
            }
            lemma_pow2_unfold(k + 1);
        }
    }
}

/// A power of two is its own next power of two.
pub proof fn power_of_two_is_its_own(k: nat)
    ensures
        ceil_log2(pow2(k) as int) == k,
        next_pow2(pow2(k) as int) == pow2(k),
{
    vstd::arithmetic::power2::lemma_pow2_pos(k);
    let n = pow2(k) as int;
    let j = ceil_log2(n);
    logarithm_is_least(n, k);
    if j < k {
        vstd::arithmetic::power2::lemma_pow2_strictly_increases(j, k);
    }
}

} // verus!
