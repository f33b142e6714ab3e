//! The sum-check protocol over several tables at once: what its prover sends, what its verifier
//! accepts, and that the verifier accepts what the prover sends.
use crate::math::{
    cong, lemma_cong_add, lemma_cong_mod, lemma_cong_mul, lemma_sum_cong, lemma_sum_ext, lemma_sum_split, sum,
};
use crate::mle::{between, bound_table, lemma_mle_bound, mle, reversed};
use vstd::arithmetic::div_mod::{lemma_mod_bound, lemma_small_mod};
use vstd::arithmetic::power2::{lemma_pow2_unfold, pow2};
use vstd::prelude::*;

verus! {

/// The entries of all tables at one index.
pub open spec fn column(tables: Seq<Seq<int>>, i: int) -> Seq<int> {
    Seq::new(tables.len(), |j: int| tables[j][i])
}

/// The values of all tables between two indices that differ in the highest bit alone.
pub open spec fn column_between(tables: Seq<Seq<int>>, i: int, t: int) -> Seq<int> {
    Seq::new(tables.len(), |j: int| between(tables[j], i, t))
}

/// The sum of `h` over the columns of the tables.
pub open spec fn table_sum(h: spec_fn(Seq<int>) -> int, tables: Seq<Seq<int>>, n: int) -> int {
    sum(|i: int| h(column(tables, i)), n)
}

/// The sum of `h` over the tables with their highest variable set to `t`.
pub open spec fn round_sum(h: spec_fn(Seq<int>) -> int, tables: Seq<Seq<int>>, n: int, t: int) -> int {
    sum(|i: int| h(column_between(tables, i, t)), n)
}

/// All tables with their highest variable set to `r`, reduced.
pub open spec fn bound_tables(tables: Seq<Seq<int>>, r: int, p: int) -> Seq<Seq<int>> {
    Seq::new(tables.len(), |j: int| bound_table(tables[j], r, p))
}

/// What the prover sends in a round: the sums with the highest variable set to 0, 1 and so on.
pub open spec fn round_evals(h: spec_fn(Seq<int>) -> int, tables: Seq<Seq<int>>, n: int, d: nat, p: int) -> Seq<int> {
    Seq::new(d, |t: int| round_sum(h, tables, n, t) % p)
}

/// The number of bits of a challenge.
pub const NUM_CHALLENGE_BITS: usize = 128;

/// The challenge that an oracle gives in a state.
pub open spec fn challenge(hash: spec_fn(Seq<int>) -> int, state: Seq<int>) -> int {
    hash(state) % (pow2(128) as int)
}

/// The prover between two rounds.
pub struct Rounds {
    pub tables: Seq<Seq<int>>,
    pub state: Seq<int>,
    pub point: Seq<int>,
    pub polys: Seq<Seq<int>>,
}

/// One round of the prover.
pub open spec fn prove_round(
    h: spec_fn(Seq<int>) -> int,
    d: nat,
    hash: spec_fn(Seq<int>) -> int,
    p: int,
    n: int,
    s: Rounds,
) -> Rounds {
    let evals = round_evals(h, s.tables, n, d, p);
    let r = challenge(hash, s.state + evals);
    Rounds {
        tables: bound_tables(s.tables, r, p),
        state: seq![hash(s.state + evals)],
        point: s.point.push(r),
        polys: s.polys.push(evals),
    }
}

/// The prover after `k` rounds on tables of `num_rounds` variables.
pub open spec fn prove_rounds(
    h: spec_fn(Seq<int>) -> int,
    d: nat,
    hash: spec_fn(Seq<int>) -> int,
    p: int,
    num_rounds: nat,
    s: Rounds,
    k: nat,
) -> Rounds
    decreases k,
{
    if k == 0 {
        s
    } else {
        let before = prove_rounds(h, d, hash, p, num_rounds, s, (k - 1) as nat);
        prove_round(h, d, hash, p, pow2((num_rounds - k) as nat) as int, before)
    }
}

/// The product of the distances of `at` from the first `k` points but the one at `i`.
pub open spec fn distances(points: Seq<int>, at: int, i: int, k: int) -> int
    decreases k,
{
    if k <= 0 {
        1
    } else if k - 1 == i {
        distances(points, at, i, k - 1)
    } else {
        distances(points, at, i, k - 1) * (at - points[k - 1])
    }
}

/// The multiplicative inverse modulo `p`.
pub open spec fn inverse(x: int, p: int) -> int {
    choose|y: int| 0 <= y < p && #[trigger] ((x * y) % p) == 1
}

/// What the point at `i` contributes to the interpolation.
pub open spec fn interpolation_term(points: Seq<int>, evals: Seq<int>, at: int, p: int, i: int) -> int {
    evals[i] * distances(points, at, i, points.len() as int) * inverse(
        distances(points, points[i], i, points.len() as int),
        p,
    )
}

/// Whether every point differs from all the others.
pub open spec fn separated(points: Seq<int>, p: int) -> bool {
    forall|i: int|
        0 <= i < points.len() ==> #[trigger] distances(points, points[i], i, points.len() as int) % p != 0
}

/// The value at `at` of the polynomial of least degree through the points, where there is one.
pub open spec fn interpolation(points: Seq<int>, evals: Seq<int>, at: int, p: int) -> Option<int> {
    if points.len() == evals.len() && points.len() > 0 && separated(points, p) {
        Some(sum(|i: int| interpolation_term(points, evals, at, p, i), points.len() as int) % p)
    } else {
        None
    }
}

/// The points 0, 1 and so on.
pub open spec fn first_points(d: nat) -> Seq<int> {
    Seq::new(d, |i: int| i)
}

/// The verifier between two rounds.
pub struct Check {
    pub state: Seq<int>,
    pub claim: int,
    pub point: Seq<int>,
}

/// One round of the verifier.
pub open spec fn check_round(
    points: Seq<int>,
    hash: spec_fn(Seq<int>) -> int,
    p: int,
    c: Check,
    evals: Seq<int>,
) -> Option<Check> {
    if evals.len() != points.len() || (evals[0] + evals[1]) % p != c.claim {
        None
    } else {
        let r = challenge(hash, c.state + evals);
        match interpolation(points, evals, r, p) {
            Some(claim) => Some(
                Check { state: seq![hash(c.state + evals)], claim, point: c.point.push(r) },
            ),
            None => None,
        }
    }
}

/// The verifier after the first `k` rounds, unless it has rejected.
pub open spec fn check_rounds(
    points: Seq<int>,
    hash: spec_fn(Seq<int>) -> int,
    p: int,
    c: Check,
    polys: Seq<Seq<int>>,
    k: nat,
) -> Option<Check>
    decreases k,
{
    if k == 0 {
        Some(c)
    } else {
        match check_rounds(points, hash, p, c, polys, (k - 1) as nat) {
            Some(before) => check_round(points, hash, p, before, polys[k - 1]),
            None => None,
        }
    }
}

/// A polynomial of degree three.
pub open spec fn cubic(c: (int, int, int, int), t: int) -> int {
    c.0 + c.1 * t + c.2 * (t * t) + c.3 * (t * t * t)
}

/// Whether `c` are the coefficients of `h` along the line through two columns, of degree below `d`.
pub open spec fn along_line(h: spec_fn(Seq<int>) -> int, d: nat, a: Seq<int>, b: Seq<int>, c: (int, int, int, int)) -> bool {
    &&& d == 3 ==> c.3 == 0
    &&& forall|t: int|
        #[trigger] cubic(c, t) == h(Seq::new(a.len(), |j: int| a[j] + t * (b[j] - a[j])))
}

/// Whether two columns are congruent.
pub open spec fn columns_cong(a: Seq<int>, b: Seq<int>, p: int) -> bool {
    a.len() == b.len() && forall|j: int| 0 <= j < a.len() ==> cong(#[trigger] a[j], b[j], p)
}

/// Whether `h`, on columns of `n` values, respects congruences and is a polynomial of degree below `d`
/// along every line.
pub open spec fn low_degree(h: spec_fn(Seq<int>) -> int, n: nat, d: nat, p: int) -> bool {
    &&& d == 3 || d == 4
    &&& forall|a: Seq<int>, b: Seq<int>|
        a.len() == n && #[trigger] columns_cong(a, b, p) ==> cong(h(a), h(b), p)
    &&& forall|a: Seq<int>, b: Seq<int>|
        #![trigger a.len(), b.len()]
        a.len() == n && b.len() == n ==> exists|c: (int, int, int, int)| along_line(h, d, a, b, c)
}

/// Whether `c` are the coefficients of the round polynomial, of degree below `d`.
pub open spec fn round_poly(
    h: spec_fn(Seq<int>) -> int,
    tables: Seq<Seq<int>>,
    n: int,
    d: nat,
    c: (int, int, int, int),
) -> bool {
    &&& d == 3 ==> c.3 == 0
    &&& forall|t: int| #[trigger] cubic(c, t) == round_sum(h, tables, n, t)
}

/// The sums that the prover sends are the values of a polynomial of low degree.
proof fn lemma_round_poly(h: spec_fn(Seq<int>) -> int, tables: Seq<Seq<int>>, n: int, d: nat, p: int) -> (c: (
    int,
    int,
    int,
    int,
))
    requires
        low_degree(h, tables.len(), d, p),
    ensures
        round_poly(h, tables, n, d, c),
    decreases n,
{
    if n <= 0 {
        let c = (0int, 0int, 0int, 0int);
        assert forall|t: int| #[trigger] cubic(c, t) == round_sum(h, tables, n, t) by {
            assert(cubic(c, t) == 0) by {
                assert(0 * t == 0 && 0 * (t * t) == 0 && 0 * (t * t * t) == 0) by (nonlinear_arith);
            }
        }
        c
    } else {
        let c0 = lemma_round_poly(h, tables, n - 1, d, p);
        let i = n - 1;
        let a = Seq::new(tables.len(), |j: int| tables[j][i]);
        let b = Seq::new(tables.len(), |j: int| tables[j][tables[j].len() / 2 + i]);
        assert(a.len() == tables.len() && b.len() == tables.len());
        let c1 = choose|c: (int, int, int, int)| along_line(h, d, a, b, c);
        assert(along_line(h, d, a, b, c1));
        let c = (c0.0 + c1.0, c0.1 + c1.1, c0.2 + c1.2, c0.3 + c1.3);
        assert forall|t: int| #[trigger] cubic(c, t) == round_sum(h, tables, n, t) by {
            assert(cubic(c0, t) == round_sum(h, tables, n - 1, t));
            let line = Seq::new(a.len(), |j: int| a[j] + t * (b[j] - a[j]));
            assert(cubic(c1, t) == h(line));
            assert(line =~= column_between(tables, i, t));
            let (x, y) = (t * t, t * t * t);
            assert((c0.1 + c1.1) * t == c0.1 * t + c1.1 * t) by (nonlinear_arith);
            assert((c0.2 + c1.2) * x == c0.2 * x + c1.2 * x) by (nonlinear_arith);
            assert((c0.3 + c1.3) * y == c0.3 * y + c1.3 * y) by (nonlinear_arith);
        }
        c
    }
}

/// A residue that inverts is the inverse.
pub proof fn lemma_inverse_is(x: int, y: int, p: int)
    requires
        p > 1,
        0 <= y < p,
        (x * y) % p == 1,
    ensures
        inverse(x, p) == y,
{
    let w = inverse(x, p);
    assert(0 <= w < p && (x * w) % p == 1);
    lemma_small_mod(1, p as nat);
    lemma_cong_mul(x * w, 1, y, y, p);
    lemma_cong_mul(x * y, 1, w, w, p);
    assert((x * w) * y == (x * y) * w) by (nonlinear_arith);
    lemma_small_mod(y as nat, p as nat);
    lemma_small_mod(w as nat, p as nat);
}

/// The inverse inverts where anything does.
proof fn lemma_inverse(x: int, y: int, p: int)
    requires
        p > 1,
        cong(x * y, 1, p),
    ensures
        0 <= inverse(x, p) < p,
        cong(x * inverse(x, p), 1, p),
{
    let z = y % p;
    lemma_mod_bound(y, p);
    lemma_cong_mod(y, p);
    lemma_cong_mul(x, x, z, y, p);
    lemma_small_mod(1, p as nat);
    assert((x * z) % p == 1);
    lemma_inverse_is(x, z, p);
}

/// Six has an inverse modulo every number that is prime to it.
proof fn lemma_inverse_of_six(p: int) -> (y: int)
    requires
        p > 6,
        p % 2 == 1,
        p % 3 != 0,
    ensures
        cong(6 * y, 1, p),
{
    if p % 6 == 1 {
        let y = p - (p - 1) / 6;
        assert(6 * y == 5 * p + 1);
        vstd::arithmetic::div_mod::lemma_mod_multiples_vanish(5, 1, p);
        y
    } else {
        let y = (p + 1) / 6;
        assert(6 * y == p + 1);
        vstd::arithmetic::div_mod::lemma_mod_multiples_vanish(1, 1, p);
        y
    }
}

/// A number whose sixfold is congruent to the sixfold of another is congruent to the other.
proof fn lemma_cancel_six(a: int, b: int, p: int)
    requires
        p > 6,
        p % 2 == 1,
        p % 3 != 0,
        cong(6 * a, 6 * b, p),
    ensures
        cong(a, b, p),
{
    let y = lemma_inverse_of_six(p);
    lemma_cong_mul(6 * a, 6 * b, y, y, p);
    lemma_cong_mul(6 * y, 1, a, a, p);
    lemma_cong_mul(6 * y, 1, b, b, p);
    assert((6 * a) * y == (6 * y) * a) by (nonlinear_arith);
    assert((6 * b) * y == (6 * y) * b) by (nonlinear_arith);
}

/// Six times the inverse of a divisor of six, up to sign.
proof fn lemma_six_over(x: int, q: int, p: int)
    requires
        p > 6,
        p % 2 == 1,
        p % 3 != 0,
        x * q == 6,
    ensures
        x % p != 0,
        0 <= inverse(x, p) < p,
        cong(6 * inverse(x, p), q, p),
{
    let y = lemma_inverse_of_six(p);
    assert(x * (q * y) == 6 * y) by (nonlinear_arith)
        requires
            x * q == 6,
    ;
    lemma_inverse(x, q * y, p);
    let i = inverse(x, p);
    lemma_cong_mul(x * i, 1, q, q, p);
    assert((x * i) * q == 6 * i) by (nonlinear_arith)
        requires
            x * q == 6,
    ;
    if x % p == 0 {
        lemma_small_mod(0, p as nat);
        lemma_small_mod(1, p as nat);
        lemma_cong_mul(x, 0, i, i, p);
        assert(0 * i == 0);
    }
}

/// Four values of a cubic give its value everywhere.
pub(crate) proof fn lemma_interpolate_cubic(c: (int, int, int, int), evals: Seq<int>, r: int, p: int)
    requires
        p > 6,
        p % 2 == 1,
        p % 3 != 0,
        evals.len() == 4,
        forall|i: int| 0 <= i < 4 ==> cong(#[trigger] evals[i], cubic(c, i), p),
    ensures
        interpolation(first_points(4), evals, r, p) == Some(cubic(c, r) % p),
{
    let pts = first_points(4);
    reveal_with_fuel(distances, 5);
    reveal_with_fuel(sum, 5);
    let (d0, d1, d2, d3) = (
        distances(pts, pts[0], 0, 4),
        distances(pts, pts[1], 1, 4),
        distances(pts, pts[2], 2, 4),
        distances(pts, pts[3], 3, 4),
    );
    assert(d0 == -6 && d1 == 2 && d2 == -2 && d3 == 6) by (nonlinear_arith)
        requires
            d0 == 1 * (0 - 1) * (0 - 2) * (0 - 3),
            d1 == 1 * (1 - 0) * (1 - 2) * (1 - 3),
            d2 == 1 * (2 - 0) * (2 - 1) * (2 - 3),
            d3 == 1 * (3 - 0) * (3 - 1) * (3 - 2),
    ;
    lemma_six_over(-6, -1, p);
    lemma_six_over(2, 3, p);
    lemma_six_over(-2, -3, p);
    lemma_six_over(6, 1, p);
    let (i0, i1, i2, i3) = (inverse(-6, p), inverse(2, p), inverse(-2, p), inverse(6, p));
    let (n0, n1, n2, n3) = (
        distances(pts, r, 0, 4),
        distances(pts, r, 1, 4),
        distances(pts, r, 2, 4),
        distances(pts, r, 3, 4),
    );
    let (r2, r3) = (r * r, r * r * r);
    assert(n0 == r3 - 6 * r2 + 11 * r - 6) by (nonlinear_arith)
        requires
            n0 == 1 * (r - 1) * (r - 2) * (r - 3),
            r2 == r * r,
            r3 == r * r * r,
    ;
    assert(n1 == r3 - 5 * r2 + 6 * r) by (nonlinear_arith)
        requires
            n1 == 1 * (r - 0) * (r - 2) * (r - 3),
            r2 == r * r,
            r3 == r * r * r,
    ;
    assert(n2 == r3 - 4 * r2 + 3 * r) by (nonlinear_arith)
        requires
            n2 == 1 * (r - 0) * (r - 1) * (r - 3),
            r2 == r * r,
            r3 == r * r * r,
    ;
    assert(n3 == r3 - 3 * r2 + 2 * r) by (nonlinear_arith)
        requires
            n3 == 1 * (r - 0) * (r - 1) * (r - 2),
            r2 == r * r,
            r3 == r * r * r,
    ;
    let (e0, e1, e2, e3) = (evals[0], evals[1], evals[2], evals[3]);
    let (f0, f1, f2, f3) = (cubic(c, 0), cubic(c, 1), cubic(c, 2), cubic(c, 3));
    lemma_term(e0, f0, n0, i0, -1, p);
    lemma_term(e1, f1, n1, i1, 3, p);
    lemma_term(e2, f2, n2, i2, -3, p);
    lemma_term(e3, f3, n3, i3, 1, p);
    let s = e0 * n0 * i0 + e1 * n1 * i1 + e2 * n2 * i2 + e3 * n3 * i3;
    lemma_cong_add(6 * (e0 * n0 * i0), f0 * n0 * (-1), 6 * (e1 * n1 * i1), f1 * n1 * 3, p);
    lemma_cong_add(6 * (e2 * n2 * i2), f2 * n2 * (-3), 6 * (e3 * n3 * i3), f3 * n3 * 1, p);
    lemma_cong_add(
        6 * (e0 * n0 * i0) + 6 * (e1 * n1 * i1),
        f0 * n0 * (-1) + f1 * n1 * 3,
        6 * (e2 * n2 * i2) + 6 * (e3 * n3 * i3),
        f2 * n2 * (-3) + f3 * n3 * 1,
        p,
    );
    let (c0, c1, c2, c3) = c;
    assert(f0 == c0 && f1 == c0 + c1 + c2 + c3 && f2 == c0 + 2 * c1 + 4 * c2 + 8 * c3 && f3 == c0 + 3 * c1 + 9 * c2
        + 27 * c3) by (nonlinear_arith)
        requires
            f0 == c0 + c1 * 0 + c2 * (0 * 0) + c3 * (0 * 0 * 0),
            f1 == c0 + c1 * 1 + c2 * (1 * 1) + c3 * (1 * 1 * 1),
            f2 == c0 + c1 * 2 + c2 * (2 * 2) + c3 * (2 * 2 * 2),
            f3 == c0 + c1 * 3 + c2 * (3 * 3) + c3 * (3 * 3 * 3),
    ;
    let (g1, g2, g3) = (c0 + c1 + c2 + c3, c0 + 2 * c1 + 4 * c2 + 8 * c3, c0 + 3 * c1 + 9 * c2 + 27 * c3);
    let (m0, m1, m2, m3) = (
        r3 - 6 * r2 + 11 * r - 6,
        r3 - 5 * r2 + 6 * r,
        r3 - 4 * r2 + 3 * r,
        r3 - 3 * r2 + 2 * r,
    );
    assert(g1 * m1 == c0 * m1 + c1 * m1 + c2 * m1 + c3 * m1) by (nonlinear_arith)
        requires
            g1 == c0 + c1 + c2 + c3,
    ;
    assert(g2 * m2 == c0 * m2 + 2 * (c1 * m2) + 4 * (c2 * m2) + 8 * (c3 * m2)) by (nonlinear_arith)
        requires
            g2 == c0 + 2 * c1 + 4 * c2 + 8 * c3,
    ;
    assert(g3 * m3 == c0 * m3 + 3 * (c1 * m3) + 9 * (c2 * m3) + 27 * (c3 * m3)) by (nonlinear_arith)
        requires
            g3 == c0 + 3 * c1 + 9 * c2 + 27 * c3,
    ;
    assert(c0 * m1 * 3 - c0 * m0 - c0 * m2 * 3 + c0 * m3 == c0 * (3 * m1 - m0 - 3 * m2 + m3)) by (nonlinear_arith);
    assert(c1 * m1 * 3 - c1 * m2 * 6 + c1 * m3 * 3 == c1 * (3 * m1 - 6 * m2 + 3 * m3)) by (nonlinear_arith);
    assert(c2 * m1 * 3 - c2 * m2 * 12 + c2 * m3 * 9 == c2 * (3 * m1 - 12 * m2 + 9 * m3)) by (nonlinear_arith);
    assert(c3 * m1 * 3 - c3 * m2 * 24 + c3 * m3 * 27 == c3 * (3 * m1 - 24 * m2 + 27 * m3)) by (nonlinear_arith);
    assert(c1 * (6 * r) == 6 * (c1 * r)) by (nonlinear_arith);
    assert(c2 * (6 * r2) == 6 * (c2 * r2)) by (nonlinear_arith);
    assert(c3 * (6 * r3) == 6 * (c3 * r3)) by (nonlinear_arith);
    assert(3 * m1 - m0 - 3 * m2 + m3 == 6);
    assert(3 * m1 - 6 * m2 + 3 * m3 == 6 * r);
    assert(3 * m1 - 12 * m2 + 9 * m3 == 6 * r2);
    assert(3 * m1 - 24 * m2 + 27 * m3 == 6 * r3);
    assert(f0 * n0 == c0 * m0 && f1 * n1 == g1 * m1 && f2 * n2 == g2 * m2 && f3 * n3 == g3 * m3);
    assert(f0 * n0 * (-1) + f1 * n1 * 3 + (f2 * n2 * (-3) + f3 * n3 * 1) == 6 * cubic(c, r));
    assert(6 * s == 6 * (e0 * n0 * i0) + 6 * (e1 * n1 * i1) + (6 * (e2 * n2 * i2) + 6 * (e3 * n3 * i3)));
    lemma_cancel_six(s, cubic(c, r), p);
    assert(separated(pts, p)) by {
        assert forall|i: int| 0 <= i < pts.len() implies #[trigger] distances(pts, pts[i], i, pts.len() as int) % p
            != 0 by {
            assert(i == 0 || i == 1 || i == 2 || i == 3);
        }
    }
    let f = |i: int| interpolation_term(pts, evals, r, p, i);
    assert(sum(f, 4) == f(0) + f(1) + f(2) + f(3));
}

/// Six times a term of an interpolation.
proof fn lemma_term(e: int, f: int, n: int, i: int, q: int, p: int)
    requires
        p > 0,
        cong(e, f, p),
        cong(6 * i, q, p),
    ensures
        cong(6 * (e * n * i), f * n * q, p),
{
    lemma_cong_mul(e, f, n, n, p);
    lemma_cong_mul(e * n, f * n, 6 * i, q, p);
    assert((e * n) * (6 * i) == 6 * (e * n * i)) by (nonlinear_arith);
}

/// Three values of a quadratic polynomial give its value everywhere.
pub(crate) proof fn lemma_interpolate_quadratic(c: (int, int, int, int), evals: Seq<int>, r: int, p: int)
    requires
        p > 6,
        p % 2 == 1,
        p % 3 != 0,
        c.3 == 0,
        evals.len() == 3,
        forall|i: int| 0 <= i < 3 ==> cong(#[trigger] evals[i], cubic(c, i), p),
    ensures
        interpolation(first_points(3), evals, r, p) == Some(cubic(c, r) % p),
{
    let pts = first_points(3);
    reveal_with_fuel(distances, 4);
    reveal_with_fuel(sum, 4);
    let (d0, d1, d2) = (
        distances(pts, pts[0], 0, 3),
        distances(pts, pts[1], 1, 3),
        distances(pts, pts[2], 2, 3),
    );
    assert(d0 == 2 && d1 == -1 && d2 == 2) by (nonlinear_arith)
        requires
            d0 == 1 * (0 - 1) * (0 - 2),
            d1 == 1 * (1 - 0) * (1 - 2),
            d2 == 1 * (2 - 0) * (2 - 1),
    ;
    lemma_six_over(2, 3, p);
    lemma_six_over(-1, -6, p);
    let (i0, i1) = (inverse(2, p), inverse(-1, p));
    let (n0, n1, n2) = (distances(pts, r, 0, 3), distances(pts, r, 1, 3), distances(pts, r, 2, 3));
    let r2 = r * r;
    assert(n0 == r2 - 3 * r + 2) by (nonlinear_arith)
        requires
            n0 == 1 * (r - 1) * (r - 2),
            r2 == r * r,
    ;
    assert(n1 == r2 - 2 * r) by (nonlinear_arith)
        requires
            n1 == 1 * (r - 0) * (r - 2),
            r2 == r * r,
    ;
    assert(n2 == r2 - r) by (nonlinear_arith)
        requires
            n2 == 1 * (r - 0) * (r - 1),
            r2 == r * r,
    ;
    let (e0, e1, e2) = (evals[0], evals[1], evals[2]);
    let (f0, f1, f2) = (cubic(c, 0), cubic(c, 1), cubic(c, 2));
    lemma_term(e0, f0, n0, i0, 3, p);
    lemma_term(e1, f1, n1, i1, -6, p);
    lemma_term(e2, f2, n2, i0, 3, p);
    let s = e0 * n0 * i0 + e1 * n1 * i1 + e2 * n2 * i0;
    lemma_cong_add(6 * (e0 * n0 * i0), f0 * n0 * 3, 6 * (e1 * n1 * i1), f1 * n1 * (-6), p);
    lemma_cong_add(
        6 * (e0 * n0 * i0) + 6 * (e1 * n1 * i1),
        f0 * n0 * 3 + f1 * n1 * (-6),
        6 * (e2 * n2 * i0),
        f2 * n2 * 3,
        p,
    );
    let (c0, c1, c2, c3) = c;
    assert(f0 == c0 && f1 == c0 + c1 + c2 && f2 == c0 + 2 * c1 + 4 * c2) by (nonlinear_arith)
        requires
            c3 == 0,
            f0 == c0 + c1 * 0 + c2 * (0 * 0) + c3 * (0 * 0 * 0),
            f1 == c0 + c1 * 1 + c2 * (1 * 1) + c3 * (1 * 1 * 1),
            f2 == c0 + c1 * 2 + c2 * (2 * 2) + c3 * (2 * 2 * 2),
    ;
    assert(f0 * n0 * 3 + f1 * n1 * (-6) + f2 * n2 * 3 == 6 * (c0 + c1 * r + c2 * r2)) by (nonlinear_arith)
        requires
            f0 == c0,
            f1 == c0 + c1 + c2,
            f2 == c0 + 2 * c1 + 4 * c2,
            n0 == r2 - 3 * r + 2,
            n1 == r2 - 2 * r,
            n2 == r2 - r,
    ;
    assert(c3 * (r * r * r) == 0) by (nonlinear_arith)
        requires
            c3 == 0,
    ;
    lemma_cancel_six(s, cubic(c, r), p);
    assert(separated(pts, p)) by {
        assert forall|i: int| 0 <= i < pts.len() implies #[trigger] distances(pts, pts[i], i, pts.len() as int) % p
            != 0 by {
            assert(i == 0 || i == 1 || i == 2);
        }
    }
    let f = |i: int| interpolation_term(pts, evals, r, p, i);
    assert(sum(f, 3) == f(0) + f(1) + f(2));
}

proof fn lemma_distance(points: Seq<int>, at: int, i: int, k: int, a: int, b: int)
    requires
        k > 0,
        k - 1 != i,
        distances(points, at, i, k - 1) == a,
        at - points[k - 1] == b,
    ensures
        distances(points, at, i, k) == a * b,
{
}

/// The first points differ from each other.
pub proof fn lemma_separated(d: nat, p: int)
    requires
        d == 3 || d == 4,
        p > 6,
    ensures
        separated(first_points(d), p),
{
    let pts = first_points(d);
    assert forall|i: int| 0 <= i < pts.len() implies #[trigger] distances(pts, pts[i], i, pts.len() as int) % p != 0 by {
        assert(pts[0] == 0 && pts[1] == 1 && pts[2] == 2);
        let x = distances(pts, pts[i], i, pts.len() as int);
        assert(distances(pts, pts[i], i, 0) == 1);
        if d == 4 {
            assert(pts[3] == 3);
        }
        if i == 0 {
            assert(distances(pts, 0, 0, 1) == 1);
            lemma_distance(pts, 0, 0, 2, 1, -1);
            lemma_distance(pts, 0, 0, 3, -1, -2);
            if d == 4 {
                lemma_distance(pts, 0, 0, 4, 2, -3);
            }
        } else if i == 1 {
            lemma_distance(pts, 1, 1, 1, 1, 1);
            assert(distances(pts, 1, 1, 2) == 1);
            lemma_distance(pts, 1, 1, 3, 1, -1);
            if d == 4 {
                lemma_distance(pts, 1, 1, 4, -1, -2);
            }
        } else if i == 2 {
            lemma_distance(pts, 2, 2, 1, 1, 2);
            lemma_distance(pts, 2, 2, 2, 2, 1);
            assert(distances(pts, 2, 2, 3) == 2);
            if d == 4 {
                lemma_distance(pts, 2, 2, 4, 2, -1);
            }
        } else if i == 3 {
            lemma_distance(pts, 3, 3, 1, 1, 3);
            lemma_distance(pts, 3, 3, 2, 3, 2);
            lemma_distance(pts, 3, 3, 3, 6, 1);
            assert(distances(pts, 3, 3, 4) == 6);
        }
        if x > 0 {
            vstd::arithmetic::div_mod::lemma_small_mod(x as nat, p as nat);
        } else {
            vstd::arithmetic::div_mod::lemma_small_mod((x + p) as nat, p as nat);
            vstd::arithmetic::div_mod::lemma_mod_add_multiples_vanish(x, p);
        }
    }
}

/// Whether there are `m` tables, each of `n` entries.
pub open spec fn tables_sized(tables: Seq<Seq<int>>, m: nat, n: int) -> bool {
    tables.len() == m && forall|j: int| 0 <= j < m ==> (#[trigger] tables[j]).len() == n
}

/// What a modulus has to be for interpolation.
pub open spec fn good_modulus(p: int) -> bool {
    p > 6 && p % 2 == 1 && p % 3 != 0
}

/// A round of the verifier accepts a round of the prover on a true claim, and leaves a true claim.
proof fn lemma_round(
    h: spec_fn(Seq<int>) -> int,
    d: nat,
    hash: spec_fn(Seq<int>) -> int,
    p: int,
    m: nat,
    n: int,
    s: Rounds,
    c: Check,
)
    requires
        good_modulus(p),
        low_degree(h, m, d, p),
        n >= 0,
        tables_sized(s.tables, m, 2 * n),
        c.state == s.state,
        c.point == s.point,
        c.claim == table_sum(h, s.tables, 2 * n) % p,
    ensures
        ({
            let after = prove_round(h, d, hash, p, n, s);
            let checked = check_round(first_points(d), hash, p, c, after.polys.last());
            &&& tables_sized(after.tables, m, n)
            &&& after.polys == s.polys.push(after.polys.last())
            &&& checked == Some(
                Check { state: after.state, claim: table_sum(h, after.tables, n) % p, point: after.point },
            )
        }),
{
    let after = prove_round(h, d, hash, p, n, s);
    let evals = round_evals(h, s.tables, n, d, p);
    assert(after.polys.last() == evals);
    let r = challenge(hash, s.state + evals);
    let poly = lemma_round_poly(h, s.tables, n, d, p);
    assert forall|i: int| 0 <= i < d implies cong(#[trigger] evals[i], cubic(poly, i), p) by {
        lemma_cong_mod(round_sum(h, s.tables, n, i), p);
        assert(cubic(poly, i) == round_sum(h, s.tables, n, i));
    }
    if d == 4 {
        lemma_interpolate_cubic(poly, evals, r, p);
    } else {
        lemma_interpolate_quadratic(poly, evals, r, p);
    }
    assert(cubic(poly, r) == round_sum(h, s.tables, n, r));
    // The two halves of the tables.
    let all = |i: int| h(column(s.tables, i));
    let lo = |i: int| h(column_between(s.tables, i, 0));
    let hi = |i: int| h(column_between(s.tables, i, 1));
    let upper = |i: int| h(column(s.tables, n + i));
    assert forall|i: int| 0 <= i < n implies #[trigger] upper(i) == all(n + i) by {}
    lemma_sum_split(all, upper, n, n);
    assert forall|i: int| 0 <= i < n implies #[trigger] all(i) == lo(i) by {
        assert(column(s.tables, i) =~= column_between(s.tables, i, 0));
    }
    lemma_sum_ext(all, lo, n);
    assert forall|i: int| 0 <= i < n implies #[trigger] upper(i) == hi(i) by {
        assert(column(s.tables, n + i) =~= column_between(s.tables, i, 1));
    }
    lemma_sum_ext(upper, hi, n);
    assert(table_sum(h, s.tables, 2 * n) == round_sum(h, s.tables, n, 0) + round_sum(h, s.tables, n, 1));
    lemma_cong_mod(round_sum(h, s.tables, n, 0), p);
    lemma_cong_mod(round_sum(h, s.tables, n, 1), p);
    lemma_cong_add(
        evals[0],
        round_sum(h, s.tables, n, 0),
        evals[1],
        round_sum(h, s.tables, n, 1),
        p,
    );
    // The next claim.
    let bound = |i: int| h(column(after.tables, i));
    let open = |i: int| h(column_between(s.tables, i, r));
    assert forall|i: int| 0 <= i < n implies cong(#[trigger] open(i), bound(i), p) by {
        let a = column_between(s.tables, i, r);
        let b = column(after.tables, i);
        assert forall|j: int| 0 <= j < m implies cong(#[trigger] a[j], b[j], p) by {
            assert(s.tables[j].len() == 2 * n);
            lemma_cong_mod(between(s.tables[j], i, r), p);
        }
        assert(columns_cong(a, b, p));
    }
    lemma_sum_cong(open, bound, n, p);
    assert forall|j: int| 0 <= j < m implies (#[trigger] after.tables[j]).len() == n by {
        assert(s.tables[j].len() == 2 * n);
    }
}

/// The verifier accepts the rounds of the prover on a true claim, and leaves a true claim.
pub proof fn lemma_rounds(
    h: spec_fn(Seq<int>) -> int,
    d: nat,
    hash: spec_fn(Seq<int>) -> int,
    p: int,
    m: nat,
    num_rounds: nat,
    s: Rounds,
    claim: int,
    k: nat,
)
    requires
        good_modulus(p),
        low_degree(h, m, d, p),
        tables_sized(s.tables, m, pow2(num_rounds) as int),
        s.point == Seq::<int>::empty(),
        s.polys == Seq::<Seq<int>>::empty(),
        claim == table_sum(h, s.tables, pow2(num_rounds) as int) % p,
        k <= num_rounds,
    ensures
        ({
            let after = prove_rounds(h, d, hash, p, num_rounds, s, k);
            let n = pow2((num_rounds - k) as nat) as int;
            &&& tables_sized(after.tables, m, n)
            &&& after.polys.len() == k
            &&& after.point.len() == k
            &&& check_rounds(
                first_points(d),
                hash,
                p,
                (Check { state: s.state, claim, point: Seq::empty() }),
                after.polys,
                k,
            ) == Some(
                Check { state: after.state, claim: table_sum(h, after.tables, n) % p, point: after.point },
            )
        }),
    decreases k,
{
    let start = Check { state: s.state, claim, point: Seq::empty() };
    if k > 0 {
        let j = (k - 1) as nat;
        lemma_rounds(h, d, hash, p, m, num_rounds, s, claim, j);
        let before = prove_rounds(h, d, hash, p, num_rounds, s, j);
        let n = pow2((num_rounds - k) as nat) as int;
        lemma_pow2_unfold((num_rounds - j) as nat);
        let c = Check { state: before.state, claim: table_sum(h, before.tables, 2 * n) % p, point: before.point };
        lemma_round(h, d, hash, p, m, n, before, c);
        let after = prove_rounds(h, d, hash, p, num_rounds, s, k);
        lemma_check_prefix(first_points(d), hash, p, start, after.polys, before.polys, j);
    }
}

/// The verifier looks at the rounds that it has come to only.
pub proof fn lemma_check_prefix(
    points: Seq<int>,
    hash: spec_fn(Seq<int>) -> int,
    p: int,
    c: Check,
    a: Seq<Seq<int>>,
    b: Seq<Seq<int>>,
    k: nat,
)
    requires
        forall|i: int| 0 <= i < k ==> #[trigger] a[i] == b[i],
    ensures
        check_rounds(points, hash, p, c, a, k) == check_rounds(points, hash, p, c, b, k),
    decreases k,
{
    if k > 0 {
        lemma_check_prefix(points, hash, p, c, a, b, (k - 1) as nat);
        assert(a[k - 1] == b[k - 1]);
    }
}

/// After its rounds the prover has the tables evaluated at the point, in the opposite order, for the
/// variables that are set.
pub proof fn lemma_tables_at_point(
    h: spec_fn(Seq<int>) -> int,
    d: nat,
    hash: spec_fn(Seq<int>) -> int,
    p: int,
    m: nat,
    num_rounds: nat,
    s: Rounds,
    k: nat,
    rest: Seq<int>,
    j: int,
)
    requires
        p > 0,
        tables_sized(s.tables, m, pow2(num_rounds) as int),
        s.point == Seq::<int>::empty(),
        k <= num_rounds,
        rest.len() == num_rounds - k,
        0 <= j < m,
    ensures
        ({
            let after = prove_rounds(h, d, hash, p, num_rounds, s, k);
            &&& tables_sized(after.tables, m, pow2((num_rounds - k) as nat) as int)
            &&& after.point.len() == k
            &&& cong(mle(s.tables[j], rest + reversed(after.point)), mle(after.tables[j], rest), p)
        }),
    decreases k,
{
    let after = prove_rounds(h, d, hash, p, num_rounds, s, k);
    if k == 0 {
        assert(rest + reversed(after.point) =~= rest);
    } else {
        let i = (k - 1) as nat;
        let before = prove_rounds(h, d, hash, p, num_rounds, s, i);
        let r = after.point.last();
        lemma_tables_at_point(h, d, hash, p, m, num_rounds, s, i, rest.push(r), j);
        assert(rest.push(r) + reversed(before.point) =~= rest + reversed(after.point));
        lemma_pow2_unfold((num_rounds - i) as nat);
        assert(before.tables[j].len() == pow2((num_rounds - i) as nat));
        lemma_mle_bound(before.tables[j], rest, r, p);
        assert forall|l: int| 0 <= l < m implies (#[trigger] after.tables[l]).len() == pow2(
            (num_rounds - k) as nat,
        ) by {
            assert(before.tables[l].len() == pow2((num_rounds - i) as nat));
        }
    }
}

/// After its last round the prover has one column, of the tables evaluated at the point.
pub proof fn lemma_final_column(
    h: spec_fn(Seq<int>) -> int,
    d: nat,
    hash: spec_fn(Seq<int>) -> int,
    p: int,
    m: nat,
    num_rounds: nat,
    s: Rounds,
)
    requires
        p > 0,
        low_degree(h, m, d, p),
        tables_sized(s.tables, m, pow2(num_rounds) as int),
        s.point == Seq::<int>::empty(),
    ensures
        ({
            let after = prove_rounds(h, d, hash, p, num_rounds, s, num_rounds);
            let at = Seq::new(m, |j: int| mle(s.tables[j], reversed(after.point)));
            cong(table_sum(h, after.tables, 1), h(at), p)
        }),
{
    let after = prove_rounds(h, d, hash, p, num_rounds, s, num_rounds);
    let none = Seq::<int>::empty();
    let at = Seq::new(m, |j: int| mle(s.tables[j], reversed(after.point)));
    let last = column(after.tables, 0);
    assert(pow2(0) == 1) by {
        vstd::arithmetic::power2::lemma2_to64();
    }
    if m > 0 {
        lemma_tables_at_point(h, d, hash, p, m, num_rounds, s, num_rounds, none, 0);
    } else {
        lemma_tables_len(h, d, hash, p, num_rounds, s, num_rounds);
    }
    assert(after.tables.len() == m);
    assert forall|j: int| 0 <= j < m implies cong(#[trigger] at[j], last[j], p) by {
        lemma_tables_at_point(h, d, hash, p, m, num_rounds, s, num_rounds, none, j);
        assert(none + reversed(after.point) =~= reversed(after.point));
        let t = after.tables[j];
        let f = |i: int| t[i] * crate::mle::eq_weight(i, none);
        assert(sum(f, 1) == sum(f, 0) + f(0));
        assert(t[0] * 1 == t[0]);
    }
    assert(columns_cong(at, last, p));
    let g = |i: int| h(column(after.tables, i));
    assert(sum(g, 1) == sum(g, 0) + g(0));
}

proof fn lemma_tables_len(
    h: spec_fn(Seq<int>) -> int,
    d: nat,
    hash: spec_fn(Seq<int>) -> int,
    p: int,
    num_rounds: nat,
    s: Rounds,
    k: nat,
)
    ensures
        prove_rounds(h, d, hash, p, num_rounds, s, k).tables.len() == s.tables.len(),
    decreases k,
{
    if k > 0 {
        lemma_tables_len(h, d, hash, p, num_rounds, s, (k - 1) as nat);
    }
}

/// A product of distances from points is zero at one of these points.
proof fn lemma_no_distance(points: Seq<int>, i: int, j: int, n: int)
    requires
        0 <= j < n,
        i != j,
    ensures
        distances(points, points[j], i, n) == 0,
    decreases n,
{
    let at = points[j];
    if j < n - 1 {
        lemma_no_distance(points, i, j, n - 1);
        let d = at - points[n - 1];
        assert(0 * d == 0);
    } else {
        let d = distances(points, at, i, n - 1);
        assert(d * 0 == 0);
    }
}

/// What is interpolated at one of the points is the value there.
pub proof fn interpolation_passes_through(points: Seq<int>, evals: Seq<int>, p: int, k: int)
    requires
        p > 1,
        0 <= k < points.len(),
        interpolation(points, evals, points[k], p) is Some,
        exists|y: int| 0 <= y < p && #[trigger] ((distances(points, points[k], k, points.len() as int) * y) % p) == 1,
    ensures
        interpolation(points, evals, points[k], p) == Some(evals[k] % p),
{
    let n = points.len() as int;
    let at = points[k];
    let f = |i: int| interpolation_term(points, evals, at, p, i);
    assert forall|i: int| 0 <= i < n && i != k implies #[trigger] f(i) == 0 by {
        lemma_no_distance(points, i, k, n);
        let (e, v) = (evals[i], inverse(distances(points, points[i], i, n), p));
        assert(e * 0 == 0 && 0 * v == 0);
    }
    crate::math::lemma_sum_single(f, n, k);
    let (e, d) = (evals[k], distances(points, at, k, n));
    let v = inverse(d, p);
    assert((d * v) % p == 1);
    vstd::arithmetic::div_mod::lemma_small_mod(1, p as nat);
    lemma_cong_mul(e, e, d * v, 1, p);
    assert(e * d * v == e * (d * v)) by (nonlinear_arith);
    assert(e * 1 == e);
}

/// What is interpolated from the values of a polynomial of degree at most three at 0, 1, 2 and 3 is its value, and so it is
/// for one of degree at most two and the values at 0, 1 and 2.
pub proof fn interpolation_is_exact(c: (int, int, int, int), evals: Seq<int>, r: int, p: int)
    requires
        p > 6,
        p % 2 == 1,
        p % 3 != 0,
        evals.len() == 4 || evals.len() == 3 && c.3 == 0,
        forall|t: int|
            0 <= t < evals.len() ==> cong(#[trigger] evals[t], c.0 + c.1 * t + c.2 * (t * t) + c.3 * (t * t * t), p),
    ensures
        interpolation(first_points(evals.len()), evals, r, p) == Some(
            (c.0 + c.1 * r + c.2 * (r * r) + c.3 * (r * r * r)) % p,
        ),
{
    assert forall|t: int| 0 <= t < evals.len() implies cong(#[trigger] evals[t], cubic(c, t), p) by {}
    if evals.len() == 4 {
        lemma_interpolate_cubic(c, evals, r, p);
    } else {
        lemma_interpolate_quadratic(c, evals, r, p);
    }
}

} // verus!
