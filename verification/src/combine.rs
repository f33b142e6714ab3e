//! The two polynomials that the sum-checks of a fold run over, with what sums, challenges and claims
//! they lead to.
use crate::math::{cong, lemma_cong_add, lemma_cong_mul, lemma_cong_sub};
use crate::sumcheck::{along_line, columns_cong, cubic, low_degree};
use vstd::arithmetic::power::pow;
use vstd::prelude::*;

verus! {

/// The polynomial of the first sum-check. Its column holds the weights of the running point, the three folded
/// matrices, the weights of the random point and the three matrices of the predicate times the vector.
pub open spec fn combine_x(gamma: int, c: Seq<int>) -> int {
    c[0] * c[1] + pow(gamma, 1) * (c[0] * c[2]) + pow(gamma, 2) * (c[0] * c[3]) + pow(gamma, 3) * (c[4] * (c[5] * c[6]
        - c[7]))
}

/// The polynomial of the second sum-check. Its column holds the weights of the running point, the three folded
/// matrices, the running vector, the three matrices of the predicate and the incoming vector.
pub open spec fn combine_y(delta: int, c: Seq<int>) -> int {
    c[0] * c[1] + pow(delta, 1) * (c[0] * c[2]) + pow(delta, 2) * (c[0] * c[3]) + pow(delta, 3) * (c[0] * c[4]) + pow(
        delta,
        4,
    ) * (c[5] * c[8]) + pow(delta, 5) * (c[6] * c[8]) + pow(delta, 6) * (c[7] * c[8])
}

/// The sum that the first sum-check proves.
pub open spec fn sum_x(gamma: int, v: Seq<int>) -> int {
    v[0] + pow(gamma, 1) * v[1] + pow(gamma, 2) * v[2]
}

/// The sum that the second sum-check proves.
pub open spec fn sum_y(delta: int, v: Seq<int>, sigmas: Seq<int>, taus: Seq<int>) -> int {
    sigmas[0] + pow(delta, 1) * sigmas[1] + pow(delta, 2) * sigmas[2] + pow(delta, 3) * v[3] + pow(delta, 4) * taus[0]
        + pow(delta, 5) * taus[1] + pow(delta, 6) * taus[2]
}

pub open spec fn poly_add(a: (int, int, int, int), b: (int, int, int, int)) -> (int, int, int, int) {
    (a.0 + b.0, a.1 + b.1, a.2 + b.2, a.3 + b.3)
}

pub open spec fn poly_scale(k: int, a: (int, int, int, int)) -> (int, int, int, int) {
    (k * a.0, k * a.1, k * a.2, k * a.3)
}

/// The product of two linear polynomials, each given by its values at 0 and 1.
pub open spec fn poly_product(a: int, b: int, c: int, d: int) -> (int, int, int, int) {
    (a * c, a * (d - c) + (b - a) * c, (b - a) * (d - c), 0)
}

proof fn lemma_poly_add(a: (int, int, int, int), b: (int, int, int, int), t: int)
    ensures
        cubic(poly_add(a, b), t) == cubic(a, t) + cubic(b, t),
{
    let (x, y) = (t * t, t * t * t);
    assert((a.1 + b.1) * t == a.1 * t + b.1 * t) by (nonlinear_arith);
    assert((a.2 + b.2) * x == a.2 * x + b.2 * x) by (nonlinear_arith);
    assert((a.3 + b.3) * y == a.3 * y + b.3 * y) by (nonlinear_arith);
}

proof fn lemma_poly_scale(k: int, a: (int, int, int, int), t: int)
    ensures
        cubic(poly_scale(k, a), t) == k * cubic(a, t),
{
    let (x, y) = (t * t, t * t * t);
    let (p, q, r) = (a.1 * t, a.2 * x, a.3 * y);
    assert((k * a.1) * t == k * p) by (nonlinear_arith)
        requires
            p == a.1 * t,
    ;
    assert((k * a.2) * x == k * q) by (nonlinear_arith)
        requires
            q == a.2 * x,
    ;
    assert((k * a.3) * y == k * r) by (nonlinear_arith)
        requires
            r == a.3 * y,
    ;
    assert(k * (a.0 + p + q + r) == k * a.0 + k * p + k * q + k * r) by (nonlinear_arith);
}

proof fn lemma_poly_product(a: int, b: int, c: int, d: int, t: int)
    ensures
        cubic(poly_product(a, b, c, d), t) == (a + t * (b - a)) * (c + t * (d - c)),
{
    let (e, f) = (b - a, d - c);
    let (m, n) = (t * e, t * f);
    assert((a + m) * (c + n) == a * c + a * n + m * c + m * n) by (nonlinear_arith);
    assert(a * (t * f) == (a * f) * t) by (nonlinear_arith);
    assert((t * e) * c == (e * c) * t) by (nonlinear_arith);
    assert((t * e) * (t * f) == (e * f) * (t * t)) by (nonlinear_arith);
    assert((a * f + e * c) * t == (a * f) * t + (e * c) * t) by (nonlinear_arith);
    assert(0 * (t * t * t) == 0) by (nonlinear_arith);
}

/// The cubic that a linear polynomial, given by its values at 0 and 1, and a quadratic one multiply to.
pub open spec fn poly_linear_times(a: int, b: int, q: (int, int, int, int)) -> (int, int, int, int) {
    (a * q.0, a * q.1 + (b - a) * q.0, a * q.2 + (b - a) * q.1, (b - a) * q.2)
}

proof fn lemma_poly_linear_times(a: int, b: int, q: (int, int, int, int), t: int)
    requires
        q.3 == 0,
    ensures
        cubic(poly_linear_times(a, b, q), t) == (a + t * (b - a)) * cubic(q, t),
{
    let e = b - a;
    let (q0, q1, q2) = (q.0, q.1, q.2);
    let (x, y) = (t * t, t * t * t);
    let s = q0 + q1 * t + q2 * x;
    assert(q.3 * y == 0) by (nonlinear_arith)
        requires
            q.3 == 0,
    ;
    assert((a + t * e) * s == a * s + (t * e) * s) by (nonlinear_arith);
    assert(a * s == a * q0 + (a * q1) * t + (a * q2) * x) by (nonlinear_arith)
        requires
            s == q0 + q1 * t + q2 * x,
    ;
    let (m, u, v) = (t * e, q1 * t, q2 * x);
    assert(m * (q0 + u + v) == m * q0 + m * u + m * v) by (nonlinear_arith);
    assert((t * e) * q0 == (e * q0) * t) by (nonlinear_arith);
    assert((t * e) * (q1 * t) == (e * q1) * (t * t)) by (nonlinear_arith);
    assert((t * e) * (q2 * (t * t)) == (e * q2) * (t * t * t)) by (nonlinear_arith);
    assert((a * q1 + e * q0) * t == (a * q1) * t + (e * q0) * t) by (nonlinear_arith);
    assert((a * q2 + e * q1) * x == (a * q2) * x + (e * q1) * x) by (nonlinear_arith);
}

proof fn lemma_cong_product(k: int, a: int, b: int, c: int, d: int, p: int)
    requires
        p > 0,
        cong(a, c, p),
        cong(b, d, p),
    ensures
        cong(k * (a * b), k * (c * d), p),
        cong(a * b, c * d, p),
{
    lemma_cong_mul(a, c, b, d, p);
    lemma_cong_mul(k, k, a * b, c * d, p);
}

/// The polynomial of the first sum-check is of degree three.
pub proof fn lemma_combine_x_low_degree(gamma: int, p: int)
    requires
        p > 0,
    ensures
        low_degree(|c: Seq<int>| combine_x(gamma, c), 8, 4, p),
{
    let h = |c: Seq<int>| combine_x(gamma, c);
    let (g1, g2, g3) = (pow(gamma, 1), pow(gamma, 2), pow(gamma, 3));
    assert forall|a: Seq<int>, b: Seq<int>| a.len() == 8 && #[trigger] columns_cong(a, b, p) implies cong(
        h(a),
        h(b),
        p,
    ) by {
        assert forall|j: int| 0 <= j < 8 implies cong(a[j], b[j], p) by {}
        lemma_cong_product(1, a[0], a[1], b[0], b[1], p);
        lemma_cong_product(g1, a[0], a[2], b[0], b[2], p);
        lemma_cong_product(g2, a[0], a[3], b[0], b[3], p);
        lemma_cong_mul(a[5], b[5], a[6], b[6], p);
        lemma_cong_sub(a[5] * a[6], b[5] * b[6], a[7], b[7], p);
        lemma_cong_product(g3, a[4], a[5] * a[6] - a[7], b[4], b[5] * b[6] - b[7], p);
        lemma_cong_add(a[0] * a[1], b[0] * b[1], g1 * (a[0] * a[2]), g1 * (b[0] * b[2]), p);
        lemma_cong_add(
            a[0] * a[1] + g1 * (a[0] * a[2]),
            b[0] * b[1] + g1 * (b[0] * b[2]),
            g2 * (a[0] * a[3]),
            g2 * (b[0] * b[3]),
            p,
        );
        lemma_cong_add(
            a[0] * a[1] + g1 * (a[0] * a[2]) + g2 * (a[0] * a[3]),
            b[0] * b[1] + g1 * (b[0] * b[2]) + g2 * (b[0] * b[3]),
            g3 * (a[4] * (a[5] * a[6] - a[7])),
            g3 * (b[4] * (b[5] * b[6] - b[7])),
            p,
        );
    }
    assert forall|a: Seq<int>, b: Seq<int>|
        #![trigger a.len(), b.len()]
        a.len() == 8 && b.len() == 8 implies exists|c: (int, int, int, int)| along_line(h, 4, a, b, c) by {
        let p1 = poly_product(a[0], b[0], a[1], b[1]);
        let p2 = poly_scale(g1, poly_product(a[0], b[0], a[2], b[2]));
        let p3 = poly_scale(g2, poly_product(a[0], b[0], a[3], b[3]));
        let l7 = (-a[7], a[7] - b[7], 0int, 0int);
        let q = poly_add(poly_product(a[5], b[5], a[6], b[6]), l7);
        let p4 = poly_scale(g3, poly_linear_times(a[4], b[4], q));
        let c = poly_add(poly_add(poly_add(p1, p2), p3), p4);
        assert forall|t: int| #[trigger] cubic(c, t) == h(Seq::new(a.len(), |j: int| a[j] + t * (b[j] - a[j]))) by {
            let s = Seq::new(a.len(), |j: int| a[j] + t * (b[j] - a[j]));
            lemma_poly_product(a[0], b[0], a[1], b[1], t);
            lemma_poly_product(a[0], b[0], a[2], b[2], t);
            lemma_poly_product(a[0], b[0], a[3], b[3], t);
            lemma_poly_product(a[5], b[5], a[6], b[6], t);
            lemma_poly_scale(g1, poly_product(a[0], b[0], a[2], b[2]), t);
            lemma_poly_scale(g2, poly_product(a[0], b[0], a[3], b[3]), t);
            assert(cubic(l7, t) == -(a[7] + t * (b[7] - a[7]))) by {
                let (x, y) = (a[7], b[7]);
                assert((x - y) * t == -(t * (y - x))) by (nonlinear_arith);
                assert(0 * (t * t) == 0 && 0 * (t * t * t) == 0) by (nonlinear_arith);
            }
            lemma_poly_add(poly_product(a[5], b[5], a[6], b[6]), l7, t);
            lemma_poly_linear_times(a[4], b[4], q, t);
            lemma_poly_scale(g3, poly_linear_times(a[4], b[4], q), t);
            lemma_poly_add(p1, p2, t);
            lemma_poly_add(poly_add(p1, p2), p3, t);
            lemma_poly_add(poly_add(poly_add(p1, p2), p3), p4, t);
            assert(h(s) == cubic(p1, t) + cubic(p2, t) + cubic(p3, t) + cubic(p4, t));
        }
        assert(along_line(h, 4, a, b, c));
    }
}

/// The polynomial of the second sum-check is of degree two.
pub proof fn lemma_combine_y_low_degree(delta: int, p: int)
    requires
        p > 0,
    ensures
        low_degree(|c: Seq<int>| combine_y(delta, c), 9, 3, p),
{
    let h = |c: Seq<int>| combine_y(delta, c);
    let (d1, d2, d3, d4, d5, d6) = (pow(delta, 1), pow(delta, 2), pow(delta, 3), pow(delta, 4), pow(delta, 5), pow(delta, 6));
    assert forall|a: Seq<int>, b: Seq<int>| a.len() == 9 && #[trigger] columns_cong(a, b, p) implies cong(
        h(a),
        h(b),
        p,
    ) by {
        assert forall|j: int| 0 <= j < 9 implies cong(a[j], b[j], p) by {}
        lemma_cong_product(1, a[0], a[1], b[0], b[1], p);
        lemma_cong_product(d1, a[0], a[2], b[0], b[2], p);
        lemma_cong_product(d2, a[0], a[3], b[0], b[3], p);
        lemma_cong_product(d3, a[0], a[4], b[0], b[4], p);
        lemma_cong_product(d4, a[5], a[8], b[5], b[8], p);
        lemma_cong_product(d5, a[6], a[8], b[6], b[8], p);
        lemma_cong_product(d6, a[7], a[8], b[7], b[8], p);
        let (x0, y0) = (a[0] * a[1], b[0] * b[1]);
        let (x1, y1) = (x0 + d1 * (a[0] * a[2]), y0 + d1 * (b[0] * b[2]));
        let (x2, y2) = (x1 + d2 * (a[0] * a[3]), y1 + d2 * (b[0] * b[3]));
        let (x3, y3) = (x2 + d3 * (a[0] * a[4]), y2 + d3 * (b[0] * b[4]));
        let (x4, y4) = (x3 + d4 * (a[5] * a[8]), y3 + d4 * (b[5] * b[8]));
        let (x5, y5) = (x4 + d5 * (a[6] * a[8]), y4 + d5 * (b[6] * b[8]));
        lemma_cong_add(x0, y0, d1 * (a[0] * a[2]), d1 * (b[0] * b[2]), p);
        lemma_cong_add(x1, y1, d2 * (a[0] * a[3]), d2 * (b[0] * b[3]), p);
        lemma_cong_add(x2, y2, d3 * (a[0] * a[4]), d3 * (b[0] * b[4]), p);
        lemma_cong_add(x3, y3, d4 * (a[5] * a[8]), d4 * (b[5] * b[8]), p);
        lemma_cong_add(x4, y4, d5 * (a[6] * a[8]), d5 * (b[6] * b[8]), p);
        lemma_cong_add(x5, y5, d6 * (a[7] * a[8]), d6 * (b[7] * b[8]), p);
    }
    assert forall|a: Seq<int>, b: Seq<int>|
        #![trigger a.len(), b.len()]
        a.len() == 9 && b.len() == 9 implies exists|c: (int, int, int, int)| along_line(h, 3, a, b, c) by {
        let q0 = poly_product(a[0], b[0], a[1], b[1]);
        let q1 = poly_product(a[0], b[0], a[2], b[2]);
        let q2 = poly_product(a[0], b[0], a[3], b[3]);
        let q3 = poly_product(a[0], b[0], a[4], b[4]);
        let q4 = poly_product(a[5], b[5], a[8], b[8]);
        let q5 = poly_product(a[6], b[6], a[8], b[8]);
        let q6 = poly_product(a[7], b[7], a[8], b[8]);
        let c1 = poly_add(q0, poly_scale(d1, q1));
        let c2 = poly_add(c1, poly_scale(d2, q2));
        let c3 = poly_add(c2, poly_scale(d3, q3));
        let c4 = poly_add(c3, poly_scale(d4, q4));
        let c5 = poly_add(c4, poly_scale(d5, q5));
        let c = poly_add(c5, poly_scale(d6, q6));
        assert forall|t: int| #[trigger] cubic(c, t) == h(Seq::new(a.len(), |j: int| a[j] + t * (b[j] - a[j]))) by {
            let s = Seq::new(a.len(), |j: int| a[j] + t * (b[j] - a[j]));
            lemma_poly_product(a[0], b[0], a[1], b[1], t);
            lemma_poly_product(a[0], b[0], a[2], b[2], t);
            lemma_poly_product(a[0], b[0], a[3], b[3], t);
            lemma_poly_product(a[0], b[0], a[4], b[4], t);
            lemma_poly_product(a[5], b[5], a[8], b[8], t);
            lemma_poly_product(a[6], b[6], a[8], b[8], t);
            lemma_poly_product(a[7], b[7], a[8], b[8], t);
            lemma_poly_scale(d1, q1, t);
            lemma_poly_scale(d2, q2, t);
            lemma_poly_scale(d3, q3, t);
            lemma_poly_scale(d4, q4, t);
            lemma_poly_scale(d5, q5, t);
            lemma_poly_scale(d6, q6, t);
            lemma_poly_add(q0, poly_scale(d1, q1), t);
            lemma_poly_add(c1, poly_scale(d2, q2), t);
            lemma_poly_add(c2, poly_scale(d3, q3), t);
            lemma_poly_add(c3, poly_scale(d4, q4), t);
            lemma_poly_add(c4, poly_scale(d5, q5), t);
            lemma_poly_add(c5, poly_scale(d6, q6), t);
            assert(h(s) == cubic(c, t));
        }
        assert(d1 * 0 == 0 && d2 * 0 == 0 && d3 * 0 == 0 && d4 * 0 == 0 && d5 * 0 == 0 && d6 * 0 == 0)
            by (nonlinear_arith);
        assert(along_line(h, 3, a, b, c));
    }
}

} // verus!
