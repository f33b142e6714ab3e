//! Multilinear extensions of tables over the Boolean hypercube.
//!
//! The index of a table entry is read in binary, the least significant bit first, so that the variable
//! `k` of a point belongs to bit `k` of the index.
use crate::math::{
    cong, lemma_cong_mod, lemma_cong_mul, lemma_sum_add, lemma_sum_cong, lemma_sum_ext, lemma_sum_scale,
    lemma_sum_single, lemma_sum_split, sum,
};
use vstd::arithmetic::div_mod::lemma_fundamental_div_mod_converse;
use vstd::arithmetic::power2::{lemma_pow2_adds, lemma_pow2_pos, lemma_pow2_unfold, pow2};
use vstd::prelude::*;

verus! {

/// Bit `k` of an index.
pub open spec fn bit(idx: int, k: int) -> bool {
    (idx / pow2(k as nat) as int) % 2 == 1
}

/// What variable `k` contributes to the weight of an index.
pub open spec fn eq_factor(idx: int, point: Seq<int>, k: int) -> int {
    if bit(idx, k) {
        point[k]
    } else {
        1 - point[k]
    }
}

/// The product of the contributions of the first `k` variables.
pub open spec fn eq_prefix(idx: int, point: Seq<int>, k: int) -> int
    decreases k,
{
    if k <= 0 {
        1
    } else {
        eq_prefix(idx, point, k - 1) * eq_factor(idx, point, k - 1)
    }
}

/// The weight of an index at a point: on the hypercube, one at the index and zero elsewhere.
pub open spec fn eq_weight(idx: int, point: Seq<int>) -> int {
    eq_prefix(idx, point, point.len() as int)
}

/// The multilinear extension of a table at a point.
pub open spec fn mle(table: Seq<int>, point: Seq<int>) -> int {
    sum(|i: int| table[i] * eq_weight(i, point), pow2(point.len()) as int)
}

/// The value between two table entries that differ in the highest bit alone.
pub open spec fn between(table: Seq<int>, i: int, t: int) -> int {
    table[i] + t * (table[table.len() / 2 + i] - table[i])
}

/// A table with its highest variable set to `r`, reduced.
pub open spec fn bound_table(table: Seq<int>, r: int, p: int) -> Seq<int> {
    Seq::new(table.len() / 2, |i: int| between(table, i, r) % p)
}

/// The product that is one where two points of the hypercube agree and zero elsewhere.
pub open spec fn eq_points(a: Seq<int>, b: Seq<int>, k: int) -> int
    decreases k,
{
    if k <= 0 {
        1
    } else {
        eq_points(a, b, k - 1) * (a[k - 1] * b[k - 1] + (1 - a[k - 1]) * (1 - b[k - 1]))
    }
}

/// A point with its coordinates in the opposite order.
pub open spec fn reversed(point: Seq<int>) -> Seq<int> {
    Seq::new(point.len(), |i: int| point[point.len() - 1 - i])
}

/// Below a power of two, the bits from there on are not set.
pub proof fn lemma_bit_high(idx: int, k: nat)
    requires
        0 <= idx < pow2(k),
    ensures
        !bit(idx, k as int),
        bit(idx + pow2(k), k as int),
{
    let m = pow2(k) as int;
    lemma_fundamental_div_mod_converse(idx, m, 0, idx);
    lemma_fundamental_div_mod_converse(idx + m, m, 1, idx);
}

/// Adding a power of two leaves the lower bits as they are.
pub proof fn lemma_bit_low(idx: int, k: int, n: nat)
    requires
        0 <= idx,
        0 <= k < n,
    ensures
        bit(idx + pow2(n), k) == bit(idx, k),
{
    let m = pow2(k as nat) as int;
    let d = (n - k - 1) as nat;
    lemma_pow2_pos(k as nat);
    lemma_pow2_adds(k as nat, (n - k) as nat);
    lemma_pow2_unfold((n - k) as nat);
    let q = pow2(d) as int;
    assert(pow2(n) == m * (2 * q));
    let a = idx / m;
    vstd::arithmetic::div_mod::lemma_fundamental_div_mod(idx, m);
    vstd::arithmetic::div_mod::lemma_mod_bound(idx, m);
    assert(idx + pow2(n) == (a + 2 * q) * m + idx % m) by (nonlinear_arith)
        requires
            idx == m * a + idx % m,
            pow2(n) == m * (2 * q),
    ;
    lemma_fundamental_div_mod_converse(idx + pow2(n), m, a + 2 * q, idx % m);
    assert((a + 2 * q) % 2 == a % 2);
}

/// The weight of the first `k` variables sees the first `k` bits and coordinates only.
pub proof fn lemma_eq_prefix_ext(i: int, j: int, a: Seq<int>, b: Seq<int>, k: int)
    requires
        forall|m: int| 0 <= m < k ==> bit(i, m) == #[trigger] bit(j, m),
        forall|m: int| 0 <= m < k ==> a[m] == #[trigger] b[m],
    ensures
        eq_prefix(i, a, k) == eq_prefix(j, b, k),
    decreases k,
{
    if k > 0 {
        lemma_eq_prefix_ext(i, j, a, b, k - 1);
        assert(bit(i, k - 1) == bit(j, k - 1));
        assert(a[k - 1] == b[k - 1]);
    }
}

/// A new highest variable multiplies the weights of the lower and of the upper half of the indices.
pub proof fn lemma_eq_weight_push(i: int, point: Seq<int>, r: int)
    requires
        0 <= i < pow2(point.len()),
    ensures
        eq_weight(i, point.push(r)) == eq_weight(i, point) * (1 - r),
        eq_weight(i + pow2(point.len()), point.push(r)) == eq_weight(i, point) * r,
{
    let n = point.len() as int;
    let full = point.push(r);
    lemma_bit_high(i, point.len());
    lemma_eq_prefix_ext(i, i, full, point, n);
    let j = i + pow2(point.len());
    assert forall|m: int| 0 <= m < n implies bit(j, m) == #[trigger] bit(i, m) by {
        lemma_bit_low(i, m, point.len());
    }
    lemma_eq_prefix_ext(j, i, full, point, n);
}

/// Setting the highest variable of a table to `r` evaluates the extension there.
pub proof fn lemma_mle_bound(table: Seq<int>, point: Seq<int>, r: int, p: int)
    requires
        p > 0,
        table.len() == pow2(point.len() + 1),
    ensures
        cong(mle(table, point.push(r)), mle(bound_table(table, r, p), point), p),
{
    let n = point.len();
    let half = pow2(n) as int;
    lemma_pow2_unfold(n + 1);
    let full = point.push(r);
    let f = |i: int| table[i] * eq_weight(i, full);
    let lo = |i: int| table[i] * eq_weight(i, full);
    let hi = |i: int| table[half + i] * eq_weight(half + i, full);
    let g = |i: int| lo(i) + hi(i);
    let bt = bound_table(table, r, p);
    let h = |i: int| bt[i] * eq_weight(i, point);
    lemma_sum_split(f, hi, half, half);
    lemma_sum_add(lo, hi, g, half);
    lemma_sum_ext(f, lo, half);
    assert forall|i: int| 0 <= i < half implies cong(#[trigger] g(i), h(i), p) by {
        lemma_eq_weight_push(i, point, r);
        let w = eq_weight(i, point);
        let (a, b) = (table[i], table[half + i]);
        assert(a * (w * (1 - r)) + b * (w * r) == (a + r * (b - a)) * w) by (nonlinear_arith);
        assert(g(i) == between(table, i, r) * w);
        lemma_cong_mod(between(table, i, r), p);
        lemma_cong_mul(between(table, i, r), bt[i], w, w, p);
    }
    lemma_sum_cong(g, h, half, p);
    assert(sum(f, half + half) == mle(table, full));
}

/// The weight of one point, as a table, extended to another point.
pub proof fn lemma_mle_eq(a: Seq<int>, b: Seq<int>)
    requires
        a.len() == b.len(),
    ensures
        sum(|i: int| eq_weight(i, a) * eq_weight(i, b), pow2(a.len()) as int) == eq_points(
            a,
            b,
            a.len() as int,
        ),
    decreases a.len(),
{
    let f = |i: int| eq_weight(i, a) * eq_weight(i, b);
    if a.len() == 0 {
        assert(pow2(0) == 1) by {
            vstd::arithmetic::power2::lemma2_to64();
        }
        assert(sum(f, 1) == sum(f, 0) + f(0));
        assert(f(0) == 1) by (nonlinear_arith)
            requires
                f(0) == eq_weight(0, a) * eq_weight(0, b),
                eq_weight(0, a) == 1,
                eq_weight(0, b) == 1,
        ;
    } else {
        let n = (a.len() - 1) as nat;
        let half = pow2(n) as int;
        lemma_pow2_unfold(a.len());
        let (a0, b0) = (a.drop_last(), b.drop_last());
        let (x, y) = (a.last(), b.last());
        assert(a0.push(x) =~= a);
        assert(b0.push(y) =~= b);
        lemma_mle_eq(a0, b0);
        let lo = |i: int| eq_weight(i, a) * eq_weight(i, b);
        let hi = |i: int| eq_weight(half + i, a) * eq_weight(half + i, b);
        let inner = |i: int| eq_weight(i, a0) * eq_weight(i, b0);
        let both = |i: int| lo(i) + hi(i);
        let c = x * y + (1 - x) * (1 - y);
        lemma_sum_split(f, hi, half, half);
        lemma_sum_ext(f, lo, half);
        lemma_sum_add(lo, hi, both, half);
        assert forall|i: int| 0 <= i < half implies #[trigger] both(i) == c * inner(i) by {
            lemma_eq_weight_push(i, a0, x);
            lemma_eq_weight_push(i, b0, y);
            let (u, v) = (eq_weight(i, a0), eq_weight(i, b0));
            let (m, k, w) = (1 - x, 1 - y, u * v);
            assert((u * m) * (v * k) == (m * k) * w) by (nonlinear_arith)
                requires
                    w == u * v,
            ;
            assert((u * x) * (v * y) == (x * y) * w) by (nonlinear_arith)
                requires
                    w == u * v,
            ;
            assert((m * k) * w + (x * y) * w == (x * y + m * k) * w) by (nonlinear_arith);
        }
        lemma_sum_scale(inner, both, c, half);
        lemma_eq_points_ext(a, b, a0, b0, n as int);
        let s = eq_points(a0, b0, n as int);
        assert(c * s == s * c) by (nonlinear_arith);
    }
}

pub proof fn lemma_eq_points_ext(a: Seq<int>, b: Seq<int>, c: Seq<int>, d: Seq<int>, k: int)
    requires
        forall|m: int| 0 <= m < k ==> a[m] == #[trigger] c[m],
        forall|m: int| 0 <= m < k ==> b[m] == #[trigger] d[m],
    ensures
        eq_points(a, b, k) == eq_points(c, d, k),
    decreases k,
{
    if k > 0 {
        lemma_eq_points_ext(a, b, c, d, k - 1);
        assert(a[k - 1] == c[k - 1]);
        assert(b[k - 1] == d[k - 1]);
    }
}

/// A table with its highest variables set to the given values, one after the other.
pub open spec fn bound_all(table: Seq<int>, points: Seq<int>, p: int) -> Seq<int>
    decreases points.len(),
{
    if points.len() == 0 {
        table
    } else {
        bound_table(bound_all(table, points.drop_last(), p), points.last(), p)
    }
}

/// Setting some of the variables of a table evaluates its extension there.
pub proof fn bound_variables_extend(table: Seq<int>, points: Seq<int>, rest: Seq<int>, p: int)
    requires
        p > 0,
        table.len() == pow2(points.len() + rest.len()),
    ensures
        bound_all(table, points, p).len() == pow2(rest.len()),
        cong(mle(table, rest + reversed(points)), mle(bound_all(table, points, p), rest), p),
    decreases points.len(),
{
    if points.len() == 0 {
        assert(rest + reversed(points) =~= rest);
    } else {
        let (init, r) = (points.drop_last(), points.last());
        bound_variables_extend(table, init, rest.push(r), p);
        let b = bound_all(table, init, p);
        lemma_mle_bound(b, rest, r, p);
        lemma_pow2_unfold(rest.len() + 1);
        assert(rest.push(r) + reversed(init) =~= rest + reversed(points));
    }
}

/// Setting all variables of a table, from the highest one down, leaves its extension at the point.
pub proof fn bound_table_is_extension(table: Seq<int>, points: Seq<int>, p: int)
    requires
        p > 0,
        points.len() > 0,
        table.len() == pow2(points.len()),
    ensures
        bound_all(table, points, p) == seq![mle(table, reversed(points)) % p],
{
    let none = Seq::<int>::empty();
    bound_variables_extend(table, points, none, p);
    let t = bound_all(table, points, p);
    vstd::arithmetic::power2::lemma2_to64();
    assert(none + reversed(points) =~= reversed(points));
    let f = |i: int| t[i] * eq_weight(i, none);
    assert(sum(f, 1) == sum(f, 0) + f(0));
    assert(t[0] * 1 == t[0]);
    let b = bound_all(table, points.drop_last(), p);
    assert(t[0] == between(b, 0, points.last()) % p);
    vstd::arithmetic::div_mod::lemma_mod_twice(between(b, 0, points.last()), p);
    assert(t =~= seq![mle(table, reversed(points)) % p]);
}

/// The corner of the hypercube that an index stands for.
pub open spec fn corner_of(i: int, n: nat) -> Seq<int> {
    Seq::new(
        n,
        |k: int|
            if bit(i, k) {
                1int
            } else {
                0
            },
    )
}

/// The weight of an index at a corner is one if the corner is that of the index, and zero otherwise.
pub proof fn weights_tell_corners_apart(i: int, j: int, n: nat)
    requires
        0 <= i < pow2(n),
        0 <= j < pow2(n),
    ensures
        eq_weight(j, corner_of(i, n)) == if i == j {
            1int
        } else {
            0
        },
    decreases n,
{
    if n == 0 {
        vstd::arithmetic::power2::lemma2_to64();
    } else {
        let m = (n - 1) as nat;
        let half = pow2(m) as int;
        lemma_pow2_unfold(n);
        let (i0, x) = if i < half {
            (i, 0int)
        } else {
            (i - half, 1int)
        };
        let j0 = if j < half {
            j
        } else {
            j - half
        };
        lemma_bit_high(i0, m);
        assert forall|k: int| 0 <= k < m implies bit(i, k) == #[trigger] bit(i0, k) by {
            lemma_bit_low(i0, k, m);
        }
        let low = corner_of(i0, m);
        assert(corner_of(i, n) =~= low.push(x));
        weights_tell_corners_apart(i0, j0, m);
        lemma_eq_weight_push(j0, low, x);
        let w = eq_weight(j0, low);
        assert(w * 0 == 0 && w * 1 == w);
    }
}

/// The extension of a table agrees with the table on the corners of the hypercube.
pub proof fn extension_agrees_on_corners(table: Seq<int>, i: int, n: nat)
    requires
        0 <= i < pow2(n),
    ensures
        mle(table, corner_of(i, n)) == table[i],
{
    let c = corner_of(i, n);
    let f = |j: int| table[j] * eq_weight(j, c);
    assert forall|j: int| 0 <= j < pow2(n) implies #[trigger] f(j) == if j == i {
        table[i]
    } else {
        0
    } by {
        weights_tell_corners_apart(i, j, n);
        let t = table[j];
        assert(t * 0 == 0 && t * 1 == t);
    }
    lemma_sum_single(f, pow2(n) as int, i);
}

/// The equality polynomial is one at two equal corners, and zero at two different ones.
pub proof fn equality_tells_corners_apart(i: int, j: int, n: nat)
    requires
        0 <= i < pow2(n),
        0 <= j < pow2(n),
    ensures
        eq_points(corner_of(i, n), corner_of(j, n), n as int) == if i == j {
            1int
        } else {
            0
        },
{
    let (a, b) = (corner_of(i, n), corner_of(j, n));
    let f = |k: int| eq_weight(k, a) * eq_weight(k, b);
    assert forall|k: int| 0 <= k < pow2(n) implies #[trigger] f(k) == if k == i && k == j {
        1int
    } else {
        0
    } by {
        weights_tell_corners_apart(i, k, n);
        weights_tell_corners_apart(j, k, n);
        let w = eq_weight(k, b);
        assert(0 * w == 0 && 1 * w == w);
    }
    lemma_sum_single(f, pow2(n) as int, i);
    lemma_mle_eq(a, b);
}

/// The equality polynomial is linear in every coordinate: between two points that differ in the last coordinate only,
/// it takes the values in between.
pub proof fn equality_is_linear(a: Seq<int>, b: Seq<int>, x: int, y: int)
    requires
        a.len() == b.len(),
    ensures
        ({
            let n = a.len() as int;
            let e = eq_points(a, b, n);
            &&& eq_points(a.push(x), b.push(0), n + 1) == e * (1 - x)
            &&& eq_points(a.push(x), b.push(1), n + 1) == e * x
            &&& eq_points(a.push(x), b.push(y), n + 1) == e * ((1 - x) * (1 - y) + x * y)
        }),
{
    let n = a.len() as int;
    lemma_eq_points_ext(a.push(x), b.push(0), a, b, n);
    lemma_eq_points_ext(a.push(x), b.push(1), a, b, n);
    lemma_eq_points_ext(a.push(x), b.push(y), a, b, n);
    assert(x * 0 + (1 - x) * (1 - 0) == 1 - x && x * 1 + (1 - x) * (1 - 1) == x) by (nonlinear_arith);
    assert(x * y + (1 - x) * (1 - y) == (1 - x) * (1 - y) + x * y);
}

} // verus!
