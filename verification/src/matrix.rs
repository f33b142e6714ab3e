//! Sparse matrices as bilinear forms, and their sums by row and by column.
use crate::math::{
    lemma_sum_add, lemma_sum_ext, lemma_sum_scale, lemma_sum_single, lemma_sum_update, lemma_sum_zero, sum,
};
use crate::mle::{corner_of, eq_weight, weights_tell_corners_apart};
use crate::r1cs::{entries_fit, Entries};
use vstd::arithmetic::power2::pow2;
use vstd::prelude::*;

verus! {

/// An element of a sequence, or zero behind its end.
pub open spec fn at(z: Seq<int>, i: int) -> int {
    if 0 <= i < z.len() {
        z[i]
    } else {
        0
    }
}

/// The weights of all indices at a point.
pub open spec fn weights(point: Seq<int>) -> spec_fn(int) -> int {
    |i: int| eq_weight(i, point)
}

/// The elements of a sequence, followed by zeros.
pub open spec fn values(z: Seq<int>) -> spec_fn(int) -> int {
    |i: int| at(z, i)
}

/// The value of an entry, weighted by its row and by its column.
pub open spec fn weighted_entry(e: (int, int, int), u: spec_fn(int) -> int, w: spec_fn(int) -> int) -> int {
    e.2 * u(e.0) * w(e.1)
}

/// The sum of the entries, each weighted by its row and by its column.
pub open spec fn weighted(m: Entries, u: spec_fn(int) -> int, w: spec_fn(int) -> int) -> int {
    sum(|k: int| weighted_entry(m[k], u, w), m.len() as int)
}

/// The value of an entry weighted by its column, or zero where the entry is of another row.
pub open spec fn row_term(e: (int, int, int), row: int, w: spec_fn(int) -> int) -> int {
    if e.0 == row {
        e.2 * w(e.1)
    } else {
        0
    }
}

/// The sum of the entries of one row, each weighted by its column.
pub open spec fn row_sum(m: Entries, row: int, w: spec_fn(int) -> int) -> int {
    sum(|k: int| row_term(m[k], row, w), m.len() as int)
}

/// The matrix with rows and columns exchanged.
pub open spec fn transposed(m: Entries) -> Entries {
    Seq::new(m.len(), |k: int| (m[k].1, m[k].0, m[k].2))
}

/// The sum of the entries of one column, each weighted by its row.
pub open spec fn col_sum(m: Entries, col: int, u: spec_fn(int) -> int) -> int {
    row_sum(transposed(m), col, u)
}

/// The entries of one row, as pairs of column and value.
pub open spec fn row_bucket(m: Entries, row: int) -> Seq<(int, int)>
    decreases m.len(),
{
    if m.len() == 0 {
        Seq::empty()
    } else {
        let rest = row_bucket(m.drop_last(), row);
        if m.last().0 == row {
            rest.push((m.last().1, m.last().2))
        } else {
            rest
        }
    }
}

/// The sum over a bucket, each value weighted by its index.
pub open spec fn bucket_sum(b: Seq<(int, int)>, w: spec_fn(int) -> int) -> int {
    sum(|k: int| b[k].1 * w(b[k].0), b.len() as int)
}

/// The bucket of a row sums to the sum of the row.
pub proof fn lemma_bucket_sum(m: Entries, row: int, w: spec_fn(int) -> int)
    ensures
        bucket_sum(row_bucket(m, row), w) == row_sum(m, row, w),
    decreases m.len(),
{
    let f = |k: int| row_term(m[k], row, w);
    let b = row_bucket(m, row);
    let g = |k: int| b[k].1 * w(b[k].0);
    if m.len() > 0 {
        let m0 = m.drop_last();
        lemma_bucket_sum(m0, row, w);
        let f0 = |k: int| row_term(m0[k], row, w);
        lemma_sum_ext(f, f0, m.len() - 1);
        if m.last().0 == row {
            let b0 = row_bucket(m0, row);
            assert(b == b0.push((m.last().1, m.last().2)));
            lemma_sum_ext(g, |k: int| b0[k].1 * w(b0[k].0), b0.len() as int);
            assert(g(b0.len() as int) == f(m.len() - 1));
        }
    }
}

/// The sums of the rows, each weighted, add up to the weighted matrix.
pub proof fn lemma_by_rows(m: Entries, u: spec_fn(int) -> int, w: spec_fn(int) -> int, n: int)
    requires
        forall|k: int| 0 <= k < m.len() ==> 0 <= (#[trigger] m[k]).0 < n,
    ensures
        sum(|r: int| u(r) * row_sum(m, r, w), n) == weighted(m, u, w),
    decreases m.len(),
{
    let total = |r: int| u(r) * row_sum(m, r, w);
    if m.len() == 0 {
        assert forall|r: int| 0 <= r < n implies #[trigger] total(r) == 0 by {
            assert(row_sum(m, r, w) == 0);
            assert(u(r) * 0 == 0) by (nonlinear_arith);
        }
        lemma_sum_zero(total, n);
    } else {
        let m0 = m.drop_last();
        let e = m.last();
        assert forall|k: int| 0 <= k < m0.len() implies 0 <= (#[trigger] m0[k]).0 < n by {
            assert(m0[k] == m[k]);
        }
        lemma_by_rows(m0, u, w, n);
        assert(m[m.len() - 1] == e);
        let rest = |r: int| u(r) * row_sum(m0, r, w);
        let single = |r: int|
            if r == e.0 {
                weighted_entry(e, u, w)
            } else {
                0
            };
        assert forall|r: int| 0 <= r < n implies #[trigger] total(r) == rest(r) + single(r) by {
            let f = |k: int| row_term(m[k], r, w);
            let f0 = |k: int| row_term(m0[k], r, w);
            lemma_sum_ext(f, f0, m.len() - 1);
            let (a, s, v, b) = (u(r), row_sum(m0, r, w), e.2, w(e.1));
            if e.0 == r {
                assert(a * (s + v * b) == a * s + v * a * b) by (nonlinear_arith);
            } else {
                assert(a * (s + 0) == a * s);
            }
        }
        lemma_sum_add(rest, single, total, n);
        lemma_sum_single(single, n, e.0);
        let g = |k: int| weighted_entry(m[k], u, w);
        let g0 = |k: int| weighted_entry(m0[k], u, w);
        lemma_sum_ext(g, g0, m.len() - 1);
    }
}

/// The sums of the columns, each weighted, add up to the weighted matrix.
pub proof fn lemma_by_cols(m: Entries, u: spec_fn(int) -> int, w: spec_fn(int) -> int, n: int)
    requires
        forall|k: int| 0 <= k < m.len() ==> 0 <= (#[trigger] m[k]).1 < n,
    ensures
        sum(|c: int| w(c) * col_sum(m, c, u), n) == weighted(m, u, w),
{
    let t = transposed(m);
    assert forall|k: int| 0 <= k < t.len() implies 0 <= (#[trigger] t[k]).0 < n by {
        assert(0 <= m[k].1 < n);
    }
    lemma_by_rows(t, w, u, n);
    let f = |k: int| weighted_entry(m[k], u, w);
    let g = |k: int| weighted_entry(t[k], w, u);
    assert forall|k: int| 0 <= k < m.len() implies #[trigger] f(k) == g(k) by {
        let (v, a, b) = (m[k].2, u(m[k].0), w(m[k].1));
        assert(v * a * b == v * b * a) by (nonlinear_arith);
    }
    lemma_sum_ext(f, g, m.len() as int);
    lemma_sum_ext(|c: int| w(c) * col_sum(m, c, u), |c: int| w(c) * row_sum(t, c, u), n);
}

/// The matrices, each times its coefficient, as one weighted matrix.
pub open spec fn folded(mats: Seq<Entries>, coeffs: Seq<int>, u: spec_fn(int) -> int, w: spec_fn(int) -> int) -> int {
    sum(|i: int| coeffs[i] * weighted(mats[i], u, w), coeffs.len() as int)
}

/// The sum of one row of the matrices, each times its coefficient.
pub open spec fn folded_row(mats: Seq<Entries>, coeffs: Seq<int>, row: int, w: spec_fn(int) -> int) -> int {
    sum(|i: int| coeffs[i] * row_sum(mats[i], row, w), coeffs.len() as int)
}

/// The sum of one column of the matrices, each times its coefficient.
pub open spec fn folded_col(mats: Seq<Entries>, coeffs: Seq<int>, col: int, u: spec_fn(int) -> int) -> int {
    sum(|i: int| coeffs[i] * col_sum(mats[i], col, u), coeffs.len() as int)
}

/// The rows of the folded matrices add up as the rows of one matrix do.
pub proof fn lemma_folded_by_rows(
    mats: Seq<Entries>,
    coeffs: Seq<int>,
    u: spec_fn(int) -> int,
    w: spec_fn(int) -> int,
    n: int,
)
    requires
        coeffs.len() <= mats.len(),
        forall|i: int, k: int|
            0 <= i < mats.len() && 0 <= k < mats[i].len() ==> 0 <= (#[trigger] mats[i][k]).0 < n,
    ensures
        sum(|r: int| u(r) * folded_row(mats, coeffs, r, w), n) == folded(mats, coeffs, u, w),
    decreases coeffs.len(),
{
    let total = |r: int| u(r) * folded_row(mats, coeffs, r, w);
    if coeffs.len() == 0 {
        assert forall|r: int| 0 <= r < n implies #[trigger] total(r) == 0 by {
            assert(u(r) * 0 == 0) by (nonlinear_arith);
        }
        lemma_sum_zero(total, n);
    } else {
        let c0 = coeffs.drop_last();
        let j = coeffs.len() - 1;
        let c = coeffs[j];
        lemma_folded_by_rows(mats, c0, u, w, n);
        lemma_by_rows(mats[j], u, w, n);
        let rest = |r: int| u(r) * folded_row(mats, c0, r, w);
        let one = |r: int| u(r) * row_sum(mats[j], r, w);
        let scaled = |r: int| c * (u(r) * row_sum(mats[j], r, w));
        assert forall|r: int| 0 <= r < n implies #[trigger] total(r) == rest(r) + scaled(r) by {
            lemma_sum_ext(
                |i: int| coeffs[i] * row_sum(mats[i], r, w),
                |i: int| c0[i] * row_sum(mats[i], r, w),
                j,
            );
            let (a, s, b) = (u(r), folded_row(mats, c0, r, w), row_sum(mats[j], r, w));
            assert(a * (s + c * b) == a * s + c * (a * b)) by (nonlinear_arith);
        }
        lemma_sum_add(rest, scaled, total, n);
        lemma_sum_scale(one, scaled, c, n);
        lemma_sum_ext(
            |i: int| coeffs[i] * weighted(mats[i], u, w),
            |i: int| c0[i] * weighted(mats[i], u, w),
            j,
        );
    }
}

/// Every matrix transposed.
pub open spec fn all_transposed(mats: Seq<Entries>) -> Seq<Entries> {
    Seq::new(mats.len(), |i: int| transposed(mats[i]))
}

/// The columns of the folded matrices add up as the columns of one matrix do.
pub proof fn lemma_folded_by_cols(
    mats: Seq<Entries>,
    coeffs: Seq<int>,
    u: spec_fn(int) -> int,
    w: spec_fn(int) -> int,
    n: int,
)
    requires
        coeffs.len() <= mats.len(),
        forall|i: int, k: int|
            0 <= i < mats.len() && 0 <= k < mats[i].len() ==> 0 <= (#[trigger] mats[i][k]).1 < n,
    ensures
        sum(|c: int| w(c) * folded_col(mats, coeffs, c, u), n) == folded(mats, coeffs, u, w),
    decreases coeffs.len(),
{
    let t = all_transposed(mats);
    assert forall|i: int, k: int| 0 <= i < t.len() && 0 <= k < t[i].len() implies 0 <= (#[trigger] t[i][k]).0 < n by {
        assert(0 <= mats[i][k].1 < n);
    }
    lemma_folded_by_rows(t, coeffs, w, u, n);
    let f = |c: int| w(c) * folded_col(mats, coeffs, c, u);
    let g = |c: int| w(c) * folded_row(t, coeffs, c, u);
    assert forall|c: int| 0 <= c < n implies #[trigger] f(c) == g(c) by {
        lemma_sum_ext(
            |i: int| coeffs[i] * col_sum(mats[i], c, u),
            |i: int| coeffs[i] * row_sum(t[i], c, u),
            coeffs.len() as int,
        );
    }
    lemma_sum_ext(f, g, n);
    let a = |i: int| coeffs[i] * weighted(mats[i], u, w);
    let b = |i: int| coeffs[i] * weighted(t[i], w, u);
    assert forall|i: int| 0 <= i < coeffs.len() implies #[trigger] a(i) == b(i) by {
        let m = mats[i];
        let x = |k: int| weighted_entry(m[k], u, w);
        let y = |k: int| weighted_entry(t[i][k], w, u);
        assert forall|k: int| 0 <= k < m.len() implies #[trigger] x(k) == y(k) by {
            let (v, p, q) = (m[k].2, u(m[k].0), w(m[k].1));
            assert(v * p * q == v * q * p) by (nonlinear_arith);
        }
        lemma_sum_ext(x, y, m.len() as int);
    }
    lemma_sum_ext(a, b, coeffs.len() as int);
}

/// A matrix, extended to a pair of corners, is its entry there.
pub proof fn matrix_extension_agrees_on_corners(m: Entries, i: int, j: int, a: nat, b: nat)
    requires
        0 <= i < pow2(a),
        0 <= j < pow2(b),
        entries_fit(m, pow2(a) as int, pow2(b) as int),
    ensures
        weighted(m, weights(corner_of(i, a)), weights(corner_of(j, b))) == sum(
            |k: int|
                if m[k].0 == i && m[k].1 == j {
                    m[k].2
                } else {
                    0
                },
            m.len() as int,
        ),
{
    let (u, w) = (weights(corner_of(i, a)), weights(corner_of(j, b)));
    let f = |k: int| weighted_entry(m[k], u, w);
    let g = |k: int|
        if m[k].0 == i && m[k].1 == j {
            m[k].2
        } else {
            0
        };
    assert forall|k: int| 0 <= k < m.len() implies #[trigger] f(k) == g(k) by {
        weights_tell_corners_apart(i, m[k].0, a);
        weights_tell_corners_apart(j, m[k].1, b);
        let (e, x, y) = (m[k].2, u(m[k].0), w(m[k].1));
        assert(e * 1 == e && e * 0 == 0);
        assert(0 * y == 0 && e * y == e * y);
    }
    lemma_sum_ext(f, g, m.len() as int);
}

/// A matrix times a vector, extended to a corner, is the product of the row there with the vector.
pub proof fn row_compression_agrees_on_corners(m: Entries, z: Seq<int>, i: int, a: nat, cols: int)
    requires
        0 <= i < pow2(a),
        entries_fit(m, pow2(a) as int, cols),
    ensures
        weighted(m, weights(corner_of(i, a)), values(z)) == sum(
            |k: int|
                if m[k].0 == i && m[k].1 < z.len() {
                    m[k].2 * z[m[k].1]
                } else {
                    0
                },
            m.len() as int,
        ),
{
    let (u, w) = (weights(corner_of(i, a)), values(z));
    let f = |k: int| weighted_entry(m[k], u, w);
    let g = |k: int|
        if m[k].0 == i && m[k].1 < z.len() {
            m[k].2 * z[m[k].1]
        } else {
            0
        };
    assert forall|k: int| 0 <= k < m.len() implies #[trigger] f(k) == g(k) by {
        weights_tell_corners_apart(i, m[k].0, a);
        let (e, y) = (m[k].2, w(m[k].1));
        assert(e * 1 == e && e * 0 == 0);
        assert(0 * y == 0);
    }
    lemma_sum_ext(f, g, m.len() as int);
}

/// A matrix folded from others is linear in the coefficients: with the coefficient of one matrix raised, it is the
/// folded matrix plus the raised part of that one.
pub proof fn folded_matrix_is_linear(
    mats: Seq<Entries>,
    coeffs: Seq<int>,
    id: int,
    rho: int,
    u: spec_fn(int) -> int,
    w: spec_fn(int) -> int,
)
    requires
        0 <= id < coeffs.len() <= mats.len(),
    ensures
        folded(mats, coeffs.update(id, coeffs[id] + rho), u, w) == folded(mats, coeffs, u, w) + rho * weighted(mats[id], u, w),
{
    let raised = coeffs.update(id, coeffs[id] + rho);
    let f = |i: int| coeffs[i] * weighted(mats[i], u, w);
    let g = |i: int| raised[i] * weighted(mats[i], u, w);
    assert(folded(mats, raised, u, w) == sum(g, coeffs.len() as int));
    assert(folded(mats, coeffs, u, w) == sum(f, coeffs.len() as int));
    assert forall|i: int| 0 <= i < coeffs.len() && i != id implies #[trigger] f(i) == g(i) by {}
    lemma_sum_update(f, g, coeffs.len() as int, id);
    let (c, x) = (coeffs[id], weighted(mats[id], u, w));
    assert((c + rho) * x == c * x + rho * x) by (nonlinear_arith);
}

} // verus!
