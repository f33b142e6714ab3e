//! What folding keeps: the verifier accepts what the prover of a satisfied instance sends, and a folded
//! instance stays satisfied.
use crate::combine::{combine_x, combine_y, lemma_combine_x_low_degree, lemma_combine_y_low_degree, sum_x, sum_y};
use crate::engine::{commitment_log, CurveEngine, CurveGroup};
use crate::field::FieldElement;
use crate::math::{
    cong, lemma_cong_add, lemma_cong_mod, lemma_cong_mul, lemma_cong_sub, lemma_sum_add, lemma_sum_cong,
    lemma_sum_ext, lemma_sum_scale, lemma_sum_split, lemma_sum_zero, sum,
};
use crate::matrix::{
    col_sum, folded, folded_col, folded_row, lemma_by_cols, lemma_by_rows, lemma_folded_by_cols, lemma_folded_by_rows,
    row_sum, values, weighted, weights,
};
use crate::mle::{eq_points, eq_weight, lemma_mle_eq, mle, reversed};
use crate::nifs::{
    absorbed_inputs, accepted, checked_proof, claim_x, claim_y, col_table_folded, col_table_predicate, eq_table_of,
    hash_of, min_len, opening, proved, proved_x, proved_y, row_table_compressed, row_table_folded, running, tables_x,
    tables_y, transcript, verified, z_table_of, Running, SumcheckProofView,
};
use crate::r1cs::{entries_fit, InstanceView, WitnessView};
use crate::relation::{
    claims, combined, first_instance, first_witness, folded_sat, folded_z, incoming_z, index_commitments, lengths_fit,
    resized, sigmas, taus, thetas, unit, vector_eval, FoldedInstanceView, FoldedWitnessView, StructureView,
};
use crate::sumcheck::{
    challenge, check_rounds, column, columns_cong, first_points, good_modulus, lemma_final_column, lemma_rounds,
    prove_rounds, table_sum, tables_sized, Check, Rounds,
};
use vstd::arithmetic::div_mod::lemma_small_mod;
use vstd::arithmetic::power::pow;
use vstd::arithmetic::power2::pow2;
use vstd::prelude::*;

verus! {

/// The sum of the products of two tables of reduced values.
proof fn lemma_dot_reduced(
    a: Seq<int>,
    b: Seq<int>,
    f: spec_fn(int) -> int,
    g: spec_fn(int) -> int,
    n: int,
    p: int,
)
    requires
        p > 0,
        forall|i: int| 0 <= i < n ==> cong(#[trigger] a[i], f(i), p),
        forall|i: int| 0 <= i < n ==> cong(#[trigger] b[i], g(i), p),
    ensures
        cong(sum(|i: int| a[i] * b[i], n), sum(|i: int| f(i) * g(i), n), p),
{
    let x = |i: int| a[i] * b[i];
    let y = |i: int| f(i) * g(i);
    assert forall|i: int| 0 <= i < n implies cong(#[trigger] x(i), y(i), p) by {
        assert(cong(a[i], f(i), p));
        assert(cong(b[i], g(i), p));
        lemma_cong_mul(a[i], f(i), b[i], g(i), p);
    }
    lemma_sum_cong(x, y, n, p);
}

/// The extension of a table of reduced values.
proof fn lemma_mle_reduced(t: Seq<int>, f: spec_fn(int) -> int, point: Seq<int>, p: int)
    requires
        p > 0,
        t.len() == pow2(point.len()),
        forall|i: int| 0 <= i < t.len() ==> cong(#[trigger] t[i], f(i), p),
    ensures
        cong(mle(t, point), sum(|i: int| weights(point)(i) * f(i), t.len() as int), p),
{
    let x = |i: int| t[i] * eq_weight(i, point);
    let y = |i: int| weights(point)(i) * f(i);
    assert forall|i: int| 0 <= i < t.len() implies cong(#[trigger] x(i), y(i), p) by {
        let w = eq_weight(i, point);
        assert(cong(t[i], f(i), p));
        lemma_cong_mul(w, w, t[i], f(i), p);
        assert(t[i] * w == w * t[i]) by (nonlinear_arith);
    }
    lemma_sum_cong(x, y, t.len() as int, p);
}

/// The rows of a predicate that its vector has to satisfy.
pub open spec fn rows_satisfied(s: StructureView, id: int, z: Seq<int>, p: int) -> bool {
    forall|r: int|
        0 <= r < pow2(s.s_max) ==> cong(
            #[trigger] row_sum(s.mats[id][0], r, values(z)) * row_sum(s.mats[id][1], r, values(z)),
            row_sum(s.mats[id][2], r, values(z)),
            p,
        )
}

proof fn lemma_mats_fit(s: StructureView, which: int)
    requires
        s.wf(),
        0 <= which < 3,
    ensures
        forall|i: int, k: int|
            0 <= i < s.mats_of(which).len() && 0 <= k < s.mats_of(which)[i].len() ==> 0 <= (
            #[trigger] s.mats_of(which)[i][k]).0 < pow2(s.s_max),
        forall|i: int, k: int|
            0 <= i < s.mats_of(which).len() && 0 <= k < s.mats_of(which)[i].len() ==> 0 <= (
            #[trigger] s.mats_of(which)[i][k]).1 < pow2(s.s_prime_max),
{
    let m = s.mats_of(which);
    assert forall|i: int, k: int| 0 <= i < m.len() && 0 <= k < m[i].len() implies 0 <= (#[trigger] m[i][k]).0 < pow2(
        s.s_max,
    ) && 0 <= m[i][k].1 < pow2(s.s_prime_max) by {
        assert(entries_fit(s.mats[i][which], pow2(s.s_max) as int, pow2(s.s_prime_max) as int));
        assert(0 <= s.mats[i][which][k].0 < pow2(s.s_max));
    }
}

/// The table of the rows of the folded matrices, weighted by the running weights and extended.
proof fn lemma_row_table(s: StructureView, coeffs: Seq<int>, which: int, r_y: Seq<int>, point: Seq<int>, p: int)
    requires
        p > 0,
        s.wf(),
        0 <= which < 3,
        coeffs.len() <= s.len(),
        point.len() == s.s_max,
    ensures
        cong(mle(row_table_folded(s, coeffs, which, r_y, p), point), s.eval_folded(coeffs, which, point, r_y), p),
{
    let t = row_table_folded(s, coeffs, which, r_y, p);
    let mats = s.mats_of(which);
    let f = |r: int| folded_row(mats, coeffs, r, weights(r_y));
    assert forall|i: int| 0 <= i < t.len() implies cong(#[trigger] t[i], f(i), p) by {
        lemma_cong_mod(f(i), p);
    }
    lemma_mle_reduced(t, f, point, p);
    lemma_mats_fit(s, which);
    lemma_folded_by_rows(mats, coeffs, weights(point), weights(r_y), t.len() as int);
    lemma_sum_ext(
        |i: int| weights(point)(i) * f(i),
        |r: int| weights(point)(r) * folded_row(mats, coeffs, r, weights(r_y)),
        t.len() as int,
    );
}

/// The table of the columns of the folded matrices, extended.
proof fn lemma_col_table(s: StructureView, coeffs: Seq<int>, which: int, r_x: Seq<int>, point: Seq<int>, p: int)
    requires
        p > 0,
        s.wf(),
        0 <= which < 3,
        coeffs.len() <= s.len(),
        point.len() == s.s_prime_max,
    ensures
        cong(mle(col_table_folded(s, coeffs, which, r_x, p), point), s.eval_folded(coeffs, which, r_x, point), p),
{
    let t = col_table_folded(s, coeffs, which, r_x, p);
    let mats = s.mats_of(which);
    let f = |c: int| folded_col(mats, coeffs, c, weights(r_x));
    assert forall|i: int| 0 <= i < t.len() implies cong(#[trigger] t[i], f(i), p) by {
        lemma_cong_mod(f(i), p);
    }
    lemma_mle_reduced(t, f, point, p);
    lemma_mats_fit(s, which);
    lemma_folded_by_cols(mats, coeffs, weights(r_x), weights(point), t.len() as int);
    lemma_sum_ext(
        |i: int| weights(point)(i) * f(i),
        |c: int| weights(point)(c) * folded_col(mats, coeffs, c, weights(r_x)),
        t.len() as int,
    );
}

proof fn lemma_mat_fits(s: StructureView, id: int, which: int)
    requires
        s.wf(),
        0 <= id < s.len(),
        0 <= which < 3,
    ensures
        forall|k: int|
            0 <= k < s.mats[id][which].len() ==> 0 <= (#[trigger] s.mats[id][which][k]).0 < pow2(s.s_max),
        forall|k: int|
            0 <= k < s.mats[id][which].len() ==> 0 <= (#[trigger] s.mats[id][which][k]).1 < pow2(s.s_prime_max),
{
    assert(entries_fit(s.mats[id][which], pow2(s.s_max) as int, pow2(s.s_prime_max) as int));
}

/// The table of the rows of a matrix times a vector, extended.
proof fn lemma_compressed_table(s: StructureView, id: int, which: int, z: Seq<int>, point: Seq<int>, p: int)
    requires
        p > 0,
        s.wf(),
        0 <= id < s.len(),
        0 <= which < 3,
        point.len() == s.s_max,
    ensures
        cong(mle(row_table_compressed(s, id, which, z, p), point), s.eval_row_compression(id, which, point, z), p),
{
    let t = row_table_compressed(s, id, which, z, p);
    let m = s.mats[id][which];
    let f = |r: int| row_sum(m, r, values(z));
    assert forall|i: int| 0 <= i < t.len() implies cong(#[trigger] t[i], f(i), p) by {
        lemma_cong_mod(f(i), p);
    }
    lemma_mle_reduced(t, f, point, p);
    lemma_mat_fits(s, id, which);
    lemma_by_rows(m, weights(point), values(z), t.len() as int);
    lemma_sum_ext(
        |i: int| weights(point)(i) * f(i),
        |r: int| weights(point)(r) * row_sum(m, r, values(z)),
        t.len() as int,
    );
}

/// The table of the columns of a matrix of a predicate, extended.
proof fn lemma_predicate_table(s: StructureView, id: int, which: int, r_x: Seq<int>, point: Seq<int>, p: int)
    requires
        p > 0,
        s.wf(),
        0 <= id < s.len(),
        0 <= which < 3,
        point.len() == s.s_prime_max,
    ensures
        cong(mle(col_table_predicate(s, id, which, r_x, p), point), s.eval_predicate(id, which, r_x, point), p),
{
    let t = col_table_predicate(s, id, which, r_x, p);
    let m = s.mats[id][which];
    let f = |c: int| col_sum(m, c, weights(r_x));
    assert forall|i: int| 0 <= i < t.len() implies cong(#[trigger] t[i], f(i), p) by {
        lemma_cong_mod(f(i), p);
    }
    lemma_mle_reduced(t, f, point, p);
    lemma_mat_fits(s, id, which);
    lemma_by_cols(m, weights(r_x), weights(point), t.len() as int);
    lemma_sum_ext(
        |i: int| weights(point)(i) * f(i),
        |c: int| weights(point)(c) * col_sum(m, c, weights(r_x)),
        t.len() as int,
    );
}

/// The table of weights, extended.
proof fn lemma_eq_table(a: Seq<int>, point: Seq<int>, p: int)
    requires
        p > 0,
        a.len() == point.len(),
    ensures
        cong(mle(eq_table_of(a, p), point), eq_points(a, point, a.len() as int), p),
{
    let t = eq_table_of(a, p);
    let f = |i: int| eq_weight(i, a);
    assert forall|i: int| 0 <= i < t.len() implies cong(#[trigger] t[i], f(i), p) by {
        lemma_cong_mod(f(i), p);
    }
    lemma_mle_reduced(t, f, point, p);
    lemma_mle_eq(a, point);
    let x = |i: int| weights(point)(i) * f(i);
    let y = |i: int| eq_weight(i, a) * eq_weight(i, point);
    assert forall|i: int| 0 <= i < t.len() implies #[trigger] x(i) == y(i) by {
        let (u, v) = (eq_weight(i, point), eq_weight(i, a));
        assert(u * v == v * u) by (nonlinear_arith);
    }
    lemma_sum_ext(x, y, t.len() as int);
}

/// The table of a vector, extended.
proof fn lemma_z_table(s: StructureView, z: Seq<int>, point: Seq<int>)
    requires
        z.len() <= pow2(s.s_prime_max),
        point.len() == s.s_prime_max,
    ensures
        mle(z_table_of(s, z), point) == vector_eval(z, point),
{
    let t = z_table_of(s, z);
    let n = t.len() - z.len();
    let f = |i: int| t[i] * eq_weight(i, point);
    let g = |i: int| z[i] * eq_weight(i, point);
    let h = |i: int| f(z.len() + i);
    lemma_sum_split(f, h, z.len() as int, n);
    assert forall|i: int| 0 <= i < n implies #[trigger] h(i) == 0 by {
        let w = eq_weight(z.len() + i, point);
        assert(0 * w == 0) by (nonlinear_arith);
    }
    lemma_sum_zero(h, n);
    lemma_sum_ext(f, g, z.len() as int);
}

/// The products with the table of weights sum to the extension.
proof fn lemma_eq_dot(t: Seq<int>, a: Seq<int>, p: int)
    requires
        p > 0,
        t.len() == pow2(a.len()),
    ensures
        cong(sum(|i: int| eq_table_of(a, p)[i] * t[i], t.len() as int), mle(t, a), p),
{
    let e = eq_table_of(a, p);
    let x = |i: int| e[i] * t[i];
    let y = |i: int| t[i] * eq_weight(i, a);
    assert forall|i: int| 0 <= i < t.len() implies cong(#[trigger] x(i), y(i), p) by {
        let w = eq_weight(i, a);
        lemma_cong_mod(w, p);
        lemma_cong_mul(e[i], w, t[i], t[i], p);
        assert(w * t[i] == t[i] * w) by (nonlinear_arith);
    }
    lemma_sum_cong(x, y, t.len() as int, p);
}

/// The products of the columns of a matrix and of a vector sum to the matrix times the vector.
proof fn lemma_predicate_dot(s: StructureView, id: int, which: int, r_x: Seq<int>, z: Seq<int>, p: int)
    requires
        p > 0,
        s.wf(),
        0 <= id < s.len(),
        0 <= which < 3,
    ensures
        cong(
            sum(
                |i: int| col_table_predicate(s, id, which, r_x, p)[i] * z_table_of(s, z)[i],
                pow2(s.s_prime_max) as int,
            ),
            s.eval_row_compression(id, which, r_x, z),
            p,
        ),
{
    let n = pow2(s.s_prime_max) as int;
    let m = s.mats[id][which];
    let t = col_table_predicate(s, id, which, r_x, p);
    let zt = z_table_of(s, z);
    let f = |c: int| col_sum(m, c, weights(r_x));
    let g = |c: int| values(z)(c);
    assert forall|i: int| 0 <= i < n implies cong(#[trigger] t[i], f(i), p) by {
        lemma_cong_mod(f(i), p);
    }
    lemma_dot_reduced(t, zt, f, g, n, p);
    lemma_mat_fits(s, id, which);
    lemma_by_cols(m, weights(r_x), values(z), n);
    let x = |i: int| f(i) * g(i);
    let y = |c: int| values(z)(c) * col_sum(m, c, weights(r_x));
    assert forall|i: int| 0 <= i < n implies #[trigger] x(i) == y(i) by {
        let (u, v) = (f(i), g(i));
        assert(u * v == v * u) by (nonlinear_arith);
    }
    lemma_sum_ext(x, y, n);
}

/// A sum of four functions, three of them with a factor.
proof fn lemma_sum_linear4(
    h: spec_fn(int) -> int,
    f0: spec_fn(int) -> int,
    f1: spec_fn(int) -> int,
    f2: spec_fn(int) -> int,
    f3: spec_fn(int) -> int,
    k1: int,
    k2: int,
    k3: int,
    n: int,
)
    requires
        forall|i: int| 0 <= i < n ==> #[trigger] h(i) == f0(i) + k1 * f1(i) + k2 * f2(i) + k3 * f3(i),
    ensures
        sum(h, n) == sum(f0, n) + k1 * sum(f1, n) + k2 * sum(f2, n) + k3 * sum(f3, n),
{
    let g1 = |i: int| k1 * f1(i);
    let g2 = |i: int| k2 * f2(i);
    let g3 = |i: int| k3 * f3(i);
    lemma_sum_scale(f1, g1, k1, n);
    lemma_sum_scale(f2, g2, k2, n);
    lemma_sum_scale(f3, g3, k3, n);
    let a = |i: int| f0(i) + g1(i);
    let b = |i: int| a(i) + g2(i);
    lemma_sum_add(f0, g1, a, n);
    lemma_sum_add(a, g2, b, n);
    lemma_sum_add(b, g3, h, n);
}

/// Sums with factors are congruent where their terms are.
proof fn lemma_cong_linear4(x0: int, x1: int, x2: int, x3: int, y0: int, y1: int, y2: int, y3: int, k1: int, k2: int, k3: int, p: int)
    requires
        p > 0,
        cong(x0, y0, p),
        cong(x1, y1, p),
        cong(x2, y2, p),
        cong(x3, y3, p),
    ensures
        cong(x0 + k1 * x1 + k2 * x2 + k3 * x3, y0 + k1 * y1 + k2 * y2 + k3 * y3, p),
{
    lemma_cong_mul(k1, k1, x1, y1, p);
    lemma_cong_mul(k2, k2, x2, y2, p);
    lemma_cong_mul(k3, k3, x3, y3, p);
    lemma_cong_add(x0, y0, k1 * x1, k1 * y1, p);
    lemma_cong_add(x0 + k1 * x1, y0 + k1 * y1, k2 * x2, k2 * y2, p);
    lemma_cong_add(x0 + k1 * x1 + k2 * x2, y0 + k1 * y1 + k2 * y2, k3 * x3, k3 * y3, p);
}

/// The sum of the first sum-check is what the running claims give.
proof fn lemma_first_sum(
    s: StructureView,
    id: int,
    r_x: Seq<int>,
    r_y: Seq<int>,
    lambda: Seq<int>,
    alpha: Seq<int>,
    z: Seq<int>,
    v: Seq<int>,
    gamma: int,
    p: int,
)
    requires
        p > 0,
        s.wf(),
        0 <= id < s.len(),
        lambda.len() <= s.len(),
        r_x.len() == s.s_max,
        alpha.len() == s.s_max,
        forall|j: int| 0 <= j < 3 ==> cong(#[trigger] v[j], s.eval_folded(lambda, j, r_x, r_y), p),
        rows_satisfied(s, id, z, p),
    ensures
        cong(
            table_sum(
                |c: Seq<int>| combine_x(gamma, c),
                tables_x(s, id, r_x, r_y, lambda, alpha, z, p),
                pow2(s.s_max) as int,
            ),
            sum_x(gamma, v),
            p,
        ),
{
    let n = pow2(s.s_max) as int;
    let t = tables_x(s, id, r_x, r_y, lambda, alpha, z, p);
    let (k1, k2, k3) = (pow(gamma, 1), pow(gamma, 2), pow(gamma, 3));
    let h = |c: Seq<int>| combine_x(gamma, c);
    let total = |i: int| h(column(t, i));
    let f0 = |i: int| eq_table_of(r_x, p)[i] * t[1][i];
    let f1 = |i: int| eq_table_of(r_x, p)[i] * t[2][i];
    let f2 = |i: int| eq_table_of(r_x, p)[i] * t[3][i];
    let f3 = |i: int| t[4][i] * (t[5][i] * t[6][i] - t[7][i]);
    assert forall|i: int| 0 <= i < n implies #[trigger] total(i) == f0(i) + k1 * f1(i) + k2 * f2(i) + k3 * f3(i) by {
        let c = column(t, i);
        assert(c[0] == t[0][i] && c[1] == t[1][i] && c[2] == t[2][i] && c[3] == t[3][i] && c[4] == t[4][i] && c[5]
            == t[5][i] && c[6] == t[6][i] && c[7] == t[7][i]);
    }
    lemma_sum_linear4(total, f0, f1, f2, f3, k1, k2, k3, n);
    lemma_eq_dot(t[1], r_x, p);
    lemma_eq_dot(t[2], r_x, p);
    lemma_eq_dot(t[3], r_x, p);
    lemma_row_table(s, lambda, 0, r_y, r_x, p);
    lemma_row_table(s, lambda, 1, r_y, r_x, p);
    lemma_row_table(s, lambda, 2, r_y, r_x, p);
    let zero = |i: int| 0int;
    assert forall|i: int| 0 <= i < n implies cong(#[trigger] f3(i), zero(i), p) by {
        let (a, b, c) = (
            row_sum(s.mats[id][0], i, values(z)),
            row_sum(s.mats[id][1], i, values(z)),
            row_sum(s.mats[id][2], i, values(z)),
        );
        assert(cong(a * b, c, p));
        lemma_cong_mod(a, p);
        lemma_cong_mod(b, p);
        lemma_cong_mod(c, p);
        lemma_cong_mul(t[5][i], a, t[6][i], b, p);
        lemma_cong_sub(t[5][i] * t[6][i], c, t[7][i], c, p);
        lemma_cong_mul(t[4][i], t[4][i], t[5][i] * t[6][i] - t[7][i], 0, p);
        assert(t[4][i] * 0 == 0) by (nonlinear_arith);
    }
    lemma_sum_cong(f3, zero, n, p);
    lemma_sum_zero(zero, n);
    assert(cong(v[0], s.eval_folded(lambda, 0, r_x, r_y), p));
    assert(cong(v[1], s.eval_folded(lambda, 1, r_x, r_y), p));
    assert(cong(v[2], s.eval_folded(lambda, 2, r_x, r_y), p));
    lemma_cong_linear4(
        sum(f0, n),
        sum(f1, n),
        sum(f2, n),
        sum(f3, n),
        v[0],
        v[1],
        v[2],
        0,
        k1,
        k2,
        k3,
        p,
    );
    assert(k3 * 0 == 0) by (nonlinear_arith);
}

/// The sum of the second sum-check is what the helper claims give.
proof fn lemma_second_sum(
    s: StructureView,
    id: int,
    r_x: Seq<int>,
    r_y: Seq<int>,
    lambda: Seq<int>,
    z_running: Seq<int>,
    z: Seq<int>,
    sg: Seq<int>,
    ta: Seq<int>,
    v: Seq<int>,
    delta: int,
    p: int,
)
    requires
        p > 0,
        s.wf(),
        0 <= id < s.len(),
        lambda.len() <= s.len(),
        r_x.len() == s.s_max,
        r_y.len() == s.s_prime_max,
        z_running.len() <= pow2(s.s_prime_max),
        cong(v[3], vector_eval(z_running, r_y), p),
        sg == sigmas(s, lambda, r_x, r_y, p),
        ta == taus(s, id, r_x, z, p),
    ensures
        cong(
            table_sum(
                |c: Seq<int>| combine_y(delta, c),
                tables_y(s, id, r_x, r_y, lambda, z_running, z, p),
                pow2(s.s_prime_max) as int,
            ),
            sum_y(delta, v, sg, ta),
            p,
        ),
{
    let n = pow2(s.s_prime_max) as int;
    let t = tables_y(s, id, r_x, r_y, lambda, z_running, z, p);
    let (k1, k2, k3, k4, k5, k6) = (
        pow(delta, 1),
        pow(delta, 2),
        pow(delta, 3),
        pow(delta, 4),
        pow(delta, 5),
        pow(delta, 6),
    );
    let h = |c: Seq<int>| combine_y(delta, c);
    let total = |i: int| h(column(t, i));
    let f0 = |i: int| eq_table_of(r_y, p)[i] * t[1][i];
    let f1 = |i: int| eq_table_of(r_y, p)[i] * t[2][i];
    let f2 = |i: int| eq_table_of(r_y, p)[i] * t[3][i];
    let f3 = |i: int| eq_table_of(r_y, p)[i] * t[4][i];
    let f4 = |i: int| col_table_predicate(s, id, 0, r_x, p)[i] * z_table_of(s, z)[i];
    let f5 = |i: int| col_table_predicate(s, id, 1, r_x, p)[i] * z_table_of(s, z)[i];
    let f6 = |i: int| col_table_predicate(s, id, 2, r_x, p)[i] * z_table_of(s, z)[i];
    let head = |i: int| f0(i) + k1 * f1(i) + k2 * f2(i) + k3 * f3(i);
    assert forall|i: int| 0 <= i < n implies #[trigger] total(i) == head(i) + k4 * f4(i) + k5 * f5(i) + k6 * f6(i) by {
        let c = column(t, i);
        assert(c[0] == t[0][i] && c[1] == t[1][i] && c[2] == t[2][i] && c[3] == t[3][i] && c[4] == t[4][i] && c[5]
            == t[5][i] && c[6] == t[6][i] && c[7] == t[7][i] && c[8] == t[8][i]);
    }
    lemma_sum_linear4(total, head, f4, f5, f6, k4, k5, k6, n);
    lemma_sum_linear4(head, f0, f1, f2, f3, k1, k2, k3, n);
    lemma_eq_dot(t[1], r_y, p);
    lemma_eq_dot(t[2], r_y, p);
    lemma_eq_dot(t[3], r_y, p);
    lemma_eq_dot(t[4], r_y, p);
    lemma_col_table(s, lambda, 0, r_x, r_y, p);
    lemma_col_table(s, lambda, 1, r_x, r_y, p);
    lemma_col_table(s, lambda, 2, r_x, r_y, p);
    lemma_z_table(s, z_running, r_y);
    lemma_predicate_dot(s, id, 0, r_x, z, p);
    lemma_predicate_dot(s, id, 1, r_x, z, p);
    lemma_predicate_dot(s, id, 2, r_x, z, p);
    lemma_cong_mod(s.eval_folded(lambda, 0, r_x, r_y), p);
    lemma_cong_mod(s.eval_folded(lambda, 1, r_x, r_y), p);
    lemma_cong_mod(s.eval_folded(lambda, 2, r_x, r_y), p);
    lemma_cong_mod(s.eval_row_compression(id, 0, r_x, z), p);
    lemma_cong_mod(s.eval_row_compression(id, 1, r_x, z), p);
    lemma_cong_mod(s.eval_row_compression(id, 2, r_x, z), p);
    lemma_cong_linear4(
        sum(f0, n),
        sum(f1, n),
        sum(f2, n),
        sum(f3, n),
        sg[0],
        sg[1],
        sg[2],
        v[3],
        k1,
        k2,
        k3,
        p,
    );
    lemma_cong_linear4(
        sum(head, n),
        sum(f4, n),
        sum(f5, n),
        sum(f6, n),
        sg[0] + k1 * sg[1] + k2 * sg[2] + k3 * v[3],
        ta[0],
        ta[1],
        ta[2],
        k4,
        k5,
        k6,
        p,
    );
}

/// The first sum-check of the prover is accepted, and its last claim is the one that the helper claims give.
proof fn lemma_first_accepted<E: CurveEngine>(
    s: StructureView,
    start: Seq<int>,
    id: int,
    run: Running,
    z: Seq<int>,
)
    requires
        s.wf(),
        0 <= id < s.len(),
        run.lambda.len() <= s.len(),
        run.r_x.len() == s.s_max,
        run.r_y.len() == s.s_prime_max,
        run.v == claims(s, run.lambda, run.r_x, run.r_y, run.z, E::Base::modulus()),
        rows_satisfied(s, id, z, E::Base::modulus()),
    ensures
        ({
            let p = E::Base::modulus();
            let o = opening::<E>(s, start);
            let f = transcript::<E>(s, start, id, run, z);
            let x = proved_x::<E>(s, start, id, run, z);
            &&& x.point.len() == s.s_max
            &&& x.polys.len() == s.s_max
            &&& checked_proof(
                first_points(4),
                hash_of::<E>(),
                p,
                o.state,
                sum_x(o.gamma, run.v) % p,
                f.proof_.sc_proof_x,
            ) == Some(
                Check {
                    state: x.state,
                    claim: claim_x(o.gamma, run.r_x, o.alpha, reversed(x.point), f.proof_.sigmas, f.proof_.taus) % p,
                    point: x.point,
                },
            )
        }),
{
    let p = E::Base::modulus();
    E::Base::modulus_bounds();
    let hash = hash_of::<E>();
    let o = opening::<E>(s, start);
    let lambda = run.lambda;
    let t = tables_x(s, id, run.r_x, run.r_y, lambda, o.alpha, z, p);
    let h = |c: Seq<int>| combine_x(o.gamma, c);
    let begin = Rounds { tables: t, state: o.state, point: Seq::empty(), polys: Seq::empty() };
    let n = pow2(s.s_max) as int;
    lemma_combine_x_low_degree(o.gamma, p);
    assert(tables_sized(t, 8, n));
    assert forall|j: int| 0 <= j < 3 implies cong(
        #[trigger] run.v[j],
        s.eval_folded(lambda, j, run.r_x, run.r_y),
        p,
    ) by {
        lemma_cong_mod(s.eval_folded(lambda, j, run.r_x, run.r_y), p);
        assert(j == 0 || j == 1 || j == 2);
    }
    lemma_first_sum(s, id, run.r_x, run.r_y, lambda, o.alpha, z, run.v, o.gamma, p);
    let claim = sum_x(o.gamma, run.v) % p;
    lemma_rounds(h, 4, hash, p, 8, s.s_max, begin, claim, s.s_max);
    lemma_final_column(h, 4, hash, p, 8, s.s_max, begin);
    let x = proved_x::<E>(s, start, id, run, z);
    assert(x == prove_rounds(h, 4, hash, p, s.s_max, begin, s.s_max));
    assert(pow2(0) == 1) by {
        vstd::arithmetic::power2::lemma2_to64();
    }
    let pt = reversed(x.point);
    let sg = sigmas(s, lambda, pt, run.r_y, p);
    let ta = taus(s, id, pt, z, p);
    let got = Seq::new(8, |j: int| mle(t[j], pt));
    let want = seq![
        eq_points(run.r_x, pt, min_len(run.r_x, pt)),
        sg[0],
        sg[1],
        sg[2],
        eq_points(o.alpha, pt, min_len(o.alpha, pt)),
        ta[0],
        ta[1],
        ta[2],
    ];
    lemma_eq_table(run.r_x, pt, p);
    lemma_eq_table(o.alpha, pt, p);
    lemma_row_table(s, lambda, 0, run.r_y, pt, p);
    lemma_row_table(s, lambda, 1, run.r_y, pt, p);
    lemma_row_table(s, lambda, 2, run.r_y, pt, p);
    lemma_compressed_table(s, id, 0, z, pt, p);
    lemma_compressed_table(s, id, 1, z, pt, p);
    lemma_compressed_table(s, id, 2, z, pt, p);
    lemma_cong_mod(s.eval_folded(lambda, 0, pt, run.r_y), p);
    lemma_cong_mod(s.eval_folded(lambda, 1, pt, run.r_y), p);
    lemma_cong_mod(s.eval_folded(lambda, 2, pt, run.r_y), p);
    lemma_cong_mod(s.eval_row_compression(id, 0, pt, z), p);
    lemma_cong_mod(s.eval_row_compression(id, 1, pt, z), p);
    lemma_cong_mod(s.eval_row_compression(id, 2, pt, z), p);
    assert(columns_cong(got, want, p)) by {
        assert forall|j: int| 0 <= j < 8 implies cong(#[trigger] got[j], want[j], p) by {
            assert(j == 0 || j == 1 || j == 2 || j == 3 || j == 4 || j == 5 || j == 6 || j == 7);
        }
    }
    assert(cong(h(got), h(want), p));
    assert(h(want) == claim_x(o.gamma, run.r_x, o.alpha, pt, sg, ta));
}

/// The second sum-check of the prover is accepted, and its last claim is the one that the new claims give.
proof fn lemma_second_accepted<E: CurveEngine>(
    s: StructureView,
    start: Seq<int>,
    id: int,
    run: Running,
    z: Seq<int>,
)
    requires
        s.wf(),
        0 <= id < s.len(),
        run.lambda.len() <= s.len(),
        run.r_x.len() == s.s_max,
        run.r_y.len() == s.s_prime_max,
        run.z.len() <= pow2(s.s_prime_max),
        z.len() <= pow2(s.s_prime_max),
        run.v == claims(s, run.lambda, run.r_x, run.r_y, run.z, E::Base::modulus()),
        proved_x::<E>(s, start, id, run, z).point.len() == s.s_max,
    ensures
        ({
            let p = E::Base::modulus();
            let hash = hash_of::<E>();
            let f = transcript::<E>(s, start, id, run, z);
            let x = proved_x::<E>(s, start, id, run, z);
            let y = proved_y::<E>(s, start, id, run, z);
            let delta = challenge(hash, x.state);
            &&& y.point.len() == s.s_prime_max
            &&& y.polys.len() == s.s_prime_max
            &&& checked_proof(
                first_points(3),
                hash,
                p,
                seq![hash(x.state)],
                sum_y(delta, run.v, f.proof_.sigmas, f.proof_.taus) % p,
                f.proof_.sc_proof_y,
            ) == Some(
                Check {
                    state: y.state,
                    claim: claim_y(delta, run.r_y, reversed(y.point), f.proof_.epsilons, f.proof_.thetas) % p,
                    point: y.point,
                },
            )
        }),
{
    let p = E::Base::modulus();
    E::Base::modulus_bounds();
    let hash = hash_of::<E>();
    let x = proved_x::<E>(s, start, id, run, z);
    let delta = challenge(hash, x.state);
    let zr = run.z;
    let lambda = run.lambda;
    let r_x = reversed(x.point);
    let t = tables_y(s, id, r_x, run.r_y, lambda, zr, z, p);
    let h = |c: Seq<int>| combine_y(delta, c);
    let begin = Rounds { tables: t, state: seq![hash(x.state)], point: Seq::empty(), polys: Seq::empty() };
    let n = pow2(s.s_prime_max) as int;
    lemma_combine_y_low_degree(delta, p);
    assert(tables_sized(t, 9, n));
    let sg = sigmas(s, lambda, r_x, run.r_y, p);
    let ta = taus(s, id, r_x, z, p);
    lemma_cong_mod(vector_eval(zr, run.r_y), p);
    lemma_second_sum(s, id, r_x, run.r_y, lambda, zr, z, sg, ta, run.v, delta, p);
    let claim = sum_y(delta, run.v, sg, ta) % p;
    lemma_rounds(h, 3, hash, p, 9, s.s_prime_max, begin, claim, s.s_prime_max);
    lemma_final_column(h, 3, hash, p, 9, s.s_prime_max, begin);
    let y = proved_y::<E>(s, start, id, run, z);
    assert(y == prove_rounds(h, 3, hash, p, s.s_prime_max, begin, s.s_prime_max));
    assert(pow2(0) == 1) by {
        vstd::arithmetic::power2::lemma2_to64();
    }
    let pt = reversed(y.point);
    let ep = claims(s, lambda, r_x, pt, zr, p);
    let th = thetas(s, id, r_x, pt, z, p);
    let got = Seq::new(9, |j: int| mle(t[j], pt));
    let want = seq![
        eq_points(run.r_y, pt, min_len(run.r_y, pt)),
        ep[0],
        ep[1],
        ep[2],
        ep[3],
        th[0],
        th[1],
        th[2],
        th[3],
    ];
    lemma_eq_table(run.r_y, pt, p);
    lemma_col_table(s, lambda, 0, r_x, pt, p);
    lemma_col_table(s, lambda, 1, r_x, pt, p);
    lemma_col_table(s, lambda, 2, r_x, pt, p);
    lemma_z_table(s, zr, pt);
    lemma_predicate_table(s, id, 0, r_x, pt, p);
    lemma_predicate_table(s, id, 1, r_x, pt, p);
    lemma_predicate_table(s, id, 2, r_x, pt, p);
    lemma_z_table(s, z, pt);
    lemma_cong_mod(s.eval_folded(lambda, 0, r_x, pt), p);
    lemma_cong_mod(s.eval_folded(lambda, 1, r_x, pt), p);
    lemma_cong_mod(s.eval_folded(lambda, 2, r_x, pt), p);
    lemma_cong_mod(vector_eval(zr, pt), p);
    lemma_cong_mod(s.eval_predicate(id, 0, r_x, pt), p);
    lemma_cong_mod(s.eval_predicate(id, 1, r_x, pt), p);
    lemma_cong_mod(s.eval_predicate(id, 2, r_x, pt), p);
    lemma_cong_mod(vector_eval(z, pt), p);
    assert(columns_cong(got, want, p)) by {
        assert forall|j: int| 0 <= j < 9 implies cong(#[trigger] got[j], want[j], p) by {
            assert(j == 0 || j == 1 || j == 2 || j == 3 || j == 4 || j == 5 || j == 6 || j == 7 || j == 8);
        }
    }
    assert(cong(h(got), h(want), p));
    assert(h(want) == claim_y(delta, run.r_y, pt, ep, th));
}

pub(crate) proof fn lemma_incoming_len(s: StructureView, u2: InstanceView, w2: WitnessView, p: int)
    requires
        s.wf(),
    ensures
        incoming_z(s, u2, w2, p).len() == s.num_vars_max + 1 + s.num_io,
        incoming_z(s, u2, w2, p).len() <= pow2(s.s_prime_max),
{
}

/// The verifier accepts what the prover sends, and comes to the same points and challenge: where the running
/// claims are true, and the incoming vector satisfies the rows of its predicate in the base field.
pub proof fn transcript_is_accepted<E: CurveEngine>(s: StructureView, start: Seq<int>, id: int, run: Running, z: Seq<int>)
    requires
        s.wf(),
        0 <= id < s.len(),
        run.lambda.len() <= s.len(),
        run.r_x.len() == s.s_max,
        run.r_y.len() == s.s_prime_max,
        run.z.len() <= pow2(s.s_prime_max),
        z.len() <= pow2(s.s_prime_max),
        run.v == claims(s, run.lambda, run.r_x, run.r_y, run.z, E::Base::modulus()),
        rows_satisfied(s, id, z, E::Base::modulus()),
    ensures
        ({
            let t = transcript::<E>(s, start, id, run, z);
            accepted::<E>(s, start, run.r_x, run.r_y, run.v, t.proof_) == Some(t.result)
        }),
{
    lemma_first_accepted::<E>(s, start, id, run, z);
    lemma_second_accepted::<E>(s, start, id, run, z);
}

/// The verifier accepts what the prover sends, and comes to the same folded instance: where the running instance
/// is satisfied by its witness, and the incoming vector satisfies the rows of its predicate in the base field.
pub proof fn fold_is_accepted<E: CurveEngine>(
    s: StructureView,
    ck: E::CommitmentKey,
    pp_digest: int,
    id: int,
    u1: FoldedInstanceView,
    w1: FoldedWitnessView,
    u2: InstanceView,
    w2: WitnessView,
)
    requires
        s.wf(),
        0 <= id < s.len(),
        folded_sat::<E>(s, ck, u1, w1) is Ok,
        rows_satisfied(s, id, incoming_z(s, u2, w2, E::Base::modulus()), E::Base::modulus()),
    ensures
        ({
            let f = proved::<E>(s, pp_digest, id, u1, w1, u2, w2);
            verified::<E>(s, pp_digest, id, u1, u2, f.proof_) == Some(f.instance)
        }),
{
    let p = E::Base::modulus();
    lemma_incoming_len(s, u2, w2, p);
    transcript_is_accepted::<E>(
        s,
        absorbed_inputs::<E>(s, pp_digest, id, u2),
        id,
        running(u1, w1),
        incoming_z(s, u2, w2, p),
    );
}

/// A commitment to a linear combination is the linear combination of the commitments.
pub(crate) proof fn lemma_commit_combined<E: CurveGroup>(
    g: Seq<crate::engine::PointView>,
    b: crate::engine::PointView,
    v1: Seq<int>,
    r1: int,
    v2: Seq<int>,
    r2: int,
    rho: int,
)
    requires
        v2.len() <= v1.len() <= g.len(),
    ensures
        ({
            let q = E::Scalar::modulus();
            commitment_log::<E>(
                g,
                b,
                combined(v1, resized(v2, v1.len() as int), rho, q),
                (r1 + rho * r2) % q,
            ) == (commitment_log::<E>(g, b, v1, r1) + commitment_log::<E>(g, b, v2, r2) * rho) % q
        }),
{
    let q = E::Scalar::modulus();
    E::Scalar::modulus_bounds();
    let l = crate::engine::logs::<E>(g);
    let h = crate::engine::discrete_log::<E>(b);
    let n = v1.len() as int;
    let w2 = resized(v2, n);
    let c = combined(v1, w2, rho, q);
    let f1 = |i: int| v1[i] * l[i];
    let f2 = |i: int| w2[i] * l[i];
    let g2 = |i: int| rho * (w2[i] * l[i]);
    let both = |i: int| f1(i) + g2(i);
    let fc = |i: int| c[i] * l[i];
    assert forall|i: int| 0 <= i < n implies cong(#[trigger] fc(i), both(i), q) by {
        let (a, d, k) = (v1[i], w2[i], l[i]);
        lemma_cong_mod(a + rho * d, q);
        lemma_cong_mul(c[i], a + rho * d, k, k, q);
        assert((a + rho * d) * k == a * k + rho * (d * k)) by (nonlinear_arith);
    }
    lemma_sum_cong(fc, both, n, q);
    lemma_sum_add(f1, g2, both, n);
    lemma_sum_scale(f2, g2, rho, n);
    let k = v2.len() as int;
    let tail = |i: int| f2(k + i);
    lemma_sum_split(f2, tail, k, n - k);
    assert forall|i: int| 0 <= i < n - k implies #[trigger] tail(i) == 0 by {
        let x = l[k + i];
        assert(0 * x == 0) by (nonlinear_arith);
    }
    lemma_sum_zero(tail, n - k);
    let f3 = |i: int| v2[i] * l[i];
    lemma_sum_ext(f2, f3, k);
    let (s1, s2) = (sum(f1, n), sum(f3, k));
    let r = (r1 + rho * r2) % q;
    lemma_cong_mod(r1 + rho * r2, q);
    lemma_cong_mul(r, r1 + rho * r2, h, h, q);
    lemma_cong_add(sum(fc, n), s1 + rho * s2, r * h, (r1 + rho * r2) * h, q);
    let (x1, x2) = (s1 + r1 * h, s2 + r2 * h);
    assert((s1 + rho * s2) + (r1 + rho * r2) * h == x1 + x2 * rho) by (nonlinear_arith)
        requires
            x1 == s1 + r1 * h,
            x2 == s2 + r2 * h,
    ;
    lemma_cong_mod(x1, q);
    lemma_cong_mod(x2, q);
    lemma_cong_mul(x2 % q, x2, rho, rho, q);
    lemma_cong_add(x1 % q, x1, (x2 % q) * rho, x2 * rho, q);
}

/// A commitment to coefficients of which one is raised.
proof fn lemma_commit_raised<E: CurveGroup>(
    g: Seq<crate::engine::PointView>,
    b: crate::engine::PointView,
    v: Seq<int>,
    id: int,
    rho: int,
)
    requires
        0 <= id < v.len(),
        v.len() <= g.len(),
    ensures
        ({
            let q = E::Scalar::modulus();
            commitment_log::<E>(g, b, v.update(id, (v[id] + rho) % q), 0) == (commitment_log::<E>(g, b, v, 0)
                + commitment_log::<E>(g, b, unit(id, v.len() as int), 0) * rho) % q
        }),
{
    let q = E::Scalar::modulus();
    E::Scalar::modulus_bounds();
    let e = unit(id, v.len() as int);
    lemma_commit_combined::<E>(g, b, v, 0, e, 0, rho);
    let c = combined(v, resized(e, v.len() as int), rho, q);
    let u = v.update(id, (v[id] + rho) % q);
    let l = crate::engine::logs::<E>(g);
    let fc = |i: int| c[i] * l[i];
    let fu = |i: int| u[i] * l[i];
    assert forall|i: int| 0 <= i < v.len() implies cong(#[trigger] fc(i), fu(i), q) by {
        if i == id {
            assert(rho * 1 == rho);
        } else {
            assert(rho * 0 == 0) by (nonlinear_arith);
            lemma_cong_mod(v[i], q);
            lemma_cong_mul(c[i], v[i], l[i], l[i], q);
        }
    }
    lemma_sum_cong(fc, fu, v.len() as int, q);
    let h = crate::engine::discrete_log::<E>(b);
    assert((0 + rho * 0) % q == 0) by {
        assert(rho * 0 == 0) by (nonlinear_arith);
        lemma_small_mod(0, q as nat);
    }
    lemma_cong_add(sum(fc, v.len() as int), sum(fu, v.len() as int), 0 * h, 0 * h, q);
}

/// Folded matrices with one coefficient raised.
proof fn lemma_eval_raised(
    s: StructureView,
    lambda: Seq<int>,
    which: int,
    id: int,
    rho: int,
    r_x: Seq<int>,
    r_y: Seq<int>,
    p: int,
)
    requires
        p > 0,
        0 <= id < lambda.len(),
        lambda.len() <= s.len(),
    ensures
        cong(
            s.eval_folded(lambda.update(id, (lambda[id] + rho) % p), which, r_x, r_y),
            s.eval_folded(lambda, which, r_x, r_y) + rho * s.eval_predicate(id, which, r_x, r_y),
            p,
        ),
{
    let u = lambda.update(id, (lambda[id] + rho) % p);
    let mats = s.mats_of(which);
    let (a, b) = (weights(r_x), weights(r_y));
    let n = lambda.len() as int;
    let f = |i: int| lambda[i] * weighted(mats[i], a, b);
    let g = |i: int| u[i] * weighted(mats[i], a, b);
    let w = weighted(mats[id], a, b);
    let raised = |i: int|
        f(i) + (if i == id {
            rho * w
        } else {
            0
        });
    assert forall|i: int| 0 <= i < n implies cong(#[trigger] g(i), raised(i), p) by {
        if i == id {
            lemma_cong_mod(lambda[id] + rho, p);
            lemma_cong_mul(u[id], lambda[id] + rho, w, w, p);
            let l = lambda[id];
            assert((l + rho) * w == l * w + rho * w) by (nonlinear_arith);
        }
    }
    lemma_sum_cong(g, raised, n, p);
    crate::math::lemma_sum_update(f, raised, n, id);
}

/// The extension of a linear combination of two vectors.
proof fn lemma_vector_combined(a: Seq<int>, b: Seq<int>, c: Seq<int>, rho: int, point: Seq<int>, p: int)
    requires
        p > 0,
        a.len() == b.len(),
        c.len() == a.len(),
        forall|i: int| 0 <= i < a.len() ==> #[trigger] c[i] == (a[i] + rho * b[i]) % p,
    ensures
        cong(vector_eval(c, point), vector_eval(a, point) + rho * vector_eval(b, point), p),
{
    let n = a.len() as int;
    let fa = |i: int| a[i] * eq_weight(i, point);
    let fb = |i: int| b[i] * eq_weight(i, point);
    let gb = |i: int| rho * (b[i] * eq_weight(i, point));
    let both = |i: int| fa(i) + gb(i);
    let fc = |i: int| c[i] * eq_weight(i, point);
    assert forall|i: int| 0 <= i < n implies cong(#[trigger] fc(i), both(i), p) by {
        let (x, y, w) = (a[i], b[i], eq_weight(i, point));
        lemma_cong_mod(x + rho * y, p);
        lemma_cong_mul(c[i], x + rho * y, w, w, p);
        assert((x + rho * y) * w == x * w + rho * (y * w)) by (nonlinear_arith);
    }
    lemma_sum_cong(fc, both, n, p);
    lemma_sum_add(fa, gb, both, n);
    lemma_sum_scale(fb, gb, rho, n);
}

/// The points that the prover comes to have as many coordinates as there are rounds.
proof fn lemma_point_len(
    h: spec_fn(Seq<int>) -> int,
    d: nat,
    hash: spec_fn(Seq<int>) -> int,
    p: int,
    num_rounds: nat,
    s: Rounds,
    k: nat,
)
    requires
        s.point.len() == 0,
        s.polys.len() == 0,
    ensures
        ({
            let r = prove_rounds(h, d, hash, p, num_rounds, s, k);
            &&& r.point.len() == k
            &&& r.polys.len() == k
            &&& forall|i: int| 0 <= i < k ==> (#[trigger] r.polys[i]).len() == d
        }),
    decreases k,
{
    if k > 0 {
        lemma_point_len(h, d, hash, p, num_rounds, s, (k - 1) as nat);
    }
}

/// A claim folded from two reduced claims.
proof fn lemma_claim(x: int, y: int, rho: int, z: int, p: int)
    requires
        p > 0,
        cong(z, x + rho * y, p),
    ensures
        z % p == ((x % p) + rho * (y % p)) % p,
{
    lemma_cong_mod(x, p);
    lemma_cong_mod(y, p);
    lemma_cong_mul(rho, rho, y % p, y, p);
    lemma_cong_add(x % p, x, rho * (y % p), rho * y, p);
}

/// The points that the prover comes to have as many coordinates as there are rounds.
pub proof fn lemma_transcript_points<E: CurveEngine>(s: StructureView, start: Seq<int>, id: int, run: Running, z: Seq<int>)
    ensures
        ({
            let t = transcript::<E>(s, start, id, run, z);
            &&& t.result.r_x.len() == s.s_max
            &&& t.result.r_y.len() == s.s_prime_max
            &&& t.proof_.sc_proof_x.point.len() == s.s_max
            &&& t.proof_.sc_proof_y.point.len() == s.s_prime_max
            &&& t.proof_.sc_proof_x.polys.len() == s.s_max
            &&& t.proof_.sc_proof_y.polys.len() == s.s_prime_max
            &&& forall|i: int| 0 <= i < s.s_max ==> (#[trigger] t.proof_.sc_proof_x.polys[i]).len() == 4
            &&& forall|i: int| 0 <= i < s.s_prime_max ==> (#[trigger] t.proof_.sc_proof_y.polys[i]).len() == 3
        }),
{
    let p = E::Base::modulus();
    let o = opening::<E>(s, start);
    lemma_point_len(
        |c: Seq<int>| combine_x(o.gamma, c),
        4,
        hash_of::<E>(),
        p,
        s.s_max,
        Rounds {
            tables: tables_x(s, id, run.r_x, run.r_y, run.lambda, o.alpha, z, p),
            state: o.state,
            point: Seq::empty(),
            polys: Seq::empty(),
        },
        s.s_max,
    );
    let x = proved_x::<E>(s, start, id, run, z);
    let delta = challenge(hash_of::<E>(), x.state);
    lemma_point_len(
        |c: Seq<int>| combine_y(delta, c),
        3,
        hash_of::<E>(),
        p,
        s.s_prime_max,
        Rounds {
            tables: tables_y(s, id, reversed(x.point), run.r_y, run.lambda, run.z, z, p),
            state: seq![hash_of::<E>()(x.state)],
            point: Seq::empty(),
            polys: Seq::empty(),
        },
        s.s_prime_max,
    );
}

/// The claims on folded coefficients and a folded vector are the folded claims.
pub proof fn lemma_claims_folded(
    s: StructureView,
    lambda: Seq<int>,
    id: int,
    rho: int,
    r_x: Seq<int>,
    r_y: Seq<int>,
    zr: Seq<int>,
    zn: Seq<int>,
    z: Seq<int>,
    p: int,
)
    requires
        p > 0,
        0 <= id < lambda.len(),
        lambda.len() <= s.len(),
        zr.len() == zn.len(),
        z.len() == zr.len(),
        forall|i: int| 0 <= i < zr.len() ==> #[trigger] z[i] == (zr[i] + rho * zn[i]) % p,
    ensures
        claims(s, lambda.update(id, (lambda[id] + rho) % p), r_x, r_y, z, p) == combined(
            claims(s, lambda, r_x, r_y, zr, p),
            thetas(s, id, r_x, r_y, zn, p),
            rho,
            p,
        ),
{
    let raised = lambda.update(id, (lambda[id] + rho) % p);
    lemma_eval_raised(s, lambda, 0, id, rho, r_x, r_y, p);
    lemma_eval_raised(s, lambda, 1, id, rho, r_x, r_y, p);
    lemma_eval_raised(s, lambda, 2, id, rho, r_x, r_y, p);
    lemma_vector_combined(zr, zn, z, rho, r_y, p);
    let v = claims(s, raised, r_x, r_y, z, p);
    lemma_claim(
        s.eval_folded(lambda, 0, r_x, r_y),
        s.eval_predicate(id, 0, r_x, r_y),
        rho,
        s.eval_folded(raised, 0, r_x, r_y),
        p,
    );
    lemma_claim(
        s.eval_folded(lambda, 1, r_x, r_y),
        s.eval_predicate(id, 1, r_x, r_y),
        rho,
        s.eval_folded(raised, 1, r_x, r_y),
        p,
    );
    lemma_claim(
        s.eval_folded(lambda, 2, r_x, r_y),
        s.eval_predicate(id, 2, r_x, r_y),
        rho,
        s.eval_folded(raised, 2, r_x, r_y),
        p,
    );
    lemma_claim(vector_eval(zr, r_y), vector_eval(zn, r_y), rho, vector_eval(z, r_y), p);
    let ep = claims(s, lambda, r_x, r_y, zr, p);
    let th = thetas(s, id, r_x, r_y, zn, p);
    assert(combined(ep, th, rho, p) =~= v);
}

/// A folded instance stays satisfied: where the running instance is satisfied by its witness, and the incoming
/// commitment opens to the incoming witness, what the prover comes to is satisfied.
pub proof fn fold_stays_satisfied<E: CurveEngine>(
    s: StructureView,
    ck: E::CommitmentKey,
    pp_digest: int,
    id: int,
    u1: FoldedInstanceView,
    w1: FoldedWitnessView,
    u2: InstanceView,
    w2: WitnessView,
)
    requires
        s.wf(),
        s.committed::<E>(),
        s.num_vars_max <= E::generators(&ck).len(),
        0 <= id < s.len(),
        folded_sat::<E>(s, ck, u1, w1) is Ok,
        w2.W.len() <= s.num_vars_max,
        u2.comm_W == commitment_log::<E>(E::generators(&ck), E::blinding(&ck), w2.W, w2.r_W),
    ensures
        ({
            let f = proved::<E>(s, pp_digest, id, u1, w1, u2, w2);
            folded_sat::<E>(s, ck, f.instance, f.witness) is Ok
        }),
{
    let p = E::Base::modulus();
    let q = E::Scalar::modulus();
    E::Base::modulus_bounds();
    E::Scalar::modulus_bounds();
    let f = proved::<E>(s, pp_digest, id, u1, w1, u2, w2);
    let start = absorbed_inputs::<E>(s, pp_digest, id, u2);
    let zr = folded_z(u1, w1);
    let zn = incoming_z(s, u2, w2, p);
    let t = transcript::<E>(s, start, id, running(u1, w1), zn);
    let rho = t.result.rho;
    let rho_s = rho % q;
    let (u, w) = (f.instance, f.witness);
    let (r_x, r_y) = (t.result.r_x, t.result.r_y);
    lemma_transcript_points::<E>(s, start, id, running(u1, w1), zn);
    assert(lengths_fit(s, u, w));
    // The commitment to the witness.
    lemma_commit_combined::<E>(E::generators(&ck), E::blinding(&ck), w1.W, w1.r_W, w2.W, w2.r_W, rho_s);
    // The commitments to the index.
    assert forall|j: int| 0 <= j < 3 implies #[trigger] u.comm_M[j] == index_commitments::<E>(s, w.lambda_scalar)[j] by {
        assert(s.keys[j].len() >= s.len());
        lemma_commit_raised::<E>(s.keys[j], s.blindings[j], w1.lambda_scalar, id, rho_s);
        assert(u1.comm_M[j] == index_commitments::<E>(s, w1.lambda_scalar)[j]);
        assert(s.comm_M[id][j] == commitment_log::<E>(s.keys[j], s.blindings[j], unit(id, s.len() as int), 0));
    }
    assert(u.comm_M =~= index_commitments::<E>(s, w.lambda_scalar));
    // The claims.
    let z = folded_z(u, w);
    assert forall|i: int| 0 <= i < zr.len() implies #[trigger] z[i] == (zr[i] + rho * zn[i]) % p by {
        let n = s.num_vars_max;
        if i < n {
            assert(z[i] == w.W_proj[i]);
        } else if i == n {
            assert(z[i] == u.u);
            assert(zn[i] == 1);
            assert(rho * 1 == rho);
        } else {
            assert(z[i] == u.X[i - n - 1]);
        }
    }
    lemma_claims_folded(s, w1.lambda_proj, id, rho, r_x, r_y, zr, zn, z, p);
}

/// A commitment to a witness filled up with zeros is the commitment to the witness.
pub(crate) proof fn lemma_commit_resized<E: CurveGroup>(
    g: Seq<crate::engine::PointView>,
    b: crate::engine::PointView,
    v: Seq<int>,
    r: int,
    n: int,
)
    requires
        v.len() <= n <= g.len(),
    ensures
        commitment_log::<E>(g, b, resized(v, n), r) == commitment_log::<E>(g, b, v, r),
{
    let l = crate::engine::logs::<E>(g);
    let w = resized(v, n);
    let k = v.len() as int;
    let f = |i: int| w[i] * l[i];
    let tail = |i: int| f(k + i);
    lemma_sum_split(f, tail, k, n - k);
    assert forall|i: int| 0 <= i < n - k implies #[trigger] tail(i) == 0 by {
        let x = l[k + i];
        assert(0 * x == 0) by (nonlinear_arith);
    }
    lemma_sum_zero(tail, n - k);
    lemma_sum_ext(f, |i: int| v[i] * l[i], k);
}

/// The folded instance that one instance and its witness make up is satisfied, where the commitment of the
/// instance opens to the witness.
pub proof fn first_instance_is_satisfied<E: CurveEngine>(
    s: StructureView,
    ck: E::CommitmentKey,
    id: int,
    u: InstanceView,
    w: WitnessView,
)
    requires
        s.wf(),
        s.committed::<E>(),
        s.num_vars_max <= E::generators(&ck).len(),
        0 <= id < s.len(),
        w.W.len() <= s.num_vars_max,
        u.comm_W == commitment_log::<E>(E::generators(&ck), E::blinding(&ck), w.W, w.r_W),
    ensures
        folded_sat::<E>(
            s,
            ck,
            first_instance(s, id, u, w, E::Base::modulus()),
            first_witness(s, id, w, E::Base::modulus()),
        ) is Ok,
{
    let p = E::Base::modulus();
    let fu = first_instance(s, id, u, w, p);
    let fw = first_witness(s, id, w, p);
    lemma_commit_resized::<E>(E::generators(&ck), E::blinding(&ck), w.W, w.r_W, s.num_vars_max);
    assert forall|j: int| 0 <= j < 3 implies #[trigger] fu.comm_M[j] == index_commitments::<E>(s, fw.lambda_scalar)[j] by {
        assert(s.comm_M[id][j] == commitment_log::<E>(s.keys[j], s.blindings[j], unit(id, s.len() as int), 0));
    }
    assert(s.comm_M[id].len() == 3);
    assert(fu.comm_M =~= index_commitments::<E>(s, fw.lambda_scalar));
    assert(folded_z(fu, fw) =~= incoming_z(s, u, w, p));
}

/// A sum-check proof that is accepted is not accepted with the sums of one round changed, whatever follows
/// in the later rounds: the two sums of a round have to add up to the claim that the rounds before it left.
pub proof fn changed_round_is_rejected(
    points: Seq<int>,
    hash: spec_fn(Seq<int>) -> int,
    p: int,
    state: Seq<int>,
    claim: int,
    a: SumcheckProofView,
    b: SumcheckProofView,
    k: int,
)
    requires
        0 <= k < a.polys.len(),
        a.polys.len() == b.polys.len(),
        forall|i: int| 0 <= i < k ==> #[trigger] a.polys[i] == b.polys[i],
        (a.polys[k][0] + a.polys[k][1]) % p != (b.polys[k][0] + b.polys[k][1]) % p,
        checked_proof(points, hash, p, state, claim, a) is Some,
    ensures
        checked_proof(points, hash, p, state, claim, b) is None,
{
    let start = Check { state, claim, point: Seq::empty() };
    lemma_check_some(points, hash, p, start, a.polys, (k + 1) as nat, a.polys.len());
    crate::sumcheck::lemma_check_prefix(points, hash, p, start, a.polys, b.polys, k as nat);
    if check_rounds(points, hash, p, start, b.polys, b.polys.len()) is Some {
        lemma_check_some(points, hash, p, start, b.polys, (k + 1) as nat, b.polys.len());
    }
}

pub(crate) proof fn lemma_check_some(
    points: Seq<int>,
    hash: spec_fn(Seq<int>) -> int,
    p: int,
    c: Check,
    polys: Seq<Seq<int>>,
    k: nat,
    n: nat,
)
    requires
        k <= n,
        check_rounds(points, hash, p, c, polys, n) is Some,
    ensures
        check_rounds(points, hash, p, c, polys, k) is Some,
    decreases n,
{
    if k < n {
        lemma_check_some(points, hash, p, c, polys, k, (n - 1) as nat);
    }
}

/// On any tables, the sum-check over the rows is accepted for the sum of the tables, and leaves the claim that their
/// extensions give at the point.
pub proof fn sumcheck_over_rows_is_accepted(
    gamma: int,
    tables: Seq<Seq<int>>,
    n: nat,
    hash: spec_fn(Seq<int>) -> int,
    p: int,
    state: Seq<int>,
)
    requires
        good_modulus(p),
        tables_sized(tables, 8, pow2(n) as int),
    ensures
        ({
            let h = |c: Seq<int>| combine_x(gamma, c);
            let begin = Rounds { tables, state, point: Seq::empty(), polys: Seq::empty() };
            let x = prove_rounds(h, 4, hash, p, n, begin, n);
            checked_proof(
                first_points(4),
                hash,
                p,
                state,
                table_sum(h, tables, pow2(n) as int) % p,
                SumcheckProofView { point: x.point, polys: x.polys },
            ) == Some(
                Check {
                    state: x.state,
                    claim: combine_x(gamma, Seq::new(8, |j: int| mle(tables[j], reversed(x.point)))) % p,
                    point: x.point,
                },
            )
        }),
{
    let h = |c: Seq<int>| combine_x(gamma, c);
    let begin = Rounds { tables, state, point: Seq::empty(), polys: Seq::empty() };
    lemma_combine_x_low_degree(gamma, p);
    lemma_rounds(h, 4, hash, p, 8, n, begin, table_sum(h, tables, pow2(n) as int) % p, n);
    lemma_final_column(h, 4, hash, p, 8, n, begin);
    assert(pow2(0) == 1) by {
        vstd::arithmetic::power2::lemma2_to64();
    }
}

} // verus!
