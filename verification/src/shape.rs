//! From a constraint system to the shape of it, and to an instance and a witness of that shape.
use crate::cs::{
    lc_eval, Assignment, Constraint, ConstraintSystem, ConstraintView, CsView, LcView, LinearCombination, Variable,
};
use crate::engine::{commitment_log, vals, CurveEngine, CurveGroup};
use crate::errors::{NovaError, UnSatReason};
use crate::field::FieldElement;
use crate::math::{cong, lemma_ceil_log2, lemma_cong_mul, lemma_sum_ext, lemma_sum_zero, max, sum};
use crate::matrix::{at, row_sum, row_term, values};
use crate::r1cs::{
    entries, entries_fit, shifted, Entries, InstanceView, R1CSInstance, R1CSShape, R1CSWitness, ShapeView,
    WitnessView,
};
use crate::relation::{copy_vec, corner, matrix_corner, reduced_entries, resize, resized};
use crate::layout::{first_is_free, without_first, Layout};
use vstd::prelude::*;

verus! {

/// The column of a variable behind `n` others: the constant and the public values come last.
pub open spec fn col_of(v: Variable, n: int) -> int {
    match v {
        Variable::Input(i) => n + i,
        Variable::Aux(i) => i as int,
    }
}

/// The entries of a row from the first `k` terms of a combination; a term without weight has none.
pub open spec fn lc_entries(lc: LcView, row: int, n: int, k: int) -> Entries
    decreases k,
{
    if k <= 0 {
        Seq::empty()
    } else if lc[k - 1].1 == 0 {
        lc_entries(lc, row, n, k - 1)
    } else {
        lc_entries(lc, row, n, k - 1).push((row, col_of(lc[k - 1].0, n), lc[k - 1].1))
    }
}

/// The entries of the first `k` rows.
pub open spec fn stacked(lcs: Seq<LcView>, n: int, k: int) -> Entries
    decreases k,
{
    if k <= 0 {
        Seq::empty()
    } else {
        stacked(lcs, n, k - 1) + lc_entries(lcs[k - 1], k - 1, n, lcs[k - 1].len() as int)
    }
}

/// One of the three combinations of every constraint.
pub open spec fn column_of(constraints: Seq<ConstraintView>, j: int) -> Seq<LcView> {
    Seq::new(
        constraints.len(),
        |i: int|
            if j == 0 {
                constraints[i].a
            } else if j == 1 {
                constraints[i].b
            } else {
                constraints[i].c
            },
    )
}

/// The shape of a layout.
pub open spec fn laid_shape(l: Layout) -> ShapeView {
    let m = l.constraints.len() as int;
    ShapeView {
        num_cons: m,
        num_vars: l.aux,
        num_io: l.inputs - 1,
        mats: seq![
            stacked(column_of(l.constraints, 0), l.aux, m),
            stacked(column_of(l.constraints, 1), l.aux, m),
            stacked(column_of(l.constraints, 2), l.aux, m),
        ],
    }
}

/// The shape of a constraint system.
pub open spec fn shape_of(cs: CsView) -> ShapeView {
    laid_shape(cs.layout())
}

/// The vector of a witness, the constant and the public values.
pub open spec fn full_vector(W: Seq<int>, u: int, X: Seq<int>) -> Seq<int> {
    W + seq![u] + X
}

/// Whether a vector satisfies every row of a shape.
pub open spec fn rows_hold(s: ShapeView, z: Seq<int>, p: int) -> bool {
    forall|r: int|
        0 <= r < s.num_cons ==> cong(
            #[trigger] row_sum(s.mats[0], r, values(z)) * row_sum(s.mats[1], r, values(z)),
            row_sum(s.mats[2], r, values(z)),
            p,
        )
}

/// A sum of rows, where entries are appended.
proof fn lemma_row_sum_append(a: Entries, b: Entries, row: int, w: spec_fn(int) -> int)
    ensures
        row_sum(a + b, row, w) == row_sum(a, row, w) + row_sum(b, row, w),
    decreases b.len(),
{
    let f = |k: int| row_term((a + b)[k], row, w);
    let g = |k: int| row_term(a[k], row, w);
    let h = |k: int| row_term(b[k], row, w);
    if b.len() == 0 {
        assert(a + b =~= a);
    } else {
        let c = b.drop_last();
        lemma_row_sum_append(a, c, row, w);
        let n = (a + b).len() as int;
        let f2 = |k: int| row_term((a + c)[k], row, w);
        let h2 = |k: int| row_term(c[k], row, w);
        lemma_sum_ext(f, f2, n - 1);
        lemma_sum_ext(h, h2, c.len() as int);
        assert(f(n - 1) == h(b.len() - 1));
    }
}

/// The sum of a row from the first terms of a combination is their value, in the row that they make up.
proof fn lemma_row_of_terms(lc: LcView, row: int, n: int, k: int, r: int, z: Seq<int>, x: Assignment)
    requires
        0 <= k <= lc.len(),
        forall|i: int| 0 <= i < lc.len() ==> at(z, col_of((#[trigger] lc[i]).0, n)) == x.get(lc[i].0),
    ensures
        row_sum(lc_entries(lc, row, n, k), r, values(z)) == if r == row {
            sum(|i: int| lc[i].1 * x.get(lc[i].0), k)
        } else {
            0
        },
    decreases k,
{
    let w = values(z);
    let f = |i: int| lc[i].1 * x.get(lc[i].0);
    if k > 0 {
        lemma_row_of_terms(lc, row, n, k - 1, r, z, x);
        let t = lc[k - 1];
        let rest = lc_entries(lc, row, n, k - 1);
        if t.1 == 0 {
            assert(f(k - 1) == 0) by {
                assert(0 * x.get(t.0) == 0);
            }
        } else {
            let e = (row, col_of(t.0, n), t.1);
            let all = rest.push(e);
            let g = |i: int| row_term(all[i], r, w);
            let h = |i: int| row_term(rest[i], r, w);
            lemma_sum_ext(g, h, rest.len() as int);
            assert(all[rest.len() as int] == e);
            assert(w(e.1) == x.get(t.0));
        }
    }
}

/// In a stack of rows, the sum of a row is the value of its combination.
proof fn lemma_row_of_stack(lcs: Seq<LcView>, n: int, k: int, r: int, z: Seq<int>, x: Assignment)
    requires
        0 <= k <= lcs.len(),
        0 <= r < lcs.len(),
        forall|i: int, j: int|
            0 <= i < lcs.len() && 0 <= j < lcs[i].len() ==> at(z, col_of((#[trigger] lcs[i][j]).0, n)) == x.get(
                lcs[i][j].0,
            ),
    ensures
        row_sum(stacked(lcs, n, k), r, values(z)) == if r < k {
            lc_eval(lcs[r], x)
        } else {
            0
        },
    decreases k,
{
    if k > 0 {
        lemma_row_of_stack(lcs, n, k - 1, r, z, x);
        let lc = lcs[k - 1];
        let m = lc.len() as int;
        lemma_row_of_terms(lc, k - 1, n, m, r, z, x);
        lemma_row_sum_append(stacked(lcs, n, k - 1), lc_entries(lc, k - 1, n, m), r, values(z));
    }
}

/// The values given satisfy a constraint system just where they satisfy the rows of its shape.
pub proof fn shape_agrees_with_system(cs: CsView)
    requires
        cs.wf(),
    ensures
        cs.satisfied() == rows_hold(shape_of(cs), full_vector(cs.aux, 1, cs.inputs.skip(1)), cs.p),
{
    reveal(CsView::wf);
    reveal(CsView::holds);
    let x = cs.own();
    let n = cs.aux.len() as int;
    let m = cs.constraints.len() as int;
    let z = full_vector(cs.aux, 1, cs.inputs.skip(1));
    let s = shape_of(cs);
    assert forall|j: int, r: int|
        0 <= j < 3 && 0 <= r < m implies #[trigger] row_sum(s.mats[j], r, values(z)) == lc_eval(
        column_of(cs.constraints, j)[r],
        x,
    ) by {
        let lcs = column_of(cs.constraints, j);
        assert forall|i: int, k: int| 0 <= i < lcs.len() && 0 <= k < lcs[i].len() implies at(
            z,
            col_of((#[trigger] lcs[i][k]).0, n),
        ) == x.get(lcs[i][k].0) by {
            assert(cs.constraints[i].within(cs.inputs.len() as int, n));
            let t = lcs[i][k];
            assert(crate::cs::var_within(t.0, cs.inputs.len() as int, n));
            match t.0 {
                Variable::Input(q) => {
                    assert(z[n + q] == cs.inputs[q as int]);
                },
                Variable::Aux(q) => {
                    assert(z[q as int] == cs.aux[q as int]);
                },
            }
        }
        lemma_row_of_stack(lcs, n, m, r, z, x);
    }
    if cs.satisfied() {
        assert forall|r: int| 0 <= r < s.num_cons implies cong(
            #[trigger] row_sum(s.mats[0], r, values(z)) * row_sum(s.mats[1], r, values(z)),
            row_sum(s.mats[2], r, values(z)),
            cs.p,
        ) by {
            assert(cs.constraints[r].sat(x, cs.p));
        }
    }
    if rows_hold(s, z, cs.p) {
        assert forall|r: int| 0 <= r < m implies (#[trigger] cs.constraints[r]).sat(x, cs.p) by {
            let a = row_sum(s.mats[0], r, values(z));
            assert(row_sum(s.mats[1], r, values(z)) == lc_eval(cs.constraints[r].b, x));
            assert(row_sum(s.mats[2], r, values(z)) == lc_eval(cs.constraints[r].c, x));
        }
    }
}

/// The shape of a system lies within its sizes.
pub proof fn lemma_shape_fits(cs: CsView)
    requires
        cs.wf(),
    ensures
        shape_of(cs).wf(),
{
    reveal(CsView::wf);
    let n = cs.aux.len() as int;
    let m = cs.constraints.len() as int;
    let cols = n + cs.inputs.len();
    assert forall|j: int| 0 <= j < 3 implies entries_fit(#[trigger] shape_of(cs).mats[j], m, cols) by {
        let lcs = column_of(cs.constraints, j);
        assert forall|i: int| 0 <= i < lcs.len() implies crate::cs::lc_within(
            #[trigger] lcs[i],
            cs.inputs.len() as int,
            n,
        ) by {
            assert(cs.constraints[i].within(cs.inputs.len() as int, n));
        }
        lemma_stack_fits(lcs, n, cs.inputs.len() as int, m);
    }
}

proof fn lemma_terms_fit(lc: LcView, row: int, n: int, inputs: int, k: int, rows: int)
    requires
        0 <= k <= lc.len(),
        0 <= row < rows,
        0 <= n,
        0 <= inputs,
        crate::cs::lc_within(lc, inputs, n),
    ensures
        entries_fit(lc_entries(lc, row, n, k), rows, n + inputs),
    decreases k,
{
    if k > 0 {
        lemma_terms_fit(lc, row, n, inputs, k - 1, rows);
        assert(crate::cs::var_within(lc[k - 1].0, inputs, n));
    }
}

proof fn lemma_stack_fits(lcs: Seq<LcView>, n: int, inputs: int, k: int)
    requires
        0 <= k <= lcs.len(),
        0 <= n,
        0 <= inputs,
        forall|i: int| 0 <= i < lcs.len() ==> crate::cs::lc_within(#[trigger] lcs[i], inputs, n),
    ensures
        entries_fit(stacked(lcs, n, k), k, n + inputs),
    decreases k,
{
    if k > 0 {
        lemma_stack_fits(lcs, n, inputs, k - 1);
        let lc = lcs[k - 1];
        lemma_terms_fit(lc, k - 1, n, inputs, lc.len() as int, k);
    }
}

/// Whether the columns of a combination are machine integers.
pub open spec fn cols_fit(lc: LcView, n: int) -> bool {
    forall|i: int| 0 <= i < lc.len() ==> col_of((#[trigger] lc[i]).0, n) <= usize::MAX
}

/// Appends the row that a combination makes up.
fn add_row<F: FieldElement>(m: &mut Vec<(usize, usize, F)>, row: usize, num_vars: usize, lc: &LinearCombination<F>)
    requires
        cols_fit(lc@, num_vars as int),
    ensures
        entries(final(m)@) == entries(old(m)@) + lc_entries(lc@, row as int, num_vars as int, lc@.len() as int),
{
    let ghost start = entries(m@);
    let ghost n = num_vars as int;
    let zero = F::from_u64(0);
    let mut i: usize = 0;
    assert(start =~= start + lc_entries(lc@, row as int, n, 0));
    while i < lc.terms.len()
        invariant
            i <= lc.terms.len(),
            zero.val() == 0,
            n == num_vars,
            cols_fit(lc@, n),
            entries(m@) == start + lc_entries(lc@, row as int, n, i as int),
        decreases lc.terms.len() - i,
    {
        let (v, c) = lc.terms[i];
        assert(lc@[i as int] == (v, c.val()));
        if !c.equals(&zero) {
            let col: usize = match v {
                Variable::Input(k) => k + num_vars,
                Variable::Aux(k) => k,
            };
            let ghost so_far = m@;
            m.push((row, col, c));
            assert(entries(m@) =~= entries(so_far).push((row as int, col as int, c.val())));
        }
        i = i + 1;
        assert(entries(m@) =~= start + lc_entries(lc@, row as int, n, i as int));
    }
}

/// Appends the rows of a constraint.
fn add_shape_constraint<F: FieldElement>(
    A: &mut Vec<(usize, usize, F)>,
    B: &mut Vec<(usize, usize, F)>,
    C: &mut Vec<(usize, usize, F)>,
    row: usize,
    num_vars: usize,
    constraint: &Constraint<F>,
)
    requires
        cols_fit(constraint@.a, num_vars as int),
        cols_fit(constraint@.b, num_vars as int),
        cols_fit(constraint@.c, num_vars as int),
    ensures
        entries(final(A)@) == entries(old(A)@) + lc_entries(
            constraint@.a,
            row as int,
            num_vars as int,
            constraint@.a.len() as int,
        ),
        entries(final(B)@) == entries(old(B)@) + lc_entries(
            constraint@.b,
            row as int,
            num_vars as int,
            constraint@.b.len() as int,
        ),
        entries(final(C)@) == entries(old(C)@) + lc_entries(
            constraint@.c,
            row as int,
            num_vars as int,
            constraint@.c.len() as int,
        ),
{
    add_row(A, row, num_vars, &constraint.a);
    add_row(B, row, num_vars, &constraint.b);
    add_row(C, row, num_vars, &constraint.c);
}

/// The shape of a constraint system.
pub fn shape_cs_to_shape<E: CurveGroup>(cs: &ConstraintSystem<E::Scalar>) -> (r: R1CSShape<E>)
    requires
        cs@.wf(),
        cs@.inputs.len() + cs@.aux.len() <= usize::MAX,
    ensures
        r@ == shape_of(cs@),
        r@.wf(),
{
    let ghost v = cs@;
    let num_vars = cs.num_aux();
    let num_inputs = cs.num_inputs();
    let num_constraints = cs.num_constraints();
    let mut A: Vec<(usize, usize, E::Scalar)> = Vec::new();
    let mut B: Vec<(usize, usize, E::Scalar)> = Vec::new();
    let mut C: Vec<(usize, usize, E::Scalar)> = Vec::new();
    let mut i: usize = 0;
    let ghost n = num_vars as int;
    let ghost (ca, cb, cc) = (column_of(v.constraints, 0), column_of(v.constraints, 1), column_of(v.constraints, 2));
    proof {
        reveal(CsView::wf);
        assert(entries(A@) =~= stacked(ca, n, 0));
        assert(entries(B@) =~= stacked(cb, n, 0));
        assert(entries(C@) =~= stacked(cc, n, 0));
    }
    while i < cs.constraints.len()
        invariant
            i <= cs.constraints.len(),
            v == cs@,
            n == num_vars,
            v.wf(),
            v.inputs.len() + v.aux.len() <= usize::MAX,
            n == v.aux.len(),
            ca == column_of(v.constraints, 0),
            cb == column_of(v.constraints, 1),
            cc == column_of(v.constraints, 2),
            entries(A@) == stacked(ca, n, i as int),
            entries(B@) == stacked(cb, n, i as int),
            entries(C@) == stacked(cc, n, i as int),
        decreases cs.constraints.len() - i,
    {
        proof {
            reveal(CsView::wf);
            let k = v.constraints[i as int];
            assert(k == cs.constraints@[i as int]@);
            assert(k.within(v.inputs.len() as int, n));
            assert(cols_fit(k.a, n)) by {
                assert forall|j: int| 0 <= j < k.a.len() implies col_of((#[trigger] k.a[j]).0, n) <= usize::MAX by {
                    assert(crate::cs::var_within(k.a[j].0, v.inputs.len() as int, n));
                }
            }
            assert(cols_fit(k.b, n)) by {
                assert forall|j: int| 0 <= j < k.b.len() implies col_of((#[trigger] k.b[j]).0, n) <= usize::MAX by {
                    assert(crate::cs::var_within(k.b[j].0, v.inputs.len() as int, n));
                }
            }
            assert(cols_fit(k.c, n)) by {
                assert forall|j: int| 0 <= j < k.c.len() implies col_of((#[trigger] k.c[j]).0, n) <= usize::MAX by {
                    assert(crate::cs::var_within(k.c[j].0, v.inputs.len() as int, n));
                }
            }
        }
        add_shape_constraint(&mut A, &mut B, &mut C, i, num_vars, &cs.constraints[i]);
        i = i + 1;
    }
    proof {
        reveal(CsView::wf);
        lemma_shape_fits(v);
    }
    let r = R1CSShape { num_cons: num_constraints, num_vars, num_io: num_inputs - 1, A, B, C };
    assert(r@.mats =~= shape_of(v).mats);
    r
}

/// The product of a matrix and a vector.
fn multiply<F: FieldElement>(m: &Vec<(usize, usize, F)>, z: &Vec<F>, rows: usize) -> (r: Vec<F>)
    requires
        entries_fit(entries(m@), rows as int, z@.len() as int),
    ensures
        r@.len() == rows,
        forall|k: int| 0 <= k < rows ==> (#[trigger] r@[k]).val() == row_sum(entries(m@), k, values(vals(z@)))
            % F::modulus(),
{
    let ghost p = F::modulus();
    let ghost e = entries(m@);
    let ghost w = values(vals(z@));
    let mut r: Vec<F> = crate::relation::zeros(rows);
    let mut i: usize = 0;
    proof {
        F::modulus_bounds();
        assert(vals(r@).len() == rows);
        assert forall|k: int| 0 <= k < rows implies (#[trigger] r@[k]).val() == row_sum(e.take(0), k, w) % p by {
            assert(vals(r@)[k] == 0);
            vstd::arithmetic::div_mod::lemma_small_mod(0, p as nat);
        }
    }
    while i < m.len()
        invariant
            i <= m.len(),
            p == F::modulus(),
            p > 1,
            e == entries(m@),
            w == values(vals(z@)),
            entries_fit(e, rows as int, z@.len() as int),
            r@.len() == rows,
            forall|k: int| 0 <= k < rows ==> (#[trigger] r@[k]).val() == row_sum(e.take(i as int), k, w) % p,
        decreases m.len() - i,
    {
        let (row, col, val) = m[i];
        let ghost old_r = r@;
        assert(e[i as int] == (row as int, col as int, val.val()));
        let term = val.mul(&z[col]);
        let sum_ = r[row].add(&term);
        r[row] = sum_;
        proof {
            let a = e.take(i as int);
            let b = e.take(i + 1);
            assert(b =~= a + seq![e[i as int]]);
            assert forall|k: int| 0 <= k < rows implies (#[trigger] r@[k]).val() == row_sum(b, k, w) % p by {
                let one = seq![e[i as int]];
                lemma_row_sum_append(a, one, k, w);
                let f = |j: int| row_term(one[j], k, w);
                assert(sum(f, 1) == sum(f, 0) + f(0));
                assert(old_r[k].val() == row_sum(a, k, w) % p);
                if k == row {
                    let t = val.val() * z@[col as int].val();
                    assert(w(col as int) == z@[col as int].val());
                    crate::math::lemma_cong_mod(row_sum(a, k, w), p);
                    crate::math::lemma_cong_mod(t, p);
                    crate::math::lemma_cong_add(old_r[k].val(), row_sum(a, k, w), t % p, t, p);
                }
            }
        }
        i = i + 1;
    }
    assert(e.take(m.len() as int) =~= e);
    r
}

/// What checking an instance against its witness returns.
pub open spec fn r1cs_sat<E: CurveEngine>(s: ShapeView, ck: E::CommitmentKey, u: InstanceView, w: WitnessView) -> Result<
    (),
    NovaError,
> {
    if w.W.len() != s.num_vars {
        Err(NovaError::InvalidWitnessLength)
    } else if u.X.len() != s.num_io {
        Err(NovaError::InvalidInputLength)
    } else if !rows_hold(s, full_vector(w.W, 1, u.X), E::Scalar::modulus()) {
        Err(NovaError::UnSat { reason: UnSatReason::Constraints })
    } else if u.comm_W != commitment_log::<E>(E::generators(&ck), E::blinding(&ck), w.W, w.r_W) {
        Err(NovaError::UnSat { reason: UnSatReason::Commitment })
    } else {
        Ok(())
    }
}

/// The vector of a witness, an element and public values.
pub(crate) fn join<F: FieldElement>(W: &Vec<F>, u: &F, X: &Vec<F>) -> (r: Vec<F>)
    ensures
        vals(r@) == full_vector(vals(W@), u.val(), vals(X@)),
{
    let mut r: Vec<F> = copy_vec(W);
    r.push(*u);
    let ghost start = r@;
    let mut i: usize = 0;
    while i < X.len()
        invariant
            i <= X.len(),
            r@ == start + X@.take(i as int),
        decreases X.len() - i,
    {
        r.push(X[i]);
        assert(X@.take(i + 1) =~= X@.take(i as int).push(X@[i as int]));
        i = i + 1;
    }
    assert(X@.take(X@.len() as int) =~= X@);
    proof {
        let got = vals(r@);
        let want = full_vector(vals(W@), u.val(), vals(X@));
        let n = W@.len() as int;
        assert(start.len() == n + 1 && start[n] == *u);
        assert forall|k: int| 0 <= k < got.len() implies got[k] == want[k] by {
            if k < n {
                assert(vals(start.take(n))[k] == vals(W@)[k]);
            } else if k > n {
                assert(r@[k] == X@[k - n - 1]);
            }
        }
        assert(got =~= want);
    }
    r
}

impl<E: CurveEngine> R1CSShape<E> {
    /// Whether a vector satisfies every row.
    fn rows_are_satisfied(&self, z: &Vec<E::Scalar>) -> (r: bool)
        requires
            self@.wf(),
            z@.len() == self@.num_vars + 1 + self@.num_io,
        ensures
            r == rows_hold(self@, vals(z@), E::Scalar::modulus()),
    {
        let ghost p = E::Scalar::modulus();
        let ghost w = values(vals(z@));
        let ghost s = self@;
        proof {
            assert(entries_fit(s.mats[0], s.num_cons, s.num_vars + 1 + s.num_io));
            assert(entries_fit(s.mats[1], s.num_cons, s.num_vars + 1 + s.num_io));
            assert(entries_fit(s.mats[2], s.num_cons, s.num_vars + 1 + s.num_io));
            E::Scalar::modulus_bounds();
        }
        let az = multiply(&self.A, z, self.num_cons);
        let bz = multiply(&self.B, z, self.num_cons);
        let cz = multiply(&self.C, z, self.num_cons);
        let mut i: usize = 0;
        while i < self.num_cons
            invariant
                i <= self.num_cons,
                p == E::Scalar::modulus(),
                p > 1,
                s == self@,
                w == values(vals(z@)),
                az@.len() == self.num_cons && bz@.len() == self.num_cons && cz@.len() == self.num_cons,
                forall|k: int| 0 <= k < s.num_cons ==> (#[trigger] az@[k]).val() == row_sum(s.mats[0], k, w) % p,
                forall|k: int| 0 <= k < s.num_cons ==> (#[trigger] bz@[k]).val() == row_sum(s.mats[1], k, w) % p,
                forall|k: int| 0 <= k < s.num_cons ==> (#[trigger] cz@[k]).val() == row_sum(s.mats[2], k, w) % p,
                forall|k: int|
                    0 <= k < i ==> cong(
                        #[trigger] row_sum(s.mats[0], k, w) * row_sum(s.mats[1], k, w),
                        row_sum(s.mats[2], k, w),
                        p,
                    ),
            decreases self.num_cons - i,
        {
            let prod = az[i].mul(&bz[i]);
            let same = prod.equals(&cz[i]);
            proof {
                let (a, b, c) = (
                    row_sum(s.mats[0], i as int, w),
                    row_sum(s.mats[1], i as int, w),
                    row_sum(s.mats[2], i as int, w),
                );
                assert(az@[i as int].val() == a % p && bz@[i as int].val() == b % p && cz@[i as int].val() == c % p);
                crate::math::lemma_cong_mod(a, p);
                crate::math::lemma_cong_mod(b, p);
                lemma_cong_mul(a % p, a, b % p, b, p);
                assert(same == cong(a * b, c, p));
            }
            if !same {
                return false;
            }
            i = i + 1;
        }
        true
    }

    /// Checks an instance against its witness.
    pub fn is_sat(&self, ck: &E::CommitmentKey, U: &R1CSInstance<E>, W: &R1CSWitness<E>) -> (r: Result<(), NovaError>)
        requires
            self@.wf(),
            self@.num_vars <= E::generators(ck).len(),
        ensures
            r == r1cs_sat::<E>(self@, *ck, U@, W@),
    {
        if W.W.len() != self.num_vars {
            return Err(NovaError::InvalidWitnessLength);
        }
        if U.X.len() != self.num_io {
            return Err(NovaError::InvalidInputLength);
        }
        let z = join(&W.W, &E::Scalar::from_u64(1), &U.X);
        proof {
            assert(vals(z@).len() == z@.len());
        }
        let res_eq = self.rows_are_satisfied(&z);
        let comm_W = E::commit(ck, &W.W, &W.r_W);
        let res_comm = U.comm_W.equals(&comm_W);
        if !res_eq {
            return Err(NovaError::UnSat { reason: UnSatReason::Constraints });
        }
        if !res_comm {
            return Err(NovaError::UnSat { reason: UnSatReason::Commitment });
        }
        Ok(())
    }
}

/// The instance that a system makes up, with the given commitment to its witness.
pub open spec fn system_instance(cs: CsView, comm_W: int) -> InstanceView {
    InstanceView { comm_W, X: cs.inputs.skip(1) }
}

/// The witness that a system makes up, brought to the length of a shape.
pub open spec fn system_witness(cs: CsView, s: ShapeView, r_W: int) -> WitnessView {
    WitnessView { W: resized(cs.aux, s.num_vars), r_W }
}

/// The instance and the witness of a shape that a system makes up, the commitment blinded by `r_W`.
pub fn instance_and_witness<E: CurveEngine>(
    cs: &ConstraintSystem<E::Scalar>,
    shape: &R1CSShape<E>,
    ck: &E::CommitmentKey,
    r_W: &E::Scalar,
) -> (r: Result<(R1CSInstance<E>, R1CSWitness<E>), NovaError>)
    requires
        cs@.inputs.len() >= 1,
        shape@.num_vars <= E::generators(ck).len(),
    ensures
        match r {
            Ok((u, w)) => {
                &&& cs@.inputs.len() - 1 == shape@.num_io
                &&& w@ == system_witness(cs@, shape@, r_W.val())
                &&& u@ == system_instance(
                    cs@,
                    commitment_log::<E>(E::generators(ck), E::blinding(ck), w@.W, r_W.val()),
                )
            },
            Err(e) => e == NovaError::InvalidInputLength && cs@.inputs.len() - 1 != shape@.num_io,
        },
{
    let W = resize(&cs.aux, shape.num_vars);
    proof {
        assert(vals(W@).len() == shape.num_vars);
    }
    let comm_W = E::commit(ck, &W, r_W);
    let mut X: Vec<E::Scalar> = Vec::new();
    let mut i: usize = 1;
    while i < cs.inputs.len()
        invariant
            1 <= i <= cs.inputs.len(),
            X@.len() == i - 1,
            forall|k: int| 0 <= k < i - 1 ==> #[trigger] X@[k] == cs.inputs@[k + 1],
        decreases cs.inputs.len() - i,
    {
        X.push(cs.inputs[i]);
        i = i + 1;
    }
    assert(vals(X@) =~= cs@.inputs.skip(1));
    if X.len() != shape.num_io {
        return Err(NovaError::InvalidInputLength);
    }
    Ok((R1CSInstance { comm_W, X }, R1CSWitness { W, r_W: *r_W }))
}

/// The instance and the witness of a shape that a system makes up, the commitment blinded at random.
pub fn r1cs_instance_and_witness<E: CurveEngine>(
    cs: &ConstraintSystem<E::Scalar>,
    shape: &R1CSShape<E>,
    ck: &E::CommitmentKey,
) -> (r: Result<(R1CSInstance<E>, R1CSWitness<E>), NovaError>)
    requires
        cs@.inputs.len() >= 1,
        shape@.num_vars <= E::generators(ck).len(),
    ensures
        match r {
            Ok((u, w)) => {
                &&& cs@.inputs.len() - 1 == shape@.num_io
                &&& w@ == system_witness(cs@, shape@, w@.r_W)
                &&& u@ == system_instance(
                    cs@,
                    commitment_log::<E>(E::generators(ck), E::blinding(ck), w@.W, w@.r_W),
                )
            },
            Err(e) => e == NovaError::InvalidInputLength && cs@.inputs.len() - 1 != shape@.num_io,
        },
{
    let r_W = E::random_scalar();
    instance_and_witness(cs, shape, ck, &r_W)
}

/// The instance and the witness that a satisfied system makes up satisfy its shape.
pub proof fn system_satisfies_its_shape<E: CurveEngine>(cs: CsView, ck: E::CommitmentKey, r_W: int)
    requires
        cs.wf(),
        cs.p == E::Scalar::modulus(),
    ensures
        ({
            let s = shape_of(cs);
            let w = system_witness(cs, s, r_W);
            let u = system_instance(
                cs,
                commitment_log::<E>(E::generators(&ck), E::blinding(&ck), w.W, r_W),
            );
            r1cs_sat::<E>(s, ck, u, w) is Ok <==> cs.satisfied()
        }),
{
    reveal(CsView::wf);
    let s = shape_of(cs);
    let w = system_witness(cs, s, r_W);
    assert(w.W =~= cs.aux);
    shape_agrees_with_system(cs);
}

/// The sum of a row does not change where the columns behind the variables are moved up with the vector.
proof fn lemma_row_shifted(m: Entries, from: int, by: int, row: int, z: Seq<int>, t: Seq<int>)
    requires
        0 <= by,
        0 <= from <= z.len(),
        t.len() == z.len() + by,
        forall|i: int| 0 <= i < from ==> t[i] == z[i],
        forall|i: int| from <= i < z.len() ==> t[i + by] == z[i],
        forall|k: int| 0 <= k < m.len() ==> 0 <= (#[trigger] m[k]).1 < z.len(),
    ensures
        row_sum(shifted(m, from, by), row, values(t)) == row_sum(m, row, values(z)),
{
    let f = |k: int| row_term(shifted(m, from, by)[k], row, values(t));
    let g = |k: int| row_term(m[k], row, values(z));
    assert forall|k: int| 0 <= k < m.len() implies #[trigger] f(k) == g(k) by {
        let e = m[k];
        assert(0 <= e.1 < z.len());
        if e.1 >= from {
            assert(t[e.1 + by] == z[e.1]);
        }
    }
    crate::math::lemma_sum_ext(f, g, m.len() as int);
}

/// A row without entries sums to zero.
proof fn lemma_row_empty(m: Entries, rows: int, row: int, w: spec_fn(int) -> int)
    requires
        forall|k: int| 0 <= k < m.len() ==> (#[trigger] m[k]).0 < rows,
        row >= rows,
    ensures
        row_sum(m, row, w) == 0,
{
    let f = |k: int| row_term(m[k], row, w);
    assert forall|k: int| 0 <= k < m.len() implies #[trigger] f(k) == 0 by {
        assert(m[k].0 < rows);
    }
    crate::math::lemma_sum_zero(f, m.len() as int);
}

/// What satisfies a shape satisfies the padded shape, the witness filled up with zeros.
pub proof fn padding_keeps_rows(s: ShapeView, W: Seq<int>, X: Seq<int>, p: int)
    requires
        s.wf(),
        W.len() == s.num_vars,
        X.len() == s.num_io,
        rows_hold(s, full_vector(W, 1, X), p),
    ensures
        rows_hold(s.pad(), full_vector(resized(W, s.pad().num_vars), 1, X), p),
{
    let z = full_vector(W, 1, X);
    let pad = s.pad();
    let t = full_vector(resized(W, pad.num_vars), 1, X);
    crate::r1cs::lemma_pad(s);
    if s.is_regular() {
        assert(resized(W, pad.num_vars) =~= W);
    } else {
        let by = pad.num_vars - s.num_vars;
        assert forall|i: int| s.num_vars <= i < z.len() implies t[i + by] == z[i] by {
            if i > s.num_vars {
                assert(z[i] == X[i - s.num_vars - 1]);
                assert(t[i + by] == X[i + by - pad.num_vars - 1]);
            }
        }
        assert forall|r: int| 0 <= r < pad.num_cons implies cong(
            #[trigger] row_sum(pad.mats[0], r, values(t)) * row_sum(pad.mats[1], r, values(t)),
            row_sum(pad.mats[2], r, values(t)),
            p,
        ) by {
            assert forall|j: int| 0 <= j < 3 implies row_sum(#[trigger] pad.mats[j], r, values(t)) == row_sum(
                s.mats[j],
                r,
                values(z),
            ) by {
                assert(entries_fit(s.mats[j], s.num_cons, s.num_vars + 1 + s.num_io));
                assert(pad.mats[j] == shifted(s.mats[j], s.num_vars, by));
                lemma_row_shifted(s.mats[j], s.num_vars, by, r, z, t);
            }
            assert(pad.mats[0] == shifted(s.mats[0], s.num_vars, by));
            assert(pad.mats[1] == shifted(s.mats[1], s.num_vars, by));
            assert(pad.mats[2] == shifted(s.mats[2], s.num_vars, by));
            if r >= s.num_cons {
                assert forall|j: int| 0 <= j < 3 implies row_sum(#[trigger] s.mats[j], r, values(z)) == 0 by {
                    assert(entries_fit(s.mats[j], s.num_cons, s.num_vars + 1 + s.num_io));
                    lemma_row_empty(s.mats[j], s.num_cons, r, values(z));
                }
                assert(row_sum(s.mats[0], r, values(z)) == 0);
                assert(row_sum(s.mats[1], r, values(z)) == 0);
                assert(row_sum(s.mats[2], r, values(z)) == 0);
                assert(0 * 0 == 0);
            }
        }
    }
}

/// The entries of a row are in that row, and not in the first column where the first variable has no part in it.
proof fn lemma_row_entries(lc: LcView, row: int, n: int, k: int)
    requires
        n > 0,
        k <= lc.len(),
    ensures
        forall|i: int| 0 <= i < lc_entries(lc, row, n, k).len() ==> (#[trigger] lc_entries(lc, row, n, k)[i]).0 == row,
        without_first(lc) ==> forall|i: int|
            0 <= i < lc_entries(lc, row, n, k).len() ==> (#[trigger] lc_entries(lc, row, n, k)[i]).1 != 0,
    decreases k,
{
    if k > 0 {
        lemma_row_entries(lc, row, n, k - 1);
        let v = lc[k - 1].0;
        if without_first(lc) {
            assert(v != Variable::Aux(0));
            assert(col_of(v, n) != 0);
        }
        let (before, all) = (lc_entries(lc, row, n, k - 1), lc_entries(lc, row, n, k));
        assert forall|i: int| 0 <= i < all.len() implies (#[trigger] all[i]).0 == row && (without_first(lc) ==> all[i].1
            != 0) by {
            if i < before.len() {
                assert(all[i] == before[i]);
            }
        }
    }
}

/// The first row has no entry in the first column where the first variable has no part in it.
proof fn lemma_first_entries(lcs: Seq<LcView>, n: int, k: int)
    requires
        n > 0,
        k <= lcs.len(),
        lcs.len() > 0,
        without_first(lcs[0]),
    ensures
        forall|i: int|
            0 <= i < stacked(lcs, n, k).len() && (#[trigger] stacked(lcs, n, k)[i]).0 == 0 ==> stacked(lcs, n, k)[i].1 != 0,
    decreases k,
{
    if k > 0 {
        lemma_first_entries(lcs, n, k - 1);
        lemma_row_entries(lcs[k - 1], k - 1, n, lcs[k - 1].len() as int);
        let (a, b) = (stacked(lcs, n, k - 1), lc_entries(lcs[k - 1], k - 1, n, lcs[k - 1].len() as int));
        assert forall|i: int| 0 <= i < stacked(lcs, n, k).len() && (#[trigger] stacked(lcs, n, k)[i]).0 == 0 implies stacked(
            lcs,
            n,
            k,
        )[i].1 != 0 by {
            if i < a.len() {
                assert(stacked(lcs, n, k)[i] == a[i]);
            } else {
                assert(stacked(lcs, n, k)[i] == b[i - a.len()]);
            }
        }
    }
}

/// A layout in which the first variable has no part in the first constraint makes up matrices whose first entries are
/// zero, padded and reduced.
pub proof fn free_first_variable_has_no_corner(l: Layout, j: int, p: int)
    requires
        first_is_free(l),
        l.aux > 0,
        0 <= j < 3,
        p > 0,
    ensures
        matrix_corner(reduced_entries(laid_shape(l).pad().mats[j], p)) == 0,
{
    let s = laid_shape(l);
    lemma_first_entries(column_of(l.constraints, j), l.aux, l.constraints.len() as int);
    let top = max(max(s.num_vars, s.num_cons), s.num_io);
    lemma_ceil_log2(top);
    let m = s.mats[j];
    assert(m == stacked(column_of(l.constraints, j), l.aux, l.constraints.len() as int));
    let r = reduced_entries(s.pad().mats[j], p);
    let f = |k: int| corner(r[k]);
    assert forall|k: int| 0 <= k < r.len() implies #[trigger] f(k) == 0 by {
        assert(r[k].0 == m[k].0);
        if m[k].0 == 0 {
            assert(m[k].1 != 0);
            assert(r[k].1 != 0);
        }
    }
    lemma_sum_zero(f, r.len() as int);
}

} // verus!
