//! The layouts of circuits: how many variables a circuit adds to a system, and which constraints, whatever the values.
use crate::cs::{ConstraintView, LcView, Variable};
use crate::fragment::CircuitEngine;
use crate::sumcheck::{distances, first_points, inverse};
use vstd::prelude::*;

verus! {

/// What of a system does not depend on the values of its variables.
#[verifier::ext_equal]
pub struct Layout {
    pub inputs: int,
    pub aux: int,
    pub constraints: Seq<ConstraintView>,
}

impl Layout {
    /// The variable that would be added next.
    pub open spec fn next(self) -> Variable {
        Variable::Aux(self.aux as usize)
    }

    /// The layout with a variable more.
    pub open spec fn grown(self) -> Layout {
        Layout { inputs: self.inputs, aux: self.aux + 1, constraints: self.constraints }
    }

    /// The layout with a constraint more.
    pub open spec fn with(self, a: LcView, b: LcView, c: LcView) -> Layout {
        Layout {
            inputs: self.inputs,
            aux: self.aux,
            constraints: self.constraints.push((ConstraintView { a, b, c })),
        }
    }
}

/// The constant one.
pub open spec fn the_one() -> Variable {
    Variable::Input(0)
}

/// The combination of one variable.
pub open spec fn lone(v: Variable) -> LcView {
    LcView::empty().push((v, 1))
}

/// The difference of two variables.
pub open spec fn less(a: Variable, b: Variable, p: int) -> LcView {
    lone(a).push((b, p - 1))
}

/// A new variable that is the product of two combinations.
#[verifier::opaque]
pub open spec fn lay_product(l: Layout, a: LcView, b: LcView) -> (Layout, Variable) {
    (l.grown().with(a, b, lone(l.next())), l.next())
}

pub open spec fn lay_add(l: Layout, a: Variable, b: Variable) -> (Layout, Variable) {
    lay_product(l, lone(a).push((b, 1)), lone(the_one()))
}

pub open spec fn lay_mul(l: Layout, a: Variable, b: Variable) -> (Layout, Variable) {
    lay_product(l, lone(a), lone(b))
}

pub open spec fn lay_sub(l: Layout, a: Variable, b: Variable, p: int) -> (Layout, Variable) {
    lay_product(l, lone(the_one()), less(a, b, p))
}

pub open spec fn lay_add_const(l: Layout, a: Variable, c: int) -> (Layout, Variable) {
    lay_product(l, lone(the_one()), lone(a).push((the_one(), c)))
}

pub open spec fn lay_mul_const(l: Layout, a: Variable, c: int) -> (Layout, Variable) {
    lay_product(l, lone(a), LcView::empty().push((the_one(), c)))
}

pub open spec fn lay_one_minus(l: Layout, a: Variable, p: int) -> (Layout, Variable) {
    lay_product(l, lone(the_one()), less(the_one(), a, p))
}

pub open spec fn lay_one(l: Layout) -> (Layout, Variable) {
    lay_product(l, lone(the_one()), lone(the_one()))
}

pub open spec fn lay_nor(l: Layout, a: Variable, b: Variable, p: int) -> (Layout, Variable) {
    lay_product(l, less(the_one(), a, p), less(the_one(), b, p))
}

#[verifier::opaque]
pub open spec fn lay_inputize(l: Layout, a: Variable) -> Layout {
    Layout { inputs: l.inputs + 1, aux: l.aux, constraints: l.constraints }.with(
        lone(Variable::Input(l.inputs as usize)),
        lone(the_one()),
        lone(a),
    )
}

#[verifier::opaque]
pub open spec fn lay_zero(l: Layout) -> (Layout, Variable) {
    (l.grown().with(LcView::empty(), LcView::empty(), lone(l.next())), l.next())
}

#[verifier::opaque]
pub open spec fn lay_equal(l: Layout, a: Variable, b: Variable, p: int) -> Layout {
    l.with(lone(the_one()), less(a, b, p), LcView::empty())
}

#[verifier::opaque]
pub open spec fn lay_bit(l: Layout, p: int) -> (Layout, Variable) {
    (l.grown().with(less(the_one(), l.next(), p), lone(l.next()), LcView::empty()), l.next())
}

#[verifier::opaque]
pub open spec fn lay_num_equals(l: Layout, a: Variable, b: Variable, p: int) -> (Layout, Variable) {
    let (l1, r) = lay_bit(l, p);
    (
        l1.grown().with(lone(l1.next()), less(a, b, p), less(the_one(), r, p)).with(
            lone(r),
            less(a, b, p),
            LcView::empty(),
        ),
        r,
    )
}

#[verifier::opaque]
pub open spec fn lay_select(l: Layout, a: Variable, b: Variable, c: Variable, p: int) -> (Layout, Variable) {
    (l.grown().with(less(a, b, p), lone(c), less(l.next(), b, p)), l.next())
}

/// The selection of the first `n` of two lists.
pub open spec fn lay_select_all(l: Layout, a: Seq<Variable>, b: Seq<Variable>, c: Variable, p: int, n: int) -> (
    Layout,
    Seq<Variable>,
)
    decreases n,
{
    if n <= 0 {
        (l, Seq::empty())
    } else {
        let (l1, r) = lay_select_all(l, a, b, c, p, n - 1);
        let (l2, v) = lay_select(l1, a[n - 1], b[n - 1], c, p);
        (l2, r.push(v))
    }
}

#[verifier::opaque]
pub open spec fn lay_true(l: Layout, a: Variable) -> Layout {
    l.with(lone(a), lone(the_one()), lone(the_one()))
}

#[verifier::opaque]
pub open spec fn lay_false(l: Layout, a: Variable) -> Layout {
    l.with(lone(a), lone(the_one()), LcView::empty())
}

/// The powers of two, as residues.
pub open spec fn doubled(k: int, p: int) -> int
    decreases k,
{
    if k <= 0 {
        1
    } else {
        (doubled(k - 1, p) + doubled(k - 1, p)) % p
    }
}

/// The combination of the first `n` bits that is the number they make up.
pub open spec fn bits_combination(bits: Seq<Variable>, p: int, n: int) -> LcView
    decreases n,
{
    if n <= 0 {
        LcView::empty()
    } else {
        bits_combination(bits, p, n - 1).push((bits[n - 1], doubled(n - 1, p)))
    }
}

#[verifier::opaque]
pub open spec fn lay_bits_to_num(l: Layout, bits: Seq<Variable>, p: int) -> (Layout, Variable) {
    (
        l.grown().with(
            LcView::empty(),
            LcView::empty(),
            bits_combination(bits, p, bits.len() as int).push((l.next(), p - 1)),
        ),
        l.next(),
    )
}

/// New variables without a constraint.
#[verifier::opaque]
pub open spec fn lay_vars(l: Layout, n: int) -> (Layout, Seq<Variable>) {
    (
        Layout { inputs: l.inputs, aux: l.aux + n, constraints: l.constraints },
        Seq::new(n as nat, |i: int| Variable::Aux((l.aux + i) as usize)),
    )
}

/// What of a fragment does not depend on values.
#[verifier::ext_equal]
pub struct FragmentLayout {
    pub constraints: Seq<ConstraintView>,
    pub aux: int,
    pub outputs: Seq<Variable>,
}

/// The variable of a system that a variable of a fragment becomes.
pub open spec fn placed(v: Variable, inputs: Seq<Variable>, base: int) -> Variable {
    match v {
        Variable::Input(i) => if i == 0 {
            Variable::Input(0)
        } else {
            inputs[i - 1]
        },
        Variable::Aux(j) => Variable::Aux((base + j) as usize),
    }
}

/// The combination of a system that a combination of a fragment becomes.
pub open spec fn placed_lc(lc: LcView, inputs: Seq<Variable>, base: int) -> LcView {
    Seq::new(lc.len(), |i: int| (placed(lc[i].0, inputs, base), lc[i].1))
}

/// The constraint of a system that a constraint of a fragment becomes.
pub open spec fn placed_constraint(k: ConstraintView, inputs: Seq<Variable>, base: int) -> ConstraintView {
    ConstraintView {
        a: placed_lc(k.a, inputs, base),
        b: placed_lc(k.b, inputs, base),
        c: placed_lc(k.c, inputs, base),
    }
}

/// A fragment put into a system.
#[verifier::opaque]
pub open spec fn lay_splice(l: Layout, f: FragmentLayout, inputs: Seq<Variable>) -> (Layout, Seq<Variable>) {
    (
        Layout {
            inputs: l.inputs,
            aux: l.aux + f.aux,
            constraints: l.constraints + Seq::new(
                f.constraints.len(),
                |i: int| placed_constraint(f.constraints[i], inputs, l.aux),
            ),
        },
        Seq::new(f.outputs.len(), |i: int| placed(f.outputs[i], inputs, l.aux)),
    )
}

/// The variables of a point: its coordinates, and whether it is at infinity.
pub struct PointWires {
    pub x: Variable,
    pub y: Variable,
    pub is_infinity: Variable,
}

impl PointWires {
    pub open spec fn list(self) -> Seq<Variable> {
        seq![self.x, self.y, self.is_infinity]
    }
}

/// The point of three variables.
pub open spec fn point_wires(v: Seq<Variable>) -> PointWires {
    PointWires { x: v[0], y: v[1], is_infinity: v[2] }
}

#[verifier::opaque]
pub open spec fn lay_point(l: Layout, p: int) -> (Layout, PointWires) {
    let (l1, v) = lay_vars(l, 3);
    (l1.with(lone(v[2]), less(the_one(), v[2], p), LcView::empty()), point_wires(v))
}

pub open spec fn lay_check<E: CircuitEngine>(l: Layout, a: PointWires) -> Layout {
    lay_splice(l, E::check_layout(3), a.list()).0
}

pub open spec fn lay_add_points<E: CircuitEngine>(l: Layout, a: PointWires, b: PointWires) -> (Layout, PointWires) {
    let (l1, v) = lay_splice(l, E::add_layout(6), a.list() + b.list());
    (l1, point_wires(v))
}

pub open spec fn lay_scale<E: CircuitEngine>(l: Layout, a: PointWires, bits: Seq<Variable>) -> (Layout, PointWires) {
    let (l1, v) = lay_splice(l, E::scale_layout(bits.len() as int + 3), a.list() + bits);
    (l1, point_wires(v))
}

#[verifier::opaque]
pub open spec fn lay_select_point(l: Layout, a: PointWires, b: PointWires, c: Variable, p: int) -> (Layout, PointWires) {
    let (l1, x) = lay_select(l, a.x, b.x, c, p);
    let (l2, y) = lay_select(l1, a.y, b.y, c, p);
    let (l3, is_infinity) = lay_select(l2, a.is_infinity, b.is_infinity, c, p);
    (l3, PointWires { x, y, is_infinity })
}

/// What squeezing an oracle comes to: the bits, the number they make up, and the state.
pub struct SqueezeWires {
    pub num: Variable,
    pub bits: Seq<Variable>,
    pub state: Seq<Variable>,
}

/// The bits that squeezing an oracle gives, and its state.
#[verifier::opaque]
pub open spec fn lay_squeeze<E: CircuitEngine>(l: Layout, state: Seq<Variable>, n: int) -> (
    Layout,
    Seq<Variable>,
    Seq<Variable>,
) {
    let (l1, h) = lay_splice(l, E::hash_layout(state.len() as int), state);
    let (l2, u) = lay_splice(l1, E::bits_layout(1), seq![h[0]]);
    (l2, u.take(n), seq![h[0]])
}

#[verifier::opaque]
pub open spec fn lay_squeeze_num<E: CircuitEngine>(l: Layout, state: Seq<Variable>, n: int, p: int) -> (
    Layout,
    SqueezeWires,
) {
    let (l1, bits, next) = lay_squeeze::<E>(l, state, n);
    let (l2, num) = lay_bits_to_num(l1, bits, p);
    (l2, SqueezeWires { num, bits, state: next })
}

/// The equality polynomial of the first `n` coordinates of two points.
pub open spec fn lay_eq_points(l: Layout, a: Seq<Variable>, b: Seq<Variable>, p: int, n: int) -> (Layout, Variable)
    decreases n,
{
    if n <= 0 {
        lay_one(l)
    } else {
        let (l0, acc) = lay_eq_points(l, a, b, p, n - 1);
        let (l1, ab) = lay_mul(l0, a[n - 1], b[n - 1]);
        let (l2, not_a) = lay_one_minus(l1, a[n - 1], p);
        let (l3, not_b) = lay_one_minus(l2, b[n - 1], p);
        let (l4, neither) = lay_mul(l3, not_a, not_b);
        let (l5, term) = lay_add(l4, ab, neither);
        lay_mul(l5, acc, term)
    }
}

/// The first `n` powers of a number, of which there is at least one.
pub open spec fn lay_powers(l: Layout, base: Variable, n: int) -> (Layout, Seq<Variable>)
    decreases n,
{
    if n <= 1 {
        let (l1, one) = lay_one(l);
        (l1, seq![one])
    } else {
        let (l1, r) = lay_powers(l, base, n - 1);
        let (l2, v) = lay_mul(l1, r.last(), base);
        (l2, r.push(v))
    }
}

/// The product of the distances of a number from the first `n` points but the one at `i`.
pub open spec fn lay_distances(l: Layout, at: Variable, points: Seq<int>, i: int, p: int, n: int) -> (Layout, Variable)
    decreases n,
{
    if n <= 0 {
        lay_one(l)
    } else {
        let (l0, num) = lay_distances(l, at, points, i, p, n - 1);
        if i == n - 1 {
            (l0, num)
        } else {
            let (l1, shifted) = lay_add_const(l0, at, (0 - points[n - 1]) % p);
            lay_mul(l1, num, shifted)
        }
    }
}

/// The part of an interpolation that the first `n` points make up.
pub open spec fn lay_interpolate(l: Layout, evals: Seq<Variable>, at: Variable, points: Seq<int>, p: int, n: int) -> (
    Layout,
    Variable,
)
    decreases n,
{
    if n <= 0 {
        lay_zero(l)
    } else {
        let (l0, acc) = lay_interpolate(l, evals, at, points, p, n - 1);
        let (l1, num) = lay_distances(l0, at, points, n - 1, p, points.len() as int);
        let (l2, basis) = lay_mul_const(
            l1,
            num,
            inverse(distances(points, points[n - 1], n - 1, points.len() as int), p),
        );
        let (l3, term) = lay_mul(l2, basis, evals[n - 1]);
        lay_add(l3, acc, term)
    }
}

pub open spec fn lay_add_product(l: Layout, acc: Variable, a: Variable, b: Variable) -> (Layout, Variable) {
    let (l1, product) = lay_mul(l, a, b);
    lay_add(l1, acc, product)
}

#[verifier::opaque]
pub open spec fn lay_sum_x(l: Layout, pows: Seq<Variable>, v: Seq<Variable>) -> (Layout, Variable) {
    let (l1, t1) = lay_add_product(l, v[0], pows[1], v[1]);
    lay_add_product(l1, t1, pows[2], v[2])
}

#[verifier::opaque]
pub open spec fn lay_cx(
    l: Layout,
    pows: Seq<Variable>,
    eq_running: Variable,
    sigmas: Seq<Variable>,
    eq_alpha: Variable,
    taus: Seq<Variable>,
    p: int,
) -> (Layout, Variable) {
    let (l1, acc) = lay_sum_x(l, pows, sigmas);
    let (l2, left) = lay_mul(l1, eq_running, acc);
    let (l3, product) = lay_mul(l2, taus[0], taus[1]);
    let (l4, diff) = lay_sub(l3, product, taus[2], p);
    let (l5, weighted) = lay_mul(l4, eq_alpha, diff);
    lay_add_product(l5, left, pows[3], weighted)
}

#[verifier::opaque]
pub open spec fn lay_sum_y(l: Layout, pows: Seq<Variable>, v: Seq<Variable>, sigmas: Seq<Variable>, taus: Seq<Variable>) -> (
    Layout,
    Variable,
) {
    let (l1, t1) = lay_add_product(l, sigmas[0], pows[1], sigmas[1]);
    let (l2, t2) = lay_add_product(l1, t1, pows[2], sigmas[2]);
    let (l3, t3) = lay_add_product(l2, t2, pows[3], v[3]);
    let (l4, t4) = lay_add_product(l3, t3, pows[4], taus[0]);
    let (l5, t5) = lay_add_product(l4, t4, pows[5], taus[1]);
    lay_add_product(l5, t5, pows[6], taus[2])
}

#[verifier::opaque]
pub open spec fn lay_cy(
    l: Layout,
    pows: Seq<Variable>,
    eq_running: Variable,
    epsilons: Seq<Variable>,
    thetas: Seq<Variable>,
) -> (Layout, Variable) {
    let (l0, m0) = lay_mul(l, eq_running, epsilons[0]);
    let (l1, m1) = lay_mul(l0, eq_running, epsilons[1]);
    let (l2, m2) = lay_mul(l1, eq_running, epsilons[2]);
    let (l3, m3) = lay_mul(l2, eq_running, epsilons[3]);
    let (l4, m4) = lay_mul(l3, thetas[3], thetas[0]);
    let (l5, m5) = lay_mul(l4, thetas[3], thetas[1]);
    let (l6, m6) = lay_mul(l5, thetas[3], thetas[2]);
    let (k0, c0) = lay_mul(l6, pows[0], m0);
    let (k1, t1) = lay_add_product(k0, c0, pows[1], m1);
    let (k2, t2) = lay_add_product(k1, t1, pows[2], m2);
    let (k3, t3) = lay_add_product(k2, t2, pows[3], m3);
    let (k4, t4) = lay_add_product(k3, t3, pows[4], m4);
    let (k5, t5) = lay_add_product(k4, t4, pows[5], m5);
    lay_add_product(k5, t5, pows[6], m6)
}

/// The challenges of `n` squeezes, and the state of the oracle.
pub open spec fn lay_challenges<E: CircuitEngine>(l: Layout, state: Seq<Variable>, p: int, n: int) -> (
    Layout,
    Seq<Variable>,
    Seq<Variable>,
)
    decreases n,
{
    if n <= 0 {
        (l, Seq::empty(), state)
    } else {
        let (l0, r, now) = lay_challenges::<E>(l, state, p, n - 1);
        let (l1, w) = lay_squeeze_num::<E>(l0, now, 128, p);
        (l1, r.push(w.num), w.state)
    }
}

/// The equality of the first `n` of two lists.
pub open spec fn lay_equal_all(l: Layout, a: Seq<Variable>, b: Seq<Variable>, p: int, n: int) -> Layout
    decreases n,
{
    if n <= 0 {
        l
    } else {
        lay_equal(lay_equal_all(l, a, b, p, n - 1), a[n - 1], b[n - 1], p)
    }
}

/// The variables of a sum-check proof.
pub struct SumcheckWires {
    pub point: Seq<Variable>,
    pub polys: Seq<Seq<Variable>>,
}

/// What rounds of a sum-check come to.
pub struct RoundWires {
    pub claim: Variable,
    pub point: Seq<Variable>,
    pub state: Seq<Variable>,
}

/// The first `n` rounds of a sum-check.
pub open spec fn lay_first_rounds<E: CircuitEngine>(
    l: Layout,
    start: RoundWires,
    polys: Seq<Seq<Variable>>,
    points: Seq<int>,
    p: int,
    n: int,
) -> (Layout, RoundWires)
    decreases n,
{
    if n <= 0 {
        (l, start)
    } else {
        let (l0, w) = lay_first_rounds::<E>(l, start, polys, points, p, n - 1);
        let poly = polys[n - 1];
        let (l1, total) = lay_add(l0, poly[0], poly[1]);
        let l2 = lay_equal(l1, total, w.claim, p);
        let (l3, s) = lay_squeeze_num::<E>(l2, w.state + poly, 128, p);
        let (l4, claim) = lay_interpolate(l3, poly, s.num, points, p, poly.len() as int);
        (l4, RoundWires { claim, point: w.point.push(s.num), state: s.state })
    }
}

/// The rounds of a sum-check, whose polynomials have `d` values.
#[verifier::opaque]
pub open spec fn lay_rounds<E: CircuitEngine>(
    l: Layout,
    state: Seq<Variable>,
    expected: Variable,
    proof_: SumcheckWires,
    d: nat,
    p: int,
) -> (Layout, RoundWires) {
    let (l1, first) = lay_add(l, proof_.polys[0][0], proof_.polys[0][1]);
    let l2 = lay_equal(l1, first, expected, p);
    let (l3, w) = lay_first_rounds::<E>(
        l2,
        RoundWires { claim: first, point: Seq::empty(), state },
        proof_.polys,
        first_points(d),
        p,
        proof_.polys.len() as int,
    );
    (lay_equal_all(l3, w.point, proof_.point, p, w.point.len() as int), w)
}

/// The fold of the first `n` of two lists.
pub open spec fn lay_fold_all(l: Layout, a: Seq<Variable>, b: Seq<Variable>, rho: Variable, n: int) -> (
    Layout,
    Seq<Variable>,
)
    decreases n,
{
    if n <= 0 {
        (l, Seq::empty())
    } else {
        let (l0, r) = lay_fold_all(l, a, b, rho, n - 1);
        let (l1, term) = lay_mul(l0, rho, b[n - 1]);
        let (l2, v) = lay_add(l1, a[n - 1], term);
        (l2, r.push(v))
    }
}

#[verifier::opaque]
pub open spec fn lay_fold_point<E: CircuitEngine>(l: Layout, a: PointWires, b: PointWires, bits: Seq<Variable>) -> (
    Layout,
    PointWires,
) {
    let (l1, scaled) = lay_scale::<E>(l, b, bits);
    lay_add_points::<E>(l1, a, scaled)
}

/// New variables that are zero.
pub open spec fn lay_zeros(l: Layout, n: int) -> (Layout, Seq<Variable>)
    decreases n,
{
    if n <= 0 {
        (l, Seq::empty())
    } else {
        let (l0, r) = lay_zeros(l, n - 1);
        let (l1, v) = lay_zero(l0);
        (l1, r.push(v))
    }
}

/// `n` lists of new variables.
pub open spec fn lay_lists(l: Layout, len: int, n: int) -> (Layout, Seq<Seq<Variable>>)
    decreases n,
{
    if n <= 0 {
        (l, Seq::empty())
    } else {
        let (l0, r) = lay_lists(l, len, n - 1);
        let (l1, v) = lay_vars(l0, len);
        (l1, r.push(v))
    }
}

#[verifier::opaque]
pub open spec fn lay_sumcheck_proof(l: Layout, rounds: int, len: int) -> (Layout, SumcheckWires) {
    let (l1, point) = lay_vars(l, rounds);
    let (l2, polys) = lay_lists(l1, len, rounds);
    (l2, SumcheckWires { point, polys })
}

/// The variables of the proof of a fold.
pub struct NifsWires {
    pub sc_proof_x: SumcheckWires,
    pub sc_proof_y: SumcheckWires,
    pub sigmas: Seq<Variable>,
    pub taus: Seq<Variable>,
    pub epsilons: Seq<Variable>,
    pub thetas: Seq<Variable>,
}

#[verifier::opaque]
pub open spec fn lay_nifs(l: Layout, s_max: int, s_prime_max: int) -> (Layout, NifsWires) {
    let (l1, sc_proof_x) = lay_sumcheck_proof(l, s_max, 4);
    let (l2, sc_proof_y) = lay_sumcheck_proof(l1, s_prime_max, 3);
    let (l3, sigmas) = lay_vars(l2, 3);
    let (l4, taus) = lay_vars(l3, 3);
    let (l5, epsilons) = lay_vars(l4, 4);
    let (l6, thetas) = lay_vars(l5, 4);
    (l6, NifsWires { sc_proof_x, sc_proof_y, sigmas, taus, epsilons, thetas })
}

/// The variables of an instance.
pub struct InstanceWires {
    pub comm_W: PointWires,
    pub X: Seq<Variable>,
}

#[verifier::opaque]
pub open spec fn lay_instance<E: CircuitEngine>(l: Layout, p: int) -> (Layout, InstanceWires) {
    let (l1, comm_W) = lay_point(l, p);
    let (l2, X) = lay_vars(lay_check::<E>(l1, comm_W), 2);
    (l2, InstanceWires { comm_W, X })
}

/// The variables in the other order.
pub open spec fn backwards(v: Seq<Variable>) -> Seq<Variable> {
    Seq::new(v.len(), |i: int| v[v.len() - 1 - i])
}

/// The first half of the verifier of a fold: the new point of the rows, and the state of the oracle.
#[verifier::opaque]
pub open spec fn lay_verify_x<E: CircuitEngine>(
    l: Layout,
    state: Seq<Variable>,
    r_x: Seq<Variable>,
    v: Seq<Variable>,
    nifs: NifsWires,
    s_max: int,
    p: int,
) -> (Layout, Seq<Variable>, Seq<Variable>) {
    let (l1, g) = lay_squeeze_num::<E>(l, state, 128, p);
    let (l2, alpha, opened) = lay_challenges::<E>(l1, g.state, p, s_max);
    let (l3, pows) = lay_powers(l2, g.num, 4);
    let (l4, expected) = lay_sum_x(l3, pows, v);
    let (l5, w) = lay_rounds::<E>(l4, opened, expected, nifs.sc_proof_x, 4, p);
    let new_r_x = backwards(w.point);
    let (l6, eq_running) = lay_eq_points(l5, r_x, new_r_x, p, r_x.len() as int);
    let (l7, eq_alpha) = lay_eq_points(l6, alpha, new_r_x, p, alpha.len() as int);
    let (l8, cx) = lay_cx(l7, pows, eq_running, nifs.sigmas, eq_alpha, nifs.taus, p);
    (lay_equal(l8, w.claim, cx, p), new_r_x, w.state)
}

/// The second half of the verifier of a fold: the new point of the columns, and the state of the oracle.
#[verifier::opaque]
pub open spec fn lay_verify_y<E: CircuitEngine>(
    l: Layout,
    state: Seq<Variable>,
    r_y: Seq<Variable>,
    v: Seq<Variable>,
    nifs: NifsWires,
    p: int,
) -> (Layout, Seq<Variable>, Seq<Variable>) {
    let (l1, d) = lay_squeeze_num::<E>(l, state, 128, p);
    let (l2, pows) = lay_powers(l1, d.num, 7);
    let (l3, expected) = lay_sum_y(l2, pows, v, nifs.sigmas, nifs.taus);
    let (l4, w) = lay_rounds::<E>(l3, d.state, expected, nifs.sc_proof_y, 3, p);
    let new_r_y = backwards(w.point);
    let (l5, eq_running) = lay_eq_points(l4, r_y, new_r_y, p, r_y.len() as int);
    let (l6, cy) = lay_cy(l5, pows, eq_running, nifs.epsilons, nifs.thetas);
    (lay_equal(l6, w.claim, cy, p), new_r_y, w.state)
}

/// What the verifier of a fold comes to: the new points, and the challenge with its bits.
pub struct CheckWires {
    pub r_x: Seq<Variable>,
    pub r_y: Seq<Variable>,
    pub rho: Variable,
    pub bits: Seq<Variable>,
}

#[verifier::opaque]
pub open spec fn lay_checks<E: CircuitEngine>(
    l: Layout,
    state: Seq<Variable>,
    r_x: Seq<Variable>,
    r_y: Seq<Variable>,
    v: Seq<Variable>,
    nifs: NifsWires,
    s_max: int,
    p: int,
) -> (Layout, CheckWires) {
    let (l1, new_r_x, state1) = lay_verify_x::<E>(l, state, r_x, v, nifs, s_max, p);
    let (l2, new_r_y, state2) = lay_verify_y::<E>(l1, state1, r_y, v, nifs, p);
    let (l3, w) = lay_squeeze_num::<E>(l2, state2, 128, p);
    (l3, CheckWires { r_x: new_r_x, r_y: new_r_y, rho: w.num, bits: w.bits })
}

/// The variables of a folded instance that carries the coefficients of the index.
pub struct FoldedWires {
    pub W: PointWires,
    pub lambda: Seq<Variable>,
    pub u: Variable,
    pub X: Seq<Variable>,
    pub r_x: Seq<Variable>,
    pub r_y: Seq<Variable>,
    pub v: Seq<Variable>,
}

impl FoldedWires {
    /// All variables, as an oracle absorbs them.
    pub open spec fn list(self) -> Seq<Variable> {
        self.W.list() + self.lambda + seq![self.u] + self.X + self.r_x + self.r_y + self.v
    }
}

/// The sizes of a structure that the circuit of a step depends on.
pub struct Sizes {
    pub len: int,
    pub num_io: int,
    pub s_max: int,
    pub s_prime_max: int,
}

#[verifier::opaque]
pub open spec fn lay_folded(l: Layout, s: Sizes, p: int) -> (Layout, FoldedWires) {
    let (l1, W) = lay_point(l, p);
    let (l2, lambda) = lay_vars(l1, s.len);
    let (l3, X) = lay_vars(l2.grown(), s.num_io);
    let (l4, r_x) = lay_vars(l3, s.s_max);
    let (l5, r_y) = lay_vars(l4, s.s_prime_max);
    let (l6, v) = lay_vars(l5, 4);
    (l6, FoldedWires { W, lambda, u: l2.next(), X, r_x, r_y, v })
}

/// The folded instance that an instance makes up, with the first entries of the matrices of its predicate.
#[verifier::opaque]
pub open spec fn lay_started(l: Layout, s: Sizes, corners: Seq<int>, inst: InstanceWires, z_eval: Variable) -> (
    Layout,
    FoldedWires,
) {
    let (l1, u) = lay_one(l);
    let (l2, r_x) = lay_zeros(l1, s.s_max);
    let (l3, r_y) = lay_zeros(l2, s.s_prime_max);
    let (l4, m0) = lay_mul_const(l3, u, corners[0]);
    let (l5, m1) = lay_mul_const(l4, u, corners[1]);
    let (l6, m2) = lay_mul_const(l5, u, corners[2]);
    let (l7, lambda) = lay_vars(l6, s.len);
    (l7, FoldedWires { W: inst.comm_W, lambda, u, X: inst.X, r_x, r_y, v: seq![m0, m1, m2, z_eval] })
}

#[verifier::opaque]
pub open spec fn lay_select_folded(l: Layout, a: FoldedWires, b: FoldedWires, c: Variable, p: int) -> (Layout, FoldedWires) {
    let (l1, W) = lay_select_point(l, a.W, b.W, c, p);
    let (l2, u) = lay_select(l1, a.u, b.u, c, p);
    let (l3, lambda) = lay_select_all(l2, a.lambda, b.lambda, c, p, a.lambda.len() as int);
    let (l4, X) = lay_select_all(l3, a.X, b.X, c, p, a.X.len() as int);
    let (l5, r_x) = lay_select_all(l4, a.r_x, b.r_x, c, p, a.r_x.len() as int);
    let (l6, r_y) = lay_select_all(l5, a.r_y, b.r_y, c, p, a.r_y.len() as int);
    let (l7, v) = lay_select_all(l6, a.v, b.v, c, p, a.v.len() as int);
    (l7, FoldedWires { W, lambda, u, X, r_x, r_y, v })
}

/// The fold of an instance into a folded one.
#[verifier::opaque]
pub open spec fn lay_fold<E: CircuitEngine>(
    l: Layout,
    s: Sizes,
    a: FoldedWires,
    params: Variable,
    id_num: Variable,
    inst: InstanceWires,
    nifs: NifsWires,
    p: int,
) -> (Layout, FoldedWires) {
    let l2 = lay_equal(l.grown(), id_num, l.next(), p);
    let (l3, c) = lay_checks::<E>(
        l2,
        seq![params, id_num] + inst.comm_W.list() + inst.X,
        a.r_x,
        a.r_y,
        a.v,
        nifs,
        s.s_max,
        p,
    );
    let (l4, W) = lay_fold_point::<E>(l3, a.W, inst.comm_W, c.bits);
    let (l5, basis) = lay_vars(l4, s.len);
    let (l6, lambda) = lay_fold_all(l5, a.lambda, basis, c.rho, s.len);
    let (l7, u) = lay_add(l6, a.u, c.rho);
    let (l8, X) = lay_fold_all(l7, a.X, inst.X, c.rho, 2);
    let (l9, v) = lay_fold_all(l8, nifs.epsilons, nifs.thetas, c.rho, 4);
    (l9, FoldedWires { W, lambda, u, X, r_x: c.r_x, r_y: c.r_y, v })
}

/// The next digest of a trace.
#[verifier::opaque]
pub open spec fn lay_trace(l: Layout, trace: Variable, id: Variable) -> (Layout, Variable) {
    let (l1, one) = lay_one(l);
    let (l2, delta) = lay_add(l1, id, one);
    let (l3, shifted) = lay_add(l2, trace, delta);
    let (l4, squared) = lay_mul(l3, shifted, shifted);
    lay_add(l4, squared, delta)
}

/// The variables that the circuit of a step reads.
pub struct StepWires {
    pub pp_digest: Variable,
    pub i: Variable,
    pub z0: Seq<Variable>,
    pub zi: Seq<Variable>,
    pub trace_digest_in: Variable,
    pub local_predicate_id: Variable,
    pub incoming_predicate_id: Variable,
    pub U: FoldedWires,
    pub ri: Variable,
    pub r_next: Variable,
    pub u: InstanceWires,
    pub w_eval: Variable,
    pub nifs: NifsWires,
}

/// What the circuit of a step reads.
#[verifier::opaque]
pub open spec fn lay_reads<E: CircuitEngine>(l: Layout, s: Sizes, arity: int, p: int) -> (Layout, StepWires) {
    let l1 = l.grown();
    let (l3, z0) = lay_vars(l1.grown(), arity);
    let (l4, zi) = lay_vars(l3, arity);
    let l5 = l4.grown();
    let l6 = l5.grown();
    let (l8, U) = lay_folded(l6.grown(), s, p);
    let l9 = l8.grown();
    let (l11, u) = lay_instance::<E>(l9.grown(), p);
    let (l13, nifs) = lay_nifs(l11.grown(), s.s_max, s.s_prime_max);
    (
        l13,
        StepWires {
            pp_digest: l.next(),
            i: l1.next(),
            z0,
            zi,
            trace_digest_in: l4.next(),
            local_predicate_id: l5.next(),
            incoming_predicate_id: l6.next(),
            U,
            ri: l8.next(),
            r_next: l9.next(),
            u,
            w_eval: l11.next(),
            nifs,
        },
    )
}

/// The hash of what a step hands on.
#[verifier::opaque]
pub open spec fn lay_hash_check<E: CircuitEngine>(
    l: Layout,
    pp_digest: Variable,
    i: Variable,
    z0: Seq<Variable>,
    zi: Seq<Variable>,
    U: FoldedWires,
    r: Variable,
    trace: Variable,
    p: int,
) -> (Layout, Variable) {
    let (l1, w) = lay_squeeze_num::<E>(
        lay_check::<E>(l, U.W),
        seq![pp_digest, i] + z0 + zi + U.list() + seq![r, trace],
        250,
        p,
    );
    (l1, w.num)
}

/// The check that the predicate of a step is that of the circuit.
#[verifier::opaque]
pub open spec fn lay_local(l: Layout, local: Variable, p: int) -> Layout {
    let (l1, matching) = lay_num_equals(l.grown(), local, l.next(), p);
    lay_true(l1, matching)
}

/// The checks of what the step before says, and the fold of its instance: the next folded instance, whether this is
/// the first step, and the next digest of the trace.
#[verifier::opaque]
pub open spec fn lay_check_step<E: CircuitEngine>(
    l: Layout,
    is_primary_circuit: bool,
    s: Sizes,
    corners: Seq<int>,
    a: StepWires,
    p: int,
) -> (Layout, FoldedWires, Variable, Variable) {
    let (l2, zero) = lay_zero(lay_local(l, a.local_predicate_id, p));
    let (l3, is_base) = lay_num_equals(l2, a.i, zero, p);
    let (l4, hash) = lay_hash_check::<E>(l3, a.pp_digest, a.i, a.z0, a.zi, a.U, a.ri, a.trace_digest_in, p);
    let (l5, check_hash) = lay_num_equals(l4, a.u.X[0], hash, p);
    let (l6, base) = if is_primary_circuit {
        lay_folded(l5, s, p)
    } else {
        lay_started(l5, s, corners, a.u, a.w_eval)
    };
    let (l7, fold) = lay_fold::<E>(l6, s, a.U, a.pp_digest, a.incoming_predicate_id, a.u, a.nifs, p);
    let (l8, trace) = lay_trace(
        l7,
        a.trace_digest_in,
        if is_primary_circuit {
            a.local_predicate_id
        } else {
            a.incoming_predicate_id
        },
    );
    let (l9, neither) = lay_nor(l8, check_hash, is_base, p);
    let (l11, U) = lay_select_folded(lay_false(l9, neither), base, fold, is_base, p);
    (l11, U, is_base, trace)
}

/// The layout of a system with nothing but the constant.
pub open spec fn bare_layout() -> Layout {
    Layout { inputs: 1, aux: 0, constraints: Seq::empty() }
}

/// Whether the first variable has no part in a combination.
pub open spec fn without_first(lc: LcView) -> bool {
    forall|k: int| 0 <= k < lc.len() ==> (#[trigger] lc[k]).0 != Variable::Aux(0)
}

/// Whether the first variable has no part in the first constraint.
pub open spec fn first_is_free(l: Layout) -> bool {
    &&& l.constraints.len() > 0
    &&& without_first(l.constraints[0].a)
    &&& without_first(l.constraints[0].b)
    &&& without_first(l.constraints[0].c)
}

/// Lists of variables bring no constraints.
proof fn lemma_lists_bring_none(l: Layout, len: int, n: int)
    requires
        len >= 0,
    ensures
        lay_lists(l, len, n).0.constraints == l.constraints,
        lay_lists(l, len, n).0.aux >= l.aux,
    decreases n,
{
    reveal(lay_lists);
    reveal(lay_vars);
    if n > 0 {
        lemma_lists_bring_none(l, len, n - 1);
    }
}

/// The first constraint of a step is on the flag of the commitment that it reads; the first variable is the digest.
pub proof fn reads_leave_first_free<E: CircuitEngine>(s: Sizes, arity: int, p: int)
    requires
        0 <= arity <= 0x2000_0000,
        s.len >= 0,
        s.num_io >= 0,
        s.s_max >= 0,
        s.s_prime_max >= 0,
    ensures
        first_is_free(lay_reads::<E>(bare_layout(), s, arity, p).0),
        lay_reads::<E>(bare_layout(), s, arity, p).1.pp_digest == Variable::Aux(0),
{
    reveal(lay_reads);
    reveal(lay_folded);
    reveal(lay_instance);
    reveal(lay_nifs);
    reveal(lay_sumcheck_proof);
    reveal(lay_splice);
    reveal(lay_vars);
    reveal(lay_point);
    let l = bare_layout();
    let l1 = l.grown();
    let (l3, z0) = lay_vars(l1.grown(), arity);
    let (l4, zi) = lay_vars(l3, arity);
    let l6 = l4.grown().grown();
    let (l8, U) = lay_folded(l6.grown(), s, p);
    assert(l6.grown().aux == 2 * arity + 5);
    assert(U.W.is_infinity == Variable::Aux((2 * arity + 7) as usize));
    assert(l8.constraints.len() == 1);
    let l9 = l8.grown();
    let (l11, u) = lay_instance::<E>(l9.grown(), p);
    assert(l11.constraints[0] == l8.constraints[0]);
    let (m1, _x) = lay_sumcheck_proof(l11.grown(), s.s_max, 4);
    lemma_lists_bring_none(lay_vars(l11.grown(), s.s_max).0, 4, s.s_max);
    lemma_lists_bring_none(lay_vars(m1, s.s_prime_max).0, 3, s.s_prime_max);
}

} // verus!
