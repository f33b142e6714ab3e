//! Rank-1 constraint systems: their shapes, instances and witnesses.
use crate::engine::{vals, Commitment, CurveEngine, CurveGroup};
use crate::errors::NovaError;
use crate::field::FieldElement;
use crate::math::{ceil_log2, lemma_ceil_log2, log_2, logarithm_is_least, max, next_pow2, power_of_two_is_its_own};
use vstd::arithmetic::power2::{lemma_pow2_pos, pow2};
use vstd::prelude::*;

verus! {

/// The entries of a sparse matrix: row, column and value.
pub type Entries = Seq<(int, int, int)>;

/// The entries that a list of triples stands for.
pub open spec fn entries<F: FieldElement>(m: Seq<(usize, usize, F)>) -> Entries {
    Seq::new(m.len(), |i: int| (m[i].0 as int, m[i].1 as int, m[i].2.val()))
}

/// The shape of a constraint system: three sparse matrices, whose columns belong to the variables,
/// the constant and the public values, in this order.
pub struct R1CSShape<E: CurveGroup> {
    pub num_cons: usize,
    pub num_vars: usize,
    pub num_io: usize,
    pub A: Vec<(usize, usize, E::Scalar)>,
    pub B: Vec<(usize, usize, E::Scalar)>,
    pub C: Vec<(usize, usize, E::Scalar)>,
}

/// A shape over the integers.
pub struct ShapeView {
    pub num_cons: int,
    pub num_vars: int,
    pub num_io: int,
    pub mats: Seq<Entries>,
}

/// Whether every entry lies within the rows and columns.
pub open spec fn entries_fit(m: Entries, rows: int, cols: int) -> bool {
    forall|i: int| 0 <= i < m.len() ==> 0 <= (#[trigger] m[i]).0 < rows && 0 <= m[i].1 < cols
}

/// Whether the first `n` of the triples lie within the rows and columns.
pub open spec fn triples_fit<F>(m: Seq<(usize, usize, F)>, rows: int, cols: int, n: int) -> bool {
    forall|i: int| 0 <= i < n ==> (#[trigger] m[i]).0 < rows && m[i].1 < cols
}

impl ShapeView {
    /// Whether the matrices lie within the sizes.
    pub open spec fn wf(self) -> bool {
        &&& self.num_cons >= 0 && self.num_vars >= 0 && self.num_io >= 0
        &&& self.mats.len() == 3
        &&& forall|j: int|
            0 <= j < 3 ==> entries_fit(
                #[trigger] self.mats[j],
                self.num_cons,
                self.num_vars + 1 + self.num_io,
            )
    }

    /// Whether constraints and variables are powers of two, the variables more than the public values.
    pub open spec fn is_regular(self) -> bool {
        &&& next_pow2(self.num_cons) == self.num_cons
        &&& next_pow2(self.num_vars) == self.num_vars
        &&& self.num_io < self.num_vars
    }

    /// The size to which constraints and variables are padded.
    pub open spec fn padded_size(self) -> int {
        next_pow2(max(max(self.num_vars, self.num_cons), self.num_io)) as int
    }

    /// The shape with as many constraints as variables, a power of two of them, unless it is regular.
    /// The new variables come behind the old ones, and the constant and the public values move behind them.
    pub open spec fn pad(self) -> ShapeView {
        if self.is_regular() {
            self
        } else {
            let m = self.padded_size();
            ShapeView {
                num_cons: m,
                num_vars: m,
                num_io: self.num_io,
                mats: Seq::new(
                    self.mats.len(),
                    |j: int| shifted(self.mats[j], self.num_vars, m - self.num_vars),
                ),
            }
        }
    }
}

/// Entries with the columns from `from` on moved up by `by`.
pub open spec fn shifted(m: Entries, from: int, by: int) -> Entries {
    Seq::new(
        m.len(),
        |i: int|
            (
                m[i].0,
                if m[i].1 >= from {
                    m[i].1 + by
                } else {
                    m[i].1
                },
                m[i].2,
            ),
    )
}

/// A padded shape is well formed where the shape was, and at least as large.
pub proof fn lemma_pad(s: ShapeView)
    requires
        s.wf(),
    ensures
        s.pad().wf(),
        s.pad().num_io == s.num_io,
        s.pad().num_cons >= 1,
        s.pad().num_vars >= s.num_vars,
        s.pad().num_cons >= s.num_cons,
{
    let top = max(max(s.num_vars, s.num_cons), s.num_io);
    if top >= 1 {
        lemma_ceil_log2(top);
    } else {
        lemma_pow2_pos(ceil_log2(top));
    }
    lemma_pow2_pos(ceil_log2(s.num_cons));
    lemma_pow2_pos(ceil_log2(s.num_vars));
    let t = s.pad();
    assert forall|j: int| 0 <= j < 3 implies entries_fit(
        #[trigger] t.mats[j],
        t.num_cons,
        t.num_vars + 1 + t.num_io,
    ) by {
        assert(entries_fit(s.mats[j], s.num_cons, s.num_vars + 1 + s.num_io));
        assert forall|i: int| 0 <= i < t.mats[j].len() implies 0 <= (#[trigger] t.mats[j][i]).0 < t.num_cons
            && 0 <= t.mats[j][i].1 < t.num_vars + 1 + t.num_io by {
            assert(0 <= s.mats[j][i].0 < s.num_cons);
        }
    }
}

impl<E: CurveGroup> View for R1CSShape<E> {
    type V = ShapeView;

    open spec fn view(&self) -> ShapeView {
        ShapeView {
            num_cons: self.num_cons as int,
            num_vars: self.num_vars as int,
            num_io: self.num_io as int,
            mats: seq![entries(self.A@), entries(self.B@), entries(self.C@)],
        }
    }
}

/// Whether every triple lies within the rows and columns.
fn all_triples_fit<F>(m: &Vec<(usize, usize, F)>, rows: usize, last_col: usize) -> (r: bool)
    ensures
        r == triples_fit(m@, rows as int, last_col + 1, m.len() as int),
{
    let mut i: usize = 0;
    while i < m.len()
        invariant
            i <= m.len(),
            triples_fit(m@, rows as int, last_col + 1, i as int),
        decreases m.len() - i,
    {
        if m[i].0 >= rows || m[i].1 > last_col {
            assert(!(m@[i as int].0 < rows && m@[i as int].1 < last_col + 1));
            return false;
        }
        i = i + 1;
    }
    true
}

/// The triples of `m`, the columns from `from` on moved up by `by`.
fn shift_triples<F: FieldElement>(m: &Vec<(usize, usize, F)>, from: usize, by: usize) -> (r: Vec<(usize, usize, F)>)
    requires
        forall|i: int| 0 <= i < m.len() ==> (#[trigger] m[i]).1 + by <= usize::MAX,
    ensures
        entries(r@) == shifted(entries(m@), from as int, by as int),
{
    let mut r: Vec<(usize, usize, F)> = Vec::new();
    let mut i: usize = 0;
    while i < m.len()
        invariant
            i <= m.len(),
            r.len() == i,
            forall|k: int| 0 <= k < m.len() ==> (#[trigger] m[k]).1 + by <= usize::MAX,
            forall|k: int|
                0 <= k < i ==> (#[trigger] r[k]).0 == m[k].0 && r[k].2 == m[k].2 && r[k].1 == (if m[k].1
                    >= from {
                    m[k].1 + by
                } else {
                    m[k].1 as int
                }),
        decreases m.len() - i,
    {
        let (row, col, val) = m[i];
        if col >= from {
            r.push((row, col + by, val));
        } else {
            r.push((row, col, val));
        }
        i = i + 1;
    }
    assert(entries(r@) =~= shifted(entries(m@), from as int, by as int));
    r
}

/// A copy of a list of triples.
pub(crate) fn copy_triples<F: FieldElement>(m: &Vec<(usize, usize, F)>) -> (r: Vec<(usize, usize, F)>)
    ensures
        r@ == m@,
{
    let mut r: Vec<(usize, usize, F)> = Vec::new();
    let mut i: usize = 0;
    while i < m.len()
        invariant
            i <= m.len(),
            r@ == m@.take(i as int),
        decreases m.len() - i,
    {
        r.push(m[i]);
        i = i + 1;
    }
    assert(m@.take(m.len() as int) =~= m@);
    r
}

/// The least power of two that is at least `n`.
pub(crate) fn next_power_of_two(n: usize) -> (r: usize)
    requires
        next_pow2(n as int) <= usize::MAX,
    ensures
        r == next_pow2(n as int),
{
    let k = if n == 0 {
        0
    } else {
        log_2(n)
    };
    pow2_usize(k)
}

/// Two to the power `k`.
pub(crate) fn pow2_usize(k: usize) -> (r: usize)
    requires
        pow2(k as nat) <= usize::MAX,
    ensures
        r == pow2(k as nat),
{
    let mut r: usize = 1;
    let mut i: usize = 0;
    proof {
        vstd::arithmetic::power2::lemma2_to64();
    }
    while i < k
        invariant
            i <= k,
            r == pow2(i as nat),
            pow2(k as nat) <= usize::MAX,
        decreases k - i,
    {
        proof {
            vstd::arithmetic::power2::lemma_pow2_unfold((i + 1) as nat);
            if i + 1 < k {
                vstd::arithmetic::power2::lemma_pow2_strictly_increases((i + 1) as nat, k as nat);
            }
        }
        r = r * 2;
        i = i + 1;
    }
    r
}

impl<E: CurveEngine> R1CSShape<E> {
    /// A key with room for the constraints and for the variables, and for as many values as asked for.
    pub fn commitment_key(&self, ck_floor: usize) -> (ck: E::CommitmentKey)
        requires
            next_pow2(max(max(self@.num_cons, self@.num_vars), ck_floor as int)) < usize::MAX,
        ensures
            E::generators(&ck).len() == next_pow2(max(max(self@.num_cons, self@.num_vars), ck_floor as int)),
            forall|i: int|
                0 <= i < E::generators(&ck).len() ==> #[trigger] E::generators(&ck)[i] == E::labelled_point(
                    "ck"@,
                    i + 1,
                ),
            E::blinding(&ck) == E::labelled_point("ck"@, 0),
    {
        let mut n: usize = self.num_cons;
        if self.num_vars > n {
            n = self.num_vars;
        }
        if ck_floor > n {
            n = ck_floor;
        }
        E::setup("ck", n)
    }
}

impl<E: CurveGroup> R1CSShape<E> {
    /// A shape from its sizes and matrices, refused where an entry lies outside of the sizes.
    pub fn new(
        num_cons: usize,
        num_vars: usize,
        num_io: usize,
        A: Vec<(usize, usize, E::Scalar)>,
        B: Vec<(usize, usize, E::Scalar)>,
        C: Vec<(usize, usize, E::Scalar)>,
    ) -> (r: Result<Self, NovaError>)
        requires
            num_vars + num_io <= usize::MAX,
        ensures
            ({
                let v = (ShapeView {
                    num_cons: num_cons as int,
                    num_vars: num_vars as int,
                    num_io: num_io as int,
                    mats: seq![entries(A@), entries(B@), entries(C@)],
                });
                match r {
                    Ok(shape) => shape@ == v && v.wf(),
                    Err(e) => e == NovaError::InvalidIndex && !v.wf(),
                }
            }),
    {
        let ghost v = ShapeView {
            num_cons: num_cons as int,
            num_vars: num_vars as int,
            num_io: num_io as int,
            mats: seq![entries(A@), entries(B@), entries(C@)],
        };
        let last: usize = num_vars + num_io;
        let (a, b, c) = (all_triples_fit(&A, num_cons, last), all_triples_fit(&B, num_cons, last), all_triples_fit(&C, num_cons, last));
        proof {
            assert(a == entries_fit(v.mats[0], v.num_cons, v.num_vars + 1 + v.num_io)) by {
                lemma_entries_fit(A@, num_cons as int, last + 1);
            }
            assert(b == entries_fit(v.mats[1], v.num_cons, v.num_vars + 1 + v.num_io)) by {
                lemma_entries_fit(B@, num_cons as int, last + 1);
            }
            assert(c == entries_fit(v.mats[2], v.num_cons, v.num_vars + 1 + v.num_io)) by {
                lemma_entries_fit(C@, num_cons as int, last + 1);
            }
        }
        if a && b && c {
            Ok(R1CSShape { num_cons, num_vars, num_io, A, B, C })
        } else {
            Err(NovaError::InvalidIndex)
        }
    }

    pub fn num_cons(&self) -> (r: usize)
        ensures
            r == self@.num_cons,
    {
        self.num_cons
    }

    pub fn num_vars(&self) -> (r: usize)
        ensures
            r == self@.num_vars,
    {
        self.num_vars
    }

    pub fn num_io(&self) -> (r: usize)
        ensures
            r == self@.num_io,
    {
        self.num_io
    }

    /// The shape with as many constraints as variables, a power of two of them, unless it is regular.
    pub fn pad(&self) -> (r: Self)
        requires
            self@.wf(),
            self@.padded_size() + self@.num_io < usize::MAX,
            next_pow2(self@.num_cons) <= usize::MAX,
            next_pow2(self@.num_vars) <= usize::MAX,
        ensures
            r@ == self@.pad(),
    {
        proof {
            lemma_pad(self@);
        }
        let regular = next_power_of_two(self.num_cons) == self.num_cons && next_power_of_two(self.num_vars)
            == self.num_vars && self.num_io < self.num_vars;
        if regular {
            let r = R1CSShape {
                num_cons: self.num_cons,
                num_vars: self.num_vars,
                num_io: self.num_io,
                A: copy_triples(&self.A),
                B: copy_triples(&self.B),
                C: copy_triples(&self.C),
            };
            return r;
        }
        let mut top: usize = self.num_vars;
        if self.num_cons > top {
            top = self.num_cons;
        }
        if self.num_io > top {
            top = self.num_io;
        }
        let m = next_power_of_two(top);
        let by: usize = m - self.num_vars;
        proof {
            let v = self@;
            assert(entries_fit(v.mats[0], v.num_cons, v.num_vars + 1 + v.num_io));
            assert(entries_fit(v.mats[1], v.num_cons, v.num_vars + 1 + v.num_io));
            assert(entries_fit(v.mats[2], v.num_cons, v.num_vars + 1 + v.num_io));
            lemma_entries_fit(self.A@, v.num_cons, v.num_vars + 1 + v.num_io);
            lemma_entries_fit(self.B@, v.num_cons, v.num_vars + 1 + v.num_io);
            lemma_entries_fit(self.C@, v.num_cons, v.num_vars + 1 + v.num_io);
        }
        let r = R1CSShape {
            num_cons: m,
            num_vars: m,
            num_io: self.num_io,
            A: shift_triples(&self.A, self.num_vars, by),
            B: shift_triples(&self.B, self.num_vars, by),
            C: shift_triples(&self.C, self.num_vars, by),
        };
        assert(r@.mats =~= self@.pad().mats);
        r
    }
}

proof fn lemma_entries_fit<F: FieldElement>(m: Seq<(usize, usize, F)>, rows: int, cols: int)
    ensures
        triples_fit(m, rows, cols, m.len() as int) == entries_fit(entries(m), rows, cols),
{
    if triples_fit(m, rows, cols, m.len() as int) {
        assert forall|i: int| 0 <= i < entries(m).len() implies 0 <= (#[trigger] entries(m)[i]).0 < rows && 0
            <= entries(m)[i].1 < cols by {
            assert(m[i].0 < rows);
        }
    }
    if entries_fit(entries(m), rows, cols) {
        assert forall|i: int| 0 <= i < m.len() implies (#[trigger] m[i]).0 < rows && m[i].1 < cols by {
            assert(entries(m)[i].0 < rows);
        }
    }
}

/// A witness: the values of the variables and the blinding of their commitment.
pub struct R1CSWitness<E: CurveGroup> {
    pub W: Vec<E::Scalar>,
    pub r_W: E::Scalar,
}

/// A witness over the integers.
pub struct WitnessView {
    pub W: Seq<int>,
    pub r_W: int,
}

impl<E: CurveGroup> View for R1CSWitness<E> {
    type V = WitnessView;

    open spec fn view(&self) -> WitnessView {
        WitnessView { W: vals(self.W@), r_W: self.r_W.val() }
    }
}

/// An instance: the commitment to the witness and the public values.
pub struct R1CSInstance<E: CurveGroup> {
    pub comm_W: Commitment<E>,
    pub X: Vec<E::Scalar>,
}

/// An instance over the integers.
pub struct InstanceView {
    pub comm_W: int,
    pub X: Seq<int>,
}

impl<E: CurveGroup> View for R1CSInstance<E> {
    type V = InstanceView;

    open spec fn view(&self) -> InstanceView {
        InstanceView { comm_W: self.comm_W@, X: vals(self.X@) }
    }
}

/// Padding leaves a regular shape as it is. Any other gets as many constraints as variables, the least power of two that
/// neither they nor the public values exceed; the entries keep their rows and values, those of the variables their columns
/// too, and those of the constant and of the public values move behind the new variables. Padding again changes nothing.
pub proof fn padding_is_idempotent(s: ShapeView)
    requires
        s.wf(),
    ensures
        s.is_regular() <==> {
            &&& exists|k: nat| s.num_cons == #[trigger] pow2(k)
            &&& exists|k: nat| s.num_vars == #[trigger] pow2(k)
            &&& s.num_io < s.num_vars
        },
        s.is_regular() ==> s.pad() == s,
        !s.is_regular() ==> {
            let t = s.pad();
            &&& t.num_cons == t.num_vars
            &&& s.num_vars <= t.num_vars && s.num_cons <= t.num_vars && s.num_io <= t.num_vars
            &&& exists|k: nat| t.num_vars == #[trigger] pow2(k)
            &&& forall|k: nat|
                s.num_vars <= pow2(k) && s.num_cons <= pow2(k) && s.num_io <= #[trigger] pow2(k) ==> t.num_vars <= pow2(k)
            &&& t.num_io == s.num_io
            &&& t.mats.len() == s.mats.len()
            &&& forall|j: int, i: int|
                0 <= j < 3 && 0 <= i < s.mats[j].len() ==> {
                    let (e, f) = (s.mats[j][i], #[trigger] t.mats[j][i]);
                    &&& f.0 == e.0 && f.2 == e.2
                    &&& e.1 < s.num_vars ==> f.1 == e.1
                    &&& e.1 >= s.num_vars ==> f.1 - t.num_vars == e.1 - s.num_vars
                }
        },
        s.pad().pad() == s.pad(),
{
    lemma_power_of_two(s.num_cons);
    lemma_power_of_two(s.num_vars);
    if !s.is_regular() {
        let top = max(max(s.num_vars, s.num_cons), s.num_io);
        let m = s.padded_size();
        let t = s.pad();
        let k0 = ceil_log2(top);
        logarithm_is_least(top, k0);
        power_of_two_is_its_own(k0);
        assert(t.num_vars == pow2(k0));
        assert forall|k: nat|
            s.num_vars <= pow2(k) && s.num_cons <= pow2(k) && s.num_io <= #[trigger] pow2(k) implies t.num_vars <= pow2(
            k,
        ) by {
            logarithm_is_least(top, k);
            if k0 < k {
                vstd::arithmetic::power2::lemma_pow2_strictly_increases(k0, k);
            }
        }
        assert(max(max(t.num_vars, t.num_cons), t.num_io) == m);
        assert(t.padded_size() == m);
        assert forall|j: int| 0 <= j < t.mats.len() implies #[trigger] t.pad().mats[j] == t.mats[j] by {
            assert(shifted(t.mats[j], t.num_vars, 0) =~= t.mats[j]);
        }
        assert(t.pad().mats =~= t.mats);
    }
}

/// A number is its own next power of two exactly if it is a power of two.
proof fn lemma_power_of_two(n: int)
    ensures
        next_pow2(n) == n <==> exists|k: nat| n == #[trigger] pow2(k),
{
    if next_pow2(n) == n {
        assert(n == pow2(ceil_log2(n)));
    }
    if exists|k: nat| n == #[trigger] pow2(k) {
        let k = choose|k: nat| n == #[trigger] pow2(k);
        power_of_two_is_its_own(k);
    }
}

/// A shape with three matrices is well formed exactly if every entry lies in a row of a constraint, and in the column of a
/// variable, of the constant or of a public value.
pub proof fn well_formed_shape_bounds_its_entries(s: ShapeView)
    requires
        s.num_cons >= 0 && s.num_vars >= 0 && s.num_io >= 0,
        s.mats.len() == 3,
    ensures
        s.wf() <==> forall|j: int, i: int|
            0 <= j < 3 && 0 <= i < s.mats[j].len() ==> {
                let e = #[trigger] s.mats[j][i];
                0 <= e.0 < s.num_cons && 0 <= e.1 <= s.num_vars + s.num_io
            },
{
    if s.wf() {
        assert forall|j: int, i: int| 0 <= j < 3 && 0 <= i < s.mats[j].len() implies {
            let e = #[trigger] s.mats[j][i];
            0 <= e.0 < s.num_cons && 0 <= e.1 <= s.num_vars + s.num_io
        } by {
            assert(entries_fit(s.mats[j], s.num_cons, s.num_vars + 1 + s.num_io));
        }
    }
}

} // verus!
