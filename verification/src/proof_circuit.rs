//! The proof of a fold in a constraint system, and the verifier of its sum-checks there.
use crate::cs::{lemma_step_trans, step, Assignment, ConstraintSystem, CsView, Variable};
use crate::engine::{vals, CurveEngine, CurveGroup, RandomOracle};
use crate::evaluation::{interpolate, lemma_step_refl};
use crate::field::FieldElement;
use crate::fragment::CircuitEngine;
use crate::gadgets::{all_within, assert_equal, ats, lemma_at, lemma_own, wires, AllocatedNum};
use crate::nifs::{accepted, checked_proof, hash_of, opening, small_points, Accepted, NIFSView, SumcheckProofView};
use crate::oracle::OracleCircuit;
use crate::relation::StructureView;
use crate::sumcheck::{challenge, check_rounds, first_points, interpolation, lemma_separated, separated, Check};
use crate::layout::{lay_equal_all, lay_first_rounds, lay_rounds, NifsWires, RoundWires, SumcheckWires};
use crate::combine::{sum_x, sum_y};
use crate::mle::reversed;
use vstd::prelude::*;

verus! {

/// The values that numbers were given.
pub open spec fn nvals<F: FieldElement>(nums: Seq<AllocatedNum<F>>) -> Seq<int> {
    Seq::new(nums.len(), |i: int| nums[i].value.val())
}

/// Where an assignment agrees with the values given, it gives numbers their values.
pub proof fn lemma_ats<F: FieldElement>(nums: Seq<AllocatedNum<F>>, cs: CsView, x: Assignment)
    requires
        all_within(nums, cs),
        cs.agrees(x),
    ensures
        ats(nums, x) == nvals(nums),
{
    assert forall|i: int| 0 <= i < nums.len() implies nums[i].at(x) == (#[trigger] nums[i]).value.val() by {
        lemma_at(nums[i], cs, x);
    }
    assert(ats(nums, x) =~= nvals(nums));
}

/// The values given agree with themselves.
pub proof fn lemma_own_agrees(cs: CsView)
    requires
        cs.wf(),
    ensures
        cs.agrees(cs.own()),
        cs.follows(cs.own()),
{
    reveal(CsView::agrees);
    reveal(CsView::wf);
}

/// Numbers that have to be the same, one by one.
pub fn assert_all_equal<F: FieldElement>(
    cs: &mut ConstraintSystem<F>,
    a: &Vec<AllocatedNum<F>>,
    b: &Vec<AllocatedNum<F>>,
)
    requires
        old(cs)@.wf(),
        a.len() == b.len(),
        all_within(a@, old(cs)@),
        all_within(b@, old(cs)@),
    ensures
        final(cs)@.layout() == lay_equal_all(old(cs)@.layout(), wires(a@), wires(b@), F::modulus(), a@.len() as int),
        step(old(cs)@, final(cs)@),
        final(cs)@.satisfied() == (old(cs)@.satisfied() && nvals(a@) == nvals(b@)),
        final(cs).witness == old(cs).witness,
        final(cs)@.inputs == old(cs)@.inputs,
        forall|x: Assignment| #[trigger] final(cs)@.holds(x) ==> ats(a@, x) == ats(b@, x),
{
    let ghost before = cs@;
    let mut i: usize = 0;
    proof {
        lemma_step_refl(before);
    }
    while i < a.len()
        invariant
            cs@.layout() == lay_equal_all(before.layout(), wires(a@), wires(b@), F::modulus(), i as int),
            i <= a.len(),
            a.len() == b.len(),
            all_within(a@, before),
            all_within(b@, before),
            step(before, cs@),
            cs.witness == old(cs).witness,
            cs@.inputs == before.inputs,
            cs@.satisfied() == (before.satisfied() && forall|k: int|
                0 <= k < i ==> (#[trigger] a@[k]).value.val() == b@[k].value.val()),
            forall|x: Assignment, k: int|
                #![trigger cs@.holds(x), a@[k]]
                cs@.holds(x) && 0 <= k < i ==> a@[k].at(x) == b@[k].at(x),
        decreases a.len() - i,
    {
        let ghost mid = cs@;
        assert(a@[i as int].within(before));
        assert(b@[i as int].within(before));
        assert_equal(cs, &a[i], &b[i]);
        proof {
            lemma_step_trans(before, mid, cs@);
            assert forall|x: Assignment, k: int|
                #![trigger cs@.holds(x), a@[k]]
                cs@.holds(x) && 0 <= k < i + 1 implies a@[k].at(x) == b@[k].at(x) by {
                assert(mid.holds(x));
            }
        }
        i = i + 1;
    }
    proof {
        if nvals(a@) == nvals(b@) {
            assert forall|k: int| 0 <= k < a@.len() implies (#[trigger] a@[k]).value.val() == b@[k].value.val() by {
                assert(nvals(a@)[k] == nvals(b@)[k]);
            }
        } else if forall|k: int| 0 <= k < a@.len() ==> (#[trigger] a@[k]).value.val() == b@[k].value.val() {
            assert(nvals(a@) =~= nvals(b@));
        }
        assert forall|x: Assignment| #[trigger] cs@.holds(x) implies ats(a@, x) == ats(b@, x) by {
            assert(ats(a@, x) =~= ats(b@, x));
        }
    }
}

/// A sum-check proof in a system.
pub struct AllocatedSumcheckProof<E: CurveGroup> {
    pub point: Vec<AllocatedNum<E::Base>>,
    pub polys: Vec<Vec<AllocatedNum<E::Base>>>,
}

/// The proof of a fold in a system.
pub struct AllocatedNIFS<E: CurveGroup> {
    pub sc_proof_x: AllocatedSumcheckProof<E>,
    pub sc_proof_y: AllocatedSumcheckProof<E>,
    pub sigmas: Vec<AllocatedNum<E::Base>>,
    pub taus: Vec<AllocatedNum<E::Base>>,
    pub epsilons: Vec<AllocatedNum<E::Base>>,
    pub thetas: Vec<AllocatedNum<E::Base>>,
}

impl<E: CurveGroup> AllocatedSumcheckProof<E> {
    /// The variables.
    pub open spec fn wires(&self) -> SumcheckWires {
        SumcheckWires { point: wires(self.point@), polys: Seq::new(self.polys@.len(), |i: int| wires(self.polys@[i]@)) }
    }

    /// The proof under an assignment.
    pub open spec fn at(&self, x: Assignment) -> SumcheckProofView {
        SumcheckProofView {
            point: ats(self.point@, x),
            polys: Seq::new(self.polys@.len(), |i: int| ats(self.polys@[i]@, x)),
        }
    }

    /// The proof that was given.
    pub open spec fn values(&self) -> SumcheckProofView {
        SumcheckProofView {
            point: nvals(self.point@),
            polys: Seq::new(self.polys@.len(), |i: int| nvals(self.polys@[i]@)),
        }
    }

    /// Whether all numbers are of the system.
    pub open spec fn within(&self, cs: CsView) -> bool {
        &&& all_within(self.point@, cs)
        &&& forall|i: int| 0 <= i < self.polys@.len() ==> all_within((#[trigger] self.polys@[i])@, cs)
    }

    /// Whether there are as many rounds, each of as many sums.
    pub open spec fn shaped(&self, rounds: nat, d: nat) -> bool {
        &&& self.point@.len() == rounds
        &&& self.polys@.len() == rounds
        &&& forall|i: int| 0 <= i < rounds ==> (#[trigger] self.polys@[i])@.len() == d
    }
}

impl<E: CurveGroup> AllocatedNIFS<E> {
    /// The variables.
    pub open spec fn wires(&self) -> NifsWires {
        NifsWires {
            sc_proof_x: self.sc_proof_x.wires(),
            sc_proof_y: self.sc_proof_y.wires(),
            sigmas: wires(self.sigmas@),
            taus: wires(self.taus@),
            epsilons: wires(self.epsilons@),
            thetas: wires(self.thetas@),
        }
    }

    /// The proof under an assignment.
    pub open spec fn at(&self, x: Assignment) -> NIFSView {
        NIFSView {
            sc_proof_x: self.sc_proof_x.at(x),
            sc_proof_y: self.sc_proof_y.at(x),
            sigmas: ats(self.sigmas@, x),
            taus: ats(self.taus@, x),
            epsilons: ats(self.epsilons@, x),
            thetas: ats(self.thetas@, x),
        }
    }

    /// The proof that was given.
    pub open spec fn values(&self) -> NIFSView {
        NIFSView {
            sc_proof_x: self.sc_proof_x.values(),
            sc_proof_y: self.sc_proof_y.values(),
            sigmas: nvals(self.sigmas@),
            taus: nvals(self.taus@),
            epsilons: nvals(self.epsilons@),
            thetas: nvals(self.thetas@),
        }
    }

    /// Whether all numbers are of the system.
    pub open spec fn within(&self, cs: CsView) -> bool {
        &&& self.sc_proof_x.within(cs)
        &&& self.sc_proof_y.within(cs)
        &&& all_within(self.sigmas@, cs)
        &&& all_within(self.taus@, cs)
        &&& all_within(self.epsilons@, cs)
        &&& all_within(self.thetas@, cs)
    }

    /// Whether the parts have the lengths that the structure asks for.
    pub open spec fn shaped(&self, s: StructureView) -> bool {
        &&& self.sc_proof_x.shaped(s.s_max, 4)
        &&& self.sc_proof_y.shaped(s.s_prime_max, 3)
        &&& self.sigmas@.len() == 3
        &&& self.taus@.len() == 3
        &&& self.epsilons@.len() == 4
        &&& self.thetas@.len() == 4
    }
}

/// Where an assignment agrees with the values given, it gives a proof its values.
pub proof fn lemma_proof_ats<E: CurveGroup>(proof_: AllocatedSumcheckProof<E>, cs: CsView, x: Assignment)
    requires
        proof_.within(cs),
        cs.agrees(x),
    ensures
        proof_.at(x) == proof_.values(),
{
    lemma_ats(proof_.point@, cs, x);
    assert forall|i: int| 0 <= i < proof_.polys@.len() implies ats(proof_.polys@[i]@, x) == nvals(
        (#[trigger] proof_.polys@[i])@,
    ) by {
        lemma_ats(proof_.polys@[i]@, cs, x);
    }
    assert(proof_.at(x).polys =~= proof_.values().polys);
}

/// Where an assignment agrees with the values given, it gives a proof its values.
pub proof fn lemma_nifs_ats<E: CurveGroup>(nifs: AllocatedNIFS<E>, cs: CsView, x: Assignment)
    requires
        nifs.within(cs),
        cs.agrees(x),
    ensures
        nifs.at(x) == nifs.values(),
{
    lemma_proof_ats(nifs.sc_proof_x, cs, x);
    lemma_proof_ats(nifs.sc_proof_y, cs, x);
    lemma_ats(nifs.sigmas@, cs, x);
    lemma_ats(nifs.taus@, cs, x);
    lemma_ats(nifs.epsilons@, cs, x);
    lemma_ats(nifs.thetas@, cs, x);
}

/// The verifier after `k` rounds if it does not look at the sums.
pub open spec fn run_rounds(
    points: Seq<int>,
    hash: spec_fn(Seq<int>) -> int,
    p: int,
    c: Check,
    polys: Seq<Seq<int>>,
    k: nat,
) -> Check
    decreases k,
{
    if k == 0 {
        c
    } else {
        let before = run_rounds(points, hash, p, c, polys, (k - 1) as nat);
        let evals = polys[k - 1];
        let r = challenge(hash, before.state + evals);
        Check {
            state: seq![hash(before.state + evals)],
            claim: interpolation(points, evals, r, p).unwrap(),
            point: before.point.push(r),
        }
    }
}

/// Whether the first two sums of each of the first `k` rounds add up to the claim.
pub open spec fn sums_match(
    points: Seq<int>,
    hash: spec_fn(Seq<int>) -> int,
    p: int,
    c: Check,
    polys: Seq<Seq<int>>,
    k: nat,
) -> bool {
    forall|i: nat|
        i < k ==> (polys[i as int][0] + polys[i as int][1]) % p == (#[trigger] run_rounds(points, hash, p, c, polys, i)).claim
}

/// What the rounds of a sum-check come to, whether or not they are accepted.
pub open spec fn played(
    points: Seq<int>,
    hash: spec_fn(Seq<int>) -> int,
    p: int,
    state: Seq<int>,
    polys: Seq<Seq<int>>,
) -> Check {
    run_rounds(
        points,
        hash,
        p,
        Check { state, claim: (polys[0][0] + polys[0][1]) % p, point: Seq::empty() },
        polys,
        polys.len(),
    )
}

/// What an accepted sum-check leads to is what its rounds come to.
pub proof fn accepted_rounds_are_played(
    points: Seq<int>,
    hash: spec_fn(Seq<int>) -> int,
    p: int,
    state: Seq<int>,
    claim: int,
    proof_: SumcheckProofView,
)
    requires
        points.len() > 0,
        separated(points, p),
        proof_.polys.len() > 0,
        forall|i: int| 0 <= i < proof_.polys.len() ==> (#[trigger] proof_.polys[i]).len() == points.len(),
    ensures
        checked_proof(points, hash, p, state, claim, proof_) matches Some(c) ==> c == played(
            points,
            hash,
            p,
            state,
            proof_.polys,
        ),
{
    let c = Check { state, claim, point: Seq::empty() };
    let n = proof_.polys.len();
    lemma_run_rounds(points, hash, p, c, proof_.polys, n);
    if checked_proof(points, hash, p, state, claim, proof_) is Some {
        let z: nat = 0;
        assert((proof_.polys[z as int][0] + proof_.polys[z as int][1]) % p == run_rounds(
            points,
            hash,
            p,
            c,
            proof_.polys,
            z,
        ).claim);
    }
}

/// What the verifier of a fold comes to, whether or not it accepts.
pub open spec fn reached<E: CurveEngine>(s: StructureView, start: Seq<int>, proof_: NIFSView) -> Accepted {
    let hash = hash_of::<E>();
    let p = E::Base::modulus();
    let x = played(first_points(4), hash, p, opening::<E>(s, start).state, proof_.sc_proof_x.polys);
    let y = played(first_points(3), hash, p, seq![hash(x.state)], proof_.sc_proof_y.polys);
    Accepted { r_x: reversed(x.point), r_y: reversed(y.point), rho: challenge(hash, y.state) }
}

/// What a verifier that accepts comes to is what it comes to anyway.
pub proof fn accepted_is_reached<E: CurveEngine>(
    s: StructureView,
    start: Seq<int>,
    r_x: Seq<int>,
    r_y: Seq<int>,
    v: Seq<int>,
    proof_: NIFSView,
)
    requires
        s.s_max > 0,
        s.s_prime_max > 0,
        forall|i: int| 0 <= i < proof_.sc_proof_x.polys.len() ==> (#[trigger] proof_.sc_proof_x.polys[i]).len() == 4,
        forall|i: int| 0 <= i < proof_.sc_proof_y.polys.len() ==> (#[trigger] proof_.sc_proof_y.polys[i]).len() == 3,
    ensures
        accepted::<E>(s, start, r_x, r_y, v, proof_) matches Some(a) ==> a == reached::<E>(s, start, proof_),
{
    let hash = hash_of::<E>();
    let p = E::Base::modulus();
    E::Base::modulus_bounds();
    lemma_separated(4, p);
    lemma_separated(3, p);
    let o = opening::<E>(s, start);
    if accepted::<E>(s, start, r_x, r_y, v, proof_) is Some {
        accepted_rounds_are_played(first_points(4), hash, p, o.state, sum_x(o.gamma, v) % p, proof_.sc_proof_x);
        let x = checked_proof(first_points(4), hash, p, o.state, sum_x(o.gamma, v) % p, proof_.sc_proof_x)->0;
        let delta = challenge(hash, x.state);
        accepted_rounds_are_played(
            first_points(3),
            hash,
            p,
            seq![hash(x.state)],
            sum_y(delta, v, proof_.sigmas, proof_.taus) % p,
            proof_.sc_proof_y,
        );
    }
}

/// The verifier accepts exactly if all sums match, and then it is where it would be without looking at them.
proof fn lemma_run_rounds(
    points: Seq<int>,
    hash: spec_fn(Seq<int>) -> int,
    p: int,
    c: Check,
    polys: Seq<Seq<int>>,
    k: nat,
)
    requires
        points.len() > 0,
        separated(points, p),
        k <= polys.len(),
        forall|i: int| 0 <= i < polys.len() ==> (#[trigger] polys[i]).len() == points.len(),
    ensures
        check_rounds(points, hash, p, c, polys, k) == if sums_match(points, hash, p, c, polys, k) {
            Some(run_rounds(points, hash, p, c, polys, k))
        } else {
            None
        },
    decreases k,
{
    if k > 0 {
        let j = (k - 1) as nat;
        lemma_run_rounds(points, hash, p, c, polys, j);
        let r = run_rounds(points, hash, p, c, polys, j);
        assert(polys[k - 1].len() == points.len());
        if sums_match(points, hash, p, c, polys, j) {
            if (polys[k - 1][0] + polys[k - 1][1]) % p == r.claim {
                assert forall|i: nat| i < k implies (polys[i as int][0] + polys[i as int][1]) % p == (
                #[trigger] run_rounds(points, hash, p, c, polys, i)).claim by {
                    if i == j {
                    }
                }
            }
        } else {
            let i = choose|i: nat|
                i < j && (polys[i as int][0] + polys[i as int][1]) % p != (#[trigger] run_rounds(
                    points,
                    hash,
                    p,
                    c,
                    polys,
                    i,
                )).claim;
            assert(!sums_match(points, hash, p, c, polys, k));
        }
    }
}

/// The rounds of a sum-check in a system: their sums have to match, their challenges have to be those of the proof.
/// The last claim and the challenges are returned.
pub fn verify_rounds<E: CircuitEngine>(
    cs: &mut ConstraintSystem<E::Base>,
    constants: &<E::RO as RandomOracle<E::Base>>::Constants,
    ro: &mut OracleCircuit<E>,
    expected: &AllocatedNum<E::Base>,
    proof_: &AllocatedSumcheckProof<E>,
    d: u64,
) -> (r: (AllocatedNum<E::Base>, Vec<AllocatedNum<E::Base>>))
    requires
        old(cs)@.wf(),
        d == 3 || d == 4,
        proof_.within(old(cs)@),
        proof_.shaped(proof_.polys@.len(), d as nat),
        proof_.polys@.len() >= 1,
        expected.within(old(cs)@),
        old(ro).state@.len() == 1,
        all_within(old(ro).state@, old(cs)@),
    ensures
        (final(cs)@.layout(), (RoundWires { claim: r.0.variable, point: wires(r.1@), state: wires(final(ro).state@) }))
            == lay_rounds::<E>(
            old(cs)@.layout(),
            wires(old(ro).state@),
            expected.variable,
            proof_.wires(),
            d as nat,
            E::Base::modulus(),
        ),
        forall|x: Assignment| #[trigger]
            final(cs)@.follows(x) ==> played(
                first_points(d as nat),
                hash_of::<E>(),
                E::Base::modulus(),
                ats(old(ro).state@, x),
                proof_.at(x).polys,
            ) == (Check { state: ats(final(ro).state@, x), claim: r.0.at(x), point: ats(r.1@, x) }),
        step(old(cs)@, final(cs)@),
        final(cs).witness == old(cs).witness,
        final(cs)@.inputs == old(cs)@.inputs,
        r.0.within(final(cs)@),
        all_within(r.1@, final(cs)@),
        r.1@.len() == proof_.polys@.len(),
        final(ro).state@.len() == 1,
        all_within(final(ro).state@, final(cs)@),
        forall|x: Assignment| #[trigger]
            final(cs)@.holds(x) ==> checked_proof(
                first_points(d as nat),
                hash_of::<E>(),
                E::Base::modulus(),
                ats(old(ro).state@, x),
                expected.at(x),
                proof_.at(x),
            ) == Some(Check { state: ats(final(ro).state@, x), claim: r.0.at(x), point: ats(r.1@, x) }),
        final(cs)@.satisfied() == (old(cs)@.satisfied() && checked_proof(
            first_points(d as nat),
            hash_of::<E>(),
            E::Base::modulus(),
            nvals(old(ro).state@),
            expected.value.val(),
            proof_.values(),
        ) is Some),
{
    proof {
        reveal(lay_rounds);
    }
    let ghost before = cs@;
    let ghost p = E::Base::modulus();
    let ghost hash = hash_of::<E>();
    let ghost pts = first_points(d as nat);
    let ghost state0 = ro.state@;
    let ghost n = proof_.polys@.len();
    let points: Vec<E::Base> = small_points(d);
    proof {
        E::Base::modulus_bounds();
        lemma_separated(d as nat, p);
        assert(points@.len() == vals(points@).len());
        assert(proof_.polys@[0]@.len() == d);
        assert(all_within(proof_.polys@[0]@, before));
        assert(proof_.polys@[0]@[0].within(before) && proof_.polys@[0]@[1].within(before));
    }
    let first = proof_.polys[0][0].add(cs, &proof_.polys[0][1]);
    assert(proof_.wires().polys[0] == wires(proof_.polys@[0]@));
    let ghost s1 = cs@;
    assert_equal(cs, &first, expected);
    let ghost s2 = cs@;
    proof {
        lemma_step_trans(before, s1, s2);
        lemma_step_refl(s2);
    }
    let mut claim = first;
    let mut r: Vec<AllocatedNum<E::Base>> = Vec::new();
    let mut k: usize = 0;
    assert(wires(r@) =~= Seq::<Variable>::empty());
    let ghost c0 = |x: Assignment| Check { state: ats(state0, x), claim: first.at(x), point: Seq::<int>::empty() };
    let ghost c0v = Check { state: nvals(state0), claim: first.value.val(), point: Seq::<int>::empty() };
    let ghost good0 = s2.satisfied();
    assert forall|x: Assignment| #[trigger] cs@.follows(x) implies run_rounds(
        pts,
        hash,
        p,
        c0(x),
        proof_.at(x).polys,
        0,
    ) == (Check { state: ats(ro.state@, x), claim: claim.at(x), point: ats(r@, x) }) by {
        assert(ats(r@, x) =~= Seq::<int>::empty());
    }
    while k < proof_.polys.len()
        invariant
            (cs@.layout(), (RoundWires { claim: claim.variable, point: wires(r@), state: wires(ro.state@) }))
                == lay_first_rounds::<E>(
                s2.layout(),
                RoundWires { claim: first.variable, point: Seq::<Variable>::empty(), state: wires(state0) },
                proof_.wires().polys,
                pts,
                p,
                k as int,
            ),
            k <= n,
            n == proof_.polys@.len(),
            p == E::Base::modulus(),
            hash == hash_of::<E>(),
            pts == first_points(d as nat),
            vals(points@) == pts,
            points@.len() == d,
            d == 3 || d == 4,
            separated(pts, p),
            proof_.within(before),
            proof_.shaped(n, d as nat),
            step(before, cs@),
            step(s2, cs@),
            cs.witness == old(cs).witness,
            cs@.inputs == before.inputs,
            claim.within(cs@),
            first.within(s2),
            all_within(state0, before),
            r@.len() == k,
            all_within(r@, cs@),
            ro.state@.len() == 1,
            all_within(ro.state@, cs@),
            c0 == (|x: Assignment| Check { state: ats(state0, x), claim: first.at(x), point: Seq::<int>::empty() }),
            c0v == (Check { state: nvals(state0), claim: first.value.val(), point: Seq::<int>::empty() }),
            forall|x: Assignment| #[trigger]
                cs@.follows(x) ==> run_rounds(pts, hash, p, c0(x), proof_.at(x).polys, k as nat) == (Check {
                    state: ats(ro.state@, x),
                    claim: claim.at(x),
                    point: ats(r@, x),
                }),
            forall|x: Assignment| #[trigger]
                cs@.holds(x) ==> sums_match(pts, hash, p, c0(x), proof_.at(x).polys, k as nat),
            cs@.satisfied() == (good0 && sums_match(pts, hash, p, c0v, proof_.values().polys, k as nat)),
        decreases n - k,
    {
        let ghost m0 = cs@;
        let ghost ro0 = ro.state@;
        let ghost r0 = r@;
        let ghost claim0 = claim;
        let poly = &proof_.polys[k];
        proof {
            assert(poly@.len() == d);
            assert(all_within(poly@, before));
            assert(poly@[0].within(before) && poly@[1].within(before));
        }
        let sum01 = poly[0].add(cs, &poly[1]);
        let ghost m1 = cs@;
        assert_equal(cs, &sum01, &claim);
        let ghost m2 = cs@;
        proof {
            lemma_step_trans(before, m0, m1);
            lemma_step_trans(before, m1, m2);
            lemma_step_trans(s2, m0, m1);
            lemma_step_trans(s2, m1, m2);
        }
        ro.absorb_all(poly);
        proof {
            assert forall|i: int| 0 <= i < ro.state@.len() implies (#[trigger] ro.state@[i]).within(m2) by {
                if i < 1 {
                    assert(ro0[i].within(m0));
                } else {
                    assert(poly@[i - 1].within(before));
                }
            }
        }
        let ghost absorbed = ro.state@;
        let challenge_num = ro.squeeze_challenge(cs, constants);
        let ghost m3 = cs@;
        proof {
            lemma_step_trans(before, m2, m3);
            lemma_step_trans(s2, m2, m3);
        }
        claim = interpolate(cs, poly, &challenge_num, &points);
        r.push(challenge_num);
        let ghost m4 = cs@;
        proof {
            assert(wires(absorbed) =~= wires(ro0) + wires(poly@));
            assert(wires(r@) =~= wires(r0).push(challenge_num.variable));
            assert(proof_.wires().polys[k as int] == wires(poly@));
            lemma_step_trans(before, m3, m4);
            lemma_step_trans(s2, m3, m4);
            assert forall|i: int| 0 <= i < r@.len() implies (#[trigger] r@[i]).within(m4) by {
                if i < k {
                    assert(r0[i].within(m0));
                }
            }
            let ghost next = (k + 1) as nat;
            assert forall|x: Assignment| #[trigger] m4.follows(x) implies run_rounds(
                pts,
                hash,
                p,
                c0(x),
                proof_.at(x).polys,
                next,
            ) == (Check { state: ats(ro.state@, x), claim: claim.at(x), point: ats(r@, x) }) by {
                assert(m3.follows(x) && m2.follows(x) && m1.follows(x) && m0.follows(x));
                assert(proof_.at(x).polys[k as int] == ats(poly@, x));
                assert(ats(absorbed, x) =~= ats(ro0, x) + ats(poly@, x));
                assert(ats(r@, x) =~= ats(r0, x).push(challenge_num.at(x)));
            }
            assert forall|x: Assignment| #[trigger] m4.holds(x) implies sums_match(
                pts,
                hash,
                p,
                c0(x),
                proof_.at(x).polys,
                next,
            ) by {
                assert(m3.holds(x) && m2.holds(x) && m1.holds(x) && m0.holds(x));
                assert(m1.follows(x) && m0.follows(x));
                let polys = proof_.at(x).polys;
                assert(polys[k as int] == ats(poly@, x));
                assert forall|i: nat| i < next implies (polys[i as int][0] + polys[i as int][1]) % p == (
                #[trigger] run_rounds(pts, hash, p, c0(x), polys, i)).claim by {
                    if i == k {
                        assert(sum01.at(x) == claim0.at(x));
                    }
                }
            }
            // The values given.
            lemma_own_agrees(m1);
            let own = m1.own();
            lemma_proof_ats(*proof_, m1, own);
            lemma_ats(state0, m1, own);
            lemma_own(first, m1);
            lemma_own(sum01, m1);
            lemma_own(claim0, m1);
            assert(m0.follows(own));
            assert(c0(own) == c0v);
            let polys = proof_.values().polys;
            assert(polys[k as int] == ats(poly@, own));
            assert(sum01.value.val() == (polys[k as int][0] + polys[k as int][1]) % p);
            assert(claim0.value.val() == run_rounds(pts, hash, p, c0v, polys, k as nat).claim);
            assert(sums_match(pts, hash, p, c0v, polys, next) == (sums_match(pts, hash, p, c0v, polys, k as nat)
                && sum01.value.val() == claim0.value.val())) by {
                if sums_match(pts, hash, p, c0v, polys, k as nat) && sum01.value.val() == claim0.value.val() {
                    assert forall|i: nat| i < next implies (polys[i as int][0] + polys[i as int][1]) % p == (
                    #[trigger] run_rounds(pts, hash, p, c0v, polys, i)).claim by {
                        if i == k {
                        }
                    }
                }
                if sums_match(pts, hash, p, c0v, polys, next) {
                    assert((polys[k as int][0] + polys[k as int][1]) % p == run_rounds(
                        pts,
                        hash,
                        p,
                        c0v,
                        polys,
                        k as nat,
                    ).claim);
                }
            }
        }
        k = k + 1;
    }
    let ghost s3 = cs@;
    proof {
        assert forall|i: int| 0 <= i < proof_.point@.len() implies (#[trigger] proof_.point@[i]).within(s3) by {
            assert(proof_.point@[i].within(before));
        }
    }
    assert_all_equal(cs, &r, &proof_.point);
    proof {
        lemma_step_trans(before, s3, cs@);
        lemma_step_trans(s2, s3, cs@);
        lemma_step_trans(s1, s2, cs@);
        assert forall|x: Assignment| #[trigger] cs@.follows(x) implies played(
            pts,
            hash,
            p,
            ats(state0, x),
            proof_.at(x).polys,
        ) == (Check { state: ats(ro.state@, x), claim: claim.at(x), point: ats(r@, x) }) by {
            assert(s3.follows(x) && s1.follows(x));
            assert(proof_.at(x).polys[0] == ats(proof_.polys@[0]@, x));
        }
        assert forall|x: Assignment| #[trigger] cs@.holds(x) implies checked_proof(
            pts,
            hash,
            p,
            ats(state0, x),
            expected.at(x),
            proof_.at(x),
        ) == Some(Check { state: ats(ro.state@, x), claim: claim.at(x), point: ats(r@, x) }) by {
            assert(s3.holds(x));
            assert(s2.holds(x));
            assert(s3.follows(x));
            let pr = proof_.at(x);
            assert forall|i: int| 0 <= i < pr.polys.len() implies (#[trigger] pr.polys[i]).len() == pts.len() by {
                assert(proof_.polys@[i]@.len() == d);
            }
            lemma_run_rounds(pts, hash, p, c0(x), pr.polys, n);
            assert(c0(x).claim == expected.at(x));
        }
        // The values given.
        let own = s3.own();
        lemma_own_agrees(s3);
        lemma_proof_ats(*proof_, s3, own);
        lemma_ats(state0, s3, own);
        lemma_ats(r@, s3, own);
        lemma_own(first, s3);
        let pr = proof_.values();
        assert(c0(own) == c0v);
        assert forall|i: int| 0 <= i < pr.polys.len() implies (#[trigger] pr.polys[i]).len() == pts.len() by {
            assert(proof_.polys@[i]@.len() == d);
        }
        lemma_run_rounds(pts, hash, p, c0v, pr.polys, n);
        let want = Check { state: nvals(state0), claim: expected.value.val(), point: Seq::<int>::empty() };
        lemma_run_rounds(pts, hash, p, want, pr.polys, n);
        let run = run_rounds(pts, hash, p, c0v, pr.polys, n);
        assert(run.point == nvals(r@));
        if first.value.val() == expected.value.val() {
            assert(c0v == want);
        } else {
            // The first round is rejected.
            lemma_own_agrees(s1);
            let own1 = s1.own();
            lemma_own(first, s1);
            lemma_proof_ats(*proof_, s1, own1);
            assert(pr.polys[0] == ats(proof_.polys@[0]@, own1));
            assert(run_rounds(pts, hash, p, want, pr.polys, 0).claim == expected.value.val());
            assert((pr.polys[0][0] + pr.polys[0][1]) % p == first.value.val());
            assert(!sums_match(pts, hash, p, want, pr.polys, n)) by {
                if sums_match(pts, hash, p, want, pr.polys, n) {
                    let z: nat = 0;
                    assert((pr.polys[z as int][0] + pr.polys[z as int][1]) % p == run_rounds(
                        pts,
                        hash,
                        p,
                        want,
                        pr.polys,
                        z,
                    ).claim);
                }
            }
        }
    }
    (claim, r)
}

} // verus!
