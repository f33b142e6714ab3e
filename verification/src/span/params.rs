//! The parameters of recursive steps: circuits over two curves, each of which checks the steps of the other, the sizes
//! at which they fit each other, and the keys.
use super::augmented::{lay_step, layout_depends_on_sizes, CircuitView, KiloNovaAugmentedCircuit};
use super::relation::GlobalStructure;
use crate::augmented::{PredicateSet, TrivialPredicateSet};
use crate::cs::{ConstraintSystem, CsView};
use crate::engine::{CurveEngine, CurveGroup, RandomOracle};
use crate::errors::NovaError;
use crate::field::FieldElement;
use crate::fragment::CircuitEngine;
use crate::math::{ceil_log2, lemma_ceil_log2, logarithm_is_least, max, next_pow2};
use crate::r1cs::{lemma_pad, R1CSShape, ShapeView};
use crate::relation::{largest_is_attained, lemma_max_upto, max_upto, shape_views, Shapes};
use crate::shape::{free_first_variable_has_no_corner, laid_shape, shape_cs_to_shape, shape_of};
use crate::layout::{bare_layout, first_is_free, Layout};
use super::circuit::{corners, sizes};
use vstd::arithmetic::power2::{lemma_pow2_pos, pow2};
use vstd::prelude::*;

verus! {

/// The largest number of predicates, and the largest length of a state.
pub const MAX_COUNT: usize = 0x2000_0000;

/// Whether a shape has the two public values of a step, and leaves the machine the room to pad it.
pub open spec fn step_sized(s: ShapeView) -> bool {
    &&& s.wf()
    &&& s.num_io == 2
    &&& s.num_cons <= usize::MAX / 16
    &&& s.num_vars <= usize::MAX / 16
}

/// A maximum is its lower bound or one of the values.
proof fn lemma_max_attained(f: spec_fn(int) -> int, low: int, n: int)
    ensures
        max_upto(f, low, n) == low || exists|i: int| 0 <= i < n && max_upto(f, low, n) == #[trigger] f(i),
    decreases n,
{
    if n > 0 {
        lemma_max_attained(f, low, n - 1);
        if max_upto(f, low, n) != f(n - 1) && max_upto(f, low, n - 1) != low {
            let i = choose|i: int| 0 <= i < n - 1 && max_upto(f, low, n - 1) == #[trigger] f(i);
            assert(max_upto(f, low, n) == f(i));
        } else {
            assert(max_upto(f, low, n) == f(n - 1) || max_upto(f, low, n) == max_upto(f, low, n - 1));
        }
    }
}

/// Shapes of steps make up a structure.
proof fn lemma_buildable(t: Shapes)
    requires
        0 < t.shapes.len() <= MAX_COUNT,
        forall|i: int| 0 <= i < t.shapes.len() ==> step_sized(#[trigger] t.shapes[i]),
    ensures
        t.buildable(),
        t.num_io() == 2,
        forall|i: int|
            0 <= i < t.shapes.len() ==> {
                &&& (#[trigger] t.padded(i)).wf()
                &&& t.padded(i).num_io == 2
                &&& 0 < t.padded(i).num_vars <= t.num_vars_max()
            },
{
    let n = t.shapes.len() as int;
    let bound: int = usize::MAX as int / 8;
    assert forall|i: int| 0 <= i < n implies {
        &&& (#[trigger] t.padded(i)).wf()
        &&& t.padded(i).num_io == 2
        &&& 0 < t.padded(i).num_vars <= bound
        &&& 0 < t.padded(i).num_cons <= bound
        &&& t.shapes[i].padded_size() <= bound
        &&& next_pow2(t.shapes[i].num_cons) <= bound
        &&& next_pow2(t.shapes[i].num_vars) <= bound
    } by {
        let s = t.shapes[i];
        assert(step_sized(s));
        lemma_pad(s);
        let top = max(max(s.num_vars, s.num_cons), s.num_io);
        lemma_ceil_log2(top);
        if s.num_cons >= 1 {
            lemma_ceil_log2(s.num_cons);
        }
        if s.num_vars >= 1 {
            lemma_ceil_log2(s.num_vars);
        }
        vstd::arithmetic::power2::lemma2_to64();
        assert(ceil_log2(0) == 0);
        lemma_pow2_pos(ceil_log2(s.num_vars));
    }
    let fv = |i: int| t.padded(i).num_vars;
    let fs = |i: int| ceil_log2(t.padded(i).num_cons) as int;
    lemma_max_attained(fv, 0, n);
    lemma_max_attained(fs, 1, n);
    vstd::arithmetic::power2::lemma2_to64();
    assert(t.padded(0).num_io == 2);
    assert(0 <= t.num_vars_max() <= bound) by {
        if t.num_vars_max() != 0 {
            let i = choose|i: int| 0 <= i < n && max_upto(fv, 0, n) == #[trigger] fv(i);
            assert(t.padded(i).num_vars <= bound);
        }
    }
    assert(pow2(t.s_max() as nat) <= usize::MAX) by {
        if t.s_max() != 1 {
            let i = choose|i: int| 0 <= i < n && max_upto(fs, 1, n) == #[trigger] fs(i);
            lemma_ceil_log2(t.padded(i).num_cons);
        }
    }
    let z = t.num_vars_max() + 1 + t.num_io();
    lemma_ceil_log2(z);
    assert(t.s_prime_max() == ceil_log2(z)) by {
        assert(ceil_log2(z) >= 1);
    }
    lemma_ceil_log2(n);
    assert forall|i: int| 0 <= i < n implies {
        &&& (#[trigger] t.shapes[i]).wf()
        &&& t.shapes[i].padded_size() + t.shapes[i].num_io < usize::MAX
        &&& next_pow2(t.shapes[i].num_cons) <= usize::MAX
        &&& next_pow2(t.shapes[i].num_vars) <= usize::MAX
        &&& t.padded(i).num_vars + 1 + t.padded(i).num_io <= pow2(t.s_prime_max() as nat)
        &&& t.padded(i).num_vars + 1 + t.padded(i).num_io <= usize::MAX
    } by {
        assert(step_sized(t.shapes[i]));
        assert(t.padded(i).num_io == 2);
        lemma_max_upto(fv, 0, n, i);
        assert(fv(i) == t.padded(i).num_vars);
    }
    assert forall|i: int| 0 <= i < n implies 0 < (#[trigger] t.padded(i)).num_vars <= t.num_vars_max() by {
        lemma_max_upto(fv, 0, n, i);
        assert(fv(i) == t.padded(i).num_vars);
    }
}

/// The shape that the search for sizes starts from.
pub fn dummy_shape<E: CurveEngine>() -> (r: R1CSShape<E>)
    ensures
        step_sized(r@),
        r@.num_cons == 4,
        r@.num_vars == 4,
        r@.mats == seq![Seq::<(int, int, int)>::empty(), Seq::empty(), Seq::empty()],
{
    let A: Vec<(usize, usize, E::Scalar)> = Vec::new();
    let B: Vec<(usize, usize, E::Scalar)> = Vec::new();
    let C: Vec<(usize, usize, E::Scalar)> = Vec::new();
    proof {
        assert(crate::r1cs::entries(A@) =~= Seq::empty());
        assert(crate::r1cs::entries(B@) =~= Seq::empty());
        assert(crate::r1cs::entries(C@) =~= Seq::empty());
    }
    match R1CSShape::new(4, 4, 2, A, B, C) {
        Ok(r) => r,
        Err(_) => vstd::pervasive::unreached(),
    }
}

/// The sizes of a structure, and those of its predicates.
pub type Signature = (usize, usize, usize, usize, Seq<(usize, usize, usize)>);

/// The sizes of a structure, and those of its predicates.
pub open spec fn signature<E: CurveEngine>(structure: GlobalStructure<E>) -> Signature {
    let s = structure.index;
    (
        s.num_vars_max,
        s.s_max,
        s.s_prime_max,
        s.predicates@.len() as usize,
        Seq::new(
            s.predicates@.len(),
            |i: int|
                (s.predicates@[i].shape.num_cons, s.predicates@[i].shape.num_vars, s.predicates@[i].shape.num_io),
        ),
    )
}

/// The sizes of a structure, and those of its predicates.
pub fn structure_signature<E: CurveEngine>(structure: &GlobalStructure<E>) -> (r: (
    usize,
    usize,
    usize,
    usize,
    Vec<(usize, usize, usize)>,
))
    ensures
        (r.0, r.1, r.2, r.3, r.4@) == signature(*structure),
        r.0 == structure.index.num_vars_max && r.1 == structure.index.s_max && r.2 == structure.index.s_prime_max,
        r.3 == structure.index.predicates@.len() && r.4@.len() == structure.index.predicates@.len(),
        forall|i: int|
            0 <= i < r.4@.len() ==> #[trigger] r.4@[i] == (
                structure.index.predicates@[i].shape.num_cons,
                structure.index.predicates@[i].shape.num_vars,
                structure.index.predicates@[i].shape.num_io,
            ),
{
    let s = &structure.index;
    let mut sizes: Vec<(usize, usize, usize)> = Vec::new();
    let mut i: usize = 0;
    while i < s.predicates.len()
        invariant
            i <= s.predicates.len(),
            s == structure.index,
            sizes@.len() == i,
            forall|k: int|
                0 <= k < i ==> #[trigger] sizes@[k] == (
                    s.predicates@[k].shape.num_cons,
                    s.predicates@[k].shape.num_vars,
                    s.predicates@[k].shape.num_io,
                ),
        decreases s.predicates.len() - i,
    {
        let shape = &s.predicates[i].shape;
        sizes.push((shape.num_cons, shape.num_vars, shape.num_io));
        i = i + 1;
    }
    assert(sizes@ =~= signature(*structure).4);
    (s.num_vars_max, s.s_max, s.s_prime_max, s.predicates.len(), sizes)
}

/// Whether two structures have the same sizes.
fn same_signature<E: CurveEngine>(a: &GlobalStructure<E>, b: &GlobalStructure<E>) -> (r: bool)
    ensures
        r == (signature(*a) == signature(*b)),
{
    let (x, y) = (structure_signature(a), structure_signature(b));
    if x.0 != y.0 || x.1 != y.1 || x.2 != y.2 || x.3 != y.3 || x.4.len() != y.4.len() {
        return false;
    }
    let mut i: usize = 0;
    while i < x.4.len()
        invariant
            i <= x.4.len(),
            x.4.len() == y.4.len(),
            x.4@ == signature(*a).4,
            y.4@ == signature(*b).4,
            forall|k: int| 0 <= k < i ==> x.4@[k] == y.4@[k],
        decreases x.4.len() - i,
    {
        if x.4[i].0 != y.4[i].0 || x.4[i].1 != y.4[i].1 || x.4[i].2 != y.4[i].2 {
            assert(x.4@[i as int] != y.4@[i as int]);
            return false;
        }
        i = i + 1;
    }
    assert(x.4@ =~= y.4@);
    true
}

/// The size of a key that covers the variables of every shape, and what the hint asks for.
pub fn max_commitment_key_size<E: CurveEngine, H: Fn(&R1CSShape<E>) -> usize>(shapes: &Vec<R1CSShape<E>>, ck_hint: &H) -> (r:
    usize)
    requires
        forall|shape: &R1CSShape<E>| call_requires(*ck_hint, (shape,)),
    ensures
        exists|hints: Seq<usize>| #[trigger]
            key_size_of(shapes@, *ck_hint, hints) && r == max_upto(
                |i: int| max(shapes@[i].num_vars as int, hints[i] as int),
                0,
                shapes@.len() as int,
            ),
{
    let mut r: usize = 0;
    let mut i: usize = 0;
    let ghost mut hints: Seq<usize> = Seq::empty();
    while i < shapes.len()
        invariant
            i <= shapes.len(),
            hints.len() == i,
            forall|shape: &R1CSShape<E>| call_requires(*ck_hint, (shape,)),
            forall|k: int| 0 <= k < i ==> call_ensures(*ck_hint, (&shapes@[k],), #[trigger] hints[k]),
            r == max_upto(|k: int| max(shapes@[k].num_vars as int, hints[k] as int), 0, i as int),
        decreases shapes.len() - i,
    {
        let hint: usize = ck_hint(&shapes[i]);
        let ghost before = hints;
        proof {
            hints = hints.push(hint);
            lemma_max_same(
                |k: int| max(shapes@[k].num_vars as int, before[k] as int),
                |k: int| max(shapes@[k].num_vars as int, hints[k] as int),
                0,
                i as int,
            );
        }
        if shapes[i].num_vars > r {
            r = shapes[i].num_vars;
        }
        if hint > r {
            r = hint;
        }
        i = i + 1;
    }
    assert(key_size_of(shapes@, *ck_hint, hints));
    r
}

/// Whether a hint asks for these sizes.
pub open spec fn key_size_of<E: CurveEngine, H: Fn(&R1CSShape<E>) -> usize>(
    shapes: Seq<R1CSShape<E>>,
    ck_hint: H,
    hints: Seq<usize>,
) -> bool {
    &&& hints.len() == shapes.len()
    &&& forall|k: int| 0 <= k < hints.len() ==> call_ensures(ck_hint, (&shapes[k],), #[trigger] hints[k])
}

/// The maximum depends only on the values below.
proof fn lemma_max_same(f: spec_fn(int) -> int, g: spec_fn(int) -> int, low: int, n: int)
    requires
        forall|i: int| 0 <= i < n ==> #[trigger] f(i) == g(i),
    ensures
        max_upto(f, low, n) == max_upto(g, low, n),
    decreases n,
{
    if n > 0 {
        lemma_max_same(f, g, low, n - 1);
        assert(f(n - 1) == g(n - 1));
    }
}

/// The shape over one curve of the circuit of a step over the other.
fn step_shape<E, EO, PS>(circuit: &KiloNovaAugmentedCircuit<'_, E, PS>) -> (r: R1CSShape<EO>) where
    E: CircuitEngine + CurveGroup<Base = <EO as CurveGroup>::Scalar>,
    EO: CurveEngine,
    PS: PredicateSet<<EO as CurveGroup>::Scalar>,

    requires
        circuit.wf(),
    ensures
        is_step_shape(*circuit, r@),
        r@.wf(),
        r@.num_io == 2 ==> step_sized(r@),
{
    let mut cs: ConstraintSystem<EO::Scalar> = ConstraintSystem::new(false);
    assert(cs@.layout() =~= bare_layout());
    let _next = circuit.synthesize(&mut cs);
    proof {
        reveal(CsView::wf);
        assert(circuit.synthesized(cs@));
    }
    cs.limit_sizes();
    shape_cs_to_shape(&cs)
}

/// What one round of the search for sizes comes to.
pub struct SetupRound<E1: CurveEngine, E2: CurveEngine> {
    pub primary_shapes: Vec<R1CSShape<E1>>,
    pub shape_secondary: R1CSShape<E2>,
    pub structure_secondary: GlobalStructure<E2>,
    /// Whether the sizes are those that the round started from.
    pub settled: bool,
}

/// A circuit of a step that is given nothing.
pub open spec fn bare_circuit<'a, E: CircuitEngine, PS: PredicateSet<E::Base>>(
    is_primary_circuit: bool,
    predicate_set: &'a PS,
    step_predicate_id: usize,
    ro_consts: &'a <E::RO as RandomOracle<E::Base>>::Constants,
    structure: &'a GlobalStructure<E>,
) -> KiloNovaAugmentedCircuit<'a, E, PS> {
    KiloNovaAugmentedCircuit {
        is_primary_circuit,
        ro_consts,
        structure,
        inputs: None,
        predicate_set,
        step_predicate_id,
        incoming_predicate_id: 0,
    }
}

/// Whether a shape is that of a circuit of a step.
pub open spec fn is_step_shape<E: CircuitEngine, PS: PredicateSet<E::Base>>(
    circuit: KiloNovaAugmentedCircuit<'_, E, PS>,
    shape: ShapeView,
) -> bool {
    &&& exists|cs: CsView| #[trigger] circuit.synthesized(cs) && shape == shape_of(cs)
    &&& circuit.predicate_set.total() ==> {
        &&& shape == laid_shape(circuit.lays(bare_layout()).0)
        &&& first_is_free(circuit.lays(bare_layout()).0)
        &&& circuit.lays(bare_layout()).0.aux > 0
        &&& shape.num_io == 2 + circuit.predicate_set.publishes(circuit.step_predicate_id as int)
    }
}

/// Whether a predicate makes values public.
pub open spec fn publishing<F: FieldElement, PS: PredicateSet<F>>(predicates: PS) -> bool {
    exists|i: int| 0 <= i < predicates.count() && #[trigger] predicates.publishes(i) != 0
}

impl<E1, E2> SetupRound<E1, E2> where
    E1: CircuitEngine + CurveGroup<Base = <E2 as CurveGroup>::Scalar>,
    E2: CircuitEngine + CurveGroup<Base = <E1 as CurveGroup>::Scalar>,
 {
    /// Whether all shapes are those of a step.
    pub open spec fn sized(&self) -> bool {
        &&& 0 < self.primary_shapes@.len() <= MAX_COUNT
        &&& forall|i: int| 0 <= i < self.primary_shapes@.len() ==> step_sized((#[trigger] self.primary_shapes@[i])@)
        &&& step_sized(self.shape_secondary@)
        &&& self.structure_secondary.wf()
        &&& self.structure_secondary@.num_io == 2
        &&& self.structure_secondary@.len() == 1
    }

    /// Whether shapes are those of the circuits of the predicates over a structure, and make up another.
    pub open spec fn primary_from<PS: PredicateSet<<E1 as CurveGroup>::Scalar>>(
        shapes: Seq<R1CSShape<E1>>,
        predicates: &PS,
        ro_consts_secondary: &<E2::RO as RandomOracle<E2::Base>>::Constants,
        guess: &GlobalStructure<E2>,
        structure_primary: &GlobalStructure<E1>,
    ) -> bool {
        &&& shapes.len() == predicates.count()
        &&& forall|i: int|
            0 <= i < shapes.len() ==> is_step_shape(
                bare_circuit::<E2, PS>(true, predicates, i as usize, ro_consts_secondary, guess),
                (#[trigger] shapes[i])@,
            )
        &&& shape_views(shapes).describes::<E1>(structure_primary@)
    }

    /// Whether the shapes are those of the circuits of the predicates over a structure, and of the circuit that checks
    /// these.
    pub open spec fn made_from<PS: PredicateSet<<E1 as CurveGroup>::Scalar>>(
        &self,
        predicates: &PS,
        ro_consts_primary: &<E1::RO as RandomOracle<E1::Base>>::Constants,
        ro_consts_secondary: &<E2::RO as RandomOracle<E2::Base>>::Constants,
        guess: &GlobalStructure<E2>,
        structure_primary: &GlobalStructure<E1>,
    ) -> bool {
        &&& Self::primary_from(self.primary_shapes@, predicates, ro_consts_secondary, guess, structure_primary)
        &&& is_step_shape(
            bare_circuit::<E1, TrivialPredicateSet>(
                false,
                &TrivialPredicateSet {  },
                0,
                ro_consts_primary,
                structure_primary,
            ),
            self.shape_secondary@,
        )
        &&& shape_views(seq![self.shape_secondary]).describes::<E2>(self.structure_secondary@)
    }
}

/// The shapes of the circuits of all predicates over a structure. Refused if one has not the two public values of a step.
fn predicate_shapes<E1, E2, PS>(
    predicates: &PS,
    ro_consts: &<E2::RO as RandomOracle<E2::Base>>::Constants,
    guess: &GlobalStructure<E2>,
) -> (r: Result<Vec<R1CSShape<E1>>, NovaError>) where
    E1: CircuitEngine + CurveGroup<Base = <E2 as CurveGroup>::Scalar>,
    E2: CircuitEngine + CurveGroup<Base = <E1 as CurveGroup>::Scalar>,
    PS: PredicateSet<<E1 as CurveGroup>::Scalar>,

    requires
        guess.wf(),
        guess@.num_io == 2,
        0 < guess@.len() <= MAX_COUNT,
        predicates.width() <= MAX_COUNT,
        predicates.count() <= MAX_COUNT,
    ensures
        match r {
            Ok(shapes) => {
                &&& shapes@.len() == predicates.count()
                &&& forall|i: int|
                    0 <= i < shapes@.len() ==> step_sized((#[trigger] shapes@[i])@) && is_step_shape(
                        bare_circuit::<E2, PS>(true, predicates, i as usize, ro_consts, guess),
                        shapes@[i]@,
                    )
            },
            Err(e) => {
                &&& e == NovaError::InvalidStepCircuitIO
                &&& predicates.total() ==> publishing::<E1::Scalar, PS>(*predicates)
                &&& exists|i: usize, s: ShapeView|
                    i < predicates.count() && #[trigger] is_step_shape(
                        bare_circuit::<E2, PS>(true, predicates, i, ro_consts, guess),
                        s,
                    ) && s.num_io != 2
            },
        },
{
    let mut shapes: Vec<R1CSShape<E1>> = Vec::new();
    let n = predicates.num_predicates();
    let mut i: usize = 0;
    while i < n
        invariant
            i <= n,
            n == predicates.count(),
            guess.wf(),
            guess@.num_io == 2,
            0 < guess@.len() <= MAX_COUNT,
            predicates.width() <= MAX_COUNT,
            shapes@.len() == i,
            forall|k: int|
                0 <= k < i ==> step_sized((#[trigger] shapes@[k])@) && is_step_shape(
                    bare_circuit::<E2, PS>(true, predicates, k as usize, ro_consts, guess),
                    shapes@[k]@,
                ),
        decreases n - i,
    {
        let circuit: KiloNovaAugmentedCircuit<'_, E2, PS> = KiloNovaAugmentedCircuit::new(
            true,
            None,
            predicates,
            i,
            0,
            ro_consts,
            guess,
        );
        assert(circuit == bare_circuit::<E2, PS>(true, predicates, i, ro_consts, guess));
        let shape = step_shape::<E2, E1, PS>(&circuit);
        if shape.num_io != 2 {
            return Err(NovaError::InvalidStepCircuitIO);
        }
        shapes.push(shape);
        i = i + 1;
    }
    Ok(shapes)
}

/// One round of the search for sizes: the shapes of the predicates over a guessed structure, the shape of the circuit
/// that checks these, and the structure that this one makes up. Refused if a circuit has not the two
/// public values of a step.
pub fn setup_round<E1, E2, PS>(
    predicates: &PS,
    ro_consts_primary: &<E1::RO as RandomOracle<E1::Base>>::Constants,
    ro_consts_secondary: &<E2::RO as RandomOracle<E2::Base>>::Constants,
    guess: &GlobalStructure<E2>,
) -> (r: Result<SetupRound<E1, E2>, NovaError>) where
    E1: CircuitEngine + CurveGroup<Base = <E2 as CurveGroup>::Scalar>,
    E2: CircuitEngine + CurveGroup<Base = <E1 as CurveGroup>::Scalar>,
    PS: PredicateSet<<E1 as CurveGroup>::Scalar>,

    requires
        guess.wf(),
        guess@.num_io == 2,
        0 < guess@.len() <= MAX_COUNT,
        predicates.width() <= MAX_COUNT,
        0 < predicates.count() <= MAX_COUNT,
    ensures
        r matches Ok(round) ==> {
            &&& round.sized()
            &&& exists|structure_primary: GlobalStructure<E1>| #[trigger]
                round.made_from(predicates, ro_consts_primary, ro_consts_secondary, guess, &structure_primary)
            &&& round.settled == (signature(*guess) == signature(round.structure_secondary))
            &&& predicates.total() ==> !publishing::<E1::Scalar, PS>(*predicates)
        },
        r matches Err(e) ==> {
            &&& e == NovaError::InvalidStepCircuitIO
            &&& predicates.total() ==> publishing::<E1::Scalar, PS>(*predicates)
            &&& exists|i: usize, s: ShapeView|
                i < predicates.count() && #[trigger] is_step_shape(
                    bare_circuit::<E2, PS>(true, predicates, i, ro_consts_secondary, guess),
                    s,
                ) && s.num_io != 2
        },
{
    let primary_shapes = match predicate_shapes::<E1, E2, PS>(predicates, ro_consts_secondary, guess) {
        Ok(shapes) => shapes,
        Err(e) => {
            return Err(e);
        },
    };
    proof {
        lemma_buildable(shape_views(primary_shapes@));
    }
    let structure_primary = GlobalStructure::<E1>::new_for_setup(&primary_shapes);
    assert(SetupRound::<E1, E2>::primary_from(
        primary_shapes@,
        predicates,
        ro_consts_secondary,
        guess,
        &structure_primary,
    ));
    let tc = TrivialPredicateSet::default();
    let circuit: KiloNovaAugmentedCircuit<'_, E1, TrivialPredicateSet> = KiloNovaAugmentedCircuit::new(
        false,
        None,
        &tc,
        0,
        0,
        ro_consts_primary,
        &structure_primary,
    );
    assert(circuit == bare_circuit::<E1, TrivialPredicateSet>(
        false,
        &TrivialPredicateSet {  },
        0,
        ro_consts_primary,
        &structure_primary,
    ));
    let shape_secondary = step_shape::<E1, E2, TrivialPredicateSet>(&circuit);
    let mut shapes: Vec<R1CSShape<E2>> = Vec::new();
    shapes.push(shape_secondary);
    assert(shapes@ =~= seq![shape_secondary]);
    proof {
        assert(step_sized(shape_views(shapes@).shapes[0]));
        lemma_buildable(shape_views(shapes@));
    }
    let structure_secondary = GlobalStructure::<E2>::new_for_setup(&shapes);
    let settled = same_signature(guess, &structure_secondary);
    let shape_secondary = match shapes.pop() {
        Some(shape) => shape,
        None => vstd::pervasive::unreached(),
    };
    proof {
        if predicates.total() {
            assert forall|i: int| 0 <= i < predicates.count() implies #[trigger] predicates.publishes(i) == 0 by {
                assert(step_sized(primary_shapes@[i]@));
                assert(is_step_shape(
                    bare_circuit::<E2, PS>(true, predicates, i as usize, ro_consts_secondary, guess),
                    primary_shapes@[i]@,
                ));
            }
            assert(!publishing::<E1::Scalar, PS>(*predicates));
        }
    }
    let round = SetupRound { primary_shapes, shape_secondary, structure_secondary, settled };
    proof {
        assert(round.made_from(predicates, ro_consts_primary, ro_consts_secondary, guess, &structure_primary));
        assert(step_sized(round.shape_secondary@));
        assert(round.sized());
        assert(predicates.total() ==> !publishing::<E1::Scalar, PS>(*predicates));
    }
    Ok(round)
}

/// What the steps of a proof share.
pub struct PublicParams<E1, E2, PS> where
    E1: CircuitEngine + CurveGroup<Base = <E2 as CurveGroup>::Scalar>,
    E2: CircuitEngine + CurveGroup<Base = <E1 as CurveGroup>::Scalar>,
    PS: PredicateSet<<E1 as CurveGroup>::Scalar>,
 {
    pub F_arity: usize,
    pub ro_consts_primary: <E1::RO as RandomOracle<E1::Base>>::Constants,
    pub ro_consts_secondary: <E2::RO as RandomOracle<E2::Base>>::Constants,
    pub ck_primary: E1::CommitmentKey,
    pub structure_primary: GlobalStructure<E1>,
    pub ck_secondary: E2::CommitmentKey,
    pub structure_secondary: GlobalStructure<E2>,
    /// The digest that stands for the parameters.
    pub digest: E1::Scalar,
    pub _p: core::marker::PhantomData<PS>,
}

/// Whether a structure is that of steps: its predicates have two public values, and a key covers their variables.
pub open spec fn step_structure<E: CurveEngine>(structure: GlobalStructure<E>, ck: E::CommitmentKey) -> bool {
    &&& structure.wf()
    &&& structure@.num_io == 2
    &&& 0 < structure@.len() <= MAX_COUNT
    &&& structure.index.predicates@.len() == structure@.len()
    &&& structure@.num_vars_max <= E::generators(&ck).len()
    &&& forall|i: int|
        0 <= i < structure.index.predicates@.len() ==> {
            let s = (#[trigger] structure.index.predicates@[i]).shape@;
            &&& s.wf()
            &&& s.num_io == 2
            &&& 0 < s.num_vars <= structure@.num_vars_max
        }
}

/// What a search for parameters comes to.
pub enum SetupOutcome<E1, E2, PS> where
    E1: CircuitEngine + CurveGroup<Base = <E2 as CurveGroup>::Scalar>,
    E2: CircuitEngine + CurveGroup<Base = <E1 as CurveGroup>::Scalar>,
    PS: PredicateSet<<E1 as CurveGroup>::Scalar>,
 {
    /// The parameters.
    Done { params: PublicParams<E1, E2, PS> },
    /// The sizes have not settled within the rounds that the machine can count.
    Unsettled,
    /// A key is too large for the machine.
    TooLarge,
    /// A key that covers the variables and what the hint asks for does not cover a padded witness.
    KeyTooShort,
}

/// Whether a structure is that of the shape which the search for sizes starts from.
pub open spec fn first_guess<E: CurveEngine>(structure: GlobalStructure<E>) -> bool {
    exists|shape: R1CSShape<E>| #[trigger]
        shape_views(seq![shape]).describes::<E>(structure@) && shape@ == (ShapeView {
            num_cons: 4,
            num_vars: 4,
            num_io: 2,
            mats: seq![Seq::<(int, int, int)>::empty(), Seq::empty(), Seq::empty()],
        })
}

/// Whether a key that covers the variables of some shapes and what a hint asks for is too large for the machine, or else
/// does not cover a padded witness.
pub open spec fn keyless<E: CurveEngine, H: Fn(&R1CSShape<E>) -> usize>(
    shapes: Seq<R1CSShape<E>>,
    ck_hint: H,
    too_large: bool,
) -> bool {
    exists|hints: Seq<usize>| #[trigger]
        key_size_of(shapes, ck_hint, hints) && ({
            let n = max_upto(|i: int| max(shapes[i].num_vars as int, hints[i] as int), 0, shapes.len() as int);
            if too_large {
                n > usize::MAX / 4
            } else {
                next_pow2(n) < shape_views(shapes).num_vars_max()
            }
        })
}

/// Whether a key is the one that covers the variables of some shapes and what a hint asks for, made of the points that its
/// label gives.
pub open spec fn keyed<E: CurveEngine, H: Fn(&R1CSShape<E>) -> usize>(
    shapes: Seq<R1CSShape<E>>,
    ck_hint: H,
    ck: E::CommitmentKey,
) -> bool {
    &&& E::blinding(&ck) == E::labelled_point("ck"@, 0)
    &&& forall|i: int|
        0 <= i < E::generators(&ck).len() ==> #[trigger] E::generators(&ck)[i] == E::labelled_point("ck"@, i + 1)
    &&& exists|hints: Seq<usize>| #[trigger]
        key_size_of(shapes, ck_hint, hints) && E::generators(&ck).len() == next_pow2(
            max_upto(|i: int| max(shapes[i].num_vars as int, hints[i] as int), 0, shapes.len() as int),
        )
}

/// A structure of the given shapes with a key that covers their variables and what a hint asks for. Nothing if the key
/// is too large for the machine, or else does not cover a padded witness: the flag tells which.
fn keyed_structure<E: CurveEngine, H: Fn(&R1CSShape<E>) -> usize>(shapes: &Vec<R1CSShape<E>>, ck_hint: &H) -> (r: Result<
    (E::CommitmentKey, GlobalStructure<E>),
    bool,
>)
    requires
        0 < shapes@.len() <= MAX_COUNT,
        forall|i: int| 0 <= i < shapes@.len() ==> step_sized((#[trigger] shapes@[i])@),
        forall|shape: &R1CSShape<E>| call_requires(*ck_hint, (shape,)),
    ensures
        r matches Err(too_large) ==> keyless(shapes@, *ck_hint, too_large),
        r matches Ok((ck, _)) ==> keyed(shapes@, *ck_hint, ck),
        exists|hints: Seq<usize>| #[trigger]
            key_size_of(shapes@, *ck_hint, hints) && ({
                let n = max_upto(
                    |i: int| max(shapes@[i].num_vars as int, hints[i] as int),
                    0,
                    shapes@.len() as int,
                );
                match r {
                    Ok((ck, structure)) => {
                        &&& step_structure(structure, ck)
                        &&& shape_views(shapes@).describes::<E>(structure@)
                        &&& structure@.len() == shapes@.len()
                        &&& forall|i: int|
                            0 <= i < shapes@.len() ==> (#[trigger] structure.index.predicates@[i]).shape@ == shapes@[i]@.pad()
                        &&& E::generators(&ck).len() == next_pow2(n)
                    },
                    Err(true) => n > usize::MAX / 4,
                    Err(false) => next_pow2(n) < shape_views(shapes@).num_vars_max(),
                }
            }),
{
    let n = max_commitment_key_size(shapes, ck_hint);
    if n > usize::MAX / 4 {
        return Err(true);
    }
    proof {
        if n >= 1 {
            lemma_ceil_log2(n as int);
        } else {
            vstd::arithmetic::power2::lemma2_to64();
            assert(ceil_log2(0) == 0);
        }
        lemma_buildable(shape_views(shapes@));
    }
    let structure = GlobalStructure::<E>::new(shapes);
    if crate::r1cs::next_power_of_two(n) < structure.index.num_vars_max {
        return Err(false);
    }
    let ck = E::setup("ck", n);
    proof {
        assert forall|i: int| 0 <= i < structure.index.predicates@.len() implies {
            let s = (#[trigger] structure.index.predicates@[i]).shape@;
            &&& s == shapes@[i]@.pad()
            &&& s.wf()
            &&& s.num_io == 2
            &&& 0 < s.num_vars <= structure@.num_vars_max
        } by {
            assert(shape_views(shapes@).padded(i) == shapes@[i]@.pad());
        }
    }
    Ok((ck, structure))
}

/// The parameters of a round in which the sizes have settled, with no digest yet. Nothing if a key is too large for the
/// machine, or else does not cover a padded witness: the flag tells which.
fn keyed_params<E1, E2, PS, H1, H2>(
    predicates: &PS,
    ck_hint1: &H1,
    ck_hint2: &H2,
    ro_consts_primary: <E1::RO as RandomOracle<E1::Base>>::Constants,
    ro_consts_secondary: <E2::RO as RandomOracle<E2::Base>>::Constants,
    round: SetupRound<E1, E2>,
    guess: Ghost<GlobalStructure<E2>>,
    s: Ghost<GlobalStructure<E1>>,
) -> (r: Result<PublicParams<E1, E2, PS>, bool>) where
    E1: CircuitEngine + CurveGroup<Base = <E2 as CurveGroup>::Scalar>,
    E2: CircuitEngine + CurveGroup<Base = <E1 as CurveGroup>::Scalar>,
    PS: PredicateSet<<E1 as CurveGroup>::Scalar>,
    H1: Fn(&R1CSShape<E1>) -> usize,
    H2: Fn(&R1CSShape<E2>) -> usize,

    requires
        predicates.width() <= MAX_COUNT,
        guess@.wf(),
        guess@@.num_io == 2,
        round.sized(),
        round.settled,
        signature(guess@) == signature(round.structure_secondary),
        round.made_from(predicates, &ro_consts_primary, &ro_consts_secondary, &guess@, &s@),
        forall|shape: &R1CSShape<E1>| call_requires(*ck_hint1, (shape,)),
        forall|shape: &R1CSShape<E2>| call_requires(*ck_hint2, (shape,)),
    ensures
        r matches Ok(params) ==> {
            &&& params.wf()
            &&& params.serves(*predicates)
            &&& predicates.total() ==> params.fits(*predicates)
            &&& params.made_in(predicates, &guess@, round)
            &&& params.ro_consts_primary == ro_consts_primary
            &&& params.ro_consts_secondary == ro_consts_secondary
            &&& keyed(round.primary_shapes@, *ck_hint1, params.ck_primary)
            &&& keyed(seq![round.shape_secondary], *ck_hint2, params.ck_secondary)
            &&& params.structure_primary@.len() == round.primary_shapes@.len()
        },
        r matches Err(too_large) ==> keyless(round.primary_shapes@, *ck_hint1, too_large) || keyless(
            seq![round.shape_secondary],
            *ck_hint2,
            too_large,
        ),
{
    let ghost whole = round;
    let (ck_primary, structure_primary) = match keyed_structure(&round.primary_shapes, ck_hint1) {
        Ok(r) => r,
        Err(too_large) => {
            return Err(too_large);
        },
    };
    let mut secondary_shapes: Vec<R1CSShape<E2>> = Vec::new();
    secondary_shapes.push(round.shape_secondary);
    assert(secondary_shapes@ =~= seq![whole.shape_secondary]);
    let (ck_secondary, structure_secondary) = match keyed_structure(&secondary_shapes, ck_hint2) {
        Ok(r) => r,
        Err(too_large) => {
            return Err(too_large);
        },
    };
    let params = PublicParams {
        F_arity: predicates.arity(),
        ro_consts_primary,
        ro_consts_secondary,
        ck_primary,
        structure_primary,
        ck_secondary,
        structure_secondary,
        digest: E1::Scalar::from_u64(0),
        _p: core::marker::PhantomData,
    };
    proof {
        vstd::arithmetic::power2::lemma_pow2_pos(250);
        assert(whole.made_from(predicates, &params.ro_consts_primary, &params.ro_consts_secondary, &guess@, &s@));
        assert(params.made_in(predicates, &guess@, whole));
        assert(params.structure_secondary.index.predicates@[0].shape@ == secondary_shapes@[0]@.pad());
        if predicates.total() {
            params.lemma_fits(predicates, &guess@, whole, &s@);
        }
    }
    Ok(params)
}

impl<E1, E2, PS> PublicParams<E1, E2, PS> where
    E1: CircuitEngine + CurveGroup<Base = <E2 as CurveGroup>::Scalar>,
    E2: CircuitEngine + CurveGroup<Base = <E1 as CurveGroup>::Scalar>,
    PS: PredicateSet<<E1 as CurveGroup>::Scalar>,
 {
    /// Whether the structures are those of steps, covered by their keys, and the digest is as short as a hash.
    pub open spec fn wf(&self) -> bool {
        &&& step_structure(self.structure_primary, self.ck_primary)
        &&& step_structure(self.structure_secondary, self.ck_secondary)
        &&& self.structure_secondary@.len() == 1
        &&& self.F_arity <= MAX_COUNT
        &&& self.digest.val() < pow2(250)
    }

    /// Whether the parameters were made for these predicates.
    pub open spec fn serves(&self, predicates: PS) -> bool {
        &&& self.F_arity == predicates.width()
        &&& self.structure_primary@.len() == predicates.count()
    }

    /// Whether the parameters are those of a round in which the sizes have settled.
    pub open spec fn made_in(&self, predicates: &PS, guess: &GlobalStructure<E2>, round: SetupRound<E1, E2>) -> bool {
        &&& round.settled
        &&& signature(*guess) == signature(round.structure_secondary)
        &&& exists|s: GlobalStructure<E1>| #[trigger]
            round.made_from(predicates, &self.ro_consts_primary, &self.ro_consts_secondary, guess, &s)
        &&& shape_views(round.primary_shapes@).describes::<E1>(self.structure_primary@)
        &&& shape_views(seq![round.shape_secondary]).describes::<E2>(self.structure_secondary@)
    }

    /// What the circuit of a predicate checks against.
    pub open spec fn primary_rules(&self, id: int) -> CircuitView {
        CircuitView {
            is_primary_circuit: true,
            s: self.structure_secondary@,
            step_predicate_id: id,
            incoming_predicate_id: 0,
        }
    }

    /// What the circuit checks against that takes a step of a predicate.
    pub open spec fn secondary_rules(&self, id: int) -> CircuitView {
        CircuitView {
            is_primary_circuit: false,
            s: self.structure_primary@,
            step_predicate_id: 0,
            incoming_predicate_id: id,
        }
    }

    /// Whether the matrices of a predicate have the same first entries as those of the first predicate.
    pub open spec fn takes(&self, id: int) -> bool {
        &&& 0 <= id < self.structure_primary@.len()
        &&& corners(self.structure_primary@, id, E1::Base::modulus()) == corners(
            self.structure_primary@,
            0,
            E1::Base::modulus(),
        )
    }

    /// The layout of the circuit that takes a step of a predicate.
    pub open spec fn secondary_layout(&self, id: int) -> Layout {
        lay_step::<E1, TrivialPredicateSet>(self.secondary_rules(id), TrivialPredicateSet {  }, bare_layout()).0
    }

    /// Whether the shapes that are kept are those of the circuits of the steps, whatever the predicate.
    pub open spec fn fits(&self, predicates: PS) -> bool {
        &&& forall|i: int| 0 <= i < self.structure_primary@.len() ==> #[trigger] self.takes(i)
        &&& forall|i: int|
            0 <= i < predicates.count() ==> (#[trigger] self.structure_primary.index.predicates@[i]).shape@
                == laid_shape(lay_step::<E2, PS>(self.primary_rules(i), predicates, bare_layout()).0).pad()
        &&& self.structure_secondary.index.predicates@[0].shape@ == laid_shape(self.secondary_layout(0)).pad()
    }

    /// Whether parameters differ from others in the digest only.
    pub open spec fn same_but_digest(&self, other: Self) -> bool {
        &&& self.F_arity == other.F_arity
        &&& self.ro_consts_primary == other.ro_consts_primary
        &&& self.ro_consts_secondary == other.ro_consts_secondary
        &&& self.ck_primary == other.ck_primary
        &&& self.structure_primary == other.structure_primary
        &&& self.ck_secondary == other.ck_secondary
        &&& self.structure_secondary == other.structure_secondary
    }

    /// Whether the digest is one that a function gives of all the rest.
    pub open spec fn digested_by<D: Fn(&PublicParams<E1, E2, PS>) -> E1::Scalar>(&self, digester: D) -> bool {
        exists|rest: Self| #[trigger] rest.same_but_digest(*self) && call_ensures(digester, (&rest,), self.digest)
    }

    /// What holds of parameters holds of them with another digest.
    proof fn lemma_digested(&self, other: Self, predicates: &PS, guess: &GlobalStructure<E2>, round: SetupRound<E1, E2>)
        requires
            self.same_but_digest(other),
            self.wf(),
            other.digest.val() < pow2(250),
        ensures
            other.wf(),
            self.serves(*predicates) ==> other.serves(*predicates),
            self.fits(*predicates) ==> other.fits(*predicates),
            self.made_in(predicates, guess, round) ==> other.made_in(predicates, guess, round),
    {
        assert forall|i: int| #[trigger] other.takes(i) == self.takes(i) by {}
        assert forall|i: int| #[trigger] other.primary_rules(i) == self.primary_rules(i) by {}
        assert(other.secondary_layout(0) == self.secondary_layout(0));
    }

    /// The shapes of a round in which the sizes have settled are those of the circuits over the structures that are kept.
    proof fn lemma_fits(
        &self,
        predicates: &PS,
        guess: &GlobalStructure<E2>,
        round: SetupRound<E1, E2>,
        s: &GlobalStructure<E1>,
    )
        requires
            predicates.total(),
            guess.wf(),
            guess@.num_io == 2,
            round.sized(),
            self.structure_secondary.wf(),
            self.made_in(predicates, guess, round),
            round.made_from(predicates, &self.ro_consts_primary, &self.ro_consts_secondary, guess, s),
            self.structure_primary@.len() == predicates.count(),
            self.structure_secondary@.num_io == 2,
            forall|i: int|
                0 <= i < predicates.count() ==> (#[trigger] self.structure_primary.index.predicates@[i]).shape@
                    == round.primary_shapes@[i]@.pad(),
            self.structure_secondary.index.predicates@[0].shape@ == round.shape_secondary@.pad(),
        ensures
            self.fits(*predicates),
    {
        assert(sizes(guess@) == sizes(round.structure_secondary@)) by {
            assert(signature(*guess).4.len() == signature(round.structure_secondary).4.len());
        }
        assert(sizes(guess@) == sizes(self.structure_secondary@));
        assert forall|i: int| 0 <= i < predicates.count() implies (
        #[trigger] self.structure_primary.index.predicates@[i]).shape@ == laid_shape(
            lay_step::<E2, PS>(self.primary_rules(i), *predicates, bare_layout()).0,
        ).pad() by {
            let circuit = bare_circuit::<E2, PS>(true, predicates, i as usize, &self.ro_consts_secondary, guess);
            assert(is_step_shape(circuit, round.primary_shapes@[i]@));
            layout_depends_on_sizes::<E2, PS>(circuit.rules(), self.primary_rules(i), *predicates, bare_layout());
        }
        let circuit = bare_circuit::<E1, TrivialPredicateSet>(
            false,
            &TrivialPredicateSet {  },
            0,
            &self.ro_consts_primary,
            s,
        );
        assert(s@.mats =~= self.structure_primary@.mats);
        let p = E1::Base::modulus();
        E1::Base::modulus_bounds();
        let none = Seq::new(3, |j: int| 0int);
        assert forall|i: int| 0 <= i < predicates.count() implies #[trigger] corners(self.structure_primary@, i, p)
            == none by {
            let bare = bare_circuit::<E2, PS>(true, predicates, i as usize, &self.ro_consts_secondary, guess);
            assert(is_step_shape(bare, round.primary_shapes@[i]@));
            let l = bare.lays(bare_layout()).0;
            assert(shape_views(round.primary_shapes@).padded(i) == laid_shape(l).pad());
            assert forall|j: int| 0 <= j < 3 implies #[trigger] corners(self.structure_primary@, i, p)[j] == none[j] by {
                free_first_variable_has_no_corner(l, j, p);
                vstd::arithmetic::div_mod::lemma_small_mod(0, p as nat);
            }
            assert(corners(self.structure_primary@, i, p) =~= none);
        }
        assert forall|i: int| 0 <= i < self.structure_primary@.len() implies #[trigger] self.takes(i) by {
            assert(corners(self.structure_primary@, i, p) == none && corners(self.structure_primary@, 0, p) == none);
        }
        layout_depends_on_sizes::<E1, TrivialPredicateSet>(
            circuit.rules(),
            self.secondary_rules(0),
            TrivialPredicateSet {  },
            bare_layout(),
        );
    }

    /// Whether the search gets from the structure of the first shape to a guess in so many rounds, none of which settles.
    pub open spec fn searched(
        predicates: PS,
        c1: <E1::RO as RandomOracle<E1::Base>>::Constants,
        c2: <E2::RO as RandomOracle<E2::Base>>::Constants,
        guess: GlobalStructure<E2>,
        rounds: nat,
    ) -> bool
        decreases rounds,
    {
        if rounds == 0 {
            first_guess(guess)
        } else {
            exists|before: GlobalStructure<E2>, round: SetupRound<E1, E2>|
                Self::searched(predicates, c1, c2, before, (rounds - 1) as nat) && #[trigger] Self::runs(
                    predicates,
                    c1,
                    c2,
                    before,
                    round,
                ) && !round.settled && round.structure_secondary == guess
        }
    }

    /// Whether a round is the one of a guess.
    pub open spec fn runs(
        predicates: PS,
        c1: <E1::RO as RandomOracle<E1::Base>>::Constants,
        c2: <E2::RO as RandomOracle<E2::Base>>::Constants,
        guess: GlobalStructure<E2>,
        round: SetupRound<E1, E2>,
    ) -> bool {
        &&& round.settled == (signature(guess) == signature(round.structure_secondary))
        &&& exists|s: GlobalStructure<E1>| #[trigger] round.made_from(&predicates, &c1, &c2, &guess, &s)
    }

    /// Whether a predicate makes values public in the round of a guess.
    pub open spec fn refuses(
        predicates: PS,
        c2: <E2::RO as RandomOracle<E2::Base>>::Constants,
        guess: GlobalStructure<E2>,
    ) -> bool {
        exists|i: usize, s: ShapeView|
            i < predicates.count() && #[trigger] is_step_shape(
                bare_circuit::<E2, PS>(true, &predicates, i, &c2, &guess),
                s,
            ) && s.num_io != 2
    }

    /// Whether the round of a guess settles the sizes, but a key for them is too large for the machine, or does not cover
    /// a padded witness.
    pub open spec fn settles_without_key<H1: Fn(&R1CSShape<E1>) -> usize, H2: Fn(&R1CSShape<E2>) -> usize>(
        predicates: PS,
        ck_hint1: H1,
        ck_hint2: H2,
        c1: <E1::RO as RandomOracle<E1::Base>>::Constants,
        c2: <E2::RO as RandomOracle<E2::Base>>::Constants,
        guess: GlobalStructure<E2>,
        too_large: bool,
    ) -> bool {
        exists|round: SetupRound<E1, E2>| #[trigger]
            Self::runs(predicates, c1, c2, guess, round) && round.settled && (keyless(
                round.primary_shapes@,
                ck_hint1,
                too_large,
            ) || keyless(seq![round.shape_secondary], ck_hint2, too_large))
    }

    /// Searches for the sizes at which the circuits of the two curves fit each other: returned are the round in which
    /// they settle, the guess that it started from, and how many rounds went before. Nothing if they have not settled
    /// within the rounds that the machine can count. Refused if a predicate makes values public.
    fn search(
        predicates: &PS,
        c1: &<E1::RO as RandomOracle<E1::Base>>::Constants,
        c2: &<E2::RO as RandomOracle<E2::Base>>::Constants,
    ) -> (r: Result<Option<(SetupRound<E1, E2>, Ghost<GlobalStructure<E2>>, Ghost<nat>)>, NovaError>)
        requires
            predicates.width() <= MAX_COUNT,
            0 < predicates.count() <= MAX_COUNT,
        ensures
            r matches Ok(Some((round, guess, k))) ==> {
                &&& k@ < usize::MAX
                &&& Self::searched(*predicates, *c1, *c2, guess@, k@)
                &&& Self::runs(*predicates, *c1, *c2, guess@, round)
                &&& round.settled
                &&& round.sized()
                &&& guess@.wf()
                &&& guess@@.num_io == 2
            },
            r matches Ok(None) ==> exists|guess: GlobalStructure<E2>| #[trigger]
                Self::searched(*predicates, *c1, *c2, guess, usize::MAX as nat),
            r matches Err(e) ==> {
                &&& e == NovaError::InvalidStepCircuitIO
                &&& exists|guess: GlobalStructure<E2>, k: nat|
                    k < usize::MAX && #[trigger] Self::searched(*predicates, *c1, *c2, guess, k) && Self::refuses(
                        *predicates,
                        *c2,
                        guess,
                    )
            },
            predicates.total() ==> (r is Err <==> publishing::<E1::Scalar, PS>(*predicates)),
    {
        let mut first: Vec<R1CSShape<E2>> = Vec::new();
        first.push(dummy_shape::<E2>());
        proof {
            assert(step_sized(shape_views(first@).shapes[0]));
            lemma_buildable(shape_views(first@));
        }
        let mut guess = GlobalStructure::<E2>::new_for_setup(&first);
        let mut done: usize = 0;
        proof {
            assert(first@ =~= seq![first@[0]]);
            assert(first_guess(guess));
        }
        while done < usize::MAX
            invariant
                Self::searched(*predicates, *c1, *c2, guess, done as nat),
                guess.wf(),
                guess@.num_io == 2,
                guess@.len() == 1,
                done > 0 && predicates.total() ==> !publishing::<E1::Scalar, PS>(*predicates),
                predicates.width() <= MAX_COUNT,
                0 < predicates.count() <= MAX_COUNT,
            decreases usize::MAX - done,
        {
            let round = match setup_round::<E1, E2, PS>(predicates, c1, c2, &guess) {
                Ok(round) => round,
                Err(e) => {
                    assert(Self::refuses(*predicates, *c2, guess));
                    return Err(e);
                },
            };
            assert(Self::runs(*predicates, *c1, *c2, guess, round));
            if round.settled {
                return Ok(Some((round, Ghost(guess), Ghost(done as nat))));
            }
            guess = round.structure_secondary;
            done = done + 1;
            assert(Self::searched(*predicates, *c1, *c2, guess, done as nat));
        }
        Ok(None)
    }

    /// Searches for the sizes at which the circuits of the two curves fit each other, and makes the parameters of these
    /// sizes, with the digest that stands for them. Refused if a predicate makes values public.
    #[verifier::spinoff_prover]
    #[verifier::rlimit(40)]
    pub fn setup<
        H1: Fn(&R1CSShape<E1>) -> usize,
        H2: Fn(&R1CSShape<E2>) -> usize,
        D: Fn(&PublicParams<E1, E2, PS>) -> E1::Scalar,
    >(predicates: &PS, ck_hint1: &H1, ck_hint2: &H2, digester: &D) -> (r: Result<
        SetupOutcome<E1, E2, PS>,
        NovaError,
    >)
        requires
            predicates.width() <= MAX_COUNT,
            0 < predicates.count() <= MAX_COUNT,
            forall|shape: &R1CSShape<E1>| call_requires(*ck_hint1, (shape,)),
            forall|shape: &R1CSShape<E2>| call_requires(*ck_hint2, (shape,)),
            forall|params: &PublicParams<E1, E2, PS>| call_requires(*digester, (params,)),
            forall|params: &PublicParams<E1, E2, PS>, d: E1::Scalar| #[trigger]
                call_ensures(*digester, (params,), d) ==> d.val() < pow2(250),
        ensures
            r matches Ok(SetupOutcome::Done { params }) ==> {
                &&& params.wf()
                &&& params.serves(*predicates)
                &&& predicates.total() ==> params.fits(*predicates)
                &&& params.digested_by(*digester)
                &&& exists|guess: GlobalStructure<E2>, k: nat, round: SetupRound<E1, E2>|
                    k < usize::MAX && #[trigger] Self::searched(
                        *predicates,
                        params.ro_consts_primary,
                        params.ro_consts_secondary,
                        guess,
                        k,
                    ) && #[trigger] params.made_in(predicates, &guess, round) && keyed(
                        round.primary_shapes@,
                        *ck_hint1,
                        params.ck_primary,
                    ) && keyed(seq![round.shape_secondary], *ck_hint2, params.ck_secondary)
                &&& E1::blinding(&params.ck_primary) == E1::labelled_point("ck"@, 0)
                &&& E2::blinding(&params.ck_secondary) == E2::labelled_point("ck"@, 0)
                &&& forall|i: int|
                    0 <= i < E1::generators(&params.ck_primary).len() ==> #[trigger] E1::generators(&params.ck_primary)[i]
                        == E1::labelled_point("ck"@, i + 1)
                &&& forall|i: int|
                    0 <= i < E2::generators(&params.ck_secondary).len() ==> #[trigger] E2::generators(
                        &params.ck_secondary,
                    )[i] == E2::labelled_point("ck"@, i + 1)
            },
            r matches Err(e) ==> {
                &&& e == NovaError::InvalidStepCircuitIO
                &&& exists|
                    c1: <E1::RO as RandomOracle<E1::Base>>::Constants,
                    c2: <E2::RO as RandomOracle<E2::Base>>::Constants,
                    guess: GlobalStructure<E2>,
                    k: nat,
                |
                    k < usize::MAX && #[trigger] Self::searched(*predicates, c1, c2, guess, k) && Self::refuses(
                        *predicates,
                        c2,
                        guess,
                    )
            },
            r matches Ok(SetupOutcome::Unsettled) ==> exists|
                c1: <E1::RO as RandomOracle<E1::Base>>::Constants,
                c2: <E2::RO as RandomOracle<E2::Base>>::Constants,
                guess: GlobalStructure<E2>,
            | #[trigger]
                Self::searched(*predicates, c1, c2, guess, usize::MAX as nat),
            r matches Ok(SetupOutcome::TooLarge) ==> exists|
                c1: <E1::RO as RandomOracle<E1::Base>>::Constants,
                c2: <E2::RO as RandomOracle<E2::Base>>::Constants,
                guess: GlobalStructure<E2>,
                k: nat,
            |
                k < usize::MAX && #[trigger] Self::searched(*predicates, c1, c2, guess, k) && Self::settles_without_key(
                    *predicates,
                    *ck_hint1,
                    *ck_hint2,
                    c1,
                    c2,
                    guess,
                    true,
                ),
            r matches Ok(SetupOutcome::KeyTooShort) ==> exists|
                c1: <E1::RO as RandomOracle<E1::Base>>::Constants,
                c2: <E2::RO as RandomOracle<E2::Base>>::Constants,
                guess: GlobalStructure<E2>,
                k: nat,
            |
                k < usize::MAX && #[trigger] Self::searched(*predicates, c1, c2, guess, k) && Self::settles_without_key(
                    *predicates,
                    *ck_hint1,
                    *ck_hint2,
                    c1,
                    c2,
                    guess,
                    false,
                ),
            predicates.total() ==> (r is Err <==> publishing::<E1::Scalar, PS>(*predicates)),
    {
        let ro_consts_primary = E1::RO::constants();
        let ro_consts_secondary = E2::RO::constants();
        let (round, guess, k) = match Self::search(predicates, &ro_consts_primary, &ro_consts_secondary) {
            Ok(Some(r)) => r,
            Ok(None) => {
                return Ok(SetupOutcome::Unsettled);
            },
            Err(e) => {
                return Err(e);
            },
        };
        let ghost s1 = choose|s: GlobalStructure<E1>| #[trigger]
            round.made_from(predicates, &ro_consts_primary, &ro_consts_secondary, &guess@, &s);
        let undigested = match keyed_params::<E1, E2, PS, H1, H2>(
            predicates,
            ck_hint1,
            ck_hint2,
            ro_consts_primary,
            ro_consts_secondary,
            round,
            guess,
            Ghost(s1),
        ) {
            Ok(params) => params,
            Err(too_large) => {
                assert(Self::settles_without_key(
                    *predicates,
                    *ck_hint1,
                    *ck_hint2,
                    ro_consts_primary,
                    ro_consts_secondary,
                    guess@,
                    too_large,
                ));
                return if too_large {
                    Ok(SetupOutcome::TooLarge)
                } else {
                    Ok(SetupOutcome::KeyTooShort)
                };
            },
        };
        let digest = digester(&undigested);
        let params = PublicParams { digest, ..undigested };
        proof {
            assert(undigested.same_but_digest(params));
            undigested.lemma_digested(params, predicates, &guess@, round);
        }
        Ok(SetupOutcome::Done { params })
    }

    /// The digest that stands for the parameters.
    pub fn digest(&self) -> (r: E1::Scalar)
        ensures
            r == self.digest,
    {
        self.digest
    }
}

/// A key covers the variables of every shape and what the hint asks for of each, and is no larger than the least power of
/// two that does.
pub proof fn key_covers_shapes<E: CurveEngine, H: Fn(&R1CSShape<E>) -> usize>(
    shapes: Seq<R1CSShape<E>>,
    ck_hint: H,
    ck: E::CommitmentKey,
) -> (hints: Seq<usize>)
    requires
        keyed(shapes, ck_hint, ck),
    ensures
        hints.len() == shapes.len(),
        forall|k: int| 0 <= k < shapes.len() ==> call_ensures(ck_hint, (&shapes[k],), #[trigger] hints[k]),
        forall|i: int|
            0 <= i < shapes.len() ==> (#[trigger] shapes[i]).num_vars <= E::generators(&ck).len() && hints[i]
                <= E::generators(&ck).len(),
        forall|k: nat|
            (forall|i: int| 0 <= i < shapes.len() ==> (#[trigger] shapes[i]).num_vars <= pow2(k) && hints[i] <= pow2(k))
                ==> E::generators(&ck).len() <= #[trigger] pow2(k),
{
    let hints = choose|hints: Seq<usize>| #[trigger]
        key_size_of(shapes, ck_hint, hints) && E::generators(&ck).len() == next_pow2(
            max_upto(|i: int| max(shapes[i].num_vars as int, hints[i] as int), 0, shapes.len() as int),
        );
    let n = shapes.len() as int;
    let f = |i: int| max(shapes[i].num_vars as int, hints[i] as int);
    let top = max_upto(f, 0, n);
    largest_is_attained(f, 0, n);
    logarithm_is_least(top, ceil_log2(top));
    assert forall|i: int| 0 <= i < n implies (#[trigger] shapes[i]).num_vars <= E::generators(&ck).len() && hints[i]
        <= E::generators(&ck).len() by {
        assert(f(i) <= top);
    }
    assert forall|k: nat|
        (forall|i: int| 0 <= i < n ==> (#[trigger] shapes[i]).num_vars <= pow2(k) && hints[i] <= pow2(k)) implies E::generators(
        &ck,
    ).len() <= #[trigger] pow2(k) by {
        lemma_pow2_pos(k);
        if top != 0 {
            let i = choose|i: int| 0 <= i < n && top == #[trigger] f(i);
            assert(shapes[i].num_vars <= pow2(k));
        }
        logarithm_is_least(top, k);
        if ceil_log2(top) < k {
            vstd::arithmetic::power2::lemma_pow2_strictly_increases(ceil_log2(top), k);
        }
    }
    hints
}

} // verus!
