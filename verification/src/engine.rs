//! What folding asks of a curve: its two fields, its commitments and its random oracle.
use crate::field::FieldElement;
use crate::math::{inner_product, next_pow2};
use vstd::arithmetic::power2::pow2;
use vstd::prelude::*;

verus! {

/// The affine coordinates of a point, and whether it is the point at infinity.
pub type PointView = (int, int, bool);

/// A cyclic group of points over two fields.
pub trait CurveGroup: Sized {
    /// The field of the coordinates.
    type Base: FieldElement;

    /// The field of the multiples of the generator.
    type Scalar: FieldElement;

    /// The coordinates of the `k`-th multiple of the generator of the group.
    spec fn multiple(k: int) -> PointView;
}

/// The scalar of which `point` is the multiple of the generator.
pub open spec fn discrete_log<E: CurveGroup>(point: PointView) -> int {
    choose|k: int| 0 <= k < E::Scalar::modulus() && #[trigger] E::multiple(k) == point
}

/// Whether `point` is a multiple of the generator.
pub open spec fn on_curve<E: CurveGroup>(point: PointView) -> bool {
    exists|k: int| 0 <= k < E::Scalar::modulus() && #[trigger] E::multiple(k) == point
}

/// A commitment: a point of the curve, kept by its affine coordinates.
pub struct Commitment<E: CurveGroup> {
    pub(crate) x: E::Base,
    pub(crate) y: E::Base,
    pub(crate) is_infinity: bool,
}

impl<E: CurveGroup> Commitment<E> {
    /// The coordinates of the point.
    pub closed spec fn coordinates(&self) -> PointView {
        (self.x.val(), self.y.val(), self.is_infinity)
    }

    #[verifier::type_invariant]
    spec fn inv(&self) -> bool {
        on_curve::<E>(self.coordinates())
    }
}

impl<E: CurveGroup> Commitment<E> {
    /// The coordinates are those of the multiple of the generator that the commitment is known by.
    pub(crate) proof fn lemma_coordinates(&self)
        requires
            on_curve::<E>(self.coordinates()),
        ensures
            0 <= self@ < E::Scalar::modulus(),
            self.coordinates() == E::multiple(self@),
    {
    }

    /// The same point once more.
    pub fn copied(&self) -> (r: Self)
        ensures
            r@ == self@,
            r.coordinates() == self.coordinates(),
    {
        proof {
            use_type_invariant(self);
        }
        Commitment { x: self.x, y: self.y, is_infinity: self.is_infinity }
    }

    /// Whether two commitments are the same point.
    pub fn equals(&self, other: &Self) -> (r: bool)
        ensures
            r == (self@ == other@),
            r == (self.coordinates() == other.coordinates()),
    {
        proof {
            use_type_invariant(self);
            use_type_invariant(other);
            self.lemma_coordinates();
            other.lemma_coordinates();
        }
        self.x.equals(&other.x) && self.y.equals(&other.y) && self.is_infinity == other.is_infinity
    }

    /// The affine coordinates, and whether the point is the one at infinity.
    pub fn to_coordinates(&self) -> (r: (E::Base, E::Base, bool))
        ensures
            (r.0.val(), r.1.val(), r.2) == self.coordinates(),
            self.coordinates() == E::multiple(self@),
            0 <= self@ < E::Scalar::modulus(),
    {
        proof {
            use_type_invariant(self);
            self.lemma_coordinates();
        }
        (self.x, self.y, self.is_infinity)
    }
}

/// A commitment is known by the scalar of which it is the multiple of the generator.
impl<E: CurveGroup> View for Commitment<E> {
    type V = int;

    open spec fn view(&self) -> int {
        discrete_log::<E>(self.coordinates())
    }
}

/// The residues of a sequence of elements.
pub open spec fn vals<F: FieldElement>(s: Seq<F>) -> Seq<int> {
    Seq::new(s.len(), |i: int| s[i].val())
}

/// The discrete logarithms of a sequence of points.
pub open spec fn logs<E: CurveGroup>(points: Seq<PointView>) -> Seq<int> {
    Seq::new(points.len(), |i: int| discrete_log::<E>(points[i]))
}

/// What a commitment to `v` with the blinding `r` is a multiple of the generator by.
pub open spec fn commitment_log<E: CurveGroup>(
    generators: Seq<PointView>,
    blinding: PointView,
    v: Seq<int>,
    r: int,
) -> int {
    (inner_product(v, logs::<E>(generators)) + r * discrete_log::<E>(blinding)) % E::Scalar::modulus()
}

/// The most elements that an oracle can hash at once.
pub const MAX_ABSORBED: usize = 0x7fff_ffff;

/// A random oracle over a field: it absorbs elements and squeezes challenges.
pub trait RandomOracle<F: FieldElement>: Sized {
    /// What every oracle of this kind shares.
    type Constants;

    /// The hash of a sequence of residues.
    spec fn hash(state: Seq<int>) -> int;

    /// What has been absorbed since the last squeeze, after the hash that the squeeze left.
    spec fn state(&self) -> Seq<int>;

    /// The constants of the hash.
    fn constants() -> Self::Constants;

    /// An oracle that has absorbed nothing.
    fn new(constants: &Self::Constants) -> (r: Self)
        ensures
            r.state() == Seq::<int>::empty(),
    ;

    /// Absorbs one element.
    fn absorb(&mut self, e: &F)
        ensures
            final(self).state() == old(self).state().push(e.val()),
    ;

    /// Hashes what was absorbed, keeps the hash as the new state and returns its low bits.
    fn squeeze(&mut self, num_bits: usize) -> (r: F)
        requires
            num_bits <= 250,
            0 < old(self).state().len() <= MAX_ABSORBED,
        ensures
            r.val() == Self::hash(old(self).state()) % (pow2(num_bits as nat) as int),
            final(self).state() == seq![Self::hash(old(self).state())],
    ;
}

/// A curve with the commitments and the random oracle that folding over it uses.
pub trait CurveEngine: CurveGroup {
    type CommitmentKey;

    type RO: RandomOracle<Self::Base>;

    /// The point that a label gives at an index.
    spec fn labelled_point(label: Seq<char>, i: int) -> PointView;

    /// The generators of a key.
    spec fn generators(ck: &Self::CommitmentKey) -> Seq<PointView>;

    /// The generator of a key that blinds.
    spec fn blinding(ck: &Self::CommitmentKey) -> PointView;

    /// A scalar read as an element of the base field.
    fn scalar_as_base(x: &Self::Scalar) -> (r: Self::Base)
        ensures
            r.val() == x.val() % Self::Base::modulus(),
    ;

    /// An element of the base field read as a scalar.
    fn base_as_scalar(x: &Self::Base) -> (r: Self::Scalar)
        ensures
            r.val() == x.val() % Self::Scalar::modulus(),
    ;

    /// Some scalar.
    fn random_scalar() -> (r: Self::Scalar);

    /// A key with room for `n` values, whose points the label gives.
    fn setup(label: &'static str, n: usize) -> (ck: Self::CommitmentKey)
        requires
            next_pow2(n as int) < usize::MAX,
        ensures
            Self::generators(&ck).len() == next_pow2(n as int),
            forall|i: int|
                0 <= i < Self::generators(&ck).len() ==> #[trigger] Self::generators(&ck)[i]
                    == Self::labelled_point(label@, i + 1),
            Self::blinding(&ck) == Self::labelled_point(label@, 0),
    ;

    /// The Pedersen commitment to `v` with the blinding `r`.
    fn commit(ck: &Self::CommitmentKey, v: &Vec<Self::Scalar>, r: &Self::Scalar) -> (c: Commitment<Self>)
        requires
            v.len() <= Self::generators(ck).len(),
        ensures
            c@ == commitment_log::<Self>(Self::generators(ck), Self::blinding(ck), vals(v@), r.val()),
    ;

    /// The sum of two commitments.
    fn add_commitments(a: &Commitment<Self>, b: &Commitment<Self>) -> (c: Commitment<Self>)
        ensures
            c@ == (a@ + b@) % Self::Scalar::modulus(),
    ;

    /// A multiple of a commitment.
    fn scale_commitment(a: &Commitment<Self>, s: &Self::Scalar) -> (c: Commitment<Self>)
        ensures
            c@ == (a@ * s.val()) % Self::Scalar::modulus(),
    ;

    /// The commitment that is the point at infinity.
    fn identity_commitment() -> (c: Commitment<Self>)
        ensures
            c@ == 0,
            c.coordinates() == (0int, 0int, true),
    ;
}

} // verus!
