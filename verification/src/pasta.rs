//! The Pallas/Vesta cycle of curves: its two fields, its two groups and its random oracles.
use crate::engine::{commitment_log, vals, Commitment, CurveEngine, CurveGroup, PointView, RandomOracle, MAX_ABSORBED};
use crate::field::{bytes_value, limbs_value, read_limbs, FieldElement};
use crate::fragment::{
    first_variables, is_nat, is_point, nat_of, raw_elements, raw_fragment, raw_lists, read_elements,
    read_limb_variables, read_lists, CircuitEngine, Fragment, FragmentView, RawCombination, RawVariable, LIMB_WIDTH,
    NUM_LIMBS,
};
use crate::gadgets::bool_int;
use crate::layout::FragmentLayout;
use crate::math::{integral, next_pow2};
use ff::{Field as _, PrimeField as _};
use nova_snark::frontend::num::AllocatedNum;
use nova_snark::frontend::shape_cs::ShapeCS;
use nova_snark::frontend::util_cs::witness_cs::WitnessCS;
use nova_snark::frontend::Index::{Aux, Input};
use nova_snark::frontend::{AllocatedBit, Boolean, ConstraintSystem as _, LinearCombination, Variable as NovaVariable};
use nova_snark::gadgets::ecc::AllocatedPoint;
use nova_snark::gadgets::nonnative::bignat::{BigNat, Polynomial};
use nova_snark::gadgets::nonnative::util::Num;
use nova_snark::gadgets::utils::{base_as_scalar, scalar_as_base};
use nova_snark::provider::pasta::pallas::Base as PallasBase;
use nova_snark::provider::pasta::vesta::Base as VestaBase;
use nova_snark::provider::pasta::{pallas, vesta};
use nova_snark::provider::pedersen;
use nova_snark::provider::poseidon::{PoseidonConstantsCircuit, PoseidonRO, PoseidonROCircuit};
use nova_snark::provider::traits::DlogGroup as _;
use nova_snark::provider::{PallasEngine, VestaEngine};
use nova_snark::traits::commitment::{CommitmentEngineTrait, CommitmentTrait as _};
use nova_snark::spartan::polys::multilinear::MultilinearPolynomial;
use nova_snark::spartan::sumcheck::SumcheckProof;
use nova_snark::traits::{ROCircuitTrait as _, ROTrait as _, TranscriptEngineTrait};
use vstd::arithmetic::power2::pow2;
use vstd::prelude::*;

verus! {

/// The order of the base field of Pallas, which is the scalar field of Vesta.
pub open spec fn fp_modulus() -> int {
    0x40000000000000000000000000000000224698fc094cf91b992d30ed00000001int
}

/// The order of the scalar field of Pallas, which is the base field of Vesta.
pub open spec fn fq_modulus() -> int {
    0x40000000000000000000000000000000224698fc0994a8dd8c46eb2100000001int
}

/// An element of the base field of Pallas.
#[derive(Clone, Copy, Debug, PartialEq, Eq)]
pub struct Fp {
    limbs: [u64; 4],
}

impl Fp {
    /// The element that four little-endian limbs stand for.
    pub fn from_limbs(limbs: [u64; 4]) -> (r: Self)
        ensures
            r.val() == limbs_value(limbs) % fp_modulus(),
    {
        Fp { limbs }
    }

    /// Four little-endian limbs that stand for the element.
    pub fn limbs(&self) -> (r: [u64; 4])
        ensures
            limbs_value(r) % fp_modulus() == self.val(),
    {
        self.limbs
    }
}

/// The `Neg` of the one of `PallasBase`: the largest residue of the field. It is one less than the order of the
/// field, which the traits of `ff` document to be prime.
#[verifier::external_body]
fn fp_minus_one() -> (r: Fp)
    ensures
        r.val() == fp_modulus() - 1,
        integral(r.val() + 1),
{
    let bytes = (-PallasBase::ONE).to_repr();
    Fp { limbs: core::array::from_fn(|i| u64::from_le_bytes(core::array::from_fn(|j| bytes[8 * i + j]))) }
}

/// Adds with the `Add` of `PallasBase`: the sum in the field.
#[verifier::external_body]
fn fp_add(a: &Fp, b: &Fp) -> (r: Fp)
    ensures
        r.val() == (a.val() + b.val()) % fp_modulus(),
{
    let bytes = (PallasBase::from_raw(a.limbs) + PallasBase::from_raw(b.limbs)).to_repr();
    Fp { limbs: core::array::from_fn(|i| u64::from_le_bytes(core::array::from_fn(|j| bytes[8 * i + j]))) }
}

/// Subtracts with the `Sub` of `PallasBase`: the difference in the field.
#[verifier::external_body]
fn fp_sub(a: &Fp, b: &Fp) -> (r: Fp)
    ensures
        r.val() == (a.val() - b.val()) % fp_modulus(),
{
    let bytes = (PallasBase::from_raw(a.limbs) - PallasBase::from_raw(b.limbs)).to_repr();
    Fp { limbs: core::array::from_fn(|i| u64::from_le_bytes(core::array::from_fn(|j| bytes[8 * i + j]))) }
}

/// Multiplies with the `Mul` of `PallasBase`: the product in the field.
#[verifier::external_body]
fn fp_mul(a: &Fp, b: &Fp) -> (r: Fp)
    ensures
        r.val() == (a.val() * b.val()) % fp_modulus(),
{
    let bytes = (PallasBase::from_raw(a.limbs) * PallasBase::from_raw(b.limbs)).to_repr();
    Fp { limbs: core::array::from_fn(|i| u64::from_le_bytes(core::array::from_fn(|j| bytes[8 * i + j]))) }
}

/// Inverts with `invert` of `PallasBase`: nothing for zero, else the multiplicative inverse.
#[verifier::external_body]
fn fp_invert(a: &Fp) -> (r: Option<Fp>)
    ensures
        r is None <==> a.val() == 0,
        r matches Some(inv) ==> (a.val() * inv.val()) % fp_modulus() == 1,
{
    let bytes = Option::<PallasBase>::from(PallasBase::from_raw(a.limbs).invert())?.to_repr();
    Some(Fp { limbs: core::array::from_fn(|i| u64::from_le_bytes(core::array::from_fn(|j| bytes[8 * i + j]))) })
}

/// Compares with the `PartialEq` of `PallasBase`: whether two elements are the same residue.
#[verifier::external_body]
fn fp_equals(a: &Fp, b: &Fp) -> (r: bool)
    ensures
        r == (a.val() == b.val()),
{
    PallasBase::from_raw(a.limbs) == PallasBase::from_raw(b.limbs)
}

/// Draws with `random` of `PallasBase` from the generator of the system. Nothing is claimed of the draw.
#[verifier::external_body]
fn fp_random() -> Fp {
    let bytes = PallasBase::random(&mut rand_core::OsRng).to_repr();
    Fp { limbs: core::array::from_fn(|i| u64::from_le_bytes(core::array::from_fn(|j| bytes[8 * i + j]))) }
}

/// Reads a residue in the other field with `base_as_scalar` of `nova_snark`: the remainder by the other
/// order.
#[verifier::external_body]
fn fp_as_fq(a: &Fp) -> (r: Fq)
    ensures
        r.val() == a.val() % fq_modulus(),
{
    let bytes = base_as_scalar::<PallasEngine>(PallasBase::from_raw(a.limbs)).to_repr();
    Fq { limbs: core::array::from_fn(|i| u64::from_le_bytes(core::array::from_fn(|j| bytes[8 * i + j]))) }
}

/// Writes an element with `to_repr` of `PallasBase`: the little-endian bytes of the residue.
#[verifier::external_body]
fn fp_to_repr(a: &Fp) -> (r: [u8; 32])
    ensures
        bytes_value(r) == a.val(),
{
    PallasBase::from_raw(a.limbs).to_repr().into()
}

/// Asks with `Vec::capacity` for how many elements there is room: no fewer than there are, and no more than
/// `isize::MAX` bytes hold, which is the most that a `Vec` allocates; an element takes 32 bytes.
#[verifier::external_body]
fn fp_capacity(v: &Vec<Fp>) -> (r: usize)
    ensures
        v@.len() <= r,
        r <= usize::MAX / 64,
{
    v.capacity()
}

impl FieldElement for Fp {
    open spec fn modulus() -> int {
        fp_modulus()
    }

    closed spec fn val(&self) -> int {
        limbs_value(self.limbs) % fp_modulus()
    }

    proof fn modulus_bounds() {
    }

    proof fn val_bounds(&self) {
    }

    fn from_bytes(bytes: &[u8; 32]) -> (r: Self) {
        Fp { limbs: read_limbs(bytes) }
    }

    fn to_bytes(&self) -> (r: [u8; 32]) {
        fp_to_repr(self)
    }

    fn capacity(v: &Vec<Self>) -> (r: usize) {
        fp_capacity(v)
    }

    fn minus_one() -> (r: Self) {
        fp_minus_one()
    }

    fn from_u64(value: u64) -> (r: Self) {
        Fp { limbs: [value, 0, 0, 0] }
    }

    fn add(&self, other: &Self) -> (r: Self) {
        fp_add(self, other)
    }

    fn sub(&self, other: &Self) -> (r: Self) {
        fp_sub(self, other)
    }

    fn mul(&self, other: &Self) -> (r: Self) {
        fp_mul(self, other)
    }

    fn invert(&self) -> (r: Option<Self>) {
        fp_invert(self)
    }

    fn equals(&self, other: &Self) -> (r: bool) {
        fp_equals(self, other)
    }
}

/// An element of the base field of Vesta.
#[derive(Clone, Copy, Debug, PartialEq, Eq)]
pub struct Fq {
    limbs: [u64; 4],
}

impl Fq {
    /// The element that four little-endian limbs stand for.
    pub fn from_limbs(limbs: [u64; 4]) -> (r: Self)
        ensures
            r.val() == limbs_value(limbs) % fq_modulus(),
    {
        Fq { limbs }
    }

    /// Four little-endian limbs that stand for the element.
    pub fn limbs(&self) -> (r: [u64; 4])
        ensures
            limbs_value(r) % fq_modulus() == self.val(),
    {
        self.limbs
    }
}

/// The `Neg` of the one of `VestaBase`: the largest residue of the field. It is one less than the order of the
/// field, which the traits of `ff` document to be prime.
#[verifier::external_body]
fn fq_minus_one() -> (r: Fq)
    ensures
        r.val() == fq_modulus() - 1,
        integral(r.val() + 1),
{
    let bytes = (-VestaBase::ONE).to_repr();
    Fq { limbs: core::array::from_fn(|i| u64::from_le_bytes(core::array::from_fn(|j| bytes[8 * i + j]))) }
}

/// Adds with the `Add` of `VestaBase`: the sum in the field.
#[verifier::external_body]
fn fq_add(a: &Fq, b: &Fq) -> (r: Fq)
    ensures
        r.val() == (a.val() + b.val()) % fq_modulus(),
{
    let bytes = (VestaBase::from_raw(a.limbs) + VestaBase::from_raw(b.limbs)).to_repr();
    Fq { limbs: core::array::from_fn(|i| u64::from_le_bytes(core::array::from_fn(|j| bytes[8 * i + j]))) }
}

/// Subtracts with the `Sub` of `VestaBase`: the difference in the field.
#[verifier::external_body]
fn fq_sub(a: &Fq, b: &Fq) -> (r: Fq)
    ensures
        r.val() == (a.val() - b.val()) % fq_modulus(),
{
    let bytes = (VestaBase::from_raw(a.limbs) - VestaBase::from_raw(b.limbs)).to_repr();
    Fq { limbs: core::array::from_fn(|i| u64::from_le_bytes(core::array::from_fn(|j| bytes[8 * i + j]))) }
}

/// Multiplies with the `Mul` of `VestaBase`: the product in the field.
#[verifier::external_body]
fn fq_mul(a: &Fq, b: &Fq) -> (r: Fq)
    ensures
        r.val() == (a.val() * b.val()) % fq_modulus(),
{
    let bytes = (VestaBase::from_raw(a.limbs) * VestaBase::from_raw(b.limbs)).to_repr();
    Fq { limbs: core::array::from_fn(|i| u64::from_le_bytes(core::array::from_fn(|j| bytes[8 * i + j]))) }
}

/// Inverts with `invert` of `VestaBase`: nothing for zero, else the multiplicative inverse.
#[verifier::external_body]
fn fq_invert(a: &Fq) -> (r: Option<Fq>)
    ensures
        r is None <==> a.val() == 0,
        r matches Some(inv) ==> (a.val() * inv.val()) % fq_modulus() == 1,
{
    let bytes = Option::<VestaBase>::from(VestaBase::from_raw(a.limbs).invert())?.to_repr();
    Some(Fq { limbs: core::array::from_fn(|i| u64::from_le_bytes(core::array::from_fn(|j| bytes[8 * i + j]))) })
}

/// Compares with the `PartialEq` of `VestaBase`: whether two elements are the same residue.
#[verifier::external_body]
fn fq_equals(a: &Fq, b: &Fq) -> (r: bool)
    ensures
        r == (a.val() == b.val()),
{
    VestaBase::from_raw(a.limbs) == VestaBase::from_raw(b.limbs)
}

/// Draws with `random` of `VestaBase` from the generator of the system. Nothing is claimed of the draw.
#[verifier::external_body]
fn fq_random() -> Fq {
    let bytes = VestaBase::random(&mut rand_core::OsRng).to_repr();
    Fq { limbs: core::array::from_fn(|i| u64::from_le_bytes(core::array::from_fn(|j| bytes[8 * i + j]))) }
}

/// Reads a residue in the other field with `scalar_as_base` of `nova_snark`: the remainder by the other
/// order.
#[verifier::external_body]
fn fq_as_fp(a: &Fq) -> (r: Fp)
    ensures
        r.val() == a.val() % fp_modulus(),
{
    let bytes = scalar_as_base::<PallasEngine>(VestaBase::from_raw(a.limbs)).to_repr();
    Fp { limbs: core::array::from_fn(|i| u64::from_le_bytes(core::array::from_fn(|j| bytes[8 * i + j]))) }
}

/// Writes an element with `to_repr` of `VestaBase`: the little-endian bytes of the residue.
#[verifier::external_body]
fn fq_to_repr(a: &Fq) -> (r: [u8; 32])
    ensures
        bytes_value(r) == a.val(),
{
    VestaBase::from_raw(a.limbs).to_repr().into()
}

/// Asks with `Vec::capacity` for how many elements there is room: no fewer than there are, and no more than
/// `isize::MAX` bytes hold, which is the most that a `Vec` allocates; an element takes 32 bytes.
#[verifier::external_body]
fn fq_capacity(v: &Vec<Fq>) -> (r: usize)
    ensures
        v@.len() <= r,
        r <= usize::MAX / 64,
{
    v.capacity()
}

impl FieldElement for Fq {
    open spec fn modulus() -> int {
        fq_modulus()
    }

    closed spec fn val(&self) -> int {
        limbs_value(self.limbs) % fq_modulus()
    }

    proof fn modulus_bounds() {
    }

    proof fn val_bounds(&self) {
    }

    fn from_bytes(bytes: &[u8; 32]) -> (r: Self) {
        Fq { limbs: read_limbs(bytes) }
    }

    fn to_bytes(&self) -> (r: [u8; 32]) {
        fq_to_repr(self)
    }

    fn capacity(v: &Vec<Self>) -> (r: usize) {
        fq_capacity(v)
    }

    fn minus_one() -> (r: Self) {
        fq_minus_one()
    }

    fn from_u64(value: u64) -> (r: Self) {
        Fq { limbs: [value, 0, 0, 0] }
    }

    fn add(&self, other: &Self) -> (r: Self) {
        fq_add(self, other)
    }

    fn sub(&self, other: &Self) -> (r: Self) {
        fq_sub(self, other)
    }

    fn mul(&self, other: &Self) -> (r: Self) {
        fq_mul(self, other)
    }

    fn invert(&self) -> (r: Option<Self>) {
        fq_invert(self)
    }

    fn equals(&self, other: &Self) -> (r: bool) {
        fq_equals(self, other)
    }
}

/// The Pallas curve.
#[derive(Clone, Copy, Debug, PartialEq, Eq)]
pub struct Pallas;

/// The coordinates that `to_coordinates` gives for the generator of Pallas times `k`.
pub uninterp spec fn pallas_multiple(k: int) -> (int, int, bool);

impl CurveGroup for Pallas {
    type Base = Fp;

    type Scalar = Fq;

    open spec fn multiple(k: int) -> PointView {
        pallas_multiple(k)
    }
}

/// A Pedersen commitment key of `nova_snark` over Pallas.
#[verifier::external_body]
pub struct PallasKey {
    key: pedersen::CommitmentKey<PallasEngine>,
}

/// The generators that a key over Pallas holds.
pub uninterp spec fn pallas_key_generators(key: PallasKey) -> Seq<(int, int, bool)>;

/// The generator that a key over Pallas holds to blind.
pub uninterp spec fn pallas_key_blinding(key: PallasKey) -> (int, int, bool);

/// The point of Pallas that `from_label` of `nova_snark` gives for a label at an index.
pub uninterp spec fn pallas_labelled_point(label: Seq<char>, i: int) -> (int, int, bool);

/// Makes a key with `setup` of the Pedersen commitments of `nova_snark`: it holds as many generators as
/// the next power of two, and the points are those of the label, the first of them to blind.
#[verifier::external_body]
fn pallas_setup(label: &'static str, n: usize) -> (key: PallasKey)
    requires
        next_pow2(n as int) < usize::MAX,
    ensures
        pallas_key_generators(key).len() == next_pow2(n as int),
        forall|i: int|
            0 <= i < next_pow2(n as int) ==> #[trigger] pallas_key_generators(key)[i]
                == pallas_labelled_point(label@, i + 1),
        pallas_key_blinding(key) == pallas_labelled_point(label@, 0),
{
    PallasKey { key: pedersen::CommitmentEngine::<PallasEngine>::setup(label.as_bytes(), n).unwrap() }
}

/// Commits with `commit` of the Pedersen commitments of `nova_snark`: the sum of the generators, each
/// times its value, and of the blinding generator times `r`.
#[verifier::external_body]
fn pallas_commit(key: &PallasKey, v: &Vec<Fq>, r: &Fq) -> (c: Commitment<Pallas>)
    requires
        v.len() <= pallas_key_generators(*key).len(),
    ensures
        c@ == commitment_log::<Pallas>(
            pallas_key_generators(*key),
            pallas_key_blinding(*key),
            vals(v@),
            r.val(),
        ),
        c.coordinates() == pallas_multiple(c@),
{
    let v: Vec<pallas::Scalar> = v.iter().map(|e| pallas::Scalar::from_raw(e.limbs)).collect();
    let r = pallas::Scalar::from_raw(r.limbs);
    let (x, y, is_infinity) = pedersen::CommitmentEngine::commit(&key.key, &v, &r).to_coordinates();
    let [x, y] = [x.to_repr(), y.to_repr()]
        .map(|e| core::array::from_fn(|i| u64::from_le_bytes(core::array::from_fn(|j| e[8 * i + j]))));
    Commitment { x: Fp { limbs: x }, y: Fp { limbs: y }, is_infinity }
}

/// Adds with the `Add` of `pallas::Point`: the sum in the group.
#[verifier::external_body]
fn pallas_add(a: &Commitment<Pallas>, b: &Commitment<Pallas>) -> (c: Commitment<Pallas>)
    ensures
        c@ == (a@ + b@) % fq_modulus(),
        c.coordinates() == pallas_multiple(c@),
{
    let [a, b] = [a, b]
        .map(|c| pallas::Affine { x: PallasBase::from_raw(c.x.limbs), y: PallasBase::from_raw(c.y.limbs) })
        .map(|c| pallas::Point::from(c));
    let (x, y, is_infinity) = (a + b).to_coordinates();
    let [x, y] = [x.to_repr(), y.to_repr()]
        .map(|e| core::array::from_fn(|i| u64::from_le_bytes(core::array::from_fn(|j| e[8 * i + j]))));
    Commitment { x: Fp { limbs: x }, y: Fp { limbs: y }, is_infinity }
}

/// Multiplies with the `Mul` of `pallas::Point` by a scalar: the multiple in the group.
#[verifier::external_body]
fn pallas_scale(a: &Commitment<Pallas>, s: &Fq) -> (c: Commitment<Pallas>)
    ensures
        c@ == (a@ * s.val()) % fq_modulus(),
        c.coordinates() == pallas_multiple(c@),
{
    let a = pallas::Affine { x: PallasBase::from_raw(a.x.limbs), y: PallasBase::from_raw(a.y.limbs) };
    let (x, y, is_infinity) = (pallas::Point::from(a) * pallas::Scalar::from_raw(s.limbs)).to_coordinates();
    let [x, y] = [x.to_repr(), y.to_repr()]
        .map(|e| core::array::from_fn(|i| u64::from_le_bytes(core::array::from_fn(|j| e[8 * i + j]))));
    Commitment { x: Fp { limbs: x }, y: Fp { limbs: y }, is_infinity }
}

/// The `zero` of `pallas::Point`: the point at infinity, of which `to_coordinates` gives two zeros and `true`.
#[verifier::external_body]
fn pallas_identity() -> (c: Commitment<Pallas>)
    ensures
        c@ == 0,
        c.coordinates() == pallas_multiple(0),
        c.coordinates() == (0int, 0int, true),
{
    let (x, y, is_infinity) = pallas::Point::zero().to_coordinates();
    let [x, y] = [x.to_repr(), y.to_repr()]
        .map(|e| core::array::from_fn(|i| u64::from_le_bytes(core::array::from_fn(|j| e[8 * i + j]))));
    Commitment { x: Fp { limbs: x }, y: Fp { limbs: y }, is_infinity }
}

/// The constants of the Poseidon hash of `nova_snark` over the base field of Pallas.
#[verifier::external_body]
pub struct PallasOracleConstants {
    constants: PoseidonConstantsCircuit<PallasBase>,
}

/// A random oracle of `nova_snark` over the base field of Pallas.
#[verifier::external_body]
pub struct PallasOracle {
    ro: PoseidonRO<PallasBase>,
}

/// The residues that an oracle over the base field of Pallas holds.
pub uninterp spec fn pallas_oracle_state(ro: PallasOracle) -> Seq<int>;

/// The Poseidon hash of `nova_snark` over the base field of Pallas.
pub uninterp spec fn fp_poseidon(state: Seq<int>) -> int;

/// The `default` of the constants: the only value they take here. Nothing is claimed of it.
#[verifier::external_body]
fn pallas_oracle_constants() -> PallasOracleConstants {
    PallasOracleConstants { constants: PoseidonConstantsCircuit::default() }
}

/// Makes an oracle with `new` of `PoseidonRO`: it holds nothing.
#[verifier::external_body]
fn pallas_oracle_new(constants: &PallasOracleConstants) -> (ro: PallasOracle)
    ensures
        pallas_oracle_state(ro) == Seq::<int>::empty(),
{
    PallasOracle { ro: PoseidonRO::new(constants.constants.clone()) }
}

/// Absorbs with `absorb` of `PoseidonRO`: the element is appended to what the oracle holds.
#[verifier::external_body]
fn pallas_oracle_absorb(ro: &mut PallasOracle, e: &Fp)
    ensures
        pallas_oracle_state(*final(ro)) == pallas_oracle_state(*old(ro)).push(e.val()),
{
    ro.ro.absorb(PallasBase::from_raw(e.limbs))
}

/// Squeezes with `squeeze` of `PoseidonRO`, without a forced high bit: the oracle holds the hash of what it
/// held, and the low bits of that hash are returned.
#[verifier::external_body]
fn pallas_oracle_squeeze(ro: &mut PallasOracle, num_bits: usize) -> (r: Fp)
    requires
        num_bits <= 250,
        0 < pallas_oracle_state(*old(ro)).len() <= MAX_ABSORBED,
    ensures
        r.val() == fp_poseidon(pallas_oracle_state(*old(ro))) % (pow2(num_bits as nat) as int),
        pallas_oracle_state(*final(ro)) == seq![fp_poseidon(pallas_oracle_state(*old(ro)))],
{
    let bytes = ro.ro.squeeze(num_bits, false).to_repr();
    Fp { limbs: core::array::from_fn(|i| u64::from_le_bytes(core::array::from_fn(|j| bytes[8 * i + j]))) }
}

impl RandomOracle<Fp> for PallasOracle {
    type Constants = PallasOracleConstants;

    open spec fn hash(state: Seq<int>) -> int {
        fp_poseidon(state)
    }

    open spec fn state(&self) -> Seq<int> {
        pallas_oracle_state(*self)
    }

    fn constants() -> Self::Constants {
        pallas_oracle_constants()
    }

    fn new(constants: &Self::Constants) -> (r: Self) {
        pallas_oracle_new(constants)
    }

    fn absorb(&mut self, e: &Fp) {
        pallas_oracle_absorb(self, e)
    }

    fn squeeze(&mut self, num_bits: usize) -> (r: Fp) {
        pallas_oracle_squeeze(self, num_bits)
    }
}

impl CurveEngine for Pallas {
    type CommitmentKey = PallasKey;

    type RO = PallasOracle;

    open spec fn labelled_point(label: Seq<char>, i: int) -> PointView {
        pallas_labelled_point(label, i)
    }

    open spec fn generators(ck: &Self::CommitmentKey) -> Seq<PointView> {
        pallas_key_generators(*ck)
    }

    open spec fn blinding(ck: &Self::CommitmentKey) -> PointView {
        pallas_key_blinding(*ck)
    }

    fn scalar_as_base(x: &Fq) -> (r: Fp) {
        fq_as_fp(x)
    }

    fn base_as_scalar(x: &Fp) -> (r: Fq) {
        fp_as_fq(x)
    }

    fn random_scalar() -> (r: Fq) {
        fq_random()
    }

    fn setup(label: &'static str, n: usize) -> (ck: Self::CommitmentKey) {
        pallas_setup(label, n)
    }

    fn commit(ck: &Self::CommitmentKey, v: &Vec<Fq>, r: &Fq) -> (c: Commitment<Self>) {
        pallas_commit(ck, v, r)
    }

    fn add_commitments(a: &Commitment<Self>, b: &Commitment<Self>) -> (c: Commitment<Self>) {
        pallas_add(a, b)
    }

    fn scale_commitment(a: &Commitment<Self>, s: &Fq) -> (c: Commitment<Self>) {
        pallas_scale(a, s)
    }

    fn identity_commitment() -> (c: Commitment<Self>) {
        pallas_identity()
    }
}

/// The Vesta curve.
#[derive(Clone, Copy, Debug, PartialEq, Eq)]
pub struct Vesta;

/// The coordinates that `to_coordinates` gives for the generator of Vesta times `k`.
pub uninterp spec fn vesta_multiple(k: int) -> (int, int, bool);

impl CurveGroup for Vesta {
    type Base = Fq;

    type Scalar = Fp;

    open spec fn multiple(k: int) -> PointView {
        vesta_multiple(k)
    }
}

/// A Pedersen commitment key of `nova_snark` over Vesta.
#[verifier::external_body]
pub struct VestaKey {
    key: pedersen::CommitmentKey<VestaEngine>,
}

/// The generators that a key over Vesta holds.
pub uninterp spec fn vesta_key_generators(key: VestaKey) -> Seq<(int, int, bool)>;

/// The generator that a key over Vesta holds to blind.
pub uninterp spec fn vesta_key_blinding(key: VestaKey) -> (int, int, bool);

/// The point of Vesta that `from_label` of `nova_snark` gives for a label at an index.
pub uninterp spec fn vesta_labelled_point(label: Seq<char>, i: int) -> (int, int, bool);

/// Makes a key with `setup` of the Pedersen commitments of `nova_snark`: it holds as many generators as
/// the next power of two, and the points are those of the label, the first of them to blind.
#[verifier::external_body]
fn vesta_setup(label: &'static str, n: usize) -> (key: VestaKey)
    requires
        next_pow2(n as int) < usize::MAX,
    ensures
        vesta_key_generators(key).len() == next_pow2(n as int),
        forall|i: int|
            0 <= i < next_pow2(n as int) ==> #[trigger] vesta_key_generators(key)[i]
                == vesta_labelled_point(label@, i + 1),
        vesta_key_blinding(key) == vesta_labelled_point(label@, 0),
{
    VestaKey { key: pedersen::CommitmentEngine::<VestaEngine>::setup(label.as_bytes(), n).unwrap() }
}

/// Commits with `commit` of the Pedersen commitments of `nova_snark`: the sum of the generators, each
/// times its value, and of the blinding generator times `r`.
#[verifier::external_body]
fn vesta_commit(key: &VestaKey, v: &Vec<Fp>, r: &Fp) -> (c: Commitment<Vesta>)
    requires
        v.len() <= vesta_key_generators(*key).len(),
    ensures
        c@ == commitment_log::<Vesta>(
            vesta_key_generators(*key),
            vesta_key_blinding(*key),
            vals(v@),
            r.val(),
        ),
        c.coordinates() == vesta_multiple(c@),
{
    let v: Vec<vesta::Scalar> = v.iter().map(|e| vesta::Scalar::from_raw(e.limbs)).collect();
    let r = vesta::Scalar::from_raw(r.limbs);
    let (x, y, is_infinity) = pedersen::CommitmentEngine::commit(&key.key, &v, &r).to_coordinates();
    let [x, y] = [x.to_repr(), y.to_repr()]
        .map(|e| core::array::from_fn(|i| u64::from_le_bytes(core::array::from_fn(|j| e[8 * i + j]))));
    Commitment { x: Fq { limbs: x }, y: Fq { limbs: y }, is_infinity }
}

/// Adds with the `Add` of `vesta::Point`: the sum in the group.
#[verifier::external_body]
fn vesta_add(a: &Commitment<Vesta>, b: &Commitment<Vesta>) -> (c: Commitment<Vesta>)
    ensures
        c@ == (a@ + b@) % fp_modulus(),
        c.coordinates() == vesta_multiple(c@),
{
    let [a, b] = [a, b]
        .map(|c| vesta::Affine { x: VestaBase::from_raw(c.x.limbs), y: VestaBase::from_raw(c.y.limbs) })
        .map(|c| vesta::Point::from(c));
    let (x, y, is_infinity) = (a + b).to_coordinates();
    let [x, y] = [x.to_repr(), y.to_repr()]
        .map(|e| core::array::from_fn(|i| u64::from_le_bytes(core::array::from_fn(|j| e[8 * i + j]))));
    Commitment { x: Fq { limbs: x }, y: Fq { limbs: y }, is_infinity }
}

/// Multiplies with the `Mul` of `vesta::Point` by a scalar: the multiple in the group.
#[verifier::external_body]
fn vesta_scale(a: &Commitment<Vesta>, s: &Fp) -> (c: Commitment<Vesta>)
    ensures
        c@ == (a@ * s.val()) % fp_modulus(),
        c.coordinates() == vesta_multiple(c@),
{
    let a = vesta::Affine { x: VestaBase::from_raw(a.x.limbs), y: VestaBase::from_raw(a.y.limbs) };
    let (x, y, is_infinity) = (vesta::Point::from(a) * vesta::Scalar::from_raw(s.limbs)).to_coordinates();
    let [x, y] = [x.to_repr(), y.to_repr()]
        .map(|e| core::array::from_fn(|i| u64::from_le_bytes(core::array::from_fn(|j| e[8 * i + j]))));
    Commitment { x: Fq { limbs: x }, y: Fq { limbs: y }, is_infinity }
}

/// The `zero` of `vesta::Point`: the point at infinity, of which `to_coordinates` gives two zeros and `true`.
#[verifier::external_body]
fn vesta_identity() -> (c: Commitment<Vesta>)
    ensures
        c@ == 0,
        c.coordinates() == vesta_multiple(0),
        c.coordinates() == (0int, 0int, true),
{
    let (x, y, is_infinity) = vesta::Point::zero().to_coordinates();
    let [x, y] = [x.to_repr(), y.to_repr()]
        .map(|e| core::array::from_fn(|i| u64::from_le_bytes(core::array::from_fn(|j| e[8 * i + j]))));
    Commitment { x: Fq { limbs: x }, y: Fq { limbs: y }, is_infinity }
}

/// The constants of the Poseidon hash of `nova_snark` over the base field of Vesta.
#[verifier::external_body]
pub struct VestaOracleConstants {
    constants: PoseidonConstantsCircuit<VestaBase>,
}

/// A random oracle of `nova_snark` over the base field of Vesta.
#[verifier::external_body]
pub struct VestaOracle {
    ro: PoseidonRO<VestaBase>,
}

/// The residues that an oracle over the base field of Vesta holds.
pub uninterp spec fn vesta_oracle_state(ro: VestaOracle) -> Seq<int>;

/// The Poseidon hash of `nova_snark` over the base field of Vesta.
pub uninterp spec fn fq_poseidon(state: Seq<int>) -> int;

/// The `default` of the constants: the only value they take here. Nothing is claimed of it.
#[verifier::external_body]
fn vesta_oracle_constants() -> VestaOracleConstants {
    VestaOracleConstants { constants: PoseidonConstantsCircuit::default() }
}

/// Makes an oracle with `new` of `PoseidonRO`: it holds nothing.
#[verifier::external_body]
fn vesta_oracle_new(constants: &VestaOracleConstants) -> (ro: VestaOracle)
    ensures
        vesta_oracle_state(ro) == Seq::<int>::empty(),
{
    VestaOracle { ro: PoseidonRO::new(constants.constants.clone()) }
}

/// Absorbs with `absorb` of `PoseidonRO`: the element is appended to what the oracle holds.
#[verifier::external_body]
fn vesta_oracle_absorb(ro: &mut VestaOracle, e: &Fq)
    ensures
        vesta_oracle_state(*final(ro)) == vesta_oracle_state(*old(ro)).push(e.val()),
{
    ro.ro.absorb(VestaBase::from_raw(e.limbs))
}

/// Squeezes with `squeeze` of `PoseidonRO`, without a forced high bit: the oracle holds the hash of what it
/// held, and the low bits of that hash are returned.
#[verifier::external_body]
fn vesta_oracle_squeeze(ro: &mut VestaOracle, num_bits: usize) -> (r: Fq)
    requires
        num_bits <= 250,
        0 < vesta_oracle_state(*old(ro)).len() <= MAX_ABSORBED,
    ensures
        r.val() == fq_poseidon(vesta_oracle_state(*old(ro))) % (pow2(num_bits as nat) as int),
        vesta_oracle_state(*final(ro)) == seq![fq_poseidon(vesta_oracle_state(*old(ro)))],
{
    let bytes = ro.ro.squeeze(num_bits, false).to_repr();
    Fq { limbs: core::array::from_fn(|i| u64::from_le_bytes(core::array::from_fn(|j| bytes[8 * i + j]))) }
}

impl RandomOracle<Fq> for VestaOracle {
    type Constants = VestaOracleConstants;

    open spec fn hash(state: Seq<int>) -> int {
        fq_poseidon(state)
    }

    open spec fn state(&self) -> Seq<int> {
        vesta_oracle_state(*self)
    }

    fn constants() -> Self::Constants {
        vesta_oracle_constants()
    }

    fn new(constants: &Self::Constants) -> (r: Self) {
        vesta_oracle_new(constants)
    }

    fn absorb(&mut self, e: &Fq) {
        vesta_oracle_absorb(self, e)
    }

    fn squeeze(&mut self, num_bits: usize) -> (r: Fq) {
        vesta_oracle_squeeze(self, num_bits)
    }
}

impl CurveEngine for Vesta {
    type CommitmentKey = VestaKey;

    type RO = VestaOracle;

    open spec fn labelled_point(label: Seq<char>, i: int) -> PointView {
        vesta_labelled_point(label, i)
    }

    open spec fn generators(ck: &Self::CommitmentKey) -> Seq<PointView> {
        vesta_key_generators(*ck)
    }

    open spec fn blinding(ck: &Self::CommitmentKey) -> PointView {
        vesta_key_blinding(*ck)
    }

    fn scalar_as_base(x: &Fp) -> (r: Fq) {
        fp_as_fq(x)
    }

    fn base_as_scalar(x: &Fq) -> (r: Fp) {
        fq_as_fp(x)
    }

    fn random_scalar() -> (r: Fp) {
        fp_random()
    }

    fn setup(label: &'static str, n: usize) -> (ck: Self::CommitmentKey) {
        vesta_setup(label, n)
    }

    fn commit(ck: &Self::CommitmentKey, v: &Vec<Fp>, r: &Fp) -> (c: Commitment<Self>) {
        vesta_commit(ck, v, r)
    }

    fn add_commitments(a: &Commitment<Self>, b: &Commitment<Self>) -> (c: Commitment<Self>) {
        vesta_add(a, b)
    }

    fn scale_commitment(a: &Commitment<Self>, s: &Fp) -> (c: Commitment<Self>) {
        vesta_scale(a, s)
    }

    fn identity_commitment() -> (c: Commitment<Self>) {
        vesta_identity()
    }
}

/// Constraints and values that gadgets of `nova_snark` put into systems over the base field of Pallas.
#[verifier::external_body]
pub struct PallasCircuit {
    shape: ShapeCS<VestaEngine>,
    witness: WitnessCS<PallasBase>,
    outputs: Vec<AllocatedNum<PallasBase>>,
}

/// The constraints, values and results that a circuit over the base field of Pallas holds.
pub uninterp spec fn pallas_circuit(circuit: PallasCircuit) -> FragmentView;

/// The constraints that `squeeze_scalar` of `PoseidonROCircuit`, after absorbing so many elements, puts into a system over the base
/// field of Pallas: they do not depend on the values.
pub uninterp spec fn pallas_hash_layout(n: int) -> FragmentLayout;

/// Runs `squeeze_scalar` of `PoseidonROCircuit`, on a system that keeps constraints and on one that keeps
/// values, after absorbing inputs: whatever satisfies the constraints gives the Poseidon hash of the inputs,
/// and the values satisfy them.
#[verifier::external_body]
fn pallas_hash_circuit(constants: &PallasOracleConstants, state: &Vec<Fp>) -> (r: PallasCircuit)
    requires
        0 < state.len() <= MAX_ABSORBED,
    ensures
        pallas_circuit(r).layout() == pallas_hash_layout(state.len() as int),
        pallas_circuit(r).fits(state.len() as int, fp_modulus()),
        pallas_circuit(r).accepts(pallas_circuit(r).own(vals(state@)), state.len() as int, fp_modulus()),
        pallas_circuit(r).hashes(state.len() as int, fp_modulus(), |s: Seq<int>| fp_poseidon(s)),
{
    let mut shape = ShapeCS::new();
    let mut witness = WitnessCS::new();
    let [mut a, mut b] = [0; 2].map(|_| PoseidonROCircuit::new(constants.constants.clone()));
    for (i, e) in state.iter().enumerate() {
        let value = Some(PallasBase::from_raw(e.limbs));
        a.absorb(&AllocatedNum::from_parts(NovaVariable(Input(i + 1)), value));
        b.absorb(&AllocatedNum::from_parts(NovaVariable(Input(i + 1)), value));
    }
    let hash = a.squeeze_scalar(&mut shape).unwrap();
    b.squeeze_scalar(&mut witness).unwrap();
    PallasCircuit { shape, witness, outputs: vec![hash] }
}

/// The constraints that `to_bits_le_strict` of `AllocatedNum`, on so many inputs, puts into a system over the base
/// field of Pallas: they do not depend on the values.
pub uninterp spec fn pallas_bits_layout(n: int) -> FragmentLayout;

/// Runs `to_bits_le_strict` of `AllocatedNum` on an input: whatever satisfies the constraints gives the bits of
/// the residue, and the values satisfy them.
#[verifier::external_body]
fn pallas_bits_circuit(value: &Fp) -> (r: PallasCircuit)
    ensures
        pallas_circuit(r).layout() == pallas_bits_layout(1),
        pallas_circuit(r).fits(1, fp_modulus()),
        pallas_circuit(r).accepts(pallas_circuit(r).own(seq![value.val()]), 1, fp_modulus()),
        pallas_circuit(r).unpacks(fp_modulus()),
{
    let mut shape = ShapeCS::new();
    let mut witness = WitnessCS::new();
    let n = AllocatedNum::from_parts(NovaVariable(Input(1)), Some(PallasBase::from_raw(value.limbs)));
    let bits = n.to_bits_le_strict(&mut shape).unwrap();
    n.to_bits_le_strict(&mut witness).unwrap();
    let one = NovaVariable(Input(0));
    let var = |b: &Boolean| b.lc(one, PallasBase::ONE).iter().next().unwrap().0;
    let outputs = bits.iter().map(|b| AllocatedNum::from_parts(var(b), None)).collect();
    PallasCircuit { shape, witness, outputs }
}

/// The constraints that `add` of `AllocatedPoint`, on so many inputs, puts into a system over the base
/// field of Pallas: they do not depend on the values.
pub uninterp spec fn pallas_add_layout(n: int) -> FragmentLayout;

/// Runs `add` of `AllocatedPoint` on inputs: whatever satisfies the constraints gives the coordinates of the
/// sum of two points if the inputs are coordinates of points, and the values satisfy them.
#[verifier::external_body]
fn pallas_add_circuit(values: &[Fp; 6]) -> (r: PallasCircuit)
    requires
        is_point::<Pallas>(vals(values@), 0),
        is_point::<Pallas>(vals(values@), 3),
    ensures
        pallas_circuit(r).layout() == pallas_add_layout(6),
        pallas_circuit(r).fits(6, fp_modulus()),
        pallas_circuit(r).accepts(pallas_circuit(r).own(vals(values@)), 6, fp_modulus()),
        pallas_circuit(r).adds::<Pallas>(),
{
    let mut shape = ShapeCS::new();
    let mut witness = WitnessCS::new();
    let value = |i: usize| Some(PallasBase::from_raw(values[i].limbs));
    let n = |i| AllocatedNum::from_parts(NovaVariable(Input(i + 1)), value(i));
    let [a, b] = [0, 3].map(|i| AllocatedPoint::<PallasEngine> { x: n(i), y: n(i + 1), is_infinity: n(i + 2) });
    let c = a.add(&mut shape, &b).unwrap();
    a.add(&mut witness, &b).unwrap();
    PallasCircuit { shape, witness, outputs: vec![c.x, c.y, c.is_infinity] }
}

/// The constraints that `scalar_mul` of `AllocatedPoint`, on so many inputs, puts into a system over the base
/// field of Pallas: they do not depend on the values.
pub uninterp spec fn pallas_scale_layout(n: int) -> FragmentLayout;

/// Runs `scalar_mul` of `AllocatedPoint` on inputs: whatever satisfies the constraints gives the coordinates of
/// the multiple of a point if the inputs are coordinates of a point and bits, and the values satisfy them. It
/// indexes the first bit, and doubles the point without regard to the point at infinity for 253 bits.
#[verifier::external_body]
fn pallas_scale_circuit(point: &[Fp; 3], bits: &Vec<bool>) -> (r: PallasCircuit)
    requires
        0 < bits.len() <= 250,
        is_point::<Pallas>(vals(point@), 0),
    ensures
        pallas_circuit(r).layout() == pallas_scale_layout(bits.len() + 3),
        pallas_circuit(r).fits(bits.len() + 3, fp_modulus()),
        pallas_circuit(r).accepts(
            pallas_circuit(r).own(vals(point@) + Seq::new(bits@.len(), |i: int| bool_int(bits@[i]))),
            bits.len() + 3,
            fp_modulus(),
        ),
        pallas_circuit(r).scales::<Pallas>(bits.len() as int),
{
    let mut shape = ShapeCS::new();
    let mut witness = WitnessCS::new();
    let n =
        |i: usize| AllocatedNum::from_parts(NovaVariable(Input(i + 1)), Some(PallasBase::from_raw(point[i].limbs)));
    let a = AllocatedPoint::<PallasEngine> { x: n(0), y: n(1), is_infinity: n(2) };
    let bits: Vec<_> = (4..)
        .zip(bits)
        .map(|(i, b)| AllocatedBit::from_parts_unchecked(NovaVariable(Input(i)), Some(*b)))
        .collect();
    let c = a.scalar_mul(&mut shape, &bits).unwrap();
    a.scalar_mul(&mut witness, &bits).unwrap();
    PallasCircuit { shape, witness, outputs: vec![c.x, c.y, c.is_infinity] }
}

/// The constraints that `check_on_curve` of `AllocatedPoint`, on so many inputs, puts into a system over the base
/// field of Pallas: they do not depend on the values.
pub uninterp spec fn pallas_check_layout(n: int) -> FragmentLayout;

/// Runs `check_on_curve` of `AllocatedPoint` on inputs: whatever satisfies the constraints gives inputs that are
/// coordinates of a point of the curve, all of which are multiples of the generator, unless they are marked as
/// those of the point at infinity; and the values satisfy them.
#[verifier::external_body]
fn pallas_check_circuit(values: &[Fp; 3]) -> (r: PallasCircuit)
    requires
        is_point::<Pallas>(vals(values@), 0),
    ensures
        pallas_circuit(r).layout() == pallas_check_layout(3),
        pallas_circuit(r).fits(3, fp_modulus()),
        pallas_circuit(r).accepts(pallas_circuit(r).own(vals(values@)), 3, fp_modulus()),
        pallas_circuit(r).checks::<Pallas>(),
{
    let mut shape = ShapeCS::new();
    let mut witness = WitnessCS::new();
    let value = |i: usize| Some(PallasBase::from_raw(values[i].limbs));
    let n = |i| AllocatedNum::from_parts(NovaVariable(Input(i + 1)), value(i));
    let a = AllocatedPoint::<PallasEngine> { x: n(0), y: n(1), is_infinity: n(2) };
    a.check_on_curve(&mut shape).unwrap();
    a.check_on_curve(&mut witness).unwrap();
    PallasCircuit { shape, witness, outputs: Vec::new() }
}

/// Takes a circuit apart: the `constraints` of a `ShapeCS` with the bytes of the coefficients, the values and
/// the results.
#[verifier::external_body]
fn pallas_circuit_parts(circuit: &PallasCircuit) -> (r: (Vec<[RawCombination; 3]>, Vec<[u8; 32]>, Vec<RawVariable>))
    ensures
        pallas_circuit(*circuit) == raw_fragment(r.0@, r.1@, r.2@, fp_modulus()),
{
    let var = |v: NovaVariable| match v.0 {
        Input(i) => (true, i),
        Aux(i) => (false, i),
    };
    let lc = |l: &LinearCombination<PallasBase>| l.iter().map(|(v, c)| (var(v), c.to_repr().into())).collect();
    let constraints = circuit.shape.constraints.iter().map(|(a, b, c)| [a, b, c].map(lc)).collect();
    let aux = circuit.witness.aux_assignment().iter().map(|e| e.to_repr().into()).collect();
    (constraints, aux, circuit.outputs.iter().map(|n| var(n.get_variable())).collect())
}

/// Constraints and values that gadgets of `nova_snark` for large numbers put into systems over the base field of
/// Pallas.
#[verifier::external_body]
pub struct PallasNatCircuit {
    shape: ShapeCS<VestaEngine>,
    witness: WitnessCS<PallasBase>,
    limbs: Vec<LinearCombination<PallasBase>>,
}

/// The constraints, values and limbs that a circuit for a large number holds.
pub uninterp spec fn pallas_nat_circuit(circuit: PallasNatCircuit) -> FragmentView;

/// Runs `from_num` of `BigNat` on an input: whatever satisfies the constraints gives limbs of a number that the
/// residue of the input is that of, and the values satisfy them and give the residue itself.
#[verifier::external_body]
fn pallas_split_circuit(value: &Fp, limb_width: usize, num_limbs: usize) -> (r: PallasNatCircuit)
    requires
        limb_width == LIMB_WIDTH,
        num_limbs == NUM_LIMBS,
    ensures
        pallas_nat_circuit(r).fits(1, fp_modulus()),
        pallas_nat_circuit(r).accepts(pallas_nat_circuit(r).own(seq![value.val()]), 1, fp_modulus()),
        pallas_nat_circuit(r).splits(fp_modulus()),
        nat_of(pallas_nat_circuit(r).results(pallas_nat_circuit(r).own(seq![value.val()])), 0) == value.val(),
{
    let mut shape = ShapeCS::new();
    let mut witness = WitnessCS::new();
    let input = LinearCombination::from_variable(NovaVariable(Input(1)));
    let n = Num::new(Some(PallasBase::from_raw(value.limbs)), input);
    let number = BigNat::from_num(&mut shape, &n, limb_width, num_limbs).unwrap();
    BigNat::from_num(&mut witness, &n, limb_width, num_limbs).unwrap();
    PallasNatCircuit { shape, witness, limbs: number.limbs }
}

/// Runs `mult_mod` of `BigNat` on the limbs of two numbers and on those of the order of the scalar field: whatever
/// satisfies the constraints gives limbs of a number that is congruent to the product, and the values satisfy them
/// and give the remainder.
#[verifier::external_body]
fn pallas_multiply_circuit(values: &[Fp; 12], limb_width: usize) -> (r: PallasNatCircuit)
    requires
        limb_width == LIMB_WIDTH,
        is_nat(vals(values@), 0),
        is_nat(vals(values@), 4),
        is_nat(vals(values@), 8),
        nat_of(vals(values@), 8) == fq_modulus(),
    ensures
        pallas_nat_circuit(r).fits(12, fp_modulus()),
        pallas_nat_circuit(r).accepts(pallas_nat_circuit(r).own(vals(values@)), 12, fp_modulus()),
        pallas_nat_circuit(r).multiplies(fp_modulus(), fq_modulus()),
        nat_of(pallas_nat_circuit(r).results(pallas_nat_circuit(r).own(vals(values@))), 0) == (nat_of(vals(values@), 0)
            * nat_of(vals(values@), 4)) % fq_modulus(),
{
    let mut shape = ShapeCS::new();
    let mut witness = WitnessCS::new();
    let [a, b, m] = [0, 4, 8].map(|i| {
        let (coefficients, limbs) = (i + 1..i + 5)
            .map(|k| (LinearCombination::from_variable(NovaVariable(Input(k))), PallasBase::from_raw(values[k - 1].limbs)))
            .unzip();
        BigNat::from_poly(Polynomial { coefficients, values: Some(limbs) }, limb_width, u64::MAX.into())
    });
    let (_, number) = a.mult_mod(&mut shape, &b, &m).unwrap();
    a.mult_mod(&mut witness, &b, &m).unwrap();
    PallasNatCircuit { shape, witness, limbs: number.limbs }
}

/// Runs `red_mod` of `BigNat` on the `add` of the limbs of two numbers and on those of the order of the scalar
/// field: whatever satisfies the constraints gives limbs of a number that is congruent to the sum, and the values
/// satisfy them and give the remainder.
#[verifier::external_body]
fn pallas_reduce_circuit(values: &[Fp; 12], limb_width: usize) -> (r: PallasNatCircuit)
    requires
        limb_width == LIMB_WIDTH,
        is_nat(vals(values@), 0),
        is_nat(vals(values@), 4),
        is_nat(vals(values@), 8),
        nat_of(vals(values@), 8) == fq_modulus(),
    ensures
        pallas_nat_circuit(r).fits(12, fp_modulus()),
        pallas_nat_circuit(r).accepts(pallas_nat_circuit(r).own(vals(values@)), 12, fp_modulus()),
        pallas_nat_circuit(r).reduces(fp_modulus(), fq_modulus()),
        nat_of(pallas_nat_circuit(r).results(pallas_nat_circuit(r).own(vals(values@))), 0) == (nat_of(vals(values@), 0)
            + nat_of(vals(values@), 4)) % fq_modulus(),
{
    let mut shape = ShapeCS::new();
    let mut witness = WitnessCS::new();
    let [a, b, m] = [0, 4, 8].map(|i| {
        let (coefficients, limbs) = (i + 1..i + 5)
            .map(|k| (LinearCombination::from_variable(NovaVariable(Input(k))), PallasBase::from_raw(values[k - 1].limbs)))
            .unzip();
        BigNat::from_poly(Polynomial { coefficients, values: Some(limbs) }, limb_width, u64::MAX.into())
    });
    let sum = a.add(&b).unwrap();
    let number = sum.red_mod(&mut shape, &m).unwrap();
    sum.red_mod(&mut witness, &m).unwrap();
    PallasNatCircuit { shape, witness, limbs: number.limbs }
}

/// Takes a circuit for a large number apart: the `constraints` of a `ShapeCS` with the bytes of the coefficients,
/// the values and the limbs, each of which is a variable.
#[verifier::external_body]
fn pallas_nat_parts(circuit: &PallasNatCircuit) -> (r: (Vec<[RawCombination; 3]>, Vec<[u8; 32]>, Vec<RawCombination>))
    ensures
        pallas_nat_circuit(*circuit) == raw_fragment(r.0@, r.1@, first_variables(r.2@), fp_modulus()),
        forall|i: int| 0 <= i < r.2@.len() ==> (#[trigger] r.2@[i])@.len() == 1,
{
    let var = |v: NovaVariable| match v.0 {
        Input(i) => (true, i),
        Aux(i) => (false, i),
    };
    let lc = |l: &LinearCombination<PallasBase>| l.iter().map(|(v, c)| (var(v), c.to_repr().into())).collect();
    let constraints = circuit.shape.constraints.iter().map(|(a, b, c)| [a, b, c].map(lc)).collect();
    let aux = circuit.witness.aux_assignment().iter().map(|e| e.to_repr().into()).collect();
    (constraints, aux, circuit.limbs.iter().map(lc).collect())
}

/// The fragment that a circuit for a large number is.
fn pallas_nat_fragment(circuit: &PallasNatCircuit) -> (r: Fragment<Fp>)
    ensures
        r@ == pallas_nat_circuit(*circuit),
{
    let (constraints, aux, limbs) = pallas_nat_parts(circuit);
    let outputs = read_limb_variables(&limbs);
    Fragment::read(&constraints, &aux, &outputs)
}

/// What `prove_cubic_with_three_inputs` of `SumcheckProof` over the scalars of Pallas proves of tables: the
/// coefficients of the polynomials, decompressed with the hint zero, and the last values of the tables.
pub uninterp spec fn pallas_cubic_proof(label: Seq<char>, claim: int, taus: Seq<int>, a: Seq<int>, b: Seq<int>, c: Seq<int>) -> (
    Seq<Seq<int>>,
    Seq<int>,
);

/// A sum-check proof of `nova_snark` over the scalars of Pallas, with the last values of its tables.
#[verifier::external_body]
pub struct PallasSumcheckProof {
    rounds: SumcheckProof<PallasEngine>,
    evals: Vec<pallas::Scalar>,
}

/// The coefficients, decompressed with the hint zero, and the values that a sum-check proof holds.
pub uninterp spec fn pallas_proof_parts(sumcheck: PallasSumcheckProof) -> (Seq<Seq<int>>, Seq<int>);

/// Runs `prove_cubic_with_three_inputs` of `SumcheckProof` over the scalars of Pallas with a transcript of its own, which
/// starts from the label: it
/// gives one polynomial of degree three for each variable and one value for each table.
#[verifier::external_body]
fn pallas_cubic(label: &'static str, claim: &Fq, taus: &Vec<Fq>, tables: [&Vec<Fq>; 3]) -> (r: PallasSumcheckProof)
    requires
        taus@.len() >= 1,
        tables[0]@.len() == pow2(taus@.len()),
        tables[1]@.len() == pow2(taus@.len()),
        tables[2]@.len() == pow2(taus@.len()),
    ensures
        pallas_proof_parts(r) == pallas_cubic_proof(
            label@,
            claim.val(),
            vals(taus@),
            vals(tables[0]@),
            vals(tables[1]@),
            vals(tables[2]@),
        ),
        pallas_proof_parts(r).0.len() == taus@.len(),
        forall|i: int| 0 <= i < pallas_proof_parts(r).0.len() ==> (#[trigger] pallas_proof_parts(r).0[i]).len() == 4,
        pallas_proof_parts(r).1.len() == 3,
{
    let all = |v: &Vec<Fq>| v.iter().map(|e| pallas::Scalar::from_raw(e.limbs)).collect();
    let [mut a, mut b, mut c] = tables.map(|t| MultilinearPolynomial::new(all(t)));
    let mut transcript = TranscriptEngineTrait::<PallasEngine>::new(label.as_bytes());
    let claim = pallas::Scalar::from_raw(claim.limbs);
    let (rounds, _, evals) = SumcheckProof::prove_cubic_with_three_inputs(
        &claim,
        all(taus),
        &mut a,
        &mut b,
        &mut c,
        &mut transcript,
    ).unwrap();
    PallasSumcheckProof { rounds, evals }
}

/// Takes a sum-check proof apart: the `decompress` of its polynomials with the hint zero and its values, by the bytes
/// that `to_repr` gives.
#[verifier::external_body]
fn pallas_read_proof(sumcheck: &PallasSumcheckProof) -> (r: (Vec<Vec<[u8; 32]>>, Vec<[u8; 32]>))
    ensures
        pallas_proof_parts(*sumcheck) == (raw_lists(r.0@, fq_modulus()), raw_elements(r.1@, fq_modulus())),
{
    let raw = |v: &Vec<pallas::Scalar>| v.iter().map(|e| e.to_repr().into()).collect();
    let polys = sumcheck.rounds.compressed_polys();
    (polys.iter().map(|p| raw(&p.decompress(&pallas::Scalar::ZERO).coeffs)).collect(), raw(&sumcheck.evals))
}

/// The fragment that a circuit is.
fn pallas_fragment(circuit: &PallasCircuit) -> (r: Fragment<Fp>)
    ensures
        r@ == pallas_circuit(*circuit),
{
    let (constraints, aux, outputs) = pallas_circuit_parts(circuit);
    Fragment::read(&constraints, &aux, &outputs)
}

impl CircuitEngine for Pallas {
    open spec fn check_layout(n: int) -> FragmentLayout {
        pallas_check_layout(n)
    }

    open spec fn scale_layout(n: int) -> FragmentLayout {
        pallas_scale_layout(n)
    }

    open spec fn add_layout(n: int) -> FragmentLayout {
        pallas_add_layout(n)
    }

    open spec fn bits_layout(n: int) -> FragmentLayout {
        pallas_bits_layout(n)
    }

    open spec fn hash_layout(n: int) -> FragmentLayout {
        pallas_hash_layout(n)
    }

    fn hash_fragment(constants: &PallasOracleConstants, state: &Vec<Fp>) -> (r: Fragment<Fp>) {
        pallas_fragment(&pallas_hash_circuit(constants, state))
    }

    fn bits_fragment(value: &Fp) -> (r: Fragment<Fp>) {
        pallas_fragment(&pallas_bits_circuit(value))
    }

    fn add_fragment(values: &[Fp; 6]) -> (r: Fragment<Fp>) {
        pallas_fragment(&pallas_add_circuit(values))
    }

    fn check_fragment(values: &[Fp; 3]) -> (r: Fragment<Fp>) {
        pallas_fragment(&pallas_check_circuit(values))
    }

    fn scale_fragment(point: &[Fp; 3], bits: &Vec<bool>) -> (r: Fragment<Fp>) {
        pallas_fragment(&pallas_scale_circuit(point, bits))
    }

    fn split_fragment(value: &Fp) -> (r: Fragment<Fp>) {
        pallas_nat_fragment(&pallas_split_circuit(value, LIMB_WIDTH, NUM_LIMBS))
    }

    fn multiply_fragment(values: &[Fp; 12]) -> (r: Fragment<Fp>) {
        pallas_nat_fragment(&pallas_multiply_circuit(values, LIMB_WIDTH))
    }

    fn reduce_fragment(values: &[Fp; 12]) -> (r: Fragment<Fp>) {
        pallas_nat_fragment(&pallas_reduce_circuit(values, LIMB_WIDTH))
    }

    open spec fn cubic_proof(label: Seq<char>, claim: int, taus: Seq<int>, a: Seq<int>, b: Seq<int>, c: Seq<int>) -> (
        Seq<Seq<int>>,
        Seq<int>,
    ) {
        pallas_cubic_proof(label, claim, taus, a, b, c)
    }

    fn prove_cubic(label: &'static str, claim: &Fq, taus: &Vec<Fq>, a: &Vec<Fq>, b: &Vec<Fq>, c: &Vec<Fq>) -> (r: (
        Vec<Vec<Fq>>,
        Vec<Fq>,
    )) {
        let sumcheck = pallas_cubic(label, claim, taus, [a, b, c]);
        let (polys, evals) = pallas_read_proof(&sumcheck);
        let r = (read_lists::<Fq>(&polys), read_elements::<Fq>(&evals));
        proof {
            let parts = pallas_proof_parts(sumcheck);
            assert(parts.0 == Seq::new(r.0@.len(), |i: int| vals(r.0@[i]@)));
            assert(r.0@.len() == parts.0.len());
            assert forall|i: int| 0 <= i < r.0@.len() implies (#[trigger] r.0@[i])@.len() == 4 by {
                assert(parts.0[i] == vals(r.0@[i]@));
            }
            assert(vals(r.1@).len() == parts.1.len());
        }
        r
    }

    fn scalar_limbs() -> (r: [u64; 4]) {
        [0x8c46eb2100000001, 0x224698fc0994a8dd, 0x0000000000000000, 0x4000000000000000]
    }
}

/// Constraints and values that gadgets of `nova_snark` put into systems over the base field of Vesta.
#[verifier::external_body]
pub struct VestaCircuit {
    shape: ShapeCS<PallasEngine>,
    witness: WitnessCS<VestaBase>,
    outputs: Vec<AllocatedNum<VestaBase>>,
}

/// The constraints, values and results that a circuit over the base field of Vesta holds.
pub uninterp spec fn vesta_circuit(circuit: VestaCircuit) -> FragmentView;

/// The constraints that `squeeze_scalar` of `PoseidonROCircuit`, after absorbing so many elements, puts into a system over the base
/// field of Vesta: they do not depend on the values.
pub uninterp spec fn vesta_hash_layout(n: int) -> FragmentLayout;

/// Runs `squeeze_scalar` of `PoseidonROCircuit`, on a system that keeps constraints and on one that keeps
/// values, after absorbing inputs: whatever satisfies the constraints gives the Poseidon hash of the inputs,
/// and the values satisfy them.
#[verifier::external_body]
fn vesta_hash_circuit(constants: &VestaOracleConstants, state: &Vec<Fq>) -> (r: VestaCircuit)
    requires
        0 < state.len() <= MAX_ABSORBED,
    ensures
        vesta_circuit(r).layout() == vesta_hash_layout(state.len() as int),
        vesta_circuit(r).fits(state.len() as int, fq_modulus()),
        vesta_circuit(r).accepts(vesta_circuit(r).own(vals(state@)), state.len() as int, fq_modulus()),
        vesta_circuit(r).hashes(state.len() as int, fq_modulus(), |s: Seq<int>| fq_poseidon(s)),
{
    let mut shape = ShapeCS::new();
    let mut witness = WitnessCS::new();
    let [mut a, mut b] = [0; 2].map(|_| PoseidonROCircuit::new(constants.constants.clone()));
    for (i, e) in state.iter().enumerate() {
        let value = Some(VestaBase::from_raw(e.limbs));
        a.absorb(&AllocatedNum::from_parts(NovaVariable(Input(i + 1)), value));
        b.absorb(&AllocatedNum::from_parts(NovaVariable(Input(i + 1)), value));
    }
    let hash = a.squeeze_scalar(&mut shape).unwrap();
    b.squeeze_scalar(&mut witness).unwrap();
    VestaCircuit { shape, witness, outputs: vec![hash] }
}

/// The constraints that `to_bits_le_strict` of `AllocatedNum`, on so many inputs, puts into a system over the base
/// field of Vesta: they do not depend on the values.
pub uninterp spec fn vesta_bits_layout(n: int) -> FragmentLayout;

/// Runs `to_bits_le_strict` of `AllocatedNum` on an input: whatever satisfies the constraints gives the bits of
/// the residue, and the values satisfy them.
#[verifier::external_body]
fn vesta_bits_circuit(value: &Fq) -> (r: VestaCircuit)
    ensures
        vesta_circuit(r).layout() == vesta_bits_layout(1),
        vesta_circuit(r).fits(1, fq_modulus()),
        vesta_circuit(r).accepts(vesta_circuit(r).own(seq![value.val()]), 1, fq_modulus()),
        vesta_circuit(r).unpacks(fq_modulus()),
{
    let mut shape = ShapeCS::new();
    let mut witness = WitnessCS::new();
    let n = AllocatedNum::from_parts(NovaVariable(Input(1)), Some(VestaBase::from_raw(value.limbs)));
    let bits = n.to_bits_le_strict(&mut shape).unwrap();
    n.to_bits_le_strict(&mut witness).unwrap();
    let one = NovaVariable(Input(0));
    let var = |b: &Boolean| b.lc(one, VestaBase::ONE).iter().next().unwrap().0;
    let outputs = bits.iter().map(|b| AllocatedNum::from_parts(var(b), None)).collect();
    VestaCircuit { shape, witness, outputs }
}

/// The constraints that `add` of `AllocatedPoint`, on so many inputs, puts into a system over the base
/// field of Vesta: they do not depend on the values.
pub uninterp spec fn vesta_add_layout(n: int) -> FragmentLayout;

/// Runs `add` of `AllocatedPoint` on inputs: whatever satisfies the constraints gives the coordinates of the
/// sum of two points if the inputs are coordinates of points, and the values satisfy them.
#[verifier::external_body]
fn vesta_add_circuit(values: &[Fq; 6]) -> (r: VestaCircuit)
    requires
        is_point::<Vesta>(vals(values@), 0),
        is_point::<Vesta>(vals(values@), 3),
    ensures
        vesta_circuit(r).layout() == vesta_add_layout(6),
        vesta_circuit(r).fits(6, fq_modulus()),
        vesta_circuit(r).accepts(vesta_circuit(r).own(vals(values@)), 6, fq_modulus()),
        vesta_circuit(r).adds::<Vesta>(),
{
    let mut shape = ShapeCS::new();
    let mut witness = WitnessCS::new();
    let value = |i: usize| Some(VestaBase::from_raw(values[i].limbs));
    let n = |i| AllocatedNum::from_parts(NovaVariable(Input(i + 1)), value(i));
    let [a, b] = [0, 3].map(|i| AllocatedPoint::<VestaEngine> { x: n(i), y: n(i + 1), is_infinity: n(i + 2) });
    let c = a.add(&mut shape, &b).unwrap();
    a.add(&mut witness, &b).unwrap();
    VestaCircuit { shape, witness, outputs: vec![c.x, c.y, c.is_infinity] }
}

/// The constraints that `scalar_mul` of `AllocatedPoint`, on so many inputs, puts into a system over the base
/// field of Vesta: they do not depend on the values.
pub uninterp spec fn vesta_scale_layout(n: int) -> FragmentLayout;

/// Runs `scalar_mul` of `AllocatedPoint` on inputs: whatever satisfies the constraints gives the coordinates of
/// the multiple of a point if the inputs are coordinates of a point and bits, and the values satisfy them. It
/// indexes the first bit, and doubles the point without regard to the point at infinity for 253 bits.
#[verifier::external_body]
fn vesta_scale_circuit(point: &[Fq; 3], bits: &Vec<bool>) -> (r: VestaCircuit)
    requires
        0 < bits.len() <= 250,
        is_point::<Vesta>(vals(point@), 0),
    ensures
        vesta_circuit(r).layout() == vesta_scale_layout(bits.len() + 3),
        vesta_circuit(r).fits(bits.len() + 3, fq_modulus()),
        vesta_circuit(r).accepts(
            vesta_circuit(r).own(vals(point@) + Seq::new(bits@.len(), |i: int| bool_int(bits@[i]))),
            bits.len() + 3,
            fq_modulus(),
        ),
        vesta_circuit(r).scales::<Vesta>(bits.len() as int),
{
    let mut shape = ShapeCS::new();
    let mut witness = WitnessCS::new();
    let n =
        |i: usize| AllocatedNum::from_parts(NovaVariable(Input(i + 1)), Some(VestaBase::from_raw(point[i].limbs)));
    let a = AllocatedPoint::<VestaEngine> { x: n(0), y: n(1), is_infinity: n(2) };
    let bits: Vec<_> = (4..)
        .zip(bits)
        .map(|(i, b)| AllocatedBit::from_parts_unchecked(NovaVariable(Input(i)), Some(*b)))
        .collect();
    let c = a.scalar_mul(&mut shape, &bits).unwrap();
    a.scalar_mul(&mut witness, &bits).unwrap();
    VestaCircuit { shape, witness, outputs: vec![c.x, c.y, c.is_infinity] }
}

/// The constraints that `check_on_curve` of `AllocatedPoint`, on so many inputs, puts into a system over the base
/// field of Vesta: they do not depend on the values.
pub uninterp spec fn vesta_check_layout(n: int) -> FragmentLayout;

/// Runs `check_on_curve` of `AllocatedPoint` on inputs: whatever satisfies the constraints gives inputs that are
/// coordinates of a point of the curve, all of which are multiples of the generator, unless they are marked as
/// those of the point at infinity; and the values satisfy them.
#[verifier::external_body]
fn vesta_check_circuit(values: &[Fq; 3]) -> (r: VestaCircuit)
    requires
        is_point::<Vesta>(vals(values@), 0),
    ensures
        vesta_circuit(r).layout() == vesta_check_layout(3),
        vesta_circuit(r).fits(3, fq_modulus()),
        vesta_circuit(r).accepts(vesta_circuit(r).own(vals(values@)), 3, fq_modulus()),
        vesta_circuit(r).checks::<Vesta>(),
{
    let mut shape = ShapeCS::new();
    let mut witness = WitnessCS::new();
    let value = |i: usize| Some(VestaBase::from_raw(values[i].limbs));
    let n = |i| AllocatedNum::from_parts(NovaVariable(Input(i + 1)), value(i));
    let a = AllocatedPoint::<VestaEngine> { x: n(0), y: n(1), is_infinity: n(2) };
    a.check_on_curve(&mut shape).unwrap();
    a.check_on_curve(&mut witness).unwrap();
    VestaCircuit { shape, witness, outputs: Vec::new() }
}

/// Takes a circuit apart: the `constraints` of a `ShapeCS` with the bytes of the coefficients, the values and
/// the results.
#[verifier::external_body]
fn vesta_circuit_parts(circuit: &VestaCircuit) -> (r: (Vec<[RawCombination; 3]>, Vec<[u8; 32]>, Vec<RawVariable>))
    ensures
        vesta_circuit(*circuit) == raw_fragment(r.0@, r.1@, r.2@, fq_modulus()),
{
    let var = |v: NovaVariable| match v.0 {
        Input(i) => (true, i),
        Aux(i) => (false, i),
    };
    let lc = |l: &LinearCombination<VestaBase>| l.iter().map(|(v, c)| (var(v), c.to_repr().into())).collect();
    let constraints = circuit.shape.constraints.iter().map(|(a, b, c)| [a, b, c].map(lc)).collect();
    let aux = circuit.witness.aux_assignment().iter().map(|e| e.to_repr().into()).collect();
    (constraints, aux, circuit.outputs.iter().map(|n| var(n.get_variable())).collect())
}

/// Constraints and values that gadgets of `nova_snark` for large numbers put into systems over the base field of
/// Vesta.
#[verifier::external_body]
pub struct VestaNatCircuit {
    shape: ShapeCS<PallasEngine>,
    witness: WitnessCS<VestaBase>,
    limbs: Vec<LinearCombination<VestaBase>>,
}

/// The constraints, values and limbs that a circuit for a large number holds.
pub uninterp spec fn vesta_nat_circuit(circuit: VestaNatCircuit) -> FragmentView;

/// Runs `from_num` of `BigNat` on an input: whatever satisfies the constraints gives limbs of a number that the
/// residue of the input is that of, and the values satisfy them and give the residue itself.
#[verifier::external_body]
fn vesta_split_circuit(value: &Fq, limb_width: usize, num_limbs: usize) -> (r: VestaNatCircuit)
    requires
        limb_width == LIMB_WIDTH,
        num_limbs == NUM_LIMBS,
    ensures
        vesta_nat_circuit(r).fits(1, fq_modulus()),
        vesta_nat_circuit(r).accepts(vesta_nat_circuit(r).own(seq![value.val()]), 1, fq_modulus()),
        vesta_nat_circuit(r).splits(fq_modulus()),
        nat_of(vesta_nat_circuit(r).results(vesta_nat_circuit(r).own(seq![value.val()])), 0) == value.val(),
{
    let mut shape = ShapeCS::new();
    let mut witness = WitnessCS::new();
    let input = LinearCombination::from_variable(NovaVariable(Input(1)));
    let n = Num::new(Some(VestaBase::from_raw(value.limbs)), input);
    let number = BigNat::from_num(&mut shape, &n, limb_width, num_limbs).unwrap();
    BigNat::from_num(&mut witness, &n, limb_width, num_limbs).unwrap();
    VestaNatCircuit { shape, witness, limbs: number.limbs }
}

/// Runs `mult_mod` of `BigNat` on the limbs of two numbers and on those of the order of the scalar field: whatever
/// satisfies the constraints gives limbs of a number that is congruent to the product, and the values satisfy them
/// and give the remainder.
#[verifier::external_body]
fn vesta_multiply_circuit(values: &[Fq; 12], limb_width: usize) -> (r: VestaNatCircuit)
    requires
        limb_width == LIMB_WIDTH,
        is_nat(vals(values@), 0),
        is_nat(vals(values@), 4),
        is_nat(vals(values@), 8),
        nat_of(vals(values@), 8) == fp_modulus(),
    ensures
        vesta_nat_circuit(r).fits(12, fq_modulus()),
        vesta_nat_circuit(r).accepts(vesta_nat_circuit(r).own(vals(values@)), 12, fq_modulus()),
        vesta_nat_circuit(r).multiplies(fq_modulus(), fp_modulus()),
        nat_of(vesta_nat_circuit(r).results(vesta_nat_circuit(r).own(vals(values@))), 0) == (nat_of(vals(values@), 0)
            * nat_of(vals(values@), 4)) % fp_modulus(),
{
    let mut shape = ShapeCS::new();
    let mut witness = WitnessCS::new();
    let [a, b, m] = [0, 4, 8].map(|i| {
        let (coefficients, limbs) = (i + 1..i + 5)
            .map(|k| (LinearCombination::from_variable(NovaVariable(Input(k))), VestaBase::from_raw(values[k - 1].limbs)))
            .unzip();
        BigNat::from_poly(Polynomial { coefficients, values: Some(limbs) }, limb_width, u64::MAX.into())
    });
    let (_, number) = a.mult_mod(&mut shape, &b, &m).unwrap();
    a.mult_mod(&mut witness, &b, &m).unwrap();
    VestaNatCircuit { shape, witness, limbs: number.limbs }
}

/// Runs `red_mod` of `BigNat` on the `add` of the limbs of two numbers and on those of the order of the scalar
/// field: whatever satisfies the constraints gives limbs of a number that is congruent to the sum, and the values
/// satisfy them and give the remainder.
#[verifier::external_body]
fn vesta_reduce_circuit(values: &[Fq; 12], limb_width: usize) -> (r: VestaNatCircuit)
    requires
        limb_width == LIMB_WIDTH,
        is_nat(vals(values@), 0),
        is_nat(vals(values@), 4),
        is_nat(vals(values@), 8),
        nat_of(vals(values@), 8) == fp_modulus(),
    ensures
        vesta_nat_circuit(r).fits(12, fq_modulus()),
        vesta_nat_circuit(r).accepts(vesta_nat_circuit(r).own(vals(values@)), 12, fq_modulus()),
        vesta_nat_circuit(r).reduces(fq_modulus(), fp_modulus()),
        nat_of(vesta_nat_circuit(r).results(vesta_nat_circuit(r).own(vals(values@))), 0) == (nat_of(vals(values@), 0)
            + nat_of(vals(values@), 4)) % fp_modulus(),
{
    let mut shape = ShapeCS::new();
    let mut witness = WitnessCS::new();
    let [a, b, m] = [0, 4, 8].map(|i| {
        let (coefficients, limbs) = (i + 1..i + 5)
            .map(|k| (LinearCombination::from_variable(NovaVariable(Input(k))), VestaBase::from_raw(values[k - 1].limbs)))
            .unzip();
        BigNat::from_poly(Polynomial { coefficients, values: Some(limbs) }, limb_width, u64::MAX.into())
    });
    let sum = a.add(&b).unwrap();
    let number = sum.red_mod(&mut shape, &m).unwrap();
    sum.red_mod(&mut witness, &m).unwrap();
    VestaNatCircuit { shape, witness, limbs: number.limbs }
}

/// Takes a circuit for a large number apart: the `constraints` of a `ShapeCS` with the bytes of the coefficients,
/// the values and the limbs, each of which is a variable.
#[verifier::external_body]
fn vesta_nat_parts(circuit: &VestaNatCircuit) -> (r: (Vec<[RawCombination; 3]>, Vec<[u8; 32]>, Vec<RawCombination>))
    ensures
        vesta_nat_circuit(*circuit) == raw_fragment(r.0@, r.1@, first_variables(r.2@), fq_modulus()),
        forall|i: int| 0 <= i < r.2@.len() ==> (#[trigger] r.2@[i])@.len() == 1,
{
    let var = |v: NovaVariable| match v.0 {
        Input(i) => (true, i),
        Aux(i) => (false, i),
    };
    let lc = |l: &LinearCombination<VestaBase>| l.iter().map(|(v, c)| (var(v), c.to_repr().into())).collect();
    let constraints = circuit.shape.constraints.iter().map(|(a, b, c)| [a, b, c].map(lc)).collect();
    let aux = circuit.witness.aux_assignment().iter().map(|e| e.to_repr().into()).collect();
    (constraints, aux, circuit.limbs.iter().map(lc).collect())
}

/// The fragment that a circuit for a large number is.
fn vesta_nat_fragment(circuit: &VestaNatCircuit) -> (r: Fragment<Fq>)
    ensures
        r@ == vesta_nat_circuit(*circuit),
{
    let (constraints, aux, limbs) = vesta_nat_parts(circuit);
    let outputs = read_limb_variables(&limbs);
    Fragment::read(&constraints, &aux, &outputs)
}

/// What `prove_cubic_with_three_inputs` of `SumcheckProof` over the scalars of Vesta proves of tables: the
/// coefficients of the polynomials, decompressed with the hint zero, and the last values of the tables.
pub uninterp spec fn vesta_cubic_proof(label: Seq<char>, claim: int, taus: Seq<int>, a: Seq<int>, b: Seq<int>, c: Seq<int>) -> (
    Seq<Seq<int>>,
    Seq<int>,
);

/// A sum-check proof of `nova_snark` over the scalars of Vesta, with the last values of its tables.
#[verifier::external_body]
pub struct VestaSumcheckProof {
    rounds: SumcheckProof<VestaEngine>,
    evals: Vec<vesta::Scalar>,
}

/// The coefficients, decompressed with the hint zero, and the values that a sum-check proof holds.
pub uninterp spec fn vesta_proof_parts(sumcheck: VestaSumcheckProof) -> (Seq<Seq<int>>, Seq<int>);

/// Runs `prove_cubic_with_three_inputs` of `SumcheckProof` over the scalars of Vesta with a transcript of its own, which
/// starts from the label: it
/// gives one polynomial of degree three for each variable and one value for each table.
#[verifier::external_body]
fn vesta_cubic(label: &'static str, claim: &Fp, taus: &Vec<Fp>, tables: [&Vec<Fp>; 3]) -> (r: VestaSumcheckProof)
    requires
        taus@.len() >= 1,
        tables[0]@.len() == pow2(taus@.len()),
        tables[1]@.len() == pow2(taus@.len()),
        tables[2]@.len() == pow2(taus@.len()),
    ensures
        vesta_proof_parts(r) == vesta_cubic_proof(
            label@,
            claim.val(),
            vals(taus@),
            vals(tables[0]@),
            vals(tables[1]@),
            vals(tables[2]@),
        ),
        vesta_proof_parts(r).0.len() == taus@.len(),
        forall|i: int| 0 <= i < vesta_proof_parts(r).0.len() ==> (#[trigger] vesta_proof_parts(r).0[i]).len() == 4,
        vesta_proof_parts(r).1.len() == 3,
{
    let all = |v: &Vec<Fp>| v.iter().map(|e| vesta::Scalar::from_raw(e.limbs)).collect();
    let [mut a, mut b, mut c] = tables.map(|t| MultilinearPolynomial::new(all(t)));
    let mut transcript = TranscriptEngineTrait::<VestaEngine>::new(label.as_bytes());
    let claim = vesta::Scalar::from_raw(claim.limbs);
    let (rounds, _, evals) = SumcheckProof::prove_cubic_with_three_inputs(
        &claim,
        all(taus),
        &mut a,
        &mut b,
        &mut c,
        &mut transcript,
    ).unwrap();
    VestaSumcheckProof { rounds, evals }
}

/// Takes a sum-check proof apart: the `decompress` of its polynomials with the hint zero and its values, by the bytes
/// that `to_repr` gives.
#[verifier::external_body]
fn vesta_read_proof(sumcheck: &VestaSumcheckProof) -> (r: (Vec<Vec<[u8; 32]>>, Vec<[u8; 32]>))
    ensures
        vesta_proof_parts(*sumcheck) == (raw_lists(r.0@, fp_modulus()), raw_elements(r.1@, fp_modulus())),
{
    let raw = |v: &Vec<vesta::Scalar>| v.iter().map(|e| e.to_repr().into()).collect();
    let polys = sumcheck.rounds.compressed_polys();
    (polys.iter().map(|p| raw(&p.decompress(&vesta::Scalar::ZERO).coeffs)).collect(), raw(&sumcheck.evals))
}

/// The fragment that a circuit is.
fn vesta_fragment(circuit: &VestaCircuit) -> (r: Fragment<Fq>)
    ensures
        r@ == vesta_circuit(*circuit),
{
    let (constraints, aux, outputs) = vesta_circuit_parts(circuit);
    Fragment::read(&constraints, &aux, &outputs)
}

impl CircuitEngine for Vesta {
    open spec fn check_layout(n: int) -> FragmentLayout {
        vesta_check_layout(n)
    }

    open spec fn scale_layout(n: int) -> FragmentLayout {
        vesta_scale_layout(n)
    }

    open spec fn add_layout(n: int) -> FragmentLayout {
        vesta_add_layout(n)
    }

    open spec fn bits_layout(n: int) -> FragmentLayout {
        vesta_bits_layout(n)
    }

    open spec fn hash_layout(n: int) -> FragmentLayout {
        vesta_hash_layout(n)
    }

    fn hash_fragment(constants: &VestaOracleConstants, state: &Vec<Fq>) -> (r: Fragment<Fq>) {
        vesta_fragment(&vesta_hash_circuit(constants, state))
    }

    fn bits_fragment(value: &Fq) -> (r: Fragment<Fq>) {
        vesta_fragment(&vesta_bits_circuit(value))
    }

    fn add_fragment(values: &[Fq; 6]) -> (r: Fragment<Fq>) {
        vesta_fragment(&vesta_add_circuit(values))
    }

    fn check_fragment(values: &[Fq; 3]) -> (r: Fragment<Fq>) {
        vesta_fragment(&vesta_check_circuit(values))
    }

    fn scale_fragment(point: &[Fq; 3], bits: &Vec<bool>) -> (r: Fragment<Fq>) {
        vesta_fragment(&vesta_scale_circuit(point, bits))
    }

    fn split_fragment(value: &Fq) -> (r: Fragment<Fq>) {
        vesta_nat_fragment(&vesta_split_circuit(value, LIMB_WIDTH, NUM_LIMBS))
    }

    fn multiply_fragment(values: &[Fq; 12]) -> (r: Fragment<Fq>) {
        vesta_nat_fragment(&vesta_multiply_circuit(values, LIMB_WIDTH))
    }

    fn reduce_fragment(values: &[Fq; 12]) -> (r: Fragment<Fq>) {
        vesta_nat_fragment(&vesta_reduce_circuit(values, LIMB_WIDTH))
    }

    open spec fn cubic_proof(label: Seq<char>, claim: int, taus: Seq<int>, a: Seq<int>, b: Seq<int>, c: Seq<int>) -> (
        Seq<Seq<int>>,
        Seq<int>,
    ) {
        vesta_cubic_proof(label, claim, taus, a, b, c)
    }

    fn prove_cubic(label: &'static str, claim: &Fp, taus: &Vec<Fp>, a: &Vec<Fp>, b: &Vec<Fp>, c: &Vec<Fp>) -> (r: (
        Vec<Vec<Fp>>,
        Vec<Fp>,
    )) {
        let sumcheck = vesta_cubic(label, claim, taus, [a, b, c]);
        let (polys, evals) = vesta_read_proof(&sumcheck);
        let r = (read_lists::<Fp>(&polys), read_elements::<Fp>(&evals));
        proof {
            let parts = vesta_proof_parts(sumcheck);
            assert(parts.0 == Seq::new(r.0@.len(), |i: int| vals(r.0@[i]@)));
            assert(r.0@.len() == parts.0.len());
            assert forall|i: int| 0 <= i < r.0@.len() implies (#[trigger] r.0@[i])@.len() == 4 by {
                assert(parts.0[i] == vals(r.0@[i]@));
            }
            assert(vals(r.1@).len() == parts.1.len());
        }
        r
    }

    fn scalar_limbs() -> (r: [u64; 4]) {
        [0x992d30ed00000001, 0x224698fc094cf91b, 0x0000000000000000, 0x4000000000000000]
    }
}

} // verus!
