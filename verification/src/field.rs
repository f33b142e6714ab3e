//! Prime fields as the rest of the library sees them.
use crate::math::integral;
use vstd::prelude::*;

verus! {

/// The number that four little-endian limbs of 64 bits stand for.
pub open spec fn limbs_value(limbs: [u64; 4]) -> int {
    limbs[0] + 0x1_0000_0000_0000_0000 * limbs[1]
        + 0x1_0000_0000_0000_0000_0000_0000_0000_0000int * limbs[2]
        + 0x1_0000_0000_0000_0000_0000_0000_0000_0000_0000_0000_0000_0000int * limbs[3]
}

/// The limb at `i` of 32 little-endian bytes.
pub open spec fn limb_of(bytes: [u8; 32], i: int) -> int {
    bytes[8 * i] + 0x100 * bytes[8 * i + 1] + 0x1_0000 * bytes[8 * i + 2] + 0x100_0000 * bytes[8 * i + 3]
        + 0x1_0000_0000 * bytes[8 * i + 4] + 0x100_0000_0000 * bytes[8 * i + 5] + 0x1_0000_0000_0000 * bytes[8 * i
        + 6] + 0x100_0000_0000_0000 * bytes[8 * i + 7]
}

/// The number that 32 little-endian bytes stand for.
pub open spec fn bytes_value(bytes: [u8; 32]) -> int {
    limb_of(bytes, 0) + 0x1_0000_0000_0000_0000 * limb_of(bytes, 1)
        + 0x1_0000_0000_0000_0000_0000_0000_0000_0000int * limb_of(bytes, 2)
        + 0x1_0000_0000_0000_0000_0000_0000_0000_0000_0000_0000_0000_0000int * limb_of(bytes, 3)
}

/// The limb at `i` of 32 little-endian bytes.
fn read_limb(bytes: &[u8; 32], i: usize) -> (r: u64)
    requires
        i < 4,
    ensures
        r == limb_of(*bytes, i as int),
{
    let low: u64 = bytes[8 * i] as u64 + 0x100 * bytes[8 * i + 1] as u64 + 0x1_0000 * bytes[8 * i + 2] as u64
        + 0x100_0000 * bytes[8 * i + 3] as u64;
    let high: u64 = bytes[8 * i + 4] as u64 + 0x100 * bytes[8 * i + 5] as u64 + 0x1_0000 * bytes[8 * i + 6] as u64
        + 0x100_0000 * bytes[8 * i + 7] as u64;
    low + 0x1_0000_0000 * high
}

/// The limbs of 32 little-endian bytes.
pub fn read_limbs(bytes: &[u8; 32]) -> (r: [u64; 4])
    ensures
        limbs_value(r) == bytes_value(*bytes),
{
    [read_limb(bytes, 0), read_limb(bytes, 1), read_limb(bytes, 2), read_limb(bytes, 3)]
}

/// An element of a prime field of 255 bits.
pub trait FieldElement: Copy + Sized {
    /// The order of the field.
    spec fn modulus() -> int;

    /// The least non-negative residue that the element stands for.
    spec fn val(&self) -> int;

    /// The order lies between two powers of two, and is prime to six.
    proof fn modulus_bounds()
        ensures
            Self::modulus() % 2 == 1,
            Self::modulus() % 3 != 0,
            0x4000000000000000000000000000000000000000000000000000000000000000int < Self::modulus(),
            Self::modulus() < 0x8000000000000000000000000000000000000000000000000000000000000000int,
    ;

    /// Every element stands for a residue.
    proof fn val_bounds(&self)
        ensures
            0 <= self.val() < Self::modulus(),
    ;

    /// The element that `value` stands for.
    fn from_u64(value: u64) -> (r: Self)
        ensures
            r.val() == value,
    ;

    /// The element that 32 little-endian bytes stand for.
    fn from_bytes(bytes: &[u8; 32]) -> (r: Self)
        ensures
            r.val() == bytes_value(*bytes) % Self::modulus(),
    ;

    /// The little-endian bytes of the residue.
    fn to_bytes(&self) -> (r: [u8; 32])
        ensures
            bytes_value(r) == self.val(),
    ;

    /// The limbs of the residue.
    fn to_limbs(&self) -> (r: [u64; 4])
        ensures
            limbs_value(r) == self.val(),
    {
        read_limbs(&self.to_bytes())
    }

    /// For how many elements a vector has room, which memory limits.
    fn capacity(v: &Vec<Self>) -> (r: usize)
        ensures
            v@.len() <= r,
            r <= usize::MAX / 64,
    ;

    /// Minus one, the largest residue. As the order of the field is prime, a product vanishes only if a factor
    /// does.
    fn minus_one() -> (r: Self)
        ensures
            r.val() == Self::modulus() - 1,
            integral(r.val() + 1),
    ;

    /// Addition in the field.
    fn add(&self, other: &Self) -> (r: Self)
        ensures
            r.val() == (self.val() + other.val()) % Self::modulus(),
    ;

    /// Subtraction in the field.
    fn sub(&self, other: &Self) -> (r: Self)
        ensures
            r.val() == (self.val() - other.val()) % Self::modulus(),
    ;

    /// Multiplication in the field.
    fn mul(&self, other: &Self) -> (r: Self)
        ensures
            r.val() == (self.val() * other.val()) % Self::modulus(),
    ;

    /// The multiplicative inverse, which every element but zero has.
    fn invert(&self) -> (r: Option<Self>)
        ensures
            r is None <==> self.val() == 0,
            r matches Some(inv) ==> (self.val() * inv.val()) % Self::modulus() == 1,
    ;

    /// Whether two elements are the same residue.
    fn equals(&self, other: &Self) -> (r: bool)
        ensures
            r == (self.val() == other.val()),
    ;
}

} // verus!
