//! Fixed-width unsigned integers of 256 and 512 bits, held as little-endian
//! 64-bit limbs. Constructors and comparisons are verified here; the wide
//! arithmetic is done by the `bigint` crate, behind functions whose contracts
//! state what its operators compute.

use vstd::arithmetic::power2::pow2;
use vstd::prelude::*;

verus! {

/// The first value that a `U256` cannot hold, `2^256`.
pub open spec fn u256_limit() -> int {
    0x1_0000_0000_0000_0000_0000_0000_0000_0000_0000_0000_0000_0000_0000_0000_0000_0000int
}

/// An unsigned integer below `2^256`; `limbs[0]` is the least significant limb.
#[derive(Clone, Copy, Debug, Hash)]
pub struct U256 {
    pub limbs: [u64; 4],
}

/// An unsigned integer below `2^512`; `limbs[0]` is the least significant limb.
#[derive(Clone, Copy, Debug)]
pub struct U512 {
    pub limbs: [u64; 8],
}

impl View for U256 {
    type V = int;

    /// The number that the four limbs spell.
    open spec fn view(&self) -> int {
        self.limbs[0] + 0x1_0000_0000_0000_0000int * self.limbs[1]
            + 0x1_0000_0000_0000_0000_0000_0000_0000_0000int * self.limbs[2]
            + 0x1_0000_0000_0000_0000_0000_0000_0000_0000_0000_0000_0000_0000int * self.limbs[3]
    }
}

impl View for U512 {
    type V = int;

    /// The number that the eight limbs spell.
    open spec fn view(&self) -> int {
        self.limbs[0] + 0x1_0000_0000_0000_0000int * self.limbs[1]
            + 0x1_0000_0000_0000_0000_0000_0000_0000_0000int * self.limbs[2]
            + 0x1_0000_0000_0000_0000_0000_0000_0000_0000_0000_0000_0000_0000int * self.limbs[3]
            + 0x1_0000_0000_0000_0000_0000_0000_0000_0000_0000_0000_0000_0000_0000_0000_0000_0000int * self.limbs[4]
            + 0x1_0000_0000_0000_0000_0000_0000_0000_0000_0000_0000_0000_0000_0000_0000_0000_0000_0000_0000_0000_0000int * self.limbs[5]
            + 0x1_0000_0000_0000_0000_0000_0000_0000_0000_0000_0000_0000_0000_0000_0000_0000_0000_0000_0000_0000_0000_0000_0000_0000_0000int * self.limbs[6]
            + 0x1_0000_0000_0000_0000_0000_0000_0000_0000_0000_0000_0000_0000_0000_0000_0000_0000_0000_0000_0000_0000_0000_0000_0000_0000_0000_0000_0000_0000int * self.limbs[7]
    }
}

impl PartialEq for U256 {
    fn eq(&self, other: &U256) -> (r: bool) {
        self.limbs[0] == other.limbs[0] && self.limbs[1] == other.limbs[1] && self.limbs[2]
            == other.limbs[2] && self.limbs[3] == other.limbs[3]
    }
}

impl Eq for U256 {

}

impl vstd::std_specs::cmp::PartialEqSpecImpl for U256 {
    open spec fn obeys_eq_spec() -> bool {
        true
    }

    open spec fn eq_spec(&self, other: &U256) -> bool {
        self.limbs[0] == other.limbs[0] && self.limbs[1] == other.limbs[1] && self.limbs[2]
            == other.limbs[2] && self.limbs[3] == other.limbs[3]
    }
}

/// Two 256-bit integers with the same value have the same limbs, and so are
/// one value.
pub proof fn lemma_u256_view_injective(a: U256, b: U256)
    ensures
        a@ == b@ <==> a == b,
        0 <= a@ < u256_limit(),
{
    if a@ == b@ {
        assert(a.limbs[0] == b.limbs[0]);
        assert(a.limbs[1] == b.limbs[1]);
        assert(a.limbs[2] == b.limbs[2]);
        assert(a.limbs[3] == b.limbs[3]);
        assert(a.limbs =~= b.limbs);
    }
}

impl U256 {
    /// The number zero.
    pub fn zero() -> (r: U256)
        ensures
            r@ == 0,
    {
        U256 { limbs: [0, 0, 0, 0] }
    }

    /// The number one.
    pub fn one() -> (r: U256)
        ensures
            r@ == 1,
    {
        U256 { limbs: [1, 0, 0, 0] }
    }

    /// The 256-bit integer with the value of `v`.
    pub fn from_u64(v: u64) -> (r: U256)
        ensures
            r@ == v,
    {
        U256 { limbs: [v, 0, 0, 0] }
    }

    /// The 256-bit integer with the value of `v`.
    pub fn from_u128(v: u128) -> (r: U256)
        ensures
            r@ == v,
    {
        let low: u64 = (v & 0xffff_ffff_ffff_ffff) as u64;
        let high: u64 = (v >> 64) as u64;
        assert(v == (v & 0xffff_ffff_ffff_ffff) + 0x1_0000_0000_0000_0000 * (v >> 64)) by (bit_vector);
        assert((v & 0xffff_ffff_ffff_ffff) <= 0xffff_ffff_ffff_ffff) by (bit_vector);
        assert((v >> 64) <= 0xffff_ffff_ffff_ffff) by (bit_vector);
        U256 { limbs: [low, high, 0, 0] }
    }

    /// Whether this is the number zero.
    pub fn is_zero(&self) -> (r: bool)
        ensures
            r == (self@ == 0),
    {
        self.limbs[0] == 0 && self.limbs[1] == 0 && self.limbs[2] == 0 && self.limbs[3] == 0
    }

    /// Whether `self` is strictly below `other`: the limbs are compared from
    /// the most significant down.
    pub fn lt(&self, other: &U256) -> (r: bool)
        ensures
            r == (self@ < other@),
    {
        if self.limbs[3] != other.limbs[3] {
            self.limbs[3] < other.limbs[3]
        } else if self.limbs[2] != other.limbs[2] {
            self.limbs[2] < other.limbs[2]
        } else if self.limbs[1] != other.limbs[1] {
            self.limbs[1] < other.limbs[1]
        } else {
            self.limbs[0] < other.limbs[0]
        }
    }

    /// Whether `self` is at most `other`.
    pub fn le(&self, other: &U256) -> (r: bool)
        ensures
            r == (self@ <= other@),
    {
        !other.lt(self)
    }

    /// Whether both hold the same number.
    pub fn equals(&self, other: &U256) -> (r: bool)
        ensures
            r == (self@ == other@),
            r == (*self == *other),
    {
        proof {
            lemma_u256_view_injective(*self, *other);
        }
        self.limbs[0] == other.limbs[0] && self.limbs[1] == other.limbs[1] && self.limbs[2]
            == other.limbs[2] && self.limbs[3] == other.limbs[3]
    }

    /// The same number in 512 bits.
    pub fn widen(&self) -> (r: U512)
        ensures
            r@ == self@,
    {
        U512 {
            limbs: [self.limbs[0], self.limbs[1], self.limbs[2], self.limbs[3], 0, 0, 0, 0],
        }
    }
}

impl U512 {
    /// The same number in 256 bits, for a number that fits.
    pub fn narrow(&self) -> (r: U256)
        requires
            self@ < u256_limit(),
        ensures
            r@ == self@,
    {
        U256 { limbs: [self.limbs[0], self.limbs[1], self.limbs[2], self.limbs[3]] }
    }
}

/// `bigint`'s `U256 + U256`, which panics when the sum does not fit in 256
/// bits: those inputs are left out, and the result is the exact sum.
#[verifier::external_body]
pub(crate) fn big_add(a: U256, b: U256) -> (r: U256)
    requires
        a@ + b@ < u256_limit(),
    ensures
        r@ == a@ + b@,
{
    U256 { limbs: (bigint::U256(a.limbs) + bigint::U256(b.limbs)).0 }
}

/// `bigint`'s `U256 - U256`, which panics when the subtrahend is the larger:
/// those inputs are left out, and the result is the exact difference.
#[verifier::external_body]
pub(crate) fn big_sub(a: U256, b: U256) -> (r: U256)
    requires
        b@ <= a@,
    ensures
        r@ == a@ - b@,
{
    U256 { limbs: (bigint::U256(a.limbs) - bigint::U256(b.limbs)).0 }
}

/// `bigint`'s `U256 * U256`, which panics when the product does not fit in
/// 256 bits: those inputs are left out, and the result is the exact product.
#[verifier::external_body]
pub(crate) fn big_mul(a: U256, b: U256) -> (r: U256)
    requires
        a@ * b@ < u256_limit(),
    ensures
        r@ == a@ * b@,
{
    U256 { limbs: (bigint::U256(a.limbs) * bigint::U256(b.limbs)).0 }
}

/// `bigint`'s `U256 / U256`, bitwise long division, which panics on a zero
/// divisor: the result is the quotient rounded down.
#[verifier::external_body]
pub(crate) fn big_div(a: U256, b: U256) -> (r: U256)
    requires
        b@ > 0,
    ensures
        r@ == a@ / b@,
{
    U256 { limbs: (bigint::U256(a.limbs) / bigint::U256(b.limbs)).0 }
}

/// `bigint`'s `U256 % U256`, computed there as `a - (a / b) * b`, which
/// panics on a zero divisor: the result is the remainder.
#[verifier::external_body]
pub(crate) fn big_rem(a: U256, b: U256) -> (r: U256)
    requires
        b@ > 0,
    ensures
        r@ == a@ % b@,
{
    U256 { limbs: (bigint::U256(a.limbs) % bigint::U256(b.limbs)).0 }
}

/// `bigint`'s `U256::full_mul`, the schoolbook product of two 256-bit
/// integers in 512 bits, which cannot overflow: the result is the exact
/// product.
#[verifier::external_body]
pub(crate) fn big_full_mul(a: U256, b: U256) -> (r: U512)
    ensures
        r@ == a@ * b@,
{
    U512 { limbs: bigint::U256(a.limbs).full_mul(bigint::U256(b.limbs)).0 }
}

/// `bigint`'s `U512 % U512`, which panics on a zero divisor: the result is
/// the remainder.
#[verifier::external_body]
pub(crate) fn big_rem_wide(a: U512, b: U512) -> (r: U512)
    requires
        b@ > 0,
    ensures
        r@ == a@ % b@,
{
    U512 { limbs: (bigint::U512(a.limbs) % bigint::U512(b.limbs)).0 }
}

/// `bigint`'s `U256 << usize`, which moves every bit up by `shift` places and
/// drops those that leave the 256 bits: the result is `a * 2^shift` reduced
/// modulo `2^256`.
#[verifier::external_body]
pub(crate) fn big_shl(a: U256, shift: usize) -> (r: U256)
    ensures
        r@ == (a@ * pow2(shift as nat)) % u256_limit(),
{
    U256 { limbs: (bigint::U256(a.limbs) << shift).0 }
}

/// The exclusive or of two natural numbers, bit by bit.
pub open spec fn bit_xor(a: int, b: int) -> int
    decreases a + b,
{
    if a <= 0 {
        if b <= 0 {
            0
        } else {
            b
        }
    } else if b <= 0 {
        a
    } else {
        2 * bit_xor(a / 2, b / 2) + (a % 2 + b % 2) % 2
    }
}

/// `bigint`'s `U256 ^ U256`, the exclusive or of each pair of limbs, which
/// is the exclusive or of the two numbers bit by bit.
#[verifier::external_body]
pub(crate) fn big_xor(a: U256, b: U256) -> (r: U256)
    ensures
        r@ == bit_xor(a@, b@),
{
    U256 { limbs: (bigint::U256(a.limbs) ^ bigint::U256(b.limbs)).0 }
}

} // verus!
