//! Natural numbers of arbitrary size.
//!
//! A [`BigNat`] keeps its value as little-endian bytes, so that the value a
//! contract speaks of is an ordinary `nat`. The arithmetic itself is done by
//! `num-bigint`; every call into it is a small function of this module whose
//! contract is taken on trust.

use num_bigint::BigUint;
use num_traits::ToPrimitive;
use vstd::arithmetic::power2::pow2;
use vstd::prelude::*;

verus! {

/// The number whose base-256 digits, least significant first, are `b`.
pub open spec fn le_value(b: Seq<u8>) -> nat
    decreases b.len(),
{
    if b.len() == 0 {
        0
    } else {
        b[0] as nat + 256 * le_value(b.drop_first())
    }
}

/// A natural number of arbitrary size.
#[derive(Clone, Debug)]
pub struct BigNat {
    bytes: Vec<u8>,
}

impl View for BigNat {
    type V = nat;

    closed spec fn view(&self) -> nat {
        le_value(self.bytes@)
    }
}

impl BigNat {
    /// The number `x`.
    pub fn from_u64(x: u64) -> (r: BigNat)
        ensures
            r@ == x as nat,
    {
        big_from_u64(x)
    }

    /// The number `x`.
    pub fn from_u128(x: u128) -> (r: BigNat)
        ensures
            r@ == x as nat,
    {
        big_from_u128(x)
    }

    /// The value as a `u64`, if it fits.
    pub fn to_u64(&self) -> (r: Option<u64>)
        ensures
            r.is_some() <==> self@ <= u64::MAX,
            r matches Some(v) ==> v as nat == self@,
    {
        let bound = big_from_u64(u64::MAX);
        if big_less(&bound, self) {
            None
        } else {
            Some(big_to_u64(self))
        }
    }

    /// The value as a `u128`, if it fits.
    pub fn to_u128(&self) -> (r: Option<u128>)
        ensures
            r.is_some() <==> self@ <= u128::MAX,
            r matches Some(v) ==> v as nat == self@,
    {
        let bound = big_from_u128(u128::MAX);
        if big_less(&bound, self) {
            None
        } else {
            Some(big_to_u128(self))
        }
    }

    /// A copy of the number.
    pub fn copy(&self) -> (r: BigNat)
        ensures
            r@ == self@,
    {
        let bytes = self.bytes.clone();
        assert(bytes@ =~= self.bytes@);
        BigNat { bytes }
    }

    /// The sum of two numbers.
    pub fn add(&self, other: &BigNat) -> (r: BigNat)
        ensures
            r@ == self@ + other@,
    {
        big_add(self, other)
    }

    /// The difference `self - other`, or `None` where `other` is the larger.
    pub fn checked_sub(&self, other: &BigNat) -> (r: Option<BigNat>)
        ensures
            r.is_some() <==> self@ >= other@,
            r matches Some(d) ==> d@ == self@ - other@,
    {
        if big_less(self, other) {
            None
        } else {
            Some(big_sub(self, other))
        }
    }

    /// The product of two numbers.
    pub fn mul(&self, other: &BigNat) -> (r: BigNat)
        ensures
            r@ == self@ * other@,
    {
        big_mul(self, other)
    }

    /// Quotient and remainder of the division by `other`, or `None` where
    /// `other` is zero.
    pub fn div_rem(&self, other: &BigNat) -> (r: Option<(BigNat, BigNat)>)
        ensures
            r.is_some() <==> other@ != 0,
            r matches Some((q, m)) ==> q@ == self@ / other@ && m@ == self@ % other@,
    {
        if other.is_zero() {
            None
        } else {
            Some((big_div(self, other), big_rem(self, other)))
        }
    }

    /// Whether the number is zero.
    pub fn is_zero(&self) -> (r: bool)
        ensures
            r == (self@ == 0),
    {
        let zero = big_from_u64(0);
        !big_less(&zero, self)
    }

    /// Whether `self` is smaller than `other`.
    pub fn less_than(&self, other: &BigNat) -> (r: bool)
        ensures
            r == (self@ < other@),
    {
        big_less(self, other)
    }

    /// The number of bits of the value: the least `k` with `self < 2^k`.
    pub fn bits(&self) -> (r: u64)
        ensures
            r == bit_size(self@),
    {
        let r = big_bits(self);
        proof {
            lemma_bit_size_unique(self@, r as nat);
        }
        r
    }
}

/// The number of bits of `x`: the least `k` with `x < 2^k`.
pub open spec fn bit_size(x: nat) -> nat
    decreases x,
{
    if x == 0 {
        0
    } else {
        1 + bit_size(x / 2)
    }
}

/// The number of bits is the one `r` with `2^(r-1) <= x < 2^r`.
pub proof fn lemma_bit_size_unique(x: nat, r: nat)
    requires
        x < pow2(r),
        r > 0 ==> x >= pow2((r - 1) as nat),
    ensures
        r == bit_size(x),
    decreases x,
{
    vstd::arithmetic::power2::lemma2_to64();
    if x == 0 {
        if r > 0 {
            vstd::arithmetic::power2::lemma_pow2_pos((r - 1) as nat);
        }
    } else {
        vstd::arithmetic::power2::lemma_pow2_unfold(r);
        if r > 1 {
            vstd::arithmetic::power2::lemma_pow2_unfold((r - 1) as nat);
        }
        lemma_bit_size_unique(x / 2, (r - 1) as nat);
    }
}

/// `BigUint::from` for `u64`: the integer with the same value.
#[verifier::external_body]
pub(crate) fn big_from_u64(x: u64) -> (r: BigNat)
    ensures
        r@ == x as nat,
{
    BigNat { bytes: BigUint::from(x).to_bytes_le() }
}

/// `BigUint::from` for `u128`: the integer with the same value.
#[verifier::external_body]
pub(crate) fn big_from_u128(x: u128) -> (r: BigNat)
    ensures
        r@ == x as nat,
{
    BigNat { bytes: BigUint::from(x).to_bytes_le() }
}

/// `ToPrimitive::to_u64` of a `BigUint`: the value itself where it fits in 64 bits.
#[verifier::external_body]
pub(crate) fn big_to_u64(a: &BigNat) -> (r: u64)
    requires
        a@ <= u64::MAX,
    ensures
        r as nat == a@,
{
    BigUint::from_bytes_le(&a.bytes).to_u64().unwrap()
}

/// `ToPrimitive::to_u128` of a `BigUint`: the value itself where it fits in 128 bits.
#[verifier::external_body]
pub(crate) fn big_to_u128(a: &BigNat) -> (r: u128)
    requires
        a@ <= u128::MAX,
    ensures
        r as nat == a@,
{
    BigUint::from_bytes_le(&a.bytes).to_u128().unwrap()
}

/// Addition of two `BigUint`: the exact sum.
#[verifier::external_body]
pub(crate) fn big_add(a: &BigNat, b: &BigNat) -> (r: BigNat)
    ensures
        r@ == a@ + b@,
{
    BigNat { bytes: (BigUint::from_bytes_le(&a.bytes) + BigUint::from_bytes_le(&b.bytes)).to_bytes_le() }
}

/// Subtraction of two `BigUint`, which panics where the result would be
/// negative: the exact difference otherwise.
#[verifier::external_body]
pub(crate) fn big_sub(a: &BigNat, b: &BigNat) -> (r: BigNat)
    requires
        a@ >= b@,
    ensures
        r@ == a@ - b@,
{
    BigNat { bytes: (BigUint::from_bytes_le(&a.bytes) - BigUint::from_bytes_le(&b.bytes)).to_bytes_le() }
}

/// Multiplication of two `BigUint`: the exact product.
#[verifier::external_body]
pub(crate) fn big_mul(a: &BigNat, b: &BigNat) -> (r: BigNat)
    ensures
        r@ == a@ * b@,
{
    BigNat { bytes: (BigUint::from_bytes_le(&a.bytes) * BigUint::from_bytes_le(&b.bytes)).to_bytes_le() }
}

/// Division of two `BigUint`, which panics on a zero divisor: the quotient
/// rounded down otherwise.
#[verifier::external_body]
pub(crate) fn big_div(a: &BigNat, b: &BigNat) -> (r: BigNat)
    requires
        b@ != 0,
    ensures
        r@ == a@ / b@,
{
    BigNat { bytes: (BigUint::from_bytes_le(&a.bytes) / BigUint::from_bytes_le(&b.bytes)).to_bytes_le() }
}

/// Remainder of two `BigUint`, which panics on a zero divisor: the remainder
/// of the division otherwise.
#[verifier::external_body]
pub(crate) fn big_rem(a: &BigNat, b: &BigNat) -> (r: BigNat)
    requires
        b@ != 0,
    ensures
        r@ == a@ % b@,
{
    BigNat { bytes: (BigUint::from_bytes_le(&a.bytes) % BigUint::from_bytes_le(&b.bytes)).to_bytes_le() }
}

/// The order `<` of `BigUint`: the order of the values.
#[verifier::external_body]
pub(crate) fn big_less(a: &BigNat, b: &BigNat) -> (r: bool)
    ensures
        r == (a@ < b@),
{
    BigUint::from_bytes_le(&a.bytes) < BigUint::from_bytes_le(&b.bytes)
}

/// `BigUint::bits`: the fewest bits that express the value, zero for zero.
#[verifier::external_body]
pub(crate) fn big_bits(a: &BigNat) -> (r: u64)
    ensures
        a@ < pow2(r as nat),
        r > 0 ==> a@ >= pow2((r - 1) as nat),
{
    BigUint::from_bytes_le(&a.bytes).bits()
}

} // verus!
