//! Trusted boundary around `num_bigint::BigUint`.
//!
//! A big unsigned integer is opaque to the verifier; `biguint_nat` names the
//! number it holds.
use vstd::prelude::*;
use vstd::arithmetic::power2::pow2;
use num_bigint::BigUint;
use crate::numeric::le_nat;
use crate::numeric::bit_len;
use crate::numeric::bit_of;

verus! {

#[verifier::external_type_specification]
#[verifier::external_body]
pub struct ExBigUint(BigUint);

/// The non-negative integer a BigUint holds.
pub uninterp spec fn biguint_nat(b: BigUint) -> nat;

/// Relies on BigUint::from_bytes_le: reads an unsigned integer from
/// little-endian bytes.
#[verifier::external_body]
pub(crate) fn biguint_from_bytes_le(b: &[u8; 32]) -> (r: BigUint)
    ensures
        biguint_nat(r) == le_nat(b@),
{
    BigUint::from_bytes_le(b)
}

/// Relies on BigUint::to_bytes_le: the little-endian bytes of the integer,
/// without superfluous leading zeroes (zero gives the single byte `0`).
#[verifier::external_body]
pub(crate) fn biguint_to_bytes_le(a: &BigUint) -> (r: Vec<u8>)
    ensures
        le_nat(r@) == biguint_nat(*a),
        r@.len() >= 1,
        r@.len() > 1 ==> r@.last() != 0,
{
    a.to_bytes_le()
}

/// Relies on Div for BigUint: exact integer (floor) division.
#[verifier::external_body]
pub(crate) fn biguint_div(a: &BigUint, b: &BigUint) -> (r: BigUint)
    requires
        biguint_nat(*b) != 0,
    ensures
        biguint_nat(r) == biguint_nat(*a) / biguint_nat(*b),
{
    a / b
}

/// Relies on Rem for BigUint: exact integer remainder.
#[verifier::external_body]
pub(crate) fn biguint_rem(a: &BigUint, b: &BigUint) -> (r: BigUint)
    requires
        biguint_nat(*b) != 0,
    ensures
        biguint_nat(r) == biguint_nat(*a) % biguint_nat(*b),
{
    a % b
}

/// Relies on BigUint::bits: the number of bits needed to write the integer,
/// with `0` for zero.
#[verifier::external_body]
pub(crate) fn biguint_bits(a: &BigUint) -> (r: u64)
    ensures
        r as nat == bit_len(biguint_nat(*a)),
{
    a.bits()
}

/// Relies on BigUint::bit: whether the given bit of the integer is set.
#[verifier::external_body]
pub(crate) fn biguint_bit(a: &BigUint, i: u64) -> (r: bool)
    ensures
        r == (bit_of(biguint_nat(*a), i as nat) == 1),
{
    a.bit(i)
}

} // verus!
