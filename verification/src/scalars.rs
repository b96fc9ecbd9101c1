//! Trusted boundary around `curve25519_dalek::scalar::Scalar`.
//!
//! A scalar is opaque to the verifier; `scalar_bytes` names the 32
//! little-endian bytes it holds, and every contract below speaks of the
//! integer those bytes denote.
use vstd::prelude::*;
use vstd::arithmetic::power2::pow2;
use curve25519_dalek::scalar::Scalar;
use crate::numeric::group_order;
use crate::numeric::le_nat;

verus! {

#[verifier::external_type_specification]
#[verifier::external_body]
pub struct ExScalar(Scalar);

/// The 32 little-endian bytes a scalar holds (dalek keeps the top bit clear,
/// so the value is always below `2^255`).
pub uninterp spec fn scalar_bytes(s: Scalar) -> Seq<u8>;

/// The non-negative integer a scalar's bytes denote.
pub open spec fn s_val(s: Scalar) -> nat {
    le_nat(scalar_bytes(s))
}

/// A canonical scalar: a true field element, fully reduced mod the group
/// order, with its 32-byte representation.
pub open spec fn canon(s: Scalar) -> bool {
    &&& scalar_bytes(s).len() == 32
    &&& s_val(s) < group_order()
}

/// Relies on Scalar::to_bytes: returns the scalar's little-endian byte
/// representation. Dalek documents the invariant that the top bit of byte 31
/// is always zero, i.e. the value is below `2^255`.
#[verifier::external_body]
pub(crate) fn scalar_to_bytes(s: &Scalar) -> (r: [u8; 32])
    ensures
        r@ == scalar_bytes(*s),
        le_nat(r@) < pow2(255),
{
    s.to_bytes()
}

/// Relies on Scalar::from_bits: loads 32 little-endian bytes without
/// reduction, masking the top bit, so the value is taken mod `2^255`.
#[verifier::external_body]
pub(crate) fn scalar_from_bits(b: &[u8]) -> (r: Scalar)
    requires
        b@.len() == 32,
    ensures
        scalar_bytes(r).len() == 32,
        s_val(r) == le_nat(b@) % pow2(255),
{
    let mut bs: [u8; 32] = [0; 32];
    bs.copy_from_slice(b);
    Scalar::from_bits(bs)
}

/// Relies on From<u64> for Scalar: the exact value, canonically represented.
#[verifier::external_body]
pub(crate) fn scalar_from_u64(x: u64) -> (r: Scalar)
    ensures
        canon(r),
        s_val(r) == x as nat,
{
    Scalar::from(x)
}

/// Relies on Add for Scalar: addition mod the group order; on canonical
/// inputs the result is canonical.
#[verifier::external_body]
pub(crate) fn scalar_add(a: &Scalar, b: &Scalar) -> (r: Scalar)
    requires
        canon(*a),
        canon(*b),
    ensures
        canon(r),
        s_val(r) == (s_val(*a) + s_val(*b)) % group_order(),
{
    a + b
}

/// Relies on Sub for Scalar: subtraction mod the group order; on canonical
/// inputs the result is canonical.
#[verifier::external_body]
pub(crate) fn scalar_sub(a: &Scalar, b: &Scalar) -> (r: Scalar)
    requires
        canon(*a),
        canon(*b),
    ensures
        canon(r),
        s_val(r) as int == (s_val(*a) + group_order() - s_val(*b)) % (group_order() as int),
{
    a - b
}

/// Relies on Mul for Scalar: multiplication mod the group order; on canonical
/// inputs the result is canonical.
#[verifier::external_body]
pub(crate) fn scalar_mul(a: &Scalar, b: &Scalar) -> (r: Scalar)
    requires
        canon(*a),
        canon(*b),
    ensures
        canon(r),
        s_val(r) == (s_val(*a) * s_val(*b)) % group_order(),
{
    a * b
}

} // verus!
