//! The field/integer bridge: lossless conversion between a scalar and an
//! arbitrary-precision unsigned integer, and integer division/modulo on
//! scalars (field arithmetic has no notion of divide-with-remainder, so both
//! operands make a round trip through the integers).
use vstd::prelude::*;
use vstd::arithmetic::power2::pow2;
use vstd::arithmetic::power2::lemma_pow2_adds;
use vstd::arithmetic::power2::lemma_pow2_strictly_increases;
use vstd::arithmetic::power2::lemma2_to64;
use vstd::arithmetic::div_mod::lemma_fundamental_div_mod;
use vstd::arithmetic::div_mod::lemma_fundamental_div_mod_converse;
use vstd::arithmetic::div_mod::lemma_div_nonincreasing;
use vstd::arithmetic::div_mod::lemma_mod_bound;
use vstd::arithmetic::div_mod::lemma_mod_mod;
use vstd::arithmetic::div_mod::lemma_small_mod;
use curve25519_dalek::scalar::Scalar;
use num_bigint::BigUint;
use crate::numeric::le_nat;
use crate::numeric::bit_len;
use crate::numeric::lemma_le_nat_bound;
use crate::numeric::lemma_le_nat_split;
use crate::numeric::lemma_le_nat_injective;
use crate::numeric::lemma_bit_len_le;
use crate::scalars::scalar_bytes;
use crate::scalars::s_val;
use crate::scalars::scalar_to_bytes;
use crate::scalars::scalar_from_bits;
use crate::bigint::biguint_nat;
use crate::bigint::biguint_from_bytes_le;
use crate::bigint::biguint_to_bytes_le;
use crate::bigint::biguint_div;
use crate::bigint::biguint_rem;
use crate::bigint::biguint_bits;

verus! {

/// The low eight bytes of the scalar, read as a machine integer: the
/// scalar's value mod `2^64`.
pub fn scalar_2_u64(x: Scalar) -> (r: u64)
    ensures
        r as nat == s_val(x) % pow2(64),
{
    let bytes = scalar_to_bytes(&x);
    let mut acc: u64 = 0;
    let mut p: u64 = 1;
    let mut i: usize = 0;
    proof {
        lemma2_to64();
        assert(bytes@.take(0) =~= Seq::<u8>::empty());
    }
    while i < 8
        invariant
            i <= 8,
            bytes@.len() == 32,
            bytes@ == scalar_bytes(x),
            acc as nat == le_nat(bytes@.take(i as int)),
            i < 8 ==> p as nat == pow2(8 * (i as nat)),
        decreases 8 - i,
    {
        let b = bytes[i];
        proof {
            lemma2_to64();
            lemma_le_nat_bound(bytes@.take(i as int));
            if 8 * ((i + 1) as nat) < 64 {
                lemma_pow2_strictly_increases(8 * ((i + 1) as nat), 64);
            }
            lemma_pow2_adds(8 * (i as nat), 8);
            assert((b as nat) * pow2(8 * (i as nat)) <= 255 * pow2(8 * (i as nat)))
                by (nonlinear_arith)
                requires b as nat <= 255, pow2(8 * (i as nat)) >= 0;
            assert(
                pow2(8 * (i as nat)) + 255 * pow2(8 * (i as nat))
                    == 256 * pow2(8 * (i as nat))) by (nonlinear_arith);
            assert(256 * pow2(8 * (i as nat)) == pow2(8 * (i as nat)) * 256)
                by (nonlinear_arith);
            assert(bytes@.take(i + 1 as int).drop_last() =~= bytes@.take(i as int));
            assert(bytes@.take(i + 1 as int).last() == bytes@[i as int]);
        }
        acc = acc + (b as u64) * p;
        if i < 7 {
            proof {
                lemma_pow2_adds(8 * (i as nat), 8);
                lemma2_to64();
                lemma_pow2_strictly_increases(8 * ((i + 1) as nat), 64);
            }
            p = p * 256;
        }
        i = i + 1;
    }
    proof {
        lemma2_to64();
        lemma_le_nat_split(bytes@, 8);
        lemma_le_nat_bound(bytes@.take(8));
        assert(bytes@.take(8).len() == 8);
        assert(le_nat(bytes@) == le_nat(bytes@.skip(8)) * pow2(64) + le_nat(bytes@.take(8)))
            by (nonlinear_arith)
            requires
                le_nat(bytes@) == le_nat(bytes@.take(8)) + pow2(64) * le_nat(bytes@.skip(8)),
        ;
        lemma_fundamental_div_mod_converse(
            le_nat(bytes@) as int,
            pow2(64) as int,
            le_nat(bytes@.skip(8)) as int,
            le_nat(bytes@.take(8)) as int,
        );
    }
    acc
}

/// The integer a scalar denotes, exactly.
pub fn scalar2biguint(a: Scalar) -> (r: BigUint)
    ensures
        biguint_nat(r) == s_val(a),
        s_val(a) < pow2(255),
        scalar_bytes(a).len() == 32,
{
    let bytes = scalar_to_bytes(&a);
    biguint_from_bytes_le(&bytes)
}

/// The scalar whose bytes are the low 32 bytes of the integer's little-endian
/// representation: the value mod `2^255` (an integer of more than 255 bits is
/// silently truncated — callers must ensure their inputs fit).
pub fn biguint2scalar(a: BigUint) -> (r: Scalar)
    ensures
        scalar_bytes(r).len() == 32,
        s_val(r) == biguint_nat(a) % pow2(255),
{
    let unpadded = biguint_to_bytes_le(&a);
    let mut bs: Vec<u8> = Vec::new();
    let mut i: usize = 0;
    proof {
        assert(bs@ =~= Seq::<u8>::empty());
        assert(unpadded@.take(0) =~= Seq::<u8>::empty());
    }
    while i < 32
        invariant
            i <= 32,
            bs@.len() == i,
            le_nat(unpadded@) == biguint_nat(a),
            le_nat(bs@) == if i <= unpadded@.len() {
                le_nat(unpadded@.take(i as int))
            } else {
                le_nat(unpadded@)
            },
        decreases 32 - i,
    {
        let b: u8 = if i < unpadded.len() { unpadded[i] } else { 0u8 };
        let ghost prev = bs@;
        bs.push(b);
        proof {
            assert(bs@.drop_last() =~= prev);
            assert(bs@.last() == b);
            assert(le_nat(bs@) == le_nat(prev) + (b as nat) * pow2(8 * (i as nat)));
            if i < unpadded@.len() {
                assert(unpadded@.take(i + 1 as int).drop_last() =~= unpadded@.take(i as int));
                assert(unpadded@.take(i + 1 as int).last() == unpadded@[i as int]);
                if i + 1 == unpadded@.len() {
                    assert(unpadded@.take(i + 1 as int) =~= unpadded@);
                }
            } else {
                assert(b == 0);
                assert((0nat) * pow2(8 * (i as nat)) == 0) by (nonlinear_arith);
                if i == unpadded@.len() {
                    assert(unpadded@.take(i as int) =~= unpadded@);
                }
            }
        }
        i = i + 1;
    }
    let r = scalar_from_bits(bs.as_slice());
    proof {
        lemma2_to64();
        lemma_pow2_adds(255, 1);
        if unpadded@.len() > 32 {
            lemma_le_nat_split(unpadded@, 32);
            lemma_le_nat_bound(unpadded@.take(32));
            assert(unpadded@.take(32).len() == 32);
            assert(le_nat(unpadded@) == le_nat(unpadded@.skip(32)) * pow2(256) + le_nat(
                unpadded@.take(32),
            ))
                by (nonlinear_arith)
                requires
                    le_nat(unpadded@) == le_nat(unpadded@.take(32)) + pow2(256) * le_nat(
                        unpadded@.skip(32),
                    ),
            ;
            lemma_fundamental_div_mod_converse(
                le_nat(unpadded@) as int,
                pow2(256) as int,
                le_nat(unpadded@.skip(32)) as int,
                le_nat(unpadded@.take(32)) as int,
            );
            assert(pow2(255) * 2 == pow2(256));
            lemma_mod_mod(biguint_nat(a) as int, pow2(255) as int, 2);
        } else {
            assert(unpadded@.take(unpadded@.len() as int) =~= unpadded@);
        }
    }
    r
}

/// Integer (not field) division of two scalars: the exact quotient of the
/// integers they denote.
pub fn div_scalar(a: Scalar, b: Scalar) -> (r: Scalar)
    requires
        s_val(b) != 0,
    ensures
        scalar_bytes(r).len() == 32,
        s_val(r) == s_val(a) / s_val(b),
{
    let ai = scalar2biguint(a);
    let bi = scalar2biguint(b);
    let ci = biguint_div(&ai, &bi);
    let r = biguint2scalar(ci);
    proof {
        lemma_div_nonincreasing(s_val(a) as int, s_val(b) as int);
        lemma_small_mod(s_val(a) / s_val(b), pow2(255));
    }
    r
}

/// Integer (not field) remainder of two scalars: the exact remainder of the
/// integers they denote.
pub fn mod_scalar(a: Scalar, b: Scalar) -> (r: Scalar)
    requires
        s_val(b) != 0,
    ensures
        scalar_bytes(r).len() == 32,
        s_val(r) == s_val(a) % s_val(b),
        s_val(r) < s_val(b),
{
    let ai = scalar2biguint(a);
    let bi = scalar2biguint(b);
    let ci = biguint_rem(&ai, &bi);
    let r = biguint2scalar(ci);
    proof {
        lemma_mod_bound(s_val(a) as int, s_val(b) as int);
        if s_val(b) < pow2(255) {
            lemma_small_mod(s_val(a) % s_val(b), pow2(255));
        }
    }
    r
}

/// The number of bits of the integer a scalar denotes (`0` for zero).
pub fn log2_scalar(x: Scalar) -> (r: usize)
    ensures
        r as nat == bit_len(s_val(x)),
{
    let b = scalar2biguint(x);
    let bits = biguint_bits(&b);
    proof {
        lemma_bit_len_le(s_val(x), 255);
    }
    bits as usize
}

/// Law: converting a field element to an integer and back is the identity.
/// `scalar2biguint(x)` denotes `s_val(x)`, and `biguint2scalar` of that
/// integer denotes `s_val(x) % pow2(255)`; every scalar's value is below
/// `2^255`, so the result's bytes are exactly the bytes of `x`.
pub proof fn lemma_to_field_to_integer_roundtrip(x: Scalar, y: Scalar)
    requires
        scalar_bytes(x).len() == 32,
        s_val(x) < pow2(255),
        scalar_bytes(y).len() == 32,
        s_val(y) == s_val(x) % pow2(255),
    ensures
        scalar_bytes(y) == scalar_bytes(x),
{
    lemma_small_mod(s_val(x), pow2(255));
    lemma_le_nat_injective(scalar_bytes(y), scalar_bytes(x));
}

/// Law: integer division and modulo reconstruct the dividend:
/// `b * divide(a, b) + modulo(a, b) == a` for every `a` and nonzero `b`.
/// `div_scalar` and `mod_scalar` return exactly `a / b` and `a % b` as
/// integers, so the identity holds with no wraparound.
pub proof fn lemma_divide_modulo_reconstruct(a: nat, b: nat)
    requires
        b != 0,
    ensures
        b * (a / b) + a % b == a,
{
    lemma_fundamental_div_mod(a as int, b as int);
}

} // verus!
