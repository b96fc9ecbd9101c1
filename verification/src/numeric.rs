//! Little-endian byte/number interpretation and bit-level spec functions,
//! with the lemmas the gadget proofs rest on.
use vstd::prelude::*;
use vstd::arithmetic::power2::pow2;
use vstd::arithmetic::power2::lemma_pow2_adds;
use vstd::arithmetic::power2::lemma_pow2_pos;
use vstd::arithmetic::power2::lemma_pow2_strictly_increases;
use vstd::arithmetic::power2::lemma2_to64;
use vstd::arithmetic::power2::lemma2_to64_rest;
use vstd::arithmetic::div_mod::lemma_fundamental_div_mod;
use vstd::arithmetic::div_mod::lemma_fundamental_div_mod_converse;

verus! {

/// The order of the scalar field of Curve25519 (the Ristretto group): the
/// prime `2^252 + 27742317777372353535851937790883648493`.
pub open spec fn group_order() -> nat {
    pow2(252) + 27742317777372353535851937790883648493nat
}

/// `pow2(252) < group_order() < pow2(253)`: the field order sits just above
/// the 252-bit boundary, which is why 252 is the widest supported range.
pub proof fn lemma_group_order_bounds()
    ensures
        pow2(252) < group_order(),
        group_order() < pow2(253),
        group_order() > 3,
{
    lemma2_to64();
    lemma2_to64_rest();
    lemma_pow2_adds(64, 61);
    assert(27742317777372353535851937790883648493nat < pow2(125));
    lemma_pow2_strictly_increases(125, 252);
    lemma_pow2_adds(252, 1);
    lemma_pow2_pos(252);
}

/// The non-negative integer that a little-endian byte string denotes.
pub open spec fn le_nat(s: Seq<u8>) -> nat
    decreases s.len(),
{
    if s.len() == 0 {
        0
    } else {
        le_nat(s.drop_last()) + (s.last() as nat) * pow2(8 * ((s.len() - 1) as nat))
    }
}

pub proof fn lemma_le_nat_bound(s: Seq<u8>)
    ensures
        le_nat(s) < pow2(8 * s.len()),
    decreases s.len(),
{
    if s.len() == 0 {
        lemma_pow2_pos(0);
    } else {
        let n1 = (s.len() - 1) as nat;
        lemma_le_nat_bound(s.drop_last());
        lemma_pow2_adds(8 * n1, 8);
        lemma2_to64();
        assert((s.last() as nat) * pow2(8 * n1) <= 255 * pow2(8 * n1))
            by (nonlinear_arith)
            requires s.last() as nat <= 255, pow2(8 * n1) >= 0;
        assert(le_nat(s) < 256 * pow2(8 * n1)) by {
            assert(le_nat(s.drop_last()) < pow2(8 * n1));
        }
        assert(256 * pow2(8 * n1) == pow2(8 * n1) * 256) by (nonlinear_arith);
        assert(8 * s.len() == 8 * n1 + 8);
    }
}

/// Splitting a little-endian string at position `k` splits its value.
pub proof fn lemma_le_nat_split(s: Seq<u8>, k: int)
    requires
        0 <= k <= s.len(),
    ensures
        le_nat(s) == le_nat(s.take(k)) + pow2(8 * (k as nat)) * le_nat(s.skip(k)),
    decreases s.len(),
{
    if k == s.len() {
        assert(s.take(k) =~= s);
        assert(s.skip(k) =~= Seq::<u8>::empty());
        assert(le_nat(s.skip(k)) == 0);
        assert(pow2(8 * (k as nat)) * 0 == 0) by (nonlinear_arith);
    } else {
        let dl = s.drop_last();
        let n1 = (s.len() - 1) as nat;
        lemma_le_nat_split(dl, k);
        assert(dl.take(k) =~= s.take(k));
        assert(s.skip(k).drop_last() =~= dl.skip(k));
        assert(s.skip(k).last() == s.last());
        assert(s.skip(k).len() == s.len() - k);
        let b = s.last() as nat;
        assert(le_nat(s.skip(k)) == le_nat(dl.skip(k)) + b * pow2(8 * ((s.len() - k - 1) as nat)));
        lemma_pow2_adds(8 * (k as nat), 8 * ((s.len() - k - 1) as nat));
        assert(8 * (k as nat) + 8 * ((s.len() - k - 1) as nat) == 8 * n1);
        let p_k = pow2(8 * (k as nat));
        let p_r = pow2(8 * ((s.len() - k - 1) as nat));
        assert(p_k * (le_nat(dl.skip(k)) + b * p_r) == p_k * le_nat(dl.skip(k)) + b * (p_k * p_r))
            by (nonlinear_arith);
        assert(b * (p_k * p_r) == b * pow2(8 * n1));
    }
}

/// Two little-endian strings of one length with one value are the same string.
pub proof fn lemma_le_nat_injective(s: Seq<u8>, t: Seq<u8>)
    requires
        s.len() == t.len(),
        le_nat(s) == le_nat(t),
    ensures
        s =~= t,
    decreases s.len(),
{
    if s.len() == 0 {
    } else {
        let n1 = (s.len() - 1) as nat;
        let p = pow2(8 * n1) as int;
        lemma_le_nat_bound(s.drop_last());
        lemma_le_nat_bound(t.drop_last());
        lemma_pow2_pos(8 * n1);
        lemma_fundamental_div_mod_converse(
            le_nat(s) as int, p, s.last() as int, le_nat(s.drop_last()) as int);
        lemma_fundamental_div_mod_converse(
            le_nat(t) as int, p, t.last() as int, le_nat(t.drop_last()) as int);
        assert(s.last() == t.last());
        assert(le_nat(s.drop_last()) == le_nat(t.drop_last()));
        lemma_le_nat_injective(s.drop_last(), t.drop_last());
        assert forall|i: int| 0 <= i < s.len() implies s[i] == t[i] by {
            if i < s.len() - 1 {
                assert(s.drop_last()[i] == t.drop_last()[i]);
            }
        }
    }
}

/// The number of bits needed to write `n`: `0` for zero.
pub open spec fn bit_len(n: nat) -> nat
    decreases n,
{
    if n == 0 {
        0
    } else {
        1 + bit_len(n / 2)
    }
}

pub proof fn lemma_bit_len_bound(n: nat)
    ensures
        n < pow2(bit_len(n)),
        n > 0 ==> pow2((bit_len(n) - 1) as nat) <= n,
    decreases n,
{
    if n == 0 {
        lemma_pow2_pos(0);
    } else {
        let m = n / 2;
        lemma_bit_len_bound(m);
        assert(pow2(bit_len(m) + 1) == 2 * pow2(bit_len(m))) by {
            lemma_pow2_adds(bit_len(m), 1);
            lemma2_to64();
            assert(pow2(bit_len(m)) * 2 == 2 * pow2(bit_len(m))) by (nonlinear_arith);
        }
        assert(n < 2 * pow2(bit_len(m))) by {
            assert(n <= 2 * m + 1);
        }
        if m == 0 {
            assert(n == 1);
            lemma2_to64();
        } else {
            assert(pow2((bit_len(m) - 1) as nat) <= m);
            lemma_pow2_adds((bit_len(m) - 1) as nat, 1);
            lemma2_to64();
            assert(pow2((bit_len(m) - 1) as nat) * 2 <= m * 2) by (nonlinear_arith)
                requires pow2((bit_len(m) - 1) as nat) <= m;
            assert(pow2((bit_len(n) - 1) as nat) == pow2((bit_len(m) - 1) as nat) * 2);
            assert(m * 2 <= n);
        }
    }
}

/// If `n < pow2(k)` then `n` needs at most `k` bits.
pub proof fn lemma_bit_len_le(n: nat, k: nat)
    requires
        n < pow2(k),
    ensures
        bit_len(n) <= k,
    decreases n,
{
    if n == 0 {
    } else {
        if k == 0 {
            lemma2_to64();
        } else {
            lemma_pow2_adds((k - 1) as nat, 1);
            lemma2_to64();
            assert(n / 2 < pow2((k - 1) as nat)) by (nonlinear_arith)
                requires n < pow2((k - 1) as nat) * 2, n > 0;
            lemma_bit_len_le(n / 2, (k - 1) as nat);
        }
    }
}

/// Bit `i` of `n`, as `0` or `1`.
pub open spec fn bit_of(n: nat, i: nat) -> nat {
    (n / pow2(i)) % 2
}

/// Adding bit `k` (weighted) on top of the low `k` bits gives the low `k + 1` bits.
pub proof fn lemma_low_bits_step(n: nat, k: nat)
    ensures
        n % pow2(k + 1) == n % pow2(k) + pow2(k) * bit_of(n, k),
{
    lemma_pow2_pos(k);
    lemma_pow2_pos(k + 1);
    let p = pow2(k) as int;
    let q = (n as int) / p;
    let r = (n as int) % p;
    lemma_fundamental_div_mod(n as int, p);
    assert(n == q * p + r);
    assert(q >= 0 && 0 <= r < p) by {
        vstd::arithmetic::div_mod::lemma_div_pos_is_pos(n as int, p);
        vstd::arithmetic::div_mod::lemma_mod_bound(n as int, p);
    }
    let q2 = q / 2;
    let b = q % 2;
    lemma_fundamental_div_mod(q, 2);
    assert(q == 2 * q2 + b);
    lemma_pow2_adds(k, 1);
    lemma2_to64();
    assert(pow2(k + 1) == p * 2);
    assert(n == q2 * (p * 2) + (b * p + r)) by (nonlinear_arith)
        requires n == q * p + r, q == 2 * q2 + b;
    assert(0 <= b * p + r < p * 2) by (nonlinear_arith)
        requires 0 <= r < p, 0 <= b < 2, p > 0;
    assert(q2 >= 0) by (nonlinear_arith)
        requires q >= 0, q == 2 * q2 + b, 0 <= b < 2;
    lemma_fundamental_div_mod_converse(n as int, p * 2, q2, b * p + r);
    assert(n % pow2(k + 1) == b * p + r);
    assert(bit_of(n, k) == b);
}

/// The low `k` bits of `n` never exceed `n`, and are `n` exactly when `n < pow2(k)`.
pub proof fn lemma_low_bits_le(n: nat, k: nat)
    ensures
        n % pow2(k) <= n,
        (n % pow2(k) == n) <==> (n < pow2(k)),
    decreases k,
{
    lemma_pow2_pos(k);
    vstd::arithmetic::div_mod::lemma_mod_bound(n as int, pow2(k) as int);
    if n < pow2(k) {
        vstd::arithmetic::div_mod::lemma_small_mod(n, pow2(k));
    } else {
        assert(n % pow2(k) < pow2(k) <= n);
    }
}

} // verus!
