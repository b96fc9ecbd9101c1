//! The circuit gadgets: bit-decomposition range proof, less-than-constant,
//! and Euclidean-division (modulo) relation, each a pure constraint-emission
//! step over the append-only constraint system.
use vstd::prelude::*;
use vstd::arithmetic::power2::pow2;
use vstd::arithmetic::power2::lemma_pow2_pos;
use vstd::arithmetic::power2::lemma_pow2_strictly_increases;
use vstd::arithmetic::power2::lemma2_to64;
use vstd::arithmetic::div_mod::lemma_add_mod_noop;
use vstd::arithmetic::div_mod::lemma_div_is_ordered;
use vstd::arithmetic::div_mod::lemma_div_minus_one;
use vstd::arithmetic::div_mod::lemma_div_nonincreasing;
use vstd::arithmetic::div_mod::lemma_fundamental_div_mod;
use vstd::arithmetic::div_mod::lemma_mod_bound;
use vstd::arithmetic::div_mod::lemma_mod_add_multiples_vanish;
use vstd::arithmetic::div_mod::lemma_mod_multiples_vanish;
use vstd::arithmetic::div_mod::lemma_mod_self_0;
use vstd::arithmetic::div_mod::lemma_small_mod;
use vstd::arithmetic::div_mod::lemma_sub_mod_noop;
use vstd::arithmetic::div_mod::lemma_sub_mod_noop_right;
use curve25519_dalek::scalar::Scalar;
use num_bigint::BigUint;
use crate::numeric::group_order;
use crate::numeric::bit_of;
use crate::numeric::bit_len;
use crate::numeric::lemma_bit_len_bound;
use crate::numeric::lemma_group_order_bounds;
use crate::numeric::lemma_low_bits_step;
use crate::numeric::lemma_low_bits_le;
use crate::scalars::s_val;
use crate::scalars::canon;
use crate::scalars::scalar_from_u64;
use crate::scalars::scalar_add;
use crate::scalars::scalar_sub;
use crate::bigint::biguint_nat;
use crate::bigint::biguint_bit;
use crate::bridge::scalar2biguint;
use crate::bridge::div_scalar;
use crate::bridge::mod_scalar;
use crate::bridge::log2_scalar;
use crate::r1cs::AllocatedScalar;
use crate::r1cs::Cs;
use crate::r1cs::LinComb;
use crate::r1cs::GadgetError;
use crate::r1cs::neg_mod;
use crate::r1cs::terms_eval;
use crate::r1cs::lemma_eval_single;
use crate::r1cs::lemma_terms_eval_extend;
use crate::r1cs::lemma_terms_eval_negated;
use crate::r1cs::lemma_constraints_preserved;
use crate::r1cs::lemma_muls_preserved;

verus! {

/// What the range loop folds into the running combination: for each bit `j`
/// of the witness, a term whose coefficient is the additive inverse of
/// `2^j` mod the group order.
pub open spec fn neg_weighted_bits(w: nat, i: nat) -> nat
    decreases i,
{
    if i == 0 {
        0
    } else {
        neg_weighted_bits(w, (i - 1) as nat) + neg_mod(pow2((i - 1) as nat)) * bit_of(
            w,
            (i - 1) as nat,
        )
    }
}

/// The folded negated bit terms cancel the low `i` bits of the witness mod
/// the group order.
pub proof fn lemma_neg_weighted_bits(w: nat, i: nat)
    requires
        i <= 252,
    ensures
        (neg_weighted_bits(w, i) + w % pow2(i)) % group_order() == 0,
    decreases i,
{
    lemma_group_order_bounds();
    let l = group_order();
    if i == 0 {
        lemma2_to64();
        assert(w % pow2(0) == 0) by {
            assert(w as int % 1int == 0) by (nonlinear_arith);
        }
        lemma_small_mod(0, l);
    } else {
        let j = (i - 1) as nat;
        lemma_neg_weighted_bits(w, j);
        lemma_low_bits_step(w, j);
        let p = pow2(j);
        assert(p < l) by {
            if j < 252 {
                lemma_pow2_strictly_increases(j, 252);
            }
        }
        lemma_small_mod(p, l);
        lemma_pow2_pos(j);
        lemma_small_mod((l - p) as nat, l);
        assert(neg_mod(p) == l - p);
        let b = bit_of(w, j);
        assert(b < 2) by {
            lemma_mod_bound((w / pow2(j)) as int, 2int);
        }
        let s = neg_weighted_bits(w, j);
        let m = w % pow2(j);
        assert(neg_weighted_bits(w, i) + w % pow2(i) == (s + m) + ((l - p) * b + p * b));
        if b == 0 {
            assert((l - p) * 0 + p * 0 == 0) by (nonlinear_arith);
        } else {
            assert((l - p) * 1 + p * 1 == l) by (nonlinear_arith);
            lemma_mod_add_multiples_vanish((s + m) as int, l as int);
        }
    }
}

/// Prove that a linear combination lies in the range `[0, 2^bits_size)`, by
/// decomposing it into `bits_size` boolean-constrained bits.
///
/// Per bit: a multiplicative gate with left input `1 - bit`, right input
/// `bit`, whose output is constrained to zero (so the bit is 0 or 1), plus
/// the pairing constraint `left + right - 1 = 0`; finally the combination
/// minus the weighted bit sum is constrained to zero.
///
/// With a witness `w`, the emitted constraints hold exactly when
/// `w < 2^bits_size` (provided the combination itself evaluates to `w`); the
/// gates and per-bit constraints hold unconditionally, so satisfaction turns
/// on the final weighted-sum constraint alone.
#[verifier::rlimit(100)]
pub fn range_proof(
    cs: &mut Cs,
    v: LinComb,
    v_assignment: Option<Scalar>,
    bits_size: usize,
) -> (res: Result<(), GadgetError>)
    requires
        old(cs).wf(),
        v.wf(old(cs).num_vars()),
        v_assignment matches Some(w) ==> canon(w),
    ensures
        final(cs).wf(),
        res is Err <==> bits_size > 252,
        res matches Err(e) ==> e == GadgetError::InvalidParameter && *final(cs) == *old(cs),
        res is Ok ==> {
            &&& final(cs).num_vars() == old(cs).num_vars() + 3 * bits_size
            &&& final(cs).muls@.len() == old(cs).muls@.len() + bits_size
            &&& final(cs).constraints@.len() == old(cs).constraints@.len() + 2 * bits_size + 1
            &&& final(cs).assignments@.take(old(cs).num_vars() as int) == old(cs).assignments@
            &&& final(cs).muls@.take(old(cs).muls@.len() as int) == old(cs).muls@
            &&& final(cs).constraints@.take(old(cs).constraints@.len() as int) == old(
                cs,
            ).constraints@
            &&& (v_assignment is Some ==> forall|j: int|
                old(cs).num_vars() <= j < final(cs).num_vars()
                    ==> final(cs).assignments@[j] is Some)
            &&& (v_assignment is None ==> forall|j: int|
                old(cs).num_vars() <= j < final(cs).num_vars()
                    ==> final(cs).assignments@[j] is None)
            &&& (v_assignment matches Some(w) ==> {
                &&& final(cs).muls_hold_from(old(cs).muls@.len() as int)
                &&& (v.eval(final(cs).assign()) % group_order() == s_val(w)
                    ==> (final(cs).constraints_hold_from(old(cs).constraints@.len() as int)
                        <==> s_val(w) < pow2(bits_size as nat)))
            })
        },
{
    if bits_size > 252 {
        return Err(GadgetError::InvalidParameter);
    }
    let wbig: Option<BigUint> = match &v_assignment {
        Some(w) => Some(scalar2biguint(*w)),
        None => None,
    };
    let zero = scalar_from_u64(0);
    let one = scalar_from_u64(1);
    let neg_one = scalar_sub(&zero, &one);
    proof {
        lemma_group_order_bounds();
        lemma_small_mod(1, group_order());
        lemma_small_mod((group_order() - 1) as nat, group_order());
        lemma2_to64();
    }
    let mut cur = v;
    let mut exp2 = scalar_from_u64(1);
    let mut i: usize = 0;
    let ghost n0 = old(cs).num_vars();
    let ghost m0 = old(cs).muls@.len();
    let ghost c0 = old(cs).constraints@.len();
    while i < bits_size
        invariant
            cs.wf(),
            i <= bits_size,
            bits_size <= 252,
            s_val(zero) == 0 && canon(zero),
            s_val(one) == 1 && canon(one),
            s_val(neg_one) == group_order() - 1 && canon(neg_one),
            v_assignment matches Some(w) ==> canon(w),
            wbig is Some <==> v_assignment is Some,
            (match (wbig, v_assignment) {
                (Some(bu), Some(w)) => biguint_nat(bu) == s_val(w),
                _ => true,
            }),
            cs.num_vars() == n0 + 3 * i,
            cs.muls@.len() == m0 + i,
            cs.constraints@.len() == c0 + 2 * i,
            cs.assignments@.take(n0 as int) == old(cs).assignments@,
            cs.muls@.take(m0 as int) == old(cs).muls@,
            cs.constraints@.take(c0 as int) == old(cs).constraints@,
            v.wf(n0),
            cur.wf(cs.num_vars()),
            canon(exp2),
            s_val(exp2) == pow2(i as nat),
            v_assignment is Some ==> forall|j: int|
                n0 <= j < cs.num_vars() ==> cs.assignments@[j] is Some,
            v_assignment is None ==> forall|j: int|
                n0 <= j < cs.num_vars() ==> cs.assignments@[j] is None,
            v_assignment matches Some(w) ==> {
                &&& cs.muls_hold_from(m0 as int)
                &&& cs.constraints_hold_from(c0 as int)
                &&& cur.eval(cs.assign()) == v.eval(cs.assign()) + neg_weighted_bits(
                    s_val(w),
                    i as nat,
                )
            },
        decreases bits_size - i,
    {
        proof {
            lemma_group_order_bounds();
            if (i as nat) + 1 < 252 {
                lemma_pow2_strictly_increases((i + 1) as nat, 252);
            }
        }
        let assn: Option<(Scalar, Scalar)>;
        let ghost bitval: nat;
        match &wbig {
            Some(bu) => {
                let bit = biguint_bit(bu, i as u64);
                proof {
                    bitval = bit_of(s_val(v_assignment->Some_0), i as nat);
                    lemma_mod_bound((s_val(v_assignment->Some_0) / pow2(i as nat)) as int, 2int);
                }
                let b_s = scalar_from_u64(if bit { 1 } else { 0 });
                let a_s = scalar_from_u64(if bit { 0 } else { 1 });
                assn = Some((a_s, b_s));
            },
            None => {
                assn = None;
                proof {
                    bitval = 0;
                }
            },
        }
        let ghost pre = *cs;
        let (a, b, o) = cs.allocate_multiplier(assn);
        proof {
            assert(cs.assignments@.take(n0 as int) =~= pre.assignments@.take(n0 as int));
            assert(cs.muls@.take(m0 as int) =~= pre.muls@.take(m0 as int));
            assert(cs.constraints@.take(c0 as int) =~= pre.constraints@.take(c0 as int));
            assert forall|j: int| 0 <= j < pre.num_vars() implies cs.assignments@[j]
                == pre.assignments@[j] by {
                assert(pre.assignments@[j] == cs.assignments@.take(pre.num_vars() as int)[j]);
            }
            if v_assignment is Some {
                assert forall|j: int|
                    n0 <= j < cs.num_vars() implies cs.assignments@[j] is Some by {
                    if j < pre.num_vars() {
                        assert(cs.assignments@[j] == pre.assignments@[j]);
                    }
                }
            } else {
                assert forall|j: int|
                    n0 <= j < cs.num_vars() implies cs.assignments@[j] is None by {
                    if j < pre.num_vars() {
                        assert(cs.assignments@[j] == pre.assignments@[j]);
                    }
                }
            }
            if v_assignment is Some {
                let w = v_assignment->Some_0;
                assert(cs.constraints@.take(pre.constraints@.len() as int) =~= pre.constraints@);
                assert(cs.muls@.take(pre.muls@.len() as int) =~= pre.muls@);
                lemma_constraints_preserved(pre, *cs, c0 as int);
                lemma_muls_preserved(pre, *cs, m0 as int);
                assert forall|j: int| 0 <= j < pre.num_vars() implies pre.assign()[j]
                    == cs.assign()[j] by {
                    assert(pre.assignments@[j] == cs.assignments@.take(pre.num_vars() as int)[j]);
                }
                // the new gate holds: its output witness is (1 - bit) * bit == 0
                assert((s_val(assn->Some_0.0) * s_val(assn->Some_0.1)) % group_order() == 0) by {
                    assert(s_val(assn->Some_0.0) * s_val(assn->Some_0.1) == 0) by (nonlinear_arith)
                        requires
                            s_val(assn->Some_0.0) == 0 || s_val(assn->Some_0.1) == 0,
                    ;
                    lemma_small_mod(0, group_order());
                }
                assert(cs.muls_hold_from(m0 as int)) by {
                    assert(forall|k: int|
                        m0 <= k < cs.muls@.len() - 1 ==> cs.muls@[k] == pre.muls@[k]);
                }
                // the running combination and v evaluate as before
                lemma_terms_eval_extend(cur.terms@, pre.assign(), cs.assign());
                lemma_terms_eval_extend(v.terms@, pre.assign(), cs.assign());
            }
        }
        // the multiplier's output is constrained to vanish, so the bit is boolean
        let lc_o = LinComb::from_variable(o);
        let ghost pre2 = *cs;
        cs.constrain(lc_o);
        proof {
            assert(cs.constraints@.take(c0 as int) =~= pre2.constraints@.take(c0 as int));
            assert(cs.assign() =~= pre2.assign());
            if v_assignment is Some {
                lemma_eval_single(lc_o, cs.assign());
                assert(lc_o.eval(cs.assign()) == cs.aval(o as int)) by (nonlinear_arith)
                    requires
                        lc_o.eval(cs.assign()) == 0 + 1 * cs.aval(o as int),
                ;
                lemma_small_mod(0, group_order());
                assert(forall|k: int|
                    c0 <= k < cs.constraints@.len() - 1 ==> cs.constraints@[k]
                        == pre2.constraints@[k]);
            }
        }
        // pin the pairing: left = 1 - right
        let mut t2: Vec<(usize, Scalar)> = Vec::new();
        t2.push((a, one));
        t2.push((b, one));
        let lc_ab = LinComb { constant: neg_one, terms: t2 };
        let ghost pre3 = *cs;
        cs.constrain(lc_ab);
        proof {
            assert(cs.constraints@.take(c0 as int) =~= pre3.constraints@.take(c0 as int));
            assert(cs.assign() =~= pre3.assign());
            if v_assignment is Some {
                assert(lc_ab.terms@.drop_last() =~= seq![(a, one)]);
                assert(terms_eval(lc_ab.terms@, cs.assign()) == terms_eval(
                    seq![(a, one)],
                    cs.assign(),
                ) + 1 * cs.aval(b as int));
                assert(seq![(a, one)].drop_last() =~= Seq::<(usize, Scalar)>::empty());
                assert(terms_eval(Seq::<(usize, Scalar)>::empty(), cs.assign()) == 0);
                assert(seq![(a, one)].last() == (a, one));
                assert(lc_ab.terms@.last() == (b, one));
                assert(cs.assign()[a as int] == cs.aval(a as int));
                assert(cs.assign()[b as int] == cs.aval(b as int));
                assert(terms_eval(seq![(a, one)], cs.assign()) == 0 + 1 * cs.aval(a as int));
                assert(1 * cs.aval(a as int) == cs.aval(a as int) && 1 * cs.aval(b as int)
                    == cs.aval(b as int)) by (nonlinear_arith);
                assert(cs.aval(a as int) + cs.aval(b as int) == 1);
                assert(lc_ab.eval(cs.assign()) == group_order());
                lemma_mod_self_0(group_order() as int);
                assert(forall|k: int|
                    c0 <= k < cs.constraints@.len() - 1 ==> cs.constraints@[k]
                        == pre3.constraints@[k]);
            }
        }
        // fold -bit * 2^i into the running combination
        let neg_exp2 = scalar_sub(&zero, &exp2);
        let ghost cur_terms_pre = cur.terms@;
        cur.terms.push((b, neg_exp2));
        proof {
            assert(cur.terms@.drop_last() =~= cur_terms_pre);
            if v_assignment is Some {
                let w = v_assignment->Some_0;
                lemma_small_mod(pow2(i as nat), group_order());
                assert(s_val(neg_exp2) == neg_mod(pow2(i as nat)));
                assert(cs.aval(b as int) == bitval);
                assert(terms_eval(cur.terms@, cs.assign()) == terms_eval(cur_terms_pre, cs.assign())
                    + neg_mod(pow2(i as nat)) * bitval);
            }
        }
        exp2 = scalar_add(&exp2, &exp2);
        proof {
            lemma_small_mod(pow2((i + 1) as nat), group_order());
            assert(pow2((i + 1) as nat) == 2 * pow2(i as nat)) by {
                vstd::arithmetic::power2::lemma_pow2_adds(i as nat, 1);
                lemma2_to64();
                assert(pow2(i as nat) * 2 == 2 * pow2(i as nat)) by (nonlinear_arith);
            }
        }
        i = i + 1;
    }
    // enforce v = sum of the weighted bits
    let ghost pre_f = *cs;
    let ghost cur_snap = cur;
    cs.constrain(cur);
    proof {
        assert(cs.constraints@.take(c0 as int) =~= pre_f.constraints@.take(c0 as int));
        assert(cs.assign() =~= pre_f.assign());
        if v_assignment is Some {
            let w = v_assignment->Some_0;
            let l = group_order() as int;
            let wv = s_val(w);
            lemma_group_order_bounds();
            assert(forall|k: int|
                c0 <= k < cs.constraints@.len() - 1 ==> cs.constraints@[k]
                    == pre_f.constraints@[k]);
            if v.eval(cs.assign()) % group_order() == s_val(w) {
                assert(canon(w));
                let av = v.eval(cs.assign()) as int;
                let s = neg_weighted_bits(wv, bits_size as nat) as int;
                let m = (wv % pow2(bits_size as nat)) as int;
                lemma_neg_weighted_bits(wv, bits_size as nat);
                lemma_low_bits_le(wv, bits_size as nat);
                lemma_pow2_pos(bits_size as nat);
                lemma_mod_bound(wv as int, pow2(bits_size as nat) as int);
                assert(m <= wv);
                assert(0 <= m);
                // (av + s) % l == (wv - m) % l
                lemma_add_mod_noop(av, s, l);
                lemma_small_mod(wv, group_order());
                lemma_add_mod_noop(wv as int, s, l);
                assert((av + s) % l == (wv + s) % l);
                let snat = neg_weighted_bits(wv, bits_size as nat);
                let mnat = wv % pow2(bits_size as nat);
                assert((snat + mnat) % group_order() == 0);
                assert(s == snat && m == mnat && l == group_order());
                assert((s + m) % l == 0);
                lemma_fundamental_div_mod(s + m, l);
                let k = (s + m) / l;
                assert(s + m == l * k);
                assert(wv + s == (wv - m) + l * k);
                lemma_mod_multiples_vanish(k, wv - m, l);
                assert((av + s) % l == (wv - m) % l);
                assert(0 <= wv - m < l);
                lemma_small_mod((wv - m) as nat, group_order());
                assert(cur_snap.eval(cs.assign()) % group_order() == ((wv - m) % l) as nat);
                if wv < pow2(bits_size as nat) {
                    assert(m == wv);
                    assert(cs.constraints_hold_from(c0 as int));
                } else {
                    assert(wv - m != 0);
                    assert(!cur_snap.holds(cs.assign()));
                    assert(cs.constraints@.last() == cur_snap);
                    assert(!cs.constraints_hold_from(c0 as int));
                }
            }
        }
    }
    Ok(())
}

/// Concatenated term lists evaluate to the sum of the parts.
pub proof fn lemma_terms_eval_concat(
    ts1: Seq<(usize, Scalar)>,
    ts2: Seq<(usize, Scalar)>,
    a: Seq<nat>,
)
    ensures
        terms_eval(ts1 + ts2, a) == terms_eval(ts1, a) + terms_eval(ts2, a),
    decreases ts2.len(),
{
    if ts2.len() == 0 {
        assert(ts1 + ts2 =~= ts1);
    } else {
        assert((ts1 + ts2).drop_last() =~= ts1 + ts2.drop_last());
        assert((ts1 + ts2).last() == ts2.last());
        lemma_terms_eval_concat(ts1, ts2.drop_last(), a);
    }
}

/// The complement the less-than gadget range-proves: `ct - 1 - w`, taken mod
/// the group order.
pub open spec fn cmpl_val(ct: nat, w: nat) -> nat {
    (((ct as int) - 1 - (w as int)) % (group_order() as int)) as nat
}

/// Law: for a public constant `0 < ct` and witness `w`, the complement
/// `ct - 1 - w` fits in `bit_len(ct) + 1` bits exactly when it should: a
/// witness below the constant satisfies the gadget's constraints, and the
/// witness `w == ct` violates them.
pub proof fn lemma_lt_constant_law(ct: nat, w: nat)
    requires
        0 < ct < group_order(),
        w < group_order(),
        bit_len(ct) + 1 <= 252,
    ensures
        w < ct ==> cmpl_val(ct, w) < pow2(bit_len(ct) + 1),
        w == ct ==> cmpl_val(ct, w) >= pow2(bit_len(ct) + 1),
{
    lemma_group_order_bounds();
    let l = group_order() as int;
    if w < ct {
        lemma_small_mod((ct - 1 - w) as nat, group_order());
        lemma_bit_len_bound(ct);
        lemma_pow2_strictly_increases(bit_len(ct), bit_len(ct) + 1);
        assert(cmpl_val(ct, w) == ct - 1 - w);
    }
    if w == ct {
        lemma_mod_add_multiples_vanish(-1, l);
        lemma_small_mod((l - 1) as nat, group_order());
        assert(cmpl_val(ct, w) == l - 1);
        if bit_len(ct) + 1 < 252 {
            lemma_pow2_strictly_increases(bit_len(ct) + 1, 252);
        }
    }
}

/// Law: the linear relation `ct*q + r = v` pins the remainder. Two
/// remainders that both satisfy it with the same quotient and value agree —
/// so tampering with the returned remainder's witness breaks the emitted
/// constraint.
pub proof fn lemma_mod_relation_pins_remainder(ct: nat, q: nat, v: nat, r1: nat, r2: nat)
    requires
        (ct * q + r1) % group_order() == v % group_order(),
        (ct * q + r2) % group_order() == v % group_order(),
        r1 < group_order(),
        r2 < group_order(),
    ensures
        r1 == r2,
{
    lemma_group_order_bounds();
    let l = group_order() as int;
    let x = (ct * q) as int;
    lemma_mod_bound(x, l);
    lemma_add_mod_noop(x, r1 as int, l);
    lemma_add_mod_noop(x, r2 as int, l);
    lemma_small_mod(r1, group_order());
    lemma_small_mod(r2, group_order());
    let y = x % l;
    assert((y + r1) % l == (y + r2) % l);
    if y + r1 < l {
        lemma_small_mod((y + r1) as nat, group_order());
    } else {
        lemma_mod_add_multiples_vanish(y + r1 - l, l);
        lemma_small_mod((y + r1 - l) as nat, group_order());
    }
    if y + r2 < l {
        lemma_small_mod((y + r2) as nat, group_order());
    } else {
        lemma_mod_add_multiples_vanish(y + r2 - l, l);
        lemma_small_mod((y + r2 - l) as nat, group_order());
    }
}

/// Prove that a linear combination is strictly below the public constant
/// `ct`: range-prove the complement `ct - v - 1` with one bit more than the
/// width of `ct` (the extra bit absorbs non-power-of-two constants).
///
/// With a witness `w`, the emitted constraints hold exactly when the
/// complement `(ct - 1 - w) mod l` fits in `bit_len(ct) + 1` bits; by
/// `lemma_lt_constant_law` that is the case whenever `w < ct`, and never
/// when `w == ct`.
#[verifier::rlimit(100)]
pub fn lt_constant(
    cs: &mut Cs,
    v: LinComb,
    v_assignment: Option<Scalar>,
    ct: Scalar,
) -> (res: Result<(), GadgetError>)
    requires
        old(cs).wf(),
        v.wf(old(cs).num_vars()),
        canon(ct),
        v_assignment matches Some(w) ==> canon(w),
    ensures
        final(cs).wf(),
        res is Err <==> bit_len(s_val(ct)) + 1 > 252,
        res matches Err(e) ==> e == GadgetError::InvalidParameter && *final(cs) == *old(cs),
        res is Ok ==> {
            &&& final(cs).num_vars() == old(cs).num_vars() + 3 * (bit_len(s_val(ct)) + 1)
            &&& final(cs).muls@.len() == old(cs).muls@.len() + bit_len(s_val(ct)) + 1
            &&& final(cs).constraints@.len() == old(cs).constraints@.len() + 2 * (bit_len(
                s_val(ct),
            ) + 1) + 1
            &&& final(cs).assignments@.take(old(cs).num_vars() as int) == old(cs).assignments@
            &&& final(cs).muls@.take(old(cs).muls@.len() as int) == old(cs).muls@
            &&& final(cs).constraints@.take(old(cs).constraints@.len() as int) == old(
                cs,
            ).constraints@
            &&& (v_assignment is Some ==> forall|j: int|
                old(cs).num_vars() <= j < final(cs).num_vars()
                    ==> final(cs).assignments@[j] is Some)
            &&& (v_assignment is None ==> forall|j: int|
                old(cs).num_vars() <= j < final(cs).num_vars()
                    ==> final(cs).assignments@[j] is None)
            &&& (v_assignment matches Some(w) ==> {
                &&& final(cs).muls_hold_from(old(cs).muls@.len() as int)
                &&& (v.eval(final(cs).assign()) % group_order() == s_val(w)
                    ==> (final(cs).constraints_hold_from(old(cs).constraints@.len() as int)
                        <==> cmpl_val(s_val(ct), s_val(w)) < pow2(bit_len(s_val(ct)) + 1)))
            })
        },
{
    let bit_size = log2_scalar(ct);
    if bit_size > 251 {
        return Err(GadgetError::InvalidParameter);
    }
    let zero = scalar_from_u64(0);
    let one = scalar_from_u64(1);
    proof {
        lemma_group_order_bounds();
        lemma_small_mod(1, group_order());
    }
    let c1 = scalar_sub(&ct, &v.constant);
    let c2 = scalar_sub(&c1, &one);
    let mut nterms: Vec<(usize, Scalar)> = Vec::new();
    let mut j: usize = 0;
    while j < v.terms.len()
        invariant
            j <= v.terms@.len(),
            v.wf(old(cs).num_vars()),
            s_val(zero) == 0 && canon(zero),
            nterms@.len() == j,
            forall|k: int|
                0 <= k < j ==> (#[trigger] nterms@[k]).0 == v.terms@[k].0 && s_val(nterms@[k].1)
                    == neg_mod(s_val(v.terms@[k].1)) && canon(nterms@[k].1),
        decreases v.terms@.len() - j,
    {
        let (var, c) = v.terms[j];
        let nc = scalar_sub(&zero, &c);
        proof {
            lemma_group_order_bounds();
            lemma_small_mod(s_val(c), group_order());
        }
        nterms.push((var, nc));
        j = j + 1;
    }
    let lincomb = LinComb { constant: c2, terms: nterms };
    let assignment: Option<Scalar> = match &v_assignment {
        Some(w) => Some(scalar_sub(&scalar_sub(&ct, w), &one)),
        None => None,
    };
    
    let res = range_proof(cs, lincomb, assignment, bit_size + 1);
    proof {
        lemma_group_order_bounds();
        let l = group_order() as int;
        let ct_v = s_val(ct) as int;
        let vc = s_val(v.constant) as int;
        lemma_small_mod(1, group_order());
        if v_assignment is Some {
            let w = v_assignment->Some_0;
            let w_v = s_val(w) as int;
            let aw = assignment->Some_0;
            // the complement witness denotes (ct - 1 - w) mod l
            lemma_mod_add_multiples_vanish(ct_v - w_v, l);
            lemma_sub_mod_noop(ct_v - w_v, 1, l);
            lemma_mod_bound(ct_v - w_v, l);
            lemma_mod_add_multiples_vanish((ct_v - w_v) % l - 1, l);
            assert(s_val(aw) as int == (ct_v - 1 - w_v) % l);
            assert(s_val(aw) == cmpl_val(s_val(ct), s_val(w)));
            if v.eval(cs.assign()) % group_order() == s_val(w) {
                let a = cs.assign();
                let tn = terms_eval(lincomb.terms@, a) as int;
                let tv = terms_eval(v.terms@, a) as int;
                let veval = v.eval(a) as int;
                // the complement combination denotes (ct - 1 - v) mod l
                lemma_terms_eval_negated(v.terms@, lincomb.terms@, a);
                lemma_fundamental_div_mod(tn + tv, l);
                let k2 = (tn + tv) / l;
                assert(tn + tv == l * k2);
                // fold the constant through the mod
                lemma_mod_add_multiples_vanish(ct_v - vc, l);
                lemma_sub_mod_noop(ct_v - vc, 1, l);
                lemma_mod_bound(ct_v - vc, l);
                lemma_mod_add_multiples_vanish((ct_v - vc) % l - 1, l);
                assert(s_val(c2) as int == (ct_v - vc - 1) % l);
                let e = lincomb.eval(a) as int;
                assert(e == (ct_v - vc - 1) % l + tn);
                lemma_add_mod_noop((ct_v - vc - 1) % l, tn, l);
                vstd::arithmetic::div_mod::lemma_mod_twice(ct_v - vc - 1, l);
                lemma_add_mod_noop(ct_v - vc - 1, tn, l);
                assert(e % l == (ct_v - vc - 1 + tn) % l);
                assert(ct_v - vc - 1 + tn == (ct_v - 1 - veval) + l * k2);
                lemma_mod_multiples_vanish(k2, ct_v - 1 - veval, l);
                assert(e % l == (ct_v - 1 - veval) % l);
                lemma_sub_mod_noop_right(ct_v - 1, veval, l);
                assert(e % l == (ct_v - 1 - w_v) % l);
                assert(lincomb.eval(a) % group_order() == s_val(aw));
            }
        }
    }
    res
}

/// Enforce the Euclidean relation `v = ct*q + r` with `0 <= r < ct` and a
/// quotient bounded by the exact field order: `q < (l - 1) / ct`, so the
/// products cannot wrap. Returns the remainder as a newly allocated
/// variable.
///
/// With a witness `w` (and `w + ct` below the field order so the quotient
/// bound has room), every emitted constraint holds; the linear relation pins
/// the remainder, so a tampered remainder witness breaks it
/// (`lemma_mod_relation_pins_remainder`).
#[verifier::rlimit(100)]
#[verifier::loop_isolation(false)]
pub fn mod_gate(
    cs: &mut Cs,
    v: LinComb,
    v_assignment: Option<Scalar>,
    ct: Scalar,
) -> (res: Result<AllocatedScalar, GadgetError>)
    requires
        old(cs).wf(),
        v.wf(old(cs).num_vars()),
        canon(ct),
        s_val(ct) > 0,
        v_assignment matches Some(w) ==> canon(w),
    ensures
        final(cs).wf(),
        res matches Err(e) ==> e == GadgetError::InvalidParameter,
        res is Err <==> (bit_len((group_order() - 1) as nat / s_val(ct)) + 1 > 252 || bit_len(
            s_val(ct),
        ) + 1 > 252),
        res matches Ok(out) ==> {
            &&& out.variable as nat == old(cs).num_vars() + 1
            &&& final(cs).assignments@.take(old(cs).num_vars() as int) == old(cs).assignments@
            &&& final(cs).muls@.take(old(cs).muls@.len() as int) == old(cs).muls@
            &&& final(cs).constraints@.take(old(cs).constraints@.len() as int) == old(
                cs,
            ).constraints@
            &&& final(cs).constraints@.len() > old(cs).constraints@.len()
            &&& (v_assignment matches Some(w) ==> {
                &&& out.assignment matches Some(rw)
                &&& canon(rw)
                &&& s_val(rw) == s_val(w) % s_val(ct)
                &&& s_val(rw) < s_val(ct)
                &&& s_val(ct) * (s_val(w) / s_val(ct)) + s_val(rw) == s_val(w)
                &&& final(cs).aval(old(cs).num_vars() as int) == s_val(w) / s_val(ct)
                &&& (v.eval(final(cs).assign()) % group_order() == s_val(w) && s_val(w) + s_val(
                    ct,
                ) < group_order() ==> {
                    &&& final(cs).constraints_hold_from(old(cs).constraints@.len() as int)
                    &&& final(cs).muls_hold_from(old(cs).muls@.len() as int)
                })
            })
            &&& (v_assignment is None ==> out.assignment is None)
        },
{
    let ghost n0 = old(cs).num_vars();
    let ghost m0 = old(cs).muls@.len();
    let ghost c0 = old(cs).constraints@.len();
    let zero = scalar_from_u64(0);
    let one = scalar_from_u64(1);
    proof {
        lemma_group_order_bounds();
        lemma_small_mod(1, group_order());
        lemma_small_mod((group_order() - 1) as nat, group_order());
    }
    let l_minus_1 = scalar_sub(&zero, &one);
    let q_bound = div_scalar(l_minus_1, ct);
    proof {
        lemma_div_nonincreasing((group_order() - 1) as int, s_val(ct) as int);
    }
    let quotient_assignment: Option<Scalar> = match &v_assignment {
        Some(w) => {
            let q = div_scalar(*w, ct);
            proof {
                lemma_div_nonincreasing(s_val(*w) as int, s_val(ct) as int);
            }
            Some(q)
        },
        None => None,
    };
    let remainder_assignment: Option<Scalar> = match &v_assignment {
        Some(w) => Some(mod_scalar(*w, ct)),
        None => None,
    };
    let quotient = cs.allocate(quotient_assignment);
    let remainder = cs.allocate(remainder_assignment);
    let ghost s2 = *cs;
    let q_lc = LinComb::from_variable(quotient);
    let r1 = lt_constant(cs, q_lc, quotient_assignment, q_bound);
    match r1 {
        Ok(()) => (),
        Err(e) => {
            return Err(e);
        },
    }
    let ghost s3 = *cs;
    proof {
        assert(cs.assignments@.take(n0 as int) =~= s2.assignments@.take(n0 as int));
        assert(cs.muls@.take(m0 as int) =~= s2.muls@.take(m0 as int));
        assert(cs.constraints@.take(c0 as int) =~= s2.constraints@.take(c0 as int));
    }
    let r_lc = LinComb::from_variable(remainder);
    let r2 = lt_constant(cs, r_lc, remainder_assignment, ct);
    match r2 {
        Ok(()) => (),
        Err(e) => {
            return Err(e);
        },
    }
    let ghost s4 = *cs;
    proof {
        assert(cs.assignments@.take(n0 as int) =~= s3.assignments@.take(n0 as int));
        assert(cs.muls@.take(m0 as int) =~= s3.muls@.take(m0 as int));
        assert(cs.constraints@.take(c0 as int) =~= s3.constraints@.take(c0 as int));
    }
    // the linear relation: ct*q + r - v = 0
    let nvc = scalar_sub(&zero, &v.constant);
    let mut terms: Vec<(usize, Scalar)> = Vec::new();
    terms.push((quotient, ct));
    terms.push((remainder, one));
    let ghost prefix2 = terms@;
    let mut j: usize = 0;
    while j < v.terms.len()
        invariant
            j <= v.terms@.len(),
            v.wf(n0),
            n0 <= s4.num_vars(),
            s_val(zero) == 0 && canon(zero),
            terms@.len() == j + 2,
            terms@.take(2) == prefix2,
            prefix2.len() == 2,
            forall|k: int|
                0 <= k < j ==> (#[trigger] terms@[k + 2]).0 == v.terms@[k].0 && s_val(
                    terms@[k + 2].1,
                ) == neg_mod(s_val(v.terms@[k].1)) && canon(terms@[k + 2].1) && (
                terms@[k + 2].0 as nat) < n0,
        decreases v.terms@.len() - j,
    {
        let (var, c) = v.terms[j];
        let nc = scalar_sub(&zero, &c);
        proof {
            lemma_group_order_bounds();
            lemma_small_mod(s_val(c), group_order());
        }
        terms.push((var, nc));
        proof {
            assert(terms@.take(2) =~= prefix2);
        }
        j = j + 1;
    }
    proof {
        assert(terms@.take(2) == prefix2);
        assert(prefix2[0] == (quotient, ct));
        assert(prefix2[1] == (remainder, one));
        assert(terms@.take(2)[0] == terms@[0]);
        assert(terms@.take(2)[1] == terms@[1]);
    }
    let final_lc = LinComb { constant: nvc, terms };
    let ghost final_snap = final_lc;
    proof {
        assert(final_lc.wf(cs.num_vars())) by {
            assert(final_lc.terms@[0] == (quotient, ct));
            assert(final_lc.terms@[1] == (remainder, one));
            assert forall|k: int|
                0 <= k < final_lc.terms@.len() implies canon(
                (#[trigger] final_lc.terms@[k]).1,
            ) && (final_lc.terms@[k].0 as nat) < cs.num_vars() by {
                if k >= 2 {
                    assert(final_lc.terms@[k] == final_lc.terms@[(k - 2) + 2]);
                }
            }
        }
    }
    cs.constrain(final_lc);
    proof {
        assert(cs.assignments@.take(n0 as int) =~= s4.assignments@.take(n0 as int));
        assert(cs.muls@.take(m0 as int) =~= s4.muls@.take(m0 as int));
        assert(cs.constraints@.take(c0 as int) =~= s4.constraints@.take(c0 as int));
        assert(cs.assign() =~= s4.assign());
        let l = group_order() as int;
        let ct_v = s_val(ct) as int;
        if v_assignment is Some {
            let w = v_assignment->Some_0;
            let w_v = s_val(w) as int;
            let qw = quotient_assignment->Some_0;
            let rw = remainder_assignment->Some_0;
            let q_v = s_val(qw) as int;
            let r_v = s_val(rw) as int;
            lemma_fundamental_div_mod(w_v, ct_v);
            assert(ct_v * (w_v / ct_v) + w_v % ct_v == w_v);
            // the quotient's witness is still stored at its variable
            assert(cs.assignments@[quotient as int] == s2.assignments@[quotient as int]) by {
                assert(s2.assignments@[quotient as int] == cs.assignments@.take(n0 as int + 2)[
                    quotient as int]) by {
                    assert(cs.assignments@.take(s2.num_vars() as int) =~= s2.assignments@) by {
                        assert(s3.assignments@.take(s2.num_vars() as int)
                            =~= s2.assignments@);
                        assert(s4.assignments@.take(s3.num_vars() as int)
                            =~= s3.assignments@);
                        assert(s4.assignments@.take(s2.num_vars() as int)
                            =~= s3.assignments@.take(s2.num_vars() as int));
                    }
                }
            }
            assert(cs.aval(quotient as int) == s_val(qw));
            assert(cs.assignments@[remainder as int] == s2.assignments@[remainder as int]) by {
                assert(cs.assignments@.take(s2.num_vars() as int) =~= s2.assignments@);
            }
            assert(cs.aval(remainder as int) == s_val(rw));
            if v.eval(cs.assign()) % group_order() == s_val(w) && s_val(w) + s_val(ct)
                < group_order() {
                // quotient is strictly below its bound
                let qb_v = s_val(q_bound) as int;
                assert(q_v < qb_v) by {
                    lemma_div_is_ordered(w_v, l - 1 - ct_v, ct_v);
                    lemma_div_minus_one(l - 1, ct_v);
                }
                // the first less-than gadget's constraints hold at s3
                assert(s3.constraints_hold_from(c0 as int) && s3.muls_hold_from(m0 as int)) by {
                    lemma_eval_single(q_lc, s3.assign());
                    assert(s3.aval(quotient as int) == s_val(qw)) by {
                        assert(s3.assignments@.take(s2.num_vars() as int) =~= s2.assignments@);
                    }
                    assert(q_lc.eval(s3.assign()) == 0 + 1 * s_val(qw));
                    assert(0 + 1 * s_val(qw) == s_val(qw)) by (nonlinear_arith);
                    lemma_small_mod(s_val(qw), group_order());
                    lemma_lt_constant_law(s_val(q_bound), s_val(qw));
                    assert(cmpl_val(s_val(q_bound), s_val(qw)) < pow2(
                        bit_len(s_val(q_bound)) + 1));
                }
                // the second less-than gadget's constraints hold at s4
                assert(s4.constraints_hold_from(s3.constraints@.len() as int)
                    && s4.muls_hold_from(s3.muls@.len() as int)) by {
                    lemma_eval_single(r_lc, s4.assign());
                    assert(s4.aval(remainder as int) == s_val(rw)) by {
                        assert(s4.assignments@.take(s2.num_vars() as int) =~= s2.assignments@)
                            by {
                            assert(s3.assignments@.take(s2.num_vars() as int)
                                =~= s2.assignments@);
                            assert(s4.assignments@.take(s3.num_vars() as int)
                                =~= s3.assignments@);
                            assert(s4.assignments@.take(s2.num_vars() as int)
                                =~= s3.assignments@.take(s2.num_vars() as int));
                        }
                    }
                    assert(r_lc.eval(s4.assign()) == 0 + 1 * s_val(rw));
                    assert(0 + 1 * s_val(rw) == s_val(rw)) by (nonlinear_arith);
                    lemma_small_mod(s_val(rw), group_order());
                    lemma_mod_bound(w_v, ct_v);
                    lemma_lt_constant_law(s_val(ct), s_val(rw));
                    assert(cmpl_val(s_val(ct), s_val(rw)) < pow2(bit_len(s_val(ct)) + 1));
                }
                // carry both forward to the final state
                lemma_constraints_preserved(s3, s4, c0 as int);
                lemma_muls_preserved(s3, s4, m0 as int);
                assert(s4.constraints_hold_from(c0 as int));
                assert(s4.muls_hold_from(m0 as int));
                assert(forall|i: int|
                    c0 <= i < cs.constraints@.len() - 1 ==> cs.constraints@[i]
                        == s4.constraints@[i]);
                assert(cs.muls@ == s4.muls@);
                // the final linear relation holds
                let a = cs.assign();
                let nts = final_snap.terms@.skip(2);
                assert(final_snap.terms@ =~= prefix2 + nts);
                assert(forall|k: int|
                    0 <= k < nts.len() ==> (#[trigger] nts[k]).0 == v.terms@[k].0 && s_val(
                        nts[k].1,
                    ) == neg_mod(s_val(v.terms@[k].1)));
                let tn = terms_eval(nts, a) as int;
                let tv = terms_eval(v.terms@, a) as int;
                let veval = v.eval(a) as int;
                lemma_terms_eval_negated(v.terms@, nts, a);
                lemma_fundamental_div_mod(tn + tv, l);
                let k2 = (tn + tv) / l;
                assert(tn + tv == l * k2);
                lemma_terms_eval_concat(prefix2, nts, a);
                assert(prefix2[0] == (quotient, ct) && prefix2[1] == (remainder, one));
                assert(prefix2.drop_last() =~= seq![(quotient, ct)]);
                assert(prefix2.last() == (remainder, one));
                assert(seq![(quotient, ct)].drop_last() =~= Seq::<(usize, Scalar)>::empty());
                assert(seq![(quotient, ct)].last() == (quotient, ct));
                assert(terms_eval(Seq::<(usize, Scalar)>::empty(), a) == 0);
                assert(a[quotient as int] == cs.aval(quotient as int));
                assert(a[remainder as int] == cs.aval(remainder as int));
                assert(terms_eval(seq![(quotient, ct)], a) == 0 + s_val(ct) * s_val(qw));
                assert(terms_eval(prefix2, a) == s_val(ct) * s_val(qw) + 1 * s_val(rw));
                let vc = s_val(v.constant) as int;
                lemma_mod_add_multiples_vanish(0 - vc, l);
                assert(s_val(nvc) as int == (0 - vc) % l);
                let e = final_snap.eval(a) as int;
                assert(e == (0 - vc) % l + (ct_v * q_v + 1 * r_v + tn));
                lemma_add_mod_noop((0 - vc) % l, ct_v * q_v + 1 * r_v + tn, l);
                vstd::arithmetic::div_mod::lemma_mod_twice(0 - vc, l);
                lemma_add_mod_noop(0 - vc, ct_v * q_v + 1 * r_v + tn, l);
                assert(e % l == (ct_v * q_v + r_v - vc + tn) % l);
                assert(ct_v * q_v + r_v - vc + tn == (ct_v * q_v + r_v - veval) + l * k2);
                lemma_mod_multiples_vanish(k2, ct_v * q_v + r_v - veval, l);
                assert(e % l == (ct_v * q_v + r_v - veval) % l);
                assert(ct_v * q_v + r_v == w_v);
                lemma_sub_mod_noop_right(w_v, veval, l);
                assert(e % l == (w_v - w_v) % l);
                lemma_small_mod(0, group_order());
                assert(final_snap.holds(a));
                assert(cs.constraints@.last() == final_snap);
                assert(cs.constraints_hold_from(c0 as int));
                assert(cs.muls_hold_from(m0 as int)) by {
                    assert(cs.muls@.take(s4.muls@.len() as int) =~= s4.muls@);
                    assert(cs.assignments@.take(s4.num_vars() as int) =~= s4.assignments@);
                    lemma_muls_preserved(s4, *cs, m0 as int);
                }
            }
        }
    }
    Ok(AllocatedScalar { variable: remainder, assignment: remainder_assignment })
}

} // verus!
