//! The constraint-system side of the gadgets: linear combinations, an
//! append-only rank-1 constraint system with per-variable optional witnesses
//! (present on the proving side, absent on the verifying side), and a
//! satisfaction check for the stored witnesses.
use vstd::prelude::*;
use vstd::arithmetic::div_mod::lemma_add_mod_noop;
use vstd::arithmetic::div_mod::lemma_mod_bound;
use vstd::arithmetic::div_mod::lemma_small_mod;
use curve25519_dalek::scalar::Scalar;
use crate::numeric::group_order;
use crate::numeric::lemma_group_order_bounds;
use crate::numeric::lemma_le_nat_injective;
use crate::scalars::scalar_bytes;
use crate::scalars::s_val;
use crate::scalars::canon;
use crate::scalars::scalar_to_bytes;
use crate::scalars::scalar_from_u64;
use crate::scalars::scalar_add;
use crate::scalars::scalar_sub;
use crate::scalars::scalar_mul;

verus! {

/// The error a gadget surfaces: a requested bit width, or the width derived
/// from a public constant, falls outside what the field supports (ranges of
/// at most 252 bits, since the field order sits just above `2^252`).
#[derive(Clone, Copy, Debug, PartialEq, Eq, Structural)]
pub enum GadgetError {
    InvalidParameter,
}

/// A variable handle paired with the witness value the proving side knows
/// (the verifying side carries `None`).
#[derive(Clone, Copy)]
pub struct AllocatedScalar {
    pub variable: usize,
    pub assignment: Option<Scalar>,
}

/// A linear combination of constraint-system variables: a constant term plus
/// coefficient-weighted variables. Immutable value type.
pub struct LinComb {
    pub constant: Scalar,
    pub terms: Vec<(usize, Scalar)>,
}

/// The integer value of a term list under an assignment of naturals to
/// variables (no field reduction: reduction happens in `LinComb::holds`).
pub open spec fn terms_eval(ts: Seq<(usize, Scalar)>, a: Seq<nat>) -> nat
    decreases ts.len(),
{
    if ts.len() == 0 {
        0
    } else {
        terms_eval(ts.drop_last(), a) + s_val(ts.last().1) * a[ts.last().0 as int]
    }
}

/// Term lists evaluate the same under any extension of the assignment.
pub proof fn lemma_terms_eval_extend(ts: Seq<(usize, Scalar)>, a1: Seq<nat>, a2: Seq<nat>)
    requires
        a1.len() <= a2.len(),
        forall|i: int| 0 <= i < a1.len() ==> a1[i] == a2[i],
        forall|j: int| 0 <= j < ts.len() ==> (#[trigger] ts[j]).0 < a1.len(),
    ensures
        terms_eval(ts, a1) == terms_eval(ts, a2),
    decreases ts.len(),
{
    if ts.len() > 0 {
        assert(forall|j: int|
            0 <= j < ts.drop_last().len() ==> (#[trigger] ts.drop_last()[j]).0 < a1.len());
        lemma_terms_eval_extend(ts.drop_last(), a1, a2);
    }
}

impl LinComb {
    /// Well-formed against a system of `nv` variables: every coefficient and
    /// the constant canonical, every variable in range.
    pub open spec fn wf(self, nv: nat) -> bool {
        &&& canon(self.constant)
        &&& forall|j: int|
            0 <= j < self.terms@.len() ==> canon((#[trigger] self.terms@[j]).1)
                && (self.terms@[j].0 as nat) < nv
    }

    /// The integer value of the combination under an assignment.
    pub open spec fn eval(self, a: Seq<nat>) -> nat {
        s_val(self.constant) + terms_eval(self.terms@, a)
    }

    /// Whether the constraint `self = 0` holds under an assignment: the value
    /// reduces to zero mod the group order.
    pub open spec fn holds(self, a: Seq<nat>) -> bool {
        self.eval(a) % group_order() == 0
    }

    /// The combination that is exactly one variable.
    pub fn from_variable(v: usize) -> (r: LinComb)
        ensures
            s_val(r.constant) == 0,
            canon(r.constant),
            r.terms@.len() == 1,
            r.terms@[0].0 == v,
            s_val(r.terms@[0].1) == 1,
            canon(r.terms@[0].1),
    {
        let mut terms: Vec<(usize, Scalar)> = Vec::new();
        terms.push((v, scalar_from_u64(1)));
        LinComb { constant: scalar_from_u64(0), terms }
    }
}

/// An append-only rank-1 constraint system: allocated variables with their
/// optional witnesses, multiplicative gates `left * right = output`, and
/// linear constraints `combination = 0`. Gadgets only ever append.
pub struct Cs {
    pub assignments: Vec<Option<Scalar>>,
    pub muls: Vec<(usize, usize, usize)>,
    pub constraints: Vec<LinComb>,
}

impl Cs {
    pub open spec fn num_vars(self) -> nat {
        self.assignments@.len()
    }

    /// The value of variable `i` under the stored witnesses (`0` where no
    /// witness is stored).
    pub open spec fn aval(self, i: int) -> nat {
        match self.assignments@[i] {
            Some(w) => s_val(w),
            None => 0,
        }
    }

    /// The assignment the stored witnesses induce.
    pub open spec fn assign(self) -> Seq<nat> {
        Seq::new(self.num_vars(), |i: int| self.aval(i))
    }

    pub open spec fn wf(self) -> bool {
        &&& forall|i: int|
            0 <= i < self.assignments@.len() ==> ((#[trigger] self.assignments@[i]) matches Some(w)
                ==> canon(w))
        &&& forall|i: int|
            0 <= i < self.muls@.len() ==> (#[trigger] self.muls@[i]).0 < self.num_vars()
                && self.muls@[i].1 < self.num_vars() && self.muls@[i].2 < self.num_vars()
        &&& forall|i: int|
            0 <= i < self.constraints@.len() ==> (#[trigger] self.constraints@[i]).wf(
                self.num_vars())
    }

    /// Every variable carries a witness: the proving side.
    pub open spec fn fully_assigned(self) -> bool {
        forall|i: int| 0 <= i < self.assignments@.len() ==> (#[trigger] self.assignments@[i]) is Some
    }

    /// Every linear constraint from index `k` on holds under the stored
    /// witnesses.
    pub open spec fn constraints_hold_from(self, k: int) -> bool {
        forall|i: int|
            k <= i < self.constraints@.len() ==> (#[trigger] self.constraints@[i]).holds(
                self.assign())
    }

    /// Every multiplicative gate from index `k` on holds under the stored
    /// witnesses.
    pub open spec fn muls_hold_from(self, k: int) -> bool {
        forall|i: int|
            k <= i < self.muls@.len() ==> (self.aval((#[trigger] self.muls@[i]).0 as int) * self.aval(
                self.muls@[i].1 as int)) % group_order() == self.aval(self.muls@[i].2 as int)
    }

    /// The whole system is satisfied by the stored witnesses.
    pub open spec fn satisfied(self) -> bool {
        self.constraints_hold_from(0) && self.muls_hold_from(0)
    }

    /// An empty constraint system.
    pub fn new() -> (r: Cs)
        ensures
            r.wf(),
            r.num_vars() == 0,
            r.muls@.len() == 0,
            r.constraints@.len() == 0,
    {
        Cs { assignments: Vec::new(), muls: Vec::new(), constraints: Vec::new() }
    }

    /// Introduce a free variable, with the proving side's witness if there is
    /// one.
    pub fn allocate(&mut self, assignment: Option<Scalar>) -> (v: usize)
        requires
            old(self).wf(),
            assignment matches Some(w) ==> canon(w),
        ensures
            final(self).wf(),
            v as nat == old(self).num_vars(),
            final(self).assignments@ == old(self).assignments@.push(assignment),
            final(self).muls@ == old(self).muls@,
            final(self).constraints@ == old(self).constraints@,
            final(self).aval(v as int) == match assignment {
                Some(w) => s_val(w),
                None => 0,
            },
    {
        let v = self.assignments.len();
        self.assignments.push(assignment);
        v
    }

    /// Introduce a multiplicative gate: a left input, a right input, and an
    /// output constrained (implicitly, as a gate) to their product.
    pub fn allocate_multiplier(&mut self, assignment: Option<(Scalar, Scalar)>) -> (r: (
        usize,
        usize,
        usize,
    ))
        requires
            old(self).wf(),
            assignment matches Some(p) ==> canon(p.0) && canon(p.1),
        ensures
            final(self).wf(),
            r.0 as nat == old(self).num_vars(),
            r.1 as nat == old(self).num_vars() + 1,
            r.2 as nat == old(self).num_vars() + 2,
            final(self).num_vars() == old(self).num_vars() + 3,
            final(self).muls@ == old(self).muls@.push(r),
            final(self).constraints@ == old(self).constraints@,
            final(self).assignments@.take(old(self).num_vars() as int) == old(self).assignments@,
            match assignment {
                Some(p) => {
                    &&& final(self).assignments@[r.0 as int] is Some
                    &&& final(self).assignments@[r.1 as int] is Some
                    &&& final(self).assignments@[r.2 as int] is Some
                    &&& final(self).aval(r.0 as int) == s_val(p.0)
                    &&& final(self).aval(r.1 as int) == s_val(p.1)
                    &&& final(self).aval(r.2 as int) == (s_val(p.0) * s_val(p.1))
                        % group_order()
                },
                None => {
                    &&& final(self).assignments@[r.0 as int] is None
                    &&& final(self).assignments@[r.1 as int] is None
                    &&& final(self).assignments@[r.2 as int] is None
                },
            },
    {
        let l = self.assignments.len();
        match assignment {
            Some((lw, rw)) => {
                let ow = scalar_mul(&lw, &rw);
                self.assignments.push(Some(lw));
                self.assignments.push(Some(rw));
                self.assignments.push(Some(ow));
            },
            None => {
                self.assignments.push(None);
                self.assignments.push(None);
                self.assignments.push(None);
            },
        }
        let n = self.assignments.len();
        let r = (l, n - 2, n - 1);
        self.muls.push(r);
        proof {
            assert(final(self).assignments@.take(old(self).num_vars() as int)
                =~= old(self).assignments@);
        }
        r
    }

    /// Assert that a combination equals zero.
    pub fn constrain(&mut self, lc: LinComb)
        requires
            old(self).wf(),
            lc.wf(old(self).num_vars()),
        ensures
            final(self).wf(),
            final(self).constraints@ == old(self).constraints@.push(lc),
            final(self).assignments@ == old(self).assignments@,
            final(self).muls@ == old(self).muls@,
    {
        self.constraints.push(lc);
    }
}

/// The additive inverse mod the group order.
pub open spec fn neg_mod(x: nat) -> nat {
    ((group_order() - x % group_order()) % (group_order() as int)) as nat
}

/// The value of a one-term combination: its constant plus the weighted
/// variable.
pub proof fn lemma_eval_single(lc: LinComb, a: Seq<nat>)
    requires
        lc.terms@.len() == 1,
    ensures
        lc.eval(a) == s_val(lc.constant) + s_val(lc.terms@[0].1) * a[lc.terms@[0].0 as int],
{
    assert(lc.terms@.drop_last() =~= Seq::<(usize, Scalar)>::empty());
    assert(lc.terms@.last() == lc.terms@[0]);
    assert(terms_eval(Seq::<(usize, Scalar)>::empty(), a) == 0);
    assert(terms_eval(lc.terms@, a) == terms_eval(lc.terms@.drop_last(), a) + s_val(
        lc.terms@.last().1,
    ) * a[lc.terms@.last().0 as int]);
}

/// Negated terms cancel the original terms mod the group order.
pub proof fn lemma_terms_eval_negated(
    ts: Seq<(usize, Scalar)>,
    ns: Seq<(usize, Scalar)>,
    a: Seq<nat>,
)
    requires
        ns.len() == ts.len(),
        forall|k: int|
            0 <= k < ts.len() ==> (#[trigger] ns[k]).0 == ts[k].0 && s_val(ns[k].1) == neg_mod(
                s_val(ts[k].1)) && s_val(ts[k].1) < group_order(),
    ensures
        (terms_eval(ns, a) + terms_eval(ts, a)) % group_order() == 0,
    decreases ts.len(),
{
    lemma_group_order_bounds();
    let l = group_order();
    if ts.len() == 0 {
        lemma_small_mod(0, l);
    } else {
        lemma_terms_eval_negated(ts.drop_last(), ns.drop_last(), a);
        assert(ns[ts.len() - 1] == ns.last() && ts[ts.len() - 1] == ts.last());
        let c = s_val(ts.last().1);
        let x = a[ts.last().0 as int];
        let p = terms_eval(ns.drop_last(), a) + terms_eval(ts.drop_last(), a);
        lemma_small_mod(c, l);
        let q = s_val(ns.last().1) * x + c * x;
        assert(ns.last().0 == ts.last().0);
        if c == 0 {
            assert(neg_mod(0) == 0) by {
                vstd::arithmetic::div_mod::lemma_mod_self_0(l as int);
                lemma_small_mod(0, l);
            }
            assert(q == 0) by (nonlinear_arith)
                requires q == s_val(ns.last().1) * x + c * x, s_val(ns.last().1) == 0, c == 0;
            lemma_small_mod(0, l);
        } else {
            assert(s_val(ns.last().1) == l - c) by {
                lemma_small_mod((l - c) as nat, l);
            }
            assert(q == l * x) by (nonlinear_arith)
                requires q == s_val(ns.last().1) * x + c * x, s_val(ns.last().1) == l - c;
            vstd::arithmetic::div_mod::lemma_mod_multiples_vanish(x as int, 0, l as int);
            lemma_small_mod(0, l);
            assert(q % l == 0) by {
                assert(l * x == x * l) by (nonlinear_arith);
                assert((x * (l as int) + 0) % (l as int) == 0int % (l as int));
            }
        }
        assert(terms_eval(ns, a) + terms_eval(ts, a) == p + q);
        lemma_add_mod_noop(p as int, q as int, l as int);
        lemma_small_mod(0, l);
    }
}

/// Constraints that held keep holding when the system has only grown: the
/// variables they mention keep their witnesses.
pub proof fn lemma_constraints_preserved(pre: Cs, post: Cs, k: int)
    requires
        pre.wf(),
        post.num_vars() >= pre.num_vars(),
        post.assignments@.take(pre.num_vars() as int) == pre.assignments@,
        post.constraints@.len() >= pre.constraints@.len(),
        post.constraints@.take(pre.constraints@.len() as int) == pre.constraints@,
        0 <= k,
        pre.constraints_hold_from(k),
    ensures
        forall|i: int|
            k <= i < pre.constraints@.len() ==> (#[trigger] post.constraints@[i]).holds(
                post.assign()),
{
    assert forall|i: int|
        k <= i < pre.constraints@.len() implies (#[trigger] post.constraints@[i]).holds(
        post.assign()) by {
        assert(post.constraints@[i] == pre.constraints@.take(pre.constraints@.len() as int)[i]);
        assert(post.constraints@[i] == pre.constraints@[i]);
        let lc = pre.constraints@[i];
        assert(lc.wf(pre.num_vars()));
        assert forall|j: int| 0 <= j < pre.num_vars() implies pre.assign()[j] == post.assign()[j] by {
            assert(pre.assignments@[j] == post.assignments@.take(pre.num_vars() as int)[j]);
        }
        lemma_terms_eval_extend(lc.terms@, pre.assign(), post.assign());
        assert(lc.holds(pre.assign()));
    }
}

/// Multiplicative gates that held keep holding when the system has only
/// grown.
pub proof fn lemma_muls_preserved(pre: Cs, post: Cs, k: int)
    requires
        pre.wf(),
        post.num_vars() >= pre.num_vars(),
        post.assignments@.take(pre.num_vars() as int) == pre.assignments@,
        post.muls@.len() >= pre.muls@.len(),
        post.muls@.take(pre.muls@.len() as int) == pre.muls@,
        0 <= k,
        pre.muls_hold_from(k),
    ensures
        forall|i: int|
            k <= i < pre.muls@.len() ==> (post.aval((#[trigger] post.muls@[i]).0 as int)
                * post.aval(post.muls@[i].1 as int)) % group_order() == post.aval(
                post.muls@[i].2 as int),
{
    assert forall|i: int|
        k <= i < pre.muls@.len() implies (post.aval((#[trigger] post.muls@[i]).0 as int)
        * post.aval(post.muls@[i].1 as int)) % group_order() == post.aval(
        post.muls@[i].2 as int) by {
        assert(post.muls@[i] == pre.muls@.take(pre.muls@.len() as int)[i]);
        assert(post.muls@[i] == pre.muls@[i]);
        let m = pre.muls@[i];
        assert(m.0 < pre.num_vars() && m.1 < pre.num_vars() && m.2 < pre.num_vars());
        assert forall|j: int| 0 <= j < pre.num_vars() implies pre.aval(j) == post.aval(j) by {
            assert(pre.assignments@[j] == post.assignments@.take(pre.num_vars() as int)[j]);
        }
    }
}

/// Whether two scalars denote the same integer.
pub fn scalar_eq(a: &Scalar, b: &Scalar) -> (r: bool)
    ensures
        r == (s_val(*a) == s_val(*b)),
{
    let ba = scalar_to_bytes(a);
    let bb = scalar_to_bytes(b);
    let mut eq = true;
    let mut i: usize = 0;
    while i < 32
        invariant
            i <= 32,
            ba@ == scalar_bytes(*a),
            bb@ == scalar_bytes(*b),
            ba@.len() == 32,
            bb@.len() == 32,
            eq == (forall|j: int| 0 <= j < i ==> ba@[j] == bb@[j]),
        decreases 32 - i,
    {
        if ba[i] != bb[i] {
            eq = false;
        }
        i = i + 1;
    }
    proof {
        if eq {
            assert(ba@ =~= bb@);
        } else {
            if s_val(*a) == s_val(*b) {
                lemma_le_nat_injective(scalar_bytes(*a), scalar_bytes(*b));
            }
        }
    }
    eq
}

/// Evaluate a combination under the stored witnesses, reduced mod the group
/// order.
fn eval_lc(cs: &Cs, lc: &LinComb) -> (r: Scalar)
    requires
        cs.wf(),
        cs.fully_assigned(),
        lc.wf(cs.num_vars()),
    ensures
        canon(r),
        s_val(r) == lc.eval(cs.assign()) % group_order(),
{
    proof {
        lemma_group_order_bounds();
        lemma_small_mod(s_val(lc.constant), group_order());
    }
    let mut acc = scalar_add(&lc.constant, &scalar_from_u64(0));
    let mut j: usize = 0;
    while j < lc.terms.len()
        invariant
            cs.wf(),
            cs.fully_assigned(),
            lc.wf(cs.num_vars()),
            j <= lc.terms@.len(),
            canon(acc),
            s_val(acc) == (s_val(lc.constant) + terms_eval(
                lc.terms@.take(j as int),
                cs.assign(),
            )) % group_order(),
        decreases lc.terms@.len() - j,
    {
        let (v, c) = lc.terms[j];
        let w = cs.assignments[v].unwrap();
        let t = scalar_mul(&c, &w);
        proof {
            lemma_group_order_bounds();
            assert(lc.terms@.take(j + 1 as int).drop_last() =~= lc.terms@.take(j as int));
            assert(lc.terms@.take(j + 1 as int).last() == lc.terms@[j as int]);
            assert(cs.assign()[v as int] == s_val(w));
            lemma_add_mod_noop(
                (s_val(lc.constant) + terms_eval(lc.terms@.take(j as int), cs.assign())) as int,
                (s_val(c) * s_val(w)) as int,
                group_order() as int,
            );
        }
        acc = scalar_add(&acc, &t);
        j = j + 1;
    }
    proof {
        assert(lc.terms@.take(lc.terms@.len() as int) =~= lc.terms@);
    }
    acc
}

/// Whether every linear constraint and every multiplicative gate of the
/// system holds under the stored witnesses: the proving side's own
/// satisfaction check. A `false` here means no valid proof can come out of
/// this witness.
pub fn check_satisfied(cs: &Cs) -> (r: bool)
    requires
        cs.wf(),
        cs.fully_assigned(),
    ensures
        r == cs.satisfied(),
{
    let zero = scalar_from_u64(0);
    let mut ok = true;
    let mut i: usize = 0;
    while i < cs.constraints.len()
        invariant
            cs.wf(),
            cs.fully_assigned(),
            s_val(zero) == 0,
            canon(zero),
            i <= cs.constraints@.len(),
            ok == (forall|j: int|
                0 <= j < i ==> (#[trigger] cs.constraints@[j]).holds(cs.assign())),
        decreases cs.constraints@.len() - i,
    {
        let e = eval_lc(cs, &cs.constraints[i]);
        if !scalar_eq(&e, &zero) {
            ok = false;
        }
        i = i + 1;
    }
    let mut k: usize = 0;
    while k < cs.muls.len()
        invariant
            cs.wf(),
            cs.fully_assigned(),
            k <= cs.muls@.len(),
            ok == (cs.constraints_hold_from(0) && forall|j: int|
                0 <= j < k ==> (cs.aval((#[trigger] cs.muls@[j]).0 as int) * cs.aval(
                    cs.muls@[j].1 as int,
                )) % group_order() == cs.aval(cs.muls@[j].2 as int)),
        decreases cs.muls@.len() - k,
    {
        let (l, r_, o) = cs.muls[k];
        let lw = cs.assignments[l].unwrap();
        let rw = cs.assignments[r_].unwrap();
        let ow = cs.assignments[o].unwrap();
        let prod = scalar_mul(&lw, &rw);
        proof {
            lemma_group_order_bounds();
            lemma_mod_bound((s_val(lw) * s_val(rw)) as int, group_order() as int);
        }
        if !scalar_eq(&prod, &ow) {
            ok = false;
        }
        k = k + 1;
    }
    ok
}

} // verus!
