//! Sums over an iteration: the power sums as polynomials, and sums of a polynomial over the
//! values of a loop variable.

use vstd::prelude::*;
use crate::cost::algebra::{
    difference_value, p_add, p_mul, p_pow, p_pow_wf, p_scale, p_scale_wf, p_sub, p_sub_wf, p_term, p_value, p_var,
    p_wf, p_zero, power_value, real_pow, scale_value, valuation,
};
use crate::cost::assoc::{erase, value};
use crate::cost::model::{AtomV, MonoV, PolyV};
use crate::cost::rat::{num, ratio, Rat};
use crate::cost::size::{atom_view_is, Atom, Poly};
use crate::cost::subst::{answers, mentioning, p_hide, p_mentions, p_subst};
use crate::num::{BigInt, BigNat, Side};

verus! {

/// How many ways there are to pick `k` of `n` things.
pub open spec fn binom(n: nat, k: nat) -> nat
    decreases n,
{
    if k == 0 {
        1
    } else if n == 0 {
        0
    } else {
        binom((n - 1) as nat, (k - 1) as nat) + binom((n - 1) as nat, k)
    }
}

/// `Σ_{k=0}^{n−1} k^j` as a polynomial in `n`, by the identity
/// `n^{j+1} = Σ_{i≤j} C(j+1, i)·S_i(n)`.
pub open spec fn p_power_sum(j: nat, n: PolyV) -> PolyV
    decreases j, j + 1,
{
    p_scale(p_power_rest(j, n, j), ratio(1, j as int + 1))
}

/// `n^{j+1}` less the first `i` terms of the identity.
pub open spec fn p_power_rest(j: nat, n: PolyV, i: nat) -> PolyV
    decreases j, i,
{
    if i == 0 || i > j {
        p_pow(n, j + 1)
    } else {
        p_sub(
            p_power_rest(j, n, (i - 1) as nat),
            p_scale(p_power_sum((i - 1) as nat, n), binom(j + 1, (i - 1) as nat) as real),
        )
    }
}

/// The variable that counts iterations while a sum is taken.
pub open spec fn counter() -> int {
    usize::MAX as int / 2
}

/// An exponent of the counter.
pub open spec fn counted(e: real) -> nat {
    if num(e) > 0 {
        num(e) as nat
    } else {
        0
    }
}

/// Each power of the counter replaced by its sum over `trip` values.
pub open spec fn terms_sum(t: Seq<(MonoV, real)>, trip: PolyV) -> PolyV
    decreases t.len(),
{
    if t.len() == 0 {
        p_zero()
    } else {
        let f = t.last().0.factors;
        p_add(
            terms_sum(t.drop_last(), trip),
            p_mul(
                p_term(MonoV { factors: erase(f, AtomV::Var(counter())) }, t.last().1),
                p_power_sum(counted(value(f, AtomV::Var(counter()))), trip),
            ),
        )
    }
}

/// The sum of `p` over `v = lo, lo + step, …` for `trip` values. What an unknown cost has of the
/// variable in its arguments is hidden first.
pub open spec fn p_sum_over(p: PolyV, v: int, lo: PolyV, step: int, trip: PolyV) -> PolyV {
    let shown = p_hide(p, mentioning(v));
    if p_mentions(shown, v) {
        terms_sum(p_subst(shown, v, p_add(lo, p_scale(p_var(counter()), step as real))).terms, trip)
    } else {
        p_mul(shown, trip)
    }
}

/// `0^j + 1^j + … + (n−1)^j`.
pub open spec fn power_sum(j: nat, n: nat) -> real
    decreases n,
{
    if n == 0 {
        0real
    } else {
        power_sum(j, (n - 1) as nat) + real_pow((n - 1) as real, j)
    }
}

/// The first `m` terms of the expansion of `(x + 1)^n`.
spec fn expansion(n: nat, x: real, m: nat) -> real
    decreases m,
{
    if m == 0 {
        0real
    } else {
        expansion(n, x, (m - 1) as nat) + binom(n, (m - 1) as nat) as real * real_pow(x, (m - 1) as nat)
    }
}

/// The first `m` terms of the identity that gives the power sums.
spec fn identity(j: nat, n: nat, m: nat) -> real
    decreases m,
{
    if m == 0 {
        0real
    } else {
        identity(j, n, (m - 1) as nat) + binom(j + 1, (m - 1) as nat) as real * power_sum((m - 1) as nat, n)
    }
}

pub proof fn binom_edges(n: nat)
    ensures
        forall|k: nat| k > n ==> #[trigger] binom(n, k) == 0,
        binom(n, n) == 1,
        n > 0 ==> binom(n, (n - 1) as nat) == n,
    decreases n,
{
    if n > 0 {
        binom_edges((n - 1) as nat);
        assert forall|k: nat| k > n implies #[trigger] binom(n, k) == 0 by {
            assert(binom((n - 1) as nat, (k - 1) as nat) == 0);
            assert(binom((n - 1) as nat, k) == 0);
        }
        assert(binom((n - 1) as nat, n) == 0);
    }
}

proof fn expansion_step(n: nat, x: real, m: nat)
    ensures
        expansion(n + 1, x, m + 1) == x * expansion(n, x, m) + expansion(n, x, m + 1),
    decreases m,
{
    if m == 0 {
        reveal_with_fuel(expansion, 2);
        reveal_with_fuel(binom, 2);
        assert(x * 0real == 0real) by (nonlinear_arith);
    } else {
        expansion_step(n, x, (m - 1) as nat);
        let (a, b) = (binom(n, (m - 1) as nat) as real, binom(n, m) as real);
        assert(binom(n + 1, m) as real == a + b);
        let p = real_pow(x, (m - 1) as nat);
        let e = expansion(n, x, (m - 1) as nat);
        assert((a + b) * (p * x) == x * (a * p) + b * (p * x)) by (nonlinear_arith);
        assert(x * (e + a * p) == x * e + x * (a * p)) by (nonlinear_arith);
    }
}

proof fn expansion_whole(n: nat, x: real)
    ensures
        expansion(n, x, n + 1) == real_pow(x + 1real, n),
    decreases n,
{
    if n == 0 {
        reveal_with_fuel(expansion, 2);
    } else {
        let k = (n - 1) as nat;
        expansion_whole(k, x);
        expansion_step(k, x, n);
        binom_edges(k);
        assert(binom(k, n) == 0);
        let q = real_pow(x, n);
        assert(0real * q == 0real) by (nonlinear_arith);
        let e = expansion(k, x, n);
        assert(x * e + e == e * (x + 1real)) by (nonlinear_arith);
    }
}

proof fn identity_step(j: nat, n: nat, m: nat)
    ensures
        identity(j, n + 1, m) == identity(j, n, m) + expansion(j + 1, n as real, m),
    decreases m,
{
    if m > 0 {
        let k = (m - 1) as nat;
        identity_step(j, n, k);
        let b = binom(j + 1, k) as real;
        let (s, p) = (power_sum(k, n), real_pow(n as real, k));
        assert(power_sum(k, n + 1) == s + p);
        assert(b * (s + p) == b * s + b * p) by (nonlinear_arith);
    }
}

proof fn identity_holds(j: nat, n: nat)
    ensures
        identity(j, n, j + 1) == real_pow(n as real, j + 1),
    decreases n,
{
    if n == 0 {
        identity_zero(j, j + 1);
        let x = real_pow(0real, j);
        assert(x * 0real == 0real) by (nonlinear_arith);
    } else {
        let k = (n - 1) as nat;
        identity_holds(j, k);
        identity_step(j, k, j + 1);
        expansion_whole(j + 1, k as real);
        binom_edges(j + 1);
        let q = real_pow(k as real, j + 1);
        assert(1real * q == q) by (nonlinear_arith);
        assert(k as real + 1real == n as real);
    }
}

proof fn identity_zero(j: nat, m: nat)
    ensures
        identity(j, 0, m) == 0real,
    decreases m,
{
    if m > 0 {
        identity_zero(j, (m - 1) as nat);
        let b = binom(j + 1, (m - 1) as nat) as real;
        assert(b * 0real == 0real) by (nonlinear_arith);
    }
}

pub proof fn p_power_sum_wf(j: nat, n: PolyV)
    requires
        p_wf(n),
    ensures
        p_wf(p_power_sum(j, n)),
    decreases j, j + 1,
{
    p_power_rest_wf(j, n, j);
    p_scale_wf(p_power_rest(j, n, j), ratio(1, j as int + 1));
}

proof fn p_power_rest_wf(j: nat, n: PolyV, i: nat)
    requires
        p_wf(n),
    ensures
        p_wf(p_power_rest(j, n, i)),
    decreases j, i,
{
    if i == 0 || i > j {
        p_pow_wf(n, j + 1);
    } else {
        let k = (i - 1) as nat;
        p_power_rest_wf(j, n, k);
        p_power_sum_wf(k, n);
        p_scale_wf(p_power_sum(k, n), binom(j + 1, k) as real);
        p_sub_wf(p_power_rest(j, n, k), p_scale(p_power_sum(k, n), binom(j + 1, k) as real));
    }
}

/// Faulhaber's formula: wherever the polynomial `n` is worth a natural number `x`, the polynomial
/// of the power sum is worth `0^j + 1^j + … + (x−1)^j`.
pub proof fn power_sum_value(j: nat, n: PolyV, w: spec_fn(MonoV) -> real, x: nat)
    requires
        p_wf(n),
        valuation(w),
        p_value(n, w) == x as real,
    ensures
        p_value(p_power_sum(j, n), w) == power_sum(j, x),
    decreases j, j + 1,
{
    power_rest_value(j, n, w, x, j);
    scale_value(p_power_rest(j, n, j), ratio(1, j as int + 1), w);
    identity_holds(j, x);
    binom_edges(j + 1);
    let s = power_sum(j, x);
    let d = (j + 1) as real;
    reveal(ratio);
    assert((1real / d) * (d * s) == s) by (nonlinear_arith)
        requires
            d > 0real,
    ;
}

proof fn power_rest_value(j: nat, n: PolyV, w: spec_fn(MonoV) -> real, x: nat, i: nat)
    requires
        p_wf(n),
        valuation(w),
        p_value(n, w) == x as real,
        i <= j,
    ensures
        p_value(p_power_rest(j, n, i), w) == real_pow(x as real, j + 1) - identity(j, x, i),
    decreases j, i,
{
    if i == 0 {
        power_value(n, j + 1, w);
    } else {
        let k = (i - 1) as nat;
        power_rest_value(j, n, w, x, k);
        power_sum_value(k, n, w, x);
        let b = binom(j + 1, k) as real;
        scale_value(p_power_sum(k, n), b, w);
        difference_value(p_power_rest(j, n, k), p_scale(p_power_sum(k, n), b), w);
    }
}

/// Wherever one polynomial is worth one more than another, whatever that is worth, its power sum is
/// worth one more power.
pub proof fn power_sum_step(j: nat, n: PolyV, more: PolyV, w: spec_fn(MonoV) -> real)
    requires
        p_wf(n),
        p_wf(more),
        valuation(w),
        p_value(more, w) == p_value(n, w) + 1real,
    ensures
        p_value(p_power_sum(j, more), w) == p_value(p_power_sum(j, n), w) + real_pow(p_value(n, w), j),
    decreases j, j + 1,
{
    let x = p_value(n, w);
    power_rest_step(j, n, more, w, j);
    scale_value(p_power_rest(j, n, j), ratio(1, j as int + 1), w);
    scale_value(p_power_rest(j, more, j), ratio(1, j as int + 1), w);
    expansion_whole(j + 1, x);
    binom_edges(j + 1);
    let (p, q) = (real_pow(x, j), real_pow(x, j + 1));
    let d = (j + 1) as real;
    assert(expansion(j + 1, x, j + 2) == expansion(j + 1, x, j + 1) + binom(j + 1, j + 1) as real * q);
    assert(expansion(j + 1, x, j + 1) == expansion(j + 1, x, j) + binom(j + 1, j) as real * p);
    assert(1real * q == q) by (nonlinear_arith);
    let a = p_value(p_power_rest(j, n, j), w);
    reveal(ratio);
    assert((1real / d) * (a + d * p) == (1real / d) * a + p) by (nonlinear_arith)
        requires
            d > 0real,
    ;
}

proof fn power_rest_step(j: nat, n: PolyV, more: PolyV, w: spec_fn(MonoV) -> real, i: nat)
    requires
        p_wf(n),
        p_wf(more),
        valuation(w),
        p_value(more, w) == p_value(n, w) + 1real,
        i <= j,
    ensures
        p_value(p_power_rest(j, more, i), w) == p_value(p_power_rest(j, n, i), w) + real_pow(
            p_value(n, w) + 1real,
            j + 1,
        ) - real_pow(p_value(n, w), j + 1) - expansion(j + 1, p_value(n, w), i),
    decreases j, i,
{
    if i == 0 {
        power_value(n, j + 1, w);
        power_value(more, j + 1, w);
    } else {
        let k = (i - 1) as nat;
        power_rest_step(j, n, more, w, k);
        power_sum_step(k, n, more, w);
        let b = binom(j + 1, k) as real;
        scale_value(p_power_sum(k, n), b, w);
        scale_value(p_power_sum(k, more), b, w);
        difference_value(p_power_rest(j, n, k), p_scale(p_power_sum(k, n), b), w);
        difference_value(p_power_rest(j, more, k), p_scale(p_power_sum(k, more), b), w);
        let (s, p) = (p_value(p_power_sum(k, n), w), real_pow(p_value(n, w), k));
        assert(b * (s + p) == b * s + b * p) by (nonlinear_arith);
    }
}

/// One row of Pascal's triangle from the row before it.
fn next_row(row: &Vec<BigNat>, Ghost(n): Ghost<nat>) -> (r: Vec<BigNat>)
    requires
        row@.len() == n + 1,
        forall|k: int| 0 <= k <= n ==> (#[trigger] row@[k])@ == binom(n, k as nat),
    ensures
        r@.len() == n + 2,
        forall|k: int| 0 <= k <= n + 1 ==> (#[trigger] r@[k])@ == binom(n + 1, k as nat),
{
    let mut out: Vec<BigNat> = Vec::new();
    out.push(BigNat::from_u128(1));
    let mut i: usize = 1;
    while i < row.len()
        invariant
            1 <= i <= row@.len(),
            row@.len() == n + 1,
            out@.len() == i,
            forall|k: int| 0 <= k <= n ==> (#[trigger] row@[k])@ == binom(n, k as nat),
            forall|k: int| 0 <= k < i ==> (#[trigger] out@[k])@ == binom(n + 1, k as nat),
        decreases row@.len() - i,
    {
        out.push(row[i - 1].plus(&row[i]));
        i += 1;
    }
    out.push(BigNat::from_u128(1));
    proof {
        binom_edges(n + 1);
    }
    out
}

impl Poly {
    /// `Σ_{k=0}^{n−1} k^j` as a polynomial in `n`: Faulhaber's formula, by the identity
    /// `n^{j+1} = Σ_{i≤j} C(j+1, i)·S_i(n)`, which gives `S_j` from the `S_i` below it. Exact
    /// rationals throughout.
    pub fn faulhaber(j: usize, n: &Poly) -> (r: Poly)
        ensures
            r@ == p_power_sum(j as nat, n@),
    {
        Poly::faulhaber_of(&BigNat::from_u128(j as u128), n)
    }

    /// The same for an exponent of any size.
    #[verifier::loop_isolation(false)]
    fn faulhaber_of(j: &BigNat, n: &Poly) -> (r: Poly)
        ensures
            r@ == p_power_sum(j@, n@),
    {
        let one = BigNat::from_u128(1);
        // S_0 … S_{k−1}, and the binomials of k + 1
        let mut s: Vec<Poly> = Vec::new();
        let mut k = BigNat::zero();
        let mut row: Vec<BigNat> = Vec::new();
        row.push(BigNat::from_u128(1));
        row.push(BigNat::from_u128(1));
        let mut power = n.pow(1);
        proof {
            reveal_with_fuel(binom, 2);
            reveal_with_fuel(p_pow, 2);
            assert(binom(1, 0) == 1);
            assert(binom(1, 1) == 1);
        }
        loop
            invariant
                k@ <= j@,
                s@.len() == k@,
                forall|i: int| 0 <= i < s@.len() ==> (#[trigger] s@[i])@ == p_power_sum(i as nat, n@),
                power@ == p_pow(n@, k@ + 1),
                row@.len() == k@ + 2,
                forall|i: int| 0 <= i <= k@ + 1 ==> (#[trigger] row@[i])@ == binom(k@ + 1, i as nat),
            decreases j@ - k@,
        {
            let mut acc = power.copy();
            let mut i: usize = 0;
            while i < s.len()
                invariant
                    i <= s@.len(),
                    acc@ == p_power_rest(k@, n@, i as nat),
                decreases s@.len() - i,
            {
                let c = Rat::quotient(&BigInt::from_nat(row[i].copy()), &one);
                proof {
                    crate::cost::rat::ratio_one(row@[i as int]@ as int);
                }
                acc = acc.sub(&s[i].scale(&c));
                i += 1;
            }
            let next = k.plus(&one);
            let sum = acc.scale(&Rat::quotient(&BigInt::from_nat(one.copy()), &next));
            if k.side(j) == Side::Same {
                return sum;
            }
            s.push(sum);
            row = next_row(&row, Ghost((k@ + 1) as nat));
            power = power.mul(n);
            k = next;
        }
    }

    /// `Σ` of this polynomial over `atom = lo, lo+step, …` for `trip` values: substitute
    /// `atom := lo + step·k`, then sum each `k^j` with Faulhaber. Exact when every power of the
    /// atom is a nonnegative integer, which is all the calculus produces. A polynomial that does
    /// not mention the atom sums to itself times `trip`. An unknown callee's cost cannot be summed
    /// over one of its arguments: that argument becomes `_`, and the term the most any iteration's
    /// call costs.
    #[verifier::loop_isolation(false)]
    pub fn sum_over(&self, atom: usize, lo: &Poly, step: i128, trip: &Poly) -> (r: Poly)
        ensures
            r@ == p_sum_over(self@, atom as int, lo@, step as int, trip@),
    {
        let test = |p: &Poly| -> (b: bool)
            ensures
                b == p_mentions(p@, atom as int),
            { p.mentions(atom) };
        assert(answers(test, mentioning(atom as int)));
        let shown = self.hide_args(test);
        if !shown.mentions(atom) {
            return shown.mul(trip);
        }
        let k: usize = usize::MAX / 2;
        let counter_atom = Atom::Var(k);
        proof {
            atom_view_is(counter_atom);
        }
        let place = lo.add(&Poly::var(k).scale(&Rat::integer(step)));
        let shifted = shown.subst(atom, &place);
        let ghost t = shifted@.terms;
        let mut out = Poly::zero();
        let mut i: usize = 0;
        proof {
            assert(t.take(0) =~= Seq::empty());
        }
        while i < shifted.len()
            invariant
                i <= t.len(),
                out@ == terms_sum(t.take(i as int), trip@),
            decreases t.len() - i,
        {
            proof {
                assert(t.take(i + 1).drop_last() =~= t.take(i as int));
            }
            let m = shifted.mono_at(i);
            let e = m.exponent(&counter_atom).numer();
            let j = if e.is_negative() {
                BigNat::zero()
            } else {
                e.magnitude()
            };
            let rest = m.copy().without(&counter_atom);
            let term = Poly::term(rest, shifted.coeff_at(i).copy());
            out = out.add(&term.mul(&Poly::faulhaber_of(&j, trip)));
            i += 1;
        }
        proof {
            assert(t.take(i as int) =~= t);
        }
        out
    }
}

} // verus!
