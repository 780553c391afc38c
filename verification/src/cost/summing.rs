//! What substitution and summation over a loop are worth.

use vstd::prelude::*;
use crate::cost::algebra::{
    m_atom, m_atom_wf, m_wf, p_add, p_add_wf, p_mul, p_mul_wf, p_pow, p_pow_wf, p_scale, p_scale_wf, p_term,
    p_term_wf, p_value, p_var, p_wf, power_value, product_value, real_pow, sum_value, term_value, valuation,
};
use crate::cost::assoc::{erase, erase_sorted, value, weigh};
use crate::cost::laws::Weight;
use crate::cost::model::{AtomV, MonoV, PolyV};
use crate::cost::subst::{
    count_of, factors_subst, factors_subst_wf, mentioning, p_hide, p_mentions, p_subst, terms_subst,
};
use crate::cost::sums::{
    counted, counter, p_power_sum, p_power_sum_wf, p_sum_over, power_sum, power_sum_step, power_sum_value, terms_sum,
};

verus! {

// ---- substitution ----

/// The weight in which a variable is worth what replaces it.
pub open spec fn replaced(w: Weight, v: int, by: PolyV) -> Weight {
    |m: MonoV|
        w(MonoV { factors: factors_subst(m.factors, v, by) }) * real_pow(
            p_value(by, w),
            count_of(value(m.factors, AtomV::Var(v))),
        )
}

spec fn terms_ok(t: Seq<(MonoV, real)>) -> bool {
    forall|i: int| 0 <= i < t.len() ==> m_wf((#[trigger] t[i]).0)
}

proof fn rest_ok(t: Seq<(MonoV, real)>)
    requires
        terms_ok(t),
        t.len() > 0,
    ensures
        terms_ok(t.drop_last()),
        m_wf(t.last().0),
{
    assert forall|i: int| 0 <= i < t.drop_last().len() implies m_wf((#[trigger] t.drop_last()[i]).0) by {
        assert(m_wf(t[i].0));
    }
    assert(m_wf(t[t.len() - 1].0));
}

proof fn terms_subst_wf(t: Seq<(MonoV, real)>, v: int, by: PolyV)
    requires
        terms_ok(t),
        p_wf(by),
    ensures
        p_wf(terms_subst(t, v, by)),
    decreases t.len(),
{
    if t.len() > 0 {
        rest_ok(t);
        terms_subst_wf(t.drop_last(), v, by);
        let (m, c) = t.last();
        let rest = MonoV { factors: factors_subst(m.factors, v, by) };
        let k = count_of(value(m.factors, AtomV::Var(v)));
        factors_subst_wf(m.factors, v, by);
        p_term_wf(rest, c);
        p_pow_wf(by, k);
        p_mul_wf(p_term(rest, c), p_pow(by, k));
        p_add_wf(terms_subst(t.drop_last(), v, by), p_mul(p_term(rest, c), p_pow(by, k)));
    }
}

/// Replacing a variable keeps polynomials canonical.
pub proof fn subst_wf(p: PolyV, v: int, by: PolyV)
    requires
        p_wf(p),
        p_wf(by),
    ensures
        p_wf(p_subst(p, v, by)),
{
    reveal(p_subst);
    terms_subst_wf(p.terms, v, by);
}

proof fn terms_subst_value(t: Seq<(MonoV, real)>, v: int, by: PolyV, w: Weight)
    requires
        terms_ok(t),
        p_wf(by),
        valuation(w),
    ensures
        p_value(terms_subst(t, v, by), w) == weigh(t, replaced(w, v, by)),
    decreases t.len(),
{
    if t.len() > 0 {
        rest_ok(t);
        terms_subst_value(t.drop_last(), v, by, w);
        let (m, c) = t.last();
        let rest = MonoV { factors: factors_subst(m.factors, v, by) };
        let k = count_of(value(m.factors, AtomV::Var(v)));
        factors_subst_wf(m.factors, v, by);
        p_term_wf(rest, c);
        p_pow_wf(by, k);
        sum_value(terms_subst(t.drop_last(), v, by), p_mul(p_term(rest, c), p_pow(by, k)), w);
        product_value(p_term(rest, c), p_pow(by, k), w);
        term_value(rest, c, w);
        power_value(by, k, w);
        let (x, y) = (w(rest), real_pow(p_value(by, w), k));
        assert((c * x) * y == c * (x * y)) by (nonlinear_arith);
    }
}

/// Replacing a variable gives the value with the variable worth what replaces it.
pub proof fn subst_value(p: PolyV, v: int, by: PolyV, w: Weight)
    requires
        p_wf(p),
        p_wf(by),
        valuation(w),
    ensures
        p_value(p_subst(p, v, by), w) == p_value(p, replaced(w, v, by)),
{
    reveal(p_subst);
    terms_subst_value(p.terms, v, by, w);
}

// ---- summation ----

/// The weight in which the variable that counts iterations is worth a number.
pub open spec fn at_turn(w: Weight, x: real) -> Weight {
    |m: MonoV|
        w(MonoV { factors: erase(m.factors, AtomV::Var(counter())) }) * real_pow(
            x,
            counted(value(m.factors, AtomV::Var(counter()))),
        )
}

/// The values of `p` at the first `n` counts, summed.
pub open spec fn total(p: PolyV, w: Weight, n: nat) -> real
    decreases n,
{
    if n == 0 {
        0real
    } else {
        total(p, w, (n - 1) as nat) + p_value(p, at_turn(w, (n - 1) as real))
    }
}

proof fn total_splits(t: Seq<(MonoV, real)>, w: Weight, n: nat)
    requires
        t.len() > 0,
    ensures
        ({
            let (m, c) = t.last();
            let rest = MonoV { factors: erase(m.factors, AtomV::Var(counter())) };
            let k = counted(value(m.factors, AtomV::Var(counter())));
            total(PolyV { terms: t }, w, n) == total(PolyV { terms: t.drop_last() }, w, n) + (c * w(rest)) * power_sum(k, n)
        }),
    decreases n,
{
    let (m, c) = t.last();
    let rest = MonoV { factors: erase(m.factors, AtomV::Var(counter())) };
    let k = counted(value(m.factors, AtomV::Var(counter())));
    let a = c * w(rest);
    if n == 0 {
        assert(a * 0real == 0real) by (nonlinear_arith);
    } else {
        total_splits(t, w, (n - 1) as nat);
        let (x, y, z) = (w(rest), real_pow((n - 1) as real, k), power_sum(k, (n - 1) as nat));
        assert(c * (x * y) == (c * x) * y) by (nonlinear_arith);
        assert(a * (z + y) == a * z + a * y) by (nonlinear_arith);
    }
}

proof fn total_nothing(w: Weight, n: nat)
    ensures
        total(PolyV { terms: Seq::empty() }, w, n) == 0real,
    decreases n,
{
    if n > 0 {
        total_nothing(w, (n - 1) as nat);
    }
}

proof fn terms_sum_value(t: Seq<(MonoV, real)>, trip: PolyV, w: Weight, n: nat)
    requires
        terms_ok(t),
        p_wf(trip),
        valuation(w),
        p_value(trip, w) == n as real,
    ensures
        p_value(terms_sum(t, trip), w) == total(PolyV { terms: t }, w, n),
    decreases t.len(),
{
    if t.len() == 0 {
        assert(t =~= Seq::empty());
        total_nothing(w, n);
    } else {
        rest_ok(t);
        terms_sum_value(t.drop_last(), trip, w, n);
        let (m, c) = t.last();
        let rest = MonoV { factors: erase(m.factors, AtomV::Var(counter())) };
        let k = counted(value(m.factors, AtomV::Var(counter())));
        erase_sorted(m.factors, AtomV::Var(counter()));
        p_term_wf(rest, c);
        p_power_sum_wf(k, trip);
        sum_value(terms_sum(t.drop_last(), trip), p_mul(p_term(rest, c), p_power_sum(k, trip)), w);
        product_value(p_term(rest, c), p_power_sum(k, trip), w);
        term_value(rest, c, w);
        power_sum_value(k, trip, w, n);
        total_splits(t, w, n);
    }
}

/// What is summed over a loop: the polynomial with the variable at its value in the counted
/// iteration.
pub open spec fn per_count(p: PolyV, v: int, lo: PolyV, step: int) -> PolyV {
    p_subst(p_hide(p, mentioning(v)), v, p_add(lo, p_scale(p_var(counter()), step as real)))
}

/// The sum over a loop that runs `n` times is the values in its iterations, summed: exact, not
/// bounded.
pub proof fn sum_over_value(p: PolyV, v: int, lo: PolyV, step: int, trip: PolyV, w: Weight, n: nat)
    requires
        p_wf(p_hide(p, mentioning(v))),
        p_wf(lo),
        p_wf(trip),
        valuation(w),
        p_value(trip, w) == n as real,
        p_mentions(p_hide(p, mentioning(v)), v),
    ensures
        p_value(p_sum_over(p, v, lo, step, trip), w) == total(per_count(p, v, lo, step), w, n),
{
    let q = per_count(p, v, lo, step);
    m_atom_wf(AtomV::Var(counter()));
    p_term_wf(m_atom(AtomV::Var(counter())), 1real);
    p_scale_wf(p_var(counter()), step as real);
    p_add_wf(lo, p_scale(p_var(counter()), step as real));
    subst_wf(p_hide(p, mentioning(v)), v, p_add(lo, p_scale(p_var(counter()), step as real)));
    terms_sum_value(q.terms, trip, w, n);
    assert(PolyV { terms: q.terms } == q);
}

proof fn terms_sum_step(t: Seq<(MonoV, real)>, trip: PolyV, more: PolyV, w: Weight)
    requires
        terms_ok(t),
        p_wf(trip),
        p_wf(more),
        valuation(w),
        p_value(more, w) == p_value(trip, w) + 1real,
    ensures
        p_value(terms_sum(t, more), w) == p_value(terms_sum(t, trip), w) + weigh(t, at_turn(w, p_value(trip, w))),
    decreases t.len(),
{
    if t.len() > 0 {
        rest_ok(t);
        let u = t.drop_last();
        terms_sum_step(u, trip, more, w);
        let (m, c) = t.last();
        let rest = MonoV { factors: erase(m.factors, AtomV::Var(counter())) };
        let k = counted(value(m.factors, AtomV::Var(counter())));
        erase_sorted(m.factors, AtomV::Var(counter()));
        p_term_wf(rest, c);
        p_power_sum_wf(k, trip);
        p_power_sum_wf(k, more);
        sum_value(terms_sum(u, trip), p_mul(p_term(rest, c), p_power_sum(k, trip)), w);
        sum_value(terms_sum(u, more), p_mul(p_term(rest, c), p_power_sum(k, more)), w);
        product_value(p_term(rest, c), p_power_sum(k, trip), w);
        product_value(p_term(rest, c), p_power_sum(k, more), w);
        term_value(rest, c, w);
        power_sum_step(k, trip, more, w);
        let (a, s, p, y) = (
            c * w(rest),
            p_value(p_power_sum(k, trip), w),
            real_pow(p_value(trip, w), k),
            w(rest),
        );
        assert(a * (s + p) == a * s + a * p) by (nonlinear_arith);
        assert((c * y) * p == c * (y * p)) by (nonlinear_arith);
    }
}

/// One more trip adds what is summed at that turn, whatever the trips are worth.
pub proof fn sum_over_step(p: PolyV, v: int, lo: PolyV, step: int, trip: PolyV, more: PolyV, w: Weight)
    requires
        p_wf(p_hide(p, mentioning(v))),
        p_wf(lo),
        p_wf(trip),
        p_wf(more),
        valuation(w),
        p_value(more, w) == p_value(trip, w) + 1real,
    ensures
        p_value(p_sum_over(p, v, lo, step, more), w) == p_value(p_sum_over(p, v, lo, step, trip), w) + (
        if p_mentions(p_hide(p, mentioning(v)), v) {
            p_value(per_count(p, v, lo, step), at_turn(w, p_value(trip, w)))
        } else {
            p_value(p_hide(p, mentioning(v)), w)
        }),
{
    let shown = p_hide(p, mentioning(v));
    if p_mentions(shown, v) {
        let q = per_count(p, v, lo, step);
        m_atom_wf(AtomV::Var(counter()));
        p_term_wf(m_atom(AtomV::Var(counter())), 1real);
        p_scale_wf(p_var(counter()), step as real);
        p_add_wf(lo, p_scale(p_var(counter()), step as real));
        subst_wf(shown, v, p_add(lo, p_scale(p_var(counter()), step as real)));
        terms_sum_step(q.terms, trip, more, w);
    } else {
        product_value(shown, trip, w);
        product_value(shown, more, w);
        let (a, x) = (p_value(shown, w), p_value(trip, w));
        assert(a * (x + 1real) == a * x + a) by (nonlinear_arith);
    }
}

/// What does not depend on a loop that runs `n` times is paid `n` times.
pub proof fn sum_over_steady(p: PolyV, v: int, lo: PolyV, step: int, trip: PolyV, w: Weight, n: nat)
    requires
        p_wf(p_hide(p, mentioning(v))),
        p_wf(trip),
        valuation(w),
        p_value(trip, w) == n as real,
        !p_mentions(p_hide(p, mentioning(v)), v),
    ensures
        p_value(p_sum_over(p, v, lo, step, trip), w) == p_value(p_hide(p, mentioning(v)), w) * (n as real),
{
    product_value(p_hide(p, mentioning(v)), trip, w);
}

} // verus!
