//! What the total of a recurrence that divides its measure is: the charge now, and the totals of
//! the calls it makes.

use vstd::prelude::*;
use crate::cost::algebra::{
    difference_value, m_atom, m_atom_wf, m_one, m_wf, p_add, p_add_wf, p_atom, p_mul, p_pow, p_pow_wf, p_rat,
    p_rat_wf, p_scale, p_scale_wf, p_sub, p_sub_wf, p_term, p_term_wf, p_value, p_wf, power_value, product_value,
    real_pow, scale_value, sum_value, term_value, valuation,
};
use crate::cost::assoc::{
    bump, bump_value, bump_weigh, canonical_unique, entry_found, erase, erase_sorted, value, weigh,
};
use crate::cost::degrees::{counts, degree_weighs};
use crate::cost::forms::{degree_over, p_degree_in, terms_degree_in};
use crate::cost::laws::Weight;
use crate::cost::model::{AtomV, MonoV, PolyV};
use crate::cost::rat::{num, whole, whole_parts};
use crate::cost::recur::{
    exact_log, levels_per_bit, lifted, log_thousandths, odd_power_reach, poly_total, term_total, terms_total, RuleV,
    ShrinkV,
};
use crate::cost::root::int_pow;
use crate::cost::subst::{count_of, p_vars};
use crate::cost::unrolling::{natural_is, taken_out};

verus! {

// ---- a place, and the place after a call ----

/// A product of sizes and of the machine's numbers, without logarithms and unknown costs.
pub open spec fn plain(m: MonoV) -> bool {
    forall|i: int| 0 <= i < m.factors.len() ==> !((#[trigger] m.factors[i]).0 is Log || m.factors[i].0 is Opaque)
}

/// The atom is one of the variables.
pub open spec fn among(a: AtomV, vars: Seq<int>) -> bool {
    match a {
        AtomV::Var(i) => vars.contains(i),
        _ => false,
    }
}

/// Every power of the variables in the product is natural.
pub open spec fn natural_powers(m: MonoV, vars: Seq<int>) -> bool {
    forall|i: int|
        0 <= i < m.factors.len() && among((#[trigger] m.factors[i]).0, vars) ==> whole(m.factors[i].1) && m.factors[i].1
            >= 0real
}

pub open spec fn free_of_all(m: MonoV, vars: Seq<int>) -> bool {
    forall|i: int| 0 <= i < m.factors.len() ==> !among((#[trigger] m.factors[i]).0, vars)
}

/// `after` is the place `w` with the variables divided by `b`, and all else as it was.
pub open spec fn divided(w: Weight, after: Weight, vars: Seq<int>, b: real) -> bool {
    &&& valuation(w)
    &&& valuation(after)
    &&& forall|i: int|
        vars.contains(i) ==> #[trigger] w(m_atom(AtomV::Var(i))) == b * after(m_atom(AtomV::Var(i)))
    &&& forall|m: MonoV| m_wf(m) && plain(m) && free_of_all(m, vars) ==> #[trigger] w(m) == after(m)
}

proof fn free_degree(f: Seq<(AtomV, real)>, vars: Seq<int>)
    requires
        forall|i: int| 0 <= i < f.len() ==> !among((#[trigger] f[i]).0, vars),
    ensures
        degree_over(f, vars) == 0real,
    decreases f.len(),
{
    if f.len() > 0 {
        assert(f.last() == f[f.len() - 1]);
        assert forall|i: int| 0 <= i < f.drop_last().len() implies !among((#[trigger] f.drop_last()[i]).0, vars) by {
            assert(f.drop_last()[i] == f[i]);
        }
        free_degree(f.drop_last(), vars);
    }
}

pub proof fn real_pow_adds(x: real, a: nat, b: nat)
    ensures
        real_pow(x, a + b) == real_pow(x, a) * real_pow(x, b),
    decreases b,
{
    if b == 0 {
        assert(real_pow(x, a) * 1real == real_pow(x, a)) by (nonlinear_arith);
    } else {
        real_pow_adds(x, a, (b - 1) as nat);
        assert((a + b - 1) as nat == a + (b - 1) as nat);
        let (p, q) = (real_pow(x, a), real_pow(x, (b - 1) as nat));
        assert((p * q) * x == p * (q * x)) by (nonlinear_arith);
    }
}

pub proof fn real_pow_times(x: real, y: real, k: nat)
    ensures
        real_pow(x * y, k) == real_pow(x, k) * real_pow(y, k),
    decreases k,
{
    if k > 0 {
        real_pow_times(x, y, (k - 1) as nat);
        let (p, q) = (real_pow(x, (k - 1) as nat), real_pow(y, (k - 1) as nat));
        assert((p * q) * (x * y) == (p * x) * (q * y)) by (nonlinear_arith);
    }
}

/// An erased factor is one factor less, and the others are as they were.
proof fn without(m: MonoV, i: int)
    requires
        m_wf(m),
        0 <= i < m.factors.len(),
    ensures
        ({
            let r = MonoV { factors: erase(m.factors, m.factors[i].0) };
            &&& m_wf(r)
            &&& r.factors == m.factors.remove(i)
            &&& value(m.factors, m.factors[i].0) == m.factors[i].1
        }),
{
    entry_found(m.factors, i);
    erase_sorted(m.factors, m.factors[i].0);
    assert(erase(m.factors, m.factors[i].0) =~= m.factors.remove(i));
}

proof fn degree_without(m: MonoV, x: AtomV, vars: Seq<int>)
    requires
        m_wf(m),
        among(x, vars),
    ensures
        degree_over(m.factors, vars) == degree_over(erase(m.factors, x), vars) + value(m.factors, x),
{
    let f = erase(m.factors, x);
    let k = value(m.factors, x);
    erase_sorted(m.factors, x);
    bump_value(f, x, k);
    canonical_unique(bump(f, x, k), m.factors);
    bump_weigh(f, x, k, counts(vars));
    degree_weighs(f, vars);
    degree_weighs(m.factors, vars);
    assert(k * 1real == k) by (nonlinear_arith);
}

/// A product of degree `d` in the variables is worth `b^d` times what it is worth after them.
proof fn product_divided(m: MonoV, w: Weight, after: Weight, vars: Seq<int>, b: real) -> (d: nat)
    requires
        m_wf(m),
        plain(m),
        natural_powers(m, vars),
        divided(w, after, vars, b),
    ensures
        degree_over(m.factors, vars) == d as real,
        w(m) == real_pow(b, d) * after(m),
    decreases m.factors.len(),
{
    if free_of_all(m, vars) {
        free_degree(m.factors, vars);
        let x = after(m);
        assert(1real * x == x) by (nonlinear_arith);
        0nat
    } else {
        let i = choose|i: int| 0 <= i < m.factors.len() && among((#[trigger] m.factors[i]).0, vars);
        let x = m.factors[i].0;
        natural_is(m.factors[i].1);
        let k = count_of(m.factors[i].1);
        let r = MonoV { factors: erase(m.factors, x) };
        without(m, i);
        assert forall|j: int| 0 <= j < r.factors.len() implies !((#[trigger] r.factors[j]).0 is Log
            || r.factors[j].0 is Opaque) && (among(r.factors[j].0, vars) ==> whole(r.factors[j].1) && r.factors[j].1 >= 0real) by {
            let l = if j < i { j } else { j + 1 };
            assert(r.factors[j] == m.factors[l]);
        }
        let e = product_divided(r, w, after, vars, b);
        degree_without(m, x, vars);
        taken_out(m, x, w, k);
        taken_out(m, x, after, k);
        let y = after(m_atom(x));
        real_pow_times(b, y, k);
        real_pow_adds(b, e, k);
        let (p, q, z, u) = (real_pow(b, e), real_pow(b, k), after(r), real_pow(y, k));
        assert((p * z) * (q * u) == (p * q) * (z * u)) by (nonlinear_arith);
        (e + k) as nat
    }
}

// ---- logarithms ----

proof fn int_pow_adds(x: int, a: nat, b: nat)
    ensures
        int_pow(x, a + b) == int_pow(x, a) * int_pow(x, b),
    decreases b,
{
    if b == 0 {
        assert(int_pow(x, a) * 1 == int_pow(x, a));
    } else {
        int_pow_adds(x, a, (b - 1) as nat);
        assert((a + b - 1) as nat == a + (b - 1) as nat);
        let (p, q) = (int_pow(x, a), int_pow(x, (b - 1) as nat));
        assert((p * q) * x == p * (q * x)) by (nonlinear_arith);
    }
}

proof fn int_pow_at_least(b: int, k: nat)
    requires
        b >= 1,
    ensures
        int_pow(b, k) >= 1,
    decreases k,
{
    if k > 0 {
        int_pow_at_least(b, (k - 1) as nat);
        let x = int_pow(b, (k - 1) as nat);
        assert(x * b >= 1) by (nonlinear_arith)
            requires
                x >= 1,
                b >= 1,
        ;
    }
}

pub proof fn int_pow_real(x: int, k: nat)
    ensures
        int_pow(x, k) as real == real_pow(x as real, k),
    decreases k,
{
    if k > 0 {
        int_pow_real(x, (k - 1) as nat);
        let p = int_pow(x, (k - 1) as nat);
        assert((p * x) as real == (p as real) * (x as real)) by (nonlinear_arith);
    }
}

proof fn exact_log_from(b: int, a: int, from: nat)
    requires
        exact_log(b, a, int_pow(b, from), from) is Some,
    ensures
        int_pow(b, exact_log(b, a, int_pow(b, from), from)->0) == a,
        exact_log(b, a, int_pow(b, from), from)->0 >= from,
    decreases (if int_pow(b, from) < a { a - int_pow(b, from) } else { 0 }),
{
    let p = int_pow(b, from);
    if p != a {
        assert(int_pow(b, from + 1) == p * b);
        exact_log_from(b, a, from + 1);
    }
}

/// The logarithm that is found is one: `b` to it is `a`.
pub proof fn exact_log_is(b: int, a: int)
    requires
        exact_log(b, a, 1, 0) is Some,
    ensures
        int_pow(b, exact_log(b, a, 1, 0)->0) == a,
{
    exact_log_from(b, a, 0);
}

proof fn reach_from(b: int, x: int, from: nat)
    requires
        b >= 2,
        from > 0 ==> int_pow(b, (2 * from - 1) as nat) < x,
    ensures
        ({
            let r = odd_power_reach(b, x, int_pow(b, 2 * from + 1), from);
            &&& x <= int_pow(b, 2 * r + 1)
            &&& r > 0 ==> int_pow(b, (2 * r - 1) as nat) < x
        }),
    decreases (if int_pow(b, 2 * from + 1) < x { x - int_pow(b, 2 * from + 1) } else { 0 }),
{
    let p = int_pow(b, 2 * from + 1);
    int_pow_at_least(b, 2 * from + 1);
    if p < x {
        assert(p * (b * b) > p) by (nonlinear_arith)
            requires
                p >= 1,
                b >= 2,
        ;
        assert(int_pow(b, 2 * (from + 1) + 1) == p * (b * b)) by {
            int_pow_adds(b, 2 * from + 1, 2);
            reveal_with_fuel(int_pow, 3);
            assert((1 * b) * b == b * b) by (nonlinear_arith);
            assert((2 * from + 1 + 2) as nat == 2 * (from + 1) + 1);
        }
        assert((2 * (from + 1) - 1) as nat == 2 * from + 1);
        reach_from(b, x, from + 1);
    }
}

/// A logarithm in thousandths is the nearest: with `r` of them, `a^2000` lies between `b^(2r−1)` and
/// `b^(2r+1)`.
pub proof fn log_thousandths_nearest(b: int, a: int)
    requires
        b >= 2,
    ensures
        ({
            let r = log_thousandths(b, a);
            &&& int_pow(a, 2000) <= int_pow(b, 2 * r + 1)
            &&& r > 0 ==> int_pow(b, (2 * r - 1) as nat) < int_pow(a, 2000)
        }),
{
    reveal_with_fuel(int_pow, 2);
    assert(int_pow(b, 1) == 1 * b);
    reach_from(b, int_pow(a, 2000), 0);
}

/// The logarithm of the measure falls by that of `b` from one call to the next: by `j` for the `j`-th
/// power of two, else by what makes it one level.
pub open spec fn log_falls(w: Weight, after: Weight, m: PolyV, b: int) -> bool {
    let fall = w(m_atom(AtomV::Log(Box::new(m)))) - after(m_atom(AtomV::Log(Box::new(m))));
    &&& b == 2 ==> fall == 1real
    &&& b == 4 ==> fall == 2real
    &&& b == 8 ==> fall == 3real
    &&& b != 2 && b != 4 && b != 8 ==> fall * ((log_thousandths(b, 2) as real) / 1000real) == 1real
}

// ---- the recurrence ----

/// What a call costs beyond: `m` to the power `log_b a − d` grows by the factor `a / b^d`. That
/// holds of itself where `a` is a power of `b`.
pub open spec fn lift_grows(w: Weight, after: Weight, m: PolyV, vars: Seq<int>, a: int, b: int, d: int) -> bool {
    exact_log(b, a, 1, 0) is None ==> match lifted(m, vars, a, b, d) {
        Ok(k) => p_wf(k) && p_value(k, w) == ((a as real) / (int_pow(b, d as nat) as real)) * p_value(k, after),
        Err(_) => true,
    }
}

proof fn degree_of_term(mono: MonoV, c: real, vars: Seq<int>)
    requires
        c != 0real,
    ensures
        p_degree_in(p_term(mono, c), vars) == degree_over(mono.factors, vars),
{
    let t = p_term(mono, c).terms;
    assert(t.drop_last() =~= Seq::empty());
    reveal_with_fuel(terms_degree_in, 2);
    assert(t.last() == (mono, c));
}

proof fn pow_grows_strictly(b: int, d: nat, j: nat)
    requires
        b >= 2,
        int_pow(b, j) > int_pow(b, d),
    ensures
        j > d,
{
    if j <= d {
        int_pow_adds(b, j, (d - j) as nat);
        int_pow_at_least(b, (d - j) as nat);
        int_pow_at_least(b, j);
        let (p, q) = (int_pow(b, j), int_pow(b, (d - j) as nat));
        assert(p * q >= p) by (nonlinear_arith)
            requires
                p >= 1,
                q >= 1,
        ;
        assert((j + (d - j) as nat) as nat == d);
    }
}

/// Where a level pays as much as the one below it, the level adds one to the levels.
proof fn same_levels(g: PolyV, m: PolyV, b: int, w: Weight, after: Weight, bd: real)
    requires
        p_wf(g),
        p_wf(m),
        valuation(w),
        valuation(after),
        log_falls(w, after, m, b),
        p_value(g, w) == bd * p_value(g, after),
    ensures
        ({
            let t = p_mul(g, p_add(p_scale(p_atom(AtomV::Log(Box::new(m))), levels_per_bit(b)), p_rat(1real)));
            p_value(t, w) == p_value(g, w) + bd * p_value(t, after)
        }),
{
    let x = AtomV::Log(Box::new(m));
    let l = levels_per_bit(b);
    let levels = p_add(p_scale(p_atom(x), l), p_rat(1real));
    m_atom_wf(x);
    p_term_wf(m_atom(x), 1real);
    p_scale_wf(p_atom(x), l);
    p_rat_wf(1real);
    p_add_wf(p_scale(p_atom(x), l), p_rat(1real));
    product_value(g, levels, w);
    product_value(g, levels, after);
    sum_value(p_scale(p_atom(x), l), p_rat(1real), w);
    sum_value(p_scale(p_atom(x), l), p_rat(1real), after);
    scale_value(p_atom(x), l, w);
    scale_value(p_atom(x), l, after);
    term_value(m_atom(x), 1real, w);
    term_value(m_atom(x), 1real, after);
    term_value(m_one(), 1real, w);
    term_value(m_one(), 1real, after);
    let (y, z) = (w(m_atom(x)), after(m_atom(x)));
    assert(l * (1real * y) == l * (1real * z) + 1real) by {
        assert(l * (1real * y) == l * (1real * z) + (y - z) * l) by (nonlinear_arith);
        if b == 4 {
            assert(2real * (1real / 2real) == 1real) by (nonlinear_arith);
        }
        if b == 8 {
            assert(3real * (1real / 3real) == 1real) by (nonlinear_arith);
        }
    }
    let (gw, ga, la) = (p_value(g, w), p_value(g, after), l * (1real * z) + 1real);
    assert(gw * (la + 1real) == gw + bd * (ga * la)) by (nonlinear_arith)
        requires
            gw == bd * ga,
    ;
}

proof fn lifted_grows(m: PolyV, vars: Seq<int>, a: int, b: int, d: nat, w: Weight, after: Weight)
    requires
        p_wf(m),
        b >= 2,
        a > int_pow(b, d),
        lifted(m, vars, a, b, d as int) is Ok,
        valuation(w),
        valuation(after),
        p_value(m, w) == (b as real) * p_value(m, after),
        lift_grows(w, after, m, vars, a, b, d as int),
    ensures
        ({
            let k = lifted(m, vars, a, b, d as int)->Ok_0;
            p_wf(k) && p_value(k, w) == ((a as real) / (int_pow(b, d) as real)) * p_value(k, after)
        }),
{
    match exact_log(b, a, 1, 0) {
        Some(j) => {
            exact_log_is(b, a);
            pow_grows_strictly(b, d, j);
            let e = (j - d) as nat;
            p_pow_wf(m, e);
            power_value(m, e, w);
            power_value(m, e, after);
            let y = p_value(m, after);
            real_pow_times(b as real, y, e);
            int_pow_adds(b, d, e);
            assert((d + e) as nat == j);
            int_pow_real(b, e);
            int_pow_at_least(b, d);
            let (p, q) = (int_pow(b, d), int_pow(b, e));
            let (pr, qr, ar) = (p as real, q as real, a as real);
            assert(ar == pr * qr) by (nonlinear_arith)
                requires
                    a == p * q,
                    pr == p as real,
                    qr == q as real,
                    ar == a as real,
            ;
            assert(ar / pr == qr) by (nonlinear_arith)
                requires
                    ar == pr * qr,
                    pr >= 1real,
            ;
        },
        None => {},
    }
}

/// `T(m) = a·T(m/b) + g(m)`, exactly: the total of one charge at a place is the charge there, and
/// `a` times the total at the place where the variables of the measure are divided by `b`.
pub proof fn divided_charge(mono: MonoV, c: real, m: PolyV, vars: Seq<int>, a: int, b: int, w: Weight, after: Weight)
    requires
        m_wf(mono),
        plain(mono),
        natural_powers(mono, vars),
        c != 0real,
        p_wf(m),
        a >= 1,
        b >= 2,
        divided(w, after, vars, b as real),
        p_value(m, w) == (b as real) * p_value(m, after),
        log_falls(w, after, m, b),
        term_total(p_term(mono, c), m, vars, a, b) is Ok,
        lift_grows(w, after, m, vars, a, b, num(degree_over(mono.factors, vars))),
    ensures
        ({
            let g = p_term(mono, c);
            let t = term_total(g, m, vars, a, b)->Ok_0;
            p_value(t, w) == p_value(g, w) + (a as real) * p_value(t, after)
        }),
{
    let g = p_term(mono, c);
    let t = term_total(g, m, vars, a, b)->Ok_0;
    let d = product_divided(mono, w, after, vars, b as real);
    degree_of_term(mono, c, vars);
    whole_parts(d as int);
    assert(num(d as real) == d);
    let bd = int_pow(b, d);
    int_pow_real(b, d);
    int_pow_at_least(b, d);
    p_term_wf(mono, c);
    term_value(mono, c, w);
    term_value(mono, c, after);
    let (x, y) = (bd as real, after(mono));
    assert(c * (x * y) == x * (c * y)) by (nonlinear_arith);
    let (gw, ga, ar) = (p_value(g, w), p_value(g, after), a as real);
    assert(gw == x * ga);
    if a < bd {
        let q = x / ((bd - a) as real);
        scale_value(g, q, w);
        scale_value(g, q, after);
        let z = (bd - a) as real;
        assert(z == x - ar);
        assert(q * gw == gw + ar * (q * ga)) by (nonlinear_arith)
            requires
                gw == x * ga,
                q == x / z,
                z == x - ar,
                z >= 1real,
        {
            assert(q * z == x);
            assert(q * gw - ar * (q * ga) == (q * (x - ar)) * ga);
        }
    } else if a == bd {
        same_levels(g, m, b, w, after, x);
    } else {
        lifted_grows(m, vars, a, b, d, w, after);
        let k = lifted(m, vars, a, b, d as int)->Ok_0;
        let r = ar / x;
        let top = p_sub(p_scale(k, r), p_rat(1real));
        p_scale_wf(k, r);
        p_rat_wf(1real);
        p_sub_wf(p_scale(k, r), p_rat(1real));
        scale_value(p_mul(g, top), 1real / (r - 1real), w);
        scale_value(p_mul(g, top), 1real / (r - 1real), after);
        product_value(g, top, w);
        product_value(g, top, after);
        difference_value(p_scale(k, r), p_rat(1real), w);
        difference_value(p_scale(k, r), p_rat(1real), after);
        scale_value(k, r, w);
        scale_value(k, r, after);
        term_value(m_one(), 1real, w);
        term_value(m_one(), 1real, after);
        let (kw, ka) = (p_value(k, w), p_value(k, after));
        let s = 1real / (r - 1real);
        assert(r * x == ar && r > 1real) by (nonlinear_arith)
            requires
                r == ar / x,
                x >= 1real,
                ar > x,
        ;
        assert(s * (r - 1real) == 1real) by (nonlinear_arith)
            requires
                s == 1real / (r - 1real),
                r > 1real,
        ;
        assert(s * (gw * (r * kw - 1real)) == gw + ar * (s * (ga * (r * ka - 1real)))) by (nonlinear_arith)
            requires
                gw == x * ga,
                kw == r * ka,
                r * x == ar,
                s * (r - 1real) == 1real,
        {
            assert(ar * (s * (ga * (r * ka - 1real))) == r * (s * (gw * (kw - 1real)))) by {
                assert(ar * (s * (ga * (r * ka - 1real))) == (r * x) * (s * (ga * (kw - 1real))));
                assert((r * x) * (s * (ga * (kw - 1real))) == r * (s * ((x * ga) * (kw - 1real))));
            }
            assert(s * (gw * (r * kw - 1real)) - r * (s * (gw * (kw - 1real))) == (s * (r - 1real)) * gw);
        }
    }
}

/// At a measure of one, where there is no level below, the total is the charge; where a level below
/// would pay less than this one, it is the charge and what all those levels could add.
pub proof fn charge_at_one(mono: MonoV, c: real, m: PolyV, vars: Seq<int>, a: int, b: int, w: Weight, d: nat)
    requires
        m_wf(mono),
        degree_over(mono.factors, vars) == d as real,
        c != 0real,
        p_wf(m),
        a >= 1,
        b >= 2,
        valuation(w),
        p_value(m, w) == 1real,
        w(m_atom(AtomV::Log(Box::new(m)))) == 0real,
        term_total(p_term(mono, c), m, vars, a, b) is Ok,
        exact_log(b, a, 1, 0) is Some,
    ensures
        ({
            let g = p_term(mono, c);
            let t = term_total(g, m, vars, a, b)->Ok_0;
            &&& a >= int_pow(b, d) ==> p_value(t, w) == p_value(g, w)
            &&& a < int_pow(b, d) ==> p_value(t, w) * ((int_pow(b, d) - a) as real) == p_value(g, w) * (int_pow(b, d) as real)
        }),
{
    let g = p_term(mono, c);
    degree_of_term(mono, c, vars);
    whole_parts(d as int);
    let bd = int_pow(b, d);
    int_pow_at_least(b, d);
    p_term_wf(mono, c);
    let (gw, x, ar) = (p_value(g, w), bd as real, a as real);
    if a < bd {
        let z = (bd - a) as real;
        let q = x / z;
        scale_value(g, q, w);
        assert((q * gw) * z == gw * x) by (nonlinear_arith)
            requires
                q == x / z,
                z >= 1real,
        {
            assert(q * z == x);
            assert((q * gw) * z == (q * z) * gw);
        }
    } else if a == bd {
        let y = AtomV::Log(Box::new(m));
        let l = levels_per_bit(b);
        let levels = p_add(p_scale(p_atom(y), l), p_rat(1real));
        m_atom_wf(y);
        p_term_wf(m_atom(y), 1real);
        p_scale_wf(p_atom(y), l);
        p_rat_wf(1real);
        p_add_wf(p_scale(p_atom(y), l), p_rat(1real));
        product_value(g, levels, w);
        sum_value(p_scale(p_atom(y), l), p_rat(1real), w);
        scale_value(p_atom(y), l, w);
        term_value(m_atom(y), 1real, w);
        term_value(m_one(), 1real, w);
        assert(l * (1real * 0real) == 0real) by (nonlinear_arith);
        assert(gw * (0real + 1real * 1real) == gw) by (nonlinear_arith);
    } else {
        exact_log_is(b, a);
        let j = exact_log(b, a, 1, 0)->0;
        let e: nat = if j > d { (j - d) as nat } else { 0 };
        let k = p_pow(m, e);
        p_pow_wf(m, e);
        power_value(m, e, w);
        ones(e);
        let r = ar / x;
        let top = p_sub(p_scale(k, r), p_rat(1real));
        p_scale_wf(k, r);
        p_rat_wf(1real);
        p_sub_wf(p_scale(k, r), p_rat(1real));
        scale_value(p_mul(g, top), 1real / (r - 1real), w);
        product_value(g, top, w);
        difference_value(p_scale(k, r), p_rat(1real), w);
        scale_value(k, r, w);
        term_value(m_one(), 1real, w);
        let s = 1real / (r - 1real);
        assert(r > 1real) by (nonlinear_arith)
            requires
                r == ar / x,
                x >= 1real,
                ar > x,
        ;
        assert(s * (gw * (r * 1real - 1real * 1real)) == gw) by (nonlinear_arith)
            requires
                s == 1real / (r - 1real),
                r > 1real,
        {
            assert(s * (r - 1real) == 1real);
            assert(s * (gw * (r - 1real)) == (s * (r - 1real)) * gw);
        }
    }
}

proof fn ones(k: nat)
    ensures
        real_pow(1real, k) == 1real,
    decreases k,
{
    if k > 0 {
        ones((k - 1) as nat);
    }
}

/// The charges of a body that the law speaks of.
pub open spec fn charges_ok(t: Seq<(MonoV, real)>, m: PolyV, vars: Seq<int>, a: int, b: int, w: Weight, after: Weight) -> bool {
    forall|i: int|
        0 <= i < t.len() ==> {
            &&& m_wf((#[trigger] t[i]).0)
            &&& plain(t[i].0)
            &&& natural_powers(t[i].0, vars)
            &&& t[i].1 != 0real
            &&& lift_grows(w, after, m, vars, a, b, num(degree_over(t[i].0.factors, vars)))
        }
}

proof fn divided_charges(t: Seq<(MonoV, real)>, m: PolyV, vars: Seq<int>, a: int, b: int, w: Weight, after: Weight)
    requires
        charges_ok(t, m, vars, a, b, w, after),
        p_wf(m),
        a >= 1,
        b >= 2,
        divided(w, after, vars, b as real),
        p_value(m, w) == (b as real) * p_value(m, after),
        log_falls(w, after, m, b),
        terms_total(t, m, vars, a, b) is Ok,
    ensures
        ({
            let r = terms_total(t, m, vars, a, b)->Ok_0;
            p_value(r, w) == weigh(t, w) + (a as real) * p_value(r, after)
        }),
    decreases t.len(),
{
    let ar = a as real;
    if t.len() == 0 {
        assert(ar * 0real == 0real) by (nonlinear_arith);
    } else {
        let u = t.drop_last();
        let (mono, c) = t.last();
        assert forall|i: int| 0 <= i < u.len() implies {
            &&& m_wf((#[trigger] u[i]).0)
            &&& plain(u[i].0)
            &&& natural_powers(u[i].0, vars)
            &&& u[i].1 != 0real
            &&& lift_grows(w, after, m, vars, a, b, num(degree_over(u[i].0.factors, vars)))
        } by {
            assert(u[i] == t[i]);
        }
        assert(t.last() == t[t.len() - 1]);
        divided_charges(u, m, vars, a, b, w, after);
        divided_charge(mono, c, m, vars, a, b, w, after);
        term_value(mono, c, w);
        let p = terms_total(u, m, vars, a, b)->Ok_0;
        let q = term_total(p_term(mono, c), m, vars, a, b)->Ok_0;
        sum_value(p, q, w);
        sum_value(p, q, after);
        let (x, y) = (p_value(p, after), p_value(q, after));
        assert(ar * (x + y) == ar * x + ar * y) by (nonlinear_arith);
    }
}

/// `T(m) = a·T(m/b) + f(m)`, exactly, for the whole cost of a body: where every call divides the
/// measure by `b`, and `after` is the place with the measure's variables divided.
pub proof fn divided_recurrence(r: RuleV, f: PolyV, b: int, w: Weight, after: Weight)
    requires
        r.shrink == ShrinkV::Div(b),
        charges_ok(f.terms, r.m, p_vars(r.m), r.a, b, w, after),
        p_wf(r.m),
        r.a >= 1,
        b >= 2,
        divided(w, after, p_vars(r.m), b as real),
        p_value(r.m, w) == (b as real) * p_value(r.m, after),
        log_falls(w, after, r.m, b),
        poly_total(r, f) is Ok,
    ensures
        p_value(poly_total(r, f)->Ok_0, w) == p_value(f, w) + (r.a as real) * p_value(poly_total(r, f)->Ok_0, after),
{
    divided_charges(f.terms, r.m, p_vars(r.m), r.a, b, w, after);
}

} // verus!
