//! A root undoes a power.

use vstd::prelude::*;
use crate::cost::algebra::{
    m_mul, m_mul_wf, m_wf, mul_one, mul_row, mul_rows, p_mul, p_pow, p_rat, p_term, p_term_wf, p_wf, real_pow,
};
use crate::cost::assoc::{canonical_unique, pick, value, weigh, weigh_pick};
use crate::cost::forms::p_root;
use crate::cost::model::{AtomV, MonoV, PolyV};
use crate::cost::rat::{coprime, den, lowest, num, parts_known, ratio, ratio_one, ratio_side, real_product, whole};
use crate::cost::root::{int_pow, int_pow_grows, perfect, perfect_root, power, real_pow_positive, whole_pow};
use crate::cost::size::{m_raise, m_raise_wf};
use crate::num::divides;

verus! {

// ---- numbers ----

/// Two numbers that nothing divides have multiples that differ by one.
proof fn differ_by_one(a: int, b: int) -> (r: (int, int))
    requires
        a >= 0,
        b >= 0,
        coprime(a, b),
    ensures
        a * r.0 + b * r.1 == 1,
    decreases b,
{
    reveal(coprime);
    if b == 0 {
        if a == 0 {
            assert(0 == 2 * 0);
            assert(divides(2, a) && divides(2, b));
            (0, 0)
        } else {
            assert(a == a * 1);
            assert(b == a * 0) by (nonlinear_arith)
                requires
                    b == 0,
            ;
            assert(divides(a, a) && divides(a, b));
            (1, 0)
        }
    } else {
        let (q, m) = (a / b, a % b);
        vstd::arithmetic::div_mod::lemma_fundamental_div_mod(a, b);
        vstd::arithmetic::div_mod::lemma_mod_bound(a, b);
        assert forall|k: int| k > 0 && #[trigger] divides(k, b) && divides(k, m) implies k == 1 by {
            let c = choose|c: int| b == #[trigger] (k * c);
            let d = choose|d: int| m == #[trigger] (k * d);
            assert(a == k * (c * q + d)) by (nonlinear_arith)
                requires
                    a == b * q + m,
                    b == k * c,
                    m == k * d,
            ;
            assert(divides(k, a));
        }
        let (x, y) = differ_by_one(b, m);
        assert(a * y + b * (x - q * y) == 1) by (nonlinear_arith)
            requires
                b * x + m * y == 1,
                a == b * q + m,
        ;
        (y, x - q * y)
    }
}

proof fn coprime_product(a: int, b: int, c: int)
    requires
        a >= 0,
        b >= 0,
        c >= 0,
        coprime(a, c),
        coprime(b, c),
    ensures
        coprime(a * b, c),
{
    let (x, y) = differ_by_one(a, c);
    reveal(coprime);
    assert forall|k: int| k > 0 && #[trigger] divides(k, a * b) && divides(k, c) implies k == 1 by {
        let d = choose|d: int| a * b == #[trigger] (k * d);
        let e = choose|e: int| c == #[trigger] (k * e);
        let (u, v) = (d * x, e * (y * b));
        assert(b * (a * x + c * y) == (a * b) * x + c * (y * b)) by (nonlinear_arith);
        assert(b * 1 == b);
        assert((k * d) * x == k * u) by (nonlinear_arith)
            requires
                u == d * x,
        ;
        assert((k * e) * (y * b) == k * v) by (nonlinear_arith)
            requires
                v == e * (y * b),
        ;
        assert(k * u + k * v == k * (u + v)) by (nonlinear_arith);
        assert(b == k * (u + v));
        assert(divides(k, b));
    }
}

proof fn coprime_swaps(a: int, b: int)
    requires
        coprime(a, b),
    ensures
        coprime(b, a),
{
    reveal(coprime);
    assert forall|k: int| k > 0 && #[trigger] divides(k, b) && divides(k, a) implies k == 1 by {
        assert(divides(k, a));
    }
}

proof fn coprime_one(c: int)
    ensures
        coprime(1, c),
{
    reveal(coprime);
    assert forall|k: int| k > 0 && #[trigger] divides(k, 1) && divides(k, c) implies k == 1 by {
        let d = choose|d: int| 1 == #[trigger] (k * d);
        assert(k == 1) by (nonlinear_arith)
            requires
                k > 0,
                k * d == 1,
        ;
    }
}

proof fn coprime_power(a: int, c: int, k: nat)
    requires
        a >= 0,
        c >= 0,
        coprime(a, c),
    ensures
        int_pow(a, k) >= 0,
        coprime(int_pow(a, k), c),
    decreases k,
{
    if k == 0 {
        coprime_one(c);
    } else {
        coprime_power(a, c, (k - 1) as nat);
        int_pow_grows(a, a, k);
        coprime_product(int_pow(a, (k - 1) as nat), a, c);
    }
}

proof fn power_positive(a: int, k: nat)
    requires
        a > 0,
    ensures
        int_pow(a, k) > 0,
    decreases k,
{
    if k > 0 {
        power_positive(a, (k - 1) as nat);
        let x = int_pow(a, (k - 1) as nat);
        assert(x * a > 0) by (nonlinear_arith)
            requires
                x > 0,
                a > 0,
        ;
    }
}

proof fn power_of_ratio(n: int, d: int, k: nat)
    requires
        d > 0,
    ensures
        real_pow(ratio(n, d), k) == ratio(int_pow(n, k), int_pow(d, k)),
    decreases k,
{
    if k == 0 {
        ratio_one(1);
    } else {
        let j = (k - 1) as nat;
        power_of_ratio(n, d, j);
        power_positive(d, j);
        let (a, b) = (int_pow(n, j), int_pow(d, j));
        reveal(ratio);
        real_product(a, n);
        real_product(b, d);
        let (ar, br, nr, dr) = (a as real, b as real, n as real, d as real);
        assert((ar / br) * (nr / dr) == (ar * nr) / (br * dr)) by (nonlinear_arith)
            requires
                br > 0real,
                dr > 0real,
        ;
    }
}

/// The powers of a fraction in lowest terms are in lowest terms.
proof fn power_lowest(c: real, k: nat)
    requires
        lowest(c, num(c), den(c)),
        num(c) > 0,
    ensures
        lowest(real_pow(c, k), int_pow(num(c), k), int_pow(den(c), k)),
{
    let (n, d) = (num(c), den(c));
    power_of_ratio(n, d, k);
    power_positive(d, k);
    coprime_power(n, d, k);
    coprime_swaps(int_pow(n, k), d);
    coprime_power(d, int_pow(n, k), k);
    coprime_swaps(int_pow(d, k), int_pow(n, k));
}

proof fn root_known(x: int, k: nat)
    requires
        x >= 0,
        k > 0,
    ensures
        perfect(int_pow(x, k), k),
        perfect_root(int_pow(x, k), k) == x,
{
    assert(x >= 0 && int_pow(x, k) == int_pow(x, k));
    let r = perfect_root(int_pow(x, k), k);
    assert(r >= 0 && int_pow(r, k) == int_pow(x, k));
    if r < x {
        int_pow_grows(r, x, k);
    } else if x < r {
        int_pow_grows(x, r, k);
    }
}

/// The root of a power of a rational number is the number.
pub proof fn number_root(c: real, k: nat)
    requires
        lowest(c, num(c), den(c)),
        c > 0real,
        k >= 1,
    ensures
        power(real_pow(c, k), ratio(1, k as int)) == c,
{
    let (n, d) = (num(c), den(c));
    let x = real_pow(c, k);
    let e = ratio(1, k as int);
    ratio_side(n, d, 0, 1);
    ratio_side(0, 1, n, d);
    ratio_one(0);
    assert(0 * d == 0) by (nonlinear_arith);
    assert(n > 0);
    power_lowest(c, k);
    parts_known(x, int_pow(n, k), int_pow(d, k));
    coprime_one(k as int);
    parts_known(e, 1, k as int);
    root_known(n, k);
    root_known(d, k);
    reveal_with_fuel(real_pow, 2);
    assert(1real * c == c) by (nonlinear_arith);
    assert(1real * x == x) by (nonlinear_arith);
    if whole(e) {
        let j = choose|j: int| e == #[trigger] ratio(j, 1);
        ratio_side(1, k as int, j, 1);
        assert(k == 1) by (nonlinear_arith)
            requires
                1 * 1 == j * k,
                k >= 1,
        ;
        assert(whole_pow(x, 1) == real_pow(x, 1));
    } else {
        assert(whole_pow(c, 1) == real_pow(c, 1));
    }
}

// ---- single terms ----

proof fn raised_exponent(m: MonoV, k: real, x: AtomV)
    requires
        m_wf(m),
        k != 0real,
    ensures
        m_wf(m_raise(m, k)),
        value(m_raise(m, k).factors, x) == value(m.factors, x) * k,
{
    m_raise_wf(m, k);
    weigh_pick(m.factors, x);
    weigh_pick(m_raise(m, k).factors, x);
    raised_weight(m.factors, k, pick(x));
}

proof fn raised_weight(f: Seq<(AtomV, real)>, k: real, w: spec_fn(AtomV) -> real)
    ensures
        weigh(m_raise(MonoV { factors: f }, k).factors, w) == weigh(f, w) * k,
    decreases f.len(),
{
    let g = m_raise(MonoV { factors: f }, k).factors;
    if f.len() == 0 {
        assert(0real * k == 0real) by (nonlinear_arith);
    } else {
        let u = f.drop_last();
        raised_weight(u, k, w);
        assert(g.drop_last() =~= m_raise(MonoV { factors: u }, k).factors);
        let (a, e, b) = (weigh(u, w), f.last().1, w(f.last().0));
        assert(a * k + (e * k) * b == (a + e * b) * k) by (nonlinear_arith);
    }
}

pub proof fn terms_product(a: MonoV, x: real, b: MonoV, y: real)
    requires
        x != 0real,
        y != 0real,
    ensures
        p_mul(p_term(a, x), p_term(b, y)) == p_term(m_mul(a, b), x * y),
{
    let (s, t) = (p_term(a, x).terms, p_term(b, y).terms);
    assert(x * y != 0real) by (nonlinear_arith)
        requires
            x != 0real,
            y != 0real,
    ;
    assert(s.drop_last() =~= Seq::empty());
    assert(t.drop_last() =~= Seq::empty());
    reveal_with_fuel(mul_rows, 2);
    reveal_with_fuel(mul_row, 2);
    assert(p_mul(p_term(a, x), p_term(b, y)).terms =~= seq![(m_mul(a, b), x * y)]);
}

proof fn one_more(m: MonoV, j: nat)
    requires
        m_wf(m),
        j >= 1,
    ensures
        m_mul(m_raise(m, j as real), m) == m_raise(m, (j + 1) as real),
{
    let (a, b) = (m_raise(m, j as real), m_raise(m, (j + 1) as real));
    m_raise_wf(m, j as real);
    m_raise_wf(m, (j + 1) as real);
    m_mul_wf(a, m);
    assert forall|x: AtomV| #[trigger] value(m_mul(a, m).factors, x) == value(b.factors, x) by {
        raised_exponent(m, j as real, x);
        raised_exponent(m, (j + 1) as real, x);
        let (e, r) = (value(m.factors, x), j as real);
        assert(e * r + e == e * (r + 1real)) by (nonlinear_arith);
    }
    canonical_unique(m_mul(a, m).factors, b.factors);
}

proof fn raise_once(m: MonoV)
    ensures
        m_raise(m, 1real) == m,
{
    assert forall|i: int| 0 <= i < m.factors.len() implies #[trigger] m_raise(m, 1real).factors[i] == m.factors[i] by {
        let e = m.factors[i].1;
        assert(e * 1real == e) by (nonlinear_arith);
    }
    assert(m_raise(m, 1real).factors =~= m.factors);
}

proof fn term_power(m: MonoV, c: real, k: nat)
    requires
        m_wf(m),
        c > 0real,
        k >= 1,
    ensures
        p_pow(p_term(m, c), k) == p_term(m_raise(m, k as real), real_pow(c, k)),
        real_pow(c, k) > 0real,
    decreases k,
{
    let p = p_term(m, c);
    real_pow_positive(c, k);
    if k == 1 {
        p_term_wf(m, c);
        mul_one(p);
        reveal_with_fuel(p_pow, 2);
        reveal_with_fuel(real_pow, 2);
        raise_once(m);
        assert(1real * c == c) by (nonlinear_arith);
        assert(p_pow(p, 1) == p_mul(p_rat(1real), p));
    } else {
        let j = (k - 1) as nat;
        term_power(m, c, j);
        terms_product(m_raise(m, j as real), real_pow(c, j), m, c);
        one_more(m, j);
    }
}

proof fn raise_back(m: MonoV, k: nat)
    requires
        k >= 1,
    ensures
        m_raise(m_raise(m, k as real), ratio(1, k as int)) == m,
{
    let (a, r) = (m_raise(m, k as real), ratio(1, k as int));
    let kr = k as real;
    assert(kr * r == 1real) by {
        reveal(ratio);
        assert(kr * (1real / kr) == 1real) by (nonlinear_arith)
            requires
                kr >= 1real,
        ;
    }
    assert forall|i: int| 0 <= i < m.factors.len() implies #[trigger] m_raise(a, r).factors[i] == m.factors[i] by {
        let e = m.factors[i].1;
        assert((e * kr) * r == e) by (nonlinear_arith)
            requires
                kr * r == 1real,
        ;
    }
    assert(m_raise(a, r).factors =~= m.factors);
}

/// The root of the power of a single positive term is the term.
pub proof fn root_undoes_power(p: PolyV, k: nat)
    requires
        p_wf(p),
        p.terms.len() == 1,
        p.terms[0].1 > 0real,
        lowest(p.terms[0].1, num(p.terms[0].1), den(p.terms[0].1)),
        k >= 1,
    ensures
        p_root(p_pow(p, k), k as int) == Some(p),
{
    let (m, c) = p.terms[0];
    assert(m_wf(p.terms[0].0));
    assert(p.terms =~= p_term(m, c).terms);
    assert(p == p_term(m, c));
    term_power(m, c, k);
    number_root(c, k);
    raise_back(m, k);
}

} // verus!
