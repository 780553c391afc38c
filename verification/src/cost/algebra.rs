//! The ring of polynomials: sums, products and powers of cost polynomials as
//! values, and the laws that hold of them.

use vstd::prelude::*;
use crate::cost::assoc::{
    bump, bump_value, bump_weigh, canonical, canonical_unique, merge, merge_value, merge_weigh, value, weigh,
    weigh_one, weigh_unique,
};
use crate::cost::model::{AtomV, MonoV, PolyV};

verus! {

/// The empty product.
pub open spec fn m_one() -> MonoV {
    MonoV { factors: Seq::empty() }
}

pub open spec fn m_atom(a: AtomV) -> MonoV {
    MonoV { factors: seq![(a, 1real)] }
}

/// The product of two monomials: exponents add, and an atom whose exponents
/// cancel goes away.
pub open spec fn m_mul(a: MonoV, b: MonoV) -> MonoV {
    MonoV { factors: merge(a.factors, b.factors) }
}

pub open spec fn p_zero() -> PolyV {
    PolyV { terms: Seq::empty() }
}

/// The polynomial of one term.
pub open spec fn p_term(m: MonoV, c: real) -> PolyV {
    PolyV { terms: if c == 0real { Seq::empty() } else { seq![(m, c)] } }
}

/// The polynomial without atoms.
pub open spec fn p_rat(c: real) -> PolyV {
    p_term(m_one(), c)
}

pub open spec fn p_atom(a: AtomV) -> PolyV {
    p_term(m_atom(a), 1real)
}

/// The size variable of index `i`.
pub open spec fn p_var(i: int) -> PolyV {
    p_atom(AtomV::Var(i))
}

/// The coefficient of `m`.
pub open spec fn coefficient(p: PolyV, m: MonoV) -> real {
    value(p.terms, m)
}

/// The sum: coefficients add.
pub open spec fn p_add(p: PolyV, q: PolyV) -> PolyV {
    PolyV { terms: merge(p.terms, q.terms) }
}

/// The multiple by a number.
pub open spec fn p_scale(p: PolyV, c: real) -> PolyV {
    if c == 0real {
        p_zero()
    } else {
        PolyV { terms: Seq::new(p.terms.len(), |i: int| (p.terms[i].0, p.terms[i].1 * c)) }
    }
}

pub open spec fn p_sub(p: PolyV, q: PolyV) -> PolyV {
    p_add(p, p_scale(q, -1real))
}

/// `acc` with the product of one term and `t` added, term by term.
pub open spec fn mul_row(acc: Seq<(MonoV, real)>, m: MonoV, c: real, t: Seq<(MonoV, real)>) -> Seq<(MonoV, real)>
    decreases t.len(),
{
    if t.len() == 0 {
        acc
    } else {
        bump(mul_row(acc, m, c, t.drop_last()), m_mul(m, t.last().0), c * t.last().1)
    }
}

pub open spec fn mul_rows(s: Seq<(MonoV, real)>, t: Seq<(MonoV, real)>) -> Seq<(MonoV, real)>
    decreases s.len(),
{
    if s.len() == 0 {
        Seq::empty()
    } else {
        mul_row(mul_rows(s.drop_last(), t), s.last().0, s.last().1, t)
    }
}

/// The product: every term of one times every term of the other.
pub open spec fn p_mul(p: PolyV, q: PolyV) -> PolyV {
    PolyV { terms: mul_rows(p.terms, q.terms) }
}

/// The power to a natural exponent.
pub open spec fn p_pow(p: PolyV, k: nat) -> PolyV
    decreases k,
{
    if k == 0 {
        p_rat(1real)
    } else {
        p_mul(p_pow(p, (k - 1) as nat), p)
    }
}

/// Monomials in canonical form.
pub open spec fn m_wf(m: MonoV) -> bool {
    canonical(m.factors)
}

/// Polynomials in canonical form: monomials ascend, each is canonical itself,
/// and no coefficient is zero.
pub open spec fn p_wf(p: PolyV) -> bool {
    &&& canonical(p.terms)
    &&& forall|i: int| 0 <= i < p.terms.len() ==> m_wf((#[trigger] p.terms[i]).0)
}

/// Every key of `s` is canonical.
pub open spec fn keys_wf(s: Seq<(MonoV, real)>) -> bool {
    forall|i: int| 0 <= i < s.len() ==> m_wf((#[trigger] s[i]).0)
}

// ---- canonical form is kept ----

pub proof fn m_mul_wf(a: MonoV, b: MonoV)
    requires
        m_wf(a),
        m_wf(b),
    ensures
        m_wf(m_mul(a, b)),
        forall|x: AtomV| #[trigger] value(m_mul(a, b).factors, x) == value(a.factors, x) + value(b.factors, x),
{
    merge_value(a.factors, b.factors);
}

pub proof fn m_atom_wf(a: AtomV)
    ensures
        m_wf(m_atom(a)),
        m_wf(m_one()),
{
}

proof fn bump_keys(s: Seq<(MonoV, real)>, m: MonoV, c: real)
    requires
        keys_wf(s),
        m_wf(m),
    ensures
        keys_wf(bump(s, m, c)),
{
    crate::cost::assoc::slot_place(s, m);
}

pub proof fn p_term_wf(m: MonoV, c: real)
    requires
        m_wf(m),
    ensures
        p_wf(p_term(m, c)),
{
}

pub proof fn bump_wf(s: Seq<(MonoV, real)>, m: MonoV, c: real)
    requires
        p_wf((PolyV { terms: s })),
        m_wf(m),
    ensures
        p_wf((PolyV { terms: bump(s, m, c) })),
{
    bump_value(s, m, c);
    assert(keys_wf(s)) by {
        let p = PolyV { terms: s };
        assert forall|i: int| 0 <= i < s.len() implies m_wf((#[trigger] s[i]).0) by {
            assert(m_wf(p.terms[i].0));
        }
    }
    bump_keys(s, m, c);
    let t = bump(s, m, c);
    let q = PolyV { terms: t };
    assert forall|i: int| 0 <= i < q.terms.len() implies m_wf((#[trigger] q.terms[i]).0) by {
        assert(m_wf(t[i].0));
    }
}

proof fn merge_keys(s: Seq<(MonoV, real)>, t: Seq<(MonoV, real)>)
    requires
        keys_wf(s),
        keys_wf(t),
    ensures
        keys_wf(merge(s, t)),
    decreases t.len(),
{
    if t.len() > 0 {
        let u = t.drop_last();
        assert forall|i: int| 0 <= i < u.len() implies m_wf((#[trigger] u[i]).0) by {
            assert(m_wf(t[i].0));
        }
        assert(m_wf(t[t.len() - 1].0));
        merge_keys(s, u);
        bump_keys(merge(s, u), t.last().0, t.last().1);
    }
}

proof fn wf_keys(p: PolyV)
    requires
        p_wf(p),
    ensures
        keys_wf(p.terms),
{
    assert forall|i: int| 0 <= i < p.terms.len() implies m_wf((#[trigger] p.terms[i]).0) by {}
}

/// Sums are canonical, and their coefficients are the sums of the coefficients.
pub proof fn p_add_wf(p: PolyV, q: PolyV)
    requires
        p_wf(p),
        p_wf(q),
    ensures
        p_wf(p_add(p, q)),
        forall|m: MonoV| #[trigger] coefficient(p_add(p, q), m) == coefficient(p, m) + coefficient(q, m),
{
    merge_value(p.terms, q.terms);
    wf_keys(p);
    wf_keys(q);
    merge_keys(p.terms, q.terms);
    let r = p_add(p, q);
    assert forall|i: int| 0 <= i < r.terms.len() implies m_wf((#[trigger] r.terms[i]).0) by {}
    assert forall|m: MonoV| #[trigger] coefficient(p_add(p, q), m) == coefficient(p, m) + coefficient(q, m) by {
        assert(value(merge(p.terms, q.terms), m) == value(p.terms, m) + value(q.terms, m));
    }
}

pub proof fn p_scale_wf(p: PolyV, c: real)
    requires
        p_wf(p),
    ensures
        p_wf(p_scale(p, c)),
{
    let r = p_scale(p, c);
    if c != 0real {
        assert forall|i: int| 0 <= i < r.terms.len() implies m_wf((#[trigger] r.terms[i]).0)
            && r.terms[i].1 != 0real by {
            assert(m_wf(p.terms[i].0));
            let x = p.terms[i].1;
            assert(x * c != 0real) by (nonlinear_arith)
                requires
                    x != 0real,
                    c != 0real,
            ;
        }
        assert forall|i: int, j: int| 0 <= i < j < r.terms.len() implies crate::cost::assoc::Ranked::before(
            (#[trigger] r.terms[i]).0,
            (#[trigger] r.terms[j]).0,
        ) by {
            assert(crate::cost::assoc::Ranked::before(p.terms[i].0, p.terms[j].0));
        }
    }
}

pub proof fn p_sub_wf(p: PolyV, q: PolyV)
    requires
        p_wf(p),
        p_wf(q),
    ensures
        p_wf(p_sub(p, q)),
{
    p_scale_wf(q, -1real);
    p_add_wf(p, p_scale(q, -1real));
}

pub proof fn mul_row_wf(acc: Seq<(MonoV, real)>, m: MonoV, c: real, t: Seq<(MonoV, real)>)
    requires
        p_wf((PolyV { terms: acc })),
        m_wf(m),
        keys_wf(t),
    ensures
        p_wf((PolyV { terms: mul_row(acc, m, c, t) })),
    decreases t.len(),
{
    if t.len() > 0 {
        let u = t.drop_last();
        assert forall|i: int| 0 <= i < u.len() implies m_wf((#[trigger] u[i]).0) by {
            assert(m_wf(t[i].0));
        }
        assert(m_wf(t[t.len() - 1].0));
        mul_row_wf(acc, m, c, u);
        m_mul_wf(m, t.last().0);
        bump_wf(mul_row(acc, m, c, u), m_mul(m, t.last().0), c * t.last().1);
    }
}

pub proof fn mul_rows_wf(s: Seq<(MonoV, real)>, t: Seq<(MonoV, real)>)
    requires
        keys_wf(s),
        keys_wf(t),
    ensures
        p_wf((PolyV { terms: mul_rows(s, t) })),
    decreases s.len(),
{
    if s.len() > 0 {
        let u = s.drop_last();
        assert forall|i: int| 0 <= i < u.len() implies m_wf((#[trigger] u[i]).0) by {
            assert(m_wf(s[i].0));
        }
        assert(m_wf(s[s.len() - 1].0));
        mul_rows_wf(u, t);
        mul_row_wf(mul_rows(u, t), s.last().0, s.last().1, t);
    }
}

pub proof fn p_mul_wf(p: PolyV, q: PolyV)
    requires
        p_wf(p),
        p_wf(q),
    ensures
        p_wf(p_mul(p, q)),
{
    wf_keys(p);
    wf_keys(q);
    mul_rows_wf(p.terms, q.terms);
}

pub proof fn p_rat_wf(c: real)
    ensures
        p_wf(p_rat(c)),
{
    p_term_wf(m_one(), c);
}

pub proof fn p_pow_wf(p: PolyV, k: nat)
    requires
        p_wf(p),
    ensures
        p_wf(p_pow(p, k)),
    decreases k,
{
    p_rat_wf(1real);
    if k > 0 {
        p_pow_wf(p, (k - 1) as nat);
        p_mul_wf(p_pow(p, (k - 1) as nat), p);
    }
}

// ---- values ----

/// The value of a polynomial, given that of each monomial.
pub open spec fn p_value(p: PolyV, w: spec_fn(MonoV) -> real) -> real {
    weigh(p.terms, w)
}

/// Values of monomials that respect products.
pub open spec fn valuation(w: spec_fn(MonoV) -> real) -> bool {
    &&& w(m_one()) == 1real
    &&& forall|a: MonoV, b: MonoV| m_wf(a) && m_wf(b) ==> #[trigger] w(m_mul(a, b)) == w(a) * w(b)
}

pub proof fn weigh_agrees<K>(s: Seq<(K, real)>, v: spec_fn(K) -> real, w: spec_fn(K) -> real)
    requires
        forall|i: int| 0 <= i < s.len() ==> v((#[trigger] s[i]).0) == w(s[i].0),
    ensures
        weigh(s, v) == weigh(s, w),
    decreases s.len(),
{
    if s.len() > 0 {
        let u = s.drop_last();
        assert forall|i: int| 0 <= i < u.len() implies v((#[trigger] u[i]).0) == w(u[i].0) by {
            assert(u[i] == s[i]);
        }
        weigh_agrees(u, v, w);
        assert(v(s[s.len() - 1].0) == w(s[s.len() - 1].0));
    }
}

proof fn weigh_sum<K>(s: Seq<(K, real)>, v: spec_fn(K) -> real, c: real, w: spec_fn(K) -> real)
    ensures
        weigh(s, |k: K| v(k) + c * w(k)) == weigh(s, v) + c * weigh(s, w),
    decreases s.len(),
{
    let f = |k: K| v(k) + c * w(k);
    if s.len() > 0 {
        weigh_sum(s.drop_last(), v, c, w);
        let x = s.last().1;
        let (a, b) = (v(s.last().0), w(s.last().0));
        let t = weigh(s.drop_last(), w);
        assert(x * (a + c * b) + c * t == x * a + c * (t + x * b)) by (nonlinear_arith);
    } else {
        assert(c * 0real == 0real) by (nonlinear_arith);
    }
}

/// The weight of a product of two keys.
pub open spec fn shifted(m: MonoV, w: spec_fn(MonoV) -> real) -> spec_fn(MonoV) -> real {
    |k: MonoV| w(m_mul(m, k))
}

/// The weight of everything that one key is multiplied with.
pub open spec fn rowed(t: Seq<(MonoV, real)>, w: spec_fn(MonoV) -> real) -> spec_fn(MonoV) -> real {
    |m: MonoV| weigh(t, shifted(m, w))
}

proof fn mul_row_weigh(
    acc: Seq<(MonoV, real)>,
    m: MonoV,
    c: real,
    t: Seq<(MonoV, real)>,
    w: spec_fn(MonoV) -> real,
)
    ensures
        weigh(mul_row(acc, m, c, t), w) == weigh(acc, w) + c * weigh(t, shifted(m, w)),
    decreases t.len(),
{
    if t.len() == 0 {
        assert(c * 0real == 0real) by (nonlinear_arith);
    } else {
        let u = t.drop_last();
        mul_row_weigh(acc, m, c, u, w);
        let (k, x) = t.last();
        bump_weigh(mul_row(acc, m, c, u), m_mul(m, k), c * x, w);
        let (a, b) = (weigh(u, shifted(m, w)), w(m_mul(m, k)));
        assert(c * (a + x * b) == c * a + (c * x) * b) by (nonlinear_arith);
    }
}

pub proof fn mul_rows_weigh(s: Seq<(MonoV, real)>, t: Seq<(MonoV, real)>, w: spec_fn(MonoV) -> real)
    ensures
        weigh(mul_rows(s, t), w) == weigh(s, rowed(t, w)),
    decreases s.len(),
{
    if s.len() > 0 {
        let u = s.drop_last();
        mul_rows_weigh(u, t, w);
        mul_row_weigh(mul_rows(u, t), s.last().0, s.last().1, t, w);
    }
}

/// The value of a sum is the sum of the values.
pub proof fn sum_value(p: PolyV, q: PolyV, w: spec_fn(MonoV) -> real)
    ensures
        p_value(p_add(p, q), w) == p_value(p, w) + p_value(q, w),
{
    merge_weigh(p.terms, q.terms, w);
}

/// The value of a multiple is the multiple of the value.
pub proof fn scale_value(p: PolyV, c: real, w: spec_fn(MonoV) -> real)
    ensures
        p_value(p_scale(p, c), w) == c * p_value(p, w),
    decreases p.terms.len(),
{
    if c == 0real {
        let x = p_value(p, w);
        assert(0real * x == 0real) by (nonlinear_arith);
    } else if p.terms.len() == 0 {
        assert(c * 0real == 0real) by (nonlinear_arith);
    } else {
        let u = PolyV { terms: p.terms.drop_last() };
        scale_value(u, c, w);
        assert(p_scale(p, c).terms.drop_last() =~= p_scale(u, c).terms);
        let (k, x) = p.terms.last();
        let (a, b) = (p_value(u, w), w(k));
        assert(c * (a + x * b) == c * a + (x * c) * b) by (nonlinear_arith);
    }
}

/// The value of a difference is the difference of the values.
pub proof fn difference_value(p: PolyV, q: PolyV, w: spec_fn(MonoV) -> real)
    ensures
        p_value(p_sub(p, q), w) == p_value(p, w) - p_value(q, w),
{
    sum_value(p, p_scale(q, -1real), w);
    scale_value(q, -1real, w);
}

pub proof fn term_value(m: MonoV, c: real, w: spec_fn(MonoV) -> real)
    ensures
        p_value(p_term(m, c), w) == c * w(m),
{
    if c == 0real {
        let x = w(m);
        assert(0real * x == 0real) by (nonlinear_arith);
    } else {
        weigh_one((m, c), w);
    }
}

/// Where the values of monomials respect the products of those of `p` with those of `q`, the value
/// of the product is the product of the values.
pub proof fn product_value_of(p: PolyV, q: PolyV, w: spec_fn(MonoV) -> real)
    requires
        forall|i: int, j: int|
            0 <= i < p.terms.len() && 0 <= j < q.terms.len() ==> w(
                m_mul((#[trigger] p.terms[i]).0, (#[trigger] q.terms[j]).0),
            ) == w(p.terms[i].0) * w(q.terms[j].0),
    ensures
        p_value(p_mul(p, q), w) == p_value(p, w) * p_value(q, w),
{
    mul_rows_weigh(p.terms, q.terms, w);
    let y = weigh(q.terms, w);
    let f = |m: MonoV| 0real + y * w(m);
    assert forall|i: int| 0 <= i < p.terms.len() implies rowed(q.terms, w)((#[trigger] p.terms[i]).0) == f(
        p.terms[i].0,
    ) by {
        let m = p.terms[i].0;
        let zero = |k: MonoV| 0real;
        let g = |k: MonoV| zero(k) + w(m) * w(k);
        assert forall|j: int| 0 <= j < q.terms.len() implies shifted(m, w)((#[trigger] q.terms[j]).0) == g(
            q.terms[j].0,
        ) by {
            assert(w(m_mul(p.terms[i].0, q.terms[j].0)) == w(m) * w(q.terms[j].0));
        }
        weigh_agrees(q.terms, shifted(m, w), g);
        weigh_sum(q.terms, zero, w(m), w);
        weigh_zero(q.terms);
        let x = w(m);
        assert(x * y == y * x) by (nonlinear_arith);
    }
    weigh_agrees(p.terms, rowed(q.terms, w), f);
    let zero = |k: MonoV| 0real;
    assert(f =~= (|m: MonoV| zero(m) + y * w(m)));
    weigh_sum(p.terms, zero, y, w);
    weigh_zero(p.terms);
    let x = weigh(p.terms, w);
    assert(x * y == y * x) by (nonlinear_arith);
}

/// Under a valuation the value of a product is the product of the values.
pub proof fn product_value(p: PolyV, q: PolyV, w: spec_fn(MonoV) -> real)
    requires
        p_wf(p),
        p_wf(q),
        valuation(w),
    ensures
        p_value(p_mul(p, q), w) == p_value(p, w) * p_value(q, w),
{
    assert forall|i: int, j: int| 0 <= i < p.terms.len() && 0 <= j < q.terms.len() implies w(
        m_mul((#[trigger] p.terms[i]).0, (#[trigger] q.terms[j]).0),
    ) == w(p.terms[i].0) * w(q.terms[j].0) by {
        assert(m_wf(p.terms[i].0));
        assert(m_wf(q.terms[j].0));
    }
    product_value_of(p, q, w);
}

pub proof fn weigh_zero<K>(s: Seq<(K, real)>)
    ensures
        weigh(s, |k: K| 0real) == 0real,
    decreases s.len(),
{
    if s.len() > 0 {
        weigh_zero(s.drop_last());
        let x = s.last().1;
        assert(x * 0real == 0real) by (nonlinear_arith);
    }
}

/// The real number `x` to a natural power.
pub open spec fn real_pow(x: real, k: nat) -> real
    decreases k,
{
    if k == 0 {
        1real
    } else {
        real_pow(x, (k - 1) as nat) * x
    }
}

/// Under a valuation the value of a power is the power of the value.
pub proof fn power_value(p: PolyV, k: nat, w: spec_fn(MonoV) -> real)
    requires
        p_wf(p),
        valuation(w),
    ensures
        p_value(p_pow(p, k), w) == real_pow(p_value(p, w), k),
    decreases k,
{
    if k == 0 {
        term_value(m_one(), 1real, w);
    } else {
        power_value(p, (k - 1) as nat, w);
        p_pow_wf(p, (k - 1) as nat);
        product_value(p_pow(p, (k - 1) as nat), p, w);
    }
}

// ---- the laws of a commutative ring ----

pub proof fn m_mul_commutes(a: MonoV, b: MonoV)
    requires
        m_wf(a),
        m_wf(b),
    ensures
        m_mul(a, b) == m_mul(b, a),
{
    m_mul_wf(a, b);
    m_mul_wf(b, a);
    assert forall|x: AtomV| #[trigger] value(m_mul(a, b).factors, x) == value(m_mul(b, a).factors, x) by {}
    canonical_unique(m_mul(a, b).factors, m_mul(b, a).factors);
}

pub proof fn m_mul_associates(a: MonoV, b: MonoV, c: MonoV)
    requires
        m_wf(a),
        m_wf(b),
        m_wf(c),
    ensures
        m_mul(m_mul(a, b), c) == m_mul(a, m_mul(b, c)),
{
    m_mul_wf(a, b);
    m_mul_wf(b, c);
    m_mul_wf(m_mul(a, b), c);
    m_mul_wf(a, m_mul(b, c));
    let l = m_mul(m_mul(a, b), c);
    let r = m_mul(a, m_mul(b, c));
    assert forall|x: AtomV| #[trigger] value(l.factors, x) == value(r.factors, x) by {
        assert(value(m_mul(a, b).factors, x) == value(a.factors, x) + value(b.factors, x));
        assert(value(m_mul(b, c).factors, x) == value(b.factors, x) + value(c.factors, x));
    }
    canonical_unique(l.factors, r.factors);
}

pub proof fn m_mul_one(a: MonoV)
    requires
        m_wf(a),
    ensures
        m_mul(m_one(), a) == a,
        m_mul(a, m_one()) == a,
{
    assert(merge(a.factors, m_one().factors) == a.factors);
    m_mul_commutes(a, m_one());
}

/// `p + q = q + p`.
pub proof fn add_commutes(p: PolyV, q: PolyV)
    requires
        p_wf(p),
        p_wf(q),
    ensures
        p_add(p, q) == p_add(q, p),
{
    p_add_wf(p, q);
    p_add_wf(q, p);
    assert forall|w: spec_fn(MonoV) -> real| #[trigger] weigh(p_add(p, q).terms, w) == weigh(p_add(q, p).terms, w) by {
        sum_value(p, q, w);
        sum_value(q, p, w);
    }
    weigh_unique(p_add(p, q).terms, p_add(q, p).terms);
}

/// `(p + q) + r = p + (q + r)`.
pub proof fn add_associates(p: PolyV, q: PolyV, r: PolyV)
    requires
        p_wf(p),
        p_wf(q),
        p_wf(r),
    ensures
        p_add(p_add(p, q), r) == p_add(p, p_add(q, r)),
{
    p_add_wf(p, q);
    p_add_wf(q, r);
    p_add_wf(p_add(p, q), r);
    p_add_wf(p, p_add(q, r));
    let x = p_add(p_add(p, q), r);
    let y = p_add(p, p_add(q, r));
    assert forall|w: spec_fn(MonoV) -> real| #[trigger] weigh(x.terms, w) == weigh(y.terms, w) by {
        sum_value(p, q, w);
        sum_value(q, r, w);
        sum_value(p_add(p, q), r, w);
        sum_value(p, p_add(q, r), w);
    }
    weigh_unique(x.terms, y.terms);
}

/// `p + 0 = p`.
pub proof fn add_zero(p: PolyV)
    ensures
        p_add(p, p_zero()) == p,
{
}

/// `p − p = 0`.
pub proof fn sub_self(p: PolyV)
    requires
        p_wf(p),
    ensures
        p_sub(p, p) == p_zero(),
{
    p_sub_wf(p, p);
    assert forall|w: spec_fn(MonoV) -> real| #[trigger] weigh(p_sub(p, p).terms, w) == weigh(p_zero().terms, w) by {
        difference_value(p, p, w);
    }
    weigh_unique(p_sub(p, p).terms, p_zero().terms);
}

/// `(p − q) + q = p`.
pub proof fn sub_undoes_add(p: PolyV, q: PolyV)
    requires
        p_wf(p),
        p_wf(q),
    ensures
        p_add(p_sub(p, q), q) == p,
        p_sub(p_add(p, q), q) == p,
{
    p_sub_wf(p, q);
    p_add_wf(p_sub(p, q), q);
    p_add_wf(p, q);
    p_sub_wf(p_add(p, q), q);
    let x = p_add(p_sub(p, q), q);
    let y = p_sub(p_add(p, q), q);
    assert forall|w: spec_fn(MonoV) -> real| #[trigger] weigh(x.terms, w) == weigh(p.terms, w) by {
        difference_value(p, q, w);
        sum_value(p_sub(p, q), q, w);
    }
    weigh_unique(x.terms, p.terms);
    assert forall|w: spec_fn(MonoV) -> real| #[trigger] weigh(y.terms, w) == weigh(p.terms, w) by {
        sum_value(p, q, w);
        difference_value(p_add(p, q), q, w);
    }
    weigh_unique(y.terms, p.terms);
}

/// Sums in two orders.
proof fn weigh_swap(
    s: Seq<(MonoV, real)>,
    t: Seq<(MonoV, real)>,
    w: spec_fn(MonoV) -> real,
)
    requires
        keys_wf(s),
        keys_wf(t),
    ensures
        weigh(s, rowed(t, w)) == weigh(t, rowed(s, w)),
    decreases s.len(),
{
    if s.len() == 0 {
        assert forall|i: int| 0 <= i < t.len() implies rowed(s, w)((#[trigger] t[i]).0) == (|k: MonoV| 0real)(
            t[i].0,
        ) by {}
        weigh_agrees(t, rowed(s, w), |k: MonoV| 0real);
        weigh_zero(t);
    } else {
        let u = s.drop_last();
        let (m, c) = s.last();
        assert forall|i: int| 0 <= i < u.len() implies m_wf((#[trigger] u[i]).0) by {
            assert(m_wf(s[i].0));
        }
        assert(m_wf(s[s.len() - 1].0));
        weigh_swap(u, t, w);
        let f = |k: MonoV| rowed(u, w)(k) + c * shifted(m, w)(k);
        assert forall|i: int| 0 <= i < t.len() implies rowed(s, w)((#[trigger] t[i]).0) == f(t[i].0) by {
            m_mul_commutes(t[i].0, m);
        }
        weigh_agrees(t, rowed(s, w), f);
        weigh_sum(t, rowed(u, w), c, shifted(m, w));
    }
}

/// `p · q = q · p`.
pub proof fn mul_commutes(p: PolyV, q: PolyV)
    requires
        p_wf(p),
        p_wf(q),
    ensures
        p_mul(p, q) == p_mul(q, p),
{
    p_mul_wf(p, q);
    p_mul_wf(q, p);
    wf_keys(p);
    wf_keys(q);
    assert forall|w: spec_fn(MonoV) -> real| #[trigger] weigh(p_mul(p, q).terms, w) == weigh(p_mul(q, p).terms, w) by {
        mul_rows_weigh(p.terms, q.terms, w);
        mul_rows_weigh(q.terms, p.terms, w);
        weigh_swap(p.terms, q.terms, w);
    }
    weigh_unique(p_mul(p, q).terms, p_mul(q, p).terms);
}

/// `(p · q) · r = p · (q · r)`.
pub proof fn mul_associates(p: PolyV, q: PolyV, r: PolyV)
    requires
        p_wf(p),
        p_wf(q),
        p_wf(r),
    ensures
        p_mul(p_mul(p, q), r) == p_mul(p, p_mul(q, r)),
{
    p_mul_wf(p, q);
    p_mul_wf(q, r);
    p_mul_wf(p_mul(p, q), r);
    p_mul_wf(p, p_mul(q, r));
    let x = p_mul(p_mul(p, q), r);
    let y = p_mul(p, p_mul(q, r));
    assert forall|w: spec_fn(MonoV) -> real| #[trigger] weigh(x.terms, w) == weigh(y.terms, w) by {
        let tail = rowed(r.terms, w);
        mul_rows_weigh(p_mul(p, q).terms, r.terms, w);
        mul_rows_weigh(p.terms, q.terms, tail);
        mul_rows_weigh(p.terms, p_mul(q, r).terms, w);
        assert forall|i: int| 0 <= i < p.terms.len() implies rowed(q.terms, tail)((#[trigger] p.terms[i]).0) == rowed(
            p_mul(q, r).terms,
            w,
        )(p.terms[i].0) by {
            let m = p.terms[i].0;
            mul_rows_weigh(q.terms, r.terms, shifted(m, w));
            assert forall|j: int| 0 <= j < q.terms.len() implies shifted(m, tail)((#[trigger] q.terms[j]).0) == rowed(
                r.terms,
                shifted(m, w),
            )(q.terms[j].0) by {
                let k = q.terms[j].0;
                assert forall|l: int| 0 <= l < r.terms.len() implies shifted(m_mul(m, k), w)(
                    (#[trigger] r.terms[l]).0,
                ) == shifted(k, shifted(m, w))(r.terms[l].0) by {
                    m_mul_associates(m, k, r.terms[l].0);
                }
                weigh_agrees(r.terms, shifted(m_mul(m, k), w), shifted(k, shifted(m, w)));
            }
            weigh_agrees(q.terms, shifted(m, tail), rowed(r.terms, shifted(m, w)));
        }
        weigh_agrees(p.terms, rowed(q.terms, tail), rowed(p_mul(q, r).terms, w));
    }
    weigh_unique(x.terms, y.terms);
}

/// `(p + q) · r = p·r + q·r`.
pub proof fn mul_distributes(p: PolyV, q: PolyV, r: PolyV)
    requires
        p_wf(p),
        p_wf(q),
        p_wf(r),
    ensures
        p_mul(p_add(p, q), r) == p_add(p_mul(p, r), p_mul(q, r)),
{
    p_add_wf(p, q);
    p_mul_wf(p_add(p, q), r);
    p_mul_wf(p, r);
    p_mul_wf(q, r);
    p_add_wf(p_mul(p, r), p_mul(q, r));
    let x = p_mul(p_add(p, q), r);
    let y = p_add(p_mul(p, r), p_mul(q, r));
    assert forall|w: spec_fn(MonoV) -> real| #[trigger] weigh(x.terms, w) == weigh(y.terms, w) by {
        let tail = rowed(r.terms, w);
        mul_rows_weigh(p_add(p, q).terms, r.terms, w);
        mul_rows_weigh(p.terms, r.terms, w);
        mul_rows_weigh(q.terms, r.terms, w);
        sum_value(p, q, tail);
        sum_value(p_mul(p, r), p_mul(q, r), w);
    }
    weigh_unique(x.terms, y.terms);
}

/// `1 · p = p`.
pub proof fn mul_one(p: PolyV)
    requires
        p_wf(p),
    ensures
        p_mul(p_rat(1real), p) == p,
        p_mul(p, p_rat(1real)) == p,
{
    let one = p_rat(1real);
    p_rat_wf(1real);
    p_mul_wf(one, p);
    wf_keys(p);
    assert forall|w: spec_fn(MonoV) -> real| #[trigger] weigh(p_mul(one, p).terms, w) == weigh(p.terms, w) by {
        mul_rows_weigh(one.terms, p.terms, w);
        weigh_one((m_one(), 1real), rowed(p.terms, w));
        assert forall|i: int| 0 <= i < p.terms.len() implies shifted(m_one(), w)((#[trigger] p.terms[i]).0) == w(
            p.terms[i].0,
        ) by {
            m_mul_one(p.terms[i].0);
        }
        weigh_agrees(p.terms, shifted(m_one(), w), w);
    }
    weigh_unique(p_mul(one, p).terms, p.terms);
    mul_commutes(one, p);
}

/// `p^(a + b) = p^a · p^b`.
pub proof fn pow_adds(p: PolyV, a: nat, b: nat)
    requires
        p_wf(p),
    ensures
        p_pow(p, a + b) == p_mul(p_pow(p, a), p_pow(p, b)),
    decreases b,
{
    p_pow_wf(p, a);
    if b == 0 {
        mul_one(p_pow(p, a));
    } else {
        pow_adds(p, a, (b - 1) as nat);
        p_pow_wf(p, (b - 1) as nat);
        mul_associates(p_pow(p, a), p_pow(p, (b - 1) as nat), p);
    }
}

} // verus!
