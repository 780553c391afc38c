//! What holds of putting polynomials in the place of variables: the variable is worth what replaces
//! it, products stay products, what does not mention the variable stays, and several variables are
//! replaced at once.

use vstd::prelude::*;
use crate::cost::algebra::{
    coefficient, m_atom, m_atom_wf, m_mul, m_mul_wf, m_one, m_wf, mul_one, mul_row, mul_rows, p_add, p_add_wf, p_mul,
    p_mul_wf, p_pow, p_pow_wf, p_term, p_term_wf, p_value, p_var, p_wf, product_value_of, real_pow, sum_value,
    term_value, valuation, weigh_agrees, weigh_zero,
};
use crate::cost::assoc::{
    bump, bump_value, canonical, canonical_unique, entry_found, erase, erase_sorted, holds, merge, merge_weigh, pick,
    slot, slot_place, value, weigh, weigh_one, weigh_pick, weigh_unique, Ranked,
};
use crate::cost::degrees::{coefficient_held, product_term};
use crate::cost::laws::Weight;
use crate::cost::model::{AtomV, MonoV, PolyV};
use crate::cost::rat::{ratio, ratio_one, whole, whole_parts};
use crate::cost::subst::{
    a_mentions, a_subst, arg_mentions, arg_subst, count_of, factors_subst, factors_subst_wf, p_mentions, p_park,
    p_subst, p_subst_many, p_unpark, parked, terms_subst,
};
use crate::cost::summing::replaced;

verus! {

// ---- factors ----

/// What an atom counts for in the exponent of `x` after the substitution.
pub open spec fn pulled(v: int, by: PolyV, x: AtomV) -> spec_fn(AtomV) -> real {
    |a: AtomV|
        if a != AtomV::Var(v) && a_subst(a, v, by) == x {
            1real
        } else {
            0real
        }
}

pub proof fn subst_exponent(f: Seq<(AtomV, real)>, v: int, by: PolyV, x: AtomV)
    requires
        canonical(f),
    ensures
        value(factors_subst(f, v, by), x) == weigh(f, pulled(v, by, x)),
    decreases f.len(),
{
    if f.len() > 0 {
        let u = f.drop_last();
        front_canonical(f);
        subst_exponent(u, v, by, x);
        factors_subst_wf(u, v, by);
        let (a, e) = f.last();
        bump_value(factors_subst(u, v, by), a_subst(a, v, by), e);
        assert(e * 1real == e) by (nonlinear_arith);
        assert(e * 0real == 0real) by (nonlinear_arith);
    }
}

pub proof fn front_canonical<K: Ranked>(f: Seq<(K, real)>)
    requires
        canonical(f),
        f.len() > 0,
    ensures
        canonical(f.drop_last()),
{
    let u = f.drop_last();
    assert forall|i: int, j: int| 0 <= i < j < u.len() implies (#[trigger] u[i]).0.before((#[trigger] u[j]).0) by {
        assert(f[i].0.before(f[j].0));
    }
    assert forall|i: int| 0 <= i < u.len() implies (#[trigger] u[i]).1 != 0real by {
        assert(f[i].1 != 0real);
    }
}

pub open spec fn m_subst(m: MonoV, v: int, by: PolyV) -> MonoV {
    MonoV { factors: factors_subst(m.factors, v, by) }
}

/// The factors of a product after the substitution are those of its factors, multiplied.
pub proof fn subst_product(a: MonoV, b: MonoV, v: int, by: PolyV)
    requires
        m_wf(a),
        m_wf(b),
    ensures
        m_subst(m_mul(a, b), v, by) == m_mul(m_subst(a, v, by), m_subst(b, v, by)),
        m_wf(m_subst(a, v, by)),
        m_wf(m_subst(b, v, by)),
{
    let m = m_mul(a, b);
    let (sa, sb) = (m_subst(a, v, by), m_subst(b, v, by));
    m_mul_wf(a, b);
    factors_subst_wf(a.factors, v, by);
    factors_subst_wf(b.factors, v, by);
    factors_subst_wf(m.factors, v, by);
    m_mul_wf(sa, sb);
    let r = m_mul(sa, sb);
    assert forall|x: AtomV| #[trigger] value(m_subst(m, v, by).factors, x) == value(r.factors, x) by {
        subst_exponent(a.factors, v, by, x);
        subst_exponent(b.factors, v, by, x);
        subst_exponent(m.factors, v, by, x);
        merge_weigh(a.factors, b.factors, pulled(v, by, x));
    }
    canonical_unique(m_subst(m, v, by).factors, r.factors);
}

/// The exponent of another variable is what it was.
pub proof fn other_exponent(m: MonoV, v: int, by: PolyV, u: int)
    requires
        m_wf(m),
        u != v,
    ensures
        value(m_subst(m, v, by).factors, AtomV::Var(u)) == value(m.factors, AtomV::Var(u)),
{
    let x = AtomV::Var(u);
    subst_exponent(m.factors, v, by, x);
    weigh_pick(m.factors, x);
    assert forall|i: int| 0 <= i < m.factors.len() implies pulled(v, by, x)((#[trigger] m.factors[i]).0) == pick(x)(
        m.factors[i].0,
    ) by {
        let a = m.factors[i].0;
        assert(a_subst(a, v, by) == x <==> a == x);
    }
    weigh_agrees(m.factors, pulled(v, by, x), pick(x));
}

// ---- powers ----

/// The exponent of the variable is a natural number.
pub open spec fn natural_in(m: MonoV, v: int) -> bool {
    whole(value(m.factors, AtomV::Var(v))) && value(m.factors, AtomV::Var(v)) >= 0real
}

pub proof fn count_adds(a: real, b: real)
    requires
        whole(a),
        whole(b),
        a >= 0real,
        b >= 0real,
    ensures
        whole(a + b),
        count_of(a + b) == count_of(a) + count_of(b),
        count_of(a) as real == a,
{
    let i = choose|i: int| a == #[trigger] ratio(i, 1);
    let j = choose|j: int| b == #[trigger] ratio(j, 1);
    ratio_one(i);
    ratio_one(j);
    ratio_one(i + j);
    assert(a + b == ratio(i + j, 1));
    whole_parts(i);
    whole_parts(j);
    whole_parts(i + j);
}

proof fn pow_of_sum(x: real, a: nat, b: nat)
    ensures
        real_pow(x, a + b) == real_pow(x, a) * real_pow(x, b),
    decreases b,
{
    let y = real_pow(x, a);
    if b == 0 {
        assert(y * 1real == y) by (nonlinear_arith);
    } else {
        pow_of_sum(x, a, (b - 1) as nat);
        let z = real_pow(x, (b - 1) as nat);
        assert((y * z) * x == y * (z * x)) by (nonlinear_arith);
    }
}

// ---- weights ----

/// Values of monomials that respect the products of those in `ok`, which are in it again.
pub open spec fn valuation_on(w: Weight, ok: spec_fn(MonoV) -> bool) -> bool {
    &&& ok(m_one())
    &&& w(m_one()) == 1real
    &&& forall|a: MonoV, b: MonoV| m_wf(a) && m_wf(b) && ok(a) && ok(b) ==> ok(#[trigger] m_mul(a, b)) && w(m_mul(a, b)) == w(
        a,
    ) * w(b)
}

pub open spec fn all_in(p: PolyV, ok: spec_fn(MonoV) -> bool) -> bool {
    forall|i: int| 0 <= i < p.terms.len() ==> ok((#[trigger] p.terms[i]).0)
}

pub proof fn sum_in(p: PolyV, q: PolyV, ok: spec_fn(MonoV) -> bool)
    requires
        p_wf(p),
        p_wf(q),
        all_in(p, ok),
        all_in(q, ok),
    ensures
        all_in(p_add(p, q), ok),
{
    let r = p_add(p, q);
    p_add_wf(p, q);
    assert forall|i: int| 0 <= i < r.terms.len() implies ok((#[trigger] r.terms[i]).0) by {
        let m = r.terms[i].0;
        entry_found(r.terms, i);
        assert(r.terms[i].1 != 0real);
        assert(coefficient(r, m) == coefficient(p, m) + coefficient(q, m));
        if coefficient(p, m) != 0real {
            let j = coefficient_held(p, m);
            assert(ok(p.terms[j].0));
        } else {
            let j = coefficient_held(q, m);
            assert(ok(q.terms[j].0));
        }
    }
}

proof fn product_in(p: PolyV, q: PolyV, w: Weight, ok: spec_fn(MonoV) -> bool)
    requires
        p_wf(p),
        p_wf(q),
        all_in(p, ok),
        all_in(q, ok),
        valuation_on(w, ok),
    ensures
        all_in(p_mul(p, q), ok),
        p_value(p_mul(p, q), w) == p_value(p, w) * p_value(q, w),
{
    let r = p_mul(p, q);
    assert forall|i: int| 0 <= i < r.terms.len() implies ok((#[trigger] r.terms[i]).0) by {
        let (a, b) = product_term(p, q, i);
        assert(m_wf(p.terms[a].0) && m_wf(q.terms[b].0));
        assert(ok(p.terms[a].0) && ok(q.terms[b].0));
        assert(ok(m_mul(p.terms[a].0, q.terms[b].0)));
    }
    assert forall|i: int, j: int| 0 <= i < p.terms.len() && 0 <= j < q.terms.len() implies w(
        m_mul((#[trigger] p.terms[i]).0, (#[trigger] q.terms[j]).0),
    ) == w(p.terms[i].0) * w(q.terms[j].0) by {
        assert(m_wf(p.terms[i].0) && m_wf(q.terms[j].0));
        assert(ok(p.terms[i].0) && ok(q.terms[j].0));
    }
    product_value_of(p, q, w);
}

proof fn power_in(p: PolyV, k: nat, w: Weight, ok: spec_fn(MonoV) -> bool)
    requires
        p_wf(p),
        all_in(p, ok),
        valuation_on(w, ok),
    ensures
        all_in(p_pow(p, k), ok),
        p_value(p_pow(p, k), w) == real_pow(p_value(p, w), k),
    decreases k,
{
    if k == 0 {
        term_value(m_one(), 1real, w);
    } else {
        power_in(p, (k - 1) as nat, w, ok);
        p_pow_wf(p, (k - 1) as nat);
        product_in(p_pow(p, (k - 1) as nat), p, w, ok);
    }
}

/// The monomials of `t` are canonical, and in `ok` once the substitution is made.
spec fn ready(t: Seq<(MonoV, real)>, v: int, by: PolyV, ok: spec_fn(MonoV) -> bool) -> bool {
    forall|i: int| 0 <= i < t.len() ==> m_wf((#[trigger] t[i]).0) && ok(m_subst(t[i].0, v, by))
}

proof fn terms_subst_on(t: Seq<(MonoV, real)>, v: int, by: PolyV, w: Weight, ok: spec_fn(MonoV) -> bool)
    requires
        ready(t, v, by, ok),
        p_wf(by),
        all_in(by, ok),
        valuation_on(w, ok),
    ensures
        p_wf(terms_subst(t, v, by)),
        all_in(terms_subst(t, v, by), ok),
        p_value(terms_subst(t, v, by), w) == weigh(t, replaced(w, v, by)),
    decreases t.len(),
{
    if t.len() > 0 {
        let u = t.drop_last();
        assert forall|i: int| 0 <= i < u.len() implies m_wf((#[trigger] u[i]).0) && ok(m_subst(u[i].0, v, by)) by {
            assert(u[i] == t[i]);
            assert(m_wf(t[i].0));
        }
        terms_subst_on(u, v, by, w, ok);
        let (m, c) = t.last();
        assert(m_wf(t[t.len() - 1].0));
        let rest = m_subst(m, v, by);
        let k = count_of(value(m.factors, AtomV::Var(v)));
        factors_subst_wf(m.factors, v, by);
        p_term_wf(rest, c);
        p_pow_wf(by, k);
        power_in(by, k, w, ok);
        assert(all_in(p_term(rest, c), ok));
        product_in(p_term(rest, c), p_pow(by, k), w, ok);
        p_mul_wf(p_term(rest, c), p_pow(by, k));
        p_add_wf(terms_subst(u, v, by), p_mul(p_term(rest, c), p_pow(by, k)));
        sum_in(terms_subst(u, v, by), p_mul(p_term(rest, c), p_pow(by, k)), ok);
        sum_value(terms_subst(u, v, by), p_mul(p_term(rest, c), p_pow(by, k)), w);
        term_value(rest, c, w);
        let (x, y) = (w(rest), real_pow(p_value(by, w), k));
        assert((c * x) * y == c * (x * y)) by (nonlinear_arith);
    }
}

// ---- one variable ----

/// The weight in which a variable is worth what replaces it is a valuation where the variable has
/// natural exponents: it respects products, gives the variable the value of what replaces it, and
/// gives a logarithm the value of the logarithm with the substitution made inside.
pub proof fn replaced_is_valuation(w: Weight, v: int, by: PolyV)
    requires
        valuation(w),
        p_wf(by),
    ensures
        valuation_on(replaced(w, v, by), |m: MonoV| natural_in(m, v)),
        replaced(w, v, by)(m_atom(AtomV::Var(v))) == p_value(by, w),
        forall|a: AtomV| a != AtomV::Var(v) ==> #[trigger] replaced(w, v, by)(m_atom(a)) == w(m_atom(a_subst(a, v, by))),
{
    let ok = |m: MonoV| true;
    assert(valuation_on(w, ok));
    let good = |m: MonoV| natural_in(m, v);
    one_natural(v);
    assert forall|a: MonoV, b: MonoV| m_wf(a) && m_wf(b) && good(a) && good(b) implies good(#[trigger] m_mul(a, b)) by {
        product_natural(a, b, v);
    }
    replaced_on(w, v, by, ok, good);
    let r = replaced(w, v, by);
    let x = AtomV::Var(v);
    m_atom_wf(x);
    atom_exponent(x, x);
    itself_subst(v, by);
    ratio_one(1);
    whole_parts(1);
    assert(1real == ratio(1, 1));
    assert(count_of(1real) == 1);
    let y = p_value(by, w);
    reveal_with_fuel(real_pow, 2);
    assert(1real * (1real * y) == y) by (nonlinear_arith);
    assert forall|a: AtomV| a != AtomV::Var(v) implies #[trigger] r(m_atom(a)) == w(m_atom(a_subst(a, v, by))) by {
        m_atom_wf(a);
        atom_exponent(a, x);
        atom_subst(a, v, by);
        ratio_one(0);
        whole_parts(0);
        assert(0real == ratio(0, 1));
        let z = w(m_atom(a_subst(a, v, by)));
        assert(z * 1real == z) by (nonlinear_arith);
    }
}

pub proof fn one_natural(v: int)
    ensures
        natural_in(m_one(), v),
{
    ratio_one(0);
    assert(0real == ratio(0, 1));
    weigh_pick(m_one().factors, AtomV::Var(v));
}

pub proof fn product_natural(a: MonoV, b: MonoV, v: int)
    requires
        m_wf(a),
        m_wf(b),
        natural_in(a, v),
        natural_in(b, v),
    ensures
        natural_in(m_mul(a, b), v),
{
    m_mul_wf(a, b);
    let x = AtomV::Var(v);
    count_adds(value(a.factors, x), value(b.factors, x));
}

/// A variable by itself goes away.
pub proof fn itself_subst(v: int, by: PolyV)
    ensures
        m_subst(m_atom(AtomV::Var(v)), v, by) == m_one(),
{
    let f = m_atom(AtomV::Var(v)).factors;
    assert(f =~= seq![(AtomV::Var(v), 1real)]);
    assert(f.drop_last() =~= Seq::empty());
    assert(factors_subst(f.drop_last(), v, by) =~= Seq::empty());
    assert(factors_subst(f, v, by) =~= m_one().factors);
}

pub proof fn atom_exponent(a: AtomV, x: AtomV)
    ensures
        value(m_atom(a).factors, x) == if a == x {
            1real
        } else {
            0real
        },
{
    m_atom_wf(a);
    weigh_pick(m_atom(a).factors, x);
    weigh_one((a, 1real), pick(x));
    assert(m_atom(a).factors =~= seq![(a, 1real)]);
}

proof fn atom_subst(a: AtomV, v: int, by: PolyV)
    requires
        a != AtomV::Var(v),
    ensures
        m_subst(m_atom(a), v, by) == m_atom(a_subst(a, v, by)),
{
    let b = a_subst(a, v, by);
    m_atom_wf(a);
    m_atom_wf(b);
    factors_subst_wf(m_atom(a).factors, v, by);
    assert forall|x: AtomV| #[trigger] value(m_subst(m_atom(a), v, by).factors, x) == value(m_atom(b).factors, x) by {
        subst_exponent(m_atom(a).factors, v, by, x);
        weigh_one((a, 1real), pulled(v, by, x));
        assert(m_atom(a).factors =~= seq![(a, 1real)]);
        atom_exponent(b, x);
    }
    canonical_unique(m_subst(m_atom(a), v, by).factors, m_atom(b).factors);
}

proof fn replaced_on(w: Weight, v: int, by: PolyV, ok: spec_fn(MonoV) -> bool, good: spec_fn(MonoV) -> bool)
    requires
        valuation_on(w, ok),
        p_wf(by),
        good(m_one()),
        forall|m: MonoV| m_wf(m) && #[trigger] good(m) ==> natural_in(m, v) && ok(m_subst(m, v, by)),
        forall|a: MonoV, b: MonoV| m_wf(a) && m_wf(b) && good(a) && good(b) ==> good(#[trigger] m_mul(a, b)),
    ensures
        valuation_on(replaced(w, v, by), good),
{
    let r = replaced(w, v, by);
    let x = AtomV::Var(v);
    let y = p_value(by, w);
    assert(m_subst(m_one(), v, by).factors =~= m_one().factors);
    ratio_one(0);
    whole_parts(0);
    assert(0real == ratio(0, 1));
    assert(r(m_one()) == 1real * 1real);
    assert forall|a: MonoV, b: MonoV| m_wf(a) && m_wf(b) && good(a) && good(b) implies good(#[trigger] m_mul(a, b)) && r(
        m_mul(a, b),
    ) == r(a) * r(b) by {
        subst_product(a, b, v, by);
        m_mul_wf(a, b);
        let (ea, eb) = (value(a.factors, x), value(b.factors, x));
        count_adds(ea, eb);
        pow_of_sum(y, count_of(ea), count_of(eb));
        let (sa, sb) = (w(m_subst(a, v, by)), w(m_subst(b, v, by)));
        let (pa, pb) = (real_pow(y, count_of(ea)), real_pow(y, count_of(eb)));
        assert((sa * sb) * (pa * pb) == (sa * pa) * (sb * pb)) by (nonlinear_arith);
    }
}

// ---- what is not mentioned ----

/// Polynomials in canonical form, and those inside logarithms and arguments too.
pub open spec fn p_deep(p: PolyV) -> bool
    decreases p,
{
    p_wf(p) && forall|i: int, j: int|
        #![trigger p.terms[i].0.factors[j]]
        0 <= i < p.terms.len() && 0 <= j < p.terms[i].0.factors.len() ==> a_deep(p.terms[i].0.factors[j].0)
}

pub open spec fn a_deep(a: AtomV) -> bool
    decreases a,
{
    match a {
        AtomV::Log(q) => p_deep(*q),
        AtomV::Opaque(o) => forall|i: int|
            #![trigger o.args[i]]
            0 <= i < o.args.len() ==> arg_deep(o.args[i]),
        _ => true,
    }
}

pub open spec fn arg_deep(a: Option<PolyV>) -> bool
    decreases a,
{
    match a {
        Some(p) => p_deep(p),
        None => true,
    }
}

pub proof fn atom_unmentioned(a: AtomV, v: int, by: PolyV)
    requires
        a_deep(a),
        !a_mentions(a, v),
    ensures
        a_subst(a, v, by) == a,
        a != AtomV::Var(v),
    decreases a,
{
    reveal(p_subst);
    match a {
        AtomV::Log(q) => {
            subst_unmentioned(*q, v, by);
        },
        AtomV::Opaque(o) => {
            let r = a_subst(a, v, by)->Opaque_0;
            assert forall|i: int| 0 <= i < o.args.len() implies #[trigger] r.args[i] == o.args[i] by {
                assert(arg_deep(o.args[i]));
                assert(!arg_mentions(o.args[i], v));
                if let Some(p) = o.args[i] {
                    subst_unmentioned(p, v, by);
                }
            }
            assert(r.args =~= o.args);
            assert(*r == *o);
        },
        _ => {},
    }
}

/// No factor mentions the variable.
pub open spec fn free_of(m: MonoV, v: int) -> bool {
    forall|j: int| 0 <= j < m.factors.len() ==> a_deep((#[trigger] m.factors[j]).0) && !a_mentions(m.factors[j].0, v)
}

pub proof fn mono_unmentioned(m: MonoV, v: int, by: PolyV)
    requires
        m_wf(m),
        forall|j: int|
            0 <= j < m.factors.len() ==> a_subst((#[trigger] m.factors[j]).0, v, by) == m.factors[j].0
                && m.factors[j].0 != AtomV::Var(v),
    ensures
        m_subst(m, v, by) == m,
        value(m.factors, AtomV::Var(v)) == 0real,
{
    let f = m.factors;
    factors_subst_wf(f, v, by);
    assert forall|x: AtomV| #[trigger] value(m_subst(m, v, by).factors, x) == value(f, x) by {
        subst_exponent(f, v, by, x);
        weigh_pick(f, x);
        assert forall|j: int| 0 <= j < f.len() implies pulled(v, by, x)((#[trigger] f[j]).0) == pick(x)(f[j].0) by {}
        weigh_agrees(f, pulled(v, by, x), pick(x));
    }
    canonical_unique(m_subst(m, v, by).factors, f);
    let x = AtomV::Var(v);
    weigh_pick(f, x);
    let zero = |a: AtomV| 0real;
    assert forall|j: int| 0 <= j < f.len() implies pick(x)((#[trigger] f[j]).0) == zero(f[j].0) by {
        assert(a_subst(f[j].0, v, by) == f[j].0);
    }
    weigh_agrees(f, pick(x), zero);
    weigh_zero::<AtomV>(f);
}

/// Replacing a variable that is not mentioned changes nothing.
pub proof fn subst_unmentioned(p: PolyV, v: int, by: PolyV)
    requires
        p_deep(p),
        !p_mentions(p, v),
    ensures
        p_subst(p, v, by) == p,
    decreases p,
{
    reveal(p_subst);
    assert forall|i: int| 0 <= i < p.terms.len() implies m_subst((#[trigger] p.terms[i]).0, v, by) == p.terms[i].0
        && value(p.terms[i].0.factors, AtomV::Var(v)) == 0real by {
        let m = p.terms[i].0;
        assert(m_wf(p.terms[i].0));
        assert forall|j: int| 0 <= j < m.factors.len() implies a_subst((#[trigger] m.factors[j]).0, v, by)
            == m.factors[j].0 && m.factors[j].0 != AtomV::Var(v) by {
            let a = p.terms[i].0.factors[j].0;
            assert(a_deep(p.terms[i].0.factors[j].0));
            assert(!a_mentions(p.terms[i].0.factors[j].0, v));
            atom_unmentioned(a, v, by);
        }
        mono_unmentioned(m, v, by);
    }
    terms_unchanged(p.terms, v, by);
    assert(PolyV { terms: p.terms } == p);
}

pub proof fn terms_unchanged(t: Seq<(MonoV, real)>, v: int, by: PolyV)
    requires
        p_wf((PolyV { terms: t })),
        forall|i: int|
            0 <= i < t.len() ==> m_subst((#[trigger] t[i]).0, v, by) == t[i].0 && value(t[i].0.factors, AtomV::Var(v))
                == 0real,
    ensures
        terms_subst(t, v, by) == (PolyV { terms: t }),
    decreases t.len(),
{
    if t.len() > 0 {
        let u = t.drop_last();
        front_canonical(t);
        let pu = PolyV { terms: u };
        assert(p_wf(pu)) by {
            assert forall|i: int| 0 <= i < u.len() implies m_wf((#[trigger] u[i]).0) by {
                assert(m_wf((PolyV { terms: t }).terms[i].0));
            }
        }
        assert forall|i: int| 0 <= i < u.len() implies m_subst((#[trigger] u[i]).0, v, by) == u[i].0 && value(
            u[i].0.factors,
            AtomV::Var(v),
        ) == 0real by {
            assert(u[i] == t[i]);
        }
        terms_unchanged(u, v, by);
        let (m, c) = t[t.len() - 1];
        assert(m_wf((PolyV { terms: t }).terms[t.len() - 1].0));
        ratio_one(0);
        whole_parts(0);
        assert(0real == ratio(0, 1));
        assert(count_of(0real) == 0);
        p_term_wf(m, c);
        mul_one(p_term(m, c));
        let r = p_add(pu, p_term(m, c));
        p_add_wf(pu, p_term(m, c));
        assert forall|w: Weight| #[trigger] weigh(r.terms, w) == weigh(t, w) by {
            sum_value(pu, p_term(m, c), w);
            term_value(m, c, w);
        }
        weigh_unique(r.terms, t);
        assert(t.last() == t[t.len() - 1]);
        assert(r == (PolyV { terms: t }));
    } else {
        assert(t =~= Seq::empty());
    }
}

// ---- what the atoms of a result are ----

/// Every key is one of those.
pub open spec fn keys_in<K>(s: Seq<(K, real)>, ok: spec_fn(K) -> bool) -> bool {
    forall|i: int| 0 <= i < s.len() ==> ok((#[trigger] s[i]).0)
}

proof fn bump_in<K: Ranked>(s: Seq<(K, real)>, k: K, c: real, ok: spec_fn(K) -> bool)
    requires
        keys_in(s, ok),
        ok(k),
    ensures
        keys_in(bump(s, k, c), ok),
{
    slot_place(s, k);
    let r = bump(s, k, c);
    let n = slot(s, k);
    assert forall|i: int| 0 <= i < r.len() implies ok((#[trigger] r[i]).0) by {
        if i < n {
            assert(r[i] == s[i]);
        } else if r.len() > s.len() {
            if i > n {
                assert(r[i] == s[i - 1]);
            }
        } else if r.len() < s.len() {
            assert(r[i] == s[i + 1]);
        } else if i > n || !holds(s, k) {
            assert(r[i] == s[i]);
        }
    }
}

pub proof fn merge_in<K: Ranked>(s: Seq<(K, real)>, t: Seq<(K, real)>, ok: spec_fn(K) -> bool)
    requires
        keys_in(s, ok),
        keys_in(t, ok),
    ensures
        keys_in(merge(s, t), ok),
    decreases t.len(),
{
    if t.len() > 0 {
        let u = t.drop_last();
        assert forall|i: int| 0 <= i < u.len() implies ok((#[trigger] u[i]).0) by {
            assert(u[i] == t[i]);
        }
        assert(ok(t[t.len() - 1].0));
        merge_in(s, u, ok);
        bump_in(merge(s, u), t.last().0, t.last().1, ok);
    }
}

/// Every atom of the polynomial is one of those.
pub open spec fn atoms_in(p: PolyV, g: spec_fn(AtomV) -> bool) -> bool {
    all_in(p, made_of(g))
}

/// The monomials made of such atoms.
pub open spec fn made_of(g: spec_fn(AtomV) -> bool) -> spec_fn(MonoV) -> bool {
    |m: MonoV| keys_in(m.factors, g)
}

/// Monomials that stay among themselves in products.
pub open spec fn closed_under_products(ok: spec_fn(MonoV) -> bool) -> bool {
    ok(m_one()) && forall|a: MonoV, b: MonoV| ok(a) && ok(b) ==> ok(#[trigger] m_mul(a, b))
}

pub proof fn made_closed(g: spec_fn(AtomV) -> bool)
    ensures
        closed_under_products(made_of(g)),
{
    assert forall|a: MonoV, b: MonoV| made_of(g)(a) && made_of(g)(b) implies made_of(g)(#[trigger] m_mul(a, b)) by {
        merge_in(a.factors, b.factors, g);
    }
}

proof fn row_among(acc: Seq<(MonoV, real)>, m: MonoV, c: real, t: Seq<(MonoV, real)>, ok: spec_fn(MonoV) -> bool)
    requires
        closed_under_products(ok),
        keys_in(acc, ok),
        keys_in(t, ok),
        ok(m),
    ensures
        keys_in(mul_row(acc, m, c, t), ok),
    decreases t.len(),
{
    if t.len() > 0 {
        let u = t.drop_last();
        assert forall|i: int| 0 <= i < u.len() implies ok((#[trigger] u[i]).0) by {
            assert(u[i] == t[i]);
        }
        assert(ok(t[t.len() - 1].0));
        row_among(acc, m, c, u, ok);
        bump_in(mul_row(acc, m, c, u), m_mul(m, t.last().0), c * t.last().1, ok);
    }
}

pub proof fn rows_among(s: Seq<(MonoV, real)>, t: Seq<(MonoV, real)>, ok: spec_fn(MonoV) -> bool)
    requires
        closed_under_products(ok),
        keys_in(s, ok),
        keys_in(t, ok),
    ensures
        keys_in(mul_rows(s, t), ok),
    decreases s.len(),
{
    if s.len() > 0 {
        let u = s.drop_last();
        assert forall|i: int| 0 <= i < u.len() implies ok((#[trigger] u[i]).0) by {
            assert(u[i] == s[i]);
        }
        assert(ok(s[s.len() - 1].0));
        rows_among(u, t, ok);
        row_among(mul_rows(u, t), s.last().0, s.last().1, t, ok);
    }
}

pub proof fn pow_among(p: PolyV, k: nat, ok: spec_fn(MonoV) -> bool)
    requires
        closed_under_products(ok),
        all_in(p, ok),
    ensures
        all_in(p_pow(p, k), ok),
    decreases k,
{
    if k > 0 {
        pow_among(p, (k - 1) as nat, ok);
        rows_among(p_pow(p, (k - 1) as nat).terms, p.terms, ok);
    }
}

/// The result of a substitution has monomials among those, where the monomials of `t` have after
/// it, and what replaces has.
pub proof fn terms_among(t: Seq<(MonoV, real)>, v: int, by: PolyV, ok: spec_fn(MonoV) -> bool)
    requires
        closed_under_products(ok),
        all_in(by, ok),
        forall|i: int| 0 <= i < t.len() ==> ok(m_subst((#[trigger] t[i]).0, v, by)),
    ensures
        all_in(terms_subst(t, v, by), ok),
    decreases t.len(),
{
    if t.len() > 0 {
        let u = t.drop_last();
        assert forall|i: int| 0 <= i < u.len() implies ok(m_subst((#[trigger] u[i]).0, v, by)) by {
            assert(u[i] == t[i]);
        }
        terms_among(u, v, by, ok);
        let (m, c) = t[t.len() - 1];
        assert(ok(m_subst(t[t.len() - 1].0, v, by)));
        let (a, b) = (p_term(m_subst(m, v, by), c), p_pow(by, count_of(value(m.factors, AtomV::Var(v)))));
        pow_among(by, count_of(value(m.factors, AtomV::Var(v))), ok);
        rows_among(a.terms, b.terms, ok);
        merge_in(terms_subst(u, v, by).terms, p_mul(a, b).terms, ok);
    }
}

proof fn factors_among(f: Seq<(AtomV, real)>, v: int, by: PolyV, g: spec_fn(AtomV) -> bool)
    requires
        forall|i: int| 0 <= i < f.len() && (#[trigger] f[i]).0 != AtomV::Var(v) ==> g(a_subst(f[i].0, v, by)),
    ensures
        keys_in(factors_subst(f, v, by), g),
    decreases f.len(),
{
    if f.len() > 0 {
        let u = f.drop_last();
        assert forall|i: int| 0 <= i < u.len() && (#[trigger] u[i]).0 != AtomV::Var(v) implies g(
            a_subst(u[i].0, v, by),
        ) by {
            assert(u[i] == f[i]);
        }
        factors_among(u, v, by, g);
        let (a, e) = f[f.len() - 1];
        if a != AtomV::Var(v) {
            assert(g(a_subst(f[f.len() - 1].0, v, by)));
            bump_in(factors_subst(u, v, by), a_subst(a, v, by), e, g);
        }
    }
}

/// The atoms of the result of a substitution are those of the polynomial with the substitution made
/// in them, and those of what replaces.
pub proof fn atoms_among(p: PolyV, v: int, by: PolyV, g: spec_fn(AtomV) -> bool)
    requires
        atoms_in(by, g),
        forall|i: int, j: int|
            #![trigger p.terms[i].0.factors[j]]
            0 <= i < p.terms.len() && 0 <= j < p.terms[i].0.factors.len() && p.terms[i].0.factors[j].0 != AtomV::Var(v)
                ==> g(a_subst(p.terms[i].0.factors[j].0, v, by)),
    ensures
        atoms_in(p_subst(p, v, by), g),
{
    reveal(p_subst);
    made_closed(g);
    assert forall|i: int| 0 <= i < p.terms.len() implies made_of(g)(m_subst((#[trigger] p.terms[i]).0, v, by)) by {
        let f = p.terms[i].0.factors;
        assert forall|j: int| 0 <= j < f.len() && (#[trigger] f[j]).0 != AtomV::Var(v) implies g(
            a_subst(f[j].0, v, by),
        ) by {
            assert(p.terms[i].0.factors[j] == f[j]);
        }
        factors_among(f, v, by, g);
    }
    terms_among(p.terms, v, by, made_of(g));
}

/// The atoms that do not mention a variable.
pub open spec fn without(v: int) -> spec_fn(AtomV) -> bool {
    |a: AtomV| !a_mentions(a, v)
}

pub proof fn mentions_atoms(p: PolyV, v: int)
    ensures
        p_mentions(p, v) == !atoms_in(p, without(v)),
{
    if atoms_in(p, without(v)) {
        assert forall|i: int, j: int|
            #![trigger p.terms[i].0.factors[j]]
            0 <= i < p.terms.len() && 0 <= j < p.terms[i].0.factors.len() implies !a_mentions(
            p.terms[i].0.factors[j].0,
            v,
        ) by {
            assert(made_of(without(v))(p.terms[i].0));
            let f = p.terms[i].0.factors;
            assert(without(v)(f[j].0));
        }
    }
    if !p_mentions(p, v) {
        assert forall|i: int| 0 <= i < p.terms.len() implies made_of(without(v))((#[trigger] p.terms[i]).0) by {
            let f = p.terms[i].0.factors;
            assert forall|j: int| 0 <= j < f.len() implies without(v)((#[trigger] f[j]).0) by {
                assert(p.terms[i].0.factors[j] == f[j]);
            }
        }
    }
}

proof fn atom_replaced(a: AtomV, v: int, by: PolyV)
    requires
        a != AtomV::Var(v),
        !p_mentions(by, v),
    ensures
        !a_mentions(a_subst(a, v, by), v),
    decreases a,
{
    reveal(p_subst);
    match a {
        AtomV::Log(q) => {
            replaced_unmentioned(*q, v, by);
        },
        AtomV::Opaque(o) => {
            let r = a_subst(a, v, by)->Opaque_0;
            assert forall|i: int| 0 <= i < r.args.len() implies !arg_mentions(#[trigger] r.args[i], v) by {
                assert(r.args[i] == arg_subst(o.args[i], v, by));
                if let Some(p) = o.args[i] {
                    replaced_unmentioned(p, v, by);
                }
            }
        },
        _ => {},
    }
}

/// A variable replaced by what does not mention it is not mentioned.
pub proof fn replaced_unmentioned(p: PolyV, v: int, by: PolyV)
    requires
        !p_mentions(by, v),
    ensures
        !p_mentions(p_subst(p, v, by), v),
    decreases p,
{
    assert forall|i: int, j: int|
        #![trigger p.terms[i].0.factors[j]]
        0 <= i < p.terms.len() && 0 <= j < p.terms[i].0.factors.len() && p.terms[i].0.factors[j].0 != AtomV::Var(v)
            implies without(v)(a_subst(p.terms[i].0.factors[j].0, v, by)) by {
        atom_replaced(p.terms[i].0.factors[j].0, v, by);
    }
    mentions_atoms(by, v);
    atoms_among(p, v, by, without(v));
    mentions_atoms(p_subst(p, v, by), v);
}

// ---- one after the other ----

/// What is replaced, and by what, in turn.
pub type Steps = Seq<(int, PolyV)>;

pub open spec fn in_turn(p: PolyV, s: Steps, k: nat) -> PolyV
    decreases k,
{
    if k == 0 {
        p
    } else {
        p_subst(in_turn(p, s, (k - 1) as nat), s[k - 1].0, s[k - 1].1)
    }
}

/// The weight in which the variables from the `k`-th step on are worth what replaces them.
pub open spec fn chained(w: Weight, s: Steps, k: int) -> Weight
    decreases s.len() - k,
{
    if 0 <= k < s.len() {
        replaced(chained(w, s, k + 1), s[k].0, s[k].1)
    } else {
        w
    }
}

/// The variables from the `k`-th step on have natural exponents.
pub open spec fn naturals(s: Steps, k: int) -> spec_fn(MonoV) -> bool {
    |m: MonoV| forall|j: int| k <= j < s.len() ==> natural_in(m, (#[trigger] s[j]).0)
}

/// The variables differ, and what replaces one has natural exponents of those after it.
pub open spec fn orderly(s: Steps) -> bool {
    &&& forall|i: int, j: int| 0 <= i < j < s.len() ==> (#[trigger] s[i]).0 != (#[trigger] s[j]).0
    &&& forall|i: int| 0 <= i < s.len() ==> p_wf((#[trigger] s[i]).1) && all_in(s[i].1, naturals(s, i + 1))
}

pub proof fn naturals_closed(s: Steps, k: int)
    requires
        0 <= k,
    ensures
        naturals(s, k)(m_one()),
        forall|a: MonoV, b: MonoV|
            m_wf(a) && m_wf(b) && naturals(s, k)(a) && naturals(s, k)(b) ==> naturals(s, k)(#[trigger] m_mul(a, b)),
{
    assert forall|j: int| k <= j < s.len() implies natural_in(m_one(), (#[trigger] s[j]).0) by {
        one_natural(s[j].0);
    }
    assert forall|a: MonoV, b: MonoV| m_wf(a) && m_wf(b) && naturals(s, k)(a) && naturals(s, k)(b) implies naturals(
        s,
        k,
    )(#[trigger] m_mul(a, b)) by {
        assert forall|j: int| k <= j < s.len() implies natural_in(m_mul(a, b), (#[trigger] s[j]).0) by {
            assert(natural_in(a, s[j].0) && natural_in(b, s[j].0));
            product_natural(a, b, s[j].0);
        }
    }
}

proof fn chained_on(w: Weight, s: Steps, k: int)
    requires
        valuation(w),
        orderly(s),
        0 <= k <= s.len(),
    ensures
        valuation_on(chained(w, s, k), naturals(s, k)),
    decreases s.len() - k,
{
    naturals_closed(s, k);
    if k < s.len() {
        chained_on(w, s, k + 1);
        let (v, by) = s[k];
        assert forall|m: MonoV| m_wf(m) && #[trigger] naturals(s, k)(m) implies natural_in(m, v) && naturals(s, k + 1)(
            m_subst(m, v, by),
        ) by {
            assert(natural_in(m, s[k].0));
            assert forall|j: int| k + 1 <= j < s.len() implies natural_in(m_subst(m, v, by), (#[trigger] s[j]).0) by {
                assert(s[k].0 != s[j].0);
                other_exponent(m, v, by, s[j].0);
                assert(natural_in(m, s[j].0));
            }
        }
        assert(p_wf(s[k].1));
        replaced_on(chained(w, s, k + 1), v, by, naturals(s, k + 1), naturals(s, k));
    }
}

/// The value after all steps is the value with the variables worth what replaces them.
pub proof fn in_turn_value(p: PolyV, s: Steps, w: Weight, k: nat)
    requires
        p_wf(p),
        valuation(w),
        orderly(s),
        all_in(p, naturals(s, 0)),
        k <= s.len(),
    ensures
        p_wf(in_turn(p, s, k)),
        all_in(in_turn(p, s, k), naturals(s, k as int)),
        p_value(in_turn(p, s, k), chained(w, s, k as int)) == p_value(p, chained(w, s, 0)),
    decreases k,
{
    if k > 0 {
        let i = k - 1;
        in_turn_value(p, s, w, i as nat);
        let q = in_turn(p, s, i as nat);
        let (v, by) = s[i];
        let ok = naturals(s, k as int);
        chained_on(w, s, k as int);
        assert(p_wf(s[i].1) && all_in(s[i].1, naturals(s, i + 1)));
        assert forall|j: int| 0 <= j < q.terms.len() implies m_wf((#[trigger] q.terms[j]).0) && ok(
            m_subst(q.terms[j].0, v, by),
        ) by {
            let m = q.terms[j].0;
            assert(m_wf(q.terms[j].0));
            assert(naturals(s, i)(q.terms[j].0));
            assert forall|l: int| k <= l < s.len() implies natural_in(m_subst(m, v, by), (#[trigger] s[l]).0) by {
                assert(s[i].0 != s[l].0);
                other_exponent(m, v, by, s[l].0);
                assert(natural_in(m, s[l].0));
            }
        }
        terms_subst_on(q.terms, v, by, chained(w, s, k as int), ok);
        reveal(p_subst);
        assert(chained(w, s, i) == replaced(chained(w, s, k as int), v, by));
    }
}

// ---- several at once ----

/// The variables moved to where they wait, then replaced there.
pub open spec fn steps_of(map: Seq<(usize, PolyV)>) -> Steps {
    let n = map.len();
    Seq::new(
        2 * n,
        |i: int|
            if i < n {
                (map[i].0 as int, p_var(parked(i)))
            } else {
                (parked(i - n), map[i - n].1)
            },
    )
}

pub proof fn many_in_turn(p: PolyV, map: Seq<(usize, PolyV)>, k: nat)
    requires
        k <= map.len(),
    ensures
        in_turn(p, steps_of(map), k) == p_park(p, map, k),
        in_turn(p, steps_of(map), map.len() + k) == p_unpark(p_park(p, map, map.len()), map, k),
    decreases k + map.len(),
{
    let s = steps_of(map);
    let n = map.len();
    parks_in_turn(p, map, k);
    if k == 0 {
        parks_in_turn(p, map, n);
    } else {
        many_in_turn(p, map, (k - 1) as nat);
        assert(s[n + k - 1] == (parked(k - 1), map[k - 1].1));
    }
}

proof fn parks_in_turn(p: PolyV, map: Seq<(usize, PolyV)>, k: nat)
    requires
        k <= map.len(),
    ensures
        in_turn(p, steps_of(map), k) == p_park(p, map, k),
    decreases k,
{
    if k > 0 {
        parks_in_turn(p, map, (k - 1) as nat);
        assert(steps_of(map)[k - 1] == (map[k - 1].0 as int, p_var(parked(k - 1))));
    }
}

/// The variable stands only by itself: every other factor is canonical and does not mention it.
pub open spec fn settled_in(m: MonoV, v: int) -> bool {
    forall|j: int|
        0 <= j < m.factors.len() ==> (#[trigger] m.factors[j]).0 == AtomV::Var(v) || (a_deep(m.factors[j].0)
            && !a_mentions(m.factors[j].0, v))
}

/// The value of a monomial with the variables from the `k`-th on at the values of what replaces
/// them, all taken before anything is replaced.
pub open spec fn value_with(w: Weight, map: Seq<(usize, PolyV)>, m: MonoV, k: int) -> real
    decreases map.len() - k,
{
    if 0 <= k < map.len() {
        let x = AtomV::Var(map[k].0 as int);
        value_with(w, map, MonoV { factors: erase(m.factors, x) }, k + 1) * real_pow(
            p_value(map[k].1, w),
            count_of(value(m.factors, x)),
        )
    } else {
        w(m)
    }
}

/// Nothing that the polynomial mentions is where variables wait.
pub open spec fn none_waits(p: PolyV, n: nat) -> bool {
    forall|i: int| 0 <= i < n ==> !#[trigger] p_mentions(p, parked(i))
}

/// What a replacement at once asks for: the variables differ and do not wait themselves, and what
/// replaces them is canonical and mentions none that wait.
pub open spec fn map_ok(map: Seq<(usize, PolyV)>) -> bool {
    &&& forall|i: int, j: int| 0 <= i < j < map.len() ==> (#[trigger] map[i]).0 != (#[trigger] map[j]).0
    &&& forall|i: int|
        0 <= i < map.len() ==> (#[trigger] map[i]).0 < parked(0) && p_deep(map[i].1) && none_waits(map[i].1, map.len())
}

/// The polynomial has the variables by themselves only, at natural exponents, and mentions none that
/// wait.
pub open spec fn takes(p: PolyV, map: Seq<(usize, PolyV)>) -> bool {
    &&& p_deep(p)
    &&& none_waits(p, map.len())
    &&& forall|i: int, j: int|
        0 <= i < p.terms.len() && 0 <= j < map.len() ==> natural_in((#[trigger] p.terms[i]).0, (#[trigger] map[j]).0 as int)
            && settled_in(p.terms[i].0, map[j].0 as int)
}

pub proof fn zero_natural(m: MonoV, v: int)
    requires
        value(m.factors, AtomV::Var(v)) == 0real,
    ensures
        natural_in(m, v),
        count_of(value(m.factors, AtomV::Var(v))) == 0,
{
    ratio_one(0);
    whole_parts(0);
    assert(0real == ratio(0, 1));
}

/// A variable that a term's polynomial does not mention has no exponent in it.
pub proof fn unmentioned_exponent(p: PolyV, i: int, v: int)
    requires
        p_wf(p),
        !p_mentions(p, v),
        0 <= i < p.terms.len(),
    ensures
        value(p.terms[i].0.factors, AtomV::Var(v)) == 0real,
        forall|j: int| 0 <= j < p.terms[i].0.factors.len() ==> !a_mentions((#[trigger] p.terms[i].0.factors[j]).0, v),
{
    let f = p.terms[i].0.factors;
    let x = AtomV::Var(v);
    assert(m_wf(p.terms[i].0));
    assert forall|j: int| 0 <= j < f.len() implies !a_mentions((#[trigger] f[j]).0, v) by {
        assert(p.terms[i].0.factors[j] == f[j]);
    }
    weigh_pick(f, x);
    let zero = |a: AtomV| 0real;
    assert forall|j: int| 0 <= j < f.len() implies pick(x)((#[trigger] f[j]).0) == zero(f[j].0) by {
        assert(!a_mentions(f[j].0, v));
    }
    weigh_agrees(f, pick(x), zero);
    weigh_zero::<AtomV>(f);
}

proof fn var_in(u: int, ok: spec_fn(MonoV) -> bool)
    requires
        ok(m_atom(AtomV::Var(u))),
    ensures
        p_wf(p_var(u)),
        all_in(p_var(u), ok),
{
    m_atom_wf(AtomV::Var(u));
    p_term_wf(m_atom(AtomV::Var(u)), 1real);
}

pub proof fn steps_orderly(map: Seq<(usize, PolyV)>)
    requires
        map_ok(map),
    ensures
        orderly(steps_of(map)),
{
    let s = steps_of(map);
    let n = map.len();
    assert forall|i: int, j: int| 0 <= i < j < s.len() implies (#[trigger] s[i]).0 != (#[trigger] s[j]).0 by {
        if i < n {
            assert(map[i].0 < parked(0));
            if j < n {
                assert(map[i].0 != map[j].0);
            }
        }
    }
    assert forall|i: int| 0 <= i < s.len() implies p_wf((#[trigger] s[i]).1) && all_in(s[i].1, naturals(s, i + 1)) by {
        let ok = naturals(s, i + 1);
        if i < n {
            let u = parked(i);
            let m = m_atom(AtomV::Var(u));
            assert forall|j: int| i + 1 <= j < s.len() implies natural_in(m, (#[trigger] s[j]).0) by {
                atom_exponent(AtomV::Var(u), AtomV::Var(s[j].0));
                ratio_one(0);
                ratio_one(1);
                assert(0real == ratio(0, 1) && 1real == ratio(1, 1));
            }
            var_in(u, ok);
        } else {
            let by = map[i - n].1;
            assert(p_deep(map[i - n].1) && none_waits(map[i - n].1, n));
            assert forall|l: int| 0 <= l < by.terms.len() implies ok((#[trigger] by.terms[l]).0) by {
                let m = by.terms[l].0;
                assert forall|j: int| i + 1 <= j < s.len() implies natural_in(m, (#[trigger] s[j]).0) by {
                    assert(!p_mentions(by, parked(j - n)));
                    unmentioned_exponent(by, l, parked(j - n));
                    zero_natural(m, s[j].0);
                }
            }
        }
    }
}

/// Where nothing waits in a monomial, the steps that replace what waits leave its value.
proof fn chained_waiting(w: Weight, map: Seq<(usize, PolyV)>, m: MonoV, k: int)
    requires
        m_wf(m),
        map.len() <= k <= 2 * map.len(),
        forall|i: int| 0 <= i < map.len() ==> #[trigger] free_of(m, parked(i)),
    ensures
        chained(w, steps_of(map), k)(m) == w(m),
    decreases 2 * map.len() - k,
{
    let s = steps_of(map);
    if k < s.len() {
        chained_waiting(w, map, m, k + 1);
        let (v, by) = s[k];
        assert(free_of(m, parked(k - map.len())));
        assert forall|j: int| 0 <= j < m.factors.len() implies a_subst((#[trigger] m.factors[j]).0, v, by)
            == m.factors[j].0 && m.factors[j].0 != AtomV::Var(v) by {
            atom_unmentioned(m.factors[j].0, v, by);
        }
        mono_unmentioned(m, v, by);
        zero_natural(m, v);
        let x = w(m);
        assert(x * 1real == x) by (nonlinear_arith);
    }
}

/// The value of what replaces a variable, as the later steps see it, is its value.
proof fn replacement_value(w: Weight, map: Seq<(usize, PolyV)>, i: int, k: int)
    requires
        map_ok(map),
        0 <= i < map.len(),
        map.len() <= k <= 2 * map.len(),
    ensures
        p_value(map[i].1, chained(w, steps_of(map), k)) == p_value(map[i].1, w),
{
    let by = map[i].1;
    let c = chained(w, steps_of(map), k);
    assert(p_deep(map[i].1) && none_waits(map[i].1, map.len()));
    assert forall|l: int| 0 <= l < by.terms.len() implies c((#[trigger] by.terms[l]).0) == w(by.terms[l].0) by {
        let m = by.terms[l].0;
        assert(m_wf(by.terms[l].0));
        assert forall|j: int| 0 <= j < map.len() implies #[trigger] free_of(m, parked(j)) by {
            assert(!p_mentions(by, parked(j)));
            unmentioned_exponent(by, l, parked(j));
            assert forall|a: int| 0 <= a < m.factors.len() implies a_deep((#[trigger] m.factors[a]).0) && !a_mentions(
                m.factors[a].0,
                parked(j),
            ) by {
                assert(a_deep(by.terms[l].0.factors[a].0));
            }
        }
        chained_waiting(w, map, m, k);
    }
    weigh_agrees(by.terms, c, w);
}

proof fn chained_one(w: Weight, s: Steps, k: int)
    requires
        w(m_one()) == 1real,
        0 <= k <= s.len(),
    ensures
        chained(w, s, k)(m_one()) == 1real,
    decreases s.len() - k,
{
    if k < s.len() {
        chained_one(w, s, k + 1);
        let (v, by) = s[k];
        assert(m_subst(m_one(), v, by).factors =~= m_one().factors);
        ratio_one(0);
        whole_parts(0);
        assert(0real == ratio(0, 1));
        weigh_pick(m_one().factors, AtomV::Var(v));
        assert(1real * 1real == 1real);
    }
}

/// A variable that waits is worth what replaces it.
proof fn waiting_value(w: Weight, map: Seq<(usize, PolyV)>, i: int, k: int)
    requires
        w(m_one()) == 1real,
        map_ok(map),
        0 <= i < map.len(),
        i < k <= map.len() + i,
    ensures
        p_value(p_var(parked(i)), chained(w, steps_of(map), k)) == p_value(map[i].1, w),
    decreases map.len() + i - k,
{
    let s = steps_of(map);
    let n = map.len();
    let a = AtomV::Var(parked(i));
    let m = m_atom(a);
    let (v, by) = s[k];
    let later = chained(w, s, k + 1);
    m_atom_wf(a);
    term_value(m, 1real, chained(w, s, k));
    atom_exponent(a, AtomV::Var(v));
    if k == n + i {
        assert(v == parked(i));
        itself_subst(v, by);
        ratio_one(1);
        whole_parts(1);
        assert(1real == ratio(1, 1));
        reveal_with_fuel(real_pow, 2);
        replacement_value(w, map, i, k + 1);
        chained_one(w, s, k + 1);
        let y = p_value(by, later);
        assert(1real * (1real * y) == y) by (nonlinear_arith);
        assert(1real * y == y) by (nonlinear_arith);
    } else {
        assert(v != parked(i)) by {
            if k < n {
                assert(map[k].0 < parked(0));
            }
        }
        waiting_value(w, map, i, k + 1);
        term_value(m, 1real, later);
        atom_subst(a, v, by);
        zero_natural(m, v);
        let y = later(m);
        assert(1real * (y * 1real) == 1real * y) by (nonlinear_arith);
    }
}

pub proof fn rest_among(m: MonoV, x: AtomV, j: int)
    requires
        0 <= j < erase(m.factors, x).len(),
    ensures
        m.factors.contains(erase(m.factors, x)[j]),
{
    slot_place(m.factors, x);
    if holds(m.factors, x) && j >= slot(m.factors, x) {
        assert(erase(m.factors, x)[j] == m.factors[j + 1]);
    } else {
        assert(erase(m.factors, x)[j] == m.factors[j]);
    }
}

proof fn rest_free(m: MonoV, v: int, u: int)
    requires
        free_of(m, u),
    ensures
        free_of(MonoV { factors: erase(m.factors, AtomV::Var(v)) }, u),
{
    let f = erase(m.factors, AtomV::Var(v));
    assert forall|j: int| 0 <= j < f.len() implies a_deep((#[trigger] f[j]).0) && !a_mentions(f[j].0, u) by {
        rest_among(m, AtomV::Var(v), j);
        let l = choose|l: int| 0 <= l < m.factors.len() && m.factors[l] == f[j];
        assert(a_deep(m.factors[l].0));
    }
}

/// A variable that stands only by itself is taken out, and nothing else changes.
pub proof fn settled_subst(m: MonoV, v: int, by: PolyV)
    requires
        m_wf(m),
        settled_in(m, v),
    ensures
        m_subst(m, v, by) == (MonoV { factors: erase(m.factors, AtomV::Var(v)) }),
        m_wf(MonoV { factors: erase(m.factors, AtomV::Var(v)) }),
{
    let x = AtomV::Var(v);
    let f = erase(m.factors, x);
    erase_sorted(m.factors, x);
    factors_subst_wf(m.factors, v, by);
    assert forall|j: int| 0 <= j < m.factors.len() implies (#[trigger] m.factors[j]).0 == x || a_subst(
        m.factors[j].0,
        v,
        by,
    ) == m.factors[j].0 by {
        if m.factors[j].0 != x {
            atom_unmentioned(m.factors[j].0, v, by);
        }
    }
    assert forall|a: AtomV| #[trigger] value(m_subst(m, v, by).factors, a) == value(f, a) by {
        subst_exponent(m.factors, v, by, a);
        let other = pulled(v, by, a);
        if a == x {
            let zero = |b: AtomV| 0real;
            assert forall|j: int| 0 <= j < m.factors.len() implies other((#[trigger] m.factors[j]).0) == zero(
                m.factors[j].0,
            ) by {}
            weigh_agrees(m.factors, other, zero);
            weigh_zero::<AtomV>(m.factors);
        } else {
            weigh_pick(m.factors, a);
            assert forall|j: int| 0 <= j < m.factors.len() implies other((#[trigger] m.factors[j]).0) == pick(a)(
                m.factors[j].0,
            ) by {}
            weigh_agrees(m.factors, other, pick(a));
        }
    }
    canonical_unique(m_subst(m, v, by).factors, f);
}

pub proof fn rest_settled(m: MonoV, v: int, u: int)
    requires
        settled_in(m, u),
    ensures
        settled_in(MonoV { factors: erase(m.factors, AtomV::Var(v)) }, u),
{
    let f = erase(m.factors, AtomV::Var(v));
    assert forall|j: int| 0 <= j < f.len() implies (#[trigger] f[j]).0 == AtomV::Var(u) || (a_deep(f[j].0)
        && !a_mentions(f[j].0, u)) by {
        rest_among(m, AtomV::Var(v), j);
        let l = choose|l: int| 0 <= l < m.factors.len() && m.factors[l] == f[j];
        assert(m.factors[l].0 == AtomV::Var(u) || a_deep(m.factors[l].0));
    }
}

/// The steps that move the variables give a monomial the value with all of them replaced.
pub proof fn chained_moving(w: Weight, map: Seq<(usize, PolyV)>, m: MonoV, k: int)
    requires
        w(m_one()) == 1real,
        map_ok(map),
        m_wf(m),
        0 <= k <= map.len(),
        forall|j: int| k <= j < map.len() ==> settled_in(m, (#[trigger] map[j]).0 as int),
        forall|i: int| 0 <= i < map.len() ==> #[trigger] free_of(m, parked(i)),
    ensures
        chained(w, steps_of(map), k)(m) == value_with(w, map, m, k),
    decreases map.len() - k,
{
    let s = steps_of(map);
    if k == map.len() {
        chained_waiting(w, map, m, k);
    } else {
        let (v, by) = s[k];
        assert(v == map[k].0 as int);
        let rest = MonoV { factors: erase(m.factors, AtomV::Var(v)) };
        assert(settled_in(m, map[k].0 as int));
        settled_subst(m, v, by);
        assert forall|j: int| k + 1 <= j < map.len() implies settled_in(rest, (#[trigger] map[j]).0 as int) by {
            rest_settled(m, v, map[j].0 as int);
        }
        assert forall|i: int| 0 <= i < map.len() implies #[trigger] free_of(rest, parked(i)) by {
            assert(free_of(m, parked(i)));
            rest_free(m, v, parked(i));
        }
        chained_moving(w, map, rest, k + 1);
        waiting_value(w, map, k, k + 1);
    }
}

/// Several variables are replaced at once: the value is that of the polynomial with each of them at
/// the value that what replaces it has before anything is replaced.
pub proof fn subst_many_value(p: PolyV, map: Seq<(usize, PolyV)>, w: Weight)
    requires
        valuation(w),
        map_ok(map),
        takes(p, map),
        parked(map.len() as int) <= usize::MAX,
    ensures
        p_value(p_subst_many(p, map), w) == p_value(p, |m: MonoV| value_with(w, map, m, 0)),
{
    let s = steps_of(map);
    let n = map.len();
    steps_orderly(map);
    many_in_turn(p, map, n);
    assert forall|i: int| 0 <= i < p.terms.len() implies naturals(s, 0)((#[trigger] p.terms[i]).0) by {
        let m = p.terms[i].0;
        assert forall|j: int| 0 <= j < s.len() implies natural_in(m, (#[trigger] s[j]).0) by {
            if j < n {
                assert(natural_in(p.terms[i].0, map[j].0 as int));
            } else {
                assert(!p_mentions(p, parked(j - n)));
                unmentioned_exponent(p, i, parked(j - n));
                zero_natural(m, s[j].0);
            }
        }
    }
    in_turn_value(p, s, w, s.len());
    let to = |m: MonoV| value_with(w, map, m, 0);
    assert forall|i: int| 0 <= i < p.terms.len() implies chained(w, s, 0)((#[trigger] p.terms[i]).0) == to(
        p.terms[i].0,
    ) by {
        let m = p.terms[i].0;
        assert(m_wf(p.terms[i].0));
        assert forall|j: int| 0 <= j < n implies settled_in(m, (#[trigger] map[j]).0 as int) by {
            assert(settled_in(p.terms[i].0, map[j].0 as int));
        }
        assert forall|j: int| 0 <= j < n implies #[trigger] free_of(m, parked(j)) by {
            assert(!p_mentions(p, parked(j)));
            unmentioned_exponent(p, i, parked(j));
            assert forall|a: int| 0 <= a < m.factors.len() implies a_deep((#[trigger] m.factors[a]).0) && !a_mentions(
                m.factors[a].0,
                parked(j),
            ) by {
                assert(a_deep(p.terms[i].0.factors[a].0));
            }
        }
        chained_moving(w, map, m, 0);
    }
    weigh_agrees(p.terms, chained(w, s, 0), to);
}

} // verus!
