//! Products of polynomials that are not zero: the product is not zero either, and degrees add.
//!
//! Monomials are put in an order that products respect: by a list of keys that add up in a
//! product, compared one after the other. The highest term of a product is the product of the
//! highest terms.

use vstd::prelude::*;
use crate::cost::algebra::{
    coefficient, m_mul, m_mul_wf, m_wf, mul_rows, mul_rows_weigh, p_mul, p_mul_wf, p_wf, p_zero, rowed, shifted,
    weigh_agrees, weigh_zero,
};
use crate::cost::assoc::{
    canonical_unique, entry_found, merge_weigh, pick, slot, slot_place, value, weigh, weigh_pick, Ranked,
};
use crate::cost::forms::{degree_over, p_degree_in, terms_degree_in};
use crate::cost::model::{AtomV, MonoV, PolyV};

verus! {

// ---- the order ----

/// What a variable of the list counts for.
pub open spec fn counts(vars: Seq<int>) -> spec_fn(AtomV) -> real {
    |a: AtomV|
        match a {
            AtomV::Var(i) => if vars.contains(i) {
                1real
            } else {
                0real
            },
            _ => 0real,
        }
}

pub proof fn degree_weighs(f: Seq<(AtomV, real)>, vars: Seq<int>)
    ensures
        degree_over(f, vars) == weigh(f, counts(vars)),
    decreases f.len(),
{
    if f.len() > 0 {
        degree_weighs(f.drop_last(), vars);
        let x = f.last().1;
        assert(x * 1real == x) by (nonlinear_arith);
        assert(x * 0real == 0real) by (nonlinear_arith);
    }
}

/// The `i`-th key of a monomial: first the degree, then the exponents of the atoms in turn.
spec fn key(m: MonoV, vars: Seq<int>, ks: Seq<AtomV>, i: int) -> real {
    if i == 0 {
        degree_over(m.factors, vars)
    } else {
        value(m.factors, ks[i - 1])
    }
}

proof fn key_adds(a: MonoV, b: MonoV, vars: Seq<int>, ks: Seq<AtomV>, i: int)
    requires
        m_wf(a),
        m_wf(b),
    ensures
        key(m_mul(a, b), vars, ks, i) == key(a, vars, ks, i) + key(b, vars, ks, i),
{
    if i == 0 {
        degree_weighs(a.factors, vars);
        degree_weighs(b.factors, vars);
        degree_weighs(m_mul(a, b).factors, vars);
        merge_weigh(a.factors, b.factors, counts(vars));
    } else {
        m_mul_wf(a, b);
    }
}

/// The keys of `a` and `b` before the `i`-th are the same.
spec fn level(a: MonoV, b: MonoV, vars: Seq<int>, ks: Seq<AtomV>, i: int) -> bool {
    forall|j: int| 0 <= j < i ==> #[trigger] key(a, vars, ks, j) == key(b, vars, ks, j)
}

spec fn above_at(a: MonoV, b: MonoV, vars: Seq<int>, ks: Seq<AtomV>, i: int) -> bool {
    0 <= i <= ks.len() && level(a, b, vars, ks, i) && key(a, vars, ks, i) > key(b, vars, ks, i)
}

/// At the first key that differs `a` has more than `b`.
spec fn above(a: MonoV, b: MonoV, vars: Seq<int>, ks: Seq<AtomV>) -> bool {
    exists|i: int| #[trigger] above_at(a, b, vars, ks, i)
}

proof fn above_chain(a: MonoV, b: MonoV, c: MonoV, vars: Seq<int>, ks: Seq<AtomV>)
    requires
        above(a, b, vars, ks),
        above(b, c, vars, ks),
    ensures
        above(a, c, vars, ks),
{
    let i = choose|i: int| #[trigger] above_at(a, b, vars, ks, i);
    let j = choose|j: int| #[trigger] above_at(b, c, vars, ks, j);
    let k = if i < j {
        i
    } else {
        j
    };
    assert forall|l: int| 0 <= l < k implies #[trigger] key(a, vars, ks, l) == key(c, vars, ks, l) by {
        assert(key(a, vars, ks, l) == key(b, vars, ks, l));
        assert(key(b, vars, ks, l) == key(c, vars, ks, l));
    }
    if i < j {
        assert(key(b, vars, ks, i) == key(c, vars, ks, i));
    } else if j < i {
        assert(key(a, vars, ks, j) == key(b, vars, ks, j));
    }
    assert(above_at(a, c, vars, ks, k));
}

proof fn above_strict(a: MonoV, b: MonoV, vars: Seq<int>, ks: Seq<AtomV>)
    requires
        above(a, b, vars, ks),
    ensures
        a != b,
{
    let i = choose|i: int| #[trigger] above_at(a, b, vars, ks, i);
}

/// Every atom of the monomial is among the keys.
spec fn keyed(m: MonoV, ks: Seq<AtomV>) -> bool {
    forall|i: int| 0 <= i < m.factors.len() ==> ks.contains((#[trigger] m.factors[i]).0)
}

proof fn unkeyed_value(m: MonoV, ks: Seq<AtomV>, x: AtomV)
    requires
        m_wf(m),
        keyed(m, ks),
        !ks.contains(x),
    ensures
        value(m.factors, x) == 0real,
{
    weigh_pick(m.factors, x);
    let zero = |k: AtomV| 0real;
    assert forall|i: int| 0 <= i < m.factors.len() implies pick(x)((#[trigger] m.factors[i]).0) == zero(
        m.factors[i].0,
    ) by {
        assert(ks.contains(m.factors[i].0));
    }
    weigh_agrees(m.factors, pick(x), zero);
    weigh_zero::<AtomV>(m.factors);
}

/// The first key from `i` on that differs, if any does.
proof fn above_total_from(a: MonoV, b: MonoV, vars: Seq<int>, ks: Seq<AtomV>, i: int)
    requires
        0 <= i <= ks.len() + 1,
        level(a, b, vars, ks, i),
    ensures
        above(a, b, vars, ks) || above(b, a, vars, ks) || level(a, b, vars, ks, ks.len() as int + 1),
    decreases ks.len() + 1 - i,
{
    if i <= ks.len() {
        if key(a, vars, ks, i) > key(b, vars, ks, i) {
            assert(above_at(a, b, vars, ks, i));
        } else if key(a, vars, ks, i) < key(b, vars, ks, i) {
            assert forall|j: int| 0 <= j < i implies #[trigger] key(b, vars, ks, j) == key(a, vars, ks, j) by {
                assert(key(a, vars, ks, j) == key(b, vars, ks, j));
            }
            assert(above_at(b, a, vars, ks, i));
        } else {
            assert(level(a, b, vars, ks, i + 1));
            above_total_from(a, b, vars, ks, i + 1);
        }
    }
}

proof fn above_total(a: MonoV, b: MonoV, vars: Seq<int>, ks: Seq<AtomV>)
    requires
        m_wf(a),
        m_wf(b),
        keyed(a, ks),
        keyed(b, ks),
        a != b,
    ensures
        above(a, b, vars, ks) || above(b, a, vars, ks),
{
    above_total_from(a, b, vars, ks, 0);
    if level(a, b, vars, ks, ks.len() as int + 1) {
        assert forall|x: AtomV| #[trigger] value(a.factors, x) == value(b.factors, x) by {
            if ks.contains(x) {
                let j = choose|j: int| 0 <= j < ks.len() && ks[j] == x;
                assert(key(a, vars, ks, j + 1) == key(b, vars, ks, j + 1));
            } else {
                unkeyed_value(a, ks, x);
                unkeyed_value(b, ks, x);
            }
        }
        canonical_unique(a.factors, b.factors);
    }
}

/// Products respect the order.
proof fn above_product(a: MonoV, b: MonoV, c: MonoV, d: MonoV, vars: Seq<int>, ks: Seq<AtomV>)
    requires
        m_wf(a),
        m_wf(b),
        m_wf(c),
        m_wf(d),
        a == c || above(a, c, vars, ks),
        b == d || above(b, d, vars, ks),
        a != c || b != d,
    ensures
        above(m_mul(a, b), m_mul(c, d), vars, ks),
{
    let i = if a == c {
        ks.len() as int + 1
    } else {
        choose|i: int| #[trigger] above_at(a, c, vars, ks, i)
    };
    let j = if b == d {
        ks.len() as int + 1
    } else {
        choose|j: int| #[trigger] above_at(b, d, vars, ks, j)
    };
    let k = if i < j {
        i
    } else {
        j
    };
    assert forall|l: int| 0 <= l <= k implies #[trigger] key(m_mul(a, b), vars, ks, l) == key(a, vars, ks, l) + key(
        b,
        vars,
        ks,
        l,
    ) && key(m_mul(c, d), vars, ks, l) == key(c, vars, ks, l) + key(d, vars, ks, l) by {
        key_adds(a, b, vars, ks, l);
        key_adds(c, d, vars, ks, l);
    }
    assert forall|l: int| 0 <= l < k implies #[trigger] key(m_mul(a, b), vars, ks, l) == key(
        m_mul(c, d),
        vars,
        ks,
        l,
    ) by {
        assert(key(a, vars, ks, l) == key(c, vars, ks, l));
        assert(key(b, vars, ks, l) == key(d, vars, ks, l));
    }
    assert(key(a, vars, ks, k) >= key(c, vars, ks, k));
    assert(key(b, vars, ks, k) >= key(d, vars, ks, k));
    assert(key(m_mul(a, b), vars, ks, k) > key(m_mul(c, d), vars, ks, k));
    assert(above_at(m_mul(a, b), m_mul(c, d), vars, ks, k));
}

// ---- the highest term ----

spec fn atoms_of(t: Seq<(MonoV, real)>) -> Seq<AtomV>
    decreases t.len(),
{
    if t.len() == 0 {
        Seq::empty()
    } else {
        atoms_of(t.drop_last()) + Seq::new(t.last().0.factors.len(), |i: int| t.last().0.factors[i].0)
    }
}

proof fn atoms_key(t: Seq<(MonoV, real)>, more: Seq<AtomV>, i: int)
    requires
        0 <= i < t.len(),
    ensures
        keyed(t[i].0, atoms_of(t) + more),
        keyed(t[i].0, more + atoms_of(t)),
    decreases t.len(),
{
    let (u, f) = (t.drop_last(), t.last().0.factors);
    let own = Seq::new(f.len(), |i: int| f[i].0);
    let all = atoms_of(t);
    assert forall|j: int| 0 <= j < t[i].0.factors.len() implies all.contains((#[trigger] t[i].0.factors[j]).0) by {
        if i < u.len() {
            atoms_key(u, Seq::empty(), i);
            assert(u[i] == t[i]);
            assert(atoms_of(u) + Seq::<AtomV>::empty() =~= atoms_of(u));
            assert((atoms_of(u)).contains(u[i].0.factors[j].0));
            let l = choose|l: int| 0 <= l < atoms_of(u).len() && atoms_of(u)[l] == t[i].0.factors[j].0;
            assert(all[l] == t[i].0.factors[j].0);
        } else {
            assert(all[atoms_of(u).len() + j] == own[j]);
        }
    }
    assert forall|j: int| 0 <= j < t[i].0.factors.len() implies (all + more).contains((#[trigger] t[i].0.factors[j]).0)
        && (more + all).contains(t[i].0.factors[j].0) by {
        let l = choose|l: int| 0 <= l < all.len() && all[l] == t[i].0.factors[j].0;
        assert((all + more)[l] == t[i].0.factors[j].0);
        assert((more + all)[more.len() + l] == t[i].0.factors[j].0);
    }
}

/// The `i`-th of the first `n` terms is above all the others.
spec fn tops(t: Seq<(MonoV, real)>, vars: Seq<int>, ks: Seq<AtomV>, n: int, i: int) -> bool {
    0 <= i < n && forall|j: int| 0 <= j < n && j != i ==> above(t[i].0, (#[trigger] t[j]).0, vars, ks)
}

proof fn top_term(p: PolyV, vars: Seq<int>, ks: Seq<AtomV>, n: int) -> (r: int)
    requires
        p_wf(p),
        forall|i: int| 0 <= i < p.terms.len() ==> keyed((#[trigger] p.terms[i]).0, ks),
        0 < n <= p.terms.len(),
    ensures
        tops(p.terms, vars, ks, n, r),
    decreases n,
{
    let t = p.terms;
    if n == 1 {
        0
    } else {
        let i = top_term(p, vars, ks, n - 1);
        assert(t[i].0.before(t[n - 1].0));
        MonoV::rank_strict(t[i].0, t[n - 1].0);
        assert(m_wf(t[i].0) && m_wf(t[n - 1].0));
        assert(keyed(t[i].0, ks) && keyed(t[n - 1].0, ks));
        above_total(t[i].0, t[n - 1].0, vars, ks);
        if above(t[i].0, t[n - 1].0, vars, ks) {
            i
        } else {
            assert forall|j: int| 0 <= j < n && j != n - 1 implies above(t[n - 1].0, (#[trigger] t[j]).0, vars, ks) by {
                if j != i {
                    above_chain(t[n - 1].0, t[i].0, t[j].0, vars, ks);
                }
            }
            n - 1
        }
    }
}

proof fn weigh_only<K>(t: Seq<(K, real)>, w: spec_fn(K) -> real, i: int)
    requires
        0 <= i < t.len(),
        forall|j: int| 0 <= j < t.len() && j != i ==> w((#[trigger] t[j]).0) == 0real,
    ensures
        weigh(t, w) == t[i].1 * w(t[i].0),
    decreases t.len(),
{
    let u = t.drop_last();
    if i == t.len() - 1 {
        let zero = |k: K| 0real;
        assert forall|j: int| 0 <= j < u.len() implies w((#[trigger] u[j]).0) == zero(u[j].0) by {
            assert(u[j] == t[j]);
        }
        weigh_agrees(u, w, zero);
        weigh_zero(u);
    } else {
        assert forall|j: int| 0 <= j < u.len() && j != i implies w((#[trigger] u[j]).0) == 0real by {
            assert(u[j] == t[j]);
        }
        weigh_only(u, w, i);
        let x = t.last().1;
        assert(w(t[t.len() - 1].0) == 0real);
        assert(x * 0real == 0real) by (nonlinear_arith);
    }
}

/// The coefficient of the product of the highest terms is the product of theirs.
proof fn top_product(p: PolyV, q: PolyV, vars: Seq<int>, ks: Seq<AtomV>, i: int, j: int)
    requires
        p_wf(p),
        p_wf(q),
        tops(p.terms, vars, ks, p.terms.len() as int, i),
        tops(q.terms, vars, ks, q.terms.len() as int, j),
    ensures
        coefficient(p_mul(p, q), m_mul(p.terms[i].0, q.terms[j].0)) == p.terms[i].1 * q.terms[j].1,
{
    let (s, t) = (p.terms, q.terms);
    let m = m_mul(s[i].0, t[j].0);
    let r = p_mul(p, q);
    p_mul_wf(p, q);
    weigh_pick(r.terms, m);
    mul_rows_weigh(s, t, pick(m));
    let w = rowed(t, pick(m));
    let zero = |k: MonoV| 0real;
    assert forall|a: int, b: int| 0 <= a < s.len() && 0 <= b < t.len() && (a != i || b != j) implies m_mul(
        (#[trigger] s[a]).0,
        (#[trigger] t[b]).0,
    ) != m by {
        assert(m_wf(s[a].0) && m_wf(t[b].0) && m_wf(s[i].0) && m_wf(t[j].0));
        if a != i {
            above_strict(s[i].0, s[a].0, vars, ks);
        }
        if b != j {
            above_strict(t[j].0, t[b].0, vars, ks);
        }
        above_product(s[i].0, t[j].0, s[a].0, t[b].0, vars, ks);
        above_strict(m, m_mul(s[a].0, t[b].0), vars, ks);
    }
    assert forall|a: int| 0 <= a < s.len() && a != i implies w((#[trigger] s[a]).0) == 0real by {
        let f = shifted(s[a].0, pick(m));
        assert forall|b: int| 0 <= b < t.len() implies f((#[trigger] t[b]).0) == zero(t[b].0) by {
            assert(m_mul(s[a].0, t[b].0) != m);
        }
        weigh_agrees(t, f, zero);
        weigh_zero::<MonoV>(t);
    }
    weigh_only(s, w, i);
    let g = shifted(s[i].0, pick(m));
    assert forall|b: int| 0 <= b < t.len() && b != j implies g((#[trigger] t[b]).0) == 0real by {
        assert(m_mul(s[i].0, t[b].0) != m);
    }
    weigh_only(t, g, j);
    let y = t[j].1;
    assert(y * 1real == y) by (nonlinear_arith);
}

// ---- degrees ----

spec fn degree_at(t: Seq<(MonoV, real)>, vars: Seq<int>, i: int) -> real {
    degree_over(t[i].0.factors, vars)
}

/// The degree is that of some term, and no term has more.
proof fn degree_reached(t: Seq<(MonoV, real)>, vars: Seq<int>)
    requires
        t.len() > 0,
    ensures
        ({
            let d = terms_degree_in(t, vars);
            &&& d is Some
            &&& forall|i: int| 0 <= i < t.len() ==> #[trigger] degree_at(t, vars, i) <= d->0
            &&& exists|i: int| 0 <= i < t.len() && #[trigger] degree_at(t, vars, i) == d->0
        }),
    decreases t.len(),
{
    let u = t.drop_last();
    let last = t.len() - 1;
    let d = terms_degree_in(t, vars);
    if u.len() == 0 {
        assert(degree_at(t, vars, last) == d->0);
    } else {
        degree_reached(u, vars);
        let i = choose|i: int| 0 <= i < u.len() && #[trigger] degree_at(u, vars, i) == terms_degree_in(u, vars)->0;
        assert(degree_at(t, vars, i) == degree_at(u, vars, i));
        assert(degree_at(t, vars, last) == degree_over(t.last().0.factors, vars));
        assert forall|j: int| 0 <= j < t.len() implies #[trigger] degree_at(t, vars, j) <= d->0 by {
            if j < last {
                assert(degree_at(u, vars, j) == degree_at(t, vars, j));
            }
        }
    }
}

/// The degree of a polynomial that is not zero is reached by one of its terms and passed by none;
/// that of zero is zero.
pub proof fn degree_is_highest(p: PolyV, vars: Seq<int>)
    ensures
        p.terms.len() == 0 ==> p_degree_in(p, vars) == 0real,
        p.terms.len() > 0 ==> exists|i: int|
            0 <= i < p.terms.len() && degree_over((#[trigger] p.terms[i]).0.factors, vars) == p_degree_in(p, vars),
        forall|i: int|
            0 <= i < p.terms.len() ==> degree_over((#[trigger] p.terms[i]).0.factors, vars) <= p_degree_in(p, vars),
{
    if p.terms.len() > 0 {
        degree_reached(p.terms, vars);
        let i = choose|i: int|
            0 <= i < p.terms.len() && #[trigger] degree_at(p.terms, vars, i) == terms_degree_in(p.terms, vars)->0;
        assert(degree_over(p.terms[i].0.factors, vars) == p_degree_in(p, vars));
        assert forall|i: int| 0 <= i < p.terms.len() implies degree_over((#[trigger] p.terms[i]).0.factors, vars)
            <= p_degree_in(p, vars) by {
            assert(degree_at(p.terms, vars, i) <= terms_degree_in(p.terms, vars)->0);
        }
    }
}

proof fn product_keys(p: PolyV, q: PolyV) -> (ks: Seq<AtomV>)
    ensures
        forall|i: int| 0 <= i < p.terms.len() ==> keyed((#[trigger] p.terms[i]).0, ks),
        forall|i: int| 0 <= i < q.terms.len() ==> keyed((#[trigger] q.terms[i]).0, ks),
{
    let ks = atoms_of(p.terms) + atoms_of(q.terms);
    assert forall|i: int| 0 <= i < p.terms.len() implies keyed((#[trigger] p.terms[i]).0, ks) by {
        atoms_key(p.terms, atoms_of(q.terms), i);
    }
    assert forall|i: int| 0 <= i < q.terms.len() implies keyed((#[trigger] q.terms[i]).0, ks) by {
        atoms_key(q.terms, atoms_of(p.terms), i);
    }
    ks
}

pub proof fn coefficient_held(p: PolyV, m: MonoV) -> (i: int)
    requires
        p_wf(p),
        coefficient(p, m) != 0real,
    ensures
        0 <= i < p.terms.len(),
        p.terms[i].0 == m,
{
    slot_place(p.terms, m);
    slot(p.terms, m)
}

/// A product is zero only where a factor is.
pub proof fn product_not_zero(p: PolyV, q: PolyV)
    requires
        p_wf(p),
        p_wf(q),
    ensures
        p_mul(p, q) == p_zero() <==> p == p_zero() || q == p_zero(),
{
    let r = p_mul(p, q);
    if p.terms.len() == 0 {
        assert(p.terms =~= Seq::empty());
        assert(p == p_zero());
        assert(r.terms =~= Seq::empty());
    } else if q.terms.len() == 0 {
        assert(q.terms =~= Seq::empty());
        assert(q == p_zero());
        rows_of_nothing(p.terms);
        assert(r.terms =~= Seq::empty());
    } else {
        let none = Seq::<int>::empty();
        let ks = product_keys(p, q);
        let i = top_term(p, none, ks, p.terms.len() as int);
        let j = top_term(q, none, ks, q.terms.len() as int);
        top_product(p, q, none, ks, i, j);
        p_mul_wf(p, q);
        let (x, y) = (p.terms[i].1, q.terms[j].1);
        assert(x * y != 0real) by (nonlinear_arith)
            requires
                x != 0real,
                y != 0real,
        ;
        let k = coefficient_held(r, m_mul(p.terms[i].0, q.terms[j].0));
        assert(r.terms.len() > 0);
    }
}

pub proof fn rows_of_nothing(s: Seq<(MonoV, real)>)
    ensures
        mul_rows(s, Seq::empty()).len() == 0,
    decreases s.len(),
{
    if s.len() > 0 {
        rows_of_nothing(s.drop_last());
    }
}

/// Degrees add in a product of polynomials that are not zero.
pub proof fn degrees_add(p: PolyV, q: PolyV, vars: Seq<int>)
    requires
        p_wf(p),
        p_wf(q),
        p != p_zero(),
        q != p_zero(),
    ensures
        p_degree_in(p_mul(p, q), vars) == p_degree_in(p, vars) + p_degree_in(q, vars),
{
    let r = p_mul(p, q);
    assert(p.terms.len() > 0) by {
        if p.terms.len() == 0 {
            assert(p.terms =~= Seq::empty());
        }
    }
    assert(q.terms.len() > 0) by {
        if q.terms.len() == 0 {
            assert(q.terms =~= Seq::empty());
        }
    }
    let ks = product_keys(p, q);
    let i = top_term(p, vars, ks, p.terms.len() as int);
    let j = top_term(q, vars, ks, q.terms.len() as int);
    top_product(p, q, vars, ks, i, j);
    p_mul_wf(p, q);
    let (x, y) = (p.terms[i].1, q.terms[j].1);
    assert(x * y != 0real) by (nonlinear_arith)
        requires
            x != 0real,
            y != 0real,
    ;
    let k = coefficient_held(r, m_mul(p.terms[i].0, q.terms[j].0));
    degree_is_highest(p, vars);
    degree_is_highest(q, vars);
    degree_is_highest(r, vars);
    top_degree(p, vars, ks, i);
    top_degree(q, vars, ks, j);
    key_adds(p.terms[i].0, q.terms[j].0, vars, ks, 0);
    assert(degree_over(r.terms[k].0.factors, vars) == p_degree_in(p, vars) + p_degree_in(q, vars));
    let l = choose|l: int|
        0 <= l < r.terms.len() && degree_over((#[trigger] r.terms[l]).0.factors, vars) == p_degree_in(r, vars);
    let (a, b) = product_term(p, q, l);
    key_adds(p.terms[a].0, q.terms[b].0, vars, ks, 0);
    assert(degree_over(p.terms[a].0.factors, vars) <= p_degree_in(p, vars));
    assert(degree_over(q.terms[b].0.factors, vars) <= p_degree_in(q, vars));
}

/// The highest term has the highest degree.
proof fn top_degree(p: PolyV, vars: Seq<int>, ks: Seq<AtomV>, i: int)
    requires
        tops(p.terms, vars, ks, p.terms.len() as int, i),
    ensures
        degree_over(p.terms[i].0.factors, vars) == p_degree_in(p, vars),
{
    degree_is_highest(p, vars);
    let t = p.terms;
    let l = choose|l: int| 0 <= l < t.len() && degree_over((#[trigger] t[l]).0.factors, vars) == p_degree_in(p, vars);
    if l != i {
        assert(above(t[i].0, t[l].0, vars, ks));
        let k = choose|k: int| #[trigger] above_at(t[i].0, t[l].0, vars, ks, k);
        if k > 0 {
            assert(key(t[i].0, vars, ks, 0) == key(t[l].0, vars, ks, 0));
        }
        assert(key(t[i].0, vars, ks, 0) >= key(t[l].0, vars, ks, 0));
    }
    assert(degree_over(t[i].0.factors, vars) <= p_degree_in(p, vars));
}

/// Every term of a product comes from a term of each factor.
pub proof fn product_term(p: PolyV, q: PolyV, l: int) -> (r: (int, int))
    requires
        p_wf(p),
        p_wf(q),
        0 <= l < p_mul(p, q).terms.len(),
    ensures
        0 <= r.0 < p.terms.len(),
        0 <= r.1 < q.terms.len(),
        p_mul(p, q).terms[l].0 == m_mul(p.terms[r.0].0, q.terms[r.1].0),
{
    let (s, t) = (p.terms, q.terms);
    let pq = p_mul(p, q);
    let m = pq.terms[l].0;
    p_mul_wf(p, q);
    entry_found(pq.terms, l);
    weigh_pick(pq.terms, m);
    mul_rows_weigh(s, t, pick(m));
    let w = rowed(t, pick(m));
    let zero = |k: MonoV| 0real;
    if forall|a: int, b: int|
        0 <= a < s.len() && 0 <= b < t.len() ==> m_mul((#[trigger] s[a]).0, (#[trigger] t[b]).0) != m {
        assert forall|a: int| 0 <= a < s.len() implies w((#[trigger] s[a]).0) == zero(s[a].0) by {
            let f = shifted(s[a].0, pick(m));
            assert forall|b: int| 0 <= b < t.len() implies f((#[trigger] t[b]).0) == zero(t[b].0) by {
                assert(m_mul(s[a].0, t[b].0) != m);
            }
            weigh_agrees(t, f, zero);
            weigh_zero::<MonoV>(t);
        }
        weigh_agrees(s, w, zero);
        weigh_zero::<MonoV>(s);
        assert(pq.terms[l].1 != 0real);
        assert(false);
    }
    let (a, b) = choose|a: int, b: int|
        0 <= a < s.len() && 0 <= b < t.len() && m_mul((#[trigger] s[a]).0, (#[trigger] t[b]).0) == m;
    (a, b)
}

} // verus!
