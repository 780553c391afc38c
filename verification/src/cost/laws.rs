//! What holds of costs as functions of the sizes.
//!
//! A weight gives every product of atoms a value. One that grows with the exponents and is never
//! negative stands for sizes of one or more: `covers(a, b)` says that `a` has at least the
//! exponents of `b`, so `a` is worth at least as much.

use vstd::prelude::*;
use crate::cost::algebra::{difference_value, m_wf, p_sub, p_value, p_wf};
use crate::cost::assoc::{canonical_unique, entry_found, pick, sorted, value, weigh, weigh_pick};
use crate::cost::model::{AtomV, MonoV, PolyV};
use crate::cost::piece::{covers, draw, draw_all, gives, negated, no_negative, p_dominates, s_feasible, CondV};

verus! {

pub type Weight = spec_fn(MonoV) -> real;

/// The weight of sizes of one or more.
pub open spec fn grows(w: Weight) -> bool {
    &&& forall|a: MonoV, b: MonoV| m_wf(a) && m_wf(b) && #[trigger] covers(a, b) ==> w(a) >= w(b)
    &&& forall|a: MonoV| m_wf(a) ==> #[trigger] w(a) >= 0real
}

/// The monomials of a list are canonical.
pub open spec fn keys_ok(s: Seq<(MonoV, real)>) -> bool {
    forall|i: int| 0 <= i < s.len() ==> m_wf((#[trigger] s[i]).0)
}

proof fn weigh_update(b: Seq<(MonoV, real)>, i: int, c: real, w: Weight)
    requires
        0 <= i < b.len(),
    ensures
        weigh(b.update(i, (b[i].0, c)), w) == weigh(b, w) + (c - b[i].1) * w(b[i].0),
    decreases b.len(),
{
    let u = b.update(i, (b[i].0, c));
    if i == b.len() - 1 {
        assert(u.drop_last() =~= b.drop_last());
        let (x, y) = (b[i].1, w(b[i].0));
        assert(c * y == x * y + (c - x) * y) by (nonlinear_arith);
    } else {
        weigh_update(b.drop_last(), i, c, w);
        assert(u.drop_last() =~= b.drop_last().update(i, (b[i].0, c)));
    }
}

/// What is drawn from a budget for a need is worth at least the need.
proof fn draw_value(b: Seq<(MonoV, real)>, m: MonoV, need: real, i: int, w: Weight)
    requires
        grows(w),
        keys_ok(b),
        m_wf(m),
        0 <= i <= b.len(),
    ensures
        ({
            let r = draw(b, m, need, i);
            &&& r.0.len() == b.len()
            &&& keys_ok(r.0)
            &&& weigh(b, w) >= weigh(r.0, w) + (need - r.1) * w(m)
            &&& need >= 0real ==> 0real <= r.1 <= need
            &&& need <= 0real ==> r == (b, need)
            &&& forall|j: int|
                0 <= j < b.len() ==> (#[trigger] r.0[j]).0 == b[j].0 && (b[j].1 >= 0real ==> r.0[j].1 >= 0real) && (
                b[j].1 < 0real ==> r.0[j].1 == b[j].1)
        }),
    decreases b.len() - i,
{
    let wm = w(m);
    if i < b.len() {
        let g = gives(b[i], m, need);
        let u = b.update(i, (b[i].0, b[i].1 - g));
        assert(keys_ok(u)) by {
            assert forall|j: int| 0 <= j < u.len() implies m_wf((#[trigger] u[j]).0) by {
                assert(m_wf(b[j].0));
            }
        }
        draw_value(u, m, need - g, i + 1, w);
        weigh_update(b, i, b[i].1 - g, w);
        let wb = w(b[i].0);
        assert(m_wf(b[i].0));
        assert(g * wb >= g * wm) by {
            if g != 0real {
                assert(covers(b[i].0, m));
                assert(wb >= wm);
                assert(g * wb >= g * wm) by (nonlinear_arith)
                    requires
                        g >= 0real,
                        wb >= wm,
                ;
            } else {
                assert(0real * wb == 0real) by (nonlinear_arith);
                assert(0real * wm == 0real) by (nonlinear_arith);
            }
        }
        let r = draw(b, m, need, i);
        assert((need - g - r.1) * wm + g * wm == (need - r.1) * wm) by (nonlinear_arith);
        let x = b[i].1;
        assert((x - g - x) * wb == -(g * wb)) by (nonlinear_arith);
        assert forall|j: int| 0 <= j < b.len() implies (#[trigger] r.0[j]).0 == b[j].0 && (b[j].1 >= 0real ==> r.0[j].1
            >= 0real) && (b[j].1 < 0real ==> r.0[j].1 == b[j].1) by {
            assert(r.0[j].0 == u[j].0);
        }
        if need <= 0real {
            assert(g == 0real);
            assert(u =~= b);
        }
    } else {
        assert((need - need) * wm == 0real) by (nonlinear_arith);
    }
}

/// What is drawn for all needs is worth at least the needs that are positive.
proof fn draw_all_value(b: Seq<(MonoV, real)>, needs: Seq<(MonoV, real)>, w: Weight)
    requires
        grows(w),
        keys_ok(b),
        keys_ok(needs),
        draw_all(b, needs) is Some,
    ensures
        ({
            let r = draw_all(b, needs)->0;
            &&& r.len() == b.len()
            &&& keys_ok(r)
            &&& weigh(b, w) >= weigh(r, w) + weigh(raised(needs), w)
            &&& weigh(raised(needs), w) >= weigh(needs, w)
            &&& forall|j: int|
                0 <= j < b.len() ==> (#[trigger] r[j]).0 == b[j].0 && (b[j].1 >= 0real ==> r[j].1 >= 0real) && (
                b[j].1 < 0real ==> r[j].1 == b[j].1)
        }),
    decreases needs.len(),
{
    if needs.len() > 0 {
        let (m, c) = needs.last();
        assert(m_wf(needs[needs.len() - 1].0));
        let (u, left) = draw(b, m, c, 0);
        draw_value(b, m, c, 0, w);
        assert(keys_ok(needs.drop_last())) by {
            assert forall|j: int| 0 <= j < needs.drop_last().len() implies m_wf((#[trigger] needs.drop_last()[j]).0) by {
                assert(m_wf(needs[j].0));
            }
        }
        draw_all_value(u, needs.drop_last(), w);
        assert(raised(needs).drop_last() =~= raised(needs.drop_last()));
        let wm = w(m);
        if c > 0real {
            assert(left == 0real);
        } else {
            assert(0real * wm == 0real) by (nonlinear_arith);
            assert(c * wm <= 0real) by (nonlinear_arith)
                requires
                    c <= 0real,
                    wm >= 0real,
            ;
            assert((c - c) * wm == 0real) by (nonlinear_arith);
        }
        let r = draw_all(b, needs)->0;
        assert forall|j: int| 0 <= j < b.len() implies (#[trigger] r[j]).0 == b[j].0 && (b[j].1 >= 0real ==> r[j].1
            >= 0real) && (b[j].1 < 0real ==> r[j].1 == b[j].1) by {
            assert(r[j].0 == u[j].0);
        }
    }
}

/// The list with what is below zero made zero.
pub open spec fn raised(s: Seq<(MonoV, real)>) -> Seq<(MonoV, real)> {
    Seq::new(
        s.len(),
        |i: int|
            (
                s[i].0,
                if s[i].1 > 0real {
                    s[i].1
                } else {
                    0real
                },
            ),
    )
}

/// A list whose negative entries are those of `q` is worth at least the needs that `q` subtracts,
/// negated.
proof fn rest_value(b: Seq<(MonoV, real)>, q: Seq<(MonoV, real)>, w: Weight)
    requires
        grows(w),
        keys_ok(q),
        b.len() == q.len(),
        forall|j: int|
            0 <= j < b.len() ==> (#[trigger] b[j]).0 == q[j].0 && (q[j].1 >= 0real ==> b[j].1 >= 0real) && (q[j].1
                < 0real ==> b[j].1 == q[j].1),
    ensures
        weigh(b, w) + weigh(raised(negated(q)), w) >= 0real,
    decreases b.len(),
{
    if b.len() > 0 {
        let (u, v) = (b.drop_last(), q.drop_last());
        assert forall|j: int| 0 <= j < u.len() implies (#[trigger] u[j]).0 == v[j].0 && (v[j].1 >= 0real ==> u[j].1
            >= 0real) && (v[j].1 < 0real ==> u[j].1 == v[j].1) by {
            assert(u[j] == b[j] && v[j] == q[j]);
        }
        assert(keys_ok(v)) by {
            assert forall|j: int| 0 <= j < v.len() implies m_wf((#[trigger] v[j]).0) by {
                assert(m_wf(q[j].0));
            }
        }
        rest_value(u, v, w);
        let n = b.len() - 1;
        assert(b[n].0 == q[n].0);
        assert(m_wf(q[n].0));
        assert(raised(negated(q)).drop_last() =~= raised(negated(v)));
        let (x, y, z) = (b[n].1, q[n].1, w(q[n].0));
        if y < 0real {
            assert(x * z + (-y) * z == 0real) by (nonlinear_arith)
                requires
                    x == y,
            ;
        } else {
            assert(x * z >= 0real) by (nonlinear_arith)
                requires
                    x >= 0real,
                    z >= 0real,
            ;
            assert(0real * z == 0real) by (nonlinear_arith);
        }
    }
}

proof fn no_negative_value(t: Seq<(MonoV, real)>, w: Weight)
    requires
        grows(w),
        keys_ok(t),
        forall|i: int| 0 <= i < t.len() ==> (#[trigger] t[i]).1 >= 0real,
    ensures
        weigh(t, w) >= 0real,
    decreases t.len(),
{
    if t.len() > 0 {
        let u = t.drop_last();
        assert forall|i: int| 0 <= i < u.len() implies (#[trigger] u[i]).1 >= 0real && m_wf(u[i].0) by {
            assert(u[i] == t[i]);
            assert(m_wf(t[i].0));
        }
        no_negative_value(u, w);
        let (x, y) = (t.last().1, w(t.last().0));
        assert(m_wf(t[t.len() - 1].0));
        assert(t[t.len() - 1].1 >= 0real);
        assert(x * y >= 0real) by (nonlinear_arith)
            requires
                x >= 0real,
                y >= 0real,
        ;
    }
}

/// What dominates is at least as large, at all sizes of one or more.
pub proof fn dominates_is_larger(q: PolyV, p: PolyV, w: Weight)
    requires
        p_wf(q),
        p_wf(p),
        grows(w),
        p_dominates(q, p),
    ensures
        p_value(q, w) >= p_value(p, w),
{
    reveal(p_dominates);
    assert(keys_ok(q.terms) && keys_ok(p.terms));
    if no_negative(p_sub(q, p)) {
        crate::cost::algebra::p_sub_wf(q, p);
        difference_value(q, p, w);
        no_negative_value(p_sub(q, p).terms, w);
    } else {
        let b = draw_all(q.terms, p.terms)->0;
        draw_all_value(q.terms, p.terms, w);
        let n = negated(q.terms);
        assert(keys_ok(n)) by {
            assert forall|j: int| 0 <= j < n.len() implies m_wf((#[trigger] n[j]).0) by {
                assert(m_wf(q.terms[j].0));
            }
        }
        draw_all_value(b, n, w);
        let r = draw_all(b, n)->0;
        assert forall|j: int| 0 <= j < r.len() implies (#[trigger] r[j]).0 == q.terms[j].0 && (q.terms[j].1 >= 0real
            ==> r[j].1 >= 0real) && (q.terms[j].1 < 0real ==> r[j].1 == q.terms[j].1) by {
            assert(r[j].0 == b[j].0);
            assert(b[j].0 == q.terms[j].0);
        }
        rest_value(r, q.terms, w);
    }
}

// ---- dominance is an order ----

/// `q` is at least `p` at all sizes of one or more.
pub open spec fn never_less(q: PolyV, p: PolyV) -> bool {
    forall|w: Weight| #[trigger] grows(w) ==> p_value(q, w) >= p_value(p, w)
}

/// One for what has at least the exponents of `m`, nothing for the rest.
pub open spec fn above(m: MonoV) -> Weight {
    |a: MonoV|
        if covers(a, m) {
            1real
        } else {
            0real
        }
}

proof fn above_grows(m: MonoV)
    ensures
        grows(above(m)),
{
    let w = above(m);
    assert forall|a: MonoV, b: MonoV| m_wf(a) && m_wf(b) && #[trigger] covers(a, b) implies w(a) >= w(b) by {
        if covers(b, m) {
            assert(covers(a, m)) by {
                assert forall|x: AtomV| #[trigger] value(a.factors, x) >= value(m.factors, x) by {
                    assert(value(a.factors, x) >= value(b.factors, x));
                    assert(value(b.factors, x) >= value(m.factors, x));
                }
            }
        }
    }
}

proof fn covers_both(a: MonoV, b: MonoV)
    requires
        m_wf(a),
        m_wf(b),
        covers(a, b),
        covers(b, a),
    ensures
        a == b,
{
    assert forall|x: AtomV| #[trigger] value(a.factors, x) == value(b.factors, x) by {
        assert(value(a.factors, x) >= value(b.factors, x));
        assert(value(b.factors, x) >= value(a.factors, x));
    }
    canonical_unique(a.factors, b.factors);
}

proof fn covers_chain(a: MonoV, b: MonoV, c: MonoV)
    requires
        covers(a, b),
        covers(b, c),
    ensures
        covers(a, c),
{
    assert forall|x: AtomV| #[trigger] value(a.factors, x) >= value(c.factors, x) by {
        assert(value(a.factors, x) >= value(b.factors, x));
        assert(value(b.factors, x) >= value(c.factors, x));
    }
}

/// A product that no other of the list covers.
proof fn top_product(t: Seq<(MonoV, real)>) -> (i: int)
    requires
        t.len() > 0,
        keys_ok(t),
    ensures
        0 <= i < t.len(),
        forall|j: int| 0 <= j < t.len() && covers((#[trigger] t[j]).0, t[i].0) ==> t[j].0 == t[i].0,
    decreases t.len(),
{
    let n = t.len() - 1;
    if n == 0 {
        0
    } else {
        let u = t.drop_last();
        assert(keys_ok(u)) by {
            assert forall|j: int| 0 <= j < u.len() implies m_wf((#[trigger] u[j]).0) by {
                assert(m_wf(t[j].0));
            }
        }
        let i = top_product(u);
        assert(t[i] == u[i]);
        assert(m_wf(t[i].0) && m_wf(t[n].0));
        if covers(t[n].0, t[i].0) && t[n].0 != t[i].0 {
            assert forall|j: int| 0 <= j < t.len() && covers((#[trigger] t[j]).0, t[n].0) implies t[j].0 == t[n].0 by {
                if j < n {
                    covers_chain(t[j].0, t[n].0, t[i].0);
                    assert(u[j] == t[j]);
                    assert(covers(u[j].0, u[i].0));
                    covers_both(t[i].0, t[n].0);
                }
            }
            n
        } else {
            assert forall|j: int| 0 <= j < t.len() && covers((#[trigger] t[j]).0, t[i].0) implies t[j].0 == t[i].0 by {
                if j < n {
                    assert(u[j] == t[j]);
                    assert(covers(u[j].0, u[i].0));
                }
            }
            i
        }
    }
}

proof fn above_top(t: Seq<(MonoV, real)>, m: MonoV, n: int)
    requires
        sorted(t),
        0 <= n <= t.len(),
        forall|j: int| 0 <= j < t.len() && covers((#[trigger] t[j]).0, m) ==> t[j].0 == m,
    ensures
        weigh(t.take(n), above(m)) == weigh(t.take(n), pick(m)),
    decreases n,
{
    if n > 0 {
        above_top(t, m, n - 1);
        assert(t.take(n).drop_last() =~= t.take(n - 1));
        let x = t[n - 1];
        assert(t.take(n).last() == x);
        if x.0 == m {
            assert(covers(x.0, m));
        } else {
            assert(!covers(t[n - 1].0, m));
        }
    } else {
        assert(t.take(0) =~= Seq::empty());
    }
}

/// Two polynomials of which neither is ever less are one.
pub proof fn never_less_both(p: PolyV, q: PolyV)
    requires
        p_wf(p),
        p_wf(q),
        never_less(p, q),
        never_less(q, p),
    ensures
        p == q,
{
    let d = p_sub(p, q);
    crate::cost::algebra::p_sub_wf(p, q);
    let t = d.terms;
    if t.len() > 0 {
        let i = top_product(t);
        let m = t[i].0;
        above_grows(m);
        let w = above(m);
        assert(p_value(p, w) >= p_value(q, w) && p_value(q, w) >= p_value(p, w));
        difference_value(p, q, w);
        assert(weigh(t, w) == 0real);
        assert(t.take(t.len() as int) =~= t);
        above_top(t, m, t.len() as int);
        weigh_pick(t, m);
        entry_found(t, i);
        assert(t[i].1 != 0real);
    }
    assert forall|k: MonoV| #[trigger] value(p.terms, k) == value(q.terms, k) by {
        let w = pick(k);
        difference_value(p, q, w);
        weigh_pick(p.terms, k);
        weigh_pick(q.terms, k);
        assert(t =~= Seq::empty());
    }
    canonical_unique(p.terms, q.terms);
}

/// Of two polynomials that dominate each other there is one.
pub proof fn dominates_both(p: PolyV, q: PolyV)
    requires
        p_wf(p),
        p_wf(q),
        p_dominates(p, q),
        p_dominates(q, p),
    ensures
        p == q,
{
    assert forall|w: Weight| #[trigger] grows(w) implies p_value(p, w) >= p_value(q, w) by {
        dominates_is_larger(p, q, w);
    }
    assert forall|w: Weight| #[trigger] grows(w) implies p_value(q, w) >= p_value(p, w) by {
        dominates_is_larger(q, p, w);
    }
    never_less_both(p, q);
}

// ---- conditions ----

/// A place to evaluate at: the weight of its sizes, and the machine's line and cache in bytes.
pub struct Place {
    pub w: Weight,
    pub b: real,
    pub m: real,
}

/// The sizes are one or more and the line has bytes.
pub open spec fn placed(x: Place) -> bool {
    grows(x.w) && x.b > 0real
}

/// The condition holds at the place.
pub open spec fn cond_true(c: CondV, x: Place) -> bool {
    (p_value(c.ws, x.w) * x.b < x.m) == c.fits
}

pub open spec fn conds_true(s: Seq<CondV>, x: Place) -> bool {
    forall|i: int| 0 <= i < s.len() ==> cond_true(#[trigger] s[i], x)
}

pub open spec fn conds_ok(s: Seq<CondV>) -> bool {
    forall|i: int| 0 <= i < s.len() ==> p_wf((#[trigger] s[i]).ws)
}

pub proof fn fits_below(a: real, c: real, x: Place)
    requires
        a >= c,
        x.b > 0real,
        a * x.b < x.m,
    ensures
        c * x.b < x.m,
{
    let b = x.b;
    assert(a * b >= c * b) by (nonlinear_arith)
        requires
            a >= c,
            b > 0real,
    ;
}

/// Conditions that hold somewhere can hold together.
pub proof fn true_is_feasible(s: Seq<CondV>, x: Place)
    requires
        conds_ok(s),
        placed(x),
        conds_true(s, x),
    ensures
        s_feasible(s),
{
    assert forall|i: int, j: int|
        #![trigger s[i], s[j]]
        0 <= i < s.len() && 0 <= j < s.len() && s[i].fits && !s[j].fits implies !p_dominates(s[i].ws, s[j].ws) by {
        if p_dominates(s[i].ws, s[j].ws) {
            dominates_is_larger(s[i].ws, s[j].ws, x.w);
            assert(cond_true(s[i], x) && cond_true(s[j], x));
            fits_below(p_value(s[i].ws, x.w), p_value(s[j].ws, x.w), x);
        }
    }
}

// ---- finite orders ----

pub closed spec fn ahead(n: nat, b: spec_fn(int, int) -> bool, i: int, k: nat) -> nat
    decreases k,
{
    if k == 0 {
        0
    } else {
        ahead(n, b, i, (k - 1) as nat) + (if b(k - 1, i) {
            1nat
        } else {
            0
        })
    }
}

proof fn ahead_less(n: nat, b: spec_fn(int, int) -> bool, i: int, j: int, k: nat)
    requires
        k <= n,
        forall|x: int| 0 <= x < n && #[trigger] b(x, j) ==> b(x, i),
        b(j, i),
        !b(j, j),
    ensures
        ahead(n, b, j, k) <= ahead(n, b, i, k),
        0 <= j < k ==> ahead(n, b, j, k) < ahead(n, b, i, k),
    decreases k,
{
    if k > 0 {
        ahead_less(n, b, i, j, (k - 1) as nat);
        let x = k - 1;
        if b(x, j) {
            assert(b(x, i));
        }
    }
}

/// In a finite strict order there is something above or at each thing that nothing is above.
pub proof fn has_top(n: nat, b: spec_fn(int, int) -> bool, i: int) -> (j: int)
    requires
        0 <= i < n,
        forall|x: int| 0 <= x < n ==> !#[trigger] b(x, x),
        forall|x: int, y: int, z: int|
            0 <= x < n && 0 <= y < n && 0 <= z < n && #[trigger] b(x, y) && #[trigger] b(y, z) ==> b(x, z),
    ensures
        0 <= j < n,
        j == i || b(j, i),
        forall|k: int| 0 <= k < n ==> !#[trigger] b(k, j),
    decreases ahead(n, b, i, n),
{
    if exists|k: int| 0 <= k < n && #[trigger] b(k, i) {
        let k = choose|k: int| 0 <= k < n && #[trigger] b(k, i);
        assert forall|x: int| 0 <= x < n && #[trigger] b(x, k) implies b(x, i) by {}
        ahead_less(n, b, i, k, n);
        let j = has_top(n, b, k);
        j
    } else {
        i
    }
}

} // verus!
