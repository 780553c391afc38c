//! What sizes, indices and trip counts are worth: what the expressions they were read from are worth
//! when they are run.

use vstd::prelude::*;
use crate::ast::BinOp;
use crate::cost::affine::{coeff, coeffs_sum, f_add, f_scale, f_var, with_coeff, AffineV, Coeffs};
use crate::cost::algebra::{
    difference_value, m_atom, m_one, p_add, p_add_wf, p_mul, p_mul_wf, p_rat, p_rat_wf, p_sub, p_sub_wf, p_term_wf,
    p_value, p_var, p_wf, p_zero, product_value, scale_value, sum_value, term_value, valuation,
};
use crate::cost::assoc::weigh_one;
use crate::cost::forms::p_const;
use crate::cost::laws::Weight;
use crate::cost::model::{AtomV, PolyV};
use crate::cost::reading::{affine_of, loop_of, size_of};
use crate::cost::rules::{for_trip, induction, variable_of};
use crate::cost::scope::{local_of, CxV, WalkV};
use crate::cost::turns::zero_wf;
use crate::ir::{BlockV, ExprV, FuncV, KindV};
use crate::meaning::{eval, operate, Store, Val, World};

verus! {

// ---- the value of an affine form ----

pub open spec fn coeffs_value(s: Coeffs, at: spec_fn(usize) -> real, x: Weight) -> real
    decreases s.len(),
{
    if s.len() == 0 {
        0real
    } else {
        p_value(s[0].1, x) * at(s[0].0) + coeffs_value(s.drop_first(), at, x)
    }
}

/// The constant, and each loop's coefficient times the turns it has made.
pub open spec fn f_value(a: AffineV, at: spec_fn(usize) -> real, x: Weight) -> real {
    p_value(a.konst, x) + coeffs_value(a.coeffs, at, x)
}

/// The locals of the coefficients rise, and all sizes are in canonical form.
pub open spec fn f_ok(a: AffineV) -> bool {
    p_wf(a.konst) && coeffs_ok(a.coeffs)
}

pub open spec fn coeffs_ok(s: Coeffs) -> bool {
    &&& forall|i: int| 0 <= i < s.len() ==> p_wf((#[trigger] s[i]).1)
    &&& forall|i: int, j: int| 0 <= i < j < s.len() ==> (#[trigger] s[i]).0 < (#[trigger] s[j]).0
}

pub open spec fn coeff_value(s: Coeffs, l: usize, x: Weight) -> real {
    match coeff(s, l) {
        Some(p) => p_value(p, x),
        None => 0real,
    }
}

/// Every local of the coefficients comes after `b`.
pub open spec fn above(s: Coeffs, b: usize) -> bool {
    forall|i: int| 0 <= i < s.len() ==> (#[trigger] s[i]).0 > b
}

pub proof fn no_coeff(s: Coeffs, l: usize)
    requires
        above(s, l),
    ensures
        coeff(s, l) is None,
    decreases s.len(),
{
    if s.len() > 0 {
        assert(s[0].0 > l);
        let t = s.drop_first();
        assert forall|i: int| 0 <= i < t.len() implies (#[trigger] t[i]).0 > l by {
            assert(t[i] == s[i + 1]);
        }
        no_coeff(t, l);
    }
}

proof fn rest_ok(s: Coeffs)
    requires
        coeffs_ok(s),
        s.len() > 0,
    ensures
        coeffs_ok(s.drop_first()),
        p_wf(s[0].1),
        above(s.drop_first(), s[0].0),
{
    let t = s.drop_first();
    assert(forall|i: int| 0 <= i < t.len() ==> #[trigger] t[i] == s[i + 1]);
}

proof fn one_coeff(l: usize, p: PolyV, t: Coeffs, at: spec_fn(usize) -> real, x: Weight)
    requires
        p_wf(p),
        coeffs_ok(t),
        above(t, l),
    ensures
        ({
            let new = if p == p_zero() {
                Seq::empty()
            } else {
                seq![(l, p)]
            };
            coeffs_ok(new + t) && coeffs_value(new + t, at, x) == p_value(p, x) * at(l) + coeffs_value(t, at, x)
        }),
{
    if p == p_zero() {
        let new: Coeffs = Seq::empty();
        assert(new + t =~= t);
        assert(p_value(p, x) == 0real);
        assert(0real * at(l) == 0real) by (nonlinear_arith);
    } else {
        let r = seq![(l, p)] + t;
        assert(r.drop_first() =~= t);
        assert(r[0] == (l, p));
        assert forall|i: int| 0 <= i < r.len() implies p_wf((#[trigger] r[i]).1) by {
            if i > 0 {
                assert(r[i] == t[i - 1]);
            }
        }
        assert forall|i: int, j: int| 0 <= i < j < r.len() implies (#[trigger] r[i]).0 < (#[trigger] r[j]).0 by {
            assert(r[j] == t[j - 1]);
            if i > 0 {
                assert(r[i] == t[i - 1]);
            }
        }
    }
}

proof fn with_coeff_is(s: Coeffs, l: usize, p: PolyV, at: spec_fn(usize) -> real, x: Weight)
    requires
        coeffs_ok(s),
        p_wf(p),
    ensures
        coeffs_ok(with_coeff(s, l, p)),
        coeffs_value(with_coeff(s, l, p), at, x) == coeffs_value(s, at, x) + (p_value(p, x) - coeff_value(s, l, x)) * at(l),
        forall|b: usize| b < l && above(s, b) ==> #[trigger] above(with_coeff(s, l, p), b),
    decreases s.len(),
{
    let r = with_coeff(s, l, p);
    let pv = p_value(p, x);
    let cv = coeff_value(s, l, x);
    let z = at(l);
    assert((pv - cv) * z == pv * z - cv * z) by (nonlinear_arith);
    if s.len() == 0 {
        one_coeff(l, p, s, at, x);
        assert(0real * z == 0real) by (nonlinear_arith);
        let new = if p == p_zero() {
            Seq::empty()
        } else {
            seq![(l, p)]
        };
        assert(new + s =~= new);
    } else {
        rest_ok(s);
        let t = s.drop_first();
        assert forall|b: usize| #[trigger] above(s, b) implies above(t, b) by {
            assert(forall|i: int| 0 <= i < t.len() ==> #[trigger] t[i] == s[i + 1]);
        }
        if s[0].0 == l {
            one_coeff(l, p, t, at, x);
        } else if s[0].0 > l {
            assert forall|i: int| 0 <= i < s.len() implies (#[trigger] s[i]).0 > l by {
                if i > 0 {
                    assert(s[0].0 < s[i].0);
                }
            }
            no_coeff(s, l);
            one_coeff(l, p, s, at, x);
            assert(0real * z == 0real) by (nonlinear_arith);
        } else {
            with_coeff_is(t, l, p, at, x);
            let u = with_coeff(t, l, p);
            assert(r == seq![s[0]] + u);
            assert(r.drop_first() =~= u);
            assert(above(t, s[0].0));
            assert(above(u, s[0].0));
            assert forall|i: int| 0 <= i < r.len() implies p_wf((#[trigger] r[i]).1) by {
                if i > 0 {
                    assert(r[i] == u[i - 1]);
                }
            }
            assert forall|i: int, j: int| 0 <= i < j < r.len() implies (#[trigger] r[i]).0 < (#[trigger] r[j]).0 by {
                assert(r[j] == u[j - 1]);
                if i > 0 {
                    assert(r[i] == u[i - 1]);
                }
            }
            assert forall|b: usize| b < l && above(s, b) implies #[trigger] above(r, b) by {
                assert(above(u, b));
                assert forall|i: int| 0 <= i < r.len() implies (#[trigger] r[i]).0 > b by {
                    assert(s[0].0 > b);
                    if i > 0 {
                        assert(r[i] == u[i - 1]);
                    }
                }
            }
        }
    }
}

proof fn coeffs_sum_is(s: Coeffs, o: Coeffs, n: nat, at: spec_fn(usize) -> real, x: Weight)
    requires
        coeffs_ok(s),
        coeffs_ok(o),
        n <= o.len(),
    ensures
        coeffs_ok(coeffs_sum(s, o, n)),
        coeffs_value(coeffs_sum(s, o, n), at, x) == coeffs_value(s, at, x) + coeffs_value(o.take(n as int), at, x),
    decreases n,
{
    assert(o.take(0) =~= Seq::empty());
    if n > 0 {
        let t = coeffs_sum(s, o, (n - 1) as nat);
        let (l, p) = o[n - 1];
        coeffs_sum_is(s, o, (n - 1) as nat, at, x);
        last_coeff(o.take(n as int), at, x);
        assert(o.take(n as int).drop_last() =~= o.take(n - 1));
        assert(p_wf(o[n - 1].1));
        let q = match coeff(t, l) {
            Some(y) => p_add(y, p),
            None => p,
        };
        match coeff(t, l) {
            Some(y) => {
                coeff_among(t, l);
                p_add_wf(y, p);
                sum_value(y, p, x);
            },
            None => {},
        }
        with_coeff_is(t, l, q, at, x);
    }
}

proof fn coeff_among(s: Coeffs, l: usize)
    requires
        coeffs_ok(s),
        coeff(s, l) is Some,
    ensures
        p_wf(coeff(s, l)->0),
    decreases s.len(),
{
    rest_ok(s);
    if s[0].0 != l {
        coeff_among(s.drop_first(), l);
    }
}

pub proof fn last_coeff(s: Coeffs, at: spec_fn(usize) -> real, x: Weight)
    requires
        s.len() > 0,
    ensures
        coeffs_value(s, at, x) == coeffs_value(s.drop_last(), at, x) + p_value(s.last().1, x) * at(s.last().0),
    decreases s.len(),
{
    let t = s.drop_first();
    if s.len() == 1 {
        assert(s.drop_last() =~= Seq::empty());
        assert(t =~= Seq::empty());
    } else {
        last_coeff(t, at, x);
        assert(s.drop_last().drop_first() =~= t.drop_last());
        assert(t.last() == s.last());
        assert(s.drop_last()[0] == s[0]);
    }
}

/// The sum of two forms is worth the sum.
pub proof fn f_add_is(a: AffineV, b: AffineV, at: spec_fn(usize) -> real, x: Weight)
    requires
        f_ok(a),
        f_ok(b),
    ensures
        f_ok(f_add(a, b)),
        f_value(f_add(a, b), at, x) == f_value(a, at, x) + f_value(b, at, x),
{
    p_add_wf(a.konst, b.konst);
    sum_value(a.konst, b.konst, x);
    coeffs_sum_is(a.coeffs, b.coeffs, b.coeffs.len(), at, x);
    assert(b.coeffs.take(b.coeffs.len() as int) =~= b.coeffs);
}

proof fn coeffs_scale_is(s: Coeffs, p: PolyV, at: spec_fn(usize) -> real, x: Weight)
    requires
        coeffs_ok(s),
        p_wf(p),
        valuation(x),
    ensures
        coeffs_value(Seq::new(s.len(), |i: int| (s[i].0, p_mul(s[i].1, p))), at, x) == coeffs_value(s, at, x) * p_value(p, x),
    decreases s.len(),
{
    let r = Seq::new(s.len(), |i: int| (s[i].0, p_mul(s[i].1, p)));
    let v = p_value(p, x);
    if s.len() == 0 {
        assert(0real * v == 0real) by (nonlinear_arith);
    } else {
        let t = s.drop_first();
        rest_ok(s);
        coeffs_scale_is(t, p, at, x);
        assert(r.drop_first() =~= Seq::new(t.len(), |i: int| (t[i].0, p_mul(t[i].1, p))));
        product_value(s[0].1, p, x);
        let (c, z, y) = (p_value(s[0].1, x), at(s[0].0), coeffs_value(t, at, x));
        assert((c * v) * z + y * v == (c * z + y) * v) by (nonlinear_arith);
    }
}

/// A form times a size is worth the product.
pub proof fn f_scale_is(a: AffineV, p: PolyV, at: spec_fn(usize) -> real, x: Weight)
    requires
        f_ok(a),
        p_wf(p),
        valuation(x),
    ensures
        f_ok(f_scale(a, p)),
        f_value(f_scale(a, p), at, x) == f_value(a, at, x) * p_value(p, x),
{
    let r = f_scale(a, p);
    p_mul_wf(a.konst, p);
    product_value(a.konst, p, x);
    coeffs_scale_is(a.coeffs, p, at, x);
    assert forall|i: int| 0 <= i < r.coeffs.len() implies p_wf((#[trigger] r.coeffs[i]).1) by {
        assert(p_wf(a.coeffs[i].1));
        p_mul_wf(a.coeffs[i].1, p);
    }
    assert forall|i: int, j: int| 0 <= i < j < r.coeffs.len() implies (#[trigger] r.coeffs[i]).0 < (#[trigger] r.coeffs[j]).0 by {
        assert(a.coeffs[i].0 < a.coeffs[j].0);
    }
    let (c, y, v) = (p_value(a.konst, x), coeffs_value(a.coeffs, at, x), p_value(p, x));
    assert(c * v + y * v == (c + y) * v) by (nonlinear_arith);
}

// ---- what the walk knows ----

/// The value is the integer that the number is.
pub open spec fn is_int(v: Val, r: real) -> bool {
    v is Int && v->Int_0 as real == r
}

/// What a local holds agrees with what the walk knows of it: a loop's variable is its size and the
/// turns made past its start, and another local the value on entry or the form it is bound to.
pub open spec fn local_agrees(f: FuncV, w: WalkV, entry: bool, l: usize, v: Val, at: spec_fn(usize) -> real, x: Weight) -> bool {
    match loop_of(w.loops, l) {
        Some(lp) => {
            &&& lp.atom is Some ==> is_int(v, x(m_atom(AtomV::Var(lp.atom->0 as int))))
            &&& lp.offset is Some ==> f_ok(lp.offset->0) && is_int(v, at(l) + f_value(lp.offset->0, at, x))
        },
        None => {
            &&& entry && local_of(f, l).mutable ==> match (w.initial)(l) {
                Some(Some(vs)) => vs.len() == 1 ==> p_wf(vs[0]) && is_int(v, p_value(vs[0], x)),
                _ => true,
            }
            &&& (w.affines)(l) is Some ==> f_ok((w.affines)(l)->0) && is_int(v, f_value((w.affines)(l)->0, at, x))
        },
    }
}

/// The store agrees with what the walk knows of its locals and of the lengths of its arrays.
pub open spec fn agrees(f: FuncV, w: WalkV, entry: bool, s: Store, at: spec_fn(usize) -> real, x: Weight) -> bool {
    &&& forall|l: usize| local_agrees(f, w, entry, l, #[trigger] (s.vars)(l), at, x)
    &&& forall|l: usize|
        (#[trigger] (w.sizes)(l)) is Some ==> p_wf((w.sizes)(l)->0) && (s.lens)(l) as real == p_value((w.sizes)(l)->0, x)
}

/// Sums, differences and products of literals, locals and lengths.
pub open spec fn arithmetic(e: ExprV) -> bool
    decreases e,
{
    match e.kind {
        KindV::Int(_) => true,
        KindV::Local(_) => true,
        KindV::Len(_) => true,
        KindV::Binary(op, a, b) => (op == BinOp::Add || op == BinOp::Sub || op == BinOp::Mul) && arithmetic(*a) && arithmetic(
            *b,
        ),
        _ => false,
    }
}

proof fn var_is(a: int, x: Weight)
    ensures
        p_wf(p_var(a)),
        p_value(p_var(a), x) == x(m_atom(AtomV::Var(a))),
{
    let m = m_atom(AtomV::Var(a));
    p_term_wf(m, 1real);
    term_value(m, 1real, x);
}

proof fn rat_is(c: real, x: Weight)
    requires
        valuation(x),
    ensures
        p_wf(p_rat(c)),
        p_value(p_rat(c), x) == c,
{
    p_rat_wf(c);
    term_value(m_one(), c, x);
    assert(c * 1real == c) by (nonlinear_arith);
}

proof fn ints_multiply(a: int, b: int)
    ensures
        (a * b) as real == (a as real) * (b as real),
{
    assert((a * b) as real == (a as real) * (b as real)) by (nonlinear_arith);
}

/// An expression read as a size is worth that size when it is run.
pub proof fn size_is(f: FuncV, w: WalkV, e: ExprV, upper: bool, entry: bool, s: Store, o: World, at: spec_fn(usize) -> real, x: Weight)
    requires
        valuation(x),
        agrees(f, w, entry, s, at, x),
        arithmetic(e),
        size_of(f, w, e, upper, entry) is Some,
    ensures
        p_wf(size_of(f, w, e, upper, entry)->0),
        is_int(eval(e, s, o), p_value(size_of(f, w, e, upper, entry)->0, x)),
    decreases e,
{
    match e.kind {
        KindV::Int(v) => rat_is(v as real, x),
        KindV::Local(l) => {
            assert(local_agrees(f, w, entry, l, (s.vars)(l), at, x));
            match loop_of(w.loops, l) {
                Some(lp) => match lp.atom {
                    Some(a) => var_is(a as int, x),
                    None => {},
                },
                None => {},
            }
        },
        KindV::Binary(op, a, b) => {
            let down = if op == BinOp::Sub {
                !upper
            } else {
                upper
            };
            size_is(f, w, *a, upper, entry, s, o, at, x);
            size_is(f, w, *b, down, entry, s, o, at, x);
            let p = size_of(f, w, *a, upper, entry)->0;
            let q = size_of(f, w, *b, down, entry)->0;
            p_add_wf(p, q);
            p_sub_wf(p, q);
            p_mul_wf(p, q);
            sum_value(p, q, x);
            difference_value(p, q, x);
            product_value(p, q, x);
            ints_multiply(eval(*a, s, o)->Int_0, eval(*b, s, o)->Int_0);
        },
        _ => {},
    }
}

/// Sums and differences of what is exact and of the lesser or greater of such, and what is no size.
pub open spec fn banded(f: FuncV, w: WalkV, e: ExprV, upper: bool, entry: bool, s: Store, o: World) -> bool
    decreases e,
{
    match e.kind {
        KindV::Binary(op, a, b) => if op == BinOp::Add {
            banded(f, w, *a, upper, entry, s, o) && banded(f, w, *b, upper, entry, s, o)
        } else if op == BinOp::Sub {
            banded(f, w, *a, upper, entry, s, o) && banded(f, w, *b, !upper, entry, s, o)
        } else {
            arithmetic(e)
        },
        KindV::MinMax(_, a, b) => {
            &&& eval(*a, s, o) is Int
            &&& eval(*b, s, o) is Int
            &&& size_of(f, w, *a, upper, entry) is Some ==> banded(f, w, *a, upper, entry, s, o)
            &&& size_of(f, w, *b, upper, entry) is Some ==> banded(f, w, *b, upper, entry, s, o)
        },
        _ => arithmetic(e),
    }
}

/// An expression with `min` and `max` read from above is worth at most the size, and from below at
/// least the size.
pub proof fn size_bounds(f: FuncV, w: WalkV, e: ExprV, upper: bool, entry: bool, s: Store, o: World, at: spec_fn(usize) -> real, x: Weight)
    requires
        valuation(x),
        agrees(f, w, entry, s, at, x),
        banded(f, w, e, upper, entry, s, o),
        size_of(f, w, e, upper, entry) is Some,
    ensures
        eval(e, s, o) is Int,
        upper ==> eval(e, s, o)->Int_0 as real <= p_value(size_of(f, w, e, upper, entry)->0, x),
        !upper ==> eval(e, s, o)->Int_0 as real >= p_value(size_of(f, w, e, upper, entry)->0, x),
    decreases e,
{
    if arithmetic(e) {
        size_is(f, w, e, upper, entry, s, o, at, x);
    } else {
        match e.kind {
            KindV::Binary(op, a, b) => {
                let down = if op == BinOp::Sub {
                    !upper
                } else {
                    upper
                };
                size_bounds(f, w, *a, upper, entry, s, o, at, x);
                size_bounds(f, w, *b, down, entry, s, o, at, x);
                let p = size_of(f, w, *a, upper, entry)->0;
                let q = size_of(f, w, *b, down, entry)->0;
                sum_value(p, q, x);
                difference_value(p, q, x);
            },
            KindV::MinMax(min, a, b) => {
                if size_of(f, w, *a, upper, entry) is Some {
                    size_bounds(f, w, *a, upper, entry, s, o, at, x);
                } else {
                    size_bounds(f, w, *b, upper, entry, s, o, at, x);
                }
            },
            _ => {},
        }
    }
}

/// An expression read as an affine form of the loops is worth what the form is worth after the turns
/// that they have made.
pub proof fn affine_is(f: FuncV, w: WalkV, e: ExprV, entry: bool, s: Store, o: World, at: spec_fn(usize) -> real, x: Weight)
    requires
        valuation(x),
        agrees(f, w, entry, s, at, x),
        arithmetic(e),
        affine_of(w, e) is Some,
    ensures
        f_ok(affine_of(w, e)->0),
        is_int(eval(e, s, o), f_value(affine_of(w, e)->0, at, x)),
    decreases e,
{
    match e.kind {
        KindV::Int(v) => rat_is(v as real, x),
        KindV::Local(l) => {
            assert(local_agrees(f, w, entry, l, (s.vars)(l), at, x));
            match loop_of(w.loops, l) {
                Some(lp) => match lp.offset {
                    Some(off) => {
                        variable_is(l, at, x);
                        f_add_is(f_var(l), off, at, x);
                    },
                    None => {},
                },
                None => {},
            }
        },
        KindV::Binary(op, a, b) => {
            affine_is(f, w, *a, entry, s, o, at, x);
            affine_is(f, w, *b, entry, s, o, at, x);
            let p = affine_of(w, *a)->0;
            let q = affine_of(w, *b)->0;
            let (u, v) = (f_value(p, at, x), f_value(q, at, x));
            match op {
                BinOp::Add => f_add_is(p, q, at, x),
                BinOp::Sub => {
                    rat_is(-1real, x);
                    f_scale_is(q, p_rat(-1real), at, x);
                    f_add_is(p, f_scale(q, p_rat(-1real)), at, x);
                },
                BinOp::Mul => {
                    ints_multiply(eval(*a, s, o)->Int_0, eval(*b, s, o)->Int_0);
                    if p.coeffs.len() == 0 {
                        f_scale_is(q, p.konst, at, x);
                        assert(u * v == v * u) by (nonlinear_arith);
                    } else {
                        f_scale_is(p, q.konst, at, x);
                    }
                },
                _ => {},
            }
        },
        _ => {},
    }
}

proof fn variable_is(l: usize, at: spec_fn(usize) -> real, x: Weight)
    requires
        valuation(x),
    ensures
        f_ok(f_var(l)),
        f_value(f_var(l), at, x) == at(l),
{
    rat_is(1real, x);
    zero_wf();
    reveal_with_fuel(coeffs_value, 2);
    let s = f_var(l).coeffs;
    assert(s.drop_first() =~= Seq::empty());
    assert(p_value(p_zero(), x) == 0real);
    let z = at(l);
    assert(1real * z == z) by (nonlinear_arith);
}

// ---- trip counts ----

proof fn const_is(p: PolyV, x: Weight)
    requires
        valuation(x),
        p_const(p) is Some,
    ensures
        p_value(p, x) == p_const(p)->0,
{
    if p.terms.len() == 1 {
        let c = p.terms[0].1;
        assert(p.terms =~= seq![(m_one(), c)]);
        weigh_one((m_one(), c), x);
        assert(c * 1real == c) by (nonlinear_arith);
    }
}

/// A `for` loop is counted as many turns as there are values from its start up to below its end: none
/// where the count is known to be below zero.
pub proof fn for_turns(f: FuncV, w: WalkV, start: ExprV, end: ExprV, s: Store, o: World, at: spec_fn(usize) -> real, x: Weight)
    requires
        valuation(x),
        agrees(f, w, false, s, at, x),
        arithmetic(start),
        arithmetic(end),
        size_of(f, w, start, false, false) is Some,
        size_of(f, w, end, true, false) is Some,
    ensures
        eval(start, s, o) is Int,
        eval(end, s, o) is Int,
        ({
            let n = p_value(
                for_trip(w, start, end, size_of(f, w, start, false, false)->0, size_of(f, w, end, true, false)->0),
                x,
            );
            let span = eval(end, s, o)->Int_0 - eval(start, s, o)->Int_0;
            n == span as real || (span < 0 && n == 0real)
        }),
{
    let lo = size_of(f, w, start, false, false)->0;
    let hi = size_of(f, w, end, true, false)->0;
    size_is(f, w, start, false, false, s, o, at, x);
    size_is(f, w, end, true, false, s, o, at, x);
    difference_value(hi, lo, x);
    let d = f_add(affine_of(w, end)->0, f_scale(affine_of(w, start)->0, p_rat(-1real)));
    if affine_of(w, start) is Some && affine_of(w, end) is Some {
        affine_is(f, w, start, false, s, o, at, x);
        affine_is(f, w, end, false, s, o, at, x);
        rat_is(-1real, x);
        f_scale_is(affine_of(w, start)->0, p_rat(-1real), at, x);
        f_add_is(affine_of(w, end)->0, f_scale(affine_of(w, start)->0, p_rat(-1real)), at, x);
    }
    let trip = if affine_of(w, start) is Some && affine_of(w, end) is Some && d.coeffs.len() == 0 {
        d.konst
    } else {
        p_sub(hi, lo)
    };
    if p_const(trip) is Some {
        const_is(trip, x);
    }
}

/// The comparison of a `while` condition.
pub open spec fn comparison(e: ExprV) -> Option<BinOp> {
    match e.kind {
        KindV::Binary(op, _, _) => Some(op),
        _ => None,
    }
}

/// A `while` loop with an induction variable is over once the turns counted have been made: with the
/// variable as far from its value on entry as that many steps, the condition fails, or, where it allows
/// equality, fails one step on.
pub proof fn while_ends(
    cx: CxV,
    w: WalkV,
    cond: ExprV,
    body: BlockV,
    s: Store,
    o: World,
    at: spec_fn(usize) -> real,
    x: Weight,
    j: int,
)
    requires
        valuation(x),
        agrees(cx.f, w, false, s, at, x),
        induction(cx, w, cond, body) is Ok,
        forall|v: usize, e: ExprV, up: bool| #[trigger] variable_of(cx.f, cond, body) == Some((v, e, up)) ==> arithmetic(e),
        ({
            let i = induction(cx, w, cond, body)->Ok_0;
            is_int((s.vars)(i.var), p_value(i.from, x) + (i.step as real) * (j as real))
        }),
    ensures
        ({
            let n = p_value(induction(cx, w, cond, body)->Ok_0.trip, x);
            match comparison(cond) {
                Some(op) => {
                    &&& op == BinOp::Lt || op == BinOp::Gt ==> (eval(cond, s, o) == Val::Bool(true) <==> (j as real) < n)
                    &&& op == BinOp::Le || op == BinOp::Ge ==> (eval(cond, s, o) == Val::Bool(true) <==> (j as real) <= n)
                    &&& op == BinOp::Ne ==> (eval(cond, s, o) == Val::Bool(true) <==> j as real != n)
                },
                None => false,
            }
        }),
{
    reveal(induction);
    let i = induction(cx, w, cond, body)->Ok_0;
    let (v, bound, up) = variable_of(cx.f, cond, body)->0;
    assert(variable_of(cx.f, cond, body) == Some((v, bound, up)));
    let e = size_of(cx.f, w, bound, up, false)->0;
    size_is(cx.f, w, bound, up, false, s, o, at, x);
    let size: int = if i.step < 0 {
        -i.step
    } else {
        i.step
    };
    let span = if up {
        p_sub(e, i.from)
    } else {
        p_sub(i.from, e)
    };
    difference_value(e, i.from, x);
    difference_value(i.from, e, x);
    scale_value(span, 1real / (size as real), x);
    let n = p_value(i.trip, x);
    let (b, a, z, r) = (p_value(e, x), p_value(i.from, x), size as real, j as real);
    let d = p_value(span, x);
    assert(n == (1real / z) * d);
    assert(z * n == d) by (nonlinear_arith)
        requires
            n == (1real / z) * d,
            z > 0real,
    ;
    assert((r < n <==> z * r < d) && (r <= n <==> z * r <= d) && (r == n <==> z * r == d)) by (nonlinear_arith)
        requires
            z * n == d,
            z > 0real,
    ;
    let here = (s.vars)(i.var)->Int_0 as real;
    if up {
        assert(here == a + z * r);
    } else {
        assert((i.step as real) * r == -(z * r)) by (nonlinear_arith)
            requires
                i.step as real == -z,
        ;
        assert(here == a - z * r);
    }
    match cond.kind {
        KindV::Binary(op, l, r) => {
            let (lv, rv) = (eval(*l, s, o), eval(*r, s, o));
            assert(eval(cond, s, o) == operate(op, lv, rv, o));
            let left = l.kind == KindV::Local(v) && bound == *r && up == (op == BinOp::Lt || op == BinOp::Le || op == BinOp::Ne);
            let right = r.kind == KindV::Local(v) && bound == *l && up == (op == BinOp::Gt || op == BinOp::Ge);
            assert(left || right);
            assert(op == BinOp::Ne ==> left);
            if left {
                assert(lv == (s.vars)(v));
            } else {
                assert(rv == (s.vars)(v));
            }
            assert(lv is Int && rv is Int);
        },
        _ => {},
    }
}

} // verus!
