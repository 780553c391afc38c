//! What a loop is charged: its body's cost at every value of the loop variable, with calls cold the
//! first time and warm after it.

use vstd::prelude::*;
use crate::cost::algebra::{
    add_zero, m_one, p_add, p_add_wf, p_mul, p_mul_wf, p_rat, p_rat_wf, p_scale, p_scale_wf, p_sub, p_sub_wf, p_value,
    p_wf, p_zero, product_value, scale_value, sum_value, difference_value, term_value, valuation,
};
use crate::cost::costs::{c_add, c_map, c_subst_many, conds_subst, with_polys};
use crate::cost::laws::{conds_ok, conds_true, placed, Place, Weight};
use crate::cost::model::{AtomV, PolyV};
use crate::cost::piece::PieceV;
use crate::cost::pruning::{cost_is, pieces_ok, prune_keeps, prune_ok, sum_is, sum_ok};
use crate::cost::reading::{numeric, rec_of, rec_sum, rec_sum_cost};
use crate::cost::replacing::{a_deep, atoms_in, made_of, mentions_atoms, merge_in, p_deep, without};
use crate::cost::rules::{entered_again, left, no_cost, replayed, rest_calls, Ev};
use crate::cost::scope::{CxV, LoopV, WalkV};
use crate::cost::subst::{mentioning, p_hide, p_mentions, p_subst, p_subst_many};
use crate::cost::summing::{sum_over_steady, sum_over_value};
use crate::cost::sums::{counter, p_sum_over};
use crate::cost::turns::{same_values, sum_over_equations, sum_over_wf, summable, zero_wf};
use crate::ir::BlockV;

verus! {

// ---- the values of a cost over a loop ----

/// The polynomial in the `j`-th turn: with the loop variable, if it is a size, at `lo + step·j`.
pub open spec fn in_turn(p: PolyV, lp: LoopV, j: nat) -> PolyV {
    match lp.atom {
        Some(a) => p_subst(
            p_hide(p, mentioning(a as int)),
            a as int,
            p_add(lp.lo, p_scale(p_rat(j as real), lp.step as real)),
        ),
        None => p,
    }
}

/// The values in the turns from `from` up to below `to`, summed.
pub open spec fn over_turns(p: PolyV, lp: LoopV, w: Weight, from: nat, to: nat) -> real
    decreases to,
{
    if to <= from {
        0real
    } else {
        over_turns(p, lp, w, from, (to - 1) as nat) + p_value(in_turn(p, lp, (to - 1) as nat), w)
    }
}

/// Over those turns the cost is `v` at the place: the greatest sum of a piece whose conditions hold.
pub open spec fn cost_over(s: Seq<PieceV>, lp: LoopV, x: Place, from: nat, to: nat, v: real) -> bool {
    &&& exists|i: int|
        0 <= i < s.len() && conds_true((#[trigger] s[i]).conds, x) && over_turns(s[i].poly, lp, x.w, from, to) == v
    &&& forall|i: int|
        0 <= i < s.len() && conds_true((#[trigger] s[i]).conds, x) ==> over_turns(s[i].poly, lp, x.w, from, to) <= v
}

/// With the loop variable at its first value the cost is `v` at the place.
pub open spec fn cost_first(s: Seq<PieceV>, lp: LoopV, x: Place, v: real) -> bool {
    match lp.atom {
        None => cost_is(s, x, v),
        Some(a) => {
            let at = seq![(a, lp.lo)];
            &&& exists|i: int|
                0 <= i < s.len() && conds_true(conds_subst((#[trigger] s[i]).conds, at), x) && p_value(
                    p_subst_many(s[i].poly, at),
                    x.w,
                ) == v
            &&& forall|i: int|
                0 <= i < s.len() && conds_true(conds_subst((#[trigger] s[i]).conds, at), x) ==> p_value(
                    p_subst_many(s[i].poly, at),
                    x.w,
                ) <= v
        },
    }
}

/// What the laws ask of a loop: sizes in canonical form, and the loop variable nowhere in its start.
pub open spec fn loop_ok(lp: LoopV) -> bool {
    p_deep(lp.lo) && p_wf(lp.trip) && !p_mentions(lp.lo, counter())
}

/// What the laws ask of a cost that is summed over a loop: the loop variable stands only by itself,
/// at natural exponents.
pub open spec fn summed_ok(s: Seq<PieceV>, lp: LoopV) -> bool {
    forall|i: int| 0 <= i < s.len() ==> conds_ok((#[trigger] s[i]).conds) && turns_ok(s[i].poly, lp)
}

/// In a polynomial the loop variable stands only by itself, at natural exponents.
pub open spec fn turns_ok(p: PolyV, lp: LoopV) -> bool {
    match lp.atom {
        Some(a) => summable(p_hide(p, mentioning(a as int)), a as int) && !p_mentions(
            p_hide(p, mentioning(a as int)),
            counter(),
        ),
        None => p_wf(p),
    }
}

pub open spec fn first_ok(s: Seq<PieceV>, lp: LoopV) -> bool {
    match lp.atom {
        Some(a) => forall|i: int|
            0 <= i < s.len() ==> p_wf(p_subst_many((#[trigger] s[i]).poly, seq![(a, lp.lo)])) && conds_ok(
                conds_subst(s[i].conds, seq![(a, lp.lo)]),
            ),
        None => pieces_ok(s),
    }
}

// ---- sums ----

proof fn rat_atoms(c: real, g: spec_fn(AtomV) -> bool)
    ensures
        atoms_in(p_rat(c), g),
{
    assert forall|i: int| 0 <= i < p_rat(c).terms.len() implies made_of(g)((#[trigger] p_rat(c).terms[i]).0) by {
        assert(p_rat(c).terms[i].0 == m_one());
    }
}

proof fn deep_atoms(p: PolyV)
    requires
        p_wf(p),
    ensures
        p_deep(p) <==> atoms_in(p, |a: AtomV| a_deep(a)),
{
    let g = |a: AtomV| a_deep(a);
    if p_deep(p) {
        assert forall|i: int| 0 <= i < p.terms.len() implies made_of(g)((#[trigger] p.terms[i]).0) by {
            let f = p.terms[i].0.factors;
            assert forall|j: int| 0 <= j < f.len() implies g((#[trigger] f[j]).0) by {
                assert(p.terms[i].0.factors[j] == f[j]);
            }
        }
    }
    if atoms_in(p, g) {
        assert forall|i: int, j: int|
            #![trigger p.terms[i].0.factors[j]]
            0 <= i < p.terms.len() && 0 <= j < p.terms[i].0.factors.len() implies a_deep(p.terms[i].0.factors[j].0) by {
            assert(made_of(g)(p.terms[i].0));
            let f = p.terms[i].0.factors;
            assert(g(f[j].0));
        }
    }
}

/// The start moved by a number is as good a start.
proof fn moved_start(lo: PolyV, c: real)
    requires
        p_deep(lo),
        !p_mentions(lo, counter()),
    ensures
        p_deep(p_add(lo, p_rat(c))),
        !p_mentions(p_add(lo, p_rat(c)), counter()),
{
    let g = |a: AtomV| a_deep(a);
    let h = without(counter());
    let q = p_add(lo, p_rat(c));
    p_rat_wf(c);
    p_add_wf(lo, p_rat(c));
    deep_atoms(lo);
    deep_atoms(q);
    rat_atoms(c, g);
    rat_atoms(c, h);
    mentions_atoms(lo, counter());
    mentions_atoms(q, counter());
    merge_in(lo.terms, p_rat(c).terms, made_of(g));
    merge_in(lo.terms, p_rat(c).terms, made_of(h));
}

/// The trips count only by their number.
proof fn same_trips(p: PolyV, a: int, lo: PolyV, step: int, trip: PolyV, w: Weight, n: nat)
    requires
        p_wf(p_hide(p, mentioning(a))),
        p_wf(lo),
        p_wf(trip),
        valuation(w),
        p_value(trip, w) == n as real,
    ensures
        p_value(p_sum_over(p, a, lo, step, trip), w) == p_value(p_sum_over(p, a, lo, step, p_rat(n as real)), w),
{
    let c = p_rat(n as real);
    p_rat_wf(n as real);
    term_value(m_one(), n as real, w);
    let x = n as real;
    assert(x * 1real == x) by (nonlinear_arith);
    if p_mentions(p_hide(p, mentioning(a)), a) {
        sum_over_value(p, a, lo, step, trip, w, n);
        sum_over_value(p, a, lo, step, c, w, n);
    } else {
        sum_over_steady(p, a, lo, step, trip, w, n);
        sum_over_steady(p, a, lo, step, c, w, n);
    }
}

proof fn one_more(n: nat)
    ensures
        p_add(p_rat(n as real), p_rat(1real)) == p_rat((n + 1) as real),
{
    let (a, b) = (p_add(p_rat(n as real), p_rat(1real)), p_rat((n + 1) as real));
    p_rat_wf(n as real);
    p_rat_wf(1real);
    p_rat_wf((n + 1) as real);
    p_add_wf(p_rat(n as real), p_rat(1real));
    assert forall|w: Weight| #[trigger] p_value(a, w) == p_value(b, w) by {
        sum_value(p_rat(n as real), p_rat(1real), w);
        term_value(m_one(), n as real, w);
        term_value(m_one(), 1real, w);
        term_value(m_one(), (n + 1) as real, w);
        let (x, y) = (n as real, w(m_one()));
        assert(x * y + 1real * y == (x + 1real) * y) by (nonlinear_arith);
    }
    same_values(a, b);
}

/// The start moved by `from` steps, and `j` steps on from there.
proof fn steps_on(lo: PolyV, step: int, from: nat, j: nat)
    requires
        p_wf(lo),
    ensures
        p_add(p_add(lo, p_rat((step * from) as real)), p_scale(p_rat(j as real), step as real)) == p_add(
            lo,
            p_scale(p_rat((from + j) as real), step as real),
        ),
{
    let (c, s) = ((step * from) as real, step as real);
    let far = p_add(lo, p_rat(c));
    let a = p_add(far, p_scale(p_rat(j as real), s));
    let b = p_add(lo, p_scale(p_rat((from + j) as real), s));
    p_rat_wf(c);
    p_rat_wf(j as real);
    p_rat_wf((from + j) as real);
    p_add_wf(lo, p_rat(c));
    p_scale_wf(p_rat(j as real), s);
    p_scale_wf(p_rat((from + j) as real), s);
    p_add_wf(far, p_scale(p_rat(j as real), s));
    p_add_wf(lo, p_scale(p_rat((from + j) as real), s));
    assert forall|w: Weight| #[trigger] p_value(a, w) == p_value(b, w) by {
        sum_value(far, p_scale(p_rat(j as real), s), w);
        sum_value(lo, p_rat(c), w);
        sum_value(lo, p_scale(p_rat((from + j) as real), s), w);
        scale_value(p_rat(j as real), s, w);
        scale_value(p_rat((from + j) as real), s, w);
        term_value(m_one(), c, w);
        term_value(m_one(), j as real, w);
        term_value(m_one(), (from + j) as real, w);
        let (x, y, z) = (w(m_one()), from as real, j as real);
        assert(c == s * y) by (nonlinear_arith)
            requires
                c == (step * from) as real,
                s == step as real,
                y == from as real,
        ;
        assert((s * y) * x + s * (z * x) == s * ((y + z) * x)) by (nonlinear_arith);
    }
    same_values(a, b);
}

/// A sum over the turns from `from` on is the values in those turns, summed.
proof fn sum_is_turns(p: PolyV, a: usize, lp: LoopV, w: Weight, from: nat, n: nat)
    requires
        lp.atom == Some(a),
        summable(p_hide(p, mentioning(a as int)), a as int),
        !p_mentions(p_hide(p, mentioning(a as int)), counter()),
        p_deep(lp.lo),
        !p_mentions(lp.lo, counter()),
    ensures
        p_value(
            p_sum_over(p, a as int, p_add(lp.lo, p_rat((lp.step * from) as real)), lp.step, p_rat(n as real)),
            w,
        ) == over_turns(p, lp, w, from, from + n),
    decreases n,
{
    let lo = p_add(lp.lo, p_rat((lp.step * from) as real));
    moved_start(lp.lo, (lp.step * from) as real);
    if n == 0 {
        zero_wf();
        sum_over_equations(p, a as int, lo, lp.step, p_zero());
        assert(p_rat(0real) == p_zero());
    } else {
        let m = (n - 1) as nat;
        sum_is_turns(p, a, lp, w, from, m);
        p_rat_wf(m as real);
        sum_over_equations(p, a as int, lo, lp.step, p_rat(m as real));
        one_more(m);
        steps_on(lp.lo, lp.step, from, m);
        let shown = p_hide(p, mentioning(a as int));
        sum_value(
            p_sum_over(p, a as int, lo, lp.step, p_rat(m as real)),
            p_subst(shown, a as int, p_add(lo, p_scale(p_rat(m as real), lp.step as real))),
            w,
        );
        assert((from + n - 1) as nat == from + m);
    }
}

proof fn steady_turns(p: PolyV, lp: LoopV, w: Weight, from: nat, n: nat)
    requires
        lp.atom is None,
    ensures
        over_turns(p, lp, w, from, from + n) == p_value(p, w) * (n as real),
    decreases n,
{
    let x = p_value(p, w);
    if n == 0 {
        assert(x * 0real == 0real) by (nonlinear_arith);
    } else {
        steady_turns(p, lp, w, from, (n - 1) as nat);
        assert((from + n - 1) as nat == from + (n - 1) as nat);
        let y = (n - 1) as real;
        assert(x * y + x == x * (y + 1real)) by (nonlinear_arith);
    }
}

/// The pieces of a mapped cost have the values that the map gives.
/// A polynomial summed over a loop is worth its values in all the turns.
pub proof fn rec_sum_is(p: PolyV, lp: LoopV, w: Weight, n: nat)
    requires
        loop_ok(lp),
        valuation(w),
        p_value(lp.trip, w) == n as real,
        turns_ok(p, lp),
    ensures
        p_wf(rec_sum(rec_of(lp), p)),
        p_value(rec_sum(rec_of(lp), p), w) == over_turns(p, lp, w, 0, n),
{
    match lp.atom {
        Some(a) => {
            sum_over_wf(p, a as int, lp.lo, lp.step, lp.trip);
            same_trips(p, a as int, lp.lo, lp.step, lp.trip, w, n);
            sum_is_turns(p, a, lp, w, 0, n);
            assert((lp.step * 0) as real == 0real) by (nonlinear_arith);
            add_zero(lp.lo);
            assert(p_rat(0real) == p_zero());
        },
        None => {
            p_mul_wf(p, lp.trip);
            product_value(p, lp.trip, w);
            steady_turns(p, lp, w, 0, n);
        },
    }
}

proof fn mapped(s: Seq<PieceV>, f: spec_fn(PolyV) -> PolyV, lp: LoopV, x: Place, from: nat, to: nat, v: real)
    requires
        placed(x),
        cost_over(s, lp, x, from, to, v),
        forall|i: int|
            0 <= i < s.len() ==> conds_ok((#[trigger] s[i]).conds) && p_wf(f(s[i].poly)) && p_value(f(s[i].poly), x.w)
                == over_turns(s[i].poly, lp, x.w, from, to),
    ensures
        cost_is(c_map(s, f), x, v),
        pieces_ok(c_map(s, f)),
{
    let r = with_polys(s, f);
    assert forall|i: int| 0 <= i < r.len() implies p_wf((#[trigger] r[i]).poly) && conds_ok(r[i].conds) by {
        assert(conds_ok(s[i].conds));
    }
    let k = choose|i: int|
        0 <= i < s.len() && conds_true((#[trigger] s[i]).conds, x) && over_turns(s[i].poly, lp, x.w, from, to) == v;
    assert(r[k].conds == s[k].conds);
    assert forall|i: int| 0 <= i < r.len() && conds_true((#[trigger] r[i]).conds, x) implies p_value(r[i].poly, x.w) <= v by {
        assert(s[i].conds == r[i].conds);
    }
    prune_keeps(r, x, v);
    prune_ok(r);
}

/// A body's cost summed over its loop is the costs of its turns, summed.
proof fn body_summed(s: Seq<PieceV>, lp: LoopV, x: Place, n: nat, v: real)
    requires
        loop_ok(lp),
        summed_ok(s, lp),
        placed(x),
        valuation(x.w),
        p_value(lp.trip, x.w) == n as real,
        cost_over(s, lp, x, 0, n, v),
    ensures
        cost_is(rec_sum_cost(rec_of(lp), s), x, v),
        pieces_ok(rec_sum_cost(rec_of(lp), s)),
{
    match lp.atom {
        Some(a) => {
            let f = |q: PolyV| p_sum_over(q, a as int, lp.lo, lp.step, lp.trip);
            assert forall|i: int| 0 <= i < s.len() implies conds_ok((#[trigger] s[i]).conds) && p_wf(f(s[i].poly))
                && p_value(f(s[i].poly), x.w) == over_turns(s[i].poly, lp, x.w, 0, n) by {
                rec_sum_is(s[i].poly, lp, x.w, n);
            }
            mapped(s, f, lp, x, 0, n, v);
        },
        None => {
            let f = |q: PolyV| p_mul(q, lp.trip);
            assert forall|i: int| 0 <= i < s.len() implies conds_ok((#[trigger] s[i]).conds) && p_wf(f(s[i].poly))
                && p_value(f(s[i].poly), x.w) == over_turns(s[i].poly, lp, x.w, 0, n) by {
                p_mul_wf(s[i].poly, lp.trip);
                product_value(s[i].poly, lp.trip, x.w);
                steady_turns(s[i].poly, lp, x.w, 0, n);
            }
            mapped(s, f, lp, x, 0, n, v);
        },
    }
}

/// The cost of the turns after the first is the costs of those turns, summed.
proof fn rest_summed(s: Seq<PieceV>, lp: LoopV, x: Place, n: nat, v: real)
    requires
        loop_ok(lp),
        summed_ok(s, lp),
        placed(x),
        valuation(x.w),
        n >= 1,
        p_value(lp.trip, x.w) == n as real,
        cost_over(s, lp, x, 1, n, v),
    ensures
        cost_is(rest_calls(lp, s), x, v),
        pieces_ok(rest_calls(lp, s)),
{
    let trip = p_sub(lp.trip, p_rat(1real));
    let m = (n - 1) as nat;
    p_rat_wf(1real);
    p_sub_wf(lp.trip, p_rat(1real));
    difference_value(lp.trip, p_rat(1real), x.w);
    term_value(m_one(), 1real, x.w);
    assert(p_value(trip, x.w) == m as real);
    assert(1 + m == n);
    match lp.atom {
        Some(a) => {
            let lo = p_add(lp.lo, p_rat(lp.step as real));
            moved_start(lp.lo, lp.step as real);
            let f = |q: PolyV| p_sum_over(q, a as int, lo, lp.step, trip);
            assert forall|i: int| 0 <= i < s.len() implies conds_ok((#[trigger] s[i]).conds) && p_wf(f(s[i].poly))
                && p_value(f(s[i].poly), x.w) == over_turns(s[i].poly, lp, x.w, 1, n) by {
                let p = s[i].poly;
                sum_over_wf(p, a as int, lo, lp.step, trip);
                same_trips(p, a as int, lo, lp.step, trip, x.w, m);
                sum_is_turns(p, a, lp, x.w, 1, m);
                assert((lp.step * 1) as real == lp.step as real);
            }
            mapped(s, f, lp, x, 1, n, v);
        },
        None => {
            let f = |q: PolyV| p_mul(q, trip);
            assert forall|i: int| 0 <= i < s.len() implies conds_ok((#[trigger] s[i]).conds) && p_wf(f(s[i].poly))
                && p_value(f(s[i].poly), x.w) == over_turns(s[i].poly, lp, x.w, 1, n) by {
                p_mul_wf(s[i].poly, trip);
                product_value(s[i].poly, trip, x.w);
                steady_turns(s[i].poly, lp, x.w, 1, m);
            }
            mapped(s, f, lp, x, 1, n, v);
        },
    }
}

spec fn at_first(s: Seq<PieceV>, lp: LoopV) -> Seq<PieceV> {
    match lp.atom {
        Some(a) => c_subst_many(s, seq![(a, lp.lo)]),
        None => s,
    }
}

proof fn first_is(s: Seq<PieceV>, lp: LoopV, x: Place, v: real)
    requires
        first_ok(s, lp),
        placed(x),
        cost_first(s, lp, x, v),
    ensures
        cost_is(at_first(s, lp), x, v),
        pieces_ok(at_first(s, lp)),
{
    match lp.atom {
        Some(a) => {
            let at = seq![(a, lp.lo)];
            let r = Seq::new(
                s.len(),
                |i: int| PieceV { conds: conds_subst(s[i].conds, at), poly: p_subst_many(s[i].poly, at) },
            );
            assert forall|i: int| 0 <= i < r.len() implies p_wf((#[trigger] r[i]).poly) && conds_ok(r[i].conds) by {
                assert(conds_ok(conds_subst(s[i].conds, at)));
            }
            let k = choose|i: int|
                0 <= i < s.len() && conds_true(conds_subst((#[trigger] s[i]).conds, at), x) && p_value(
                    p_subst_many(s[i].poly, at),
                    x.w,
                ) == v;
            assert(r[k].conds == conds_subst(s[k].conds, at));
            assert forall|i: int| 0 <= i < r.len() && conds_true((#[trigger] r[i]).conds, x) implies p_value(
                r[i].poly,
                x.w,
            ) <= v by {
                assert(r[i].conds == conds_subst(s[i].conds, at));
            }
            prune_keeps(r, x, v);
            prune_ok(r);
        },
        None => {},
    }
}

// ---- the loop ----

/// What a loop's body spends in all its turns, on top of what was spent before it.
pub open spec fn spends(before: Seq<PieceV>, body: Seq<PieceV>, after: Seq<PieceV>, lp: LoopV, x: Place, n: nat) -> bool {
    forall|u: real, v: real|
        #![trigger cost_is(before, x, u), cost_over(body, lp, x, 0, n, v)]
        cost_is(before, x, u) && cost_over(body, lp, x, 0, n, v) ==> cost_is(after, x, u + v)
}

/// What a loop's calls spend, on top of what calls spent before it: cold in the first turn, and warm
/// in each of the others.
pub open spec fn calls_spend(
    before: Seq<PieceV>,
    cold: Seq<PieceV>,
    warm: Seq<PieceV>,
    after: Seq<PieceV>,
    lp: LoopV,
    x: Place,
    n: nat,
) -> bool {
    forall|u: real, f: real, v: real|
        #![trigger cost_is(before, x, u), cost_first(cold, lp, x, f), cost_over(warm, lp, x, 1, n, v)]
        cost_is(before, x, u) && cost_first(cold, lp, x, f) && cost_over(warm, lp, x, 1, n, v) ==> cost_is(
            after,
            x,
            u + f + v,
        )
}

/// The state in which the body is walked again: its work and moves summed, the rest as it left them.
pub open spec fn summed_up(w: WalkV, lp: LoopV, o: WalkV) -> WalkV {
    WalkV {
        loops: w.loops,
        work: c_add(w.work, rec_sum_cost(rec_of(lp), o.work)),
        moves: c_add(w.moves, rec_sum_cost(rec_of(lp), o.moves)),
        calls: w.calls,
        called: w.called,
        ..o
    }
}

/// What the calls of a body cost once the turn before has been run: those of its second walk.
pub open spec fn warm_calls(ev: Ev, w: WalkV, lp: LoopV, o: WalkV, body: BlockV) -> Seq<PieceV> {
    (ev.block)(entered_again(summed_up(w, lp, o), lp), body).0.calls
}

proof fn spent_in_all(before: Seq<PieceV>, body: Seq<PieceV>, lp: LoopV, x: Place, n: nat)
    requires
        loop_ok(lp),
        placed(x),
        valuation(x.w),
        p_value(lp.trip, x.w) == n as real,
        pieces_ok(before),
        summed_ok(body, lp),
    ensures
        spends(before, body, c_add(before, rec_sum_cost(rec_of(lp), body)), lp, x, n),
{
    assert forall|u: real, v: real|
        #![trigger cost_is(before, x, u), cost_over(body, lp, x, 0, n, v)]
        cost_is(before, x, u) && cost_over(body, lp, x, 0, n, v) implies cost_is(
        c_add(before, rec_sum_cost(rec_of(lp), body)),
        x,
        u + v,
    ) by {
        body_summed(body, lp, x, n, v);
        sum_is(before, rec_sum_cost(rec_of(lp), body), x, u, v);
    }
}

/// A loop that runs `n` times, once or more, is charged its body's work and moves in every turn. Calls
/// in the body are charged cold in the first turn and warm in each of the `n − 1` others, so that one
/// more trip adds the warm calls at that trip.
pub proof fn loop_charges(cx: CxV, ev: Ev, w: WalkV, lp: LoopV, o: WalkV, body: BlockV, x: Place, n: nat)
    requires
        n >= 1,
        loop_ok(lp),
        placed(x),
        valuation(x.w),
        p_value(lp.trip, x.w) == n as real,
        numeric(cx.k, lp.trip) is Some ==> numeric(cx.k, lp.trip) == Some(n as real),
        pieces_ok(w.work),
        pieces_ok(w.moves),
        pieces_ok(w.calls),
        summed_ok(o.work, lp),
        summed_ok(o.moves, lp),
        o.called ==> first_ok(o.calls, lp) && summed_ok(warm_calls(ev, w, lp, o, body), lp),
        left(cx, ev, w, lp, o, body).1 is None,
    ensures
        ({
            let r = left(cx, ev, w, lp, o, body).0;
            &&& spends(w.work, o.work, r.work, lp, x, n)
            &&& spends(w.moves, o.moves, r.moves, lp, x, n)
            &&& !o.called ==> r.calls == w.calls && r.called == w.called
            &&& o.called ==> r.called && calls_spend(
                w.calls,
                o.calls,
                warm_calls(ev, w, lp, o, body),
                r.calls,
                lp,
                x,
                n,
            )
        }),
{
    reveal(left);
    reveal(replayed);
    let r = left(cx, ev, w, lp, o, body).0;
    spent_in_all(w.work, o.work, lp, x, n);
    spent_in_all(w.moves, o.moves, lp, x, n);
    if o.called {
        let warm = warm_calls(ev, w, lp, o, body);
        let first = at_first(o.calls, lp);
        let once = match numeric(cx.k, lp.trip) {
            Some(t) => t <= 1real,
            None => false,
        };
        assert forall|u: real, f: real, v: real|
            #![trigger cost_is(w.calls, x, u), cost_first(o.calls, lp, x, f), cost_over(warm, lp, x, 1, n, v)]
            cost_is(w.calls, x, u) && cost_first(o.calls, lp, x, f) && cost_over(warm, lp, x, 1, n, v) implies cost_is(
            r.calls,
            x,
            u + f + v,
        ) by {
            first_is(o.calls, lp, x, f);
            sum_is(w.calls, first, x, u, f);
            sum_ok(w.calls, first);
            let both = c_add(w.calls, first);
            if once {
                let i = choose|i: int|
                    0 <= i < warm.len() && conds_true((#[trigger] warm[i]).conds, x) && over_turns(
                        warm[i].poly,
                        lp,
                        x.w,
                        1,
                        n,
                    ) == v;
                assert(n == 1 && v == 0real);
                zero_wf();
                assert(cost_is(no_cost(), x, 0real)) by {
                    assert(no_cost()[0].conds.len() == 0);
                    assert(conds_true(no_cost()[0].conds, x));
                }
                sum_is(both, no_cost(), x, u + f, 0real);
            } else {
                rest_summed(warm, lp, x, n, v);
                sum_is(both, rest_calls(lp, warm), x, u + f, v);
            }
        }
    }
}

/// One more trip adds the value at that trip.
pub proof fn one_more_trip(p: PolyV, lp: LoopV, w: Weight, from: nat, n: nat)
    requires
        from <= n,
    ensures
        over_turns(p, lp, w, from, n + 1) == over_turns(p, lp, w, from, n) + p_value(in_turn(p, lp, n), w),
{
}

} // verus!
