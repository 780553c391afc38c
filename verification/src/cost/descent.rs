//! That the measure of a `while` loop goes down: what is found of its body is what running the body
//! does to the measure.

use vstd::prelude::*;
use crate::ast::BinOp;
use crate::cost::rules::measured;
use crate::cost::scope::{CxV, WalkV};
use crate::cost::trees::{falls, falls_list, falls_stmt, slope, step_by};
use crate::ir::{BlockV, ExprV, KindV, LValueV, StmtV};
use crate::meaning::{eval, number, operate, run, run_all, run_range, stored, with_cell, with_var, Store, Val, World};

verus! {

/// Sums and differences of literals, locals, lengths and literal multiples of such.
pub open spec fn linear(m: ExprV) -> bool
    decreases m,
{
    match m.kind {
        KindV::Int(_) => true,
        KindV::Local(_) => true,
        KindV::Len(_) => true,
        KindV::Binary(op, a, b) => linear(*a) && linear(*b) && (op == BinOp::Add || op == BinOp::Sub || (op == BinOp::Mul && (
        a.kind is Int || b.kind is Int))),
        _ => false,
    }
}

/// Whether the value of a local enters the measure.
pub open spec fn reads(m: ExprV, v: usize) -> bool
    decreases m,
{
    match m.kind {
        KindV::Local(l) => l == v,
        KindV::Binary(_, a, b) => reads(*a, v) || reads(*b, v),
        _ => false,
    }
}

/// No local that the measure reads cancels out of it.
pub open spec fn uncancelled(m: ExprV) -> bool {
    forall|v: usize| #[trigger] slope(m, v) == Some(0int) ==> !reads(m, v)
}

/// The locals that the measure reads hold integers.
pub open spec fn whole_in(m: ExprV, s: Store) -> bool {
    forall|v: usize| #[trigger] reads(m, v) ==> (s.vars)(v) is Int
}

/// Statements that run on scalars and elements and come to their end, and that declare no local the
/// measure reads: bindings, assignments, `if`s and `for` loops of such.
pub open spec fn followable(m: ExprV, t: StmtV) -> bool
    decreases t,
{
    match t {
        StmtV::Let(l, e) => !e.ty.arrayish() && !reads(m, l),
        StmtV::Assign(lv, _, _) => lv is Var || lv is Index,
        StmtV::For { var, start, end, body } => !reads(m, var) && body.tail is None && followable_all(m, body.stmts),
        StmtV::Expr(e) => match e.kind {
            KindV::If(c, yes, no) => yes.tail is None && followable_all(m, yes.stmts) && match no {
                Some(b) => b.tail is None && followable_all(m, b.stmts),
                None => true,
            },
            _ => false,
        },
        _ => false,
    }
}

pub open spec fn followable_all(m: ExprV, s: Seq<StmtV>) -> bool
    decreases s,
{
    s.len() == 0 || followable_all(m, s.drop_last()) && followable(m, s.last())
}

proof fn measure_whole(m: ExprV, s: Store, w: World)
    requires
        linear(m),
        whole_in(m, s),
    ensures
        eval(m, s, w) is Int,
    decreases m,
{
    match m.kind {
        KindV::Local(l) => {
            assert(reads(m, l));
        },
        KindV::Binary(op, a, b) => {
            parts_whole(m, s);
            measure_whole(*a, s, w);
            measure_whole(*b, s, w);
        },
        _ => {},
    }
}

proof fn parts_whole(m: ExprV, s: Store)
    requires
        whole_in(m, s),
        m.kind is Binary,
    ensures
        whole_in(*(m.kind->Binary_1), s),
        whole_in(*(m.kind->Binary_2), s),
{
    let (a, b) = (*(m.kind->Binary_1), *(m.kind->Binary_2));
    assert forall|v: usize| #[trigger] reads(a, v) implies (s.vars)(v) is Int by {
        assert(reads(m, v));
    }
    assert forall|v: usize| #[trigger] reads(b, v) implies (s.vars)(v) is Int by {
        assert(reads(m, v));
    }
}

/// A measure that does not read a local does not change with it.
proof fn unread(m: ExprV, v: usize, s: Store, x: Val, w: World)
    requires
        linear(m),
        !reads(m, v),
    ensures
        eval(m, with_var(s, v, x), w) == eval(m, s, w),
    decreases m,
{
    match m.kind {
        KindV::Binary(op, a, b) => {
            unread(*a, v, s, x, w);
            unread(*b, v, s, x, w);
        },
        _ => {},
    }
}

proof fn cells_unread(m: ExprV, l: usize, p: int, s: Store, x: Val, w: World)
    requires
        linear(m),
    ensures
        eval(m, with_cell(s, l, p, x), w) == eval(m, s, w),
    decreases m,
{
    match m.kind {
        KindV::Binary(op, a, b) => {
            cells_unread(*a, l, p, s, x, w);
            cells_unread(*b, l, p, s, x, w);
        },
        _ => {},
    }
}

/// A step of a local changes the measure by its coefficient times the step.
proof fn slope_moves(m: ExprV, v: usize, c: int, s: Store, w: World)
    requires
        linear(m),
        whole_in(m, s),
        (s.vars)(v) is Int,
        slope(m, v) is Some,
    ensures
        eval(m, s, w) is Int,
        eval(m, with_var(s, v, Val::Int((s.vars)(v)->Int_0 + c)), w) == Val::Int(
            eval(m, s, w)->Int_0 + slope(m, v)->0 * c,
        ),
    decreases m,
{
    let t = with_var(s, v, Val::Int((s.vars)(v)->Int_0 + c));
    measure_whole(m, s, w);
    match m.kind {
        KindV::Local(l) => {},
        KindV::Binary(op, a, b) => {
            parts_whole(m, s);
            measure_whole(*a, s, w);
            measure_whole(*b, s, w);
            let (x, y) = (eval(*a, s, w)->Int_0, eval(*b, s, w)->Int_0);
            match op {
                BinOp::Mul => {
                    match a.kind {
                        KindV::Int(k) => {
                            slope_moves(*b, v, c, s, w);
                            let z = slope(*b, v)->0;
                            assert((k as int) * (y + z * c) == (k as int) * y + ((k as int) * z) * c) by (nonlinear_arith);
                        },
                        _ => {
                            slope_moves(*a, v, c, s, w);
                            let z = slope(*a, v)->0;
                            let k = b.kind->Int_0 as int;
                            assert((x + z * c) * k == x * k + (k * z) * c) by (nonlinear_arith);
                        },
                    }
                },
                _ => {
                    slope_moves(*a, v, c, s, w);
                    slope_moves(*b, v, c, s, w);
                    let (p, q) = (slope(*a, v)->0, slope(*b, v)->0);
                    assert((p + q) * c == p * c + q * c) by (nonlinear_arith);
                    assert((p - q) * c == p * c - q * c) by (nonlinear_arith);
                },
            }
        },
        _ => {
            assert(0 * c == 0) by (nonlinear_arith);
        },
    }
}

/// From the one store to the other the measure fell by at least `d`.
pub open spec fn fell(m: ExprV, s: Store, t: Store, d: int, w: World) -> bool {
    &&& whole_in(m, t)
    &&& eval(m, s, w) is Int
    &&& eval(m, t, w) is Int
    &&& eval(m, t, w)->Int_0 <= eval(m, s, w)->Int_0 - d
}

proof fn assignment_falls(m: ExprV, v: usize, op: Option<BinOp>, e: ExprV, s: Store, w: World)
    requires
        linear(m),
        uncancelled(m),
        whole_in(m, s),
        slope(m, v) == Some(0int) || (slope(m, v) is Some && step_by(v, op, e) is Some),
    ensures
        fell(
            m,
            s,
            with_var(s, v, stored(op, (s.vars)(v), eval(e, s, w), w)),
            if slope(m, v) == Some(0int) {
                0
            } else {
                -(slope(m, v)->0 * step_by(v, op, e)->0)
            },
            w,
        ),
{
    let x = stored(op, (s.vars)(v), eval(e, s, w), w);
    let t = with_var(s, v, x);
    measure_whole(m, s, w);
    if slope(m, v) == Some(0int) {
        unread(m, v, s, x, w);
        assert(whole_in(m, t)) by {
            assert forall|u: usize| #[trigger] reads(m, u) implies (t.vars)(u) is Int by {}
        }
    } else {
        if !reads(m, v) {
            unmentioned_slope(m, v);
        }
        assert((s.vars)(v) is Int);
        let c = step_by(v, op, e)->0;
        let n = (s.vars)(v)->Int_0;
        assert(x == Val::Int(n + c)) by {
            match op {
                Some(o) => {},
                None => {
                    match e.kind {
                        KindV::Binary(o, a, b) => {
                            assert(eval(e, s, w) == operate(o, eval(*a, s, w), eval(*b, s, w), w));
                        },
                        _ => {},
                    }
                },
            }
        }
        slope_moves(m, v, c, s, w);
        assert(whole_in(m, t)) by {
            assert forall|u: usize| #[trigger] reads(m, u) implies (t.vars)(u) is Int by {}
        }
    }
}

proof fn unmentioned_slope(m: ExprV, v: usize)
    requires
        linear(m),
        !reads(m, v),
        slope(m, v) is Some,
    ensures
        slope(m, v) == Some(0int),
    decreases m,
{
    match m.kind {
        KindV::Binary(op, a, b) => {
            if slope(*a, v) is Some {
                unmentioned_slope(*a, v);
            }
            if slope(*b, v) is Some {
                unmentioned_slope(*b, v);
            }
        },
        _ => {},
    }
}

proof fn range_falls(m: ExprV, t: Seq<StmtV>, var: usize, lo: int, hi: int, s: Store, w: World)
    requires
        linear(m),
        uncancelled(m),
        whole_in(m, s),
        !reads(m, var),
        followable_all(m, t),
        falls_list(m, t) is Some,
        match falls_list(m, t)->0 {
            Some(d) => d >= 0,
            None => true,
        },
    ensures
        fell(m, s, run_range(t, var, lo, hi, s, w), 0, w),
    decreases t, 1nat, (if lo < hi { (hi - lo) as nat } else { 0nat }),
{
    measure_whole(m, s, w);
    if lo < hi {
        range_falls(m, t, var, lo, hi - 1, s, w);
        let u = run_range(t, var, lo, hi - 1, s, w);
        let x = with_var(u, var, Val::Int(hi - 1));
        unread(m, var, u, Val::Int(hi - 1), w);
        assert(whole_in(m, x)) by {
            assert forall|v: usize| #[trigger] reads(m, v) implies (x.vars)(v) is Int by {}
        }
        list_falls(m, t, x, w);
    }
}

proof fn list_falls(m: ExprV, t: Seq<StmtV>, s: Store, w: World)
    requires
        linear(m),
        uncancelled(m),
        whole_in(m, s),
        followable_all(m, t),
        falls_list(m, t) is Some,
    ensures
        falls_list(m, t)->0 is Some,
        fell(m, s, run_all(t, s, w), falls_list(m, t)->0->0, w),
    decreases t, 0nat, 0nat,
{
    measure_whole(m, s, w);
    if t.len() > 0 {
        list_falls(m, t.drop_last(), s, w);
        let acc = falls_list(m, t.drop_last())->0->0;
        stmt_falls(m, t.last(), acc, run_all(t.drop_last(), s, w), w);
    }
}

proof fn stmt_falls(m: ExprV, t: StmtV, acc: int, s: Store, w: World)
    requires
        linear(m),
        uncancelled(m),
        whole_in(m, s),
        followable(m, t),
        falls_stmt(m, t, acc) is Some,
    ensures
        falls_stmt(m, t, acc)->0 is Some,
        fell(m, s, run(t, s, w), falls_stmt(m, t, acc)->0->0 - acc, w),
    decreases t, 0nat, 0nat,
{
    measure_whole(m, s, w);
    let r = run(t, s, w);
    match t {
        StmtV::Let(l, e) => {
            unread(m, l, s, eval(e, s, w), w);
            assert(whole_in(m, r)) by {
                assert forall|v: usize| #[trigger] reads(m, v) implies (r.vars)(v) is Int by {}
            }
        },
        StmtV::Assign(lv, op, e) => match lv {
            LValueV::Var(v) => {
                assignment_falls(m, v, op, e, s, w);
            },
            LValueV::Index(l, i, _) => {
                let at = number(eval(i, s, w));
                cells_unread(m, l, at, s, stored(op, (s.cells)(l, at), eval(e, s, w), w), w);
                assert(whole_in(m, r)) by {
                    assert forall|v: usize| #[trigger] reads(m, v) implies (r.vars)(v) is Int by {}
                }
            },
            _ => {},
        },
        StmtV::For { var, start, end, body } => {
            assert(falls(m, body) == falls_list(m, body.stmts));
            range_falls(
                m,
                body.stmts,
                var,
                number(eval(start, s, w)),
                number(eval(end, s, w)),
                s,
                w,
            );
        },
        StmtV::Expr(e) => match e.kind {
            KindV::If(c, yes, no) => {
                assert(falls(m, yes) == falls_list(m, yes.stmts));
                list_falls(m, yes.stmts, s, w);
                match no {
                    Some(b) => {
                        assert(falls(m, b) == falls_list(m, b.stmts));
                        list_falls(m, b.stmts, s, w);
                    },
                    None => {},
                }
            },
            _ => {},
        },
        _ => {},
    }
}

/// A `while` loop whose measure is accepted goes down: each run of its body takes at least one off what
/// the measure is worth.
pub proof fn measure_goes_down(cx: CxV, k: WalkV, cond: ExprV, m: ExprV, body: BlockV, s: Store, w: World)
    requires
        linear(m),
        uncancelled(m),
        whole_in(m, s),
        body.tail is None,
        followable_all(m, body.stmts),
        measured(cx, k, cond, m, body) is Ok,
    ensures
        fell(m, s, run_all(body.stmts, s, w), 1, w),
{
    reveal(measured);
    assert(falls(m, body) == falls_list(m, body.stmts));
    list_falls(m, body.stmts, s, w);
}

} // verus!
