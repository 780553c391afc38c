//! What code without loops and calls is charged: a unit of work for every operation, load, store and
//! branch along the dearer way through it, and the bytes of the arrays that it writes out.

use vstd::prelude::*;
use crate::ast::BinOp;
use crate::cost::algebra::{
    m_one, p_add, p_add_wf, p_rat, p_rat_wf, p_scale, p_scale_wf, p_value, p_wf, scale_value, sum_value, term_value,
    valuation,
};
use crate::cost::costs::{c_add, c_add_poly, c_max, with_polys};
use crate::cost::laws::{conds_ok, conds_true, placed, Place};
use crate::cost::model::PolyV;
use crate::cost::piece::PieceV;
use crate::cost::pruning::{cost_is, max_is, pieces_ok, prune_keeps, prune_ok, sum_is, sum_ok};
use crate::cost::recognise::recognised;
use crate::cost::rules::{
    access, add_work, add_work_n, bound_to, branched, exprs_walk, knot, knot_block, knot_expr, made, next_id, no_cost,
    one_part, r_array, r_assign, r_block, r_expr, r_if, r_let, r_stmt, reassigned, scan_block, side, stmts_walk,
    store, two_parts, Out,
};
use crate::cost::scope::{elem_bytes, CxV, WalkV};
use crate::cost::turns::zero_wf;
use crate::ir::{BlockV, ExprV, KindV, LValueV, StmtV};
use crate::irsize::{
    block_shrinks, block_size, expr_shrinks, expr_size, exprs_shrink, exprs_size, stmt_shrinks, stmt_size,
    stmts_shrink, stmts_size,
};

verus! {

// ---- the count ----

/// What code does: its operations, and the bytes of new arrays that it writes.
pub struct Tally {
    pub ops: int,
    pub bytes: int,
}

pub open spec fn units(n: int) -> Tally {
    Tally { ops: n, bytes: 0 }
}

/// One piece of code after another.
pub open spec fn both(a: Tally, b: Tally) -> Tally {
    Tally { ops: a.ops + b.ops, bytes: a.bytes + b.bytes }
}

pub open spec fn larger(a: int, b: int) -> int {
    if a < b {
        b
    } else {
        a
    }
}

/// One of two pieces of code.
pub open spec fn either(a: Tally, b: Tally) -> Tally {
    Tally { ops: larger(a.ops, b.ops), bytes: larger(a.bytes, b.bytes) }
}

/// What an expression does: an operator is an operation, the smaller or larger of two values is a
/// comparison and a choice, an element is loaded, and an `if` tests and goes one of two ways. A
/// field of what is loaded, a literal, a local and a length are at hand.
pub open spec fn expr_tally(cx: CxV, e: ExprV) -> Tally
    decreases e,
{
    match e.kind {
        KindV::Binary(_, a, b) => both(both(expr_tally(cx, *a), expr_tally(cx, *b)), units(1)),
        KindV::MinMax(_, a, b) => both(both(expr_tally(cx, *a), expr_tally(cx, *b)), units(2)),
        KindV::Unary(_, a) => both(expr_tally(cx, *a), units(1)),
        KindV::Cast(a, _) => both(expr_tally(cx, *a), units(1)),
        KindV::Println(a) => both(expr_tally(cx, *a), units(1)),
        KindV::Index(_, i) => both(expr_tally(cx, *i), units(1)),
        KindV::Field(a, _) => expr_tally(cx, *a),
        KindV::StructLit(_, s) => exprs_tally(cx, s),
        KindV::If(c, t, f) => both(
            both(expr_tally(cx, *c), units(1)),
            either(
                block_tally(cx, t),
                match f {
                    Some(b) => block_tally(cx, b),
                    None => units(0),
                },
            ),
        ),
        KindV::Block(b) => block_tally(cx, b),
        _ => units(0),
    }
}

pub open spec fn exprs_tally(cx: CxV, s: Seq<ExprV>) -> Tally
    decreases s,
{
    if s.len() == 0 {
        units(0)
    } else {
        both(exprs_tally(cx, s.drop_last()), expr_tally(cx, s.last()))
    }
}

pub open spec fn block_tally(cx: CxV, b: BlockV) -> Tally
    decreases b,
{
    both(
        stmts_tally(cx, b.stmts),
        match b.tail {
            Some(e) => expr_tally(cx, *e),
            None => units(0),
        },
    )
}

pub open spec fn stmts_tally(cx: CxV, s: Seq<StmtV>) -> Tally
    decreases s,
{
    if s.len() == 0 {
        units(0)
    } else {
        both(stmts_tally(cx, s.drop_last()), stmt_tally(cx, s.last()))
    }
}

/// What a statement does: `op=` is the operation and, on an element, a load and a store; each element
/// of a new array is stored.
pub open spec fn stmt_tally(cx: CxV, s: StmtV) -> Tally
    decreases s,
{
    match s {
        StmtV::Let(_, e) => expr_tally(cx, e),
        StmtV::LetArray(id, a) => both(
            exprs_tally(cx, a),
            Tally { ops: a.len() as int, bytes: a.len() * elem_bytes(cx, id) },
        ),
        StmtV::Assign(lv, op, e) => both(
            both(expr_tally(cx, e), lvalue_tally(cx, lv)),
            units(
                if op is None {
                    0
                } else if lv is Index || lv is IndexField {
                    2
                } else {
                    1
                },
            ),
        ),
        StmtV::Expr(e) => expr_tally(cx, e),
        StmtV::Return(e) => match e {
            Some(x) => expr_tally(cx, x),
            None => units(0),
        },
        _ => units(0),
    }
}

/// What a plain assignment does: an element is stored; a local is in a register.
pub open spec fn lvalue_tally(cx: CxV, l: LValueV) -> Tally
    decreases l,
{
    match l {
        LValueV::Index(_, i, _) => both(expr_tally(cx, i), units(1)),
        LValueV::IndexField(_, i, _, _) => both(expr_tally(cx, i), units(1)),
        _ => units(0),
    }
}

// ---- straight code ----

/// No call, and no loop in a block, stands in the expression.
pub open spec fn straight_expr(e: ExprV) -> bool
    decreases e,
{
    match e.kind {
        KindV::Binary(_, a, b) => straight_expr(*a) && straight_expr(*b),
        KindV::MinMax(_, a, b) => straight_expr(*a) && straight_expr(*b),
        KindV::Unary(_, a) => straight_expr(*a),
        KindV::Cast(a, _) => straight_expr(*a),
        KindV::Println(a) => straight_expr(*a),
        KindV::Index(_, i) => straight_expr(*i),
        KindV::Field(a, _) => straight_expr(*a),
        KindV::StructLit(_, s) => straight_exprs(s),
        KindV::If(c, t, f) => straight_expr(*c) && straight_block(t) && match f {
            Some(b) => straight_block(b),
            None => true,
        },
        KindV::Block(b) => straight_block(b),
        KindV::Call(_, _) => false,
        _ => true,
    }
}

pub open spec fn straight_exprs(s: Seq<ExprV>) -> bool
    decreases s,
{
    s.len() == 0 || straight_exprs(s.drop_last()) && straight_expr(s.last())
}

pub open spec fn straight_block(b: BlockV) -> bool
    decreases b,
{
    straight_stmts(b.stmts) && match b.tail {
        Some(e) => straight_expr(*e),
        None => true,
    }
}

pub open spec fn straight_stmts(s: Seq<StmtV>) -> bool
    decreases s,
{
    s.len() == 0 || straight_stmts(s.drop_last()) && straight_stmt(s.last())
}

pub open spec fn straight_stmt(s: StmtV) -> bool
    decreases s,
{
    match s {
        StmtV::Let(_, e) => straight_expr(e),
        StmtV::LetArray(_, a) => straight_exprs(a),
        StmtV::Assign(lv, _, e) => straight_expr(e) && straight_lvalue(lv),
        StmtV::Expr(e) => straight_expr(e),
        StmtV::Return(e) => match e {
            Some(x) => straight_expr(x),
            None => true,
        },
        StmtV::Break => true,
        _ => false,
    }
}

pub open spec fn straight_lvalue(l: LValueV) -> bool
    decreases l,
{
    match l {
        LValueV::Index(_, i, _) => straight_expr(i),
        LValueV::IndexField(_, i, _, _) => straight_expr(i),
        _ => true,
    }
}

// ---- what is spent ----

/// A cost is larger by `n` at every place.
pub open spec fn grown(s: Seq<PieceV>, t: Seq<PieceV>, n: int) -> bool {
    forall|x: Place, u: real|
        placed(x) && valuation(x.w) && #[trigger] cost_is(s, x, u) ==> cost_is(t, x, u + n as real)
}

/// Charges are made, and the costs are in canonical form.
pub open spec fn charging(w: WalkV) -> bool {
    !w.replay && pieces_ok(w.work) && pieces_ok(w.moves) && pieces_ok(w.calls)
}

/// From the one state to the other the tally was charged, and no call.
pub open spec fn spent(w: WalkV, o: Out, t: Tally) -> bool {
    &&& o.1 is None
    &&& charging(o.0)
    &&& grown(w.work, o.0.work, t.ops)
    &&& grown(w.moves, o.0.moves, t.bytes)
    &&& grown(w.calls, o.0.calls, 0)
}

proof fn nothing_is(x: Place)
    ensures
        pieces_ok(no_cost()),
        cost_is(no_cost(), x, 0real),
{
    zero_wf();
    assert(no_cost()[0].conds.len() == 0);
    assert(conds_true(no_cost()[0].conds, x));
}

/// A size added to a cost adds its value.
pub proof fn add_poly_is(s: Seq<PieceV>, p: PolyV, x: Place, v: real)
    requires
        pieces_ok(s),
        p_wf(p),
        placed(x),
        cost_is(s, x, v),
    ensures
        cost_is(c_add_poly(s, p), x, v + p_value(p, x.w)),
{
    let f = |q: PolyV| p_add(q, p);
    let t = with_polys(s, f);
    add_poly_rows(s, p);
    assert(cost_is(t, x, v + p_value(p, x.w))) by {
        let i = choose|i: int| 0 <= i < s.len() && conds_true((#[trigger] s[i]).conds, x) && p_value(s[i].poly, x.w) == v;
        sum_value(s[i].poly, p, x.w);
        assert(t[i].conds == s[i].conds);
        assert forall|i: int| 0 <= i < t.len() && conds_true((#[trigger] t[i]).conds, x) implies p_value(t[i].poly, x.w) <= v
            + p_value(p, x.w) by {
            assert(conds_true(s[i].conds, x));
            sum_value(s[i].poly, p, x.w);
        }
    }
    prune_keeps(t, x, v + p_value(p, x.w));
}

proof fn add_poly_rows(s: Seq<PieceV>, p: PolyV)
    requires
        pieces_ok(s),
        p_wf(p),
    ensures
        pieces_ok(with_polys(s, |q: PolyV| p_add(q, p))),
{
    let t = with_polys(s, |q: PolyV| p_add(q, p));
    assert forall|i: int| 0 <= i < t.len() implies p_wf((#[trigger] t[i]).poly) && conds_ok(t[i].conds) by {
        assert(p_wf(s[i].poly) && conds_ok(s[i].conds));
        p_add_wf(s[i].poly, p);
    }
}

pub proof fn add_poly_ok(s: Seq<PieceV>, p: PolyV)
    requires
        pieces_ok(s),
        p_wf(p),
    ensures
        pieces_ok(c_add_poly(s, p)),
{
    add_poly_rows(s, p);
    prune_ok(with_polys(s, |q: PolyV| p_add(q, p)));
}

proof fn rat_is(c: real, x: Place)
    requires
        valuation(x.w),
    ensures
        p_value(p_rat(c), x.w) == c,
{
    term_value(m_one(), c, x.w);
    assert(c * 1real == c) by (nonlinear_arith);
}

proof fn number_grows(s: Seq<PieceV>, p: PolyV, n: int)
    requires
        pieces_ok(s),
        p_wf(p),
        forall|x: Place| valuation(x.w) ==> #[trigger] p_value(p, x.w) == n as real,
    ensures
        pieces_ok(c_add_poly(s, p)),
        grown(s, c_add_poly(s, p), n),
{
    add_poly_ok(s, p);
    assert forall|x: Place, u: real| placed(x) && valuation(x.w) && #[trigger] cost_is(s, x, u) implies cost_is(
        c_add_poly(s, p),
        x,
        u + n as real,
    ) by {
        add_poly_is(s, p, x, u);
        assert(p_value(p, x.w) == n as real);
    }
}

proof fn units_spent(w: WalkV, n: int)
    requires
        charging(w),
    ensures
        spent(w, (add_work_n(w, n), None), units(n)),
{
    p_rat_wf(n as real);
    assert forall|x: Place| valuation(x.w) implies #[trigger] p_value(p_rat(n as real), x.w) == n as real by {
        rat_is(n as real, x);
    }
    number_grows(w.work, p_rat(n as real), n);
}

proof fn spent_then(a: WalkV, b: Out, c: Out, s: Tally, t: Tally)
    requires
        spent(a, b, s),
        spent(b.0, c, t),
    ensures
        spent(a, c, both(s, t)),
{
}

proof fn made_spent(cx: CxV, w: WalkV, id: usize, n: int)
    requires
        charging(w),
    ensures
        spent(
            w,
            (made(cx, add_work(w, p_rat(n as real)), id, p_rat(n as real)), None),
            (Tally { ops: n, bytes: n * elem_bytes(cx, id) }),
        ),
{
    let k = p_rat(n as real);
    let es = elem_bytes(cx, id);
    units_spent(w, n);
    p_scale_wf(k, es as real);
    p_rat_wf(n as real);
    p_scale_wf(k, es as real);
    assert forall|x: Place| valuation(x.w) implies #[trigger] p_value(p_scale(k, es as real), x.w) == (n * es) as real by {
        rat_is(n as real, x);
        scale_value(k, es as real, x.w);
        assert(es as real * (n as real) == (n * es) as real) by (nonlinear_arith);
    }
    number_grows(w.moves, p_scale(k, es as real), n * es);
}

// ---- the walk ----

proof fn expr_spent(cx: CxV, d: nat, n: nat, w: WalkV, e: ExprV)
    requires
        expr_size(e) < n,
        straight_expr(e),
        charging(w),
    ensures
        spent(w, (knot(cx, d, n).expr)(w, e), expr_tally(cx, e)),
    decreases expr_size(e), 0int,
{
    let m = expr_size(e);
    let ev = knot(cx, d, m);
    let o = (knot(cx, d, n).expr)(w, e);
    knot_expr(cx, d, n, w, e);
    expr_shrinks(e);
    reveal(r_expr);
    match e.kind {
        KindV::Binary(_, a, b) => two_spent(cx, d, m, w, *a, *b, 1),
        KindV::MinMax(_, a, b) => two_spent(cx, d, m, w, *a, *b, 2),
        KindV::Unary(_, a) => one_spent(cx, d, m, w, *a),
        KindV::Cast(a, _) => one_spent(cx, d, m, w, *a),
        KindV::Println(a) => one_spent(cx, d, m, w, *a),
        KindV::Index(arr, i) => {
            one_spent(cx, d, m, w, *i);
            reveal(access);
        },
        KindV::Field(base, _) => match base.kind {
            KindV::Index(arr, i) => {
                expr_shrinks(*base);
                reveal_with_fuel(straight_expr, 2);
                reveal_with_fuel(expr_tally, 2);
                one_spent(cx, d, m, w, *i);
                reveal(access);
            },
            _ => expr_spent(cx, d, m, w, *base),
        },
        KindV::StructLit(_, s) => {
            assert(s.take(s.len() as int) =~= s);
            exprs_spent(cx, d, m, w, s, s.len());
        },
        KindV::If(c, t, f) => if_spent(cx, d, m, w, *c, t, f),
        KindV::Block(b) => block_spent(cx, d, m, w, b),
        _ => {},
    }
}

proof fn one_spent(cx: CxV, d: nat, n: nat, w: WalkV, a: ExprV)
    requires
        expr_size(a) < n,
        straight_expr(a),
        charging(w),
    ensures
        spent(w, one_part(knot(cx, d, n), w, a), both(expr_tally(cx, a), units(1))),
    decreases expr_size(a), 1int,
{
    let o = (knot(cx, d, n).expr)(w, a);
    expr_spent(cx, d, n, w, a);
    units_spent(o.0, 1);
    spent_then(w, o, one_part(knot(cx, d, n), w, a), expr_tally(cx, a), units(1));
}

proof fn two_spent(cx: CxV, d: nat, n: nat, w: WalkV, a: ExprV, b: ExprV, k: int)
    requires
        expr_size(a) < n,
        expr_size(b) < n,
        straight_expr(a),
        straight_expr(b),
        charging(w),
    ensures
        spent(
            w,
            two_parts(knot(cx, d, n), w, a, b, k),
            both(both(expr_tally(cx, a), expr_tally(cx, b)), units(k)),
        ),
    decreases larger(expr_size(a) as int, expr_size(b) as int) as nat, 1int,
{
    let ev = knot(cx, d, n);
    let o = (ev.expr)(w, a);
    expr_spent(cx, d, n, w, a);
    let p = (ev.expr)(o.0, b);
    expr_spent(cx, d, n, o.0, b);
    spent_then(w, o, p, expr_tally(cx, a), expr_tally(cx, b));
    units_spent(p.0, k);
    spent_then(w, p, two_parts(ev, w, a, b, k), both(expr_tally(cx, a), expr_tally(cx, b)), units(k));
}

proof fn exprs_at(s: Seq<ExprV>, i: int)
    requires
        straight_exprs(s),
        0 <= i < s.len(),
    ensures
        straight_expr(s[i]),
    decreases s.len(),
{
    if i < s.len() - 1 {
        exprs_at(s.drop_last(), i);
    }
}

proof fn stmts_at(s: Seq<StmtV>, i: int)
    requires
        straight_stmts(s),
        0 <= i < s.len(),
    ensures
        straight_stmt(s[i]),
    decreases s.len(),
{
    if i < s.len() - 1 {
        stmts_at(s.drop_last(), i);
    }
}

proof fn exprs_spent(cx: CxV, d: nat, n: nat, w: WalkV, s: Seq<ExprV>, k: nat)
    requires
        exprs_size(s) <= n,
        k <= s.len(),
        straight_exprs(s),
        charging(w),
    ensures
        spent(w, exprs_walk(knot(cx, d, n), w, s, k), exprs_tally(cx, s.take(k as int))),
    decreases exprs_size(s), k,
{
    if k > 0 {
        let o = exprs_walk(knot(cx, d, n), w, s, (k - 1) as nat);
        exprs_spent(cx, d, n, w, s, (k - 1) as nat);
        exprs_shrink(s, k - 1);
        exprs_at(s, k - 1);
        expr_spent(cx, d, n, o.0, s[k - 1]);
        assert(s.take(k as int).drop_last() =~= s.take(k - 1));
        spent_then(
            w,
            o,
            exprs_walk(knot(cx, d, n), w, s, k),
            exprs_tally(cx, s.take(k - 1)),
            expr_tally(cx, s[k - 1]),
        );
    }
}

proof fn block_spent(cx: CxV, d: nat, n: nat, w: WalkV, b: BlockV)
    requires
        block_size(b) < n,
        straight_block(b),
        charging(w),
    ensures
        spent(w, (knot(cx, d, n).block)(w, b), block_tally(cx, b)),
    decreases block_size(b), 0int,
{
    let m = block_size(b);
    let ev = knot(cx, d, m);
    knot_block(cx, d, n, w, b);
    block_shrinks(b);
    reveal(r_block);
    let t = scan_block(cx, w, b.stmts, b.stmts.len());
    let v = WalkV { aliases: t.aliases, ..w };
    let o = stmts_walk(cx, ev, v, b.stmts, b.stmts.len());
    assert(b.stmts.take(b.stmts.len() as int) =~= b.stmts);
    stmts_spent(cx, d, m, v, b.stmts, b.stmts.len());
    match b.tail {
        Some(e) => {
            expr_spent(cx, d, m, o.0, *e);
            spent_then(v, o, (ev.expr)(o.0, *e), stmts_tally(cx, b.stmts), expr_tally(cx, *e));
        },
        None => {},
    }
}

proof fn stmts_spent(cx: CxV, d: nat, n: nat, w: WalkV, s: Seq<StmtV>, k: nat)
    requires
        stmts_size(s) < n,
        k <= s.len(),
        straight_stmts(s),
        charging(w),
    ensures
        spent(w, stmts_walk(cx, knot(cx, d, n), w, s, k), stmts_tally(cx, s.take(k as int))),
    decreases stmts_size(s), k,
{
    if k > 0 {
        let o = stmts_walk(cx, knot(cx, d, n), w, s, (k - 1) as nat);
        stmts_spent(cx, d, n, w, s, (k - 1) as nat);
        stmts_shrink(s, k - 1);
        stmts_at(s, k - 1);
        stmt_spent(cx, d, n, o.0, s[k - 1]);
        assert(s.take(k as int).drop_last() =~= s.take(k - 1));
        spent_then(
            w,
            o,
            stmts_walk(cx, knot(cx, d, n), w, s, k),
            stmts_tally(cx, s.take(k - 1)),
            stmt_tally(cx, s[k - 1]),
        );
    }
}

proof fn stmt_spent(cx: CxV, d: nat, n: nat, w: WalkV, s: StmtV)
    requires
        stmt_size(s) < n,
        straight_stmt(s),
        charging(w),
    ensures
        spent(w, r_stmt(cx, knot(cx, d, n), w, s), stmt_tally(cx, s)),
    decreases stmt_size(s), 0int,
{
    let ev = knot(cx, d, n);
    let v = recognised(cx, w, s);
    stmt_shrinks(s);
    reveal(r_stmt);
    reveal(recognised);
    assert(charging(v) && v.work == w.work && v.moves == w.moves && v.calls == w.calls);
    match s {
        StmtV::Let(id, e) => {
            reveal(r_let);
            reveal(bound_to);
            expr_spent(cx, d, n, v, e);
        },
        StmtV::LetArray(id, a) => {
            reveal(r_array);
            assert(a.take(a.len() as int) =~= a);
            exprs_spent(cx, d, n, w, a, a.len());
            let o = exprs_walk(ev, w, a, a.len());
            made_spent(cx, o.0, id, a.len() as int);
            spent_then(
                w,
                o,
                r_array(cx, ev, w, id, a),
                exprs_tally(cx, a),
                (Tally { ops: a.len() as int, bytes: a.len() * elem_bytes(cx, id) }),
            );
        },
        StmtV::Assign(lv, op, e) => {
            reveal(r_assign);
            expr_spent(cx, d, n, v, e);
            let o = (ev.expr)(v, e);
            let t = expr_tally(cx, e);
            match lv {
                LValueV::Index(arr, i, _) => {
                    store_spent(cx, d, n, o.0, arr, i, None, op);
                    spent_then(
                        v,
                        o,
                        store(cx, ev, o.0, arr, i, None, op),
                        t,
                        both(expr_tally(cx, i), units(if op is Some { 3 } else { 1 })),
                    );
                },
                LValueV::IndexField(arr, i, fi, _) => {
                    store_spent(cx, d, n, o.0, arr, i, Some(fi), op);
                    spent_then(
                        v,
                        o,
                        store(cx, ev, o.0, arr, i, Some(fi), op),
                        t,
                        both(expr_tally(cx, i), units(if op is Some { 3 } else { 1 })),
                    );
                },
                LValueV::Var(x) => {
                    let r = reassigned(cx, o.0, x, op, e);
                    units_spent(r, if op is Some { 1 } else { 0 });
                },
                LValueV::Field(_, _) => {
                    units_spent(o.0, if op is Some { 1 } else { 0 });
                },
            }
        },
        StmtV::Expr(e) => expr_spent(cx, d, n, v, e),
        StmtV::Return(e) => match e {
            Some(x) => expr_spent(cx, d, n, w, x),
            None => {},
        },
        _ => {},
    }
}

proof fn store_spent(
    cx: CxV,
    d: nat,
    n: nat,
    w: WalkV,
    arr: usize,
    i: ExprV,
    field: Option<usize>,
    op: Option<BinOp>,
)
    requires
        expr_size(i) < n,
        straight_expr(i),
        charging(w),
    ensures
        spent(
            w,
            store(cx, knot(cx, d, n), w, arr, i, field, op),
            both(expr_tally(cx, i), units(if op is Some { 3 } else { 1 })),
        ),
    decreases expr_size(i), 1int,
{
    let o = (knot(cx, d, n).expr)(w, i);
    let k: int = if op is Some {
        3
    } else {
        1
    };
    expr_spent(cx, d, n, w, i);
    units_spent(o.0, k);
    reveal(access);
    spent_then(w, o, (add_work_n(o.0, k), None), expr_tally(cx, i), units(k));
}

proof fn max_grown(a: Seq<PieceV>, b: Seq<PieceV>, m: int, n: int)
    requires
        pieces_ok(a),
        pieces_ok(b),
        grown(no_cost(), a, m),
        grown(no_cost(), b, n),
    ensures
        pieces_ok(c_max(a, b)),
        forall|x: Place|
            placed(x) && valuation(x.w) ==> #[trigger] cost_is(c_max(a, b), x, larger(m, n) as real),
{
    prune_ok(a + b);
    assert forall|x: Place| placed(x) && valuation(x.w) implies #[trigger] cost_is(c_max(a, b), x, larger(m, n) as real) by {
        nothing_is(x);
        assert(cost_is(a, x, 0real + m as real));
        assert(cost_is(b, x, 0real + n as real));
        max_is(a, b, x, m as real, n as real);
    }
}

proof fn added_grown(s: Seq<PieceV>, t: Seq<PieceV>, n: int)
    requires
        pieces_ok(s),
        pieces_ok(t),
        forall|x: Place| placed(x) && valuation(x.w) ==> #[trigger] cost_is(t, x, n as real),
    ensures
        pieces_ok(c_add(s, t)),
        grown(s, c_add(s, t), n),
{
    sum_ok(s, t);
    assert forall|x: Place, u: real| placed(x) && valuation(x.w) && #[trigger] cost_is(s, x, u) implies cost_is(
        c_add(s, t),
        x,
        u + n as real,
    ) by {
        assert(cost_is(t, x, n as real));
        sum_is(s, t, x, u, n as real);
    }
}

proof fn side_spent(cx: CxV, d: nat, n: nat, w: WalkV, id: usize, yes: bool, b: Option<BlockV>)
    requires
        b is Some ==> block_size(b->0) < n && straight_block(b->0),
        charging(w),
    ensures
        ({
            let t = match b {
                Some(x) => block_tally(cx, x),
                None => units(0),
            };
            let r = side(knot(cx, d, n), w, id, yes, b);
            &&& r.0.1 is None
            &&& charging(r.0.0)
            &&& r.0.0.work == w.work
            &&& r.0.0.moves == w.moves
            &&& grown(w.calls, r.0.0.calls, 0)
            &&& pieces_ok(r.1)
            &&& pieces_ok(r.2)
            &&& grown(no_cost(), r.1, t.ops)
            &&& grown(no_cost(), r.2, t.bytes)
        }),
    decreases (if b is Some { block_size(b->0) } else { 0 }), 1int,
{
    reveal(side);
    let start = branched(w, id, yes);
    assert(pieces_ok(no_cost())) by {
        zero_wf();
    }
    let o = match b {
        Some(x) => (knot(cx, d, n).block)(start, x),
        None => (start, None),
    };
    match b {
        Some(x) => block_spent(cx, d, n, start, x),
        None => {},
    }
    assert forall|x: Place| placed(x) && valuation(x.w) implies #[trigger] cost_is(o.0.calls, x, 0int as real) by {
        nothing_is(x);
        assert(cost_is(no_cost(), x, 0real));
    }
    added_grown(w.calls, o.0.calls, 0);
}

proof fn if_spent(cx: CxV, d: nat, n: nat, w0: WalkV, c: ExprV, t: BlockV, f: Option<BlockV>)
    requires
        expr_size(c) < n,
        block_size(t) < n,
        f is Some ==> block_size(f->0) < n,
        straight_expr(c),
        straight_block(t),
        f is Some ==> straight_block(f->0),
        charging(w0),
    ensures
        spent(
            w0,
            r_if(cx, knot(cx, d, n), w0, c, t, f),
            both(
                both(expr_tally(cx, c), units(1)),
                either(
                    block_tally(cx, t),
                    match f {
                        Some(b) => block_tally(cx, b),
                        None => units(0),
                    },
                ),
            ),
        ),
    decreases
        larger(expr_size(c) as int, larger(block_size(t) as int, if f is Some { block_size(f->0) as int } else { 0 })) as nat,
        2int,
{
    reveal(r_if);
    let ev = knot(cx, d, n);
    let o = one_part(ev, w0, c);
    one_spent(cx, d, n, w0, c);
    let id = o.0.next_if;
    let w = WalkV { next_if: next_id(id), ..o.0 };
    let k = w.self_calls.len();
    let (yes, yes_work, yes_moves) = side(ev, w, id, true, Some(t));
    side_spent(cx, d, n, w, id, true, Some(t));
    let between = WalkV { self_calls: yes.0.self_calls.take(k as int), initial: w.initial, ..yes.0 };
    let (no, no_work, no_moves) = side(ev, between, id, false, f);
    side_spent(cx, d, n, between, id, false, f);
    let p = block_tally(cx, t);
    let q = match f {
        Some(b) => block_tally(cx, b),
        None => units(0),
    };
    max_grown(yes_work, no_work, p.ops, q.ops);
    max_grown(yes_moves, no_moves, p.bytes, q.bytes);
    added_grown(no.0.work, c_max(yes_work, no_work), larger(p.ops, q.ops));
    added_grown(no.0.moves, c_max(yes_moves, no_moves), larger(p.bytes, q.bytes));
    let r = r_if(cx, ev, w0, c, t, f);
    assert(grown(w.calls, r.0.calls, 0)) by {
        assert forall|x: Place, u: real| placed(x) && valuation(x.w) && #[trigger] cost_is(w.calls, x, u) implies cost_is(
            r.0.calls,
            x,
            u + 0int as real,
        ) by {
            assert(cost_is(yes.0.calls, x, u + 0int as real));
        }
    }
    assert(spent(o.0, r, either(p, q)));
    spent_then(w0, o, r, both(expr_tally(cx, c), units(1)), either(p, q));
}

/// A block without loops and calls is charged the operations along its dearer way, and the bytes of the
/// arrays it writes out, on top of what was charged before, wherever the sizes stand.
pub proof fn straight_code_charged(cx: CxV, d: nat, n: nat, w: WalkV, b: BlockV)
    requires
        block_size(b) < n,
        straight_block(b),
        charging(w),
    ensures
        spent(w, (knot(cx, d, n).block)(w, b), block_tally(cx, b)),
{
    block_spent(cx, d, n, w, b);
}

} // verus!
