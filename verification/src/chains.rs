//! What the loop that an iterator chain is lowered to computes: the values that flow through the
//! stages, and what the terminal makes of them.

use vstd::prelude::*;
use crate::ast;
use crate::ast::{BinOp, UnOp};
use crate::ir::{ExprV, KindV, LValueV, StmtV, Ty};
use crate::meaning::{
    block_value, eval, number, operate, run, run_all, run_more, run_one, run_push, run_range, run_two, stored, turn,
    with_var, Store, Val, World,
};
use crate::typing::{
    bind_params, chain_block, chain_first, chain_len, chain_source, chain_stages, declare_fresh, element, flow_type,
    guarded, keep_best, local_expr, local_of, mk, next_id, s_apply, s_chain, s_filter, s_flow, s_fold, s_map, s_sink,
    unit_block, Env, Ev, Flow, Place, Sink, St,
};

verus! {

// ---- what flows ----

/// The store once the filters have been met in turn, and whether the element passes all of them.
pub open spec fn past_filters(g: Seq<(Seq<StmtV>, ExprV)>, s: Store, w: World) -> (Store, bool)
    decreases g.len(),
{
    if g.len() == 0 {
        (s, true)
    } else {
        let (t, ok) = past_filters(g.drop_last(), s, w);
        if !ok {
            (t, false)
        } else {
            let u = run_all(g.last().0, t, w);
            (u, eval(g.last().1, u, w) == Val::Bool(true))
        }
    }
}

/// The store once the stages have run, and whether the element reaches the terminal.
pub open spec fn past_stages(f: Flow, s: Store, w: World) -> (Store, bool) {
    let (t, ok) = past_filters(f.guards, s, w);
    if ok {
        (run_all(f.stmts, t, w), true)
    } else {
        (t, false)
    }
}

/// The stages run for the elements below `n`, with nothing at their end.
pub open spec fn stages_run(f: Flow, i: usize, n: int, s: Store, w: World) -> Store
    decreases n,
{
    if n <= 0 {
        s
    } else {
        past_stages(f, with_var(stages_run(f, i, n - 1, s, w), i, Val::Int(n - 1)), w).0
    }
}

/// The stores in which elements below `n` reach the terminal, in order.
pub open spec fn arrivals(f: Flow, i: usize, n: int, s: Store, w: World) -> Seq<Store>
    decreases n,
{
    if n <= 0 {
        Seq::empty()
    } else {
        let before = arrivals(f, i, n - 1, s, w);
        let (t, ok) = past_stages(f, with_var(stages_run(f, i, n - 1, s, w), i, Val::Int(n - 1)), w);
        if ok {
            before.push(t)
        } else {
            before
        }
    }
}

/// The values that flow into the terminal: those of the local `v` on arrival.
pub open spec fn flowing(a: Seq<Store>, v: usize) -> Seq<Val> {
    Seq::new(a.len(), |k: int| (a[k].vars)(v))
}

// ---- what the terminals mean ----

/// The values added up, from `start` on.
pub open spec fn added(vals: Seq<Val>, start: Val, w: World) -> Val
    decreases vals.len(),
{
    if vals.len() == 0 {
        start
    } else {
        operate(BinOp::Add, added(vals.drop_last(), start, w), vals.last(), w)
    }
}

/// Zero of a numeric type.
pub open spec fn nought(ty: Ty, w: World) -> Val {
    match ty {
        Ty::F64 => (w.float)("0.0"@),
        Ty::U8 => (w.byte)(0),
        _ => Val::Int(0),
    }
}

pub open spec fn all_ints(vals: Seq<Val>) -> bool {
    forall|k: int| 0 <= k < vals.len() ==> (#[trigger] vals[k]) is Int
}

pub open spec fn all_bools(vals: Seq<Val>) -> bool {
    forall|k: int| 0 <= k < vals.len() ==> (#[trigger] vals[k]) is Bool
}

pub open spec fn int_sum(vals: Seq<Val>) -> int
    decreases vals.len(),
{
    if vals.len() == 0 {
        0
    } else {
        int_sum(vals.drop_last()) + number(vals.last())
    }
}

/// The greatest of the integers, or the least; nought where there are none.
pub open spec fn is_best(vals: Seq<Val>, max: bool, r: Val) -> bool {
    if vals.len() == 0 {
        r == Val::Int(0)
    } else {
        &&& vals.contains(r)
        &&& forall|k: int|
            0 <= k < vals.len() ==> if max {
                number(#[trigger] vals[k]) <= number(r)
            } else {
                number(r) <= number(vals[k])
            }
    }
}

/// A store with the parameters from the `n`-th down bound to what the locals in `from` hold.
pub open spec fn bound(s: Store, ids: Seq<usize>, from: Seq<usize>, n: nat) -> Store
    decreases n,
{
    if n == 0 {
        s
    } else {
        let t = bound(s, ids, from, (n - 1) as nat);
        with_var(t, ids[n - 1], (t.vars)(from[n - 1]))
    }
}

/// The accumulator after the arrivals: each step is the closure's body, with its parameters bound to
/// the accumulator and the values that flow.
pub open spec fn fold_of(a: Seq<Store>, acc: usize, ids: Seq<usize>, from: Seq<usize>, body: ExprV, start: Val, w: World) -> Val
    decreases a.len(),
{
    if a.len() == 0 {
        start
    } else {
        let was = fold_of(a.drop_last(), acc, ids, from, body, start, w);
        eval(body, bound(with_var(a.last(), acc, was), ids, from, ids.len()), w)
    }
}

// ---- what the stages may look at ----

/// The stores agree on arrays, and on the locals below `m`.
pub open spec fn agree_below(a: Store, b: Store, m: int) -> bool {
    &&& forall|l: usize| l < m ==> #[trigger] (a.vars)(l) == (b.vars)(l)
    &&& a.cells == b.cells
    &&& a.lens == b.lens
}

/// What the expression is worth depends only on arrays and on the locals below `m`.
pub open spec fn looks_below(e: ExprV, m: int, w: World) -> bool {
    forall|a: Store, b: Store| #[trigger] agree_below(a, b, m) ==> eval(e, a, w) == eval(e, b, w)
}

/// The statements bind locals below `m` to expressions that look below `m`.
pub open spec fn lets_below(t: Seq<StmtV>, m: int, w: World) -> bool {
    forall|k: int|
        0 <= k < t.len() ==> match #[trigger] t[k] {
            StmtV::Let(l, e) => l < m && !e.ty.arrayish() && looks_below(e, m, w),
            _ => false,
        }
}

/// The stages bind and look at nothing but arrays and the locals below `m`.
pub open spec fn flow_below(f: Flow, m: int, w: World) -> bool {
    &&& lets_below(f.stmts, m, w)
    &&& forall|k: int|
        0 <= k < f.guards.len() ==> lets_below((#[trigger] f.guards[k]).0, m, w) && looks_below(f.guards[k].1, m, w)
}

/// The locals of the terminal's own.
pub type Own = spec_fn(usize) -> bool;

/// The stores agree on arrays, and on all locals but some.
pub open spec fn agree_but(a: Store, b: Store, own: Own) -> bool {
    &&& forall|l: usize| !own(l) ==> #[trigger] (a.vars)(l) == (b.vars)(l)
    &&& a.cells == b.cells
    &&& a.lens == b.lens
}

pub open spec fn own_kept(a: Store, b: Store, own: Own) -> bool {
    forall|l: usize| own(l) ==> #[trigger] (a.vars)(l) == (b.vars)(l)
}

pub open spec fn owns_above(own: Own, m: int) -> bool {
    forall|l: usize| #[trigger] own(l) ==> l >= m
}

proof fn but_is_below(a: Store, b: Store, own: Own, m: int)
    requires
        agree_but(a, b, own),
        owns_above(own, m),
    ensures
        agree_below(a, b, m),
{
    assert forall|l: usize| l < m implies #[trigger] (a.vars)(l) == (b.vars)(l) by {
        assert(!own(l));
    }
}

proof fn bind_runs(l: usize, e: ExprV, s: Store, w: World)
    requires
        !e.ty.arrayish(),
    ensures
        run(StmtV::Let(l, e), s, w) == with_var(s, l, eval(e, s, w)),
{
}

proof fn lets_agree(t: Seq<StmtV>, a: Store, b: Store, own: Own, m: int, w: World)
    requires
        lets_below(t, m, w),
        agree_but(a, b, own),
        owns_above(own, m),
    ensures
        agree_but(run_all(t, a, w), run_all(t, b, w), own),
        own_kept(run_all(t, a, w), a, own),
    decreases t.len(),
{
    if t.len() > 0 {
        let u = t.drop_last();
        assert forall|k: int| 0 <= k < u.len() implies match #[trigger] u[k] {
            StmtV::Let(l, e) => l < m && !e.ty.arrayish() && looks_below(e, m, w),
            _ => false,
        } by {
            assert(u[k] == t[k]);
        }
        lets_agree(u, a, b, own, m, w);
        let (c, d) = (run_all(u, a, w), run_all(u, b, w));
        assert(t.last() == t[t.len() - 1]);
        match t.last() {
            StmtV::Let(l, e) => {
                but_is_below(c, d, own, m);
                assert(eval(e, c, w) == eval(e, d, w));
                let (x, y) = (run_all(t, a, w), run_all(t, b, w));
                assert(x == run(t.last(), c, w) && y == run(t.last(), d, w));
                bind_runs(l, e, c, w);
                bind_runs(l, e, d, w);
                assert(!own(l));
                assert forall|j: usize| !own(j) implies #[trigger] (x.vars)(j) == (y.vars)(j) by {
                    assert((c.vars)(j) == (d.vars)(j));
                }
                assert forall|j: usize| own(j) implies #[trigger] (x.vars)(j) == (a.vars)(j) by {
                    assert((c.vars)(j) == (a.vars)(j));
                }
            },
            _ => {},
        }
    }
}

proof fn filters_agree(g: Seq<(Seq<StmtV>, ExprV)>, a: Store, b: Store, own: Own, m: int, w: World)
    requires
        forall|k: int| 0 <= k < g.len() ==> lets_below((#[trigger] g[k]).0, m, w) && looks_below(g[k].1, m, w),
        agree_but(a, b, own),
        owns_above(own, m),
    ensures
        past_filters(g, a, w).1 == past_filters(g, b, w).1,
        agree_but(past_filters(g, a, w).0, past_filters(g, b, w).0, own),
        own_kept(past_filters(g, a, w).0, a, own),
    decreases g.len(),
{
    if g.len() > 0 {
        let h = g.drop_last();
        assert forall|k: int| 0 <= k < h.len() implies lets_below((#[trigger] h[k]).0, m, w) && looks_below(
            h[k].1,
            m,
            w,
        ) by {
            assert(h[k] == g[k]);
        }
        filters_agree(h, a, b, own, m, w);
        let (c, d) = (past_filters(h, a, w).0, past_filters(h, b, w).0);
        assert(g.last() == g[g.len() - 1]);
        if past_filters(h, a, w).1 {
            lets_agree(g.last().0, c, d, own, m, w);
            let (x, y) = (run_all(g.last().0, c, w), run_all(g.last().0, d, w));
            but_is_below(x, y, own, m);
            assert forall|j: usize| own(j) implies #[trigger] (x.vars)(j) == (a.vars)(j) by {
                assert((x.vars)(j) == (c.vars)(j));
                assert((c.vars)(j) == (a.vars)(j));
            }
        }
    }
}

proof fn stages_agree(f: Flow, a: Store, b: Store, own: Own, m: int, w: World)
    requires
        flow_below(f, m, w),
        agree_but(a, b, own),
        owns_above(own, m),
    ensures
        past_stages(f, a, w).1 == past_stages(f, b, w).1,
        agree_but(past_stages(f, a, w).0, past_stages(f, b, w).0, own),
        own_kept(past_stages(f, a, w).0, a, own),
{
    filters_agree(f.guards, a, b, own, m, w);
    let (c, d) = (past_filters(f.guards, a, w).0, past_filters(f.guards, b, w).0);
    if past_filters(f.guards, a, w).1 {
        lets_agree(f.stmts, c, d, own, m, w);
        let x = run_all(f.stmts, c, w);
        assert forall|j: usize| own(j) implies #[trigger] (x.vars)(j) == (a.vars)(j) by {
            assert((x.vars)(j) == (c.vars)(j));
            assert((c.vars)(j) == (a.vars)(j));
        }
    }
}

// ---- the loop's body ----

/// The statements inside the filters run where the element passes them, and not otherwise.
proof fn guarded_runs(g: Seq<(Seq<StmtV>, ExprV)>, inner: Seq<StmtV>, line: u32, s: Store, w: World)
    ensures
        run_all(guarded(g, inner, line), s, w) == ({
            let (t, ok) = past_filters(g, s, w);
            if ok {
                run_all(inner, t, w)
            } else {
                t
            }
        }),
    decreases g.len(),
{
    if g.len() > 0 {
        let (before, cond) = g.last();
        let test = StmtV::Expr(mk(KindV::If(Box::new(cond), unit_block(inner), None), Ty::Unit, line));
        guarded_runs(g.drop_last(), before.push(test), line, s, w);
        let (t, ok) = past_filters(g.drop_last(), s, w);
        if ok {
            run_push(before, test, t, w);
        }
    }
}

/// A turn of the loop: the stages, and the terminal's update where the element arrives.
proof fn turn_runs(f: Flow, update: Seq<StmtV>, line: u32, s: Store, w: World)
    ensures
        run_all(guarded(f.guards, f.stmts + update, line), s, w) == ({
            let (t, ok) = past_stages(f, s, w);
            if ok {
                run_all(update, t, w)
            } else {
                t
            }
        }),
{
    guarded_runs(f.guards, f.stmts + update, line, s, w);
    run_more(f.stmts, update, past_filters(f.guards, s, w).0, w);
}

// ---- the terminal's own values ----

/// Two of the terminal's locals, the accumulator and the one beside it.
pub type Pair = (Val, Val);

pub open spec fn pair_in(s: Store, acc: usize, seen: usize) -> Pair {
    ((s.vars)(acc), (s.vars)(seen))
}

/// What the arrivals make of the terminal's locals.
pub open spec fn folded(a: Seq<Store>, g: spec_fn(Pair, Store) -> Pair, start: Pair) -> Pair
    decreases a.len(),
{
    if a.len() == 0 {
        start
    } else {
        g(folded(a.drop_last(), g, start), a.last())
    }
}

/// On an arrival the update makes of the terminal's locals what `g` says, and changes no others.
pub open spec fn updates(update: Seq<StmtV>, acc: usize, seen: usize, own: Own, g: spec_fn(Pair, Store) -> Pair, w: World) -> bool {
    forall|a: Store, b: Store|
        #[trigger] agree_but(a, b, own) ==> {
            let r = run_all(update, a, w);
            agree_but(r, b, own) && pair_in(r, acc, seen) == g(pair_in(a, acc, seen), b)
        }
}

/// The loop runs the stages, and makes of the terminal's locals what the arrivals make of them.
proof fn loop_folds(
    f: Flow,
    update: Seq<StmtV>,
    line: u32,
    i: usize,
    n: int,
    a: Store,
    b: Store,
    acc: usize,
    seen: usize,
    own: Own,
    g: spec_fn(Pair, Store) -> Pair,
    m: int,
    w: World,
)
    requires
        flow_below(f, m, w),
        i < m,
        owns_above(own, m),
        own(acc),
        own(seen),
        agree_but(a, b, own),
        updates(update, acc, seen, own, g, w),
    ensures
        ({
            let r = run_range(guarded(f.guards, f.stmts + update, line), i, 0, n, a, w);
            &&& agree_but(r, stages_run(f, i, n, b, w), own)
            &&& pair_in(r, acc, seen) == folded(arrivals(f, i, n, b, w), g, pair_in(a, acc, seen))
        }),
    decreases (if n > 0 { n } else { 0 }),
{
    let body = guarded(f.guards, f.stmts + update, line);
    if n > 0 {
        loop_folds(f, update, line, i, n - 1, a, b, acc, seen, own, g, m, w);
        let r = run_range(body, i, 0, n - 1, a, w);
        let q = stages_run(f, i, n - 1, b, w);
        let (r1, q1) = (with_var(r, i, Val::Int(n - 1)), with_var(q, i, Val::Int(n - 1)));
        assert(!own(i));
        assert(agree_but(r1, q1, own)) by {
            assert forall|l: usize| !own(l) implies #[trigger] (r1.vars)(l) == (q1.vars)(l) by {
                assert((r.vars)(l) == (q.vars)(l));
            }
        }
        turn_runs(f, update, line, r1, w);
        stages_agree(f, r1, q1, own, m, w);
        let (c, d) = (past_stages(f, r1, w).0, past_stages(f, q1, w).0);
        assert((c.vars)(acc) == (r1.vars)(acc) && (c.vars)(seen) == (r1.vars)(seen));
        assert(pair_in(c, acc, seen) == pair_in(r, acc, seen));
        if past_stages(f, q1, w).1 {
            assert(agree_but(c, d, own));
            let s = arrivals(f, i, n, b, w);
            assert(s.drop_last() =~= arrivals(f, i, n - 1, b, w));
            assert(s.last() == d);
        }
    }
}

// ---- the block ----

/// How many elements a chain visits: those of its array, or of the shorter of two.
pub open spec fn visited(src: usize, zip: Option<usize>, s: Store) -> int {
    match zip {
        None => (s.lens)(src),
        Some(o) => if (s.lens)(src) < (s.lens)(o) {
            (s.lens)(src)
        } else {
            (s.lens)(o)
        },
    }
}

proof fn visits(src: usize, zip: Option<usize>, line: u32, s: Store, w: World)
    ensures
        number(eval(chain_len(src, zip, line), s, w)) == visited(src, zip, s),
{
    let own = mk(KindV::Len(src), Ty::I64, line);
    assert(eval(own, s, w) == Val::Int((s.lens)(src)));
    match zip {
        None => {},
        Some(o) => {
            let other = mk(KindV::Len(o), Ty::I64, line);
            assert(eval(other, s, w) == Val::Int((s.lens)(o)));
            let e = chain_len(src, zip, line);
            assert(e.kind == KindV::MinMax(true, Box::new(own), Box::new(other)));
            assert(eval(e, s, w) == crate::meaning::smaller(true, eval(own, s, w), eval(other, s, w), w));
        },
    }
}

/// The store at the start of the loop.
spec fn primed(sink: Sink, s: Store, w: World) -> Store {
    run_all(seq![StmtV::Let(sink.acc, sink.init)] + sink.before, s, w)
}

/// The lowered chain is worth its accumulator, once the loop has run over the elements visited.
proof fn block_folds(
    st: St,
    sink: Sink,
    f: Flow,
    i: usize,
    src: usize,
    zip: Option<usize>,
    line: u32,
    s: Store,
    seen: usize,
    own: Own,
    g: spec_fn(Pair, Store) -> Pair,
    m: int,
    w: World,
)
    requires
        flow_below(f, m, w),
        i < m,
        owns_above(own, m),
        own(sink.acc),
        own(seen),
        updates(sink.update, sink.acc, seen, own, g, w),
        agree_but(primed(sink, s, w), s, own),
    ensures
        eval(chain_block(st, sink, f, i, chain_len(src, zip, line), line), s, w) == folded(
            arrivals(f, i, visited(src, zip, s), s, w),
            g,
            pair_in(primed(sink, s, w), sink.acc, seen),
        ).0,
{
    reveal(chain_block);
    let len = chain_len(src, zip, line);
    let e = chain_block(st, sink, f, i, len, line);
    let inner = guarded(f.guards, f.stmts + sink.update, line);
    let zero = mk(KindV::Int(0), Ty::I64, line);
    let loop_ = StmtV::For { var: i, start: zero, end: len, body: unit_block(inner) };
    let head = seq![StmtV::Let(sink.acc, sink.init)] + sink.before;
    let a = primed(sink, s, w);
    let n = visited(src, zip, s);
    run_push(head, loop_, s, w);
    visits(src, zip, line, a, w);
    assert(eval(zero, a, w) == Val::Int(0));
    assert(run(loop_, a, w) == run_range(inner, i, 0, n, a, w));
    loop_folds(f, sink.update, line, i, n, a, s, sink.acc, seen, own, g, m, w);
    match e.kind {
        KindV::Block(b) => {
            assert(b.stmts == head.push(loop_));
            assert(b.tail == Some(Box::new(local_expr(st, sink.acc, line))));
            assert(eval(e, s, w) == block_value(b, s, w));
            let r = run_all(b.stmts, s, w);
            assert(eval(local_expr(st, sink.acc, line), r, w) == (r.vars)(sink.acc));
        },
        _ => {},
    }
}

// ---- the terminals ----

pub open spec fn just(acc: usize) -> Own {
    |l: usize| l == acc
}

pub open spec fn just_two(acc: usize, seen: usize) -> Own {
    |l: usize| l == acc || l == seen
}

/// One assignment to the accumulator.
proof fn one_update(acc: usize, op: Option<BinOp>, e: ExprV, g: spec_fn(Pair, Store) -> Pair, w: World)
    requires
        forall|a: Store, b: Store|
            #[trigger] agree_but(a, b, just(acc)) ==> {
                let x = stored(op, (a.vars)(acc), eval(e, a, w), w);
                g(pair_in(a, acc, acc), b) == (x, x)
            },
    ensures
        updates(seq![StmtV::Assign(LValueV::Var(acc), op, e)], acc, acc, just(acc), g, w),
{
    let t = StmtV::Assign(LValueV::Var(acc), op, e);
    let own = just(acc);
    assert forall|a: Store, b: Store| #[trigger] agree_but(a, b, own) implies {
        let r = run_all(seq![t], a, w);
        agree_but(r, b, own) && pair_in(r, acc, acc) == g(pair_in(a, acc, acc), b)
    } by {
        run_one(t, a, w);
        let r = run(t, a, w);
        assert(r == with_var(a, acc, stored(op, (a.vars)(acc), eval(e, a, w), w)));
        assert forall|l: usize| !own(l) implies #[trigger] (r.vars)(l) == (b.vars)(l) by {
            assert((a.vars)(l) == (b.vars)(l));
        }
    }
}

proof fn primed_once(sink: Sink, s: Store, w: World)
    requires
        sink.before.len() == 0,
        !sink.init.ty.arrayish(),
    ensures
        primed(sink, s, w) == with_var(s, sink.acc, eval(sink.init, s, w)),
{
    assert(seq![StmtV::Let(sink.acc, sink.init)] + sink.before =~= seq![StmtV::Let(sink.acc, sink.init)]);
    run_one(StmtV::Let(sink.acc, sink.init), s, w);
    bind_runs(sink.acc, sink.init, s, w);
}

pub open spec fn adds(v: usize, w: World) -> spec_fn(Pair, Store) -> Pair {
    |p: Pair, b: Store|
        {
            let x = operate(BinOp::Add, p.0, (b.vars)(v), w);
            (x, x)
        }
}

proof fn adds_up(a: Seq<Store>, v: usize, start: Val, w: World)
    ensures
        folded(a, adds(v, w), (start, start)).0 == added(flowing(a, v), start, w),
    decreases a.len(),
{
    if a.len() > 0 {
        adds_up(a.drop_last(), v, start, w);
        assert(flowing(a, v).drop_last() =~= flowing(a.drop_last(), v));
        assert(flowing(a, v).last() == (a.last().vars)(v));
    }
}

/// Integers that are added up from nought give their sum.
pub proof fn added_ints(vals: Seq<Val>, w: World)
    requires
        all_ints(vals),
    ensures
        added(vals, Val::Int(0), w) == Val::Int(int_sum(vals)),
    decreases vals.len(),
{
    if vals.len() > 0 {
        let u = vals.drop_last();
        assert forall|k: int| 0 <= k < u.len() implies (#[trigger] u[k]) is Int by {
            assert(u[k] == vals[k]);
        }
        added_ints(u, w);
        assert(vals.last() == vals[vals.len() - 1]);
    }
}

pub open spec fn counts_one(w: World) -> spec_fn(Pair, Store) -> Pair {
    |p: Pair, b: Store|
        {
            let x = operate(BinOp::Add, p.0, Val::Int(1), w);
            (x, x)
        }
}

proof fn counts_up(a: Seq<Store>, w: World)
    ensures
        folded(a, counts_one(w), (Val::Int(0), Val::Int(0))).0 == Val::Int(a.len() as int),
    decreases a.len(),
{
    if a.len() > 0 {
        counts_up(a.drop_last(), w);
    }
}

pub open spec fn tests(op: BinOp, v: usize, w: World) -> spec_fn(Pair, Store) -> Pair {
    |p: Pair, b: Store|
        {
            let x = operate(op, p.0, (b.vars)(v), w);
            (x, x)
        }
}

proof fn any_of(a: Seq<Store>, v: usize, w: World)
    requires
        all_bools(flowing(a, v)),
    ensures
        folded(a, tests(BinOp::Or, v, w), (Val::Bool(false), Val::Bool(false))).0 == Val::Bool(
            flowing(a, v).contains(Val::Bool(true)),
        ),
    decreases a.len(),
{
    let f = flowing(a, v);
    if a.len() > 0 {
        let u = a.drop_last();
        let h = flowing(u, v);
        assert(f.drop_last() =~= h);
        assert forall|k: int| 0 <= k < h.len() implies (#[trigger] h[k]) is Bool by {
            assert(f[k] == h[k]);
        }
        any_of(u, v, w);
        let n = a.len() - 1;
        assert(f[n] == (a.last().vars)(v));
        if h.contains(Val::Bool(true)) {
            let k = choose|k: int| 0 <= k < h.len() && h[k] == Val::Bool(true);
            assert(f[k] == h[k]);
            assert(f.contains(f[k]));
        }
        if f[n] == Val::Bool(true) {
            assert(f.contains(f[n]));
        }
        if f.contains(Val::Bool(true)) {
            let k = choose|k: int| 0 <= k < f.len() && f[k] == Val::Bool(true);
            if k < n {
                assert(h[k] == f[k]);
                assert(h.contains(h[k]));
            }
        }
    }
}

proof fn all_of(a: Seq<Store>, v: usize, w: World)
    requires
        all_bools(flowing(a, v)),
    ensures
        folded(a, tests(BinOp::And, v, w), (Val::Bool(true), Val::Bool(true))).0 == Val::Bool(
            !flowing(a, v).contains(Val::Bool(false)),
        ),
    decreases a.len(),
{
    let f = flowing(a, v);
    if a.len() > 0 {
        let u = a.drop_last();
        let h = flowing(u, v);
        assert(f.drop_last() =~= h);
        assert forall|k: int| 0 <= k < h.len() implies (#[trigger] h[k]) is Bool by {
            assert(f[k] == h[k]);
        }
        all_of(u, v, w);
        let n = a.len() - 1;
        assert(f[n] == (a.last().vars)(v));
        if h.contains(Val::Bool(false)) {
            let k = choose|k: int| 0 <= k < h.len() && h[k] == Val::Bool(false);
            assert(f[k] == h[k]);
            assert(f.contains(f[k]));
        }
        if f[n] == Val::Bool(false) {
            assert(f.contains(f[n]));
        }
        if f.contains(Val::Bool(false)) {
            let k = choose|k: int| 0 <= k < f.len() && f[k] == Val::Bool(false);
            if k < n {
                assert(h[k] == f[k]);
                assert(h.contains(h[k]));
            }
        }
    }
}

/// The better of the accumulator and the value, the first value in any case.
pub open spec fn betters(op: BinOp, v: usize, w: World) -> spec_fn(Pair, Store) -> Pair {
    |p: Pair, b: Store|
        {
            let x = (b.vars)(v);
            if operate(BinOp::Or, turn(UnOp::Not, p.1, w), operate(op, x, p.0, w), w) == Val::Bool(true) {
                (x, Val::Bool(true))
            } else {
                p
            }
        }
}

proof fn best_updates(st: St, op: BinOp, acc: usize, seen: usize, v: usize, line: u32, w: World)
    requires
        acc != seen,
        v != acc,
        v != seen,
    ensures
        updates(seq![keep_best(st, op, acc, seen, v, line)], acc, seen, just_two(acc, seen), betters(op, v, w), w),
{
    let own = just_two(acc, seen);
    let t = keep_best(st, op, acc, seen, v, line);
    let g = betters(op, v, w);
    let (ev_, ea, es) = (local_expr(st, v, line), local_expr(st, acc, line), local_expr(st, seen, line));
    let test = mk(KindV::Binary(op, Box::new(ev_), Box::new(ea)), Ty::Bool, line);
    let unseen = mk(KindV::Unary(UnOp::Not, Box::new(es)), Ty::Bool, line);
    let cond = mk(KindV::Binary(BinOp::Or, Box::new(unseen), Box::new(test)), Ty::Bool, line);
    let one = StmtV::Assign(LValueV::Var(acc), None, ev_);
    let yes_e = mk(KindV::Bool(true), Ty::Bool, line);
    let two = StmtV::Assign(LValueV::Var(seen), None, yes_e);
    let yes = unit_block(seq![one, two]);
    assert(t == StmtV::Expr(mk(KindV::If(Box::new(cond), yes, None), Ty::Unit, line)));
    assert forall|a: Store, b: Store| #[trigger] agree_but(a, b, own) implies {
        let r = run_all(seq![t], a, w);
        agree_but(r, b, own) && pair_in(r, acc, seen) == g(pair_in(a, acc, seen), b)
    } by {
        run_one(t, a, w);
        let r = run(t, a, w);
        assert(eval(ev_, a, w) == (a.vars)(v));
        assert(eval(ea, a, w) == (a.vars)(acc));
        assert(eval(es, a, w) == (a.vars)(seen));
        assert(eval(test, a, w) == operate(op, (a.vars)(v), (a.vars)(acc), w));
        assert(eval(unseen, a, w) == turn(UnOp::Not, (a.vars)(seen), w));
        assert(eval(cond, a, w) == operate(BinOp::Or, eval(unseen, a, w), eval(test, a, w), w));
        assert(!own(v));
        assert((a.vars)(v) == (b.vars)(v));
        if eval(cond, a, w) == Val::Bool(true) {
            assert(r == run_all(seq![one, two], a, w));
            run_two(one, two, a, w);
            let q = with_var(a, acc, (a.vars)(v));
            assert(run(one, a, w) == q);
            assert(eval(yes_e, q, w) == Val::Bool(true));
            assert(run(two, q, w) == with_var(q, seen, Val::Bool(true)));
        } else {
            assert(r == a);
        }
        assert forall|l: usize| !own(l) implies #[trigger] (r.vars)(l) == (b.vars)(l) by {
            assert((a.vars)(l) == (b.vars)(l));
        }
    }
}

proof fn best_of(a: Seq<Store>, max: bool, v: usize, w: World)
    requires
        all_ints(flowing(a, v)),
    ensures
        ({
            let op = if max {
                BinOp::Gt
            } else {
                BinOp::Lt
            };
            let r = folded(a, betters(op, v, w), (Val::Int(0), Val::Bool(false)));
            &&& is_best(flowing(a, v), max, r.0)
            &&& r.1 == Val::Bool(a.len() > 0)
            &&& r.0 is Int
        }),
    decreases a.len(),
{
    let f = flowing(a, v);
    if a.len() > 0 {
        let op = if max {
            BinOp::Gt
        } else {
            BinOp::Lt
        };
        let u = a.drop_last();
        let h = flowing(u, v);
        assert(f.drop_last() =~= h);
        assert forall|k: int| 0 <= k < h.len() implies (#[trigger] h[k]) is Int by {
            assert(f[k] == h[k]);
        }
        best_of(u, max, v, w);
        let n = a.len() - 1;
        let p = folded(u, betters(op, v, w), (Val::Int(0), Val::Bool(false)));
        let r = folded(a, betters(op, v, w), (Val::Int(0), Val::Bool(false)));
        assert(f[n] == (a.last().vars)(v));
        assert(f[n] is Int);
        assert(r == betters(op, v, w)(p, a.last()));
        assert forall|k: int| 0 <= k < f.len() implies if max {
            number(#[trigger] f[k]) <= number(r.0)
        } else {
            number(r.0) <= number(f[k])
        } by {
            if k < n {
                assert(f[k] == h[k]);
            }
        }
        assert(f.contains(f[n]));
        if u.len() > 0 {
            assert(h.contains(p.0));
            let k = choose|k: int| 0 <= k < h.len() && h[k] == p.0;
            assert(f[k] == h[k]);
            assert(f.contains(f[k]));
        }
    }
}

// ---- closures ----

/// The ids that a closure's parameters get.
pub open spec fn param_ids(st: St, n: nat) -> Seq<usize> {
    Seq::new(n, |k: int| (st.locals.len() + k) as usize)
}

/// The lets that bind parameters bind them in turn to what the locals hold.
proof fn binding(st: St, params: Seq<Seq<char>>, from: Seq<usize>, line: u32, n: nat, s: Store, w: World)
    requires
        n <= params.len(),
        n <= from.len(),
        st.locals.len() + n <= usize::MAX,
        forall|k: int| 0 <= k < n ==> (#[trigger] from[k]) < st.locals.len() && !st.locals[from[k] as int].ty.arrayish(),
    ensures
        ({
            let (lets, st1) = bind_params(st, params, from, line, n);
            &&& run_all(lets, s, w) == bound(s, param_ids(st, params.len()), from, n)
            &&& st1.locals.len() == st.locals.len() + n
            &&& forall|l: int| 0 <= l < st.locals.len() ==> (#[trigger] st1.locals[l]) == st.locals[l]
        }),
    decreases n,
{
    reveal(bind_params);
    if n > 0 {
        let m = (n - 1) as nat;
        binding(st, params, from, line, m, s, w);
        let (lets, st1) = bind_params(st, params, from, line, m);
        let v = from[n - 1];
        let id = next_id(st1);
        let e = local_expr(st1, v, line);
        assert(st1.locals[v as int] == st.locals[v as int]);
        let t = bound(s, param_ids(st, params.len()), from, m);
        run_push(lets, StmtV::Let(id, e), s, w);
        bind_runs(id, e, t, w);
        assert(eval(e, t, w) == (t.vars)(v));
        assert(id == param_ids(st, params.len())[n - 1]);
    }
}

/// Binding changes the parameters and nothing else, and gives each what its local held.
proof fn bound_is(s: Store, ids: Seq<usize>, from: Seq<usize>, n: nat)
    requires
        n <= ids.len(),
        n <= from.len(),
        forall|j: int, k: int| 0 <= j < k < ids.len() ==> ids[j] != ids[k],
        forall|j: int, k: int| 0 <= j < ids.len() && 0 <= k < from.len() ==> ids[j] != from[k],
    ensures
        ({
            let t = bound(s, ids, from, n);
            &&& t.cells == s.cells
            &&& t.lens == s.lens
            &&& forall|k: int| 0 <= k < n ==> (t.vars)(#[trigger] ids[k]) == (s.vars)(from[k])
            &&& forall|l: usize| !ids.contains(l) ==> #[trigger] (t.vars)(l) == (s.vars)(l)
        }),
    decreases n,
{
    if n > 0 {
        bound_is(s, ids, from, (n - 1) as nat);
        let t = bound(s, ids, from, (n - 1) as nat);
        let r = bound(s, ids, from, n);
        assert(!ids.contains(from[n - 1]));
        assert((t.vars)(from[n - 1]) == (s.vars)(from[n - 1]));
        assert(ids.contains(ids[n - 1]));
        assert forall|k: int| 0 <= k < n implies (r.vars)(#[trigger] ids[k]) == (s.vars)(from[k]) by {
            if k < n - 1 {
                assert(ids[k] != ids[n - 1]);
                assert((t.vars)(ids[k]) == (s.vars)(from[k]));
            }
        }
        assert forall|l: usize| !ids.contains(l) implies #[trigger] (r.vars)(l) == (s.vars)(l) by {
            assert((t.vars)(l) == (s.vars)(l));
        }
    }
}

pub open spec fn steps(acc: usize, ids: Seq<usize>, from: Seq<usize>, body: ExprV, w: World) -> spec_fn(Pair, Store) -> Pair {
    |p: Pair, b: Store|
        {
            let x = eval(body, bound(with_var(b, acc, p.0), ids, from, ids.len()), w);
            (x, x)
        }
}

pub open spec fn fold_own(acc: usize, ids: Seq<usize>) -> Own {
    |l: usize| l == acc || ids.contains(l)
}

proof fn fold_updates(
    lets: Seq<StmtV>,
    acc: usize,
    ids: Seq<usize>,
    from: Seq<usize>,
    body: ExprV,
    w: World,
)
    requires
        ids.len() == from.len(),
        forall|s: Store| #[trigger] run_all(lets, s, w) == bound(s, ids, from, ids.len()),
        forall|j: int, k: int| 0 <= j < k < ids.len() ==> ids[j] != ids[k],
        forall|j: int, k: int| 0 <= j < ids.len() && 0 <= k < from.len() ==> ids[j] != from[k],
        from.len() > 0,
        from[0] == acc,
    ensures
        updates(
            lets.push(StmtV::Assign(LValueV::Var(acc), None, body)),
            acc,
            acc,
            fold_own(acc, ids),
            steps(acc, ids, from, body, w),
            w,
        ),
{
    let own = fold_own(acc, ids);
    let last = StmtV::Assign(LValueV::Var(acc), None, body);
    let g = steps(acc, ids, from, body, w);
    assert forall|a: Store, b: Store| #[trigger] agree_but(a, b, own) implies {
        let r = run_all(lets.push(last), a, w);
        agree_but(r, b, own) && pair_in(r, acc, acc) == g(pair_in(a, acc, acc), b)
    } by {
        run_push(lets, last, a, w);
        let n = ids.len();
        let c = with_var(b, acc, (a.vars)(acc));
        let (x, y) = (bound(a, ids, from, n), bound(c, ids, from, n));
        bound_is(a, ids, from, n);
        bound_is(c, ids, from, n);
        assert forall|l: usize| #[trigger] (x.vars)(l) == (y.vars)(l) by {
            if ids.contains(l) {
                let k = choose|k: int| 0 <= k < ids.len() && ids[k] == l;
                assert((x.vars)(ids[k]) == (a.vars)(from[k]));
                assert((y.vars)(ids[k]) == (c.vars)(from[k]));
                let f = from[k];
                if f != acc {
                    if ids.contains(f) {
                        let j = choose|j: int| 0 <= j < ids.len() && ids[j] == f;
                    }
                    assert(!own(f));
                    assert((a.vars)(f) == (b.vars)(f));
                }
            } else {
                assert((x.vars)(l) == (a.vars)(l));
                assert((y.vars)(l) == (c.vars)(l));
                if l != acc {
                    assert(!own(l));
                    assert((a.vars)(l) == (b.vars)(l));
                }
            }
        }
        assert(x.vars =~= y.vars);
        assert(x == y);
        let r = run(last, x, w);
        assert(r == with_var(x, acc, eval(body, x, w)));
        assert forall|l: usize| !own(l) implies #[trigger] (r.vars)(l) == (b.vars)(l) by {
            assert((x.vars)(l) == (a.vars)(l));
            assert((a.vars)(l) == (b.vars)(l));
        }
    }
}

proof fn fold_is(a: Seq<Store>, acc: usize, ids: Seq<usize>, from: Seq<usize>, body: ExprV, start: Val, w: World)
    ensures
        folded(a, steps(acc, ids, from, body, w), (start, start)).0 == fold_of(a, acc, ids, from, body, start, w),
    decreases a.len(),
{
    if a.len() > 0 {
        fold_is(a.drop_last(), acc, ids, from, body, start, w);
    }
}

// ---- chains ----

/// The local that counts a chain's elements, its array and the one it is zipped with.
pub open spec fn counted_by(st: St) -> usize {
    next_id(st)
}

pub open spec fn iterated(st: St, recv: ast::ExprV) -> usize {
    local_of(st, chain_source(recv), "the source of a chain"@)->Ok_0
}

pub open spec fn zipped(st: St, recv: ast::ExprV) -> Option<usize> {
    chain_stages(st, recv)->Ok_0.1
}

/// The stages of a chain as they are lowered, and what is declared after them.
pub open spec fn stages_of(env: Env, ev: Ev, cx: Place, st: St, recv: ast::ExprV, line: u32) -> (Flow, St) {
    let st1 = declare_fresh(st, "i"@, Ty::I64, false);
    let (f, st2) = chain_first(st1, iterated(st, recv), zipped(st, recv), counted_by(st), line);
    s_flow(env, ev, cx, st2, recv, f, counted_by(st), line)->Ok_0
}

/// The elements of a chain that reach its terminal, each with the store in which it does.
pub open spec fn reaching(env: Env, ev: Ev, cx: Place, st: St, recv: ast::ExprV, line: u32, s: Store, w: World) -> Seq<Store> {
    arrivals(
        stages_of(env, ev, cx, st, recv, line).0,
        counted_by(st),
        visited(iterated(st, recv), zipped(st, recv), s),
        s,
        w,
    )
}

/// What the laws ask of a lowered chain: its stages look at nothing that is declared after them.
pub open spec fn well_staged(env: Env, ev: Ev, cx: Place, st: St, recv: ast::ExprV, line: u32, w: World) -> bool {
    let (f, st3) = stages_of(env, ev, cx, st, recv, line);
    let m = st3.locals.len();
    &&& flow_below(f, m as int, w)
    &&& counted_by(st) < m
    &&& m + 2 <= usize::MAX
    &&& forall|k: int| 0 <= k < f.vals.len() ==> (#[trigger] f.vals[k]) < m
}

proof fn names_apart()
    ensures
        "sum"@ != "count"@,
        "sum"@ != "max"@,
        "sum"@ != "min"@,
        "sum"@ != "any"@,
        "sum"@ != "all"@,
        "sum"@ != "fold"@,
        "count"@ != "max"@,
        "count"@ != "min"@,
        "count"@ != "any"@,
        "count"@ != "all"@,
        "count"@ != "fold"@,
        "max"@ != "min"@,
        "max"@ != "any"@,
        "max"@ != "all"@,
        "max"@ != "fold"@,
        "min"@ != "any"@,
        "min"@ != "all"@,
        "min"@ != "fold"@,
        "any"@ != "all"@,
        "any"@ != "fold"@,
        "all"@ != "fold"@,
{
    reveal_strlit("sum");
    reveal_strlit("count");
    reveal_strlit("max");
    reveal_strlit("min");
    reveal_strlit("any");
    reveal_strlit("all");
    reveal_strlit("fold");
    assert("sum"@[0] == 's' && "count"@[0] == 'c' && "max"@[0] == 'm' && "min"@[0] == 'm' && "any"@[0] == 'a' && "all"@[0]
        == 'a' && "fold"@[0] == 'f');
    assert("max"@[1] == 'a' && "min"@[1] == 'i' && "any"@[1] == 'n' && "all"@[1] == 'l');
}

/// The chain as a whole: its stages, the terminal, and the block that they make.
proof fn chain_parts(env: Env, ev: Ev, cx: Place, st: St, e: ast::ExprV, recv: ast::ExprV, name: Seq<char>, args: Seq<ast::ExprV>)
    requires
        e.kind == ast::KindV::MethodCall(Box::new(recv), name, args),
        s_chain(env, ev, cx, st, e) is Ok,
    ensures
        ({
            let (f, st3) = stages_of(env, ev, cx, st, recv, e.line);
            let sunk = s_sink(env, ev, cx, st3, f.vals, name, args, e.line, e.col);
            &&& sunk is Ok
            &&& s_chain(env, ev, cx, st, e)->Ok_0.0 == chain_block(
                s_chain(env, ev, cx, st, e)->Ok_0.1,
                sunk->Ok_0.0,
                f,
                counted_by(st),
                chain_len(iterated(st, recv), zipped(st, recv), e.line),
                e.line,
            )
        }),
{
    reveal(s_chain);
}

/// A chain that ends in `sum` is worth the sum of the values that flow into it: they are added up, in
/// order, from nought.
pub proof fn chain_sums(env: Env, ev: Ev, cx: Place, st: St, e: ast::ExprV, recv: ast::ExprV, args: Seq<ast::ExprV>, s: Store, w: World)
    requires
        e.kind == ast::KindV::MethodCall(Box::new(recv), "sum"@, args),
        s_chain(env, ev, cx, st, e) is Ok,
        well_staged(env, ev, cx, st, recv, e.line, w),
    ensures
        ({
            let (f, st3) = stages_of(env, ev, cx, st, recv, e.line);
            let vals = flowing(reaching(env, ev, cx, st, recv, e.line, s, w), f.vals[0]);
            let got = eval(s_chain(env, ev, cx, st, e)->Ok_0.0, s, w);
            &&& f.vals.len() == 1
            &&& got == added(vals, nought(st3.locals[f.vals[0] as int].ty, w), w)
            &&& st3.locals[f.vals[0] as int].ty == Ty::I64 && all_ints(vals) ==> got == Val::Int(int_sum(vals))
        }),
{
    reveal(s_sink);
    names_apart();
    chain_parts(env, ev, cx, st, e, recv, "sum"@, args);
    let (f, st3) = stages_of(env, ev, cx, st, recv, e.line);
    let sink = s_sink(env, ev, cx, st3, f.vals, "sum"@, args, e.line, e.col)->Ok_0.0;
    let st1 = declare_fresh(st3, "acc"@, flow_type(st3, f.vals), true);
    let v = f.vals[0];
    let acc = sink.acc;
    let a = reaching(env, ev, cx, st, recv, e.line, s, w);
    let x = local_expr(st1, v, e.line);
    assert forall|a: Store, b: Store| #[trigger] agree_but(a, b, just(acc)) implies {
        let y = stored(Some(BinOp::Add), (a.vars)(acc), eval(x, a, w), w);
        adds(v, w)(pair_in(a, acc, acc), b) == (y, y)
    } by {
        assert(!just(acc)(v));
        assert((a.vars)(v) == (b.vars)(v));
    }
    one_update(acc, Some(BinOp::Add), x, adds(v, w), w);
    primed_once(sink, s, w);
    block_folds(
        s_chain(env, ev, cx, st, e)->Ok_0.1,
        sink,
        f,
        counted_by(st),
        iterated(st, recv),
        zipped(st, recv),
        e.line,
        s,
        acc,
        just(acc),
        adds(v, w),
        st3.locals.len() as int,
        w,
    );
    let start = eval(sink.init, s, w);
    assert(start == nought(st3.locals[v as int].ty, w));
    adds_up(a, v, start, w);
    if all_ints(flowing(a, v)) {
        added_ints(flowing(a, v), w);
    }
}

/// A chain that ends in `count` is worth the number of elements that reach it.
pub proof fn chain_counts(env: Env, ev: Ev, cx: Place, st: St, e: ast::ExprV, recv: ast::ExprV, args: Seq<ast::ExprV>, s: Store, w: World)
    requires
        e.kind == ast::KindV::MethodCall(Box::new(recv), "count"@, args),
        s_chain(env, ev, cx, st, e) is Ok,
        well_staged(env, ev, cx, st, recv, e.line, w),
    ensures
        eval(s_chain(env, ev, cx, st, e)->Ok_0.0, s, w) == Val::Int(
            reaching(env, ev, cx, st, recv, e.line, s, w).len() as int,
        ),
{
    reveal(s_sink);
    names_apart();
    chain_parts(env, ev, cx, st, e, recv, "count"@, args);
    let (f, st3) = stages_of(env, ev, cx, st, recv, e.line);
    let sink = s_sink(env, ev, cx, st3, f.vals, "count"@, args, e.line, e.col)->Ok_0.0;
    let acc = sink.acc;
    let one = mk(KindV::Int(1), Ty::I64, e.line);
    one_update(acc, Some(BinOp::Add), one, counts_one(w), w);
    primed_once(sink, s, w);
    block_folds(
        s_chain(env, ev, cx, st, e)->Ok_0.1,
        sink,
        f,
        counted_by(st),
        iterated(st, recv),
        zipped(st, recv),
        e.line,
        s,
        acc,
        just(acc),
        counts_one(w),
        st3.locals.len() as int,
        w,
    );
    counts_up(reaching(env, ev, cx, st, recv, e.line, s, w), w);
}

/// A chain that ends in `max` or `min` is worth the greatest or the least of the integers that flow
/// into it, and nought where none does.
pub proof fn chain_bests(
    env: Env,
    ev: Ev,
    cx: Place,
    st: St,
    e: ast::ExprV,
    recv: ast::ExprV,
    max: bool,
    args: Seq<ast::ExprV>,
    s: Store,
    w: World,
)
    requires
        e.kind == ast::KindV::MethodCall(
            Box::new(recv),
            if max {
                "max"@
            } else {
                "min"@
            },
            args,
        ),
        s_chain(env, ev, cx, st, e) is Ok,
        well_staged(env, ev, cx, st, recv, e.line, w),
    ensures
        ({
            let (f, st3) = stages_of(env, ev, cx, st, recv, e.line);
            let vals = flowing(reaching(env, ev, cx, st, recv, e.line, s, w), f.vals[0]);
            &&& f.vals.len() == 1
            &&& st3.locals[f.vals[0] as int].ty == Ty::I64 && all_ints(vals) ==> is_best(
                vals,
                max,
                eval(s_chain(env, ev, cx, st, e)->Ok_0.0, s, w),
            )
        }),
{
    reveal(s_sink);
    names_apart();
    let name = if max {
        "max"@
    } else {
        "min"@
    };
    chain_parts(env, ev, cx, st, e, recv, name, args);
    let (f, st3) = stages_of(env, ev, cx, st, recv, e.line);
    let sink = s_sink(env, ev, cx, st3, f.vals, name, args, e.line, e.col)->Ok_0.0;
    let op = if max {
        BinOp::Gt
    } else {
        BinOp::Lt
    };
    let cur = flow_type(st3, f.vals);
    let st1 = declare_fresh(st3, "acc"@, cur, true);
    let seen = next_id(st1);
    let st2 = declare_fresh(st1, "seen"@, Ty::Bool, true);
    let v = f.vals[0];
    let acc = sink.acc;
    let own = just_two(acc, seen);
    best_updates(st2, op, acc, seen, v, e.line, w);
    let no = mk(KindV::Bool(false), Ty::Bool, e.line);
    let (t, u) = (StmtV::Let(acc, sink.init), StmtV::Let(seen, no));
    assert(seq![t] + sink.before =~= seq![t, u]);
    run_two(t, u, s, w);
    bind_runs(acc, sink.init, s, w);
    let q = with_var(s, acc, eval(sink.init, s, w));
    bind_runs(seen, no, q, w);
    assert(eval(no, q, w) == Val::Bool(false));
    let r = primed(sink, s, w);
    assert(r == with_var(q, seen, Val::Bool(false)));
    assert(agree_but(r, s, own));
    block_folds(
        s_chain(env, ev, cx, st, e)->Ok_0.1,
        sink,
        f,
        counted_by(st),
        iterated(st, recv),
        zipped(st, recv),
        e.line,
        s,
        seen,
        own,
        betters(op, v, w),
        st3.locals.len() as int,
        w,
    );
    let a = reaching(env, ev, cx, st, recv, e.line, s, w);
    if cur == Ty::I64 && all_ints(flowing(a, v)) {
        assert(eval(sink.init, s, w) == Val::Int(0));
        best_of(a, max, v, w);
    }
}

/// A chain that ends in `any` or `all` says whether some of the truth values that flow into it is
/// true, or none is false.
pub proof fn chain_tests(
    env: Env,
    ev: Ev,
    cx: Place,
    st: St,
    e: ast::ExprV,
    recv: ast::ExprV,
    all: bool,
    args: Seq<ast::ExprV>,
    s: Store,
    w: World,
)
    requires
        e.kind == ast::KindV::MethodCall(
            Box::new(recv),
            if all {
                "all"@
            } else {
                "any"@
            },
            args,
        ),
        s_chain(env, ev, cx, st, e) is Ok,
        well_staged(env, ev, cx, st, recv, e.line, w),
    ensures
        ({
            let (f, st3) = stages_of(env, ev, cx, st, recv, e.line);
            let vals = flowing(reaching(env, ev, cx, st, recv, e.line, s, w), f.vals[0]);
            &&& f.vals.len() == 1
            &&& all_bools(vals) ==> eval(s_chain(env, ev, cx, st, e)->Ok_0.0, s, w) == Val::Bool(
                if all {
                    !vals.contains(Val::Bool(false))
                } else {
                    vals.contains(Val::Bool(true))
                },
            )
        }),
{
    reveal(s_sink);
    names_apart();
    let name = if all {
        "all"@
    } else {
        "any"@
    };
    chain_parts(env, ev, cx, st, e, recv, name, args);
    let (f, st3) = stages_of(env, ev, cx, st, recv, e.line);
    let sink = s_sink(env, ev, cx, st3, f.vals, name, args, e.line, e.col)->Ok_0.0;
    let op = if all {
        BinOp::And
    } else {
        BinOp::Or
    };
    let st1 = declare_fresh(st3, "acc"@, Ty::Bool, true);
    let v = f.vals[0];
    let acc = sink.acc;
    let (l, r) = (local_expr(st1, acc, e.line), local_expr(st1, v, e.line));
    let both = mk(KindV::Binary(op, Box::new(l), Box::new(r)), Ty::Bool, e.line);
    let g = tests(op, v, w);
    assert forall|a: Store, b: Store| #[trigger] agree_but(a, b, just(acc)) implies {
        let y = stored(None, (a.vars)(acc), eval(both, a, w), w);
        g(pair_in(a, acc, acc), b) == (y, y)
    } by {
        assert(!just(acc)(v));
        assert((a.vars)(v) == (b.vars)(v));
        assert(eval(l, a, w) == (a.vars)(acc));
        assert(eval(r, a, w) == (a.vars)(v));
        assert(eval(both, a, w) == operate(op, eval(l, a, w), eval(r, a, w), w));
    }
    one_update(acc, None, both, g, w);
    primed_once(sink, s, w);
    block_folds(
        s_chain(env, ev, cx, st, e)->Ok_0.1,
        sink,
        f,
        counted_by(st),
        iterated(st, recv),
        zipped(st, recv),
        e.line,
        s,
        acc,
        just(acc),
        g,
        st3.locals.len() as int,
        w,
    );
    let a = reaching(env, ev, cx, st, recv, e.line, s, w);
    assert(eval(sink.init, s, w) == Val::Bool(all));
    if all_bools(flowing(a, v)) {
        if all {
            all_of(a, v, w);
        } else {
            any_of(a, v, w);
        }
    }
}

/// A chain that ends in `fold(init, |acc, ..| body)` is worth the accumulator after all arrivals: at
/// first `init`, and after each what the body is worth with its parameters bound to the accumulator
/// and the values that flow.
pub proof fn chain_folds(
    env: Env,
    ev: Ev,
    cx: Place,
    st: St,
    e: ast::ExprV,
    recv: ast::ExprV,
    first: ast::ExprV,
    closure: ast::ExprV,
    params: Seq<Seq<char>>,
    body: ast::ExprV,
    s: Store,
    w: World,
)
    requires
        e.kind == ast::KindV::MethodCall(Box::new(recv), "fold"@, seq![first, closure]),
        closure.kind == ast::KindV::Lambda(params, Box::new(body)),
        s_chain(env, ev, cx, st, e) is Ok,
        well_staged(env, ev, cx, st, recv, e.line, w),
        ({
            let (f, st3) = stages_of(env, ev, cx, st, recv, e.line);
            let st4 = (ev.expr)(cx, st3, first)->Ok_0.1;
            &&& st4.locals.len() >= st3.locals.len()
            &&& st4.locals.len() + 1 + params.len() <= usize::MAX
            &&& forall|k: int| 0 <= k < f.vals.len() ==> !st4.locals[(#[trigger] f.vals[k]) as int].ty.arrayish()
        }),
    ensures
        ({
            let (f, st3) = stages_of(env, ev, cx, st, recv, e.line);
            let (init, st4) = (ev.expr)(cx, st3, first)->Ok_0;
            let acc = next_id(st4);
            let st5 = declare_fresh(st4, "acc"@, init.ty, true);
            let from = seq![acc] + f.vals;
            let step = s_apply(env, ev, cx, st5, params, body, from, e.line)->Ok_0.1;
            eval(s_chain(env, ev, cx, st, e)->Ok_0.0, s, w) == fold_of(
                reaching(env, ev, cx, st, recv, e.line, s, w),
                acc,
                param_ids(st5, params.len()),
                from,
                step,
                eval(init, s, w),
                w,
            )
        }),
{
    reveal(s_sink);
    reveal(s_fold);
    reveal(s_apply);
    names_apart();
    let args = seq![first, closure];
    chain_parts(env, ev, cx, st, e, recv, "fold"@, args);
    let (f, st3) = stages_of(env, ev, cx, st, recv, e.line);
    let sink = s_sink(env, ev, cx, st3, f.vals, "fold"@, args, e.line, e.col)->Ok_0.0;
    assert(args[0] == first && args[1] == closure);
    let (init, st4) = (ev.expr)(cx, st3, first)->Ok_0;
    let acc = next_id(st4);
    let st5 = declare_fresh(st4, "acc"@, init.ty, true);
    let from = seq![acc] + f.vals;
    let (lets, step, st6) = s_apply(env, ev, cx, st5, params, body, from, e.line)->Ok_0;
    let ids = param_ids(st5, params.len());
    let n = params.len();
    assert(st5.locals.len() == st4.locals.len() + 1);
    assert forall|k: int| 0 <= k < n implies (#[trigger] from[k]) < st5.locals.len() && !st5.locals[from[k] as int].ty.arrayish() by {
        if k == 0 {
            assert(from[0] == acc);
        } else {
            assert(from[k] == f.vals[k - 1]);
        }
    }
    assert forall|q: Store| #[trigger] run_all(lets, q, w) == bound(q, ids, from, ids.len()) by {
        binding(st5, params, from, e.line, n, q, w);
    }
    assert forall|j: int, k: int| 0 <= j < ids.len() && 0 <= k < from.len() implies ids[j] != from[k] by {
        assert(from[k] < st5.locals.len());
    }
    fold_updates(lets, acc, ids, from, step, w);
    let own = fold_own(acc, ids);
    let m = st3.locals.len() as int;
    assert forall|l: usize| #[trigger] own(l) implies l >= m by {
        if l != acc {
            let j = choose|j: int| 0 <= j < ids.len() && ids[j] == l;
        }
    }
    assert(sink.acc == acc && sink.init == init);
    primed_once(sink, s, w);
    block_folds(
        s_chain(env, ev, cx, st, e)->Ok_0.1,
        sink,
        f,
        counted_by(st),
        iterated(st, recv),
        zipped(st, recv),
        e.line,
        s,
        acc,
        own,
        steps(acc, ids, from, step, w),
        m,
        w,
    );
    fold_is(reaching(env, ev, cx, st, recv, e.line, s, w), acc, ids, from, step, eval(init, s, w), w);
}

// ---- stages ----

/// What flows first is the element that the count stands at, and that of the zipped array with it.
pub proof fn first_flows(st: St, src: usize, zip: Option<usize>, i: usize, line: u32, s: Store, w: World)
    requires
        st.locals.len() + 2 <= usize::MAX,
        i < st.locals.len(),
        src < st.locals.len(),
        zip is Some ==> zip->0 < st.locals.len(),
        !(st.locals[src as int].ty.s_elem()->0).arrayish(),
        zip is Some ==> !(st.locals[zip->0 as int].ty.s_elem()->0).arrayish(),
    ensures
        ({
            let f = chain_first(st, src, zip, i, line).0;
            let (t, ok) = past_stages(f, s, w);
            let at = number((s.vars)(i));
            &&& ok
            &&& f.vals.len() == (if zip is Some { 2int } else { 1int })
            &&& (t.vars)(f.vals[0]) == (s.cells)(src, at)
            &&& zip is Some ==> (t.vars)(f.vals[1]) == (s.cells)(zip->0, at)
            &&& t.cells == s.cells
            &&& t.lens == s.lens
        }),
{
    reveal(chain_first);
    let x = next_id(st);
    let st1 = declare_fresh(st, "x"@, st.locals[src as int].ty.s_elem()->0, false);
    let e = element(st1, src, i, line);
    let one = StmtV::Let(x, e);
    assert(st1.locals[src as int] == st.locals[src as int]);
    let f = chain_first(st, src, zip, i, line).0;
    bind_runs(x, e, s, w);
    let ei = local_expr(st1, i, line);
    assert(eval(ei, s, w) == (s.vars)(i));
    assert(eval(e, s, w) == (s.cells)(src, number(eval(ei, s, w))));
    match zip {
        None => {
            run_one(one, s, w);
        },
        Some(o) => {
            let y = next_id(st1);
            let st2 = declare_fresh(st1, "y"@, st1.locals[o as int].ty.s_elem()->0, false);
            let e2 = element(st2, o, i, line);
            let two = StmtV::Let(y, e2);
            assert(st1.locals[o as int] == st.locals[o as int]);
            assert(st2.locals[o as int] == st.locals[o as int]);
            assert(seq![one].push(two) =~= seq![one, two]);
            run_two(one, two, s, w);
            let q = with_var(s, x, eval(e, s, w));
            bind_runs(y, e2, q, w);
            let ej = local_expr(st2, i, line);
            assert(eval(ej, q, w) == (s.vars)(i));
            assert(eval(e2, q, w) == (s.cells)(o, number(eval(ej, q, w))));
        },
    }
}

/// What a closure needs of the values that flow into it.
pub open spec fn may_bind(st: St, f: Flow, n: nat) -> bool {
    &&& st.locals.len() + n + 1 <= usize::MAX
    &&& forall|k: int|
        0 <= k < f.vals.len() ==> (#[trigger] f.vals[k]) < st.locals.len() && !st.locals[f.vals[k] as int].ty.arrayish()
}

/// `map` lets the same elements through, and what flows on is the closure's body, with its parameters
/// bound to what flowed in.
pub proof fn map_flows(env: Env, ev: Ev, cx: Place, st: St, f: Flow, params: Seq<Seq<char>>, body: ast::ExprV, line: u32, s: Store, w: World)
    requires
        s_map(env, ev, cx, st, f, params, body, line) is Ok,
        may_bind(st, f, params.len()),
    ensures
        ({
            let g = s_map(env, ev, cx, st, f, params, body, line)->Ok_0.0;
            let v = s_apply(env, ev, cx, st, params, body, f.vals, line)->Ok_0.1;
            let (t, ok) = past_stages(f, s, w);
            let (u, still) = past_stages(g, s, w);
            &&& still == ok
            &&& g.vals.len() == 1
            &&& ok ==> (u.vars)(g.vals[0]) == eval(v, bound(t, param_ids(st, params.len()), f.vals, params.len()), w)
        }),
{
    reveal(s_map);
    reveal(s_apply);
    let g = s_map(env, ev, cx, st, f, params, body, line)->Ok_0.0;
    let (lets, v, st1) = s_apply(env, ev, cx, st, params, body, f.vals, line)->Ok_0;
    let (p, ok) = past_filters(f.guards, s, w);
    if ok {
        let nv = next_id(st1);
        let t = run_all(f.stmts, p, w);
        run_push(f.stmts + lets, StmtV::Let(nv, v), p, w);
        run_more(f.stmts, lets, p, w);
        binding(st, params, f.vals, line, params.len(), t, w);
        bind_runs(nv, v, run_all(lets, t, w), w);
    }
}

/// `filter` lets those elements through for which the closure's body is true, with its parameters
/// bound to what flows, and changes nothing of what flows.
pub proof fn filter_flows(env: Env, ev: Ev, cx: Place, st: St, f: Flow, params: Seq<Seq<char>>, body: ast::ExprV, line: u32, s: Store, w: World)
    requires
        s_filter(env, ev, cx, st, f, params, body, line) is Ok,
        may_bind(st, f, params.len()),
    ensures
        ({
            let g = s_filter(env, ev, cx, st, f, params, body, line)->Ok_0.0;
            let c = s_apply(env, ev, cx, st, params, body, f.vals, line)->Ok_0.1;
            let (t, ok) = past_stages(f, s, w);
            let (u, still) = past_stages(g, s, w);
            &&& still == (ok && eval(c, bound(t, param_ids(st, params.len()), f.vals, params.len()), w) == Val::Bool(true))
            &&& g.vals == f.vals
            &&& still ==> forall|k: int| 0 <= k < f.vals.len() ==> (u.vars)(#[trigger] f.vals[k]) == (t.vars)(f.vals[k])
        }),
{
    reveal(s_filter);
    reveal(s_apply);
    let g = s_filter(env, ev, cx, st, f, params, body, line)->Ok_0.0;
    let (lets, c, st1) = s_apply(env, ev, cx, st, params, body, f.vals, line)->Ok_0;
    let (p, ok) = past_filters(f.guards, s, w);
    assert(g.guards.drop_last() =~= f.guards);
    assert(g.guards.last() == (f.stmts + lets, c));
    if ok {
        let t = run_all(f.stmts, p, w);
        let ids = param_ids(st, params.len());
        run_more(f.stmts, lets, p, w);
        binding(st, params, f.vals, line, params.len(), t, w);
        let u = bound(t, ids, f.vals, params.len());
        assert forall|j: int, k: int| 0 <= j < ids.len() && 0 <= k < f.vals.len() implies ids[j] != f.vals[k] by {
            assert(f.vals[k] < st.locals.len());
        }
        bound_is(t, ids, f.vals, params.len());
        assert forall|k: int| 0 <= k < f.vals.len() implies (u.vars)(#[trigger] f.vals[k]) == (t.vars)(f.vals[k]) by {
            assert(!ids.contains(f.vals[k]));
        }
        assert(run_all(Seq::<StmtV>::empty(), u, w) == u);
    }
}

/// `enumerate` lets the same elements through, and puts the count before what flows.
pub proof fn enumerate_flows(
    env: Env,
    ev: Ev,
    cx: Place,
    st: St,
    e: ast::ExprV,
    recv: ast::ExprV,
    args: Seq<ast::ExprV>,
    f: Flow,
    i: usize,
    line: u32,
    s: Store,
    w: World,
)
    requires
        e.kind == ast::KindV::MethodCall(Box::new(recv), "enumerate"@, args),
        s_flow(env, ev, cx, st, recv, f, i, line) is Ok,
        ({
            let (g, st1) = s_flow(env, ev, cx, st, recv, f, i, line)->Ok_0;
            &&& st1.locals.len() < usize::MAX
            &&& i < st1.locals.len()
            &&& st1.locals[i as int].ty == Ty::I64
            &&& forall|k: int| 0 <= k < g.vals.len() ==> (#[trigger] g.vals[k]) < st1.locals.len()
        }),
    ensures
        ({
            let g = s_flow(env, ev, cx, st, recv, f, i, line)->Ok_0.0;
            let after = s_flow(env, ev, cx, st, e, f, i, line);
            let h = after->Ok_0.0;
            let (t, ok) = past_stages(g, s, w);
            let (u, still) = past_stages(h, s, w);
            &&& after is Ok
            &&& still == ok
            &&& h.vals.len() == g.vals.len() + 1
            &&& ok ==> (u.vars)(h.vals[0]) == (t.vars)(i)
            &&& ok ==> forall|k: int| 0 <= k < g.vals.len() ==> (u.vars)(h.vals[k + 1]) == (t.vars)(#[trigger] g.vals[k])
        }),
{
    reveal_with_fuel(s_flow, 2);
    let (g, st1) = s_flow(env, ev, cx, st, recv, f, i, line)->Ok_0;
    let k = next_id(st1);
    let x = local_expr(st1, i, line);
    let h = s_flow(env, ev, cx, st, e, f, i, line)->Ok_0.0;
    assert(h.vals == seq![k] + g.vals);
    let (p, ok) = past_filters(g.guards, s, w);
    if ok {
        let t = run_all(g.stmts, p, w);
        run_push(g.stmts, StmtV::Let(k, x), p, w);
        bind_runs(k, x, t, w);
        assert(eval(x, t, w) == (t.vars)(i));
        let u = with_var(t, k, (t.vars)(i));
        assert forall|j: int| 0 <= j < g.vals.len() implies (u.vars)(h.vals[j + 1]) == (t.vars)(#[trigger] g.vals[j]) by {
            assert(h.vals[j + 1] == g.vals[j]);
        }
    }
}

} // verus!
