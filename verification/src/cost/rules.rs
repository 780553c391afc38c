//! The cost calculus: work and moves for every function, in one walk over the typed tree.
//!
//! Work approximates the instructions that will be emitted: what lives in a register is free,
//! every arithmetic, load, store and branch is one. Moves counts bytes crossing the cache
//! boundary in the I/O model: for each array access inside a loop nest, the number of distinct
//! cache lines it touches is computed level by level from the innermost loop outward, and a level
//! reuses lines only when the working set of the levels inside it is known to fit in `M`.
//!
//! A rule says what walking one node does to the state. It takes what walking the parts of the
//! node does as an argument, and [`knot`] ties the rules together.

use vstd::prelude::*;
use crate::ast::BinOp;
use crate::cost::affine::{f_add, f_const, f_scale};
use crate::cost::algebra::{p_add, p_rat, p_scale, p_sub, p_zero};
use crate::cost::bounds::{bounds_distinct, bounds_sorted, BoundV};
use crate::cost::costs::{c_add, c_add_poly, c_add_under, c_max, c_mul_poly, c_subst_many, c_sum_over, piece_mentions};
use crate::cost::declare::{all_broken, read_entries};
use crate::cost::footprint::footprint;
use crate::cost::forms::p_const;
use crate::cost::machine::{pieces_at, Machine};
use crate::cost::model::PolyV;
use crate::cost::piece::{c_poly, c_prune, p_dominates, zero_piece, CondV, PieceV};
use crate::cost::reading::{affine_of, numeric, rec_of, rec_sum_cost, size_of, times_of};
use crate::cost::recognise::{recognised, root_of};
use crate::cost::recur::recurrence;
use crate::cost::scope::{
    elem_bytes, local_of, touch_bytes, AliasV, CxV, ImageV, Known, LoopV, MemoV, ResV, SelfCallV, SiteV, WalkV,
};
use crate::cost::settle::site_moves;
use crate::cost::signature::{undeclared, DeclaredV, FootV, FuncCostV, ResultV};
use crate::cost::subst::{p_mentions, p_subst_many, with_all_new, with_new};
use crate::cost::table::{forgotten, known, nothing};
use crate::cost::trees::{least_fall, moves_bound, one_step};
use crate::ir::{BlockV, ExprV, FuncV, KindV, LValueV, ModuleV, StmtV};
use crate::irsize::{block_size, expr_size};
use crate::text::{decimal, int_text};
use crate::words::begins_with;

verus! {

/// Why a cost is unknown, and the line it comes from.
pub type FailV = (Seq<char>, u32);

/// The state after a walk, and why the walk stopped if it did.
pub type Out = (WalkV, Option<FailV>);

/// What walking the parts of a node does.
pub struct Ev {
    pub expr: spec_fn(WalkV, ExprV) -> Out,
    pub block: spec_fn(WalkV, BlockV) -> Out,
    pub func: spec_fn(MemoV, usize) -> (MemoV, FuncCostV),
}

pub open spec fn no_cost() -> Seq<PieceV> {
    seq![zero_piece()]
}

pub open spec fn done(w: WalkV) -> Out {
    (w, None)
}

pub open spec fn stopped(w: WalkV, reason: Seq<char>, line: u32) -> Out {
    (w, Some((reason, line)))
}

// ---- charges ----

/// Cost of the current point, charged once; the enclosing loops sum it when they are left.
pub open spec fn add_work(w: WalkV, p: PolyV) -> WalkV {
    if w.replay {
        w
    } else {
        WalkV { work: c_add_poly(w.work, p), ..w }
    }
}

pub open spec fn add_work_n(w: WalkV, n: int) -> WalkV {
    add_work(w, p_rat(n as real))
}

/// A sequential pass over `n` elements of `es` bytes, once per enclosing iteration.
pub open spec fn stream(w: WalkV, n: PolyV, es: int) -> WalkV {
    if w.replay {
        w
    } else {
        WalkV { moves: c_add_poly(w.moves, p_scale(n, es as real)), ..w }
    }
}

// ---- access sites ----

/// Two accesses to the same array at the same index inside the same loops.
pub open spec fn same_site(s: SiteV, o: SiteV) -> bool {
    s.arr == o.arr && s.stride == o.stride && s.path == o.path && s.branch == o.branch && s.aff is Some && s.aff
        == o.aff
}

/// Two accesses to the same array at the same index inside the same loops touch the same lines,
/// so they are one site, widened to cover the element where the fields differ.
pub open spec fn with_site(s: Seq<SiteV>, x: SiteV) -> Seq<SiteV>
    decreases s.len(),
{
    if s.len() == 0 {
        seq![x]
    } else if same_site(s[0], x) {
        seq![
            if s[0].field != x.field {
                SiteV { es: x.stride, ..s[0] }
            } else {
                s[0]
            },
        ] + s.drop_first()
    } else {
        seq![s[0]] + with_site(s.drop_first(), x)
    }
}

pub open spec fn loop_ids(s: Seq<LoopV>) -> Seq<usize> {
    Seq::new(s.len(), |i: int| s[i].id)
}

/// An access site recorded; its moves are settled with everyone else's at the end.
#[verifier::opaque]
pub open spec fn access(cx: CxV, w: WalkV, arr: usize, idx: ExprV, field: Option<usize>) -> WalkV {
    if w.replay {
        w
    } else {
        let x = SiteV {
            arr,
            aff: affine_of(w, idx),
            es: touch_bytes(cx, arr, field),
            stride: elem_bytes(cx, arr),
            field,
            path: loop_ids(w.loops),
            branch: w.branch,
        };
        WalkV { sites: with_site(w.sites, x), ..w }
    }
}

// ---- aliases ----

/// The local that an expression is, under a cast or not.
pub open spec fn scalar_read(e: ExprV) -> Option<usize> {
    match e.kind {
        KindV::Local(v) => Some(v),
        KindV::Cast(x, _) => match x.kind {
            KindV::Local(v) => Some(v),
            _ => None,
        },
        _ => None,
    }
}

/// The element that an expression reads.
pub open spec fn element_read(e: ExprV) -> Option<AliasV> {
    match e.kind {
        KindV::Index(arr, idx) => Some(AliasV { arr, idx: *idx, field: None }),
        KindV::Field(base, fi) => match base.kind {
            KindV::Index(arr, idx) => Some(AliasV { arr, idx: *idx, field: Some(fi) }),
            _ => None,
        },
        _ => None,
    }
}

pub open spec fn paired(v: Option<usize>, a: Option<AliasV>) -> Option<(usize, AliasV)> {
    match (v, a) {
        (Some(x), Some(y)) => Some((x, y)),
        _ => None,
    }
}

/// A scalar that a statement stores into, or loads from, an array element.
pub open spec fn stmt_alias(s: StmtV) -> Option<(usize, AliasV)> {
    match s {
        StmtV::Assign(lv, op, e) => match lv {
            LValueV::Index(arr, idx, _) => paired(scalar_read(e), Some(AliasV { arr, idx, field: None })),
            LValueV::IndexField(arr, idx, fi, _) => paired(
                scalar_read(e),
                Some(AliasV { arr, idx, field: Some(fi) }),
            ),
            LValueV::Var(v) => if op is None {
                paired(Some(v), element_read(e))
            } else {
                None
            },
            _ => None,
        },
        StmtV::Let(v, e) => paired(Some(v), element_read(e)),
        _ => None,
    }
}

/// The aliases while a block is scanned: those opened, and the scalars that stand for more than
/// one element.
pub struct ScanV {
    pub aliases: Known<AliasV>,
    pub opened: Seq<usize>,
    pub torn: Seq<usize>,
}

pub open spec fn without(s: Seq<usize>, v: usize) -> Seq<usize>
    decreases s.len(),
{
    if s.len() == 0 {
        s
    } else if s.last() == v {
        without(s.drop_last(), v)
    } else {
        without(s.drop_last(), v).push(s.last())
    }
}

pub open spec fn same_element(w: WalkV, a: AliasV, b: AliasV) -> bool {
    a.arr == b.arr && a.field == b.field && affine_of(w, a.idx) is Some && affine_of(w, a.idx) == affine_of(w, b.idx)
}

pub open spec fn scan_alias(cx: CxV, w: WalkV, t: ScanV, v: usize, a: AliasV) -> ScanV {
    if !local_of(cx.f, v).ty.scalar() || t.torn.contains(v) {
        t
    } else {
        match (t.aliases)(v) {
            Some(old) => if same_element(w, old, a) {
                t
            } else {
                ScanV { aliases: forgotten(t.aliases, v), torn: t.torn.push(v), opened: without(t.opened, v) }
            },
            None => ScanV { aliases: known(t.aliases, v, a), opened: t.opened.push(v), ..t },
        }
    }
}

/// The aliases of the first `n` statements of a block.
pub open spec fn scan_block(cx: CxV, w: WalkV, s: Seq<StmtV>, n: nat) -> ScanV
    decreases n,
{
    if n == 0 {
        ScanV { aliases: w.aliases, opened: Seq::empty(), torn: Seq::empty() }
    } else {
        let t = scan_block(cx, w, s, (n - 1) as nat);
        match stmt_alias(s[n - 1]) {
            Some((v, a)) => scan_alias(cx, w, t, v, a),
            None => t,
        }
    }
}

pub open spec fn forget_all(t: Known<AliasV>, s: Seq<usize>, n: nat) -> Known<AliasV>
    decreases n,
{
    if n == 0 {
        t
    } else {
        forgotten(forget_all(t, s, (n - 1) as nat), s[n - 1])
    }
}

// ---- blocks ----

/// The first `n` statements in turn.
pub open spec fn stmts_walk(cx: CxV, ev: Ev, w: WalkV, s: Seq<StmtV>, n: nat) -> Out
    decreases n,
{
    if n == 0 {
        done(w)
    } else {
        let o = stmts_walk(cx, ev, w, s, (n - 1) as nat);
        if o.1 is Some {
            o
        } else {
            r_stmt(cx, ev, o.0, s[n - 1])
        }
    }
}

/// A block: the scalars that stand for array elements are found before it is walked, and
/// forgotten after.
#[verifier::opaque]
pub open spec fn r_block(cx: CxV, ev: Ev, w: WalkV, b: BlockV) -> Out {
    let t = scan_block(cx, w, b.stmts, b.stmts.len());
    let o = stmts_walk(cx, ev, WalkV { aliases: t.aliases, ..w }, b.stmts, b.stmts.len());
    let p = if o.1 is Some {
        o
    } else {
        match b.tail {
            Some(e) => (ev.expr)(o.0, *e),
            None => o,
        }
    };
    (WalkV { aliases: forget_all(p.0.aliases, t.opened, t.opened.len()), ..p.0 }, p.1)
}

// ---- loops ----

/// The state at the start of a loop's body: the loop open, and nothing charged yet.
pub open spec fn entered(w: WalkV, lp: LoopV) -> WalkV {
    WalkV {
        recs: w.recs.push(rec_of(lp)),
        loops: w.loops.push(LoopV { id: w.recs.len() as usize, ..lp }),
        work: no_cost(),
        moves: no_cost(),
        calls: no_cost(),
        called: false,
        ..w
    }
}

/// The state at the start of the second walk of a loop's body.
pub open spec fn entered_again(w: WalkV, lp: LoopV) -> WalkV {
    WalkV {
        loops: w.loops.push(lp),
        work: no_cost(),
        moves: no_cost(),
        calls: no_cost(),
        called: false,
        replay: true,
        ..w
    }
}

/// The cost of a body's calls in the iterations after the first.
pub open spec fn rest_calls(lp: LoopV, c: Seq<PieceV>) -> Seq<PieceV> {
    let lo = p_add(lp.lo, p_rat(lp.step as real));
    let trip = p_sub(lp.trip, p_rat(1real));
    match lp.atom {
        Some(a) => c_sum_over(c, a as int, lo, lp.step, trip),
        None => c_mul_poly(c, trip),
    }
}

/// The second walk of a loop's body, and what its calls cost: only that is kept of the charges.
#[verifier::opaque]
pub open spec fn replayed(ev: Ev, w: WalkV, lp: LoopV, body: BlockV) -> (Out, Seq<PieceV>) {
    let o = (ev.block)(entered_again(w, lp), body);
    if o.1 is Some {
        (o, no_cost())
    } else {
        (
            done(
                WalkV {
                    loops: w.loops,
                    work: w.work,
                    moves: w.moves,
                    calls: w.calls,
                    called: w.called,
                    replay: w.replay,
                    ..o.0
                },
            ),
            o.0.calls,
        )
    }
}

/// A loop is left: `w` is the state before it and `o` the state at the end of its body. The
/// body's cost is summed over the loop variable. Calls in the body are costed twice: as walked
/// (cold, the first iteration) and again with the residue the first iteration left (the
/// iterations after it), so a call that re-reads what the last one left in cache pays once.
#[verifier::opaque]
pub open spec fn left(cx: CxV, ev: Ev, w: WalkV, lp: LoopV, o: WalkV, body: BlockV) -> Out {
    let r = rec_of(lp);
    let out = WalkV {
        loops: w.loops,
        work: c_add(w.work, rec_sum_cost(r, o.work)),
        moves: c_add(w.moves, rec_sum_cost(r, o.moves)),
        calls: w.calls,
        called: w.called,
        ..o
    };
    if !o.called {
        done(out)
    } else {
        let first = match lp.atom {
            Some(a) => c_subst_many(o.calls, seq![(a, lp.lo)]),
            None => o.calls,
        };
        let once = match numeric(cx.k, lp.trip) {
            Some(t) => t <= 1real,
            None => false,
        };
        if once {
            done(WalkV { calls: c_add(c_add(out.calls, first), no_cost()), called: true, ..out })
        } else {
            let again = replayed(ev, out, lp, body);
            if again.0.1 is Some {
                again.0
            } else {
                done(
                    WalkV {
                        calls: c_add(c_add(again.0.0.calls, first), rest_calls(lp, again.1)),
                        called: true,
                        ..again.0.0
                    },
                )
            }
        }
    }
}

/// A loop whose body costs `n` per iteration besides what it holds.
#[verifier::opaque]
pub open spec fn r_loop(cx: CxV, ev: Ev, w: WalkV, lp: LoopV, n: int, body: BlockV) -> Out {
    let o = (ev.block)(add_work_n(entered(w, lp), n), body);
    if o.1 is Some {
        o
    } else {
        left(cx, ev, w, LoopV { id: w.recs.len() as usize, ..lp }, o.0, body)
    }
}

/// A size atom for a loop variable.
pub open spec fn named(w: WalkV, name: Seq<char>) -> WalkV {
    WalkV { names: w.names.push(name), ..w }
}

// ---- statements ----

/// The array that a binding views.
pub open spec fn view_source(e: ExprV) -> Option<usize> {
    match e.kind {
        KindV::Ref(s, _) => Some(s),
        KindV::Local(s) => Some(s),
        _ => None,
    }
}

pub open spec fn as_values(p: Option<PolyV>) -> Option<Seq<PolyV>> {
    match p {
        Some(x) => Some(seq![x]),
        None => None,
    }
}

/// What is known once a local is bound to an expression.
#[verifier::opaque]
pub open spec fn bound_to(cx: CxV, w: WalkV, id: usize, e: ExprV) -> WalkV {
    let l = local_of(cx.f, id);
    if l.ty.arrayish() {
        match view_source(e) {
            Some(s) => WalkV {
                sizes: match (w.sizes)(s) {
                    Some(n) => known(w.sizes, id, n),
                    None => w.sizes,
                },
                roots: known(w.roots, id, root_of(w.roots, s)),
                ..w
            },
            None => w,
        }
    } else if l.ty is I64 && !l.mutable {
        match affine_of(w, e) {
            Some(a) => WalkV { affines: known(w.affines, id, a), ..w },
            None => w,
        }
    } else if l.ty is I64 {
        WalkV { initial: known(w.initial, id, as_values(size_of(cx.f, w, e, true, false))), ..w }
    } else {
        w
    }
}

#[verifier::opaque]
pub open spec fn r_let(cx: CxV, ev: Ev, w: WalkV, s: StmtV, id: usize, e: ExprV) -> Out {
    let o = (ev.expr)(recognised(cx, w, s), e);
    if o.1 is Some {
        o
    } else {
        done(bound_to(cx, o.0, id, e))
    }
}

pub open spec fn no_length(cx: CxV, id: usize) -> Seq<char> {
    "the length of `"@ + local_of(cx.f, id).name + "` is not a size expression"@
}

/// A new array of `n` elements is written once.
pub open spec fn made(cx: CxV, w: WalkV, id: usize, n: PolyV) -> WalkV {
    let v = stream(w, n, elem_bytes(cx, id));
    WalkV { sizes: known(v.sizes, id, n), roots: known(v.roots, id, id), ..v }
}

#[verifier::opaque]
pub open spec fn r_build(cx: CxV, ev: Ev, w: WalkV, id: usize, len: ExprV, var: usize, body: BlockV) -> Out {
    let o = (ev.expr)(w, len);
    if o.1 is Some {
        o
    } else {
        match size_of(cx.f, o.0, len, true, false) {
            None => stopped(o.0, no_length(cx, id), len.line),
            Some(n) => {
                let v = made(cx, o.0, id, n);
                let lp = LoopV {
                    id: 0,
                    var: Some(var),
                    atom: Some(v.names.len() as usize),
                    trip: n,
                    lo: p_zero(),
                    step: 1,
                    offset: Some(f_const(p_zero())),
                };
                // store, increment, compare-and-branch
                r_loop(cx, ev, named(v, local_of(cx.f, var).name), lp, 3, body)
            },
        }
    }
}

#[verifier::opaque]
pub open spec fn r_repeat(cx: CxV, ev: Ev, w: WalkV, id: usize, e: ExprV, n: ExprV) -> Out {
    let o = (ev.expr)(w, e);
    if o.1 is Some {
        o
    } else {
        let p = (ev.expr)(o.0, n);
        if p.1 is Some {
            p
        } else {
            match size_of(cx.f, p.0, n, true, false) {
                None => stopped(p.0, no_length(cx, id), n.line),
                Some(size) => done(made(cx, add_work(p.0, size), id, size)),
            }
        }
    }
}

/// The first `n` expressions in turn.
pub open spec fn exprs_walk(ev: Ev, w: WalkV, s: Seq<ExprV>, n: nat) -> Out
    decreases n,
{
    if n == 0 {
        done(w)
    } else {
        let o = exprs_walk(ev, w, s, (n - 1) as nat);
        if o.1 is Some {
            o
        } else {
            (ev.expr)(o.0, s[n - 1])
        }
    }
}

#[verifier::opaque]
pub open spec fn r_array(cx: CxV, ev: Ev, w: WalkV, id: usize, elems: Seq<ExprV>) -> Out {
    let o = exprs_walk(ev, w, elems, elems.len());
    if o.1 is Some {
        o
    } else {
        let k = p_rat(elems.len() as real);
        done(made(cx, add_work(o.0, k), id, k))
    }
}

/// A store, and for `op=` a load and the operation as well.
pub open spec fn store(cx: CxV, ev: Ev, w: WalkV, arr: usize, idx: ExprV, field: Option<usize>, op: Option<BinOp>) -> Out {
    let o = (ev.expr)(w, idx);
    if o.1 is Some {
        o
    } else {
        done(access(cx, add_work_n(o.0, if op is Some { 3 } else { 1 }), arr, idx, field))
    }
}

/// The value a local is known by once it is assigned: inside a loop the value at the loop's next
/// iteration is not this one.
pub open spec fn reassigned(cx: CxV, w: WalkV, v: usize, op: Option<BinOp>, e: ExprV) -> WalkV {
    if local_of(cx.f, v).ty is I64 {
        let val = if op is None && w.loops.len() == 0 {
            as_values(size_of(cx.f, w, e, true, false))
        } else {
            None
        };
        WalkV { initial: known(w.initial, v, val), ..w }
    } else {
        w
    }
}

#[verifier::opaque]
pub open spec fn r_assign(cx: CxV, ev: Ev, w: WalkV, s: StmtV, lv: LValueV, op: Option<BinOp>, e: ExprV) -> Out {
    let o = (ev.expr)(recognised(cx, w, s), e);
    // in a register only the operation of `op=` costs
    let register: int = if op is Some {
        1
    } else {
        0
    };
    if o.1 is Some {
        o
    } else {
        match lv {
            LValueV::Var(v) => done(add_work_n(reassigned(cx, o.0, v, op, e), register)),
            LValueV::Index(arr, idx, _) => store(cx, ev, o.0, arr, idx, None, op),
            LValueV::Field(_, _) => done(add_work_n(o.0, register)),
            LValueV::IndexField(arr, idx, fi, _) => store(cx, ev, o.0, arr, idx, Some(fi), op),
        }
    }
}

/// The trip count of `start..end`: exact when the outer loop variables cancel between the two
/// bounds (`ii*T .. ii*T+T` is `T`); otherwise the rectangular hull. One below zero is zero.
pub open spec fn for_trip(w: WalkV, start: ExprV, end: ExprV, lo: PolyV, hi: PolyV) -> PolyV {
    let trip = match (affine_of(w, start), affine_of(w, end)) {
        (Some(l), Some(h)) => {
            let d = f_add(h, f_scale(l, p_rat(-1real)));
            if d.coeffs.len() == 0 {
                d.konst
            } else {
                p_sub(hi, lo)
            }
        },
        _ => p_sub(hi, lo),
    };
    match p_const(trip) {
        Some(c) => if c < 0real {
            p_zero()
        } else {
            trip
        },
        None => trip,
    }
}

#[verifier::opaque]
pub open spec fn r_for(cx: CxV, ev: Ev, w: WalkV, var: usize, start: ExprV, end: ExprV, body: BlockV) -> Out {
    let o = (ev.expr)(w, start);
    if o.1 is Some {
        o
    } else {
        let p = (ev.expr)(o.0, end);
        if p.1 is Some {
            p
        } else {
            let v = p.0;
            match (size_of(cx.f, v, start, false, false), size_of(cx.f, v, end, true, false)) {
                (Some(lo), Some(hi)) => {
                    let lp = LoopV {
                        id: 0,
                        var: Some(var),
                        atom: Some(v.names.len() as usize),
                        trip: for_trip(v, start, end, lo, hi),
                        lo,
                        step: 1,
                        offset: affine_of(v, start),
                    };
                    // increment, compare-and-branch, per iteration
                    r_loop(cx, ev, named(v, local_of(cx.f, var).name), lp, 2, body)
                },
                _ => stopped(
                    v,
                    "loop bound is not a size expression"@,
                    if start.line < end.line {
                        end.line
                    } else {
                        start.line
                    },
                ),
            }
        }
    }
}

// ---- `while` ----

pub open spec fn ask() -> Seq<char> {
    "`while` has no measure the compiler can find; write `while cond decreasing <expr>` with an `i64` that goes down by at least one every iteration"@
}

/// A condition as a variable, its bound, and whether the variable goes up.
pub open spec fn compared(cond: ExprV) -> Option<(usize, ExprV, bool)> {
    match cond.kind {
        KindV::Binary(op, l, r) => {
            let up = op == BinOp::Lt || op == BinOp::Le || op == BinOp::Ne;
            let down = op == BinOp::Gt || op == BinOp::Ge;
            match (l.kind, r.kind) {
                (KindV::Local(a), KindV::Local(b)) => if up {
                    Some((a, *r, true))
                } else if down {
                    Some((b, *l, true))
                } else {
                    None
                },
                (KindV::Local(a), _) => if up {
                    Some((a, *r, true))
                } else if down {
                    Some((a, *r, false))
                } else {
                    None
                },
                (_, KindV::Local(b)) => if down {
                    Some((b, *l, true))
                } else if op == BinOp::Lt || op == BinOp::Le {
                    Some((b, *l, false))
                } else {
                    None
                },
                _ => None,
            }
        },
        _ => None,
    }
}

/// The local is one that the body steps by a constant.
pub open spec fn stepped(f: FuncV, l: usize, body: BlockV) -> bool {
    local_of(f, l).mutable && local_of(f, l).ty is I64 && one_step(body, l) is Some
}

/// A condition on two locals read from the other side: `i > e` as `i` that goes down to `e`.
pub open spec fn mirrored(cond: ExprV) -> Option<(usize, ExprV, bool)> {
    match cond.kind {
        KindV::Binary(op, l, r) => match (l.kind, r.kind) {
            (KindV::Local(a), KindV::Local(b)) => if op == BinOp::Gt || op == BinOp::Ge {
                Some((a, *r, false))
            } else if op == BinOp::Lt || op == BinOp::Le {
                Some((b, *l, false))
            } else {
                None
            },
            _ => None,
        },
        _ => None,
    }
}

/// Where both sides of a condition are locals, the variable is the one that the body steps.
pub open spec fn variable_of(f: FuncV, cond: ExprV, body: BlockV) -> Option<(usize, ExprV, bool)> {
    match (compared(cond), mirrored(cond)) {
        (Some(a), Some(b)) => if !stepped(f, a.0, body) && stepped(f, b.0, body) {
            Some(b)
        } else {
            Some(a)
        },
        (x, _) => x,
    }
}

/// An induction variable: the trip count, and the variable with its entry value and step.
pub struct InductionV {
    pub trip: PolyV,
    pub var: usize,
    pub from: PolyV,
    pub step: int,
}

/// `while i < e { … i += c … }` runs at most `(e − i₀)/c` times when `i` is a mutable local
/// stepped by the constant `c` exactly once in the body and nowhere else, `e` is a size
/// expression, and `i₀` — the last assignment to `i` before the loop — is one too.
/// `i > e` with `i -= c` is the mirror. Anything else is not an induction variable.
#[verifier::opaque]
pub open spec fn induction(cx: CxV, w: WalkV, cond: ExprV, body: BlockV) -> Result<InductionV, Seq<char>> {
    match variable_of(cx.f, cond, body) {
        None => Err(ask()),
        Some((var, bound, up)) => {
            let l = local_of(cx.f, var);
            let name = l.name;
            if !l.mutable || !(l.ty is I64) {
                Err(ask())
            } else {
                match one_step(body, var) {
                    None => Err(
                        "`"@ + name
                            + "` is compared in the `while` condition but is not stepped by a constant exactly once in the body; "@
                            + ask(),
                    ),
                    Some(step) => if (up && step <= 0) || (!up && step >= 0) {
                        Err("`"@ + name + "` steps away from its bound; "@ + ask())
                    } else if moves_bound(body, var, bound) {
                        Err("the bound of `"@ + name + "` is assigned inside the body; "@ + ask())
                    } else {
                        match size_of(cx.f, w, bound, up, false) {
                            None => Err("the bound of `"@ + name + "` is not a size expression; "@ + ask()),
                            Some(e) => from_entry(w, name, var, e, up, step),
                        }
                    },
                }
            }
        },
    }
}

pub open spec fn from_entry(w: WalkV, name: Seq<char>, var: usize, e: PolyV, up: bool, step: int) -> Result<
    InductionV,
    Seq<char>,
> {
    match (w.initial)(var) {
        Some(Some(vs)) => if vs.len() == 1 {
            let span = if up {
                p_sub(e, vs[0])
            } else {
                p_sub(vs[0], e)
            };
            let size: int = if step < 0 {
                -step
            } else {
                step
            };
            Ok(InductionV { trip: p_scale(span, 1real / (size as real)), var, from: vs[0], step })
        } else {
            Err(
                "`"@ + name + "` may hold any of "@ + decimal(vs.len())
                    + " values on entry, one per path that defines it; a single value is needed until `max` is in the cost algebra"@,
            )
        },
        _ => Err("`"@ + name + "` is assigned inside a loop before this one, so its entry value is not known"@),
    }
}

pub open spec fn fall_text(d: int) -> Seq<char> {
    if d == 0 {
        "0"@
    } else if d < 0 {
        "+"@ + int_text(-d)
    } else {
        "−"@ + int_text(d)
    }
}

/// The programmer's measure: its value at entry, where mutable locals read as what they were
/// last assigned. The promise is checked: along every path through the body that comes back to
/// the condition, the measure must go down by at least one.
#[verifier::opaque]
pub open spec fn measured(cx: CxV, w: WalkV, cond: ExprV, m: ExprV, body: BlockV) -> Result<PolyV, Seq<char>> {
    match size_of(cx.f, w, m, true, true) {
        None => Err(
            "the `decreasing` measure is not a size expression — it reads memory or a value the compiler cannot follow — so this loop has no static bound; `neant measure` can fit one"@,
        ),
        Some(v) => match least_fall(m, cond, body) {
            Some(d) => if d >= 1 {
                Ok(v)
            } else {
                Err(
                    "the `decreasing` measure is not shown to decrease: there is a path through the body along which it changes by "@
                        + fall_text(d),
                )
            },
            None => Err(
                "the `decreasing` measure is not shown to decrease: the body changes one of its variables in a way the compiler cannot follow"@,
            ),
        },
    }
}

#[verifier::opaque]
pub open spec fn r_while(cx: CxV, ev: Ev, w: WalkV, cond: ExprV, decreasing: Option<ExprV>, body: BlockV, line: u32) -> Out {
    let o = (ev.expr)(w, cond);
    if o.1 is Some {
        o
    } else {
        match decreasing {
            Some(m) => {
                let p = (ev.expr)(o.0, m);
                if p.1 is Some {
                    p
                } else {
                    match measured(cx, p.0, cond, m, body) {
                        Err(e) => stopped(p.0, e, m.line),
                        Ok(trip) => {
                            let lp = LoopV { id: 0, var: None, atom: None, trip, lo: p_zero(), step: 1, offset: None };
                            r_loop(cx, ev, p.0, lp, 1, body)
                        },
                    }
                }
            },
            None => match induction(cx, o.0, cond, body) {
                Err(e) => stopped(o.0, e, line),
                Ok(i) => {
                    let lp = LoopV {
                        id: 0,
                        var: Some(i.var),
                        atom: Some(o.0.names.len() as usize),
                        trip: i.trip,
                        lo: i.from,
                        step: i.step,
                        offset: Some(f_const(i.from)),
                    };
                    r_loop(cx, ev, named(o.0, local_of(cx.f, i.var).name), lp, 1, body)
                },
            },
        }
    }
}

#[verifier::opaque]
pub open spec fn r_stmt(cx: CxV, ev: Ev, w: WalkV, s: StmtV) -> Out {
    match s {
        StmtV::Let(id, e) => r_let(cx, ev, w, s, id, e),
        StmtV::LetBuild { id, len, var, body } => r_build(cx, ev, w, id, len, var, body),
        StmtV::LetRepeat(id, e, n) => r_repeat(cx, ev, w, id, e, n),
        StmtV::LetArray(id, elems) => r_array(cx, ev, w, id, elems),
        StmtV::Assign(lv, op, e) => r_assign(cx, ev, w, s, lv, op, e),
        StmtV::For { var, start, end, body } => r_for(cx, ev, w, var, start, end, body),
        StmtV::Break => done(w),
        StmtV::While { cond, decreasing, body, line } => r_while(cx, ev, w, cond, decreasing, body, line),
        StmtV::Expr(e) => (ev.expr)(recognised(cx, w, s), e),
        StmtV::Return(e) => match e {
            Some(x) => (ev.expr)(w, x),
            None => done(w),
        },
    }
}

// ---- expressions ----

/// Two operands, then `n` of work.
pub open spec fn two_parts(ev: Ev, w: WalkV, a: ExprV, b: ExprV, n: int) -> Out {
    let o = (ev.expr)(w, a);
    if o.1 is Some {
        o
    } else {
        let p = (ev.expr)(o.0, b);
        if p.1 is Some {
            p
        } else {
            done(add_work_n(p.0, n))
        }
    }
}

pub open spec fn one_part(ev: Ev, w: WalkV, a: ExprV) -> Out {
    let o = (ev.expr)(w, a);
    if o.1 is Some {
        o
    } else {
        done(add_work_n(o.0, 1))
    }
}

pub open spec fn load(cx: CxV, ev: Ev, w: WalkV, arr: usize, idx: ExprV, field: Option<usize>) -> Out {
    let o = one_part(ev, w, idx);
    if o.1 is Some {
        o
    } else {
        done(access(cx, o.0, arr, idx, field))
    }
}

// ---- `if` ----

/// The ids of `if`s come round after the largest.
pub open spec fn next_id(id: usize) -> usize {
    if id == usize::MAX {
        0
    } else {
        (id + 1) as usize
    }
}

/// The state at the start of a branch.
pub open spec fn branched(w: WalkV, id: usize, yes: bool) -> WalkV {
    WalkV {
        branch: w.branch.push((id, yes)),
        work: no_cost(),
        moves: no_cost(),
        calls: no_cost(),
        called: false,
        ..w
    }
}

/// The state after a branch: its calls count once; its work and moves are for the caller.
pub open spec fn rejoined(w: WalkV, o: WalkV) -> WalkV {
    WalkV {
        branch: w.branch,
        work: w.work,
        moves: w.moves,
        calls: c_add(w.calls, o.calls),
        called: w.called || o.called,
        ..o
    }
}

/// A local defined differently on the two sides may hold either value after.
pub open spec fn merged(t: Known<Option<Seq<PolyV>>>, e: Known<Option<Seq<PolyV>>>) -> Known<Option<Seq<PolyV>>> {
    |l: usize|
        match t(l) {
            Some(tv) => Some(
                match (tv, e(l)) {
                    (Some(a), Some(Some(b))) => Some(with_all_new(a, b)),
                    _ => None,
                },
            ),
            None => e(l),
        }
}

/// One side of an `if`, and what its work and moves are.
#[verifier::opaque]
pub open spec fn side(ev: Ev, w: WalkV, id: usize, yes: bool, b: Option<BlockV>) -> (Out, Seq<PieceV>, Seq<PieceV>) {
    let start = branched(w, id, yes);
    let o = match b {
        Some(x) => (ev.block)(start, x),
        None => done(start),
    };
    if o.1 is Some {
        (o, no_cost(), no_cost())
    } else {
        (done(rejoined(w, o.0)), o.0.work, o.0.moves)
    }
}

/// The self-calls of the path with more of them: those from the `n`-th on are of the one or the
/// other side.
pub open spec fn more_calls(yes: Seq<SelfCallV>, no: Seq<SelfCallV>, n: nat) -> Seq<SelfCallV> {
    if yes.len() > no.len() - n {
        no.take(n as int) + yes
    } else {
        no
    }
}

/// The two branches are alternatives: the cost is the larger, not the sum. Recursive call sites
/// are counted along the path with more of them only, or a binary search would read as two calls
/// per level and come out linear.
#[verifier::opaque]
pub open spec fn r_if(cx: CxV, ev: Ev, w0: WalkV, c: ExprV, t: BlockV, els: Option<BlockV>) -> Out {
    let o = one_part(ev, w0, c);
    if o.1 is Some {
        o
    } else {
        let id = o.0.next_if;
        let w = WalkV { next_if: next_id(id), ..o.0 };
        let n = w.self_calls.len();
        let (yes, yes_work, yes_moves) = side(ev, w, id, true, Some(t));
        if yes.1 is Some {
            yes
        } else {
            let between = WalkV { self_calls: yes.0.self_calls.take(n as int), initial: w.initial, ..yes.0 };
            let (no, no_work, no_moves) = side(ev, between, id, false, els);
            if no.1 is Some {
                no
            } else {
                done(
                    WalkV {
                        work: c_add(no.0.work, c_max(yes_work, no_work)),
                        moves: c_add(no.0.moves, c_max(yes_moves, no_moves)),
                        initial: merged(yes.0.initial, no.0.initial),
                        self_calls: more_calls(yes.0.self_calls.skip(n as int), no.0.self_calls, n),
                        ..no.0
                    },
                )
            }
        }
    }
}

// ---- calls ----

/// The size that an argument hands to a parameter, and the array it views.
pub open spec fn argument(cx: CxV, w: WalkV, callee: FuncV, i: int, a: ExprV) -> (Option<PolyV>, Option<usize>) {
    if local_of(callee, callee.params[i]).ty.arrayish() {
        match view_source(a) {
            Some(s) => ((w.sizes)(s), Some(root_of(w.roots, s))),
            None => (None, None),
        }
    } else {
        (size_of(cx.f, w, a, true, false), None)
    }
}

pub open spec fn shared(args: Seq<ExprV>, callee: FuncV) -> nat {
    if args.len() < callee.params.len() {
        args.len()
    } else {
        callee.params.len()
    }
}

/// The function calls itself: the call's argument sizes and how often it runs are remembered for
/// the recurrence.
#[verifier::opaque]
pub open spec fn called_self(cx: CxV, w: WalkV, callee: FuncV, args: Seq<ExprV>, line: u32) -> WalkV {
    if w.replay {
        w
    } else {
        let x = SelfCallV {
            args: Seq::new(shared(args, callee), |i: int| argument(cx, w, callee, i, args[i]).0),
            times: times_of(w.loops),
            line,
        };
        WalkV { self_calls: w.self_calls.push(x), ..w }
    }
}

/// A declared callee is seen through its declaration only: its bounds, no footprint and no
/// residue — what a caller could know without the body.
pub open spec fn declared_only(c: FuncCostV) -> bool {
    c.declared.work is Some && c.declared.moves is Some
}

pub open spec fn calls_unknown(name: Seq<char>, reason: Seq<char>) -> Seq<char> {
    if begins_with(reason, "calls `"@) {
        reason
    } else {
        "calls `"@ + name + "`, whose cost is unknown ("@ + reason + ")"@
    }
}

/// The callee's work and moves over its own parameters.
pub open spec fn callee_cost(c: FuncCostV) -> Result<(Seq<PieceV>, Seq<PieceV>), Seq<char>> {
    if declared_only(c) {
        Ok((c_poly(c.declared.work->0), c_poly(c.declared.moves->0)))
    } else {
        match c.result {
            ResultV::Exact { work, moves } => Ok((work, moves)),
            ResultV::Unknown { reason, line } => Err(calls_unknown(c.name, reason)),
        }
    }
}

/// A declared callee is an assumption that the caller now rests on, and so is what the callee
/// rests on.
pub open spec fn rests(s: Seq<Seq<char>>, c: FuncCostV, callee: FuncV) -> Seq<Seq<char>> {
    let how = if callee.body is None {
        "declared, extern"@
    } else {
        "declared, checked"@
    };
    let own = if declared_only(c) {
        with_new(s, c.name + " ("@ + how + ")"@)
    } else {
        s
    };
    with_all_new(own, c.rests_on)
}

pub open spec fn cost_mentions(s: Seq<PieceV>, i: int) -> bool {
    exists|j: int| 0 <= j < s.len() && piece_mentions(#[trigger] s[j], i)
}

pub open spec fn feet_mention(s: Seq<FootV>, i: int) -> bool {
    exists|j: int|
        0 <= j < s.len() && ((#[trigger] s[j]).param == i || p_mentions(s[j].lo, i) || p_mentions(s[j].hi, i))
}

pub struct ArgsV {
    pub map: Seq<(usize, PolyV)>,
    pub roots: Seq<Option<usize>>,
}

/// The sizes that the first `n` arguments hand over; one that is not a size stops the walk where
/// the callee's cost depends on it.
pub open spec fn arguments(
    cx: CxV,
    w: WalkV,
    c: FuncCostV,
    cost: (Seq<PieceV>, Seq<PieceV>),
    callee: FuncV,
    args: Seq<ExprV>,
    n: nat,
) -> Result<ArgsV, FailV>
    decreases n,
{
    if n == 0 {
        Ok(ArgsV { map: Seq::empty(), roots: Seq::empty() })
    } else {
        match arguments(cx, w, c, cost, callee, args, (n - 1) as nat) {
            Err(e) => Err(e),
            Ok(before) => {
                let i = n - 1;
                let (by, root) = argument(cx, w, callee, i, args[i]);
                match by {
                    Some(b) => Ok(
                        ArgsV { map: before.map.push((i as usize, b)), roots: before.roots.push(root) },
                    ),
                    None => if cost_mentions(cost.0, i) || cost_mentions(cost.1, i) || feet_mention(c.footprint, i) {
                        Err(
                            (
                                "argument "@ + decimal(n) + " to `"@ + c.name + "` is not a size expression, and `"@
                                    + c.name + "`'s cost depends on it"@,
                                args[i].line,
                            ),
                        )
                    } else {
                        Ok(ArgsV { roots: before.roots.push(root), ..before })
                    },
                }
            },
        }
    }
}

/// A range of one of the caller's arrays that the callee touches.
pub struct TouchV {
    pub root: usize,
    pub lo: PolyV,
    pub hi: PolyV,
    pub exact: bool,
}

/// The callee's footprint, the first `n` ranges of it, in the caller's arrays.
pub open spec fn touched(s: Seq<FootV>, a: ArgsV, n: nat) -> Seq<TouchV>
    decreases n,
{
    if n == 0 {
        Seq::empty()
    } else {
        let before = touched(s, a, (n - 1) as nat);
        let f = s[n - 1];
        if f.param < a.roots.len() && a.roots[f.param as int] is Some {
            before.push(
                TouchV {
                    root: a.roots[f.param as int]->0,
                    lo: p_subst_many(f.lo, a.map),
                    hi: p_subst_many(f.hi, a.map),
                    exact: f.exact,
                },
            )
        } else {
            before
        }
    }
}

/// What of a range is resident: the range within the resident one, or the reverse.
pub open spec fn overlap(t: TouchV, r: ResV) -> Option<PolyV> {
    if r.root != t.root {
        None
    } else if p_dominates(t.lo, r.lo) && p_dominates(r.hi, t.hi) {
        Some(p_sub(t.hi, t.lo))
    } else if p_dominates(r.lo, t.lo) && p_dominates(t.hi, r.hi) {
        Some(p_sub(r.hi, r.lo))
    } else {
        None
    }
}

/// The moves with one range credited against the first `n` resident ones.
pub open spec fn credit_one(s: Seq<PieceV>, t: TouchV, res: Seq<ResV>, n: nat) -> Seq<PieceV>
    decreases n,
{
    if n == 0 {
        s
    } else {
        let before = credit_one(s, t, res, (n - 1) as nat);
        match overlap(t, res[n - 1]) {
            Some(p) => c_add_under(before, res[n - 1].conds, p_scale(p, -1real)),
            None => before,
        }
    }
}

/// What the callee reads that is already resident pays nothing: the first `n` ranges credited.
pub open spec fn credited(s: Seq<PieceV>, ts: Seq<TouchV>, res: Seq<ResV>, n: nat) -> Seq<PieceV>
    decreases n,
{
    if n == 0 {
        s
    } else {
        let before = credited(s, ts, res, (n - 1) as nat);
        if ts[n - 1].exact {
            credit_one(before, ts[n - 1], res, res.len())
        } else {
            before
        }
    }
}

/// Every array handed over is one that the caller itself received.
pub open spec fn all_received(cx: CxV, w: WalkV, args: Seq<ExprV>) -> bool {
    forall|i: int|
        0 <= i < args.len() ==> match view_source(#[trigger] args[i]) {
            Some(s) => local_of(cx.f, s).ty.arrayish() ==> cx.f.params.contains(root_of(w.roots, s)),
            None => true,
        }
}

/// The callee's bounds, the first `n` of them, over the caller's sizes. A bound on a part is a
/// bound on the whole, once: repeated calls are not multiplied, since a bound on any schedule of
/// the part says nothing about what the repetitions may share. A cold-start bound travels only
/// for arrays the caller itself received, which were in slow memory when the caller started.
pub open spec fn bounds_carried(s: Seq<BoundV>, map: Seq<(usize, PolyV)>, received: bool, n: nat) -> Seq<BoundV>
    decreases n,
{
    if n == 0 {
        Seq::empty()
    } else {
        let before = bounds_carried(s, map, received, (n - 1) as nat);
        if s[n - 1].cold && !received {
            before
        } else {
            before.push(BoundV { moves: p_subst_many(s[n - 1].moves, map), ..s[n - 1] })
        }
    }
}

pub open spec fn notes_carried(s: Seq<Seq<char>>, name: Seq<char>, notes: Seq<Seq<char>>, n: nat) -> Seq<Seq<char>>
    decreases n,
{
    if n == 0 {
        s
    } else {
        with_new(notes_carried(s, name, notes, (n - 1) as nat), "in `"@ + name + "`: "@ + notes[n - 1])
    }
}

/// What the first `n` exact ranges leave resident.
pub open spec fn residue(ts: Seq<TouchV>, c: CondV, n: nat) -> Seq<ResV>
    decreases n,
{
    if n == 0 {
        Seq::empty()
    } else {
        let before = residue(ts, c, (n - 1) as nat);
        if ts[n - 1].exact {
            before.push(ResV { root: ts[n - 1].root, lo: ts[n - 1].lo, hi: ts[n - 1].hi, conds: seq![c] })
        } else {
            before
        }
    }
}

/// The state after a call whose arguments are sizes.
#[verifier::opaque]
pub open spec fn charged(
    cx: CxV,
    w: WalkV,
    c: FuncCostV,
    cost: (Seq<PieceV>, Seq<PieceV>),
    args: Seq<ExprV>,
    a: ArgsV,
) -> WalkV {
    let feet = if declared_only(c) {
        Seq::empty()
    } else {
        touched(c.footprint, a, c.footprint.len())
    };
    let moves = credited(c_subst_many(cost.1, a.map), feet, w.resident, feet.len());
    let resident = match c.resident {
        Some(r) => if declared_only(c) {
            Seq::empty()
        } else {
            residue(feet, CondV { ws: p_subst_many(r.ws, a.map), fits: true }, feet.len())
        },
        None => Seq::empty(),
    };
    let v = WalkV { resident, calls: c_add(w.calls, moves), called: true, ..w };
    if w.replay {
        v
    } else {
        WalkV {
            bounds: v.bounds + bounds_carried(c.bounds, a.map, all_received(cx, w, args), c.bounds.len()),
            notes: notes_carried(v.notes, c.name, c.notes, c.notes.len()),
            work: c_add(v.work, c_subst_many(cost.0, a.map)),
            ..v
        }
    }
}

/// A call of a function whose cost is `c`.
#[verifier::opaque]
pub open spec fn call_of(cx: CxV, w0: WalkV, c: FuncCostV, callee: FuncV, args: Seq<ExprV>, line: u32) -> Out {
    let w1 = if !w0.replay && c.effects.contains("io"@) {
        WalkV { io: true, ..w0 }
    } else {
        w0
    };
    match callee_cost(c) {
        Err(reason) => stopped(w1, reason, line),
        Ok(cost) => if !w1.replay && c.effects.contains("unbounded"@) {
            stopped(w1, "calls `"@ + c.name + "`, which is declared unbounded"@, line)
        } else {
            let w = if w1.replay {
                w1
            } else {
                WalkV { rests_on: rests(w1.rests_on, c, callee), ..w1 }
            };
            match arguments(cx, w, c, cost, callee, args, shared(args, callee)) {
                Err((reason, at)) => stopped(w, reason, at),
                Ok(a) => done(charged(cx, w, c, cost, args, a)),
            }
        },
    }
}

#[verifier::opaque]
pub open spec fn r_call(cx: CxV, ev: Ev, w0: WalkV, fid: usize, args: Seq<ExprV>, line: u32) -> Out {
    let o = exprs_walk(ev, w0, args, args.len());
    if o.1 is Some {
        o
    } else {
        // call and return; arguments are register moves
        let w = add_work_n(o.0, 2);
        if fid >= cx.m.funcs.len() {
            stopped(w, "calls a function the module does not have"@, line)
        } else if cx.own == Some(fid) {
            done(called_self(cx, w, cx.m.funcs[fid as int], args, line))
        } else {
            let (memo, c) = (ev.func)(w.memo, fid);
            call_of(cx, WalkV { memo, ..w }, c, cx.m.funcs[fid as int], args, line)
        }
    }
}

#[verifier::opaque]
pub open spec fn r_expr(cx: CxV, ev: Ev, w: WalkV, e: ExprV) -> Out {
    match e.kind {
        KindV::Binary(_, a, b) => two_parts(ev, w, *a, *b, 1),
        // compare, select
        KindV::MinMax(_, a, b) => two_parts(ev, w, *a, *b, 2),
        KindV::Unary(_, a) => one_part(ev, w, *a),
        KindV::Cast(a, _) => one_part(ev, w, *a),
        KindV::Println(a) => {
            let o = one_part(ev, w, *a);
            if o.1 is Some || o.0.replay {
                o
            } else {
                done(WalkV { io: true, ..o.0 })
            }
        },
        KindV::Index(arr, idx) => load(cx, ev, w, arr, *idx, None),
        // `xs[i].f` is one load of one field, not of the element: the site touches the field and
        // steps by the element
        KindV::Field(base, fi) => match base.kind {
            KindV::Index(arr, idx) => load(cx, ev, w, arr, *idx, Some(fi)),
            // a field of a value in registers is free
            _ => (ev.expr)(w, *base),
        },
        KindV::StructLit(_, vals) => exprs_walk(ev, w, vals, vals.len()),
        KindV::If(c, t, els) => r_if(cx, ev, w, *c, t, els),
        KindV::Block(b) => (ev.block)(w, b),
        KindV::Call(fid, args) => r_call(cx, ev, w, fid, args, e.line),
        // what is already in a register
        _ => done(w),
    }
}

// ---- functions ----

pub open spec fn param_name(f: FuncV, i: int) -> Seq<char> {
    let l = local_of(f, f.params[i]);
    if l.ty.arrayish() {
        l.name + ".len()"@
    } else {
        l.name
    }
}

pub open spec fn param_names(f: FuncV) -> Seq<Seq<char>> {
    Seq::new(f.params.len(), |i: int| param_name(f, i))
}

pub open spec fn params_sizes(f: FuncV, n: nat) -> Known<PolyV>
    decreases n,
{
    if n == 0 {
        nothing()
    } else {
        let before = params_sizes(f, (n - 1) as nat);
        if local_of(f, f.params[n - 1]).ty.arrayish() {
            known(before, f.params[n - 1], crate::cost::algebra::p_var(n - 1))
        } else {
            before
        }
    }
}

pub open spec fn params_roots(f: FuncV, n: nat) -> Known<usize>
    decreases n,
{
    if n == 0 {
        nothing()
    } else {
        let before = params_roots(f, (n - 1) as nat);
        if local_of(f, f.params[n - 1]).ty.arrayish() {
            known(before, f.params[n - 1], f.params[n - 1])
        } else {
            before
        }
    }
}

pub open spec fn params_affines(f: FuncV, n: nat) -> Known<crate::cost::affine::AffineV>
    decreases n,
{
    if n == 0 {
        nothing()
    } else {
        let before = params_affines(f, (n - 1) as nat);
        if local_of(f, f.params[n - 1]).ty is I64 {
            known(before, f.params[n - 1], f_const(crate::cost::algebra::p_var(n - 1)))
        } else {
            before
        }
    }
}

/// The state before a function's body is walked.
#[verifier::opaque]
pub open spec fn fresh(f: FuncV, memo: MemoV) -> WalkV {
    let n = f.params.len();
    WalkV {
        names: param_names(f),
        sites: Seq::empty(),
        recs: Seq::empty(),
        bounds: Seq::empty(),
        images: Seq::empty(),
        aliases: nothing(),
        notes: Seq::empty(),
        io: false,
        self_calls: Seq::empty(),
        sizes: params_sizes(f, n),
        affines: params_affines(f, n),
        initial: nothing(),
        roots: params_roots(f, n),
        loops: Seq::empty(),
        work: no_cost(),
        moves: no_cost(),
        calls: no_cost(),
        called: false,
        branch: Seq::empty(),
        next_if: 0,
        resident: Seq::empty(),
        replay: false,
        rests_on: Seq::empty(),
        memo,
    }
}

pub open spec fn io_uses(s: Seq<Seq<char>>, n: nat) -> Seq<Seq<char>>
    decreases n,
{
    if n == 0 {
        Seq::empty()
    } else {
        let before = io_uses(s, (n - 1) as nat);
        if s[n - 1] == "io"@ || s[n - 1] == "unbounded"@ {
            before.push(s[n - 1])
        } else {
            before
        }
    }
}

/// A declaration has no body: its cost is what it declares, or unknown.
#[verifier::opaque]
pub open spec fn declaration_cost(f: FuncV, d: DeclaredV, wrong: Seq<Seq<char>>) -> FuncCostV {
    let effects = io_uses(f.uses, f.uses.len());
    FuncCostV {
        name: f.name,
        names: param_names(f),
        result: match (d.work, d.moves) {
            (Some(w), Some(m)) => ResultV::Exact { work: c_poly(w), moves: c_poly(m) },
            _ => ResultV::Unknown {
                reason: if effects.contains("unbounded"@) {
                    "declared unbounded"@
                } else {
                    "an extern needs `#[cost(work_at_most = …, moves_at_most = …)]` or `uses unbounded`"@
                },
                line: f.line,
            },
        },
        bounds: Seq::empty(),
        notes: Seq::empty(),
        suggestions: Seq::empty(),
        effects,
        tier: "declared"@,
        violations: wrong,
        footprint: Seq::empty(),
        resident: None,
        declared: d,
        rests_on: Seq::empty(),
    }
}

/// A cost with the regimes that cannot occur on the machine gone.
pub open spec fn pruned(k: Machine, s: Seq<PieceV>) -> Seq<PieceV> {
    c_prune(pieces_at(s, k))
}

/// The cost that the walk found: the sites' moves settled, and a recurrence solved where the
/// function calls itself.
#[verifier::opaque]
pub open spec fn walk_result(cx: CxV, w: WalkV) -> ResultV {
    let work = pruned(cx.k, w.work);
    let moves = pruned(cx.k, c_add(c_add(w.moves, site_moves(cx.k, w.sites, w.recs)), w.calls));
    if w.self_calls.len() == 0 {
        ResultV::Exact { work, moves }
    } else {
        match recurrence(cx.f, w.names, w.self_calls, work, moves) {
            Ok((a, b)) => ResultV::Exact { work: a, moves: b },
            Err(reason) => ResultV::Unknown { reason, line: w.self_calls[0].line },
        }
    }
}

/// Distinct elements of parameter arrays: the images among the first `n` that are of one.
pub open spec fn images_bytes(f: FuncV, s: Seq<ImageV>, n: nat) -> PolyV
    decreases n,
{
    if n == 0 {
        p_zero()
    } else {
        let before = images_bytes(f, s, (n - 1) as nat);
        if f.params.contains(s[n - 1].root) {
            p_add(before, s[n - 1].bytes)
        } else {
            before
        }
    }
}

/// The bounds found with that of the footprint, each element crossing once from cold, the
/// strongest first.
#[verifier::opaque]
pub open spec fn final_bounds(cx: CxV, w: WalkV) -> Seq<BoundV> {
    let foot = images_bytes(cx.f, w.images, w.images.len());
    let all = if foot == p_zero() {
        w.bounds
    } else {
        w.bounds.push(
            BoundV {
                kind: "footprint"@,
                citation: "every distinct element crosses once"@,
                moves: foot,
                line: cx.f.line,
                cold: true,
            },
        )
    };
    bounds_sorted(bounds_distinct(all), cx.k)
}

/// What is said of a function once its body is walked.
#[verifier::opaque]
pub open spec fn body_cost(cx: CxV, d: DeclaredV, wrong: Seq<Seq<char>>, o: Out) -> FuncCostV {
    let w = o.0;
    let result = match o.1 {
        Some((reason, line)) => ResultV::Unknown { reason, line },
        None => walk_result(cx, w),
    };
    let (feet, resident) = footprint(cx, w);
    FuncCostV {
        name: cx.f.name,
        names: w.names,
        result,
        bounds: final_bounds(cx, w),
        notes: w.notes,
        suggestions: Seq::empty(),
        effects: if w.io {
            seq!["io"@]
        } else {
            Seq::empty()
        },
        tier: if o.1 is None && w.self_calls.len() > 0 {
            "recurrence"@
        } else {
            "exact"@
        },
        violations: wrong + all_broken(cx.f, w.names, cx.k, d, result),
        footprint: feet,
        resident,
        declared: d,
        rests_on: w.rests_on,
    }
}

/// The cost of one function, and the functions analysed on the way.
#[verifier::opaque]
pub open spec fn r_run(cx: CxV, ev: Ev, memo: MemoV) -> (MemoV, FuncCostV) {
    let r = read_entries(param_names(cx.f), cx.f.asserts, cx.f.asserts.len());
    match cx.f.body {
        None => (memo, declaration_cost(cx.f, r.declared, r.wrong)),
        Some(b) => {
            let o = (ev.block)(fresh(cx.f, memo), b);
            (o.0.memo, body_cost(cx, r.declared, r.wrong, o))
        },
    }
}

/// A cycle: only self-recursion is solved.
pub open spec fn cyclic(f: FuncV) -> FuncCostV {
    FuncCostV {
        name: f.name,
        names: param_names(f),
        result: ResultV::Unknown {
            reason: "mutually recursive with another function; only self-recursion is solved"@,
            line: f.line,
        },
        bounds: Seq::empty(),
        notes: Seq::empty(),
        suggestions: Seq::empty(),
        effects: Seq::empty(),
        tier: "unknown"@,
        violations: Seq::empty(),
        footprint: Seq::empty(),
        resident: None,
        declared: undeclared(),
        rests_on: Seq::empty(),
    }
}

pub open spec fn begun(memo: MemoV, fid: usize) -> MemoV {
    MemoV { active: memo.active.update(fid as int, true), ..memo }
}

pub open spec fn ended_with(memo: MemoV, fid: usize, c: FuncCostV) -> MemoV {
    MemoV { done: memo.done.update(fid as int, Some(c)), active: memo.active.update(fid as int, false), ..memo }
}

/// The cost of a function of the module: as remembered, or found now. `run` finds it.
#[verifier::opaque]
pub open spec fn r_func(m: ModuleV, memo: MemoV, fid: usize, run: spec_fn(MemoV) -> (MemoV, FuncCostV)) -> (
    MemoV,
    FuncCostV,
) {
    if memo.done[fid as int] is Some {
        (memo, memo.done[fid as int]->0)
    } else if memo.active[fid as int] {
        let c = cyclic(m.funcs[fid as int]);
        (MemoV { done: memo.done.update(fid as int, Some(c)), ..memo }, c)
    } else {
        let (after, c) = run(begun(memo, fid));
        (ended_with(after, fid, c), c)
    }
}

/// How many of the first `n` functions are not being analysed.
pub open spec fn idle(s: Seq<bool>, n: nat) -> nat
    decreases n,
{
    if n == 0 {
        0
    } else {
        idle(s, (n - 1) as nat) + (if s[n - 1] {
            0nat
        } else {
            1
        })
    }
}

pub open spec fn resting(memo: MemoV) -> nat {
    idle(memo.active, memo.active.len())
}

pub open spec fn body_size(f: FuncV) -> nat {
    match f.body {
        Some(b) => block_size(b) + 1,
        None => 1,
    }
}

/// The rules tied together, for trees smaller than `n` while at most `d` functions rest.
#[verifier::opaque]
pub open spec fn knot(cx: CxV, d: nat, n: nat) -> Ev
    decreases d, n,
{
    Ev {
        expr: |w: WalkV, e: ExprV|
            if expr_size(e) < n {
                r_expr(cx, knot(cx, d, expr_size(e)), w, e)
            } else {
                done(w)
            },
        block: |w: WalkV, b: BlockV|
            if block_size(b) < n {
                r_block(cx, knot(cx, d, block_size(b)), w, b)
            } else {
                done(w)
            },
        func: |memo: MemoV, fid: usize|
            r_func(
                cx.m,
                memo,
                fid,
                |begun: MemoV|
                    {
                        let callee = CxV { f: cx.m.funcs[fid as int], own: Some(fid), ..cx };
                        if resting(begun) < d {
                            r_run(callee, knot(callee, resting(begun), body_size(callee.f)), begun)
                        } else {
                            (begun, cyclic(callee.f))
                        }
                    },
            ),
    }
}

/// The walk of an expression.
pub open spec fn s_expr(cx: CxV, w: WalkV, e: ExprV) -> Out {
    r_expr(cx, knot(cx, resting(w.memo), expr_size(e)), w, e)
}

/// The cost of a function that stands for itself, such as a rewritten one.
pub open spec fn s_run(cx: CxV, memo: MemoV) -> (MemoV, FuncCostV) {
    r_run(cx, knot(cx, resting(memo), body_size(cx.f)), memo)
}

pub proof fn knot_expr(cx: CxV, d: nat, n: nat, w: WalkV, e: ExprV)
    requires
        expr_size(e) < n,
    ensures
        (knot(cx, d, n).expr)(w, e) == r_expr(cx, knot(cx, d, expr_size(e)), w, e),
{
    reveal(knot);
}

pub proof fn knot_block(cx: CxV, d: nat, n: nat, w: WalkV, b: BlockV)
    requires
        block_size(b) < n,
    ensures
        (knot(cx, d, n).block)(w, b) == r_block(cx, knot(cx, d, block_size(b)), w, b),
{
    reveal(knot);
}

/// What the walk of a callee finds, where it is neither known nor being analysed.
pub open spec fn found_anew(cx: CxV, memo: MemoV, fid: usize) -> (MemoV, FuncCostV) {
    let callee = CxV { f: cx.m.funcs[fid as int], own: Some(fid), ..cx };
    s_run(callee, begun(memo, fid))
}

/// The cost of a function of the module.
pub open spec fn s_func(cx: CxV, memo: MemoV, fid: usize) -> (MemoV, FuncCostV) {
    r_func(cx.m, memo, fid, |b: MemoV| found_anew(cx, memo, fid))
}

proof fn idle_falls(s: Seq<bool>, i: int, n: nat)
    requires
        0 <= i < s.len(),
        !s[i],
        n <= s.len(),
    ensures
        idle(s.update(i, true), n) == (if i < n { idle(s, n) - 1 } else { idle(s, n) as int }),
    decreases n,
{
    if n > 0 {
        idle_falls(s, i, (n - 1) as nat);
    }
}

pub proof fn begun_rests_less(memo: MemoV, fid: usize)
    requires
        fid < memo.active.len(),
        !memo.active[fid as int],
    ensures
        resting(begun(memo, fid)) < resting(memo),
{
    idle_falls(memo.active, fid as int, memo.active.len());
}

pub proof fn knot_func(cx: CxV, d: nat, n: nat, memo: MemoV, fid: usize)
    requires
        fid < memo.active.len(),
        resting(memo) <= d,
    ensures
        (knot(cx, d, n).func)(memo, fid) == s_func(cx, memo, fid),
{
    reveal(knot);
    reveal(r_func);
    if !memo.active[fid as int] {
        begun_rests_less(memo, fid);
    }
}

} // verus!
