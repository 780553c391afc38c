//! The walk over a function's body, and the cost of the function from it.

use vstd::prelude::*;
use crate::ast::{views, BinOp};
use crate::cost::affine::Affine;
use crate::cost::bounds::{bounds_v, strongest_first, Bound};
use crate::cost::calls::source_of;
use crate::cost::costs::c_add;
use crate::cost::declare::{check_declaration, read_declaration};
use crate::cost::forms::opt_poly;
use crate::cost::piece::Cost;
use crate::cost::rat::Rat;
use crate::cost::reading::{rec_of, rec_sum_cost, size_of, value_of};
use crate::cost::recur::solve_recurrence;
use crate::cost::rules::{
    access, add_work, add_work_n, as_values, ask, begun, begun_rests_less, body_cost, body_size, bound_to, branched,
    compared, cyclic, declaration_cost, done, entered, entered_again, exprs_walk, fall_text, final_bounds, for_trip,
    fresh, images_bytes, induction, io_uses, knot, knot_block, knot_expr, knot_func, left, load, made, measured,
    merged, mirrored, more_calls, one_part, param_name, param_names, params_affines, params_roots, params_sizes,
    r_array, r_assign, r_block, r_build, r_call, r_expr, r_for, r_func, r_if, r_let, r_loop, r_repeat, r_run, r_stmt,
    r_while, reassigned, rejoined, replayed, resting, s_func, side, stepped, stmts_walk, store, stream, two_parts,
    variable_of, walk_result, Ev, InductionV,
};
use crate::cost::scope::{
    called, elem_bytes, keeps, remembers, stays, Cx, CxV, Loop, LoopRec, LoopV, Memo, SelfCall, Values, Walk, WalkV,
};
use crate::cost::settle::settle_moves;
use crate::cost::signature::{CostResult, Declared, FuncCost};
use crate::cost::size::Poly;
use crate::cost::subst::with_all_new;
use crate::cost::table::{has_id, known, Table};
use crate::cost::track::{opt_fail, ready, stop, Fail, Frame};
use crate::cost::trees::{assigns_bound, min_decrease, single_step};
use crate::ir::{
    block_lists, expr_parts, lvalue_parts, opt_view, stmt_parts, Block, Expr, ExprKind, ExprV, LValue, LValueV, Stmt,
    StmtV,
};
use crate::irsize::{
    block_shrinks, block_size, expr_shrinks, expr_size, exprs_shrink, exprs_size, stmt_shrinks, stmt_size,
    stmts_shrink,
};
use crate::num::{BigInt, Side};
use crate::text::{cat2, cat3, cat4, cat5, copy_text, has_text, show_int, show_u64, texts};

verus! {

impl<'a> Walk<'a> {
    // ---- parts ----

    /// A part of a tree smaller than `n`.
    fn part(&mut self, cx: &Cx<'a>, e: &'a Expr, Ghost(d): Ghost<nat>, Ghost(n): Ghost<nat>) -> (r: Option<Fail>)
        requires
            ready(cx@, old(self)@.memo, d),
            expr_size(e@) < n,
        ensures
            (final(self)@, opt_fail(r)) == (knot(cx@, d, n).expr)(old(self)@, e@),
            keeps(old(self)@, final(self)@),
            r is None ==> stays(old(self)@, final(self)@),
        decreases d, n, 0int,
    {
        let ghost w = self@;
        let r = self.expr(cx, e, Ghost(d));
        proof {
            knot_expr(cx@, d, n, w, e@);
        }
        r
    }

    fn part_block(&mut self, cx: &Cx<'a>, b: &'a Block, Ghost(d): Ghost<nat>, Ghost(n): Ghost<nat>) -> (r: Option<Fail>)
        requires
            ready(cx@, old(self)@.memo, d),
            block_size(b@) < n,
        ensures
            (final(self)@, opt_fail(r)) == (knot(cx@, d, n).block)(old(self)@, b@),
            keeps(old(self)@, final(self)@),
            r is None ==> stays(old(self)@, final(self)@),
        decreases d, n, 0int,
    {
        let ghost w = self@;
        let r = self.block(cx, b, Ghost(d));
        proof {
            knot_block(cx@, d, n, w, b@);
        }
        r
    }

    #[verifier::loop_isolation(false)]
    fn parts(&mut self, cx: &Cx<'a>, s: &'a Vec<Expr>, Ghost(d): Ghost<nat>, Ghost(n): Ghost<nat>) -> (r: Option<Fail>)
        requires
            ready(cx@, old(self)@.memo, d),
            exprs_size(views(s@)) < n,
        ensures
            (final(self)@, opt_fail(r)) == exprs_walk(knot(cx@, d, n), old(self)@, views(s@), s@.len()),
            keeps(old(self)@, final(self)@),
            r is None ==> stays(old(self)@, final(self)@),
        decreases d, n, 1int,
    {
        let ghost w = self@;
        let ghost v = views(s@);
        let ghost ev = knot(cx@, d, n);
        let mut i: usize = 0;
        while i < s.len()
            invariant
                i <= s@.len(),
                stays(w, self@),
                exprs_walk(ev, w, v, i as nat) == done(self@),
            decreases s@.len() - i,
        {
            proof {
                exprs_shrink(v, i as int);
                assert(v[i as int] == s@[i as int]@);
            }
            let r = self.part(cx, &s[i], Ghost(d), Ghost(n));
            if r.is_some() {
                proof {
                    exprs_stop(ev, w, v, (i + 1) as nat, v.len());
                }
                return r;
            }
            i += 1;
        }
        None
    }

    fn two_parts(&mut self, cx: &Cx<'a>, a: &'a Expr, b: &'a Expr, k: i128, Ghost(d): Ghost<nat>, Ghost(n): Ghost<nat>) -> (r:
        Option<Fail>)
        requires
            ready(cx@, old(self)@.memo, d),
            expr_size(a@) < n,
            expr_size(b@) < n,
        ensures
            (final(self)@, opt_fail(r)) == two_parts(knot(cx@, d, n), old(self)@, a@, b@, k as int),
            keeps(old(self)@, final(self)@),
            r is None ==> stays(old(self)@, final(self)@),
        decreases d, n, 1int,
    {
        let r = self.part(cx, a, Ghost(d), Ghost(n));
        if r.is_some() {
            return r;
        }
        let r = self.part(cx, b, Ghost(d), Ghost(n));
        if r.is_some() {
            return r;
        }
        self.add_work_n(k);
        None
    }

    fn one_part(&mut self, cx: &Cx<'a>, a: &'a Expr, Ghost(d): Ghost<nat>, Ghost(n): Ghost<nat>) -> (r: Option<Fail>)
        requires
            ready(cx@, old(self)@.memo, d),
            expr_size(a@) < n,
        ensures
            (final(self)@, opt_fail(r)) == one_part(knot(cx@, d, n), old(self)@, a@),
            keeps(old(self)@, final(self)@),
            r is None ==> stays(old(self)@, final(self)@),
        decreases d, n, 1int,
    {
        let r = self.part(cx, a, Ghost(d), Ghost(n));
        if r.is_some() {
            return r;
        }
        self.add_work_n(1);
        None
    }

    fn load(&mut self, cx: &Cx<'a>, arr: usize, idx: &'a Expr, field: Option<usize>, Ghost(d): Ghost<nat>, Ghost(n): Ghost<nat>) -> (r:
        Option<Fail>)
        requires
            ready(cx@, old(self)@.memo, d),
            expr_size(idx@) < n,
        ensures
            (final(self)@, opt_fail(r)) == load(cx@, knot(cx@, d, n), old(self)@, arr, idx@, field),
            keeps(old(self)@, final(self)@),
            r is None ==> stays(old(self)@, final(self)@),
        decreases d, n, 2int,
    {
        let r = self.one_part(cx, idx, Ghost(d), Ghost(n));
        if r.is_some() {
            return r;
        }
        self.access(cx, arr, idx, field);
        None
    }

    // ---- expressions ----

    fn expr(&mut self, cx: &Cx<'a>, e: &'a Expr, Ghost(d): Ghost<nat>) -> (r: Option<Fail>)
        requires
            ready(cx@, old(self)@.memo, d),
        ensures
            (final(self)@, opt_fail(r)) == r_expr(cx@, knot(cx@, d, expr_size(e@)), old(self)@, e@),
            keeps(old(self)@, final(self)@),
            r is None ==> stays(old(self)@, final(self)@),
        decreases d, expr_size(e@), 6int,
    {
        let ghost n = expr_size(e@);
        proof {
            reveal(r_expr);
            expr_parts(*e);
            expr_shrinks(e@);
        }
        match &e.kind {
            ExprKind::Binary(_, a, b) => self.two_parts(cx, a, b, 1, Ghost(d), Ghost(n)),
            ExprKind::MinMax(_, a, b) => self.two_parts(cx, a, b, 2, Ghost(d), Ghost(n)),
            ExprKind::Unary(_, a) => self.one_part(cx, a, Ghost(d), Ghost(n)),
            ExprKind::Cast(a, _) => self.one_part(cx, a, Ghost(d), Ghost(n)),
            ExprKind::Println(a) => {
                let r = self.one_part(cx, a, Ghost(d), Ghost(n));
                if r.is_none() && !self.replay {
                    self.io = true;
                }
                r
            },
            ExprKind::Index(arr, idx) => self.load(cx, *arr, idx, None, Ghost(d), Ghost(n)),
            ExprKind::Field(base, fi) => {
                proof {
                    expr_parts(**base);
                    expr_shrinks(base@);
                }
                match &base.kind {
                    ExprKind::Index(arr, idx) => self.load(cx, *arr, idx, Some(*fi), Ghost(d), Ghost(n)),
                    _ => self.part(cx, base, Ghost(d), Ghost(n)),
                }
            },
            ExprKind::StructLit(_, vals) => self.parts(cx, vals, Ghost(d), Ghost(n)),
            ExprKind::If(c, t, els) => self.branches(cx, c, t, els, Ghost(d), Ghost(n)),
            ExprKind::Block(b) => self.part_block(cx, b, Ghost(d), Ghost(n)),
            ExprKind::Call(fid, args) => self.call_expr(cx, *fid, args, e.line, Ghost(d), Ghost(n)),
            _ => None,
        }
    }

    /// The alternatives of an `if`.
    #[verifier::rlimit(40)]
    fn branches(
        &mut self,
        cx: &Cx<'a>,
        c: &'a Expr,
        t: &'a Block,
        els: &'a Option<Block>,
        Ghost(d): Ghost<nat>,
        Ghost(n): Ghost<nat>,
    ) -> (r: Option<Fail>)
        requires
            ready(cx@, old(self)@.memo, d),
            expr_size(c@) < n,
            block_size(t@) < n,
            *els is Some ==> block_size((*els)->0@) < n,
        ensures
            (final(self)@, opt_fail(r)) == r_if(cx@, knot(cx@, d, n), old(self)@, c@, t@, opt_view(*els)),
            keeps(old(self)@, final(self)@),
            r is None ==> stays(old(self)@, final(self)@),
        decreases d, n, 2int,
    {
        proof {
            reveal(r_if);
        }
        let ghost ev = knot(cx@, d, n);
        let r = self.one_part(cx, c, Ghost(d), Ghost(n));
        if r.is_some() {
            return r;
        }
        let id = self.next_if;
        self.next_if = if id == usize::MAX {
            0
        } else {
            id + 1
        };
        let ghost w = self@;
        let before: usize = self.self_calls.len();
        let entry = copy_values(&self.initial);
        let (r, yes_work, yes_moves) = self.branch_of(cx, Some(t), id, true, Ghost(d), Ghost(n));
        let ghost yes = self@;
        if r.is_some() {
            return r;
        }
        assert(yes.memo.active == w.memo.active && called(yes.memo));
        let yes_calls = self.take_self_calls(before);
        let mut yes_initial = entry;
        core::mem::swap(&mut yes_initial, &mut self.initial);
        assert(self@ == (WalkV { self_calls: yes.self_calls.take(before as int), initial: w.initial, ..yes }));
        let other = match els {
            Some(b) => Some(b),
            None => None,
        };
        let (r, no_work, no_moves) = self.branch_of(cx, other, id, false, Ghost(d), Ghost(n));
        if r.is_some() {
            return r;
        }
        let ghost no = self@;
        self.work = self.work.add(&yes_work.max(&no_work));
        self.moves = self.moves.add(&yes_moves.max(&no_moves));
        merge_values(&yes_initial, &mut self.initial);
        self.put_self_calls(yes_calls, before);
        None
    }

    /// The self-calls from the `n`-th on, taken out.
    fn take_self_calls(&mut self, n: usize) -> (r: Vec<SelfCall>)
        requires
            n <= old(self)@.self_calls.len(),
        ensures
            final(self)@ == (WalkV { self_calls: old(self)@.self_calls.take(n as int), ..old(self)@ }),
            views(r@) == old(self)@.self_calls.skip(n as int),
    {
        let ghost v = self@.self_calls;
        let r = self.self_calls.split_off(n);
        assert(views(r@) =~= v.skip(n as int));
        assert(self@.self_calls =~= v.take(n as int));
        r
    }

    /// The self-calls put in place of those from the `n`-th on, where they are more.
    fn put_self_calls(&mut self, yes: Vec<SelfCall>, n: usize)
        requires
            n <= old(self)@.self_calls.len(),
        ensures
            final(self)@ == (WalkV { self_calls: more_calls(views(yes@), old(self)@.self_calls, n as nat), ..old(self)@ }),
            final(self)@.self_calls.len() >= n,
    {
        let ghost v = self@.self_calls;
        let count: usize = self.self_calls.len() - n;
        if yes.len() > count {
            let ghost y = views(yes@);
            self.self_calls.truncate(n);
            let mut more = yes;
            self.self_calls.append(&mut more);
            assert(self@.self_calls =~= v.take(n as int) + y);
        }
    }

    /// One side of an `if`: its calls count once; its work and moves are handed out.
    fn branch_of(
        &mut self,
        cx: &Cx<'a>,
        b: Option<&'a Block>,
        id: usize,
        yes: bool,
        Ghost(d): Ghost<nat>,
        Ghost(n): Ghost<nat>,
    ) -> (r: (Option<Fail>, Cost, Cost))
        requires
            ready(cx@, old(self)@.memo, d),
            b is Some ==> block_size((b->0)@) < n,
        ensures
            ((final(self)@, opt_fail(r.0)), r.1@, r.2@) == side(
                knot(cx@, d, n),
                old(self)@,
                id,
                yes,
                match b {
                    Some(x) => Some(x@),
                    None => None,
                },
            ),
            keeps(old(self)@, final(self)@),
            r.0 is None ==> stays(old(self)@, final(self)@),
        decreases d, n, 1int,
    {
        proof {
            reveal(side);
        }
        let ghost w = self@;
        self.branch.push((id, yes));
        let frame = self.open_frame();
        assert(self@ == branched(w, id, yes));
        match b {
            Some(x) => {
                let r = self.part_block(cx, x, Ghost(d), Ghost(n));
                if r.is_some() {
                    return (r, Cost::zero(), Cost::zero());
                }
            },
            None => {},
        }
        let ghost o = self@;
        let inner = self.close_frame(frame);
        self.calls = self.calls.add(&inner.calls);
        self.called = self.called || inner.called;
        let _ = self.branch.pop();
        assert(self@.branch =~= w.branch);
        assert(self@ == rejoined(w, o));
        (None, inner.work, inner.moves)
    }

    /// A call: the arguments, then what the callee costs here.
    fn call_expr(&mut self, cx: &Cx<'a>, fid: usize, args: &'a Vec<Expr>, line: u32, Ghost(d): Ghost<nat>, Ghost(n): Ghost<nat>) -> (r:
        Option<Fail>)
        requires
            ready(cx@, old(self)@.memo, d),
            exprs_size(views(args@)) < n,
        ensures
            (final(self)@, opt_fail(r)) == r_call(cx@, knot(cx@, d, n), old(self)@, fid, views(args@), line),
            keeps(old(self)@, final(self)@),
            r is None ==> stays(old(self)@, final(self)@),
        decreases d, n, 2int,
    {
        proof {
            reveal(r_call);
        }
        let r = self.parts(cx, args, Ghost(d), Ghost(n));
        if r.is_some() {
            return r;
        }
        self.add_work_n(2);
        if fid >= cx.m.funcs.len() {
            return stop("calls a function the module does not have".to_owned(), line);
        }
        let callee = &cx.m.funcs[fid];
        assert(cx@.m.funcs[fid as int] == callee@);
        if let Some(own) = cx.own {
            if own == fid {
                self.call_self(cx, callee, args, line);
                return None;
            }
        }
        proof {
            knot_func(cx@, d, n, self@.memo, fid);
        }
        let c = func_cost(cx, &mut self.memo, fid, Ghost(d));
        self.call(cx, &c, callee, args, line)
    }
}

impl<'a> Walk<'a> {
    // ---- blocks ----

    #[verifier::loop_isolation(false)]
    fn block(&mut self, cx: &Cx<'a>, b: &'a Block, Ghost(d): Ghost<nat>) -> (r: Option<Fail>)
        requires
            ready(cx@, old(self)@.memo, d),
        ensures
            (final(self)@, opt_fail(r)) == r_block(cx@, knot(cx@, d, block_size(b@)), old(self)@, b@),
            keeps(old(self)@, final(self)@),
            r is None ==> stays(old(self)@, final(self)@),
        decreases d, block_size(b@), 6int,
    {
        let ghost n = block_size(b@);
        let ghost v = b@.stmts;
        let ghost ev = knot(cx@, d, n);
        let ghost w0 = self@;
        proof {
            reveal(r_block);
            block_lists(*b);
            block_shrinks(b@);
        }
        let opened = self.open_aliases(cx, b);
        let ghost w = self@;
        let mut failed: Option<Fail> = None;
        let mut i: usize = 0;
        while i < b.stmts.len() && failed.is_none()
            invariant
                i <= b.stmts@.len(),
                keeps(w, self@),
                failed is None ==> stays(w, self@),
                stmts_walk(cx@, ev, w, v, i as nat) == (self@, opt_fail(failed)),
            decreases b.stmts@.len() - i,
        {
            proof {
                stmts_shrink(v, i as int);
                assert(v[i as int] == b.stmts@[i as int]@);
            }
            failed = self.stmt(cx, &b.stmts[i], Ghost(d), Ghost(n));
            i += 1;
        }
        proof {
            if failed is Some {
                stmts_stop(cx@, ev, w, v, i as nat, v.len());
            }
        }
        if failed.is_none() {
            match &b.tail {
                Some(e) => {
                    failed = self.part(cx, e, Ghost(d), Ghost(n));
                },
                None => {},
            }
        }
        self.close_aliases(&opened);
        failed
    }

    // ---- loops ----

    /// A loop whose body costs `k` per iteration besides what it holds.
    fn run_loop(&mut self, cx: &Cx<'a>, lp: Loop, k: i128, body: &'a Block, Ghost(d): Ghost<nat>, Ghost(n): Ghost<nat>) -> (r:
        Option<Fail>)
        requires
            ready(cx@, old(self)@.memo, d),
            block_size(body@) < n,
        ensures
            (final(self)@, opt_fail(r)) == r_loop(cx@, knot(cx@, d, n), old(self)@, lp@, k as int, body@),
            keeps(old(self)@, final(self)@),
            r is None ==> stays(old(self)@, final(self)@),
        decreases d, n, 3int,
    {
        proof {
            reveal(r_loop);
        }
        let ghost w = self@;
        let ghost lv = lp@;
        let mut lp = lp;
        lp.id = self.recs.len();
        let rec = LoopRec { var: lp.var, atom: lp.atom, trip: lp.trip.copy(), lo: lp.lo.copy(), step: lp.step };
        assert(views(self.recs@.push(rec)) =~= w.recs.push(rec_of(lv)));
        self.recs.push(rec);
        let open = lp.copy();
        assert(views(self.loops@.push(open)) =~= w.loops.push(lp@));
        self.loops.push(open);
        let frame = self.open_frame();
        assert(self@ == entered(w, lv));
        self.add_work_n(k);
        let r = self.part_block(cx, body, Ghost(d), Ghost(n));
        if r.is_some() {
            return r;
        }
        self.leave(cx, lp, frame, body, Ghost(d), Ghost(n), Ghost(w))
    }

    fn pop_loop(&mut self, Ghost(rest): Ghost<Seq<LoopV>>, Ghost(x): Ghost<LoopV>)
        requires
            old(self)@.loops == rest.push(x),
        ensures
            final(self)@ == (WalkV { loops: rest, ..old(self)@ }),
    {
        let ghost all = self.loops@;
        let _ = self.loops.pop();
        proof {
            assert(views(all) == rest.push(x));
            assert(views(all).len() == rest.len() + 1);
            assert(self.loops@ =~= all.drop_last());
            assert forall|i: int| 0 <= i < rest.len() implies #[trigger] views(self.loops@)[i] == rest[i] by {
                assert(views(all)[i] == rest.push(x)[i]);
            }
            assert(views(self.loops@) =~= rest);
        }
    }

    /// The second walk of a loop's body, and what its calls cost.
    fn walk_again(&mut self, cx: &Cx<'a>, lp: &Loop, body: &'a Block, Ghost(d): Ghost<nat>, Ghost(n): Ghost<nat>) -> (r: (
        Option<Fail>,
        Cost,
    ))
        requires
            ready(cx@, old(self)@.memo, d),
            block_size(body@) < n,
        ensures
            ((final(self)@, opt_fail(r.0)), r.1@) == replayed(knot(cx@, d, n), old(self)@, lp@, body@),
            keeps(old(self)@, final(self)@),
            r.0 is None ==> stays(old(self)@, final(self)@),
        decreases d, n, 1int,
    {
        proof {
            reveal(replayed);
        }
        let ghost w = self@;
        let again = lp.copy();
        assert(views(self.loops@.push(again)) =~= w.loops.push(lp@));
        self.loops.push(again);
        let outer = self.replay;
        self.replay = true;
        let frame = self.open_frame();
        assert(self@ == entered_again(w, lp@));
        let r = self.part_block(cx, body, Ghost(d), Ghost(n));
        if r.is_some() {
            return (r, Cost::zero());
        }
        let warm = self.close_frame(frame);
        self.replay = outer;
        self.pop_loop(Ghost(w.loops), Ghost(lp@));
        (None, warm.calls)
    }

    /// A loop is left; the costs of what holds it are in `frame`.
    fn leave(
        &mut self,
        cx: &Cx<'a>,
        lp: Loop,
        frame: Frame,
        body: &'a Block,
        Ghost(d): Ghost<nat>,
        Ghost(n): Ghost<nat>,
        Ghost(w): Ghost<WalkV>,
    ) -> (r: Option<Fail>)
        requires
            ready(cx@, old(self)@.memo, d),
            block_size(body@) < n,
            old(self)@.loops == w.loops.push(lp@),
            frame.work@ == w.work,
            frame.moves@ == w.moves,
            frame.calls@ == w.calls,
            frame.called == w.called,
            old(self)@.branch == w.branch,
            keeps(w, old(self)@),
        ensures
            (final(self)@, opt_fail(r)) == left(cx@, knot(cx@, d, n), w, lp@, old(self)@, body@),
            keeps(w, final(self)@),
            r is None ==> stays(w, final(self)@),
        decreases d, n, 2int,
    {
        proof {
            reveal(left);
        }
        let ghost o = self@;
        let inner = self.close_frame(frame);
        self.pop_loop(Ghost(w.loops), Ghost(lp@));
        let rec = LoopRec { var: lp.var, atom: lp.atom, trip: lp.trip.copy(), lo: lp.lo.copy(), step: lp.step };
        assert(rec@ == rec_of(lp@));
        self.work = self.work.add(&rec.sum_cost(&inner.work));
        self.moves = self.moves.add(&rec.sum_cost(&inner.moves));
        let calls = inner.calls;
        let called = inner.called;
        let ghost out = self@;
        assert(out == (WalkV {
            loops: w.loops,
            work: c_add(w.work, rec_sum_cost(rec_of(lp@), o.work)),
            moves: c_add(w.moves, rec_sum_cost(rec_of(lp@), o.moves)),
            calls: w.calls,
            called: w.called,
            ..o
        }));
        if !called {
            return None;
        }
        let first = match lp.atom {
            Some(a) => calls.subst(a, &lp.lo),
            None => calls,
        };
        let once = match value_of(&cx.k, &lp.trip) {
            Some(t) => t.side(&Rat::one()) != Side::After,
            None => false,
        };
        if once {
            self.calls = self.calls.add(&first).add(&Cost::zero());
            self.called = true;
            return None;
        }
        let (r, warm) = self.walk_again(cx, &lp, body, Ghost(d), Ghost(n));
        if r.is_some() {
            return r;
        }
        let rest_lo = lp.lo.add(&Poly::constant(lp.step));
        let rest_trip = lp.trip.sub(&Poly::constant(1));
        let rest = match lp.atom {
            Some(a) => warm.sum_over(a, &rest_lo, lp.step, &rest_trip),
            None => warm.mul_poly(&rest_trip),
        };
        self.calls = self.calls.add(&first).add(&rest);
        self.called = true;
        None
    }

    // ---- statements ----

    fn stmt(&mut self, cx: &Cx<'a>, s: &'a Stmt, Ghost(d): Ghost<nat>, Ghost(n): Ghost<nat>) -> (r: Option<Fail>)
        requires
            ready(cx@, old(self)@.memo, d),
            stmt_size(s@) < n,
        ensures
            (final(self)@, opt_fail(r)) == r_stmt(cx@, knot(cx@, d, n), old(self)@, s@),
            keeps(old(self)@, final(self)@),
            r is None ==> stays(old(self)@, final(self)@),
        decreases d, n, 5int,
    {
        proof {
            reveal(r_stmt);
            stmt_parts(*s);
            stmt_shrinks(s@);
        }
        match s {
            Stmt::Let(id, e) => self.let_stmt(cx, s, *id, e, Ghost(d), Ghost(n)),
            Stmt::LetBuild { id, len, var, body } => self.build(cx, *id, len, *var, body, Ghost(d), Ghost(n)),
            Stmt::LetRepeat(id, e, m) => self.repeat(cx, *id, e, m, Ghost(d), Ghost(n)),
            Stmt::LetArray(id, elems) => self.array(cx, *id, elems, Ghost(d), Ghost(n)),
            Stmt::Assign(lv, op, e) => {
                proof {
                    lvalue_parts(*lv);
                }
                self.assign(cx, s, lv, op, e, Ghost(d), Ghost(n))
            },
            Stmt::For { var, start, end, body } => self.for_loop(cx, *var, start, end, body, Ghost(d), Ghost(n)),
            Stmt::Break => None,
            Stmt::While { cond, decreasing, body, line } => self.while_loop(
                cx,
                cond,
                decreasing,
                body,
                *line,
                Ghost(d),
                Ghost(n),
            ),
            Stmt::Expr(e) => {
                self.recognise(cx, s);
                self.part(cx, e, Ghost(d), Ghost(n))
            },
            Stmt::Return(e) => match e {
                Some(x) => self.part(cx, x, Ghost(d), Ghost(n)),
                None => None,
            },
        }
    }

    fn bind(&mut self, cx: &Cx, id: usize, e: &Expr)
        ensures
            final(self)@ == bound_to(cx@, old(self)@, id, e@),
            stays(old(self)@, final(self)@),
    {
        proof {
            reveal(bound_to);
        }
        if cx.is_arrayish(id) {
            match source_of(e) {
                Some(s) => {
                    let root = self.root(s);
                    let size = match self.sizes.get(s) {
                        Some(p) => Some(p.copy()),
                        None => None,
                    };
                    match size {
                        Some(p) => {
                            self.sizes.put(id, p);
                        },
                        None => {},
                    }
                    self.roots.put(id, root);
                },
                None => {},
            }
        } else if cx.is_i64(id) {
            if cx.is_mutable(id) {
                let v = values_of(self.size_of(cx, e, true, false));
                self.initial.put(id, v);
            } else {
                match self.affine(e) {
                    Some(a) => {
                        self.affines.put(id, a);
                    },
                    None => {},
                }
            }
        }
    }

    fn let_stmt(&mut self, cx: &Cx<'a>, s: &'a Stmt, id: usize, e: &'a Expr, Ghost(d): Ghost<nat>, Ghost(n): Ghost<nat>) -> (r:
        Option<Fail>)
        requires
            ready(cx@, old(self)@.memo, d),
            expr_size(e@) < n,
        ensures
            (final(self)@, opt_fail(r)) == r_let(cx@, knot(cx@, d, n), old(self)@, s@, id, e@),
            keeps(old(self)@, final(self)@),
            r is None ==> stays(old(self)@, final(self)@),
        decreases d, n, 3int,
    {
        proof {
            reveal(r_let);
        }
        self.recognise(cx, s);
        let r = self.part(cx, e, Ghost(d), Ghost(n));
        if r.is_some() {
            return r;
        }
        self.bind(cx, id, e);
        None
    }

    /// A new array of `n` elements is written once.
    fn make(&mut self, cx: &Cx, id: usize, n: Poly)
        ensures
            final(self)@ == made(cx@, old(self)@, id, n@),
            stays(old(self)@, final(self)@),
    {
        let es = cx.elem_bytes(id);
        self.stream(&n, es);
        self.sizes.put(id, n);
        self.roots.put(id, id);
    }

    fn build(
        &mut self,
        cx: &Cx<'a>,
        id: usize,
        len: &'a Expr,
        var: usize,
        body: &'a Block,
        Ghost(d): Ghost<nat>,
        Ghost(n): Ghost<nat>,
    ) -> (r: Option<Fail>)
        requires
            ready(cx@, old(self)@.memo, d),
            expr_size(len@) < n,
            block_size(body@) < n,
        ensures
            (final(self)@, opt_fail(r)) == r_build(cx@, knot(cx@, d, n), old(self)@, id, len@, var, body@),
            keeps(old(self)@, final(self)@),
            r is None ==> stays(old(self)@, final(self)@),
        decreases d, n, 4int,
    {
        proof {
            reveal(r_build);
            expr_parts(*len);
        }
        let r = self.part(cx, len, Ghost(d), Ghost(n));
        if r.is_some() {
            return r;
        }
        match self.size_of(cx, len, true, false) {
            None => stop(cat3("the length of `", &cx.name(id), "` is not a size expression"), len.line),
            Some(size) => {
                self.make(cx, id, size.copy());
                let atom = self.names.len();
                let zero = Affine::constant(Poly::zero());
                let lp = Loop {
                    id: 0,
                    var: Some(var),
                    atom: Some(atom),
                    trip: size,
                    lo: Poly::zero(),
                    step: 1,
                    offset: Some(zero),
                };
                self.new_atom(cx.name(var));
                self.run_loop(cx, lp, 3, body, Ghost(d), Ghost(n))
            },
        }
    }

    fn repeat(&mut self, cx: &Cx<'a>, id: usize, e: &'a Expr, m: &'a Expr, Ghost(d): Ghost<nat>, Ghost(n): Ghost<nat>) -> (r:
        Option<Fail>)
        requires
            ready(cx@, old(self)@.memo, d),
            expr_size(e@) < n,
            expr_size(m@) < n,
        ensures
            (final(self)@, opt_fail(r)) == r_repeat(cx@, knot(cx@, d, n), old(self)@, id, e@, m@),
            keeps(old(self)@, final(self)@),
            r is None ==> stays(old(self)@, final(self)@),
        decreases d, n, 3int,
    {
        proof {
            reveal(r_repeat);
            expr_parts(*m);
        }
        let r = self.part(cx, e, Ghost(d), Ghost(n));
        if r.is_some() {
            return r;
        }
        let r = self.part(cx, m, Ghost(d), Ghost(n));
        if r.is_some() {
            return r;
        }
        match self.size_of(cx, m, true, false) {
            None => stop(cat3("the length of `", &cx.name(id), "` is not a size expression"), m.line),
            Some(size) => {
                self.add_work(&size);
                self.make(cx, id, size);
                None
            },
        }
    }

    fn array(&mut self, cx: &Cx<'a>, id: usize, elems: &'a Vec<Expr>, Ghost(d): Ghost<nat>, Ghost(n): Ghost<nat>) -> (r: Option<
        Fail,
    >)
        requires
            ready(cx@, old(self)@.memo, d),
            exprs_size(views(elems@)) < n,
        ensures
            (final(self)@, opt_fail(r)) == r_array(cx@, knot(cx@, d, n), old(self)@, id, views(elems@)),
            keeps(old(self)@, final(self)@),
            r is None ==> stays(old(self)@, final(self)@),
        decreases d, n, 3int,
    {
        proof {
            reveal(r_array);
        }
        let r = self.parts(cx, elems, Ghost(d), Ghost(n));
        if r.is_some() {
            return r;
        }
        let k = Poly::constant(elems.len() as i128);
        self.add_work(&k);
        self.make(cx, id, k);
        None
    }

    fn store(
        &mut self,
        cx: &Cx<'a>,
        arr: usize,
        idx: &'a Expr,
        field: Option<usize>,
        op: &Option<BinOp>,
        Ghost(d): Ghost<nat>,
        Ghost(n): Ghost<nat>,
    ) -> (r: Option<Fail>)
        requires
            ready(cx@, old(self)@.memo, d),
            expr_size(idx@) < n,
        ensures
            (final(self)@, opt_fail(r)) == store(cx@, knot(cx@, d, n), old(self)@, arr, idx@, field, *op),
            keeps(old(self)@, final(self)@),
            r is None ==> stays(old(self)@, final(self)@),
        decreases d, n, 2int,
    {
        let r = self.part(cx, idx, Ghost(d), Ghost(n));
        if r.is_some() {
            return r;
        }
        self.add_work_n(
            if op.is_some() {
                3
            } else {
                1
            },
        );
        self.access(cx, arr, idx, field);
        None
    }

    fn reassign(&mut self, cx: &Cx, v: usize, op: &Option<BinOp>, e: &Expr)
        ensures
            final(self)@ == reassigned(cx@, old(self)@, v, *op, e@),
            stays(old(self)@, final(self)@),
    {
        if cx.is_i64(v) {
            let val = if op.is_none() && self.loops.len() == 0 {
                values_of(self.size_of(cx, e, true, false))
            } else {
                Values { of: None }
            };
            self.initial.put(v, val);
        }
    }

    fn assign(
        &mut self,
        cx: &Cx<'a>,
        s: &'a Stmt,
        lv: &'a LValue,
        op: &Option<BinOp>,
        e: &'a Expr,
        Ghost(d): Ghost<nat>,
        Ghost(n): Ghost<nat>,
    ) -> (r: Option<Fail>)
        requires
            ready(cx@, old(self)@.memo, d),
            expr_size(e@) < n,
            match lv@ {
                LValueV::Index(_, i, _) => expr_size(i) < n,
                LValueV::IndexField(_, i, _, _) => expr_size(i) < n,
                _ => true,
            },
        ensures
            (final(self)@, opt_fail(r)) == r_assign(cx@, knot(cx@, d, n), old(self)@, s@, lv@, *op, e@),
            keeps(old(self)@, final(self)@),
            r is None ==> stays(old(self)@, final(self)@),
        decreases d, n, 3int,
    {
        proof {
            reveal(r_assign);
            lvalue_parts(*lv);
        }
        self.recognise(cx, s);
        let r = self.part(cx, e, Ghost(d), Ghost(n));
        if r.is_some() {
            return r;
        }
        let register: i128 = if op.is_some() {
            1
        } else {
            0
        };
        match lv {
            LValue::Var(v) => {
                self.reassign(cx, *v, op, e);
                self.add_work_n(register);
                None
            },
            LValue::Index(arr, idx, _) => self.store(cx, *arr, idx, None, op, Ghost(d), Ghost(n)),
            LValue::Field(..) => {
                self.add_work_n(register);
                None
            },
            LValue::IndexField(arr, idx, fi, _) => self.store(cx, *arr, idx, Some(*fi), op, Ghost(d), Ghost(n)),
        }
    }

    fn trip_of(&self, start: &Expr, end: &Expr, lo: &Poly, hi: &Poly) -> (r: Poly)
        ensures
            r@ == for_trip(self@, start@, end@, lo@, hi@),
    {
        let trip = match (self.affine(start), self.affine(end)) {
            (Some(l), Some(h)) => {
                let gap = h.add(&l.scale(&Poly::constant(-1)));
                if gap.is_const() {
                    gap.konst
                } else {
                    hi.sub(lo)
                }
            },
            _ => hi.sub(lo),
        };
        match trip.as_const() {
            Some(c) => {
                if c.is_negative() {
                    Poly::zero()
                } else {
                    trip
                }
            },
            None => trip,
        }
    }

    fn for_loop(
        &mut self,
        cx: &Cx<'a>,
        var: usize,
        start: &'a Expr,
        end: &'a Expr,
        body: &'a Block,
        Ghost(d): Ghost<nat>,
        Ghost(n): Ghost<nat>,
    ) -> (r: Option<Fail>)
        requires
            ready(cx@, old(self)@.memo, d),
            expr_size(start@) < n,
            expr_size(end@) < n,
            block_size(body@) < n,
        ensures
            (final(self)@, opt_fail(r)) == r_for(cx@, knot(cx@, d, n), old(self)@, var, start@, end@, body@),
            keeps(old(self)@, final(self)@),
            r is None ==> stays(old(self)@, final(self)@),
        decreases d, n, 4int,
    {
        proof {
            reveal(r_for);
            expr_parts(*start);
            expr_parts(*end);
        }
        let r = self.part(cx, start, Ghost(d), Ghost(n));
        if r.is_some() {
            return r;
        }
        let r = self.part(cx, end, Ghost(d), Ghost(n));
        if r.is_some() {
            return r;
        }
        match (self.size_of(cx, start, false, false), self.size_of(cx, end, true, false)) {
            (Some(lo), Some(hi)) => {
                let trip = self.trip_of(start, end, &lo, &hi);
                let offset = self.affine(start);
                let atom = self.names.len();
                let lp = Loop { id: 0, var: Some(var), atom: Some(atom), trip, lo, step: 1, offset };
                self.new_atom(cx.name(var));
                self.run_loop(cx, lp, 2, body, Ghost(d), Ghost(n))
            },
            _ => {
                let line = if start.line < end.line {
                    end.line
                } else {
                    start.line
                };
                stop("loop bound is not a size expression".to_owned(), line)
            },
        }
    }

    fn measure(&self, cx: &Cx, cond: &Expr, m: &Expr, body: &Block) -> (r: Result<Poly, String>)
        ensures
            (match r {
                Ok(p) => Ok(p@),
                Err(e) => Err(e@),
            }) == measured(cx@, self@, cond@, m@, body@),
    {
        proof {
            reveal(measured);
        }
        match self.size_of(cx, m, true, true) {
            None => Err(
                "the `decreasing` measure is not a size expression — it reads memory or a value the compiler cannot follow — so this loop has no static bound; `neant measure` can fit one".to_owned(),
            ),
            Some(v) => match min_decrease(m, cond, body) {
                Some(fall) => {
                    if fall.side(&BigInt::from_i128(1)) != Side::Before {
                        Ok(v)
                    } else {
                        Err(
                            cat2(
                                "the `decreasing` measure is not shown to decrease: there is a path through the body along which it changes by ",
                                &show_fall(&fall),
                            ),
                        )
                    }
                },
                None => Err(
                    "the `decreasing` measure is not shown to decrease: the body changes one of its variables in a way the compiler cannot follow".to_owned(),
                ),
            },
        }
    }

    fn while_loop(
        &mut self,
        cx: &Cx<'a>,
        cond: &'a Expr,
        decreasing: &'a Option<Expr>,
        body: &'a Block,
        line: u32,
        Ghost(d): Ghost<nat>,
        Ghost(n): Ghost<nat>,
    ) -> (r: Option<Fail>)
        requires
            ready(cx@, old(self)@.memo, d),
            expr_size(cond@) < n,
            *decreasing is Some ==> expr_size((*decreasing)->0@) < n,
            block_size(body@) < n,
        ensures
            (final(self)@, opt_fail(r)) == r_while(
                cx@,
                knot(cx@, d, n),
                old(self)@,
                cond@,
                opt_view(*decreasing),
                body@,
                line,
            ),
            keeps(old(self)@, final(self)@),
            r is None ==> stays(old(self)@, final(self)@),
        decreases d, n, 4int,
    {
        proof {
            reveal(r_while);
        }
        let r = self.part(cx, cond, Ghost(d), Ghost(n));
        if r.is_some() {
            return r;
        }
        match decreasing {
            Some(m) => {
                proof {
                    expr_parts(*m);
                }
                let r = self.part(cx, m, Ghost(d), Ghost(n));
                if r.is_some() {
                    return r;
                }
                match self.measure(cx, cond, m, body) {
                    Err(e) => stop(e, m.line),
                    Ok(trip) => {
                        let lp = Loop { id: 0, var: None, atom: None, trip, lo: Poly::zero(), step: 1, offset: None };
                        self.run_loop(cx, lp, 1, body, Ghost(d), Ghost(n))
                    },
                }
            },
            None => match self.induction(cx, cond, body) {
                Err(e) => stop(e, line),
                Ok(i) => {
                    let atom = self.names.len();
                    let offset = Affine::constant(i.from.copy());
                    let lp = Loop {
                        id: 0,
                        var: Some(i.var),
                        atom: Some(atom),
                        trip: i.trip,
                        lo: i.from,
                        step: i.step,
                        offset: Some(offset),
                    };
                    self.new_atom(cx.name(i.var));
                    self.run_loop(cx, lp, 1, body, Ghost(d), Ghost(n))
                },
            },
        }
    }

    /// The trip count of a `while` from its induction variable.
    fn induction(&self, cx: &Cx, cond: &Expr, body: &Block) -> (r: Result<Induction, String>)
        ensures
            (match r {
                Ok(i) => Ok(i@),
                Err(e) => Err(e@),
            }) == induction(cx@, self@, cond@, body@),
    {
        proof {
            reveal(induction);
        }
        let ask =
            "`while` has no measure the compiler can find; write `while cond decreasing <expr>` with an `i64` that goes down by at least one every iteration".to_owned();
        let (var, bound, up) = match variable(cx, cond, body) {
            Some(x) => x,
            None => {
                return Err(ask);
            },
        };
        if !cx.is_mutable(var) || !cx.is_i64(var) {
            return Err(ask);
        }
        let name = cx.name(var);
        let step = match single_step(body, var) {
            Some(s) => s,
            None => {
                return Err(
                    cat4(
                        "`",
                        &name,
                        "` is compared in the `while` condition but is not stepped by a constant exactly once in the body; ",
                        &ask,
                    ),
                );
            },
        };
        if (up && step <= 0) || (!up && step >= 0) {
            return Err(cat4("`", &name, "` steps away from its bound; ", &ask));
        }
        if assigns_bound(body, var, bound) {
            return Err(cat4("the bound of `", &name, "` is assigned inside the body; ", &ask));
        }
        let e = match self.size_of(cx, bound, up, false) {
            Some(p) => p,
            None => {
                return Err(cat4("the bound of `", &name, "` is not a size expression; ", &ask));
            },
        };
        match self.initial.get(var) {
            Some(v) => match &v.of {
                Some(vs) => {
                    if vs.len() == 1 {
                        assert(views(vs@)[0] == vs@[0]@);
                        let span = if up {
                            e.sub(&vs[0])
                        } else {
                            vs[0].sub(&e)
                        };
                        let size = if step < 0 {
                            Rat::integer(step).neg()
                        } else {
                            Rat::integer(step)
                        };
                        Ok(
                            Induction {
                                trip: span.scale(&Rat::one().over(&size)),
                                var,
                                from: vs[0].copy(),
                                step,
                            },
                        )
                    } else {
                        let n: usize = vs.len();
                        Err(
                            cat5(
                                "`",
                                &name,
                                "` may hold any of ",
                                &show_u64(n as u64),
                                " values on entry, one per path that defines it; a single value is needed until `max` is in the cost algebra",
                            ),
                        )
                    }
                },
                None => Err(
                    cat3("`", &name, "` is assigned inside a loop before this one, so its entry value is not known"),
                ),
            },
            None => Err(
                cat3("`", &name, "` is assigned inside a loop before this one, so its entry value is not known"),
            ),
        }
    }
}

/// An induction variable: the trip count, and the variable with its entry value and step.
#[derive(Debug)]
pub struct Induction {
    pub trip: Poly,
    pub var: usize,
    pub from: Poly,
    pub step: i128,
}

impl View for Induction {
    type V = InductionV;

    open spec fn view(&self) -> InductionV {
        InductionV { trip: self.trip@, var: self.var, from: self.from@, step: self.step as int }
    }
}

fn comparison<'e>(cond: &'e Expr) -> (r: Option<(usize, &'e Expr, bool)>)
    ensures
        (match r {
            Some(x) => Some((x.0, x.1@, x.2)),
            None => None,
        }) == compared(cond@),
{
    proof {
        expr_parts(*cond);
    }
    match &cond.kind {
        ExprKind::Binary(op, l, r) => {
            proof {
                expr_parts(**l);
                expr_parts(**r);
            }
            let up = matches!(op, BinOp::Lt | BinOp::Le | BinOp::Ne);
            let down = matches!(op, BinOp::Gt | BinOp::Ge);
            let less = matches!(op, BinOp::Lt | BinOp::Le);
            match (&l.kind, &r.kind) {
                (ExprKind::Local(a), ExprKind::Local(b)) => {
                    if up {
                        Some((*a, &**r, true))
                    } else if down {
                        Some((*b, &**l, true))
                    } else {
                        None
                    }
                },
                (ExprKind::Local(a), _) => {
                    if up {
                        Some((*a, &**r, true))
                    } else if down {
                        Some((*a, &**r, false))
                    } else {
                        None
                    }
                },
                (_, ExprKind::Local(b)) => {
                    if down {
                        Some((*b, &**l, true))
                    } else if less {
                        Some((*b, &**l, false))
                    } else {
                        None
                    }
                },
                _ => None,
            }
        },
        _ => None,
    }
}

fn is_stepped(cx: &Cx, l: usize, body: &Block) -> (r: bool)
    ensures
        r == stepped(cx@.f, l, body@),
{
    cx.is_mutable(l) && cx.is_i64(l) && single_step(body, l).is_some()
}

fn mirror<'e>(cond: &'e Expr) -> (r: Option<(usize, &'e Expr, bool)>)
    ensures
        (match r {
            Some(x) => Some((x.0, x.1@, x.2)),
            None => None,
        }) == mirrored(cond@),
{
    proof {
        expr_parts(*cond);
    }
    match &cond.kind {
        ExprKind::Binary(op, l, r) => {
            proof {
                expr_parts(**l);
                expr_parts(**r);
            }
            match (&l.kind, &r.kind) {
                (ExprKind::Local(a), ExprKind::Local(b)) => {
                    if matches!(op, BinOp::Gt | BinOp::Ge) {
                        Some((*a, &**r, false))
                    } else if matches!(op, BinOp::Lt | BinOp::Le) {
                        Some((*b, &**l, false))
                    } else {
                        None
                    }
                },
                _ => None,
            }
        },
        _ => None,
    }
}

fn variable<'e>(cx: &Cx, cond: &'e Expr, body: &Block) -> (r: Option<(usize, &'e Expr, bool)>)
    ensures
        (match r {
            Some(x) => Some((x.0, x.1@, x.2)),
            None => None,
        }) == variable_of(cx@.f, cond@, body@),
{
    match (comparison(cond), mirror(cond)) {
        (Some(a), Some(b)) => {
            if !is_stepped(cx, a.0, body) && is_stepped(cx, b.0, body) {
                Some(b)
            } else {
                Some(a)
            }
        },
        (x, _) => x,
    }
}

fn values_of(p: Option<Poly>) -> (r: Values)
    ensures
        r@ == as_values(opt_poly(p)),
{
    match p {
        Some(x) => {
            let mut v: Vec<Poly> = Vec::new();
            v.push(x);
            assert(views(v@) =~= seq![x@]);
            Values { of: Some(v) }
        },
        None => Values { of: None },
    }
}

fn show_fall(d: &BigInt) -> (r: String)
    ensures
        r@ == fall_text(d@),
{
    if d.is_zero() {
        "0".to_owned()
    } else if d.is_negative() {
        cat2("+", &show_int(&d.negated()))
    } else {
        cat2("−", &show_int(d))
    }
}

proof fn stmts_stop(cx: CxV, ev: Ev, w: WalkV, s: Seq<StmtV>, n: nat, m: nat)
    requires
        n <= m,
        stmts_walk(cx, ev, w, s, n).1 is Some,
    ensures
        stmts_walk(cx, ev, w, s, m) == stmts_walk(cx, ev, w, s, n),
    decreases m - n,
{
    if n < m {
        assert(stmts_walk(cx, ev, w, s, n + 1) == stmts_walk(cx, ev, w, s, n));
        stmts_stop(cx, ev, w, s, n + 1, m);
    }
}

proof fn exprs_stop(ev: Ev, w: WalkV, s: Seq<ExprV>, n: nat, m: nat)
    requires
        n <= m,
        exprs_walk(ev, w, s, n).1 is Some,
    ensures
        exprs_walk(ev, w, s, m) == exprs_walk(ev, w, s, n),
    decreases m - n,
{
    if n < m {
        assert(exprs_walk(ev, w, s, n + 1) == exprs_walk(ev, w, s, n));
        exprs_stop(ev, w, s, n + 1, m);
    }
}

/// A copy of what mutable locals may hold.
#[verifier::loop_isolation(false)]
fn copy_values(t: &Table<Values>) -> (r: Table<Values>)
    ensures
        r@ == t@,
{
    let ids = t.ids();
    let mut r: Table<Values> = Table::new();
    let mut i: usize = 0;
    while i < ids.len()
        invariant
            i <= ids@.len(),
            forall|k: usize| #[trigger] r@(k) == (if ids@.take(i as int).contains(k) { t@(k) } else { None }),
        decreases ids@.len() - i,
    {
        let k = ids[i];
        proof {
            assert forall|j: usize|
                ids@.take(i + 1).contains(j) == (ids@.take(i as int).contains(j) || j == k) by {
                assert(ids@.take(i + 1) =~= ids@.take(i as int).push(k));
                if ids@.take(i as int).contains(j) {
                    let x = choose|x: int| 0 <= x < i && ids@.take(i as int)[x] == j;
                    assert(ids@.take(i + 1)[x] == j);
                }
                if j == k {
                    assert(ids@.take(i + 1)[i as int] == j);
                }
            }
        }
        match t.get(k) {
            Some(v) => {
                r.put(k, v.copy());
            },
            None => {},
        }
        i += 1;
    }
    proof {
        assert(ids@.take(i as int) =~= ids@);
        assert forall|k: usize| #[trigger] r@(k) == t@(k) by {}
        assert(r@ =~= t@);
    }
    r
}

#[verifier::loop_isolation(false)]
fn with_polys(a: &Vec<Poly>, b: &Vec<Poly>) -> (r: Vec<Poly>)
    ensures
        views(r@) == with_all_new(views(a@), views(b@)),
{
    let ghost av = views(a@);
    let ghost bv = views(b@);
    let mut r = crate::cost::scope::copy_polys(a);
    let mut i: usize = 0;
    assert(bv.take(0) =~= Seq::empty());
    while i < b.len()
        invariant
            i <= b@.len(),
            views(r@) == with_all_new(av, bv.take(i as int)),
        decreases b@.len() - i,
    {
        assert(bv.take(i + 1).drop_last() =~= bv.take(i as int));
        assert(bv.take(i + 1).last() == b@[i as int]@);
        if !has_poly(&r, &b[i]) {
            let p = b[i].copy();
            assert(views(r@.push(p)) =~= views(r@).push(p@));
            r.push(p);
        }
        i += 1;
    }
    assert(bv.take(i as int) =~= bv);
    r
}

fn has_poly(s: &Vec<Poly>, p: &Poly) -> (r: bool)
    ensures
        r == views(s@).contains(p@),
{
    let ghost v = views(s@);
    let mut i: usize = 0;
    while i < s.len()
        invariant
            i <= s@.len(),
            v == views(s@),
            forall|j: int| 0 <= j < i ==> #[trigger] v[j] != p@,
        decreases s@.len() - i,
    {
        assert(v[i as int] == s@[i as int]@);
        if s[i].same(p) {
            return true;
        }
        i += 1;
    }
    false
}

/// A local defined differently on the two sides may hold either value after.
#[verifier::loop_isolation(false)]
fn merge_values(t: &Table<Values>, e: &mut Table<Values>)
    ensures
        final(e)@ == merged(t@, old(e)@),
{
    let ghost start = e@;
    let ids = t.ids();
    let mut i: usize = 0;
    while i < ids.len()
        invariant
            i <= ids@.len(),
            forall|k: usize|
                #[trigger] e@(k) == (if ids@.take(i as int).contains(k) { (merged(t@, start))(k) } else { start(k) }),
        decreases ids@.len() - i,
    {
        let k = ids[i];
        proof {
            assert forall|j: usize|
                ids@.take(i + 1).contains(j) == (ids@.take(i as int).contains(j) || j == k) by {
                assert(ids@.take(i + 1) =~= ids@.take(i as int).push(k));
                if ids@.take(i as int).contains(j) {
                    let x = choose|x: int| 0 <= x < i && ids@.take(i as int)[x] == j;
                    assert(ids@.take(i + 1)[x] == j);
                }
                if j == k {
                    assert(ids@.take(i + 1)[i as int] == j);
                }
            }
            if ids@.take(i as int).contains(k) {
                let x = choose|x: int| 0 <= x < i && ids@.take(i as int)[x] == k;
                assert(ids@[x] == ids@[i as int]);
            }
        }
        match t.get(k) {
            Some(tv) => {
                let both: Option<Vec<Poly>> = match (&tv.of, e.get(k)) {
                    (Some(a), Some(ev)) => match &ev.of {
                        Some(b) => Some(with_polys(a, b)),
                        None => None,
                    },
                    _ => None,
                };
                e.put(k, Values { of: both });
            },
            None => {},
        }
        i += 1;
    }
    proof {
        assert(ids@.take(i as int) =~= ids@);
        assert(e@ =~= merged(t@, start));
    }
}

// ---- functions ----

fn name_of_param(cx: &Cx, i: usize) -> (r: String)
    requires
        i < cx.f.params@.len(),
    ensures
        r@ == param_name(cx@.f, i as int),
{
    let p = cx.f.params[i];
    if cx.is_arrayish(p) {
        cat2(&cx.name(p), ".len()")
    } else {
        cx.name(p)
    }
}

#[verifier::loop_isolation(false)]
fn names_of_params(cx: &Cx) -> (r: Vec<String>)
    ensures
        texts(r@) == param_names(cx@.f),
{
    let mut r: Vec<String> = Vec::new();
    let mut i: usize = 0;
    while i < cx.f.params.len()
        invariant
            i <= cx.f.params@.len(),
            r@.len() == i,
            forall|j: int| 0 <= j < i ==> (#[trigger] r@[j])@ == param_name(cx@.f, j),
        decreases cx.f.params@.len() - i,
    {
        let s = name_of_param(cx, i);
        r.push(s);
        i += 1;
    }
    assert(texts(r@) =~= param_names(cx@.f));
    r
}

/// The state before a function's body is walked.
#[verifier::loop_isolation(false)]
fn fresh_walk<'a>(cx: &Cx<'a>, memo: Memo) -> (r: Walk<'a>)
    ensures
        r@ == fresh(cx@.f, memo@),
{
    proof {
        reveal(fresh);
    }
    let mut sizes: Table<Poly> = Table::new();
    let mut roots: Table<usize> = Table::new();
    let mut affines: Table<Affine> = Table::new();
    let mut i: usize = 0;
    while i < cx.f.params.len()
        invariant
            i <= cx.f.params@.len(),
            sizes@ == params_sizes(cx@.f, i as nat),
            roots@ == params_roots(cx@.f, i as nat),
            affines@ == params_affines(cx@.f, i as nat),
        decreases cx.f.params@.len() - i,
    {
        let p = cx.f.params[i];
        if cx.is_arrayish(p) {
            sizes.put(p, Poly::var(i));
            roots.put(p, p);
        }
        if cx.is_i64(p) {
            affines.put(p, Affine::constant(Poly::var(i)));
        }
        i += 1;
    }
    let w = Walk {
        names: names_of_params(cx),
        sites: Vec::new(),
        recs: Vec::new(),
        bounds: Vec::new(),
        images: Vec::new(),
        aliases: Table::new(),
        notes: Vec::new(),
        io: false,
        self_calls: Vec::new(),
        sizes,
        affines,
        initial: Table::new(),
        roots,
        loops: Vec::new(),
        work: Cost::zero(),
        moves: Cost::zero(),
        calls: Cost::zero(),
        called: false,
        branch: Vec::new(),
        next_if: 0,
        resident: Vec::new(),
        replay: false,
        rests_on: Vec::new(),
        memo,
    };
    proof {
        let v = w@;
        assert(v.sites =~= Seq::empty());
        assert(v.recs =~= Seq::empty());
        assert(v.bounds =~= Seq::empty());
        assert(v.images =~= Seq::empty());
        assert(v.notes =~= Seq::empty());
        assert(v.self_calls =~= Seq::empty());
        assert(v.loops =~= Seq::empty());
        assert(v.branch =~= Seq::empty());
        assert(v.resident =~= Seq::empty());
        assert(v.rests_on =~= Seq::empty());
    }
    w
}

#[verifier::loop_isolation(false)]
fn declared_effects(uses: &Vec<String>) -> (r: Vec<String>)
    ensures
        texts(r@) == io_uses(texts(uses@), uses@.len()),
{
    let ghost v = texts(uses@);
    let mut r: Vec<String> = Vec::new();
    let mut n: usize = 0;
    assert(texts(r@) =~= Seq::empty());
    while n < uses.len()
        invariant
            n <= uses@.len(),
            texts(r@) == io_uses(v, n as nat),
        decreases uses@.len() - n,
    {
        assert(v[n as int] == uses@[n as int]@);
        if uses[n] == "io".to_owned() || uses[n] == "unbounded".to_owned() {
            let s = copy_text(&uses[n]);
            assert(texts(r@.push(s)) =~= texts(r@).push(s@));
            r.push(s);
        }
        n += 1;
    }
    r
}

fn cost_of_declaration(cx: &Cx, declared: Declared, wrong: Vec<String>) -> (r: FuncCost)
    ensures
        r@ == declaration_cost(cx@.f, declared@, texts(wrong@)),
        r@.name == cx@.f.name,
{
    proof {
        reveal(declaration_cost);
    }
    let effects = declared_effects(&cx.f.uses);
    let result = match (&declared.work, &declared.moves) {
        (Some(w), Some(m)) => CostResult::Exact { work: Cost::poly(w.copy()), moves: Cost::poly(m.copy()) },
        _ => {
            let reason = if has_text(&effects, &"unbounded".to_owned()) {
                "declared unbounded".to_owned()
            } else {
                "an extern needs `#[cost(work_at_most = …, moves_at_most = …)]` or `uses unbounded`".to_owned()
            };
            CostResult::Unknown { reason, line: cx.f.line }
        },
    };
    let r = FuncCost {
        name: copy_text(&cx.f.name),
        names: names_of_params(cx),
        result,
        bounds: Vec::new(),
        notes: Vec::new(),
        suggestions: Vec::new(),
        effects,
        tier: "declared".to_owned(),
        violations: wrong,
        footprint: Vec::new(),
        resident: None,
        declared,
        rests_on: Vec::new(),
    };
    proof {
        let v = r@;
        assert(v.bounds =~= Seq::empty());
        assert(v.notes =~= Seq::empty());
        assert(v.suggestions =~= Seq::empty());
        assert(v.footprint =~= Seq::empty());
        assert(v.rests_on =~= Seq::empty());
    }
    r
}

fn cost_of_cycle(cx: &Cx) -> (r: FuncCost)
    ensures
        r@ == cyclic(cx@.f),
{
    let r = FuncCost {
        name: copy_text(&cx.f.name),
        names: names_of_params(cx),
        result: CostResult::Unknown {
            reason: "mutually recursive with another function; only self-recursion is solved".to_owned(),
            line: cx.f.line,
        },
        bounds: Vec::new(),
        notes: Vec::new(),
        suggestions: Vec::new(),
        effects: Vec::new(),
        tier: "unknown".to_owned(),
        violations: Vec::new(),
        footprint: Vec::new(),
        resident: None,
        declared: Declared::none(),
        rests_on: Vec::new(),
    };
    proof {
        let v = r@;
        assert(v.bounds =~= Seq::empty());
        assert(v.notes =~= Seq::empty());
        assert(v.suggestions =~= Seq::empty());
        assert(v.effects =~= Seq::empty());
        assert(v.violations =~= Seq::empty());
        assert(v.footprint =~= Seq::empty());
        assert(v.rests_on =~= Seq::empty());
    }
    r
}

impl<'a> Walk<'a> {
    /// The cost that the walk found.
    fn result(&self, cx: &Cx) -> (r: CostResult)
        requires
            cx.k.ok(),
        ensures
            r@ == walk_result(cx@, self@),
    {
        proof {
            reveal(walk_result);
        }
        let mut work = self.work.copy();
        work.prune_at(&cx.k);
        let mut moves = self.moves.add(&settle_moves(&cx.k, &self.sites, &self.recs)).add(&self.calls);
        moves.prune_at(&cx.k);
        if self.self_calls.len() == 0 {
            return CostResult::Exact { work, moves };
        }
        match solve_recurrence(cx, &self.names, &self.self_calls, &work, &moves) {
            Ok((a, b)) => CostResult::Exact { work: a, moves: b },
            Err(reason) => {
                assert(self@.self_calls[0] == self.self_calls@[0]@);
                CostResult::Unknown { reason, line: self.self_calls[0].line }
            },
        }
    }

    #[verifier::loop_isolation(false)]
    fn image_total(&self, cx: &Cx) -> (r: Poly)
        ensures
            r@ == images_bytes(cx@.f, self@.images, self@.images.len()),
    {
        let ghost v = self@.images;
        let mut total = Poly::zero();
        let mut n: usize = 0;
        while n < self.images.len()
            invariant
                n <= self.images@.len(),
                total@ == images_bytes(cx@.f, v, n as nat),
            decreases self.images@.len() - n,
        {
            assert(v[n as int] == self.images@[n as int]@);
            if has_id(&cx.f.params, self.images[n].root) {
                total = total.add(&self.images[n].bytes);
            }
            n += 1;
        }
        total
    }

    /// The bounds found with that of the footprint, the strongest first.
    fn all_bounds(&mut self, cx: &Cx)
        requires
            cx.k.ok(),
        ensures
            final(self)@ == (WalkV { bounds: final_bounds(cx@, old(self)@), ..old(self)@ }),
    {
        proof {
            reveal(final_bounds);
        }
        let foot = self.image_total(cx);
        if !foot.is_zero() {
            let b = Bound {
                kind: "footprint".to_owned(),
                citation: "every distinct element crosses once".to_owned(),
                moves: foot,
                line: cx.f.line,
                cold: true,
            };
            assert(bounds_v(self.bounds@.push(b)) =~= bounds_v(self.bounds@).push(b@));
            self.bounds.push(b);
        }
        strongest_first(&mut self.bounds, &cx.k);
    }

    /// What is said of the function once its body is walked.
    fn finish(self, cx: &Cx, declared: Declared, wrong: Vec<String>, failed: Option<Fail>) -> (r: (FuncCost, Memo))
        requires
            cx.k.ok(),
        ensures
            r.0@ == body_cost(cx@, declared@, texts(wrong@), (self@, opt_fail(failed))),
            r.0@.name == cx@.f.name,
            r.1@ == self@.memo,
    {
        proof {
            reveal(body_cost);
        }
        let mut w = self;
        let solved = failed.is_none() && w.self_calls.len() > 0;
        let result = match failed {
            Some(f) => CostResult::Unknown { reason: f.reason, line: f.line },
            None => w.result(cx),
        };
        let (footprint, resident) = w.signature_footprint(cx);
        let mut violations = wrong;
        check_declaration(cx.f, &w.names, &cx.k, &declared, &result, &mut violations);
        w.all_bounds(cx);
        let mut effects: Vec<String> = Vec::new();
        if w.io {
            effects.push("io".to_owned());
            assert(texts(effects@) =~= seq!["io"@]);
        } else {
            assert(texts(effects@) =~= Seq::empty());
        }
        let tier = if solved {
            "recurrence".to_owned()
        } else {
            "exact".to_owned()
        };
        let c = FuncCost {
            name: copy_text(&cx.f.name),
            names: w.names,
            result,
            bounds: w.bounds,
            notes: w.notes,
            suggestions: Vec::new(),
            effects,
            tier,
            violations,
            footprint,
            resident,
            declared,
            rests_on: w.rests_on,
        };
        assert(c@.suggestions =~= Seq::empty());
        (c, w.memo)
    }
}

/// The cost of one function, and the functions analysed on the way.
pub fn run(cx: &Cx, memo: &mut Memo, Ghost(d): Ghost<nat>) -> (r: FuncCost)
    requires
        ready(cx@, old(memo)@, d),
    ensures
        (final(memo)@, r@) == r_run(cx@, knot(cx@, d, body_size(cx@.f)), old(memo)@),
        remembers(old(memo)@, final(memo)@),
        r@.name == cx@.f.name,
    decreases d, body_size(cx@.f), 9int,
{
    proof {
        reveal(r_run);
    }
    let names = names_of_params(cx);
    let read = read_declaration(cx.f, &names);
    match &cx.f.body {
        None => cost_of_declaration(cx, read.declared, read.wrong),
        Some(b) => {
            let mut own = Memo { done: Vec::new(), active: Vec::new(), names: Ghost(Seq::empty()) };
            core::mem::swap(&mut own, memo);
            let mut w = fresh_walk(cx, own);
            proof {
                reveal(fresh);
            }
            let failed = w.part_block(cx, b, Ghost(d), Ghost(body_size(cx@.f)));
            let (c, back) = w.finish(cx, read.declared, read.wrong, failed);
            *memo = back;
            c
        },
    }
}

/// The cost of a function of the module: as remembered, or found now.
pub fn func_cost(cx: &Cx, memo: &mut Memo, fid: usize, Ghost(d): Ghost<nat>) -> (r: FuncCost)
    requires
        ready(cx@, old(memo)@, d),
        fid < cx@.m.funcs.len(),
    ensures
        (final(memo)@, r@) == s_func(cx@, old(memo)@, fid),
        remembers(old(memo)@, final(memo)@),
        final(memo)@.done[fid as int] == Some(r@),
        r@.name == cx@.m.funcs[fid as int].name,
    decreases d, 0nat, 1int,
{
    proof {
        reveal(r_func);
        reveal(called);
    }
    let ghost m0 = memo@;
    let f = &cx.m.funcs[fid];
    assert(cx@.m.funcs[fid as int] == f@);
    match &memo.done[fid] {
        Some(c) => {
            assert(m0.done[fid as int] == Some(c@));
            return c.copy();
        },
        None => {
            assert(m0.done[fid as int] is None);
        },
    }
    let callee = Cx { m: cx.m, k: cx.k, f, own: Some(fid) };
    if memo.active[fid] {
        let c = cost_of_cycle(&callee);
        let kept = c.copy();
        memo.done.set(fid, Some(kept));
        assert(memo@.done =~= m0.done.update(fid as int, Some(c@)));
        return c;
    }
    memo.active.set(fid, true);
    assert(memo@ =~= begun(m0, fid));
    proof {
        begun_rests_less(m0, fid);
    }
    let c = run(&callee, memo, Ghost(resting(begun(m0, fid))));
    let ghost after = memo@;
    let kept = c.copy();
    memo.active.set(fid, false);
    memo.done.set(fid, Some(kept));
    proof {
        assert(memo@.done =~= after.done.update(fid as int, Some(c@)));
        assert(memo@.active =~= after.active.update(fid as int, false));
        assert(memo@.active =~= m0.active);
    }
    c
}

} // verus!
