//! What a call costs its caller.

use vstd::prelude::*;
use crate::ast::views;
use crate::cost::bounds::{bounds_v, Bound, BoundV};
use crate::cost::forms::opt_poly;
use crate::cost::piece::{conds_v, dominates, Cond, Cost, PieceV};
use crate::cost::rat::Rat;
use crate::cost::reading::size_of;
use crate::cost::rules::{
    all_received, argument, arguments, bounds_carried, call_of, called_self, callee_cost, charged, credit_one,
    credited, declared_only, feet_mention, notes_carried, overlap, residue, rests, shared, touched, view_source,
    ArgsV, FailV, TouchV,
};
use crate::cost::scope::{args_v, local_of, Cx, CxV, Res, SelfCall, Walk, WalkV};
use crate::cost::signature::{CostResult, Foot, FuncCost, FuncCostV};
use crate::cost::size::Poly;
use crate::cost::subst::{map_v, p_mentions, with_all_new, with_new};
use crate::cost::table::has_id;
use crate::cost::track::{opt_fail, stop, Fail};
use crate::cost::scope::stays;
use crate::ir::{expr_parts, Expr, ExprKind, ExprV, Func, FuncV};
use crate::text::{cat3, cat4, cat5, copy_text, has_text, show_u64, texts};
use crate::words::has_start;

verus! {

pub fn source_of(e: &Expr) -> (r: Option<usize>)
    ensures
        r == view_source(e@),
{
    proof {
        expr_parts(*e);
    }
    match &e.kind {
        ExprKind::Ref(s, _) => Some(*s),
        ExprKind::Local(s) => Some(*s),
        _ => None,
    }
}

fn param_arrayish(f: &Func, i: usize) -> (r: bool)
    requires
        i < f.params@.len(),
    ensures
        r == local_of(f@, f@.params[i as int]).ty.arrayish(),
{
    let p = f.params[i];
    if p < f.locals.len() {
        assert(f@.locals[p as int] == f.locals@[p as int]@);
        f.locals[p].ty.is_arrayish()
    } else {
        false
    }
}

fn say_once(out: &mut Vec<String>, s: String)
    ensures
        texts(final(out)@) == with_new(texts(old(out)@), s@),
{
    if !has_text(out, &s) {
        assert(texts(out@.push(s)) =~= texts(out@).push(s@));
        out.push(s);
    }
}

/// A range of one of the caller's arrays that the callee touches.
struct Touch {
    root: usize,
    lo: Poly,
    hi: Poly,
    exact: bool,
}

spec fn touch_v(t: Touch) -> TouchV {
    TouchV { root: t.root, lo: t.lo@, hi: t.hi@, exact: t.exact }
}

spec fn touches_v(s: Seq<Touch>) -> Seq<TouchV> {
    Seq::new(s.len(), |i: int| touch_v(s[i]))
}

struct Args {
    map: Vec<(usize, Poly)>,
    roots: Vec<Option<usize>>,
}

spec fn arguments_v(a: Args) -> ArgsV {
    ArgsV { map: map_v(a.map@), roots: a.roots@ }
}

impl<'a> Walk<'a> {
    fn argument(&self, cx: &Cx, callee: &Func, i: usize, a: &Expr) -> (r: (Option<Poly>, Option<usize>))
        requires
            i < callee.params@.len(),
        ensures
            (opt_poly(r.0), r.1) == argument(cx@, self@, callee@, i as int, a@),
    {
        if param_arrayish(callee, i) {
            match source_of(a) {
                Some(s) => {
                    let n = match self.sizes.get(s) {
                        Some(p) => Some(p.copy()),
                        None => None,
                    };
                    (n, Some(self.root(s)))
                },
                None => (None, None),
            }
        } else {
            (self.size_of(cx, a, true, false), None)
        }
    }

    #[verifier::loop_isolation(false)]
    pub(crate) fn call_self(&mut self, cx: &Cx, callee: &Func, args: &Vec<Expr>, line: u32)
        ensures
            final(self)@ == called_self(cx@, old(self)@, callee@, views(args@), line),
            stays(old(self)@, final(self)@),
    {
        proof {
            reveal(called_self);
        }
        if self.replay {
            return;
        }
        let ghost w = self@;
        let ghost av = views(args@);
        let n: usize = if args.len() < callee.params.len() {
            args.len()
        } else {
            callee.params.len()
        };
        let mut sizes: Vec<Option<Poly>> = Vec::new();
        let mut i: usize = 0;
        while i < n
            invariant
                i <= n,
                self@ == w,
                sizes@.len() == i,
                forall|j: int|
                    0 <= j < i ==> opt_poly(#[trigger] sizes@[j]) == argument(cx@, w, callee@, j, av[j]).0,
            decreases n - i,
        {
            assert(av[i as int] == args@[i as int]@);
            let (by, root) = self.argument(cx, callee, i, &args[i]);
            sizes.push(by);
            i += 1;
        }
        let x = SelfCall { args: sizes, times: self.times_here(), line };
        assert(args_v(sizes@) =~= Seq::new(shared(av, callee@), |i: int| argument(cx@, w, callee@, i, av[i]).0));
        assert(views(self.self_calls@.push(x)) =~= views(self.self_calls@).push(x@));
        self.self_calls.push(x);
    }

    #[verifier::loop_isolation(false)]
    fn arguments(&self, cx: &Cx, c: &FuncCost, work: &Cost, moves: &Cost, callee: &Func, args: &Vec<Expr>) -> (r: Result<
        Args,
        Fail,
    >)
        ensures
            (match r {
                Ok(a) => Ok(arguments_v(a)),
                Err(e) => Err((e.reason@, e.line)),
            }) == arguments(cx@, self@, c@, (work@, moves@), callee@, views(args@), shared(views(args@), callee@)),
    {
        let ghost av = views(args@);
        let ghost cost = (work@, moves@);
        let n: usize = if args.len() < callee.params.len() {
            args.len()
        } else {
            callee.params.len()
        };
        let mut map: Vec<(usize, Poly)> = Vec::new();
        let mut roots: Vec<Option<usize>> = Vec::new();
        let mut i: usize = 0;
        assert(map_v(map@) =~= Seq::empty());
        assert(roots@ =~= Seq::empty());
        while i < n
            invariant
                i <= n,
                arguments(cx@, self@, c@, cost, callee@, av, i as nat) == Ok::<ArgsV, FailV>(
                    ArgsV { map: map_v(map@), roots: roots@ },
                ),
            decreases n - i,
        {
            assert(av[i as int] == args@[i as int]@);
            let (by, root) = self.argument(cx, callee, i, &args[i]);
            match by {
                Some(b) => {
                    let ghost bv = b@;
                    assert(map_v(map@.push((i, b))) =~= map_v(map@).push((i, bv)));
                    map.push((i, b));
                },
                None => {
                    if work.mentions(i) || moves.mentions(i) || foot_mentions(&c.footprint, i) {
                        let head = cat5(
                            "argument ",
                            &show_u64(i as u64 + 1),
                            " to `",
                            &c.name,
                            "` is not a size expression, and `",
                        );
                        let reason = cat3(&head, &c.name, "`'s cost depends on it");
                        let line = args[i].line;
                        proof {
                            expr_parts(args@[i as int]);
                            assert(arguments(cx@, self@, c@, cost, callee@, av, (i + 1) as nat) == Err::<ArgsV, FailV>(
                                (reason@, line),
                            ));
                            arguments_stop(cx@, self@, c@, cost, callee@, av, (i + 1) as nat, n as nat);
                        }
                        return Err(Fail { reason, line });
                    }
                },
            }
            roots.push(root);
            i += 1;
        }
        Ok(Args { map, roots })
    }

    fn received(&self, cx: &Cx, args: &Vec<Expr>) -> (r: bool)
        ensures
            r == all_received(cx@, self@, views(args@)),
    {
        let ghost av = views(args@);
        let mut i: usize = 0;
        while i < args.len()
            invariant
                i <= args@.len(),
                av == views(args@),
                forall|j: int|
                    0 <= j < i ==> match view_source(#[trigger] av[j]) {
                        Some(s) => local_of(cx@.f, s).ty.arrayish() ==> cx@.f.params.contains(
                            crate::cost::recognise::root_of(self@.roots, s),
                        ),
                        None => true,
                    },
            decreases args@.len() - i,
        {
            assert(av[i as int] == args@[i as int]@);
            match source_of(&args[i]) {
                Some(s) => {
                    if cx.is_arrayish(s) && !has_id(&cx.f.params, self.root(s)) {
                        return false;
                    }
                },
                None => {},
            }
            i += 1;
        }
        true
    }
}

proof fn arguments_stop(
    cx: CxV,
    w: WalkV,
    c: FuncCostV,
    cost: (Seq<PieceV>, Seq<PieceV>),
    callee: FuncV,
    args: Seq<ExprV>,
    n: nat,
    m: nat,
)
    requires
        n <= m,
        arguments(cx, w, c, cost, callee, args, n) is Err,
    ensures
        arguments(cx, w, c, cost, callee, args, m) == arguments(cx, w, c, cost, callee, args, n),
    decreases m - n,
{
    if n < m {
        assert(arguments(cx, w, c, cost, callee, args, n + 1) == arguments(cx, w, c, cost, callee, args, n));
        arguments_stop(cx, w, c, cost, callee, args, n + 1, m);
    }
}

fn foot_mentions(s: &Vec<Foot>, i: usize) -> (r: bool)
    ensures
        r == feet_mention(views(s@), i as int),
{
    let ghost v = views(s@);
    let mut j: usize = 0;
    while j < s.len()
        invariant
            j <= s@.len(),
            v == views(s@),
            forall|n: int|
                0 <= n < j ==> !((#[trigger] v[n]).param == i || p_mentions(v[n].lo, i as int) || p_mentions(
                    v[n].hi,
                    i as int,
                )),
        decreases s@.len() - j,
    {
        assert(v[j as int] == s@[j as int]@);
        if s[j].param == i || s[j].lo.mentions(i) || s[j].hi.mentions(i) {
            return true;
        }
        j += 1;
    }
    false
}

#[verifier::loop_isolation(false)]
fn touched_by(s: &Vec<Foot>, a: &Args) -> (r: Vec<Touch>)
    ensures
        touches_v(r@) == touched(views(s@), arguments_v(*a), s@.len()),
{
    let ghost v = views(s@);
    let ghost av = arguments_v(*a);
    let mut out: Vec<Touch> = Vec::new();
    let mut n: usize = 0;
    assert(touches_v(out@) =~= Seq::empty());
    while n < s.len()
        invariant
            n <= s@.len(),
            touches_v(out@) == touched(v, av, n as nat),
        decreases s@.len() - n,
    {
        let f = &s[n];
        assert(v[n as int] == f@);
        if f.param < a.roots.len() {
            match a.roots[f.param] {
                Some(root) => {
                    let t = Touch { root, lo: f.lo.subst_many(&a.map), hi: f.hi.subst_many(&a.map), exact: f.exact };
                    assert(touches_v(out@.push(t)) =~= touches_v(out@).push(touch_v(t)));
                    out.push(t);
                },
                None => {},
            }
        }
        n += 1;
    }
    out
}

fn overlap_of(t: &Touch, r: &Res) -> (p: Option<Poly>)
    ensures
        opt_poly(p) == overlap(touch_v(*t), r@),
{
    if r.root != t.root {
        None
    } else if dominates(&t.lo, &r.lo) && dominates(&r.hi, &t.hi) {
        Some(t.hi.sub(&t.lo))
    } else if dominates(&r.lo, &t.lo) && dominates(&t.hi, &r.hi) {
        Some(r.hi.sub(&r.lo))
    } else {
        None
    }
}

#[verifier::loop_isolation(false)]
fn credit_touch(s: Cost, t: &Touch, res: &Vec<Res>) -> (r: Cost)
    ensures
        r@ == credit_one(s@, touch_v(*t), views(res@), res@.len()),
{
    let ghost v = views(res@);
    let ghost start = s@;
    let mut acc = s;
    let mut n: usize = 0;
    while n < res.len()
        invariant
            n <= res@.len(),
            acc@ == credit_one(start, touch_v(*t), v, n as nat),
        decreases res@.len() - n,
    {
        assert(v[n as int] == res@[n as int]@);
        match overlap_of(t, &res[n]) {
            Some(p) => {
                acc = acc.add_under(&res[n].conds, &p.scale(&Rat::integer(-1)));
            },
            None => {},
        }
        n += 1;
    }
    acc
}

#[verifier::loop_isolation(false)]
fn credit(s: Cost, ts: &Vec<Touch>, res: &Vec<Res>) -> (r: Cost)
    ensures
        r@ == credited(s@, touches_v(ts@), views(res@), ts@.len()),
{
    let ghost tv = touches_v(ts@);
    let ghost start = s@;
    let mut acc = s;
    let mut n: usize = 0;
    while n < ts.len()
        invariant
            n <= ts@.len(),
            acc@ == credited(start, tv, views(res@), n as nat),
        decreases ts@.len() - n,
    {
        assert(tv[n as int] == touch_v(ts@[n as int]));
        if ts[n].exact {
            acc = credit_touch(acc, &ts[n], res);
        }
        n += 1;
    }
    acc
}

#[verifier::loop_isolation(false)]
fn carry_bounds(out: &mut Vec<Bound>, s: &Vec<Bound>, map: &Vec<(usize, Poly)>, received: bool)
    ensures
        bounds_v(final(out)@) == bounds_v(old(out)@) + bounds_carried(bounds_v(s@), map_v(map@), received, s@.len()),
{
    let ghost start = bounds_v(out@);
    let ghost v = bounds_v(s@);
    let ghost mv = map_v(map@);
    let mut n: usize = 0;
    assert(start + Seq::<BoundV>::empty() =~= start);
    while n < s.len()
        invariant
            n <= s@.len(),
            bounds_v(out@) == start + bounds_carried(v, mv, received, n as nat),
        decreases s@.len() - n,
    {
        assert(v[n as int] == s@[n as int]@);
        if !(s[n].cold && !received) {
            let b = Bound {
                kind: copy_text(&s[n].kind),
                citation: copy_text(&s[n].citation),
                moves: s[n].moves.subst_many(map),
                line: s[n].line,
                cold: s[n].cold,
            };
            let ghost so_far = bounds_carried(v, mv, received, n as nat);
            assert(bounds_v(out@.push(b)) =~= bounds_v(out@).push(b@));
            assert((start + so_far).push(b@) =~= start + so_far.push(b@));
            out.push(b);
        }
        n += 1;
    }
}

#[verifier::loop_isolation(false)]
fn carry_notes(out: &mut Vec<String>, name: &String, notes: &Vec<String>)
    ensures
        texts(final(out)@) == notes_carried(texts(old(out)@), name@, texts(notes@), notes@.len()),
{
    let ghost start = texts(out@);
    let ghost v = texts(notes@);
    let mut n: usize = 0;
    while n < notes.len()
        invariant
            n <= notes@.len(),
            texts(out@) == notes_carried(start, name@, v, n as nat),
        decreases notes@.len() - n,
    {
        assert(v[n as int] == notes@[n as int]@);
        say_once(out, cat4("in `", name, "`: ", &notes[n]));
        n += 1;
    }
}

#[verifier::loop_isolation(false)]
fn residue_of(ts: &Vec<Touch>, c: &Cond) -> (r: Vec<Res>)
    ensures
        views(r@) == residue(touches_v(ts@), c@, ts@.len()),
{
    let ghost tv = touches_v(ts@);
    let mut out: Vec<Res> = Vec::new();
    let mut n: usize = 0;
    assert(views(out@) =~= Seq::empty());
    while n < ts.len()
        invariant
            n <= ts@.len(),
            views(out@) == residue(tv, c@, n as nat),
        decreases ts@.len() - n,
    {
        assert(tv[n as int] == touch_v(ts@[n as int]));
        if ts[n].exact {
            let mut conds: Vec<Cond> = Vec::new();
            conds.push(c.copy());
            assert(conds_v(conds@) =~= seq![c@]);
            let x = Res { root: ts[n].root, lo: ts[n].lo.copy(), hi: ts[n].hi.copy(), conds };
            assert(views(out@.push(x)) =~= views(out@).push(x@));
            out.push(x);
        }
        n += 1;
    }
    out
}

fn is_declared(c: &FuncCost) -> (r: bool)
    ensures
        r == declared_only(c@),
{
    c.declared.work.is_some() && c.declared.moves.is_some()
}

fn cost_of_callee(c: &FuncCost) -> (r: Result<(Cost, Cost), String>)
    ensures
        (match r {
            Ok(p) => Ok((p.0@, p.1@)),
            Err(e) => Err(e@),
        }) == callee_cost(c@),
{
    match (&c.declared.work, &c.declared.moves) {
        (Some(w), Some(m)) => Ok((Cost::poly(w.copy()), Cost::poly(m.copy()))),
        _ => match &c.result {
            CostResult::Exact { work, moves } => Ok((work.copy(), moves.copy())),
            CostResult::Unknown { reason, line } => {
                if has_start(reason, "calls `") {
                    Err(copy_text(reason))
                } else {
                    Err(cat5("calls `", &c.name, "`, whose cost is unknown (", reason, ")"))
                }
            },
        },
    }
}

#[verifier::loop_isolation(false)]
fn rest_on(out: &mut Vec<String>, c: &FuncCost, callee: &Func)
    ensures
        texts(final(out)@) == rests(texts(old(out)@), c@, callee@),
{
    if is_declared(c) {
        let how = if callee.body.is_none() {
            "declared, extern"
        } else {
            "declared, checked"
        };
        say_once(out, cat4(&c.name, " (", how, ")"));
    }
    let ghost start = texts(out@);
    let ghost v = texts(c.rests_on@);
    let mut n: usize = 0;
    assert(v.take(0) =~= Seq::empty());
    while n < c.rests_on.len()
        invariant
            n <= c.rests_on@.len(),
            texts(out@) == with_all_new(start, v.take(n as int)),
        decreases c.rests_on@.len() - n,
    {
        assert(v.take(n + 1).drop_last() =~= v.take(n as int));
        assert(v.take(n + 1).last() == c.rests_on@[n as int]@);
        say_once(out, copy_text(&c.rests_on[n]));
        n += 1;
    }
    assert(v.take(n as int) =~= v);
}

impl<'a> Walk<'a> {
    fn charge(&mut self, cx: &Cx, c: &FuncCost, work: &Cost, moves: &Cost, args: &Vec<Expr>, a: &Args)
        ensures
            final(self)@ == charged(cx@, old(self)@, c@, (work@, moves@), views(args@), arguments_v(*a)),
            stays(old(self)@, final(self)@),
    {
        proof {
            reveal(charged);
        }
        let ghost w = self@;
        let declared = is_declared(c);
        let feet = if declared {
            let none: Vec<Touch> = Vec::new();
            assert(touches_v(none@) =~= Seq::empty());
            none
        } else {
            touched_by(&c.footprint, a)
        };
        let mv = credit(moves.subst_many(&a.map), &feet, &self.resident);
        let received = self.received(cx, args);
        let resident = match &c.resident {
            Some(r) => {
                if declared {
                    Vec::new()
                } else {
                    residue_of(&feet, &Cond { ws: r.ws.subst_many(&a.map), fits: true })
                }
            },
            None => Vec::new(),
        };
        assert(views(Seq::<Res>::empty()) =~= Seq::empty());
        self.resident = resident;
        self.calls = self.calls.add(&mv);
        self.called = true;
        if !self.replay {
            carry_bounds(&mut self.bounds, &c.bounds, &a.map, received);
            carry_notes(&mut self.notes, &c.name, &c.notes);
            self.work = self.work.add(&work.subst_many(&a.map));
        }
    }

    /// A call of a function whose cost is `c`.
    pub(crate) fn call(&mut self, cx: &Cx, c: &FuncCost, callee: &Func, args: &Vec<Expr>, line: u32) -> (r: Option<Fail>)
        ensures
            (final(self)@, opt_fail(r)) == call_of(cx@, old(self)@, c@, callee@, views(args@), line),
            stays(old(self)@, final(self)@),
    {
        proof {
            reveal(call_of);
        }
        if !self.replay && has_text(&c.effects, &"io".to_owned()) {
            self.io = true;
        }
        match cost_of_callee(c) {
            Err(reason) => stop(reason, line),
            Ok((work, moves)) => {
                if !self.replay && has_text(&c.effects, &"unbounded".to_owned()) {
                    return stop(cat3("calls `", &c.name, "`, which is declared unbounded"), line);
                }
                if !self.replay {
                    rest_on(&mut self.rests_on, c, callee);
                }
                match self.arguments(cx, c, &work, &moves, callee, args) {
                    Err(e) => Some(e),
                    Ok(a) => {
                        self.charge(cx, c, &work, &moves, args, &a);
                        None
                    },
                }
            },
        }
    }
}

} // verus!
