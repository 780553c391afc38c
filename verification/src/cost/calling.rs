//! What a call is charged: the callee's cost over the sizes handed to it, less what it reads that an
//! earlier call left in the cache.

use vstd::prelude::*;
use crate::cost::algebra::{
    difference_value, m_one, p_rat, p_rat_wf, p_scale, p_scale_wf, p_sub_wf, p_value, p_wf, scale_value, term_value,
    valuation,
};
use crate::cost::costs::{c_subst_many, conds_subst};
use crate::cost::laws::{conds_ok, conds_true, dominates_is_larger, placed, Place};
use crate::cost::model::PolyV;
use crate::cost::piece::{c_poly, p_dominates, PieceV};
use crate::cost::pruning::{add_under_is, cost_is, pieces_ok, prune_keeps, prune_ok, sum_is};
use crate::cost::rules::{
    add_work_n, argument, arguments, call_of, callee_cost, charged, credit_one, credited, exprs_walk, overlap, r_call,
    rests, shared, touched, ArgsV, Ev, TouchV,
};
use crate::cost::scope::{CxV, ResV, WalkV};
use crate::cost::signature::{FuncCostV, ResultV};
use crate::cost::subst::p_subst_many;
use crate::cost::tally::{add_poly_is, add_poly_ok};
use crate::ir::{ExprV, FuncV};

verus! {

// ---- the callee's cost at its arguments ----

/// With its sizes replaced as the map says, the cost is `v` at the place.
pub open spec fn cost_at(s: Seq<PieceV>, map: Seq<(usize, PolyV)>, x: Place, v: real) -> bool {
    &&& exists|i: int|
        0 <= i < s.len() && conds_true(conds_subst((#[trigger] s[i]).conds, map), x) && p_value(
            p_subst_many(s[i].poly, map),
            x.w,
        ) == v
    &&& forall|i: int|
        0 <= i < s.len() && conds_true(conds_subst((#[trigger] s[i]).conds, map), x) ==> p_value(
            p_subst_many(s[i].poly, map),
            x.w,
        ) <= v
}

/// The replaced cost is in canonical form.
pub open spec fn replaced_ok(s: Seq<PieceV>, map: Seq<(usize, PolyV)>) -> bool {
    forall|i: int|
        0 <= i < s.len() ==> p_wf(p_subst_many((#[trigger] s[i]).poly, map)) && conds_ok(conds_subst(s[i].conds, map))
}

proof fn replaced_is(s: Seq<PieceV>, map: Seq<(usize, PolyV)>, x: Place, v: real)
    requires
        replaced_ok(s, map),
        placed(x),
        cost_at(s, map, x, v),
    ensures
        pieces_ok(c_subst_many(s, map)),
        cost_is(c_subst_many(s, map), x, v),
{
    let r = Seq::new(
        s.len(),
        |i: int| PieceV { conds: conds_subst(s[i].conds, map), poly: p_subst_many(s[i].poly, map) },
    );
    assert forall|i: int| 0 <= i < r.len() implies p_wf((#[trigger] r[i]).poly) && conds_ok(r[i].conds) by {
        assert(conds_ok(conds_subst(s[i].conds, map)));
    }
    let k = choose|i: int|
        0 <= i < s.len() && conds_true(conds_subst((#[trigger] s[i]).conds, map), x) && p_value(
            p_subst_many(s[i].poly, map),
            x.w,
        ) == v;
    assert(r[k].conds == conds_subst(s[k].conds, map));
    assert forall|i: int| 0 <= i < r.len() && conds_true((#[trigger] r[i]).conds, x) implies p_value(r[i].poly, x.w) <= v by {
        assert(r[i].conds == conds_subst(s[i].conds, map));
    }
    prune_keeps(r, x, v);
    prune_ok(r);
}

// ---- what is resident ----

pub open spec fn least(a: real, b: real) -> real {
    if a < b {
        a
    } else {
        b
    }
}

/// The range from `a` to `b` lies in that from `c` to `d`, whatever the sizes.
pub open spec fn lies_in(a: PolyV, b: PolyV, c: PolyV, d: PolyV) -> bool {
    p_dominates(a, c) && p_dominates(d, b)
}

/// The bytes of a touched range that are known to be resident at the place: where one of the two ranges
/// lies in the other, those of the shorter.
pub open spec fn kept_bytes(t: TouchV, r: ResV, x: Place) -> real {
    if t.exact && r.root == t.root && conds_true(r.conds, x) && (lies_in(t.lo, t.hi, r.lo, r.hi) || lies_in(
        r.lo,
        r.hi,
        t.lo,
        t.hi,
    )) {
        least(p_value(t.hi, x.w) - p_value(t.lo, x.w), p_value(r.hi, x.w) - p_value(r.lo, x.w))
    } else {
        0real
    }
}

pub open spec fn kept_of(t: TouchV, res: Seq<ResV>, x: Place) -> real
    decreases res.len(),
{
    if res.len() == 0 {
        0real
    } else {
        kept_of(t, res.drop_last(), x) + kept_bytes(t, res.last(), x)
    }
}

/// The bytes that need not be moved again.
pub open spec fn kept(ts: Seq<TouchV>, res: Seq<ResV>, x: Place) -> real
    decreases ts.len(),
{
    if ts.len() == 0 {
        0real
    } else {
        kept(ts.drop_last(), res, x) + kept_of(ts.last(), res, x)
    }
}

pub open spec fn touches_ok(ts: Seq<TouchV>) -> bool {
    forall|i: int| 0 <= i < ts.len() ==> p_wf((#[trigger] ts[i]).lo) && p_wf(ts[i].hi)
}

pub open spec fn residents_ok(res: Seq<ResV>) -> bool {
    forall|i: int| 0 <= i < res.len() ==> p_wf((#[trigger] res[i]).lo) && p_wf(res[i].hi) && conds_ok(res[i].conds)
}

proof fn overlap_is(t: TouchV, r: ResV, x: Place)
    requires
        p_wf(t.lo),
        p_wf(t.hi),
        p_wf(r.lo),
        p_wf(r.hi),
        placed(x),
    ensures
        overlap(t, r) is Some <==> r.root == t.root && (lies_in(t.lo, t.hi, r.lo, r.hi) || lies_in(r.lo, r.hi, t.lo, t.hi)),
        overlap(t, r) is Some ==> p_wf(overlap(t, r)->0) && p_value(overlap(t, r)->0, x.w) == least(
            p_value(t.hi, x.w) - p_value(t.lo, x.w),
            p_value(r.hi, x.w) - p_value(r.lo, x.w),
        ),
{
    difference_value(t.hi, t.lo, x.w);
    difference_value(r.hi, r.lo, x.w);
    p_sub_wf(t.hi, t.lo);
    p_sub_wf(r.hi, r.lo);
    if lies_in(t.lo, t.hi, r.lo, r.hi) {
        dominates_is_larger(t.lo, r.lo, x.w);
        dominates_is_larger(r.hi, t.hi, x.w);
    }
    if lies_in(r.lo, r.hi, t.lo, t.hi) {
        dominates_is_larger(r.lo, t.lo, x.w);
        dominates_is_larger(t.hi, r.hi, x.w);
    }
}

proof fn credit_one_is(s: Seq<PieceV>, t: TouchV, res: Seq<ResV>, n: nat, x: Place, v: real)
    requires
        n <= res.len(),
        t.exact,
        pieces_ok(s),
        p_wf(t.lo),
        p_wf(t.hi),
        residents_ok(res),
        placed(x),
        cost_is(s, x, v),
    ensures
        pieces_ok(credit_one(s, t, res, n)),
        cost_is(credit_one(s, t, res, n), x, v - kept_of(t, res.take(n as int), x)),
    decreases n,
{
    assert(res.take(0) =~= Seq::empty());
    if n > 0 {
        let before = credit_one(s, t, res, (n - 1) as nat);
        let r = res[n - 1];
        credit_one_is(s, t, res, (n - 1) as nat, x, v);
        assert(res.take(n as int).drop_last() =~= res.take(n - 1));
        assert(res.take(n as int).last() == r);
        overlap_is(t, r, x);
        match overlap(t, r) {
            Some(p) => {
                p_scale_wf(p, -1real);
                scale_value(p, -1real, x.w);
                add_under_is(before, r.conds, p_scale(p, -1real), x, v - kept_of(t, res.take(n - 1), x));
            },
            None => {},
        }
    }
}

proof fn kept_inexact(t: TouchV, res: Seq<ResV>, x: Place)
    requires
        !t.exact,
    ensures
        kept_of(t, res, x) == 0real,
    decreases res.len(),
{
    if res.len() > 0 {
        kept_inexact(t, res.drop_last(), x);
    }
}

proof fn credited_is(s: Seq<PieceV>, ts: Seq<TouchV>, res: Seq<ResV>, n: nat, x: Place, v: real)
    requires
        n <= ts.len(),
        pieces_ok(s),
        touches_ok(ts),
        residents_ok(res),
        placed(x),
        cost_is(s, x, v),
    ensures
        pieces_ok(credited(s, ts, res, n)),
        cost_is(credited(s, ts, res, n), x, v - kept(ts.take(n as int), res, x)),
    decreases n,
{
    assert(ts.take(0) =~= Seq::empty());
    if n > 0 {
        let before = credited(s, ts, res, (n - 1) as nat);
        let t = ts[n - 1];
        credited_is(s, ts, res, (n - 1) as nat, x, v);
        assert(ts.take(n as int).drop_last() =~= ts.take(n - 1));
        assert(ts.take(n as int).last() == t);
        if t.exact {
            credit_one_is(before, t, res, res.len(), x, v - kept(ts.take(n - 1), res, x));
            assert(res.take(res.len() as int) =~= res);
        } else {
            kept_inexact(t, res, x);
        }
    }
}

// ---- the call ----

/// The ranges of the caller's arrays that a callee is known to touch: a declared one is known by its
/// bounds only.
pub open spec fn ranges(c: FuncCostV, a: ArgsV) -> Seq<TouchV> {
    if c.declared.work is Some && c.declared.moves is Some {
        Seq::empty()
    } else {
        touched(c.footprint, a, c.footprint.len())
    }
}

/// A map hands the `i`-th parameter the size `p` exactly where that is the argument's size.
pub open spec fn hands_over(cx: CxV, w: WalkV, callee: FuncV, args: Seq<ExprV>, a: ArgsV, n: nat) -> bool {
    forall|i: int, p: PolyV|
        0 <= i < n ==> (#[trigger] a.map.contains((i as usize, p)) <==> argument(cx, w, callee, i, args[i]).0 == Some(p))
}

proof fn arguments_hand_over(
    cx: CxV,
    w: WalkV,
    c: FuncCostV,
    cost: (Seq<PieceV>, Seq<PieceV>),
    callee: FuncV,
    args: Seq<ExprV>,
    n: nat,
)
    requires
        n <= usize::MAX,
        arguments(cx, w, c, cost, callee, args, n) is Ok,
    ensures
        hands_over(cx, w, callee, args, arguments(cx, w, c, cost, callee, args, n)->Ok_0, n),
        forall|k: int|
            0 <= k < arguments(cx, w, c, cost, callee, args, n)->Ok_0.map.len() ==> (#[trigger] arguments(
                cx,
                w,
                c,
                cost,
                callee,
                args,
                n,
            )->Ok_0.map[k]).0 < n,
    decreases n,
{
    if n > 0 {
        let b = arguments(cx, w, c, cost, callee, args, (n - 1) as nat)->Ok_0;
        let a = arguments(cx, w, c, cost, callee, args, n)->Ok_0;
        arguments_hand_over(cx, w, c, cost, callee, args, (n - 1) as nat);
        let by = argument(cx, w, callee, n - 1, args[n - 1]).0;
        assert forall|i: int, p: PolyV| 0 <= i < n implies (#[trigger] a.map.contains((i as usize, p)) <==> argument(
            cx,
            w,
            callee,
            i,
            args[i],
        ).0 == Some(p)) by {
            match by {
                Some(q) => {
                    assert(a.map == b.map.push(((n - 1) as usize, q)));
                    if a.map.contains((i as usize, p)) {
                        let k = choose|k: int| 0 <= k < a.map.len() && a.map[k] == (i as usize, p);
                        if k < b.map.len() {
                            assert(b.map[k].0 < n - 1);
                            assert(b.map.contains((i as usize, p)));
                        }
                    }
                    if argument(cx, w, callee, i, args[i]).0 == Some(p) {
                        if i < n - 1 {
                            assert(b.map.contains((i as usize, p)));
                            let k = choose|k: int| 0 <= k < b.map.len() && b.map[k] == (i as usize, p);
                            assert(a.map[k] == (i as usize, p));
                        } else {
                            assert(a.map[b.map.len() as int] == (i as usize, p));
                        }
                    }
                },
                None => {
                    assert(a.map == b.map);
                    if i == n - 1 && a.map.contains((i as usize, p)) {
                        let k = choose|k: int| 0 <= k < b.map.len() && b.map[k] == (i as usize, p);
                        assert(b.map[k].0 < n - 1);
                    }
                },
            }
        }
    }
}

/// What a callee costs over its own parameters: its declared bounds where it declares both, and else
/// what was found.
pub open spec fn price(c: FuncCostV, work: Seq<PieceV>, moves: Seq<PieceV>) -> bool {
    if c.declared.work is Some && c.declared.moves is Some {
        work == c_poly(c.declared.work->0) && moves == c_poly(c.declared.moves->0)
    } else {
        c.result == (ResultV::Exact { work, moves })
    }
}

/// From one state to the other a call was charged that hands over the sizes of the map: the callee's
/// work there and `n` more, and its moves there, less the bytes it touches that are resident.
pub open spec fn call_made(w: WalkV, r: WalkV, c: FuncCostV, work: Seq<PieceV>, moves: Seq<PieceV>, a: ArgsV, n: int, x: Place) -> bool {
    &&& r.called
    &&& forall|u: real, v: real|
        #![trigger cost_is(w.work, x, u), cost_at(work, a.map, x, v)]
        cost_is(w.work, x, u) && cost_at(work, a.map, x, v) ==> cost_is(r.work, x, u + n as real + v)
    &&& forall|u: real, v: real|
        #![trigger cost_is(w.calls, x, u), cost_at(moves, a.map, x, v)]
        cost_is(w.calls, x, u) && cost_at(moves, a.map, x, v) ==> cost_is(
            r.calls,
            x,
            u + v - kept(ranges(c, a), w.resident, x),
        )
}

/// What the law asks of the sizes in a call: canonical form.
pub open spec fn call_ok(w: WalkV, c: FuncCostV, work: Seq<PieceV>, moves: Seq<PieceV>, a: ArgsV) -> bool {
    &&& pieces_ok(w.work)
    &&& pieces_ok(w.calls)
    &&& residents_ok(w.resident)
    &&& touches_ok(ranges(c, a))
    &&& replaced_ok(work, a.map)
    &&& replaced_ok(moves, a.map)
}

proof fn charged_is(cx: CxV, w: WalkV, c: FuncCostV, cost: (Seq<PieceV>, Seq<PieceV>), args: Seq<ExprV>, a: ArgsV, x: Place)
    requires
        !w.replay,
        call_ok(w, c, cost.0, cost.1, a),
        placed(x),
    ensures
        call_made(w, charged(cx, w, c, cost, args, a), c, cost.0, cost.1, a, 0, x),
{
    reveal(charged);
    let r = charged(cx, w, c, cost, args, a);
    let feet = ranges(c, a);
    assert forall|u: real, v: real|
        #![trigger cost_is(w.work, x, u), cost_at(cost.0, a.map, x, v)]
        cost_is(w.work, x, u) && cost_at(cost.0, a.map, x, v) implies cost_is(r.work, x, u + 0int as real + v) by {
        replaced_is(cost.0, a.map, x, v);
        sum_is(w.work, c_subst_many(cost.0, a.map), x, u, v);
    }
    assert forall|u: real, v: real|
        #![trigger cost_is(w.calls, x, u), cost_at(cost.1, a.map, x, v)]
        cost_is(w.calls, x, u) && cost_at(cost.1, a.map, x, v) implies cost_is(
        r.calls,
        x,
        u + v - kept(feet, w.resident, x),
    ) by {
        replaced_is(cost.1, a.map, x, v);
        credited_is(c_subst_many(cost.1, a.map), feet, w.resident, feet.len(), x, v);
        assert(feet.take(feet.len() as int) =~= feet);
        sum_is(
            w.calls,
            credited(c_subst_many(cost.1, a.map), feet, w.resident, feet.len()),
            x,
            u,
            v - kept(feet, w.resident, x),
        );
    }
}

/// The state differs only in what a call notes besides its cost.
pub open spec fn noted(w: WalkV, v: WalkV) -> bool {
    v == (WalkV { memo: v.memo, io: v.io, rests_on: v.rests_on, work: v.work, ..w })
}

/// A call to another function is charged two operations, for the call and the return, and the callee's
/// work at the sizes of the arguments. It is charged the callee's moves there, less the bytes it
/// touches that are resident.
pub proof fn call_charged(cx: CxV, ev: Ev, w0: WalkV, fid: usize, args: Seq<ExprV>, line: u32, x: Place)
    requires
        ({
            let o = exprs_walk(ev, w0, args, args.len());
            &&& o.1 is None
            &&& !o.0.replay
            &&& fid < cx.m.funcs.len()
            &&& cx.own != Some(fid)
            &&& r_call(cx, ev, w0, fid, args, line).1 is None
            &&& shared(args, cx.m.funcs[fid as int]) <= usize::MAX
            &&& placed(x)
            &&& valuation(x.w)
        }),
    ensures
        ({
            let w = exprs_walk(ev, w0, args, args.len()).0;
            let callee = cx.m.funcs[fid as int];
            let c = (ev.func)(w.memo, fid).1;
            exists|v: WalkV, work: Seq<PieceV>, moves: Seq<PieceV>, a: ArgsV|
                #![trigger hands_over(cx, v, callee, args, a, shared(args, callee)), price(c, work, moves)]
                noted(w, v) && hands_over(cx, v, callee, args, a, shared(args, callee)) && price(c, work, moves) && (call_ok(
                    w,
                    c,
                    work,
                    moves,
                    a,
                ) ==> call_made(w, r_call(cx, ev, w0, fid, args, line).0, c, work, moves, a, 2, x))
        }),
{
    reveal(r_call);
    reveal(call_of);
    let w = exprs_walk(ev, w0, args, args.len()).0;
    let callee = cx.m.funcs[fid as int];
    let (memo, c) = (ev.func)(w.memo, fid);
    let w1 = add_work_n(w, 2);
    let w2 = WalkV { memo, ..w1 };
    let w3 = if c.effects.contains("io"@) {
        WalkV { io: true, ..w2 }
    } else {
        w2
    };
    let v = WalkV { rests_on: rests(w3.rests_on, c, callee), ..w3 };
    let cost = callee_cost(c)->Ok_0;
    let n = shared(args, callee);
    let a = arguments(cx, v, c, cost, callee, args, n)->Ok_0;
    arguments_hand_over(cx, v, c, cost, callee, args, n);
    let r = r_call(cx, ev, w0, fid, args, line).0;
    assert(r == charged(cx, v, c, cost, args, a));
    assert(noted(w, v));
    assert(price(c, cost.0, cost.1));
    if call_ok(w, c, cost.0, cost.1, a) {
        p_rat_wf(2real);
        add_poly_ok(w.work, p_rat(2real));
        charged_is(cx, v, c, cost, args, a, x);
        assert forall|u: real, z: real|
            #![trigger cost_is(w.work, x, u), cost_at(cost.0, a.map, x, z)]
            cost_is(w.work, x, u) && cost_at(cost.0, a.map, x, z) implies cost_is(r.work, x, u + 2int as real + z) by {
            term_value(m_one(), 2real, x.w);
            add_poly_is(w.work, p_rat(2real), x, u);
            assert(cost_is(v.work, x, u + 2real));
        }
        assert(v.calls == w.calls && v.resident == w.resident);
        assert forall|u: real, z: real|
            #![trigger cost_is(w.calls, x, u), cost_at(cost.1, a.map, x, z)]
            cost_is(w.calls, x, u) && cost_at(cost.1, a.map, x, z) implies cost_is(
            r.calls,
            x,
            u + z - kept(ranges(c, a), w.resident, x),
        ) by {
            assert(cost_is(v.calls, x, u));
        }
        assert(call_made(w, r, c, cost.0, cost.1, a, 2, x));
    }
    assert(hands_over(cx, v, callee, args, a, n));
}

} // verus!
