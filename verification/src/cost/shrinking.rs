//! How often a function calls itself, and how its calls bring its measure down.

use vstd::prelude::*;
use crate::cost::algebra::{
    difference_value, m_one, p_rat, p_scale, p_sub, p_value, scale_value, sum_value, term_value, valuation,
};
use crate::cost::laps::{loop_ok, over_turns, rec_sum_is, turns_ok};
use crate::cost::reading::{sum_out, times_of};
use crate::cost::assoc::weigh_one;
use crate::cost::forms::p_const;
use crate::cost::laws::Weight;
use crate::cost::model::PolyV;
use crate::cost::recur::{both_shrink, call_shrink, calls_made, calls_shrink, handed, least_factor, ShrinkV};
use crate::cost::scope::{LoopV, SelfCallV};
use crate::cost::subst::{p_subst_many, p_vars};

verus! {

/// The map puts, for every variable of the measure, the argument that the call hands over.
pub open spec fn takes_over(m: PolyV, args: Seq<Option<PolyV>>, map: Seq<(usize, PolyV)>) -> bool {
    &&& map.len() == p_vars(m).len()
    &&& forall|i: int|
        0 <= i < map.len() ==> p_vars(m)[i] == (#[trigger] map[i]).0 && map[i].0 < args.len() && args[map[i].0 as int] == Some(
            map[i].1,
        )
}

/// The measure that a call hands over is below the caller's as said: by at least the constant, or so
/// that the factor times it is within the caller's.
pub open spec fn brought_down(now: real, next: real, r: ShrinkV) -> bool {
    match r {
        ShrinkV::Linear(c) => c > 0real && next <= now - c,
        ShrinkV::Div(b) => b >= 2 && (b as real) * next <= now,
    }
}

pub open spec fn call_lowers(m: PolyV, args: Seq<Option<PolyV>>, r: ShrinkV, w: Weight) -> bool {
    exists|map: Seq<(usize, PolyV)>| #[trigger]
        takes_over(m, args, map) && brought_down(p_value(m, w), p_value(p_subst_many(m, map), w), r)
}

proof fn const_is(p: PolyV, w: Weight)
    requires
        valuation(w),
        p_const(p) is Some,
    ensures
        p_value(p, w) == p_const(p)->0,
{
    if p.terms.len() == 1 {
        let c = p.terms[0].1;
        assert(p.terms =~= seq![(m_one(), c)]);
        weigh_one((m_one(), c), w);
        assert(c * 1real == c) by (nonlinear_arith);
    }
}

proof fn handed_takes_over(m: PolyV, args: Seq<Option<PolyV>>, n: nat)
    requires
        n <= p_vars(m).len(),
        args.len() <= usize::MAX,
        handed(args, p_vars(m), n) is Some,
    ensures
        handed(args, p_vars(m), n)->0.len() == n,
        forall|i: int|
            0 <= i < n ==> p_vars(m)[i] == (#[trigger] handed(args, p_vars(m), n)->0[i]).0 && handed(
                args,
                p_vars(m),
                n,
            )->0[i].0 < args.len() && args[handed(args, p_vars(m), n)->0[i].0 as int] == Some(handed(args, p_vars(m), n)->0[i].1),
    decreases n,
{
    if n > 0 {
        handed_takes_over(m, args, (n - 1) as nat);
        let before = handed(args, p_vars(m), (n - 1) as nat)->0;
        let now = handed(args, p_vars(m), n)->0;
        assert(forall|i: int| 0 <= i < n - 1 ==> #[trigger] now[i] == before[i]);
    }
}

proof fn factor_is(m: PolyV, mp: PolyV, b: int, w: Weight)
    requires
        valuation(w),
        b >= 2,
        least_factor(m, mp, b) is Some,
    ensures
        brought_down(p_value(m, w), p_value(mp, w), least_factor(m, mp, b)->0),
    decreases 9 - b,
{
    let d = p_sub(p_scale(mp, b as real), m);
    difference_value(p_scale(mp, b as real), m, w);
    scale_value(mp, b as real, w);
    match p_const(d) {
        Some(k) => {
            const_is(d, w);
            if k > 0real {
                factor_is(m, mp, b + 1, w);
            }
        },
        None => factor_is(m, mp, b + 1, w),
    }
}

proof fn call_is(m: PolyV, args: Seq<Option<PolyV>>, w: Weight)
    requires
        valuation(w),
        args.len() <= usize::MAX,
        call_shrink(m, args) is Some,
    ensures
        call_lowers(m, args, call_shrink(m, args)->0, w),
{
    let n = p_vars(m).len();
    handed_takes_over(m, args, n);
    let map = handed(args, p_vars(m), n)->0;
    let mp = p_subst_many(m, map);
    assert(takes_over(m, args, map));
    difference_value(m, mp, w);
    match p_const(p_sub(m, mp)) {
        Some(c) => const_is(p_sub(m, mp), w),
        None => factor_is(m, mp, 2, w),
    }
}

proof fn less_still_lowers(m: PolyV, args: Seq<Option<PolyV>>, r: ShrinkV, s: ShrinkV, w: Weight)
    requires
        call_lowers(m, args, r, w),
        both_shrink(r, s) is Some || both_shrink(s, r) is Some,
        s is Linear ==> s->Linear_0 > 0real,
    ensures
        both_shrink(r, s) is Some ==> call_lowers(m, args, both_shrink(r, s)->0, w),
        both_shrink(s, r) is Some ==> call_lowers(m, args, both_shrink(s, r)->0, w),
{
    let map = choose|map: Seq<(usize, PolyV)>| #[trigger]
        takes_over(m, args, map) && brought_down(p_value(m, w), p_value(p_subst_many(m, map), w), r);
    assert(takes_over(m, args, map));
}

proof fn first_calls_lower(m: PolyV, s: Seq<SelfCallV>, n: nat, w: Weight)
    requires
        valuation(w),
        n <= s.len(),
        forall|i: int| 0 <= i < s.len() ==> (#[trigger] s[i]).args.len() <= usize::MAX,
        calls_shrink(m, s, n) is Some,
    ensures
        n >= 1,
        forall|i: int| 0 <= i < n ==> call_lowers(m, (#[trigger] s[i]).args, calls_shrink(m, s, n)->0, w),
        calls_shrink(m, s, n)->0 is Linear ==> calls_shrink(m, s, n)->0->Linear_0 > 0real,
    decreases n,
{
    if n == 1 {
        assert(s[0].args.len() <= usize::MAX);
        call_is(m, s[0].args, w);
    } else {
        let k = (n - 1) as nat;
        let a = calls_shrink(m, s, k)->0;
        let b = call_shrink(m, s[n - 1].args)->0;
        first_calls_lower(m, s, k, w);
        assert(s[n - 1].args.len() <= usize::MAX);
        call_is(m, s[n - 1].args, w);
        assert forall|i: int| 0 <= i < n implies call_lowers(m, (#[trigger] s[i]).args, calls_shrink(m, s, n)->0, w) by {
            if i < k {
                less_still_lowers(m, s[i].args, a, b, w);
            } else {
                less_still_lowers(m, s[i].args, b, a, w);
            }
        }
    }
}

/// Where calls are found to bring a measure down, every one of them does: whatever the sizes, what it
/// hands over is at least the constant less, or at most the caller's over the factor.
pub proof fn every_call_lowers(m: PolyV, s: Seq<SelfCallV>, w: Weight)
    requires
        valuation(w),
        forall|i: int| 0 <= i < s.len() ==> (#[trigger] s[i]).args.len() <= usize::MAX,
        calls_shrink(m, s, s.len()) is Some,
    ensures
        s.len() >= 1,
        forall|i: int| 0 <= i < s.len() ==> call_lowers(m, (#[trigger] s[i]).args, calls_shrink(m, s, s.len())->0, w),
{
    first_calls_lower(m, s, s.len(), w);
}

// ---- how often a call is made ----

proof fn inner_loops(loops: Seq<LoopV>, n: nat, p: PolyV)
    requires
        n < loops.len(),
    ensures
        sum_out(loops, n, p) == sum_out(loops.drop_first(), n, p),
    decreases n,
{
    if n > 0 {
        inner_loops(loops, (n - 1) as nat, p);
        assert(loops.drop_first()[loops.len() - 1 - n] == loops[loops.len() - n]);
    }
}

/// What stands in no loop runs once. What stands in loops runs, in every turn of the outermost, as often
/// as it does in the loops inside it.
pub proof fn runs_in_every_turn(loops: Seq<LoopV>, w: Weight, n: nat)
    requires
        valuation(w),
        loops.len() > 0 ==> loop_ok(loops[0]) && p_value(loops[0].trip, w) == n as real && turns_ok(
            times_of(loops.drop_first()),
            loops[0],
        ),
    ensures
        loops.len() == 0 ==> p_value(times_of(loops), w) == 1real,
        loops.len() > 0 ==> p_value(times_of(loops), w) == over_turns(times_of(loops.drop_first()), loops[0], w, 0, n),
{
    term_value(m_one(), 1real, w);
    if loops.len() > 0 {
        let k = (loops.len() - 1) as nat;
        inner_loops(loops, k, p_rat(1real));
        rec_sum_is(times_of(loops.drop_first()), loops[0], w, n);
    }
}

/// The values of the times, added.
pub open spec fn times_added(s: Seq<SelfCallV>, w: Weight) -> real
    decreases s.len(),
{
    if s.len() == 0 {
        0real
    } else {
        times_added(s.drop_last(), w) + p_value(s.last().times, w)
    }
}

/// A function calls itself as often as all its calls are made together.
pub proof fn calls_add_up(s: Seq<SelfCallV>, w: Weight)
    ensures
        p_value(calls_made(s), w) == times_added(s, w),
    decreases s.len(),
{
    if s.len() > 0 {
        calls_add_up(s.drop_last(), w);
        sum_value(calls_made(s.drop_last()), s.last().times, w);
    }
}

} // verus!
