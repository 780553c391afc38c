//! The analysis of a module: the cost of every function, and the rewrites worth offering.

use vstd::prelude::*;
use crate::ast::views;
use crate::cost::bounds::{bounds_v, Bound, BoundV};
use crate::cost::machine::Machine;
use crate::cost::rewrite::{
    s_tile, s_transpose, side_from, signature_kept, tile, tile_keeps_signature, tile_side, transpose,
    transpose_keeps_signature,
};
use crate::cost::rules::{resting, s_func, s_run};
use crate::cost::scope::{called, done_v, func_names, remembers, Cx, CxV, Memo, MemoV};
use crate::cost::signature::{CostResult, FuncCost, FuncCostV, ResultV, Suggestion, SuggestionV};
use crate::cost::tiling::{find_tile_choice, tile_choice, ChoiceV};
use crate::cost::track::ready;
use crate::cost::walk::{func_cost, run};
use crate::ir::{Func, FuncV, Module, ModuleV};
use crate::lex::slice_of;
use crate::text::{cat2, cat3, cat5, chars_of, int_text, show_i64, text_of, texts};
use crate::words::{begins_with, cut_at, find_char, has_start, int_value, whole_number};

verus! {

pub open spec fn cx_of(m: ModuleV, k: Machine, i: int) -> CxV {
    CxV { m, k, f: m.funcs[i], own: Some(i as usize) }
}

pub open spec fn empty_memo(m: ModuleV) -> MemoV {
    let n = m.funcs.len();
    MemoV { done: Seq::new(n, |i: int| None), active: Seq::new(n, |i: int| false), names: func_names(m) }
}

/// The first `n` functions analysed in turn.
pub open spec fn analysed(m: ModuleV, k: Machine, n: nat) -> MemoV
    decreases n,
{
    if n == 0 {
        empty_memo(m)
    } else {
        s_func(cx_of(m, k, n - 1), analysed(m, k, (n - 1) as nat), (n - 1) as usize).0
    }
}

/// The function has reuse to be had: an exponent above one.
pub open spec fn has_reuse(s: Seq<BoundV>) -> bool {
    exists|i: int| 0 <= i < s.len() && begins_with((#[trigger] s[i]).kind, "HBL"@)
}

/// The cost of a rewritten function.
pub open spec fn rewritten_cost(cx: CxV, g: FuncV, memo: MemoV) -> (MemoV, ResultV) {
    let (after, c) = s_run(CxV { f: g, own: None, ..cx }, memo);
    (after, c.result)
}

pub open spec fn flag_of(cx: CxV, t: int) -> Seq<char> {
    cx.f.name + ":tile="@ + int_text(t)
}

pub open spec fn choice_offer(cx: CxV, c: Option<ChoiceV>) -> Seq<SuggestionV> {
    match c {
        Some(x) => seq![
            SuggestionV {
                label: "tile T < "@ + x.side,
                flag: flag_of(cx, x.t),
                result: ResultV::Exact { work: x.work, moves: x.moves },
            },
        ],
        None => Seq::empty(),
    }
}

/// The side tiled with: the model's choice, else the square that fits three tiles.
pub open spec fn side_used(cx: CxV, c: Option<ChoiceV>) -> int {
    match c {
        Some(x) => x.t,
        None => side_from(1, cx.k.m_bytes as int, 8),
    }
}

pub open spec fn tile_offer(cx: CxV, memo: MemoV, t: int) -> (MemoV, Seq<SuggestionV>) {
    match s_tile(cx.f, t as i64) {
        Some(g) => {
            let (after, r) = rewritten_cost(cx, g, memo);
            (after, seq![SuggestionV { label: "tile by "@ + int_text(t), flag: flag_of(cx, t), result: r }])
        },
        None => (memo, Seq::empty()),
    }
}

pub open spec fn transpose_offer(cx: CxV, memo: MemoV) -> (MemoV, Seq<SuggestionV>) {
    match s_transpose(cx.f) {
        Some(g) => {
            let (after, r) = rewritten_cost(cx, g, memo);
            (
                after,
                seq![
                    SuggestionV {
                        label: "transpose the column operand"@,
                        flag: cx.f.name + ":transpose"@,
                        result: r,
                    },
                ],
            )
        },
        None => (memo, Seq::empty()),
    }
}

/// The rewrites of a function with what they cost.
#[verifier::opaque]
pub open spec fn offers(cx: CxV, memo: MemoV) -> (MemoV, Seq<SuggestionV>) {
    let (m1, choice) = tile_choice(cx, memo);
    let (m2, tiled) = tile_offer(cx, m1, side_used(cx, choice));
    let (m3, flipped) = transpose_offer(cx, m2);
    (m3, choice_offer(cx, choice) + tiled + flipped)
}

pub open spec fn with_offers(memo: MemoV, i: int, s: Seq<SuggestionV>) -> MemoV {
    match memo.done[i] {
        Some(c) => MemoV { done: memo.done.update(i, Some(FuncCostV { suggestions: s, ..c })), ..memo },
        None => memo,
    }
}

/// The rewrites tried on the first `n` functions with reuse to be had.
pub open spec fn offered(m: ModuleV, k: Machine, n: nat) -> MemoV
    decreases n,
{
    if n == 0 {
        analysed(m, k, m.funcs.len())
    } else {
        let memo = offered(m, k, (n - 1) as nat);
        match memo.done[n - 1] {
            Some(c) => if has_reuse(c.bounds) {
                let (after, s) = offers(cx_of(m, k, n - 1), memo);
                with_offers(after, n - 1, s)
            } else {
                memo
            },
            None => memo,
        }
    }
}

/// The cost of every function, in the order of the module.
pub open spec fn s_analyze(m: ModuleV, k: Machine) -> Seq<Option<FuncCostV>> {
    offered(m, k, m.funcs.len()).done
}

fn run_rewritten(cx: &Cx, g: &Func, memo: &mut Memo) -> (r: CostResult)
    requires
        ready(cx@, old(memo)@, resting(old(memo)@)),
    ensures
        (final(memo)@, r@) == rewritten_cost(cx@, g@, old(memo)@),
        remembers(old(memo)@, final(memo)@),
{
    let gcx = Cx { m: cx.m, k: cx.k, f: g, own: None };
    let c = run(&gcx, memo, Ghost(resting(memo@)));
    c.result
}

fn show_flag(cx: &Cx, t: i64) -> (r: String)
    ensures
        r@ == flag_of(cx@, t as int),
{
    cat3(&cx.f.name, ":tile=", &show_i64(t))
}

fn offer(cx: &Cx, memo: &mut Memo) -> (r: Vec<Suggestion>)
    requires
        ready(cx@, old(memo)@, resting(old(memo)@)),
    ensures
        (final(memo)@, views(r@)) == offers(cx@, old(memo)@),
        remembers(old(memo)@, final(memo)@),
{
    proof {
        reveal(offers);
    }
    let mut out: Vec<Suggestion> = Vec::new();
    let choice = find_tile_choice(cx, memo);
    let ghost cv = match &choice {
        Some(c) => Some(c@),
        None => None::<ChoiceV>,
    };
    let t: i64 = match choice {
        Some(c) => {
            let s = Suggestion {
                label: cat2("tile T < ", &c.side),
                flag: show_flag(cx, c.t),
                result: CostResult::Exact { work: c.work, moves: c.moves },
            };
            out.push(s);
            c.t
        },
        None => tile_side(cx.k.m_bytes, 8),
    };
    proof {
        assert(views(out@) =~= choice_offer(cx@, cv));
        assert(t == side_used(cx@, cv));
        side_positive(8, cx.k.m_bytes as int, 8);
    }
    let ghost first = views(out@);
    match tile(cx.f, t) {
        Some(g) => {
            let r = run_rewritten(cx, &g, memo);
            let s = Suggestion { label: cat2("tile by ", &show_i64(t)), flag: show_flag(cx, t), result: r };
            assert(views(out@.push(s)) =~= first + seq![s@]);
            out.push(s);
        },
        None => {
            assert(first + Seq::<SuggestionV>::empty() =~= first);
        },
    }
    let ghost second = views(out@);
    match transpose(cx.f) {
        Some(g) => {
            let r = run_rewritten(cx, &g, memo);
            let s = Suggestion {
                label: "transpose the column operand".to_owned(),
                flag: cat2(&cx.f.name, ":transpose"),
                result: r,
            };
            assert(views(out@.push(s)) =~= second + seq![s@]);
            out.push(s);
        },
        None => {
            assert(second + Seq::<SuggestionV>::empty() =~= second);
        },
    }
    out
}

proof fn side_positive(t: int, m: int, w: int)
    requires
        t >= 1,
    ensures
        side_from(t, m, w) >= 1,
    decreases m - t,
{
    if t >= 1 && w >= 1 && 3 * (2 * t) * (2 * t) * w < m && 2 * t <= m {
        side_positive(2 * t, m, w);
    }
}

fn is_reusable(s: &Vec<Bound>) -> (r: bool)
    ensures
        r == has_reuse(bounds_v(s@)),
{
    let ghost v = bounds_v(s@);
    let mut i: usize = 0;
    while i < s.len()
        invariant
            i <= s@.len(),
            v == bounds_v(s@),
            forall|j: int| 0 <= j < i ==> !begins_with((#[trigger] v[j]).kind, "HBL"@),
        decreases s@.len() - i,
    {
        assert(v[i as int] == s@[i as int]@);
        if has_start(&s[i].kind, "HBL") {
            return true;
        }
        i += 1;
    }
    false
}

fn with_suggestions(c: FuncCost, suggestions: Vec<Suggestion>) -> (r: FuncCost)
    ensures
        r@ == (FuncCostV { suggestions: views(suggestions@), ..c@ }),
{
    FuncCost { suggestions, ..c }
}

/// The cost of every function of a module: the calculus on each, and on each rewrite of those
/// that have reuse to be had.
#[verifier::loop_isolation(false)]
pub fn analyze(m: &Module, machine: &Machine) -> (r: Vec<FuncCost>)
    requires
        machine.ok(),
    ensures
        r@.len() == m@.funcs.len(),
        forall|i: int|
            0 <= i < r@.len() ==> Some((#[trigger] r@[i])@) == s_analyze(m@, *machine)[i] && r@[i]@.name
                == m@.funcs[i].name,
{
    let ghost mv = m@;
    let n: usize = m.funcs.len();
    let mut done: Vec<Option<FuncCost>> = Vec::new();
    let mut active: Vec<bool> = Vec::new();
    let mut i: usize = 0;
    while i < n
        invariant
            i <= n,
            done@.len() == i,
            active@.len() == i,
            forall|j: int| 0 <= j < i ==> (#[trigger] done@[j]) is None,
            forall|j: int| 0 <= j < i ==> !(#[trigger] active@[j]),
        decreases n - i,
    {
        done.push(None);
        active.push(false);
        i += 1;
    }
    let mut memo = Memo { done, active, names: Ghost(func_names(mv)) };
    proof {
        reveal(called);
    }
    assert(memo@.done =~= empty_memo(mv).done);
    assert(memo@.active =~= empty_memo(mv).active);
    let mut i: usize = 0;
    while i < n
        invariant
            i <= n,
            memo@ == analysed(mv, *machine, i as nat),
            memo@.done.len() == n,
            memo@.active.len() == n,
            memo@.names == func_names(mv),
            called(memo@),
            forall|j: int| 0 <= j < i ==> (#[trigger] memo@.done[j]) is Some,
        decreases n - i,
    {
        let cx = Cx { m, k: *machine, f: &m.funcs[i], own: Some(i) };
        assert(mv.funcs[i as int] == m.funcs@[i as int]@);
        assert(cx@ == cx_of(mv, *machine, i as int));
        let ghost d = resting(memo@);
        let _ = func_cost(&cx, &mut memo, i, Ghost(d));
        i += 1;
    }
    let mut i: usize = 0;
    while i < n
        invariant
            i <= n,
            memo@ == offered(mv, *machine, i as nat),
            memo@.done.len() == n,
            memo@.active.len() == n,
            memo@.names == func_names(mv),
            called(memo@),
            forall|j: int| 0 <= j < n ==> (#[trigger] memo@.done[j]) is Some,
        decreases n - i,
    {
        let reusable = match &memo.done[i] {
            Some(c) => {
                assert(memo@.done[i as int] == Some(c@));
                is_reusable(&c.bounds)
            },
            None => {
                assert(memo@.done[i as int] is None);
                false
            },
        };
        if reusable {
            let cx = Cx { m, k: *machine, f: &m.funcs[i], own: Some(i) };
            assert(mv.funcs[i as int] == m.funcs@[i as int]@);
            assert(cx@ == cx_of(mv, *machine, i as int));
            let s = offer(&cx, &mut memo);
            let ghost after = memo@;
            let ghost sv = views(s@);
            let mut taken: Option<FuncCost> = None;
            core::mem::swap(&mut taken, &mut memo.done[i]);
            match taken {
                Some(c) => {
                    assert(after.done[i as int] == Some(c@));
                    let x = with_suggestions(c, s);
                    memo.done[i] = Some(x);
                    assert(memo@.done =~= after.done.update(i as int, Some(x@)));
                },
                None => {
                    assert(after.done[i as int] is None);
                    assert(memo@.done =~= after.done);
                },
            }
            assert(memo@ =~= with_offers(after, i as int, sv));
            proof {
                reveal(called);
            }
        }
        i += 1;
    }
    let ghost last = memo@;
    let mut done = memo.done;
    let ghost dv = done@;
    let mut out: Vec<FuncCost> = Vec::new();
    let mut i: usize = 0;
    while i < n
        invariant
            i <= n,
            done@.len() == n,
            dv.len() == n,
            done_v(dv) == last.done,
            forall|j: int| i <= j < n ==> #[trigger] done@[j] == dv[j],
            out@.len() == i,
            forall|j: int| 0 <= j < i ==> Some((#[trigger] out@[j])@) == last.done[j],
            forall|j: int| 0 <= j < n ==> (#[trigger] last.done[j]) is Some,
        decreases n - i,
    {
        let mut taken: Option<FuncCost> = None;
        core::mem::swap(&mut taken, &mut done[i]);
        assert(last.done[i as int] is Some);
        match taken {
            Some(c) => {
                out.push(c);
            },
            None => {
                assert(false);
            },
        }
        i += 1;
    }
    proof {
        reveal(called);
        assert forall|j: int| 0 <= j < n implies (#[trigger] out@[j])@.name == mv.funcs[j].name by {
            assert(last.done[j]->0.name == last.names[j]);
        }
    }
    out
}

// ---- applying rewrites ----

/// The place of the function of that name, from the `i`-th on.
pub open spec fn func_place(s: Seq<FuncV>, name: Seq<char>, i: nat) -> Option<nat>
    decreases s.len() - i,
{
    if i >= s.len() {
        None
    } else if s[i as int].name == name {
        Some(i)
    } else {
        func_place(s, name, i + 1)
    }
}

/// The rewrite that a request names, or why it names none.
pub open spec fn rewrite_of(f: FuncV, what: Seq<char>, k: Machine) -> Result<Option<FuncV>, Seq<char>> {
    if what == "tile"@ {
        Ok(s_tile(f, side_from(1, k.m_bytes as int, 8) as i64))
    } else if begins_with(what, "tile="@) {
        match int_value(what.skip(5)) {
            Some(t) => if t > i64::MIN {
                Ok(s_tile(f, t as i64))
            } else {
                Err("--apply: `"@ + what + "` needs an integer tile side"@)
            },
            None => Err("--apply: `"@ + what + "` needs an integer tile side"@),
        }
    } else if what == "transpose"@ {
        Ok(s_transpose(f))
    } else {
        Err("--apply: unknown rewrite `"@ + what + "`"@)
    }
}

/// One request applied: `name:tile`, `name:tile=T` or `name:transpose`.
pub open spec fn applied(m: ModuleV, request: Seq<char>, k: Machine) -> Result<ModuleV, Seq<char>> {
    let i = cut_at(request, ':', 0);
    if i >= request.len() {
        Err("--apply takes `function:tile` or `function:transpose`, not `"@ + request + "`"@)
    } else {
        let name = request.take(i);
        let what = request.skip(i + 1);
        match func_place(m.funcs, name, 0) {
            None => Err("--apply: no function `"@ + name + "`"@),
            Some(at) => match rewrite_of(m.funcs[at as int], what, k) {
                Err(e) => Err(e),
                Ok(Some(g)) => Ok(ModuleV { funcs: m.funcs.update(at as int, g), ..m }),
                Ok(None) => Err(
                    "--apply: `"@ + name + "` does not have the shape `"@ + what
                        + "` applies to (a product with `let mut acc = 0` over the inner loop)"@,
                ),
            },
        }
    }
}

/// The first `n` requests applied in turn: the module as it is then, and what stopped them.
pub open spec fn all_applied(m: ModuleV, requests: Seq<Seq<char>>, k: Machine, n: nat) -> (ModuleV, Option<Seq<char>>)
    decreases n,
{
    if n == 0 {
        (m, None)
    } else {
        let before = all_applied(m, requests, k, (n - 1) as nat);
        if before.1 is Some {
            before
        } else {
            match applied(before.0, requests[n - 1], k) {
                Ok(x) => (x, None),
                Err(e) => (before.0, Some(e)),
            }
        }
    }
}

pub fn find_func(m: &Module, name: &String) -> (r: Option<usize>)
    ensures
        match r {
            Some(i) => func_place(m@.funcs, name@, 0) == Some(i as nat) && i < m.funcs@.len(),
            None => func_place(m@.funcs, name@, 0) is None,
        },
{
    let mut i: usize = 0;
    while i < m.funcs.len()
        invariant
            i <= m.funcs@.len(),
            func_place(m@.funcs, name@, 0) == func_place(m@.funcs, name@, i as nat),
        decreases m.funcs@.len() - i,
    {
        assert(m@.funcs[i as int] == m.funcs@[i as int]@);
        if m.funcs[i].name == *name {
            return Some(i);
        }
        i += 1;
    }
    None
}

fn rewrite_by(f: &Func, what: &String, k: &Machine) -> (r: Result<Option<Func>, String>)
    ensures
        (match r {
            Ok(g) => Ok(crate::ir::opt_view(g)),
            Err(e) => Err(e@),
        }) == rewrite_of(f@, what@, *k),
{
    if *what == "tile".to_owned() {
        let t = tile_side(k.m_bytes, 8);
        proof {
            side_positive(8, k.m_bytes as int, 8);
        }
        return Ok(tile(f, t));
    }
    if has_start(what, "tile=") {
        let c = chars_of(what);
        let ghost cv = c@;
        proof {
            reveal_strlit("tile=");
        }
        let tail = slice_of(&c, 5, c.len());
        assert(tail@ =~= what@.skip(5));
        return match whole_number(&tail) {
            Some(t) => {
                if t > i64::MIN {
                    Ok(tile(f, t))
                } else {
                    Err(cat3("--apply: `", what, "` needs an integer tile side"))
                }
            },
            None => Err(cat3("--apply: `", what, "` needs an integer tile side")),
        };
    }
    if *what == "transpose".to_owned() {
        return Ok(transpose(f));
    }
    Err(cat3("--apply: unknown rewrite `", what, "`"))
}

fn apply(m: &mut Module, request: &String, k: &Machine) -> (r: Result<(), String>)
    ensures
        match r {
            Ok(_) => applied(old(m)@, request@, *k) == Ok::<ModuleV, Seq<char>>(final(m)@),
            Err(e) => applied(old(m)@, request@, *k) == Err::<ModuleV, Seq<char>>(e@) && final(m)@ == old(m)@,
        },
{
    let c = chars_of(request);
    let i = find_char(&c, ':', 0);
    if i >= c.len() {
        return Err(cat3("--apply takes `function:tile` or `function:transpose`, not `", request, "`"));
    }
    let head = slice_of(&c, 0, i);
    let tail = slice_of(&c, i + 1, c.len());
    assert(head@ =~= request@.take(i as int));
    assert(tail@ =~= request@.skip(i + 1));
    let name = text_of(&head);
    let what = text_of(&tail);
    let at = match find_func(m, &name) {
        Some(at) => at,
        None => {
            return Err(cat3("--apply: no function `", &name, "`"));
        },
    };
    assert(m@.funcs[at as int] == m.funcs@[at as int]@);
    match rewrite_by(&m.funcs[at], &what, k) {
        Err(e) => Err(e),
        Ok(Some(g)) => {
            let ghost before = m@;
            let ghost gv = g@;
            m.funcs.set(at, g);
            assert(m@.funcs =~= before.funcs.update(at as int, gv));
            Ok(())
        },
        Ok(None) => Err(
            cat5(
                "--apply: `",
                &name,
                "` does not have the shape `",
                &what,
                "` applies to (a product with `let mut acc = 0` over the inner loop)",
            ),
        ),
    }
}

proof fn stopped_for_good(m: ModuleV, requests: Seq<Seq<char>>, k: Machine, n: nat, l: nat)
    requires
        n <= l,
        all_applied(m, requests, k, n).1 is Some,
    ensures
        all_applied(m, requests, k, l) == all_applied(m, requests, k, n),
    decreases l - n,
{
    if n < l {
        assert(all_applied(m, requests, k, n + 1) == all_applied(m, requests, k, n));
        stopped_for_good(m, requests, k, n + 1, l);
    }
}

/// Apply `--apply` requests (`name:tile`, `name:tile=T`, `name:transpose`) to a module before
/// anything else sees it. The first that cannot be applied stops them.
#[verifier::loop_isolation(false)]
pub fn apply_rewrites(m: &mut Module, requests: &[String], machine: &Machine) -> (r: Result<(), String>)
    ensures
        (final(m)@, match r {
            Ok(_) => None,
            Err(e) => Some(e@),
        }) == all_applied(old(m)@, texts(requests@), *machine, requests@.len()),
{
    let ghost m0 = m@;
    let ghost rv = texts(requests@);
    let mut n: usize = 0;
    while n < requests.len()
        invariant
            n <= requests@.len(),
            all_applied(m0, rv, *machine, n as nat) == (m@, None::<Seq<char>>),
        decreases requests@.len() - n,
    {
        assert(rv[n as int] == requests@[n as int]@);
        match apply(m, &requests[n], machine) {
            Ok(_) => {},
            Err(e) => {
                proof {
                    stopped_for_good(m0, rv, *machine, (n + 1) as nat, rv.len());
                }
                return Err(e);
            },
        }
        n += 1;
    }
    Ok(())
}

// ---- laws ----

/// A request rewrites one function, the first of its name, and leaves the rest of the module; the
/// function keeps its signature.
pub proof fn applied_keeps(m: ModuleV, request: Seq<char>, k: Machine)
    requires
        applied(m, request, k) is Ok,
    ensures
        ({
            let r = applied(m, request, k)->Ok_0;
            let at = func_place(m.funcs, request.take(cut_at(request, ':', 0)), 0);
            &&& at is Some
            &&& at->0 < m.funcs.len()
            &&& r == (ModuleV { funcs: m.funcs.update(at->0 as int, r.funcs[at->0 as int]), ..m })
            &&& signature_kept(m.funcs[at->0 as int], r.funcs[at->0 as int])
        }),
{
    let name = request.take(cut_at(request, ':', 0));
    let what = request.skip(cut_at(request, ':', 0) + 1);
    func_place_bound(m.funcs, name, 0);
    let f = m.funcs[func_place(m.funcs, name, 0)->0 as int];
    if what == "tile"@ {
        tile_keeps_signature(f, side_from(1, k.m_bytes as int, 8) as i64);
    } else if begins_with(what, "tile="@) {
        tile_keeps_signature(f, int_value(what.skip(5))->0 as i64);
    } else {
        transpose_keeps_signature(f);
    }
}

proof fn func_place_bound(s: Seq<FuncV>, name: Seq<char>, i: nat)
    ensures
        match func_place(s, name, i) {
            Some(j) => i <= j < s.len() && s[j as int].name == name,
            None => true,
        },
    decreases s.len() - i,
{
    if i < s.len() && s[i as int].name != name {
        func_place_bound(s, name, i + 1);
    }
}

/// Requests keep every function at its place, under its name, with its parameters and result.
pub proof fn all_applied_keeps(m: ModuleV, requests: Seq<Seq<char>>, k: Machine, n: nat)
    requires
        n <= requests.len(),
    ensures
        ({
            let r = all_applied(m, requests, k, n).0;
            &&& r.funcs.len() == m.funcs.len()
            &&& forall|i: int|
                0 <= i < m.funcs.len() ==> (#[trigger] r.funcs[i]).name == m.funcs[i].name && r.funcs[i].params
                    == m.funcs[i].params && r.funcs[i].ret == m.funcs[i].ret
        }),
    decreases n,
{
    if n > 0 {
        all_applied_keeps(m, requests, k, (n - 1) as nat);
        let before = all_applied(m, requests, k, (n - 1) as nat);
        if before.1 is None && applied(before.0, requests[n - 1], k) is Ok {
            applied_keeps(before.0, requests[n - 1], k);
        }
    }
}

} // verus!
