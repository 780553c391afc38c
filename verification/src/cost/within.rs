//! What a declaration that nothing breaks says of a cost.

use vstd::prelude::*;
use crate::ast::PairV;
use crate::cost::asserted::{grows_in, has_var, m_dominates, p_dominated, s_bound};
use crate::cost::assoc::{entry_found, slot_splits, value};
use crate::cost::declare::{
    all_broken, beyond, broken, claim_broken, over_budget, read_entries, read_entry, read_size, read_sizes, ClaimV,
    ReadV,
};
use crate::cost::forms::{degree_over, p_degree_in, terms_degree_in};
use crate::cost::machine::Machine;
use crate::cost::model::{AtomV, MonoV, PolyV};
use crate::cost::algebra::p_wf;
use crate::cost::piece::PieceV;
use crate::cost::rules::{body_cost, param_names, r_run, s_run};
use crate::cost::scope::{CxV, MemoV};
use crate::cost::scan::name_index;
use crate::cost::signature::{DeclaredV, ResultV};
use crate::cost::wide::{cost_value, n_max, n_over, w_all_hold, w_pieces, w_sum, wide_value, SpotV};
use crate::ir::FuncV;
use crate::words::{pair_at, pieces_from, trimmed};

verus! {

// ---- what it is to stay within ----

/// The piece counts at the sizes: its conditions hold there.
pub open spec fn applies(p: PieceV, k: Machine, sizes: SpotV) -> bool {
    w_all_hold(p.conds, k, sizes)
}

/// At the sizes the bound has a value, some piece counts, and none that counts is above the bound.
pub open spec fn within_budget(s: Seq<PieceV>, bound: PolyV, k: Machine, sizes: SpotV) -> bool {
    match w_sum(bound.terms, k, sizes) {
        Some(limit) => {
            &&& exists|i: int| 0 <= i < s.len() && applies(#[trigger] s[i], k, sizes)
            &&& forall|i: int|
                0 <= i < s.len() && applies(#[trigger] s[i], k, sizes) ==> match w_sum(s[i].poly.terms, k, sizes) {
                    Some(v) => !n_over(v, limit),
                    None => false,
                }
        },
        None => false,
    }
}

/// The cost is known, and stays within the bound: in every regime, or at the sizes if there are any.
pub open spec fn stays_within(s: Option<Seq<PieceV>>, bound: PolyV, k: Machine, sizes: SpotV) -> bool {
    match s {
        Some(s) => if sizes.len() == 0 {
            forall|i: int| 0 <= i < s.len() ==> p_dominated((#[trigger] s[i]).poly, bound)
        } else {
            within_budget(s, bound, k, sizes)
        },
        None => false,
    }
}

pub open spec fn work_of(r: ResultV) -> Option<Seq<PieceV>> {
    match r {
        ResultV::Exact { work, moves } => Some(work),
        ResultV::Unknown { reason, line } => None,
    }
}

pub open spec fn moves_of(r: ResultV) -> Option<Seq<PieceV>> {
    match r {
        ResultV::Exact { work, moves } => Some(moves),
        ResultV::Unknown { reason, line } => None,
    }
}

/// Both costs stay within what is declared of them.
pub open spec fn keeps(d: DeclaredV, k: Machine, r: ResultV) -> bool {
    &&& d.work is Some ==> stays_within(work_of(r), d.work->0, k, d.sizes)
    &&& d.moves is Some ==> stays_within(moves_of(r), d.moves->0, k, d.sizes)
}

// ---- the check ----

proof fn beyond_none(c: ClaimV, s: Seq<PieceV>, n: nat)
    requires
        n <= s.len(),
    ensures
        beyond(c, s, n).len() == 0 <==> forall|i: int| 0 <= i < n ==> p_dominated((#[trigger] s[i]).poly, c.bound),
    decreases n,
{
    if n > 0 {
        beyond_none(c, s, (n - 1) as nat);
        if beyond(c, s, n).len() == 0 {
            assert(p_dominated(s[n - 1].poly, c.bound));
        }
        if forall|i: int| 0 <= i < n ==> p_dominated((#[trigger] s[i]).poly, c.bound) {
            assert(p_dominated(s[n - 1].poly, c.bound));
        }
    }
}

/// The value of a cost is that of a piece that counts, and no piece that counts is above it.
proof fn greatest(s: Seq<PieceV>, k: Machine, x: SpotV, n: nat)
    requires
        n <= s.len(),
    ensures
        match w_pieces(s, k, x, n) {
            None => exists|i: int| 0 <= i < n && applies(#[trigger] s[i], k, x) && w_sum(s[i].poly.terms, k, x) is None,
            Some(None) => forall|i: int| 0 <= i < n ==> !applies(#[trigger] s[i], k, x),
            Some(Some(g)) => {
                &&& exists|i: int|
                    0 <= i < n && applies(#[trigger] s[i], k, x) && w_sum(s[i].poly.terms, k, x) == Some(g)
                &&& forall|i: int|
                    0 <= i < n && applies(#[trigger] s[i], k, x) ==> match w_sum(s[i].poly.terms, k, x) {
                        Some(v) => !n_over(v, g) && (g is Undefined ==> v is Undefined),
                        None => false,
                    }
            },
        },
    decreases n,
{
    if n > 0 {
        greatest(s, k, x, (n - 1) as nat);
        match w_pieces(s, k, x, (n - 1) as nat) {
            None => {
                let i = choose|i: int|
                    0 <= i < n - 1 && applies(#[trigger] s[i], k, x) && w_sum(s[i].poly.terms, k, x) is None;
                assert(applies(s[i], k, x));
            },
            Some(before) => {
                if applies(s[n - 1], k, x) {
                    match w_sum(s[n - 1].poly.terms, k, x) {
                        Some(v) => {
                            match before {
                                Some(b) => {
                                    let i = choose|i: int|
                                        0 <= i < n - 1 && applies(#[trigger] s[i], k, x) && w_sum(
                                            s[i].poly.terms,
                                            k,
                                            x,
                                        ) == Some(b);
                                    assert(applies(s[i], k, x));
                                    assert(n_max(b, v) == b || n_max(b, v) == v);
                                },
                                None => {},
                            }
                        },
                        None => {},
                    }
                } else {
                    match before {
                        Some(b) => {
                            let i = choose|i: int|
                                0 <= i < n - 1 && applies(#[trigger] s[i], k, x) && w_sum(s[i].poly.terms, k, x) == Some(b);
                            assert(applies(s[i], k, x));
                        },
                        None => {},
                    }
                }
            },
        }
    }
}

/// The value of a cost at given sizes is the greatest of the pieces that count there: it is that of
/// one of them, and none of them is above it.
pub proof fn value_is_greatest(s: Seq<PieceV>, k: Machine, x: SpotV)
    requires
        cost_value(s, k, x) is Some,
    ensures
        exists|i: int|
            0 <= i < s.len() && applies(#[trigger] s[i], k, x) && w_sum(s[i].poly.terms, k, x) == cost_value(s, k, x),
        forall|i: int|
            0 <= i < s.len() && applies(#[trigger] s[i], k, x) ==> match w_sum(s[i].poly.terms, k, x) {
                Some(v) => !n_over(v, cost_value(s, k, x)->0),
                None => false,
            },
{
    greatest(s, k, x, s.len());
}

proof fn budget_none(c: ClaimV, k: Machine, x: SpotV, s: Seq<PieceV>)
    ensures
        over_budget(c, k, x, s).len() == 0 <==> within_budget(s, c.bound, k, x),
{
    greatest(s, k, x, s.len());
}

spec fn side_of(r: ResultV, work: bool) -> Option<Seq<PieceV>> {
    if work {
        work_of(r)
    } else {
        moves_of(r)
    }
}

proof fn claim_none(f: FuncV, names: Seq<Seq<char>>, k: Machine, d: DeclaredV, r: ResultV, work: bool)
    ensures
        ({
            let bound = if work {
                d.work
            } else {
                d.moves
            };
            claim_broken(f, names, k, d, r, work).len() == 0 <==> (bound is Some ==> stays_within(
                side_of(r, work),
                bound->0,
                k,
                d.sizes,
            ))
        }),
{
    match if work { d.work } else { d.moves } {
        Some(bound) => {
            let which = if work {
                "work"@
            } else {
                "moves"@
            };
            let c = ClaimV {
                func: f.name,
                which,
                bound,
                line: crate::cost::declare::entry_line(f.asserts, which + "_at_most"@, f.line, 0),
                names,
            };
            assert(claim_broken(f, names, k, d, r, work) == broken(c, k, d.sizes, r, work));
            match r {
                ResultV::Exact { work: w, moves: m } => {
                    let s = if work {
                        w
                    } else {
                        m
                    };
                    beyond_none(c, s, s.len());
                    budget_none(c, k, d.sizes, s);
                    assert(broken(c, k, d.sizes, r, work) == if d.sizes.len() == 0 {
                        beyond(c, s, s.len())
                    } else {
                        over_budget(c, k, d.sizes, s)
                    });
                    assert(side_of(r, work) == Some(s));
                    if d.sizes.len() == 0 {
                        assert(beyond(c, s, s.len()).len() == 0 <==> stays_within(Some(s), bound, k, d.sizes));
                    } else {
                        assert(over_budget(c, k, d.sizes, s).len() == 0 <==> stays_within(Some(s), bound, k, d.sizes));
                    }
                },
                ResultV::Unknown { reason, line } => {
                    assert(broken(c, k, d.sizes, r, work).len() == 1);
                },
            }
        },
        None => {
            assert(claim_broken(f, names, k, d, r, work).len() == 0);
        },
    }
}

/// Nothing is said to be broken if and only if both the work and the moves stay within what is
/// declared of them.
pub proof fn nothing_broken(f: FuncV, names: Seq<Seq<char>>, k: Machine, d: DeclaredV, r: ResultV)
    ensures
        all_broken(f, names, k, d, r).len() == 0 <==> keeps(d, k, r),
{
    reveal(all_broken);
    claim_none(f, names, k, d, r, true);
    claim_none(f, names, k, d, r, false);
}

// ---- what is declared ----

/// The last entry of a key.
pub open spec fn last_entry(s: Seq<PairV>, key: Seq<char>, i: int) -> bool {
    &&& 0 <= i < s.len()
    &&& s[i].key == key
    &&& forall|j: int| i < j < s.len() ==> (#[trigger] s[j]).key != key
}

/// A part `name <= value` of `sizes`, and the size and value it stands for.
pub open spec fn size_part(names: Seq<Seq<char>>, part: Seq<char>, sizes: SpotV) -> bool {
    match pair_at(part, '<', '=', 0) {
        Some(i) => match (name_index(names, trimmed(part.take(i)), 0), wide_value(trimmed(part.skip(i + 2)))) {
            (Some(n), Some(v)) => sizes.contains((n as usize, v)),
            _ => false,
        },
        None => false,
    }
}

proof fn sizes_step(r: ReadV, names: Seq<Seq<char>>, parts: Seq<Seq<char>>, line: u32, n: nat)
    requires
        n <= parts.len(),
    ensures
        ({
            let q = read_sizes(r, names, parts, line, n);
            &&& q.declared.work == r.declared.work
            &&& q.declared.moves == r.declared.moves
            &&& q.wrong.len() >= r.wrong.len()
            &&& forall|x: (usize, crate::cost::wide::NumV)| r.declared.sizes.contains(x) ==> #[trigger] q.declared.sizes.contains(x)
            &&& q.wrong.len() == r.wrong.len() ==> forall|j: int|
                0 <= j < n ==> size_part(names, #[trigger] parts[j], q.declared.sizes)
        }),
    decreases n,
{
    if n > 0 {
        sizes_step(r, names, parts, line, (n - 1) as nat);
        let p = read_sizes(r, names, parts, line, (n - 1) as nat);
        let q = read_sizes(r, names, parts, line, n);
        assert(q == read_size(p, names, parts[n - 1], line));
        assert forall|x: (usize, crate::cost::wide::NumV)| p.declared.sizes.contains(x) implies
            #[trigger] q.declared.sizes.contains(x) by {
            let i = choose|i: int| 0 <= i < p.declared.sizes.len() && p.declared.sizes[i] == x;
            assert(q.declared.sizes[i] == x);
        }
        if q.wrong.len() == r.wrong.len() {
            assert forall|j: int| 0 <= j < n implies size_part(names, #[trigger] parts[j], q.declared.sizes) by {
                if j == n - 1 {
                    assert(q.declared.sizes.last() == q.declared.sizes[q.declared.sizes.len() - 1]);
                } else {
                    assert(size_part(names, parts[j], p.declared.sizes));
                }
            }
        }
    }
}

proof fn keys_apart()
    ensures
        "work_at_most"@ != "moves_at_most"@,
        "work_at_most"@ != "sizes"@,
        "moves_at_most"@ != "sizes"@,
{
    reveal_strlit("work_at_most");
    reveal_strlit("moves_at_most");
    reveal_strlit("sizes");
    assert("work_at_most"@.len() == 12 && "moves_at_most"@.len() == 13 && "sizes"@.len() == 5);
}

/// What reading the first `n` entries has found.
spec fn read_well(names: Seq<Seq<char>>, s: Seq<PairV>, n: nat) -> bool {
    let r = read_entries(names, s, n);
    r.wrong.len() == 0 ==> {
        &&& forall|i: int|
            0 <= i < n ==> (#[trigger] s[i]).key == "work_at_most"@ || s[i].key == "moves_at_most"@ || s[i].key
                == "sizes"@
        &&& forall|i: int|
            #![trigger s[i]]
            last_entry(s.take(n as int), "work_at_most"@, i) ==> s_bound(s[i].val, names) is Ok && r.declared.work
                == Some(s_bound(s[i].val, names)->Ok_0)
        &&& forall|i: int|
            #![trigger s[i]]
            last_entry(s.take(n as int), "moves_at_most"@, i) ==> s_bound(s[i].val, names) is Ok && r.declared.moves
                == Some(s_bound(s[i].val, names)->Ok_0)
        &&& forall|i: int, j: int|
            #![trigger pieces_from(s[i].val, ',', 0)[j]]
            0 <= i < n && s[i].key == "sizes"@ && 0 <= j < pieces_from(s[i].val, ',', 0).len() ==> size_part(
                names,
                pieces_from(s[i].val, ',', 0)[j],
                r.declared.sizes,
            )
    }
}

#[verifier::spinoff_prover]
proof fn reading(names: Seq<Seq<char>>, s: Seq<PairV>, n: nat)
    requires
        n <= s.len(),
    ensures
        read_well(names, s, n),
    decreases n,
{
    if n > 0 {
        reading(names, s, (n - 1) as nat);
        keys_apart();
        let p = read_entries(names, s, (n - 1) as nat);
        let e = s[n - 1];
        let r = read_entries(names, s, n);
        assert(r == read_entry(p, names, e));
        let parts = pieces_from(e.val, ',', 0);
        if e.key == "sizes"@ {
            sizes_step(p, names, parts, e.line, parts.len());
        }
        assert(r.wrong.len() >= p.wrong.len());
        if r.wrong.len() == 0 {
            let (t, u) = (s.take(n as int), s.take(n - 1));
            assert forall|i: int, key: Seq<char>| last_entry(t, key, i) && key != e.key implies #[trigger] last_entry(
                u,
                key,
                i,
            ) by {
                assert(i < n - 1);
                assert(u[i] == t[i]);
                assert forall|j: int| i < j < u.len() implies (#[trigger] u[j]).key != key by {
                    assert(u[j] == t[j]);
                }
            }
            assert forall|i: int, key: Seq<char>| last_entry(t, key, i) && key == e.key implies i == n - 1 by {
                if i < n - 1 {
                    assert(t[n - 1].key != key);
                }
            }
            assert forall|i: int|
                #![trigger s[i]]
                last_entry(t, "work_at_most"@, i) implies s_bound(s[i].val, names) is Ok && r.declared.work == Some(
                s_bound(s[i].val, names)->Ok_0,
            ) by {
                if e.key != "work_at_most"@ {
                    assert(last_entry(u, "work_at_most"@, i));
                }
            }
            assert forall|i: int|
                #![trigger s[i]]
                last_entry(t, "moves_at_most"@, i) implies s_bound(s[i].val, names) is Ok && r.declared.moves == Some(
                s_bound(s[i].val, names)->Ok_0,
            ) by {
                if e.key != "moves_at_most"@ {
                    assert(last_entry(u, "moves_at_most"@, i));
                }
            }
            assert forall|i: int, j: int|
                #![trigger pieces_from(s[i].val, ',', 0)[j]]
                0 <= i < n && s[i].key == "sizes"@ && 0 <= j < pieces_from(s[i].val, ',', 0).len() implies size_part(
                names,
                pieces_from(s[i].val, ',', 0)[j],
                r.declared.sizes,
            ) by {
                if i < n - 1 {
                    assert(size_part(names, pieces_from(s[i].val, ',', 0)[j], p.declared.sizes));
                }
            }
        }
    }
}

/// A declaration that is read without complaint is read in full: it holds no other keys, the last
/// bound of each cost is the one declared, and every part of `sizes` gives a size its value.
pub proof fn declaration_read(names: Seq<Seq<char>>, s: Seq<PairV>)
    requires
        read_entries(names, s, s.len()).wrong.len() == 0,
    ensures
        ({
            let d = read_entries(names, s, s.len()).declared;
            &&& forall|i: int|
                0 <= i < s.len() ==> (#[trigger] s[i]).key == "work_at_most"@ || s[i].key == "moves_at_most"@ || s[i].key
                    == "sizes"@
            &&& forall|i: int|
                #[trigger] last_entry(s, "work_at_most"@, i) ==> s_bound(s[i].val, names) is Ok && d.work == Some(
                    s_bound(s[i].val, names)->Ok_0,
                )
            &&& forall|i: int|
                #[trigger] last_entry(s, "moves_at_most"@, i) ==> s_bound(s[i].val, names) is Ok && d.moves == Some(
                    s_bound(s[i].val, names)->Ok_0,
                )
            &&& forall|i: int, j: int|
                #![trigger pieces_from(s[i].val, ',', 0)[j]]
                0 <= i < s.len() && s[i].key == "sizes"@ && 0 <= j < pieces_from(s[i].val, ',', 0).len() ==> size_part(
                    names,
                    pieces_from(s[i].val, ',', 0)[j],
                    d.sizes,
                )
        }),
{
    reading(names, s, s.len());
    assert(s.take(s.len() as int) =~= s);
}

/// A function of which no violation is reported keeps its declaration: the last `work_at_most` bounds
/// its work, and the last `moves_at_most` its moves.
pub proof fn no_violation(cx: CxV, memo: MemoV)
    requires
        cx.f.body is Some,
        s_run(cx, memo).1.violations.len() == 0,
    ensures
        ({
            let c = s_run(cx, memo).1;
            let s = cx.f.asserts;
            let names = param_names(cx.f);
            &&& forall|i: int|
                #[trigger] last_entry(s, "work_at_most"@, i) ==> s_bound(s[i].val, names) is Ok && stays_within(
                    work_of(c.result),
                    s_bound(s[i].val, names)->Ok_0,
                    cx.k,
                    c.declared.sizes,
                )
            &&& forall|i: int|
                #[trigger] last_entry(s, "moves_at_most"@, i) ==> s_bound(s[i].val, names) is Ok && stays_within(
                    moves_of(c.result),
                    s_bound(s[i].val, names)->Ok_0,
                    cx.k,
                    c.declared.sizes,
                )
            &&& forall|i: int, j: int|
                #![trigger pieces_from(s[i].val, ',', 0)[j]]
                0 <= i < s.len() && s[i].key == "sizes"@ && 0 <= j < pieces_from(s[i].val, ',', 0).len() ==> size_part(
                    names,
                    pieces_from(s[i].val, ',', 0)[j],
                    c.declared.sizes,
                )
        }),
{
    reveal(r_run);
    reveal(body_cost);
    let c = s_run(cx, memo).1;
    let r = read_entries(param_names(cx.f), cx.f.asserts, cx.f.asserts.len());
    let broken = all_broken(cx.f, c.names, cx.k, r.declared, c.result);
    assert(c.violations == r.wrong + broken);
    declaration_read(param_names(cx.f), cx.f.asserts);
    nothing_broken(cx.f, c.names, cx.k, r.declared, c.result);
}

// ---- what it is to be dominated ----

proof fn degree_one(m: MonoV, v: int)
    requires
        crate::cost::algebra::m_wf(m),
    ensures
        degree_over(m.factors, seq![v]) == value(m.factors, AtomV::Var(v)),
{
    let vars = seq![v];
    crate::cost::degrees::degree_weighs(m.factors, vars);
    assert(vars[0] == v);
    assert(crate::cost::degrees::counts(vars) =~= crate::cost::assoc::pick(AtomV::Var(v))) by {
        assert forall|a: AtomV| #[trigger] crate::cost::degrees::counts(vars)(a) == crate::cost::assoc::pick(
            AtomV::Var(v),
        )(a) by {
            match a {
                AtomV::Var(i) => {
                    if vars.contains(i) {
                        let j = choose|j: int| 0 <= j < vars.len() && vars[j] == i;
                    }
                    if i == v {
                        assert(vars.contains(i));
                    }
                },
                _ => {},
            }
        }
    }
    crate::cost::assoc::weigh_pick(m.factors, AtomV::Var(v));
}

proof fn held_is_factor(m: MonoV, v: int)
    requires
        crate::cost::algebra::m_wf(m),
        !has_var(m, v),
    ensures
        value(m.factors, AtomV::Var(v)) == 0real,
{
    slot_splits(m.factors, AtomV::Var(v));
    if crate::cost::assoc::holds(m.factors, AtomV::Var(v)) {
        let i = crate::cost::assoc::slot(m.factors, AtomV::Var(v));
        assert(m.factors[i].0 == AtomV::Var(v));
    }
}

proof fn degree_reached(t: Seq<(MonoV, real)>, vars: Seq<int>)
    requires
        t.len() > 0,
    ensures
        terms_degree_in(t, vars) is Some,
        exists|i: int| 0 <= i < t.len() && degree_over((#[trigger] t[i]).0.factors, vars) == terms_degree_in(t, vars)->0,
        forall|i: int| 0 <= i < t.len() ==> degree_over((#[trigger] t[i]).0.factors, vars) <= terms_degree_in(t, vars)->0,
    decreases t.len(),
{
    let u = t.drop_last();
    let n = t.len() - 1;
    assert(t.last() == t[n]);
    if u.len() > 0 {
        degree_reached(u, vars);
        let k = choose|i: int|
            0 <= i < u.len() && degree_over((#[trigger] u[i]).0.factors, vars) == terms_degree_in(u, vars)->0;
        assert(u[k] == t[k]);
        assert forall|i: int| 0 <= i < t.len() implies degree_over((#[trigger] t[i]).0.factors, vars) <= terms_degree_in(
            t,
            vars,
        )->0 by {
            if i < n {
                assert(u[i] == t[i]);
            }
        }
        assert(degree_over(t[k].0.factors, vars) == terms_degree_in(t, vars)->0 || degree_over(t[n].0.factors, vars)
            == terms_degree_in(t, vars)->0);
    } else {
        assert(degree_over(t[n].0.factors, vars) == terms_degree_in(t, vars)->0);
    }
}

/// What is dominated does not grow faster in any size: its degree there is at most that of the bound.
pub proof fn dominated_degree(p: PolyV, q: PolyV, v: int)
    requires
        p_wf(p),
        p_wf(q),
        p.terms.len() > 0,
        p_dominated(p, q),
    ensures
        q.terms.len() > 0,
        p_degree_in(p, seq![v]) <= p_degree_in(q, seq![v]),
{
    let vars = seq![v];
    degree_reached(p.terms, vars);
    let i = choose|i: int|
        0 <= i < p.terms.len() && degree_over((#[trigger] p.terms[i]).0.factors, vars) == terms_degree_in(p.terms, vars)->0;
    let t = p.terms[i].0;
    assert(crate::cost::asserted::m_dominated(p.terms[i].0, q));
    let j = choose|j: int| 0 <= j < q.terms.len() && m_dominates((#[trigger] q.terms[j]).0, t);
    let u = q.terms[j].0;
    degree_reached(q.terms, vars);
    degree_one(t, v);
    degree_one(u, v);
    if has_var(u, v) || has_var(t, v) {
        assert(grows_in(u, t, v));
    } else {
        held_is_factor(u, v);
        held_is_factor(t, v);
    }
}

/// A bound is within itself, whatever factors its terms are scaled by.
pub proof fn dominated_by_itself(p: PolyV, q: PolyV)
    requires
        p_wf(p),
        p.terms.len() == q.terms.len(),
        forall|i: int| 0 <= i < p.terms.len() ==> (#[trigger] p.terms[i]).0 == q.terms[i].0,
    ensures
        p_dominated(p, q),
{
    assert forall|i: int| 0 <= i < p.terms.len() implies crate::cost::asserted::m_dominated((#[trigger] p.terms[i]).0, q) by {
        let m = p.terms[i].0;
        assert(q.terms[i].0 == m);
        assert forall|k: int| 0 <= k < m.factors.len() implies crate::cost::asserted::factor_covered(
            m,
            m,
            #[trigger] m.factors[k],
        ) by {
            entry_found(m.factors, k);
        }
        assert(m_dominates(q.terms[i].0, m));
    }
}

} // verus!
