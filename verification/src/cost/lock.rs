//! `costs.lock`: one line per function, sorted by name, written next to the source. It is
//! generated and committed, so a change in a function's cost is a diff in review.

use vstd::prelude::*;
use crate::ast::views;
use crate::cost::bounds::{Bound, BoundV};
use crate::cost::declare::{round, rounded};
use crate::cost::forms::{factors_at, opt_real, p_leading};
use crate::cost::machine::Machine;
use crate::cost::model::{mono_side, MonoV, PolyV};
use crate::cost::piece::{Cost, PieceV};
use crate::cost::rat::Rat;
use crate::cost::scop::{insert_text, text_place};
use crate::cost::show::{cost_text, poly_text, show_poly};
use crate::cost::signature::{CostResult, FuncCost, FuncCostV, ResultV, Suggestion, SuggestionV};
use crate::cost::size::{degree, Mono, Poly};
use crate::lines::{
    as_lines, find_word, first_word, in_order, lines_of, pad, padded, sort_texts, split_lines, write_lines,
};
use crate::num::Side;
use crate::text::{
    cat2, cat3, cat5, cat7, copy_text, decimal, int_text, same_text, show_i128, show_int, show_u64, texts,
};
use crate::words::{begins_with, has_start};

verus! {

/// A polynomial for a report line: in full when short, its leading terms with `≈` otherwise.
pub open spec fn brief_poly(p: PolyV, names: Seq<Seq<char>>) -> Seq<char> {
    if p.terms.len() <= 3 {
        poly_text(p, names)
    } else {
        "≈ "@ + poly_text(p_leading(p), names)
    }
}

/// A cost for a report line: that of its one polynomial, else in full.
pub open spec fn brief_text(s: Seq<PieceV>, names: Seq<Seq<char>>) -> Seq<char> {
    match only_poly(s) {
        Some(p) => brief_poly(p, names),
        None => cost_text(s, names),
    }
}

/// The polynomial of a cost that has one and holds always.
pub open spec fn only_poly(s: Seq<PieceV>) -> Option<PolyV> {
    if s.len() == 1 && s[0].conds.len() == 0 {
        Some(s[0].poly)
    } else {
        None
    }
}

// ---- gaps ----

/// A term with `B` and `M` at their machine values: its product of sizes, and its coefficient. The
/// powers count as values: none is cut before it is divided by.
pub open spec fn term_at(t: (MonoV, real), k: Machine) -> (MonoV, real) {
    let r = factors_at(t.0.factors, t.1, k.b_bytes as int, k.m_bytes as int, true);
    (MonoV { factors: r.0 }, r.1)
}

/// A product of higher degree, or of the same and later in the order of products.
pub open spec fn leads(a: MonoV, b: MonoV) -> bool {
    degree(a.factors) > degree(b.factors) || (degree(a.factors) == degree(b.factors) && mono_side(a, b) == Side::After)
}

/// The product of sizes that leads among those of the first `n` terms.
pub open spec fn top_product(t: Seq<(MonoV, real)>, k: Machine, n: nat) -> Option<MonoV>
    decreases n,
{
    if n == 0 {
        None
    } else {
        let m = term_at(t[n - 1], k).0;
        match top_product(t, k, (n - 1) as nat) {
            Some(b) => if leads(m, b) {
                Some(m)
            } else {
                Some(b)
            },
            None => Some(m),
        }
    }
}

/// The coefficients of a product of sizes among the first `n` terms, summed.
pub open spec fn product_total(t: Seq<(MonoV, real)>, k: Machine, m: MonoV, n: nat) -> real
    decreases n,
{
    if n == 0 {
        0real
    } else {
        let x = term_at(t[n - 1], k);
        product_total(t, k, m, (n - 1) as nat) + (if x.0 == m {
            x.1
        } else {
            0real
        })
    }
}

/// With `B` and `M` at their machine values, the terms of a cost collapse to one coefficient per
/// product of sizes; this is the one of the highest degree, also where its coefficients cancel.
pub open spec fn leading_numeric(p: PolyV, k: Machine) -> Option<(MonoV, real)> {
    match top_product(p.terms, k, p.terms.len()) {
        Some(m) => Some((m, product_total(p.terms, k, m, p.terms.len()))),
        None => None,
    }
}

/// The ratio of two costs' leading terms at the machine's `B` and `M`, when the size variables
/// cancel — or the plain ratio when both are numbers.
pub open spec fn s_gap(moves: PolyV, bound: PolyV, k: Machine) -> Option<real> {
    match (leading_numeric(moves, k), leading_numeric(bound, k)) {
        (Some((m, cm)), Some((b, cb))) => if m == b && cb > 0real {
            Some(cm / cb)
        } else {
            None
        },
        _ => None,
    }
}

pub open spec fn cost_gap(moves: Seq<PieceV>, bound: PolyV, k: Machine) -> Option<real> {
    match only_poly(moves) {
        Some(p) => s_gap(p, bound, k),
        None => None,
    }
}

/// Bytes as people write them.
pub open spec fn human_text(b: int) -> Seq<char> {
    if b % 1048576 == 0 {
        int_text(b / 1048576) + " MiB"@
    } else if b % 1024 == 0 {
        int_text(b / 1024) + " KiB"@
    } else {
        int_text(b)
    }
}

// ---- lines ----

/// The line of a function.
pub open spec fn line_text(c: FuncCostV) -> Seq<char> {
    match c.result {
        ResultV::Exact { work, moves } => padded(c.name, 16) + " work "@ + padded(cost_text(work, c.names), 28)
            + " moves "@ + padded(cost_text(moves, c.names), 28) + " "@ + c.tier,
        ResultV::Unknown { reason, line } => padded(c.name, 16) + " unknown: "@ + reason + " (line "@ + decimal(
            line as nat,
        ) + ")"@,
    }
}

pub open spec fn bound_gap_text(c: FuncCostV, b: BoundV, k: Machine) -> Seq<char> {
    match c.result {
        ResultV::Exact { work, moves } => match cost_gap(moves, b.moves, k) {
            Some(g) => "   gap "@ + int_text(rounded(g)) + "× at M = "@ + human_text(k.m_bytes as int) + ", B = "@
                + int_text(k.b_bytes as int),
            None => ""@,
        },
        ResultV::Unknown { reason, line } => ""@,
    }
}

pub open spec fn bound_line(c: FuncCostV, b: BoundV, k: Machine) -> Seq<char> {
    padded(""@, 16) + " lower bound      moves "@ + padded(poly_text(b.moves, c.names), 28) + " ("@ + b.kind + ", "@
        + b.citation + ")"@ + bound_gap_text(c, b, k)
}

/// The gap is against the function's own bound: the rewrite does not change what is computed.
pub open spec fn offer_gap_text(c: FuncCostV, moves: Seq<PieceV>, k: Machine) -> Seq<char> {
    if c.bounds.len() == 0 {
        ""@
    } else {
        match cost_gap(moves, c.bounds[0].moves, k) {
            Some(g) => "   gap "@ + int_text(rounded(g)) + "×"@,
            None => ""@,
        }
    }
}

pub open spec fn offer_line(c: FuncCostV, s: SuggestionV, k: Machine) -> Seq<char> {
    let head = padded(""@, 16) + " "@ + padded(s.label, 16);
    match s.result {
        ResultV::Exact { work, moves } => head + " work "@ + padded(brief_text(work, c.names), 28) + " moves "@ + padded(
            brief_text(moves, c.names),
            28,
        ) + " [--apply "@ + s.flag + "]"@ + offer_gap_text(c, moves, k),
        ResultV::Unknown { reason, line } => head + " unknown: "@ + reason,
    }
}

pub open spec fn bound_lines(c: FuncCostV, k: Machine) -> Seq<Seq<char>> {
    Seq::new(c.bounds.len(), |i: int| bound_line(c, c.bounds[i], k))
}

pub open spec fn note_lines(c: FuncCostV) -> Seq<Seq<char>> {
    Seq::new(c.notes.len(), |i: int| padded(""@, 16) + " "@ + c.notes[i])
}

pub open spec fn offer_lines(c: FuncCostV, k: Machine) -> Seq<Seq<char>> {
    Seq::new(c.suggestions.len(), |i: int| offer_line(c, c.suggestions[i], k))
}

/// The full report for one function: its line, then any bound, note and suggestion under it.
pub open spec fn report_text(c: FuncCostV, k: Machine) -> Seq<char> {
    as_lines(seq![line_text(c)] + bound_lines(c, k) + note_lines(c) + offer_lines(c, k))
}

/// The lockfile: a header, then the lines in order.
pub open spec fn render_text(source: Seq<char>, lines: Seq<Seq<char>>) -> Seq<char> {
    as_lines(
        seq!["# neant costs.lock — generated from "@ + source + "; do not edit"@] + in_order(lines),
    )
}

pub open spec fn all_lines(s: Seq<FuncCostV>) -> Seq<Seq<char>> {
    Seq::new(s.len(), |i: int| line_text(s[i]))
}

// ---- differences ----

/// A line that is about a function: neither a header nor blank.
pub open spec fn is_entry(l: Seq<char>) -> bool {
    !begins_with(l, "#"@) && first_word(l) is Some
}

/// The last of the first `n` lines that is about the function of that name.
pub open spec fn entry_of(lines: Seq<Seq<char>>, name: Seq<char>, n: nat) -> Option<Seq<char>>
    decreases n,
{
    if n == 0 {
        None
    } else if is_entry(lines[n - 1]) && first_word(lines[n - 1]) == Some(name) {
        Some(lines[n - 1])
    } else {
        entry_of(lines, name, (n - 1) as nat)
    }
}

/// The names of the first `n` lines added to those in order.
pub open spec fn entry_names(s: Seq<Seq<char>>, lines: Seq<Seq<char>>, n: nat) -> Seq<Seq<char>>
    decreases n,
{
    if n == 0 {
        s
    } else {
        let before = entry_names(s, lines, (n - 1) as nat);
        if is_entry(lines[n - 1]) {
            text_place(before, first_word(lines[n - 1])->0)
        } else {
            before
        }
    }
}

pub open spec fn entry_text(lines: Seq<Seq<char>>, name: Seq<char>) -> Seq<char> {
    match entry_of(lines, name, lines.len()) {
        Some(l) => l,
        None => Seq::empty(),
    }
}

/// The lines of the first `n` names that differ.
pub open spec fn differing(a: Seq<Seq<char>>, b: Seq<Seq<char>>, names: Seq<Seq<char>>, n: nat) -> Seq<(Seq<char>, Seq<char>)>
    decreases n,
{
    if n == 0 {
        Seq::empty()
    } else {
        let before = differing(a, b, names, (n - 1) as nat);
        let x = entry_text(a, names[n - 1]);
        let y = entry_text(b, names[n - 1]);
        if x == y {
            before
        } else {
            before.push((x, y))
        }
    }
}

/// Lines that differ between an existing lockfile and a fresh rendering, as `(old, new)` pairs
/// keyed by function name. Header lines are ignored.
pub open spec fn s_diff(old: Seq<char>, new: Seq<char>) -> Seq<(Seq<char>, Seq<char>)> {
    let a = lines_of(old);
    let b = lines_of(new);
    let names = entry_names(entry_names(Seq::empty(), a, a.len()), b, b.len());
    differing(a, b, names, names.len())
}

// ---- the computation ----

fn brief(c: &Cost, names: &Vec<String>) -> (r: String)
    ensures
        r@ == brief_text(c@, texts(names@)),
{
    match lone_poly(c) {
        Some(p) => {
            if p.len() <= 3 {
                show_poly(p, names)
            } else {
                cat2("≈ ", &show_poly(&p.leading(), names))
            }
        },
        None => c.display(names).to_string(),
    }
}

fn lone_poly(c: &Cost) -> (r: Option<&Poly>)
    ensures
        (match r {
            Some(p) => Some(p@),
            None => None,
        }) == only_poly(c@),
{
    if c.pieces.len() == 1 {
        assert(c@[0] == c.pieces@[0]@);
        if c.pieces[0].conds.len() == 0 {
            return Some(&c.pieces[0].poly);
        }
    }
    None
}

#[verifier::loop_isolation(false)]
fn leading_of(p: &Poly, k: &Machine) -> (r: Option<(Mono, Rat)>)
    requires
        k.ok(),
    ensures
        (match r {
            Some(x) => Some((x.0@, x.1@)),
            None => None,
        }) == leading_numeric(p@, *k),
{
    let ghost t = p@.terms;
    let mut best: Option<Mono> = None;
    let mut n: usize = 0;
    while n < p.len()
        invariant
            n <= t.len(),
            t == p@.terms,
            k.ok(),
            (match best {
                Some(m) => Some(m@),
                None => None,
            }) == top_product(t, *k, n as nat),
        decreases t.len() - n,
    {
        let (m, _) = p.mono_at(n).at_machine(p.coeff_at(n), k.b_bytes, k.m_bytes, true);
        assert(m@ == term_at(t[n as int], *k).0);
        best = match best {
            Some(b) => {
                if is_leading(&m, &b) {
                    Some(m)
                } else {
                    Some(b)
                }
            },
            None => Some(m),
        };
        n += 1;
    }
    match best {
        Some(m) => {
            let mut sum = Rat::zero();
            let mut i: usize = 0;
            while i < p.len()
                invariant
                    i <= t.len(),
                    t == p@.terms,
                    k.ok(),
                    sum@ == product_total(t, *k, m@, i as nat),
                decreases t.len() - i,
            {
                let (x, c) = p.mono_at(i).at_machine(p.coeff_at(i), k.b_bytes, k.m_bytes, true);
                assert(x@ == term_at(t[i as int], *k).0);
                if x.same(&m) {
                    sum = sum.add(&c);
                }
                i += 1;
            }
            Some((m, sum))
        },
        None => None,
    }
}

fn is_leading(a: &Mono, b: &Mono) -> (r: bool)
    ensures
        r == leads(a@, b@),
{
    match a.degree().side(&b.degree()) {
        Side::After => true,
        Side::Same => a.side(b) == Side::After,
        Side::Before => false,
    }
}

/// The ratio of two costs' leading terms at the machine's `B` and `M`, when the size variables
/// cancel — or the plain ratio when both are numbers.
pub fn gap(moves: &Poly, bound: &Poly, k: &Machine) -> (r: Option<Rat>)
    requires
        k.ok(),
    ensures
        opt_real(r) == s_gap(moves@, bound@, *k),
{
    match (leading_of(moves, k), leading_of(bound, k)) {
        (Some((m, cm)), Some((b, cb))) => {
            if m.same(&b) && cb.is_positive() {
                Some(cm.over(&cb))
            } else {
                None
            }
        },
        _ => None,
    }
}

fn gap_of(moves: &Cost, bound: &Poly, k: &Machine) -> (r: Option<Rat>)
    requires
        k.ok(),
    ensures
        opt_real(r) == cost_gap(moves@, bound@, *k),
{
    match lone_poly(moves) {
        Some(p) => gap(p, bound, k),
        None => None,
    }
}

fn human(b: i128) -> (r: String)
    requires
        b >= 0,
    ensures
        r@ == human_text(b as int),
{
    if b % 1048576 == 0 {
        cat2(&show_i128(b / 1048576), " MiB")
    } else if b % 1024 == 0 {
        cat2(&show_i128(b / 1024), " KiB")
    } else {
        show_i128(b)
    }
}

/// The line of a function.
pub fn line(c: &FuncCost) -> (r: String)
    ensures
        r@ == line_text(c@),
{
    match &c.result {
        CostResult::Exact { work, moves } => {
            let w = work.display(&c.names).to_string();
            let m = moves.display(&c.names).to_string();
            let head = cat5(&pad(&c.name, 16), " work ", &pad(&w, 28), " moves ", &pad(&m, 28));
            cat3(&head, " ", &c.tier)
        },
        CostResult::Unknown { reason, line } => {
            let head = cat5(&pad(&c.name, 16), " unknown: ", reason, " (line ", &show_u64(*line as u64));
            cat2(&head, ")")
        },
    }
}

fn show_bound(c: &FuncCost, b: &Bound, k: &Machine) -> (r: String)
    requires
        k.ok(),
    ensures
        r@ == bound_line(c@, b@, *k),
{
    let g = match &c.result {
        CostResult::Exact { work, moves } => match gap_of(moves, &b.moves, k) {
            Some(g) => {
                let head = cat5("   gap ", &show_int(&round(&g)), "× at M = ", &human(k.m_bytes), ", B = ");
                cat2(&head, &show_i128(k.b_bytes))
            },
            None => "".to_owned(),
        },
        CostResult::Unknown { reason, line } => "".to_owned(),
    };
    let p = pad(&show_poly(&b.moves, &c.names), 28);
    let head = cat7(&pad("", 16), " lower bound      moves ", &p, " (", &b.kind, ", ", &b.citation);
    cat3(&head, ")", &g)
}

fn show_offer(c: &FuncCost, s: &Suggestion, k: &Machine) -> (r: String)
    requires
        k.ok(),
    ensures
        r@ == offer_line(c@, s@, *k),
{
    let head = cat3(&pad("", 16), " ", &pad(&s.label, 16));
    match &s.result {
        CostResult::Exact { work, moves } => {
            let g = if c.bounds.len() == 0 {
                "".to_owned()
            } else {
                assert(c@.bounds[0] == c.bounds@[0]@);
                match gap_of(moves, &c.bounds[0].moves, k) {
                    Some(g) => cat3("   gap ", &show_int(&round(&g)), "×"),
                    None => "".to_owned(),
                }
            };
            let w = pad(&brief(work, &c.names), 28);
            let m = pad(&brief(moves, &c.names), 28);
            let all = cat7(&head, " work ", &w, " moves ", &m, " [--apply ", &s.flag);
            cat3(&all, "]", &g)
        },
        CostResult::Unknown { reason, line } => cat3(&head, " unknown: ", reason),
    }
}

/// The full report for one function: its line, then any bound, note and suggestion under it.
#[verifier::loop_isolation(false)]
pub fn report(c: &FuncCost, m: &Machine) -> (r: String)
    requires
        m.ok(),
    ensures
        r@ == report_text(c@, *m),
{
    let ghost cv = c@;
    let mut out: Vec<String> = Vec::new();
    out.push(line(c));
    let mut i: usize = 0;
    while i < c.bounds.len()
        invariant
            i <= c.bounds@.len(),
            out@.len() == 1 + i,
            out@[0]@ == line_text(cv),
            forall|j: int| 0 <= j < i ==> (#[trigger] out@[1 + j])@ == bound_line(cv, cv.bounds[j], *m),
        decreases c.bounds@.len() - i,
    {
        assert(cv.bounds[i as int] == c.bounds@[i as int]@);
        let s = show_bound(c, &c.bounds[i], m);
        out.push(s);
        i += 1;
    }
    let ghost first = seq![line_text(cv)] + bound_lines(cv, *m);
    proof {
        assert forall|j: int| 0 <= j < first.len() implies #[trigger] texts(out@)[j] == first[j] by {
            if j > 0 {
                assert(out@[1 + (j - 1)]@ == bound_line(cv, cv.bounds[j - 1], *m));
            }
        }
        assert(texts(out@) =~= first);
    }
    let mut i: usize = 0;
    assert(first + note_lines(cv).take(0) =~= first);
    while i < c.notes.len()
        invariant
            i <= c.notes@.len(),
            texts(out@) == first + note_lines(cv).take(i as int),
        decreases c.notes@.len() - i,
    {
        assert(cv.notes[i as int] == c.notes@[i as int]@);
        let s = cat3(&pad("", 16), " ", &c.notes[i]);
        assert(texts(out@.push(s)) =~= texts(out@).push(s@));
        assert(note_lines(cv).take(i + 1) =~= note_lines(cv).take(i as int).push(s@));
        assert((first + note_lines(cv).take(i as int)).push(s@) =~= first + note_lines(cv).take(i + 1));
        out.push(s);
        i += 1;
    }
    assert(note_lines(cv).take(i as int) =~= note_lines(cv));
    let ghost second = first + note_lines(cv);
    let mut i: usize = 0;
    assert(second + offer_lines(cv, *m).take(0) =~= second);
    while i < c.suggestions.len()
        invariant
            i <= c.suggestions@.len(),
            texts(out@) == second + offer_lines(cv, *m).take(i as int),
        decreases c.suggestions@.len() - i,
    {
        assert(cv.suggestions[i as int] == c.suggestions@[i as int]@);
        let s = show_offer(c, &c.suggestions[i], m);
        let ghost ol = offer_lines(cv, *m);
        assert(texts(out@.push(s)) =~= texts(out@).push(s@));
        assert(ol.take(i + 1) =~= ol.take(i as int).push(s@));
        assert((second + ol.take(i as int)).push(s@) =~= second + ol.take(i + 1));
        out.push(s);
        i += 1;
    }
    assert(offer_lines(cv, *m).take(i as int) =~= offer_lines(cv, *m));
    write_lines(&out)
}

/// The lockfile of a source's functions.
#[verifier::loop_isolation(false)]
pub fn render(source_name: &str, costs: &[FuncCost]) -> (r: String)
    ensures
        r@ == render_text(source_name@, all_lines(views(costs@))),
{
    let ghost v = views(costs@);
    let mut lines: Vec<String> = Vec::new();
    let mut i: usize = 0;
    while i < costs.len()
        invariant
            i <= costs@.len(),
            lines@.len() == i,
            forall|j: int| 0 <= j < i ==> (#[trigger] lines@[j])@ == line_text(v[j]),
        decreases costs@.len() - i,
    {
        assert(v[i as int] == costs@[i as int]@);
        lines.push(line(&costs[i]));
        i += 1;
    }
    assert(texts(lines@) =~= all_lines(v));
    let mut sorted = sort_texts(lines);
    let ghost sv = texts(sorted@);
    let head = cat3("# neant costs.lock — generated from ", source_name, "; do not edit");
    let mut out: Vec<String> = Vec::new();
    out.push(head);
    out.append(&mut sorted);
    assert(texts(out@) =~= seq![head@] + sv);
    write_lines(&out)
}

fn entry_name(l: &String) -> (r: Option<String>)
    ensures
        match r {
            Some(w) => is_entry(l@) && first_word(l@) == Some(w@),
            None => !is_entry(l@),
        },
{
    if has_start(l, "#") {
        return None;
    }
    find_word(l)
}

#[verifier::loop_isolation(false)]
fn add_names(names: &mut Vec<String>, lines: &Vec<String>)
    ensures
        texts(final(names)@) == entry_names(texts(old(names)@), texts(lines@), lines@.len()),
{
    let ghost start = texts(names@);
    let ghost v = texts(lines@);
    let mut n: usize = 0;
    while n < lines.len()
        invariant
            n <= lines@.len(),
            texts(names@) == entry_names(start, v, n as nat),
        decreases lines@.len() - n,
    {
        assert(v[n as int] == lines@[n as int]@);
        match entry_name(&lines[n]) {
            Some(w) => {
                insert_text(names, w);
            },
            None => {},
        }
        n += 1;
    }
}

fn find_entry(lines: &Vec<String>, name: &String) -> (r: String)
    ensures
        r@ == entry_text(texts(lines@), name@),
{
    let ghost v = texts(lines@);
    let mut n: usize = lines.len();
    while n > 0
        invariant
            n <= lines@.len(),
            v == texts(lines@),
            entry_of(v, name@, v.len()) == entry_of(v, name@, n as nat),
        decreases n,
    {
        assert(v[n - 1] == lines@[n - 1]@);
        match entry_name(&lines[n - 1]) {
            Some(w) => {
                if same_text(&w, name) {
                    return copy_text(&lines[n - 1]);
                }
            },
            None => {},
        }
        n -= 1;
    }
    proof {
        reveal_strlit("");
        assert(""@ =~= Seq::<char>::empty());
    }
    "".to_owned()
}

pub open spec fn pairs_v(s: Seq<(String, String)>) -> Seq<(Seq<char>, Seq<char>)> {
    Seq::new(s.len(), |i: int| (s[i].0@, s[i].1@))
}

/// Lines that differ between an existing lockfile and a fresh rendering, as `(old, new)` pairs
/// keyed by function name. Header lines are ignored.
#[verifier::loop_isolation(false)]
pub fn diff(old: &str, new: &str) -> (r: Vec<(String, String)>)
    ensures
        pairs_v(r@) == s_diff(old@, new@),
{
    let a = split_lines(old);
    let b = split_lines(new);
    let ghost av = texts(a@);
    let ghost bv = texts(b@);
    let mut names: Vec<String> = Vec::new();
    assert(texts(names@) =~= Seq::empty());
    add_names(&mut names, &a);
    add_names(&mut names, &b);
    let ghost nv = texts(names@);
    let mut out: Vec<(String, String)> = Vec::new();
    let mut n: usize = 0;
    assert(pairs_v(out@) =~= Seq::empty());
    while n < names.len()
        invariant
            n <= names@.len(),
            pairs_v(out@) == differing(av, bv, nv, n as nat),
        decreases names@.len() - n,
    {
        assert(nv[n as int] == names@[n as int]@);
        let x = find_entry(&a, &names[n]);
        let y = find_entry(&b, &names[n]);
        if !same_text(&x, &y) {
            let ghost p = (x@, y@);
            assert(pairs_v(out@.push((x, y))) =~= pairs_v(out@).push(p));
            out.push((x, y));
        }
        n += 1;
    }
    out
}

} // verus!
