//! Costs at the sizes a user gives, sizes in bytes, and bounds from outside.

use vstd::prelude::*;
use crate::cost::bounds::{bounds_distinct, bounds_sorted, bounds_v, strongest_first, Bound, BoundV};
use crate::cost::iolb::{parse, s_ginac, terms_bytes, to_bytes};
use crate::cost::machine::Machine;
use crate::lines::{find_word, first_word, lines_of, split_lines};
use crate::cost::model::PolyV;
use crate::cost::piece::{Cost, PieceV};
use crate::cost::wide::{cost_value, numbers_v, opt_number, read_number, wide_value, NumV, Number, SpotV};
use crate::cost::show::{join, join_texts};
use crate::cost::signature::{FuncCost, FuncCostV};
use crate::cost::size::Poly;
use crate::lex::slice_of;
use crate::num::BigInt;
use crate::text::{copy_text, int_text, show_i64, cat2, chars_of, same_text, text_of, texts};
use crate::words::{cut_at, find_char, lists, pieces_from, signed_number, signed_value, split, trim, trimmed};

verus! {

// ---- `--eval` ----

/// `name=value`.
pub open spec fn given_size(part: Seq<char>) -> Option<(Seq<char>, NumV)> {
    let i = cut_at(part, '=', 0);
    if i >= part.len() {
        None
    } else {
        match wide_value(trimmed(part.skip(i + 1))) {
            Some(v) => Some((trimmed(part.take(i)), v)),
            None => None,
        }
    }
}

/// The first `n` of the sizes given, if every one is `name=value`.
pub open spec fn given_sizes(parts: Seq<Seq<char>>, n: nat) -> Option<Seq<(Seq<char>, NumV)>>
    decreases n,
{
    if n == 0 {
        Some(Seq::empty())
    } else {
        match (given_sizes(parts, (n - 1) as nat), given_size(parts[n - 1])) {
            (Some(s), Some(x)) => Some(s.push(x)),
            _ => None,
        }
    }
}

/// The first value given to a name, from the `i`-th on.
pub open spec fn value_given(s: Seq<(Seq<char>, NumV)>, name: Seq<char>, i: nat) -> Option<NumV>
    decreases s.len() - i,
{
    if i >= s.len() {
        None
    } else if s[i as int].0 == name {
        Some(s[i as int].1)
    } else {
        value_given(s, name, i + 1)
    }
}

/// The sizes of a function that are given by name, among its first `n`.
pub open spec fn named_sizes(names: Seq<Seq<char>>, s: Seq<(Seq<char>, NumV)>, n: nat) -> SpotV
    decreases n,
{
    if n == 0 {
        Seq::empty()
    } else {
        let before = named_sizes(names, s, (n - 1) as nat);
        match value_given(s, names[n - 1], 0) {
            Some(v) => before.push(((n - 1) as usize, v)),
            None => before,
        }
    }
}

/// The value of a cost at `n=1000,a.len()=1000`: every size variable of the function must be
/// given. Conditions are decided at the machine's `B` and `M`, and the applicable pieces' maximum
/// is taken.
pub open spec fn value_at(names: Seq<Seq<char>>, cost: Seq<PieceV>, ev: Seq<char>, k: Machine) -> Option<NumV> {
    let parts = pieces_from(ev, ',', 0);
    match given_sizes(parts, parts.len()) {
        Some(s) => cost_value(cost, k, named_sizes(names, s, names.len())),
        None => None,
    }
}

pub open spec fn given_v(s: Seq<(String, Number)>) -> Seq<(Seq<char>, NumV)> {
    Seq::new(s.len(), |i: int| (s[i].0@, s[i].1@))
}

fn read_size(part: &Vec<char>) -> (r: Option<(String, Number)>)
    ensures
        (match r {
            Some(x) => Some((x.0@, x.1@)),
            None => None,
        }) == given_size(part@),
{
    let i = find_char(part, '=', 0);
    let n = part.len();
    if i >= n {
        return None;
    }
    let head = slice_of(part, 0, i);
    let tail = slice_of(part, i + 1, n);
    assert(head@ =~= part@.take(i as int));
    assert(tail@ =~= part@.skip(i + 1));
    match read_number(&trim(&tail)) {
        Some(v) => Some((text_of(&trim(&head)), v)),
        None => None,
    }
}

proof fn sizes_fail(parts: Seq<Seq<char>>, n: nat, m: nat)
    requires
        n <= m,
        given_sizes(parts, n) is None,
    ensures
        given_sizes(parts, m) is None,
    decreases m - n,
{
    if n < m {
        assert(given_sizes(parts, n + 1) is None);
        sizes_fail(parts, n + 1, m);
    }
}

#[verifier::loop_isolation(false)]
fn read_sizes(ev: &str) -> (r: Option<Vec<(String, Number)>>)
    ensures
        (match r {
            Some(s) => Some(given_v(s@)),
            None => None,
        }) == given_sizes(pieces_from(ev@, ',', 0), pieces_from(ev@, ',', 0).len()),
{
    let parts = split(&chars_of(ev), ',');
    let ghost pv = lists(parts@);
    let mut out: Vec<(String, Number)> = Vec::new();
    let mut n: usize = 0;
    assert(given_v(out@) =~= Seq::empty());
    while n < parts.len()
        invariant
            n <= parts@.len(),
            given_sizes(pv, n as nat) == Some(given_v(out@)),
        decreases parts@.len() - n,
    {
        assert(pv[n as int] == parts@[n as int]@);
        match read_size(&parts[n]) {
            Some(x) => {
                let ghost xv = (x.0@, x.1@);
                assert(given_v(out@.push(x)) =~= given_v(out@).push(xv));
                out.push(x);
            },
            None => {
                proof {
                    assert(given_sizes(pv, (n + 1) as nat) is None);
                    sizes_fail(pv, (n + 1) as nat, pv.len());
                }
                return None;
            },
        }
        n += 1;
    }
    Some(out)
}

fn find_value(s: &Vec<(String, Number)>, name: &String) -> (r: Option<Number>)
    ensures
        opt_number(r) == value_given(given_v(s@), name@, 0),
{
    let ghost v = given_v(s@);
    let mut i: usize = 0;
    while i < s.len()
        invariant
            i <= s@.len(),
            v == given_v(s@),
            value_given(v, name@, 0) == value_given(v, name@, i as nat),
        decreases s@.len() - i,
    {
        assert(v[i as int] == (s@[i as int].0@, s@[i as int].1@));
        if same_text(&s[i].0, name) {
            return Some(s[i].1.copy());
        }
        i += 1;
    }
    None
}

fn sizes_named(names: &Vec<String>, s: &Vec<(String, Number)>) -> (r: Vec<(usize, Number)>)
    ensures
        numbers_v(r@) == named_sizes(texts(names@), given_v(s@), names@.len()),
{
    let ghost nv = texts(names@);
    let mut r: Vec<(usize, Number)> = Vec::new();
    let mut i: usize = 0;
    assert(numbers_v(r@) =~= Seq::empty());
    while i < names.len()
        invariant
            i <= names@.len(),
            nv == texts(names@),
            numbers_v(r@) == named_sizes(nv, given_v(s@), i as nat),
        decreases names@.len() - i,
    {
        assert(nv[i as int] == names@[i as int]@);
        if let Some(v) = find_value(s, &names[i]) {
            let ghost vv = v@;
            assert(numbers_v(r@.push((i, v))) =~= numbers_v(r@).push((i, vv)));
            r.push((i, v));
        }
        i += 1;
    }
    r
}

/// The value of one of a function's costs at the sizes given.
pub fn eval_one(c: &FuncCost, cost: &Cost, ev: &str, m: &Machine) -> (r: Option<Number>)
    requires
        m.ok(),
    ensures
        opt_number(r) == value_at(c@.names, cost@, ev@, *m),
{
    match read_sizes(ev) {
        Some(s) => cost.eval(&sizes_named(&c.names, &s), m),
        None => None,
    }
}

/// The values of a function's work and moves at the sizes given.
pub fn evaluate(c: &FuncCost, work: &Cost, moves: &Cost, ev: &str, m: &Machine) -> (r: Option<(Number, Number)>)
    requires
        m.ok(),
    ensures
        match r {
            Some(x) => value_at(c@.names, work@, ev@, *m) == Some(x.0@) && value_at(c@.names, moves@, ev@, *m) == Some(
                x.1@,
            ),
            None => value_at(c@.names, work@, ev@, *m) is None || value_at(c@.names, moves@, ev@, *m) is None,
        },
{
    match (eval_one(c, work, ev, m), eval_one(c, moves, ev, m)) {
        (Some(w), Some(v)) => Some((w, v)),
        _ => None,
    }
}

// ---- sizes in bytes ----

/// Bytes, with `K` for 1024 of them and `M` for 1024 of those, as far as they fit in 128 bits.
pub open spec fn bytes_value(s: Seq<char>) -> Option<int> {
    let unit: int = if s.len() > 0 && s.last() == 'K' {
        1024
    } else if s.len() > 0 && s.last() == 'M' {
        1048576
    } else {
        1
    };
    let digits = if unit == 1 {
        s
    } else {
        s.drop_last()
    };
    match signed_value(digits) {
        Some(v) => if i128::MIN <= v * unit <= i128::MAX {
            Some(v * unit)
        } else {
            None
        },
        None => None,
    }
}

/// The bytes that a text names.
pub fn parse_bytes(s: &str) -> (r: Option<i128>)
    ensures
        (match r {
            Some(v) => Some(v as int),
            None => None,
        }) == bytes_value(s@),
{
    let c = chars_of(s);
    let n = c.len();
    if n > 0 && (c[n - 1] == 'K' || c[n - 1] == 'M') {
        let unit: i128 = if c[n - 1] == 'K' {
            1024
        } else {
            1048576
        };
        let digits = slice_of(&c, 0, n - 1);
        assert(digits@ =~= c@.drop_last());
        return match signed_number(&digits) {
            Some(v) => v.times(&BigInt::from_i128(unit)).to_i128(),
            None => None,
        };
    }
    match signed_number(&c) {
        Some(v) => v.to_i128(),
        None => None,
    }
}

// ---- bounds from outside ----

pub open spec fn outside_kind(assumptions: Seq<Seq<char>>) -> Seq<char> {
    if assumptions.len() == 0 {
        "whole function"@
    } else {
        "whole function, untiled, if "@ + join(assumptions, " and "@)
    }
}

/// A function with a bound found by IOLB: both are valid lower bounds; the report leads with the
/// asymptotically stronger one.
pub open spec fn with_outside_bound(c: FuncCostV, line: u32, assumptions: Seq<Seq<char>>, p: PolyV, k: Machine) -> FuncCostV {
    let b = BoundV {
        kind: outside_kind(assumptions),
        citation: "IOLB, Olivry et al. 2020"@,
        moves: p,
        line: if c.bounds.len() > 0 {
            c.bounds[0].line
        } else {
            line
        },
        cold: false,
    };
    FuncCostV { bounds: bounds_sorted(bounds_distinct(c.bounds.push(b)), k), ..c }
}

/// Take a bound found by IOLB for the function that starts at `line`.
pub fn take_bound(c: &mut FuncCost, line: u32, assumptions: &Vec<String>, p: Poly, k: &Machine)
    requires
        k.ok(),
    ensures
        final(c)@ == with_outside_bound(old(c)@, line, texts(assumptions@), p@, *k),
{
    let kind = if assumptions.len() == 0 {
        "whole function".to_owned()
    } else {
        cat2("whole function, untiled, if ", &join_texts(assumptions, " and "))
    };
    let at = if c.bounds.len() > 0 {
        assert(c@.bounds[0] == c.bounds@[0]@);
        c.bounds[0].line
    } else {
        line
    };
    let b = Bound { kind, citation: "IOLB, Olivry et al. 2020".to_owned(), moves: p, line: at, cold: false };
    assert(bounds_v(c.bounds@.push(b)) =~= bounds_v(c.bounds@).push(b@));
    c.bounds.push(b);
    strongest_first(&mut c.bounds, k);
}

/// Say that IOLB gave no bound, or was not asked; that is worth saying only of a function that
/// has bounds.
pub open spec fn with_refusal(c: FuncCostV, asked: bool, why: Seq<char>) -> FuncCostV {
    if asked {
        FuncCostV { notes: c.notes.push("IOLB gave no bound: "@ + why), ..c }
    } else if c.bounds.len() > 0 {
        FuncCostV { notes: c.notes.push("IOLB not asked: "@ + why), ..c }
    } else {
        c
    }
}

pub fn take_refusal(c: &mut FuncCost, asked: bool, why: &str)
    ensures
        final(c)@ == with_refusal(old(c)@, asked, why@),
{
    if asked {
        let s = cat2("IOLB gave no bound: ", why);
        assert(texts(c.notes@.push(s)) =~= texts(c.notes@).push(s@));
        c.notes.push(s);
    } else if c.bounds.len() > 0 {
        let s = cat2("IOLB not asked: ", why);
        assert(texts(c.notes@.push(s)) =~= texts(c.notes@).push(s@));
        c.notes.push(s);
    }
}

/// The lines that hold a word.
pub open spec fn worded(s: Seq<Seq<char>>) -> Seq<Seq<char>>
    decreases s.len(),
{
    if s.len() == 0 {
        s
    } else if first_word(s.last()) is Some {
        worded(s.drop_last()).push(s.last())
    } else {
        worded(s.drop_last())
    }
}

/// The bound in bytes in what IOLB wrote: the line before the last, once it ended well.
pub open spec fn output_bound(code: Option<i32>, out: Seq<char>, err: Seq<char>, names: Seq<Seq<char>>) -> Result<
    PolyV,
    Seq<char>,
> {
    if code == Some(0i32) {
        let lines = worded(lines_of(out));
        let said = lines_of(err);
        if lines.len() < 3 {
            Err(
                "IOLB gave no bound: "@ + (if said.len() == 0 {
                    "(no output)"@
                } else {
                    said.last()
                }),
            )
        } else {
            match s_ginac(lines[lines.len() - 2], names) {
                Ok(p) => Ok(terms_bytes(p.terms)),
                Err(e) => Err(e),
            }
        }
    } else if code is None || code == Some(137i32) {
        Err("IOLB did not finish within IOLB_TIMEOUT"@)
    } else {
        Err("IOLB exited with "@ + int_text(code->0 as int))
    }
}

#[verifier::loop_isolation(false)]
fn worded_lines(text: &str) -> (r: Vec<String>)
    ensures
        texts(r@) == worded(lines_of(text@)),
{
    let all = split_lines(text);
    let ghost v = texts(all@);
    let mut r: Vec<String> = Vec::new();
    let mut i: usize = 0;
    proof {
        assert(v.take(0) =~= Seq::empty());
        assert(texts(r@) =~= Seq::empty());
    }
    while i < all.len()
        invariant
            i <= all@.len(),
            texts(r@) == worded(v.take(i as int)),
        decreases all@.len() - i,
    {
        proof {
            assert(v.take(i + 1).drop_last() =~= v.take(i as int));
            assert(v.take(i + 1).last() == all@[i as int]@);
        }
        if find_word(&all[i]).is_some() {
            let s = copy_text(&all[i]);
            assert(texts(r@.push(s)) =~= texts(r@).push(s@));
            r.push(s);
        }
        i += 1;
    }
    assert(v.take(i as int) =~= v);
    r
}

/// The bound in bytes in what IOLB wrote, over a function's sizes.
pub fn bound_in_output(code: Option<i32>, out: &str, err: &str, names: &[String]) -> (r: Result<Poly, String>)
    ensures
        (match r {
            Ok(p) => Ok(p@),
            Err(e) => Err(e@),
        }) == output_bound(code, out@, err@, texts(names@)),
{
    match code {
        None => Err("IOLB did not finish within IOLB_TIMEOUT".to_owned()),
        Some(c) => {
            if c == 137 {
                return Err("IOLB did not finish within IOLB_TIMEOUT".to_owned());
            }
            if c != 0 {
                return Err(cat2("IOLB exited with ", &show_i64(c as i64)));
            }
            let lines = worded_lines(out);
            let n = lines.len();
            if n < 3 {
                let said = split_lines(err);
                if said.len() == 0 {
                    return Err(cat2("IOLB gave no bound: ", "(no output)"));
                }
                let last: usize = said.len() - 1;
                assert(texts(said@).last() == said@[last as int]@);
                return Err(cat2("IOLB gave no bound: ", &said[last]));
            }
            assert(texts(lines@)[n - 2] == lines@[n - 2]@);
            match parse(&lines[n - 2], names) {
                Ok(p) => Ok(to_bytes(&p)),
                Err(e) => Err(e),
            }
        },
    }
}

} // verus!
