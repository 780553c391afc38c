//! What a lockfile gives back: the lines that were written into it are the lines read from it, an
//! update changes one function's line, and two lockfiles without a difference say the same.

use vstd::prelude::*;
use crate::cost::lock::{
    all_lines, differing, entry_names, entry_of, entry_text, is_entry, line_text, render_text, s_diff,
};
use crate::cost::measure::{headers, is_about, line_replaced, lines_replaced, lock_updated};
use crate::cost::model::{text_side, text_side_chain, text_side_same};
use crate::cost::scan::past_space;
use crate::cost::scop::text_place;
use crate::cost::signature::FuncCostV;
use crate::lex::blank;
use crate::lines::{as_lines, first_word, in_order, lines_of, text_behind, without_return, word_end};
use crate::num::Side;
use crate::words::{begins_with, cut_at, pieces_from};

verus! {

// ---- lines ----

/// A line in itself: it holds no line feed and does not end in a carriage return.
pub open spec fn one_line(s: Seq<char>) -> bool {
    !s.contains('\n') && (s.len() > 0 ==> s.last() != '\r')
}

pub open spec fn single_lines(s: Seq<Seq<char>>) -> bool {
    forall|i: int| 0 <= i < s.len() ==> one_line(#[trigger] s[i])
}

proof fn cut_found(s: Seq<char>, i: int, j: int)
    requires
        0 <= i <= j < s.len(),
        s[j] == '\n',
        forall|t: int| i <= t < j ==> s[t] != '\n',
    ensures
        cut_at(s, '\n', i) == j,
    decreases j - i,
{
    if i < j {
        cut_found(s, i + 1, j);
    }
}

/// The lines up to the `n`-th start the text.
proof fn lines_start(ls: Seq<Seq<char>>, n: int)
    requires
        0 <= n <= ls.len(),
    ensures
        as_lines(ls.take(n)).len() <= as_lines(ls).len(),
        as_lines(ls).take(as_lines(ls.take(n)).len() as int) == as_lines(ls.take(n)),
    decreases ls.len(),
{
    if n == ls.len() {
        assert(ls.take(n) =~= ls);
        assert(as_lines(ls).take(as_lines(ls).len() as int) =~= as_lines(ls));
    } else {
        let less = ls.drop_last();
        lines_start(less, n);
        assert(less.take(n) =~= ls.take(n));
        let k = as_lines(ls.take(n)).len() as int;
        assert(as_lines(ls).take(k) =~= as_lines(less).take(k));
    }
}

proof fn pieces_back(ls: Seq<Seq<char>>, n: int)
    requires
        single_lines(ls),
        0 <= n <= ls.len(),
    ensures
        pieces_from(as_lines(ls), '\n', as_lines(ls.take(n)).len() as int) == ls.skip(n).push(Seq::empty()),
    decreases ls.len() - n,
{
    let s = as_lines(ls);
    let i = as_lines(ls.take(n)).len() as int;
    lines_start(ls, n);
    if n == ls.len() {
        assert(ls.take(n) =~= ls);
        assert(s.skip(i) =~= Seq::empty());
        assert(cut_at(s, '\n', i) == i);
        assert(pieces_from(s, '\n', i) =~= ls.skip(n).push(Seq::empty()));
    } else {
        let line = ls[n];
        let j = i + line.len();
        reveal_strlit("\n");
        assert(ls.take(n + 1).drop_last() =~= ls.take(n));
        assert(ls.take(n + 1).last() == line);
        lines_start(ls, n + 1);
        let t = as_lines(ls.take(n + 1));
        assert(t =~= as_lines(ls.take(n)) + (line + "\n"@));
        assert(t.len() == j + 1);
        assert(s.take(j + 1) == t);
        assert(one_line(line));
        assert forall|u: int| i <= u < j implies s[u] != '\n' by {
            assert(s[u] == s.take(j + 1)[u]);
            assert(t[u] == line[u - i]);
            assert(line.contains(line[u - i]));
        }
        assert(s[j] == s.take(j + 1)[j]);
        cut_found(s, i, j);
        assert(s.subrange(i, j) =~= line) by {
            assert forall|u: int| 0 <= u < line.len() implies s[i + u] == line[u] by {
                assert(s[i + u] == s.take(j + 1)[i + u]);
            }
        }
        pieces_back(ls, n + 1);
        assert(pieces_from(s, '\n', i) =~= ls.skip(n).push(Seq::empty()));
    }
}

/// Lines that are written are the lines that are read.
pub proof fn lines_back(ls: Seq<Seq<char>>)
    requires
        single_lines(ls),
    ensures
        lines_of(as_lines(ls)) == ls,
{
    pieces_back(ls, 0);
    assert(ls.take(0) =~= Seq::empty());
    assert(ls.skip(0) =~= ls);
    let p = pieces_from(as_lines(ls), '\n', 0);
    assert(p == ls.push(Seq::empty()));
    assert(lines_of(as_lines(ls)) =~= ls) by {
        assert forall|i: int| 0 <= i < ls.len() implies without_return(#[trigger] p[i]) == ls[i] by {
            assert(one_line(ls[i]));
        }
    }
}

// ---- texts in order ----

/// No text comes before one that stands ahead of it.
pub open spec fn ordered(s: Seq<Seq<char>>) -> bool {
    forall|i: int, j: int| 0 <= i < j < s.len() ==> text_side(#[trigger] s[j], #[trigger] s[i]) != Side::Before
}

proof fn behind_holds(s: Seq<Seq<char>>, x: Seq<char>)
    ensures
        text_behind(s, x).len() == s.len() + 1,
        text_behind(s, x).to_multiset() =~= s.to_multiset().insert(x),
        ordered(s) ==> ordered(text_behind(s, x)),
    decreases s.len(),
{
    s.to_multiset_ensures();
    if s.len() > 0 && text_side(x, s.last()) == Side::Before {
        let less = s.drop_last();
        let t = text_behind(less, x);
        behind_holds(less, x);
        less.to_multiset_ensures();
        t.to_multiset_ensures();
        assert(less.push(s.last()) =~= s);
        if ordered(s) {
            assert forall|i: int, j: int| 0 <= i < j < less.len() implies text_side(
                #[trigger] less[j],
                #[trigger] less[i],
            ) != Side::Before by {
                assert(text_side(s[j], s[i]) != Side::Before);
            }
            let r = t.push(s.last());
            assert forall|i: int, j: int| 0 <= i < j < r.len() implies text_side(#[trigger] r[j], #[trigger] r[i])
                != Side::Before by {
                if j == t.len() {
                    assert(t.to_multiset().count(t[i]) > 0) by {
                        assert(t.contains(t[i]));
                    }
                    if t[i] == x {
                        text_side_same(x, s.last());
                    } else {
                        assert(less.to_multiset().count(t[i]) > 0);
                        assert(less.contains(t[i]));
                        let u = choose|u: int| 0 <= u < less.len() && less[u] == t[i];
                        assert(text_side(s[s.len() - 1], s[u]) != Side::Before);
                    }
                } else {
                    assert(text_side(t[j], t[i]) != Side::Before);
                }
            }
        }
    } else if ordered(s) {
        let r = s.push(x);
        assert forall|i: int, j: int| 0 <= i < j < r.len() implies text_side(#[trigger] r[j], #[trigger] r[i])
            != Side::Before by {
            if j < s.len() {
                assert(text_side(s[j], s[i]) != Side::Before);
            } else if i < s.len() - 1 && text_side(x, s[i]) == Side::Before {
                let last = s[s.len() - 1];
                assert(text_side(last, s[i]) != Side::Before);
                text_side_same(s[i], last);
                text_side_same(x, last);
                text_side_same(x, s[i]);
                if s[i] != last {
                    text_side_chain(x, s[i], last);
                }
            }
        }
    }
}

/// Sorted texts are in order, and are the texts there were.
pub proof fn in_order_holds(s: Seq<Seq<char>>)
    ensures
        ordered(in_order(s)),
        in_order(s).to_multiset() =~= s.to_multiset(),
    decreases s.len(),
{
    s.to_multiset_ensures();
    if s.len() > 0 {
        let less = s.drop_last();
        in_order_holds(less);
        behind_holds(in_order(less), s.last());
        less.to_multiset_ensures();
        assert(less.push(s.last()) =~= s);
    }
}

proof fn in_order_has(s: Seq<Seq<char>>, x: Seq<char>)
    ensures
        in_order(s).contains(x) == s.contains(x),
{
    in_order_holds(s);
    s.to_multiset_ensures();
    in_order(s).to_multiset_ensures();
    assert(s.contains(x) <==> s.to_multiset().count(x) > 0);
    assert(in_order(s).contains(x) <==> in_order(s).to_multiset().count(x) > 0);
}

proof fn headers_have(s: Seq<Seq<char>>, yes: bool, x: Seq<char>)
    ensures
        headers(s, yes).contains(x) == (s.contains(x) && begins_with(x, "#"@) == yes),
    decreases s.len(),
{
    if s.len() > 0 {
        let less = s.drop_last();
        headers_have(less, yes, x);
        assert(less.push(s.last()) =~= s);
        push_has(less, s.last(), x);
        push_has(headers(less, yes), s.last(), x);
    }
}

proof fn push_has(s: Seq<Seq<char>>, y: Seq<char>, x: Seq<char>)
    ensures
        s.push(y).contains(x) == (s.contains(x) || x == y),
{
    let t = s.push(y);
    if s.contains(x) {
        let i = choose|i: int| 0 <= i < s.len() && s[i] == x;
        assert(t[i] == x);
    }
    if x == y {
        assert(t[s.len() as int] == x);
    }
}

proof fn sum_has(s: Seq<Seq<char>>, t: Seq<Seq<char>>, x: Seq<char>)
    ensures
        (s + t).contains(x) == (s.contains(x) || t.contains(x)),
{
    let u = s + t;
    if s.contains(x) {
        let i = choose|i: int| 0 <= i < s.len() && s[i] == x;
        assert(u[i] == x);
    }
    if t.contains(x) {
        let i = choose|i: int| 0 <= i < t.len() && t[i] == x;
        assert(u[s.len() + i] == x);
    }
}

// ---- entries ----

/// The line is the entry of a function.
pub open spec fn tells(l: Seq<char>, name: Seq<char>) -> bool {
    is_entry(l) && first_word(l) == Some(name)
}

/// What the lines tell of a function is `l`, wherever they tell of it.
pub open spec fn tell_alone(lines: Seq<Seq<char>>, name: Seq<char>, l: Seq<char>) -> bool {
    forall|x: Seq<char>| #[trigger] lines.contains(x) && tells(x, name) ==> x == l
}

proof fn entry_among(lines: Seq<Seq<char>>, name: Seq<char>, n: nat)
    requires
        n <= lines.len(),
    ensures
        match entry_of(lines, name, n) {
            Some(l) => lines.contains(l) && tells(l, name),
            None => forall|i: int| 0 <= i < n ==> !tells(#[trigger] lines[i], name),
        },
    decreases n,
{
    if n > 0 {
        entry_among(lines, name, (n - 1) as nat);
        if tells(lines[n - 1], name) {
            assert(lines.contains(lines[n - 1]));
        }
    }
}

proof fn entry_alone(lines: Seq<Seq<char>>, name: Seq<char>, l: Seq<char>)
    requires
        lines.contains(l),
        tells(l, name),
        tell_alone(lines, name, l),
    ensures
        entry_text(lines, name) == l,
{
    entry_among(lines, name, lines.len());
    let i = choose|i: int| 0 <= i < lines.len() && lines[i] == l;
    assert(tells(lines[i], name));
}

proof fn same_entries(a: Seq<Seq<char>>, b: Seq<Seq<char>>, name: Seq<char>)
    requires
        forall|x: Seq<char>| tells(x, name) ==> #[trigger] a.contains(x) == b.contains(x),
        tell_alone(a, name, entry_text(a, name)),
    ensures
        entry_text(a, name) == entry_text(b, name),
{
    entry_among(a, name, a.len());
    entry_among(b, name, b.len());
    match entry_of(b, name, b.len()) {
        Some(l) => {
            assert(a.contains(l));
        },
        None => match entry_of(a, name, a.len()) {
            Some(l) => {
                assert(a.contains(l));
                let i = choose|i: int| 0 <= i < b.len() && b[i] == l;
                assert(tells(b[i], name));
            },
            None => {},
        },
    }
}

// ---- writing and reading ----

proof fn word_of(name: Seq<char>, rest: Seq<char>, i: int)
    requires
        0 <= i <= name.len(),
        forall|c: char| name.contains(c) ==> !#[trigger] blank(c),
        rest.len() > 0,
        blank(rest[0]),
    ensures
        word_end(name + rest, i) == name.len(),
    decreases name.len() - i,
{
    let s = name + rest;
    if i < name.len() {
        assert(s[i] == name[i]);
        assert(name.contains(name[i]));
        assert(!blank(name[i]));
        word_of(name, rest, i + 1);
    } else {
        assert(s[i] == rest[0]);
    }
}

/// A name as it can stand at the head of a line: a word that does not begin as a header does.
pub open spec fn word_name(name: Seq<char>) -> bool {
    &&& name.len() > 0
    &&& name[0] != '#'
    &&& forall|c: char| name.contains(c) ==> !#[trigger] blank(c)
}

proof fn headed(name: Seq<char>, rest: Seq<char>)
    requires
        word_name(name),
        rest.len() > 0,
        blank(rest[0]),
    ensures
        tells(name + rest, name),
{
    let s = name + rest;
    assert(name.contains(name[0]));
    assert(!blank(name[0]));
    assert(s[0] == name[0]);
    assert(past_space(s, 0) == 0);
    word_of(name, rest, 0);
    assert(s.subrange(0, name.len() as int) =~= name);
    reveal_strlit("#");
    assert(!begins_with(s, "#"@));
}

/// The line of a function is its entry.
pub proof fn line_tells(c: FuncCostV)
    requires
        word_name(c.name),
    ensures
        tells(line_text(c), c.name),
{
    let l = line_text(c);
    reveal_strlit(" work ");
    reveal_strlit(" unknown: ");
    let n = c.name.len() as int;
    assert(l.take(n) =~= c.name);
    assert(l =~= c.name + l.skip(n));
    assert(l.skip(n).len() > 0);
    assert(l.skip(n)[0] == ' ') by {
        assert(l.skip(n)[0] == l[n]);
    }
    assert(blank(' '));
    headed(c.name, l.skip(n));
}

/// What was rendered is what is read: the entry of every function is its line.
pub proof fn render_read(source: Seq<char>, costs: Seq<FuncCostV>, i: int)
    requires
        0 <= i < costs.len(),
        one_line(source),
        forall|j: int| 0 <= j < costs.len() ==> word_name((#[trigger] costs[j]).name) && one_line(line_text(costs[j])),
        forall|j: int| 0 <= j < costs.len() && (#[trigger] costs[j]).name == costs[i].name ==> j == i,
    ensures
        entry_text(lines_of(render_text(source, all_lines(costs))), costs[i].name) == line_text(costs[i]),
{
    let lines = all_lines(costs);
    let head = "# neant costs.lock — generated from "@ + source + "; do not edit"@;
    let all = seq![head] + in_order(lines);
    let (name, l) = (costs[i].name, line_text(costs[i]));
    reveal_strlit("# neant costs.lock — generated from ");
    reveal_strlit("; do not edit");
    reveal_strlit("#");
    assert(head[0] == '#');
    assert(head.last() == 't');
    if head.contains('\n') {
        let u = choose|u: int| 0 <= u < head.len() && head[u] == '\n';
        let k = "# neant costs.lock — generated from "@.len() as int;
        if k <= u < k + source.len() {
            assert(source.contains(source[u - k]));
        }
    }
    assert(one_line(head));
    assert(begins_with(head, "#"@)) by {
        assert(head.take(1) =~= "#"@);
    }
    assert forall|x: Seq<char>| #[trigger] all.contains(x) implies x == head || lines.contains(x) by {
        sum_has(seq![head], in_order(lines), x);
        in_order_has(lines, x);
    }
    assert forall|t: int| 0 <= t < all.len() implies one_line(#[trigger] all[t]) by {
        assert(all.contains(all[t]));
        if all[t] != head {
            let j = choose|j: int| 0 <= j < lines.len() && lines[j] == all[t];
            assert(one_line(line_text(costs[j])));
        }
    }
    lines_back(all);
    assert(word_name(costs[i].name));
    line_tells(costs[i]);
    assert(lines[i] == l);
    assert(lines.contains(l));
    in_order_has(lines, l);
    sum_has(seq![head], in_order(lines), l);
    assert forall|x: Seq<char>| #[trigger] all.contains(x) && tells(x, name) implies x == l by {
        if x != head {
            let j = choose|j: int| 0 <= j < lines.len() && lines[j] == x;
            assert(word_name(costs[j].name));
            line_tells(costs[j]);
            assert(costs[j].name == costs[i].name);
        }
    }
    entry_alone(all, name, l);
}

// ---- an update ----

proof fn updated_lines(lock: Seq<char>, name: Seq<char>, new: Seq<char>)
    requires
        single_lines(lines_of(lock)),
        one_line(new),
    ensures
        forall|x: Seq<char>| #[trigger] lines_of(lock_updated(lock, name, new)).contains(x) == lines_replaced(
            lines_of(lock),
            name,
            new,
        ).contains(x),
{
    let s = lines_replaced(lines_of(lock), name, new);
    let all = headers(s, true) + in_order(headers(s, false));
    assert forall|x: Seq<char>| #[trigger] all.contains(x) == s.contains(x) by {
        sum_has(headers(s, true), in_order(headers(s, false)), x);
        in_order_has(headers(s, false), x);
        headers_have(s, true, x);
        headers_have(s, false, x);
    }
    assert forall|t: int| 0 <= t < all.len() implies one_line(#[trigger] all[t]) by {
        assert(all.contains(all[t]));
        let j = choose|j: int| 0 <= j < s.len() && s[j] == all[t];
        if j < lines_of(lock).len() {
            assert(one_line(lines_of(lock)[j]));
        }
    }
    lines_back(all);
}

/// After an update with a function's entry, that is its entry.
pub proof fn update_read(lock: Seq<char>, name: Seq<char>, new: Seq<char>)
    requires
        single_lines(lines_of(lock)),
        one_line(new),
        tells(new, name),
    ensures
        entry_text(lines_of(lock_updated(lock, name, new)), name) == new,
{
    updated_lines(lock, name, new);
    let ls = lines_of(lock);
    let s = lines_replaced(ls, name, new);
    let r = lines_of(lock_updated(lock, name, new));
    assert(s.contains(new)) by {
        if is_about(ls, name) {
            let i = choose|i: int| 0 <= i < ls.len() && first_word(#[trigger] ls[i]) == Some(name);
            assert(s[i] == new);
        } else {
            assert(s[ls.len() as int] == new);
        }
    }
    assert(r.contains(new));
    assert forall|x: Seq<char>| #[trigger] r.contains(x) && tells(x, name) implies x == new by {
        assert(s.contains(x));
        let i = choose|i: int| 0 <= i < s.len() && s[i] == x;
        if i < ls.len() {
            assert(x == line_replaced(ls[i], name, new));
        }
    }
    entry_alone(r, name, new);
}

/// An update leaves the entry of every other function as it was.
pub proof fn update_keeps(lock: Seq<char>, name: Seq<char>, new: Seq<char>, other: Seq<char>)
    requires
        single_lines(lines_of(lock)),
        one_line(new),
        tells(new, name),
        other != name,
        tell_alone(lines_of(lock), other, entry_text(lines_of(lock), other)),
    ensures
        entry_text(lines_of(lock_updated(lock, name, new)), other) == entry_text(lines_of(lock), other),
{
    updated_lines(lock, name, new);
    let ls = lines_of(lock);
    let s = lines_replaced(ls, name, new);
    let r = lines_of(lock_updated(lock, name, new));
    assert forall|x: Seq<char>| tells(x, other) implies #[trigger] ls.contains(x) == r.contains(x) by {
        assert(r.contains(x) == s.contains(x));
        if ls.contains(x) {
            let i = choose|i: int| 0 <= i < ls.len() && ls[i] == x;
            assert(s[i] == x);
        }
        if s.contains(x) {
            let i = choose|i: int| 0 <= i < s.len() && s[i] == x;
            assert(i < ls.len());
            assert(ls[i] == x);
        }
    }
    same_entries(ls, r, other);
}

// ---- differences ----

proof fn place_has(s: Seq<Seq<char>>, x: Seq<char>, y: Seq<char>)
    ensures
        text_place(s, x).contains(y) == (s.contains(y) || y == x),
    decreases s.len(),
{
    if s.len() == 0 {
        push_has(s, x, y);
        assert(s.push(x) =~= seq![x]);
    } else {
        text_side_same(x, s.last());
        let less = s.drop_last();
        assert(less.push(s.last()) =~= s);
        push_has(less, s.last(), y);
        place_has(less, x, y);
        push_has(text_place(less, x), s.last(), y);
        push_has(s, x, y);
    }
}

proof fn names_have(s: Seq<Seq<char>>, lines: Seq<Seq<char>>, n: nat, name: Seq<char>)
    requires
        n <= lines.len(),
    ensures
        entry_names(s, lines, n).contains(name) == (s.contains(name) || exists|i: int|
            0 <= i < n && tells(#[trigger] lines[i], name)),
    decreases n,
{
    if n > 0 {
        names_have(s, lines, (n - 1) as nat, name);
        let before = entry_names(s, lines, (n - 1) as nat);
        let l = lines[n - 1];
        if is_entry(l) {
            place_has(before, first_word(l)->0, name);
        }
        if tells(l, name) {
            assert(tells(lines[n - 1], name));
        }
        if exists|i: int| 0 <= i < n && tells(#[trigger] lines[i], name) {
            let i = choose|i: int| 0 <= i < n && tells(#[trigger] lines[i], name);
            if i < n - 1 {
                assert(tells(lines[i], name));
            }
        }
    }
}

proof fn differing_none(a: Seq<Seq<char>>, b: Seq<Seq<char>>, names: Seq<Seq<char>>, n: nat)
    requires
        n <= names.len(),
    ensures
        differing(a, b, names, n).len() == 0 <==> forall|i: int|
            0 <= i < n ==> entry_text(a, #[trigger] names[i]) == entry_text(b, names[i]),
    decreases n,
{
    if n > 0 {
        differing_none(a, b, names, (n - 1) as nat);
    }
}

/// Two lockfiles show no difference exactly where they say the same of every function.
pub proof fn no_difference(old: Seq<char>, new: Seq<char>)
    ensures
        s_diff(old, new).len() == 0 <==> forall|name: Seq<char>| #[trigger]
            entry_text(lines_of(old), name) == entry_text(lines_of(new), name),
{
    let (a, b) = (lines_of(old), lines_of(new));
    let first = entry_names(Seq::empty(), a, a.len());
    let names = entry_names(first, b, b.len());
    differing_none(a, b, names, names.len());
    if s_diff(old, new).len() == 0 {
        assert forall|name: Seq<char>| #[trigger] entry_text(a, name) == entry_text(b, name) by {
            names_have(Seq::empty(), a, a.len(), name);
            names_have(first, b, b.len(), name);
            entry_among(a, name, a.len());
            entry_among(b, name, b.len());
            if names.contains(name) {
                let i = choose|i: int| 0 <= i < names.len() && names[i] == name;
                assert(entry_text(a, names[i]) == entry_text(b, names[i]));
            } else {
                assert forall|i: int| 0 <= i < a.len() implies !tells(#[trigger] a[i], name) by {}
                assert forall|i: int| 0 <= i < b.len() implies !tells(#[trigger] b[i], name) by {}
                none_told(a, name);
                none_told(b, name);
            }
        }
    }
}

proof fn none_told(lines: Seq<Seq<char>>, name: Seq<char>)
    requires
        forall|i: int| 0 <= i < lines.len() ==> !tells(#[trigger] lines[i], name),
    ensures
        entry_text(lines, name) == Seq::<char>::empty(),
{
    entry_among(lines, name, lines.len());
    match entry_of(lines, name, lines.len()) {
        Some(l) => {
            let i = choose|i: int| 0 <= i < lines.len() && lines[i] == l;
            assert(tells(lines[i], name));
        },
        None => {},
    }
}

/// A lockfile shows no difference to itself.
pub proof fn no_difference_to_itself(t: Seq<char>)
    ensures
        s_diff(t, t).len() == 0,
{
    no_difference(t, t);
}

// ---- the order of differences ----

/// Every text comes before those behind it.
pub open spec fn ascends(s: Seq<Seq<char>>) -> bool {
    forall|i: int, j: int| 0 <= i < j < s.len() ==> text_side(#[trigger] s[i], #[trigger] s[j]) == Side::Before
}

proof fn place_ascends(s: Seq<Seq<char>>, x: Seq<char>)
    requires
        ascends(s),
    ensures
        ascends(text_place(s, x)),
    decreases s.len(),
{
    if s.len() > 0 {
        let (less, last) = (s.drop_last(), s.last());
        text_side_same(x, last);
        assert forall|i: int, j: int| 0 <= i < j < less.len() implies text_side(#[trigger] less[i], #[trigger] less[j])
            == Side::Before by {
            assert(text_side(s[i], s[j]) == Side::Before);
        }
        let r = text_place(s, x);
        if text_side(x, last) == Side::After {
            assert forall|i: int, j: int| 0 <= i < j < r.len() implies text_side(#[trigger] r[i], #[trigger] r[j])
                == Side::Before by {
                text_side_same(last, x);
                if j < s.len() {
                    assert(text_side(s[i], s[j]) == Side::Before);
                } else if i < s.len() - 1 {
                    assert(text_side(s[i], s[s.len() - 1]) == Side::Before);
                    text_side_chain(s[i], last, x);
                }
            }
        } else if text_side(x, last) == Side::Before {
            let t = text_place(less, x);
            place_ascends(less, x);
            assert forall|i: int, j: int| 0 <= i < j < r.len() implies text_side(#[trigger] r[i], #[trigger] r[j])
                == Side::Before by {
                if j < t.len() {
                    assert(text_side(t[i], t[j]) == Side::Before);
                } else {
                    place_has(less, x, t[i]);
                    assert(t.contains(t[i]));
                    if t[i] != x {
                        let u = choose|u: int| 0 <= u < less.len() && less[u] == t[i];
                        assert(text_side(s[u], s[s.len() - 1]) == Side::Before);
                    }
                }
            }
        }
    }
}

proof fn names_ascend(s: Seq<Seq<char>>, lines: Seq<Seq<char>>, n: nat)
    requires
        ascends(s),
    ensures
        ascends(entry_names(s, lines, n)),
    decreases n,
{
    if n > 0 {
        names_ascend(s, lines, (n - 1) as nat);
        let before = entry_names(s, lines, (n - 1) as nat);
        if is_entry(lines[n - 1]) {
            place_ascends(before, first_word(lines[n - 1])->0);
        }
    }
}

/// Two ascending lists of the same texts are one list.
proof fn ascending_same(s: Seq<Seq<char>>, t: Seq<Seq<char>>)
    requires
        ascends(s),
        ascends(t),
        forall|x: Seq<char>| #[trigger] s.contains(x) == t.contains(x),
    ensures
        s == t,
    decreases s.len(),
{
    if s.len() == 0 {
        if t.len() > 0 {
            assert(t.contains(t[0]));
            assert(s.contains(t[0]));
        }
        assert(s =~= t);
    } else {
        assert(s.contains(s.last()));
        assert(t.contains(s.last()));
        assert(t.contains(t.last()));
        assert(s.contains(t.last()));
        let i = choose|i: int| 0 <= i < t.len() && t[i] == s.last();
        let j = choose|j: int| 0 <= j < s.len() && s[j] == t.last();
        text_side_same(s.last(), t.last());
        if i < t.len() - 1 {
            assert(text_side(t[i], t[t.len() - 1]) == Side::Before);
            if j < s.len() - 1 {
                assert(text_side(s[j], s[s.len() - 1]) == Side::Before);
            }
        }
        let (u, v) = (s.drop_last(), t.drop_last());
        assert(u.push(s.last()) =~= s);
        assert(v.push(t.last()) =~= t);
        assert forall|x: Seq<char>| #[trigger] u.contains(x) == v.contains(x) by {
            push_has(u, s.last(), x);
            push_has(v, t.last(), x);
            assert(s.contains(x) == t.contains(x));
            if u.contains(s.last()) {
                let k = choose|k: int| 0 <= k < u.len() && u[k] == s.last();
                assert(text_side(s[k], s[s.len() - 1]) == Side::Before);
                text_side_same(s.last(), s.last());
            }
            if v.contains(t.last()) {
                let k = choose|k: int| 0 <= k < v.len() && v[k] == t.last();
                assert(text_side(t[k], t[t.len() - 1]) == Side::Before);
                text_side_same(t.last(), t.last());
            }
        }
        assert forall|a: int, b: int| 0 <= a < b < u.len() implies text_side(#[trigger] u[a], #[trigger] u[b])
            == Side::Before by {
            assert(text_side(s[a], s[b]) == Side::Before);
        }
        assert forall|a: int, b: int| 0 <= a < b < v.len() implies text_side(#[trigger] v[a], #[trigger] v[b])
            == Side::Before by {
            assert(text_side(t[a], t[b]) == Side::Before);
        }
        ascending_same(u, v);
    }
}

/// The names of two lockfiles, in order.
pub open spec fn both_names(old: Seq<char>, new: Seq<char>) -> Seq<Seq<char>> {
    let (a, b) = (lines_of(old), lines_of(new));
    entry_names(entry_names(Seq::empty(), a, a.len()), b, b.len())
}

proof fn both_names_same(old: Seq<char>, new: Seq<char>)
    ensures
        both_names(old, new) == both_names(new, old),
        ascends(both_names(old, new)),
{
    let (a, b) = (lines_of(old), lines_of(new));
    let none = Seq::<Seq<char>>::empty();
    names_ascend(none, a, a.len());
    names_ascend(none, b, b.len());
    let (fa, fb) = (entry_names(none, a, a.len()), entry_names(none, b, b.len()));
    names_ascend(fa, b, b.len());
    names_ascend(fb, a, a.len());
    let (s, t) = (both_names(old, new), both_names(new, old));
    assert forall|x: Seq<char>| #[trigger] s.contains(x) == t.contains(x) by {
        names_have(none, a, a.len(), x);
        names_have(none, b, b.len(), x);
        names_have(fa, b, b.len(), x);
        names_have(fb, a, a.len(), x);
    }
    ascending_same(s, t);
}

pub open spec fn swapped(s: Seq<(Seq<char>, Seq<char>)>) -> Seq<(Seq<char>, Seq<char>)> {
    Seq::new(s.len(), |i: int| (s[i].1, s[i].0))
}

proof fn differing_swaps(a: Seq<Seq<char>>, b: Seq<Seq<char>>, names: Seq<Seq<char>>, n: nat)
    ensures
        differing(b, a, names, n) == swapped(differing(a, b, names, n)),
    decreases n,
{
    if n > 0 {
        differing_swaps(a, b, names, (n - 1) as nat);
    }
    assert(differing(b, a, names, n) =~= swapped(differing(a, b, names, n)));
}

/// Swapping two lockfiles swaps the lines of every difference.
pub proof fn difference_swaps(old: Seq<char>, new: Seq<char>)
    ensures
        s_diff(new, old) == swapped(s_diff(old, new)),
{
    both_names_same(old, new);
    let names = both_names(old, new);
    differing_swaps(lines_of(old), lines_of(new), names, names.len());
}

/// The pair is what two lockfiles say of a function, and they do not say the same.
pub open spec fn differs_on(p: (Seq<char>, Seq<char>), a: Seq<Seq<char>>, b: Seq<Seq<char>>, name: Seq<char>) -> bool {
    p.0 == entry_text(a, name) && p.1 == entry_text(b, name) && p.0 != p.1
}

/// The differences are about the functions on which two lockfiles differ, one for each, in the
/// order of their names; a function that one of them does not have has an empty line there.
pub open spec fn lists_differences(
    d: Seq<(Seq<char>, Seq<char>)>,
    a: Seq<Seq<char>>,
    b: Seq<Seq<char>>,
    names: Seq<Seq<char>>,
) -> bool {
    &&& names.len() == d.len()
    &&& ascends(names)
    &&& forall|i: int| 0 <= i < d.len() ==> differs_on(#[trigger] d[i], a, b, names[i])
}

proof fn differing_ordered(a: Seq<Seq<char>>, b: Seq<Seq<char>>, names: Seq<Seq<char>>, n: nat) -> (r: Seq<Seq<char>>)
    requires
        ascends(names),
        n <= names.len(),
    ensures
        lists_differences(differing(a, b, names, n), a, b, r),
        forall|i: int| 0 <= i < r.len() ==> exists|j: int| 0 <= j < n && #[trigger] names[j] == #[trigger] r[i],
    decreases n,
{
    if n == 0 {
        Seq::empty()
    } else {
        let before = differing_ordered(a, b, names, (n - 1) as nat);
        let name = names[n - 1];
        if entry_text(a, name) == entry_text(b, name) {
            assert forall|i: int| 0 <= i < before.len() implies exists|j: int|
                0 <= j < n && #[trigger] names[j] == #[trigger] before[i] by {
                let j = choose|j: int| 0 <= j < n - 1 && #[trigger] names[j] == before[i];
                assert(names[j] == before[i]);
            }
            before
        } else {
            let r = before.push(name);
            assert forall|i: int, j: int| 0 <= i < j < r.len() implies text_side(#[trigger] r[i], #[trigger] r[j])
                == Side::Before by {
                if j < before.len() {
                    assert(text_side(before[i], before[j]) == Side::Before);
                } else {
                    let k = choose|k: int| 0 <= k < n - 1 && #[trigger] names[k] == before[i];
                    assert(text_side(names[k], names[n - 1]) == Side::Before);
                }
            }
            assert forall|i: int| 0 <= i < r.len() implies exists|j: int|
                0 <= j < n && #[trigger] names[j] == #[trigger] r[i] by {
                if i < before.len() {
                    let j = choose|j: int| 0 <= j < n - 1 && #[trigger] names[j] == before[i];
                    assert(names[j] == r[i]);
                } else {
                    assert(names[n - 1] == r[i]);
                }
            }
            let d = differing(a, b, names, n);
            assert forall|i: int| 0 <= i < d.len() implies differs_on(#[trigger] d[i], a, b, r[i]) by {
                if i < before.len() {
                    let e = differing(a, b, names, (n - 1) as nat);
                    assert(differs_on(e[i], a, b, before[i]));
                }
            }
            r
        }
    }
}

/// The differences come in the order of the functions' names, one for each name.
pub proof fn differences_ordered(old: Seq<char>, new: Seq<char>)
    ensures
        exists|names: Seq<Seq<char>>| #[trigger]
            lists_differences(s_diff(old, new), lines_of(old), lines_of(new), names),
{
    both_names_same(old, new);
    let names = both_names(old, new);
    let r = differing_ordered(lines_of(old), lines_of(new), names, names.len());
    assert(lists_differences(s_diff(old, new), lines_of(old), lines_of(new), r));
}

/// The lines that are about functions.
pub open spec fn entries(lines: Seq<Seq<char>>) -> Seq<Seq<char>>
    decreases lines.len(),
{
    if lines.len() == 0 {
        lines
    } else if is_entry(lines.last()) {
        entries(lines.drop_last()).push(lines.last())
    } else {
        entries(lines.drop_last())
    }
}

proof fn entry_of_prefix(lines: Seq<Seq<char>>, more: Seq<Seq<char>>, name: Seq<char>, n: nat)
    requires
        n <= lines.len(),
        n <= more.len(),
        forall|i: int| 0 <= i < n ==> lines[i] == more[i],
    ensures
        entry_of(lines, name, n) == entry_of(more, name, n),
    decreases n,
{
    if n > 0 {
        entry_of_prefix(lines, more, name, (n - 1) as nat);
    }
}

proof fn names_prefix(s: Seq<Seq<char>>, lines: Seq<Seq<char>>, more: Seq<Seq<char>>, n: nat)
    requires
        n <= lines.len(),
        n <= more.len(),
        forall|i: int| 0 <= i < n ==> lines[i] == more[i],
    ensures
        entry_names(s, lines, n) == entry_names(s, more, n),
    decreases n,
{
    if n > 0 {
        names_prefix(s, lines, more, (n - 1) as nat);
    }
}

proof fn entries_tell(s: Seq<Seq<char>>, lines: Seq<Seq<char>>, name: Seq<char>)
    ensures
        entry_of(lines, name, lines.len()) == entry_of(entries(lines), name, entries(lines).len()),
        entry_names(s, lines, lines.len()) == entry_names(s, entries(lines), entries(lines).len()),
    decreases lines.len(),
{
    if lines.len() > 0 {
        let (less, l) = (lines.drop_last(), lines.last());
        let (e, f) = (entries(less), entries(lines));
        entries_tell(s, less, name);
        entry_of_prefix(less, lines, name, less.len());
        names_prefix(s, less, lines, less.len());
        entry_of_prefix(e, f, name, e.len());
        names_prefix(s, e, f, e.len());
    }
}

/// Headers and blank lines make no difference.
pub proof fn headers_make_no_difference(old: Seq<char>, new: Seq<char>, old2: Seq<char>, new2: Seq<char>)
    requires
        entries(lines_of(old)) == entries(lines_of(old2)),
        entries(lines_of(new)) == entries(lines_of(new2)),
    ensures
        s_diff(old, new) == s_diff(old2, new2),
{
    let (a, b, a2, b2) = (lines_of(old), lines_of(new), lines_of(old2), lines_of(new2));
    let none = Seq::<Seq<char>>::empty();
    entries_tell(none, a, Seq::empty());
    entries_tell(none, a2, Seq::empty());
    let first = entry_names(none, a, a.len());
    entries_tell(first, b, Seq::empty());
    entries_tell(first, b2, Seq::empty());
    let names = both_names(old, new);
    differing_same(a, b, a2, b2, names, names.len());
}

proof fn differing_same(
    a: Seq<Seq<char>>,
    b: Seq<Seq<char>>,
    a2: Seq<Seq<char>>,
    b2: Seq<Seq<char>>,
    names: Seq<Seq<char>>,
    n: nat,
)
    requires
        entries(a) == entries(a2),
        entries(b) == entries(b2),
    ensures
        differing(a, b, names, n) == differing(a2, b2, names, n),
    decreases n,
{
    if n > 0 {
        differing_same(a, b, a2, b2, names, (n - 1) as nat);
        let none = Seq::<Seq<char>>::empty();
        let name = names[n - 1];
        entries_tell(none, a, name);
        entries_tell(none, a2, name);
        entries_tell(none, b, name);
        entries_tell(none, b2, name);
    }
}

// ---- a second update ----

proof fn behind_all(s: Seq<Seq<char>>)
    requires
        ordered(s),
    ensures
        in_order(s) == s,
    decreases s.len(),
{
    if s.len() > 0 {
        let less = s.drop_last();
        assert forall|i: int, j: int| 0 <= i < j < less.len() implies text_side(#[trigger] less[j], #[trigger] less[i])
            != Side::Before by {
            assert(text_side(s[j], s[i]) != Side::Before);
        }
        behind_all(less);
        if less.len() > 0 {
            assert(text_side(s[s.len() - 1], s[s.len() - 2]) != Side::Before);
        }
        assert(less.push(s.last()) =~= s);
    }
}

proof fn headers_split(s: Seq<Seq<char>>, t: Seq<Seq<char>>, yes: bool)
    requires
        forall|i: int| 0 <= i < s.len() ==> begins_with(#[trigger] s[i], "#"@),
        forall|i: int| 0 <= i < t.len() ==> !begins_with(#[trigger] t[i], "#"@),
    ensures
        headers(s + t, yes) == if yes {
            s
        } else {
            t
        },
    decreases s.len() + t.len(),
{
    let all = s + t;
    if t.len() > 0 {
        let u = t.drop_last();
        assert(all.drop_last() =~= s + u);
        assert(all.last() == t[t.len() - 1]);
        headers_split(s, u, yes);
        assert(u.push(t.last()) =~= t);
    } else if s.len() > 0 {
        let u = s.drop_last();
        assert(all.drop_last() =~= u + t);
        assert(all.last() == s[s.len() - 1]);
        headers_split(u, t, yes);
        assert(u.push(s.last()) =~= s);
    }
    assert(headers(all, yes) =~= (if yes {
        s
    } else {
        t
    }));
}

/// The lines after an update: the headers as they stood, then the other lines in order, the
/// function's among them.
pub proof fn updated_lines_are(lock: Seq<char>, name: Seq<char>, new: Seq<char>)
    requires
        single_lines(lines_of(lock)),
        one_line(new),
    ensures
        ({
            let s = lines_replaced(lines_of(lock), name, new);
            &&& lines_of(lock_updated(lock, name, new)) == headers(s, true) + in_order(headers(s, false))
            &&& lock_updated(lock, name, new).last() == '\n'
        }),
{
    let s = lines_replaced(lines_of(lock), name, new);
    let all = headers(s, true) + in_order(headers(s, false));
    assert forall|t: int| 0 <= t < all.len() implies one_line(#[trigger] all[t]) by {
        assert(all.contains(all[t]));
        sum_has(headers(s, true), in_order(headers(s, false)), all[t]);
        in_order_has(headers(s, false), all[t]);
        headers_have(s, true, all[t]);
        headers_have(s, false, all[t]);
        let j = choose|j: int| 0 <= j < s.len() && s[j] == all[t];
        if j < lines_of(lock).len() {
            assert(one_line(lines_of(lock)[j]));
        }
    }
    lines_back(all);
    let x = s[0];
    assert(s.contains(x)) by {
        assert(s.len() > 0);
    }
    sum_has(headers(s, true), in_order(headers(s, false)), x);
    in_order_has(headers(s, false), x);
    headers_have(s, true, x);
    headers_have(s, false, x);
    assert(all.len() > 0);
    reveal_strlit("\n");
    assert(as_lines(all) == as_lines(all.drop_last()) + (all.last() + "\n"@));
}

/// A second update with the same line changes nothing.
pub proof fn update_twice(lock: Seq<char>, name: Seq<char>, new: Seq<char>)
    requires
        single_lines(lines_of(lock)),
        one_line(new),
        tells(new, name),
    ensures
        lock_updated(lock_updated(lock, name, new), name, new) == lock_updated(lock, name, new),
{
    let s = lines_replaced(lines_of(lock), name, new);
    let (h, b) = (headers(s, true), in_order(headers(s, false)));
    let all = h + b;
    updated_lines_are(lock, name, new);
    updated_lines(lock, name, new);
    let again = lines_replaced(all, name, new);
    assert(s.contains(new)) by {
        let ls = lines_of(lock);
        if is_about(ls, name) {
            let i = choose|i: int| 0 <= i < ls.len() && first_word(#[trigger] ls[i]) == Some(name);
            assert(s[i] == new);
        } else {
            assert(s[ls.len() as int] == new);
        }
    }
    assert(all.contains(new));
    let at = choose|i: int| 0 <= i < all.len() && all[i] == new;
    assert(first_word(all[at]) == Some(name));
    assert(is_about(all, name));
    assert forall|i: int| 0 <= i < all.len() implies #[trigger] again[i] == all[i] by {
        if first_word(all[i]) == Some(name) {
            assert(all.contains(all[i]));
            assert(s.contains(all[i]));
            let j = choose|j: int| 0 <= j < s.len() && s[j] == all[i];
            if j < lines_of(lock).len() {
                assert(s[j] == line_replaced(lines_of(lock)[j], name, new));
            }
        }
    }
    assert(again =~= all);
    assert forall|i: int| 0 <= i < h.len() implies begins_with(#[trigger] h[i], "#"@) by {
        assert(h.contains(h[i]));
        headers_have(s, true, h[i]);
    }
    assert forall|i: int| 0 <= i < b.len() implies !begins_with(#[trigger] b[i], "#"@) by {
        assert(b.contains(b[i]));
        in_order_has(headers(s, false), b[i]);
        headers_have(s, false, b[i]);
    }
    headers_split(h, b, true);
    headers_split(h, b, false);
    in_order_holds(headers(s, false));
    behind_all(b);
}

} // verus!
