//! Text by lines: splitting, first words, padding and sorting.

use vstd::prelude::*;
use crate::cost::model::text_side;
use crate::cost::scan::{past_space, skip_space};
use crate::cost::size::side_of_texts;
use crate::lex::{blank, is_blank, slice_of};
use crate::num::Side;
use crate::text::{cat2, chars_of, text_of, texts};
use crate::words::{lists, pieces_from, split};

verus! {

pub open spec fn without_return(s: Seq<char>) -> Seq<char> {
    if s.len() > 0 && s.last() == '\r' {
        s.drop_last()
    } else {
        s
    }
}

/// The lines of a text: each ends at a line feed, with or without a carriage return before it;
/// the last need not end, and is none where nothing follows the last line feed.
pub open spec fn lines_of(s: Seq<char>) -> Seq<Seq<char>> {
    let p = pieces_from(s, '\n', 0);
    let ended = Seq::new((p.len() - 1) as nat, |i: int| without_return(p[i]));
    if p.last().len() == 0 {
        ended
    } else {
        ended.push(p.last())
    }
}

proof fn pieces_some(s: Seq<char>, c: char, i: int)
    ensures
        pieces_from(s, c, i).len() >= 1,
    decreases s.len() - i,
{
}

/// The lines of a text.
#[verifier::loop_isolation(false)]
pub fn split_lines(s: &str) -> (r: Vec<String>)
    ensures
        texts(r@) == lines_of(s@),
{
    let p = split(&chars_of(s), '\n');
    let ghost pv = pieces_from(s@, '\n', 0);
    proof {
        pieces_some(s@, '\n', 0);
        assert(lists(p@) == pv);
        assert(p@.len() == pv.len());
    }
    let n: usize = p.len();
    let mut out: Vec<String> = Vec::new();
    let mut i: usize = 0;
    while i < n - 1
        invariant
            i <= n - 1,
            out@.len() == i,
            forall|j: int| 0 <= j < i ==> (#[trigger] out@[j])@ == without_return(pv[j]),
        decreases n - i,
    {
        let l = &p[i];
        assert(pv[i as int] == l@);
        let k: usize = l.len();
        if k > 0 && l[k - 1] == '\r' {
            let t = slice_of(l, 0, k - 1);
            assert(t@ =~= l@.drop_last());
            out.push(text_of(&t));
        } else {
            out.push(text_of(l));
        }
        i += 1;
    }
    let ghost ended = Seq::new((pv.len() - 1) as nat, |i: int| without_return(pv[i]));
    assert(texts(out@) =~= ended);
    let last = &p[n - 1];
    assert(pv.last() == last@);
    if last.len() > 0 {
        let t = text_of(last);
        assert(texts(out@.push(t)) =~= ended.push(t@));
        out.push(t);
    }
    out
}

/// Where the word at `i` ends.
pub open spec fn word_end(s: Seq<char>, i: int) -> int
    decreases s.len() - i,
{
    if 0 <= i < s.len() && !blank(s[i]) {
        word_end(s, i + 1)
    } else {
        i
    }
}

/// The first word of a line, if it has one.
pub open spec fn first_word(s: Seq<char>) -> Option<Seq<char>> {
    let a = past_space(s, 0);
    if a < s.len() {
        Some(s.subrange(a, word_end(s, a)))
    } else {
        None
    }
}

pub fn find_word(s: &str) -> (r: Option<String>)
    ensures
        (match r {
            Some(w) => Some(w@),
            None => None,
        }) == first_word(s@),
{
    let c = chars_of(s);
    let a = skip_space(&c, 0);
    if a >= c.len() {
        return None;
    }
    let mut b: usize = a;
    while b < c.len() && !is_blank(c[b])
        invariant
            a <= b <= c@.len(),
            word_end(c@, a as int) == word_end(c@, b as int),
        decreases c@.len() - b,
    {
        b += 1;
    }
    Some(text_of(&slice_of(&c, a, b)))
}

// ---- padding ----

pub open spec fn blanks(n: nat) -> Seq<char> {
    Seq::new(n, |i: int| ' ')
}

/// The text filled up with spaces to a width.
pub open spec fn padded(s: Seq<char>, width: nat) -> Seq<char> {
    if s.len() < width {
        s + blanks((width - s.len()) as nat)
    } else {
        s
    }
}

pub fn pad(s: &str, width: usize) -> (r: String)
    ensures
        r@ == padded(s@, width as nat),
{
    let mut c = chars_of(s);
    while c.len() < width
        invariant
            s@.len() <= c@.len(),
            c@.len() <= width || c@ == s@,
            c@ == s@ + blanks((c@.len() - s@.len()) as nat),
        decreases width - c@.len(),
    {
        let ghost before = c@;
        c.push(' ');
        assert(c@ =~= s@ + blanks((c@.len() - s@.len()) as nat));
    }
    assert(s@ + blanks(0) =~= s@);
    text_of(&c)
}

// ---- sorting ----

/// The text put behind those that do not come after it.
pub open spec fn text_behind(s: Seq<Seq<char>>, x: Seq<char>) -> Seq<Seq<char>>
    decreases s.len(),
{
    if s.len() > 0 && text_side(x, s.last()) == Side::Before {
        text_behind(s.drop_last(), x).push(s.last())
    } else {
        s.push(x)
    }
}

/// The texts in order.
pub open spec fn in_order(s: Seq<Seq<char>>) -> Seq<Seq<char>>
    decreases s.len(),
{
    if s.len() == 0 {
        s
    } else {
        text_behind(in_order(s.drop_last()), s.last())
    }
}

#[verifier::loop_isolation(false)]
fn put_behind(s: &mut Vec<String>, x: String)
    ensures
        texts(final(s)@) == text_behind(texts(old(s)@), x@),
{
    let ghost all = texts(s@);
    let ghost start = s@;
    let n: usize = s.len();
    let mut i: usize = n;
    proof {
        assert(all.take(n as int) =~= all);
        assert(text_behind(all, x@) =~= text_behind(all.take(n as int), x@) + all.skip(n as int));
    }
    while i > 0 && side_of_texts(&x, &s[i - 1]) == Side::Before
        invariant
            i <= n,
            s@ == start,
            text_behind(all, x@) == text_behind(all.take(i as int), x@) + all.skip(i as int),
        decreases i,
    {
        proof {
            assert(all.take(i as int).last() == s@[i - 1]@);
            assert(all.take(i as int).drop_last() =~= all.take(i - 1));
            assert(text_behind(all.take(i - 1), x@).push(all[i - 1]) + all.skip(i as int) =~= text_behind(
                all.take(i - 1),
                x@,
            ) + all.skip(i - 1));
        }
        i -= 1;
    }
    proof {
        if i > 0 {
            assert(all.take(i as int).last() == s@[i - 1]@);
        }
    }
    let ghost xv = x@;
    s.insert(i, x);
    assert(texts(s@) =~= all.take(i as int).push(xv) + all.skip(i as int));
}

pub fn sort_texts(s: Vec<String>) -> (r: Vec<String>)
    ensures
        texts(r@) == in_order(texts(s@)),
{
    let ghost v = texts(s@);
    let mut r: Vec<String> = Vec::new();
    let mut i: usize = 0;
    proof {
        assert(v.take(0) =~= Seq::empty());
        assert(texts(r@) =~= Seq::empty());
    }
    while i < s.len()
        invariant
            i <= s@.len(),
            v == texts(s@),
            texts(r@) == in_order(v.take(i as int)),
        decreases s@.len() - i,
    {
        proof {
            assert(v.take(i + 1).drop_last() =~= v.take(i as int));
            assert(v.take(i + 1).last() == s@[i as int]@);
        }
        put_behind(&mut r, crate::text::copy_text(&s[i]));
        i += 1;
    }
    assert(v.take(i as int) =~= v);
    r
}

/// The texts, each followed by a line feed.
pub open spec fn as_lines(s: Seq<Seq<char>>) -> Seq<char>
    decreases s.len(),
{
    if s.len() == 0 {
        Seq::empty()
    } else {
        as_lines(s.drop_last()) + (s.last() + "\n"@)
    }
}

pub fn write_lines(s: &Vec<String>) -> (r: String)
    ensures
        r@ == as_lines(texts(s@)),
{
    let ghost v = texts(s@);
    let mut out = "".to_owned();
    let mut i: usize = 0;
    proof {
        reveal_strlit("");
        assert(v.take(0) =~= Seq::empty());
        assert(out@ =~= as_lines(v.take(0)));
    }
    while i < s.len()
        invariant
            i <= s@.len(),
            v == texts(s@),
            out@ == as_lines(v.take(i as int)),
        decreases s@.len() - i,
    {
        proof {
            assert(v.take(i + 1).drop_last() =~= v.take(i as int));
            assert(v.take(i + 1).last() == s@[i as int]@);
        }
        out = cat2(&out, &cat2(&s[i], "\n"));
        i += 1;
    }
    assert(v.take(i as int) =~= v);
    out
}

/// The text has `t` somewhere from `i` on.
pub open spec fn has_part(s: Seq<char>, t: Seq<char>, i: int) -> bool
    decreases s.len() + 1 - i,
{
    if i < 0 || i + t.len() > s.len() {
        false
    } else {
        s.subrange(i, i + t.len()) == t || has_part(s, t, i + 1)
    }
}

#[verifier::loop_isolation(false)]
pub fn contains_text(s: &Vec<char>, t: &str) -> (r: bool)
    ensures
        r == has_part(s@, t@, 0),
{
    let c = chars_of(t);
    let k: usize = c.len();
    if k > s.len() {
        return false;
    }
    let mut i: usize = 0;
    while i <= s.len() - k
        invariant
            0 <= i <= s@.len() - k + 1,
            has_part(s@, t@, 0) == has_part(s@, t@, i as int),
        decreases s@.len() + 1 - i,
    {
        let part = slice_of(s, i, i + k);
        if same_chars(&part, &c) {
            return true;
        }
        if i == s.len() - k {
            assert(!has_part(s@, t@, i + 1));
            return false;
        }
        i += 1;
    }
    false
}

fn same_chars(a: &Vec<char>, b: &Vec<char>) -> (r: bool)
    ensures
        r == (a@ == b@),
{
    if a.len() != b.len() {
        return false;
    }
    let mut i: usize = 0;
    while i < a.len()
        invariant
            i <= a@.len(),
            a@.len() == b@.len(),
            forall|j: int| 0 <= j < i ==> #[trigger] a@[j] == b@[j],
        decreases a@.len() - i,
    {
        if a[i] != b[i] {
            return false;
        }
        i += 1;
    }
    assert(a@ =~= b@);
    true
}

} // verus!
