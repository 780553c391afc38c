//! Reading numbers and words of a bound's text.

use vstd::prelude::*;
use crate::lex::{digit, digits_end, digits_value, is_digit};

verus! {

/// Whether Unicode calls the character a letter.
pub uninterp spec fn unicode_letter(c: char) -> bool;

/// Whether Unicode calls the character a letter or a number.
pub uninterp spec fn unicode_word(c: char) -> bool;

/// `char::is_alphabetic`: the Unicode property, which among the ASCII characters the 52 letters
/// have.
pub assume_specification[ char::is_alphabetic ](c: char) -> (r: bool)
    ensures
        r == unicode_letter(c),
        c <= '\u{7f}' ==> r == ('a' <= c && c <= 'z' || 'A' <= c && c <= 'Z'),
;

/// `char::is_alphanumeric`: the Unicode properties, which every letter has, and among the ASCII
/// characters the letters and the digits.
pub assume_specification[ char::is_alphanumeric ](c: char) -> (r: bool)
    ensures
        r == unicode_word(c),
        unicode_letter(c) ==> r,
        c <= '\u{7f}' ==> r == ('a' <= c && c <= 'z' || 'A' <= c && c <= 'Z' || '0' <= c && c <= '9'),
;

/// A letter: of ASCII, or what Unicode calls one.
pub open spec fn letter(c: char) -> bool {
    if c <= '\u{7f}' {
        'a' <= c && c <= 'z' || 'A' <= c && c <= 'Z'
    } else {
        unicode_letter(c)
    }
}

/// A letter or a number: of ASCII, or what Unicode calls one.
pub open spec fn letter_or_number(c: char) -> bool {
    if c <= '\u{7f}' {
        letter(c) || digit(c)
    } else {
        unicode_letter(c) || unicode_word(c)
    }
}

pub fn is_letter(c: char) -> (r: bool)
    ensures
        r == letter(c),
{
    c.is_alphabetic()
}

pub fn is_letter_or_number(c: char) -> (r: bool)
    ensures
        r == letter_or_number(c),
{
    c.is_alphanumeric()
}

/// Where the space at `i` ends.
pub open spec fn past_space(s: Seq<char>, i: int) -> int
    decreases s.len() - i,
{
    if 0 <= i < s.len() && crate::lex::blank(s[i]) {
        past_space(s, i + 1)
    } else {
        i
    }
}

#[verifier::loop_isolation(false)]
pub fn skip_space(s: &Vec<char>, i: usize) -> (r: usize)
    requires
        i <= s@.len(),
    ensures
        r == past_space(s@, i as int),
        i <= r <= s@.len(),
{
    let mut j: usize = i;
    while j < s.len() && crate::lex::is_blank(s[j])
        invariant
            i <= j <= s@.len(),
            past_space(s@, i as int) == past_space(s@, j as int),
        decreases s@.len() - j,
    {
        j += 1;
    }
    j
}

/// The character `c` stands at `i`.
pub open spec fn sees(s: Seq<char>, i: int, c: char) -> bool {
    0 <= i < s.len() && s[i] == c
}

pub fn is_there(s: &Vec<char>, i: usize, c: char) -> (r: bool)
    ensures
        r == sees(s@, i as int, c),
        r ==> i < usize::MAX,
{
    i < s.len() && s[i] == c
}

/// The number at `i`, after space, and where it ends; `none` says that there is none.
pub open spec fn number_at(s: Seq<char>, i: int, none: Seq<char>) -> Result<(int, int), Seq<char>> {
    let a = past_space(s, i);
    let b = digits_end(s, a);
    if b == a {
        Err(none)
    } else if digits_value(s.subrange(a, b)) > i128::MAX {
        Err("bad number"@)
    } else {
        Ok((digits_value(s.subrange(a, b)) as int, b))
    }
}

proof fn digits_run(s: Seq<char>, i: int)
    requires
        0 <= i <= s.len(),
    ensures
        i <= digits_end(s, i) <= s.len(),
        forall|k: int| i <= k < digits_end(s, i) ==> digit(#[trigger] s[k]),
    decreases s.len() - i,
{
    if i < s.len() && digit(s[i]) {
        digits_run(s, i + 1);
    }
}

proof fn digits_grow(s: Seq<char>, n: int)
    requires
        0 <= n <= s.len(),
    ensures
        digits_value(s.take(n)) <= digits_value(s),
    decreases s.len(),
{
    if n == s.len() {
        assert(s.take(n) =~= s);
    } else {
        digits_grow(s.drop_last(), n);
        assert(s.drop_last().take(n) =~= s.take(n));
    }
}

#[verifier::loop_isolation(false)]
pub fn read_number(s: &Vec<char>, i: usize, none: &str) -> (r: Result<(i128, usize), String>)
    requires
        i <= s@.len(),
    ensures
        match r {
            Ok(p) => number_at(s@, i as int, none@) == Ok::<(int, int), Seq<char>>((p.0 as int, p.1 as int)) && i < p.1
                <= s@.len() && p.0 >= 0,
            Err(m) => number_at(s@, i as int, none@) == Err::<(int, int), Seq<char>>(m@),
        },
{
    let a: usize = skip_space(s, i);
    let ghost b = digits_end(s@, a as int);
    let ghost text = s@.subrange(a as int, b);
    let mut j: usize = a;
    let mut v: i128 = 0;
    proof {
        digits_run(s@, a as int);
        assert(text.take(0) =~= Seq::empty());
        assert(text.take(text.len() as int) =~= text);
    }
    while j < s.len() && is_digit(s[j])
        invariant
            a <= j <= s@.len(),
            j <= b,
            b == digits_end(s@, j as int),
            v >= 0,
            v == digits_value(text.take(j - a)),
        decreases s@.len() - j,
    {
        let d: i128 = (s[j] as u32 - '0' as u32) as i128;
        proof {
            digits_run(s@, j as int);
            digits_run(s@, j + 1);
            assert(text[j - a] == s@[j as int]);
            assert(text.take(j - a + 1).drop_last() =~= text.take(j - a));
            digits_grow(text, j - a + 1);
        }
        if v > (i128::MAX - d) / 10 {
            return Err("bad number".to_owned());
        }
        v = v * 10 + d;
        j += 1;
    }
    if j == a {
        return Err(none.to_owned());
    }
    Ok((v, j))
}

/// The place of a name in a list.
pub open spec fn name_index(names: Seq<Seq<char>>, w: Seq<char>, from: int) -> Option<int>
    decreases names.len() - from,
{
    if from < 0 || from >= names.len() {
        None
    } else if names[from] == w {
        Some(from)
    } else {
        name_index(names, w, from + 1)
    }
}

pub fn find_name(names: &[String], w: &String) -> (r: Option<usize>)
    ensures
        match r {
            Some(i) => name_index(crate::text::texts(names@), w@, 0) == Some(i as int),
            None => name_index(crate::text::texts(names@), w@, 0) is None,
        },
{
    let mut i: usize = 0;
    while i < names.len()
        invariant
            i <= names@.len(),
            name_index(crate::text::texts(names@), w@, 0) == name_index(crate::text::texts(names@), w@, i as int),
        decreases names@.len() - i,
    {
        if names[i] == *w {
            return Some(i);
        }
        i += 1;
    }
    None
}

/// The text ends in `t`.
pub open spec fn ends_with(s: Seq<char>, t: Seq<char>) -> bool {
    s.len() >= t.len() && s.skip(s.len() - t.len()) == t
}

/// Whether the characters end in those of `t`.
#[verifier::loop_isolation(false)]
pub fn has_end(s: &Vec<char>, t: &str) -> (r: bool)
    ensures
        r == ends_with(s@, t@),
{
    let v = crate::text::chars_of(t);
    if s.len() < v.len() {
        return false;
    }
    let d: usize = s.len() - v.len();
    let ghost tail = s@.skip(d as int);
    let mut i: usize = 0;
    while i < v.len()
        invariant
            i <= v@.len(),
            forall|k: int| 0 <= k < i ==> (#[trigger] tail[k]) == v@[k],
        decreases v@.len() - i,
    {
        if s[d + i] != v[i] {
            proof {
                assert(tail[i as int] != v@[i as int]);
            }
            return false;
        }
        i += 1;
    }
    proof {
        assert(tail =~= v@);
    }
    true
}

} // verus!
