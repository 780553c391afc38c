//! `#[cost(work_at_most = "n log n", moves_at_most = "16·n + B")]`: the bound's text, parsed
//! over the function's atoms, and the asymptotic-dominance check against what was inferred.
//!
//! The text grammar: terms joined by `+`; a term is factors joined by `·`, `*`, `/` or just
//! written next to each other; a factor is a number, a size name (`n`, `xs.len()`), `B`, `M`,
//! `log <factor>`, `√<factor>` or `sqrt(<expr>)`, a parenthesised expression, and any factor may
//! carry `^k` or a superscript.

use vstd::prelude::*;
use crate::cost::algebra::{p_add, p_atom, p_mul, p_pow, p_rat, p_scale, p_sub, p_term, p_var, real_pow};
use crate::cost::assoc::{holds, value};
use crate::cost::forms::p_const;
use crate::cost::model::{AtomV, MonoV, PolyV};
use crate::cost::rat::{ratio, Rat};
use crate::cost::scan::{
    ends_with, find_name, has_end, is_letter, is_letter_or_number, is_there, letter, letter_or_number, name_index,
    number_at, past_space, read_number, sees, skip_space,
};
use crate::cost::show::{join, join_texts};
use crate::cost::size::{atom_view_is, m_raise, Atom, Mono, Poly};
use crate::lex::{digit, is_digit, slice_of};
use crate::num::Side;
use crate::text::{cat2, cat3, chars_of, one_char, text_of, texts};

verus! {

/// A polynomial to a natural power, a single term at once.
pub open spec fn bound_pow(p: PolyV, k: nat) -> PolyV {
    if k == 0 {
        p_rat(1real)
    } else if p.terms.len() == 1 {
        p_term(m_raise(p.terms[0].0, k as real), real_pow(p.terms[0].1, k))
    } else {
        p_pow(p, k)
    }
}

/// The square root of a term without a coefficient.
pub open spec fn bound_root(p: PolyV) -> Result<PolyV, Seq<char>> {
    if p.terms.len() != 1 {
        Err("√ of a sum is not a cost the checker can compare"@)
    } else if p.terms[0].1 != 1real {
        Err("√ of a coefficient is not supported; write the bound without it"@)
    } else {
        Ok(p_term(m_raise(p.terms[0].0, ratio(1, 2)), 1real))
    }
}

/// The quotient by a constant or a single term.
pub open spec fn bound_div(p: PolyV, d: PolyV) -> Result<PolyV, Seq<char>> {
    match p_const(d) {
        Some(c) => if c == 0real {
            Err("division by zero in cost bound"@)
        } else {
            Ok(p_scale(p, 1real / c))
        },
        None => if d.terms.len() == 1 {
            Ok(p_mul(p, p_term(m_raise(d.terms[0].0, -1real), 1real / d.terms[0].1)))
        } else {
            Err("a cost bound can only divide by a single term"@)
        },
    }
}

/// The value of a raised numeral.
pub open spec fn raised(c: char) -> Option<nat> {
    if c == '⁰' {
        Some(0)
    } else if c == '¹' {
        Some(1)
    } else if c == '²' {
        Some(2)
    } else if c == '³' {
        Some(3)
    } else if c == '⁴' {
        Some(4)
    } else if c == '⁵' {
        Some(5)
    } else if c == '⁶' {
        Some(6)
    } else if c == '⁷' {
        Some(7)
    } else if c == '⁸' {
        Some(8)
    } else if c == '⁹' {
        Some(9)
    } else {
        None
    }
}

/// A raised numeral is no part of a name: it is a power.
pub open spec fn name_char(c: char) -> bool {
    letter_or_number(c) && raised(c) is None || c == '_' || c == '.'
}

pub open spec fn name_start(c: char) -> bool {
    letter(c) && raised(c) is None || c == '_'
}

/// Where the run of name characters at `i` ends.
pub open spec fn name_end(s: Seq<char>, i: int) -> int
    decreases s.len() - i,
{
    if 0 <= i < s.len() && name_char(s[i]) {
        name_end(s, i + 1)
    } else {
        i
    }
}

/// The name at `i` and where it ends: a last `.` is not part of it, the brackets of `.len()` are.
pub open spec fn name_at(s: Seq<char>, i: int) -> (Seq<char>, int) {
    let e = name_end(s, i);
    let j = if e > i && s[e - 1] == '.' {
        e - 1
    } else {
        e
    };
    let w = s.subrange(i, j);
    if sees(s, j, '(') && ends_with(w, ".len"@) && sees(s, j + 1, ')') {
        (w + "()"@, j + 2)
    } else {
        (w, j)
    }
}

pub open spec fn quoted(names: Seq<Seq<char>>) -> Seq<Seq<char>> {
    Seq::new(names.len(), |i: int| "`"@ + names[i] + "`"@)
}

/// What an expression inside brackets means, by where it starts.
pub type Inner = spec_fn(int) -> Result<(PolyV, int), Seq<char>>;

/// The rules applied to expressions that start after `n`.
#[verifier::opaque]
pub open spec fn b_knot(s: Seq<char>, names: Seq<Seq<char>>, n: int) -> Inner
    decreases s.len() - n,
{
    |j: int|
        if n < j <= s.len() {
            r_expr(s, names, b_knot(s, names, j), j)
        } else {
            arbitrary()
        }
}

/// A sum of terms.
#[verifier::opaque]
pub open spec fn b_expr(s: Seq<char>, names: Seq<Seq<char>>, i: int) -> Result<(PolyV, int), Seq<char>> {
    r_expr(s, names, b_knot(s, names, i), i)
}

proof fn knot_at(s: Seq<char>, names: Seq<Seq<char>>, n: int, j: int)
    requires
        n < j <= s.len(),
    ensures
        (b_knot(s, names, n))(j) == b_expr(s, names, j),
{
    reveal(b_knot);
    reveal(b_expr);
}

/// A sum of terms, given what expressions inside brackets mean.
#[verifier::opaque]
pub open spec fn r_expr(s: Seq<char>, names: Seq<Seq<char>>, inner: Inner, i: int) -> Result<(PolyV, int), Seq<char>> {
    match b_term(s, names, inner, i) {
        Ok((acc, j)) => if !(i < j <= s.len()) {
            arbitrary()
        } else {
            b_expr_rest(s, names, inner, j, acc)
        },
        Err(m) => Err(m),
    }
}

/// The terms that follow `acc`.
#[verifier::opaque]
pub open spec fn b_expr_rest(s: Seq<char>, names: Seq<Seq<char>>, inner: Inner, i: int, acc: PolyV) -> Result<(PolyV, int), Seq<char>>
    decreases s.len() - i,
{
    let a = past_space(s, i);
    if !(i <= a <= s.len()) {
        arbitrary()
    } else if sees(s, a, '+') || sees(s, a, '-') || sees(s, a, '−') {
        match b_term(s, names, inner, a + 1) {
            Ok((t, j)) => if !(i < j <= s.len()) {
                arbitrary()
            } else {
                b_expr_rest(
                    s,
                    names,
                    inner,
                    j,
                    if sees(s, a, '+') {
                        p_add(acc, t)
                    } else {
                        p_sub(acc, t)
                    },
                )
            },
            Err(m) => Err(m),
        }
    } else {
        Ok((acc, a))
    }
}

/// A product of factors.
#[verifier::opaque]
pub open spec fn b_term(s: Seq<char>, names: Seq<Seq<char>>, inner: Inner, i: int) -> Result<(PolyV, int), Seq<char>>
{
    match b_factor(s, names, inner, i) {
        Ok((acc, j)) => if !(i < j <= s.len()) {
            arbitrary()
        } else {
            b_term_rest(s, names, inner, j, acc)
        },
        Err(m) => Err(m),
    }
}

/// The factors that follow `acc`.
#[verifier::opaque]
pub open spec fn b_term_rest(s: Seq<char>, names: Seq<Seq<char>>, inner: Inner, i: int, acc: PolyV) -> Result<(PolyV, int), Seq<char>>
    decreases s.len() - i,
{
    let a = past_space(s, i);
    if !(i <= a <= s.len()) {
        arbitrary()
    } else if a < s.len() && (s[a] == '·' || s[a] == '*') {
        match b_factor(s, names, inner, a + 1) {
            Ok((f, j)) => if !(i < j <= s.len()) {
                arbitrary()
            } else {
                b_term_rest(s, names, inner, j, p_mul(acc, f))
            },
            Err(m) => Err(m),
        }
    } else if a < s.len() && s[a] == '/' {
        match b_factor(s, names, inner, a + 1) {
            Ok((d, j)) => match bound_div(acc, d) {
                Ok(q) => if !(i < j <= s.len()) {
                    arbitrary()
                } else {
                    b_term_rest(s, names, inner, j, q)
                },
                Err(m) => Err(m),
            },
            Err(m) => Err(m),
        }
    } else if a < s.len() && (letter_or_number(s[a]) || s[a] == '(' || s[a] == '√') {
        match b_factor(s, names, inner, a) {
            Ok((f, j)) => if !(i < j <= s.len()) {
                arbitrary()
            } else {
                b_term_rest(s, names, inner, j, p_mul(acc, f))
            },
            Err(m) => Err(m),
        }
    } else {
        Ok((acc, a))
    }
}

/// An atom, perhaps to a power.
#[verifier::opaque]
pub open spec fn b_factor(s: Seq<char>, names: Seq<Seq<char>>, inner: Inner, i: int) -> Result<(PolyV, int), Seq<char>>
{
    match b_atom(s, names, inner, i) {
        Err(m) => Err(m),
        Ok((base, j)) => {
            let a = past_space(s, j);
            if sees(s, a, '^') {
                match number_at(s, a + 1, "expected a number"@) {
                    Ok((k, e)) => Ok((bound_pow(base, k as nat), e)),
                    Err(m) => Err(m),
                }
            } else if 0 <= a < s.len() && raised(s[a]) is Some {
                Ok((bound_pow(base, raised(s[a])->0), a + 1))
            } else {
                Ok((base, a))
            }
        },
    }
}

/// A number, a name, a logarithm, a root or an expression in brackets.
pub open spec fn b_atom(s: Seq<char>, names: Seq<Seq<char>>, inner: Inner, i: int) -> Result<(PolyV, int), Seq<char>>
    decreases s.len() - i, 0int,
{
    let a = past_space(s, i);
    if !(i <= a) {
        arbitrary()
    } else if a >= s.len() {
        Err("cost bound ends early"@)
    } else if s[a] == '(' {
        b_bracketed(s, names, inner, a)
    } else if s[a] == '√' {
        match b_atom(s, names, inner, a + 1) {
            Ok((e, j)) => match bound_root(e) {
                Ok(r) => Ok((r, j)),
                Err(m) => Err(m),
            },
            Err(m) => Err(m),
        }
    } else if digit(s[a]) {
        match number_at(s, a, "expected a number"@) {
            Ok((k, e)) => Ok((p_rat(k as real), e)),
            Err(m) => Err(m),
        }
    } else if name_start(s[a]) {
        let (w, j) = name_at(s, a);
        if !(a < j <= s.len()) {
            arbitrary()
        } else {
            b_named(s, names, inner, w, j)
        }
    } else {
        Err("unexpected `"@ + seq![s[a]] + "` in cost bound"@)
    }
}

/// What the name `w` that ends at `j` stands for.
pub open spec fn b_named(s: Seq<char>, names: Seq<Seq<char>>, inner: Inner, w: Seq<char>, j: int) -> Result<(PolyV, int), Seq<char>>
    decreases s.len() - j, 1int,
{
    if w == "log"@ {
        match b_atom(s, names, inner, j) {
            Ok((e, k)) => Ok((p_atom(AtomV::Log(Box::new(e))), k)),
            Err(m) => Err(m),
        }
    } else if w == "sqrt"@ {
        let b = past_space(s, j);
        if !(j <= b) {
            arbitrary()
        } else if !sees(s, b, '(') {
            Err("sqrt(...)"@)
        } else {
            match b_bracketed(s, names, inner, b) {
                Ok((e, k)) => match bound_root(e) {
                    Ok(r) => Ok((r, k)),
                    Err(m) => Err(m),
                },
                Err(m) => Err(m),
            }
        }
    } else if w == "B"@ {
        Ok((p_atom(AtomV::B), j))
    } else if w == "M"@ {
        Ok((p_atom(AtomV::M), j))
    } else {
        match name_index(names, w, 0) {
            Some(n) => Ok((p_var(n), j)),
            None => Err("`"@ + w + "` is not a size of this function; its sizes are "@ + join(quoted(names), ", "@)),
        }
    }
}

/// An expression in the brackets that open at `i`.
#[verifier::opaque]
pub open spec fn b_bracketed(s: Seq<char>, names: Seq<Seq<char>>, inner: Inner, i: int) -> Result<(PolyV, int), Seq<char>>
{
    if !(0 <= i < s.len()) {
        arbitrary()
    } else {
        match inner(i + 1) {
            Ok((e, j)) => {
                let b = past_space(s, j);
                if sees(s, b, ')') {
                    Ok((e, b + 1))
                } else {
                    Err("expected `)`"@)
                }
            },
            Err(m) => Err(m),
        }
    }
}

/// The polynomial that a bound's text writes over the names of the sizes.
pub open spec fn s_bound(s: Seq<char>, names: Seq<Seq<char>>) -> Result<PolyV, Seq<char>> {
    match b_expr(s, names, 0) {
        Ok((p, i)) => {
            let a = past_space(s, i);
            if a == s.len() {
                Ok(p)
            } else {
                Err("unexpected `"@ + seq![s[a]] + "` in cost bound"@)
            }
        },
        Err(m) => Err(m),
    }
}

/// What came back is what the grammar says stands at `i`.
spec fn read(r: Result<(Poly, usize), String>, s: Result<(PolyV, int), Seq<char>>, i: int, n: int) -> bool {
    match r {
        Ok(p) => s == Ok::<(PolyV, int), Seq<char>>((p.0@, p.1 as int)) && i < p.1 <= n,
        Err(m) => s == Err::<(PolyV, int), Seq<char>>(m@),
    }
}

/// The power of a bound's factor.
pub fn pow(p: &Poly, k: i128) -> (r: Poly)
    requires
        k >= 0,
    ensures
        r@ == bound_pow(p@, k as nat),
{
    if k == 0 {
        return Poly::constant(1);
    }
    match p.as_mono() {
        Some((m, c)) => {
            let mut coef = Rat::one();
            let mut i: i128 = 0;
            while i < k
                invariant
                    0 <= i <= k,
                    coef@ == real_pow(c@, i as nat),
                decreases k - i,
            {
                coef = coef.mul(&c);
                i += 1;
            }
            Poly::term(m.raised(&Rat::integer(k)), coef)
        },
        None => p.pow(k),
    }
}

fn root(p: &Poly) -> (r: Result<Poly, String>)
    ensures
        match r {
            Ok(q) => bound_root(p@) == Ok::<PolyV, Seq<char>>(q@),
            Err(m) => bound_root(p@) == Err::<PolyV, Seq<char>>(m@),
        },
{
    match p.as_mono() {
        None => Err("√ of a sum is not a cost the checker can compare".to_owned()),
        Some((m, c)) => {
            if !c.same(&Rat::one()) {
                return Err("√ of a coefficient is not supported; write the bound without it".to_owned());
            }
            proof {
                crate::cost::rat::ratio_side(1, 2, 0, 1);
                crate::cost::rat::ratio_one(0);
            }
            Ok(Poly::term(m.raised(&Rat::new(1, 2)), Rat::one()))
        },
    }
}

fn divide(p: &Poly, d: &Poly) -> (r: Result<Poly, String>)
    ensures
        match r {
            Ok(q) => bound_div(p@, d@) == Ok::<PolyV, Seq<char>>(q@),
            Err(m) => bound_div(p@, d@) == Err::<PolyV, Seq<char>>(m@),
        },
{
    match d.as_const() {
        Some(c) => {
            if c.is_zero() {
                return Err("division by zero in cost bound".to_owned());
            }
            Ok(p.scale(&c.inverse()))
        },
        None => {
            d.known();
            match d.as_mono() {
                Some((m, c)) => Ok(p.mul(&Poly::term(m.raised(&Rat::integer(-1)), c.inverse()))),
                None => Err("a cost bound can only divide by a single term".to_owned()),
            }
        },
    }
}

fn is_name_char(c: char) -> (r: bool)
    ensures
        r == name_char(c),
{
    c == '_' || c == '.' || is_letter_or_number(c) && raised_of(c).is_none()
}

fn raised_of(c: char) -> (r: Option<i128>)
    ensures
        match r {
            Some(k) => k >= 0 && raised(c) == Some(k as nat),
            None => raised(c) is None,
        },
{
    if c == '⁰' {
        Some(0)
    } else if c == '¹' {
        Some(1)
    } else if c == '²' {
        Some(2)
    } else if c == '³' {
        Some(3)
    } else if c == '⁴' {
        Some(4)
    } else if c == '⁵' {
        Some(5)
    } else if c == '⁶' {
        Some(6)
    } else if c == '⁷' {
        Some(7)
    } else if c == '⁸' {
        Some(8)
    } else if c == '⁹' {
        Some(9)
    } else {
        None
    }
}

/// The text of a bound being read, and the names of the sizes.
struct Reader<'a> {
    s: Vec<char>,
    names: &'a [String],
}

impl<'a> Reader<'a> {
    spec fn n(&self) -> int {
        self.s@.len() as int
    }

    spec fn nv(&self) -> Seq<Seq<char>> {
        texts(self.names@)
    }

    #[verifier::loop_isolation(false)]
    fn expr(&self, i: usize) -> (r: Result<(Poly, usize), String>)
        requires
            i <= self.n(),
        ensures
            read(r, b_expr(self.s@, self.nv(), i as int), i as int, self.n()),
        decreases self.n() - i, 5int,
    {
        let ghost n = i as int;
        proof {
            reveal(b_expr);
            reveal(r_expr);
            reveal(b_expr_rest);
        }
        let (first, j0) = match self.term(i, Ghost(n)) {
            Ok(x) => x,
            Err(m) => {
                return Err(m);
            },
        };
        let mut acc = first;
        let mut at: usize = j0;
        loop
            invariant
                i < at <= self.n(),
                b_expr(self.s@, self.nv(), i as int) == b_expr_rest(
                    self.s@,
                    self.nv(),
                    b_knot(self.s@, self.nv(), n),
                    at as int,
                    acc@,
                ),
            decreases self.n() - at,
        {
            let a: usize = skip_space(&self.s, at);
            let plus: bool = is_there(&self.s, a, '+');
            if !plus && !is_there(&self.s, a, '-') && !is_there(&self.s, a, '−') {
                return Ok((acc, a));
            }
            let (t, j) = match self.term(a + 1, Ghost(n)) {
                Ok(x) => x,
                Err(m) => {
                    return Err(m);
                },
            };
            acc = if plus {
                acc.add(&t)
            } else {
                acc.sub(&t)
            };
            at = j;
        }
    }

    #[verifier::loop_isolation(false)]
    fn term(&self, i: usize, Ghost(n): Ghost<int>) -> (r: Result<(Poly, usize), String>)
        requires
            n <= i <= self.n(),
        ensures
            read(r, b_term(self.s@, self.nv(), b_knot(self.s@, self.nv(), n), i as int), i as int, self.n()),
        decreases self.n() - i, 4int,
    {
        proof {
            reveal(b_term);
            reveal(b_term_rest);
        }
        let (first, j0) = match self.factor(i, Ghost(n)) {
            Ok(x) => x,
            Err(m) => {
                return Err(m);
            },
        };
        let mut acc = first;
        let mut at: usize = j0;
        loop
            invariant
                i < at <= self.n(),
                b_term(self.s@, self.nv(), b_knot(self.s@, self.nv(), n), i as int) == b_term_rest(self.s@, self.nv(), b_knot(self.s@, self.nv(), n), at as int, acc@),
            decreases self.n() - at,
        {
            let a: usize = skip_space(&self.s, at);
            if a >= self.s.len() {
                return Ok((acc, a));
            }
            let c: char = self.s[a];
            if c == '·' || c == '*' {
                let (f, j) = match self.factor(a + 1, Ghost(n)) {
                    Ok(x) => x,
                    Err(m) => {
                        return Err(m);
                    },
                };
                acc = acc.mul(&f);
                at = j;
            } else if c == '/' {
                let (d, j) = match self.factor(a + 1, Ghost(n)) {
                    Ok(x) => x,
                    Err(m) => {
                        return Err(m);
                    },
                };
                // division by a single atom or constant: negate exponents
                acc = match divide(&acc, &d) {
                    Ok(q) => q,
                    Err(m) => {
                        return Err(m);
                    },
                };
                at = j;
            } else if is_letter_or_number(c) || c == '(' || c == '√' {
                let (f, j) = match self.factor(a, Ghost(n)) {
                    Ok(x) => x,
                    Err(m) => {
                        return Err(m);
                    },
                };
                acc = acc.mul(&f);
                at = j;
            } else {
                return Ok((acc, a));
            }
        }
    }

    fn factor(&self, i: usize, Ghost(n): Ghost<int>) -> (r: Result<(Poly, usize), String>)
        requires
            n <= i <= self.n(),
        ensures
            read(r, b_factor(self.s@, self.nv(), b_knot(self.s@, self.nv(), n), i as int), i as int, self.n()),
        decreases self.n() - i, 3int,
    {
        proof {
            reveal(b_factor);
        }
        let (base, j) = match self.atom(i, Ghost(n)) {
            Ok(x) => x,
            Err(m) => {
                return Err(m);
            },
        };
        let a: usize = skip_space(&self.s, j);
        if is_there(&self.s, a, '^') {
            let (k, e) = match read_number(&self.s, a + 1, "expected a number") {
                Ok(x) => x,
                Err(m) => {
                    return Err(m);
                },
            };
            return Ok((pow(&base, k), e));
        }
        if a < self.s.len() {
            if let Some(k) = raised_of(self.s[a]) {
                return Ok((pow(&base, k), a + 1));
            }
        }
        Ok((base, a))
    }

    /// The name at `i` and where it ends.
    #[verifier::loop_isolation(false)]
    fn name(&self, i: usize) -> (r: (String, usize))
        requires
            i < self.n(),
            name_start(self.s@[i as int]),
            self.s@[i as int] != '.',
        ensures
            name_at(self.s@, i as int) == (r.0@, r.1 as int),
            i < r.1 <= self.n(),
    {
        let mut e: usize = i;
        while e < self.s.len() && is_name_char(self.s[e])
            invariant
                i <= e <= self.n(),
                name_end(self.s@, i as int) == name_end(self.s@, e as int),
            decreases self.n() - e,
        {
            e += 1;
        }
        let j: usize = if e > i && self.s[e - 1] == '.' {
            e - 1
        } else {
            e
        };
        let w = slice_of(&self.s, i, j);
        if is_there(&self.s, j, '(') && has_end(&w, ".len") && is_there(&self.s, j + 1, ')') {
            (cat2(&text_of(&w), "()"), j + 2)
        } else {
            (text_of(&w), j)
        }
    }

    fn bracketed(&self, i: usize, Ghost(n): Ghost<int>) -> (r: Result<(Poly, usize), String>)
        requires
            n <= i < self.n(),
            i < usize::MAX,
        ensures
            read(r, b_bracketed(self.s@, self.nv(), b_knot(self.s@, self.nv(), n), i as int), i as int, self.n()),
        decreases self.n() - i, 1int,
    {
        proof {
            reveal(b_bracketed);
            knot_at(self.s@, self.nv(), n, i + 1);
        }
        let (e, j) = match self.expr(i + 1) {
            Ok(x) => x,
            Err(m) => {
                return Err(m);
            },
        };
        let b: usize = skip_space(&self.s, j);
        if !is_there(&self.s, b, ')') {
            return Err("expected `)`".to_owned());
        }
        Ok((e, b + 1))
    }

    fn atom(&self, i: usize, Ghost(n): Ghost<int>) -> (r: Result<(Poly, usize), String>)
        requires
            n <= i <= self.n(),
        ensures
            read(r, b_atom(self.s@, self.nv(), b_knot(self.s@, self.nv(), n), i as int), i as int, self.n()),
        decreases self.n() - i, 2int,
    {
        let a: usize = skip_space(&self.s, i);
        if a >= self.s.len() {
            return Err("cost bound ends early".to_owned());
        }
        let c: char = self.s[a];
        if is_there(&self.s, a, '(') {
            return self.bracketed(a, Ghost(n));
        }
        if c == '√' {
            let (e, j) = match self.atom(a + 1, Ghost(n)) {
                Ok(x) => x,
                Err(m) => {
                    return Err(m);
                },
            };
            return match root(&e) {
                Ok(r) => Ok((r, j)),
                Err(m) => Err(m),
            };
        }
        if is_digit(c) {
            let (k, e) = match read_number(&self.s, a, "expected a number") {
                Ok(x) => x,
                Err(m) => {
                    return Err(m);
                },
            };
            return Ok((Poly::constant(k), e));
        }
        if c == '_' || is_letter(c) && raised_of(c).is_none() {
            let (w, j) = self.name(a);
            return self.named(w, j, Ghost(a as int), Ghost(n));
        }
        Err(cat3("unexpected `", &one_char(c), "` in cost bound"))
    }

    fn named(&self, w: String, j: usize, Ghost(a): Ghost<int>, Ghost(n): Ghost<int>) -> (r: Result<(Poly, usize), String>)
        requires
            0 <= a < j <= self.n(),
            n <= j,
        ensures
            read(r, b_named(self.s@, self.nv(), b_knot(self.s@, self.nv(), n), w@, j as int), a, self.n()),
        decreases self.n() - j, 6int,
    {
        if w == "log".to_owned() {
            let (e, k) = match self.atom(j, Ghost(n)) {
                Ok(x) => x,
                Err(m) => {
                    return Err(m);
                },
            };
            let log = Atom::Log(Box::new(e));
            proof {
                atom_view_is(log);
            }
            Ok((Poly::atom(log), k))
        } else if w == "sqrt".to_owned() {
            let b: usize = skip_space(&self.s, j);
            if !is_there(&self.s, b, '(') {
                return Err("sqrt(...)".to_owned());
            }
            let (e, k) = match self.bracketed(b, Ghost(n)) {
                Ok(x) => x,
                Err(m) => {
                    return Err(m);
                },
            };
            match root(&e) {
                Ok(r) => Ok((r, k)),
                Err(m) => Err(m),
            }
        } else if w == "B".to_owned() {
            proof {
                atom_view_is(Atom::B);
            }
            Ok((Poly::atom(Atom::B), j))
        } else if w == "M".to_owned() {
            proof {
                atom_view_is(Atom::M);
            }
            Ok((Poly::atom(Atom::M), j))
        } else {
            match find_name(self.names, &w) {
                Some(n) => Ok((Poly::var(n), j)),
                None => Err(
                    cat3(
                        &cat2("`", &w),
                        "` is not a size of this function; its sizes are ",
                        &join_texts(&quote_all(self.names), ", "),
                    ),
                ),
            }
        }
    }
}

fn quote_all(names: &[String]) -> (r: Vec<String>)
    ensures
        texts(r@) == quoted(texts(names@)),
{
    let mut out: Vec<String> = Vec::new();
    let mut i: usize = 0;
    while i < names.len()
        invariant
            i <= names@.len(),
            out@.len() == i,
            forall|k: int| 0 <= k < i ==> (#[trigger] out@[k])@ == quoted(texts(names@))[k],
        decreases names@.len() - i,
    {
        out.push(cat3("`", &names[i], "`"));
        i += 1;
    }
    proof {
        assert(texts(out@) =~= quoted(texts(names@)));
    }
    out
}

/// The bound that a text writes over the names of the sizes.
pub fn parse(text: &str, names: &[String]) -> (r: Result<Poly, String>)
    ensures
        match r {
            Ok(p) => s_bound(text@, texts(names@)) == Ok::<PolyV, Seq<char>>(p@),
            Err(m) => s_bound(text@, texts(names@)) == Err::<PolyV, Seq<char>>(m@),
        },
{
    let reader = Reader { s: chars_of(text), names };
    let (e, i) = match reader.expr(0) {
        Ok(x) => x,
        Err(m) => {
            return Err(m);
        },
    };
    let a: usize = skip_space(&reader.s, i);
    if a != reader.s.len() {
        return Err(cat3("unexpected `", &one_char(reader.s[a]), "` in cost bound"));
    }
    Ok(e)
}

// ---- asymptotic dominance ----

/// The logarithm of a size variable.
pub open spec fn log_of(v: int) -> AtomV {
    AtomV::Log(Box::new(p_var(v)))
}

/// In the size variable `v` the first monomial grows at least as the second: its power is larger,
/// or it is equal and so is, at least, the power of the variable's logarithm.
pub open spec fn grows_in(u: MonoV, t: MonoV, v: int) -> bool {
    let (eu, et) = (value(u.factors, AtomV::Var(v)), value(t.factors, AtomV::Var(v)));
    eu > et || eu == et && value(u.factors, log_of(v)) >= value(t.factors, log_of(v))
}

/// The variable is one of the monomial's factors.
pub open spec fn has_var(m: MonoV, v: int) -> bool {
    exists|i: int| 0 <= i < m.factors.len() && (#[trigger] m.factors[i]).0 == AtomV::Var(v)
}

/// A positive power of a variable inside the logarithm grows faster in `u` than in `t`.
pub open spec fn beats_log(u: MonoV, t: MonoV, inner: PolyV) -> bool {
    exists|i: int, j: int|
        #![trigger inner.terms[i].0.factors[j]]
        0 <= i < inner.terms.len() && 0 <= j < inner.terms[i].0.factors.len() && {
            let a = inner.terms[i].0.factors[j].0;
            a is Var && value(u.factors, a) > 0real && value(u.factors, a) > value(t.factors, a)
        }
}

/// What a factor of `t` asks of `u`: an unknown cost has to occur at least as often, a logarithm
/// has to occur or be beaten.
pub open spec fn factor_covered(u: MonoV, t: MonoV, f: (AtomV, real)) -> bool {
    match f.0 {
        AtomV::Opaque(_) => value(u.factors, f.0) >= f.1,
        AtomV::Log(inner) => holds(u.factors, f.0) || beats_log(u, t, *inner),
        _ => true,
    }
}

/// The first monomial dominates the second.
pub open spec fn m_dominates(u: MonoV, t: MonoV) -> bool {
    &&& forall|v: int| has_var(u, v) || has_var(t, v) ==> #[trigger] grows_in(u, t, v)
    &&& forall|i: int| 0 <= i < t.factors.len() ==> factor_covered(u, t, #[trigger] t.factors[i])
}

/// Some term of the polynomial dominates the monomial.
pub open spec fn m_dominated(t: MonoV, q: PolyV) -> bool {
    exists|j: int| 0 <= j < q.terms.len() && m_dominates((#[trigger] q.terms[j]).0, t)
}

/// Every term of the first polynomial is dominated by some term of the second.
pub open spec fn p_dominated(p: PolyV, q: PolyV) -> bool {
    forall|i: int| 0 <= i < p.terms.len() ==> m_dominated((#[trigger] p.terms[i]).0, q)
}

fn grows_as(u: &Mono, t: &Mono, v: usize) -> (r: bool)
    ensures
        r == grows_in(u@, t@, v as int),
{
    let a = Atom::Var(v);
    let log = Atom::Log(Box::new(Poly::var(v)));
    proof {
        atom_view_is(a);
        atom_view_is(log);
    }
    match u.exponent(&a).side(&t.exponent(&a)) {
        Side::Before => false,
        Side::After => true,
        Side::Same => u.exponent(&log).side(&t.exponent(&log)) != Side::Before,
    }
}

/// Whether the first monomial grows as the second in every variable of `m`.
#[verifier::loop_isolation(false)]
fn grows_in_all(u: &Mono, t: &Mono, m: &Mono) -> (r: bool)
    ensures
        r == (forall|v: int| has_var(m@, v) ==> #[trigger] grows_in(u@, t@, v)),
{
    let mut i: usize = 0;
    while i < m.len()
        invariant
            i <= m@.factors.len(),
            forall|k: int, v: int|
                #![trigger m@.factors[k], grows_in(u@, t@, v)]
                0 <= k < i && m@.factors[k].0 == AtomV::Var(v) ==> grows_in(u@, t@, v),
        decreases m@.factors.len() - i,
    {
        let a = m.atom_at(i);
        proof {
            atom_view_is(*a);
        }
        if let Atom::Var(v) = a {
            if !grows_as(u, t, *v) {
                proof {
                    assert(m@.factors[i as int].0 == AtomV::Var(*v as int));
                    assert(has_var(m@, *v as int));
                }
                return false;
            }
        }
        i += 1;
    }
    proof {
        assert forall|v: int| has_var(m@, v) implies #[trigger] grows_in(u@, t@, v) by {
            let k = choose|k: int| 0 <= k < m@.factors.len() && (#[trigger] m@.factors[k]).0 == AtomV::Var(v);
            assert(m@.factors[k].0 == AtomV::Var(v));
        }
    }
    true
}

#[verifier::loop_isolation(false)]
fn log_beaten(u: &Mono, t: &Mono, inner: &Poly) -> (r: bool)
    ensures
        r == beats_log(u@, t@, inner@),
{
    let mut i: usize = 0;
    while i < inner.len()
        invariant
            i <= inner@.terms.len(),
            forall|k: int, j: int|
                #![trigger inner@.terms[k].0.factors[j]]
                0 <= k < i && 0 <= j < inner@.terms[k].0.factors.len() ==> !{
                    let a = inner@.terms[k].0.factors[j].0;
                    a is Var && value(u@.factors, a) > 0real && value(u@.factors, a) > value(t@.factors, a)
                },
        decreases inner@.terms.len() - i,
    {
        let m = inner.mono_at(i);
        let mut j: usize = 0;
        while j < m.len()
            invariant
                j <= m@.factors.len(),
                forall|l: int|
                    0 <= l < j ==> !{
                        let a = (#[trigger] m@.factors[l]).0;
                        a is Var && value(u@.factors, a) > 0real && value(u@.factors, a) > value(t@.factors, a)
                    },
            decreases m@.factors.len() - j,
        {
            let a = m.atom_at(j);
            proof {
                atom_view_is(*a);
                assert(inner@.terms[i as int].0.factors[j as int].0 == a@);
            }
            if let Atom::Var(_) = a {
                let e = u.exponent(a);
                if e.is_positive() && e.side(&t.exponent(a)) == Side::After {
                    return true;
                }
            }
            j += 1;
        }
        i += 1;
    }
    false
}

/// Whether the first monomial dominates the second.
#[verifier::loop_isolation(false)]
fn dominates(u: &Mono, t: &Mono) -> (r: bool)
    ensures
        r == m_dominates(u@, t@),
{
    if !grows_in_all(u, t, u) || !grows_in_all(u, t, t) {
        return false;
    }
    let mut i: usize = 0;
    while i < t.len()
        invariant
            i <= t@.factors.len(),
            forall|k: int| 0 <= k < i ==> factor_covered(u@, t@, #[trigger] t@.factors[k]),
        decreases t@.factors.len() - i,
    {
        let a = t.atom_at(i);
        proof {
            atom_view_is(*a);
        }
        let ok: bool = match a {
            // an unknown callee's cost is covered only by the same term, at least as often
            Atom::Opaque(_) => u.exponent(a).side(t.exponent_at(i)) != Side::Before,
            // a log of something the asserted side does not have at all is fine only if it has a
            // larger power of the variable inside
            Atom::Log(inner) => u.has_atom(a) || log_beaten(u, t, inner),
            _ => true,
        };
        proof {
            assert(ok == factor_covered(u@, t@, t@.factors[i as int]));
        }
        if !ok {
            return false;
        }
        i += 1;
    }
    true
}

/// Is every term of `inferred` dominated by some term of `asserted`? A term dominates another
/// when, for every size variable, its exponent is at least as large, and when equal on a
/// variable, its `log` power of that variable is at least as large. `B` and `M` are constants
/// and do not count. Coefficients do not count: this is asymptotic.
#[verifier::loop_isolation(false)]
pub fn dominated(inferred: &Poly, asserted: &Poly) -> (r: bool)
    ensures
        r == p_dominated(inferred@, asserted@),
{
    let ghost (p, q) = (inferred@, asserted@);
    let mut i: usize = 0;
    while i < inferred.len()
        invariant
            i <= p.terms.len(),
            forall|k: int| 0 <= k < i ==> m_dominated((#[trigger] p.terms[k]).0, q),
        decreases p.terms.len() - i,
    {
        let t = inferred.mono_at(i);
        let mut found: bool = false;
        let mut j: usize = 0;
        while j < asserted.len()
            invariant
                j <= q.terms.len(),
                found == (exists|l: int| 0 <= l < j && m_dominates((#[trigger] q.terms[l]).0, t@)),
            decreases q.terms.len() - j,
        {
            if dominates(asserted.mono_at(j), t) {
                found = true;
                proof {
                    assert(m_dominates(q.terms[j as int].0, t@));
                }
            }
            j += 1;
        }
        proof {
            assert(found == m_dominated(p.terms[i as int].0, q));
        }
        if !found {
            return false;
        }
        i += 1;
    }
    true
}

} // verus!
