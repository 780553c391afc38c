//! Lower bounds from IOLB (Olivry, Langou, Pouchet, Sadayappan, Rastello, 2020): the asymptotic
//! bound in words that the tool prints, a GiNaC expression such as `2*n^3*S^(-1/2)`, is parsed
//! into the function's atoms. `S` is the cache in words, `M/8` here; the result is multiplied by 8
//! into bytes.

use vstd::prelude::*;
use crate::cost::algebra::{p_add, p_atom, p_mul, p_rat, p_scale, p_sub, p_term, p_var, p_zero};
use crate::cost::assoc::value;
use crate::cost::forms::p_const;
use crate::cost::model::{AtomV, MonoV, PolyV};
use crate::cost::rat::{num, ratio, whole, Rat};
use crate::cost::root::{kept, rat_kept, rat_whole_pow, whole_pow};
use crate::cost::scan::{
    ends_with, find_name, has_end, is_letter, is_letter_or_number, is_there, letter, letter_or_number, name_index,
    number_at, past_space, read_number, sees, skip_space,
};
use crate::cost::size::{atom_view_is, m_raise, Atom, Poly};
use crate::lex::{digit, is_digit, slice_of};
use crate::text::{cat2, cat3, cat5, chars_of, one_char, text_of, texts};

verus! {

/// Words to bytes, one term: a cache of `S = M/8` words, so `S^e = 8^(−e)·M^e`, and the count
/// itself times 8, to four decimals.
pub open spec fn terms_bytes(t: Seq<(MonoV, real)>) -> PolyV
    decreases t.len(),
{
    if t.len() == 0 {
        p_zero()
    } else {
        let e = value(t.last().0.factors, AtomV::M);
        p_add(terms_bytes(t.drop_last()), p_term(t.last().0, t.last().1 * kept(8real, 1real - e)))
    }
}

/// IOLB counts words in a cache of `S` words; the calculus counts bytes in `M` bytes. With 8-byte
/// words `S = M/8`, so `S^e = 8^(-e)·M^e`, and the count itself is ×8. `8^(1/2)` is irrational;
/// the coefficient is kept to four decimals.
#[verifier::loop_isolation(false)]
pub fn to_bytes(words: &Poly) -> (r: Poly)
    ensures
        r@ == terms_bytes(words@.terms),
{
    let ghost t = words@.terms;
    let mut out = Poly::zero();
    let mut i: usize = 0;
    let m_atom = Atom::M;
    proof {
        atom_view_is(m_atom);
        assert(t.take(0) =~= Seq::empty());
    }
    while i < words.len()
        invariant
            i <= t.len(),
            out@ == terms_bytes(t.take(i as int)),
        decreases t.len() - i,
    {
        proof {
            assert(t.take(i + 1).drop_last() =~= t.take(i as int));
            assert(t.take(i + 1).last() == t[i as int]);
        }
        let m = words.mono_at(i);
        let e = Rat::one().sub(&m.exponent(&m_atom));
        let coef = words.coeff_at(i).mul(&rat_kept(&Rat::integer(8), &e));
        out = out.add(&Poly::term(m.copy(), coef));
        i += 1;
    }
    proof {
        assert(t.take(i as int) =~= t);
    }
    out
}

/// A single term to a rational power.
pub open spec fn term_pow(p: PolyV, e: real) -> Result<PolyV, Seq<char>> {
    if p.terms.len() != 1 {
        Err("a power of a sum in IOLB output"@)
    } else if p.terms[0].1 != 1real && !whole(e) {
        Err("a fractional power of a coefficient in IOLB output"@)
    } else if e == 0real {
        Ok(p_rat(1real))
    } else {
        Ok(
            p_term(
                m_raise(p.terms[0].0, e),
                if whole(e) {
                    whole_pow(p.terms[0].1, num(e))
                } else {
                    1real
                },
            ),
        )
    }
}

/// The quotient by a constant.
pub open spec fn const_div(p: PolyV, d: PolyV) -> Result<PolyV, Seq<char>> {
    match p_const(d) {
        Some(c) => if c == 0real {
            Err("division by zero in IOLB output"@)
        } else {
            Ok(p_scale(p, 1real / c))
        },
        None => Err("division by a non-constant in IOLB output"@),
    }
}

/// Where the run of letters, numbers and `_` at `i` ends.
pub open spec fn param_end(s: Seq<char>, i: int) -> int
    decreases s.len() - i,
{
    if 0 <= i < s.len() && (letter_or_number(s[i]) || s[i] == '_') {
        param_end(s, i + 1)
    } else {
        i
    }
}

pub open spec fn none_text() -> Seq<char> {
    "expected a number in IOLB output"@
}

/// What a parameter stands for: the cache, an atom of the same name, or `x.len()` for `x_n`.
pub open spec fn param_meaning(w: Seq<char>, names: Seq<Seq<char>>) -> Result<PolyV, Seq<char>> {
    if w == "S"@ {
        Ok(p_atom(AtomV::M))
    } else if w == "max"@ {
        Err("the asymptotic line should not contain max"@)
    } else {
        match name_index(names, w, 0) {
            Some(i) => Ok(p_var(i)),
            None => {
                let sized = if ends_with(w, "_n"@) {
                    name_index(names, w.take(w.len() - "_n"@.len()) + ".len()"@, 0)
                } else {
                    None
                };
                match sized {
                    Some(i) => Ok(p_var(i)),
                    None => if ends_with(w, "_rows"@) {
                        Err(
                            "IOLB's bound mentions `"@ + w
                                + "`, a row count the export introduced; the bound is not in the function's sizes"@,
                        )
                    } else {
                        Err("`"@ + w + "` in IOLB's output is not a size of this function"@)
                    },
                }
            },
        }
    }
}

/// What an expression inside brackets means, by where it starts.
pub type Inner = spec_fn(int) -> Result<(PolyV, int), Seq<char>>;

/// The rules applied to expressions that start after `n`.
#[verifier::opaque]
pub open spec fn g_knot(s: Seq<char>, names: Seq<Seq<char>>, n: int) -> Inner
    decreases s.len() - n,
{
    |j: int|
        if n < j <= s.len() {
            g_sum(s, names, g_knot(s, names, j), j)
        } else {
            arbitrary()
        }
}

/// A sum: an optional sign, then terms.
#[verifier::opaque]
pub open spec fn g_expr(s: Seq<char>, names: Seq<Seq<char>>, i: int) -> Result<(PolyV, int), Seq<char>> {
    g_sum(s, names, g_knot(s, names, i), i)
}

proof fn knot_at(s: Seq<char>, names: Seq<Seq<char>>, n: int, j: int)
    requires
        n < j <= s.len(),
    ensures
        (g_knot(s, names, n))(j) == g_expr(s, names, j),
{
    reveal(g_knot);
    reveal(g_expr);
}

#[verifier::opaque]
pub open spec fn g_sum(s: Seq<char>, names: Seq<Seq<char>>, inner: Inner, i: int) -> Result<(PolyV, int), Seq<char>> {
    let a = past_space(s, i);
    let neg = sees(s, a, '-');
    match g_term(
        s,
        names,
        inner,
        if neg {
            a + 1
        } else {
            i
        },
    ) {
        Ok((t, j)) => g_sum_rest(
            s,
            names,
            inner,
            j,
            if neg {
                p_scale(t, -1real)
            } else {
                t
            },
        ),
        Err(m) => Err(m),
    }
}

#[verifier::opaque]
pub open spec fn g_sum_rest(s: Seq<char>, names: Seq<Seq<char>>, inner: Inner, i: int, acc: PolyV) -> Result<
    (PolyV, int),
    Seq<char>,
>
    decreases s.len() - i,
{
    let a = past_space(s, i);
    if !(i <= a <= s.len()) {
        arbitrary()
    } else if sees(s, a, '+') || sees(s, a, '-') {
        match g_term(s, names, inner, a + 1) {
            Ok((t, j)) => if !(i < j <= s.len()) {
                arbitrary()
            } else {
                g_sum_rest(
                    s,
                    names,
                    inner,
                    j,
                    if sees(s, a, '+') {
                        p_add(acc, t)
                    } else {
                        p_sub(acc, t)
                    },
                )
            },
            Err(m) => Err(m),
        }
    } else {
        Ok((acc, a))
    }
}

#[verifier::opaque]
pub open spec fn g_term(s: Seq<char>, names: Seq<Seq<char>>, inner: Inner, i: int) -> Result<(PolyV, int), Seq<char>> {
    match g_power(s, names, inner, i) {
        Ok((p, j)) => g_term_rest(s, names, inner, j, p),
        Err(m) => Err(m),
    }
}

#[verifier::opaque]
pub open spec fn g_term_rest(s: Seq<char>, names: Seq<Seq<char>>, inner: Inner, i: int, acc: PolyV) -> Result<
    (PolyV, int),
    Seq<char>,
>
    decreases s.len() - i,
{
    let a = past_space(s, i);
    if !(i <= a <= s.len()) {
        arbitrary()
    } else if sees(s, a, '*') || sees(s, a, '/') {
        match g_power(s, names, inner, a + 1) {
            Ok((f, j)) => {
                let next = if sees(s, a, '*') {
                    Ok(p_mul(acc, f))
                } else {
                    const_div(acc, f)
                };
                match next {
                    Ok(q) => if !(i < j <= s.len()) {
                        arbitrary()
                    } else {
                        g_term_rest(s, names, inner, j, q)
                    },
                    Err(m) => Err(m),
                }
            },
            Err(m) => Err(m),
        }
    } else {
        Ok((acc, a))
    }
}

/// The exponent after a `^`: an integer, or `(p/q)`, possibly negative.
#[verifier::opaque]
pub open spec fn g_exponent(s: Seq<char>, i: int) -> Result<(real, int), Seq<char>> {
    let a = past_space(s, i);
    let paren = sees(s, a, '(');
    let b = past_space(
        s,
        if paren {
            a + 1
        } else {
            a
        },
    );
    let neg = sees(s, b, '-');
    match number_at(
        s,
        if neg {
            b + 1
        } else {
            b
        },
        none_text(),
    ) {
        Err(m) => Err(m),
        Ok((p, c)) => {
            let d = past_space(s, c);
            let below = if sees(s, d, '/') {
                number_at(s, d + 1, none_text())
            } else {
                Ok((1, d))
            };
            match below {
                Err(m) => Err(m),
                Ok((q, e)) => {
                    let f = past_space(s, e);
                    let value = ratio(
                        if neg {
                            -p
                        } else {
                            p
                        },
                        q,
                    );
                    if paren && !sees(s, f, ')') {
                        Err("expected `)` in exponent"@)
                    } else if q == 0 {
                        Err("a zero denominator in exponent"@)
                    } else if paren {
                        Ok((value, f + 1))
                    } else {
                        Ok((value, e))
                    }
                },
            }
        },
    }
}

#[verifier::opaque]
pub open spec fn g_power(s: Seq<char>, names: Seq<Seq<char>>, inner: Inner, i: int) -> Result<(PolyV, int), Seq<char>> {
    match g_atom(s, names, inner, i) {
        Err(m) => Err(m),
        Ok((base, j)) => {
            let a = past_space(s, j);
            if !sees(s, a, '^') {
                Ok((base, a))
            } else {
                match g_exponent(s, a + 1) {
                    Err(m) => Err(m),
                    Ok((e, k)) => match term_pow(base, e) {
                        Ok(p) => Ok((p, k)),
                        Err(m) => Err(m),
                    },
                }
            }
        },
    }
}

#[verifier::opaque]
pub open spec fn g_atom(s: Seq<char>, names: Seq<Seq<char>>, inner: Inner, i: int) -> Result<(PolyV, int), Seq<char>> {
    let a = past_space(s, i);
    if a >= s.len() {
        Err("IOLB output ends early"@)
    } else if s[a] == '(' {
        match inner(a + 1) {
            Ok((e, j)) => {
                let b = past_space(s, j);
                if sees(s, b, ')') {
                    Ok((e, b + 1))
                } else {
                    Err("expected `)`"@)
                }
            },
            Err(m) => Err(m),
        }
    } else if digit(s[a]) {
        match number_at(s, a, none_text()) {
            Ok((k, e)) => Ok((p_rat(k as real), e)),
            Err(m) => Err(m),
        }
    } else if letter(s[a]) || s[a] == '_' {
        let j = param_end(s, a);
        match param_meaning(s.subrange(a, j), names) {
            Ok(p) => Ok((p, j)),
            Err(m) => Err(m),
        }
    } else {
        Err("unexpected `"@ + seq![s[a]] + "` in IOLB output"@)
    }
}

/// The polynomial that the tool's text writes, in words.
pub open spec fn s_ginac(s: Seq<char>, names: Seq<Seq<char>>) -> Result<PolyV, Seq<char>> {
    match g_expr(s, names, 0) {
        Ok((p, i)) => {
            let a = past_space(s, i);
            if a == s.len() {
                Ok(p)
            } else {
                Err("unexpected `"@ + seq![s[a]] + "` in IOLB output `"@ + s + "`"@)
            }
        },
        Err(m) => Err(m),
    }
}

spec fn read(r: Result<(Poly, usize), String>, s: Result<(PolyV, int), Seq<char>>, i: int, n: int) -> bool {
    match r {
        Ok(p) => s == Ok::<(PolyV, int), Seq<char>>((p.0@, p.1 as int)) && i < p.1 <= n,
        Err(m) => s == Err::<(PolyV, int), Seq<char>>(m@),
    }
}

fn raise(p: &Poly, e: &Rat) -> (r: Result<Poly, String>)
    ensures
        match r {
            Ok(q) => term_pow(p@, e@) == Ok::<PolyV, Seq<char>>(q@),
            Err(m) => term_pow(p@, e@) == Err::<PolyV, Seq<char>>(m@),
        },
{
    p.known();
    match p.as_mono() {
        // the base must be a single term to take a rational power
        None => Err("a power of a sum in IOLB output".to_owned()),
        Some((m, c)) => {
            let exact: bool = e.is_int();
            if !c.same(&Rat::one()) && !exact {
                return Err("a fractional power of a coefficient in IOLB output".to_owned());
            }
            if e.is_zero() {
                return Ok(Poly::constant(1));
            }
            let coef = if exact {
                rat_whole_pow(&c, &e.numer())
            } else {
                Rat::one()
            };
            Ok(Poly::term(m.raised(e), coef))
        },
    }
}

fn divide(p: &Poly, d: &Poly) -> (r: Result<Poly, String>)
    ensures
        match r {
            Ok(q) => const_div(p@, d@) == Ok::<PolyV, Seq<char>>(q@),
            Err(m) => const_div(p@, d@) == Err::<PolyV, Seq<char>>(m@),
        },
{
    match d.as_const() {
        Some(c) => {
            if c.is_zero() {
                return Err("division by zero in IOLB output".to_owned());
            }
            Ok(p.scale(&c.inverse()))
        },
        None => Err("division by a non-constant in IOLB output".to_owned()),
    }
}

struct Reader<'a> {
    s: Vec<char>,
    names: &'a [String],
}

impl<'a> Reader<'a> {
    spec fn n(&self) -> int {
        self.s@.len() as int
    }

    spec fn nv(&self) -> Seq<Seq<char>> {
        texts(self.names@)
    }

    #[verifier::loop_isolation(false)]
    fn expr(&self, i: usize) -> (r: Result<(Poly, usize), String>)
        requires
            i <= self.n(),
        ensures
            read(r, g_expr(self.s@, self.nv(), i as int), i as int, self.n()),
        decreases self.n() - i, 5int,
    {
        let ghost inner = g_knot(self.s@, self.nv(), i as int);
        proof {
            reveal(g_expr);
            reveal(g_sum);
            reveal(g_sum_rest);
        }
        let a0: usize = skip_space(&self.s, i);
        let neg: bool = is_there(&self.s, a0, '-');
        let from: usize = if neg {
            a0 + 1
        } else {
            i
        };
        let (first, j0) = match self.term(from, Ghost(i as int)) {
            Ok(x) => x,
            Err(m) => {
                return Err(m);
            },
        };
        let mut acc = if neg {
            first.scale(&Rat::integer(-1))
        } else {
            first
        };
        let mut at: usize = j0;
        loop
            invariant
                i < at <= self.n(),
                g_expr(self.s@, self.nv(), i as int) == g_sum_rest(self.s@, self.nv(), inner, at as int, acc@),
            decreases self.n() - at,
        {
            let a: usize = skip_space(&self.s, at);
            let plus: bool = is_there(&self.s, a, '+');
            if !plus && !is_there(&self.s, a, '-') {
                return Ok((acc, a));
            }
            let (t, j) = match self.term(a + 1, Ghost(i as int)) {
                Ok(x) => x,
                Err(m) => {
                    return Err(m);
                },
            };
            acc = if plus {
                acc.add(&t)
            } else {
                acc.sub(&t)
            };
            at = j;
        }
    }

    #[verifier::loop_isolation(false)]
    fn term(&self, i: usize, Ghost(n): Ghost<int>) -> (r: Result<(Poly, usize), String>)
        requires
            n <= i <= self.n(),
        ensures
            read(r, g_term(self.s@, self.nv(), g_knot(self.s@, self.nv(), n), i as int), i as int, self.n()),
        decreases self.n() - i, 4int,
    {
        let ghost inner = g_knot(self.s@, self.nv(), n);
        proof {
            reveal(g_term);
            reveal(g_term_rest);
        }
        let (first, j0) = match self.power(i, Ghost(n)) {
            Ok(x) => x,
            Err(m) => {
                return Err(m);
            },
        };
        let mut acc = first;
        let mut at: usize = j0;
        loop
            invariant
                i < at <= self.n(),
                g_term(self.s@, self.nv(), inner, i as int) == g_term_rest(
                    self.s@,
                    self.nv(),
                    inner,
                    at as int,
                    acc@,
                ),
            decreases self.n() - at,
        {
            let a: usize = skip_space(&self.s, at);
            let times: bool = is_there(&self.s, a, '*');
            if !times && !is_there(&self.s, a, '/') {
                return Ok((acc, a));
            }
            let (f, j) = match self.power(a + 1, Ghost(n)) {
                Ok(x) => x,
                Err(m) => {
                    return Err(m);
                },
            };
            if times {
                acc = acc.mul(&f);
            } else {
                acc = match divide(&acc, &f) {
                    Ok(q) => q,
                    Err(m) => {
                        return Err(m);
                    },
                };
            }
            at = j;
        }
    }

    /// The exponent after a `^`.
    fn exponent(&self, i: usize) -> (r: Result<(Rat, usize), String>)
        requires
            i <= self.n(),
        ensures
            match r {
                Ok(p) => g_exponent(self.s@, i as int) == Ok::<(real, int), Seq<char>>((p.0@, p.1 as int)) && i < p.1
                    <= self.n(),
                Err(m) => g_exponent(self.s@, i as int) == Err::<(real, int), Seq<char>>(m@),
            },
    {
        proof {
            reveal(g_exponent);
        }
        let a: usize = skip_space(&self.s, i);
        let paren: bool = is_there(&self.s, a, '(');
        let b: usize = skip_space(
            &self.s,
            if paren {
                a + 1
            } else {
                a
            },
        );
        let neg: bool = is_there(&self.s, b, '-');
        let (p, c) = match read_number(
            &self.s,
            if neg {
                b + 1
            } else {
                b
            },
            "expected a number in IOLB output",
        ) {
            Ok(x) => x,
            Err(m) => {
                return Err(m);
            },
        };
        let d: usize = skip_space(&self.s, c);
        let (q, e): (i128, usize) = if is_there(&self.s, d, '/') {
            match read_number(&self.s, d + 1, "expected a number in IOLB output") {
                Ok(x) => x,
                Err(m) => {
                    return Err(m);
                },
            }
        } else {
            (1, d)
        };
        let f: usize = skip_space(&self.s, e);
        if paren && !is_there(&self.s, f, ')') {
            return Err("expected `)` in exponent".to_owned());
        }
        if q == 0 {
            return Err("a zero denominator in exponent".to_owned());
        }
        let value = Rat::new(
            if neg {
                -p
            } else {
                p
            },
            q,
        );
        if paren {
            Ok((value, f + 1))
        } else {
            Ok((value, e))
        }
    }

    fn power(&self, i: usize, Ghost(n): Ghost<int>) -> (r: Result<(Poly, usize), String>)
        requires
            n <= i <= self.n(),
        ensures
            read(r, g_power(self.s@, self.nv(), g_knot(self.s@, self.nv(), n), i as int), i as int, self.n()),
        decreases self.n() - i, 3int,
    {
        proof {
            reveal(g_power);
        }
        let (base, j) = match self.atom(i, Ghost(n)) {
            Ok(x) => x,
            Err(m) => {
                return Err(m);
            },
        };
        let a: usize = skip_space(&self.s, j);
        if !is_there(&self.s, a, '^') {
            return Ok((base, a));
        }
        let (e, k) = match self.exponent(a + 1) {
            Ok(x) => x,
            Err(m) => {
                return Err(m);
            },
        };
        match raise(&base, &e) {
            Ok(p) => Ok((p, k)),
            Err(m) => Err(m),
        }
    }

    /// What a parameter stands for.
    fn meaning(&self, w: &Vec<char>) -> (r: Result<Poly, String>)
        ensures
            match r {
                Ok(p) => param_meaning(w@, self.nv()) == Ok::<PolyV, Seq<char>>(p@),
                Err(m) => param_meaning(w@, self.nv()) == Err::<PolyV, Seq<char>>(m@),
            },
    {
        let text = text_of(w);
        if text == "S".to_owned() {
            proof {
                atom_view_is(Atom::M);
            }
            return Ok(Poly::atom(Atom::M));
        }
        if text == "max".to_owned() {
            return Err("the asymptotic line should not contain max".to_owned());
        }
        if let Some(i) = find_name(self.names, &text) {
            return Ok(Poly::var(i));
        }
        if has_end(w, "_n") {
            let k: usize = chars_of("_n").len();
            let stem = slice_of(w, 0, w.len() - k);
            proof {
                assert(w@.subrange(0, w@.len() - k) =~= w@.take(w@.len() - "_n"@.len()));
            }
            if let Some(i) = find_name(self.names, &cat2(&text_of(&stem), ".len()")) {
                return Ok(Poly::var(i));
            }
        }
        if has_end(w, "_rows") {
            return Err(
                cat3(
                    "IOLB's bound mentions `",
                    &text,
                    "`, a row count the export introduced; the bound is not in the function's sizes",
                ),
            );
        }
        Err(cat3("`", &text, "` in IOLB's output is not a size of this function"))
    }

    #[verifier::loop_isolation(false)]
    fn atom(&self, i: usize, Ghost(n): Ghost<int>) -> (r: Result<(Poly, usize), String>)
        requires
            n <= i <= self.n(),
        ensures
            read(r, g_atom(self.s@, self.nv(), g_knot(self.s@, self.nv(), n), i as int), i as int, self.n()),
        decreases self.n() - i, 2int,
    {
        proof {
            reveal(g_atom);
        }
        let a: usize = skip_space(&self.s, i);
        if a >= self.s.len() {
            return Err("IOLB output ends early".to_owned());
        }
        let c: char = self.s[a];
        if is_there(&self.s, a, '(') {
            proof {
                knot_at(self.s@, self.nv(), n, a + 1);
            }
            let (e, j) = match self.expr(a + 1) {
                Ok(x) => x,
                Err(m) => {
                    return Err(m);
                },
            };
            let b: usize = skip_space(&self.s, j);
            if !is_there(&self.s, b, ')') {
                return Err("expected `)`".to_owned());
            }
            return Ok((e, b + 1));
        }
        if is_digit(c) {
            let (k, e) = match read_number(&self.s, a, "expected a number in IOLB output") {
                Ok(x) => x,
                Err(m) => {
                    return Err(m);
                },
            };
            return Ok((Poly::constant(k), e));
        }
        if is_letter(c) || c == '_' {
            let mut j: usize = a;
            while j < self.s.len() && (is_letter_or_number(self.s[j]) || self.s[j] == '_')
                invariant
                    a <= j <= self.n(),
                    param_end(self.s@, a as int) == param_end(self.s@, j as int),
                decreases self.n() - j,
            {
                j += 1;
            }
            let w = slice_of(&self.s, a, j);
            return match self.meaning(&w) {
                Ok(p) => Ok((p, j)),
                Err(m) => Err(m),
            };
        }
        Err(cat3("unexpected `", &one_char(c), "` in IOLB output"))
    }
}

/// GiNaC's text: products with `*`, powers with `^` (integer or `(p/q)`), sums, parentheses.
pub fn parse(text: &str, names: &[String]) -> (r: Result<Poly, String>)
    ensures
        match r {
            Ok(p) => s_ginac(text@, texts(names@)) == Ok::<PolyV, Seq<char>>(p@),
            Err(m) => s_ginac(text@, texts(names@)) == Err::<PolyV, Seq<char>>(m@),
        },
{
    let reader = Reader { s: chars_of(text), names };
    let (e, i) = match reader.expr(0) {
        Ok(x) => x,
        Err(m) => {
            return Err(m);
        },
    };
    let a: usize = skip_space(&reader.s, i);
    if a != reader.s.len() {
        return Err(cat5("unexpected `", &one_char(reader.s[a]), "` in IOLB output `", text, "`"));
    }
    Ok(e)
}

} // verus!
