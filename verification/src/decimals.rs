//! How a decimal literal is written out again: without the zeros that say nothing, and in the two
//! forms that floating-point numbers have in Rust, plain and as a constant.
//!
//! A literal of up to fifteen significant digits names its number, and these are the shortest
//! digits that do. A longer one keeps its digits, and one beyond all doubles its text.

use vstd::prelude::*;
use crate::lex::{digits_end, slice_of};
use crate::text::{cat2, cat3, cat4, chars_of, int_text, show_i128, text_of};
use crate::words::{end_of_digits, exponent_at, exponent_of, is_at};
use crate::cost::scan::sees;

verus! {

/// How many zeros the digits begin with.
pub open spec fn zeros_ahead(d: Seq<char>) -> nat
    decreases d.len(),
{
    if d.len() > 0 && d[0] == '0' {
        1 + zeros_ahead(d.drop_first())
    } else {
        0
    }
}

/// The digits without the zeros at their end.
pub open spec fn without_zeros(d: Seq<char>) -> Seq<char>
    decreases d.len(),
{
    if d.len() > 0 && d.last() == '0' {
        without_zeros(d.drop_last())
    } else {
        d
    }
}

/// A number `0.d₁d₂… · 10^point`, with neither the first nor the last digit zero.
pub struct DigitsV {
    pub digits: Seq<char>,
    pub point: int,
}

/// The number that a literal names: digits, a fraction or none, an exponent or none.
pub open spec fn literal_value(s: Seq<char>) -> Option<DigitsV> {
    let a = digits_end(s, 0);
    let dot = sees(s, a, '.');
    let b = if dot {
        digits_end(s, a + 1)
    } else {
        a
    };
    let all = s.take(a) + (if dot {
        s.subrange(a + 1, b)
    } else {
        Seq::empty()
    });
    let z = zeros_ahead(all);
    match exponent_at(s, b) {
        Some(x) => Some(DigitsV { digits: without_zeros(all.skip(z as int)), point: a + x - z }),
        None => None,
    }
}

pub open spec fn zeros(n: nat) -> Seq<char> {
    Seq::new(n, |i: int| '0')
}

/// The number with all its places: `120`, `1.5`, `0.02`.
pub open spec fn placed(v: DigitsV) -> Seq<char> {
    if v.digits.len() == 0 {
        "0"@
    } else if v.point <= 0 {
        "0."@ + zeros((-v.point) as nat) + v.digits
    } else if v.point >= v.digits.len() {
        v.digits + zeros((v.point - v.digits.len()) as nat)
    } else {
        v.digits.take(v.point) + "."@ + v.digits.skip(v.point)
    }
}

/// The number with one digit before the point and an exponent: `1.5e20`.
pub open spec fn with_exponent(v: DigitsV) -> Seq<char> {
    v.digits.take(1) + (if v.digits.len() > 1 {
        "."@ + v.digits.skip(1)
    } else {
        Seq::empty()
    }) + "e"@ + int_text(v.point - 1)
}

/// The number is one that a double can be.
pub open spec fn in_range(v: DigitsV) -> bool {
    -400 <= v.point <= 400 || v.digits.len() == 0
}

/// A literal as a message shows it: `1` for `1.0`.
pub open spec fn plain_text(s: Seq<char>) -> Seq<char> {
    match literal_value(s) {
        Some(v) => if in_range(v) {
            placed(v)
        } else {
            s
        },
        None => s,
    }
}

/// A literal as a constant, which shows that it is no integer: `1000.0` for `1e3`. A number of
/// seventeen places or more, or below a ten-thousandth, has an exponent.
pub open spec fn constant_text(s: Seq<char>) -> Seq<char> {
    match literal_value(s) {
        Some(v) => if !in_range(v) {
            s
        } else if v.digits.len() > 0 && (v.point > 16 || v.point < -3) {
            with_exponent(v)
        } else if v.digits.len() == 0 || v.point >= v.digits.len() {
            placed(v) + ".0"@
        } else {
            placed(v)
        },
        None => s,
    }
}

struct Digits {
    digits: Vec<char>,
    point: i128,
}

impl Digits {
    spec fn v(self) -> DigitsV {
        DigitsV { digits: self.digits@, point: self.point as int }
    }

    fn fits(&self) -> (r: bool)
        ensures
            r == in_range(self.v()),
    {
        -400 <= self.point && self.point <= 400 || self.digits.len() == 0
    }

    fn placed(&self) -> (r: String)
        requires
            in_range(self.v()),
        ensures
            r@ == placed(self.v()),
    {
        let n = self.digits.len();
        if n == 0 {
            return "0".to_owned();
        }
        if self.point <= 0 {
            return cat3("0.", &text_of(&make_zeros((-self.point) as usize)), &text_of(&self.digits));
        }
        let p: usize = self.point as usize;
        if p >= n {
            return cat2(&text_of(&self.digits), &text_of(&make_zeros(p - n)));
        }
        let (left, right) = (slice_of(&self.digits, 0, p), slice_of(&self.digits, p, n));
        assert(left@ =~= self.digits@.take(p as int));
        assert(right@ =~= self.digits@.skip(p as int));
        cat3(&text_of(&left), ".", &text_of(&right))
    }

    fn with_exponent(&self) -> (r: String)
        requires
            in_range(self.v()),
            self.digits@.len() > 0,
        ensures
            r@ == with_exponent(self.v()),
    {
        let n = self.digits.len();
        let (left, right) = (slice_of(&self.digits, 0, 1), slice_of(&self.digits, 1, n));
        assert(left@ =~= self.digits@.take(1));
        assert(right@ =~= self.digits@.skip(1));
        let x = show_i128(self.point - 1);
        let rest = if n > 1 {
            cat2(".", &text_of(&right))
        } else {
            let none = "".to_owned();
            proof {
                reveal_strlit("");
                assert(none@ =~= Seq::<char>::empty());
            }
            none
        };
        cat4(&text_of(&left), &rest, "e", &x)
    }
}

fn make_zeros(n: usize) -> (r: Vec<char>)
    ensures
        r@ == zeros(n as nat),
{
    let mut r: Vec<char> = Vec::new();
    while r.len() < n
        invariant
            r@.len() <= n,
            r@ == zeros(r@.len()),
        decreases n - r@.len(),
    {
        r.push('0');
        assert(r@ =~= zeros(r@.len()));
    }
    r
}

fn count_zeros(d: &Vec<char>) -> (r: usize)
    ensures
        r == zeros_ahead(d@),
        r <= d@.len(),
{
    let mut i: usize = 0;
    assert(d@.skip(0) =~= d@);
    while i < d.len() && d[i] == '0'
        invariant
            i <= d@.len(),
            zeros_ahead(d@) == i + zeros_ahead(d@.skip(i as int)),
        decreases d@.len() - i,
    {
        assert(d@.skip(i as int).drop_first() =~= d@.skip(i + 1));
        i += 1;
    }
    i
}

fn drop_zeros(d: &mut Vec<char>)
    ensures
        final(d)@ == without_zeros(old(d)@),
{
    let ghost all = d@;
    while d.len() > 0 && d[d.len() - 1] == '0'
        invariant
            without_zeros(d@) == without_zeros(all),
        decreases d@.len(),
    {
        let ghost was = d@;
        d.pop();
        assert(d@ =~= was.drop_last());
    }
}

fn read_literal(s: &Vec<char>) -> (r: Option<Digits>)
    ensures
        match r {
            Some(d) => literal_value(s@) == Some(d.v()),
            None => literal_value(s@) is None,
        },
{
    let a = end_of_digits(s, 0);
    let dot = is_at(s, a, '.');
    let b = if dot {
        end_of_digits(s, a + 1)
    } else {
        a
    };
    let x = match exponent_of(s, b) {
        Some(x) => x,
        None => {
            return None;
        },
    };
    let mut all = slice_of(s, 0, a);
    assert(all@ =~= s@.take(a as int));
    if dot {
        let mut frac = slice_of(s, a + 1, b);
        all.append(&mut frac);
    }
    let ghost av = all@;
    proof {
        assert(av =~= s@.take(a as int) + (if dot {
            s@.subrange(a + 1, b as int)
        } else {
            Seq::empty()
        }));
    }
    let z = count_zeros(&all);
    let mut digits = slice_of(&all, z, all.len());
    assert(digits@ =~= av.skip(z as int));
    drop_zeros(&mut digits);
    match x.to_i128() {
        Some(e) => {
            proof {
                crate::words::exponent_small(s@, b as int);
            }
            Some(Digits { digits, point: a as i128 + e - z as i128 })
        },
        None => {
            proof {
                crate::words::exponent_small(s@, b as int);
            }
            None
        },
    }
}

/// A literal as a message shows it.
pub fn show_plain(s: &str) -> (r: String)
    ensures
        r@ == plain_text(s@),
{
    match read_literal(&chars_of(s)) {
        Some(d) => {
            if d.fits() {
                d.placed()
            } else {
                s.to_owned()
            }
        },
        None => s.to_owned(),
    }
}

/// A literal as a constant.
pub fn show_constant(s: &str) -> (r: String)
    ensures
        r@ == constant_text(s@),
{
    match read_literal(&chars_of(s)) {
        Some(d) => {
            if !d.fits() {
                return s.to_owned();
            }
            let n = d.digits.len();
            if n > 0 && (d.point > 16 || d.point < -3) {
                d.with_exponent()
            } else if n == 0 || d.point >= n as i128 {
                cat2(&d.placed(), ".0")
            } else {
                d.placed()
            }
        },
        None => s.to_owned(),
    }
}

} // verus!
