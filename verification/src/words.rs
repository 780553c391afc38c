//! Taking text apart: pieces between separators, surrounding space, and decimal numbers.

use vstd::prelude::*;
use crate::cost::rat::Rat;
use crate::cost::root::{rat_whole_pow, whole_pow};
use crate::cost::scan::{past_space, sees, skip_space};
use crate::lex::{blank, digit, digits_end, digits_value, is_blank, is_digit, slice_of};
use crate::num::{BigInt, BigNat};

verus! {

/// Where the text before `n` ends, without the space at its end.
pub open spec fn before_space(s: Seq<char>, n: int) -> int
    decreases n,
{
    if 0 < n <= s.len() && blank(s[n - 1]) {
        before_space(s, n - 1)
    } else {
        n
    }
}

/// The text without the space around it.
pub open spec fn trimmed(s: Seq<char>) -> Seq<char> {
    let a = past_space(s, 0);
    let b = before_space(s, s.len() as int);
    if a < b {
        s.subrange(a, b)
    } else {
        Seq::empty()
    }
}

pub fn trim(s: &Vec<char>) -> (r: Vec<char>)
    ensures
        r@ == trimmed(s@),
{
    let a = skip_space(s, 0);
    let mut b: usize = s.len();
    while b > 0 && is_blank(s[b - 1])
        invariant
            b <= s@.len(),
            before_space(s@, s@.len() as int) == before_space(s@, b as int),
        decreases b,
    {
        b -= 1;
    }
    if a < b {
        slice_of(s, a, b)
    } else {
        Vec::new()
    }
}

/// The first place of `c` from `i` on, or the end.
pub open spec fn cut_at(s: Seq<char>, c: char, i: int) -> int
    decreases s.len() - i,
{
    if 0 <= i < s.len() && s[i] != c {
        cut_at(s, c, i + 1)
    } else {
        i
    }
}

pub fn find_char(s: &Vec<char>, c: char, i: usize) -> (r: usize)
    requires
        i <= s@.len(),
    ensures
        r == cut_at(s@, c, i as int),
        i <= r <= s@.len(),
        r < s@.len() ==> s@[r as int] == c,
{
    let mut j: usize = i;
    while j < s.len() && s[j] != c
        invariant
            i <= j <= s@.len(),
            cut_at(s@, c, i as int) == cut_at(s@, c, j as int),
        decreases s@.len() - j,
    {
        j += 1;
    }
    j
}

/// The pieces of the text from `i` on between the separators.
pub open spec fn pieces_from(s: Seq<char>, c: char, i: int) -> Seq<Seq<char>>
    decreases s.len() - i,
{
    let j = cut_at(s, c, i);
    if i < 0 || j < i || j >= s.len() {
        seq![s.skip(i)]
    } else {
        seq![s.subrange(i, j)] + pieces_from(s, c, j + 1)
    }
}

pub open spec fn lists(s: Seq<Vec<char>>) -> Seq<Seq<char>> {
    Seq::new(s.len(), |i: int| s[i]@)
}

#[verifier::loop_isolation(false)]
pub fn split(s: &Vec<char>, c: char) -> (r: Vec<Vec<char>>)
    ensures
        lists(r@) == pieces_from(s@, c, 0),
{
    let mut out: Vec<Vec<char>> = Vec::new();
    let mut i: usize = 0;
    proof {
        assert(lists(out@) + pieces_from(s@, c, 0) =~= pieces_from(s@, c, 0));
    }
    loop
        invariant
            i <= s@.len(),
            lists(out@) + pieces_from(s@, c, i as int) == pieces_from(s@, c, 0),
        decreases s@.len() - i,
    {
        let j = find_char(s, c, i);
        if j >= s.len() {
            let last = slice_of(s, i, s.len());
            proof {
                assert(last@ =~= s@.skip(i as int));
                assert(lists(out@.push(last)) =~= lists(out@) + seq![last@]);
            }
            out.push(last);
            return out;
        }
        let part = slice_of(s, i, j);
        proof {
            assert(lists(out@.push(part)) =~= lists(out@).push(part@));
            assert(lists(out@).push(part@) + pieces_from(s@, c, j + 1) =~= lists(out@) + (seq![part@] + pieces_from(
                s@,
                c,
                j + 1,
            )));
        }
        out.push(part);
        i = j + 1;
    }
}

/// The two characters stand at `i`.
pub open spec fn sees_pair(s: Seq<char>, i: int, a: char, b: char) -> bool {
    sees(s, i, a) && sees(s, i + 1, b)
}

/// The first place from `i` on where the two characters stand.
pub open spec fn pair_at(s: Seq<char>, a: char, b: char, i: int) -> Option<int>
    decreases s.len() - i,
{
    if i < 0 || i >= s.len() {
        None
    } else if sees_pair(s, i, a, b) {
        Some(i)
    } else {
        pair_at(s, a, b, i + 1)
    }
}

pub fn find_pair(s: &Vec<char>, a: char, b: char) -> (r: Option<usize>)
    ensures
        match r {
            Some(i) => pair_at(s@, a, b, 0) == Some(i as int) && i + 2 <= s@.len(),
            None => pair_at(s@, a, b, 0) is None,
        },
{
    let mut i: usize = 0;
    while i < s.len()
        invariant
            i <= s@.len(),
            pair_at(s@, a, b, 0) == pair_at(s@, a, b, i as int),
        decreases s@.len() - i,
    {
        if s[i] == a && i + 1 < s.len() && s[i + 1] == b {
            return Some(i);
        }
        i += 1;
    }
    None
}

/// The text begins with `t`.
pub open spec fn begins_with(s: Seq<char>, t: Seq<char>) -> bool {
    s.len() >= t.len() && s.take(t.len() as int) == t
}

#[verifier::loop_isolation(false)]
pub fn has_start(s: &str, t: &str) -> (r: bool)
    ensures
        r == begins_with(s@, t@),
{
    let a = crate::text::chars_of(s);
    let b = crate::text::chars_of(t);
    if a.len() < b.len() {
        return false;
    }
    let ghost head = a@.take(b@.len() as int);
    let mut i: usize = 0;
    while i < b.len()
        invariant
            i <= b@.len(),
            forall|k: int| 0 <= k < i ==> (#[trigger] head[k]) == b@[k],
        decreases b@.len() - i,
    {
        if a[i] != b[i] {
            proof {
                assert(head[i as int] != b@[i as int]);
            }
            return false;
        }
        i += 1;
    }
    proof {
        assert(head =~= b@);
    }
    true
}

// ---- decimal numbers ----

/// A sign at `i` is passed over.
pub open spec fn past_sign(s: Seq<char>, i: int) -> int {
    if sees(s, i, '+') || sees(s, i, '-') {
        i + 1
    } else {
        i
    }
}

/// The exponent written from `i` to the end of the text; none is zero. One of more than ten
/// thousand places, whose number no machine number comes near, is not read.
pub open spec fn exponent_at(s: Seq<char>, i: int) -> Option<int> {
    if i == s.len() {
        Some(0)
    } else if sees(s, i, 'e') || sees(s, i, 'E') {
        let a = past_sign(s, i + 1);
        let b = digits_end(s, a);
        if b == a || b != s.len() || digits_value(s.subrange(a, b)) > 10000 {
            None
        } else if sees(s, i + 1, '-') {
            Some(-(digits_value(s.subrange(a, b)) as int))
        } else {
            Some(digits_value(s.subrange(a, b)) as int)
        }
    } else {
        None
    }
}

pub proof fn exponent_small(s: Seq<char>, i: int)
    ensures
        match exponent_at(s, i) {
            Some(x) => -10000 <= x <= 10000,
            None => true,
        },
{
}

/// The value of a decimal number: digits, a fraction and an exponent.
pub open spec fn number_value(s: Seq<char>) -> Option<real> {
    let i = past_sign(s, 0);
    let a = digits_end(s, i);
    let from = if sees(s, a, '.') {
        a + 1
    } else {
        a
    };
    let b = if sees(s, a, '.') {
        digits_end(s, a + 1)
    } else {
        a
    };
    let digits = s.subrange(i, a) + s.subrange(from, b);
    match exponent_at(s, b) {
        Some(x) => if digits.len() == 0 {
            None
        } else {
            let v = (digits_value(digits) as real) * whole_pow(10real, x - (b - from));
            if sees(s, 0, '-') {
                Some(-v)
            } else {
                Some(v)
            }
        },
        None => None,
    }
}

pub fn end_of_digits(s: &Vec<char>, i: usize) -> (r: usize)
    requires
        i <= s@.len(),
    ensures
        r == digits_end(s@, i as int),
        i <= r <= s@.len(),
        forall|k: int| i <= k < r ==> digit(#[trigger] s@[k]),
{
    let mut j: usize = i;
    while j < s.len() && is_digit(s[j])
        invariant
            i <= j <= s@.len(),
            digits_end(s@, i as int) == digits_end(s@, j as int),
            forall|k: int| i <= k < j ==> digit(#[trigger] s@[k]),
        decreases s@.len() - j,
    {
        j += 1;
    }
    j
}

#[verifier::loop_isolation(false)]
fn value_of_digits(s: &Vec<char>) -> (r: BigNat)
    requires
        forall|k: int| 0 <= k < s@.len() ==> digit(#[trigger] s@[k]),
    ensures
        r@ == digits_value(s@),
{
    let ten = BigNat::from_u128(10);
    let mut v = BigNat::zero();
    let mut i: usize = 0;
    assert(s@.take(0) =~= Seq::empty());
    while i < s.len()
        invariant
            i <= s@.len(),
            v@ == digits_value(s@.take(i as int)),
        decreases s@.len() - i,
    {
        assert(s@.take(i + 1).drop_last() =~= s@.take(i as int));
        assert(digit(s@[i as int]));
        let d: u128 = (s[i] as u32 - '0' as u32) as u128;
        v = v.times(&ten).plus(&BigNat::from_u128(d));
        i += 1;
    }
    assert(s@.take(i as int) =~= s@);
    v
}

pub fn is_at(s: &Vec<char>, i: usize, c: char) -> (r: bool)
    ensures
        r == sees(s@, i as int, c),
        r ==> i < usize::MAX,
{
    i < s.len() && s[i] == c
}

pub fn exponent_of(s: &Vec<char>, i: usize) -> (r: Option<BigInt>)
    requires
        i <= s@.len(),
    ensures
        (match r {
            Some(x) => Some(x@),
            None => None,
        }) == exponent_at(s@, i as int),
{
    if i == s.len() {
        return Some(BigInt::from_i128(0));
    }
    if !is_at(s, i, 'e') && !is_at(s, i, 'E') {
        return None;
    }
    let minus = is_at(s, i + 1, '-');
    let a: usize = if minus || is_at(s, i + 1, '+') {
        i + 2
    } else {
        i + 1
    };
    let b = end_of_digits(s, a);
    if b == a || b != s.len() {
        return None;
    }
    let digits = slice_of(s, a, b);
    assert forall|k: int| 0 <= k < digits@.len() implies digit(#[trigger] digits@[k]) by {
        assert(digits@[k] == s@[a + k]);
    }
    let v = value_of_digits(&digits);
    if v.side(&BigNat::from_u128(10000)) == crate::num::Side::After {
        return None;
    }
    let x = BigInt::from_nat(v);
    if minus {
        Some(x.negated())
    } else {
        Some(x)
    }
}

/// The value of a decimal number.
pub fn number(s: &Vec<char>) -> (r: Option<Rat>)
    ensures
        crate::cost::forms::opt_real(r) == number_value(s@),
{
    let minus = is_at(s, 0, '-');
    let i: usize = if minus || is_at(s, 0, '+') {
        1
    } else {
        0
    };
    let a = end_of_digits(s, i);
    let dot = is_at(s, a, '.');
    let from: usize = if dot {
        a + 1
    } else {
        a
    };
    let b = if dot {
        end_of_digits(s, from)
    } else {
        a
    };
    let x = match exponent_of(s, b) {
        Some(x) => x,
        None => {
            return None;
        },
    };
    let mut digits = slice_of(s, i, a);
    let mut frac = slice_of(s, from, b);
    let places: usize = frac.len();
    let ghost d1 = digits@;
    let ghost d2 = frac@;
    digits.append(&mut frac);
    assert(digits@ =~= s@.subrange(i as int, a as int) + s@.subrange(from as int, b as int));
    if digits.len() == 0 {
        return None;
    }
    assert forall|k: int| 0 <= k < digits@.len() implies digit(#[trigger] digits@[k]) by {
        if k < d1.len() {
            assert(digits@[k] == s@[i + k]);
        } else {
            assert(digits@[k] == s@[from + (k - d1.len())]);
        }
    }
    let n = value_of_digits(&digits);
    let one = BigNat::from_u128(1);
    let whole = Rat::quotient(&BigInt::from_nat(n), &one);
    proof {
        crate::cost::rat::ratio_one(n@ as int);
    }
    let shift = x.minus(&BigInt::from_i128(places as i128));
    let v = whole.mul(&rat_whole_pow(&Rat::integer(10), &shift));
    if minus {
        Some(v.neg())
    } else {
        Some(v)
    }
}

// ---- whole numbers ----

/// The value of a whole number in decimal: a sign or none, then digits.
pub open spec fn signed_value(s: Seq<char>) -> Option<int> {
    let i = past_sign(s, 0);
    if i >= s.len() || digits_end(s, i) != s.len() {
        None
    } else if sees(s, 0, '-') {
        Some(-(digits_value(s.skip(i)) as int))
    } else {
        Some(digits_value(s.skip(i)) as int)
    }
}

/// The value of an `i64` in decimal.
pub open spec fn int_value(s: Seq<char>) -> Option<int> {
    match signed_value(s) {
        Some(v) => if i64::MIN <= v <= i64::MAX {
            Some(v)
        } else {
            None
        },
        None => None,
    }
}

/// A whole number in decimal.
pub fn signed_number(s: &Vec<char>) -> (r: Option<BigInt>)
    ensures
        (match r {
            Some(v) => Some(v@),
            None => None,
        }) == signed_value(s@),
{
    let minus = is_at(s, 0, '-');
    let i: usize = if minus || is_at(s, 0, '+') {
        1
    } else {
        0
    };
    if i >= s.len() || end_of_digits(s, i) != s.len() {
        return None;
    }
    let digits = slice_of(s, i, s.len());
    assert(digits@ =~= s@.skip(i as int));
    assert forall|k: int| 0 <= k < digits@.len() implies digit(#[trigger] digits@[k]) by {
        assert(digits@[k] == s@[i + k]);
    }
    let v = BigInt::from_nat(value_of_digits(&digits));
    if minus {
        Some(v.negated())
    } else {
        Some(v)
    }
}

pub fn whole_number(s: &Vec<char>) -> (r: Option<i64>)
    ensures
        match r {
            Some(v) => int_value(s@) == Some(v as int),
            None => int_value(s@) is None,
        },
{
    match signed_number(s) {
        Some(n) => match n.to_i128() {
            Some(v) => {
                if v >= -0x8000_0000_0000_0000 && v <= 0x7fff_ffff_ffff_ffff {
                    Some(v as i64)
                } else {
                    None
                }
            },
            None => None,
        },
        None => None,
    }
}

/// The value of a `u64` in decimal.
pub open spec fn count_value(s: Seq<char>) -> Option<nat> {
    let i: int = if sees(s, 0, '+') {
        1
    } else {
        0
    };
    if i >= s.len() || digits_end(s, i) != s.len() || digits_value(s.skip(i)) > u64::MAX {
        None
    } else {
        Some(digits_value(s.skip(i)))
    }
}

pub fn plain_number(s: &Vec<char>) -> (r: Option<u64>)
    ensures
        (match r {
            Some(v) => Some(v as nat),
            None => None,
        }) == count_value(s@),
{
    let i: usize = if is_at(s, 0, '+') {
        1
    } else {
        0
    };
    if i >= s.len() || end_of_digits(s, i) != s.len() {
        return None;
    }
    let digits = slice_of(s, i, s.len());
    assert(digits@ =~= s@.skip(i as int));
    assert forall|k: int| 0 <= k < digits@.len() implies digit(#[trigger] digits@[k]) by {
        assert(digits@[k] == s@[i + k]);
    }
    value_of_digits(&digits).to_u64()
}

} // verus!
