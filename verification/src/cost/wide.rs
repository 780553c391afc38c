//! Costs at sizes that may be beyond all numbers: a size is a number, infinite, or not a number, and
//! so is what is computed from it, by the rules of floating-point arithmetic.

use vstd::prelude::*;
use crate::cost::declare::{round, rounded};
use crate::cost::logs::{log_value, natural_log};
use crate::cost::machine::Machine;
use crate::cost::model::{AtomV, MonoV};
use crate::cost::piece::{conds_v, Cond, CondV, Cost, PieceV};
use crate::cost::rat::{num, whole, Rat};
use crate::cost::root::{fine_power, rat_fine_pow, rat_whole_pow, whole_pow};
use crate::cost::scan::sees;
use crate::cost::size::{atom_view_is, Atom, Mono, Poly};
use crate::num::{BigNat, Side};
use crate::text::{chars_of, int_text, show_int};
use crate::words::{is_at, number, number_value, past_sign};

verus! {

/// A number, an infinity — negative or not — or none of these.
#[derive(Debug)]
pub enum Number {
    Finite(Rat),
    Infinite(bool),
    Undefined,
}

pub enum NumV {
    Finite(real),
    Infinite(bool),
    Undefined,
}

impl View for Number {
    type V = NumV;

    open spec fn view(&self) -> NumV {
        match self {
            Number::Finite(x) => NumV::Finite(x@),
            Number::Infinite(n) => NumV::Infinite(*n),
            Number::Undefined => NumV::Undefined,
        }
    }
}

pub open spec fn opt_number(x: Option<Number>) -> Option<NumV> {
    match x {
        Some(n) => Some(n@),
        None => None,
    }
}

// ---- arithmetic ----

pub open spec fn n_times(a: NumV, b: NumV) -> NumV {
    match (a, b) {
        (NumV::Finite(x), NumV::Finite(y)) => NumV::Finite(x * y),
        (NumV::Infinite(m), NumV::Infinite(n)) => NumV::Infinite(m != n),
        (NumV::Finite(x), NumV::Infinite(n)) => if x == 0real {
            NumV::Undefined
        } else {
            NumV::Infinite(n != (x < 0real))
        },
        (NumV::Infinite(n), NumV::Finite(y)) => if y == 0real {
            NumV::Undefined
        } else {
            NumV::Infinite(n != (y < 0real))
        },
        _ => NumV::Undefined,
    }
}

pub open spec fn n_plus(a: NumV, b: NumV) -> NumV {
    match (a, b) {
        (NumV::Finite(x), NumV::Finite(y)) => NumV::Finite(x + y),
        (NumV::Infinite(m), NumV::Infinite(n)) => if m == n {
            a
        } else {
            NumV::Undefined
        },
        (NumV::Finite(_), NumV::Infinite(_)) => b,
        (NumV::Infinite(_), NumV::Finite(_)) => a,
        _ => NumV::Undefined,
    }
}

pub open spec fn odd(e: real) -> bool {
    whole(e) && num(e) % 2 != 0
}

/// A number to a power: a negative one has no fractional powers, and nought has no negative ones but
/// infinity.
pub open spec fn n_power(a: NumV, e: real) -> NumV {
    if e == 0real {
        NumV::Finite(1real)
    } else {
        match a {
            NumV::Finite(x) => if x > 0real {
                NumV::Finite(fine_power(x, e))
            } else if x == 0real {
                if e > 0real {
                    NumV::Finite(0real)
                } else {
                    NumV::Infinite(false)
                }
            } else if whole(e) {
                NumV::Finite(whole_pow(x, num(e)))
            } else {
                NumV::Undefined
            },
            NumV::Infinite(n) => if e > 0real {
                NumV::Infinite(n && odd(e))
            } else {
                NumV::Finite(0real)
            },
            NumV::Undefined => NumV::Undefined,
        }
    }
}

/// The logarithm; what is not above one counts as one.
pub open spec fn n_log(a: NumV) -> NumV {
    match a {
        NumV::Finite(x) => NumV::Finite(log_value(x)),
        NumV::Infinite(false) => a,
        _ => NumV::Finite(0real),
    }
}

/// `a < m`.
pub open spec fn n_below(a: NumV, m: real) -> bool {
    match a {
        NumV::Finite(x) => x < m,
        NumV::Infinite(n) => n,
        NumV::Undefined => false,
    }
}

/// `a >= m`.
pub open spec fn n_reaches(a: NumV, m: real) -> bool {
    match a {
        NumV::Finite(x) => x >= m,
        NumV::Infinite(n) => !n,
        NumV::Undefined => false,
    }
}

/// `a > b`.
pub open spec fn n_over(a: NumV, b: NumV) -> bool {
    match (a, b) {
        (NumV::Finite(x), NumV::Finite(y)) => x > y,
        (NumV::Infinite(m), NumV::Infinite(n)) => !m && n,
        (NumV::Infinite(m), NumV::Finite(_)) => !m,
        (NumV::Finite(_), NumV::Infinite(n)) => n,
        _ => false,
    }
}

/// The larger of two; what is not a number does not count.
pub open spec fn n_max(a: NumV, b: NumV) -> NumV {
    if a is Undefined || n_over(b, a) {
        b
    } else {
        a
    }
}

/// The number to the nearest integer, as it reads.
pub open spec fn number_text(a: NumV) -> Seq<char> {
    match a {
        NumV::Finite(x) => int_text(rounded(x)),
        NumV::Infinite(false) => "inf"@,
        NumV::Infinite(true) => "-inf"@,
        NumV::Undefined => "NaN"@,
    }
}

impl Number {
    pub fn integer(n: i128) -> (r: Number)
        ensures
            r@ == NumV::Finite(n as real),
    {
        Number::Finite(Rat::integer(n))
    }

    pub fn copy(&self) -> (r: Number)
        ensures
            r@ == self@,
    {
        match self {
            Number::Finite(x) => Number::Finite(x.copy()),
            Number::Infinite(n) => Number::Infinite(*n),
            Number::Undefined => Number::Undefined,
        }
    }

    pub fn times(&self, o: &Number) -> (r: Number)
        ensures
            r@ == n_times(self@, o@),
    {
        match (self, o) {
            (Number::Finite(x), Number::Finite(y)) => Number::Finite(x.mul(y)),
            (Number::Infinite(m), Number::Infinite(n)) => Number::Infinite(*m != *n),
            (Number::Finite(x), Number::Infinite(n)) => {
                if x.is_zero() {
                    Number::Undefined
                } else {
                    Number::Infinite(*n != x.is_negative())
                }
            },
            (Number::Infinite(n), Number::Finite(y)) => {
                if y.is_zero() {
                    Number::Undefined
                } else {
                    Number::Infinite(*n != y.is_negative())
                }
            },
            _ => Number::Undefined,
        }
    }

    pub fn plus(&self, o: &Number) -> (r: Number)
        ensures
            r@ == n_plus(self@, o@),
    {
        match (self, o) {
            (Number::Finite(x), Number::Finite(y)) => Number::Finite(x.add(y)),
            (Number::Infinite(m), Number::Infinite(n)) => {
                if *m == *n {
                    Number::Infinite(*m)
                } else {
                    Number::Undefined
                }
            },
            (Number::Finite(_), Number::Infinite(n)) => Number::Infinite(*n),
            (Number::Infinite(n), Number::Finite(_)) => Number::Infinite(*n),
            _ => Number::Undefined,
        }
    }

    pub fn raised(&self, e: &Rat) -> (r: Number)
        ensures
            r@ == n_power(self@, e@),
    {
        if e.is_zero() {
            return Number::Finite(Rat::one());
        }
        match self {
            Number::Finite(x) => {
                if x.is_positive() {
                    Number::Finite(rat_fine_pow(x, e))
                } else if x.is_zero() {
                    if e.is_positive() {
                        Number::Finite(Rat::zero())
                    } else {
                        Number::Infinite(false)
                    }
                } else if e.is_int() {
                    Number::Finite(rat_whole_pow(x, &e.numer()))
                } else {
                    Number::Undefined
                }
            },
            Number::Infinite(n) => {
                if e.is_positive() {
                    Number::Infinite(*n && is_odd(e))
                } else {
                    Number::Finite(Rat::zero())
                }
            },
            Number::Undefined => Number::Undefined,
        }
    }

    pub fn log(&self) -> (r: Number)
        ensures
            r@ == n_log(self@),
    {
        match self {
            Number::Finite(x) => Number::Finite(natural_log(x)),
            Number::Infinite(n) => {
                if *n {
                    Number::Finite(Rat::zero())
                } else {
                    Number::Infinite(false)
                }
            },
            Number::Undefined => Number::Finite(Rat::zero()),
        }
    }

    pub fn below(&self, m: &Rat) -> (r: bool)
        ensures
            r == n_below(self@, m@),
    {
        match self {
            Number::Finite(x) => x.side(m) == Side::Before,
            Number::Infinite(n) => *n,
            Number::Undefined => false,
        }
    }

    pub fn reaches(&self, m: &Rat) -> (r: bool)
        ensures
            r == n_reaches(self@, m@),
    {
        match self {
            Number::Finite(x) => x.side(m) != Side::Before,
            Number::Infinite(n) => !*n,
            Number::Undefined => false,
        }
    }

    pub fn over(&self, o: &Number) -> (r: bool)
        ensures
            r == n_over(self@, o@),
    {
        match (self, o) {
            (Number::Finite(x), Number::Finite(y)) => x.side(y) == Side::After,
            (Number::Infinite(m), Number::Infinite(n)) => !*m && *n,
            (Number::Infinite(m), Number::Finite(_)) => !*m,
            (Number::Finite(_), Number::Infinite(n)) => *n,
            _ => false,
        }
    }

    pub fn larger(self, o: Number) -> (r: Number)
        ensures
            r@ == n_max(self@, o@),
    {
        if matches!(self, Number::Undefined) || o.over(&self) {
            o
        } else {
            self
        }
    }

    /// The number to the nearest integer, as it reads.
    pub fn show(&self) -> (r: String)
        ensures
            r@ == number_text(self@),
    {
        match self {
            Number::Finite(x) => show_int(&round(x)),
            Number::Infinite(n) => {
                if *n {
                    "-inf".to_owned()
                } else {
                    "inf".to_owned()
                }
            },
            Number::Undefined => "NaN".to_owned(),
        }
    }
}

fn is_odd(e: &Rat) -> (r: bool)
    ensures
        r == odd(e@),
{
    if !e.is_int() {
        return false;
    }
    let n = e.numer();
    let (_q, rest) = n.magnitude().div_rem(&BigNat::from_u128(2));
    !rest.is_zero()
}

// ---- reading ----

pub open spec fn lowered(c: char) -> char {
    if 'A' <= c && c <= 'Z' {
        ((c as u32 + 32) as u8) as char
    } else {
        c
    }
}

/// The text from `i` on is the word, in capitals or not.
pub open spec fn says(s: Seq<char>, i: int, word: Seq<char>) -> bool {
    &&& s.len() - i == word.len()
    &&& forall|j: int| 0 <= j < word.len() ==> lowered(#[trigger] s[i + j]) == word[j]
}

/// A decimal number, `inf` or `infinity` with a sign or none, or `nan`.
pub open spec fn wide_value(s: Seq<char>) -> Option<NumV> {
    let i = past_sign(s, 0);
    match number_value(s) {
        Some(x) => Some(NumV::Finite(x)),
        None => if says(s, i, "inf"@) || says(s, i, "infinity"@) {
            Some(NumV::Infinite(sees(s, 0, '-')))
        } else if says(s, i, "nan"@) {
            Some(NumV::Undefined)
        } else {
            None
        },
    }
}

fn lower(c: char) -> (r: char)
    ensures
        r == lowered(c),
{
    if 'A' <= c && c <= 'Z' {
        ((c as u32 + 32) as u8) as char
    } else {
        c
    }
}

fn is_word(s: &Vec<char>, i: usize, word: &str) -> (r: bool)
    requires
        i <= s@.len(),
    ensures
        r == says(s@, i as int, word@),
{
    let w = chars_of(word);
    if s.len() - i != w.len() {
        return false;
    }
    let mut j: usize = 0;
    while j < w.len()
        invariant
            j <= w@.len(),
            w@ == word@,
            i <= s@.len(),
            s@.len() - i == w@.len(),
            forall|l: int| 0 <= l < j ==> lowered(#[trigger] s@[i + l]) == w@[l],
        decreases w@.len() - j,
    {
        assert(i + j < s.len());
        if lower(s[i + j]) != w[j] {
            assert(lowered(s@[i + j]) != w@[j as int]);
            return false;
        }
        j += 1;
    }
    true
}

pub fn read_number(s: &Vec<char>) -> (r: Option<Number>)
    ensures
        opt_number(r) == wide_value(s@),
{
    if let Some(x) = number(s) {
        return Some(Number::Finite(x));
    }
    let minus = is_at(s, 0, '-');
    let i: usize = if minus || is_at(s, 0, '+') {
        1
    } else {
        0
    };
    if is_word(s, i, "inf") || is_word(s, i, "infinity") {
        Some(Number::Infinite(minus))
    } else if is_word(s, i, "nan") {
        Some(Number::Undefined)
    } else {
        None
    }
}

// ---- values ----

/// The sizes that have a value.
pub type SpotV = Seq<(usize, NumV)>;

/// The first value given for a size, from the `i`-th on.
pub open spec fn size_in(x: SpotV, v: int, i: nat) -> Option<NumV>
    decreases x.len() - i,
{
    if i >= x.len() {
        None
    } else if x[i as int].0 == v {
        Some(x[i as int].1)
    } else {
        size_in(x, v, i + 1)
    }
}

/// The value of an atom. That of an unknown callee's cost has none.
pub open spec fn w_atom(a: AtomV, k: Machine, x: SpotV) -> Option<NumV>
    decreases a,
{
    match a {
        AtomV::B => Some(NumV::Finite(k.b_bytes as real)),
        AtomV::M => Some(NumV::Finite(k.m_bytes as real)),
        AtomV::P => Some(NumV::Finite(k.p_cores as real)),
        AtomV::Var(v) => size_in(x, v, 0),
        AtomV::Log(p) => match w_sum(p.terms, k, x) {
            Some(y) => Some(n_log(y)),
            None => None,
        },
        _ => None,
    }
}

/// The value of a coefficient times a product.
pub open spec fn w_product(c: real, f: Seq<(AtomV, real)>, k: Machine, x: SpotV) -> Option<NumV>
    decreases f,
{
    if f.len() == 0 {
        Some(NumV::Finite(c))
    } else {
        match (w_product(c, f.drop_last(), k, x), w_atom(f.last().0, k, x)) {
            (Some(a), Some(b)) => Some(n_times(a, n_power(b, f.last().1))),
            _ => None,
        }
    }
}

/// The value of a sum, if every atom has one.
pub open spec fn w_sum(t: Seq<(MonoV, real)>, k: Machine, x: SpotV) -> Option<NumV>
    decreases t,
{
    if t.len() == 0 {
        Some(NumV::Finite(0real))
    } else {
        match (w_sum(t.drop_last(), k, x), w_product(t.last().1, t.last().0.factors, k, x)) {
            (Some(a), Some(b)) => Some(n_plus(a, b)),
            _ => None,
        }
    }
}

/// Whether a condition holds; one without a value does not.
pub open spec fn w_holds(c: CondV, k: Machine, x: SpotV) -> bool {
    match w_sum(c.ws.terms, k, x) {
        Some(v) => n_below(n_times(v, NumV::Finite(k.b_bytes as real)), k.m_bytes as real) == c.fits,
        None => false,
    }
}

pub open spec fn w_all_hold(s: Seq<CondV>, k: Machine, x: SpotV) -> bool {
    forall|i: int| 0 <= i < s.len() ==> w_holds(#[trigger] s[i], k, x)
}

pub open spec fn best_with(a: Option<NumV>, v: NumV) -> NumV {
    match a {
        Some(b) => n_max(b, v),
        None => v,
    }
}

/// The greatest value of a piece whose conditions hold, among the first `n`; `None` outside where
/// such a piece has no value, `None` inside where there is no such piece.
pub open spec fn w_pieces(s: Seq<PieceV>, k: Machine, x: SpotV, n: nat) -> Option<Option<NumV>>
    decreases n,
{
    if n == 0 {
        Some(None)
    } else {
        match w_pieces(s, k, x, (n - 1) as nat) {
            None => None,
            Some(best) => if w_all_hold(s[n - 1].conds, k, x) {
                match w_sum(s[n - 1].poly.terms, k, x) {
                    Some(v) => Some(Some(best_with(best, v))),
                    None => None,
                }
            } else {
                Some(best)
            },
        }
    }
}

/// The value of a cost: the conditions are decided with the machine's `B` and `M`, and the
/// applicable pieces' maximum is taken.
pub open spec fn cost_value(s: Seq<PieceV>, k: Machine, x: SpotV) -> Option<NumV> {
    match w_pieces(s, k, x, s.len()) {
        Some(v) => v,
        None => None,
    }
}

pub open spec fn numbers_v(s: Seq<(usize, Number)>) -> SpotV {
    Seq::new(s.len(), |i: int| (s[i].0, s[i].1@))
}

fn size_of(x: &Vec<(usize, Number)>, v: usize) -> (r: Option<Number>)
    ensures
        opt_number(r) == size_in(numbers_v(x@), v as int, 0),
{
    let mut i: usize = 0;
    while i < x.len()
        invariant
            i <= x@.len(),
            size_in(numbers_v(x@), v as int, 0) == size_in(numbers_v(x@), v as int, i as nat),
        decreases x@.len() - i,
    {
        assert(numbers_v(x@)[i as int] == (x@[i as int].0, x@[i as int].1@));
        if x[i].0 == v {
            return Some(x[i].1.copy());
        }
        i += 1;
    }
    None
}

fn atom_value(x: &Vec<(usize, Number)>, a: &Atom, k: &Machine) -> (r: Option<Number>)
    ensures
        opt_number(r) == w_atom(a@, *k, numbers_v(x@)),
    decreases a@,
{
    proof {
        atom_view_is(*a);
    }
    match a {
        Atom::B => Some(Number::integer(k.b_bytes)),
        Atom::M => Some(Number::integer(k.m_bytes)),
        Atom::P => Some(Number::integer(k.p_cores)),
        Atom::Var(v) => size_of(x, *v),
        Atom::Log(p) => match value(x, p, k) {
            Some(y) => Some(y.log()),
            None => None,
        },
        _ => None,
    }
}

#[verifier::loop_isolation(false)]
fn product_value(x: &Vec<(usize, Number)>, c: &Rat, m: &Mono, k: &Machine) -> (r: Option<Number>)
    ensures
        opt_number(r) == w_product(c@, m@.factors, *k, numbers_v(x@)),
    decreases m@,
{
    let ghost f = m@.factors;
    let mut v = Number::Finite(c.copy());
    let mut i: usize = 0;
    assert(f.take(0) =~= Seq::empty());
    while i < m.len()
        invariant
            i <= f.len(),
            w_product(c@, f.take(i as int), *k, numbers_v(x@)) == Some(v@),
        decreases f.len() - i,
    {
        assert(f.take(i + 1).drop_last() =~= f.take(i as int));
        assert(f.take(i + 1).last() == f[i as int]);
        match atom_value(x, m.atom_at(i), k) {
            Some(b) => {
                v = v.times(&b.raised(m.exponent_at(i)));
            },
            None => {
                proof {
                    product_ends(c@, f, *k, numbers_v(x@), i + 1);
                }
                return None;
            },
        }
        i += 1;
    }
    assert(f.take(i as int) =~= f);
    Some(v)
}

/// The value of a polynomial at the sizes.
#[verifier::loop_isolation(false)]
pub fn value(x: &Vec<(usize, Number)>, p: &Poly, k: &Machine) -> (r: Option<Number>)
    ensures
        opt_number(r) == w_sum(p@.terms, *k, numbers_v(x@)),
    decreases p@,
{
    let ghost t = p@.terms;
    let mut v = Number::Finite(Rat::zero());
    let mut i: usize = 0;
    assert(t.take(0) =~= Seq::empty());
    while i < p.len()
        invariant
            i <= t.len(),
            w_sum(t.take(i as int), *k, numbers_v(x@)) == Some(v@),
        decreases t.len() - i,
    {
        assert(t.take(i + 1).drop_last() =~= t.take(i as int));
        assert(t.take(i + 1).last() == t[i as int]);
        match product_value(x, p.coeff_at(i), p.mono_at(i), k) {
            Some(b) => {
                v = v.plus(&b);
            },
            None => {
                proof {
                    sum_ends(t, *k, numbers_v(x@), i + 1);
                }
                return None;
            },
        }
        i += 1;
    }
    assert(t.take(i as int) =~= t);
    Some(v)
}

fn holds(x: &Vec<(usize, Number)>, c: &Cond, k: &Machine) -> (r: bool)
    ensures
        r == w_holds(c@, *k, numbers_v(x@)),
{
    match value(x, &c.ws, k) {
        Some(v) => v.times(&Number::integer(k.b_bytes)).below(&Rat::integer(k.m_bytes)) == c.fits,
        None => false,
    }
}

fn all_hold(x: &Vec<(usize, Number)>, s: &Vec<Cond>, k: &Machine) -> (r: bool)
    ensures
        r == w_all_hold(conds_v(s@), *k, numbers_v(x@)),
{
    let ghost v = conds_v(s@);
    let mut i: usize = 0;
    while i < s.len()
        invariant
            i <= s@.len(),
            v == conds_v(s@),
            forall|j: int| 0 <= j < i ==> w_holds(#[trigger] v[j], *k, numbers_v(x@)),
        decreases s@.len() - i,
    {
        assert(v[i as int] == s@[i as int]@);
        if !holds(x, &s[i], k) {
            return false;
        }
        i += 1;
    }
    true
}

proof fn product_ends(c: real, f: Seq<(AtomV, real)>, k: Machine, x: SpotV, n: int)
    requires
        0 <= n <= f.len(),
        w_product(c, f.take(n), k, x) is None,
    ensures
        w_product(c, f, k, x) is None,
    decreases f.len() - n,
{
    if n == f.len() {
        assert(f.take(n) =~= f);
    } else {
        assert(f.take(n + 1).drop_last() =~= f.take(n));
        product_ends(c, f, k, x, n + 1);
    }
}

proof fn sum_ends(t: Seq<(MonoV, real)>, k: Machine, x: SpotV, n: int)
    requires
        0 <= n <= t.len(),
        w_sum(t.take(n), k, x) is None,
    ensures
        w_sum(t, k, x) is None,
    decreases t.len() - n,
{
    if n == t.len() {
        assert(t.take(n) =~= t);
    } else {
        assert(t.take(n + 1).drop_last() =~= t.take(n));
        sum_ends(t, k, x, n + 1);
    }
}

proof fn pieces_end(s: Seq<PieceV>, k: Machine, x: SpotV, n: nat, m: nat)
    requires
        n <= m,
        w_pieces(s, k, x, n) is None,
    ensures
        w_pieces(s, k, x, m) is None,
    decreases m - n,
{
    if n < m {
        assert(w_pieces(s, k, x, n + 1) is None);
        pieces_end(s, k, x, n + 1, m);
    }
}

impl Cost {
    /// The value at the sizes: the conditions are decided with the machine's `B` and `M`, and the
    /// applicable pieces' maximum is taken.
    #[verifier::loop_isolation(false)]
    pub fn eval(&self, x: &Vec<(usize, Number)>, k: &Machine) -> (r: Option<Number>)
        ensures
            opt_number(r) == cost_value(self@, *k, numbers_v(x@)),
    {
        let ghost s = self@;
        let mut best: Option<Number> = None;
        let mut n: usize = 0;
        while n < self.pieces.len()
            invariant
                n <= self.pieces@.len(),
                w_pieces(s, *k, numbers_v(x@), n as nat) == Some(opt_number(best)),
            decreases self.pieces@.len() - n,
        {
            let p = &self.pieces[n];
            assert(s[n as int] == p@);
            if all_hold(x, &p.conds, k) {
                match value(x, &p.poly, k) {
                    Some(v) => {
                        best = match best {
                            Some(b) => Some(b.larger(v)),
                            None => Some(v),
                        };
                    },
                    None => {
                        proof {
                            assert(w_pieces(s, *k, numbers_v(x@), (n + 1) as nat) is None);
                            pieces_end(s, *k, numbers_v(x@), (n + 1) as nat, s.len());
                        }
                        return None;
                    },
                }
            }
            n += 1;
        }
        best
    }
}

} // verus!
