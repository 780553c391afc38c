//! How costs read: `8·n³/√M − M`.

use vstd::prelude::*;
use crate::cost::algebra::p_mul;
use crate::cost::assoc::bump;
use crate::cost::model::{mono_side, AtomV, MonoV, OpaqueV, PolyV};
use crate::cost::piece::{Cond, CondV, Cost, PieceV};
use crate::cost::rat::{den, num, ratio, ratio_one, ratio_side, whole, Rat};
use crate::cost::root::{int_pow, nat_pow};
use crate::cost::size::{arg_v, atom_view_is, degree, opaque_view_is, Atom, Mono, Opaque, Poly};
use crate::num::{BigInt, BigNat, Side};
use crate::text::{cat2, cat3, cat4, cat5, copy_text, decimal, int_text, numeral, show_int, show_nat, show_u64, texts};

verus! {

/// Texts with `sep` between them.
pub open spec fn join(s: Seq<Seq<char>>, sep: Seq<char>) -> Seq<char>
    decreases s.len(),
{
    if s.len() == 0 {
        Seq::empty()
    } else if s.len() == 1 {
        s[0]
    } else {
        join(s.drop_last(), sep) + sep + s.last()
    }
}

pub fn join_texts(v: &Vec<String>, sep: &str) -> (r: String)
    ensures
        r@ == join(texts(v@), sep@),
{
    if v.len() == 0 {
        return String::new();
    }
    let ghost t = texts(v@);
    let mut out = copy_text(&v[0]);
    let mut i: usize = 1;
    proof {
        assert(t.take(1).len() == 1);
        assert(join(t.take(1), sep@) == t[0]);
    }
    while i < v.len()
        invariant
            t == texts(v@),
            1 <= i <= v@.len(),
            out@ == join(t.take(i as int), sep@),
        decreases v@.len() - i,
    {
        proof {
            assert(t.take(i + 1).drop_last() =~= t.take(i as int));
            assert(t.take(i + 1).last() == v@[i as int]@);
        }
        out = cat3(&out, sep, &v[i]);
        i += 1;
    }
    proof {
        assert(t.take(i as int) =~= t);
    }
    out
}

// ---- numbers ----

/// A raised numeral.
pub open spec fn raised_numeral(c: char) -> char {
    if c == '0' {
        '⁰'
    } else if c == '1' {
        '¹'
    } else if c == '2' {
        '²'
    } else if c == '3' {
        '³'
    } else if c == '4' {
        '⁴'
    } else if c == '5' {
        '⁵'
    } else if c == '6' {
        '⁶'
    } else if c == '7' {
        '⁷'
    } else if c == '8' {
        '⁸'
    } else {
        '⁹'
    }
}

/// An exponent as raised numerals.
pub open spec fn superscript_text(n: int) -> Seq<char> {
    let digits = decimal((if n < 0 { -n } else { n }) as nat);
    let raised = Seq::new(digits.len(), |i: int| raised_numeral(digits[i]));
    if n < 0 {
        seq!['⁻'] + raised
    } else {
        raised
    }
}

fn raise_char(c: char) -> (r: char)
    ensures
        r == raised_numeral(c),
{
    if c == '0' {
        '⁰'
    } else if c == '1' {
        '¹'
    } else if c == '2' {
        '²'
    } else if c == '3' {
        '³'
    } else if c == '4' {
        '⁴'
    } else if c == '5' {
        '⁵'
    } else if c == '6' {
        '⁶'
    } else if c == '7' {
        '⁷'
    } else if c == '8' {
        '⁸'
    } else {
        '⁹'
    }
}

/// An exponent as raised numerals.
pub fn superscript(n: &BigInt) -> (r: String)
    ensures
        r@ == superscript_text(n@),
{
    let digits = crate::text::chars_of(&show_nat(&n.magnitude()));
    let ghost raised = Seq::new(digits@.len(), |i: int| raised_numeral(digits@[i]));
    let mut s = String::new();
    let ghost sign: Seq<char> = if n@ < 0 {
        seq!['⁻']
    } else {
        Seq::empty()
    };
    if n.is_negative() {
        s.push('⁻');
    }
    let mut i: usize = 0;
    proof {
        assert(s@ =~= sign + raised.take(0));
    }
    while i < digits.len()
        invariant
            i <= digits@.len(),
            raised == Seq::new(digits@.len(), |i: int| raised_numeral(digits@[i])),
            s@ =~= sign + raised.take(i as int),
        decreases digits@.len() - i,
    {
        s.push(raise_char(digits[i]));
        i += 1;
    }
    proof {
        assert(raised.take(i as int) =~= raised);
        assert(Seq::<char>::empty() + raised =~= raised);
    }
    s
}

/// The integer nearest to `x`; a tie goes up.
pub open spec fn nearest_int(k: int, x: real) -> bool {
    ratio(2 * k - 1, 2) <= x < ratio(2 * k + 1, 2)
}

/// Ten to an integer power.
pub open spec fn ten_to(x: int) -> real {
    if x >= 0 {
        ratio(int_pow(10, x as nat), 1)
    } else {
        ratio(1, int_pow(10, (-x) as nat))
    }
}

/// `v` is the number nearest to `c` with four decimals, in ten-thousandths.
pub open spec fn four_decimals(c: real) -> int {
    let x = c * 10000real;
    choose|k: int| nearest_int(k, x)
}

/// A remainder below ten thousand in four digits.
pub open spec fn four_digits(k: int) -> Seq<char> {
    seq![
        numeral((k / 1000) as nat),
        numeral((k / 100 % 10) as nat),
        numeral((k / 10 % 10) as nat),
        numeral((k % 10) as nat),
    ]
}

/// A number that is not negative, with four decimals.
pub open spec fn fixed_text(c: real) -> Seq<char> {
    let k = four_decimals(c);
    decimal((k / 10000) as nat) + "."@ + four_digits(k % 10000)
}

/// `10^x ≤ c < 10^(x+1)`.
pub open spec fn magnitude(x: int, c: real) -> bool {
    ten_to(x) <= c < ten_to(x + 1)
}

/// Five significant digits of `c` and the power of ten of the first.
pub open spec fn significant(c: real) -> (int, int) {
    let x = choose|x: int| magnitude(x, c);
    let y = c * ten_to(4 - x);
    let k = choose|k: int| nearest_int(k, y);
    if k >= 100000 {
        (10000, x + 1)
    } else {
        (k, x)
    }
}

/// A positive number as digits and a power of ten.
pub open spec fn scientific_text(c: real) -> Seq<char> {
    let (k, x) = significant(c);
    decimal((k / 10000) as nat) + "."@ + four_digits(k % 10000) + "e"@ + int_text(x)
}

/// A positive rational as a decimal: plain where it has a few digits, else with a power of ten.
pub open spec fn decimal_text(c: real) -> Seq<char> {
    if c >= 1000000real || c < ratio(1, 1000) {
        scientific_text(c)
    } else {
        fixed_text(c)
    }
}

proof fn nearest_one(a: int, b: int, x: real)
    requires
        nearest_int(a, x),
        nearest_int(b, x),
    ensures
        a == b,
{
    ratio_side(2 * a - 1, 2, 2 * b + 1, 2);
    ratio_side(2 * b - 1, 2, 2 * a + 1, 2);
    ratio_side(2 * b + 1, 2, 2 * a - 1, 2);
    ratio_side(2 * a + 1, 2, 2 * b - 1, 2);
}

/// The integer nearest to a number that is not negative.
fn round(x: &Rat) -> (r: BigNat)
    requires
        x@ >= 0real,
    ensures
        nearest_int(r@ as int, x@),
{
    let n = x.numer();
    let d = x.denom();
    proof {
        ratio_side(num(x@), den(x@), 0, 1);
        ratio_one(0);
        assert(0 * den(x@) == 0) by (nonlinear_arith);
    }
    let twice = BigNat::from_u128(2);
    let top = n.magnitude().times(&twice).plus(&d);
    let bottom = d.times(&twice);
    let (k, _rest) = top.div_rem(&bottom);
    proof {
        let (ni, di, ki) = (n@, d@ as int, k@ as int);
        vstd::arithmetic::div_mod::lemma_fundamental_div_mod(2 * ni + di, 2 * di);
        vstd::arithmetic::div_mod::lemma_mod_bound(2 * ni + di, 2 * di);
        assert((2 * di) * ki == ki * di * 2) by (nonlinear_arith);
        assert((2 * ki - 1) * di == ki * di * 2 - di) by (nonlinear_arith);
        assert((2 * ki + 1) * di == ki * di * 2 + di) by (nonlinear_arith);
        ratio_side(2 * ki - 1, 2, ni, di);
        ratio_side(ni, di, 2 * ki - 1, 2);
        ratio_side(ni, di, 2 * ki + 1, 2);
    }
    k
}

fn show_four(k: u64) -> (r: String)
    requires
        k < 10000,
    ensures
        r@ == four_digits(k as int),
{
    let mut s = String::new();
    s.push(crate::text::numeral_of(k / 1000));
    s.push(crate::text::numeral_of(k / 100 % 10));
    s.push(crate::text::numeral_of(k / 10 % 10));
    s.push(crate::text::numeral_of(k % 10));
    proof {
        assert(s@ =~= four_digits(k as int));
    }
    s
}

/// The digits before and after the point of a count of ten-thousandths.
fn pointed(k: &BigNat) -> (r: String)
    ensures
        r@ == decimal((k@ as int / 10000) as nat) + "."@ + four_digits(k@ as int % 10000),
{
    let (q, rest) = k.div_rem(&BigNat::from_u128(10000));
    let low: u64 = match rest.to_u64() {
        Some(v) => v,
        None => 0,
    };
    cat3(&show_nat(&q), ".", &show_four(low))
}

fn show_fixed(c: &Rat) -> (r: String)
    requires
        c@ >= 0real,
    ensures
        r@ == fixed_text(c@),
{
    let x = c.mul(&Rat::integer(10000));
    proof {
        let y = c@;
        assert(y * 10000real >= 0real) by (nonlinear_arith)
            requires
                y >= 0real,
        ;
    }
    let k = round(&x);
    proof {
        let j = four_decimals(c@);
        assert(nearest_int(k@ as int, c@ * 10000real));
        nearest_one(k@ as int, j, c@ * 10000real);
    }
    pointed(&k)
}

/// Ten to an integer power.
fn ten_power(x: &BigInt) -> (r: Rat)
    ensures
        r@ == ten_to(x@),
        r@ > 0real,
{
    let p = nat_pow(&BigNat::from_u128(10), &x.magnitude());
    let one = BigNat::from_u128(1);
    proof {
        let k = (if x@ < 0 { -x@ } else { x@ }) as nat;
        ten_positive(k);
        ratio_side(int_pow(10, k), 1, 0, 1);
        ratio_side(1, int_pow(10, k), 0, 1);
        ratio_one(0);
        let z = int_pow(10, k);
        assert(0 * z == 0) by (nonlinear_arith);
    }
    if x.is_negative() {
        Rat::quotient(&BigInt::from_nat(one), &p)
    } else {
        Rat::quotient(&BigInt::from_nat(p), &one)
    }
}

proof fn ten_positive(k: nat)
    ensures
        int_pow(10, k) >= 1,
    decreases k,
{
    if k > 0 {
        ten_positive((k - 1) as nat);
    }
}

/// Powers of ten grow.
proof fn ten_grows(x: int)
    ensures
        ten_to(x) > 0real,
        ten_to(x + 1) == ten_to(x) * 10real,
{
    if x >= 0 {
        ten_positive(x as nat);
        ratio_one(int_pow(10, x as nat));
        ratio_one(int_pow(10, (x + 1) as nat));
        let z = int_pow(10, x as nat);
        crate::cost::rat::real_product(z, 10);
    } else {
        let k = (-x) as nat;
        ten_positive(k);
        ten_positive((k - 1) as nat);
        let z = int_pow(10, (k - 1) as nat);
        assert(int_pow(10, k) == z * 10);
        reveal(ratio);
        crate::cost::rat::real_product(z, 10);
        let zr = z as real;
        assert(1real / (zr * 10real) * 10real == 1real / zr) by (nonlinear_arith)
            requires
                zr >= 1real,
        ;
        assert(1real / (zr * 10real) > 0real) by (nonlinear_arith)
            requires
                zr >= 1real,
        ;
        if x + 1 == 0 {
            assert(z == 1);
            assert(int_pow(10, 0) == 1);
        }
    }
}

proof fn ten_ordered(x: int, y: int)
    requires
        x <= y,
    ensures
        ten_to(x) <= ten_to(y),
    decreases y - x,
{
    if x < y {
        ten_ordered(x, y - 1);
        ten_grows(y - 1);
    }
}

proof fn magnitude_one(x: int, y: int, c: real)
    requires
        magnitude(x, c),
        magnitude(y, c),
    ensures
        x == y,
{
    if x < y {
        ten_ordered(x + 1, y);
    } else if y < x {
        ten_ordered(y + 1, x);
    }
}

/// The power of ten of the first digit of a positive number.
fn find_magnitude(c: &Rat) -> (r: BigInt)
    requires
        c@ > 0real,
    ensures
        magnitude(r@, c@),
{
    // the numerator bounds the power from above, the denominator from below
    let one = BigInt::from_i128(1);
    let mut x = BigInt::from_i128(0);
    let p0 = ten_power(&x);
    let n = c.numer();
    let d = c.denom();
    proof {
        ratio_side(num(c@), den(c@), 0, 1);
        ratio_one(0);
        assert(0 * den(c@) == 0) by (nonlinear_arith);
    }
    if p0.side(c) == Side::After {
        // below one: go down until the power is at most the number
        let ghost bound = d@ as int;
        loop
            invariant
                one@ == 1,
                x@ <= 0,
                c@ > 0real,
                bound > 0,
                c@ == ratio(num(c@), bound),
                num(c@) >= 1,
                ten_to(x@) > c@,
            decreases bound + x@,
        {
            proof {
                // 10^x > c ≥ 1/d, so 10^(−x) < d
                if x@ + bound <= 0 {
                    let k = (-x@) as nat;
                    ten_above(k);
                    ratio_side(num(c@), bound, 1, int_pow(10, k));
                    ratio_side(1, int_pow(10, k), num(c@), bound);
                    let z = int_pow(10, k);
                    let m = num(c@);
                    assert(m * z >= z) by (nonlinear_arith)
                        requires
                            m >= 1,
                            z >= 1,
                    ;
                    if x@ == 0 {
                        assert(bound <= 0);
                    }
                    assert(false);
                }
            }
            x = x.minus(&one);
            proof {
                ten_grows(x@);
            }
            if ten_power(&x).side(c) != Side::After {
                return x;
            }
        }
    }
    let ghost top = n@;
    loop
        invariant
            one@ == 1,
            x@ >= 0,
            top == num(c@),
            den(c@) >= 1,
            c@ == ratio(top, den(c@)),
            ten_to(x@) <= c@,
        decreases top - x@,
    {
        let up = x.plus(&one);
        if ten_power(&up).side(c) == Side::After {
            return x;
        }
        proof {
            // 10^(x+1) ≤ c ≤ n, so x < n
            ten_above((x@ + 1) as nat);
            let z = int_pow(10, (x@ + 1) as nat);
            let dd = den(c@);
            ratio_side(z, 1, top, dd);
            ratio_side(top, dd, z, 1);
            assert(z * dd >= z) by (nonlinear_arith)
                requires
                    dd >= 1,
                    z >= 1,
            ;
        }
        x = up;
    }
}

proof fn ten_above(k: nat)
    ensures
        int_pow(10, k) >= k + 1,
    decreases k,
{
    if k > 0 {
        ten_above((k - 1) as nat);
    }
}

fn show_scientific(c: &Rat) -> (r: String)
    requires
        c@ > 0real,
    ensures
        r@ == scientific_text(c@),
{
    let x = find_magnitude(c);
    let four = BigInt::from_i128(4);
    let scaled = c.mul(&ten_power(&four.minus(&x)));
    proof {
        let (a, b) = (c@, ten_to(4 - x@));
        ten_grows(4 - x@);
        assert(a * b >= 0real) by (nonlinear_arith)
            requires
                a > 0real,
                b > 0real,
        ;
    }
    let k = round(&scaled);
    proof {
        let y = choose|y: int| magnitude(y, c@);
        assert(magnitude(x@, c@));
        magnitude_one(x@, y, c@);
        let z = c@ * ten_to(4 - x@);
        let j = choose|j: int| nearest_int(j, z);
        assert(nearest_int(k@ as int, z));
        nearest_one(k@ as int, j, z);
    }
    let limit = BigNat::from_u128(100000);
    if k.side(&limit) != Side::Before {
        let up = x.plus(&BigInt::from_i128(1));
        cat3(&pointed(&BigNat::from_u128(10000)), "e", &show_int(&up))
    } else {
        cat3(&pointed(&k), "e", &show_int(&x))
    }
}

/// A positive rational as a decimal.
fn show_decimal(c: &Rat) -> (r: String)
    requires
        c@ > 0real,
    ensures
        r@ == decimal_text(c@),
{
    if c.side(&Rat::integer(1000000)) != Side::Before || c.side(&Rat::new(1, 1000)) == Side::Before {
        show_scientific(c)
    } else {
        show_fixed(c)
    }
}

// ---- polynomials ----

/// Where an atom stands in a shown product: the machine first, then sizes, then logarithms, then
/// unknown costs.
pub open spec fn shown_rank(a: AtomV) -> int {
    match a {
        AtomV::B => 0,
        AtomV::M => 1,
        AtomV::P => 2,
        AtomV::Var(i) => 3 + i,
        AtomV::Log(_) => 1_000_000,
        AtomV::Opaque(_) => 2_000_000,
    }
}

/// `i` put into a list of places, after those of its rank.
pub open spec fn place_factor(f: Seq<(AtomV, real)>, s: Seq<int>, i: int) -> Seq<int>
    decreases s.len(),
{
    if s.len() == 0 || shown_rank(f[s.last()].0) <= shown_rank(f[i].0) {
        s.push(i)
    } else {
        place_factor(f, s.drop_last(), i).push(s.last())
    }
}

/// The places of the first `n` factors in the order in which they are shown.
pub open spec fn factor_order(f: Seq<(AtomV, real)>, n: nat) -> Seq<int>
    decreases n,
{
    if n == 0 {
        Seq::empty()
    } else {
        place_factor(f, factor_order(f, (n - 1) as nat), n - 1)
    }
}

/// The first term is shown before the second: higher degree first; at equal degree the positive
/// terms before the negative, so a bound reads `8·n³/√M − M` and not `−M + 8·n³/√M`.
pub open spec fn shown_before(a: (MonoV, real), b: (MonoV, real)) -> bool {
    let (da, db) = (degree(a.0.factors), degree(b.0.factors));
    if da != db {
        da > db
    } else if (a.1 > 0real) != (b.1 > 0real) {
        a.1 > 0real
    } else {
        mono_side(b.0, a.0) == Side::Before
    }
}

pub open spec fn place_term(t: Seq<(MonoV, real)>, s: Seq<int>, i: int) -> Seq<int>
    decreases s.len(),
{
    if s.len() == 0 || !shown_before(t[i], t[s.last()]) {
        s.push(i)
    } else {
        place_term(t, s.drop_last(), i).push(s.last())
    }
}

/// The places of the first `n` terms in the order in which they are shown.
pub open spec fn term_order(t: Seq<(MonoV, real)>, n: nat) -> Seq<int>
    decreases n,
{
    if n == 0 {
        Seq::empty()
    } else {
        place_term(t, term_order(t, (n - 1) as nat), n - 1)
    }
}

/// An atom to a positive power.
pub open spec fn power_text(n: Seq<char>, e: real) -> Seq<char> {
    if e == 1real {
        n
    } else if e == ratio(1, 2) {
        "√"@ + n
    } else if whole(e) {
        n + superscript_text(num(e))
    } else {
        n + "^("@ + int_text(num(e)) + "/"@ + int_text(den(e)) + ")"@
    }
}

/// The name of an atom.
pub open spec fn atom_text(a: AtomV, names: Seq<Seq<char>>) -> Seq<char>
    decreases a,
{
    match a {
        AtomV::Var(i) => if 0 <= i < names.len() {
            names[i]
        } else {
            "?"@ + decimal(i as nat)
        },
        AtomV::B => "B"@,
        AtomV::M => "M"@,
        AtomV::P => "P"@,
        AtomV::Log(q) => log_text(poly_text(*q, names), q.terms.len() == 1),
        AtomV::Opaque(o) => unknown_text(*o, arg_texts(o.args, names)),
    }
}

/// The arguments of an unknown cost.
pub open spec fn arg_texts(args: Seq<Option<PolyV>>, names: Seq<Seq<char>>) -> Seq<Seq<char>>
    decreases args,
{
    Seq::new(
        args.len(),
        |i: int|
            if 0 <= i < args.len() {
                arg_text(args[i], names)
            } else {
                Seq::empty()
            },
    )
}

/// A logarithm, in brackets unless it is of a bare name.
pub open spec fn log_text(s: Seq<char>, single: bool) -> Seq<char> {
    if single && !s.contains('·') {
        "log "@ + s
    } else {
        "log("@ + s + ")"@
    }
}

/// An unknown cost; its arguments are shown where one of them is known.
pub open spec fn unknown_text(o: OpaqueV, args: Seq<Seq<char>>) -> Seq<char> {
    let head = (if o.moves {
        "moves"@
    } else {
        "work"@
    }) + "["@ + o.callee + "]"@;
    if forall|i: int| 0 <= i < o.args.len() ==> (#[trigger] o.args[i]) is None {
        head
    } else {
        head + "("@ + join(args, ", "@) + ")"@
    }
}

pub open spec fn arg_text(a: Option<PolyV>, names: Seq<Seq<char>>) -> Seq<char>
    decreases a,
{
    match a {
        Some(p) => poly_text(p, names),
        None => "_"@,
    }
}

/// The factors above the line, or those below it, in the order in which they are shown.
pub open spec fn side_texts(f: Seq<(AtomV, real)>, order: Seq<int>, above: bool, names: Seq<Seq<char>>) -> Seq<Seq<char>>
    decreases f, order.len(),
{
    if order.len() == 0 {
        Seq::empty()
    } else {
        let before = side_texts(f, order.drop_last(), above, names);
        let i = order.last();
        if 0 <= i < f.len() && above && f[i].1 > 0real {
            before.push(power_text(atom_text(f[i].0, names), f[i].1))
        } else if 0 <= i < f.len() && !above && f[i].1 < 0real {
            before.push(power_text(atom_text(f[i].0, names), -f[i].1))
        } else {
            before
        }
    }
}

/// A rational with a big denominator reads as a decimal; small ones stay exact.
pub open spec fn reads_decimal(c: real) -> bool {
    den(c) > 64 || (den(c) > 1 && num(c) > 1_000_000)
}

/// A term without its sign, from its coefficient and its factors above and below the line.
pub open spec fn term_body(c: real, top: Seq<Seq<char>>, low: Seq<Seq<char>>) -> Seq<char> {
    let exact = !reads_decimal(c);
    let dot = if top.len() > 0 {
        "·"@
    } else {
        ""@
    };
    let first = if !exact {
        decimal_text(c) + dot
    } else if num(c) != 1 || top.len() == 0 {
        int_text(num(c)) + dot
    } else {
        ""@
    };
    let below = if den(c) != 1 && exact {
        seq![int_text(den(c))] + low
    } else {
        low
    };
    let line = if below.len() == 0 {
        ""@
    } else if below.len() == 1 {
        "/"@ + join(below, "·"@)
    } else {
        "/("@ + join(below, "·"@) + ")"@
    };
    first + join(top, "·"@) + line
}

pub open spec fn magnitude_of(c: real) -> real {
    if c < 0real {
        -c
    } else {
        c
    }
}

/// The first `n` terms as they are shown.
pub open spec fn terms_text(t: Seq<(MonoV, real)>, order: Seq<int>, n: nat, names: Seq<Seq<char>>) -> Seq<char>
    decreases t, n,
{
    if n == 0 || n > order.len() {
        Seq::empty()
    } else {
        let i = order[n - 1];
        let before = terms_text(t, order, (n - 1) as nat, names);
        if 0 <= i < t.len() {
            let f = t[i].0.factors;
            let c = t[i].1;
            let sign = if n > 1 {
                if c < 0real {
                    " − "@
                } else {
                    " + "@
                }
            } else if c < 0real {
                "−"@
            } else {
                ""@
            };
            let places = factor_order(f, f.len());
            before + sign + term_body(
                magnitude_of(c),
                side_texts(f, places, true, names),
                side_texts(f, places, false, names),
            )
        } else {
            before
        }
    }
}

/// A polynomial as it reads, highest degree first.
#[verifier::opaque]
pub open spec fn poly_text(p: PolyV, names: Seq<Seq<char>>) -> Seq<char>
    decreases p,
{
    if p.terms.len() == 0 {
        "0"@
    } else {
        let order = term_order(p.terms, p.terms.len());
        terms_text(p.terms, order, order.len(), names)
    }
}

spec fn places_v(s: Seq<usize>) -> Seq<int> {
    Seq::new(s.len(), |i: int| s[i] as int)
}

/// Every place is one of the first `n`.
spec fn within(s: Seq<usize>, n: int) -> bool {
    forall|i: int| 0 <= i < s.len() ==> (#[trigger] s[i]) < n
}

fn rank_of(a: &Atom) -> (r: u128)
    ensures
        r == shown_rank(a@),
{
    proof {
        atom_view_is(*a);
    }
    match a {
        Atom::B => 0,
        Atom::M => 1,
        Atom::P => 2,
        Atom::Var(i) => 3 + *i as u128,
        Atom::Log(_) => 1_000_000,
        Atom::Opaque(_) => 2_000_000,
    }
}

/// The places of the factors in the order in which they are shown.
#[verifier::loop_isolation(false)]
fn order_factors(m: &Mono) -> (r: Vec<usize>)
    ensures
        places_v(r@) == factor_order(m@.factors, m@.factors.len()),
        within(r@, m@.factors.len() as int),
{
    let ghost f = m@.factors;
    let mut out: Vec<usize> = Vec::new();
    let mut i: usize = 0;
    proof {
        assert(places_v(out@) =~= Seq::empty());
    }
    while i < m.len()
        invariant
            i <= f.len(),
            places_v(out@) == factor_order(f, i as nat),
            within(out@, f.len() as int),
        decreases f.len() - i,
    {
        let rank: u128 = rank_of(m.atom_at(i));
        let ghost all = places_v(out@);
        let n: usize = out.len();
        let mut j: usize = n;
        proof {
            assert(all.take(n as int) =~= all);
            assert(place_factor(f, all, i as int) =~= place_factor(f, all.take(n as int), i as int) + all.skip(
                n as int,
            ));
        }
        while j > 0 && rank_of(m.atom_at(out[j - 1])) > rank
            invariant
                j <= n,
                place_factor(f, all, i as int) == place_factor(f, all.take(j as int), i as int) + all.skip(j as int),
            decreases j,
        {
            proof {
                assert(all.take(j as int).last() == all[j - 1]);
                assert(all.take(j as int).drop_last() =~= all.take(j - 1));
                assert(place_factor(f, all.take(j - 1), i as int).push(all[j - 1]) + all.skip(j as int)
                    =~= place_factor(f, all.take(j - 1), i as int) + all.skip(j - 1));
            }
            j -= 1;
        }
        let ghost was = out@;
        out.insert(j, i);
        proof {
            if j > 0 {
                assert(all.take(j as int).last() == all[j - 1]);
            }
            assert(places_v(out@) =~= all.take(j as int).push(i as int) + all.skip(j as int));
            assert forall|k: int| 0 <= k < out@.len() implies (#[trigger] out@[k]) < f.len() by {
                if k < j {
                    assert(out@[k] == was[k]);
                } else if k > j {
                    assert(out@[k] == was[k - 1]);
                }
            }
        }
        i += 1;
    }
    out
}

/// Whether the first term is shown before the second.
fn goes_before(p: &Poly, a: usize, b: usize) -> (r: bool)
    requires
        a < p@.terms.len(),
        b < p@.terms.len(),
    ensures
        r == shown_before(p@.terms[a as int], p@.terms[b as int]),
{
    match p.mono_at(a).degree().side(&p.mono_at(b).degree()) {
        Side::Before => false,
        Side::After => true,
        Side::Same => {
            let (pa, pb): (bool, bool) = (p.coeff_at(a).is_positive(), p.coeff_at(b).is_positive());
            if pa != pb {
                pa
            } else {
                p.mono_at(b).side(p.mono_at(a)) == Side::Before
            }
        },
    }
}

/// The places of the terms in the order in which they are shown.
#[verifier::loop_isolation(false)]
fn order_terms(p: &Poly) -> (r: Vec<usize>)
    ensures
        places_v(r@) == term_order(p@.terms, p@.terms.len()),
        within(r@, p@.terms.len() as int),
{
    let ghost t = p@.terms;
    let mut out: Vec<usize> = Vec::new();
    let mut i: usize = 0;
    proof {
        assert(places_v(out@) =~= Seq::empty());
    }
    while i < p.len()
        invariant
            i <= t.len(),
            places_v(out@) == term_order(t, i as nat),
            within(out@, t.len() as int),
        decreases t.len() - i,
    {
        let ghost all = places_v(out@);
        let n: usize = out.len();
        let mut j: usize = n;
        proof {
            assert(all.take(n as int) =~= all);
            assert(place_term(t, all, i as int) =~= place_term(t, all.take(n as int), i as int) + all.skip(n as int));
        }
        while j > 0 && goes_before(p, i, out[j - 1])
            invariant
                j <= n,
                place_term(t, all, i as int) == place_term(t, all.take(j as int), i as int) + all.skip(j as int),
            decreases j,
        {
            proof {
                assert(all.take(j as int).last() == all[j - 1]);
                assert(all.take(j as int).drop_last() =~= all.take(j - 1));
                assert(place_term(t, all.take(j - 1), i as int).push(all[j - 1]) + all.skip(j as int) =~= place_term(
                    t,
                    all.take(j - 1),
                    i as int,
                ) + all.skip(j - 1));
            }
            j -= 1;
        }
        let ghost was = out@;
        out.insert(j, i);
        proof {
            if j > 0 {
                assert(all.take(j as int).last() == all[j - 1]);
            }
            assert(places_v(out@) =~= all.take(j as int).push(i as int) + all.skip(j as int));
            assert forall|k: int| 0 <= k < out@.len() implies (#[trigger] out@[k]) < t.len() by {
                if k < j {
                    assert(out@[k] == was[k]);
                } else if k > j {
                    assert(out@[k] == was[k - 1]);
                }
            }
        }
        i += 1;
    }
    out
}

fn show_power(n: String, e: &Rat) -> (r: String)
    ensures
        r@ == power_text(n@, e@),
{
    if e.same(&Rat::one()) {
        n
    } else if e.same(&Rat::new(1, 2)) {
        cat2("√", &n)
    } else if e.is_int() {
        cat2(&n, &superscript(&e.numer()))
    } else {
        let q = BigInt::from_nat(e.denom());
        cat5(&cat2(&n, "^("), &show_int(&e.numer()), "/", &show_int(&q), ")")
    }
}

#[verifier::loop_isolation(false)]
fn has_dot(s: &String) -> (r: bool)
    ensures
        r == s@.contains('·'),
{
    let v = crate::text::chars_of(s);
    let mut i: usize = 0;
    while i < v.len()
        invariant
            i <= v@.len(),
            forall|k: int| 0 <= k < i ==> #[trigger] v@[k] != '·',
        decreases v@.len() - i,
    {
        if v[i] == '·' {
            proof {
                assert(v@[i as int] == '·');
            }
            return true;
        }
        i += 1;
    }
    false
}

#[verifier::loop_isolation(false)]
fn show_atom(a: &Atom, names: &[String]) -> (r: String)
    ensures
        r@ == atom_text(a@, texts(names@)),
    decreases a,
{
    proof {
        reveal(poly_text);
        atom_view_is(*a);
    }
    match a {
        Atom::Var(i) => {
            if *i < names.len() {
                copy_text(&names[*i])
            } else {
                cat2("?", &show_u64(*i as u64))
            }
        },
        Atom::B => "B".to_owned(),
        Atom::M => "M".to_owned(),
        Atom::P => "P".to_owned(),
        Atom::Log(q) => {
            let s = show_poly(q, names);
            if q.len() == 1 && !has_dot(&s) {
                cat2("log ", &s)
            } else {
                cat3("log(", &s, ")")
            }
        },
        Atom::Opaque(o) => {
            proof {
                opaque_view_is(**o);
            }
            let mut args: Vec<String> = Vec::new();
            let mut none: bool = true;
            let mut k: usize = 0;
            while k < o.args.len()
                invariant
                    k <= o.args@.len(),
                    args@.len() == k,
                    none == (forall|i: int| 0 <= i < k ==> (#[trigger] o@.args[i]) is None),
                    forall|i: int| 0 <= i < k ==> (#[trigger] args@[i])@ == arg_text(o@.args[i], texts(names@)),
                decreases o.args@.len() - k,
            {
                proof {
                    assert(o@.args[k as int] == arg_v(o.args@[k as int]));
                }
                let s = match &o.args[k] {
                    Some(p) => show_poly(p, names),
                    None => "_".to_owned(),
                };
                if o.args[k].is_some() {
                    none = false;
                    proof {
                        assert(!(o@.args[k as int] is None));
                    }
                }
                proof {
                    assert(s@ == arg_text(o@.args[k as int], texts(names@)));
                }
                args.push(s);
                k += 1;
            }
            let which = if o.moves {
                "moves"
            } else {
                "work"
            };
            let head = cat4(which, "[", &o.callee, "]");
            proof {
                assert(texts(args@) =~= arg_texts(o@.args, texts(names@)));
            }
            let r = if none {
                head
            } else {
                cat4(&head, "(", &join_texts(&args, ", "), ")")
            };
            proof {
                assert(r@ == unknown_text(o@, texts(args@)));
                assert(a@ == AtomV::Opaque(Box::new(o@)));
            }
            r
        },
    }
}

/// The factors above the line, or those below it.
#[verifier::loop_isolation(false)]
fn show_side(m: &Mono, order: &Vec<usize>, above: bool, names: &[String]) -> (r: Vec<String>)
    requires
        within(order@, m@.factors.len() as int),
    ensures
        texts(r@) == side_texts(m@.factors, places_v(order@), above, texts(names@)),
    decreases m,
{
    let ghost f = m@.factors;
    let ghost pv = places_v(order@);
    let ghost nv = texts(names@);
    let mut out: Vec<String> = Vec::new();
    let mut k: usize = 0;
    proof {
        assert(pv.take(0) =~= Seq::empty());
        assert(texts(out@) =~= Seq::empty());
    }
    while k < order.len()
        invariant
            k <= order@.len(),
            texts(out@) == side_texts(f, pv.take(k as int), above, nv),
        decreases order@.len() - k,
    {
        let i: usize = order[k];
        proof {
            assert(pv.take(k + 1).drop_last() =~= pv.take(k as int));
            assert(pv.take(k + 1).last() == i as int);
        }
        let e = m.exponent_at(i);
        if above && e.is_positive() {
            let s = show_power(show_atom(m.atom_at(i), names), e);
            proof {
                assert(texts(out@.push(s)) =~= texts(out@).push(s@));
            }
            out.push(s);
        } else if !above && e.is_negative() {
            let s = show_power(show_atom(m.atom_at(i), names), &e.neg());
            proof {
                assert(texts(out@.push(s)) =~= texts(out@).push(s@));
            }
            out.push(s);
        }
        k += 1;
    }
    proof {
        assert(pv.take(k as int) =~= pv);
    }
    out
}

fn show_body(c: &Rat, top: &Vec<String>, low: Vec<String>) -> (r: String)
    requires
        c@ > 0real,
    ensures
        r@ == term_body(c@, texts(top@), texts(low@)),
{
    let n = c.numer();
    let d = c.denom();
    let dec: bool = d.side(&BigNat::from_u128(64)) == Side::After || (d.side(&BigNat::from_u128(1)) == Side::After
        && n.side(&BigInt::from_i128(1_000_000)) == Side::After);
    let dot = if top.len() > 0 {
        "·"
    } else {
        ""
    };
    let first: String = if dec {
        cat2(&show_decimal(c), dot)
    } else if n.side(&BigInt::from_i128(1)) != Side::Same || top.len() == 0 {
        cat2(&show_int(&n), dot)
    } else {
        "".to_owned()
    };
    let mut below = low;
    if d.side(&BigNat::from_u128(1)) != Side::Same && !dec {
        let s = show_int(&BigInt::from_nat(d));
        let ghost was = below@;
        below.insert(0, s);
        proof {
            assert(texts(below@) =~= seq![s@] + texts(was));
        }
    }
    let line: String = if below.len() == 0 {
        "".to_owned()
    } else if below.len() == 1 {
        cat2("/", &join_texts(&below, "·"))
    } else {
        cat3("/(", &join_texts(&below, "·"), ")")
    };
    cat3(&first, &join_texts(top, "·"), &line)
}

/// A polynomial as it reads.
#[verifier::loop_isolation(false)]
pub fn show_poly(p: &Poly, names: &[String]) -> (r: String)
    ensures
        r@ == poly_text(p@, texts(names@)),
    decreases p,
{
    proof {
        reveal(poly_text);
    }
    if p.len() == 0 {
        return "0".to_owned();
    }
    p.known();
    let ghost t = p@.terms;
    let ghost nv = texts(names@);
    let order = order_terms(p);
    let ghost ov = places_v(order@);
    let mut out = String::new();
    let mut k: usize = 0;
    while k < order.len()
        invariant
            k <= order@.len(),
            out@ == terms_text(t, ov, k as nat, nv),
        decreases order@.len() - k,
    {
        let i: usize = order[k];
        let m = p.mono_at(i);
        let c = p.coeff_at(i);
        proof {
            assert(ov[k as int] == i as int);
            assert(t[i as int].1 != 0real);
        }
        let neg: bool = c.is_negative();
        let size = if neg {
            c.neg()
        } else {
            c.copy()
        };
        let sign = if k > 0 {
            if neg {
                " − "
            } else {
                " + "
            }
        } else if neg {
            "−"
        } else {
            ""
        };
        let places = order_factors(m);
        let top = show_side(m, &places, true, names);
        let low = show_side(m, &places, false, names);
        let body = show_body(&size, &top, low);
        out = cat3(&out, sign, &body);
        k += 1;
    }
    out
}

/// A polynomial with the names of its variables.
pub struct PolyDisplay<'a> {
    p: &'a Poly,
    names: &'a [String],
}

impl<'a> PolyDisplay<'a> {
    pub closed spec fn text(&self) -> Seq<char> {
        poly_text(self.p@, texts(self.names@))
    }

    /// The polynomial as it reads.
    pub fn to_string(&self) -> (r: String)
        ensures
            r@ == self.text(),
    {
        show_poly(self.p, self.names)
    }
}

impl Poly {
    /// The polynomial under these names, to be shown.
    pub fn display<'a>(&'a self, names: &'a [String]) -> (r: PolyDisplay<'a>)
        ensures
            r.text() == poly_text(self@, texts(names@)),
    {
        PolyDisplay { p: self, names }
    }
}

// ---- costs ----

/// A working set in bytes.
pub open spec fn ws_bytes(ws: PolyV) -> PolyV {
    p_mul(ws, crate::cost::algebra::p_term((MonoV { factors: bump(Seq::empty(), AtomV::B, 1real) }), 1real))
}

/// A condition as it reads: `8·n < M`.
pub open spec fn cond_text(c: CondV, names: Seq<Seq<char>>) -> Seq<char> {
    poly_text(ws_bytes(c.ws), names) + (if c.fits {
        " < M"@
    } else {
        " ≥ M"@
    })
}

pub open spec fn conds_texts(s: Seq<CondV>, names: Seq<Seq<char>>) -> Seq<Seq<char>> {
    Seq::new(s.len(), |i: int| cond_text(s[i], names))
}

/// The polynomials of the first `n` pieces without conditions.
pub open spec fn free_texts(s: Seq<PieceV>, names: Seq<Seq<char>>, n: nat) -> Seq<Seq<char>>
    decreases n,
{
    if n == 0 {
        Seq::empty()
    } else {
        let before = free_texts(s, names, (n - 1) as nat);
        if s[n - 1].conds.len() == 0 {
            before.push(poly_text(s[n - 1].poly, names))
        } else {
            before
        }
    }
}

/// The first `n` pieces with conditions.
pub open spec fn bound_texts(s: Seq<PieceV>, names: Seq<Seq<char>>, n: nat) -> Seq<Seq<char>>
    decreases n,
{
    if n == 0 {
        Seq::empty()
    } else {
        let before = bound_texts(s, names, (n - 1) as nat);
        if s[n - 1].conds.len() > 0 {
            before.push(
                poly_text(s[n - 1].poly, names) + " if "@ + join(conds_texts(s[n - 1].conds, names), " and "@),
            )
        } else {
            before
        }
    }
}

/// A cost as it reads: several unconditional alternatives are a max; conditional ones are listed
/// with their conditions.
pub open spec fn cost_text(s: Seq<PieceV>, names: Seq<Seq<char>>) -> Seq<char> {
    if s.len() == 1 && s[0].conds.len() == 0 {
        poly_text(s[0].poly, names)
    } else {
        let free = free_texts(s, names, s.len());
        let bound = bound_texts(s, names, s.len());
        let first = if free.len() > 1 {
            seq!["max("@ + join(free, ", "@) + ")"@]
        } else {
            free
        };
        join(first + bound, " | "@)
    }
}

impl Cond {
    /// The condition as it reads.
    pub fn display(&self, names: &[String]) -> (r: String)
        ensures
            r@ == cond_text(self@, texts(names@)),
    {
        let b = Atom::B;
        proof {
            atom_view_is(b);
        }
        let bytes = self.ws.mul_atom_pow(b, &Rat::integer(1));
        if self.fits {
            cat2(&show_poly(&bytes, names), " < M")
        } else {
            cat2(&show_poly(&bytes, names), " ≥ M")
        }
    }
}

fn show_conds(conds: &[Cond], names: &[String]) -> (r: Vec<String>)
    ensures
        texts(r@) == conds_texts(crate::cost::piece::conds_v(conds@), texts(names@)),
{
    let ghost cv = crate::cost::piece::conds_v(conds@);
    let mut cs: Vec<String> = Vec::new();
    let mut j: usize = 0;
    while j < conds.len()
        invariant
            cv == crate::cost::piece::conds_v(conds@),
            j <= conds@.len(),
            cs@.len() == j,
            forall|k: int| 0 <= k < j ==> (#[trigger] cs@[k])@ == cond_text(cv[k], texts(names@)),
        decreases conds@.len() - j,
    {
        cs.push(conds[j].display(names));
        j += 1;
    }
    proof {
        assert(texts(cs@) =~= conds_texts(cv, texts(names@)));
    }
    cs
}

/// A cost with the names of its variables.
pub struct CostDisplay<'a> {
    c: &'a Cost,
    names: &'a [String],
}

impl<'a> CostDisplay<'a> {
    pub closed spec fn text(&self) -> Seq<char> {
        cost_text(self.c@, texts(self.names@))
    }

    /// The cost as it reads.
    #[verifier::loop_isolation(false)]
    pub fn to_string(&self) -> (r: String)
        ensures
            r@ == self.text(),
    {
        if let Some(p) = self.c.single() {
            return show_poly(p, self.names);
        }
        let ghost s = self.c@;
        let ghost nv = texts(self.names@);
        let mut free: Vec<String> = Vec::new();
        let mut bound: Vec<String> = Vec::new();
        let mut i: usize = 0;
        proof {
            assert(texts(free@) =~= Seq::empty());
            assert(texts(bound@) =~= Seq::empty());
        }
        while i < self.c.pieces.len()
            invariant
                i <= s.len(),
                texts(free@) == free_texts(s, nv, i as nat),
                texts(bound@) == bound_texts(s, nv, i as nat),
            decreases s.len() - i,
        {
            let p = &self.c.pieces[i];
            proof {
                assert(s[i as int] == p@);
            }
            let t = show_poly(&p.poly, self.names);
            if p.conds.len() == 0 {
                proof {
                    assert(texts(free@.push(t)) =~= texts(free@).push(t@));
                }
                free.push(t);
            } else {
                let cs = show_conds(&p.conds, self.names);
                let line = cat3(&t, " if ", &join_texts(&cs, " and "));
                proof {
                    assert(texts(bound@.push(line)) =~= texts(bound@).push(line@));
                }
                bound.push(line);
            }
            i += 1;
        }
        let mut parts: Vec<String> = Vec::new();
        if free.len() > 1 {
            let line = cat3("max(", &join_texts(&free, ", "), ")");
            parts.push(line);
            proof {
                assert(texts(parts@) =~= seq![line@]);
            }
        } else {
            parts = free;
        }
        let ghost first = texts(parts@);
        let ghost last = bound@;
        let ghost was = parts@;
        parts.append(&mut bound);
        proof {
            assert(texts(parts@) =~= first + texts(last));
        }
        join_texts(&parts, " | ")
    }
}

impl Cost {
    /// The cost under these names, to be shown.
    pub fn display<'a>(&'a self, names: &'a [String]) -> (r: CostDisplay<'a>)
        ensures
            r.text() == cost_text(self@, texts(names@)),
    {
        CostDisplay { c: self, names }
    }
}

} // verus!
