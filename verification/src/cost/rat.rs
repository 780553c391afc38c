//! Rational numbers in lowest terms: the coefficients and the exponents of costs.

use vstd::prelude::*;
use crate::num::{divides, gcd, BigInt, BigNat, Side};

verus! {

/// How `a` stands to `b` on the number line.
pub open spec fn real_side(a: real, b: real) -> Side {
    if a < b {
        Side::Before
    } else if a == b {
        Side::Same
    } else {
        Side::After
    }
}

/// The quotient of two integers.
#[verifier::opaque]
pub open spec fn ratio(n: int, d: int) -> real {
    n as real / d as real
}

/// `n/d` is `x` in lowest terms.
pub open spec fn lowest(x: real, n: int, d: int) -> bool {
    &&& d > 0
    &&& x == ratio(n, d)
    &&& coprime(n, d)
}

/// No number above one divides both.
#[verifier::opaque]
pub open spec fn coprime(n: int, d: int) -> bool {
    forall|k: int| k > 0 && #[trigger] divides(k, n) && divides(k, d) ==> k == 1
}

pub open spec fn has_parts(x: real, p: (int, int)) -> bool {
    lowest(x, p.0, p.1)
}

/// Numerator and denominator of a rational number in lowest terms.
pub open spec fn parts(x: real) -> (int, int) {
    choose|p: (int, int)| has_parts(x, p)
}

/// The numerator of `x` in lowest terms.
pub open spec fn num(x: real) -> int {
    parts(x).0
}

/// The denominator of `x` in lowest terms.
pub open spec fn den(x: real) -> int {
    parts(x).1
}

/// `x` is a whole number.
pub open spec fn whole(x: real) -> bool {
    exists|k: int| x == #[trigger] ratio(k, 1)
}

pub proof fn real_product(a: int, b: int)
    ensures
        (a * b) as real == (a as real) * (b as real),
{
    assert((a * b) as real == (a as real) * (b as real)) by (nonlinear_arith);
}

pub proof fn ratio_one(k: int)
    ensures
        ratio(k, 1) == k as real,
{
    reveal(ratio);
    let x = k as real;
    assert(x / 1real == x) by (nonlinear_arith);
}

/// Two quotients with positive denominators compare as their cross products do.
pub proof fn ratio_side(a: int, b: int, c: int, d: int)
    requires
        b > 0,
        d > 0,
    ensures
        ratio(a, b) == ratio(c, d) <==> a * d == c * b,
        ratio(a, b) < ratio(c, d) <==> a * d < c * b,
{
    reveal(ratio);
    real_product(a, d);
    real_product(c, b);
    let (x, y, z, w) = (a as real, b as real, c as real, d as real);
    let p = x / y;
    let q = z / w;
    assert(p * y == x) by (nonlinear_arith)
        requires
            y > 0real,
            p == x / y,
    ;
    assert(q * w == z) by (nonlinear_arith)
        requires
            w > 0real,
            q == z / w,
    ;
    assert(p == q ==> x * w == z * y) by (nonlinear_arith)
        requires
            p * y == x,
            q * w == z,
    ;
    assert(p < q ==> x * w < z * y) by (nonlinear_arith)
        requires
            p * y == x,
            q * w == z,
            y > 0real,
            w > 0real,
    ;
    assert(p > q ==> x * w > z * y) by (nonlinear_arith)
        requires
            p * y == x,
            q * w == z,
            y > 0real,
            w > 0real,
    ;
}

pub proof fn ratio_scaled(a: int, b: int, k: int)
    requires
        b > 0,
        k > 0,
    ensures
        ratio(a * k, b * k) == ratio(a, b),
        b * k > 0,
{
    assert(b * k > 0) by (nonlinear_arith)
        requires
            b > 0,
            k > 0,
    ;
    assert((a * k) * b == a * (b * k)) by (nonlinear_arith);
    ratio_side(a * k, b * k, a, b);
}

/// Two fractions of one value are multiples of one fraction.
proof fn common_fraction(n1: int, d1: int, n2: int, d2: int) -> (r: (int, int, int, int))
    requires
        d1 > 0,
        d2 > 0,
        n1 * d2 == n2 * d1,
    ensures
        r.2 > 0,
        r.3 > 0,
        n1 == r.2 * r.0,
        d1 == r.2 * r.1,
        n2 == r.3 * r.0,
        d2 == r.3 * r.1,
    decreases d1 + d2,
{
    if d1 == d2 {
        assert(n1 == n2) by (nonlinear_arith)
            requires
                n1 * d2 == n2 * d1,
                d1 == d2,
                d1 > 0,
        ;
        (n1, d1, 1, 1)
    } else if d1 < d2 {
        assert(n1 * (d2 - d1) == (n2 - n1) * d1) by (nonlinear_arith)
            requires
                n1 * d2 == n2 * d1,
        ;
        let r = common_fraction(n1, d1, n2 - n1, d2 - d1);
        assert((r.2 + r.3) * r.0 == r.2 * r.0 + r.3 * r.0) by (nonlinear_arith);
        assert((r.2 + r.3) * r.1 == r.2 * r.1 + r.3 * r.1) by (nonlinear_arith);
        (r.0, r.1, r.2, r.2 + r.3)
    } else {
        assert((n1 - n2) * d2 == n2 * (d1 - d2)) by (nonlinear_arith)
            requires
                n1 * d2 == n2 * d1,
        ;
        let r = common_fraction(n1 - n2, d1 - d2, n2, d2);
        assert((r.2 + r.3) * r.0 == r.2 * r.0 + r.3 * r.0) by (nonlinear_arith);
        assert((r.2 + r.3) * r.1 == r.2 * r.1 + r.3 * r.1) by (nonlinear_arith);
        (r.0, r.1, r.2 + r.3, r.3)
    }
}

/// A rational number has one fraction in lowest terms.
pub proof fn lowest_unique(x: real, n1: int, d1: int, n2: int, d2: int)
    requires
        lowest(x, n1, d1),
        lowest(x, n2, d2),
    ensures
        n1 == n2,
        d1 == d2,
{
    ratio_side(n1, d1, n2, d2);
    let (n0, d0, k1, k2) = common_fraction(n1, d1, n2, d2);
    reveal(coprime);
    assert(divides(k1, n1));
    assert(divides(k1, d1));
    assert(divides(k2, n2));
    assert(divides(k2, d2));
    assert(k1 == 1);
    assert(k2 == 1);
}

pub proof fn parts_known(x: real, n: int, d: int)
    requires
        lowest(x, n, d),
    ensures
        num(x) == n,
        den(x) == d,
{
    assert(has_parts(x, (n, d)));
    let p = parts(x);
    assert(has_parts(x, p));
    lowest_unique(x, n, d, p.0, p.1);
}

pub proof fn whole_integer(k: int)
    ensures
        whole(k as real),
{
    ratio_one(k);
    assert(k as real == ratio(k, 1));
}

/// Integers are their own numerators.
pub proof fn whole_parts(k: int)
    ensures
        num(k as real) == k,
        den(k as real) == 1,
{
    ratio_one(k);
    reveal(coprime);
    assert forall|j: int| j > 0 && #[trigger] divides(j, k) && divides(j, 1) implies j == 1 by {
        let c = choose|c: int| 1 == #[trigger] (j * c);
        assert(j == 1) by (nonlinear_arith)
            requires
                j > 0,
                j * c == 1,
        ;
    }
    parts_known(k as real, k, 1);
}

/// A rational number, kept in lowest terms with a positive denominator.
#[derive(Debug)]
pub struct Rat {
    n: BigInt,
    d: BigNat,
}

impl View for Rat {
    type V = real;

    closed spec fn view(&self) -> real {
        ratio(self.n@, self.d@ as int)
    }
}

impl Rat {
    #[verifier::type_invariant]
    closed spec fn inv(self) -> bool {
        &&& self.d@ > 0
        &&& coprime(self.n@, self.d@ as int)
    }

    /// The quotient of two numbers of any size.
    pub fn quotient(n: &BigInt, d: &BigNat) -> (r: Rat)
        requires
            d@ > 0,
        ensures
            r@ == ratio(n@, d@ as int),
    {
        let g = gcd(&n.magnitude(), d);
        let ghost gi = g@ as int;
        proof {
            let m: int = if n@ < 0 { -n@ } else { n@ };
            crate::num::divides_itself(gi);
            crate::num::divides_combination(gi, 0, m, if n@ < 0 { -1 } else { 1 });
            let c = choose|c: int| n@ == #[trigger] (gi * c);
            assert(gi * c == c * gi) by (nonlinear_arith);
            vstd::arithmetic::div_mod::lemma_fundamental_div_mod_converse(n@, gi, c, 0);
            let e = choose|e: int| d@ == #[trigger] (gi * e);
            assert(gi * e == e * gi) by (nonlinear_arith);
            vstd::arithmetic::div_mod::lemma_fundamental_div_mod_converse(d@ as int, gi, e, 0);
        }
        let rn = n.exact_div(&g);
        let (rd, _rest) = d.div_rem(&g);
        proof {
            let a = rn@;
            let b = rd@ as int;
            vstd::arithmetic::div_mod::lemma_fundamental_div_mod(d@ as int, gi);
            assert(gi * b == b * gi) by (nonlinear_arith);
            assert(b > 0) by (nonlinear_arith)
                requires
                    b * gi > 0,
                    gi > 0,
            ;
            ratio_scaled(a, b, gi);
            reveal(coprime);
            assert forall|k: int| k > 0 && #[trigger] divides(k, a) && divides(k, b) implies k == 1 by {
                let x = choose|c: int| a == #[trigger] (k * c);
                let y = choose|c: int| b == #[trigger] (k * c);
                let kg = k * gi;
                assert(n@ == kg * x) by (nonlinear_arith)
                    requires
                        n@ == a * gi,
                        a == k * x,
                        kg == k * gi,
                ;
                assert(d@ == kg * y) by (nonlinear_arith)
                    requires
                        d@ == b * gi,
                        b == k * y,
                        kg == k * gi,
                ;
                let m: int = if n@ < 0 { -n@ } else { n@ };
                assert(divides(kg, n@));
                crate::num::divides_itself(kg);
                crate::num::divides_combination(kg, 0, n@, if n@ < 0 { -1 } else { 1 });
                assert(divides(kg, m));
                assert(divides(kg, d@ as int));
                assert(divides(kg, gi));
                let z = choose|c: int| gi == #[trigger] (kg * c);
                assert(k == 1) by (nonlinear_arith)
                    requires
                        gi == (k * gi) * z,
                        gi > 0,
                        k > 0,
                ;
            }
        }
        Rat { n: rn, d: rd }
    }

    /// `n/d` in lowest terms.
    pub fn new(n: i128, d: i128) -> (r: Rat)
        requires
            d != 0,
        ensures
            r@ == ratio(n as int, d as int),
    {
        if d > 0 {
            Rat::quotient(&BigInt::from_i128(n), &BigNat::from_u128(d as u128))
        } else {
            let bd = BigInt::from_i128(d);
            let r = Rat::quotient(&BigInt::from_i128(n).negated(), &bd.magnitude());
            proof {
                reveal(ratio);
                let (x, y) = (n as real, d as real);
                assert((-x) / (-y) == x / y) by (nonlinear_arith)
                    requires
                        y < 0real,
                ;
            }
            r
        }
    }

    /// The whole number `n`.
    pub fn integer(n: i128) -> (r: Rat)
        ensures
            r@ == n as real,
    {
        proof {
            ratio_one(n as int);
        }
        Rat::new(n, 1)
    }

    pub fn zero() -> (r: Rat)
        ensures
            r@ == 0real,
    {
        Rat::integer(0)
    }

    pub fn one() -> (r: Rat)
        ensures
            r@ == 1real,
    {
        Rat::integer(1)
    }

    pub fn copy(&self) -> (r: Rat)
        ensures
            r@ == self@,
    {
        proof {
            use_type_invariant(self);
        }
        Rat { n: self.n.copy(), d: self.d.copy() }
    }

    /// The numerator.
    pub fn numer(&self) -> (r: BigInt)
        ensures
            r@ == num(self@),
    {
        proof {
            use_type_invariant(self);
            parts_known(self@, self.n@, self.d@ as int);
        }
        self.n.copy()
    }

    /// The denominator.
    pub fn denom(&self) -> (r: BigNat)
        ensures
            r@ == den(self@),
            r@ > 0,
            self@ == ratio(num(self@), den(self@)),
    {
        proof {
            use_type_invariant(self);
            parts_known(self@, self.n@, self.d@ as int);
        }
        self.d.copy()
    }

    pub fn is_zero(&self) -> (r: bool)
        ensures
            r == (self@ == 0real),
    {
        proof {
            use_type_invariant(self);
            ratio_side(self.n@, self.d@ as int, 0, 1);
            ratio_one(0);
        }
        self.n.is_zero()
    }

    /// True for the numbers below zero.
    pub fn is_negative(&self) -> (r: bool)
        ensures
            r == (self@ < 0real),
    {
        proof {
            use_type_invariant(self);
            ratio_side(self.n@, self.d@ as int, 0, 1);
            ratio_one(0);
        }
        self.n.is_negative()
    }

    /// True for the numbers above zero.
    pub fn is_positive(&self) -> (r: bool)
        ensures
            r == (self@ > 0real),
    {
        !self.is_negative() && !self.is_zero()
    }

    /// True for whole numbers.
    pub fn is_int(&self) -> (r: bool)
        ensures
            r == whole(self@),
            r == (den(self@) == 1),
    {
        proof {
            use_type_invariant(self);
            parts_known(self@, self.n@, self.d@ as int);
            ratio_one(self.n@);
            whole_integer(self.n@);
            if whole(self@) {
                let k = choose|k: int| self@ == #[trigger] ratio(k, 1);
                ratio_one(k);
                whole_parts(k);
            }
        }
        let one = BigNat::from_u128(1);
        self.d.side(&one) == Side::Same
    }

    /// The sum.
    pub fn add(&self, o: &Rat) -> (r: Rat)
        ensures
            r@ == self@ + o@,
    {
        proof {
            use_type_invariant(self);
            use_type_invariant(o);
        }
        let a = self.n.times(&BigInt::from_nat(o.d.copy()));
        let b = o.n.times(&BigInt::from_nat(self.d.copy()));
        let d = self.d.times(&o.d);
        proof {
            reveal(ratio);
            let (n1, d1, n2, d2) = (self.n@, self.d@ as int, o.n@, o.d@ as int);
            real_product(n1, d2);
            real_product(n2, d1);
            real_product(d1, d2);
            assert(d1 * d2 > 0) by (nonlinear_arith)
                requires
                    d1 > 0,
                    d2 > 0,
            ;
            let (x, y, z, w) = (n1 as real, d1 as real, n2 as real, d2 as real);
            assert((x * w + z * y) / (y * w) == x / y + z / w) by (nonlinear_arith)
                requires
                    y > 0real,
                    w > 0real,
            ;
        }
        Rat::quotient(&a.plus(&b), &d)
    }

    /// The product.
    pub fn mul(&self, o: &Rat) -> (r: Rat)
        ensures
            r@ == self@ * o@,
    {
        proof {
            use_type_invariant(self);
            use_type_invariant(o);
            reveal(ratio);
            let (n1, d1, n2, d2) = (self.n@, self.d@ as int, o.n@, o.d@ as int);
            real_product(n1, n2);
            real_product(d1, d2);
            assert(d1 * d2 > 0) by (nonlinear_arith)
                requires
                    d1 > 0,
                    d2 > 0,
            ;
            let (x, y, z, w) = (n1 as real, d1 as real, n2 as real, d2 as real);
            assert((x * z) / (y * w) == (x / y) * (z / w)) by (nonlinear_arith)
                requires
                    y > 0real,
                    w > 0real,
            ;
        }
        Rat::quotient(&self.n.times(&o.n), &self.d.times(&o.d))
    }

    /// The number on the other side of zero.
    pub fn neg(&self) -> (r: Rat)
        ensures
            r@ == -self@,
    {
        proof {
            let x = self@;
            assert(x * (-1real) == -x) by (nonlinear_arith);
        }
        self.mul(&Rat::integer(-1))
    }

    /// The difference.
    pub fn sub(&self, o: &Rat) -> (r: Rat)
        ensures
            r@ == self@ - o@,
    {
        self.add(&o.neg())
    }

    /// `1` divided by the number.
    pub fn inverse(&self) -> (r: Rat)
        requires
            self@ != 0real,
        ensures
            r@ == 1real / self@,
    {
        proof {
            use_type_invariant(self);
            ratio_side(self.n@, self.d@ as int, 0, 1);
            ratio_one(0);
            reveal(ratio);
            let (x, y) = (self.n@ as real, self.d@ as real);
            assert(0 * self.d@ == 0) by (nonlinear_arith);
            assert(x != 0real);
            assert(1real / (x / y) == y / x) by (nonlinear_arith)
                requires
                    y > 0real,
                    x != 0real,
            ;
            assert((-y) / (-x) == y / x) by (nonlinear_arith)
                requires
                    x != 0real,
            ;
        }
        let top = BigInt::from_nat(self.d.copy());
        if self.n.is_negative() {
            Rat::quotient(&top.negated(), &self.n.magnitude())
        } else {
            Rat::quotient(&top, &self.n.magnitude())
        }
    }

    /// The quotient by a number that is not zero.
    pub fn over(&self, o: &Rat) -> (r: Rat)
        requires
            o@ != 0real,
        ensures
            r@ == self@ / o@,
    {
        proof {
            let (x, y) = (self@, o@);
            assert(x * (1real / y) == x / y) by (nonlinear_arith)
                requires
                    y != 0real,
            ;
        }
        self.mul(&o.inverse())
    }

    /// Numeric order.
    pub fn side(&self, o: &Rat) -> (r: Side)
        ensures
            r == real_side(self@, o@),
    {
        proof {
            use_type_invariant(self);
            use_type_invariant(o);
            ratio_side(self.n@, self.d@ as int, o.n@, o.d@ as int);
        }
        let a = self.n.times(&BigInt::from_nat(o.d.copy()));
        let b = o.n.times(&BigInt::from_nat(self.d.copy()));
        a.side(&b)
    }

    /// True when the two numbers are one.
    pub fn same(&self, o: &Rat) -> (r: bool)
        ensures
            r == (self@ == o@),
    {
        self.side(o) == Side::Same
    }

    /// The larger of the two.
    pub fn larger(&self, o: &Rat) -> (r: Rat)
        ensures
            r@ == (if self@ < o@ { o@ } else { self@ }),
    {
        if self.side(o) == Side::Before {
            o.copy()
        } else {
            self.copy()
        }
    }
}

impl Clone for Rat {
    fn clone(&self) -> (r: Rat)
        ensures
            r@ == self@,
    {
        self.copy()
    }
}

impl PartialEq for Rat {
    fn eq(&self, o: &Rat) -> (r: bool) {
        self.same(o)
    }
}

impl vstd::std_specs::cmp::PartialEqSpecImpl for Rat {
    open spec fn obeys_eq_spec() -> bool {
        true
    }

    open spec fn eq_spec(&self, o: &Rat) -> bool {
        self@ == o@
    }
}

impl PartialOrd for Rat {
    fn partial_cmp(&self, o: &Rat) -> (r: Option<core::cmp::Ordering>) {
        match self.side(o) {
            Side::Before => Some(core::cmp::Ordering::Less),
            Side::Same => Some(core::cmp::Ordering::Equal),
            Side::After => Some(core::cmp::Ordering::Greater),
        }
    }
}

impl vstd::std_specs::cmp::PartialOrdSpecImpl for Rat {
    open spec fn obeys_partial_cmp_spec() -> bool {
        true
    }

    open spec fn partial_cmp_spec(&self, o: &Rat) -> Option<core::cmp::Ordering> {
        match real_side(self@, o@) {
            Side::Before => Some(core::cmp::Ordering::Less),
            Side::Same => Some(core::cmp::Ordering::Equal),
            Side::After => Some(core::cmp::Ordering::Greater),
        }
    }
}

} // verus!
