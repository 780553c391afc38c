//! Powers and roots of positive rationals. An irrational power is kept to four decimals where it
//! becomes a coefficient, and to sixteen where it is only a value.

use vstd::prelude::*;
use crate::cost::algebra::real_pow;
use crate::cost::rat::{den, num, ratio, ratio_one, ratio_side, real_product, whole, Rat};
use crate::num::{BigInt, BigNat, Side};

verus! {

/// An integer to a natural power.
pub open spec fn int_pow(x: int, k: nat) -> int
    decreases k,
{
    if k == 0 {
        1
    } else {
        int_pow(x, (k - 1) as nat) * x
    }
}

pub proof fn int_pow_grows(a: int, b: int, k: nat)
    requires
        0 <= a <= b,
    ensures
        0 <= int_pow(a, k) <= int_pow(b, k),
        a < b && k > 0 ==> int_pow(a, k) < int_pow(b, k),
    decreases k,
{
    if k > 0 {
        int_pow_grows(a, b, (k - 1) as nat);
        let (x, y) = (int_pow(a, (k - 1) as nat), int_pow(b, (k - 1) as nat));
        assert(0 <= x * a <= y * b) by (nonlinear_arith)
            requires
                0 <= x <= y,
                0 <= a <= b,
        ;
        if a < b {
            int_pow_positive(b, (k - 1) as nat);
            assert(x * a < y * b) by (nonlinear_arith)
                requires
                    0 <= x <= y,
                    0 <= a < b,
                    y > 0,
            ;
        }
    }
}

proof fn int_pow_positive(a: int, k: nat)
    requires
        a > 0,
    ensures
        int_pow(a, k) > 0,
    decreases k,
{
    if k > 0 {
        int_pow_positive(a, (k - 1) as nat);
        let x = int_pow(a, (k - 1) as nat);
        assert(x * a > 0) by (nonlinear_arith)
            requires
                x > 0,
                a > 0,
        ;
    }
}

proof fn int_pow_above(a: int, k: nat)
    requires
        a >= 1,
        k >= 1,
    ensures
        int_pow(a, k) >= a,
    decreases k,
{
    let x = int_pow(a, (k - 1) as nat);
    int_pow_positive(a, (k - 1) as nat);
    assert(x * a >= a) by (nonlinear_arith)
        requires
            x >= 1,
            a >= 1,
    ;
}

/// `x` is a perfect power of exponent `q`.
pub open spec fn perfect(x: int, q: nat) -> bool {
    exists|r: int| r >= 0 && #[trigger] int_pow(r, q) == x
}

/// The integer whose power of exponent `q` is `x`.
pub open spec fn perfect_root(x: int, q: nat) -> int {
    choose|r: int| r >= 0 && #[trigger] int_pow(r, q) == x
}

/// `c` to a power that is a whole number.
pub open spec fn whole_pow(c: real, k: int) -> real {
    if k >= 0 {
        real_pow(c, k as nat)
    } else {
        1real / real_pow(c, (-k) as nat)
    }
}

/// Of the multiples of `1/s` the `k`-th lies nearest to the root of `x` of exponent `q`; a tie goes
/// up.
pub open spec fn nearest(k: int, x: real, q: nat, s: int) -> bool {
    &&& k >= 0
    &&& k >= 1 ==> int_pow(2 * k - 1, q) as real <= int_pow(2 * s, q) as real * x
    &&& int_pow(2 * s, q) as real * x < int_pow(2 * k + 1, q) as real
}

/// The multiple of `1/s` nearest to the root of `x` of exponent `q`.
pub open spec fn root_near(x: real, q: nat, s: int) -> real {
    ratio(choose|k: int| nearest(k, x, q, s), s)
}

/// The power is a rational number: the exponent is whole, or the root is exact.
pub open spec fn rational_power(c: real, e: real) -> bool {
    whole(e) || perfect(num(c), den(e) as nat) && perfect(den(c), den(e) as nat)
}

pub open spec fn exact_power(c: real, e: real) -> real {
    let q = den(e) as nat;
    if whole(e) {
        whole_pow(c, num(e))
    } else {
        whole_pow(ratio(perfect_root(num(c), q), perfect_root(den(c), q)), num(e))
    }
}

/// `c^e` as a coefficient: exact when `e` is whole or the root is exact, else to four decimals.
pub open spec fn power(c: real, e: real) -> real {
    if rational_power(c, e) {
        exact_power(c, e)
    } else {
        kept(c, e)
    }
}

/// `c^e` to four decimals.
pub open spec fn kept(c: real, e: real) -> real {
    root_near(whole_pow(c, num(e)), den(e) as nat, 10000)
}

/// How fine the value of an irrational power is.
pub open spec fn fine_scale() -> int {
    10_000_000_000_000_000
}

/// `c^e` as a value: exact when `e` is whole or the root is exact. Else the power or its inverse,
/// whichever is more than one, to sixteen decimals.
pub open spec fn fine_power(c: real, e: real) -> real {
    let x = whole_pow(c, num(e));
    let q = den(e) as nat;
    if rational_power(c, e) {
        exact_power(c, e)
    } else if x >= 1real {
        root_near(x, q, fine_scale())
    } else {
        1real / root_near(1real / x, q, fine_scale())
    }
}

proof fn nearest_unique(a: int, b: int, x: real, q: nat, s: int)
    requires
        q > 0,
        nearest(a, x, q, s),
        nearest(b, x, q, s),
    ensures
        a == b,
{
    if a < b {
        int_pow_grows(2 * a + 1, 2 * b - 1, q);
    } else if b < a {
        int_pow_grows(2 * b + 1, 2 * a - 1, q);
    }
}

pub fn nat_pow(x: &BigNat, k: &BigNat) -> (r: BigNat)
    ensures
        r@ == int_pow(x@ as int, k@),
{
    let one = BigNat::from_u128(1);
    let mut r = BigNat::from_u128(1);
    let mut i = BigNat::zero();
    while i.side(k) == Side::Before
        invariant
            one@ == 1,
            i@ <= k@,
            r@ == int_pow(x@ as int, i@),
        decreases k@ - i@,
    {
        r = r.times(x);
        i = i.plus(&one);
    }
    r
}

/// The largest number whose power of exponent `q` is at most `x`.
fn floor_root(x: &BigNat, q: &BigNat) -> (r: BigNat)
    requires
        q@ > 0,
    ensures
        int_pow(r@ as int, q@) <= x@,
        x@ < int_pow(r@ as int + 1, q@),
{
    let one = BigNat::from_u128(1);
    let two = BigNat::from_u128(2);
    let mut lo = BigNat::zero();
    let mut hi = BigNat::from_u128(1);
    proof {
        assert(int_pow(0, q@) == 0) by {
            let y = int_pow(0, (q@ - 1) as nat);
            assert(y * 0 == 0) by (nonlinear_arith);
        }
    }
    while nat_pow(&hi, q).side(x) != Side::After
        invariant
            two@ == 2,
            q@ > 0,
            lo@ < hi@,
            int_pow(lo@ as int, q@) <= x@,
        decreases (if hi@ <= x@ {
            x@ + 1 - hi@
        } else {
            0
        }),
    {
        proof {
            int_pow_above(hi@ as int, q@);
        }
        lo = hi.copy();
        hi = hi.times(&two);
    }
    loop
        invariant
            one@ == 1,
            two@ == 2,
            q@ > 0,
            lo@ < hi@,
            int_pow(lo@ as int, q@) <= x@,
            x@ < int_pow(hi@ as int, q@),
        ensures
            hi@ == lo@ + 1,
        decreases hi@ - lo@,
    {
        let up = lo.plus(&one);
        if up.side(&hi) == Side::Same {
            break;
        }
        let (mid, _rest) = lo.plus(&hi).div_rem(&two);
        let p = nat_pow(&mid, q);
        if p.side(x) == Side::After {
            hi = mid;
        } else {
            lo = mid;
        }
    }
    lo
}

/// The exact root of exponent `q`, if there is one.
fn exact_root(x: &BigNat, q: &BigNat) -> (r: Option<BigNat>)
    requires
        q@ > 0,
    ensures
        match r {
            Some(v) => perfect(x@ as int, q@) && v@ == perfect_root(x@ as int, q@),
            None => !perfect(x@ as int, q@),
        },
{
    let y = floor_root(x, q);
    let p = nat_pow(&y, q);
    proof {
        if perfect(x@ as int, q@) {
            let s = perfect_root(x@ as int, q@);
            assert(s >= 0 && int_pow(s, q@) == x@);
            if s < y@ {
                int_pow_grows(s, y@ as int, q@);
            }
            if s > y@ {
                int_pow_grows(y@ as int + 1, s, q@);
            }
        }
    }
    if p.side(x) == Side::Same {
        proof {
            assert(y@ as int >= 0 && int_pow(y@ as int, q@) == x@);
        }
        Some(y)
    } else {
        None
    }
}

pub proof fn real_pow_positive(c: real, k: nat)
    requires
        c > 0real,
    ensures
        real_pow(c, k) > 0real,
    decreases k,
{
    if k > 0 {
        real_pow_positive(c, (k - 1) as nat);
        let x = real_pow(c, (k - 1) as nat);
        assert(x * c > 0real) by (nonlinear_arith)
            requires
                x > 0real,
                c > 0real,
        ;
    }
}

proof fn real_pow_nonzero(c: real, k: nat)
    requires
        c != 0real,
    ensures
        real_pow(c, k) != 0real,
    decreases k,
{
    if k > 0 {
        real_pow_nonzero(c, (k - 1) as nat);
        let x = real_pow(c, (k - 1) as nat);
        assert(x * c != 0real) by (nonlinear_arith)
            requires
                x != 0real,
                c != 0real,
        ;
    }
}

/// A power to a whole exponent.
pub fn rat_whole_pow(c: &Rat, k: &BigInt) -> (r: Rat)
    requires
        c@ != 0real,
    ensures
        r@ == whole_pow(c@, k@),
        c@ > 0real ==> r@ > 0real,
{
    let n = k.magnitude();
    let one = BigNat::from_u128(1);
    let mut r = Rat::one();
    let mut i = BigNat::zero();
    while i.side(&n) == Side::Before
        invariant
            one@ == 1,
            i@ <= n@,
            r@ == real_pow(c@, i@),
        decreases n@ - i@,
    {
        r = r.mul(c);
        i = i.plus(&one);
    }
    proof {
        real_pow_nonzero(c@, n@);
        if c@ > 0real {
            real_pow_positive(c@, n@);
            let x = r@;
            assert(1real / x > 0real) by (nonlinear_arith)
                requires
                    x > 0real,
            ;
        }
    }
    if k.is_negative() {
        r.inverse()
    } else {
        r
    }
}

proof fn scaled_bound(a: int, n: int, d: int, s: int, x: real)
    requires
        d > 0,
        x == ratio(n, d),
    ensures
        a * d <= s * n <==> a as real <= s as real * x,
        s * n < a * d <==> (s as real) * x < a as real,
{
    reveal(ratio);
    real_product(a, d);
    real_product(s, n);
    let (p, q, t, u) = (a as real, d as real, s as real, n as real);
    let y = t * x;
    assert(y * q == t * u) by (nonlinear_arith)
        requires
            y == t * x,
            x == u / q,
            q > 0real,
    ;
    assert(p <= y <==> p * q <= y * q) by (nonlinear_arith)
        requires
            q > 0real,
    ;
}

/// The multiple of `1/scale` nearest to the root of `x` of exponent `q`.
fn nearest_root(x: &Rat, q: &BigNat, scale: u64) -> (r: BigNat)
    requires
        q@ > 0,
        x@ > 0real,
    ensures
        nearest(r@ as int, x@, q@, scale as int),
{
    let s = nat_pow(&BigNat::from_u128(2 * scale as u128), q);
    let n = x.numer();
    let d = x.denom();
    proof {
        ratio_side(num(x@), den(x@), 0, 1);
        ratio_one(0);
        assert(0 * den(x@) == 0) by (nonlinear_arith);
        assert(num(x@) * 1 == num(x@));
    }
    let top = s.times(&n.magnitude());
    let (f, _rest) = top.div_rem(&d);
    let y = floor_root(&f, q);
    let (k, _odd) = y.plus(&BigNat::from_u128(1)).div_rem(&BigNat::from_u128(2));
    proof {
        let (ni, di, si) = (n@, d@ as int, s@ as int);
        vstd::arithmetic::div_mod::lemma_fundamental_div_mod(si * ni, di);
        vstd::arithmetic::div_mod::lemma_mod_bound(si * ni, di);
        let ki = k@ as int;
        let fi = f@ as int;
        if ki >= 1 {
            int_pow_grows(2 * ki - 1, y@ as int, q@);
            let a = int_pow(2 * ki - 1, q@);
            assert(a * di <= fi * di) by (nonlinear_arith)
                requires
                    a <= fi,
                    di > 0,
            ;
            assert(fi * di == di * fi) by (nonlinear_arith);
            scaled_bound(a, ni, di, si, x@);
        }
        int_pow_grows(y@ as int + 1, 2 * ki + 1, q@);
        let b = int_pow(2 * ki + 1, q@);
        assert(b * di >= (fi + 1) * di) by (nonlinear_arith)
            requires
                b >= fi + 1,
                di > 0,
        ;
        assert((fi + 1) * di == di * fi + di) by (nonlinear_arith);
        scaled_bound(b, ni, di, si, x@);
    }
    k
}

fn near(x: &Rat, q: &BigNat, scale: u64) -> (r: Rat)
    requires
        q@ > 0,
        x@ > 0real,
        scale > 0,
    ensures
        r@ == root_near(x@, q@, scale as int),
        r@ >= 0real,
        x@ >= 1real ==> r@ > 0real,
{
    let k = nearest_root(x, q, scale);
    proof {
        let s = scale as int;
        let j = choose|j: int| nearest(j, x@, q@, s);
        assert(nearest(k@ as int, x@, q@, s));
        nearest_unique(k@ as int, j, x@, q@, s);
        ratio_side(k@ as int, s, 0, 1);
        ratio_one(0);
        if x@ >= 1real && k@ == 0 {
            int_pow_grows(1, 2 * s, q@);
            int_pow_grows(0, 1, q@);
            let (a, y) = (int_pow(2 * s, q@) as real, x@);
            assert(a * y >= a) by (nonlinear_arith)
                requires
                    a >= 0real,
                    y >= 1real,
            ;
        }
    }
    Rat::quotient(&BigInt::from_nat(k), &BigNat::from_u128(scale as u128))
}

/// `c^e` where it is a rational number.
fn exact_pow(c: &Rat, e: &Rat) -> (r: Option<Rat>)
    requires
        c@ > 0real,
    ensures
        match r {
            Some(v) => rational_power(c@, e@) && v@ == exact_power(c@, e@) && v@ > 0real,
            None => !rational_power(c@, e@),
        },
{
    let p = e.numer();
    let q = e.denom();
    if e.is_int() {
        return Some(rat_whole_pow(c, &p));
    }
    let n = c.numer();
    let d = c.denom();
    proof {
        ratio_side(num(c@), den(c@), 0, 1);
        ratio_one(0);
        assert(0 * den(c@) == 0) by (nonlinear_arith);
    }
    if let Some(a) = exact_root(&n.magnitude(), &q) {
        if let Some(b) = exact_root(&d, &q) {
            proof {
                assert(int_pow(0, q@) == 0) by {
                    let y = int_pow(0, (q@ - 1) as nat);
                    assert(y * 0 == 0) by (nonlinear_arith);
                }
                assert(int_pow(b@ as int, q@) == d@);
                assert(int_pow(a@ as int, q@) == n@);
                ratio_side(a@ as int, b@ as int, 0, 1);
                assert(0 * b@ == 0) by (nonlinear_arith);
            }
            return Some(rat_whole_pow(&Rat::quotient(&BigInt::from_nat(a), &b), &p));
        }
    }
    None
}

/// `c^e` for a positive rational base: exact when `e` is an integer or the root is exact, else
/// to four decimals.
pub fn rat_pow(c: &Rat, e: &Rat) -> (r: Rat)
    requires
        c@ > 0real,
    ensures
        r@ == power(c@, e@),
        r@ >= 0real,
{
    match exact_pow(c, e) {
        Some(v) => v,
        None => rat_kept(c, e),
    }
}

/// `c^e` for a positive rational base, to four decimals.
pub fn rat_kept(c: &Rat, e: &Rat) -> (r: Rat)
    requires
        c@ > 0real,
    ensures
        r@ == kept(c@, e@),
        r@ >= 0real,
{
    near(&rat_whole_pow(c, &e.numer()), &e.denom(), 10000)
}

/// The value of `c^e` for a positive rational base: exact when `e` is an integer or the root is
/// exact, else the power or its inverse to sixteen decimals.
pub fn rat_fine_pow(c: &Rat, e: &Rat) -> (r: Rat)
    requires
        c@ > 0real,
    ensures
        r@ == fine_power(c@, e@),
        r@ > 0real,
{
    if let Some(v) = exact_pow(c, e) {
        return v;
    }
    let x = rat_whole_pow(c, &e.numer());
    let q = e.denom();
    if x.side(&Rat::one()) != Side::Before {
        near(&x, &q, 10_000_000_000_000_000)
    } else {
        let up = x.inverse();
        proof {
            let y = x@;
            assert(1real / y >= 1real) by (nonlinear_arith)
                requires
                    0real < y < 1real,
            ;
        }
        let r = near(&up, &q, 10_000_000_000_000_000);
        proof {
            let y = r@;
            assert(1real / y > 0real) by (nonlinear_arith)
                requires
                    y > 0real,
            ;
        }
        r.inverse()
    }
}

} // verus!
