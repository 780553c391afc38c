//! The natural logarithm of a number, as a rational.
//!
//! Halving brings a number to at most two, where `ln y = 2·(z + z³/3 + z⁵/5 + …)` with
//! `z = (y − 1)/(y + 1) ≤ 1/3`: every further term is at most a ninth of the one before, and all
//! the terms after the twelfth add less than `10^−12` (`series_rest`).

use vstd::prelude::*;
use crate::cost::algebra::real_pow;
use crate::cost::rat::{den, num, ratio, ratio_one, ratio_side, real_product, Rat};
use crate::cost::root::int_pow;
use crate::num::Side;

verus! {

/// The first `n` terms of the series.
pub open spec fn odd_series(z: real, n: nat) -> real
    decreases n,
{
    if n == 0 {
        0real
    } else {
        odd_series(z, (n - 1) as nat) + real_pow(z, (2 * n - 1) as nat) * ratio(2, 2 * n - 1)
    }
}

/// The logarithm of a number from one to two.
pub open spec fn log_near(y: real) -> real {
    odd_series((y - 1real) / (y + 1real), 12)
}

/// The logarithm of a number of at least one that `n` halvings bring to two or less.
pub open spec fn log_from(x: real, n: nat) -> real
    decreases n,
{
    if n == 0 || x <= 2real {
        log_near(x)
    } else {
        log_near(2real) + log_from(x / 2real, (n - 1) as nat)
    }
}

/// The logarithm of a number; below one it counts as that of one.
pub open spec fn log_value(x: real) -> real {
    if x <= 1real {
        0real
    } else {
        log_from(x, num(x) as nat)
    }
}

proof fn ratio_times(n: int, d: int)
    requires
        d > 0,
    ensures
        ratio(n, d) * (d as real) == n as real,
{
    reveal(ratio);
    let (x, y) = (n as real, d as real);
    assert((x / y) * y == x) by (nonlinear_arith)
        requires
            y > 0real,
    ;
}

proof fn power_below(z: real, k: nat)
    requires
        0real <= z <= ratio(1, 3),
    ensures
        0real <= real_pow(z, k) <= real_pow(ratio(1, 3), k),
    decreases k,
{
    if k > 0 {
        power_below(z, (k - 1) as nat);
        let (a, b, t) = (real_pow(z, (k - 1) as nat), real_pow(ratio(1, 3), (k - 1) as nat), ratio(1, 3));
        assert(0real <= a * z <= b * t) by (nonlinear_arith)
            requires
                0real <= a <= b,
                0real <= z <= t,
        ;
    }
}

/// The odd powers of a third fall by nine.
proof fn third_powers(n: nat)
    ensures
        real_pow(ratio(1, 3), 2 * n + 3) * 9real == real_pow(ratio(1, 3), 2 * n + 1),
        real_pow(ratio(1, 3), 2 * n + 1) * (int_pow(9, n) as real) == ratio(1, 3),
        real_pow(ratio(1, 3), 2 * n + 1) > 0real,
    decreases n,
{
    let t = ratio(1, 3);
    ratio_times(1, 3);
    let p = real_pow(t, 2 * n + 1);
    assert(real_pow(t, 2 * n + 2) == p * t);
    assert(real_pow(t, 2 * n + 3) == (p * t) * t);
    assert((p * t) * t * 9real == p) by (nonlinear_arith)
        requires
            t * 3real == 1real,
    ;
    if n == 0 {
        reveal_with_fuel(real_pow, 2);
        assert(1real * t == t) by (nonlinear_arith);
        assert(p == t);
        assert(t * 1real == t) by (nonlinear_arith);
    } else {
        third_powers((n - 1) as nat);
        let q = real_pow(t, (2 * n - 1) as nat);
        let m = int_pow(9, (n - 1) as nat);
        real_product(m, 9);
        let x = m as real;
        assert(p * (x * 9real) == q * x) by (nonlinear_arith)
            requires
                p * 9real == q,
        ;
    }
}

proof fn rest_below(z: real, n: nat)
    requires
        0real <= z <= ratio(1, 3),
        n >= 12,
    ensures
        0real <= odd_series(z, n) - odd_series(z, 12),
        (odd_series(z, n) - odd_series(z, 12)) * 100real <= 9real * (real_pow(ratio(1, 3), 25) - real_pow(
            ratio(1, 3),
            2 * n + 1,
        )),
    decreases n,
{
    if n > 12 {
        let k = (n - 1) as nat;
        rest_below(z, k);
        power_below(z, (2 * n - 1) as nat);
        third_powers(k);
        let (a, p, q) = (
            real_pow(z, (2 * n - 1) as nat),
            real_pow(ratio(1, 3), 2 * k + 1),
            real_pow(ratio(1, 3), 2 * n + 1),
        );
        assert(2 * n - 1 == 2 * k + 1 && 2 * n + 1 == 2 * k + 3);
        let c = ratio(2, 2 * n - 1);
        ratio_side(2, 2 * n - 1, 2, 25);
        ratio_side(0, 1, 2, 2 * n - 1);
        ratio_one(0);
        assert(0 * (2 * n - 1) == 0) by (nonlinear_arith);
        let d = ratio(2, 25);
        ratio_times(2, 25);
        assert(0real <= a * c && (a * c) * 100real <= 8real * p) by (nonlinear_arith)
            requires
                0real <= a <= p,
                0real < c <= d,
                d * 25real == 2real,
        ;
        assert(9real * (p - q) == 8real * p);
    }
}

/// However many terms follow the twelfth, they add less than `10^−12`.
pub proof fn series_rest(z: real, n: nat)
    requires
        0real <= z <= ratio(1, 3),
        n >= 12,
    ensures
        0real <= odd_series(z, n) - odd_series(z, 12),
        (odd_series(z, n) - odd_series(z, 12)) * 1000000000000real < 1real,
{
    rest_below(z, n);
    third_powers(12);
    third_powers(n);
    reveal_with_fuel(int_pow, 13);
    assert(int_pow(9, 12) == 282429536481);
    let p = real_pow(ratio(1, 3), 25);
    ratio_times(1, 3);
    assert(p * 282429536481real * 3real == 1real);
    assert(9real * p * 10000000000real < 1real) by (nonlinear_arith)
        requires
            p * 282429536481real * 3real == 1real,
            p > 0real,
    ;
}

/// A number from one to two is brought to at most a third.
pub proof fn near_is_small(y: real)
    requires
        1real <= y <= 2real,
    ensures
        0real <= (y - 1real) / (y + 1real) <= ratio(1, 3),
{
    ratio_times(1, 3);
    let z = (y - 1real) / (y + 1real);
    assert(0real <= z && z * 3real <= 1real) by (nonlinear_arith)
        requires
            1real <= y <= 2real,
            z == (y - 1real) / (y + 1real),
    ;
}

fn series(z: &Rat) -> (r: Rat)
    ensures
        r@ == odd_series(z@, 12),
{
    let square = z.mul(z);
    let mut power = z.copy();
    let mut sum = Rat::zero();
    let mut n: u32 = 0;
    proof {
        reveal_with_fuel(real_pow, 2);
        let y = z@;
        assert(1real * y == y) by (nonlinear_arith);
    }
    while n < 12
        invariant
            n <= 12,
            square@ == z@ * z@,
            power@ == real_pow(z@, (2 * n + 1) as nat),
            sum@ == odd_series(z@, n as nat),
        decreases 12 - n,
    {
        sum = sum.add(&power.mul(&Rat::new(2, 2 * n as i128 + 1)));
        proof {
            reveal_with_fuel(real_pow, 3);
            let (p, y) = (power@, z@);
            assert(p * (y * y) == (p * y) * y) by (nonlinear_arith);
        }
        power = power.mul(&square);
        n += 1;
    }
    sum
}

fn near(y: &Rat) -> (r: Rat)
    requires
        y@ >= 1real,
    ensures
        r@ == log_near(y@),
{
    let one = Rat::one();
    series(&y.sub(&one).over(&y.add(&one)))
}

/// The logarithm of a number, at least zero.
pub fn natural_log(x: &Rat) -> (r: Rat)
    ensures
        r@ == log_value(x@),
{
    if x.side(&Rat::one()) != Side::After {
        return Rat::zero();
    }
    let two = Rat::integer(2);
    let step = near(&two);
    let mut y = x.copy();
    let mut sum = Rat::zero();
    let _ = x.denom();
    let ghost mut n: nat = num(x@) as nat;
    proof {
        let (v, p, q) = (x@, num(x@), den(x@));
        assert(v == ratio(p, q));
        ratio_side(p, q, 1, 1);
        ratio_side(p, q, p, 1);
        ratio_one(1);
        ratio_one(p);
        assert(p <= p * q) by (nonlinear_arith)
            requires
                p > 0,
                q >= 1,
        ;
    }
    while y.side(&two) == Side::After
        invariant
            two@ == 2real,
            step@ == log_near(2real),
            y@ > 1real,
            y@ <= n as real,
            sum@ + log_from(y@, n) == log_value(x@),
        decreases n,
    {
        proof {
            let (v, f) = (y@, n as real);
            assert(v / 2real > 1real && v / 2real <= f - 1real) by (nonlinear_arith)
                requires
                    v > 2real,
                    v <= f,
            ;
            n = (n - 1) as nat;
        }
        sum = sum.add(&step);
        y = y.over(&two);
    }
    sum.add(&near(&y))
}

} // verus!
