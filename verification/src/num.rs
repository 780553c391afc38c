//! Integers of any size: the exact arithmetic under the rational coefficients
//! and exponents of the cost calculus. No operation here can overflow, so none
//! has a precondition on the size of its arguments.

use vstd::prelude::*;

verus! {

/// The weight of limb `k`: 2^32 to the power `k`.
pub open spec fn weight(k: nat) -> nat
    decreases k,
{
    if k == 0 {
        1
    } else {
        0x1_0000_0000 * weight((k - 1) as nat)
    }
}

/// Limb `i` of a limb sequence; the limbs beyond its end are zero.
pub open spec fn limb(s: Seq<u32>, i: int) -> nat {
    if 0 <= i < s.len() {
        s[i] as nat
    } else {
        0
    }
}

/// The number that the lowest `n` limbs of `s` write.
pub open spec fn low_value(s: Seq<u32>, n: nat) -> nat
    decreases n,
{
    if n == 0 {
        0
    } else {
        low_value(s, (n - 1) as nat) + limb(s, n - 1) * weight((n - 1) as nat)
    }
}

/// The number that a limb sequence writes, lowest limb first.
pub open spec fn limbs_value(s: Seq<u32>) -> nat {
    low_value(s, s.len())
}

proof fn low_value_agrees(s: Seq<u32>, t: Seq<u32>, n: nat)
    requires
        forall|i: int| 0 <= i < n ==> limb(s, i) == limb(t, i),
    ensures
        low_value(s, n) == low_value(t, n),
    decreases n,
{
    if n > 0 {
        low_value_agrees(s, t, (n - 1) as nat);
    }
}

proof fn low_value_beyond(s: Seq<u32>, n: nat)
    requires
        n >= s.len(),
    ensures
        low_value(s, n) == limbs_value(s),
    decreases n,
{
    if n > s.len() {
        low_value_beyond(s, (n - 1) as nat);
        assert(0 * weight((n - 1) as nat) == 0) by (nonlinear_arith);
    }
}

proof fn low_value_bound(s: Seq<u32>, n: nat)
    ensures
        low_value(s, n) < weight(n),
    decreases n,
{
    if n > 0 {
        low_value_bound(s, (n - 1) as nat);
        let w = weight((n - 1) as nat);
        let d = limb(s, n - 1);
        assert(d * w <= 0xffff_ffff * w) by (nonlinear_arith)
            requires
                d <= 0xffff_ffff,
        ;
    }
}

/// A natural number of any size.
#[derive(Debug)]
pub struct BigNat {
    limbs: Vec<u32>,
}

impl View for BigNat {
    type V = nat;

    closed spec fn view(&self) -> nat {
        limbs_value(self.limbs@)
    }
}

/// How one value stands to another in an order.
#[derive(Clone, Copy, PartialEq, Eq, Debug, Structural)]
pub enum Side {
    Before,
    Same,
    After,
}

impl Side {
    /// The same relation read from the other value.
    pub open spec fn flip(self) -> Side {
        match self {
            Side::Before => Side::After,
            Side::Same => Side::Same,
            Side::After => Side::Before,
        }
    }
}

/// How `a` stands to `b` among the integers.
pub open spec fn int_side(a: int, b: int) -> Side {
    if a < b {
        Side::Before
    } else if a == b {
        Side::Same
    } else {
        Side::After
    }
}

impl BigNat {
    pub fn zero() -> (r: BigNat)
        ensures
            r@ == 0,
    {
        BigNat { limbs: Vec::new() }
    }

    pub fn copy(&self) -> (r: BigNat)
        ensures
            r@ == self@,
    {
        let mut limbs: Vec<u32> = Vec::new();
        let mut i: usize = 0;
        while i < self.limbs.len()
            invariant
                i <= self.limbs.len(),
                limbs@ == self.limbs@.take(i as int),
            decreases self.limbs.len() - i,
        {
            limbs.push(self.limbs[i]);
            proof {
                assert(self.limbs@.take(i as int).push(self.limbs@[i as int]) =~= self.limbs@.take(i + 1));
            }
            i += 1;
        }
        proof {
            assert(self.limbs@.take(i as int) =~= self.limbs@);
        }
        BigNat { limbs }
    }

    /// The number that one machine word holds.
    pub fn from_u128(v: u128) -> (r: BigNat)
        ensures
            r@ == v,
    {
        let mut limbs: Vec<u32> = Vec::new();
        let mut rest: u128 = v;
        proof {
            assert(weight(0) == 1);
            assert(rest * weight(0) == rest) by (nonlinear_arith)
                requires
                    weight(0) == 1,
            ;
        }
        while rest > 0
            invariant
                limbs_value(limbs@) + rest * weight(limbs@.len()) == v,
            decreases rest,
        {
            let d: u32 = (rest % 0x1_0000_0000) as u32;
            proof {
                let ghost before = limbs@;
                let ghost after = limbs@.push(d);
                low_value_agrees(before, after, before.len());
                let w = weight(before.len());
                let q = rest as int / 0x1_0000_0000;
                assert(rest * w == (q * 0x1_0000_0000 + d) * w) by (nonlinear_arith)
                    requires
                        rest == q * 0x1_0000_0000 + d,
                ;
                assert((q * 0x1_0000_0000 + d) * w == q * (0x1_0000_0000 * w) + d * w) by (nonlinear_arith);
            }
            limbs.push(d);
            rest = rest / 0x1_0000_0000;
        }
        proof {
            assert(0 * weight(limbs@.len()) == 0) by (nonlinear_arith);
        }
        BigNat { limbs }
    }

    /// The number as a machine word, if it is small enough to be one.
    pub fn to_u64(&self) -> (r: Option<u64>)
        ensures
            match r {
                Some(v) => v == self@,
                None => self@ > u64::MAX,
            },
    {
        let mut v: u64 = 0;
        let mut i: usize = self.limbs.len();
        proof {
            assert(0 * weight(i as nat) == 0) by (nonlinear_arith);
        }
        while i > 0
            invariant
                i <= self.limbs.len(),
                v * weight(i as nat) + low_value(self.limbs@, i as nat) == self@,
            decreases i,
        {
            proof {
                low_value_bound(self.limbs@, i as nat);
            }
            if v > 0xffff_ffff {
                proof {
                    let w = weight(i as nat);
                    Self::weight_positive(i as nat);
                    Self::weight_positive((i - 1) as nat);
                    let w1 = weight((i - 1) as nat);
                    assert(v * w >= 0x1_0000_0000 * w) by (nonlinear_arith)
                        requires
                            v >= 0x1_0000_0000,
                    ;
                    assert(w == 0x1_0000_0000 * w1);
                }
                return None;
            }
            let d: u32 = self.limbs[i - 1];
            proof {
                let w1 = weight((i - 1) as nat);
                assert(v * (0x1_0000_0000 * w1) + d * w1 == (v * 0x1_0000_0000 + d) * w1) by (nonlinear_arith);
            }
            v = v * 0x1_0000_0000 + d as u64;
            i -= 1;
        }
        proof {
            assert(v * weight(0) == v) by (nonlinear_arith)
                requires
                    weight(0) == 1,
            ;
        }
        Some(v)
    }

    proof fn weight_positive(k: nat)
        ensures
            weight(k) >= 1,
        decreases k,
    {
        if k > 0 {
            Self::weight_positive((k - 1) as nat);
        }
    }

    pub fn is_zero(&self) -> (r: bool)
        ensures
            r == (self@ == 0),
    {
        let mut i: usize = self.limbs.len();
        while i > 0
            invariant
                i <= self.limbs.len(),
                low_value(self.limbs@, i as nat) == self@,
            decreases i,
        {
            if self.limbs[i - 1] != 0 {
                proof {
                    Self::weight_positive((i - 1) as nat);
                    let d = self.limbs@[i - 1];
                    let w = weight((i - 1) as nat);
                    assert(d * w >= 1) by (nonlinear_arith)
                        requires
                            d >= 1,
                            w >= 1,
                    ;
                }
                return false;
            }
            proof {
                assert(0 * weight((i - 1) as nat) == 0) by (nonlinear_arith);
            }
            i -= 1;
        }
        true
    }

    fn limb_at(&self, i: usize) -> (r: u32)
        ensures
            r == limb(self.limbs@, i as int),
    {
        if i < self.limbs.len() {
            self.limbs[i]
        } else {
            0
        }
    }

    /// How the number stands to another.
    pub fn side(&self, o: &BigNat) -> (r: Side)
        ensures
            r == int_side(self@ as int, o@ as int),
    {
        let n: usize = if self.limbs.len() < o.limbs.len() {
            o.limbs.len()
        } else {
            self.limbs.len()
        };
        let mut i: usize = n;
        proof {
            low_value_beyond(self.limbs@, n as nat);
            low_value_beyond(o.limbs@, n as nat);
        }
        while i > 0
            invariant
                i <= n,
                self@ - low_value(self.limbs@, i as nat) == o@ - low_value(o.limbs@, i as nat),
            decreases i,
        {
            let a: u32 = self.limb_at(i - 1);
            let b: u32 = o.limb_at(i - 1);
            proof {
                let k = (i - 1) as nat;
                let w = weight(k);
                low_value_bound(self.limbs@, k);
                low_value_bound(o.limbs@, k);
                if a < b {
                    assert(a * w + w <= b * w) by (nonlinear_arith)
                        requires
                            a + 1 <= b,
                    ;
                }
                if a > b {
                    assert(b * w + w <= a * w) by (nonlinear_arith)
                        requires
                            b + 1 <= a,
                    ;
                }
            }
            if a < b {
                return Side::Before;
            }
            if a > b {
                return Side::After;
            }
            i -= 1;
        }
        Side::Same
    }

    /// The sum.
    pub fn plus(&self, o: &BigNat) -> (r: BigNat)
        ensures
            r@ == self@ + o@,
    {
        let n: usize = if self.limbs.len() < o.limbs.len() {
            o.limbs.len()
        } else {
            self.limbs.len()
        };
        let mut out: Vec<u32> = Vec::new();
        let mut carry: u64 = 0;
        let mut i: usize = 0;
        proof {
            low_value_beyond(self.limbs@, n as nat);
            low_value_beyond(o.limbs@, n as nat);
            assert(0 * weight(0) == 0) by (nonlinear_arith);
        }
        while i < n
            invariant
                i <= n,
                out@.len() == i,
                carry <= 1,
                limbs_value(out@) + carry * weight(i as nat) == low_value(self.limbs@, i as nat)
                    + low_value(o.limbs@, i as nat),
            decreases n - i,
        {
            let a: u32 = self.limb_at(i);
            let b: u32 = o.limb_at(i);
            let s: u64 = a as u64 + b as u64 + carry;
            let d: u32 = (s % 0x1_0000_0000) as u32;
            proof {
                let w = weight(i as nat);
                low_value_agrees(out@, out@.push(d), i as nat);
                let q = s as int / 0x1_0000_0000;
                assert(q <= 1);
                assert(d * w + q * (0x1_0000_0000 * w) == a * w + b * w + carry * w) by (nonlinear_arith)
                    requires
                        q * 0x1_0000_0000 + d == a + b + carry,
                ;
            }
            out.push(d);
            carry = s / 0x1_0000_0000;
            i += 1;
        }
        if carry > 0 {
            let d: u32 = carry as u32;
            proof {
                low_value_agrees(out@, out@.push(d), n as nat);
            }
            out.push(d);
        } else {
            proof {
                assert(0 * weight(n as nat) == 0) by (nonlinear_arith);
            }
        }
        BigNat { limbs: out }
    }

    /// The difference, where it is not negative.
    pub fn minus(&self, o: &BigNat) -> (r: BigNat)
        requires
            self@ >= o@,
        ensures
            r@ == self@ - o@,
    {
        let n: usize = if self.limbs.len() < o.limbs.len() {
            o.limbs.len()
        } else {
            self.limbs.len()
        };
        let mut out: Vec<u32> = Vec::new();
        let mut borrow: u64 = 0;
        let mut i: usize = 0;
        proof {
            low_value_beyond(self.limbs@, n as nat);
            low_value_beyond(o.limbs@, n as nat);
            assert(0 * weight(0) == 0) by (nonlinear_arith);
        }
        while i < n
            invariant
                i <= n,
                out@.len() == i,
                borrow <= 1,
                limbs_value(out@) + low_value(o.limbs@, i as nat) == low_value(self.limbs@, i as nat)
                    + borrow * weight(i as nat),
            decreases n - i,
        {
            let a: u32 = self.limb_at(i);
            let b: u32 = o.limb_at(i);
            let s: u64 = 0x1_0000_0000 + a as u64 - b as u64 - borrow;
            let d: u32 = (s % 0x1_0000_0000) as u32;
            let next: u64 = 1 - s / 0x1_0000_0000;
            proof {
                let w = weight(i as nat);
                low_value_agrees(out@, out@.push(d), i as nat);
                assert(d * w + b * w + borrow * w == a * w + next * (0x1_0000_0000 * w)) by (nonlinear_arith)
                    requires
                        d + b + borrow == a + next * 0x1_0000_0000,
                ;
            }
            out.push(d);
            borrow = next;
            i += 1;
        }
        proof {
            low_value_bound(out@, n as nat);
            if borrow == 1 {
                assert(1 * weight(n as nat) == weight(n as nat)) by (nonlinear_arith);
            } else {
                assert(0 * weight(n as nat) == 0) by (nonlinear_arith);
            }
        }
        let mut r = BigNat { limbs: out };
        r.trim();
        r
    }

    /// Drops the zero limbs at the top.
    fn trim(&mut self)
        ensures
            final(self)@ == old(self)@,
    {
        let ghost all = self.limbs@;
        while self.limbs.len() > 0 && self.limbs[self.limbs.len() - 1] == 0
            invariant
                limbs_value(self.limbs@) == limbs_value(all),
            decreases self.limbs.len(),
        {
            proof {
                let s = self.limbs@;
                low_value_agrees(s, s.drop_last(), (s.len() - 1) as nat);
                assert(0 * weight((s.len() - 1) as nat) == 0) by (nonlinear_arith);
                assert(self.limbs@.subrange(0, s.len() - 1) =~= s.drop_last());
            }
            let _ = self.limbs.pop();
        }
    }

    /// The product with one limb.
    fn times_limb(&self, m: u32) -> (r: BigNat)
        ensures
            r@ == self@ * m,
    {
        let n: usize = self.limbs.len();
        let mut out: Vec<u32> = Vec::new();
        let mut carry: u64 = 0;
        let mut i: usize = 0;
        proof {
            assert(0 * weight(0) == 0) by (nonlinear_arith);
            assert(0 * m == 0) by (nonlinear_arith);
        }
        while i < n
            invariant
                i <= n,
                n == self.limbs@.len(),
                out@.len() == i,
                carry <= 0xffff_ffff,
                limbs_value(out@) + carry * weight(i as nat) == low_value(self.limbs@, i as nat) * m,
            decreases n - i,
        {
            let a: u32 = self.limbs[i];
            proof {
                assert(a * m <= 0xffff_ffff * 0xffff_ffff) by (nonlinear_arith)
                    requires
                        a <= 0xffff_ffff,
                        m <= 0xffff_ffff,
                ;
            }
            let s: u64 = a as u64 * m as u64 + carry;
            let d: u32 = (s % 0x1_0000_0000) as u32;
            proof {
                let w = weight(i as nat);
                low_value_agrees(out@, out@.push(d), i as nat);
                let q = s as int / 0x1_0000_0000;
                let am: int = a * m;
                assert(d * w + q * (0x1_0000_0000 * w) == am * w + carry * w) by (nonlinear_arith)
                    requires
                        q * 0x1_0000_0000 + d == am + carry,
                ;
                let low = low_value(self.limbs@, i as nat);
                assert((low + a * w) * m == low * m + (a * m) * w) by (nonlinear_arith);
            }
            out.push(d);
            carry = s / 0x1_0000_0000;
            i += 1;
        }
        let d: u32 = carry as u32;
        proof {
            low_value_agrees(out@, out@.push(d), n as nat);
        }
        out.push(d);
        BigNat { limbs: out }
    }

    /// The number moved up by one limb.
    fn shifted(&self) -> (r: BigNat)
        ensures
            r@ == self@ * 0x1_0000_0000,
    {
        let mut out: Vec<u32> = Vec::new();
        out.push(0);
        let mut i: usize = 0;
        proof {
            reveal_with_fuel(low_value, 2);
            assert(0 * weight(0) == 0) by (nonlinear_arith);
        }
        while i < self.limbs.len()
            invariant
                i <= self.limbs.len(),
                out@.len() == i + 1,
                limbs_value(out@) == low_value(self.limbs@, i as nat) * 0x1_0000_0000,
            decreases self.limbs.len() - i,
        {
            let d: u32 = self.limbs[i];
            proof {
                low_value_agrees(out@, out@.push(d), (i + 1) as nat);
                let w = weight(i as nat);
                let low = low_value(self.limbs@, i as nat);
                assert((low + d * w) * 0x1_0000_0000 == low * 0x1_0000_0000 + d * (0x1_0000_0000 * w))
                    by (nonlinear_arith);
            }
            out.push(d);
            i += 1;
        }
        BigNat { limbs: out }
    }

    /// The product.
    pub fn times(&self, o: &BigNat) -> (r: BigNat)
        ensures
            r@ == self@ * o@,
    {
        let mut acc = BigNat::zero();
        let mut i: usize = o.limbs.len();
        proof {
            assert(0 * weight(i as nat) == 0) by (nonlinear_arith);
        }
        while i > 0
            invariant
                i <= o.limbs.len(),
                acc@ * weight(i as nat) + self@ * low_value(o.limbs@, i as nat) == self@ * o@,
            decreases i,
        {
            let d: u32 = o.limbs[i - 1];
            let up = acc.shifted();
            let part = self.times_limb(d);
            proof {
                let w = weight((i - 1) as nat);
                let low = low_value(o.limbs@, (i - 1) as nat);
                let x = acc@;
                let s = self@;
                assert((x * 0x1_0000_0000 + s * d) * w + s * low == x * (0x1_0000_0000 * w) + s * (low + d
                    * w)) by (nonlinear_arith);
            }
            acc = up.plus(&part);
            i -= 1;
        }
        proof {
            let x = acc@;
            assert(x * weight(0) == x) by (nonlinear_arith)
                requires
                    weight(0) == 1,
            ;
            let s = self@;
            assert(s * 0 == 0) by (nonlinear_arith);
        }
        acc.trim();
        acc
    }

    /// How often `o` goes into a number that is less than `2^32` times it.
    fn goes_into(&self, o: &BigNat) -> (r: u32)
        requires
            o@ > 0,
            self@ < 0x1_0000_0000 * o@,
        ensures
            r * o@ <= self@ < (r + 1) * o@,
    {
        let mut lo: u64 = 0;
        let mut hi: u64 = 0x1_0000_0000;
        proof {
            assert(0 * o@ == 0) by (nonlinear_arith);
        }
        while hi - lo > 1
            invariant
                lo < hi <= 0x1_0000_0000,
                lo * o@ <= self@ < hi * o@,
            decreases hi - lo,
        {
            let mid: u64 = (lo + hi) / 2;
            proof {
                let (m, b) = (mid as int, o@ as int);
                assert(b * m == m * b) by (nonlinear_arith);
                assert(mid as u32 as int == m);
            }
            if o.times_limb(mid as u32).side(self) == Side::After {
                hi = mid;
            } else {
                lo = mid;
            }
        }
        assert(hi == lo + 1);
        lo as u32
    }

    /// Quotient and remainder, limb by limb.
    pub fn div_rem(&self, o: &BigNat) -> (r: (BigNat, BigNat))
        requires
            o@ > 0,
        ensures
            r.0@ == self@ / o@,
            r.1@ == self@ % o@,
    {
        if self.limbs.len() <= 2 && o.limbs.len() <= 2 {
            if let (Some(a), Some(b)) = (self.to_u64(), o.to_u64()) {
                return (BigNat::from_u128((a / b) as u128), BigNat::from_u128((a % b) as u128));
            }
        }
        let mut quotient = BigNat::zero();
        let mut rest = BigNat::zero();
        let ghost mut high: nat = 0;
        let ghost b = o@ as int;
        let mut i: usize = self.limbs.len();
        proof {
            assert(0 * weight(i as nat) == 0) by (nonlinear_arith);
            assert(0 * b + 0 == 0) by (nonlinear_arith);
        }
        while i > 0
            invariant
                i <= self.limbs.len(),
                b == o@,
                b > 0,
                high * weight(i as nat) + low_value(self.limbs@, i as nat) == self@,
                high == quotient@ * b + rest@,
                rest@ < b,
            decreases i,
        {
            let d: u32 = self.limbs[i - 1];
            let next = rest.shifted().plus(&BigNat::from_u128(d as u128));
            proof {
                let x = rest@ as int;
                assert(x * 0x1_0000_0000 + d < 0x1_0000_0000 * b) by (nonlinear_arith)
                    requires
                        x <= b - 1,
                        d < 0x1_0000_0000,
                ;
            }
            let t = next.goes_into(o);
            let part = o.times_limb(t);
            proof {
                let w = weight((i - 1) as nat) as int;
                let low = low_value(self.limbs@, (i - 1) as nat) as int;
                let (h, di) = (high as int, d as int);
                assert((h * 0x1_0000_0000 + di) * w + low == h * (0x1_0000_0000 * w) + (low + di * w)) by (nonlinear_arith);
                let (q, x, ti) = (quotient@ as int, rest@ as int, t as int);
                assert((q * b + x) * 0x1_0000_0000 + di == (q * 0x1_0000_0000 + ti) * b + ((x * 0x1_0000_0000 + di) - ti
                    * b)) by (nonlinear_arith);
                assert((ti + 1) * b == ti * b + b) by (nonlinear_arith);
                assert(b * ti == ti * b) by (nonlinear_arith);
                high = high * 0x1_0000_0000 + d as nat;
            }
            rest = next.minus(&part);
            rest.trim();
            quotient = quotient.shifted().plus(&BigNat::from_u128(t as u128));
            i -= 1;
        }
        quotient.trim();
        proof {
            let h = high as int;
            assert(h * weight(0) == h) by (nonlinear_arith)
                requires
                    weight(0) == 1,
            ;
            vstd::arithmetic::div_mod::lemma_fundamental_div_mod_converse(self@ as int, b, quotient@ as int, rest@ as int);
        }
        (quotient, rest)
    }
}

/// An integer of any size.
#[derive(Debug)]
pub struct BigInt {
    negative: bool,
    size: BigNat,
}

impl View for BigInt {
    type V = int;

    closed spec fn view(&self) -> int {
        if self.negative {
            -(self.size@ as int)
        } else {
            self.size@ as int
        }
    }
}

impl BigInt {
    pub fn from_i128(v: i128) -> (r: BigInt)
        ensures
            r@ == v,
    {
        if v >= 0 {
            BigInt { negative: false, size: BigNat::from_u128(v as u128) }
        } else {
            let m: u128 = (-(v + 1)) as u128 + 1;
            BigInt { negative: true, size: BigNat::from_u128(m) }
        }
    }

    pub fn from_nat(v: BigNat) -> (r: BigInt)
        ensures
            r@ == v@,
    {
        BigInt { negative: false, size: v }
    }

    pub fn copy(&self) -> (r: BigInt)
        ensures
            r@ == self@,
    {
        BigInt { negative: self.negative, size: self.size.copy() }
    }

    pub fn is_zero(&self) -> (r: bool)
        ensures
            r == (self@ == 0),
    {
        self.size.is_zero()
    }

    /// True for the numbers below zero.
    pub fn is_negative(&self) -> (r: bool)
        ensures
            r == (self@ < 0),
    {
        self.negative && !self.size.is_zero()
    }

    /// The distance from zero.
    pub fn magnitude(&self) -> (r: BigNat)
        ensures
            r@ == (if self@ < 0 { -self@ } else { self@ }),
    {
        self.size.copy()
    }

    /// The number as a machine word, if it is one.
    pub fn to_u64(&self) -> (r: Option<u64>)
        ensures
            match r {
                Some(v) => v == self@,
                None => self@ < 0 || self@ > u64::MAX,
            },
    {
        if self.is_negative() {
            None
        } else {
            self.size.to_u64()
        }
    }

    /// The number as one of 128 bits, if it is one.
    pub fn to_i128(&self) -> (r: Option<i128>)
        ensures
            match r {
                Some(v) => v == self@,
                None => self@ < i128::MIN || self@ > i128::MAX,
            },
    {
        let (high, low) = self.size.div_rem(&BigNat::from_u128(0x1_0000_0000_0000_0000));
        proof {
            let (n, d) = (self.size@ as int, 0x1_0000_0000_0000_0000int);
            vstd::arithmetic::div_mod::lemma_fundamental_div_mod(n, d);
            vstd::arithmetic::div_mod::lemma_mod_bound(n, d);
        }
        match (high.to_u64(), low.to_u64()) {
            (Some(a), Some(b)) => {
                assert((a as u128) * 0x1_0000_0000_0000_0000 + (b as u128) == self.size@) by (nonlinear_arith)
                    requires
                        self.size@ == 0x1_0000_0000_0000_0000 * (a as int) + (b as int),
                ;
                let v: u128 = (a as u128) * 0x1_0000_0000_0000_0000 + (b as u128);
                if v <= 0x7fff_ffff_ffff_ffff_ffff_ffff_ffff_ffff {
                    if self.is_negative() {
                        Some(-(v as i128))
                    } else {
                        Some(v as i128)
                    }
                } else if self.is_negative() && v == 0x8000_0000_0000_0000_0000_0000_0000_0000 {
                    Some(i128::MIN)
                } else {
                    None
                }
            },
            _ => None,
        }
    }

    pub fn negated(&self) -> (r: BigInt)
        ensures
            r@ == -self@,
    {
        BigInt { negative: !self.negative, size: self.size.copy() }
    }

    pub fn plus(&self, o: &BigInt) -> (r: BigInt)
        ensures
            r@ == self@ + o@,
    {
        if self.negative == o.negative {
            BigInt { negative: self.negative, size: self.size.plus(&o.size) }
        } else if self.size.side(&o.size) == Side::Before {
            BigInt { negative: o.negative, size: o.size.minus(&self.size) }
        } else {
            BigInt { negative: self.negative, size: self.size.minus(&o.size) }
        }
    }

    pub fn minus(&self, o: &BigInt) -> (r: BigInt)
        ensures
            r@ == self@ - o@,
    {
        self.plus(&o.negated())
    }

    pub fn times(&self, o: &BigInt) -> (r: BigInt)
        ensures
            r@ == self@ * o@,
    {
        let size = self.size.times(&o.size);
        proof {
            let a = self.size@ as int;
            let b = o.size@ as int;
            assert((-a) * b == -(a * b)) by (nonlinear_arith);
            assert(a * (-b) == -(a * b)) by (nonlinear_arith);
            assert((-a) * (-b) == a * b) by (nonlinear_arith);
        }
        BigInt { negative: self.negative != o.negative, size }
    }

    /// How the number stands to another.
    pub fn side(&self, o: &BigInt) -> (r: Side)
        ensures
            r == int_side(self@, o@),
    {
        let d = self.minus(o);
        if d.is_zero() {
            Side::Same
        } else if d.negative {
            Side::Before
        } else {
            Side::After
        }
    }

    /// The quotient by a divisor that leaves no remainder.
    pub fn exact_div(&self, g: &BigNat) -> (r: BigInt)
        requires
            g@ > 0,
            self@ % (g@ as int) == 0,
        ensures
            r@ * g@ == self@,
    {
        let (q, _rem) = self.size.div_rem(g);
        proof {
            let a = self.size@ as int;
            let b = g@ as int;
            vstd::arithmetic::div_mod::lemma_fundamental_div_mod(a, b);
            vstd::arithmetic::div_mod::lemma_fundamental_div_mod(self@, b);
            let k = self@ / b;
            if self.negative {
                assert(a == b * (-k)) by (nonlinear_arith)
                    requires
                        -a == b * k,
                ;
                vstd::arithmetic::div_mod::lemma_fundamental_div_mod_converse(a, b, -k, 0);
                assert(k * b == b * k) by (nonlinear_arith);
            } else {
                assert(k * b == b * k) by (nonlinear_arith);
            }
        }
        BigInt { negative: self.negative, size: q }
    }
}

/// `k` divides `a`.
pub open spec fn divides(k: int, a: int) -> bool {
    exists|c: int| a == #[trigger] (k * c)
}

/// The greatest common divisor: it divides both numbers, and whatever divides
/// both divides it.
pub open spec fn is_gcd(g: int, a: int, b: int) -> bool {
    &&& g >= 0
    &&& divides(g, a)
    &&& divides(g, b)
    &&& forall|k: int| divides(k, a) && divides(k, b) ==> #[trigger] divides(k, g)
}

pub proof fn divides_combination(k: int, a: int, b: int, q: int)
    requires
        divides(k, a),
        divides(k, b),
    ensures
        divides(k, a + q * b),
{
    let x = choose|c: int| a == #[trigger] (k * c);
    let y = choose|c: int| b == #[trigger] (k * c);
    assert(a + q * b == k * (x + q * y)) by (nonlinear_arith)
        requires
            a == k * x,
            b == k * y,
    ;
}

pub proof fn divides_itself(k: int)
    ensures
        divides(k, k),
        divides(k, 0),
{
    assert(k == k * 1);
    assert(0 == k * 0) by (nonlinear_arith);
}

proof fn same_gcd(g: int, x: int, y: int)
    requires
        y > 0,
        is_gcd(g, y, x % y),
    ensures
        is_gcd(g, x, y),
{
    let q = x / y;
    vstd::arithmetic::div_mod::lemma_fundamental_div_mod(x, y);
    assert(y * q == q * y) by (nonlinear_arith);
    assert((-q) * y == -(q * y)) by (nonlinear_arith);
    divides_combination(g, x % y, y, q);
    assert forall|k: int| divides(k, x) && divides(k, y) implies #[trigger] divides(k, g) by {
        divides_combination(k, x, y, -q);
    }
}

/// The greatest common divisor of two natural numbers; of zero and zero it is zero.
pub fn gcd(a: &BigNat, b: &BigNat) -> (g: BigNat)
    ensures
        is_gcd(g@ as int, a@ as int, b@ as int),
        a@ > 0 || b@ > 0 ==> g@ > 0,
{
    let mut x = a.copy();
    let mut y = b.copy();
    while !y.is_zero()
        invariant
            forall|g: int| #[trigger] is_gcd(g, x@ as int, y@ as int) ==> is_gcd(g, a@ as int, b@ as int),
            a@ > 0 || b@ > 0 ==> x@ > 0 || y@ > 0,
        decreases y@,
    {
        let (_q, r) = x.div_rem(&y);
        proof {
            let (xi, yi) = (x@ as int, y@ as int);
            vstd::arithmetic::div_mod::lemma_mod_bound(xi, yi);
            assert forall|g: int| #[trigger] is_gcd(g, yi, r@ as int) implies is_gcd(g, a@ as int, b@ as int) by {
                same_gcd(g, xi, yi);
            }
        }
        x = y;
        y = r;
    }
    proof {
        divides_itself(x@ as int);
        assert(is_gcd(x@ as int, x@ as int, y@ as int));
    }
    x
}

} // verus!
