//! Polynomials at a point: a machine and a value for every size that has one.

use vstd::prelude::*;
use crate::cost::algebra::real_pow;
use crate::cost::forms::opt_real;
use crate::cost::logs::{log_value, natural_log};
use crate::cost::machine::Machine;
use crate::cost::model::{AtomV, MonoV};
use crate::cost::piece::{conds_v, Cond, CondV};
use crate::cost::rat::{num, ratio, ratio_one, whole, whole_parts, Rat};
use crate::cost::root::{fine_power, rat_fine_pow, rat_whole_pow};
use crate::cost::size::{atom_view_is, Atom, Mono, Poly};
use crate::num::Side;

verus! {

/// The values of some sizes, and of all the others if they have one.
#[derive(Debug)]
pub struct Point {
    pub sizes: Vec<(usize, Option<Rat>)>,
    pub rest: Option<Rat>,
}

pub struct PointV {
    pub sizes: Seq<(usize, Option<real>)>,
    pub rest: Option<real>,
}

pub open spec fn values_v(s: Seq<(usize, Option<Rat>)>) -> Seq<(usize, Option<real>)> {
    Seq::new(s.len(), |i: int| (s[i].0, opt_real(s[i].1)))
}

impl View for Point {
    type V = PointV;

    open spec fn view(&self) -> PointV {
        PointV { sizes: values_v(self.sizes@), rest: opt_real(self.rest) }
    }
}

/// The value of a size: the first given for it, from the `i`-th on, else that of the rest.
pub open spec fn size_at(x: PointV, v: int, i: nat) -> Option<real>
    decreases x.sizes.len() - i,
{
    if i >= x.sizes.len() {
        x.rest
    } else if x.sizes[i as int].0 == v {
        x.sizes[i as int].1
    } else {
        size_at(x, v, i + 1)
    }
}

/// A number to a power: any power of a positive one, natural powers of the others.
pub open spec fn raised(x: real, e: real) -> Option<real> {
    if x > 0real {
        Some(fine_power(x, e))
    } else if x < 0real && whole(e) && e >= 0real {
        Some(real_pow(x, num(e) as nat))
    } else if x == 0real && e > 0real {
        Some(0real)
    } else {
        None
    }
}

/// The value of an atom to a power. That of an unknown callee's cost has none.
pub open spec fn factor_value(a: AtomV, e: real, k: Machine, x: PointV) -> Option<real>
    decreases a,
{
    match a {
        AtomV::B => Some(fine_power(k.b_bytes as real, e)),
        AtomV::M => Some(fine_power(k.m_bytes as real, e)),
        AtomV::P => raised(k.p_cores as real, e),
        AtomV::Var(v) => match size_at(x, v, 0) {
            Some(y) => raised(y, e),
            None => None,
        },
        AtomV::Log(p) => match sum_at(p.terms, k, x) {
            Some(y) => raised(log_value(y), e),
            None => None,
        },
        _ => None,
    }
}

pub open spec fn product_at(f: Seq<(AtomV, real)>, k: Machine, x: PointV) -> Option<real>
    decreases f,
{
    if f.len() == 0 {
        Some(1real)
    } else {
        match (product_at(f.drop_last(), k, x), factor_value(f.last().0, f.last().1, k, x)) {
            (Some(a), Some(b)) => Some(a * b),
            _ => None,
        }
    }
}

/// The value of a sum, if every atom has one.
pub open spec fn sum_at(t: Seq<(MonoV, real)>, k: Machine, x: PointV) -> Option<real>
    decreases t,
{
    if t.len() == 0 {
        Some(0real)
    } else {
        match (sum_at(t.drop_last(), k, x), product_at(t.last().0.factors, k, x)) {
            (Some(a), Some(b)) => Some(a + t.last().1 * b),
            _ => None,
        }
    }
}

/// Whether a condition holds at a point; one without a value there does not.
pub open spec fn cond_holds(c: CondV, k: Machine, x: PointV) -> bool {
    match sum_at(c.ws.terms, k, x) {
        Some(v) => (v * (k.b_bytes as real) < k.m_bytes as real) == c.fits,
        None => false,
    }
}

pub open spec fn conds_hold(s: Seq<CondV>, k: Machine, x: PointV) -> bool {
    forall|i: int| 0 <= i < s.len() ==> cond_holds(#[trigger] s[i], k, x)
}

proof fn natural_power(e: real)
    requires
        whole(e),
        e >= 0real,
    ensures
        num(e) >= 0,
{
    let k = choose|k: int| e == #[trigger] ratio(k, 1);
    ratio_one(k);
    whole_parts(k);
}

fn raise(x: &Rat, e: &Rat) -> (r: Option<Rat>)
    ensures
        opt_real(r) == raised(x@, e@),
{
    if x.is_positive() {
        Some(rat_fine_pow(x, e))
    } else if x.is_zero() {
        if e.is_positive() {
            Some(Rat::zero())
        } else {
            None
        }
    } else if e.is_int() && !e.is_negative() {
        proof {
            natural_power(e@);
        }
        Some(rat_whole_pow(x, &e.numer()))
    } else {
        None
    }
}

impl Point {
    fn size(&self, v: usize) -> (r: Option<&Rat>)
        ensures
            (match r {
                Some(y) => Some(y@),
                None => None,
            }) == size_at(self@, v as int, 0),
    {
        let mut i: usize = 0;
        while i < self.sizes.len()
            invariant
                i <= self.sizes@.len(),
                size_at(self@, v as int, 0) == size_at(self@, v as int, i as nat),
            decreases self.sizes@.len() - i,
        {
            assert(self@.sizes[i as int] == (self.sizes@[i as int].0, opt_real(self.sizes@[i as int].1)));
            if self.sizes[i].0 == v {
                return match &self.sizes[i].1 {
                    Some(y) => Some(y),
                    None => None,
                };
            }
            i += 1;
        }
        match &self.rest {
            Some(y) => Some(y),
            None => None,
        }
    }

    fn factor(&self, a: &Atom, e: &Rat, k: &Machine) -> (r: Option<Rat>)
        requires
            k.ok(),
        ensures
            opt_real(r) == factor_value(a@, e@, *k, self@),
        decreases a@,
    {
        proof {
            atom_view_is(*a);
        }
        match a {
            Atom::B => Some(rat_fine_pow(&Rat::integer(k.b_bytes), e)),
            Atom::M => Some(rat_fine_pow(&Rat::integer(k.m_bytes), e)),
            Atom::P => raise(&Rat::integer(k.p_cores), e),
            Atom::Var(v) => match self.size(*v) {
                Some(y) => raise(y, e),
                None => None,
            },
            Atom::Log(p) => match self.value(p, k) {
                Some(y) => raise(&natural_log(&y), e),
                None => None,
            },
            _ => None,
        }
    }

    #[verifier::loop_isolation(false)]
    fn product(&self, m: &Mono, k: &Machine) -> (r: Option<Rat>)
        requires
            k.ok(),
        ensures
            opt_real(r) == product_at(m@.factors, *k, self@),
        decreases m@,
    {
        let ghost f = m@.factors;
        let mut v = Rat::one();
        let mut i: usize = 0;
        assert(f.take(0) =~= Seq::empty());
        while i < m.len()
            invariant
                i <= f.len(),
                product_at(f.take(i as int), *k, self@) == Some(v@),
            decreases f.len() - i,
        {
            assert(f.take(i + 1).drop_last() =~= f.take(i as int));
            assert(f.take(i + 1).last() == f[i as int]);
            match self.factor(m.atom_at(i), m.exponent_at(i), k) {
                Some(b) => {
                    v = v.mul(&b);
                },
                None => {
                    proof {
                        product_stops(f, *k, self@, i + 1);
                    }
                    return None;
                },
            }
            i += 1;
        }
        assert(f.take(i as int) =~= f);
        Some(v)
    }

    /// The value of a polynomial at the point.
    #[verifier::loop_isolation(false)]
    pub fn value(&self, p: &Poly, k: &Machine) -> (r: Option<Rat>)
        requires
            k.ok(),
        ensures
            opt_real(r) == sum_at(p@.terms, *k, self@),
        decreases p@,
    {
        let ghost t = p@.terms;
        let mut v = Rat::zero();
        let mut i: usize = 0;
        assert(t.take(0) =~= Seq::empty());
        while i < p.len()
            invariant
                i <= t.len(),
                sum_at(t.take(i as int), *k, self@) == Some(v@),
            decreases t.len() - i,
        {
            assert(t.take(i + 1).drop_last() =~= t.take(i as int));
            assert(t.take(i + 1).last() == t[i as int]);
            match self.product(p.mono_at(i), k) {
                Some(b) => {
                    v = v.add(&p.coeff_at(i).mul(&b));
                },
                None => {
                    proof {
                        sum_stops(t, *k, self@, i + 1);
                    }
                    return None;
                },
            }
            i += 1;
        }
        assert(t.take(i as int) =~= t);
        Some(v)
    }

    pub fn holds(&self, c: &Cond, k: &Machine) -> (r: bool)
        requires
            k.ok(),
        ensures
            r == cond_holds(c@, *k, self@),
    {
        match self.value(&c.ws, k) {
            Some(v) => (v.mul(&Rat::integer(k.b_bytes)).side(&Rat::integer(k.m_bytes)) == Side::Before) == c.fits,
            None => false,
        }
    }

    pub fn all_hold(&self, s: &Vec<Cond>, k: &Machine) -> (r: bool)
        requires
            k.ok(),
        ensures
            r == conds_hold(conds_v(s@), *k, self@),
    {
        let ghost v = conds_v(s@);
        let mut i: usize = 0;
        while i < s.len()
            invariant
                i <= s@.len(),
                v == conds_v(s@),
                k.ok(),
                forall|j: int| 0 <= j < i ==> cond_holds(#[trigger] v[j], *k, self@),
            decreases s@.len() - i,
        {
            assert(v[i as int] == s@[i as int]@);
            if !self.holds(&s[i], k) {
                return false;
            }
            i += 1;
        }
        true
    }
}

proof fn product_stops(f: Seq<(AtomV, real)>, k: Machine, x: PointV, n: int)
    requires
        0 <= n <= f.len(),
        product_at(f.take(n), k, x) is None,
    ensures
        product_at(f, k, x) is None,
    decreases f.len() - n,
{
    if n == f.len() {
        assert(f.take(n) =~= f);
    } else {
        assert(f.take(n + 1).drop_last() =~= f.take(n));
        product_stops(f, k, x, n + 1);
    }
}

proof fn sum_stops(t: Seq<(MonoV, real)>, k: Machine, x: PointV, n: int)
    requires
        0 <= n <= t.len(),
        sum_at(t.take(n), k, x) is None,
    ensures
        sum_at(t, k, x) is None,
    decreases t.len() - n,
{
    if n == t.len() {
        assert(t.take(n) =~= t);
    } else {
        assert(t.take(n + 1).drop_last() =~= t.take(n));
        sum_stops(t, k, x, n + 1);
    }
}

} // verus!
