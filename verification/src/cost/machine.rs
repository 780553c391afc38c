//! Costs at a machine: values where every atom has one, and the regimes that can occur.

use vstd::prelude::*;
use crate::cost::algebra::real_pow;
use crate::cost::forms::{ints, opt_real};
use crate::cost::model::{AtomV, MonoV, PolyV};
use crate::cost::piece::{c_prune, conds_v, pieces_v, Cond, CondV, Cost, Piece, PieceV};
use crate::cost::rat::{num, whole, Rat};
use crate::cost::root::{fine_power, int_pow, nat_pow, rat_fine_pow, rat_whole_pow};
use crate::cost::size::{atom_view_is, Atom, Mono, Poly};
use crate::cost::subst::{p_has_vars, p_vars};
use crate::num::{BigInt, BigNat, Side};

verus! {

/// The machine that costs are counted at.
#[derive(Debug, Clone, Copy)]
pub struct Machine {
    /// Bytes of the cache whose boundary moves are counted across.
    pub m_bytes: i128,
    /// Bytes per cache line.
    pub b_bytes: i128,
    /// Processors a parallel chain divides work over.
    pub p_cores: i128,
}

impl Machine {
    /// The sizes are positive.
    pub open spec fn ok(self) -> bool {
        self.m_bytes > 0 && self.b_bytes > 0
    }
}

/// A size variable and its value, if one is given.
pub type Given = Option<(int, real)>;

/// The value of an atom to a power; a variable has one where it is given, at natural powers.
pub open spec fn factor_at(a: AtomV, e: real, k: Machine, x: Given) -> Option<real> {
    match a {
        AtomV::B => Some(fine_power(k.b_bytes as real, e)),
        AtomV::M => Some(fine_power(k.m_bytes as real, e)),
        AtomV::Var(v) => match x {
            Some((w, n)) => if v == w && whole(e) && e >= 0real {
                Some(real_pow(n, num(e) as nat))
            } else {
                None
            },
            None => None,
        },
        _ => None,
    }
}

pub open spec fn mono_at(f: Seq<(AtomV, real)>, k: Machine, x: Given) -> Option<real>
    decreases f.len(),
{
    if f.len() == 0 {
        Some(1real)
    } else {
        match (mono_at(f.drop_last(), k, x), factor_at(f.last().0, f.last().1, k, x)) {
            (Some(a), Some(b)) => Some(a * b),
            _ => None,
        }
    }
}

/// The value of a sum, if every atom has one.
pub open spec fn poly_at(t: Seq<(MonoV, real)>, k: Machine, x: Given) -> Option<real>
    decreases t.len(),
{
    if t.len() == 0 {
        Some(0real)
    } else {
        match (poly_at(t.drop_last(), k, x), mono_at(t.last().0.factors, k, x)) {
            (Some(a), Some(b)) => Some(a + t.last().1 * b),
            _ => None,
        }
    }
}

/// The machine's powers in a product are not negative.
pub open spec fn powers_ok(f: Seq<(AtomV, real)>, k: Machine) -> bool {
    forall|i: int|
        0 <= i < f.len() ==> match (#[trigger] f[i]).0 {
            AtomV::B => fine_power(k.b_bytes as real, f[i].1) >= 0real,
            AtomV::M => fine_power(k.m_bytes as real, f[i].1) >= 0real,
            _ => true,
        }
}

pub open spec fn all_powers_ok(t: Seq<(MonoV, real)>, k: Machine) -> bool {
    forall|i: int| 0 <= i < t.len() ==> powers_ok((#[trigger] t[i]).0.factors, k)
}

pub open spec fn given_v(x: Option<(usize, Rat)>) -> Given {
    match x {
        Some(p) => Some((p.0 as int, p.1@)),
        None => None,
    }
}

#[verifier::loop_isolation(false)]
fn mono_value(m: &Mono, k: &Machine, x: &Option<(usize, Rat)>) -> (r: Option<Rat>)
    requires
        k.ok(),
        x is Some ==> (x->0).1@ > 0real,
    ensures
        opt_real(r) == mono_at(m@.factors, *k, given_v(*x)),
        r is Some ==> powers_ok(m@.factors, *k),
{
    let ghost f = m@.factors;
    let ghost xv = given_v(*x);
    let mut v = Rat::one();
    let mut i: usize = 0;
    proof {
        assert(f.take(0) =~= Seq::empty());
        assert(f.take(f.len() as int) =~= f);
    }
    while i < m.len()
        invariant
            i <= f.len(),
            mono_at(f.take(i as int), *k, xv) == Some(v@),
            forall|j: int|
                0 <= j < i ==> match (#[trigger] f[j]).0 {
                    AtomV::B => fine_power(k.b_bytes as real, f[j].1) >= 0real,
                    AtomV::M => fine_power(k.m_bytes as real, f[j].1) >= 0real,
                    _ => true,
                },
        decreases f.len() - i,
    {
        let a = m.atom_at(i);
        let e = m.exponent_at(i);
        proof {
            atom_view_is(*a);
            assert(f.take(i + 1).drop_last() =~= f.take(i as int));
            assert(f.take(i + 1).last() == f[i as int]);
        }
        let one: Option<Rat> = match a {
            Atom::B => Some(rat_fine_pow(&Rat::integer(k.b_bytes), e)),
            Atom::M => Some(rat_fine_pow(&Rat::integer(k.m_bytes), e)),
            Atom::Var(w) => match x {
                Some((u, n)) => {
                    if *u == *w && e.is_int() && !e.is_negative() {
                        proof {
                            whole_nonnegative(e@);
                        }
                        Some(rat_whole_pow(n, &e.numer()))
                    } else {
                        None
                    }
                },
                None => None,
            },
            _ => None,
        };
        match one {
            Some(b) => {
                v = v.mul(&b);
            },
            None => {
                proof {
                    mono_at_stops(f, *k, xv, i + 1);
                }
                return None;
            },
        }
        i += 1;
    }
    Some(v)
}

proof fn whole_nonnegative(e: real)
    requires
        whole(e),
        e >= 0real,
    ensures
        num(e) >= 0,
{
    let k = choose|k: int| e == #[trigger] crate::cost::rat::ratio(k, 1);
    crate::cost::rat::ratio_one(k);
    crate::cost::rat::whole_parts(k);
}

proof fn mono_at_stops(f: Seq<(AtomV, real)>, k: Machine, x: Given, n: int)
    requires
        0 <= n <= f.len(),
        mono_at(f.take(n), k, x) is None,
    ensures
        mono_at(f, k, x) is None,
    decreases f.len() - n,
{
    if n == f.len() {
        assert(f.take(n) =~= f);
    } else {
        assert(f.take(n + 1).drop_last() =~= f.take(n));
        mono_at_stops(f, k, x, n + 1);
    }
}

proof fn poly_at_stops(t: Seq<(MonoV, real)>, k: Machine, x: Given, n: int)
    requires
        0 <= n <= t.len(),
        poly_at(t.take(n), k, x) is None,
    ensures
        poly_at(t, k, x) is None,
    decreases t.len() - n,
{
    if n == t.len() {
        assert(t.take(n) =~= t);
    } else {
        assert(t.take(n + 1).drop_last() =~= t.take(n));
        poly_at_stops(t, k, x, n + 1);
    }
}

impl Poly {
    /// The value at the machine, where at most the given variable occurs.
    #[verifier::loop_isolation(false)]
    pub fn value_at(&self, k: &Machine, x: &Option<(usize, Rat)>) -> (r: Option<Rat>)
        requires
            k.ok(),
            x is Some ==> (x->0).1@ > 0real,
        ensures
            opt_real(r) == poly_at(self@.terms, *k, given_v(*x)),
            r is Some ==> all_powers_ok(self@.terms, *k),
    {
        let ghost t = self@.terms;
        let ghost xv = given_v(*x);
        let mut v = Rat::zero();
        let mut i: usize = 0;
        proof {
            assert(t.take(0) =~= Seq::empty());
            assert(t.take(t.len() as int) =~= t);
        }
        while i < self.len()
            invariant
                i <= t.len(),
                poly_at(t.take(i as int), *k, xv) == Some(v@),
                forall|j: int| 0 <= j < i ==> powers_ok((#[trigger] t[j]).0.factors, *k),
            decreases t.len() - i,
        {
            proof {
                assert(t.take(i + 1).drop_last() =~= t.take(i as int));
                assert(t.take(i + 1).last() == t[i as int]);
            }
            match mono_value(self.mono_at(i), k, x) {
                Some(b) => {
                    v = v.add(&self.coeff_at(i).mul(&b));
                },
                None => {
                    proof {
                        poly_at_stops(t, *k, xv, i + 1);
                    }
                    return None;
                },
            }
            i += 1;
        }
        Some(v)
    }
}

// ---- where a working set outgrows the cache ----

/// A working set grows with the variable: no coefficient is negative.
pub open spec fn grows(ws: PolyV) -> bool {
    forall|i: int| 0 <= i < ws.terms.len() ==> (#[trigger] ws.terms[i]).1 >= 0real
}

/// At `n` the working set does not fit.
pub open spec fn outgrown(ws: PolyV, v: int, n: nat, k: Machine) -> bool {
    match poly_at(ws.terms, k, Some((v, n as real))) {
        Some(w) => w * (k.b_bytes as real) >= k.m_bytes as real,
        None => false,
    }
}

/// A size, or no size at all.
#[derive(Clone, Copy)]
pub enum Reach {
    At(nat),
    Never,
}

/// Beyond this size a working set counts as never outgrown.
pub open spec fn horizon() -> nat {
    int_pow(2, 99) as nat
}

/// `n` is the smallest size at which the working set does not fit.
pub open spec fn first_outgrown(ws: PolyV, v: int, n: nat, k: Machine) -> bool {
    &&& n >= 1
    &&& outgrown(ws, v, n, k)
    &&& forall|j: nat| 1 <= j < n ==> !#[trigger] outgrown(ws, v, j, k)
}

/// The smallest size at which a working set in one variable does not fit; `None` where it is not
/// known to grow or has no value.
pub open spec fn threshold(ws: PolyV, v: int, k: Machine) -> Option<Reach> {
    if !grows(ws) || poly_at(ws.terms, k, Some((v, 1real))) is None {
        None
    } else if outgrown(ws, v, horizon(), k) {
        Some(Reach::At(choose|n: nat| first_outgrown(ws, v, n, k)))
    } else {
        Some(Reach::Never)
    }
}

proof fn real_pow_grows(a: real, b: real, k: nat)
    requires
        0real < a <= b,
    ensures
        0real < real_pow(a, k) <= real_pow(b, k),
    decreases k,
{
    if k > 0 {
        real_pow_grows(a, b, (k - 1) as nat);
        let (x, y) = (real_pow(a, (k - 1) as nat), real_pow(b, (k - 1) as nat));
        assert(0real < x * a <= y * b) by (nonlinear_arith)
            requires
                0real < x <= y,
                0real < a <= b,
        ;
    }
}

proof fn mono_grows(f: Seq<(AtomV, real)>, k: Machine, v: int, a: real, b: real)
    requires
        0real < a <= b,
        powers_ok(f, k),
        mono_at(f, k, Some((v, a))) is Some,
    ensures
        mono_at(f, k, Some((v, b))) is Some,
        0real <= mono_at(f, k, Some((v, a)))->0 <= mono_at(f, k, Some((v, b)))->0,
    decreases f.len(),
{
    if f.len() > 0 {
        let u = f.drop_last();
        assert(powers_ok(u, k)) by {
            assert forall|i: int| 0 <= i < u.len() implies match (#[trigger] u[i]).0 {
                AtomV::B => fine_power(k.b_bytes as real, u[i].1) >= 0real,
                AtomV::M => fine_power(k.m_bytes as real, u[i].1) >= 0real,
                _ => true,
            } by {
                assert(u[i] == f[i]);
            }
        }
        mono_grows(u, k, v, a, b);
        let last = f[f.len() - 1];
        let (x, y) = (mono_at(u, k, Some((v, a)))->0, mono_at(u, k, Some((v, b)))->0);
        let (p, q) = (factor_at(last.0, last.1, k, Some((v, a)))->0, factor_at(last.0, last.1, k, Some((v, b)))->0);
        if last.0 is Var {
            real_pow_grows(a, b, num(last.1) as nat);
        }
        assert(0real <= x * p <= y * q) by (nonlinear_arith)
            requires
                0real <= x <= y,
                0real <= p <= q,
        ;
    }
}

proof fn poly_grows(t: Seq<(MonoV, real)>, k: Machine, v: int, a: real, b: real)
    requires
        0real < a <= b,
        all_powers_ok(t, k),
        forall|i: int| 0 <= i < t.len() ==> (#[trigger] t[i]).1 >= 0real,
        poly_at(t, k, Some((v, a))) is Some,
    ensures
        poly_at(t, k, Some((v, b))) is Some,
        poly_at(t, k, Some((v, a)))->0 <= poly_at(t, k, Some((v, b)))->0,
    decreases t.len(),
{
    if t.len() > 0 {
        let u = t.drop_last();
        assert(all_powers_ok(u, k)) by {
            assert forall|i: int| 0 <= i < u.len() implies powers_ok((#[trigger] u[i]).0.factors, k) by {
                assert(u[i] == t[i]);
            }
        }
        assert forall|i: int| 0 <= i < u.len() implies (#[trigger] u[i]).1 >= 0real by {
            assert(u[i] == t[i]);
        }
        poly_grows(u, k, v, a, b);
        let last = t[t.len() - 1];
        mono_grows(last.0.factors, k, v, a, b);
        let (x, y, c) = (
            mono_at(last.0.factors, k, Some((v, a)))->0,
            mono_at(last.0.factors, k, Some((v, b)))->0,
            last.1,
        );
        assert(c * x <= c * y) by (nonlinear_arith)
            requires
                c >= 0real,
                x <= y,
        ;
    }
}

/// What does not fit at one size does not fit at a larger one.
pub proof fn outgrown_stays(ws: PolyV, v: int, a: nat, b: nat, k: Machine)
    requires
        1 <= a <= b,
        k.ok(),
        grows(ws),
        all_powers_ok(ws.terms, k),
        poly_at(ws.terms, k, Some((v, 1real))) is Some,
    ensures
        outgrown(ws, v, a, k) ==> outgrown(ws, v, b, k),
        poly_at(ws.terms, k, Some((v, b as real))) is Some,
{
    poly_grows(ws.terms, k, v, 1real, a as real);
    poly_grows(ws.terms, k, v, 1real, b as real);
    poly_grows(ws.terms, k, v, a as real, b as real);
    let (x, y, z) = (
        poly_at(ws.terms, k, Some((v, a as real)))->0,
        poly_at(ws.terms, k, Some((v, b as real)))->0,
        k.b_bytes as real,
    );
    assert(x * z <= y * z) by (nonlinear_arith)
        requires
            x <= y,
            z > 0real,
    ;
}

/// A threshold as the code holds it: `None` stands for never.
pub open spec fn reach_v(x: Option<BigNat>) -> Reach {
    match x {
        Some(n) => Reach::At(n@),
        None => Reach::Never,
    }
}

fn is_outgrown(ws: &Poly, v: usize, n: &BigNat, k: &Machine) -> (r: bool)
    requires
        k.ok(),
        n@ > 0,
    ensures
        r == outgrown(ws@, v as int, n@, *k),
{
    let at = Rat::quotient(&BigInt::from_nat(n.copy()), &BigNat::from_u128(1));
    proof {
        crate::cost::rat::ratio_one(n@ as int);
    }
    match ws.value_at(k, &Some((v, at))) {
        Some(w) => w.mul(&Rat::integer(k.b_bytes)).side(&Rat::integer(k.m_bytes)) != Side::Before,
        None => false,
    }
}

/// The smallest size at which the working set does not fit, found by bisection.
fn find_threshold(ws: &Poly, v: usize, k: &Machine) -> (r: Option<Option<BigNat>>)
    requires
        k.ok(),
    ensures
        match r {
            Some(x) => threshold(ws@, v as int, *k) == Some(reach_v(x)),
            None => threshold(ws@, v as int, *k) is None,
        },
        r matches Some(Some(n)) ==> n@ >= 1,
{
    let mut i: usize = 0;
    while i < ws.len()
        invariant
            i <= ws@.terms.len(),
            forall|j: int| 0 <= j < i ==> (#[trigger] ws@.terms[j]).1 >= 0real,
        decreases ws@.terms.len() - i,
    {
        if ws.coeff_at(i).is_negative() {
            proof {
                assert(ws@.terms[i as int].1 < 0real);
            }
            return None;
        }
        i += 1;
    }
    if ws.value_at(k, &Some((v, Rat::one()))).is_none() {
        return None;
    }
    let two = BigNat::from_u128(2);
    let one = BigNat::from_u128(1);
    let top = nat_pow(&two, &BigNat::from_u128(99));
    proof {
        crate::cost::root::int_pow_grows(1, 2, 99);
        one_pow(99);
    }
    if !is_outgrown(ws, v, &top, k) {
        return Some(None);
    }
    if is_outgrown(ws, v, &one, k) {
        proof {
            let n = choose|n: nat| first_outgrown(ws@, v as int, n, *k);
            assert(first_outgrown(ws@, v as int, 1, *k));
            assert(n == 1) by {
                if n > 1 {
                    assert(!outgrown(ws@, v as int, 1, *k));
                }
            }
        }
        return Some(Some(one));
    }
    let mut lo = one.copy();
    let mut hi = top;
    loop
        invariant
            k.ok(),
            one@ == 1,
            two@ == 2,
            1 <= lo@ < hi@,
            !outgrown(ws@, v as int, lo@, *k),
            outgrown(ws@, v as int, hi@, *k),
        ensures
            hi@ == lo@ + 1,
        decreases hi@ - lo@,
    {
        let up = lo.plus(&one);
        if up.side(&hi) == Side::Same {
            break;
        }
        let (mid, _rest) = lo.plus(&hi).div_rem(&two);
        if is_outgrown(ws, v, &mid, k) {
            hi = mid;
        } else {
            lo = mid;
        }
    }
    proof {
        assert forall|j: nat| 1 <= j < hi@ implies !#[trigger] outgrown(ws@, v as int, j, *k) by {
            outgrown_stays(ws@, v as int, j, lo@, *k);
        }
        let n = choose|n: nat| first_outgrown(ws@, v as int, n, *k);
        assert(first_outgrown(ws@, v as int, hi@, *k));
        if n < hi@ {
            assert(!outgrown(ws@, v as int, n, *k));
        }
        if hi@ < n {
            assert(!outgrown(ws@, v as int, hi@, *k));
        }
    }
    Some(Some(hi))
}

proof fn one_pow(k: nat)
    ensures
        int_pow(1, k) == 1,
    decreases k,
{
    if k > 0 {
        one_pow((k - 1) as nat);
    }
}

// ---- the regimes of a cost ----

/// Whether a condition without size variables holds at the machine.
pub open spec fn settled(c: CondV, k: Machine) -> Option<bool> {
    if p_has_vars(c.ws) {
        None
    } else {
        match poly_at(c.ws.terms, k, None) {
            Some(w) => Some((w * (k.b_bytes as real) < k.m_bytes as real) == c.fits),
            None => None,
        }
    }
}

/// The conditions that are open at the machine, or `None` where one fails.
pub open spec fn open_conds(s: Seq<CondV>, k: Machine) -> Option<Seq<CondV>>
    decreases s.len(),
{
    if s.len() == 0 {
        Some(s)
    } else {
        match open_conds(s.drop_last(), k) {
            None => None,
            Some(before) => match settled(s.last(), k) {
                Some(b) => if b {
                    Some(before)
                } else {
                    None
                },
                None => Some(before.push(s.last())),
            },
        }
    }
}

/// The variables of the conditions, one list after the other.
pub open spec fn conds_vars(s: Seq<CondV>) -> Seq<int>
    decreases s.len(),
{
    if s.len() == 0 {
        Seq::empty()
    } else {
        conds_vars(s.drop_last()) + p_vars(s.last().ws)
    }
}

/// The one variable of a list, if all are one.
pub open spec fn only(s: Seq<int>) -> Option<int> {
    if s.len() > 0 && forall|i: int| 0 <= i < s.len() ==> (#[trigger] s[i]) == s[0] {
        Some(s[0])
    } else {
        None
    }
}

/// The threshold of every condition, if each has one.
pub open spec fn thresholds(s: Seq<CondV>, v: int, k: Machine) -> Option<Seq<Reach>>
    decreases s.len(),
{
    if s.len() == 0 {
        Some(Seq::empty())
    } else {
        match (thresholds(s.drop_last(), v, k), threshold(s.last().ws, v, k)) {
            (Some(before), Some(t)) => Some(before.push(t)),
            _ => None,
        }
    }
}

pub open spec fn sooner(a: Reach, b: Reach) -> bool {
    match (a, b) {
        (Reach::At(x), Reach::At(y)) => x < y,
        (Reach::At(_), Reach::Never) => true,
        _ => false,
    }
}

/// The earliest threshold of a `fits`; never, if there is none.
pub open spec fn earliest_fit(s: Seq<CondV>, t: Seq<Reach>, n: nat) -> Reach
    decreases n,
{
    if n == 0 {
        Reach::Never
    } else {
        let before = earliest_fit(s, t, (n - 1) as nat);
        if s[n - 1].fits && sooner(t[n - 1], before) {
            t[n - 1]
        } else {
            before
        }
    }
}

/// The latest threshold of a `¬fits`, from `first` on.
pub open spec fn latest_miss(s: Seq<CondV>, t: Seq<Reach>, n: nat, first: nat) -> Reach
    decreases n,
{
    if n == 0 {
        Reach::At(first)
    } else {
        let before = latest_miss(s, t, (n - 1) as nat, first);
        if !s[n - 1].fits && sooner(before, t[n - 1]) {
            t[n - 1]
        } else {
            before
        }
    }
}

/// The intervals of the conditions do not meet on sizes of at least one: every size from the
/// latest miss on lies at or beyond the earliest fit.
pub open spec fn no_size(s: Seq<CondV>, t: Seq<Reach>) -> bool {
    match (latest_miss(s, t, s.len(), 1), earliest_fit(s, t, s.len())) {
        (Reach::At(l), Reach::At(h)) => l >= h,
        (Reach::Never, Reach::At(_)) => true,
        _ => false,
    }
}

/// The conditions among the first `n` that no tighter one of their kind implies.
pub open spec fn tight_conds(s: Seq<CondV>, t: Seq<Reach>, n: nat) -> Seq<CondV>
    decreases n,
{
    if n == 0 {
        Seq::empty()
    } else {
        let before = tight_conds(s, t, (n - 1) as nat);
        let keep = if s[n - 1].fits {
            !sooner(earliest_fit(s, t, s.len()), t[n - 1])
        } else {
            !sooner(t[n - 1], latest_miss(s, t, s.len(), 0))
        };
        if keep {
            before.push(s[n - 1])
        } else {
            before
        }
    }
}

/// A piece at the machine: gone where its conditions cannot hold, else with the conditions that
/// are open and tight.
pub open spec fn piece_at(p: PieceV, k: Machine) -> Option<PieceV> {
    match open_conds(p.conds, k) {
        None => None,
        Some(open) => {
            let loose = PieceV { conds: open, poly: p.poly };
            match only(conds_vars(open)) {
                None => Some(loose),
                Some(v) => match thresholds(open, v, k) {
                    None => Some(loose),
                    Some(t) => if no_size(open, t) {
                        None
                    } else {
                        Some(PieceV { conds: tight_conds(open, t, open.len()), poly: p.poly })
                    },
                },
            }
        },
    }
}

pub open spec fn pieces_at(s: Seq<PieceV>, k: Machine) -> Seq<PieceV>
    decreases s.len(),
{
    if s.len() == 0 {
        Seq::empty()
    } else {
        let before = pieces_at(s.drop_last(), k);
        match piece_at(s.last(), k) {
            Some(p) => before.push(p),
            None => before,
        }
    }
}

#[verifier::loop_isolation(false)]
fn conds_at(conds: &Vec<Cond>, k: &Machine) -> (r: Option<Vec<Cond>>)
    requires
        k.ok(),
    ensures
        match r {
            Some(v) => open_conds(conds_v(conds@), *k) == Some(conds_v(v@)),
            None => open_conds(conds_v(conds@), *k) is None,
        },
{
    let ghost cv = conds_v(conds@);
    let mut out: Vec<Cond> = Vec::new();
    let mut i: usize = 0;
    proof {
        assert(cv.take(0) =~= Seq::empty());
        assert(conds_v(out@) =~= Seq::empty());
        assert(cv.take(cv.len() as int) =~= cv);
    }
    while i < conds.len()
        invariant
            i <= cv.len(),
            open_conds(cv.take(i as int), *k) == Some(conds_v(out@)),
        decreases cv.len() - i,
    {
        let c = &conds[i];
        proof {
            assert(cv.take(i + 1).drop_last() =~= cv.take(i as int));
            assert(cv.take(i + 1).last() == c@);
        }
        let fact: Option<bool> = if c.ws.has_vars() {
            None
        } else {
            match c.ws.value_at(k, &None) {
                Some(w) => Some(
                    (w.mul(&Rat::integer(k.b_bytes)).side(&Rat::integer(k.m_bytes)) == Side::Before) == c.fits,
                ),
                None => None,
            }
        };
        match fact {
            Some(b) => {
                if !b {
                    proof {
                        open_stops(cv, *k, i + 1);
                    }
                    return None;
                }
            },
            None => {
                let ghost was = out@;
                out.push(c.copy());
                proof {
                    assert(conds_v(out@) =~= conds_v(was).push(c@));
                }
            },
        }
        i += 1;
    }
    Some(out)
}

proof fn open_stops(s: Seq<CondV>, k: Machine, n: int)
    requires
        0 <= n <= s.len(),
        open_conds(s.take(n), k) is None,
    ensures
        open_conds(s, k) is None,
    decreases s.len() - n,
{
    if n == s.len() {
        assert(s.take(n) =~= s);
    } else {
        assert(s.take(n + 1).drop_last() =~= s.take(n));
        open_stops(s, k, n + 1);
    }
}

proof fn thresholds_stop(s: Seq<CondV>, v: int, k: Machine, n: int)
    requires
        0 <= n <= s.len(),
        thresholds(s.take(n), v, k) is None,
    ensures
        thresholds(s, v, k) is None,
    decreases s.len() - n,
{
    if n == s.len() {
        assert(s.take(n) =~= s);
    } else {
        assert(s.take(n + 1).drop_last() =~= s.take(n));
        thresholds_stop(s, v, k, n + 1);
    }
}

/// The one variable of the conditions, if there is one.
#[verifier::loop_isolation(false)]
fn only_var(conds: &Vec<Cond>) -> (r: Option<usize>)
    ensures
        match r {
            Some(v) => only(conds_vars(conds_v(conds@))) == Some(v as int),
            None => only(conds_vars(conds_v(conds@))) is None,
        },
{
    let ghost cv = conds_v(conds@);
    let mut all: Vec<usize> = Vec::new();
    let mut i: usize = 0;
    proof {
        assert(cv.take(0) =~= Seq::empty());
        assert(ints(all@) =~= Seq::empty());
    }
    while i < conds.len()
        invariant
            i <= cv.len(),
            ints(all@) == conds_vars(cv.take(i as int)),
        decreases cv.len() - i,
    {
        proof {
            assert(cv.take(i + 1).drop_last() =~= cv.take(i as int));
            assert(cv.take(i + 1).last() == conds@[i as int]@);
        }
        let mut more = conds[i].ws.vars();
        let ghost (a, b) = (all@, more@);
        all.append(&mut more);
        proof {
            assert(ints(all@) =~= ints(a) + ints(b));
        }
        i += 1;
    }
    proof {
        assert(cv.take(i as int) =~= cv);
    }
    let ghost av = ints(all@);
    if all.len() == 0 {
        return None;
    }
    let v: usize = all[0];
    let mut j: usize = 0;
    while j < all.len()
        invariant
            j <= all@.len(),
            forall|l: int| 0 <= l < j ==> (#[trigger] all@[l]) == v,
        decreases all@.len() - j,
    {
        if all[j] != v {
            proof {
                assert(av[j as int] != av[0]);
            }
            return None;
        }
        j += 1;
    }
    proof {
        assert forall|l: int| 0 <= l < av.len() implies (#[trigger] av[l]) == av[0] by {
            assert(all@[l] == v);
        }
    }
    Some(v)
}

spec fn reaches_v(s: Seq<Option<BigNat>>) -> Seq<Reach> {
    Seq::new(s.len(), |i: int| reach_v(s[i]))
}

fn is_sooner(a: &Option<BigNat>, b: &Option<BigNat>) -> (r: bool)
    ensures
        r == sooner(reach_v(*a), reach_v(*b)),
{
    match (a, b) {
        (Some(x), Some(y)) => x.side(y) == Side::Before,
        (Some(_), None) => true,
        _ => false,
    }
}

fn copy_reach(a: &Option<BigNat>) -> (r: Option<BigNat>)
    ensures
        reach_v(r) == reach_v(*a),
{
    match a {
        Some(x) => Some(x.copy()),
        None => None,
    }
}

#[verifier::loop_isolation(false)]
fn find_thresholds(conds: &Vec<Cond>, v: usize, k: &Machine) -> (r: Option<Vec<Option<BigNat>>>)
    requires
        k.ok(),
    ensures
        match r {
            Some(t) => thresholds(conds_v(conds@), v as int, *k) == Some(reaches_v(t@)) && t@.len() == conds@.len(),
            None => thresholds(conds_v(conds@), v as int, *k) is None,
        },
{
    let ghost cv = conds_v(conds@);
    let mut out: Vec<Option<BigNat>> = Vec::new();
    let mut i: usize = 0;
    proof {
        assert(cv.take(0) =~= Seq::empty());
        assert(reaches_v(out@) =~= Seq::empty());
        assert(cv.take(cv.len() as int) =~= cv);
    }
    while i < conds.len()
        invariant
            i <= cv.len(),
            out@.len() == i,
            thresholds(cv.take(i as int), v as int, *k) == Some(reaches_v(out@)),
        decreases cv.len() - i,
    {
        proof {
            assert(cv.take(i + 1).drop_last() =~= cv.take(i as int));
            assert(cv.take(i + 1).last() == conds@[i as int]@);
        }
        match find_threshold(&conds[i].ws, v, k) {
            Some(t) => {
                let ghost was = out@;
                out.push(t);
                proof {
                    assert(reaches_v(out@) =~= reaches_v(was).push(reach_v(t)));
                }
            },
            None => {
                proof {
                    thresholds_stop(cv, v as int, *k, i + 1);
                }
                return None;
            },
        }
        i += 1;
    }
    Some(out)
}

fn find_earliest(conds: &Vec<Cond>, t: &Vec<Option<BigNat>>) -> (r: Option<BigNat>)
    requires
        t@.len() == conds@.len(),
    ensures
        reach_v(r) == earliest_fit(conds_v(conds@), reaches_v(t@), conds@.len()),
{
    let mut best: Option<BigNat> = None;
    let mut i: usize = 0;
    while i < conds.len()
        invariant
            i <= conds@.len(),
            t@.len() == conds@.len(),
            reach_v(best) == earliest_fit(conds_v(conds@), reaches_v(t@), i as nat),
        decreases conds@.len() - i,
    {
        if conds[i].fits && is_sooner(&t[i], &best) {
            best = copy_reach(&t[i]);
        }
        i += 1;
    }
    best
}

fn find_latest(conds: &Vec<Cond>, t: &Vec<Option<BigNat>>, first: u128) -> (r: Option<BigNat>)
    requires
        t@.len() == conds@.len(),
    ensures
        reach_v(r) == latest_miss(conds_v(conds@), reaches_v(t@), conds@.len(), first as nat),
{
    let mut best: Option<BigNat> = Some(BigNat::from_u128(first));
    let mut i: usize = 0;
    while i < conds.len()
        invariant
            i <= conds@.len(),
            t@.len() == conds@.len(),
            reach_v(best) == latest_miss(conds_v(conds@), reaches_v(t@), i as nat, first as nat),
        decreases conds@.len() - i,
    {
        if !conds[i].fits && is_sooner(&best, &t[i]) {
            best = copy_reach(&t[i]);
        }
        i += 1;
    }
    best
}

#[verifier::loop_isolation(false)]
fn keep_tight(conds: &Vec<Cond>, t: &Vec<Option<BigNat>>) -> (r: Vec<Cond>)
    requires
        t@.len() == conds@.len(),
    ensures
        conds_v(r@) == tight_conds(conds_v(conds@), reaches_v(t@), conds@.len()),
{
    let ghost cv = conds_v(conds@);
    let ghost tv = reaches_v(t@);
    let hi = find_earliest(conds, t);
    let lo = find_latest(conds, t, 0);
    let mut out: Vec<Cond> = Vec::new();
    let mut i: usize = 0;
    proof {
        assert(conds_v(out@) =~= Seq::empty());
    }
    while i < conds.len()
        invariant
            i <= cv.len(),
            conds_v(out@) == tight_conds(cv, tv, i as nat),
        decreases cv.len() - i,
    {
        let keep: bool = if conds[i].fits {
            !is_sooner(&hi, &t[i])
        } else {
            !is_sooner(&t[i], &lo)
        };
        if keep {
            let ghost was = out@;
            out.push(conds[i].copy());
            proof {
                assert(conds_v(out@) =~= conds_v(was).push(cv[i as int]));
            }
        }
        i += 1;
    }
    out
}

fn shown_at(p: &Piece, k: &Machine) -> (r: Option<Piece>)
    requires
        k.ok(),
    ensures
        match r {
            Some(q) => piece_at(p@, *k) == Some(q@),
            None => piece_at(p@, *k) is None,
        },
{
    // a condition without size variables is a fact at this machine: drop it if true, drop the
    // piece if false
    let open = match conds_at(&p.conds, k) {
        Some(c) => c,
        None => {
            return None;
        },
    };
    let v: usize = match only_var(&open) {
        Some(v) => v,
        None => {
            return Some(Piece { conds: open, poly: p.poly.copy() });
        },
    };
    let t = match find_thresholds(&open, v, k) {
        Some(t) => t,
        None => {
            return Some(Piece { conds: open, poly: p.poly.copy() });
        },
    };
    // intervals: fits → n < n₀; ¬fits → n ≥ n₀
    let lo = find_latest(&open, &t, 1);
    let hi = find_earliest(&open, &t);
    let empty: bool = match (&lo, &hi) {
        (Some(l), Some(h)) => l.side(h) != Side::Before,
        (None, Some(_)) => true,
        _ => false,
    };
    if empty {
        return None;
    }
    Some(Piece { conds: keep_tight(&open, &t), poly: p.poly.copy() })
}

impl Cost {
    /// Feasibility at the machine's `B` and `M`: when every condition of a piece mentions one
    /// size variable, each is an interval of it — `ws(n)·B < M` is `n < n₀` for the threshold
    /// `n₀`, found by bisection since a working set has nonnegative coefficients — and a piece
    /// whose intervals do not meet on `n ≥ 1` cannot hold. The pieces' conditions stay symbolic;
    /// only their feasibility is decided here, so another machine may keep more or fewer regimes.
    /// Conditions a piece's other conditions imply are dropped the same way.
    #[verifier::loop_isolation(false)]
    pub fn prune_at(&mut self, k: &Machine)
        requires
            k.ok(),
        ensures
            final(self)@ == c_prune(pieces_at(old(self)@, *k)),
    {
        let ghost s = self@;
        let mut kept: Vec<Piece> = Vec::new();
        let mut i: usize = 0;
        proof {
            assert(s.take(0) =~= Seq::empty());
            assert(pieces_v(kept@) =~= Seq::empty());
        }
        while i < self.pieces.len()
            invariant
                i <= s.len(),
                pieces_v(kept@) == pieces_at(s.take(i as int), *k),
            decreases s.len() - i,
        {
            proof {
                assert(s.take(i + 1).drop_last() =~= s.take(i as int));
                assert(s.take(i + 1).last() == self.pieces@[i as int]@);
            }
            match shown_at(&self.pieces[i], k) {
                Some(q) => {
                    let ghost was = kept@;
                    kept.push(q);
                    proof {
                        assert(pieces_v(kept@) =~= pieces_v(was).push(q@));
                    }
                },
                None => {},
            }
            i += 1;
        }
        proof {
            assert(s.take(i as int) =~= s);
        }
        self.pieces = kept;
        self.prune();
    }
}

} // verus!
