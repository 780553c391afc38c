//! Recurrences: the cost of a function that calls itself.
//!
//! The body's own cost (self-calls charged nothing) and the self-calls make a recurrence in some
//! measure `m` that every call shrinks: an `i64` parameter, `len − p`, or `hi − lo`. Shrinking by
//! a constant with one call is a sum, `T = f·m/c`; with more calls it is exponential and refused.
//! Shrinking by a factor `b` with `a` calls is the master theorem on the degree `d` of the body's
//! cost in `m`.

use vstd::prelude::*;
use crate::ast::views;
use crate::cost::algebra::{p_add, p_atom, p_mul, p_pow, p_rat, p_scale, p_sub, p_term, p_var, p_zero};
use crate::cost::assoc::bump;
use crate::cost::forms::{ints, opt_poly, p_const, p_degree_in};
use crate::cost::model::{AtomV, MonoV, PolyV};
use crate::cost::piece::{c_prune, conds_v, pieces_v, Cost, Piece, PieceV};
use crate::cost::rat::{num, ratio, ratio_one, whole, whole_parts, Rat};
use crate::cost::root::{int_pow, nat_pow};
use crate::cost::scope::{args_v, local_of, Cx, SelfCall, SelfCallV};
use crate::cost::show::{poly_text, show_poly};
use crate::cost::size::{atom_view_is, Atom, Poly};
use crate::cost::subst::{map_v, p_subst_many, p_vars};
use crate::cost::sums::p_sum_over;
use crate::ir::FuncV;
use crate::num::{BigInt, BigNat, Side};
use crate::text::{cat3, cat4, cat5, int_text, show_nat, show_u64, texts};

verus! {

/// How a measure shrinks from one call to the next.
pub enum Shrink {
    /// by at least a constant
    Linear(Rat),
    /// by a factor
    Div(u64),
}

pub enum ShrinkV {
    Linear(real),
    Div(int),
}

impl View for Shrink {
    type V = ShrinkV;

    open spec fn view(&self) -> ShrinkV {
        match *self {
            Shrink::Linear(c) => ShrinkV::Linear(c@),
            Shrink::Div(b) => ShrinkV::Div(b as int),
        }
    }
}

pub open spec fn opt_shrink(x: Option<Shrink>) -> Option<ShrinkV> {
    match x {
        Some(s) => Some(s@),
        None => None,
    }
}

/// How often the function calls itself per invocation.
pub open spec fn calls_made(s: Seq<SelfCallV>) -> PolyV
    decreases s.len(),
{
    if s.len() == 0 {
        p_zero()
    } else {
        p_add(calls_made(s.drop_last()), s.last().times)
    }
}

// ---- the measures ----

pub open spec fn param_is_i64(f: FuncV, i: int) -> bool {
    local_of(f, f.params[i]).ty is I64
}

pub open spec fn param_is_array(f: FuncV, i: int) -> bool {
    local_of(f, f.params[i]).ty.arrayish()
}

/// The `i64` parameters among the first `n`.
pub open spec fn plain_measures(f: FuncV, n: nat) -> Seq<PolyV>
    decreases n,
{
    if n == 0 {
        Seq::empty()
    } else {
        let before = plain_measures(f, (n - 1) as nat);
        if param_is_i64(f, n - 1) {
            before.push(p_var(n - 1))
        } else {
            before
        }
    }
}

/// What is left to parameter `i` of the first `n` parameters: those that are arrays, or the
/// other `i64` ones.
pub open spec fn measures_against(f: FuncV, i: int, arrays: bool, n: nat) -> Seq<PolyV>
    decreases n,
{
    if n == 0 {
        Seq::empty()
    } else {
        let before = measures_against(f, i, arrays, (n - 1) as nat);
        let fits = if arrays {
            param_is_array(f, n - 1)
        } else {
            n - 1 != i && param_is_i64(f, n - 1)
        };
        if fits {
            before.push(p_sub(p_var(n - 1), p_var(i)))
        } else {
            before
        }
    }
}

pub open spec fn gap_measures(f: FuncV, arrays: bool, n: nat) -> Seq<PolyV>
    decreases n,
{
    if n == 0 {
        Seq::empty()
    } else {
        let before = gap_measures(f, arrays, (n - 1) as nat);
        if param_is_i64(f, n - 1) {
            before + measures_against(f, n - 1, arrays, f.params.len())
        } else {
            before
        }
    }
}

/// The measures tried, in order: an `i64` parameter, `xs.len() − p`, and `hi − lo`.
pub open spec fn measures(f: FuncV) -> Seq<PolyV> {
    plain_measures(f, f.params.len()) + gap_measures(f, true, f.params.len()) + gap_measures(f, false, f.params.len())
}

// ---- how a call shrinks a measure ----

/// What a call hands over for the first `n` variables of a measure, if every one is a size.
pub open spec fn handed(args: Seq<Option<PolyV>>, vars: Seq<int>, n: nat) -> Option<Seq<(usize, PolyV)>>
    decreases n,
{
    if n == 0 {
        Some(Seq::empty())
    } else {
        let v = vars[n - 1];
        match handed(args, vars, (n - 1) as nat) {
            Some(m) => if 0 <= v < args.len() {
                match args[v] {
                    Some(p) => Some(m.push((v as usize, p))),
                    None => None,
                }
            } else {
                None
            },
            None => None,
        }
    }
}

/// The least factor from `b` to 8 by which `mp` falls short of `m`.
pub open spec fn least_factor(m: PolyV, mp: PolyV, b: int) -> Option<ShrinkV>
    decreases 9 - b,
{
    if b > 8 {
        None
    } else {
        match p_const(p_sub(p_scale(mp, b as real), m)) {
            Some(k) => if k <= 0real {
                Some(ShrinkV::Div(b))
            } else {
                least_factor(m, mp, b + 1)
            },
            None => least_factor(m, mp, b + 1),
        }
    }
}

pub open spec fn call_shrink(m: PolyV, args: Seq<Option<PolyV>>) -> Option<ShrinkV> {
    match handed(args, p_vars(m), p_vars(m).len()) {
        None => None,
        Some(map) => {
            let mp = p_subst_many(m, map);
            match p_const(p_sub(m, mp)) {
                Some(c) => if c > 0real && whole(c) {
                    Some(ShrinkV::Linear(c))
                } else {
                    None
                },
                None => least_factor(m, mp, 2),
            }
        },
    }
}

/// Two calls shrink the measure alike: by a constant each, the lesser, or by the same factor.
pub open spec fn both_shrink(a: ShrinkV, b: ShrinkV) -> Option<ShrinkV> {
    match (a, b) {
        (ShrinkV::Linear(x), ShrinkV::Linear(y)) => Some(
            ShrinkV::Linear(
                if x < y {
                    x
                } else {
                    y
                },
            ),
        ),
        (ShrinkV::Div(x), ShrinkV::Div(y)) => if x == y {
            Some(a)
        } else {
            None
        },
        _ => None,
    }
}

/// How the first `n` calls shrink a measure, when they all do and alike.
pub open spec fn calls_shrink(m: PolyV, s: Seq<SelfCallV>, n: nat) -> Option<ShrinkV>
    decreases n,
{
    if n == 0 {
        None
    } else if n == 1 {
        call_shrink(m, s[0].args)
    } else {
        match (calls_shrink(m, s, (n - 1) as nat), call_shrink(m, s[n - 1].args)) {
            (Some(a), Some(b)) => both_shrink(a, b),
            _ => None,
        }
    }
}

/// How each variable of the measure moves per call: `v ↦ v + δ`, when every one moves by a
/// constant.
pub open spec fn shifts(args: Seq<Option<PolyV>>, vars: Seq<int>, n: nat) -> Option<Seq<(usize, real)>>
    decreases n,
{
    if n == 0 {
        Some(Seq::empty())
    } else {
        let v = vars[n - 1];
        match shifts(args, vars, (n - 1) as nat) {
            Some(m) => if 0 <= v < args.len() {
                match args[v] {
                    Some(p) => match p_const(p_sub(p, p_var(v))) {
                        Some(d) => Some(m.push((v as usize, d))),
                        None => None,
                    },
                    None => None,
                }
            } else {
                None
            },
            None => None,
        }
    }
}

// ---- the solution ----

/// The variable that counts the calls of an unrolled recurrence.
pub open spec fn unrolled() -> int {
    usize::MAX / 2 - 1
}

/// `T(m) = f(m) + T(m − c)`: unrolled, `T = Σ_{j=0}^{m/c} f` with every parameter of `m` advanced
/// `j` steps along its shift — exact by summation.
pub open spec fn linear_total(f: PolyV, m: PolyV, c: real, sh: Option<Seq<(usize, real)>>) -> PolyV {
    let trip = p_add(p_scale(m, 1real / c), p_rat(1real));
    match sh {
        Some(s) => {
            let map = Seq::new(
                s.len(),
                |i: int| (s[i].0, p_add(p_var(s[i].0 as int), p_scale(p_var(unrolled()), s[i].1))),
            );
            p_sum_over(p_subst_many(f, map), unrolled(), p_zero(), 1, trip)
        },
        None => p_mul(f, trip),
    }
}

/// The least `r ≥ from` with `x ≤ b^(2r+1)`, where `p` is `b^(2·from+1)`.
pub open spec fn odd_power_reach(b: int, x: int, p: int, from: nat) -> nat
    decreases (if p < x { x - p } else { 0 }),
{
    if p >= x || p <= 0 || b < 2 {
        from
    } else if p * (b * b) > p {
        odd_power_reach(b, x, p * (b * b), from + 1)
    } else {
        from
    }
}

/// `log_b a` in thousandths, to the nearest: `b^(2r−1) < a^2000 ≤ b^(2r+1)`.
pub open spec fn log_thousandths(b: int, a: int) -> nat {
    odd_power_reach(b, int_pow(a, 2000), b, 0)
}

/// The `j ≥ from` with `b^j == a`, where `p` is `b^from`.
pub open spec fn exact_log(b: int, a: int, p: int, from: nat) -> Option<nat>
    decreases (if p < a { a - p } else { 0 }),
{
    if p == a {
        Some(from)
    } else if p > a || p <= 0 || b < 2 {
        None
    } else if p * b > p {
        exact_log(b, a, p * b, from + 1)
    } else {
        None
    }
}

/// `log_b 2`: exact for a power of two, else in thousandths.
pub open spec fn levels_per_bit(b: int) -> real {
    if b == 2 {
        1real
    } else if b == 4 {
        1real / 2real
    } else if b == 8 {
        1real / 3real
    } else {
        (log_thousandths(b, 2) as real) / 1000real
    }
}

pub open spec fn fractional_power() -> Seq<char> {
    "a fractional power of the measure in the body cost"@
}

/// `m` to the power `log_b a − d`: whole where `a` is a power of `b`, else in thousandths on a
/// measure that is one variable.
pub open spec fn lifted(m: PolyV, vars: Seq<int>, a: int, b: int, d: int) -> Result<PolyV, Seq<char>> {
    match exact_log(b, a, 1, 0) {
        Some(j) => Ok(p_pow(m, if j > d { (j - d) as nat } else { 0 })),
        None => if vars.len() == 1 {
            let v = vars[0];
            let e = (log_thousandths(b, a) as real) / 1000real - (d as real) - 1real;
            Ok(p_mul(p_var(v), p_term((MonoV { factors: bump(Seq::empty(), AtomV::Var(v), e) }), 1real)))
        } else {
            Err(
                "recurrence T = "@ + int_text(a) + "·T(m/"@ + int_text(b) + ") + Θ(m^"@ + int_text(d)
                    + ") has a non-integer exponent on a compound measure"@,
            )
        },
    }
}

/// `T(m) = a·T(m/b) + g(m)` for one product `g` of degree `d` in `m`: it is paid once per level
/// with weight `(a/b^d)^i`, `i = 0..log_b m` — a geometric series.
pub open spec fn term_total(g: PolyV, m: PolyV, vars: Seq<int>, a: int, b: int) -> Result<PolyV, Seq<char>> {
    let d = p_degree_in(g, vars);
    if !whole(d) || d < 0real {
        Err(fractional_power())
    } else {
        let bd = int_pow(b, num(d) as nat);
        if a < bd {
            // Σ (a/b^d)^i ≤ b^d / (b^d − a)
            Ok(p_scale(g, (bd as real) / ((bd - a) as real)))
        } else if a == bd {
            // log_b m + 1 levels, each paying g
            let levels = p_add(p_scale(p_atom(AtomV::Log(Box::new(m))), levels_per_bit(b)), p_rat(1real));
            Ok(p_mul(g, levels))
        } else {
            // ((a/b^d)^{L+1} − 1)/((a/b^d) − 1) with (a/b^d)^L = m^{log_b a − d}
            match lifted(m, vars, a, b, num(d)) {
                Ok(mk) => {
                    let r = (a as real) / (bd as real);
                    let top = p_sub(p_scale(mk, r), p_rat(1real));
                    Ok(p_scale(p_mul(g, top), 1real / (r - 1real)))
                },
                Err(e) => Err(e),
            }
        }
    }
}

pub open spec fn terms_total(t: Seq<(MonoV, real)>, m: PolyV, vars: Seq<int>, a: int, b: int) -> Result<PolyV, Seq<char>>
    decreases t.len(),
{
    if t.len() == 0 {
        Ok(p_zero())
    } else {
        match terms_total(t.drop_last(), m, vars, a, b) {
            Ok(before) => match term_total(p_term(t.last().0, t.last().1), m, vars, a, b) {
                Ok(x) => Ok(p_add(before, x)),
                Err(e) => Err(e),
            },
            Err(e) => Err(e),
        }
    }
}

pub open spec fn exponential(a: int, m: PolyV, names: Seq<Seq<char>>) -> Seq<char> {
    int_text(a) + " recursive calls each shrinking `"@ + poly_text(m, names) + "` by a constant: exponential"@
}

/// The recurrence over a measure: the calls per invocation, the measure and how it shrinks.
pub struct RuleV {
    pub a: int,
    pub m: PolyV,
    pub shrink: ShrinkV,
    pub shifts: Option<Seq<(usize, real)>>,
    pub names: Seq<Seq<char>>,
}

pub open spec fn poly_total(r: RuleV, f: PolyV) -> Result<PolyV, Seq<char>> {
    match r.shrink {
        ShrinkV::Linear(c) => if r.a > 1 {
            Err(exponential(r.a, r.m, r.names))
        } else {
            Ok(linear_total(f, r.m, c, r.shifts))
        },
        ShrinkV::Div(b) => terms_total(f.terms, r.m, p_vars(r.m), r.a, b),
    }
}

/// Each unconditional alternative of the body cost is solved on its own; a condition inside a
/// recursive body would shift with the unrolling and is not solved.
pub open spec fn pieces_total(r: RuleV, s: Seq<PieceV>) -> Result<Seq<PieceV>, Seq<char>>
    decreases s.len(),
{
    if s.len() == 0 {
        Ok(Seq::empty())
    } else {
        match pieces_total(r, s.drop_last()) {
            Ok(before) => if s.last().conds.len() != 0 {
                Err("a cache-dependent cost inside a recursive body is not solved yet"@)
            } else {
                match poly_total(r, s.last().poly) {
                    Ok(p) => Ok(before.push(PieceV { conds: Seq::empty(), poly: p })),
                    Err(e) => Err(e),
                }
            },
            Err(e) => Err(e),
        }
    }
}

pub open spec fn cost_total(r: RuleV, s: Seq<PieceV>) -> Result<Seq<PieceV>, Seq<char>> {
    match pieces_total(r, s) {
        Ok(p) => Ok(c_prune(p)),
        Err(e) => Err(e),
    }
}

/// The first measure from the `i`-th on that every call shrinks, and how.
pub open spec fn first_measure(s: Seq<SelfCallV>, ms: Seq<PolyV>, i: nat) -> Option<(PolyV, ShrinkV)>
    decreases ms.len() - i,
{
    if i >= ms.len() {
        None
    } else {
        match calls_shrink(ms[i as int], s, s.len()) {
            Some(sh) => Some((ms[i as int], sh)),
            None => first_measure(s, ms, i + 1),
        }
    }
}

pub type Totals = Result<(Seq<PieceV>, Seq<PieceV>), Seq<char>>;

/// The cost of a function that calls itself, from its body's own cost.
pub open spec fn recurrence(f: FuncV, names: Seq<Seq<char>>, s: Seq<SelfCallV>, work: Seq<PieceV>, moves: Seq<PieceV>) -> Totals {
    match p_const(calls_made(s)) {
        Some(c) => if whole(c) && c >= 1real {
            match first_measure(s, measures(f), 0) {
                Some((m, shrink)) => {
                    let r = RuleV {
                        a: num(c),
                        m,
                        shrink,
                        shifts: shifts(s[0].args, p_vars(m), p_vars(m).len()),
                        names,
                    };
                    match (cost_total(r, work), cost_total(r, moves)) {
                        (Ok(w), Ok(v)) => Ok((w, v)),
                        (Err(e), _) => Err(e),
                        (_, Err(e)) => Err(e),
                    }
                },
                None => Err(no_measure()),
            }
        } else {
            Err(calls_vary())
        },
        None => Err(calls_vary()),
    }
}

pub open spec fn calls_vary() -> Seq<char> {
    "the number of recursive calls per invocation depends on the input"@
}

pub open spec fn no_measure() -> Seq<char> {
    "no argument shrinks toward a base case across every recursive call; the measure must be an `i64` parameter, `xs.len() − p`, or `hi − lo`"@
}

// ---- the computation ----

impl Shrink {
    fn copy(&self) -> (r: Shrink)
        ensures
            r@ == self@,
    {
        match self {
            Shrink::Linear(c) => Shrink::Linear(c.copy()),
            Shrink::Div(b) => Shrink::Div(*b),
        }
    }
}

#[verifier::loop_isolation(false)]
fn count_calls(s: &Vec<SelfCall>) -> (r: Poly)
    ensures
        r@ == calls_made(views(s@)),
{
    let ghost v = views(s@);
    let mut acc = Poly::zero();
    let mut i: usize = 0;
    assert(v.take(0) =~= Seq::empty());
    while i < s.len()
        invariant
            i <= s@.len(),
            acc@ == calls_made(v.take(i as int)),
        decreases s@.len() - i,
    {
        assert(v.take(i + 1).drop_last() =~= v.take(i as int));
        assert(v.take(i + 1).last() == s@[i as int]@);
        acc = acc.add(&s[i].times);
        i += 1;
    }
    assert(v.take(i as int) =~= v);
    acc
}

#[verifier::loop_isolation(false)]
fn push_against(cx: &Cx, i: usize, arrays: bool, out: &mut Vec<Poly>)
    requires
        i < cx.f.params@.len(),
    ensures
        views(final(out)@) == views(old(out)@) + measures_against(cx@.f, i as int, arrays, cx@.f.params.len()),
{
    let ghost start = views(out@);
    let mut n: usize = 0;
    assert(start + Seq::<PolyV>::empty() =~= start);
    while n < cx.f.params.len()
        invariant
            n <= cx.f.params@.len(),
            views(out@) == start + measures_against(cx@.f, i as int, arrays, n as nat),
        decreases cx.f.params@.len() - n,
    {
        let fits = if arrays {
            cx.is_arrayish(cx.f.params[n])
        } else {
            n != i && cx.is_i64(cx.f.params[n])
        };
        if fits {
            let p = Poly::var(n).sub(&Poly::var(i));
            assert(views(out@.push(p)) =~= views(out@).push(p@));
            assert((start + measures_against(cx@.f, i as int, arrays, n as nat)).push(p@) =~= start + measures_against(
                cx@.f,
                i as int,
                arrays,
                n as nat,
            ).push(p@));
            out.push(p);
        }
        n += 1;
    }
}

#[verifier::loop_isolation(false)]
fn push_gaps(cx: &Cx, arrays: bool, out: &mut Vec<Poly>)
    ensures
        views(final(out)@) == views(old(out)@) + gap_measures(cx@.f, arrays, cx@.f.params.len()),
{
    let ghost start = views(out@);
    let mut n: usize = 0;
    assert(start + Seq::<PolyV>::empty() =~= start);
    while n < cx.f.params.len()
        invariant
            n <= cx.f.params@.len(),
            views(out@) == start + gap_measures(cx@.f, arrays, n as nat),
        decreases cx.f.params@.len() - n,
    {
        if cx.is_i64(cx.f.params[n]) {
            let ghost before = views(out@);
            push_against(cx, n, arrays, out);
            assert(before + measures_against(cx@.f, n as int, arrays, cx@.f.params.len()) =~= start + (gap_measures(
                cx@.f,
                arrays,
                n as nat,
            ) + measures_against(cx@.f, n as int, arrays, cx@.f.params.len())));
        }
        n += 1;
    }
}

#[verifier::loop_isolation(false)]
fn measures_of(cx: &Cx) -> (r: Vec<Poly>)
    ensures
        views(r@) == measures(cx@.f),
{
    let mut out: Vec<Poly> = Vec::new();
    let mut n: usize = 0;
    assert(views(out@) =~= Seq::empty());
    while n < cx.f.params.len()
        invariant
            n <= cx.f.params@.len(),
            views(out@) == plain_measures(cx@.f, n as nat),
        decreases cx.f.params@.len() - n,
    {
        if cx.is_i64(cx.f.params[n]) {
            let p = Poly::var(n);
            assert(views(out@.push(p)) =~= views(out@).push(p@));
            out.push(p);
        }
        n += 1;
    }
    push_gaps(cx, true, &mut out);
    push_gaps(cx, false, &mut out);
    out
}

pub open spec fn opt_map(x: Option<Vec<(usize, Poly)>>) -> Option<Seq<(usize, PolyV)>> {
    match x {
        Some(m) => Some(map_v(m@)),
        None => None,
    }
}

proof fn handed_fails(args: Seq<Option<PolyV>>, vars: Seq<int>, n: nat, k: nat)
    requires
        n <= k,
        handed(args, vars, n) is None,
    ensures
        handed(args, vars, k) is None,
    decreases k - n,
{
    if n < k {
        assert(handed(args, vars, n + 1) is None);
        handed_fails(args, vars, n + 1, k);
    }
}

#[verifier::loop_isolation(false)]
fn handed_over(args: &Vec<Option<Poly>>, vars: &Vec<usize>) -> (r: Option<Vec<(usize, Poly)>>)
    ensures
        opt_map(r) == handed(args_v(args@), ints(vars@), vars@.len()),
{
    let ghost av = args_v(args@);
    let ghost vv = ints(vars@);
    let mut out: Vec<(usize, Poly)> = Vec::new();
    let mut n: usize = 0;
    assert(map_v(out@) =~= Seq::empty());
    while n < vars.len()
        invariant
            n <= vars@.len(),
            handed(av, vv, n as nat) == Some(map_v(out@)),
        decreases vars@.len() - n,
    {
        let v = vars[n];
        assert(vv[n as int] == v);
        if v >= args.len() {
            proof {
                assert(handed(av, vv, (n + 1) as nat) is None);
                handed_fails(av, vv, (n + 1) as nat, vars@.len());
            }
            return None;
        }
        match &args[v] {
            Some(p) => {
                let x = (v, p.copy());
                assert(av[v as int] == Some(p@));
                assert(map_v(out@.push(x)) =~= map_v(out@).push((v, p@)));
                out.push(x);
            },
            None => {
                proof {
                    assert(av[v as int] is None);
                    assert(handed(av, vv, (n + 1) as nat) is None);
                    handed_fails(av, vv, (n + 1) as nat, vars@.len());
                }
                return None;
            },
        }
        n += 1;
    }
    Some(out)
}

fn factor_of(m: &Poly, mp: &Poly, from: u64) -> (r: Option<Shrink>)
    requires
        2 <= from <= 9,
    ensures
        opt_shrink(r) == least_factor(m@, mp@, from as int),
        r is Some ==> r->0 is Div && 2 <= (r->0)->Div_0 <= 8,
    decreases 9 - from,
{
    if from > 8 {
        return None;
    }
    match mp.scale(&Rat::integer(from as i128)).sub(m).as_const() {
        Some(k) => {
            if !k.is_positive() {
                Some(Shrink::Div(from))
            } else {
                factor_of(m, mp, from + 1)
            }
        },
        None => factor_of(m, mp, from + 1),
    }
}

/// A factor lies from 2 to 8, and a constant is positive.
pub open spec fn sound(s: ShrinkV) -> bool {
    match s {
        ShrinkV::Linear(c) => c > 0real,
        ShrinkV::Div(b) => 2 <= b <= 8,
    }
}

fn shrink_of(m: &Poly, args: &Vec<Option<Poly>>) -> (r: Option<Shrink>)
    ensures
        opt_shrink(r) == call_shrink(m@, args_v(args@)),
        r is Some ==> sound(r->0@),
{
    let vars = m.vars();
    match handed_over(args, &vars) {
        None => None,
        Some(map) => {
            let mp = m.subst_many(&map);
            match m.sub(&mp).as_const() {
                Some(c) => {
                    if c.is_positive() && c.is_int() {
                        Some(Shrink::Linear(c))
                    } else {
                        None
                    }
                },
                None => factor_of(m, &mp, 2),
            }
        },
    }
}

fn joint(a: Shrink, b: Shrink) -> (r: Option<Shrink>)
    ensures
        opt_shrink(r) == both_shrink(a@, b@),
        r is Some && sound(a@) && sound(b@) ==> sound(r->0@),
{
    match (a, b) {
        (Shrink::Linear(x), Shrink::Linear(y)) => {
            if x.side(&y) == Side::Before {
                Some(Shrink::Linear(x))
            } else {
                Some(Shrink::Linear(y))
            }
        },
        (Shrink::Div(x), Shrink::Div(y)) => {
            if x == y {
                Some(Shrink::Div(x))
            } else {
                None
            }
        },
        _ => None,
    }
}

proof fn shrink_fails(m: PolyV, s: Seq<SelfCallV>, n: nat, k: nat)
    requires
        0 < n <= k,
        calls_shrink(m, s, n) is None,
    ensures
        calls_shrink(m, s, k) is None,
    decreases k - n,
{
    if n < k {
        assert(calls_shrink(m, s, n + 1) is None);
        shrink_fails(m, s, n + 1, k);
    }
}

#[verifier::loop_isolation(false)]
fn shrink_of_all(m: &Poly, s: &Vec<SelfCall>) -> (r: Option<Shrink>)
    ensures
        opt_shrink(r) == calls_shrink(m@, views(s@), s@.len()),
        r is Some ==> sound(r->0@),
{
    let ghost v = views(s@);
    if s.len() == 0 {
        return None;
    }
    assert(v[0] == s@[0]@);
    let mut acc = match shrink_of(m, &s[0].args) {
        Some(x) => x,
        None => {
            proof {
                shrink_fails(m@, v, 1, s@.len());
            }
            return None;
        },
    };
    let mut i: usize = 1;
    while i < s.len()
        invariant
            1 <= i <= s@.len(),
            calls_shrink(m@, v, i as nat) == Some(acc@),
            sound(acc@),
        decreases s@.len() - i,
    {
        assert(v[i as int] == s@[i as int]@);
        let next = match shrink_of(m, &s[i].args) {
            Some(x) => joint(acc.copy(), x),
            None => None,
        };
        assert(opt_shrink(next) == calls_shrink(m@, v, (i + 1) as nat));
        match next {
            Some(x) => {
                acc = x;
            },
            None => {
                proof {
                    shrink_fails(m@, v, (i + 1) as nat, s@.len());
                }
                return None;
            },
        }
        i += 1;
    }
    Some(acc)
}

pub open spec fn shifts_v(s: Seq<(usize, Rat)>) -> Seq<(usize, real)> {
    Seq::new(s.len(), |i: int| (s[i].0, s[i].1@))
}

pub open spec fn opt_shifts(x: Option<Vec<(usize, Rat)>>) -> Option<Seq<(usize, real)>> {
    match x {
        Some(m) => Some(shifts_v(m@)),
        None => None,
    }
}

proof fn shifts_fail(args: Seq<Option<PolyV>>, vars: Seq<int>, n: nat, k: nat)
    requires
        n <= k,
        shifts(args, vars, n) is None,
    ensures
        shifts(args, vars, k) is None,
    decreases k - n,
{
    if n < k {
        assert(shifts(args, vars, n + 1) is None);
        shifts_fail(args, vars, n + 1, k);
    }
}

#[verifier::loop_isolation(false)]
fn shifts_of(args: &Vec<Option<Poly>>, vars: &Vec<usize>) -> (r: Option<Vec<(usize, Rat)>>)
    ensures
        opt_shifts(r) == shifts(args_v(args@), ints(vars@), vars@.len()),
{
    let ghost av = args_v(args@);
    let ghost vv = ints(vars@);
    let mut out: Vec<(usize, Rat)> = Vec::new();
    let mut n: usize = 0;
    assert(shifts_v(out@) =~= Seq::empty());
    while n < vars.len()
        invariant
            n <= vars@.len(),
            shifts(av, vv, n as nat) == Some(shifts_v(out@)),
        decreases vars@.len() - n,
    {
        let v = vars[n];
        assert(vv[n as int] == v);
        let moved: Option<Rat> = if v >= args.len() {
            None
        } else {
            assert(av[v as int] == opt_poly(args@[v as int]));
            match &args[v] {
                Some(p) => p.sub(&Poly::var(v)).as_const(),
                None => None,
            }
        };
        match moved {
            Some(d) => {
                let ghost dv = d@;
                assert(shifts_v(out@.push((v, d))) =~= shifts_v(out@).push((v, dv)));
                out.push((v, d));
            },
            None => {
                proof {
                    assert(shifts(av, vv, (n + 1) as nat) is None);
                    shifts_fail(av, vv, (n + 1) as nat, vars@.len());
                }
                return None;
            },
        }
        n += 1;
    }
    Some(out)
}

#[verifier::loop_isolation(false)]
fn total_linear(f: &Poly, m: &Poly, c: &Rat, sh: &Option<Vec<(usize, Rat)>>) -> (r: Poly)
    requires
        c@ > 0real,
    ensures
        r@ == linear_total(f@, m@, c@, opt_shifts(*sh)),
{
    let trip = m.scale(&Rat::one().over(c)).add(&Poly::constant(1));
    let counter: usize = usize::MAX / 2 - 1;
    match sh {
        Some(s) => {
            let ghost sv = shifts_v(s@);
            let mut map: Vec<(usize, Poly)> = Vec::new();
            let mut i: usize = 0;
            while i < s.len()
                invariant
                    i <= s@.len(),
                    map@.len() == i,
                    forall|j: int|
                        0 <= j < i ==> map@[j].0 == s@[j].0 && (#[trigger] map@[j]).1@ == p_add(
                            p_var(s@[j].0 as int),
                            p_scale(p_var(unrolled()), s@[j].1@),
                        ),
                decreases s@.len() - i,
            {
                map.push((s[i].0, Poly::var(s[i].0).add(&Poly::var(counter).scale(&s[i].1))));
                i += 1;
            }
            assert(map_v(map@) =~= Seq::new(
                sv.len(),
                |i: int| (sv[i].0, p_add(p_var(sv[i].0 as int), p_scale(p_var(unrolled()), sv[i].1))),
            ));
            f.subst_many(&map).sum_over(counter, &Poly::zero(), 1, &trip)
        },
        None => f.mul(&trip),
    }
}

fn power_reach(b: &BigNat, x: &BigNat) -> (r: BigNat)
    requires
        b@ >= 2,
    ensures
        r@ == odd_power_reach(b@ as int, x@ as int, b@ as int, 0),
{
    let bb = b.times(b);
    let one = BigNat::from_u128(1);
    let mut p = b.copy();
    let mut r = BigNat::zero();
    let ghost goal = odd_power_reach(b@ as int, x@ as int, b@ as int, 0);
    while p.side(x) == Side::Before
        invariant
            b@ >= 2,
            p@ > 0,
            bb@ == b@ * b@,
            one@ == 1,
            goal == odd_power_reach(b@ as int, x@ as int, p@ as int, r@),
        decreases (if p@ < x@ { x@ - p@ } else { 0 }),
    {
        proof {
            assert(b@ * b@ > 1) by (nonlinear_arith)
                requires
                    b@ >= 2,
            ;
            assert(p@ * (b@ * b@) > p@) by (nonlinear_arith)
                requires
                    p@ > 0,
                    b@ * b@ > 1,
            ;
        }
        p = p.times(&bb);
        r = r.plus(&one);
    }
    r
}

fn thousandths(b: &BigNat, a: &BigNat) -> (r: BigNat)
    requires
        b@ >= 2,
    ensures
        r@ == log_thousandths(b@ as int, a@ as int),
{
    power_reach(b, &nat_pow(a, &BigNat::from_u128(2000)))
}

fn log_of(b: &BigNat, a: &BigNat) -> (r: Option<BigNat>)
    requires
        b@ >= 2,
    ensures
        (match r {
            Some(j) => Some(j@),
            None => None::<nat>,
        }) == exact_log(b@ as int, a@ as int, 1, 0),
{
    let one = BigNat::from_u128(1);
    let mut p = BigNat::from_u128(1);
    let mut j = BigNat::zero();
    let ghost goal = exact_log(b@ as int, a@ as int, 1, 0);
    while p.side(a) == Side::Before
        invariant
            b@ >= 2,
            p@ > 0,
            one@ == 1,
            goal == exact_log(b@ as int, a@ as int, p@ as int, j@),
        decreases (if p@ < a@ { a@ - p@ } else { 0 }),
    {
        proof {
            assert(p@ * b@ > p@) by (nonlinear_arith)
                requires
                    p@ > 0,
                    b@ >= 2,
            ;
        }
        p = p.times(b);
        j = j.plus(&one);
    }
    if p.side(a) == Side::Same {
        Some(j)
    } else {
        None
    }
}

fn rat_nat(n: &BigNat) -> (r: Rat)
    ensures
        r@ == n@ as real,
{
    let r = Rat::quotient(&BigInt::from_nat(n.copy()), &BigNat::from_u128(1));
    proof {
        ratio_one(n@ as int);
    }
    r
}

fn bit_levels(b: u64) -> (r: Rat)
    requires
        b >= 2,
    ensures
        r@ == levels_per_bit(b as int),
{
    if b == 2 {
        Rat::one()
    } else if b == 4 {
        Rat::one().over(&Rat::integer(2))
    } else if b == 8 {
        Rat::one().over(&Rat::integer(3))
    } else {
        rat_nat(&thousandths(&BigNat::from_u128(b as u128), &BigNat::from_u128(2))).over(&Rat::integer(1000))
    }
}

fn lift(m: &Poly, vars: &Vec<usize>, a: &BigNat, b: u64, d: &BigNat) -> (r: Result<Poly, String>)
    requires
        b >= 2,
    ensures
        match r {
            Ok(p) => lifted(m@, ints(vars@), a@ as int, b as int, d@ as int) == Ok::<PolyV, Seq<char>>(p@),
            Err(e) => lifted(m@, ints(vars@), a@ as int, b as int, d@ as int) == Err::<PolyV, Seq<char>>(e@),
        },
{
    let bn = BigNat::from_u128(b as u128);
    match log_of(&bn, a) {
        Some(j) => {
            if j.side(d) == Side::After {
                Ok(m.pow_nat(&j.minus(d)))
            } else {
                Ok(m.pow_nat(&BigNat::zero()))
            }
        },
        None => {
            if vars.len() == 1 {
                let v = vars[0];
                let e = rat_nat(&thousandths(&bn, a)).over(&Rat::integer(1000)).sub(&rat_nat(d)).sub(&Rat::one());
                proof {
                    atom_view_is(Atom::Var(v));
                    assert(ints(vars@)[0] == v);
                }
                Ok(Poly::var(v).mul_atom_pow(Atom::Var(v), &e))
            } else {
                let head = cat5(
                    "recurrence T = ",
                    &show_nat(a),
                    "·T(m/",
                    &show_u64(b),
                    ") + Θ(m^",
                );
                Err(cat3(
                    &head,
                    &show_nat(d),
                    ") has a non-integer exponent on a compound measure",
                ))
            }
        },
    }
}

pub open spec fn told<T, V>(r: Result<T, String>, ok: spec_fn(T) -> V) -> Result<V, Seq<char>> {
    match r {
        Ok(x) => Ok(ok(x)),
        Err(e) => Err(e@),
    }
}

fn total_of_term(g: &Poly, m: &Poly, vars: &Vec<usize>, a: &BigNat, b: u64) -> (r: Result<Poly, String>)
    requires
        b >= 2,
    ensures
        told(r, |p: Poly| p@) == term_total(g@, m@, ints(vars@), a@ as int, b as int),
{
    let d = g.degree_in(vars);
    if !d.is_int() || d.is_negative() {
        return Err("a fractional power of the measure in the body cost".to_owned());
    }
    proof {
        assert(d@ >= 0real);
        degree_whole(d@);
    }
    let dn = d.numer().magnitude();
    let bd = nat_pow(&BigNat::from_u128(b as u128), &dn);
    match a.side(&bd) {
        Side::Before => {
            let gap = rat_nat(&bd.minus(a));
            Ok(g.scale(&rat_nat(&bd).over(&gap)))
        },
        Side::Same => {
            let log = Atom::Log(Box::new(m.copy()));
            proof {
                atom_view_is(log);
            }
            let levels = Poly::atom(log).scale(&bit_levels(b)).add(&Poly::constant(1));
            Ok(g.mul(&levels))
        },
        Side::After => match lift(m, vars, a, b, &dn) {
            Ok(mk) => {
                proof {
                    int_pow_positive(b as int, dn@);
                    ratio_above_one(a@ as int, bd@ as int);
                }
                let r = rat_nat(a).over(&rat_nat(&bd));
                let top = mk.scale(&r).sub(&Poly::constant(1));
                Ok(g.mul(&top).scale(&Rat::one().over(&r.sub(&Rat::one()))))
            },
            Err(e) => Err(e),
        },
    }
}

proof fn degree_whole(d: real)
    requires
        whole(d),
        d >= 0real,
    ensures
        num(d) >= 0,
{
    let k = choose|k: int| d == #[trigger] ratio(k, 1);
    ratio_one(k);
    whole_parts(k);
}

proof fn int_pow_positive(b: int, k: nat)
    requires
        b >= 1,
    ensures
        int_pow(b, k) >= 1,
    decreases k,
{
    if k > 0 {
        int_pow_positive(b, (k - 1) as nat);
        assert(int_pow(b, (k - 1) as nat) * b >= 1) by (nonlinear_arith)
            requires
                int_pow(b, (k - 1) as nat) >= 1,
                b >= 1,
        ;
    }
}

proof fn ratio_above_one(a: int, b: int)
    requires
        a > b >= 1,
    ensures
        (a as real) / (b as real) - 1real != 0real,
{
    let x = a as real;
    let y = b as real;
    assert(x / y != 1real) by (nonlinear_arith)
        requires
            x > y,
            y >= 1real,
    ;
}

proof fn terms_fail(t: Seq<(MonoV, real)>, n: int, m: PolyV, vars: Seq<int>, a: int, b: int)
    requires
        0 <= n <= t.len(),
        terms_total(t.take(n), m, vars, a, b) is Err,
    ensures
        terms_total(t, m, vars, a, b) == terms_total(t.take(n), m, vars, a, b),
    decreases t.len() - n,
{
    if n == t.len() {
        assert(t.take(n) =~= t);
    } else {
        assert(t.take(n + 1).drop_last() =~= t.take(n));
        terms_fail(t, n + 1, m, vars, a, b);
    }
}

#[verifier::loop_isolation(false)]
fn total_of_terms(f: &Poly, m: &Poly, vars: &Vec<usize>, a: &BigNat, b: u64) -> (r: Result<Poly, String>)
    requires
        b >= 2,
    ensures
        told(r, |p: Poly| p@) == terms_total(f@.terms, m@, ints(vars@), a@ as int, b as int),
{
    let ghost t = f@.terms;
    let ghost vv = ints(vars@);
    let mut total = Poly::zero();
    let mut i: usize = 0;
    assert(t.take(0) =~= Seq::empty());
    while i < f.len()
        invariant
            i <= t.len(),
            terms_total(t.take(i as int), m@, vv, a@ as int, b as int) == Ok::<PolyV, Seq<char>>(total@),
        decreases t.len() - i,
    {
        proof {
            assert(t.take(i + 1).drop_last() =~= t.take(i as int));
            assert(t.take(i + 1).last() == t[i as int]);
        }
        let g = Poly::term(f.mono_at(i).copy(), f.coeff_at(i).copy());
        match total_of_term(&g, m, vars, a, b) {
            Ok(x) => {
                total = total.add(&x);
            },
            Err(e) => {
                proof {
                    assert(terms_total(t.take(i + 1), m@, vv, a@ as int, b as int) == Err::<PolyV, Seq<char>>(e@));
                    terms_fail(t, i + 1, m@, vv, a@ as int, b as int);
                }
                return Err(e);
            },
        }
        i += 1;
    }
    assert(t.take(i as int) =~= t);
    Ok(total)
}

/// The recurrence over a measure.
struct Rule<'a> {
    a: BigNat,
    m: &'a Poly,
    vars: Vec<usize>,
    shrink: Shrink,
    shifts: Option<Vec<(usize, Rat)>>,
    names: &'a Vec<String>,
}

impl<'a> Rule<'a> {
    spec fn is(self, v: RuleV) -> bool {
        &&& v.a == self.a@
        &&& v.m == self.m@
        &&& v.shrink == self.shrink@
        &&& v.shifts == opt_shifts(self.shifts)
        &&& v.names == texts(self.names@)
        &&& ints(self.vars@) == p_vars(self.m@)
        &&& sound(self.shrink@)
    }

    fn total(&self, f: &Poly, Ghost(v): Ghost<RuleV>) -> (r: Result<Poly, String>)
        requires
            self.is(v),
        ensures
            told(r, |p: Poly| p@) == poly_total(v, f@),
    {
        match &self.shrink {
            Shrink::Linear(c) => {
                if self.a.side(&BigNat::from_u128(1)) == Side::After {
                    Err(cat4(
                        &show_nat(&self.a),
                        " recursive calls each shrinking `",
                        &show_poly(self.m, self.names),
                        "` by a constant: exponential",
                    ))
                } else {
                    Ok(total_linear(f, self.m, c, &self.shifts))
                }
            },
            Shrink::Div(b) => total_of_terms(f, self.m, &self.vars, &self.a, *b),
        }
    }

    #[verifier::loop_isolation(false)]
    fn total_cost(&self, c: &Cost, Ghost(v): Ghost<RuleV>) -> (r: Result<Cost, String>)
        requires
            self.is(v),
        ensures
            told(r, |x: Cost| x@) == cost_total(v, c@),
    {
        let ghost s = c@;
        let mut out: Vec<Piece> = Vec::new();
        let mut i: usize = 0;
        assert(s.take(0) =~= Seq::empty());
        assert(pieces_v(out@) =~= Seq::empty());
        while i < c.pieces.len()
            invariant
                i <= c.pieces@.len(),
                pieces_total(v, s.take(i as int)) == Ok::<Seq<PieceV>, Seq<char>>(pieces_v(out@)),
            decreases c.pieces@.len() - i,
        {
            let piece = &c.pieces[i];
            proof {
                assert(s.take(i + 1).drop_last() =~= s.take(i as int));
                assert(s.take(i + 1).last() == piece@);
            }
            if piece.conds.len() != 0 {
                proof {
                    pieces_fail(v, s, i + 1);
                }
                return Err("a cache-dependent cost inside a recursive body is not solved yet".to_owned());
            }
            match self.total(&piece.poly, Ghost(v)) {
                Ok(p) => {
                    let x = Piece { conds: Vec::new(), poly: p };
                    assert(conds_v(x.conds@) =~= Seq::empty());
                    assert(pieces_v(out@.push(x)) =~= pieces_v(out@).push(x@));
                    out.push(x);
                },
                Err(e) => {
                    proof {
                        pieces_fail(v, s, i + 1);
                    }
                    return Err(e);
                },
            }
            i += 1;
        }
        assert(s.take(i as int) =~= s);
        Ok(Cost::from_pieces(out))
    }
}

proof fn pieces_fail(r: RuleV, s: Seq<PieceV>, n: int)
    requires
        0 <= n <= s.len(),
        pieces_total(r, s.take(n)) is Err,
    ensures
        pieces_total(r, s) == pieces_total(r, s.take(n)),
    decreases s.len() - n,
{
    if n == s.len() {
        assert(s.take(n) =~= s);
    } else {
        assert(s.take(n + 1).drop_last() =~= s.take(n));
        pieces_fail(r, s, n + 1);
    }
}

/// The cost of a function that calls itself, from its body's own cost.
#[verifier::loop_isolation(false)]
pub fn solve_recurrence(cx: &Cx, names: &Vec<String>, s: &Vec<SelfCall>, work: &Cost, moves: &Cost) -> (r: Result<
    (Cost, Cost),
    String,
>)
    ensures
        told(r, |c: (Cost, Cost)| (c.0@, c.1@)) == recurrence(cx@.f, texts(names@), views(s@), work@, moves@),
{
    let ghost sv = views(s@);
    let c = match count_calls(s).as_const() {
        Some(c) => c,
        None => {
            return Err("the number of recursive calls per invocation depends on the input".to_owned());
        },
    };
    if !c.is_int() || c.side(&Rat::one()) == Side::Before {
        return Err("the number of recursive calls per invocation depends on the input".to_owned());
    }
    let ms = measures_of(cx);
    let ghost mv = views(ms@);
    let mut i: usize = 0;
    while i < ms.len()
        invariant
            i <= ms@.len(),
            first_measure(sv, mv, 0) == first_measure(sv, mv, i as nat),
        decreases ms@.len() - i,
    {
        let m = &ms[i];
        assert(mv[i as int] == m@);
        match shrink_of_all(m, s) {
            Some(shrink) => {
                let vars = m.vars();
                assert(s@.len() > 0);
                assert(sv[0] == s@[0]@);
                let shifts = shifts_of(&s[0].args, &vars);
                proof {
                    degree_whole(c@);
                }
                let ghost v = RuleV {
                    a: num(c@),
                    m: m@,
                    shrink: shrink@,
                    shifts: opt_shifts(shifts),
                    names: texts(names@),
                };
                let rule = Rule { a: c.numer().magnitude(), m, vars, shrink, shifts, names };
                return match rule.total_cost(work, Ghost(v)) {
                    Ok(w) => match rule.total_cost(moves, Ghost(v)) {
                        Ok(x) => Ok((w, x)),
                        Err(e) => Err(e),
                    },
                    Err(e) => Err(e),
                };
            },
            None => {},
        }
        i += 1;
    }
    Err(
        "no argument shrinks toward a base case across every recursive call; the measure must be an `i64` parameter, `xs.len() − p`, or `hi − lo`".to_owned(),
    )
}

} // verus!
