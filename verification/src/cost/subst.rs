//! What a polynomial mentions, and putting polynomials in the place of variables.

use vstd::prelude::*;
use crate::cost::algebra::{p_add, p_mul, p_pow, p_term, p_var, p_zero};
use crate::cost::assoc::{bump, bump_value, canonical, sorted, value, Ranked};
use crate::cost::model::{AtomV, MonoV, OpaqueV, PolyV};
use crate::cost::rat::{num, ratio, whole, Rat};
use crate::cost::size::{arg_v, atom_view_is, opaque_view_is, Atom, Mono, Opaque, Poly};
use crate::num::BigNat;
use crate::text::{copy_text, texts};

verus! {

/// Some atom of the polynomial stands for a size, or for a cost in sizes.
pub open spec fn p_has_vars(p: PolyV) -> bool {
    exists|i: int, j: int|
        #![trigger p.terms[i].0.factors[j]]
        0 <= i < p.terms.len() && 0 <= j < p.terms[i].0.factors.len() && sized(p.terms[i].0.factors[j].0)
}

pub open spec fn sized(a: AtomV) -> bool {
    a is Var || a is Log || a is Opaque
}

/// The monomial has an unknown cost in it.
pub open spec fn m_has_opaque(m: MonoV) -> bool {
    exists|j: int| 0 <= j < m.factors.len() && (#[trigger] m.factors[j]).0 is Opaque
}

/// Some term is an unknown cost.
pub open spec fn p_has_opaque(p: PolyV) -> bool {
    exists|i: int| 0 <= i < p.terms.len() && m_has_opaque((#[trigger] p.terms[i]).0)
}

/// The variable occurs, at any depth.
pub open spec fn p_mentions(p: PolyV, v: int) -> bool
    decreases p,
{
    exists|i: int, j: int|
        #![trigger p.terms[i].0.factors[j]]
        0 <= i < p.terms.len() && 0 <= j < p.terms[i].0.factors.len() && a_mentions(p.terms[i].0.factors[j].0, v)
}

pub open spec fn a_mentions(a: AtomV, v: int) -> bool
    decreases a,
{
    match a {
        AtomV::Var(i) => i == v,
        AtomV::Log(q) => p_mentions(*q, v),
        AtomV::Opaque(o) => exists|i: int|
            #![trigger o.args[i]]
            0 <= i < o.args.len() && arg_mentions(o.args[i], v),
        _ => false,
    }
}

pub open spec fn arg_mentions(a: Option<PolyV>, v: int) -> bool
    decreases a,
{
    match a {
        Some(p) => p_mentions(p, v),
        None => false,
    }
}

/// `s` with `x` at its end, unless it is there already.
pub open spec fn with_new<T>(s: Seq<T>, x: T) -> Seq<T> {
    if s.contains(x) {
        s
    } else {
        s.push(x)
    }
}

pub open spec fn with_all_new<T>(s: Seq<T>, t: Seq<T>) -> Seq<T>
    decreases t.len(),
{
    if t.len() == 0 {
        s
    } else {
        with_new(with_all_new(s, t.drop_last()), t.last())
    }
}

/// The size variables in the order in which they first occur, at any depth.
pub open spec fn p_vars(p: PolyV) -> Seq<int>
    decreases p,
{
    terms_vars(p.terms)
}

pub open spec fn terms_vars(t: Seq<(MonoV, real)>) -> Seq<int>
    decreases t,
{
    if t.len() == 0 {
        Seq::empty()
    } else {
        factors_vars(terms_vars(t.drop_last()), t.last().0.factors)
    }
}

pub open spec fn factors_vars(out: Seq<int>, f: Seq<(AtomV, real)>) -> Seq<int>
    decreases f,
{
    if f.len() == 0 {
        out
    } else {
        let before = factors_vars(out, f.drop_last());
        match f.last().0 {
            AtomV::Var(i) => with_new(before, i),
            AtomV::Log(q) => with_all_new(before, p_vars(*q)),
            AtomV::Opaque(o) => args_vars(before, o.args),
            _ => before,
        }
    }
}

pub open spec fn args_vars(out: Seq<int>, a: Seq<Option<PolyV>>) -> Seq<int>
    decreases a,
{
    if a.len() == 0 {
        out
    } else {
        let before = args_vars(out, a.drop_last());
        match a.last() {
            Some(p) => with_all_new(before, p_vars(p)),
            None => before,
        }
    }
}

pub open spec fn larger(a: Option<int>, b: Option<int>) -> Option<int> {
    match (a, b) {
        (Some(x), Some(y)) => Some(if x < y { y } else { x }),
        (Some(x), None) => Some(x),
        (None, _) => b,
    }
}

/// The largest index of a variable that occurs, at any depth.
pub open spec fn p_max_var(p: PolyV) -> Option<int>
    decreases p,
{
    terms_max_var(p.terms)
}

pub open spec fn terms_max_var(t: Seq<(MonoV, real)>) -> Option<int>
    decreases t,
{
    if t.len() == 0 {
        None
    } else {
        larger(terms_max_var(t.drop_last()), factors_max_var(t.last().0.factors))
    }
}

pub open spec fn factors_max_var(f: Seq<(AtomV, real)>) -> Option<int>
    decreases f,
{
    if f.len() == 0 {
        None
    } else {
        larger(
            factors_max_var(f.drop_last()),
            match f.last().0 {
                AtomV::Var(i) => Some(i),
                AtomV::Log(q) => p_max_var(*q),
                AtomV::Opaque(o) => args_max_var(o.args),
                _ => None,
            },
        )
    }
}

pub open spec fn args_max_var(a: Seq<Option<PolyV>>) -> Option<int>
    decreases a,
{
    if a.len() == 0 {
        None
    } else {
        larger(
            args_max_var(a.drop_last()),
            match a.last() {
                Some(p) => p_max_var(p),
                None => None,
            },
        )
    }
}

/// The callees whose unknown costs the terms name, each once, after those in `out`.
pub open spec fn terms_callees(out: Seq<Seq<char>>, t: Seq<(MonoV, real)>) -> Seq<Seq<char>>
    decreases t.len(),
{
    if t.len() == 0 {
        out
    } else {
        factors_callees(terms_callees(out, t.drop_last()), t.last().0.factors)
    }
}

pub open spec fn factors_callees(out: Seq<Seq<char>>, f: Seq<(AtomV, real)>) -> Seq<Seq<char>>
    decreases f.len(),
{
    if f.len() == 0 {
        out
    } else {
        let before = factors_callees(out, f.drop_last());
        match f.last().0 {
            AtomV::Opaque(o) => with_new(before, o.callee),
            _ => before,
        }
    }
}

/// The exponent as a count: a natural number is itself, anything else is no power at all.
pub open spec fn count_of(e: real) -> nat {
    if whole(e) && e >= 0real {
        num(e) as nat
    } else {
        0
    }
}

/// `by` put in the place of the variable `v`.
#[verifier::opaque]
pub open spec fn p_subst(p: PolyV, v: int, by: PolyV) -> PolyV
    decreases p,
{
    terms_subst(p.terms, v, by)
}

pub open spec fn terms_subst(t: Seq<(MonoV, real)>, v: int, by: PolyV) -> PolyV
    decreases t,
{
    if t.len() == 0 {
        p_zero()
    } else {
        p_add(
            terms_subst(t.drop_last(), v, by),
            p_mul(
                p_term(MonoV { factors: factors_subst(t.last().0.factors, v, by) }, t.last().1),
                p_pow(by, count_of(value(t.last().0.factors, AtomV::Var(v)))),
            ),
        )
    }
}

/// The factors but for the variable itself, with the substitution made inside logarithms and
/// arguments.
pub open spec fn factors_subst(f: Seq<(AtomV, real)>, v: int, by: PolyV) -> Seq<(AtomV, real)>
    decreases f,
{
    if f.len() == 0 {
        Seq::empty()
    } else {
        let before = factors_subst(f.drop_last(), v, by);
        if f.last().0 == AtomV::Var(v) {
            before
        } else {
            bump(before, a_subst(f.last().0, v, by), f.last().1)
        }
    }
}

pub open spec fn a_subst(a: AtomV, v: int, by: PolyV) -> AtomV
    decreases a,
{
    match a {
        AtomV::Log(q) => AtomV::Log(Box::new(p_subst(*q, v, by))),
        AtomV::Opaque(o) => AtomV::Opaque(
            Box::new(
                OpaqueV {
                    callee: o.callee,
                    moves: o.moves,
                    args: Seq::new(
                        o.args.len(),
                        |i: int|
                            if 0 <= i < o.args.len() {
                                arg_subst(o.args[i], v, by)
                            } else {
                                None
                            },
                    ),
                },
            ),
        ),
        _ => a,
    }
}

pub open spec fn arg_subst(a: Option<PolyV>, v: int, by: PolyV) -> Option<PolyV>
    decreases a,
{
    match a {
        Some(p) => Some(p_subst(p, v, by)),
        None => None,
    }
}

/// Where replaced variables wait while several are replaced at once.
pub open spec fn parked(i: int) -> int {
    1_000_000 + i
}

/// Each variable of `map` moved to its waiting place.
pub open spec fn p_park(p: PolyV, map: Seq<(usize, PolyV)>, n: nat) -> PolyV
    decreases n,
{
    if n == 0 {
        p
    } else {
        p_subst(p_park(p, map, (n - 1) as nat), map[n - 1].0 as int, p_var(parked(n - 1)))
    }
}

/// Each waiting variable replaced by what `map` has for it.
pub open spec fn p_unpark(p: PolyV, map: Seq<(usize, PolyV)>, n: nat) -> PolyV
    decreases n,
{
    if n == 0 {
        p
    } else {
        p_subst(p_unpark(p, map, (n - 1) as nat), parked(n - 1), map[n - 1].1)
    }
}

/// Several variables replaced at once, so what replaces them may mention them; none where there
/// are more than there are places to wait in.
pub open spec fn p_subst_many(p: PolyV, map: Seq<(usize, PolyV)>) -> PolyV {
    if parked(map.len() as int) <= usize::MAX {
        p_unpark(p_park(p, map, map.len()), map, map.len())
    } else {
        p
    }
}

/// The values of a substitution.
pub open spec fn map_v(map: Seq<(usize, Poly)>) -> Seq<(usize, PolyV)> {
    Seq::new(map.len(), |i: int| (map[i].0, map[i].1@))
}

/// Which arguments of unknown costs are not to be shown.
pub type Veil = spec_fn(PolyV) -> bool;

/// The same polynomial with every argument of an unknown cost that `h` picks shown as `_`.
pub open spec fn p_hide(p: PolyV, h: Veil) -> PolyV {
    if p_has_opaque(p) {
        terms_hide(p.terms, h)
    } else {
        p
    }
}

/// Picks the arguments that mention a variable.
pub open spec fn mentioning(v: int) -> Veil {
    |p: PolyV| p_mentions(p, v)
}

pub open spec fn terms_hide(t: Seq<(MonoV, real)>, h: Veil) -> PolyV
    decreases t.len(),
{
    if t.len() == 0 {
        p_zero()
    } else {
        p_add(
            terms_hide(t.drop_last(), h),
            p_term(MonoV { factors: factors_hide(t.last().0.factors, h) }, t.last().1),
        )
    }
}

pub open spec fn factors_hide(f: Seq<(AtomV, real)>, h: Veil) -> Seq<(AtomV, real)>
    decreases f.len(),
{
    if f.len() == 0 {
        Seq::empty()
    } else {
        bump(factors_hide(f.drop_last(), h), a_hide(f.last().0, h), f.last().1)
    }
}

pub open spec fn arg_hide(a: Option<PolyV>, h: Veil) -> Option<PolyV> {
    match a {
        Some(p) => if h(p) {
            None
        } else {
            a
        },
        None => None,
    }
}

pub open spec fn a_hide(a: AtomV, h: Veil) -> AtomV {
    match a {
        AtomV::Opaque(o) => AtomV::Opaque(
            Box::new(
                OpaqueV {
                    callee: o.callee,
                    moves: o.moves,
                    args: Seq::new(o.args.len(), |i: int| arg_hide(o.args[i], h)),
                },
            ),
        ),
        _ => a,
    }
}

/// The test answers as `h` does.
pub open spec fn answers<F: Fn(&Poly) -> bool>(f: F, h: Veil) -> bool {
    forall|p: &Poly, b: bool| #[trigger] f.ensures((p,), b) ==> b == h(p@)
}

// ---- what is mentioned ----

pub open spec fn no_repeats(s: Seq<int>) -> bool {
    forall|i: int, j: int| 0 <= i < j < s.len() ==> s[i] != s[j]
}

proof fn with_new_holds(s: Seq<int>, x: int)
    ensures
        no_repeats(s) ==> no_repeats(with_new(s, x)),
        forall|i: int| #[trigger] with_new(s, x).contains(i) == (s.contains(i) || i == x),
{
    let t = with_new(s, x);
    if !s.contains(x) {
        assert forall|i: int| #[trigger] t.contains(i) == (s.contains(i) || i == x) by {
            if s.contains(i) {
                let j = choose|j: int| 0 <= j < s.len() && s[j] == i;
                assert(t[j] == i);
            }
            assert(t[s.len() as int] == x);
        }
    }
}

proof fn with_all_new_holds(s: Seq<int>, t: Seq<int>)
    ensures
        no_repeats(s) ==> no_repeats(with_all_new(s, t)),
        forall|i: int| #[trigger] with_all_new(s, t).contains(i) == (s.contains(i) || t.contains(i)),
    decreases t.len(),
{
    if t.len() > 0 {
        let u = t.drop_last();
        with_all_new_holds(s, u);
        with_new_holds(with_all_new(s, u), t.last());
        assert forall|i: int| #[trigger] with_all_new(s, t).contains(i) == (s.contains(i) || t.contains(i)) by {
            if t.contains(i) {
                let j = choose|j: int| 0 <= j < t.len() && t[j] == i;
                if j < u.len() {
                    assert(u[j] == i);
                }
            }
            if u.contains(i) {
                let j = choose|j: int| 0 <= j < u.len() && u[j] == i;
                assert(t[j] == i);
            }
            assert(t[t.len() - 1] == t.last());
        }
    }
}

spec fn factors_mention(f: Seq<(AtomV, real)>, v: int) -> bool {
    exists|j: int| 0 <= j < f.len() && a_mentions((#[trigger] f[j]).0, v)
}

spec fn args_mention(a: Seq<Option<PolyV>>, v: int) -> bool {
    exists|j: int| 0 <= j < a.len() && arg_mentions(#[trigger] a[j], v)
}

proof fn factors_mention_last(f: Seq<(AtomV, real)>, v: int)
    requires
        f.len() > 0,
    ensures
        factors_mention(f, v) == (factors_mention(f.drop_last(), v) || a_mentions(f.last().0, v)),
{
    let u = f.drop_last();
    if factors_mention(f, v) {
        let j = choose|j: int| 0 <= j < f.len() && a_mentions((#[trigger] f[j]).0, v);
        if j < u.len() {
            assert(a_mentions(u[j].0, v));
        }
    }
    if factors_mention(u, v) {
        let j = choose|j: int| 0 <= j < u.len() && a_mentions((#[trigger] u[j]).0, v);
        assert(a_mentions(f[j].0, v));
    }
    assert(f[f.len() - 1] == f.last());
}

proof fn args_mention_last(a: Seq<Option<PolyV>>, v: int)
    requires
        a.len() > 0,
    ensures
        args_mention(a, v) == (args_mention(a.drop_last(), v) || arg_mentions(a.last(), v)),
{
    let u = a.drop_last();
    if args_mention(a, v) {
        let j = choose|j: int| 0 <= j < a.len() && arg_mentions(#[trigger] a[j], v);
        if j < u.len() {
            assert(arg_mentions(u[j], v));
        }
    }
    if args_mention(u, v) {
        let j = choose|j: int| 0 <= j < u.len() && arg_mentions(#[trigger] u[j], v);
        assert(arg_mentions(a[j], v));
    }
    assert(a[a.len() - 1] == a.last());
}

proof fn mentions_last(t: Seq<(MonoV, real)>, v: int)
    requires
        t.len() > 0,
    ensures
        p_mentions((PolyV { terms: t }), v) == (p_mentions((PolyV { terms: t.drop_last() }), v) || factors_mention(
            t.last().0.factors,
            v,
        )),
{
    let (p, u) = (PolyV { terms: t }, PolyV { terms: t.drop_last() });
    let f = t.last().0.factors;
    if p_mentions(p, v) {
        let (i, j) = choose|i: int, j: int|
            #![trigger p.terms[i].0.factors[j]]
            0 <= i < p.terms.len() && 0 <= j < p.terms[i].0.factors.len() && a_mentions(p.terms[i].0.factors[j].0, v);
        if i < u.terms.len() {
            assert(a_mentions(u.terms[i].0.factors[j].0, v));
        } else {
            assert(a_mentions(f[j].0, v));
        }
    }
    if p_mentions(u, v) {
        let (i, j) = choose|i: int, j: int|
            #![trigger u.terms[i].0.factors[j]]
            0 <= i < u.terms.len() && 0 <= j < u.terms[i].0.factors.len() && a_mentions(u.terms[i].0.factors[j].0, v);
        assert(a_mentions(p.terms[i].0.factors[j].0, v));
    }
    if factors_mention(f, v) {
        let j = choose|j: int| 0 <= j < f.len() && a_mentions((#[trigger] f[j]).0, v);
        assert(a_mentions(p.terms[t.len() - 1].0.factors[j].0, v));
    }
}

/// The variables of a polynomial are those it mentions, each once.
pub proof fn vars_mentioned(p: PolyV)
    ensures
        no_repeats(p_vars(p)),
        forall|i: int| #[trigger] p_vars(p).contains(i) == p_mentions(p, i),
    decreases p,
{
    terms_vars_mentioned(p.terms);
    assert(PolyV { terms: p.terms } == p);
}

proof fn terms_vars_mentioned(t: Seq<(MonoV, real)>)
    ensures
        no_repeats(terms_vars(t)),
        forall|i: int| #[trigger] terms_vars(t).contains(i) == p_mentions((PolyV { terms: t }), i),
    decreases t,
{
    if t.len() > 0 {
        let u = t.drop_last();
        terms_vars_mentioned(u);
        factors_vars_mentioned(terms_vars(u), t.last().0.factors);
        assert forall|i: int| #[trigger] terms_vars(t).contains(i) == p_mentions((PolyV { terms: t }), i) by {
            mentions_last(t, i);
            assert(terms_vars(u).contains(i) == p_mentions((PolyV { terms: u }), i));
        }
    }
}

proof fn factors_vars_mentioned(out: Seq<int>, f: Seq<(AtomV, real)>)
    ensures
        no_repeats(out) ==> no_repeats(factors_vars(out, f)),
        forall|i: int| #[trigger] factors_vars(out, f).contains(i) == (out.contains(i) || factors_mention(f, i)),
    decreases f,
{
    if f.len() > 0 {
        let u = f.drop_last();
        let before = factors_vars(out, u);
        factors_vars_mentioned(out, u);
        match f.last().0 {
            AtomV::Var(x) => {
                with_new_holds(before, x);
            },
            AtomV::Log(q) => {
                vars_mentioned(*q);
                with_all_new_holds(before, p_vars(*q));
            },
            AtomV::Opaque(o) => {
                args_vars_mentioned(before, o.args);
            },
            _ => {},
        }
        assert forall|i: int| #[trigger] factors_vars(out, f).contains(i) == (out.contains(i) || factors_mention(f, i)) by {
            factors_mention_last(f, i);
            assert(before.contains(i) == (out.contains(i) || factors_mention(u, i)));
            if let AtomV::Opaque(o) = f.last().0 {
                assert(a_mentions(f.last().0, i) == args_mention(o.args, i));
                assert(args_vars(before, o.args).contains(i) == (before.contains(i) || args_mention(o.args, i)));
            }
            if let AtomV::Log(q) = f.last().0 {
                assert(p_vars(*q).contains(i) == p_mentions(*q, i));
                assert(with_all_new(before, p_vars(*q)).contains(i) == (before.contains(i) || p_vars(*q).contains(i)));
            }
            if let AtomV::Var(x) = f.last().0 {
                assert(with_new(before, x).contains(i) == (before.contains(i) || i == x));
            }
        }
    }
}

proof fn args_vars_mentioned(out: Seq<int>, a: Seq<Option<PolyV>>)
    ensures
        no_repeats(out) ==> no_repeats(args_vars(out, a)),
        forall|i: int| #[trigger] args_vars(out, a).contains(i) == (out.contains(i) || args_mention(a, i)),
    decreases a,
{
    if a.len() > 0 {
        let u = a.drop_last();
        let before = args_vars(out, u);
        args_vars_mentioned(out, u);
        if let Some(p) = a.last() {
            vars_mentioned(p);
            with_all_new_holds(before, p_vars(p));
        }
        assert forall|i: int| #[trigger] args_vars(out, a).contains(i) == (out.contains(i) || args_mention(a, i)) by {
            args_mention_last(a, i);
            assert(before.contains(i) == (out.contains(i) || args_mention(u, i)));
            if let Some(p) = a.last() {
                assert(p_vars(p).contains(i) == p_mentions(p, i));
            }
        }
    }
}

/// Everything that the terms name is in the list.
spec fn names_all(out: Seq<Seq<char>>, t: Seq<(MonoV, real)>) -> bool {
    forall|i: int, j: int|
        #![trigger t[i].0.factors[j]]
        0 <= i < t.len() && 0 <= j < t[i].0.factors.len() ==> named_in(out, t[i].0.factors[j].0)
}

spec fn named_in(out: Seq<Seq<char>>, a: AtomV) -> bool {
    match a {
        AtomV::Opaque(o) => out.contains(o.callee),
        _ => true,
    }
}

proof fn with_new_keeps<T>(s: Seq<T>, x: T, y: T)
    ensures
        s.contains(y) || x == y ==> with_new(s, x).contains(y),
{
    let t = with_new(s, x);
    if s.contains(y) {
        let i = choose|i: int| 0 <= i < s.len() && s[i] == y;
        assert(t[i] == y);
    } else if x == y {
        assert(t[s.len() as int] == y);
    }
}

proof fn factors_named(out: Seq<Seq<char>>, f: Seq<(AtomV, real)>)
    ensures
        forall|y: Seq<char>| out.contains(y) ==> #[trigger] factors_callees(out, f).contains(y),
        forall|j: int| 0 <= j < f.len() ==> named_in(factors_callees(out, f), (#[trigger] f[j]).0),
        (forall|j: int| 0 <= j < f.len() ==> named_in(out, (#[trigger] f[j]).0)) ==> factors_callees(out, f) == out,
    decreases f.len(),
{
    if f.len() > 0 {
        let u = f.drop_last();
        let before = factors_callees(out, u);
        let r = factors_callees(out, f);
        factors_named(out, u);
        assert forall|y: Seq<char>| before.contains(y) implies #[trigger] r.contains(y) by {
            if let AtomV::Opaque(o) = f.last().0 {
                with_new_keeps(before, o.callee, y);
            }
        }
        assert forall|j: int| 0 <= j < f.len() implies named_in(r, (#[trigger] f[j]).0) by {
            if j < u.len() {
                assert(named_in(before, u[j].0));
            } else if let AtomV::Opaque(o) = f.last().0 {
                with_new_keeps(before, o.callee, o.callee);
            }
        }
        if forall|j: int| 0 <= j < f.len() ==> named_in(out, (#[trigger] f[j]).0) {
            assert forall|j: int| 0 <= j < u.len() implies named_in(out, (#[trigger] u[j]).0) by {
                assert(named_in(out, f[j].0));
            }
            assert(named_in(out, f[f.len() - 1].0));
        }
    }
}

proof fn terms_named(out: Seq<Seq<char>>, t: Seq<(MonoV, real)>)
    ensures
        forall|y: Seq<char>| out.contains(y) ==> #[trigger] terms_callees(out, t).contains(y),
        names_all(terms_callees(out, t), t),
        names_all(out, t) ==> terms_callees(out, t) == out,
    decreases t.len(),
{
    if t.len() > 0 {
        let u = t.drop_last();
        let before = terms_callees(out, u);
        let f = t.last().0.factors;
        let r = terms_callees(out, t);
        terms_named(out, u);
        factors_named(before, f);
        assert forall|i: int, j: int|
            #![trigger t[i].0.factors[j]]
            0 <= i < t.len() && 0 <= j < t[i].0.factors.len() implies named_in(r, t[i].0.factors[j].0) by {
            if i < u.len() {
                assert(named_in(before, u[i].0.factors[j].0));
            } else {
                assert(named_in(r, f[j].0));
            }
        }
        if names_all(out, t) {
            assert forall|i: int, j: int|
                #![trigger u[i].0.factors[j]]
                0 <= i < u.len() && 0 <= j < u[i].0.factors.len() implies named_in(out, u[i].0.factors[j].0) by {
                assert(named_in(out, t[i].0.factors[j].0));
            }
            assert forall|j: int| 0 <= j < f.len() implies named_in(out, (#[trigger] f[j]).0) by {
                assert(named_in(out, t[t.len() - 1].0.factors[j].0));
            }
        }
    }
}

/// Naming the callees of a polynomial a second time adds nothing.
pub proof fn callees_twice(out: Seq<Seq<char>>, t: Seq<(MonoV, real)>)
    ensures
        terms_callees(terms_callees(out, t), t) == terms_callees(out, t),
{
    terms_named(out, t);
    terms_named(terms_callees(out, t), t);
}

/// `m` is mentioned, and nothing above it is; where it is none, nothing is.
pub open spec fn is_top(m: Option<int>, mentioned: spec_fn(int) -> bool) -> bool {
    match m {
        Some(x) => mentioned(x) && forall|i: int| #[trigger] mentioned(i) ==> i <= x,
        None => forall|i: int| !#[trigger] mentioned(i),
    }
}

/// The largest variable of a polynomial is the largest that it mentions, so one above it is fresh.
pub proof fn max_var_top(p: PolyV)
    ensures
        is_top(p_max_var(p), |i: int| p_mentions(p, i)),
    decreases p,
{
    terms_max_top(p.terms);
    assert(PolyV { terms: p.terms } == p);
}

proof fn terms_max_top(t: Seq<(MonoV, real)>)
    ensures
        is_top(terms_max_var(t), |i: int| p_mentions((PolyV { terms: t }), i)),
    decreases t,
{
    if t.len() > 0 {
        let u = t.drop_last();
        terms_max_top(u);
        factors_max_top(t.last().0.factors);
        let (a, b) = (|i: int| p_mentions((PolyV { terms: u }), i), |i: int| factors_mention(t.last().0.factors, i));
        let c = |i: int| p_mentions((PolyV { terms: t }), i);
        assert forall|i: int| #[trigger] c(i) == (a(i) || b(i)) by {
            mentions_last(t, i);
        }
        either_top(terms_max_var(u), factors_max_var(t.last().0.factors), a, b, c);
    }
}

proof fn either_top(
    x: Option<int>,
    y: Option<int>,
    a: spec_fn(int) -> bool,
    b: spec_fn(int) -> bool,
    c: spec_fn(int) -> bool,
)
    requires
        is_top(x, a),
        is_top(y, b),
        forall|i: int| #[trigger] c(i) == (a(i) || b(i)),
    ensures
        is_top(larger(x, y), c),
{
    if let Some(i) = x {
        assert(c(i));
    }
    if let Some(i) = y {
        assert(c(i));
    }
}

proof fn factors_max_top(f: Seq<(AtomV, real)>)
    ensures
        is_top(factors_max_var(f), |i: int| factors_mention(f, i)),
    decreases f,
{
    if f.len() > 0 {
        let u = f.drop_last();
        factors_max_top(u);
        let last = f.last().0;
        let one = match last {
            AtomV::Var(i) => Some(i),
            AtomV::Log(q) => p_max_var(*q),
            AtomV::Opaque(o) => args_max_var(o.args),
            _ => None,
        };
        let (a, b) = (|i: int| factors_mention(u, i), |i: int| a_mentions(last, i));
        let c = |i: int| factors_mention(f, i);
        match last {
            AtomV::Log(q) => {
                max_var_top(*q);
                let d = |i: int| p_mentions(*q, i);
                assert(forall|i: int| #[trigger] b(i) == d(i));
            },
            AtomV::Opaque(o) => {
                args_max_top(o.args);
                let d = |i: int| args_mention(o.args, i);
                assert(forall|i: int| #[trigger] b(i) == d(i));
            },
            _ => {},
        }
        assert(is_top(one, b));
        assert forall|i: int| #[trigger] c(i) == (a(i) || b(i)) by {
            factors_mention_last(f, i);
        }
        either_top(factors_max_var(u), one, a, b, c);
    }
}

proof fn args_max_top(s: Seq<Option<PolyV>>)
    ensures
        is_top(args_max_var(s), |i: int| args_mention(s, i)),
    decreases s,
{
    if s.len() > 0 {
        let u = s.drop_last();
        args_max_top(u);
        let one = match s.last() {
            Some(p) => p_max_var(p),
            None => None,
        };
        let (a, b) = (|i: int| args_mention(u, i), |i: int| arg_mentions(s.last(), i));
        let c = |i: int| args_mention(s, i);
        if let Some(p) = s.last() {
            max_var_top(p);
            let d = |i: int| p_mentions(p, i);
            assert(forall|i: int| #[trigger] b(i) == d(i));
        }
        assert(is_top(one, b));
        assert forall|i: int| #[trigger] c(i) == (a(i) || b(i)) by {
            args_mention_last(s, i);
        }
        either_top(args_max_var(u), one, a, b, c);
    }
}

pub proof fn value_at<K: Ranked>(s: Seq<(K, real)>, i: int)
    requires
        sorted(s),
        0 <= i < s.len(),
    ensures
        value(s, s[i].0) == s[i].1,
{
    crate::cost::assoc::entry_found(s, i);
}

impl Atom {
    /// Whether the variable occurs in the atom, at any depth.
    pub fn mentions(&self, v: usize) -> (r: bool)
        ensures
            r == a_mentions(self@, v as int),
        decreases self,
    {
        proof {
            atom_view_is(*self);
        }
        match self {
            Atom::Var(i) => *i == v,
            Atom::Log(p) => p.mentions(v),
            Atom::Opaque(o) => {
                proof {
                    opaque_view_is(**o);
                }
                let mut k: usize = 0;
                while k < o.args.len()
                    invariant
                        k <= o.args.len(),
                        self@ == AtomV::Opaque(Box::new(o@)),
                        decreases_to!(self => o),
                        o@.args.len() == o.args@.len(),
                        forall|i: int| 0 <= i < o.args@.len() ==> #[trigger] o@.args[i] == arg_v(o.args@[i]),
                        forall|i: int| 0 <= i < k ==> !arg_mentions(#[trigger] o@.args[i], v as int),
                    decreases o.args.len() - k,
                {
                    let hit = match &o.args[k] {
                        Some(p) => p.mentions(v),
                        None => false,
                    };
                    proof {
                        assert(o@.args[k as int] == arg_v(o.args@[k as int]));
                        assert(hit == arg_mentions(o@.args[k as int], v as int));
                    }
                    if hit {
                        proof {
                            let oo = self@->Opaque_0;
                            assert(arg_mentions(oo.args[k as int], v as int));
                        }
                        return true;
                    }
                    k += 1;
                }
                false
            },
            _ => false,
        }
    }

    /// The atom with `by` put in the place of the variable, inside logarithms and arguments.
    #[verifier::loop_isolation(false)]
    fn subst(&self, v: usize, by: &Poly) -> (r: Atom)
        ensures
            r@ == a_subst(self@, v as int, by@),
        decreases self,
    {
        proof {
            reveal(p_subst);
            atom_view_is(*self);
        }
        match self {
            Atom::Log(p) => {
                let r = Atom::Log(Box::new(p.subst(v, by)));
                proof {
                    atom_view_is(r);
                }
                r
            },
            Atom::Opaque(o) => {
                let mut args: Vec<Option<Poly>> = Vec::new();
                let mut k: usize = 0;
                while k < o.args.len()
                    invariant
                        k <= o.args.len(),
                        decreases_to!(self => o),
                        args@.len() == k,
                        forall|i: int| 0 <= i < k ==> arg_v(#[trigger] args@[i]) == arg_subst(
                            arg_v(o.args@[i]),
                            v as int,
                            by@,
                        ),
                    decreases o.args.len() - k,
                {
                    let a = match &o.args[k] {
                        Some(p) => Some(p.subst(v, by)),
                        None => None,
                    };
                    proof {
                        reveal_with_fuel(arg_subst, 2);
                        assert(arg_v(a) == arg_subst(arg_v(o.args@[k as int]), v as int, by@));
                    }
                    args.push(a);
                    k += 1;
                }
                let q = Opaque { callee: copy_text(&o.callee), moves: o.moves, args };
                let ghost qv = q@;
                let r = Atom::Opaque(Box::new(q));
                proof {
                    opaque_view_is(**o);
                    opaque_view_is(q);
                    atom_view_is(r);
                    assert(a_subst(self@, v as int, by@)->Opaque_0.args =~= qv.args);
                }
                r
            },
            _ => self.copy(),
        }
    }

    /// The atom with every argument that `chosen` picks shown as `_`.
    fn veil<F: Fn(&Poly) -> bool>(&self, chosen: &F) -> (r: Atom)
        requires
            forall|p: &Poly| #[trigger] chosen.requires((p,)),
        ensures
            forall|h: Veil| #[trigger] answers(*chosen, h) ==> r@ == a_hide(self@, h),
    {
        proof {
            atom_view_is(*self);
        }
        match self {
            Atom::Opaque(o) => {
                let mut args: Vec<Option<Poly>> = Vec::new();
                let mut k: usize = 0;
                while k < o.args.len()
                    invariant
                        k <= o.args.len(),
                        args@.len() == k,
                        forall|p: &Poly| #[trigger] chosen.requires((p,)),
                        forall|h: Veil, i: int|
                            0 <= i < k && #[trigger] answers(*chosen, h) ==> arg_v(#[trigger] args@[i]) == arg_hide(
                                arg_v(o.args@[i]),
                                h,
                            ),
                    decreases o.args.len() - k,
                {
                    let a = match &o.args[k] {
                        Some(p) => if chosen(p) {
                            None
                        } else {
                            Some(p.copy())
                        },
                        None => None,
                    };
                    args.push(a);
                    k += 1;
                }
                let q = Opaque { callee: copy_text(&o.callee), moves: o.moves, args };
                let ghost qv = q@;
                let r = Atom::Opaque(Box::new(q));
                proof {
                    opaque_view_is(**o);
                    opaque_view_is(q);
                    atom_view_is(r);
                    assert forall|h: Veil| #[trigger] answers(*chosen, h) implies r@ == a_hide(self@, h) by {
                        assert(a_hide(self@, h)->Opaque_0.args =~= qv.args);
                    }
                }
                r
            },
            _ => self.copy(),
        }
    }
}

pub proof fn factors_subst_wf(f: Seq<(AtomV, real)>, v: int, by: PolyV)
    requires
        canonical(f),
    ensures
        canonical(factors_subst(f, v, by)),
    decreases f.len(),
{
    if f.len() > 0 {
        let u = f.drop_last();
        assert(canonical(u)) by {
            assert forall|i: int, j: int| 0 <= i < j < u.len() implies (#[trigger] u[i]).0.before((#[trigger] u[j]).0) by {
                assert(f[i].0.before(f[j].0));
            }
            assert forall|i: int| 0 <= i < u.len() implies (#[trigger] u[i]).1 != 0real by {
                assert(f[i].1 != 0real);
            }
        }
        factors_subst_wf(u, v, by);
        assert(f[f.len() - 1].1 != 0real);
        bump_value(factors_subst(u, v, by), a_subst(f.last().0, v, by), f.last().1);
    }
}

impl Poly {
    /// Whether some atom stands for a size, or for a cost in sizes.
    #[verifier::loop_isolation(false)]
    pub fn has_vars(&self) -> (r: bool)
        ensures
            r == p_has_vars(self@),
    {
        let mut i: usize = 0;
        while i < self.len()
            invariant
                i <= self@.terms.len(),
                forall|k: int, j: int|
                    #![trigger self@.terms[k].0.factors[j]]
                    0 <= k < i && 0 <= j < self@.terms[k].0.factors.len() ==> !sized(self@.terms[k].0.factors[j].0),
            decreases self@.terms.len() - i,
        {
            let m = self.mono_at(i);
            let mut j: usize = 0;
            while j < m.len()
                invariant
                    j <= m@.factors.len(),
                    forall|l: int| 0 <= l < j ==> !sized((#[trigger] m@.factors[l]).0),
                decreases m@.factors.len() - j,
            {
                let a = m.atom_at(j);
                proof {
                    atom_view_is(*a);
                    assert(self@.terms[i as int].0.factors[j as int].0 == a@);
                }
                match a {
                    Atom::Var(_) | Atom::Log(_) | Atom::Opaque(_) => {
                        return true;
                    },
                    _ => {},
                }
                j += 1;
            }
            i += 1;
        }
        false
    }

    /// Whether some term is an unknown callee's cost.
    #[verifier::loop_isolation(false)]
    pub fn has_opaque(&self) -> (r: bool)
        ensures
            r == p_has_opaque(self@),
    {
        let mut i: usize = 0;
        while i < self.len()
            invariant
                i <= self@.terms.len(),
                forall|k: int| 0 <= k < i ==> !m_has_opaque((#[trigger] self@.terms[k]).0),
            decreases self@.terms.len() - i,
        {
            if self.mono_at(i).has_opaque() {
                return true;
            }
            i += 1;
        }
        false
    }

    /// The callees whose unknown costs this polynomial names, each once, after those in `out`.
    #[verifier::loop_isolation(false)]
    pub fn opaque_callees(&self, out: &mut Vec<String>)
        ensures
            texts(final(out)@) == terms_callees(texts(old(out)@), self@.terms),
    {
        let ghost t = self@.terms;
        let ghost first = texts(out@);
        let mut i: usize = 0;
        proof {
            assert(t.take(0) =~= Seq::empty());
        }
        while i < self.len()
            invariant
                i <= t.len(),
                texts(out@) == terms_callees(first, t.take(i as int)),
            decreases t.len() - i,
        {
            let m = self.mono_at(i);
            let ghost f = m@.factors;
            let ghost start = texts(out@);
            let mut j: usize = 0;
            proof {
                assert(f.take(0) =~= Seq::empty());
                assert(t.take(i + 1).drop_last() =~= t.take(i as int));
            }
            while j < m.len()
                invariant
                    j <= f.len(),
                    texts(out@) == factors_callees(start, f.take(j as int)),
                decreases f.len() - j,
            {
                let a = m.atom_at(j);
                proof {
                    atom_view_is(*a);
                    assert(f.take(j + 1).drop_last() =~= f.take(j as int));
                }
                if let Atom::Opaque(o) = a {
                    proof {
                        opaque_view_is(**o);
                    }
                    if !crate::text::has_text(out, &o.callee) {
                        let ghost was = out@;
                        let c = copy_text(&o.callee);
                        out.push(c);
                        proof {
                            assert(texts(was.push(c)) =~= texts(was).push(c@));
                        }
                    }
                }
                j += 1;
            }
            proof {
                assert(f.take(j as int) =~= f);
            }
            i += 1;
        }
        proof {
            assert(t.take(i as int) =~= t);
        }
    }

    /// Whether the variable occurs, at any depth.
    #[verifier::loop_isolation(false)]
    pub fn mentions(&self, v: usize) -> (r: bool)
        ensures
            r == p_mentions(self@, v as int),
        decreases self,
    {
        let mut i: usize = 0;
        while i < self.len()
            invariant
                i <= self@.terms.len(),
                forall|k: int, j: int|
                    #![trigger self@.terms[k].0.factors[j]]
                    0 <= k < i && 0 <= j < self@.terms[k].0.factors.len() ==> !a_mentions(
                        self@.terms[k].0.factors[j].0,
                        v as int,
                    ),
            decreases self@.terms.len() - i,
        {
            let m = self.mono_at(i);
            let mut j: usize = 0;
            while j < m.len()
                invariant
                    j <= m@.factors.len(),
                    forall|l: int| 0 <= l < j ==> !a_mentions((#[trigger] m@.factors[l]).0, v as int),
                decreases m@.factors.len() - j,
            {
                let a = m.atom_at(j);
                proof {
                    assert(self@.terms[i as int].0.factors[j as int].0 == a@);
                }
                if a.mentions(v) {
                    return true;
                }
                j += 1;
            }
            i += 1;
        }
        false
    }

    /// Replace one size variable by a polynomial. The variable's exponents must be
    /// nonnegative integers; a fractional exponent on a variable never arises in the calculus.
    #[verifier::loop_isolation(false)]
    pub fn subst(&self, var: usize, by: &Poly) -> (r: Poly)
        ensures
            r@ == p_subst(self@, var as int, by@),
        decreases self,
    {
        let mut out = Poly::zero();
        let ghost t = self@.terms;
        let mut i: usize = 0;
        proof {
            reveal(p_subst);
            assert(t.take(0) =~= Seq::empty());
        }
        while i < self.len()
            invariant
                i <= t.len(),
                out@ == terms_subst(t.take(i as int), var as int, by@),
            decreases t.len() - i,
        {
            let m = self.mono_at(i);
            m.known();
            let ghost f = m@.factors;
            let mut rest = Mono::one();
            let mut j: usize = 0;
            proof {
                assert(f.take(0) =~= Seq::empty());
                assert(t.take(i + 1).drop_last() =~= t.take(i as int));
            }
            while j < m.len()
                invariant
                    j <= f.len(),
                    rest@.factors == factors_subst(f.take(j as int), var as int, by@),
                decreases f.len() - j,
            {
                let a = m.atom_at(j);
                let e = m.exponent_at(j);
                proof {
                    atom_view_is(*a);
                    assert(f.take(j + 1).drop_last() =~= f.take(j as int));
                }
                let it: bool = match a {
                    Atom::Var(x) => *x == var,
                    _ => false,
                };
                if !it {
                    rest = rest.bumped(&a.subst(var, by), e);
                }
                j += 1;
            }
            proof {
                assert(f.take(j as int) =~= f);
                atom_view_is(Atom::Var(var));
            }
            let k = m.exponent(&Atom::Var(var)).count();
            let term = Poly::term(rest, self.coeff_at(i).copy());
            out = out.add(&term.mul(&by.pow_nat(&k)));
            i += 1;
        }
        proof {
            assert(t.take(i as int) =~= t);
        }
        out
    }

    /// Replace several variables at once, so a substitution can mention the variables it replaces.
    #[verifier::loop_isolation(false)]
    pub fn subst_many(&self, map: &[(usize, Poly)]) -> (r: Poly)
        ensures
            r@ == p_subst_many(self@, map_v(map@)),
    {
        let ghost mv = map_v(map@);
        let shift: usize = 1_000_000;
        if map.len() > usize::MAX - shift {
            return self.copy();
        }
        let mut p = self.copy();
        let mut i: usize = 0;
        while i < map.len()
            invariant
                i <= map@.len(),
                p@ == p_park(self@, mv, i as nat),
            decreases map@.len() - i,
        {
            p = p.subst(map[i].0, &Poly::var(shift + i));
            i += 1;
        }
        let ghost q = p@;
        let mut k: usize = 0;
        while k < map.len()
            invariant
                k <= map@.len(),
                p@ == p_unpark(q, mv, k as nat),
            decreases map@.len() - k,
        {
            p = p.subst(shift + k, &map[k].1);
            k += 1;
        }
        p
    }

    /// The same polynomial with every unknown callee's argument that `chosen` picks shown as `_`:
    /// for an argument about to lose its meaning — a variable a caller cannot name, or a loop
    /// variable being summed away.
    #[verifier::loop_isolation(false)]
    pub fn hide_args<F: Fn(&Poly) -> bool>(&self, chosen: F) -> (r: Poly)
        requires
            forall|p: &Poly| #[trigger] chosen.requires((p,)),
        ensures
            forall|h: Veil| #[trigger] answers(chosen, h) ==> r@ == p_hide(self@, h),
    {
        if !self.has_opaque() {
            return self.copy();
        }
        let mut out = Poly::zero();
        let ghost t = self@.terms;
        let mut i: usize = 0;
        proof {
            assert(t.take(0) =~= Seq::empty());
        }
        while i < self.len()
            invariant
                i <= t.len(),
                forall|h: Veil| #[trigger] answers(chosen, h) ==> out@ == terms_hide(t.take(i as int), h),
            decreases t.len() - i,
        {
            let m = self.mono_at(i);
            let ghost f = m@.factors;
            let mut rest = Mono::one();
            let mut j: usize = 0;
            proof {
                assert(f.take(0) =~= Seq::empty());
                assert(t.take(i + 1).drop_last() =~= t.take(i as int));
            }
            while j < m.len()
                invariant
                    j <= f.len(),
                    forall|h: Veil| #[trigger] answers(chosen, h) ==> rest@.factors == factors_hide(f.take(j as int), h),
                decreases f.len() - j,
            {
                proof {
                    assert(f.take(j + 1).drop_last() =~= f.take(j as int));
                }
                rest = rest.bumped(&m.atom_at(j).veil(&chosen), m.exponent_at(j));
                j += 1;
            }
            proof {
                assert(f.take(j as int) =~= f);
            }
            out = out.add(&Poly::term(rest, self.coeff_at(i).copy()));
            i += 1;
        }
        proof {
            assert(t.take(i as int) =~= t);
        }
        out
    }
}

impl Mono {
    /// Whether an unknown callee's cost is a factor.
    #[verifier::loop_isolation(false)]
    pub fn has_opaque(&self) -> (r: bool)
        ensures
            r == m_has_opaque(self@),
    {
        let mut j: usize = 0;
        while j < self.len()
            invariant
                j <= self@.factors.len(),
                forall|l: int| 0 <= l < j ==> !((#[trigger] self@.factors[l]).0 is Opaque),
            decreases self@.factors.len() - j,
        {
            let a = self.atom_at(j);
            proof {
                atom_view_is(*a);
            }
            if let Atom::Opaque(_) = a {
                return true;
            }
            j += 1;
        }
        false
    }
}

impl Rat {
    /// The number as a count: zero unless it is a natural number.
    pub fn count(&self) -> (r: BigNat)
        ensures
            r@ == count_of(self@),
    {
        if self.is_int() && !self.is_negative() {
            let n = self.numer();
            proof {
                crate::cost::rat::whole_parts(num(self@));
                let k = choose|k: int| self@ == #[trigger] ratio(k, 1);
                crate::cost::rat::ratio_one(k);
                crate::cost::rat::whole_parts(k);
            }
            n.magnitude()
        } else {
            BigNat::zero()
        }
    }
}

} // verus!
