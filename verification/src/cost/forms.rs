//! Shapes of polynomials: constants, single terms, leading terms, degrees, and values at a
//! machine.

use vstd::prelude::*;
use crate::cost::algebra::{m_mul, m_one, p_add, p_term, p_zero};
use crate::cost::assoc::{bump, merge, put, Ranked};
use crate::cost::model::{AtomV, MonoV, OpaqueV, PolyV};
use crate::cost::rat::{ratio, Rat};
use crate::cost::root::{fine_power, power, rat_fine_pow, rat_pow};
use crate::cost::size::{arg_v, atom_view_is, degree, m_raise, opaque_view_is, Atom, Mono, Opaque, Poly};
use crate::cost::subst::{
    args_max_var, args_vars, factors_max_var, factors_vars, larger, m_has_opaque, max_var_top, no_repeats, p_max_var,
    p_mentions, p_subst, p_vars, terms_max_var, terms_vars, vars_mentioned, with_all_new, with_new,
};
use crate::text::copy_text;

verus! {

/// Indices as numbers.
pub open spec fn ints(s: Seq<usize>) -> Seq<int> {
    Seq::new(s.len(), |i: int| s[i] as int)
}

/// Whether the list holds the index.
pub fn has_index(v: &[usize], x: usize) -> (r: bool)
    ensures
        r == ints(v@).contains(x as int),
{
    let mut i: usize = 0;
    while i < v.len()
        invariant
            i <= v.len(),
            forall|k: int| 0 <= k < i ==> #[trigger] v@[k] != x,
        decreases v.len() - i,
    {
        if v[i] == x {
            proof {
                assert(ints(v@)[i as int] == x as int);
            }
            return true;
        }
        i += 1;
    }
    proof {
        assert forall|k: int| 0 <= k < ints(v@).len() implies ints(v@)[k] != x as int by {
            assert(v@[k] != x);
        }
    }
    false
}

fn push_new(out: &mut Vec<usize>, x: usize)
    ensures
        ints(final(out)@) == with_new(ints(old(out)@), x as int),
{
    if !has_index(out, x) {
        let ghost was = out@;
        out.push(x);
        proof {
            assert(ints(was.push(x)) =~= ints(was).push(x as int));
        }
    }
}

#[verifier::loop_isolation(false)]
fn push_all_new(out: &mut Vec<usize>, more: &Vec<usize>)
    ensures
        ints(final(out)@) == with_all_new(ints(old(out)@), ints(more@)),
{
    let ghost here = ints(out@);
    let ghost h = ints(more@);
    let mut l: usize = 0;
    proof {
        assert(h.take(0) =~= Seq::empty());
    }
    while l < more.len()
        invariant
            l <= h.len(),
            ints(out@) == with_all_new(here, h.take(l as int)),
        decreases h.len() - l,
    {
        proof {
            assert(h.take(l + 1).drop_last() =~= h.take(l as int));
        }
        push_new(out, more[l]);
        l += 1;
    }
    proof {
        assert(h.take(l as int) =~= h);
    }
}

/// The exponents of the given variables, summed.
pub open spec fn degree_over(f: Seq<(AtomV, real)>, vars: Seq<int>) -> real
    decreases f.len(),
{
    if f.len() == 0 {
        0real
    } else {
        degree_over(f.drop_last(), vars) + (match f.last().0 {
            AtomV::Var(i) => if vars.contains(i) {
                f.last().1
            } else {
                0real
            },
            _ => 0real,
        })
    }
}

pub open spec fn real_max(a: Option<real>, b: real) -> Option<real> {
    match a {
        Some(x) => Some(if x < b { b } else { x }),
        None => Some(b),
    }
}

/// The highest of the terms' degrees in the given variables.
pub open spec fn terms_degree_in(t: Seq<(MonoV, real)>, vars: Seq<int>) -> Option<real>
    decreases t.len(),
{
    if t.len() == 0 {
        None
    } else {
        real_max(terms_degree_in(t.drop_last(), vars), degree_over(t.last().0.factors, vars))
    }
}

/// Highest total degree over the given variables; that of the empty sum is zero.
pub open spec fn p_degree_in(p: PolyV, vars: Seq<int>) -> real {
    match terms_degree_in(p.terms, vars) {
        Some(d) => d,
        None => 0real,
    }
}

/// The highest degree of a term without an unknown cost.
pub open spec fn top_degree(t: Seq<(MonoV, real)>) -> Option<real>
    decreases t.len(),
{
    if t.len() == 0 {
        None
    } else if m_has_opaque(t.last().0) {
        top_degree(t.drop_last())
    } else {
        real_max(top_degree(t.drop_last()), degree(t.last().0.factors))
    }
}

/// A term that counts asymptotically, where `top` is the highest degree.
pub open spec fn is_leading(m: MonoV, top: Option<real>) -> bool {
    m_has_opaque(m) || top == Some(degree(m.factors))
}

pub open spec fn leading_terms(t: Seq<(MonoV, real)>, top: Option<real>) -> Seq<(MonoV, real)>
    decreases t.len(),
{
    if t.len() == 0 {
        t
    } else {
        let before = leading_terms(t.drop_last(), top);
        if is_leading(t.last().0, top) {
            before.push(t.last())
        } else {
            before
        }
    }
}

/// The terms of highest degree, and every term with an unknown cost.
pub open spec fn p_leading(p: PolyV) -> PolyV {
    PolyV { terms: leading_terms(p.terms, top_degree(p.terms)) }
}

/// The quotient of two single terms.
pub open spec fn p_div_mono(p: PolyV, q: PolyV) -> Option<PolyV> {
    if p.terms.len() != 1 || q.terms.len() != 1 {
        None
    } else {
        Some(p_term(m_mul(p.terms[0].0, m_raise(q.terms[0].0, -1real)), p.terms[0].1 / q.terms[0].1))
    }
}

/// The number that a polynomial without atoms is.
pub open spec fn p_const(p: PolyV) -> Option<real> {
    if p.terms.len() == 0 {
        Some(0real)
    } else if p.terms.len() == 1 && p.terms[0].0 == m_one() {
        Some(p.terms[0].1)
    } else {
        None
    }
}

/// `1/p` for a single positive term.
pub open spec fn p_inv(p: PolyV) -> Option<PolyV> {
    if p.terms.len() == 1 && p.terms[0].1 > 0real {
        Some(p_term(m_raise(p.terms[0].0, -1real), 1real / p.terms[0].1))
    } else {
        None
    }
}

/// `p^(1/k)` for a single positive term.
pub open spec fn p_root(p: PolyV, k: int) -> Option<PolyV> {
    if p.terms.len() == 1 && p.terms[0].1 > 0real && k > 0 {
        Some(p_term(m_raise(p.terms[0].0, ratio(1, k)), power(p.terms[0].1, ratio(1, k))))
    } else {
        None
    }
}

/// A single positive term put in the place of a variable, at any rational power of it.
#[verifier::opaque]
pub open spec fn p_subst_pow(p: PolyV, v: int, bm: MonoV, bc: real) -> PolyV
    decreases p,
{
    terms_subst_pow(p.terms, v, bm, bc)
}

pub open spec fn terms_subst_pow(t: Seq<(MonoV, real)>, v: int, bm: MonoV, bc: real) -> PolyV
    decreases t,
{
    if t.len() == 0 {
        p_zero()
    } else {
        let r = factors_subst_pow(t.last().0.factors, t.last().1, v, bm, bc);
        p_add(terms_subst_pow(t.drop_last(), v, bm, bc), p_term(MonoV { factors: r.0 }, r.1))
    }
}

/// The factors after the substitution, and the coefficient.
pub open spec fn factors_subst_pow(f: Seq<(AtomV, real)>, c: real, v: int, bm: MonoV, bc: real) -> (
    Seq<(AtomV, real)>,
    real,
)
    decreases f,
{
    if f.len() == 0 {
        (Seq::empty(), c)
    } else {
        let (rest, k) = factors_subst_pow(f.drop_last(), c, v, bm, bc);
        let (a, e) = f.last();
        if a == AtomV::Var(v) {
            (merge(rest, m_raise(bm, e).factors), k * power(bc, e))
        } else if a is Log || a is Opaque {
            (bump(rest, a_subst_pow(a, v, bm, bc), e), k)
        } else {
            (bump(rest, a, e), k)
        }
    }
}

pub open spec fn a_subst_pow(a: AtomV, v: int, bm: MonoV, bc: real) -> AtomV
    decreases a,
{
    match a {
        AtomV::Log(q) => AtomV::Log(Box::new(p_subst_pow(*q, v, bm, bc))),
        AtomV::Opaque(o) => AtomV::Opaque(
            Box::new(
                OpaqueV {
                    callee: o.callee,
                    moves: o.moves,
                    args: Seq::new(
                        o.args.len(),
                        |i: int|
                            if 0 <= i < o.args.len() {
                                arg_subst_pow(o.args[i], v, bm, bc)
                            } else {
                                None
                            },
                    ),
                },
            ),
        ),
        _ => a,
    }
}

pub open spec fn arg_subst_pow(a: Option<PolyV>, v: int, bm: MonoV, bc: real) -> Option<PolyV>
    decreases a,
{
    match a {
        Some(p) => Some(p_subst_pow(p, v, bm, bc)),
        None => None,
    }
}

/// A single term put in the place of a variable at any power, anything else at whole powers.
pub open spec fn p_subst_any(p: PolyV, v: int, by: PolyV) -> PolyV {
    if by.terms.len() == 1 {
        p_subst_pow(p, v, by.terms[0].0, by.terms[0].1)
    } else {
        p_subst(p, v, by)
    }
}

/// A power of a machine size: as a coefficient, or as a value.
pub open spec fn machine_power(x: int, e: real, fine: bool) -> real {
    if fine {
        fine_power(x as real, e)
    } else {
        power(x as real, e)
    }
}

/// The factors that are not `B` or `M`, and the coefficient with those two at their values.
pub open spec fn factors_at(f: Seq<(AtomV, real)>, c: real, b: int, m: int, fine: bool) -> (Seq<(AtomV, real)>, real)
    decreases f.len(),
{
    if f.len() == 0 {
        (Seq::empty(), c)
    } else {
        let (rest, k) = factors_at(f.drop_last(), c, b, m, fine);
        let (a, e) = f.last();
        match a {
            AtomV::B => (rest, k * machine_power(b, e, fine)),
            AtomV::M => (rest, k * machine_power(m, e, fine)),
            _ => (put(rest, a, e), k),
        }
    }
}

/// The polynomial with `B` and `M` at their values.
pub open spec fn terms_at(t: Seq<(MonoV, real)>, b: int, m: int) -> PolyV
    decreases t.len(),
{
    if t.len() == 0 {
        p_zero()
    } else {
        let r = factors_at(t.last().0.factors, t.last().1, b, m, false);
        p_add(terms_at(t.drop_last(), b, m), p_term(MonoV { factors: r.0 }, r.1))
    }
}

fn power_of(x: i128, e: &Rat, fine: bool) -> (r: Rat)
    requires
        x > 0,
    ensures
        r@ == machine_power(x as int, e@, fine),
{
    if fine {
        rat_fine_pow(&Rat::integer(x), e)
    } else {
        rat_pow(&Rat::integer(x), e)
    }
}

proof fn leading_from(t: Seq<(MonoV, real)>, top: Option<real>)
    ensures
        forall|i: int| 0 <= i < leading_terms(t, top).len() ==> t.contains(#[trigger] leading_terms(t, top)[i]),
    decreases t.len(),
{
    if t.len() > 0 {
        let u = t.drop_last();
        leading_from(u, top);
        let r = leading_terms(t, top);
        assert forall|i: int| 0 <= i < r.len() implies t.contains(#[trigger] r[i]) by {
            if i < leading_terms(u, top).len() {
                let x = leading_terms(u, top)[i];
                assert(u.contains(x));
                let j = choose|j: int| 0 <= j < u.len() && u[j] == x;
                assert(t[j] == x);
            } else {
                assert(t[t.len() - 1] == r[i]);
            }
        }
    }
}

impl Atom {
    #[verifier::loop_isolation(false)]
    fn subst_pow(&self, v: usize, by: &Poly) -> (r: Atom)
        requires
            by@.terms.len() == 1,
            by@.terms[0].1 > 0real,
        ensures
            r@ == a_subst_pow(self@, v as int, by@.terms[0].0, by@.terms[0].1),
        decreases self,
    {
        proof {
            reveal(p_subst_pow);
            atom_view_is(*self);
        }
        match self {
            Atom::Log(p) => {
                let r = Atom::Log(Box::new(p.subst_pow(v, by)));
                proof {
                    atom_view_is(r);
                }
                r
            },
            Atom::Opaque(o) => {
                let mut args: Vec<Option<Poly>> = Vec::new();
                let mut k: usize = 0;
                while k < o.args.len()
                    invariant
                        k <= o.args.len(),
                        args@.len() == k,
                        forall|i: int| 0 <= i < k ==> arg_v(#[trigger] args@[i]) == arg_subst_pow(
                            arg_v(o.args@[i]),
                            v as int,
                            by@.terms[0].0,
                            by@.terms[0].1,
                        ),
                    decreases o.args.len() - k,
                {
                    let a = match &o.args[k] {
                        Some(p) => Some(p.subst_pow(v, by)),
                        None => None,
                    };
                    proof {
                        reveal_with_fuel(arg_subst_pow, 2);
                        assert(arg_v(a) == arg_subst_pow(
                            arg_v(o.args@[k as int]),
                            v as int,
                            by@.terms[0].0,
                            by@.terms[0].1,
                        ));
                    }
                    args.push(a);
                    k += 1;
                }
                let q = Opaque { callee: copy_text(&o.callee), moves: o.moves, args };
                let ghost qv = q@;
                let r = Atom::Opaque(Box::new(q));
                proof {
                    opaque_view_is(**o);
                    opaque_view_is(q);
                    atom_view_is(r);
                    assert(a_subst_pow(self@, v as int, by@.terms[0].0, by@.terms[0].1)->Opaque_0.args =~= qv.args);
                }
                r
            },
            _ => self.copy(),
        }
    }
}

impl Poly {
    /// The size variables this polynomial mentions, in the order of their first occurrence.
    #[verifier::loop_isolation(false)]
    pub fn vars(&self) -> (r: Vec<usize>)
        ensures
            ints(r@) == p_vars(self@),
            no_repeats(ints(r@)),
            forall|i: int| #[trigger] ints(r@).contains(i) == p_mentions(self@, i),
        decreases self,
    {
        proof {
            vars_mentioned(self@);
        }
        let mut out: Vec<usize> = Vec::new();
        let ghost t = self@.terms;
        let mut i: usize = 0;
        proof {
            assert(t.take(0) =~= Seq::empty());
            assert(ints(out@) =~= Seq::empty());
        }
        while i < self.len()
            invariant
                i <= t.len(),
                ints(out@) == terms_vars(t.take(i as int)),
            decreases t.len() - i,
        {
            let m = self.mono_at(i);
            let ghost f = m@.factors;
            let ghost start = ints(out@);
            let mut j: usize = 0;
            proof {
                assert(f.take(0) =~= Seq::empty());
                assert(t.take(i + 1).drop_last() =~= t.take(i as int));
            }
            while j < m.len()
                invariant
                    j <= f.len(),
                    ints(out@) == factors_vars(start, f.take(j as int)),
                decreases f.len() - j,
            {
                let a = m.atom_at(j);
                proof {
                    atom_view_is(*a);
                    assert(f.take(j + 1).drop_last() =~= f.take(j as int));
                }
                match a {
                    Atom::Var(x) => {
                        push_new(&mut out, *x);
                    },
                    Atom::Log(q) => {
                        push_all_new(&mut out, &q.vars());
                    },
                    Atom::Opaque(o) => {
                        proof {
                            opaque_view_is(**o);
                        }
                        let ghost g = o@.args;
                        let ghost begin = ints(out@);
                        let mut k: usize = 0;
                        proof {
                            assert(g.take(0) =~= Seq::empty());
                        }
                        while k < o.args.len()
                            invariant
                                k <= g.len(),
                                ints(out@) == args_vars(begin, g.take(k as int)),
                            decreases g.len() - k,
                        {
                            proof {
                                assert(g.take(k + 1).drop_last() =~= g.take(k as int));
                                assert(g.take(k + 1).last() == arg_v(o.args@[k as int]));
                            }
                            if let Some(p) = &o.args[k] {
                                push_all_new(&mut out, &p.vars());
                            }
                            k += 1;
                        }
                        proof {
                            assert(g.take(k as int) =~= g);
                        }
                    },
                    _ => {},
                }
                j += 1;
            }
            proof {
                assert(f.take(j as int) =~= f);
            }
            i += 1;
        }
        proof {
            assert(t.take(i as int) =~= t);
        }
        out
    }

    /// Largest variable index used, for allocating fresh atoms above it.
    #[verifier::loop_isolation(false)]
    pub fn max_var(&self) -> (r: Option<usize>)
        ensures
            opt_int(r) == p_max_var(self@),
            match r {
                Some(m) => p_mentions(self@, m as int) && forall|i: int| #[trigger] p_mentions(self@, i) ==> i <= m,
                None => forall|i: int| !#[trigger] p_mentions(self@, i),
            },
        decreases self,
    {
        proof {
            max_var_top(self@);
            let f = |i: int| p_mentions(self@, i);
            assert(forall|i: int| #[trigger] p_mentions(self@, i) == f(i));
        }
        let mut best: Option<usize> = None;
        let ghost t = self@.terms;
        let mut i: usize = 0;
        proof {
            assert(t.take(0) =~= Seq::empty());
        }
        while i < self.len()
            invariant
                i <= t.len(),
                opt_int(best) == terms_max_var(t.take(i as int)),
            decreases t.len() - i,
        {
            let m = self.mono_at(i);
            let ghost f = m@.factors;
            let mut here: Option<usize> = None;
            let mut j: usize = 0;
            proof {
                assert(f.take(0) =~= Seq::empty());
                assert(t.take(i + 1).drop_last() =~= t.take(i as int));
            }
            while j < m.len()
                invariant
                    j <= f.len(),
                    opt_int(here) == factors_max_var(f.take(j as int)),
                decreases f.len() - j,
            {
                let a = m.atom_at(j);
                proof {
                    atom_view_is(*a);
                    assert(f.take(j + 1).drop_last() =~= f.take(j as int));
                }
                let one: Option<usize> = match a {
                    Atom::Var(x) => Some(*x),
                    Atom::Log(q) => q.max_var(),
                    Atom::Opaque(o) => {
                        proof {
                            opaque_view_is(**o);
                        }
                        let ghost g = o@.args;
                        let mut most: Option<usize> = None;
                        let mut k: usize = 0;
                        proof {
                            assert(g.take(0) =~= Seq::empty());
                        }
                        while k < o.args.len()
                            invariant
                                k <= g.len(),
                                opt_int(most) == args_max_var(g.take(k as int)),
                            decreases g.len() - k,
                        {
                            proof {
                                assert(g.take(k + 1).drop_last() =~= g.take(k as int));
                                assert(g.take(k + 1).last() == arg_v(o.args@[k as int]));
                            }
                            let x = match &o.args[k] {
                                Some(p) => p.max_var(),
                                None => None,
                            };
                            most = larger_index(most, x);
                            k += 1;
                        }
                        proof {
                            assert(g.take(k as int) =~= g);
                        }
                        most
                    },
                    _ => None,
                };
                here = larger_index(here, one);
                j += 1;
            }
            proof {
                assert(f.take(j as int) =~= f);
            }
            best = larger_index(best, here);
            i += 1;
        }
        proof {
            assert(t.take(i as int) =~= t);
        }
        best
    }

    /// Highest total degree over the given variables.
    #[verifier::loop_isolation(false)]
    pub fn degree_in(&self, vars: &[usize]) -> (r: Rat)
        ensures
            r@ == p_degree_in(self@, ints(vars@)),
    {
        let ghost t = self@.terms;
        let ghost vs = ints(vars@);
        let mut best: Option<Rat> = None;
        let mut i: usize = 0;
        proof {
            assert(t.take(0) =~= Seq::empty());
        }
        while i < self.len()
            invariant
                i <= t.len(),
                opt_real(best) == terms_degree_in(t.take(i as int), vs),
            decreases t.len() - i,
        {
            let m = self.mono_at(i);
            let ghost f = m@.factors;
            let mut sum = Rat::zero();
            let mut j: usize = 0;
            proof {
                assert(f.take(0) =~= Seq::empty());
                assert(t.take(i + 1).drop_last() =~= t.take(i as int));
            }
            while j < m.len()
                invariant
                    j <= f.len(),
                    sum@ == degree_over(f.take(j as int), vs),
                decreases f.len() - j,
            {
                let a = m.atom_at(j);
                proof {
                    atom_view_is(*a);
                    assert(f.take(j + 1).drop_last() =~= f.take(j as int));
                }
                if let Atom::Var(x) = a {
                    if has_index(vars, *x) {
                        sum = sum.add(m.exponent_at(j));
                    }
                }
                j += 1;
            }
            proof {
                assert(f.take(j as int) =~= f);
            }
            best = larger_rat(best, sum);
            i += 1;
        }
        proof {
            assert(t.take(i as int) =~= t);
        }
        match best {
            Some(d) => d,
            None => Rat::zero(),
        }
    }

    /// The terms of highest total degree in the size variables: what the cost is asymptotically.
    /// An unknown callee's term has no degree anyone knows, so it is never dropped as lower order.
    #[verifier::loop_isolation(false)]
    pub fn leading(&self) -> (r: Poly)
        ensures
            r@ == p_leading(self@),
    {
        let ghost t = self@.terms;
        self.known();
        let mut top: Option<Rat> = None;
        let mut i: usize = 0;
        proof {
            assert(t.take(0) =~= Seq::empty());
        }
        while i < self.len()
            invariant
                i <= t.len(),
                opt_real(top) == top_degree(t.take(i as int)),
            decreases t.len() - i,
        {
            let m = self.mono_at(i);
            proof {
                assert(t.take(i + 1).drop_last() =~= t.take(i as int));
            }
            if !m.has_opaque() {
                top = larger_rat(top, m.degree());
            }
            i += 1;
        }
        proof {
            assert(t.take(i as int) =~= t);
        }
        let ghost tv = opt_real(top);
        let mut out = Poly::zero();
        let mut j: usize = 0;
        while j < self.len()
            invariant
                j <= t.len(),
                out@.terms == leading_terms(t.take(j as int), tv),
            decreases t.len() - j,
        {
            let m = self.mono_at(j);
            let keep: bool = m.has_opaque() || match &top {
                Some(d) => d.same(&m.degree()),
                None => false,
            };
            proof {
                assert(t.take(j + 1).drop_last() =~= t.take(j as int));
                let before = leading_terms(t.take(j as int), tv);
                leading_from(t.take(j as int), tv);
                assert forall|k: int| 0 <= k < before.len() implies (#[trigger] before[k]).0.before(t[j as int].0) by {
                    assert(t.take(j as int).contains(before[k]));
                    let l = choose|l: int| 0 <= l < j && t.take(j as int)[l] == before[k];
                    assert(t[l].0.before(t[j as int].0));
                }
                crate::cost::assoc::slot_known(before, t[j as int].0, before.len() as int);
                assert(t[j as int].1 != 0real);
                assert(bump(before, t[j as int].0, t[j as int].1) =~= before.push(t[j as int]));
            }
            if keep {
                out = out.bumped(m.copy(), self.coeff_at(j));
            }
            j += 1;
        }
        proof {
            assert(t.take(j as int) =~= t);
        }
        out
    }

    /// `self / other` when both are single terms; the exponents subtract.
    pub fn div_mono(&self, other: &Poly) -> (r: Option<Poly>)
        ensures
            opt_poly(r) == p_div_mono(self@, other@),
    {
        if self.len() != 1 || other.len() != 1 {
            return None;
        }
        other.known();
        let m = self.mono_at(0).mul(&other.mono_at(0).raised(&Rat::integer(-1)));
        let c = self.coeff_at(0).over(other.coeff_at(0));
        Some(Poly::term(m, c))
    }

    /// The value as a rational, when there are no atoms at all.
    pub fn as_const(&self) -> (r: Option<Rat>)
        ensures
            opt_real(r) == p_const(self@),
    {
        if self.len() == 0 {
            return Some(Rat::zero());
        }
        proof {
            let f = self@.terms[0].0;
            assert(f.factors.len() == 0 ==> f.factors =~= m_one().factors);
        }
        if self.len() == 1 && self.mono_at(0).len() == 0 {
            Some(self.coeff_at(0).copy())
        } else {
            None
        }
    }

    /// The one term of a single-term polynomial.
    pub fn as_mono(&self) -> (r: Option<(&Mono, Rat)>)
        ensures
            match r {
                Some(t) => self@.terms.len() == 1 && t.0@ == self@.terms[0].0 && t.1@ == self@.terms[0].1,
                None => self@.terms.len() != 1,
            },
    {
        if self.len() != 1 {
            return None;
        }
        Some((self.mono_at(0), self.coeff_at(0).copy()))
    }

    /// `1/p` for a single positive term.
    pub fn inv_mono(&self) -> (r: Option<Poly>)
        ensures
            opt_poly(r) == p_inv(self@),
    {
        match self.as_mono() {
            Some((m, c)) => {
                if !c.is_positive() {
                    return None;
                }
                Some(Poly::term(m.raised(&Rat::integer(-1)), c.inverse()))
            },
            None => None,
        }
    }

    /// `p^(1/k)` for a single positive term; a coefficient without an exact root is kept to
    /// four decimals.
    pub fn root_mono(&self, k: i128) -> (r: Option<Poly>)
        ensures
            opt_poly(r) == p_root(self@, k as int),
    {
        match self.as_mono() {
            Some((m, c)) => {
                if !c.is_positive() || k <= 0 {
                    return None;
                }
                let e = Rat::new(1, k);
                proof {
                    crate::cost::rat::ratio_side(1, k as int, 0, 1);
                    crate::cost::rat::ratio_one(0);
                    assert(0 * k == 0) by (nonlinear_arith);
                }
                Some(Poly::term(m.raised(&e), rat_pow(&c, &e)))
            },
            None => None,
        }
    }

    /// Substitute a single-term polynomial for a variable, at any rational power of it.
    #[verifier::loop_isolation(false)]
    pub fn subst_pow(&self, var: usize, by: &Poly) -> (r: Poly)
        requires
            by@.terms.len() == 1 ==> by@.terms[0].1 > 0real,
        ensures
            r@ == p_subst_any(self@, var as int, by@),
        decreases self,
    {
        if by.len() != 1 {
            return self.subst(var, by);
        }
        let bm = by.mono_at(0);
        let bc = by.coeff_at(0);
        let ghost v = var as int;
        let ghost t = self@.terms;
        let mut out = Poly::zero();
        let mut i: usize = 0;
        proof {
            reveal(p_subst_pow);
            assert(t.take(0) =~= Seq::empty());
        }
        while i < self.len()
            invariant
                i <= t.len(),
                out@ == terms_subst_pow(t.take(i as int), v, bm@, bc@),
            decreases t.len() - i,
        {
            let m = self.mono_at(i);
            m.known();
            let ghost f = m@.factors;
            let c0 = self.coeff_at(i);
            let mut coef = c0.copy();
            let mut rest = Mono::one();
            let mut j: usize = 0;
            proof {
                assert(f.take(0) =~= Seq::empty());
                assert(t.take(i + 1).drop_last() =~= t.take(i as int));
            }
            while j < m.len()
                invariant
                    j <= f.len(),
                    (rest@.factors, coef@) == factors_subst_pow(f.take(j as int), c0@, v, bm@, bc@),
                decreases f.len() - j,
            {
                let a = m.atom_at(j);
                let e = m.exponent_at(j);
                proof {
                    atom_view_is(*a);
                    assert(f.take(j + 1).drop_last() =~= f.take(j as int));
                    assert(f.take(j + 1).last() == f[j as int]);
                    assert(f[j as int].1 != 0real);
                }
                let it: bool = match a {
                    Atom::Var(x) => *x == var,
                    _ => false,
                };
                let deep: bool = match a {
                    Atom::Log(_) | Atom::Opaque(_) => true,
                    _ => false,
                };
                if it {
                    coef = coef.mul(&rat_pow(bc, e));
                    let up = bm.raised(e);
                    rest = rest.mul(&up);
                } else if deep {
                    rest = rest.bumped(&a.subst_pow(var, by), e);
                } else {
                    rest = rest.bumped(a, e);
                }
                j += 1;
            }
            proof {
                assert(f.take(j as int) =~= f);
            }
            out = out.add(&Poly::term(rest, coef));
            i += 1;
        }
        proof {
            assert(t.take(i as int) =~= t);
        }
        out
    }

    /// The same polynomial with `B` and `M` at their machine values: the form in which two
    /// costs can be compared as functions of the sizes alone. A fractional power of `M` leaves
    /// an irrational coefficient, kept to four decimals.
    #[verifier::loop_isolation(false)]
    pub fn at_machine(&self, b: i128, m: i128) -> (r: Poly)
        requires
            b > 0,
            m > 0,
        ensures
            r@ == terms_at(self@.terms, b as int, m as int),
    {
        let ghost t = self@.terms;
        let mut out = Poly::zero();
        let mut i: usize = 0;
        proof {
            assert(t.take(0) =~= Seq::empty());
        }
        while i < self.len()
            invariant
                i <= t.len(),
                out@ == terms_at(t.take(i as int), b as int, m as int),
            decreases t.len() - i,
        {
            proof {
                assert(t.take(i + 1).drop_last() =~= t.take(i as int));
            }
            let (rest, coef) = self.mono_at(i).at_machine(self.coeff_at(i), b, m, false);
            out = out.add(&Poly::term(rest, coef));
            i += 1;
        }
        proof {
            assert(t.take(i as int) =~= t);
        }
        out
    }
}

impl Mono {
    /// The product without `B` and `M`, and the coefficient with those two at their values.
    #[verifier::loop_isolation(false)]
    pub fn at_machine(&self, c: &Rat, b: i128, m: i128, fine: bool) -> (r: (Mono, Rat))
        requires
            b > 0,
            m > 0,
        ensures
            (r.0@.factors, r.1@) == factors_at(self@.factors, c@, b as int, m as int, fine),
    {
        self.known();
        let ghost f = self@.factors;
        let mut coef = c.copy();
        let mut rest = Mono::one();
        let mut j: usize = 0;
        proof {
            assert(f.take(0) =~= Seq::empty());
        }
        while j < self.len()
            invariant
                j <= f.len(),
                (rest@.factors, coef@) == factors_at(f.take(j as int), c@, b as int, m as int, fine),
            decreases f.len() - j,
        {
            let a = self.atom_at(j);
            let e = self.exponent_at(j);
            proof {
                atom_view_is(*a);
                assert(f.take(j + 1).drop_last() =~= f.take(j as int));
                assert(f.take(j + 1).last() == f[j as int]);
                assert(f[j as int].1 != 0real);
            }
            match a {
                Atom::B => {
                    coef = coef.mul(&power_of(b, e, fine));
                },
                Atom::M => {
                    coef = coef.mul(&power_of(m, e, fine));
                },
                _ => {
                    rest = rest.with(a.copy(), e.copy());
                },
            }
            j += 1;
        }
        proof {
            assert(f.take(j as int) =~= f);
        }
        (rest, coef)
    }
}

pub open spec fn opt_int(x: Option<usize>) -> Option<int> {
    match x {
        Some(i) => Some(i as int),
        None => None,
    }
}

pub open spec fn opt_real(x: Option<Rat>) -> Option<real> {
    match x {
        Some(r) => Some(r@),
        None => None,
    }
}

pub open spec fn opt_poly(x: Option<Poly>) -> Option<PolyV> {
    match x {
        Some(p) => Some(p@),
        None => None,
    }
}

fn larger_index(a: Option<usize>, b: Option<usize>) -> (r: Option<usize>)
    ensures
        opt_int(r) == larger(opt_int(a), opt_int(b)),
{
    match (a, b) {
        (Some(x), Some(y)) => Some(if x < y { y } else { x }),
        (Some(x), None) => Some(x),
        (None, _) => b,
    }
}

pub fn larger_rat(a: Option<Rat>, b: Rat) -> (r: Option<Rat>)
    ensures
        opt_real(r) == real_max(opt_real(a), b@),
{
    match a {
        Some(x) => Some(x.larger(&b)),
        None => Some(b),
    }
}

// ---- laws ----

proof fn leading_has(t: Seq<(MonoV, real)>, top: Option<real>, i: int)
    requires
        0 <= i < t.len(),
        is_leading(t[i].0, top),
    ensures
        leading_terms(t, top).contains(t[i]),
    decreases t.len(),
{
    let u = t.drop_last();
    let r = leading_terms(t, top);
    if i < u.len() {
        leading_has(u, top, i);
        let before = leading_terms(u, top);
        assert(u[i] == t[i]);
        let j = choose|j: int| 0 <= j < before.len() && before[j] == t[i];
        assert(r[j] == t[i]);
    } else {
        assert(r[r.len() - 1] == t[i]);
    }
}

proof fn leading_all(t: Seq<(MonoV, real)>, top: Option<real>)
    requires
        forall|i: int| 0 <= i < t.len() ==> is_leading((#[trigger] t[i]).0, top),
    ensures
        leading_terms(t, top) == t,
    decreases t.len(),
{
    if t.len() > 0 {
        let u = t.drop_last();
        assert forall|i: int| 0 <= i < u.len() implies is_leading((#[trigger] u[i]).0, top) by {
            assert(u[i] == t[i]);
        }
        leading_all(u, top);
        assert(is_leading(t[t.len() - 1].0, top));
        assert(u.push(t.last()) =~= t);
    }
}

proof fn leading_only(t: Seq<(MonoV, real)>, top: Option<real>)
    ensures
        forall|i: int|
            0 <= i < leading_terms(t, top).len() ==> is_leading((#[trigger] leading_terms(t, top)[i]).0, top),
    decreases t.len(),
{
    if t.len() > 0 {
        let before = leading_terms(t.drop_last(), top);
        let r = leading_terms(t, top);
        leading_only(t.drop_last(), top);
        assert forall|i: int| 0 <= i < r.len() implies is_leading((#[trigger] r[i]).0, top) by {
            if i < before.len() {
                assert(r[i] == before[i]);
            }
        }
    }
}

/// The highest degree is that of a term, and no term without an unknown cost has more.
proof fn top_reached(t: Seq<(MonoV, real)>)
    ensures
        match top_degree(t) {
            Some(d) => (exists|i: int|
                0 <= i < t.len() && !m_has_opaque((#[trigger] t[i]).0) && degree(t[i].0.factors) == d) && (forall|i: int|
                0 <= i < t.len() && !m_has_opaque((#[trigger] t[i]).0) ==> degree(t[i].0.factors) <= d),
            None => forall|i: int| 0 <= i < t.len() ==> m_has_opaque((#[trigger] t[i]).0),
        },
    decreases t.len(),
{
    if t.len() > 0 {
        let u = t.drop_last();
        let last = t.len() - 1;
        top_reached(u);
        if let Some(d) = top_degree(u) {
            let i = choose|i: int| 0 <= i < u.len() && !m_has_opaque((#[trigger] u[i]).0) && degree(u[i].0.factors) == d;
            assert(!m_has_opaque(t[i].0));
        }
        if !m_has_opaque(t.last().0) {
            assert(!m_has_opaque(t[last].0));
        }
        assert forall|i: int| 0 <= i < u.len() implies #[trigger] t[i] == u[i] by {}
    }
}

/// The leading terms of the leading terms are all of them.
pub proof fn leading_twice(p: PolyV)
    ensures
        p_leading(p_leading(p)) == p_leading(p),
{
    let t = p.terms;
    let top = top_degree(t);
    let r = leading_terms(t, top);
    leading_only(t, top);
    leading_from(t, top);
    top_reached(t);
    top_reached(r);
    if let Some(d) = top {
        let i = choose|i: int| 0 <= i < t.len() && !m_has_opaque((#[trigger] t[i]).0) && degree(t[i].0.factors) == d;
        leading_has(t, top, i);
        let j = choose|j: int| 0 <= j < r.len() && r[j] == t[i];
        assert(!m_has_opaque(r[j].0));
    }
    if let Some(e) = top_degree(r) {
        let j = choose|j: int| 0 <= j < r.len() && !m_has_opaque((#[trigger] r[j]).0) && degree(r[j].0.factors) == e;
        assert(is_leading(r[j].0, top));
    }
    assert(top_degree(r) == top);
    leading_all(r, top);
}

} // verus!
