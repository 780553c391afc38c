//! What the total of an unrolled recurrence is: the charge now, and the total after one call.

use vstd::prelude::*;
use crate::cost::algebra::{
    m_atom, m_atom_wf, m_mul, m_mul_one, m_mul_wf, m_one, m_wf, p_add, p_add_wf, p_rat, p_rat_wf, p_scale, p_scale_wf,
    p_term, p_term_wf, p_value, p_var, p_wf, p_zero, product_value, real_pow, scale_value, sum_value, term_value,
    valuation, weigh_agrees,
};
use crate::cost::assoc::{
    bump, bump_value, canonical_unique, entry_found, erase, erase_sorted, merge, value, weigh, Ranked,
};
use crate::cost::laws::Weight;
use crate::cost::model::{AtomV, MonoV, PolyV};
use crate::cost::rat::{ratio, ratio_one, whole, whole_parts};
use crate::cost::recur::{linear_total, unrolled};
use crate::cost::replacing::{
    a_deep, all_in, atom_exponent, atom_unmentioned, atoms_among, atoms_in, chained, chained_moving, free_of, in_turn,
    in_turn_value, keys_in, made_of, many_in_turn, map_ok, mono_unmentioned, natural_in, naturals, none_waits,
    orderly, other_exponent, p_deep, replaced_is_valuation, rest_among, rest_settled, settled_in, steps_of,
    steps_orderly, sum_in, unmentioned_exponent, value_with, zero_natural, Steps,
};
use crate::cost::subst::{
    a_hide, a_mentions, a_subst, arg_mentions, count_of, factors_hide, mentioning, p_hide, p_mentions, p_subst,
    p_subst_many, parked, terms_hide,
};
use crate::cost::summing::{replaced, sum_over_steady, sum_over_value};
use crate::cost::sums::{counter, p_sum_over};
use crate::cost::turns::{naturally, same_values, sum_over_equations, summable, terms_naturally, zero_wf};

verus! {

// ---- a variable taken out of a monomial ----

proof fn erase_gone(m: MonoV, x: AtomV)
    requires
        m_wf(m),
    ensures
        forall|j: int| 0 <= j < erase(m.factors, x).len() ==> (#[trigger] erase(m.factors, x)[j]).0 != x,
{
    let f = erase(m.factors, x);
    erase_sorted(m.factors, x);
    assert forall|j: int| 0 <= j < f.len() implies (#[trigger] f[j]).0 != x by {
        entry_found(f, j);
        assert(f[j].1 != 0real);
    }
}

/// The value of a monomial is that of the rest times the power of the variable.
pub proof fn taken_out(m: MonoV, x: AtomV, w: Weight, k: nat)
    requires
        m_wf(m),
        valuation(w),
        value(m.factors, x) == k as real,
    ensures
        w(m) == w(MonoV { factors: erase(m.factors, x) }) * real_pow(w(m_atom(x)), k),
    decreases k,
{
    let rest = MonoV { factors: erase(m.factors, x) };
    erase_sorted(m.factors, x);
    if k == 0 {
        canonical_unique(m.factors, rest.factors);
        let y = w(m);
        assert(y * 1real == y) by (nonlinear_arith);
    } else {
        let less = MonoV { factors: bump(m.factors, x, -1real) };
        bump_value(m.factors, x, -1real);
        m_atom_wf(x);
        m_mul_wf(less, m_atom(x));
        assert forall|a: AtomV| #[trigger] value(m_mul(less, m_atom(x)).factors, a) == value(m.factors, a) by {
            atom_exponent(x, a);
        }
        canonical_unique(m_mul(less, m_atom(x)).factors, m.factors);
        taken_out(less, x, w, (k - 1) as nat);
        let r2 = MonoV { factors: erase(less.factors, x) };
        erase_sorted(less.factors, x);
        assert forall|a: AtomV| #[trigger] value(r2.factors, a) == value(rest.factors, a) by {}
        canonical_unique(r2.factors, rest.factors);
        let (a, p, b) = (w(rest), real_pow(w(m_atom(x)), (k - 1) as nat), w(m_atom(x)));
        assert((a * p) * b == a * (p * b)) by (nonlinear_arith);
    }
}

pub proof fn natural_is(e: real)
    requires
        whole(e),
        e >= 0real,
    ensures
        e == count_of(e) as real,
{
    let k = choose|k: int| e == #[trigger] ratio(k, 1);
    ratio_one(k);
    whole_parts(k);
}

// ---- variables advanced along their shifts ----

/// How each variable moves in one call.
pub type Shifts = Seq<(usize, real)>;

/// The value of a monomial with the variables from the `k`-th on advanced `j` calls.
pub open spec fn advanced(w: Weight, s: Shifts, j: real, m: MonoV, k: int) -> real
    decreases s.len() - k,
{
    if 0 <= k < s.len() {
        let x = AtomV::Var(s[k].0 as int);
        advanced(w, s, j, MonoV { factors: erase(m.factors, x) }, k + 1) * real_pow(
            w(m_atom(x)) + j * s[k].1,
            count_of(value(m.factors, x)),
        )
    } else {
        w(m)
    }
}

/// The value of a polynomial with the variables advanced `j` calls.
pub open spec fn charge(f: PolyV, w: Weight, s: Shifts, j: nat) -> real {
    p_value(f, |m: MonoV| advanced(w, s, j as real, m, 0))
}

/// The place after a call: the variables have moved along their shifts, and nothing else has.
pub open spec fn moved(w: Weight, after: Weight, s: Shifts) -> bool {
    &&& forall|k: int|
        0 <= k < s.len() ==> after(m_atom(AtomV::Var((#[trigger] s[k]).0 as int))) == w(
            m_atom(AtomV::Var(s[k].0 as int)),
        ) + s[k].1
    &&& forall|m: MonoV|
        m_wf(m) && (forall|k: int| 0 <= k < s.len() ==> free_of(m, (#[trigger] s[k]).0 as int)) ==> #[trigger] after(m)
            == w(m)
}

/// What the law asks of the shifts: the variables differ, and none is where variables wait.
pub open spec fn shifts_ok(s: Shifts) -> bool {
    &&& forall|i: int, j: int| 0 <= i < j < s.len() ==> (#[trigger] s[i]).0 != (#[trigger] s[j]).0
    &&& forall|i: int| 0 <= i < s.len() ==> (#[trigger] s[i]).0 < parked(0)
    &&& parked(s.len() as int) <= unrolled()
}

/// What the law asks of a charge: the variables stand only by themselves in it, at natural
/// exponents, and none that is used in solving occurs.
pub open spec fn charge_ok(f: PolyV, s: Shifts) -> bool {
    &&& p_deep(f)
    &&& none_waits(f, s.len())
    &&& !p_mentions(f, unrolled())
    &&& !p_mentions(f, counter())
    &&& forall|i: int, j: int|
        0 <= i < f.terms.len() && 0 <= j < s.len() ==> natural_in((#[trigger] f.terms[i]).0, (#[trigger] s[j]).0 as int)
            && settled_in(f.terms[i].0, s[j].0 as int)
}

/// The monomial has the variables from the `k`-th on only by themselves, at natural exponents, and
/// those before not at all.
spec fn partly(m: MonoV, s: Shifts, k: int) -> bool {
    &&& m_wf(m)
    &&& forall|i: int| 0 <= i < k ==> free_of(m, (#[trigger] s[i]).0 as int)
    &&& forall|i: int|
        k <= i < s.len() ==> natural_in(m, (#[trigger] s[i]).0 as int) && settled_in(m, s[i].0 as int)
}

proof fn partly_next(m: MonoV, s: Shifts, k: int)
    requires
        partly(m, s, k),
        shifts_ok(s),
        0 <= k < s.len(),
    ensures
        partly(MonoV { factors: erase(m.factors, AtomV::Var(s[k].0 as int)) }, s, k + 1),
{
    let v = s[k].0 as int;
    let x = AtomV::Var(v);
    let r = MonoV { factors: erase(m.factors, x) };
    erase_sorted(m.factors, x);
    erase_gone(m, x);
    assert forall|i: int| 0 <= i < k + 1 implies free_of(r, (#[trigger] s[i]).0 as int) by {
        let u = s[i].0 as int;
        assert forall|j: int| 0 <= j < r.factors.len() implies a_deep((#[trigger] r.factors[j]).0) && !a_mentions(
            r.factors[j].0,
            u,
        ) by {
            rest_among(m, x, j);
            let l = choose|l: int| 0 <= l < m.factors.len() && m.factors[l] == r.factors[j];
            if i < k {
                assert(free_of(m, s[i].0 as int));
                assert(a_deep(m.factors[l].0));
            } else {
                assert(settled_in(m, s[k].0 as int));
                assert(m.factors[l].0 == x || a_deep(m.factors[l].0));
            }
        }
    }
    assert forall|i: int| k + 1 <= i < s.len() implies natural_in(r, (#[trigger] s[i]).0 as int) && settled_in(
        r,
        s[i].0 as int,
    ) by {
        assert(s[k].0 != s[i].0);
        assert(natural_in(m, s[i].0 as int));
        rest_settled(m, v, s[i].0 as int);
    }
}

/// Advanced by no call, a monomial is worth what it is worth.
proof fn advanced_none(w: Weight, s: Shifts, m: MonoV, k: int)
    requires
        valuation(w),
        shifts_ok(s),
        0 <= k <= s.len(),
        partly(m, s, k),
    ensures
        advanced(w, s, 0real, m, k) == w(m),
    decreases s.len() - k,
{
    if k < s.len() {
        let x = AtomV::Var(s[k].0 as int);
        partly_next(m, s, k);
        advanced_none(w, s, MonoV { factors: erase(m.factors, x) }, k + 1);
        assert(natural_in(m, s[k].0 as int));
        natural_is(value(m.factors, x));
        taken_out(m, x, w, count_of(value(m.factors, x)));
        let d = s[k].1;
        assert(0real * d == 0real) by (nonlinear_arith);
    }
}

/// A call further on is one call more.
proof fn advanced_moved(w: Weight, after: Weight, s: Shifts, j: real, m: MonoV, k: int)
    requires
        moved(w, after, s),
        shifts_ok(s),
        0 <= k <= s.len(),
        partly(m, s, k),
    ensures
        advanced(after, s, j, m, k) == advanced(w, s, j + 1real, m, k),
    decreases s.len() - k,
{
    if k < s.len() {
        let x = AtomV::Var(s[k].0 as int);
        partly_next(m, s, k);
        advanced_moved(w, after, s, j, MonoV { factors: erase(m.factors, x) }, k + 1);
        let (a, d) = (w(m_atom(x)), s[k].1);
        assert(after(m_atom(AtomV::Var(s[k].0 as int))) == a + d);
        assert((a + d) + j * d == a + (j + 1real) * d) by (nonlinear_arith);
    } else {
        assert(forall|i: int| 0 <= i < s.len() ==> free_of(m, (#[trigger] s[i]).0 as int));
    }
}

// ---- what is hidden ----

spec fn shown(m: MonoV, u: int) -> MonoV {
    MonoV { factors: factors_hide(m.factors, mentioning(u)) }
}

proof fn factors_shown(f: Seq<(AtomV, real)>, u: int)
    requires
        forall|j: int| 0 <= j < f.len() ==> a_hide((#[trigger] f[j]).0, mentioning(u)) == f[j].0,
    ensures
        factors_hide(f, mentioning(u)) == merge(Seq::empty(), f),
    decreases f.len(),
{
    if f.len() > 0 {
        let g = f.drop_last();
        assert forall|j: int| 0 <= j < g.len() implies a_hide((#[trigger] g[j]).0, mentioning(u)) == g[j].0 by {
            assert(g[j] == f[j]);
        }
        factors_shown(g, u);
        assert(a_hide(f[f.len() - 1].0, mentioning(u)) == f[f.len() - 1].0);
    }
}

proof fn atom_shown(a: AtomV, u: int)
    requires
        !(a is Opaque) || !a_mentions(a, u),
    ensures
        a_hide(a, mentioning(u)) == a,
{
    if let AtomV::Opaque(o) = a {
        let r = a_hide(a, mentioning(u))->Opaque_0;
        assert forall|i: int| 0 <= i < o.args.len() implies #[trigger] r.args[i] == o.args[i] by {
            assert(!arg_mentions(o.args[i], u));
        }
        assert(r.args =~= o.args);
        assert(*r == *o);
    }
}

proof fn terms_shown(t: Seq<(MonoV, real)>, u: int, w: Weight)
    requires
        forall|i: int|
            0 <= i < t.len() ==> shown((#[trigger] t[i]).0, u) == t[i].0,
    ensures
        p_value(terms_hide(t, mentioning(u)), w) == weigh(t, w),
    decreases t.len(),
{
    if t.len() > 0 {
        let r = t.drop_last();
        assert forall|i: int| 0 <= i < r.len() implies shown((#[trigger] r[i]).0, u) == r[i].0 by {
            assert(r[i] == t[i]);
        }
        terms_shown(r, u, w);
        let (m, c) = t[t.len() - 1];
        assert(shown(t[t.len() - 1].0, u) == m);
        sum_value(terms_hide(r, mentioning(u)), p_term(m, c), w);
        term_value(m, c, w);
    }
}

proof fn terms_hide_wf(t: Seq<(MonoV, real)>, u: int)
    requires
        forall|i: int|
            0 <= i < t.len() ==> m_wf((#[trigger] t[i]).0) && shown(t[i].0, u) == t[i].0,
    ensures
        p_wf(terms_hide(t, mentioning(u))),
    decreases t.len(),
{
    if t.len() == 0 {
        zero_wf();
    } else {
        let r = t.drop_last();
        assert forall|i: int| 0 <= i < r.len() implies m_wf((#[trigger] r[i]).0) && shown(r[i].0, u) == r[i].0 by {
            assert(r[i] == t[i]);
        }
        terms_hide_wf(r, u);
        assert(m_wf(t[t.len() - 1].0));
        assert(shown(t[t.len() - 1].0, u) == t[t.len() - 1].0);
        p_term_wf(t.last().0, t.last().1);
        p_add_wf(terms_hide(r, mentioning(u)), p_term(t.last().0, t.last().1));
    }
}

/// Where no unknown cost has the variable in an argument, nothing is hidden.
pub proof fn nothing_hidden(p: PolyV, u: int)
    requires
        p_wf(p),
        forall|i: int, j: int|
            #![trigger p.terms[i].0.factors[j]]
            0 <= i < p.terms.len() && 0 <= j < p.terms[i].0.factors.len() ==> !(p.terms[i].0.factors[j].0 is Opaque)
                || !a_mentions(p.terms[i].0.factors[j].0, u),
    ensures
        p_hide(p, mentioning(u)) == p,
{
    let t = p.terms;
    assert forall|i: int| 0 <= i < t.len() implies m_wf((#[trigger] t[i]).0) && shown(t[i].0, u) == t[i].0 by {
        let m = p.terms[i].0;
        assert(m_wf(p.terms[i].0));
        assert forall|j: int| 0 <= j < m.factors.len() implies a_hide((#[trigger] m.factors[j]).0, mentioning(u))
            == m.factors[j].0 by {
            assert(p.terms[i].0.factors[j] == m.factors[j]);
            atom_shown(m.factors[j].0, u);
        }
        factors_shown(m.factors, u);
        m_mul_one(m);
    }
    terms_hide_wf(t, u);
    let r = terms_hide(t, mentioning(u));
    assert forall|w: Weight| #[trigger] p_value(r, w) == p_value(p, w) by {
        terms_shown(t, u, w);
    }
    same_values(r, p);
}

// ---- the unrolled charge ----

/// Each variable put where it is after as many calls as the counting variable says.
pub open spec fn along(s: Shifts) -> Seq<(usize, PolyV)> {
    Seq::new(s.len(), |i: int| (s[i].0, p_add(p_var(s[i].0 as int), p_scale(p_var(unrolled()), s[i].1))))
}

/// The atoms that may occur on the way: variables but for the loop counter, and atoms that mention
/// nothing that is replaced.
spec fn usable(s: Shifts) -> spec_fn(AtomV) -> bool {
    |a: AtomV|
        {
            &&& a_deep(a)
            &&& !a_mentions(a, counter())
            &&& a is Var || (!a_mentions(a, unrolled()) && untouched(a, s))
        }
}

spec fn untouched(a: AtomV, s: Shifts) -> bool {
    &&& forall|i: int| 0 <= i < s.len() ==> !a_mentions(a, (#[trigger] s[i]).0 as int)
    &&& forall|i: int| 0 <= i < s.len() ==> !a_mentions(a, #[trigger] parked(i))
}

proof fn var_usable(v: int, s: Shifts)
    requires
        v != counter(),
    ensures
        p_wf(p_var(v)),
        p_deep(p_var(v)),
        atoms_in(p_var(v), usable(s)),
        forall|u: int| #[trigger] p_mentions(p_var(v), u) ==> u == v,
{
    let x = m_atom(AtomV::Var(v));
    m_atom_wf(AtomV::Var(v));
    p_term_wf(x, 1real);
    assert(x.factors =~= seq![(AtomV::Var(v), 1real)]);
    assert(p_var(v).terms =~= seq![(x, 1real)]);
    assert(keys_in(x.factors, usable(s)));
    assert(made_of(usable(s))(p_var(v).terms[0].0));
    assert forall|i: int, j: int|
        #![trigger p_var(v).terms[i].0.factors[j]]
        0 <= i < p_var(v).terms.len() && 0 <= j < p_var(v).terms[i].0.factors.len() implies a_deep(
        p_var(v).terms[i].0.factors[j].0,
    ) by {
        assert(p_var(v).terms[i].0.factors[j].0 == AtomV::Var(v));
    }
    assert forall|u: int| #[trigger] p_mentions(p_var(v), u) implies u == v by {
        let p = p_var(v);
        let (i, j) = choose|i: int, j: int|
            #![trigger p.terms[i].0.factors[j]]
            0 <= i < p.terms.len() && 0 <= j < p.terms[i].0.factors.len() && a_mentions(p.terms[i].0.factors[j].0, u);
        assert(p.terms[i].0.factors[j].0 == AtomV::Var(v));
    }
}

/// What one variable is put to: canonical, of usable atoms, with natural exponents of the counting
/// variable.
proof fn along_one(s: Shifts, i: int)
    requires
        shifts_ok(s),
        0 <= i < s.len(),
    ensures
        ({
            let by = along(s)[i].1;
            &&& p_wf(by)
            &&& p_deep(by)
            &&& atoms_in(by, usable(s))
            &&& all_in(by, naturally(unrolled()))
            &&& none_waits(by, s.len())
        }),
{
    let (v, d) = (s[i].0 as int, s[i].1);
    let u = unrolled();
    let (a, b) = (p_var(v), p_scale(p_var(u), d));
    let by = p_add(a, b);
    assert(s[i].0 < parked(0));
    var_usable(v, s);
    var_usable(u, s);
    p_scale_wf(p_var(u), d);
    p_add_wf(a, b);
    let ok = made_of(usable(s));
    assert forall|j: int| 0 <= j < b.terms.len() implies ok((#[trigger] b.terms[j]).0) by {
        assert(b.terms[j].0 == p_var(u).terms[j].0);
        assert(ok(p_var(u).terms[j].0));
    }
    sum_in(a, b, ok);
    assert forall|j: int, l: int|
        #![trigger by.terms[j].0.factors[l]]
        0 <= j < by.terms.len() && 0 <= l < by.terms[j].0.factors.len() implies a_deep(by.terms[j].0.factors[l].0) by {
        assert(ok(by.terms[j].0));
        let f = by.terms[j].0.factors;
        assert(usable(s)(f[l].0));
    }
    let good = naturally(u);
    let (xa, xb) = (m_atom(AtomV::Var(v)), m_atom(AtomV::Var(u)));
    atom_exponent(AtomV::Var(v), AtomV::Var(u));
    atom_exponent(AtomV::Var(u), AtomV::Var(u));
    ratio_one(0);
    ratio_one(1);
    assert(0real == ratio(0, 1) && 1real == ratio(1, 1));
    assert(good(xa) && good(xb));
    assert forall|j: int| 0 <= j < b.terms.len() implies good((#[trigger] b.terms[j]).0) by {
        assert(b.terms[j].0 == p_var(u).terms[j].0);
    }
    sum_in(a, b, good);
    // nothing that waits
    let here = |m: MonoV| m == xa || m == xb;
    assert forall|j: int| 0 <= j < b.terms.len() implies here((#[trigger] b.terms[j]).0) by {
        assert(b.terms[j].0 == p_var(u).terms[j].0);
    }
    sum_in(a, b, here);
    assert(xa.factors =~= seq![(AtomV::Var(v), 1real)]);
    assert(xb.factors =~= seq![(AtomV::Var(u), 1real)]);
    assert forall|k: int| 0 <= k < s.len() implies !#[trigger] p_mentions(by, parked(k)) by {
        if p_mentions(by, parked(k)) {
            let (j, l) = choose|j: int, l: int|
                #![trigger by.terms[j].0.factors[l]]
                0 <= j < by.terms.len() && 0 <= l < by.terms[j].0.factors.len() && a_mentions(
                    by.terms[j].0.factors[l].0,
                    parked(k),
                );
            assert(here(by.terms[j].0));
        }
    }
}

proof fn along_ok(s: Shifts)
    requires
        shifts_ok(s),
    ensures
        map_ok(along(s)),
{
    let map = along(s);
    assert forall|i: int, j: int| 0 <= i < j < map.len() implies (#[trigger] map[i]).0 != (#[trigger] map[j]).0 by {
        assert(s[i].0 != s[j].0);
    }
    assert forall|i: int| 0 <= i < map.len() implies (#[trigger] map[i]).0 < parked(0) && p_deep(map[i].1) && none_waits(
        map[i].1,
        map.len(),
    ) by {
        assert(s[i].0 < parked(0));
        along_one(s, i);
    }
}

/// The charge with its variables put along their shifts, and every polynomial on the way to it.
proof fn on_the_way(f: PolyV, s: Shifts, k: nat)
    requires
        shifts_ok(s),
        charge_ok(f, s),
        k <= 2 * s.len(),
    ensures
        ({
            let p = in_turn(f, steps_of(along(s)), k);
            p_wf(p) && atoms_in(p, usable(s)) && all_in(p, naturally(unrolled()))
        }),
    decreases k,
{
    let st = steps_of(along(s));
    let u = unrolled();
    let g = usable(s);
    let n = s.len();
    if k == 0 {
        assert forall|i: int| 0 <= i < f.terms.len() implies made_of(g)((#[trigger] f.terms[i]).0) && naturally(u)(
            f.terms[i].0,
        ) by {
            let m = f.terms[i].0;
            unmentioned_exponent(f, i, u);
            zero_natural(m, u);
            assert forall|j: int| 0 <= j < m.factors.len() implies g((#[trigger] m.factors[j]).0) by {
                let a = m.factors[j].0;
                assert(a_deep(f.terms[i].0.factors[j].0));
                assert(!a_mentions(f.terms[i].0.factors[j].0, u));
                assert(!a_mentions(f.terms[i].0.factors[j].0, counter()));
                if !(a is Var) {
                    assert forall|l: int| 0 <= l < n implies !a_mentions(a, (#[trigger] s[l]).0 as int) by {
                        assert(settled_in(f.terms[i].0, s[l].0 as int));
                        assert(m.factors[j].0 == AtomV::Var(s[l].0 as int) || !a_mentions(m.factors[j].0, s[l].0 as int));
                    }
                    assert forall|l: int| 0 <= l < n implies !a_mentions(a, #[trigger] parked(l)) by {
                        assert(!p_mentions(f, parked(l)));
                        assert(!a_mentions(f.terms[i].0.factors[j].0, parked(l)));
                    }
                }
            }
        }
    } else {
        let i = k - 1;
        on_the_way(f, s, i as nat);
        let p = in_turn(f, st, i as nat);
        let (v, by) = st[i];
        if i < n {
            assert(s[i].0 < parked(0));
            var_usable(parked(i), s);
            atom_exponent(AtomV::Var(parked(i)), AtomV::Var(u));
            zero_natural(m_atom(AtomV::Var(parked(i))), u);
            assert(all_in(by, naturally(u)));
        } else {
            along_one(s, i - n);
        }
        assert(v != u && v != counter());
        assert forall|a: int, b: int|
            #![trigger p.terms[a].0.factors[b]]
            0 <= a < p.terms.len() && 0 <= b < p.terms[a].0.factors.len() && p.terms[a].0.factors[b].0 != AtomV::Var(v)
                implies g(a_subst(p.terms[a].0.factors[b].0, v, by)) by {
            assert(made_of(g)(p.terms[a].0));
            let fs = p.terms[a].0.factors;
            let x = fs[b].0;
            assert(g(fs[b].0));
            if !(x is Var) {
                if i < n {
                    assert(!a_mentions(x, s[i].0 as int));
                } else {
                    assert(!a_mentions(x, parked(i - n)));
                }
                atom_unmentioned(x, v, by);
            }
        }
        atoms_among(p, v, by, g);
        assert forall|a: int| 0 <= a < p.terms.len() implies m_wf((#[trigger] p.terms[a]).0) && naturally(u)(
            crate::cost::replacing::m_subst(p.terms[a].0, v, by),
        ) by {
            assert(m_wf(p.terms[a].0));
            assert(naturally(u)(p.terms[a].0));
            other_exponent(p.terms[a].0, v, by, u);
        }
        terms_naturally(p.terms, v, by, u);
        reveal(p_subst);
    }
}

proof fn unrolled_charge(f: PolyV, s: Shifts)
    requires
        shifts_ok(s),
        charge_ok(f, s),
    ensures
        ({
            let p = p_subst_many(f, along(s));
            &&& summable(p, unrolled())
            &&& !p_mentions(p, counter())
            &&& p_hide(p, mentioning(unrolled())) == p
        }),
{
    let p = p_subst_many(f, along(s));
    let u = unrolled();
    let g = usable(s);
    many_in_turn(f, along(s), s.len());
    on_the_way(f, s, 2 * s.len());
    assert(p == in_turn(f, steps_of(along(s)), 2 * s.len()));
    assert forall|i: int, j: int|
        #![trigger p.terms[i].0.factors[j]]
        0 <= i < p.terms.len() && 0 <= j < p.terms[i].0.factors.len() implies g(p.terms[i].0.factors[j].0) by {
        assert(made_of(g)(p.terms[i].0));
        let fs = p.terms[i].0.factors;
        assert(g(fs[j].0));
    }
    assert forall|i: int| 0 <= i < p.terms.len() implies natural_in((#[trigger] p.terms[i]).0, u) && settled_in(
        p.terms[i].0,
        u,
    ) by {
        assert(naturally(u)(p.terms[i].0));
        let m = p.terms[i].0;
        assert forall|j: int| 0 <= j < m.factors.len() implies (#[trigger] m.factors[j]).0 == AtomV::Var(u) || (a_deep(
            m.factors[j].0,
        ) && !a_mentions(m.factors[j].0, u)) by {
            assert(g(p.terms[i].0.factors[j].0));
        }
    }
    nothing_hidden(p, u);
}

// ---- the charge after some calls ----

proof fn prefix_in_turn(p: PolyV, s: Steps, x: (int, PolyV), k: nat)
    requires
        k <= s.len(),
    ensures
        in_turn(p, s.push(x), k) == in_turn(p, s, k),
    decreases k,
{
    if k > 0 {
        prefix_in_turn(p, s, x, (k - 1) as nat);
        assert(s.push(x)[k - 1] == s[k - 1]);
    }
}

proof fn chained_push(w: Weight, s: Steps, x: (int, PolyV), k: int)
    requires
        0 <= k <= s.len(),
    ensures
        chained(w, s.push(x), k) == chained(replaced(w, x.0, x.1), s, k),
    decreases s.len() - k,
{
    if k < s.len() {
        chained_push(w, s, x, k + 1);
        assert(s.push(x)[k] == s[k]);
    } else {
        assert(s.push(x)[k] == x);
        assert(chained(w, s.push(x), k + 1) == w);
    }
}

proof fn steps_with_count(s: Shifts, c: PolyV)
    requires
        shifts_ok(s),
        p_wf(c),
    ensures
        orderly(steps_of(along(s)).push((unrolled(), c))),
{
    let st = steps_of(along(s));
    let all = st.push((unrolled(), c));
    let u = unrolled();
    let n = s.len();
    along_ok(s);
    steps_orderly(along(s));
    assert forall|i: int, j: int| 0 <= i < j < all.len() implies (#[trigger] all[i]).0 != (#[trigger] all[j]).0 by {
        if j < st.len() {
            assert(st[i].0 != st[j].0);
        } else if i < n {
            assert(s[i].0 < parked(0));
        }
    }
    assert forall|i: int| 0 <= i < all.len() implies p_wf((#[trigger] all[i]).1) && all_in(
        all[i].1,
        naturals(all, i + 1),
    ) by {
        if i < st.len() {
            let by = st[i].1;
            assert(p_wf(st[i].1) && all_in(st[i].1, naturals(st, i + 1)));
            if i < n {
                var_usable(parked(i), s);
                atom_exponent(AtomV::Var(parked(i)), AtomV::Var(u));
                zero_natural(m_atom(AtomV::Var(parked(i))), u);
                assert(all_in(by, naturally(u)));
            } else {
                along_one(s, i - n);
            }
            assert forall|l: int| 0 <= l < by.terms.len() implies naturals(all, i + 1)((#[trigger] by.terms[l]).0) by {
                let m = by.terms[l].0;
                assert(naturals(st, i + 1)(by.terms[l].0));
                assert(naturally(u)(by.terms[l].0));
                assert forall|j: int| i + 1 <= j < all.len() implies natural_in(m, (#[trigger] all[j]).0) by {
                    if j < st.len() {
                        assert(natural_in(m, st[j].0));
                    }
                }
            }
        }
    }
}

/// With the counting variable at `j`, the unrolled charge is the charge after `j` calls.
proof fn charge_at(f: PolyV, s: Shifts, w: Weight, j: nat)
    requires
        shifts_ok(s),
        charge_ok(f, s),
        valuation(w),
    ensures
        p_value(p_subst(p_subst_many(f, along(s)), unrolled(), p_rat(j as real)), w) == charge(f, w, s, j),
{
    let map = along(s);
    let u = unrolled();
    let c = p_rat(j as real);
    let st = steps_of(map);
    let all = st.push((u, c));
    let w1 = replaced(w, u, c);
    p_rat_wf(j as real);
    steps_with_count(s, c);
    along_ok(s);
    many_in_turn(f, map, s.len());
    prefix_in_turn(f, st, (u, c), st.len());
    assert(all[st.len() as int] == (u, c));
    assert forall|i: int| 0 <= i < f.terms.len() implies naturals(all, 0)((#[trigger] f.terms[i]).0) by {
        let m = f.terms[i].0;
        assert forall|l: int| 0 <= l < all.len() implies natural_in(m, (#[trigger] all[l]).0) by {
            if l < s.len() {
                assert(natural_in(f.terms[i].0, s[l].0 as int));
            } else if l < st.len() {
                assert(!p_mentions(f, parked(l - s.len())));
                unmentioned_exponent(f, i, parked(l - s.len()));
                zero_natural(m, parked(l - s.len()));
            } else {
                unmentioned_exponent(f, i, u);
                zero_natural(m, u);
            }
        }
    }
    in_turn_value(f, all, w, all.len());
    assert(chained(w, all, all.len() as int) == w);
    chained_push(w, st, (u, c), 0);
    replaced_is_valuation(w, u, c);
    let to = |m: MonoV| advanced(w, s, j as real, m, 0);
    assert forall|i: int| 0 <= i < f.terms.len() implies chained(w1, st, 0)((#[trigger] f.terms[i]).0) == to(
        f.terms[i].0,
    ) by {
        let m = f.terms[i].0;
        assert(m_wf(f.terms[i].0));
        assert forall|l: int| 0 <= l < map.len() implies #[trigger] free_of(m, parked(l)) by {
            assert(!p_mentions(f, parked(l)));
            factors_free(f, i, parked(l));
        }
        assert forall|l: int| 0 <= l < map.len() implies settled_in(m, (#[trigger] map[l]).0 as int) by {
            assert(settled_in(f.terms[i].0, s[l].0 as int));
        }
        chained_moving(w1, map, m, 0);
        factors_free(f, i, u);
        advanced_with(w, s, j, m, 0);
    }
    weigh_agrees(f.terms, chained(w1, st, 0), to);
}

proof fn factors_free(f: PolyV, i: int, v: int)
    requires
        p_deep(f),
        0 <= i < f.terms.len(),
        !p_mentions(f, v),
    ensures
        free_of(f.terms[i].0, v),
{
    let m = f.terms[i].0;
    assert forall|a: int| 0 <= a < m.factors.len() implies a_deep((#[trigger] m.factors[a]).0) && !a_mentions(
        m.factors[a].0,
        v,
    ) by {
        assert(a_deep(f.terms[i].0.factors[a].0));
        assert(!a_mentions(f.terms[i].0.factors[a].0, v));
    }
}

proof fn advanced_with(w: Weight, s: Shifts, j: nat, m: MonoV, k: int)
    requires
        shifts_ok(s),
        valuation(w),
        m_wf(m),
        free_of(m, unrolled()),
        0 <= k <= s.len(),
    ensures
        value_with(replaced(w, unrolled(), p_rat(j as real)), along(s), m, k) == advanced(w, s, j as real, m, k),
    decreases s.len() - k,
{
    let u = unrolled();
    let c = p_rat(j as real);
    let w1 = replaced(w, u, c);
    p_rat_wf(j as real);
    if k < s.len() {
        let (v, d) = (s[k].0 as int, s[k].1);
        let x = AtomV::Var(v);
        let r = MonoV { factors: erase(m.factors, x) };
        erase_sorted(m.factors, x);
        assert forall|l: int| 0 <= l < r.factors.len() implies a_deep((#[trigger] r.factors[l]).0) && !a_mentions(
            r.factors[l].0,
            u,
        ) by {
            rest_among(m, x, l);
            let a = choose|a: int| 0 <= a < m.factors.len() && m.factors[a] == r.factors[l];
            assert(a_deep(m.factors[a].0));
        }
        advanced_with(w, s, j, r, k + 1);
        assert(s[k].0 < parked(0));
        replaced_is_valuation(w, u, c);
        assert(w1(m_atom(x)) == w(m_atom(a_subst(x, u, c))));
        let (a, b) = (p_var(v), p_scale(p_var(u), d));
        sum_value(a, b, w1);
        scale_value(p_var(u), d, w1);
        term_value(m_atom(x), 1real, w1);
        term_value(m_atom(AtomV::Var(u)), 1real, w1);
        term_value(m_one(), j as real, w);
        let (y, z, jr) = (w1(m_atom(x)), w1(m_atom(AtomV::Var(u))), j as real);
        assert(1real * y == y) by (nonlinear_arith);
        assert(1real * z == z) by (nonlinear_arith);
        assert(jr * 1real == jr) by (nonlinear_arith);
        assert(d * jr == jr * d) by (nonlinear_arith);
    } else {
        assert forall|l: int| 0 <= l < m.factors.len() implies a_subst((#[trigger] m.factors[l]).0, u, c) == m.factors[l].0
            && m.factors[l].0 != AtomV::Var(u) by {
            atom_unmentioned(m.factors[l].0, u, c);
        }
        mono_unmentioned(m, u, c);
        zero_natural(m, u);
        let y = w(m);
        assert(y * 1real == y) by (nonlinear_arith);
    }
}

// ---- the total ----

/// The charges of the first `n` calls, summed.
pub open spec fn charges(f: PolyV, w: Weight, s: Shifts, n: nat) -> real
    decreases n,
{
    if n == 0 {
        0real
    } else {
        charges(f, w, s, (n - 1) as nat) + charge(f, w, s, (n - 1) as nat)
    }
}

proof fn rat_more(j: real)
    ensures
        p_add(p_rat(j), p_rat(1real)) == p_rat(j + 1real),
        p_add(p_zero(), p_scale(p_rat(j), 1real)) == p_rat(j),
{
    p_rat_wf(j);
    p_rat_wf(1real);
    p_rat_wf(j + 1real);
    zero_wf();
    p_add_wf(p_rat(j), p_rat(1real));
    p_scale_wf(p_rat(j), 1real);
    p_add_wf(p_zero(), p_scale(p_rat(j), 1real));
    let (a, b) = (p_add(p_rat(j), p_rat(1real)), p_add(p_zero(), p_scale(p_rat(j), 1real)));
    assert forall|w: Weight| #[trigger] p_value(a, w) == p_value(p_rat(j + 1real), w) by {
        sum_value(p_rat(j), p_rat(1real), w);
        term_value(m_one(), j, w);
        term_value(m_one(), 1real, w);
        term_value(m_one(), j + 1real, w);
        let y = w(m_one());
        assert((j + 1real) * y == j * y + 1real * y) by (nonlinear_arith);
    }
    assert forall|w: Weight| #[trigger] p_value(b, w) == p_value(p_rat(j), w) by {
        sum_value(p_zero(), p_scale(p_rat(j), 1real), w);
        scale_value(p_rat(j), 1real, w);
        let y = p_value(p_rat(j), w);
        assert(1real * y == y) by (nonlinear_arith);
    }
    same_values(a, p_rat(j + 1real));
    same_values(b, p_rat(j));
}

proof fn zero_deep(v: int)
    ensures
        p_deep(p_zero()),
        !p_mentions(p_zero(), v),
{
    zero_wf();
}

proof fn counted_charges(f: PolyV, s: Shifts, w: Weight, n: nat)
    requires
        shifts_ok(s),
        charge_ok(f, s),
        valuation(w),
    ensures
        p_value(p_sum_over(p_subst_many(f, along(s)), unrolled(), p_zero(), 1, p_rat(n as real)), w) == charges(f, w, s, n),
    decreases n,
{
    let p = p_subst_many(f, along(s));
    let u = unrolled();
    unrolled_charge(f, s);
    zero_deep(counter());
    if n == 0 {
        p_rat_wf(0real);
        assert(p_rat(0real).terms =~= p_zero().terms);
        sum_over_equations(p, u, p_zero(), 1, p_rat(0real));
        assert(p_value(p_zero(), w) == 0real);
    } else {
        let j = (n - 1) as nat;
        counted_charges(f, s, w, j);
        p_rat_wf(j as real);
        rat_more(j as real);
        sum_over_equations(p, u, p_zero(), 1, p_rat(j as real));
        let (a, b) = (p_sum_over(p, u, p_zero(), 1, p_rat(j as real)), p_subst(p, u, p_rat(j as real)));
        sum_value(a, b, w);
        charge_at(f, s, w, j);
        assert(j as real + 1real == n as real);
        assert(1int as real == 1real);
    }
}

/// A sum over a loop has the value that the trips have.
proof fn by_trips(p: PolyV, u: int, trip: PolyV, w: Weight, n: nat)
    requires
        p_wf(p_hide(p, mentioning(u))),
        p_wf(trip),
        valuation(w),
        p_value(trip, w) == n as real,
    ensures
        p_value(p_sum_over(p, u, p_zero(), 1, trip), w) == p_value(
            p_sum_over(p, u, p_zero(), 1, p_rat(n as real)),
            w,
        ),
{
    let c = p_rat(n as real);
    p_rat_wf(n as real);
    zero_wf();
    term_value(m_one(), n as real, w);
    let x = n as real;
    assert(x * 1real == x) by (nonlinear_arith);
    if p_mentions(p_hide(p, mentioning(u)), u) {
        sum_over_value(p, u, p_zero(), 1, trip, w, n);
        sum_over_value(p, u, p_zero(), 1, c, w, n);
    } else {
        sum_over_steady(p, u, p_zero(), 1, trip, w, n);
        sum_over_steady(p, u, p_zero(), 1, c, w, n);
    }
}

proof fn trips_of(m: PolyV, c: real, w: Weight, x: real)
    requires
        p_wf(m),
        c > 0real,
        valuation(w),
        p_value(m, w) == c * x,
    ensures
        p_wf(p_add(p_scale(m, 1real / c), p_rat(1real))),
        p_value(p_add(p_scale(m, 1real / c), p_rat(1real)), w) == x + 1real,
{
    p_scale_wf(m, 1real / c);
    p_rat_wf(1real);
    p_add_wf(p_scale(m, 1real / c), p_rat(1real));
    sum_value(p_scale(m, 1real / c), p_rat(1real), w);
    scale_value(m, 1real / c, w);
    term_value(m_one(), 1real, w);
    assert((1real / c) * (c * x) == x) by (nonlinear_arith)
        requires
            c > 0real,
    ;
}

/// The total of a recurrence is the charges of all its calls: one for every time the measure can
/// still be taken down, and the last.
pub proof fn total_is_charges(f: PolyV, m: PolyV, c: real, s: Shifts, w: Weight, n: nat)
    requires
        shifts_ok(s),
        charge_ok(f, s),
        valuation(w),
        p_wf(m),
        c > 0real,
        p_value(m, w) == c * (n as real - 1real),
    ensures
        p_value(linear_total(f, m, c, Some(s)), w) == charges(f, w, s, n),
{
    let trip = p_add(p_scale(m, 1real / c), p_rat(1real));
    let p = p_subst_many(f, along(s));
    trips_of(m, c, w, n as real - 1real);
    unrolled_charge(f, s);
    by_trips(p, unrolled(), trip, w, n);
    counted_charges(f, s, w, n);
    let map = Seq::new(
        s.len(),
        |i: int| (s[i].0, p_add(p_var(s[i].0 as int), p_scale(p_var(unrolled()), s[i].1))),
    );
    assert(map =~= along(s));
}

proof fn charge_moved(f: PolyV, s: Shifts, w: Weight, after: Weight, j: nat)
    requires
        shifts_ok(s),
        charge_ok(f, s),
        moved(w, after, s),
    ensures
        charge(f, after, s, j) == charge(f, w, s, j + 1),
{
    let (a, b) = (
        |m: MonoV| advanced(after, s, j as real, m, 0),
        |m: MonoV| advanced(w, s, (j + 1) as real, m, 0),
    );
    assert forall|i: int| 0 <= i < f.terms.len() implies a((#[trigger] f.terms[i]).0) == b(f.terms[i].0) by {
        term_partly(f, s, i);
        advanced_moved(w, after, s, j as real, f.terms[i].0, 0);
        assert(j as real + 1real == (j + 1) as real);
    }
    weigh_agrees(f.terms, a, b);
}

proof fn term_partly(f: PolyV, s: Shifts, i: int)
    requires
        charge_ok(f, s),
        0 <= i < f.terms.len(),
    ensures
        partly(f.terms[i].0, s, 0),
{
    let m = f.terms[i].0;
    assert(m_wf(f.terms[i].0));
    assert forall|k: int| 0 <= k < s.len() implies natural_in(m, (#[trigger] s[k]).0 as int) && settled_in(
        m,
        s[k].0 as int,
    ) by {
        assert(natural_in(f.terms[i].0, s[k].0 as int));
    }
}

proof fn charge_now(f: PolyV, s: Shifts, w: Weight)
    requires
        shifts_ok(s),
        charge_ok(f, s),
        valuation(w),
    ensures
        charge(f, w, s, 0) == p_value(f, w),
{
    let a = |m: MonoV| advanced(w, s, 0nat as real, m, 0);
    assert forall|i: int| 0 <= i < f.terms.len() implies a((#[trigger] f.terms[i]).0) == w(f.terms[i].0) by {
        term_partly(f, s, i);
        advanced_none(w, s, f.terms[i].0, 0);
    }
    weigh_agrees(f.terms, a, w);
}

proof fn charges_moved(f: PolyV, s: Shifts, w: Weight, after: Weight, n: nat)
    requires
        shifts_ok(s),
        charge_ok(f, s),
        moved(w, after, s),
    ensures
        charges(f, w, s, n + 1) == charge(f, w, s, 0) + charges(f, after, s, n),
    decreases n,
{
    if n > 0 {
        charges_moved(f, s, w, after, (n - 1) as nat);
        charge_moved(f, s, w, after, (n - 1) as nat);
    } else {
        reveal_with_fuel(charges, 2);
    }
}

/// `T(m) = f(m) + T(m − c)`, exactly: where the measure can be taken down by `c` a whole number of
/// times, the total is the charge now and the total at the place after one call, where every
/// variable of the measure has moved along its shift and the measure is `c` less.
pub proof fn linear_recurrence(f: PolyV, m: PolyV, c: real, s: Shifts, w: Weight, after: Weight, n: nat)
    requires
        shifts_ok(s),
        charge_ok(f, s),
        valuation(w),
        valuation(after),
        moved(w, after, s),
        p_wf(m),
        c > 0real,
        p_value(m, w) == c * (n as real),
        p_value(m, after) == p_value(m, w) - c,
    ensures
        p_value(linear_total(f, m, c, Some(s)), w) == p_value(f, w) + p_value(linear_total(f, m, c, Some(s)), after),
{
    let x = n as real;
    assert(c * x - c == c * (x - 1real)) by (nonlinear_arith);
    assert((n + 1) as real - 1real == x);
    total_is_charges(f, m, c, s, w, n + 1);
    total_is_charges(f, m, c, s, after, n);
    charges_moved(f, s, w, after, n);
    charge_now(f, s, w);
}

/// Where the shifts are not known, the same holds of a charge that a call does not change.
pub proof fn steady_recurrence(f: PolyV, m: PolyV, c: real, w: Weight, after: Weight)
    requires
        p_wf(f),
        p_wf(m),
        c > 0real,
        valuation(w),
        valuation(after),
        p_value(m, after) == p_value(m, w) - c,
        p_value(f, after) == p_value(f, w),
    ensures
        p_value(linear_total(f, m, c, None), w) == p_value(f, w) + p_value(linear_total(f, m, c, None), after),
{
    let trip = p_add(p_scale(m, 1real / c), p_rat(1real));
    let (a, y) = (p_value(f, w), p_value(m, w));
    let x = y / c;
    assert(y == c * x && y - c == c * (x - 1real)) by (nonlinear_arith)
        requires
            x == y / c,
            c > 0real,
    ;
    trips_of(m, c, w, x);
    trips_of(m, c, after, x - 1real);
    product_value(f, trip, w);
    product_value(f, trip, after);
    assert(a * (x + 1real) == a + a * x) by (nonlinear_arith);
}

} // verus!
