//! Sums over loops as equations of polynomials: over no turns the sum is zero, and one more turn
//! adds the body at that turn.
//!
//! Two canonical polynomials are one where all weights give them the same value, and values of
//! sums, multiples and products by a fixed polynomial are linear. Substitution respects products,
//! and so do two substitutions made one after the other.

use vstd::prelude::*;
use crate::cost::algebra::{
    m_atom, m_atom_wf, m_mul, m_mul_wf, m_one, m_wf, mul_associates, mul_commutes, mul_distributes, mul_one,
    mul_rows_weigh, p_add, p_add_wf, p_mul, p_mul_wf, p_pow, p_pow_wf, p_rat, p_rat_wf, p_scale, p_scale_wf, p_term,
    p_term_wf, p_value, p_var, p_wf, p_zero, pow_adds, difference_value, rowed, scale_value, shifted, sum_value,
    term_value, weigh_agrees,
};
use crate::cost::assoc::{erase, erase_sorted, holds, slot, slot_place, value, weigh, weigh_unique};
use crate::cost::degrees::{product_term, rows_of_nothing};
use crate::cost::laws::Weight;
use crate::cost::model::{AtomV, MonoV, PolyV};
use crate::cost::rat::{ratio, ratio_one, whole, whole_parts};
use crate::cost::replacing::{
    a_deep, all_in, atom_exponent, atom_unmentioned, atoms_among, made_closed, made_of, merge_in, other_exponent,
    rest_among, rest_settled, sum_in, terms_unchanged, count_adds, itself_subst, m_subst, natural_in, one_natural,
    p_deep, product_natural, settled_in, settled_subst, subst_product, subst_unmentioned, unmentioned_exponent,
    zero_natural,
};
use crate::cost::rooting::terms_product;
use crate::cost::subst::{
    a_mentions, a_subst, count_of, factors_subst_wf, mentioning, p_hide, p_mentions, p_subst, terms_subst,
};
use crate::cost::summing::{per_count, subst_wf};
use crate::cost::sums::{
    binom, binom_edges, counted, counter, p_power_rest, p_power_sum, p_power_sum_wf, p_sum_over, terms_sum,
};

verus! {

/// Canonical polynomials of the same value under every weight are one.
pub proof fn same_values(p: PolyV, q: PolyV)
    requires
        p_wf(p),
        p_wf(q),
        forall|w: Weight| #[trigger] p_value(p, w) == p_value(q, w),
    ensures
        p == q,
{
    assert forall|w: Weight| #[trigger] weigh(p.terms, w) == weigh(q.terms, w) by {
        assert(p_value(p, w) == p_value(q, w));
    }
    weigh_unique(p.terms, q.terms);
}

/// The value of a product is that of its first factor under a weight of the second.
proof fn product_by(p: PolyV, q: PolyV, w: Weight)
    ensures
        p_value(p_mul(p, q), w) == p_value(p, rowed(q.terms, w)),
{
    mul_rows_weigh(p.terms, q.terms, w);
}

proof fn distributes_right(p: PolyV, q: PolyV, r: PolyV)
    requires
        p_wf(p),
        p_wf(q),
        p_wf(r),
    ensures
        p_mul(p, p_add(q, r)) == p_add(p_mul(p, q), p_mul(p, r)),
{
    p_add_wf(q, r);
    mul_commutes(p, p_add(q, r));
    mul_distributes(q, r, p);
    mul_commutes(p, q);
    mul_commutes(p, r);
}

proof fn times_zero(p: PolyV)
    ensures
        p_mul(p, p_zero()) == p_zero(),
{
    rows_of_nothing(p.terms);
    assert(p_mul(p, p_zero()).terms =~= Seq::empty());
}

// ---- power sums ----

/// The first `m` terms of the expansion of `(n + 1)^k`.
spec fn p_expansion(k: nat, n: PolyV, m: nat) -> PolyV
    decreases m,
{
    if m == 0 {
        p_zero()
    } else {
        p_add(
            p_expansion(k, n, (m - 1) as nat),
            p_scale(p_pow(n, (m - 1) as nat), binom(k, (m - 1) as nat) as real),
        )
    }
}

proof fn expansion_wf(k: nat, n: PolyV, m: nat)
    requires
        p_wf(n),
    ensures
        p_wf(p_expansion(k, n, m)),
    decreases m,
{
    if m > 0 {
        let j = (m - 1) as nat;
        expansion_wf(k, n, j);
        p_pow_wf(n, j);
        p_scale_wf(p_pow(n, j), binom(k, j) as real);
        p_add_wf(p_expansion(k, n, j), p_scale(p_pow(n, j), binom(k, j) as real));
    }
}

proof fn expansion_last(k: nat, n: PolyV, m: nat, w: Weight)
    ensures
        p_value(p_expansion(k, n, m + 1), w) == p_value(p_expansion(k, n, m), w) + binom(k, m) as real * p_value(
            p_pow(n, m),
            w,
        ),
{
    sum_value(p_expansion(k, n, m), p_scale(p_pow(n, m), binom(k, m) as real), w);
    scale_value(p_pow(n, m), binom(k, m) as real, w);
}

proof fn expansion_step(k: nat, n: PolyV, m: nat, w: Weight)
    ensures
        p_value(p_expansion(k + 1, n, m + 1), w) == p_value(p_mul(p_expansion(k, n, m), n), w) + p_value(
            p_expansion(k, n, m + 1),
            w,
        ),
    decreases m,
{
    expansion_last(k + 1, n, m, w);
    expansion_last(k, n, m, w);
    product_by(p_expansion(k, n, m), n, w);
    if m == 0 {
        reveal_with_fuel(binom, 2);
        reveal_with_fuel(p_expansion, 2);
    } else {
        let j = (m - 1) as nat;
        expansion_step(k, n, j, w);
        expansion_last(k, n, j, rowed(n.terms, w));
        product_by(p_expansion(k, n, j), n, w);
        product_by(p_pow(n, j), n, w);
        let (a, b, x) = (binom(k, j) as real, binom(k, m) as real, p_value(p_pow(n, m), w));
        assert(binom(k + 1, m) as real == a + b);
        assert((a + b) * x == a * x + b * x) by (nonlinear_arith);
    }
}

proof fn more_wf(n: PolyV)
    requires
        p_wf(n),
    ensures
        p_wf(p_add(n, p_rat(1real))),
{
    p_rat_wf(1real);
    p_add_wf(n, p_rat(1real));
}

proof fn expansion_whole(k: nat, n: PolyV, w: Weight)
    requires
        p_wf(n),
    ensures
        p_value(p_expansion(k, n, k + 1), w) == p_value(p_pow(p_add(n, p_rat(1real)), k), w),
    decreases k,
{
    let more = p_add(n, p_rat(1real));
    more_wf(n);
    if k == 0 {
        expansion_last(0, n, 0, w);
        let x = p_value(p_rat(1real), w);
        assert(1real * x == x) by (nonlinear_arith);
    } else {
        let j = (k - 1) as nat;
        let e = p_expansion(j, n, k);
        let p = p_pow(more, j);
        expansion_wf(j, n, k);
        p_pow_wf(more, j);
        assert forall|u: Weight| #[trigger] p_value(e, u) == p_value(p, u) by {
            expansion_whole(j, n, u);
        }
        same_values(e, p);
        p_rat_wf(1real);
        distributes_right(e, n, p_rat(1real));
        mul_one(e);
        sum_value(p_mul(e, n), e, w);
        expansion_step(j, n, k, w);
        expansion_last(j, n, k, w);
        binom_edges(j);
        let x = p_value(p_pow(n, k), w);
        assert(0real * x == 0real) by (nonlinear_arith);
    }
}

proof fn power_sum_value_more(j: nat, n: PolyV, w: Weight)
    requires
        p_wf(n),
    ensures
        p_value(p_power_sum(j, p_add(n, p_rat(1real))), w) == p_value(p_power_sum(j, n), w) + p_value(p_pow(n, j), w),
    decreases j, j + 1,
{
    let more = p_add(n, p_rat(1real));
    power_rest_value_more(j, n, w, j);
    scale_value(p_power_rest(j, n, j), ratio(1, j as int + 1), w);
    scale_value(p_power_rest(j, more, j), ratio(1, j as int + 1), w);
    expansion_whole(j + 1, n, w);
    expansion_last(j + 1, n, j + 1, w);
    expansion_last(j + 1, n, j, w);
    binom_edges(j + 1);
    let (p, q) = (p_value(p_pow(n, j), w), p_value(p_pow(n, j + 1), w));
    let d = (j + 1) as real;
    assert(1real * q == q) by (nonlinear_arith);
    let a = p_value(p_power_rest(j, n, j), w);
    reveal(ratio);
    assert((1real / d) * (a + d * p) == (1real / d) * a + p) by (nonlinear_arith)
        requires
            d > 0real,
    ;
}

proof fn power_rest_value_more(j: nat, n: PolyV, w: Weight, i: nat)
    requires
        p_wf(n),
        i <= j,
    ensures
        ({
            let more = p_add(n, p_rat(1real));
            p_value(p_power_rest(j, more, i), w) == p_value(p_power_rest(j, n, i), w) + p_value(p_pow(more, j + 1), w)
                - p_value(p_pow(n, j + 1), w) - p_value(p_expansion(j + 1, n, i), w)
        }),
    decreases j, i,
{
    let more = p_add(n, p_rat(1real));
    if i > 0 {
        let k = (i - 1) as nat;
        power_rest_value_more(j, n, w, k);
        power_sum_value_more(k, n, w);
        expansion_last(j + 1, n, k, w);
        let b = binom(j + 1, k) as real;
        scale_value(p_power_sum(k, n), b, w);
        scale_value(p_power_sum(k, more), b, w);
        difference_value(p_power_rest(j, n, k), p_scale(p_power_sum(k, n), b), w);
        difference_value(p_power_rest(j, more, k), p_scale(p_power_sum(k, more), b), w);
        let (s, p) = (p_value(p_power_sum(k, n), w), p_value(p_pow(n, k), w));
        assert(b * (s + p) == b * s + b * p) by (nonlinear_arith);
    }
}

/// One more term of a power sum is one more power.
pub proof fn power_sum_more(j: nat, n: PolyV)
    requires
        p_wf(n),
    ensures
        p_power_sum(j, p_add(n, p_rat(1real))) == p_add(p_power_sum(j, n), p_pow(n, j)),
{
    let more = p_add(n, p_rat(1real));
    more_wf(n);
    p_power_sum_wf(j, n);
    p_power_sum_wf(j, more);
    p_pow_wf(n, j);
    let r = p_add(p_power_sum(j, n), p_pow(n, j));
    p_add_wf(p_power_sum(j, n), p_pow(n, j));
    assert forall|w: Weight| #[trigger] p_value(p_power_sum(j, more), w) == p_value(r, w) by {
        power_sum_value_more(j, n, w);
        sum_value(p_power_sum(j, n), p_pow(n, j), w);
    }
    same_values(p_power_sum(j, more), r);
}

proof fn power_rest_none(j: nat, i: nat, w: Weight)
    requires
        i <= j,
    ensures
        p_value(p_power_rest(j, p_zero(), i), w) == 0real,
    decreases j, i,
{
    if i == 0 {
        times_zero(p_pow(p_zero(), j));
    } else {
        let k = (i - 1) as nat;
        let b = binom(j + 1, k) as real;
        power_rest_none(j, k, w);
        power_sum_none(k, w);
        scale_value(p_power_sum(k, p_zero()), b, w);
        difference_value(p_power_rest(j, p_zero(), k), p_scale(p_power_sum(k, p_zero()), b), w);
        assert(b * 0real == 0real) by (nonlinear_arith);
    }
}

proof fn power_sum_none(j: nat, w: Weight)
    ensures
        p_value(p_power_sum(j, p_zero()), w) == 0real,
    decreases j, j + 1,
{
    power_rest_none(j, j, w);
    let c = ratio(1, j as int + 1);
    scale_value(p_power_rest(j, p_zero(), j), c, w);
    assert(c * 0real == 0real) by (nonlinear_arith);
}

pub proof fn zero_wf()
    ensures
        p_wf(p_zero()),
{
    p_rat_wf(0real);
    assert(p_rat(0real).terms =~= p_zero().terms);
}

/// The power sum over nothing is zero.
pub proof fn power_sum_of_none(j: nat)
    ensures
        p_power_sum(j, p_zero()) == p_zero(),
{
    zero_wf();
    p_power_sum_wf(j, p_zero());
    assert forall|w: Weight| #[trigger] p_value(p_power_sum(j, p_zero()), w) == p_value(p_zero(), w) by {
        power_sum_none(j, w);
    }
    same_values(p_power_sum(j, p_zero()), p_zero());
}

// ---- substitution and products ----

/// What a monomial becomes.
pub open spec fn becomes(m: MonoV, v: int, by: PolyV) -> PolyV {
    p_mul(p_term(m_subst(m, v, by), 1real), p_pow(by, count_of(value(m.factors, AtomV::Var(v)))))
}

/// The weight of what a monomial becomes.
pub open spec fn image(v: int, by: PolyV, w: Weight) -> Weight {
    |m: MonoV| p_value(becomes(m, v, by), w)
}

proof fn terms_image(t: Seq<(MonoV, real)>, v: int, by: PolyV, w: Weight)
    ensures
        p_value(terms_subst(t, v, by), w) == weigh(t, image(v, by, w)),
    decreases t.len(),
{
    if t.len() > 0 {
        terms_image(t.drop_last(), v, by, w);
        let (m, c) = t.last();
        let r = m_subst(m, v, by);
        let q = p_pow(by, count_of(value(m.factors, AtomV::Var(v))));
        sum_value(terms_subst(t.drop_last(), v, by), p_mul(p_term(r, c), q), w);
        product_by(p_term(r, c), q, w);
        product_by(p_term(r, 1real), q, w);
        term_value(r, c, rowed(q.terms, w));
        term_value(r, 1real, rowed(q.terms, w));
        let x = rowed(q.terms, w)(r);
        assert(1real * x == x) by (nonlinear_arith);
    }
}

/// The value after a substitution is that of the polynomial under the weight of what its monomials
/// become.
pub proof fn subst_image(p: PolyV, v: int, by: PolyV, w: Weight)
    ensures
        p_value(p_subst(p, v, by), w) == p_value(p, image(v, by, w)),
{
    reveal(p_subst);
    terms_image(p.terms, v, by, w);
}

proof fn becomes_wf(m: MonoV, v: int, by: PolyV)
    requires
        m_wf(m),
        p_wf(by),
    ensures
        p_wf(becomes(m, v, by)),
{
    factors_subst_wf(m.factors, v, by);
    p_term_wf(m_subst(m, v, by), 1real);
    p_pow_wf(by, count_of(value(m.factors, AtomV::Var(v))));
    p_mul_wf(p_term(m_subst(m, v, by), 1real), p_pow(by, count_of(value(m.factors, AtomV::Var(v)))));
}

/// A product becomes the product of what its factors become.
proof fn becomes_product(a: MonoV, b: MonoV, v: int, by: PolyV)
    requires
        m_wf(a),
        m_wf(b),
        p_wf(by),
        natural_in(a, v),
        natural_in(b, v),
    ensures
        becomes(m_mul(a, b), v, by) == p_mul(becomes(a, v, by), becomes(b, v, by)),
{
    let x = AtomV::Var(v);
    let (ka, kb) = (count_of(value(a.factors, x)), count_of(value(b.factors, x)));
    subst_product(a, b, v, by);
    m_mul_wf(a, b);
    count_adds(value(a.factors, x), value(b.factors, x));
    let (s, t) = (p_term(m_subst(a, v, by), 1real), p_term(m_subst(b, v, by), 1real));
    let (p, q) = (p_pow(by, ka), p_pow(by, kb));
    terms_product(m_subst(a, v, by), 1real, m_subst(b, v, by), 1real);
    pow_adds(by, ka, kb);
    p_term_wf(m_subst(a, v, by), 1real);
    p_term_wf(m_subst(b, v, by), 1real);
    p_pow_wf(by, ka);
    p_pow_wf(by, kb);
    p_mul_wf(p, q);
    p_mul_wf(t, q);
    mul_associates(s, t, p_mul(p, q));
    mul_associates(t, p, q);
    mul_commutes(t, p);
    mul_associates(p, t, q);
    mul_associates(s, p, p_mul(t, q));
    assert(1real * 1real == 1real);
}

/// All the variable's exponents are natural numbers.
pub open spec fn naturally(v: int) -> spec_fn(MonoV) -> bool {
    |m: MonoV| natural_in(m, v)
}

/// A substitution respects products.
pub proof fn subst_of_product(p: PolyV, q: PolyV, v: int, by: PolyV)
    requires
        p_wf(p),
        p_wf(q),
        p_wf(by),
        all_in(p, naturally(v)),
        all_in(q, naturally(v)),
    ensures
        p_subst(p_mul(p, q), v, by) == p_mul(p_subst(p, v, by), p_subst(q, v, by)),
{
    let (a, b) = (p_subst(p, v, by), p_subst(q, v, by));
    p_mul_wf(p, q);
    subst_wf(p, v, by);
    subst_wf(q, v, by);
    subst_wf(p_mul(p, q), v, by);
    p_mul_wf(a, b);
    assert forall|w: Weight| #[trigger] p_value(p_subst(p_mul(p, q), v, by), w) == p_value(p_mul(a, b), w) by {
        let img = image(v, by, w);
        subst_image(p_mul(p, q), v, by, w);
        product_by(p, q, img);
        product_by(a, b, w);
        subst_image(p, v, by, rowed(b.terms, w));
        let (f, g) = (rowed(q.terms, img), image(v, by, rowed(b.terms, w)));
        assert forall|i: int| 0 <= i < p.terms.len() implies f((#[trigger] p.terms[i]).0) == g(p.terms[i].0) by {
            let m = p.terms[i].0;
            assert(m_wf(p.terms[i].0));
            assert(naturally(v)(p.terms[i].0));
            let fm = becomes(m, v, by);
            becomes_wf(m, v, by);
            product_by(fm, b, w);
            mul_commutes(fm, b);
            product_by(b, fm, w);
            subst_image(q, v, by, rowed(fm.terms, w));
            let (x, y) = (shifted(m, img), image(v, by, rowed(fm.terms, w)));
            assert forall|j: int| 0 <= j < q.terms.len() implies x((#[trigger] q.terms[j]).0) == y(q.terms[j].0) by {
                let o = q.terms[j].0;
                assert(m_wf(q.terms[j].0));
                assert(naturally(v)(q.terms[j].0));
                becomes_product(m, o, v, by);
                becomes_wf(o, v, by);
                mul_commutes(fm, becomes(o, v, by));
                product_by(becomes(o, v, by), fm, w);
            }
            weigh_agrees(q.terms, x, y);
        }
        weigh_agrees(p.terms, f, g);
    }
    same_values(p_subst(p_mul(p, q), v, by), p_mul(a, b));
}

proof fn naturally_closed(v: int)
    ensures
        forall|a: MonoV, b: MonoV|
            m_wf(a) && m_wf(b) && naturally(v)(a) && naturally(v)(b) ==> naturally(v)(#[trigger] m_mul(a, b)),
        naturally(v)(m_one()),
{
    one_natural(v);
    assert forall|a: MonoV, b: MonoV| m_wf(a) && m_wf(b) && naturally(v)(a) && naturally(v)(b) implies naturally(v)(
        #[trigger] m_mul(a, b),
    ) by {
        product_natural(a, b, v);
    }
}

proof fn product_naturally(p: PolyV, q: PolyV, v: int)
    requires
        p_wf(p),
        p_wf(q),
        all_in(p, naturally(v)),
        all_in(q, naturally(v)),
    ensures
        all_in(p_mul(p, q), naturally(v)),
{
    let r = p_mul(p, q);
    naturally_closed(v);
    assert forall|i: int| 0 <= i < r.terms.len() implies naturally(v)((#[trigger] r.terms[i]).0) by {
        let (a, b) = product_term(p, q, i);
        assert(m_wf(p.terms[a].0) && m_wf(q.terms[b].0));
        assert(naturally(v)(p.terms[a].0) && naturally(v)(q.terms[b].0));
        assert(naturally(v)(m_mul(p.terms[a].0, q.terms[b].0)));
    }
}

/// A substitution respects powers.
pub proof fn subst_of_power(p: PolyV, k: nat, v: int, by: PolyV)
    requires
        p_wf(p),
        p_wf(by),
        all_in(p, naturally(v)),
    ensures
        p_subst(p_pow(p, k), v, by) == p_pow(p_subst(p, v, by), k),
        all_in(p_pow(p, k), naturally(v)),
    decreases k,
{
    if k == 0 {
        naturally_closed(v);
        p_rat_wf(1real);
        one_stays(v, by);
    } else {
        let j = (k - 1) as nat;
        subst_of_power(p, j, v, by);
        p_pow_wf(p, j);
        subst_of_product(p_pow(p, j), p, v, by);
        product_naturally(p_pow(p, j), p, v);
    }
}

proof fn one_stays(v: int, by: PolyV)
    requires
        p_wf(by),
    ensures
        p_subst(p_rat(1real), v, by) == p_rat(1real),
{
    let one = p_rat(1real);
    p_rat_wf(1real);
    assert(p_deep(one));
    subst_unmentioned(one, v, by);
}

/// The substitution of a variable that a single term does not have leaves it.
proof fn term_stays(m: MonoV, v: int, by: PolyV)
    requires
        m_wf(m),
        m_subst(m, v, by) == m,
        value(m.factors, AtomV::Var(v)) == 0real,
    ensures
        p_subst(p_term(m, 1real), v, by) == p_term(m, 1real),
{
    reveal(p_subst);
    p_term_wf(m, 1real);
    let t = p_term(m, 1real).terms;
    assert forall|i: int| 0 <= i < t.len() implies m_subst((#[trigger] t[i]).0, v, by) == t[i].0 && value(
        t[i].0.factors,
        AtomV::Var(v),
    ) == 0real by {}
    assert(PolyV { terms: t } == p_term(m, 1real));
    terms_unchanged(t, v, by);
}

// ---- two substitutions ----

/// What a sum over a variable asks of a polynomial: the variable stands only by itself, at natural
/// exponents.
pub open spec fn summable(p: PolyV, v: int) -> bool {
    &&& p_deep(p)
    &&& forall|i: int|
        0 <= i < p.terms.len() ==> natural_in((#[trigger] p.terms[i]).0, v) && settled_in(p.terms[i].0, v)
}

/// Replacing a variable and then one of what replaces it is replacing it by the result.
pub proof fn subst_in_turn(p: PolyV, v: int, by: PolyV, u: int, t: PolyV)
    requires
        summable(p, v),
        !p_mentions(p, u),
        u != v,
        p_wf(by),
        p_wf(t),
        all_in(by, naturally(u)),
    ensures
        p_subst(p_subst(p, v, by), u, t) == p_subst(p, v, p_subst(by, u, t)),
{
    let q = p_subst(p, v, by);
    let to = p_subst(by, u, t);
    subst_wf(p, v, by);
    subst_wf(q, u, t);
    subst_wf(by, u, t);
    subst_wf(p, v, to);
    assert forall|w: Weight| #[trigger] p_value(p_subst(q, u, t), w) == p_value(p_subst(p, v, to), w) by {
        subst_image(q, u, t, w);
        subst_image(p, v, by, image(u, t, w));
        subst_image(p, v, to, w);
        let (f, g) = (image(v, by, image(u, t, w)), image(v, to, w));
        assert forall|i: int| 0 <= i < p.terms.len() implies f((#[trigger] p.terms[i]).0) == g(p.terms[i].0) by {
            let m = p.terms[i].0;
            assert(m_wf(p.terms[i].0));
            assert(settled_in(p.terms[i].0, v));
            let k = count_of(value(m.factors, AtomV::Var(v)));
            let r = MonoV { factors: erase(m.factors, AtomV::Var(v)) };
            settled_subst(m, v, by);
            settled_subst(m, v, to);
            unmentioned_exponent(p, i, u);
            erase_sorted(m.factors, AtomV::Var(v));
            assert(value(r.factors, AtomV::Var(u)) == 0real);
            assert forall|j: int| 0 <= j < m.factors.len() implies (#[trigger] m.factors[j]).0 == AtomV::Var(u) || (
            a_deep(m.factors[j].0) && !a_mentions(m.factors[j].0, u)) by {
                assert(a_deep(p.terms[i].0.factors[j].0));
                assert(!a_mentions(p.terms[i].0.factors[j].0, u));
            }
            rest_settled(m, v, u);
            settled_subst(r, u, t);
            slot_place(r.factors, AtomV::Var(u));
            rest_without(p, i, v, u);
            assert(m_subst(r, u, t).factors =~= r.factors);
            term_stays(r, u, t);
            let one = p_term(r, 1real);
            p_term_wf(r, 1real);
            zero_natural(r, u);
            assert(all_in(one, naturally(u)));
            subst_of_power(by, k, u, t);
            p_pow_wf(by, k);
            subst_of_product(one, p_pow(by, k), u, t);
            subst_image(p_mul(one, p_pow(by, k)), u, t, w);
        }
        weigh_agrees(p.terms, f, g);
    }
    same_values(p_subst(q, u, t), p_subst(p, v, to));
}

proof fn rest_without(p: PolyV, i: int, v: int, u: int)
    requires
        p_wf(p),
        0 <= i < p.terms.len(),
        !p_mentions(p, u),
        u != v,
    ensures
        ({
            let f = erase(p.terms[i].0.factors, AtomV::Var(v));
            erase(f, AtomV::Var(u)) == f
        }),
{
    let m = p.terms[i].0;
    let f = erase(m.factors, AtomV::Var(v));
    let x = AtomV::Var(u);
    unmentioned_exponent(p, i, u);
    if holds(f, x) {
        slot_place(f, x);
        let j = slot(f, x);
        assert(f[j].0 == x);
        rest_among(m, AtomV::Var(v), j);
        let l = choose|l: int| 0 <= l < m.factors.len() && m.factors[l] == f[j];
        assert(a_mentions(p.terms[i].0.factors[l].0, u));
    }
}

// ---- sums ----

/// Each power of the counter replaced by that of `x`.
spec fn terms_turn(t: Seq<(MonoV, real)>, x: PolyV) -> PolyV
    decreases t.len(),
{
    if t.len() == 0 {
        p_zero()
    } else {
        let f = t.last().0.factors;
        p_add(
            terms_turn(t.drop_last(), x),
            p_mul(
                p_term(MonoV { factors: erase(f, AtomV::Var(counter())) }, t.last().1),
                p_pow(x, counted(value(f, AtomV::Var(counter())))),
            ),
        )
    }
}

spec fn keys_canonical(t: Seq<(MonoV, real)>) -> bool {
    forall|i: int| 0 <= i < t.len() ==> m_wf((#[trigger] t[i]).0)
}

proof fn front_keys(t: Seq<(MonoV, real)>)
    requires
        keys_canonical(t),
        t.len() > 0,
    ensures
        keys_canonical(t.drop_last()),
        m_wf(t.last().0),
{
    let u = t.drop_last();
    assert forall|i: int| 0 <= i < u.len() implies m_wf((#[trigger] u[i]).0) by {
        assert(m_wf(t[i].0));
    }
    assert(m_wf(t[t.len() - 1].0));
}

proof fn terms_sum_wf(t: Seq<(MonoV, real)>, x: PolyV)
    requires
        keys_canonical(t),
        p_wf(x),
    ensures
        p_wf(terms_sum(t, x)),
        p_wf(terms_turn(t, x)),
    decreases t.len(),
{
    if t.len() == 0 {
        zero_wf();
    } else {
        front_keys(t);
        let u = t.drop_last();
        terms_sum_wf(u, x);
        let (m, c) = t.last();
        let rest = MonoV { factors: erase(m.factors, AtomV::Var(counter())) };
        let k = counted(value(m.factors, AtomV::Var(counter())));
        erase_sorted(m.factors, AtomV::Var(counter()));
        p_term_wf(rest, c);
        p_power_sum_wf(k, x);
        p_pow_wf(x, k);
        p_mul_wf(p_term(rest, c), p_power_sum(k, x));
        p_mul_wf(p_term(rest, c), p_pow(x, k));
        p_add_wf(terms_sum(u, x), p_mul(p_term(rest, c), p_power_sum(k, x)));
        p_add_wf(terms_turn(u, x), p_mul(p_term(rest, c), p_pow(x, k)));
    }
}

proof fn terms_sum_more(t: Seq<(MonoV, real)>, x: PolyV, w: Weight)
    requires
        keys_canonical(t),
        p_wf(x),
    ensures
        p_value(terms_sum(t, p_add(x, p_rat(1real))), w) == p_value(terms_sum(t, x), w) + p_value(terms_turn(t, x), w),
        p_value(terms_sum(t, p_zero()), w) == 0real,
    decreases t.len(),
{
    if t.len() > 0 {
        let u = t.drop_last();
        let more = p_add(x, p_rat(1real));
        front_keys(t);
        terms_sum_more(u, x, w);
        let (m, c) = t.last();
        let rest = MonoV { factors: erase(m.factors, AtomV::Var(counter())) };
        let k = counted(value(m.factors, AtomV::Var(counter())));
        erase_sorted(m.factors, AtomV::Var(counter()));
        let one = p_term(rest, c);
        p_term_wf(rest, c);
        p_power_sum_wf(k, x);
        p_pow_wf(x, k);
        power_sum_more(k, x);
        power_sum_of_none(k);
        times_zero(one);
        distributes_right(one, p_power_sum(k, x), p_pow(x, k));
        sum_value(p_mul(one, p_power_sum(k, x)), p_mul(one, p_pow(x, k)), w);
        sum_value(terms_sum(u, more), p_mul(one, p_power_sum(k, more)), w);
        sum_value(terms_sum(u, x), p_mul(one, p_power_sum(k, x)), w);
        sum_value(terms_turn(u, x), p_mul(one, p_pow(x, k)), w);
        sum_value(terms_sum(u, p_zero()), p_mul(one, p_power_sum(k, p_zero())), w);
    }
}

proof fn counted_natural(e: real)
    requires
        whole(e),
        e >= 0real,
    ensures
        counted(e) == count_of(e),
{
    let k = choose|k: int| e == #[trigger] ratio(k, 1);
    ratio_one(k);
    whole_parts(k);
}

proof fn turn_is_subst(t: Seq<(MonoV, real)>, x: PolyV)
    requires
        forall|i: int|
            0 <= i < t.len() ==> m_wf((#[trigger] t[i]).0) && natural_in(t[i].0, counter()) && settled_in(
                t[i].0,
                counter(),
            ),
    ensures
        terms_turn(t, x) == terms_subst(t, counter(), x),
    decreases t.len(),
{
    if t.len() > 0 {
        let u = t.drop_last();
        assert forall|i: int| 0 <= i < u.len() implies m_wf((#[trigger] u[i]).0) && natural_in(u[i].0, counter())
            && settled_in(u[i].0, counter()) by {
            assert(u[i] == t[i]);
        }
        turn_is_subst(u, x);
        let m = t[t.len() - 1].0;
        assert(natural_in(t[t.len() - 1].0, counter()));
        settled_subst(m, counter(), x);
        counted_natural(value(m.factors, AtomV::Var(counter())));
    }
}

/// The place of the `K`-th turn, and what it becomes at turn `t`.
proof fn place_at(lo: PolyV, step: real, u: int, t: PolyV)
    requires
        p_deep(lo),
        !p_mentions(lo, u),
        p_wf(t),
    ensures
        p_wf(p_add(lo, p_scale(p_var(u), step))),
        all_in(p_add(lo, p_scale(p_var(u), step)), naturally(u)),
        p_subst(p_add(lo, p_scale(p_var(u), step)), u, t) == p_add(lo, p_scale(t, step)),
{
    let x = m_atom(AtomV::Var(u));
    let s = p_scale(p_var(u), step);
    let by = p_add(lo, s);
    m_atom_wf(AtomV::Var(u));
    p_term_wf(x, 1real);
    p_scale_wf(p_var(u), step);
    p_add_wf(lo, s);
    atom_exponent(AtomV::Var(u), AtomV::Var(u));
    ratio_one(1);
    whole_parts(1);
    assert(1real == ratio(1, 1));
    assert(natural_in(x, u));
    assert forall|i: int| 0 <= i < lo.terms.len() implies naturally(u)((#[trigger] lo.terms[i]).0) by {
        unmentioned_exponent(lo, i, u);
        zero_natural(lo.terms[i].0, u);
    }
    assert forall|i: int| 0 <= i < s.terms.len() implies naturally(u)((#[trigger] s.terms[i]).0) by {
        if step != 0real {
            assert(s.terms[i].0 == p_var(u).terms[i].0);
        }
    }
    sum_in(lo, s, naturally(u));
    let r = p_add(lo, p_scale(t, step));
    p_scale_wf(t, step);
    p_add_wf(lo, p_scale(t, step));
    subst_wf(by, u, t);
    subst_unmentioned(lo, u, t);
    assert forall|w: Weight| #[trigger] p_value(p_subst(by, u, t), w) == p_value(r, w) by {
        let img = image(u, t, w);
        subst_image(by, u, t, w);
        sum_value(lo, s, img);
        scale_value(p_var(u), step, img);
        subst_image(lo, u, t, w);
        term_value(x, 1real, img);
        itself_subst(u, t);
        reveal_with_fuel(p_pow, 2);
        assert(p_pow(t, 1) == p_mul(p_rat(1real), t));
        mul_one(t);
        assert(becomes(x, u, t) == t);
        sum_value(lo, p_scale(t, step), w);
        scale_value(t, step, w);
        let y = p_value(t, w);
        assert(1real * y == y) by (nonlinear_arith);
    }
    same_values(p_subst(by, u, t), r);
}

/// A sum over a loop that runs no turns is zero; one more turn adds what is summed at that turn, and
/// what does not mention the variable is paid once for every turn. All as equations of polynomials.
pub proof fn sum_over_equations(p: PolyV, v: int, lo: PolyV, step: int, trip: PolyV)
    requires
        summable(p_hide(p, mentioning(v)), v),
        p_deep(lo),
        p_wf(trip),
        !p_mentions(p_hide(p, mentioning(v)), counter()),
        !p_mentions(lo, counter()),
    ensures
        p_sum_over(p, v, lo, step, p_zero()) == p_zero(),
        p_sum_over(p, v, lo, step, p_add(trip, p_rat(1real))) == p_add(
            p_sum_over(p, v, lo, step, trip),
            p_subst(p_hide(p, mentioning(v)), v, p_add(lo, p_scale(trip, step as real))),
        ),
        !p_mentions(p_hide(p, mentioning(v)), v) ==> p_sum_over(p, v, lo, step, trip) == p_mul(
            p_hide(p, mentioning(v)),
            trip,
        ),
{
    let shown = p_hide(p, mentioning(v));
    let more = p_add(trip, p_rat(1real));
    more_wf(trip);
    if p_mentions(shown, v) {
        let u = counter();
        let by = p_add(lo, p_scale(p_var(u), step as real));
        let q = per_count(p, v, lo, step);
        place_at(lo, step as real, u, trip);
        subst_wf(shown, v, by);
        subst_in_turn(shown, v, by, u, trip);
        counter_settled(shown, v, by, lo, step as real);
        assert(keys_canonical(q.terms)) by {
            assert forall|i: int| 0 <= i < q.terms.len() implies m_wf((#[trigger] q.terms[i]).0) by {}
        }
        turn_is_subst(q.terms, trip);
        reveal(p_subst);
        zero_wf();
        terms_sum_wf(q.terms, p_zero());
        terms_sum_wf(q.terms, trip);
        terms_sum_wf(q.terms, more);
        let (a, b) = (terms_sum(q.terms, trip), terms_turn(q.terms, trip));
        p_add_wf(a, b);
        assert forall|w: Weight| #[trigger] p_value(terms_sum(q.terms, more), w) == p_value(p_add(a, b), w) by {
            terms_sum_more(q.terms, trip, w);
            sum_value(a, b, w);
        }
        same_values(terms_sum(q.terms, more), p_add(a, b));
        assert forall|w: Weight| #[trigger] p_value(terms_sum(q.terms, p_zero()), w) == p_value(p_zero(), w) by {
            terms_sum_more(q.terms, trip, w);
        }
        same_values(terms_sum(q.terms, p_zero()), p_zero());
    } else {
        p_rat_wf(1real);
        distributes_right(shown, trip, p_rat(1real));
        mul_one(shown);
        times_zero(shown);
        subst_unmentioned(shown, v, p_add(lo, p_scale(trip, step as real)));
    }
}

/// A sum over a loop is canonical.
pub proof fn sum_over_wf(p: PolyV, v: int, lo: PolyV, step: int, trip: PolyV)
    requires
        p_wf(p_hide(p, mentioning(v))),
        p_wf(lo),
        p_wf(trip),
    ensures
        p_wf(p_sum_over(p, v, lo, step, trip)),
{
    let shown = p_hide(p, mentioning(v));
    if p_mentions(shown, v) {
        let by = p_add(lo, p_scale(p_var(counter()), step as real));
        let q = p_subst(shown, v, by);
        m_atom_wf(AtomV::Var(counter()));
        p_term_wf(m_atom(AtomV::Var(counter())), 1real);
        p_scale_wf(p_var(counter()), step as real);
        p_add_wf(lo, p_scale(p_var(counter()), step as real));
        subst_wf(shown, v, by);
        assert(keys_canonical(q.terms)) by {
            assert forall|i: int| 0 <= i < q.terms.len() implies m_wf((#[trigger] q.terms[i]).0) by {}
        }
        terms_sum_wf(q.terms, trip);
    } else {
        p_mul_wf(shown, trip);
    }
}

/// After the place of a turn is put in, the counter stands only by itself, at natural exponents.
proof fn counter_settled(p: PolyV, v: int, by: PolyV, lo: PolyV, step: real)
    requires
        summable(p, v),
        p_deep(lo),
        !p_mentions(p, counter()),
        !p_mentions(lo, counter()),
        v != counter(),
        by == p_add(lo, p_scale(p_var(counter()), step)),
    ensures
        ({
            let q = p_subst(p, v, by);
            forall|i: int|
                0 <= i < q.terms.len() ==> natural_in((#[trigger] q.terms[i]).0, counter()) && settled_in(
                    q.terms[i].0,
                    counter(),
                )
        }),
{
    let u = counter();
    let q = p_subst(p, v, by);
    reveal(p_subst);
    zero_wf();
    place_at(lo, step, u, p_zero());
    subst_wf(p, v, by);
    // exponents
    assert forall|i: int| 0 <= i < p.terms.len() implies m_wf((#[trigger] p.terms[i]).0) && naturally(u)(
        m_subst(p.terms[i].0, v, by),
    ) by {
        assert(m_wf(p.terms[i].0));
        unmentioned_exponent(p, i, u);
        other_exponent(p.terms[i].0, v, by, u);
        zero_natural(m_subst(p.terms[i].0, v, by), u);
    }
    terms_naturally(p.terms, v, by, u);
    // factors
    let g = alone(u);
    made_closed(g);
    assert forall|i: int, j: int|
        #![trigger p.terms[i].0.factors[j]]
        0 <= i < p.terms.len() && 0 <= j < p.terms[i].0.factors.len() && p.terms[i].0.factors[j].0 != AtomV::Var(v)
            implies g(a_subst(p.terms[i].0.factors[j].0, v, by)) by {
        let m = p.terms[i].0;
        assert(settled_in(p.terms[i].0, v));
        assert(!a_mentions(p.terms[i].0.factors[j].0, u));
        assert(m.factors[j].0 == AtomV::Var(v) || a_deep(m.factors[j].0));
        atom_unmentioned(m.factors[j].0, v, by);
    }
    let s = p_scale(p_var(u), step);
    assert forall|i: int| 0 <= i < lo.terms.len() implies made_of(g)((#[trigger] lo.terms[i]).0) by {
        let f = lo.terms[i].0.factors;
        assert forall|j: int| 0 <= j < f.len() implies g((#[trigger] f[j]).0) by {
            assert(a_deep(lo.terms[i].0.factors[j].0));
            assert(!a_mentions(lo.terms[i].0.factors[j].0, u));
        }
    }
    assert forall|i: int| 0 <= i < s.terms.len() implies made_of(g)((#[trigger] s.terms[i]).0) by {
        assert(s.terms[i].0 == p_var(u).terms[i].0);
        assert(m_atom(AtomV::Var(u)).factors =~= seq![(AtomV::Var(u), 1real)]);
    }
    merge_in(lo.terms, s.terms, made_of(g));
    atoms_among(p, v, by, g);
    assert forall|i: int| 0 <= i < q.terms.len() implies natural_in((#[trigger] q.terms[i]).0, u) && settled_in(
        q.terms[i].0,
        u,
    ) by {
        assert(naturally(u)(q.terms[i].0));
        assert(made_of(g)(q.terms[i].0));
        let f = q.terms[i].0.factors;
        assert forall|j: int| 0 <= j < f.len() implies (#[trigger] f[j]).0 == AtomV::Var(u) || (
        a_deep(f[j].0) && !a_mentions(f[j].0, u)) by {
            assert(g(f[j].0));
        }
    }
}

/// The variable itself, and atoms that do not mention it.
pub open spec fn alone(u: int) -> spec_fn(AtomV) -> bool {
    |a: AtomV| a == AtomV::Var(u) || (a_deep(a) && !a_mentions(a, u))
}

pub proof fn terms_naturally(t: Seq<(MonoV, real)>, v: int, by: PolyV, u: int)
    requires
        forall|i: int|
            0 <= i < t.len() ==> m_wf((#[trigger] t[i]).0) && naturally(u)(m_subst(t[i].0, v, by)),
        p_wf(by),
        all_in(by, naturally(u)),
    ensures
        p_wf(terms_subst(t, v, by)),
        all_in(terms_subst(t, v, by), naturally(u)),
    decreases t.len(),
{
    if t.len() == 0 {
        zero_wf();
    } else {
        let r = t.drop_last();
        assert forall|i: int| 0 <= i < r.len() implies m_wf((#[trigger] r[i]).0) && naturally(u)(
            m_subst(r[i].0, v, by),
        ) by {
            assert(r[i] == t[i]);
        }
        terms_naturally(r, v, by, u);
        let (m, c) = t[t.len() - 1];
        assert(naturally(u)(m_subst(t[t.len() - 1].0, v, by)));
        let k = count_of(value(m.factors, AtomV::Var(v)));
        let one = p_term(m_subst(m, v, by), c);
        factors_subst_wf(m.factors, v, by);
        p_term_wf(m_subst(m, v, by), c);
        p_pow_wf(by, k);
        zero_wf();
        subst_of_power(by, k, u, p_zero());
        product_naturally(one, p_pow(by, k), u);
        p_mul_wf(one, p_pow(by, k));
        p_add_wf(terms_subst(r, v, by), p_mul(one, p_pow(by, k)));
        sum_in(terms_subst(r, v, by), p_mul(one, p_pow(by, k)), naturally(u));
    }
}

} // verus!
