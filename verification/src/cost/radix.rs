//! What the mixed radix test of an index shows: at any sizes of one or more, two different turns
//! of its loops reach two different places.

use vstd::prelude::*;
use crate::cost::affine::{AffineV, Coeffs};
use crate::cost::algebra::{
    difference_value, m_one, p_add, p_add_wf, p_mul_wf, p_rat, p_rat_wf, p_scale, p_scale_wf, p_sub, p_sub_wf,
    p_value, p_wf, product_value, scale_value, sum_value, term_value, valuation,
};
use crate::cost::laws::{dominates_is_larger, grows, Weight};
use crate::cost::linear::total;
use crate::cost::machine::Machine;
use crate::cost::model::PolyV;
use crate::cost::piece::p_dominates;
use crate::cost::recognise::{
    abs_int, covered, injective_vars, mixed_radix, nest_place, part_insert, part_of, parts_of, unsigned, PartV,
};
use crate::cost::scope::LoopV;

verus! {

/// The loop of the nest over a local.
pub open spec fn loop_over(loops: Seq<LoopV>, nest: Seq<int>, v: usize) -> LoopV {
    loops[nest[nest_place(loops, nest, v, 0)->0 as int]]
}

/// How far the loops carry an index at one turn of each: the coefficients times the steps times
/// the turns.
pub open spec fn carried(
    loops: Seq<LoopV>,
    nest: Seq<int>,
    s: Coeffs,
    turn: spec_fn(usize) -> int,
    w: Weight,
    n: nat,
) -> real
    decreases n,
{
    if n == 0 {
        0real
    } else {
        let (v, c) = s[n - 1];
        carried(loops, nest, s, turn, w, (n - 1) as nat) + p_value(c, w) * (loop_over(loops, nest, v).step * turn(
            v,
        )) as real
    }
}

/// The turns are turns of the loops: from zero on, and below the trips.
pub open spec fn in_turn(loops: Seq<LoopV>, nest: Seq<int>, s: Coeffs, turn: spec_fn(usize) -> int, w: Weight) -> bool {
    forall|i: int|
        0 <= i < s.len() ==> 0 <= turn((#[trigger] s[i]).0) && (turn(s[i].0) as real) <= p_value(
            loop_over(loops, nest, s[i].0).trip,
            w,
        ) - 1real
}

/// The coefficients and the trips are canonical polynomials.
pub open spec fn index_wf(loops: Seq<LoopV>, nest: Seq<int>, s: Coeffs) -> bool {
    forall|i: int| 0 <= i < s.len() ==> p_wf((#[trigger] s[i]).1) && p_wf(loop_over(loops, nest, s[i].0).trip)
}

spec fn real_abs(x: real) -> real {
    if x < 0real {
        -x
    } else {
        x
    }
}

// ---- the parts ----

spec fn insert_place(s: Seq<PartV>, x: PartV) -> int
    decreases s.len(),
{
    if s.len() > 0 && p_dominates(s.last().unit, x.unit) {
        insert_place(s.drop_last(), x)
    } else {
        s.len() as int
    }
}

proof fn insert_is(s: Seq<PartV>, x: PartV)
    ensures
        0 <= insert_place(s, x) <= s.len(),
        part_insert(s, x) == s.insert(insert_place(s, x), x),
    decreases s.len(),
{
    if s.len() > 0 && p_dominates(s.last().unit, x.unit) {
        insert_is(s.drop_last(), x);
        let p = insert_place(s, x);
        assert(part_insert(s, x) =~= s.insert(p, x));
    } else {
        assert(part_insert(s, x) =~= s.insert(s.len() as int, x));
    }
}

proof fn total_agrees(s: Seq<real>, t: Seq<real>, n: nat)
    requires
        n <= s.len(),
        n <= t.len(),
        forall|i: int| 0 <= i < n ==> s[i] == t[i],
    ensures
        total(s, n) == total(t, n),
    decreases n,
{
    if n > 0 {
        total_agrees(s, t, (n - 1) as nat);
    }
}

proof fn total_insert(s: Seq<real>, p: int, g: real, n: nat)
    requires
        0 <= p <= n,
        n <= s.len(),
    ensures
        total(s.insert(p, g), n + 1) == total(s, n) + g,
    decreases n,
{
    let t = s.insert(p, g);
    if p == n {
        total_agrees(s, t, n);
    } else {
        total_insert(s, p, g, (n - 1) as nat);
    }
}

/// A part and what it adds to the difference of two turns: as far as its unit times the distance
/// of the turns of its variable, which its span bounds.
spec fn fits(x: PartV, g: real, d: int, w: Weight) -> bool {
    &&& p_wf(x.unit)
    &&& p_wf(x.span)
    &&& p_value(x.unit, w) >= 0real ==> real_abs(g) == p_value(x.unit, w) * (abs_int(d) as real) && real_abs(g)
        <= p_value(x.span, w)
}

proof fn part_fits(
    k: Machine,
    loops: Seq<LoopV>,
    nest: Seq<int>,
    v: usize,
    c: PolyV,
    x: int,
    y: int,
    w: Weight,
)
    requires
        part_of(k, loops, nest, v, c) is Some,
        p_wf(c),
        p_wf(loop_over(loops, nest, v).trip),
        valuation(w),
        0 <= x,
        0 <= y,
        (x as real) <= p_value(loop_over(loops, nest, v).trip, w) - 1real,
        (y as real) <= p_value(loop_over(loops, nest, v).trip, w) - 1real,
    ensures
        fits(
            part_of(k, loops, nest, v, c)->0,
            p_value(c, w) * (loop_over(loops, nest, v).step * x) as real - p_value(c, w) * (loop_over(
                loops,
                nest,
                v,
            ).step * y) as real,
            x - y,
            w,
        ),
        part_of(k, loops, nest, v, c)->0.var == v,
{
    let l = loop_over(loops, nest, v);
    let b = abs_int(l.step);
    let p = p_scale(c, b as real);
    let part = part_of(k, loops, nest, v, c)->0;
    let unit = unsigned(k, p)->0;
    p_scale_wf(c, b as real);
    p_scale_wf(p, -1real);
    p_rat_wf(1real);
    p_sub_wf(l.trip, p_rat(1real));
    p_mul_wf(unit, p_sub(l.trip, p_rat(1real)));
    scale_value(c, b as real, w);
    scale_value(p, -1real, w);
    difference_value(l.trip, p_rat(1real), w);
    term_value(m_one(), 1real, w);
    product_value(unit, p_sub(l.trip, p_rat(1real)), w);
    let (cv, uv, tv) = (p_value(c, w), p_value(unit, w), p_value(l.trip, w));
    let (s, d) = (l.step, x - y);
    let g = cv * (s * x) as real - cv * (s * y) as real;
    assert(uv == b as real * cv || uv == -(b as real * cv)) by {
        let t = p_value(p, w);
        assert(-1real * t == -t) by (nonlinear_arith);
    }
    assert(g == cv * (s as real * d as real)) by (nonlinear_arith)
        requires
            g == cv * (s * x) as real - cv * (s * y) as real,
            d == x - y,
    ;
    if uv >= 0real {
        let (a, e) = (real_abs(g), abs_int(d) as real);
        assert(a == uv * e) by (nonlinear_arith)
            requires
                g == cv * (s as real * d as real),
                a == if g < 0real { -g } else { g },
                e == (if d < 0 { -d } else { d }) as real,
                b == if s < 0 { -s } else { s },
                uv == b as real * cv || uv == -(b as real * cv),
                uv >= 0real,
        ;
        assert(e <= tv - 1real);
        assert(uv * e <= uv * (tv - 1real)) by (nonlinear_arith)
            requires
                e <= tv - 1real,
                uv >= 0real,
        ;
    }
}

/// The parts of the first `n` coefficients, with what each adds: together what the coefficients
/// add, and every coefficient's variable among them.
proof fn parts_fit(
    k: Machine,
    loops: Seq<LoopV>,
    nest: Seq<int>,
    s: Coeffs,
    x: spec_fn(usize) -> int,
    y: spec_fn(usize) -> int,
    w: Weight,
    n: nat,
) -> (g: Seq<real>)
    requires
        n <= s.len(),
        parts_of(k, loops, nest, s, n) is Some,
        index_wf(loops, nest, s),
        valuation(w),
        in_turn(loops, nest, s, x, w),
        in_turn(loops, nest, s, y, w),
    ensures
        ({
            let ps = parts_of(k, loops, nest, s, n)->0;
            &&& g.len() == ps.len()
            &&& forall|i: int| 0 <= i < g.len() ==> fits(#[trigger] ps[i], g[i], x(ps[i].var) - y(ps[i].var), w)
            &&& forall|i: int| 0 <= i < n ==> exists|j: int| 0 <= j < ps.len() && (#[trigger] ps[j]).var == (#[trigger] s[i]).0
            &&& total(g, g.len()) == carried(loops, nest, s, x, w, n) - carried(loops, nest, s, y, w, n)
        }),
    decreases n,
{
    if n == 0 {
        Seq::empty()
    } else {
        let h = parts_fit(k, loops, nest, s, x, y, w, (n - 1) as nat);
        let before = parts_of(k, loops, nest, s, (n - 1) as nat)->0;
        let (v, c) = s[n - 1];
        assert(p_wf(s[n - 1].1));
        assert(0 <= x(s[n - 1].0));
        assert(0 <= y(s[n - 1].0));
        part_fits(k, loops, nest, v, c, x(v), y(v), w);
        let part = part_of(k, loops, nest, v, c)->0;
        let step = loop_over(loops, nest, v).step;
        let add = p_value(c, w) * (step * x(v)) as real - p_value(c, w) * (step * y(v)) as real;
        let p = insert_place(before, part);
        insert_is(before, part);
        let ps = before.insert(p, part);
        let g = h.insert(p, add);
        total_insert(h, p, add, h.len());
        assert forall|i: int| 0 <= i < g.len() implies fits(#[trigger] ps[i], g[i], x(ps[i].var) - y(ps[i].var), w) by {
            if i < p {
                assert(ps[i] == before[i]);
            } else if i > p {
                assert(ps[i] == before[i - 1]);
            }
        }
        assert forall|i: int| 0 <= i < n implies exists|j: int|
            0 <= j < ps.len() && (#[trigger] ps[j]).var == (#[trigger] s[i]).0 by {
            if i == n - 1 {
                assert(ps[p].var == s[i].0);
            } else {
                let j = choose|j: int| 0 <= j < before.len() && (#[trigger] before[j]).var == s[i].0;
                if j < p {
                    assert(ps[j].var == s[i].0);
                } else {
                    assert(ps[j + 1] == before[j]);
                    assert(ps[j + 1].var == s[i].0);
                }
            }
        }
        assert(parts_of(k, loops, nest, s, n) == Some(ps));
        assert(g.len() == h.len() + 1);
        assert(carried(loops, nest, s, x, w, n) == carried(loops, nest, s, x, w, (n - 1) as nat) + p_value(c, w) * (step
            * x(v)) as real);
        assert(carried(loops, nest, s, y, w, n) == carried(loops, nest, s, y, w, (n - 1) as nat) + p_value(c, w) * (step
            * y(v)) as real);
        g
    }
}

// ---- the law ----

/// What the first `n` parts add stays within their spans; where it is nothing, no variable of
/// them has moved.
proof fn radix_holds(
    ps: Seq<PartV>,
    g: Seq<real>,
    x: spec_fn(usize) -> int,
    y: spec_fn(usize) -> int,
    w: Weight,
    n: nat,
)
    requires
        n <= ps.len(),
        g.len() == ps.len(),
        mixed_radix(ps),
        grows(w),
        valuation(w),
        forall|i: int| 0 <= i < g.len() ==> fits(#[trigger] ps[i], g[i], x(ps[i].var) - y(ps[i].var), w),
    ensures
        p_wf(covered(ps, n)),
        real_abs(total(g, n)) <= p_value(covered(ps, n), w),
        total(g, n) == 0real ==> forall|i: int| 0 <= i < n ==> x((#[trigger] ps[i]).var) == y(ps[i].var),
    decreases n,
{
    if n > 0 {
        let m = (n - 1) as nat;
        radix_holds(ps, g, x, y, w, m);
        let part = ps[n - 1];
        let before = covered(ps, m);
        p_rat_wf(1real);
        p_add_wf(before, p_rat(1real));
        p_add_wf(before, part.span);
        sum_value(before, p_rat(1real), w);
        sum_value(before, part.span, w);
        term_value(m_one(), 1real, w);
        dominates_is_larger(part.unit, p_add(before, p_rat(1real)), w);
        let u = p_value(part.unit, w);
        let d = x(part.var) - y(part.var);
        assert(u >= real_abs(total(g, m)) + 1real);
        assert(real_abs(g[n - 1]) == u * (abs_int(d) as real));
        if d != 0 {
            let e = abs_int(d) as real;
            assert(u * e >= u) by (nonlinear_arith)
                requires
                    e >= 1real,
                    u >= 0real,
            ;
        } else {
            assert(u * 0real == 0real) by (nonlinear_arith);
        }
    }
}

/// An index that passes the test is injective: at any sizes of one or more, two turns of its
/// loops that carry it equally far are the same turn of every loop it depends on.
pub proof fn index_injective(
    k: Machine,
    loops: Seq<LoopV>,
    nest: Seq<int>,
    a: AffineV,
    w: Weight,
    x: spec_fn(usize) -> int,
    y: spec_fn(usize) -> int,
)
    requires
        injective_vars(k, loops, nest, a) is Some,
        index_wf(loops, nest, a.coeffs),
        grows(w),
        valuation(w),
        in_turn(loops, nest, a.coeffs, x, w),
        in_turn(loops, nest, a.coeffs, y, w),
        carried(loops, nest, a.coeffs, x, w, a.coeffs.len()) == carried(loops, nest, a.coeffs, y, w, a.coeffs.len()),
    ensures
        forall|i: int| 0 <= i < a.coeffs.len() ==> x((#[trigger] a.coeffs[i]).0) == y(a.coeffs[i].0),
{
    let s = a.coeffs;
    let ps = parts_of(k, loops, nest, s, s.len())->0;
    let g = parts_fit(k, loops, nest, s, x, y, w, s.len());
    radix_holds(ps, g, x, y, w, ps.len());
    assert forall|i: int| 0 <= i < s.len() implies x((#[trigger] s[i]).0) == y(s[i].0) by {
        let j = choose|j: int| 0 <= j < ps.len() && (#[trigger] ps[j]).var == s[i].0;
        assert(x(ps[j].var) == y(ps[j].var));
    }
}

} // verus!
