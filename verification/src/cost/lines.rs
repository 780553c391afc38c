//! What the accesses of loops move: how far a site steps, how many lines it touches over a loop, where
//! its lines are kept from one turn to the next, and what all sites move together.

use vstd::prelude::*;
use crate::cost::affine::{coeff, Coeffs};
use crate::cost::algebra::{
    m_atom, m_atom_wf, m_mul, m_mul_wf, m_one, m_wf, p_add_wf, p_atom, p_mul, p_mul_wf, p_rat, p_rat_wf, p_scale,
    p_scale_wf, p_term, p_term_wf, p_value, p_wf, p_zero, product_value, scale_value, sum_value, term_value,
    valuation,
};
use crate::cost::assoc::{bump, bump_value, canonical_unique, value};
use crate::cost::costs::{c_add, c_max, c_mul_poly, with_polys};
use crate::cost::laps::{loop_ok, over_turns, rec_sum_is, turns_ok};
use crate::cost::laws::{cond_true, conds_ok, conds_true, placed, true_is_feasible, Place, Weight};
use crate::cost::machine::Machine;
use crate::cost::model::{AtomV, MonoV, PolyV};
use crate::cost::piece::{s_feasible, zero_piece, CondV, PieceV};
use crate::cost::pruning::{cost_is, max_is, pieces_ok, prune_keeps, prune_ok, sum_is, sum_ok};
use crate::cost::rat::whole_parts;
use crate::cost::reading::{numeric, rec_of, rec_sum};
use crate::cost::replacing::atom_exponent;
use crate::cost::scope::{LoopV, RecV, SiteV};
use crate::cost::settle::{
    abs_real, all_sites, deepest, flat_cost, fork_side, grouped, ifs_at, level_lines, on_side, outcomes, per_line,
    pick_conds, pick_lines, runs_cost, same_set, settled_runs, site_moves, site_stride, slide, tested, whole_part,
    with_ifs, RunV,
};
use crate::cost::sizing::{coeffs_ok, coeffs_value, f_ok, f_value, no_coeff};
use crate::cost::subst::{mentioning, p_hide, p_mentions};
use crate::cost::summing::sum_over_steady;
use crate::cost::turns::{sum_over_wf, zero_wf};

verus! {

// ---- strides ----

/// The turns made, with one more by the loop over `v`.
pub open spec fn stepped_on(at: spec_fn(usize) -> real, v: usize) -> spec_fn(usize) -> real {
    |l: usize|
        if l == v {
            at(l) + 1real
        } else {
            at(l)
        }
}

proof fn coeffs_step(s: Coeffs, v: usize, at: spec_fn(usize) -> real, x: Weight)
    requires
        coeffs_ok(s),
    ensures
        coeffs_value(s, stepped_on(at, v), x) - coeffs_value(s, at, x) == match coeff(s, v) {
            Some(p) => p_value(p, x),
            None => 0real,
        },
    decreases s.len(),
{
    if s.len() > 0 {
        let t = s.drop_first();
        assert(forall|i: int| 0 <= i < t.len() ==> #[trigger] t[i] == s[i + 1]);
        assert(coeffs_ok(t));
        coeffs_step(t, v, at, x);
        let (c, z) = (p_value(s[0].1, x), at(s[0].0));
        assert(c * (z + 1real) == c * z + c) by (nonlinear_arith);
        if s[0].0 == v {
            assert forall|i: int| 0 <= i < t.len() implies (#[trigger] t[i]).0 > v by {
                assert(s[0].0 < s[i + 1].0);
            }
            no_coeff(t, v);
        }
    }
}

/// One more turn of a loop moves a site by its stride: as many bytes as the index moves elements, times
/// the bytes from one element to the next. Without the loop's variable in the index it stays.
pub proof fn stride_is(r: RecV, s: SiteV, at: spec_fn(usize) -> real, x: Weight)
    requires
        s.aff is Some,
        f_ok(s.aff->0),
    ensures
        site_stride(r, s) is Some,
        p_value(site_stride(r, s)->0, x) == (s.stride as real) * (match r.var {
            Some(v) => f_value(s.aff->0, stepped_on(at, v), x) - f_value(s.aff->0, at, x),
            None => 0real,
        }),
{
    let a = s.aff->0;
    let es = s.stride as real;
    assert(p_value(p_zero(), x) == 0real);
    assert(es * 0real == 0real) by (nonlinear_arith);
    scale_value(p_zero(), es, x);
    match r.var {
        Some(v) => {
            coeffs_step(a.coeffs, v, at, x);
            match coeff(a.coeffs, v) {
                Some(p) => scale_value(p, es, x),
                None => {},
            }
        },
        None => {},
    }
}

// ---- lines ----

/// The bytes of a line.
pub open spec fn line_bytes(x: Weight) -> real {
    x(m_atom(AtomV::B))
}

spec fn over_line() -> MonoV {
    MonoV { factors: bump(Seq::empty(), AtomV::B, -1real) }
}

proof fn over_line_is(x: Weight)
    requires
        valuation(x),
    ensures
        m_wf(over_line()),
        x(over_line()) * line_bytes(x) == 1real,
{
    let (a, b) = (over_line(), m_atom(AtomV::B));
    m_atom_wf(AtomV::B);
    bump_value(m_one().factors, AtomV::B, -1real);
    assert(m_one().factors =~= Seq::<(AtomV, real)>::empty());
    m_mul_wf(a, b);
    atom_exponent(AtomV::B, AtomV::B);
    assert forall|k: AtomV| #[trigger] value(m_mul(a, b).factors, k) == value(
        m_one().factors,
        k,
    ) by {
        atom_exponent(AtomV::B, k);
        assert(value(a.factors, k) == value(m_one().factors, k) + (if k
            == AtomV::B {
            -1real
        } else {
            0real
        }));
    }
    canonical_unique(m_mul(a, b).factors, m_one().factors);
    assert(m_mul(a, b) == m_one());
}

proof fn per_line_is(p: PolyV, x: Weight)
    requires
        valuation(x),
        p_wf(p),
    ensures
        p_wf(per_line(p)),
        p_value(per_line(p), x) * line_bytes(x) == p_value(p, x),
{
    let m = over_line();
    over_line_is(x);
    p_term_wf(m, 1real);
    term_value(m, 1real, x);
    product_value(p, p_term(m, 1real), x);
    p_mul_wf(p, p_term(m, 1real));
    let (v, u, b) = (p_value(p, x), x(m), line_bytes(x));
    assert((v * u) * b == v * (u * b)) by (nonlinear_arith);
    assert(v * 1real == v) by (nonlinear_arith);
}

proof fn whole_part_is(q: int)
    requires
        q >= 0,
    ensures
        whole_part(q as real) == q,
{
    whole_parts(q);
}

/// The lines that a contiguous pass over `n` turns slides on to, `q` bytes a turn: the bytes of the pass
/// over those of a line, or one where it is known to be less.
pub open spec fn slid(n: nat, q: int, v: real, x: Weight) -> bool {
    v * line_bytes(x) == (n as real) * (q as real) || v == 1real
}

proof fn slide_is(k: Machine, lp: LoopV, q: int, neg: bool, x: Weight, n: nat)
    requires
        q >= 0,
        loop_ok(lp),
        valuation(x),
        p_value(lp.trip, x) == n as real,
    ensures
        ({
            let p = slide(k, rec_of(lp), if neg { -(q as real) } else { q as real });
            p_wf(p) && slid(n, q, p_value(p, x), x)
        }),
{
    let r = rec_of(lp);
    let s = if neg {
        -(q as real)
    } else {
        q as real
    };
    whole_part_is(q);
    assert(abs_real(s) == q as real);
    let t = rec_sum(r, p_rat(1real));
    turns_counted(lp, x, n);
    p_scale_wf(t, q as real);
    scale_value(t, q as real, x);
    per_line_is(p_scale(t, q as real), x);
    p_rat_wf(1real);
    term_value(m_one(), 1real, x);
    let (a, b) = (n as real, q as real);
    assert(a * b == b * a) by (nonlinear_arith);
}

/// One, summed over the turns, is their number.
proof fn turns_counted(lp: LoopV, x: Weight, n: nat)
    requires
        loop_ok(lp),
        valuation(x),
        p_value(lp.trip, x) == n as real,
    ensures
        p_wf(rec_sum(rec_of(lp), p_rat(1real))),
        p_value(rec_sum(rec_of(lp), p_rat(1real)), x) == n as real,
{
    let p = p_rat(1real);
    let y = n as real;
    p_rat_wf(1real);
    term_value(m_one(), 1real, x);
    assert(1real * y == y) by (nonlinear_arith);
    match lp.atom {
        Some(a) => {
            assert(p.terms =~= seq![(m_one(), 1real)]);
            assert(p_hide(p, mentioning(a as int)) == p);
            sum_over_wf(p, a as int, lp.lo, lp.step, lp.trip);
            sum_over_steady(p, a as int, lp.lo, lp.step, lp.trip, x, n);
        },
        None => {
            p_mul_wf(p, lp.trip);
            product_value(p, lp.trip, x);
        },
    }
}

/// The lines of an alternative are the same in every turn.
pub open spec fn steady(lp: LoopV, run: RunV) -> bool {
    match lp.atom {
        Some(a) => !p_mentions(run.lines, a as int),
        None => true,
    }
}

/// The site is on other lines in every turn: its index is no affine form, its step is no number, or it
/// steps over a line or more.
pub open spec fn jumps(k: Machine, r: RecV, s: SiteV) -> bool {
    match site_stride(r, s) {
        None => true,
        Some(st) => st != p_zero() && match numeric(k, st) {
            None => true,
            Some(b) => b >= k.b_bytes as real || -b >= k.b_bytes as real,
        },
    }
}

/// The site steps by `q` bytes a turn, up or down, within a line.
pub open spec fn slides(k: Machine, r: RecV, s: SiteV, q: int) -> bool {
    match site_stride(r, s) {
        None => false,
        Some(st) => 0 <= q < k.b_bytes && st != p_zero() && (numeric(k, st) == Some(q as real) || numeric(k, st) == Some(
            -(q as real),
        )),
    }
}

/// What a site touches over one run of a loop of `n` turns. Lines that are lost before the next turn, or
/// left behind by it, count in every turn. Lines that are kept count once; a site that slides on over
/// them adds the lines it comes to.
pub proof fn site_lines(k: Machine, lp: LoopV, s: SiteV, run: RunV, fits: bool, q: int, x: Weight, n: nat)
    requires
        loop_ok(lp),
        valuation(x),
        p_value(lp.trip, x) == n as real,
        p_wf(run.lines),
        turns_ok(run.lines, lp),
    ensures
        ({
            let r = rec_of(lp);
            let (lines, contig) = level_lines(k, r, s, run, fits);
            let all = over_turns(run.lines, lp, x, 0, n);
            let once = p_value(run.lines, x);
            &&& p_wf(lines)
            &&& !fits || jumps(k, r, s) ==> p_value(lines, x) == all && !contig
            &&& fits && site_stride(r, s) == Some(p_zero()) ==> contig == run.contig && p_value(lines, x) == if steady(lp, run) {
                once
            } else {
                all
            }
            &&& fits && slides(k, r, s, q) && steady(lp, run) ==> contig == run.contig && exists|v: real| #[trigger]
                slid(n, q, v, x) && p_value(lines, x) == if run.contig {
                    once + v
                } else {
                    once * v
                }
        }),
{
    let r = rec_of(lp);
    let inner = same_set(r, run);
    rec_sum_is(run.lines, lp, x, n);
    match site_stride(r, s) {
        None => {},
        Some(st) => match numeric(k, st) {
            None => {},
            Some(b) => {
                if fits && slides(k, r, s, q) && steady(lp, run) {
                    slide_is(k, lp, q, b != q as real, x, n);
                }
                let on = slide(k, r, b);
                slide_wf(k, lp, b, x, n);
                p_add_wf(inner, on);
                p_mul_wf(inner, on);
                sum_value(inner, on, x);
                product_value(inner, on, x);
                if fits && slides(k, r, s, q) && steady(lp, run) {
                    assert(slid(n, q, p_value(on, x), x));
                }
            },
        },
    }
}

proof fn slide_wf(k: Machine, lp: LoopV, b: real, x: Weight, n: nat)
    requires
        loop_ok(lp),
        valuation(x),
        p_value(lp.trip, x) == n as real,
    ensures
        p_wf(slide(k, rec_of(lp), b)),
{
    let t = rec_sum(rec_of(lp), p_rat(1real));
    turns_counted(lp, x, n);
    p_scale_wf(t, whole_part(abs_real(b)) as real);
    per_line_is(p_scale(t, whole_part(abs_real(b)) as real), x);
    p_rat_wf(1real);
}

// ---- what fits ----

/// The lines of all members, at the place.
pub open spec fn lines_together(p: Seq<RunV>, x: Weight) -> real
    decreases p.len(),
{
    if p.len() == 0 {
        0real
    } else {
        lines_together(p.drop_last(), x) + p_value(p.last().lines, x)
    }
}

/// The working set is what all members touch.
pub proof fn working_set_is(p: Seq<RunV>, x: Weight)
    ensures
        p_value(pick_lines(p), x) == lines_together(p, x),
    decreases p.len(),
{
    if p.len() > 0 {
        working_set_is(p.drop_last(), x);
        sum_value(pick_lines(p.drop_last()), p.last().lines, x);
    }
}

proof fn pushed_holds(c: Seq<CondV>, d: CondV, x: Place)
    requires
        conds_ok(c),
        p_wf(d.ws),
        placed(x),
    ensures
        conds_ok(c.push(d)),
        conds_true(c.push(d), x) <==> conds_true(c, x) && cond_true(d, x),
        conds_true(c.push(d), x) ==> s_feasible(c.push(d)),
{
    let r = c.push(d);
    assert forall|i: int| 0 <= i < r.len() implies p_wf((#[trigger] r[i]).ws) by {
        if i < c.len() {
            assert(r[i] == c[i]);
        }
    }
    if conds_true(r, x) {
        assert forall|i: int| 0 <= i < c.len() implies cond_true(#[trigger] c[i], x) by {
            assert(r[i] == c[i]);
        }
        assert(r[c.len() as int] == d);
        true_is_feasible(r, x);
    } else if conds_true(c, x) && cond_true(d, x) {
        assert forall|i: int| 0 <= i < r.len() implies cond_true(#[trigger] r[i], x) by {
            if i < c.len() {
                assert(r[i] == c[i]);
            }
        }
    }
}

/// At a place where the conditions of a choice hold, the choice has an outcome whose conditions hold,
/// and in every such outcome the lines are kept exactly where the working set is smaller than the
/// cache there.
pub proof fn kept_where_it_fits(k: Machine, r: RecV, p: Seq<RunV>, x: Place)
    requires
        placed(x),
        x.b == k.b_bytes as real,
        x.m == k.m_bytes as real,
        conds_ok(pick_conds(p)),
        conds_true(pick_conds(p), x),
        tested(r, pick_lines(p)) is Some,
        p_wf(tested(r, pick_lines(p))->0),
        numeric(k, tested(r, pick_lines(p))->0) is Some ==> numeric(k, tested(r, pick_lines(p))->0) == Some(
            p_value(tested(r, pick_lines(p))->0, x.w),
        ),
    ensures
        exists|j: int| 0 <= j < outcomes(k, r, p).len() && conds_true((#[trigger] outcomes(k, r, p)[j]).0, x),
        forall|j: int|
            0 <= j < outcomes(k, r, p).len() && conds_true((#[trigger] outcomes(k, r, p)[j]).0, x) ==> outcomes(k, r, p)[j].1
                == (p_value(tested(r, pick_lines(p))->0, x.w) * x.b < x.m),
{
    let c = pick_conds(p);
    let t = tested(r, pick_lines(p))->0;
    let os = outcomes(k, r, p);
    true_is_feasible(c, x);
    match numeric(k, t) {
        Some(l) => {
            assert(os[0].0 == c);
        },
        None => {
            let (yes, no) = (CondV { ws: t, fits: true }, CondV { ws: t, fits: false });
            pushed_holds(c, yes, x);
            pushed_holds(c, no, x);
            let (a, b) = (fork_side(c, t, true), fork_side(c, t, false));
            if cond_true(yes, x) {
                assert(os[0] == a[0]);
            } else {
                assert(os[a.len() as int] == b[0]);
            }
            assert forall|j: int| 0 <= j < os.len() && conds_true((#[trigger] os[j]).0, x) implies os[j].1 == (p_value(t, x.w)
                * x.b < x.m) by {
                if j < a.len() {
                    assert(os[j] == a[j]);
                } else {
                    assert(os[j] == b[j - a.len()]);
                }
            }
        },
    }
}

// ---- all sites ----

/// A cost times a size that is not negative is worth the product.
pub proof fn mul_poly_is(s: Seq<PieceV>, p: PolyV, x: Place, v: real)
    requires
        pieces_ok(s),
        p_wf(p),
        placed(x),
        valuation(x.w),
        p_value(p, x.w) >= 0real,
        cost_is(s, x, v),
    ensures
        cost_is(c_mul_poly(s, p), x, v * p_value(p, x.w)),
{
    let t = with_polys(s, |q: PolyV| p_mul(q, p));
    let y = p_value(p, x.w);
    assert forall|i: int| 0 <= i < t.len() implies p_wf((#[trigger] t[i]).poly) && conds_ok(t[i].conds) by {
        assert(p_wf(s[i].poly) && conds_ok(s[i].conds));
        p_mul_wf(s[i].poly, p);
    }
    let i = choose|i: int| 0 <= i < s.len() && conds_true((#[trigger] s[i]).conds, x) && p_value(s[i].poly, x.w) == v;
    product_value(s[i].poly, p, x.w);
    assert(t[i].conds == s[i].conds);
    assert forall|i: int| 0 <= i < t.len() && conds_true((#[trigger] t[i]).conds, x) implies p_value(t[i].poly, x.w) <= v * y by {
        assert(conds_true(s[i].conds, x));
        product_value(s[i].poly, p, x.w);
        let z = p_value(s[i].poly, x.w);
        assert(z * y <= v * y) by (nonlinear_arith)
            requires
                z <= v,
                y >= 0real,
        ;
    }
    prune_keeps(t, x, v * y);
}

pub open spec fn sum_of(v: Seq<real>) -> real
    decreases v.len(),
{
    if v.len() == 0 {
        0real
    } else {
        sum_of(v.drop_last()) + v.last()
    }
}

/// The lines that the sites touch over the whole function are `v` at the place.
pub open spec fn lines_are(runs: Seq<Seq<RunV>>, x: Place, v: Seq<real>) -> bool {
    &&& v.len() == runs.len()
    &&& forall|i: int|
        0 <= i < runs.len() ==> pieces_ok(runs_cost(#[trigger] runs[i])) && cost_is(runs_cost(runs[i]), x, v[i])
}

proof fn flat_is(sites: Seq<SiteV>, runs: Seq<Seq<RunV>>, n: nat, x: Place, v: Seq<real>)
    requires
        placed(x),
        n <= sites.len(),
        sites.len() == runs.len(),
        forall|i: int| 0 <= i < sites.len() ==> (#[trigger] sites[i]).branch.len() == 0,
        lines_are(runs, x, v),
    ensures
        pieces_ok(flat_cost(sites, runs, all_sites(n), 0)),
        cost_is(flat_cost(sites, runs, all_sites(n), 0), x, sum_of(v.take(n as int))),
    decreases n,
{
    assert(v.take(0) =~= Seq::empty());
    if n == 0 {
        zero_wf();
        let z = seq![zero_piece()];
        assert(z[0].conds.len() == 0);
        assert(conds_true(z[0].conds, x));
        assert(p_value(z[0].poly, x.w) == 0real);
    } else {
        let list = all_sites(n);
        let k = (n - 1) as nat;
        assert(list.drop_last() =~= all_sites(k));
        assert(list.last() == n - 1);
        flat_is(sites, runs, k, x, v);
        assert(v.take(n as int).drop_last() =~= v.take(k as int));
        assert(sites[n - 1].branch.len() == 0);
        assert(pieces_ok(runs_cost(runs[n - 1])));
        let before = flat_cost(sites, runs, all_sites(k), 0);
        sum_ok(before, runs_cost(runs[n - 1]));
        sum_is(before, runs_cost(runs[n - 1]), x, sum_of(v.take(k as int)), v[n - 1]);
    }
}

/// Sites that all run move, together, a line for every line that each of them touches.
pub proof fn sites_move(k: Machine, sites: Seq<SiteV>, recs: Seq<RecV>, x: Place, v: Seq<real>)
    requires
        placed(x),
        valuation(x.w),
        forall|i: int| 0 <= i < sites.len() ==> (#[trigger] sites[i]).branch.len() == 0,
        settled_runs(k, sites, recs, recs.len()).len() == sites.len(),
        lines_are(settled_runs(k, sites, recs, recs.len()), x, v),
    ensures
        cost_is(site_moves(k, sites, recs), x, sum_of(v) * line_bytes(x.w)),
{
    let runs = settled_runs(k, sites, recs, recs.len());
    let n = sites.len();
    none_deep(sites, n);
    flat_is(sites, runs, n, x, v);
    assert(v.take(n as int) =~= v);
    let flat = flat_cost(sites, runs, all_sites(n), 0);
    assert(grouped(sites, runs, all_sites(n), 0, 0) == flat);
    let b = p_atom(AtomV::B);
    m_atom_wf(AtomV::B);
    p_term_wf(m_atom(AtomV::B), 1real);
    term_value(m_atom(AtomV::B), 1real, x.w);
    mul_poly_is(flat, b, x, sum_of(v));
}

proof fn none_deep(sites: Seq<SiteV>, n: nat)
    requires
        n <= sites.len(),
        forall|i: int| 0 <= i < sites.len() ==> (#[trigger] sites[i]).branch.len() == 0,
    ensures
        deepest(sites, n) == 0,
    decreases n,
{
    if n > 0 {
        none_deep(sites, (n - 1) as nat);
        assert(sites[n - 1].branch.len() == 0);
    }
}

// ---- the two sides of an `if` ----

/// Every site runs always, or on one side of the one `if`.
pub open spec fn under_one_if(sites: Seq<SiteV>, id: usize) -> bool {
    forall|i: int|
        0 <= i < sites.len() ==> (#[trigger] sites[i]).branch.len() == 0 || (sites[i].branch.len() == 1 && sites[i].branch[0].0
            == id)
}

/// What the first `n` sites of a side touch, or those that run always.
pub open spec fn on_way(sites: Seq<SiteV>, v: Seq<real>, side: Option<bool>, n: nat) -> real
    decreases n,
{
    if n == 0 {
        0real
    } else {
        let b = sites[n - 1].branch;
        on_way(sites, v, side, (n - 1) as nat) + if (if b.len() == 0 {
            side is None
        } else {
            side == Some(b[0].1)
        }) {
            v[n - 1]
        } else {
            0real
        }
    }
}

proof fn nothing_touched(x: Place)
    requires
        placed(x),
    ensures
        pieces_ok(seq![zero_piece()]),
        cost_is(seq![zero_piece()], x, 0real),
{
    zero_wf();
    let z = seq![zero_piece()];
    assert(z[0].conds.len() == 0);
    assert(conds_true(z[0].conds, x));
    assert(p_value(z[0].poly, x.w) == 0real);
}

proof fn always_is(sites: Seq<SiteV>, runs: Seq<Seq<RunV>>, id: usize, n: nat, x: Place, v: Seq<real>)
    requires
        placed(x),
        n <= sites.len(),
        sites.len() == runs.len(),
        under_one_if(sites, id),
        lines_are(runs, x, v),
    ensures
        pieces_ok(flat_cost(sites, runs, all_sites(n), 0)),
        cost_is(flat_cost(sites, runs, all_sites(n), 0), x, on_way(sites, v, None, n)),
    decreases n,
{
    nothing_touched(x);
    if n > 0 {
        let list = all_sites(n);
        let k = (n - 1) as nat;
        assert(list.drop_last() =~= all_sites(k));
        assert(list.last() == n - 1);
        always_is(sites, runs, id, k, x, v);
        assert(sites[n - 1].branch.len() <= 1);
        assert(pieces_ok(runs_cost(runs[n - 1])));
        let before = flat_cost(sites, runs, all_sites(k), 0);
        sum_ok(before, runs_cost(runs[n - 1]));
        sum_is(before, runs_cost(runs[n - 1]), x, on_way(sites, v, None, k), v[n - 1]);
    }
}

proof fn side_is(sites: Seq<SiteV>, runs: Seq<Seq<RunV>>, id: usize, yes: bool, n: nat, x: Place, v: Seq<real>)
    requires
        placed(x),
        n <= sites.len(),
        sites.len() == runs.len(),
        under_one_if(sites, id),
        lines_are(runs, x, v),
    ensures
        pieces_ok(flat_cost(sites, runs, on_side(sites, all_sites(n), 0, (id, yes)), 1)),
        cost_is(
            flat_cost(sites, runs, on_side(sites, all_sites(n), 0, (id, yes)), 1),
            x,
            on_way(sites, v, Some(yes), n),
        ),
    decreases n,
{
    nothing_touched(x);
    if n > 0 {
        let list = all_sites(n);
        let k = (n - 1) as nat;
        assert(list.drop_last() =~= all_sites(k));
        assert(list.last() == n - 1);
        side_is(sites, runs, id, yes, k, x, v);
        let b = sites[n - 1].branch;
        assert(sites[n - 1].branch.len() <= 1);
        let had = on_side(sites, all_sites(k), 0, (id, yes));
        if b.len() > 0 && b[0] == (id, yes) {
            assert(pieces_ok(runs_cost(runs[n - 1])));
            let before = flat_cost(sites, runs, had, 1);
            let now = had.push(n - 1);
            assert(now.drop_last() =~= had);
            sum_ok(before, runs_cost(runs[n - 1]));
            sum_is(before, runs_cost(runs[n - 1]), x, on_way(sites, v, Some(yes), k), v[n - 1]);
        } else if b.len() > 0 {
            assert(b[0].0 == id);
        }
    }
}

proof fn one_if(sites: Seq<SiteV>, id: usize, n: nat)
    requires
        n <= sites.len(),
        under_one_if(sites, id),
    ensures
        deepest(sites, n) <= 1,
        deepest(sites, n) == 0 ==> ifs_at(sites, all_sites(n), 0) == Seq::<usize>::empty(),
        deepest(sites, n) == 1 ==> ifs_at(sites, all_sites(n), 0) == seq![id],
    decreases n,
{
    if n > 0 {
        let list = all_sites(n);
        let k = (n - 1) as nat;
        assert(list.drop_last() =~= all_sites(k));
        assert(list.last() == n - 1);
        one_if(sites, id, k);
        assert(sites[n - 1].branch.len() <= 1);
        if sites[n - 1].branch.len() == 1 {
            assert(sites[n - 1].branch[0].0 == id);
            let before = ifs_at(sites, all_sites(k), 0);
            if deepest(sites, k) == 1 {
                assert(before[0] == id);
                assert(before.contains(id));
            } else {
                assert(!before.contains(id));
                assert(before.push(id) =~= seq![id]);
            }
        }
    }
}

/// Of the sites on the two sides of an `if` those of one side run: together with the sites that run
/// always they move the lines of the side that touches more.
pub proof fn sides_move(k: Machine, sites: Seq<SiteV>, recs: Seq<RecV>, id: usize, x: Place, v: Seq<real>)
    requires
        placed(x),
        valuation(x.w),
        under_one_if(sites, id),
        deepest(sites, sites.len()) == 1,
        settled_runs(k, sites, recs, recs.len()).len() == sites.len(),
        lines_are(settled_runs(k, sites, recs, recs.len()), x, v),
    ensures
        ({
            let n = sites.len();
            let (yes, no) = (on_way(sites, v, Some(true), n), on_way(sites, v, Some(false), n));
            cost_is(
                site_moves(k, sites, recs),
                x,
                (on_way(sites, v, None, n) + if yes < no {
                    no
                } else {
                    yes
                }) * line_bytes(x.w),
            )
        }),
{
    let runs = settled_runs(k, sites, recs, recs.len());
    let n = sites.len();
    let all = all_sites(n);
    one_if(sites, id, n);
    always_is(sites, runs, id, n, x, v);
    side_is(sites, runs, id, true, n, x, v);
    side_is(sites, runs, id, false, n, x, v);
    let flat = flat_cost(sites, runs, all, 0);
    let a = grouped(sites, runs, on_side(sites, all, 0, (id, true)), 1, 0);
    let b = grouped(sites, runs, on_side(sites, all, 0, (id, false)), 1, 0);
    let (yes, no) = (on_way(sites, v, Some(true), n), on_way(sites, v, Some(false), n));
    let most = if yes < no {
        no
    } else {
        yes
    };
    max_is(a, b, x, yes, no);
    prune_ok(a + b);
    sum_ok(flat, c_max(a, b));
    sum_is(flat, c_max(a, b), x, on_way(sites, v, None, n), most);
    let ifs = seq![id];
    let both = c_add(flat, c_max(a, b));
    assert(with_ifs(sites, runs, all, 0, 1, flat, ifs, 0) == flat);
    assert(ifs[0] == id);
    assert(with_ifs(sites, runs, all, 0, 1, flat, ifs, 1) == both);
    assert(grouped(sites, runs, all, 0, 1) == both);
    m_atom_wf(AtomV::B);
    p_term_wf(m_atom(AtomV::B), 1real);
    term_value(m_atom(AtomV::B), 1real, x.w);
    mul_poly_is(both, p_atom(AtomV::B), x, on_way(sites, v, None, n) + most);
}

} // verus!
