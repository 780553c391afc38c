//! The moves of every access site, settled together.
//!
//! Lines touched by every access site over its loop nest, times B. Level by level from the
//! innermost loop out, for all sites at once:
//!
//! ```text
//!   lines(inner of innermost) = 1
//!   lines(level) = lines(inner) × t           if the working set at this level does not fit M
//!                = lines(inner) × 1           if the access does not move with this loop
//!                = lines(inner) × t           if it moves by a whole line or more
//!                = lines(inner) × t·s/B       if it moves by s < B bytes per iteration
//! ```
//!
//! The working set at a level is the sum, over every site inside that loop, of the lines that
//! site touches per iteration of it — the sites compete for the same cache. A working set that is
//! not a number forks the cost into the two outcomes. A non-affine index is assumed to move by a
//! whole line or more. Every assumption rounds up.

use vstd::prelude::*;
use crate::ast::views;
use crate::cost::affine::coeff;
use crate::cost::algebra::{p_add, p_atom, p_mul, p_rat, p_scale, p_term, p_zero};
use crate::cost::assoc::{bump, holds};
use crate::cost::costs::{c_add, c_max, c_mul_poly, with_cond};
use crate::cost::forms::{ints, opt_poly};
use crate::cost::machine::Machine;
use crate::cost::model::{AtomV, MonoV, PolyV};
use crate::cost::piece::{
    c_prune, conds_v, copy_conds, feasible, has_cond, pieces_v, s_feasible, zero_piece, Cond, CondV, Cost, Piece,
    PieceV,
};
use crate::cost::rat::{den, num, Rat};
use crate::cost::reading::{numeric, rec_last, rec_sum, value_of};
use crate::cost::scope::{LoopRec, RecV, Site, SiteV};
use crate::cost::size::{atom_view_is, Atom, Poly};
use crate::cost::table::has_id;
use crate::cost::subst::{p_mentions, p_subst, with_all_new, with_new};
use crate::num::{BigInt, BigNat, Side};

verus! {

/// One alternative for the lines a site touches over one full run of a loop: the conditions that
/// produced it, and whether the lines form one contiguous region.
#[derive(Debug)]
pub struct Run {
    pub conds: Vec<Cond>,
    pub lines: Poly,
    pub contig: bool,
}

#[verifier::ext_equal]
pub struct RunV {
    pub conds: Seq<CondV>,
    pub lines: PolyV,
    pub contig: bool,
}

impl View for Run {
    type V = RunV;

    open spec fn view(&self) -> RunV {
        RunV { conds: conds_v(self.conds@), lines: self.lines@, contig: self.contig }
    }
}

/// Inside the innermost loop a site touches one line.
pub open spec fn one_line() -> RunV {
    RunV { conds: Seq::empty(), lines: p_rat(1real), contig: true }
}

/// The conditions of a choice of alternatives, each once.
pub open spec fn pick_conds(p: Seq<RunV>) -> Seq<CondV>
    decreases p.len(),
{
    if p.len() == 0 {
        Seq::empty()
    } else {
        with_all_new(pick_conds(p.drop_last()), p.last().conds)
    }
}

/// The lines that the sites of a choice touch together.
pub open spec fn pick_lines(p: Seq<RunV>) -> PolyV
    decreases p.len(),
{
    if p.len() == 0 {
        p_zero()
    } else {
        p_add(pick_lines(p.drop_last()), p.last().lines)
    }
}

/// Every term that has the atom has a coefficient of one sign.
pub open spec fn signs_agree(t: Seq<(MonoV, real)>, a: AtomV, positive: bool) -> bool {
    forall|i: int|
        0 <= i < t.len() && holds((#[trigger] t[i]).0.factors, a) ==> if positive {
            t[i].1 >= 0real
        } else {
            t[i].1 <= 0real
        }
}

/// The working set that decides a level: one that varies with the loop's variable is tested at
/// its largest, where that can be told.
pub open spec fn tested(r: RecV, ws: PolyV) -> Option<PolyV> {
    match r.atom {
        Some(a) => if p_mentions(ws, a as int) {
            if signs_agree(ws.terms, AtomV::Var(a as int), true) {
                Some(p_subst(ws, a as int, rec_last(r)))
            } else if signs_agree(ws.terms, AtomV::Var(a as int), false) {
                Some(p_subst(ws, a as int, r.lo))
            } else {
                None
            }
        } else {
            Some(ws)
        },
        None => Some(ws),
    }
}

pub type OutcomeV = (Seq<CondV>, bool);

pub open spec fn fork_side(conds: Seq<CondV>, ws: PolyV, fits: bool) -> Seq<OutcomeV> {
    let c = conds.push(CondV { ws, fits });
    if s_feasible(c) {
        seq![(c, fits)]
    } else {
        Seq::empty()
    }
}

/// Whether the working set of a choice fits: decided, or forked into the two outcomes.
pub open spec fn outcomes(k: Machine, r: RecV, p: Seq<RunV>) -> Seq<OutcomeV> {
    let conds = pick_conds(p);
    if !s_feasible(conds) {
        Seq::empty()
    } else {
        match tested(r, pick_lines(p)) {
            None => seq![(conds, false)],
            Some(t) => match numeric(k, t) {
                Some(l) => seq![(conds, l * (k.b_bytes as real) < k.m_bytes as real)],
                None => fork_side(conds, t, true) + fork_side(conds, t, false),
            },
        }
    }
}

pub open spec fn abs_real(x: real) -> real {
    if x < 0real {
        -x
    } else {
        x
    }
}

/// The whole part of a number that is not negative.
pub open spec fn whole_part(x: real) -> int {
    num(x) / den(x)
}

/// `p` times `B` to the power `−1`.
pub open spec fn per_line(p: PolyV) -> PolyV {
    p_mul(p, p_term((MonoV { factors: bump(Seq::empty(), AtomV::B, -1real) }), 1real))
}

/// The lines a site slides over when it moves by `s` bytes per iteration; at least one.
pub open spec fn slide(k: Machine, r: RecV, s: real) -> PolyV {
    let p = per_line(p_scale(rec_sum(r, p_rat(1real)), whole_part(abs_real(s)) as real));
    match numeric(k, p) {
        Some(v) => if v < 1real {
            p_rat(1real)
        } else {
            p
        },
        None => p,
    }
}

/// The bytes a site moves per iteration of a loop, when its index is affine.
pub open spec fn site_stride(r: RecV, s: SiteV) -> Option<PolyV> {
    match s.aff {
        None => None,
        Some(a) => {
            let c = match r.var {
                Some(v) => match coeff(a.coeffs, v) {
                    Some(p) => p,
                    None => p_zero(),
                },
                None => p_zero(),
            };
            Some(p_scale(c, s.stride as real))
        },
    }
}

/// The lines of an alternative where the site stays on the same ones throughout the loop.
pub open spec fn same_set(r: RecV, run: RunV) -> PolyV {
    match r.atom {
        Some(a) => if p_mentions(run.lines, a as int) {
            rec_sum(r, run.lines)
        } else {
            run.lines
        },
        None => run.lines,
    }
}

/// The lines of a site over one full run of a loop, and whether they are contiguous.
pub open spec fn level_lines(k: Machine, r: RecV, s: SiteV, run: RunV, fits: bool) -> (PolyV, bool) {
    let summed = rec_sum(r, run.lines);
    match site_stride(r, s) {
        Some(st) => if !fits {
            (summed, false)
        } else if st == p_zero() {
            (same_set(r, run), run.contig)
        } else {
            match numeric(k, st) {
                None => (summed, false),
                Some(sb) => if abs_real(sb) >= k.b_bytes as real {
                    (summed, false)
                } else if run.contig {
                    (p_add(same_set(r, run), slide(k, r, sb)), true)
                } else {
                    (p_mul(same_set(r, run), slide(k, r, sb)), false)
                },
            }
        },
        None => (summed, false),
    }
}

pub open spec fn level_run(k: Machine, r: RecV, s: SiteV, run: RunV, o: OutcomeV) -> RunV {
    let (lines, contig) = level_lines(k, r, s, run, o.1);
    RunV { conds: o.0, lines, contig }
}

/// Every choice of one alternative per site, the first site's turning fastest.
pub open spec fn picks(inner: Seq<Seq<RunV>>) -> Seq<Seq<RunV>>
    decreases inner.len(),
{
    if inner.len() == 0 {
        seq![Seq::empty()]
    } else {
        picks_with(picks(inner.drop_last()), inner.last())
    }
}

pub open spec fn picks_with(p: Seq<Seq<RunV>>, last: Seq<RunV>) -> Seq<Seq<RunV>>
    decreases last.len(),
{
    if last.len() == 0 {
        Seq::empty()
    } else {
        picks_with(p, last.drop_last()) + Seq::new(p.len(), |i: int| p[i].push(last.last()))
    }
}

/// The alternatives for the `i`-th site of a level, from the first `n` choices.
pub open spec fn site_runs(k: Machine, r: RecV, s: SiteV, i: int, ps: Seq<Seq<RunV>>, n: nat) -> Seq<RunV>
    decreases n,
{
    if n == 0 {
        Seq::empty()
    } else {
        let p = ps[n - 1];
        let os = outcomes(k, r, p);
        with_all_new(
            site_runs(k, r, s, i, ps, (n - 1) as nat),
            Seq::new(os.len(), |j: int| level_run(k, r, s, p[i], os[j])),
        )
    }
}

/// The first `n` sites that sit in a loop.
pub open spec fn members(sites: Seq<SiteV>, id: int, n: nat) -> Seq<int>
    decreases n,
{
    if n == 0 {
        Seq::empty()
    } else {
        let before = members(sites, id, (n - 1) as nat);
        if sites[n - 1].path.contains(id as usize) {
            before.push(n - 1)
        } else {
            before
        }
    }
}

/// The alternatives of all sites after a level: those of its members are new.
pub open spec fn level(k: Machine, r: RecV, sites: Seq<SiteV>, ms: Seq<int>, now: Seq<Seq<RunV>>) -> Seq<Seq<RunV>> {
    let ps = picks(Seq::new(ms.len(), |i: int| now[ms[i]]));
    after_level(k, r, sites, ms, now, ps, ms.len())
}

pub open spec fn after_level(
    k: Machine,
    r: RecV,
    sites: Seq<SiteV>,
    ms: Seq<int>,
    now: Seq<Seq<RunV>>,
    ps: Seq<Seq<RunV>>,
    n: nat,
) -> Seq<Seq<RunV>>
    decreases n,
{
    if n == 0 {
        now
    } else {
        after_level(k, r, sites, ms, now, ps, (n - 1) as nat).update(
            ms[n - 1],
            site_runs(k, r, sites[ms[n - 1]], n - 1, ps, ps.len()),
        )
    }
}

/// The alternatives of all sites once the last `n` loops are settled, innermost first: a loop is
/// opened after the loops that hold it.
pub open spec fn settled_runs(k: Machine, sites: Seq<SiteV>, recs: Seq<RecV>, n: nat) -> Seq<Seq<RunV>>
    decreases n,
{
    if n == 0 || n > recs.len() {
        Seq::new(sites.len(), |s: int| seq![one_line()])
    } else {
        let id = recs.len() - n;
        let before = settled_runs(k, sites, recs, (n - 1) as nat);
        level(k, recs[id], sites, members(sites, id, sites.len()), before)
    }
}

pub open spec fn runs_cost(s: Seq<RunV>) -> Seq<PieceV> {
    c_prune(Seq::new(s.len(), |i: int| PieceV { conds: s[i].conds, poly: s[i].lines }))
}

/// The sites of the list that sit in no `if` deeper than `depth`, added up.
pub open spec fn flat_cost(sites: Seq<SiteV>, runs: Seq<Seq<RunV>>, list: Seq<int>, depth: int) -> Seq<PieceV>
    decreases list.len(),
{
    if list.len() == 0 {
        seq![zero_piece()]
    } else {
        let before = flat_cost(sites, runs, list.drop_last(), depth);
        if sites[list.last()].branch.len() == depth {
            c_add(before, runs_cost(runs[list.last()]))
        } else {
            before
        }
    }
}

/// The `if`s at a depth that hold sites of the list, in order.
pub open spec fn ifs_at(sites: Seq<SiteV>, list: Seq<int>, depth: int) -> Seq<usize>
    decreases list.len(),
{
    if list.len() == 0 {
        Seq::empty()
    } else {
        let before = ifs_at(sites, list.drop_last(), depth);
        let b = sites[list.last()].branch;
        if b.len() > depth {
            with_new(before, b[depth].0)
        } else {
            before
        }
    }
}

/// The sites of the list on one side of an `if`.
pub open spec fn on_side(sites: Seq<SiteV>, list: Seq<int>, depth: int, side: (usize, bool)) -> Seq<int>
    decreases list.len(),
{
    if list.len() == 0 {
        Seq::empty()
    } else {
        let before = on_side(sites, list.drop_last(), depth, side);
        let b = sites[list.last()].branch;
        if b.len() > depth && b[depth] == side {
            before.push(list.last())
        } else {
            before
        }
    }
}

/// The total: sites add up, except that sites on the two sides of an `if` are alternatives. No
/// site sits deeper than `depth + left`.
pub open spec fn grouped(sites: Seq<SiteV>, runs: Seq<Seq<RunV>>, list: Seq<int>, depth: int, left: nat) -> Seq<PieceV>
    decreases left, 1int, 0nat,
{
    let flat = flat_cost(sites, runs, list, depth);
    if left == 0 {
        flat
    } else {
        let ifs = ifs_at(sites, list, depth);
        with_ifs(sites, runs, list, depth, left, flat, ifs, ifs.len())
    }
}

pub open spec fn with_ifs(
    sites: Seq<SiteV>,
    runs: Seq<Seq<RunV>>,
    list: Seq<int>,
    depth: int,
    left: nat,
    flat: Seq<PieceV>,
    ifs: Seq<usize>,
    n: nat,
) -> Seq<PieceV>
    decreases left, 0int, n,
{
    if n == 0 || left == 0 {
        flat
    } else {
        let id = ifs[n - 1];
        c_add(
            with_ifs(sites, runs, list, depth, left, flat, ifs, (n - 1) as nat),
            c_max(
                grouped(sites, runs, on_side(sites, list, depth, (id, true)), depth + 1, (left - 1) as nat),
                grouped(sites, runs, on_side(sites, list, depth, (id, false)), depth + 1, (left - 1) as nat),
            ),
        )
    }
}

/// How deep in `if`s the first `n` sites sit.
pub open spec fn deepest(sites: Seq<SiteV>, n: nat) -> nat
    decreases n,
{
    if n == 0 {
        0
    } else {
        let before = deepest(sites, (n - 1) as nat);
        let b = sites[n - 1].branch.len();
        if b > before {
            b
        } else {
            before
        }
    }
}

pub open spec fn all_sites(n: nat) -> Seq<int> {
    Seq::new(n, |i: int| i)
}

/// The bytes that all sites move.
pub open spec fn site_moves(k: Machine, sites: Seq<SiteV>, recs: Seq<RecV>) -> Seq<PieceV> {
    let runs = settled_runs(k, sites, recs, recs.len());
    c_mul_poly(
        grouped(sites, runs, all_sites(sites.len()), 0, deepest(sites, sites.len())),
        p_atom(AtomV::B),
    )
}

// ---- the computation ----

pub open spec fn runs_v(s: Seq<Vec<Run>>) -> Seq<Seq<RunV>> {
    Seq::new(s.len(), |i: int| views(s[i]@))
}

pub open spec fn picks_v<'b>(s: Seq<Vec<&'b Run>>) -> Seq<Seq<RunV>> {
    Seq::new(s.len(), |i: int| views(s[i]@))
}

pub open spec fn outcomes_v(s: Seq<(Vec<Cond>, bool)>) -> Seq<OutcomeV> {
    Seq::new(s.len(), |i: int| (conds_v(s[i].0@), s[i].1))
}

#[verifier::loop_isolation(false)]
fn conds_of(p: &Vec<&Run>) -> (r: Vec<Cond>)
    ensures
        conds_v(r@) == pick_conds(views(p@)),
{
    let ghost v = views(p@);
    let mut out: Vec<Cond> = Vec::new();
    let mut i: usize = 0;
    proof {
        assert(v.take(0) =~= Seq::empty());
        assert(conds_v(out@) =~= Seq::empty());
    }
    while i < p.len()
        invariant
            i <= p@.len(),
            conds_v(out@) == pick_conds(v.take(i as int)),
        decreases p@.len() - i,
    {
        let run = p[i];
        let ghost cs = conds_v(run.conds@);
        let ghost before = conds_v(out@);
        let mut j: usize = 0;
        proof {
            assert(v.take(i + 1).drop_last() =~= v.take(i as int));
            assert(v.take(i + 1).last() == run@);
            assert(cs.take(0) =~= Seq::empty());
        }
        while j < run.conds.len()
            invariant
                j <= run.conds@.len(),
                conds_v(out@) == with_all_new(before, cs.take(j as int)),
            decreases run.conds@.len() - j,
        {
            let c = &run.conds[j];
            proof {
                assert(cs.take(j + 1).drop_last() =~= cs.take(j as int));
                assert(cs.take(j + 1).last() == c@);
            }
            if !has_cond(&out, c) {
                let d = c.copy();
                assert(conds_v(out@.push(d)) =~= conds_v(out@).push(d@));
                out.push(d);
            }
            j += 1;
        }
        assert(cs.take(j as int) =~= cs);
        i += 1;
    }
    assert(v.take(i as int) =~= v);
    out
}

#[verifier::loop_isolation(false)]
fn lines_of(p: &Vec<&Run>) -> (r: Poly)
    ensures
        r@ == pick_lines(views(p@)),
{
    let ghost v = views(p@);
    let mut acc = Poly::zero();
    let mut i: usize = 0;
    assert(v.take(0) =~= Seq::empty());
    while i < p.len()
        invariant
            i <= p@.len(),
            acc@ == pick_lines(v.take(i as int)),
        decreases p@.len() - i,
    {
        assert(v.take(i + 1).drop_last() =~= v.take(i as int));
        assert(v.take(i + 1).last() == p@[i as int]@);
        acc = acc.add(&p[i].lines);
        i += 1;
    }
    assert(v.take(i as int) =~= v);
    acc
}

fn have_sign(ws: &Poly, a: usize, positive: bool) -> (r: bool)
    ensures
        r == signs_agree(ws@.terms, AtomV::Var(a as int), positive),
{
    let atom = Atom::Var(a);
    proof {
        atom_view_is(atom);
    }
    let mut i: usize = 0;
    while i < ws.len()
        invariant
            i <= ws@.terms.len(),
            atom@ == AtomV::Var(a as int),
            forall|j: int|
                0 <= j < i && holds((#[trigger] ws@.terms[j]).0.factors, atom@) ==> if positive {
                    ws@.terms[j].1 >= 0real
                } else {
                    ws@.terms[j].1 <= 0real
                },
        decreases ws@.terms.len() - i,
    {
        if ws.mono_at(i).has_atom(&atom) {
            let c = ws.coeff_at(i);
            if (positive && c.is_negative()) || (!positive && c.is_positive()) {
                assert(holds(ws@.terms[i as int].0.factors, atom@));
                return false;
            }
        }
        i += 1;
    }
    true
}

fn tested_set(r: &LoopRec, ws: Poly) -> (out: Option<Poly>)
    ensures
        opt_poly(out) == tested(r@, ws@),
{
    match r.atom {
        Some(a) => {
            if ws.mentions(a) {
                if have_sign(&ws, a, true) {
                    Some(ws.subst(a, &r.last()))
                } else if have_sign(&ws, a, false) {
                    Some(ws.subst(a, &r.lo))
                } else {
                    None
                }
            } else {
                Some(ws)
            }
        },
        None => Some(ws),
    }
}

fn outcomes_of(k: &Machine, r: &LoopRec, p: &Vec<&Run>) -> (out: Vec<(Vec<Cond>, bool)>)
    requires
        k.ok(),
    ensures
        outcomes_v(out@) == outcomes(*k, r@, views(p@)),
{
    let conds = conds_of(p);
    let mut out: Vec<(Vec<Cond>, bool)> = Vec::new();
    let ghost cv = conds_v(conds@);
    if !feasible(&conds) {
        assert(outcomes_v(out@) =~= Seq::empty());
        return out;
    }
    match tested_set(r, lines_of(p)) {
        None => {
            out.push((conds, false));
            assert(outcomes_v(out@) =~= seq![(cv, false)]);
        },
        Some(t) => match value_of(k, &t) {
            Some(l) => {
                let fits = matches!(l.mul(&Rat::integer(k.b_bytes)).side(&Rat::integer(k.m_bytes)), Side::Before);
                out.push((conds, fits));
                assert(outcomes_v(out@) =~= seq![(cv, fits)]);
            },
            None => {
                let yes = with_cond(&conds, Cond { ws: t.copy(), fits: true });
                let no = with_cond(&conds, Cond { ws: t, fits: false });
                if feasible(&yes) {
                    out.push((yes, true));
                    assert(outcomes_v(out@) =~= fork_side(cv, t@, true));
                } else {
                    assert(outcomes_v(out@) =~= fork_side(cv, t@, true));
                }
                let ghost first = out@;
                if feasible(&no) {
                    out.push((no, false));
                    assert(outcomes_v(out@) =~= outcomes_v(first) + fork_side(cv, t@, false));
                } else {
                    assert(outcomes_v(out@) =~= outcomes_v(first) + fork_side(cv, t@, false));
                }
            },
        },
    }
    out
}

fn absolute(x: &Rat) -> (r: Rat)
    ensures
        r@ == abs_real(x@),
{
    if x.is_negative() {
        x.neg()
    } else {
        x.copy()
    }
}

pub fn floor_of(x: &Rat) -> (r: BigInt)
    requires
        x@ >= 0real,
    ensures
        r@ == whole_part(x@),
        r@ >= 0,
{
    let n = x.numer();
    let d = x.denom();
    proof {
        crate::cost::rat::ratio_side(num(x@), den(x@), 0, 1);
        crate::cost::rat::ratio_one(0);
    }
    let q = n.magnitude().div_rem(&d).0;
    BigInt::from_nat(q)
}

fn slide_of(k: &Machine, r: &LoopRec, s: &Rat) -> (out: Poly)
    requires
        k.ok(),
    ensures
        out@ == slide(*k, r@, s@),
{
    let n = floor_of(&absolute(s));
    let by = Rat::quotient(&n, &BigNat::from_u128(1));
    proof {
        crate::cost::rat::ratio_one(n@);
        atom_view_is(Atom::B);
    }
    let p = r.sum(&Poly::constant(1)).scale(&by).mul_atom_pow(Atom::B, &Rat::integer(-1));
    match value_of(k, &p) {
        Some(v) => {
            if matches!(v.side(&Rat::one()), Side::Before) {
                Poly::constant(1)
            } else {
                p
            }
        },
        None => p,
    }
}

fn stride_of(r: &LoopRec, s: &Site) -> (out: Option<Poly>)
    ensures
        opt_poly(out) == site_stride(r@, s@),
{
    match &s.aff {
        None => None,
        Some(a) => {
            let c = match r.var {
                Some(v) => match a.coeff(v) {
                    Some(p) => p.copy(),
                    None => Poly::zero(),
                },
                None => Poly::zero(),
            };
            Some(c.scale(&Rat::integer(s.stride)))
        },
    }
}

fn same_lines(r: &LoopRec, run: &Run) -> (out: Poly)
    ensures
        out@ == same_set(r@, run@),
{
    match r.atom {
        Some(a) => {
            if run.lines.mentions(a) {
                r.sum(&run.lines)
            } else {
                run.lines.copy()
            }
        },
        None => run.lines.copy(),
    }
}

fn run_at_level(k: &Machine, r: &LoopRec, s: &Site, run: &Run, o: &(Vec<Cond>, bool)) -> (out: Run)
    requires
        k.ok(),
    ensures
        out@ == level_run(*k, r@, s@, run@, (conds_v(o.0@), o.1)),
{
    let conds = copy_conds(&o.0);
    match stride_of(r, s) {
        Some(st) => {
            if !o.1 {
                Run { conds, lines: r.sum(&run.lines), contig: false }
            } else if st.is_zero() {
                Run { conds, lines: same_lines(r, run), contig: run.contig }
            } else {
                match value_of(k, &st) {
                    None => Run { conds, lines: r.sum(&run.lines), contig: false },
                    Some(sb) => {
                        if !matches!(absolute(&sb).side(&Rat::integer(k.b_bytes)), Side::Before) {
                            Run { conds, lines: r.sum(&run.lines), contig: false }
                        } else if run.contig {
                            Run { conds, lines: same_lines(r, run).add(&slide_of(k, r, &sb)), contig: true }
                        } else {
                            Run { conds, lines: same_lines(r, run).mul(&slide_of(k, r, &sb)), contig: false }
                        }
                    },
                }
            }
        },
        None => Run { conds, lines: r.sum(&run.lines), contig: false },
    }
}

fn same_conds(a: &Vec<Cond>, b: &Vec<Cond>) -> (r: bool)
    ensures
        r == (conds_v(a@) == conds_v(b@)),
{
    if a.len() != b.len() {
        assert(conds_v(a@).len() != conds_v(b@).len());
        return false;
    }
    let mut i: usize = 0;
    while i < a.len()
        invariant
            i <= a@.len(),
            a@.len() == b@.len(),
            forall|j: int| 0 <= j < i ==> #[trigger] conds_v(a@)[j] == conds_v(b@)[j],
        decreases a@.len() - i,
    {
        if !a[i].same(&b[i]) {
            assert(conds_v(a@)[i as int] != conds_v(b@)[i as int]);
            return false;
        }
        i += 1;
    }
    assert(conds_v(a@) =~= conds_v(b@));
    true
}

impl Run {
    fn same(&self, o: &Run) -> (r: bool)
        ensures
            r == (self@ == o@),
    {
        self.contig == o.contig && self.lines.same(&o.lines) && same_conds(&self.conds, &o.conds)
    }
}

fn push_new(out: &mut Vec<Run>, x: Run)
    ensures
        views(final(out)@) == with_new(views(old(out)@), x@),
{
    let ghost v = views(out@);
    let mut i: usize = 0;
    while i < out.len()
        invariant
            i <= out@.len(),
            v == views(out@),
            out@ == old(out)@,
            forall|j: int| 0 <= j < i ==> #[trigger] v[j] != x@,
        decreases out@.len() - i,
    {
        assert(v[i as int] == out@[i as int]@);
        if out[i].same(&x) {
            return;
        }
        i += 1;
    }
    assert(!v.contains(x@));
    assert(views(out@.push(x)) =~= v.push(x@));
    out.push(x);
}

fn extended<'b>(p: &Vec<&'b Run>, x: &'b Run) -> (r: Vec<&'b Run>)
    ensures
        views(r@) == views(p@).push(x@),
{
    let mut r: Vec<&'b Run> = Vec::new();
    let mut i: usize = 0;
    while i < p.len()
        invariant
            i <= p@.len(),
            r@.len() == i,
            forall|j: int| 0 <= j < i ==> #[trigger] r@[j] == p@[j],
        decreases p@.len() - i,
    {
        r.push(p[i]);
        i += 1;
    }
    r.push(x);
    assert(views(r@) =~= views(p@).push(x@));
    r
}

#[verifier::loop_isolation(false)]
fn picks_of<'b>(now: &'b Vec<Vec<Run>>, ms: &Vec<usize>) -> (r: Vec<Vec<&'b Run>>)
    requires
        forall|i: int| 0 <= i < ms@.len() ==> #[trigger] ms@[i] < now@.len(),
    ensures
        picks_v(r@) == picks(Seq::new(ms@.len(), |i: int| runs_v(now@)[ms@[i] as int])),
{
    let ghost inner = Seq::new(ms@.len(), |i: int| runs_v(now@)[ms@[i] as int]);
    let mut acc: Vec<Vec<&'b Run>> = Vec::new();
    acc.push(Vec::new());
    let mut i: usize = 0;
    proof {
        assert(inner.take(0) =~= Seq::empty());
        assert(views(acc@[0]@) =~= Seq::empty());
        assert(picks_v(acc@) =~= picks(inner.take(0)));
    }
    while i < ms.len()
        invariant
            i <= ms@.len(),
            picks_v(acc@) == picks(inner.take(i as int)),
        decreases ms@.len() - i,
    {
        let last = &now[ms[i]];
        let ghost lv = views(last@);
        let ghost before = picks_v(acc@);
        proof {
            assert(inner.take(i + 1).drop_last() =~= inner.take(i as int));
            assert(inner.take(i + 1).last() == lv);
            assert(lv.take(0) =~= Seq::empty());
        }
        let mut next: Vec<Vec<&'b Run>> = Vec::new();
        let mut j: usize = 0;
        assert(picks_v(next@) =~= Seq::empty());
        while j < last.len()
            invariant
                j <= last@.len(),
                picks_v(next@) == picks_with(before, lv.take(j as int)),
            decreases last@.len() - j,
        {
            let x = &last[j];
            let ghost start = picks_v(next@);
            let ghost added = Seq::new(before.len(), |n: int| before[n].push(x@));
            let mut n: usize = 0;
            assert(start + added.take(0) =~= start);
            while n < acc.len()
                invariant
                    n <= acc@.len(),
                    picks_v(next@) == start + added.take(n as int),
                decreases acc@.len() - n,
            {
                let p = extended(&acc[n], x);
                assert(before[n as int] == views(acc@[n as int]@));
                assert(picks_v(next@.push(p)) =~= picks_v(next@).push(views(p@)));
                assert(added.take(n + 1) =~= added.take(n as int).push(before[n as int].push(x@)));
                assert((start + added.take(n as int)).push(views(p@)) =~= start + added.take(n + 1));
                next.push(p);
                n += 1;
            }
            proof {
                assert(added.take(n as int) =~= added);
                assert(lv.take(j + 1).drop_last() =~= lv.take(j as int));
                assert(lv.take(j + 1).last() == x@);
            }
            j += 1;
        }
        assert(lv.take(j as int) =~= lv);
        acc = next;
        i += 1;
    }
    assert(inner.take(i as int) =~= inner);
    acc
}

proof fn picks_width(inner: Seq<Seq<RunV>>, i: int)
    requires
        0 <= i < picks(inner).len(),
    ensures
        picks(inner)[i].len() == inner.len(),
    decreases inner.len(), 1int,
{
    if inner.len() > 0 {
        let p = picks(inner.drop_last());
        assert forall|j: int| 0 <= j < p.len() implies (#[trigger] p[j]).len() == inner.len() - 1 by {
            picks_width(inner.drop_last(), j);
        }
        picks_with_width(p, inner.last(), (inner.len() - 1) as nat, i);
    }
}

proof fn picks_with_width(p: Seq<Seq<RunV>>, last: Seq<RunV>, w: nat, i: int)
    requires
        forall|j: int| 0 <= j < p.len() ==> (#[trigger] p[j]).len() == w,
        0 <= i < picks_with(p, last).len(),
    ensures
        picks_with(p, last)[i].len() == w + 1,
    decreases last.len(),
{
    let before = picks_with(p, last.drop_last());
    if i < before.len() {
        picks_with_width(p, last.drop_last(), w, i);
    }
}

#[verifier::loop_isolation(false)]
fn runs_of_site(k: &Machine, r: &LoopRec, s: &Site, i: usize, ps: &Vec<Vec<&Run>>, os: &Vec<Vec<(Vec<Cond>, bool)>>) -> (out: Vec<Run>)
    requires
        k.ok(),
        ps@.len() == os@.len(),
        forall|n: int| 0 <= n < ps@.len() ==> i < (#[trigger] ps@[n])@.len(),
        forall|n: int|
            0 <= n < os@.len() ==> outcomes_v((#[trigger] os@[n])@) == outcomes(*k, r@, views(ps@[n]@)),
    ensures
        views(out@) == site_runs(*k, r@, s@, i as int, picks_v(ps@), ps@.len()),
{
    let ghost pv = picks_v(ps@);
    let mut out: Vec<Run> = Vec::new();
    let mut n: usize = 0;
    assert(views(out@) =~= Seq::empty());
    while n < ps.len()
        invariant
            n <= ps@.len(),
            views(out@) == site_runs(*k, r@, s@, i as int, pv, n as nat),
        decreases ps@.len() - n,
    {
        let ghost p = pv[n as int];
        let ghost ov = outcomes(*k, r@, p);
        let ghost news = Seq::new(ov.len(), |j: int| level_run(*k, r@, s@, p[i as int], ov[j]));
        let ghost before = views(out@);
        assert(p == views(ps@[n as int]@));
        assert(outcomes_v(os@[n as int]@) == ov);
        let mut j: usize = 0;
        assert(news.take(0) =~= Seq::empty());
        while j < os[n].len()
            invariant
                j <= os@[n as int]@.len(),
                views(out@) == with_all_new(before, news.take(j as int)),
            decreases os@[n as int]@.len() - j,
        {
            assert(ov[j as int] == (conds_v(os@[n as int]@[j as int].0@), os@[n as int]@[j as int].1));
            assert(p[i as int] == ps@[n as int]@[i as int]@);
            assert(news.take(j + 1).drop_last() =~= news.take(j as int));
            assert(news.take(j + 1).last() == news[j as int]);
            let x = run_at_level(k, r, s, ps[n][i], &os[n][j]);
            push_new(&mut out, x);
            j += 1;
        }
        assert(news.take(j as int) =~= news);
        n += 1;
    }
    out
}

#[verifier::loop_isolation(false)]
fn members_of(sites: &Vec<Site>, id: usize) -> (r: Vec<usize>)
    ensures
        ints(r@) == members(views(sites@), id as int, sites@.len()),
        forall|i: int| 0 <= i < r@.len() ==> #[trigger] r@[i] < sites@.len(),
{
    let ghost v = views(sites@);
    let mut r: Vec<usize> = Vec::new();
    let mut i: usize = 0;
    assert(ints(r@) =~= Seq::empty());
    while i < sites.len()
        invariant
            i <= sites@.len(),
            ints(r@) == members(v, id as int, i as nat),
            forall|j: int| 0 <= j < r@.len() ==> #[trigger] r@[j] < sites@.len(),
        decreases sites@.len() - i,
    {
        assert(v[i as int] == sites@[i as int]@);
        if has_id(&sites[i].path, id) {
            assert(ints(r@.push(i)) =~= ints(r@).push(i as int));
            r.push(i);
        }
        i += 1;
    }
    r
}

#[verifier::loop_isolation(false)]
fn outcomes_of_all(k: &Machine, r: &LoopRec, ps: &Vec<Vec<&Run>>) -> (os: Vec<Vec<(Vec<Cond>, bool)>>)
    requires
        k.ok(),
    ensures
        os@.len() == ps@.len(),
        forall|n: int|
            0 <= n < os@.len() ==> outcomes_v((#[trigger] os@[n])@) == outcomes(*k, r@, views(ps@[n]@)),
{
    let mut os: Vec<Vec<(Vec<Cond>, bool)>> = Vec::new();
    let mut n: usize = 0;
    while n < ps.len()
        invariant
            n <= ps@.len(),
            os@.len() == n,
            forall|j: int| 0 <= j < n ==> outcomes_v((#[trigger] os@[j])@) == outcomes(*k, r@, views(ps@[j]@)),
        decreases ps@.len() - n,
    {
        let o = outcomes_of(k, r, &ps[n]);
        os.push(o);
        n += 1;
    }
    os
}

/// The new alternatives of a level's members.
#[verifier::loop_isolation(false)]
fn level_runs(k: &Machine, r: &LoopRec, sites: &Vec<Site>, ms: &Vec<usize>, now: &Vec<Vec<Run>>) -> (news: Vec<Vec<Run>>)
    requires
        k.ok(),
        now@.len() == sites@.len(),
        forall|i: int| 0 <= i < ms@.len() ==> #[trigger] ms@[i] < sites@.len(),
    ensures
        news@.len() == ms@.len(),
        ({
            let pv = picks(Seq::new(ints(ms@).len(), |i: int| runs_v(now@)[ints(ms@)[i]]));
            forall|j: int|
                0 <= j < news@.len() ==> views((#[trigger] news@[j])@) == site_runs(
                    *k,
                    r@,
                    views(sites@)[ints(ms@)[j]],
                    j,
                    pv,
                    pv.len(),
                )
        }),
{
    let ghost mi = ints(ms@);
    let ghost inner = Seq::new(mi.len(), |i: int| runs_v(now@)[mi[i]]);
    let ghost pv = picks(inner);
    let ps = picks_of(now, ms);
    assert(inner =~= Seq::new(ms@.len(), |i: int| runs_v(now@)[ms@[i] as int]));
    assert(picks_v(ps@) == pv);
    let os = outcomes_of_all(k, r, &ps);
    assert forall|j: int| 0 <= j < ps@.len() implies (#[trigger] ps@[j])@.len() == ms@.len() by {
        picks_width(inner, j);
        assert(pv[j] == views(ps@[j]@));
    }
    let mut news: Vec<Vec<Run>> = Vec::new();
    let mut i: usize = 0;
    while i < ms.len()
        invariant
            i <= ms@.len(),
            news@.len() == i,
            forall|j: int|
                0 <= j < i ==> views((#[trigger] news@[j])@) == site_runs(
                    *k,
                    r@,
                    views(sites@)[mi[j]],
                    j,
                    pv,
                    pv.len(),
                ),
        decreases ms@.len() - i,
    {
        assert(views(sites@)[mi[i as int]] == sites@[ms@[i as int] as int]@);
        let x = runs_of_site(k, r, &sites[ms[i]], i, &ps, &os);
        news.push(x);
        i += 1;
    }
    news
}

fn settle_level(k: &Machine, r: &LoopRec, sites: &Vec<Site>, ms: &Vec<usize>, now: &mut Vec<Vec<Run>>)
    requires
        k.ok(),
        old(now)@.len() == sites@.len(),
        forall|i: int| 0 <= i < ms@.len() ==> #[trigger] ms@[i] < sites@.len(),
    ensures
        final(now)@.len() == sites@.len(),
        runs_v(final(now)@) == level(*k, r@, views(sites@), ints(ms@), runs_v(old(now)@)),
{
    let ghost start = runs_v(now@);
    let ghost mi = ints(ms@);
    let ghost sv = views(sites@);
    let ghost pv = picks(Seq::new(mi.len(), |i: int| start[mi[i]]));
    let mut news = level_runs(k, r, sites, ms, now);
    let ghost nv = news@;
    let mut i: usize = 0;
    assert(nv.skip(0) =~= nv);
    while i < ms.len()
        invariant
            i <= ms@.len(),
            news@ == nv.skip(i as int),
            nv.len() == ms@.len(),
            mi == ints(ms@),
            now@.len() == sites@.len(),
            forall|n: int| 0 <= n < ms@.len() ==> #[trigger] ms@[n] < sites@.len(),
            forall|j: int|
                0 <= j < nv.len() ==> views((#[trigger] nv[j])@) == site_runs(*k, r@, sv[mi[j]], j, pv, pv.len()),
            runs_v(now@) == after_level(*k, r@, sv, mi, start, pv, i as nat),
        decreases ms@.len() - i,
    {
        let x = news.remove(0);
        assert(x == nv[i as int]);
        assert(news@ =~= nv.skip(i + 1));
        let m = ms[i];
        let ghost before = now@;
        let ghost xv = views(x@);
        now.set(m, x);
        assert(mi[i as int] == m);
        assert(runs_v(now@) =~= runs_v(before).update(m as int, xv));
        i += 1;
    }
}

/// The alternatives of all sites, once every loop is settled.
#[verifier::loop_isolation(false)]
fn settle_all(k: &Machine, sites: &Vec<Site>, recs: &Vec<LoopRec>) -> (r: Vec<Vec<Run>>)
    requires
        k.ok(),
    ensures
        r@.len() == sites@.len(),
        runs_v(r@) == settled_runs(*k, views(sites@), views(recs@), recs@.len()),
{
    let mut now: Vec<Vec<Run>> = Vec::new();
    let mut i: usize = 0;
    while i < sites.len()
        invariant
            i <= sites@.len(),
            now@.len() == i,
            forall|j: int| 0 <= j < i ==> views((#[trigger] now@[j])@) == seq![one_line()],
        decreases sites@.len() - i,
    {
        let mut one: Vec<Run> = Vec::new();
        let run = Run { conds: Vec::new(), lines: Poly::constant(1), contig: true };
        assert(run@ =~= one_line()) by {
            assert(conds_v(run.conds@) =~= Seq::empty());
        }
        one.push(run);
        assert(views(one@) =~= seq![one_line()]);
        now.push(one);
        i += 1;
    }
    assert(runs_v(now@) =~= Seq::new(sites@.len(), |s: int| seq![one_line()]));
    let mut n: usize = 0;
    while n < recs.len()
        invariant
            n <= recs@.len(),
            now@.len() == sites@.len(),
            runs_v(now@) == settled_runs(*k, views(sites@), views(recs@), n as nat),
        decreases recs@.len() - n,
    {
        let id = recs.len() - 1 - n;
        let ms = members_of(sites, id);
        assert(views(recs@)[id as int] == recs@[id as int]@);
        settle_level(k, &recs[id], sites, &ms, &mut now);
        n += 1;
    }
    now
}

fn cost_of_runs(s: &Vec<Run>) -> (r: Cost)
    ensures
        r@ == runs_cost(views(s@)),
{
    let mut pieces: Vec<Piece> = Vec::new();
    let mut i: usize = 0;
    while i < s.len()
        invariant
            i <= s@.len(),
            pieces@.len() == i,
            forall|j: int|
                0 <= j < i ==> (#[trigger] pieces@[j])@ == (PieceV { conds: s@[j]@.conds, poly: s@[j]@.lines }),
        decreases s@.len() - i,
    {
        pieces.push(Piece { conds: copy_conds(&s[i].conds), poly: s[i].lines.copy() });
        i += 1;
    }
    assert(pieces_v(pieces@) =~= Seq::new(
        views(s@).len(),
        |i: int| PieceV { conds: views(s@)[i].conds, poly: views(s@)[i].lines },
    ));
    Cost::from_pieces(pieces)
}

#[verifier::loop_isolation(false)]
fn flat_of(sites: &Vec<Site>, runs: &Vec<Vec<Run>>, list: &Vec<usize>, depth: usize) -> (r: Cost)
    requires
        runs@.len() == sites@.len(),
        forall|i: int| 0 <= i < list@.len() ==> #[trigger] list@[i] < sites@.len(),
    ensures
        r@ == flat_cost(views(sites@), runs_v(runs@), ints(list@), depth as int),
{
    let ghost v = ints(list@);
    let ghost sv = views(sites@);
    let mut total = Cost::zero();
    let mut i: usize = 0;
    assert(v.take(0) =~= Seq::empty());
    while i < list.len()
        invariant
            i <= list@.len(),
            total@ == flat_cost(sv, runs_v(runs@), v.take(i as int), depth as int),
        decreases list@.len() - i,
    {
        let s = list[i];
        assert(v.take(i + 1).drop_last() =~= v.take(i as int));
        assert(v.take(i + 1).last() == s);
        assert(sv[s as int] == sites@[s as int]@);
        assert(runs_v(runs@)[s as int] == views(runs@[s as int]@));
        if sites[s].branch.len() == depth {
            total = total.add(&cost_of_runs(&runs[s]));
        }
        i += 1;
    }
    assert(v.take(i as int) =~= v);
    total
}

#[verifier::loop_isolation(false)]
fn ifs_of(sites: &Vec<Site>, list: &Vec<usize>, depth: usize) -> (r: Vec<usize>)
    requires
        forall|i: int| 0 <= i < list@.len() ==> #[trigger] list@[i] < sites@.len(),
    ensures
        r@ == ifs_at(views(sites@), ints(list@), depth as int),
{
    let ghost v = ints(list@);
    let ghost sv = views(sites@);
    let mut r: Vec<usize> = Vec::new();
    let mut i: usize = 0;
    assert(v.take(0) =~= Seq::empty());
    while i < list.len()
        invariant
            i <= list@.len(),
            r@ == ifs_at(sv, v.take(i as int), depth as int),
        decreases list@.len() - i,
    {
        let s = list[i];
        assert(v.take(i + 1).drop_last() =~= v.take(i as int));
        assert(v.take(i + 1).last() == s);
        assert(sv[s as int] == sites@[s as int]@);
        if sites[s].branch.len() > depth {
            let id = sites[s].branch[depth].0;
            if !has_id(&r, id) {
                r.push(id);
            }
        }
        i += 1;
    }
    assert(v.take(i as int) =~= v);
    r
}

#[verifier::loop_isolation(false)]
fn side_of(sites: &Vec<Site>, list: &Vec<usize>, depth: usize, id: usize, yes: bool) -> (r: Vec<usize>)
    requires
        forall|i: int| 0 <= i < list@.len() ==> #[trigger] list@[i] < sites@.len(),
    ensures
        ints(r@) == on_side(views(sites@), ints(list@), depth as int, (id, yes)),
        forall|i: int| 0 <= i < r@.len() ==> #[trigger] r@[i] < sites@.len(),
{
    let ghost v = ints(list@);
    let ghost sv = views(sites@);
    let mut r: Vec<usize> = Vec::new();
    let mut i: usize = 0;
    assert(v.take(0) =~= Seq::empty());
    assert(ints(r@) =~= Seq::empty());
    while i < list.len()
        invariant
            i <= list@.len(),
            ints(r@) == on_side(sv, v.take(i as int), depth as int, (id, yes)),
            forall|j: int| 0 <= j < r@.len() ==> #[trigger] r@[j] < sites@.len(),
        decreases list@.len() - i,
    {
        let s = list[i];
        assert(v.take(i + 1).drop_last() =~= v.take(i as int));
        assert(v.take(i + 1).last() == s);
        assert(sv[s as int] == sites@[s as int]@);
        if sites[s].branch.len() > depth && sites[s].branch[depth].0 == id && sites[s].branch[depth].1 == yes {
            assert(ints(r@.push(s)) =~= ints(r@).push(s as int));
            r.push(s);
        }
        i += 1;
    }
    assert(v.take(i as int) =~= v);
    r
}

#[verifier::loop_isolation(false)]
fn group(sites: &Vec<Site>, runs: &Vec<Vec<Run>>, list: &Vec<usize>, depth: usize, left: usize) -> (r: Cost)
    requires
        runs@.len() == sites@.len(),
        depth + left <= usize::MAX,
        forall|i: int| 0 <= i < list@.len() ==> #[trigger] list@[i] < sites@.len(),
    ensures
        r@ == grouped(views(sites@), runs_v(runs@), ints(list@), depth as int, left as nat),
    decreases left,
{
    let ghost sv = views(sites@);
    let ghost rv = runs_v(runs@);
    let ghost lv = ints(list@);
    let mut total = flat_of(sites, runs, list, depth);
    if left == 0 {
        return total;
    }
    let ghost flat = total@;
    let ifs = ifs_of(sites, list, depth);
    let mut n: usize = 0;
    while n < ifs.len()
        invariant
            n <= ifs@.len(),
            total@ == with_ifs(sv, rv, lv, depth as int, left as nat, flat, ifs@, n as nat),
        decreases ifs@.len() - n,
    {
        let id = ifs[n];
        let t = side_of(sites, list, depth, id, true);
        let e = side_of(sites, list, depth, id, false);
        let ct = group(sites, runs, &t, depth + 1, left - 1);
        let ce = group(sites, runs, &e, depth + 1, left - 1);
        total = total.add(&ct.max(&ce));
        n += 1;
    }
    total
}

fn depth_of(sites: &Vec<Site>) -> (r: usize)
    ensures
        r == deepest(views(sites@), sites@.len()),
{
    let ghost v = views(sites@);
    let mut r: usize = 0;
    let mut i: usize = 0;
    while i < sites.len()
        invariant
            i <= sites@.len(),
            v == views(sites@),
            r == deepest(v, i as nat),
        decreases sites@.len() - i,
    {
        assert(v[i as int] == sites@[i as int]@);
        if sites[i].branch.len() > r {
            r = sites[i].branch.len();
        }
        i += 1;
    }
    r
}

/// The bytes that all sites move.
#[verifier::loop_isolation(false)]
pub fn settle_moves(k: &Machine, sites: &Vec<Site>, recs: &Vec<LoopRec>) -> (r: Cost)
    requires
        k.ok(),
    ensures
        r@ == site_moves(*k, views(sites@), views(recs@)),
{
    let runs = settle_all(k, sites, recs);
    let mut all: Vec<usize> = Vec::new();
    let mut i: usize = 0;
    while i < sites.len()
        invariant
            i <= sites@.len(),
            all@.len() == i,
            forall|j: int| 0 <= j < i ==> #[trigger] all@[j] == j,
        decreases sites@.len() - i,
    {
        all.push(i);
        i += 1;
    }
    assert(ints(all@) =~= all_sites(sites@.len()));
    proof {
        atom_view_is(Atom::B);
    }
    group(sites, &runs, &all, 0, depth_of(sites)).mul_poly(&Poly::atom(Atom::B))
}

} // verus!
