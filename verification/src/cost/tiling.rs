//! Choosing the tile side from the model.
//!
//! The tiled program is analysed with its side `T` as a size variable; its moves come out
//! piecewise in `T`, each piece under fit conditions some of which bound `T` from above
//! (`32·T² < M`: every tile fits). In a piece whose moves fall as `T` grows — every power of `T`
//! non-positive — the best side is the largest the conditions allow, so each such condition is
//! solved for `T` at its boundary and substituted; the other conditions of the piece, substituted
//! too, must stay feasible and hold at the reference point.
//!
//! - The boundary is taken at half the cache. A fit the ideal cache decides at `M` is not one the
//!   machine honours; a fit decided at `M/2` is what an LRU cache of `M` can be relied on for
//!   (Sleator–Tarjan).
//! - Among candidates the model cannot tell apart (within five percent at the reference point)
//!   the smaller side wins.
//!
//! The integer recommended is the largest for which the working set, edge lines included, is
//! strictly below `M/2`.

use vstd::prelude::*;
use crate::cost::algebra::{p_atom, p_mul, p_scale, p_term};
use crate::cost::assoc::{bump, erase, holds, value};
use crate::cost::footprint::{param_place, place_of_param};
use crate::cost::forms::{opt_real, p_inv, p_root, p_subst_any};
use crate::cost::machine::Machine;
use crate::cost::model::{AtomV, MonoV, PolyV};
use crate::cost::piece::{conds_v, feasible, s_feasible, Cond, CondV, Cost, Piece, PieceV};
use crate::cost::point::{conds_hold, sum_at, Point, PointV};
use crate::cost::rat::{num, ratio, ratio_one, whole, Rat};
use crate::cost::rules::{pruned, s_run};
use crate::cost::rewrite::{s_tile_sym, tile_sym};
use crate::cost::scope::{remembers, Cx, CxV, Memo, MemoV};
use crate::cost::settle::{floor_of, whole_part};
use crate::cost::show::{poly_text, show_poly};
use crate::cost::signature::{CostResult, ResultV};
use crate::cost::size::{atom_view_is, Atom, Poly};
use crate::cost::track::ready;
use crate::cost::walk::run;
use crate::num::Side;
use crate::text::{cat4, texts};

verus! {

/// The tile side the model prefers, and the tiled cost at it.
#[derive(Debug)]
pub struct TileChoice {
    /// the side as an expression in `M` (and the sizes), e.g. `√(M/24)`
    pub side: String,
    /// the largest integer below it at this machine
    pub t: i64,
    pub work: Cost,
    pub moves: Cost,
}

pub struct ChoiceV {
    pub side: Seq<char>,
    pub t: int,
    pub work: Seq<PieceV>,
    pub moves: Seq<PieceV>,
}

impl View for TileChoice {
    type V = ChoiceV;

    open spec fn view(&self) -> ChoiceV {
        ChoiceV { side: self.side@, t: self.t as int, work: self.work@, moves: self.moves@ }
    }
}

/// The reference point: this machine, every size a million — tiling is for large sizes — and the
/// side as given.
pub open spec fn large(t: int, side: Option<real>) -> PointV {
    PointV { sizes: seq![(t as usize, side)], rest: Some(1000000real) }
}

/// The terms have the variable, and every power of it is not positive.
pub open spec fn falls_in(p: PolyV, v: int) -> bool {
    &&& exists|i: int| 0 <= i < p.terms.len() && holds((#[trigger] p.terms[i]).0.factors, AtomV::Var(v))
    &&& forall|i: int|
        0 <= i < p.terms.len() ==> value((#[trigger] p.terms[i]).0.factors, AtomV::Var(v)) <= 0real
}

/// Of the first `n` terms the one with the highest power of the variable, the last of equals.
pub open spec fn top_term(t: Seq<(MonoV, real)>, v: int, n: nat) -> Option<int>
    decreases n,
{
    if n == 0 {
        None
    } else {
        let before = top_term(t, v, (n - 1) as nat);
        let a = AtomV::Var(v);
        if !holds(t[n - 1].0.factors, a) {
            before
        } else {
            match before {
                Some(i) => if value(t[n - 1].0.factors, a) >= value(t[i].0.factors, a) {
                    Some(n - 1)
                } else {
                    before
                },
                None => Some(n - 1),
            }
        }
    }
}

/// The largest power of the variable in any term that has it.
pub open spec fn power_in(p: PolyV, v: int) -> real {
    match top_term(p.terms, v, p.terms.len()) {
        Some(i) => value(p.terms[i].0.factors, AtomV::Var(v)),
        None => 0real,
    }
}

/// A regime that keeps part of a level resident — one tile in cache while the others stream — is
/// one the ideal cache computes and an LRU machine does not deliver. Two working sets of the same
/// degree in `T` belong to the same level, so if one of them does not fit, the side is a partial
/// fit and is not recommended.
pub open spec fn partial_fit(s: Seq<CondV>, v: int, k: real) -> bool {
    exists|i: int| 0 <= i < s.len() && !(#[trigger] s[i]).fits && power_in(s[i].ws, v) == k
}

/// `p` times `B`.
pub open spec fn in_bytes(p: PolyV) -> PolyV {
    p_mul(p, p_term((MonoV { factors: bump(Seq::empty(), AtomV::B, 1real) }), 1real))
}

/// The side at the boundary: `c·rest·T^k = M/2`, so `T = (M / (2·c·rest))^(1/k)`. The term of the
/// working set that grows fastest in `T` sets it; the rest are edge lines.
pub open spec fn boundary(bytes: PolyV, v: int) -> Option<(PolyV, real)> {
    match top_term(bytes.terms, v, bytes.terms.len()) {
        None => None,
        Some(i) => {
            let (m, c) = bytes.terms[i];
            let k = value(m.factors, AtomV::Var(v));
            if !whole(k) || k <= 0real || num(k) > u64::MAX {
                None
            } else {
                let rest = p_term(MonoV { factors: erase(m.factors, AtomV::Var(v)) }, c);
                match p_inv(rest) {
                    None => None,
                    Some(inv) => match p_root(p_mul(p_scale(p_atom(AtomV::M), 1real / 2real), inv), num(k)) {
                        Some(side) => if side.terms.len() == 1 && side.terms[0].1 > 0real {
                            Some((side, k))
                        } else {
                            None
                        },
                        None => None,
                    },
                }
            }
        },
    }
}

pub open spec fn cond_at_side(c: CondV, v: int, side: PolyV) -> CondV {
    CondV { ws: p_subst_any(c.ws, v, side), fits: c.fits }
}

pub open spec fn conds_at_side(s: Seq<CondV>, v: int, side: PolyV) -> Seq<CondV> {
    Seq::new(s.len(), |i: int| cond_at_side(s[i], v, side))
}

/// A side, the working set it comes from, and the piece at it.
pub struct CandidateV {
    pub side: PolyV,
    pub bytes: PolyV,
    pub piece: PieceV,
}

/// The side that the `ci`-th condition of a piece allows.
pub open spec fn candidate(k: Machine, p: PieceV, v: int, ci: int) -> Option<CandidateV> {
    let bytes = in_bytes(p.conds[ci].ws);
    match boundary(bytes, v) {
        None => None,
        Some((side, d)) => {
            let conds = conds_at_side(p.conds.remove(ci), v, side);
            if !p.conds[ci].fits || partial_fit(p.conds, v, d) || !s_feasible(conds) || !conds_hold(
                conds,
                k,
                large(v, None),
            ) {
                None
            } else {
                Some(CandidateV { side, bytes, piece: PieceV { conds, poly: p_subst_any(p.poly, v, side) } })
            }
        },
    }
}

/// One value below another, where none is beyond all.
pub open spec fn below(a: Option<real>, b: Option<real>) -> bool {
    match (a, b) {
        (Some(x), Some(y)) => x < y,
        (Some(_), None) => true,
        _ => false,
    }
}

pub open spec fn scaled(a: Option<real>, c: real) -> Option<real> {
    match a {
        Some(x) => Some(x * c),
        None => None,
    }
}

/// The first side is preferred: it moves less by five percent, or is within five percent and
/// smaller.
pub open spec fn preferred(k: Machine, v: int, a: CandidateV, b: CandidateV) -> bool {
    let x = large(v, None);
    let (sa, sb) = (sum_at(a.piece.poly.terms, k, x), sum_at(b.piece.poly.terms, k, x));
    let (ta, tb) = (sum_at(a.side.terms, k, x), sum_at(b.side.terms, k, x));
    below(sa, scaled(sb, 95real / 100real)) || (!below(scaled(sb, 105real / 100real), sa) && below(ta, tb))
}

pub open spec fn keep_candidate(k: Machine, v: int, best: Option<CandidateV>, c: Option<CandidateV>) -> Option<CandidateV> {
    match (best, c) {
        (None, _) => c,
        (Some(b), Some(x)) => if preferred(k, v, x, b) {
            c
        } else {
            best
        },
        _ => best,
    }
}

/// The best side of the first `n` conditions of a piece, after `best`.
pub open spec fn best_of_piece(k: Machine, v: int, p: PieceV, best: Option<CandidateV>, n: nat) -> Option<CandidateV>
    decreases n,
{
    if n == 0 {
        best
    } else {
        keep_candidate(k, v, best_of_piece(k, v, p, best, (n - 1) as nat), candidate(k, p, v, n - 1))
    }
}

/// The best side of the first `n` pieces.
pub open spec fn best_side(k: Machine, v: int, s: Seq<PieceV>, n: nat) -> Option<CandidateV>
    decreases n,
{
    if n == 0 {
        None
    } else {
        let best = best_side(k, v, s, (n - 1) as nat);
        if falls_in(s[n - 1].poly, v) {
            best_of_piece(k, v, s[n - 1], best, s[n - 1].conds.len())
        } else {
            best
        }
    }
}

/// The working set at a side is half the cache or more.
pub open spec fn too_wide(k: Machine, bytes: PolyV, v: int, t: int) -> bool {
    match sum_at(bytes.terms, k, large(v, Some(t as real))) {
        Some(b) => b >= (k.m_bytes as real) / 2real,
        None => false,
    }
}

/// The largest side up to `t` that is not too wide.
pub open spec fn fitting(k: Machine, bytes: PolyV, v: int, t: int) -> int
    decreases t,
{
    if t >= 2 && too_wide(k, bytes, v, t) {
        fitting(k, bytes, v, t - 1)
    } else {
        t
    }
}

/// The largest integer below the side's value that is not too wide.
pub open spec fn whole_side(k: Machine, bytes: PolyV, v: int, at: real) -> int {
    let n = whole_part(at);
    let t = fitting(
        k,
        bytes,
        v,
        if n > i64::MAX {
            i64::MAX as int
        } else {
            n
        },
    );
    if t as real >= at {
        t - 1
    } else {
        t
    }
}

pub open spec fn piece_at_side(p: PieceV, v: int, side: PolyV) -> PieceV {
    PieceV { conds: conds_at_side(p.conds, v, side), poly: p_subst_any(p.poly, v, side) }
}

/// The choice from the tiled function's cost.
#[verifier::opaque]
pub open spec fn chosen(k: Machine, v: int, names: Seq<Seq<char>>, work: Seq<PieceV>, moves: Seq<PieceV>) -> Option<ChoiceV> {
    match best_side(k, v, moves, moves.len()) {
        None => None,
        Some(c) => match sum_at(c.side.terms, k, large(v, None)) {
            None => None,
            Some(at) => {
                let t = whole_side(k, c.bytes, v, at);
                if at < 0real || t < 2 {
                    None
                } else {
                    Some(
                        ChoiceV {
                            side: poly_text(c.side, names) + " (at M/2"@ + (if c.bytes.terms.len() > 1 {
                                ", leading term"@
                            } else {
                                ""@
                            }) + ")"@,
                            t,
                            work: pruned(k, Seq::new(work.len(), |i: int| piece_at_side(work[i], v, c.side))),
                            moves: pruned(k, seq![c.piece]),
                        },
                    )
                }
            },
        },
    }
}

/// The tile side for the function of `cx`, and the functions analysed on the way.
#[verifier::opaque]
pub open spec fn tile_choice(cx: CxV, memo: MemoV) -> (MemoV, Option<ChoiceV>) {
    match s_tile_sym(cx.f) {
        None => (memo, None),
        Some((g, tv)) => match param_place(g.params, tv, 0) {
            None => (memo, None),
            Some(v) => {
                let (after, c) = s_run(CxV { f: g, own: None, ..cx }, memo);
                match c.result {
                    ResultV::Exact { work, moves } => (after, chosen(cx.k, v as int, c.names, work, moves)),
                    ResultV::Unknown { reason, line } => (after, None),
                }
            },
        },
    }
}

// ---- the computation ----

fn large_point(v: usize, side: Option<Rat>) -> (r: Point)
    ensures
        r@ == large(v as int, opt_real(side)),
{
    let mut sizes: Vec<(usize, Option<Rat>)> = Vec::new();
    let ghost sv = opt_real(side);
    sizes.push((v, side));
    let r = Point { sizes, rest: Some(Rat::integer(1_000_000)) };
    assert(r@.sizes =~= seq![(v, sv)]);
    r
}

#[verifier::loop_isolation(false)]
fn falls(p: &Poly, v: usize) -> (r: bool)
    ensures
        r == falls_in(p@, v as int),
{
    let a = Atom::Var(v);
    proof {
        atom_view_is(a);
    }
    let mut found = false;
    let mut i: usize = 0;
    while i < p.len()
        invariant
            i <= p@.terms.len(),
            found == (exists|j: int| 0 <= j < i && holds((#[trigger] p@.terms[j]).0.factors, a@)),
            forall|j: int| 0 <= j < i ==> value((#[trigger] p@.terms[j]).0.factors, a@) <= 0real,
        decreases p@.terms.len() - i,
    {
        let m = p.mono_at(i);
        if m.exponent(&a).is_positive() {
            assert(!(value(p@.terms[i as int].0.factors, a@) <= 0real));
            return false;
        }
        if m.has_atom(&a) {
            assert(holds(p@.terms[i as int].0.factors, a@));
            found = true;
        }
        i += 1;
    }
    found
}

#[verifier::loop_isolation(false)]
fn find_top(p: &Poly, v: usize) -> (r: Option<usize>)
    ensures
        match r {
            Some(i) => top_term(p@.terms, v as int, p@.terms.len()) == Some(i as int) && i < p@.terms.len(),
            None => top_term(p@.terms, v as int, p@.terms.len()) is None,
        },
{
    let a = Atom::Var(v);
    proof {
        atom_view_is(a);
    }
    let ghost t = p@.terms;
    let mut best: Option<usize> = None;
    let mut n: usize = 0;
    while n < p.len()
        invariant
            n <= t.len(),
            match best {
                Some(i) => top_term(t, v as int, n as nat) == Some(i as int) && i < n,
                None => top_term(t, v as int, n as nat) is None,
            },
        decreases t.len() - n,
    {
        let m = p.mono_at(n);
        if m.has_atom(&a) {
            match best {
                Some(i) => {
                    if m.exponent(&a).side(&p.mono_at(i).exponent(&a)) != Side::Before {
                        best = Some(n);
                    }
                },
                None => {
                    best = Some(n);
                },
            }
        }
        n += 1;
    }
    best
}

fn top_power(p: &Poly, v: usize) -> (r: Rat)
    ensures
        r@ == power_in(p@, v as int),
{
    proof {
        atom_view_is(Atom::Var(v));
    }
    match find_top(p, v) {
        Some(i) => p.mono_at(i).exponent(&Atom::Var(v)),
        None => Rat::zero(),
    }
}

fn is_partial(s: &Vec<Cond>, v: usize, k: &Rat) -> (r: bool)
    ensures
        r == partial_fit(conds_v(s@), v as int, k@),
{
    let ghost cv = conds_v(s@);
    let mut i: usize = 0;
    while i < s.len()
        invariant
            i <= s@.len(),
            cv == conds_v(s@),
            forall|j: int| 0 <= j < i ==> !(!(#[trigger] cv[j]).fits && power_in(cv[j].ws, v as int) == k@),
        decreases s@.len() - i,
    {
        assert(cv[i as int] == s@[i as int]@);
        if !s[i].fits && top_power(&s[i].ws, v).same(k) {
            return true;
        }
        i += 1;
    }
    false
}

fn boundary_of(bytes: &Poly, v: usize) -> (r: Option<(Poly, Rat)>)
    ensures
        (match r {
            Some(x) => Some((x.0@, x.1@)),
            None => None,
        }) == boundary(bytes@, v as int),
        r is Some ==> (r->0).0@.terms.len() == 1 && (r->0).0@.terms[0].1 > 0real,
{
    let a = Atom::Var(v);
    proof {
        atom_view_is(a);
        atom_view_is(Atom::M);
    }
    match find_top(bytes, v) {
        None => None,
        Some(i) => {
            let m = bytes.mono_at(i);
            let k = m.exponent(&a);
            if !k.is_int() || !k.is_positive() {
                return None;
            }
            proof {
                let n = choose|n: int| k@ == #[trigger] ratio(n, 1);
                ratio_one(n);
                crate::cost::rat::whole_parts(n);
            }
            let d: i128 = match k.numer().to_u64() {
                Some(n) => n as i128,
                None => {
                    return None;
                },
            };
            let rest = Poly::term(m.copy().without(&a), bytes.coeff_at(i).copy());
            let half = Poly::atom(Atom::M).scale(&Rat::one().over(&Rat::integer(2)));
            assert(bytes@.terms[i as int].0.factors == m@.factors);
            match rest.inv_mono() {
                None => None,
                Some(inv) => match half.mul(&inv).root_mono(d) {
                    Some(side) => {
                        if side.len() == 1 && side.coeff_at(0).is_positive() {
                            Some((side, k))
                        } else {
                            None
                        }
                    },
                    None => None,
                },
            }
        },
    }
}

fn conds_with_side(s: &Vec<Cond>, v: usize, side: &Poly, skip: Option<usize>) -> (r: Vec<Cond>)
    requires
        side@.terms.len() == 1 && side@.terms[0].1 > 0real,
        skip is Some ==> skip->0 < s@.len(),
    ensures
        conds_v(r@) == conds_at_side(
            match skip {
                Some(i) => conds_v(s@).remove(i as int),
                None => conds_v(s@),
            },
            v as int,
            side@,
        ),
{
    let ghost cv = conds_v(s@);
    let ghost goal = conds_at_side(
        match skip {
            Some(i) => cv.remove(i as int),
            None => cv,
        },
        v as int,
        side@,
    );
    let mut r: Vec<Cond> = Vec::new();
    let mut i: usize = 0;
    while i < s.len()
        invariant
            i <= s@.len(),
            cv == conds_v(s@),
            side@.terms.len() == 1 && side@.terms[0].1 > 0real,
            skip is Some ==> skip->0 < s@.len(),
            goal == conds_at_side(
                match skip {
                    Some(i) => cv.remove(i as int),
                    None => cv,
                },
                v as int,
                side@,
            ),
            r@.len() == i - (if skip is Some && skip->0 < i { 1int } else { 0 }),
            r@.len() <= goal.len(),
            forall|j: int| 0 <= j < r@.len() ==> (#[trigger] r@[j])@ == goal[j],
        decreases s@.len() - i,
    {
        let here = match skip {
            Some(n) => n == i,
            None => false,
        };
        if !here {
            assert(cv[i as int] == s@[i as int]@);
            let c = Cond { ws: s[i].ws.subst_pow(v, side), fits: s[i].fits };
            assert(c@ == cond_at_side(cv[i as int], v as int, side@));
            let ghost n = r@.len() as int;
            r.push(c);
            assert(goal[n] == c@);
        }
        i += 1;
    }
    assert(conds_v(r@) =~= goal);
    r
}

/// A side, the working set it comes from, and the piece at it.
struct Candidate {
    side: Poly,
    bytes: Poly,
    piece: Piece,
}

impl Candidate {
    spec fn v(self) -> CandidateV {
        CandidateV { side: self.side@, bytes: self.bytes@, piece: self.piece@ }
    }
}

spec fn opt_candidate(x: Option<Candidate>) -> Option<CandidateV> {
    match x {
        Some(c) => Some(c.v()),
        None => None,
    }
}

fn candidate_of(k: &Machine, p: &Piece, v: usize, ci: usize) -> (r: Option<Candidate>)
    requires
        k.ok(),
        ci < p.conds@.len(),
    ensures
        opt_candidate(r) == candidate(*k, p@, v as int, ci as int),
        r is Some ==> (r->0).side@.terms.len() == 1 && (r->0).side@.terms[0].1 > 0real,
{
    proof {
        atom_view_is(Atom::B);
    }
    assert(p@.conds[ci as int] == p.conds@[ci as int]@);
    let bytes = p.conds[ci].ws.mul_atom_pow(Atom::B, &Rat::one());
    match boundary_of(&bytes, v) {
        None => None,
        Some((side, d)) => {
            if !p.conds[ci].fits || is_partial(&p.conds, v, &d) {
                return None;
            }
            let conds = conds_with_side(&p.conds, v, &side, Some(ci));
            if !feasible(&conds) || !large_point(v, None).all_hold(&conds, k) {
                return None;
            }
            let poly = p.poly.subst_pow(v, &side);
            Some(Candidate { side, bytes, piece: Piece { conds, poly } })
        },
    }
}

fn is_below(a: &Option<Rat>, b: &Option<Rat>) -> (r: bool)
    ensures
        r == below(opt_real(*a), opt_real(*b)),
{
    match (a, b) {
        (Some(x), Some(y)) => x.side(y) == Side::Before,
        (Some(_), None) => true,
        _ => false,
    }
}

fn scale_by(a: &Option<Rat>, c: &Rat) -> (r: Option<Rat>)
    ensures
        opt_real(r) == scaled(opt_real(*a), c@),
{
    match a {
        Some(x) => Some(x.mul(c)),
        None => None,
    }
}

fn is_preferred(k: &Machine, v: usize, a: &Candidate, b: &Candidate) -> (r: bool)
    requires
        k.ok(),
    ensures
        r == preferred(*k, v as int, a.v(), b.v()),
{
    let x = large_point(v, None);
    let sa = x.value(&a.piece.poly, k);
    let sb = x.value(&b.piece.poly, k);
    let hundred = Rat::integer(100);
    let less = Rat::integer(95).over(&hundred);
    let more = Rat::integer(105).over(&hundred);
    is_below(&sa, &scale_by(&sb, &less)) || (!is_below(&scale_by(&sb, &more), &sa) && is_below(
        &x.value(&a.side, k),
        &x.value(&b.side, k),
    ))
}

spec fn usable(x: Option<Candidate>) -> bool {
    x is Some ==> (x->0).side@.terms.len() == 1 && (x->0).side@.terms[0].1 > 0real
}

#[verifier::loop_isolation(false)]
fn find_side(k: &Machine, v: usize, s: &Cost) -> (r: Option<Candidate>)
    requires
        k.ok(),
    ensures
        opt_candidate(r) == best_side(*k, v as int, s@, s@.len()),
        usable(r),
{
    let ghost sv = s@;
    let mut best: Option<Candidate> = None;
    let mut n: usize = 0;
    while n < s.pieces.len()
        invariant
            n <= s.pieces@.len(),
            opt_candidate(best) == best_side(*k, v as int, sv, n as nat),
            usable(best),
        decreases s.pieces@.len() - n,
    {
        let p = &s.pieces[n];
        assert(sv[n as int] == p@);
        if falls(&p.poly, v) {
            let ghost start = opt_candidate(best);
            let mut i: usize = 0;
            while i < p.conds.len()
                invariant
                    i <= p.conds@.len(),
                    opt_candidate(best) == best_of_piece(*k, v as int, p@, start, i as nat),
                    usable(best),
                decreases p.conds@.len() - i,
            {
                match candidate_of(k, p, v, i) {
                    Some(c) => {
                        let better = match &best {
                            Some(b) => is_preferred(k, v, &c, b),
                            None => true,
                        };
                        if better {
                            best = Some(c);
                        }
                    },
                    None => {},
                }
                i += 1;
            }
        }
        n += 1;
    }
    best
}

fn is_wide(k: &Machine, bytes: &Poly, v: usize, t: i64) -> (r: bool)
    requires
        k.ok(),
    ensures
        r == too_wide(*k, bytes@, v as int, t as int),
{
    match large_point(v, Some(Rat::integer(t as i128))).value(bytes, k) {
        Some(b) => b.side(&Rat::integer(k.m_bytes).over(&Rat::integer(2))) != Side::Before,
        None => false,
    }
}

fn side_below(k: &Machine, bytes: &Poly, v: usize, at: &Rat) -> (r: i64)
    requires
        k.ok(),
        at@ >= 0real,
    ensures
        r == whole_side(*k, bytes@, v as int, at@),
{
    let n = floor_of(at);
    let mut t: i64 = match n.to_u64() {
        Some(x) => {
            if x > i64::MAX as u64 {
                i64::MAX
            } else {
                x as i64
            }
        },
        None => i64::MAX,
    };
    let ghost goal = fitting(*k, bytes@, v as int, t as int);
    while t >= 2 && is_wide(k, bytes, v, t)
        invariant
            k.ok(),
            t >= 0,
            goal == fitting(*k, bytes@, v as int, t as int),
        decreases t,
    {
        t -= 1;
    }
    if Rat::integer(t as i128).side(at) != Side::Before {
        t - 1
    } else {
        t
    }
}

fn cost_with_side(s: &Cost, v: usize, side: &Poly, k: &Machine) -> (r: Cost)
    requires
        k.ok(),
        side@.terms.len() == 1 && side@.terms[0].1 > 0real,
    ensures
        r@ == pruned(*k, Seq::new(s@.len(), |i: int| piece_at_side(s@[i], v as int, side@))),
{
    let ghost sv = s@;
    let mut pieces: Vec<Piece> = Vec::new();
    let mut i: usize = 0;
    while i < s.pieces.len()
        invariant
            i <= s.pieces@.len(),
            sv == s@,
            side@.terms.len() == 1 && side@.terms[0].1 > 0real,
            pieces@.len() == i,
            forall|j: int| 0 <= j < i ==> (#[trigger] pieces@[j])@ == piece_at_side(sv[j], v as int, side@),
        decreases s.pieces@.len() - i,
    {
        let p = &s.pieces[i];
        assert(sv[i as int] == p@);
        let x = Piece { conds: conds_with_side(&p.conds, v, side, None), poly: p.poly.subst_pow(v, side) };
        pieces.push(x);
        i += 1;
    }
    let mut r = Cost { pieces };
    assert(r@ =~= Seq::new(sv.len(), |i: int| piece_at_side(sv[i], v as int, side@)));
    r.prune_at(k);
    r
}

fn choose_side(k: &Machine, v: usize, names: &Vec<String>, work: &Cost, moves: &Cost) -> (r: Option<TileChoice>)
    requires
        k.ok(),
    ensures
        (match r {
            Some(c) => Some(c@),
            None => None,
        }) == chosen(*k, v as int, texts(names@), work@, moves@),
        r is Some ==> r->0.t >= 2,
{
    proof {
        reveal(chosen);
    }
    match find_side(k, v, moves) {
        None => None,
        Some(c) => match large_point(v, None).value(&c.side, k) {
            None => None,
            Some(at) => {
                if at.is_negative() {
                    return None;
                }
                let t = side_below(k, &c.bytes, v, &at);
                if t < 2 {
                    return None;
                }
                let more = if c.bytes.len() > 1 {
                    ", leading term"
                } else {
                    ""
                };
                let side = cat4(&show_poly(&c.side, names), " (at M/2", more, ")");
                let wk = cost_with_side(work, v, &c.side, k);
                let ghost pv = c.piece@;
                let mut pieces: Vec<Piece> = Vec::new();
                pieces.push(c.piece);
                let mut mv = Cost { pieces };
                assert(mv@ =~= seq![pv]);
                mv.prune_at(k);
                Some(TileChoice { side, t, work: wk, moves: mv })
            },
        },
    }
}

/// The tile side for the function of `cx`.
pub fn find_tile_choice(cx: &Cx, memo: &mut Memo) -> (r: Option<TileChoice>)
    requires
        ready(cx@, old(memo)@, crate::cost::rules::resting(old(memo)@)),
    ensures
        (final(memo)@, match r {
            Some(c) => Some(c@),
            None => None,
        }) == tile_choice(cx@, old(memo)@),
        remembers(old(memo)@, final(memo)@),
        r is Some ==> r->0.t >= 2,
{
    proof {
        reveal(tile_choice);
    }
    let (g, tv) = match tile_sym(cx.f) {
        Some(x) => x,
        None => {
            return None;
        },
    };
    let v = match place_of_param(&g.params, tv) {
        Some(i) => i,
        None => {
            return None;
        },
    };
    let gcx = Cx { m: cx.m, k: cx.k, f: &g, own: None };
    let c = run(&gcx, memo, Ghost(crate::cost::rules::resting(memo@)));
    match &c.result {
        CostResult::Exact { work, moves } => choose_side(&cx.k, v, &c.names, work, moves),
        CostResult::Unknown { reason, line } => None,
    }
}

} // verus!
