//! The lower bounds a statement's nest gives: every array reference in the statement as an
//! injective affine map on the loop variables, the exponent over them, and the exact iteration
//! count. References that are not injective (`a[i + j]`) or not affine leave the statement without
//! such a bound; each injective reference still records the size of its image for the footprint
//! bound.

use vstd::prelude::*;
use crate::ast::views;
use crate::cost::affine::{coeff, Affine, AffineV, Coeffs};
use crate::cost::algebra::{p_add, p_mul, p_rat, p_scale, p_sub, p_zero};
use crate::cost::bounds::{as_mac, bounds_v, hbl_bound, hbl_sigma, mac_of, p_hbl_bound, sigma, sigma_is, Bound, BoundV};
use crate::cost::forms::{opt_poly, opt_real};
use crate::cost::machine::Machine;
use crate::cost::model::PolyV;
use crate::cost::piece::{dominates, p_dominates};
use crate::cost::rat::{den, num, Rat};
use crate::cost::reading::{affine_of, numeric, rec_of, rec_sum, value_of};
use crate::cost::scope::{
    elem_bytes, stays, local_of, touch_bytes, Alias, AliasV, Cx, CxV, Image, ImageV, Known, LoopV, Walk, WalkV,
};
use crate::cost::settle::abs_real;
use crate::cost::show::{poly_text, show_poly};
use crate::cost::size::Poly;
use crate::cost::subst::p_mentions;
use crate::cost::table::has_id;
use crate::cost::trees::{collect_refs, collect_scalars, refs_of, scalars_of};
use crate::ir::{lvalue_parts, stmt_parts, LValue, LValueV, Stmt, StmtV};
use crate::num::Side;
use crate::text::{cat2, cat3, cat5, decimal, int_text, show_int, show_nat, show_u64, texts};

verus! {

// ---- the nest ----

/// The open loops whose variable is a size atom, among the first `n`, outermost first.
pub open spec fn nest_of(loops: Seq<LoopV>, n: nat) -> Seq<int>
    decreases n,
{
    if n == 0 {
        Seq::empty()
    } else {
        let before = nest_of(loops, (n - 1) as nat);
        if loops[n - 1].var is Some && loops[n - 1].atom is Some {
            before.push(n - 1)
        } else {
            before
        }
    }
}

/// The place in the nest, from the `i`-th on, of the loop over a local.
pub open spec fn nest_place(loops: Seq<LoopV>, nest: Seq<int>, v: usize, i: nat) -> Option<nat>
    decreases nest.len() - i,
{
    if i >= nest.len() {
        None
    } else if loops[nest[i as int]].var == Some(v) {
        Some(i)
    } else {
        nest_place(loops, nest, v, i + 1)
    }
}

// ---- injective references ----

/// What one variable contributes to an index: `|coefficient·step|`, and that times the trip
/// less one.
pub struct PartV {
    pub var: usize,
    pub unit: PolyV,
    pub span: PolyV,
}

pub open spec fn no_negative_terms(p: PolyV) -> bool {
    forall|i: int| 0 <= i < p.terms.len() ==> (#[trigger] p.terms[i]).1 >= 0real
}

/// The size of a coefficient whose sign is known: by its value, else by its terms.
pub open spec fn unsigned(k: Machine, p: PolyV) -> Option<PolyV> {
    match numeric(k, p) {
        Some(x) => if x < 0real {
            Some(p_scale(p, -1real))
        } else {
            Some(p)
        },
        None => if no_negative_terms(p) {
            Some(p)
        } else {
            None
        },
    }
}

pub open spec fn abs_int(x: int) -> int {
    if x < 0 {
        -x
    } else {
        x
    }
}

pub open spec fn part_of(k: Machine, loops: Seq<LoopV>, nest: Seq<int>, v: usize, c: PolyV) -> Option<PartV> {
    match nest_place(loops, nest, v, 0) {
        None => None,
        Some(i) => {
            let l = loops[nest[i as int]];
            match unsigned(k, p_scale(c, abs_int(l.step) as real)) {
                Some(unit) => Some(PartV { var: v, unit, span: p_mul(unit, p_sub(l.trip, p_rat(1real))) }),
                None => None,
            }
        },
    }
}

/// The part put before those that dominate it at the end of the list.
pub open spec fn part_insert(s: Seq<PartV>, x: PartV) -> Seq<PartV>
    decreases s.len(),
{
    if s.len() > 0 && p_dominates(s.last().unit, x.unit) {
        part_insert(s.drop_last(), x).push(s.last())
    } else {
        s.push(x)
    }
}

/// The parts of the first `n` coefficients, ascending by unit as far as dominance tells.
pub open spec fn parts_of(k: Machine, loops: Seq<LoopV>, nest: Seq<int>, s: Coeffs, n: nat) -> Option<Seq<PartV>>
    decreases n,
{
    if n == 0 {
        Some(Seq::empty())
    } else {
        match (parts_of(k, loops, nest, s, (n - 1) as nat), part_of(k, loops, nest, s[n - 1].0, s[n - 1].1)) {
            (Some(before), Some(x)) => Some(part_insert(before, x)),
            _ => None,
        }
    }
}

/// The span of the first `n` parts.
pub open spec fn covered(s: Seq<PartV>, n: nat) -> PolyV
    decreases n,
{
    if n == 0 {
        p_zero()
    } else {
        p_add(covered(s, (n - 1) as nat), s[n - 1].span)
    }
}

/// Every coefficient reaches past the whole span of the smaller ones.
pub open spec fn mixed_radix(s: Seq<PartV>) -> bool {
    forall|i: int|
        0 <= i < s.len() ==> p_dominates((#[trigger] s[i]).unit, p_add(covered(s, i as nat), p_rat(1real)))
}

/// The loop variables an affine index depends on, when the index is injective on their ranges:
/// sorted by the span each variable contributes, every coefficient must reach past the whole span
/// of the smaller ones (mixed radix), decided for all sizes ≥ 1.
pub open spec fn injective_vars(k: Machine, loops: Seq<LoopV>, nest: Seq<int>, a: AffineV) -> Option<Seq<usize>> {
    match parts_of(k, loops, nest, a.coeffs, a.coeffs.len()) {
        Some(s) => if s.len() > 0 && mixed_radix(s) {
            Some(Seq::new(s.len(), |i: int| s[i].var))
        } else {
            None
        },
        None => None,
    }
}

/// The count over the last `n` loops of the nest: those over the variables are summed; another
/// that the count or its own trip depends on leaves no exact count.
pub open spec fn image_count(loops: Seq<LoopV>, nest: Seq<int>, dims: Seq<usize>, n: nat) -> Option<PolyV>
    decreases n,
{
    if n == 0 || n > nest.len() {
        Some(p_rat(1real))
    } else {
        let l = loops[nest[nest.len() - n]];
        match image_count(loops, nest, dims, (n - 1) as nat) {
            None => None,
            Some(c) => if dims.contains(l.var->0) {
                Some(rec_sum(rec_of(l), c))
            } else if p_mentions(c, l.atom->0 as int) || p_mentions(l.trip, l.atom->0 as int) {
                None
            } else {
                Some(c)
            },
        }
    }
}

pub open spec fn depends_elsewhere(loops: Seq<LoopV>, nest: Seq<int>, dims: Seq<usize>, c: PolyV) -> bool {
    exists|i: int|
        0 <= i < nest.len() && !dims.contains(loops[#[trigger] nest[i]].var->0) && p_mentions(
            c,
            loops[nest[i]].atom->0 as int,
        )
}

/// The number of distinct values the loop variables take together, exact when their bounds
/// mention only each other.
pub open spec fn image_of(loops: Seq<LoopV>, nest: Seq<int>, dims: Seq<usize>) -> Option<PolyV> {
    match image_count(loops, nest, dims, nest.len()) {
        Some(c) => if depends_elsewhere(loops, nest, dims, c) {
            None
        } else {
            Some(c)
        },
        None => None,
    }
}

/// The image kept: the larger, where dominance tells.
pub open spec fn keep_image(s: Seq<ImageV>, root: usize, field: Option<usize>, bytes: PolyV) -> Seq<ImageV>
    decreases s.len(),
{
    if s.len() == 0 {
        seq![ImageV { root, field, bytes: if p_dominates(bytes, p_zero()) { bytes } else { p_zero() } }]
    } else if s[0].root == root && s[0].field == field {
        if p_dominates(bytes, s[0].bytes) {
            seq![ImageV { root, field, bytes }] + s.drop_first()
        } else {
            s
        }
    } else {
        seq![s[0]] + keep_image(s.drop_first(), root, field, bytes)
    }
}

pub open spec fn root_of(t: Known<usize>, l: usize) -> usize {
    match t(l) {
        Some(r) => r,
        None => l,
    }
}

// ---- masks ----

/// The first `n` variables as a set of places in the nest.
pub open spec fn dims_mask(loops: Seq<LoopV>, nest: Seq<int>, dims: Seq<usize>, n: nat) -> u32
    decreases n,
{
    if n == 0 {
        0
    } else {
        let before = dims_mask(loops, nest, dims, (n - 1) as nat);
        match nest_place(loops, nest, dims[n - 1], 0) {
            Some(p) => if p < 32 {
                before | (1u32 << (p as u32))
            } else {
                before
            },
            None => before,
        }
    }
}

/// What the references of a statement give: the sets of loops that they depend on, `None` where
/// one is not injective, and the images kept.
pub struct FoundV {
    pub sets: Option<Seq<u32>>,
    pub images: Seq<ImageV>,
}

pub open spec fn found(cx: CxV, w: WalkV, nest: Seq<int>, refs: Seq<AliasV>, n: nat) -> FoundV
    decreases n,
{
    if n == 0 {
        FoundV { sets: Some(Seq::empty()), images: w.images }
    } else {
        let before = found(cx, w, nest, refs, (n - 1) as nat);
        let r = refs[n - 1];
        let dims = match affine_of(w, r.idx) {
            Some(a) => injective_vars(cx.k, w.loops, nest, a),
            None => None,
        };
        match dims {
            None => FoundV { sets: None, images: before.images },
            Some(d) => FoundV {
                sets: match before.sets {
                    Some(s) => Some(s.push(dims_mask(w.loops, nest, d, d.len()))),
                    None => None,
                },
                images: match image_of(w.loops, nest, d) {
                    Some(img) => keep_image(
                        before.images,
                        root_of(w.roots, r.arr),
                        r.field,
                        p_scale(img, touch_bytes(cx, r.arr, r.field) as real),
                    ),
                    None => before.images,
                },
            },
        }
    }
}

pub open spec fn union_mask(s: Seq<u32>) -> u32
    decreases s.len(),
{
    if s.len() == 0 {
        0
    } else {
        union_mask(s.drop_last()) | s.last()
    }
}

pub open spec fn in_mask(m: u32, p: int) -> bool {
    m & (1u32 << (p as u32)) != 0
}

/// The iterations over the last `n` loops of the nest and the loops counted: those that a
/// reference uses, and those that the bounds inside depend on. The others are repetition, left
/// out.
pub open spec fn counted_loops(loops: Seq<LoopV>, nest: Seq<int>, used: u32, n: nat) -> (PolyV, u32)
    decreases n,
{
    if n == 0 || n > nest.len() {
        (p_rat(1real), used)
    } else {
        let (count, in_lp) = counted_loops(loops, nest, used, (n - 1) as nat);
        let pos = nest.len() - n;
        let l = loops[nest[pos]];
        if in_mask(used, pos) || p_mentions(count, l.atom->0 as int) {
            (rec_sum(rec_of(l), count), in_lp | (1u32 << (pos as u32)))
        } else {
            (count, in_lp)
        }
    }
}

/// The places below `n` in a set.
pub open spec fn places_in(m: u32, n: nat) -> Seq<int>
    decreases n,
{
    if n == 0 {
        Seq::empty()
    } else {
        let before = places_in(m, (n - 1) as nat);
        if in_mask(m, n - 1) {
            before.push(n - 1)
        } else {
            before
        }
    }
}

/// A set renumbered by the first `n` of the places.
pub open spec fn compact(m: u32, places: Seq<int>, n: nat) -> u32
    decreases n,
{
    if n == 0 {
        0
    } else {
        let before = compact(m, places, (n - 1) as nat);
        if in_mask(m, places[n - 1]) {
            before | (1u32 << ((n - 1) as u32))
        } else {
            before
        }
    }
}

pub open spec fn sigma_text(s: real) -> Seq<char> {
    if den(s) == 1 {
        int_text(num(s))
    } else {
        int_text(num(s)) + "/"@ + decimal(den(s) as nat)
    }
}

/// The bound of a nest whose references are all injective. A nest deeper than a set is wide has
/// none.
pub open spec fn nest_bound(loops: Seq<LoopV>, nest: Seq<int>, sets: Seq<u32>, line: u32) -> Option<BoundV> {
    if sets.len() == 0 || nest.len() > 32 {
        None
    } else {
        let (count, in_lp) = counted_loops(loops, nest, union_mask(sets), nest.len());
        let places = places_in(in_lp, nest.len());
        let compacted = Seq::new(sets.len(), |i: int| compact(sets[i], places, places.len()));
        match sigma(places.len(), compacted) {
            Some(s) => if s > 1real {
                Some(
                    BoundV {
                        kind: "HBL, σ = "@ + sigma_text(s),
                        citation: "CDKSY 2013"@,
                        moves: p_hbl_bound(count, s),
                        line,
                        cold: false,
                    },
                )
            } else {
                None
            },
            None => None,
        }
    }
}

// ---- operands ----

pub open spec fn operand_note(cx: CxV, w: WalkV, arr: usize, a: AffineV, inner: usize, es: int, line: u32) -> Seq<
    Seq<char>,
> {
    let stride = p_scale(
        match coeff(a.coeffs, inner) {
            Some(c) => c,
            None => p_zero(),
        },
        es as real,
    );
    let big = match numeric(cx.k, stride) {
        Some(v) => abs_real(v) >= cx.k.b_bytes as real,
        None => stride != p_zero(),
    };
    if big {
        seq![
            "`"@ + local_of(cx.f, arr).name + "` moves by "@ + poly_text(stride, w.names)
                + " bytes per iteration of the innermost loop: a new line every time (line "@ + decimal(line as nat) + ")"@,
        ]
    } else {
        Seq::empty()
    }
}

/// What each operand of a multiply-accumulate does in the innermost loop.
pub open spec fn operand_notes(cx: CxV, w: WalkV, s: StmtV) -> Seq<Seq<char>> {
    match mac_of(s) {
        None => Seq::empty(),
        Some(mac) => match (affine_of(w, mac.ia), affine_of(w, mac.ib)) {
            (Some(aa), Some(ab)) => if w.loops.len() == 0 {
                Seq::empty()
            } else {
                match w.loops.last().var {
                    None => Seq::empty(),
                    Some(v) => operand_note(cx, w, mac.a, aa, v, elem_bytes(cx, mac.a), mac.line) + operand_note(
                        cx,
                        w,
                        mac.b,
                        ab,
                        v,
                        elem_bytes(cx, mac.a),
                        mac.line,
                    ),
                }
            },
            _ => Seq::empty(),
        },
    }
}

// ---- the statement ----

pub open spec fn stmt_refs(s: StmtV) -> Seq<AliasV> {
    match s {
        StmtV::Assign(lv, _, e) => (match lv {
            LValueV::Index(a, i, _) => seq![AliasV { arr: a, idx: i, field: None }],
            LValueV::IndexField(a, i, fi, _) => seq![AliasV { arr: a, idx: i, field: Some(fi) }],
            _ => Seq::empty(),
        }) + refs_of(e),
        StmtV::Let(_, e) => refs_of(e),
        StmtV::Expr(e) => refs_of(e),
        _ => Seq::empty(),
    }
}

pub open spec fn stmt_scalars(s: StmtV) -> Seq<usize> {
    match s {
        StmtV::Assign(lv, _, e) => (match lv {
            LValueV::Var(v) => seq![v],
            _ => Seq::empty(),
        }) + scalars_of(e),
        StmtV::Let(_, e) => scalars_of(e),
        StmtV::Expr(e) => scalars_of(e),
        _ => Seq::empty(),
    }
}

/// The elements that the scalars stand for.
pub open spec fn aliased(t: Known<AliasV>, s: Seq<usize>) -> Seq<AliasV>
    decreases s.len(),
{
    if s.len() == 0 {
        Seq::empty()
    } else {
        let before = aliased(t, s.drop_last());
        match t(s.last()) {
            Some(a) => before.push(a),
            None => before,
        }
    }
}

pub open spec fn stmt_line(s: StmtV) -> u32 {
    match s {
        StmtV::Assign(_, _, e) => e.line,
        StmtV::Let(_, e) => e.line,
        StmtV::Expr(e) => e.line,
        _ => 0,
    }
}

#[verifier::opaque]
pub open spec fn recognised(cx: CxV, w: WalkV, s: StmtV) -> WalkV {
    let refs = stmt_refs(s) + aliased(w.aliases, stmt_scalars(s));
    if w.replay || refs.len() == 0 {
        w
    } else {
        let nest = nest_of(w.loops, w.loops.len());
        let f = found(cx, w, nest, refs, refs.len());
        let bound = match f.sets {
            Some(sets) => nest_bound(w.loops, nest, sets, stmt_line(s)),
            None => None,
        };
        WalkV {
            images: f.images,
            bounds: match bound {
                Some(b) => w.bounds.push(b),
                None => w.bounds,
            },
            notes: w.notes + operand_notes(cx, w, s),
            ..w
        }
    }
}

// ---- the computation ----

pub open spec fn places(s: Seq<usize>) -> Seq<int> {
    Seq::new(s.len(), |i: int| s[i] as int)
}

pub struct Part {
    pub var: usize,
    pub unit: Poly,
    pub span: Poly,
}

impl View for Part {
    type V = PartV;

    open spec fn view(&self) -> PartV {
        PartV { var: self.var, unit: self.unit@, span: self.span@ }
    }
}

/// The places lie in the loops, and each loop there has a variable and an atom.
spec fn is_nest(loops: Seq<LoopV>, nest: Seq<usize>) -> bool {
    forall|i: int|
        0 <= i < nest.len() ==> (#[trigger] nest[i]) < loops.len() && loops[nest[i] as int].var is Some
            && loops[nest[i] as int].atom is Some
}

pub fn all_nonnegative(p: &Poly) -> (r: bool)
    ensures
        r == no_negative_terms(p@),
{
    let mut i: usize = 0;
    while i < p.len()
        invariant
            i <= p@.terms.len(),
            forall|j: int| 0 <= j < i ==> (#[trigger] p@.terms[j]).1 >= 0real,
        decreases p@.terms.len() - i,
    {
        if p.coeff_at(i).is_negative() {
            assert(!(p@.terms[i as int].1 >= 0real));
            return false;
        }
        i += 1;
    }
    true
}

fn unsigned_of(k: &Machine, p: Poly) -> (r: Option<Poly>)
    requires
        k.ok(),
    ensures
        opt_poly(r) == unsigned(*k, p@),
{
    match value_of(k, &p) {
        Some(x) => {
            if x.is_negative() {
                Some(p.scale(&Rat::integer(-1)))
            } else {
                Some(p)
            }
        },
        None => {
            if all_nonnegative(&p) {
                Some(p)
            } else {
                None
            }
        },
    }
}

fn insert_part(s: &mut Vec<Part>, x: Part)
    ensures
        views(final(s)@) == part_insert(views(old(s)@), x@),
{
    let ghost all = views(s@);
    let ghost start = s@;
    let ghost xv = x@;
    let n: usize = s.len();
    let mut i: usize = n;
    proof {
        assert(all.take(n as int) =~= all);
        assert(part_insert(all, xv) =~= part_insert(all.take(n as int), xv) + all.skip(n as int));
    }
    while i > 0 && dominates(&s[i - 1].unit, &x.unit)
        invariant
            i <= n,
            n == s@.len(),
            s@ == start,
            all == views(start),
            x@ == xv,
            part_insert(all, xv) == part_insert(all.take(i as int), xv) + all.skip(i as int),
        decreases i,
    {
        proof {
            assert(all.take(i as int).last() == all[i - 1]);
            assert(all[i - 1] == s@[i - 1]@);
            assert(all.take(i as int).drop_last() =~= all.take(i - 1));
            assert(part_insert(all.take(i - 1), xv).push(all[i - 1]) + all.skip(i as int) =~= part_insert(
                all.take(i - 1),
                xv,
            ) + all.skip(i - 1));
        }
        i -= 1;
    }
    proof {
        if i > 0 {
            assert(all.take(i as int).last() == all[i - 1]);
            assert(all[i - 1] == s@[i - 1]@);
        }
    }
    s.insert(i, x);
    proof {
        assert(views(s@) =~= all.take(i as int).push(xv) + all.skip(i as int));
    }
}

impl<'a> Walk<'a> {
    #[verifier::loop_isolation(false)]
    fn nest(&self) -> (r: Vec<usize>)
        ensures
            places(r@) == nest_of(self@.loops, self@.loops.len()),
            is_nest(self@.loops, r@),
    {
        let ghost v = self@.loops;
        let mut r: Vec<usize> = Vec::new();
        let mut i: usize = 0;
        assert(places(r@) =~= Seq::empty());
        while i < self.loops.len()
            invariant
                i <= self.loops@.len(),
                places(r@) == nest_of(v, i as nat),
                is_nest(v, r@),
            decreases self.loops@.len() - i,
        {
            assert(v[i as int] == self.loops@[i as int]@);
            if self.loops[i].var.is_some() && self.loops[i].atom.is_some() {
                assert(places(r@.push(i)) =~= places(r@).push(i as int));
                r.push(i);
            }
            i += 1;
        }
        r
    }

    fn place_of(&self, nest: &Vec<usize>, v: usize) -> (r: Option<usize>)
        requires
            is_nest(self@.loops, nest@),
        ensures
            match r {
                Some(p) => nest_place(self@.loops, places(nest@), v, 0) == Some(p as nat) && p < nest@.len(),
                None => nest_place(self@.loops, places(nest@), v, 0) is None,
            },
    {
        let ghost lv = self@.loops;
        let ghost nv = places(nest@);
        let mut i: usize = 0;
        while i < nest.len()
            invariant
                i <= nest@.len(),
                lv == self@.loops,
                nv == places(nest@),
                is_nest(lv, nest@),
                nest_place(lv, nv, v, 0) == nest_place(lv, nv, v, i as nat),
            decreases nest@.len() - i,
        {
            let l = &self.loops[nest[i]];
            assert(lv[nv[i as int]] == l@);
            match l.var {
                Some(x) => {
                    if x == v {
                        return Some(i);
                    }
                },
                None => {},
            }
            i += 1;
        }
        None
    }

    fn unit_part(&self, k: &Machine, nest: &Vec<usize>, v: usize, c: &Poly) -> (r: Option<Part>)
        requires
            k.ok(),
            is_nest(self@.loops, nest@),
        ensures
            match r {
                Some(p) => part_of(*k, self@.loops, places(nest@), v, c@) == Some(p@),
                None => part_of(*k, self@.loops, places(nest@), v, c@) is None,
            },
    {
        match self.place_of(nest, v) {
            None => None,
            Some(i) => {
                let l = &self.loops[nest[i]];
                assert(self@.loops[places(nest@)[i as int]] == l@);
                let by = if l.step < 0 {
                    Rat::integer(l.step).neg()
                } else {
                    Rat::integer(l.step)
                };
                assert(by@ == abs_int(l.step as int) as real);
                match unsigned_of(k, c.scale(&by)) {
                    Some(unit) => {
                        let span = unit.mul(&l.trip.sub(&Poly::constant(1)));
                        Some(Part { var: v, unit, span })
                    },
                    None => None,
                }
            },
        }
    }

    #[verifier::loop_isolation(false)]
    fn injective_dims(&self, k: &Machine, nest: &Vec<usize>, a: &Affine) -> (r: Option<Vec<usize>>)
        requires
            k.ok(),
            is_nest(self@.loops, nest@),
        ensures
            match r {
                Some(d) => injective_vars(*k, self@.loops, places(nest@), a@) == Some(d@),
                None => injective_vars(*k, self@.loops, places(nest@), a@) is None,
            },
    {
        let ghost lv = self@.loops;
        let ghost nv = places(nest@);
        let ghost cv = a@.coeffs;
        let mut parts: Vec<Part> = Vec::new();
        let mut i: usize = 0;
        assert(views(parts@) =~= Seq::empty());
        while i < a.coeffs.len()
            invariant
                i <= a.coeffs@.len(),
                parts_of(*k, lv, nv, cv, i as nat) == Some(views(parts@)),
            decreases a.coeffs@.len() - i,
        {
            assert(cv[i as int] == (a.coeffs@[i as int].0, a.coeffs@[i as int].1@));
            match self.unit_part(k, nest, a.coeffs[i].0, &a.coeffs[i].1) {
                Some(p) => {
                    insert_part(&mut parts, p);
                },
                None => {
                    proof {
                        assert(parts_of(*k, lv, nv, cv, (i + 1) as nat) is None);
                        parts_fail(*k, lv, nv, cv, (i + 1) as nat, cv.len());
                    }
                    return None;
                },
            }
            i += 1;
        }
        let ghost pv = views(parts@);
        if parts.len() == 0 {
            return None;
        }
        let mut sum = Poly::zero();
        let mut dims: Vec<usize> = Vec::new();
        let mut n: usize = 0;
        while n < parts.len()
            invariant
                n <= parts@.len(),
                sum@ == covered(pv, n as nat),
                dims@.len() == n,
                forall|j: int| 0 <= j < n ==> #[trigger] dims@[j] == pv[j].var,
                forall|j: int|
                    0 <= j < n ==> p_dominates((#[trigger] pv[j]).unit, p_add(covered(pv, j as nat), p_rat(1real))),
            decreases parts@.len() - n,
        {
            assert(pv[n as int] == parts@[n as int]@);
            if !dominates(&parts[n].unit, &sum.add(&Poly::constant(1))) {
                assert(!mixed_radix(pv));
                return None;
            }
            sum = sum.add(&parts[n].span);
            dims.push(parts[n].var);
            n += 1;
        }
        assert(mixed_radix(pv));
        assert(dims@ =~= Seq::new(pv.len(), |i: int| pv[i].var));
        Some(dims)
    }

    #[verifier::loop_isolation(false)]
    fn image_size(&self, nest: &Vec<usize>, dims: &Vec<usize>) -> (r: Option<Poly>)
        requires
            is_nest(self@.loops, nest@),
        ensures
            opt_poly(r) == image_of(self@.loops, places(nest@), dims@),
    {
        let ghost lv = self@.loops;
        let ghost nv = places(nest@);
        let mut count = Poly::constant(1);
        let mut n: usize = 0;
        while n < nest.len()
            invariant
                n <= nest@.len(),
                image_count(lv, nv, dims@, n as nat) == Some(count@),
            decreases nest@.len() - n,
        {
            let l = &self.loops[nest[nest.len() - 1 - n]];
            assert(lv[nv[nv.len() - (n + 1)]] == l@);
            if let (Some(v), Some(a)) = (l.var, l.atom) {
                if has_id(dims, v) {
                    count = count.sum_over(a, &l.lo, l.step, &l.trip);
                } else if count.mentions(a) || l.trip.mentions(a) {
                    proof {
                        assert(image_count(lv, nv, dims@, (n + 1) as nat) is None);
                        image_fails(lv, nv, dims@, (n + 1) as nat, nv.len());
                    }
                    return None;
                }
            }
            n += 1;
        }
        let mut i: usize = 0;
        while i < nest.len()
            invariant
                i <= nest@.len(),
                forall|j: int|
                    0 <= j < i ==> !(!dims@.contains(lv[#[trigger] nv[j]].var->0) && p_mentions(
                        count@,
                        lv[nv[j]].atom->0 as int,
                    )),
            decreases nest@.len() - i,
        {
            let l = &self.loops[nest[i]];
            assert(lv[nv[i as int]] == l@);
            if let (Some(v), Some(a)) = (l.var, l.atom) {
                if !has_id(dims, v) && count.mentions(a) {
                    assert(depends_elsewhere(lv, nv, dims@, count@));
                    return None;
                }
            }
            i += 1;
        }
        Some(count)
    }

    #[verifier::loop_isolation(false)]
    fn mask(&self, nest: &Vec<usize>, dims: &Vec<usize>) -> (r: u32)
        requires
            is_nest(self@.loops, nest@),
        ensures
            r == dims_mask(self@.loops, places(nest@), dims@, dims@.len()),
    {
        let mut m: u32 = 0;
        let mut n: usize = 0;
        while n < dims.len()
            invariant
                n <= dims@.len(),
                m == dims_mask(self@.loops, places(nest@), dims@, n as nat),
            decreases dims@.len() - n,
        {
            match self.place_of(nest, dims[n]) {
                Some(p) => {
                    if p < 32 {
                        m = m | (1u32 << (p as u32));
                    }
                },
                None => {},
            }
            n += 1;
        }
        m
    }

    pub fn root(&self, l: usize) -> (r: usize)
        ensures
            r == root_of(self@.roots, l),
    {
        match self.roots.get(l) {
            Some(r) => *r,
            None => l,
        }
    }
}

proof fn parts_fail(k: Machine, loops: Seq<LoopV>, nest: Seq<int>, s: Coeffs, n: nat, m: nat)
    requires
        n <= m,
        parts_of(k, loops, nest, s, n) is None,
    ensures
        parts_of(k, loops, nest, s, m) is None,
    decreases m - n,
{
    if n < m {
        assert(parts_of(k, loops, nest, s, n + 1) is None);
        parts_fail(k, loops, nest, s, n + 1, m);
    }
}

proof fn image_fails(loops: Seq<LoopV>, nest: Seq<int>, dims: Seq<usize>, n: nat, m: nat)
    requires
        n <= m <= nest.len(),
        image_count(loops, nest, dims, n) is None,
    ensures
        image_count(loops, nest, dims, m) is None,
    decreases m - n,
{
    if n < m {
        assert(image_count(loops, nest, dims, n + 1) is None);
        image_fails(loops, nest, dims, n + 1, m);
    }
}

#[verifier::loop_isolation(false)]
fn record_image(s: &mut Vec<Image>, root: usize, field: Option<usize>, bytes: Poly)
    ensures
        views(final(s)@) == keep_image(views(old(s)@), root, field, bytes@),
{
    let ghost v = views(s@);
    let ghost start = s@;
    let mut i: usize = 0;
    proof {
        assert(v.skip(0) =~= v);
        assert(v.take(0) + keep_image(v, root, field, bytes@) =~= keep_image(v, root, field, bytes@));
    }
    while i < s.len() && !(s[i].root == root && s[i].field == field)
        invariant
            i <= s@.len(),
            s@ == start,
            keep_image(v, root, field, bytes@) == v.take(i as int) + keep_image(v.skip(i as int), root, field, bytes@),
        decreases s@.len() - i,
    {
        proof {
            let rest = v.skip(i as int);
            assert(rest[0] == s@[i as int]@);
            assert(rest.drop_first() =~= v.skip(i + 1));
            assert(v.take(i as int) + (seq![rest[0]] + keep_image(v.skip(i + 1), root, field, bytes@)) =~= v.take(i + 1)
                + keep_image(v.skip(i + 1), root, field, bytes@));
        }
        i += 1;
    }
    let ghost bv = bytes@;
    let ghost rest = v.skip(i as int);
    if i < s.len() {
        assert(rest[0] == s@[i as int]@);
        if dominates(&bytes, &s[i].bytes) {
            s.set(i, Image { root, field, bytes });
            assert(views(s@) =~= v.take(i as int) + (seq![ImageV { root, field, bytes: bv }] + rest.drop_first()));
        } else {
            assert(v.take(i as int) + rest =~= v);
        }
    } else {
        let kept = if dominates(&bytes, &Poly::zero()) {
            bytes
        } else {
            Poly::zero()
        };
        let x = Image { root, field, bytes: kept };
        assert(views(s@.push(x)) =~= v.take(i as int) + seq![x@]);
        s.push(x);
    }
}

fn union_of(s: &Vec<u32>) -> (r: u32)
    ensures
        r == union_mask(s@),
{
    let mut m: u32 = 0;
    let mut i: usize = 0;
    assert(s@.take(0) =~= Seq::empty());
    while i < s.len()
        invariant
            i <= s@.len(),
            m == union_mask(s@.take(i as int)),
        decreases s@.len() - i,
    {
        assert(s@.take(i + 1).drop_last() =~= s@.take(i as int));
        m = m | s[i];
        i += 1;
    }
    assert(s@.take(i as int) =~= s@);
    m
}

fn has_place(m: u32, p: usize) -> (r: bool)
    requires
        p < 32,
    ensures
        r == in_mask(m, p as int),
{
    m & (1u32 << (p as u32)) != 0
}

#[verifier::loop_isolation(false)]
fn places_of(m: u32, n: usize) -> (r: Vec<usize>)
    requires
        n <= 32,
    ensures
        places(r@) == places_in(m, n as nat),
        r@.len() <= n,
        forall|i: int| 0 <= i < r@.len() ==> #[trigger] r@[i] < 32,
{
    let mut r: Vec<usize> = Vec::new();
    let mut i: usize = 0;
    assert(places(r@) =~= Seq::empty());
    while i < n
        invariant
            i <= n,
            r@.len() <= i,
            places(r@) == places_in(m, i as nat),
            forall|j: int| 0 <= j < r@.len() ==> #[trigger] r@[j] < 32,
        decreases n - i,
    {
        if has_place(m, i) {
            assert(places(r@.push(i)) =~= places(r@).push(i as int));
            r.push(i);
        }
        i += 1;
    }
    r
}

#[verifier::loop_isolation(false)]
fn compact_of(m: u32, at: &Vec<usize>) -> (r: u32)
    requires
        at@.len() <= 32,
        forall|i: int| 0 <= i < at@.len() ==> #[trigger] at@[i] < 32,
    ensures
        r == compact(m, places(at@), at@.len()),
{
    let mut r: u32 = 0;
    let mut n: usize = 0;
    while n < at.len()
        invariant
            n <= at@.len(),
            r == compact(m, places(at@), n as nat),
        decreases at@.len() - n,
    {
        assert(places(at@)[n as int] == at@[n as int]);
        if has_place(m, at[n]) {
            r = r | (1u32 << (n as u32));
        }
        n += 1;
    }
    r
}

fn show_sigma(s: &Rat) -> (r: String)
    ensures
        r@ == sigma_text(s@),
{
    if s.is_int() {
        show_int(&s.numer())
    } else {
        cat3(&show_int(&s.numer()), "/", &show_nat(&s.denom()))
    }
}

impl<'a> Walk<'a> {
    #[verifier::loop_isolation(false)]
    fn counted(&self, nest: &Vec<usize>, used: u32) -> (r: (Poly, u32))
        requires
            is_nest(self@.loops, nest@),
            nest@.len() <= 32,
        ensures
            (r.0@, r.1) == counted_loops(self@.loops, places(nest@), used, nest@.len()),
    {
        let ghost lv = self@.loops;
        let ghost nv = places(nest@);
        let mut count = Poly::constant(1);
        let mut in_lp: u32 = used;
        let mut n: usize = 0;
        while n < nest.len()
            invariant
                n <= nest@.len(),
                counted_loops(lv, nv, used, n as nat) == (count@, in_lp),
            decreases nest@.len() - n,
        {
            let pos: usize = nest.len() - 1 - n;
            let l = &self.loops[nest[pos]];
            assert(lv[nv[nv.len() - (n + 1)]] == l@);
            if let Some(a) = l.atom {
                if has_place(used, pos) || count.mentions(a) {
                    count = count.sum_over(a, &l.lo, l.step, &l.trip);
                    in_lp = in_lp | (1u32 << (pos as u32));
                }
            }
            n += 1;
        }
        (count, in_lp)
    }

    #[verifier::loop_isolation(false)]
    fn bound_of_nest(&self, nest: &Vec<usize>, sets: &Vec<u32>, line: u32) -> (r: Option<Bound>)
        requires
            is_nest(self@.loops, nest@),
        ensures
            match r {
                Some(b) => nest_bound(self@.loops, places(nest@), sets@, line) == Some(b@),
                None => nest_bound(self@.loops, places(nest@), sets@, line) is None,
            },
    {
        if sets.len() == 0 || nest.len() > 32 {
            return None;
        }
        let (count, in_lp) = self.counted(nest, union_of(sets));
        let at = places_of(in_lp, nest.len());
        let mut compacted: Vec<u32> = Vec::new();
        let mut i: usize = 0;
        while i < sets.len()
            invariant
                i <= sets@.len(),
                compacted@.len() == i,
                forall|j: int| 0 <= j < i ==> #[trigger] compacted@[j] == compact(sets@[j], places(at@), at@.len()),
            decreases sets@.len() - i,
        {
            compacted.push(compact_of(sets[i], &at));
            i += 1;
        }
        assert(compacted@ =~= Seq::new(sets@.len(), |i: int| compact(sets@[i], places(at@), at@.len())));
        let found = hbl_sigma(at.len(), &compacted);
        proof {
            sigma_is(at@.len(), compacted@, opt_real(found));
        }
        match found {
            Some(s) => {
                if s.side(&Rat::one()) == Side::After {
                    Some(
                        Bound {
                            kind: cat2("HBL, σ = ", &show_sigma(&s)),
                            citation: "CDKSY 2013".to_owned(),
                            moves: hbl_bound(&count, s),
                            line,
                            cold: false,
                        },
                    )
                } else {
                    None
                }
            },
            None => None,
        }
    }

    fn note_operand(&self, cx: &Cx, arr: usize, a: &Affine, inner: usize, es: i128, line: u32, out: &mut Vec<String>)
        requires
            cx.k.ok(),
        ensures
            texts(final(out)@) == texts(old(out)@) + operand_note(cx@, self@, arr, a@, inner, es as int, line),
    {
        let c = match a.coeff(inner) {
            Some(p) => p.copy(),
            None => Poly::zero(),
        };
        let stride = c.scale(&Rat::integer(es));
        let big = match value_of(&cx.k, &stride) {
            Some(v) => {
                let size = if v.is_negative() {
                    v.neg()
                } else {
                    v
                };
                size.side(&Rat::integer(cx.k.b_bytes)) != Side::Before
            },
            None => !stride.is_zero(),
        };
        if big {
            let head = cat5(
                "`",
                &cx.name(arr),
                "` moves by ",
                &show_poly(&stride, &self.names),
                " bytes per iteration of the innermost loop: a new line every time (line ",
            );
            let note = cat3(&head, &show_u64(line as u64), ")");
            assert(texts(out@.push(note)) =~= texts(out@) + seq![note@]);
            out.push(note);
        } else {
            assert(texts(out@) + Seq::empty() =~= texts(out@));
        }
    }

    fn note_operands(&self, cx: &Cx, s: &Stmt, out: &mut Vec<String>)
        requires
            cx.k.ok(),
        ensures
            texts(final(out)@) == texts(old(out)@) + operand_notes(cx@, self@, s@),
    {
        let ghost start = texts(out@);
        proof {
            assert(start + Seq::empty() =~= start);
        }
        match as_mac(s) {
            None => {},
            Some(mac) => {
                match (self.affine(mac.ia), self.affine(mac.ib)) {
                    (Some(aa), Some(ab)) => {
                        if self.loops.len() > 0 {
                            let last: usize = self.loops.len() - 1;
                            assert(self@.loops.last() == self.loops@[last as int]@);
                            match self.loops[last].var {
                                Some(v) => {
                                    let es = cx.elem_bytes(mac.a);
                                    self.note_operand(cx, mac.a, &aa, v, es, mac.line, out);
                                    let ghost mid = texts(out@);
                                    self.note_operand(cx, mac.b, &ab, v, es, mac.line, out);
                                    proof {
                                        assert(texts(out@) =~= start + (operand_note(
                                            cx@,
                                            self@,
                                            mac.a,
                                            aa@,
                                            v,
                                            es as int,
                                            mac.line,
                                        ) + operand_note(cx@, self@, mac.b, ab@, v, es as int, mac.line)));
                                    }
                                },
                                None => {},
                            }
                        }
                    },
                    _ => {},
                }
            },
        }
    }

    /// The references of a statement: those it writes and reads, and those its scalars stand for.
    #[verifier::loop_isolation(false)]
    fn refs(&self, s: &'a Stmt) -> (r: Vec<Alias<'a>>)
        ensures
            views(r@) == stmt_refs(s@) + aliased(self@.aliases, stmt_scalars(s@)),
    {
        let mut refs: Vec<Alias<'a>> = Vec::new();
        let mut scalars: Vec<usize> = Vec::new();
        proof {
            stmt_parts(*s);
            assert(views(refs@) =~= Seq::empty());
            assert(Seq::<AliasV>::empty() + refs_of(s@->Expr_0) =~= refs_of(s@->Expr_0));
            assert(Seq::<AliasV>::empty() + refs_of(s@->Let_1) =~= refs_of(s@->Let_1));
            assert(Seq::<usize>::empty() + scalars_of(s@->Expr_0) =~= scalars_of(s@->Expr_0));
            assert(Seq::<usize>::empty() + scalars_of(s@->Let_1) =~= scalars_of(s@->Let_1));
        }
        match s {
            Stmt::Assign(lv, _, e) => {
                proof {
                    lvalue_parts(*lv);
                }
                match lv {
                    LValue::Var(v) => {
                        scalars.push(*v);
                        assert(scalars@ =~= seq![*v]);
                    },
                    LValue::Index(a, i, _) => {
                        let x = Alias { arr: *a, idx: i, field: None };
                        refs.push(x);
                        assert(views(refs@) =~= seq![AliasV { arr: *a, idx: i@, field: None }]);
                    },
                    LValue::IndexField(a, i, fi, _) => {
                        let x = Alias { arr: *a, idx: i, field: Some(*fi) };
                        refs.push(x);
                        assert(views(refs@) =~= seq![AliasV { arr: *a, idx: i@, field: Some(*fi) }]);
                    },
                    LValue::Field(..) => {},
                }
                collect_refs(e, &mut refs);
                collect_scalars(e, &mut scalars);
            },
            Stmt::Let(_, e) => {
                collect_refs(e, &mut refs);
                collect_scalars(e, &mut scalars);
            },
            Stmt::Expr(e) => {
                collect_refs(e, &mut refs);
                collect_scalars(e, &mut scalars);
            },
            _ => {},
        }
        assert(views(refs@) =~= stmt_refs(s@));
        assert(scalars@ =~= stmt_scalars(s@));
        let ghost sv = scalars@;
        let ghost start = views(refs@);
        let mut i: usize = 0;
        proof {
            assert(sv.take(0) =~= Seq::empty());
            assert(start + Seq::empty() =~= start);
        }
        while i < scalars.len()
            invariant
                i <= scalars@.len(),
                views(refs@) == start + aliased(self@.aliases, sv.take(i as int)),
            decreases scalars@.len() - i,
        {
            proof {
                assert(sv.take(i + 1).drop_last() =~= sv.take(i as int));
                assert(sv.take(i + 1).last() == sv[i as int]);
            }
            match self.aliases.get(scalars[i]) {
                Some(a) => {
                    let x = Alias { arr: a.arr, idx: a.idx, field: a.field };
                    assert(x@ == a@);
                    let ghost so_far = aliased(self@.aliases, sv.take(i as int));
                    assert(views(refs@.push(x)) =~= views(refs@).push(x@));
                    assert((start + so_far).push(x@) =~= start + so_far.push(x@));
                    refs.push(x);
                },
                None => {},
            }
            i += 1;
        }
        assert(sv.take(i as int) =~= sv);
        refs
    }

    /// What the references of a statement give: the sets of loops, unless one is not injective;
    /// the images are recorded.
    #[verifier::loop_isolation(false)]
    fn find(&mut self, cx: &Cx, nest: &Vec<usize>, refs: &Vec<Alias<'a>>) -> (r: Option<Vec<u32>>)
        requires
            cx.k.ok(),
            is_nest(old(self)@.loops, nest@),
        ensures
            ({
                let f = found(cx@, old(self)@, places(nest@), views(refs@), refs@.len());
                final(self)@ == (WalkV { images: f.images, ..old(self)@ }) && (match r {
                    Some(s) => f.sets == Some(s@),
                    None => f.sets is None,
                })
            }),
    {
        let ghost w = self@;
        let ghost rv = views(refs@);
        let ghost nv = places(nest@);
        let mut sets: Option<Vec<u32>> = Some(Vec::new());
        let mut i: usize = 0;
        while i < refs.len()
            invariant
                i <= refs@.len(),
                self@ == (WalkV { images: found(cx@, w, nv, rv, i as nat).images, ..w }),
                match sets {
                    Some(s) => found(cx@, w, nv, rv, i as nat).sets == Some(s@),
                    None => found(cx@, w, nv, rv, i as nat).sets is None,
                },
            decreases refs@.len() - i,
        {
            let r = &refs[i];
            assert(rv[i as int] == r@);
            proof {
                same_reading(w, self@, r@.idx);
            }
            let dims = match self.affine(r.idx) {
                Some(a) => self.injective_dims(&cx.k, nest, &a),
                None => None,
            };
            match dims {
                Some(d) => {
                    let m = self.mask(nest, &d);
                    sets = match sets {
                        Some(s) => {
                            let mut t = s;
                            t.push(m);
                            Some(t)
                        },
                        None => None,
                    };
                    match self.image_size(nest, &d) {
                        Some(img) => {
                            let bytes = img.scale(&Rat::integer(cx.touch_bytes(r.arr, r.field)));
                            let root = self.root(r.arr);
                            record_image(&mut self.images, root, r.field, bytes);
                        },
                        None => {},
                    }
                },
                None => {
                    sets = None;
                },
            }
            i += 1;
        }
        sets
    }

    /// The lower bounds, images and notes of a statement.
    pub fn recognise(&mut self, cx: &Cx, s: &'a Stmt)
        requires
            cx.k.ok(),
        ensures
            final(self)@ == recognised(cx@, old(self)@, s@),
            stays(old(self)@, final(self)@),
    {
        let ghost w = self@;
        proof {
            reveal(recognised);
            stmt_parts(*s);
        }
        if self.replay {
            return;
        }
        let refs = self.refs(s);
        if refs.len() == 0 {
            return;
        }
        let line = match s {
            Stmt::Assign(_, _, e) => e.line,
            Stmt::Let(_, e) => e.line,
            Stmt::Expr(e) => e.line,
            _ => 0,
        };
        let nest = self.nest();
        let mut notes: Vec<String> = Vec::new();
        self.note_operands(cx, s, &mut notes);
        assert(texts(notes@) =~= operand_notes(cx@, w, s@));
        let sets = self.find(cx, &nest, &refs);
        match sets {
            Some(sets) => match self.bound_of_nest(&nest, &sets, line) {
                Some(b) => {
                    assert(bounds_v(self.bounds@.push(b)) =~= bounds_v(self.bounds@).push(b@));
                    self.bounds.push(b);
                },
                None => {},
            },
            None => {},
        }
        let ghost before = texts(self.notes@);
        let ghost added = texts(notes@);
        self.notes.append(&mut notes);
        proof {
            assert(texts(self.notes@) =~= before + added);
        }
    }
}

/// An index reads the same in states that agree on the loops and the locals.
pub proof fn same_reading(a: WalkV, b: WalkV, e: crate::ir::ExprV)
    requires
        a.loops == b.loops,
        a.affines == b.affines,
        a.sizes == b.sizes,
    ensures
        affine_of(a, e) == affine_of(b, e),
    decreases e,
{
    match e.kind {
        crate::ir::KindV::Cast(x, _) => {
            same_reading(a, b, *x);
        },
        crate::ir::KindV::MinMax(_, x, _) => {
            same_reading(a, b, *x);
        },
        crate::ir::KindV::Binary(_, x, y) => {
            same_reading(a, b, *x);
            same_reading(a, b, *y);
        },
        crate::ir::KindV::Block(x) => {
            if let Some(t) = x.tail {
                same_reading(a, b, *t);
            }
        },
        _ => {},
    }
}

} // verus!
