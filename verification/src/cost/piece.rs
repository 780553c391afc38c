//! A cost is a set of pieces, each a polynomial under a set of conditions. Its value at an
//! input is the **maximum** over the pieces whose conditions hold there. Two things make pieces:
//! an `if`, whose branches are alternatives with no condition the calculus can state; and a fit
//! test the calculus cannot decide, whose two outcomes are alternatives under `ws·B < M` and
//! `ws·B ≥ M`. Nothing is folded: every piece that can hold is kept, and the ones whose
//! conditions contradict each other are dropped.

use vstd::prelude::*;
use crate::cost::algebra::{p_rat, p_sub, p_zero};
use crate::cost::assoc::{holds, value};
use crate::cost::model::{poly_side, AtomV, MonoV, PolyV};
use crate::cost::rat::Rat;
use crate::cost::size::{Mono, Poly};
use crate::num::Side;

verus! {

/// `ws·B < M` when `fits`, `ws·B ≥ M` otherwise; `ws` is a number of cache lines.
#[derive(Debug)]
pub struct Cond {
    pub ws: Poly,
    pub fits: bool,
}

/// A polynomial and the conditions under which it counts.
#[derive(Debug)]
pub struct Piece {
    pub conds: Vec<Cond>,
    pub poly: Poly,
}

/// The maximum of the pieces whose conditions hold.
#[derive(Debug)]
pub struct Cost {
    pub pieces: Vec<Piece>,
}

/// A condition as a value.
pub struct CondV {
    pub ws: PolyV,
    pub fits: bool,
}

/// A piece as a value.
#[verifier::ext_equal]
pub struct PieceV {
    pub conds: Seq<CondV>,
    pub poly: PolyV,
}

impl View for Cond {
    type V = CondV;

    open spec fn view(&self) -> CondV {
        CondV { ws: self.ws@, fits: self.fits }
    }
}

pub open spec fn conds_v(s: Seq<Cond>) -> Seq<CondV> {
    Seq::new(s.len(), |i: int| s[i]@)
}

impl View for Piece {
    type V = PieceV;

    open spec fn view(&self) -> PieceV {
        PieceV { conds: conds_v(self.conds@), poly: self.poly@ }
    }
}

pub open spec fn pieces_v(s: Seq<Piece>) -> Seq<PieceV> {
    Seq::new(s.len(), |i: int| s[i]@)
}

impl View for Cost {
    type V = Seq<PieceV>;

    open spec fn view(&self) -> Seq<PieceV> {
        pieces_v(self.pieces@)
    }
}

// ---- when one polynomial is at least another ----

/// `big` has at least the exponent of `small` in every atom, so a `B⁻¹` in `big` that `small`
/// lacks disqualifies it: `8n²/B` does not cover `n`.
pub open spec fn covers(big: MonoV, small: MonoV) -> bool {
    forall|a: AtomV| #[trigger] value(big.factors, a) >= value(small.factors, a)
}

pub open spec fn no_negative(p: PolyV) -> bool {
    forall|i: int| 0 <= i < p.terms.len() ==> (#[trigger] p.terms[i]).1 >= 0real
}

/// What the entry `b` can give to a need of `need` at `m`.
pub open spec fn gives(b: (MonoV, real), m: MonoV, need: real) -> real {
    if b.1 > 0real && need > 0real && covers(b.0, m) {
        if need < b.1 {
            need
        } else {
            b.1
        }
    } else {
        0real
    }
}

/// The budget after the entries from `i` on have given what they can to a need at `m`, and what
/// is left of the need.
pub open spec fn draw(b: Seq<(MonoV, real)>, m: MonoV, need: real, i: int) -> (Seq<(MonoV, real)>, real)
    decreases b.len() - i,
{
    if i < 0 || i >= b.len() {
        (b, need)
    } else {
        let g = gives(b[i], m, need);
        draw(b.update(i, (b[i].0, b[i].1 - g)), m, need - g, i + 1)
    }
}

/// Every need in the list, from its end, can be drawn from the budget.
pub open spec fn draw_all(b: Seq<(MonoV, real)>, needs: Seq<(MonoV, real)>) -> Option<Seq<(MonoV, real)>>
    decreases needs.len(),
{
    if needs.len() == 0 {
        Some(b)
    } else {
        let (m, c) = needs.last();
        let r = draw(b, m, c, 0);
        if c > 0real && r.1 > 0real {
            None
        } else {
            draw_all(r.0, needs.drop_last())
        }
    }
}

pub open spec fn negated(t: Seq<(MonoV, real)>) -> Seq<(MonoV, real)> {
    Seq::new(t.len(), |i: int| (t[i].0, -t[i].1))
}

/// `q − p` has no negative coefficient, or the positive terms of `q` cover those of `p` and the
/// negative ones of `q`, largest first.
#[verifier::opaque]
pub open spec fn p_dominates(q: PolyV, p: PolyV) -> bool {
    no_negative(p_sub(q, p)) || match draw_all(q.terms, p.terms) {
        Some(b) => draw_all(b, negated(q.terms)) is Some,
        None => false,
    }
}

impl Mono {
    /// Whether every exponent is at least that of `small`.
    #[verifier::loop_isolation(false)]
    pub fn covers(&self, small: &Mono) -> (r: bool)
        ensures
            r == covers(self@, small@),
    {
        let mut i: usize = 0;
        while i < self.len()
            invariant
                i <= self@.factors.len(),
                forall|k: int| 0 <= k < i ==> value(self@.factors, (#[trigger] self@.factors[k]).0) >= value(
                    small@.factors,
                    self@.factors[k].0,
                ),
            decreases self@.factors.len() - i,
        {
            let a = self.atom_at(i);
            if self.exponent(a).side(&small.exponent(a)) == Side::Before {
                return false;
            }
            i += 1;
        }
        let mut j: usize = 0;
        while j < small.len()
            invariant
                j <= small@.factors.len(),
                forall|k: int| 0 <= k < j ==> value(self@.factors, (#[trigger] small@.factors[k]).0) >= value(
                    small@.factors,
                    small@.factors[k].0,
                ),
            decreases small@.factors.len() - j,
        {
            let a = small.atom_at(j);
            if self.exponent(a).side(&small.exponent(a)) == Side::Before {
                return false;
            }
            j += 1;
        }
        proof {
            assert forall|a: AtomV| #[trigger] value(self@.factors, a) >= value(small@.factors, a) by {
                if holds(self@.factors, a) {
                    crate::cost::assoc::slot_place(self@.factors, a);
                    let k = crate::cost::assoc::slot(self@.factors, a);
                    assert(self@.factors[k].0 == a);
                } else if holds(small@.factors, a) {
                    crate::cost::assoc::slot_place(small@.factors, a);
                    let k = crate::cost::assoc::slot(small@.factors, a);
                    assert(small@.factors[k].0 == a);
                }
            }
        }
        true
    }
}

spec fn budget_v(b: Seq<(&Mono, Rat)>) -> Seq<(MonoV, real)> {
    Seq::new(b.len(), |i: int| (b[i].0@, b[i].1@))
}

/// Draws a need from the budget; what is left of the need comes back.
#[verifier::loop_isolation(false)]
fn draw_one<'a>(b: &mut Vec<(&'a Mono, Rat)>, m: &Mono, c: Rat) -> (r: Rat)
    ensures
        (budget_v(final(b)@), r@) == draw(budget_v(old(b)@), m@, c@, 0),
{
    let ghost start = budget_v(b@);
    let ghost c0 = c@;
    let mut need = c;
    let mut i: usize = 0;
    while i < b.len()
        invariant
            i <= b@.len(),
            draw(start, m@, c0, 0) == draw(budget_v(b@), m@, need@, i as int),
        decreases b@.len() - i,
    {
        let ghost was = b@;
        if b[i].1.is_positive() && need.is_positive() && b[i].0.covers(m) {
            let take = if need.side(&b[i].1) == Side::Before {
                need.copy()
            } else {
                b[i].1.copy()
            };
            let left = b[i].1.sub(&take);
            let at = b[i].0;
            b.set(i, (at, left));
            proof {
                let g = gives(budget_v(was)[i as int], m@, need@);
                assert(budget_v(b@) =~= budget_v(was).update(i as int, (at@, left@)));
            }
            need = need.sub(&take);
        } else {
            proof {
                let bv = budget_v(was);
                assert(bv.update(i as int, (bv[i as int].0, bv[i as int].1 - 0real)) =~= bv);
            }
        }
        i += 1;
    }
    need
}

/// Does `q ≥ p` for every assignment of the size variables to values ≥ 1? True when `q − p`
/// has no negative coefficient, or when every term of `p` can be matched to a term of `q` with
/// at least its exponent in every variable and a coefficient budget at least as large — `B·n²`
/// covers `B·n` because `n ≥ 1`. What `q` subtracts has to be matched too. Undecided cases are
/// false: sound, not complete. Sizes of zero are the boundary the model does not distinguish.
#[verifier::loop_isolation(false)]
pub fn dominates(q: &Poly, p: &Poly) -> (r: bool)
    ensures
        r == p_dominates(q@, p@),
{
    proof {
        reveal(p_dominates);
    }
    let d = q.sub(p);
    let mut clear: bool = true;
    let mut i: usize = 0;
    while i < d.len()
        invariant
            i <= d@.terms.len(),
            clear == (forall|k: int| 0 <= k < i ==> (#[trigger] d@.terms[k]).1 >= 0real),
        decreases d@.terms.len() - i,
    {
        if d.coeff_at(i).is_negative() {
            clear = false;
            proof {
                assert(d@.terms[i as int].1 < 0real);
            }
        }
        i += 1;
    }
    if clear {
        return true;
    }
    // the terms of q, drawn on by the terms they cover
    let mut budget: Vec<(&Mono, Rat)> = Vec::new();
    let mut k: usize = 0;
    while k < q.len()
        invariant
            k <= q@.terms.len(),
            budget_v(budget@) =~= q@.terms.take(k as int),
        decreases q@.terms.len() - k,
    {
        let ghost was = budget@;
        let e = (q.mono_at(k), q.coeff_at(k).copy());
        budget.push(e);
        proof {
            assert(budget_v(budget@) =~= budget_v(was).push(q@.terms[k as int]));
        }
        k += 1;
    }
    proof {
        assert(q@.terms.take(k as int) =~= q@.terms);
        assert(p@.terms.take(p@.terms.len() as int) =~= p@.terms);
    }
    // largest terms first, so they take the budget they need
    let mut j: usize = p.len();
    while j > 0
        invariant
            j <= p@.terms.len(),
            draw_all(q@.terms, p@.terms) == draw_all(budget_v(budget@), p@.terms.take(j as int)),
        decreases j,
    {
        proof {
            assert(p@.terms.take(j as int).drop_last() =~= p@.terms.take(j - 1));
        }
        let c = p.coeff_at(j - 1);
        let left = draw_one(&mut budget, p.mono_at(j - 1), c.copy());
        if c.is_positive() && left.is_positive() {
            return false;
        }
        j -= 1;
    }
    let ghost after = budget_v(budget@);
    let ghost nq = negated(q@.terms);
    proof {
        assert(nq.take(nq.len() as int) =~= nq);
    }
    let mut l: usize = q.len();
    while l > 0
        invariant
            l <= q@.terms.len(),
            draw_all(after, nq) == draw_all(budget_v(budget@), nq.take(l as int)),
        decreases l,
    {
        proof {
            assert(nq.take(l as int).drop_last() =~= nq.take(l - 1));
        }
        let c = q.coeff_at(l - 1).neg();
        let left = draw_one(&mut budget, q.mono_at(l - 1), c.copy());
        if c.is_positive() && left.is_positive() {
            return false;
        }
        l -= 1;
    }
    true
}

// ---- conditions ----

/// The conditions can hold together: no `fits` on `ws₁` meets a `¬fits` on `ws₂ ≤ ws₁`.
pub open spec fn s_feasible(c: Seq<CondV>) -> bool {
    forall|i: int, j: int|
        #![trigger c[i], c[j]]
        0 <= i < c.len() && 0 <= j < c.len() && c[i].fits && !c[j].fits ==> !p_dominates(c[i].ws, c[j].ws)
}

/// Can these conditions hold together? A `fits` on `ws₁` and a `¬fits` on `ws₂ ≤ ws₁` cannot.
#[verifier::loop_isolation(false)]
pub fn feasible(conds: &[Cond]) -> (r: bool)
    ensures
        r == s_feasible(conds_v(conds@)),
{
    let ghost cv = conds_v(conds@);
    let mut i: usize = 0;
    while i < conds.len()
        invariant
            i <= conds@.len(),
            forall|a: int, b: int|
                #![trigger cv[a], cv[b]]
                0 <= a < i && 0 <= b < cv.len() && cv[a].fits && !cv[b].fits ==> !p_dominates(cv[a].ws, cv[b].ws),
        decreases conds@.len() - i,
    {
        if conds[i].fits {
            let mut j: usize = 0;
            while j < conds.len()
                invariant
                    j <= conds@.len(),
                    forall|b: int| 0 <= b < j && !(#[trigger] cv[b]).fits ==> !p_dominates(cv[i as int].ws, cv[b].ws),
                decreases conds@.len() - j,
            {
                if !conds[j].fits && dominates(&conds[i].ws, &conds[j].ws) {
                    proof {
                        assert(cv[i as int].fits && !cv[j as int].fits);
                    }
                    return false;
                }
                j += 1;
            }
        } else {
            proof {
                assert(!cv[i as int].fits);
            }
        }
        i += 1;
    }
    true
}

/// Conditions by their working sets, `¬fits` before `fits`.
pub open spec fn cond_side(a: CondV, b: CondV) -> Side {
    crate::cost::model::lex(poly_side(a.ws, b.ws), crate::cost::model::bool_side(a.fits, b.fits))
}

/// `c` put into an ordered list, unless it is there already.
pub open spec fn cond_insert(s: Seq<CondV>, c: CondV) -> Seq<CondV>
    decreases s.len(),
{
    if s.len() == 0 {
        seq![c]
    } else {
        match cond_side(s.last(), c) {
            Side::Before => s.push(c),
            Side::Same => s,
            Side::After => cond_insert(s.drop_last(), c).push(s.last()),
        }
    }
}

/// The conditions in order, each once.
pub open spec fn cond_set(s: Seq<CondV>) -> Seq<CondV>
    decreases s.len(),
{
    if s.len() == 0 {
        s
    } else {
        cond_insert(cond_set(s.drop_last()), s.last())
    }
}

/// `c` follows from `d`: a `fits` from a larger one, a `¬fits` from a smaller one.
pub open spec fn cond_implied(c: CondV, d: CondV) -> bool {
    &&& c != d
    &&& c.fits == d.fits
    &&& if c.fits {
        p_dominates(d.ws, c.ws)
    } else {
        p_dominates(c.ws, d.ws)
    }
}

pub open spec fn cond_needed(s: Seq<CondV>, c: CondV) -> bool {
    forall|j: int| 0 <= j < s.len() ==> !cond_implied(c, #[trigger] s[j])
}

/// The conditions among the first `n` that no other implies.
pub open spec fn needed_conds(s: Seq<CondV>, n: nat) -> Seq<CondV>
    decreases n,
{
    if n == 0 {
        Seq::empty()
    } else {
        let before = needed_conds(s, (n - 1) as nat);
        if cond_needed(s, s[n - 1]) {
            before.push(s[n - 1])
        } else {
            before
        }
    }
}

/// The conditions in order, each once, without those that others imply.
pub open spec fn s_simplify(s: Seq<CondV>) -> Seq<CondV> {
    needed_conds(cond_set(s), cond_set(s).len())
}

impl Cond {
    pub fn copy(&self) -> (r: Cond)
        ensures
            r@ == self@,
    {
        Cond { ws: self.ws.copy(), fits: self.fits }
    }

    pub fn side(&self, o: &Cond) -> (r: Side)
        ensures
            r == cond_side(self@, o@),
    {
        let a = self.ws.side(&o.ws);
        if a != Side::Same {
            return a;
        }
        if self.fits == o.fits {
            Side::Same
        } else if o.fits {
            Side::Before
        } else {
            Side::After
        }
    }

    pub fn same(&self, o: &Cond) -> (r: bool)
        ensures
            r == (self@ == o@),
    {
        self.fits == o.fits && self.ws.same(&o.ws)
    }

    /// Whether the other condition implies this one.
    fn implied_by(&self, o: &Cond) -> (r: bool)
        ensures
            r == cond_implied(self@, o@),
    {
        !self.same(o) && self.fits == o.fits && (if self.fits {
            dominates(&o.ws, &self.ws)
        } else {
            dominates(&self.ws, &o.ws)
        })
    }
}

pub fn copy_conds(s: &[Cond]) -> (r: Vec<Cond>)
    ensures
        conds_v(r@) == conds_v(s@),
{
    let mut out: Vec<Cond> = Vec::new();
    let mut i: usize = 0;
    while i < s.len()
        invariant
            i <= s@.len(),
            out@.len() == i,
            forall|k: int| 0 <= k < i ==> (#[trigger] out@[k])@ == s@[k]@,
        decreases s@.len() - i,
    {
        out.push(s[i].copy());
        i += 1;
    }
    proof {
        assert(conds_v(out@) =~= conds_v(s@));
    }
    out
}

#[verifier::loop_isolation(false)]
fn insert_cond(s: &mut Vec<Cond>, c: &Cond)
    ensures
        conds_v(final(s)@) == cond_insert(conds_v(old(s)@), c@),
{
    let ghost all = conds_v(s@);
    let n: usize = s.len();
    let mut i: usize = n;
    // the list ends up as what the first i entries become, followed by the rest
    proof {
        assert(all.take(n as int) =~= all);
        assert(all.skip(n as int) =~= Seq::empty());
        assert(cond_insert(all, c@) =~= cond_insert(all.take(n as int), c@) + all.skip(n as int));
    }
    while i > 0
        invariant
            i <= n,
            s@.len() == n,
            conds_v(s@) == all,
            cond_insert(all, c@) == cond_insert(all.take(i as int), c@) + all.skip(i as int),
        decreases i,
    {
        let side = s[i - 1].side(c);
        proof {
            assert(all.take(i as int).last() == all[i - 1]);
            assert(all.take(i as int).drop_last() =~= all.take(i - 1));
        }
        match side {
            Side::Before => {
                s.insert(i, c.copy());
                proof {
                    assert(conds_v(s@) =~= all.take(i as int).push(c@) + all.skip(i as int));
                }
                return;
            },
            Side::Same => {
                proof {
                    assert(all =~= all.take(i as int) + all.skip(i as int));
                }
                return;
            },
            Side::After => {
                proof {
                    assert(cond_insert(all.take(i - 1), c@).push(all[i - 1]) + all.skip(i as int) =~= cond_insert(
                        all.take(i - 1),
                        c@,
                    ) + all.skip(i - 1));
                }
            },
        }
        i -= 1;
    }
    s.insert(0, c.copy());
    proof {
        assert(all.take(0) =~= Seq::empty());
        assert(conds_v(s@) =~= seq![c@] + all.skip(0));
    }
}

/// Drop conditions implied by others: `fits ws₂` follows from `fits ws₁` when `ws₂ ≤ ws₁`, and
/// `¬fits ws₁` from `¬fits ws₂` likewise.
#[verifier::loop_isolation(false)]
fn simplify(conds: &[Cond]) -> (r: Vec<Cond>)
    ensures
        conds_v(r@) == s_simplify(conds_v(conds@)),
{
    let ghost given = conds_v(conds@);
    let mut set: Vec<Cond> = Vec::new();
    let mut i: usize = 0;
    proof {
        assert(given.take(0) =~= Seq::empty());
        assert(conds_v(set@) =~= Seq::empty());
    }
    while i < conds.len()
        invariant
            i <= conds@.len(),
            conds_v(set@) == cond_set(given.take(i as int)),
        decreases conds@.len() - i,
    {
        proof {
            assert(given.take(i + 1).drop_last() =~= given.take(i as int));
        }
        insert_cond(&mut set, &conds[i]);
        i += 1;
    }
    proof {
        assert(given.take(i as int) =~= given);
    }
    let ghost all = conds_v(set@);
    let mut out: Vec<Cond> = Vec::new();
    let mut k: usize = 0;
    proof {
        assert(conds_v(out@) =~= Seq::empty());
    }
    while k < set.len()
        invariant
            k <= set@.len(),
            conds_v(out@) == needed_conds(all, k as nat),
        decreases set@.len() - k,
    {
        let mut needed: bool = true;
        let mut j: usize = 0;
        while j < set.len()
            invariant
                j <= set@.len(),
                needed == (forall|l: int| 0 <= l < j ==> !cond_implied(all[k as int], #[trigger] all[l])),
            decreases set@.len() - j,
        {
            if set[k].implied_by(&set[j]) {
                needed = false;
                proof {
                    assert(cond_implied(all[k as int], all[j as int]));
                }
            }
            j += 1;
        }
        if needed {
            let ghost was = out@;
            out.push(set[k].copy());
            proof {
                assert(conds_v(out@) =~= conds_v(was).push(all[k as int]));
            }
        }
        k += 1;
    }
    out
}

// ---- pieces ----

/// Pieces with fewer conditions first, then by their polynomials.
pub open spec fn piece_side(a: PieceV, b: PieceV) -> Side {
    crate::cost::model::lex(
        crate::num::int_side(a.conds.len() as int, b.conds.len() as int),
        poly_side(a.poly, b.poly),
    )
}

/// `x` put into an ordered list, after its equals.
pub open spec fn piece_insert(s: Seq<PieceV>, x: PieceV) -> Seq<PieceV>
    decreases s.len(),
{
    if s.len() == 0 || piece_side(s.last(), x) != Side::After {
        s.push(x)
    } else {
        piece_insert(s.drop_last(), x).push(s.last())
    }
}

/// The pieces that can hold, with their conditions simplified, in order.
pub open spec fn able_pieces(s: Seq<PieceV>) -> Seq<PieceV>
    decreases s.len(),
{
    if s.len() == 0 {
        s
    } else {
        let before = able_pieces(s.drop_last());
        let x = s.last();
        if s_feasible(x.conds) {
            piece_insert(before, PieceV { conds: s_simplify(x.conds), poly: x.poly })
        } else {
            before
        }
    }
}

/// The list without pieces equal to the one before them.
pub open spec fn distinct(s: Seq<PieceV>) -> Seq<PieceV>
    decreases s.len(),
{
    if s.len() == 0 {
        s
    } else {
        let before = distinct(s.drop_last());
        if before.len() > 0 && before.last() == s.last() {
            before
        } else {
            before.push(s.last())
        }
    }
}

/// Every condition of `b` is one of `a`.
pub open spec fn fewer_conds(b: PieceV, a: PieceV) -> bool {
    forall|i: int| 0 <= i < b.conds.len() ==> a.conds.contains(#[trigger] b.conds[i])
}

/// Piece `j` makes piece `i` idle: it holds wherever `i` does and is at least as large.
pub open spec fn outdone(s: Seq<PieceV>, i: int, j: int) -> bool {
    &&& i != j
    &&& fewer_conds(s[j], s[i])
    &&& p_dominates(s[j].poly, s[i].poly)
    &&& s[j].conds.len() < s[i].conds.len() || s[j].poly != s[i].poly || j < i
}

pub open spec fn stands(s: Seq<PieceV>, i: int) -> bool {
    forall|j: int| 0 <= j < s.len() ==> !#[trigger] outdone(s, i, j)
}

pub open spec fn standing(s: Seq<PieceV>, n: nat) -> Seq<PieceV>
    decreases n,
{
    if n == 0 {
        Seq::empty()
    } else {
        let before = standing(s, (n - 1) as nat);
        if stands(s, n - 1) {
            before.push(s[n - 1])
        } else {
            before
        }
    }
}

pub open spec fn zero_piece() -> PieceV {
    PieceV { conds: Seq::empty(), poly: p_zero() }
}

/// The pieces that can hold and that no other outdoes.
#[verifier::opaque]
pub open spec fn c_prune(s: Seq<PieceV>) -> Seq<PieceV> {
    let d = distinct(able_pieces(s));
    let r = standing(d, d.len());
    if r.len() == 0 {
        seq![zero_piece()]
    } else {
        r
    }
}

impl Piece {
    pub fn copy(&self) -> (r: Piece)
        ensures
            r@ == self@,
    {
        Piece { conds: copy_conds(&self.conds), poly: self.poly.copy() }
    }

    fn side(&self, o: &Piece) -> (r: Side)
        ensures
            r == piece_side(self@, o@),
    {
        let (a, b): (usize, usize) = (self.conds.len(), o.conds.len());
        if a < b {
            Side::Before
        } else if a > b {
            Side::After
        } else {
            self.poly.side(&o.poly)
        }
    }

    pub fn same(&self, o: &Piece) -> (r: bool)
        ensures
            r == (self@ == o@),
    {
        if self.conds.len() != o.conds.len() {
            proof {
                assert(self@.conds.len() != o@.conds.len());
            }
            return false;
        }
        let mut i: usize = 0;
        while i < self.conds.len()
            invariant
                i <= self.conds@.len(),
                self.conds@.len() == o.conds@.len(),
                forall|k: int| 0 <= k < i ==> (#[trigger] self.conds@[k])@ == o.conds@[k]@,
            decreases self.conds@.len() - i,
        {
            if !self.conds[i].same(&o.conds[i]) {
                proof {
                    assert(self@.conds[i as int] != o@.conds[i as int]);
                }
                return false;
            }
            i += 1;
        }
        proof {
            assert(self@.conds =~= o@.conds);
        }
        self.poly.same(&o.poly)
    }

    /// Whether the piece has the condition.
    fn has_cond(&self, c: &Cond) -> (r: bool)
        ensures
            r == self@.conds.contains(c@),
    {
        has_cond(&self.conds, c)
    }

    /// Whether every condition of this piece is one of the other.
    fn has_fewer(&self, a: &Piece) -> (r: bool)
        ensures
            r == fewer_conds(self@, a@),
    {
        let mut i: usize = 0;
        while i < self.conds.len()
            invariant
                i <= self.conds@.len(),
                forall|k: int| 0 <= k < i ==> a@.conds.contains(#[trigger] self@.conds[k]),
            decreases self.conds@.len() - i,
        {
            if !a.has_cond(&self.conds[i]) {
                proof {
                    assert(!a@.conds.contains(self@.conds[i as int]));
                }
                return false;
            }
            i += 1;
        }
        true
    }
}

pub fn has_cond(s: &[Cond], c: &Cond) -> (r: bool)
    ensures
        r == conds_v(s@).contains(c@),
{
    let mut i: usize = 0;
    while i < s.len()
        invariant
            i <= s@.len(),
            forall|k: int| 0 <= k < i ==> (#[trigger] s@[k])@ != c@,
        decreases s@.len() - i,
    {
        if s[i].same(c) {
            proof {
                assert(conds_v(s@)[i as int] == c@);
            }
            return true;
        }
        i += 1;
    }
    proof {
        assert forall|k: int| 0 <= k < conds_v(s@).len() implies conds_v(s@)[k] != c@ by {
            assert(s@[k]@ != c@);
        }
    }
    false
}

#[verifier::loop_isolation(false)]
fn insert_piece(s: &mut Vec<Piece>, x: Piece)
    ensures
        pieces_v(final(s)@) == piece_insert(pieces_v(old(s)@), x@),
{
    let ghost all = pieces_v(s@);
    let ghost xv = x@;
    let n: usize = s.len();
    let mut i: usize = n;
    proof {
        assert(all.take(n as int) =~= all);
        assert(piece_insert(all, xv) =~= piece_insert(all.take(n as int), xv) + all.skip(n as int));
    }
    while i > 0 && s[i - 1].side(&x) == Side::After
        invariant
            i <= n,
            piece_insert(all, xv) == piece_insert(all.take(i as int), xv) + all.skip(i as int),
        decreases i,
    {
        proof {
            assert(all.take(i as int).last() == all[i - 1]);
            assert(all.take(i as int).drop_last() =~= all.take(i - 1));
            assert(piece_insert(all.take(i - 1), xv).push(all[i - 1]) + all.skip(i as int) =~= piece_insert(
                all.take(i - 1),
                xv,
            ) + all.skip(i - 1));
        }
        i -= 1;
    }
    s.insert(i, x);
    proof {
        if i > 0 {
            assert(all.take(i as int).last() == all[i - 1]);
        }
        assert(pieces_v(s@) =~= all.take(i as int).push(xv) + all.skip(i as int));
    }
}

impl Cost {
    pub fn zero() -> (r: Cost)
        ensures
            r@ == seq![zero_piece()],
    {
        Cost::poly(Poly::zero())
    }

    /// The cost of one unconditional piece.
    pub fn poly(p: Poly) -> (r: Cost)
        ensures
            r@ == c_poly(p@),
    {
        let mut pieces: Vec<Piece> = Vec::new();
        let piece = Piece { conds: Vec::new(), poly: p };
        proof {
            assert(piece@.conds =~= Seq::empty());
        }
        pieces.push(piece);
        let r = Cost { pieces };
        proof {
            assert(r@ =~= c_poly(p@));
        }
        r
    }

    pub fn constant(c: i128) -> (r: Cost)
        ensures
            r@ == c_poly(p_rat(c as real)),
    {
        Cost::poly(Poly::constant(c))
    }

    pub fn copy(&self) -> (r: Cost)
        ensures
            r@ == self@,
    {
        let mut pieces: Vec<Piece> = Vec::new();
        let mut i: usize = 0;
        while i < self.pieces.len()
            invariant
                i <= self.pieces@.len(),
                pieces@.len() == i,
                forall|k: int| 0 <= k < i ==> (#[trigger] pieces@[k])@ == self.pieces@[k]@,
            decreases self.pieces@.len() - i,
        {
            pieces.push(self.pieces[i].copy());
            i += 1;
        }
        let r = Cost { pieces };
        proof {
            assert(r@ =~= self@);
        }
        r
    }

    /// The one unconditional polynomial, when that is all there is.
    pub fn single(&self) -> (r: Option<&Poly>)
        ensures
            match r {
                Some(p) => self@.len() == 1 && self@[0].conds.len() == 0 && p@ == self@[0].poly,
                None => self@.len() != 1 || self@[0].conds.len() != 0,
            },
    {
        if self.pieces.len() == 1 && self.pieces[0].conds.len() == 0 {
            Some(&self.pieces[0].poly)
        } else {
            None
        }
    }

    pub fn is_zero(&self) -> (r: bool)
        ensures
            r == (forall|i: int| 0 <= i < self@.len() ==> (#[trigger] self@[i]).poly == p_zero()),
    {
        let mut i: usize = 0;
        while i < self.pieces.len()
            invariant
                i <= self.pieces@.len(),
                forall|k: int| 0 <= k < i ==> (#[trigger] self@[k]).poly == p_zero(),
            decreases self.pieces@.len() - i,
        {
            if !self.pieces[i].poly.is_zero() {
                proof {
                    assert(self@[i as int].poly != p_zero());
                }
                return false;
            }
            i += 1;
        }
        true
    }

    /// The cost with these pieces, pruned.
    pub fn from_pieces(pieces: Vec<Piece>) -> (r: Cost)
        ensures
            r@ == c_prune(pieces_v(pieces@)),
    {
        let mut c = Cost { pieces };
        c.prune();
        c
    }

    /// Remove infeasible pieces, duplicate pieces, and pieces another piece dominates wherever
    /// they apply (its conditions are a subset, its polynomial is at least as large).
    #[verifier::loop_isolation(false)]
    pub fn prune(&mut self)
        ensures
            final(self)@ == c_prune(old(self)@),
    {
        let ghost given = self@;
        proof {
            reveal(c_prune);
        }
        let mut able: Vec<Piece> = Vec::new();
        let mut i: usize = 0;
        proof {
            assert(given.take(0) =~= Seq::empty());
            assert(pieces_v(able@) =~= Seq::empty());
        }
        while i < self.pieces.len()
            invariant
                i <= given.len(),
                pieces_v(able@) == able_pieces(given.take(i as int)),
            decreases given.len() - i,
        {
            proof {
                assert(given.take(i + 1).drop_last() =~= given.take(i as int));
            }
            if feasible(&self.pieces[i].conds) {
                let p = Piece { conds: simplify(&self.pieces[i].conds), poly: self.pieces[i].poly.copy() };
                insert_piece(&mut able, p);
            }
            i += 1;
        }
        proof {
            assert(given.take(i as int) =~= given);
        }
        let ghost ordered = pieces_v(able@);
        let mut d: Vec<Piece> = Vec::new();
        let mut j: usize = 0;
        proof {
            assert(ordered.take(0) =~= Seq::empty());
            assert(pieces_v(d@) =~= Seq::empty());
        }
        while j < able.len()
            invariant
                j <= ordered.len(),
                pieces_v(d@) == distinct(ordered.take(j as int)),
            decreases ordered.len() - j,
        {
            proof {
                assert(ordered.take(j + 1).drop_last() =~= ordered.take(j as int));
                assert(ordered.take(j + 1).last() == able@[j as int]@);
            }
            let again: bool = d.len() > 0 && d[d.len() - 1].same(&able[j]);
            if !again {
                let ghost was = d@;
                d.push(able[j].copy());
                proof {
                    assert(pieces_v(d@) =~= pieces_v(was).push(able@[j as int]@));
                }
            }
            j += 1;
        }
        proof {
            assert(ordered.take(j as int) =~= ordered);
        }
        let ghost dv = pieces_v(d@);
        let mut out: Vec<Piece> = Vec::new();
        let mut k: usize = 0;
        proof {
            assert(pieces_v(out@) =~= Seq::empty());
        }
        while k < d.len()
            invariant
                k <= dv.len(),
                pieces_v(out@) == standing(dv, k as nat),
            decreases dv.len() - k,
        {
            let mut keep: bool = true;
            let mut l: usize = 0;
            while l < d.len()
                invariant
                    l <= dv.len(),
                    keep == (forall|x: int| 0 <= x < l ==> !#[trigger] outdone(dv, k as int, x)),
                decreases dv.len() - l,
            {
                let out_of: bool = k != l && d[l].has_fewer(&d[k]) && dominates(&d[l].poly, &d[k].poly) && (
                d[l].conds.len() < d[k].conds.len() || !d[l].poly.same(&d[k].poly) || l < k);
                proof {
                    assert(out_of == outdone(dv, k as int, l as int));
                }
                if out_of {
                    keep = false;
                }
                l += 1;
            }
            if keep {
                let ghost was = out@;
                out.push(d[k].copy());
                proof {
                    assert(pieces_v(out@) =~= pieces_v(was).push(dv[k as int]));
                }
            }
            k += 1;
        }
        if out.len() == 0 {
            let z = Cost::zero();
            self.pieces = z.pieces;
        } else {
            self.pieces = out;
        }
    }
}

pub open spec fn c_poly(p: PolyV) -> Seq<PieceV> {
    seq![PieceV { conds: Seq::empty(), poly: p }]
}

} // verus!
