//! Arithmetic on costs: every operation works piece by piece and prunes what it made.

use vstd::prelude::*;
use crate::cost::algebra::{p_add, p_mul, p_scale};
use crate::cost::forms::opt_int;
use crate::cost::model::PolyV;
use crate::cost::piece::{
    c_prune, conds_v, copy_conds, feasible, has_cond, pieces_v, s_feasible, Cond, CondV, Cost, Piece, PieceV,
};
use crate::cost::rat::Rat;
use crate::cost::size::Poly;
use crate::cost::subst::{larger, map_v, p_has_vars, p_max_var, p_mentions, p_subst_many};
use crate::cost::sums::p_sum_over;

verus! {

/// The sums of `a` with the first `n` pieces of `t` that can hold together with it.
pub open spec fn sum_row(a: PieceV, t: Seq<PieceV>) -> Seq<PieceV>
    decreases t.len(),
{
    if t.len() == 0 {
        Seq::empty()
    } else {
        let before = sum_row(a, t.drop_last());
        let b = t.last();
        if s_feasible(a.conds + b.conds) {
            before.push(PieceV { conds: a.conds + b.conds, poly: p_add(a.poly, b.poly) })
        } else {
            before
        }
    }
}

pub open spec fn sum_rows(s: Seq<PieceV>, t: Seq<PieceV>) -> Seq<PieceV>
    decreases s.len(),
{
    if s.len() == 0 {
        Seq::empty()
    } else {
        sum_rows(s.drop_last(), t) + sum_row(s.last(), t)
    }
}

/// The sum of two costs: every piece of one with every piece of the other.
pub open spec fn c_add(s: Seq<PieceV>, t: Seq<PieceV>) -> Seq<PieceV> {
    c_prune(sum_rows(s, t))
}

/// The larger of two costs.
pub open spec fn c_max(s: Seq<PieceV>, t: Seq<PieceV>) -> Seq<PieceV> {
    c_prune(s + t)
}

/// The pieces with `f` applied to their polynomials.
pub open spec fn with_polys(s: Seq<PieceV>, f: spec_fn(PolyV) -> PolyV) -> Seq<PieceV> {
    Seq::new(s.len(), |i: int| PieceV { conds: s[i].conds, poly: f(s[i].poly) })
}

pub open spec fn c_map(s: Seq<PieceV>, f: spec_fn(PolyV) -> PolyV) -> Seq<PieceV> {
    c_prune(with_polys(s, f))
}

pub open spec fn c_add_poly(s: Seq<PieceV>, p: PolyV) -> Seq<PieceV> {
    c_map(s, |q: PolyV| p_add(q, p))
}

pub open spec fn c_mul_poly(s: Seq<PieceV>, p: PolyV) -> Seq<PieceV> {
    c_map(s, |q: PolyV| p_mul(q, p))
}

pub open spec fn c_scale(s: Seq<PieceV>, r: real) -> Seq<PieceV> {
    c_map(s, |q: PolyV| p_scale(q, r))
}

pub open spec fn c_sum_over(s: Seq<PieceV>, atom: int, lo: PolyV, step: int, trip: PolyV) -> Seq<PieceV> {
    c_map(s, |q: PolyV| p_sum_over(q, atom, lo, step, trip))
}

pub open spec fn conds_subst(s: Seq<CondV>, map: Seq<(usize, PolyV)>) -> Seq<CondV> {
    Seq::new(s.len(), |i: int| CondV { ws: p_subst_many(s[i].ws, map), fits: s[i].fits })
}

/// The substitution made in polynomials and conditions.
pub open spec fn c_subst_many(s: Seq<PieceV>, map: Seq<(usize, PolyV)>) -> Seq<PieceV> {
    c_prune(
        Seq::new(
            s.len(),
            |i: int| PieceV { conds: conds_subst(s[i].conds, map), poly: p_subst_many(s[i].poly, map) },
        ),
    )
}

/// The piece shifted by `d` under the extra conditions, or as it was where they cannot hold.
pub open spec fn shifted_piece(p: PieceV, conds: Seq<CondV>, d: PolyV) -> PieceV {
    if s_feasible(p.conds + conds) {
        PieceV { conds: p.conds + conds, poly: p_add(p.poly, d) }
    } else {
        p
    }
}

pub open spec fn opposite(c: CondV) -> CondV {
    CondV { ws: c.ws, fits: !c.fits }
}

/// The piece as it was, once for each of the first `n` extra conditions that can fail.
pub open spec fn escapes(p: PieceV, conds: Seq<CondV>, n: nat) -> Seq<PieceV>
    decreases n,
{
    if n == 0 {
        Seq::empty()
    } else {
        let before = escapes(p, conds, (n - 1) as nat);
        let cs = p.conds.push(opposite(conds[n - 1]));
        if s_feasible(cs) {
            before.push(PieceV { conds: cs, poly: p.poly })
        } else {
            before
        }
    }
}

pub open spec fn all_escapes(s: Seq<PieceV>, conds: Seq<CondV>) -> Seq<PieceV>
    decreases s.len(),
{
    if s.len() == 0 {
        Seq::empty()
    } else {
        all_escapes(s.drop_last(), conds) + escapes(s.last(), conds, conds.len())
    }
}

/// Every piece shifted by `d` where the conditions hold, and as it was where one fails.
pub open spec fn c_add_under(s: Seq<PieceV>, conds: Seq<CondV>, d: PolyV) -> Seq<PieceV> {
    c_prune(Seq::new(s.len(), |i: int| shifted_piece(s[i], conds, d)) + all_escapes(s, conds))
}

/// The piece can hold under the conditions.
pub open spec fn compatible(p: PieceV, conds: Seq<CondV>) -> bool {
    &&& forall|i: int|
        0 <= i < p.conds.len() ==> conds.contains(#[trigger] p.conds[i]) || s_feasible(conds.push(p.conds[i]))
    &&& s_feasible(conds + p.conds)
}

pub open spec fn under_pieces(s: Seq<PieceV>, conds: Seq<CondV>) -> Seq<PieceV>
    decreases s.len(),
{
    if s.len() == 0 {
        Seq::empty()
    } else {
        let before = under_pieces(s.drop_last(), conds);
        let p = s.last();
        if compatible(p, conds) {
            before.push(PieceV { conds: conds + p.conds, poly: p.poly })
        } else {
            before
        }
    }
}

/// The pieces compatible with the conditions, with the conditions added.
pub open spec fn c_under(s: Seq<PieceV>, conds: Seq<CondV>) -> Seq<PieceV> {
    c_prune(under_pieces(s, conds))
}

pub open spec fn piece_mentions(p: PieceV, atom: int) -> bool {
    p_mentions(p.poly, atom) || exists|j: int| 0 <= j < p.conds.len() && p_mentions((#[trigger] p.conds[j]).ws, atom)
}

pub open spec fn pieces_max_var(s: Seq<PieceV>) -> Option<int>
    decreases s.len(),
{
    if s.len() == 0 {
        None
    } else {
        larger(pieces_max_var(s.drop_last()), p_max_var(s.last().poly))
    }
}

/// The two lists of conditions, one after the other.
pub fn joined(a: &[Cond], b: &[Cond]) -> (r: Vec<Cond>)
    ensures
        conds_v(r@) == conds_v(a@) + conds_v(b@),
{
    let mut out = copy_conds(a);
    let mut more = copy_conds(b);
    let ghost (x, y) = (out@, more@);
    out.append(&mut more);
    proof {
        assert(conds_v(out@) =~= conds_v(x) + conds_v(y));
    }
    out
}

/// The list with one more condition.
pub fn with_cond(a: &[Cond], c: Cond) -> (r: Vec<Cond>)
    ensures
        conds_v(r@) == conds_v(a@).push(c@),
{
    let mut out = copy_conds(a);
    let ghost x = out@;
    out.push(c);
    proof {
        assert(conds_v(out@) =~= conds_v(x).push(c@));
    }
    out
}

impl Cost {
    #[verifier::loop_isolation(false)]
    pub fn add(&self, o: &Cost) -> (r: Cost)
        ensures
            r@ == c_add(self@, o@),
    {
        let ghost (s, t) = (self@, o@);
        let mut out: Vec<Piece> = Vec::new();
        let mut i: usize = 0;
        proof {
            assert(s.take(0) =~= Seq::empty());
            assert(pieces_v(out@) =~= Seq::empty());
        }
        while i < self.pieces.len()
            invariant
                i <= s.len(),
                pieces_v(out@) == sum_rows(s.take(i as int), t),
            decreases s.len() - i,
        {
            let a = &self.pieces[i];
            let ghost start = pieces_v(out@);
            let mut j: usize = 0;
            proof {
                assert(t.take(0) =~= Seq::empty());
                assert(s.take(i + 1).drop_last() =~= s.take(i as int));
                assert(start + sum_row(a@, t.take(0)) =~= start);
            }
            while j < o.pieces.len()
                invariant
                    j <= t.len(),
                    pieces_v(out@) == start + sum_row(a@, t.take(j as int)),
                decreases t.len() - j,
            {
                let b = &o.pieces[j];
                proof {
                    assert(t.take(j + 1).drop_last() =~= t.take(j as int));
                }
                let conds = joined(&a.conds, &b.conds);
                if feasible(&conds) {
                    let ghost was = out@;
                    let piece = Piece { conds, poly: a.poly.add(&b.poly) };
                    let ghost pv = piece@;
                    out.push(piece);
                    proof {
                        assert(pieces_v(out@) =~= pieces_v(was).push(pv));
                        assert(pieces_v(was).push(pv) =~= start + sum_row(a@, t.take(j + 1)));
                    }
                }
                j += 1;
            }
            proof {
                assert(t.take(j as int) =~= t);
            }
            i += 1;
        }
        proof {
            assert(s.take(i as int) =~= s);
        }
        Cost::from_pieces(out)
    }

    pub fn max(&self, o: &Cost) -> (r: Cost)
        ensures
            r@ == c_max(self@, o@),
    {
        let mut out = self.copy().pieces;
        let mut more = o.copy().pieces;
        let ghost (x, y) = (out@, more@);
        out.append(&mut more);
        proof {
            assert(pieces_v(out@) =~= pieces_v(x) + pieces_v(y));
        }
        Cost::from_pieces(out)
    }

    /// The cost with `f` applied to every polynomial.
    #[verifier::loop_isolation(false)]
    pub fn map<F: Fn(&Poly) -> Poly>(&self, f: F) -> (r: Cost)
        requires
            forall|p: &Poly| #[trigger] f.requires((p,)),
        ensures
            exists|made: Seq<Poly>|
                #![trigger made.len()]
                made.len() == self.pieces@.len() && (forall|i: int|
                    0 <= i < made.len() ==> f.ensures((&self.pieces@[i].poly,), #[trigger] made[i])) && r@ == c_prune(
                    Seq::new(made.len(), |i: int| PieceV { conds: self@[i].conds, poly: made[i]@ }),
                ),
    {
        let mut out: Vec<Piece> = Vec::new();
        let ghost mut made: Seq<Poly> = Seq::empty();
        let mut i: usize = 0;
        while i < self.pieces.len()
            invariant
                i <= self.pieces@.len(),
                out@.len() == i,
                made.len() == i,
                forall|k: int| 0 <= k < i ==> f.ensures((&self.pieces@[k].poly,), #[trigger] made[k]),
                forall|k: int|
                    0 <= k < i ==> (#[trigger] out@[k])@ == (PieceV { conds: self@[k].conds, poly: made[k]@ }),
            decreases self.pieces@.len() - i,
        {
            let q = f(&self.pieces[i].poly);
            proof {
                made = made.push(q);
            }
            let piece = Piece { conds: copy_conds(&self.pieces[i].conds), poly: q };
            out.push(piece);
            i += 1;
        }
        proof {
            assert(pieces_v(out@) =~= Seq::new(
                made.len(),
                |i: int| PieceV { conds: self@[i].conds, poly: made[i]@ },
            ));
        }
        Cost::from_pieces(out)
    }

    pub fn add_poly(&self, p: &Poly) -> (r: Cost)
        ensures
            r@ == c_add_poly(self@, p@),
    {
        let ghost g = |q: PolyV| p_add(q, p@);
        let mut out: Vec<Piece> = Vec::new();
        let mut i: usize = 0;
        while i < self.pieces.len()
            invariant
                g == (|q: PolyV| p_add(q, p@)),
                i <= self.pieces@.len(),
                out@.len() == i,
                forall|k: int| 0 <= k < i ==> (#[trigger] out@[k])@ == with_polys(self@, g)[k],
            decreases self.pieces@.len() - i,
        {
            let poly = self.pieces[i].poly.add(p);
            out.push(Piece { conds: copy_conds(&self.pieces[i].conds), poly });
            i += 1;
        }
        proof {
            assert(pieces_v(out@) =~= with_polys(self@, g));
        }
        Cost::from_pieces(out)
    }

    pub fn mul_poly(&self, p: &Poly) -> (r: Cost)
        ensures
            r@ == c_mul_poly(self@, p@),
    {
        let ghost g = |q: PolyV| p_mul(q, p@);
        let mut out: Vec<Piece> = Vec::new();
        let mut i: usize = 0;
        while i < self.pieces.len()
            invariant
                g == (|q: PolyV| p_mul(q, p@)),
                i <= self.pieces@.len(),
                out@.len() == i,
                forall|k: int| 0 <= k < i ==> (#[trigger] out@[k])@ == with_polys(self@, g)[k],
            decreases self.pieces@.len() - i,
        {
            let poly = self.pieces[i].poly.mul(p);
            out.push(Piece { conds: copy_conds(&self.pieces[i].conds), poly });
            i += 1;
        }
        proof {
            assert(pieces_v(out@) =~= with_polys(self@, g));
        }
        Cost::from_pieces(out)
    }

    pub fn scale(&self, c: &Rat) -> (r: Cost)
        ensures
            r@ == c_scale(self@, c@),
    {
        let ghost g = |q: PolyV| p_scale(q, c@);
        let mut out: Vec<Piece> = Vec::new();
        let mut i: usize = 0;
        while i < self.pieces.len()
            invariant
                g == (|q: PolyV| p_scale(q, c@)),
                i <= self.pieces@.len(),
                out@.len() == i,
                forall|k: int| 0 <= k < i ==> (#[trigger] out@[k])@ == with_polys(self@, g)[k],
            decreases self.pieces@.len() - i,
        {
            let poly = self.pieces[i].poly.scale(c);
            out.push(Piece { conds: copy_conds(&self.pieces[i].conds), poly });
            i += 1;
        }
        proof {
            assert(pieces_v(out@) =~= with_polys(self@, g));
        }
        Cost::from_pieces(out)
    }

    pub fn sum_over(&self, atom: usize, lo: &Poly, step: i128, trip: &Poly) -> (r: Cost)
        ensures
            r@ == c_sum_over(self@, atom as int, lo@, step as int, trip@),
    {
        let ghost g = |q: PolyV| p_sum_over(q, atom as int, lo@, step as int, trip@);
        let mut out: Vec<Piece> = Vec::new();
        let mut i: usize = 0;
        while i < self.pieces.len()
            invariant
                g == (|q: PolyV| p_sum_over(q, atom as int, lo@, step as int, trip@)),
                i <= self.pieces@.len(),
                out@.len() == i,
                forall|k: int| 0 <= k < i ==> (#[trigger] out@[k])@ == with_polys(self@, g)[k],
            decreases self.pieces@.len() - i,
        {
            let poly = self.pieces[i].poly.sum_over(atom, lo, step, trip);
            out.push(Piece { conds: copy_conds(&self.pieces[i].conds), poly });
            i += 1;
        }
        proof {
            assert(pieces_v(out@) =~= with_polys(self@, g));
        }
        Cost::from_pieces(out)
    }

    /// Substitution reaches into the conditions too.
    #[verifier::loop_isolation(false)]
    pub fn subst_many(&self, map: &[(usize, Poly)]) -> (r: Cost)
        ensures
            r@ == c_subst_many(self@, map_v(map@)),
    {
        let ghost mv = map_v(map@);
        let mut out: Vec<Piece> = Vec::new();
        let mut i: usize = 0;
        while i < self.pieces.len()
            invariant
                i <= self.pieces@.len(),
                out@.len() == i,
                forall|k: int|
                    0 <= k < i ==> (#[trigger] out@[k])@ == (PieceV {
                        conds: conds_subst(self@[k].conds, mv),
                        poly: p_subst_many(self@[k].poly, mv),
                    }),
            decreases self.pieces@.len() - i,
        {
            let conds = subst_conds(&self.pieces[i].conds, map);
            out.push(Piece { conds, poly: self.pieces[i].poly.subst_many(map) });
            i += 1;
        }
        proof {
            assert(pieces_v(out@) =~= Seq::new(
                self@.len(),
                |i: int| PieceV { conds: conds_subst(self@[i].conds, mv), poly: p_subst_many(self@[i].poly, mv) },
            ));
        }
        Cost::from_pieces(out)
    }

    pub fn subst(&self, var: usize, by: &Poly) -> (r: Cost)
        ensures
            r@ == c_subst_many(self@, seq![(var, by@)]),
    {
        let mut map: Vec<(usize, Poly)> = Vec::new();
        map.push((var, by.copy()));
        proof {
            assert(map_v(map@) =~= seq![(var, by@)]);
        }
        self.subst_many(&map)
    }

    /// Every piece's polynomial shifted by `d` (a credit is a negative `d`), under extra conditions.
    /// Pieces where the extra conditions fail keep their old value.
    #[verifier::loop_isolation(false)]
    pub fn add_under(&self, conds: &[Cond], d: &Poly) -> (r: Cost)
        ensures
            r@ == c_add_under(self@, conds_v(conds@), d@),
    {
        let ghost (s, cv) = (self@, conds_v(conds@));
        let mut out: Vec<Piece> = Vec::new();
        let mut i: usize = 0;
        while i < self.pieces.len()
            invariant
                i <= s.len(),
                out@.len() == i,
                forall|k: int| 0 <= k < i ==> (#[trigger] out@[k])@ == shifted_piece(s[k], cv, d@),
            decreases s.len() - i,
        {
            let p = &self.pieces[i];
            let cs = joined(&p.conds, conds);
            if feasible(&cs) {
                out.push(Piece { conds: cs, poly: p.poly.add(d) });
            } else {
                out.push(p.copy());
            }
            i += 1;
        }
        let ghost moved = Seq::new(s.len(), |i: int| shifted_piece(s[i], cv, d@));
        proof {
            assert(pieces_v(out@) =~= moved);
            assert(s.take(0) =~= Seq::empty());
            assert(moved + all_escapes(s.take(0), cv) =~= moved);
        }
        let mut j: usize = 0;
        while j < self.pieces.len()
            invariant
                j <= s.len(),
                pieces_v(out@) == moved + all_escapes(s.take(j as int), cv),
            decreases s.len() - j,
        {
            let p = &self.pieces[j];
            let ghost start = pieces_v(out@);
            let mut k: usize = 0;
            proof {
                assert(s.take(j + 1).drop_last() =~= s.take(j as int));
                assert(start + escapes(p@, cv, 0) =~= start);
            }
            while k < conds.len()
                invariant
                    k <= cv.len(),
                    pieces_v(out@) == start + escapes(p@, cv, k as nat),
                decreases cv.len() - k,
            {
                let cs = with_cond(&p.conds, Cond { ws: conds[k].ws.copy(), fits: !conds[k].fits });
                proof {
                    assert(conds_v(cs@) == p@.conds.push(opposite(cv[k as int])));
                }
                if feasible(&cs) {
                    let ghost was = out@;
                    let piece = Piece { conds: cs, poly: p.poly.copy() };
                    let ghost pv = piece@;
                    out.push(piece);
                    proof {
                        assert(pieces_v(out@) =~= pieces_v(was).push(pv));
                        assert(pieces_v(was).push(pv) =~= start + escapes(p@, cv, (k + 1) as nat));
                    }
                }
                k += 1;
            }
            proof {
                assert(moved + all_escapes(s.take(j as int), cv) + escapes(p@, cv, cv.len()) =~= moved + all_escapes(
                    s.take(j + 1),
                    cv,
                ));
            }
            j += 1;
        }
        proof {
            assert(s.take(j as int) =~= s);
        }
        Cost::from_pieces(out)
    }

    /// Restrict to pieces compatible with `conds` and add `conds` to them.
    #[verifier::loop_isolation(false)]
    pub fn under(&self, conds: &[Cond]) -> (r: Cost)
        ensures
            r@ == c_under(self@, conds_v(conds@)),
    {
        let ghost (s, cv) = (self@, conds_v(conds@));
        let mut out: Vec<Piece> = Vec::new();
        let mut i: usize = 0;
        proof {
            assert(s.take(0) =~= Seq::empty());
            assert(pieces_v(out@) =~= Seq::empty());
        }
        while i < self.pieces.len()
            invariant
                i <= s.len(),
                pieces_v(out@) == under_pieces(s.take(i as int), cv),
            decreases s.len() - i,
        {
            let p = &self.pieces[i];
            proof {
                assert(s.take(i + 1).drop_last() =~= s.take(i as int));
                assert(s.take(i + 1).last() == p@);
            }
            let mut each: bool = true;
            let mut j: usize = 0;
            while j < p.conds.len()
                invariant
                    j <= p.conds@.len(),
                    each == (forall|k: int|
                        0 <= k < j ==> cv.contains(#[trigger] p@.conds[k]) || s_feasible(cv.push(p@.conds[k]))),
                decreases p.conds@.len() - j,
            {
                let ok: bool = has_cond(conds, &p.conds[j]) || feasible(&with_cond(conds, p.conds[j].copy()));
                proof {
                    assert(ok == (cv.contains(p@.conds[j as int]) || s_feasible(cv.push(p@.conds[j as int]))));
                }
                if !ok {
                    each = false;
                }
                j += 1;
            }
            let cs = joined(conds, &p.conds);
            if each && feasible(&cs) {
                let ghost was = out@;
                let piece = Piece { conds: cs, poly: p.poly.copy() };
                let ghost pv = piece@;
                out.push(piece);
                proof {
                    assert(pieces_v(out@) =~= pieces_v(was).push(pv));
                }
            }
            i += 1;
        }
        proof {
            assert(s.take(i as int) =~= s);
        }
        Cost::from_pieces(out)
    }

    pub fn has_vars(&self) -> (r: bool)
        ensures
            r == (exists|i: int| 0 <= i < self@.len() && p_has_vars((#[trigger] self@[i]).poly)),
    {
        let mut i: usize = 0;
        while i < self.pieces.len()
            invariant
                i <= self@.len(),
                forall|k: int| 0 <= k < i ==> !p_has_vars((#[trigger] self@[k]).poly),
            decreases self@.len() - i,
        {
            if self.pieces[i].poly.has_vars() {
                proof {
                    assert(p_has_vars(self@[i as int].poly));
                }
                return true;
            }
            i += 1;
        }
        false
    }

    pub fn mentions(&self, atom: usize) -> (r: bool)
        ensures
            r == (exists|i: int| 0 <= i < self@.len() && piece_mentions(#[trigger] self@[i], atom as int)),
    {
        let mut i: usize = 0;
        while i < self.pieces.len()
            invariant
                i <= self@.len(),
                forall|k: int| 0 <= k < i ==> !piece_mentions(#[trigger] self@[k], atom as int),
            decreases self@.len() - i,
        {
            let p = &self.pieces[i];
            if p.poly.mentions(atom) {
                proof {
                    assert(piece_mentions(self@[i as int], atom as int));
                }
                return true;
            }
            let mut j: usize = 0;
            while j < p.conds.len()
                invariant
                    i < self@.len(),
                    p@ == self@[i as int],
                    j <= p.conds@.len(),
                    forall|k: int| 0 <= k < j ==> !p_mentions((#[trigger] p@.conds[k]).ws, atom as int),
                decreases p.conds@.len() - j,
            {
                if p.conds[j].ws.mentions(atom) {
                    proof {
                        assert(p_mentions(p@.conds[j as int].ws, atom as int));
                        assert(piece_mentions(self@[i as int], atom as int));
                    }
                    return true;
                }
                j += 1;
            }
            i += 1;
        }
        false
    }

    pub fn max_var(&self) -> (r: Option<usize>)
        ensures
            opt_int(r) == pieces_max_var(self@),
    {
        let ghost s = self@;
        let mut best: Option<usize> = None;
        let mut i: usize = 0;
        proof {
            assert(s.take(0) =~= Seq::empty());
        }
        while i < self.pieces.len()
            invariant
                s == self@,
                i <= s.len(),
                opt_int(best) == pieces_max_var(s.take(i as int)),
            decreases s.len() - i,
        {
            proof {
                assert(s.take(i + 1).drop_last() =~= s.take(i as int));
            }
            let x = self.pieces[i].poly.max_var();
            best = match (best, x) {
                (Some(a), Some(b)) => Some(if a < b { b } else { a }),
                (Some(a), None) => Some(a),
                (None, _) => x,
            };
            i += 1;
        }
        proof {
            assert(s.take(i as int) =~= s);
        }
        best
    }
}

/// The conditions with the substitution made in their working sets.
pub fn subst_conds(s: &[Cond], map: &[(usize, Poly)]) -> (r: Vec<Cond>)
    ensures
        conds_v(r@) == conds_subst(conds_v(s@), map_v(map@)),
{
    let mut out: Vec<Cond> = Vec::new();
    let mut i: usize = 0;
    while i < s.len()
        invariant
            i <= s@.len(),
            out@.len() == i,
            forall|k: int|
                0 <= k < i ==> (#[trigger] out@[k])@ == (CondV {
                    ws: p_subst_many(s@[k].ws@, map_v(map@)),
                    fits: s@[k].fits,
                }),
        decreases s@.len() - i,
    {
        out.push(Cond { ws: s[i].ws.subst_many(map), fits: s[i].fits });
        i += 1;
    }
    proof {
        assert(conds_v(out@) =~= conds_subst(conds_v(s@), map_v(map@)));
    }
    out
}

} // verus!
