//! Expressions read as sizes and as affine indices, and sums over loops.

use vstd::prelude::*;
use crate::ast::{views, BinOp};
use crate::cost::affine::{f_add, f_const, f_scale, f_var, opt_affine, Affine, AffineV};
use crate::cost::algebra::{p_add, p_mul, p_rat, p_scale, p_sub, p_var};
use crate::cost::costs::{c_mul_poly, c_sum_over};
use crate::cost::forms::{opt_poly, opt_real, p_const, p_inv};
use crate::cost::machine::{poly_at, Machine};
use crate::cost::model::PolyV;
use crate::cost::piece::{Cost, PieceV};
use crate::cost::rat::{whole, Rat};
use crate::cost::scope::{local_of, Cx, Known, LoopRec, LoopV, RecV, Walk, WalkV};
use crate::cost::size::Poly;
use crate::cost::sums::p_sum_over;
use crate::ir::{block_lists, expr_parts, Expr, ExprKind, ExprV, FuncV, KindV, Ty};
use crate::irsize::{block_shrinks, expr_shrinks, expr_size};

verus! {

/// The value of a polynomial with `B` and `M` at their machine values, if it has no size
/// variables. The fit test and the stride test are decided with this.
pub open spec fn numeric(k: Machine, p: PolyV) -> Option<real> {
    poly_at(p.terms, k, None)
}

pub fn value_of(k: &Machine, p: &Poly) -> (r: Option<Rat>)
    requires
        k.ok(),
    ensures
        opt_real(r) == numeric(*k, p@),
{
    p.value_at(k, &None)
}

// ---- sums over loops ----

/// `Σ` of `p` over a loop's iterations: exact over the atom, `× trip` when it has none.
pub open spec fn rec_sum(r: RecV, p: PolyV) -> PolyV {
    match r.atom {
        Some(a) => p_sum_over(p, a as int, r.lo, r.step, r.trip),
        None => p_mul(p, r.trip),
    }
}

pub open spec fn rec_sum_cost(r: RecV, c: Seq<PieceV>) -> Seq<PieceV> {
    match r.atom {
        Some(a) => c_sum_over(c, a as int, r.lo, r.step, r.trip),
        None => c_mul_poly(c, r.trip),
    }
}

/// The loop variable's last value.
pub open spec fn rec_last(r: RecV) -> PolyV {
    p_add(r.lo, p_scale(p_sub(r.trip, p_rat(1real)), r.step as real))
}

pub open spec fn rec_of(l: LoopV) -> RecV {
    RecV { var: l.var, atom: l.atom, trip: l.trip, lo: l.lo, step: l.step }
}

impl LoopRec {
    pub fn sum(&self, p: &Poly) -> (r: Poly)
        ensures
            r@ == rec_sum(self@, p@),
    {
        match self.atom {
            Some(a) => p.sum_over(a, &self.lo, self.step, &self.trip),
            None => p.mul(&self.trip),
        }
    }

    pub fn sum_cost(&self, c: &Cost) -> (r: Cost)
        ensures
            r@ == rec_sum_cost(self@, c@),
    {
        match self.atom {
            Some(a) => c.sum_over(a, &self.lo, self.step, &self.trip),
            None => c.mul_poly(&self.trip),
        }
    }

    pub fn last(&self) -> (r: Poly)
        ensures
            r@ == rec_last(self@),
    {
        self.lo.add(&self.trip.sub(&Poly::constant(1)).scale(&Rat::integer(self.step)))
    }
}

/// `Σ` of `p` over the last `n` loops, innermost first.
pub open spec fn sum_out(loops: Seq<LoopV>, n: nat, p: PolyV) -> PolyV
    decreases n,
{
    if n == 0 || n > loops.len() {
        p
    } else {
        rec_sum(rec_of(loops[loops.len() - n]), sum_out(loops, (n - 1) as nat, p))
    }
}

/// How many times the current point runs per invocation: `Σ` of 1 over the enclosing loops,
/// innermost first — the product of the trips when they are independent, the exact count
/// when an inner bound mentions an outer variable.
pub open spec fn times_of(loops: Seq<LoopV>) -> PolyV {
    sum_out(loops, loops.len(), p_rat(1real))
}

// ---- size expressions ----

/// The outermost open loop over a local.
pub open spec fn loop_of(loops: Seq<LoopV>, l: usize) -> Option<LoopV>
    decreases loops.len(),
{
    if loops.len() == 0 {
        None
    } else if loops[0].var == Some(l) {
        Some(loops[0])
    } else {
        loop_of(loops.drop_first(), l)
    }
}

/// The one value a mutable local holds, when exactly one definition reaches.
pub open spec fn entry_value(t: Known<Option<Seq<PolyV>>>, l: usize) -> Option<PolyV> {
    match t(l) {
        Some(Some(vs)) => if vs.len() == 1 {
            Some(vs[0])
        } else {
            None
        },
        _ => None,
    }
}

pub open spec fn p_add_opt(a: Option<PolyV>, b: Option<PolyV>) -> Option<PolyV> {
    match (a, b) {
        (Some(x), Some(y)) => Some(p_add(x, y)),
        _ => None,
    }
}

pub open spec fn p_sub_opt(a: Option<PolyV>, b: Option<PolyV>) -> Option<PolyV> {
    match (a, b) {
        (Some(x), Some(y)) => Some(p_sub(x, y)),
        _ => None,
    }
}

pub open spec fn p_mul_opt(a: Option<PolyV>, b: Option<PolyV>) -> Option<PolyV> {
    match (a, b) {
        (Some(x), Some(y)) => Some(p_mul(x, y)),
        _ => None,
    }
}

/// What a local reads as: its loop's atom, the value it had on entry, or the constant it is.
pub open spec fn local_size(f: FuncV, w: WalkV, l: usize, entry: bool) -> Option<PolyV> {
    match loop_of(w.loops, l) {
        Some(lp) => match lp.atom {
            Some(a) => Some(p_var(a as int)),
            None => None,
        },
        None => if entry && local_of(f, l).mutable {
            entry_value(w.initial, l)
        } else {
            match (w.affines)(l) {
                Some(a) => if a.coeffs.len() == 0 {
                    Some(a.konst)
                } else {
                    None
                },
                None => None,
            }
        },
    }
}

/// A divisor: a whole number other than zero divides exactly; a symbolic divisor that is one
/// product divides as its inverse.
pub open spec fn divisor(p: PolyV) -> Option<PolyV> {
    match p_const(p) {
        Some(d) => if d == 0real || !whole(d) {
            None
        } else {
            Some(p_rat(1real / d))
        },
        None => p_inv(p),
    }
}

/// An `i64` expression as a size polynomial: literals, size parameters, `.len()`, immutable
/// lets bound to such, `+ - *` of them, and loop variables as their atoms — so a triangular
/// bound `i..n` is the exact `n − i`, summed when the outer loop is left. The direction only
/// decides which side of a `min`/`max` to take: `min` is bounded above by either argument and
/// `max` below by either, so the first that is a size stands.
pub open spec fn size_of(f: FuncV, w: WalkV, e: ExprV, upper: bool, entry: bool) -> Option<PolyV>
    decreases e,
{
    match e.kind {
        KindV::Int(v) => Some(p_rat(v as real)),
        KindV::Local(l) => local_size(f, w, l, entry),
        KindV::Len(l) => (w.sizes)(l),
        KindV::Cast(a, t) => if t is I64 {
            size_of(f, w, *a, upper, entry)
        } else {
            None
        },
        KindV::MinMax(min, a, b) => if min == upper {
            match size_of(f, w, *a, upper, entry) {
                Some(p) => Some(p),
                None => size_of(f, w, *b, upper, entry),
            }
        } else {
            None
        },
        KindV::Binary(op, a, b) => match op {
            BinOp::Add => p_add_opt(size_of(f, w, *a, upper, entry), size_of(f, w, *b, upper, entry)),
            BinOp::Sub => p_sub_opt(size_of(f, w, *a, upper, entry), size_of(f, w, *b, !upper, entry)),
            BinOp::Mul => p_mul_opt(size_of(f, w, *a, upper, entry), size_of(f, w, *b, upper, entry)),
            BinOp::Div => match size_of(f, w, *b, upper, entry) {
                Some(p) => p_mul_opt(size_of(f, w, *a, upper, entry), divisor(p)),
                None => None,
            },
            _ => None,
        },
        KindV::Block(b) => if b.stmts.len() == 0 {
            match b.tail {
                Some(t) => size_of(f, w, *t, upper, entry),
                None => None,
            }
        } else {
            None
        },
        _ => None,
    }
}

/// What a local reads as in an index.
pub open spec fn local_affine(w: WalkV, l: usize) -> Option<AffineV> {
    match loop_of(w.loops, l) {
        Some(lp) => match lp.offset {
            Some(off) => Some(f_add(f_var(l), off)),
            None => None,
        },
        None => (w.affines)(l),
    }
}

pub open spec fn f_mul(a: AffineV, b: AffineV) -> Option<AffineV> {
    if a.coeffs.len() == 0 {
        Some(f_scale(b, a.konst))
    } else if b.coeffs.len() == 0 {
        Some(f_scale(a, b.konst))
    } else {
        None
    }
}

pub open spec fn f_div(a: AffineV, b: AffineV) -> Option<AffineV> {
    if b.coeffs.len() == 0 {
        match divisor(b.konst) {
            Some(d) => Some(f_scale(a, d)),
            None => None,
        }
    } else {
        None
    }
}

/// An index expression as an affine function of the loop variables in scope. The lesser of two
/// reads as its first argument: the tile bound, the rectangular hull of the rest.
pub open spec fn affine_of(w: WalkV, e: ExprV) -> Option<AffineV>
    decreases e,
{
    match e.kind {
        KindV::Int(v) => Some(f_const(p_rat(v as real))),
        KindV::Local(l) => local_affine(w, l),
        KindV::Len(l) => match (w.sizes)(l) {
            Some(p) => Some(f_const(p)),
            None => None,
        },
        KindV::Cast(a, t) => if t is I64 {
            affine_of(w, *a)
        } else {
            None
        },
        KindV::MinMax(min, a, _) => if min {
            affine_of(w, *a)
        } else {
            None
        },
        KindV::Binary(op, a, b) => match (affine_of(w, *a), affine_of(w, *b)) {
            (Some(x), Some(y)) => match op {
                BinOp::Add => Some(f_add(x, y)),
                BinOp::Sub => Some(f_add(x, f_scale(y, p_rat(-1real)))),
                BinOp::Mul => f_mul(x, y),
                BinOp::Div => f_div(x, y),
                _ => None,
            },
            _ => None,
        },
        KindV::Block(b) => if b.stmts.len() == 0 {
            match b.tail {
                Some(t) => affine_of(w, *t),
                None => None,
            }
        } else {
            None
        },
        _ => None,
    }
}

fn divisor_of(p: &Poly) -> (r: Option<Poly>)
    ensures
        opt_poly(r) == divisor(p@),
{
    match p.as_const() {
        Some(d) => {
            if d.is_zero() || !d.is_int() {
                None
            } else {
                Some(Poly::from_rat(Rat::one().over(&d)))
            }
        },
        None => p.inv_mono(),
    }
}

fn opt_mul(a: Option<Poly>, b: Option<Poly>) -> (r: Option<Poly>)
    ensures
        opt_poly(r) == p_mul_opt(opt_poly(a), opt_poly(b)),
{
    match (a, b) {
        (Some(x), Some(y)) => Some(x.mul(&y)),
        _ => None,
    }
}

impl<'a> Walk<'a> {
    /// The outermost open loop over a local.
    pub fn find_loop(&self, l: usize) -> (r: Option<usize>)
        ensures
            match r {
                Some(i) => i < self.loops@.len() && loop_of(self@.loops, l) == Some(self.loops@[i as int]@),
                None => loop_of(self@.loops, l) is None,
            },
    {
        let ghost v = self@.loops;
        let mut i: usize = 0;
        assert(v.skip(0) =~= v);
        while i < self.loops.len()
            invariant
                i <= self.loops@.len(),
                v == views(self.loops@),
                loop_of(v, l) == loop_of(v.skip(i as int), l),
            decreases self.loops@.len() - i,
        {
            proof {
                assert(v.skip(i as int)[0] == v[i as int]);
                assert(v.skip(i as int).drop_first() =~= v.skip(i + 1));
            }
            match self.loops[i].var {
                Some(x) => {
                    if x == l {
                        return Some(i);
                    }
                },
                None => {},
            }
            i += 1;
        }
        None
    }

    /// The one value a mutable local holds, when exactly one definition reaches.
    pub fn entry_value(&self, l: usize) -> (r: Option<Poly>)
        ensures
            opt_poly(r) == entry_value(self@.initial, l),
    {
        match self.initial.get(l) {
            Some(v) => match &v.of {
                Some(vs) => {
                    if vs.len() == 1 {
                        assert(views(vs@)[0] == vs@[0]@);
                        Some(vs[0].copy())
                    } else {
                        None
                    }
                },
                None => None,
            },
            None => None,
        }
    }

    fn local_size(&self, cx: &Cx, l: usize, entry: bool) -> (r: Option<Poly>)
        ensures
            opt_poly(r) == local_size(cx@.f, self@, l, entry),
    {
        match self.find_loop(l) {
            Some(i) => match self.loops[i].atom {
                Some(a) => Some(Poly::var(a)),
                None => None,
            },
            None => {
                if entry && cx.is_mutable(l) {
                    self.entry_value(l)
                } else {
                    match self.affines.get(l) {
                        Some(a) => {
                            if a.is_const() {
                                Some(a.konst.copy())
                            } else {
                                None
                            }
                        },
                        None => None,
                    }
                }
            },
        }
    }

    pub fn size_of(&self, cx: &Cx, e: &Expr, upper: bool, entry: bool) -> (r: Option<Poly>)
        ensures
            opt_poly(r) == size_of(cx@.f, self@, e@, upper, entry),
        decreases expr_size(e@),
    {
        proof {
            expr_parts(*e);
            expr_shrinks(e@);
        }
        match &e.kind {
            ExprKind::Int(v) => Some(Poly::constant(*v as i128)),
            ExprKind::Local(l) => self.local_size(cx, *l, entry),
            ExprKind::Len(l) => match self.sizes.get(*l) {
                Some(p) => Some(p.copy()),
                None => None,
            },
            ExprKind::Cast(a, t) => {
                if matches!(t, Ty::I64) {
                    self.size_of(cx, a, upper, entry)
                } else {
                    None
                }
            },
            ExprKind::MinMax(min, a, b) => {
                if *min == upper {
                    match self.size_of(cx, a, upper, entry) {
                        Some(p) => Some(p),
                        None => self.size_of(cx, b, upper, entry),
                    }
                } else {
                    None
                }
            },
            ExprKind::Binary(op, a, b) => match op {
                BinOp::Add => match (self.size_of(cx, a, upper, entry), self.size_of(cx, b, upper, entry)) {
                    (Some(x), Some(y)) => Some(x.add(&y)),
                    _ => None,
                },
                BinOp::Sub => match (self.size_of(cx, a, upper, entry), self.size_of(cx, b, !upper, entry)) {
                    (Some(x), Some(y)) => Some(x.sub(&y)),
                    _ => None,
                },
                BinOp::Mul => opt_mul(self.size_of(cx, a, upper, entry), self.size_of(cx, b, upper, entry)),
                BinOp::Div => match self.size_of(cx, b, upper, entry) {
                    Some(p) => opt_mul(self.size_of(cx, a, upper, entry), divisor_of(&p)),
                    None => None,
                },
                _ => None,
            },
            ExprKind::Block(b) => {
                proof {
                    block_lists(*b);
                    block_shrinks(b@);
                }
                if b.stmts.len() == 0 {
                    match &b.tail {
                        Some(t) => self.size_of(cx, t, upper, entry),
                        None => None,
                    }
                } else {
                    None
                }
            },
            _ => None,
        }
    }

    fn local_affine(&self, l: usize) -> (r: Option<Affine>)
        ensures
            opt_affine(r) == local_affine(self@, l),
    {
        match self.find_loop(l) {
            Some(i) => match &self.loops[i].offset {
                Some(off) => Some(Affine::var(l).add(off)),
                None => None,
            },
            None => match self.affines.get(l) {
                Some(a) => Some(a.copy()),
                None => None,
            },
        }
    }

    pub fn affine(&self, e: &Expr) -> (r: Option<Affine>)
        ensures
            opt_affine(r) == affine_of(self@, e@),
        decreases expr_size(e@),
    {
        proof {
            expr_parts(*e);
            expr_shrinks(e@);
        }
        match &e.kind {
            ExprKind::Int(v) => Some(Affine::constant(Poly::constant(*v as i128))),
            ExprKind::Local(l) => self.local_affine(*l),
            ExprKind::Len(l) => match self.sizes.get(*l) {
                Some(p) => Some(Affine::constant(p.copy())),
                None => None,
            },
            ExprKind::Cast(a, t) => {
                if matches!(t, Ty::I64) {
                    self.affine(a)
                } else {
                    None
                }
            },
            ExprKind::MinMax(min, a, _) => {
                if *min {
                    self.affine(a)
                } else {
                    None
                }
            },
            ExprKind::Binary(op, a, b) => match (self.affine(a), self.affine(b)) {
                (Some(x), Some(y)) => match op {
                    BinOp::Add => Some(x.add(&y)),
                    BinOp::Sub => Some(x.add(&y.scale(&Poly::constant(-1)))),
                    BinOp::Mul => {
                        if x.is_const() {
                            Some(y.scale(&x.konst))
                        } else if y.is_const() {
                            Some(x.scale(&y.konst))
                        } else {
                            None
                        }
                    },
                    BinOp::Div => {
                        if y.is_const() {
                            match divisor_of(&y.konst) {
                                Some(d) => Some(x.scale(&d)),
                                None => None,
                            }
                        } else {
                            None
                        }
                    },
                    _ => None,
                },
                _ => None,
            },
            ExprKind::Block(b) => {
                proof {
                    block_lists(*b);
                    block_shrinks(b@);
                }
                if b.stmts.len() == 0 {
                    match &b.tail {
                        Some(t) => self.affine(t),
                        None => None,
                    }
                } else {
                    None
                }
            },
            _ => None,
        }
    }

    /// How many times the current point runs per invocation.
    #[verifier::loop_isolation(false)]
    pub fn times_here(&self) -> (r: Poly)
        ensures
            r@ == times_of(self@.loops),
    {
        let ghost v = self@.loops;
        let mut o = Poly::constant(1);
        let mut n: usize = 0;
        while n < self.loops.len()
            invariant
                n <= self.loops@.len(),
                o@ == sum_out(v, n as nat, p_rat(1real)),
            decreases self.loops@.len() - n,
        {
            let l = &self.loops[self.loops.len() - 1 - n];
            assert(v[v.len() - (n + 1)] == l@);
            o = match l.atom {
                Some(a) => o.sum_over(a, &l.lo, l.step, &l.trip),
                None => o.mul(&l.trip),
            };
            n += 1;
        }
        o
    }
}

} // verus!
