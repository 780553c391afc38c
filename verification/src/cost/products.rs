//! What a product computes, as it is written and tiled: every element of the result is the sum of its
//! products, in order.

use vstd::prelude::*;
use crate::ast::BinOp;
use crate::cost::bounds::mac_of;
use crate::cost::measure::whole_quotient;
use crate::cost::rewrite::{
    mac_line, naive_here, naive_of, replaced_at, s_tile, stmt_of, v_clear, v_hi, v_lo, v_side, v_tile_body, v_tiled,
    v_tiles, NaiveV, TileV,
};
use crate::cost::scope::local_of;
use crate::cost::tiles::{behind, naive_found, pathless, replaced_found};
use crate::ir::{BlockV, ExprV, FuncV, KindV, LValueV, LocalV, StmtV, Ty};
use crate::irbuild::{v_bin, v_for, v_index, v_int, v_local, v_store};
use crate::meaning::{
    eval, number, operate, run, run_all, run_more, run_one, run_range, run_three, run_two, smaller, stored, with_cell,
    with_var, Store, Val, World,
};

verus! {

// ---- what is computed ----

/// A product: how far its loops run, where each element of the result stands, what it starts from, and
/// what is added to it in each turn.
pub struct Product {
    pub ni: int,
    pub nj: int,
    pub nk: int,
    pub start: spec_fn(int, int) -> Val,
    pub place: spec_fn(int, int) -> int,
    pub term: spec_fn(int, int, int) -> Val,
}

/// The element at `(x, y)` with the first `n` terms added to its start, in order.
pub open spec fn summed(p: Product, x: int, y: int, n: int, w: World) -> Val
    decreases n,
{
    if n <= 0 {
        (p.start)(x, y)
    } else {
        operate(BinOp::Add, summed(p, x, y, n - 1, w), (p.term)(x, y, n - 1), w)
    }
}

pub open spec fn in_result(p: Product, x: int, y: int) -> bool {
    0 <= x < p.ni && 0 <= y < p.nj
}

/// No two elements of the result share a place.
pub open spec fn places_apart(p: Product) -> bool {
    forall|x: int, y: int, u: int, v: int|
        in_result(p, x, y) && in_result(p, u, v) && #[trigger] (p.place)(x, y) == #[trigger] (p.place)(u, v) ==> x == u
            && y == v
}

/// An element of the result stands at the place.
pub open spec fn taken(p: Product, at: int) -> bool {
    exists|x: int, y: int| in_result(p, x, y) && #[trigger] (p.place)(x, y) == at
}

/// The result: every element is the sum of all its terms, and no other element of any array is changed.
pub open spec fn is_product(p: Product, c: usize, s: Store, r: Store, w: World) -> bool {
    &&& forall|x: int, y: int|
        in_result(p, x, y) ==> (r.cells)(c, #[trigger] (p.place)(x, y)) == summed(p, x, y, p.nk, w)
    &&& forall|l: usize, at: int| l != c || !taken(p, at) ==> #[trigger] (r.cells)(l, at) == (s.cells)(l, at)
    &&& r.lens == s.lens
}

// ---- what the loops of a product may look at ----

/// The locals that the loops and the accumulator change.
pub open spec fn working(nv: NaiveV, ii: usize, jj: usize, kk: usize) -> Seq<usize> {
    seq![nv.i, nv.j, nv.k, nv.acc, ii, jj, kk]
}

/// The stores agree but on those locals and on the result.
pub open spec fn alike(s: Store, h: Store, own: Seq<usize>, c: usize) -> bool {
    &&& forall|l: usize| !own.contains(l) ==> #[trigger] (h.vars)(l) == (s.vars)(l)
    &&& forall|l: usize, at: int| l != c ==> #[trigger] (h.cells)(l, at) == (s.cells)(l, at)
    &&& h.lens == s.lens
}

pub open spec fn turned(nv: NaiveV, h: Store, x: int, y: int) -> bool {
    (h.vars)(nv.i) == Val::Int(x) && (h.vars)(nv.j) == Val::Int(y)
}

pub open spec fn counted(nv: NaiveV, h: Store, z: int) -> bool {
    (h.vars)(nv.k) == Val::Int(z)
}

/// The value that is added in a turn.
pub open spec fn addend(nv: NaiveV) -> ExprV {
    match nv.mac {
        StmtV::Assign(_, _, e) => e,
        _ => arbitrary(),
    }
}

/// The statements of a product compute `p` from `s`: its bounds do not depend on the loops nor on the
/// result; the place and the start of an element depend on its turn only, and its terms on theirs.
pub open spec fn computes(nv: NaiveV, p: Product, s: Store, own: Seq<usize>, w: World) -> bool {
    &&& forall|h: Store|
        #[trigger] alike(s, h, own, nv.c) ==> eval(nv.ni, h, w) == Val::Int(p.ni) && eval(nv.nj, h, w) == Val::Int(p.nj)
            && eval(nv.nk, h, w) == Val::Int(p.nk)
    &&& forall|h: Store, x: int, y: int|
        #[trigger] alike(s, h, own, nv.c) && #[trigger] turned(nv, h, x, y) && in_result(p, x, y) ==> eval(nv.zero, h, w)
            == (p.start)(x, y) && eval(nv.ic, h, w) == Val::Int((p.place)(x, y))
    &&& forall|h: Store, x: int, y: int, z: int|
        #[trigger] alike(s, h, own, nv.c) && #[trigger] turned(nv, h, x, y) && #[trigger] counted(nv, h, z) && in_result(
            p,
            x,
            y,
        ) && 0 <= z < p.nk ==> eval(addend(nv), h, w) == (p.term)(x, y, z)
}

pub open spec fn all_distinct(s: Seq<usize>) -> bool {
    forall|a: int, b: int| 0 <= a < b < s.len() ==> s[a] != s[b]
}

/// What every lemma on the loops takes for granted.
pub struct Frame {
    pub nv: NaiveV,
    pub p: Product,
    pub s: Store,
    pub ii: usize,
    pub jj: usize,
    pub kk: usize,
    pub w: World,
}

pub open spec fn framed(f: Frame) -> bool {
    &&& all_distinct(working(f.nv, f.ii, f.jj, f.kk))
    &&& computes(f.nv, f.p, f.s, working(f.nv, f.ii, f.jj, f.kk), f.w)
    &&& places_apart(f.p)
    &&& f.nv.mac is Assign
    &&& f.nv.mac == StmtV::Assign(LValueV::Var(f.nv.acc), Some(BinOp::Add), addend(f.nv))
    &&& !f.nv.zero.ty.arrayish()
}

/// How many terms each element has: none yet, not even its start, where it is negative.
pub type Level = spec_fn(int, int) -> int;

pub open spec fn at_level(f: Frame, x: int, y: int, n: int) -> Val {
    if n < 0 {
        (f.s.cells)(f.nv.c, (f.p.place)(x, y))
    } else {
        summed(f.p, x, y, n, f.w)
    }
}

/// The store in the midst of the loops: every element of the result is at its level.
pub open spec fn midst(f: Frame, h: Store, g: Level) -> bool {
    &&& alike(f.s, h, working(f.nv, f.ii, f.jj, f.kk), f.nv.c)
    &&& forall|x: int, y: int|
        in_result(f.p, x, y) ==> (h.cells)(f.nv.c, #[trigger] (f.p.place)(x, y)) == at_level(f, x, y, g(x, y))
    &&& forall|at: int| !taken(f.p, at) ==> #[trigger] (h.cells)(f.nv.c, at) == (f.s.cells)(f.nv.c, at)
}

pub open spec fn raised(g: Level, x: int, y: int, n: int) -> Level {
    |u: int, v: int|
        if u == x && v == y {
            n
        } else {
            g(u, v)
        }
}

/// Only the given locals are changed.
pub open spec fn keeps_but(h: Store, r: Store, own: Seq<usize>) -> bool {
    forall|l: usize| !own.contains(l) ==> #[trigger] (r.vars)(l) == (h.vars)(l)
}

proof fn working_local(f: Frame, h: Store, g: Level, l: usize, v: Val)
    requires
        midst(f, h, g),
        working(f.nv, f.ii, f.jj, f.kk).contains(l),
    ensures
        midst(f, with_var(h, l, v), g),
{
    let r = with_var(h, l, v);
    let own = working(f.nv, f.ii, f.jj, f.kk);
    assert forall|x: usize| !own.contains(x) implies #[trigger] (r.vars)(x) == (f.s.vars)(x) by {
        assert((h.vars)(x) == (f.s.vars)(x));
    }
    assert forall|x: usize, at: int| x != f.nv.c implies #[trigger] (r.cells)(x, at) == (f.s.cells)(x, at) by {
        assert((h.cells)(x, at) == (f.s.cells)(x, at));
    }
    assert forall|x: int, y: int| in_result(f.p, x, y) implies (r.cells)(f.nv.c, #[trigger] (f.p.place)(x, y))
        == at_level(f, x, y, g(x, y)) by {
        assert((h.cells)(f.nv.c, (f.p.place)(x, y)) == at_level(f, x, y, g(x, y)));
    }
    assert forall|at: int| !taken(f.p, at) implies #[trigger] (r.cells)(f.nv.c, at) == (f.s.cells)(f.nv.c, at) by {
        assert((h.cells)(f.nv.c, at) == (f.s.cells)(f.nv.c, at));
    }
}

proof fn working_members(f: Frame)
    ensures
        ({
            let o = working(f.nv, f.ii, f.jj, f.kk);
            &&& o.contains(f.nv.i)
            &&& o.contains(f.nv.j)
            &&& o.contains(f.nv.k)
            &&& o.contains(f.nv.acc)
            &&& o.contains(f.ii)
            &&& o.contains(f.jj)
            &&& o.contains(f.kk)
        }),
        all_distinct(working(f.nv, f.ii, f.jj, f.kk)) ==> {
            &&& f.nv.i != f.nv.j && f.nv.i != f.nv.k && f.nv.i != f.nv.acc && f.nv.i != f.ii && f.nv.i != f.jj && f.nv.i
                != f.kk
            &&& f.nv.j != f.nv.k && f.nv.j != f.nv.acc && f.nv.j != f.ii && f.nv.j != f.jj && f.nv.j != f.kk
            &&& f.nv.k != f.nv.acc && f.nv.k != f.ii && f.nv.k != f.jj && f.nv.k != f.kk
            &&& f.nv.acc != f.ii && f.nv.acc != f.jj && f.nv.acc != f.kk
            &&& f.ii != f.jj && f.ii != f.kk && f.jj != f.kk
        },
{
    let o = working(f.nv, f.ii, f.jj, f.kk);
    assert(o[0] == f.nv.i && o[1] == f.nv.j && o[2] == f.nv.k && o[3] == f.nv.acc && o[4] == f.ii && o[5] == f.jj && o[6]
        == f.kk);
    assert(o.contains(o[0]) && o.contains(o[1]) && o.contains(o[2]) && o.contains(o[3]) && o.contains(o[4])
        && o.contains(o[5]) && o.contains(o[6]));
}

/// An element stored.
proof fn element_stored(f: Frame, h: Store, g: Level, x: int, y: int, n: int)
    requires
        framed(f),
        midst(f, h, g),
        in_result(f.p, x, y),
        n >= 0,
    ensures
        midst(f, with_cell(h, f.nv.c, (f.p.place)(x, y), summed(f.p, x, y, n, f.w)), raised(g, x, y, n)),
{
    let at = (f.p.place)(x, y);
    let r = with_cell(h, f.nv.c, at, summed(f.p, x, y, n, f.w));
    let own = working(f.nv, f.ii, f.jj, f.kk);
    let e = raised(g, x, y, n);
    assert forall|l: usize| !own.contains(l) implies #[trigger] (r.vars)(l) == (f.s.vars)(l) by {
        assert((h.vars)(l) == (f.s.vars)(l));
    }
    assert forall|l: usize, a: int| l != f.nv.c implies #[trigger] (r.cells)(l, a) == (f.s.cells)(l, a) by {
        assert((h.cells)(l, a) == (f.s.cells)(l, a));
    }
    assert forall|u: int, v: int| in_result(f.p, u, v) implies (r.cells)(f.nv.c, #[trigger] (f.p.place)(u, v))
        == at_level(f, u, v, e(u, v)) by {
        assert((h.cells)(f.nv.c, (f.p.place)(u, v)) == at_level(f, u, v, g(u, v)));
        if (f.p.place)(u, v) == at {
            assert((f.p.place)(u, v) == (f.p.place)(x, y));
        }
    }
    assert forall|a: int| !taken(f.p, a) implies #[trigger] (r.cells)(f.nv.c, a) == (f.s.cells)(f.nv.c, a) by {
        assert((h.cells)(f.nv.c, a) == (f.s.cells)(f.nv.c, a));
        if a == at {
            assert((f.p.place)(x, y) == a);
            assert(taken(f.p, a));
        }
    }
}

// ---- the innermost loop ----

/// The innermost loop adds the terms of its turns to the accumulator.
proof fn terms_added(f: Frame, h: Store, g: Level, x: int, y: int, lo: int, hi: int)
    requires
        framed(f),
        midst(f, h, g),
        turned(f.nv, h, x, y),
        in_result(f.p, x, y),
        0 <= lo <= hi,
        lo == hi || hi <= f.p.nk,
        (h.vars)(f.nv.acc) == summed(f.p, x, y, lo, f.w),
    ensures
        ({
            let r = run_range(seq![f.nv.mac], f.nv.k, lo, hi, h, f.w);
            &&& midst(f, r, g)
            &&& keeps_but(h, r, seq![f.nv.k, f.nv.acc])
            &&& r.cells == h.cells
            &&& (r.vars)(f.nv.acc) == summed(f.p, x, y, hi, f.w)
        }),
    decreases hi - lo,
{
    let inner = seq![f.nv.k, f.nv.acc];
    assert(inner[0] == f.nv.k && inner[1] == f.nv.acc);
    assert(inner.contains(inner[0]) && inner.contains(inner[1]));
    working_members(f);
    if lo < hi {
        terms_added(f, h, g, x, y, lo, hi - 1);
        let q = run_range(seq![f.nv.mac], f.nv.k, lo, hi - 1, h, f.w);
        let t = with_var(q, f.nv.k, Val::Int(hi - 1));
        working_local(f, q, g, f.nv.k, Val::Int(hi - 1));
        assert(!inner.contains(f.nv.i)) by {
            assert(inner[0] != f.nv.i && inner[1] != f.nv.i);
        }
        assert(!inner.contains(f.nv.j)) by {
            assert(inner[0] != f.nv.j && inner[1] != f.nv.j);
        }
        assert((q.vars)(f.nv.i) == (h.vars)(f.nv.i));
        assert((q.vars)(f.nv.j) == (h.vars)(f.nv.j));
        assert(turned(f.nv, t, x, y));
        assert(counted(f.nv, t, hi - 1));
        assert(eval(addend(f.nv), t, f.w) == (f.p.term)(x, y, hi - 1));
        run_one(f.nv.mac, t, f.w);
        let v = operate(BinOp::Add, (t.vars)(f.nv.acc), eval(addend(f.nv), t, f.w), f.w);
        assert(run(f.nv.mac, t, f.w) == with_var(t, f.nv.acc, v));
        working_local(f, t, g, f.nv.acc, v);
        let r = run_range(seq![f.nv.mac], f.nv.k, lo, hi, h, f.w);
        assert(r == with_var(t, f.nv.acc, v));
        assert forall|l: usize| !inner.contains(l) implies #[trigger] (r.vars)(l) == (h.vars)(l) by {
            assert((q.vars)(l) == (h.vars)(l));
        }
    }
}

// ---- one element ----

/// What the two inner loops do for one element: its start is stored, it is computed from the start, or
/// the terms of one tile are added to it.
pub enum Part {
    Start(u32),
    Whole(Seq<StmtV>),
    Tile(TileV, Ty, u32),
}

/// The side of the tiles.
pub open spec fn side_of(t: TileV, h: Store) -> int {
    match t {
        TileV::Fixed(n) => n as int,
        TileV::Param(l) => number((h.vars)(l)),
    }
}

pub open spec fn part_stmts(f: Frame, b: Part) -> Seq<StmtV> {
    match b {
        Part::Start(line) => seq![v_store(f.nv.c, f.nv.ic, line, f.nv.zero)],
        Part::Whole(t) => t,
        Part::Tile(t, elem, line) => v_tile_body(f.nv, t, f.kk, elem, line),
    }
}

/// The statements start the accumulator, add all terms to it, and store it.
pub open spec fn whole_shape(nv: NaiveV, t: Seq<StmtV>) -> bool {
    &&& t.len() == 3
    &&& t[0] == StmtV::Let(nv.acc, nv.zero)
    &&& match t[1] {
        StmtV::For { var, start, end, body } => {
            &&& var == nv.k
            &&& start.kind == KindV::Int(0)
            &&& end == nv.nk
            &&& body.stmts == seq![nv.mac]
            &&& body.tail is None
        },
        _ => false,
    }
    &&& match t[2] {
        StmtV::Assign(lv, op, e) => match lv {
            LValueV::Index(c, ic, _) => c == nv.c && ic == nv.ic && op is None && e.kind == KindV::Local(nv.acc),
            _ => false,
        },
        _ => false,
    }
}

pub open spec fn at_most(a: int, b: int) -> int {
    if a < b {
        a
    } else {
        b
    }
}

/// The level from which, and to which, an element is brought; `q` is the tile, and `d` its side.
pub open spec fn level_from(f: Frame, b: Part, q: int, d: int) -> int {
    match b {
        Part::Tile(t, elem, line) => q * d,
        _ => 0,
    }
}

pub open spec fn level_to(f: Frame, b: Part, q: int, d: int) -> int {
    match b {
        Part::Start(line) => 0,
        Part::Whole(t) => if f.p.nk > 0 {
            f.p.nk
        } else {
            0
        },
        Part::Tile(t, elem, line) => at_most(q * d + d, f.p.nk),
    }
}

/// The side is a number, or a local that the loops do not change.
pub open spec fn side_steady(f: Frame, t: TileV, d: int) -> bool {
    match t {
        TileV::Fixed(n) => d == n,
        TileV::Param(l) => !working(f.nv, f.ii, f.jj, f.kk).contains(l) && (f.s.vars)(l) == Val::Int(d),
    }
}

pub open spec fn part_ok(f: Frame, b: Part, q: int, d: int) -> bool {
    match b {
        Part::Tile(t, elem, line) => {
            &&& side_steady(f, t, d)
            &&& !elem.arrayish()
            &&& d >= 1
            &&& 0 <= q * d < f.p.nk
        },
        Part::Whole(t) => whole_shape(f.nv, t),
        Part::Start(line) => true,
    }
}

/// What a tile variable stands at.
pub open spec fn tile_at(b: Part, kk: usize, h: Store, q: int) -> bool {
    b is Tile ==> (h.vars)(kk) == Val::Int(q)
}

proof fn lo_is(t: TileV, v: usize, line: u32, h: Store, q: int, d: int, w: World)
    requires
        (h.vars)(v) == Val::Int(q),
        match t {
            TileV::Fixed(n) => d == n,
            TileV::Param(l) => (h.vars)(l) == Val::Int(d),
        },
    ensures
        eval(v_side(t, line), h, w) == Val::Int(d),
        eval(v_lo(t, v, line), h, w) == Val::Int(q * d),
{
    let a = v_local(v, Ty::I64, line);
    assert(eval(a, h, w) == (h.vars)(v));
    assert(eval(v_side(t, line), h, w) == Val::Int(d));
    assert(eval(v_lo(t, v, line), h, w) == operate(BinOp::Mul, eval(a, h, w), eval(v_side(t, line), h, w), w));
}

proof fn hi_is(t: TileV, v: usize, n: ExprV, line: u32, h: Store, q: int, d: int, m: int, w: World)
    requires
        (h.vars)(v) == Val::Int(q),
        match t {
            TileV::Fixed(n) => d == n,
            TileV::Param(l) => (h.vars)(l) == Val::Int(d),
        },
        eval(n, h, w) == Val::Int(m),
    ensures
        eval(v_hi(t, v, n, line), h, w) == Val::Int(at_most(q * d + d, m)),
{
    lo_is(t, v, line, h, q, d, w);
    let a = v_bin(BinOp::Add, v_lo(t, v, line), v_side(t, line));
    assert(eval(a, h, w) == operate(BinOp::Add, eval(v_lo(t, v, line), h, w), eval(v_side(t, line), h, w), w));
    assert(eval(v_hi(t, v, n, line), h, w) == smaller(true, eval(a, h, w), eval(n, h, w), w));
}

proof fn side_now(f: Frame, t: TileV, d: int, h: Store, g: Level)
    requires
        side_steady(f, t, d),
        midst(f, h, g),
    ensures
        match t {
            TileV::Fixed(n) => d == n,
            TileV::Param(l) => (h.vars)(l) == Val::Int(d),
        },
{
}

/// An element stored from the accumulator.
proof fn accumulator_stored(f: Frame, h: Store, g: Level, x: int, y: int, n: int, line: u32, e: ExprV)
    requires
        framed(f),
        midst(f, h, g),
        turned(f.nv, h, x, y),
        in_result(f.p, x, y),
        n >= 0,
        (h.vars)(f.nv.acc) == summed(f.p, x, y, n, f.w),
        e.kind == KindV::Local(f.nv.acc),
    ensures
        ({
            let r = run(v_store(f.nv.c, f.nv.ic, line, e), h, f.w);
            midst(f, r, raised(g, x, y, n)) && r.vars == h.vars
        }),
{
    assert(eval(e, h, f.w) == (h.vars)(f.nv.acc));
    assert(eval(f.nv.ic, h, f.w) == Val::Int((f.p.place)(x, y)));
    element_stored(f, h, g, x, y, n);
    assert(run(v_store(f.nv.c, f.nv.ic, line, e), h, f.w) == with_cell(
        h,
        f.nv.c,
        (f.p.place)(x, y),
        stored(None, (h.cells)(f.nv.c, (f.p.place)(x, y)), eval(e, h, f.w), f.w),
    ));
}

/// What is done for one element brings it from its level to the next.
proof fn element_done(f: Frame, b: Part, h: Store, g: Level, x: int, y: int, q: int, d: int)
    requires
        framed(f),
        part_ok(f, b, q, d),
        midst(f, h, g),
        turned(f.nv, h, x, y),
        in_result(f.p, x, y),
        b is Tile ==> g(x, y) == q * d,
        tile_at(b, f.kk, h, q),
    ensures
        ({
            let r = run_all(part_stmts(f, b), h, f.w);
            &&& midst(f, r, raised(g, x, y, level_to(f, b, q, d)))
            &&& keeps_but(h, r, seq![f.nv.k, f.nv.acc])
        }),
{
    let w = f.w;
    let inner = seq![f.nv.k, f.nv.acc];
    assert(inner[0] == f.nv.k && inner[1] == f.nv.acc);
    assert(inner.contains(inner[0]) && inner.contains(inner[1]));
    working_members(f);
    assert(!inner.contains(f.nv.i) && !inner.contains(f.nv.j)) by {
        assert(inner[0] != f.nv.i && inner[1] != f.nv.i && inner[0] != f.nv.j && inner[1] != f.nv.j);
    }
    match b {
        Part::Start(line) => {
            let t = v_store(f.nv.c, f.nv.ic, line, f.nv.zero);
            run_one(t, h, w);
            assert(eval(f.nv.zero, h, w) == (f.p.start)(x, y));
            assert(summed(f.p, x, y, 0, w) == (f.p.start)(x, y));
            element_stored(f, h, g, x, y, 0);
            assert(run(t, h, w) == with_cell(
                h,
                f.nv.c,
                (f.p.place)(x, y),
                stored(None, (h.cells)(f.nv.c, (f.p.place)(x, y)), eval(f.nv.zero, h, w), w),
            ));
        },
        Part::Whole(t) => {
            let (a, l, c) = (t[0], t[1], t[2]);
            assert(t =~= seq![a, l, c]);
            run_three(a, l, c, h, w);
            let n = level_to(f, b, q, d);
            let h1 = with_var(h, f.nv.acc, (f.p.start)(x, y));
            assert(run(a, h, w) == h1);
            working_local(f, h, g, f.nv.acc, (f.p.start)(x, y));
            assert(turned(f.nv, h1, x, y));
            assert(summed(f.p, x, y, 0, w) == (f.p.start)(x, y));
            assert(eval(f.nv.nk, h1, w) == Val::Int(f.p.nk));
            let h2 = run(l, h1, w);
            match l {
                StmtV::For { var, start, end, body } => {
                    assert(eval(start, h1, w) == Val::Int(0));
                    assert(h2 == run_range(seq![f.nv.mac], f.nv.k, 0, f.p.nk, h1, w));
                },
                _ => {},
            }
            assert(h2 == run_range(seq![f.nv.mac], f.nv.k, 0, n, h1, w));
            terms_added(f, h1, g, x, y, 0, n);
            assert((h2.vars)(f.nv.i) == (h1.vars)(f.nv.i) && (h2.vars)(f.nv.j) == (h1.vars)(f.nv.j));
            match c {
                StmtV::Assign(lv, op, e) => match lv {
                    LValueV::Index(arr, ic, line) => {
                        assert(c == v_store(f.nv.c, f.nv.ic, line, e));
                        accumulator_stored(f, h2, g, x, y, n, line, e);
                    },
                    _ => {},
                },
                _ => {},
            }
            let r = run(c, h2, w);
            assert forall|l: usize| !inner.contains(l) implies #[trigger] (r.vars)(l) == (h.vars)(l) by {
                assert((h2.vars)(l) == (h1.vars)(l));
            }
        },
        Part::Tile(t, elem, line) => {
            let read = v_index(f.nv.c, f.nv.ic, elem, line);
            let (a, l, c) = (
                StmtV::Let(f.nv.acc, read),
                v_for(f.nv.k, v_lo(t, f.kk, line), v_hi(t, f.kk, f.nv.nk, line), seq![f.nv.mac]),
                v_store(f.nv.c, f.nv.ic, line, v_local(f.nv.acc, elem, line)),
            );
            run_three(a, l, c, h, w);
            let (lo, hi) = (q * d, at_most(q * d + d, f.p.nk));
            assert(eval(f.nv.ic, h, w) == Val::Int((f.p.place)(x, y)));
            assert(eval(read, h, w) == (h.cells)(f.nv.c, number(eval(f.nv.ic, h, w))));
            assert((h.cells)(f.nv.c, (f.p.place)(x, y)) == at_level(f, x, y, g(x, y)));
            let v = summed(f.p, x, y, lo, w);
            let h1 = with_var(h, f.nv.acc, v);
            assert(run(a, h, w) == h1);
            working_local(f, h, g, f.nv.acc, v);
            assert(turned(f.nv, h1, x, y));
            side_now(f, t, d, h1, g);
            assert((h1.vars)(f.kk) == Val::Int(q));
            assert(eval(f.nv.nk, h1, w) == Val::Int(f.p.nk));
            lo_is(t, f.kk, line, h1, q, d, w);
            hi_is(t, f.kk, f.nv.nk, line, h1, q, d, f.p.nk, w);
            let h2 = run(l, h1, w);
            assert(h2 == run_range(seq![f.nv.mac], f.nv.k, lo, hi, h1, w));
            terms_added(f, h1, g, x, y, lo, hi);
            assert((h2.vars)(f.nv.i) == (h1.vars)(f.nv.i) && (h2.vars)(f.nv.j) == (h1.vars)(f.nv.j));
            accumulator_stored(f, h2, g, x, y, hi, line, v_local(f.nv.acc, elem, line));
            let r = run(c, h2, w);
            assert forall|l: usize| !inner.contains(l) implies #[trigger] (r.vars)(l) == (h.vars)(l) by {
                assert((h2.vars)(l) == (h1.vars)(l));
            }
        },
    }
}

// ---- rows and rectangles ----

pub open spec fn boxed(g: Level, x0: int, x1: int, y0: int, y1: int, n: int) -> Level {
    |u: int, v: int|
        if x0 <= u < x1 && y0 <= v < y1 {
            n
        } else {
            g(u, v)
        }
}

proof fn same_level(f: Frame, h: Store, g: Level, e: Level)
    requires
        midst(f, h, g),
        forall|x: int, y: int| in_result(f.p, x, y) ==> #[trigger] g(x, y) == #[trigger] e(x, y),
    ensures
        midst(f, h, e),
{
    assert forall|x: int, y: int| in_result(f.p, x, y) implies (h.cells)(f.nv.c, #[trigger] (f.p.place)(x, y))
        == at_level(f, x, y, e(x, y)) by {
        assert(g(x, y) == e(x, y));
        assert((h.cells)(f.nv.c, (f.p.place)(x, y)) == at_level(f, x, y, g(x, y)));
    }
}

/// The elements of the rectangle that are in the result wait at the level.
pub open spec fn waiting(f: Frame, g: Level, x0: int, x1: int, y0: int, y1: int, n: int) -> bool {
    forall|x: int, y: int| x0 <= x < x1 && y0 <= y < y1 && in_result(f.p, x, y) ==> #[trigger] g(x, y) == n
}

/// The middle loop over a row.
proof fn row_done(f: Frame, b: Part, h: Store, g: Level, x: int, lo: int, hi: int, q: int, d: int)
    requires
        framed(f),
        part_ok(f, b, q, d),
        midst(f, h, g),
        (h.vars)(f.nv.i) == Val::Int(x),
        0 <= x < f.p.ni,
        0 <= lo,
        hi <= f.p.nj,
        b is Tile ==> waiting(f, g, x, x + 1, lo, hi, q * d),
        tile_at(b, f.kk, h, q),
    ensures
        ({
            let r = run_range(part_stmts(f, b), f.nv.j, lo, hi, h, f.w);
            &&& midst(f, r, boxed(g, x, x + 1, lo, hi, level_to(f, b, q, d)))
            &&& keeps_but(h, r, seq![f.nv.j, f.nv.k, f.nv.acc])
        }),
    decreases (if lo < hi { hi - lo } else { 0 }),
{
    let own = seq![f.nv.j, f.nv.k, f.nv.acc];
    let inner = seq![f.nv.k, f.nv.acc];
    let n = level_to(f, b, q, d);
    working_members(f);
    assert(own[0] == f.nv.j && own[1] == f.nv.k && own[2] == f.nv.acc);
    assert(own.contains(own[0]) && own.contains(own[1]) && own.contains(own[2]));
    assert(!own.contains(f.nv.i) && !own.contains(f.kk)) by {
        assert(own[0] != f.nv.i && own[1] != f.nv.i && own[2] != f.nv.i);
        assert(own[0] != f.kk && own[1] != f.kk && own[2] != f.kk);
    }
    if lo < hi {
        let y = hi - 1;
        row_done(f, b, h, g, x, lo, y, q, d);
        let r0 = run_range(part_stmts(f, b), f.nv.j, lo, y, h, f.w);
        let g0 = boxed(g, x, x + 1, lo, y, n);
        let t = with_var(r0, f.nv.j, Val::Int(y));
        working_local(f, r0, g0, f.nv.j, Val::Int(y));
        assert((r0.vars)(f.nv.i) == (h.vars)(f.nv.i));
        assert((r0.vars)(f.kk) == (h.vars)(f.kk));
        assert(turned(f.nv, t, x, y));
        assert(in_result(f.p, x, y));
        if b is Tile {
            assert(g(x, y) == q * d);
            assert(g0(x, y) == q * d);
        }
        element_done(f, b, t, g0, x, y, q, d);
        let r = run_all(part_stmts(f, b), t, f.w);
        same_level(f, r, raised(g0, x, y, n), boxed(g, x, x + 1, lo, hi, n));
        assert forall|l: usize| !own.contains(l) implies #[trigger] (r.vars)(l) == (h.vars)(l) by {
            assert(!inner.contains(l)) by {
                if inner.contains(l) {
                    assert(inner[0] == own[1] && inner[1] == own[2]);
                    let k = choose|k: int| 0 <= k < inner.len() && inner[k] == l;
                    assert(own[k + 1] == l);
                }
            }
            assert((r.vars)(l) == (t.vars)(l));
            assert((r0.vars)(l) == (h.vars)(l));
        }
    } else {
        same_level(f, h, g, boxed(g, x, x + 1, lo, hi, n));
    }
}

/// The stores stand in the same tile.
pub open spec fn same_tile(f: Frame, h: Store, r: Store) -> bool {
    (r.vars)(f.ii) == (h.vars)(f.ii) && (r.vars)(f.jj) == (h.vars)(f.jj) && (r.vars)(f.kk) == (h.vars)(f.kk)
}

/// A loop over the second variable whose body does a part, from `lo` to `hi` as long as the tile stays.
pub open spec fn is_row(f: Frame, b: Part, t: StmtV, h: Store, lo: int, hi: int) -> bool {
    match t {
        StmtV::For { var, start, end, body } => {
            &&& var == f.nv.j
            &&& body.stmts == part_stmts(f, b)
            &&& body.tail is None
            &&& forall|r: Store|
                #[trigger] alike(f.s, r, working(f.nv, f.ii, f.jj, f.kk), f.nv.c) && same_tile(f, h, r) ==> eval(
                    start,
                    r,
                    f.w,
                ) == Val::Int(lo) && eval(end, r, f.w) == Val::Int(hi)
        },
        _ => false,
    }
}

/// The outer loop over a rectangle.
proof fn rectangle_done(
    f: Frame,
    b: Part,
    row: StmtV,
    h: Store,
    g: Level,
    x0: int,
    x1: int,
    y0: int,
    y1: int,
    q: int,
    d: int,
)
    requires
        framed(f),
        part_ok(f, b, q, d),
        midst(f, h, g),
        is_row(f, b, row, h, y0, y1),
        0 <= x0,
        x1 <= f.p.ni,
        0 <= y0,
        y1 <= f.p.nj,
        b is Tile ==> waiting(f, g, x0, x1, y0, y1, q * d),
        tile_at(b, f.kk, h, q),
    ensures
        ({
            let r = run_range(seq![row], f.nv.i, x0, x1, h, f.w);
            &&& midst(f, r, boxed(g, x0, x1, y0, y1, level_to(f, b, q, d)))
            &&& keeps_but(h, r, seq![f.nv.i, f.nv.j, f.nv.k, f.nv.acc])
        }),
    decreases (if x0 < x1 { x1 - x0 } else { 0 }),
{
    let own = seq![f.nv.i, f.nv.j, f.nv.k, f.nv.acc];
    let inner = seq![f.nv.j, f.nv.k, f.nv.acc];
    let n = level_to(f, b, q, d);
    working_members(f);
    assert(own[0] == f.nv.i && own[1] == f.nv.j && own[2] == f.nv.k && own[3] == f.nv.acc);
    assert(own.contains(own[0]) && own.contains(own[1]) && own.contains(own[2]) && own.contains(own[3]));
    assert(!own.contains(f.ii) && !own.contains(f.jj) && !own.contains(f.kk)) by {
        assert(own[0] != f.ii && own[1] != f.ii && own[2] != f.ii && own[3] != f.ii);
        assert(own[0] != f.jj && own[1] != f.jj && own[2] != f.jj && own[3] != f.jj);
        assert(own[0] != f.kk && own[1] != f.kk && own[2] != f.kk && own[3] != f.kk);
    }
    if x0 < x1 {
        let x = x1 - 1;
        if b is Tile {
            assert(waiting(f, g, x0, x, y0, y1, q * d));
        }
        rectangle_done(f, b, row, h, g, x0, x, y0, y1, q, d);
        let r0 = run_range(seq![row], f.nv.i, x0, x, h, f.w);
        let g0 = boxed(g, x0, x, y0, y1, n);
        let t = with_var(r0, f.nv.i, Val::Int(x));
        working_local(f, r0, g0, f.nv.i, Val::Int(x));
        assert((r0.vars)(f.ii) == (h.vars)(f.ii) && (r0.vars)(f.jj) == (h.vars)(f.jj) && (r0.vars)(f.kk) == (h.vars)(f.kk));
        assert(same_tile(f, h, t));
        assert(alike(f.s, t, working(f.nv, f.ii, f.jj, f.kk), f.nv.c));
        run_one(row, t, f.w);
        let r = run(row, t, f.w);
        assert(r == run_range(part_stmts(f, b), f.nv.j, y0, y1, t, f.w));
        if b is Tile {
            assert forall|u: int, v: int| x <= u < x + 1 && y0 <= v < y1 && in_result(f.p, u, v) implies #[trigger] g0(u, v)
                == q * d by {
                assert(g(u, v) == q * d);
            }
        }
        row_done(f, b, t, g0, x, y0, y1, q, d);
        same_level(f, r, boxed(g0, x, x + 1, y0, y1, n), boxed(g, x0, x1, y0, y1, n));
        assert forall|l: usize| !own.contains(l) implies #[trigger] (r.vars)(l) == (h.vars)(l) by {
            assert(!inner.contains(l)) by {
                if inner.contains(l) {
                    assert(inner[0] == own[1] && inner[1] == own[2] && inner[2] == own[3]);
                    let k = choose|k: int| 0 <= k < inner.len() && inner[k] == l;
                    assert(own[k + 1] == l);
                }
            }
            assert((r.vars)(l) == (t.vars)(l));
            assert((r0.vars)(l) == (h.vars)(l));
        }
    } else {
        same_level(f, h, g, boxed(g, x0, x1, y0, y1, n));
    }
}

// ---- the product as it is written ----

pub open spec fn level_whole(p: Product) -> int {
    if p.nk > 0 {
        p.nk
    } else {
        0
    }
}

pub open spec fn untouched() -> Level {
    |x: int, y: int| -1int
}

proof fn nothing_done(f: Frame)
    ensures
        midst(f, f.s, untouched()),
{
}

/// Where all elements are at their full level, the result is the product.
proof fn all_done(f: Frame, h: Store, g: Level)
    requires
        midst(f, h, g),
        forall|x: int, y: int| in_result(f.p, x, y) ==> #[trigger] g(x, y) == level_whole(f.p),
    ensures
        is_product(f.p, f.nv.c, f.s, h, f.w),
{
    assert forall|x: int, y: int| in_result(f.p, x, y) implies (h.cells)(f.nv.c, #[trigger] (f.p.place)(x, y)) == summed(
        f.p,
        x,
        y,
        f.p.nk,
        f.w,
    ) by {
        assert(g(x, y) == level_whole(f.p));
        assert((h.cells)(f.nv.c, (f.p.place)(x, y)) == at_level(f, x, y, g(x, y)));
    }
    assert forall|l: usize, at: int| l != f.nv.c || !taken(f.p, at) implies #[trigger] (h.cells)(l, at) == (f.s.cells)(
        l,
        at,
    ) by {}
}

/// The loops of a product, as they are found.
proof fn written(s: StmtV, nv: NaiveV)
    requires
        naive_here(s) == Some(nv),
    ensures
        match s {
            StmtV::For { var, start, end, body } => {
                &&& var == nv.i
                &&& start.kind == KindV::Int(0)
                &&& end == nv.ni
                &&& body.tail is None
                &&& body.stmts.len() == 1
                &&& match body.stmts[0] {
                    StmtV::For { var, start, end, body } => {
                        &&& var == nv.j
                        &&& start.kind == KindV::Int(0)
                        &&& end == nv.nj
                        &&& body.tail is None
                        &&& whole_shape(nv, body.stmts)
                    },
                    _ => false,
                }
            },
            _ => false,
        },
        nv.mac == StmtV::Assign(LValueV::Var(nv.acc), Some(BinOp::Add), addend(nv)),
{
    match s {
        StmtV::For { var, start, end, body } => {
            match body.stmts[0] {
                StmtV::For { var: j, start: js, end: nj, body: jb } => {
                    match jb.stmts[1] {
                        StmtV::For { var: k, start: ks, end: nk, body: kb } => {
                            assert(kb.stmts =~= seq![kb.stmts[0]]);
                            assert(mac_of(kb.stmts[0]) is Some);
                        },
                        _ => {},
                    }
                },
                _ => {},
            }
        },
        _ => {},
    }
}

/// The loops of a product leave in every element of the result the sum of all its terms, added to its
/// start in order, and change no other element of any array.
pub proof fn product_computes(s: StmtV, f: Frame)
    requires
        naive_here(s) == Some(f.nv),
        framed(f),
    ensures
        is_product(f.p, f.nv.c, f.s, run(s, f.s, f.w), f.w),
        alike(f.s, run(s, f.s, f.w), working(f.nv, f.ii, f.jj, f.kk), f.nv.c),
{
    written(s, f.nv);
    nothing_done(f);
    match s {
        StmtV::For { var, start, end, body } => {
            let row = body.stmts[0];
            assert(body.stmts =~= seq![row]);
            assert(alike(f.s, f.s, working(f.nv, f.ii, f.jj, f.kk), f.nv.c));
            assert(eval(start, f.s, f.w) == Val::Int(0));
            assert(run(s, f.s, f.w) == run_range(seq![row], f.nv.i, 0, f.p.ni, f.s, f.w));
            match row {
                StmtV::For { var: j, start: js, end: nj, body: jb } => {
                    let b = Part::Whole(jb.stmts);
                    assert forall|r: Store|
                        #[trigger] alike(f.s, r, working(f.nv, f.ii, f.jj, f.kk), f.nv.c) && same_tile(f, f.s, r) implies eval(
                        js,
                        r,
                        f.w,
                    ) == Val::Int(0) && eval(nj, r, f.w) == Val::Int(f.p.nj) by {}
                    rectangle_done(f, b, row, f.s, untouched(), 0, f.p.ni, 0, f.p.nj, 0, 0);
                    let r = run(s, f.s, f.w);
                    all_done(f, r, boxed(untouched(), 0, f.p.ni, 0, f.p.nj, level_to(f, b, 0, 0)));
                },
                _ => {},
            }
        },
        _ => {},
    }
}

// ---- the product tiled ----

/// So many tiles of the side cover a range, and none is empty.
pub open spec fn tiles_cover(k: int, n: int, d: int) -> bool {
    &&& n > 0 ==> (k - 1) * d < n <= k * d
    &&& n <= 0 ==> k <= 0
}

/// How a product is tiled.
pub struct Tiling {
    pub t: TileV,
    pub d: int,
    pub elem: Ty,
    pub line: u32,
}

/// The side is at least one; one that is a parameter divides the bounds.
pub open spec fn tiling_ok(f: Frame, g: Tiling) -> bool {
    &&& g.d >= 1
    &&& side_steady(f, g.t, g.d)
    &&& !g.elem.arrayish()
    &&& g.t is Param ==> f.p.ni % g.d == 0 && f.p.nj % g.d == 0 && f.p.nk % g.d == 0
}

proof fn round_up(n: int, d: int)
    requires
        d >= 1,
    ensures
        tiles_cover(whole_quotient(n + (d - 1), d), n, d),
{
    let m = n + (d - 1);
    let k = whole_quotient(m, d);
    if n > 0 {
        vstd::arithmetic::div_mod::lemma_fundamental_div_mod(m, d);
        vstd::arithmetic::div_mod::lemma_mod_bound(m, d);
        assert(k == m / d);
        assert(m == d * k + m % d);
        assert((k - 1) * d == d * k - d) by (nonlinear_arith);
        assert(k * d == d * k) by (nonlinear_arith);
    } else if m >= 0 {
        assert(m < d);
        vstd::arithmetic::div_mod::lemma_basic_div(m, d);
        assert(k == 0);
    } else {
        vstd::arithmetic::div_mod::lemma_div_pos_is_pos(-m, d);
        assert(k == -((-m) / d));
    }
}

proof fn divides_up(n: int, d: int)
    requires
        d >= 1,
        n % d == 0,
    ensures
        tiles_cover(whole_quotient(n, d), n, d),
{
    let k = whole_quotient(n, d);
    if n > 0 {
        vstd::arithmetic::div_mod::lemma_fundamental_div_mod(n, d);
        assert(n == d * k);
        assert((k - 1) * d == d * k - d) by (nonlinear_arith);
        assert(k * d == d * k) by (nonlinear_arith);
    } else if n < 0 {
        vstd::arithmetic::div_mod::lemma_div_pos_is_pos(-n, d);
        assert(k == -((-n) / d));
    } else {
        vstd::arithmetic::div_mod::lemma_basic_div(0, d);
        assert(k == 0);
    }
}

/// How many tiles there are in a range.
pub open spec fn tile_count(g: Tiling, n: int) -> int {
    match g.t {
        TileV::Fixed(k) => whole_quotient(n + (g.d - 1), g.d),
        TileV::Param(l) => whole_quotient(n, g.d),
    }
}

proof fn counted_tiles(f: Frame, g: Tiling, n: ExprV, m: int, h: Store, e: Level)
    requires
        tiling_ok(f, g),
        midst(f, h, e),
        eval(n, h, f.w) == Val::Int(m),
        g.t is Param ==> m % g.d == 0,
    ensures
        eval(v_tiles(g.t, n, g.line), h, f.w) == Val::Int(tile_count(g, m)),
        tiles_cover(tile_count(g, m), m, g.d),
{
    side_now(f, g.t, g.d, h, e);
    match g.t {
        TileV::Fixed(k) => {
            round_up(m, g.d);
            let (one, two) = (v_int((k - 1) as i64, g.line), v_int(k, g.line));
            let sum = v_bin(BinOp::Add, n, one);
            assert(eval(one, h, f.w) == Val::Int(g.d - 1));
            assert(eval(two, h, f.w) == Val::Int(g.d));
            assert(eval(sum, h, f.w) == operate(BinOp::Add, eval(n, h, f.w), eval(one, h, f.w), f.w));
            assert(eval(v_tiles(g.t, n, g.line), h, f.w) == operate(
                BinOp::Div,
                eval(sum, h, f.w),
                eval(two, h, f.w),
                f.w,
            ));
        },
        TileV::Param(l) => {
            divides_up(m, g.d);
            let x = v_local(l, Ty::I64, g.line);
            assert(eval(x, h, f.w) == (h.vars)(l));
            assert(eval(v_tiles(g.t, n, g.line), h, f.w) == operate(BinOp::Div, eval(n, h, f.w), eval(x, h, f.w), f.w));
        },
    }
}

pub open spec fn over_j(f: Frame, g: Tiling) -> StmtV {
    v_for(
        f.nv.j,
        v_lo(g.t, f.jj, g.line),
        v_hi(g.t, f.jj, f.nv.nj, g.line),
        v_tile_body(f.nv, g.t, f.kk, g.elem, g.line),
    )
}

pub open spec fn over_i(f: Frame, g: Tiling) -> StmtV {
    v_for(f.nv.i, v_lo(g.t, f.ii, g.line), v_hi(g.t, f.ii, f.nv.ni, g.line), seq![over_j(f, g)])
}

pub open spec fn over_kk(f: Frame, g: Tiling) -> StmtV {
    v_for(f.kk, v_int(0, g.line), v_tiles(g.t, f.nv.nk, g.line), seq![over_i(f, g)])
}

pub open spec fn over_jj(f: Frame, g: Tiling) -> StmtV {
    v_for(f.jj, v_int(0, g.line), v_tiles(g.t, f.nv.nj, g.line), seq![over_kk(f, g)])
}

/// How far a range is covered by its first `q` tiles.
pub open spec fn covered(q: int, d: int, n: int) -> int {
    if q <= 0 {
        0
    } else {
        at_most(q * d, n)
    }
}

/// A tile of a range: where it starts and ends, and that it lies in the range.
proof fn tile_range(q: int, k: int, d: int, n: int)
    requires
        d >= 1,
        0 <= q < k,
        tiles_cover(k, n, d),
    ensures
        0 <= q * d < n,
        covered(q, d, n) == q * d,
        covered(q + 1, d, n) == at_most(q * d + d, n),
        q * d <= covered(q + 1, d, n) <= n,
{
    assert(n > 0);
    assert(q * d <= (k - 1) * d) by (nonlinear_arith)
        requires
            q <= k - 1,
            d >= 1,
    ;
    assert(q * d >= 0) by (nonlinear_arith)
        requires
            q >= 0,
            d >= 1,
    ;
    assert((q + 1) * d == q * d + d) by (nonlinear_arith);
    if q == 0 {
        assert(0 * d == 0) by (nonlinear_arith);
    }
}

proof fn all_covered(k: int, d: int, n: int)
    requires
        d >= 1,
        tiles_cover(k, n, d),
        n > 0,
    ensures
        covered(k, d, n) == n,
        k >= 1,
{
    if k <= 0 {
        assert(k * d <= 0) by (nonlinear_arith)
            requires
                k <= 0,
                d >= 1,
        ;
    }
}

/// The tile loop over the innermost range: the elements of the rectangle get the terms of the tiles.
proof fn depth_done(f: Frame, g: Tiling, h: Store, e: Level, qi: int, qj: int, ki: int, kj: int, kn: int, q: int)
    requires
        framed(f),
        tiling_ok(f, g),
        midst(f, h, e),
        (h.vars)(f.ii) == Val::Int(qi),
        (h.vars)(f.jj) == Val::Int(qj),
        0 <= qi < ki,
        0 <= qj < kj,
        tiles_cover(ki, f.p.ni, g.d),
        tiles_cover(kj, f.p.nj, g.d),
        tiles_cover(kn, f.p.nk, g.d),
        q == 0 || 0 <= q <= kn,
        waiting(f, e, qi * g.d, covered(qi + 1, g.d, f.p.ni), qj * g.d, covered(qj + 1, g.d, f.p.nj), 0),
    ensures
        ({
            let r = run_range(seq![over_i(f, g)], f.kk, 0, q, h, f.w);
            &&& midst(
                f,
                r,
                boxed(
                    e,
                    qi * g.d,
                    covered(qi + 1, g.d, f.p.ni),
                    qj * g.d,
                    covered(qj + 1, g.d, f.p.nj),
                    covered(q, g.d, f.p.nk),
                ),
            )
            &&& (r.vars)(f.ii) == (h.vars)(f.ii)
            &&& (r.vars)(f.jj) == (h.vars)(f.jj)
        }),
    decreases q,
{
    let d = g.d;
    let (x0, x1, y0, y1) = (qi * d, covered(qi + 1, d, f.p.ni), qj * d, covered(qj + 1, d, f.p.nj));
    let w = f.w;
    working_members(f);
    tile_range(qi, ki, d, f.p.ni);
    tile_range(qj, kj, d, f.p.nj);
    if q > 0 {
        let z = q - 1;
        depth_done(f, g, h, e, qi, qj, ki, kj, kn, z);
        tile_range(z, kn, d, f.p.nk);
        let r0 = run_range(seq![over_i(f, g)], f.kk, 0, z, h, w);
        let e0 = boxed(e, x0, x1, y0, y1, covered(z, d, f.p.nk));
        let t = with_var(r0, f.kk, Val::Int(z));
        working_local(f, r0, e0, f.kk, Val::Int(z));
        let b = Part::Tile(g.t, g.elem, g.line);
        let row = over_j(f, g);
        assert(part_ok(f, b, z, d));
        assert(is_row(f, b, row, t, y0, y1)) by {
            assert forall|r: Store|
                #[trigger] alike(f.s, r, working(f.nv, f.ii, f.jj, f.kk), f.nv.c) && same_tile(f, t, r) implies eval(
                v_lo(g.t, f.jj, g.line),
                r,
                w,
            ) == Val::Int(y0) && eval(v_hi(g.t, f.jj, f.nv.nj, g.line), r, w) == Val::Int(y1) by {
                assert((r.vars)(f.jj) == Val::Int(qj));
                assert(eval(f.nv.nj, r, w) == Val::Int(f.p.nj));
                assert(match g.t {
                    TileV::Fixed(n) => d == n,
                    TileV::Param(l) => (r.vars)(l) == Val::Int(d),
                });
                lo_is(g.t, f.jj, g.line, r, qj, d, w);
                hi_is(g.t, f.jj, f.nv.nj, g.line, r, qj, d, f.p.nj, w);
            }
        }
        run_one(over_i(f, g), t, w);
        side_now(f, g.t, d, t, e0);
        assert((t.vars)(f.ii) == Val::Int(qi));
        assert(alike(f.s, t, working(f.nv, f.ii, f.jj, f.kk), f.nv.c));
        assert(eval(f.nv.ni, t, w) == Val::Int(f.p.ni));
        lo_is(g.t, f.ii, g.line, t, qi, d, w);
        hi_is(g.t, f.ii, f.nv.ni, g.line, t, qi, d, f.p.ni, w);
        let r = run(over_i(f, g), t, w);
        assert(r == run_range(seq![row], f.nv.i, x0, x1, t, w));
        assert forall|x: int, y: int| x0 <= x < x1 && y0 <= y < y1 && in_result(f.p, x, y) implies #[trigger] e0(x, y) == z
            * d by {}
        rectangle_done(f, b, row, t, e0, x0, x1, y0, y1, z, d);
        same_level(f, r, boxed(e0, x0, x1, y0, y1, level_to(f, b, z, d)), boxed(e, x0, x1, y0, y1, covered(q, d, f.p.nk)));
        let own = seq![f.nv.i, f.nv.j, f.nv.k, f.nv.acc];
        assert(!own.contains(f.ii) && !own.contains(f.jj)) by {
            assert(own[0] != f.ii && own[1] != f.ii && own[2] != f.ii && own[3] != f.ii);
            assert(own[0] != f.jj && own[1] != f.jj && own[2] != f.jj && own[3] != f.jj);
        }
        assert((r.vars)(f.ii) == (t.vars)(f.ii) && (r.vars)(f.jj) == (t.vars)(f.jj));
    } else {
        let e0 = boxed(e, x0, x1, y0, y1, 0);
        assert forall|x: int, y: int| in_result(f.p, x, y) implies #[trigger] e(x, y) == #[trigger] e0(x, y) by {}
        same_level(f, h, e, e0);
    }
}

/// The loop over all tiles of the innermost range.
proof fn depths_done(f: Frame, g: Tiling, h: Store, e: Level, qi: int, qj: int, ki: int, kj: int)
    requires
        framed(f),
        tiling_ok(f, g),
        midst(f, h, e),
        (h.vars)(f.ii) == Val::Int(qi),
        (h.vars)(f.jj) == Val::Int(qj),
        0 <= qi < ki,
        0 <= qj < kj,
        tiles_cover(ki, f.p.ni, g.d),
        tiles_cover(kj, f.p.nj, g.d),
        waiting(f, e, qi * g.d, covered(qi + 1, g.d, f.p.ni), qj * g.d, covered(qj + 1, g.d, f.p.nj), 0),
    ensures
        ({
            let r = run(over_kk(f, g), h, f.w);
            &&& midst(
                f,
                r,
                boxed(
                    e,
                    qi * g.d,
                    covered(qi + 1, g.d, f.p.ni),
                    qj * g.d,
                    covered(qj + 1, g.d, f.p.nj),
                    level_whole(f.p),
                ),
            )
            &&& (r.vars)(f.ii) == (h.vars)(f.ii)
            &&& (r.vars)(f.jj) == (h.vars)(f.jj)
        }),
{
    let kn = tile_count(g, f.p.nk);
    let zero = v_int(0, g.line);
    assert(alike(f.s, h, working(f.nv, f.ii, f.jj, f.kk), f.nv.c));
    assert(eval(f.nv.nk, h, f.w) == Val::Int(f.p.nk));
    counted_tiles(f, g, f.nv.nk, f.p.nk, h, e);
    assert(eval(zero, h, f.w) == Val::Int(0));
    let r = run(over_kk(f, g), h, f.w);
    assert(r == run_range(seq![over_i(f, g)], f.kk, 0, kn, h, f.w));
    if f.p.nk > 0 {
        all_covered(kn, g.d, f.p.nk);
        depth_done(f, g, h, e, qi, qj, ki, kj, kn, kn);
    } else {
        assert(kn <= 0);
        assert(r == h);
        depth_done(f, g, h, e, qi, qj, ki, kj, kn, 0);
    }
}

/// The tile loop over the columns: the elements of the rows of one tile are done.
proof fn columns_done(f: Frame, g: Tiling, h: Store, e: Level, qi: int, ki: int, kj: int, q: int)
    requires
        framed(f),
        tiling_ok(f, g),
        midst(f, h, e),
        (h.vars)(f.ii) == Val::Int(qi),
        0 <= qi < ki,
        tiles_cover(ki, f.p.ni, g.d),
        tiles_cover(kj, f.p.nj, g.d),
        q == 0 || 0 <= q <= kj,
        waiting(f, e, qi * g.d, covered(qi + 1, g.d, f.p.ni), 0, f.p.nj, 0),
    ensures
        ({
            let r = run_range(seq![over_kk(f, g)], f.jj, 0, q, h, f.w);
            &&& midst(
                f,
                r,
                boxed(e, qi * g.d, covered(qi + 1, g.d, f.p.ni), 0, covered(q, g.d, f.p.nj), level_whole(f.p)),
            )
            &&& (r.vars)(f.ii) == (h.vars)(f.ii)
        }),
    decreases q,
{
    let d = g.d;
    let (x0, x1) = (qi * d, covered(qi + 1, d, f.p.ni));
    let n = level_whole(f.p);
    working_members(f);
    if q > 0 {
        let z = q - 1;
        columns_done(f, g, h, e, qi, ki, kj, z);
        tile_range(z, kj, d, f.p.nj);
        tile_range(qi, ki, d, f.p.ni);
        let r0 = run_range(seq![over_kk(f, g)], f.jj, 0, z, h, f.w);
        let e0 = boxed(e, x0, x1, 0, covered(z, d, f.p.nj), n);
        let t = with_var(r0, f.jj, Val::Int(z));
        working_local(f, r0, e0, f.jj, Val::Int(z));
        let (y0, y1) = (z * d, covered(q, d, f.p.nj));
        assert forall|x: int, y: int| x0 <= x < x1 && y0 <= y < y1 && in_result(f.p, x, y) implies #[trigger] e0(x, y) == 0 by {
            assert(e(x, y) == 0);
        }
        depths_done(f, g, t, e0, qi, z, ki, kj);
        run_one(over_kk(f, g), t, f.w);
        let r = run(over_kk(f, g), t, f.w);
        let e1 = boxed(e0, x0, x1, y0, y1, n);
        let e2 = boxed(e, x0, x1, 0, covered(q, d, f.p.nj), n);
        assert forall|x: int, y: int| in_result(f.p, x, y) implies #[trigger] e1(x, y) == #[trigger] e2(x, y) by {}
        same_level(f, r, e1, e2);
    } else {
        let e0 = boxed(e, x0, x1, 0, 0, n);
        assert forall|x: int, y: int| in_result(f.p, x, y) implies #[trigger] e(x, y) == #[trigger] e0(x, y) by {}
        same_level(f, h, e, e0);
    }
}

/// The tile loop over the rows.
proof fn rows_done(f: Frame, g: Tiling, h: Store, e: Level, ki: int, q: int)
    requires
        framed(f),
        tiling_ok(f, g),
        midst(f, h, e),
        tiles_cover(ki, f.p.ni, g.d),
        q == 0 || 0 <= q <= ki,
        waiting(f, e, 0, f.p.ni, 0, f.p.nj, 0),
    ensures
        midst(
            f,
            run_range(seq![over_jj(f, g)], f.ii, 0, q, h, f.w),
            boxed(e, 0, covered(q, g.d, f.p.ni), 0, f.p.nj, level_whole(f.p)),
        ),
    decreases q,
{
    let d = g.d;
    let n = level_whole(f.p);
    working_members(f);
    if q > 0 {
        let z = q - 1;
        rows_done(f, g, h, e, ki, z);
        tile_range(z, ki, d, f.p.ni);
        let r0 = run_range(seq![over_jj(f, g)], f.ii, 0, z, h, f.w);
        let e0 = boxed(e, 0, covered(z, d, f.p.ni), 0, f.p.nj, n);
        let t = with_var(r0, f.ii, Val::Int(z));
        working_local(f, r0, e0, f.ii, Val::Int(z));
        let (x0, x1) = (z * d, covered(q, d, f.p.ni));
        assert forall|x: int, y: int| x0 <= x < x1 && 0 <= y < f.p.nj && in_result(f.p, x, y) implies #[trigger] e0(x, y)
            == 0 by {
            assert(e(x, y) == 0);
        }
        let kj = tile_count(g, f.p.nj);
        let zero = v_int(0, g.line);
        assert(alike(f.s, t, working(f.nv, f.ii, f.jj, f.kk), f.nv.c));
        assert(eval(f.nv.nj, t, f.w) == Val::Int(f.p.nj));
        counted_tiles(f, g, f.nv.nj, f.p.nj, t, e0);
        assert(eval(zero, t, f.w) == Val::Int(0));
        run_one(over_jj(f, g), t, f.w);
        let r = run(over_jj(f, g), t, f.w);
        assert(r == run_range(seq![over_kk(f, g)], f.jj, 0, kj, t, f.w));
        let e2 = boxed(e, 0, covered(q, d, f.p.ni), 0, f.p.nj, n);
        if f.p.nj > 0 {
            all_covered(kj, d, f.p.nj);
            columns_done(f, g, t, e0, z, ki, kj, kj);
            let e1 = boxed(e0, x0, x1, 0, covered(kj, d, f.p.nj), n);
            assert forall|x: int, y: int| in_result(f.p, x, y) implies #[trigger] e1(x, y) == #[trigger] e2(x, y) by {}
            same_level(f, r, e1, e2);
        } else {
            assert(r == t);
            assert forall|x: int, y: int| in_result(f.p, x, y) implies #[trigger] e0(x, y) == #[trigger] e2(x, y) by {}
            same_level(f, r, e0, e2);
        }
    } else {
        let e0 = boxed(e, 0, 0, 0, f.p.nj, n);
        assert forall|x: int, y: int| in_result(f.p, x, y) implies #[trigger] e(x, y) == #[trigger] e0(x, y) by {}
        same_level(f, h, e, e0);
    }
}

/// The loops that clear the result leave every element at its start.
proof fn cleared(f: Frame, line: u32)
    requires
        framed(f),
    ensures
        midst(f, run(v_clear(f.nv, line), f.s, f.w), boxed(untouched(), 0, f.p.ni, 0, f.p.nj, 0)),
{
    let b = Part::Start(line);
    let zero = v_int(0, line);
    let row = v_for(f.nv.j, zero, f.nv.nj, part_stmts(f, b));
    let s = f.s;
    nothing_done(f);
    assert(alike(s, s, working(f.nv, f.ii, f.jj, f.kk), f.nv.c));
    assert(eval(zero, s, f.w) == Val::Int(0));
    assert(eval(f.nv.ni, s, f.w) == Val::Int(f.p.ni));
    assert(run(v_clear(f.nv, line), s, f.w) == run_range(seq![row], f.nv.i, 0, f.p.ni, s, f.w));
    assert forall|r: Store|
        #[trigger] alike(s, r, working(f.nv, f.ii, f.jj, f.kk), f.nv.c) && same_tile(f, s, r) implies eval(zero, r, f.w)
        == Val::Int(0) && eval(f.nv.nj, r, f.w) == Val::Int(f.p.nj) by {}
    rectangle_done(f, b, row, s, untouched(), 0, f.p.ni, 0, f.p.nj, 0, 0);
}

/// A product that is tiled still computes it: the loops that clear the result and the tiled loops leave
/// in every element the sum of all its terms, added to its start in the same order, and change no other
/// element of any array.
pub proof fn tiled_computes(f: Frame, g: Tiling)
    requires
        framed(f),
        tiling_ok(f, g),
    ensures
        is_product(
            f.p,
            f.nv.c,
            f.s,
            run_all(
                seq![v_clear(f.nv, g.line), v_tiled(f.nv, g.t, f.ii, f.jj, f.kk, g.elem, g.line)],
                f.s,
                f.w,
            ),
            f.w,
        ),
        alike(
            f.s,
            run_all(
                seq![v_clear(f.nv, g.line), v_tiled(f.nv, g.t, f.ii, f.jj, f.kk, g.elem, g.line)],
                f.s,
                f.w,
            ),
            working(f.nv, f.ii, f.jj, f.kk),
            f.nv.c,
        ),
{
    let clear = v_clear(f.nv, g.line);
    let nest = v_tiled(f.nv, g.t, f.ii, f.jj, f.kk, g.elem, g.line);
    run_two(clear, nest, f.s, f.w);
    cleared(f, g.line);
    let h = run(clear, f.s, f.w);
    let e = boxed(untouched(), 0, f.p.ni, 0, f.p.nj, 0);
    let ki = tile_count(g, f.p.ni);
    let zero = v_int(0, g.line);
    assert(alike(f.s, h, working(f.nv, f.ii, f.jj, f.kk), f.nv.c));
    assert(eval(f.nv.ni, h, f.w) == Val::Int(f.p.ni));
    counted_tiles(f, g, f.nv.ni, f.p.ni, h, e);
    assert(eval(zero, h, f.w) == Val::Int(0));
    assert(nest == v_for(f.ii, zero, v_tiles(g.t, f.nv.ni, g.line), seq![over_jj(f, g)]));
    let r = run(nest, h, f.w);
    assert(r == run_range(seq![over_jj(f, g)], f.ii, 0, ki, h, f.w));
    assert forall|x: int, y: int| 0 <= x < f.p.ni && 0 <= y < f.p.nj && in_result(f.p, x, y) implies #[trigger] e(x, y)
        == 0 by {}
    if f.p.ni > 0 {
        all_covered(ki, g.d, f.p.ni);
        rows_done(f, g, h, e, ki, ki);
        all_done(f, r, boxed(e, 0, covered(ki, g.d, f.p.ni), 0, f.p.nj, level_whole(f.p)));
    } else {
        assert(r == h);
        all_done(f, r, e);
    }
}

// ---- functions ----

/// The stores agree on arrays, and on all locals but some.
pub open spec fn same_but(a: Store, b: Store, own: Seq<usize>) -> bool {
    &&& forall|l: usize| !own.contains(l) ==> #[trigger] (a.vars)(l) == (b.vars)(l)
    &&& a.cells == b.cells
    &&& a.lens == b.lens
}

/// What the statement does does not depend on some locals, except for their own values.
pub open spec fn blind(t: StmtV, own: Seq<usize>, w: World) -> bool {
    forall|a: Store, b: Store| #[trigger] same_but(a, b, own) ==> same_but(run(t, a, w), run(t, b, w), own)
}

/// There is one product.
proof fn one_product(p: Product, c: usize, s: Store, a: Store, b: Store, own: Seq<usize>, w: World)
    requires
        is_product(p, c, s, a, w),
        is_product(p, c, s, b, w),
        alike(s, a, own, c),
        alike(s, b, own, c),
    ensures
        same_but(a, b, own),
{
    assert forall|l: usize, at: int| #[trigger] (a.cells)(l, at) == (b.cells)(l, at) by {
        if l == c && taken(p, at) {
            let (x, y) = choose|x: int, y: int| in_result(p, x, y) && #[trigger] (p.place)(x, y) == at;
            assert((a.cells)(c, (p.place)(x, y)) == summed(p, x, y, p.nk, w));
            assert((b.cells)(c, (p.place)(x, y)) == summed(p, x, y, p.nk, w));
        } else {
            assert((a.cells)(l, at) == (s.cells)(l, at));
            assert((b.cells)(l, at) == (s.cells)(l, at));
        }
    }
    assert(a.cells =~= b.cells);
    assert forall|l: usize| !own.contains(l) implies #[trigger] (a.vars)(l) == (b.vars)(l) by {
        assert((a.vars)(l) == (s.vars)(l));
        assert((b.vars)(l) == (s.vars)(l));
    }
}

proof fn rest_blind(t: Seq<StmtV>, own: Seq<usize>, a: Store, b: Store, w: World)
    requires
        forall|k: int| 0 <= k < t.len() ==> blind(#[trigger] t[k], own, w),
        same_but(a, b, own),
    ensures
        same_but(run_all(t, a, w), run_all(t, b, w), own),
    decreases t.len(),
{
    if t.len() > 0 {
        let u = t.drop_last();
        assert forall|k: int| 0 <= k < u.len() implies blind(#[trigger] u[k], own, w) by {
            assert(u[k] == t[k]);
        }
        rest_blind(u, own, a, b, w);
        assert(blind(t[t.len() - 1], own, w));
    }
}

/// The parts of a function whose body holds a product, in its own statements.
pub open spec fn before_product(f: FuncV) -> Seq<StmtV> {
    f.body->0.stmts.take(naive_of(f)->0.path[0])
}

pub open spec fn after_product(f: FuncV) -> Seq<StmtV> {
    f.body->0.stmts.skip(naive_of(f)->0.path[0] + 1)
}

/// Where a statement of a function's body is replaced by others with the same arrays after them, all
/// arrays are the same after the function.
proof fn replaced_same(f: FuncV, with: Seq<StmtV>, own: Seq<usize>, s: Store, w: World)
    requires
        f.body is Some,
        naive_of(f) is Some,
        naive_of(f)->0.path.len() == 1,
        forall|k: int| 0 <= k < after_product(f).len() ==> blind(#[trigger] after_product(f)[k], own, w),
        ({
            let h = run_all(before_product(f), s, w);
            same_but(
                run_all(with, h, w),
                run(stmt_of(f.body->0.stmts, naive_of(f)->0.path)->0, h, w),
                own,
            )
        }),
    ensures
        same_but(
            run_all(replaced_at(f.body->0, naive_of(f)->0.path, with).stmts, s, w),
            run_all(f.body->0.stmts, s, w),
            own,
        ),
{
    let b = f.body->0;
    let path = naive_of(f)->0.path;
    naive_found(b.stmts, 0);
    let k = path[0];
    let (pre, post) = (before_product(f), after_product(f));
    let nest = b.stmts[k];
    assert(stmt_of(b.stmts, path) == Some(nest));
    assert(b.stmts =~= (pre + seq![nest]) + post);
    let r = replaced_at(b, path, with);
    assert(r.stmts =~= (pre + with) + post);
    let h = run_all(pre, s, w);
    run_more(pre + seq![nest], post, s, w);
    run_more(pre, seq![nest], s, w);
    run_one(nest, h, w);
    run_more(pre + with, post, s, w);
    run_more(pre, with, s, w);
    rest_blind(post, own, run_all(with, h, w), run(nest, h, w), w);
}

/// A function whose product is tiled leaves all arrays as the function does, whatever they hold at its
/// start: where the product stands in the function's own statements and those behind it do not look at
/// its loops.
pub proof fn tile_keeps_arrays(f: FuncV, t: i64, fr: Frame, s: Store)
    requires
        naive_of(f) is Some,
        naive_of(f)->0.path.len() == 1,
        fr.nv == pathless(naive_of(f)->0),
        fr.ii == f.locals.len(),
        fr.jj == f.locals.len() + 1,
        fr.kk == f.locals.len() + 2,
        fr.s == run_all(before_product(f), s, fr.w),
        framed(fr),
        t >= 1,
        !local_of(f, fr.nv.acc).ty.arrayish(),
        forall|k: int|
            0 <= k < after_product(f).len() ==> blind(
                #[trigger] after_product(f)[k],
                working(fr.nv, fr.ii, fr.jj, fr.kk),
                fr.w,
            ),
    ensures
        s_tile(f, t) is Some,
        same_but(
            run_all(s_tile(f, t)->0.body->0.stmts, s, fr.w),
            run_all(f.body->0.stmts, s, fr.w),
            working(fr.nv, fr.ii, fr.jj, fr.kk),
        ),
{
    let nv = naive_of(f)->0;
    let own = working(fr.nv, fr.ii, fr.jj, fr.kk);
    let line = mac_line(nv.mac);
    let elem = local_of(f, nv.acc).ty;
    let g = Tiling { t: TileV::Fixed(t), d: t as int, elem, line };
    naive_found(f.body->0.stmts, 0);
    let nest = stmt_of(f.body->0.stmts, nv.path)->0;
    product_computes(nest, fr);
    tiled_computes(fr, g);
    assert(f.locals + Seq::<LocalV>::empty() =~= f.locals);
    let with = seq![v_clear(fr.nv, line), v_tiled(fr.nv, g.t, fr.ii, fr.jj, fr.kk, elem, line)];
    assert(v_clear(nv, line) == v_clear(fr.nv, line));
    assert(v_tiled(nv, g.t, fr.ii, fr.jj, fr.kk, elem, line) == v_tiled(fr.nv, g.t, fr.ii, fr.jj, fr.kk, elem, line));
    one_product(fr.p, fr.nv.c, fr.s, run_all(with, fr.s, fr.w), run(nest, fr.s, fr.w), own, fr.w);
    replaced_same(f, with, own, s, fr.w);
}

/// Wherever the product stands in a function, the statements that stand there once it is tiled leave
/// the same product as the loops they replace.
pub proof fn tile_keeps_product(f: FuncV, t: i64, fr: Frame)
    requires
        naive_of(f) is Some,
        fr.nv == pathless(naive_of(f)->0),
        fr.ii == f.locals.len(),
        fr.jj == f.locals.len() + 1,
        fr.kk == f.locals.len() + 2,
        framed(fr),
        t >= 1,
        !local_of(f, fr.nv.acc).ty.arrayish(),
    ensures
        ({
            let path = naive_of(f)->0.path;
            let was = stmt_of(f.body->0.stmts, path);
            let tiled = s_tile(f, t)->0.body->0.stmts;
            let (a, b) = (stmt_of(tiled, path), stmt_of(tiled, behind(path)));
            &&& was is Some && a is Some && b is Some
            &&& is_product(fr.p, fr.nv.c, fr.s, run(was->0, fr.s, fr.w), fr.w)
            &&& is_product(fr.p, fr.nv.c, fr.s, run_all(seq![a->0, b->0], fr.s, fr.w), fr.w)
        }),
{
    let nv = naive_of(f)->0;
    let line = mac_line(nv.mac);
    let elem = local_of(f, nv.acc).ty;
    let g = Tiling { t: TileV::Fixed(t), d: t as int, elem, line };
    naive_found(f.body->0.stmts, 0);
    let nest = stmt_of(f.body->0.stmts, nv.path)->0;
    product_computes(nest, fr);
    tiled_computes(fr, g);
    assert(f.locals + Seq::<LocalV>::empty() =~= f.locals);
    let (clear, tiled) = (v_clear(nv, line), v_tiled(nv, g.t, fr.ii, fr.jj, fr.kk, elem, line));
    assert(clear == v_clear(fr.nv, line));
    assert(tiled == v_tiled(fr.nv, g.t, fr.ii, fr.jj, fr.kk, elem, line));
    replaced_found(f.body->0, nv.path, clear, tiled);
    replaced_first(f.body->0, nv.path, clear, tiled);
}

proof fn replaced_first(b: BlockV, path: Seq<int>, first: StmtV, second: StmtV)
    requires
        path.len() > 0,
        stmt_of(b.stmts, path) is Some,
    ensures
        stmt_of(replaced_at(b, path, seq![first, second]).stmts, path) == Some(first),
    decreases path.len(),
{
    let with = seq![first, second];
    let r = replaced_at(b, path, with);
    if path.len() == 1 {
        assert(r.stmts[path[0]] == first);
    } else {
        match b.stmts[path[0]] {
            StmtV::For { var, start, end, body } => {
                replaced_first(body, path.drop_first(), first, second);
                assert(r.stmts[path[0]] == StmtV::For {
                    var,
                    start,
                    end,
                    body: replaced_at(body, path.drop_first(), with),
                });
            },
            _ => {},
        }
    }
}

} // verus!
