//! What a product computes once an operand is transposed: the same, from a copy of the operand.

use vstd::prelude::*;
use crate::ast::BinOp;
use crate::cost::bounds::{mac_of, product_of};
use crate::cost::products::{
    addend, after_product, alike, all_distinct, before_product, computes, counted, framed, in_result, is_product,
    places_apart, product_computes, taken, turned, summed, working, Frame, Product,
};
use crate::cost::rewrite::{
    flip_locals, flip_of, mac_replaced, macs_replaced, naive_here, read_replaced, renamed, replaced_at, s_transpose,
    stmt_of, ty_at, v_copying, v_row, v_zero, FlipV, NaiveV,
};
use crate::cost::tiles::{naive_found, pathless};
use crate::ir::{BlockV, ExprV, FuncV, KindV, LValueV, LocalV, StmtV};
use crate::irbuild::{v_bin, v_for, v_index, v_int, v_local, v_store};
use crate::meaning::{
    eval, number, operate, run, run_all, run_more, run_one, run_push, run_range, run_two, smaller, stored, turn,
    with_array, with_cell, with_var, Store, Val, World,
};

verus! {

// ---- stores that differ in the copy ----

/// The stores agree but on those locals, on the result and on the copy.
pub open spec fn alike_but(s: Store, h: Store, own: Seq<usize>, c: usize, copy: usize) -> bool {
    &&& forall|l: usize| !own.contains(l) ==> #[trigger] (h.vars)(l) == (s.vars)(l)
    &&& forall|l: usize, at: int| l != c && l != copy ==> #[trigger] (h.cells)(l, at) == (s.cells)(l, at)
    &&& forall|l: usize| l != copy ==> #[trigger] (h.lens)(l) == (s.lens)(l)
}

/// The statements of a product compute `p` from `s`, and do not look at the copy either.
pub open spec fn computes_apart(nv: NaiveV, p: Product, s: Store, own: Seq<usize>, copy: usize, w: World) -> bool {
    &&& forall|h: Store|
        #[trigger] alike_but(s, h, own, nv.c, copy) ==> eval(nv.ni, h, w) == Val::Int(p.ni) && eval(nv.nj, h, w)
            == Val::Int(p.nj) && eval(nv.nk, h, w) == Val::Int(p.nk)
    &&& forall|h: Store, x: int, y: int|
        #[trigger] alike_but(s, h, own, nv.c, copy) && #[trigger] turned(nv, h, x, y) && in_result(p, x, y) ==> eval(
            nv.zero,
            h,
            w,
        ) == (p.start)(x, y) && eval(nv.ic, h, w) == Val::Int((p.place)(x, y))
    &&& forall|h: Store, x: int, y: int, z: int|
        #[trigger] alike_but(s, h, own, nv.c, copy) && #[trigger] turned(nv, h, x, y) && #[trigger] counted(nv, h, z)
            && in_result(p, x, y) && 0 <= z < p.nk ==> eval(addend(nv), h, w) == (p.term)(x, y, z)
}

/// A transposition: what is flipped, the product it is part of, and where in the operand its elements
/// stand, by the innermost variable and the other one.
pub struct Turn {
    pub x: FlipV,
    pub p: Product,
    pub s: Store,
    pub at: spec_fn(int, int) -> int,
    pub copy: usize,
    pub pv: usize,
    pub qv: usize,
    pub w: World,
}

pub open spec fn nv_of(t: Turn) -> NaiveV {
    t.x.nv
}

pub open spec fn own_of(t: Turn) -> Seq<usize> {
    working(t.x.nv, t.pv, t.qv, t.copy)
}

/// How far the other variable runs.
pub open spec fn other_count(t: Turn) -> int {
    if t.x.other == t.x.nv.j {
        t.p.nj
    } else {
        t.p.ni
    }
}

/// An index that renaming reaches all locals of.
pub open spec fn renameable(e: ExprV) -> bool
    decreases e,
{
    match e.kind {
        KindV::Int(_) => true,
        KindV::Local(_) => true,
        KindV::Len(_) => true,
        KindV::Binary(_, a, b) => renameable(*a) && renameable(*b),
        KindV::MinMax(_, a, b) => renameable(*a) && renameable(*b),
        KindV::Unary(_, a) => renameable(*a),
        KindV::Cast(a, _) => renameable(*a),
        _ => false,
    }
}

pub open spec fn sets(h: Store, l: usize, v: int) -> bool {
    (h.vars)(l) == Val::Int(v)
}

/// The operand's element depends on the innermost variable and the other one only.
pub open spec fn stands(t: Turn) -> bool {
    forall|h: Store, z: int, o: int|
        #[trigger] alike_but(t.s, h, own_of(t), t.x.nv.c, t.copy) && #[trigger] sets(h, t.x.nv.k, z) && #[trigger] sets(
            h,
            t.x.other,
            o,
        ) && 0 <= z < t.p.nk && 0 <= o < other_count(t) ==> eval(t.x.idx, h, t.w) == Val::Int((t.at)(z, o))
}

/// The flipped operand is one of two different arrays that are multiplied, and not the result.
pub open spec fn operand_ok(t: Turn) -> bool {
    match product_of(addend(t.x.nv)) {
        Some(m) => {
            &&& m.a != m.b
            &&& (t.x.arr == m.a && t.x.idx == m.ia) || (t.x.arr == m.b && t.x.idx == m.ib)
            &&& t.x.arr != t.x.nv.c
            &&& t.x.arr != t.copy
            &&& t.copy != t.x.nv.c
        },
        None => false,
    }
}

pub open spec fn turn_ok(t: Turn) -> bool {
    &&& all_distinct(own_of(t))
    &&& computes_apart(t.x.nv, t.p, t.s, own_of(t), t.copy, t.w)
    &&& places_apart(t.p)
    &&& t.x.nv.mac == StmtV::Assign(LValueV::Var(t.x.nv.acc), Some(BinOp::Add), addend(t.x.nv))
    &&& !t.x.nv.zero.ty.arrayish()
    &&& renameable(t.x.idx)
    &&& stands(t)
    &&& operand_ok(t)
    &&& (t.x.other == t.x.nv.j && t.x.nother == t.x.nv.nj) || (t.x.other == t.x.nv.i && t.x.nother == t.x.nv.ni)
}

proof fn own_members(t: Turn)
    ensures
        ({
            let o = own_of(t);
            &&& o.contains(t.x.nv.i)
            &&& o.contains(t.x.nv.j)
            &&& o.contains(t.x.nv.k)
            &&& o.contains(t.x.nv.acc)
            &&& o.contains(t.pv)
            &&& o.contains(t.qv)
            &&& o.contains(t.copy)
        }),
        all_distinct(own_of(t)) ==> t.x.nv.i != t.x.nv.k && t.x.nv.j != t.x.nv.k && t.pv != t.qv && t.pv != t.x.nv.k && t.qv
            != t.x.nv.k && t.pv != t.x.nv.i && t.pv != t.x.nv.j && t.qv != t.x.nv.i && t.qv != t.x.nv.j,
{
    let o = own_of(t);
    assert(o[0] == t.x.nv.i && o[1] == t.x.nv.j && o[2] == t.x.nv.k && o[3] == t.x.nv.acc && o[4] == t.pv && o[5] == t.qv
        && o[6] == t.copy);
    assert(o.contains(o[0]) && o.contains(o[1]) && o.contains(o[2]) && o.contains(o[3]) && o.contains(o[4]) && o.contains(
        o[5],
    ) && o.contains(o[6]));
}

// ---- the copy ----

/// A renamed expression is worth what the expression is with the old locals at the values of the new.
proof fn renamed_value(e: ExprV, a: usize, b: usize, c: usize, d: usize, h: Store, w: World)
    requires
        renameable(e),
        a != c,
    ensures
        eval(renamed(e, a, b, c, d), h, w) == eval(e, with_var(with_var(h, a, (h.vars)(b)), c, (h.vars)(d)), w),
    decreases e,
{
    let r = renamed(e, a, b, c, d);
    let g = with_var(with_var(h, a, (h.vars)(b)), c, (h.vars)(d));
    match e.kind {
        KindV::Binary(op, x, y) => {
            renamed_value(*x, a, b, c, d, h, w);
            renamed_value(*y, a, b, c, d, h, w);
            assert(eval(r, h, w) == operate(
                op,
                eval(renamed(*x, a, b, c, d), h, w),
                eval(renamed(*y, a, b, c, d), h, w),
                w,
            ));
            assert(eval(e, g, w) == operate(op, eval(*x, g, w), eval(*y, g, w), w));
        },
        KindV::MinMax(m, x, y) => {
            renamed_value(*x, a, b, c, d, h, w);
            renamed_value(*y, a, b, c, d, h, w);
            assert(eval(r, h, w) == smaller(
                m,
                eval(renamed(*x, a, b, c, d), h, w),
                eval(renamed(*y, a, b, c, d), h, w),
                w,
            ));
            assert(eval(e, g, w) == smaller(m, eval(*x, g, w), eval(*y, g, w), w));
        },
        KindV::Unary(op, x) => {
            renamed_value(*x, a, b, c, d, h, w);
            assert(eval(r, h, w) == turn(op, eval(renamed(*x, a, b, c, d), h, w), w));
            assert(eval(e, g, w) == turn(op, eval(*x, g, w), w));
        },
        KindV::Cast(x, ty) => {
            renamed_value(*x, a, b, c, d, h, w);
            assert(eval(r, h, w) == (w.cast)(eval(renamed(*x, a, b, c, d), h, w), ty));
            assert(eval(e, g, w) == (w.cast)(eval(*x, g, w), ty));
        },
        _ => {},
    }
}

/// Where the element of the innermost variable `z` and the other one `o` stands in the copy.
pub open spec fn row_place(t: Turn, z: int, o: int) -> int {
    o * t.p.nk + z
}

proof fn rows_apart(n: int, z: int, o: int, y: int, u: int)
    requires
        0 <= z < n,
        0 <= y < n,
        o * n + z == u * n + y,
    ensures
        z == y,
        o == u,
{
    if o < u {
        assert((u - o) * n >= n) by (nonlinear_arith)
            requires
                u - o >= 1,
                n > 0,
        ;
        assert((u - o) * n == u * n - o * n) by (nonlinear_arith);
    } else if o > u {
        assert((o - u) * n >= n) by (nonlinear_arith)
            requires
                o - u >= 1,
                n > 0,
        ;
        assert((o - u) * n == o * n - u * n) by (nonlinear_arith);
    }
}

/// The copy is under way: only its loop variables and its elements are changed, and those of the first
/// `n` columns, and of the first `m` of the next, are there.
pub open spec fn copying(t: Turn, h: Store, n: int, m: int) -> bool {
    &&& forall|l: usize| l != t.pv && l != t.qv ==> #[trigger] (h.vars)(l) == (t.s.vars)(l)
    &&& forall|l: usize, at: int| l != t.copy ==> #[trigger] (h.cells)(l, at) == (t.s.cells)(l, at)
    &&& forall|l: usize| l != t.copy ==> #[trigger] (h.lens)(l) == (t.s.lens)(l)
    &&& forall|z: int, o: int|
        0 <= z < t.p.nk && 0 <= o < other_count(t) && (z < n || z == n && o < m) ==> (h.cells)(
            t.copy,
            #[trigger] row_place(t, z, o),
        ) == (t.s.cells)(t.x.arr, (t.at)(z, o))
}

proof fn copying_alike(t: Turn, h: Store, n: int, m: int)
    requires
        copying(t, h, n, m),
    ensures
        alike_but(t.s, h, own_of(t), t.x.nv.c, t.copy),
{
    own_members(t);
    assert forall|l: usize| !own_of(t).contains(l) implies #[trigger] (h.vars)(l) == (t.s.vars)(l) by {
        assert(l != t.pv && l != t.qv);
    }
}

/// `a·nk + b`, where the two locals stand.
proof fn row_value(t: Turn, a: usize, b: usize, locals: Seq<LocalV>, line: u32, h: Store, z: int, o: int)
    requires
        alike_but(t.s, h, own_of(t), t.x.nv.c, t.copy),
        computes_apart(t.x.nv, t.p, t.s, own_of(t), t.copy, t.w),
        sets(h, a, o),
        sets(h, b, z),
    ensures
        eval(v_row(t.x.nv, a, b, locals, line), h, t.w) == Val::Int(row_place(t, z, o)),
{
    let w = t.w;
    let (x, y) = (v_local(a, ty_at(locals, a), line), v_local(b, ty_at(locals, b), line));
    let m = v_bin(BinOp::Mul, x, t.x.nv.nk);
    assert(eval(x, h, w) == Val::Int(o));
    assert(eval(y, h, w) == Val::Int(z));
    assert(eval(t.x.nv.nk, h, w) == Val::Int(t.p.nk));
    assert(eval(m, h, w) == operate(BinOp::Mul, eval(x, h, w), eval(t.x.nv.nk, h, w), w));
    assert(eval(v_row(t.x.nv, a, b, locals, line), h, w) == operate(BinOp::Add, eval(m, h, w), eval(y, h, w), w));
}

pub open spec fn copy_store(t: Turn, locals: Seq<LocalV>) -> StmtV {
    v_store(
        t.copy,
        v_row(t.x.nv, t.qv, t.pv, locals, t.x.line),
        t.x.line,
        v_index(t.x.arr, renamed(t.x.idx, t.x.nv.k, t.pv, t.x.other, t.qv), t.x.elem, t.x.line),
    )
}

pub open spec fn copy_row(t: Turn, locals: Seq<LocalV>) -> StmtV {
    v_for(t.qv, v_int(0, t.x.line), t.x.nother, seq![copy_store(t, locals)])
}

/// One element copied.
proof fn element_copied(t: Turn, locals: Seq<LocalV>, h: Store, z: int, o: int)
    requires
        turn_ok(t),
        copying(t, h, z, o),
        0 <= z < t.p.nk,
        0 <= o < other_count(t),
        sets(h, t.pv, z),
        sets(h, t.qv, o),
    ensures
        ({
            let r = run(copy_store(t, locals), h, t.w);
            copying(t, r, z, o + 1) && r.vars == h.vars
        }),
{
    let w = t.w;
    own_members(t);
    copying_alike(t, h, z, o);
    row_value(t, t.qv, t.pv, locals, t.x.line, h, z, o);
    let (k, other) = (t.x.nv.k, t.x.other);
    let g = with_var(with_var(h, k, (h.vars)(t.pv)), other, (h.vars)(t.qv));
    renamed_value(t.x.idx, k, t.pv, other, t.qv, h, w);
    assert(alike_but(t.s, g, own_of(t), t.x.nv.c, t.copy)) by {
        assert forall|l: usize| !own_of(t).contains(l) implies #[trigger] (g.vars)(l) == (t.s.vars)(l) by {
            assert((h.vars)(l) == (t.s.vars)(l));
        }
        assert forall|l: usize, at: int| l != t.x.nv.c && l != t.copy implies #[trigger] (g.cells)(l, at) == (t.s.cells)(
            l,
            at,
        ) by {
            assert((h.cells)(l, at) == (t.s.cells)(l, at));
        }
        assert forall|l: usize| l != t.copy implies #[trigger] (g.lens)(l) == (t.s.lens)(l) by {
            assert((h.lens)(l) == (t.s.lens)(l));
        }
    }
    assert(sets(g, k, z) && sets(g, other, o));
    assert(eval(t.x.idx, g, w) == Val::Int((t.at)(z, o)));
    let idx = renamed(t.x.idx, k, t.pv, other, t.qv);
    let read = v_index(t.x.arr, idx, t.x.elem, t.x.line);
    assert(eval(read, h, w) == (h.cells)(t.x.arr, number(eval(idx, h, w))));
    let v = (t.s.cells)(t.x.arr, (t.at)(z, o));
    assert(eval(read, h, w) == v);
    let place = row_place(t, z, o);
    let r = run(copy_store(t, locals), h, w);
    assert(r == with_cell(h, t.copy, place, v)) by {
        assert(stored(None, (h.cells)(t.copy, place), v, w) == v);
    }
    assert forall|l: usize, at: int| l != t.copy implies #[trigger] (r.cells)(l, at) == (t.s.cells)(l, at) by {
        assert((h.cells)(l, at) == (t.s.cells)(l, at));
    }
    assert forall|y: int, u: int|
        0 <= y < t.p.nk && 0 <= u < other_count(t) && (y < z || y == z && u < o + 1) implies (r.cells)(
        t.copy,
        #[trigger] row_place(t, y, u),
    ) == (t.s.cells)(t.x.arr, (t.at)(y, u)) by {
        if row_place(t, y, u) == place {
            rows_apart(t.p.nk, y, u, z, o);
        } else {
            assert((h.cells)(t.copy, row_place(t, y, u)) == (t.s.cells)(t.x.arr, (t.at)(y, u)));
        }
    }
}

proof fn moved_on(t: Turn, h: Store, n: int, m: int, l: usize, v: Val)
    requires
        copying(t, h, n, m),
        l == t.pv || l == t.qv,
    ensures
        copying(t, with_var(h, l, v), n, m),
{
    let r = with_var(h, l, v);
    assert forall|a: usize, at: int| a != t.copy implies #[trigger] (r.cells)(a, at) == (t.s.cells)(a, at) by {
        assert((h.cells)(a, at) == (t.s.cells)(a, at));
    }
    assert forall|a: usize| a != t.copy implies #[trigger] (r.lens)(a) == (t.s.lens)(a) by {
        assert((h.lens)(a) == (t.s.lens)(a));
    }
    assert forall|z: int, o: int|
        0 <= z < t.p.nk && 0 <= o < other_count(t) && (z < n || z == n && o < m) implies (r.cells)(
        t.copy,
        #[trigger] row_place(t, z, o),
    ) == (t.s.cells)(t.x.arr, (t.at)(z, o)) by {
        assert((h.cells)(t.copy, row_place(t, z, o)) == (t.s.cells)(t.x.arr, (t.at)(z, o)));
    }
    assert forall|a: usize| a != t.pv && a != t.qv implies #[trigger] (r.vars)(a) == (t.s.vars)(a) by {
        assert((h.vars)(a) == (t.s.vars)(a));
    }
}

proof fn row_copied(t: Turn, locals: Seq<LocalV>, h: Store, z: int, m: int)
    requires
        turn_ok(t),
        copying(t, h, z, 0),
        0 <= z < t.p.nk,
        m <= other_count(t),
        sets(h, t.pv, z),
    ensures
        ({
            let r = run_range(seq![copy_store(t, locals)], t.qv, 0, m, h, t.w);
            copying(t, r, z, m) && sets(r, t.pv, z)
        }),
    decreases (if m > 0 { m } else { 0 }),
{
    own_members(t);
    if m > 0 {
        row_copied(t, locals, h, z, m - 1);
        let q = run_range(seq![copy_store(t, locals)], t.qv, 0, m - 1, h, t.w);
        let g = with_var(q, t.qv, Val::Int(m - 1));
        moved_on(t, q, z, m - 1, t.qv, Val::Int(m - 1));
        run_one(copy_store(t, locals), g, t.w);
        element_copied(t, locals, g, z, m - 1);
    }
}

proof fn rows_copied(t: Turn, locals: Seq<LocalV>, h: Store, n: int)
    requires
        turn_ok(t),
        copying(t, h, 0, 0),
        n <= t.p.nk,
    ensures
        copying(t, run_range(seq![copy_row(t, locals)], t.pv, 0, n, h, t.w), n, 0),
    decreases (if n > 0 { n } else { 0 }),
{
    own_members(t);
    if n > 0 {
        let z = n - 1;
        rows_copied(t, locals, h, z);
        let q = run_range(seq![copy_row(t, locals)], t.pv, 0, z, h, t.w);
        let g = with_var(q, t.pv, Val::Int(z));
        moved_on(t, q, z, 0, t.pv, Val::Int(z));
        run_one(copy_row(t, locals), g, t.w);
        copying_alike(t, g, z, 0);
        let m = other_count(t);
        let zero = v_int(0, t.x.line);
        assert(eval(zero, g, t.w) == Val::Int(0));
        assert(eval(t.x.nother, g, t.w) == Val::Int(m));
        assert(sets(g, t.pv, z));
        row_copied(t, locals, g, z, m);
        let r = run(copy_row(t, locals), g, t.w);
        assert(r == run_range(seq![copy_store(t, locals)], t.qv, 0, m, g, t.w));
        assert forall|y: int, u: int|
            0 <= y < t.p.nk && 0 <= u < other_count(t) && (y < n || y == n && u < 0) implies (r.cells)(
            t.copy,
            #[trigger] row_place(t, y, u),
        ) == (t.s.cells)(t.x.arr, (t.at)(y, u)) by {}
    }
}

/// The store once the copy is built.
pub open spec fn copied(t: Turn, locals: Seq<LocalV>) -> Store {
    run_all(v_copying(t.x, locals, t.copy, t.pv, t.qv), t.s, t.w)
}

proof fn copy_built(t: Turn, locals: Seq<LocalV>)
    requires
        turn_ok(t),
    ensures
        copying(t, copied(t, locals), if t.p.nk > 0 { t.p.nk } else { 0 }, 0),
{
    let w = t.w;
    let size = v_bin(BinOp::Mul, t.x.nv.nk, t.x.nother);
    let a = StmtV::LetRepeat(t.copy, v_zero(t.x.elem, t.x.line), size);
    let zero = v_int(0, t.x.line);
    let b = v_for(t.pv, zero, t.x.nv.nk, seq![copy_row(t, locals)]);
    assert(v_copying(t.x, locals, t.copy, t.pv, t.qv) =~= seq![a, b]);
    run_two(a, b, t.s, w);
    let h = run(a, t.s, w);
    assert(h == with_array(t.s, t.copy, number(eval(size, t.s, w)), eval(v_zero(t.x.elem, t.x.line), t.s, w)));
    assert(copying(t, h, 0, 0));
    copying_alike(t, h, 0, 0);
    assert(eval(zero, h, w) == Val::Int(0));
    assert(eval(t.x.nv.nk, h, w) == Val::Int(t.p.nk));
    assert(run(b, h, w) == run_range(seq![copy_row(t, locals)], t.pv, 0, t.p.nk, h, w));
    rows_copied(t, locals, h, t.p.nk);
}

// ---- the product from the copy ----

/// The read of the copy.
pub open spec fn copy_read(t: Turn, locals: Seq<LocalV>) -> ExprV {
    v_index(t.copy, v_row(t.x.nv, t.x.other, t.x.nv.k, locals, t.x.line), t.x.elem, t.x.line)
}

pub open spec fn flipped_mac(t: Turn, locals: Seq<LocalV>) -> StmtV {
    read_replaced(t.x.nv.mac, t.x.arr, copy_read(t, locals))
}

pub open spec fn flipped(t: Turn, locals: Seq<LocalV>) -> NaiveV {
    NaiveV { path: Seq::empty(), mac: flipped_mac(t, locals), ..t.x.nv }
}

/// The multiply-accumulate reads the copy in the place of the operand.
proof fn flipped_addend(t: Turn, locals: Seq<LocalV>)
    requires
        turn_ok(t),
    ensures
        ({
            let e = addend(t.x.nv);
            let f = flipped_mac(t, locals);
            let read = copy_read(t, locals);
            &&& f == StmtV::Assign(LValueV::Var(t.x.nv.acc), Some(BinOp::Add), addend(flipped(t, locals)))
            &&& mac_of(f) is Some
            &&& match e.kind {
                KindV::Binary(op, l, r) => {
                    &&& op == BinOp::Mul
                    &&& (addend(flipped(t, locals)).kind == KindV::Binary(op, Box::new(read), r) && l.kind == KindV::Index(
                        t.x.arr,
                        Box::new(t.x.idx),
                    )) || (addend(flipped(t, locals)).kind == KindV::Binary(op, l, Box::new(read)) && r.kind
                        == KindV::Index(t.x.arr, Box::new(t.x.idx)))
                },
                _ => false,
            }
        }),
{
}

/// The product that reads the copy computes what the product does.
proof fn flipped_computes(t: Turn, locals: Seq<LocalV>)
    requires
        turn_ok(t),
    ensures
        computes(flipped(t, locals), t.p, copied(t, locals), own_of(t), t.w),
{
    let w = t.w;
    let s = copied(t, locals);
    let nv = flipped(t, locals);
    let own = own_of(t);
    let n = if t.p.nk > 0 {
        t.p.nk
    } else {
        0
    };
    own_members(t);
    copy_built(t, locals);
    copying_alike(t, s, n, 0);
    assert forall|h: Store| #[trigger] alike(s, h, own, nv.c) implies alike_but(t.s, h, own, nv.c, t.copy) by {
        assert forall|l: usize| !own.contains(l) implies #[trigger] (h.vars)(l) == (t.s.vars)(l) by {
            assert((s.vars)(l) == (t.s.vars)(l));
        }
        assert forall|l: usize, at: int| l != nv.c && l != t.copy implies #[trigger] (h.cells)(l, at) == (t.s.cells)(l, at) by {
            assert((s.cells)(l, at) == (t.s.cells)(l, at));
        }
        assert forall|l: usize| l != t.copy implies #[trigger] (h.lens)(l) == (t.s.lens)(l) by {
            assert((s.lens)(l) == (t.s.lens)(l));
        }
    }
    assert forall|h: Store, x: int, y: int|
        #[trigger] alike(s, h, own, nv.c) && #[trigger] turned(nv, h, x, y) && in_result(t.p, x, y) implies eval(
        nv.zero,
        h,
        w,
    ) == (t.p.start)(x, y) && eval(nv.ic, h, w) == Val::Int((t.p.place)(x, y)) by {
        assert(alike_but(t.s, h, own, nv.c, t.copy));
        assert(turned(t.x.nv, h, x, y));
    }
    assert forall|h: Store, x: int, y: int, z: int|
        #[trigger] alike(s, h, own, nv.c) && #[trigger] turned(nv, h, x, y) && #[trigger] counted(nv, h, z) && in_result(
            t.p,
            x,
            y,
        ) && 0 <= z < t.p.nk implies eval(addend(nv), h, w) == (t.p.term)(x, y, z) by {
        assert(alike_but(t.s, h, own, nv.c, t.copy));
        assert(turned(t.x.nv, h, x, y));
        assert(counted(t.x.nv, h, z));
        flipped_addend(t, locals);
        let o = if t.x.other == t.x.nv.j {
            y
        } else {
            x
        };
        assert(sets(h, t.x.nv.k, z) && sets(h, t.x.other, o));
        assert(eval(t.x.idx, h, w) == Val::Int((t.at)(z, o)));
        let read = copy_read(t, locals);
        let row = v_row(t.x.nv, t.x.other, t.x.nv.k, locals, t.x.line);
        row_value(t, t.x.other, t.x.nv.k, locals, t.x.line, h, z, o);
        assert(eval(read, h, w) == (h.cells)(t.copy, number(eval(row, h, w))));
        assert((h.cells)(t.copy, row_place(t, z, o)) == (s.cells)(t.copy, row_place(t, z, o)));
        assert((s.cells)(t.copy, row_place(t, z, o)) == (t.s.cells)(t.x.arr, (t.at)(z, o)));
        assert((h.cells)(t.x.arr, (t.at)(z, o)) == (t.s.cells)(t.x.arr, (t.at)(z, o)));
        let (e, g) = (addend(t.x.nv), addend(nv));
        match e.kind {
            KindV::Binary(op, l, r) => {
                assert(eval(e, h, w) == operate(op, eval(*l, h, w), eval(*r, h, w), w));
                if l.kind == KindV::Index(t.x.arr, Box::new(t.x.idx)) && g.kind == KindV::Binary(op, Box::new(read), r) {
                    assert(eval(*l, h, w) == (h.cells)(t.x.arr, number(eval(t.x.idx, h, w))));
                    assert(eval(g, h, w) == operate(op, eval(read, h, w), eval(*r, h, w), w));
                } else {
                    assert(eval(*r, h, w) == (h.cells)(t.x.arr, number(eval(t.x.idx, h, w))));
                    assert(eval(g, h, w) == operate(op, eval(*l, h, w), eval(read, h, w), w));
                }
            },
            _ => {},
        }
    }
}

proof fn one_replaced(s: StmtV, with: StmtV)
    ensures
        macs_replaced(seq![s], with) == seq![mac_replaced(s, with)],
{
    assert(seq![s].drop_last() =~= Seq::empty());
    assert(seq![s].last() == s);
    reveal_with_fuel(macs_replaced, 2);
    assert(macs_replaced(seq![s], with) =~= seq![mac_replaced(s, with)]);
}

proof fn three_replaced(a: StmtV, b: StmtV, c: StmtV, with: StmtV)
    ensures
        macs_replaced(seq![a, b, c], with) == seq![mac_replaced(a, with), mac_replaced(b, with), mac_replaced(c, with)],
{
    let s = seq![a, b, c];
    let t = s.drop_last();
    let u = t.drop_last();
    assert(u.drop_last() =~= Seq::empty());
    assert(s.last() == c && t.last() == b && u.last() == a);
    reveal_with_fuel(macs_replaced, 4);
    assert(macs_replaced(s, with) =~= seq![mac_replaced(a, with), mac_replaced(b, with), mac_replaced(c, with)]);
}

/// The loops with the multiply-accumulate replaced are the loops of the product that reads the copy.
#[verifier::spinoff_prover]
proof fn flipped_found(t: Turn, locals: Seq<LocalV>, s: StmtV)
    requires
        turn_ok(t),
        naive_here(s) == Some(pathless(t.x.nv)),
    ensures
        naive_here(mac_replaced(s, flipped_mac(t, locals))) == Some(flipped(t, locals)),
{
    let with = flipped_mac(t, locals);
    flipped_addend(t, locals);
    match s {
        StmtV::For { var, start, end, body } => {
            assert(body.stmts =~= seq![body.stmts[0]]);
            one_replaced(body.stmts[0], with);
            match body.stmts[0] {
                StmtV::For { var: j, start: js, end: nj, body: jb } => {
                    let (a, b, c) = (jb.stmts[0], jb.stmts[1], jb.stmts[2]);
                    assert(jb.stmts =~= seq![a, b, c]);
                    three_replaced(a, b, c, with);
                    match b {
                        StmtV::For { var: k, start: ks, end: nk, body: kb } => {
                            let m = kb.stmts[0];
                            assert(kb.stmts =~= seq![m]);
                            one_replaced(m, with);
                            assert(mac_of(m) is Some);
                            assert(mac_replaced(m, with) == with);
                            let kb2 = BlockV { stmts: seq![with], ..kb };
                            let b2 = StmtV::For { var: k, start: ks, end: nk, body: kb2 };
                            assert(mac_replaced(b, with) == b2);
                            assert(kb2.stmts[0] == with);
                            assert(mac_replaced(a, with) == a);
                            assert(mac_replaced(c, with) == c);
                            let jb2 = BlockV { stmts: seq![a, b2, c], ..jb };
                            let row = StmtV::For { var: j, start: js, end: nj, body: jb2 };
                            assert(mac_replaced(body.stmts[0], with) == row);
                            let body2 = BlockV { stmts: seq![row], ..body };
                            assert(mac_replaced(s, with) == StmtV::For { var, start, end, body: body2 });
                            assert(body2.stmts[0] == row);
                            assert(jb2.stmts[0] == a && jb2.stmts[1] == b2 && jb2.stmts[2] == c);
                            let found = crate::cost::rewrite::inner_loop(b2, t.x.nv.acc);
                            assert(found == Some((k, nk, with)));
                        },
                        _ => {},
                    }
                },
                _ => {},
            }
        },
        _ => {},
    }
}

/// A product of which an operand is transposed still computes it: once the copy is built, the loops that
/// read it leave in every element of the result the sum of all its terms, and no element of any array
/// but the result and the copy is changed.
pub proof fn transposed_computes(t: Turn, locals: Seq<LocalV>, nest: StmtV)
    requires
        turn_ok(t),
        naive_here(nest) == Some(pathless(t.x.nv)),
    ensures
        ({
            let with = v_copying(t.x, locals, t.copy, t.pv, t.qv).push(mac_replaced(nest, flipped_mac(t, locals)));
            let r = run_all(with, t.s, t.w);
            &&& forall|x: int, y: int|
                in_result(t.p, x, y) ==> (r.cells)(t.x.nv.c, #[trigger] (t.p.place)(x, y)) == summed(
                    t.p,
                    x,
                    y,
                    t.p.nk,
                    t.w,
                )
            &&& forall|l: usize, at: int|
                l != t.copy && (l != t.x.nv.c || !taken(t.p, at)) ==> #[trigger] (r.cells)(l, at) == (t.s.cells)(l, at)
            &&& forall|l: usize| l != t.copy ==> #[trigger] (r.lens)(l) == (t.s.lens)(l)
            &&& forall|l: usize| !own_of(t).contains(l) ==> #[trigger] (r.vars)(l) == (t.s.vars)(l)
        }),
{
    let w = t.w;
    let s = copied(t, locals);
    let nv = flipped(t, locals);
    let new_nest = mac_replaced(nest, flipped_mac(t, locals));
    let with = v_copying(t.x, locals, t.copy, t.pv, t.qv).push(new_nest);
    run_push(v_copying(t.x, locals, t.copy, t.pv, t.qv), new_nest, t.s, w);
    flipped_found(t, locals, nest);
    flipped_computes(t, locals);
    flipped_addend(t, locals);
    let f = Frame { nv, p: t.p, s, ii: t.pv, jj: t.qv, kk: t.copy, w };
    assert(working(nv, f.ii, f.jj, f.kk) == own_of(t));
    assert(framed(f));
    product_computes(new_nest, f);
    copy_built(t, locals);
    let r = run(new_nest, s, w);
    own_members(t);
    assert forall|l: usize, at: int|
        l != t.copy && (l != t.x.nv.c || !taken(t.p, at)) implies #[trigger] (r.cells)(l, at) == (t.s.cells)(l, at) by {
        assert((r.cells)(l, at) == (s.cells)(l, at));
        assert((s.cells)(l, at) == (t.s.cells)(l, at));
    }
    assert forall|l: usize| l != t.copy implies #[trigger] (r.lens)(l) == (t.s.lens)(l) by {
        assert((s.lens)(l) == (t.s.lens)(l));
    }
    assert forall|l: usize| !own_of(t).contains(l) implies #[trigger] (r.vars)(l) == (t.s.vars)(l) by {
        assert((r.vars)(l) == (s.vars)(l));
        assert((s.vars)(l) == (t.s.vars)(l));
    }
}

// ---- functions ----

/// The stores agree on all arrays but the copy, and on all locals but some.
pub open spec fn same_apart(a: Store, b: Store, own: Seq<usize>, copy: usize) -> bool {
    &&& forall|l: usize| !own.contains(l) ==> #[trigger] (a.vars)(l) == (b.vars)(l)
    &&& forall|l: usize, at: int| l != copy ==> #[trigger] (a.cells)(l, at) == (b.cells)(l, at)
    &&& forall|l: usize| l != copy ==> #[trigger] (a.lens)(l) == (b.lens)(l)
}

/// What the statement does does not depend on some locals and the copy, except for their own values.
pub open spec fn blind_apart(t: StmtV, own: Seq<usize>, copy: usize, w: World) -> bool {
    forall|a: Store, b: Store|
        #[trigger] same_apart(a, b, own, copy) ==> same_apart(run(t, a, w), run(t, b, w), own, copy)
}

proof fn rest_apart(t: Seq<StmtV>, own: Seq<usize>, copy: usize, a: Store, b: Store, w: World)
    requires
        forall|k: int| 0 <= k < t.len() ==> blind_apart(#[trigger] t[k], own, copy, w),
        same_apart(a, b, own, copy),
    ensures
        same_apart(run_all(t, a, w), run_all(t, b, w), own, copy),
    decreases t.len(),
{
    if t.len() > 0 {
        let u = t.drop_last();
        assert forall|k: int| 0 <= k < u.len() implies blind_apart(#[trigger] u[k], own, copy, w) by {
            assert(u[k] == t[k]);
        }
        rest_apart(u, own, copy, a, b, w);
        assert(blind_apart(t[t.len() - 1], own, copy, w));
    }
}

/// The loops as they were compute the product too.
proof fn unflipped_computes(t: Turn, nest: StmtV)
    requires
        turn_ok(t),
        naive_here(nest) == Some(pathless(t.x.nv)),
    ensures
        is_product(t.p, t.x.nv.c, t.s, run(nest, t.s, t.w), t.w),
        alike(t.s, run(nest, t.s, t.w), own_of(t), t.x.nv.c),
{
    let nv = pathless(t.x.nv);
    let f = Frame { nv, p: t.p, s: t.s, ii: t.pv, jj: t.qv, kk: t.copy, w: t.w };
    let own = own_of(t);
    assert(working(nv, f.ii, f.jj, f.kk) == own);
    assert forall|h: Store| #[trigger] alike(t.s, h, own, nv.c) implies alike_but(t.s, h, own, nv.c, t.copy) by {}
    assert forall|h: Store, x: int, y: int|
        #[trigger] alike(t.s, h, own, nv.c) && #[trigger] turned(nv, h, x, y) && in_result(t.p, x, y) implies eval(
        nv.zero,
        h,
        t.w,
    ) == (t.p.start)(x, y) && eval(nv.ic, h, t.w) == Val::Int((t.p.place)(x, y)) by {
        assert(turned(t.x.nv, h, x, y));
    }
    assert forall|h: Store, x: int, y: int, z: int|
        #[trigger] alike(t.s, h, own, nv.c) && #[trigger] turned(nv, h, x, y) && #[trigger] counted(nv, h, z) && in_result(
            t.p,
            x,
            y,
        ) && 0 <= z < t.p.nk implies eval(addend(nv), h, t.w) == (t.p.term)(x, y, z) by {
        assert(turned(t.x.nv, h, x, y));
        assert(counted(t.x.nv, h, z));
    }
    product_computes(nest, f);
}

/// A function of which an operand is transposed leaves all arrays as the function does, but for the copy
/// that it makes: where the product stands in the function's own statements and those behind it do not
/// look at its loops.
pub proof fn transpose_keeps_arrays(f: FuncV, t: Turn, s: Store)
    requires
        flip_of(f) == Some(t.x),
        t.x.nv.path.len() == 1,
        t.copy == f.locals.len(),
        t.pv == f.locals.len() + 1,
        t.qv == f.locals.len() + 2,
        t.s == run_all(before_product(f), s, t.w),
        turn_ok(t),
        forall|k: int|
            0 <= k < after_product(f).len() ==> blind_apart(#[trigger] after_product(f)[k], own_of(t), t.copy, t.w),
    ensures
        s_transpose(f) is Some,
        same_apart(
            run_all(s_transpose(f)->0.body->0.stmts, s, t.w),
            run_all(f.body->0.stmts, s, t.w),
            own_of(t),
            t.copy,
        ),
{
    let w = t.w;
    let b = f.body->0;
    let path = t.x.nv.path;
    let own = own_of(t);
    let locals = flip_locals(f, t.x);
    naive_found(b.stmts, 0);
    let k = path[0];
    let nest = b.stmts[k];
    assert(stmt_of(b.stmts, path) == Some(nest));
    let with = v_copying(t.x, locals, t.copy, t.pv, t.qv).push(mac_replaced(nest, flipped_mac(t, locals)));
    transposed_computes(t, locals, nest);
    unflipped_computes(t, nest);
    let (x, y) = (run_all(with, t.s, w), run(nest, t.s, w));
    let c = t.x.nv.c;
    assert forall|l: usize, at: int| l != t.copy implies #[trigger] (x.cells)(l, at) == (y.cells)(l, at) by {
        if l == c && taken(t.p, at) {
            let (u, v) = choose|u: int, v: int| in_result(t.p, u, v) && #[trigger] (t.p.place)(u, v) == at;
            assert((x.cells)(c, (t.p.place)(u, v)) == summed(t.p, u, v, t.p.nk, w));
            assert((y.cells)(c, (t.p.place)(u, v)) == summed(t.p, u, v, t.p.nk, w));
        } else {
            assert((x.cells)(l, at) == (t.s.cells)(l, at));
            assert((y.cells)(l, at) == (t.s.cells)(l, at));
        }
    }
    assert(same_apart(x, y, own, t.copy)) by {
        assert forall|l: usize| !own.contains(l) implies #[trigger] (x.vars)(l) == (y.vars)(l) by {
            assert((x.vars)(l) == (t.s.vars)(l));
            assert((y.vars)(l) == (t.s.vars)(l));
        }
    }
    let (pre, post) = (before_product(f), after_product(f));
    assert(b.stmts =~= (pre + seq![nest]) + post);
    let r = replaced_at(b, path, with);
    assert(r.stmts =~= (pre + with) + post);
    assert(s_transpose(f)->0.body == Some(r));
    run_more(pre + seq![nest], post, s, w);
    run_more(pre, seq![nest], s, w);
    run_one(nest, t.s, w);
    run_more(pre + with, post, s, w);
    run_more(pre, with, s, w);
    rest_apart(post, own, t.copy, x, y, w);
}

} // verus!
