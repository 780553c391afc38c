//! Rewrites the gap report can offer, applied to the typed tree of one function. Each one
//! preserves what the function computes; the cost calculus is then run on the result to say
//! what it bought. They are offered, never applied silently.
//!
//! All work on the naive product shape, which is what the catalogue recognises:
//!
//! ```text
//!     for i in 0..ni { for j in 0..nj { let mut acc = 0; for k in 0..nk { acc += A[..] * B[..] } C[..] = acc } }
//! ```

use vstd::prelude::*;
use vstd::arithmetic::power2::pow2;
use crate::ast::{views, BinOp};
use crate::cost::bounds::{as_mac, mac_of};
use crate::cost::scope::local_of;
use crate::ir::{
    block_lists, expr_parts, lvalue_parts, opt_view, stmt_parts, Block, BlockV, Expr, ExprKind, ExprV, Func, FuncV,
    KindV, LValue, LValueV, Local, LocalV, Size, Stmt, StmtV, Ty,
};
use crate::irbuild::{
    add_local, alone, make_bin, make_for, make_index, make_int, make_local, make_min, make_store, v_bin, v_expr,
    v_for, v_index, v_int, v_local, v_min, v_store,
};
use crate::ircopy::{copy_ids, copy_locals};
use crate::irsize::{block_shrinks, expr_shrinks, expr_size, stmt_shrinks, stmt_size, stmts_shrink, stmts_size};
use crate::num::{BigInt, Side};
use crate::text::cat2;

verus! {

/// The naive shape, located: the three loops, the accumulator, and the store.
pub struct NaiveV {
    /// where the outermost loop is: its place in each block down to it
    pub path: Seq<int>,
    pub i: usize,
    pub j: usize,
    pub k: usize,
    pub ni: ExprV,
    pub nj: ExprV,
    pub nk: ExprV,
    pub acc: usize,
    pub zero: ExprV,
    pub c: usize,
    pub ic: ExprV,
    pub mac: StmtV,
}

pub open spec fn is_zero(e: ExprV) -> bool {
    e.kind == KindV::Int(0)
}

pub open spec fn reads(e: ExprV, l: usize) -> bool {
    e.kind == KindV::Local(l)
}

/// The innermost loop `for k in 0..nk { acc += A[..] * B[..] }`.
pub open spec fn inner_loop(s: StmtV, acc: usize) -> Option<(usize, ExprV, StmtV)> {
    match s {
        StmtV::For { var, start, end, body } => if is_zero(start) && body.stmts.len() == 1 && body.tail is None
            && mac_of(body.stmts[0]) is Some {
            match body.stmts[0] {
                StmtV::Assign(lv, _, _) => if lv == LValueV::Var(acc) {
                    Some((var, end, body.stmts[0]))
                } else {
                    None
                },
                _ => None,
            }
        } else {
            None
        },
        _ => None,
    }
}

/// The middle loop: the accumulator, the innermost loop, and the store.
pub open spec fn middle_loop(i: usize, ni: ExprV, s: StmtV) -> Option<NaiveV> {
    match s {
        StmtV::For { var: j, start, end: nj, body } => if body.stmts.len() == 3 && body.tail is None && is_zero(start) {
            match (body.stmts[0], body.stmts[2]) {
                (StmtV::Let(acc, zero), StmtV::Assign(lv, op, store)) => match (lv, inner_loop(body.stmts[1], acc)) {
                    (LValueV::Index(c, ic, _), Some((k, nk, mac))) => if op is None && reads(store, acc) {
                        Some(NaiveV { path: Seq::empty(), i, j, k, ni, nj, nk, acc, zero, c, ic, mac })
                    } else {
                        None
                    },
                    _ => None,
                },
                _ => None,
            }
        } else {
            None
        },
        _ => None,
    }
}

/// The shape, where the statement is its outermost loop.
pub open spec fn naive_here(s: StmtV) -> Option<NaiveV> {
    match s {
        StmtV::For { var, start, end, body } => if body.stmts.len() == 1 && body.tail is None && is_zero(start) {
            middle_loop(var, end, body.stmts[0])
        } else {
            None
        },
        _ => None,
    }
}

pub open spec fn under(n: int, v: Option<NaiveV>) -> Option<NaiveV> {
    match v {
        Some(x) => Some(NaiveV { path: seq![n] + x.path, ..x }),
        None => None,
    }
}

/// The first place of the shape, from the `n`-th statement on: outside in, through `for` loops.
pub open spec fn naive_from(s: Seq<StmtV>, n: nat) -> Option<NaiveV>
    decreases s, s.len() - n,
{
    if n >= s.len() {
        None
    } else {
        let here = naive_here(s[n as int]);
        let inside = match s[n as int] {
            StmtV::For { var, start, end, body } => naive_from(body.stmts, 0),
            _ => None,
        };
        if here is Some {
            under(n as int, here)
        } else if inside is Some {
            under(n as int, inside)
        } else {
            naive_from(s, n + 1)
        }
    }
}

/// The statement at `path` replaced by `with`.
pub open spec fn replaced_at(b: BlockV, path: Seq<int>, with: Seq<StmtV>) -> BlockV
    decreases path.len(),
{
    if path.len() == 0 || path[0] < 0 || path[0] >= b.stmts.len() {
        b
    } else if path.len() == 1 {
        BlockV { stmts: b.stmts.take(path[0]) + with + b.stmts.skip(path[0] + 1), ..b }
    } else {
        match b.stmts[path[0]] {
            StmtV::For { var, start, end, body } => BlockV {
                stmts: b.stmts.update(
                    path[0],
                    StmtV::For { var, start, end, body: replaced_at(body, path.drop_first(), with) },
                ),
                ..b
            },
            _ => b,
        }
    }
}

pub open spec fn mac_line(s: StmtV) -> u32 {
    match mac_of(s) {
        Some(m) => m.line,
        None => 0,
    }
}

// ---- tiling ----

/// The tile side: a number, or a parameter of the function.
pub enum TileV {
    Fixed(i64),
    Param(usize),
}

pub open spec fn v_side(t: TileV, line: u32) -> ExprV {
    match t {
        TileV::Fixed(n) => v_int(n, line),
        TileV::Param(l) => v_local(l, Ty::I64, line),
    }
}

/// How many tiles: rounded up for a number; a symbolic side is taken to divide.
pub open spec fn v_tiles(t: TileV, n: ExprV, line: u32) -> ExprV {
    match t {
        TileV::Fixed(k) => v_bin(BinOp::Div, v_bin(BinOp::Add, n, v_int((k - 1) as i64, line)), v_int(k, line)),
        TileV::Param(l) => v_bin(BinOp::Div, n, v_local(l, Ty::I64, line)),
    }
}

pub open spec fn v_lo(t: TileV, v: usize, line: u32) -> ExprV {
    v_bin(BinOp::Mul, v_local(v, Ty::I64, line), v_side(t, line))
}

pub open spec fn v_hi(t: TileV, v: usize, n: ExprV, line: u32) -> ExprV {
    v_min(v_bin(BinOp::Add, v_lo(t, v, line), v_side(t, line)), n)
}

/// `C` cleared, so the function still computes the product rather than adding to `C`'s old
/// contents.
pub open spec fn v_clear(nv: NaiveV, line: u32) -> StmtV {
    v_for(
        nv.i,
        v_int(0, line),
        nv.ni,
        seq![v_for(nv.j, v_int(0, line), nv.nj, seq![v_store(nv.c, nv.ic, line, nv.zero)])],
    )
}

/// One tile: load the accumulator, run the innermost loop over the tile, store it.
pub open spec fn v_tile_body(nv: NaiveV, t: TileV, kk: usize, elem: Ty, line: u32) -> Seq<StmtV> {
    seq![
        StmtV::Let(nv.acc, v_index(nv.c, nv.ic, elem, line)),
        v_for(nv.k, v_lo(t, kk, line), v_hi(t, kk, nv.nk, line), seq![nv.mac]),
        v_store(nv.c, nv.ic, line, v_local(nv.acc, elem, line)),
    ]
}

/// The three loops tiled, with the tile loops `ii`, `jj` and `kk` outermost.
pub open spec fn v_tiled(nv: NaiveV, t: TileV, ii: usize, jj: usize, kk: usize, elem: Ty, line: u32) -> StmtV {
    let body = v_tile_body(nv, t, kk, elem, line);
    let over_j = v_for(nv.j, v_lo(t, jj, line), v_hi(t, jj, nv.nj, line), body);
    let over_i = v_for(nv.i, v_lo(t, ii, line), v_hi(t, ii, nv.ni, line), seq![over_j]);
    let over_kk = v_for(kk, v_int(0, line), v_tiles(t, nv.nk, line), seq![over_i]);
    let over_jj = v_for(jj, v_int(0, line), v_tiles(t, nv.nj, line), seq![over_kk]);
    v_for(ii, v_int(0, line), v_tiles(t, nv.ni, line), seq![over_jj])
}

pub open spec fn v_counter(name: Seq<char>) -> LocalV {
    LocalV { name, ty: Ty::I64, mutable: false }
}

/// The function with its product tiled: `extra` holds what the side adds to the locals.
pub open spec fn tiled_func(f: FuncV, nv: NaiveV, t: TileV, params: Seq<usize>, extra: Seq<LocalV>) -> FuncV {
    let line = mac_line(nv.mac);
    let n = f.locals.len() + extra.len();
    let elem = local_of(f, nv.acc).ty;
    let locals = f.locals + extra + seq![v_counter("ii"@), v_counter("jj"@), v_counter("kk"@)];
    let nest = v_tiled(nv, t, n as usize, (n + 1) as usize, (n + 2) as usize, elem, line);
    FuncV {
        params,
        locals,
        body: Some(replaced_at(f.body->0, nv.path, seq![v_clear(nv, line), nest])),
        ..f
    }
}

pub open spec fn naive_of(f: FuncV) -> Option<NaiveV> {
    match f.body {
        Some(b) => naive_from(b.stmts, 0),
        None => None,
    }
}

/// The three loops tiled by `t`, accumulating into `C` across the `kk` tiles.
pub open spec fn s_tile(f: FuncV, t: i64) -> Option<FuncV> {
    match naive_of(f) {
        Some(nv) => Some(tiled_func(f, nv, TileV::Fixed(t), f.params, Seq::empty())),
        None => None,
    }
}

/// The same with the side a new parameter `T`; its local comes with it.
pub open spec fn s_tile_sym(f: FuncV) -> Option<(FuncV, usize)> {
    match naive_of(f) {
        Some(nv) => {
            let tv = f.locals.len() as usize;
            Some((tiled_func(f, nv, TileV::Param(tv), f.params.push(tv), seq![v_counter("T"@)]), tv))
        },
        None => None,
    }
}

// ---- transposing ----

/// `k * something` appears somewhere in the index.
pub open spec fn strided(e: ExprV, k: usize) -> bool
    decreases e,
{
    match e.kind {
        KindV::Binary(op, a, b) => if op == BinOp::Mul {
            reads(*a, k) || reads(*b, k)
        } else {
            strided(*a, k) || strided(*b, k)
        },
        _ => false,
    }
}

pub open spec fn has_local(e: ExprV, l: usize) -> bool
    decreases e,
{
    match e.kind {
        KindV::Local(x) => x == l,
        KindV::Binary(_, a, b) => has_local(*a, l) || has_local(*b, l),
        KindV::MinMax(_, a, b) => has_local(*a, l) || has_local(*b, l),
        KindV::Unary(_, a) => has_local(*a, l),
        KindV::Cast(a, _) => has_local(*a, l),
        _ => false,
    }
}

/// Two locals renamed, the first pair first.
pub open spec fn renamed(e: ExprV, from: usize, to: usize, from2: usize, to2: usize) -> ExprV
    decreases e,
{
    ExprV {
        kind: match e.kind {
            KindV::Local(x) => KindV::Local(
                if x == from {
                    to
                } else if x == from2 {
                    to2
                } else {
                    x
                },
            ),
            KindV::Binary(op, a, b) => KindV::Binary(
                op,
                Box::new(renamed(*a, from, to, from2, to2)),
                Box::new(renamed(*b, from, to, from2, to2)),
            ),
            KindV::MinMax(m, a, b) => KindV::MinMax(
                m,
                Box::new(renamed(*a, from, to, from2, to2)),
                Box::new(renamed(*b, from, to, from2, to2)),
            ),
            KindV::Unary(op, a) => KindV::Unary(op, Box::new(renamed(*a, from, to, from2, to2))),
            KindV::Cast(a, t) => KindV::Cast(Box::new(renamed(*a, from, to, from2, to2)), t),
            k => k,
        },
        ..e
    }
}

/// Every multiply-accumulate in the statement, through `for` loops, replaced.
pub open spec fn mac_replaced(s: StmtV, with: StmtV) -> StmtV
    decreases s,
{
    if mac_of(s) is Some {
        with
    } else {
        match s {
            StmtV::For { var, start, end, body } => StmtV::For {
                var,
                start,
                end,
                body: BlockV { stmts: macs_replaced(body.stmts, with), ..body },
            },
            _ => s,
        }
    }
}

pub open spec fn macs_replaced(s: Seq<StmtV>, with: StmtV) -> Seq<StmtV>
    decreases s,
{
    if s.len() == 0 {
        s
    } else {
        macs_replaced(s.drop_last(), with).push(mac_replaced(s.last(), with))
    }
}

/// The statement at `path`.
pub open spec fn stmt_of(s: Seq<StmtV>, path: Seq<int>) -> Option<StmtV>
    decreases path.len(),
{
    if path.len() == 0 || path[0] < 0 || path[0] >= s.len() {
        None
    } else if path.len() == 1 {
        Some(s[path[0]])
    } else {
        match s[path[0]] {
            StmtV::For { var, start, end, body } => stmt_of(body.stmts, path.drop_first()),
            _ => None,
        }
    }
}

/// The operand that is walked down a column: the one whose index has the innermost loop variable
/// with a coefficient other than one.
pub open spec fn column_operand(nv: NaiveV) -> Option<(usize, ExprV, u32)> {
    match mac_of(nv.mac) {
        Some(m) => if strided(m.ib, nv.k) {
            Some((m.b, m.ib, m.line))
        } else if strided(m.ia, nv.k) {
            Some((m.a, m.ia, m.line))
        } else {
            None
        },
        None => None,
    }
}

/// The other loop variable of an index, and its range.
pub open spec fn other_loop(nv: NaiveV, idx: ExprV) -> Option<(usize, ExprV)> {
    if has_local(idx, nv.j) {
        Some((nv.j, nv.nj))
    } else if has_local(idx, nv.i) {
        Some((nv.i, nv.ni))
    } else {
        None
    }
}

pub open spec fn v_zero(elem: Ty, line: u32) -> ExprV {
    v_expr(
        if elem is F64 {
            KindV::Float("0.0"@)
        } else {
            KindV::Int(0)
        },
        elem,
        line,
    )
}

/// `a·nk + b`, an index into the transposed copy.
pub open spec fn v_row(nv: NaiveV, a: usize, b: usize, locals: Seq<LocalV>, line: u32) -> ExprV {
    v_bin(
        BinOp::Add,
        v_bin(BinOp::Mul, v_local(a, ty_at(locals, a), line), nv.nk),
        v_local(b, ty_at(locals, b), line),
    )
}

pub open spec fn ty_at(locals: Seq<LocalV>, l: usize) -> Ty {
    if l < locals.len() {
        locals[l as int].ty
    } else {
        Ty::Unit
    }
}

/// The statement with its read of `arr` replaced.
pub open spec fn read_replaced(s: StmtV, arr: usize, read: ExprV) -> StmtV {
    match s {
        StmtV::Assign(lv, op, e) => match e.kind {
            KindV::Binary(o, l, r) => {
                let first = match l.kind {
                    KindV::Index(a, _) => a == arr,
                    _ => false,
                };
                let kind = if first {
                    KindV::Binary(o, Box::new(read), r)
                } else {
                    KindV::Binary(o, l, Box::new(read))
                };
                StmtV::Assign(lv, op, ExprV { kind, ..e })
            },
            _ => s,
        },
        _ => s,
    }
}

/// What the transposition works on.
pub struct FlipV {
    pub nv: NaiveV,
    pub arr: usize,
    pub idx: ExprV,
    pub line: u32,
    pub elem: Ty,
    pub other: usize,
    pub nother: ExprV,
}

pub open spec fn flip_of(f: FuncV) -> Option<FlipV> {
    match naive_of(f) {
        None => None,
        Some(nv) => match column_operand(nv) {
            None => None,
            Some((arr, idx, line)) => match (local_of(f, arr).ty.s_elem(), other_loop(nv, idx)) {
                (Some(elem), Some((other, nother))) => Some(FlipV { nv, arr, idx, line, elem, other, nother }),
                _ => None,
            },
        },
    }
}

pub open spec fn flip_locals(f: FuncV, x: FlipV) -> Seq<LocalV> {
    let l = local_of(f, x.arr);
    let size = match l.ty.s_size() {
        Some(s) => s,
        None => Size::Const(-1i64),
    };
    f.locals + seq![
        LocalV { name: l.name + "_t"@, ty: Ty::Array(Box::new(x.elem), size), mutable: true },
        v_counter("p"@),
        v_counter("q"@),
    ]
}

/// The copy built: the source index with `k := p` and the other loop variable `:= q`.
pub open spec fn v_copying(x: FlipV, locals: Seq<LocalV>, bt: usize, p: usize, q: usize) -> Seq<StmtV> {
    let read = v_index(x.arr, renamed(x.idx, x.nv.k, p, x.other, q), x.elem, x.line);
    let store = v_store(bt, v_row(x.nv, q, p, locals, x.line), x.line, read);
    seq![
        StmtV::LetRepeat(bt, v_zero(x.elem, x.line), v_bin(BinOp::Mul, x.nv.nk, x.nother)),
        v_for(p, v_int(0, x.line), x.nv.nk, seq![v_for(q, v_int(0, x.line), x.nother, seq![store])]),
    ]
}

/// The operand that is walked down a column transposed: a copy is built before the nest and the
/// inner loop reads it along a row.
pub open spec fn s_transpose(f: FuncV) -> Option<FuncV> {
    match flip_of(f) {
        None => None,
        Some(x) => {
            let locals = flip_locals(f, x);
            let bt = f.locals.len() as usize;
            let p = (f.locals.len() + 1) as usize;
            let q = (f.locals.len() + 2) as usize;
            let read = v_index(bt, v_row(x.nv, x.other, x.nv.k, locals, x.line), x.elem, x.line);
            match stmt_of(f.body->0.stmts, x.nv.path) {
                None => None,
                Some(nest) => {
                    let with = v_copying(x, locals, bt, p, q).push(mac_replaced(nest, read_replaced(x.nv.mac, x.arr, read)));
                    Some(FuncV { locals, body: Some(replaced_at(f.body->0, x.nv.path, with)), ..f })
                },
            }
        },
    }
}

// ---- the tile side of a machine ----

/// The largest power of two, from `t` on, with three `t×t` tiles of `w`-byte elements strictly
/// inside `m`.
pub open spec fn side_from(t: int, m: int, w: int) -> int
    decreases m - t,
{
    if t >= 1 && w >= 1 && 3 * (2 * t) * (2 * t) * w < m && 2 * t <= m {
        side_from(2 * t, m, w)
    } else {
        t
    }
}

// ---- the computation ----

/// The naive shape, located.
pub struct Naive<'a> {
    pub path: Vec<usize>,
    pub i: usize,
    pub j: usize,
    pub k: usize,
    pub ni: &'a Expr,
    pub nj: &'a Expr,
    pub nk: &'a Expr,
    pub acc: usize,
    pub zero: &'a Expr,
    pub c: usize,
    pub ic: &'a Expr,
    pub mac: &'a Stmt,
}

pub open spec fn places(s: Seq<usize>) -> Seq<int> {
    Seq::new(s.len(), |i: int| s[i] as int)
}

impl<'a> View for Naive<'a> {
    type V = NaiveV;

    open spec fn view(&self) -> NaiveV {
        NaiveV {
            path: places(self.path@),
            i: self.i,
            j: self.j,
            k: self.k,
            ni: self.ni@,
            nj: self.nj@,
            nk: self.nk@,
            acc: self.acc,
            zero: self.zero@,
            c: self.c,
            ic: self.ic@,
            mac: self.mac@,
        }
    }
}

pub open spec fn opt_naive<'a>(x: Option<Naive<'a>>) -> Option<NaiveV> {
    match x {
        Some(n) => Some(n@),
        None => None,
    }
}

fn zero_literal(e: &Expr) -> (r: bool)
    ensures
        r == is_zero(e@),
{
    proof {
        expr_parts(*e);
    }
    match &e.kind {
        ExprKind::Int(v) => *v == 0,
        _ => false,
    }
}

fn reads_local(e: &Expr, l: usize) -> (r: bool)
    ensures
        r == reads(e@, l),
{
    proof {
        expr_parts(*e);
    }
    match &e.kind {
        ExprKind::Local(x) => *x == l,
        _ => false,
    }
}

fn find_inner<'a>(s: &'a Stmt, acc: usize) -> (r: Option<(usize, &'a Expr, &'a Stmt)>)
    ensures
        (match r {
            Some(x) => Some((x.0, x.1@, x.2@)),
            None => None,
        }) == inner_loop(s@, acc),
{
    proof {
        stmt_parts(*s);
    }
    match s {
        Stmt::For { var, start, end, body } => {
            proof {
                block_lists(*body);
            }
            if zero_literal(start) && body.stmts.len() == 1 && body.tail.is_none() {
                let mac = &body.stmts[0];
                proof {
                    assert(body@.stmts[0] == mac@);
                    stmt_parts(*mac);
                }
                if as_mac(mac).is_some() {
                    match mac {
                        Stmt::Assign(lv, _, _) => {
                            proof {
                                lvalue_parts(*lv);
                            }
                            match lv {
                                LValue::Var(l) => {
                                    if *l == acc {
                                        return Some((*var, end, mac));
                                    }
                                },
                                _ => {},
                            }
                        },
                        _ => {},
                    }
                }
            }
            None
        },
        _ => None,
    }
}

fn find_middle<'a>(i: usize, ni: &'a Expr, s: &'a Stmt) -> (r: Option<Naive<'a>>)
    ensures
        opt_naive(r) == middle_loop(i, ni@, s@),
{
    proof {
        stmt_parts(*s);
    }
    match s {
        Stmt::For { var, start, end, body } => {
            proof {
                block_lists(*body);
            }
            if body.stmts.len() == 3 && body.tail.is_none() && zero_literal(start) {
                let first = &body.stmts[0];
                let last = &body.stmts[2];
                proof {
                    assert(body@.stmts[0] == first@);
                    assert(body@.stmts[1] == body.stmts@[1]@);
                    assert(body@.stmts[2] == last@);
                    stmt_parts(*first);
                    stmt_parts(*last);
                }
                match (first, last) {
                    (Stmt::Let(acc, zero), Stmt::Assign(lv, op, store)) => {
                        proof {
                            lvalue_parts(*lv);
                        }
                        match (lv, find_inner(&body.stmts[1], *acc)) {
                            (LValue::Index(c, ic, _), Some((k, nk, mac))) => {
                                if op.is_none() && reads_local(store, *acc) {
                                    let path: Vec<usize> = Vec::new();
                                    assert(places(path@) =~= Seq::empty());
                                    return Some(
                                        Naive { path, i, j: *var, k, ni, nj: end, nk, acc: *acc, zero, c: *c, ic, mac },
                                    );
                                }
                            },
                            _ => {},
                        }
                    },
                    _ => {},
                }
            }
            None
        },
        _ => None,
    }
}

fn find_here<'a>(s: &'a Stmt) -> (r: Option<Naive<'a>>)
    ensures
        opt_naive(r) == naive_here(s@),
{
    proof {
        stmt_parts(*s);
    }
    match s {
        Stmt::For { var, start, end, body } => {
            proof {
                block_lists(*body);
            }
            if body.stmts.len() == 1 && body.tail.is_none() && zero_literal(start) {
                assert(body@.stmts[0] == body.stmts@[0]@);
                find_middle(*var, end, &body.stmts[0])
            } else {
                None
            }
        },
        _ => None,
    }
}

fn placed<'a>(n: usize, x: Naive<'a>) -> (r: Naive<'a>)
    ensures
        Some(r@) == under(n as int, Some(x@)),
{
    let mut path = x.path;
    let ghost p = places(path@);
    path.insert(0, n);
    assert(places(path@) =~= seq![n as int] + p);
    Naive { path, ..x }
}

fn find_naive<'a>(s: &'a Vec<Stmt>) -> (r: Option<Naive<'a>>)
    ensures
        opt_naive(r) == naive_from(views(s@), 0),
    decreases stmts_size(views(s@)),
{
    let ghost v = views(s@);
    let mut n: usize = 0;
    while n < s.len()
        invariant
            n <= s@.len(),
            v == views(s@),
            naive_from(v, 0) == naive_from(v, n as nat),
        decreases s@.len() - n,
    {
        let st = &s[n];
        proof {
            assert(v[n as int] == st@);
            stmt_parts(*st);
            stmts_shrink(v, n as int);
            stmt_shrinks(st@);
        }
        match find_here(st) {
            Some(x) => {
                return Some(placed(n, x));
            },
            None => {},
        }
        match st {
            Stmt::For { var, start, end, body } => {
                proof {
                    block_lists(*body);
                    block_shrinks(body@);
                }
                match find_naive(&body.stmts) {
                    Some(x) => {
                        return Some(placed(n, x));
                    },
                    None => {},
                }
            },
            _ => {},
        }
        n += 1;
    }
    None
}

/// The block with the statement at `path`, from its `at`-th place on, replaced.
#[verifier::loop_isolation(false)]
fn replace_at(b: &Block, path: &Vec<usize>, at: usize, with: Vec<Stmt>) -> (r: Block)
    requires
        at <= path@.len(),
    ensures
        r@ == replaced_at(b@, places(path@).skip(at as int), views(with@)),
    decreases path@.len() - at,
{
    let ghost p = places(path@).skip(at as int);
    let ghost v = b@.stmts;
    let ghost wv = views(with@);
    proof {
        block_lists(*b);
    }
    if at >= path.len() || path[at] >= b.stmts.len() {
        return b.copy();
    }
    let n = path[at];
    assert(p[0] == n);
    let st = &b.stmts[n];
    proof {
        assert(v[n as int] == st@);
        stmt_parts(*st);
        assert(p.drop_first() =~= places(path@).skip(at + 1));
    }
    let mut stmts: Vec<Stmt> = Vec::new();
    let mut i: usize = 0;
    while i < n
        invariant
            i <= n,
            stmts@.len() == i,
            forall|j: int| 0 <= j < i ==> (#[trigger] stmts@[j])@ == v[j],
        decreases n - i,
    {
        assert(v[i as int] == b.stmts@[i as int]@);
        stmts.push(b.stmts[i].copy());
        i += 1;
    }
    assert(views(stmts@) =~= v.take(n as int));
    if at + 1 == path.len() {
        let mut more = with;
        stmts.append(&mut more);
        assert(views(stmts@) =~= v.take(n as int) + wv);
    } else {
        match st {
            Stmt::For { var, start, end, body } => {
                let new = Stmt::For {
                    var: *var,
                    start: start.copy(),
                    end: end.copy(),
                    body: replace_at(body, path, at + 1, with),
                };
                proof {
                    stmt_parts(new);
                }
                stmts.push(new);
                assert(views(stmts@) =~= v.take(n as int).push(new@));
            },
            _ => {
                return b.copy();
            },
        }
    }
    let ghost head = views(stmts@);
    let mut j: usize = n + 1;
    assert(v.subrange(n + 1, n + 1) =~= Seq::empty());
    assert(head + Seq::<StmtV>::empty() =~= head);
    while j < b.stmts.len()
        invariant
            n + 1 <= j <= b.stmts@.len(),
            views(stmts@) == head + v.subrange(n + 1, j as int),
        decreases b.stmts@.len() - j,
    {
        let x = b.stmts[j].copy();
        proof {
            assert(v[j as int] == b.stmts@[j as int]@);
            assert(views(stmts@.push(x)) =~= views(stmts@).push(x@));
            assert(v.subrange(n + 1, j + 1) =~= v.subrange(n + 1, j as int).push(v[j as int]));
            assert((head + v.subrange(n + 1, j as int)).push(x@) =~= head + v.subrange(n + 1, j + 1));
        }
        stmts.push(x);
        j += 1;
    }
    assert(v.subrange(n + 1, v.len() as int) =~= v.skip(n + 1));
    let tail = match &b.tail {
        Some(e) => Some(Box::new(e.copy())),
        None => None,
    };
    let r = Block { stmts, tail, ty: b.ty.copy() };
    proof {
        block_lists(r);
        if p.len() == 1 {
            assert(r@.stmts =~= v.take(n as int) + wv + v.skip(n + 1));
        } else {
            assert(r@.stmts =~= v.update(n as int, head[n as int]));
        }
    }
    r
}

fn line_of(mac: &Stmt) -> (r: u32)
    ensures
        r == mac_line(mac@),
{
    match as_mac(mac) {
        Some(m) => m.line,
        None => 0,
    }
}

fn ty_of(f: &Func, l: usize) -> (r: Ty)
    ensures
        r == local_of(f@, l).ty,
{
    if l < f.locals.len() {
        assert(f@.locals[l as int] == f.locals@[l as int]@);
        f.locals[l].ty.copy()
    } else {
        Ty::Unit
    }
}

/// The tile side: a number, or a parameter of the function.
enum Tile {
    Fixed(i64),
    Param(usize),
}

impl Tile {
    spec fn v(self) -> TileV {
        match self {
            Tile::Fixed(n) => TileV::Fixed(n),
            Tile::Param(l) => TileV::Param(l),
        }
    }

    spec fn ok(self) -> bool {
        match self {
            Tile::Fixed(n) => n > i64::MIN,
            Tile::Param(_) => true,
        }
    }

    fn side(&self, line: u32) -> (r: Expr)
        ensures
            r@ == v_side(self.v(), line),
    {
        match self {
            Tile::Fixed(n) => make_int(*n, line),
            Tile::Param(l) => make_local(*l, Ty::I64, line),
        }
    }

    fn tiles(&self, n: &Expr, line: u32) -> (r: Expr)
        requires
            self.ok(),
        ensures
            r@ == v_tiles(self.v(), n@, line),
    {
        match self {
            Tile::Fixed(k) => make_bin(
                BinOp::Div,
                make_bin(BinOp::Add, n.copy(), make_int(*k - 1, line)),
                make_int(*k, line),
            ),
            Tile::Param(l) => make_bin(BinOp::Div, n.copy(), make_local(*l, Ty::I64, line)),
        }
    }

    fn lo(&self, v: usize, line: u32) -> (r: Expr)
        ensures
            r@ == v_lo(self.v(), v, line),
    {
        make_bin(BinOp::Mul, make_local(v, Ty::I64, line), self.side(line))
    }

    fn hi(&self, v: usize, n: &Expr, line: u32) -> (r: Expr)
        ensures
            r@ == v_hi(self.v(), v, n@, line),
    {
        make_min(make_bin(BinOp::Add, self.lo(v, line), self.side(line)), n.copy())
    }
}

impl<'a> Naive<'a> {
    fn clear(&self, line: u32) -> (r: Stmt)
        ensures
            r@ == v_clear(self@, line),
    {
        let store = make_store(self.c, self.ic.copy(), line, self.zero.copy());
        let over_j = make_for(self.j, make_int(0, line), self.nj.copy(), alone(store));
        make_for(self.i, make_int(0, line), self.ni.copy(), alone(over_j))
    }

    fn tile_body(&self, t: &Tile, kk: usize, elem: &Ty, line: u32) -> (r: Vec<Stmt>)
        ensures
            views(r@) == v_tile_body(self@, t.v(), kk, *elem, line),
    {
        let load = Stmt::Let(self.acc, make_index(self.c, self.ic.copy(), elem.copy(), line));
        proof {
            stmt_parts(load);
        }
        let run = make_for(self.k, t.lo(kk, line), t.hi(kk, self.nk, line), alone(self.mac.copy()));
        let store = make_store(self.c, self.ic.copy(), line, make_local(self.acc, elem.copy(), line));
        let mut r: Vec<Stmt> = Vec::new();
        r.push(load);
        r.push(run);
        r.push(store);
        assert(views(r@) =~= v_tile_body(self@, t.v(), kk, *elem, line));
        r
    }

    fn tiled(&self, t: &Tile, ii: usize, jj: usize, kk: usize, elem: &Ty, line: u32) -> (r: Stmt)
        requires
            t.ok(),
        ensures
            r@ == v_tiled(self@, t.v(), ii, jj, kk, *elem, line),
    {
        let body = self.tile_body(t, kk, elem, line);
        let over_j = make_for(self.j, t.lo(jj, line), t.hi(jj, self.nj, line), body);
        let over_i = make_for(self.i, t.lo(ii, line), t.hi(ii, self.ni, line), alone(over_j));
        let over_kk = make_for(kk, make_int(0, line), t.tiles(self.nk, line), alone(over_i));
        let over_jj = make_for(jj, make_int(0, line), t.tiles(self.nj, line), alone(over_kk));
        make_for(ii, make_int(0, line), t.tiles(self.ni, line), alone(over_jj))
    }
}

fn tile_by(f: &Func, body: &Block, nv: &Naive, t: Tile, params: Vec<usize>, locals: Vec<Local>, Ghost(extra): Ghost<Seq<LocalV>>) -> (r:
    Func)
    requires
        t.ok(),
        f@.body == Some(body@),
        views(locals@) == f@.locals + extra,
    ensures
        r@ == tiled_func(f@, nv@, t.v(), params@, extra),
{
    let line = line_of(nv.mac);
    let elem = ty_of(f, nv.acc);
    let mut locals = locals;
    let ii = add_local(&mut locals, "ii", Ty::I64, false);
    let jj = add_local(&mut locals, "jj", Ty::I64, false);
    let kk = add_local(&mut locals, "kk", Ty::I64, false);
    let clear = nv.clear(line);
    let nest = nv.tiled(&t, ii, jj, kk, &elem, line);
    let mut with: Vec<Stmt> = Vec::new();
    with.push(clear);
    with.push(nest);
    proof {
        assert(views(with@) =~= seq![clear@, nest@]);
        assert(places(nv.path@).skip(0) =~= nv@.path);
        assert(views(locals@) =~= f@.locals + extra + seq![v_counter("ii"@), v_counter("jj"@), v_counter("kk"@)]);
    }
    let b = replace_at(body, &nv.path, 0, with);
    f.with_body(params, locals, Some(b))
}

/// Tile the three loops by `t`, accumulating into `C` across the `kk` tiles. `C` is cleared first,
/// so the function still computes the product rather than adding to `C`'s old contents.
pub fn tile(f: &Func, t: i64) -> (r: Option<Func>)
    requires
        t > i64::MIN,
    ensures
        opt_view(r) == s_tile(f@, t),
{
    match &f.body {
        None => None,
        Some(b) => {
            proof {
                block_lists(*b);
            }
            match find_naive(&b.stmts) {
                None => None,
                Some(nv) => {
                    let locals = copy_locals(&f.locals);
                    let ghost none = Seq::<LocalV>::empty();
                    assert(f@.locals + none =~= f@.locals);
                    Some(tile_by(f, b, &nv, Tile::Fixed(t), copy_ids(&f.params), locals, Ghost(none)))
                },
            }
        },
    }
}

/// The same with the side a new parameter `T`; its local comes with it.
pub fn tile_sym(f: &Func) -> (r: Option<(Func, usize)>)
    ensures
        (match r {
            Some(x) => Some((x.0@, x.1)),
            None => None,
        }) == s_tile_sym(f@),
{
    match &f.body {
        None => None,
        Some(b) => {
            proof {
                block_lists(*b);
            }
            match find_naive(&b.stmts) {
                None => None,
                Some(nv) => {
                    let mut locals = copy_locals(&f.locals);
                    let tv = add_local(&mut locals, "T", Ty::I64, false);
                    let mut params = copy_ids(&f.params);
                    params.push(tv);
                    let ghost extra = seq![v_counter("T"@)];
                    assert(views(locals@) =~= f@.locals + extra);
                    Some((tile_by(f, b, &nv, Tile::Param(tv), params, locals, Ghost(extra)), tv))
                },
            }
        },
    }
}

fn strided_in(e: &Expr, k: usize) -> (r: bool)
    ensures
        r == strided(e@, k),
    decreases expr_size(e@),
{
    proof {
        expr_parts(*e);
        expr_shrinks(e@);
    }
    match &e.kind {
        ExprKind::Binary(op, a, b) => {
            if matches!(op, BinOp::Mul) {
                reads_local(a, k) || reads_local(b, k)
            } else {
                strided_in(a, k) || strided_in(b, k)
            }
        },
        _ => false,
    }
}

fn holds_local(e: &Expr, l: usize) -> (r: bool)
    ensures
        r == has_local(e@, l),
    decreases expr_size(e@),
{
    proof {
        expr_parts(*e);
        expr_shrinks(e@);
    }
    match &e.kind {
        ExprKind::Local(x) => *x == l,
        ExprKind::Binary(_, a, b) => holds_local(a, l) || holds_local(b, l),
        ExprKind::MinMax(_, a, b) => holds_local(a, l) || holds_local(b, l),
        ExprKind::Unary(_, a) => holds_local(a, l),
        ExprKind::Cast(a, _) => holds_local(a, l),
        _ => false,
    }
}

fn subst_locals(e: &Expr, from: usize, to: usize, from2: usize, to2: usize) -> (r: Expr)
    ensures
        r@ == renamed(e@, from, to, from2, to2),
    decreases expr_size(e@),
{
    proof {
        expr_parts(*e);
        expr_shrinks(e@);
    }
    let kind = match &e.kind {
        ExprKind::Local(x) => ExprKind::Local(
            if *x == from {
                to
            } else if *x == from2 {
                to2
            } else {
                *x
            },
        ),
        ExprKind::Binary(op, a, b) => ExprKind::Binary(
            *op,
            Box::new(subst_locals(a, from, to, from2, to2)),
            Box::new(subst_locals(b, from, to, from2, to2)),
        ),
        ExprKind::MinMax(m, a, b) => ExprKind::MinMax(
            *m,
            Box::new(subst_locals(a, from, to, from2, to2)),
            Box::new(subst_locals(b, from, to, from2, to2)),
        ),
        ExprKind::Unary(op, a) => ExprKind::Unary(*op, Box::new(subst_locals(a, from, to, from2, to2))),
        ExprKind::Cast(a, t) => ExprKind::Cast(Box::new(subst_locals(a, from, to, from2, to2)), t.copy()),
        _ => {
            return e.copy();
        },
    };
    let r = Expr { kind, ty: e.ty.copy(), line: e.line };
    proof {
        expr_parts(r);
    }
    r
}

fn replace_mac(s: &Stmt, with: &Stmt) -> (r: Stmt)
    ensures
        r@ == mac_replaced(s@, with@),
    decreases stmt_size(s@),
{
    proof {
        stmt_parts(*s);
        stmt_shrinks(s@);
    }
    if as_mac(s).is_some() {
        return with.copy();
    }
    match s {
        Stmt::For { var, start, end, body } => {
            let ghost v = body@.stmts;
            proof {
                block_lists(*body);
                block_shrinks(body@);
                assert(v.take(0) =~= Seq::empty());
            }
            let mut stmts: Vec<Stmt> = Vec::new();
            let mut i: usize = 0;
            assert(views(stmts@) =~= Seq::empty());
            while i < body.stmts.len()
                invariant
                    i <= body.stmts@.len(),
                    v == views(body.stmts@),
                    stmts_size(v) < stmt_size(s@),
                    views(stmts@) == macs_replaced(v.take(i as int), with@),
                decreases body.stmts@.len() - i,
            {
                proof {
                    stmts_shrink(v, i as int);
                    assert(v.take(i + 1).drop_last() =~= v.take(i as int));
                    assert(v.take(i + 1).last() == body.stmts@[i as int]@);
                }
                let x = replace_mac(&body.stmts[i], with);
                assert(views(stmts@.push(x)) =~= views(stmts@).push(x@));
                stmts.push(x);
                i += 1;
            }
            assert(v.take(i as int) =~= v);
            let tail = match &body.tail {
                Some(e) => Some(Box::new(e.copy())),
                None => None,
            };
            let b = Block { stmts, tail, ty: body.ty.copy() };
            let r = Stmt::For { var: *var, start: start.copy(), end: end.copy(), body: b };
            proof {
                block_lists(b);
                stmt_parts(r);
            }
            r
        },
        _ => s.copy(),
    }
}

fn stmt_at<'a>(s: &'a Vec<Stmt>, path: &Vec<usize>, at: usize) -> (r: Option<&'a Stmt>)
    requires
        at <= path@.len(),
    ensures
        (match r {
            Some(x) => Some(x@),
            None => None,
        }) == stmt_of(views(s@), places(path@).skip(at as int)),
    decreases path@.len() - at,
{
    let ghost p = places(path@).skip(at as int);
    if at >= path.len() || path[at] >= s.len() {
        return None;
    }
    let st = &s[path[at]];
    proof {
        assert(p[0] == path@[at as int]);
        assert(views(s@)[p[0]] == st@);
        assert(p.drop_first() =~= places(path@).skip(at + 1));
        stmt_parts(*st);
    }
    if at + 1 == path.len() {
        return Some(st);
    }
    match st {
        Stmt::For { var, start, end, body } => {
            proof {
                block_lists(*body);
            }
            stmt_at(&body.stmts, path, at + 1)
        },
        _ => None,
    }
}

fn replace_read(s: &Stmt, arr: usize, read: Expr) -> (r: Stmt)
    ensures
        r@ == read_replaced(s@, arr, read@),
{
    proof {
        stmt_parts(*s);
    }
    match s {
        Stmt::Assign(lv, op, e) => {
            proof {
                expr_parts(*e);
            }
            match &e.kind {
                ExprKind::Binary(o, l, r) => {
                    proof {
                        expr_parts(**l);
                    }
                    let first = match &l.kind {
                        ExprKind::Index(a, _) => *a == arr,
                        _ => false,
                    };
                    let kind = if first {
                        ExprKind::Binary(*o, Box::new(read), Box::new(r.copy()))
                    } else {
                        ExprKind::Binary(*o, Box::new(l.copy()), Box::new(read))
                    };
                    let x = Expr { kind, ty: e.ty.copy(), line: e.line };
                    proof {
                        stmt_shrinks(s@);
                    }
                    let target = lv.copy(Ghost(stmt_size(s@)));
                    let y = Stmt::Assign(target, *op, x);
                    proof {
                        expr_parts(x);
                        stmt_parts(y);
                    }
                    y
                },
                _ => s.copy(),
            }
        },
        _ => s.copy(),
    }
}

/// What the transposition works on.
struct Flip<'a> {
    nv: Naive<'a>,
    arr: usize,
    idx: &'a Expr,
    line: u32,
    elem: Ty,
    other: usize,
    nother: &'a Expr,
}

impl<'a> Flip<'a> {
    spec fn v(self) -> FlipV {
        FlipV {
            nv: self.nv@,
            arr: self.arr,
            idx: self.idx@,
            line: self.line,
            elem: self.elem,
            other: self.other,
            nother: self.nother@,
        }
    }

    fn row(&self, a: usize, b: usize, locals: &Vec<Local>) -> (r: Expr)
        ensures
            r@ == v_row(self.nv@, a, b, views(locals@), self.line),
    {
        make_bin(
            BinOp::Add,
            make_bin(BinOp::Mul, make_local(a, ty_in(locals, a), self.line), self.nv.nk.copy()),
            make_local(b, ty_in(locals, b), self.line),
        )
    }

    fn copying(&self, locals: &Vec<Local>, bt: usize, p: usize, q: usize) -> (r: Vec<Stmt>)
        ensures
            views(r@) == v_copying(self.v(), views(locals@), bt, p, q),
    {
        let line = self.line;
        let read = make_index(
            self.arr,
            subst_locals(self.idx, self.nv.k, p, self.other, q),
            self.elem.copy(),
            line,
        );
        let store = make_store(bt, self.row(q, p, locals), line, read);
        let over_q = make_for(q, make_int(0, line), self.nother.copy(), alone(store));
        let over_p = make_for(p, make_int(0, line), self.nv.nk.copy(), alone(over_q));
        let zero_kind = if matches!(self.elem, Ty::F64) {
            ExprKind::Float("0.0".to_owned())
        } else {
            ExprKind::Int(0)
        };
        let zero = Expr { kind: zero_kind, ty: self.elem.copy(), line };
        proof {
            expr_parts(zero);
        }
        let fill = Stmt::LetRepeat(bt, zero, make_bin(BinOp::Mul, self.nv.nk.copy(), self.nother.copy()));
        proof {
            stmt_parts(fill);
        }
        let mut r: Vec<Stmt> = Vec::new();
        r.push(fill);
        r.push(over_p);
        assert(views(r@) =~= v_copying(self.v(), views(locals@), bt, p, q));
        r
    }
}

fn ty_in(locals: &Vec<Local>, l: usize) -> (r: Ty)
    ensures
        r == ty_at(views(locals@), l),
{
    if l < locals.len() {
        assert(views(locals@)[l as int] == locals@[l as int]@);
        locals[l].ty.copy()
    } else {
        Ty::Unit
    }
}

fn find_flip<'a>(f: &Func, b: &'a Block) -> (r: Option<Flip<'a>>)
    requires
        f@.body == Some(b@),
    ensures
        (match r {
            Some(x) => Some(x.v()),
            None => None,
        }) == flip_of(f@),
{
    proof {
        block_lists(*b);
    }
    let nv = match find_naive(&b.stmts) {
        Some(nv) => nv,
        None => {
            return None;
        },
    };
    let mac = match as_mac(nv.mac) {
        Some(m) => m,
        None => {
            return None;
        },
    };
    let (arr, idx) = if strided_in(mac.ib, nv.k) {
        (mac.b, mac.ib)
    } else if strided_in(mac.ia, nv.k) {
        (mac.a, mac.ia)
    } else {
        return None;
    };
    let ty = ty_of(f, arr);
    let elem = match ty.elem() {
        Some(t) => t.copy(),
        None => {
            return None;
        },
    };
    let (other, nother) = if holds_local(idx, nv.j) {
        (nv.j, nv.nj)
    } else if holds_local(idx, nv.i) {
        (nv.i, nv.ni)
    } else {
        return None;
    };
    Some(Flip { nv, arr, idx, line: mac.line, elem, other, nother })
}

/// Transpose the operand that is walked down a column: the one whose index has the innermost
/// loop variable with a coefficient other than one. A transposed copy is built before the nest
/// and the inner loop reads it along a row.
pub fn transpose(f: &Func) -> (r: Option<Func>)
    ensures
        opt_view(r) == s_transpose(f@),
{
    let b = match &f.body {
        Some(b) => b,
        None => {
            return None;
        },
    };
    let x = match find_flip(f, b) {
        Some(x) => x,
        None => {
            return None;
        },
    };
    let ghost xv = x.v();
    let mut locals = copy_locals(&f.locals);
    let ty = ty_of(f, x.arr);
    let size: Size = match ty.size() {
        Some(s) => *s,
        None => Size::Const(-1),
    };
    let name = if x.arr < f.locals.len() {
        assert(f@.locals[x.arr as int] == f.locals@[x.arr as int]@);
        cat2(&f.locals[x.arr].name, "_t")
    } else {
        cat2("", "_t")
    };
    let bt = add_local(&mut locals, &name, Ty::Array(Box::new(x.elem.copy()), size), true);
    let p = add_local(&mut locals, "p", Ty::I64, false);
    let q = add_local(&mut locals, "q", Ty::I64, false);
    proof {
        assert(views(locals@) =~= flip_locals(f@, xv));
        block_lists(*b);
        assert(places(x.nv.path@).skip(0) =~= x.nv@.path);
    }
    let read = make_index(bt, x.row(x.other, x.nv.k, &locals), x.elem.copy(), x.line);
    let mac = replace_read(x.nv.mac, x.arr, read);
    match stmt_at(&b.stmts, &x.nv.path, 0) {
        None => None,
        Some(nest) => {
            let mut with = x.copying(&locals, bt, p, q);
            let ghost wv = views(with@);
            let nest = replace_mac(nest, &mac);
            assert(views(with@.push(nest)) =~= wv.push(nest@));
            with.push(nest);
            let body = replace_at(b, &x.nv.path, 0, with);
            Some(f.with_body(copy_ids(&f.params), locals, Some(body)))
        },
    }
}

/// The tile side for a machine: the largest power of two with three `t×t` tiles of `w`-byte
/// elements strictly inside `M`; 1 where not even three single elements are.
pub fn tile_side(m_bytes: i128, elem_bytes: i128) -> (r: i64)
    requires
        elem_bytes > 0,
    ensures
        r == side_from(1, m_bytes as int, elem_bytes as int),
        is_side(r as int, m_bytes as int, elem_bytes as int),
{
    proof {
        side_is_largest(m_bytes as int, elem_bytes as int);
    }
    let m = BigInt::from_i128(m_bytes);
    let w = BigInt::from_i128(elem_bytes);
    let mut t: i64 = 1;
    let ghost goal = side_from(1, m_bytes as int, elem_bytes as int);
    loop
        invariant
            1 <= t,
            elem_bytes > 0,
            m@ == m_bytes,
            w@ == elem_bytes,
            goal == side_from(1, m_bytes as int, elem_bytes as int),
            is_side(goal, m_bytes as int, elem_bytes as int),
            goal == side_from(t as int, m_bytes as int, elem_bytes as int),
        decreases m_bytes - t,
    {
        let twice = BigInt::from_i128(2 * (t as i128));
        let need = BigInt::from_i128(3).times(&twice).times(&twice).times(&w);
        proof {
            let tt = t as int;
            let ww = elem_bytes as int;
            assert(need@ == 3 * (2 * tt) * (2 * tt) * ww);
            assert(2 * tt <= 3 * (2 * tt) * (2 * tt) * ww) by (nonlinear_arith)
                requires
                    tt >= 1,
                    ww >= 1,
            ;
            if t >= 0x4000_0000_0000_0000 {
                assert((2 * tt) * (2 * tt) >= 0x4000_0000_0000_0000_0000_0000_0000_0000) by (nonlinear_arith)
                    requires
                        tt >= 0x4000_0000_0000_0000,
                ;
                assert(3 * (2 * tt) * (2 * tt) * ww >= 3 * ((2 * tt) * (2 * tt))) by (nonlinear_arith)
                    requires
                        tt >= 0,
                        ww >= 1,
                ;
            }
        }
        if need.side(&m) != Side::Before {
            return t;
        }
        t = 2 * t;
    }
}

// ---- laws ----

/// What a rewrite leaves: all of a function but its body, with new locals behind the old.
pub open spec fn signature_kept(f: FuncV, g: FuncV) -> bool {
    &&& g == (FuncV { locals: g.locals, body: g.body, ..f })
    &&& g.body is Some
    &&& f.locals.len() < g.locals.len()
    &&& g.locals.take(f.locals.len() as int) == f.locals
}

/// Tiling changes a function's body and adds locals, nothing else.
pub proof fn tile_keeps_signature(f: FuncV, t: i64)
    requires
        s_tile(f, t) is Some,
    ensures
        signature_kept(f, s_tile(f, t)->0),
{
    let g = s_tile(f, t)->0;
    assert(g.locals.take(f.locals.len() as int) =~= f.locals);
}

/// Transposing changes a function's body and adds locals, nothing else.
pub proof fn transpose_keeps_signature(f: FuncV)
    requires
        s_transpose(f) is Some,
    ensures
        signature_kept(f, s_transpose(f)->0),
{
    let g = s_transpose(f)->0;
    assert(g.locals.take(f.locals.len() as int) =~= f.locals);
}

/// `t` is the largest power of two with three `t×t` tiles of `w`-byte elements strictly inside `m`,
/// or 1 where there is none.
pub open spec fn is_side(t: int, m: int, w: int) -> bool {
    &&& exists|k: nat| t == #[trigger] pow2(k)
    &&& 3 * (2 * t) * (2 * t) * w >= m
    &&& if 3 * w < m {
        3 * t * t * w < m
    } else {
        t == 1
    }
}

/// The tile side is the largest power of two with three tiles strictly inside the memory.
pub proof fn side_is_largest(m: int, w: int)
    requires
        w > 0,
    ensures
        is_side(side_from(1, m, w), m, w),
{
    assert(pow2(0) == 1) by {
        vstd::arithmetic::power2::lemma2_to64();
    }
    side_from_is(0, m, w);
    let t = side_from(1, m, w);
    let p = pow2(0) as int;
    assert(3 * (2 * p) * (2 * p) * w == 12 * w) by (nonlinear_arith)
        requires
            p == 1,
    ;
    if t == 1 {
        assert(3 * t * t * w == 3 * w) by (nonlinear_arith)
            requires
                t == 1,
        ;
    }
}

proof fn side_from_is(k: nat, m: int, w: int)
    requires
        w > 0,
    ensures
        ({
            let t = side_from(pow2(k) as int, m, w);
            &&& exists|j: nat| t == #[trigger] pow2(j)
            &&& t == pow2(k) || 3 * t * t * w < m
            &&& 3 * (2 * t) * (2 * t) * w >= m
            &&& t > pow2(k) ==> 3 * (2 * pow2(k)) * (2 * pow2(k)) * w < m
            &&& t >= pow2(k)
        }),
    decreases m - pow2(k),
{
    let t = pow2(k) as int;
    vstd::arithmetic::power2::lemma_pow2_pos(k);
    if 3 * (2 * t) * (2 * t) * w < m {
        assert(2 * t <= m) by (nonlinear_arith)
            requires
                t >= 1,
                w >= 1,
                3 * (2 * t) * (2 * t) * w < m,
        ;
        vstd::arithmetic::power2::lemma_pow2_unfold(k + 1);
        assert(pow2(k + 1) == 2 * t);
        side_from_is(k + 1, m, w);
    } else {
        assert(side_from(t, m, w) == t);
    }
}

} // verus!
