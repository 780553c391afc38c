//! Export one function as a polyhedral SCoP in C, the input IOLB (and PET) reads: loop nests,
//! affine indices, `#pragma scop` around the body. A flat row-major index `i·n + k` with a
//! parametric row length is not affine in the polyhedral sense — the product of a parameter and
//! an iterator is not linear — so such an array is delinearised into a two-dimensional VLA
//! parameter `double a[a_rows][n]` and the access into `a[i][k]`. Anything the polyhedral model
//! cannot take (a call, a `while`, a data-dependent index or condition) refuses the export with
//! the reason.

use vstd::prelude::*;
use crate::decimals::{constant_text, show_constant};
use crate::ast::{views, BinOp, UnOp};
use crate::cost::model::text_side;
use crate::cost::scope::{local_of, Known};
use crate::cost::show::{join, join_texts};
use crate::cost::size::side_of_texts;
use crate::cost::table::{has_id, known, nothing, Table};
use crate::ir::{
    block_lists, expr_parts, lvalue_parts, stmt_parts, Block, BlockV, Expr, ExprKind, ExprV, Func, FuncV, KindV,
    LValue, LValueV, Module, ModuleV, Stmt, StmtV, Ty,
};
use crate::irsize::{
    block_shrinks, block_size, expr_shrinks, expr_size, stmt_shrinks, stmt_size, stmts_shrink, stmts_size,
};
use crate::num::Side;
use crate::text::{
    cat2, cat3, cat4, cat5, cat7, chars_of, copy_text, decimal, int_text, say, show_i64, show_u64, text_of, texts,
};

verus! {

// ---- names and types ----

/// The type in C; an array is named by its element.
pub open spec fn c_type(t: Ty) -> Seq<char>
    decreases t,
{
    match t {
        Ty::I64 => "long"@,
        Ty::F64 => "double"@,
        Ty::Bool => "int"@,
        Ty::U8 => "unsigned char"@,
        Ty::Unit => "void"@,
        Ty::Struct(_) => "struct"@,
        Ty::Array(e, _) => c_type(*e),
        Ty::Slice(e, _, _) => c_type(*e),
    }
}

pub fn c_ty(t: &Ty) -> (r: &'static str)
    ensures
        r@ == c_type(*t),
    decreases t,
{
    match t {
        Ty::I64 => "long",
        Ty::F64 => "double",
        Ty::Bool => "int",
        Ty::U8 => "unsigned char",
        Ty::Unit => "void",
        Ty::Struct(_) => "struct",
        Ty::Array(e, _) => c_ty(e),
        Ty::Slice(e, _, _) => c_ty(e),
    }
}

/// A name with `_` for `#`, which C does not take.
pub open spec fn c_name(s: Seq<char>) -> Seq<char> {
    Seq::new(
        s.len(),
        |i: int|
            if s[i] == '#' {
                '_'
            } else {
                s[i]
            },
    )
}

/// A local that is not a parameter, told apart by its id.
pub open spec fn own_name(f: FuncV, l: usize) -> Seq<char> {
    c_name(local_of(f, l).name) + "_"@ + decimal(l as nat)
}

// ---- the state ----

/// What the export knows where it stands: the shape of each array — its row length where every
/// index is `v·row + w` — the loops that hold it, and the scalars written as literals.
pub struct ScopV {
    pub dims: Known<Option<Seq<char>>>,
    pub loop_vars: Seq<usize>,
    /// every loop variable seen, for the declarations
    pub loop_ids: Seq<usize>,
    /// immutable scalars bound to a literal: a tile side `let t = 64` must be a constant for the
    /// loop bounds to be affine
    pub consts: Known<Seq<char>>,
}

// ---- expressions ----

/// The expression reads a loop variable.
pub open spec fn reads_loop(vars: Seq<usize>, e: ExprV) -> bool
    decreases e,
{
    match e.kind {
        KindV::Local(l) => vars.contains(l),
        KindV::Binary(_, a, b) => reads_loop(vars, *a) || reads_loop(vars, *b),
        KindV::MinMax(_, a, b) => reads_loop(vars, *a) || reads_loop(vars, *b),
        KindV::Unary(_, a) => reads_loop(vars, *a),
        KindV::Cast(a, _) => reads_loop(vars, *a),
        _ => false,
    }
}

/// A product of a loop variable and what is free of loop variables: the variable and the rest.
pub open spec fn row_product(vars: Seq<usize>, e: ExprV) -> Option<(ExprV, ExprV)> {
    match e.kind {
        KindV::Binary(op, x, y) => if op == BinOp::Mul {
            let first = match x.kind {
                KindV::Local(l) => vars.contains(l) && !reads_loop(vars, *y),
                _ => false,
            };
            let second = match y.kind {
                KindV::Local(l) => vars.contains(l) && !reads_loop(vars, *x),
                _ => false,
            };
            if first {
                Some((*x, *y))
            } else if second {
                Some((*y, *x))
            } else {
                None
            }
        } else {
            None
        },
        _ => None,
    }
}

/// `v·row + w` or `row·v + w` (either order of the sum) with `v` a loop variable and `row` free
/// of loop variables: the row, `v` and `w`.
pub open spec fn split_2d(vars: Seq<usize>, idx: ExprV) -> Option<(ExprV, ExprV, ExprV)> {
    match idx.kind {
        KindV::Binary(op, a, b) => if op == BinOp::Add {
            match row_product(vars, *a) {
                Some((v, row)) => Some((row, v, *b)),
                None => match row_product(vars, *b) {
                    Some((v, row)) => Some((row, v, *a)),
                    None => None,
                },
            }
        } else {
            None
        },
        _ => None,
    }
}

pub type Inner = spec_fn(ExprV) -> Seq<char>;

pub open spec fn index_text(f: FuncV, st: ScopV, inner: Inner, arr: usize, idx: ExprV) -> Seq<char> {
    let name = local_of(f, arr).name;
    match (st.dims)(arr) {
        Some(Some(_)) => match split_2d(st.loop_vars, idx) {
            Some((_, v, rest)) => name + "["@ + inner(v) + "]["@ + inner(rest) + "]"@,
            None => name + "[0]["@ + inner(idx) + "]"@,
        },
        _ => name + "["@ + inner(idx) + "]"@,
    }
}

pub open spec fn tail_text(inner: Inner, t: Option<Box<ExprV>>) -> Seq<char> {
    match t {
        Some(x) => inner(*x),
        None => "0"@,
    }
}

/// An expression in C, given the texts of its parts.
pub open spec fn r_text(f: FuncV, st: ScopV, inner: Inner, e: ExprV) -> Seq<char> {
    match e.kind {
        KindV::Int(v) => int_text(v as int),
        KindV::Float(s) => constant_text(s),
        KindV::Bool(v) => if v {
            "1"@
        } else {
            "0"@
        },
        KindV::Byte(v) => decimal(v as nat),
        KindV::Local(l) => match (st.consts)(l) {
            Some(v) => v,
            None => if f.params.contains(l) {
                local_of(f, l).name
            } else {
                own_name(f, l)
            },
        },
        KindV::Binary(op, a, b) => "("@ + inner(*a) + " "@ + op.c_text() + " "@ + inner(*b) + ")"@,
        KindV::Unary(op, a) => if op == UnOp::Neg {
            "(-"@ + inner(*a) + ")"@
        } else {
            "(!"@ + inner(*a) + ")"@
        },
        KindV::Cast(a, t) => "(("@ + c_type(t) + ")("@ + inner(*a) + "))"@,
        KindV::Index(a, i) => index_text(f, st, inner, a, *i),
        KindV::Len(a) => local_of(f, a).name + "_n"@,
        KindV::MinMax(min, a, b) => "("@ + inner(*a) + (if min {
            " < "@
        } else {
            " > "@
        }) + inner(*b) + " ? "@ + inner(*a) + " : "@ + inner(*b) + ")"@,
        KindV::If(c, t, els) => "("@ + inner(*c) + " ? "@ + tail_text(inner, t.tail) + " : "@ + tail_text(
            inner,
            match els {
                Some(b) => b.tail,
                None => None,
            },
        ) + ")"@,
        KindV::Block(b) => tail_text(inner, b.tail),
        KindV::Ref(a, _) => local_of(f, a).name,
        _ => "0"@,
    }
}

#[verifier::opaque]
pub open spec fn text_knot(f: FuncV, st: ScopV, n: nat) -> Inner
    decreases n,
{
    |e: ExprV|
        if expr_size(e) < n {
            r_text(f, st, text_knot(f, st, expr_size(e)), e)
        } else {
            Seq::empty()
        }
}

/// An expression in C.
#[verifier::opaque]
pub open spec fn x_text(f: FuncV, st: ScopV, e: ExprV) -> Seq<char> {
    r_text(f, st, text_knot(f, st, expr_size(e)), e)
}

proof fn knot_text(f: FuncV, st: ScopV, n: nat, e: ExprV)
    requires
        expr_size(e) < n,
    ensures
        (text_knot(f, st, n))(e) == x_text(f, st, e),
{
    reveal(text_knot);
    reveal(x_text);
}

// ---- shapes ----

/// The shape an index implies for its array: `v·row + w` → 2-D with that row length.
pub open spec fn noted(f: FuncV, st: ScopV, arr: usize, idx: ExprV) -> Result<ScopV, Seq<char>> {
    let name = local_of(f, arr).name;
    let shape = match split_2d(st.loop_vars, idx) {
        Some((row, _, _)) => Some(x_text(f, st, row)),
        None => None,
    };
    if !f.params.contains(arr) {
        Err("`"@ + name + "` is not a parameter; only parameter arrays are exported"@)
    } else {
        match (st.dims)(arr) {
            None => Ok(ScopV { dims: known(st.dims, arr, shape), ..st }),
            Some(before) => if before == shape {
                Ok(st)
            } else {
                Err(
                    "`"@ + name
                        + "` is indexed both as one- and two-dimensional; the export cannot choose a shape"@,
                )
            },
        }
    }
}

pub type Scan = Result<ScopV, Seq<char>>;

pub open spec fn scan_expr(m: ModuleV, f: FuncV, st: ScopV, e: ExprV) -> Scan
    decreases e,
{
    match e.kind {
        KindV::Index(a, i) => match noted(f, st, a, *i) {
            Ok(s) => scan_expr(m, f, s, *i),
            Err(x) => Err(x),
        },
        KindV::Binary(_, x, y) => match scan_expr(m, f, st, *x) {
            Ok(s) => scan_expr(m, f, s, *y),
            Err(x) => Err(x),
        },
        KindV::MinMax(_, x, y) => match scan_expr(m, f, st, *x) {
            Ok(s) => scan_expr(m, f, s, *y),
            Err(x) => Err(x),
        },
        KindV::Unary(_, x) => scan_expr(m, f, st, *x),
        KindV::Cast(x, _) => scan_expr(m, f, st, *x),
        KindV::Call(fid, _) => Err(
            "a call to `"@ + (if fid < m.funcs.len() {
                m.funcs[fid as int].name
            } else {
                ""@
            }) + "` is not part of a SCoP"@,
        ),
        KindV::If(c, t, els) => match scan_expr(m, f, st, *c) {
            Ok(s) => match scan_block(m, f, s, t) {
                Ok(s2) => match els {
                    Some(b) => scan_block(m, f, s2, b),
                    None => Ok(s2),
                },
                Err(x) => Err(x),
            },
            Err(x) => Err(x),
        },
        KindV::Block(b) => scan_block(m, f, st, b),
        KindV::Println(_) => Err("`println` is not part of a SCoP"@),
        KindV::Field(_, _) => Err("a struct is not part of a SCoP"@),
        KindV::StructLit(_, _) => Err("a struct is not part of a SCoP"@),
        _ => Ok(st),
    }
}

pub open spec fn scan_block(m: ModuleV, f: FuncV, st: ScopV, b: BlockV) -> Scan
    decreases b,
{
    match scan_stmts(m, f, st, b.stmts) {
        Ok(s) => match b.tail {
            Some(t) => scan_expr(m, f, s, *t),
            None => Ok(s),
        },
        Err(x) => Err(x),
    }
}

pub open spec fn scan_stmts(m: ModuleV, f: FuncV, st: ScopV, s: Seq<StmtV>) -> Scan
    decreases s,
{
    if s.len() == 0 {
        Ok(st)
    } else {
        match scan_stmts(m, f, st, s.drop_last()) {
            Ok(t) => scan_stmt(m, f, t, s.last()),
            Err(x) => Err(x),
        }
    }
}

/// An immutable scalar bound to a literal outside the loops is written as the literal.
pub open spec fn with_const(f: FuncV, st: ScopV, id: usize, e: ExprV) -> ScopV {
    match e.kind {
        KindV::Int(v) => if !local_of(f, id).mutable && st.loop_vars.len() == 0 {
            ScopV { consts: known(st.consts, id, int_text(v as int)), ..st }
        } else {
            st
        },
        _ => st,
    }
}

pub open spec fn scan_stmt(m: ModuleV, f: FuncV, st: ScopV, s: StmtV) -> Scan
    decreases s,
{
    match s {
        StmtV::Let(id, e) => scan_expr(m, f, with_const(f, st, id, e), e),
        StmtV::Expr(e) => scan_expr(m, f, st, e),
        StmtV::Return(e) => match e {
            Some(x) => scan_expr(m, f, st, x),
            None => Ok(st),
        },
        StmtV::Assign(lv, _, e) => match lv {
            LValueV::Var(_) => scan_expr(m, f, st, e),
            LValueV::Index(a, i, _) => match noted(f, st, a, i) {
                Ok(s1) => match scan_expr(m, f, s1, i) {
                    Ok(s2) => scan_expr(m, f, s2, e),
                    Err(x) => Err(x),
                },
                Err(x) => Err(x),
            },
            _ => Err("a struct is not part of a SCoP"@),
        },
        StmtV::For { var, start, end, body } => match scan_expr(m, f, st, start) {
            Ok(s1) => match scan_expr(m, f, s1, end) {
                Ok(s2) => match scan_block(
                    m,
                    f,
                    ScopV { loop_ids: s2.loop_ids.push(var), loop_vars: s2.loop_vars.push(var), ..s2 },
                    body,
                ) {
                    Ok(s3) => Ok(ScopV { loop_vars: s2.loop_vars, ..s3 }),
                    Err(x) => Err(x),
                },
                Err(x) => Err(x),
            },
            Err(x) => Err(x),
        },
        StmtV::While { cond, decreasing, body, line } => Err(
            "a `while` (line "@ + decimal(line as nat)
                + ") is not static control; the polyhedral model needs `for` with affine bounds"@,
        ),
        StmtV::Break => Err("`break` is not static control"@),
        _ => Err("an array born inside the function is not part of a SCoP"@),
    }
}

// ---- untiling ----

pub open spec fn literal(st: ScopV, e: ExprV) -> Option<Seq<char>> {
    match e.kind {
        KindV::Int(v) => Some(int_text(v as int)),
        KindV::Local(l) => (st.consts)(l),
        _ => None,
    }
}

/// A loop over tiles: its variable, the side, and what is tiled.
pub struct TilesV {
    pub var: usize,
    pub side: Seq<char>,
    pub of: ExprV,
}

/// A loop `for ii in 0..n/T` with `T` a literal or a constant.
pub open spec fn tiles_here(st: ScopV, var: usize, start: ExprV, end: ExprV) -> Option<TilesV> {
    if start.kind != KindV::Int(0) {
        None
    } else {
        match end.kind {
            KindV::Binary(op, n, t) => if op == BinOp::Div {
                match literal(st, *t) {
                    Some(side) => Some(TilesV { var, side, of: *n }),
                    None => None,
                }
            } else {
                None
            },
            _ => None,
        }
    }
}

/// The loops over tiles, through `for` loops, outermost first.
pub open spec fn tile_loops(st: ScopV, s: Seq<StmtV>) -> Seq<TilesV>
    decreases s,
{
    if s.len() == 0 {
        Seq::empty()
    } else {
        tile_loops(st, s.drop_last()) + tile_loops_in(st, s.last())
    }
}

pub open spec fn tile_loops_in(st: ScopV, s: StmtV) -> Seq<TilesV>
    decreases s,
{
    match s {
        StmtV::For { var, start, end, body } => (match tiles_here(st, var, start, end) {
            Some(t) => seq![t],
            None => Seq::empty(),
        }) + tile_loops(st, body.stmts),
        _ => Seq::empty(),
    }
}

/// `ii·T`.
pub open spec fn is_tile_start(st: ScopV, e: ExprV, ii: usize, t: Seq<char>) -> bool {
    match e.kind {
        KindV::Binary(op, a, b) => op == BinOp::Mul && ((a.kind == KindV::Local(ii) && literal(st, *b) == Some(t)) || (
        b.kind == KindV::Local(ii) && literal(st, *a) == Some(t))),
        _ => false,
    }
}

/// The end of a tile's loop without the clamp of its last tile.
pub open spec fn unclamped(end: ExprV) -> ExprV {
    match end.kind {
        KindV::MinMax(min, a, _) => if min {
            *a
        } else {
            end
        },
        _ => end,
    }
}

/// `ii·T + T`.
pub open spec fn is_tile_end(st: ScopV, e: ExprV, ii: usize, t: Seq<char>) -> bool {
    match e.kind {
        KindV::Binary(op, a, b) => op == BinOp::Add && is_tile_start(st, *a, ii, t) && literal(st, *b) == Some(t),
        _ => false,
    }
}

pub open spec fn is_tile_loop(st: ScopV, start: ExprV, end: ExprV, ii: usize, t: Seq<char>) -> bool {
    is_tile_start(st, start, ii, t) && is_tile_end(st, unclamped(end), ii, t)
}

/// The expression reads a local.
pub open spec fn x_mentions(e: ExprV, v: usize) -> bool
    decreases e,
{
    match e.kind {
        KindV::Local(l) => l == v,
        KindV::Binary(_, a, b) => x_mentions(*a, v) || x_mentions(*b, v),
        KindV::MinMax(_, a, b) => x_mentions(*a, v) || x_mentions(*b, v),
        KindV::Unary(_, a) => x_mentions(*a, v),
        KindV::Cast(a, _) => x_mentions(*a, v),
        KindV::Println(a) => x_mentions(*a, v),
        KindV::Index(_, i) => x_mentions(*i, v),
        KindV::If(c, t, els) => x_mentions(*c, v) || (match t.tail {
            Some(x) => x_mentions(*x, v),
            None => false,
        }) || (match els {
            Some(b) => match b.tail {
                Some(x) => x_mentions(*x, v),
                None => false,
            },
            None => false,
        }),
        KindV::Block(b) => match b.tail {
            Some(x) => x_mentions(*x, v),
            None => false,
        },
        _ => false,
    }
}

/// The loops over one tile: `for i in ii·T .. ii·T + T` (or `.. min(ii·T + T, n)`).
pub open spec fn inner_loops(st: ScopV, s: Seq<StmtV>, ii: usize, t: Seq<char>) -> Seq<usize>
    decreases s,
{
    if s.len() == 0 {
        Seq::empty()
    } else {
        inner_loops(st, s.drop_last(), ii, t) + inner_loops_in(st, s.last(), ii, t)
    }
}

pub open spec fn inner_loops_in(st: ScopV, s: StmtV, ii: usize, t: Seq<char>) -> Seq<usize>
    decreases s,
{
    match s {
        StmtV::For { var, start, end, body } => (if is_tile_loop(st, start, end, ii, t) {
            seq![var]
        } else {
            Seq::empty()
        }) + inner_loops(st, body.stmts, ii, t),
        _ => Seq::empty(),
    }
}

/// Any other mention of `ii`.
pub open spec fn used_elsewhere(st: ScopV, b: BlockV, ii: usize, t: Seq<char>) -> bool
    decreases b,
{
    used_in_stmts(st, b.stmts, ii, t) || (match b.tail {
        Some(x) => x_mentions(*x, ii),
        None => false,
    })
}

pub open spec fn used_in_stmts(st: ScopV, s: Seq<StmtV>, ii: usize, t: Seq<char>) -> bool
    decreases s,
{
    if s.len() == 0 {
        false
    } else {
        used_in_stmts(st, s.drop_last(), ii, t) || used_in_stmt(st, s.last(), ii, t)
    }
}

pub open spec fn used_in_stmt(st: ScopV, s: StmtV, ii: usize, t: Seq<char>) -> bool
    decreases s,
{
    match s {
        StmtV::For { var, start, end, body } => (!is_tile_loop(st, start, end, ii, t) && (x_mentions(start, ii)
            || x_mentions(unclamped(end), ii))) || used_elsewhere(st, body, ii, t),
        StmtV::Let(_, e) => x_mentions(e, ii),
        StmtV::Expr(e) => x_mentions(e, ii),
        StmtV::Assign(lv, _, e) => x_mentions(e, ii) || (match lv {
            LValueV::Index(_, i, _) => x_mentions(i, ii),
            _ => false,
        }),
        _ => true,
    }
}

/// Untiling. A lower bound is a property of the computation, not of the loop order, and IOLB does
/// not see through a tiled nest. A tile-outer loop `for ii in 0..n/T` whose variable appears only
/// in the bounds of one inner loop `for i in ii·T..ii·T+T` is dropped, and the inner loop runs
/// over the whole range — the same iterations, in one loop, when `T` divides.
pub struct UntiledV {
    /// the tile-outer loops dropped
    pub outer: Seq<TilesV>,
    /// the loops over a tile, with the loop over tiles
    pub inner: Known<usize>,
}

pub open spec fn place_tiles(s: Seq<TilesV>, x: TilesV) -> Seq<TilesV>
    decreases s.len(),
{
    if s.len() == 0 {
        seq![x]
    } else if s[0].var == x.var {
        seq![x] + s.drop_first()
    } else {
        seq![s[0]] + place_tiles(s.drop_first(), x)
    }
}

pub open spec fn untiled(st: ScopV, b: BlockV, cands: Seq<TilesV>, n: nat) -> UntiledV
    decreases n,
{
    if n == 0 {
        UntiledV { outer: Seq::empty(), inner: nothing() }
    } else {
        let before = untiled(st, b, cands, (n - 1) as nat);
        let x = cands[n - 1];
        let inners = inner_loops(st, b.stmts, x.var, x.side);
        if inners.len() == 1 && !used_elsewhere(st, b, x.var, x.side) {
            UntiledV { outer: place_tiles(before.outer, x), inner: known(before.inner, inners[0], x.var) }
        } else {
            before
        }
    }
}

/// What the loop over tiles is of, if it was dropped.
pub open spec fn tiled_range(s: Seq<TilesV>, ii: usize) -> Option<ExprV>
    decreases s.len(),
{
    if s.len() == 0 {
        None
    } else if s[0].var == ii {
        Some(s[0].of)
    } else {
        tiled_range(s.drop_first(), ii)
    }
}

// ---- emission ----

pub open spec fn spaces(n: nat) -> Seq<char>
    decreases n,
{
    if n == 0 {
        Seq::empty()
    } else {
        spaces((n - 1) as nat) + "  "@
    }
}

pub open spec fn code_line(indent: nat, s: Seq<char>) -> Seq<char> {
    spaces(indent) + s + "\n"@
}

pub type Code = Result<Seq<char>, Seq<char>>;

pub open spec fn both(a: Code, b: Code) -> Code {
    match (a, b) {
        (Ok(x), Ok(y)) => Ok(x + y),
        (Err(e), _) => Err(e),
        (_, Err(e)) => Err(e),
    }
}

pub open spec fn evaluated(f: FuncV, st: ScopV, indent: nat, e: ExprV) -> Seq<char> {
    code_line(indent, "(void)("@ + x_text(f, st, e) + ");"@)
}

/// A tail that only reads a local is the return value, not a statement.
pub open spec fn tail_code(f: FuncV, st: ScopV, indent: nat, t: Option<Box<ExprV>>) -> Seq<char> {
    match t {
        Some(e) => if e.kind is Local || e.kind is Int || e.kind is Float {
            Seq::empty()
        } else {
            evaluated(f, st, indent, *e)
        },
        None => Seq::empty(),
    }
}

pub open spec fn block_code(f: FuncV, st: ScopV, u: UntiledV, indent: nat, b: BlockV) -> Code
    decreases b,
{
    both(stmts_code(f, st, u, indent, b.stmts), Ok(tail_code(f, st, indent, b.tail)))
}

pub open spec fn stmts_code(f: FuncV, st: ScopV, u: UntiledV, indent: nat, s: Seq<StmtV>) -> Code
    decreases s,
{
    if s.len() == 0 {
        Ok(Seq::empty())
    } else {
        both(stmts_code(f, st, u, indent, s.drop_last()), stmt_code(f, st, u, indent, s.last()))
    }
}

pub open spec fn target_text(f: FuncV, st: ScopV, lv: LValueV) -> Seq<char> {
    match lv {
        LValueV::Var(l) => own_name(f, l),
        LValueV::Index(a, i, _) => index_text(f, st, |e: ExprV| x_text(f, st, e), a, i),
        _ => Seq::empty(),
    }
}

pub open spec fn op_text(op: Option<BinOp>) -> Seq<char> {
    match op {
        Some(o) => o.c_text(),
        None => Seq::empty(),
    }
}

/// The bounds of a loop: those written, or the whole range of a loop over a tile.
pub open spec fn loop_bounds(f: FuncV, st: ScopV, u: UntiledV, var: usize, start: ExprV, end: ExprV) -> (Seq<char>, Seq<char>) {
    let range = match (u.inner)(var) {
        Some(ii) => tiled_range(u.outer, ii),
        None => None,
    };
    match range {
        Some(n) => ("0"@, x_text(f, st, n)),
        None => (x_text(f, st, start), x_text(f, st, end)),
    }
}

pub open spec fn loop_head(name: Seq<char>, b: (Seq<char>, Seq<char>)) -> Seq<char> {
    "for (long "@ + name + " = "@ + b.0 + "; "@ + name + " < "@ + b.1 + "; "@ + name + "++) {"@
}

pub open spec fn stmt_code(f: FuncV, st: ScopV, u: UntiledV, indent: nat, s: StmtV) -> Code
    decreases s,
{
    match s {
        StmtV::Let(id, e) => if (st.consts)(id) is Some {
            Ok(Seq::empty())
        } else {
            Ok(code_line(indent, own_name(f, id) + " = "@ + x_text(f, st, e) + ";"@))
        },
        StmtV::Assign(lv, op, e) => Ok(
            code_line(indent, target_text(f, st, lv) + " "@ + op_text(op) + "= "@ + x_text(f, st, e) + ";"@),
        ),
        StmtV::For { var, start, end, body } => {
            let inside = ScopV { loop_vars: st.loop_vars.push(var), ..st };
            if tiled_range(u.outer, var) is Some {
                // the tile-outer loop: its body runs once, the inner loop covers the range
                block_code(f, inside, u, indent, body)
            } else {
                let head = loop_head(own_name(f, var), loop_bounds(f, st, u, var, start, end));
                both(
                    both(Ok(code_line(indent, head)), block_code(f, inside, u, indent + 1, body)),
                    Ok(code_line(indent, "}"@)),
                )
            }
        },
        StmtV::Expr(e) => Ok(evaluated(f, st, indent, e)),
        StmtV::Return(_) => Err("`return` inside a SCoP"@),
        _ => Err("statement not exportable"@),
    }
}

// ---- the whole ----

pub struct ParamsV {
    pub scalars: Seq<Seq<char>>,
    pub sizes: Seq<Seq<char>>,
    pub arrays: Seq<Seq<char>>,
}

/// The declarations of the first `n` parameters: scalars, then the sizes the export introduces,
/// then the arrays (VLA parameters may only mention what precedes them).
pub open spec fn params_text(f: FuncV, st: ScopV, n: nat) -> ParamsV
    decreases n,
{
    if n == 0 {
        ParamsV { scalars: Seq::empty(), sizes: Seq::empty(), arrays: Seq::empty() }
    } else {
        let before = params_text(f, st, (n - 1) as nat);
        let l = local_of(f, f.params[n - 1]);
        match l.ty {
            Ty::Slice(elem, _, _) => {
                let head = c_type(*elem) + " "@ + l.name;
                match (st.dims)(f.params[n - 1]) {
                    Some(Some(row)) => ParamsV {
                        sizes: before.sizes.push("long "@ + l.name + "_rows"@),
                        arrays: before.arrays.push(head + "["@ + l.name + "_rows]["@ + row + "]"@),
                        ..before
                    },
                    _ => ParamsV {
                        sizes: before.sizes.push("long "@ + l.name + "_n"@),
                        arrays: before.arrays.push(head + "["@ + l.name + "_n]"@),
                        ..before
                    },
                }
            },
            t => ParamsV { scalars: before.scalars.push(c_type(t) + " "@ + l.name), ..before },
        }
    }
}

/// The first `n` locals declared: not loop variables, which the `for` declares.
pub open spec fn locals_text(f: FuncV, st: ScopV, n: nat) -> Seq<char>
    decreases n,
{
    if n == 0 {
        Seq::empty()
    } else {
        let before = locals_text(f, st, (n - 1) as nat);
        let i = (n - 1) as usize;
        let ty = f.locals[n - 1].ty;
        if f.params.contains(i) || st.loop_ids.contains(i) || (st.consts)(i) is Some || ty.arrayish() || ty is Unit {
            before
        } else {
            before + ("  "@ + c_type(ty) + " "@ + own_name(f, i) + ";\n"@)
        }
    }
}

pub open spec fn paren(c: char) -> bool {
    c == '(' || c == ')'
}

pub open spec fn bare(s: Seq<char>) -> Seq<char>
    decreases s.len(),
{
    if s.len() > 0 && paren(s[0]) {
        bare(s.drop_first())
    } else if s.len() > 0 && paren(s.last()) {
        bare(s.drop_last())
    } else {
        s
    }
}

/// The text put in its place among texts in order, once.
pub open spec fn text_place(s: Seq<Seq<char>>, x: Seq<char>) -> Seq<Seq<char>>
    decreases s.len(),
{
    if s.len() == 0 {
        seq![x]
    } else {
        match text_side(x, s.last()) {
            Side::Same => s,
            Side::After => s.push(x),
            Side::Before => text_place(s.drop_last(), x).push(s.last()),
        }
    }
}

/// What untiling takes for granted: that each of the first `n` sides divides.
pub open spec fn assumed(f: FuncV, st: ScopV, s: Seq<TilesV>, n: nat) -> Seq<Seq<char>>
    decreases n,
{
    if n == 0 {
        Seq::empty()
    } else {
        text_place(assumed(f, st, s, (n - 1) as nat), s[n - 1].side + " | "@ + bare(x_text(f, st, s[n - 1].of)))
    }
}

pub open spec fn fresh_scop() -> ScopV {
    ScopV { dims: nothing(), loop_vars: Seq::empty(), loop_ids: Seq::empty(), consts: nothing() }
}

pub type Exported = Result<(Seq<char>, Seq<Seq<char>>), Seq<char>>;

/// The exported C, and the assumptions under which it is the same computation as `f`: untiling
/// runs the inner loop over `0..n` rather than `0..T·(n/T)`, so the bound holds when `T | n`.
pub open spec fn s_export(m: ModuleV, f: FuncV) -> Exported {
    match f.body {
        None => Err("an extern has no body to export"@),
        Some(b) => match scan_block(m, f, fresh_scop(), b) {
            Err(e) => Err(e),
            Ok(st) => {
                let cands = tile_loops(st, b.stmts);
                let u = untiled(st, b, cands, cands.len());
                let p = params_text(f, st, f.params.len());
                match block_code(f, st, u, 1, b) {
                    Err(e) => Err(e),
                    Ok(code) => Ok(
                        (
                            "// exported by neant for IOLB: "@ + f.name + "\nvoid nt_"@ + f.name + "("@ + join(
                                p.scalars + p.sizes + p.arrays,
                                ", "@,
                            ) + ")\n{\n"@ + locals_text(f, st, f.locals.len()) + "#pragma scop\n"@ + code
                                + "#pragma endscop\n}\n"@,
                            assumed(f, st, u.outer, u.outer.len()),
                        ),
                    ),
                }
            },
        },
    }
}

// ---- the computation ----

/// The row length of an array, where it has two dimensions.
#[derive(Debug)]
pub struct Row {
    pub text: Option<String>,
}

impl View for Row {
    type V = Option<Seq<char>>;

    open spec fn view(&self) -> Option<Seq<char>> {
        match self.text {
            Some(s) => Some(s@),
            None => None,
        }
    }
}

/// A loop over tiles: its variable, the side, and what is tiled.
struct Tiles<'a> {
    var: usize,
    side: String,
    of: &'a Expr,
}

impl<'a> Tiles<'a> {
    spec fn v(self) -> TilesV {
        TilesV { var: self.var, side: self.side@, of: self.of@ }
    }

    fn copy(&self) -> (r: Tiles<'a>)
        ensures
            r.v() == self.v(),
    {
        Tiles { var: self.var, side: copy_text(&self.side), of: self.of }
    }
}

spec fn tiles_v<'a>(s: Seq<Tiles<'a>>) -> Seq<TilesV> {
    Seq::new(s.len(), |i: int| s[i].v())
}

struct Ex<'a> {
    m: &'a Module,
    f: &'a Func,
    dims: Table<Row>,
    loop_vars: Vec<usize>,
    loop_ids: Vec<usize>,
    consts: Table<String>,
}

fn clean_name(s: &String) -> (r: String)
    ensures
        r@ == c_name(s@),
{
    let c = chars_of(s);
    let mut out: Vec<char> = Vec::new();
    let mut i: usize = 0;
    while i < c.len()
        invariant
            i <= c@.len(),
            out@.len() == i,
            forall|j: int| 0 <= j < i ==> #[trigger] out@[j] == (if c@[j] == '#' { '_' } else { c@[j] }),
        decreases c@.len() - i,
    {
        if c[i] == '#' {
            out.push('_');
        } else {
            out.push(c[i]);
        }
        i += 1;
    }
    assert(out@ =~= c_name(s@));
    text_of(&out)
}

fn loop_read(vars: &Vec<usize>, e: &Expr) -> (r: bool)
    ensures
        r == reads_loop(vars@, e@),
    decreases expr_size(e@),
{
    proof {
        expr_parts(*e);
        expr_shrinks(e@);
    }
    match &e.kind {
        ExprKind::Local(l) => has_id(vars, *l),
        ExprKind::Binary(_, a, b) => loop_read(vars, a) || loop_read(vars, b),
        ExprKind::MinMax(_, a, b) => loop_read(vars, a) || loop_read(vars, b),
        ExprKind::Unary(_, a) => loop_read(vars, a),
        ExprKind::Cast(a, _) => loop_read(vars, a),
        _ => false,
    }
}

fn is_row_var(vars: &Vec<usize>, v: &Expr, row: &Expr) -> (r: bool)
    ensures
        r == (match v@.kind {
            KindV::Local(l) => vars@.contains(l) && !reads_loop(vars@, row@),
            _ => false,
        }),
{
    proof {
        expr_parts(*v);
    }
    match &v.kind {
        ExprKind::Local(l) => has_id(vars, *l) && !loop_read(vars, row),
        _ => false,
    }
}

fn row_of<'e>(vars: &Vec<usize>, e: &'e Expr) -> (r: Option<(&'e Expr, &'e Expr)>)
    ensures
        (match r {
            Some(x) => Some((x.0@, x.1@)),
            None => None,
        }) == row_product(vars@, e@),
        r is Some ==> expr_size((r->0).0@) < expr_size(e@) && expr_size((r->0).1@) < expr_size(e@),
{
    proof {
        expr_parts(*e);
        expr_shrinks(e@);
    }
    match &e.kind {
        ExprKind::Binary(op, x, y) => {
            if !matches!(op, BinOp::Mul) {
                None
            } else if is_row_var(vars, x, y) {
                Some((&**x, &**y))
            } else if is_row_var(vars, y, x) {
                Some((&**y, &**x))
            } else {
                None
            }
        },
        _ => None,
    }
}

fn split_of<'e>(vars: &Vec<usize>, idx: &'e Expr) -> (r: Option<(&'e Expr, &'e Expr, &'e Expr)>)
    ensures
        (match r {
            Some(x) => Some((x.0@, x.1@, x.2@)),
            None => None,
        }) == split_2d(vars@, idx@),
        r is Some ==> expr_size((r->0).0@) < expr_size(idx@) && expr_size((r->0).1@) < expr_size(idx@) && expr_size(
            (r->0).2@,
        ) < expr_size(idx@),
{
    proof {
        expr_parts(*idx);
        expr_shrinks(idx@);
    }
    match &idx.kind {
        ExprKind::Binary(op, a, b) => {
            if !matches!(op, BinOp::Add) {
                return None;
            }
            match row_of(vars, a) {
                Some((v, row)) => Some((row, v, &**b)),
                None => match row_of(vars, b) {
                    Some((v, row)) => Some((row, v, &**a)),
                    None => None,
                },
            }
        },
        _ => None,
    }
}

impl<'a> Ex<'a> {
    spec fn v(self) -> ScopV {
        ScopV {
            dims: self.dims@,
            loop_vars: self.loop_vars@,
            loop_ids: self.loop_ids@,
            consts: self.consts@,
        }
    }

    fn name_of(&self, l: usize) -> (r: String)
        ensures
            r@ == local_of(self.f@, l).name,
    {
        if l < self.f.locals.len() {
            assert(self.f@.locals[l as int] == self.f.locals@[l as int]@);
            copy_text(&self.f.locals[l].name)
        } else {
            "".to_owned()
        }
    }

    fn name(&self, l: usize) -> (r: String)
        ensures
            r@ == own_name(self.f@, l),
    {
        cat3(&clean_name(&self.name_of(l)), "_", &show_u64(l as u64))
    }

    // ---- expressions ----

    fn sub(&self, e: &Expr, Ghost(n): Ghost<nat>) -> (r: String)
        requires
            expr_size(e@) < n,
        ensures
            r@ == (text_knot(self.f@, self.v(), n))(e@),
            r@ == x_text(self.f@, self.v(), e@),
        decreases n, 0int,
    {
        let r = self.expr(e);
        proof {
            knot_text(self.f@, self.v(), n, e@);
        }
        r
    }

    fn tail(&self, t: &Option<Box<Expr>>, Ghost(n): Ghost<nat>) -> (r: String)
        requires
            *t is Some ==> expr_size((*((*t)->0))@) < n,
        ensures
            r@ == tail_text(text_knot(self.f@, self.v(), n), crate::ir::tail_v(*t)),
        decreases n, 1int,
    {
        match t {
            Some(x) => self.sub(x, Ghost(n)),
            None => "0".to_owned(),
        }
    }

    /// An access; `n` is more than the size of the index.
    fn index(&self, arr: usize, idx: &Expr, Ghost(n): Ghost<nat>) -> (r: String)
        requires
            expr_size(idx@) < n,
        ensures
            r@ == index_text(self.f@, self.v(), text_knot(self.f@, self.v(), n), arr, idx@),
            r@ == index_text(self.f@, self.v(), |e: ExprV| x_text(self.f@, self.v(), e), arr, idx@),
        decreases n, 1int,
    {
        let name = self.name_of(arr);
        let two = match self.dims.get(arr) {
            Some(d) => d.text.is_some(),
            None => false,
        };
        if two {
            match split_of(&self.loop_vars, idx) {
                Some((_, v, rest)) => {
                    let a = self.sub(v, Ghost(n));
                    let b = self.sub(rest, Ghost(n));
                    cat2(&cat5(&name, "[", &a, "][", &b), "]")
                },
                None => cat4(&name, "[0][", &self.sub(idx, Ghost(n)), "]"),
            }
        } else {
            cat4(&name, "[", &self.sub(idx, Ghost(n)), "]")
        }
    }

    fn expr(&self, e: &Expr) -> (r: String)
        ensures
            r@ == x_text(self.f@, self.v(), e@),
        decreases expr_size(e@), 2int,
    {
        let ghost n = expr_size(e@);
        proof {
            reveal(x_text);
            expr_parts(*e);
            expr_shrinks(e@);
        }
        match &e.kind {
            ExprKind::Int(v) => show_i64(*v),
            ExprKind::Float(s) => show_constant(s),
            ExprKind::Bool(v) => {
                if *v {
                    "1".to_owned()
                } else {
                    "0".to_owned()
                }
            },
            ExprKind::Byte(v) => show_u64(*v as u64),
            ExprKind::Local(l) => match self.consts.get(*l) {
                Some(v) => copy_text(v),
                None => {
                    if has_id(&self.f.params, *l) {
                        self.name_of(*l)
                    } else {
                        self.name(*l)
                    }
                },
            },
            ExprKind::Binary(op, a, b) => {
                let x = self.sub(a, Ghost(n));
                let y = self.sub(b, Ghost(n));
                cat7("(", &x, " ", op.c_str(), " ", &y, ")")
            },
            ExprKind::Unary(op, a) => {
                let x = self.sub(a, Ghost(n));
                if matches!(op, UnOp::Neg) {
                    cat3("(-", &x, ")")
                } else {
                    cat3("(!", &x, ")")
                }
            },
            ExprKind::Cast(a, t) => cat5("((", c_ty(t), ")(", &self.sub(a, Ghost(n)), "))"),
            ExprKind::Index(a, i) => self.index(*a, i, Ghost(n)),
            ExprKind::Len(a) => cat2(&self.name_of(*a), "_n"),
            ExprKind::MinMax(min, a, b) => {
                let x = self.sub(a, Ghost(n));
                let y = self.sub(b, Ghost(n));
                let cond = if *min {
                    " < "
                } else {
                    " > "
                };
                cat3(&cat7("(", &x, cond, &y, " ? ", &x, " : "), &y, ")")
            },
            ExprKind::If(c, t, els) => {
                proof {
                    block_lists(*t);
                    block_shrinks(t@);
                }
                let x = self.sub(c, Ghost(n));
                let y = self.tail(&t.tail, Ghost(n));
                let z = match els {
                    Some(b) => {
                        proof {
                            block_lists(*b);
                            block_shrinks(b@);
                        }
                        self.tail(&b.tail, Ghost(n))
                    },
                    None => "0".to_owned(),
                };
                cat7("(", &x, " ? ", &y, " : ", &z, ")")
            },
            ExprKind::Block(b) => {
                proof {
                    block_lists(*b);
                    block_shrinks(b@);
                }
                self.tail(&b.tail, Ghost(n))
            },
            ExprKind::Ref(a, _) => self.name_of(*a),
            _ => "0".to_owned(),
        }
    }
}

/// What a scan gives, where it is known whether it failed.
spec fn is_scan(x: Scan, r: Result<(), String>, st: ScopV) -> bool {
    match r {
        Ok(_) => x == Ok::<ScopV, Seq<char>>(st),
        Err(e) => x == Err::<ScopV, Seq<char>>(e@),
    }
}

fn same_row(a: &Option<String>, b: &Option<String>) -> (r: bool)
    ensures
        r == ((match *a {
            Some(s) => Some(s@),
            None => None,
        }) == (match *b {
            Some(s) => Some(s@),
            None => None,
        })),
{
    match (a, b) {
        (Some(x), Some(y)) => crate::text::same_text(x, y),
        (None, None) => true,
        _ => false,
    }
}

impl<'a> Ex<'a> {
    // ---- shapes ----

    fn note(&mut self, arr: usize, idx: &Expr) -> (r: Result<(), String>)
        ensures
            is_scan(noted(old(self).f@, old(self).v(), arr, idx@), r, final(self).v()),
            final(self).m == old(self).m,
            final(self).f == old(self).f,
    {
        if !has_id(&self.f.params, arr) {
            return Err(
                cat3("`", &self.name_of(arr), "` is not a parameter; only parameter arrays are exported"),
            );
        }
        let shape = match split_of(&self.loop_vars, idx) {
            Some((row, _, _)) => Some(self.expr(row)),
            None => None,
        };
        let before: Option<bool> = match self.dims.get(arr) {
            Some(d) => Some(same_row(&d.text, &shape)),
            None => None,
        };
        match before {
            None => {
                self.dims.put(arr, Row { text: shape });
                Ok(())
            },
            Some(same) => {
                if same {
                    Ok(())
                } else {
                    Err(
                        cat3(
                            "`",
                            &self.name_of(arr),
                            "` is indexed both as one- and two-dimensional; the export cannot choose a shape",
                        ),
                    )
                }
            },
        }
    }

    fn scan_expr(&mut self, e: &Expr) -> (r: Result<(), String>)
        ensures
            is_scan(scan_expr(old(self).m@, old(self).f@, old(self).v(), e@), r, final(self).v()),
            final(self).m == old(self).m,
            final(self).f == old(self).f,
        decreases expr_size(e@), 1int,
    {
        proof {
            expr_parts(*e);
            expr_shrinks(e@);
        }
        match &e.kind {
            ExprKind::Index(a, i) => match self.note(*a, i) {
                Ok(_) => self.scan_expr(i),
                Err(x) => Err(x),
            },
            ExprKind::Binary(_, x, y) => match self.scan_expr(x) {
                Ok(_) => self.scan_expr(y),
                Err(x) => Err(x),
            },
            ExprKind::MinMax(_, x, y) => match self.scan_expr(x) {
                Ok(_) => self.scan_expr(y),
                Err(x) => Err(x),
            },
            ExprKind::Unary(_, x) => self.scan_expr(x),
            ExprKind::Cast(x, _) => self.scan_expr(x),
            ExprKind::Call(fid, _) => {
                let name = if *fid < self.m.funcs.len() {
                    assert(self.m@.funcs[*fid as int] == self.m.funcs@[*fid as int]@);
                    copy_text(&self.m.funcs[*fid].name)
                } else {
                    "".to_owned()
                };
                Err(cat3("a call to `", &name, "` is not part of a SCoP"))
            },
            ExprKind::If(c, t, els) => match self.scan_expr(c) {
                Ok(_) => match self.scan_block(t) {
                    Ok(_) => match els {
                        Some(b) => self.scan_block(b),
                        None => Ok(()),
                    },
                    Err(x) => Err(x),
                },
                Err(x) => Err(x),
            },
            ExprKind::Block(b) => self.scan_block(b),
            ExprKind::Println(_) => Err("`println` is not part of a SCoP".to_owned()),
            ExprKind::Field(_, _) => Err("a struct is not part of a SCoP".to_owned()),
            ExprKind::StructLit(_, _) => Err("a struct is not part of a SCoP".to_owned()),
            _ => Ok(()),
        }
    }

    #[verifier::loop_isolation(false)]
    fn scan_block(&mut self, b: &Block) -> (r: Result<(), String>)
        ensures
            is_scan(scan_block(old(self).m@, old(self).f@, old(self).v(), b@), r, final(self).v()),
            final(self).m == old(self).m,
            final(self).f == old(self).f,
        decreases block_size(b@), 1int,
    {
        let ghost st = self.v();
        let ghost v = b@.stmts;
        let ghost mv = self.m@;
        let ghost fv = self.f@;
        proof {
            block_lists(*b);
            block_shrinks(b@);
            assert(v.take(0) =~= Seq::empty());
        }
        let mut i: usize = 0;
        while i < b.stmts.len()
            invariant
                i <= b.stmts@.len(),
                self.m == old(self).m,
                self.f == old(self).f,
                scan_stmts(mv, fv, st, v.take(i as int)) == Ok::<ScopV, Seq<char>>(self.v()),
            decreases b.stmts@.len() - i,
        {
            proof {
                stmts_shrink(v, i as int);
                assert(v.take(i + 1).drop_last() =~= v.take(i as int));
                assert(v.take(i + 1).last() == b.stmts@[i as int]@);
            }
            match self.scan_stmt(&b.stmts[i]) {
                Ok(_) => {},
                Err(x) => {
                    proof {
                        scan_stops(mv, fv, st, v, i + 1);
                    }
                    return Err(x);
                },
            }
            i += 1;
        }
        assert(v.take(i as int) =~= v);
        match &b.tail {
            Some(t) => self.scan_expr(t),
            None => Ok(()),
        }
    }

    fn scan_let(&mut self, id: usize, e: &Expr)
        ensures
            final(self).v() == with_const(old(self).f@, old(self).v(), id, e@),
            final(self).m == old(self).m,
            final(self).f == old(self).f,
    {
        proof {
            expr_parts(*e);
        }
        let mutable = if id < self.f.locals.len() {
            assert(self.f@.locals[id as int] == self.f.locals@[id as int]@);
            self.f.locals[id].mutable
        } else {
            false
        };
        match &e.kind {
            ExprKind::Int(v) => {
                if !mutable && self.loop_vars.len() == 0 {
                    self.consts.put(id, show_i64(*v));
                }
            },
            _ => {},
        }
    }

    fn scan_stmt(&mut self, s: &Stmt) -> (r: Result<(), String>)
        ensures
            is_scan(scan_stmt(old(self).m@, old(self).f@, old(self).v(), s@), r, final(self).v()),
            final(self).m == old(self).m,
            final(self).f == old(self).f,
        decreases stmt_size(s@), 1int,
    {
        proof {
            stmt_parts(*s);
            stmt_shrinks(s@);
        }
        match s {
            Stmt::Let(id, e) => {
                self.scan_let(*id, e);
                self.scan_expr(e)
            },
            Stmt::Expr(e) => self.scan_expr(e),
            Stmt::Return(e) => match e {
                Some(x) => self.scan_expr(x),
                None => Ok(()),
            },
            Stmt::Assign(lv, _, e) => {
                proof {
                    lvalue_parts(*lv);
                }
                match lv {
                    LValue::Var(_) => self.scan_expr(e),
                    LValue::Index(a, i, _) => match self.note(*a, i) {
                        Ok(_) => match self.scan_expr(i) {
                            Ok(_) => self.scan_expr(e),
                            Err(x) => Err(x),
                        },
                        Err(x) => Err(x),
                    },
                    _ => Err("a struct is not part of a SCoP".to_owned()),
                }
            },
            Stmt::For { var, start, end, body } => match self.scan_expr(start) {
                Ok(_) => match self.scan_expr(end) {
                    Ok(_) => {
                        let outer = crate::ircopy::copy_ids(&self.loop_vars);
                        self.loop_ids.push(*var);
                        self.loop_vars.push(*var);
                        match self.scan_block(body) {
                            Ok(_) => {
                                self.loop_vars = outer;
                                Ok(())
                            },
                            Err(x) => Err(x),
                        }
                    },
                    Err(x) => Err(x),
                },
                Err(x) => Err(x),
            },
            Stmt::While { cond, decreasing, body, line } => Err(
                cat3(
                    "a `while` (line ",
                    &show_u64(*line as u64),
                    ") is not static control; the polyhedral model needs `for` with affine bounds",
                ),
            ),
            Stmt::Break => Err("`break` is not static control".to_owned()),
            _ => Err("an array born inside the function is not part of a SCoP".to_owned()),
        }
    }
}

proof fn scan_stops(m: ModuleV, f: FuncV, st: ScopV, s: Seq<StmtV>, n: int)
    requires
        0 <= n <= s.len(),
        scan_stmts(m, f, st, s.take(n)) is Err,
    ensures
        scan_stmts(m, f, st, s) == scan_stmts(m, f, st, s.take(n)),
    decreases s.len() - n,
{
    if n == s.len() {
        assert(s.take(n) =~= s);
    } else {
        assert(s.take(n + 1).drop_last() =~= s.take(n));
        scan_stops(m, f, st, s, n + 1);
    }
}

proof fn append_three<T>(a: Seq<T>, b: Seq<T>, c: Seq<T>)
    ensures
        (a + b) + c == a + (b + c),
{
    assert((a + b) + c =~= a + (b + c));
}

fn mentions(e: &Expr, v: usize) -> (r: bool)
    ensures
        r == x_mentions(e@, v),
    decreases expr_size(e@), 1int,
{
    proof {
        expr_parts(*e);
        expr_shrinks(e@);
    }
    match &e.kind {
        ExprKind::Local(l) => *l == v,
        ExprKind::Binary(_, a, b) => mentions(a, v) || mentions(b, v),
        ExprKind::MinMax(_, a, b) => mentions(a, v) || mentions(b, v),
        ExprKind::Unary(_, a) => mentions(a, v),
        ExprKind::Cast(a, _) => mentions(a, v),
        ExprKind::Println(a) => mentions(a, v),
        ExprKind::Index(_, i) => mentions(i, v),
        ExprKind::If(c, t, els) => {
            proof {
                block_lists(*t);
                block_shrinks(t@);
            }
            let n = match els {
                Some(b) => {
                    proof {
                        block_lists(*b);
                        block_shrinks(b@);
                    }
                    tail_mentions(&b.tail, v, Ghost(expr_size(e@)))
                },
                None => false,
            };
            mentions(c, v) || tail_mentions(&t.tail, v, Ghost(expr_size(e@))) || n
        },
        ExprKind::Block(b) => {
            proof {
                block_lists(*b);
                block_shrinks(b@);
            }
            tail_mentions(&b.tail, v, Ghost(expr_size(e@)))
        },
        _ => false,
    }
}

fn tail_mentions(t: &Option<Box<Expr>>, v: usize, Ghost(n): Ghost<nat>) -> (r: bool)
    requires
        *t is Some ==> expr_size((*((*t)->0))@) < n,
    ensures
        r == (match crate::ir::tail_v(*t) {
            Some(x) => x_mentions(*x, v),
            None => false,
        }),
    decreases n, 0int,
{
    match t {
        Some(x) => mentions(x, v),
        None => false,
    }
}

fn clamped_end<'e>(end: &'e Expr) -> (r: &'e Expr)
    ensures
        r@ == unclamped(end@),
{
    proof {
        expr_parts(*end);
    }
    match &end.kind {
        ExprKind::MinMax(min, a, _) => {
            if *min {
                a
            } else {
                end
            }
        },
        _ => end,
    }
}

fn is_local(e: &Expr, l: usize) -> (r: bool)
    ensures
        r == (e@.kind == KindV::Local(l)),
{
    proof {
        expr_parts(*e);
    }
    match &e.kind {
        ExprKind::Local(x) => *x == l,
        _ => false,
    }
}

impl<'a> Ex<'a> {
    // ---- untiling ----

    fn literal(&self, e: &Expr) -> (r: Option<String>)
        ensures
            (match r {
                Some(s) => Some(s@),
                None => None,
            }) == literal(self.v(), e@),
    {
        proof {
            expr_parts(*e);
        }
        match &e.kind {
            ExprKind::Int(v) => Some(show_i64(*v)),
            ExprKind::Local(l) => match self.consts.get(*l) {
                Some(s) => Some(copy_text(s)),
                None => None,
            },
            _ => None,
        }
    }

    fn is_literal(&self, e: &Expr, t: &String) -> (r: bool)
        ensures
            r == (literal(self.v(), e@) == Some(t@)),
    {
        match self.literal(e) {
            Some(s) => crate::text::same_text(&s, t),
            None => false,
        }
    }

    fn tiles_at(&self, var: usize, start: &Expr, end: &'a Expr) -> (r: Option<Tiles<'a>>)
        ensures
            (match r {
                Some(t) => Some(t.v()),
                None => None,
            }) == tiles_here(self.v(), var, start@, end@),
    {
        proof {
            expr_parts(*start);
            expr_parts(*end);
        }
        let zero = match &start.kind {
            ExprKind::Int(v) => *v == 0,
            _ => false,
        };
        if !zero {
            return None;
        }
        match &end.kind {
            ExprKind::Binary(op, n, t) => {
                if !matches!(op, BinOp::Div) {
                    return None;
                }
                match self.literal(t) {
                    Some(side) => Some(Tiles { var, side, of: &**n }),
                    None => None,
                }
            },
            _ => None,
        }
    }

    #[verifier::loop_isolation(false)]
    fn outer_loops(&self, s: &'a Vec<Stmt>, out: &mut Vec<Tiles<'a>>)
        ensures
            tiles_v(final(out)@) == tiles_v(old(out)@) + tile_loops(self.v(), views(s@)),
        decreases stmts_size(views(s@)),
    {
        let ghost st = self.v();
        let ghost v = views(s@);
        let ghost start_v = tiles_v(out@);
        proof {
            assert(v.take(0) =~= Seq::empty());
            assert(start_v + Seq::<TilesV>::empty() =~= start_v);
        }
        let mut i: usize = 0;
        while i < s.len()
            invariant
                i <= s@.len(),
                tiles_v(out@) == start_v + tile_loops(st, v.take(i as int)),
            decreases s@.len() - i,
        {
            let ghost so_far = tile_loops(st, v.take(i as int));
            let x = &s[i];
            proof {
                stmts_shrink(v, i as int);
                assert(v.take(i + 1).drop_last() =~= v.take(i as int));
                assert(v.take(i + 1).last() == x@);
                stmt_parts(*x);
                stmt_shrinks(x@);
            }
            match x {
                Stmt::For { var, start, end, body } => {
                    proof {
                        block_lists(*body);
                        block_shrinks(body@);
                    }
                    let ghost mid = tiles_v(out@);
                    match self.tiles_at(*var, start, end) {
                        Some(t) => {
                            assert(tiles_v(out@.push(t)) =~= mid + seq![t.v()]);
                            out.push(t);
                        },
                        None => {
                            assert(mid + Seq::<TilesV>::empty() =~= mid);
                        },
                    }
                    let ghost here: Seq<TilesV> = match tiles_here(st, *var, start@, end@) {
                        Some(t) => seq![t],
                        None => Seq::empty(),
                    };
                    self.outer_loops(&body.stmts, out);
                    proof {
                        append_three(mid, here, tile_loops(st, body@.stmts));
                        append_three(start_v, so_far, here + tile_loops(st, body@.stmts));
                    }
                },
                _ => {
                    assert(so_far + Seq::<TilesV>::empty() =~= so_far);
                },
            }
            assert(tiles_v(out@) == start_v + (so_far + tile_loops_in(st, x@)));
            i += 1;
        }
        assert(v.take(i as int) =~= v);
    }

    fn tile_start(&self, e: &Expr, ii: usize, t: &String) -> (r: bool)
        ensures
            r == is_tile_start(self.v(), e@, ii, t@),
    {
        proof {
            expr_parts(*e);
        }
        match &e.kind {
            ExprKind::Binary(op, a, b) => matches!(op, BinOp::Mul) && ((is_local(a, ii) && self.is_literal(b, t)) || (
            is_local(b, ii) && self.is_literal(a, t))),
            _ => false,
        }
    }

    fn tile_loop(&self, start: &Expr, end: &Expr, ii: usize, t: &String) -> (r: bool)
        ensures
            r == is_tile_loop(self.v(), start@, end@, ii, t@),
    {
        let e = clamped_end(end);
        proof {
            expr_parts(*e);
        }
        let ends = match &e.kind {
            ExprKind::Binary(op, a, b) => matches!(op, BinOp::Add) && self.tile_start(a, ii, t) && self.is_literal(b, t),
            _ => false,
        };
        self.tile_start(start, ii, t) && ends
    }

    #[verifier::loop_isolation(false)]
    fn tile_inner_loops(&self, s: &Vec<Stmt>, ii: usize, t: &String, out: &mut Vec<usize>)
        ensures
            final(out)@ == old(out)@ + inner_loops(self.v(), views(s@), ii, t@),
        decreases stmts_size(views(s@)),
    {
        let ghost st = self.v();
        let ghost v = views(s@);
        let ghost start_v = out@;
        proof {
            assert(v.take(0) =~= Seq::empty());
            assert(start_v + Seq::<usize>::empty() =~= start_v);
        }
        let mut i: usize = 0;
        while i < s.len()
            invariant
                i <= s@.len(),
                out@ == start_v + inner_loops(st, v.take(i as int), ii, t@),
            decreases s@.len() - i,
        {
            let ghost so_far = inner_loops(st, v.take(i as int), ii, t@);
            let x = &s[i];
            proof {
                stmts_shrink(v, i as int);
                assert(v.take(i + 1).drop_last() =~= v.take(i as int));
                assert(v.take(i + 1).last() == x@);
                stmt_parts(*x);
                stmt_shrinks(x@);
            }
            match x {
                Stmt::For { var, start, end, body } => {
                    proof {
                        block_lists(*body);
                        block_shrinks(body@);
                    }
                    let ghost mid = out@;
                    let ghost here: Seq<usize> = if is_tile_loop(st, start@, end@, ii, t@) {
                        seq![*var]
                    } else {
                        Seq::empty()
                    };
                    if self.tile_loop(start, end, ii, t) {
                        assert(mid.push(*var) =~= mid + here);
                        out.push(*var);
                    } else {
                        assert(mid + here =~= mid);
                    }
                    self.tile_inner_loops(&body.stmts, ii, t, out);
                    proof {
                        append_three(mid, here, inner_loops(st, body@.stmts, ii, t@));
                        append_three(start_v, so_far, here + inner_loops(st, body@.stmts, ii, t@));
                    }
                },
                _ => {
                    assert(so_far + Seq::<usize>::empty() =~= so_far);
                },
            }
            assert(out@ == start_v + (so_far + inner_loops_in(st, x@, ii, t@)));
            i += 1;
        }
        assert(v.take(i as int) =~= v);
    }

    #[verifier::loop_isolation(false)]
    fn other_uses(&self, b: &Block, ii: usize, t: &String) -> (r: bool)
        ensures
            r == used_elsewhere(self.v(), b@, ii, t@),
        decreases block_size(b@),
    {
        let ghost st = self.v();
        let ghost v = b@.stmts;
        proof {
            block_lists(*b);
            block_shrinks(b@);
            assert(v.take(0) =~= Seq::empty());
        }
        let mut found = false;
        let mut i: usize = 0;
        while i < b.stmts.len()
            invariant
                i <= b.stmts@.len(),
                found == used_in_stmts(st, v.take(i as int), ii, t@),
            decreases b.stmts@.len() - i,
        {
            let x = &b.stmts[i];
            proof {
                stmts_shrink(v, i as int);
                assert(v.take(i + 1).drop_last() =~= v.take(i as int));
                assert(v.take(i + 1).last() == x@);
                stmt_parts(*x);
                stmt_shrinks(x@);
            }
            let here = match x {
                Stmt::For { var, start, end, body } => {
                    let loops = self.tile_loop(start, end, ii, t);
                    let inside = self.other_uses(body, ii, t);
                    (!loops && (mentions(start, ii) || mentions(clamped_end(end), ii))) || inside
                },
                Stmt::Let(_, e) => mentions(e, ii),
                Stmt::Expr(e) => mentions(e, ii),
                Stmt::Assign(lv, _, e) => {
                    proof {
                        lvalue_parts(*lv);
                    }
                    let target = match lv {
                        LValue::Index(_, k, _) => mentions(k, ii),
                        _ => false,
                    };
                    mentions(e, ii) || target
                },
                _ => true,
            };
            assert(here == used_in_stmt(st, x@, ii, t@));
            found = found || here;
            i += 1;
        }
        assert(v.take(i as int) =~= v);
        let tail = match &b.tail {
            Some(x) => mentions(x, ii),
            None => false,
        };
        found || tail
    }
}

/// The loops dropped, and the loops over a tile.
struct Untiled<'a> {
    outer: Vec<Tiles<'a>>,
    inner: Table<usize>,
}

impl<'a> Untiled<'a> {
    spec fn v(self) -> UntiledV {
        UntiledV { outer: tiles_v(self.outer@), inner: self.inner@ }
    }

    #[verifier::loop_isolation(false)]
    fn range(&self, ii: usize) -> (r: Option<&'a Expr>)
        ensures
            (match r {
                Some(e) => Some(e@),
                None => None,
            }) == tiled_range(self.v().outer, ii),
    {
        let ghost v = tiles_v(self.outer@);
        let mut i: usize = 0;
        assert(v.skip(0) =~= v);
        while i < self.outer.len()
            invariant
                i <= self.outer@.len(),
                tiled_range(v, ii) == tiled_range(v.skip(i as int), ii),
            decreases self.outer@.len() - i,
        {
            proof {
                assert(v.skip(i as int)[0] == self.outer@[i as int].v());
                assert(v.skip(i as int).drop_first() =~= v.skip(i + 1));
            }
            if self.outer[i].var == ii {
                return Some(self.outer[i].of);
            }
            i += 1;
        }
        None
    }
}

proof fn place_skips(v: Seq<TilesV>, x: TilesV, i: int)
    requires
        0 <= i <= v.len(),
        forall|j: int| 0 <= j < i ==> (#[trigger] v[j]).var != x.var,
    ensures
        place_tiles(v, x) == v.take(i) + place_tiles(v.skip(i), x),
    decreases i,
{
    if i == 0 {
        assert(v.skip(0) =~= v);
        assert(v.take(0) + place_tiles(v, x) =~= place_tiles(v, x));
    } else {
        let w = v.drop_first();
        assert forall|j: int| 0 <= j < i - 1 implies (#[trigger] w[j]).var != x.var by {
            assert(w[j] == v[j + 1]);
        }
        place_skips(w, x, i - 1);
        assert(w.skip(i - 1) =~= v.skip(i));
        assert(seq![v[0]] + (w.take(i - 1) + place_tiles(v.skip(i), x)) =~= v.take(i) + place_tiles(v.skip(i), x));
    }
}

fn put_tiles<'a>(s: &mut Vec<Tiles<'a>>, x: Tiles<'a>)
    ensures
        tiles_v(final(s)@) == place_tiles(tiles_v(old(s)@), x.v()),
{
    let ghost v = tiles_v(s@);
    let ghost xv = x.v();
    let mut i: usize = 0;
    while i < s.len() && s[i].var != x.var
        invariant
            i <= s@.len(),
            s@ == old(s)@,
            v == tiles_v(s@),
            xv == x.v(),
            forall|j: int| 0 <= j < i ==> (#[trigger] v[j]).var != xv.var,
        decreases s@.len() - i,
    {
        assert(v[i as int] == s@[i as int].v());
        i += 1;
    }
    proof {
        place_skips(v, xv, i as int);
    }
    let ghost rest = v.skip(i as int);
    if i < s.len() {
        assert(rest[0] == s@[i as int].v());
        s.set(i, x);
        assert(tiles_v(s@) =~= v.take(i as int) + (seq![xv] + rest.drop_first()));
    } else {
        assert(tiles_v(s@.push(x)) =~= v.take(i as int) + seq![xv]);
        s.push(x);
    }
}

impl<'a> Ex<'a> {
    #[verifier::loop_isolation(false)]
    fn find_tiles(&self, b: &'a Block) -> (r: Untiled<'a>)
        ensures
            ({
                let cands = tile_loops(self.v(), b@.stmts);
                r.v() == untiled(self.v(), b@, cands, cands.len())
            }),
    {
        let ghost st = self.v();
        proof {
            block_lists(*b);
        }
        let mut cands: Vec<Tiles<'a>> = Vec::new();
        assert(tiles_v(cands@) =~= Seq::empty());
        self.outer_loops(&b.stmts, &mut cands);
        let ghost cv = tile_loops(st, b@.stmts);
        assert(tiles_v(cands@) =~= cv);
        let outer: Vec<Tiles<'a>> = Vec::new();
        assert(tiles_v(outer@) =~= Seq::empty());
        let mut u = Untiled { outer, inner: Table::new() };
        let mut n: usize = 0;
        while n < cands.len()
            invariant
                n <= cands@.len(),
                u.v() == untiled(st, b@, cv, n as nat),
            decreases cands@.len() - n,
        {
            let x = &cands[n];
            assert(cv[n as int] == x.v());
            let mut inners: Vec<usize> = Vec::new();
            self.tile_inner_loops(&b.stmts, x.var, &x.side, &mut inners);
            assert(inners@ =~= inner_loops(st, b@.stmts, x.var, x.side@));
            let used = self.other_uses(b, x.var, &x.side);
            if inners.len() == 1 && !used {
                put_tiles(&mut u.outer, x.copy());
                u.inner.put(inners[0], x.var);
            }
            n += 1;
        }
        u
    }
}

spec fn code_of(r: Result<String, String>) -> Code {
    match r {
        Ok(s) => Ok(s@),
        Err(e) => Err(e@),
    }
}

fn indented(pad: &String, s: &str, Ghost(indent): Ghost<nat>) -> (r: String)
    requires
        pad@ == spaces(indent),
    ensures
        r@ == code_line(indent, s@),
{
    cat3(pad, s, "\n")
}

proof fn nothing_added(a: Seq<char>)
    ensures
        a + Seq::<char>::empty() == a,
        Seq::<char>::empty() + a == a,
        ""@ == Seq::<char>::empty(),
{
    reveal_strlit("");
    assert(a + Seq::<char>::empty() =~= a);
    assert(Seq::<char>::empty() + a =~= a);
    assert(""@ =~= Seq::<char>::empty());
}

proof fn code_stops(f: FuncV, st: ScopV, u: UntiledV, indent: nat, s: Seq<StmtV>, n: int)
    requires
        0 <= n <= s.len(),
        stmts_code(f, st, u, indent, s.take(n)) is Err,
    ensures
        stmts_code(f, st, u, indent, s) == stmts_code(f, st, u, indent, s.take(n)),
    decreases s.len() - n,
{
    if n == s.len() {
        assert(s.take(n) =~= s);
    } else {
        assert(s.take(n + 1).drop_last() =~= s.take(n));
        code_stops(f, st, u, indent, s, n + 1);
    }
}

impl<'a> Ex<'a> {
    // ---- emission ----

    fn evaluate(&self, pad: &String, e: &Expr, Ghost(indent): Ghost<nat>) -> (r: String)
        requires
            pad@ == spaces(indent),
        ensures
            r@ == evaluated(self.f@, self.v(), indent, e@),
    {
        indented(pad, &cat3("(void)(", &self.expr(e), ");"), Ghost(indent))
    }

    fn tail_line(&self, pad: &String, t: &Option<Box<Expr>>, Ghost(indent): Ghost<nat>) -> (r: String)
        requires
            pad@ == spaces(indent),
        ensures
            r@ == tail_code(self.f@, self.v(), indent, crate::ir::tail_v(*t)),
    {
        proof {
            nothing_added(Seq::empty());
        }
        match t {
            Some(e) => {
                proof {
                    expr_parts(**e);
                }
                if matches!(e.kind, ExprKind::Local(_) | ExprKind::Int(_) | ExprKind::Float(_)) {
                    "".to_owned()
                } else {
                    self.evaluate(pad, e, Ghost(indent))
                }
            },
            None => "".to_owned(),
        }
    }

    #[verifier::loop_isolation(false)]
    fn block(&mut self, u: &Untiled<'a>, pad: &String, b: &Block, Ghost(indent): Ghost<nat>) -> (r: Result<String, String>)
        requires
            pad@ == spaces(indent),
        ensures
            code_of(r) == block_code(old(self).f@, old(self).v(), u.v(), indent, b@),
            final(self).f == old(self).f,
            r is Ok ==> final(self).v() == old(self).v(),
        decreases block_size(b@),
    {
        let ghost st = self.v();
        let ghost fv = self.f@;
        let ghost uv = u.v();
        let ghost v = b@.stmts;
        proof {
            block_lists(*b);
            block_shrinks(b@);
            assert(v.take(0) =~= Seq::empty());
            nothing_added(Seq::empty());
        }
        let mut out = "".to_owned();
        let mut i: usize = 0;
        while i < b.stmts.len()
            invariant
                i <= b.stmts@.len(),
                self.f == old(self).f,
                self.v() == st,
                stmts_code(fv, st, uv, indent, v.take(i as int)) == Ok::<Seq<char>, Seq<char>>(out@),
            decreases b.stmts@.len() - i,
        {
            proof {
                stmts_shrink(v, i as int);
                assert(v.take(i + 1).drop_last() =~= v.take(i as int));
                assert(v.take(i + 1).last() == b.stmts@[i as int]@);
            }
            match self.stmt(u, pad, &b.stmts[i], Ghost(indent)) {
                Ok(t) => {
                    out = cat2(&out, &t);
                },
                Err(e) => {
                    proof {
                        code_stops(fv, st, uv, indent, v, i + 1);
                    }
                    return Err(e);
                },
            }
            i += 1;
        }
        assert(v.take(i as int) =~= v);
        Ok(cat2(&out, &self.tail_line(pad, &b.tail, Ghost(indent))))
    }

    fn target(&self, lv: &LValue) -> (r: String)
        ensures
            r@ == target_text(self.f@, self.v(), lv@),
    {
        proof {
            lvalue_parts(*lv);
            nothing_added(Seq::empty());
        }
        match lv {
            LValue::Var(l) => self.name(*l),
            LValue::Index(a, i, _) => self.index(*a, i, Ghost(expr_size(i@) + 1)),
            _ => "".to_owned(),
        }
    }

    fn bounds(&self, u: &Untiled<'a>, var: usize, start: &Expr, end: &Expr) -> (r: (String, String))
        ensures
            (r.0@, r.1@) == loop_bounds(self.f@, self.v(), u.v(), var, start@, end@),
    {
        let range = match u.inner.get(var) {
            Some(ii) => u.range(*ii),
            None => None,
        };
        match range {
            Some(n) => ("0".to_owned(), self.expr(n)),
            None => (self.expr(start), self.expr(end)),
        }
    }

    fn stmt(&mut self, u: &Untiled<'a>, pad: &String, s: &Stmt, Ghost(indent): Ghost<nat>) -> (r: Result<String, String>)
        requires
            pad@ == spaces(indent),
        ensures
            code_of(r) == stmt_code(old(self).f@, old(self).v(), u.v(), indent, s@),
            final(self).f == old(self).f,
            r is Ok ==> final(self).v() == old(self).v(),
        decreases stmt_size(s@),
    {
        proof {
            stmt_parts(*s);
            stmt_shrinks(s@);
            nothing_added(Seq::empty());
        }
        match s {
            Stmt::Let(id, e) => {
                if self.consts.get(*id).is_some() {
                    Ok("".to_owned())
                } else {
                    Ok(indented(pad, &cat4(&self.name(*id), " = ", &self.expr(e), ";"), Ghost(indent)))
                }
            },
            Stmt::Assign(lv, op, e) => {
                let o = match op {
                    Some(o) => o.c_str(),
                    None => "",
                };
                let text = cat3(&cat4(&self.target(lv), " ", o, "= "), &self.expr(e), ";");
                Ok(indented(pad, &text, Ghost(indent)))
            },
            Stmt::For { var, start, end, body } => {
                let outer = crate::ircopy::copy_ids(&self.loop_vars);
                if u.range(*var).is_some() {
                    self.loop_vars.push(*var);
                    let r = self.block(u, pad, body, Ghost(indent));
                    self.loop_vars = outer;
                    r
                } else {
                    let v = self.name(*var);
                    let (lo, hi) = self.bounds(u, *var, start, end);
                    let head = cat5(&cat7("for (long ", &v, " = ", &lo, "; ", &v, " < "), &hi, "; ", &v, "++) {");
                    let first = indented(pad, &head, Ghost(indent));
                    self.loop_vars.push(*var);
                    let r = self.block(u, &cat2(pad, "  "), body, Ghost(indent + 1));
                    self.loop_vars = outer;
                    match r {
                        Ok(inside) => Ok(cat3(&first, &inside, &indented(pad, "}", Ghost(indent)))),
                        Err(e) => Err(e),
                    }
                }
            },
            Stmt::Expr(e) => Ok(self.evaluate(pad, e, Ghost(indent))),
            Stmt::Return(_) => Err("`return` inside a SCoP".to_owned()),
            _ => Err("statement not exportable".to_owned()),
        }
    }
}

/// The texts trimmed of parentheses at both ends.
#[verifier::loop_isolation(false)]
fn strip(s: &String) -> (r: String)
    ensures
        r@ == bare(s@),
{
    let c = chars_of(s);
    let ghost v = c@;
    let mut i: usize = 0;
    let mut j: usize = c.len();
    assert(v.subrange(0, v.len() as int) =~= v);
    while i < j && (c[i] == '(' || c[i] == ')')
        invariant
            i <= j,
            j == c@.len(),
            bare(v) == bare(v.subrange(i as int, j as int)),
        decreases j - i,
    {
        assert(v.subrange(i as int, j as int).drop_first() =~= v.subrange(i + 1, j as int));
        i += 1;
    }
    while i < j && (c[j - 1] == '(' || c[j - 1] == ')')
        invariant
            i <= j <= c@.len(),
            i < j ==> !paren(v[i as int]),
            bare(v) == bare(v.subrange(i as int, j as int)),
        decreases j - i,
    {
        proof {
            let w = v.subrange(i as int, j as int);
            assert(w[0] == v[i as int]);
            assert(w.last() == v[j - 1]);
            assert(w.drop_last() =~= v.subrange(i as int, j - 1));
        }
        j -= 1;
    }
    proof {
        let w = v.subrange(i as int, j as int);
        if w.len() > 0 {
            assert(w[0] == v[i as int]);
            assert(w.last() == v[j - 1]);
        }
    }
    text_of(&crate::lex::slice_of(&c, i, j))
}

#[verifier::loop_isolation(false)]
pub fn insert_text(s: &mut Vec<String>, x: String)
    ensures
        texts(final(s)@) == text_place(texts(old(s)@), x@),
{
    let ghost all = texts(s@);
    let ghost start = s@;
    let n: usize = s.len();
    let mut i: usize = n;
    proof {
        assert(all.take(n as int) =~= all);
        assert(text_place(all, x@) =~= text_place(all.take(n as int), x@) + all.skip(n as int));
    }
    while i > 0 && side_of_texts(&x, &s[i - 1]) == Side::Before
        invariant
            i <= n,
            s@ == start,
            text_place(all, x@) == text_place(all.take(i as int), x@) + all.skip(i as int),
        decreases i,
    {
        proof {
            assert(all.take(i as int).last() == s@[i - 1]@);
            assert(all.take(i as int).drop_last() =~= all.take(i - 1));
            assert(text_place(all.take(i - 1), x@).push(all[i - 1]) + all.skip(i as int) =~= text_place(all.take(i - 1), x@)
                + all.skip(i - 1));
        }
        i -= 1;
    }
    if i > 0 {
        assert(all.take(i as int).last() == s@[i - 1]@);
        if side_of_texts(&x, &s[i - 1]) == Side::Same {
            assert(all.take(i as int) + all.skip(i as int) =~= all);
            return;
        }
    }
    let ghost xv = x@;
    s.insert(i, x);
    proof {
        if i == 0 {
            assert(all.take(0) =~= Seq::empty());
            assert(texts(s@) =~= seq![xv] + all.skip(0));
        } else {
            assert(texts(s@) =~= all.take(i as int).push(xv) + all.skip(i as int));
        }
    }
}

impl<'a> Ex<'a> {
    #[verifier::loop_isolation(false)]
    fn params(&self) -> (r: Vec<String>)
        ensures
            ({
                let p = params_text(self.f@, self.v(), self.f@.params.len());
                texts(r@) == p.scalars + p.sizes + p.arrays
            }),
    {
        let ghost fv = self.f@;
        let ghost st = self.v();
        let mut scalars: Vec<String> = Vec::new();
        let mut sizes: Vec<String> = Vec::new();
        let mut arrays: Vec<String> = Vec::new();
        let mut n: usize = 0;
        proof {
            assert(texts(scalars@) =~= Seq::empty());
            assert(texts(sizes@) =~= Seq::empty());
            assert(texts(arrays@) =~= Seq::empty());
        }
        while n < self.f.params.len()
            invariant
                n <= self.f.params@.len(),
                texts(scalars@) == params_text(fv, st, n as nat).scalars,
                texts(sizes@) == params_text(fv, st, n as nat).sizes,
                texts(arrays@) == params_text(fv, st, n as nat).arrays,
            decreases self.f.params@.len() - n,
        {
            let p = self.f.params[n];
            let name = self.name_of(p);
            if p < self.f.locals.len() {
                assert(fv.locals[p as int] == self.f.locals@[p as int]@);
                match &self.f.locals[p].ty {
                    Ty::Slice(elem, _, _) => {
                        let head = cat3(c_ty(elem), " ", &name);
                        let row: Option<String> = match self.dims.get(p) {
                            Some(d) => match &d.text {
                                Some(x) => Some(copy_text(x)),
                                None => None,
                            },
                            None => None,
                        };
                        match row {
                            Some(x) => {
                                say(&mut sizes, cat3("long ", &name, "_rows"));
                                say(&mut arrays, cat2(&cat5(&head, "[", &name, "_rows][", &x), "]"));
                            },
                            None => {
                                say(&mut sizes, cat3("long ", &name, "_n"));
                                say(&mut arrays, cat4(&head, "[", &name, "_n]"));
                            },
                        }
                    },
                    t => {
                        say(&mut scalars, cat3(c_ty(t), " ", &name));
                    },
                }
            } else {
                say(&mut scalars, cat3(c_ty(&Ty::Unit), " ", &name));
            }
            n += 1;
        }
        let ghost a = texts(scalars@);
        let ghost b = texts(sizes@);
        let ghost c = texts(arrays@);
        scalars.append(&mut sizes);
        assert(texts(scalars@) =~= a + b);
        scalars.append(&mut arrays);
        assert(texts(scalars@) =~= a + b + c);
        scalars
    }

    #[verifier::loop_isolation(false)]
    fn locals(&self) -> (r: String)
        ensures
            r@ == locals_text(self.f@, self.v(), self.f@.locals.len()),
    {
        let ghost fv = self.f@;
        let ghost st = self.v();
        let mut out = "".to_owned();
        let mut i: usize = 0;
        proof {
            nothing_added(Seq::empty());
        }
        while i < self.f.locals.len()
            invariant
                i <= self.f.locals@.len(),
                out@ == locals_text(fv, st, i as nat),
            decreases self.f.locals@.len() - i,
        {
            let l = &self.f.locals[i];
            assert(fv.locals[i as int] == l@);
            let skip = has_id(&self.f.params, i) || has_id(&self.loop_ids, i) || self.consts.get(i).is_some()
                || l.ty.is_arrayish() || matches!(l.ty, Ty::Unit);
            if !skip {
                out = cat2(&out, &cat5("  ", c_ty(&l.ty), " ", &self.name(i), ";\n"));
            }
            i += 1;
        }
        out
    }

    #[verifier::loop_isolation(false)]
    fn assumptions(&self, u: &Untiled<'a>) -> (r: Vec<String>)
        ensures
            texts(r@) == assumed(self.f@, self.v(), u.v().outer, u.v().outer.len()),
    {
        let ghost v = u.v().outer;
        let mut out: Vec<String> = Vec::new();
        let mut n: usize = 0;
        assert(texts(out@) =~= Seq::empty());
        while n < u.outer.len()
            invariant
                n <= u.outer@.len(),
                texts(out@) == assumed(self.f@, self.v(), v, n as nat),
            decreases u.outer@.len() - n,
        {
            let t = &u.outer[n];
            assert(v[n as int] == t.v());
            insert_text(&mut out, cat3(&t.side, " | ", &strip(&self.expr(t.of))));
            n += 1;
        }
        out
    }
}

/// The exported C, and the assumptions under which it is the same computation as `f`.
pub fn export(m: &Module, f: &Func) -> (r: Result<(String, Vec<String>), String>)
    ensures
        (match r {
            Ok(x) => Ok((x.0@, texts(x.1@))),
            Err(e) => Err(e@),
        }) == s_export(m@, f@),
{
    let body = match &f.body {
        Some(b) => b,
        None => {
            return Err("an extern has no body to export".to_owned());
        },
    };
    let mut ex = Ex {
        m,
        f,
        dims: Table::new(),
        loop_vars: Vec::new(),
        loop_ids: Vec::new(),
        consts: Table::new(),
    };
    proof {
        assert(ex.loop_vars@ =~= Seq::empty());
        assert(ex.loop_ids@ =~= Seq::empty());
        assert(ex.v() == fresh_scop());
    }
    match ex.scan_block(body) {
        Ok(_) => {},
        Err(e) => {
            return Err(e);
        },
    }
    let u = ex.find_tiles(body);
    let params = ex.params();
    let locals = ex.locals();
    let pad = cat2("", "  ");
    proof {
        reveal_with_fuel(spaces, 2);
        nothing_added("  "@);
        assert(pad@ =~= spaces(1));
    }
    let assumptions = ex.assumptions(&u);
    match ex.block(&u, &pad, body, Ghost(1)) {
        Err(e) => Err(e),
        Ok(code) => {
            let head = cat7(
                "// exported by neant for IOLB: ",
                &f.name,
                "\nvoid nt_",
                &f.name,
                "(",
                &join_texts(&params, ", "),
                ")\n{\n",
            );
            let out = cat5(&head, &locals, "#pragma scop\n", &code, "#pragma endscop\n}\n");
            Ok((out, assumptions))
        },
    }
}

} // verus!
