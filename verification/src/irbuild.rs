//! Small typed trees, put together.

use vstd::prelude::*;
use crate::ast::{views, BinOp};
use crate::ir::{
    block_lists, expr_parts, lvalue_parts, stmt_parts, Block, BlockV, Expr, ExprKind, ExprV, KindV, LValue, LValueV,
    Local, LocalV, Stmt, StmtV, Ty,
};

verus! {

pub open spec fn v_expr(kind: KindV, ty: Ty, line: u32) -> ExprV {
    ExprV { kind, ty, line }
}

pub open spec fn v_int(v: i64, line: u32) -> ExprV {
    v_expr(KindV::Int(v), Ty::I64, line)
}

pub open spec fn v_local(l: usize, ty: Ty, line: u32) -> ExprV {
    v_expr(KindV::Local(l), ty, line)
}

/// An operation on `i64`, on the line of its first operand.
pub open spec fn v_bin(op: BinOp, a: ExprV, b: ExprV) -> ExprV {
    v_expr(KindV::Binary(op, Box::new(a), Box::new(b)), Ty::I64, a.line)
}

pub open spec fn v_min(a: ExprV, b: ExprV) -> ExprV {
    v_expr(KindV::MinMax(true, Box::new(a), Box::new(b)), Ty::I64, a.line)
}

pub open spec fn v_index(arr: usize, idx: ExprV, ty: Ty, line: u32) -> ExprV {
    v_expr(KindV::Index(arr, Box::new(idx)), ty, line)
}

pub open spec fn v_cast(e: ExprV, ty: Ty, line: u32) -> ExprV {
    v_expr(KindV::Cast(Box::new(e), ty), ty, line)
}

/// A block of statements without a value.
pub open spec fn v_block(stmts: Seq<StmtV>) -> BlockV {
    BlockV { stmts, tail: None, ty: Ty::Unit }
}

pub open spec fn v_for(var: usize, start: ExprV, end: ExprV, stmts: Seq<StmtV>) -> StmtV {
    StmtV::For { var, start, end, body: v_block(stmts) }
}

pub open spec fn v_store(arr: usize, idx: ExprV, line: u32, e: ExprV) -> StmtV {
    StmtV::Assign(LValueV::Index(arr, idx, line), None, e)
}

pub fn make_expr(kind: ExprKind, ty: Ty, line: u32) -> (r: Expr)
    ensures
        r@ == v_expr(crate::ir::kind_view(kind), ty, line),
{
    Expr { kind, ty, line }
}

pub fn make_int(v: i64, line: u32) -> (r: Expr)
    ensures
        r@ == v_int(v, line),
{
    let r = Expr { kind: ExprKind::Int(v), ty: Ty::I64, line };
    proof {
        expr_parts(r);
    }
    r
}

pub fn make_local(l: usize, ty: Ty, line: u32) -> (r: Expr)
    ensures
        r@ == v_local(l, ty, line),
{
    let r = Expr { kind: ExprKind::Local(l), ty, line };
    proof {
        expr_parts(r);
    }
    r
}

pub fn make_bin(op: BinOp, a: Expr, b: Expr) -> (r: Expr)
    ensures
        r@ == v_bin(op, a@, b@),
{
    proof {
        expr_parts(a);
    }
    let line = a.line;
    let r = Expr { kind: ExprKind::Binary(op, Box::new(a), Box::new(b)), ty: Ty::I64, line };
    proof {
        expr_parts(r);
    }
    r
}

pub fn make_min(a: Expr, b: Expr) -> (r: Expr)
    ensures
        r@ == v_min(a@, b@),
{
    proof {
        expr_parts(a);
    }
    let line = a.line;
    let r = Expr { kind: ExprKind::MinMax(true, Box::new(a), Box::new(b)), ty: Ty::I64, line };
    proof {
        expr_parts(r);
    }
    r
}

pub fn make_index(arr: usize, idx: Expr, ty: Ty, line: u32) -> (r: Expr)
    ensures
        r@ == v_index(arr, idx@, ty, line),
{
    let r = Expr { kind: ExprKind::Index(arr, Box::new(idx)), ty, line };
    proof {
        expr_parts(r);
    }
    r
}

pub fn make_cast(e: Expr, ty: Ty, line: u32) -> (r: Expr)
    ensures
        r@ == v_cast(e@, ty, line),
{
    let to = ty.copy();
    let r = Expr { kind: ExprKind::Cast(Box::new(e), to), ty, line };
    proof {
        expr_parts(r);
    }
    r
}

pub fn make_block(stmts: Vec<Stmt>) -> (r: Block)
    ensures
        r@ == v_block(views(stmts@)),
{
    let r = Block { stmts, tail: None, ty: Ty::Unit };
    proof {
        block_lists(r);
    }
    r
}

pub fn make_for(var: usize, start: Expr, end: Expr, stmts: Vec<Stmt>) -> (r: Stmt)
    ensures
        r@ == v_for(var, start@, end@, views(stmts@)),
{
    let r = Stmt::For { var, start, end, body: make_block(stmts) };
    proof {
        stmt_parts(r);
    }
    r
}

pub fn make_store(arr: usize, idx: Expr, line: u32, e: Expr) -> (r: Stmt)
    ensures
        r@ == v_store(arr, idx@, line, e@),
{
    let lv = LValue::Index(arr, idx, line);
    proof {
        lvalue_parts(lv);
    }
    let r = Stmt::Assign(lv, None, e);
    proof {
        stmt_parts(r);
    }
    r
}

/// A list of one statement.
pub fn alone(s: Stmt) -> (r: Vec<Stmt>)
    ensures
        views(r@) == seq![s@],
{
    let mut r: Vec<Stmt> = Vec::new();
    r.push(s);
    assert(views(r@) =~= seq![s@]);
    r
}

/// A local added; its id is the number of those before it.
pub fn add_local(locals: &mut Vec<Local>, name: &str, ty: Ty, mutable: bool) -> (r: usize)
    ensures
        r == old(locals)@.len(),
        views(final(locals)@) == views(old(locals)@).push(LocalV { name: name@, ty, mutable }),
        final(locals)@.len() == old(locals)@.len() + 1,
{
    let r = locals.len();
    let l = Local { name: name.to_owned(), ty, mutable };
    assert(views(locals@.push(l)) =~= views(locals@).push(l@));
    locals.push(l);
    r
}

} // verus!
