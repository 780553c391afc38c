//! The size of a typed tree: what a recursion over it decreases.

use vstd::prelude::*;
use crate::ir::{BlockV, ExprV, KindV, LValueV, StmtV};

verus! {

pub closed spec fn expr_size(e: ExprV) -> nat
    decreases e,
{
    match e.kind {
        KindV::Binary(_, a, b) => 1 + expr_size(*a) + expr_size(*b),
        KindV::Unary(_, a) => 1 + expr_size(*a),
        KindV::Index(_, a) => 1 + expr_size(*a),
        KindV::Field(a, _) => 1 + expr_size(*a),
        KindV::StructLit(_, a) => 1 + exprs_size(a),
        KindV::Call(_, a) => 1 + exprs_size(a),
        KindV::Println(a) => 1 + expr_size(*a),
        KindV::Cast(a, _) => 1 + expr_size(*a),
        KindV::MinMax(_, a, b) => 1 + expr_size(*a) + expr_size(*b),
        KindV::If(c, a, b) => 1 + expr_size(*c) + block_size(a) + (match b {
            Some(x) => block_size(x),
            None => 0,
        }),
        KindV::Block(b) => 1 + block_size(b),
        _ => 1,
    }
}

pub closed spec fn exprs_size(s: Seq<ExprV>) -> nat
    decreases s,
{
    if s.len() == 0 {
        1
    } else {
        exprs_size(s.drop_last()) + expr_size(s.last())
    }
}

pub closed spec fn block_size(b: BlockV) -> nat
    decreases b,
{
    1 + stmts_size(b.stmts) + (match b.tail {
        Some(e) => expr_size(*e),
        None => 0,
    })
}

pub closed spec fn stmts_size(s: Seq<StmtV>) -> nat
    decreases s,
{
    if s.len() == 0 {
        1
    } else {
        stmts_size(s.drop_last()) + stmt_size(s.last())
    }
}

pub closed spec fn lvalue_size(l: LValueV) -> nat
    decreases l,
{
    match l {
        LValueV::Index(_, e, _) => 1 + expr_size(e),
        LValueV::IndexField(_, e, _, _) => 1 + expr_size(e),
        _ => 1,
    }
}

pub closed spec fn stmt_size(s: StmtV) -> nat
    decreases s,
{
    match s {
        StmtV::Let(_, e) => 1 + expr_size(e),
        StmtV::LetRepeat(_, e, n) => 1 + expr_size(e) + expr_size(n),
        StmtV::LetArray(_, a) => 1 + exprs_size(a),
        StmtV::LetBuild { id, len, var, body } => 1 + expr_size(len) + block_size(body),
        StmtV::Assign(lv, _, e) => 1 + lvalue_size(lv) + expr_size(e),
        StmtV::For { var, start, end, body } => 1 + expr_size(start) + expr_size(end) + block_size(body),
        StmtV::While { cond, decreasing, body, line } => 1 + expr_size(cond) + block_size(body) + (match decreasing {
            Some(d) => expr_size(d),
            None => 0,
        }),
        StmtV::Break => 1,
        StmtV::Expr(e) => 1 + expr_size(e),
        StmtV::Return(e) => 1 + (match e {
            Some(x) => expr_size(x),
            None => 0,
        }),
    }
}

/// The parts of an expression are smaller than it.
pub proof fn expr_shrinks(e: ExprV)
    ensures
        expr_size(e) >= 1,
        match e.kind {
            KindV::Binary(_, a, b) => expr_size(*a) < expr_size(e) && expr_size(*b) < expr_size(e),
            KindV::Unary(_, a) => expr_size(*a) < expr_size(e),
            KindV::Index(_, a) => expr_size(*a) < expr_size(e),
            KindV::Field(a, _) => expr_size(*a) < expr_size(e),
            KindV::StructLit(_, a) => exprs_size(a) < expr_size(e),
            KindV::Call(_, a) => exprs_size(a) < expr_size(e),
            KindV::Println(a) => expr_size(*a) < expr_size(e),
            KindV::Cast(a, _) => expr_size(*a) < expr_size(e),
            KindV::MinMax(_, a, b) => expr_size(*a) < expr_size(e) && expr_size(*b) < expr_size(e),
            KindV::If(c, a, b) => expr_size(*c) < expr_size(e) && block_size(a) < expr_size(e) && (b is Some
                ==> block_size(b->0) < expr_size(e)),
            KindV::Block(b) => block_size(b) < expr_size(e),
            _ => true,
        },
{
}

/// The items of a list are smaller than it.
pub proof fn exprs_shrink(s: Seq<ExprV>, i: int)
    requires
        0 <= i < s.len(),
    ensures
        expr_size(s[i]) < exprs_size(s),
    decreases s.len(),
{
    if i < s.len() - 1 {
        exprs_shrink(s.drop_last(), i);
    } else {
        exprs_positive(s.drop_last());
    }
}

proof fn exprs_positive(s: Seq<ExprV>)
    ensures
        exprs_size(s) >= 1,
    decreases s.len(),
{
    if s.len() > 0 {
        exprs_positive(s.drop_last());
    }
}

/// The statements of a list are smaller than it.
pub proof fn stmts_shrink(s: Seq<StmtV>, i: int)
    requires
        0 <= i < s.len(),
    ensures
        stmt_size(s[i]) < stmts_size(s),
    decreases s.len(),
{
    if i < s.len() - 1 {
        stmts_shrink(s.drop_last(), i);
    } else {
        stmts_positive(s.drop_last());
    }
}

proof fn stmts_positive(s: Seq<StmtV>)
    ensures
        stmts_size(s) >= 1,
    decreases s.len(),
{
    if s.len() > 0 {
        stmts_positive(s.drop_last());
    }
}

/// The parts of a block are smaller than it.
pub proof fn block_shrinks(b: BlockV)
    ensures
        stmts_size(b.stmts) < block_size(b),
        b.tail is Some ==> expr_size(*(b.tail->0)) < block_size(b),
{
    stmts_positive(b.stmts);
}

/// The parts of a statement are smaller than it.
pub proof fn stmt_shrinks(s: StmtV)
    ensures
        match s {
            StmtV::Let(_, e) => expr_size(e) < stmt_size(s),
            StmtV::LetRepeat(_, e, n) => expr_size(e) < stmt_size(s) && expr_size(n) < stmt_size(s),
            StmtV::LetArray(_, a) => exprs_size(a) < stmt_size(s),
            StmtV::LetBuild { id, len, var, body } => expr_size(len) < stmt_size(s) && block_size(body) < stmt_size(s),
            StmtV::Assign(lv, _, e) => expr_size(e) < stmt_size(s) && match lv {
                LValueV::Index(_, i, _) => expr_size(i) < stmt_size(s),
                LValueV::IndexField(_, i, _, _) => expr_size(i) < stmt_size(s),
                _ => true,
            },
            StmtV::For { var, start, end, body } => expr_size(start) < stmt_size(s) && expr_size(end) < stmt_size(s)
                && block_size(body) < stmt_size(s),
            StmtV::While { cond, decreasing, body, line } => expr_size(cond) < stmt_size(s) && block_size(body)
                < stmt_size(s) && (decreasing is Some ==> expr_size(decreasing->0) < stmt_size(s)),
            StmtV::Expr(e) => expr_size(e) < stmt_size(s),
            StmtV::Return(e) => e is Some ==> expr_size(e->0) < stmt_size(s),
            _ => true,
        },
{
}

} // verus!
