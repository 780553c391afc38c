//! The size of a syntax tree: what the checker's recursion over it decreases.

use vstd::prelude::*;
use crate::ast::{BlockV, ExprV, KindV, StmtV, TypeV};

verus! {

pub closed spec fn expr_size(e: ExprV) -> nat
    decreases e,
{
    match e.kind {
        KindV::Binary(_, a, b) => 1 + expr_size(*a) + expr_size(*b),
        KindV::Unary(_, a) => 1 + expr_size(*a),
        KindV::Index(a, b) => 1 + expr_size(*a) + expr_size(*b),
        KindV::Field(a, _) => 1 + expr_size(*a),
        KindV::StructLit(_, f) => 1 + fields_size(f),
        KindV::Call(_, a) => 1 + exprs_size(a),
        KindV::MethodCall(r, _, a) => 1 + expr_size(*r) + exprs_size(a),
        KindV::Ref(a, _) => 1 + expr_size(*a),
        KindV::Cast(a, t) => 1 + expr_size(*a) + type_size(t),
        KindV::If(c, a, b) => 1 + expr_size(*c) + block_size(a) + (match b {
            Some(x) => block_size(x),
            None => 0,
        }),
        KindV::Block(b) => 1 + block_size(b),
        KindV::ArrayLit(a) => 1 + exprs_size(a),
        KindV::ArrayRepeat(a, b) => 1 + expr_size(*a) + expr_size(*b),
        KindV::Lambda(_, b) => 1 + expr_size(*b),
        KindV::Comprehension { elem, var, source, cond } => 1 + expr_size(*elem) + expr_size(*source) + (match cond {
            Some(c) => expr_size(*c),
            None => 0,
        }),
        _ => 1,
    }
}

pub closed spec fn type_size(t: TypeV) -> nat
    decreases t,
{
    match t {
        TypeV::Owned(e) => 1 + type_size(*e),
        TypeV::Array(e, n) => 1 + type_size(*e) + expr_size(*n),
        TypeV::Slice(e, _) => 1 + type_size(*e),
        _ => 1,
    }
}

/// The parts of a type are smaller than it.
pub proof fn type_shrinks(t: TypeV)
    ensures
        match t {
            TypeV::Owned(e) => type_size(*e) < type_size(t),
            TypeV::Array(e, n) => type_size(*e) < type_size(t) && expr_size(*n) < type_size(t),
            TypeV::Slice(e, _) => type_size(*e) < type_size(t),
            _ => true,
        },
{
}

pub closed spec fn exprs_size(s: Seq<ExprV>) -> nat
    decreases s,
{
    if s.len() == 0 {
        1
    } else {
        exprs_size(s.drop_last()) + expr_size(s.last())
    }
}

pub closed spec fn fields_size(s: Seq<(Seq<char>, ExprV)>) -> nat
    decreases s,
{
    if s.len() == 0 {
        1
    } else {
        fields_size(s.drop_last()) + expr_size(s.last().1)
    }
}

pub closed spec fn block_size(b: BlockV) -> nat
    decreases b,
{
    1 + stmts_size(b.stmts) + (match b.tail {
        Some(e) => expr_size(*e),
        None => 0,
    })
}

pub closed spec fn stmts_size(s: Seq<StmtV>) -> nat
    decreases s,
{
    if s.len() == 0 {
        1
    } else {
        stmts_size(s.drop_last()) + stmt_size(s.last())
    }
}

pub closed spec fn stmt_size(s: StmtV) -> nat
    decreases s,
{
    match s {
        StmtV::Let { name, mutable, ty, init, line, col } => 1 + expr_size(init) + (match ty {
            Some(t) => type_size(t),
            None => 0,
        }),
        StmtV::Assign { target, op, value, line, col } => 1 + expr_size(target) + expr_size(value),
        StmtV::For { var, start, end, body, line, col } => 1 + expr_size(start) + expr_size(end) + block_size(body),
        StmtV::While { cond, decreasing, body, line, col } => 1 + expr_size(cond) + block_size(body) + (
        match decreasing {
            Some(d) => expr_size(d),
            None => 0,
        }),
        StmtV::Break(_, _) => 1,
        StmtV::Expr(e) => 1 + expr_size(e),
        StmtV::Return(e, _, _) => 1 + (match e {
            Some(x) => expr_size(x),
            None => 0,
        }),
    }
}

/// The parts of an expression are smaller than it.
pub proof fn expr_shrinks(e: ExprV)
    ensures
        match e.kind {
            KindV::Binary(_, a, b) => expr_size(*a) < expr_size(e) && expr_size(*b) < expr_size(e),
            KindV::Unary(_, a) => expr_size(*a) < expr_size(e),
            KindV::Index(a, b) => expr_size(*a) < expr_size(e) && expr_size(*b) < expr_size(e),
            KindV::Field(a, _) => expr_size(*a) < expr_size(e),
            KindV::StructLit(_, f) => fields_size(f) < expr_size(e),
            KindV::Call(_, a) => exprs_size(a) < expr_size(e),
            KindV::MethodCall(r, _, a) => expr_size(*r) < expr_size(e) && exprs_size(a) < expr_size(e),
            KindV::Ref(a, _) => expr_size(*a) < expr_size(e),
            KindV::Cast(a, t) => expr_size(*a) < expr_size(e) && type_size(t) < expr_size(e),
            KindV::If(c, a, b) => expr_size(*c) < expr_size(e) && block_size(a) < expr_size(e) && (b is Some
                ==> block_size(b->0) < expr_size(e)),
            KindV::Block(b) => block_size(b) < expr_size(e),
            KindV::ArrayLit(a) => exprs_size(a) < expr_size(e),
            KindV::ArrayRepeat(a, b) => expr_size(*a) < expr_size(e) && expr_size(*b) < expr_size(e),
            KindV::Lambda(_, b) => expr_size(*b) < expr_size(e),
            KindV::Comprehension { elem, var, source, cond } => expr_size(*elem) < expr_size(e) && expr_size(*source)
                < expr_size(e) && (cond is Some ==> expr_size(*(cond->0)) < expr_size(e)),
            _ => true,
        },
{
}

/// The items of a list are no larger than it.
pub proof fn exprs_shrink(s: Seq<ExprV>, i: int)
    requires
        0 <= i < s.len(),
    ensures
        expr_size(s[i]) < exprs_size(s),
    decreases s.len(),
{
    if i < s.len() - 1 {
        exprs_shrink(s.drop_last(), i);
    } else {
        exprs_positive(s.drop_last());
    }
}

proof fn exprs_positive(s: Seq<ExprV>)
    ensures
        exprs_size(s) >= 1,
    decreases s.len(),
{
    if s.len() > 0 {
        exprs_positive(s.drop_last());
    }
}

pub proof fn fields_shrink(s: Seq<(Seq<char>, ExprV)>, i: int)
    requires
        0 <= i < s.len(),
    ensures
        expr_size(s[i].1) < fields_size(s),
    decreases s.len(),
{
    if i < s.len() - 1 {
        fields_shrink(s.drop_last(), i);
    } else {
        fields_positive(s.drop_last());
    }
}

proof fn fields_positive(s: Seq<(Seq<char>, ExprV)>)
    ensures
        fields_size(s) >= 1,
    decreases s.len(),
{
    if s.len() > 0 {
        fields_positive(s.drop_last());
    }
}

pub proof fn stmts_shrink(s: Seq<StmtV>, i: int)
    requires
        0 <= i < s.len(),
    ensures
        stmt_size(s[i]) < stmts_size(s),
    decreases s.len(),
{
    if i < s.len() - 1 {
        stmts_shrink(s.drop_last(), i);
    } else {
        stmts_positive(s.drop_last());
    }
}

proof fn stmts_positive(s: Seq<StmtV>)
    ensures
        stmts_size(s) >= 1,
    decreases s.len(),
{
    if s.len() > 0 {
        stmts_positive(s.drop_last());
    }
}

/// The parts of a block are smaller than it.
pub proof fn block_shrinks(b: BlockV)
    ensures
        stmts_size(b.stmts) < block_size(b),
        b.tail is Some ==> expr_size(*(b.tail->0)) < block_size(b),
{
}

/// The parts of a statement are smaller than it.
pub proof fn stmt_shrinks(s: StmtV)
    ensures
        match s {
            StmtV::Let { name, mutable, ty, init, line, col } => expr_size(init) < stmt_size(s) && (ty is Some
                ==> type_size(ty->0) < stmt_size(s)),
            StmtV::Assign { target, op, value, line, col } => expr_size(target) < stmt_size(s) && expr_size(value)
                < stmt_size(s),
            StmtV::For { var, start, end, body, line, col } => expr_size(start) < stmt_size(s) && expr_size(end)
                < stmt_size(s) && block_size(body) < stmt_size(s),
            StmtV::While { cond, decreasing, body, line, col } => expr_size(cond) < stmt_size(s) && block_size(body)
                < stmt_size(s) && (decreasing is Some ==> expr_size(decreasing->0) < stmt_size(s)),
            StmtV::Expr(e) => expr_size(e) < stmt_size(s),
            StmtV::Return(e, _, _) => e is Some ==> expr_size(e->0) < stmt_size(s),
            _ => true,
        },
{
}

} // verus!
