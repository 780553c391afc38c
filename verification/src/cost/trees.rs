//! What a tree says without walking it: the references and scalars in an expression, the
//! assignments in a loop body, and how far a measure falls along every path through it.

use vstd::prelude::*;
use crate::ast::{views, BinOp};
use crate::cost::scope::{Alias, AliasV};
use crate::ir::{
    block_lists, expr_parts, lvalue_parts, opt_view, stmt_parts, Block, BlockV, Expr, ExprKind, ExprV, KindV, LValue,
    LValueV, Stmt, StmtV, Ty,
};
use crate::irsize::{
    block_shrinks, block_size, expr_shrinks, expr_size, exprs_shrink, exprs_size, stmt_shrinks, stmt_size,
    stmts_shrink,
};
use crate::num::BigInt;

verus! {

// ---- references ----

/// Every `x[i]` in an expression tree, reads only (the write is the statement's left side).
pub open spec fn refs_of(e: ExprV) -> Seq<AliasV>
    decreases e,
{
    match e.kind {
        KindV::Index(a, i) => seq![AliasV { arr: a, idx: *i, field: None }] + refs_of(*i),
        KindV::Field(base, fi) => match base.kind {
            KindV::Index(a, i) => seq![AliasV { arr: a, idx: *i, field: Some(fi) }] + refs_of(*i),
            _ => refs_of(*base),
        },
        KindV::StructLit(_, vals) => refs_list(vals),
        KindV::Binary(_, a, b) => refs_of(*a) + refs_of(*b),
        KindV::MinMax(_, a, b) => refs_of(*a) + refs_of(*b),
        KindV::Unary(_, a) => refs_of(*a),
        KindV::Cast(a, _) => refs_of(*a),
        KindV::Println(a) => refs_of(*a),
        KindV::Call(_, args) => refs_list(args),
        KindV::If(c, t, els) => refs_of(*c) + refs_block(t) + (match els {
            Some(b) => refs_block(b),
            None => Seq::empty(),
        }),
        KindV::Block(b) => refs_block(b),
        _ => Seq::empty(),
    }
}

pub open spec fn refs_list(s: Seq<ExprV>) -> Seq<AliasV>
    decreases s,
{
    if s.len() == 0 {
        Seq::empty()
    } else {
        refs_list(s.drop_last()) + refs_of(s.last())
    }
}

pub open spec fn refs_block(b: BlockV) -> Seq<AliasV>
    decreases b,
{
    refs_stmts(b.stmts) + (match b.tail {
        Some(x) => refs_of(*x),
        None => Seq::empty(),
    })
}

pub open spec fn refs_stmts(s: Seq<StmtV>) -> Seq<AliasV>
    decreases s,
{
    if s.len() == 0 {
        Seq::empty()
    } else {
        refs_stmts(s.drop_last()) + (match s.last() {
            StmtV::Expr(x) => refs_of(x),
            StmtV::Let(_, x) => refs_of(x),
            _ => Seq::empty(),
        })
    }
}

/// Every scalar local read in an expression tree, loop variables included (they have no alias).
pub open spec fn scalars_of(e: ExprV) -> Seq<usize>
    decreases e,
{
    match e.kind {
        KindV::Local(v) => seq![v],
        KindV::Index(_, i) => scalars_of(*i),
        KindV::Binary(_, a, b) => scalars_of(*a) + scalars_of(*b),
        KindV::MinMax(_, a, b) => scalars_of(*a) + scalars_of(*b),
        KindV::Unary(_, a) => scalars_of(*a),
        KindV::Cast(a, _) => scalars_of(*a),
        KindV::Println(a) => scalars_of(*a),
        KindV::Call(_, args) => scalars_list(args),
        KindV::Field(base, _) => scalars_of(*base),
        KindV::StructLit(_, vals) => scalars_list(vals),
        KindV::If(c, t, els) => scalars_of(*c) + (match t.tail {
            Some(x) => scalars_of(*x),
            None => Seq::empty(),
        }) + (match els {
            Some(b) => match b.tail {
                Some(x) => scalars_of(*x),
                None => Seq::empty(),
            },
            None => Seq::empty(),
        }),
        KindV::Block(b) => match b.tail {
            Some(x) => scalars_of(*x),
            None => Seq::empty(),
        },
        _ => Seq::empty(),
    }
}

pub open spec fn scalars_list(s: Seq<ExprV>) -> Seq<usize>
    decreases s,
{
    if s.len() == 0 {
        Seq::empty()
    } else {
        scalars_list(s.drop_last()) + scalars_of(s.last())
    }
}

proof fn alias_pushed<'a>(s: Seq<Alias<'a>>, x: Alias<'a>)
    ensures
        views(s.push(x)) == views(s).push(x@),
{
    assert(views(s.push(x)) =~= views(s).push(x@));
}

proof fn append_three<T>(a: Seq<T>, b: Seq<T>, c: Seq<T>)
    ensures
        (a + b) + c == a + (b + c),
{
    assert((a + b) + c =~= a + (b + c));
}

pub fn collect_refs<'a>(e: &'a Expr, out: &mut Vec<Alias<'a>>)
    ensures
        views(final(out)@) == views(old(out)@) + refs_of(e@),
    decreases expr_size(e@),
{
    let ghost start = views(out@);
    proof {
        expr_parts(*e);
        expr_shrinks(e@);
    }
    match &e.kind {
        ExprKind::Index(a, i) => {
            let r = Alias { arr: *a, idx: &**i, field: None };
            proof {
                alias_pushed(out@, r);
                append_three(start, seq![r@], refs_of(i@));
                assert(start.push(r@) =~= start + seq![r@]);
            }
            out.push(r);
            collect_refs(i, out);
        },
        ExprKind::Field(base, fi) => {
            proof {
                expr_parts(**base);
                expr_shrinks(base@);
            }
            match &base.kind {
                ExprKind::Index(a, i) => {
                    let r = Alias { arr: *a, idx: &**i, field: Some(*fi) };
                    proof {
                        alias_pushed(out@, r);
                        append_three(start, seq![r@], refs_of(i@));
                        assert(start.push(r@) =~= start + seq![r@]);
                    }
                    out.push(r);
                    collect_refs(i, out);
                },
                _ => {
                    collect_refs(base, out);
                },
            }
        },
        ExprKind::StructLit(_, vals) => {
            refs_in_list(vals, out);
        },
        ExprKind::Binary(_, a, b) => {
            collect_refs(a, out);
            collect_refs(b, out);
            proof {
                append_three(start, refs_of(a@), refs_of(b@));
            }
        },
        ExprKind::MinMax(_, a, b) => {
            collect_refs(a, out);
            collect_refs(b, out);
            proof {
                append_three(start, refs_of(a@), refs_of(b@));
            }
        },
        ExprKind::Unary(_, a) => {
            collect_refs(a, out);
        },
        ExprKind::Cast(a, _) => {
            collect_refs(a, out);
        },
        ExprKind::Println(a) => {
            collect_refs(a, out);
        },
        ExprKind::Call(_, args) => {
            refs_in_list(args, out);
        },
        ExprKind::If(c, t, els) => {
            collect_refs(c, out);
            refs_in_block(t, out);
            proof {
                append_three(start, refs_of(c@), refs_block(t@));
            }
            match els {
                Some(b) => {
                    refs_in_block(b, out);
                    proof {
                        append_three(start, refs_of(c@) + refs_block(t@), refs_block(b@));
                    }
                },
                None => {
                    assert(start + (refs_of(c@) + refs_block(t@)) =~= start + (refs_of(c@) + refs_block(t@) + Seq::empty()));
                },
            }
        },
        ExprKind::Block(b) => {
            refs_in_block(b, out);
        },
        _ => {
            assert(start + Seq::empty() =~= start);
        },
    }
}

#[verifier::loop_isolation(false)]
fn refs_in_list<'a>(s: &'a Vec<Expr>, out: &mut Vec<Alias<'a>>)
    ensures
        views(final(out)@) == views(old(out)@) + refs_list(views(s@)),
    decreases exprs_size(views(s@)),
{
    let ghost start = views(out@);
    let ghost v = views(s@);
    let mut i: usize = 0;
    proof {
        assert(v.take(0) =~= Seq::empty());
        assert(start + Seq::empty() =~= start);
    }
    while i < s.len()
        invariant
            i <= s@.len(),
            views(out@) == start + refs_list(v.take(i as int)),
        decreases s@.len() - i,
    {
        proof {
            exprs_shrink(v, i as int);
            assert(v.take(i + 1).drop_last() =~= v.take(i as int));
            assert(v[i as int] == s@[i as int]@);
        }
        collect_refs(&s[i], out);
        proof {
            append_three(start, refs_list(v.take(i as int)), refs_of(v[i as int]));
        }
        i += 1;
    }
    assert(v.take(i as int) =~= v);
}

#[verifier::loop_isolation(false)]
fn refs_in_block<'a>(b: &'a Block, out: &mut Vec<Alias<'a>>)
    ensures
        views(final(out)@) == views(old(out)@) + refs_block(b@),
    decreases block_size(b@),
{
    let ghost start = views(out@);
    let ghost v = b@.stmts;
    proof {
        block_lists(*b);
        block_shrinks(b@);
        assert(v.take(0) =~= Seq::empty());
        assert(start + Seq::empty() =~= start);
    }
    let mut i: usize = 0;
    while i < b.stmts.len()
        invariant
            i <= b.stmts@.len(),
            views(out@) == start + refs_stmts(v.take(i as int)),
        decreases b.stmts@.len() - i,
    {
        let s = &b.stmts[i];
        proof {
            stmts_shrink(v, i as int);
            assert(v.take(i + 1).drop_last() =~= v.take(i as int));
            assert(v[i as int] == s@);
            assert(v.take(i + 1).last() == s@);
            stmt_parts(*s);
            stmt_shrinks(s@);
        }
        match s {
            Stmt::Expr(x) => {
                collect_refs(x, out);
                proof {
                    append_three(start, refs_stmts(v.take(i as int)), refs_of(x@));
                }
            },
            Stmt::Let(_, x) => {
                collect_refs(x, out);
                proof {
                    append_three(start, refs_stmts(v.take(i as int)), refs_of(x@));
                }
            },
            _ => {
                assert(refs_stmts(v.take(i as int)) + Seq::empty() =~= refs_stmts(v.take(i as int)));
            },
        }
        i += 1;
    }
    assert(v.take(i as int) =~= v);
    match &b.tail {
        Some(x) => {
            collect_refs(x, out);
            proof {
                append_three(start, refs_stmts(v), refs_of(x@));
            }
        },
        None => {
            assert(refs_stmts(v) + Seq::empty() =~= refs_stmts(v));
        },
    }
}

fn scalars_in_tail(t: &Option<Box<Expr>>, out: &mut Vec<usize>, Ghost(n): Ghost<nat>)
    requires
        *t is Some ==> expr_size((*((*t)->0))@) < n,
    ensures
        final(out)@ == old(out)@ + (match *t {
            Some(x) => scalars_of((*x)@),
            None => Seq::empty(),
        }),
    decreases n, 0int,
{
    match t {
        Some(x) => {
            collect_scalars(x, out);
        },
        None => {
            assert(out@ + Seq::empty() =~= out@);
        },
    }
}

pub fn collect_scalars(e: &Expr, out: &mut Vec<usize>)
    ensures
        final(out)@ == old(out)@ + scalars_of(e@),
    decreases expr_size(e@), 1int,
{
    let ghost start = out@;
    proof {
        expr_parts(*e);
        expr_shrinks(e@);
    }
    match &e.kind {
        ExprKind::Local(v) => {
            assert(start.push(*v) =~= start + seq![*v]);
            out.push(*v);
        },
        ExprKind::Index(_, i) => {
            collect_scalars(i, out);
        },
        ExprKind::Binary(_, a, b) => {
            collect_scalars(a, out);
            collect_scalars(b, out);
            proof {
                append_three(start, scalars_of(a@), scalars_of(b@));
            }
        },
        ExprKind::MinMax(_, a, b) => {
            collect_scalars(a, out);
            collect_scalars(b, out);
            proof {
                append_three(start, scalars_of(a@), scalars_of(b@));
            }
        },
        ExprKind::Unary(_, a) => {
            collect_scalars(a, out);
        },
        ExprKind::Cast(a, _) => {
            collect_scalars(a, out);
        },
        ExprKind::Println(a) => {
            collect_scalars(a, out);
        },
        ExprKind::Call(_, args) => {
            scalars_in_list(args, out);
        },
        ExprKind::Field(base, _) => {
            collect_scalars(base, out);
        },
        ExprKind::StructLit(_, vals) => {
            scalars_in_list(vals, out);
        },
        ExprKind::If(c, t, els) => {
            proof {
                block_lists(*t);
                block_shrinks(t@);
            }
            collect_scalars(c, out);
            scalars_in_tail(&t.tail, out, Ghost(expr_size(e@)));
            let ghost st: Seq<usize> = match t@.tail {
                Some(x) => scalars_of(*x),
                None => Seq::empty(),
            };
            proof {
                append_three(start, scalars_of(c@), st);
            }
            match els {
                Some(b) => {
                    proof {
                        block_lists(*b);
                        block_shrinks(b@);
                    }
                    scalars_in_tail(&b.tail, out, Ghost(expr_size(e@)));
                    proof {
                        append_three(
                            start,
                            scalars_of(c@) + st,
                            match b@.tail {
                                Some(x) => scalars_of(*x),
                                None => Seq::empty(),
                            },
                        );
                    }
                },
                None => {
                    assert(start + (scalars_of(c@) + st) =~= start + (scalars_of(c@) + st + Seq::empty()));
                },
            }
        },
        ExprKind::Block(b) => {
            proof {
                block_lists(*b);
                block_shrinks(b@);
            }
            scalars_in_tail(&b.tail, out, Ghost(expr_size(e@)));
        },
        _ => {
            assert(start + Seq::empty() =~= start);
        },
    }
}

#[verifier::loop_isolation(false)]
fn scalars_in_list(s: &Vec<Expr>, out: &mut Vec<usize>)
    ensures
        final(out)@ == old(out)@ + scalars_list(views(s@)),
    decreases exprs_size(views(s@)), 1int,
{
    let ghost start = out@;
    let ghost v = views(s@);
    let mut i: usize = 0;
    proof {
        assert(v.take(0) =~= Seq::empty());
        assert(start + Seq::empty() =~= start);
    }
    while i < s.len()
        invariant
            i <= s@.len(),
            out@ == start + scalars_list(v.take(i as int)),
        decreases s@.len() - i,
    {
        proof {
            exprs_shrink(v, i as int);
            assert(v.take(i + 1).drop_last() =~= v.take(i as int));
            assert(v[i as int] == s@[i as int]@);
        }
        collect_scalars(&s[i], out);
        proof {
            append_three(start, scalars_list(v.take(i as int)), scalars_of(v[i as int]));
        }
        i += 1;
    }
    assert(v.take(i as int) =~= v);
}

// ---- bounds ----

/// Whether the bound of a loop reads a local.
pub open spec fn mentions_local(e: ExprV, l: usize) -> bool
    decreases e,
{
    match e.kind {
        KindV::Local(v) => v == l,
        KindV::Len(v) => v == l,
        KindV::Binary(_, a, b) => mentions_local(*a, l) || mentions_local(*b, l),
        KindV::MinMax(_, a, b) => mentions_local(*a, l) || mentions_local(*b, l),
        KindV::Unary(_, a) => mentions_local(*a, l),
        KindV::Cast(a, _) => mentions_local(*a, l),
        _ => false,
    }
}

pub fn bound_mentions(e: &Expr, l: usize) -> (r: bool)
    ensures
        r == mentions_local(e@, l),
    decreases expr_size(e@),
{
    proof {
        expr_parts(*e);
        expr_shrinks(e@);
    }
    match &e.kind {
        ExprKind::Local(v) => *v == l,
        ExprKind::Len(v) => *v == l,
        ExprKind::Binary(_, a, b) => bound_mentions(a, l) || bound_mentions(b, l),
        ExprKind::MinMax(_, a, b) => bound_mentions(a, l) || bound_mentions(b, l),
        ExprKind::Unary(_, a) => bound_mentions(a, l),
        ExprKind::Cast(a, _) => bound_mentions(a, l),
        _ => false,
    }
}

// ---- assignments ----

/// What `v op= e`, or `v = e`, adds to `v`, when that is a constant.
pub open spec fn step_by(v: usize, op: Option<BinOp>, e: ExprV) -> Option<int> {
    match op {
        Some(o) => match e.kind {
            KindV::Int(c) => match o {
                BinOp::Add => Some(c as int),
                BinOp::Sub => Some(-(c as int)),
                _ => None,
            },
            _ => None,
        },
        None => match e.kind {
            KindV::Binary(o, a, b) => match (a.kind, b.kind) {
                (KindV::Local(l), KindV::Int(c)) => if l != v {
                    None
                } else {
                    match o {
                        BinOp::Add => Some(c as int),
                        BinOp::Sub => Some(-(c as int)),
                        _ => None,
                    }
                },
                _ => None,
            },
            _ => None,
        },
    }
}

pub fn step_of(v: usize, op: &Option<BinOp>, e: &Expr) -> (r: Option<i128>)
    ensures
        match r {
            Some(c) => step_by(v, *op, e@) == Some(c as int) && -0x8000_0000_0000_0000 <= c <= 0x8000_0000_0000_0000,
            None => step_by(v, *op, e@) is None,
        },
{
    proof {
        expr_parts(*e);
    }
    match op {
        Some(o) => match &e.kind {
            ExprKind::Int(c) => match o {
                BinOp::Add => Some(*c as i128),
                BinOp::Sub => Some(-(*c as i128)),
                _ => None,
            },
            _ => None,
        },
        None => match &e.kind {
            ExprKind::Binary(o, a, b) => {
                proof {
                    expr_parts(**a);
                    expr_parts(**b);
                }
                match (&a.kind, &b.kind) {
                    (ExprKind::Local(l), ExprKind::Int(c)) => {
                        if *l != v {
                            None
                        } else {
                            match o {
                                BinOp::Add => Some(*c as i128),
                                BinOp::Sub => Some(-(*c as i128)),
                                _ => None,
                            }
                        }
                    },
                    _ => None,
                }
            },
            _ => None,
        },
    }
}

/// An assignment to a local in a loop body, or a `break` where there is no local, and whether a loop
/// inside the body holds it.
#[derive(Debug)]
pub struct Step {
    pub var: Option<usize>,
    pub by: Option<i128>,
    pub nested: bool,
}

pub struct StepV {
    pub var: Option<usize>,
    pub by: Option<int>,
    pub nested: bool,
}

impl View for Step {
    type V = StepV;

    open spec fn view(&self) -> StepV {
        StepV {
            var: self.var,
            by: match self.by {
                Some(c) => Some(c as int),
                None => None,
            },
            nested: self.nested,
        }
    }
}

/// The assignments to locals and the `break`s in a block, wherever in it they stand. The body and
/// the condition of a loop inside it run more than once.
pub open spec fn steps_of(b: BlockV, nested: bool) -> Seq<StepV>
    decreases b,
{
    steps_list(b.stmts, nested) + (match b.tail {
        Some(t) => steps_expr(*t, nested),
        None => Seq::empty(),
    })
}

pub open spec fn steps_list(s: Seq<StmtV>, nested: bool) -> Seq<StepV>
    decreases s,
{
    if s.len() == 0 {
        Seq::empty()
    } else {
        steps_list(s.drop_last(), nested) + steps_stmt(s.last(), nested)
    }
}

pub open spec fn steps_stmt(s: StmtV, nested: bool) -> Seq<StepV>
    decreases s,
{
    match s {
        StmtV::Let(_, e) => steps_expr(e, nested),
        StmtV::LetRepeat(_, e, n) => steps_expr(e, nested) + steps_expr(n, nested),
        StmtV::LetArray(_, a) => steps_exprs(a, nested),
        StmtV::LetBuild { id, len, var, body } => steps_expr(len, nested) + steps_of(body, true),
        StmtV::Assign(lv, op, e) => steps_lvalue(lv, nested) + steps_expr(e, nested) + (match lv {
            LValueV::Var(v) => seq![StepV { var: Some(v), by: step_by(v, op, e), nested }],
            _ => Seq::empty(),
        }),
        StmtV::For { var, start, end, body } => steps_expr(start, nested) + steps_expr(end, nested) + steps_of(
            body,
            true,
        ),
        StmtV::While { cond, decreasing, body, line } => steps_expr(cond, true) + steps_opt(decreasing, true) + steps_of(
            body,
            true,
        ),
        StmtV::Break => seq![StepV { var: None, by: None, nested }],
        StmtV::Expr(e) => steps_expr(e, nested),
        StmtV::Return(e) => steps_opt(e, nested),
    }
}

pub open spec fn steps_lvalue(l: LValueV, nested: bool) -> Seq<StepV>
    decreases l,
{
    match l {
        LValueV::Index(_, e, _) => steps_expr(e, nested),
        LValueV::IndexField(_, e, _, _) => steps_expr(e, nested),
        _ => Seq::empty(),
    }
}

pub open spec fn steps_opt(e: Option<ExprV>, nested: bool) -> Seq<StepV>
    decreases e,
{
    match e {
        Some(x) => steps_expr(x, nested),
        None => Seq::empty(),
    }
}

pub open spec fn steps_exprs(s: Seq<ExprV>, nested: bool) -> Seq<StepV>
    decreases s,
{
    if s.len() == 0 {
        Seq::empty()
    } else {
        steps_exprs(s.drop_last(), nested) + steps_expr(s.last(), nested)
    }
}

pub open spec fn steps_expr(e: ExprV, nested: bool) -> Seq<StepV>
    decreases e,
{
    match e.kind {
        KindV::Binary(_, a, b) => steps_expr(*a, nested) + steps_expr(*b, nested),
        KindV::Unary(_, a) => steps_expr(*a, nested),
        KindV::Index(_, a) => steps_expr(*a, nested),
        KindV::Field(a, _) => steps_expr(*a, nested),
        KindV::StructLit(_, a) => steps_exprs(a, nested),
        KindV::Call(_, a) => steps_exprs(a, nested),
        KindV::Println(a) => steps_expr(*a, nested),
        KindV::Cast(a, _) => steps_expr(*a, nested),
        KindV::MinMax(_, a, b) => steps_expr(*a, nested) + steps_expr(*b, nested),
        KindV::If(c, t, els) => steps_expr(*c, nested) + steps_of(t, nested) + (match els {
            Some(b) => steps_of(b, nested),
            None => Seq::empty(),
        }),
        KindV::Block(b) => steps_of(b, nested),
        _ => Seq::empty(),
    }
}

proof fn append_none<T>(a: Seq<T>)
    ensures
        a + Seq::empty() == a,
{
    assert(a + Seq::empty() =~= a);
}

#[verifier::loop_isolation(false)]
fn collect_steps(b: &Block, nested: bool, out: &mut Vec<Step>)
    ensures
        views(final(out)@) == views(old(out)@) + steps_of(b@, nested),
    decreases block_size(b@), 1int,
{
    let ghost start = views(out@);
    let ghost v = b@.stmts;
    proof {
        block_lists(*b);
        block_shrinks(b@);
        assert(v.take(0) =~= Seq::empty());
        append_none(start);
    }
    let mut i: usize = 0;
    while i < b.stmts.len()
        invariant
            i <= b.stmts@.len(),
            views(out@) == start + steps_list(v.take(i as int), nested),
        decreases b.stmts@.len() - i,
    {
        let s = &b.stmts[i];
        proof {
            stmts_shrink(v, i as int);
            assert(v.take(i + 1).drop_last() =~= v.take(i as int));
            assert(v[i as int] == s@);
            assert(v.take(i + 1).last() == s@);
        }
        collect_stmt(s, nested, out);
        proof {
            append_three(start, steps_list(v.take(i as int), nested), steps_stmt(s@, nested));
        }
        i += 1;
    }
    assert(v.take(i as int) =~= v);
    match &b.tail {
        Some(t) => {
            steps_in(t, nested, out);
            proof {
                append_three(start, steps_list(v, nested), steps_expr(t@, nested));
            }
        },
        None => {
            proof {
                append_none(steps_list(v, nested));
            }
        },
    }
}

fn push_step(out: &mut Vec<Step>, st: Step)
    ensures
        views(final(out)@) == views(old(out)@) + seq![st@],
{
    assert(views(out@.push(st)) =~= views(out@) + seq![st@]);
    out.push(st);
}

fn collect_stmt(s: &Stmt, nested: bool, out: &mut Vec<Step>)
    ensures
        views(final(out)@) == views(old(out)@) + steps_stmt(s@, nested),
    decreases stmt_size(s@), 0int,
{
    let ghost start = views(out@);
    proof {
        stmt_parts(*s);
        stmt_shrinks(s@);
        append_none(start);
    }
    match s {
        Stmt::Let(_, e) => {
            steps_in(e, nested, out);
        },
        Stmt::LetRepeat(_, e, n) => {
            steps_in(e, nested, out);
            steps_in(n, nested, out);
            proof {
                append_three(start, steps_expr(e@, nested), steps_expr(n@, nested));
            }
        },
        Stmt::LetArray(_, a) => {
            steps_in_list(a, nested, out);
        },
        Stmt::LetBuild { id, len, var, body } => {
            steps_in(len, nested, out);
            collect_steps(body, true, out);
            proof {
                append_three(start, steps_expr(len@, nested), steps_of(body@, true));
            }
        },
        Stmt::Assign(lv, op, e) => {
            proof {
                lvalue_parts(*lv);
            }
            match lv {
                LValue::Index(_, x, _) => {
                    steps_in(x, nested, out);
                },
                LValue::IndexField(_, x, _, _) => {
                    steps_in(x, nested, out);
                },
                _ => {},
            }
            let ghost l = steps_lvalue(lv@, nested);
            assert(views(out@) == start + l);
            steps_in(e, nested, out);
            let ghost both = l + steps_expr(e@, nested);
            proof {
                append_three(start, l, steps_expr(e@, nested));
                append_none(both);
            }
            if let LValue::Var(x) = lv {
                let st = Step { var: Some(*x), by: step_of(*x, op, e), nested };
                let ghost sv = st@;
                assert(sv == (StepV { var: Some(*x), by: step_by(*x, *op, e@), nested }));
                push_step(out, st);
                proof {
                    append_three(start, both, seq![sv]);
                }
            }
        },
        Stmt::For { var, start: from, end, body } => {
            steps_in(from, nested, out);
            steps_in(end, nested, out);
            collect_steps(body, true, out);
            proof {
                let (a, b, c) = (steps_expr(from@, nested), steps_expr(end@, nested), steps_of(body@, true));
                append_three(start, a, b);
                append_three(start, a + b, c);
            }
        },
        Stmt::While { cond, decreasing, body, line } => {
            steps_in(cond, true, out);
            let ghost d = opt_view(*decreasing);
            steps_in_opt(decreasing, true, out);
            collect_steps(body, true, out);
            proof {
                let (a, b, c) = (steps_expr(cond@, true), steps_opt(d, true), steps_of(body@, true));
                append_three(start, a, b);
                append_three(start, a + b, c);
            }
        },
        Stmt::Break => {
            push_step(out, Step { var: None, by: None, nested });
        },
        Stmt::Expr(e) => {
            steps_in(e, nested, out);
        },
        Stmt::Return(e) => {
            if let Some(x) = e {
                steps_in(x, nested, out);
            }
        },
    }
}

fn steps_in_opt(e: &Option<Expr>, nested: bool, out: &mut Vec<Step>)
    ensures
        views(final(out)@) == views(old(out)@) + steps_opt(opt_view(*e), nested),
    decreases (match *e { Some(x) => expr_size(x@), None => 0 }), 2int,
{
    proof {
        append_none(views(out@));
    }
    if let Some(x) = e {
        steps_in(x, nested, out);
    }
}

#[verifier::loop_isolation(false)]
fn steps_in_list(s: &Vec<Expr>, nested: bool, out: &mut Vec<Step>)
    ensures
        views(final(out)@) == views(old(out)@) + steps_exprs(views(s@), nested),
    decreases exprs_size(views(s@)), 2int,
{
    let ghost start = views(out@);
    let ghost v = views(s@);
    let mut i: usize = 0;
    proof {
        assert(v.take(0) =~= Seq::empty());
        append_none(start);
    }
    while i < s.len()
        invariant
            i <= s@.len(),
            views(out@) == start + steps_exprs(v.take(i as int), nested),
        decreases s@.len() - i,
    {
        proof {
            exprs_shrink(v, i as int);
            assert(v.take(i + 1).drop_last() =~= v.take(i as int));
            assert(v[i as int] == s@[i as int]@);
        }
        steps_in(&s[i], nested, out);
        proof {
            append_three(start, steps_exprs(v.take(i as int), nested), steps_expr(v[i as int], nested));
        }
        i += 1;
    }
    assert(v.take(i as int) =~= v);
}

fn steps_in(e: &Expr, nested: bool, out: &mut Vec<Step>)
    ensures
        views(final(out)@) == views(old(out)@) + steps_expr(e@, nested),
    decreases expr_size(e@), 1int,
{
    let ghost start = views(out@);
    proof {
        expr_parts(*e);
        expr_shrinks(e@);
        append_none(start);
    }
    match &e.kind {
        ExprKind::Binary(_, a, b) => {
            steps_in(a, nested, out);
            steps_in(b, nested, out);
            proof {
                append_three(start, steps_expr(a@, nested), steps_expr(b@, nested));
            }
        },
        ExprKind::Unary(_, a) => {
            steps_in(a, nested, out);
        },
        ExprKind::Index(_, a) => {
            steps_in(a, nested, out);
        },
        ExprKind::Field(a, _) => {
            steps_in(a, nested, out);
        },
        ExprKind::StructLit(_, a) => {
            steps_in_list(a, nested, out);
        },
        ExprKind::Call(_, a) => {
            steps_in_list(a, nested, out);
        },
        ExprKind::Println(a) => {
            steps_in(a, nested, out);
        },
        ExprKind::Cast(a, _) => {
            steps_in(a, nested, out);
        },
        ExprKind::MinMax(_, a, b) => {
            steps_in(a, nested, out);
            steps_in(b, nested, out);
            proof {
                append_three(start, steps_expr(a@, nested), steps_expr(b@, nested));
            }
        },
        ExprKind::If(c, t, els) => {
            steps_in(c, nested, out);
            collect_steps(t, nested, out);
            let ghost both = steps_expr(c@, nested) + steps_of(t@, nested);
            proof {
                append_three(start, steps_expr(c@, nested), steps_of(t@, nested));
                append_none(both);
            }
            if let Some(b) = els {
                collect_steps(b, nested, out);
                proof {
                    append_three(start, both, steps_of(b@, nested));
                }
            }
        },
        ExprKind::Block(b) => {
            collect_steps(b, nested, out);
        },
        _ => {},
    }
}

impl Step {
    fn is_to(&self, var: usize) -> (r: bool)
        ensures
            r == (self.var == Some(var)),
    {
        match self.var {
            Some(x) => x == var,
            None => false,
        }
    }
}

pub open spec fn steps_to(s: Seq<StepV>, var: usize) -> Seq<StepV>
    decreases s.len(),
{
    if s.len() == 0 {
        Seq::empty()
    } else if s.last().var == Some(var) {
        steps_to(s.drop_last(), var).push(s.last())
    } else {
        steps_to(s.drop_last(), var)
    }
}

/// The constant `var` is stepped by in `body`, when it is assigned exactly once there and not
/// in a loop inside it.
pub open spec fn one_step(body: BlockV, var: usize) -> Option<int> {
    let s = steps_to(steps_of(body, false), var);
    if s.len() == 1 && !s[0].nested {
        s[0].by
    } else {
        None
    }
}

/// The constant `var` is stepped by in `body`, when it is assigned exactly once there as
/// `var += c`, `var -= c`, `var = var + c` or `var = var - c`.
#[verifier::loop_isolation(false)]
pub fn single_step(body: &Block, var: usize) -> (r: Option<i128>)
    ensures
        match r {
            Some(c) => one_step(body@, var) == Some(c as int),
            None => one_step(body@, var) is None,
        },
{
    let mut all: Vec<Step> = Vec::new();
    assert(views(all@) =~= Seq::empty());
    collect_steps(body, false, &mut all);
    let ghost v = steps_of(body@, false);
    assert(views(all@) =~= v);
    let mut found: Vec<usize> = Vec::new();
    let mut i: usize = 0;
    assert(v.take(0) =~= Seq::empty());
    assert(v.take(all@.len() as int) =~= v);
    while i < all.len()
        invariant
            i <= all@.len(),
            found@.len() == steps_to(v.take(i as int), var).len(),
            forall|j: int|
                0 <= j < found@.len() ==> (#[trigger] found@[j]) < all@.len() && steps_to(v.take(i as int), var)[j]
                    == all@[found@[j] as int]@,
        decreases all@.len() - i,
    {
        assert(v.take(i + 1).drop_last() =~= v.take(i as int));
        assert(v.take(i + 1).last() == all@[i as int]@);
        if all[i].is_to(var) {
            found.push(i);
        }
        i += 1;
    }
    if found.len() == 1 {
        let s = &all[found[0]];
        if s.nested {
            None
        } else {
            s.by
        }
    } else {
        None
    }
}

/// A step of a local other than `var` that the bound reads.
pub open spec fn shifts_bound(s: StepV, var: usize, bound: ExprV) -> bool {
    match s.var {
        Some(v) => v != var && mentions_local(bound, v),
        None => false,
    }
}

/// Whether the body assigns a local other than `var` that the bound reads.
pub open spec fn moves_bound(body: BlockV, var: usize, bound: ExprV) -> bool {
    let s = steps_of(body, false);
    exists|i: int| 0 <= i < s.len() && shifts_bound(#[trigger] s[i], var, bound)
}

#[verifier::loop_isolation(false)]
pub fn assigns_bound(body: &Block, var: usize, bound: &Expr) -> (r: bool)
    ensures
        r == moves_bound(body@, var, bound@),
{
    let mut all: Vec<Step> = Vec::new();
    assert(views(all@) =~= Seq::empty());
    collect_steps(body, false, &mut all);
    let ghost v = steps_of(body@, false);
    assert(views(all@) =~= v);
    let mut i: usize = 0;
    while i < all.len()
        invariant
            i <= all@.len(),
            forall|j: int| 0 <= j < i ==> !shifts_bound(#[trigger] v[j], var, bound@),
        decreases all@.len() - i,
    {
        assert(v[i as int] == all@[i as int]@);
        if let Some(x) = all[i].var {
            if x != var && bound_mentions(bound, x) {
                return true;
            }
        }
        i += 1;
    }
    false
}

// ---- the measure of a loop ----

/// The coefficient of `v` in an expression that is affine in the locals.
pub open spec fn slope(e: ExprV, v: usize) -> Option<int>
    decreases e,
{
    match e.kind {
        KindV::Local(l) => Some(
            if l == v {
                1
            } else {
                0
            },
        ),
        KindV::Int(_) => Some(0),
        KindV::Len(_) => Some(0),
        KindV::Cast(a, t) => if t is I64 {
            slope(*a, v)
        } else {
            None
        },
        KindV::Binary(op, a, b) => match op {
            BinOp::Add => match (slope(*a, v), slope(*b, v)) {
                (Some(x), Some(y)) => Some(x + y),
                _ => None,
            },
            BinOp::Sub => match (slope(*a, v), slope(*b, v)) {
                (Some(x), Some(y)) => Some(x - y),
                _ => None,
            },
            BinOp::Mul => match a.kind {
                KindV::Int(k) => times_opt(k as int, slope(*b, v)),
                _ => match b.kind {
                    KindV::Int(k) => times_opt(k as int, slope(*a, v)),
                    _ => None,
                },
            },
            _ => None,
        },
        _ => None,
    }
}

pub open spec fn times_opt(k: int, x: Option<int>) -> Option<int> {
    match x {
        Some(y) => Some(k * y),
        None => None,
    }
}

/// One of the steps assigns a local that the measure depends on.
pub open spec fn strays(m: ExprV, s: Seq<StepV>) -> bool {
    exists|i: int| 0 <= i < s.len() && moves_measure(m, #[trigger] s[i])
}

pub open spec fn moves_measure(m: ExprV, s: StepV) -> bool {
    match s.var {
        Some(v) => slope(m, v) != Some(0int),
        None => false,
    }
}

/// One of the steps is a `break` of the loop whose body they are in.
pub open spec fn breaks_out(s: Seq<StepV>) -> bool {
    exists|i: int| 0 <= i < s.len() && (#[trigger] s[i]).var is None && !s[i].nested
}

/// How the measure `m` falls along the paths through a block: `Some(Some(d))` when those that
/// reach its end have it fall by at least `d`, `Some(None)` when every path leaves, `None` when
/// that cannot be followed. What is followed are assignments as statements, in the branches of an
/// `if` that is a statement or the tail, and in loops; one anywhere else is not.
pub open spec fn falls(m: ExprV, b: BlockV) -> Option<Option<int>>
    decreases b,
{
    let s = falls_list(m, b.stmts);
    match b.tail {
        Some(t) => match s {
            Some(Some(acc)) => falls_expr(m, *t, acc),
            _ => s,
        },
        None => s,
    }
}

pub open spec fn falls_list(m: ExprV, s: Seq<StmtV>) -> Option<Option<int>>
    decreases s,
{
    if s.len() == 0 {
        Some(Some(0))
    } else {
        match falls_list(m, s.drop_last()) {
            Some(Some(acc)) => falls_stmt(m, s.last(), acc),
            other => other,
        }
    }
}

/// A nested loop may run zero times: it helps only if it never hurts.
pub open spec fn harmless(d: Option<Option<int>>) -> bool {
    match d {
        Some(Some(x)) => x >= 0,
        Some(None) => true,
        None => false,
    }
}

/// Where that cannot be followed there is no answer.
pub open spec fn followed(m: ExprV, s: Seq<StepV>, acc: int) -> Option<Option<int>> {
    if strays(m, s) {
        None
    } else {
        Some(Some(acc))
    }
}

pub open spec fn falls_stmt(m: ExprV, s: StmtV, acc: int) -> Option<Option<int>>
    decreases s,
{
    match s {
        StmtV::Break => Some(None),
        StmtV::Return(_) => Some(None),
        StmtV::Assign(lv, op, e) => if strays(m, steps_lvalue(lv, false)) || strays(m, steps_expr(e, false)) {
            None
        } else {
            match lv {
                LValueV::Var(v) => if slope(m, v) == Some(0int) {
                    Some(Some(acc))
                } else {
                    match (slope(m, v), step_by(v, op, e)) {
                        (Some(k), Some(c)) => Some(Some(acc - k * c)),
                        _ => None,
                    }
                },
                _ => Some(Some(acc)),
            }
        },
        StmtV::Expr(e) => falls_expr(m, e, acc),
        StmtV::For { var, start, end, body } => if strays(m, steps_expr(start, false)) || strays(
            m,
            steps_expr(end, false),
        ) {
            None
        } else if harmless(falls(m, body)) && leaves_well(m, body, 0) {
            Some(Some(acc))
        } else {
            None
        },
        StmtV::While { cond, decreasing, body, line } => if strays(m, steps_expr(cond, false)) || strays(
            m,
            steps_opt(decreasing, false),
        ) {
            None
        } else if harmless(falls(m, body)) && leaves_well(m, body, 0) {
            Some(Some(acc))
        } else {
            None
        },
        _ => followed(m, steps_stmt(s, false), acc),
    }
}

/// The two branches of an `if` joined: the one that leaves does not count, else the lesser.
pub open spec fn joined_falls(acc: int, t: Option<Option<int>>, e: Option<Option<int>>) -> Option<Option<int>> {
    match (t, e) {
        (Some(a), Some(b)) => match (a, b) {
            (None, None) => Some(None),
            (Some(x), None) => Some(Some(acc + x)),
            (None, Some(y)) => Some(Some(acc + y)),
            (Some(x), Some(y)) => Some(Some(acc + (if x < y { x } else { y }))),
        },
        _ => None,
    }
}

pub open spec fn falls_expr(m: ExprV, e: ExprV, acc: int) -> Option<Option<int>>
    decreases e,
{
    match e.kind {
        KindV::If(c, t, els) => if strays(m, steps_expr(*c, false)) {
            None
        } else {
            joined_falls(
                acc,
                falls(m, t),
                match els {
                    Some(b) => falls(m, b),
                    None => Some(Some(0)),
                },
            )
        },
        _ => followed(m, steps_expr(e, false), acc),
    }
}

/// Every path that leaves the body of a nested loop by `break` has the measure no higher than it
/// was, where it has fallen by `acc` at the start of the block.
pub open spec fn leaves_well(m: ExprV, b: BlockV, acc: int) -> bool
    decreases b,
{
    leaves_list(m, b.stmts, acc) && match b.tail {
        Some(t) => match falls_list(m, b.stmts) {
            Some(Some(d)) => leaves_expr(m, *t, acc + d),
            _ => true,
        },
        None => true,
    }
}

pub open spec fn leaves_list(m: ExprV, s: Seq<StmtV>, acc: int) -> bool
    decreases s,
{
    if s.len() == 0 {
        true
    } else {
        leaves_list(m, s.drop_last(), acc) && match falls_list(m, s.drop_last()) {
            Some(Some(d)) => leaves_stmt(m, s.last(), acc + d),
            _ => true,
        }
    }
}

pub open spec fn leaves_stmt(m: ExprV, s: StmtV, acc: int) -> bool
    decreases s,
{
    match s {
        StmtV::Expr(e) => leaves_expr(m, e, acc),
        _ => breaks_out(steps_stmt(s, false)) ==> acc >= 0,
    }
}

pub open spec fn leaves_expr(m: ExprV, e: ExprV, acc: int) -> bool
    decreases e,
{
    match e.kind {
        KindV::If(c, t, els) => (breaks_out(steps_expr(*c, false)) ==> acc >= 0) && leaves_well(m, t, acc) && match els {
            Some(b) => leaves_well(m, b, acc),
            None => true,
        },
        _ => breaks_out(steps_expr(e, false)) ==> acc >= 0,
    }
}

/// The least amount the measure decreases along any path through `body` that reaches the end of
/// the body (a path that leaves by `break` or `return` need not decrease it). `m` is read as an
/// affine form in the locals; an assignment `x += c` to a local with coefficient `k` in `m`
/// changes `m` by `k·c`. A nested loop that only ever decreases `m` contributes nothing (it may run
/// zero times); one that can increase it, or any update the affine reading cannot follow, in the
/// body or in the condition of the loop, is `None`. Where every path leaves, the loop runs once.
pub open spec fn least_fall(m: ExprV, cond: ExprV, body: BlockV) -> Option<int> {
    match slope(m, 0) {
        None => None,
        Some(_) => if strays(m, steps_expr(cond, false)) {
            None
        } else {
            match falls(m, body) {
                None => None,
                Some(Some(d)) => Some(d),
                Some(None) => Some(1_000_000),
            }
        },
    }
}

pub open spec fn opt_big(x: Option<BigInt>) -> Option<int> {
    match x {
        Some(n) => Some(n@),
        None => None,
    }
}

pub open spec fn opt_opt_big(x: Option<Option<BigInt>>) -> Option<Option<int>> {
    match x {
        Some(y) => Some(opt_big(y)),
        None => None,
    }
}

fn slope_of(e: &Expr, v: usize) -> (r: Option<BigInt>)
    ensures
        opt_big(r) == slope(e@, v),
    decreases expr_size(e@),
{
    proof {
        expr_parts(*e);
        expr_shrinks(e@);
    }
    match &e.kind {
        ExprKind::Local(l) => Some(
            if *l == v {
                BigInt::from_i128(1)
            } else {
                BigInt::from_i128(0)
            },
        ),
        ExprKind::Int(_) => Some(BigInt::from_i128(0)),
        ExprKind::Len(_) => Some(BigInt::from_i128(0)),
        ExprKind::Cast(a, t) => {
            if matches!(t, Ty::I64) {
                slope_of(a, v)
            } else {
                None
            }
        },
        ExprKind::Binary(op, a, b) => match op {
            BinOp::Add => match (slope_of(a, v), slope_of(b, v)) {
                (Some(x), Some(y)) => Some(x.plus(&y)),
                _ => None,
            },
            BinOp::Sub => match (slope_of(a, v), slope_of(b, v)) {
                (Some(x), Some(y)) => Some(x.minus(&y)),
                _ => None,
            },
            BinOp::Mul => {
                proof {
                    expr_parts(**a);
                    expr_parts(**b);
                }
                match &a.kind {
                    ExprKind::Int(k) => match slope_of(b, v) {
                        Some(y) => Some(BigInt::from_i128(*k as i128).times(&y)),
                        None => None,
                    },
                    _ => match &b.kind {
                        ExprKind::Int(k) => match slope_of(a, v) {
                            Some(y) => Some(BigInt::from_i128(*k as i128).times(&y)),
                            None => None,
                        },
                        _ => None,
                    },
                }
            },
            _ => None,
        },
        _ => None,
    }
}

#[verifier::loop_isolation(false)]
fn any_strays(m: &Expr, s: &Vec<Step>) -> (r: bool)
    ensures
        r == strays(m@, views(s@)),
{
    let ghost v = views(s@);
    let mut i: usize = 0;
    while i < s.len()
        invariant
            i <= s@.len(),
            forall|j: int| 0 <= j < i ==> !moves_measure(m@, #[trigger] v[j]),
        decreases s@.len() - i,
    {
        assert(v[i as int] == s@[i as int]@);
        if let Some(x) = s[i].var {
            match slope_of(m, x) {
                Some(k) => {
                    if !k.is_zero() {
                        return true;
                    }
                },
                None => {
                    return true;
                },
            }
        }
        i += 1;
    }
    false
}

#[verifier::loop_isolation(false)]
fn any_breaks(s: &Vec<Step>) -> (r: bool)
    ensures
        r == breaks_out(views(s@)),
{
    let ghost v = views(s@);
    let mut i: usize = 0;
    while i < s.len()
        invariant
            i <= s@.len(),
            forall|j: int| 0 <= j < i ==> !((#[trigger] v[j]).var is None && !v[j].nested),
        decreases s@.len() - i,
    {
        assert(v[i as int] == s@[i as int]@);
        if s[i].var.is_none() && !s[i].nested {
            return true;
        }
        i += 1;
    }
    false
}

fn expr_steps(e: &Expr) -> (r: Vec<Step>)
    ensures
        views(r@) == steps_expr(e@, false),
{
    let mut out: Vec<Step> = Vec::new();
    assert(views(out@) =~= Seq::empty());
    steps_in(e, false, &mut out);
    assert(Seq::empty() + steps_expr(e@, false) =~= steps_expr(e@, false));
    out
}

fn opt_steps(e: &Option<Expr>) -> (r: Vec<Step>)
    ensures
        views(r@) == steps_opt(opt_view(*e), false),
{
    let mut out: Vec<Step> = Vec::new();
    let ghost v = steps_opt(opt_view(*e), false);
    assert(views(out@) =~= Seq::empty());
    steps_in_opt(e, false, &mut out);
    assert(Seq::empty() + v =~= v);
    out
}

fn stmt_steps(s: &Stmt) -> (r: Vec<Step>)
    ensures
        views(r@) == steps_stmt(s@, false),
{
    let mut out: Vec<Step> = Vec::new();
    assert(views(out@) =~= Seq::empty());
    collect_stmt(s, false, &mut out);
    assert(Seq::empty() + steps_stmt(s@, false) =~= steps_stmt(s@, false));
    out
}

fn lvalue_steps(l: &LValue) -> (r: Vec<Step>)
    ensures
        views(r@) == steps_lvalue(l@, false),
{
    proof {
        lvalue_parts(*l);
    }
    match l {
        LValue::Index(_, x, _) => expr_steps(x),
        LValue::IndexField(_, x, _, _) => expr_steps(x),
        _ => {
            let out: Vec<Step> = Vec::new();
            assert(views(out@) =~= Seq::empty());
            out
        },
    }
}

/// A nested loop that never raises the measure, whichever way it is left.
fn is_calm(m: &Expr, b: &Block) -> (r: bool)
    ensures
        r == (harmless(falls(m@, b@)) && leaves_well(m@, b@, 0)),
    decreases block_size(b@), 2int,
{
    is_harmless(&falls_through(m, b)) && all_leave_well(m, b, &BigInt::from_i128(0))
}

fn fall_of(m: &Expr, s: &Stmt, acc: &BigInt) -> (r: Option<Option<BigInt>>)
    ensures
        opt_opt_big(r) == falls_stmt(m@, s@, acc@),
    decreases stmt_size(s@), 0int,
{
    proof {
        stmt_parts(*s);
        stmt_shrinks(s@);
    }
    match s {
        Stmt::Break => Some(None),
        Stmt::Return(_) => Some(None),
        Stmt::Assign(lv, op, e) => {
            proof {
                lvalue_parts(*lv);
            }
            if any_strays(m, &lvalue_steps(lv)) || any_strays(m, &expr_steps(e)) {
                return None;
            }
            match lv {
                LValue::Var(x) => match slope_of(m, *x) {
                    Some(k) => {
                        if k.is_zero() {
                            Some(Some(acc.copy()))
                        } else {
                            match step_of(*x, op, e) {
                                Some(c) => Some(Some(acc.minus(&k.times(&BigInt::from_i128(c))))),
                                None => None,
                            }
                        }
                    },
                    None => None,
                },
                _ => Some(Some(acc.copy())),
            }
        },
        Stmt::Expr(e) => falls_in(m, e, acc),
        Stmt::For { var, start, end, body } => {
            if any_strays(m, &expr_steps(start)) || any_strays(m, &expr_steps(end)) {
                None
            } else if is_calm(m, body) {
                Some(Some(acc.copy()))
            } else {
                None
            }
        },
        Stmt::While { cond, decreasing, body, line } => {
            if any_strays(m, &expr_steps(cond)) || any_strays(m, &opt_steps(decreasing)) {
                None
            } else if is_calm(m, body) {
                Some(Some(acc.copy()))
            } else {
                None
            }
        },
        _ => {
            if any_strays(m, &stmt_steps(s)) {
                None
            } else {
                Some(Some(acc.copy()))
            }
        },
    }
}

#[verifier::loop_isolation(false)]
fn falls_through(m: &Expr, b: &Block) -> (r: Option<Option<BigInt>>)
    ensures
        opt_opt_big(r) == falls(m@, b@),
    decreases block_size(b@), 1int,
{
    let ghost v = b@.stmts;
    proof {
        block_lists(*b);
        block_shrinks(b@);
        assert(v.take(0) =~= Seq::empty());
    }
    let mut acc = BigInt::from_i128(0);
    let mut i: usize = 0;
    while i < b.stmts.len()
        invariant
            i <= b.stmts@.len(),
            falls_list(m@, v.take(i as int)) == Some(Some(acc@)),
        decreases b.stmts@.len() - i,
    {
        let s = &b.stmts[i];
        proof {
            stmts_shrink(v, i as int);
            assert(v.take(i + 1).drop_last() =~= v.take(i as int));
            assert(v[i as int] == s@);
            assert(v.take(i + 1).last() == s@);
        }
        let next = fall_of(m, s, &acc);
        assert(opt_opt_big(next) == falls_list(m@, v.take(i + 1)));
        match next {
            Some(Some(d)) => {
                acc = d;
            },
            Some(None) => {
                proof {
                    left_for_good(m@, v, i + 1);
                }
                return Some(None);
            },
            None => {
                proof {
                    left_for_good(m@, v, i + 1);
                }
                return None;
            },
        }
        i += 1;
    }
    assert(v.take(i as int) =~= v);
    match &b.tail {
        Some(t) => falls_in(m, t, &acc),
        None => Some(Some(acc)),
    }
}

#[verifier::loop_isolation(false)]
fn all_leave_well(m: &Expr, b: &Block, acc: &BigInt) -> (r: bool)
    ensures
        r == leaves_well(m@, b@, acc@),
    decreases block_size(b@), 1int,
{
    let ghost v = b@.stmts;
    proof {
        block_lists(*b);
        block_shrinks(b@);
        assert(v.take(0) =~= Seq::empty());
    }
    let mut fall = BigInt::from_i128(0);
    let mut i: usize = 0;
    while i < b.stmts.len()
        invariant
            i <= b.stmts@.len(),
            falls_list(m@, v.take(i as int)) == Some(Some(fall@)),
            leaves_list(m@, v.take(i as int), acc@),
        decreases b.stmts@.len() - i,
    {
        let s = &b.stmts[i];
        proof {
            stmts_shrink(v, i as int);
            assert(v.take(i + 1).drop_last() =~= v.take(i as int));
            assert(v[i as int] == s@);
            assert(v.take(i + 1).last() == s@);
        }
        if !leaves_by(m, s, &acc.plus(&fall)) {
            proof {
                left_badly(m@, v, acc@, i + 1);
            }
            return false;
        }
        let next = fall_of(m, s, &fall);
        assert(opt_opt_big(next) == falls_list(m@, v.take(i + 1)));
        match next {
            Some(Some(d)) => {
                fall = d;
            },
            _ => {
                proof {
                    left_for_good(m@, v, i + 1);
                    left_already(m@, v, acc@, i + 1);
                }
                return true;
            },
        }
        i += 1;
    }
    assert(v.take(i as int) =~= v);
    match &b.tail {
        Some(t) => leaves_in(m, t, &acc.plus(&fall)),
        None => true,
    }
}

proof fn left_badly(m: ExprV, s: Seq<StmtV>, acc: int, i: int)
    requires
        0 <= i <= s.len(),
        !leaves_list(m, s.take(i), acc),
    ensures
        !leaves_list(m, s, acc),
    decreases s.len() - i,
{
    if i == s.len() {
        assert(s.take(i) =~= s);
    } else {
        assert(s.take(i + 1).drop_last() =~= s.take(i));
        left_badly(m, s, acc, i + 1);
    }
}

/// Once no path goes on, no later one leaves.
proof fn left_already(m: ExprV, s: Seq<StmtV>, acc: int, i: int)
    requires
        0 <= i <= s.len(),
        leaves_list(m, s.take(i), acc),
        !(falls_list(m, s.take(i)) is Some && falls_list(m, s.take(i))->0 is Some),
    ensures
        leaves_list(m, s, acc),
    decreases s.len() - i,
{
    if i == s.len() {
        assert(s.take(i) =~= s);
    } else {
        assert(s.take(i + 1).drop_last() =~= s.take(i));
        left_already(m, s, acc, i + 1);
    }
}

fn leaves_by(m: &Expr, s: &Stmt, acc: &BigInt) -> (r: bool)
    ensures
        r == leaves_stmt(m@, s@, acc@),
    decreases stmt_size(s@), 0int,
{
    proof {
        stmt_parts(*s);
        stmt_shrinks(s@);
    }
    match s {
        Stmt::Expr(e) => leaves_in(m, e, acc),
        _ => !any_breaks(&stmt_steps(s)) || !acc.is_negative(),
    }
}

fn leaves_in(m: &Expr, e: &Expr, acc: &BigInt) -> (r: bool)
    ensures
        r == leaves_expr(m@, e@, acc@),
    decreases expr_size(e@), 1int,
{
    proof {
        expr_parts(*e);
        expr_shrinks(e@);
    }
    match &e.kind {
        ExprKind::If(c, t, els) => {
            if any_breaks(&expr_steps(c)) && acc.is_negative() {
                return false;
            }
            if !all_leave_well(m, t, acc) {
                return false;
            }
            match els {
                Some(b) => all_leave_well(m, b, acc),
                None => true,
            }
        },
        _ => !any_breaks(&expr_steps(e)) || !acc.is_negative(),
    }
}

/// Once no path goes on, what follows does not matter.
proof fn left_for_good(m: ExprV, s: Seq<StmtV>, i: int)
    requires
        0 <= i <= s.len(),
        !(falls_list(m, s.take(i)) is Some && falls_list(m, s.take(i))->0 is Some),
    ensures
        falls_list(m, s) == falls_list(m, s.take(i)),
    decreases s.len() - i,
{
    if i == s.len() {
        assert(s.take(i) =~= s);
    } else {
        assert(s.take(i + 1).drop_last() =~= s.take(i));
        left_for_good(m, s, i + 1);
    }
}

fn is_harmless(d: &Option<Option<BigInt>>) -> (r: bool)
    ensures
        r == harmless(opt_opt_big(*d)),
{
    match d {
        Some(Some(x)) => !x.is_negative(),
        Some(None) => true,
        None => false,
    }
}

fn falls_in(m: &Expr, e: &Expr, acc: &BigInt) -> (r: Option<Option<BigInt>>)
    ensures
        opt_opt_big(r) == falls_expr(m@, e@, acc@),
    decreases expr_size(e@), 1int,
{
    proof {
        expr_parts(*e);
        expr_shrinks(e@);
    }
    match &e.kind {
        ExprKind::If(c, t, els) => {
            if any_strays(m, &expr_steps(c)) {
                return None;
            }
            let a = falls_through(m, t);
            let b = match els {
                Some(x) => falls_through(m, x),
                None => Some(Some(BigInt::from_i128(0))),
            };
            match (a, b) {
                (Some(a), Some(b)) => match (a, b) {
                    (None, None) => Some(None),
                    (Some(x), None) => Some(Some(acc.plus(&x))),
                    (None, Some(y)) => Some(Some(acc.plus(&y))),
                    (Some(x), Some(y)) => {
                        if x.minus(&y).is_negative() {
                            Some(Some(acc.plus(&x)))
                        } else {
                            Some(Some(acc.plus(&y)))
                        }
                    },
                },
                _ => None,
            }
        },
        _ => {
            if any_strays(m, &expr_steps(e)) {
                None
            } else {
                Some(Some(acc.copy()))
            }
        },
    }
}

/// The least amount the measure `m` decreases along any path through `body`.
pub fn min_decrease(m: &Expr, cond: &Expr, body: &Block) -> (r: Option<BigInt>)
    ensures
        opt_big(r) == least_fall(m@, cond@, body@),
{
    match slope_of(m, 0) {
        None => None,
        Some(_) => {
            if any_strays(m, &expr_steps(cond)) {
                return None;
            }
            match falls_through(m, body) {
                None => None,
                Some(Some(d)) => Some(d),
                Some(None) => Some(BigInt::from_i128(1_000_000)),
            }
        },
    }
}

} // verus!
