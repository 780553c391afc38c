//! What the compiler read, as numbers: the kinds of the tokens, and the kinds of the nodes of the
//! tree depth-first — what another lexer and parser of the language are checked against.

use vstd::prelude::*;
use crate::ast::{
    block_lists, expr_parts, fields_v, stmt_parts, type_parts, views, Block, BlockV, Expr, ExprKind, ExprV, FieldDefV,
    Func, FuncV, KindV, ParamV, Program, ProgramV, Stmt, StmtV, StructDef, StructDefV, TypeExpr, TypeV,
};
use crate::lex::{Tok, TokV};
use crate::treesize::{
    block_shrinks, block_size, expr_shrinks, expr_size, exprs_shrink, exprs_size, fields_shrink, fields_size,
    stmt_shrinks, stmt_size, stmts_shrink, type_shrinks, type_size,
};

verus! {

pub type Kinds = Result<Seq<i32>, Seq<char>>;

/// One list of kinds after another; the first that fails is what is said.
pub open spec fn and_also(a: Kinds, b: Kinds) -> Kinds {
    match (a, b) {
        (Ok(x), Ok(y)) => Ok(x + y),
        (Err(e), _) => Err(e),
        (_, Err(e)) => Err(e),
    }
}

pub open spec fn headed(k: i32, a: Kinds) -> Kinds {
    and_also(Ok(seq![k]), a)
}

pub open spec fn just(k: i32) -> Kinds {
    Ok(seq![k])
}

pub open spec fn k_type(t: TypeV) -> Kinds
    decreases t,
{
    match t {
        TypeV::Named(_) => just(100),
        TypeV::Unit => just(101),
        TypeV::Array(e, n) => headed(102, and_also(k_type(*e), k_expr(*n))),
        TypeV::Slice(e, _) => headed(103, k_type(*e)),
        TypeV::Owned(e) => headed(104, k_type(*e)),
    }
}

pub open spec fn k_expr(e: ExprV) -> Kinds
    decreases e,
{
    match e.kind {
        KindV::Int(_) => just(60),
        KindV::Float(_) => just(61),
        KindV::Bool(_) => just(62),
        KindV::Byte(_) => just(63),
        KindV::Bytes(_) => just(64),
        KindV::Var(_) => just(65),
        KindV::Binary(_, l, r) => headed(66, and_also(k_expr(*l), k_expr(*r))),
        KindV::Unary(_, a) => headed(67, k_expr(*a)),
        KindV::Index(b, i) => headed(68, and_also(k_expr(*b), k_expr(*i))),
        KindV::Field(b, _) => headed(69, k_expr(*b)),
        KindV::StructLit(_, fields) => headed(70, k_fields(fields)),
        KindV::Call(_, args) => headed(71, k_exprs(args)),
        KindV::MethodCall(r, m, args) => if m == "len"@ && args.len() == 0 {
            headed(72, k_expr(*r))
        } else {
            Err("a method call or chain"@)
        },
        KindV::Ref(a, _) => headed(73, k_expr(*a)),
        KindV::Cast(a, t) => headed(74, and_also(k_expr(*a), k_type(t))),
        KindV::If(c, t, els) => headed(
            75,
            and_also(
                and_also(k_expr(*c), k_block(t)),
                match els {
                    Some(b) => k_block(b),
                    None => Ok(Seq::empty()),
                },
            ),
        ),
        KindV::Block(b) => k_block(b),
        KindV::ArrayLit(es) => headed(77, k_exprs(es)),
        KindV::ArrayRepeat(x, n) => headed(78, and_also(k_expr(*x), k_expr(*n))),
        KindV::Lambda(_, _) => Err("a closure"@),
        KindV::Comprehension { elem, var, source, cond } => Err("a comprehension"@),
    }
}

pub open spec fn k_exprs(s: Seq<ExprV>) -> Kinds
    decreases s,
{
    if s.len() == 0 {
        Ok(Seq::empty())
    } else {
        and_also(k_exprs(s.drop_last()), k_expr(s.last()))
    }
}

pub open spec fn k_fields(s: Seq<(Seq<char>, ExprV)>) -> Kinds
    decreases s,
{
    if s.len() == 0 {
        Ok(Seq::empty())
    } else {
        and_also(k_fields(s.drop_last()), headed(114, k_expr(s.last().1)))
    }
}

pub open spec fn k_block(b: BlockV) -> Kinds
    decreases b,
{
    headed(
        76,
        and_also(
            k_stmts(b.stmts),
            match b.tail {
                Some(t) => k_expr(*t),
                None => Ok(Seq::empty()),
            },
        ),
    )
}

pub open spec fn k_stmts(s: Seq<StmtV>) -> Kinds
    decreases s,
{
    if s.len() == 0 {
        Ok(Seq::empty())
    } else {
        and_also(k_stmts(s.drop_last()), k_stmt(s.last()))
    }
}

pub open spec fn k_stmt(s: StmtV) -> Kinds
    decreases s,
{
    match s {
        StmtV::Let { name, mutable, ty, init, line, col } => headed(
            90,
            and_also(
                match ty {
                    Some(t) => k_type(t),
                    None => Ok(Seq::empty()),
                },
                k_expr(init),
            ),
        ),
        StmtV::Assign { target, op, value, line, col } => headed(91, and_also(k_expr(target), k_expr(value))),
        StmtV::For { var, start, end, body, line, col } => headed(
            92,
            and_also(and_also(k_expr(start), k_expr(end)), k_block(body)),
        ),
        StmtV::While { cond, decreasing, body, line, col } => headed(
            93,
            and_also(
                and_also(
                    k_expr(cond),
                    match decreasing {
                        Some(d) => k_expr(d),
                        None => Ok(Seq::empty()),
                    },
                ),
                k_block(body),
            ),
        ),
        StmtV::Break(_, _) => just(94),
        StmtV::Expr(e) => headed(95, k_expr(e)),
        StmtV::Return(e, _, _) => headed(
            96,
            match e {
                Some(x) => k_expr(x),
                None => Ok(Seq::empty()),
            },
        ),
    }
}

pub open spec fn k_params(s: Seq<ParamV>) -> Kinds
    decreases s.len(),
{
    if s.len() == 0 {
        Ok(Seq::empty())
    } else {
        and_also(k_params(s.drop_last()), headed(111, k_type(s.last().ty)))
    }
}

pub open spec fn k_func(f: FuncV) -> Kinds {
    if f.asserts.len() != 0 {
        Err("a `#[cost(...)]` attribute"@)
    } else {
        let head = and_also(
            k_params(f.params),
            if f.ret is Unit {
                Ok(Seq::empty())
            } else {
                k_type(f.ret)
            },
        );
        match f.body {
            None => headed(116, head),
            Some(b) => headed(110, and_also(head, k_block(b))),
        }
    }
}

pub open spec fn k_struct_fields(s: Seq<FieldDefV>) -> Kinds
    decreases s.len(),
{
    if s.len() == 0 {
        Ok(Seq::empty())
    } else {
        and_also(k_struct_fields(s.drop_last()), headed(113, k_type(s.last().ty)))
    }
}

pub open spec fn k_struct(d: StructDefV) -> Kinds {
    if d.layout is Some {
        Err("a `#[layout(...)]` attribute"@)
    } else {
        headed(112, k_struct_fields(d.fields))
    }
}

/// A top-level item: a function or a struct, with its line.
pub struct ItemV {
    pub line: u32,
    pub is_struct: bool,
    pub at: int,
}

/// The item put behind those that start no later.
pub open spec fn item_behind(s: Seq<ItemV>, x: ItemV) -> Seq<ItemV>
    decreases s.len(),
{
    if s.len() > 0 && x.line < s.last().line {
        item_behind(s.drop_last(), x).push(s.last())
    } else {
        s.push(x)
    }
}

pub open spec fn funcs_in_order(p: ProgramV, n: nat) -> Seq<ItemV>
    decreases n,
{
    if n == 0 {
        Seq::empty()
    } else {
        item_behind(funcs_in_order(p, (n - 1) as nat), ItemV { line: p.funcs[n - 1].line, is_struct: false, at: n - 1 })
    }
}

/// The items in source order: a program holds its functions and structs apart.
pub open spec fn items_in_order(p: ProgramV, n: nat) -> Seq<ItemV>
    decreases n,
{
    if n == 0 {
        funcs_in_order(p, p.funcs.len())
    } else {
        item_behind(items_in_order(p, (n - 1) as nat), ItemV { line: p.structs[n - 1].line, is_struct: true, at: n - 1 })
    }
}

pub open spec fn k_items(p: ProgramV, s: Seq<ItemV>) -> Kinds
    decreases s.len(),
{
    if s.len() == 0 {
        Ok(Seq::empty())
    } else {
        and_also(
            k_items(p, s.drop_last()),
            if s.last().is_struct {
                k_struct(p.structs[s.last().at])
            } else {
                k_func(p.funcs[s.last().at])
            },
        )
    }
}

/// The kinds of a program's nodes.
pub open spec fn k_program(p: ProgramV) -> Kinds {
    k_items(p, items_in_order(p, p.structs.len()))
}

// ---- the computation ----

pub open spec fn kinds_of(r: Result<Vec<i32>, String>) -> Kinds {
    match r {
        Ok(v) => Ok(v@),
        Err(e) => Err(e@),
    }
}

fn after(a: Result<Vec<i32>, String>, b: Result<Vec<i32>, String>) -> (r: Result<Vec<i32>, String>)
    ensures
        kinds_of(r) == and_also(kinds_of(a), kinds_of(b)),
{
    match a {
        Err(e) => Err(e),
        Ok(x) => match b {
            Err(e) => Err(e),
            Ok(y) => {
                let mut out = x;
                let mut more = y;
                let ghost xv = out@;
                let ghost yv = more@;
                out.append(&mut more);
                assert(out@ =~= xv + yv);
                Ok(out)
            },
        },
    }
}

fn one(k: i32) -> (r: Result<Vec<i32>, String>)
    ensures
        kinds_of(r) == just(k),
{
    let mut v: Vec<i32> = Vec::new();
    v.push(k);
    assert(v@ =~= seq![k]);
    Ok(v)
}

fn none() -> (r: Result<Vec<i32>, String>)
    ensures
        kinds_of(r) == Ok::<Seq<i32>, Seq<char>>(Seq::empty()),
{
    let v: Vec<i32> = Vec::new();
    assert(v@ =~= Seq::empty());
    Ok(v)
}

fn under(k: i32, a: Result<Vec<i32>, String>) -> (r: Result<Vec<i32>, String>)
    ensures
        kinds_of(r) == headed(k, kinds_of(a)),
{
    after(one(k), a)
}

fn dump_type(t: &TypeExpr) -> (r: Result<Vec<i32>, String>)
    ensures
        kinds_of(r) == k_type(t@),
    decreases type_size(t@), 1int,
{
    proof {
        type_parts(*t);
        type_shrinks(t@);
    }
    match t {
        TypeExpr::Named(_) => one(100),
        TypeExpr::Unit => one(101),
        TypeExpr::Array(e, n) => under(102, after(dump_type(e), dump_expr(n))),
        TypeExpr::Slice(e, _) => under(103, dump_type(e)),
        TypeExpr::Owned(e) => under(104, dump_type(e)),
    }
}

fn dump_expr(e: &Expr) -> (r: Result<Vec<i32>, String>)
    ensures
        kinds_of(r) == k_expr(e@),
    decreases expr_size(e@), 1int,
{
    proof {
        expr_parts(*e);
        expr_shrinks(e@);
    }
    match &e.kind {
        ExprKind::Int(_) => one(60),
        ExprKind::Float(_) => one(61),
        ExprKind::Bool(_) => one(62),
        ExprKind::Byte(_) => one(63),
        ExprKind::Bytes(_) => one(64),
        ExprKind::Var(_) => one(65),
        ExprKind::Binary(_, l, r) => under(66, after(dump_expr(l), dump_expr(r))),
        ExprKind::Unary(_, a) => under(67, dump_expr(a)),
        ExprKind::Index(b, i) => under(68, after(dump_expr(b), dump_expr(i))),
        ExprKind::Field(b, _) => under(69, dump_expr(b)),
        ExprKind::StructLit(_, fields) => under(70, dump_fields(fields)),
        ExprKind::Call(_, args) => under(71, dump_exprs(args)),
        ExprKind::MethodCall(r, m, args) => {
            if *m == "len".to_owned() && args.len() == 0 {
                under(72, dump_expr(r))
            } else {
                Err("a method call or chain".to_owned())
            }
        },
        ExprKind::Ref(a, _) => under(73, dump_expr(a)),
        ExprKind::Cast(a, t) => under(74, after(dump_expr(a), dump_type(t))),
        ExprKind::If(c, t, els) => {
            let other = match els {
                Some(b) => dump_block(b),
                None => none(),
            };
            under(75, after(after(dump_expr(c), dump_block(t)), other))
        },
        ExprKind::Block(b) => dump_block(b),
        ExprKind::ArrayLit(es) => under(77, dump_exprs(es)),
        ExprKind::ArrayRepeat(x, n) => under(78, after(dump_expr(x), dump_expr(n))),
        ExprKind::Lambda(_, _) => Err("a closure".to_owned()),
        ExprKind::Comprehension { elem, var, source, cond } => Err("a comprehension".to_owned()),
    }
}

#[verifier::loop_isolation(false)]
fn dump_exprs(s: &Vec<Expr>) -> (r: Result<Vec<i32>, String>)
    ensures
        kinds_of(r) == k_exprs(views(s@)),
    decreases exprs_size(views(s@)), 1int,
{
    let ghost v = views(s@);
    let mut acc = none();
    let mut i: usize = 0;
    assert(v.take(0) =~= Seq::empty());
    while i < s.len()
        invariant
            i <= s@.len(),
            kinds_of(acc) == k_exprs(v.take(i as int)),
        decreases s@.len() - i,
    {
        proof {
            exprs_shrink(v, i as int);
            assert(v.take(i + 1).drop_last() =~= v.take(i as int));
            assert(v.take(i + 1).last() == s@[i as int]@);
        }
        acc = after(acc, dump_expr(&s[i]));
        i += 1;
    }
    assert(v.take(i as int) =~= v);
    acc
}

#[verifier::loop_isolation(false)]
fn dump_fields(s: &Vec<(String, Expr)>) -> (r: Result<Vec<i32>, String>)
    ensures
        kinds_of(r) == k_fields(fields_v(s@)),
    decreases fields_size(fields_v(s@)), 1int,
{
    let ghost v = fields_v(s@);
    let mut acc = none();
    let mut i: usize = 0;
    assert(v.take(0) =~= Seq::empty());
    while i < s.len()
        invariant
            i <= s@.len(),
            kinds_of(acc) == k_fields(v.take(i as int)),
        decreases s@.len() - i,
    {
        proof {
            fields_shrink(v, i as int);
            assert(v.take(i + 1).drop_last() =~= v.take(i as int));
            assert(v.take(i + 1).last() == v[i as int]);
            assert(v[i as int].1 == s@[i as int].1@);
        }
        acc = after(acc, under(114, dump_expr(&s[i].1)));
        i += 1;
    }
    assert(v.take(i as int) =~= v);
    acc
}

#[verifier::loop_isolation(false)]
fn dump_block(b: &Block) -> (r: Result<Vec<i32>, String>)
    ensures
        kinds_of(r) == k_block(b@),
    decreases block_size(b@), 1int,
{
    let ghost v = b@.stmts;
    proof {
        block_lists(*b);
        block_shrinks(b@);
        assert(v.take(0) =~= Seq::empty());
    }
    let mut acc = none();
    let mut i: usize = 0;
    while i < b.stmts.len()
        invariant
            i <= b.stmts@.len(),
            kinds_of(acc) == k_stmts(v.take(i as int)),
        decreases b.stmts@.len() - i,
    {
        proof {
            stmts_shrink(v, i as int);
            assert(v.take(i + 1).drop_last() =~= v.take(i as int));
            assert(v.take(i + 1).last() == b.stmts@[i as int]@);
        }
        acc = after(acc, dump_stmt(&b.stmts[i]));
        i += 1;
    }
    assert(v.take(i as int) =~= v);
    let tail = match &b.tail {
        Some(t) => dump_expr(t),
        None => none(),
    };
    under(76, after(acc, tail))
}

fn dump_stmt(s: &Stmt) -> (r: Result<Vec<i32>, String>)
    ensures
        kinds_of(r) == k_stmt(s@),
    decreases stmt_size(s@), 1int,
{
    proof {
        stmt_parts(*s);
        stmt_shrinks(s@);
    }
    match s {
        Stmt::Let { name, mutable, ty, init, line, col } => {
            let t = match ty {
                Some(t) => dump_type(t),
                None => none(),
            };
            under(90, after(t, dump_expr(init)))
        },
        Stmt::Assign { target, op, value, line, col } => under(91, after(dump_expr(target), dump_expr(value))),
        Stmt::For { var, start, end, body, line, col } => under(
            92,
            after(after(dump_expr(start), dump_expr(end)), dump_block(body)),
        ),
        Stmt::While { cond, decreasing, body, line, col } => {
            let d = match decreasing {
                Some(d) => dump_expr(d),
                None => none(),
            };
            under(93, after(after(dump_expr(cond), d), dump_block(body)))
        },
        Stmt::Break(_, _) => one(94),
        Stmt::Expr(e) => under(95, dump_expr(e)),
        Stmt::Return(e, _, _) => {
            let x = match e {
                Some(x) => dump_expr(x),
                None => none(),
            };
            under(96, x)
        },
    }
}

#[verifier::loop_isolation(false)]
fn dump_func(f: &Func) -> (r: Result<Vec<i32>, String>)
    ensures
        kinds_of(r) == k_func(f@),
{
    if f.asserts.len() != 0 {
        return Err("a `#[cost(...)]` attribute".to_owned());
    }
    let ghost v = f@.params;
    let mut acc = none();
    let mut i: usize = 0;
    assert(v.take(0) =~= Seq::empty());
    while i < f.params.len()
        invariant
            i <= f.params@.len(),
            kinds_of(acc) == k_params(v.take(i as int)),
        decreases f.params@.len() - i,
    {
        proof {
            assert(v.take(i + 1).drop_last() =~= v.take(i as int));
            assert(v.take(i + 1).last() == f.params@[i as int]@);
        }
        acc = after(acc, under(111, dump_type(&f.params[i].ty)));
        i += 1;
    }
    assert(v.take(i as int) =~= v);
    proof {
        type_parts(f.ret);
    }
    let ret = if matches!(f.ret, TypeExpr::Unit) {
        none()
    } else {
        dump_type(&f.ret)
    };
    let head = after(acc, ret);
    match &f.body {
        None => under(116, head),
        Some(b) => under(110, after(head, dump_block(b))),
    }
}

#[verifier::loop_isolation(false)]
fn dump_struct(d: &StructDef) -> (r: Result<Vec<i32>, String>)
    ensures
        kinds_of(r) == k_struct(d@),
{
    if d.layout.is_some() {
        return Err("a `#[layout(...)]` attribute".to_owned());
    }
    let ghost v = d@.fields;
    let mut acc = none();
    let mut i: usize = 0;
    assert(v.take(0) =~= Seq::empty());
    while i < d.fields.len()
        invariant
            i <= d.fields@.len(),
            kinds_of(acc) == k_struct_fields(v.take(i as int)),
        decreases d.fields@.len() - i,
    {
        proof {
            assert(v.take(i + 1).drop_last() =~= v.take(i as int));
            assert(v.take(i + 1).last() == d.fields@[i as int]@);
        }
        acc = after(acc, under(113, dump_type(&d.fields[i].ty)));
        i += 1;
    }
    assert(v.take(i as int) =~= v);
    under(112, acc)
}

/// A top-level item: a function or a struct, with its line.
struct Item {
    line: u32,
    is_struct: bool,
    at: usize,
}

impl Item {
    spec fn v(self) -> ItemV {
        ItemV { line: self.line, is_struct: self.is_struct, at: self.at as int }
    }
}

spec fn items_v(s: Seq<Item>) -> Seq<ItemV> {
    Seq::new(s.len(), |i: int| s[i].v())
}

#[verifier::loop_isolation(false)]
fn put_item(s: &mut Vec<Item>, x: Item)
    ensures
        items_v(final(s)@) == item_behind(items_v(old(s)@), x.v()),
{
    let ghost all = items_v(s@);
    let ghost start = s@;
    let n: usize = s.len();
    let mut i: usize = n;
    proof {
        assert(all.take(n as int) =~= all);
        assert(item_behind(all, x.v()) =~= item_behind(all.take(n as int), x.v()) + all.skip(n as int));
    }
    while i > 0 && x.line < s[i - 1].line
        invariant
            i <= n,
            s@ == start,
            item_behind(all, x.v()) == item_behind(all.take(i as int), x.v()) + all.skip(i as int),
        decreases i,
    {
        proof {
            assert(all.take(i as int).last() == s@[i - 1].v());
            assert(all.take(i as int).drop_last() =~= all.take(i - 1));
            assert(item_behind(all.take(i - 1), x.v()).push(all[i - 1]) + all.skip(i as int) =~= item_behind(
                all.take(i - 1),
                x.v(),
            ) + all.skip(i - 1));
        }
        i -= 1;
    }
    proof {
        if i > 0 {
            assert(all.take(i as int).last() == s@[i - 1].v());
        }
    }
    let ghost xv = x.v();
    s.insert(i, x);
    assert(items_v(s@) =~= all.take(i as int).push(xv) + all.skip(i as int));
}

proof fn behind_keeps(s: Seq<ItemV>, x: ItemV, ok: spec_fn(ItemV) -> bool)
    requires
        forall|i: int| 0 <= i < s.len() ==> ok(#[trigger] s[i]),
        ok(x),
    ensures
        forall|i: int| 0 <= i < item_behind(s, x).len() ==> ok(#[trigger] item_behind(s, x)[i]),
    decreases s.len(),
{
    if s.len() > 0 && x.line < s.last().line {
        let t = item_behind(s.drop_last(), x);
        assert forall|i: int| 0 <= i < s.drop_last().len() implies ok(#[trigger] s.drop_last()[i]) by {
            assert(s.drop_last()[i] == s[i]);
        }
        behind_keeps(s.drop_last(), x, ok);
        assert forall|i: int| 0 <= i < item_behind(s, x).len() implies ok(#[trigger] item_behind(s, x)[i]) by {
            if i < t.len() {
                assert(item_behind(s, x)[i] == t[i]);
            } else {
                assert(item_behind(s, x)[i] == s[s.len() - 1]);
            }
        }
    } else {
        assert forall|i: int| 0 <= i < item_behind(s, x).len() implies ok(#[trigger] item_behind(s, x)[i]) by {
            if i < s.len() {
                assert(item_behind(s, x)[i] == s[i]);
            } else {
                assert(item_behind(s, x)[i] == x);
            }
        }
    }
}

/// The kinds of a program's nodes: the items in source order, each depth-first. What another
/// parser does not take — a chain, a closure, a comprehension, an attribute — is said instead.
#[verifier::loop_isolation(false)]
pub fn program(p: &Program) -> (r: Result<Vec<i32>, String>)
    ensures
        kinds_of(r) == k_program(p@),
{
    let ghost pv = p@;
    let ghost ok = |x: ItemV|
        0 <= x.at && (if x.is_struct {
            x.at < p.structs@.len()
        } else {
            x.at < p.funcs@.len()
        });
    let mut items: Vec<Item> = Vec::new();
    let mut n: usize = 0;
    assert(items_v(items@) =~= Seq::empty());
    while n < p.funcs.len()
        invariant
            n <= p.funcs@.len(),
            items_v(items@) == funcs_in_order(pv, n as nat),
            forall|i: int| 0 <= i < items_v(items@).len() ==> ok(#[trigger] items_v(items@)[i]),
        decreases p.funcs@.len() - n,
    {
        assert(pv.funcs[n as int] == p.funcs@[n as int]@);
        let x = Item { line: p.funcs[n].line, is_struct: false, at: n };
        proof {
            behind_keeps(items_v(items@), x.v(), ok);
        }
        put_item(&mut items, x);
        n += 1;
    }
    let mut n: usize = 0;
    while n < p.structs.len()
        invariant
            n <= p.structs@.len(),
            items_v(items@) == items_in_order(pv, n as nat),
            forall|i: int| 0 <= i < items_v(items@).len() ==> ok(#[trigger] items_v(items@)[i]),
        decreases p.structs@.len() - n,
    {
        assert(pv.structs[n as int] == p.structs@[n as int]@);
        let x = Item { line: p.structs[n].line, is_struct: true, at: n };
        proof {
            behind_keeps(items_v(items@), x.v(), ok);
        }
        put_item(&mut items, x);
        n += 1;
    }
    let ghost iv = items_v(items@);
    let mut acc = none();
    let mut i: usize = 0;
    assert(iv.take(0) =~= Seq::empty());
    while i < items.len()
        invariant
            i <= items@.len(),
            kinds_of(acc) == k_items(pv, iv.take(i as int)),
        decreases items@.len() - i,
    {
        let x = &items[i];
        proof {
            assert(ok(iv[i as int]));
            assert(iv.take(i + 1).drop_last() =~= iv.take(i as int));
            assert(iv.take(i + 1).last() == x.v());
        }
        let k = if x.is_struct {
            assert(pv.structs[x.at as int] == p.structs@[x.at as int]@);
            dump_struct(&p.structs[x.at])
        } else {
            assert(pv.funcs[x.at as int] == p.funcs@[x.at as int]@);
            dump_func(&p.funcs[x.at])
        };
        acc = after(acc, k);
        i += 1;
    }
    assert(iv.take(i as int) =~= iv);
    acc
}

// ---- tokens ----

/// The number of a token's kind.
pub open spec fn tok_number(t: TokV) -> int {
    match t {
        TokV::Ident(_) => 0,
        TokV::Int(_) => 1,
        TokV::Float(_) => 2,
        TokV::Byte(_) => 3,
        TokV::Bytes(_) => 4,
        TokV::Str(_) => 5,
        TokV::Fn => 6,
        TokV::Let => 7,
        TokV::Mut => 8,
        TokV::If => 9,
        TokV::Else => 10,
        TokV::For => 11,
        TokV::In => 12,
        TokV::Return => 13,
        TokV::True => 14,
        TokV::False => 15,
        TokV::As => 16,
        TokV::While => 17,
        TokV::Break => 18,
        TokV::Decreasing => 19,
        TokV::Extern => 20,
        TokV::Uses => 21,
        TokV::Struct => 22,
        TokV::LParen => 23,
        TokV::RParen => 24,
        TokV::LBracket => 25,
        TokV::RBracket => 26,
        TokV::LBrace => 27,
        TokV::RBrace => 28,
        TokV::Comma => 29,
        TokV::Semi => 30,
        TokV::Colon => 31,
        TokV::Arrow => 32,
        TokV::Dot => 33,
        TokV::DotDot => 34,
        TokV::Eq => 35,
        TokV::EqEq => 36,
        TokV::Ne => 37,
        TokV::Lt => 38,
        TokV::Le => 39,
        TokV::Gt => 40,
        TokV::Ge => 41,
        TokV::Plus => 42,
        TokV::Minus => 43,
        TokV::Star => 44,
        TokV::Slash => 45,
        TokV::Percent => 46,
        TokV::PlusEq => 47,
        TokV::MinusEq => 48,
        TokV::StarEq => 49,
        TokV::SlashEq => 50,
        TokV::Amp => 51,
        TokV::AmpAmp => 52,
        TokV::Pipe => 53,
        TokV::PipePipe => 54,
        TokV::Bang => 55,
        TokV::Hash => 56,
        TokV::Eof => 57,
    }
}

/// The number of a token's kind.
pub fn lex_kind_number(t: &Tok) -> (r: i32)
    ensures
        r == tok_number(t@),
{
    match t {
        Tok::Ident(_) => 0,
        Tok::Int(_) => 1,
        Tok::Float(_) => 2,
        Tok::Byte(_) => 3,
        Tok::Bytes(_) => 4,
        Tok::Str(_) => 5,
        Tok::Fn => 6,
        Tok::Let => 7,
        Tok::Mut => 8,
        Tok::If => 9,
        Tok::Else => 10,
        Tok::For => 11,
        Tok::In => 12,
        Tok::Return => 13,
        Tok::True => 14,
        Tok::False => 15,
        Tok::As => 16,
        Tok::While => 17,
        Tok::Break => 18,
        Tok::Decreasing => 19,
        Tok::Extern => 20,
        Tok::Uses => 21,
        Tok::Struct => 22,
        Tok::LParen => 23,
        Tok::RParen => 24,
        Tok::LBracket => 25,
        Tok::RBracket => 26,
        Tok::LBrace => 27,
        Tok::RBrace => 28,
        Tok::Comma => 29,
        Tok::Semi => 30,
        Tok::Colon => 31,
        Tok::Arrow => 32,
        Tok::Dot => 33,
        Tok::DotDot => 34,
        Tok::Eq => 35,
        Tok::EqEq => 36,
        Tok::Ne => 37,
        Tok::Lt => 38,
        Tok::Le => 39,
        Tok::Gt => 40,
        Tok::Ge => 41,
        Tok::Plus => 42,
        Tok::Minus => 43,
        Tok::Star => 44,
        Tok::Slash => 45,
        Tok::Percent => 46,
        Tok::PlusEq => 47,
        Tok::MinusEq => 48,
        Tok::StarEq => 49,
        Tok::SlashEq => 50,
        Tok::Amp => 51,
        Tok::AmpAmp => 52,
        Tok::Pipe => 53,
        Tok::PipePipe => 54,
        Tok::Bang => 55,
        Tok::Hash => 56,
        Tok::Eof => 57,
    }
}

} // verus!
