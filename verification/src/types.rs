//! Name resolution and type checking in one pass, producing the typed IR.

use vstd::prelude::*;
use crate::ast;
use crate::ast::{views, views_empty, views_push, BinOp, UnOp};
use crate::diag::{diag, Diag, DiagV};
use crate::ir;
use crate::ir::{
    field_index, struct_fields_v, Block, Expr, ExprKind, Func, LValue, Layout, Local, LocalV, Module, Size, SizeInfo,
    Stmt, StructDef, Ty,
};
use crate::num::BigNat;
use crate::text::{cat2, cat3, cat5, cat7, copy_text, show_nat, show_u64, texts};
use crate::treesize::{
    block_shrinks, block_size, expr_shrinks, expr_size, exprs_shrink, exprs_size, fields_shrink, stmt_shrinks,
    stmt_size, stmts_shrink,
};
use crate::typing::{
    all_given, bind_params, binary_type, builtin, byte_exprs, chain_block, chain_first, chain_len, chain_source,
    chain_stages, check_arg, check_assign, check_declared, check_main, check_moved, check_overlap, check_uses, clash,
    declare, declare_fresh, element, field_type, guarded, if_type, keep_best, last_return, leave, local_expr,
    local_of, lookup, mark_moved, merge_moved, missing, mk, moved_at, next_id, none_given, param_ids, ref_type,
    repeat_size, resolve, s_apply, s_assign, s_binary, s_block, s_call, s_call_args, s_cast, s_chain, s_check,
    s_elements, s_expr, s_field, s_fields, s_filter, s_flow, s_fold, s_for, s_func, s_funcs, s_if, s_index,
    s_index_target, s_len, s_let, s_let_build, s_let_list, s_let_repeat, s_let_stmt, s_let_value, s_lit_fields, s_map,
    knot, knot_block, knot_expr, r_block, r_expr, s_min_max, s_param_types, s_params, s_println, s_ref, s_result,
    s_return, s_sigs, s_sink, s_stmt, s_stmts, s_struct_lit, s_structs, s_target, s_unary, s_var, s_while, sig_id,
    start, struct_id, unary_type, unit_block, view_named, view_of, writable, zero_of, Env, Flow, Place, RootUse, SigV,
    Sink, St,
};

verus! {

/// The signature of a function.
struct Sig {
    name: String,
    params: Vec<Ty>,
    ret: Ty,
}

impl View for Sig {
    type V = SigV;

    closed spec fn view(&self) -> SigV {
        SigV { name: self.name@, params: self.params@, ret: self.ret }
    }
}

struct Ctx<'a> {
    sigs: &'a Vec<Sig>,
    structs: &'a Vec<StructDef>,
    locals: Vec<Local>,
    roots: Vec<usize>,
    names: Vec<(String, usize)>,
    sizes: Vec<SizeInfo>,
    moved: Vec<Option<u32>>,
    fresh: BigNat,
}

spec fn names_v(s: Seq<(String, usize)>) -> Seq<(Seq<char>, usize)> {
    Seq::new(s.len(), |i: int| (s[i].0@, s[i].1))
}

/// Every struct that the types name exists, and every field is a scalar.
#[verifier::opaque]
spec fn env_ok(env: Env) -> bool {
    &&& forall|i: int, j: int|
        #![trigger env.sigs[i].params[j]]
        0 <= i < env.sigs.len() && 0 <= j < env.sigs[i].params.len() ==> env.sigs[i].params[j].names_structs(
            env.structs.len() as int,
        )
    &&& forall|i: int| 0 <= i < env.sigs.len() ==> (#[trigger] env.sigs[i]).ret.names_structs(env.structs.len() as int)
    &&& structs_ok(env.structs)
}

spec fn structs_ok(s: Seq<ir::StructDefV>) -> bool {
    forall|i: int, j: int|
        #![trigger s[i].fields[j]]
        0 <= i < s.len() && 0 <= j < s[i].fields.len() ==> s[i].fields[j].1.scalar()
}

/// The ids in the state are those of locals, and the types name structs that exist.
#[verifier::opaque]
spec fn fits(locals: Seq<LocalV>, roots: Seq<usize>, names: Seq<(Seq<char>, usize)>, n: int) -> bool {
    &&& roots.len() == locals.len()
    &&& forall|i: int| 0 <= i < roots.len() ==> (#[trigger] roots[i]) < locals.len()
    &&& forall|i: int| 0 <= i < names.len() ==> (#[trigger] names[i]).1 < locals.len()
    &&& forall|i: int| 0 <= i < locals.len() ==> (#[trigger] locals[i]).ty.names_structs(n)
}

/// Nothing that was known has gone.
spec fn grew(a: St, b: St) -> bool {
    a.locals.len() <= b.locals.len() && a.names.len() <= b.names.len()
}

/// The local that an expression names exists.
spec fn expr_ok(e: ir::ExprV, st: St, n: int) -> bool {
    &&& e.ty.names_structs(n)
    &&& match e.kind {
        ir::KindV::Local(l) => l < st.locals.len(),
        ir::KindV::Len(l) => l < st.locals.len(),
        ir::KindV::Ref(l, _) => l < st.locals.len(),
        _ => true,
    }
}

spec fn ids_ok(vals: Seq<usize>, st: St) -> bool {
    forall|i: int| 0 <= i < vals.len() ==> (#[trigger] vals[i]) < st.locals.len()
}

fn text_is(s: &String, t: &str) -> (r: bool)
    ensures
        r == (s@ == t@),
{
    *s == t.to_owned()
}

/// The struct of that name.
fn find_struct(structs: &Vec<StructDef>, name: &String) -> (r: Option<usize>)
    ensures
        r == struct_id(views(structs@), name@, 0),
        r is Some ==> r->0 < structs@.len(),
{
    let mut i: usize = 0;
    while i < structs.len()
        invariant
            i <= structs@.len(),
            struct_id(views(structs@), name@, 0) == struct_id(views(structs@), name@, i as int),
        decreases structs@.len() - i,
    {
        if structs[i].name == *name {
            return Some(i);
        }
        i += 1;
    }
    None
}

/// The function of that name.
fn find_sig(sigs: &Vec<Sig>, name: &String) -> (r: Option<usize>)
    ensures
        r == sig_id(views(sigs@), name@, 0),
        r is Some ==> r->0 < sigs@.len(),
{
    let mut i: usize = 0;
    while i < sigs.len()
        invariant
            i <= sigs@.len(),
            sig_id(views(sigs@), name@, 0) == sig_id(views(sigs@), name@, i as int),
        decreases sigs@.len() - i,
    {
        if sigs[i].name == *name {
            return Some(i);
        }
        i += 1;
    }
    None
}

/// Only the size-free part of a type expression; sizes are attached by the checker where a
/// value is created.
fn resolve_type(t: &ast::TypeExpr, structs: &Vec<StructDef>, line: u32, col: u32) -> (r: Result<Ty, Diag>)
    ensures
        match r {
            Ok(ty) => resolve(views(structs@), t@, line, col) == Ok::<Ty, DiagV>(ty) && ty.names_structs(
                structs@.len() as int,
            ),
            Err(d) => resolve(views(structs@), t@, line, col) == Err::<Ty, DiagV>(d@),
        },
    decreases t,
{
    proof {
        ast::type_parts(*t);
        reveal_with_fuel(Ty::names_structs, 2);
    }
    match t {
        ast::TypeExpr::Unit => Ok(Ty::Unit),
        ast::TypeExpr::Named(n) => {
            if text_is(n, "i64") {
                Ok(Ty::I64)
            } else if text_is(n, "f64") {
                Ok(Ty::F64)
            } else if text_is(n, "bool") {
                Ok(Ty::Bool)
            } else if text_is(n, "u8") {
                Ok(Ty::U8)
            } else {
                match find_struct(structs, n) {
                    Some(i) => Ok(Ty::Struct(i)),
                    None => Err(diag(line, col, &cat3("unknown type `", n, "`"))),
                }
            }
        },
        ast::TypeExpr::Slice(elem, m) => {
            let e = match resolve_type(elem, structs, line, col) {
                Ok(x) => x,
                Err(d) => {
                    return Err(d);
                },
            };
            if !e.is_value() {
                return Err(diag(line, col, "element type of a slice must be a scalar or a struct"));
            }
            Ok(Ty::Slice(Box::new(e), *m, Size::Const(-1)))
        },
        ast::TypeExpr::Owned(elem) => {
            let e = match resolve_type(elem, structs, line, col) {
                Ok(x) => x,
                Err(d) => {
                    return Err(d);
                },
            };
            if !e.is_scalar() {
                return Err(
                    diag(line, col, "an owned array is returned by value; its elements are scalars for now"),
                );
            }
            Ok(Ty::Array(Box::new(e), Size::Const(-1)))
        },
        ast::TypeExpr::Array(elem, n) => {
            let e = match resolve_type(elem, structs, line, col) {
                Ok(x) => x,
                Err(d) => {
                    return Err(d);
                },
            };
            if !e.is_value() {
                return Err(diag(line, col, "element type of an array must be a scalar or a struct"));
            }
            proof {
                ast::expr_parts(**n);
            }
            if let ast::ExprKind::Int(k) = &n.kind {
                if *k >= 0 {
                    return Ok(Ty::Array(Box::new(e), Size::Const(*k)));
                }
            }
            Err(diag(n.line, n.col, "an array type's length must be an integer literal here"))
        },
    }
}

fn fits_declared(declared: &Option<Ty>, actual: &Ty, line: u32, col: u32) -> (r: Result<(), Diag>)
    ensures
        match r {
            Ok(_) => check_declared(*declared, *actual, line, col) is Ok,
            Err(d) => check_declared(*declared, *actual, line, col) == Err::<(), DiagV>(d@),
        },
{
    if let Some(d) = declared {
        let ok: bool = match (d, actual) {
            (Ty::Array(a, s), Ty::Array(b, t)) => {
                let same = a.same(b);
                same && match (s, t) {
                    (Size::Const(n), Size::Const(m)) => *n == *m,
                    _ => true,
                }
            },
            (a, b) => a.same_shape(b),
        };
        if !ok {
            return Err(
                diag(
                    line,
                    col,
                    &cat5("declared `", &d.to_string(), "` but the value has type `", &actual.to_string(), "`"),
                ),
            );
        }
    }
    Ok(())
}

fn type_of_binary(op: BinOp, a: &Ty, b: &Ty, line: u32, col: u32) -> (r: Result<Ty, Diag>)
    ensures
        match r {
            Ok(t) => binary_type(op, *a, *b, line, col) == Ok::<Ty, DiagV>(t),
            Err(d) => binary_type(op, *a, *b, line, col) == Err::<Ty, DiagV>(d@),
        },
        r is Ok ==> r->Ok_0 == *a || r->Ok_0 == Ty::Bool,
{
    if !a.same(b) {
        return Err(
            diag(
                line,
                col,
                &cat7(
                    "`",
                    op.c_str(),
                    "` between `",
                    &a.to_string(),
                    "` and `",
                    &b.to_string(),
                    "`; no implicit conversion, use `as`",
                ),
            ),
        );
    }
    if op.is_arith() {
        if !a.is_numeric() {
            return Err(diag(line, col, &cat5("`", op.c_str(), "` on `", &a.to_string(), "`")));
        }
        Ok(a.copy())
    } else if op.is_cmp() {
        if !a.is_scalar() {
            return Err(diag(line, col, &cat5("`", op.c_str(), "` on `", &a.to_string(), "`")));
        }
        if matches!(op, BinOp::Lt | BinOp::Le | BinOp::Gt | BinOp::Ge) && a.same(&Ty::Bool) {
            return Err(diag(line, col, "ordering comparison on `bool`"));
        }
        Ok(Ty::Bool)
    } else {
        if !a.same(&Ty::Bool) {
            return Err(diag(line, col, &cat5("`", op.c_str(), "` needs `bool`, found `", &a.to_string(), "`")));
        }
        Ok(Ty::Bool)
    }
}

fn type_of_unary(op: UnOp, a: &Ty, line: u32, col: u32) -> (r: Result<Ty, Diag>)
    ensures
        match r {
            Ok(t) => unary_type(op, *a, line, col) == Ok::<Ty, DiagV>(t) && t == *a,
            Err(d) => unary_type(op, *a, line, col) == Err::<Ty, DiagV>(d@),
        },
{
    match op {
        UnOp::Neg => {
            if !a.is_numeric() {
                return Err(diag(line, col, &cat3("`-` on `", &a.to_string(), "`")));
            }
        },
        UnOp::Not => {
            if !a.same(&Ty::Bool) {
                return Err(diag(line, col, &cat3("`!` on `", &a.to_string(), "`")));
            }
        },
    }
    Ok(a.copy())
}

fn type_of_ref(l: &Local, mutable: bool, line: u32, col: u32) -> (r: Result<Ty, Diag>)
    ensures
        match r {
            Ok(t) => ref_type(l@, mutable, line, col) == Ok::<Ty, DiagV>(t) && (forall|n: int|
                l.ty.names_structs(n) ==> #[trigger] t.names_structs(n)),
            Err(d) => ref_type(l@, mutable, line, col) == Err::<Ty, DiagV>(d@),
        },
{
    match &l.ty {
        Ty::Array(el, sz) => {
            if mutable && !l.mutable {
                return Err(diag(line, col, &cat3("`&mut` of `", &l.name, "`, which is not `let mut`")));
            }
            Ok(Ty::Slice(Box::new(el.copy()), mutable, *sz))
        },
        Ty::Slice(el, m, sz) => {
            if mutable && !*m {
                return Err(diag(line, col, &cat3("`&mut` of `", &l.name, "`, which is a `&[T]` view")));
            }
            Ok(Ty::Slice(Box::new(el.copy()), mutable, *sz))
        },
        t => Err(diag(line, col, &cat3("`&` of a `", &t.to_string(), "`; views are of arrays"))),
    }
}

fn arg_fits(given: &Ty, wanted: &Ty, line: u32, col: u32) -> (r: Result<(), Diag>)
    ensures
        match r {
            Ok(_) => check_arg(*given, *wanted, line, col) is Ok,
            Err(d) => check_arg(*given, *wanted, line, col) == Err::<(), DiagV>(d@),
        },
{
    let ok: bool = match (given, wanted) {
        (Ty::Slice(ea, ma, _), Ty::Slice(ep, mp, _)) => ea.same(ep) && (*ma || !*mp),
        (Ty::Array(..), Ty::Slice(..)) => {
            return Err(diag(line, col, "pass a view of the array: `&name` or `&mut name`"));
        },
        (a, b) => a.same(b),
    };
    if !ok {
        return Err(
            diag(
                line,
                col,
                &cat5(
                    "argument of type `",
                    &given.to_string(),
                    "` where `",
                    &wanted.to_string(),
                    "` is expected",
                ),
            ),
        );
    }
    Ok(())
}

fn type_of_if(yes: &Ty, els: &Option<Block>, line: u32, col: u32) -> (r: Result<Ty, Diag>)
    ensures
        match r {
            Ok(t) => if_type(*yes, opt_block(*els), line, col) == Ok::<Ty, DiagV>(t) && t == *yes,
            Err(d) => if_type(*yes, opt_block(*els), line, col) == Err::<Ty, DiagV>(d@),
        },
{
    match els {
        None => {
            if !yes.same(&Ty::Unit) {
                return Err(
                    diag(
                        line,
                        col,
                        &cat3(
                            "`if` without `else` has type `()`, but the branch has type `",
                            &yes.to_string(),
                            "`",
                        ),
                    ),
                );
            }
            Ok(Ty::Unit)
        },
        Some(b) => {
            if !b.ty.same(yes) {
                return Err(
                    diag(
                        line,
                        col,
                        &cat5("`if` branches have types `", &yes.to_string(), "` and `", &b.ty.to_string(), "`"),
                    ),
                );
            }
            Ok(yes.copy())
        },
    }
}

spec fn opt_block(b: Option<Block>) -> Option<ir::BlockV> {
    match b {
        Some(x) => Some(x@),
        None => None,
    }
}

spec fn opt_expr(e: Option<Expr>) -> Option<ir::ExprV> {
    match e {
        Some(x) => Some(x@),
        None => None,
    }
}

fn type_or_unit(e: &Option<Expr>) -> (r: Ty)
    ensures
        r == (match *e {
            Some(x) => x.ty,
            None => Ty::Unit,
        }),
{
    match e {
        Some(x) => x.ty.copy(),
        None => Ty::Unit,
    }
}

/// The element type of a local that can be written through an index.
fn written_elem(l: &Local, target: &ast::Expr) -> (r: Result<Ty, Diag>)
    ensures
        match r {
            Ok(t) => writable(l@, target@) == Ok::<Ty, DiagV>(t) && (forall|n: int|
                l.ty.names_structs(n) ==> #[trigger] t.names_structs(n)),
            Err(d) => writable(l@, target@) == Err::<Ty, DiagV>(d@),
        },
{
    match &l.ty {
        Ty::Array(e, _) => {
            if !l.mutable {
                return Err(
                    diag(
                        target.line,
                        target.col,
                        &cat3("`", &l.name, "` is not mutable; declare it with `let mut`"),
                    ),
                );
            }
            Ok(e.copy())
        },
        Ty::Slice(e, m, _) => {
            if !*m {
                return Err(
                    diag(
                        target.line,
                        target.col,
                        &cat3("`", &l.name, "` is a `&[T]` view; writing needs `&mut [T]`"),
                    ),
                );
            }
            Ok(e.copy())
        },
        t => Err(
            diag(target.line, target.col, &cat3("cannot index a value of type `", &t.to_string(), "`")),
        ),
    }
}

fn assign_fits(op: Option<BinOp>, val: &Ty, tty: &Ty, target: &ast::Expr, value: &ast::Expr) -> (r: Result<(), Diag>)
    ensures
        match r {
            Ok(_) => check_assign(op, *val, *tty, target@, value@) is Ok,
            Err(d) => check_assign(op, *val, *tty, target@, value@) == Err::<(), DiagV>(d@),
        },
{
    if let Some(o) = op {
        if !tty.is_numeric() {
            return Err(
                diag(
                    target.line,
                    target.col,
                    &cat5("`", o.c_str(), "=` needs a numeric target, found `", &tty.to_string(), "`"),
                ),
            );
        }
    }
    if !val.same(tty) {
        return Err(
            diag(
                value.line,
                value.col,
                &cat5("assigning `", &val.to_string(), "` to a `", &tty.to_string(), "`"),
            ),
        );
    }
    Ok(())
}

fn zero_kind(ty: &Ty) -> (r: ExprKind)
    ensures
        ir::kind_view(r) == zero_of(*ty),
{
    match ty {
        Ty::F64 => ExprKind::Float("0.0".to_owned()),
        Ty::U8 => ExprKind::Byte(0),
        _ => ExprKind::Int(0),
    }
}

fn block_of(stmts: Vec<Stmt>) -> (r: Block)
    ensures
        r@ == unit_block(views(stmts@)),
{
    let b = Block { stmts, tail: None, ty: Ty::Unit };
    proof {
        ir::block_lists(b);
    }
    b
}

fn make(kind: ExprKind, ty: Ty, line: u32) -> (r: Expr)
    ensures
        r@ == mk(ir::kind_view(kind), ty, line),
{
    Expr { kind, ty, line }
}

/// What flows through a chain.
struct Flowing {
    stmts: Vec<Stmt>,
    vals: Vec<usize>,
    guards: Vec<(Vec<Stmt>, Expr)>,
}

spec fn guards_v(s: Seq<(Vec<Stmt>, Expr)>) -> Seq<(Seq<ir::StmtV>, ir::ExprV)> {
    Seq::new(s.len(), |i: int| (views(s[i].0@), s[i].1@))
}

impl View for Flowing {
    type V = Flow;

    closed spec fn view(&self) -> Flow {
        Flow { stmts: views(self.stmts@), vals: self.vals@, guards: guards_v(self.guards@) }
    }
}

/// Where a chain's values end up.
struct Sunk {
    acc: usize,
    init: Expr,
    before: Vec<Stmt>,
    update: Vec<Stmt>,
}

impl View for Sunk {
    type V = Sink;

    closed spec fn view(&self) -> Sink {
        Sink { acc: self.acc, init: self.init@, before: views(self.before@), update: views(self.update@) }
    }
}

proof fn views_join<T: View>(a: Seq<T>, b: Seq<T>)
    ensures
        views(a + b) == views(a) + views(b),
{
    assert(views(a + b) =~= views(a) + views(b));
}

/// The statements inside the filters, the last filter innermost.
#[verifier::loop_isolation(false)]
fn wrapped(mut guards: Vec<(Vec<Stmt>, Expr)>, stmts: Vec<Stmt>, line: u32) -> (r: Vec<Stmt>)
    ensures
        views(r@) == guarded(guards_v(guards@), views(stmts@), line),
{
    let ghost all = guards_v(guards@);
    let ghost first = views(stmts@);
    let mut inner = stmts;
    while guards.len() > 0
        invariant
            guarded(all, first, line) == guarded(guards_v(guards@), views(inner@), line),
        decreases guards@.len(),
    {
        let ghost gv = guards_v(guards@);
        let ghost was = guards@;
        match guards.pop() {
            Some((before, cond)) => {
                proof {
                    assert(gv.last() == (views(before@), cond@));
                    assert(gv.drop_last() =~= guards_v(guards@));
                }
                let mut next = before;
                let test = make(ExprKind::If(Box::new(cond), block_of(inner), None), Ty::Unit, line);
                let s = Stmt::Expr(test);
                proof {
                    views_push(next@, s);
                }
                next.push(s);
                inner = next;
            },
            None => {},
        }
    }
    inner
}

impl<'a> Ctx<'a> {
    spec fn env(&self) -> Env {
        Env { sigs: views(self.sigs@), structs: views(self.structs@) }
    }

    spec fn st(&self) -> St {
        St {
            locals: views(self.locals@),
            roots: self.roots@,
            names: names_v(self.names@),
            sizes: views(self.sizes@),
            moved: self.moved@,
            fresh: self.fresh@,
        }
    }

    spec fn n(&self) -> int {
        self.structs@.len() as int
    }

    spec fn wf(&self) -> bool {
        env_ok(self.env()) && fits(views(self.locals@), self.roots@, names_v(self.names@), self.n())
    }

    spec fn same_env(&self, o: &Ctx<'a>) -> bool {
        self.sigs == o.sigs && self.structs == o.structs
    }

    /// The type of a local names structs that exist, and its root is a local.
    proof fn local_ok(&self, id: int)
        requires
            self.wf(),
            0 <= id < self.locals@.len(),
        ensures
            self.st().locals[id].ty.names_structs(self.n()),
            self.locals@[id].ty.names_structs(self.n()),
            self.roots@.len() == self.locals@.len(),
            self.roots@[id] < self.locals@.len(),
    {
        reveal(fits);
        assert(views(self.locals@)[id].ty.names_structs(self.n()));
        assert(self.roots@[id] < views(self.locals@).len());
    }

    #[verifier::loop_isolation(false)]
    fn find(&self, n: &String) -> (r: Option<usize>)
        requires
            self.wf(),
        ensures
            r == lookup(self.st().names, n@),
            r is Some ==> r->0 < self.locals@.len(),
    {
        let ghost nv = self.st().names;
        let mut i: usize = self.names.len();
        proof {
            reveal(fits);
            assert(nv.take(nv.len() as int) =~= nv);
        }
        while i > 0
            invariant
                i <= nv.len(),
                lookup(nv, n@) == lookup(nv.take(i as int), n@),
            decreases i,
        {
            proof {
                assert(nv.take(i as int).last() == nv[i - 1]);
                assert(nv.take(i as int).drop_last() =~= nv.take(i - 1));
            }
            if self.names[i - 1].0 == *n {
                return Some(self.names[i - 1].1);
            }
            i -= 1;
        }
        None
    }

    fn declare(&mut self, name: String, ty: Ty, mutable: bool) -> (r: usize)
        requires
            old(self).wf(),
            ty.names_structs(old(self).n()),
        ensures
            final(self).wf(),
            final(self).same_env(old(self)),
            final(self).st() == declare(old(self).st(), name@, ty, mutable),
            r == next_id(old(self).st()),
            r < final(self).locals@.len(),
            final(self).locals@.len() == old(self).locals@.len() + 1,
            grew(old(self).st(), final(self).st()),
    {
        let id: usize = self.locals.len();
        let ghost before = self.st();
        proof {
            reveal(fits);
        }
        let label = copy_text(&name);
        let l = Local { name, ty, mutable };
        proof {
            views_push(self.locals@, l);
        }
        self.locals.push(l);
        self.roots.push(id);
        let ghost names0 = self.names@;
        self.names.push((label, id));
        proof {
            assert(names_v(self.names@) =~= names_v(names0).push((name@, id)));
            let now = self.st();
            assert(now == declare(before, name@, ty, mutable));
            assert forall|i: int| 0 <= i < now.roots.len() implies (#[trigger] now.roots[i]) < now.locals.len() by {
                if i < before.roots.len() {
                    assert(now.roots[i] == before.roots[i]);
                }
            }
            assert forall|i: int| 0 <= i < now.names.len() implies (#[trigger] now.names[i]).1 < now.locals.len() by {
                if i < before.names.len() {
                    assert(now.names[i] == before.names[i]);
                }
            }
            assert forall|i: int| 0 <= i < now.locals.len() implies (#[trigger] now.locals[i]).ty.names_structs(
                self.n(),
            ) by {
                if i < before.locals.len() {
                    assert(now.locals[i] == before.locals[i]);
                }
            }
        }
        id
    }

    /// A compiler-made local; the `#` keeps it out of the user's namespace.
    fn fresh_local(&mut self, base: &str, ty: Ty, mutable: bool) -> (r: usize)
        requires
            old(self).wf(),
            ty.names_structs(old(self).n()),
        ensures
            final(self).wf(),
            final(self).same_env(old(self)),
            final(self).st() == declare_fresh(old(self).st(), base@, ty, mutable),
            r == next_id(old(self).st()),
            r < final(self).locals@.len(),
            final(self).locals@.len() == old(self).locals@.len() + 1,
            grew(old(self).st(), final(self).st()),
    {
        self.fresh = self.fresh.plus(&BigNat::from_u128(1));
        let name = cat3(base, "#", &show_nat(&self.fresh));
        self.declare(name, ty, mutable)
    }

    fn new_size(&mut self, name: String) -> (r: usize)
        requires
            old(self).wf(),
        ensures
            final(self).wf(),
            final(self).same_env(old(self)),
            final(self).st() == crate::typing::add_size(old(self).st(), name@),
            r == old(self).st().sizes.len(),
            grew(old(self).st(), final(self).st()),
            final(self).locals@.len() == old(self).locals@.len(),
    {
        let id: usize = self.sizes.len();
        let s = SizeInfo { name };
        proof {
            views_push(self.sizes@, s);
        }
        self.sizes.push(s);
        id
    }

    /// Closes the scopes that opened after `names` had `n` entries.
    fn close(&mut self, n: usize)
        requires
            old(self).wf(),
            n <= old(self).names@.len(),
        ensures
            final(self).wf(),
            final(self).same_env(old(self)),
            final(self).st() == leave(old(self).st(), n as nat),
            final(self).names@.len() == n,
            final(self).locals@.len() == old(self).locals@.len(),
    {
        let ghost before = self.st();
        let ghost names0 = self.names@;
        self.names.truncate(n);
        proof {
            reveal(fits);
            assert(names_v(self.names@) =~= names_v(names0).take(n as int));
            let now = self.st();
            assert forall|i: int| 0 <= i < now.names.len() implies (#[trigger] now.names[i]).1 < now.locals.len() by {
                assert(now.names[i] == before.names[i]);
            }
        }
    }

    fn not_moved(&self, id: usize, line: u32, col: u32) -> (r: Result<(), Diag>)
        requires
            self.wf(),
            id < self.locals@.len(),
        ensures
            match r {
                Ok(_) => check_moved(self.st(), id, line, col) is Ok,
                Err(d) => check_moved(self.st(), id, line, col) == Err::<(), DiagV>(d@),
            },
    {
        if id < self.moved.len() {
            if let Some(at) = self.moved[id] {
                return Err(
                    diag(
                        line,
                        col,
                        &cat5(
                            "`",
                            &self.locals[id].name,
                            "` was moved at line ",
                            &show_u64(at as u64),
                            "; using it again is an error",
                        ),
                    ),
                );
            }
        }
        Ok(())
    }

    fn local_by_expr(&self, e: &ast::Expr, what: &str) -> (r: Result<usize, Diag>)
        requires
            self.wf(),
        ensures
            match r {
                Ok(id) => local_of(self.st(), e@, what@) == Ok::<usize, DiagV>(id) && id < self.locals@.len(),
                Err(d) => local_of(self.st(), e@, what@) == Err::<usize, DiagV>(d@),
            },
    {
        proof {
            ast::expr_parts(*e);
            expr_shrinks(e@);
        }
        match &e.kind {
            ast::ExprKind::Var(n) => {
                match self.find(n) {
                    Some(id) => {
                        let _u = match self.not_moved(id, e.line, e.col) {
                            Ok(x) => x,
                            Err(d) => {
                                return Err(d);
                            },
                        };
                        Ok(id)
                    },
                    None => Err(diag(e.line, e.col, &cat3("unknown variable `", n, "`"))),
                }
            },
            _ => Err(diag(e.line, e.col, &cat2(what, " must be a variable for now"))),
        }
    }

    fn local_expr(&self, id: usize, line: u32) -> (r: Expr)
        requires
            self.wf(),
            id < self.locals@.len(),
        ensures
            r@ == local_expr(self.st(), id, line),
            r.ty == self.st().locals[id as int].ty,
            r.ty.names_structs(self.n()),
    {
        proof {
            self.local_ok(id as int);
        }
        make(ExprKind::Local(id), self.locals[id].ty.copy(), line)
    }

    fn field_of(&self, base: &Ty, f: &String, line: u32, col: u32) -> (r: Result<(usize, Ty), Diag>)
        requires
            self.wf(),
            base.names_structs(self.n()),
        ensures
            match r {
                Ok(p) => field_type(self.env(), *base, f@, line, col) == Ok::<(usize, Ty), DiagV>((p.0, p.1))
                    && p.1.names_structs(self.n()),
                Err(d) => field_type(self.env(), *base, f@, line, col) == Err::<(usize, Ty), DiagV>(d@),
            },
    {
        match base {
            Ty::Struct(sid) => {
                let def = &self.structs[*sid];
                proof {
                    reveal(env_ok);
                    assert(self.env().structs[*sid as int] == def@);
                }
                match def.field(f) {
                    Some(fi) => {
                        proof {
                            assert(self.env().structs[*sid as int].fields[fi as int].1.scalar());
                        }
                        Ok((fi, def.fields[fi].1.copy()))
                    },
                    None => Err(diag(line, col, &cat5("`", &def.name, "` has no field `", f, "`"))),
                }
            },
            t => Err(
                diag(line, col, &cat5("`.", f, "` on a `", &t.to_string(), "`, which is not a struct")),
            ),
        }
    }

    /// An expression smaller than `n`.
    fn sub(&mut self, cx: &Place, e: &ast::Expr, Ghost(n): Ghost<nat>) -> (r: Result<Expr, Diag>)
        requires
            old(self).wf(),
            expr_size(e@) < n,
        ensures
            checked_expr(r, (knot(old(self).env(), n).expr)(*cx, old(self).st(), e@), *old(self), *final(self)),
        decreases expr_size(e@), 4int,
    {
        proof {
            knot_expr(self.env(), n, *cx, self.st(), e@);
        }
        self.expr(cx, e)
    }

    /// A block smaller than `n`.
    fn sub_block(&mut self, cx: &Place, b: &ast::Block, Ghost(n): Ghost<nat>) -> (r: Result<Block, Diag>)
        requires
            old(self).wf(),
            block_size(b@) < n,
        ensures
            checked_block(r, (knot(old(self).env(), n).block)(*cx, old(self).st(), b@), *old(self), *final(self)),
        decreases block_size(b@), 4int,
    {
        proof {
            knot_block(self.env(), n, *cx, self.st(), b@);
        }
        self.block(cx, b)
    }

    fn expr(&mut self, cx: &Place, e: &ast::Expr) -> (r: Result<Expr, Diag>)
        requires
            old(self).wf(),
        ensures
            checked_expr(r, s_expr(old(self).env(), *cx, old(self).st(), e@), *old(self), *final(self)),
        decreases expr_size(e@), 3int,
    {
        let ghost n = expr_size(e@);
        proof {
            reveal(s_expr);
            reveal(r_expr);
            ast::expr_parts(*e);
            expr_shrinks(e@);
        }
        let (line, col): (u32, u32) = (e.line, e.col);
        match &e.kind {
            ast::ExprKind::Int(v) => Ok(make(ExprKind::Int(*v), Ty::I64, line)),
            ast::ExprKind::Float(v) => Ok(make(ExprKind::Float(copy_text(v)), Ty::F64, line)),
            ast::ExprKind::Bool(v) => Ok(make(ExprKind::Bool(*v), Ty::Bool, line)),
            ast::ExprKind::Byte(v) => Ok(make(ExprKind::Byte(*v), Ty::U8, line)),
            ast::ExprKind::Bytes(_) => Err(diag(line, col, "a byte string can only initialise a `let`")),
            ast::ExprKind::Var(_) => self.var(cx, e, Ghost(n)),
            ast::ExprKind::Binary(..) => self.binary(cx, e, Ghost(n)),
            ast::ExprKind::Unary(..) => self.unary(cx, e, Ghost(n)),
            ast::ExprKind::Index(..) => self.index(cx, e, Ghost(n)),
            ast::ExprKind::Field(..) => self.field(cx, e, Ghost(n)),
            ast::ExprKind::StructLit(..) => self.struct_lit(cx, e, Ghost(n)),
            ast::ExprKind::Call(name, _) => {
                if text_is(name, "min") || text_is(name, "max") {
                    self.min_max(cx, e, Ghost(n))
                } else if text_is(name, "println") {
                    self.println(cx, e, Ghost(n))
                } else {
                    self.call(cx, e, Ghost(n))
                }
            },
            ast::ExprKind::MethodCall(_, name, _) => {
                if text_is(name, "len") {
                    self.len(cx, e, Ghost(n))
                } else {
                    self.chain(cx, e, Ghost(n))
                }
            },
            ast::ExprKind::Lambda(..) => Err(
                diag(
                    line,
                    col,
                    "a closure can only be the argument of a chain stage (`map`, `filter`, `fold`, ...)",
                ),
            ),
            ast::ExprKind::Comprehension { .. } => Err(
                diag(line, col, "a comprehension either initialises a `let` or is reduced: `[..].sum()`"),
            ),
            ast::ExprKind::Ref(..) => self.reference(cx, e, Ghost(n)),
            ast::ExprKind::Cast(..) => self.cast(cx, e, Ghost(n)),
            ast::ExprKind::If(..) => self.if_expr(cx, e, Ghost(n)),
            ast::ExprKind::Block(b) => {
                let cb = match self.sub_block(cx, b, Ghost(n)) {
                    Ok(x) => x,
                    Err(d) => {
                        return Err(d);
                    },
                };
                let ty = cb.ty.copy();
                Ok(make(ExprKind::Block(cb), ty, line))
            },
            ast::ExprKind::ArrayLit(_) | ast::ExprKind::ArrayRepeat(..) => Err(
                diag(line, col, "an array literal can only initialise a `let` for now"),
            ),
        }
    }

    fn var(&mut self, cx: &Place, e: &ast::Expr, Ghost(n): Ghost<nat>) -> (r: Result<Expr, Diag>)
        requires
            old(self).wf(),
            expr_size(e@) <= n,
            e.kind is Var,
        ensures
            checked_expr(r, s_var(old(self).st(), e@), *old(self), *final(self)),
        decreases expr_size(e@), 2int,
    {
        proof {
            reveal(s_var);
            ast::expr_parts(*e);
            expr_shrinks(e@);
        }
        let id = match self.local_by_expr(e, "") {
            Ok(x) => x,
            Err(d) => {
                return Err(d);
            },
        };
        Ok(self.local_expr(id, e.line))
    }

    fn unary(&mut self, cx: &Place, e: &ast::Expr, Ghost(n): Ghost<nat>) -> (r: Result<Expr, Diag>)
        requires
            old(self).wf(),
            expr_size(e@) <= n,
            e.kind is Unary,
        ensures
            checked_expr(r, s_unary(old(self).env(), knot(old(self).env(), n), *cx, old(self).st(), e@), *old(self), *final(self)),
        decreases expr_size(e@), 2int,
    {
        proof {
            reveal(s_unary);
            ast::expr_parts(*e);
            expr_shrinks(e@);
        }
        if let ast::ExprKind::Unary(op, a) = &e.kind {
            let ca = match self.sub(cx, a, Ghost(n)) {
                Ok(x) => x,
                Err(d) => {
                    return Err(d);
                },
            };
            let ty = match type_of_unary(*op, &ca.ty, e.line, e.col) {
                Ok(x) => x,
                Err(d) => {
                    return Err(d);
                },
            };
            Ok(make(ExprKind::Unary(*op, Box::new(ca)), ty, e.line))
        } else {
            Err(diag(e.line, e.col, ""))
        }
    }

    fn field(&mut self, cx: &Place, e: &ast::Expr, Ghost(n): Ghost<nat>) -> (r: Result<Expr, Diag>)
        requires
            old(self).wf(),
            expr_size(e@) <= n,
            e.kind is Field,
        ensures
            checked_expr(r, s_field(old(self).env(), knot(old(self).env(), n), *cx, old(self).st(), e@), *old(self), *final(self)),
        decreases expr_size(e@), 2int,
    {
        proof {
            reveal(s_field);
            ast::expr_parts(*e);
            expr_shrinks(e@);
        }
        if let ast::ExprKind::Field(base, f) = &e.kind {
            let cb = match self.sub(cx, base, Ghost(n)) {
                Ok(x) => x,
                Err(d) => {
                    return Err(d);
                },
            };
            let (fi, ty) = match self.field_of(&cb.ty, f, e.line, e.col) {
                Ok(x) => x,
                Err(d) => {
                    return Err(d);
                },
            };
            Ok(make(ExprKind::Field(Box::new(cb), fi), ty, e.line))
        } else {
            Err(diag(e.line, e.col, ""))
        }
    }

    fn len(&mut self, cx: &Place, e: &ast::Expr, Ghost(n): Ghost<nat>) -> (r: Result<Expr, Diag>)
        requires
            old(self).wf(),
            expr_size(e@) <= n,
            e.kind is MethodCall,
        ensures
            checked_expr(r, s_len(old(self).st(), e@), *old(self), *final(self)),
        decreases expr_size(e@), 2int,
    {
        proof {
            reveal(s_len);
            ast::expr_parts(*e);
            expr_shrinks(e@);
        }
        if let ast::ExprKind::MethodCall(recv, name, args) = &e.kind {
            proof {
                ast::expr_parts(*e);
                expr_shrinks(e@);
            }
            if args.len() != 0 {
                return Err(diag(e.line, e.col, "`.len()` takes no arguments"));
            }
            let id = match self.local_by_expr(recv, "the receiver of `.len()`") {
                Ok(x) => x,
                Err(d) => {
                    return Err(d);
                },
            };
            if !self.locals[id].ty.is_arrayish() {
                return Err(diag(e.line, e.col, &cat3("`.len()` on `", &self.locals[id].ty.to_string(), "`")));
            }
            Ok(make(ExprKind::Len(id), Ty::I64, e.line))
        } else {
            Err(diag(e.line, e.col, ""))
        }
    }

    fn reference(&mut self, cx: &Place, e: &ast::Expr, Ghost(n): Ghost<nat>) -> (r: Result<Expr, Diag>)
        requires
            old(self).wf(),
            expr_size(e@) <= n,
            e.kind is Ref,
        ensures
            checked_expr(r, s_ref(old(self).st(), e@), *old(self), *final(self)),
        decreases expr_size(e@), 2int,
    {
        proof {
            reveal(s_ref);
            ast::expr_parts(*e);
            expr_shrinks(e@);
        }
        if let ast::ExprKind::Ref(inner, mutable) = &e.kind {
            let id = match self.local_by_expr(inner, "the operand of `&`") {
                Ok(x) => x,
                Err(d) => {
                    return Err(d);
                },
            };
            proof {
                self.local_ok(id as int);
            }
            let ty = match type_of_ref(&self.locals[id], *mutable, e.line, e.col) {
                Ok(x) => x,
                Err(d) => {
                    return Err(d);
                },
            };
            Ok(make(ExprKind::Ref(id, *mutable), ty, e.line))
        } else {
            Err(diag(e.line, e.col, ""))
        }
    }

    fn cast(&mut self, cx: &Place, e: &ast::Expr, Ghost(n): Ghost<nat>) -> (r: Result<Expr, Diag>)
        requires
            old(self).wf(),
            expr_size(e@) <= n,
            e.kind is Cast,
        ensures
            checked_expr(r, s_cast(old(self).env(), knot(old(self).env(), n), *cx, old(self).st(), e@), *old(self), *final(self)),
        decreases expr_size(e@), 2int,
    {
        proof {
            reveal(s_cast);
            ast::expr_parts(*e);
            expr_shrinks(e@);
        }
        if let ast::ExprKind::Cast(inner, ty) = &e.kind {
            let ci = match self.sub(cx, inner, Ghost(n)) {
                Ok(x) => x,
                Err(d) => {
                    return Err(d);
                },
            };
            let target = match resolve_type(ty, self.structs, e.line, e.col) {
                Ok(x) => x,
                Err(d) => {
                    return Err(d);
                },
            };
            if !ci.ty.is_numeric() || !target.is_numeric() {
                return Err(
                    diag(
                        e.line,
                        e.col,
                        &cat5(
                            "`as` converts between `i64`, `f64` and `u8`; found `",
                            &ci.ty.to_string(),
                            "` as `",
                            &target.to_string(),
                            "`",
                        ),
                    ),
                );
            }
            Ok(make(ExprKind::Cast(Box::new(ci), target.copy()), target, e.line))
        } else {
            Err(diag(e.line, e.col, ""))
        }
    }

    fn binary(&mut self, cx: &Place, e: &ast::Expr, Ghost(n): Ghost<nat>) -> (r: Result<Expr, Diag>)
        requires
            old(self).wf(),
            expr_size(e@) <= n,
            e.kind is Binary,
        ensures
            checked_expr(r, s_binary(old(self).env(), knot(old(self).env(), n), *cx, old(self).st(), e@), *old(self), *final(self)),
        decreases expr_size(e@), 2int,
    {
        proof {
            reveal(s_binary);
            ast::expr_parts(*e);
            expr_shrinks(e@);
        }
        if let ast::ExprKind::Binary(op, a, b) = &e.kind {
            let ca = match self.sub(cx, a, Ghost(n)) {
                Ok(x) => x,
                Err(d) => {
                    return Err(d);
                },
            };
            let cb = match self.sub(cx, b, Ghost(n)) {
                Ok(x) => x,
                Err(d) => {
                    return Err(d);
                },
            };
            let ty = match type_of_binary(*op, &ca.ty, &cb.ty, e.line, e.col) {
                Ok(x) => x,
                Err(d) => {
                    return Err(d);
                },
            };
            Ok(make(ExprKind::Binary(*op, Box::new(ca), Box::new(cb)), ty, e.line))
        } else {
            Err(diag(e.line, e.col, ""))
        }
    }

    fn index(&mut self, cx: &Place, e: &ast::Expr, Ghost(n): Ghost<nat>) -> (r: Result<Expr, Diag>)
        requires
            old(self).wf(),
            expr_size(e@) <= n,
            e.kind is Index,
        ensures
            checked_expr(r, s_index(old(self).env(), knot(old(self).env(), n), *cx, old(self).st(), e@), *old(self), *final(self)),
        decreases expr_size(e@), 2int,
    {
        proof {
            reveal(s_index);
            ast::expr_parts(*e);
            expr_shrinks(e@);
        }
        if let ast::ExprKind::Index(base, idx) = &e.kind {
            let id = match self.local_by_expr(base, "the array being indexed") {
                Ok(x) => x,
                Err(d) => {
                    return Err(d);
                },
            };
            let ci = match self.sub(cx, idx, Ghost(n)) {
                Ok(x) => x,
                Err(d) => {
                    return Err(d);
                },
            };
            if !ci.ty.same(&Ty::I64) {
                return Err(
                    diag(idx.line, idx.col, &cat3("index must be `i64`, found `", &ci.ty.to_string(), "`")),
                );
            }
            proof {
                self.local_ok(id as int);
            }
            let elem: Ty = match self.locals[id].ty.elem() {
                Some(t) => t.copy(),
                None => {
                    return Err(
                        diag(
                            e.line,
                            e.col,
                            &cat3("cannot index a value of type `", &self.locals[id].ty.to_string(), "`"),
                        ),
                    );
                },
            };
            Ok(make(ExprKind::Index(id, Box::new(ci)), elem, e.line))
        } else {
            Err(diag(e.line, e.col, ""))
        }
    }

    #[verifier::loop_isolation(false)]
    fn struct_lit(&mut self, cx: &Place, e: &ast::Expr, Ghost(n): Ghost<nat>) -> (r: Result<Expr, Diag>)
        requires
            old(self).wf(),
            expr_size(e@) <= n,
            e.kind is StructLit,
        ensures
            checked_expr(r, s_struct_lit(old(self).env(), knot(old(self).env(), n), *cx, old(self).st(), e@), *old(self), *final(self)),
        decreases expr_size(e@), 2int,
    {
        proof {
            reveal(s_struct_lit);
            ast::expr_parts(*e);
            expr_shrinks(e@);
            reveal(s_lit_fields);
        }
        if let ast::ExprKind::StructLit(name, fields) = &e.kind {
            let ghost env = self.env();
            let ghost st0 = self.st();
            let ghost fv = ast::fields_v(fields@);
            proof {
                ast::expr_parts(*e);
                expr_shrinks(e@);
            }
            let sid: usize = match find_struct(self.structs, name) {
                Some(i) => i,
                None => {
                    return Err(diag(e.line, e.col, &cat3("unknown struct `", name, "`")));
                },
            };
            let structs = self.structs;
            let def = &structs[sid];
            let ghost dv = def@;
            proof {
                assert(env.structs[sid as int] == dv);
            }
            let mut vals: Vec<Option<Expr>> = Vec::new();
            let mut k: usize = 0;
            while k < def.fields.len()
                invariant
                    k <= def.fields@.len(),
                    vals@.len() == k,
                    forall|i: int| 0 <= i < k ==> (#[trigger] vals@[i]) is None,
                decreases def.fields@.len() - k,
            {
                vals.push(None);
                k += 1;
            }
            let mut j: usize = 0;
            proof {
                assert(opts_v(vals@) =~= none_given(dv.fields.len()));
                assert(fv.skip(0) =~= fv);
            }
            while j < fields.len()
                invariant
                    self.wf(),
                    self.same_env(old(self)),
                    grew(st0, self.st()),
                    j <= fields@.len(),
                    vals@.len() == def.fields@.len(),
                    s_lit_fields(env, knot(env, n), *cx, st0, name@, dv, fv, none_given(dv.fields.len())) == s_lit_fields(
                        env,
                        knot(env, n),
                        *cx,
                        self.st(),
                        name@,
                        dv,
                        fv.skip(j as int),
                        opts_v(vals@),
                    ),
                decreases fields@.len() - j,
            {
                let f = &fields[j].0;
                let v = &fields[j].1;
                proof {
                    fields_shrink(fv, j as int);
                    assert(fv.skip(j as int)[0] == fv[j as int]);
                    assert(fv.skip(j as int).drop_first() =~= fv.skip(j + 1));
                }
                let fi: usize = match def.field(f) {
                    Some(i) => i,
                    None => {
                        return Err(diag(v.line, v.col, &cat5("`", name, "` has no field `", f, "`")));
                    },
                };
                if vals[fi].is_some() {
                    return Err(diag(v.line, v.col, &cat3("field `", f, "` is given twice")));
                }
                let cv = match self.sub(cx, v, Ghost(n)) {
                    Ok(x) => x,
                    Err(d) => {
                        return Err(d);
                    },
                };
                if !cv.ty.same(&def.fields[fi].1) {
                    return Err(
                        diag(
                            v.line,
                            v.col,
                            &cat7(
                                "field `",
                                f,
                                "` is `",
                                &def.fields[fi].1.to_string(),
                                "`, given `",
                                &cv.ty.to_string(),
                                "`",
                            ),
                        ),
                    );
                }
                let ghost was = vals@;
                let ghost cvv = cv@;
                vals.set(fi, Some(cv));
                proof {
                    assert(opts_v(vals@) =~= opts_v(was).update(fi as int, Some(cvv)));
                }
                j += 1;
            }
            let ghost given = opts_v(vals@);
            proof {
                assert(fv.skip(j as int) =~= Seq::empty());
            }
            let mut m: usize = 0;
            while m < vals.len()
                invariant
                    m <= vals@.len(),
                    missing(given, 0) == missing(given, m as int),
                    forall|i: int| 0 <= i < m ==> (#[trigger] vals@[i]) is Some,
                decreases vals@.len() - m,
            {
                if vals[m].is_none() {
                    return Err(
                        diag(
                            e.line,
                            e.col,
                            &cat5("`", name, "` literal is missing field `", &def.fields[m].0, "`"),
                        ),
                    );
                }
                m += 1;
            }
            let out = unwrapped(vals);
            let kind = ExprKind::StructLit(sid, out);
            proof {
                ir::kind_lists(kind);
            }
            Ok(make(kind, Ty::Struct(sid), e.line))
        } else {
            Err(diag(e.line, e.col, ""))
        }
    }

    fn min_max(&mut self, cx: &Place, e: &ast::Expr, Ghost(n): Ghost<nat>) -> (r: Result<Expr, Diag>)
        requires
            old(self).wf(),
            expr_size(e@) <= n,
            e.kind is Call,
        ensures
            checked_expr(r, s_min_max(old(self).env(), knot(old(self).env(), n), *cx, old(self).st(), e@), *old(self), *final(self)),
        decreases expr_size(e@), 2int,
    {
        proof {
            reveal(s_min_max);
            ast::expr_parts(*e);
            expr_shrinks(e@);
        }
        if let ast::ExprKind::Call(name, args) = &e.kind {
            proof {
                ast::expr_parts(*e);
                expr_shrinks(e@);
            }
            if args.len() != 2 {
                return Err(diag(e.line, e.col, &cat3("`", name, "` takes two arguments")));
            }
            proof {
                exprs_shrink(views(args@), 0);
                exprs_shrink(views(args@), 1);
            }
            let a = match self.sub(cx, &args[0], Ghost(n)) {
                Ok(x) => x,
                Err(d) => {
                    return Err(d);
                },
            };
            let b = match self.sub(cx, &args[1], Ghost(n)) {
                Ok(x) => x,
                Err(d) => {
                    return Err(d);
                },
            };
            if !a.ty.same(&b.ty) || !a.ty.is_numeric() {
                return Err(
                    diag(
                        e.line,
                        e.col,
                        &cat7("`", name, "` of `", &a.ty.to_string(), "` and `", &b.ty.to_string(), "`"),
                    ),
                );
            }
            let ty = a.ty.copy();
            Ok(make(ExprKind::MinMax(text_is(name, "min"), Box::new(a), Box::new(b)), ty, e.line))
        } else {
            Err(diag(e.line, e.col, ""))
        }
    }

    fn println(&mut self, cx: &Place, e: &ast::Expr, Ghost(n): Ghost<nat>) -> (r: Result<Expr, Diag>)
        requires
            old(self).wf(),
            expr_size(e@) <= n,
            e.kind is Call,
        ensures
            checked_expr(r, s_println(old(self).env(), knot(old(self).env(), n), *cx, old(self).st(), e@), *old(self), *final(self)),
        decreases expr_size(e@), 2int,
    {
        proof {
            reveal(s_println);
            ast::expr_parts(*e);
            expr_shrinks(e@);
        }
        if let ast::ExprKind::Call(name, args) = &e.kind {
            proof {
                ast::expr_parts(*e);
                expr_shrinks(e@);
            }
            if args.len() != 1 {
                return Err(diag(e.line, e.col, "`println` takes one argument"));
            }
            proof {
                exprs_shrink(views(args@), 0);
            }
            let a = match self.sub(cx, &args[0], Ghost(n)) {
                Ok(x) => x,
                Err(d) => {
                    return Err(d);
                },
            };
            if !a.ty.is_scalar() {
                return Err(
                    diag(
                        args[0].line,
                        args[0].col,
                        &cat3("`println` prints scalars, found `", &a.ty.to_string(), "`"),
                    ),
                );
            }
            Ok(make(ExprKind::Println(Box::new(a)), Ty::Unit, e.line))
        } else {
            Err(diag(e.line, e.col, ""))
        }
    }

    /// The view that an argument is, if it is one.
    fn viewed(&self, a: &ast::Expr) -> (r: Option<(usize, bool)>)
        requires
            self.wf(),
        ensures
            r == view_of(self.st(), a@),
            r is Some ==> (r->0).0 < self.locals@.len(),
    {
        proof {
            ast::expr_parts(*a);
        }
        match &a.kind {
            ast::ExprKind::Ref(inner, m) => {
                proof {
                    ast::expr_parts(**inner);
                }
                match &inner.kind {
                    ast::ExprKind::Var(n) => self.viewed_name(n, Some(*m)),
                    _ => None,
                }
            },
            ast::ExprKind::Var(n) => self.viewed_name(n, None),
            _ => None,
        }
    }

    fn viewed_name(&self, n: &String, explicit: Option<bool>) -> (r: Option<(usize, bool)>)
        requires
            self.wf(),
        ensures
            r == view_named(self.st(), n@, explicit),
            r is Some ==> (r->0).0 < self.locals@.len(),
    {
        let id: usize = match self.find(n) {
            Some(i) => i,
            None => {
                return None;
            },
        };
        let own: bool = match &self.locals[id].ty {
            Ty::Array(..) => false,
            Ty::Slice(_, m, _) => *m,
            _ => {
                return None;
            },
        };
        match explicit {
            Some(m) => Some((id, m)),
            None => Some((id, own)),
        }
    }

    /// Views into one array may not be passed twice if either is mutable: the callee's parameters
    /// do not overlap, and the cost model counts them as disjoint.
    #[verifier::loop_isolation(false)]
    fn no_overlap(&self, args: &Vec<ast::Expr>) -> (r: Result<(), Diag>)
        requires
            self.wf(),
        ensures
            match r {
                Ok(_) => check_overlap(self.st(), views(args@), 0, Seq::empty()) is Ok,
                Err(d) => check_overlap(self.st(), views(args@), 0, Seq::empty()) == Err::<(), DiagV>(d@),
            },
    {
        proof {
            reveal(check_overlap);
                    }
        let ghost av = views(args@);
        let ghost st = self.st();
        let mut used: Vec<(usize, bool, usize)> = Vec::new();
        let mut k: usize = 0;
        proof {
            assert(uses_v(used@) =~= Seq::empty());
        }
        while k < args.len()
            invariant
                k <= args@.len(),
                check_overlap(st, av, 0, Seq::empty()) == check_overlap(st, av, k as int, uses_v(used@)),
                forall|i: int| 0 <= i < used@.len() ==> (#[trigger] used@[i]).2 < args@.len(),
            decreases args@.len() - k,
        {
            if let Some((id, mutable)) = self.viewed(&args[k]) {
                proof {
                    self.local_ok(id as int);
                }
                let root: usize = self.roots[id];
                let mut j: usize = 0;
                while j < used.len()
                    invariant
                        j <= used@.len(),
                        clash(uses_v(used@), root, mutable, 0) == clash(uses_v(used@), root, mutable, j as int),
                    decreases used@.len() - j,
                {
                    if used[j].0 == root && (mutable || used[j].1) {
                        let (a1, a2): (u64, u64) = (used[j].2 as u64, k as u64);
                        proof {
                            self.local_ok(id as int);
                            assert(used@[j as int].2 < args@.len());
                        }
                        return Err(
                            diag(
                                args[k].line,
                                args[k].col,
                                &cat7(
                                    "arguments ",
                                    &show_nat(&BigNat::from_u128(a1 as u128 + 1)),
                                    " and ",
                                    &show_nat(&BigNat::from_u128(a2 as u128 + 1)),
                                    " are both views of `",
                                    &self.locals[root].name,
                                    "` and one is `&mut`; a function's parameters must not overlap",
                                ),
                            ),
                        );
                    }
                    j += 1;
                }
                let ghost was = used@;
                used.push((root, mutable, k));
                proof {
                    assert(uses_v(used@) =~= uses_v(was).push(RootUse { root, mutable, arg: k as int }));
                }
            }
            k += 1;
        }
        Ok(())
    }

    #[verifier::loop_isolation(false)]
    fn call(&mut self, cx: &Place, e: &ast::Expr, Ghost(n): Ghost<nat>) -> (r: Result<Expr, Diag>)
        requires
            old(self).wf(),
            expr_size(e@) <= n,
            e.kind is Call,
        ensures
            checked_expr(r, s_call(old(self).env(), knot(old(self).env(), n), *cx, old(self).st(), e@), *old(self), *final(self)),
        decreases expr_size(e@), 2int,
    {
        proof {
            reveal(s_call);
            reveal(s_call_args);
            reveal(env_ok);
            ast::expr_parts(*e);
            expr_shrinks(e@);
        }
        if let ast::ExprKind::Call(name, args) = &e.kind {
            let ghost env = self.env();
            let ghost st0 = self.st();
            let ghost av = views(args@);
            proof {
                ast::expr_parts(*e);
                expr_shrinks(e@);
            }
            let fid: usize = match find_sig(self.sigs, name) {
                Some(i) => i,
                None => {
                    return Err(diag(e.line, e.col, &cat3("unknown function `", name, "`")));
                },
            };
            let sigs = self.sigs;
            let sig = &sigs[fid];
            proof {
                assert(env.sigs[fid as int] == sig@);
                assert(env.sigs[fid as int].ret.names_structs(self.n()));
            }
            if args.len() != sig.params.len() {
                return Err(
                    diag(
                        e.line,
                        e.col,
                        &cat7(
                            "`",
                            name,
                            "` takes ",
                            &show_u64(sig.params.len() as u64),
                            " argument(s), ",
                            &show_u64(args.len() as u64),
                            " given",
                        ),
                    ),
                );
            }
            let _ov = match self.no_overlap(args) {
                Ok(x) => x,
                Err(d) => {
                    return Err(d);
                },
            };
            let mut cargs: Vec<Expr> = Vec::new();
            let mut k: usize = 0;
            proof {
                views_empty::<Expr>();
                assert(av.skip(0) =~= av);
            }
            while k < args.len()
                invariant
                    self.wf(),
                    self.same_env(old(self)),
                    grew(st0, self.st()),
                    k <= args@.len(),
                    cargs@.len() == k,
                    s_call_args(env, knot(env, n), *cx, st0, sig@.params, av, Seq::empty()) == s_call_args(
                        env,
                        knot(env, n),
                        *cx,
                        self.st(),
                        sig@.params,
                        av.skip(k as int),
                        views(cargs@),
                    ),
                decreases args@.len() - k,
            {
                proof {
                    exprs_shrink(av, k as int);
                    assert(av.skip(k as int)[0] == av[k as int]);
                    assert(av.skip(k as int).drop_first() =~= av.skip(k + 1));
                }
                let a = &args[k];
                let ca = match self.sub(cx, a, Ghost(n)) {
                    Ok(x) => x,
                    Err(d) => {
                        return Err(d);
                    },
                };
                let _f = match arg_fits(&ca.ty, &sig.params[k], a.line, a.col) {
                    Ok(x) => x,
                    Err(d) => {
                        return Err(d);
                    },
                };
                proof {
                    views_push(cargs@, ca);
                }
                cargs.push(ca);
                k += 1;
            }
            proof {
                assert(av.skip(k as int) =~= Seq::empty());
            }
            let kind = ExprKind::Call(fid, cargs);
            proof {
                ir::kind_lists(kind);
            }
            Ok(make(kind, sig.ret.copy(), e.line))
        } else {
            Err(diag(e.line, e.col, ""))
        }
    }

    fn if_expr(&mut self, cx: &Place, e: &ast::Expr, Ghost(n): Ghost<nat>) -> (r: Result<Expr, Diag>)
        requires
            old(self).wf(),
            expr_size(e@) <= n,
            e.kind is If,
        ensures
            checked_expr(r, s_if(old(self).env(), knot(old(self).env(), n), *cx, old(self).st(), e@), *old(self), *final(self)),
        decreases expr_size(e@), 2int,
    {
        proof {
            reveal(s_if);
            ast::expr_parts(*e);
            expr_shrinks(e@);
        }
        if let ast::ExprKind::If(cond, yes, els) = &e.kind {
            let cc = match self.sub(cx, cond, Ghost(n)) {
                Ok(x) => x,
                Err(d) => {
                    return Err(d);
                },
            };
            if !cc.ty.same(&Ty::Bool) {
                return Err(
                    diag(
                        cond.line,
                        cond.col,
                        &cat3("`if` condition is `", &cc.ty.to_string(), "`, not `bool`"),
                    ),
                );
            }
            // a local moved on either side is moved after the `if`; each side is checked from
            // the same state, so a move on one side does not leak into the other
            let saved = copy_moved(&self.moved);
            let ct = match self.sub_block(cx, yes, Ghost(n)) {
                Ok(x) => x,
                Err(d) => {
                    return Err(d);
                },
            };
            let moved_yes = copy_moved(&self.moved);
            self.moved = saved;
            let ce: Option<Block> = match els {
                Some(b) => {
                    let cb = match self.sub_block(cx, b, Ghost(n)) {
                        Ok(x) => x,
                        Err(d) => {
                            return Err(d);
                        },
                    };
                    Some(cb)
                },
                None => None,
            };
            self.moved = joined_moved(&self.moved, &moved_yes);
            let ty = match type_of_if(&ct.ty, &ce, e.line, e.col) {
                Ok(x) => x,
                Err(d) => {
                    return Err(d);
                },
            };
            Ok(make(ExprKind::If(Box::new(cc), ct, ce), ty, e.line))
        } else {
            Err(diag(e.line, e.col, ""))
        }
    }

    // ---- chains ----

    fn source_of<'b>(e: &'b ast::Expr) -> (r: &'b ast::Expr)
        ensures
            r@ == chain_source(e@),
        decreases e,
    {
        proof {
            ast::expr_parts(*e);
            expr_shrinks(e@);
        }
        match &e.kind {
            ast::ExprKind::MethodCall(recv, _, _) => Self::source_of(recv),
            ast::ExprKind::Comprehension { elem, var, source, cond } => source,
            _ => e,
        }
    }

    /// The stages of a chain are known and have what they take.
    fn stages(&self, e: &ast::Expr) -> (r: Result<(bool, Option<usize>), Diag>)
        requires
            self.wf(),
        ensures
            match r {
                Ok(p) => chain_stages(self.st(), e@) == Ok::<(bool, Option<usize>), DiagV>((p.0, p.1)) && (p.1 is Some
                    ==> p.1->0 < self.locals@.len() && self.st().locals[p.1->0 as int].ty.arrayish()),
                Err(d) => chain_stages(self.st(), e@) == Err::<(bool, Option<usize>), DiagV>(d@),
            },
        decreases e,
    {
        proof {
            reveal(chain_stages);
            ast::expr_parts(*e);
            expr_shrinks(e@);
        }
        match &e.kind {
            ast::ExprKind::MethodCall(recv, name, args) => {
                proof {
                    ast::expr_parts(*e);
                    expr_shrinks(e@);
                }
                let (any, zip) = match self.stages(recv) {
                    Ok(x) => x,
                    Err(d) => {
                        return Err(d);
                    },
                };
                if text_is(name, "iter") {
                    if args.len() != 0 {
                        return Err(diag(e.line, e.col, "`.iter()` takes no arguments"));
                    }
                    Ok((any, zip))
                } else if text_is(name, "map") || text_is(name, "filter") {
                    proof {
                        if args@.len() > 0 {
                            ast::expr_parts(args@[0]);
                            expr_shrinks(args@[0]@);
                            exprs_shrink(views(args@), 0);
                        }
                    }
                    if args.len() == 0 || !matches!(args[0].kind, ast::ExprKind::Lambda(..)) {
                        return Err(diag(e.line, e.col, &cat3("`.", name, "()` takes a closure")));
                    }
                    Ok((true, zip))
                } else if text_is(name, "enumerate") {
                    Ok((true, zip))
                } else if text_is(name, "zip") {
                    if zip.is_some() || any {
                        return Err(
                            diag(e.line, e.col, "`.zip()` must come first, directly after the source"),
                        );
                    }
                    if args.len() == 0 {
                        return Err(diag(e.line, e.col, "`.zip()` takes the other array"));
                    }
                    let other = &args[0];
                    let o = match self.local_by_expr(other, "the argument of `.zip()`") {
                        Ok(x) => x,
                        Err(d) => {
                            return Err(d);
                        },
                    };
                    if !self.locals[o].ty.is_arrayish() {
                        return Err(
                            diag(
                                other.line,
                                other.col,
                                &cat3("zipping with a `", &self.locals[o].ty.to_string(), "`"),
                            ),
                        );
                    }
                    Ok((any, Some(o)))
                } else {
                    Err(
                        diag(
                            e.line,
                            e.col,
                            &cat3(
                                "unknown chain stage `.",
                                name,
                                "()`; stages are iter, map, filter, zip, enumerate; terminals are sum, count, fold, max, min, any, all",
                            ),
                        ),
                    )
                }
            },
            ast::ExprKind::Comprehension { .. } => Ok((true, None)),
            _ => Ok((false, None)),
        }
    }

    /// Bind a closure's parameters to the current values and check its body in that scope.
    /// Returns the `let`s that bind the parameters and the body expression.
    #[verifier::loop_isolation(false)]
    fn apply_closure(&mut self, cx: &Place, params: &Vec<String>, body: &ast::Expr, vals: &Vec<usize>, line: u32, Ghost(n): Ghost<nat>) -> (r:
        Result<(Vec<Stmt>, Expr), Diag>)
        requires
            old(self).wf(),
            expr_size(body@) < n,
            ids_ok(vals@, old(self).st()),
        ensures
            match r {
                Ok(p) => s_apply(old(self).env(), knot(old(self).env(), n), *cx, old(self).st(), texts(params@), body@, vals@, line) == Ok::<
                    (Seq<ir::StmtV>, ir::ExprV, St),
                    DiagV,
                >((views(p.0@), p.1@, final(self).st())) && final(self).wf() && final(self).same_env(old(self))
                    && grew(old(self).st(), final(self).st()) && p.1.ty.names_structs(final(self).n()),
                Err(d) => s_apply(old(self).env(), knot(old(self).env(), n), *cx, old(self).st(), texts(params@), body@, vals@, line) == Err::<
                    (Seq<ir::StmtV>, ir::ExprV, St),
                    DiagV,
                >(d@),
            },
        decreases expr_size(body@), 5int,
    {
        proof {
            reveal(s_apply);
            reveal(bind_params);
        }
        let ghost st0 = self.st();
        if params.len() != vals.len() {
            return Err(
                diag(
                    body.line,
                    body.col,
                    &cat5(
                        "closure takes ",
                        &show_u64(params.len() as u64),
                        " argument(s) but ",
                        &show_u64(vals.len() as u64),
                        " value(s) flow into it",
                    ),
                ),
            );
        }
        let scope: usize = self.names.len();
        let mut binds: Vec<Stmt> = Vec::new();
        let mut k: usize = 0;
        proof {
            views_empty::<Stmt>();
        }
        while k < params.len()
            invariant
                self.wf(),
                self.same_env(old(self)),
                grew(st0, self.st()),
                k <= params@.len(),
                bind_params(st0, texts(params@), vals@, line, k as nat) == (views(binds@), self.st()),
            decreases params@.len() - k,
        {
            let v: usize = vals[k];
            proof {
                assert(vals@[k as int] < st0.locals.len());
                self.local_ok(v as int);
            }
            let ty = self.locals[v].ty.copy();
            let value = self.local_expr(v, line);
            let id: usize = self.declare(copy_text(&params[k]), ty, false);
            let s = Stmt::Let(id, value);
            proof {
                views_push(binds@, s);
            }
            binds.push(s);
            k += 1;
        }
        let inside = Place { ret: cx.ret.copy(), in_loop: cx.in_loop, in_closure: true, loop_start: cx.loop_start };
        let v = match self.sub(&inside, body, Ghost(n)) {
            Ok(x) => x,
            Err(d) => {
                return Err(d);
            },
        };
        self.close(scope);
        Ok((binds, v))
    }

    fn map_stage(&mut self, cx: &Place, f: Flowing, params: &Vec<String>, body: &ast::Expr, line: u32, Ghost(n): Ghost<nat>) -> (r: Result<
        Flowing,
        Diag,
    >)
        requires
            old(self).wf(),
            expr_size(body@) < n,
            ids_ok(f@.vals, old(self).st()),
        ensures
            flowed(
                r,
                s_map(old(self).env(), knot(old(self).env(), n), *cx, old(self).st(), f@, texts(params@), body@, line),
                *old(self),
                *final(self),
            ),
        decreases expr_size(body@), 6int,
    {
        proof {
            reveal(s_map);
        }
        let (binds, v) = match self.apply_closure(cx, params, body, &f.vals, line, Ghost(n)) {
            Ok(x) => x,
            Err(d) => {
                return Err(d);
            },
        };
        if v.ty.same(&Ty::Unit) || v.ty.is_arrayish() {
            return Err(
                diag(
                    body.line,
                    body.col,
                    &cat3("a `map` closure must produce a scalar, found `", &v.ty.to_string(), "`"),
                ),
            );
        }
        let mut stmts = f.stmts;
        let mut more = binds;
        proof {
            views_join(stmts@, more@);
        }
        stmts.append(&mut more);
        let nv: usize = self.fresh_local("v", v.ty.copy(), false);
        let s = Stmt::Let(nv, v);
        proof {
            views_push(stmts@, s);
        }
        stmts.push(s);
        let mut vals: Vec<usize> = Vec::new();
        vals.push(nv);
        proof {
            assert(vals@ =~= seq![nv]);
        }
        Ok(Flowing { stmts, vals, guards: f.guards })
    }

    fn filter_stage(&mut self, cx: &Place, f: Flowing, params: &Vec<String>, body: &ast::Expr, line: u32, Ghost(n): Ghost<nat>) -> (r: Result<
        Flowing,
        Diag,
    >)
        requires
            old(self).wf(),
            expr_size(body@) < n,
            ids_ok(f@.vals, old(self).st()),
        ensures
            flowed(
                r,
                s_filter(old(self).env(), knot(old(self).env(), n), *cx, old(self).st(), f@, texts(params@), body@, line),
                *old(self),
                *final(self),
            ),
        decreases expr_size(body@), 6int,
    {
        proof {
            reveal(s_filter);
        }
        let (binds, c) = match self.apply_closure(cx, params, body, &f.vals, line, Ghost(n)) {
            Ok(x) => x,
            Err(d) => {
                return Err(d);
            },
        };
        if !c.ty.same(&Ty::Bool) {
            return Err(
                diag(
                    body.line,
                    body.col,
                    &cat3("a `filter` closure must produce `bool`, found `", &c.ty.to_string(), "`"),
                ),
            );
        }
        let mut stmts = f.stmts;
        let mut more = binds;
        proof {
            views_join(stmts@, more@);
        }
        stmts.append(&mut more);
        let mut guards = f.guards;
        let ghost was = guards@;
        let ghost g = (views(stmts@), c@);
        guards.push((stmts, c));
        proof {
            assert(guards_v(guards@) =~= guards_v(was).push(g));
            views_empty::<Stmt>();
        }
        Ok(Flowing { stmts: Vec::new(), vals: f.vals, guards })
    }

    /// The values after the stages of `e`, from those at its source.
    fn flow(&mut self, cx: &Place, e: &ast::Expr, f: Flowing, i: usize, line: u32, Ghost(n): Ghost<nat>) -> (r: Result<Flowing, Diag>)
        requires
            old(self).wf(),
            expr_size(e@) < n,
            ids_ok(f@.vals, old(self).st()),
            i < old(self).locals@.len(),
        ensures
            flowed(r, s_flow(old(self).env(), knot(old(self).env(), n), *cx, old(self).st(), e@, f@, i, line), *old(self), *final(self)),
        decreases expr_size(e@), 6int,
    {
        proof {
            reveal(s_flow);
            ast::expr_parts(*e);
            expr_shrinks(e@);
        }
        match &e.kind {
            ast::ExprKind::MethodCall(recv, name, args) => {
                proof {
                    ast::expr_parts(*e);
                    expr_shrinks(e@);
                }
                let g = match self.flow(cx, recv, f, i, line, Ghost(n)) {
                    Ok(x) => x,
                    Err(d) => {
                        return Err(d);
                    },
                };
                if text_is(name, "enumerate") {
                    let counted = self.local_expr(i, line);
                    let k: usize = self.fresh_local("k", Ty::I64, false);
                    let mut stmts = g.stmts;
                    let s = Stmt::Let(k, counted);
                    proof {
                        views_push(stmts@, s);
                    }
                    stmts.push(s);
                    let mut vals = g.vals;
                    let ghost was = vals@;
                    vals.insert(0, k);
                    proof {
                        assert(vals@ =~= seq![k] + was);
                    }
                    Ok(Flowing { stmts, vals, guards: g.guards })
                } else if text_is(name, "map") {
                    if args.len() == 0 {
                        return Ok(g);
                    }
                    proof {
                        ast::expr_parts(args@[0]);
                        expr_shrinks(args@[0]@);
                        exprs_shrink(views(args@), 0);
                    }
                    match &args[0].kind {
                        ast::ExprKind::Lambda(params, body) => self.map_stage(cx, g, params, body, line, Ghost(n)),
                        _ => Ok(g),
                    }
                } else if text_is(name, "filter") {
                    if args.len() == 0 {
                        return Ok(g);
                    }
                    proof {
                        ast::expr_parts(args@[0]);
                        expr_shrinks(args@[0]@);
                        exprs_shrink(views(args@), 0);
                    }
                    match &args[0].kind {
                        ast::ExprKind::Lambda(params, body) => self.filter_stage(cx, g, params, body, line, Ghost(n)),
                        _ => Ok(g),
                    }
                } else {
                    Ok(g)
                }
            },
            ast::ExprKind::Comprehension { elem, var, source, cond } => {
                let mut params: Vec<String> = Vec::new();
                params.push(copy_text(var));
                proof {
                    assert(texts(params@) =~= seq![var@]);
                }
                let g: Flowing = match cond {
                    Some(c) => {
                        let h = match self.filter_stage(cx, f, &params, c, line, Ghost(n)) {
                            Ok(x) => x,
                            Err(d) => {
                                return Err(d);
                            },
                        };
                        h
                    },
                    None => f,
                };
                self.map_stage(cx, g, &params, elem, line, Ghost(n))
            },
            _ => Ok(f),
        }
    }

    fn best_stmt(&self, better: BinOp, acc: usize, seen: usize, v: usize, line: u32) -> (r: Stmt)
        requires
            self.wf(),
            acc < self.locals@.len(),
            seen < self.locals@.len(),
            v < self.locals@.len(),
        ensures
            r@ == keep_best(self.st(), better, acc, seen, v, line),
    {
        let test = make(
            ExprKind::Binary(
                better,
                Box::new(self.local_expr(v, line)),
                Box::new(self.local_expr(acc, line)),
            ),
            Ty::Bool,
            line,
        );
        let unseen = make(ExprKind::Unary(UnOp::Not, Box::new(self.local_expr(seen, line))), Ty::Bool, line);
        let cond = make(ExprKind::Binary(BinOp::Or, Box::new(unseen), Box::new(test)), Ty::Bool, line);
        let mut stmts: Vec<Stmt> = Vec::new();
        stmts.push(Stmt::Assign(LValue::Var(acc), None, self.local_expr(v, line)));
        stmts.push(Stmt::Assign(LValue::Var(seen), None, make(ExprKind::Bool(true), Ty::Bool, line)));
        proof {
            assert(views(stmts@) =~= seq![
                ir::StmtV::Assign(ir::LValueV::Var(acc), None, local_expr(self.st(), v, line)),
                ir::StmtV::Assign(ir::LValueV::Var(seen), None, mk(ir::KindV::Bool(true), Ty::Bool, line)),
            ]);
        }
        Stmt::Expr(make(ExprKind::If(Box::new(cond), block_of(stmts), None), Ty::Unit, line))
    }

    fn sink(&mut self, cx: &Place, vals: &Vec<usize>, name: &String, args: &Vec<ast::Expr>, line: u32, col: u32, Ghost(n): Ghost<nat>) -> (r:
        Result<Sunk, Diag>)
        requires
            old(self).wf(),
            exprs_size(views(args@)) < n,
            ids_ok(vals@, old(self).st()),
        ensures
            sunk(
                r,
                s_sink(old(self).env(), knot(old(self).env(), n), *cx, old(self).st(), vals@, name@, views(args@), line, col),
                *old(self),
                *final(self),
            ),
        decreases exprs_size(views(args@)), 7int,
    {
        proof {
            reveal(s_sink);
        }
        let cur: Ty = if vals.len() == 1 {
            proof {
                assert(vals@[0] < self.st().locals.len());
            }
            self.locals[vals[0]].ty.copy()
        } else {
            Ty::Unit
        };
        proof {
            views_empty::<Stmt>();
            if vals@.len() == 1 {
                self.local_ok(vals@[0] as int);
            }
        }
        if text_is(name, "sum") {
            if vals.len() != 1 || !cur.is_numeric() {
                return Err(
                    diag(
                        line,
                        col,
                        &cat3("`.sum()` needs one numeric value per element, found `", &cur.to_string(), "`"),
                    ),
                );
            }
            let acc: usize = self.fresh_local("acc", cur.copy(), true);
            let zero = zero_kind(&cur);
            let mut update: Vec<Stmt> = Vec::new();
            let s = Stmt::Assign(LValue::Var(acc), Some(BinOp::Add), self.local_expr(vals[0], line));
            let ghost sv = s@;
            update.push(s);
            proof {
                assert(views(update@) =~= seq![sv]);
            }
            Ok(Sunk { acc, init: make(zero, cur, line), before: Vec::new(), update })
        } else if text_is(name, "count") {
            let acc: usize = self.fresh_local("acc", Ty::I64, true);
            let mut update: Vec<Stmt> = Vec::new();
            let s = Stmt::Assign(LValue::Var(acc), Some(BinOp::Add), make(ExprKind::Int(1), Ty::I64, line));
            let ghost sv = s@;
            update.push(s);
            proof {
                assert(views(update@) =~= seq![sv]);
            }
            Ok(Sunk { acc, init: make(ExprKind::Int(0), Ty::I64, line), before: Vec::new(), update })
        } else if text_is(name, "max") || text_is(name, "min") {
            if vals.len() != 1 || !cur.is_numeric() {
                return Err(
                    diag(
                        line,
                        col,
                        &cat5(
                            "`.",
                            name,
                            "()` needs one numeric value per element, found `",
                            &cur.to_string(),
                            "`",
                        ),
                    ),
                );
            }
            let acc: usize = self.fresh_local("acc", cur.copy(), true);
            let seen: usize = self.fresh_local("seen", Ty::Bool, true);
            let zero = zero_kind(&cur);
            let better: BinOp = if text_is(name, "max") {
                BinOp::Gt
            } else {
                BinOp::Lt
            };
            let mut before: Vec<Stmt> = Vec::new();
            let b = Stmt::Let(seen, make(ExprKind::Bool(false), Ty::Bool, line));
            let ghost bv = b@;
            before.push(b);
            let mut update: Vec<Stmt> = Vec::new();
            let s = self.best_stmt(better, acc, seen, vals[0], line);
            let ghost sv = s@;
            update.push(s);
            proof {
                assert(views(update@) =~= seq![sv]);
                assert(views(before@) =~= seq![bv]);
            }
            Ok(Sunk { acc, init: make(zero, cur, line), before, update })
        } else if text_is(name, "any") || text_is(name, "all") {
            if vals.len() != 1 || !cur.same(&Ty::Bool) {
                return Err(
                    diag(
                        line,
                        col,
                        &cat3(
                            "`.",
                            name,
                            "()` needs one `bool` per element; use `.map(|x| ..)` or a closure argument",
                        ),
                    ),
                );
            }
            let acc: usize = self.fresh_local("acc", Ty::Bool, true);
            let op: BinOp = if text_is(name, "any") {
                BinOp::Or
            } else {
                BinOp::And
            };
            let both = make(
                ExprKind::Binary(
                    op,
                    Box::new(self.local_expr(acc, line)),
                    Box::new(self.local_expr(vals[0], line)),
                ),
                Ty::Bool,
                line,
            );
            let mut update: Vec<Stmt> = Vec::new();
            let s = Stmt::Assign(LValue::Var(acc), None, both);
            let ghost sv = s@;
            update.push(s);
            proof {
                assert(views(update@) =~= seq![sv]);
            }
            let init = make(ExprKind::Bool(text_is(name, "all")), Ty::Bool, line);
            Ok(Sunk { acc, init, before: Vec::new(), update })
        } else if text_is(name, "fold") {
            self.fold(cx, vals, args, line, col, Ghost(n))
        } else {
            Err(
                diag(
                    line,
                    col,
                    &cat3(
                        "unknown chain terminal `.",
                        name,
                        "()`; terminals are sum, count, fold, max, min, any, all",
                    ),
                ),
            )
        }
    }

    fn fold(&mut self, cx: &Place, vals: &Vec<usize>, args: &Vec<ast::Expr>, line: u32, col: u32, Ghost(n): Ghost<nat>) -> (r:
        Result<Sunk, Diag>)
        requires
            old(self).wf(),
            exprs_size(views(args@)) < n,
            ids_ok(vals@, old(self).st()),
        ensures
            sunk(
                r,
                s_fold(old(self).env(), knot(old(self).env(), n), *cx, old(self).st(), vals@, views(args@), line, col),
                *old(self),
                *final(self),
            ),
        decreases exprs_size(views(args@)), 6int,
    {
        proof {
            reveal(s_fold);
        }
        if args.len() == 0 {
            return Err(diag(line, col, "`.fold(init, |acc, x| ..)`"));
        }
        let init_e = &args[0];
        proof {
            exprs_shrink(views(args@), 0);
        }
        let init = match self.sub(cx, init_e, Ghost(n)) {
            Ok(x) => x,
            Err(d) => {
                return Err(d);
            },
        };
        if !init.ty.is_scalar() {
            return Err(diag(init_e.line, init_e.col, "a fold accumulator must be scalar"));
        }
        let ghost st1 = self.st();
        let acc: usize = self.fresh_local("acc", init.ty.copy(), true);
        if args.len() < 2 {
            return Err(diag(line, col, "`.fold(init, |acc, x| ..)`"));
        }
        proof {
            ast::expr_parts(args@[1]);
            expr_shrinks(args@[1]@);
            exprs_shrink(views(args@), 1);
        }
        match &args[1].kind {
            ast::ExprKind::Lambda(params, body) => {
                let mut all: Vec<usize> = Vec::new();
                all.push(acc);
                let mut k: usize = 0;
                while k < vals.len()
                    invariant
                        k <= vals@.len(),
                        all@ =~= seq![acc] + vals@.take(k as int),
                    decreases vals@.len() - k,
                {
                    all.push(vals[k]);
                    k += 1;
                }
                proof {
                    assert(all@ =~= seq![acc] + vals@);
                    assert forall|i: int| 0 <= i < all@.len() implies (#[trigger] all@[i]) < self.st().locals.len() by {
                        if i > 0 {
                            assert(vals@[i - 1] < old(self).st().locals.len());
                        }
                    }
                }
                let (binds, v) = match self.apply_closure(cx, params, body, &all, line, Ghost(n)) {
                    Ok(x) => x,
                    Err(d) => {
                        return Err(d);
                    },
                };
                if !v.ty.same(&init.ty) {
                    return Err(
                        diag(
                            body.line,
                            body.col,
                            &cat5(
                                "the fold closure returns `",
                                &v.ty.to_string(),
                                "` but the accumulator is `",
                                &init.ty.to_string(),
                                "`",
                            ),
                        ),
                    );
                }
                let mut update = binds;
                let s = Stmt::Assign(LValue::Var(acc), None, v);
                proof {
                    views_push(update@, s);
                    views_empty::<Stmt>();
                }
                update.push(s);
                Ok(Sunk { acc, init, before: Vec::new(), update })
            },
            _ => Err(diag(line, col, "`.fold(init, |acc, x| ..)`")),
        }
    }

    /// The element of `l` that `i` counts.
    fn element(&self, l: usize, i: usize, line: u32) -> (r: Expr)
        requires
            self.wf(),
            l < self.locals@.len(),
            i < self.locals@.len(),
            self.st().locals[l as int].ty.arrayish(),
        ensures
            r@ == element(self.st(), l, i, line),
    {
        let ty: Ty = match self.locals[l].ty.elem() {
            Some(t) => t.copy(),
            None => Ty::Unit,
        };
        make(ExprKind::Index(l, Box::new(self.local_expr(i, line))), ty, line)
    }

    /// The first values of a chain.
    fn first_values(&mut self, src: usize, zip: Option<usize>, i: usize, line: u32) -> (r: Flowing)
        requires
            old(self).wf(),
            src < old(self).locals@.len(),
            i < old(self).locals@.len(),
            old(self).st().locals[src as int].ty.arrayish(),
            zip is Some ==> zip->0 < old(self).locals@.len() && old(self).st().locals[zip->0 as int].ty.arrayish(),
        ensures
            chain_first(old(self).st(), src, zip, i, line) == (r@, final(self).st()),
            final(self).wf(),
            final(self).same_env(old(self)),
            grew(old(self).st(), final(self).st()),
            ids_ok(r@.vals, final(self).st()),
    {
        proof {
            reveal(chain_first);
        }
        proof {
            self.local_ok(src as int);
        }
        let ty: Ty = match self.locals[src].ty.elem() {
            Some(t) => t.copy(),
            None => Ty::Unit,
        };
        let x: usize = self.fresh_local("x", ty, false);
        let mut stmts: Vec<Stmt> = Vec::new();
        let s = Stmt::Let(x, self.element(src, i, line));
        let ghost sv = s@;
        stmts.push(s);
        let mut vals: Vec<usize> = Vec::new();
        vals.push(x);
        proof {
            assert(views(stmts@) =~= seq![sv]);
            assert(vals@ =~= seq![x]);
            assert(guards_v(Seq::empty()) =~= Seq::empty());
        }
        match zip {
            None => {},
            Some(o) => {
                proof {
                    self.local_ok(o as int);
                }
                let oty: Ty = match self.locals[o].ty.elem() {
                    Some(t) => t.copy(),
                    None => Ty::Unit,
                };
                let y: usize = self.fresh_local("y", oty, false);
                let s2 = Stmt::Let(y, self.element(o, i, line));
                proof {
                    views_push(stmts@, s2);
                }
                stmts.push(s2);
                vals.push(y);
                proof {
                    assert(vals@ =~= seq![x, y]);
                }
            },
        }
        Flowing { stmts, vals, guards: Vec::new() }
    }

    /// An iterator chain, reduced.
    fn chain(&mut self, cx: &Place, e: &ast::Expr, Ghost(n): Ghost<nat>) -> (r: Result<Expr, Diag>)
        requires
            old(self).wf(),
            expr_size(e@) <= n,
            e.kind is MethodCall,
        ensures
            checked_expr(r, s_chain(old(self).env(), knot(old(self).env(), n), *cx, old(self).st(), e@), *old(self), *final(self)),
        decreases expr_size(e@), 2int,
    {
        proof {
            reveal(s_chain);
            ast::expr_parts(*e);
            expr_shrinks(e@);
        }
        if let ast::ExprKind::MethodCall(recv, name, args) = &e.kind {
            let line: u32 = e.line;
            proof {
                ast::expr_parts(*e);
                expr_shrinks(e@);
            }
            let source = Self::source_of(recv);
            let src = match self.local_by_expr(source, "the source of a chain") {
                Ok(x) => x,
                Err(d) => {
                    return Err(d);
                },
            };
            if !self.locals[src].ty.is_arrayish() {
                return Err(
                    diag(
                        source.line,
                        source.col,
                        &cat3("iterating over a `", &self.locals[src].ty.to_string(), "`"),
                    ),
                );
            }
            let (_any, zip) = match self.stages(recv) {
                Ok(x) => x,
                Err(d) => {
                    return Err(d);
                },
            };
            let scope: usize = self.names.len();
            let i: usize = self.fresh_local("i", Ty::I64, false);
            let f0 = self.first_values(src, zip, i, line);
            let f = match self.flow(cx, recv, f0, i, line, Ghost(n)) {
                Ok(x) => x,
                Err(d) => {
                    return Err(d);
                },
            };
            let sink = match self.sink(cx, &f.vals, name, args, line, e.col, Ghost(n)) {
                Ok(x) => x,
                Err(d) => {
                    return Err(d);
                },
            };
            if args.len() > 0 && !text_is(name, "fold") {
                return Err(diag(line, e.col, &cat3("`.", name, "()` takes no arguments")));
            }
            self.close(scope);
            Ok(self.loop_of(sink, f, i, src, zip, line))
        } else {
            Err(diag(e.line, e.col, ""))
        }
    }

    /// The loop that a chain is.
    fn loop_of(&self, sink: Sunk, f: Flowing, i: usize, src: usize, zip: Option<usize>, line: u32) -> (r: Expr)
        requires
            self.wf(),
            sink.acc < self.locals@.len(),
        ensures
            r@ == chain_block(self.st(), sink@, f@, i, chain_len(src, zip, line), line),
            expr_ok(r@, self.st(), self.n()),
    {
        proof {
            reveal(chain_block);
        }
        let own = make(ExprKind::Len(src), Ty::I64, line);
        let len: Expr = match zip {
            None => own,
            Some(o) => make(
                ExprKind::MinMax(true, Box::new(own), Box::new(make(ExprKind::Len(o), Ty::I64, line))),
                Ty::I64,
                line,
            ),
        };
        let mut inner = f.stmts;
        let mut update = sink.update;
        proof {
            views_join(inner@, update@);
        }
        inner.append(&mut update);
        let body = block_of(wrapped(f.guards, inner, line));
        let value = self.local_expr(sink.acc, line);
        let acc_ty = value.ty.copy();
        let mut stmts: Vec<Stmt> = Vec::new();
        let first = Stmt::Let(sink.acc, sink.init);
        let ghost fv = first@;
        stmts.push(first);
        proof {
            assert(views(stmts@) =~= seq![fv]);
        }
        let mut before = sink.before;
        proof {
            views_join(stmts@, before@);
        }
        stmts.append(&mut before);
        let run = Stmt::For { var: i, start: make(ExprKind::Int(0), Ty::I64, line), end: len, body };
        proof {
            views_push(stmts@, run);
        }
        stmts.push(run);
        let block = Block { stmts, tail: Some(Box::new(value)), ty: acc_ty.copy() };
        proof {
            ir::block_lists(block);
        }
        make(ExprKind::Block(block), acc_ty, line)
    }

    // ---- statements ----

    #[verifier::loop_isolation(false)]
    fn block(&mut self, cx: &Place, b: &ast::Block) -> (r: Result<Block, Diag>)
        requires
            old(self).wf(),
        ensures
            checked_block(r, s_block(old(self).env(), *cx, old(self).st(), b@), *old(self), *final(self)),
        decreases block_size(b@), 2int,
    {
        let ghost n = block_size(b@);
        proof {
            reveal(s_block);
            reveal(r_block);
            reveal(s_stmts);
        }
        let ghost env = self.env();
        let ghost st0 = self.st();
        let ghost sv = views(b.stmts@);
        let scope: usize = self.names.len();
        let mut stmts: Vec<Stmt> = Vec::new();
        let mut k: usize = 0;
        proof {
            ast::block_lists(*b);
            block_shrinks(b@);
            views_empty::<Stmt>();
            assert(sv.skip(0) =~= sv);
        }
        while k < b.stmts.len()
            invariant
                self.wf(),
                self.same_env(old(self)),
                grew(st0, self.st()),
                k <= b.stmts@.len(),
                s_stmts(env, knot(env, n), *cx, st0, sv, Seq::empty()) == s_stmts(
                    env,
                    knot(env, n),
                    *cx,
                    self.st(),
                    sv.skip(k as int),
                    views(stmts@),
                ),
            decreases b.stmts@.len() - k,
        {
            proof {
                stmts_shrink(sv, k as int);
                assert(sv.skip(k as int)[0] == sv[k as int]);
                assert(sv.skip(k as int).drop_first() =~= sv.skip(k + 1));
            }
            let s = match self.stmt(cx, &b.stmts[k], Ghost(n)) {
                Ok(x) => x,
                Err(d) => {
                    return Err(d);
                },
            };
            proof {
                views_push(stmts@, s);
            }
            stmts.push(s);
            k += 1;
        }
        proof {
            assert(sv.skip(k as int) =~= Seq::empty());
        }
        let tail: Option<Box<Expr>> = match &b.tail {
            Some(e) => {
                let t = match self.sub(cx, e, Ghost(n)) {
                    Ok(x) => x,
                    Err(d) => {
                        return Err(d);
                    },
                };
                Some(Box::new(t))
            },
            None => None,
        };
        let ty: Ty = match &tail {
            Some(t) => t.ty.copy(),
            None => Ty::Unit,
        };
        if matches!(ty, Ty::Slice(..)) {
            return Err(diag(b.line, b.col, "a block cannot have a view as its value"));
        }
        self.close(scope);
        let out = Block { stmts, tail, ty };
        proof {
            ir::block_lists(out);
        }
        Ok(out)
    }

    fn stmt(&mut self, cx: &Place, s: &ast::Stmt, Ghost(n): Ghost<nat>) -> (r: Result<Stmt, Diag>)
        requires
            old(self).wf(),
            stmt_size(s@) < n,
        ensures
            checked_stmt(r, s_stmt(old(self).env(), knot(old(self).env(), n), *cx, old(self).st(), s@), *old(self), *final(self)),
        decreases stmt_size(s@), 2int,
    {
        proof {
            reveal(s_stmt);
            ast::stmt_parts(*s);
            stmt_shrinks(s@);
        }
        match s {
            ast::Stmt::Let { .. } => self.let_typed(cx, s, Ghost(n)),
            ast::Stmt::Assign { .. } => self.assign(cx, s, Ghost(n)),
            ast::Stmt::For { .. } => self.for_stmt(cx, s, Ghost(n)),
            ast::Stmt::While { .. } => self.while_stmt(cx, s, Ghost(n)),
            ast::Stmt::Break(line, col) => {
                if !cx.in_loop {
                    return Err(diag(*line, *col, "`break` outside a loop"));
                }
                Ok(Stmt::Break)
            },
            ast::Stmt::Expr(e) => {
                let ce = match self.sub(cx, e, Ghost(n)) {
                    Ok(x) => x,
                    Err(d) => {
                        return Err(d);
                    },
                };
                if ce.ty.is_arrayish() {
                    return Err(diag(e.line, e.col, "an array expression on its own does nothing"));
                }
                Ok(Stmt::Expr(ce))
            },
            ast::Stmt::Return(..) => self.return_stmt(cx, s, Ghost(n)),
        }
    }

    fn let_typed(&mut self, cx: &Place, s: &ast::Stmt, Ghost(n): Ghost<nat>) -> (r: Result<Stmt, Diag>)
        requires
            old(self).wf(),
            stmt_size(s@) < n,
            s is Let,
        ensures
            checked_stmt(r, s_let_stmt(old(self).env(), knot(old(self).env(), n), *cx, old(self).st(), s@), *old(self), *final(self)),
        decreases stmt_size(s@), 1int,
    {
        proof {
            reveal(s_let_stmt);
            ast::stmt_parts(*s);
            stmt_shrinks(s@);
        }
        if let ast::Stmt::Let { name, mutable, ty, init, line, col } = s {
            let declared: Option<Ty> = match ty {
                Some(t) => {
                    let d = match resolve_type(t, self.structs, *line, *col) {
                        Ok(x) => x,
                        Err(d) => {
                            return Err(d);
                        },
                    };
                    Some(d)
                },
                None => None,
            };
            self.let_stmt(cx, name, *mutable, &declared, init, *line, *col, Ghost(n))
        } else {
            Err(diag(0, 0, ""))
        }
    }

    fn assign(&mut self, cx: &Place, s: &ast::Stmt, Ghost(n): Ghost<nat>) -> (r: Result<Stmt, Diag>)
        requires
            old(self).wf(),
            stmt_size(s@) < n,
            s is Assign,
        ensures
            checked_stmt(r, s_assign(old(self).env(), knot(old(self).env(), n), *cx, old(self).st(), s@), *old(self), *final(self)),
        decreases stmt_size(s@), 1int,
    {
        proof {
            reveal(s_assign);
            ast::stmt_parts(*s);
            stmt_shrinks(s@);
        }
        if let ast::Stmt::Assign { target, op, value, line, col } = s {
            if cx.in_closure {
                return Err(
                    diag(
                        *line,
                        *col,
                        "a closure in a chain cannot assign; it must be a pure function of its arguments",
                    ),
                );
            }
            let val = match self.sub(cx, value, Ghost(n)) {
                Ok(x) => x,
                Err(d) => {
                    return Err(d);
                },
            };
            let (lv, tty) = match self.target(cx, target, *line, *col, Ghost(n)) {
                Ok(x) => x,
                Err(d) => {
                    return Err(d);
                },
            };
            let _ok = match assign_fits(*op, &val.ty, &tty, target, value) {
                Ok(x) => x,
                Err(d) => {
                    return Err(d);
                },
            };
            Ok(Stmt::Assign(lv, *op, val))
        } else {
            Err(diag(0, 0, ""))
        }
    }

    fn return_stmt(&mut self, cx: &Place, s: &ast::Stmt, Ghost(n): Ghost<nat>) -> (r: Result<Stmt, Diag>)
        requires
            old(self).wf(),
            stmt_size(s@) < n,
            s is Return,
        ensures
            checked_stmt(r, s_return(old(self).env(), knot(old(self).env(), n), *cx, old(self).st(), s@), *old(self), *final(self)),
        decreases stmt_size(s@), 1int,
    {
        proof {
            reveal(s_return);
            ast::stmt_parts(*s);
            stmt_shrinks(s@);
        }
        if let ast::Stmt::Return(e, line, col) = s {
            let ce: Option<Expr> = match e {
                Some(x) => {
                    let v = match self.sub(cx, x, Ghost(n)) {
                        Ok(x) => x,
                        Err(d) => {
                            return Err(d);
                        },
                    };
                    Some(v)
                },
                None => None,
            };
            let ty = type_or_unit(&ce);
            let ok: bool = match (&ty, &cx.ret) {
                (Ty::Array(a, _), Ty::Array(b, _)) => a.same(b) || ty.same_shape(&cx.ret),
                _ => ty.same_shape(&cx.ret),
            };
            if !ok {
                return Err(
                    diag(
                        *line,
                        *col,
                        &cat5(
                            "returning `",
                            &ty.to_string(),
                            "` from a function that returns `",
                            &cx.ret.to_string(),
                            "`",
                        ),
                    ),
                );
            }
            Ok(Stmt::Return(ce))
        } else {
            Err(diag(0, 0, ""))
        }
    }

    fn for_stmt(&mut self, cx: &Place, s: &ast::Stmt, Ghost(n): Ghost<nat>) -> (r: Result<Stmt, Diag>)
        requires
            old(self).wf(),
            stmt_size(s@) < n,
            s is For,
        ensures
            checked_stmt(r, s_for(old(self).env(), knot(old(self).env(), n), *cx, old(self).st(), s@), *old(self), *final(self)),
        decreases stmt_size(s@), 1int,
    {
        proof {
            reveal(s_for);
            ast::stmt_parts(*s);
            stmt_shrinks(s@);
        }
        if let ast::Stmt::For { var, start, end, body, line, col } = s {
            let a = match self.sub(cx, start, Ghost(n)) {
                Ok(x) => x,
                Err(d) => {
                    return Err(d);
                },
            };
            let z = match self.sub(cx, end, Ghost(n)) {
                Ok(x) => x,
                Err(d) => {
                    return Err(d);
                },
            };
            if !a.ty.same(&Ty::I64) || !z.ty.same(&Ty::I64) {
                return Err(diag(*line, *col, "range bounds must be `i64`"));
            }
            let scope: usize = self.names.len();
            let id: usize = self.declare(copy_text(var), Ty::I64, false);
            let inside = Place {
                ret: cx.ret.copy(),
                in_loop: true,
                in_closure: cx.in_closure,
                loop_start: Some(self.locals.len()),
            };
            let b = match self.sub_block(&inside, body, Ghost(n)) {
                Ok(x) => x,
                Err(d) => {
                    return Err(d);
                },
            };
            if !b.ty.same(&Ty::Unit) {
                return Err(
                    diag(
                        body.line,
                        body.col,
                        &cat3("a loop body has type `()`, found `", &b.ty.to_string(), "`"),
                    ),
                );
            }
            self.close(scope);
            Ok(Stmt::For { var: id, start: a, end: z, body: b })
        } else {
            Err(diag(0, 0, ""))
        }
    }

    fn while_stmt(&mut self, cx: &Place, s: &ast::Stmt, Ghost(n): Ghost<nat>) -> (r: Result<Stmt, Diag>)
        requires
            old(self).wf(),
            stmt_size(s@) < n,
            s is While,
        ensures
            checked_stmt(r, s_while(old(self).env(), knot(old(self).env(), n), *cx, old(self).st(), s@), *old(self), *final(self)),
        decreases stmt_size(s@), 1int,
    {
        proof {
            reveal(s_while);
            ast::stmt_parts(*s);
            stmt_shrinks(s@);
        }
        if let ast::Stmt::While { cond, decreasing, body, line, col } = s {
            let c = match self.sub(cx, cond, Ghost(n)) {
                Ok(x) => x,
                Err(d) => {
                    return Err(d);
                },
            };
            if !c.ty.same(&Ty::Bool) {
                return Err(
                    diag(
                        cond.line,
                        cond.col,
                        &cat3("`while` condition is `", &c.ty.to_string(), "`, not `bool`"),
                    ),
                );
            }
            let m: Option<Expr> = match decreasing {
                Some(d) => {
                    let cm = match self.sub(cx, d, Ghost(n)) {
                        Ok(x) => x,
                        Err(d) => {
                            return Err(d);
                        },
                    };
                    if !cm.ty.same(&Ty::I64) {
                        return Err(
                            diag(
                                d.line,
                                d.col,
                                &cat3("a `decreasing` measure is `i64`, found `", &cm.ty.to_string(), "`"),
                            ),
                        );
                    }
                    Some(cm)
                },
                None => None,
            };
            let inside = Place {
                ret: cx.ret.copy(),
                in_loop: true,
                in_closure: cx.in_closure,
                loop_start: Some(self.locals.len()),
            };
            let b = match self.sub_block(&inside, body, Ghost(n)) {
                Ok(x) => x,
                Err(d) => {
                    return Err(d);
                },
            };
            if !b.ty.same(&Ty::Unit) {
                return Err(
                    diag(
                        body.line,
                        body.col,
                        &cat3("a loop body has type `()`, found `", &b.ty.to_string(), "`"),
                    ),
                );
            }
            Ok(Stmt::While { cond: c, decreasing: m, body: b, line: *line })
        } else {
            Err(diag(0, 0, ""))
        }
    }

    /// The element that an assignment writes: its array, its index and its type.
    fn index_target(&mut self, cx: &Place, base: &ast::Expr, idx: &ast::Expr, target: &ast::Expr, Ghost(n): Ghost<nat>) -> (r: Result<
        (usize, Expr, Ty),
        Diag,
    >)
        requires
            old(self).wf(),
            expr_size(idx@) < n,
        ensures
            match r {
                Ok(p) => s_index_target(old(self).env(), knot(old(self).env(), n), *cx, old(self).st(), base@, idx@, target@) == Ok::<
                    (usize, ir::ExprV, Ty, St),
                    DiagV,
                >((p.0, p.1@, p.2, final(self).st())) && final(self).wf() && final(self).same_env(old(self)) && grew(
                    old(self).st(),
                    final(self).st(),
                ) && p.2.names_structs(final(self).n()) && p.0 < final(self).locals@.len(),
                Err(d) => s_index_target(old(self).env(), knot(old(self).env(), n), *cx, old(self).st(), base@, idx@, target@) == Err::<
                    (usize, ir::ExprV, Ty, St),
                    DiagV,
                >(d@),
            },
        decreases expr_size(idx@), 5int,
    {
        proof {
            reveal(s_index_target);
        }
        let id = match self.local_by_expr(base, "the array being indexed") {
            Ok(x) => x,
            Err(d) => {
                return Err(d);
            },
        };
        let ci = match self.sub(cx, idx, Ghost(n)) {
            Ok(x) => x,
            Err(d) => {
                return Err(d);
            },
        };
        if !ci.ty.same(&Ty::I64) {
            return Err(
                diag(idx.line, idx.col, &cat3("index must be `i64`, found `", &ci.ty.to_string(), "`")),
            );
        }
        proof {
            self.local_ok(id as int);
        }
        let elem = match written_elem(&self.locals[id], target) {
            Ok(x) => x,
            Err(d) => {
                return Err(d);
            },
        };
        Ok((id, ci, elem))
    }

    /// What an assignment assigns to, and its type.
    fn target(&mut self, cx: &Place, target: &ast::Expr, line: u32, col: u32, Ghost(n): Ghost<nat>) -> (r: Result<(LValue, Ty), Diag>)
        requires
            old(self).wf(),
            expr_size(target@) < n,
        ensures
            match r {
                Ok(p) => s_target(old(self).env(), knot(old(self).env(), n), *cx, old(self).st(), target@, line, col) == Ok::<
                    (ir::LValueV, Ty, St),
                    DiagV,
                >((p.0@, p.1, final(self).st())) && final(self).wf() && final(self).same_env(old(self)) && grew(
                    old(self).st(),
                    final(self).st(),
                ),
                Err(d) => s_target(old(self).env(), knot(old(self).env(), n), *cx, old(self).st(), target@, line, col) == Err::<
                    (ir::LValueV, Ty, St),
                    DiagV,
                >(d@),
            },
        decreases expr_size(target@), 6int,
    {
        proof {
            reveal(s_target);
            ast::expr_parts(*target);
            expr_shrinks(target@);
        }
        let (tl, tc): (u32, u32) = (target.line, target.col);
        match &target.kind {
            ast::ExprKind::Var(n) => {
                let id: usize = match self.find(n) {
                    Some(i) => i,
                    None => {
                        return Err(diag(tl, tc, &cat3("unknown variable `", n, "`")));
                    },
                };
                let l = &self.locals[id];
                if !l.mutable {
                    return Err(diag(tl, tc, &cat3("`", n, "` is not mutable; declare it with `let mut`")));
                }
                if l.ty.is_arrayish() {
                    return Err(diag(tl, tc, "cannot assign a whole array or view; assign elements"));
                }
                Ok((LValue::Var(id), l.ty.copy()))
            },
            ast::ExprKind::Index(base, idx) => {
                let (id, ci, elem) = match self.index_target(cx, base, idx, target, Ghost(n)) {
                    Ok(x) => x,
                    Err(d) => {
                        return Err(d);
                    },
                };
                Ok((LValue::Index(id, ci, tl), elem))
            },
            ast::ExprKind::Field(base, f) => {
                proof {
                    ast::expr_parts(**base);
                    expr_shrinks((**base)@);
                }
                match &base.kind {
                    // `v.f = e`
                    ast::ExprKind::Var(n) => {
                        let id: usize = match self.find(n) {
                            Some(i) => i,
                            None => {
                                return Err(diag(base.line, base.col, &cat3("unknown variable `", n, "`")));
                            },
                        };
                        let l = &self.locals[id];
                        if !matches!(l.ty, Ty::Struct(_)) {
                            return Err(
                                diag(tl, tc, &cat5("`", n, "` is not a struct; it has no field `", f, "`")),
                            );
                        }
                        if !l.mutable {
                            return Err(
                                diag(tl, tc, &cat3("`", n, "` is not mutable; declare it with `let mut`")),
                            );
                        }
                        proof {
                            self.local_ok(id as int);
                        }
                        let (fi, ty) = match self.field_of(&l.ty, f, tl, tc) {
                            Ok(x) => x,
                            Err(d) => {
                                return Err(d);
                            },
                        };
                        Ok((LValue::Field(id, fi), ty))
                    },
                    // `xs[i].f = e`
                    ast::ExprKind::Index(arr, idx) => {
                        let (id, ci, elem) = match self.index_target(cx, arr, idx, target, Ghost(n)) {
                            Ok(x) => x,
                            Err(d) => {
                                return Err(d);
                            },
                        };
                        if !matches!(elem, Ty::Struct(_)) {
                            return Err(
                                diag(
                                    tl,
                                    tc,
                                    &cat5(
                                        "elements of `",
                                        &self.locals[id].name,
                                        "` are not structs; there is no field `",
                                        f,
                                        "`",
                                    ),
                                ),
                            );
                        }
                        let (fi, ty) = match self.field_of(&elem, f, tl, tc) {
                            Ok(x) => x,
                            Err(d) => {
                                return Err(d);
                            },
                        };
                        Ok((LValue::IndexField(id, ci, fi, tl), ty))
                    },
                    _ => Err(
                        diag(line, col, "a field can be assigned on a variable (`v.f`) or an element (`xs[i].f`)"),
                    ),
                }
            },
            _ => Err(diag(line, col, "assignment target must be a variable, an element or a field")),
        }
    }

    /// The elements of an array literal: values of one type.
    #[verifier::loop_isolation(false)]
    fn elements(&mut self, cx: &Place, elems: &Vec<ast::Expr>, Ghost(n): Ghost<nat>) -> (r: Result<Vec<Expr>, Diag>)
        requires
            old(self).wf(),
            exprs_size(views(elems@)) < n,
        ensures
            match r {
                Ok(v) => s_elements(old(self).env(), knot(old(self).env(), n), *cx, old(self).st(), views(elems@), Seq::empty()) == Ok::<
                    (Seq<ir::ExprV>, St),
                    DiagV,
                >((views(v@), final(self).st())) && final(self).wf() && final(self).same_env(old(self)) && grew(
                    old(self).st(),
                    final(self).st(),
                ) && (v@.len() > 0 ==> v@[0].ty.names_structs(final(self).n())),
                Err(d) => s_elements(old(self).env(), knot(old(self).env(), n), *cx, old(self).st(), views(elems@), Seq::empty()) == Err::<
                    (Seq<ir::ExprV>, St),
                    DiagV,
                >(d@),
            },
        decreases exprs_size(views(elems@)), 0int,
    {
        proof {
            reveal(s_elements);
        }
        let ghost env = self.env();
        let ghost st0 = self.st();
        let ghost ev = views(elems@);
        let mut out: Vec<Expr> = Vec::new();
        let mut k: usize = 0;
        proof {
            views_empty::<Expr>();
            assert(ev.skip(0) =~= ev);
        }
        while k < elems.len()
            invariant
                self.wf(),
                self.same_env(old(self)),
                grew(st0, self.st()),
                k <= elems@.len(),
                out@.len() > 0 ==> out@[0].ty.names_structs(self.n()),
                s_elements(env, knot(env, n), *cx, st0, ev, Seq::empty()) == s_elements(
                    env,
                    knot(env, n),
                    *cx,
                    self.st(),
                    ev.skip(k as int),
                    views(out@),
                ),
            decreases elems@.len() - k,
        {
            let e = &elems[k];
            proof {
                exprs_shrink(ev, k as int);
                assert(ev.skip(k as int)[0] == ev[k as int]);
                assert(ev.skip(k as int).drop_first() =~= ev.skip(k + 1));
            }
            let ce = match self.sub(cx, e, Ghost(n)) {
                Ok(x) => x,
                Err(d) => {
                    return Err(d);
                },
            };
            if !ce.ty.is_value() {
                return Err(diag(e.line, e.col, "array elements must be scalars or structs"));
            }
            if out.len() > 0 && !out[0].ty.same(&ce.ty) {
                return Err(
                    diag(
                        e.line,
                        e.col,
                        &cat5(
                            "array elements differ in type: `",
                            &out[0].ty.to_string(),
                            "` and `",
                            &ce.ty.to_string(),
                            "`",
                        ),
                    ),
                );
            }
            proof {
                views_push(out@, ce);
            }
            out.push(ce);
            k += 1;
        }
        proof {
            assert(ev.skip(k as int) =~= Seq::empty());
        }
        Ok(out)
    }

    /// The size of `[e; n]`: the constant, or a variable named after the length.
    fn size_of_repeat(&mut self, name: &String, n: &Expr) -> (r: Size)
        requires
            old(self).wf(),
            expr_ok(n@, old(self).st(), old(self).n()),
        ensures
            repeat_size(old(self).st(), name@, n@) == (r, final(self).st()),
            final(self).wf(),
            final(self).same_env(old(self)),
            grew(old(self).st(), final(self).st()),
    {
        match &n.kind {
            ExprKind::Int(k) => Size::Const(*k),
            ExprKind::Local(l) => {
                let nm = copy_text(&self.locals[*l].name);
                Size::Var(self.new_size(nm))
            },
            ExprKind::Len(l) => {
                let nm = cat2(&self.locals[*l].name, ".len()");
                Size::Var(self.new_size(nm))
            },
            _ => {
                let nm = cat3(name, ".len()#", &show_u64(self.sizes.len() as u64));
                Size::Var(self.new_size(nm))
            },
        }
    }

    /// A `let` whose declared type is resolved. Arrays are born here and only here.
    fn let_stmt(
        &mut self,
        cx: &Place,
        name: &String,
        mutable: bool,
        declared: &Option<Ty>,
        init: &ast::Expr,
        line: u32,
        col: u32,
        Ghost(n): Ghost<nat>,
    ) -> (r: Result<Stmt, Diag>)
        requires
            old(self).wf(),
            expr_size(init@) < n,
        ensures
            checked_stmt(
                r,
                s_let(old(self).env(), knot(old(self).env(), n), *cx, old(self).st(), name@, mutable, *declared, init@, line, col),
                *old(self),
                *final(self),
            ),
        decreases expr_size(init@), 6int,
    {
        proof {
            reveal(s_let);
            ast::expr_parts(*init);
            expr_shrinks(init@);
        }
        match &init.kind {
            ast::ExprKind::Bytes(bytes) => {
                let out = exprs_of_bytes(bytes, init.line);
                let ty = Ty::Array(Box::new(Ty::U8), Size::Const(out.len() as i64));
                proof {
                    reveal_with_fuel(Ty::names_structs, 2);
                }
                let _ok = match fits_declared(declared, &ty, line, col) {
                    Ok(x) => x,
                    Err(d) => {
                        return Err(d);
                    },
                };
                let id: usize = self.declare(copy_text(name), ty, mutable);
                let s = Stmt::LetArray(id, out);
                proof {
                    ir::stmt_parts(s);
                }
                Ok(s)
            },
            ast::ExprKind::ArrayLit(_) => self.let_list(cx, name, mutable, declared, init, line, col, Ghost(n)),
            ast::ExprKind::Comprehension { .. } => {
                self.let_build(cx, name, mutable, declared, init, line, col, Ghost(n))
            },
            ast::ExprKind::ArrayRepeat(..) => self.let_repeat(cx, name, mutable, declared, init, line, col, Ghost(n)),
            _ => {
                let ce = match self.sub(cx, init, Ghost(n)) {
                    Ok(x) => x,
                    Err(d) => {
                        return Err(d);
                    },
                };
                self.let_value(cx, name, mutable, declared, ce, init, line, col)
            },
        }
    }

    fn let_list(
        &mut self,
        cx: &Place,
        name: &String,
        mutable: bool,
        declared: &Option<Ty>,
        init: &ast::Expr,
        line: u32,
        col: u32,
        Ghost(n): Ghost<nat>,
    ) -> (r: Result<Stmt, Diag>)
        requires
            old(self).wf(),
            expr_size(init@) < n,
            init.kind is ArrayLit,
        ensures
            checked_stmt(
                r,
                s_let_list(old(self).env(), knot(old(self).env(), n), *cx, old(self).st(), name@, mutable, *declared, init@, line, col),
                *old(self),
                *final(self),
            ),
        decreases expr_size(init@), 5int,
    {
        proof {
            reveal(s_let_list);
            ast::expr_parts(*init);
            expr_shrinks(init@);
        }
        if let ast::ExprKind::ArrayLit(elems) = &init.kind {
            proof {
                ast::expr_parts(*init);
                expr_shrinks(init@);
            }
            let out = match self.elements(cx, elems, Ghost(n)) {
                Ok(x) => x,
                Err(d) => {
                    return Err(d);
                },
            };
            if out.len() == 0 {
                return Err(diag(init.line, init.col, "empty array literal has no element type"));
            }
            let ty = Ty::Array(Box::new(out[0].ty.copy()), Size::Const(out.len() as i64));
            let _ok = match fits_declared(declared, &ty, line, col) {
                Ok(x) => x,
                Err(d) => {
                    return Err(d);
                },
            };
            let id: usize = self.declare(copy_text(name), ty, mutable);
            let s = Stmt::LetArray(id, out);
            proof {
                ir::stmt_parts(s);
            }
            Ok(s)
        } else {
            Err(diag(0, 0, ""))
        }
    }

    fn let_repeat(
        &mut self,
        cx: &Place,
        name: &String,
        mutable: bool,
        declared: &Option<Ty>,
        init: &ast::Expr,
        line: u32,
        col: u32,
        Ghost(n): Ghost<nat>,
    ) -> (r: Result<Stmt, Diag>)
        requires
            old(self).wf(),
            expr_size(init@) < n,
            init.kind is ArrayRepeat,
        ensures
            checked_stmt(
                r,
                s_let_repeat(old(self).env(), knot(old(self).env(), n), *cx, old(self).st(), name@, mutable, *declared, init@, line, col),
                *old(self),
                *final(self),
            ),
        decreases expr_size(init@), 5int,
    {
        proof {
            reveal(s_let_repeat);
            ast::expr_parts(*init);
            expr_shrinks(init@);
        }
        if let ast::ExprKind::ArrayRepeat(e, times) = &init.kind {
            let ce = match self.sub(cx, e, Ghost(n)) {
                Ok(x) => x,
                Err(d) => {
                    return Err(d);
                },
            };
            if !ce.ty.is_value() {
                return Err(diag(e.line, e.col, "array elements must be scalars or structs"));
            }
            let cn = match self.sub(cx, times, Ghost(n)) {
                Ok(x) => x,
                Err(d) => {
                    return Err(d);
                },
            };
            if !cn.ty.same(&Ty::I64) {
                return Err(
                    diag(times.line, times.col, &cat3("array length must be `i64`, found `", &cn.ty.to_string(), "`")),
                );
            }
            let size = self.size_of_repeat(name, &cn);
            let ty = Ty::Array(Box::new(ce.ty.copy()), size);
            let _ok = match fits_declared(declared, &ty, line, col) {
                Ok(x) => x,
                Err(d) => {
                    return Err(d);
                },
            };
            let id: usize = self.declare(copy_text(name), ty, mutable);
            Ok(Stmt::LetRepeat(id, ce, cn))
        } else {
            Err(diag(0, 0, ""))
        }
    }

    fn let_build(
        &mut self,
        cx: &Place,
        name: &String,
        mutable: bool,
        declared: &Option<Ty>,
        init: &ast::Expr,
        line: u32,
        col: u32,
        Ghost(n): Ghost<nat>,
    ) -> (r: Result<Stmt, Diag>)
        requires
            old(self).wf(),
            expr_size(init@) < n,
            init.kind is Comprehension,
        ensures
            checked_stmt(
                r,
                s_let_build(old(self).env(), knot(old(self).env(), n), *cx, old(self).st(), name@, mutable, *declared, init@, line, col),
                *old(self),
                *final(self),
            ),
        decreases expr_size(init@), 5int,
    {
        proof {
            reveal(s_let_build);
            ast::expr_parts(*init);
            expr_shrinks(init@);
        }
        if let ast::ExprKind::Comprehension { elem, var, source, cond } = &init.kind {
            if cond.is_some() {
                return Err(
                    diag(
                        init.line,
                        init.col,
                        "the length of a filtered comprehension depends on the data; reduce it (`.sum()`, `.count()`, ...) or drop the `if`",
                    ),
                );
            }
            let src = match self.local_by_expr(source, "the source of a comprehension") {
                Ok(x) => x,
                Err(d) => {
                    return Err(d);
                },
            };
            if !self.locals[src].ty.is_arrayish() {
                return Err(
                    diag(
                        source.line,
                        source.col,
                        &cat3("iterating over a `", &self.locals[src].ty.to_string(), "`"),
                    ),
                );
            }
            proof {
                self.local_ok(src as int);
            }
            let src_elem: Ty = match self.locals[src].ty.elem() {
                Some(t) => t.copy(),
                None => Ty::Unit,
            };
            let size: Size = match self.locals[src].ty.size() {
                Some(s) => *s,
                None => Size::Const(-1),
            };
            let len = make(ExprKind::Len(src), Ty::I64, init.line);
            // body: { let var = src[k]; elem }
            let scope: usize = self.names.len();
            let k: usize = self.fresh_local("k", Ty::I64, false);
            let x: usize = self.declare(copy_text(var), src_elem.copy(), false);
            let load = make(
                ExprKind::Index(src, Box::new(make(ExprKind::Local(k), Ty::I64, init.line))),
                src_elem,
                init.line,
            );
            let ce = match self.sub(cx, elem, Ghost(n)) {
                Ok(x) => x,
                Err(d) => {
                    return Err(d);
                },
            };
            if !ce.ty.is_value() {
                return Err(diag(elem.line, elem.col, "comprehension elements must be scalars or structs"));
            }
            self.close(scope);
            let elem_ty = ce.ty.copy();
            let mut stmts: Vec<Stmt> = Vec::new();
            let s = Stmt::Let(x, load);
            let ghost sv = s@;
            stmts.push(s);
            let body = Block { stmts, tail: Some(Box::new(ce)), ty: elem_ty.copy() };
            proof {
                ir::block_lists(body);
                assert(views(stmts@) =~= seq![sv]);
            }
            let ty = Ty::Array(Box::new(elem_ty), size);
            let _ok = match fits_declared(declared, &ty, line, col) {
                Ok(x) => x,
                Err(d) => {
                    return Err(d);
                },
            };
            let id: usize = self.declare(copy_text(name), ty, mutable);
            Ok(Stmt::LetBuild { id, len, var: k, body })
        } else {
            Err(diag(0, 0, ""))
        }
    }

    /// A `let` of a value that is not a literal array.
    fn let_value(
        &mut self,
        cx: &Place,
        name: &String,
        mutable: bool,
        declared: &Option<Ty>,
        ce: Expr,
        init: &ast::Expr,
        line: u32,
        col: u32,
    ) -> (r: Result<Stmt, Diag>)
        requires
            old(self).wf(),
            expr_ok(ce@, old(self).st(), old(self).n()),
        ensures
            checked_stmt(
                r,
                s_let_value(*cx, old(self).st(), name@, mutable, *declared, ce@, init@, line, col),
                *old(self),
                *final(self),
            ),
    {
        proof {
            reveal(s_let_value);
        }
        // a call that returns an owned array: the caller owns it, under a size of its own named
        // after the call
        if let Ty::Array(elem, _) = &ce.ty {
            if let ExprKind::Call(_, _) = &ce.kind {
                let sv: usize = self.new_size(cat2(name, ".len()"));
                let ty = Ty::Array(Box::new(elem.copy()), Size::Var(sv));
                let _ok = match fits_declared(declared, &ty, line, col) {
                    Ok(x) => x,
                    Err(d) => {
                        return Err(d);
                    },
                };
                let id: usize = self.declare(copy_text(name), ty, mutable);
                return Ok(Stmt::Let(id, ce));
            }
            // `let ys = xs;` moves xs: a bare variable is the only source a move can name, so the
            // checked expression must be exactly that
            let src: usize = match &ce.kind {
                ExprKind::Local(l) => *l,
                _ => {
                    return Err(
                        diag(
                            init.line,
                            init.col,
                            "an array can only be moved from a variable; take a view with `&`",
                        ),
                    );
                },
            };
            let again: bool = match cx.loop_start {
                Some(s) => src < s,
                None => false,
            };
            if again {
                return Err(
                    diag(
                        init.line,
                        init.col,
                        &cat3(
                            "moving `",
                            &self.locals[src].name,
                            "` inside a loop would move it again on the next lap",
                        ),
                    ),
                );
            }
            let _ok = match fits_declared(declared, &ce.ty, line, col) {
                Ok(x) => x,
                Err(d) => {
                    return Err(d);
                },
            };
            let id: usize = self.declare(copy_text(name), ce.ty.copy(), mutable);
            self.moved = with_moved(&self.moved, src, line);
            return Ok(Stmt::Let(id, ce));
        }
        if ce.ty.same(&Ty::Unit) {
            return Err(diag(init.line, init.col, "cannot bind a `()` value"));
        }
        let _ok = match fits_declared(declared, &ce.ty, line, col) {
            Ok(x) => x,
            Err(d) => {
                return Err(d);
            },
        };
        let viewed: Option<usize> = match &ce.kind {
            ExprKind::Ref(l, _) => Some(*l),
            ExprKind::Local(l) => Some(*l),
            _ => None,
        };
        let ghost before = self.st();
        let id: usize = self.declare(copy_text(name), ce.ty.copy(), mutable);
        if let Some(src) = viewed {
            if ce.ty.is_arrayish() {
                proof {
                    reveal(fits);
                    assert(self.st().roots[src as int] == before.roots[src as int]);
                    assert(before.roots[src as int] < before.locals.len());
                }
                let root: usize = self.roots[src];
                let ghost now = self.st();
                self.roots.set(id, root);
                proof {
                    let next = self.st();
                    assert forall|i: int| 0 <= i < next.roots.len() implies (#[trigger] next.roots[i])
                        < next.locals.len() by {
                        if i != id {
                            assert(next.roots[i] == now.roots[i]);
                        }
                    }
                }
            }
        }
        Ok(Stmt::Let(id, ce))
    }
}

/// What came back is what the rules say, and the state is the one they leave.
spec fn checked_expr<'a>(r: Result<Expr, Diag>, s: Result<(ir::ExprV, St), DiagV>, a: Ctx<'a>, b: Ctx<'a>) -> bool {
    match r {
        Ok(v) => s == Ok::<(ir::ExprV, St), DiagV>((v@, b.st())) && b.wf() && b.same_env(&a) && grew(a.st(), b.st())
            && expr_ok(v@, b.st(), b.n()),
        Err(d) => s == Err::<(ir::ExprV, St), DiagV>(d@),
    }
}

spec fn checked_block<'a>(r: Result<Block, Diag>, s: Result<(ir::BlockV, St), DiagV>, a: Ctx<'a>, b: Ctx<'a>) -> bool {
    match r {
        Ok(v) => s == Ok::<(ir::BlockV, St), DiagV>((v@, b.st())) && b.wf() && b.same_env(&a) && grew(a.st(), b.st())
            && v.ty.names_structs(b.n()),
        Err(d) => s == Err::<(ir::BlockV, St), DiagV>(d@),
    }
}

spec fn checked_stmt<'a>(r: Result<Stmt, Diag>, s: Result<(ir::StmtV, St), DiagV>, a: Ctx<'a>, b: Ctx<'a>) -> bool {
    match r {
        Ok(v) => s == Ok::<(ir::StmtV, St), DiagV>((v@, b.st())) && b.wf() && b.same_env(&a) && grew(a.st(), b.st()),
        Err(d) => s == Err::<(ir::StmtV, St), DiagV>(d@),
    }
}

spec fn flowed<'a>(r: Result<Flowing, Diag>, s: Result<(Flow, St), DiagV>, a: Ctx<'a>, b: Ctx<'a>) -> bool {
    match r {
        Ok(v) => s == Ok::<(Flow, St), DiagV>((v@, b.st())) && b.wf() && b.same_env(&a) && grew(a.st(), b.st())
            && ids_ok(v@.vals, b.st()),
        Err(d) => s == Err::<(Flow, St), DiagV>(d@),
    }
}

spec fn sunk<'a>(r: Result<Sunk, Diag>, s: Result<(Sink, St), DiagV>, a: Ctx<'a>, b: Ctx<'a>) -> bool {
    match r {
        Ok(v) => s == Ok::<(Sink, St), DiagV>((v@, b.st())) && b.wf() && b.same_env(&a) && grew(a.st(), b.st())
            && v.acc < b.locals@.len(),
        Err(d) => s == Err::<(Sink, St), DiagV>(d@),
    }
}

spec fn opts_v(s: Seq<Option<Expr>>) -> Seq<Option<ir::ExprV>> {
    Seq::new(s.len(), |i: int| opt_expr(s[i]))
}

spec fn uses_v(s: Seq<(usize, bool, usize)>) -> Seq<RootUse> {
    Seq::new(s.len(), |i: int| RootUse { root: s[i].0, mutable: s[i].1, arg: s[i].2 as int })
}

/// The values of fields that all have one.
#[verifier::loop_isolation(false)]
fn unwrapped(mut vals: Vec<Option<Expr>>) -> (r: Vec<Expr>)
    requires
        forall|i: int| 0 <= i < vals@.len() ==> (#[trigger] vals@[i]) is Some,
    ensures
        views(r@) == all_given(opts_v(vals@)),
{
    let ghost all = vals@;
    let mut out: Vec<Expr> = Vec::new();
    while vals.len() > 0
        invariant
            out@.len() + vals@.len() == all.len(),
            vals@ == all.skip(out@.len() as int),
            forall|i: int| 0 <= i < out@.len() ==> Some(#[trigger] out@[i]) == all[i],
        decreases vals@.len(),
    {
        let ghost n = out@.len() as int;
        let first = vals.remove(0);
        proof {
            assert(first == all[n]);
            assert(vals@ =~= all.skip(n + 1));
        }
        match first {
            Some(e) => {
                out.push(e);
            },
            None => {
                // every field has a value
            },
        }
    }
    proof {
        assert(views(out@) =~= all_given(opts_v(all)));
    }
    out
}

fn copy_moved(m: &Vec<Option<u32>>) -> (r: Vec<Option<u32>>)
    ensures
        r@ == m@,
{
    let mut out: Vec<Option<u32>> = Vec::new();
    let mut i: usize = 0;
    while i < m.len()
        invariant
            i <= m@.len(),
            out@ == m@.take(i as int),
        decreases m@.len() - i,
    {
        out.push(m[i]);
        proof {
            assert(m@.take(i + 1) =~= m@.take(i as int).push(m@[i as int]));
        }
        i += 1;
    }
    proof {
        assert(m@.take(i as int) =~= m@);
    }
    out
}

fn moved_of(m: &Vec<Option<u32>>, i: usize) -> (r: Option<u32>)
    ensures
        r == moved_at(m@, i as int),
{
    if i < m.len() {
        m[i]
    } else {
        None
    }
}

/// What was moved on either side.
fn joined_moved(a: &Vec<Option<u32>>, b: &Vec<Option<u32>>) -> (r: Vec<Option<u32>>)
    ensures
        r@ == merge_moved(a@, b@),
{
    let n: usize = if a.len() < b.len() {
        b.len()
    } else {
        a.len()
    };
    let mut out: Vec<Option<u32>> = Vec::new();
    let mut i: usize = 0;
    while i < n
        invariant
            n == crate::typing::max_len(a@.len(), b@.len()),
            i <= n,
            out@ =~= merge_moved(a@, b@).take(i as int),
        decreases n - i,
    {
        let x = moved_of(a, i);
        let y = moved_of(b, i);
        out.push(if x.is_some() { x } else { y });
        i += 1;
    }
    proof {
        assert(merge_moved(a@, b@).take(n as int) =~= merge_moved(a@, b@));
    }
    out
}

/// The local marked as moved.
fn with_moved(m: &Vec<Option<u32>>, id: usize, line: u32) -> (r: Vec<Option<u32>>)
    ensures
        r@ == mark_moved(m@, id as int, line),
{
    let mut out = copy_moved(m);
    let ghost first = out@;
    while out.len() <= id
        invariant
            first == m@,
            first.len() <= out@.len(),
            out@.len() <= first.len() || out@.len() <= id + 1,
            forall|k: int| 0 <= k < out@.len() ==> #[trigger] out@[k] == moved_at(m@, k),
        decreases id + 1 - out@.len(),
    {
        out.push(None);
    }
    out.set(id, Some(line));
    proof {
        assert(out@ =~= mark_moved(m@, id as int, line));
    }
    out
}

fn exprs_of_bytes(b: &Vec<u8>, line: u32) -> (r: Vec<Expr>)
    ensures
        views(r@) == byte_exprs(b@, line),
        r@.len() == b@.len(),
{
    let mut out: Vec<Expr> = Vec::new();
    let mut i: usize = 0;
    while i < b.len()
        invariant
            i <= b@.len(),
            out@.len() == i,
            forall|k: int| 0 <= k < i ==> (#[trigger] out@[k])@ == byte_exprs(b@, line)[k],
        decreases b@.len() - i,
    {
        out.push(make(ExprKind::Byte(b[i]), Ty::U8, line));
        i += 1;
    }
    proof {
        assert(views(out@) =~= byte_exprs(b@, line));
    }
    out
}


/// The types of a function's parameters.
#[verifier::loop_isolation(false)]
fn param_types(structs: &Vec<StructDef>, params: &Vec<ast::Param>) -> (r: Result<Vec<Ty>, Diag>)
    ensures
        match r {
            Ok(v) => s_param_types(views(structs@), views(params@), params@.len()) == Ok::<Seq<Ty>, DiagV>(v@) && (
            forall|i: int| 0 <= i < v@.len() ==> (#[trigger] v@[i]).names_structs(structs@.len() as int)) && v@.len()
                == params@.len(),
            Err(d) => s_param_types(views(structs@), views(params@), params@.len()) == Err::<Seq<Ty>, DiagV>(d@),
        },
{
    let ghost sv = views(structs@);
    let ghost pv = views(params@);
    let mut out: Vec<Ty> = Vec::new();
    let mut i: usize = 0;
    while i < params.len()
        invariant
            i <= params@.len(),
            out@.len() == i,
            s_param_types(sv, pv, i as nat) == Ok::<Seq<Ty>, DiagV>(out@),
            forall|k: int| 0 <= k < i ==> (#[trigger] out@[k]).names_structs(structs@.len() as int),
        decreases params@.len() - i,
    {
        let p = &params[i];
        match resolve_type(&p.ty, structs, p.line, p.col) {
            Err(d) => {
                proof {
                    param_types_stop(sv, pv, i + 1, pv.len());
                }
                return Err(d);
            },
            Ok(ty) => {
                if matches!(ty, Ty::Array(..)) {
                    proof {
                        param_types_stop(sv, pv, i + 1, pv.len());
                    }
                    return Err(
                        diag(p.line, p.col, "arrays are passed as views: write `&[T]` or `&mut [T]`"),
                    );
                }
                out.push(ty);
            },
        }
        i += 1;
    }
    Ok(out)
}

/// What is wrong with the first parameters is wrong with them all.
proof fn param_types_stop(sv: Seq<ir::StructDefV>, pv: Seq<ast::ParamV>, n: int, m: nat)
    requires
        0 <= n <= m,
        s_param_types(sv, pv, n as nat) is Err,
    ensures
        s_param_types(sv, pv, m) == s_param_types(sv, pv, n as nat),
    decreases m,
{
    if n < m {
        param_types_stop(sv, pv, n, (m - 1) as nat);
    }
}

proof fn sigs_stop(sv: Seq<ir::StructDefV>, fv: Seq<ast::FuncV>, n: int, m: nat)
    requires
        0 <= n <= m,
        s_sigs(sv, fv, n as nat) is Err,
    ensures
        s_sigs(sv, fv, m) == s_sigs(sv, fv, n as nat),
    decreases m,
{
    reveal(s_sigs);
    if n < m {
        sigs_stop(sv, fv, n, (m - 1) as nat);
    }
}

/// The signatures of a program, so calls can go in any order.
#[verifier::loop_isolation(false)]
fn signatures(structs: &Vec<StructDef>, funcs: &Vec<ast::Func>) -> (r: Result<Vec<Sig>, Diag>)
    requires
        structs_ok(views(structs@)),
    ensures
        match r {
            Ok(v) => s_sigs(views(structs@), views(funcs@), funcs@.len()) == Ok::<Seq<SigV>, DiagV>(views(v@))
                && v@.len() == funcs@.len() && env_ok((Env { sigs: views(v@), structs: views(structs@) })) && (forall|
                i: int,
            |
                0 <= i < v@.len() ==> (#[trigger] v@[i]).params@.len() == funcs@[i].params@.len()),
            Err(d) => s_sigs(views(structs@), views(funcs@), funcs@.len()) == Err::<Seq<SigV>, DiagV>(d@),
        },
{
    let ghost sv = views(structs@);
    let ghost fv = views(funcs@);
    let ghost ns = structs@.len() as int;
    proof {
        reveal(s_sigs);
        reveal(env_ok);
        views_empty::<Sig>();
    }
    let mut sigs: Vec<Sig> = Vec::new();
    let mut i: usize = 0;
    while i < funcs.len()
        invariant
            i <= funcs@.len(),
            sigs@.len() == i,
            s_sigs(sv, fv, i as nat) == Ok::<Seq<SigV>, DiagV>(views(sigs@)),
            forall|k: int| 0 <= k < i ==> (#[trigger] sigs@[k]).params@.len() == funcs@[k].params@.len(),
            forall|k: int| 0 <= k < i ==> (#[trigger] sigs@[k]).ret.names_structs(ns),
            forall|k: int, j: int|
                #![trigger sigs@[k].params@[j]]
                0 <= k < i && 0 <= j < sigs@[k].params@.len() ==> sigs@[k].params@[j].names_structs(ns),
        decreases funcs@.len() - i,
    {
        let f = &funcs[i];
        proof {
            assert(fv[i as int] == f@);
        }
        if find_sig(&sigs, &f.name).is_some() {
            proof {
                sigs_stop(sv, fv, i + 1, fv.len());
            }
            return Err(diag(f.line, f.col, &cat3("function `", &f.name, "` is defined twice")));
        }
        if text_is(&f.name, "println") {
            proof {
                sigs_stop(sv, fv, i + 1, fv.len());
            }
            return Err(diag(f.line, f.col, "`println` is a builtin"));
        }
        let params = match param_types(structs, &f.params) {
            Ok(x) => x,
            Err(d) => {
                proof {
                    sigs_stop(sv, fv, i + 1, fv.len());
                }
                return Err(d);
            },
        };
        let ret = match resolve_type(&f.ret, structs, f.line, f.col) {
            Ok(x) => x,
            Err(d) => {
                proof {
                    sigs_stop(sv, fv, i + 1, fv.len());
                }
                return Err(d);
            },
        };
        if matches!(ret, Ty::Slice(..)) {
            proof {
                sigs_stop(sv, fv, i + 1, fv.len());
            }
            return Err(
                diag(
                    f.line,
                    f.col,
                    "a function returns a value, not a view: write `[T]` for an owned array",
                ),
            );
        }
        let sig = Sig { name: copy_text(&f.name), params, ret };
        proof {
            views_push(sigs@, sig);
        }
        sigs.push(sig);
        i += 1;
    }
    proof {
        let env = Env { sigs: views(sigs@), structs: sv };
        assert forall|k: int, j: int|
            #![trigger env.sigs[k].params[j]]
            0 <= k < env.sigs.len() && 0 <= j < env.sigs[k].params.len() implies env.sigs[k].params[j].names_structs(
            ns,
        ) by {
            assert(sigs@[k].params@[j].names_structs(ns));
        }
        assert forall|k: int| 0 <= k < env.sigs.len() implies (#[trigger] env.sigs[k]).ret.names_structs(ns) by {
            assert(sigs@[k].ret.names_structs(ns));
        }
    }
    Ok(sigs)
}

/// The fields of a struct: scalars, with names of their own.
#[verifier::loop_isolation(false)]
fn fields_of(structs: &Vec<StructDef>, fields: &Vec<ast::FieldDef>) -> (r: Result<Vec<(String, Ty)>, Diag>)
    ensures
        match r {
            Ok(v) => s_fields(views(structs@), views(fields@), Seq::empty(), 0) == Ok::<Seq<(Seq<char>, Ty)>, DiagV>(
                struct_fields_v(v@),
            ) && (forall|i: int| 0 <= i < v@.len() ==> (#[trigger] v@[i]).1.scalar()),
            Err(d) => s_fields(views(structs@), views(fields@), Seq::empty(), 0) == Err::<
                Seq<(Seq<char>, Ty)>,
                DiagV,
            >(d@),
        },
{
    let ghost sv = views(structs@);
    let ghost fv = views(fields@);
    let mut out: Vec<(String, Ty)> = Vec::new();
    let mut i: usize = 0;
    proof {
        assert(struct_fields_v(out@) =~= Seq::empty());
    }
    while i < fields.len()
        invariant
            i <= fields@.len(),
            s_fields(sv, fv, Seq::empty(), 0) == s_fields(sv, fv, struct_fields_v(out@), i as int),
            forall|k: int| 0 <= k < out@.len() ==> (#[trigger] out@[k]).1.scalar(),
        decreases fields@.len() - i,
    {
        let f = &fields[i];
        proof {
            assert(fv[i as int] == f@);
        }
        if has_field(&out, &f.name) {
            return Err(diag(f.line, f.col, &cat3("field `", &f.name, "` is declared twice")));
        }
        let ty = match resolve_type(&f.ty, structs, f.line, f.col) {
            Ok(x) => x,
            Err(d) => {
                return Err(d);
            },
        };
        if !ty.is_scalar() {
            return Err(
                diag(f.line, f.col, &cat3("a field is a scalar (`i64 f64 bool u8`); `", &f.name, "` is not")),
            );
        }
        let ghost was = out@;
        out.push((copy_text(&f.name), ty));
        proof {
            assert(struct_fields_v(out@) =~= struct_fields_v(was).push((f.name@, ty)));
        }
        i += 1;
    }
    Ok(out)
}

/// Whether one of the fields has the name.
fn has_field(fields: &Vec<(String, Ty)>, name: &String) -> (r: bool)
    ensures
        r == (field_index(struct_fields_v(fields@), name@, 0) is Some),
{
    let mut i: usize = 0;
    while i < fields.len()
        invariant
            i <= fields@.len(),
            field_index(struct_fields_v(fields@), name@, 0) == field_index(
                struct_fields_v(fields@),
                name@,
                i as int,
            ),
        decreases fields@.len() - i,
    {
        if fields[i].0 == *name {
            return true;
        }
        i += 1;
    }
    false
}

proof fn structs_stop(dv: Seq<ast::StructDefV>, n: int, m: nat)
    requires
        0 <= n <= m,
        s_structs(dv, n as nat) is Err,
    ensures
        s_structs(dv, m) == s_structs(dv, n as nat),
    decreases m,
{
    reveal(s_structs);
    if n < m {
        structs_stop(dv, n, (m - 1) as nat);
    }
}

/// The struct types of a program.
#[verifier::loop_isolation(false)]
fn struct_types(defs: &Vec<ast::StructDef>) -> (r: Result<Vec<StructDef>, Diag>)
    ensures
        match r {
            Ok(v) => s_structs(views(defs@), defs@.len()) == Ok::<Seq<ir::StructDefV>, DiagV>(views(v@)) && structs_ok(
                views(v@),
            ),
            Err(d) => s_structs(views(defs@), defs@.len()) == Err::<Seq<ir::StructDefV>, DiagV>(d@),
        },
{
    let ghost dv = views(defs@);
    let mut structs: Vec<StructDef> = Vec::new();
    let mut i: usize = 0;
    proof {
        reveal(s_structs);
        views_empty::<StructDef>();
    }
    while i < defs.len()
        invariant
            i <= defs@.len(),
            s_structs(dv, i as nat) == Ok::<Seq<ir::StructDefV>, DiagV>(views(structs@)),
            structs_ok(views(structs@)),
        decreases defs@.len() - i,
    {
        let sd = &defs[i];
        proof {
            assert(dv[i as int] == sd@);
        }
        if find_struct(&structs, &sd.name).is_some() {
            proof {
                structs_stop(dv, i + 1, dv.len());
            }
            return Err(diag(sd.line, sd.col, &cat3("struct `", &sd.name, "` is defined twice")));
        }
        if text_is(&sd.name, "i64") || text_is(&sd.name, "f64") || text_is(&sd.name, "bool") || text_is(
            &sd.name,
            "u8",
        ) {
            proof {
                structs_stop(dv, i + 1, dv.len());
            }
            return Err(diag(sd.line, sd.col, &cat3("`", &sd.name, "` is a builtin type")));
        }
        let fields = match fields_of(&structs, &sd.fields) {
            Ok(x) => x,
            Err(d) => {
                proof {
                    structs_stop(dv, i + 1, dv.len());
                }
                return Err(d);
            },
        };
        if fields.len() == 0 {
            proof {
                structs_stop(dv, i + 1, dv.len());
            }
            return Err(diag(sd.line, sd.col, &cat3("struct `", &sd.name, "` has no fields")));
        }
        let (layout, fixed): (Layout, bool) = match &sd.layout {
            Some(t) => {
                if text_is(t, "soa") {
                    (Layout::Soa, true)
                } else {
                    (Layout::Aos, true)
                }
            },
            None => (Layout::Aos, false),
        };
        let def = StructDef { name: copy_text(&sd.name), fields, layout, fixed };
        let ghost was = views(structs@);
        proof {
            views_push(structs@, def);
        }
        structs.push(def);
        proof {
            let now = views(structs@);
            assert forall|k: int, j: int|
                #![trigger now[k].fields[j]]
                0 <= k < now.len() && 0 <= j < now[k].fields.len() implies now[k].fields[j].1.scalar() by {
                if k < was.len() {
                    assert(now[k] == was[k]);
                    assert(was[k].fields[j].1.scalar());
                } else {
                    assert(fields@[j].1.scalar());
                }
            }
        }
        i += 1;
    }
    Ok(structs)
}

/// There is a `main` with a body, no parameters and no value.
fn main_fits(sigs: &Vec<Sig>, funcs: &Vec<ast::Func>) -> (r: Result<(), Diag>)
    requires
        sigs@.len() == funcs@.len(),
    ensures
        match r {
            Ok(_) => check_main(views(sigs@), views(funcs@)) is Ok,
            Err(d) => check_main(views(sigs@), views(funcs@)) == Err::<(), DiagV>(d@),
        },
{
    match find_sig(sigs, &"main".to_owned()) {
        None => Err(diag(1, 1, "no `fn main()`")),
        Some(i) => {
            let f = &funcs[i];
            proof {
                assert(views(funcs@)[i as int] == f@);
                assert(views(sigs@)[i as int] == sigs@[i as int]@);
            }
            if f.body.is_none() {
                return Err(diag(f.line, f.col, "`main` cannot be extern"));
            }
            if sigs[i].params.len() > 0 || !sigs[i].ret.same(&Ty::Unit) {
                return Err(diag(f.line, f.col, "`main` takes no parameters and returns `()`"));
            }
            Ok(())
        },
    }
}

proof fn params_stop(st: St, pv: Seq<ast::ParamV>, tys: Seq<Ty>, n: int, m: nat)
    requires
        0 <= n <= m,
        s_params(st, pv, tys, n as nat) is Err,
    ensures
        s_params(st, pv, tys, m) == s_params(st, pv, tys, n as nat),
    decreases m,
{
    reveal(s_params);
    if n < m {
        params_stop(st, pv, tys, n, (m - 1) as nat);
    }
}

fn effects_known(uses: &Vec<String>, line: u32, col: u32) -> (r: Result<(), Diag>)
    ensures
        match r {
            Ok(_) => check_uses(texts(uses@), 0, line, col) is Ok,
            Err(d) => check_uses(texts(uses@), 0, line, col) == Err::<(), DiagV>(d@),
        },
{
    let mut i: usize = 0;
    while i < uses.len()
        invariant
            i <= uses@.len(),
            check_uses(texts(uses@), 0, line, col) == check_uses(texts(uses@), i as int, line, col),
        decreases uses@.len() - i,
    {
        if !text_is(&uses[i], "io") && !text_is(&uses[i], "unbounded") {
            return Err(
                diag(line, col, &cat3("unknown effect `", &uses[i], "`; effects are `io` and `unbounded`")),
            );
        }
        i += 1;
    }
    Ok(())
}

fn copy_texts(v: &Vec<String>) -> (r: Vec<String>)
    ensures
        texts(r@) == texts(v@),
{
    let mut out: Vec<String> = Vec::new();
    let mut i: usize = 0;
    while i < v.len()
        invariant
            i <= v@.len(),
            out@.len() == i,
            forall|k: int| 0 <= k < i ==> (#[trigger] out@[k])@ == v@[k]@,
        decreases v@.len() - i,
    {
        out.push(copy_text(&v[i]));
        i += 1;
    }
    proof {
        assert(texts(out@) =~= texts(v@));
    }
    out
}

fn copy_pairs(v: &Vec<ast::Pair>) -> (r: Vec<ast::Pair>)
    ensures
        views(r@) == views(v@),
{
    let mut out: Vec<ast::Pair> = Vec::new();
    let mut i: usize = 0;
    while i < v.len()
        invariant
            i <= v@.len(),
            out@.len() == i,
            forall|k: int| 0 <= k < i ==> (#[trigger] out@[k])@ == v@[k]@,
        decreases v@.len() - i,
    {
        let p = &v[i];
        out.push(ast::Pair { key: copy_text(&p.key), val: copy_text(&p.val), line: p.line, col: p.col });
        i += 1;
    }
    proof {
        assert(views(out@) =~= views(v@));
    }
    out
}

/// The type of the last statement that returns a value.
fn type_of_last_return(stmts: &Vec<Stmt>) -> (r: Option<Ty>)
    ensures
        r == last_return(views(stmts@)),
{
    let ghost sv = views(stmts@);
    let mut i: usize = stmts.len();
    proof {
        assert(sv.take(sv.len() as int) =~= sv);
    }
    while i > 0
        invariant
            sv == views(stmts@),
            i <= sv.len(),
            last_return(sv) == last_return(sv.take(i as int)),
        decreases i,
    {
        proof {
            ir::stmt_parts(stmts@[i - 1]);
            assert(sv.take(i as int).last() == stmts@[i - 1]@);
            assert(sv.take(i as int).drop_last() =~= sv.take(i - 1));
        }
        if let Stmt::Return(Some(e)) = &stmts[i - 1] {
            return Some(e.ty.copy());
        }
        i -= 1;
    }
    None
}

/// What a function with this body returns.
fn result_of(f: &ast::Func, ret: &Ty, body: &Block) -> (r: Result<Ty, Diag>)
    ensures
        match r {
            Ok(t) => s_result(f@, *ret, body@) == Ok::<Ty, DiagV>(t),
            Err(d) => s_result(f@, *ret, body@) == Err::<Ty, DiagV>(d@),
        },
{
    proof {
        ir::block_lists(*body);
        if body.stmts@.len() > 0 {
            ir::stmt_parts(body.stmts@[body.stmts@.len() - 1]);
        }
    }
    let returns_last: bool = body.stmts.len() > 0 && matches!(body.stmts[body.stmts.len() - 1], Stmt::Return(_));
    if body.tail.is_none() && !ret.same(&Ty::Unit) && !returns_last {
        return Err(
            diag(
                f.line,
                f.col,
                &cat5("`", &f.name, "` returns `", &ret.to_string(), "` but its body has no value"),
            ),
        );
    }
    if let Some(t) = &body.tail {
        if !t.ty.same_shape(ret) {
            return Err(
                diag(
                    t.line,
                    0,
                    &cat7(
                        "`",
                        &f.name,
                        "` returns `",
                        &ret.to_string(),
                        "`, but its body has type `",
                        &t.ty.to_string(),
                        "`",
                    ),
                ),
            );
        }
    }
    // an owned array return carries the size of what is actually returned, so a caller can cost
    // its loops over the result
    if matches!(ret, Ty::Array(..)) {
        let returned: Option<Ty> = match &body.tail {
            Some(t) => Some(t.ty.copy()),
            None => type_of_last_return(&body.stmts),
        };
        return match returned {
            Some(Ty::Array(e, sz)) => Ok(Ty::Array(e, sz)),
            _ => Err(
                diag(
                    f.line,
                    0,
                    &cat3("`", &f.name, "` returns an owned array, but its body does not end in one"),
                ),
            ),
        };
    }
    Ok(ret.copy())
}

/// A function, typed.
#[verifier::loop_isolation(false)]
fn check_func(f: &ast::Func, sigs: &Vec<Sig>, sig: &Sig, structs: &Vec<StructDef>) -> (r: Result<Func, Diag>)
    requires
        env_ok((Env { sigs: views(sigs@), structs: views(structs@) })),
        sig.params@.len() == f.params@.len(),
        forall|i: int| 0 <= i < sig.params@.len() ==> (#[trigger] sig.params@[i]).names_structs(structs@.len() as int),
    ensures
        match r {
            Ok(g) => s_func((Env { sigs: views(sigs@), structs: views(structs@) }), f@, sig@) == Ok::<
                ir::FuncV,
                DiagV,
            >(g@),
            Err(d) => s_func((Env { sigs: views(sigs@), structs: views(structs@) }), f@, sig@) == Err::<
                ir::FuncV,
                DiagV,
            >(d@),
        },
{
    let ghost pv = views(f.params@);
    let mut cx = Ctx {
        sigs,
        structs,
        locals: Vec::new(),
        roots: Vec::new(),
        names: Vec::new(),
        sizes: Vec::new(),
        moved: Vec::new(),
        fresh: BigNat::zero(),
    };
    let ghost env = cx.env();
    proof {
        reveal(s_func);
        reveal(s_params);
        reveal(fits);
        views_empty::<Local>();
        views_empty::<SizeInfo>();
        assert(names_v(cx.names@) =~= Seq::empty());
        assert(cx.st() == start());
    }
    let mut params: Vec<usize> = Vec::new();
    let mut k: usize = 0;
    while k < f.params.len()
        invariant
            cx.wf(),
            cx.env() == env,
            cx.structs == structs,
            k <= f.params@.len(),
            cx.locals@.len() == k,
            params@.len() == k,
            forall|i: int| 0 <= i < k ==> #[trigger] params@[i] == i,
            s_params(start(), pv, sig@.params, k as nat) == Ok::<St, DiagV>(cx.st()),
        decreases f.params@.len() - k,
    {
        let p = &f.params[k];
        proof {
            assert(pv[k as int] == p@);
            assert(sig.params@[k as int].names_structs(structs@.len() as int));
        }
        // a slice parameter's size is its own variable, named after the parameter
        let ty: Ty = match &sig.params[k] {
            Ty::Slice(e, m, _) => {
                let sv: usize = cx.new_size(cat2(&p.name, ".len()"));
                Ty::Slice(Box::new(e.copy()), *m, Size::Var(sv))
            },
            t => t.copy(),
        };
        if cx.find(&p.name).is_some() {
            proof {
                params_stop(start(), pv, sig@.params, k + 1, pv.len());
            }
            return Err(diag(p.line, p.col, &cat3("parameter `", &p.name, "` is declared twice")));
        }
        let id: usize = cx.declare(copy_text(&p.name), ty, false);
        params.push(id);
        k += 1;
    }
    proof {
        assert(params@ =~= param_ids(f.params@.len()));
    }
    match &f.body {
        None => {
            match effects_known(&f.uses, f.line, f.col) {
                Ok(_) => {},
                Err(d) => {
                    return Err(d);
                },
            }
            Ok(
                Func {
                    name: copy_text(&f.name),
                    params,
                    ret: sig.ret.copy(),
                    locals: cx.locals,
                    sizes: cx.sizes,
                    body: None,
                    uses: copy_texts(&f.uses),
                    asserts: copy_pairs(&f.asserts),
                    line: f.line,
                },
            )
        },
        Some(b) => {
            if f.uses.len() > 0 {
                return Err(
                    diag(
                        f.line,
                        f.col,
                        "effects are inferred for a function with a body; `uses` belongs on an `extern`",
                    ),
                );
            }
            let place = Place { ret: sig.ret.copy(), in_loop: false, in_closure: false, loop_start: None };
            let body = match cx.block(&place, b) {
                Ok(x) => x,
                Err(d) => {
                    return Err(d);
                },
            };
            let ret = match result_of(f, &sig.ret, &body) {
                Ok(x) => x,
                Err(d) => {
                    return Err(d);
                },
            };
            proof {
                assert(texts(Seq::empty()) =~= Seq::<Seq<char>>::empty());
            }
            Ok(
                Func {
                    name: copy_text(&f.name),
                    params,
                    ret,
                    locals: cx.locals,
                    sizes: cx.sizes,
                    body: Some(body),
                    uses: Vec::new(),
                    asserts: copy_pairs(&f.asserts),
                    line: f.line,
                },
            )
        },
    }
}

proof fn funcs_stop(env: Env, fv: Seq<ast::FuncV>, n: int, m: nat)
    requires
        0 <= n <= m,
        s_funcs(env, fv, n as nat) is Err,
    ensures
        s_funcs(env, fv, m) == s_funcs(env, fv, n as nat),
    decreases m,
{
    reveal(s_funcs);
    if n < m {
        funcs_stop(env, fv, n, (m - 1) as nat);
    }
}

/// The typed module of a program, or what is wrong with it.
#[verifier::loop_isolation(false)]
pub fn check(prog: &ast::Program) -> (r: Result<Module, Diag>)
    ensures
        match r {
            Ok(m) => s_check(prog@) == Ok::<ir::ModuleV, DiagV>(m@),
            Err(d) => s_check(prog@) == Err::<ir::ModuleV, DiagV>(d@),
        },
{
    // struct types first: fields are scalar, names unique
    let structs = match struct_types(&prog.structs) {
        Ok(x) => x,
        Err(d) => {
            return Err(d);
        },
    };
    // signatures next, so calls can go in any order
    let sigs = match signatures(&structs, &prog.funcs) {
        Ok(x) => x,
        Err(d) => {
            return Err(d);
        },
    };
    match main_fits(&sigs, &prog.funcs) {
        Ok(_) => {},
        Err(d) => {
            return Err(d);
        },
    }
    let ghost env = Env { sigs: views(sigs@), structs: views(structs@) };
    let ghost fv = views(prog.funcs@);
    let mut funcs: Vec<Func> = Vec::new();
    let mut i: usize = 0;
    proof {
        reveal(s_funcs);
        views_empty::<Func>();
    }
    while i < prog.funcs.len()
        invariant
            i <= prog.funcs@.len(),
            s_funcs(env, fv, i as nat) == Ok::<Seq<ir::FuncV>, DiagV>(views(funcs@)),
        decreases prog.funcs@.len() - i,
    {
        proof {
            reveal(env_ok);
            assert(fv[i as int] == prog.funcs@[i as int]@);
            assert(env.sigs[i as int] == sigs@[i as int]@);
            assert forall|j: int| 0 <= j < sigs@[i as int].params@.len() implies (#[trigger] sigs@[i as int].params@[j])
                .names_structs(structs@.len() as int) by {
                assert(env.sigs[i as int].params[j].names_structs(structs@.len() as int));
            }
        }
        match check_func(&prog.funcs[i], &sigs, &sigs[i], &structs) {
            Ok(f) => {
                proof {
                    views_push(funcs@, f);
                }
                funcs.push(f);
            },
            Err(d) => {
                proof {
                    funcs_stop(env, fv, i + 1, fv.len());
                }
                return Err(d);
            },
        }
        i += 1;
    }
    Ok(Module { funcs, structs })
}

} // verus!
