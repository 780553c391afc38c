//! The rules of names and types: what each construct of the syntax tree means in the typed IR,
//! or why it is refused. Every rule here that rejects a program is a rule the cost calculus
//! needs: arrays live in locals, views come from `&local`, sizes are attached where a value is
//! born.

use vstd::prelude::*;
use crate::ast::{BinOp, BlockV, ExprV, FieldDefV, FuncV, KindV, ParamV, ProgramV, StmtV, StructDefV, TypeV, UnOp};
use crate::diag::{fault, DiagV};
use crate::ir;
use crate::ir::{field_index, Layout, LocalV, Size, Ty};
use crate::text::decimal;
use crate::treesize::{block_size, expr_size};

verus! {

/// The signature of a function.
pub struct SigV {
    pub name: Seq<char>,
    pub params: Seq<Ty>,
    pub ret: Ty,
}

/// What is known of the whole program.
pub struct Env {
    pub sigs: Seq<SigV>,
    pub structs: Seq<ir::StructDefV>,
}

/// Where in a function the checker stands.
pub struct Place {
    pub ret: Ty,
    pub in_loop: bool,
    /// inside a closure body: assignment is an error, so a chain stage is pure and fusion is safe
    pub in_closure: bool,
    /// the id of the first local declared inside the innermost loop: a move of an id below it
    /// was born outside the loop and would move it again on the next lap
    pub loop_start: Option<usize>,
}

/// What the checker knows of the function so far.
pub struct St {
    pub locals: Seq<LocalV>,
    /// for each local the array it looks into; an array and a parameter look into themselves
    pub roots: Seq<usize>,
    /// names in scope with their locals, innermost last
    pub names: Seq<(Seq<char>, usize)>,
    pub sizes: Seq<Seq<char>>,
    /// for each local the line at which it was moved away
    pub moved: Seq<Option<u32>>,
    /// how many locals the compiler made
    pub fresh: nat,
}

pub open spec fn start() -> St {
    St {
        locals: Seq::empty(),
        roots: Seq::empty(),
        names: Seq::empty(),
        sizes: Seq::empty(),
        moved: Seq::empty(),
        fresh: 0,
    }
}

// ---- names ----

pub open spec fn lookup(names: Seq<(Seq<char>, usize)>, n: Seq<char>) -> Option<usize>
    decreases names.len(),
{
    if names.len() == 0 {
        None
    } else if names.last().0 == n {
        Some(names.last().1)
    } else {
        lookup(names.drop_last(), n)
    }
}

pub open spec fn struct_id(s: Seq<ir::StructDefV>, n: Seq<char>, from: int) -> Option<usize>
    decreases s.len() - from,
{
    if from < 0 || from >= s.len() {
        None
    } else if s[from].name == n {
        Some(from as usize)
    } else {
        struct_id(s, n, from + 1)
    }
}

pub open spec fn sig_id(s: Seq<SigV>, n: Seq<char>, from: int) -> Option<usize>
    decreases s.len() - from,
{
    if from < 0 || from >= s.len() {
        None
    } else if s[from].name == n {
        Some(from as usize)
    } else {
        sig_id(s, n, from + 1)
    }
}

/// The state with one more local, in scope under its name.
pub open spec fn declare(st: St, name: Seq<char>, ty: Ty, mutable: bool) -> St {
    let id = st.locals.len() as usize;
    St {
        locals: st.locals.push(LocalV { name, ty, mutable }),
        roots: st.roots.push(id),
        names: st.names.push((name, id)),
        ..st
    }
}

/// The id that the next local gets.
pub open spec fn next_id(st: St) -> usize {
    st.locals.len() as usize
}

/// The state with one more local that the compiler made; the `#` keeps it out of the user's
/// namespace.
pub open spec fn declare_fresh(st: St, base: Seq<char>, ty: Ty, mutable: bool) -> St {
    declare(St { fresh: st.fresh + 1, ..st }, base + "#"@ + decimal(st.fresh + 1), ty, mutable)
}

pub open spec fn add_size(st: St, name: Seq<char>) -> St {
    St { sizes: st.sizes.push(name), ..st }
}

pub open spec fn set_root(st: St, id: usize, root: usize) -> St {
    St { roots: st.roots.update(id as int, root), ..st }
}

/// The scopes that were open when `names` had `n` entries.
pub open spec fn leave(st: St, n: nat) -> St {
    St { names: st.names.take(n as int), ..st }
}

pub open spec fn moved_at(m: Seq<Option<u32>>, id: int) -> Option<u32> {
    if 0 <= id < m.len() {
        m[id]
    } else {
        None
    }
}

pub open spec fn max_len(a: nat, b: nat) -> nat {
    if a < b {
        b
    } else {
        a
    }
}

pub open spec fn mark_moved(m: Seq<Option<u32>>, id: int, line: u32) -> Seq<Option<u32>> {
    Seq::new(
        max_len(m.len(), (id + 1) as nat),
        |k: int|
            if k == id {
                Some(line)
            } else {
                moved_at(m, k)
            },
    )
}

/// What was moved on either side; where both sides moved a local, the first list counts.
pub open spec fn merge_moved(a: Seq<Option<u32>>, b: Seq<Option<u32>>) -> Seq<Option<u32>> {
    Seq::new(
        max_len(a.len(), b.len()),
        |k: int|
            if moved_at(a, k) is Some {
                moved_at(a, k)
            } else {
                moved_at(b, k)
            },
    )
}

pub open spec fn check_moved(st: St, id: usize, line: u32, col: u32) -> Result<(), DiagV> {
    match moved_at(st.moved, id as int) {
        Some(at) => fault(
            line,
            col,
            "`"@ + st.locals[id as int].name + "` was moved at line "@ + decimal(at as nat)
                + "; using it again is an error"@,
        ),
        None => Ok(()),
    }
}

/// The local that a bare variable is.
pub open spec fn local_of(st: St, e: ExprV, what: Seq<char>) -> Result<usize, DiagV> {
    match e.kind {
        KindV::Var(n) => match lookup(st.names, n) {
            Some(id) => match check_moved(st, id, e.line, e.col) {
                Ok(_) => Ok(id),
                Err(d) => Err(d),
            },
            None => fault(e.line, e.col, "unknown variable `"@ + n + "`"@),
        },
        _ => fault(e.line, e.col, what + " must be a variable for now"@),
    }
}

// ---- types ----

/// The size-free part of a type; sizes are attached where a value is created.
pub open spec fn resolve(structs: Seq<ir::StructDefV>, t: TypeV, line: u32, col: u32) -> Result<Ty, DiagV>
    decreases t,
{
    match t {
        TypeV::Unit => Ok(Ty::Unit),
        TypeV::Named(n) => if n == "i64"@ {
            Ok(Ty::I64)
        } else if n == "f64"@ {
            Ok(Ty::F64)
        } else if n == "bool"@ {
            Ok(Ty::Bool)
        } else if n == "u8"@ {
            Ok(Ty::U8)
        } else {
            match struct_id(structs, n, 0) {
                Some(i) => Ok(Ty::Struct(i)),
                None => fault(line, col, "unknown type `"@ + n + "`"@),
            }
        },
        TypeV::Slice(elem, m) => match resolve(structs, *elem, line, col) {
            Err(d) => Err(d),
            Ok(e) => if e.by_value() {
                Ok(Ty::Slice(Box::new(e), m, Size::Const(-1i64)))
            } else {
                fault(line, col, "element type of a slice must be a scalar or a struct"@)
            },
        },
        TypeV::Owned(elem) => match resolve(structs, *elem, line, col) {
            Err(d) => Err(d),
            Ok(e) => if e.scalar() {
                Ok(Ty::Array(Box::new(e), Size::Const(-1i64)))
            } else {
                fault(line, col, "an owned array is returned by value; its elements are scalars for now"@)
            },
        },
        TypeV::Array(elem, n) => match resolve(structs, *elem, line, col) {
            Err(d) => Err(d),
            Ok(e) => if !e.by_value() {
                fault(line, col, "element type of an array must be a scalar or a struct"@)
            } else {
                match n.kind {
                    KindV::Int(k) => if k >= 0 {
                        Ok(Ty::Array(Box::new(e), Size::Const(k)))
                    } else {
                        fault(n.line, n.col, "an array type's length must be an integer literal here"@)
                    },
                    _ => fault(n.line, n.col, "an array type's length must be an integer literal here"@),
                }
            },
        },
    }
}

pub open spec fn declared_fits(d: Ty, actual: Ty) -> bool {
    match (d, actual) {
        (Ty::Array(a, s), Ty::Array(b, t)) => *a == *b && (match (s, t) {
            (Size::Const(n), Size::Const(m)) => n == m,
            _ => true,
        }),
        _ => d.s_same_shape(actual),
    }
}

pub open spec fn check_declared(d: Option<Ty>, actual: Ty, line: u32, col: u32) -> Result<(), DiagV> {
    match d {
        Some(t) => if declared_fits(t, actual) {
            Ok(())
        } else {
            fault(line, col, "declared `"@ + t.text() + "` but the value has type `"@ + actual.text() + "`"@)
        },
        None => Ok(()),
    }
}

pub open spec fn mk(kind: ir::KindV, ty: Ty, line: u32) -> ir::ExprV {
    ir::ExprV { kind, ty, line }
}

pub open spec fn local_expr(st: St, id: usize, line: u32) -> ir::ExprV {
    mk(ir::KindV::Local(id), st.locals[id as int].ty, line)
}

pub open spec fn unit_block(stmts: Seq<ir::StmtV>) -> ir::BlockV {
    ir::BlockV { stmts, tail: None, ty: Ty::Unit }
}

// ---- expressions ----

pub open spec fn binary_type(op: BinOp, a: Ty, b: Ty, line: u32, col: u32) -> Result<Ty, DiagV> {
    if a != b {
        fault(
            line,
            col,
            "`"@ + op.c_text() + "` between `"@ + a.text() + "` and `"@ + b.text()
                + "`; no implicit conversion, use `as`"@,
        )
    } else if op.arith() {
        if a.numeric() {
            Ok(a)
        } else {
            fault(line, col, "`"@ + op.c_text() + "` on `"@ + a.text() + "`"@)
        }
    } else if op.compares() {
        if !a.scalar() {
            fault(line, col, "`"@ + op.c_text() + "` on `"@ + a.text() + "`"@)
        } else if op != BinOp::Eq && op != BinOp::Ne && a == Ty::Bool {
            fault(line, col, "ordering comparison on `bool`"@)
        } else {
            Ok(Ty::Bool)
        }
    } else if a == Ty::Bool {
        Ok(Ty::Bool)
    } else {
        fault(line, col, "`"@ + op.c_text() + "` needs `bool`, found `"@ + a.text() + "`"@)
    }
}

pub open spec fn unary_type(op: UnOp, a: Ty, line: u32, col: u32) -> Result<Ty, DiagV> {
    match op {
        UnOp::Neg => if a.numeric() {
            Ok(a)
        } else {
            fault(line, col, "`-` on `"@ + a.text() + "`"@)
        },
        UnOp::Not => if a == Ty::Bool {
            Ok(a)
        } else {
            fault(line, col, "`!` on `"@ + a.text() + "`"@)
        },
    }
}

/// The type of a field.
pub open spec fn field_type(env: Env, base: Ty, f: Seq<char>, line: u32, col: u32) -> Result<(usize, Ty), DiagV> {
    match base {
        Ty::Struct(sid) => match field_index(env.structs[sid as int].fields, f, 0) {
            Some(fi) => Ok((fi, env.structs[sid as int].fields[fi as int].1)),
            None => fault(line, col, "`"@ + env.structs[sid as int].name + "` has no field `"@ + f + "`"@),
        },
        _ => fault(line, col, "`."@ + f + "` on a `"@ + base.text() + "`, which is not a struct"@),
    }
}

/// A view of a local.
pub open spec fn ref_type(l: LocalV, mutable: bool, line: u32, col: u32) -> Result<Ty, DiagV> {
    match l.ty {
        Ty::Array(el, sz) => if mutable && !l.mutable {
            fault(line, col, "`&mut` of `"@ + l.name + "`, which is not `let mut`"@)
        } else {
            Ok(Ty::Slice(el, mutable, sz))
        },
        Ty::Slice(el, m, sz) => if mutable && !m {
            fault(line, col, "`&mut` of `"@ + l.name + "`, which is a `&[T]` view"@)
        } else {
            Ok(Ty::Slice(el, mutable, sz))
        },
        t => fault(line, col, "`&` of a `"@ + t.text() + "`; views are of arrays"@),
    }
}

/// The view that a variable is, if it is one.
pub open spec fn view_named(st: St, n: Seq<char>, explicit: Option<bool>) -> Option<(usize, bool)> {
    match lookup(st.names, n) {
        Some(id) => match st.locals[id as int].ty {
            Ty::Array(_, _) => match explicit {
                Some(m) => Some((id, m)),
                None => Some((id, false)),
            },
            Ty::Slice(_, own, _) => match explicit {
                Some(m) => Some((id, m)),
                None => Some((id, own)),
            },
            _ => None,
        },
        None => None,
    }
}

/// The view that an argument is, if it is one: `&x`, `&mut x`, or a view local `v`.
pub open spec fn view_of(st: St, a: ExprV) -> Option<(usize, bool)> {
    match a.kind {
        KindV::Ref(inner, m) => match inner.kind {
            KindV::Var(n) => view_named(st, n, Some(m)),
            _ => None,
        },
        KindV::Var(n) => view_named(st, n, None),
        _ => None,
    }
}

/// An argument's root, whether it is mutable, and which argument it is.
pub struct RootUse {
    pub root: usize,
    pub mutable: bool,
    pub arg: int,
}

pub open spec fn clash(used: Seq<RootUse>, root: usize, mutable: bool, from: int) -> Option<int>
    decreases used.len() - from,
{
    if from < 0 || from >= used.len() {
        None
    } else if used[from].root == root && (mutable || used[from].mutable) {
        Some(used[from].arg)
    } else {
        clash(used, root, mutable, from + 1)
    }
}

/// Views into one array may not be passed twice if either is mutable.
#[verifier::opaque]
pub open spec fn check_overlap(st: St, args: Seq<ExprV>, k: int, used: Seq<RootUse>) -> Result<(), DiagV>
    decreases args.len() - k,
{
    if k < 0 || k >= args.len() {
        Ok(())
    } else {
        match view_of(st, args[k]) {
            None => check_overlap(st, args, k + 1, used),
            Some((id, mutable)) => {
                let r = st.roots[id as int];
                match clash(used, r, mutable, 0) {
                    Some(k2) => fault(
                        args[k].line,
                        args[k].col,
                        "arguments "@ + decimal((k2 + 1) as nat) + " and "@ + decimal((k + 1) as nat)
                            + " are both views of `"@ + st.locals[r as int].name
                            + "` and one is `&mut`; a function's parameters must not overlap"@,
                    ),
                    None => check_overlap(st, args, k + 1, used.push(RootUse { root: r, mutable, arg: k })),
                }
            },
        }
    }
}

pub open spec fn check_arg(given: Ty, wanted: Ty, line: u32, col: u32) -> Result<(), DiagV> {
    let ok = match (given, wanted) {
        (Ty::Slice(ea, ma, _), Ty::Slice(ep, mp, _)) => *ea == *ep && (ma || !mp),
        _ => given == wanted,
    };
    if given is Array && wanted is Slice {
        fault(line, col, "pass a view of the array: `&name` or `&mut name`"@)
    } else if ok {
        Ok(())
    } else {
        fault(line, col, "argument of type `"@ + given.text() + "` where `"@ + wanted.text() + "` is expected"@)
    }
}

/// The first field without a value.
pub open spec fn missing(vals: Seq<Option<ir::ExprV>>, from: int) -> Option<int>
    decreases vals.len() - from,
{
    if from < 0 || from >= vals.len() {
        None
    } else if vals[from] is None {
        Some(from)
    } else {
        missing(vals, from + 1)
    }
}

pub open spec fn none_given(n: nat) -> Seq<Option<ir::ExprV>> {
    Seq::new(n, |i: int| None)
}

pub open spec fn all_given(vals: Seq<Option<ir::ExprV>>) -> Seq<ir::ExprV> {
    Seq::new(vals.len(), |i: int| vals[i]->0)
}

/// What the parts of a construct mean: the rules say what it means in terms of these.
pub struct Ev {
    pub expr: spec_fn(Place, St, ExprV) -> Result<(ir::ExprV, St), DiagV>,
    pub block: spec_fn(Place, St, BlockV) -> Result<(ir::BlockV, St), DiagV>,
}

/// The rules applied to all constructs smaller than `n`.
#[verifier::opaque]
pub open spec fn knot(env: Env, n: nat) -> Ev
    decreases n,
{
    Ev {
        expr: |cx: Place, st: St, e: ExprV|
            if expr_size(e) < n {
                r_expr(env, knot(env, expr_size(e)), cx, st, e)
            } else {
                arbitrary()
            },
        block: |cx: Place, st: St, b: BlockV|
            if block_size(b) < n {
                r_block(env, knot(env, block_size(b)), cx, st, b)
            } else {
                arbitrary()
            },
    }
}

/// The typed form of an expression, and the state after it.
#[verifier::opaque]
pub open spec fn s_expr(env: Env, cx: Place, st: St, e: ExprV) -> Result<(ir::ExprV, St), DiagV> {
    r_expr(env, knot(env, expr_size(e)), cx, st, e)
}

/// The typed form of a block, and the state after it.
#[verifier::opaque]
pub open spec fn s_block(env: Env, cx: Place, st: St, b: BlockV) -> Result<(ir::BlockV, St), DiagV> {
    r_block(env, knot(env, block_size(b)), cx, st, b)
}

pub proof fn knot_expr(env: Env, n: nat, cx: Place, st: St, e: ExprV)
    requires
        expr_size(e) < n,
    ensures
        (knot(env, n).expr)(cx, st, e) == s_expr(env, cx, st, e),
{
    reveal(knot);
    reveal(s_expr);
}

pub proof fn knot_block(env: Env, n: nat, cx: Place, st: St, b: BlockV)
    requires
        block_size(b) < n,
    ensures
        (knot(env, n).block)(cx, st, b) == s_block(env, cx, st, b),
{
    reveal(knot);
    reveal(s_block);
}

/// The rule for each kind of expression.
#[verifier::opaque]
pub open spec fn r_expr(env: Env, ev: Ev, cx: Place, st: St, e: ExprV) -> Result<(ir::ExprV, St), DiagV>
{
    let (line, col) = (e.line, e.col);
    match e.kind {
        KindV::Int(v) => Ok((mk(ir::KindV::Int(v), Ty::I64, line), st)),
        KindV::Float(v) => Ok((mk(ir::KindV::Float(v), Ty::F64, line), st)),
        KindV::Bool(v) => Ok((mk(ir::KindV::Bool(v), Ty::Bool, line), st)),
        KindV::Byte(v) => Ok((mk(ir::KindV::Byte(v), Ty::U8, line), st)),
        KindV::Bytes(_) => fault(line, col, "a byte string can only initialise a `let`"@),
        KindV::Var(_) => s_var(st, e),
        KindV::Binary(_, _, _) => s_binary(env, ev, cx, st, e),
        KindV::Unary(_, _) => s_unary(env, ev, cx, st, e),
        KindV::Index(_, _) => s_index(env, ev, cx, st, e),
        KindV::Field(_, _) => s_field(env, ev, cx, st, e),
        KindV::StructLit(_, _) => s_struct_lit(env, ev, cx, st, e),
        KindV::Call(name, _) => if name == "min"@ || name == "max"@ {
            s_min_max(env, ev, cx, st, e)
        } else if name == "println"@ {
            s_println(env, ev, cx, st, e)
        } else {
            s_call(env, ev, cx, st, e)
        },
        KindV::MethodCall(_, name, _) => if name == "len"@ {
            s_len(st, e)
        } else {
            s_chain(env, ev, cx, st, e)
        },
        KindV::Lambda(_, _) => fault(
            line,
            col,
            "a closure can only be the argument of a chain stage (`map`, `filter`, `fold`, ...)"@,
        ),
        KindV::Comprehension { elem, var, source, cond } => fault(
            line,
            col,
            "a comprehension either initialises a `let` or is reduced: `[..].sum()`"@,
        ),
        KindV::Ref(_, _) => s_ref(st, e),
        KindV::Cast(_, _) => s_cast(env, ev, cx, st, e),
        KindV::If(_, _, _) => s_if(env, ev, cx, st, e),
        KindV::Block(b) => match (ev.block)(cx, st, b) {
            Err(d) => Err(d),
            Ok((cb, st1)) => Ok((mk(ir::KindV::Block(cb), cb.ty, line), st1)),
        },
        KindV::ArrayLit(_) => fault(line, col, "an array literal can only initialise a `let` for now"@),
        KindV::ArrayRepeat(_, _) => fault(line, col, "an array literal can only initialise a `let` for now"@),
    }
}

/// A variable in scope that has not been moved away.
#[verifier::opaque]
pub open spec fn s_var(st: St, e: ExprV) -> Result<(ir::ExprV, St), DiagV>
{
    let (line, col) = (e.line, e.col);
    match e.kind {
        KindV::Var(n) => match local_of(st, e, ""@) {
            Ok(id) => Ok((local_expr(st, id, line), st)),
            Err(d) => Err(d),
        },
        _ => arbitrary(),
    }
}

/// Operands of one type; no implicit conversion.
#[verifier::opaque]
pub open spec fn s_binary(env: Env, ev: Ev, cx: Place, st: St, e: ExprV) -> Result<(ir::ExprV, St), DiagV>
{
    let (line, col) = (e.line, e.col);
    match e.kind {
        KindV::Binary(op, a, b) => match (ev.expr)(cx, st, *a) {
            Err(d) => Err(d),
            Ok((ca, st1)) => match (ev.expr)(cx, st1, *b) {
                Err(d) => Err(d),
                Ok((cb, st2)) => match binary_type(op, ca.ty, cb.ty, line, col) {
                    Err(d) => Err(d),
                    Ok(ty) => Ok((mk(ir::KindV::Binary(op, Box::new(ca), Box::new(cb)), ty, line), st2)),
                },
            },
        },
        _ => arbitrary(),
    }
}

/// Negation of numbers and of truth values.
#[verifier::opaque]
pub open spec fn s_unary(env: Env, ev: Ev, cx: Place, st: St, e: ExprV) -> Result<(ir::ExprV, St), DiagV>
{
    let (line, col) = (e.line, e.col);
    match e.kind {
        KindV::Unary(op, a) => match (ev.expr)(cx, st, *a) {
            Err(d) => Err(d),
            Ok((ca, st1)) => match unary_type(op, ca.ty, line, col) {
                Err(d) => Err(d),
                Ok(ty) => Ok((mk(ir::KindV::Unary(op, Box::new(ca)), ty, line), st1)),
            },
        },
        _ => arbitrary(),
    }
}

/// An element of an array that a variable holds.
#[verifier::opaque]
pub open spec fn s_index(env: Env, ev: Ev, cx: Place, st: St, e: ExprV) -> Result<(ir::ExprV, St), DiagV>
{
    let (line, col) = (e.line, e.col);
    match e.kind {
        KindV::Index(base, idx) => match local_of(st, *base, "the array being indexed"@) {
            Err(d) => Err(d),
            Ok(id) => match (ev.expr)(cx, st, *idx) {
                Err(d) => Err(d),
                Ok((ci, st1)) => if ci.ty != Ty::I64 {
                    fault(idx.line, idx.col, "index must be `i64`, found `"@ + ci.ty.text() + "`"@)
                } else {
                    match st1.locals[id as int].ty.s_elem() {
                        Some(t) => Ok((mk(ir::KindV::Index(id, Box::new(ci)), t, line), st1)),
                        None => fault(
                            line,
                            col,
                            "cannot index a value of type `"@ + st1.locals[id as int].ty.text() + "`"@,
                        ),
                    }
                },
            },
        },
        _ => arbitrary(),
    }
}

/// A field of a struct value.
#[verifier::opaque]
pub open spec fn s_field(env: Env, ev: Ev, cx: Place, st: St, e: ExprV) -> Result<(ir::ExprV, St), DiagV>
{
    let (line, col) = (e.line, e.col);
    match e.kind {
        KindV::Field(base, f) => match (ev.expr)(cx, st, *base) {
            Err(d) => Err(d),
            Ok((cb, st1)) => match field_type(env, cb.ty, f, line, col) {
                Err(d) => Err(d),
                Ok((fi, ty)) => Ok((mk(ir::KindV::Field(Box::new(cb), fi), ty, line), st1)),
            },
        },
        _ => arbitrary(),
    }
}

/// Every field of the struct once, each of its type.
#[verifier::opaque]
pub open spec fn s_struct_lit(env: Env, ev: Ev, cx: Place, st: St, e: ExprV) -> Result<(ir::ExprV, St), DiagV>
{
    let (line, col) = (e.line, e.col);
    match e.kind {
        KindV::StructLit(name, fields) => match struct_id(env.structs, name, 0) {
            None => fault(line, col, "unknown struct `"@ + name + "`"@),
            Some(sid) => {
                let def = env.structs[sid as int];
                match s_lit_fields(env, ev, cx, st, name, def, fields, none_given(def.fields.len())) {
                    Err(d) => Err(d),
                    Ok((vals, st1)) => match missing(vals, 0) {
                        Some(k) => fault(
                            line,
                            col,
                            "`"@ + name + "` literal is missing field `"@ + def.fields[k].0 + "`"@,
                        ),
                        None => Ok((mk(ir::KindV::StructLit(sid, all_given(vals)), Ty::Struct(sid), line), st1)),
                    },
                }
            },
        },
        _ => arbitrary(),
    }
}

/// `min` and `max` of two numbers of one type.
#[verifier::opaque]
pub open spec fn s_min_max(env: Env, ev: Ev, cx: Place, st: St, e: ExprV) -> Result<(ir::ExprV, St), DiagV>
{
    let (line, col) = (e.line, e.col);
    match e.kind {
        KindV::Call(name, args) => { if args.len() != 2 {
                fault(line, col, "`"@ + name + "` takes two arguments"@)
            } else {
                match (ev.expr)(cx, st, args[0]) {
                    Err(d) => Err(d),
                    Ok((a, st1)) => match (ev.expr)(cx, st1, args[1]) {
                        Err(d) => Err(d),
                        Ok((b, st2)) => if a.ty != b.ty || !a.ty.numeric() {
                            fault(
                                line,
                                col,
                                "`"@ + name + "` of `"@ + a.ty.text() + "` and `"@ + b.ty.text() + "`"@,
                            )
                        } else {
                            Ok(
                                (
                                    mk(
                                        ir::KindV::MinMax(name == "min"@, Box::new(a), Box::new(b)),
                                        a.ty,
                                        line,
                                    ),
                                    st2,
                                ),
                            )
                        },
                    },
                }
            } },
        _ => arbitrary(),
    }
}

/// `println` of one scalar.
#[verifier::opaque]
pub open spec fn s_println(env: Env, ev: Ev, cx: Place, st: St, e: ExprV) -> Result<(ir::ExprV, St), DiagV>
{
    let (line, col) = (e.line, e.col);
    match e.kind {
        KindV::Call(name, args) => { if args.len() != 1 {
                fault(line, col, "`println` takes one argument"@)
            } else {
                match (ev.expr)(cx, st, args[0]) {
                    Err(d) => Err(d),
                    Ok((a, st1)) => if a.ty.scalar() {
                        Ok((mk(ir::KindV::Println(Box::new(a)), Ty::Unit, line), st1))
                    } else {
                        fault(
                            args[0].line,
                            args[0].col,
                            "`println` prints scalars, found `"@ + a.ty.text() + "`"@,
                        )
                    },
                }
            } },
        _ => arbitrary(),
    }
}

/// A call of a function of the program: arguments of the parameters' types, views that do not overlap.
#[verifier::opaque]
pub open spec fn s_call(env: Env, ev: Ev, cx: Place, st: St, e: ExprV) -> Result<(ir::ExprV, St), DiagV>
{
    let (line, col) = (e.line, e.col);
    match e.kind {
        KindV::Call(name, args) => match sig_id(env.sigs, name, 0) {
                None => fault(line, col, "unknown function `"@ + name + "`"@),
                Some(fid) => {
                    let sig = env.sigs[fid as int];
                    if args.len() != sig.params.len() {
                        fault(
                            line,
                            col,
                            "`"@ + name + "` takes "@ + decimal(sig.params.len()) + " argument(s), "@ + decimal(
                                args.len(),
                            ) + " given"@,
                        )
                    } else {
                        match check_overlap(st, args, 0, Seq::empty()) {
                            Err(d) => Err(d),
                            Ok(_) => match s_call_args(env, ev, cx, st, sig.params, args, Seq::empty()) {
                                Err(d) => Err(d),
                                Ok((cargs, st1)) => Ok((mk(ir::KindV::Call(fid, cargs), sig.ret, line), st1)),
                            },
                        }
                    }
                },
            },
        _ => arbitrary(),
    }
}

/// The length of an array that a variable holds.
#[verifier::opaque]
pub open spec fn s_len(st: St, e: ExprV) -> Result<(ir::ExprV, St), DiagV> {
    let (line, col) = (e.line, e.col);
    match e.kind {
        KindV::MethodCall(recv, name, args) => { if args.len() != 0 {
                fault(line, col, "`.len()` takes no arguments"@)
            } else {
                match local_of(st, *recv, "the receiver of `.len()`"@) {
                    Err(d) => Err(d),
                    Ok(id) => if st.locals[id as int].ty.arrayish() {
                        Ok((mk(ir::KindV::Len(id), Ty::I64, line), st))
                    } else {
                        fault(line, col, "`.len()` on `"@ + st.locals[id as int].ty.text() + "`"@)
                    },
                }
            } },
        _ => arbitrary(),
    }
}

/// A view of an array.
#[verifier::opaque]
pub open spec fn s_ref(st: St, e: ExprV) -> Result<(ir::ExprV, St), DiagV>
{
    let (line, col) = (e.line, e.col);
    match e.kind {
        KindV::Ref(inner, mutable) => match local_of(st, *inner, "the operand of `&`"@) {
            Err(d) => Err(d),
            Ok(id) => match ref_type(st.locals[id as int], mutable, line, col) {
                Err(d) => Err(d),
                Ok(ty) => Ok((mk(ir::KindV::Ref(id, mutable), ty, line), st)),
            },
        },
        _ => arbitrary(),
    }
}

/// A conversion between numeric types.
#[verifier::opaque]
pub open spec fn s_cast(env: Env, ev: Ev, cx: Place, st: St, e: ExprV) -> Result<(ir::ExprV, St), DiagV>
{
    let (line, col) = (e.line, e.col);
    match e.kind {
        KindV::Cast(inner, ty) => match (ev.expr)(cx, st, *inner) {
            Err(d) => Err(d),
            Ok((ci, st1)) => match resolve(env.structs, ty, line, col) {
                Err(d) => Err(d),
                Ok(target) => if ci.ty.numeric() && target.numeric() {
                    Ok((mk(ir::KindV::Cast(Box::new(ci), target), target, line), st1))
                } else {
                    fault(
                        line,
                        col,
                        "`as` converts between `i64`, `f64` and `u8`; found `"@ + ci.ty.text() + "` as `"@
                            + target.text() + "`"@,
                    )
                },
            },
        },
        _ => arbitrary(),
    }
}

/// Both branches of one type, each checked from the same state.
#[verifier::opaque]
pub open spec fn s_if(env: Env, ev: Ev, cx: Place, st: St, e: ExprV) -> Result<(ir::ExprV, St), DiagV>
{
    let (line, col) = (e.line, e.col);
    match e.kind {
        KindV::If(cond, yes, els) => match (ev.expr)(cx, st, *cond) {
            Err(d) => Err(d),
            Ok((cc, st1)) => if cc.ty != Ty::Bool {
                fault(cond.line, cond.col, "`if` condition is `"@ + cc.ty.text() + "`, not `bool`"@)
            } else {
                // each side is checked from the same state, so a move on one side does not leak
                // into the other; a local moved on either side is moved after the `if`
                match (ev.block)(cx, st1, yes) {
                    Err(d) => Err(d),
                    Ok((ct, st2)) => {
                        let other = St { moved: st1.moved, ..st2 };
                        let branch: Result<(Option<ir::BlockV>, St), DiagV> = match els {
                            Some(b) => match (ev.block)(cx, other, b) {
                                Ok((cb, st3)) => Ok((Some(cb), st3)),
                                Err(d) => Err(d),
                            },
                            None => Ok((None, other)),
                        };
                        match branch {
                            Err(d) => Err(d),
                            Ok((ce, st3)) => {
                                let st4 = St { moved: merge_moved(st3.moved, st2.moved), ..st3 };
                                match if_type(ct.ty, ce, line, col) {
                                    Err(d) => Err(d),
                                    Ok(ty) => Ok((mk(ir::KindV::If(Box::new(cc), ct, ce), ty, line), st4)),
                                }
                            },
                        }
                    },
                }
            },
        },
        _ => arbitrary(),
    }
}

pub open spec fn if_type(yes: Ty, els: Option<ir::BlockV>, line: u32, col: u32) -> Result<Ty, DiagV> {
    match els {
        None => if yes == Ty::Unit {
            Ok(Ty::Unit)
        } else {
            fault(
                line,
                col,
                "`if` without `else` has type `()`, but the branch has type `"@ + yes.text() + "`"@,
            )
        },
        Some(b) => if b.ty == yes {
            Ok(yes)
        } else {
            fault(line, col, "`if` branches have types `"@ + yes.text() + "` and `"@ + b.ty.text() + "`"@)
        },
    }
}

/// The rest of a struct literal's fields, into the places of the fields they name.
#[verifier::opaque]
pub open spec fn s_lit_fields(
    env: Env,
    ev: Ev,
    cx: Place,
    st: St,
    name: Seq<char>,
    def: ir::StructDefV,
    fields: Seq<(Seq<char>, ExprV)>,
    vals: Seq<Option<ir::ExprV>>,
) -> Result<(Seq<Option<ir::ExprV>>, St), DiagV>
    decreases fields,
{
    if fields.len() == 0 {
        Ok((vals, st))
    } else {
        let (f, v) = fields[0];
        match field_index(def.fields, f, 0) {
            None => fault(v.line, v.col, "`"@ + name + "` has no field `"@ + f + "`"@),
            Some(fi) => if vals[fi as int] is Some {
                fault(v.line, v.col, "field `"@ + f + "` is given twice"@)
            } else {
                match (ev.expr)(cx, st, v) {
                    Err(d) => Err(d),
                    Ok((cv, st1)) => if cv.ty != def.fields[fi as int].1 {
                        fault(
                            v.line,
                            v.col,
                            "field `"@ + f + "` is `"@ + def.fields[fi as int].1.text() + "`, given `"@
                                + cv.ty.text() + "`"@,
                        )
                    } else {
                        s_lit_fields(
                            env,
                            ev,
                            cx,
                            st1,
                            name,
                            def,
                            fields.drop_first(),
                            vals.update(fi as int, Some(cv)),
                        )
                    },
                }
            },
        }
    }
}

/// The rest of a call's arguments, after those in `got`.
#[verifier::opaque]
pub open spec fn s_call_args(
    env: Env,
    ev: Ev,
    cx: Place,
    st: St,
    params: Seq<Ty>,
    args: Seq<ExprV>,
    got: Seq<ir::ExprV>,
) -> Result<(Seq<ir::ExprV>, St), DiagV>
    decreases args,
{
    if args.len() == 0 {
        Ok((got, st))
    } else {
        match (ev.expr)(cx, st, args[0]) {
            Err(d) => Err(d),
            Ok((ca, st1)) => match check_arg(ca.ty, params[got.len() as int], args[0].line, args[0].col) {
                Err(d) => Err(d),
                Ok(_) => s_call_args(env, ev, cx, st1, params, args.drop_first(), got.push(ca)),
            },
        }
    }
}

// ---- chains ----

/// The values that flow through the stages of a chain.
pub struct Flow {
    /// the statements so far in the innermost body
    pub stmts: Seq<ir::StmtV>,
    /// the locals that hold the current values
    pub vals: Seq<usize>,
    /// for each filter, the statements before it and its condition
    pub guards: Seq<(Seq<ir::StmtV>, ir::ExprV)>,
}

/// What a chain starts from: the receiver of its first stage.
pub open spec fn chain_base(e: ExprV) -> ExprV
    decreases e,
{
    match e.kind {
        KindV::MethodCall(recv, _, _) => chain_base(*recv),
        _ => e,
    }
}

/// The array that a chain iterates over.
pub open spec fn chain_source(e: ExprV) -> ExprV {
    match chain_base(e).kind {
        KindV::Comprehension { elem, var, source, cond } => *source,
        _ => chain_base(e),
    }
}

pub open spec fn takes_closure(args: Seq<ExprV>) -> bool {
    args.len() > 0 && args[0].kind is Lambda
}

/// The stages of a chain are known and have what they take: whether a stage came before, and the
/// array of a `zip`.
#[verifier::opaque]
pub open spec fn chain_stages(st: St, e: ExprV) -> Result<(bool, Option<usize>), DiagV>
    decreases e,
{
    match e.kind {
        KindV::MethodCall(recv, name, args) => match chain_stages(st, *recv) {
            Err(d) => Err(d),
            Ok((any, zip)) => if name == "iter"@ {
                if args.len() != 0 {
                    fault(e.line, e.col, "`.iter()` takes no arguments"@)
                } else {
                    Ok((any, zip))
                }
            } else if name == "map"@ || name == "filter"@ {
                if takes_closure(args) {
                    Ok((true, zip))
                } else {
                    fault(e.line, e.col, "`."@ + name + "()` takes a closure"@)
                }
            } else if name == "enumerate"@ {
                Ok((true, zip))
            } else if name == "zip"@ {
                if zip is Some || any {
                    fault(e.line, e.col, "`.zip()` must come first, directly after the source"@)
                } else if args.len() == 0 {
                    fault(e.line, e.col, "`.zip()` takes the other array"@)
                } else {
                    match local_of(st, args[0], "the argument of `.zip()`"@) {
                        Err(d) => Err(d),
                        Ok(o) => if st.locals[o as int].ty.arrayish() {
                            Ok((any, Some(o)))
                        } else {
                            fault(
                                args[0].line,
                                args[0].col,
                                "zipping with a `"@ + st.locals[o as int].ty.text() + "`"@,
                            )
                        },
                    }
                }
            } else {
                fault(
                    e.line,
                    e.col,
                    "unknown chain stage `."@ + name
                        + "()`; stages are iter, map, filter, zip, enumerate; terminals are sum, count, fold, max, min, any, all"@,
                )
            },
        },
        _ => Ok((e.kind is Comprehension, None)),
    }
}

/// The lets that bind a closure's first `n` parameters, and the state with them in scope.
#[verifier::opaque]
pub open spec fn bind_params(st: St, params: Seq<Seq<char>>, vals: Seq<usize>, line: u32, n: nat) -> (
    Seq<ir::StmtV>,
    St,
)
    decreases n,
{
    if n == 0 {
        (Seq::empty(), st)
    } else {
        let (lets, st1) = bind_params(st, params, vals, line, (n - 1) as nat);
        let v = vals[n - 1];
        let ty = st1.locals[v as int].ty;
        let id = next_id(st1);
        (
            lets.push(ir::StmtV::Let(id, local_expr(st1, v, line))),
            declare(st1, params[n - 1], ty, false),
        )
    }
}

/// A closure applied to the current values: the lets that bind its parameters, and its body.
#[verifier::opaque]
pub open spec fn s_apply(
    env: Env,
    ev: Ev,
    cx: Place,
    st: St,
    params: Seq<Seq<char>>,
    body: ExprV,
    vals: Seq<usize>,
    line: u32,
) -> Result<(Seq<ir::StmtV>, ir::ExprV, St), DiagV>
{
    if params.len() != vals.len() {
        fault(
            body.line,
            body.col,
            "closure takes "@ + decimal(params.len()) + " argument(s) but "@ + decimal(vals.len())
                + " value(s) flow into it"@,
        )
    } else {
        let (lets, st1) = bind_params(st, params, vals, line, params.len());
        match (ev.expr)(Place { in_closure: true, ..cx }, st1, body) {
            Err(d) => Err(d),
            Ok((v, st2)) => Ok((lets, v, leave(st2, st.names.len()))),
        }
    }
}

#[verifier::opaque]
pub open spec fn s_map(
    env: Env,
    ev: Ev,
    cx: Place,
    st: St,
    f: Flow,
    params: Seq<Seq<char>>,
    body: ExprV,
    line: u32,
) -> Result<(Flow, St), DiagV>
{
    match s_apply(env, ev, cx, st, params, body, f.vals, line) {
        Err(d) => Err(d),
        Ok((lets, v, st1)) => if v.ty == Ty::Unit || v.ty.arrayish() {
            fault(body.line, body.col, "a `map` closure must produce a scalar, found `"@ + v.ty.text() + "`"@)
        } else {
            let nv = next_id(st1);
            Ok(
                (
                    Flow { stmts: (f.stmts + lets).push(ir::StmtV::Let(nv, v)), vals: seq![nv], guards: f.guards },
                    declare_fresh(st1, "v"@, v.ty, false),
                ),
            )
        },
    }
}

#[verifier::opaque]
pub open spec fn s_filter(
    env: Env,
    ev: Ev,
    cx: Place,
    st: St,
    f: Flow,
    params: Seq<Seq<char>>,
    body: ExprV,
    line: u32,
) -> Result<(Flow, St), DiagV>
{
    match s_apply(env, ev, cx, st, params, body, f.vals, line) {
        Err(d) => Err(d),
        Ok((lets, c, st1)) => if c.ty != Ty::Bool {
            fault(body.line, body.col, "a `filter` closure must produce `bool`, found `"@ + c.ty.text() + "`"@)
        } else {
            Ok((Flow { stmts: Seq::empty(), vals: f.vals, guards: f.guards.push((f.stmts + lets, c)) }, st1))
        },
    }
}

/// The values after the stages of `e`, from those in `f` at its source; `i` counts the elements.
#[verifier::opaque]
pub open spec fn s_flow(env: Env, ev: Ev, cx: Place, st: St, e: ExprV, f: Flow, i: usize, line: u32) -> Result<
    (Flow, St),
    DiagV,
>
    decreases e,
{
    match e.kind {
        KindV::MethodCall(recv, name, args) => match s_flow(env, ev, cx, st, *recv, f, i, line) {
            Err(d) => Err(d),
            Ok((g, st1)) => if name == "enumerate"@ {
                let k = next_id(st1);
                Ok(
                    (
                        Flow {
                            stmts: g.stmts.push(ir::StmtV::Let(k, local_expr(st1, i, line))),
                            vals: seq![k] + g.vals,
                            guards: g.guards,
                        },
                        declare_fresh(st1, "k"@, Ty::I64, false),
                    ),
                )
            } else if name == "map"@ || name == "filter"@ {
                if args.len() == 0 {
                    Ok((g, st1))
                } else {
                    match args[0].kind {
                        KindV::Lambda(params, body) => if name == "map"@ {
                            s_map(env, ev, cx, st1, g, params, *body, line)
                        } else {
                            s_filter(env, ev, cx, st1, g, params, *body, line)
                        },
                        _ => Ok((g, st1)),
                    }
                }
            } else {
                Ok((g, st1))
            },
        },
        KindV::Comprehension { elem, var, source, cond } => {
            let filtered = match cond {
                Some(c) => s_filter(env, ev, cx, st, f, seq![var], *c, line),
                None => Ok((f, st)),
            };
            match filtered {
                Err(d) => Err(d),
                Ok((g, st1)) => s_map(env, ev, cx, st1, g, seq![var], *elem, line),
            }
        },
        _ => Ok((f, st)),
    }
}

/// Zero of a numeric type.
pub open spec fn zero_of(ty: Ty) -> ir::KindV {
    match ty {
        Ty::F64 => ir::KindV::Float("0.0"@),
        Ty::U8 => ir::KindV::Byte(0),
        _ => ir::KindV::Int(0),
    }
}

/// The accumulator of a chain: its local, its first value, what else is set before the loop, and
/// what each element does.
pub struct Sink {
    pub acc: usize,
    pub init: ir::ExprV,
    pub before: Seq<ir::StmtV>,
    pub update: Seq<ir::StmtV>,
}

/// The type of the one value that flows, if it is one.
pub open spec fn flow_type(st: St, vals: Seq<usize>) -> Ty {
    if vals.len() == 1 {
        st.locals[vals[0] as int].ty
    } else {
        Ty::Unit
    }
}

/// `acc` becomes the better of it and the value, the first value in any case.
pub open spec fn keep_best(st: St, better: BinOp, acc: usize, seen: usize, v: usize, line: u32) -> ir::StmtV {
    let test = mk(
        ir::KindV::Binary(better, Box::new(local_expr(st, v, line)), Box::new(local_expr(st, acc, line))),
        Ty::Bool,
        line,
    );
    let unseen = mk(ir::KindV::Unary(UnOp::Not, Box::new(local_expr(st, seen, line))), Ty::Bool, line);
    let cond = mk(ir::KindV::Binary(BinOp::Or, Box::new(unseen), Box::new(test)), Ty::Bool, line);
    let yes = unit_block(
        seq![
            ir::StmtV::Assign(ir::LValueV::Var(acc), None, local_expr(st, v, line)),
            ir::StmtV::Assign(ir::LValueV::Var(seen), None, mk(ir::KindV::Bool(true), Ty::Bool, line)),
        ],
    );
    ir::StmtV::Expr(mk(ir::KindV::If(Box::new(cond), yes, None), Ty::Unit, line))
}

#[verifier::opaque]
pub open spec fn s_sink(
    env: Env,
    ev: Ev,
    cx: Place,
    st: St,
    vals: Seq<usize>,
    name: Seq<char>,
    args: Seq<ExprV>,
    line: u32,
    col: u32,
) -> Result<(Sink, St), DiagV>
{
    let cur = flow_type(st, vals);
    let acc = next_id(st);
    if name == "sum"@ {
        if vals.len() != 1 || !cur.numeric() {
            fault(line, col, "`.sum()` needs one numeric value per element, found `"@ + cur.text() + "`"@)
        } else {
            let st1 = declare_fresh(st, "acc"@, cur, true);
            Ok(
                (
                    Sink {
                        acc,
                        init: mk(zero_of(cur), cur, line),
                        before: Seq::empty(),
                        update: seq![
                            ir::StmtV::Assign(
                                ir::LValueV::Var(acc),
                                Some(BinOp::Add),
                                local_expr(st1, vals[0], line),
                            ),
                        ],
                    },
                    st1,
                ),
            )
        }
    } else if name == "count"@ {
        Ok(
            (
                Sink {
                    acc,
                    init: mk(ir::KindV::Int(0), Ty::I64, line),
                    before: Seq::empty(),
                    update: seq![
                        ir::StmtV::Assign(
                            ir::LValueV::Var(acc),
                            Some(BinOp::Add),
                            mk(ir::KindV::Int(1), Ty::I64, line),
                        ),
                    ],
                },
                declare_fresh(st, "acc"@, Ty::I64, true),
            ),
        )
    } else if name == "max"@ || name == "min"@ {
        if vals.len() != 1 || !cur.numeric() {
            fault(
                line,
                col,
                "`."@ + name + "()` needs one numeric value per element, found `"@ + cur.text() + "`"@,
            )
        } else {
            let st1 = declare_fresh(st, "acc"@, cur, true);
            let seen = next_id(st1);
            let st2 = declare_fresh(st1, "seen"@, Ty::Bool, true);
            let better = if name == "max"@ {
                BinOp::Gt
            } else {
                BinOp::Lt
            };
            Ok(
                (
                    Sink {
                        acc,
                        init: mk(zero_of(cur), cur, line),
                        before: seq![ir::StmtV::Let(seen, mk(ir::KindV::Bool(false), Ty::Bool, line))],
                        update: seq![keep_best(st2, better, acc, seen, vals[0], line)],
                    },
                    st2,
                ),
            )
        }
    } else if name == "any"@ || name == "all"@ {
        if vals.len() != 1 || cur != Ty::Bool {
            fault(
                line,
                col,
                "`."@ + name + "()` needs one `bool` per element; use `.map(|x| ..)` or a closure argument"@,
            )
        } else {
            let st1 = declare_fresh(st, "acc"@, Ty::Bool, true);
            let op = if name == "any"@ {
                BinOp::Or
            } else {
                BinOp::And
            };
            let both = mk(
                ir::KindV::Binary(
                    op,
                    Box::new(local_expr(st1, acc, line)),
                    Box::new(local_expr(st1, vals[0], line)),
                ),
                Ty::Bool,
                line,
            );
            Ok(
                (
                    Sink {
                        acc,
                        init: mk(ir::KindV::Bool(name == "all"@), Ty::Bool, line),
                        before: Seq::empty(),
                        update: seq![ir::StmtV::Assign(ir::LValueV::Var(acc), None, both)],
                    },
                    st1,
                ),
            )
        }
    } else if name == "fold"@ {
        s_fold(env, ev, cx, st, vals, args, line, col)
    } else {
        fault(
            line,
            col,
            "unknown chain terminal `."@ + name + "()`; terminals are sum, count, fold, max, min, any, all"@,
        )
    }
}

/// `fold(init, |acc, x| ..)`
#[verifier::opaque]
pub open spec fn s_fold(env: Env, ev: Ev, cx: Place, st: St, vals: Seq<usize>, args: Seq<ExprV>, line: u32, col: u32) -> Result<
    (Sink, St),
    DiagV,
>
{
    if args.len() == 0 {
            fault(line, col, "`.fold(init, |acc, x| ..)`"@)
        } else {
            match (ev.expr)(cx, st, args[0]) {
                Err(d) => Err(d),
                Ok((init, st1)) => if !init.ty.scalar() {
                    fault(args[0].line, args[0].col, "a fold accumulator must be scalar"@)
                } else {
                    let facc = next_id(st1);
                    let st2 = declare_fresh(st1, "acc"@, init.ty, true);
                    if args.len() < 2 {
                        fault(line, col, "`.fold(init, |acc, x| ..)`"@)
                    } else {
                        match args[1].kind {
                            KindV::Lambda(params, body) => match s_apply(
                                env,
                                ev,
                                cx,
                                st2,
                                params,
                                *body,
                                seq![facc] + vals,
                                line,
                            ) {
                                Err(d) => Err(d),
                                Ok((lets, v, st3)) => if v.ty != init.ty {
                                    fault(
                                        body.line,
                                        body.col,
                                        "the fold closure returns `"@ + v.ty.text()
                                            + "` but the accumulator is `"@ + init.ty.text() + "`"@,
                                    )
                                } else {
                                    Ok(
                                        (
                                            Sink {
                                                acc: facc,
                                                init,
                                                before: Seq::empty(),
                                                update: lets.push(
                                                    ir::StmtV::Assign(ir::LValueV::Var(facc), None, v),
                                                ),
                                            },
                                            st3,
                                        ),
                                    )
                                },
                            },
                            _ => fault(line, col, "`.fold(init, |acc, x| ..)`"@),
                        }
                    }
                },
            }
        }
}

/// The statements `inner` inside the filters, the last filter innermost.
pub open spec fn guarded(guards: Seq<(Seq<ir::StmtV>, ir::ExprV)>, inner: Seq<ir::StmtV>, line: u32) -> Seq<ir::StmtV>
    decreases guards.len(),
{
    if guards.len() == 0 {
        inner
    } else {
        let (before, cond) = guards.last();
        guarded(
            guards.drop_last(),
            before.push(
                ir::StmtV::Expr(mk(ir::KindV::If(Box::new(cond), unit_block(inner), None), Ty::Unit, line)),
            ),
            line,
        )
    }
}

/// How many elements a chain visits.
pub open spec fn chain_len(src: usize, zip: Option<usize>, line: u32) -> ir::ExprV {
    let own = mk(ir::KindV::Len(src), Ty::I64, line);
    match zip {
        None => own,
        Some(o) => mk(
            ir::KindV::MinMax(true, Box::new(own), Box::new(mk(ir::KindV::Len(o), Ty::I64, line))),
            Ty::I64,
            line,
        ),
    }
}

/// The element of `l` that `i` counts.
pub open spec fn element(st: St, l: usize, i: usize, line: u32) -> ir::ExprV {
    mk(
        ir::KindV::Index(l, Box::new(local_expr(st, i, line))),
        st.locals[l as int].ty.s_elem()->0,
        line,
    )
}

/// The first values of a chain: the element, and that of the zipped array.
#[verifier::opaque]
pub open spec fn chain_first(st: St, src: usize, zip: Option<usize>, i: usize, line: u32) -> (Flow, St) {
    let x = next_id(st);
    let st1 = declare_fresh(st, "x"@, st.locals[src as int].ty.s_elem()->0, false);
    let one = seq![ir::StmtV::Let(x, element(st1, src, i, line))];
    match zip {
        None => (Flow { stmts: one, vals: seq![x], guards: Seq::empty() }, st1),
        Some(o) => {
            let y = next_id(st1);
            let st2 = declare_fresh(st1, "y"@, st1.locals[o as int].ty.s_elem()->0, false);
            (
                Flow {
                    stmts: one.push(ir::StmtV::Let(y, element(st2, o, i, line))),
                    vals: seq![x, y],
                    guards: Seq::empty(),
                },
                st2,
            )
        },
    }
}

/// The loop that a chain is, as a block with the accumulator for its value.
#[verifier::opaque]
pub open spec fn chain_block(st: St, sink: Sink, f: Flow, i: usize, len: ir::ExprV, line: u32) -> ir::ExprV {
    let acc_ty = st.locals[sink.acc as int].ty;
    let body = unit_block(guarded(f.guards, f.stmts + sink.update, line));
    let run = ir::StmtV::For { var: i, start: mk(ir::KindV::Int(0), Ty::I64, line), end: len, body };
    let block = ir::BlockV {
        stmts: (seq![ir::StmtV::Let(sink.acc, sink.init)] + sink.before).push(run),
        tail: Some(Box::new(local_expr(st, sink.acc, line))),
        ty: acc_ty,
    };
    mk(ir::KindV::Block(block), acc_ty, line)
}

/// An iterator chain, reduced. `xs.iter().map(|x| ..).filter(|x| ..).sum()` and the comprehension
/// form `[e for x in xs if c].sum()` become one loop over the source with the stages inlined into
/// its body — fusion by construction, there is no other form.
#[verifier::opaque]
pub open spec fn s_chain(env: Env, ev: Ev, cx: Place, st: St, e: ExprV) -> Result<(ir::ExprV, St), DiagV>
{
    match e.kind {
        KindV::MethodCall(recv, name, args) => {
            let source = chain_source(*recv);
            match local_of(st, source, "the source of a chain"@) {
                Err(d) => Err(d),
                Ok(src) => if !st.locals[src as int].ty.arrayish() {
                    fault(source.line, source.col, "iterating over a `"@ + st.locals[src as int].ty.text() + "`"@)
                } else {
                    match chain_stages(st, *recv) {
                        Err(d) => Err(d),
                        Ok((_, zip)) => {
                            let i = next_id(st);
                            let st1 = declare_fresh(st, "i"@, Ty::I64, false);
                            let (f0, st2) = chain_first(st1, src, zip, i, e.line);
                            match s_flow(env, ev, cx, st2, *recv, f0, i, e.line) {
                                Err(d) => Err(d),
                                Ok((f, st3)) => match s_sink(env, ev, cx, st3, f.vals, name, args, e.line, e.col) {
                                    Err(d) => Err(d),
                                    Ok((sink, st4)) => if args.len() > 0 && name != "fold"@ {
                                        fault(e.line, e.col, "`."@ + name + "()` takes no arguments"@)
                                    } else {
                                        let st5 = leave(st4, st.names.len());
                                        Ok(
                                            (
                                                chain_block(st5, sink, f, i, chain_len(src, zip, e.line), e.line),
                                                st5,
                                            ),
                                        )
                                    },
                                },
                            }
                        },
                    }
                },
            }
        },
        _ => arbitrary(),
    }
}

// ---- statements ----

#[verifier::opaque]
pub open spec fn r_block(env: Env, ev: Ev, cx: Place, st: St, b: BlockV) -> Result<(ir::BlockV, St), DiagV>
{
    match s_stmts(env, ev, cx, st, b.stmts, Seq::empty()) {
        Err(d) => Err(d),
        Ok((stmts, st1)) => {
            let valued: Result<(Option<Box<ir::ExprV>>, St), DiagV> = match b.tail {
                Some(e) => match (ev.expr)(cx, st1, *e) {
                    Ok((t, st2)) => Ok((Some(Box::new(t)), st2)),
                    Err(d) => Err(d),
                },
                None => Ok((None, st1)),
            };
            match valued {
                Err(d) => Err(d),
                Ok((tail, st2)) => {
                    let ty = match tail {
                        Some(t) => t.ty,
                        None => Ty::Unit,
                    };
                    if ty is Slice {
                        fault(b.line, b.col, "a block cannot have a view as its value"@)
                    } else {
                        Ok((ir::BlockV { stmts, tail, ty }, leave(st2, st.names.len())))
                    }
                },
            }
        },
    }
}

#[verifier::opaque]
pub open spec fn s_stmts(env: Env, ev: Ev, cx: Place, st: St, ss: Seq<StmtV>, got: Seq<ir::StmtV>) -> Result<
    (Seq<ir::StmtV>, St),
    DiagV,
>
    decreases ss,
{
    if ss.len() == 0 {
        Ok((got, st))
    } else {
        match s_stmt(env, ev, cx, st, ss[0]) {
            Err(d) => Err(d),
            Ok((s, st1)) => s_stmts(env, ev, cx, st1, ss.drop_first(), got.push(s)),
        }
    }
}

#[verifier::opaque]
pub open spec fn s_stmt(env: Env, ev: Ev, cx: Place, st: St, s: StmtV) -> Result<(ir::StmtV, St), DiagV>
{
    match s {
        StmtV::Let { name, mutable, ty, init, line, col } => s_let_stmt(env, ev, cx, st, s),
        StmtV::Assign { target, op, value, line, col } => s_assign(env, ev, cx, st, s),
        StmtV::For { var, start, end, body, line, col } => s_for(env, ev, cx, st, s),
        StmtV::While { cond, decreasing, body, line, col } => s_while(env, ev, cx, st, s),
        StmtV::Break(line, col) => if cx.in_loop {
            Ok((ir::StmtV::Break, st))
        } else {
            fault(line, col, "`break` outside a loop"@)
        },
        StmtV::Expr(e) => match (ev.expr)(cx, st, e) {
            Err(d) => Err(d),
            Ok((ce, st1)) => if ce.ty.arrayish() {
                fault(e.line, e.col, "an array expression on its own does nothing"@)
            } else {
                Ok((ir::StmtV::Expr(ce), st1))
            },
        },
        StmtV::Return(_, _, _) => s_return(env, ev, cx, st, s),
    }
}

/// A `let`, its declared type resolved first.
#[verifier::opaque]
pub open spec fn s_let_stmt(env: Env, ev: Ev, cx: Place, st: St, s: StmtV) -> Result<(ir::StmtV, St), DiagV>
{
    match s {
        StmtV::Let { name, mutable, ty, init, line, col } => {
            let typed: Result<Option<Ty>, DiagV> = match ty {
                Some(t) => match resolve(env.structs, t, line, col) {
                    Ok(d) => Ok(Some(d)),
                    Err(d) => Err(d),
                },
                None => Ok(None),
            };
            match typed {
                Err(d) => Err(d),
                Ok(declared) => s_let(env, ev, cx, st, name, mutable, declared, init, line, col),
            }
        },
        _ => arbitrary(),
    }
}

/// An assignment; the value is checked before its target.
#[verifier::opaque]
pub open spec fn s_assign(env: Env, ev: Ev, cx: Place, st: St, s: StmtV) -> Result<(ir::StmtV, St), DiagV>
{
    match s {
        StmtV::Assign { target, op, value, line, col } => if cx.in_closure {
            fault(line, col, "a closure in a chain cannot assign; it must be a pure function of its arguments"@)
        } else {
            match (ev.expr)(cx, st, value) {
                Err(d) => Err(d),
                Ok((val, st1)) => match s_target(env, ev, cx, st1, target, line, col) {
                    Err(d) => Err(d),
                    Ok((lv, tty, st2)) => match check_assign(op, val.ty, tty, target, value) {
                        Err(d) => Err(d),
                        Ok(_) => Ok((ir::StmtV::Assign(lv, op, val), st2)),
                    },
                },
            }
        },
        _ => arbitrary(),
    }
}

/// A loop over a range of integers.
#[verifier::opaque]
pub open spec fn s_for(env: Env, ev: Ev, cx: Place, st: St, s: StmtV) -> Result<(ir::StmtV, St), DiagV>
{
    match s {
        StmtV::For { var, start, end, body, line, col } => match (ev.expr)(cx, st, start) {
            Err(d) => Err(d),
            Ok((s, st1)) => match (ev.expr)(cx, st1, end) {
                Err(d) => Err(d),
                Ok((e, st2)) => if s.ty != Ty::I64 || e.ty != Ty::I64 {
                    fault(line, col, "range bounds must be `i64`"@)
                } else {
                    let id = next_id(st2);
                    let st3 = declare(st2, var, Ty::I64, false);
                    match (ev.block)(Place { in_loop: true, loop_start: Some(next_id(st3)), ..cx }, st3, body) {
                        Err(d) => Err(d),
                        Ok((b, st4)) => if b.ty != Ty::Unit {
                            fault(body.line, body.col, "a loop body has type `()`, found `"@ + b.ty.text() + "`"@)
                        } else {
                            Ok(
                                (
                                    ir::StmtV::For { var: id, start: s, end: e, body: b },
                                    leave(st4, st2.names.len()),
                                ),
                            )
                        },
                    }
                },
            },
        },
        _ => arbitrary(),
    }
}

/// A loop under a condition, with the programmer's measure if there is one.
#[verifier::opaque]
pub open spec fn s_while(env: Env, ev: Ev, cx: Place, st: St, s: StmtV) -> Result<(ir::StmtV, St), DiagV>
{
    match s {
        StmtV::While { cond, decreasing, body, line, col } => match (ev.expr)(cx, st, cond) {
            Err(d) => Err(d),
            Ok((c, st1)) => if c.ty != Ty::Bool {
                fault(cond.line, cond.col, "`while` condition is `"@ + c.ty.text() + "`, not `bool`"@)
            } else {
                let measured: Result<(Option<ir::ExprV>, St), DiagV> = match decreasing {
                    Some(m) => match (ev.expr)(cx, st1, m) {
                        Err(d) => Err(d),
                        Ok((cm, st2)) => if cm.ty != Ty::I64 {
                            fault(m.line, m.col, "a `decreasing` measure is `i64`, found `"@ + cm.ty.text() + "`"@)
                        } else {
                            Ok((Some(cm), st2))
                        },
                    },
                    None => Ok((None, st1)),
                };
                match measured {
                    Err(d) => Err(d),
                    Ok((m, st2)) => match (ev.block)(Place { in_loop: true, loop_start: Some(next_id(st2)), ..cx },
                        st2,
                        body,
                    ) {
                        Err(d) => Err(d),
                        Ok((b, st3)) => if b.ty != Ty::Unit {
                            fault(body.line, body.col, "a loop body has type `()`, found `"@ + b.ty.text() + "`"@)
                        } else {
                            Ok((ir::StmtV::While { cond: c, decreasing: m, body: b, line }, st3))
                        },
                    },
                }
            },
        },
        _ => arbitrary(),
    }
}

/// A return of a value of the function's type.
#[verifier::opaque]
pub open spec fn s_return(env: Env, ev: Ev, cx: Place, st: St, s: StmtV) -> Result<(ir::StmtV, St), DiagV>
{
    match s {
        StmtV::Return(e, line, col) => {
            let given: Result<(Option<ir::ExprV>, St), DiagV> = match e {
                Some(x) => match (ev.expr)(cx, st, x) {
                    Ok((ce, st1)) => Ok((Some(ce), st1)),
                    Err(d) => Err(d),
                },
                None => Ok((None, st)),
            };
            match given {
                Err(d) => Err(d),
                Ok((ce, st1)) => {
                    let ty = match ce {
                        Some(x) => x.ty,
                        None => Ty::Unit,
                    };
                    if returnable(ty, cx.ret) {
                        Ok((ir::StmtV::Return(ce), st1))
                    } else {
                        fault(
                            line,
                            col,
                            "returning `"@ + ty.text() + "` from a function that returns `"@ + cx.ret.text() + "`"@,
                        )
                    }
                },
            }
        },
        _ => arbitrary(),
    }
}

/// A value of type `ty` can be returned where `ret` is.
pub open spec fn returnable(ty: Ty, ret: Ty) -> bool {
    match (ty, ret) {
        (Ty::Array(a, _), Ty::Array(b, _)) => *a == *b || ty.s_same_shape(ret),
        _ => ty.s_same_shape(ret),
    }
}

/// A local that can be written through an index: its element type.
pub open spec fn writable(l: LocalV, target: ExprV) -> Result<Ty, DiagV> {
    match l.ty {
        Ty::Array(e, _) => if l.mutable {
            Ok(*e)
        } else {
            fault(target.line, target.col, "`"@ + l.name + "` is not mutable; declare it with `let mut`"@)
        },
        Ty::Slice(e, m, _) => if m {
            Ok(*e)
        } else {
            fault(target.line, target.col, "`"@ + l.name + "` is a `&[T]` view; writing needs `&mut [T]`"@)
        },
        t => fault(target.line, target.col, "cannot index a value of type `"@ + t.text() + "`"@),
    }
}

/// What an assignment assigns to, and its type.
#[verifier::opaque]
pub open spec fn s_target(env: Env, ev: Ev, cx: Place, st: St, target: ExprV, line: u32, col: u32) -> Result<
    (ir::LValueV, Ty, St),
    DiagV,
>
{
    let (tl, tc) = (target.line, target.col);
    match target.kind {
        KindV::Var(n) => match lookup(st.names, n) {
            None => fault(tl, tc, "unknown variable `"@ + n + "`"@),
            Some(id) => {
                let l = st.locals[id as int];
                if !l.mutable {
                    fault(tl, tc, "`"@ + n + "` is not mutable; declare it with `let mut`"@)
                } else if l.ty.arrayish() {
                    fault(tl, tc, "cannot assign a whole array or view; assign elements"@)
                } else {
                    Ok((ir::LValueV::Var(id), l.ty, st))
                }
            },
        },
        KindV::Index(base, idx) => match s_index_target(env, ev, cx, st, *base, *idx, target) {
            Err(d) => Err(d),
            Ok((id, ci, elem, st1)) => Ok((ir::LValueV::Index(id, ci, tl), elem, st1)),
        },
        KindV::Field(base, f) => match base.kind {
            KindV::Var(n) => match lookup(st.names, n) {
                None => fault(base.line, base.col, "unknown variable `"@ + n + "`"@),
                Some(id) => {
                    let l = st.locals[id as int];
                    match l.ty {
                        Ty::Struct(sid) => if !l.mutable {
                            fault(tl, tc, "`"@ + n + "` is not mutable; declare it with `let mut`"@)
                        } else {
                            match field_type(env, l.ty, f, tl, tc) {
                                Ok((fi, ty)) => Ok((ir::LValueV::Field(id, fi), ty, st)),
                                Err(d) => Err(d),
                            }
                        },
                        _ => fault(tl, tc, "`"@ + n + "` is not a struct; it has no field `"@ + f + "`"@),
                    }
                },
            },
            KindV::Index(arr, idx) => match s_index_target(env, ev, cx, st, *arr, *idx, target) {
                Err(d) => Err(d),
                Ok((id, ci, elem, st1)) => match elem {
                    Ty::Struct(sid) => match field_type(env, elem, f, tl, tc) {
                        Ok((fi, ty)) => Ok((ir::LValueV::IndexField(id, ci, fi, tl), ty, st1)),
                        Err(d) => Err(d),
                    },
                    _ => fault(
                        tl,
                        tc,
                        "elements of `"@ + st1.locals[id as int].name + "` are not structs; there is no field `"@ + f
                            + "`"@,
                    ),
                },
            },
            _ => fault(line, col, "a field can be assigned on a variable (`v.f`) or an element (`xs[i].f`)"@),
        },
        _ => fault(line, col, "assignment target must be a variable, an element or a field"@),
    }
}

/// An element that an assignment writes: its array, its index and its type.
#[verifier::opaque]
pub open spec fn s_index_target(env: Env, ev: Ev, cx: Place, st: St, base: ExprV, idx: ExprV, target: ExprV) -> Result<
    (usize, ir::ExprV, Ty, St),
    DiagV,
>
{
    match local_of(st, base, "the array being indexed"@) {
        Err(d) => Err(d),
        Ok(id) => match (ev.expr)(cx, st, idx) {
            Err(d) => Err(d),
            Ok((ci, st1)) => if ci.ty != Ty::I64 {
                fault(idx.line, idx.col, "index must be `i64`, found `"@ + ci.ty.text() + "`"@)
            } else {
                match writable(st1.locals[id as int], target) {
                    Ok(elem) => Ok((id, ci, elem, st1)),
                    Err(d) => Err(d),
                }
            },
        },
    }
}

pub open spec fn check_assign(op: Option<BinOp>, val: Ty, tty: Ty, target: ExprV, value: ExprV) -> Result<(), DiagV> {
    match op {
        Some(o) => if !tty.numeric() {
            fault(
                target.line,
                target.col,
                "`"@ + o.c_text() + "=` needs a numeric target, found `"@ + tty.text() + "`"@,
            )
        } else if val != tty {
            fault(value.line, value.col, "assigning `"@ + val.text() + "` to a `"@ + tty.text() + "`"@)
        } else {
            Ok(())
        },
        None => if val != tty {
            fault(value.line, value.col, "assigning `"@ + val.text() + "` to a `"@ + tty.text() + "`"@)
        } else {
            Ok(())
        },
    }
}

/// The elements of an array literal, after those in `got`: values of one type.
#[verifier::opaque]
pub open spec fn s_elements(env: Env, ev: Ev, cx: Place, st: St, elems: Seq<ExprV>, got: Seq<ir::ExprV>) -> Result<
    (Seq<ir::ExprV>, St),
    DiagV,
>
    decreases elems,
{
    if elems.len() == 0 {
        Ok((got, st))
    } else {
        let e = elems[0];
        match (ev.expr)(cx, st, e) {
            Err(d) => Err(d),
            Ok((ce, st1)) => if !ce.ty.by_value() {
                fault(e.line, e.col, "array elements must be scalars or structs"@)
            } else if got.len() > 0 && got[0].ty != ce.ty {
                fault(
                    e.line,
                    e.col,
                    "array elements differ in type: `"@ + got[0].ty.text() + "` and `"@ + ce.ty.text() + "`"@,
                )
            } else {
                s_elements(env, ev, cx, st1, elems.drop_first(), got.push(ce))
            },
        }
    }
}

pub open spec fn byte_exprs(b: Seq<u8>, line: u32) -> Seq<ir::ExprV> {
    Seq::new(b.len(), |i: int| mk(ir::KindV::Byte(b[i]), Ty::U8, line))
}

/// The size of `[e; n]`: the constant, or a variable named after the length.
pub open spec fn repeat_size(st: St, name: Seq<char>, n: ir::ExprV) -> (Size, St) {
    let v = Size::Var(st.sizes.len() as usize);
    match n.kind {
        ir::KindV::Int(k) => (Size::Const(k), st),
        ir::KindV::Local(l) => (v, add_size(st, st.locals[l as int].name)),
        ir::KindV::Len(l) => (v, add_size(st, st.locals[l as int].name + ".len()"@)),
        _ => (v, add_size(st, name + ".len()#"@ + decimal(st.sizes.len()))),
    }
}

/// A `let` whose declared type is resolved. Arrays are born here and only here.
#[verifier::opaque]
pub open spec fn s_let(
    env: Env,
    ev: Ev,
    cx: Place,
    st: St,
    name: Seq<char>,
    mutable: bool,
    declared: Option<Ty>,
    init: ExprV,
    line: u32,
    col: u32,
) -> Result<(ir::StmtV, St), DiagV>
{
    match init.kind {
        KindV::Bytes(bytes) => {
            let ty = Ty::Array(Box::new(Ty::U8), Size::Const(bytes.len() as i64));
            match check_declared(declared, ty, line, col) {
                Err(d) => Err(d),
                Ok(_) => Ok(
                    (
                        ir::StmtV::LetArray(next_id(st), byte_exprs(bytes, init.line)),
                        declare(st, name, ty, mutable),
                    ),
                ),
            }
        },
        KindV::ArrayLit(_) => s_let_list(env, ev, cx, st, name, mutable, declared, init, line, col),
        KindV::Comprehension { elem, var, source, cond } => s_let_build(
            env,
            ev,
            cx,
            st,
            name,
            mutable,
            declared,
            init,
            line,
            col,
        ),
        KindV::ArrayRepeat(_, _) => s_let_repeat(env, ev, cx, st, name, mutable, declared, init, line, col),
        _ => match (ev.expr)(cx, st, init) {
            Err(d) => Err(d),
            Ok((ce, st1)) => s_let_value(cx, st1, name, mutable, declared, ce, init, line, col),
        },
    }
}

/// `let xs = [a, b, c]`
#[verifier::opaque]
pub open spec fn s_let_list(
    env: Env,
    ev: Ev,
    cx: Place,
    st: St,
    name: Seq<char>,
    mutable: bool,
    declared: Option<Ty>,
    init: ExprV,
    line: u32,
    col: u32,
) -> Result<(ir::StmtV, St), DiagV>
{
    match init.kind {
        KindV::ArrayLit(elems) => match s_elements(env, ev, cx, st, elems, Seq::empty()) {
            Err(d) => Err(d),
            Ok((out, st1)) => if out.len() == 0 {
                fault(init.line, init.col, "empty array literal has no element type"@)
            } else {
                let ty = Ty::Array(Box::new(out[0].ty), Size::Const(out.len() as i64));
                match check_declared(declared, ty, line, col) {
                    Err(d) => Err(d),
                    Ok(_) => Ok((ir::StmtV::LetArray(next_id(st1), out), declare(st1, name, ty, mutable))),
                }
            },
        },
        _ => arbitrary(),
    }
}

/// `let ys = [e for x in xs]`
#[verifier::opaque]
pub open spec fn s_let_build(
    env: Env,
    ev: Ev,
    cx: Place,
    st: St,
    name: Seq<char>,
    mutable: bool,
    declared: Option<Ty>,
    init: ExprV,
    line: u32,
    col: u32,
) -> Result<(ir::StmtV, St), DiagV>
{
    match init.kind {
        KindV::Comprehension { elem, var, source, cond } => if cond is Some {
            fault(
                init.line,
                init.col,
                "the length of a filtered comprehension depends on the data; reduce it (`.sum()`, `.count()`, ...) or drop the `if`"@,
            )
        } else {
            match local_of(st, *source, "the source of a comprehension"@) {
                Err(d) => Err(d),
                Ok(src) => if !st.locals[src as int].ty.arrayish() {
                    fault(
                        source.line,
                        source.col,
                        "iterating over a `"@ + st.locals[src as int].ty.text() + "`"@,
                    )
                } else {
                    let src_ty = st.locals[src as int].ty;
                    let k = next_id(st);
                    let st1 = declare_fresh(st, "k"@, Ty::I64, false);
                    let x = next_id(st1);
                    let st2 = declare(st1, var, src_ty.s_elem()->0, false);
                    let load = mk(
                        ir::KindV::Index(src, Box::new(mk(ir::KindV::Local(k), Ty::I64, init.line))),
                        src_ty.s_elem()->0,
                        init.line,
                    );
                    match (ev.expr)(cx, st2, *elem) {
                        Err(d) => Err(d),
                        Ok((ce, st3)) => if !ce.ty.by_value() {
                            fault(elem.line, elem.col, "comprehension elements must be scalars or structs"@)
                        } else {
                            let st4 = leave(st3, st.names.len());
                            let body = ir::BlockV {
                                stmts: seq![ir::StmtV::Let(x, load)],
                                tail: Some(Box::new(ce)),
                                ty: ce.ty,
                            };
                            let ty = Ty::Array(Box::new(ce.ty), src_ty.s_size()->0);
                            match check_declared(declared, ty, line, col) {
                                Err(d) => Err(d),
                                Ok(_) => Ok(
                                    (
                                        ir::StmtV::LetBuild {
                                            id: next_id(st4),
                                            len: mk(ir::KindV::Len(src), Ty::I64, init.line),
                                            var: k,
                                            body,
                                        },
                                        declare(st4, name, ty, mutable),
                                    ),
                                ),
                            }
                        },
                    }
                },
            }
        },
        _ => arbitrary(),
    }
}

/// `let xs = [e; n]`
#[verifier::opaque]
pub open spec fn s_let_repeat(
    env: Env,
    ev: Ev,
    cx: Place,
    st: St,
    name: Seq<char>,
    mutable: bool,
    declared: Option<Ty>,
    init: ExprV,
    line: u32,
    col: u32,
) -> Result<(ir::StmtV, St), DiagV>
{
    match init.kind {
        KindV::ArrayRepeat(e, n) => match (ev.expr)(cx, st, *e) {
            Err(d) => Err(d),
            Ok((ce, st1)) => if !ce.ty.by_value() {
                fault(e.line, e.col, "array elements must be scalars or structs"@)
            } else {
                match (ev.expr)(cx, st1, *n) {
                    Err(d) => Err(d),
                    Ok((cn, st2)) => if cn.ty != Ty::I64 {
                        fault(n.line, n.col, "array length must be `i64`, found `"@ + cn.ty.text() + "`"@)
                    } else {
                        let (size, st3) = repeat_size(st2, name, cn);
                        let ty = Ty::Array(Box::new(ce.ty), size);
                        match check_declared(declared, ty, line, col) {
                            Err(d) => Err(d),
                            Ok(_) => Ok(
                                (ir::StmtV::LetRepeat(next_id(st3), ce, cn), declare(st3, name, ty, mutable)),
                            ),
                        }
                    },
                }
            },
        },
        _ => arbitrary(),
    }
}

/// A `let` of a value that is not a literal array.
#[verifier::opaque]
pub open spec fn s_let_value(
    cx: Place,
    st: St,
    name: Seq<char>,
    mutable: bool,
    declared: Option<Ty>,
    ce: ir::ExprV,
    init: ExprV,
    line: u32,
    col: u32,
) -> Result<(ir::StmtV, St), DiagV> {
    let id = next_id(st);
    if ce.ty is Array && ce.kind is Call {
        // a call that returns an owned array: the caller owns it, under a size of its own
        let sv = st.sizes.len() as usize;
        let st1 = add_size(st, name + ".len()"@);
        let ty = Ty::Array(ce.ty->Array_0, Size::Var(sv));
        match check_declared(declared, ty, line, col) {
            Err(d) => Err(d),
            Ok(_) => Ok((ir::StmtV::Let(id, ce), declare(st1, name, ty, mutable))),
        }
    } else if ce.ty is Array {
        // `let ys = xs;` moves xs: a bare variable is the only source a move can name
        match ce.kind {
            ir::KindV::Local(src) => {
                let again = match cx.loop_start {
                    Some(s) => src < s,
                    None => false,
                };
                if again {
                    fault(
                        init.line,
                        init.col,
                        "moving `"@ + st.locals[src as int].name
                            + "` inside a loop would move it again on the next lap"@,
                    )
                } else {
                    match check_declared(declared, ce.ty, line, col) {
                        Err(d) => Err(d),
                        Ok(_) => {
                            let st1 = declare(st, name, ce.ty, mutable);
                            Ok(
                                (
                                    ir::StmtV::Let(id, ce),
                                    St { moved: mark_moved(st1.moved, src as int, line), ..st1 },
                                ),
                            )
                        },
                    }
                }
            },
            _ => fault(init.line, init.col, "an array can only be moved from a variable; take a view with `&`"@),
        }
    } else if ce.ty == Ty::Unit {
        fault(init.line, init.col, "cannot bind a `()` value"@)
    } else {
        match check_declared(declared, ce.ty, line, col) {
            Err(d) => Err(d),
            Ok(_) => {
                let st1 = declare(st, name, ce.ty, mutable);
                let viewed = match ce.kind {
                    ir::KindV::Ref(src, _) => Some(src),
                    ir::KindV::Local(src) => Some(src),
                    _ => None,
                };
                let st2 = match viewed {
                    Some(src) => if ce.ty.arrayish() {
                        set_root(st1, id, st.roots[src as int])
                    } else {
                        st1
                    },
                    None => st1,
                };
                Ok((ir::StmtV::Let(id, ce), st2))
            },
        }
    }
}

// ---- functions and programs ----

/// The state with the first `n` parameters declared. A slice parameter's size is its own variable,
/// named after the parameter.
#[verifier::opaque]
pub open spec fn s_params(st: St, params: Seq<ParamV>, tys: Seq<Ty>, n: nat) -> Result<St, DiagV>
    decreases n,
{
    if n == 0 {
        Ok(st)
    } else {
        match s_params(st, params, tys, (n - 1) as nat) {
            Err(d) => Err(d),
            Ok(st1) => {
                let p = params[n - 1];
                let (ty, st2) = match tys[n - 1] {
                    Ty::Slice(e, m, _) => (
                        Ty::Slice(e, m, Size::Var(st1.sizes.len() as usize)),
                        add_size(st1, p.name + ".len()"@),
                    ),
                    t => (t, st1),
                };
                if lookup(st2.names, p.name) is Some {
                    fault(p.line, p.col, "parameter `"@ + p.name + "` is declared twice"@)
                } else {
                    Ok(declare(st2, p.name, ty, false))
                }
            },
        }
    }
}

pub open spec fn param_ids(n: nat) -> Seq<usize> {
    Seq::new(n, |i: int| i as usize)
}

/// The first effect that is not one.
pub open spec fn check_uses(uses: Seq<Seq<char>>, from: int, line: u32, col: u32) -> Result<(), DiagV>
    decreases uses.len() - from,
{
    if from < 0 || from >= uses.len() {
        Ok(())
    } else if uses[from] != "io"@ && uses[from] != "unbounded"@ {
        fault(line, col, "unknown effect `"@ + uses[from] + "`; effects are `io` and `unbounded`"@)
    } else {
        check_uses(uses, from + 1, line, col)
    }
}

pub open spec fn ends_in_return(b: ir::BlockV) -> bool {
    b.stmts.len() > 0 && b.stmts.last() is Return
}

/// The type of the last statement that returns a value.
pub open spec fn last_return(s: Seq<ir::StmtV>) -> Option<Ty>
    decreases s.len(),
{
    if s.len() == 0 {
        None
    } else {
        match s.last() {
            ir::StmtV::Return(Some(e)) => Some(e.ty),
            _ => last_return(s.drop_last()),
        }
    }
}

/// What a function with this body returns: an owned array carries the size of what is actually
/// returned, so a caller can cost its loops over the result.
pub open spec fn s_result(f: FuncV, ret: Ty, body: ir::BlockV) -> Result<Ty, DiagV> {
    if body.tail is None && ret != Ty::Unit && !ends_in_return(body) {
        fault(f.line, f.col, "`"@ + f.name + "` returns `"@ + ret.text() + "` but its body has no value"@)
    } else if body.tail is Some && !body.tail->0.ty.s_same_shape(ret) {
        fault(
            body.tail->0.line,
            0,
            "`"@ + f.name + "` returns `"@ + ret.text() + "`, but its body has type `"@ + body.tail->0.ty.text()
                + "`"@,
        )
    } else if ret is Array {
        let returned = match body.tail {
            Some(t) => Some(t.ty),
            None => last_return(body.stmts),
        };
        match returned {
            Some(Ty::Array(e, sz)) => Ok(Ty::Array(e, sz)),
            _ => fault(
                f.line,
                0,
                "`"@ + f.name + "` returns an owned array, but its body does not end in one"@,
            ),
        }
    } else {
        Ok(ret)
    }
}

#[verifier::opaque]
pub open spec fn s_func(env: Env, f: FuncV, sig: SigV) -> Result<ir::FuncV, DiagV> {
    match s_params(start(), f.params, sig.params, f.params.len()) {
        Err(d) => Err(d),
        Ok(st) => match f.body {
            None => match check_uses(f.uses, 0, f.line, f.col) {
                Err(d) => Err(d),
                Ok(_) => Ok(
                    ir::FuncV {
                        name: f.name,
                        params: param_ids(f.params.len()),
                        ret: sig.ret,
                        locals: st.locals,
                        sizes: st.sizes,
                        body: None,
                        uses: f.uses,
                        asserts: f.asserts,
                        line: f.line,
                    },
                ),
            },
            Some(b) => if f.uses.len() > 0 {
                fault(
                    f.line,
                    f.col,
                    "effects are inferred for a function with a body; `uses` belongs on an `extern`"@,
                )
            } else {
                match s_block(
                    env,
                    Place { ret: sig.ret, in_loop: false, in_closure: false, loop_start: None },
                    st,
                    b,
                ) {
                    Err(d) => Err(d),
                    Ok((body, st1)) => match s_result(f, sig.ret, body) {
                        Err(d) => Err(d),
                        Ok(ret) => Ok(
                            ir::FuncV {
                                name: f.name,
                                params: param_ids(f.params.len()),
                                ret,
                                locals: st1.locals,
                                sizes: st1.sizes,
                                body: Some(body),
                                uses: Seq::empty(),
                                asserts: f.asserts,
                                line: f.line,
                            },
                        ),
                    },
                }
            },
        },
    }
}

/// The fields of a struct, after those in `got`: scalars, with names of their own.
pub open spec fn s_fields(structs: Seq<ir::StructDefV>, fields: Seq<FieldDefV>, got: Seq<(Seq<char>, Ty)>, i: int) -> Result<
    Seq<(Seq<char>, Ty)>,
    DiagV,
>
    decreases fields.len() - i,
{
    if i < 0 || i >= fields.len() {
        Ok(got)
    } else {
        let f = fields[i];
        if field_index(got, f.name, 0) is Some {
            fault(f.line, f.col, "field `"@ + f.name + "` is declared twice"@)
        } else {
            match resolve(structs, f.ty, f.line, f.col) {
                Err(d) => Err(d),
                Ok(ty) => if ty.scalar() {
                    s_fields(structs, fields, got.push((f.name, ty)), i + 1)
                } else {
                    fault(
                        f.line,
                        f.col,
                        "a field is a scalar (`i64 f64 bool u8`); `"@ + f.name + "` is not"@,
                    )
                },
            }
        }
    }
}

pub open spec fn layout_of(s: Option<Seq<char>>) -> (Layout, bool) {
    match s {
        Some(t) => if t == "soa"@ {
            (Layout::Soa, true)
        } else {
            (Layout::Aos, true)
        },
        None => (Layout::Aos, false),
    }
}

pub open spec fn builtin(n: Seq<char>) -> bool {
    n == "i64"@ || n == "f64"@ || n == "bool"@ || n == "u8"@
}

/// The first `n` structs of a program.
#[verifier::opaque]
pub open spec fn s_structs(defs: Seq<StructDefV>, n: nat) -> Result<Seq<ir::StructDefV>, DiagV>
    decreases n,
{
    if n == 0 {
        Ok(Seq::empty())
    } else {
        match s_structs(defs, (n - 1) as nat) {
            Err(d) => Err(d),
            Ok(got) => {
                let sd = defs[n - 1];
                if struct_id(got, sd.name, 0) is Some {
                    fault(sd.line, sd.col, "struct `"@ + sd.name + "` is defined twice"@)
                } else if builtin(sd.name) {
                    fault(sd.line, sd.col, "`"@ + sd.name + "` is a builtin type"@)
                } else {
                    match s_fields(got, sd.fields, Seq::empty(), 0) {
                        Err(d) => Err(d),
                        Ok(fields) => if fields.len() == 0 {
                            fault(sd.line, sd.col, "struct `"@ + sd.name + "` has no fields"@)
                        } else {
                            let (layout, fixed) = layout_of(sd.layout);
                            Ok(got.push(ir::StructDefV { name: sd.name, fields, layout, fixed }))
                        },
                    }
                }
            },
        }
    }
}

/// The types of the first `n` parameters.
pub open spec fn s_param_types(structs: Seq<ir::StructDefV>, params: Seq<ParamV>, n: nat) -> Result<Seq<Ty>, DiagV>
    decreases n,
{
    if n == 0 {
        Ok(Seq::empty())
    } else {
        match s_param_types(structs, params, (n - 1) as nat) {
            Err(d) => Err(d),
            Ok(got) => {
                let p = params[n - 1];
                match resolve(structs, p.ty, p.line, p.col) {
                    Err(d) => Err(d),
                    Ok(ty) => if ty is Array {
                        fault(p.line, p.col, "arrays are passed as views: write `&[T]` or `&mut [T]`"@)
                    } else {
                        Ok(got.push(ty))
                    },
                }
            },
        }
    }
}

/// The signatures of the first `n` functions, so calls can go in any order.
#[verifier::opaque]
pub open spec fn s_sigs(structs: Seq<ir::StructDefV>, funcs: Seq<FuncV>, n: nat) -> Result<Seq<SigV>, DiagV>
    decreases n,
{
    if n == 0 {
        Ok(Seq::empty())
    } else {
        match s_sigs(structs, funcs, (n - 1) as nat) {
            Err(d) => Err(d),
            Ok(got) => {
                let f = funcs[n - 1];
                if sig_id(got, f.name, 0) is Some {
                    fault(f.line, f.col, "function `"@ + f.name + "` is defined twice"@)
                } else if f.name == "println"@ {
                    fault(f.line, f.col, "`println` is a builtin"@)
                } else {
                    match s_param_types(structs, f.params, f.params.len()) {
                        Err(d) => Err(d),
                        Ok(params) => match resolve(structs, f.ret, f.line, f.col) {
                            Err(d) => Err(d),
                            Ok(ret) => if ret is Slice {
                                fault(
                                    f.line,
                                    f.col,
                                    "a function returns a value, not a view: write `[T]` for an owned array"@,
                                )
                            } else {
                                Ok(got.push(SigV { name: f.name, params, ret }))
                            },
                        },
                    }
                }
            },
        }
    }
}

/// There is a `main` with a body, no parameters and no value.
pub open spec fn check_main(sigs: Seq<SigV>, funcs: Seq<FuncV>) -> Result<(), DiagV> {
    match sig_id(sigs, "main"@, 0) {
        None => fault(1, 1, "no `fn main()`"@),
        Some(i) => {
            let f = funcs[i as int];
            if f.body is None {
                fault(f.line, f.col, "`main` cannot be extern"@)
            } else if sigs[i as int].params.len() > 0 || sigs[i as int].ret != Ty::Unit {
                fault(f.line, f.col, "`main` takes no parameters and returns `()`"@)
            } else {
                Ok(())
            }
        },
    }
}

#[verifier::opaque]
pub open spec fn s_funcs(env: Env, funcs: Seq<FuncV>, n: nat) -> Result<Seq<ir::FuncV>, DiagV>
    decreases n,
{
    if n == 0 {
        Ok(Seq::empty())
    } else {
        match s_funcs(env, funcs, (n - 1) as nat) {
            Err(d) => Err(d),
            Ok(got) => match s_func(env, funcs[n - 1], env.sigs[n - 1]) {
                Err(d) => Err(d),
                Ok(f) => Ok(got.push(f)),
            },
        }
    }
}

/// The typed module of a program: struct types first, then signatures, then bodies.
pub open spec fn s_check(p: ProgramV) -> Result<ir::ModuleV, DiagV> {
    match s_structs(p.structs, p.structs.len()) {
        Err(d) => Err(d),
        Ok(structs) => match s_sigs(structs, p.funcs, p.funcs.len()) {
            Err(d) => Err(d),
            Ok(sigs) => match check_main(sigs, p.funcs) {
                Err(d) => Err(d),
                Ok(_) => match s_funcs(Env { sigs, structs }, p.funcs, p.funcs.len()) {
                    Err(d) => Err(d),
                    Ok(funcs) => Ok(ir::ModuleV { funcs, structs }),
                },
            },
        },
    }
}

} // verus!
