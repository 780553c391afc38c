//! What a typed tree does when it is run: what an expression is worth, and what a statement makes of
//! the values of the locals and of the elements of arrays.
//!
//! Integers are unbounded: what is said here holds where nothing overflows. An array is known by the
//! local that holds it, and no two locals share elements. An expression is worth a value and changes
//! nothing. What has no meaning here — calls, printing, bindings of arrays, `while`, `break`,
//! `return` — means what the world says it does.

use vstd::prelude::*;
use crate::ast::{BinOp, UnOp};
use crate::cost::measure::whole_quotient;
use crate::ir::{BlockV, ExprV, KindV, LValueV, StmtV, Ty};

verus! {

pub enum Val {
    Int(int),
    Bool(bool),
    Unit,
    /// a float, a byte or a struct
    Other(int),
}

/// The values of the locals, the elements of the arrays that locals hold, and their lengths.
#[verifier::ext_equal]
pub struct Store {
    pub vars: spec_fn(usize) -> Val,
    pub cells: spec_fn(usize, int) -> Val,
    pub lens: spec_fn(usize) -> int,
}

/// What is not said here: floats, bytes and structs, and what other trees do.
pub struct World {
    pub float: spec_fn(Seq<char>) -> Val,
    pub byte: spec_fn(u8) -> Val,
    pub binary: spec_fn(BinOp, Val, Val) -> Val,
    pub unary: spec_fn(UnOp, Val) -> Val,
    pub cast: spec_fn(Val, Ty) -> Val,
    pub expr: spec_fn(ExprV, Store) -> Val,
    pub stmt: spec_fn(StmtV, Store) -> Store,
}

pub open spec fn number(v: Val) -> int {
    match v {
        Val::Int(n) => n,
        _ => 0,
    }
}

// ---- operations ----

/// An operation on two integers.
pub open spec fn on_ints(op: BinOp, a: int, b: int) -> Val {
    match op {
        BinOp::Add => Val::Int(a + b),
        BinOp::Sub => Val::Int(a - b),
        BinOp::Mul => Val::Int(a * b),
        BinOp::Div => Val::Int(whole_quotient(a, b)),
        BinOp::Rem => Val::Int(a - b * whole_quotient(a, b)),
        BinOp::Eq => Val::Bool(a == b),
        BinOp::Ne => Val::Bool(a != b),
        BinOp::Lt => Val::Bool(a < b),
        BinOp::Le => Val::Bool(a <= b),
        BinOp::Gt => Val::Bool(a > b),
        BinOp::Ge => Val::Bool(a >= b),
        _ => Val::Unit,
    }
}

/// An operation on two truth values.
pub open spec fn on_bools(op: BinOp, a: bool, b: bool) -> Val {
    match op {
        BinOp::And => Val::Bool(a && b),
        BinOp::Or => Val::Bool(a || b),
        BinOp::Eq => Val::Bool(a == b),
        BinOp::Ne => Val::Bool(a != b),
        _ => Val::Unit,
    }
}

pub open spec fn operate(op: BinOp, a: Val, b: Val, w: World) -> Val {
    match (a, b) {
        (Val::Int(x), Val::Int(y)) => on_ints(op, x, y),
        (Val::Bool(x), Val::Bool(y)) => on_bools(op, x, y),
        _ => if op == BinOp::Or && a == Val::Bool(true) {
            Val::Bool(true)
        } else if op == BinOp::And && a == Val::Bool(false) {
            Val::Bool(false)
        } else {
            (w.binary)(op, a, b)
        },
    }
}

pub open spec fn turn(op: UnOp, a: Val, w: World) -> Val {
    match (op, a) {
        (UnOp::Neg, Val::Int(x)) => Val::Int(-x),
        (UnOp::Not, Val::Bool(x)) => Val::Bool(!x),
        _ => (w.unary)(op, a),
    }
}

/// The smaller or the larger of two.
pub open spec fn smaller(min: bool, a: Val, b: Val, w: World) -> Val {
    let less = operate(BinOp::Lt, a, b, w) == Val::Bool(true);
    if less == min {
        a
    } else {
        b
    }
}

// ---- changes ----

pub open spec fn with_var(s: Store, l: usize, v: Val) -> Store {
    Store {
        vars: |x: usize|
            if x == l {
                v
            } else {
                (s.vars)(x)
            },
        ..s
    }
}

pub open spec fn with_cell(s: Store, l: usize, at: int, v: Val) -> Store {
    Store {
        cells: |x: usize, p: int|
            if x == l && p == at {
                v
            } else {
                (s.cells)(x, p)
            },
        ..s
    }
}

/// An array of `n` times one value.
pub open spec fn with_array(s: Store, l: usize, n: int, v: Val) -> Store {
    Store {
        vars: s.vars,
        cells: |x: usize, p: int|
            if x == l {
                v
            } else {
                (s.cells)(x, p)
            },
        lens: |x: usize|
            if x == l {
                n
            } else {
                (s.lens)(x)
            },
    }
}

/// What an assignment stores: the value, or what the operation makes of the one that was there.
pub open spec fn stored(op: Option<BinOp>, was: Val, v: Val, w: World) -> Val {
    match op {
        Some(o) => operate(o, was, v, w),
        None => v,
    }
}

// ---- trees ----

/// What an expression is worth.
pub open spec fn eval(e: ExprV, s: Store, w: World) -> Val
    decreases e, 0nat,
{
    match e.kind {
        KindV::Int(v) => Val::Int(v as int),
        KindV::Float(t) => (w.float)(t),
        KindV::Bool(b) => Val::Bool(b),
        KindV::Byte(b) => (w.byte)(b),
        KindV::Local(l) => (s.vars)(l),
        KindV::Binary(op, a, b) => operate(op, eval(*a, s, w), eval(*b, s, w), w),
        KindV::Unary(op, a) => turn(op, eval(*a, s, w), w),
        KindV::Index(l, i) => (s.cells)(l, number(eval(*i, s, w))),
        KindV::Len(l) => Val::Int((s.lens)(l)),
        KindV::Cast(a, t) => (w.cast)(eval(*a, s, w), t),
        KindV::MinMax(min, a, b) => smaller(min, eval(*a, s, w), eval(*b, s, w), w),
        KindV::If(c, yes, no) => if eval(*c, s, w) == Val::Bool(true) {
            block_value(yes, s, w)
        } else {
            match no {
                Some(b) => block_value(b, s, w),
                None => Val::Unit,
            }
        },
        KindV::Block(b) => block_value(b, s, w),
        _ => (w.expr)(e, s),
    }
}

/// What a block is worth: its tail, once its statements have run.
pub open spec fn block_value(b: BlockV, s: Store, w: World) -> Val
    decreases b, 1nat,
{
    match b.tail {
        Some(t) => eval(*t, run_all(b.stmts, s, w), w),
        None => Val::Unit,
    }
}

/// What a statement makes of the store.
pub open spec fn run(t: StmtV, s: Store, w: World) -> Store
    decreases t, 0nat,
{
    match t {
        StmtV::Let(l, e) => if e.ty.arrayish() {
            (w.stmt)(t, s)
        } else {
            with_var(s, l, eval(e, s, w))
        },
        StmtV::LetRepeat(l, v, n) => with_array(s, l, number(eval(n, s, w)), eval(v, s, w)),
        StmtV::Assign(lv, op, e) => match lv {
            LValueV::Var(l) => with_var(s, l, stored(op, (s.vars)(l), eval(e, s, w), w)),
            LValueV::Index(l, i, _) => {
                let at = number(eval(i, s, w));
                with_cell(s, l, at, stored(op, (s.cells)(l, at), eval(e, s, w), w))
            },
            _ => (w.stmt)(t, s),
        },
        StmtV::For { var, start, end, body } => if body.tail is Some {
            (w.stmt)(t, s)
        } else {
            run_range(body.stmts, var, number(eval(start, s, w)), number(eval(end, s, w)), s, w)
        },
        StmtV::Expr(e) => match e.kind {
            KindV::If(c, yes, no) => if eval(*c, s, w) == Val::Bool(true) {
                if yes.tail is Some {
                    (w.stmt)(t, s)
                } else {
                    run_all(yes.stmts, s, w)
                }
            } else {
                match no {
                    Some(b) => if b.tail is Some {
                        (w.stmt)(t, s)
                    } else {
                        run_all(b.stmts, s, w)
                    },
                    None => s,
                }
            },
            _ => (w.stmt)(t, s),
        },
        _ => (w.stmt)(t, s),
    }
}

/// Statements, one after the other.
pub open spec fn run_all(t: Seq<StmtV>, s: Store, w: World) -> Store
    decreases t, 0nat,
{
    if t.len() == 0 {
        s
    } else {
        run(t.last(), run_all(t.drop_last(), s, w), w)
    }
}

/// Statements with the variable from `lo` up to below `hi`.
pub open spec fn run_range(t: Seq<StmtV>, var: usize, lo: int, hi: int, s: Store, w: World) -> Store
    decreases t, (if lo < hi { (hi - lo) as nat } else { 0nat }) + 1,
{
    if lo >= hi {
        s
    } else {
        run_all(t, with_var(run_range(t, var, lo, hi - 1, s, w), var, Val::Int(hi - 1)), w)
    }
}

// ---- how lists of statements are put together ----

pub proof fn run_more(a: Seq<StmtV>, b: Seq<StmtV>, s: Store, w: World)
    ensures
        run_all(a + b, s, w) == run_all(b, run_all(a, s, w), w),
    decreases b.len(),
{
    if b.len() == 0 {
        assert(a + b =~= a);
    } else {
        assert((a + b).drop_last() =~= a + b.drop_last());
        assert((a + b).last() == b.last());
        run_more(a, b.drop_last(), s, w);
    }
}

pub proof fn run_push(a: Seq<StmtV>, t: StmtV, s: Store, w: World)
    ensures
        run_all(a.push(t), s, w) == run(t, run_all(a, s, w), w),
{
    assert(a.push(t).drop_last() =~= a);
    assert(a.push(t).last() == t);
}

pub proof fn run_one(t: StmtV, s: Store, w: World)
    ensures
        run_all(seq![t], s, w) == run(t, s, w),
{
    assert(seq![t].drop_last() =~= Seq::empty());
    assert(seq![t].last() == t);
    reveal_with_fuel(run_all, 2);
}

pub proof fn run_two(a: StmtV, b: StmtV, s: Store, w: World)
    ensures
        run_all(seq![a, b], s, w) == run(b, run(a, s, w), w),
{
    assert(seq![a, b] =~= seq![a].push(b));
    run_push(seq![a], b, s, w);
    run_one(a, s, w);
}

pub proof fn run_three(a: StmtV, b: StmtV, c: StmtV, s: Store, w: World)
    ensures
        run_all(seq![a, b, c], s, w) == run(c, run(b, run(a, s, w), w), w),
{
    assert(seq![a, b, c] =~= seq![a, b].push(c));
    run_push(seq![a, b], c, s, w);
    run_two(a, b, s, w);
}

} // verus!
