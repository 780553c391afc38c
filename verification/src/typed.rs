//! What the checker keeps: a typed expression is worth what its source is worth, in the values that its
//! type promises; views that are handed over together do not overlap; and what is moved away is gone.

use vstd::prelude::*;
use crate::ast::{BinOp, BlockV, ExprV, KindV, StmtV, UnOp};
use crate::ir;
use crate::ir::Ty;
use crate::meaning::{
    eval, number, operate, run, run_range, smaller, stored, turn, with_cell, with_var, Store, Val, World,
};
use crate::treesize::{expr_shrinks, expr_size, exprs_shrink};
use crate::typing::{
    binary_type, check_overlap, clash, knot, knot_expr, local_of, lookup, mark_moved, merge_moved, moved_at, r_expr,
    s_assign, s_binary, s_expr, s_for, s_index, s_index_target, s_len, s_min_max, s_target, s_unary, s_var, view_of,
    Env, Place, RootUse, St,
};

verus! {

// ---- what source is worth ----

/// What names stand for: a value, the elements of an array, and its length.
pub struct Names {
    pub value: spec_fn(Seq<char>) -> Val,
    pub cell: spec_fn(Seq<char>, int) -> Val,
    pub len: spec_fn(Seq<char>) -> int,
}

/// Literals and names, operators, elements of named arrays and their lengths, `min` and `max`.
pub open spec fn reckoned(e: ExprV) -> bool
    decreases e,
{
    match e.kind {
        KindV::Int(_) => true,
        KindV::Bool(_) => true,
        KindV::Var(_) => true,
        KindV::Binary(_, a, b) => reckoned(*a) && reckoned(*b),
        KindV::Unary(_, a) => reckoned(*a),
        KindV::Index(a, i) => a.kind is Var && reckoned(*i),
        KindV::MethodCall(a, f, args) => a.kind is Var && f == "len"@ && args.len() == 0,
        KindV::Call(f, args) => (f == "min"@ || f == "max"@) && args.len() == 2 && reckoned(args[0]) && reckoned(args[1]),
        _ => false,
    }
}

pub open spec fn worth(e: ExprV, n: Names, w: World) -> Val
    decreases e,
{
    match e.kind {
        KindV::Int(v) => Val::Int(v as int),
        KindV::Bool(b) => Val::Bool(b),
        KindV::Var(x) => (n.value)(x),
        KindV::Binary(op, a, b) => operate(op, worth(*a, n, w), worth(*b, n, w), w),
        KindV::Unary(op, a) => turn(op, worth(*a, n, w), w),
        KindV::Index(a, i) => match a.kind {
            KindV::Var(x) => (n.cell)(x, number(worth(*i, n, w))),
            _ => Val::Unit,
        },
        KindV::MethodCall(a, _, _) => match a.kind {
            KindV::Var(x) => Val::Int((n.len)(x)),
            _ => Val::Unit,
        },
        KindV::Call(f, args) => if args.len() == 2 {
            smaller(f == "min"@, worth(args[0], n, w), worth(args[1], n, w), w)
        } else {
            Val::Unit
        },
        _ => Val::Unit,
    }
}

/// The `i`-th entry is the innermost of its name.
pub open spec fn innermost(names: Seq<(Seq<char>, usize)>, i: int) -> bool {
    0 <= i < names.len() && forall|j: int| i < j < names.len() ==> (#[trigger] names[j]).0 != names[i].0
}

/// A name stands for what the local holds that was declared under it last.
pub open spec fn scoped(names: Seq<(Seq<char>, usize)>, n: Names, s: Store) -> bool {
    forall|i: int| #[trigger]
        innermost(names, i) ==> {
            let (x, id) = names[i];
            &&& (n.value)(x) == (s.vars)(id)
            &&& (n.len)(x) == (s.lens)(id)
            &&& forall|k: int| #[trigger] (n.cell)(x, k) == (s.cells)(id, k)
        }
}

/// A name that is found is the innermost of its name.
pub proof fn lookup_innermost(names: Seq<(Seq<char>, usize)>, x: Seq<char>)
    ensures
        match lookup(names, x) {
            Some(id) => exists|i: int| #[trigger] innermost(names, i) && names[i] == (x, id),
            None => forall|i: int| 0 <= i < names.len() ==> (#[trigger] names[i]).0 != x,
        },
    decreases names.len(),
{
    if names.len() > 0 {
        let t = names.drop_last();
        let last = names.len() - 1;
        if names.last().0 == x {
            assert(innermost(names, last));
        } else {
            lookup_innermost(t, x);
            match lookup(t, x) {
                Some(id) => {
                    let i = choose|i: int| #[trigger] innermost(t, i) && t[i] == (x, id);
                    assert(names[i] == t[i]);
                    assert forall|j: int| i < j < names.len() implies (#[trigger] names[j]).0 != names[i].0 by {
                        if j < last {
                            assert(names[j] == t[j]);
                        }
                    }
                    assert(innermost(names, i));
                },
                None => {
                    assert forall|i: int| 0 <= i < names.len() implies (#[trigger] names[i]).0 != x by {
                        if i < last {
                            assert(names[i] == t[i]);
                        }
                    }
                },
            }
        }
    }
}

// ---- what types promise ----

/// An `i64` is an integer and a `bool` a truth value; other scalars are neither.
pub open spec fn of_type(v: Val, t: Ty) -> bool {
    match t {
        Ty::I64 => v is Int,
        Ty::Bool => v is Bool,
        Ty::F64 => v is Other,
        Ty::U8 => v is Other,
        _ => true,
    }
}

/// What locals and elements hold is of their types.
pub open spec fn holds_types(st: St, s: Store) -> bool {
    &&& forall|i: int| 0 <= i < st.locals.len() ==> of_type((s.vars)(i as usize), (#[trigger] st.locals[i]).ty)
    &&& forall|i: int, k: int|
        #![trigger st.locals[i], (s.cells)(i as usize, k)]
        0 <= i < st.locals.len() ==> match st.locals[i].ty.s_elem() {
            Some(t) => of_type((s.cells)(i as usize, k), t),
            None => true,
        }
}

/// Operations on other scalars give such again, and comparisons of them truth values.
pub open spec fn orderly(w: World) -> bool {
    &&& forall|op: BinOp, a: int, b: int|
        #![trigger (w.binary)(op, Val::Other(a), Val::Other(b))]
        if op.compares() {
            (w.binary)(op, Val::Other(a), Val::Other(b)) is Bool
        } else {
            (w.binary)(op, Val::Other(a), Val::Other(b)) is Other
        }
    &&& forall|a: int| #![trigger (w.unary)(UnOp::Neg, Val::Other(a))] (w.unary)(UnOp::Neg, Val::Other(a)) is Other
}

/// Names refer to locals.
pub open spec fn named_well(st: St) -> bool {
    &&& st.locals.len() <= usize::MAX
    &&& forall|i: int| 0 <= i < st.names.len() ==> (#[trigger] st.names[i]).1 < st.locals.len()
}

proof fn local_is(st: St, e: ExprV, what: Seq<char>, n: Names, s: Store)
    requires
        named_well(st),
        scoped(st.names, n, s),
        e.kind is Var,
        local_of(st, e, what) is Ok,
    ensures
        local_of(st, e, what)->Ok_0 < st.locals.len(),
        moved_at(st.moved, local_of(st, e, what)->Ok_0 as int) is None,
        (s.vars)(local_of(st, e, what)->Ok_0) == (n.value)(e.kind->Var_0),
        (s.lens)(local_of(st, e, what)->Ok_0) == (n.len)(e.kind->Var_0),
        forall|k: int| #[trigger] (n.cell)(e.kind->Var_0, k) == (s.cells)(local_of(st, e, what)->Ok_0, k),
{
    let x = e.kind->Var_0;
    lookup_innermost(st.names, x);
    let id = local_of(st, e, what)->Ok_0;
    let i = choose|i: int| #[trigger] innermost(st.names, i) && st.names[i] == (x, id);
    assert(st.names[i].1 < st.locals.len());
}

proof fn operated(op: BinOp, a: Val, b: Val, t: Ty, w: World, line: u32, col: u32)
    requires
        orderly(w),
        of_type(a, t),
        of_type(b, t),
        binary_type(op, t, t, line, col) is Ok,
    ensures
        of_type(operate(op, a, b, w), binary_type(op, t, t, line, col)->Ok_0),
{
    match (a, b) {
        (Val::Other(x), Val::Other(y)) => {
            let r = (w.binary)(op, Val::Other(x), Val::Other(y));
            assert(if op.compares() {
                r is Bool
            } else {
                r is Other
            });
        },
        _ => {},
    }
}

/// A typed expression is worth what its source is worth, a value of its type, and checking it changes
/// nothing. No name in it was moved away.
pub proof fn typed_is_worth(env: Env, cx: Place, st: St, e: ExprV, n: Names, s: Store, w: World)
    requires
        reckoned(e),
        named_well(st),
        scoped(st.names, n, s),
        holds_types(st, s),
        orderly(w),
        s_expr(env, cx, st, e) is Ok,
    ensures
        ({
            let (c, after) = s_expr(env, cx, st, e)->Ok_0;
            &&& after == st
            &&& eval(c, s, w) == worth(e, n, w)
            &&& of_type(eval(c, s, w), c.ty)
        }),
    decreases expr_size(e),
{
    let m = expr_size(e);
    let ev = knot(env, m);
    reveal(s_expr);
    reveal(r_expr);
    expr_shrinks(e);
    match e.kind {
        KindV::Var(x) => {
            reveal(s_var);
            local_is(st, e, ""@, n, s);
            let id = local_of(st, e, ""@)->Ok_0;
            assert(of_type((s.vars)(id), st.locals[id as int].ty));
        },
        KindV::Binary(op, a, b) => {
            reveal(s_binary);
            knot_expr(env, m, cx, st, *a);
            typed_is_worth(env, cx, st, *a, n, s, w);
            knot_expr(env, m, cx, st, *b);
            typed_is_worth(env, cx, st, *b, n, s, w);
            let (ca, cb) = ((s_expr(env, cx, st, *a)->Ok_0).0, (s_expr(env, cx, st, *b)->Ok_0).0);
            operated(op, eval(ca, s, w), eval(cb, s, w), ca.ty, w, e.line, e.col);
        },
        KindV::Unary(op, a) => {
            reveal(s_unary);
            knot_expr(env, m, cx, st, *a);
            typed_is_worth(env, cx, st, *a, n, s, w);
            let ca = (s_expr(env, cx, st, *a)->Ok_0).0;
            match eval(ca, s, w) {
                Val::Other(k) => {
                    assert((w.unary)(UnOp::Neg, Val::Other(k)) is Other);
                },
                _ => {},
            }
        },
        KindV::Index(a, i) => {
            reveal(s_index);
            local_is(st, *a, "the array being indexed"@, n, s);
            let id = local_of(st, *a, "the array being indexed"@)->Ok_0;
            knot_expr(env, m, cx, st, *i);
            typed_is_worth(env, cx, st, *i, n, s, w);
            let ci = (s_expr(env, cx, st, *i)->Ok_0).0;
            let k = number(eval(ci, s, w));
            assert((n.cell)(a.kind->Var_0, k) == (s.cells)(id, k));
            assert(st.locals[id as int].ty.s_elem() is Some);
            assert(of_type((s.cells)((id as int) as usize, k), st.locals[id as int].ty.s_elem()->0));
        },
        KindV::MethodCall(a, f, args) => {
            reveal(s_len);
            local_is(st, *a, "the receiver of `.len()`"@, n, s);
        },
        KindV::Call(f, args) => {
            reveal(s_min_max);
            exprs_shrink(args, 0);
            exprs_shrink(args, 1);
            knot_expr(env, m, cx, st, args[0]);
            typed_is_worth(env, cx, st, args[0], n, s, w);
            knot_expr(env, m, cx, st, args[1]);
            typed_is_worth(env, cx, st, args[1], n, s, w);
        },
        _ => {},
    }
}

// ---- statements ----

/// The name and the index of what an assignment assigns to: a variable, or an element of a named array.
pub open spec fn assignable(target: ExprV) -> bool {
    match target.kind {
        KindV::Var(_) => true,
        KindV::Index(a, i) => a.kind is Var && reckoned(*i),
        _ => false,
    }
}

/// The store after an assignment to the `k`-th name: the local, or the element at the index's worth, holds
/// the value's worth, or what the operation makes of it and of what was there.
pub open spec fn assigned(
    st: St,
    k: int,
    target: ExprV,
    op: Option<BinOp>,
    value: ExprV,
    n: Names,
    s: Store,
    w: World,
) -> Store {
    let (x, id) = st.names[k];
    match target.kind {
        KindV::Index(_, i) => {
            let at = number(worth(*i, n, w));
            with_cell(s, id, at, stored(op, (n.cell)(x, at), worth(value, n, w), w))
        },
        _ => with_var(s, id, stored(op, (n.value)(x), worth(value, n, w), w)),
    }
}

/// The name that an assignment assigns to.
pub open spec fn target_name(target: ExprV) -> Seq<char> {
    match target.kind {
        KindV::Var(x) => x,
        KindV::Index(a, _) => match a.kind {
            KindV::Var(x) => x,
            _ => Seq::empty(),
        },
        _ => Seq::empty(),
    }
}

/// A typed assignment assigns to the innermost local of the name, and every local and element still holds
/// what its type promises. Only what may be written is: a mutable local, an element of a mutable array or
/// of a mutable view.
pub proof fn assignment_assigns(
    env: Env,
    m: nat,
    cx: Place,
    st: St,
    target: ExprV,
    op: Option<BinOp>,
    value: ExprV,
    line: u32,
    col: u32,
    n: Names,
    s: Store,
    w: World,
)
    requires
        expr_size(target) < m,
        expr_size(value) < m,
        assignable(target),
        reckoned(value),
        op is Some ==> (op->0).arith(),
        named_well(st),
        scoped(st.names, n, s),
        holds_types(st, s),
        orderly(w),
        s_assign(env, knot(env, m), cx, st, StmtV::Assign { target, op, value, line, col }) is Ok,
    ensures
        !cx.in_closure,
        ({
            let (t, after) = s_assign(env, knot(env, m), cx, st, StmtV::Assign { target, op, value, line, col })->Ok_0;
            &&& after == st
            &&& holds_types(st, run(t, s, w))
            &&& exists|k: int| #[trigger]
                innermost(st.names, k) && st.names[k].0 == target_name(target) && run(t, s, w) == assigned(
                    st,
                    k,
                    target,
                    op,
                    value,
                    n,
                    s,
                    w,
                ) && match st.locals[st.names[k].1 as int].ty {
                    Ty::Slice(_, mutable, _) => mutable,
                    _ => st.locals[st.names[k].1 as int].mutable,
                }
        }),
{
    reveal(s_assign);
    reveal(s_target);
    reveal(s_index_target);
    let ev = knot(env, m);
    knot_expr(env, m, cx, st, value);
    typed_is_worth(env, cx, st, value, n, s, w);
    let c = (s_expr(env, cx, st, value)->Ok_0).0;
    let v = worth(value, n, w);
    let x = target_name(target);
    lookup_innermost(st.names, x);
    let (t, after) = s_assign(env, ev, cx, st, StmtV::Assign { target, op, value, line, col })->Ok_0;
    let id = lookup(st.names, x)->0;
    let k = choose|k: int| #[trigger] innermost(st.names, k) && st.names[k] == (x, id);
    assert(st.names[k].1 < st.locals.len());
    let l = st.locals[id as int];
    let r = run(t, s, w);
    match target.kind {
        KindV::Index(a, i) => {
            expr_shrinks(target);
            knot_expr(env, m, cx, st, *i);
            typed_is_worth(env, cx, st, *i, n, s, w);
            local_is(st, *a, "the array being indexed"@, n, s);
            let at = number(worth(*i, n, w));
            let elem = l.ty.s_elem()->0;
            assert((n.cell)(x, at) == (s.cells)(id, at));
            assert(of_type((s.cells)((id as int) as usize, at), elem));
            let y = stored(op, (s.cells)(id, at), v, w);
            if op is Some {
                operated(op->0, (s.cells)(id, at), v, elem, w, 0, 0);
            }
            assert(of_type(y, elem));
            assert(r == with_cell(s, id, at, y));
            assert(holds_types(st, r)) by {
                assert forall|j: int, q: int|
                    #![trigger st.locals[j], (r.cells)(j as usize, q)]
                    0 <= j < st.locals.len() implies match st.locals[j].ty.s_elem() {
                    Some(t) => of_type((r.cells)(j as usize, q), t),
                    None => true,
                } by {
                    assert(match st.locals[j].ty.s_elem() {
                        Some(t) => of_type((s.cells)(j as usize, q), t),
                        None => true,
                    });
                }
                assert forall|j: int| 0 <= j < st.locals.len() implies of_type(
                    (r.vars)(j as usize),
                    (#[trigger] st.locals[j]).ty,
                ) by {
                    assert(of_type((s.vars)(j as usize), st.locals[j].ty));
                }
            }
        },
        _ => {
            assert(of_type((s.vars)((id as int) as usize), st.locals[id as int].ty));
            let y = stored(op, (s.vars)(id), v, w);
            if op is Some {
                operated(op->0, (s.vars)(id), v, l.ty, w, 0, 0);
            }
            assert(of_type(y, l.ty));
            assert(r == with_var(s, id, y));
            assert(holds_types(st, r)) by {
                assert forall|j: int, q: int|
                    #![trigger st.locals[j], (r.cells)(j as usize, q)]
                    0 <= j < st.locals.len() implies match st.locals[j].ty.s_elem() {
                    Some(t) => of_type((r.cells)(j as usize, q), t),
                    None => true,
                } by {
                    assert((r.cells)(j as usize, q) == (s.cells)(j as usize, q));
                }
                assert forall|j: int| 0 <= j < st.locals.len() implies of_type(
                    (r.vars)(j as usize),
                    (#[trigger] st.locals[j]).ty,
                ) by {
                    assert(of_type((s.vars)(j as usize), st.locals[j].ty));
                }
            }
        },
    }
}

/// A typed `for` runs its body for every integer from the worth of its start up to below that of its end,
/// in a new local.
pub proof fn for_runs(
    env: Env,
    m: nat,
    cx: Place,
    st: St,
    var: Seq<char>,
    start: ExprV,
    end: ExprV,
    body: BlockV,
    line: u32,
    col: u32,
    n: Names,
    s: Store,
    w: World,
)
    requires
        expr_size(start) < m,
        expr_size(end) < m,
        reckoned(start),
        reckoned(end),
        named_well(st),
        scoped(st.names, n, s),
        holds_types(st, s),
        orderly(w),
        s_for(env, knot(env, m), cx, st, StmtV::For { var, start, end, body, line, col }) is Ok,
    ensures
        worth(start, n, w) is Int,
        worth(end, n, w) is Int,
        ({
            let (t, after) = s_for(env, knot(env, m), cx, st, StmtV::For { var, start, end, body, line, col })->Ok_0;
            match t {
                ir::StmtV::For { var: id, start: a, end: b, body: inner } => {
                    &&& id == st.locals.len() as usize
                    &&& inner.tail is None ==> run(t, s, w) == run_range(
                        inner.stmts,
                        id,
                        worth(start, n, w)->Int_0,
                        worth(end, n, w)->Int_0,
                        s,
                        w,
                    )
                },
                _ => false,
            }
        }),
{
    reveal(s_for);
    knot_expr(env, m, cx, st, start);
    typed_is_worth(env, cx, st, start, n, s, w);
    knot_expr(env, m, cx, st, end);
    typed_is_worth(env, cx, st, end, n, s, w);
}

// ---- views ----

/// The `i`-th argument is a view of the array that `r` is, to be written through or not.
pub open spec fn views_root(st: St, args: Seq<ExprV>, i: int, r: usize, mutable: bool) -> bool {
    match view_of(st, args[i]) {
        Some((id, m)) => st.roots[id as int] == r && m == mutable,
        None => false,
    }
}

/// Two of the first `k` arguments are views of one array, and one of them writes.
pub open spec fn overlapping(st: St, args: Seq<ExprV>, k: int) -> bool {
    exists|i: int, j: int, r: usize, a: bool, b: bool|
        0 <= i < j < k && (a || b) && #[trigger] views_root(st, args, i, r, a) && #[trigger] views_root(st, args, j, r, b)
}

/// The views among the first `k` arguments.
spec fn seen(st: St, args: Seq<ExprV>, k: int, used: Seq<RootUse>) -> bool {
    &&& forall|u: int|
        0 <= u < used.len() ==> 0 <= (#[trigger] used[u]).arg < k && views_root(
            st,
            args,
            used[u].arg,
            used[u].root,
            used[u].mutable,
        )
    &&& forall|i: int, r: usize, m: bool|
        0 <= i < k && #[trigger] views_root(st, args, i, r, m) ==> exists|u: int|
            0 <= u < used.len() && (#[trigger] used[u]).arg == i && used[u].root == r && used[u].mutable == m
}

proof fn clash_is(used: Seq<RootUse>, root: usize, mutable: bool, from: int)
    requires
        0 <= from,
    ensures
        clash(used, root, mutable, from) is Some <==> exists|u: int|
            from <= u < used.len() && (#[trigger] used[u]).root == root && (mutable || used[u].mutable),
    decreases used.len() - from,
{
    if from < used.len() {
        clash_is(used, root, mutable, from + 1);
        if clash(used, root, mutable, from) is Some && !(used[from].root == root && (mutable || used[from].mutable)) {
            let u = choose|u: int|
                from + 1 <= u < used.len() && (#[trigger] used[u]).root == root && (mutable || used[u].mutable);
            assert(from <= u < used.len());
        }
    }
}

proof fn overlap_from(st: St, args: Seq<ExprV>, k: int, used: Seq<RootUse>)
    requires
        0 <= k <= args.len(),
        seen(st, args, k, used),
        !overlapping(st, args, k),
    ensures
        check_overlap(st, args, k, used) is Ok <==> !overlapping(st, args, args.len() as int),
    decreases args.len() - k,
{
    reveal(check_overlap);
    if k < args.len() {
        match view_of(st, args[k]) {
            None => {
                assert(seen(st, args, k + 1, used));
                assert(!overlapping(st, args, k + 1));
                overlap_from(st, args, k + 1, used);
            },
            Some((id, mutable)) => {
                let r = st.roots[id as int];
                clash_is(used, r, mutable, 0);
                assert(views_root(st, args, k, r, mutable));
                if clash(used, r, mutable, 0) is Some {
                    let u = choose|u: int|
                        0 <= u < used.len() && (#[trigger] used[u]).root == r && (mutable || used[u].mutable);
                    assert(views_root(st, args, used[u].arg, r, used[u].mutable));
                    assert(overlapping(st, args, args.len() as int));
                } else {
                    let more = used.push(RootUse { root: r, mutable, arg: k });
                    assert(seen(st, args, k + 1, more)) by {
                        assert forall|i: int, s: usize, m: bool|
                            0 <= i < k + 1 && #[trigger] views_root(st, args, i, s, m) implies exists|u: int|
                            0 <= u < more.len() && (#[trigger] more[u]).arg == i && more[u].root == s && more[u].mutable == m by {
                            if i < k {
                                let u = choose|u: int|
                                    0 <= u < used.len() && (#[trigger] used[u]).arg == i && used[u].root == s && used[u].mutable
                                        == m;
                                assert(more[u] == used[u]);
                            } else {
                                assert(more[used.len() as int].arg == i);
                            }
                        }
                        assert forall|u: int| 0 <= u < more.len() implies 0 <= (#[trigger] more[u]).arg < k + 1 && views_root(
                            st,
                            args,
                            more[u].arg,
                            more[u].root,
                            more[u].mutable,
                        ) by {
                            if u < used.len() {
                                assert(more[u] == used[u]);
                            }
                        }
                    }
                    assert(!overlapping(st, args, k + 1)) by {
                        if overlapping(st, args, k + 1) {
                            let (i, j, s, a, b) = choose|i: int, j: int, s: usize, a: bool, b: bool|
                                0 <= i < j < k + 1 && (a || b) && #[trigger] views_root(st, args, i, s, a)
                                    && #[trigger] views_root(st, args, j, s, b);
                            if j < k {
                                assert(overlapping(st, args, k));
                            } else {
                                let u = choose|u: int|
                                    0 <= u < used.len() && (#[trigger] used[u]).arg == i && used[u].root == s && used[u].mutable
                                        == a;
                                assert(used[u].root == r);
                            }
                        }
                    }
                    overlap_from(st, args, k + 1, more);
                }
            },
        }
    }
}

/// Arguments are accepted together exactly where no two of them are views of one array of which one
/// writes.
pub proof fn accepted_apart(st: St, args: Seq<ExprV>)
    ensures
        check_overlap(st, args, 0, Seq::empty()) is Ok <==> !overlapping(st, args, args.len() as int),
{
    overlap_from(st, args, 0, Seq::empty());
}

// ---- moves ----

/// What was moved on either side of a branch is moved after it, and nothing else; a move marks one local.
pub proof fn moved_on_either(a: Seq<Option<u32>>, b: Seq<Option<u32>>, id: int, at: int, line: u32)
    requires
        0 <= at,
    ensures
        moved_at(merge_moved(a, b), id) is Some <==> moved_at(a, id) is Some || moved_at(b, id) is Some,
        moved_at(mark_moved(a, at, line), id) is Some <==> id == at || moved_at(a, id) is Some,
{
}

} // verus!
