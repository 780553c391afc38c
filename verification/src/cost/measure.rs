//! The measured tier. For a function the calculus cannot bound, build a driver that calls it on
//! inputs of size `n`, run it over a sweep of `n` under the hardware counters, and fit
//! `~n^k` to instructions (work) and L2 refills × line (moves). What is measured is written
//! into `costs.lock` marked `measured`, with the range it was measured on.

use vstd::prelude::*;
use crate::ast::{views, BinOp};
use crate::cost::analyze::{find_func, func_place};
use crate::cost::machine::Machine;
use crate::cost::rat::{ratio, Rat};
use crate::cost::scope::local_of;
use crate::cost::wide::{n_plus, n_reaches, n_times, NumV, Number};
use crate::ir::{
    expr_parts, lvalue_parts, stmt_parts, Expr, ExprKind, ExprV, Func, FuncV, KindV, LValue, LValueV, Local, LocalV,
    Module, ModuleV, Size, Stmt, StmtV, Ty,
};
use crate::irbuild::{
    add_local, alone, make_block, make_cast, make_for, make_int, make_local, make_store, v_block, v_cast, v_expr,
    v_for, v_int, v_local, v_store,
};
use crate::lex::slice_of;
use crate::lines::{
    as_lines, contains_text, find_word, first_word, has_part, in_order, lines_of, sort_texts, split_lines,
    write_lines,
};
use crate::text::{cat2, cat3, cat7, chars_of, copy_text, int_text, same_text, show_i64, text_of, texts};
use crate::words::{
    begins_with, count_value, plain_number, has_start, int_value, lists, pieces_from, split, whole_number,
};

verus! {

// ---- shapes ----

/// How each parameter's size follows `n`: `n`, `n*n`, `n*4`, `n/2`, or a constant.
#[derive(Debug, Clone, Copy, PartialEq, Eq, Structural)]
pub enum Shape {
    N,
    NTimesN,
    NTimes(i64),
    NDiv(i64),
    Const(i64),
}

pub open spec fn without_spaces(s: Seq<char>) -> Seq<char>
    decreases s.len(),
{
    if s.len() == 0 {
        s
    } else if s.last() == ' ' {
        without_spaces(s.drop_last())
    } else {
        without_spaces(s.drop_last()).push(s.last())
    }
}

pub open spec fn times_n(x: Option<int>) -> Option<Shape> {
    match x {
        Some(k) => Some(Shape::NTimes(k as i64)),
        None => None,
    }
}

/// The shape that a text names.
pub open spec fn shape_of(text: Seq<char>) -> Option<Shape> {
    let s = without_spaces(text);
    if s == "n"@ {
        Some(Shape::N)
    } else if s == "n*n"@ || s == "n^2"@ || s == "n²"@ {
        Some(Shape::NTimesN)
    } else if begins_with(s, "n*"@) {
        times_n(int_value(s.skip(2)))
    } else if crate::cost::scan::ends_with(s, "*n"@) {
        times_n(int_value(s.take(s.len() - 2)))
    } else if begins_with(s, "n/"@) {
        match int_value(s.skip(2)) {
            Some(k) => Some(Shape::NDiv(k as i64)),
            None => None,
        }
    } else {
        match int_value(s) {
            Some(k) => Some(Shape::Const(k as i64)),
            None => None,
        }
    }
}

/// The quotient without its fraction.
pub open spec fn whole_quotient(n: int, k: int) -> int {
    let q = (if n < 0 { -n } else { n }) / (if k < 0 { -k } else { k });
    if (n < 0) != (k < 0) {
        -q
    } else {
        q
    }
}

impl Shape {
    /// The size at `n`.
    pub open spec fn size_at(self, n: int) -> int {
        match self {
            Shape::N => n,
            Shape::NTimesN => n * n,
            Shape::NTimes(k) => n * k,
            Shape::NDiv(k) => whole_quotient(n, k as int),
            Shape::Const(c) => c as int,
        }
    }

    /// The size at `n` is a number of the machine.
    pub open spec fn fits(self, n: int) -> bool {
        (self is NDiv ==> self->NDiv_0 != 0) && i64::MIN <= self.size_at(n) <= i64::MAX
    }

    pub fn parse(s: &str) -> (r: Option<Shape>)
        ensures
            r == shape_of(s@),
    {
        let c = squeeze(&chars_of(s));
        let t = text_of(&c);
        if t == "n".to_owned() {
            return Some(Shape::N);
        }
        if t == "n*n".to_owned() || t == "n^2".to_owned() || t == "n²".to_owned() {
            return Some(Shape::NTimesN);
        }
        proof {
            reveal_strlit("n*");
            reveal_strlit("*n");
            reveal_strlit("n/");
        }
        if has_start(&t, "n*") {
            let k = slice_of(&c, 2, c.len());
            assert(k@ =~= c@.skip(2));
            return match whole_number(&k) {
                Some(v) => Some(Shape::NTimes(v)),
                None => None,
            };
        }
        if crate::cost::scan::has_end(&c, "*n") {
            let k = slice_of(&c, 0, c.len() - 2);
            assert(k@ =~= c@.take(c@.len() - 2));
            return match whole_number(&k) {
                Some(v) => Some(Shape::NTimes(v)),
                None => None,
            };
        }
        if has_start(&t, "n/") {
            let k = slice_of(&c, 2, c.len());
            assert(k@ =~= c@.skip(2));
            return match whole_number(&k) {
                Some(v) => Some(Shape::NDiv(v)),
                None => None,
            };
        }
        match whole_number(&c) {
            Some(v) => Some(Shape::Const(v)),
            None => None,
        }
    }

    pub fn at(&self, n: i64) -> (r: i64)
        requires
            self.fits(n as int),
        ensures
            r == self.size_at(n as int),
    {
        match self {
            Shape::N => n,
            Shape::NTimesN => n * n,
            Shape::NTimes(k) => n * *k,
            Shape::NDiv(k) => {
                let a: u64 = if n < 0 {
                    (-(n as i128)) as u64
                } else {
                    n as u64
                };
                let b: u64 = if *k < 0 {
                    (-(*k as i128)) as u64
                } else {
                    *k as u64
                };
                let q: i128 = (a / b) as i128;
                if (n < 0) != (*k < 0) {
                    (-q) as i64
                } else {
                    q as i64
                }
            },
            Shape::Const(c) => *c,
        }
    }
}

fn squeeze(s: &Vec<char>) -> (r: Vec<char>)
    ensures
        r@ == without_spaces(s@),
{
    let mut r: Vec<char> = Vec::new();
    let mut i: usize = 0;
    assert(s@.take(0) =~= Seq::empty());
    while i < s.len()
        invariant
            i <= s@.len(),
            r@ == without_spaces(s@.take(i as int)),
        decreases s@.len() - i,
    {
        assert(s@.take(i + 1).drop_last() =~= s@.take(i as int));
        if s[i] != ' ' {
            r.push(s[i]);
        }
        i += 1;
    }
    assert(s@.take(i as int) =~= s@);
    r
}

// ---- the driver ----

pub struct SetupV {
    pub locals: Seq<LocalV>,
    pub stmts: Seq<StmtV>,
    pub args: Seq<ExprV>,
}

pub open spec fn v_none(elem: Ty, line: u32) -> ExprV {
    v_expr(
        match elem {
            Ty::F64 => KindV::Float("0.0"@),
            Ty::Bool => KindV::Bool(false),
            Ty::U8 => KindV::Byte(0),
            _ => KindV::Int(0),
        },
        elem,
        line,
    )
}

pub open spec fn v_rem(i: ExprV, k: i64, line: u32) -> ExprV {
    v_expr(KindV::Binary(BinOp::Rem, Box::new(i), Box::new(v_int(k, line))), Ty::I64, line)
}

/// A pattern so values are not all equal: i, i as f64, i % 251, i % 2 == 0.
pub open spec fn v_pattern(elem: Ty, i: ExprV, line: u32) -> ExprV {
    match elem {
        Ty::I64 => i,
        Ty::F64 => v_cast(i, Ty::F64, line),
        Ty::U8 => v_cast(v_rem(i, 251, line), Ty::U8, line),
        _ => v_expr(
            KindV::Binary(BinOp::Eq, Box::new(v_rem(i, 2, line)), Box::new(v_int(0, line))),
            Ty::Bool,
            line,
        ),
    }
}

/// An array of `size` elements made and filled, and a view of it as an argument.
pub open spec fn with_array(s: SetupV, name: Seq<char>, elem: Ty, mutable: bool, size: i64, line: u32) -> SetupV {
    let arr = s.locals.len() as usize;
    let i = (s.locals.len() + 1) as usize;
    let iv = v_local(i, Ty::I64, line);
    SetupV {
        locals: s.locals.push(
            LocalV { name, ty: Ty::Array(Box::new(elem), Size::Const(size)), mutable: true },
        ).push(LocalV { name: "i"@, ty: Ty::I64, mutable: false }),
        stmts: s.stmts.push(StmtV::LetRepeat(arr, v_none(elem, line), v_int(size, line))).push(
            v_for(i, v_int(0, line), v_int(size, line), seq![v_store(arr, iv, line, v_pattern(elem, iv, line))]),
        ),
        args: s.args.push(
            v_expr(KindV::Ref(arr, mutable), Ty::Slice(Box::new(elem), mutable, Size::Const(size)), line),
        ),
    }
}

pub open spec fn with_arg(s: SetupV, e: ExprV) -> SetupV {
    SetupV { args: s.args.push(e), ..s }
}

pub open spec fn with_param(s: SetupV, l: LocalV, size: i64, line: u32) -> SetupV {
    match l.ty {
        Ty::Slice(elem, mutable, _) => with_array(s, l.name, *elem, mutable, size, line),
        Ty::I64 => with_arg(s, v_int(size, line)),
        Ty::F64 => with_arg(s, v_expr(KindV::Float("1.0"@), Ty::F64, line)),
        Ty::U8 => with_arg(s, v_expr(KindV::Byte(1), Ty::U8, line)),
        Ty::Bool => with_arg(s, v_expr(KindV::Bool(true), Ty::Bool, line)),
        _ => s,
    }
}

/// The size of the `i`-th parameter: as its shape says, else `n`.
pub open spec fn param_size(shapes: Seq<Shape>, i: int, n: i64) -> i64 {
    if i < shapes.len() {
        shapes[i].size_at(n as int) as i64
    } else {
        n
    }
}

/// The inputs of the first `k` parameters.
pub open spec fn setup(f: FuncV, shapes: Seq<Shape>, n: i64, k: nat) -> SetupV
    decreases k,
{
    if k == 0 {
        SetupV { locals: Seq::empty(), stmts: Seq::empty(), args: Seq::empty() }
    } else {
        with_param(
            setup(f, shapes, n, (k - 1) as nat),
            local_of(f, f.params[k - 1]),
            param_size(shapes, k - 1, n),
            f.line,
        )
    }
}

/// The call, or a constant of the return type in its place.
pub open spec fn v_called(f: FuncV, fid: usize, args: Seq<ExprV>, r: usize, with_call: bool) -> ExprV {
    if with_call {
        v_expr(KindV::Call(fid, args), f.ret, f.line)
    } else {
        v_expr(
            match f.ret {
                Ty::F64 => KindV::Float("1.0"@),
                Ty::Bool => KindV::Bool(true),
                Ty::U8 => KindV::Byte(1),
                Ty::Unit => KindV::Bool(true),
                _ => KindV::Local(r),
            },
            if f.ret is Unit {
                Ty::Bool
            } else {
                f.ret
            },
            f.line,
        )
    }
}

pub open spec fn v_bump(acc: usize, e: ExprV) -> StmtV {
    StmtV::Assign(LValueV::Var(acc), Some(BinOp::Add), e)
}

/// What collects the results: its type and start, and what each run does with the call.
pub struct TallyV {
    pub local: Option<LocalV>,
    pub before: Seq<StmtV>,
    pub body: Seq<StmtV>,
}

pub open spec fn tally(call: ExprV, acc: usize, line: u32) -> TallyV {
    match call.ty {
        Ty::F64 => TallyV {
            local: Some(LocalV { name: "acc"@, ty: Ty::F64, mutable: true }),
            before: seq![StmtV::Let(acc, v_expr(KindV::Float("0.0"@), Ty::F64, line))],
            body: seq![v_bump(acc, call)],
        },
        Ty::I64 => TallyV {
            local: Some(LocalV { name: "acc"@, ty: Ty::I64, mutable: true }),
            before: seq![StmtV::Let(acc, v_int(0, line))],
            body: seq![v_bump(acc, call)],
        },
        Ty::U8 => TallyV {
            local: Some(LocalV { name: "acc"@, ty: Ty::I64, mutable: true }),
            before: seq![StmtV::Let(acc, v_int(0, line))],
            body: seq![v_bump(acc, v_cast(call, Ty::I64, line))],
        },
        Ty::Bool => TallyV {
            local: Some(LocalV { name: "acc"@, ty: Ty::I64, mutable: true }),
            before: seq![StmtV::Let(acc, v_int(0, line))],
            body: seq![
                StmtV::Expr(
                    v_expr(
                        KindV::If(Box::new(call), v_block(seq![v_bump(acc, v_int(1, line))]), None),
                        Ty::Unit,
                        line,
                    ),
                ),
            ],
        },
        _ => TallyV { local: None, before: Seq::empty(), body: seq![StmtV::Expr(call)] },
    }
}

/// The first local of a name, from the `i`-th on.
pub open spec fn named_local(s: Seq<LocalV>, name: Seq<char>, i: nat) -> Option<nat>
    decreases s.len() - i,
{
    if i >= s.len() {
        None
    } else if s[i as int].name == name {
        Some(i)
    } else {
        named_local(s, name, i + 1)
    }
}

/// What is derived from the results is printed, so nothing is optimised away.
pub open spec fn v_printed(locals: Seq<LocalV>, line: u32) -> Seq<StmtV> {
    match named_local(locals, "acc"@, 0) {
        Some(acc) => seq![
            StmtV::Expr(
                v_expr(
                    KindV::Println(Box::new(v_local(acc as usize, locals[acc as int].ty, line))),
                    Ty::Unit,
                    line,
                ),
            ),
        ],
        None => Seq::empty(),
    }
}

/// The `main` of the driver.
#[verifier::opaque]
pub open spec fn driver_main(f: FuncV, fid: usize, n: i64, repeat: i64, shapes: Seq<Shape>, with_call: bool) -> FuncV {
    let s = setup(f, shapes, n, f.params.len());
    let r = s.locals.len() as usize;
    let acc = (s.locals.len() + 1) as usize;
    let t = tally(v_called(f, fid, s.args, r, with_call), acc, f.line);
    let counted = s.locals.push(LocalV { name: "r"@, ty: Ty::I64, mutable: false });
    let locals = match t.local {
        Some(l) => counted.push(l),
        None => counted,
    };
    let run = v_for(r, v_int(0, f.line), v_int(repeat, f.line), t.body);
    FuncV {
        name: "main"@,
        params: Seq::empty(),
        ret: Ty::Unit,
        locals,
        sizes: Seq::empty(),
        body: Some(v_block((s.stmts + t.before).push(run) + v_printed(locals, f.line))),
        uses: Seq::empty(),
        asserts: Seq::empty(),
        line: f.line,
    }
}

/// The module with its `main` replaced, or one added.
pub open spec fn with_main(m: ModuleV, main: FuncV) -> ModuleV {
    ModuleV {
        funcs: match func_place(m.funcs, "main"@, 0) {
            Some(i) => m.funcs.update(i as int, main),
            None => m.funcs.push(main),
        },
        ..m
    }
}

/// A copy of the module whose `main` calls a function `repeat` times on inputs shaped by
/// `shapes` (by parameter index) at size `n`.
pub open spec fn driven(m: ModuleV, fid: usize, n: i64, repeat: i64, shapes: Seq<Shape>, with_call: bool) -> ModuleV {
    with_main(m, driver_main(m.funcs[fid as int], fid, n, repeat, shapes, with_call))
}

// ---- the counters ----

/// What a line counts of an event.
pub open spec fn line_count(l: Seq<char>, event: Seq<char>) -> Option<nat> {
    let p = pieces_from(l, ',', 0);
    if p.len() > 3 && has_part(p[2], event, 0) {
        count_value(p[0])
    } else {
        None
    }
}

/// The summed count of the first `n` lines; the sum stops at the largest number.
pub open spec fn counted(lines: Seq<Seq<char>>, event: Seq<char>, n: nat) -> Option<nat>
    decreases n,
{
    if n == 0 {
        None
    } else {
        match (counted(lines, event, (n - 1) as nat), line_count(lines[n - 1], event)) {
            (Some(t), Some(v)) => Some(
                if t + v > u64::MAX {
                    u64::MAX as nat
                } else {
                    t + v
                },
            ),
            (None, v) => v,
            (t, None) => t,
        }
    }
}

// ---- the lockfile ----

/// The line replaced where it is about the function.
pub open spec fn line_replaced(l: Seq<char>, name: Seq<char>, new: Seq<char>) -> Seq<char> {
    if first_word(l) == Some(name) {
        new
    } else {
        l
    }
}

pub open spec fn is_about(lines: Seq<Seq<char>>, name: Seq<char>) -> bool {
    exists|i: int| 0 <= i < lines.len() && first_word(#[trigger] lines[i]) == Some(name)
}

/// The lines with a function's replaced, or added.
pub open spec fn lines_replaced(lines: Seq<Seq<char>>, name: Seq<char>, new: Seq<char>) -> Seq<Seq<char>> {
    let s = Seq::new(lines.len(), |i: int| line_replaced(lines[i], name, new));
    if is_about(lines, name) {
        s
    } else {
        s.push(new)
    }
}

/// The lines that are headers, or those that are not.
pub open spec fn headers(s: Seq<Seq<char>>, yes: bool) -> Seq<Seq<char>>
    decreases s.len(),
{
    if s.len() == 0 {
        s
    } else if begins_with(s.last(), "#"@) == yes {
        headers(s.drop_last(), yes).push(s.last())
    } else {
        headers(s.drop_last(), yes)
    }
}

/// A lockfile's text with a function's line replaced, or added: the headers, then the lines in
/// order.
pub open spec fn lock_updated(lock: Seq<char>, name: Seq<char>, new: Seq<char>) -> Seq<char> {
    let s = lines_replaced(lines_of(lock), name, new);
    as_lines(headers(s, true) + in_order(headers(s, false)))
}

// ---- the computation ----

fn make(kind: ExprKind, ty: Ty, line: u32) -> (r: Expr)
    ensures
        r@ == v_expr(crate::ir::kind_view(kind), ty, line),
{
    crate::irbuild::make_expr(kind, ty, line)
}

fn make_none(elem: &Ty, line: u32) -> (r: Expr)
    ensures
        r@ == v_none(*elem, line),
{
    let kind = match elem {
        Ty::F64 => ExprKind::Float("0.0".to_owned()),
        Ty::Bool => ExprKind::Bool(false),
        Ty::U8 => ExprKind::Byte(0),
        _ => ExprKind::Int(0),
    };
    make(kind, elem.copy(), line)
}

fn make_rem(i: Expr, k: i64, line: u32) -> (r: Expr)
    ensures
        r@ == v_rem(i@, k, line),
{
    let r = Expr {
        kind: ExprKind::Binary(BinOp::Rem, Box::new(i), Box::new(make_int(k, line))),
        ty: Ty::I64,
        line,
    };
    proof {
        expr_parts(r);
    }
    r
}

fn make_pattern(elem: &Ty, i: Expr, line: u32) -> (r: Expr)
    ensures
        r@ == v_pattern(*elem, i@, line),
{
    match elem {
        Ty::I64 => i,
        Ty::F64 => make_cast(i, Ty::F64, line),
        Ty::U8 => make_cast(make_rem(i, 251, line), Ty::U8, line),
        _ => {
            let r = Expr {
                kind: ExprKind::Binary(BinOp::Eq, Box::new(make_rem(i, 2, line)), Box::new(make_int(0, line))),
                ty: Ty::Bool,
                line,
            };
            proof {
                expr_parts(r);
            }
            r
        },
    }
}

struct Setup {
    locals: Vec<Local>,
    stmts: Vec<Stmt>,
    args: Vec<Expr>,
}

impl Setup {
    spec fn v(self) -> SetupV {
        SetupV { locals: views(self.locals@), stmts: views(self.stmts@), args: views(self.args@) }
    }

    fn push_arg(&mut self, e: Expr)
        ensures
            final(self).v() == with_arg(old(self).v(), e@),
    {
        assert(views(self.args@.push(e)) =~= views(self.args@).push(e@));
        self.args.push(e);
    }

    fn push_stmt(&mut self, s: Stmt)
        ensures
            final(self).v() == (SetupV { stmts: old(self).v().stmts.push(s@), ..old(self).v() }),
    {
        assert(views(self.stmts@.push(s)) =~= views(self.stmts@).push(s@));
        self.stmts.push(s);
    }

    fn array(&mut self, name: &String, elem: &Ty, mutable: bool, size: i64, line: u32)
        ensures
            final(self).v() == with_array(old(self).v(), name@, *elem, mutable, size, line),
    {
        let arr = add_local(&mut self.locals, name, Ty::Array(Box::new(elem.copy()), Size::Const(size)), true);
        let i = add_local(&mut self.locals, "i", Ty::I64, false);
        let fill = Stmt::LetRepeat(arr, make_none(elem, line), make_int(size, line));
        proof {
            stmt_parts(fill);
        }
        self.push_stmt(fill);
        let value = make_pattern(elem, make_local(i, Ty::I64, line), line);
        let store = make_store(arr, make_local(i, Ty::I64, line), line, value);
        self.push_stmt(make_for(i, make_int(0, line), make_int(size, line), alone(store)));
        let view = make(
            ExprKind::Ref(arr, mutable),
            Ty::Slice(Box::new(elem.copy()), mutable, Size::Const(size)),
            line,
        );
        self.push_arg(view);
    }

    fn param(&mut self, l: &Local, size: i64, line: u32)
        ensures
            final(self).v() == with_param(old(self).v(), l@, size, line),
    {
        match &l.ty {
            Ty::Slice(elem, mutable, _) => {
                self.array(&l.name, elem, *mutable, size, line);
            },
            Ty::I64 => {
                self.push_arg(make_int(size, line));
            },
            Ty::F64 => {
                self.push_arg(make(ExprKind::Float("1.0".to_owned()), Ty::F64, line));
            },
            Ty::U8 => {
                self.push_arg(make(ExprKind::Byte(1), Ty::U8, line));
            },
            Ty::Bool => {
                self.push_arg(make(ExprKind::Bool(true), Ty::Bool, line));
            },
            _ => {},
        }
    }
}

#[verifier::loop_isolation(false)]
fn set_up(f: &Func, shapes: &[Shape], n: i64) -> (r: Setup)
    requires
        forall|i: int| 0 <= i < shapes@.len() ==> (#[trigger] shapes@[i]).fits(n as int),
    ensures
        r.v() == setup(f@, shapes@, n, f@.params.len()),
{
    let mut s = Setup { locals: Vec::new(), stmts: Vec::new(), args: Vec::new() };
    proof {
        assert(s.v().locals =~= Seq::empty());
        assert(s.v().stmts =~= Seq::empty());
        assert(s.v().args =~= Seq::empty());
    }
    let mut k: usize = 0;
    while k < f.params.len()
        invariant
            k <= f.params@.len(),
            s.v() == setup(f@, shapes@, n, k as nat),
        decreases f.params@.len() - k,
    {
        let p = f.params[k];
        let size: i64 = if k < shapes.len() {
            assert(shapes@[k as int].fits(n as int));
            shapes[k].at(n)
        } else {
            n
        };
        if p < f.locals.len() {
            assert(f@.locals[p as int] == f.locals@[p as int]@);
            s.param(&f.locals[p], size, f.line);
        }
        k += 1;
    }
    s
}

fn make_called(f: &Func, fid: usize, args: Vec<Expr>, r: usize, with_call: bool) -> (e: Expr)
    ensures
        e@ == v_called(f@, fid, views(args@), r, with_call),
{
    if with_call {
        let e = Expr { kind: ExprKind::Call(fid, args), ty: f.ret.copy(), line: f.line };
        proof {
            expr_parts(e);
        }
        e
    } else {
        let kind = match &f.ret {
            Ty::F64 => ExprKind::Float("1.0".to_owned()),
            Ty::Bool => ExprKind::Bool(true),
            Ty::U8 => ExprKind::Byte(1),
            Ty::Unit => ExprKind::Bool(true),
            _ => ExprKind::Local(r),
        };
        let ty = if matches!(f.ret, Ty::Unit) {
            Ty::Bool
        } else {
            f.ret.copy()
        };
        make(kind, ty, f.line)
    }
}

fn make_bump(acc: usize, e: Expr) -> (r: Stmt)
    ensures
        r@ == v_bump(acc, e@),
{
    let lv = LValue::Var(acc);
    let r = Stmt::Assign(lv, Some(BinOp::Add), e);
    proof {
        lvalue_parts(lv);
        stmt_parts(r);
    }
    r
}

fn make_let(id: usize, e: Expr) -> (r: Vec<Stmt>)
    ensures
        views(r@) == seq![StmtV::Let(id, e@)],
{
    let s = Stmt::Let(id, e);
    proof {
        stmt_parts(s);
    }
    alone(s)
}

fn make_stmt(e: Expr) -> (r: Stmt)
    ensures
        r@ == StmtV::Expr(e@),
{
    let r = Stmt::Expr(e);
    proof {
        stmt_parts(r);
    }
    r
}

/// What collects the results: the type of its local, what starts it and what each run does.
struct Tally {
    ty: Option<Ty>,
    before: Vec<Stmt>,
    body: Vec<Stmt>,
}

fn make_tally(call: Expr, acc: usize, line: u32) -> (r: Tally)
    ensures
        ({
            let t = tally(call@, acc, line);
            &&& t.before == views(r.before@)
            &&& t.body == views(r.body@)
            &&& t.local == (match r.ty {
                Some(ty) => Some(LocalV { name: "acc"@, ty, mutable: true }),
                None => None,
            })
        }),
{
    proof {
        expr_parts(call);
    }
    if matches!(call.ty, Ty::F64) {
        let zero = make(ExprKind::Float("0.0".to_owned()), Ty::F64, line);
        Tally { ty: Some(Ty::F64), before: make_let(acc, zero), body: alone(make_bump(acc, call)) }
    } else if matches!(call.ty, Ty::I64) {
        Tally { ty: Some(Ty::I64), before: make_let(acc, make_int(0, line)), body: alone(make_bump(acc, call)) }
    } else if matches!(call.ty, Ty::U8) {
        let value = make_cast(call, Ty::I64, line);
        Tally { ty: Some(Ty::I64), before: make_let(acc, make_int(0, line)), body: alone(make_bump(acc, value)) }
    } else if matches!(call.ty, Ty::Bool) {
        let yes = make_block(alone(make_bump(acc, make_int(1, line))));
        let test = Expr { kind: ExprKind::If(Box::new(call), yes, None), ty: Ty::Unit, line };
        proof {
            expr_parts(test);
        }
        Tally { ty: Some(Ty::I64), before: make_let(acc, make_int(0, line)), body: alone(make_stmt(test)) }
    } else {
        let none: Vec<Stmt> = Vec::new();
        assert(views(none@) =~= Seq::empty());
        Tally { ty: None, before: none, body: alone(make_stmt(call)) }
    }
}

fn find_local(s: &Vec<Local>, name: &String) -> (r: Option<usize>)
    ensures
        match r {
            Some(i) => named_local(views(s@), name@, 0) == Some(i as nat) && i < s@.len(),
            None => named_local(views(s@), name@, 0) is None,
        },
{
    let ghost v = views(s@);
    let mut i: usize = 0;
    while i < s.len()
        invariant
            i <= s@.len(),
            v == views(s@),
            named_local(v, name@, 0) == named_local(v, name@, i as nat),
        decreases s@.len() - i,
    {
        assert(v[i as int] == s@[i as int]@);
        if s[i].name == *name {
            return Some(i);
        }
        i += 1;
    }
    None
}

fn make_printed(locals: &Vec<Local>, line: u32) -> (r: Vec<Stmt>)
    ensures
        views(r@) == v_printed(views(locals@), line),
{
    match find_local(locals, &"acc".to_owned()) {
        Some(acc) => {
            assert(views(locals@)[acc as int] == locals@[acc as int]@);
            let read = make_local(acc, locals[acc].ty.copy(), line);
            let shown = Expr { kind: ExprKind::Println(Box::new(read)), ty: Ty::Unit, line };
            proof {
                expr_parts(shown);
            }
            alone(make_stmt(shown))
        },
        None => {
            let none: Vec<Stmt> = Vec::new();
            assert(views(none@) =~= Seq::empty());
            none
        },
    }
}

fn make_main(f: &Func, fid: usize, n: i64, repeat: i64, shapes: &[Shape], with_call: bool) -> (r: Func)
    requires
        forall|i: int| 0 <= i < shapes@.len() ==> (#[trigger] shapes@[i]).fits(n as int),
    ensures
        r@ == driver_main(f@, fid, n, repeat, shapes@, with_call),
{
    proof {
        reveal(driver_main);
    }
    let line = f.line;
    let s = set_up(f, shapes, n);
    let ghost sv = s.v();
    let mut locals = s.locals;
    let mut stmts = s.stmts;
    let acc_id: usize;
    let r = add_local(&mut locals, "r", Ty::I64, false);
    acc_id = locals.len();
    let t = make_tally(make_called(f, fid, s.args, r, with_call), acc_id, line);
    let ghost tv = tally(v_called(f@, fid, sv.args, r, with_call), acc_id, line);
    match t.ty {
        Some(ty) => {
            let _ = add_local(&mut locals, "acc", ty, true);
        },
        None => {},
    }
    let mut before = t.before;
    stmts.append(&mut before);
    assert(views(stmts@) =~= sv.stmts + tv.before);
    let run = make_for(r, make_int(0, line), make_int(repeat, line), t.body);
    assert(views(stmts@.push(run)) =~= (sv.stmts + tv.before).push(run@));
    stmts.push(run);
    let mut printed = make_printed(&locals, line);
    let ghost pv = views(printed@);
    let ghost so_far = views(stmts@);
    stmts.append(&mut printed);
    assert(views(stmts@) =~= so_far + pv);
    let main = Func {
        name: "main".to_owned(),
        params: Vec::new(),
        ret: Ty::Unit,
        locals,
        sizes: Vec::new(),
        body: Some(make_block(stmts)),
        uses: Vec::new(),
        asserts: Vec::new(),
        line,
    };
    proof {
        assert(main@.params =~= Seq::empty());
        assert(main@.sizes =~= Seq::empty());
        assert(main@.uses =~= Seq::empty());
        assert(main@.asserts =~= Seq::empty());
    }
    main
}

fn driver_with(m: &Module, fid: usize, n: i64, repeat: i64, shapes: &[Shape], with_call: bool) -> (r: Module)
    requires
        fid < m@.funcs.len(),
        forall|i: int| 0 <= i < shapes@.len() ==> (#[trigger] shapes@[i]).fits(n as int),
    ensures
        r@ == driven(m@, fid, n, repeat, shapes@, with_call),
{
    assert(m@.funcs[fid as int] == m.funcs@[fid as int]@);
    let main = make_main(&m.funcs[fid], fid, n, repeat, shapes, with_call);
    let ghost mv = main@;
    let at = find_func(m, &"main".to_owned());
    let mut out = m.copy();
    match at {
        Some(i) => {
            out.funcs.set(i, main);
            assert(out@.funcs =~= m@.funcs.update(i as int, mv));
        },
        None => {
            out.funcs.push(main);
            assert(out@.funcs =~= m@.funcs.push(mv));
        },
    }
    out
}

/// A copy of the module whose `main` calls `fid` `repeat` times on inputs shaped by `shapes`
/// (by parameter index) at size `n`, and prints something derived from the results so nothing
/// is optimised away.
pub fn driver(m: &Module, fid: usize, n: i64, repeat: i64, shapes: &[Shape]) -> (r: Module)
    requires
        fid < m@.funcs.len(),
        forall|i: int| 0 <= i < shapes@.len() ==> (#[trigger] shapes@[i]).fits(n as int),
    ensures
        r@ == driven(m@, fid, n, repeat, shapes@, true),
{
    driver_with(m, fid, n, repeat, shapes, true)
}

/// The same driver with the call replaced by a constant of the return type: what the setup and
/// the loop cost on their own, to be subtracted.
pub fn baseline(m: &Module, fid: usize, n: i64, repeat: i64, shapes: &[Shape]) -> (r: Module)
    requires
        fid < m@.funcs.len(),
        forall|i: int| 0 <= i < shapes@.len() ==> (#[trigger] shapes@[i]).fits(n as int),
    ensures
        r@ == driven(m@, fid, n, repeat, shapes@, false),
{
    driver_with(m, fid, n, repeat, shapes, false)
}

fn count_in(l: &String, event: &str) -> (r: Option<u64>)
    ensures
        (match r {
            Some(v) => Some(v as nat),
            None => None,
        }) == line_count(l@, event@),
{
    let p = split(&chars_of(l), ',');
    let ghost pv = lists(p@);
    if p.len() > 3 {
        assert(pv[2] == p@[2]@);
        assert(pv[0] == p@[0]@);
        if contains_text(&p[2], event) {
            return plain_number(&p[0]);
        }
    }
    None
}

/// Parse `perf stat -x,` output: the summed count of every line naming `event`.
#[verifier::loop_isolation(false)]
pub fn perf_count(stderr: &str, event: &str) -> (r: Option<u64>)
    ensures
        (match r {
            Some(v) => Some(v as nat),
            None => None,
        }) == counted(lines_of(stderr@), event@, lines_of(stderr@).len()),
{
    let lines = split_lines(stderr);
    let ghost lv = texts(lines@);
    let mut total: Option<u64> = None;
    let mut n: usize = 0;
    while n < lines.len()
        invariant
            n <= lines@.len(),
            (match total {
                Some(v) => Some(v as nat),
                None => None,
            }) == counted(lv, event@, n as nat),
        decreases lines@.len() - n,
    {
        assert(lv[n as int] == lines@[n as int]@);
        match count_in(&lines[n], event) {
            Some(v) => {
                total = match total {
                    Some(t) => {
                        if t > u64::MAX - v {
                            Some(u64::MAX)
                        } else {
                            Some(t + v)
                        }
                    },
                    None => Some(v),
                };
            },
            None => {},
        }
        n += 1;
    }
    total
}

#[verifier::loop_isolation(false)]
fn header_lines(s: &Vec<String>, yes: bool) -> (r: Vec<String>)
    ensures
        texts(r@) == headers(texts(s@), yes),
{
    let ghost v = texts(s@);
    let mut r: Vec<String> = Vec::new();
    let mut i: usize = 0;
    proof {
        assert(v.take(0) =~= Seq::empty());
        assert(texts(r@) =~= Seq::empty());
    }
    while i < s.len()
        invariant
            i <= s@.len(),
            texts(r@) == headers(v.take(i as int), yes),
        decreases s@.len() - i,
    {
        proof {
            assert(v.take(i + 1).drop_last() =~= v.take(i as int));
            assert(v.take(i + 1).last() == s@[i as int]@);
        }
        if has_start(&s[i], "#") == yes {
            let t = copy_text(&s[i]);
            assert(texts(r@.push(t)) =~= texts(r@).push(t@));
            r.push(t);
        }
        i += 1;
    }
    assert(v.take(i as int) =~= v);
    r
}

fn is_named(l: &String, name: &String) -> (r: bool)
    ensures
        r == (first_word(l@) == Some(name@)),
{
    match find_word(l) {
        Some(w) => same_text(&w, name),
        None => false,
    }
}

/// Replace (or add) a function's line in a lockfile's text.
#[verifier::loop_isolation(false)]
pub fn update_lock(lock: &str, name: &str, new_line: &str) -> (r: String)
    ensures
        r@ == lock_updated(lock@, name@, new_line@),
{
    let old = split_lines(lock);
    let ghost ov = texts(old@);
    let key = name.to_owned();
    let mut lines: Vec<String> = Vec::new();
    let mut found = false;
    let mut i: usize = 0;
    while i < old.len()
        invariant
            i <= old@.len(),
            lines@.len() == i,
            forall|j: int| 0 <= j < i ==> (#[trigger] lines@[j])@ == line_replaced(ov[j], name@, new_line@),
            found == (exists|j: int| 0 <= j < i && first_word(#[trigger] ov[j]) == Some(name@)),
        decreases old@.len() - i,
    {
        assert(ov[i as int] == old@[i as int]@);
        if is_named(&old[i], &key) {
            assert(first_word(ov[i as int]) == Some(name@));
            found = true;
            lines.push(new_line.to_owned());
        } else {
            lines.push(copy_text(&old[i]));
        }
        i += 1;
    }
    let ghost replaced = Seq::new(ov.len(), |i: int| line_replaced(ov[i], name@, new_line@));
    assert(texts(lines@) =~= replaced);
    if !found {
        let t = new_line.to_owned();
        assert(texts(lines@.push(t)) =~= replaced.push(t@));
        lines.push(t);
    }
    let mut out = header_lines(&lines, true);
    let mut body = sort_texts(header_lines(&lines, false));
    let ghost a = texts(out@);
    let ghost b = texts(body@);
    out.append(&mut body);
    assert(texts(out@) =~= a + b);
    write_lines(&out)
}

// ---- the verdict ----

/// The sizes of the first `k` parameters at `n`, in the form that an evaluation reads.
pub open spec fn sizes_text(f: FuncV, shapes: Seq<Shape>, n: i64, k: nat) -> Seq<char>
    decreases k,
{
    if k == 0 {
        Seq::empty()
    } else {
        let l = local_of(f, f.params[k - 1]);
        let name = if l.ty.arrayish() {
            l.name + ".len()"@
        } else {
            l.name
        };
        let one = name + "="@ + int_text(param_size(shapes, k - 1, n) as int);
        if k == 1 {
            one
        } else {
            sizes_text(f, shapes, n, (k - 1) as nat) + ","@ + one
        }
    }
}

/// The sizes of a function's parameters at `n`: `a.len()=100,k=4`.
#[verifier::loop_isolation(false)]
pub fn sizes_at(f: &Func, shapes: &[Shape], n: i64) -> (r: String)
    requires
        forall|i: int| 0 <= i < shapes@.len() ==> (#[trigger] shapes@[i]).fits(n as int),
    ensures
        r@ == sizes_text(f@, shapes@, n, f@.params.len()),
{
    let mut r: String = String::new();
    let mut k: usize = 0;
    assert(r@ =~= Seq::empty());
    while k < f.params.len()
        invariant
            k <= f@.params.len(),
            r@ == sizes_text(f@, shapes@, n, k as nat),
        decreases f@.params.len() - k,
    {
        let p: usize = f.params[k];
        let size: i64 = if k < shapes.len() {
            shapes[k].at(n)
        } else {
            n
        };
        let name = if p < f.locals.len() {
            assert(f@.locals[p as int] == f.locals@[p as int]@);
            if f.locals[p].ty.is_arrayish() {
                cat2(&f.locals[p].name, ".len()")
            } else {
                copy_text(&f.locals[p].name)
            }
        } else {
            "".to_owned()
        };
        let one = cat3(&name, "=", &show_i64(size));
        r = if k == 0 {
            one
        } else {
            cat3(&r, ",", &one)
        };
        k += 1;
    }
    r
}

/// How often to call: a declaration is confirmed per call, so often enough for the noise of a
/// process to divide away.
pub fn repeats(declared: bool, asked: i64) -> (r: i64)
    ensures
        r == if declared && asked == 1 {
            10000
        } else {
            asked as int
        },
{
    if declared && asked == 1 {
        10000
    } else {
        asked
    }
}

/// What was counted stays within what was declared per call, up to the counter's known factors:
/// reads pair, prefetch overfetches, and the noise of a process is under a line per call.
pub open spec fn stays_within(ins: int, bytes: int, repeat: int, work: NumV, moves: NumV, line: int) -> bool {
    &&& n_reaches(n_plus(n_times(work, NumV::Finite(ratio(3, 2))), NumV::Finite(2real)), ins as real / repeat as real)
    &&& n_reaches(n_plus(n_times(moves, NumV::Finite(2real)), NumV::Finite(line as real)), bytes as real / repeat as real)
}

pub fn confirms(ins: u64, bytes: u64, repeat: i64, work: &Number, moves: &Number, m: &Machine) -> (r: bool)
    requires
        repeat > 0,
    ensures
        r == stays_within(ins as int, bytes as int, repeat as int, work@, moves@, m.b_bytes as int),
{
    let k = Rat::integer(repeat as i128);
    let per_work = Rat::integer(ins as i128).over(&k);
    let per_moves = Rat::integer(bytes as i128).over(&k);
    let most_work = work.times(&Number::Finite(Rat::new(3, 2))).plus(&Number::integer(2));
    let most_moves = moves.times(&Number::integer(2)).plus(&Number::integer(m.b_bytes));
    most_work.reaches(&per_work) && most_moves.reaches(&per_moves)
}

/// The lockfile's line of a declaration that was measured.
pub fn measured_line(line: &str, first: i64, last: i64, confirmed: bool) -> (r: String)
    ensures
        r@ == line@ + "  measured over n = "@ + int_text(first as int) + ".."@ + int_text(last as int) + ": "@ + (
        if confirmed {
            "confirmed"@
        } else {
            "EXCEEDED"@
        }),
{
    cat7(
        line,
        "  measured over n = ",
        &show_i64(first),
        "..",
        &show_i64(last),
        ": ",
        if confirmed {
            "confirmed"
        } else {
            "EXCEEDED"
        },
    )
}

} // verus!
