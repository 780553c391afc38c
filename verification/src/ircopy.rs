//! Copies of typed trees.

use vstd::prelude::*;
use crate::ast::{views, Pair};
use crate::ir::{
    block_lists, expr_parts, lvalue_parts, opt_view, stmt_parts, Block, Expr, ExprKind, Func, LValue, Local, Module,
    SizeInfo, Stmt, StructDef, Ty,
};
use crate::irsize::{
    block_shrinks, block_size, expr_shrinks, expr_size, exprs_shrink, exprs_size, stmt_shrinks, stmt_size,
    stmts_shrink, stmts_size,
};
use crate::text::{copy_text, texts};

verus! {

impl Expr {
    pub fn copy(&self) -> (r: Expr)
        ensures
            r@ == self@,
        decreases expr_size(self@), 1int,
    {
        proof {
            expr_parts(*self);
            expr_shrinks(self@);
        }
        let kind = match &self.kind {
            ExprKind::Int(v) => ExprKind::Int(*v),
            ExprKind::Float(s) => ExprKind::Float(copy_text(s)),
            ExprKind::Bool(b) => ExprKind::Bool(*b),
            ExprKind::Byte(b) => ExprKind::Byte(*b),
            ExprKind::Local(l) => ExprKind::Local(*l),
            ExprKind::Binary(op, a, b) => ExprKind::Binary(*op, Box::new(a.copy()), Box::new(b.copy())),
            ExprKind::Unary(op, a) => ExprKind::Unary(*op, Box::new(a.copy())),
            ExprKind::Index(l, a) => ExprKind::Index(*l, Box::new(a.copy())),
            ExprKind::Field(a, f) => ExprKind::Field(Box::new(a.copy()), *f),
            ExprKind::StructLit(s, a) => ExprKind::StructLit(*s, copy_exprs(a)),
            ExprKind::Call(f, a) => ExprKind::Call(*f, copy_exprs(a)),
            ExprKind::Println(a) => ExprKind::Println(Box::new(a.copy())),
            ExprKind::Len(l) => ExprKind::Len(*l),
            ExprKind::Ref(l, m) => ExprKind::Ref(*l, *m),
            ExprKind::Cast(a, t) => ExprKind::Cast(Box::new(a.copy()), t.copy()),
            ExprKind::MinMax(m, a, b) => ExprKind::MinMax(*m, Box::new(a.copy()), Box::new(b.copy())),
            ExprKind::If(c, a, b) => {
                let els = match b {
                    Some(x) => Some(x.copy()),
                    None => None,
                };
                ExprKind::If(Box::new(c.copy()), a.copy(), els)
            },
            ExprKind::Block(b) => ExprKind::Block(b.copy()),
        };
        let r = Expr { kind, ty: self.ty.copy(), line: self.line };
        proof {
            expr_parts(r);
        }
        r
    }
}

pub fn copy_exprs(s: &Vec<Expr>) -> (r: Vec<Expr>)
    ensures
        views(r@) == views(s@),
    decreases exprs_size(views(s@)), 2int,
{
    let mut r: Vec<Expr> = Vec::new();
    let mut i: usize = 0;
    while i < s.len()
        invariant
            i <= s@.len(),
            r@.len() == i,
            forall|j: int| 0 <= j < i ==> (#[trigger] r@[j])@ == s@[j]@,
        decreases s@.len() - i,
    {
        proof {
            exprs_shrink(views(s@), i as int);
        }
        let e = s[i].copy();
        r.push(e);
        i += 1;
    }
    assert(views(r@) =~= views(s@));
    r
}

impl Block {
    pub fn copy(&self) -> (r: Block)
        ensures
            r@ == self@,
        decreases block_size(self@), 1int,
    {
        proof {
            block_lists(*self);
            block_shrinks(self@);
        }
        let stmts = copy_stmts(&self.stmts);
        let tail = match &self.tail {
            Some(e) => Some(Box::new(e.copy())),
            None => None,
        };
        let r = Block { stmts, tail, ty: self.ty.copy() };
        proof {
            block_lists(r);
        }
        r
    }
}

pub fn copy_stmts(s: &Vec<Stmt>) -> (r: Vec<Stmt>)
    ensures
        views(r@) == views(s@),
    decreases stmts_size(views(s@)), 2int,
{
    let mut r: Vec<Stmt> = Vec::new();
    let mut i: usize = 0;
    while i < s.len()
        invariant
            i <= s@.len(),
            r@.len() == i,
            forall|j: int| 0 <= j < i ==> (#[trigger] r@[j])@ == s@[j]@,
        decreases s@.len() - i,
    {
        proof {
            stmts_shrink(views(s@), i as int);
        }
        let x = s[i].copy();
        r.push(x);
        i += 1;
    }
    assert(views(r@) =~= views(s@));
    r
}

impl LValue {
    pub(crate) fn copy(&self, Ghost(n): Ghost<nat>) -> (r: LValue)
        requires
            match self@ {
                crate::ir::LValueV::Index(_, e, _) => expr_size(e) < n,
                crate::ir::LValueV::IndexField(_, e, _, _) => expr_size(e) < n,
                _ => true,
            },
        ensures
            r@ == self@,
        decreases n, 0int,
    {
        proof {
            lvalue_parts(*self);
        }
        let r = match self {
            LValue::Var(v) => LValue::Var(*v),
            LValue::Index(l, e, line) => LValue::Index(*l, e.copy(), *line),
            LValue::Field(l, f) => LValue::Field(*l, *f),
            LValue::IndexField(l, e, f, line) => LValue::IndexField(*l, e.copy(), *f, *line),
        };
        proof {
            lvalue_parts(r);
        }
        r
    }
}

fn copy_opt_expr(x: &Option<Expr>, Ghost(n): Ghost<nat>) -> (r: Option<Expr>)
    requires
        *x is Some ==> expr_size((*x)->0@) < n,
    ensures
        opt_view(r) == opt_view(*x),
    decreases n, 0int,
{
    match x {
        Some(e) => Some(e.copy()),
        None => None,
    }
}

impl Stmt {
    pub fn copy(&self) -> (r: Stmt)
        ensures
            r@ == self@,
        decreases stmt_size(self@), 1int,
    {
        proof {
            stmt_parts(*self);
            stmt_shrinks(self@);
        }
        let ghost n = stmt_size(self@);
        let r = match self {
            Stmt::Let(id, e) => Stmt::Let(*id, e.copy()),
            Stmt::LetRepeat(id, e, m) => Stmt::LetRepeat(*id, e.copy(), m.copy()),
            Stmt::LetArray(id, a) => Stmt::LetArray(*id, copy_exprs(a)),
            Stmt::LetBuild { id, len, var, body } => Stmt::LetBuild {
                id: *id,
                len: len.copy(),
                var: *var,
                body: body.copy(),
            },
            Stmt::Assign(lv, op, e) => Stmt::Assign(lv.copy(Ghost(n)), *op, e.copy()),
            Stmt::For { var, start, end, body } => Stmt::For {
                var: *var,
                start: start.copy(),
                end: end.copy(),
                body: body.copy(),
            },
            Stmt::While { cond, decreasing, body, line } => Stmt::While {
                cond: cond.copy(),
                decreasing: copy_opt_expr(decreasing, Ghost(n)),
                body: body.copy(),
                line: *line,
            },
            Stmt::Break => Stmt::Break,
            Stmt::Expr(e) => Stmt::Expr(e.copy()),
            Stmt::Return(e) => Stmt::Return(copy_opt_expr(e, Ghost(n))),
        };
        proof {
            stmt_parts(r);
        }
        r
    }
}

pub fn copy_locals(s: &Vec<Local>) -> (r: Vec<Local>)
    ensures
        views(r@) == views(s@),
{
    let mut r: Vec<Local> = Vec::new();
    let mut i: usize = 0;
    while i < s.len()
        invariant
            i <= s@.len(),
            r@.len() == i,
            forall|j: int| 0 <= j < i ==> (#[trigger] r@[j])@ == s@[j]@,
        decreases s@.len() - i,
    {
        r.push(Local { name: copy_text(&s[i].name), ty: s[i].ty.copy(), mutable: s[i].mutable });
        i += 1;
    }
    assert(views(r@) =~= views(s@));
    r
}

pub fn copy_ids(s: &Vec<usize>) -> (r: Vec<usize>)
    ensures
        r@ == s@,
{
    let mut r: Vec<usize> = Vec::new();
    let mut i: usize = 0;
    while i < s.len()
        invariant
            i <= s@.len(),
            r@ == s@.take(i as int),
        decreases s@.len() - i,
    {
        r.push(s[i]);
        assert(r@ =~= s@.take(i + 1));
        i += 1;
    }
    assert(r@ =~= s@);
    r
}

fn copy_sizes(s: &Vec<SizeInfo>) -> (r: Vec<SizeInfo>)
    ensures
        views(r@) == views(s@),
{
    let mut r: Vec<SizeInfo> = Vec::new();
    let mut i: usize = 0;
    while i < s.len()
        invariant
            i <= s@.len(),
            r@.len() == i,
            forall|j: int| 0 <= j < i ==> (#[trigger] r@[j])@ == s@[j]@,
        decreases s@.len() - i,
    {
        r.push(SizeInfo { name: copy_text(&s[i].name) });
        i += 1;
    }
    assert(views(r@) =~= views(s@));
    r
}

fn copy_pairs(s: &Vec<Pair>) -> (r: Vec<Pair>)
    ensures
        views(r@) == views(s@),
{
    let mut r: Vec<Pair> = Vec::new();
    let mut i: usize = 0;
    while i < s.len()
        invariant
            i <= s@.len(),
            r@.len() == i,
            forall|j: int| 0 <= j < i ==> (#[trigger] r@[j])@ == s@[j]@,
        decreases s@.len() - i,
    {
        r.push(Pair { key: copy_text(&s[i].key), val: copy_text(&s[i].val), line: s[i].line, col: s[i].col });
        i += 1;
    }
    assert(views(r@) =~= views(s@));
    r
}

fn copy_uses(s: &Vec<String>) -> (r: Vec<String>)
    ensures
        texts(r@) == texts(s@),
{
    let mut r: Vec<String> = Vec::new();
    let mut i: usize = 0;
    while i < s.len()
        invariant
            i <= s@.len(),
            r@.len() == i,
            forall|j: int| 0 <= j < i ==> (#[trigger] r@[j])@ == s@[j]@,
        decreases s@.len() - i,
    {
        r.push(copy_text(&s[i]));
        i += 1;
    }
    assert(texts(r@) =~= texts(s@));
    r
}

impl Func {
    /// The function with another body, locals and parameters.
    pub fn with_body(&self, params: Vec<usize>, locals: Vec<Local>, body: Option<Block>) -> (r: Func)
        ensures
            r@ == (crate::ir::FuncV { params: params@, locals: views(locals@), body: opt_view(body), ..self@ }),
    {
        Func {
            name: copy_text(&self.name),
            params,
            ret: self.ret.copy(),
            locals,
            sizes: copy_sizes(&self.sizes),
            body,
            uses: copy_uses(&self.uses),
            asserts: copy_pairs(&self.asserts),
            line: self.line,
        }
    }

    pub fn copy(&self) -> (r: Func)
        ensures
            r@ == self@,
    {
        let body = match &self.body {
            Some(b) => Some(b.copy()),
            None => None,
        };
        self.with_body(copy_ids(&self.params), copy_locals(&self.locals), body)
    }
}

impl StructDef {
    pub fn copy(&self) -> (r: StructDef)
        ensures
            r@ == self@,
    {
        let mut fields: Vec<(String, Ty)> = Vec::new();
        let mut i: usize = 0;
        while i < self.fields.len()
            invariant
                i <= self.fields@.len(),
                fields@.len() == i,
                forall|j: int|
                    0 <= j < i ==> (#[trigger] fields@[j]).0@ == self.fields@[j].0@ && fields@[j].1 == self.fields@[j].1,
            decreases self.fields@.len() - i,
        {
            fields.push((copy_text(&self.fields[i].0), self.fields[i].1.copy()));
            i += 1;
        }
        let r = StructDef { name: copy_text(&self.name), fields, layout: self.layout, fixed: self.fixed };
        assert(r@.fields =~= self@.fields);
        r
    }
}

impl Module {
    pub fn copy(&self) -> (r: Module)
        ensures
            r@ == self@,
    {
        let mut funcs: Vec<Func> = Vec::new();
        let mut i: usize = 0;
        while i < self.funcs.len()
            invariant
                i <= self.funcs@.len(),
                funcs@.len() == i,
                forall|j: int| 0 <= j < i ==> (#[trigger] funcs@[j])@ == self.funcs@[j]@,
            decreases self.funcs@.len() - i,
        {
            funcs.push(self.funcs[i].copy());
            i += 1;
        }
        let mut structs: Vec<StructDef> = Vec::new();
        let mut i: usize = 0;
        while i < self.structs.len()
            invariant
                i <= self.structs@.len(),
                structs@.len() == i,
                forall|j: int| 0 <= j < i ==> (#[trigger] structs@[j])@ == self.structs@[j]@,
            decreases self.structs@.len() - i,
        {
            structs.push(self.structs[i].copy());
            i += 1;
        }
        assert(views(funcs@) =~= views(self.funcs@));
        assert(views(structs@) =~= views(self.structs@));
        Module { funcs, structs }
    }
}

} // verus!
