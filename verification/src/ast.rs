//! The syntax tree, as parsed. Names are strings, nothing is typed yet.

use vstd::prelude::*;
use crate::text::texts;

verus! {

#[derive(Debug)]
pub struct Program {
    pub funcs: Vec<Func>,
    pub structs: Vec<StructDef>,
}

/// One field of a struct, and where its name stands.
#[derive(Debug)]
pub struct FieldDef {
    pub name: String,
    pub ty: TypeExpr,
    pub line: u32,
    pub col: u32,
}

/// `struct S { f: T, … }` with scalar fields; `#[layout(aos|soa)]` fixes the layout the compiler
/// would otherwise choose.
#[derive(Debug)]
pub struct StructDef {
    pub name: String,
    pub fields: Vec<FieldDef>,
    pub layout: Option<String>,
    pub line: u32,
    pub col: u32,
}

/// `key = "value"` of an attribute, and where the key stands.
#[derive(Debug)]
pub struct Pair {
    pub key: String,
    pub val: String,
    pub line: u32,
    pub col: u32,
}

#[derive(Debug)]
pub struct Func {
    pub name: String,
    pub params: Vec<Param>,
    pub ret: TypeExpr,
    /// `None` for a declaration whose cost is what `#[cost]` says
    pub body: Option<Block>,
    /// `uses io, unbounded` — declared effects (only meaningful on a declaration)
    pub uses: Vec<String>,
    /// `#[cost(key = "expr", ...)]` — asserted cost bounds, checked after inference
    pub asserts: Vec<Pair>,
    pub line: u32,
    pub col: u32,
}

#[derive(Debug)]
pub struct Param {
    pub name: String,
    pub ty: TypeExpr,
    pub line: u32,
    pub col: u32,
}

#[derive(Debug)]
pub enum TypeExpr {
    Named(String),
    Unit,
    /// `[T]`: an owned array whose length the value decides
    Owned(Box<TypeExpr>),
    /// `[T; n]`
    Array(Box<TypeExpr>, Box<Expr>),
    /// `&[T]` / `&mut [T]`
    Slice(Box<TypeExpr>, bool),
}

#[derive(Debug)]
pub struct Block {
    pub stmts: Vec<Stmt>,
    pub tail: Option<Box<Expr>>,
    pub line: u32,
    pub col: u32,
}

#[derive(Debug)]
pub enum Stmt {
    Let { name: String, mutable: bool, ty: Option<TypeExpr>, init: Expr, line: u32, col: u32 },
    /// `target = value`, or `target op= value` when `op` is set.
    Assign { target: Expr, op: Option<BinOp>, value: Expr, line: u32, col: u32 },
    For { var: String, start: Expr, end: Expr, body: Block, line: u32, col: u32 },
    /// `while cond [decreasing measure] { body }`
    While { cond: Expr, decreasing: Option<Expr>, body: Block, line: u32, col: u32 },
    Break(u32, u32),
    Expr(Expr),
    Return(Option<Expr>, u32, u32),
}

#[derive(Debug)]
pub struct Expr {
    pub kind: ExprKind,
    pub line: u32,
    pub col: u32,
}

#[derive(Debug)]
pub enum ExprKind {
    Int(i64),
    /// the digits of a float literal
    Float(String),
    Bool(bool),
    Byte(u8),
    /// `b"..."` — an array literal of bytes
    Bytes(Vec<u8>),
    Var(String),
    Binary(BinOp, Box<Expr>, Box<Expr>),
    Unary(UnOp, Box<Expr>),
    Index(Box<Expr>, Box<Expr>),
    /// `e.f`
    Field(Box<Expr>, String),
    /// `S { f: e, … }`
    StructLit(String, Vec<(String, Expr)>),
    Call(String, Vec<Expr>),
    MethodCall(Box<Expr>, String, Vec<Expr>),
    /// `&e` / `&mut e`
    Ref(Box<Expr>, bool),
    Cast(Box<Expr>, TypeExpr),
    If(Box<Expr>, Block, Option<Block>),
    Block(Block),
    ArrayLit(Vec<Expr>),
    /// `[e; n]`
    ArrayRepeat(Box<Expr>, Box<Expr>),
    /// `|a, b| body` — only ever an argument of a chain stage
    Lambda(Vec<String>, Box<Expr>),
    /// `[elem for var in source if cond]`
    Comprehension { elem: Box<Expr>, var: String, source: Box<Expr>, cond: Option<Box<Expr>> },
}

#[derive(Debug, Clone, Copy, PartialEq, Eq, Structural)]
pub enum BinOp { Add, Sub, Mul, Div, Rem, Eq, Ne, Lt, Le, Gt, Ge, And, Or }

#[derive(Debug, Clone, Copy, PartialEq, Eq, Structural)]
pub enum UnOp { Neg, Not }

impl BinOp {
    /// The operator as C writes it.
    pub open spec fn c_text(self) -> Seq<char> {
        match self {
            BinOp::Add => "+"@,
            BinOp::Sub => "-"@,
            BinOp::Mul => "*"@,
            BinOp::Div => "/"@,
            BinOp::Rem => "%"@,
            BinOp::Eq => "=="@,
            BinOp::Ne => "!="@,
            BinOp::Lt => "<"@,
            BinOp::Le => "<="@,
            BinOp::Gt => ">"@,
            BinOp::Ge => ">="@,
            BinOp::And => "&&"@,
            BinOp::Or => "||"@,
        }
    }

    pub fn c_str(self) -> (r: &'static str)
        ensures
            r@ == self.c_text(),
    {
        match self {
            BinOp::Add => "+",
            BinOp::Sub => "-",
            BinOp::Mul => "*",
            BinOp::Div => "/",
            BinOp::Rem => "%",
            BinOp::Eq => "==",
            BinOp::Ne => "!=",
            BinOp::Lt => "<",
            BinOp::Le => "<=",
            BinOp::Gt => ">",
            BinOp::Ge => ">=",
            BinOp::And => "&&",
            BinOp::Or => "||",
        }
    }

    pub open spec fn arith(self) -> bool {
        self == BinOp::Add || self == BinOp::Sub || self == BinOp::Mul || self == BinOp::Div || self == BinOp::Rem
    }

    pub open spec fn compares(self) -> bool {
        !self.arith() && self != BinOp::And && self != BinOp::Or
    }

    pub fn is_arith(self) -> (r: bool)
        ensures
            r == self.arith(),
    {
        match self {
            BinOp::Add | BinOp::Sub | BinOp::Mul | BinOp::Div | BinOp::Rem => true,
            _ => false,
        }
    }

    pub fn is_cmp(self) -> (r: bool)
        ensures
            r == self.compares(),
    {
        match self {
            BinOp::Eq | BinOp::Ne | BinOp::Lt | BinOp::Le | BinOp::Gt | BinOp::Ge => true,
            _ => false,
        }
    }
}

// ---- the tree as a value ----

pub struct ProgramV {
    pub funcs: Seq<FuncV>,
    pub structs: Seq<StructDefV>,
}

pub struct FieldDefV {
    pub name: Seq<char>,
    pub ty: TypeV,
    pub line: u32,
    pub col: u32,
}

pub struct StructDefV {
    pub name: Seq<char>,
    pub fields: Seq<FieldDefV>,
    pub layout: Option<Seq<char>>,
    pub line: u32,
    pub col: u32,
}

pub struct PairV {
    pub key: Seq<char>,
    pub val: Seq<char>,
    pub line: u32,
    pub col: u32,
}

pub struct FuncV {
    pub name: Seq<char>,
    pub params: Seq<ParamV>,
    pub ret: TypeV,
    pub body: Option<BlockV>,
    pub uses: Seq<Seq<char>>,
    pub asserts: Seq<PairV>,
    pub line: u32,
    pub col: u32,
}

pub struct ParamV {
    pub name: Seq<char>,
    pub ty: TypeV,
    pub line: u32,
    pub col: u32,
}

pub enum TypeV {
    Named(Seq<char>),
    Unit,
    Owned(Box<TypeV>),
    Array(Box<TypeV>, Box<ExprV>),
    Slice(Box<TypeV>, bool),
}

pub struct BlockV {
    pub stmts: Seq<StmtV>,
    pub tail: Option<Box<ExprV>>,
    pub line: u32,
    pub col: u32,
}

pub enum StmtV {
    Let { name: Seq<char>, mutable: bool, ty: Option<TypeV>, init: ExprV, line: u32, col: u32 },
    Assign { target: ExprV, op: Option<BinOp>, value: ExprV, line: u32, col: u32 },
    For { var: Seq<char>, start: ExprV, end: ExprV, body: BlockV, line: u32, col: u32 },
    While { cond: ExprV, decreasing: Option<ExprV>, body: BlockV, line: u32, col: u32 },
    Break(u32, u32),
    Expr(ExprV),
    Return(Option<ExprV>, u32, u32),
}

pub struct ExprV {
    pub kind: KindV,
    pub line: u32,
    pub col: u32,
}

pub enum KindV {
    Int(i64),
    Float(Seq<char>),
    Bool(bool),
    Byte(u8),
    Bytes(Seq<u8>),
    Var(Seq<char>),
    Binary(BinOp, Box<ExprV>, Box<ExprV>),
    Unary(UnOp, Box<ExprV>),
    Index(Box<ExprV>, Box<ExprV>),
    Field(Box<ExprV>, Seq<char>),
    StructLit(Seq<char>, Seq<(Seq<char>, ExprV)>),
    Call(Seq<char>, Seq<ExprV>),
    MethodCall(Box<ExprV>, Seq<char>, Seq<ExprV>),
    Ref(Box<ExprV>, bool),
    Cast(Box<ExprV>, TypeV),
    If(Box<ExprV>, BlockV, Option<BlockV>),
    Block(BlockV),
    ArrayLit(Seq<ExprV>),
    ArrayRepeat(Box<ExprV>, Box<ExprV>),
    Lambda(Seq<Seq<char>>, Box<ExprV>),
    Comprehension { elem: Box<ExprV>, var: Seq<char>, source: Box<ExprV>, cond: Option<Box<ExprV>> },
}

pub open spec fn type_view(t: TypeExpr) -> TypeV
    decreases t,
{
    match t {
        TypeExpr::Named(s) => TypeV::Named(s@),
        TypeExpr::Unit => TypeV::Unit,
        TypeExpr::Owned(e) => TypeV::Owned(Box::new(type_view(*e))),
        TypeExpr::Array(e, n) => TypeV::Array(Box::new(type_view(*e)), Box::new(expr_view(*n))),
        TypeExpr::Slice(e, m) => TypeV::Slice(Box::new(type_view(*e)), m),
    }
}

pub open spec fn block_view(b: Block) -> BlockV
    decreases b,
{
    BlockV {
        stmts: Seq::new(
            b.stmts@.len(),
            |i: int|
                if 0 <= i < b.stmts@.len() {
                    stmt_view(b.stmts@[i])
                } else {
                    arbitrary()
                },
        ),
        tail: match b.tail {
            Some(e) => Some(Box::new(expr_view(*e))),
            None => None,
        },
        line: b.line,
        col: b.col,
    }
}

pub open spec fn stmt_view(s: Stmt) -> StmtV
    decreases s,
{
    match s {
        Stmt::Let { name, mutable, ty, init, line, col } => StmtV::Let {
            name: name@,
            mutable,
            ty: match ty {
                Some(t) => Some(type_view(t)),
                None => None,
            },
            init: expr_view(init),
            line,
            col,
        },
        Stmt::Assign { target, op, value, line, col } => StmtV::Assign {
            target: expr_view(target),
            op,
            value: expr_view(value),
            line,
            col,
        },
        Stmt::For { var, start, end, body, line, col } => StmtV::For {
            var: var@,
            start: expr_view(start),
            end: expr_view(end),
            body: block_view(body),
            line,
            col,
        },
        Stmt::While { cond, decreasing, body, line, col } => StmtV::While {
            cond: expr_view(cond),
            decreasing: match decreasing {
                Some(e) => Some(expr_view(e)),
                None => None,
            },
            body: block_view(body),
            line,
            col,
        },
        Stmt::Break(l, c) => StmtV::Break(l, c),
        Stmt::Expr(e) => StmtV::Expr(expr_view(e)),
        Stmt::Return(e, l, c) => StmtV::Return(
            match e {
                Some(x) => Some(expr_view(x)),
                None => None,
            },
            l,
            c,
        ),
    }
}

pub open spec fn expr_view(e: Expr) -> ExprV
    decreases e,
{
    ExprV { kind: kind_view(e.kind), line: e.line, col: e.col }
}

pub open spec fn kind_view(k: ExprKind) -> KindV
    decreases k,
{
    match k {
        ExprKind::Int(v) => KindV::Int(v),
        ExprKind::Float(s) => KindV::Float(s@),
        ExprKind::Bool(b) => KindV::Bool(b),
        ExprKind::Byte(b) => KindV::Byte(b),
        ExprKind::Bytes(b) => KindV::Bytes(b@),
        ExprKind::Var(n) => KindV::Var(n@),
        ExprKind::Binary(op, a, b) => KindV::Binary(op, Box::new(expr_view(*a)), Box::new(expr_view(*b))),
        ExprKind::Unary(op, a) => KindV::Unary(op, Box::new(expr_view(*a))),
        ExprKind::Index(a, b) => KindV::Index(Box::new(expr_view(*a)), Box::new(expr_view(*b))),
        ExprKind::Field(a, n) => KindV::Field(Box::new(expr_view(*a)), n@),
        ExprKind::StructLit(n, f) => KindV::StructLit(
            n@,
            Seq::new(
                f@.len(),
                |i: int|
                    if 0 <= i < f@.len() {
                        (f@[i].0@, expr_view(f@[i].1))
                    } else {
                        arbitrary()
                    },
            ),
        ),
        ExprKind::Call(n, a) => KindV::Call(
            n@,
            Seq::new(
                a@.len(),
                |i: int|
                    if 0 <= i < a@.len() {
                        expr_view(a@[i])
                    } else {
                        arbitrary()
                    },
            ),
        ),
        ExprKind::MethodCall(r, n, a) => KindV::MethodCall(
            Box::new(expr_view(*r)),
            n@,
            Seq::new(
                a@.len(),
                |i: int|
                    if 0 <= i < a@.len() {
                        expr_view(a@[i])
                    } else {
                        arbitrary()
                    },
            ),
        ),
        ExprKind::Ref(a, m) => KindV::Ref(Box::new(expr_view(*a)), m),
        ExprKind::Cast(a, t) => KindV::Cast(Box::new(expr_view(*a)), type_view(t)),
        ExprKind::If(c, a, b) => KindV::If(
            Box::new(expr_view(*c)),
            block_view(a),
            match b {
                Some(x) => Some(block_view(x)),
                None => None,
            },
        ),
        ExprKind::Block(b) => KindV::Block(block_view(b)),
        ExprKind::ArrayLit(a) => KindV::ArrayLit(
            Seq::new(
                a@.len(),
                |i: int|
                    if 0 <= i < a@.len() {
                        expr_view(a@[i])
                    } else {
                        arbitrary()
                    },
            ),
        ),
        ExprKind::ArrayRepeat(a, b) => KindV::ArrayRepeat(Box::new(expr_view(*a)), Box::new(expr_view(*b))),
        ExprKind::Lambda(p, b) => KindV::Lambda(texts(p@), Box::new(expr_view(*b))),
        ExprKind::Comprehension { elem, var, source, cond } => KindV::Comprehension {
            elem: Box::new(expr_view(*elem)),
            var: var@,
            source: Box::new(expr_view(*source)),
            cond: match cond {
                Some(c) => Some(Box::new(expr_view(*c))),
                None => None,
            },
        },
    }
}

impl View for TypeExpr {
    type V = TypeV;

    open spec fn view(&self) -> TypeV {
        type_view(*self)
    }
}

impl View for Block {
    type V = BlockV;

    open spec fn view(&self) -> BlockV {
        block_view(*self)
    }
}

impl View for Stmt {
    type V = StmtV;

    open spec fn view(&self) -> StmtV {
        stmt_view(*self)
    }
}

impl View for Expr {
    type V = ExprV;

    open spec fn view(&self) -> ExprV {
        expr_view(*self)
    }
}

impl View for Param {
    type V = ParamV;

    open spec fn view(&self) -> ParamV {
        ParamV { name: self.name@, ty: self.ty@, line: self.line, col: self.col }
    }
}

impl View for Pair {
    type V = PairV;

    open spec fn view(&self) -> PairV {
        PairV { key: self.key@, val: self.val@, line: self.line, col: self.col }
    }
}

impl View for FieldDef {
    type V = FieldDefV;

    open spec fn view(&self) -> FieldDefV {
        FieldDefV { name: self.name@, ty: self.ty@, line: self.line, col: self.col }
    }
}

pub open spec fn opt_text(s: Option<String>) -> Option<Seq<char>> {
    match s {
        Some(t) => Some(t@),
        None => None,
    }
}

impl View for StructDef {
    type V = StructDefV;

    open spec fn view(&self) -> StructDefV {
        StructDefV {
            name: self.name@,
            fields: views(self.fields@),
            layout: opt_text(self.layout),
            line: self.line,
            col: self.col,
        }
    }
}

impl View for Func {
    type V = FuncV;

    open spec fn view(&self) -> FuncV {
        FuncV {
            name: self.name@,
            params: views(self.params@),
            ret: self.ret@,
            body: match self.body {
                Some(b) => Some(b@),
                None => None,
            },
            uses: texts(self.uses@),
            asserts: views(self.asserts@),
            line: self.line,
            col: self.col,
        }
    }
}

impl View for Program {
    type V = ProgramV;

    open spec fn view(&self) -> ProgramV {
        ProgramV { funcs: views(self.funcs@), structs: views(self.structs@) }
    }
}

/// The values of a list.
pub open spec fn views<T: View>(s: Seq<T>) -> Seq<T::V> {
    Seq::new(s.len(), |i: int| s[i]@)
}

/// The values of the fields of a struct literal.
pub open spec fn fields_v(s: Seq<(String, Expr)>) -> Seq<(Seq<char>, ExprV)> {
    Seq::new(s.len(), |i: int| (s[i].0@, s[i].1@))
}

/// The lists inside an expression are the lists of its parts' values.
pub proof fn kind_lists(k: ExprKind)
    ensures
        match k {
            ExprKind::StructLit(n, f) => kind_view(k) == KindV::StructLit(n@, fields_v(f@)),
            ExprKind::Call(n, a) => kind_view(k) == KindV::Call(n@, views(a@)),
            ExprKind::MethodCall(r, n, a) => kind_view(k) == KindV::MethodCall(Box::new((*r)@), n@, views(a@)),
            ExprKind::ArrayLit(a) => kind_view(k) == KindV::ArrayLit(views(a@)),
            _ => true,
        },
{
    match k {
        ExprKind::StructLit(n, f) => {
            assert(kind_view(k)->StructLit_1 =~= fields_v(f@));
        },
        ExprKind::Call(n, a) => {
            assert(kind_view(k)->Call_1 =~= views(a@));
        },
        ExprKind::MethodCall(r, n, a) => {
            assert(kind_view(k)->MethodCall_2 =~= views(a@));
        },
        ExprKind::ArrayLit(a) => {
            assert(kind_view(k)->ArrayLit_0 =~= views(a@));
        },
        _ => {},
    }
}

pub open spec fn opt_view<T: View>(x: Option<T>) -> Option<T::V> {
    match x {
        Some(v) => Some(v@),
        None => None,
    }
}

pub open spec fn opt_box(x: Option<Box<Expr>>) -> Option<Box<ExprV>> {
    match x {
        Some(v) => Some(Box::new((*v)@)),
        None => None,
    }
}

/// The value of an expression, one level deep.
pub proof fn expr_parts(e: Expr)
    ensures
        e@.line == e.line,
        e@.col == e.col,
        e@.kind == (match e.kind {
            ExprKind::Int(v) => KindV::Int(v),
            ExprKind::Float(s) => KindV::Float(s@),
            ExprKind::Bool(b) => KindV::Bool(b),
            ExprKind::Byte(b) => KindV::Byte(b),
            ExprKind::Bytes(b) => KindV::Bytes(b@),
            ExprKind::Var(n) => KindV::Var(n@),
            ExprKind::Binary(op, a, b) => KindV::Binary(op, Box::new((*a)@), Box::new((*b)@)),
            ExprKind::Unary(op, a) => KindV::Unary(op, Box::new((*a)@)),
            ExprKind::Index(a, b) => KindV::Index(Box::new((*a)@), Box::new((*b)@)),
            ExprKind::Field(a, n) => KindV::Field(Box::new((*a)@), n@),
            ExprKind::StructLit(n, f) => KindV::StructLit(n@, fields_v(f@)),
            ExprKind::Call(n, a) => KindV::Call(n@, views(a@)),
            ExprKind::MethodCall(r, n, a) => KindV::MethodCall(Box::new((*r)@), n@, views(a@)),
            ExprKind::Ref(a, m) => KindV::Ref(Box::new((*a)@), m),
            ExprKind::Cast(a, t) => KindV::Cast(Box::new((*a)@), t@),
            ExprKind::If(c, a, b) => KindV::If(Box::new((*c)@), a@, opt_view(b)),
            ExprKind::Block(b) => KindV::Block(b@),
            ExprKind::ArrayLit(a) => KindV::ArrayLit(views(a@)),
            ExprKind::ArrayRepeat(a, b) => KindV::ArrayRepeat(Box::new((*a)@), Box::new((*b)@)),
            ExprKind::Lambda(p, b) => KindV::Lambda(texts(p@), Box::new((*b)@)),
            ExprKind::Comprehension { elem, var, source, cond } => KindV::Comprehension {
                elem: Box::new((*elem)@),
                var: var@,
                source: Box::new((*source)@),
                cond: opt_box(cond),
            },
        }),
{
    assert(e@.kind == kind_view(e.kind));
    kind_lists(e.kind);
}

/// The value of a statement, one level deep.
pub proof fn stmt_parts(s: Stmt)
    ensures
        s@ == (match s {
            Stmt::Let { name, mutable, ty, init, line, col } => StmtV::Let {
                name: name@,
                mutable,
                ty: opt_view(ty),
                init: init@,
                line,
                col,
            },
            Stmt::Assign { target, op, value, line, col } => StmtV::Assign {
                target: target@,
                op,
                value: value@,
                line,
                col,
            },
            Stmt::For { var, start, end, body, line, col } => StmtV::For {
                var: var@,
                start: start@,
                end: end@,
                body: body@,
                line,
                col,
            },
            Stmt::While { cond, decreasing, body, line, col } => StmtV::While {
                cond: cond@,
                decreasing: opt_view(decreasing),
                body: body@,
                line,
                col,
            },
            Stmt::Break(l, c) => StmtV::Break(l, c),
            Stmt::Expr(e) => StmtV::Expr(e@),
            Stmt::Return(e, l, c) => StmtV::Return(opt_view(e), l, c),
        }),
{
}

/// The value of a type, one level deep.
pub proof fn type_parts(t: TypeExpr)
    ensures
        t@ == (match t {
            TypeExpr::Named(s) => TypeV::Named(s@),
            TypeExpr::Unit => TypeV::Unit,
            TypeExpr::Owned(e) => TypeV::Owned(Box::new((*e)@)),
            TypeExpr::Array(e, n) => TypeV::Array(Box::new((*e)@), Box::new((*n)@)),
            TypeExpr::Slice(e, m) => TypeV::Slice(Box::new((*e)@), m),
        }),
{
}

/// The statements inside a block are the list of its statements' values.
pub proof fn block_lists(b: Block)
    ensures
        b@.stmts == views(b.stmts@),
        b@.line == b.line,
        b@.col == b.col,
        b@.tail == (match b.tail {
            Some(e) => Some(Box::new((*e)@)),
            None => None,
        }),
{
    assert(b@.stmts =~= views(b.stmts@));
}

pub proof fn views_push<T: View>(s: Seq<T>, x: T)
    ensures
        views(s.push(x)) == views(s).push(x@),
{
    assert(views(s.push(x)) =~= views(s).push(x@));
}

pub proof fn views_empty<T: View>()
    ensures
        views(Seq::<T>::empty()) == Seq::<T::V>::empty(),
{
    assert(views(Seq::<T>::empty()) =~= Seq::<T::V>::empty());
}

} // verus!
