//! The typed IR. Names are resolved to local ids, every expression carries its type, and every
//! array- or slice-typed value carries a size — a constant or a size variable — because the
//! cost calculus is written over sizes. Nothing here is lowered yet; it is the tree, typed.

use vstd::prelude::*;
use crate::ast::{views, BinOp, Pair, PairV, UnOp};
use crate::text::{cat3, cat5, int_text, show_i64, texts};

verus! {

pub type LocalId = usize;

pub type FuncId = usize;

pub type SizeVar = usize;

pub type StructId = usize;

#[derive(Debug, Clone, Copy, PartialEq, Eq, Structural)]
pub enum Size {
    Const(i64),
    Var(SizeVar),
}

#[derive(Debug)]
pub enum Ty {
    I64,
    F64,
    Bool,
    U8,
    Unit,
    /// A struct of scalars, held by value.
    Struct(StructId),
    /// An owned array `[T; n]`. Only ever the type of a local.
    Array(Box<Ty>, Size),
    /// A view `&[T]` / `&mut [T]`. Carries the size of what it views.
    Slice(Box<Ty>, bool, Size),
}

impl Ty {
    pub open spec fn scalar(self) -> bool {
        self is I64 || self is F64 || self is Bool || self is U8
    }

    pub open spec fn numeric(self) -> bool {
        self is I64 || self is F64 || self is U8
    }

    pub open spec fn by_value(self) -> bool {
        self.scalar() || self is Struct
    }

    pub open spec fn arrayish(self) -> bool {
        self is Array || self is Slice
    }

    /// The type of the elements.
    pub open spec fn s_elem(self) -> Option<Ty> {
        match self {
            Ty::Array(t, _) => Some(*t),
            Ty::Slice(t, _, _) => Some(*t),
            _ => None,
        }
    }

    pub open spec fn s_size(self) -> Option<Size> {
        match self {
            Ty::Array(_, s) => Some(s),
            Ty::Slice(_, _, s) => Some(s),
            _ => None,
        }
    }

    /// Same shape, ignoring sizes: sizes are tracked, not enforced.
    pub open spec fn s_same_shape(self, o: Ty) -> bool
        decreases self,
    {
        match (self, o) {
            (Ty::Array(a, _), Ty::Array(b, _)) => a.s_same_shape(*b),
            (Ty::Slice(a, m1, _), Ty::Slice(b, m2, _)) => m1 == m2 && a.s_same_shape(*b),
            (a, b) => a == b,
        }
    }

    /// The type as messages show it.
    pub open spec fn text(self) -> Seq<char>
        decreases self,
    {
        match self {
            Ty::I64 => "i64"@,
            Ty::F64 => "f64"@,
            Ty::Bool => "bool"@,
            Ty::U8 => "u8"@,
            Ty::Unit => "()"@,
            Ty::Struct(_) => "struct"@,
            Ty::Array(t, Size::Const(n)) => "["@ + t.text() + "; "@ + int_text(n as int) + "]"@,
            Ty::Array(t, Size::Var(_)) => "["@ + t.text() + "; n]"@,
            Ty::Slice(t, m, _) => if m {
                "&mut ["@ + t.text() + "]"@
            } else {
                "&["@ + t.text() + "]"@
            },
        }
    }

    /// Every struct that the type names is one of the first `n`.
    pub open spec fn names_structs(self, n: int) -> bool
        decreases self,
    {
        match self {
            Ty::Struct(s) => s < n,
            Ty::Array(t, _) => t.names_structs(n),
            Ty::Slice(t, _, _) => t.names_structs(n),
            _ => true,
        }
    }

    pub fn copy(&self) -> (r: Ty)
        ensures
            r == *self,
        decreases self,
    {
        match self {
            Ty::I64 => Ty::I64,
            Ty::F64 => Ty::F64,
            Ty::Bool => Ty::Bool,
            Ty::U8 => Ty::U8,
            Ty::Unit => Ty::Unit,
            Ty::Struct(s) => Ty::Struct(*s),
            Ty::Array(t, s) => Ty::Array(Box::new(t.copy()), *s),
            Ty::Slice(t, m, s) => Ty::Slice(Box::new(t.copy()), *m, *s),
        }
    }

    /// Whether the two types are one, sizes included.
    pub fn same(&self, o: &Ty) -> (r: bool)
        ensures
            r == (*self == *o),
        decreases self,
    {
        match (self, o) {
            (Ty::I64, Ty::I64) => true,
            (Ty::F64, Ty::F64) => true,
            (Ty::Bool, Ty::Bool) => true,
            (Ty::U8, Ty::U8) => true,
            (Ty::Unit, Ty::Unit) => true,
            (Ty::Struct(a), Ty::Struct(b)) => *a == *b,
            (Ty::Array(a, s), Ty::Array(b, t)) => a.same(b) && *s == *t,
            (Ty::Slice(a, m, s), Ty::Slice(b, n, t)) => a.same(b) && *m == *n && *s == *t,
            _ => false,
        }
    }

    pub fn is_scalar(&self) -> (r: bool)
        ensures
            r == self.scalar(),
    {
        matches!(self, Ty::I64 | Ty::F64 | Ty::Bool | Ty::U8)
    }

    pub fn is_numeric(&self) -> (r: bool)
        ensures
            r == self.numeric(),
    {
        matches!(self, Ty::I64 | Ty::F64 | Ty::U8)
    }

    /// A scalar or a struct.
    pub fn is_value(&self) -> (r: bool)
        ensures
            r == self.by_value(),
    {
        matches!(self, Ty::I64 | Ty::F64 | Ty::Bool | Ty::U8 | Ty::Struct(_))
    }

    /// Bytes of one scalar of the type.
    pub fn elem_bytes(&self) -> (r: i128)
        ensures
            r == (if self is Bool || self is U8 { 1int } else { 8 }),
    {
        if matches!(self, Ty::Bool | Ty::U8) {
            1
        } else {
            8
        }
    }

    pub fn is_arrayish(&self) -> (r: bool)
        ensures
            r == self.arrayish(),
    {
        matches!(self, Ty::Array(..) | Ty::Slice(..))
    }

    pub fn elem(&self) -> (r: Option<&Ty>)
        ensures
            match r {
                Some(t) => self.s_elem() == Some(*t),
                None => self.s_elem() is None,
            },
    {
        match self {
            Ty::Array(t, _) => Some(t),
            Ty::Slice(t, _, _) => Some(t),
            _ => None,
        }
    }

    pub fn size(&self) -> (r: Option<&Size>)
        ensures
            match r {
                Some(s) => self.s_size() == Some(*s),
                None => self.s_size() is None,
            },
    {
        match self {
            Ty::Array(_, s) => Some(s),
            Ty::Slice(_, _, s) => Some(s),
            _ => None,
        }
    }

    /// Same shape, ignoring sizes: sizes are tracked, not enforced, for now.
    pub fn same_shape(&self, other: &Ty) -> (r: bool)
        ensures
            r == self.s_same_shape(*other),
        decreases self,
    {
        match (self, other) {
            (Ty::Array(a, _), Ty::Array(b, _)) => a.same_shape(b),
            (Ty::Slice(a, m1, _), Ty::Slice(b, m2, _)) => *m1 == *m2 && a.same_shape(b),
            (a, b) => a.same(b),
        }
    }

    /// The type as messages show it.
    pub fn to_string(&self) -> (r: String)
        ensures
            r@ == self.text(),
        decreases self,
    {
        match self {
            Ty::I64 => "i64".to_owned(),
            Ty::F64 => "f64".to_owned(),
            Ty::Bool => "bool".to_owned(),
            Ty::U8 => "u8".to_owned(),
            Ty::Unit => "()".to_owned(),
            Ty::Struct(_) => "struct".to_owned(),
            Ty::Array(t, Size::Const(n)) => cat5("[", &t.to_string(), "; ", &show_i64(*n), "]"),
            Ty::Array(t, Size::Var(_)) => cat3("[", &t.to_string(), "; n]"),
            Ty::Slice(t, m, _) => {
                if *m {
                    cat3("&mut [", &t.to_string(), "]")
                } else {
                    cat3("&[", &t.to_string(), "]")
                }
            },
        }
    }
}

#[derive(Debug)]
pub struct Module {
    pub funcs: Vec<Func>,
    pub structs: Vec<StructDef>,
}

/// Whether the elements of an array of structs lie whole, one after the other, or each field in
/// an array of its own.
#[derive(Debug, Clone, Copy, PartialEq, Eq, Structural)]
pub enum Layout {
    Aos,
    Soa,
}

#[derive(Debug)]
pub struct StructDef {
    pub name: String,
    pub fields: Vec<(String, Ty)>,
    pub layout: Layout,
    /// the program fixed the layout
    pub fixed: bool,
}

#[derive(Debug)]
pub struct Func {
    pub name: String,
    pub params: Vec<LocalId>,
    pub ret: Ty,
    pub locals: Vec<Local>,
    pub sizes: Vec<SizeInfo>,
    /// `None` for a declaration
    pub body: Option<Block>,
    /// declared effects
    pub uses: Vec<String>,
    /// `#[cost(...)]` bounds
    pub asserts: Vec<Pair>,
    pub line: u32,
}

#[derive(Debug)]
pub struct Local {
    pub name: String,
    pub ty: Ty,
    pub mutable: bool,
}

/// What a size variable is called when it appears in a report: `a.len()`, `n`, or a generated
/// name when it came from an expression with no name of its own.
#[derive(Debug)]
pub struct SizeInfo {
    pub name: String,
}

#[derive(Debug)]
pub struct Block {
    pub stmts: Vec<Stmt>,
    pub tail: Option<Box<Expr>>,
    pub ty: Ty,
}

#[derive(Debug)]
pub enum Stmt {
    Let(LocalId, Expr),
    /// `let xs = [e; n]` — the array is built in place, `n` is evaluated once.
    LetRepeat(LocalId, Expr, Expr),
    /// `let xs = [a, b, c]`
    LetArray(LocalId, Vec<Expr>),
    /// `let ys = [e for x in xs]`: an array of `len` elements, element `k` computed by `body`
    /// with `var` bound to `k`. One pass, no intermediate.
    LetBuild { id: LocalId, len: Expr, var: LocalId, body: Block },
    Assign(LValue, Option<BinOp>, Expr),
    For { var: LocalId, start: Expr, end: Expr, body: Block },
    /// `decreasing` is the programmer's measure, when the compiler needs one.
    While { cond: Expr, decreasing: Option<Expr>, body: Block, line: u32 },
    Break,
    Expr(Expr),
    Return(Option<Expr>),
}

#[derive(Debug)]
pub enum LValue {
    Var(LocalId),
    Index(LocalId, Expr, u32),
    /// `v.f`
    Field(LocalId, usize),
    /// `xs[i].f`
    IndexField(LocalId, Expr, usize, u32),
}

#[derive(Debug)]
pub struct Expr {
    pub kind: ExprKind,
    pub ty: Ty,
    pub line: u32,
}

#[derive(Debug)]
pub enum ExprKind {
    Int(i64),
    /// the digits of a float literal
    Float(String),
    Bool(bool),
    Byte(u8),
    Local(LocalId),
    Binary(BinOp, Box<Expr>, Box<Expr>),
    Unary(UnOp, Box<Expr>),
    Index(LocalId, Box<Expr>),
    Field(Box<Expr>, usize),
    StructLit(StructId, Vec<Expr>),
    Call(FuncId, Vec<Expr>),
    Println(Box<Expr>),
    Len(LocalId),
    /// A view of a local array or a reborrow of a local slice.
    Ref(LocalId, bool),
    Cast(Box<Expr>, Ty),
    /// `min(a, b)` / `max(a, b)`
    MinMax(bool, Box<Expr>, Box<Expr>),
    If(Box<Expr>, Block, Option<Block>),
    Block(Block),
}

// ---- the IR as a value ----

pub struct ModuleV {
    pub funcs: Seq<FuncV>,
    pub structs: Seq<StructDefV>,
}

pub struct StructDefV {
    pub name: Seq<char>,
    pub fields: Seq<(Seq<char>, Ty)>,
    pub layout: Layout,
    pub fixed: bool,
}

pub struct FuncV {
    pub name: Seq<char>,
    pub params: Seq<LocalId>,
    pub ret: Ty,
    pub locals: Seq<LocalV>,
    pub sizes: Seq<Seq<char>>,
    pub body: Option<BlockV>,
    pub uses: Seq<Seq<char>>,
    pub asserts: Seq<PairV>,
    pub line: u32,
}

pub struct LocalV {
    pub name: Seq<char>,
    pub ty: Ty,
    pub mutable: bool,
}

pub struct BlockV {
    pub stmts: Seq<StmtV>,
    pub tail: Option<Box<ExprV>>,
    pub ty: Ty,
}

pub enum StmtV {
    Let(LocalId, ExprV),
    LetRepeat(LocalId, ExprV, ExprV),
    LetArray(LocalId, Seq<ExprV>),
    LetBuild { id: LocalId, len: ExprV, var: LocalId, body: BlockV },
    Assign(LValueV, Option<BinOp>, ExprV),
    For { var: LocalId, start: ExprV, end: ExprV, body: BlockV },
    While { cond: ExprV, decreasing: Option<ExprV>, body: BlockV, line: u32 },
    Break,
    Expr(ExprV),
    Return(Option<ExprV>),
}

pub enum LValueV {
    Var(LocalId),
    Index(LocalId, ExprV, u32),
    Field(LocalId, usize),
    IndexField(LocalId, ExprV, usize, u32),
}

pub struct ExprV {
    pub kind: KindV,
    pub ty: Ty,
    pub line: u32,
}

pub enum KindV {
    Int(i64),
    Float(Seq<char>),
    Bool(bool),
    Byte(u8),
    Local(LocalId),
    Binary(BinOp, Box<ExprV>, Box<ExprV>),
    Unary(UnOp, Box<ExprV>),
    Index(LocalId, Box<ExprV>),
    Field(Box<ExprV>, usize),
    StructLit(StructId, Seq<ExprV>),
    Call(FuncId, Seq<ExprV>),
    Println(Box<ExprV>),
    Len(LocalId),
    Ref(LocalId, bool),
    Cast(Box<ExprV>, Ty),
    MinMax(bool, Box<ExprV>, Box<ExprV>),
    If(Box<ExprV>, BlockV, Option<BlockV>),
    Block(BlockV),
}

pub open spec fn block_view(b: Block) -> BlockV
    decreases b,
{
    BlockV {
        stmts: Seq::new(
            b.stmts@.len(),
            |i: int|
                if 0 <= i < b.stmts@.len() {
                    stmt_view(b.stmts@[i])
                } else {
                    arbitrary()
                },
        ),
        tail: match b.tail {
            Some(e) => Some(Box::new(expr_view(*e))),
            None => None,
        },
        ty: b.ty,
    }
}

pub open spec fn stmt_view(s: Stmt) -> StmtV
    decreases s,
{
    match s {
        Stmt::Let(id, e) => StmtV::Let(id, expr_view(e)),
        Stmt::LetRepeat(id, e, n) => StmtV::LetRepeat(id, expr_view(e), expr_view(n)),
        Stmt::LetArray(id, a) => StmtV::LetArray(
            id,
            Seq::new(
                a@.len(),
                |i: int|
                    if 0 <= i < a@.len() {
                        expr_view(a@[i])
                    } else {
                        arbitrary()
                    },
            ),
        ),
        Stmt::LetBuild { id, len, var, body } => StmtV::LetBuild {
            id,
            len: expr_view(len),
            var,
            body: block_view(body),
        },
        Stmt::Assign(lv, op, e) => StmtV::Assign(lvalue_view(lv), op, expr_view(e)),
        Stmt::For { var, start, end, body } => StmtV::For {
            var,
            start: expr_view(start),
            end: expr_view(end),
            body: block_view(body),
        },
        Stmt::While { cond, decreasing, body, line } => StmtV::While {
            cond: expr_view(cond),
            decreasing: match decreasing {
                Some(e) => Some(expr_view(e)),
                None => None,
            },
            body: block_view(body),
            line,
        },
        Stmt::Break => StmtV::Break,
        Stmt::Expr(e) => StmtV::Expr(expr_view(e)),
        Stmt::Return(e) => StmtV::Return(
            match e {
                Some(x) => Some(expr_view(x)),
                None => None,
            },
        ),
    }
}

pub open spec fn lvalue_view(l: LValue) -> LValueV
    decreases l,
{
    match l {
        LValue::Var(id) => LValueV::Var(id),
        LValue::Index(id, e, line) => LValueV::Index(id, expr_view(e), line),
        LValue::Field(id, f) => LValueV::Field(id, f),
        LValue::IndexField(id, e, f, line) => LValueV::IndexField(id, expr_view(e), f, line),
    }
}

pub open spec fn expr_view(e: Expr) -> ExprV
    decreases e,
{
    ExprV { kind: kind_view(e.kind), ty: e.ty, line: e.line }
}

pub open spec fn kind_view(k: ExprKind) -> KindV
    decreases k,
{
    match k {
        ExprKind::Int(v) => KindV::Int(v),
        ExprKind::Float(s) => KindV::Float(s@),
        ExprKind::Bool(b) => KindV::Bool(b),
        ExprKind::Byte(b) => KindV::Byte(b),
        ExprKind::Local(l) => KindV::Local(l),
        ExprKind::Binary(op, a, b) => KindV::Binary(op, Box::new(expr_view(*a)), Box::new(expr_view(*b))),
        ExprKind::Unary(op, a) => KindV::Unary(op, Box::new(expr_view(*a))),
        ExprKind::Index(l, a) => KindV::Index(l, Box::new(expr_view(*a))),
        ExprKind::Field(a, f) => KindV::Field(Box::new(expr_view(*a)), f),
        ExprKind::StructLit(s, a) => KindV::StructLit(
            s,
            Seq::new(
                a@.len(),
                |i: int|
                    if 0 <= i < a@.len() {
                        expr_view(a@[i])
                    } else {
                        arbitrary()
                    },
            ),
        ),
        ExprKind::Call(f, a) => KindV::Call(
            f,
            Seq::new(
                a@.len(),
                |i: int|
                    if 0 <= i < a@.len() {
                        expr_view(a@[i])
                    } else {
                        arbitrary()
                    },
            ),
        ),
        ExprKind::Println(a) => KindV::Println(Box::new(expr_view(*a))),
        ExprKind::Len(l) => KindV::Len(l),
        ExprKind::Ref(l, m) => KindV::Ref(l, m),
        ExprKind::Cast(a, t) => KindV::Cast(Box::new(expr_view(*a)), t),
        ExprKind::MinMax(m, a, b) => KindV::MinMax(m, Box::new(expr_view(*a)), Box::new(expr_view(*b))),
        ExprKind::If(c, a, b) => KindV::If(
            Box::new(expr_view(*c)),
            block_view(a),
            match b {
                Some(x) => Some(block_view(x)),
                None => None,
            },
        ),
        ExprKind::Block(b) => KindV::Block(block_view(b)),
    }
}

impl View for Block {
    type V = BlockV;

    open spec fn view(&self) -> BlockV {
        block_view(*self)
    }
}

impl View for Stmt {
    type V = StmtV;

    open spec fn view(&self) -> StmtV {
        stmt_view(*self)
    }
}

impl View for LValue {
    type V = LValueV;

    open spec fn view(&self) -> LValueV {
        lvalue_view(*self)
    }
}

impl View for Expr {
    type V = ExprV;

    open spec fn view(&self) -> ExprV {
        expr_view(*self)
    }
}

impl View for Local {
    type V = LocalV;

    open spec fn view(&self) -> LocalV {
        LocalV { name: self.name@, ty: self.ty, mutable: self.mutable }
    }
}

impl View for SizeInfo {
    type V = Seq<char>;

    open spec fn view(&self) -> Seq<char> {
        self.name@
    }
}

pub open spec fn struct_fields_v(s: Seq<(String, Ty)>) -> Seq<(Seq<char>, Ty)> {
    Seq::new(s.len(), |i: int| (s[i].0@, s[i].1))
}

impl View for StructDef {
    type V = StructDefV;

    open spec fn view(&self) -> StructDefV {
        StructDefV {
            name: self.name@,
            fields: struct_fields_v(self.fields@),
            layout: self.layout,
            fixed: self.fixed,
        }
    }
}

impl View for Func {
    type V = FuncV;

    open spec fn view(&self) -> FuncV {
        FuncV {
            name: self.name@,
            params: self.params@,
            ret: self.ret,
            locals: views(self.locals@),
            sizes: views(self.sizes@),
            body: match self.body {
                Some(b) => Some(b@),
                None => None,
            },
            uses: texts(self.uses@),
            asserts: views(self.asserts@),
            line: self.line,
        }
    }
}

impl View for Module {
    type V = ModuleV;

    open spec fn view(&self) -> ModuleV {
        ModuleV { funcs: views(self.funcs@), structs: views(self.structs@) }
    }
}

/// The lists inside an expression are the lists of its parts' values.
pub proof fn kind_lists(k: ExprKind)
    ensures
        match k {
            ExprKind::StructLit(n, a) => kind_view(k) == KindV::StructLit(n, views(a@)),
            ExprKind::Call(n, a) => kind_view(k) == KindV::Call(n, views(a@)),
            _ => true,
        },
{
    match k {
        ExprKind::StructLit(n, a) => {
            assert(kind_view(k)->StructLit_1 =~= views(a@));
        },
        ExprKind::Call(n, a) => {
            assert(kind_view(k)->Call_1 =~= views(a@));
        },
        _ => {},
    }
}

pub proof fn stmt_lists(s: Stmt)
    ensures
        match s {
            Stmt::LetArray(id, a) => s@ == StmtV::LetArray(id, views(a@)),
            _ => true,
        },
{
    match s {
        Stmt::LetArray(id, a) => {
            assert(s@->LetArray_1 =~= views(a@));
        },
        _ => {},
    }
}

pub open spec fn opt_view<T: View>(x: Option<T>) -> Option<T::V> {
    match x {
        Some(v) => Some(v@),
        None => None,
    }
}

/// The value of an expression, one level deep.
pub proof fn expr_parts(e: Expr)
    ensures
        e@.ty == e.ty,
        e@.line == e.line,
        e@.kind == (match e.kind {
            ExprKind::Int(v) => KindV::Int(v),
            ExprKind::Float(s) => KindV::Float(s@),
            ExprKind::Bool(b) => KindV::Bool(b),
            ExprKind::Byte(b) => KindV::Byte(b),
            ExprKind::Local(l) => KindV::Local(l),
            ExprKind::Binary(op, a, b) => KindV::Binary(op, Box::new((*a)@), Box::new((*b)@)),
            ExprKind::Unary(op, a) => KindV::Unary(op, Box::new((*a)@)),
            ExprKind::Index(l, a) => KindV::Index(l, Box::new((*a)@)),
            ExprKind::Field(a, f) => KindV::Field(Box::new((*a)@), f),
            ExprKind::StructLit(s, a) => KindV::StructLit(s, views(a@)),
            ExprKind::Call(f, a) => KindV::Call(f, views(a@)),
            ExprKind::Println(a) => KindV::Println(Box::new((*a)@)),
            ExprKind::Len(l) => KindV::Len(l),
            ExprKind::Ref(l, m) => KindV::Ref(l, m),
            ExprKind::Cast(a, t) => KindV::Cast(Box::new((*a)@), t),
            ExprKind::MinMax(m, a, b) => KindV::MinMax(m, Box::new((*a)@), Box::new((*b)@)),
            ExprKind::If(c, a, b) => KindV::If(Box::new((*c)@), a@, opt_view(b)),
            ExprKind::Block(b) => KindV::Block(b@),
        }),
{
    assert(e@.kind == kind_view(e.kind));
    kind_lists(e.kind);
}

/// The value of a statement, one level deep.
pub proof fn stmt_parts(s: Stmt)
    ensures
        s@ == (match s {
            Stmt::Let(id, e) => StmtV::Let(id, e@),
            Stmt::LetRepeat(id, e, n) => StmtV::LetRepeat(id, e@, n@),
            Stmt::LetArray(id, a) => StmtV::LetArray(id, views(a@)),
            Stmt::LetBuild { id, len, var, body } => StmtV::LetBuild { id, len: len@, var, body: body@ },
            Stmt::Assign(lv, op, e) => StmtV::Assign(lv@, op, e@),
            Stmt::For { var, start, end, body } => StmtV::For { var, start: start@, end: end@, body: body@ },
            Stmt::While { cond, decreasing, body, line } => StmtV::While {
                cond: cond@,
                decreasing: opt_view(decreasing),
                body: body@,
                line,
            },
            Stmt::Break => StmtV::Break,
            Stmt::Expr(e) => StmtV::Expr(e@),
            Stmt::Return(e) => StmtV::Return(opt_view(e)),
        }),
{
    stmt_lists(s);
}

/// The value of an assignment's target, one level deep.
pub proof fn lvalue_parts(l: LValue)
    ensures
        l@ == (match l {
            LValue::Var(id) => LValueV::Var(id),
            LValue::Index(id, e, line) => LValueV::Index(id, e@, line),
            LValue::Field(id, f) => LValueV::Field(id, f),
            LValue::IndexField(id, e, f, line) => LValueV::IndexField(id, e@, f, line),
        }),
{
}

pub open spec fn tail_v(t: Option<Box<Expr>>) -> Option<Box<ExprV>> {
    match t {
        Some(e) => Some(Box::new((*e)@)),
        None => None,
    }
}

/// The statements inside a block are the list of its statements' values.
pub proof fn block_lists(b: Block)
    ensures
        b@ == (BlockV { stmts: views(b.stmts@), tail: tail_v(b.tail), ty: b.ty }),
{
    assert(b@.stmts =~= views(b.stmts@));
}

/// The first field of that name.
pub open spec fn field_index(f: Seq<(Seq<char>, Ty)>, name: Seq<char>, from: int) -> Option<usize>
    decreases f.len() - from,
{
    if from < 0 || from >= f.len() {
        None
    } else if f[from].0 == name {
        Some(from as usize)
    } else {
        field_index(f, name, from + 1)
    }
}

impl StructDef {
    /// The index of the field of that name.
    pub fn field(&self, name: &String) -> (r: Option<usize>)
        ensures
            r == field_index(self@.fields, name@, 0),
            r is Some ==> r->0 < self.fields@.len(),
    {
        let mut i: usize = 0;
        while i < self.fields.len()
            invariant
                i <= self.fields@.len(),
                field_index(self@.fields, name@, 0) == field_index(self@.fields, name@, i as int),
            decreases self.fields@.len() - i,
        {
            if self.fields[i].0 == *name {
                return Some(i);
            }
            i += 1;
        }
        None
    }
}

} // verus!
