//! Recursive descent with precedence climbing.

use vstd::prelude::*;
use crate::decimals::show_plain;
use crate::ast::{
    block_lists, fields_v, kind_lists, views, views_empty, views_push, BinOp, Block, Expr, ExprKind, ExprV, FieldDef,
    Func, Pair, PairV, Param, Program, ProgramV, Stmt, StructDef, TypeExpr, UnOp,
};
use crate::diag::{diag, Diag, DiagV};
use crate::grammar::{
    ended, operator, s_after_expr, s_args, s_asserts, s_attr, s_attr_words, s_attrs, s_block, s_casts,
    s_closure_params, s_comprehension, s_describe, s_elems, s_field_defs, s_fields, s_for, s_func, s_head, s_if,
    s_item, s_items, s_layout, s_let, s_level, s_params, s_parse, s_postfix, s_primary, s_program, s_rest, s_struct,
    s_type, s_unary, s_uses, s_while, spelling, struct_names, AttrV, HeadV, ItemV, Source,
};
use crate::lex::{tokens_v, Tok, TokV, Token};
use crate::text::{cat2, cat3, cat4, copy_text, has_text, show_i64, texts};

verus! {

/// An attribute.
struct Attr {
    name: String,
    pairs: Vec<Pair>,
    words: Vec<String>,
    line: u32,
    col: u32,
}

impl View for Attr {
    type V = AttrV;

    closed spec fn view(&self) -> AttrV {
        AttrV {
            name: self.name@,
            pairs: views(self.pairs@),
            words: texts(self.words@),
            line: self.line,
            col: self.col,
        }
    }
}

/// What stands between a function's name and its body.
struct Head {
    name: String,
    params: Vec<Param>,
    ret: TypeExpr,
    uses: Vec<String>,
}

impl View for Head {
    type V = HeadV;

    closed spec fn view(&self) -> HeadV {
        HeadV { name: self.name@, params: views(self.params@), ret: self.ret@, uses: texts(self.uses@) }
    }
}

/// A statement, or the value of a block.
enum Item {
    Stmt(Stmt),
    Tail(Expr),
}

impl View for Item {
    type V = ItemV;

    closed spec fn view(&self) -> ItemV {
        match *self {
            Item::Stmt(s) => ItemV::Stmt(s@),
            Item::Tail(e) => ItemV::Tail(e@),
        }
    }
}

struct Parser {
    toks: Vec<Token>,
    struct_names: Vec<String>,
}

/// What came back is what the grammar says stands at `p`.
spec fn reads<T: View>(r: Result<(T, usize), Diag>, s: Result<(T::V, int), DiagV>, p: int, n: int) -> bool {
    match r {
        Ok(x) => s == Ok::<(T::V, int), DiagV>((x.0@, x.1 as int)) && p < x.1 < n,
        Err(d) => s == Err::<(T::V, int), DiagV>(d@),
    }
}

/// The same, for a construct that may be empty.
spec fn reads_on<T: View>(r: Result<(T, usize), Diag>, s: Result<(T::V, int), DiagV>, p: int, n: int) -> bool {
    match r {
        Ok(x) => s == Ok::<(T::V, int), DiagV>((x.0@, x.1 as int)) && p <= x.1 < n,
        Err(d) => s == Err::<(T::V, int), DiagV>(d@),
    }
}

/// The same, for a list.
spec fn reads_list<T: View>(r: Result<(Vec<T>, usize), Diag>, s: Result<(Seq<T::V>, int), DiagV>, p: int, n: int) -> bool {
    match r {
        Ok(x) => s == Ok::<(Seq<T::V>, int), DiagV>((views(x.0@), x.1 as int)) && p <= x.1 < n,
        Err(d) => s == Err::<(Seq<T::V>, int), DiagV>(d@),
    }
}

fn spelling_of(k: &Tok) -> (r: &'static str)
    ensures
        r@ == spelling(k@),
{
    match k {
        Tok::Fn => "fn",
        Tok::Let => "let",
        Tok::Mut => "mut",
        Tok::If => "if",
        Tok::Else => "else",
        Tok::For => "for",
        Tok::In => "in",
        Tok::Return => "return",
        Tok::True => "true",
        Tok::False => "false",
        Tok::As => "as",
        Tok::While => "while",
        Tok::Break => "break",
        Tok::Decreasing => "decreasing",
        Tok::Extern => "extern",
        Tok::Uses => "uses",
        Tok::Struct => "struct",
        Tok::LParen => "(",
        Tok::RParen => ")",
        Tok::LBracket => "[",
        Tok::RBracket => "]",
        Tok::LBrace => "{",
        Tok::RBrace => "}",
        Tok::Comma => ",",
        Tok::Semi => ";",
        Tok::Colon => ":",
        Tok::Arrow => "->",
        Tok::Dot => ".",
        Tok::DotDot => "..",
        Tok::Eq => "=",
        Tok::EqEq => "==",
        Tok::Ne => "!=",
        Tok::Lt => "<",
        Tok::Le => "<=",
        Tok::Gt => ">",
        Tok::Ge => ">=",
        Tok::Plus => "+",
        Tok::Minus => "-",
        Tok::Star => "*",
        Tok::Slash => "/",
        Tok::Percent => "%",
        Tok::PlusEq => "+=",
        Tok::MinusEq => "-=",
        Tok::StarEq => "*=",
        Tok::SlashEq => "/=",
        Tok::Amp => "&",
        Tok::AmpAmp => "&&",
        Tok::Pipe => "|",
        Tok::PipePipe => "||",
        Tok::Bang => "!",
        Tok::Hash => "#",
        _ => "?",
    }
}

/// A token as a message shows it.
fn describe(k: &Tok) -> (r: String)
    ensures
        r@ == s_describe(k@),
{
    proof {
        reveal(s_describe);
    }
    match k {
        Tok::Ident(s) => cat3("`", s, "`"),
        Tok::Int(v) => cat3("`", &show_i64(*v), "`"),
        Tok::Float(s) => cat3("`", &show_plain(s), "`"),
        Tok::Byte(v) => {
            let mut c = String::new();
            c.push(*v as char);
            proof {
                assert(c@ =~= seq![*v as char]);
            }
            cat3("`b'", &c, "'`")
        },
        Tok::Bytes(_) => "a byte string".to_owned(),
        Tok::Str(_) => "a string".to_owned(),
        Tok::Eof => "end of file".to_owned(),
        _ => cat3("`", spelling_of(k), "`"),
    }
}

fn copy_bytes(v: &Vec<u8>) -> (r: Vec<u8>)
    ensures
        r@ == v@,
{
    let mut out: Vec<u8> = Vec::new();
    let mut i: usize = 0;
    while i < v.len()
        invariant
            i <= v@.len(),
            out@ == v@.take(i as int),
        decreases v@.len() - i,
    {
        out.push(v[i]);
        proof {
            assert(v@.take(i + 1) =~= v@.take(i as int).push(v@[i as int]));
        }
        i += 1;
    }
    proof {
        assert(v@.take(i as int) =~= v@);
    }
    out
}

proof fn texts_push(s: Seq<String>, x: String)
    ensures
        texts(s.push(x)) == texts(s).push(x@),
{
    assert(texts(s.push(x)) =~= texts(s).push(x@));
}

proof fn texts_empty()
    ensures
        texts(Seq::empty()) == Seq::<Seq<char>>::empty(),
{
    assert(texts(Seq::empty()) =~= Seq::<Seq<char>>::empty());
}

impl Parser {
    spec fn src(&self) -> Source {
        Source { t: tokens_v(self.toks@), structs: texts(self.struct_names@) }
    }

    spec fn n(&self) -> int {
        self.toks@.len() as int
    }

    /// The tokens end with the end-of-file token, and `p` is one of them.
    spec fn on(&self, p: int) -> bool {
        &&& ended(self.src().t)
        &&& 0 <= p < self.n()
    }

    fn next(&self, p: usize) -> (r: usize)
        requires
            self.on(p as int),
        ensures
            r == self.src().next(p as int),
            self.on(r as int),
            p <= r,
            self.src().tok(p as int) != TokV::Eof ==> r == p + 1,
    {
        proof {
            let t = self.src().t;
            assert(t.last() == t[t.len() - 1]);
        }
        if p < self.toks.len() - 1 {
            p + 1
        } else {
            p
        }
    }

    fn peek(&self, p: usize) -> (r: &Tok)
        requires
            self.on(p as int),
        ensures
            r@ == self.src().tok(p as int),
    {
        &self.toks[p].tok
    }

    fn fail(&self, p: usize, msg: String) -> (r: Diag)
        requires
            self.on(p as int),
        ensures
            r@ == (DiagV { line: self.src().t[p as int].line, col: self.src().t[p as int].col, msg: msg@ }),
    {
        Diag { line: self.toks[p].line, col: self.toks[p].col, msg }
    }

    fn expected(&self, p: usize, what: &str) -> (r: Diag)
        requires
            self.on(p as int),
        ensures
            r@ == (DiagV {
                line: self.src().t[p as int].line,
                col: self.src().t[p as int].col,
                msg: "expected "@ + what@ + ", found "@ + s_describe(self.src().tok(p as int)),
            }),
    {
        self.fail(p, cat4("expected ", what, ", found ", &describe(self.peek(p))))
    }

    /// The token after `p`, where `p` holds what was wanted.
    fn take(&self, p: usize, found: bool, k: Ghost<TokV>, what: &str) -> (r: Result<usize, Diag>)
        requires
            self.on(p as int),
            found == (self.src().tok(p as int) == k@),
            k@ != TokV::Eof,
        ensures
            match r {
                Ok(q) => self.src().want(p as int, k@, what@) == Ok::<int, DiagV>(q as int) && q == p + 1 && self.on(
                    q as int,
                ),
                Err(d) => self.src().want(p as int, k@, what@) == Err::<int, DiagV>(d@),
            },
    {
        if found {
            Ok(self.next(p))
        } else {
            Err(self.expected(p, what))
        }
    }

    fn ident(&self, p: usize, what: &str) -> (r: Result<(String, usize), Diag>)
        requires
            self.on(p as int),
        ensures
            match r {
                Ok(x) => self.src().name(p as int, what@) == Ok::<(Seq<char>, int), DiagV>((x.0@, x.1 as int)) && x.1
                    == p + 1 && self.on(x.1 as int),
                Err(d) => self.src().name(p as int, what@) == Err::<(Seq<char>, int), DiagV>(d@),
            },
    {
        match self.peek(p) {
            Tok::Ident(s) => Ok((copy_text(s), self.next(p))),
            _ => Err(self.expected(p, what)),
        }
    }

    fn mk(&self, p: usize, kind: ExprKind) -> (r: Expr)
        requires
            self.on(p as int),
        ensures
            r@ == self.src().expr_at(p as int, crate::ast::kind_view(kind)),
    {
        Expr { kind, line: self.toks[p].line, col: self.toks[p].col }
    }

    fn type_expr(&self, p: usize, lit: bool) -> (r: Result<(TypeExpr, usize), Diag>)
        requires
            self.on(p as int),
        ensures
            reads(r, s_type(self.src(), p as int, lit), p as int, self.n()),
        decreases self.n() - p, 0int,
    {
        match self.peek(p) {
            Tok::Ident(s) => Ok((TypeExpr::Named(copy_text(s)), self.next(p))),
            Tok::LParen => {
                let p1: usize = self.next(p);
                let q = match self.take(p1, matches!(self.peek(p1), Tok::RParen), Ghost(TokV::RParen), "`)`") {
                    Ok(x) => x,
                    Err(d) => {
                        return Err(d);
                    },
                };
                Ok((TypeExpr::Unit, q))
            },
            Tok::LBracket => {
                let p1: usize = self.next(p);
                let (elem, p2) = match self.type_expr(p1, lit) {
                    Ok(x) => x,
                    Err(d) => {
                        return Err(d);
                    },
                };
                if matches!(self.peek(p2), Tok::RBracket) {
                    return Ok((TypeExpr::Owned(Box::new(elem)), self.next(p2)));
                }
                let p3 = match self.take(p2, matches!(self.peek(p2), Tok::Semi), Ghost(TokV::Semi), "`;` in array type") {
                    Ok(x) => x,
                    Err(d) => {
                        return Err(d);
                    },
                };
                let (n, p4) = match self.level(p3, lit, 0) {
                    Ok(x) => x,
                    Err(d) => {
                        return Err(d);
                    },
                };
                let q = match self.take(p4, matches!(self.peek(p4), Tok::RBracket), Ghost(TokV::RBracket), "`]`") {
                    Ok(x) => x,
                    Err(d) => {
                        return Err(d);
                    },
                };
                Ok((TypeExpr::Array(Box::new(elem), Box::new(n)), q))
            },
            Tok::Amp => {
                let p1: usize = self.next(p);
                let mutable: bool = matches!(self.peek(p1), Tok::Mut);
                let p2: usize = if mutable {
                    self.next(p1)
                } else {
                    p1
                };
                let p3 = match self.take(p2, matches!(self.peek(p2), Tok::LBracket), Ghost(TokV::LBracket), "`[` after `&`") {
                    Ok(x) => x,
                    Err(d) => {
                        return Err(d);
                    },
                };
                let (elem, p4) = match self.type_expr(p3, lit) {
                    Ok(x) => x,
                    Err(d) => {
                        return Err(d);
                    },
                };
                let q = match self.take(p4, matches!(self.peek(p4), Tok::RBracket), Ghost(TokV::RBracket), "`]`") {
                    Ok(x) => x,
                    Err(d) => {
                        return Err(d);
                    },
                };
                Ok((TypeExpr::Slice(Box::new(elem), mutable), q))
            },
            k => Err(self.fail(p, cat2("expected a type, found ", &describe(k)))),
        }
    }

    fn block(&self, p: usize, lit: bool) -> (r: Result<(Block, usize), Diag>)
        requires
            self.on(p as int),
        ensures
            reads(r, s_block(self.src(), p as int, lit), p as int, self.n()),
        decreases self.n() - p, 0int,
    {
        let p1 = match self.take(p, matches!(self.peek(p), Tok::LBrace), Ghost(TokV::LBrace), "`{`") {
            Ok(x) => x,
            Err(d) => {
                return Err(d);
            },
        };
        self.items(p1, lit, p)
    }

    #[verifier::loop_isolation(false)]
    fn items(&self, p: usize, lit: bool, open: usize) -> (r: Result<(Block, usize), Diag>)
        requires
            self.on(p as int),
            self.on(open as int),
        ensures
            reads(r, s_items(self.src(), p as int, lit, Seq::empty(), open as int), p as int, self.n()),
        decreases self.n() - p, 23int,
    {
        let ghost g = self.src();
        let line: u32 = self.toks[open].line;
        let col: u32 = self.toks[open].col;
        let mut stmts: Vec<Stmt> = Vec::new();
        let mut at: usize = p;
        proof {
            views_empty::<Stmt>();
        }
        loop
            invariant
                self.on(at as int),
                p <= at,
                s_items(g, p as int, lit, Seq::empty(), open as int) == s_items(
                    g,
                    at as int,
                    lit,
                    views(stmts@),
                    open as int,
                ),
            decreases self.n() - at,
        {
            if matches!(self.peek(at), Tok::RBrace) {
                let b = Block { stmts, tail: None, line, col };
                proof {
                    block_lists(b);
                }
                return Ok((b, self.next(at)));
            }
            if matches!(self.peek(at), Tok::Eof) {
                return Err(diag(line, col, "unclosed `{`"));
            }
            let (it, q) = match self.item(at, lit) {
                Ok(x) => x,
                Err(d) => {
                    return Err(d);
                },
            };
            match it {
                Item::Stmt(s) => {
                    proof {
                        views_push(stmts@, s);
                    }
                    stmts.push(s);
                    at = q;
                },
                Item::Tail(e) => {
                    let z = match self.take(q, matches!(self.peek(q), Tok::RBrace), Ghost(TokV::RBrace), "`}`") {
                        Ok(x) => x,
                        Err(d) => {
                            return Err(d);
                        },
                    };
                    let b = Block { stmts, tail: Some(Box::new(e)), line, col };
                    proof {
                        block_lists(b);
                    }
                    return Ok((b, z));
                },
            }
        }
    }

    fn item(&self, p: usize, lit: bool) -> (r: Result<(Item, usize), Diag>)
        requires
            self.on(p as int),
        ensures
            reads(r, s_item(self.src(), p as int, lit), p as int, self.n()),
        decreases self.n() - p, 22int,
    {
        let line: u32 = self.toks[p].line;
        let col: u32 = self.toks[p].col;
        let p1: usize = self.next(p);
        match self.peek(p) {
            Tok::Let => self.let_stmt(p1, lit, line, col),
            Tok::For => self.for_stmt(p1, lit, line, col),
            Tok::Return => {
                if matches!(self.peek(p1), Tok::Semi) {
                    return Ok((Item::Stmt(Stmt::Return(None, line, col)), self.next(p1)));
                }
                let (e, p2) = match self.level(p1, lit, 0) {
                    Ok(x) => x,
                    Err(d) => {
                        return Err(d);
                    },
                };
                let q = match self.take(p2, matches!(self.peek(p2), Tok::Semi), Ghost(TokV::Semi), "`;`") {
                    Ok(x) => x,
                    Err(d) => {
                        return Err(d);
                    },
                };
                Ok((Item::Stmt(Stmt::Return(Some(e), line, col)), q))
            },
            Tok::While => self.while_stmt(p1, lit, line, col),
            Tok::Break => {
                let q = match self.take(p1, matches!(self.peek(p1), Tok::Semi), Ghost(TokV::Semi), "`;`") {
                    Ok(x) => x,
                    Err(d) => {
                        return Err(d);
                    },
                };
                Ok((Item::Stmt(Stmt::Break(line, col)), q))
            },
            k => {
                // in statement position an expression that begins with a block-like form — `if` or
                // `{` — ends at that block, and a binary operator on the next line starts a new
                // statement rather than continuing it; to use one as an operand here, bracket it
                let block_like: bool = matches!(k, Tok::If | Tok::LBrace);
                let (e, q) = match (if block_like { self.primary(p, lit) } else { self.level(p, lit, 0) }) {
                    Ok(x) => x,
                    Err(d) => {
                        return Err(d);
                    },
                };
                self.after_expr(q, lit, e, line, col)
            },
        }
    }

    fn after_expr(&self, p: usize, lit: bool, e: Expr, line: u32, col: u32) -> (r: Result<(Item, usize), Diag>)
        requires
            self.on(p as int),
        ensures
            reads_on(r, s_after_expr(self.src(), p as int, lit, e@, line, col), p as int, self.n()),
        decreases self.n() - p, 22int,
    {
        let compound: Option<Option<BinOp>> = match self.peek(p) {
            Tok::Eq => Some(None),
            Tok::PlusEq => Some(Some(BinOp::Add)),
            Tok::MinusEq => Some(Some(BinOp::Sub)),
            Tok::StarEq => Some(Some(BinOp::Mul)),
            Tok::SlashEq => Some(Some(BinOp::Div)),
            _ => None,
        };
        if let Some(op) = compound {
            let p1: usize = self.next(p);
            let (value, p2) = match self.level(p1, lit, 0) {
                Ok(x) => x,
                Err(d) => {
                    return Err(d);
                },
            };
            let q = match self.take(p2, matches!(self.peek(p2), Tok::Semi), Ghost(TokV::Semi), "`;`") {
                Ok(x) => x,
                Err(d) => {
                    return Err(d);
                },
            };
            return Ok((Item::Stmt(Stmt::Assign { target: e, op, value, line, col }), q));
        }
        if matches!(self.peek(p), Tok::Semi) {
            return Ok((Item::Stmt(Stmt::Expr(e)), self.next(p)));
        }
        if matches!(self.peek(p), Tok::RBrace) {
            return Ok((Item::Tail(e), p));
        }
        if matches!(e.kind, ExprKind::If(..) | ExprKind::Block(_)) {
            return Ok((Item::Stmt(Stmt::Expr(e)), p));
        }
        Err(self.fail(p, cat2("expected `;`, found ", &describe(self.peek(p)))))
    }

    fn let_stmt(&self, p: usize, lit: bool, line: u32, col: u32) -> (r: Result<(Item, usize), Diag>)
        requires
            self.on(p as int),
        ensures
            reads(r, s_let(self.src(), p as int, lit, line, col), p as int, self.n()),
        decreases self.n() - p, 22int,
    {
        let mutable: bool = matches!(self.peek(p), Tok::Mut);
        let p1: usize = if mutable {
            self.next(p)
        } else {
            p
        };
        let (name, p2) = match self.ident(p1, "variable name") {
            Ok(x) => x,
            Err(d) => {
                return Err(d);
            },
        };
        let mut ty: Option<TypeExpr> = None;
        let mut p3: usize = p2;
        if matches!(self.peek(p2), Tok::Colon) {
            let after: usize = self.next(p2);
            let (t, q) = match self.type_expr(after, lit) {
                Ok(x) => x,
                Err(d) => {
                    return Err(d);
                },
            };
            ty = Some(t);
            p3 = q;
        }
        let p4 = match self.take(p3, matches!(self.peek(p3), Tok::Eq), Ghost(TokV::Eq), "`=`") {
            Ok(x) => x,
            Err(d) => {
                return Err(d);
            },
        };
        let (init, p5) = match self.level(p4, lit, 0) {
            Ok(x) => x,
            Err(d) => {
                return Err(d);
            },
        };
        let q = match self.take(p5, matches!(self.peek(p5), Tok::Semi), Ghost(TokV::Semi), "`;`") {
            Ok(x) => x,
            Err(d) => {
                return Err(d);
            },
        };
        Ok((Item::Stmt(Stmt::Let { name, mutable, ty, init, line, col }), q))
    }

    fn for_stmt(&self, p: usize, lit: bool, line: u32, col: u32) -> (r: Result<(Item, usize), Diag>)
        requires
            self.on(p as int),
        ensures
            reads(r, s_for(self.src(), p as int, lit, line, col), p as int, self.n()),
        decreases self.n() - p, 22int,
    {
        let (var, p1) = match self.ident(p, "loop variable") {
            Ok(x) => x,
            Err(d) => {
                return Err(d);
            },
        };
        let p2 = match self.take(p1, matches!(self.peek(p1), Tok::In), Ghost(TokV::In), "`in`") {
            Ok(x) => x,
            Err(d) => {
                return Err(d);
            },
        };
        let (start, p3) = match self.level(p2, false, 0) {
            Ok(x) => x,
            Err(d) => {
                return Err(d);
            },
        };
        let p4 = match self.take(p3, matches!(self.peek(p3), Tok::DotDot), Ghost(TokV::DotDot), "`..`") {
            Ok(x) => x,
            Err(d) => {
                return Err(d);
            },
        };
        let (end, p5) = match self.level(p4, false, 0) {
            Ok(x) => x,
            Err(d) => {
                return Err(d);
            },
        };
        let (body, q) = match self.block(p5, lit) {
            Ok(x) => x,
            Err(d) => {
                return Err(d);
            },
        };
        Ok((Item::Stmt(Stmt::For { var, start, end, body, line, col }), q))
    }

    fn while_stmt(&self, p: usize, lit: bool, line: u32, col: u32) -> (r: Result<(Item, usize), Diag>)
        requires
            self.on(p as int),
        ensures
            reads(r, s_while(self.src(), p as int, lit, line, col), p as int, self.n()),
        decreases self.n() - p, 22int,
    {
        let (cond, p1) = match self.level(p, false, 0) {
            Ok(x) => x,
            Err(d) => {
                return Err(d);
            },
        };
        let mut decreasing: Option<Expr> = None;
        let mut p2: usize = p1;
        if matches!(self.peek(p1), Tok::Decreasing) {
            let after: usize = self.next(p1);
            let (m, q) = match self.level(after, false, 0) {
                Ok(x) => x,
                Err(d) => {
                    return Err(d);
                },
            };
            decreasing = Some(m);
            p2 = q;
        }
        let (body, q) = match self.block(p2, lit) {
            Ok(x) => x,
            Err(d) => {
                return Err(d);
            },
        };
        Ok((Item::Stmt(Stmt::While { cond, decreasing, body, line, col }), q))
    }

    /// The operator that the token at `p` is at a level of precedence.
    fn operator_at(&self, p: usize, level: usize) -> (r: Option<BinOp>)
        requires
            self.on(p as int),
        ensures
            r == operator(level as int, self.src().tok(p as int)),
    {
        let k = self.peek(p);
        if level == 0 {
            match k {
                Tok::PipePipe => Some(BinOp::Or),
                _ => None,
            }
        } else if level == 1 {
            match k {
                Tok::AmpAmp => Some(BinOp::And),
                _ => None,
            }
        } else if level == 2 {
            match k {
                Tok::EqEq => Some(BinOp::Eq),
                Tok::Ne => Some(BinOp::Ne),
                Tok::Lt => Some(BinOp::Lt),
                Tok::Le => Some(BinOp::Le),
                Tok::Gt => Some(BinOp::Gt),
                Tok::Ge => Some(BinOp::Ge),
                _ => None,
            }
        } else if level == 3 {
            match k {
                Tok::Plus => Some(BinOp::Add),
                Tok::Minus => Some(BinOp::Sub),
                _ => None,
            }
        } else if level == 4 {
            match k {
                Tok::Star => Some(BinOp::Mul),
                Tok::Slash => Some(BinOp::Div),
                Tok::Percent => Some(BinOp::Rem),
                _ => None,
            }
        } else {
            None
        }
    }

    /// An expression: `||`, `&&`, comparisons, `+ -`, `* / %`, then casts, loosest first.
    #[verifier::loop_isolation(false)]
    fn level(&self, p: usize, lit: bool, level: usize) -> (r: Result<(Expr, usize), Diag>)
        requires
            self.on(p as int),
            level <= 5,
        ensures
            reads(r, s_level(self.src(), p as int, lit, level as int), p as int, self.n()),
        decreases self.n() - p, 21 - level,
    {
        let ghost g = self.src();
        if level == 5 {
            return self.cast(p, lit);
        }
        let (first, q0) = match self.level(p, lit, level + 1) {
            Ok(x) => x,
            Err(d) => {
                return Err(d);
            },
        };
        let mut lhs = first;
        let mut at: usize = q0;
        loop
            invariant
                self.on(at as int),
                p < at,
                s_level(g, p as int, lit, level as int) == s_rest(g, at as int, lit, level as int, lhs@),
            decreases self.n() - at,
        {
            match self.operator_at(at, level) {
                None => {
                    return Ok((lhs, at));
                },
                Some(op) => {
                    let p1: usize = self.next(at);
                    let (rhs, q) = match self.level(p1, lit, level + 1) {
                        Ok(x) => x,
                        Err(d) => {
                            return Err(d);
                        },
                    };
                    let e = self.mk(at, ExprKind::Binary(op, Box::new(lhs), Box::new(rhs)));
                    if level == 2 {
                        // comparisons do not chain
                        return Ok((e, q));
                    }
                    lhs = e;
                    at = q;
                },
            }
        }
    }

    #[verifier::loop_isolation(false)]
    fn cast(&self, p: usize, lit: bool) -> (r: Result<(Expr, usize), Diag>)
        requires
            self.on(p as int),
        ensures
            reads(r, s_level(self.src(), p as int, lit, 5), p as int, self.n()),
        decreases self.n() - p, 15int,
    {
        let ghost g = self.src();
        let (first, q0) = match self.unary(p, lit) {
            Ok(x) => x,
            Err(d) => {
                return Err(d);
            },
        };
        let mut e = first;
        let mut at: usize = q0;
        while matches!(self.peek(at), Tok::As)
            invariant
                self.on(at as int),
                p < at,
                s_level(g, p as int, lit, 5) == s_casts(g, at as int, lit, e@),
            decreases self.n() - at,
        {
            let p1: usize = self.next(at);
            let (ty, q) = match self.type_expr(p1, lit) {
                Ok(x) => x,
                Err(d) => {
                    return Err(d);
                },
            };
            e = self.mk(at, ExprKind::Cast(Box::new(e), ty));
            at = q;
        }
        Ok((e, at))
    }

    fn unary(&self, p: usize, lit: bool) -> (r: Result<(Expr, usize), Diag>)
        requires
            self.on(p as int),
        ensures
            reads(r, s_unary(self.src(), p as int, lit), p as int, self.n()),
        decreases self.n() - p, 14int,
    {
        let p1: usize = self.next(p);
        match self.peek(p) {
            Tok::Minus => {
                let (e, q) = match self.unary(p1, lit) {
                    Ok(x) => x,
                    Err(d) => {
                        return Err(d);
                    },
                };
                Ok((self.mk(p, ExprKind::Unary(UnOp::Neg, Box::new(e))), q))
            },
            Tok::Bang => {
                let (e, q) = match self.unary(p1, lit) {
                    Ok(x) => x,
                    Err(d) => {
                        return Err(d);
                    },
                };
                Ok((self.mk(p, ExprKind::Unary(UnOp::Not, Box::new(e))), q))
            },
            Tok::Amp => {
                let mutable: bool = matches!(self.peek(p1), Tok::Mut);
                let p2: usize = if mutable {
                    self.next(p1)
                } else {
                    p1
                };
                let (e, q) = match self.unary(p2, lit) {
                    Ok(x) => x,
                    Err(d) => {
                        return Err(d);
                    },
                };
                Ok((self.mk(p, ExprKind::Ref(Box::new(e), mutable)), q))
            },
            _ => self.postfix(p, lit),
        }
    }

    #[verifier::loop_isolation(false)]
    fn postfix(&self, p: usize, lit: bool) -> (r: Result<(Expr, usize), Diag>)
        requires
            self.on(p as int),
            self.src().tok(p as int) != TokV::Minus,
            self.src().tok(p as int) != TokV::Bang,
            self.src().tok(p as int) != TokV::Amp,
        ensures
            reads(r, s_unary(self.src(), p as int, lit), p as int, self.n()),
        decreases self.n() - p, 13int,
    {
        let ghost g = self.src();
        let (first, q0) = match self.primary(p, lit) {
            Ok(x) => x,
            Err(d) => {
                return Err(d);
            },
        };
        let mut e = first;
        let mut at: usize = q0;
        loop
            invariant
                self.on(at as int),
                p < at,
                s_unary(g, p as int, lit) == s_postfix(g, at as int, lit, e@),
            decreases self.n() - at,
        {
            match self.peek(at) {
                Tok::LBracket => {
                    let p1: usize = self.next(at);
                    let (idx, p2) = match self.level(p1, lit, 0) {
                        Ok(x) => x,
                        Err(d) => {
                            return Err(d);
                        },
                    };
                    let q = match self.take(p2, matches!(self.peek(p2), Tok::RBracket), Ghost(TokV::RBracket), "`]`") {
                        Ok(x) => x,
                        Err(d) => {
                            return Err(d);
                        },
                    };
                    e = self.mk(at, ExprKind::Index(Box::new(e), Box::new(idx)));
                    at = q;
                },
                Tok::Dot => {
                    let p1: usize = self.next(at);
                    let (name, p2) = match self.ident(p1, "a field or method name") {
                        Ok(x) => x,
                        Err(d) => {
                            return Err(d);
                        },
                    };
                    if matches!(self.peek(p2), Tok::LParen) {
                        let p3: usize = self.next(p2);
                        let (args, q) = match self.args(p3, lit) {
                            Ok(x) => x,
                            Err(d) => {
                                return Err(d);
                            },
                        };
                        let kind = ExprKind::MethodCall(Box::new(e), name, args);
                        proof {
                            kind_lists(kind);
                        }
                        e = self.mk(at, kind);
                        at = q;
                    } else {
                        e = self.mk(at, ExprKind::Field(Box::new(e), name));
                        at = p2;
                    }
                },
                _ => {
                    return Ok((e, at));
                },
            }
        }
    }

    #[verifier::loop_isolation(false)]
    fn args(&self, p: usize, lit: bool) -> (r: Result<(Vec<Expr>, usize), Diag>)
        requires
            self.on(p as int),
        ensures
            reads_list(r, s_args(self.src(), p as int, lit, Seq::empty()), p as int, self.n()),
        decreases self.n() - p, 22int,
    {
        let ghost g = self.src();
        let mut args: Vec<Expr> = Vec::new();
        let mut at: usize = p;
        proof {
            views_empty::<Expr>();
        }
        loop
            invariant
                self.on(at as int),
                p <= at,
                s_args(g, p as int, lit, Seq::empty()) == s_args(g, at as int, lit, views(args@)),
            decreases self.n() - at,
        {
            if matches!(self.peek(at), Tok::RParen) {
                return Ok((args, self.next(at)));
            }
            let (e, q) = match self.level(at, lit, 0) {
                Ok(x) => x,
                Err(d) => {
                    return Err(d);
                },
            };
            proof {
                views_push(args@, e);
            }
            args.push(e);
            if matches!(self.peek(q), Tok::Comma) {
                at = self.next(q);
            } else {
                let z = match self.take(q, matches!(self.peek(q), Tok::RParen), Ghost(TokV::RParen), "`)`") {
                    Ok(x) => x,
                    Err(d) => {
                        return Err(d);
                    },
                };
                return Ok((args, z));
            }
        }
    }

    #[verifier::loop_isolation(false)]
    fn fields(&self, p: usize) -> (r: Result<(Vec<(String, Expr)>, usize), Diag>)
        requires
            self.on(p as int),
        ensures
            match r {
                Ok(x) => s_fields(self.src(), p as int, Seq::empty()) == Ok::<(Seq<(Seq<char>, ExprV)>, int), DiagV>(
                    (fields_v(x.0@), x.1 as int),
                ) && p <= x.1 < self.n(),
                Err(d) => s_fields(self.src(), p as int, Seq::empty()) == Err::<
                    (Seq<(Seq<char>, ExprV)>, int),
                    DiagV,
                >(d@),
            },
        decreases self.n() - p, 0int,
    {
        let ghost g = self.src();
        let mut fields: Vec<(String, Expr)> = Vec::new();
        let mut at: usize = p;
        proof {
            assert(fields_v(fields@) =~= Seq::empty());
        }
        loop
            invariant
                self.on(at as int),
                p <= at,
                s_fields(g, p as int, Seq::empty()) == s_fields(g, at as int, fields_v(fields@)),
            decreases self.n() - at,
        {
            if matches!(self.peek(at), Tok::RBrace) {
                return Ok((fields, self.next(at)));
            }
            let (f, p1) = match self.ident(at, "field name") {
                Ok(x) => x,
                Err(d) => {
                    return Err(d);
                },
            };
            let p2 = match self.take(p1, matches!(self.peek(p1), Tok::Colon), Ghost(TokV::Colon), "`:`") {
                Ok(x) => x,
                Err(d) => {
                    return Err(d);
                },
            };
            // the value is parsed as anywhere: `S { f: T { … } }` is fine in a condition too
            let (v, q) = match self.level(p2, true, 0) {
                Ok(x) => x,
                Err(d) => {
                    return Err(d);
                },
            };
            let ghost was = fields@;
            let ghost pair = (f@, v@);
            fields.push((f, v));
            proof {
                assert(fields_v(fields@) =~= fields_v(was).push(pair));
            }
            if matches!(self.peek(q), Tok::Comma) {
                at = self.next(q);
            } else {
                let z = match self.take(q, matches!(self.peek(q), Tok::RBrace), Ghost(TokV::RBrace), "`}`") {
                    Ok(x) => x,
                    Err(d) => {
                        return Err(d);
                    },
                };
                return Ok((fields, z));
            }
        }
    }

    #[verifier::loop_isolation(false)]
    fn elems(&self, p: usize, lit: bool, first: Expr) -> (r: Result<(Vec<Expr>, usize), Diag>)
        requires
            self.on(p as int),
        ensures
            reads_list(r, s_elems(self.src(), p as int, lit, seq![first@]), p as int, self.n()),
        decreases self.n() - p, 0int,
    {
        let ghost g = self.src();
        let ghost f0 = seq![first@];
        let mut elems: Vec<Expr> = Vec::new();
        elems.push(first);
        let mut at: usize = p;
        proof {
            assert(views(elems@) =~= f0);
        }
        while matches!(self.peek(at), Tok::Comma)
            invariant
                self.on(at as int),
                p <= at,
                s_elems(g, p as int, lit, f0) == s_elems(g, at as int, lit, views(elems@)),
            decreases self.n() - at,
        {
            let p1: usize = self.next(at);
            if matches!(self.peek(p1), Tok::RBracket) {
                return Ok((elems, self.next(p1)));
            }
            let (e, q) = match self.level(p1, lit, 0) {
                Ok(x) => x,
                Err(d) => {
                    return Err(d);
                },
            };
            proof {
                views_push(elems@, e);
            }
            elems.push(e);
            at = q;
        }
        let z = match self.take(at, matches!(self.peek(at), Tok::RBracket), Ghost(TokV::RBracket), "`]`") {
            Ok(x) => x,
            Err(d) => {
                return Err(d);
            },
        };
        Ok((elems, z))
    }

    #[verifier::loop_isolation(false)]
    fn closure_params(&self, p: usize) -> (r: Result<(Vec<String>, usize), Diag>)
        requires
            self.on(p as int),
        ensures
            match r {
                Ok(x) => s_closure_params(self.src(), p as int, Seq::empty()) == Ok::<(Seq<Seq<char>>, int), DiagV>(
                    (texts(x.0@), x.1 as int),
                ) && p <= x.1 < self.n(),
                Err(d) => s_closure_params(self.src(), p as int, Seq::empty()) == Err::<(Seq<Seq<char>>, int), DiagV>(
                    d@,
                ),
            },
    {
        let ghost g = self.src();
        let mut params: Vec<String> = Vec::new();
        let mut at: usize = p;
        proof {
            texts_empty();
        }
        loop
            invariant
                self.on(at as int),
                p <= at,
                s_closure_params(g, p as int, Seq::empty()) == s_closure_params(g, at as int, texts(params@)),
            decreases self.n() - at,
        {
            if matches!(self.peek(at), Tok::Pipe) {
                return Ok((params, self.next(at)));
            }
            let (x, q) = match self.ident(at, "closure parameter") {
                Ok(x) => x,
                Err(d) => {
                    return Err(d);
                },
            };
            proof {
                texts_push(params@, x);
            }
            params.push(x);
            if matches!(self.peek(q), Tok::Comma) {
                at = self.next(q);
            } else {
                let z = match self.take(q, matches!(self.peek(q), Tok::Pipe), Ghost(TokV::Pipe), "`|`") {
                    Ok(x) => x,
                    Err(d) => {
                        return Err(d);
                    },
                };
                return Ok((params, z));
            }
        }
    }

    fn primary(&self, p: usize, lit: bool) -> (r: Result<(Expr, usize), Diag>)
        requires
            self.on(p as int),
        ensures
            reads(r, s_primary(self.src(), p as int, lit), p as int, self.n()),
        decreases self.n() - p, 12int,
    {
        let p1: usize = self.next(p);
        match self.peek(p) {
            Tok::Int(v) => Ok((self.mk(p, ExprKind::Int(*v)), p1)),
            Tok::Float(v) => Ok((self.mk(p, ExprKind::Float(copy_text(v))), p1)),
            Tok::Byte(v) => Ok((self.mk(p, ExprKind::Byte(*v)), p1)),
            Tok::Bytes(v) => Ok((self.mk(p, ExprKind::Bytes(copy_bytes(v))), p1)),
            Tok::True => Ok((self.mk(p, ExprKind::Bool(true)), p1)),
            Tok::False => Ok((self.mk(p, ExprKind::Bool(false)), p1)),
            Tok::Ident(name) => {
                let name = copy_text(name);
                if matches!(self.peek(p1), Tok::LParen) {
                    let p2: usize = self.next(p1);
                    let (args, q) = match self.args(p2, lit) {
                        Ok(x) => x,
                        Err(d) => {
                            return Err(d);
                        },
                    };
                    let kind = ExprKind::Call(name, args);
                    proof {
                        kind_lists(kind);
                    }
                    Ok((self.mk(p, kind), q))
                } else if matches!(self.peek(p1), Tok::LBrace) && lit && has_text(&self.struct_names, &name) {
                    let p2: usize = self.next(p1);
                    let (fields, q) = match self.fields(p2) {
                        Ok(x) => x,
                        Err(d) => {
                            return Err(d);
                        },
                    };
                    let kind = ExprKind::StructLit(name, fields);
                    proof {
                        kind_lists(kind);
                    }
                    Ok((self.mk(p, kind), q))
                } else {
                    Ok((self.mk(p, ExprKind::Var(name)), p1))
                }
            },
            Tok::LParen => {
                let (e, p2) = match self.level(p1, lit, 0) {
                    Ok(x) => x,
                    Err(d) => {
                        return Err(d);
                    },
                };
                let q = match self.take(p2, matches!(self.peek(p2), Tok::RParen), Ghost(TokV::RParen), "`)`") {
                    Ok(x) => x,
                    Err(d) => {
                        return Err(d);
                    },
                };
                Ok((e, q))
            },
            Tok::LBracket => {
                if matches!(self.peek(p1), Tok::RBracket) {
                    return Err(self.fail(p, "empty array literal has no element type".to_owned()));
                }
                let (first, p2) = match self.level(p1, lit, 0) {
                    Ok(x) => x,
                    Err(d) => {
                        return Err(d);
                    },
                };
                if matches!(self.peek(p2), Tok::For) {
                    return self.comprehension(p2, lit, first, p);
                }
                if matches!(self.peek(p2), Tok::Semi) {
                    let p3: usize = self.next(p2);
                    let (n, p4) = match self.level(p3, lit, 0) {
                        Ok(x) => x,
                        Err(d) => {
                            return Err(d);
                        },
                    };
                    let q = match self.take(p4, matches!(self.peek(p4), Tok::RBracket), Ghost(TokV::RBracket), "`]`") {
                        Ok(x) => x,
                        Err(d) => {
                            return Err(d);
                        },
                    };
                    return Ok((self.mk(p, ExprKind::ArrayRepeat(Box::new(first), Box::new(n))), q));
                }
                let (elems, q) = match self.elems(p2, lit, first) {
                    Ok(x) => x,
                    Err(d) => {
                        return Err(d);
                    },
                };
                let kind = ExprKind::ArrayLit(elems);
                proof {
                    kind_lists(kind);
                }
                Ok((self.mk(p, kind), q))
            },
            Tok::If => self.if_expr(p1, lit, p),
            Tok::LBrace => {
                let (b, q) = match self.block(p, lit) {
                    Ok(x) => x,
                    Err(d) => {
                        return Err(d);
                    },
                };
                Ok((self.mk(p, ExprKind::Block(b)), q))
            },
            Tok::Pipe => {
                let (params, p2) = match self.closure_params(p1) {
                    Ok(x) => x,
                    Err(d) => {
                        return Err(d);
                    },
                };
                let (body, q) = match self.level(p2, lit, 0) {
                    Ok(x) => x,
                    Err(d) => {
                        return Err(d);
                    },
                };
                Ok((self.mk(p, ExprKind::Lambda(params, Box::new(body))), q))
            },
            k => Err(self.fail(p, cat2("expected an expression, found ", &describe(k)))),
        }
    }

    fn comprehension(&self, p: usize, lit: bool, elem: Expr, open: usize) -> (r: Result<(Expr, usize), Diag>)
        requires
            self.on(p as int),
            self.on(open as int),
            self.src().tok(p as int) == TokV::For,
        ensures
            reads(r, s_comprehension(self.src(), p as int, lit, elem@, open as int), p as int, self.n()),
        decreases self.n() - p, 0int,
    {
        let p1: usize = self.next(p);
        let (var, p2) = match self.ident(p1, "comprehension variable") {
            Ok(x) => x,
            Err(d) => {
                return Err(d);
            },
        };
        let p3 = match self.take(p2, matches!(self.peek(p2), Tok::In), Ghost(TokV::In), "`in`") {
            Ok(x) => x,
            Err(d) => {
                return Err(d);
            },
        };
        let (source, p4) = match self.level(p3, lit, 0) {
            Ok(x) => x,
            Err(d) => {
                return Err(d);
            },
        };
        let mut cond: Option<Box<Expr>> = None;
        let mut p5: usize = p4;
        if matches!(self.peek(p4), Tok::If) {
            let after: usize = self.next(p4);
            let (c, q) = match self.level(after, lit, 0) {
                Ok(x) => x,
                Err(d) => {
                    return Err(d);
                },
            };
            cond = Some(Box::new(c));
            p5 = q;
        }
        let q = match self.take(p5, matches!(self.peek(p5), Tok::RBracket), Ghost(TokV::RBracket), "`]`") {
            Ok(x) => x,
            Err(d) => {
                return Err(d);
            },
        };
        Ok((self.mk(open, ExprKind::Comprehension { elem: Box::new(elem), var, source: Box::new(source), cond }), q))
    }

    fn if_expr(&self, p: usize, lit: bool, open: usize) -> (r: Result<(Expr, usize), Diag>)
        requires
            self.on(p as int),
            self.on(open as int),
        ensures
            reads(r, s_if(self.src(), p as int, lit, open as int), p as int, self.n()),
        decreases self.n() - p, 22int,
    {
        let (cond, p2) = match self.level(p, false, 0) {
            Ok(x) => x,
            Err(d) => {
                return Err(d);
            },
        };
        let (yes, p3) = match self.block(p2, lit) {
            Ok(x) => x,
            Err(d) => {
                return Err(d);
            },
        };
        if !matches!(self.peek(p3), Tok::Else) {
            return Ok((self.mk(open, ExprKind::If(Box::new(cond), yes, None)), p3));
        }
        let p4: usize = self.next(p3);
        if matches!(self.peek(p4), Tok::If) {
            // `else if` is an else block whose value is the inner if
            let (inner, q) = match self.primary(p4, lit) {
                Ok(x) => x,
                Err(d) => {
                    return Err(d);
                },
            };
            let els = Block {
                stmts: Vec::new(),
                tail: Some(Box::new(inner)),
                line: self.toks[p4].line,
                col: self.toks[p4].col,
            };
            proof {
                block_lists(els);
                views_empty::<Stmt>();
            }
            return Ok((self.mk(open, ExprKind::If(Box::new(cond), yes, Some(els))), q));
        }
        let (els, q) = match self.block(p4, lit) {
            Ok(x) => x,
            Err(d) => {
                return Err(d);
            },
        };
        Ok((self.mk(open, ExprKind::If(Box::new(cond), yes, Some(els))), q))
    }

    #[verifier::loop_isolation(false)]
    fn attr_words(&self, p: usize) -> (r: Result<(Vec<Pair>, Vec<String>, usize), Diag>)
        requires
            self.on(p as int),
        ensures
            match r {
                Ok(x) => s_attr_words(self.src(), p as int, Seq::empty(), Seq::empty()) == Ok::<
                    (Seq<PairV>, Seq<Seq<char>>, int),
                    DiagV,
                >((views(x.0@), texts(x.1@), x.2 as int)) && p <= x.2 < self.n(),
                Err(d) => s_attr_words(self.src(), p as int, Seq::empty(), Seq::empty()) == Err::<
                    (Seq<PairV>, Seq<Seq<char>>, int),
                    DiagV,
                >(d@),
            },
    {
        let ghost g = self.src();
        let mut pairs: Vec<Pair> = Vec::new();
        let mut words: Vec<String> = Vec::new();
        let mut at: usize = p;
        proof {
            texts_empty();
            views_empty::<Pair>();
        }
        loop
            invariant
                self.on(at as int),
                p <= at,
                s_attr_words(g, p as int, Seq::empty(), Seq::empty()) == s_attr_words(
                    g,
                    at as int,
                    views(pairs@),
                    texts(words@),
                ),
            decreases self.n() - at,
        {
            if matches!(self.peek(at), Tok::RParen) {
                return Ok((pairs, words, self.next(at)));
            }
            let (key, p1) = match self.ident(at, "an attribute key") {
                Ok(x) => x,
                Err(d) => {
                    return Err(d);
                },
            };
            let mut q: usize = p1;
            if matches!(self.peek(p1), Tok::Eq) {
                let p2: usize = self.next(p1);
                match self.peek(p2) {
                    Tok::Str(val) => {
                        let pair = Pair {
                            key,
                            val: copy_text(val),
                            line: self.toks[at].line,
                            col: self.toks[at].col,
                        };
                        proof {
                            views_push(pairs@, pair);
                        }
                        pairs.push(pair);
                        q = self.next(p2);
                    },
                    _ => {
                        return Err(self.fail(p2, "an attribute value is a string: `\"n log n\"`".to_owned()));
                    },
                }
            } else {
                proof {
                    texts_push(words@, key);
                }
                words.push(key);
            }
            if matches!(self.peek(q), Tok::Comma) {
                at = self.next(q);
            } else {
                let z = match self.take(q, matches!(self.peek(q), Tok::RParen), Ghost(TokV::RParen), "`)`") {
                    Ok(x) => x,
                    Err(d) => {
                        return Err(d);
                    },
                };
                return Ok((pairs, words, z));
            }
        }
    }

    fn attribute(&self, p: usize) -> (r: Result<(Attr, usize), Diag>)
        requires
            self.on(p as int),
            self.src().tok(p as int) == TokV::Hash,
        ensures
            reads(r, s_attr(self.src(), p as int), p as int, self.n()),
    {
        let p0: usize = self.next(p);
        let p1 = match self.take(p0, matches!(self.peek(p0), Tok::LBracket), Ghost(TokV::LBracket), "`[`") {
            Ok(x) => x,
            Err(d) => {
                return Err(d);
            },
        };
        let (name, p2) = match self.ident(p1, "attribute name") {
            Ok(x) => x,
            Err(d) => {
                return Err(d);
            },
        };
        let p3 = match self.take(p2, matches!(self.peek(p2), Tok::LParen), Ghost(TokV::LParen), "`(`") {
            Ok(x) => x,
            Err(d) => {
                return Err(d);
            },
        };
        let (pairs, words, p4) = match self.attr_words(p3) {
            Ok(x) => x,
            Err(d) => {
                return Err(d);
            },
        };
        let q = match self.take(p4, matches!(self.peek(p4), Tok::RBracket), Ghost(TokV::RBracket), "`]`") {
            Ok(x) => x,
            Err(d) => {
                return Err(d);
            },
        };
        Ok((Attr { name, pairs, words, line: self.toks[p].line, col: self.toks[p].col }, q))
    }

    #[verifier::loop_isolation(false)]
    fn attributes(&self, p: usize) -> (r: Result<(Vec<Attr>, usize), Diag>)
        requires
            self.on(p as int),
        ensures
            reads_list(r, s_attrs(self.src(), p as int, Seq::empty()), p as int, self.n()),
    {
        let ghost g = self.src();
        let mut out: Vec<Attr> = Vec::new();
        let mut at: usize = p;
        proof {
            views_empty::<Attr>();
        }
        while matches!(self.peek(at), Tok::Hash)
            invariant
                self.on(at as int),
                p <= at,
                s_attrs(g, p as int, Seq::empty()) == s_attrs(g, at as int, views(out@)),
            decreases self.n() - at,
        {
            let (a, q) = match self.attribute(at) {
                Ok(x) => x,
                Err(d) => {
                    return Err(d);
                },
            };
            proof {
                views_push(out@, a);
            }
            out.push(a);
            at = q;
        }
        Ok((out, at))
    }

    #[verifier::loop_isolation(false)]
    fn field_defs(&self, p: usize) -> (r: Result<(Vec<FieldDef>, usize), Diag>)
        requires
            self.on(p as int),
        ensures
            reads_list(r, s_field_defs(self.src(), p as int, Seq::empty()), p as int, self.n()),
    {
        let ghost g = self.src();
        let mut fields: Vec<FieldDef> = Vec::new();
        let mut at: usize = p;
        proof {
            views_empty::<FieldDef>();
        }
        loop
            invariant
                self.on(at as int),
                p <= at,
                s_field_defs(g, p as int, Seq::empty()) == s_field_defs(g, at as int, views(fields@)),
            decreases self.n() - at,
        {
            if matches!(self.peek(at), Tok::RBrace) {
                return Ok((fields, self.next(at)));
            }
            let (name, p1) = match self.ident(at, "field name") {
                Ok(x) => x,
                Err(d) => {
                    return Err(d);
                },
            };
            let p2 = match self.take(p1, matches!(self.peek(p1), Tok::Colon), Ghost(TokV::Colon), "`:`") {
                Ok(x) => x,
                Err(d) => {
                    return Err(d);
                },
            };
            let (ty, q) = match self.type_expr(p2, true) {
                Ok(x) => x,
                Err(d) => {
                    return Err(d);
                },
            };
            let f = FieldDef { name, ty, line: self.toks[at].line, col: self.toks[at].col };
            proof {
                views_push(fields@, f);
            }
            fields.push(f);
            if matches!(self.peek(q), Tok::Comma) {
                at = self.next(q);
            } else {
                let z = match self.take(q, matches!(self.peek(q), Tok::RBrace), Ghost(TokV::RBrace), "`}`") {
                    Ok(x) => x,
                    Err(d) => {
                        return Err(d);
                    },
                };
                return Ok((fields, z));
            }
        }
    }

    fn struct_def(&self, p: usize, attrs: &Vec<Attr>) -> (r: Result<(StructDef, usize), Diag>)
        requires
            self.on(p as int),
        ensures
            reads(r, s_struct(self.src(), p as int, views(attrs@)), p as int, self.n()),
    {
        let layout = match layout_of(attrs) {
            Ok(x) => x,
            Err(d) => {
                return Err(d);
            },
        };
        let p1 = match self.take(p, matches!(self.peek(p), Tok::Struct), Ghost(TokV::Struct), "`struct`") {
            Ok(x) => x,
            Err(d) => {
                return Err(d);
            },
        };
        let (name, p2) = match self.ident(p1, "struct name") {
            Ok(x) => x,
            Err(d) => {
                return Err(d);
            },
        };
        let p3 = match self.take(p2, matches!(self.peek(p2), Tok::LBrace), Ghost(TokV::LBrace), "`{`") {
            Ok(x) => x,
            Err(d) => {
                return Err(d);
            },
        };
        let (fields, q) = match self.field_defs(p3) {
            Ok(x) => x,
            Err(d) => {
                return Err(d);
            },
        };
        Ok((StructDef { name, fields, layout, line: self.toks[p].line, col: self.toks[p].col }, q))
    }

    #[verifier::loop_isolation(false)]
    fn params(&self, p: usize) -> (r: Result<(Vec<Param>, usize), Diag>)
        requires
            self.on(p as int),
        ensures
            reads_list(r, s_params(self.src(), p as int, Seq::empty()), p as int, self.n()),
    {
        let ghost g = self.src();
        let mut params: Vec<Param> = Vec::new();
        let mut at: usize = p;
        proof {
            views_empty::<Param>();
        }
        loop
            invariant
                self.on(at as int),
                p <= at,
                s_params(g, p as int, Seq::empty()) == s_params(g, at as int, views(params@)),
            decreases self.n() - at,
        {
            if matches!(self.peek(at), Tok::RParen) {
                return Ok((params, self.next(at)));
            }
            let (name, p1) = match self.ident(at, "parameter name") {
                Ok(x) => x,
                Err(d) => {
                    return Err(d);
                },
            };
            let p2 = match self.take(p1, matches!(self.peek(p1), Tok::Colon), Ghost(TokV::Colon), "`:`") {
                Ok(x) => x,
                Err(d) => {
                    return Err(d);
                },
            };
            let (ty, q) = match self.type_expr(p2, true) {
                Ok(x) => x,
                Err(d) => {
                    return Err(d);
                },
            };
            let f = Param { name, ty, line: self.toks[at].line, col: self.toks[at].col };
            proof {
                views_push(params@, f);
            }
            params.push(f);
            if matches!(self.peek(q), Tok::Comma) {
                at = self.next(q);
            } else {
                let z = match self.take(q, matches!(self.peek(q), Tok::RParen), Ghost(TokV::RParen), "`)`") {
                    Ok(x) => x,
                    Err(d) => {
                        return Err(d);
                    },
                };
                return Ok((params, z));
            }
        }
    }

    #[verifier::loop_isolation(false)]
    fn effects(&self, p: usize) -> (r: Result<(Vec<String>, usize), Diag>)
        requires
            self.on(p as int),
        ensures
            match r {
                Ok(x) => s_uses(self.src(), p as int, Seq::empty()) == Ok::<(Seq<Seq<char>>, int), DiagV>(
                    (texts(x.0@), x.1 as int),
                ) && p <= x.1 < self.n(),
                Err(d) => s_uses(self.src(), p as int, Seq::empty()) == Err::<(Seq<Seq<char>>, int), DiagV>(d@),
            },
    {
        let ghost g = self.src();
        let mut uses: Vec<String> = Vec::new();
        let mut at: usize = p;
        proof {
            texts_empty();
        }
        loop
            invariant
                self.on(at as int),
                p <= at,
                s_uses(g, p as int, Seq::empty()) == s_uses(g, at as int, texts(uses@)),
            decreases self.n() - at,
        {
            let (x, q) = match self.ident(at, "an effect (`io`, `unbounded`)") {
                Ok(x) => x,
                Err(d) => {
                    return Err(d);
                },
            };
            proof {
                texts_push(uses@, x);
            }
            uses.push(x);
            if matches!(self.peek(q), Tok::Comma) {
                at = self.next(q);
            } else {
                return Ok((uses, q));
            }
        }
    }

    fn head(&self, p: usize) -> (r: Result<(Head, usize), Diag>)
        requires
            self.on(p as int),
        ensures
            reads(r, s_head(self.src(), p as int), p as int, self.n()),
    {
        let p1 = match self.take(p, matches!(self.peek(p), Tok::Fn), Ghost(TokV::Fn), "`fn`") {
            Ok(x) => x,
            Err(d) => {
                return Err(d);
            },
        };
        let (name, p2) = match self.ident(p1, "function name") {
            Ok(x) => x,
            Err(d) => {
                return Err(d);
            },
        };
        let p3 = match self.take(p2, matches!(self.peek(p2), Tok::LParen), Ghost(TokV::LParen), "`(`") {
            Ok(x) => x,
            Err(d) => {
                return Err(d);
            },
        };
        let (params, p4) = match self.params(p3) {
            Ok(x) => x,
            Err(d) => {
                return Err(d);
            },
        };
        let mut ret = TypeExpr::Unit;
        let mut p5: usize = p4;
        if matches!(self.peek(p4), Tok::Arrow) {
            let after: usize = self.next(p4);
            let (t, q) = match self.type_expr(after, true) {
                Ok(x) => x,
                Err(d) => {
                    return Err(d);
                },
            };
            ret = t;
            p5 = q;
        }
        let mut uses: Vec<String> = Vec::new();
        let mut p6: usize = p5;
        proof {
            texts_empty();
        }
        if matches!(self.peek(p5), Tok::Uses) {
            let after: usize = self.next(p5);
            let (u, q) = match self.effects(after) {
                Ok(x) => x,
                Err(d) => {
                    return Err(d);
                },
            };
            uses = u;
            p6 = q;
        }
        Ok((Head { name, params, ret, uses }, p6))
    }

    fn func(&self, p: usize, attrs: &Vec<Attr>) -> (r: Result<(Func, usize), Diag>)
        requires
            self.on(p as int),
        ensures
            reads(r, s_func(self.src(), p as int, views(attrs@)), p as int, self.n()),
    {
        let asserts = match asserts_of(attrs) {
            Ok(x) => x,
            Err(d) => {
                return Err(d);
            },
        };
        let declared: bool = matches!(self.peek(p), Tok::Extern);
        let p1: usize = if declared {
            self.next(p)
        } else {
            p
        };
        let (h, p2) = match self.head(p1) {
            Ok(x) => x,
            Err(d) => {
                return Err(d);
            },
        };
        let line: u32 = self.toks[p].line;
        let col: u32 = self.toks[p].col;
        if declared {
            let q = match self.take(p2, matches!(self.peek(p2), Tok::Semi), Ghost(TokV::Semi), "`;` after an extern declaration") {
                Ok(x) => x,
                Err(d) => {
                    return Err(d);
                },
            };
            Ok((Func { name: h.name, params: h.params, ret: h.ret, body: None, uses: h.uses, asserts, line, col }, q))
        } else {
            let (b, q) = match self.block(p2, true) {
                Ok(x) => x,
                Err(d) => {
                    return Err(d);
                },
            };
            Ok(
                (
                    Func { name: h.name, params: h.params, ret: h.ret, body: Some(b), uses: h.uses, asserts, line, col },
                    q,
                ),
            )
        }
    }

    #[verifier::loop_isolation(false)]
    fn program(&self) -> (r: Result<Program, Diag>)
        requires
            self.on(0),
        ensures
            match r {
                Ok(p) => s_program(self.src(), 0, (ProgramV { funcs: Seq::empty(), structs: Seq::empty() })) == Ok::<
                    ProgramV,
                    DiagV,
                >(p@),
                Err(d) => s_program(self.src(), 0, (ProgramV { funcs: Seq::empty(), structs: Seq::empty() })) == Err::<
                    ProgramV,
                    DiagV,
                >(d@),
            },
    {
        let ghost g = self.src();
        let ghost none = ProgramV { funcs: Seq::empty(), structs: Seq::empty() };
        let mut funcs: Vec<Func> = Vec::new();
        let mut structs: Vec<StructDef> = Vec::new();
        let mut at: usize = 0;
        proof {
            views_empty::<Func>();
            views_empty::<StructDef>();
        }
        while !matches!(self.peek(at), Tok::Eof)
            invariant
                self.on(at as int),
                s_program(g, 0, none) == s_program(
                    g,
                    at as int,
                    (ProgramV { funcs: views(funcs@), structs: views(structs@) }),
                ),
            decreases self.n() - at,
        {
            let (attrs, p1) = match self.attributes(at) {
                Ok(x) => x,
                Err(d) => {
                    return Err(d);
                },
            };
            if matches!(self.peek(p1), Tok::Struct) {
                let (s, q) = match self.struct_def(p1, &attrs) {
                    Ok(x) => x,
                    Err(d) => {
                        return Err(d);
                    },
                };
                proof {
                    views_push(structs@, s);
                }
                structs.push(s);
                at = q;
            } else {
                let (f, q) = match self.func(p1, &attrs) {
                    Ok(x) => x,
                    Err(d) => {
                        return Err(d);
                    },
                };
                proof {
                    views_push(funcs@, f);
                }
                funcs.push(f);
                at = q;
            }
        }
        Ok(Program { funcs, structs })
    }
}

/// The layout that a struct's attributes ask for.
#[verifier::loop_isolation(false)]
fn layout_of(attrs: &Vec<Attr>) -> (r: Result<Option<String>, Diag>)
    ensures
        match r {
            Ok(x) => s_layout(views(attrs@)) == Ok::<Option<Seq<char>>, DiagV>(crate::ast::opt_text(x)),
            Err(d) => s_layout(views(attrs@)) == Err::<Option<Seq<char>>, DiagV>(d@),
        },
{
    let ghost av = views(attrs@);
    let mut layout: Option<String> = None;
    let mut i: usize = 0;
    proof {
        assert(av.take(0) =~= Seq::empty());
        assert(av.take(av.len() as int) =~= av);
    }
    while i < attrs.len()
        invariant
            i <= av.len(),
            s_layout(av.take(i as int)) == Ok::<Option<Seq<char>>, DiagV>(crate::ast::opt_text(layout)),
        decreases av.len() - i,
    {
        let a = &attrs[i];
        proof {
            assert(av.take(i + 1).drop_last() =~= av.take(i as int));
            assert(av.take(i + 1).last() == a@);
        }
        if a.name != "layout".to_owned() {
            proof {
                s_layout_stops(av, i + 1);
            }
            return Err(
                diag(
                    a.line,
                    a.col,
                    &cat3(
                        "`#[",
                        &a.name,
                        "]` does not apply to a struct; only `#[layout(aos)]` / `#[layout(soa)]`",
                    ),
                ),
            );
        }
        if a.words.len() == 1 && (a.words[0] == "aos".to_owned() || a.words[0] == "soa".to_owned()) {
            layout = Some(copy_text(&a.words[0]));
        } else {
            proof {
                s_layout_stops(av, i + 1);
            }
            return Err(diag(a.line, a.col, "`#[layout(...)]` takes `aos` or `soa`"));
        }
        i += 1;
    }
    Ok(layout)
}

/// What is wrong with the first attributes is wrong with them all.
proof fn s_layout_stops(av: Seq<AttrV>, n: int)
    requires
        0 <= n <= av.len(),
        s_layout(av.take(n)) is Err,
    ensures
        s_layout(av) == s_layout(av.take(n)),
    decreases av.len() - n,
{
    if n == av.len() {
        assert(av.take(n) =~= av);
    } else {
        assert(av.take(n + 1).drop_last() =~= av.take(n));
        s_layout_stops(av, n + 1);
    }
}

/// The bounds that a function's attributes assert.
#[verifier::loop_isolation(false)]
fn asserts_of(attrs: &Vec<Attr>) -> (r: Result<Vec<Pair>, Diag>)
    ensures
        match r {
            Ok(x) => s_asserts(views(attrs@)) == Ok::<Seq<PairV>, DiagV>(views(x@)),
            Err(d) => s_asserts(views(attrs@)) == Err::<Seq<PairV>, DiagV>(d@),
        },
{
    let ghost av = views(attrs@);
    let mut out: Vec<Pair> = Vec::new();
    let mut i: usize = 0;
    proof {
        assert(av.take(0) =~= Seq::empty());
        assert(av.take(av.len() as int) =~= av);
        views_empty::<Pair>();
    }
    while i < attrs.len()
        invariant
            i <= av.len(),
            s_asserts(av.take(i as int)) == Ok::<Seq<PairV>, DiagV>(views(out@)),
        decreases av.len() - i,
    {
        let a = &attrs[i];
        proof {
            assert(av.take(i + 1).drop_last() =~= av.take(i as int));
            assert(av.take(i + 1).last() == a@);
        }
        if a.name != "cost".to_owned() {
            proof {
                s_asserts_stops(av, i + 1);
            }
            return Err(
                diag(
                    a.line,
                    a.col,
                    &cat3("unknown attribute `", &a.name, "` on a function; only `#[cost(...)]` exists"),
                ),
            );
        }
        if a.words.len() > 0 {
            proof {
                s_asserts_stops(av, i + 1);
            }
            return Err(diag(a.line, a.col, "`#[cost(...)]` takes `key = \"expr\"` pairs"));
        }
        let ghost start = views(out@);
        let mut j: usize = 0;
        proof {
            assert(start + views(a.pairs@).take(0) =~= start);
        }
        while j < a.pairs.len()
            invariant
                j <= a.pairs@.len(),
                views(out@) == start + views(a.pairs@).take(j as int),
            decreases a.pairs@.len() - j,
        {
            let p = &a.pairs[j];
            let c = Pair { key: copy_text(&p.key), val: copy_text(&p.val), line: p.line, col: p.col };
            proof {
                views_push(out@, c);
                assert(start + views(a.pairs@).take(j + 1) =~= (start + views(a.pairs@).take(j as int)).push(p@));
            }
            out.push(c);
            j += 1;
        }
        proof {
            assert(views(a.pairs@).take(j as int) =~= views(a.pairs@));
        }
        i += 1;
    }
    Ok(out)
}

proof fn s_asserts_stops(av: Seq<AttrV>, n: int)
    requires
        0 <= n <= av.len(),
        s_asserts(av.take(n)) is Err,
    ensures
        s_asserts(av) == s_asserts(av.take(n)),
    decreases av.len() - n,
{
    if n == av.len() {
        assert(av.take(n) =~= av);
    } else {
        assert(av.take(n + 1).drop_last() =~= av.take(n));
        s_asserts_stops(av, n + 1);
    }
}

/// The program that the tokens write. The tokens end with the end-of-file token.
pub fn parse(toks: Vec<Token>) -> (r: Result<Program, Diag>)
    requires
        ended(tokens_v(toks@)),
    ensures
        match r {
            Ok(p) => s_parse(tokens_v(toks@)) == Ok::<ProgramV, DiagV>(p@),
            Err(d) => s_parse(tokens_v(toks@)) == Err::<ProgramV, DiagV>(d@),
        },
{
    let ghost t = tokens_v(toks@);
    let mut names: Vec<String> = Vec::new();
    let mut i: usize = 1;
    proof {
        texts_empty();
    }
    while i < toks.len()
        invariant
            1 <= i <= toks@.len(),
            t == tokens_v(toks@),
            texts(names@) == struct_names(t, i as int),
        decreases toks@.len() - i,
    {
        match (&toks[i - 1].tok, &toks[i].tok) {
            (Tok::Struct, Tok::Ident(s)) => {
                let c = copy_text(s);
                proof {
                    texts_push(names@, c);
                }
                names.push(c);
            },
            _ => {},
        }
        i += 1;
    }
    let p = Parser { toks, struct_names: names };
    p.program()
}

} // verus!
