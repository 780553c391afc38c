//! The grammar: what each run of tokens means. Rust-shaped: blocks are expressions, the last
//! expression of a block without a `;` is its value, `if` is an expression.
//!
//! Each function here says what a construct that starts at token `p` is and at which token the
//! text goes on, or what is wrong with it.

use vstd::prelude::*;
use crate::ast::{
    BinOp, BlockV, ExprV, FieldDefV, FuncV, KindV, PairV, ParamV, ProgramV, StmtV, StructDefV, TypeV, UnOp,
};
use crate::decimals::plain_text;
use crate::diag::{fault, DiagV};
use crate::lex::{TokV, TokenV};
use crate::text::int_text;

verus! {

/// The tokens of a program, and the names of its structs.
pub struct Source {
    pub t: Seq<TokenV>,
    pub structs: Seq<Seq<char>>,
}

impl Source {
    pub open spec fn tok(self, p: int) -> TokV {
        self.t[p].tok
    }

    /// The next token; the last one has none after it.
    pub open spec fn next(self, p: int) -> int {
        if p < self.t.len() - 1 {
            p + 1
        } else {
            p
        }
    }

    /// `q` lies after `p`.
    pub open spec fn past(self, p: int, q: int) -> bool {
        p < q < self.t.len()
    }

    pub open spec fn fault<T>(self, p: int, msg: Seq<char>) -> Result<T, DiagV> {
        fault(self.t[p].line, self.t[p].col, msg)
    }

    /// The token `k` at `p`.
    pub open spec fn want(self, p: int, k: TokV, what: Seq<char>) -> Result<int, DiagV> {
        if self.tok(p) == k {
            Ok(self.next(p))
        } else {
            self.fault(p, "expected "@ + what + ", found "@ + s_describe(self.tok(p)))
        }
    }

    /// A name at `p`.
    pub open spec fn name(self, p: int, what: Seq<char>) -> Result<(Seq<char>, int), DiagV> {
        match self.tok(p) {
            TokV::Ident(s) => Ok((s, self.next(p))),
            k => self.fault(p, "expected "@ + what + ", found "@ + s_describe(k)),
        }
    }

    pub open spec fn expr_at(self, p: int, kind: KindV) -> ExprV {
        ExprV { kind, line: self.t[p].line, col: self.t[p].col }
    }
}

/// How a fixed token is written.
pub open spec fn spelling(k: TokV) -> Seq<char> {
    match k {
        TokV::Fn => "fn"@,
        TokV::Let => "let"@,
        TokV::Mut => "mut"@,
        TokV::If => "if"@,
        TokV::Else => "else"@,
        TokV::For => "for"@,
        TokV::In => "in"@,
        TokV::Return => "return"@,
        TokV::True => "true"@,
        TokV::False => "false"@,
        TokV::As => "as"@,
        TokV::While => "while"@,
        TokV::Break => "break"@,
        TokV::Decreasing => "decreasing"@,
        TokV::Extern => "extern"@,
        TokV::Uses => "uses"@,
        TokV::Struct => "struct"@,
        TokV::LParen => "("@,
        TokV::RParen => ")"@,
        TokV::LBracket => "["@,
        TokV::RBracket => "]"@,
        TokV::LBrace => "{"@,
        TokV::RBrace => "}"@,
        TokV::Comma => ","@,
        TokV::Semi => ";"@,
        TokV::Colon => ":"@,
        TokV::Arrow => "->"@,
        TokV::Dot => "."@,
        TokV::DotDot => ".."@,
        TokV::Eq => "="@,
        TokV::EqEq => "=="@,
        TokV::Ne => "!="@,
        TokV::Lt => "<"@,
        TokV::Le => "<="@,
        TokV::Gt => ">"@,
        TokV::Ge => ">="@,
        TokV::Plus => "+"@,
        TokV::Minus => "-"@,
        TokV::Star => "*"@,
        TokV::Slash => "/"@,
        TokV::Percent => "%"@,
        TokV::PlusEq => "+="@,
        TokV::MinusEq => "-="@,
        TokV::StarEq => "*="@,
        TokV::SlashEq => "/="@,
        TokV::Amp => "&"@,
        TokV::AmpAmp => "&&"@,
        TokV::Pipe => "|"@,
        TokV::PipePipe => "||"@,
        TokV::Bang => "!"@,
        TokV::Hash => "#"@,
        _ => "?"@,
    }
}

/// A token as a message shows it.
#[verifier::opaque]
pub open spec fn s_describe(k: TokV) -> Seq<char> {
    match k {
        TokV::Ident(s) => "`"@ + s + "`"@,
        TokV::Int(v) => "`"@ + int_text(v as int) + "`"@,
        TokV::Float(s) => "`"@ + plain_text(s) + "`"@,
        TokV::Byte(v) => "`b'"@ + seq![v as char] + "'`"@,
        TokV::Bytes(_) => "a byte string"@,
        TokV::Str(_) => "a string"@,
        TokV::Eof => "end of file"@,
        _ => "`"@ + spelling(k) + "`"@,
    }
}

/// The binary operator that a token is at a level of precedence, loosest level first.
pub open spec fn operator(level: int, k: TokV) -> Option<BinOp> {
    if level == 0 {
        match k {
            TokV::PipePipe => Some(BinOp::Or),
            _ => None,
        }
    } else if level == 1 {
        match k {
            TokV::AmpAmp => Some(BinOp::And),
            _ => None,
        }
    } else if level == 2 {
        match k {
            TokV::EqEq => Some(BinOp::Eq),
            TokV::Ne => Some(BinOp::Ne),
            TokV::Lt => Some(BinOp::Lt),
            TokV::Le => Some(BinOp::Le),
            TokV::Gt => Some(BinOp::Gt),
            TokV::Ge => Some(BinOp::Ge),
            _ => None,
        }
    } else if level == 3 {
        match k {
            TokV::Plus => Some(BinOp::Add),
            TokV::Minus => Some(BinOp::Sub),
            _ => None,
        }
    } else if level == 4 {
        match k {
            TokV::Star => Some(BinOp::Mul),
            TokV::Slash => Some(BinOp::Div),
            TokV::Percent => Some(BinOp::Rem),
            _ => None,
        }
    } else {
        None
    }
}

/// The operator of a compound assignment; plain `=` has none.
pub open spec fn assignment(k: TokV) -> Option<Option<BinOp>> {
    match k {
        TokV::Eq => Some(None),
        TokV::PlusEq => Some(Some(BinOp::Add)),
        TokV::MinusEq => Some(Some(BinOp::Sub)),
        TokV::StarEq => Some(Some(BinOp::Mul)),
        TokV::SlashEq => Some(Some(BinOp::Div)),
        _ => None,
    }
}

/// A type. `lit` says whether `S {` opens a struct literal in the expressions inside.
pub open spec fn s_type(g: Source, p: int, lit: bool) -> Result<(TypeV, int), DiagV>
    decreases g.t.len() - p, 0int,
{
    let p1 = g.next(p);
    match g.tok(p) {
        TokV::Ident(s) => Ok((TypeV::Named(s), p1)),
        TokV::LParen => match g.want(p1, TokV::RParen, "`)`"@) {
            Ok(q) => Ok((TypeV::Unit, q)),
            Err(e) => Err(e),
        },
        TokV::LBracket => if !g.past(p, p1) {
            arbitrary()
        } else {
            match s_type(g, p1, lit) {
                Ok((elem, p2)) => if g.tok(p2) == TokV::RBracket {
                    Ok((TypeV::Owned(Box::new(elem)), g.next(p2)))
                } else {
                    match g.want(p2, TokV::Semi, "`;` in array type"@) {
                        Ok(p3) => if !g.past(p, p3) {
                            arbitrary()
                        } else {
                            match s_level(g, p3, lit, 0) {
                                Ok((n, p4)) => match g.want(p4, TokV::RBracket, "`]`"@) {
                                    Ok(q) => Ok((TypeV::Array(Box::new(elem), Box::new(n)), q)),
                                    Err(e) => Err(e),
                                },
                                Err(e) => Err(e),
                            }
                        },
                        Err(e) => Err(e),
                    }
                },
                Err(e) => Err(e),
            }
        },
        TokV::Amp => {
            let mutable = g.tok(p1) == TokV::Mut;
            let p2 = if mutable {
                g.next(p1)
            } else {
                p1
            };
            match g.want(p2, TokV::LBracket, "`[` after `&`"@) {
                Ok(p3) => if !g.past(p, p3) {
                    arbitrary()
                } else {
                    match s_type(g, p3, lit) {
                        Ok((elem, p4)) => match g.want(p4, TokV::RBracket, "`]`"@) {
                            Ok(q) => Ok((TypeV::Slice(Box::new(elem), mutable), q)),
                            Err(e) => Err(e),
                        },
                        Err(e) => Err(e),
                    }
                },
                Err(e) => Err(e),
            }
        },
        k => g.fault(p, "expected a type, found "@ + s_describe(k)),
    }
}

/// A block: statements, and perhaps an expression that is its value.
pub open spec fn s_block(g: Source, p: int, lit: bool) -> Result<(BlockV, int), DiagV>
    decreases g.t.len() - p, 0int,
{
    match g.want(p, TokV::LBrace, "`{`"@) {
        Ok(p1) => if !g.past(p, p1) {
            arbitrary()
        } else {
            s_items(g, p1, lit, Seq::empty(), p)
        },
        Err(e) => Err(e),
    }
}

/// The rest of the block that opens at `open`, after the statements in `got`.
pub open spec fn s_items(g: Source, p: int, lit: bool, got: Seq<StmtV>, open: int) -> Result<(BlockV, int), DiagV>
    decreases g.t.len() - p, 22int,
{
    let (line, col) = (g.t[open].line, g.t[open].col);
    if g.tok(p) == TokV::RBrace {
        Ok((BlockV { stmts: got, tail: None, line, col }, g.next(p)))
    } else if g.tok(p) == TokV::Eof {
        fault(line, col, "unclosed `{`"@)
    } else {
        match s_item(g, p, lit) {
            Ok((ItemV::Stmt(s), q)) => if !g.past(p, q) {
                arbitrary()
            } else {
                s_items(g, q, lit, got.push(s), open)
            },
            Ok((ItemV::Tail(e), q)) => match g.want(q, TokV::RBrace, "`}`"@) {
                Ok(r) => Ok((BlockV { stmts: got, tail: Some(Box::new(e)), line, col }, r)),
                Err(e) => Err(e),
            },
            Err(e) => Err(e),
        }
    }
}

/// What stands in a block: a statement, or the block's value.
pub enum ItemV {
    Stmt(StmtV),
    Tail(ExprV),
}

pub open spec fn s_item(g: Source, p: int, lit: bool) -> Result<(ItemV, int), DiagV>
    decreases g.t.len() - p, 21int,
{
    let (line, col) = (g.t[p].line, g.t[p].col);
    let p1 = g.next(p);
    match g.tok(p) {
        TokV::Let => if !g.past(p, p1) {
            arbitrary()
        } else {
            s_let(g, p1, lit, line, col)
        },
        TokV::For => if !g.past(p, p1) {
            arbitrary()
        } else {
            s_for(g, p1, lit, line, col)
        },
        TokV::Return => if !g.past(p, p1) {
            arbitrary()
        } else if g.tok(p1) == TokV::Semi {
            Ok((ItemV::Stmt(StmtV::Return(None, line, col)), g.next(p1)))
        } else {
            match s_level(g, p1, lit, 0) {
                Ok((e, p2)) => match g.want(p2, TokV::Semi, "`;`"@) {
                    Ok(q) => Ok((ItemV::Stmt(StmtV::Return(Some(e), line, col)), q)),
                    Err(e) => Err(e),
                },
                Err(e) => Err(e),
            }
        },
        TokV::While => if !g.past(p, p1) {
            arbitrary()
        } else {
            s_while(g, p1, lit, line, col)
        },
        TokV::Break => match g.want(p1, TokV::Semi, "`;`"@) {
            Ok(q) => Ok((ItemV::Stmt(StmtV::Break(line, col)), q)),
            Err(e) => Err(e),
        },
        k => {
            // in statement position an expression that begins with a block-like form ends at that
            // block, and a binary operator after it starts a new statement
            let r = if k == TokV::If || k == TokV::LBrace {
                s_primary(g, p, lit)
            } else {
                s_level(g, p, lit, 0)
            };
            match r {
                Ok((e, q)) => if !g.past(p, q) {
                    arbitrary()
                } else {
                    s_after_expr(g, q, lit, e, line, col)
                },
                Err(e) => Err(e),
            }
        },
    }
}

/// What follows an expression in statement position.
pub open spec fn s_after_expr(g: Source, q: int, lit: bool, e: ExprV, line: u32, col: u32) -> Result<
    (ItemV, int),
    DiagV,
>
    decreases g.t.len() - q, 21int,
{
    match assignment(g.tok(q)) {
        Some(op) => if !g.past(q, g.next(q)) {
            arbitrary()
        } else {
            match s_level(g, g.next(q), lit, 0) {
                Ok((value, p3)) => match g.want(p3, TokV::Semi, "`;`"@) {
                    Ok(r) => Ok((ItemV::Stmt(StmtV::Assign { target: e, op, value, line, col }), r)),
                    Err(e) => Err(e),
                },
                Err(e) => Err(e),
            }
        },
        None => if g.tok(q) == TokV::Semi {
            Ok((ItemV::Stmt(StmtV::Expr(e)), g.next(q)))
        } else if g.tok(q) == TokV::RBrace {
            Ok((ItemV::Tail(e), q))
        } else if e.kind is If || e.kind is Block {
            Ok((ItemV::Stmt(StmtV::Expr(e)), q))
        } else {
            g.fault(q, "expected `;`, found "@ + s_describe(g.tok(q)))
        },
    }
}

/// A `let` after its keyword.
pub open spec fn s_let(g: Source, p: int, lit: bool, line: u32, col: u32) -> Result<(ItemV, int), DiagV>
    decreases g.t.len() - p, 21int,
{
    let mutable = g.tok(p) == TokV::Mut;
    let p1 = if mutable {
        g.next(p)
    } else {
        p
    };
    match g.name(p1, "variable name"@) {
        Err(e) => Err(e),
        Ok((name, p2)) => {
            let typed: Result<(Option<TypeV>, int), DiagV> = if g.tok(p2) == TokV::Colon {
                if !g.past(p, g.next(p2)) {
                    arbitrary()
                } else {
                    match s_type(g, g.next(p2), lit) {
                        Ok((t, q)) => Ok((Some(t), q)),
                        Err(e) => Err(e),
                    }
                }
            } else {
                Ok((None, p2))
            };
            match typed {
                Err(e) => Err(e),
                Ok((ty, p3)) => match g.want(p3, TokV::Eq, "`=`"@) {
                    Err(e) => Err(e),
                    Ok(p4) => if !g.past(p, p4) {
                        arbitrary()
                    } else {
                        match s_level(g, p4, lit, 0) {
                            Err(e) => Err(e),
                            Ok((init, p5)) => match g.want(p5, TokV::Semi, "`;`"@) {
                                Err(e) => Err(e),
                                Ok(q) => Ok((ItemV::Stmt(StmtV::Let { name, mutable, ty, init, line, col }), q)),
                            },
                        }
                    },
                },
            }
        },
    }
}

/// A `for` after its keyword.
pub open spec fn s_for(g: Source, p: int, lit: bool, line: u32, col: u32) -> Result<(ItemV, int), DiagV>
    decreases g.t.len() - p, 21int,
{
    match g.name(p, "loop variable"@) {
        Err(e) => Err(e),
        Ok((var, p1)) => match g.want(p1, TokV::In, "`in`"@) {
            Err(e) => Err(e),
            Ok(p2) => if !g.past(p, p2) {
                arbitrary()
            } else {
                match s_level(g, p2, false, 0) {
                    Err(e) => Err(e),
                    Ok((start, p3)) => match g.want(p3, TokV::DotDot, "`..`"@) {
                        Err(e) => Err(e),
                        Ok(p4) => if !g.past(p, p4) {
                            arbitrary()
                        } else {
                            match s_level(g, p4, false, 0) {
                                Err(e) => Err(e),
                                Ok((end, p5)) => if !g.past(p, p5) {
                                    arbitrary()
                                } else {
                                    match s_block(g, p5, lit) {
                                        Err(e) => Err(e),
                                        Ok((body, q)) => Ok(
                                            (ItemV::Stmt(StmtV::For { var, start, end, body, line, col }), q),
                                        ),
                                    }
                                },
                            }
                        },
                    },
                }
            },
        },
    }
}

/// A `while` after its keyword.
pub open spec fn s_while(g: Source, p: int, lit: bool, line: u32, col: u32) -> Result<(ItemV, int), DiagV>
    decreases g.t.len() - p, 21int,
{
    match s_level(g, p, false, 0) {
        Err(e) => Err(e),
        Ok((cond, p1)) => {
            let measured: Result<(Option<ExprV>, int), DiagV> = if g.tok(p1) == TokV::Decreasing {
                if !g.past(p, g.next(p1)) {
                    arbitrary()
                } else {
                    match s_level(g, g.next(p1), false, 0) {
                        Ok((m, q)) => Ok((Some(m), q)),
                        Err(e) => Err(e),
                    }
                }
            } else {
                Ok((None, p1))
            };
            match measured {
                Err(e) => Err(e),
                Ok((decreasing, p2)) => if !g.past(p, p2) {
                    arbitrary()
                } else {
                    match s_block(g, p2, lit) {
                        Err(e) => Err(e),
                        Ok((body, q)) => Ok((ItemV::Stmt(StmtV::While { cond, decreasing, body, line, col }), q)),
                    }
                },
            }
        },
    }
}

/// An expression of a level of precedence: five levels of binary operators, then casts.
pub open spec fn s_level(g: Source, p: int, lit: bool, level: int) -> Result<(ExprV, int), DiagV>
    decreases g.t.len() - p, 20 - level,
{
    if 0 <= level < 5 {
        match s_level(g, p, lit, level + 1) {
            Ok((lhs, q)) => if !g.past(p, q) {
                arbitrary()
            } else {
                s_rest(g, q, lit, level, lhs)
            },
            Err(e) => Err(e),
        }
    } else if level == 5 {
        match s_unary(g, p, lit) {
            Ok((e, q)) => if !g.past(p, q) {
                arbitrary()
            } else {
                s_casts(g, q, lit, e)
            },
            Err(e) => Err(e),
        }
    } else {
        arbitrary()
    }
}

/// The operators and operands that follow `lhs` at a level; comparisons do not chain.
pub open spec fn s_rest(g: Source, p: int, lit: bool, level: int, lhs: ExprV) -> Result<(ExprV, int), DiagV>
    decreases g.t.len() - p, 0int,
{
    match operator(level, g.tok(p)) {
        None => Ok((lhs, p)),
        Some(op) => {
            let p1 = g.next(p);
            if !g.past(p, p1) {
                arbitrary()
            } else {
                match s_level(g, p1, lit, level + 1) {
                    Ok((rhs, p2)) => {
                        let e = g.expr_at(p, KindV::Binary(op, Box::new(lhs), Box::new(rhs)));
                        if level == 2 {
                            Ok((e, p2))
                        } else if !g.past(p, p2) {
                            arbitrary()
                        } else {
                            s_rest(g, p2, lit, level, e)
                        }
                    },
                    Err(e) => Err(e),
                }
            }
        },
    }
}

/// The casts that follow `e`.
pub open spec fn s_casts(g: Source, p: int, lit: bool, e: ExprV) -> Result<(ExprV, int), DiagV>
    decreases g.t.len() - p, 1int,
{
    if g.tok(p) == TokV::As {
        let p1 = g.next(p);
        if !g.past(p, p1) {
            arbitrary()
        } else {
            match s_type(g, p1, lit) {
                Ok((t, q)) => if !g.past(p, q) {
                    arbitrary()
                } else {
                    s_casts(g, q, lit, g.expr_at(p, KindV::Cast(Box::new(e), t)))
                },
                Err(e) => Err(e),
            }
        }
    } else {
        Ok((e, p))
    }
}

pub open spec fn s_unary(g: Source, p: int, lit: bool) -> Result<(ExprV, int), DiagV>
    decreases g.t.len() - p, 14int,
{
    let p1 = g.next(p);
    match g.tok(p) {
        TokV::Minus => if !g.past(p, p1) {
            arbitrary()
        } else {
            match s_unary(g, p1, lit) {
                Ok((e, q)) => Ok((g.expr_at(p, KindV::Unary(UnOp::Neg, Box::new(e))), q)),
                Err(e) => Err(e),
            }
        },
        TokV::Bang => if !g.past(p, p1) {
            arbitrary()
        } else {
            match s_unary(g, p1, lit) {
                Ok((e, q)) => Ok((g.expr_at(p, KindV::Unary(UnOp::Not, Box::new(e))), q)),
                Err(e) => Err(e),
            }
        },
        TokV::Amp => {
            let mutable = g.tok(p1) == TokV::Mut;
            let p2 = if mutable {
                g.next(p1)
            } else {
                p1
            };
            if !g.past(p, p2) {
                arbitrary()
            } else {
                match s_unary(g, p2, lit) {
                    Ok((e, q)) => Ok((g.expr_at(p, KindV::Ref(Box::new(e), mutable)), q)),
                    Err(e) => Err(e),
                }
            }
        },
        _ => match s_primary(g, p, lit) {
            Ok((e, q)) => if !g.past(p, q) {
                arbitrary()
            } else {
                s_postfix(g, q, lit, e)
            },
            Err(e) => Err(e),
        },
    }
}

/// The indexing, fields and method calls that follow `e`.
pub open spec fn s_postfix(g: Source, p: int, lit: bool, e: ExprV) -> Result<(ExprV, int), DiagV>
    decreases g.t.len() - p, 0int,
{
    let p1 = g.next(p);
    match g.tok(p) {
        TokV::LBracket => if !g.past(p, p1) {
            arbitrary()
        } else {
            match s_level(g, p1, lit, 0) {
                Ok((idx, p2)) => match g.want(p2, TokV::RBracket, "`]`"@) {
                    Ok(q) => if !g.past(p, q) {
                        arbitrary()
                    } else {
                        s_postfix(g, q, lit, g.expr_at(p, KindV::Index(Box::new(e), Box::new(idx))))
                    },
                    Err(e) => Err(e),
                },
                Err(e) => Err(e),
            }
        },
        TokV::Dot => match g.name(p1, "a field or method name"@) {
            Ok((name, p2)) => if g.tok(p2) == TokV::LParen {
                let p3 = g.next(p2);
                if !g.past(p, p3) {
                    arbitrary()
                } else {
                    match s_args(g, p3, lit, Seq::empty()) {
                        Ok((args, q)) => if !g.past(p, q) {
                            arbitrary()
                        } else {
                            s_postfix(g, q, lit, g.expr_at(p, KindV::MethodCall(Box::new(e), name, args)))
                        },
                        Err(e) => Err(e),
                    }
                }
            } else if !g.past(p, p2) {
                arbitrary()
            } else {
                s_postfix(g, p2, lit, g.expr_at(p, KindV::Field(Box::new(e), name)))
            },
            Err(e) => Err(e),
        },
        _ => Ok((e, p)),
    }
}

/// The rest of a list of arguments, after those in `got`.
pub open spec fn s_args(g: Source, p: int, lit: bool, got: Seq<ExprV>) -> Result<(Seq<ExprV>, int), DiagV>
    decreases g.t.len() - p, 21int,
{
    if g.tok(p) == TokV::RParen {
        Ok((got, g.next(p)))
    } else {
        match s_level(g, p, lit, 0) {
            Ok((e, q)) => if g.tok(q) == TokV::Comma {
                if !g.past(p, g.next(q)) {
                    arbitrary()
                } else {
                    s_args(g, g.next(q), lit, got.push(e))
                }
            } else {
                match g.want(q, TokV::RParen, "`)`"@) {
                    Ok(r) => Ok((got.push(e), r)),
                    Err(e) => Err(e),
                }
            },
            Err(e) => Err(e),
        }
    }
}

/// The rest of the fields of a struct literal, after those in `got`.
pub open spec fn s_fields(g: Source, p: int, got: Seq<(Seq<char>, ExprV)>) -> Result<
    (Seq<(Seq<char>, ExprV)>, int),
    DiagV,
>
    decreases g.t.len() - p, 0int,
{
    if g.tok(p) == TokV::RBrace {
        Ok((got, g.next(p)))
    } else {
        match g.name(p, "field name"@) {
            Err(e) => Err(e),
            Ok((f, p1)) => match g.want(p1, TokV::Colon, "`:`"@) {
                Err(e) => Err(e),
                Ok(p2) => if !g.past(p, p2) {
                    arbitrary()
                } else {
                    match s_level(g, p2, true, 0) {
                        Err(e) => Err(e),
                        Ok((v, q)) => if g.tok(q) == TokV::Comma {
                            if !g.past(p, g.next(q)) {
                                arbitrary()
                            } else {
                                s_fields(g, g.next(q), got.push((f, v)))
                            }
                        } else {
                            match g.want(q, TokV::RBrace, "`}`"@) {
                                Ok(r) => Ok((got.push((f, v)), r)),
                                Err(e) => Err(e),
                            }
                        },
                    }
                },
            },
        }
    }
}

/// The rest of the elements of an array literal, after those in `got`.
pub open spec fn s_elems(g: Source, p: int, lit: bool, got: Seq<ExprV>) -> Result<(Seq<ExprV>, int), DiagV>
    decreases g.t.len() - p, 0int,
{
    if g.tok(p) == TokV::Comma {
        let p1 = g.next(p);
        if g.tok(p1) == TokV::RBracket {
            Ok((got, g.next(p1)))
        } else if !g.past(p, p1) {
            arbitrary()
        } else {
            match s_level(g, p1, lit, 0) {
                Ok((e, q)) => if !g.past(p, q) {
                    arbitrary()
                } else {
                    s_elems(g, q, lit, got.push(e))
                },
                Err(e) => Err(e),
            }
        }
    } else {
        match g.want(p, TokV::RBracket, "`]`"@) {
            Ok(q) => Ok((got, q)),
            Err(e) => Err(e),
        }
    }
}

/// The rest of the parameters of a closure, after those in `got`.
pub open spec fn s_closure_params(g: Source, p: int, got: Seq<Seq<char>>) -> Result<(Seq<Seq<char>>, int), DiagV>
    decreases g.t.len() - p,
{
    if g.tok(p) == TokV::Pipe {
        Ok((got, g.next(p)))
    } else {
        match g.name(p, "closure parameter"@) {
            Err(e) => Err(e),
            Ok((x, q)) => if g.tok(q) == TokV::Comma {
                if !g.past(p, g.next(q)) {
                    arbitrary()
                } else {
                    s_closure_params(g, g.next(q), got.push(x))
                }
            } else {
                match g.want(q, TokV::Pipe, "`|`"@) {
                    Ok(r) => Ok((got.push(x), r)),
                    Err(e) => Err(e),
                }
            },
        }
    }
}

pub open spec fn s_primary(g: Source, p: int, lit: bool) -> Result<(ExprV, int), DiagV>
    decreases g.t.len() - p, 12int,
{
    let p1 = g.next(p);
    match g.tok(p) {
        TokV::Int(v) => Ok((g.expr_at(p, KindV::Int(v)), p1)),
        TokV::Float(v) => Ok((g.expr_at(p, KindV::Float(v)), p1)),
        TokV::Byte(v) => Ok((g.expr_at(p, KindV::Byte(v)), p1)),
        TokV::Bytes(v) => Ok((g.expr_at(p, KindV::Bytes(v)), p1)),
        TokV::True => Ok((g.expr_at(p, KindV::Bool(true)), p1)),
        TokV::False => Ok((g.expr_at(p, KindV::Bool(false)), p1)),
        TokV::Ident(name) => if g.tok(p1) == TokV::LParen {
            if !g.past(p, g.next(p1)) {
                arbitrary()
            } else {
                match s_args(g, g.next(p1), lit, Seq::empty()) {
                    Ok((args, q)) => Ok((g.expr_at(p, KindV::Call(name, args)), q)),
                    Err(e) => Err(e),
                }
            }
        } else if g.tok(p1) == TokV::LBrace && lit && g.structs.contains(name) {
            if !g.past(p, g.next(p1)) {
                arbitrary()
            } else {
                match s_fields(g, g.next(p1), Seq::empty()) {
                    Ok((fields, q)) => Ok((g.expr_at(p, KindV::StructLit(name, fields)), q)),
                    Err(e) => Err(e),
                }
            }
        } else {
            Ok((g.expr_at(p, KindV::Var(name)), p1))
        },
        TokV::LParen => if !g.past(p, p1) {
            arbitrary()
        } else {
            match s_level(g, p1, lit, 0) {
                Ok((e, p2)) => match g.want(p2, TokV::RParen, "`)`"@) {
                    Ok(q) => Ok((e, q)),
                    Err(e) => Err(e),
                },
                Err(e) => Err(e),
            }
        },
        TokV::LBracket => if !g.past(p, p1) {
            arbitrary()
        } else if g.tok(p1) == TokV::RBracket {
            g.fault(p, "empty array literal has no element type"@)
        } else {
            match s_level(g, p1, lit, 0) {
                Err(e) => Err(e),
                Ok((first, p2)) => if !g.past(p, p2) {
                    arbitrary()
                } else if g.tok(p2) == TokV::For {
                    s_comprehension(g, p2, lit, first, p)
                } else if g.tok(p2) == TokV::Semi {
                    if !g.past(p, g.next(p2)) {
                        arbitrary()
                    } else {
                        match s_level(g, g.next(p2), lit, 0) {
                            Ok((n, p3)) => match g.want(p3, TokV::RBracket, "`]`"@) {
                                Ok(q) => Ok((g.expr_at(p, KindV::ArrayRepeat(Box::new(first), Box::new(n))), q)),
                                Err(e) => Err(e),
                            },
                            Err(e) => Err(e),
                        }
                    }
                } else {
                    match s_elems(g, p2, lit, seq![first]) {
                        Ok((elems, q)) => Ok((g.expr_at(p, KindV::ArrayLit(elems)), q)),
                        Err(e) => Err(e),
                    }
                },
            }
        },
        TokV::If => if !g.past(p, p1) {
            arbitrary()
        } else {
            s_if(g, p1, lit, p)
        },
        TokV::LBrace => match s_block(g, p, lit) {
            Ok((b, q)) => Ok((g.expr_at(p, KindV::Block(b)), q)),
            Err(e) => Err(e),
        },
        TokV::Pipe => match s_closure_params(g, p1, Seq::empty()) {
            Ok((params, p2)) => if !g.past(p, p2) {
                arbitrary()
            } else {
                match s_level(g, p2, lit, 0) {
                    Ok((body, q)) => Ok((g.expr_at(p, KindV::Lambda(params, Box::new(body))), q)),
                    Err(e) => Err(e),
                }
            },
            Err(e) => Err(e),
        },
        k => g.fault(p, "expected an expression, found "@ + s_describe(k)),
    }
}

/// A comprehension that opens at `open`, from its `for` on.
pub open spec fn s_comprehension(g: Source, p: int, lit: bool, elem: ExprV, open: int) -> Result<(ExprV, int), DiagV>
    decreases g.t.len() - p, 0int,
{
    match g.name(g.next(p), "comprehension variable"@) {
        Err(e) => Err(e),
        Ok((var, p2)) => match g.want(p2, TokV::In, "`in`"@) {
            Err(e) => Err(e),
            Ok(p3) => if !g.past(p, p3) {
                arbitrary()
            } else {
                match s_level(g, p3, lit, 0) {
                    Err(e) => Err(e),
                    Ok((source, p4)) => {
                        let filtered: Result<(Option<Box<ExprV>>, int), DiagV> = if g.tok(p4) == TokV::If {
                            if !g.past(p, g.next(p4)) {
                                arbitrary()
                            } else {
                                match s_level(g, g.next(p4), lit, 0) {
                                    Ok((c, q)) => Ok((Some(Box::new(c)), q)),
                                    Err(e) => Err(e),
                                }
                            }
                        } else {
                            Ok((None, p4))
                        };
                        match filtered {
                            Err(e) => Err(e),
                            Ok((cond, p5)) => match g.want(p5, TokV::RBracket, "`]`"@) {
                                Err(e) => Err(e),
                                Ok(q) => Ok(
                                    (
                                        g.expr_at(
                                            open,
                                            KindV::Comprehension {
                                                elem: Box::new(elem),
                                                var,
                                                source: Box::new(source),
                                                cond,
                                            },
                                        ),
                                        q,
                                    ),
                                ),
                            },
                        }
                    },
                }
            },
        },
    }
}

/// The `if` that opens at `open`, after its keyword. `else if` is an else block whose value is the
/// inner `if`.
pub open spec fn s_if(g: Source, p: int, lit: bool, open: int) -> Result<(ExprV, int), DiagV>
    decreases g.t.len() - p, 21int,
{
    match s_level(g, p, false, 0) {
        Err(e) => Err(e),
        Ok((cond, p2)) => if !g.past(p, p2) {
            arbitrary()
        } else {
            match s_block(g, p2, lit) {
                Err(e) => Err(e),
                Ok((yes, p3)) => if g.tok(p3) == TokV::Else {
                    let p4 = g.next(p3);
                    if !g.past(p, p4) {
                        arbitrary()
                    } else if g.tok(p4) == TokV::If {
                        match s_primary(g, p4, lit) {
                            Ok((inner, q)) => {
                                let els = BlockV {
                                    stmts: Seq::empty(),
                                    tail: Some(Box::new(inner)),
                                    line: g.t[p4].line,
                                    col: g.t[p4].col,
                                };
                                Ok((g.expr_at(open, KindV::If(Box::new(cond), yes, Some(els))), q))
                            },
                            Err(e) => Err(e),
                        }
                    } else {
                        match s_block(g, p4, lit) {
                            Ok((els, q)) => Ok((g.expr_at(open, KindV::If(Box::new(cond), yes, Some(els))), q)),
                            Err(e) => Err(e),
                        }
                    }
                } else {
                    Ok((g.expr_at(open, KindV::If(Box::new(cond), yes, None)), p3))
                },
            }
        },
    }
}

// ---- items of a program ----

/// `#[name(key = "value", …)]` or `#[name(word)]`
pub struct AttrV {
    pub name: Seq<char>,
    pub pairs: Seq<PairV>,
    pub words: Seq<Seq<char>>,
    pub line: u32,
    pub col: u32,
}

/// The rest of what an attribute holds, to its closing `)`.
pub open spec fn s_attr_words(g: Source, p: int, pairs: Seq<PairV>, words: Seq<Seq<char>>) -> Result<
    (Seq<PairV>, Seq<Seq<char>>, int),
    DiagV,
>
    decreases g.t.len() - p,
{
    if g.tok(p) == TokV::RParen {
        Ok((pairs, words, g.next(p)))
    } else {
        match g.name(p, "an attribute key"@) {
            Err(e) => Err(e),
            Ok((key, p1)) => {
                let entry: Result<(Seq<PairV>, Seq<Seq<char>>, int), DiagV> = if g.tok(p1) == TokV::Eq {
                    let p2 = g.next(p1);
                    match g.tok(p2) {
                        TokV::Str(val) => Ok(
                            (
                                pairs.push(PairV { key, val, line: g.t[p].line, col: g.t[p].col }),
                                words,
                                g.next(p2),
                            ),
                        ),
                        _ => g.fault(p2, "an attribute value is a string: `\"n log n\"`"@),
                    }
                } else {
                    Ok((pairs, words.push(key), p1))
                };
                match entry {
                    Err(e) => Err(e),
                    Ok((ps, ws, q)) => if g.tok(q) == TokV::Comma {
                        if !g.past(p, g.next(q)) {
                            arbitrary()
                        } else {
                            s_attr_words(g, g.next(q), ps, ws)
                        }
                    } else {
                        match g.want(q, TokV::RParen, "`)`"@) {
                            Ok(r) => Ok((ps, ws, r)),
                            Err(e) => Err(e),
                        }
                    },
                }
            },
        }
    }
}

/// One attribute.
pub open spec fn s_attr(g: Source, p: int) -> Result<(AttrV, int), DiagV> {
    match g.want(g.next(p), TokV::LBracket, "`[`"@) {
        Err(e) => Err(e),
        Ok(p1) => match g.name(p1, "attribute name"@) {
            Err(e) => Err(e),
            Ok((name, p2)) => match g.want(p2, TokV::LParen, "`(`"@) {
                Err(e) => Err(e),
                Ok(p3) => match s_attr_words(g, p3, Seq::empty(), Seq::empty()) {
                    Err(e) => Err(e),
                    Ok((pairs, words, p4)) => match g.want(p4, TokV::RBracket, "`]`"@) {
                        Err(e) => Err(e),
                        Ok(q) => Ok((AttrV { name, pairs, words, line: g.t[p].line, col: g.t[p].col }, q)),
                    },
                },
            },
        },
    }
}

/// The attributes from `p` on, after those in `got`.
pub open spec fn s_attrs(g: Source, p: int, got: Seq<AttrV>) -> Result<(Seq<AttrV>, int), DiagV>
    decreases g.t.len() - p,
{
    if g.tok(p) == TokV::Hash {
        match s_attr(g, p) {
            Ok((a, q)) => if !g.past(p, q) {
                arbitrary()
            } else {
                s_attrs(g, q, got.push(a))
            },
            Err(e) => Err(e),
        }
    } else {
        Ok((got, p))
    }
}

/// The layout that a struct's attributes ask for, the last one counting.
pub open spec fn s_layout(attrs: Seq<AttrV>) -> Result<Option<Seq<char>>, DiagV>
    decreases attrs.len(),
{
    if attrs.len() == 0 {
        Ok(None)
    } else {
        let a = attrs.last();
        match s_layout(attrs.drop_last()) {
            Err(e) => Err(e),
            Ok(_) => if a.name != "layout"@ {
                fault(
                    a.line,
                    a.col,
                    "`#["@ + a.name + "]` does not apply to a struct; only `#[layout(aos)]` / `#[layout(soa)]`"@,
                )
            } else if a.words.len() == 1 && (a.words[0] == "aos"@ || a.words[0] == "soa"@) {
                Ok(Some(a.words[0]))
            } else {
                fault(a.line, a.col, "`#[layout(...)]` takes `aos` or `soa`"@)
            },
        }
    }
}

/// The bounds that a function's attributes assert.
pub open spec fn s_asserts(attrs: Seq<AttrV>) -> Result<Seq<PairV>, DiagV>
    decreases attrs.len(),
{
    if attrs.len() == 0 {
        Ok(Seq::empty())
    } else {
        let a = attrs.last();
        match s_asserts(attrs.drop_last()) {
            Err(e) => Err(e),
            Ok(before) => if a.name != "cost"@ {
                fault(
                    a.line,
                    a.col,
                    "unknown attribute `"@ + a.name + "` on a function; only `#[cost(...)]` exists"@,
                )
            } else if a.words.len() > 0 {
                fault(a.line, a.col, "`#[cost(...)]` takes `key = \"expr\"` pairs"@)
            } else {
                Ok(before + a.pairs)
            },
        }
    }
}

/// The rest of a struct's fields, to its closing brace.
pub open spec fn s_field_defs(g: Source, p: int, got: Seq<FieldDefV>) -> Result<(Seq<FieldDefV>, int), DiagV>
    decreases g.t.len() - p,
{
    if g.tok(p) == TokV::RBrace {
        Ok((got, g.next(p)))
    } else {
        match g.name(p, "field name"@) {
            Err(e) => Err(e),
            Ok((name, p1)) => match g.want(p1, TokV::Colon, "`:`"@) {
                Err(e) => Err(e),
                Ok(p2) => match s_type(g, p2, true) {
                    Err(e) => Err(e),
                    Ok((ty, q)) => {
                        let f = FieldDefV { name, ty, line: g.t[p].line, col: g.t[p].col };
                        if g.tok(q) == TokV::Comma {
                            if !g.past(p, g.next(q)) {
                                arbitrary()
                            } else {
                                s_field_defs(g, g.next(q), got.push(f))
                            }
                        } else {
                            match g.want(q, TokV::RBrace, "`}`"@) {
                                Ok(r) => Ok((got.push(f), r)),
                                Err(e) => Err(e),
                            }
                        }
                    },
                },
            },
        }
    }
}

pub open spec fn s_struct(g: Source, p: int, attrs: Seq<AttrV>) -> Result<(StructDefV, int), DiagV> {
    match s_layout(attrs) {
        Err(e) => Err(e),
        Ok(layout) => match g.want(p, TokV::Struct, "`struct`"@) {
            Err(e) => Err(e),
            Ok(p1) => match g.name(p1, "struct name"@) {
                Err(e) => Err(e),
                Ok((name, p2)) => match g.want(p2, TokV::LBrace, "`{`"@) {
                    Err(e) => Err(e),
                    Ok(p3) => match s_field_defs(g, p3, Seq::empty()) {
                        Err(e) => Err(e),
                        Ok((fields, q)) => Ok(
                            (StructDefV { name, fields, layout, line: g.t[p].line, col: g.t[p].col }, q),
                        ),
                    },
                },
            },
        },
    }
}

/// The rest of a function's parameters, to the closing parenthesis.
pub open spec fn s_params(g: Source, p: int, got: Seq<ParamV>) -> Result<(Seq<ParamV>, int), DiagV>
    decreases g.t.len() - p,
{
    if g.tok(p) == TokV::RParen {
        Ok((got, g.next(p)))
    } else {
        match g.name(p, "parameter name"@) {
            Err(e) => Err(e),
            Ok((name, p1)) => match g.want(p1, TokV::Colon, "`:`"@) {
                Err(e) => Err(e),
                Ok(p2) => match s_type(g, p2, true) {
                    Err(e) => Err(e),
                    Ok((ty, q)) => {
                        let f = ParamV { name, ty, line: g.t[p].line, col: g.t[p].col };
                        if g.tok(q) == TokV::Comma {
                            if !g.past(p, g.next(q)) {
                                arbitrary()
                            } else {
                                s_params(g, g.next(q), got.push(f))
                            }
                        } else {
                            match g.want(q, TokV::RParen, "`)`"@) {
                                Ok(r) => Ok((got.push(f), r)),
                                Err(e) => Err(e),
                            }
                        }
                    },
                },
            },
        }
    }
}

/// The effects after `uses`.
pub open spec fn s_uses(g: Source, p: int, got: Seq<Seq<char>>) -> Result<(Seq<Seq<char>>, int), DiagV>
    decreases g.t.len() - p,
{
    match g.name(p, "an effect (`io`, `unbounded`)"@) {
        Err(e) => Err(e),
        Ok((x, q)) => if g.tok(q) == TokV::Comma {
            if !g.past(p, g.next(q)) {
                arbitrary()
            } else {
                s_uses(g, g.next(q), got.push(x))
            }
        } else {
            Ok((got.push(x), q))
        },
    }
}

/// What stands between a function's name and its body.
pub struct HeadV {
    pub name: Seq<char>,
    pub params: Seq<ParamV>,
    pub ret: TypeV,
    pub uses: Seq<Seq<char>>,
}

pub open spec fn s_head(g: Source, p: int) -> Result<(HeadV, int), DiagV> {
    match g.want(p, TokV::Fn, "`fn`"@) {
        Err(e) => Err(e),
        Ok(p1) => match g.name(p1, "function name"@) {
            Err(e) => Err(e),
            Ok((name, p2)) => match g.want(p2, TokV::LParen, "`(`"@) {
                Err(e) => Err(e),
                Ok(p3) => match s_params(g, p3, Seq::empty()) {
                    Err(e) => Err(e),
                    Ok((params, p4)) => {
                        let returned: Result<(TypeV, int), DiagV> = if g.tok(p4) == TokV::Arrow {
                            s_type(g, g.next(p4), true)
                        } else {
                            Ok((TypeV::Unit, p4))
                        };
                        match returned {
                            Err(e) => Err(e),
                            Ok((ret, p5)) => {
                                let used: Result<(Seq<Seq<char>>, int), DiagV> = if g.tok(p5) == TokV::Uses {
                                    s_uses(g, g.next(p5), Seq::empty())
                                } else {
                                    Ok((Seq::empty(), p5))
                                };
                                match used {
                                    Err(e) => Err(e),
                                    Ok((uses, q)) => Ok((HeadV { name, params, ret, uses }, q)),
                                }
                            },
                        }
                    },
                },
            },
        },
    }
}

pub open spec fn s_func(g: Source, p: int, attrs: Seq<AttrV>) -> Result<(FuncV, int), DiagV> {
    match s_asserts(attrs) {
        Err(e) => Err(e),
        Ok(asserts) => {
            let declared = g.tok(p) == TokV::Extern;
            let p1 = if declared {
                g.next(p)
            } else {
                p
            };
            match s_head(g, p1) {
                Err(e) => Err(e),
                Ok((h, p2)) => {
                    let rest: Result<(Option<BlockV>, int), DiagV> = if declared {
                        match g.want(p2, TokV::Semi, "`;` after an extern declaration"@) {
                            Ok(q) => Ok((None, q)),
                            Err(e) => Err(e),
                        }
                    } else {
                        match s_block(g, p2, true) {
                            Ok((b, q)) => Ok((Some(b), q)),
                            Err(e) => Err(e),
                        }
                    };
                    match rest {
                        Err(e) => Err(e),
                        Ok((body, q)) => Ok(
                            (
                                FuncV {
                                    name: h.name,
                                    params: h.params,
                                    ret: h.ret,
                                    body,
                                    uses: h.uses,
                                    asserts,
                                    line: g.t[p].line,
                                    col: g.t[p].col,
                                },
                                q,
                            ),
                        ),
                    }
                },
            }
        },
    }
}

/// The rest of a program, after what `got` holds.
pub open spec fn s_program(g: Source, p: int, got: ProgramV) -> Result<ProgramV, DiagV>
    decreases g.t.len() - p,
{
    if g.tok(p) == TokV::Eof {
        Ok(got)
    } else {
        match s_attrs(g, p, Seq::empty()) {
            Err(e) => Err(e),
            Ok((attrs, p1)) => if g.tok(p1) == TokV::Struct {
                match s_struct(g, p1, attrs) {
                    Err(e) => Err(e),
                    Ok((s, q)) => if !g.past(p, q) {
                        arbitrary()
                    } else {
                        s_program(g, q, ProgramV { funcs: got.funcs, structs: got.structs.push(s) })
                    },
                }
            } else {
                match s_func(g, p1, attrs) {
                    Err(e) => Err(e),
                    Ok((f, q)) => if !g.past(p, q) {
                        arbitrary()
                    } else {
                        s_program(g, q, ProgramV { funcs: got.funcs.push(f), structs: got.structs })
                    },
                }
            },
        }
    }
}

/// The names that follow `struct` among the first `n` tokens: they tell `S { … }` from a block
/// wherever a struct literal may stand.
pub open spec fn struct_names(t: Seq<TokenV>, n: int) -> Seq<Seq<char>>
    decreases n,
{
    if n < 2 {
        Seq::empty()
    } else {
        let before = struct_names(t, n - 1);
        match (t[n - 2].tok, t[n - 1].tok) {
            (TokV::Struct, TokV::Ident(s)) => before.push(s),
            _ => before,
        }
    }
}

/// The program that the tokens write.
pub open spec fn s_parse(t: Seq<TokenV>) -> Result<ProgramV, DiagV> {
    s_program(
        Source { t, structs: struct_names(t, t.len() as int) },
        0,
        ProgramV { funcs: Seq::empty(), structs: Seq::empty() },
    )
}

/// Tokens that a program can be read from: they end with the end-of-file token.
pub open spec fn ended(t: Seq<TokenV>) -> bool {
    t.len() > 0 && t.last().tok == TokV::Eof
}

} // verus!
