//! How expressions are written, with brackets only where precedence needs them, and that what is written
//! is what is read.

use vstd::prelude::*;
use crate::ast::{BinOp, ExprV, KindV, UnOp};
use crate::diag::DiagV;
use crate::grammar::{operator, s_casts, s_level, s_postfix, s_primary, s_rest, s_unary, Source};
use crate::lex::TokV;

verus! {

/// The expression with no places noted in it.
pub open spec fn bare(e: ExprV) -> ExprV
    decreases e,
{
    ExprV {
        kind: match e.kind {
            KindV::Binary(op, a, b) => KindV::Binary(op, Box::new(bare(*a)), Box::new(bare(*b))),
            KindV::Unary(op, a) => KindV::Unary(op, Box::new(bare(*a))),
            KindV::Index(a, i) => KindV::Index(Box::new(bare(*a)), Box::new(bare(*i))),
            KindV::Field(a, f) => KindV::Field(Box::new(bare(*a)), f),
            k => k,
        },
        line: 0,
        col: 0,
    }
}

/// Literals and names, and operators, elements and fields of such.
pub open spec fn writable(e: ExprV) -> bool
    decreases e,
{
    match e.kind {
        KindV::Int(_) => true,
        KindV::Float(_) => true,
        KindV::Bool(_) => true,
        KindV::Byte(_) => true,
        KindV::Var(_) => true,
        KindV::Binary(_, a, b) => writable(*a) && writable(*b),
        KindV::Unary(_, a) => writable(*a),
        KindV::Index(a, i) => writable(*a) && writable(*i),
        KindV::Field(a, _) => writable(*a),
        _ => false,
    }
}

// ---- precedence ----

/// How tightly an operator binds: `||`, `&&`, comparisons, sums, products.
pub open spec fn binds(op: BinOp) -> int {
    match op {
        BinOp::Or => 0,
        BinOp::And => 1,
        BinOp::Add => 3,
        BinOp::Sub => 3,
        BinOp::Mul => 4,
        BinOp::Div => 4,
        BinOp::Rem => 4,
        _ => 2,
    }
}

pub open spec fn sign(op: BinOp) -> TokV {
    match op {
        BinOp::Or => TokV::PipePipe,
        BinOp::And => TokV::AmpAmp,
        BinOp::Eq => TokV::EqEq,
        BinOp::Ne => TokV::Ne,
        BinOp::Lt => TokV::Lt,
        BinOp::Le => TokV::Le,
        BinOp::Gt => TokV::Gt,
        BinOp::Ge => TokV::Ge,
        BinOp::Add => TokV::Plus,
        BinOp::Sub => TokV::Minus,
        BinOp::Mul => TokV::Star,
        BinOp::Div => TokV::Slash,
        BinOp::Rem => TokV::Percent,
    }
}

/// How tightly an expression holds together: a sign in front binds tighter than any operator between,
/// and an index or a field tighter than that.
pub open spec fn tightness(e: ExprV) -> int {
    match e.kind {
        KindV::Binary(op, _, _) => binds(op),
        KindV::Unary(_, _) => 5,
        _ => 6,
    }
}

/// An expression written where one at least that tight is wanted. Operators of one kind are taken from
/// the left, and comparisons do not chain.
pub open spec fn written(e: ExprV, n: int) -> Seq<TokV>
    decreases e, 1int,
{
    if tightness(e) < n {
        seq![TokV::LParen] + plainly(e) + seq![TokV::RParen]
    } else {
        plainly(e)
    }
}

pub open spec fn plainly(e: ExprV) -> Seq<TokV>
    decreases e, 0int,
{
    match e.kind {
        KindV::Int(v) => seq![TokV::Int(v)],
        KindV::Float(v) => seq![TokV::Float(v)],
        KindV::Bool(b) => seq![
            if b {
                TokV::True
            } else {
                TokV::False
            },
        ],
        KindV::Byte(b) => seq![TokV::Byte(b)],
        KindV::Var(s) => seq![TokV::Ident(s)],
        KindV::Binary(op, a, b) => written(
            *a,
            if binds(op) == 2 {
                3
            } else {
                binds(op)
            },
        ) + seq![sign(op)] + written(*b, binds(op) + 1),
        KindV::Unary(op, a) => seq![
            match op {
                UnOp::Neg => TokV::Minus,
                UnOp::Not => TokV::Bang,
            },
        ] + written(*a, 5),
        KindV::Index(a, i) => written(*a, 6) + seq![TokV::LBracket] + written(*i, 0) + seq![TokV::RBracket],
        KindV::Field(a, f) => written(*a, 6) + seq![TokV::Dot, TokV::Ident(f)],
        _ => Seq::empty(),
    }
}

/// The tokens stand in the source at `p`, and there is one after them.
pub open spec fn stands(g: Source, p: int, ts: Seq<TokV>) -> bool {
    &&& 0 <= p
    &&& p + ts.len() < g.t.len()
    &&& forall|i: int| 0 <= i < ts.len() ==> g.tok(p + i) == #[trigger] ts[i]
}

/// The token after an expression does not go on with it.
pub open spec fn stops(k: TokV, n: int) -> bool {
    &&& k != TokV::LParen && k != TokV::LBrace
    &&& n <= 5 ==> k != TokV::LBracket && k != TokV::Dot && k != TokV::As
    &&& forall|j: int| n <= j < 5 ==> #[trigger] operator(j, k) is None
}

proof fn stands_split(g: Source, p: int, a: Seq<TokV>, b: Seq<TokV>)
    requires
        stands(g, p, a + b),
    ensures
        stands(g, p + a.len(), b),
        p + a.len() + b.len() < g.t.len(),
        forall|i: int| 0 <= i < a.len() ==> g.tok(p + i) == #[trigger] a[i],
        b.len() > 0 ==> stands(g, p, a) && g.tok(p + a.len()) == b[0],
{
    let ts = a + b;
    assert forall|i: int| 0 <= i < b.len() implies g.tok(p + a.len() + i) == #[trigger] b[i] by {
        assert(ts[a.len() + i] == b[i]);
        assert(g.tok(p + (a.len() + i)) == ts[a.len() + i]);
    }
    assert forall|i: int| 0 <= i < a.len() implies g.tok(p + i) == #[trigger] a[i] by {
        assert(ts[i] == a[i]);
    }
    if b.len() > 0 {
        assert(g.tok(p + a.len() + 0) == b[0]);
    }
}

proof fn written_some(e: ExprV, n: int)
    requires
        writable(e),
    ensures
        written(e, n).len() > 0,
        plainly(e).len() > 0,
{
}

/// An operator's sign is that operator, at its own level only.
proof fn sign_read(op: BinOp)
    ensures
        operator(binds(op), sign(op)) == Some(op),
        stops(sign(op), binds(op) + 1),
{
}

spec fn rank(e: ExprV, n: int) -> int {
    if tightness(e) < n {
        1
    } else {
        0
    }
}

/// Elements and fields: the reading comes to the rest of what may follow them.
proof fn reads_tight(g: Source, p: int, lit: bool, e: ExprV) -> (r: ExprV)
    requires
        writable(e),
        stands(g, p, written(e, 6)),
        stops(g.tok(p + written(e, 6).len()), 6),
    ensures
        bare(r) == bare(e),
        s_unary(g, p, lit) == s_postfix(g, p + written(e, 6).len(), lit, r),
    decreases e, rank(e, 6), 0int, 0int,
{
    let q = p + written(e, 6).len();
    if tightness(e) < 6 {
        let body = plainly(e);
        written_some(e, 0);
        assert(written(e, 0) == body);
        let open = seq![TokV::LParen];
        let close = seq![TokV::RParen];
        stands_split(g, p, open + body, close);
        stands_split(g, p, open, body);
        assert(g.tok(p) == open[0]);
        let r = reads(g, p + 1, lit, e, 0);
        assert(g.tok(p + 1 + body.len()) == TokV::RParen);
        assert(q == p + 1 + body.len() + 1);
        assert(s_level(g, p + 1, lit, 0) == Ok::<(ExprV, int), DiagV>((r, q - 1)));
        assert(s_primary(g, p, lit) == Ok::<(ExprV, int), DiagV>((r, q)));
        r
    } else {
        match e.kind {
            KindV::Index(a, i) => {
                let (x, y) = (written(*a, 6), written(*i, 0));
                written_some(*a, 6);
                written_some(*i, 0);
                let open = seq![TokV::LBracket];
                let close = seq![TokV::RBracket];
                stands_split(g, p, x + open + y, close);
                stands_split(g, p, x + open, y);
                stands_split(g, p, x, open);
                let u = reads_tight(g, p, lit, *a);
                let m = p + x.len();
                let v = reads(g, m + 1, lit, *i, 0);
                let r = g.expr_at(m, KindV::Index(Box::new(u), Box::new(v)));
                assert(g.tok(m) == TokV::LBracket);
                assert(g.tok(q - 1) == TokV::RBracket);
                assert(s_level(g, m + 1, lit, 0) == Ok::<(ExprV, int), DiagV>((v, q - 1)));
                assert(s_postfix(g, m, lit, u) == s_postfix(g, q, lit, r));
                r
            },
            KindV::Field(a, f) => {
                let x = written(*a, 6);
                let dot = seq![TokV::Dot, TokV::Ident(f)];
                written_some(*a, 6);
                stands_split(g, p, x, dot);
                let u = reads_tight(g, p, lit, *a);
                let m = p + x.len();
                assert(g.tok(m + 1) == dot[1]);
                let r = g.expr_at(m, KindV::Field(Box::new(u), f));
                assert(q == m + 2);
                assert(s_postfix(g, m, lit, u) == s_postfix(g, q, lit, r));
                r
            },
            _ => {
                let ts = plainly(e);
                assert(ts.len() == 1);
                assert(g.tok(p + 0) == ts[0]);
                let r = g.expr_at(p, e.kind);
                assert(s_primary(g, p, lit) == Ok::<(ExprV, int), DiagV>((r, p + 1)));
                r
            },
        }
    }
}

/// Signs in front.
proof fn reads_signed(g: Source, p: int, lit: bool, e: ExprV) -> (r: ExprV)
    requires
        writable(e),
        stands(g, p, written(e, 5)),
        stops(g.tok(p + written(e, 5).len()), 5),
    ensures
        bare(r) == bare(e),
        s_unary(g, p, lit) == Ok::<(ExprV, int), DiagV>((r, p + written(e, 5).len())),
    decreases e, rank(e, 5), 1int, 0int,
{
    let q = p + written(e, 5).len();
    match e.kind {
        KindV::Unary(op, a) => {
            let x = written(*a, 5);
            let minus = seq![
                match op {
                    UnOp::Neg => TokV::Minus,
                    UnOp::Not => TokV::Bang,
                },
            ];
            stands_split(g, p, minus, x);
            assert(g.tok(p + 0) == minus[0]);
            let u = reads_signed(g, p + 1, lit, *a);
            g.expr_at(p, KindV::Unary(op, Box::new(u)))
        },
        _ => {
            assert(written(e, 5) == written(e, 6));
            reads_tight(g, p, lit, e)
        },
    }
}

/// Operators of a level: the reading comes to the rest of them.
proof fn reads_left(g: Source, p: int, lit: bool, e: ExprV, n: int) -> (r: ExprV)
    requires
        writable(e),
        0 <= n < 5,
        n != 2,
        stands(g, p, written(e, n)),
        stops(g.tok(p + written(e, n).len()), n + 1),
    ensures
        bare(r) == bare(e),
        s_level(g, p, lit, n) == s_rest(g, p + written(e, n).len(), lit, n, r),
    decreases e, rank(e, n), 10 - n, 0int,
{
    if tightness(e) == n {
        match e.kind {
            KindV::Binary(op, a, b) => {
                let (x, y) = (written(*a, n), written(*b, n + 1));
                let mid = seq![sign(op)];
                written_some(*a, n);
                written_some(*b, n + 1);
                sign_read(op);
                stands_split(g, p, x + mid, y);
                stands_split(g, p, x, mid);
                let u = reads_left(g, p, lit, *a, n);
                let m = p + x.len();
                let v = reads(g, m + 1, lit, *b, n + 1);
                g.expr_at(m, KindV::Binary(op, Box::new(u), Box::new(v)))
            },
            _ => e,
        }
    } else {
        assert(written(e, n) == written(e, n + 1));
        written_some(e, n);
        reads(g, p, lit, e, n + 1)
    }
}

/// An expression of a level.
proof fn reads(g: Source, p: int, lit: bool, e: ExprV, n: int) -> (r: ExprV)
    requires
        writable(e),
        0 <= n <= 5,
        stands(g, p, written(e, n)),
        stops(g.tok(p + written(e, n).len()), n),
    ensures
        bare(r) == bare(e),
        s_level(g, p, lit, n) == Ok::<(ExprV, int), DiagV>((r, p + written(e, n).len())),
    decreases e, rank(e, n), 10 - n, 1int,
{
    let q = p + written(e, n).len();
    written_some(e, n);
    if n == 5 {
        let r = reads_signed(g, p, lit, e);
        assert(s_casts(g, q, lit, r) == Ok::<(ExprV, int), DiagV>((r, q)));
        r
    } else if n == 2 {
        if tightness(e) == 2 {
            match e.kind {
                KindV::Binary(op, a, b) => {
                    let (x, y) = (written(*a, 3), written(*b, 3));
                    let mid = seq![sign(op)];
                    written_some(*a, 3);
                    written_some(*b, 3);
                    sign_read(op);
                    stands_split(g, p, x + mid, y);
                    stands_split(g, p, x, mid);
                    let u = reads(g, p, lit, *a, 3);
                    let m = p + x.len();
                    let v = reads(g, m + 1, lit, *b, 3);
                    let r = g.expr_at(m, KindV::Binary(op, Box::new(u), Box::new(v)));
                    assert(s_rest(g, m, lit, 2, u) == Ok::<(ExprV, int), DiagV>((r, q)));
                    r
                },
                _ => e,
            }
        } else {
            assert(written(e, 2) == written(e, 3));
            let r = reads(g, p, lit, e, 3);
            assert(operator(2, g.tok(q)) is None);
            assert(s_rest(g, q, lit, 2, r) == Ok::<(ExprV, int), DiagV>((r, q)));
            r
        }
    } else {
        let r = reads_left(g, p, lit, e, n);
        assert(operator(n, g.tok(q)) is None);
        assert(s_rest(g, q, lit, n, r) == Ok::<(ExprV, int), DiagV>((r, q)));
        r
    }
}

/// An expression that is written is read: as it was, up to where it stands, to the last of its tokens.
/// So a product in a sum needs no brackets and a sum in a product has them, operators of one kind group
/// from the left, and brackets leave nothing behind.
pub proof fn written_is_read(g: Source, p: int, lit: bool, e: ExprV)
    requires
        writable(e),
        stands(g, p, written(e, 0)),
        stops(g.tok(p + written(e, 0).len()), 0),
    ensures
        exists|r: ExprV| #[trigger]
            bare(r) == bare(e) && s_level(g, p, lit, 0) == Ok::<(ExprV, int), DiagV>((r, p + written(e, 0).len())),
{
    let r = reads(g, p, lit, e, 0);
    assert(bare(r) == bare(e));
}

} // verus!
