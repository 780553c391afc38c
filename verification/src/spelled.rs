//! How tokens are spelled, and that what is spelled is what is read.

use vstd::prelude::*;
use crate::grammar::spelling;
use crate::lex::{
    digit, digit_or_gap, digits_value, find, gapped_end, lex_from, number_end, s_lex, ungapped, word_char, word_end,
    word_start, word_token, Found, TokV, TokenV,
};
use crate::text::decimal;

verus! {

/// Names that are no keyword, whole numbers, and the tokens with one spelling.
pub open spec fn spellable(k: TokV) -> bool {
    match k {
        TokV::Ident(w) => w.len() > 0 && word_start(w[0]) && (forall|i: int| 0 <= i < w.len() ==> word_char(#[trigger] w[i]))
            && !keyword(w),
        TokV::Int(v) => v >= 0,
        TokV::Float(_) => false,
        TokV::Byte(_) => false,
        TokV::Bytes(_) => false,
        TokV::Str(_) => false,
        TokV::Eof => false,
        _ => true,
    }
}

pub open spec fn keyword(w: Seq<char>) -> bool {
    exists|k: TokV| #[trigger] is_word(k) && w == spelling(k)
}

/// The tokens that are words.
pub open spec fn is_word(k: TokV) -> bool {
    match k {
        TokV::Fn => true,
        TokV::Let => true,
        TokV::Mut => true,
        TokV::If => true,
        TokV::Else => true,
        TokV::For => true,
        TokV::In => true,
        TokV::Return => true,
        TokV::True => true,
        TokV::False => true,
        TokV::As => true,
        TokV::While => true,
        TokV::Break => true,
        TokV::Decreasing => true,
        TokV::Extern => true,
        TokV::Uses => true,
        TokV::Struct => true,
        _ => false,
    }
}

pub open spec fn spelled(k: TokV) -> Seq<char> {
    match k {
        TokV::Ident(w) => w,
        TokV::Int(v) => decimal(v as nat),
        _ => spelling(k),
    }
}

/// The tokens, each with a space after it.
pub open spec fn text_of(ts: Seq<TokV>) -> Seq<char>
    decreases ts.len(),
{
    if ts.len() == 0 {
        Seq::empty()
    } else {
        text_of(ts.drop_last()) + spelled(ts.last()) + seq![' ']
    }
}

// ---- words ----

proof fn word_ends(s: Seq<char>, i: int, j: int)
    requires
        0 <= i <= j < s.len(),
        forall|m: int| i <= m < j ==> word_char(#[trigger] s[m]),
        !word_char(s[j]),
    ensures
        word_end(s, i) == j,
    decreases j - i,
{
    if i < j {
        assert(word_char(s[i]));
        word_ends(s, i + 1, j);
    }
}

proof fn keywords_spelled()
    ensures
        "fn"@ =~= seq!['f', 'n'],
        "let"@ =~= seq!['l', 'e', 't'],
        "mut"@ =~= seq!['m', 'u', 't'],
        "if"@ =~= seq!['i', 'f'],
        "else"@ =~= seq!['e', 'l', 's', 'e'],
        "for"@ =~= seq!['f', 'o', 'r'],
        "in"@ =~= seq!['i', 'n'],
        "return"@ =~= seq!['r', 'e', 't', 'u', 'r', 'n'],
        "true"@ =~= seq!['t', 'r', 'u', 'e'],
        "false"@ =~= seq!['f', 'a', 'l', 's', 'e'],
        "as"@ =~= seq!['a', 's'],
        "while"@ =~= seq!['w', 'h', 'i', 'l', 'e'],
        "break"@ =~= seq!['b', 'r', 'e', 'a', 'k'],
        "decreasing"@ =~= seq!['d', 'e', 'c', 'r', 'e', 'a', 's', 'i', 'n', 'g'],
        "extern"@ =~= seq!['e', 'x', 't', 'e', 'r', 'n'],
        "uses"@ =~= seq!['u', 's', 'e', 's'],
        "struct"@ =~= seq!['s', 't', 'r', 'u', 'c', 't'],
{
    reveal_strlit("fn");
    reveal_strlit("let");
    reveal_strlit("mut");
    reveal_strlit("if");
    reveal_strlit("else");
    reveal_strlit("for");
    reveal_strlit("in");
    reveal_strlit("return");
    reveal_strlit("true");
    reveal_strlit("false");
    reveal_strlit("as");
    reveal_strlit("while");
    reveal_strlit("break");
    reveal_strlit("decreasing");
    reveal_strlit("extern");
    reveal_strlit("uses");
    reveal_strlit("struct");
}

/// Two letters tell keywords apart, with their length.
proof fn keyword_read(k: TokV)
    requires
        is_word(k),
    ensures
        word_token(spelling(k)) == k,
        spelling(k).len() > 0,
        word_start(spelling(k)[0]),
        forall|i: int| 0 <= i < spelling(k).len() ==> word_char(#[trigger] spelling(k)[i]),
{
    keywords_spelled();
    let w = spelling(k);
    let (n, a, b) = (w.len(), w[0], w[1]);
    assert(word_token(w) == k);
}

proof fn name_read(w: Seq<char>)
    requires
        !keyword(w),
    ensures
        word_token(w) == TokV::Ident(w),
{
    assert(is_word(TokV::Fn) && is_word(TokV::Let) && is_word(TokV::Mut) && is_word(TokV::If) && is_word(TokV::Else));
    assert(is_word(TokV::For) && is_word(TokV::In) && is_word(TokV::Return) && is_word(TokV::True) && is_word(TokV::False));
    assert(is_word(TokV::As) && is_word(TokV::While) && is_word(TokV::Break) && is_word(TokV::Decreasing));
    assert(is_word(TokV::Extern) && is_word(TokV::Uses) && is_word(TokV::Struct));
}

proof fn word_found(s: Seq<char>, i: int, w: Seq<char>)
    requires
        0 <= i,
        i + w.len() < s.len(),
        w.len() > 0,
        s.subrange(i, i + w.len()) == w,
        s[i + w.len()] == ' ',
        word_start(w[0]),
        forall|m: int| 0 <= m < w.len() ==> word_char(#[trigger] w[m]),
    ensures
        find(s, i) == Found::Token(word_token(w), i + w.len()),
{
    assert forall|m: int| i <= m < i + w.len() implies word_char(#[trigger] s[m]) by {
        assert(w[m - i] == s[m]);
    }
    assert(s[i] == w[0]);
    if w.len() > 1 {
        assert(s[i + 1] == w[1]);
    }
    word_ends(s, i, i + w.len());
}

// ---- numbers ----

proof fn decimal_read(n: nat)
    ensures
        decimal(n).len() > 0,
        forall|i: int| 0 <= i < decimal(n).len() ==> digit(#[trigger] decimal(n)[i]),
        digits_value(decimal(n)) == n,
    decreases n,
{
    let d = decimal(n);
    if n < 10 {
        assert(d.drop_last() =~= Seq::empty());
        reveal_with_fuel(digits_value, 2);
    } else {
        decimal_read(n / 10);
        assert(d.drop_last() =~= decimal(n / 10));
        assert forall|i: int| 0 <= i < d.len() implies digit(#[trigger] d[i]) by {
            if i < d.len() - 1 {
                assert(d[i] == decimal(n / 10)[i]);
            }
        }
    }
}

proof fn no_gaps(s: Seq<char>)
    requires
        forall|i: int| 0 <= i < s.len() ==> digit(#[trigger] s[i]),
    ensures
        ungapped(s) == s,
    decreases s.len(),
{
    if s.len() > 0 {
        let t = s.drop_last();
        assert forall|i: int| 0 <= i < t.len() implies digit(#[trigger] t[i]) by {
            assert(t[i] == s[i]);
        }
        no_gaps(t);
        assert(digit(s[s.len() - 1]));
        assert(t.push(s.last()) =~= s);
    }
}

proof fn digits_end_at(s: Seq<char>, i: int, j: int)
    requires
        0 <= i <= j < s.len(),
        forall|m: int| i <= m < j ==> digit(#[trigger] s[m]),
        !digit_or_gap(s[j]),
    ensures
        gapped_end(s, i) == j,
    decreases j - i,
{
    if i < j {
        assert(digit(s[i]));
        digits_end_at(s, i + 1, j);
    }
}

proof fn number_found(s: Seq<char>, i: int, v: i64)
    requires
        v >= 0,
        0 <= i,
        i + decimal(v as nat).len() < s.len(),
        s.subrange(i, i + decimal(v as nat).len()) == decimal(v as nat),
        s[i + decimal(v as nat).len()] == ' ',
    ensures
        find(s, i) == Found::Token(TokV::Int(v), i + decimal(v as nat).len()),
{
    let d = decimal(v as nat);
    let j = i + d.len();
    decimal_read(v as nat);
    assert forall|m: int| i <= m < j implies digit(#[trigger] s[m]) by {
        assert(d[m - i] == s[m]);
    }
    assert(digit(s[i]));
    digits_end_at(s, i, j);
    assert(number_end(s, i) == (j, false));
    no_gaps(d);
}

// ---- marks ----

proof fn marks_spelled()
    ensures
        "("@ =~= seq!['('],
        ")"@ =~= seq![')'],
        "["@ =~= seq!['['],
        "]"@ =~= seq![']'],
        "{"@ =~= seq!['{'],
        "}"@ =~= seq!['}'],
        ","@ =~= seq![','],
        ";"@ =~= seq![';'],
        ":"@ =~= seq![':'],
        "->"@ =~= seq!['-', '>'],
        "."@ =~= seq!['.'],
        ".."@ =~= seq!['.', '.'],
        "="@ =~= seq!['='],
        "=="@ =~= seq!['=', '='],
        "!="@ =~= seq!['!', '='],
        "<"@ =~= seq!['<'],
        "<="@ =~= seq!['<', '='],
        ">"@ =~= seq!['>'],
        ">="@ =~= seq!['>', '='],
        "+"@ =~= seq!['+'],
        "-"@ =~= seq!['-'],
        "*"@ =~= seq!['*'],
        "/"@ =~= seq!['/'],
        "%"@ =~= seq!['%'],
        "+="@ =~= seq!['+', '='],
        "-="@ =~= seq!['-', '='],
        "*="@ =~= seq!['*', '='],
        "/="@ =~= seq!['/', '='],
        "&"@ =~= seq!['&'],
        "&&"@ =~= seq!['&', '&'],
        "|"@ =~= seq!['|'],
        "||"@ =~= seq!['|', '|'],
        "!"@ =~= seq!['!'],
        "#"@ =~= seq!['#'],
{
    reveal_strlit("(");
    reveal_strlit(")");
    reveal_strlit("[");
    reveal_strlit("]");
    reveal_strlit("{");
    reveal_strlit("}");
    reveal_strlit(",");
    reveal_strlit(";");
    reveal_strlit(":");
    reveal_strlit("->");
    reveal_strlit(".");
    reveal_strlit("..");
    reveal_strlit("=");
    reveal_strlit("==");
    reveal_strlit("!=");
    reveal_strlit("<");
    reveal_strlit("<=");
    reveal_strlit(">");
    reveal_strlit(">=");
    reveal_strlit("+");
    reveal_strlit("-");
    reveal_strlit("*");
    reveal_strlit("/");
    reveal_strlit("%");
    reveal_strlit("+=");
    reveal_strlit("-=");
    reveal_strlit("*=");
    reveal_strlit("/=");
    reveal_strlit("&");
    reveal_strlit("&&");
    reveal_strlit("|");
    reveal_strlit("||");
    reveal_strlit("!");
    reveal_strlit("#");
}

proof fn mark_found(s: Seq<char>, i: int, k: TokV)
    requires
        spellable(k),
        !(k is Ident),
        !(k is Int),
        !is_word(k),
        0 <= i,
        i + spelling(k).len() < s.len(),
        s.subrange(i, i + spelling(k).len()) == spelling(k),
        s[i + spelling(k).len()] == ' ',
    ensures
        spelling(k).len() > 0,
        find(s, i) == Found::Token(k, i + spelling(k).len()),
{
    marks_spelled();
    let w = spelling(k);
    assert(w.len() == 1 || w.len() == 2);
    assert(s[i] == w[0]);
    if w.len() == 2 {
        assert(s[i + 1] == w[1]);
    }
}

// ---- the text ----

/// A token that is spelled with a space after it is found where it stands.
pub proof fn token_found(s: Seq<char>, i: int, k: TokV)
    requires
        spellable(k),
        0 <= i,
        i + spelled(k).len() < s.len(),
        s.subrange(i, i + spelled(k).len()) == spelled(k),
        s[i + spelled(k).len()] == ' ',
    ensures
        spelled(k).len() > 0,
        find(s, i) == Found::Token(k, i + spelled(k).len()),
{
    match k {
        TokV::Ident(w) => {
            word_found(s, i, w);
            name_read(w);
        },
        TokV::Int(v) => {
            decimal_read(v as nat);
            number_found(s, i, v);
        },
        _ => {
            if is_word(k) {
                keyword_read(k);
                word_found(s, i, spelling(k));
            } else {
                mark_found(s, i, k);
            }
        },
    }
}

/// The tokens alone.
pub open spec fn bare_tokens(ts: Seq<TokenV>) -> Seq<TokV> {
    Seq::new(ts.len(), |i: int| ts[i].tok)
}

proof fn text_grows(ts: Seq<TokV>, n: int)
    requires
        0 <= n < ts.len(),
    ensures
        text_of(ts.take(n + 1)) == text_of(ts.take(n)) + spelled(ts[n]) + seq![' '],
        text_of(ts.take(n + 1)).len() <= text_of(ts).len(),
        text_of(ts).take(text_of(ts.take(n + 1)).len() as int) == text_of(ts.take(n + 1)),
    decreases ts.len() - n,
{
    assert(ts.take(n + 1).drop_last() =~= ts.take(n));
    if n + 1 == ts.len() {
        assert(ts.take(n + 1) =~= ts);
        assert(text_of(ts).take(text_of(ts).len() as int) =~= text_of(ts));
    } else {
        text_grows(ts, n + 1);
        let (a, b, all) = (text_of(ts.take(n + 1)), text_of(ts.take(n + 2)), text_of(ts));
        assert(b == a + spelled(ts[n + 1]) + seq![' ']);
        assert(all.take(a.len() as int) =~= a) by {
            assert forall|j: int| 0 <= j < a.len() implies all[j] == a[j] by {
                assert(all.take(b.len() as int)[j] == b[j]);
            }
        }
    }
}

/// Where the `n`-th token stands in the text.
proof fn token_stands(ts: Seq<TokV>, n: int)
    requires
        0 <= n < ts.len(),
    ensures
        ({
            let (s, w) = (text_of(ts), spelled(ts[n]));
            let i = text_of(ts.take(n)).len() as int;
            &&& i + w.len() < s.len()
            &&& s.subrange(i, i + w.len()) == w
            &&& s[i + w.len()] == ' '
            &&& text_of(ts.take(n + 1)).len() == i + w.len() + 1
        }),
{
    let (s, w) = (text_of(ts), spelled(ts[n]));
    let before = text_of(ts.take(n));
    let i = before.len() as int;
    let j = i + w.len();
    text_grows(ts, n);
    let t = text_of(ts.take(n + 1));
    assert(t == before + w + seq![' ']);
    assert forall|m: int| 0 <= m < t.len() implies s[m] == #[trigger] t[m] by {
        assert(s.take(t.len() as int)[m] == t[m]);
    }
    assert forall|m: int| 0 <= m < w.len() implies s.subrange(i, j)[m] == w[m] by {
        assert(t[i + m] == w[m]);
    }
    assert(s.subrange(i, j) =~= w);
    assert(t[j] == ' ');
}

proof fn space_found(s: Seq<char>, j: int)
    requires
        0 <= j < s.len(),
        s[j] == ' ',
    ensures
        find(s, j) == Found::Blank,
{
}

proof fn more_tokens(ts: Seq<TokV>, n: int, got: Seq<TokenV>, t: TokenV)
    requires
        0 <= n < ts.len(),
        bare_tokens(got) == ts.take(n),
        t.tok == ts[n],
    ensures
        bare_tokens(got.push(t)) == ts.take(n + 1),
{
    let more = got.push(t);
    assert(bare_tokens(got).len() == n);
    assert forall|m: int| 0 <= m < n implies bare_tokens(more)[m] == ts[m] by {
        assert(bare_tokens(got)[m] == ts.take(n)[m]);
    }
    assert(bare_tokens(more) =~= ts.take(n + 1));
}

proof fn lexed_from(ts: Seq<TokV>, n: int, line: int, col: int, got: Seq<TokenV>)
    requires
        0 <= n <= ts.len(),
        forall|i: int| 0 <= i < ts.len() ==> spellable(#[trigger] ts[i]),
        bare_tokens(got) == ts.take(n),
    ensures
        ({
            let r = lex_from(text_of(ts), text_of(ts.take(n)).len() as int, line, col, got);
            r is Ok && bare_tokens(r->Ok_0) == ts.push(TokV::Eof)
        }),
    decreases ts.len() - n,
{
    let s = text_of(ts);
    let i = text_of(ts.take(n)).len() as int;
    if n == ts.len() {
        assert(ts.take(n) =~= ts);
        let r = lex_from(s, i, line, col, got)->Ok_0;
        assert(bare_tokens(r) =~= ts.push(TokV::Eof)) by {
            assert forall|k: int| 0 <= k < ts.len() implies bare_tokens(r)[k] == ts[k] by {
                assert(bare_tokens(got)[k] == ts[k]);
            }
        }
    } else {
        let k = ts[n];
        let j = i + spelled(k).len();
        token_stands(ts, n);
        assert(spellable(k));
        token_found(s, i, k);
        space_found(s, j);
        let t = TokenV { tok: k, line: line as u32, col: col as u32 };
        let more = got.push(t);
        more_tokens(ts, n, got, t);
        lexed_from(ts, n + 1, line, col + (j - i) + 1, more);
        assert(lex_from(s, i, line, col, got) == lex_from(s, j, line, col + (j - i), more));
        assert(lex_from(s, j, line, col + (j - i), more) == lex_from(s, j + 1, line, col + (j - i) + 1, more));
    }
}

/// Tokens that are spelled out, with a space after each, are the tokens that are read, and then the end.
pub proof fn spelled_is_read(ts: Seq<TokV>)
    requires
        forall|i: int| 0 <= i < ts.len() ==> spellable(#[trigger] ts[i]),
    ensures
        s_lex(text_of(ts)) is Ok,
        bare_tokens(s_lex(text_of(ts))->Ok_0) == ts.push(TokV::Eof),
{
    assert(ts.take(0) =~= Seq::empty());
    assert(bare_tokens(Seq::empty()) =~= ts.take(0));
    lexed_from(ts, 0, 1, 1, Seq::empty());
}

} // verus!
