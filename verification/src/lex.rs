//! Tokens. `//` comments to end of line. A float literal has a `.` followed by a digit, so
//! `0..n` is Int DotDot Ident and `a.len()` is Ident Dot Ident.

use vstd::prelude::*;
use crate::diag::{fault, Diag, DiagV};
use crate::text::{cat3, chars_of, one_char, text_of};

verus! {

/// What a token is.
#[derive(Debug, PartialEq)]
pub enum Tok {
    Ident(String),
    Int(i64),
    /// the digits of a float literal, without `_`
    Float(String),
    /// `b'a'`
    Byte(u8),
    /// `b"..."`
    Bytes(Vec<u8>),
    /// `"..."` — only inside attributes
    Str(String),
    Fn, Let, Mut, If, Else, For, In, Return, True, False, As, While, Break, Decreasing,
    Extern, Uses, Struct,
    LParen, RParen, LBracket, RBracket, LBrace, RBrace,
    Comma, Semi, Colon, Arrow, Dot, DotDot,
    Eq, EqEq, Ne, Lt, Le, Gt, Ge,
    Plus, Minus, Star, Slash, Percent,
    PlusEq, MinusEq, StarEq, SlashEq,
    Amp, AmpAmp, Pipe, PipePipe, Bang, Hash,
    Eof,
}

/// A token and where it starts.
#[derive(Debug)]
pub struct Token {
    pub tok: Tok,
    pub line: u32,
    pub col: u32,
}

/// A token as a value.
pub enum TokV {
    Ident(Seq<char>),
    Int(i64),
    Float(Seq<char>),
    Byte(u8),
    Bytes(Seq<u8>),
    Str(Seq<char>),
    Fn, Let, Mut, If, Else, For, In, Return, True, False, As, While, Break, Decreasing,
    Extern, Uses, Struct,
    LParen, RParen, LBracket, RBracket, LBrace, RBrace,
    Comma, Semi, Colon, Arrow, Dot, DotDot,
    Eq, EqEq, Ne, Lt, Le, Gt, Ge,
    Plus, Minus, Star, Slash, Percent,
    PlusEq, MinusEq, StarEq, SlashEq,
    Amp, AmpAmp, Pipe, PipePipe, Bang, Hash,
    Eof,
}

pub struct TokenV {
    pub tok: TokV,
    pub line: u32,
    pub col: u32,
}

impl View for Tok {
    type V = TokV;

    open spec fn view(&self) -> TokV {
        match *self {
            Tok::Ident(s) => TokV::Ident(s@),
            Tok::Int(v) => TokV::Int(v),
            Tok::Float(s) => TokV::Float(s@),
            Tok::Byte(v) => TokV::Byte(v),
            Tok::Bytes(v) => TokV::Bytes(v@),
            Tok::Str(s) => TokV::Str(s@),
            Tok::Fn => TokV::Fn,
            Tok::Let => TokV::Let,
            Tok::Mut => TokV::Mut,
            Tok::If => TokV::If,
            Tok::Else => TokV::Else,
            Tok::For => TokV::For,
            Tok::In => TokV::In,
            Tok::Return => TokV::Return,
            Tok::True => TokV::True,
            Tok::False => TokV::False,
            Tok::As => TokV::As,
            Tok::While => TokV::While,
            Tok::Break => TokV::Break,
            Tok::Decreasing => TokV::Decreasing,
            Tok::Extern => TokV::Extern,
            Tok::Uses => TokV::Uses,
            Tok::Struct => TokV::Struct,
            Tok::LParen => TokV::LParen,
            Tok::RParen => TokV::RParen,
            Tok::LBracket => TokV::LBracket,
            Tok::RBracket => TokV::RBracket,
            Tok::LBrace => TokV::LBrace,
            Tok::RBrace => TokV::RBrace,
            Tok::Comma => TokV::Comma,
            Tok::Semi => TokV::Semi,
            Tok::Colon => TokV::Colon,
            Tok::Arrow => TokV::Arrow,
            Tok::Dot => TokV::Dot,
            Tok::DotDot => TokV::DotDot,
            Tok::Eq => TokV::Eq,
            Tok::EqEq => TokV::EqEq,
            Tok::Ne => TokV::Ne,
            Tok::Lt => TokV::Lt,
            Tok::Le => TokV::Le,
            Tok::Gt => TokV::Gt,
            Tok::Ge => TokV::Ge,
            Tok::Plus => TokV::Plus,
            Tok::Minus => TokV::Minus,
            Tok::Star => TokV::Star,
            Tok::Slash => TokV::Slash,
            Tok::Percent => TokV::Percent,
            Tok::PlusEq => TokV::PlusEq,
            Tok::MinusEq => TokV::MinusEq,
            Tok::StarEq => TokV::StarEq,
            Tok::SlashEq => TokV::SlashEq,
            Tok::Amp => TokV::Amp,
            Tok::AmpAmp => TokV::AmpAmp,
            Tok::Pipe => TokV::Pipe,
            Tok::PipePipe => TokV::PipePipe,
            Tok::Bang => TokV::Bang,
            Tok::Hash => TokV::Hash,
            Tok::Eof => TokV::Eof,
        }
    }
}

impl View for Token {
    type V = TokenV;

    open spec fn view(&self) -> TokenV {
        TokenV { tok: self.tok@, line: self.line, col: self.col }
    }
}

pub open spec fn tokens_v(s: Seq<Token>) -> Seq<TokenV> {
    Seq::new(s.len(), |i: int| s[i]@)
}

// ---- characters ----

/// The characters that Unicode calls white space.
pub open spec fn blank(c: char) -> bool {
    let n = c as int;
    9 <= n <= 13 || n == 32 || n == 0x85 || n == 0xa0 || n == 0x1680 || 0x2000 <= n <= 0x200a || n == 0x2028 || n
        == 0x2029 || n == 0x202f || n == 0x205f || n == 0x3000
}

pub open spec fn digit(c: char) -> bool {
    '0' <= c && c <= '9'
}

pub open spec fn word_start(c: char) -> bool {
    'a' <= c && c <= 'z' || 'A' <= c && c <= 'Z' || c == '_'
}

pub open spec fn word_char(c: char) -> bool {
    word_start(c) || digit(c)
}

pub open spec fn digit_or_gap(c: char) -> bool {
    digit(c) || c == '_'
}

pub fn is_blank(c: char) -> (r: bool)
    ensures
        r == blank(c),
{
    let n: u32 = c as u32;
    9 <= n && n <= 13 || n == 32 || n == 0x85 || n == 0xa0 || n == 0x1680 || 0x2000 <= n && n <= 0x200a || n == 0x2028
        || n == 0x2029 || n == 0x202f || n == 0x205f || n == 0x3000
}

pub fn is_digit(c: char) -> (r: bool)
    ensures
        r == digit(c),
{
    '0' <= c && c <= '9'
}

pub fn is_word_start(c: char) -> (r: bool)
    ensures
        r == word_start(c),
{
    'a' <= c && c <= 'z' || 'A' <= c && c <= 'Z' || c == '_'
}

pub fn is_word_char(c: char) -> (r: bool)
    ensures
        r == word_char(c),
{
    is_word_start(c) || is_digit(c)
}

/// The character at `i` is `c`.
pub open spec fn is_at(s: Seq<char>, i: int, c: char) -> bool {
    0 <= i < s.len() && s[i] == c
}

fn char_at(s: &Vec<char>, i: usize, c: char) -> (r: bool)
    ensures
        r == is_at(s@, i as int, c),
{
    i < s.len() && s[i] == c
}

// ---- runs ----

/// Where the run of word characters that starts at `i` ends.
pub open spec fn word_end(s: Seq<char>, i: int) -> int
    decreases s.len() - i,
{
    if 0 <= i < s.len() && word_char(s[i]) {
        word_end(s, i + 1)
    } else {
        i
    }
}

/// Where the run of digits that starts at `i` ends.
pub open spec fn digits_end(s: Seq<char>, i: int) -> int
    decreases s.len() - i,
{
    if 0 <= i < s.len() && digit(s[i]) {
        digits_end(s, i + 1)
    } else {
        i
    }
}

/// Where the run of digits and `_` that starts at `i` ends.
pub open spec fn gapped_end(s: Seq<char>, i: int) -> int
    decreases s.len() - i,
{
    if 0 <= i < s.len() && digit_or_gap(s[i]) {
        gapped_end(s, i + 1)
    } else {
        i
    }
}

/// Where the line that holds `i` ends.
pub open spec fn line_end(s: Seq<char>, i: int) -> int
    decreases s.len() - i,
{
    if 0 <= i < s.len() && s[i] != '\n' {
        line_end(s, i + 1)
    } else {
        i
    }
}

/// The text without `_`.
pub open spec fn ungapped(s: Seq<char>) -> Seq<char>
    decreases s.len(),
{
    if s.len() == 0 {
        s
    } else if s.last() == '_' {
        ungapped(s.drop_last())
    } else {
        ungapped(s.drop_last()).push(s.last())
    }
}

/// The value of a decimal digit.
pub open spec fn digit_value(c: char) -> nat {
    (c as int - '0' as int) as nat
}

/// The number that a run of digits writes.
pub open spec fn digits_value(s: Seq<char>) -> nat
    decreases s.len(),
{
    if s.len() == 0 {
        0
    } else {
        digits_value(s.drop_last()) * 10 + digit_value(s.last())
    }
}

/// The end of the number that starts at `i`, and whether it is a float: a `.` with a digit after
/// it, or an exponent with a digit in it.
pub open spec fn number_end(s: Seq<char>, i: int) -> (int, bool) {
    let a = gapped_end(s, i);
    let (b, dotted) = if is_at(s, a, '.') && a + 1 < s.len() && digit(s[a + 1]) {
        (gapped_end(s, a + 1), true)
    } else {
        (a, false)
    };
    if is_at(s, b, 'e') || is_at(s, b, 'E') {
        let j = if is_at(s, b + 1, '+') || is_at(s, b + 1, '-') {
            b + 2
        } else {
            b + 1
        };
        if j < s.len() && digit(s[j]) {
            (digits_end(s, j), true)
        } else {
            (b, dotted)
        }
    } else {
        (b, dotted)
    }
}

// ---- literals ----

/// What an escape stands for.
pub open spec fn escape(c: char) -> Option<u8> {
    if c == 'n' {
        Some(10u8)
    } else if c == 't' {
        Some(9u8)
    } else if c == 'r' {
        Some(13u8)
    } else if c == '0' {
        Some(0u8)
    } else if c == '\\' {
        Some(92u8)
    } else if c == '\'' {
        Some(39u8)
    } else if c == '"' {
        Some(34u8)
    } else {
        None
    }
}

/// The bytes of a byte literal from `j` to its closing quote, after those in `got`, and where the
/// quote stands; or what is wrong with the literal.
pub open spec fn bytes_from(s: Seq<char>, j: int, quote: char, got: Seq<u8>) -> Result<(Seq<u8>, int), Seq<char>>
    decreases s.len() - j,
{
    if j < 0 || j >= s.len() {
        Err("unterminated byte literal"@)
    } else if s[j] == quote {
        Ok((got, j))
    } else if s[j] == '\n' {
        Err("byte literal runs past the end of the line"@)
    } else if s[j] == '\\' {
        if j + 1 >= s.len() {
            Err("unterminated escape"@)
        } else {
            match escape(s[j + 1]) {
                Some(b) => bytes_from(s, j + 2, quote, got.push(b)),
                None => Err("unknown escape `\\"@ + seq![s[j + 1]] + "`"@),
            }
        }
    } else if s[j] > '\u{7f}' {
        Err("byte literals hold ASCII only"@)
    } else {
        bytes_from(s, j + 1, quote, got.push(s[j] as u8))
    }
}

/// Where the string that starts before `j` closes, or what is wrong with it.
pub open spec fn string_end(s: Seq<char>, j: int) -> Result<int, Seq<char>>
    decreases s.len() - j,
{
    if j < 0 || j >= s.len() {
        Err("unterminated string"@)
    } else if s[j] == '"' {
        Ok(j)
    } else if s[j] == '\n' {
        Err("string runs past the end of the line"@)
    } else {
        string_end(s, j + 1)
    }
}

/// The token that a word is: a keyword, or a name.
pub open spec fn word_token(w: Seq<char>) -> TokV {
    if w == "fn"@ {
        TokV::Fn
    } else if w == "let"@ {
        TokV::Let
    } else if w == "mut"@ {
        TokV::Mut
    } else if w == "if"@ {
        TokV::If
    } else if w == "else"@ {
        TokV::Else
    } else if w == "for"@ {
        TokV::For
    } else if w == "in"@ {
        TokV::In
    } else if w == "return"@ {
        TokV::Return
    } else if w == "true"@ {
        TokV::True
    } else if w == "false"@ {
        TokV::False
    } else if w == "as"@ {
        TokV::As
    } else if w == "while"@ {
        TokV::While
    } else if w == "break"@ {
        TokV::Break
    } else if w == "decreasing"@ {
        TokV::Decreasing
    } else if w == "extern"@ {
        TokV::Extern
    } else if w == "uses"@ {
        TokV::Uses
    } else if w == "struct"@ {
        TokV::Struct
    } else {
        TokV::Ident(w)
    }
}

/// The punctuation at `i` and its length.
pub open spec fn mark_token(s: Seq<char>, i: int) -> Option<(TokV, int)> {
    let c = s[i];
    if c == '-' && is_at(s, i + 1, '>') {
        Some((TokV::Arrow, 2))
    } else if c == '.' && is_at(s, i + 1, '.') {
        Some((TokV::DotDot, 2))
    } else if c == '=' && is_at(s, i + 1, '=') {
        Some((TokV::EqEq, 2))
    } else if c == '!' && is_at(s, i + 1, '=') {
        Some((TokV::Ne, 2))
    } else if c == '<' && is_at(s, i + 1, '=') {
        Some((TokV::Le, 2))
    } else if c == '>' && is_at(s, i + 1, '=') {
        Some((TokV::Ge, 2))
    } else if c == '+' && is_at(s, i + 1, '=') {
        Some((TokV::PlusEq, 2))
    } else if c == '-' && is_at(s, i + 1, '=') {
        Some((TokV::MinusEq, 2))
    } else if c == '*' && is_at(s, i + 1, '=') {
        Some((TokV::StarEq, 2))
    } else if c == '/' && is_at(s, i + 1, '=') {
        Some((TokV::SlashEq, 2))
    } else if c == '&' && is_at(s, i + 1, '&') {
        Some((TokV::AmpAmp, 2))
    } else if c == '|' && is_at(s, i + 1, '|') {
        Some((TokV::PipePipe, 2))
    } else if c == '(' {
        Some((TokV::LParen, 1))
    } else if c == ')' {
        Some((TokV::RParen, 1))
    } else if c == '[' {
        Some((TokV::LBracket, 1))
    } else if c == ']' {
        Some((TokV::RBracket, 1))
    } else if c == '{' {
        Some((TokV::LBrace, 1))
    } else if c == '}' {
        Some((TokV::RBrace, 1))
    } else if c == ',' {
        Some((TokV::Comma, 1))
    } else if c == ';' {
        Some((TokV::Semi, 1))
    } else if c == ':' {
        Some((TokV::Colon, 1))
    } else if c == '.' {
        Some((TokV::Dot, 1))
    } else if c == '=' {
        Some((TokV::Eq, 1))
    } else if c == '<' {
        Some((TokV::Lt, 1))
    } else if c == '>' {
        Some((TokV::Gt, 1))
    } else if c == '+' {
        Some((TokV::Plus, 1))
    } else if c == '-' {
        Some((TokV::Minus, 1))
    } else if c == '*' {
        Some((TokV::Star, 1))
    } else if c == '/' {
        Some((TokV::Slash, 1))
    } else if c == '%' {
        Some((TokV::Percent, 1))
    } else if c == '&' {
        Some((TokV::Amp, 1))
    } else if c == '!' {
        Some((TokV::Bang, 1))
    } else if c == '|' {
        Some((TokV::Pipe, 1))
    } else if c == '#' {
        Some((TokV::Hash, 1))
    } else {
        None
    }
}

// ---- the whole text ----

/// What stands at a place in the text; a token comes with the index after its end.
pub enum Found {
    Blank,
    Comment,
    Line,
    Token(TokV, int),
    Fault(Seq<char>),
}

pub open spec fn find(s: Seq<char>, i: int) -> Found {
    let c = s[i];
    if c == '\n' {
        Found::Line
    } else if blank(c) {
        Found::Blank
    } else if c == '/' && is_at(s, i + 1, '/') {
        Found::Comment
    } else if c == 'b' && (is_at(s, i + 1, '\'') || is_at(s, i + 1, '"')) {
        match bytes_from(s, i + 2, s[i + 1], Seq::empty()) {
            Ok((b, j)) => if s[i + 1] == '"' {
                Found::Token(TokV::Bytes(b), j + 1)
            } else if b.len() == 1 {
                Found::Token(TokV::Byte(b[0]), j + 1)
            } else {
                Found::Fault("a byte literal `b'..'` holds exactly one byte"@)
            },
            Err(m) => Found::Fault(m),
        }
    } else if c == '"' {
        match string_end(s, i + 1) {
            Ok(j) => Found::Token(TokV::Str(s.subrange(i + 1, j)), j + 1),
            Err(m) => Found::Fault(m),
        }
    } else if word_start(c) {
        let j = word_end(s, i);
        Found::Token(word_token(s.subrange(i, j)), j)
    } else if digit(c) {
        let (j, float) = number_end(s, i);
        let text = ungapped(s.subrange(i, j));
        if float {
            Found::Token(TokV::Float(text), j)
        } else if digits_value(text) <= i64::MAX {
            Found::Token(TokV::Int(digits_value(text) as i64), j)
        } else {
            Found::Fault("integer literal `"@ + text + "` does not fit in i64"@)
        }
    } else {
        match mark_token(s, i) {
            Some((t, n)) => Found::Token(t, i + n),
            None => Found::Fault("unexpected character `"@ + seq![c] + "`"@),
        }
    }
}

/// The tokens from `i` on, where `line` and `col` say where `i` stands.
pub open spec fn lex_from(s: Seq<char>, i: int, line: int, col: int, got: Seq<TokenV>) -> Result<Seq<TokenV>, DiagV>
    decreases s.len() - i,
{
    if i < 0 || i >= s.len() {
        Ok(got.push(TokenV { tok: TokV::Eof, line: line as u32, col: col as u32 }))
    } else {
        match find(s, i) {
            Found::Line => lex_from(s, i + 1, line + 1, 1, got),
            Found::Blank => lex_from(s, i + 1, line, col + 1, got),
            // the end of the line sets the column anew, so a comment need not move it
            Found::Comment => if i < line_end(s, i) <= s.len() {
                lex_from(s, line_end(s, i), line, col, got)
            } else {
                Ok(got)
            },
            Found::Token(t, j) => if i < j <= s.len() {
                lex_from(s, j, line, col + (j - i), got.push(TokenV { tok: t, line: line as u32, col: col as u32 }))
            } else {
                Ok(got)
            },
            Found::Fault(m) => fault(line as u32, col as u32, m),
        }
    }
}

/// The tokens of a text, an end-of-file token last.
pub open spec fn s_lex(s: Seq<char>) -> Result<Seq<TokenV>, DiagV> {
    lex_from(s, 0, 1, 1, Seq::empty())
}

#[verifier::loop_isolation(false)]
fn end_of_word(s: &Vec<char>, i: usize) -> (r: usize)
    requires
        i <= s@.len(),
    ensures
        r == word_end(s@, i as int),
        i <= r <= s@.len(),
{
    let mut j: usize = i;
    while j < s.len() && is_word_char(s[j])
        invariant
            i <= j <= s@.len(),
            word_end(s@, i as int) == word_end(s@, j as int),
        decreases s@.len() - j,
    {
        j += 1;
    }
    j
}

#[verifier::loop_isolation(false)]
fn end_of_digits(s: &Vec<char>, i: usize) -> (r: usize)
    requires
        i <= s@.len(),
    ensures
        r == digits_end(s@, i as int),
        i <= r <= s@.len(),
{
    let mut j: usize = i;
    while j < s.len() && is_digit(s[j])
        invariant
            i <= j <= s@.len(),
            digits_end(s@, i as int) == digits_end(s@, j as int),
        decreases s@.len() - j,
    {
        j += 1;
    }
    j
}

#[verifier::loop_isolation(false)]
fn end_of_gapped(s: &Vec<char>, i: usize) -> (r: usize)
    requires
        i <= s@.len(),
    ensures
        r == gapped_end(s@, i as int),
        i <= r <= s@.len(),
{
    let mut j: usize = i;
    while j < s.len() && (is_digit(s[j]) || s[j] == '_')
        invariant
            i <= j <= s@.len(),
            gapped_end(s@, i as int) == gapped_end(s@, j as int),
        decreases s@.len() - j,
    {
        j += 1;
    }
    j
}

#[verifier::loop_isolation(false)]
fn end_of_line(s: &Vec<char>, i: usize) -> (r: usize)
    requires
        i <= s@.len(),
    ensures
        r == line_end(s@, i as int),
        i <= r <= s@.len(),
{
    let mut j: usize = i;
    while j < s.len() && s[j] != '\n'
        invariant
            i <= j <= s@.len(),
            line_end(s@, i as int) == line_end(s@, j as int),
        decreases s@.len() - j,
    {
        j += 1;
    }
    j
}

/// The characters of `s` from `i` to `j`.
#[verifier::loop_isolation(false)]
pub fn slice_of(s: &Vec<char>, i: usize, j: usize) -> (r: Vec<char>)
    requires
        i <= j <= s@.len(),
    ensures
        r@ == s@.subrange(i as int, j as int),
{
    let mut out: Vec<char> = Vec::new();
    let mut k: usize = i;
    proof {
        assert(s@.subrange(i as int, i as int) =~= Seq::empty());
    }
    while k < j
        invariant
            i <= k <= j,
            out@ == s@.subrange(i as int, k as int),
        decreases j - k,
    {
        out.push(s[k]);
        proof {
            assert(s@.subrange(i as int, k + 1) =~= s@.subrange(i as int, k as int).push(s@[k as int]));
        }
        k += 1;
    }
    out
}

#[verifier::loop_isolation(false)]
fn without_gaps(s: &Vec<char>) -> (r: Vec<char>)
    ensures
        r@ == ungapped(s@),
{
    let mut out: Vec<char> = Vec::new();
    let mut k: usize = 0;
    proof {
        assert(s@.take(0) =~= Seq::empty());
    }
    while k < s.len()
        invariant
            k <= s@.len(),
            out@ == ungapped(s@.take(k as int)),
        decreases s@.len() - k,
    {
        proof {
            assert(s@.take(k + 1).drop_last() =~= s@.take(k as int));
        }
        if s[k] != '_' {
            out.push(s[k]);
        }
        k += 1;
    }
    proof {
        assert(s@.take(k as int) =~= s@);
    }
    out
}

pub open spec fn all_digits(s: Seq<char>) -> bool {
    forall|k: int| 0 <= k < s.len() ==> digit(#[trigger] s[k])
}

proof fn digits_value_grows(s: Seq<char>, n: int)
    requires
        0 <= n <= s.len(),
    ensures
        digits_value(s.take(n)) <= digits_value(s),
    decreases s.len(),
{
    if n == s.len() {
        assert(s.take(n) =~= s);
    } else {
        digits_value_grows(s.drop_last(), n);
        assert(s.drop_last().take(n) =~= s.take(n));
    }
}

/// The number that a run of digits writes, if it fits.
#[verifier::loop_isolation(false)]
pub fn digits_number(s: &Vec<char>) -> (r: Option<i64>)
    requires
        all_digits(s@),
    ensures
        match r {
            Some(v) => v == digits_value(s@),
            None => digits_value(s@) > i64::MAX,
        },
{
    let mut v: i64 = 0;
    let mut k: usize = 0;
    proof {
        assert(s@.take(0) =~= Seq::empty());
    }
    while k < s.len()
        invariant
            k <= s@.len(),
            0 <= v,
            v == digits_value(s@.take(k as int)),
        decreases s@.len() - k,
    {
        proof {
            assert(s@.take(k + 1).drop_last() =~= s@.take(k as int));
            assert(digit(s@[k as int]));
            digits_value_grows(s@, k + 1);
        }
        let d: i64 = (s[k] as u32 - '0' as u32) as i64;
        if v > (i64::MAX - d) / 10 {
            return None;
        }
        v = v * 10 + d;
        k += 1;
    }
    proof {
        assert(s@.take(k as int) =~= s@);
    }
    Some(v)
}

/// The end of the number at `i`, and whether it is a float.
fn end_of_number(s: &Vec<char>, i: usize) -> (r: (usize, bool))
    requires
        i < s@.len(),
        digit(s@[i as int]),
    ensures
        (r.0 as int, r.1) == number_end(s@, i as int),
        i < r.0 <= s@.len(),
{
    let a: usize = end_of_gapped(s, i);
    proof {
        gapped_end_run(s@, i + 1);
    }
    let mut b: usize = a;
    let mut float: bool = false;
    if a < s.len() && s[a] == '.' && a + 1 < s.len() && is_digit(s[a + 1]) {
        b = end_of_gapped(s, a + 1);
        float = true;
    }
    if char_at(s, b, 'e') || char_at(s, b, 'E') {
        let j: usize = if char_at(s, b + 1, '+') || char_at(s, b + 1, '-') {
            b + 2
        } else {
            b + 1
        };
        if j < s.len() && is_digit(s[j]) {
            return (end_of_digits(s, j), true);
        }
    }
    (b, float)
}

fn escape_of(c: char) -> (r: Option<u8>)
    ensures
        r == escape(c),
{
    if c == 'n' {
        Some(10u8)
    } else if c == 't' {
        Some(9u8)
    } else if c == 'r' {
        Some(13u8)
    } else if c == '0' {
        Some(0u8)
    } else if c == '\\' {
        Some(92u8)
    } else if c == '\'' {
        Some(39u8)
    } else if c == '"' {
        Some(34u8)
    } else {
        None
    }
}

/// The bytes of a byte literal and where its closing quote stands, or what is wrong with it.
#[verifier::loop_isolation(false)]
fn read_bytes(s: &Vec<char>, start: usize, quote: char) -> (r: Result<(Vec<u8>, usize), String>)
    requires
        start <= s@.len(),
        s@.len() < usize::MAX,
    ensures
        match r {
            Ok(p) => bytes_from(s@, start as int, quote, Seq::empty()) == Ok::<(Seq<u8>, int), Seq<char>>(
                (p.0@, p.1 as int),
            ) && start <= p.1 < s@.len(),
            Err(m) => bytes_from(s@, start as int, quote, Seq::empty()) == Err::<(Seq<u8>, int), Seq<char>>(m@),
        },
{
    let mut bytes: Vec<u8> = Vec::new();
    let mut j: usize = start;
    loop
        invariant
            start <= j <= s@.len(),
            bytes_from(s@, start as int, quote, Seq::empty()) == bytes_from(s@, j as int, quote, bytes@),
        decreases s@.len() - j,
    {
        if j >= s.len() {
            return Err("unterminated byte literal".to_owned());
        }
        let ch: char = s[j];
        if ch == quote {
            return Ok((bytes, j));
        }
        if ch == '\n' {
            return Err("byte literal runs past the end of the line".to_owned());
        }
        if ch == '\\' {
            if j + 1 >= s.len() {
                return Err("unterminated escape".to_owned());
            }
            match escape_of(s[j + 1]) {
                Some(b) => {
                    bytes.push(b);
                },
                None => {
                    return Err(cat3("unknown escape `\\", &one_char(s[j + 1]), "`"));
                },
            }
            j += 2;
        } else {
            if ch > '\u{7f}' {
                return Err("byte literals hold ASCII only".to_owned());
            }
            bytes.push(ch as u8);
            j += 1;
        }
    }
}

#[verifier::loop_isolation(false)]
fn end_of_string(s: &Vec<char>, start: usize) -> (r: Result<usize, String>)
    requires
        start <= s@.len(),
    ensures
        match r {
            Ok(j) => string_end(s@, start as int) == Ok::<int, Seq<char>>(j as int) && start <= j < s@.len(),
            Err(m) => string_end(s@, start as int) == Err::<int, Seq<char>>(m@),
        },
{
    let mut j: usize = start;
    loop
        invariant
            start <= j <= s@.len(),
            string_end(s@, start as int) == string_end(s@, j as int),
        decreases s@.len() - j,
    {
        if j >= s.len() {
            return Err("unterminated string".to_owned());
        }
        if s[j] == '"' {
            return Ok(j);
        }
        if s[j] == '\n' {
            return Err("string runs past the end of the line".to_owned());
        }
        j += 1;
    }
}

fn is_text(w: &String, t: &str) -> (r: bool)
    ensures
        r == (w@ == t@),
{
    *w == t.to_owned()
}

/// The token that a word is.
fn token_of_word(w: &String) -> (r: Tok)
    ensures
        r@ == word_token(w@),
{
    if is_text(w, "fn") {
        Tok::Fn
    } else if is_text(w, "let") {
        Tok::Let
    } else if is_text(w, "mut") {
        Tok::Mut
    } else if is_text(w, "if") {
        Tok::If
    } else if is_text(w, "else") {
        Tok::Else
    } else if is_text(w, "for") {
        Tok::For
    } else if is_text(w, "in") {
        Tok::In
    } else if is_text(w, "return") {
        Tok::Return
    } else if is_text(w, "true") {
        Tok::True
    } else if is_text(w, "false") {
        Tok::False
    } else if is_text(w, "as") {
        Tok::As
    } else if is_text(w, "while") {
        Tok::While
    } else if is_text(w, "break") {
        Tok::Break
    } else if is_text(w, "decreasing") {
        Tok::Decreasing
    } else if is_text(w, "extern") {
        Tok::Extern
    } else if is_text(w, "uses") {
        Tok::Uses
    } else if is_text(w, "struct") {
        Tok::Struct
    } else {
        Tok::Ident(w.as_str().to_owned())
    }
}

/// The punctuation at `i`.
fn token_of_mark(s: &Vec<char>, i: usize) -> (r: Option<(Tok, usize)>)
    requires
        i < s@.len(),
        s@.len() < usize::MAX,
    ensures
        match r {
            Some(p) => mark_token(s@, i as int) == Some((p.0@, p.1 as int)) && 1 <= p.1 <= 2 && i + p.1 <= s@.len(),
            None => mark_token(s@, i as int) is None,
        },
{
    let c: char = s[i];
    if c == '-' && char_at(s, i + 1, '>') {
        Some((Tok::Arrow, 2))
    } else if c == '.' && char_at(s, i + 1, '.') {
        Some((Tok::DotDot, 2))
    } else if c == '=' && char_at(s, i + 1, '=') {
        Some((Tok::EqEq, 2))
    } else if c == '!' && char_at(s, i + 1, '=') {
        Some((Tok::Ne, 2))
    } else if c == '<' && char_at(s, i + 1, '=') {
        Some((Tok::Le, 2))
    } else if c == '>' && char_at(s, i + 1, '=') {
        Some((Tok::Ge, 2))
    } else if c == '+' && char_at(s, i + 1, '=') {
        Some((Tok::PlusEq, 2))
    } else if c == '-' && char_at(s, i + 1, '=') {
        Some((Tok::MinusEq, 2))
    } else if c == '*' && char_at(s, i + 1, '=') {
        Some((Tok::StarEq, 2))
    } else if c == '/' && char_at(s, i + 1, '=') {
        Some((Tok::SlashEq, 2))
    } else if c == '&' && char_at(s, i + 1, '&') {
        Some((Tok::AmpAmp, 2))
    } else if c == '|' && char_at(s, i + 1, '|') {
        Some((Tok::PipePipe, 2))
    } else if c == '(' {
        Some((Tok::LParen, 1))
    } else if c == ')' {
        Some((Tok::RParen, 1))
    } else if c == '[' {
        Some((Tok::LBracket, 1))
    } else if c == ']' {
        Some((Tok::RBracket, 1))
    } else if c == '{' {
        Some((Tok::LBrace, 1))
    } else if c == '}' {
        Some((Tok::RBrace, 1))
    } else if c == ',' {
        Some((Tok::Comma, 1))
    } else if c == ';' {
        Some((Tok::Semi, 1))
    } else if c == ':' {
        Some((Tok::Colon, 1))
    } else if c == '.' {
        Some((Tok::Dot, 1))
    } else if c == '=' {
        Some((Tok::Eq, 1))
    } else if c == '<' {
        Some((Tok::Lt, 1))
    } else if c == '>' {
        Some((Tok::Gt, 1))
    } else if c == '+' {
        Some((Tok::Plus, 1))
    } else if c == '-' {
        Some((Tok::Minus, 1))
    } else if c == '*' {
        Some((Tok::Star, 1))
    } else if c == '/' {
        Some((Tok::Slash, 1))
    } else if c == '%' {
        Some((Tok::Percent, 1))
    } else if c == '&' {
        Some((Tok::Amp, 1))
    } else if c == '!' {
        Some((Tok::Bang, 1))
    } else if c == '|' {
        Some((Tok::Pipe, 1))
    } else if c == '#' {
        Some((Tok::Hash, 1))
    } else {
        None
    }
}

/// The token at `i` and where it ends, or what is wrong there.
fn token_at(s: &Vec<char>, i: usize) -> (r: Result<(Tok, usize), String>)
    requires
        i < s@.len(),
        s@.len() < usize::MAX,
        !(find(s@, i as int) is Line),
        !(find(s@, i as int) is Blank),
        !(find(s@, i as int) is Comment),
    ensures
        match r {
            Ok(p) => find(s@, i as int) == Found::Token(p.0@, p.1 as int) && i < p.1 <= s@.len(),
            Err(m) => find(s@, i as int) == Found::Fault(m@),
        },
{
    let c: char = s[i];
    if c == 'b' && (char_at(s, i + 1, '\'') || char_at(s, i + 1, '"')) {
        let quote: char = s[i + 1];
        match read_bytes(s, i + 2, quote) {
            Ok((bytes, j)) => {
                if quote == '"' {
                    Ok((Tok::Bytes(bytes), j + 1))
                } else if bytes.len() == 1 {
                    Ok((Tok::Byte(bytes[0]), j + 1))
                } else {
                    Err("a byte literal `b'..'` holds exactly one byte".to_owned())
                }
            },
            Err(m) => Err(m),
        }
    } else if c == '"' {
        match end_of_string(s, i + 1) {
            Ok(j) => Ok((Tok::Str(text_of(&slice_of(s, i + 1, j))), j + 1)),
            Err(m) => Err(m),
        }
    } else if is_word_start(c) {
        let j: usize = end_of_word(s, i);
        proof {
            assert(word_end(s@, i as int) == word_end(s@, i + 1));
            word_end_after(s@, i + 1);
        }
        Ok((token_of_word(&text_of(&slice_of(s, i, j))), j))
    } else if is_digit(c) {
        let (j, float) = end_of_number(s, i);
        let digits = without_gaps(&slice_of(s, i, j));
        if float {
            Ok((Tok::Float(text_of(&digits)), j))
        } else {
            proof {
                plain_digits(s@, i as int, j as int);
            }
            match digits_number(&digits) {
                Some(v) => Ok((Tok::Int(v), j)),
                None => Err(cat3("integer literal `", &text_of(&digits), "` does not fit in i64")),
            }
        }
    } else {
        match token_of_mark(s, i) {
            Some((t, n)) => Ok((t, i + n)),
            None => Err(cat3("unexpected character `", &one_char(c), "`")),
        }
    }
}

proof fn word_end_after(s: Seq<char>, i: int)
    ensures
        word_end(s, i) >= i,
    decreases s.len() - i,
{
    if 0 <= i < s.len() && word_char(s[i]) {
        word_end_after(s, i + 1);
    }
}

proof fn gapped_end_run(s: Seq<char>, i: int)
    requires
        0 <= i <= s.len(),
    ensures
        i <= gapped_end(s, i) <= s.len(),
        forall|k: int| i <= k < gapped_end(s, i) ==> digit_or_gap(#[trigger] s[k]),
    decreases s.len() - i,
{
    if i < s.len() && digit_or_gap(s[i]) {
        gapped_end_run(s, i + 1);
    }
}

proof fn ungapped_digits(s: Seq<char>)
    requires
        forall|k: int| 0 <= k < s.len() ==> digit_or_gap(#[trigger] s[k]),
    ensures
        all_digits(ungapped(s)),
    decreases s.len(),
{
    if s.len() > 0 {
        let u = s.drop_last();
        assert forall|k: int| 0 <= k < u.len() implies digit_or_gap(#[trigger] u[k]) by {
            assert(u[k] == s[k]);
        }
        ungapped_digits(u);
        assert(digit_or_gap(s[s.len() - 1]));
    }
}

/// An integer literal is all digits once its gaps are out.
proof fn plain_digits(s: Seq<char>, i: int, j: int)
    requires
        0 <= i < s.len(),
        number_end(s, i) == (j, false),
    ensures
        all_digits(ungapped(s.subrange(i, j))),
{
    gapped_end_run(s, i);
    let t = s.subrange(i, j);
    assert forall|k: int| 0 <= k < t.len() implies digit_or_gap(#[trigger] t[k]) by {
        assert(t[k] == s[i + k]);
    }
    ungapped_digits(t);
}

/// The tokens of a text, an end-of-file token last.
#[verifier::loop_isolation(false)]
pub fn lex(src: &str) -> (r: Result<Vec<Token>, Diag>)
    requires
        src@.len() < u32::MAX,
    ensures
        match r {
            Ok(v) => s_lex(src@) == Ok::<Seq<TokenV>, DiagV>(tokens_v(v@)) && v@.len() > 0 && tokens_v(v@).last().tok
                == TokV::Eof,
            Err(d) => s_lex(src@) == Err::<Seq<TokenV>, DiagV>(d@),
        },
{
    let chars = chars_of(src);
    let ghost s = chars@;
    let mut out: Vec<Token> = Vec::new();
    let mut i: usize = 0;
    let mut line: u32 = 1;
    let mut col: u32 = 1;
    proof {
        assert(tokens_v(out@) =~= Seq::empty());
    }
    while i < chars.len()
        invariant
            i <= s.len(),
            1 <= line <= i + 1,
            1 <= col <= i + 1,
            s_lex(s) == lex_from(s, i as int, line as int, col as int, tokens_v(out@)),
        decreases s.len() - i,
    {
        let c: char = chars[i];
        if c == '\n' {
            i += 1;
            line += 1;
            col = 1;
        } else if is_blank(c) {
            i += 1;
            col += 1;
        } else if c == '/' && char_at(&chars, i + 1, '/') {
            let j: usize = end_of_line(&chars, i);
            proof {
                assert(line_end(s, i as int) == line_end(s, i + 1));
                line_end_after(s, i + 1);
            }
            i = j;
        } else {
            match token_at(&chars, i) {
                Ok((tok, j)) => {
                    let ghost was = out@;
                    let t = Token { tok, line, col };
                    let ghost tv = t@;
                    out.push(t);
                    proof {
                        assert(tokens_v(out@) =~= tokens_v(was).push(tv));
                    }
                    col += (j - i) as u32;
                    i = j;
                },
                Err(m) => {
                    return Err(Diag { line, col, msg: m });
                },
            }
        }
    }
    let ghost was = out@;
    let end = Token { tok: Tok::Eof, line, col };
    let ghost ev = end@;
    out.push(end);
    proof {
        assert(tokens_v(out@) =~= tokens_v(was).push(ev));
    }
    Ok(out)
}

proof fn line_end_after(s: Seq<char>, i: int)
    ensures
        line_end(s, i) >= i,
    decreases s.len() - i,
{
    if 0 <= i < s.len() && s[i] != '\n' {
        line_end_after(s, i + 1);
    }
}

} // verus!
