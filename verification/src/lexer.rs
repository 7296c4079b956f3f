//! Turns schema text into a flat stream of [`Token`]s.
//!
//! Whitespace (including newlines) only separates tokens; `//` line comments
//! run to the end of the line. Every token carries its source [`Span`].
use vstd::prelude::*;

use crate::parse_error::{parse_error_view, ParseError, SpecParseError, Span};
use crate::reader::bytes_as_chars;
use crate::text::{decimal, push_char, str_debug, str_debug_string, str_eq, u64_to_string};
use vstd::string::StringSliceAdditionalSpecFns;

verus! {

/// A lexical token together with where it came from in the source.
#[derive(Debug, Clone, PartialEq, Eq)]
pub struct Token {
    pub kind: TokenKind,
    pub span: Span,
}

/// The kinds of token the schema language has.
#[derive(Debug, Clone, PartialEq, Eq)]
pub enum TokenKind {
    Struct,
    Enum,
    Bitfield,
    If,
    At,
    Match,
    Repeat,
    Until,
    Decode,
    As,
    Comma,
    /// An identifier: a type name, field name, or struct name.
    Ident(String),
    /// An unsigned integer literal.
    Int(u64),
    /// A double-quoted string literal.
    Str(String),
    LBrace,
    RBrace,
    LBracket,
    RBracket,
    Colon,
    Eq,
    DotDot,
    Dot,
    EqEq,
    Ne,
    Lt,
    Le,
    Gt,
    Ge,
    Plus,
    FatArrow,
    Star,
    Minus,
    Slash,
    Percent,
    LParen,
    RParen,
}

/// How a token kind is named in error messages.
pub open spec fn spec_describe(k: SpecKind) -> Seq<char> {
    match k {
        SpecKind::Struct => "keyword `struct`"@,
        SpecKind::Enum => "keyword `enum`"@,
        SpecKind::Bitfield => "keyword `bitfield`"@,
        SpecKind::Ident(s) => "identifier `"@ + s + "`"@,
        SpecKind::Int(n) => "integer `"@ + decimal(n as nat) + "`"@,
        SpecKind::Str(s) => "string "@ + str_debug(s),
        SpecKind::LBrace => "`{`"@,
        SpecKind::RBrace => "`}`"@,
        SpecKind::LBracket => "`[`"@,
        SpecKind::RBracket => "`]`"@,
        SpecKind::Colon => "`:`"@,
        SpecKind::Eq => "`=`"@,
        SpecKind::DotDot => "`..`"@,
        SpecKind::If => "keyword `if`"@,
        SpecKind::Dot => "`.`"@,
        SpecKind::EqEq => "`==`"@,
        SpecKind::Ne => "`!=`"@,
        SpecKind::Lt => "`<`"@,
        SpecKind::Le => "`<=`"@,
        SpecKind::Gt => "`>`"@,
        SpecKind::Ge => "`>=`"@,
        SpecKind::At => "keyword `at`"@,
        SpecKind::Plus => "`+`"@,
        SpecKind::Match => "keyword `match`"@,
        SpecKind::Repeat => "keyword `repeat`"@,
        SpecKind::Until => "keyword `until`"@,
        SpecKind::Decode => "keyword `decode`"@,
        SpecKind::As => "keyword `as`"@,
        SpecKind::Comma => "`,`"@,
        SpecKind::FatArrow => "`=>`"@,
        SpecKind::Star => "`*`"@,
        SpecKind::Minus => "`-`"@,
        SpecKind::Slash => "`/`"@,
        SpecKind::Percent => "`%`"@,
        SpecKind::LParen => "`(`"@,
        SpecKind::RParen => "`)`"@,
    }
}

impl TokenKind {
    /// Human-readable description for error messages.
    pub fn describe(&self) -> (s: String)
        ensures
            s@ == spec_describe(kind_view(*self)),
    {
        match self {
            TokenKind::Struct => String::from_str("keyword `struct`"),
            TokenKind::Enum => String::from_str("keyword `enum`"),
            TokenKind::Bitfield => String::from_str("keyword `bitfield`"),
            TokenKind::Ident(s) => {
                let mut r = String::from_str("identifier `");
                r.append(s.as_str());
                r.append("`");
                r
            },
            TokenKind::Int(n) => {
                let mut r = String::from_str("integer `");
                let d = u64_to_string(*n);
                r.append(d.as_str());
                r.append("`");
                r
            },
            TokenKind::Str(s) => {
                let mut r = String::from_str("string ");
                let d = str_debug_string(s.as_str());
                r.append(d.as_str());
                r
            },
            TokenKind::LBrace => String::from_str("`{`"),
            TokenKind::RBrace => String::from_str("`}`"),
            TokenKind::LBracket => String::from_str("`[`"),
            TokenKind::RBracket => String::from_str("`]`"),
            TokenKind::Colon => String::from_str("`:`"),
            TokenKind::Eq => String::from_str("`=`"),
            TokenKind::DotDot => String::from_str("`..`"),
            TokenKind::If => String::from_str("keyword `if`"),
            TokenKind::Dot => String::from_str("`.`"),
            TokenKind::EqEq => String::from_str("`==`"),
            TokenKind::Ne => String::from_str("`!=`"),
            TokenKind::Lt => String::from_str("`<`"),
            TokenKind::Le => String::from_str("`<=`"),
            TokenKind::Gt => String::from_str("`>`"),
            TokenKind::Ge => String::from_str("`>=`"),
            TokenKind::At => String::from_str("keyword `at`"),
            TokenKind::Plus => String::from_str("`+`"),
            TokenKind::Match => String::from_str("keyword `match`"),
            TokenKind::Repeat => String::from_str("keyword `repeat`"),
            TokenKind::Until => String::from_str("keyword `until`"),
            TokenKind::Decode => String::from_str("keyword `decode`"),
            TokenKind::As => String::from_str("keyword `as`"),
            TokenKind::Comma => String::from_str("`,`"),
            TokenKind::FatArrow => String::from_str("`=>`"),
            TokenKind::Star => String::from_str("`*`"),
            TokenKind::Minus => String::from_str("`-`"),
            TokenKind::Slash => String::from_str("`/`"),
            TokenKind::Percent => String::from_str("`%`"),
            TokenKind::LParen => String::from_str("`(`"),
            TokenKind::RParen => String::from_str("`)`"),
        }
    }
}

/// A token kind with its text taken by characters.
pub enum SpecKind {
    Struct,
    Enum,
    Bitfield,
    If,
    At,
    Match,
    Repeat,
    Until,
    Decode,
    As,
    Comma,
    Ident(Seq<char>),
    Int(u64),
    Str(Seq<char>),
    LBrace,
    RBrace,
    LBracket,
    RBracket,
    Colon,
    Eq,
    DotDot,
    Dot,
    EqEq,
    Ne,
    Lt,
    Le,
    Gt,
    Ge,
    Plus,
    FatArrow,
    Star,
    Minus,
    Slash,
    Percent,
    LParen,
    RParen,
}

/// A token with its text taken by characters.
pub struct SpecToken {
    pub kind: SpecKind,
    pub span: Span,
}

pub open spec fn kind_view(k: TokenKind) -> SpecKind {
    match k {
        TokenKind::Struct => SpecKind::Struct,
        TokenKind::Enum => SpecKind::Enum,
        TokenKind::Bitfield => SpecKind::Bitfield,
        TokenKind::If => SpecKind::If,
        TokenKind::At => SpecKind::At,
        TokenKind::Match => SpecKind::Match,
        TokenKind::Repeat => SpecKind::Repeat,
        TokenKind::Until => SpecKind::Until,
        TokenKind::Decode => SpecKind::Decode,
        TokenKind::As => SpecKind::As,
        TokenKind::Comma => SpecKind::Comma,
        TokenKind::Ident(s) => SpecKind::Ident(s@),
        TokenKind::Int(n) => SpecKind::Int(n),
        TokenKind::Str(s) => SpecKind::Str(s@),
        TokenKind::LBrace => SpecKind::LBrace,
        TokenKind::RBrace => SpecKind::RBrace,
        TokenKind::LBracket => SpecKind::LBracket,
        TokenKind::RBracket => SpecKind::RBracket,
        TokenKind::Colon => SpecKind::Colon,
        TokenKind::Eq => SpecKind::Eq,
        TokenKind::DotDot => SpecKind::DotDot,
        TokenKind::Dot => SpecKind::Dot,
        TokenKind::EqEq => SpecKind::EqEq,
        TokenKind::Ne => SpecKind::Ne,
        TokenKind::Lt => SpecKind::Lt,
        TokenKind::Le => SpecKind::Le,
        TokenKind::Gt => SpecKind::Gt,
        TokenKind::Ge => SpecKind::Ge,
        TokenKind::Plus => SpecKind::Plus,
        TokenKind::FatArrow => SpecKind::FatArrow,
        TokenKind::Star => SpecKind::Star,
        TokenKind::Minus => SpecKind::Minus,
        TokenKind::Slash => SpecKind::Slash,
        TokenKind::Percent => SpecKind::Percent,
        TokenKind::LParen => SpecKind::LParen,
        TokenKind::RParen => SpecKind::RParen,
    }
}

pub open spec fn token_view(t: Token) -> SpecToken {
    SpecToken { kind: kind_view(t.kind), span: t.span }
}

pub open spec fn tokens_view(ts: Seq<Token>) -> Seq<SpecToken> {
    ts.map_values(|t: Token| token_view(t))
}

/// A lexer position: byte offset, 1-based line and column.
pub struct LexAt {
    pub pos: nat,
    pub line: nat,
    pub col: nat,
}

/// The span of a lexer position.
pub open spec fn span_of(st: LexAt) -> Span {
    Span { offset: st.pos as usize, line: st.line as u32, col: st.col as u32 }
}

/// The byte at a position, if any.
pub open spec fn byte_at(src: Seq<u8>, pos: nat) -> Option<u8> {
    if pos < src.len() {
        Some(src[pos as int])
    } else {
        None
    }
}

/// The position after consuming one byte: a newline starts a new line.
pub open spec fn bump_at(src: Seq<u8>, st: LexAt) -> LexAt {
    if st.pos >= src.len() {
        st
    } else if src[st.pos as int] == 0x0A {
        LexAt { pos: st.pos + 1, line: st.line + 1, col: 1 }
    } else {
        LexAt { pos: st.pos + 1, line: st.line, col: st.col + 1 }
    }
}

/// ASCII whitespace as `u8::is_ascii_whitespace` defines it.
pub open spec fn is_ws(b: u8) -> bool {
    b == 0x20 || b == 0x09 || b == 0x0A || b == 0x0C || b == 0x0D
}

pub open spec fn is_alpha(b: u8) -> bool {
    (0x41 <= b <= 0x5A) || (0x61 <= b <= 0x7A)
}

pub open spec fn is_digit(b: u8) -> bool {
    0x30 <= b <= 0x39
}

pub open spec fn is_hex_digit(b: u8) -> bool {
    is_digit(b) || (0x41 <= b <= 0x46) || (0x61 <= b <= 0x66)
}

/// A byte that may start an identifier: an ASCII letter or `_`.
pub open spec fn spec_ident_start(b: u8) -> bool {
    is_alpha(b) || b == 0x5F
}

/// A byte that may continue an identifier: an ASCII letter, digit, or `_`.
pub open spec fn spec_ident_continue(b: u8) -> bool {
    is_alpha(b) || is_digit(b) || b == 0x5F
}

/// Skip whitespace and `//` comments from `st` (`in_comment`: inside a comment).
pub open spec fn spec_skip(src: Seq<u8>, st: LexAt, in_comment: bool) -> LexAt
    decreases src.len() - st.pos, if in_comment { 1nat } else { 0nat },
{
    if st.pos >= src.len() {
        st
    } else if in_comment {
        if src[st.pos as int] == 0x0A {
            spec_skip(src, st, false)
        } else {
            spec_skip(src, bump_at(src, st), true)
        }
    } else if is_ws(src[st.pos as int]) {
        spec_skip(src, bump_at(src, st), false)
    } else if src[st.pos as int] == 0x2F && byte_at(src, st.pos + 1) == Some(0x2Fu8) {
        spec_skip(src, bump_at(src, st), true)
    } else {
        st
    }
}

/// The value of a digit byte in a base up to 16.
pub open spec fn digit_value(b: u8) -> nat {
    if is_digit(b) {
        (b - 0x30) as nat
    } else if 0x41 <= b <= 0x46 {
        (b - 0x41 + 10) as nat
    } else {
        (b - 0x61 + 10) as nat
    }
}

/// The value of a digit string in `base`.
pub open spec fn digits_value(s: Seq<u8>, base: nat) -> nat
    decreases s.len(),
{
    if s.len() == 0 {
        0
    } else {
        digits_value(s.drop_last(), base) * base + digit_value(s.last())
    }
}

/// The position after the run of bytes satisfying `hex` (hex digits) or
/// decimal digits from `st`.
pub open spec fn spec_scan_digits(src: Seq<u8>, st: LexAt, hex: bool) -> LexAt
    decreases src.len() - st.pos,
{
    if st.pos < src.len() && (if hex { is_hex_digit(src[st.pos as int]) } else { is_digit(src[st.pos as int]) }) {
        spec_scan_digits(src, bump_at(src, st), hex)
    } else {
        st
    }
}

/// The position after the run of identifier bytes from `st`.
pub open spec fn spec_scan_ident(src: Seq<u8>, st: LexAt) -> LexAt
    decreases src.len() - st.pos,
{
    if st.pos < src.len() && spec_ident_continue(src[st.pos as int]) {
        spec_scan_ident(src, bump_at(src, st))
    } else {
        st
    }
}

/// Lex a number starting at `st` (a digit). A `0x`/`0X` prefix introduces hex.
pub open spec fn spec_lex_number(src: Seq<u8>, st: LexAt) -> Result<(SpecKind, LexAt), SpecParseError> {
    let start = span_of(st);
    let hex = src[st.pos as int] == 0x30 && (byte_at(src, st.pos + 1) == Some(0x78u8) || byte_at(src, st.pos + 1) == Some(0x58u8));
    let begin = if hex { bump_at(src, bump_at(src, st)) } else { st };
    let end = spec_scan_digits(src, begin, hex);
    if hex && end.pos == begin.pos {
        Err(SpecParseError::UnexpectedChar {
            ch: match byte_at(src, end.pos) {
                Some(b) => b as char,
                None => 'x',
            },
            span: span_of(end),
        })
    } else if end.pos < src.len() && spec_ident_continue(src[end.pos as int]) {
        Err(SpecParseError::UnexpectedChar { ch: src[end.pos as int] as char, span: span_of(end) })
    } else {
        let v = digits_value(src.subrange(begin.pos as int, end.pos as int), if hex { 16 } else { 10 });
        if v > u64::MAX {
            Err(SpecParseError::IntTooLarge { span: start })
        } else {
            Ok((SpecKind::Int(v as u64), end))
        }
    }
}

/// Lex the rest of a string literal from `st` (after the opening quote), with
/// `acc` the characters so far. `\"`, `\\`, `\n`, `\t` are escapes; any other
/// escaped byte stands for itself. A newline or the end of input first is an
/// unterminated string.
pub open spec fn spec_lex_string(src: Seq<u8>, st: LexAt, acc: Seq<char>, start: Span) -> Result<(SpecKind, LexAt), SpecParseError>
    decreases src.len() - st.pos,
{
    if st.pos >= src.len() {
        Err(SpecParseError::UnterminatedString { span: start })
    } else {
        let b = src[st.pos as int];
        let st1 = bump_at(src, st);
        if b == 0x22 {
            Ok((SpecKind::Str(acc), st1))
        } else if b == 0x5C {
            if st1.pos >= src.len() {
                Err(SpecParseError::UnterminatedString { span: start })
            } else {
                let e = src[st1.pos as int];
                let c = if e == 0x6E {
                    '\n'
                } else if e == 0x74 {
                    '\t'
                } else {
                    e as char
                };
                spec_lex_string(src, bump_at(src, st1), acc.push(c), start)
            }
        } else if b == 0x0A {
            Err(SpecParseError::UnterminatedString { span: start })
        } else {
            spec_lex_string(src, st1, acc.push(b as char), start)
        }
    }
}

/// The token kind of an identifier's text: a keyword or an identifier.
pub open spec fn keyword_kind(text: Seq<char>) -> SpecKind {
    if text == "struct"@ {
        SpecKind::Struct
    } else if text == "enum"@ {
        SpecKind::Enum
    } else if text == "bitfield"@ {
        SpecKind::Bitfield
    } else if text == "if"@ {
        SpecKind::If
    } else if text == "at"@ {
        SpecKind::At
    } else if text == "match"@ {
        SpecKind::Match
    } else if text == "repeat"@ {
        SpecKind::Repeat
    } else if text == "until"@ {
        SpecKind::Until
    } else if text == "decode"@ {
        SpecKind::Decode
    } else if text == "as"@ {
        SpecKind::As
    } else {
        SpecKind::Ident(text)
    }
}

/// The kind of a one-byte punctuation token, if `b` is one.
pub open spec fn single_punct(b: u8) -> Option<SpecKind> {
    if b == 0x7B {
        Some(SpecKind::LBrace)
    } else if b == 0x7D {
        Some(SpecKind::RBrace)
    } else if b == 0x5B {
        Some(SpecKind::LBracket)
    } else if b == 0x5D {
        Some(SpecKind::RBracket)
    } else if b == 0x3A {
        Some(SpecKind::Colon)
    } else if b == 0x2B {
        Some(SpecKind::Plus)
    } else if b == 0x2A {
        Some(SpecKind::Star)
    } else if b == 0x2F {
        Some(SpecKind::Slash)
    } else if b == 0x2D {
        Some(SpecKind::Minus)
    } else if b == 0x25 {
        Some(SpecKind::Percent)
    } else if b == 0x28 {
        Some(SpecKind::LParen)
    } else if b == 0x29 {
        Some(SpecKind::RParen)
    } else if b == 0x2C {
        Some(SpecKind::Comma)
    } else {
        None
    }
}

/// Lex one token at `st` (which holds a byte, trivia already skipped).
pub open spec fn spec_lex_token(src: Seq<u8>, st: LexAt) -> Result<(SpecKind, LexAt), SpecParseError> {
    let b = src[st.pos as int];
    let st1 = bump_at(src, st);
    let next = byte_at(src, st1.pos);
    if single_punct(b) is Some {
        Ok((single_punct(b)->0, st1))
    } else if b == 0x3D {
        if next == Some(0x3Du8) {
            Ok((SpecKind::EqEq, bump_at(src, st1)))
        } else if next == Some(0x3Eu8) {
            Ok((SpecKind::FatArrow, bump_at(src, st1)))
        } else {
            Ok((SpecKind::Eq, st1))
        }
    } else if b == 0x21 {
        if next == Some(0x3Du8) {
            Ok((SpecKind::Ne, bump_at(src, st1)))
        } else {
            Err(SpecParseError::UnexpectedChar { ch: '!', span: span_of(st) })
        }
    } else if b == 0x3C {
        if next == Some(0x3Du8) {
            Ok((SpecKind::Le, bump_at(src, st1)))
        } else {
            Ok((SpecKind::Lt, st1))
        }
    } else if b == 0x3E {
        if next == Some(0x3Du8) {
            Ok((SpecKind::Ge, bump_at(src, st1)))
        } else {
            Ok((SpecKind::Gt, st1))
        }
    } else if b == 0x2E {
        if next == Some(0x2Eu8) {
            Ok((SpecKind::DotDot, bump_at(src, st1)))
        } else {
            Ok((SpecKind::Dot, st1))
        }
    } else if b == 0x22 {
        spec_lex_string(src, st1, Seq::empty(), span_of(st))
    } else if is_digit(b) {
        spec_lex_number(src, st)
    } else if spec_ident_start(b) {
        let end = spec_scan_ident(src, st);
        Ok((keyword_kind(bytes_as_chars(src.subrange(st.pos as int, end.pos as int))), end))
    } else {
        Err(SpecParseError::UnexpectedChar { ch: b as char, span: span_of(st) })
    }
}

pub proof fn lemma_skip_mono(src: Seq<u8>, st: LexAt, c: bool)
    ensures
        spec_skip(src, st, c).pos >= st.pos,
        st.pos <= src.len() ==> spec_skip(src, st, c).pos <= src.len(),
    decreases src.len() - st.pos, if c { 1nat } else { 0nat },
{
    if st.pos < src.len() {
        if c {
            if src[st.pos as int] == 0x0A {
                lemma_skip_mono(src, st, false);
            } else {
                lemma_skip_mono(src, bump_at(src, st), true);
            }
        } else if is_ws(src[st.pos as int]) {
            lemma_skip_mono(src, bump_at(src, st), false);
        } else if src[st.pos as int] == 0x2F && byte_at(src, st.pos + 1) == Some(0x2Fu8) {
            lemma_skip_mono(src, bump_at(src, st), true);
        }
    }
}

pub proof fn lemma_scan_mono(src: Seq<u8>, st: LexAt, hex: bool)
    ensures
        spec_scan_digits(src, st, hex).pos >= st.pos,
        st.pos <= src.len() ==> spec_scan_digits(src, st, hex).pos <= src.len(),
    decreases src.len() - st.pos,
{
    if st.pos < src.len() && (if hex { is_hex_digit(src[st.pos as int]) } else { is_digit(src[st.pos as int]) }) {
        lemma_scan_mono(src, bump_at(src, st), hex);
    }
}

/// Every byte a digit scan passes over is a (hex) digit.
pub proof fn lemma_scan_digits_all(src: Seq<u8>, st: LexAt, hex: bool, k: int)
    requires
        st.pos <= k < spec_scan_digits(src, st, hex).pos,
    ensures
        k < src.len(),
        is_hex_digit(src[k]),
    decreases src.len() - st.pos,
{
    if st.pos < src.len() && (if hex { is_hex_digit(src[st.pos as int]) } else { is_digit(src[st.pos as int]) }) {
        if k > st.pos {
            lemma_scan_digits_all(src, bump_at(src, st), hex, k);
        }
    }
}

pub proof fn lemma_scan_ident_mono(src: Seq<u8>, st: LexAt)
    ensures
        spec_scan_ident(src, st).pos >= st.pos,
        st.pos <= src.len() ==> spec_scan_ident(src, st).pos <= src.len(),
        st.pos < src.len() && spec_ident_continue(src[st.pos as int]) ==> spec_scan_ident(src, st).pos > st.pos,
    decreases src.len() - st.pos,
{
    if st.pos < src.len() && spec_ident_continue(src[st.pos as int]) {
        lemma_scan_ident_mono(src, bump_at(src, st));
    }
}

pub proof fn lemma_string_mono(src: Seq<u8>, st: LexAt, acc: Seq<char>, start: Span)
    ensures
        spec_lex_string(src, st, acc, start) matches Ok((_, e)) ==> st.pos < e.pos <= src.len(),
    decreases src.len() - st.pos,
{
    if st.pos < src.len() {
        let b = src[st.pos as int];
        let st1 = bump_at(src, st);
        if b == 0x5C && st1.pos < src.len() {
            let e = src[st1.pos as int];
            let c = if e == 0x6E { '\n' } else if e == 0x74 { '\t' } else { e as char };
            lemma_string_mono(src, bump_at(src, st1), acc.push(c), start);
        } else if b != 0x22 && b != 0x5C && b != 0x0A {
            lemma_string_mono(src, st1, acc.push(b as char), start);
        }
    }
}

/// Lexing a token consumes at least one byte.
pub proof fn lemma_token_advances(src: Seq<u8>, st: LexAt)
    requires
        st.pos < src.len(),
    ensures
        spec_lex_token(src, st) matches Ok((_, e)) ==> st.pos < e.pos <= src.len(),
{
    let b = src[st.pos as int];
    let st1 = bump_at(src, st);
    if b == 0x22 {
        lemma_string_mono(src, st1, Seq::empty(), span_of(st));
    } else if is_digit(b) {
        let hex = src[st.pos as int] == 0x30 && (byte_at(src, st.pos + 1) == Some(0x78u8) || byte_at(src, st.pos + 1) == Some(0x58u8));
        let begin = if hex { bump_at(src, bump_at(src, st)) } else { st };
        lemma_scan_mono(src, begin, hex);
    } else if spec_ident_start(b) {
        lemma_scan_ident_mono(src, st);
    }
}

/// Tokenize from `st` on, with `toks` the tokens so far.
pub open spec fn spec_lex_from(src: Seq<u8>, st: LexAt, toks: Seq<SpecToken>) -> Result<Seq<SpecToken>, SpecParseError>
    decreases src.len() - st.pos,
{
    let s1 = spec_skip(src, st, false);
    if s1.pos >= src.len() {
        Ok(toks)
    } else {
        match spec_lex_token(src, s1) {
            Err(e) => Err(e),
            Ok((kind, s2)) => {
                proof {
                    lemma_skip_mono(src, st, false);
                    lemma_token_advances(src, s1);
                    assert(st.pos < s2.pos <= src.len());
                }
                spec_lex_from(src, s2, toks.push(SpecToken { kind, span: span_of(s1) }))
            },
        }
    }
}

/// The tokens of a schema source's bytes.
pub open spec fn spec_tokenize(src: Seq<u8>) -> Result<Seq<SpecToken>, SpecParseError> {
    spec_lex_from(src, LexAt { pos: 0, line: 1, col: 1 }, Seq::empty())
}

/// Skipping trivia in a source with one more newline at its end stops at the
/// same position, unless it ran to the end of the source, in which case it
/// now runs past the newline too.
pub proof fn lemma_skip_trailing_newline(s: Seq<u8>, st: LexAt, c: bool)
    requires
        st.pos <= s.len(),
    ensures
        spec_skip(s, st, c).pos < s.len() ==> spec_skip(s.push(0x0Au8), st, c) == spec_skip(s, st, c),
        spec_skip(s, st, c).pos >= s.len() ==> spec_skip(s.push(0x0Au8), st, c).pos >= s.len() + 1,
    decreases s.len() - st.pos, if c { 1nat } else { 0nat },
{
    let t = s.push(0x0Au8);
    if st.pos >= s.len() {
        assert(t[st.pos as int] == 0x0A);
        let b = bump_at(t, st);
        assert(b.pos == t.len());
        assert(spec_skip(t, b, false) == b);
        assert(spec_skip(t, st, false) == b);
        if c {
            assert(spec_skip(t, st, true) == spec_skip(t, st, false));
        }
    } else {
        assert(t[st.pos as int] == s[st.pos as int]);
        assert(bump_at(t, st) == bump_at(s, st));
        if st.pos + 1 < s.len() {
            assert(t[st.pos + 1int] == s[st.pos + 1int]);
        }
        assert(byte_at(t, st.pos + 1) == Some(0x2Fu8) <==> byte_at(s, st.pos + 1) == Some(0x2Fu8));
        if c {
            if s[st.pos as int] == 0x0A {
                lemma_skip_trailing_newline(s, st, false);
            } else {
                lemma_skip_trailing_newline(s, bump_at(s, st), true);
            }
        } else if is_ws(s[st.pos as int]) {
            lemma_skip_trailing_newline(s, bump_at(s, st), false);
        } else if s[st.pos as int] == 0x2F && byte_at(s, st.pos + 1) == Some(0x2Fu8) {
            lemma_skip_trailing_newline(s, bump_at(s, st), true);
        }
    }
}

/// A digit scan ends at the same place when a newline follows the source.
pub proof fn lemma_scan_digits_trailing_newline(s: Seq<u8>, st: LexAt, hex: bool)
    requires
        st.pos <= s.len(),
    ensures
        spec_scan_digits(s.push(0x0Au8), st, hex) == spec_scan_digits(s, st, hex),
    decreases s.len() - st.pos,
{
    let t = s.push(0x0Au8);
    if st.pos < s.len() {
        assert(t[st.pos as int] == s[st.pos as int]);
        assert(bump_at(t, st) == bump_at(s, st));
        if (if hex { is_hex_digit(s[st.pos as int]) } else { is_digit(s[st.pos as int]) }) {
            lemma_scan_digits_trailing_newline(s, bump_at(s, st), hex);
        }
    } else {
        assert(t[st.pos as int] == 0x0A);
    }
}

/// An identifier scan ends at the same place when a newline follows the source.
pub proof fn lemma_scan_ident_trailing_newline(s: Seq<u8>, st: LexAt)
    requires
        st.pos <= s.len(),
    ensures
        spec_scan_ident(s.push(0x0Au8), st) == spec_scan_ident(s, st),
    decreases s.len() - st.pos,
{
    let t = s.push(0x0Au8);
    if st.pos < s.len() {
        assert(t[st.pos as int] == s[st.pos as int]);
        assert(bump_at(t, st) == bump_at(s, st));
        if spec_ident_continue(s[st.pos as int]) {
            lemma_scan_ident_trailing_newline(s, bump_at(s, st));
        }
    } else {
        assert(t[st.pos as int] == 0x0A);
    }
}

/// A string literal that lexes lexes the same when a newline follows the source.
pub proof fn lemma_string_trailing_newline(s: Seq<u8>, st: LexAt, acc: Seq<char>, start: Span)
    requires
        st.pos <= s.len(),
        spec_lex_string(s, st, acc, start) is Ok,
    ensures
        spec_lex_string(s.push(0x0Au8), st, acc, start) == spec_lex_string(s, st, acc, start),
    decreases s.len() - st.pos,
{
    let t = s.push(0x0Au8);
    assert(t[st.pos as int] == s[st.pos as int]);
    let st1 = bump_at(s, st);
    assert(bump_at(t, st) == st1);
    let b = s[st.pos as int];
    if b == 0x5C {
        assert(t[st1.pos as int] == s[st1.pos as int]);
        assert(bump_at(t, st1) == bump_at(s, st1));
        let e = s[st1.pos as int];
        let c = if e == 0x6E {
            '\n'
        } else if e == 0x74 {
            '\t'
        } else {
            e as char
        };
        lemma_string_trailing_newline(s, bump_at(s, st1), acc.push(c), start);
    } else if b != 0x22 && b != 0x0A {
        lemma_string_trailing_newline(s, st1, acc.push(b as char), start);
    }
}

/// A token that lexes lexes the same when a newline follows the source.
pub proof fn lemma_token_trailing_newline(s: Seq<u8>, st: LexAt)
    requires
        st.pos < s.len(),
        spec_lex_token(s, st) is Ok,
    ensures
        spec_lex_token(s.push(0x0Au8), st) == spec_lex_token(s, st),
{
    let t = s.push(0x0Au8);
    assert(t[st.pos as int] == s[st.pos as int]);
    let st1 = bump_at(s, st);
    assert(bump_at(t, st) == st1);
    let b = s[st.pos as int];
    if st1.pos < s.len() {
        assert(t[st1.pos as int] == s[st1.pos as int]);
        assert(byte_at(t, st1.pos) == byte_at(s, st1.pos));
        assert(bump_at(t, st1) == bump_at(s, st1));
    } else {
        assert(byte_at(t, st1.pos) == Some(0x0Au8));
        assert(byte_at(s, st1.pos) is None);
    }
    if b == 0x22 {
        lemma_string_trailing_newline(s, st1, Seq::empty(), span_of(st));
    } else if is_digit(b) {
        let hex = s[st.pos as int] == 0x30 && (byte_at(s, st.pos + 1) == Some(0x78u8) || byte_at(s, st.pos + 1) == Some(0x58u8));
        let begin = if hex { bump_at(s, bump_at(s, st)) } else { st };
        lemma_scan_digits_trailing_newline(s, begin, hex);
        lemma_scan_mono(s, begin, hex);
        let end = spec_scan_digits(s, begin, hex);
        assert(t.subrange(begin.pos as int, end.pos as int) =~= s.subrange(begin.pos as int, end.pos as int));
        if end.pos < s.len() {
            assert(t[end.pos as int] == s[end.pos as int]);
        } else {
            assert(t[end.pos as int] == 0x0A);
        }
    } else if spec_ident_start(b) {
        lemma_scan_ident_trailing_newline(s, st);
        lemma_scan_ident_mono(s, st);
        let end = spec_scan_ident(s, st);
        assert(t.subrange(st.pos as int, end.pos as int) =~= s.subrange(st.pos as int, end.pos as int));
    }
}

/// Tokenizing from `st` gives the same tokens when a newline follows the
/// source, whenever it succeeds.
pub proof fn lemma_lex_from_trailing_newline(s: Seq<u8>, st: LexAt, toks: Seq<SpecToken>)
    requires
        st.pos <= s.len(),
        spec_lex_from(s, st, toks) is Ok,
    ensures
        spec_lex_from(s.push(0x0Au8), st, toks) == spec_lex_from(s, st, toks),
    decreases s.len() - st.pos,
{
    lemma_skip_trailing_newline(s, st, false);
    lemma_skip_mono(s, st, false);
    let s1 = spec_skip(s, st, false);
    if s1.pos < s.len() {
        lemma_token_trailing_newline(s, s1);
        lemma_token_advances(s, s1);
        let (kind, s2) = spec_lex_token(s, s1)->Ok_0;
        lemma_lex_from_trailing_newline(s, s2, toks.push(SpecToken { kind, span: span_of(s1) }));
    }
}

/// A source that tokenizes gives the same tokens with a newline appended.
pub proof fn lemma_tokenize_trailing_newline(s: Seq<u8>)
    requires
        spec_tokenize(s) is Ok,
    ensures
        spec_tokenize(s.push(0x0Au8)) == spec_tokenize(s),
{
    lemma_lex_from_trailing_newline(s, LexAt { pos: 0, line: 1, col: 1 }, Seq::empty());
}


/// `u8::is_ascii_whitespace`.
fn is_ws_byte(b: u8) -> (r: bool)
    ensures
        r == is_ws(b),
{
    b == 0x20 || b == 0x09 || b == 0x0A || b == 0x0C || b == 0x0D
}

fn is_ident_start(b: u8) -> (r: bool)
    ensures
        r == spec_ident_start(b),
{
    (0x41 <= b && b <= 0x5A) || (0x61 <= b && b <= 0x7A) || b == 0x5F
}

fn is_ident_continue(b: u8) -> (r: bool)
    ensures
        r == spec_ident_continue(b),
{
    (0x41 <= b && b <= 0x5A) || (0x61 <= b && b <= 0x7A) || (0x30 <= b && b <= 0x39) || b == 0x5F
}

fn is_hex_byte(b: u8) -> (r: bool)
    ensures
        r == is_hex_digit(b),
{
    (0x30 <= b && b <= 0x39) || (0x41 <= b && b <= 0x46) || (0x61 <= b && b <= 0x66)
}

fn digit_val(b: u8) -> (v: u64)
    requires
        is_hex_digit(b),
    ensures
        v == digit_value(b),
{
    if 0x30 <= b && b <= 0x39 {
        (b - 0x30) as u64
    } else if 0x41 <= b && b <= 0x46 {
        (b - 0x41 + 10) as u64
    } else {
        (b - 0x61 + 10) as u64
    }
}

/// A digit string's value grows with each digit appended.
proof fn lemma_digits_grow(s: Seq<u8>, base: nat, i: int)
    requires
        base >= 1,
        0 <= i <= s.len(),
    ensures
        digits_value(s.take(i), base) <= digits_value(s, base),
    decreases s.len(),
{
    if i < s.len() {
        assert(s.drop_last().take(i) =~= s.take(i));
        lemma_digits_grow(s.drop_last(), base, i);
        let v = digits_value(s.drop_last(), base);
        assert(v * base >= v) by (nonlinear_arith)
            requires
                base >= 1,
                v >= 0,
        ;
    } else {
        assert(s.take(i) =~= s);
    }
}

/// Tokenize an entire schema source string.
pub fn tokenize(src: &str) -> (r: Result<Vec<Token>, ParseError>)
    requires
        src.spec_bytes().len() < u32::MAX,
    ensures
        match spec_tokenize(src.spec_bytes()) {
            Ok(ts) => r matches Ok(v) && tokens_view(v@) == ts,
            Err(e) => r matches Err(x) && parse_error_view(x) == e,
        },
{
    Lexer::new(src).run()
}

struct Lexer<'a> {
    src: &'a [u8],
    pos: usize,
    line: u32,
    col: u32,
}

impl<'a> Lexer<'a> {
    spec fn at(&self) -> LexAt {
        LexAt { pos: self.pos as nat, line: self.line as nat, col: self.col as nat }
    }

    spec fn wf(&self) -> bool {
        &&& self.src@.len() < u32::MAX
        &&& self.pos <= self.src@.len()
        &&& self.line <= self.pos + 1
        &&& self.col <= self.pos + 1
    }

    fn new(src: &'a str) -> (l: Self)
        requires
            src.spec_bytes().len() < u32::MAX,
        ensures
            l.wf(),
            l.src@ == src.spec_bytes(),
            l.at() == (LexAt { pos: 0, line: 1, col: 1 }),
    {
        Lexer { src: src.as_bytes(), pos: 0, line: 1, col: 1 }
    }

    fn here(&self) -> (s: Span)
        requires
            self.wf(),
        ensures
            s == span_of(self.at()),
    {
        Span { offset: self.pos, line: self.line, col: self.col }
    }

    fn peek(&self) -> (r: Option<u8>)
        ensures
            r == byte_at(self.src@, self.pos as nat),
    {
        if self.pos < self.src.len() {
            Some(self.src[self.pos])
        } else {
            None
        }
    }

    fn peek_at(&self, ahead: usize) -> (r: Option<u8>)
        requires
            self.wf(),
        ensures
            r == byte_at(self.src@, (self.pos + ahead) as nat),
    {
        if ahead < self.src.len() - self.pos {
            Some(self.src[self.pos + ahead])
        } else {
            None
        }
    }

    /// Consume one byte, tracking line and column.
    fn bump(&mut self) -> (r: Option<u8>)
        requires
            old(self).wf(),
        ensures
            final(self).wf(),
            final(self).src == old(self).src,
            final(self).at() == bump_at(old(self).src@, old(self).at()),
            r == byte_at(old(self).src@, old(self).pos as nat),
    {
        let b = match self.peek() {
            Some(b) => b,
            None => return None,
        };
        self.pos += 1;
        if b == 0x0A {
            self.line += 1;
            self.col = 1;
        } else {
            self.col += 1;
        }
        Some(b)
    }

    fn run(self) -> (r: Result<Vec<Token>, ParseError>)
        requires
            self.wf(),
        ensures
            match spec_lex_from(self.src@, self.at(), Seq::empty()) {
                Ok(ts) => r matches Ok(v) && tokens_view(v@) == ts,
                Err(e) => r matches Err(x) && parse_error_view(x) == e,
            },
    {
        let mut lx = self;
        let ghost src = lx.src@;
        let ghost goal = spec_lex_from(src, lx.at(), Seq::empty());
        let mut tokens: Vec<Token> = Vec::new();
        assert(tokens_view(tokens@) =~= Seq::<SpecToken>::empty());
        loop
            invariant
                lx.wf(),
                lx.src@ == src,
                goal == spec_lex_from(src, lx.at(), tokens_view(tokens@)),
                goal == spec_lex_from(self.src@, self.at(), Seq::empty()),
            decreases src.len() - lx.pos,
        {
            let ghost st0 = lx.at();
            lx.skip_trivia();
            let start = lx.here();
            let ghost s1 = lx.at();
            let b = match lx.peek() {
                Some(b) => b,
                None => {
                    return Ok(tokens);
                },
            };
            let kind = match b {
                0x7B => {
                    lx.bump();
                    TokenKind::LBrace
                },
                0x7D => {
                    lx.bump();
                    TokenKind::RBrace
                },
                0x5B => {
                    lx.bump();
                    TokenKind::LBracket
                },
                0x5D => {
                    lx.bump();
                    TokenKind::RBracket
                },
                0x3A => {
                    lx.bump();
                    TokenKind::Colon
                },
                0x3D => {
                    // `==` equality; `=>` a match arrow; a bare `=` assigns an
                    // enum variant (and is accepted as equality in a condition).
                    lx.bump();
                    match lx.peek() {
                        Some(0x3D) => {
                            lx.bump();
                            TokenKind::EqEq
                        },
                        Some(0x3E) => {
                            lx.bump();
                            TokenKind::FatArrow
                        },
                        _ => TokenKind::Eq,
                    }
                },
                0x21 => {
                    lx.bump();
                    if lx.peek() == Some(0x3Du8) {
                        lx.bump();
                        TokenKind::Ne
                    } else {
                        return Err(ParseError::UnexpectedChar { ch: '!', span: start });
                    }
                },
                0x3C => {
                    lx.bump();
                    if lx.peek() == Some(0x3Du8) {
                        lx.bump();
                        TokenKind::Le
                    } else {
                        TokenKind::Lt
                    }
                },
                0x3E => {
                    lx.bump();
                    if lx.peek() == Some(0x3Du8) {
                        lx.bump();
                        TokenKind::Ge
                    } else {
                        TokenKind::Gt
                    }
                },
                0x2B => {
                    lx.bump();
                    TokenKind::Plus
                },
                0x2A => {
                    lx.bump();
                    TokenKind::Star
                },
                // `//` comments are gone after skip_trivia, so `/` is division.
                0x2F => {
                    lx.bump();
                    TokenKind::Slash
                },
                0x2D => {
                    lx.bump();
                    TokenKind::Minus
                },
                0x25 => {
                    lx.bump();
                    TokenKind::Percent
                },
                0x28 => {
                    lx.bump();
                    TokenKind::LParen
                },
                0x29 => {
                    lx.bump();
                    TokenKind::RParen
                },
                0x2C => {
                    lx.bump();
                    TokenKind::Comma
                },
                0x2E => {
                    // `..` is a bit range; a lone `.` is a member separator.
                    lx.bump();
                    if lx.peek() == Some(0x2Eu8) {
                        lx.bump();
                        TokenKind::DotDot
                    } else {
                        TokenKind::Dot
                    }
                },
                0x22 => match lx.lex_string(start) {
                    Ok(k) => k,
                    Err(e) => return Err(e),
                },
                0x30..=0x39 => match lx.lex_number(start) {
                    Ok(k) => k,
                    Err(e) => return Err(e),
                },
                _ => {
                    if is_ident_start(b) {
                        lx.lex_ident()
                    } else {
                        return Err(ParseError::UnexpectedChar { ch: b as char, span: start });
                    }
                },
            };
            proof {
                lemma_skip_mono(src, st0, false);
                lemma_token_advances(src, s1);
                assert(tokens_view(tokens@.push(Token { kind, span: start })) =~= tokens_view(
                    tokens@,
                ).push(SpecToken { kind: kind_view(kind), span: span_of(s1) }));
            }
            tokens.push(Token { kind, span: start });
        }
    }

    /// Skip whitespace and `//` line comments between tokens.
    fn skip_trivia(&mut self)
        requires
            old(self).wf(),
        ensures
            final(self).wf(),
            final(self).src == old(self).src,
            final(self).at() == spec_skip(old(self).src@, old(self).at(), false),
    {
        let ghost src = self.src@;
        let ghost goal = spec_skip(src, self.at(), false);
        loop
            invariant
                self.wf(),
                self.src == old(self).src,
                self.src@ == src,
                goal == spec_skip(src, self.at(), false),
            ensures
                self.wf(),
                self.src == old(self).src,
                self.src@ == src,
                goal == self.at(),
            decreases src.len() - self.pos,
        {
            match self.peek() {
                Some(b) => {
                    if is_ws_byte(b) {
                        self.bump();
                    } else if b == 0x2F && self.peek_at(1) == Some(0x2Fu8) {
                        let ghost p0 = self.pos;
                        self.bump();
                        loop
                            invariant
                                self.pos > p0,
                                self.wf(),
                                self.src == old(self).src,
                                self.src@ == src,
                self.src@ == src,
                                goal == spec_skip(src, self.at(), true),
                            ensures
                                self.pos > p0,
                                self.wf(),
                                self.src == old(self).src,
                                self.src@ == src,
                self.src@ == src,
                                goal == spec_skip(src, self.at(), false),
                            decreases src.len() - self.pos,
                        {
                            match self.peek() {
                                Some(c) => {
                                    if c == 0x0A {
                                        break;
                                    }
                                    self.bump();
                                },
                                None => break,
                            }
                        }
                    } else {
                        break;
                    }
                },
                None => break,
            }
        }
    }

    fn lex_number(&mut self, start: Span) -> (r: Result<TokenKind, ParseError>)
        requires
            old(self).wf(),
            old(self).pos < old(self).src@.len(),
            is_digit(old(self).src@[old(self).pos as int]),
            start == span_of(old(self).at()),
        ensures
            final(self).wf(),
            final(self).src == old(self).src,
            match spec_lex_number(old(self).src@, old(self).at()) {
                Ok((k, e)) => r matches Ok(x) && kind_view(x) == k && final(self).at() == e,
                Err(e) => r matches Err(x) && parse_error_view(x) == e,
            },
    {
        let ghost src = self.src@;
        let ghost st = self.at();
        // A `0x`/`0X` prefix introduces a hexadecimal literal; otherwise the
        // digits are plain decimal.
        let x = self.peek_at(1);
        let hex = self.src[self.pos] == 0x30 && (x == Some(0x78u8) || x == Some(0x58u8));
        if hex {
            self.bump();
            self.bump();
        }
        let ghost b0 = self.at();
        let begin = self.pos;
        loop
            invariant
                self.wf(),
                self.src == old(self).src,
                self.src@ == src,
                begin <= self.pos,
                spec_scan_digits(src, self.at(), hex) == spec_scan_digits(src, b0, hex),
            ensures
                self.wf(),
                self.src == old(self).src,
                self.src@ == src,
                begin <= self.pos,
                self.at() == spec_scan_digits(src, b0, hex),
            decreases src.len() - self.pos,
        {
            match self.peek() {
                Some(c) => {
                    let more = if hex { is_hex_byte(c) } else { 0x30 <= c && c <= 0x39 };
                    if !more {
                        break;
                    }
                    self.bump();
                },
                None => break,
            }
        }
        if hex && begin == self.pos {
            // `0x` with no hex digits following.
            let ch = match self.peek() {
                Some(c) => c as char,
                None => 'x',
            };
            return Err(ParseError::UnexpectedChar { ch, span: self.here() });
        }
        // An identifier character right after the digits (e.g. `12ab`) is a
        // malformed token, not two tokens.
        match self.peek() {
            Some(c) => {
                if is_ident_continue(c) {
                    return Err(ParseError::UnexpectedChar { ch: c as char, span: self.here() });
                }
            },
            None => {},
        }
        let base: u64 = if hex { 16 } else { 10 };
        let ghost digits = src.subrange(begin as int, self.pos as int);
        let mut acc: Option<u64> = Some(0);
        let mut i: usize = begin;
        proof {
            assert forall|k: int| begin <= k < self.pos implies is_hex_digit(#[trigger] src[k]) by {
                lemma_scan_digits_all(src, b0, hex, k);
            }
        }
        while i < self.pos
            invariant
                begin <= i <= self.pos <= src.len(),
                forall|k: int| begin <= k < self.pos ==> is_hex_digit(#[trigger] src[k]),
                self.src@ == src,
                base == 16 || base == 10,
                digits == src.subrange(begin as int, self.pos as int),
                match acc {
                    Some(v) => v == digits_value(digits.take(i - begin), base as nat),
                    None => digits_value(digits.take(i - begin), base as nat) > u64::MAX,
                },
            decreases self.pos - i,
        {
            let d = digit_val(self.src[i]);
            proof {
                let k = (i - begin) as int;
                assert(digits.take(k + 1).drop_last() =~= digits.take(k));
                assert(digits.take(k + 1).last() == src[i as int]);
                let v = digits_value(digits.take(k), base as nat);
                assert(v * base >= v) by (nonlinear_arith)
                    requires
                        base >= 1,
                        v >= 0,
                ;
            }
            acc = match acc {
                Some(v) => match v.checked_mul(base) {
                    Some(m) => m.checked_add(d),
                    None => None,
                },
                None => None,
            };
            i += 1;
        }
        proof {
            assert(digits.take(digits.len() as int) =~= digits);
        }
        match acc {
            Some(v) => Ok(TokenKind::Int(v)),
            None => Err(ParseError::IntTooLarge { span: start }),
        }
    }

    /// Lex a double-quoted string. `\"`, `\\`, `\n`, `\t` are escapes; an
    /// unterminated string (end of input or newline before the closing quote)
    /// is an error.
    fn lex_string(&mut self, start: Span) -> (r: Result<TokenKind, ParseError>)
        requires
            old(self).wf(),
            old(self).pos < old(self).src@.len(),
            old(self).src@[old(self).pos as int] == 0x22,
        ensures
            final(self).wf(),
            final(self).src == old(self).src,
            match spec_lex_string(
                old(self).src@,
                bump_at(old(self).src@, old(self).at()),
                Seq::empty(),
                start,
            ) {
                Ok((k, e)) => r matches Ok(x) && kind_view(x) == k && final(self).at() == e,
                Err(e) => r matches Err(x) && parse_error_view(x) == e,
            },
    {
        let ghost src = self.src@;
        self.bump();
        let ghost goal = spec_lex_string(src, self.at(), Seq::empty(), start);
        let mut s = String::new();
        loop
            invariant
                self.wf(),
                self.src == old(self).src,
                self.src@ == src,
                goal == spec_lex_string(src, self.at(), s@, start),
                goal == spec_lex_string(
                    old(self).src@,
                    bump_at(old(self).src@, old(self).at()),
                    Seq::empty(),
                    start,
                ),
            decreases src.len() - self.pos,
        {
            let ghost st = self.at();
            match self.bump() {
                Some(0x22) => return Ok(TokenKind::Str(s)),
                Some(0x5C) => match self.bump() {
                    Some(0x22) => push_char(&mut s, '"'),
                    Some(0x5C) => push_char(&mut s, '\\'),
                    Some(0x6E) => push_char(&mut s, '\n'),
                    Some(0x74) => push_char(&mut s, '\t'),
                    Some(other) => push_char(&mut s, other as char),
                    None => return Err(ParseError::UnterminatedString { span: start }),
                },
                Some(0x0A) => return Err(ParseError::UnterminatedString { span: start }),
                None => return Err(ParseError::UnterminatedString { span: start }),
                Some(other) => push_char(&mut s, other as char),
            }
        }
    }

    fn lex_ident(&mut self) -> (k: TokenKind)
        requires
            old(self).wf(),
            old(self).pos < old(self).src@.len(),
            spec_ident_start(old(self).src@[old(self).pos as int]),
        ensures
            final(self).wf(),
            final(self).src == old(self).src,
            final(self).at() == spec_scan_ident(old(self).src@, old(self).at()),
            kind_view(k) == keyword_kind(
                bytes_as_chars(old(self).src@.subrange(old(self).pos as int, final(self).pos as int)),
            ),
    {
        let ghost src = self.src@;
        let ghost st = self.at();
        let begin = self.pos;
        let mut text = String::new();
        loop
            invariant
                self.wf(),
                self.src == old(self).src,
                self.src@ == src,
                begin <= self.pos,
                spec_scan_ident(src, self.at()) == spec_scan_ident(src, st),
                text@ == bytes_as_chars(src.subrange(begin as int, self.pos as int)),
            ensures
                self.wf(),
                self.src == old(self).src,
                self.src@ == src,
                begin <= self.pos,
                self.at() == spec_scan_ident(src, st),
                text@ == bytes_as_chars(src.subrange(begin as int, self.pos as int)),
            decreases src.len() - self.pos,
        {
            match self.peek() {
                Some(c) => {
                    if !is_ident_continue(c) {
                        break;
                    }
                    proof {
                        assert(src.subrange(begin as int, self.pos + 1) =~= src.subrange(
                            begin as int,
                            self.pos as int,
                        ).push(c));
                    }
                    push_char(&mut text, c as char);
                    self.bump();
                    proof {
                        assert(text@ =~= bytes_as_chars(src.subrange(begin as int, self.pos as int)));
                    }
                },
                None => break,
            }
        }
        let t = text.as_str();
        if str_eq(t, "struct") {
            TokenKind::Struct
        } else if str_eq(t, "enum") {
            TokenKind::Enum
        } else if str_eq(t, "bitfield") {
            TokenKind::Bitfield
        } else if str_eq(t, "if") {
            TokenKind::If
        } else if str_eq(t, "at") {
            TokenKind::At
        } else if str_eq(t, "match") {
            TokenKind::Match
        } else if str_eq(t, "repeat") {
            TokenKind::Repeat
        } else if str_eq(t, "until") {
            TokenKind::Until
        } else if str_eq(t, "decode") {
            TokenKind::Decode
        } else if str_eq(t, "as") {
            TokenKind::As
        } else {
            TokenKind::Ident(text)
        }
    }
}

} // verus!
