//! Error types and source positions for the schema parser.
use vstd::prelude::*;

use crate::text::{decimal, push_char, push_decimal};

verus! {

/// A position in the schema source: `offset` is a 0-based byte index; `line`
/// and `col` are 1-based.
#[derive(Debug, Clone, Copy, PartialEq, Eq, Structural)]
pub struct Span {
    pub offset: usize,
    pub line: u32,
    pub col: u32,
}

/// Anything that can go wrong turning schema text into an AST.
#[derive(Debug, Clone, PartialEq, Eq)]
pub enum ParseError {
    UnexpectedChar { ch: char, span: Span },
    IntTooLarge { span: Span },
    UnterminatedString { span: Span },
    UnexpectedToken { expected: String, found: String, span: Span },
    UnexpectedEof { expected: String },
    LengthRequired { ty: String, span: Span },
    DuplicateType { name: String, span: Span },
    NonIntegerRepr { ty: String, span: Span },
    BitOutOfRange { bit: u64, bits: u32, span: Span },
    BadBitRange { lo: u64, hi: u64, span: Span },
    UnknownTransform { name: String, span: Span },
    BadTransformArgs { name: String, expected: usize, found: usize, span: Span },
}

/// A parse error with its text taken by characters.
pub enum SpecParseError {
    UnexpectedChar { ch: char, span: Span },
    IntTooLarge { span: Span },
    UnterminatedString { span: Span },
    UnexpectedToken { expected: Seq<char>, found: Seq<char>, span: Span },
    UnexpectedEof { expected: Seq<char> },
    LengthRequired { ty: Seq<char>, span: Span },
    DuplicateType { name: Seq<char>, span: Span },
    NonIntegerRepr { ty: Seq<char>, span: Span },
    BitOutOfRange { bit: u64, bits: u32, span: Span },
    BadBitRange { lo: u64, hi: u64, span: Span },
    UnknownTransform { name: Seq<char>, span: Span },
    BadTransformArgs { name: Seq<char>, expected: usize, found: usize, span: Span },
}

pub open spec fn parse_error_view(e: ParseError) -> SpecParseError {
    match e {
        ParseError::UnexpectedChar { ch, span } => SpecParseError::UnexpectedChar { ch, span },
        ParseError::IntTooLarge { span } => SpecParseError::IntTooLarge { span },
        ParseError::UnterminatedString { span } => SpecParseError::UnterminatedString { span },
        ParseError::UnexpectedToken { expected, found, span } => SpecParseError::UnexpectedToken {
            expected: expected@,
            found: found@,
            span,
        },
        ParseError::UnexpectedEof { expected } => SpecParseError::UnexpectedEof { expected: expected@ },
        ParseError::LengthRequired { ty, span } => SpecParseError::LengthRequired { ty: ty@, span },
        ParseError::DuplicateType { name, span } => SpecParseError::DuplicateType { name: name@, span },
        ParseError::NonIntegerRepr { ty, span } => SpecParseError::NonIntegerRepr { ty: ty@, span },
        ParseError::BitOutOfRange { bit, bits, span } => SpecParseError::BitOutOfRange { bit, bits, span },
        ParseError::BadBitRange { lo, hi, span } => SpecParseError::BadBitRange { lo, hi, span },
        ParseError::UnknownTransform { name, span } => SpecParseError::UnknownTransform { name: name@, span },
        ParseError::BadTransformArgs { name, expected, found, span } => SpecParseError::BadTransformArgs {
            name: name@,
            expected,
            found,
            span,
        },
    }
}

/// `line L, col C` for a span.
pub open spec fn line_col(span: Span) -> Seq<char> {
    "line "@ + decimal(span.line as nat) + ", col "@ + decimal(span.col as nat)
}

/// The text of a parse error.
pub open spec fn parse_error_message(e: SpecParseError) -> Seq<char> {
    match e {
        SpecParseError::UnexpectedChar { ch, span } => "unexpected character '"@ + seq![ch] + "' at "@ + line_col(span),
        SpecParseError::IntTooLarge { span } => "integer literal too large at "@ + line_col(span),
        SpecParseError::UnterminatedString { span } => "unterminated string starting at "@ + line_col(span),
        SpecParseError::UnexpectedToken { expected, found, span } => "expected "@ + expected + ", found "@ + found + " at "@ + line_col(span),
        SpecParseError::UnexpectedEof { expected } => "expected "@ + expected + ", but reached end of input"@,
        SpecParseError::LengthRequired { ty, span } => "`"@ + ty + "` requires a length in brackets, e.g. `"@ + ty + "[16]` ("@ + line_col(span) + ")"@,
        SpecParseError::DuplicateType { name, span } => "duplicate type `"@ + name + "` at "@ + line_col(span) + " (a struct, enum, or bitfield already has this name)"@,
        SpecParseError::NonIntegerRepr { ty, span } => "`"@ + ty + "` is not an integer type; enum/bitfield underlying types must be an integer (u8..u64, i8..i64) at "@ + line_col(span),
        SpecParseError::BitOutOfRange { bit, bits, span } => "bit "@ + decimal(bit as nat) + " is out of range for a "@ + decimal(bits as nat) + "-bit value at "@ + line_col(span),
        SpecParseError::BadBitRange { lo, hi, span } => "bit range "@ + decimal(lo as nat) + ".."@ + decimal(hi as nat) + " is invalid (low bit must not exceed high bit) at "@ + line_col(span),
        SpecParseError::UnknownTransform { name, span } => "unknown transform `"@ + name + "` at "@ + line_col(span) + " (try xor, rolling_xor, add, base64, zlib_inflate, inflate, gunzip)"@,
        SpecParseError::BadTransformArgs { name, expected, found, span } => "transform `"@ + name + "` takes "@ + decimal(expected as nat) + " argument(s), got "@ + decimal(found as nat) + " at "@ + line_col(span),
    }
}

fn push_line_col(s: &mut String, span: Span)
    ensures
        final(s)@ == old(s)@ + line_col(span),
{
    s.append("line ");
    push_decimal(s, span.line as u64);
    s.append(", col ");
    push_decimal(s, span.col as u64);
}

impl ParseError {
    /// The error's text, e.g. `unexpected character '$' at line 1, col 8`.
    pub fn message(&self) -> (s: String)
        ensures
            s@ == parse_error_message(parse_error_view(*self)),
    {
        let mut s = String::new();
        match self {
            ParseError::UnexpectedChar { ch, span } => {
                s.append("unexpected character '");
                push_char(&mut s, *ch);
                s.append("' at ");
                push_line_col(&mut s, *span);
            },
            ParseError::IntTooLarge { span } => {
                s.append("integer literal too large at ");
                push_line_col(&mut s, *span);
            },
            ParseError::UnterminatedString { span } => {
                s.append("unterminated string starting at ");
                push_line_col(&mut s, *span);
            },
            ParseError::UnexpectedToken { expected, found, span } => {
                s.append("expected ");
                s.append(expected.as_str());
                s.append(", found ");
                s.append(found.as_str());
                s.append(" at ");
                push_line_col(&mut s, *span);
            },
            ParseError::UnexpectedEof { expected } => {
                s.append("expected ");
                s.append(expected.as_str());
                s.append(", but reached end of input");
            },
            ParseError::LengthRequired { ty, span } => {
                s.append("`");
                s.append(ty.as_str());
                s.append("` requires a length in brackets, e.g. `");
                s.append(ty.as_str());
                s.append("[16]` (");
                push_line_col(&mut s, *span);
                s.append(")");
            },
            ParseError::DuplicateType { name, span } => {
                s.append("duplicate type `");
                s.append(name.as_str());
                s.append("` at ");
                push_line_col(&mut s, *span);
                s.append(" (a struct, enum, or bitfield already has this name)");
            },
            ParseError::NonIntegerRepr { ty, span } => {
                s.append("`");
                s.append(ty.as_str());
                s.append("` is not an integer type; enum/bitfield underlying types must be an integer (u8..u64, i8..i64) at ");
                push_line_col(&mut s, *span);
            },
            ParseError::BitOutOfRange { bit, bits, span } => {
                s.append("bit ");
                push_decimal(&mut s, *bit as u64);
                s.append(" is out of range for a ");
                push_decimal(&mut s, *bits as u64);
                s.append("-bit value at ");
                push_line_col(&mut s, *span);
            },
            ParseError::BadBitRange { lo, hi, span } => {
                s.append("bit range ");
                push_decimal(&mut s, *lo as u64);
                s.append("..");
                push_decimal(&mut s, *hi as u64);
                s.append(" is invalid (low bit must not exceed high bit) at ");
                push_line_col(&mut s, *span);
            },
            ParseError::UnknownTransform { name, span } => {
                s.append("unknown transform `");
                s.append(name.as_str());
                s.append("` at ");
                push_line_col(&mut s, *span);
                s.append(" (try xor, rolling_xor, add, base64, zlib_inflate, inflate, gunzip)");
            },
            ParseError::BadTransformArgs { name, expected, found, span } => {
                s.append("transform `");
                s.append(name.as_str());
                s.append("` takes ");
                push_decimal(&mut s, *expected as u64);
                s.append(" argument(s), got ");
                push_decimal(&mut s, *found as u64);
                s.append(" at ");
                push_line_col(&mut s, *span);
            },
        }
        assert(s@ =~= parse_error_message(parse_error_view(*self)));
        s
    }
}

} // verus!
