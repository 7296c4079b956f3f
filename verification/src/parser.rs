//! Recursive-descent parser: tokens → [`Schema`].
//!
//! ```text
//! schema       := type_def*
//! type_def     := struct_def | enum_def | bitfield_def
//! struct_def   := 'struct' IDENT '{' field* '}'
//! enum_def     := 'enum' IDENT ':' repr '{' (IDENT '=' INT)* '}'
//! bitfield_def := 'bitfield' IDENT ':' repr '{' (IDENT INT ('..' INT)?)* '}'
//! field        := IDENT '=' expr STR?
//!               | IDENT ('at' '+'? len)? type ('decode' decode)? ('if' cond)? STR?
//! type         := 'match' path '{' arm* '}' | 'repeat' type ('until' cond)?
//!               | IDENT ('[' len ']')?
//! len          := INT | IDENT | '*'
//! ```
//!
//! The contract of each parsing step is a function of the token sequence and a
//! position, giving the parsed value and the position after it, or the error.
use vstd::prelude::*;

use crate::lexer::{byte_at, lemma_tokenize_trailing_newline, spec_lex_token, LexAt, spec_describe, spec_tokenize, tokenize, tokens_view, kind_view, token_view, SpecKind, SpecToken, Token, TokenKind};
use crate::parse_error::{parse_error_view, ParseError, SpecParseError, Span};
use crate::runtime::{bitfield_wf, schema_wf};
use crate::schema::{
    arms_view, condition_view, decode_view, key_view, expr_view, field_view, len_view, path_view, pointer_view,
    prim_is_integer, prim_of_keyword, prim_size, schema_view, struct_view, enum_view, bitfield_view,
    transform_view, type_view, BinOp, BitMember, BitfieldDef, Compare, CompareOp, CompareValue,
    Condition, Decode, EnumDef, EnumVariant, Expr, Field, Len, MatchArm, MatchKey, Pointer, Prim, Schema,
    SpecBitMember, SpecBitfieldDef, SpecCompare, SpecCompareValue, SpecCondition, SpecDecode,
    SpecEnumDef, SpecEnumVariant, SpecExpr, SpecField, SpecLen, SpecMatchArm, SpecMatchKey,
    SpecPointer, SpecSchema, SpecStructDef, SpecTransform, SpecTypeExpr, StructDef, Transform,
    TypeExpr,
};
use crate::text::str_eq;
use vstd::string::StringSliceAdditionalSpecFns;

verus! {

/// The next token has kind `k`.
pub open spec fn tok_is(toks: Seq<SpecToken>, pos: nat, k: SpecKind) -> bool {
    pos < toks.len() && toks[pos as int].kind == k
}

/// The error for token `t` where `expected` was wanted.
pub open spec fn unexpected(t: SpecToken, expected: Seq<char>) -> SpecParseError {
    SpecParseError::UnexpectedToken { expected, found: spec_describe(t.kind), span: t.span }
}

/// The error for running out of tokens where `expected` was wanted.
pub open spec fn eof(expected: Seq<char>) -> SpecParseError {
    SpecParseError::UnexpectedEof { expected }
}

/// A step that consumed tokens from `pos` to `p`. Every parsing step consumes
/// at least one token; the recursive steps below say so where they resume.
pub open spec fn moved(toks: Seq<SpecToken>, pos: nat, p: nat) -> bool {
    pos < p <= toks.len()
}

/// Where a step that did not move would resume: never reached.
pub open spec fn stuck() -> SpecParseError {
    SpecParseError::UnexpectedEof { expected: Seq::empty() }
}

pub open spec fn syn_expect(toks: Seq<SpecToken>, pos: nat, want: SpecKind, expected: Seq<char>) -> Result<nat, SpecParseError> {
    if pos < toks.len() {
        if toks[pos as int].kind == want {
            Ok(pos + 1)
        } else {
            Err(unexpected(toks[pos as int], expected))
        }
    } else {
        Err(eof(expected))
    }
}

pub open spec fn syn_ident(toks: Seq<SpecToken>, pos: nat, expected: Seq<char>) -> Result<(Seq<char>, Span, nat), SpecParseError> {
    if pos < toks.len() {
        match toks[pos as int].kind {
            SpecKind::Ident(n) => Ok((n, toks[pos as int].span, pos + 1)),
            _ => Err(unexpected(toks[pos as int], expected)),
        }
    } else {
        Err(eof(expected))
    }
}

pub open spec fn syn_int(toks: Seq<SpecToken>, pos: nat, expected: Seq<char>) -> Result<(u64, Span, nat), SpecParseError> {
    if pos < toks.len() {
        match toks[pos as int].kind {
            SpecKind::Int(n) => Ok((n, toks[pos as int].span, pos + 1)),
            _ => Err(unexpected(toks[pos as int], expected)),
        }
    } else {
        Err(eof(expected))
    }
}

/// `len := INT | IDENT | '*'`.
pub open spec fn syn_len(toks: Seq<SpecToken>, pos: nat) -> Result<(SpecLen, nat), SpecParseError> {
    let expected = "an integer, field name, or `*`"@;
    if pos < toks.len() {
        match toks[pos as int].kind {
            SpecKind::Int(n) => Ok((SpecLen::Fixed(n), pos + 1)),
            SpecKind::Ident(n) => Ok((SpecLen::Field(n), pos + 1)),
            SpecKind::Star => Ok((SpecLen::Rest, pos + 1)),
            _ => Err(unexpected(toks[pos as int], expected)),
        }
    } else {
        Err(eof(expected))
    }
}

/// The `('.' IDENT)*` tail of a dotted path, after the segments `acc`.
pub open spec fn syn_path_rest(toks: Seq<SpecToken>, pos: nat, acc: Seq<Seq<char>>) -> Result<(Seq<Seq<char>>, nat), SpecParseError>
    decreases toks.len() - pos,
{
    if tok_is(toks, pos, SpecKind::Dot) {
        match syn_ident(toks, pos + 1, "a member name after `.`"@) {
            Ok((seg, _, p)) => syn_path_rest(toks, p, acc.push(seg)),
            Err(e) => Err(e),
        }
    } else {
        Ok((acc, pos))
    }
}

/// `path := IDENT ('.' IDENT)*`, e.g. `flags.extra`.
pub open spec fn syn_path(toks: Seq<SpecToken>, pos: nat) -> Result<(Seq<Seq<char>>, nat), SpecParseError> {
    match syn_ident(toks, pos, "a field name"@) {
        Ok((first, _, p)) => syn_path_rest(toks, p, seq![first]),
        Err(e) => Err(e),
    }
}

/// The comparison a token kind stands for; a bare `=` is accepted as equality.
pub open spec fn compare_op_of(k: SpecKind) -> Option<CompareOp> {
    match k {
        SpecKind::EqEq | SpecKind::Eq => Some(CompareOp::Eq),
        SpecKind::Ne => Some(CompareOp::Ne),
        SpecKind::Lt => Some(CompareOp::Lt),
        SpecKind::Le => Some(CompareOp::Le),
        SpecKind::Gt => Some(CompareOp::Gt),
        SpecKind::Ge => Some(CompareOp::Ge),
        _ => None,
    }
}

/// A comparison written in schema text reads as the operator it spells: at a
/// `<` the token lexed there compares less-than, or at-most when `=` follows;
/// at a `>`, greater-than or at-least; `!=` is inequality; `==` and a lone `=`
/// are equality.
pub proof fn law_comparison_text_gives_its_operator(src: Seq<u8>, st: LexAt)
    requires
        st.pos < src.len(),
    ensures
        ({
            let b = src[st.pos as int];
            let next = byte_at(src, st.pos + 1);
            let op = match spec_lex_token(src, st) {
                Ok((k, _)) => compare_op_of(k),
                Err(_) => None,
            };
            &&& b == 0x3C ==> op == Some(if next == Some(0x3Du8) { CompareOp::Le } else { CompareOp::Lt })
            &&& b == 0x3E ==> op == Some(if next == Some(0x3Du8) { CompareOp::Ge } else { CompareOp::Gt })
            &&& b == 0x21 && next == Some(0x3Du8) ==> op == Some(CompareOp::Ne)
            &&& b == 0x3D && next != Some(0x3Eu8) ==> op == Some(CompareOp::Eq)
        }),
{
}


/// `cond := path (op (INT | STR))?`.
pub open spec fn syn_condition(toks: Seq<SpecToken>, pos: nat) -> Result<(SpecCondition, nat), SpecParseError> {
    match syn_path(toks, pos) {
        Err(e) => Err(e),
        Ok((path, p)) => if p < toks.len() && compare_op_of(toks[p as int].kind) is Some {
            let op = compare_op_of(toks[p as int].kind)->0;
            let q = p + 1;
            if q < toks.len() && toks[q as int].kind is Str {
                let value = SpecCompareValue::Str(toks[q as int].kind->Str_0);
                Ok((SpecCondition { path, compare: Some(SpecCompare { op, value }) }, q + 1))
            } else {
                match syn_int(toks, q, "an integer or string to compare against"@) {
                    Ok((n, _, r)) => Ok((
                        SpecCondition { path, compare: Some(SpecCompare { op, value: SpecCompareValue::Int(n as i64) }) },
                        r,
                    )),
                    Err(e) => Err(e),
                }
            }
        } else {
            Ok((SpecCondition { path, compare: None }, p))
        },
    }
}

pub open spec fn binop_add(k: SpecKind) -> Option<BinOp> {
    match k {
        SpecKind::Plus => Some(BinOp::Add),
        SpecKind::Minus => Some(BinOp::Sub),
        _ => None,
    }
}

pub open spec fn binop_mul(k: SpecKind) -> Option<BinOp> {
    match k {
        SpecKind::Star => Some(BinOp::Mul),
        SpecKind::Slash => Some(BinOp::Div),
        SpecKind::Percent => Some(BinOp::Rem),
        _ => None,
    }
}

/// `expr := term (('+' | '-') term)*`.
pub open spec fn syn_expr(toks: Seq<SpecToken>, pos: nat) -> Result<(SpecExpr, nat), SpecParseError>
    decreases toks.len() - pos, 4nat,
{
    match syn_term(toks, pos) {
        Err(e) => Err(e),
        Ok((lhs, p)) => if moved(toks, pos, p) {
            syn_expr_rest(toks, p, lhs)
        } else {
            Err(stuck())
        },
    }
}

/// The `(('+' | '-') term)*` tail of an expression after `lhs`.
pub open spec fn syn_expr_rest(toks: Seq<SpecToken>, pos: nat, lhs: SpecExpr) -> Result<(SpecExpr, nat), SpecParseError>
    decreases toks.len() - pos, 3nat,
{
    if pos < toks.len() && binop_add(toks[pos as int].kind) is Some {
        let op = binop_add(toks[pos as int].kind)->0;
        match syn_term(toks, pos + 1) {
            Err(e) => Err(e),
            Ok((rhs, p)) => if moved(toks, pos, p) {
                syn_expr_rest(toks, p, SpecExpr::Binary { op, lhs: Box::new(lhs), rhs: Box::new(rhs) })
            } else {
                Err(stuck())
            },
        }
    } else {
        Ok((lhs, pos))
    }
}

/// `term := factor (('*' | '/' | '%') factor)*`.
pub open spec fn syn_term(toks: Seq<SpecToken>, pos: nat) -> Result<(SpecExpr, nat), SpecParseError>
    decreases toks.len() - pos, 2nat,
{
    match syn_factor(toks, pos) {
        Err(e) => Err(e),
        Ok((lhs, p)) => if moved(toks, pos, p) {
            syn_term_rest(toks, p, lhs)
        } else {
            Err(stuck())
        },
    }
}

/// The `(('*' | '/' | '%') factor)*` tail of a term after `lhs`.
pub open spec fn syn_term_rest(toks: Seq<SpecToken>, pos: nat, lhs: SpecExpr) -> Result<(SpecExpr, nat), SpecParseError>
    decreases toks.len() - pos, 1nat,
{
    if pos < toks.len() && binop_mul(toks[pos as int].kind) is Some {
        let op = binop_mul(toks[pos as int].kind)->0;
        match syn_factor(toks, pos + 1) {
            Err(e) => Err(e),
            Ok((rhs, p)) => if moved(toks, pos, p) {
                syn_term_rest(toks, p, SpecExpr::Binary { op, lhs: Box::new(lhs), rhs: Box::new(rhs) })
            } else {
                Err(stuck())
            },
        }
    } else {
        Ok((lhs, pos))
    }
}

/// `factor := INT | path | '(' expr ')'`.
pub open spec fn syn_factor(toks: Seq<SpecToken>, pos: nat) -> Result<(SpecExpr, nat), SpecParseError>
    decreases toks.len() - pos, 0nat,
{
    if pos < toks.len() {
        match toks[pos as int].kind {
            SpecKind::Int(n) => Ok((SpecExpr::Int(n as i64), pos + 1)),
            SpecKind::Ident(_) => match syn_path(toks, pos) {
                Ok((path, p)) => Ok((SpecExpr::Field(path), p)),
                Err(e) => Err(e),
            },
            SpecKind::LParen => match syn_expr(toks, pos + 1) {
                Err(e) => Err(e),
                Ok((e, p)) => match syn_expect(toks, p, SpecKind::RParen, "`)`"@) {
                    Ok(q) => Ok((e, q)),
                    Err(x) => Err(x),
                },
            },
            _ => Err(unexpected(toks[pos as int], "a number, field name, or `(`"@)),
        }
    } else {
        Err(eof("an expression"@))
    }
}

/// A base type name with an optional `[len]`, as a type.
pub open spec fn syn_resolve_type(base: Seq<char>, span: Span, len: Option<SpecLen>) -> Result<SpecTypeExpr, SpecParseError> {
    if base == "string"@ || base == "bytes"@ {
        match len {
            None => Err(SpecParseError::LengthRequired { ty: base, span }),
            Some(l) => Ok(if base == "string"@ { SpecTypeExpr::Str(l) } else { SpecTypeExpr::Bytes(l) }),
        }
    } else {
        let element = if prim_of_keyword(base) is Some {
            SpecTypeExpr::Prim(prim_of_keyword(base)->0)
        } else if base == "varint"@ {
            SpecTypeExpr::Varint { signed: false }
        } else if base == "svarint"@ {
            SpecTypeExpr::Varint { signed: true }
        } else if base == "char"@ {
            SpecTypeExpr::Char
        } else if base == "cstring"@ {
            SpecTypeExpr::CStr
        } else {
            SpecTypeExpr::Named(base)
        };
        Ok(match len {
            Some(l) => SpecTypeExpr::Array { elem: Box::new(element), len: l },
            None => element,
        })
    }
}

/// `type := 'match' … | 'repeat' … | IDENT ('[' len ']')?`.
pub open spec fn syn_type(toks: Seq<SpecToken>, pos: nat) -> Result<(SpecTypeExpr, nat), SpecParseError>
    decreases toks.len() - pos, 2nat,
{
    if tok_is(toks, pos, SpecKind::Match) {
        syn_match(toks, pos)
    } else if tok_is(toks, pos, SpecKind::Repeat) {
        syn_repeat(toks, pos)
    } else {
        match syn_ident(toks, pos, "a type"@) {
            Err(e) => Err(e),
            Ok((base, span, p)) => if tok_is(toks, p, SpecKind::LBracket) {
                match syn_len(toks, p + 1) {
                    Err(e) => Err(e),
                    Ok((len, q)) => match syn_expect(toks, q, SpecKind::RBracket, "`]`"@) {
                        Err(e) => Err(e),
                        Ok(r) => match syn_resolve_type(base, span, Some(len)) {
                            Ok(t) => Ok((t, r)),
                            Err(e) => Err(e),
                        },
                    },
                }
            } else {
                match syn_resolve_type(base, span, None) {
                    Ok(t) => Ok((t, p)),
                    Err(e) => Err(e),
                }
            },
        }
    }
}

/// `'match' path '{' arm* '}'`.
pub open spec fn syn_match(toks: Seq<SpecToken>, pos: nat) -> Result<(SpecTypeExpr, nat), SpecParseError>
    decreases toks.len() - pos, 1nat,
{
    match syn_expect(toks, pos, SpecKind::Match, "keyword `match`"@) {
        Err(e) => Err(e),
        Ok(p) => match syn_path(toks, p) {
            Err(e) => Err(e),
            Ok((discriminant, q)) => match syn_expect(toks, q, SpecKind::LBrace, "`{`"@) {
                Err(e) => Err(e),
                Ok(r) => if moved(toks, pos, r) {
                    syn_arms(toks, r, discriminant, Seq::empty(), None)
                } else {
                    Err(stuck())
                },
            },
        },
    }
}

/// The arms of a `match` from `pos` up to its `}`, after `arms` and `default`.
pub open spec fn syn_arms(
    toks: Seq<SpecToken>,
    pos: nat,
    discriminant: Seq<Seq<char>>,
    arms: Seq<SpecMatchArm>,
    default: Option<Box<SpecTypeExpr>>,
) -> Result<(SpecTypeExpr, nat), SpecParseError>
    decreases toks.len() - pos, 0nat,
{
    if pos >= toks.len() {
        Err(eof("a match arm or `}`"@))
    } else {
        let arm_ty = match syn_expect(toks, pos + 1, SpecKind::FatArrow, "`=>`"@) {
            Err(e) => Err(e),
            Ok(p) => syn_type(toks, p),
        };
        match toks[pos as int].kind {
            SpecKind::RBrace => Ok((SpecTypeExpr::Match { discriminant, arms, default }, pos + 1)),
            SpecKind::Int(v) => match arm_ty {
                Err(e) => Err(e),
                Ok((ty, q)) => if moved(toks, pos, q) {
                    syn_arms(toks, q, discriminant, arms.push(SpecMatchArm { key: SpecMatchKey::Int(v as i64), ty }), default)
                } else {
                    Err(stuck())
                },
            },
            SpecKind::Str(s) => match arm_ty {
                Err(e) => Err(e),
                Ok((ty, q)) => if moved(toks, pos, q) {
                    syn_arms(toks, q, discriminant, arms.push(SpecMatchArm { key: SpecMatchKey::Str(s), ty }), default)
                } else {
                    Err(stuck())
                },
            },
            SpecKind::Ident(id) => if id == "default"@ {
                match arm_ty {
                    Err(e) => Err(e),
                    Ok((ty, q)) => if moved(toks, pos, q) {
                        syn_arms(toks, q, discriminant, arms, Some(Box::new(ty)))
                    } else {
                        Err(stuck())
                    },
                }
            } else {
                Err(unexpected(toks[pos as int], "a discriminant value, a quoted tag, `default`, or `}`"@))
            },
            _ => Err(unexpected(toks[pos as int], "a discriminant value, a quoted tag, `default`, or `}`"@)),
        }
    }
}

/// `'repeat' type ('until' cond)?`.
pub open spec fn syn_repeat(toks: Seq<SpecToken>, pos: nat) -> Result<(SpecTypeExpr, nat), SpecParseError>
    decreases toks.len() - pos, 1nat,
{
    match syn_expect(toks, pos, SpecKind::Repeat, "keyword `repeat`"@) {
        Err(e) => Err(e),
        Ok(p) => match syn_type(toks, p) {
            Err(e) => Err(e),
            Ok((elem, q)) => if tok_is(toks, q, SpecKind::Until) {
                match syn_condition(toks, q + 1) {
                    Ok((c, r)) => Ok((SpecTypeExpr::Repeat { elem: Box::new(elem), until: Some(c) }, r)),
                    Err(e) => Err(e),
                }
            } else {
                Ok((SpecTypeExpr::Repeat { elem: Box::new(elem), until: None }, q))
            },
        },
    }
}

/// The integer arguments of a transform from `pos`, after `acc`:
/// `INT (',' INT)*`.
pub open spec fn syn_args(toks: Seq<SpecToken>, pos: nat, acc: Seq<i64>) -> Result<(Seq<i64>, nat), SpecParseError>
    decreases toks.len() - pos,
{
    match syn_int(toks, pos, "a transform argument"@) {
        Err(e) => Err(e),
        Ok((n, _, p)) => if tok_is(toks, p, SpecKind::Comma) {
            syn_args(toks, p + 1, acc.push(n as i64))
        } else {
            Ok((acc.push(n as i64), p))
        },
    }
}

/// A transform from its name and integer arguments, checking the count.
pub open spec fn syn_transform(name: Seq<char>, args: Seq<i64>, span: Span) -> Result<SpecTransform, SpecParseError> {
    let arity = |n: usize| SpecParseError::BadTransformArgs { name, expected: n, found: args.len() as usize, span };
    if name == "xor"@ {
        if args.len() == 0 {
            Err(arity(1))
        } else {
            Ok(SpecTransform::Xor(args.map_values(|a: i64| a as u8)))
        }
    } else if name == "rolling_xor"@ {
        if args.len() == 3 {
            Ok(SpecTransform::RollingXor { seed: args[0] as u8, mul: args[1] as u8, add: args[2] as u8 })
        } else {
            Err(arity(3))
        }
    } else if name == "add"@ || name == "sub"@ {
        if args.len() == 1 {
            Ok(SpecTransform::Add(if name == "add"@ { args[0] } else { (-args[0]) as i64 }))
        } else {
            Err(arity(1))
        }
    } else if name == "base64"@ || name == "zlib_inflate"@ || name == "zlib"@ || name == "inflate"@
        || name == "deflate_raw"@ || name == "gunzip"@ || name == "gzip"@ {
        if args.len() == 0 {
            Ok(if name == "base64"@ {
                SpecTransform::Base64
            } else if name == "zlib_inflate"@ || name == "zlib"@ {
                SpecTransform::ZlibInflate
            } else if name == "inflate"@ || name == "deflate_raw"@ {
                SpecTransform::Inflate
            } else {
                SpecTransform::Gunzip
            })
        } else {
            Err(arity(0))
        }
    } else {
        Err(SpecParseError::UnknownTransform { name, span })
    }
}

/// The argument list after a transform name: `('(' args? ')')?`.
pub open spec fn syn_arg_list(toks: Seq<SpecToken>, pos: nat) -> Result<(Seq<i64>, nat), SpecParseError> {
    if tok_is(toks, pos, SpecKind::LParen) {
        let inner = if tok_is(toks, pos + 1, SpecKind::RParen) {
            Ok((Seq::empty(), pos + 1))
        } else {
            syn_args(toks, pos + 1, Seq::empty())
        };
        match inner {
            Err(e) => Err(e),
            Ok((args, p)) => match syn_expect(toks, p, SpecKind::RParen, "`)`"@) {
                Ok(q) => Ok((args, q)),
                Err(e) => Err(e),
            },
        }
    } else {
        Ok((Seq::empty(), pos))
    }
}

/// `decode := IDENT ('(' args ')')? ('as' type)?` (after the `decode` keyword).
pub open spec fn syn_decode(toks: Seq<SpecToken>, pos: nat) -> Result<(SpecDecode, nat), SpecParseError> {
    match syn_ident(toks, pos, "a transform name"@) {
        Err(e) => Err(e),
        Ok((name, span, p)) => match syn_arg_list(toks, p) {
            Err(e) => Err(e),
            Ok((args, q)) => match syn_transform(name, args, span) {
                Err(e) => Err(e),
                Ok(transform) => if tok_is(toks, q, SpecKind::As) {
                    match syn_type(toks, q + 1) {
                        Ok((t, r)) => Ok((SpecDecode { transform, as_type: Some(Box::new(t)) }, r)),
                        Err(e) => Err(e),
                    }
                } else {
                    Ok((SpecDecode { transform, as_type: None }, q))
                },
            },
        },
    }
}

/// A trailing string literal, taken as a description.
pub open spec fn syn_desc(toks: Seq<SpecToken>, pos: nat) -> (Option<Seq<char>>, nat) {
    if pos < toks.len() && toks[pos as int].kind is Str {
        (Some(toks[pos as int].kind->Str_0), pos + 1)
    } else {
        (None, pos)
    }
}

/// The optional `at [+] len` of a field.
pub open spec fn syn_pointer(toks: Seq<SpecToken>, pos: nat) -> Result<(Option<SpecPointer>, nat), SpecParseError> {
    if tok_is(toks, pos, SpecKind::At) {
        let relative = tok_is(toks, pos + 1, SpecKind::Plus);
        match syn_len(toks, if relative { pos + 2 } else { pos + 1 }) {
            Ok((offset, p)) => Ok((Some(SpecPointer { offset, relative }), p)),
            Err(e) => Err(e),
        }
    } else {
        Ok((None, pos))
    }
}

/// The optional `decode …` of a field.
pub open spec fn syn_opt_decode(toks: Seq<SpecToken>, pos: nat) -> Result<(Option<SpecDecode>, nat), SpecParseError> {
    if tok_is(toks, pos, SpecKind::Decode) {
        match syn_decode(toks, pos + 1) {
            Ok((d, p)) => Ok((Some(d), p)),
            Err(e) => Err(e),
        }
    } else {
        Ok((None, pos))
    }
}

/// The optional `if …` of a field.
pub open spec fn syn_opt_condition(toks: Seq<SpecToken>, pos: nat) -> Result<(Option<SpecCondition>, nat), SpecParseError> {
    if tok_is(toks, pos, SpecKind::If) {
        match syn_condition(toks, pos + 1) {
            Ok((c, p)) => Ok((Some(c), p)),
            Err(e) => Err(e),
        }
    } else {
        Ok((None, pos))
    }
}

/// One field of a struct.
pub open spec fn syn_field(toks: Seq<SpecToken>, pos: nat) -> Result<(SpecField, nat), SpecParseError> {
    match syn_ident(toks, pos, "a field name"@) {
        Err(e) => Err(e),
        Ok((name, _, p)) => if tok_is(toks, p, SpecKind::Eq) {
            // `name = <expr>` is a computed field: no type, reads no bytes.
            match syn_expr(toks, p + 1) {
                Err(e) => Err(e),
                Ok((e, q)) => Ok((
                    SpecField {
                        name,
                        ty: SpecTypeExpr::Computed(Box::new(e)),
                        pointer: None,
                        condition: None,
                        decode: None,
                        desc: syn_desc(toks, q).0,
                    },
                    syn_desc(toks, q).1,
                )),
            }
        } else {
            match syn_pointer(toks, p) {
                Err(e) => Err(e),
                Ok((pointer, q)) => match syn_type(toks, q) {
                    Err(e) => Err(e),
                    Ok((ty, r)) => match syn_opt_decode(toks, r) {
                        Err(e) => Err(e),
                        Ok((decode, s)) => match syn_opt_condition(toks, s) {
                            Err(e) => Err(e),
                            Ok((condition, t)) => Ok((
                                SpecField { name, ty, pointer, condition, decode, desc: syn_desc(toks, t).0 },
                                syn_desc(toks, t).1,
                            )),
                        },
                    },
                },
            }
        },
    }
}

/// The fields of a struct from `pos` up to its `}`, after `acc`.
pub open spec fn syn_fields(toks: Seq<SpecToken>, pos: nat, acc: Seq<SpecField>) -> Result<(Seq<SpecField>, nat), SpecParseError>
    decreases toks.len() - pos,
{
    if pos >= toks.len() {
        Err(eof("a field or `}`"@))
    } else if toks[pos as int].kind == SpecKind::RBrace {
        Ok((acc, pos + 1))
    } else {
        match syn_field(toks, pos) {
            Err(e) => Err(e),
            Ok((f, p)) => if moved(toks, pos, p) {
                syn_fields(toks, p, acc.push(f))
            } else {
                Err(stuck())
            },
        }
    }
}

/// `struct_def := 'struct' IDENT '{' field* '}'`.
#[verifier::opaque]
pub open spec fn syn_struct(toks: Seq<SpecToken>, pos: nat) -> Result<(SpecStructDef, nat), SpecParseError> {
    match syn_expect(toks, pos, SpecKind::Struct, "keyword `struct`"@) {
        Err(e) => Err(e),
        Ok(p) => match syn_ident(toks, p, "a struct name"@) {
            Err(e) => Err(e),
            Ok((name, _, q)) => match syn_expect(toks, q, SpecKind::LBrace, "`{`"@) {
                Err(e) => Err(e),
                Ok(r) => match syn_fields(toks, r, Seq::empty()) {
                    Ok((fields, s)) => Ok((SpecStructDef { name, fields }, s)),
                    Err(e) => Err(e),
                },
            },
        },
    }
}

/// `repr := ':' IDENT`, an integer primitive.
pub open spec fn syn_repr(toks: Seq<SpecToken>, pos: nat) -> Result<(Prim, nat), SpecParseError> {
    match syn_expect(toks, pos, SpecKind::Colon, "`:`"@) {
        Err(e) => Err(e),
        Ok(p) => match syn_ident(toks, p, "an integer type (u8..u64, i8..i64)"@) {
            Err(e) => Err(e),
            Ok((word, span, q)) => match prim_of_keyword(word) {
                Some(prim) => if prim_is_integer(prim) {
                    Ok((prim, q))
                } else {
                    Err(SpecParseError::NonIntegerRepr { ty: word, span })
                },
                None => Err(SpecParseError::NonIntegerRepr { ty: word, span }),
            },
        },
    }
}

/// The variants of an enum from `pos` up to its `}`, after `acc`.
pub open spec fn syn_variants(toks: Seq<SpecToken>, pos: nat, acc: Seq<SpecEnumVariant>) -> Result<(Seq<SpecEnumVariant>, nat), SpecParseError>
    decreases toks.len() - pos,
{
    if pos >= toks.len() {
        Err(eof("a variant or `}`"@))
    } else if toks[pos as int].kind == SpecKind::RBrace {
        Ok((acc, pos + 1))
    } else {
        match syn_ident(toks, pos, "a variant name"@) {
            Err(e) => Err(e),
            Ok((name, _, p)) => match syn_expect(toks, p, SpecKind::Eq, "`=`"@) {
                Err(e) => Err(e),
                Ok(q) => match syn_int(toks, q, "a variant value"@) {
                    Err(e) => Err(e),
                    Ok((value, _, r)) => syn_variants(toks, r, acc.push(SpecEnumVariant { name, value: value as i64 })),
                },
            },
        }
    }
}

/// `enum_def := 'enum' IDENT repr '{' (IDENT '=' INT)* '}'`.
#[verifier::opaque]
pub open spec fn syn_enum(toks: Seq<SpecToken>, pos: nat) -> Result<(SpecEnumDef, nat), SpecParseError> {
    match syn_expect(toks, pos, SpecKind::Enum, "keyword `enum`"@) {
        Err(e) => Err(e),
        Ok(p) => match syn_ident(toks, p, "an enum name"@) {
            Err(e) => Err(e),
            Ok((name, _, q)) => match syn_repr(toks, q) {
                Err(e) => Err(e),
                Ok((repr, r)) => match syn_expect(toks, r, SpecKind::LBrace, "`{`"@) {
                    Err(e) => Err(e),
                    Ok(s) => match syn_variants(toks, s, Seq::empty()) {
                        Ok((variants, t)) => Ok((SpecEnumDef { name, repr, variants }, t)),
                        Err(e) => Err(e),
                    },
                },
            },
        },
    }
}

/// The members of a `bits`-bit bitfield from `pos` up to its `}`, after `acc`.
pub open spec fn syn_members(toks: Seq<SpecToken>, pos: nat, bits: u32, acc: Seq<SpecBitMember>) -> Result<(Seq<SpecBitMember>, nat), SpecParseError>
    decreases toks.len() - pos,
{
    if pos >= toks.len() {
        Err(eof("a member or `}`"@))
    } else if toks[pos as int].kind == SpecKind::RBrace {
        Ok((acc, pos + 1))
    } else {
        match syn_ident(toks, pos, "a member name"@) {
            Err(e) => Err(e),
            Ok((name, _, p)) => match syn_int(toks, p, "a bit index"@) {
                Err(e) => Err(e),
                Ok((lo, lo_span, q)) => {
                    // An optional `..hi` makes a multi-bit member.
                    let high = if tok_is(toks, q, SpecKind::DotDot) {
                        match syn_int(toks, q + 1, "a high bit index"@) {
                            Ok((hi, hi_span, r)) => if hi < lo {
                                Err(SpecParseError::BadBitRange { lo, hi, span: hi_span })
                            } else {
                                Ok((hi, r))
                            },
                            Err(e) => Err(e),
                        }
                    } else {
                        Ok((lo, q))
                    };
                    match high {
                        Err(e) => Err(e),
                        Ok((hi, r)) => if hi >= bits {
                            Err(SpecParseError::BitOutOfRange { bit: hi, bits, span: lo_span })
                        } else {
                            syn_members(toks, r, bits, acc.push(SpecBitMember { name, lo: lo as u8, hi: hi as u8 }))
                        },
                    }
                },
            },
        }
    }
}

/// `bitfield_def := 'bitfield' IDENT repr '{' member* '}'`.
#[verifier::opaque]
pub open spec fn syn_bitfield(toks: Seq<SpecToken>, pos: nat) -> Result<(SpecBitfieldDef, nat), SpecParseError> {
    match syn_expect(toks, pos, SpecKind::Bitfield, "keyword `bitfield`"@) {
        Err(e) => Err(e),
        Ok(p) => match syn_ident(toks, p, "a bitfield name"@) {
            Err(e) => Err(e),
            Ok((name, _, q)) => match syn_repr(toks, q) {
                Err(e) => Err(e),
                Ok((repr, r)) => match syn_expect(toks, r, SpecKind::LBrace, "`{`"@) {
                    Err(e) => Err(e),
                    Ok(s) => match syn_members(toks, s, (prim_size(repr) * 8) as u32, Seq::empty()) {
                        Ok((members, t)) => Ok((SpecBitfieldDef { name, repr, members }, t)),
                        Err(e) => Err(e),
                    },
                },
            },
        },
    }
}

/// The type definitions from `pos` to the end, after those already read;
/// `names` are the names taken so far (structs, enums and bitfields share one
/// name space).
pub open spec fn syn_defs(toks: Seq<SpecToken>, pos: nat, sch: SpecSchema, names: Seq<Seq<char>>) -> Result<SpecSchema, SpecParseError>
    decreases toks.len() - pos,
{
    if pos >= toks.len() {
        Ok(sch)
    } else {
        let span = toks[pos as int].span;
        match toks[pos as int].kind {
            SpecKind::Struct => match syn_struct(toks, pos) {
                Err(e) => Err(e),
                Ok((d, p)) => if names.contains(d.name) {
                    Err(SpecParseError::DuplicateType { name: d.name, span })
                } else if moved(toks, pos, p) {
                    syn_defs(toks, p, SpecSchema { structs: sch.structs.push(d), ..sch }, names.push(d.name))
                } else {
                    Err(stuck())
                },
            },
            SpecKind::Enum => match syn_enum(toks, pos) {
                Err(e) => Err(e),
                Ok((d, p)) => if names.contains(d.name) {
                    Err(SpecParseError::DuplicateType { name: d.name, span })
                } else if moved(toks, pos, p) {
                    syn_defs(toks, p, SpecSchema { enums: sch.enums.push(d), ..sch }, names.push(d.name))
                } else {
                    Err(stuck())
                },
            },
            SpecKind::Bitfield => match syn_bitfield(toks, pos) {
                Err(e) => Err(e),
                Ok((d, p)) => if names.contains(d.name) {
                    Err(SpecParseError::DuplicateType { name: d.name, span })
                } else if moved(toks, pos, p) {
                    syn_defs(toks, p, SpecSchema { bitfields: sch.bitfields.push(d), ..sch }, names.push(d.name))
                } else {
                    Err(stuck())
                },
            },
            _ => Err(unexpected(toks[pos as int], "keyword `struct`, `enum`, or `bitfield`"@)),
        }
    }
}

/// The schema a token sequence spells.
pub open spec fn syn_schema(toks: Seq<SpecToken>) -> Result<SpecSchema, SpecParseError> {
    syn_defs(toks, 0, SpecSchema { structs: Seq::empty(), enums: Seq::empty(), bitfields: Seq::empty() }, Seq::empty())
}

/// The schema a source text spells, through its tokens.
pub open spec fn spec_parse_source(src: Seq<u8>) -> Result<SpecSchema, SpecParseError> {
    match spec_tokenize(src) {
        Ok(toks) => syn_schema(toks),
        Err(e) => Err(e),
    }
}

/// A schema source that parses parses to the same schema with a newline
/// appended: a trailing line break is only trivia.
pub proof fn lemma_parse_trailing_newline(src: Seq<u8>)
    requires
        spec_parse_source(src) is Ok,
    ensures
        spec_parse_source(src.push(0x0Au8)) == spec_parse_source(src),
{
    lemma_tokenize_trailing_newline(src);
}


/// Whether two token kinds are the same (with the same text or value).
fn same_kind(a: &TokenKind, b: &TokenKind) -> (r: bool)
    ensures
        r == (kind_view(*a) == kind_view(*b)),
{
    match a {
        TokenKind::Struct => matches!(b, TokenKind::Struct),
        TokenKind::Enum => matches!(b, TokenKind::Enum),
        TokenKind::Bitfield => matches!(b, TokenKind::Bitfield),
        TokenKind::If => matches!(b, TokenKind::If),
        TokenKind::At => matches!(b, TokenKind::At),
        TokenKind::Match => matches!(b, TokenKind::Match),
        TokenKind::Repeat => matches!(b, TokenKind::Repeat),
        TokenKind::Until => matches!(b, TokenKind::Until),
        TokenKind::Decode => matches!(b, TokenKind::Decode),
        TokenKind::As => matches!(b, TokenKind::As),
        TokenKind::Comma => matches!(b, TokenKind::Comma),
        TokenKind::LBrace => matches!(b, TokenKind::LBrace),
        TokenKind::RBrace => matches!(b, TokenKind::RBrace),
        TokenKind::LBracket => matches!(b, TokenKind::LBracket),
        TokenKind::RBracket => matches!(b, TokenKind::RBracket),
        TokenKind::Colon => matches!(b, TokenKind::Colon),
        TokenKind::Eq => matches!(b, TokenKind::Eq),
        TokenKind::DotDot => matches!(b, TokenKind::DotDot),
        TokenKind::Dot => matches!(b, TokenKind::Dot),
        TokenKind::EqEq => matches!(b, TokenKind::EqEq),
        TokenKind::Ne => matches!(b, TokenKind::Ne),
        TokenKind::Lt => matches!(b, TokenKind::Lt),
        TokenKind::Le => matches!(b, TokenKind::Le),
        TokenKind::Gt => matches!(b, TokenKind::Gt),
        TokenKind::Ge => matches!(b, TokenKind::Ge),
        TokenKind::Plus => matches!(b, TokenKind::Plus),
        TokenKind::FatArrow => matches!(b, TokenKind::FatArrow),
        TokenKind::Star => matches!(b, TokenKind::Star),
        TokenKind::Minus => matches!(b, TokenKind::Minus),
        TokenKind::Slash => matches!(b, TokenKind::Slash),
        TokenKind::Percent => matches!(b, TokenKind::Percent),
        TokenKind::LParen => matches!(b, TokenKind::LParen),
        TokenKind::RParen => matches!(b, TokenKind::RParen),
        TokenKind::Ident(x) => match b {
            TokenKind::Ident(y) => str_eq(x.as_str(), y.as_str()),
            _ => false,
        },
        TokenKind::Int(x) => match b {
            TokenKind::Int(y) => *x == *y,
            _ => false,
        },
        TokenKind::Str(x) => match b {
            TokenKind::Str(y) => str_eq(x.as_str(), y.as_str()),
            _ => false,
        },
    }
}

fn clone_kind(k: &TokenKind) -> (r: TokenKind)
    ensures
        kind_view(r) == kind_view(*k),
{
    match k {
        TokenKind::Struct => TokenKind::Struct,
        TokenKind::Enum => TokenKind::Enum,
        TokenKind::Bitfield => TokenKind::Bitfield,
        TokenKind::If => TokenKind::If,
        TokenKind::At => TokenKind::At,
        TokenKind::Match => TokenKind::Match,
        TokenKind::Repeat => TokenKind::Repeat,
        TokenKind::Until => TokenKind::Until,
        TokenKind::Decode => TokenKind::Decode,
        TokenKind::As => TokenKind::As,
        TokenKind::Comma => TokenKind::Comma,
        TokenKind::LBrace => TokenKind::LBrace,
        TokenKind::RBrace => TokenKind::RBrace,
        TokenKind::LBracket => TokenKind::LBracket,
        TokenKind::RBracket => TokenKind::RBracket,
        TokenKind::Colon => TokenKind::Colon,
        TokenKind::Eq => TokenKind::Eq,
        TokenKind::DotDot => TokenKind::DotDot,
        TokenKind::Dot => TokenKind::Dot,
        TokenKind::EqEq => TokenKind::EqEq,
        TokenKind::Ne => TokenKind::Ne,
        TokenKind::Lt => TokenKind::Lt,
        TokenKind::Le => TokenKind::Le,
        TokenKind::Gt => TokenKind::Gt,
        TokenKind::Ge => TokenKind::Ge,
        TokenKind::Plus => TokenKind::Plus,
        TokenKind::FatArrow => TokenKind::FatArrow,
        TokenKind::Star => TokenKind::Star,
        TokenKind::Minus => TokenKind::Minus,
        TokenKind::Slash => TokenKind::Slash,
        TokenKind::Percent => TokenKind::Percent,
        TokenKind::LParen => TokenKind::LParen,
        TokenKind::RParen => TokenKind::RParen,
        TokenKind::Ident(x) => TokenKind::Ident(x.clone()),
        TokenKind::Int(x) => TokenKind::Int(*x),
        TokenKind::Str(x) => TokenKind::Str(x.clone()),
    }
}

fn clone_token(t: &Token) -> (r: Token)
    ensures
        token_view(r) == token_view(*t),
{
    Token { kind: clone_kind(&t.kind), span: t.span }
}

fn unexpected_err(kind: &TokenKind, span: Span, expected: &str) -> (e: ParseError)
    ensures
        parse_error_view(e) == unexpected(SpecToken { kind: kind_view(*kind), span }, expected@),
{
    ParseError::UnexpectedToken { expected: String::from_str(expected), found: kind.describe(), span }
}

fn eof_err(expected: &str) -> (e: ParseError)
    ensures
        parse_error_view(e) == eof(expected@),
{
    ParseError::UnexpectedEof { expected: String::from_str(expected) }
}


struct Parser {
    tokens: Vec<Token>,
    pos: usize,
}

impl Parser {
    spec fn toks(&self) -> Seq<SpecToken> {
        tokens_view(self.tokens@)
    }

    spec fn wf(&self) -> bool {
        self.pos <= self.tokens@.len()
    }

    /// The next token's kind, if any.
    fn peek_kind(&self) -> (r: Option<&TokenKind>)
        requires
            self.wf(),
        ensures
            match r {
                Some(k) => self.pos < self.toks().len() && kind_view(*k) == self.toks()[self.pos as int].kind,
                None => self.pos >= self.toks().len(),
            },
    {
        if self.pos < self.tokens.len() {
            Some(&self.tokens[self.pos].kind)
        } else {
            None
        }
    }

    /// Whether the next token is of kind `want`.
    fn next_is(&self, want: &TokenKind) -> (b: bool)
        requires
            self.wf(),
        ensures
            b == tok_is(self.toks(), self.pos as nat, kind_view(*want)),
    {
        match self.peek_kind() {
            Some(k) => same_kind(k, want),
            None => false,
        }
    }

    fn advance(&mut self) -> (r: Option<Token>)
        requires
            old(self).wf(),
        ensures
            final(self).wf(),
            final(self).tokens == old(self).tokens,
            match r {
                Some(t) => old(self).pos < old(self).toks().len() && token_view(t) == old(self).toks()[old(self).pos as int]
                    && final(self).pos == old(self).pos + 1,
                None => old(self).pos >= old(self).toks().len() && final(self).pos == old(self).pos,
            },
    {
        if self.pos < self.tokens.len() {
            let t = clone_token(&self.tokens[self.pos]);
            self.pos += 1;
            Some(t)
        } else {
            None
        }
    }

    fn expect(&mut self, want: &TokenKind, expected: &str) -> (r: Result<Token, ParseError>)
        requires
            old(self).wf(),
        ensures
            final(self).wf(),
            final(self).tokens == old(self).tokens,
            match syn_expect(old(self).toks(), old(self).pos as nat, kind_view(*want), expected@) {
                Ok(p) => r is Ok && final(self).pos == p,
                Err(e) => r matches Err(x) && parse_error_view(x) == e,
            },
    {
        match self.advance() {
            Some(t) => if same_kind(&t.kind, want) {
                Ok(t)
            } else {
                Err(unexpected_err(&t.kind, t.span, expected))
            },
            None => Err(eof_err(expected)),
        }
    }

    fn expect_ident(&mut self, expected: &str) -> (r: Result<(String, Span), ParseError>)
        requires
            old(self).wf(),
        ensures
            final(self).wf(),
            final(self).tokens == old(self).tokens,
            match syn_ident(old(self).toks(), old(self).pos as nat, expected@) {
                Ok((n, sp, p)) => r matches Ok((x, y)) && x@ == n && y == sp && final(self).pos == p,
                Err(e) => r matches Err(x) && parse_error_view(x) == e,
            },
    {
        match self.advance() {
            Some(t) => {
                let Token { kind, span } = t;
                match kind {
                    TokenKind::Ident(name) => Ok((name, span)),
                    other => Err(unexpected_err(&other, span, expected)),
                }
            },
            None => Err(eof_err(expected)),
        }
    }

    fn expect_int(&mut self, expected: &str) -> (r: Result<(u64, Span), ParseError>)
        requires
            old(self).wf(),
        ensures
            final(self).wf(),
            final(self).tokens == old(self).tokens,
            match syn_int(old(self).toks(), old(self).pos as nat, expected@) {
                Ok((n, sp, p)) => r matches Ok((x, y)) && x == n && y == sp && final(self).pos == p,
                Err(e) => r matches Err(x) && parse_error_view(x) == e,
            },
    {
        match self.advance() {
            Some(t) => {
                let Token { kind, span } = t;
                match kind {
                    TokenKind::Int(n) => Ok((n, span)),
                    other => Err(unexpected_err(&other, span, expected)),
                }
            },
            None => Err(eof_err(expected)),
        }
    }

    fn parse_len(&mut self) -> (r: Result<Len, ParseError>)
        requires
            old(self).wf(),
        ensures
            final(self).wf(),
            final(self).tokens == old(self).tokens,
            match syn_len(old(self).toks(), old(self).pos as nat) {
                Ok((l, p)) => r matches Ok(x) && len_view(x) == l && final(self).pos == p,
                Err(e) => r matches Err(x) && parse_error_view(x) == e,
            },
    {
        match self.advance() {
            Some(t) => {
                let Token { kind, span } = t;
                match kind {
                    TokenKind::Int(n) => Ok(Len::Fixed(n)),
                    TokenKind::Ident(name) => Ok(Len::Field(name)),
                    // `*` means "to the end of the file".
                    TokenKind::Star => Ok(Len::Rest),
                    other => Err(unexpected_err(&other, span, "an integer, field name, or `*`")),
                }
            },
            None => Err(eof_err("an integer, field name, or `*`")),
        }
    }

    /// Parse a dotted field reference: `IDENT ('.' IDENT)*`, e.g. `flags.extra`.
    fn parse_path(&mut self) -> (r: Result<Vec<String>, ParseError>)
        requires
            old(self).wf(),
        ensures
            final(self).wf(),
            final(self).tokens == old(self).tokens,
            match syn_path(old(self).toks(), old(self).pos as nat) {
                Ok((v, p)) => r matches Ok(x) && path_view(x@) == v && final(self).pos == p,
                Err(e) => r matches Err(x) && parse_error_view(x) == e,
            },
            r is Ok ==> old(self).pos < final(self).pos,
    {
        let first = match self.expect_ident("a field name") {
            Ok((n, _)) => n,
            Err(e) => return Err(e),
        };
        let mut path: Vec<String> = Vec::new();
        path.push(first);
        proof {
            assert(path_view(path@) =~= seq![path@[0]@]);
        }
        loop
            invariant
                self.wf(),
                self.tokens == old(self).tokens,
                old(self).pos < self.pos,
                syn_path(old(self).toks(), old(self).pos as nat) == syn_path_rest(
                    old(self).toks(),
                    self.pos as nat,
                    path_view(path@),
                ),
            decreases self.tokens@.len() - self.pos,
        {
            if !self.next_is(&TokenKind::Dot) {
                return Ok(path);
            }
            self.advance();
            let seg = match self.expect_ident("a member name after `.`") {
                Ok((n, _)) => n,
                Err(e) => return Err(e),
            };
            proof {
                assert(path_view(path@.push(seg)) =~= path_view(path@).push(seg@));
            }
            path.push(seg);
        }
    }

    /// If the next token is a comparison operator, the comparison it stands for.
    fn peek_compare_op(&self) -> (r: Option<CompareOp>)
        requires
            self.wf(),
        ensures
            r == (if self.pos < self.toks().len() {
                compare_op_of(self.toks()[self.pos as int].kind)
            } else {
                None
            }),
    {
        match self.peek_kind() {
            Some(TokenKind::EqEq) | Some(TokenKind::Eq) => Some(CompareOp::Eq),
            Some(TokenKind::Ne) => Some(CompareOp::Ne),
            Some(TokenKind::Lt) => Some(CompareOp::Lt),
            Some(TokenKind::Le) => Some(CompareOp::Le),
            Some(TokenKind::Gt) => Some(CompareOp::Gt),
            Some(TokenKind::Ge) => Some(CompareOp::Ge),
            _ => None,
        }
    }

    /// Parse a conditional guard: `<path> [<op> <int or string>]`.
    fn parse_condition(&mut self) -> (r: Result<Condition, ParseError>)
        requires
            old(self).wf(),
        ensures
            final(self).wf(),
            final(self).tokens == old(self).tokens,
            match syn_condition(old(self).toks(), old(self).pos as nat) {
                Ok((c, p)) => r matches Ok(x) && condition_view(x) == c && final(self).pos == p,
                Err(e) => r matches Err(x) && parse_error_view(x) == e,
            },
            r is Ok ==> old(self).pos < final(self).pos,
    {
        let path = match self.parse_path() {
            Ok(p) => p,
            Err(e) => return Err(e),
        };
        let compare = match self.peek_compare_op() {
            Some(op) => {
                self.advance();
                // A number, or a quoted string to match a text field.
                let value = match self.peek_kind() {
                    Some(TokenKind::Str(_)) => match self.advance() {
                        Some(Token { kind: TokenKind::Str(s), .. }) => CompareValue::Str(s),
                        _ => {
                            assert(false);
                            return Err(eof_err(""));
                        },
                    },
                    _ => match self.expect_int("an integer or string to compare against") {
                        Ok((n, _)) => CompareValue::Int(n as i64),
                        Err(e) => return Err(e),
                    },
                };
                Some(Compare { op, value })
            },
            None => None,
        };
        Ok(Condition { path, compare })
    }
}


impl Parser {
    // Expression grammar for computed fields (standard precedence):
    //   expr   := term   (('+' | '-') term)*
    //   term   := factor (('*' | '/' | '%') factor)*
    //   factor := INT | path | '(' expr ')'
    fn parse_expr(&mut self) -> (r: Result<Expr, ParseError>)
        requires
            old(self).wf(),
        ensures
            final(self).wf(),
            final(self).tokens == old(self).tokens,
            match syn_expr(old(self).toks(), old(self).pos as nat) {
                Ok((v, p)) => r matches Ok(x) && expr_view(x) == v && final(self).pos == p,
                Err(e) => r matches Err(x) && parse_error_view(x) == e,
            },
            r is Ok ==> old(self).pos < final(self).pos,
        decreases old(self).tokens@.len() - old(self).pos, 4nat,
    {
        let mut lhs = match self.parse_term() {
            Ok(e) => e,
            Err(e) => return Err(e),
        };
        loop
            invariant
                self.wf(),
                self.tokens == old(self).tokens,
                old(self).pos < self.pos,
                syn_expr(old(self).toks(), old(self).pos as nat) == syn_expr_rest(
                    old(self).toks(),
                    self.pos as nat,
                    expr_view(lhs),
                ),
            decreases self.tokens@.len() - self.pos,
        {
            let op = match self.peek_kind() {
                Some(TokenKind::Plus) => BinOp::Add,
                Some(TokenKind::Minus) => BinOp::Sub,
                _ => return Ok(lhs),
            };
            self.advance();
            let rhs = match self.parse_term() {
                Ok(e) => e,
                Err(e) => return Err(e),
            };
            lhs = Expr::Binary { op, lhs: Box::new(lhs), rhs: Box::new(rhs) };
        }
    }

    fn parse_term(&mut self) -> (r: Result<Expr, ParseError>)
        requires
            old(self).wf(),
        ensures
            final(self).wf(),
            final(self).tokens == old(self).tokens,
            match syn_term(old(self).toks(), old(self).pos as nat) {
                Ok((v, p)) => r matches Ok(x) && expr_view(x) == v && final(self).pos == p,
                Err(e) => r matches Err(x) && parse_error_view(x) == e,
            },
            r is Ok ==> old(self).pos < final(self).pos,
        decreases old(self).tokens@.len() - old(self).pos, 2nat,
    {
        let mut lhs = match self.parse_factor() {
            Ok(e) => e,
            Err(e) => return Err(e),
        };
        loop
            invariant
                self.wf(),
                self.tokens == old(self).tokens,
                old(self).pos < self.pos,
                syn_term(old(self).toks(), old(self).pos as nat) == syn_term_rest(
                    old(self).toks(),
                    self.pos as nat,
                    expr_view(lhs),
                ),
            decreases self.tokens@.len() - self.pos,
        {
            let op = match self.peek_kind() {
                Some(TokenKind::Star) => BinOp::Mul,
                Some(TokenKind::Slash) => BinOp::Div,
                Some(TokenKind::Percent) => BinOp::Rem,
                _ => return Ok(lhs),
            };
            self.advance();
            let rhs = match self.parse_factor() {
                Ok(e) => e,
                Err(e) => return Err(e),
            };
            lhs = Expr::Binary { op, lhs: Box::new(lhs), rhs: Box::new(rhs) };
        }
    }

    fn parse_factor(&mut self) -> (r: Result<Expr, ParseError>)
        requires
            old(self).wf(),
        ensures
            final(self).wf(),
            final(self).tokens == old(self).tokens,
            match syn_factor(old(self).toks(), old(self).pos as nat) {
                Ok((v, p)) => r matches Ok(x) && expr_view(x) == v && final(self).pos == p,
                Err(e) => r matches Err(x) && parse_error_view(x) == e,
            },
            r is Ok ==> old(self).pos < final(self).pos,
        decreases old(self).tokens@.len() - old(self).pos, 0nat,
    {
        match self.peek_kind() {
            Some(TokenKind::Int(n)) => {
                let n = *n;
                self.advance();
                Ok(Expr::Int(n as i64))
            },
            Some(TokenKind::Ident(_)) => match self.parse_path() {
                Ok(p) => Ok(Expr::Field(p)),
                Err(e) => Err(e),
            },
            Some(TokenKind::LParen) => {
                self.advance();
                let e = match self.parse_expr() {
                    Ok(e) => e,
                    Err(e) => return Err(e),
                };
                match self.expect(&TokenKind::RParen, "`)`") {
                    Ok(_) => Ok(e),
                    Err(x) => Err(x),
                }
            },
            Some(k) => Err(unexpected_err(k, self.tokens[self.pos].span, "a number, field name, or `(`")),
            None => Err(eof_err("an expression")),
        }
    }
}


/// The model of an optional boxed type.
pub open spec fn opt_type_view(t: Option<Box<TypeExpr>>) -> Option<Box<SpecTypeExpr>> {
    match t {
        Some(b) => Some(Box::new(type_view(*b))),
        None => None,
    }
}

pub open spec fn opt_len_view(l: Option<Len>) -> Option<SpecLen> {
    match l {
        Some(x) => Some(len_view(x)),
        None => None,
    }
}

proof fn lemma_arms_push(arms: Seq<MatchArm>, a: MatchArm)
    ensures
        arms_view(arms.push(a)) == arms_view(arms).push(SpecMatchArm { key: key_view(a.key), ty: type_view(a.ty) }),
{
    assert(arms.push(a).drop_last() =~= arms);
}

impl Parser {
    /// Combine a base type name with an optional `[len]` into a type.
    fn resolve_type(&self, base: String, span: Span, len: Option<Len>) -> (r: Result<TypeExpr, ParseError>)
        ensures
            match syn_resolve_type(base@, span, opt_len_view(len)) {
                Ok(t) => r matches Ok(x) && type_view(x) == t,
                Err(e) => r matches Err(x) && parse_error_view(x) == e,
            },
    {
        // `string`/`bytes` are sized-only: they mean nothing without a length.
        let is_string = str_eq(base.as_str(), "string");
        if is_string || str_eq(base.as_str(), "bytes") {
            return match len {
                None => Err(ParseError::LengthRequired { ty: base, span }),
                Some(l) => Ok(if is_string { TypeExpr::Str(l) } else { TypeExpr::Bytes(l) }),
            };
        }
        // Everything else: a primitive keyword, `char`, `cstring`, or a
        // struct/enum/bitfield reference.
        let element = match Prim::from_keyword(base.as_str()) {
            Some(prim) => TypeExpr::Prim(prim),
            None => if str_eq(base.as_str(), "varint") {
                TypeExpr::Varint { signed: false }
            } else if str_eq(base.as_str(), "svarint") {
                TypeExpr::Varint { signed: true }
            } else if str_eq(base.as_str(), "char") {
                TypeExpr::Char
            } else if str_eq(base.as_str(), "cstring") {
                TypeExpr::CStr
            } else {
                TypeExpr::Named(base)
            },
        };
        proof {
            let b = base@;
            assert(b != "string"@ && b != "bytes"@);
            assert(type_view(element) == (if prim_of_keyword(b) is Some {
                SpecTypeExpr::Prim(prim_of_keyword(b)->0)
            } else if b == "varint"@ {
                SpecTypeExpr::Varint { signed: false }
            } else if b == "svarint"@ {
                SpecTypeExpr::Varint { signed: true }
            } else if b == "char"@ {
                SpecTypeExpr::Char
            } else if b == "cstring"@ {
                SpecTypeExpr::CStr
            } else {
                SpecTypeExpr::Named(b)
            }));
        }
        Ok(match len {
            Some(l) => TypeExpr::Array { elem: Box::new(element), len: l },
            None => element,
        })
    }

    fn parse_type(&mut self) -> (r: Result<TypeExpr, ParseError>)
        requires
            old(self).wf(),
        ensures
            final(self).wf(),
            final(self).tokens == old(self).tokens,
            match syn_type(old(self).toks(), old(self).pos as nat) {
                Ok((v, p)) => r matches Ok(x) && type_view(x) == v && final(self).pos == p,
                Err(e) => r matches Err(x) && parse_error_view(x) == e,
            },
            r is Ok ==> old(self).pos < final(self).pos,
        decreases old(self).tokens@.len() - old(self).pos, 2nat,
    {
        // A `match` field is a discriminated union rather than a named type.
        if self.next_is(&TokenKind::Match) {
            return self.parse_match();
        }
        // A `repeat` field reads its element type over and over.
        if self.next_is(&TokenKind::Repeat) {
            return self.parse_repeat();
        }
        let (base, span) = match self.expect_ident("a type") {
            Ok(x) => x,
            Err(e) => return Err(e),
        };
        let len = if self.next_is(&TokenKind::LBracket) {
            self.advance();
            let len = match self.parse_len() {
                Ok(l) => l,
                Err(e) => return Err(e),
            };
            match self.expect(&TokenKind::RBracket, "`]`") {
                Ok(_) => {},
                Err(e) => return Err(e),
            }
            Some(len)
        } else {
            None
        };
        self.resolve_type(base, span, len)
    }

    /// Parse a discriminated union:
    /// `match <path> { <int> => type ... "<tag>" => type ... [default => type] }`.
    fn parse_match(&mut self) -> (r: Result<TypeExpr, ParseError>)
        requires
            old(self).wf(),
        ensures
            final(self).wf(),
            final(self).tokens == old(self).tokens,
            match syn_match(old(self).toks(), old(self).pos as nat) {
                Ok((v, p)) => r matches Ok(x) && type_view(x) == v && final(self).pos == p,
                Err(e) => r matches Err(x) && parse_error_view(x) == e,
            },
            r is Ok ==> old(self).pos < final(self).pos,
        decreases old(self).tokens@.len() - old(self).pos, 1nat,
    {
        match self.expect(&TokenKind::Match, "keyword `match`") {
            Ok(_) => {},
            Err(e) => return Err(e),
        }
        let discriminant = match self.parse_path() {
            Ok(p) => p,
            Err(e) => return Err(e),
        };
        match self.expect(&TokenKind::LBrace, "`{`") {
            Ok(_) => {},
            Err(e) => return Err(e),
        }
        let mut arms: Vec<MatchArm> = Vec::new();
        let mut default: Option<Box<TypeExpr>> = None;
        proof {
            assert(arms_view(arms@) =~= Seq::<SpecMatchArm>::empty());
        }
        loop
            invariant
                self.wf(),
                self.tokens == old(self).tokens,
                old(self).pos < self.pos,
                syn_match(old(self).toks(), old(self).pos as nat) == syn_arms(
                    old(self).toks(),
                    self.pos as nat,
                    path_view(discriminant@),
                    arms_view(arms@),
                    opt_type_view(default),
                ),
            decreases self.tokens@.len() - self.pos,
        {
            let ghost pos = self.pos;
            let what: u8 = match self.peek_kind() {
                None => return Err(eof_err("a match arm or `}`")),
                Some(TokenKind::RBrace) => 0,
                Some(TokenKind::Int(_)) => 1,
                Some(TokenKind::Str(_)) => 2,
                Some(TokenKind::Ident(id)) => if str_eq(id.as_str(), "default") {
                    3
                } else {
                    4
                },
                Some(_) => 4,
            };
            if what == 0 {
                self.advance();
                return Ok(TypeExpr::Match { discriminant, arms, default });
            }
            if what == 4 {
                let t = &self.tokens[self.pos];
                return Err(unexpected_err(&t.kind, t.span, "a discriminant value, a quoted tag, `default`, or `}`"));
            }
            let key = match self.advance() {
                Some(Token { kind: TokenKind::Int(v), .. }) => Some(MatchKey::Int(v as i64)),
                Some(Token { kind: TokenKind::Str(s), .. }) => Some(MatchKey::Str(s)),
                _ => None,
            };
            match self.expect(&TokenKind::FatArrow, "`=>`") {
                Ok(_) => {},
                Err(e) => return Err(e),
            }
            let ty = match self.parse_type() {
                Ok(t) => t,
                Err(e) => return Err(e),
            };
            match key {
                Some(k) => {
                    proof {
                        lemma_arms_push(arms@, MatchArm { key: k, ty });
                    }
                    arms.push(MatchArm { key: k, ty });
                },
                // `default => type` is the catch-all arm.
                None => {
                    default = Some(Box::new(ty));
                },
            }
        }
    }

    /// Parse a repeat-until-sentinel field: `repeat <type> [until <condition>]`.
    fn parse_repeat(&mut self) -> (r: Result<TypeExpr, ParseError>)
        requires
            old(self).wf(),
        ensures
            final(self).wf(),
            final(self).tokens == old(self).tokens,
            match syn_repeat(old(self).toks(), old(self).pos as nat) {
                Ok((v, p)) => r matches Ok(x) && type_view(x) == v && final(self).pos == p,
                Err(e) => r matches Err(x) && parse_error_view(x) == e,
            },
            r is Ok ==> old(self).pos < final(self).pos,
        decreases old(self).tokens@.len() - old(self).pos, 1nat,
    {
        match self.expect(&TokenKind::Repeat, "keyword `repeat`") {
            Ok(_) => {},
            Err(e) => return Err(e),
        }
        let elem = match self.parse_type() {
            Ok(t) => t,
            Err(e) => return Err(e),
        };
        let until = if self.next_is(&TokenKind::Until) {
            self.advance();
            match self.parse_condition() {
                Ok(c) => Some(c),
                Err(e) => return Err(e),
            }
        } else {
            None
        };
        Ok(TypeExpr::Repeat { elem: Box::new(elem), until })
    }
}


pub open spec fn opt_string_view(s: Option<String>) -> Option<Seq<char>> {
    match s {
        Some(x) => Some(x@),
        None => None,
    }
}

impl Parser {
    /// Parse a `decode` clause (the keyword already consumed):
    /// `<transform>[(args)] [as <type>]`.
    #[verifier::loop_isolation(false)]
    fn parse_decode(&mut self) -> (r: Result<Decode, ParseError>)
        requires
            old(self).wf(),
        ensures
            final(self).wf(),
            final(self).tokens == old(self).tokens,
            match syn_decode(old(self).toks(), old(self).pos as nat) {
                Ok((v, p)) => r matches Ok(x) && decode_view(x) == v && final(self).pos == p,
                Err(e) => r matches Err(x) && parse_error_view(x) == e,
            },
            r is Ok ==> old(self).pos < final(self).pos,
    {
        let (name, span) = match self.expect_ident("a transform name") {
            Ok(x) => x,
            Err(e) => return Err(e),
        };
        let ghost p = self.pos;
        // Optional parenthesized integer arguments.
        let mut args: Vec<i64> = Vec::new();
        if self.next_is(&TokenKind::LParen) {
            self.advance();
            if !self.next_is(&TokenKind::RParen) {
                let ghost q0 = self.pos;
                let mut more = true;
                while more
                    invariant
                        self.wf(),
                        self.tokens == old(self).tokens,
                        q0 <= self.pos,
                        more ==> syn_args(old(self).toks(), q0 as nat, Seq::empty()) == syn_args(
                            old(self).toks(),
                            self.pos as nat,
                            args@,
                        ),
                        !more ==> q0 < self.pos && syn_args(old(self).toks(), q0 as nat, Seq::empty())
                            == Ok::<(Seq<i64>, nat), SpecParseError>((args@, self.pos as nat)),
                    decreases self.tokens@.len() - self.pos, if more { 1nat } else { 0nat },
                {
                    let (n, _) = match self.expect_int("a transform argument") {
                        Ok(x) => x,
                        Err(e) => return Err(e),
                    };
                    args.push(n as i64);
                    if self.next_is(&TokenKind::Comma) {
                        self.advance();
                    } else {
                        more = false;
                    }
                }
            }
            match self.expect(&TokenKind::RParen, "`)`") {
                Ok(_) => {},
                Err(e) => return Err(e),
            }
        }
        let transform = match self.build_transform(name.as_str(), args.as_slice(), span) {
            Ok(t) => t,
            Err(e) => return Err(e),
        };
        let as_type = if self.next_is(&TokenKind::As) {
            self.advance();
            match self.parse_type() {
                Ok(t) => Some(Box::new(t)),
                Err(e) => return Err(e),
            }
        } else {
            None
        };
        Ok(Decode { transform, as_type })
    }

    /// Map a transform name and integer arguments to a [`Transform`],
    /// checking the number of arguments.
    fn build_transform(&self, name: &str, args: &[i64], span: Span) -> (r: Result<Transform, ParseError>)
        ensures
            match syn_transform(name@, args@, span) {
                Ok(t) => r matches Ok(x) && transform_view(x) == t,
                Err(e) => r matches Err(x) && parse_error_view(x) == e,
            },
    {
        let arity = |n: usize| -> (e: ParseError)
            ensures
                parse_error_view(e) == (SpecParseError::BadTransformArgs {
                    name: name@,
                    expected: n,
                    found: args@.len() as usize,
                    span,
                }),
            {
                ParseError::BadTransformArgs { name: String::from_str(name), expected: n, found: args.len(), span }
            };
        if str_eq(name, "xor") {
            if args.len() == 0 {
                return Err(arity(1));
            }
            let mut key: Vec<u8> = Vec::new();
            let mut i: usize = 0;
            while i < args.len()
                invariant
                    i <= args@.len(),
                    key@ =~= args@.subrange(0, i as int).map_values(|a: i64| a as u8),
                decreases args@.len() - i,
            {
                proof {
                    assert(args@.subrange(0, i + 1).map_values(|a: i64| a as u8) =~= args@.subrange(
                        0,
                        i as int,
                    ).map_values(|a: i64| a as u8).push(args@[i as int] as u8));
                }
                key.push(args[i] as u8);
                i += 1;
            }
            assert(args@.subrange(0, args@.len() as int) =~= args@);
            Ok(Transform::Xor(key))
        } else if str_eq(name, "rolling_xor") {
            if args.len() != 3 {
                return Err(arity(3));
            }
            Ok(Transform::RollingXor { seed: args[0] as u8, mul: args[1] as u8, add: args[2] as u8 })
        } else if str_eq(name, "add") {
            if args.len() != 1 {
                return Err(arity(1));
            }
            Ok(Transform::Add(args[0]))
        } else if str_eq(name, "sub") {
            if args.len() != 1 {
                return Err(arity(1));
            }
            // Negation wraps at the one value without a positive counterpart;
            // adding modulo 256 gives the same bytes either way.
            let n = args[0];
            let neg: i64 = if n == i64::MIN { n } else { -n };
            assert(neg == (-n) as i64) by (bit_vector)
                requires
                    n == i64::MIN ==> neg == n,
                    n != i64::MIN ==> neg == -n,
            ;
            Ok(Transform::Add(neg))
        } else if str_eq(name, "base64") {
            if args.len() != 0 {
                return Err(arity(0));
            }
            Ok(Transform::Base64)
        } else if str_eq(name, "zlib_inflate") || str_eq(name, "zlib") {
            if args.len() != 0 {
                return Err(arity(0));
            }
            Ok(Transform::ZlibInflate)
        } else if str_eq(name, "inflate") || str_eq(name, "deflate_raw") {
            if args.len() != 0 {
                return Err(arity(0));
            }
            Ok(Transform::Inflate)
        } else if str_eq(name, "gunzip") || str_eq(name, "gzip") {
            if args.len() != 0 {
                return Err(arity(0));
            }
            Ok(Transform::Gunzip)
        } else {
            Err(ParseError::UnknownTransform { name: String::from_str(name), span })
        }
    }

    /// Consume a trailing string literal as the field's description, if present.
    fn parse_optional_desc(&mut self) -> (r: Option<String>)
        requires
            old(self).wf(),
        ensures
            final(self).wf(),
            final(self).tokens == old(self).tokens,
            opt_string_view(r) == syn_desc(old(self).toks(), old(self).pos as nat).0,
            final(self).pos == syn_desc(old(self).toks(), old(self).pos as nat).1,
    {
        match self.peek_kind() {
            Some(TokenKind::Str(_)) => match self.advance() {
                Some(Token { kind: TokenKind::Str(s), .. }) => Some(s),
                _ => None,
            },
            _ => None,
        }
    }

    fn parse_field(&mut self) -> (r: Result<Field, ParseError>)
        requires
            old(self).wf(),
        ensures
            final(self).wf(),
            final(self).tokens == old(self).tokens,
            match syn_field(old(self).toks(), old(self).pos as nat) {
                Ok((v, p)) => r matches Ok(x) && field_view(x) == v && final(self).pos == p,
                Err(e) => r matches Err(x) && parse_error_view(x) == e,
            },
            r is Ok ==> old(self).pos < final(self).pos,
    {
        let (name, _) = match self.expect_ident("a field name") {
            Ok(x) => x,
            Err(e) => return Err(e),
        };
        // `name = <expr>` is a computed field: no type, reads no bytes.
        if self.next_is(&TokenKind::Eq) {
            self.advance();
            let expr = match self.parse_expr() {
                Ok(e) => e,
                Err(e) => return Err(e),
            };
            let desc = self.parse_optional_desc();
            return Ok(Field {
                name,
                ty: TypeExpr::Computed(Box::new(expr)),
                pointer: None,
                condition: None,
                decode: None,
                desc,
            });
        }
        // An optional `at [+] <offset>` reads the field at another offset.
        let pointer = if self.next_is(&TokenKind::At) {
            self.advance();
            let relative = self.next_is(&TokenKind::Plus);
            if relative {
                self.advance();
            }
            match self.parse_len() {
                Ok(offset) => Some(Pointer { offset, relative }),
                Err(e) => return Err(e),
            }
        } else {
            None
        };
        let ty = match self.parse_type() {
            Ok(t) => t,
            Err(e) => return Err(e),
        };
        // An optional `decode <transform> [as <Type>]` transforms the raw bytes.
        let decode = if self.next_is(&TokenKind::Decode) {
            self.advance();
            match self.parse_decode() {
                Ok(d) => Some(d),
                Err(e) => return Err(e),
            }
        } else {
            None
        };
        // An optional `if <condition>` makes the field conditional.
        let condition = if self.next_is(&TokenKind::If) {
            self.advance();
            match self.parse_condition() {
                Ok(c) => Some(c),
                Err(e) => return Err(e),
            }
        } else {
            None
        };
        let desc = self.parse_optional_desc();
        Ok(Field { name, ty, pointer, condition, decode, desc })
    }
}


pub open spec fn fields_view(v: Seq<Field>) -> Seq<SpecField> {
    v.map_values(|f: Field| field_view(f))
}

pub open spec fn variants_view(v: Seq<EnumVariant>) -> Seq<SpecEnumVariant> {
    v.map_values(|x: EnumVariant| SpecEnumVariant { name: x.name@, value: x.value })
}

pub open spec fn members_view(v: Seq<BitMember>) -> Seq<SpecBitMember> {
    v.map_values(|m: BitMember| SpecBitMember { name: m.name@, lo: m.lo, hi: m.hi })
}

pub open spec fn names_view(v: Seq<String>) -> Seq<Seq<char>> {
    v.map_values(|s: String| s@)
}

/// The model of a schema built so far from its three lists.
pub open spec fn defs_view(structs: Seq<StructDef>, enums: Seq<EnumDef>, bitfields: Seq<BitfieldDef>) -> SpecSchema {
    SpecSchema {
        structs: structs.map_values(|d: StructDef| struct_view(d)),
        enums: enums.map_values(|d: EnumDef| enum_view(d)),
        bitfields: bitfields.map_values(|d: BitfieldDef| bitfield_view(d)),
    }
}

/// Register a newly defined type name, rejecting one that an earlier struct,
/// enum or bitfield already has. `span` points at the definition keyword.
fn claim_name(names: &mut Vec<String>, name: &str, span: Span) -> (r: Result<(), ParseError>)
    ensures
        if names_view(old(names)@).contains(name@) {
            r matches Err(x) && parse_error_view(x) == (SpecParseError::DuplicateType { name: name@, span })
        } else {
            r is Ok && names_view(final(names)@) == names_view(old(names)@).push(name@)
        },
{
    let mut i: usize = 0;
    while i < names.len()
        invariant
            i <= names@.len(),
            forall|k: int| 0 <= k < i ==> names@[k]@ != name@,
        decreases names@.len() - i,
    {
        if str_eq(names[i].as_str(), name) {
            assert(names_view(names@)[i as int] == name@);
            return Err(ParseError::DuplicateType { name: String::from_str(name), span });
        }
        i += 1;
    }
    proof {
        if names_view(names@).contains(name@) {
            let k = choose|k: int| 0 <= k < names_view(names@).len() && names_view(names@)[k] == name@;
            assert(names@[k]@ == name@);
        }
    }
    let ghost before = names@;
    names.push(String::from_str(name));
    assert(names_view(names@) =~= names_view(before).push(name@));
    Ok(())
}

impl Parser {
    fn parse_struct(&mut self) -> (r: Result<StructDef, ParseError>)
        requires
            old(self).wf(),
        ensures
            final(self).wf(),
            final(self).tokens == old(self).tokens,
            match syn_struct(old(self).toks(), old(self).pos as nat) {
                Ok((v, p)) => r matches Ok(x) && struct_view(x) == v && final(self).pos == p,
                Err(e) => r matches Err(x) && parse_error_view(x) == e,
            },
            r is Ok ==> old(self).pos < final(self).pos,
    {
        proof {
            reveal(syn_struct);
        }
        match self.expect(&TokenKind::Struct, "keyword `struct`") {
            Ok(_) => {},
            Err(e) => return Err(e),
        }
        let (name, _) = match self.expect_ident("a struct name") {
            Ok(x) => x,
            Err(e) => return Err(e),
        };
        match self.expect(&TokenKind::LBrace, "`{`") {
            Ok(_) => {},
            Err(e) => return Err(e),
        }
        let mut fields: Vec<Field> = Vec::new();
        proof {
            assert(fields_view(fields@) =~= Seq::<SpecField>::empty());
        }
        loop
            invariant
                self.wf(),
                self.tokens == old(self).tokens,
                old(self).pos < self.pos,
                syn_struct(old(self).toks(), old(self).pos as nat) == (match syn_fields(
                    old(self).toks(),
                    self.pos as nat,
                    fields_view(fields@),
                ) {
                    Ok((fs, s)) => Ok((SpecStructDef { name: name@, fields: fs }, s)),
                    Err(e) => Err(e),
                }),
            decreases self.tokens@.len() - self.pos,
        {
            if self.pos >= self.tokens.len() {
                return Err(eof_err("a field or `}`"));
            }
            if self.next_is(&TokenKind::RBrace) {
                self.advance();
                return Ok(StructDef { name, fields });
            }
            let f = match self.parse_field() {
                Ok(f) => f,
                Err(e) => return Err(e),
            };
            proof {
                assert(fields_view(fields@.push(f)) =~= fields_view(fields@).push(field_view(f)));
            }
            fields.push(f);
        }
    }

    /// Parse `: <int-prim>`, the underlying integer type of an enum or bitfield.
    fn parse_repr(&mut self) -> (r: Result<Prim, ParseError>)
        requires
            old(self).wf(),
        ensures
            final(self).wf(),
            final(self).tokens == old(self).tokens,
            match syn_repr(old(self).toks(), old(self).pos as nat) {
                Ok((v, p)) => r matches Ok(x) && x == v && final(self).pos == p,
                Err(e) => r matches Err(x) && parse_error_view(x) == e,
            },
    {
        match self.expect(&TokenKind::Colon, "`:`") {
            Ok(_) => {},
            Err(e) => return Err(e),
        }
        let (word, span) = match self.expect_ident("an integer type (u8..u64, i8..i64)") {
            Ok(x) => x,
            Err(e) => return Err(e),
        };
        match Prim::from_keyword(word.as_str()) {
            Some(p) => if p.is_integer() {
                Ok(p)
            } else {
                Err(ParseError::NonIntegerRepr { ty: word, span })
            },
            None => Err(ParseError::NonIntegerRepr { ty: word, span }),
        }
    }

    fn parse_enum(&mut self) -> (r: Result<EnumDef, ParseError>)
        requires
            old(self).wf(),
        ensures
            final(self).wf(),
            final(self).tokens == old(self).tokens,
            match syn_enum(old(self).toks(), old(self).pos as nat) {
                Ok((v, p)) => r matches Ok(x) && enum_view(x) == v && final(self).pos == p,
                Err(e) => r matches Err(x) && parse_error_view(x) == e,
            },
            r is Ok ==> old(self).pos < final(self).pos,
    {
        proof {
            reveal(syn_enum);
        }
        match self.expect(&TokenKind::Enum, "keyword `enum`") {
            Ok(_) => {},
            Err(e) => return Err(e),
        }
        let (name, _) = match self.expect_ident("an enum name") {
            Ok(x) => x,
            Err(e) => return Err(e),
        };
        let repr = match self.parse_repr() {
            Ok(p) => p,
            Err(e) => return Err(e),
        };
        match self.expect(&TokenKind::LBrace, "`{`") {
            Ok(_) => {},
            Err(e) => return Err(e),
        }
        let mut variants: Vec<EnumVariant> = Vec::new();
        proof {
            assert(variants_view(variants@) =~= Seq::<SpecEnumVariant>::empty());
        }
        loop
            invariant
                self.wf(),
                self.tokens == old(self).tokens,
                old(self).pos < self.pos,
                syn_enum(old(self).toks(), old(self).pos as nat) == (match syn_variants(
                    old(self).toks(),
                    self.pos as nat,
                    variants_view(variants@),
                ) {
                    Ok((vs, s)) => Ok((SpecEnumDef { name: name@, repr, variants: vs }, s)),
                    Err(e) => Err(e),
                }),
            decreases self.tokens@.len() - self.pos,
        {
            if self.pos >= self.tokens.len() {
                return Err(eof_err("a variant or `}`"));
            }
            if self.next_is(&TokenKind::RBrace) {
                self.advance();
                return Ok(EnumDef { name, repr, variants });
            }
            let (vname, _) = match self.expect_ident("a variant name") {
                Ok(x) => x,
                Err(e) => return Err(e),
            };
            match self.expect(&TokenKind::Eq, "`=`") {
                Ok(_) => {},
                Err(e) => return Err(e),
            }
            let (value, _) = match self.expect_int("a variant value") {
                Ok(x) => x,
                Err(e) => return Err(e),
            };
            let v = EnumVariant { name: vname, value: value as i64 };
            proof {
                assert(variants_view(variants@.push(v)) =~= variants_view(variants@).push(
                    SpecEnumVariant { name: v.name@, value: v.value },
                ));
            }
            variants.push(v);
        }
    }

    #[verifier::spinoff_prover]
    fn parse_bitfield(&mut self) -> (r: Result<BitfieldDef, ParseError>)
        requires
            old(self).wf(),
        ensures
            final(self).wf(),
            final(self).tokens == old(self).tokens,
            match syn_bitfield(old(self).toks(), old(self).pos as nat) {
                Ok((v, p)) => r matches Ok(x) && bitfield_view(x) == v && final(self).pos == p,
                Err(e) => r matches Err(x) && parse_error_view(x) == e,
            },
            r matches Ok(x) ==> bitfield_wf(x),
            r is Ok ==> old(self).pos < final(self).pos,
    {
        proof {
            reveal(syn_bitfield);
        }
        match self.expect(&TokenKind::Bitfield, "keyword `bitfield`") {
            Ok(_) => {},
            Err(e) => return Err(e),
        }
        let (name, _) = match self.expect_ident("a bitfield name") {
            Ok(x) => x,
            Err(e) => return Err(e),
        };
        let repr = match self.parse_repr() {
            Ok(p) => p,
            Err(e) => return Err(e),
        };
        let bits = (repr.size() * 8) as u32;
        match self.expect(&TokenKind::LBrace, "`{`") {
            Ok(_) => {},
            Err(e) => return Err(e),
        }
        let mut members: Vec<BitMember> = Vec::new();
        proof {
            assert(members_view(members@) =~= Seq::<SpecBitMember>::empty());
        }
        loop
            invariant
                self.wf(),
                self.tokens == old(self).tokens,
                old(self).pos < self.pos,
                bits <= 64,
                forall|j: int| 0 <= j < members@.len() ==> #[trigger] members@[j].lo <= members@[j].hi < 64,
                syn_bitfield(old(self).toks(), old(self).pos as nat) == (match syn_members(
                    old(self).toks(),
                    self.pos as nat,
                    bits,
                    members_view(members@),
                ) {
                    Ok((ms, s)) => Ok((SpecBitfieldDef { name: name@, repr, members: ms }, s)),
                    Err(e) => Err(e),
                }),
            decreases self.tokens@.len() - self.pos,
        {
            if self.pos >= self.tokens.len() {
                return Err(eof_err("a member or `}`"));
            }
            if self.next_is(&TokenKind::RBrace) {
                self.advance();
                let d = BitfieldDef { name, repr, members };
                assert(forall|j: int| 0 <= j < d.members@.len() ==> #[trigger] d.members@[j].lo <= d.members@[j].hi < 64);
                assert(bitfield_wf(d));
                return Ok(d);
            }
            let (mname, _) = match self.expect_ident("a member name") {
                Ok(x) => x,
                Err(e) => return Err(e),
            };
            let (lo, lo_span) = match self.expect_int("a bit index") {
                Ok(x) => x,
                Err(e) => return Err(e),
            };
            // Optional `..hi` for a multi-bit member; otherwise a single bit.
            let hi = if self.next_is(&TokenKind::DotDot) {
                self.advance();
                let (hi, hi_span) = match self.expect_int("a high bit index") {
                    Ok(x) => x,
                    Err(e) => return Err(e),
                };
                if hi < lo {
                    return Err(ParseError::BadBitRange { lo, hi, span: hi_span });
                }
                hi
            } else {
                lo
            };
            if hi >= bits as u64 {
                return Err(ParseError::BitOutOfRange { bit: hi, bits, span: lo_span });
            }
            let m = BitMember { name: mname, lo: lo as u8, hi: hi as u8 };
            proof {
                assert(members_view(members@.push(m)) =~= members_view(members@).push(
                    SpecBitMember { name: m.name@, lo: m.lo, hi: m.hi },
                ));
            }
            members.push(m);
        }
    }

    fn parse_schema(&mut self) -> (r: Result<Schema, ParseError>)
        requires
            old(self).wf(),
            old(self).pos == 0,
        ensures
            match syn_schema(old(self).toks()) {
                Ok(v) => r matches Ok(x) && schema_view(x) == v && schema_wf(x),
                Err(e) => r matches Err(x) && parse_error_view(x) == e,
            },
    {
        let mut structs: Vec<StructDef> = Vec::new();
        let mut enums: Vec<EnumDef> = Vec::new();
        let mut bitfields: Vec<BitfieldDef> = Vec::new();
        // Structs, enums, and bitfields share one name space.
        let mut names: Vec<String> = Vec::new();
        proof {
            let d = defs_view(structs@, enums@, bitfields@);
            assert(d.structs =~= Seq::empty());
            assert(d.enums =~= Seq::empty());
            assert(d.bitfields =~= Seq::empty());
            assert(names_view(names@) =~= Seq::<Seq<char>>::empty());
        }
        loop
            invariant
                self.wf(),
                self.tokens == old(self).tokens,
                forall|i: int| 0 <= i < bitfields@.len() ==> #[trigger] bitfield_wf(bitfields@[i]),
                syn_schema(old(self).toks()) == syn_defs(
                    old(self).toks(),
                    self.pos as nat,
                    defs_view(structs@, enums@, bitfields@),
                    names_view(names@),
                ),
            decreases self.tokens@.len() - self.pos,
        {
            let ghost before = defs_view(structs@, enums@, bitfields@);
            let what: u8 = match self.peek_kind() {
                None => {
                    let sch = Schema { structs, enums, bitfields };
                    assert(schema_view(sch) == defs_view(sch.structs@, sch.enums@, sch.bitfields@));
                    return Ok(sch);
                },
                Some(TokenKind::Struct) => 0,
                Some(TokenKind::Enum) => 1,
                Some(TokenKind::Bitfield) => 2,
                Some(_) => 3,
            };
            let span = self.tokens[self.pos].span;
            if what == 3 {
                let t = &self.tokens[self.pos];
                return Err(unexpected_err(&t.kind, t.span, "keyword `struct`, `enum`, or `bitfield`"));
            } else if what == 0 {
                let def = match self.parse_struct() {
                    Ok(d) => d,
                    Err(e) => return Err(e),
                };
                match claim_name(&mut names, def.name.as_str(), span) {
                    Ok(()) => {},
                    Err(e) => return Err(e),
                }
                proof {
                    let d = defs_view(structs@.push(def), enums@, bitfields@);
                    assert(d.structs =~= before.structs.push(struct_view(def)));
                    assert(d == SpecSchema { structs: before.structs.push(struct_view(def)), ..before });
                }
                structs.push(def);
            } else if what == 1 {
                let def = match self.parse_enum() {
                    Ok(d) => d,
                    Err(e) => return Err(e),
                };
                match claim_name(&mut names, def.name.as_str(), span) {
                    Ok(()) => {},
                    Err(e) => return Err(e),
                }
                proof {
                    let d = defs_view(structs@, enums@.push(def), bitfields@);
                    assert(d.enums =~= before.enums.push(enum_view(def)));
                    assert(d == SpecSchema { enums: before.enums.push(enum_view(def)), ..before });
                }
                enums.push(def);
            } else {
                let def = match self.parse_bitfield() {
                    Ok(d) => d,
                    Err(e) => return Err(e),
                };
                match claim_name(&mut names, def.name.as_str(), span) {
                    Ok(()) => {},
                    Err(e) => return Err(e),
                }
                proof {
                    let d = defs_view(structs@, enums@, bitfields@.push(def));
                    assert(d.bitfields =~= before.bitfields.push(bitfield_view(def)));
                    assert(d == SpecSchema { bitfields: before.bitfields.push(bitfield_view(def)), ..before });
                }
                bitfields.push(def);
            }
        }
    }
}

/// Parse schema source text into a [`Schema`]: tokenize, then parse. Every
/// schema it returns has its bitfield members inside a 64-bit value, which is
/// what [`crate::runtime::parse`] asks of a schema.
pub fn parse(src: &str) -> (r: Result<Schema, ParseError>)
    requires
        src.spec_bytes().len() < u32::MAX,
    ensures
        match spec_parse_source(src.spec_bytes()) {
            Ok(v) => r matches Ok(x) && schema_view(x) == v && schema_wf(x),
            Err(e) => r matches Err(x) && parse_error_view(x) == e,
        },
{
    let tokens = match tokenize(src) {
        Ok(t) => t,
        Err(e) => return Err(e),
    };
    let mut p = Parser { tokens, pos: 0 };
    p.parse_schema()
}

} // verus!
