//! Schema execution: walk bytes under a [`Schema`] and produce a tree of
//! [`FieldNode`]s, each recording its decoded value and its exact byte range.
//!
//! The meaning of a schema is stated here as a family of spec functions
//! (`spec_parse_type` and friends) over the schema, the bytes and the byte
//! order; the executable runtime is proved to compute exactly that.
use vstd::prelude::*;

use crate::reader::{read_error_message, uint_at, byte_bound, lemma_byte_bound_values, BinaryReader, Endian, ReadError};
use crate::schema::{
    find_bitfield, find_enum, find_struct, find_variant, prim_is_integer, prim_of_keyword, prim_size, BinOp, BitMember, BitfieldDef,
    CompareOp, CompareValue, Condition, Decode, EnumDef, Expr, Field, Len, MatchArm, MatchKey,
    Prim, Schema, StructDef, TypeExpr,
};
use crate::text::{
    decimal, join, lossy_string, push_decimal, seq_lt, signed_decimal, str_eq, str_lt,
    strings_view, lossy_text, i64_to_string, u64_to_string, join_strings,
};
use crate::transform::{apply_transform, spec_apply_transform, spec_transform_name, transform_name};


verus! {

/// Nesting limit guarding against cyclic struct references.
pub const MAX_DEPTH: usize = 256;

/// Upper bound on `repeat` iterations.
pub const MAX_ITERS: usize = 1_000_000;

/// Scan limit when looking for the NUL that ends a `cstring`.
pub const CSTRING_CAP: usize = 4096;

/// A decoded field and its exact location in the data.
#[derive(Debug, PartialEq)]
pub struct FieldNode {
    pub name: String,
    /// Display form of the field's type, e.g. `"u32"`, `"char[4]"`, `"Player[3]"`.
    pub type_label: String,
    pub value: Value,
    pub offset: usize,
    pub size: usize,
    /// Documentation carried from the schema field (empty if none).
    pub description: String,
    pub children: Vec<FieldNode>,
}

/// A decoded scalar value. Floating-point fields carry their IEEE-754 bit
/// pattern, exactly as read.
#[derive(Debug, Clone, PartialEq)]
pub enum Value {
    U(u64),
    I(i64),
    /// An `f32` field: the bits of the single-precision value.
    F32(u32),
    /// An `f64` field: the bits of the double-precision value.
    F64(u64),
    Bool(bool),
    Char(char),
    Str(String),
    Bytes(Vec<u8>),
    Struct,
    Array,
    /// A decoded enum: the underlying integer plus the matching variant name.
    Enum(EnumValue),
    /// A decoded bitfield; its unpacked members are the node's children.
    Bitfield,
}

/// The payload of [`Value::Enum`].
#[derive(Debug, Clone, PartialEq)]
pub struct EnumValue {
    pub value: i64,
    pub name: Option<String>,
}

/// Anything that can go wrong executing a schema against bytes.
#[derive(Debug, PartialEq)]
pub enum RuntimeError {
    Read(ReadError),
    UnknownStruct(String),
    UnknownType(String),
    UnknownLengthField(String),
    LengthNotInteger(String),
    UnknownConditionField(String),
    ConditionNotInteger(String),
    UnknownMatchField(String),
    MatchFieldNotMatchable(String),
    NoMatchingArm(String),
    RepeatOverrun(usize),
    ConditionTypeMismatch(String),
    DecodeNotBytes(String),
    VarintTooLong(usize),
    Base64(String),
    Inflate(String, String),
    ExprUnknownField(String),
    ExprNotInteger(String),
    DivByZero,
    TooDeep(usize),
}

/// The text of a runtime error.
pub open spec fn runtime_error_message(e: RuntimeError) -> Seq<char> {
    match e {
        RuntimeError::Read(e) => read_error_message(e),
        RuntimeError::UnknownStruct(n) => "schema has no struct named `"@ + n@ + "`"@,
        RuntimeError::UnknownType(n) => "schema has no type named `"@ + n@ + "` (not a struct, enum, or bitfield)"@,
        RuntimeError::UnknownLengthField(n) => "array length refers to field `"@ + n@ + "`, which was not seen before this point"@,
        RuntimeError::LengthNotInteger(n) => "array length field `"@ + n@ + "` is not a non-negative integer"@,
        RuntimeError::UnknownConditionField(n) => "condition refers to `"@ + n@ + "`, which was not seen before this point"@,
        RuntimeError::ConditionNotInteger(n) => "condition field `"@ + n@ + "` is not an integer/bool that can be tested"@,
        RuntimeError::UnknownMatchField(n) => "match discriminant `"@ + n@ + "` was not seen before this point"@,
        RuntimeError::MatchFieldNotMatchable(n) => "match discriminant `"@ + n@ + "` is not an integer or string that can be matched"@,
        RuntimeError::NoMatchingArm(n) => "no match arm for discriminant value "@ + n@ + " (and no `default`)"@,
        RuntimeError::RepeatOverrun(k) => "`repeat` exceeded the "@ + decimal(k as nat) + "-iteration cap (a sentinel that never matched?)"@,
        RuntimeError::ConditionTypeMismatch(n) => "`until` compares `"@ + n@ + "` against a value of a different kind (number vs. string)"@,
        RuntimeError::DecodeNotBytes(n) => "`decode` on field `"@ + n@ + "` requires a byte field (bytes[n] or bytes[*])"@,
        RuntimeError::VarintTooLong(k) => "varint at offset "@ + decimal(k as nat) + " runs past 10 bytes with its continuation bit still set (malformed LEB128?)"@,
        RuntimeError::Base64(n) => "base64 decode failed: "@ + n@,
        RuntimeError::Inflate(n, m) => n@ + " failed: "@ + m@,
        RuntimeError::ExprUnknownField(n) => "computed field refers to `"@ + n@ + "`, which was not seen before this point"@,
        RuntimeError::ExprNotInteger(n) => "computed field refers to `"@ + n@ + "`, which is not an integer"@,
        RuntimeError::DivByZero => "division by zero in a computed field"@,
        RuntimeError::TooDeep(k) => "schema nests deeper than the "@ + decimal(k as nat) + "-level limit (cyclic struct references?)"@,
    }
}

impl RuntimeError {
    /// The error's text, e.g. ``schema has no struct named `Foo` ``.
    pub fn message(&self) -> (s: String)
        ensures
            s@ == runtime_error_message(*self),
    {
        let mut s = String::new();
        match self {
            RuntimeError::Read(e) => {
                s = e.message();
            },
            RuntimeError::UnknownStruct(n) => {
                s.append("schema has no struct named `");
                s.append(n.as_str());
                s.append("`");
            },
            RuntimeError::UnknownType(n) => {
                s.append("schema has no type named `");
                s.append(n.as_str());
                s.append("` (not a struct, enum, or bitfield)");
            },
            RuntimeError::UnknownLengthField(n) => {
                s.append("array length refers to field `");
                s.append(n.as_str());
                s.append("`, which was not seen before this point");
            },
            RuntimeError::LengthNotInteger(n) => {
                s.append("array length field `");
                s.append(n.as_str());
                s.append("` is not a non-negative integer");
            },
            RuntimeError::UnknownConditionField(n) => {
                s.append("condition refers to `");
                s.append(n.as_str());
                s.append("`, which was not seen before this point");
            },
            RuntimeError::ConditionNotInteger(n) => {
                s.append("condition field `");
                s.append(n.as_str());
                s.append("` is not an integer/bool that can be tested");
            },
            RuntimeError::UnknownMatchField(n) => {
                s.append("match discriminant `");
                s.append(n.as_str());
                s.append("` was not seen before this point");
            },
            RuntimeError::MatchFieldNotMatchable(n) => {
                s.append("match discriminant `");
                s.append(n.as_str());
                s.append("` is not an integer or string that can be matched");
            },
            RuntimeError::NoMatchingArm(n) => {
                s.append("no match arm for discriminant value ");
                s.append(n.as_str());
                s.append(" (and no `default`)");
            },
            RuntimeError::RepeatOverrun(k) => {
                s.append("`repeat` exceeded the ");
                push_decimal(&mut s, *k as u64);
                s.append("-iteration cap (a sentinel that never matched?)");
            },
            RuntimeError::ConditionTypeMismatch(n) => {
                s.append("`until` compares `");
                s.append(n.as_str());
                s.append("` against a value of a different kind (number vs. string)");
            },
            RuntimeError::DecodeNotBytes(n) => {
                s.append("`decode` on field `");
                s.append(n.as_str());
                s.append("` requires a byte field (bytes[n] or bytes[*])");
            },
            RuntimeError::VarintTooLong(k) => {
                s.append("varint at offset ");
                push_decimal(&mut s, *k as u64);
                s.append(" runs past 10 bytes with its continuation bit still set (malformed LEB128?)");
            },
            RuntimeError::Base64(n) => {
                s.append("base64 decode failed: ");
                s.append(n.as_str());
            },
            RuntimeError::Inflate(n, m) => {
                s.append(n.as_str());
                s.append(" failed: ");
                s.append(m.as_str());
            },
            RuntimeError::ExprUnknownField(n) => {
                s.append("computed field refers to `");
                s.append(n.as_str());
                s.append("`, which was not seen before this point");
            },
            RuntimeError::ExprNotInteger(n) => {
                s.append("computed field refers to `");
                s.append(n.as_str());
                s.append("`, which is not an integer");
            },
            RuntimeError::DivByZero => {
                s.append("division by zero in a computed field");
            },
            RuntimeError::TooDeep(k) => {
                s.append("schema nests deeper than the ");
                push_decimal(&mut s, *k as u64);
                s.append("-level limit (cyclic struct references?)");
            },
        }
        assert(s@ =~= runtime_error_message(*self));
        s
    }
}

/// A value with its text taken by characters.
pub enum SpecValue {
    U(u64),
    I(i64),
    F32(u32),
    F64(u64),
    Bool(bool),
    Char(char),
    Str(Seq<char>),
    Bytes(Seq<u8>),
    Struct,
    Array,
    Enum(i64, Option<Seq<char>>),
    Bitfield,
}

/// A field node with its text taken by characters.
pub struct SpecNode {
    pub name: Seq<char>,
    pub type_label: Seq<char>,
    pub value: SpecValue,
    pub offset: usize,
    pub size: usize,
    pub description: Seq<char>,
    pub children: Seq<SpecNode>,
}

/// A runtime error with its text taken by characters.
pub enum SpecError {
    Read(ReadError),
    UnknownStruct(Seq<char>),
    UnknownType(Seq<char>),
    UnknownLengthField(Seq<char>),
    LengthNotInteger(Seq<char>),
    UnknownConditionField(Seq<char>),
    ConditionNotInteger(Seq<char>),
    UnknownMatchField(Seq<char>),
    MatchFieldNotMatchable(Seq<char>),
    NoMatchingArm(Seq<char>),
    RepeatOverrun(usize),
    ConditionTypeMismatch(Seq<char>),
    DecodeNotBytes(Seq<char>),
    VarintTooLong(usize),
    Base64(Seq<char>),
    Inflate(Seq<char>, Seq<char>),
    ExprUnknownField(Seq<char>),
    ExprNotInteger(Seq<char>),
    DivByZero,
    TooDeep(usize),
}

pub open spec fn value_view(v: Value) -> SpecValue {
    match v {
        Value::U(n) => SpecValue::U(n),
        Value::I(n) => SpecValue::I(n),
        Value::F32(b) => SpecValue::F32(b),
        Value::F64(b) => SpecValue::F64(b),
        Value::Bool(b) => SpecValue::Bool(b),
        Value::Char(c) => SpecValue::Char(c),
        Value::Str(s) => SpecValue::Str(s@),
        Value::Bytes(b) => SpecValue::Bytes(b@),
        Value::Struct => SpecValue::Struct,
        Value::Array => SpecValue::Array,
        Value::Enum(e) => SpecValue::Enum(
            e.value,
            match e.name {
                Some(n) => Some(n@),
                None => None,
            },
        ),
        Value::Bitfield => SpecValue::Bitfield,
    }
}

pub open spec fn node_view(n: FieldNode) -> SpecNode
    decreases n,
{
    SpecNode {
        name: n.name@,
        type_label: n.type_label@,
        value: value_view(n.value),
        offset: n.offset,
        size: n.size,
        description: n.description@,
        children: nodes_view(n.children@),
    }
}

pub open spec fn nodes_view(s: Seq<FieldNode>) -> Seq<SpecNode>
    decreases s,
{
    if s.len() == 0 {
        Seq::empty()
    } else {
        nodes_view(s.drop_last()).push(node_view(s.last()))
    }
}

pub open spec fn error_view(e: RuntimeError) -> SpecError {
    match e {
        RuntimeError::Read(r) => SpecError::Read(r),
        RuntimeError::UnknownStruct(s) => SpecError::UnknownStruct(s@),
        RuntimeError::UnknownType(s) => SpecError::UnknownType(s@),
        RuntimeError::UnknownLengthField(s) => SpecError::UnknownLengthField(s@),
        RuntimeError::LengthNotInteger(s) => SpecError::LengthNotInteger(s@),
        RuntimeError::UnknownConditionField(s) => SpecError::UnknownConditionField(s@),
        RuntimeError::ConditionNotInteger(s) => SpecError::ConditionNotInteger(s@),
        RuntimeError::UnknownMatchField(s) => SpecError::UnknownMatchField(s@),
        RuntimeError::MatchFieldNotMatchable(s) => SpecError::MatchFieldNotMatchable(s@),
        RuntimeError::NoMatchingArm(s) => SpecError::NoMatchingArm(s@),
        RuntimeError::RepeatOverrun(n) => SpecError::RepeatOverrun(n),
        RuntimeError::ConditionTypeMismatch(s) => SpecError::ConditionTypeMismatch(s@),
        RuntimeError::DecodeNotBytes(s) => SpecError::DecodeNotBytes(s@),
        RuntimeError::VarintTooLong(n) => SpecError::VarintTooLong(n),
        RuntimeError::Base64(s) => SpecError::Base64(s@),
        RuntimeError::Inflate(a, b) => SpecError::Inflate(a@, b@),
        RuntimeError::ExprUnknownField(s) => SpecError::ExprUnknownField(s@),
        RuntimeError::ExprNotInteger(s) => SpecError::ExprNotInteger(s@),
        RuntimeError::DivByZero => SpecError::DivByZero,
        RuntimeError::TooDeep(n) => SpecError::TooDeep(n),
    }
}

/// A node result taken by its view.
pub open spec fn result_view(r: Result<FieldNode, RuntimeError>) -> Result<SpecNode, SpecError> {
    match r {
        Ok(n) => Ok(node_view(n)),
        Err(e) => Err(error_view(e)),
    }
}


/// Whether a schema can be executed without arithmetic faults: every bitfield
/// member is a bit range `lo..=hi` inside a 64-bit value.
pub open spec fn schema_wf(sch: Schema) -> bool {
    forall|i: int| 0 <= i < sch.bitfields@.len() ==> #[trigger] bitfield_wf(sch.bitfields@[i])
}

/// Every member of a bitfield is a bit range `lo..=hi` inside a 64-bit value.
pub open spec fn bitfield_wf(d: BitfieldDef) -> bool {
    forall|j: int| 0 <= j < d.members@.len() ==> #[trigger] d.members@[j].lo <= d.members@[j].hi < 64
}

/// A childless node.
pub open spec fn spec_scalar(name: Seq<char>, type_label: Seq<char>, value: SpecValue, offset: usize, size: usize) -> SpecNode {
    SpecNode { name, type_label, value, offset, size, description: Seq::empty(), children: Seq::empty() }
}

/// The keyword naming a primitive.
pub open spec fn spec_prim_name(p: Prim) -> Seq<char> {
    match p {
        Prim::U8 => "u8"@,
        Prim::U16 => "u16"@,
        Prim::U32 => "u32"@,
        Prim::U64 => "u64"@,
        Prim::I8 => "i8"@,
        Prim::I16 => "i16"@,
        Prim::I32 => "i32"@,
        Prim::I64 => "i64"@,
        Prim::F32 => "f32"@,
        Prim::F64 => "f64"@,
        Prim::Bool => "bool"@,
    }
}

/// Type keywords and primitives name each other: the keyword of every
/// primitive reads back as that primitive, and a keyword that names a
/// primitive is that primitive's keyword. The integer primitives are exactly
/// those whose keyword starts with `u` or `i`.
pub proof fn law_prim_keywords_round_trip(p: Prim, w: Seq<char>)
    ensures
        prim_of_keyword(spec_prim_name(p)) == Some(p),
        prim_of_keyword(w) matches Some(q) ==> spec_prim_name(q) == w,
        prim_is_integer(p) <==> (spec_prim_name(p)[0] == 'u' || spec_prim_name(p)[0] == 'i'),
{
    reveal_strlit("u8");
    reveal_strlit("u16");
    reveal_strlit("u32");
    reveal_strlit("u64");
    reveal_strlit("i8");
    reveal_strlit("i16");
    reveal_strlit("i32");
    reveal_strlit("i64");
    reveal_strlit("f32");
    reveal_strlit("f64");
    reveal_strlit("bool");
    let ks = seq!["u8"@, "u16"@, "u32"@, "u64"@, "i8"@, "i16"@, "i32"@, "i64"@, "f32"@, "f64"@, "bool"@];
    assert forall|a: int, b: int| 0 <= a < b < ks.len() implies ks[a] != ks[b] by {
        assert(ks[a][0] != ks[b][0] || ks[a].len() != ks[b].len() || ks[a][1] != ks[b][1]);
    }
    assert(ks[0] == "u8"@ && ks[1] == "u16"@ && ks[2] == "u32"@ && ks[3] == "u64"@);
    assert(ks[4] == "i8"@ && ks[5] == "i16"@ && ks[6] == "i32"@ && ks[7] == "i64"@);
    assert(ks[8] == "f32"@ && ks[9] == "f64"@ && ks[10] == "bool"@);
}

/// How a length is written inside brackets.
pub open spec fn spec_len_display(len: Len) -> Seq<char> {
    match len {
        Len::Fixed(n) => decimal(n as nat),
        Len::Field(f) => f@,
        Len::Rest => "*"@,
    }
}

/// How a type is displayed, e.g. `char[4]` or `Player[count]`.
pub open spec fn spec_type_display(ty: TypeExpr) -> Seq<char>
    decreases ty,
{
    match ty {
        TypeExpr::Prim(p) => spec_prim_name(p),
        TypeExpr::Varint { signed } => if signed {
            "svarint"@
        } else {
            "varint"@
        },
        TypeExpr::Char => "char"@,
        TypeExpr::Str(len) => "string["@ + spec_len_display(len) + "]"@,
        TypeExpr::CStr => "cstring"@,
        TypeExpr::Bytes(len) => "bytes["@ + spec_len_display(len) + "]"@,
        TypeExpr::Named(n) => n@,
        TypeExpr::Array { elem, len } => spec_type_display(*elem) + "["@ + spec_len_display(len) + "]"@,
        TypeExpr::Match { discriminant, .. } => "match "@ + join(strings_view(discriminant@), "."@),
        TypeExpr::Repeat { elem, .. } => "repeat "@ + spec_type_display(*elem),
        TypeExpr::Computed(_) => "computed"@,
    }
}

/// The integer a value stands for as a length (non-negative only).
pub open spec fn spec_as_u64(v: SpecValue) -> Option<u64> {
    match v {
        SpecValue::U(n) => Some(n),
        SpecValue::I(n) => if n >= 0 { Some(n as u64) } else { None },
        SpecValue::Enum(n, _) => if n >= 0 { Some(n as u64) } else { None },
        _ => None,
    }
}

/// The integer a value stands for in a test (bools as 0/1, enums by value).
pub open spec fn spec_as_i64(v: SpecValue) -> Option<i64> {
    match v {
        SpecValue::U(n) => Some(n as i64),
        SpecValue::I(n) => Some(n),
        SpecValue::Bool(b) => Some(if b { 1i64 } else { 0i64 }),
        SpecValue::Enum(n, _) => Some(n),
        _ => None,
    }
}

/// The text a value stands for.
pub open spec fn spec_as_str(v: SpecValue) -> Option<Seq<char>> {
    match v {
        SpecValue::Str(s) => Some(s),
        _ => None,
    }
}

/// The first node of `nodes` named `name`.
pub open spec fn find_node(nodes: Seq<SpecNode>, name: Seq<char>) -> Option<SpecNode>
    decreases nodes.len(),
{
    if nodes.len() == 0 {
        None
    } else if nodes[0].name == name {
        Some(nodes[0])
    } else {
        find_node(nodes.drop_first(), name)
    }
}

/// Follow a dotted path from `nodes` down through children.
pub open spec fn spec_resolve_path(path: Seq<Seq<char>>, nodes: Seq<SpecNode>) -> Option<SpecNode>
    decreases path.len(),
{
    if path.len() == 0 {
        None
    } else if path.len() == 1 {
        find_node(nodes, path[0])
    } else {
        match spec_resolve_path(path.drop_last(), nodes) {
            Some(n) => find_node(n.children, path.last()),
            None => None,
        }
    }
}

/// Whether the ordering of `lhs` against `rhs` satisfies `op`, given `lt`
/// (lhs < rhs), `gt` (lhs > rhs) and `eq` (lhs == rhs).
pub open spec fn spec_holds(op: CompareOp, lt: bool, eq: bool, gt: bool) -> bool {
    match op {
        CompareOp::Eq => eq,
        CompareOp::Ne => !eq,
        CompareOp::Lt => lt,
        CompareOp::Le => !gt,
        CompareOp::Gt => gt,
        CompareOp::Ge => !lt,
    }
}

/// Evaluate a condition against the nodes decoded so far.
pub open spec fn spec_eval_condition(cond: Condition, sib: Seq<SpecNode>) -> Result<bool, SpecError> {
    let key = join(strings_view(cond.path@), "."@);
    match spec_resolve_path(strings_view(cond.path@), sib) {
        None => Err(SpecError::UnknownConditionField(key)),
        Some(node) => match cond.compare {
            None => match spec_as_i64(node.value) {
                Some(l) => Ok(l != 0),
                None => Err(SpecError::ConditionNotInteger(key)),
            },
            Some(c) => match c.value {
                CompareValue::Int(r) => match spec_as_i64(node.value) {
                    Some(l) => Ok(spec_holds(c.op, l < r, l == r, l > r)),
                    None => Err(SpecError::ConditionTypeMismatch(key)),
                },
                CompareValue::Str(r) => match spec_as_str(node.value) {
                    Some(l) => Ok(spec_holds(c.op, seq_lt(l, r@), l == r@, seq_lt(r@, l))),
                    None => Err(SpecError::ConditionTypeMismatch(key)),
                },
            },
        },
    }
}

/// A conditional field's comparison against an integer literal holds exactly
/// as its operator reads on the field's integer value `l` and the literal `r`:
/// `l == r`, `l != r`, `l < r`, `l <= r`, `l > r` or `l >= r`.
pub proof fn law_integer_conditions_compare(cond: Condition, sib: Seq<SpecNode>, l: i64)
    requires
        spec_resolve_path(strings_view(cond.path@), sib) matches Some(node) && spec_as_i64(node.value) == Some(l),
    ensures
        match cond.compare {
            None => spec_eval_condition(cond, sib) == Ok::<bool, SpecError>(l != 0),
            Some(c) => match c.value {
                CompareValue::Int(r) => spec_eval_condition(cond, sib) == Ok::<bool, SpecError>(
                    match c.op {
                        CompareOp::Eq => l == r,
                        CompareOp::Ne => l != r,
                        CompareOp::Lt => l < r,
                        CompareOp::Le => l <= r,
                        CompareOp::Gt => l > r,
                        CompareOp::Ge => l >= r,
                    },
                ),
                CompareValue::Str(_) => true,
            },
        },
{
    if let Some(c) = cond.compare {
        if let CompareValue::Int(r) = c.value {
            assert(spec_eval_condition(cond, sib) == Ok::<bool, SpecError>(spec_holds(c.op, l < r, l == r, l > r)));
        }
    }
}

/// Evaluate a computed field's expression (wrapping arithmetic).
pub open spec fn spec_eval_expr(expr: Expr, sib: Seq<SpecNode>) -> Result<i64, SpecError>
    decreases expr,
{
    match expr {
        Expr::Int(n) => Ok(n),
        Expr::Field(path) => {
            let key = join(strings_view(path@), "."@);
            match spec_resolve_path(strings_view(path@), sib) {
                None => Err(SpecError::ExprUnknownField(key)),
                Some(node) => match spec_as_i64(node.value) {
                    Some(v) => Ok(v),
                    None => Err(SpecError::ExprNotInteger(key)),
                },
            }
        },
        Expr::Binary { op, lhs, rhs } => match spec_eval_expr(*lhs, sib) {
            Err(e) => Err(e),
            Ok(l) => match spec_eval_expr(*rhs, sib) {
                Err(e) => Err(e),
                Ok(r) => match op {
                    BinOp::Add => Ok(l.wrapping_add(r)),
                    BinOp::Sub => Ok(l.wrapping_sub(r)),
                    BinOp::Mul => Ok(l.wrapping_mul(r)),
                    BinOp::Div => if r == 0 {
                        Err(SpecError::DivByZero)
                    } else {
                        Ok(
                            match l.checked_div(r) {
                                Some(q) => q,
                                None => l,
                            },
                        )
                    },
                    BinOp::Rem => if r == 0 {
                        Err(SpecError::DivByZero)
                    } else {
                        Ok(
                            match l.checked_rem(r) {
                                Some(q) => q,
                                None => 0,
                            },
                        )
                    },
                },
            },
        },
    }
}

/// Resolve a length to a byte/element count; `at` is where the length is
/// measured from and `total` the data length (for `[*]`).
pub open spec fn spec_resolve_len(len: Len, sib: Seq<SpecNode>, at: usize, total: usize) -> Result<usize, SpecError> {
    match len {
        Len::Fixed(n) => Ok(n as usize),
        Len::Field(f) => match find_node(sib, f@) {
            None => Err(SpecError::UnknownLengthField(f@)),
            Some(node) => match spec_as_u64(node.value) {
                Some(n) => Ok(n as usize),
                None => Err(SpecError::LengthNotInteger(f@)),
            },
        },
        Len::Rest => Ok(total.saturating_sub(at)),
    }
}

/// The index of the first NUL in `s`.
pub open spec fn first_nul(s: Seq<u8>) -> Option<nat>
    decreases s.len(),
{
    if s.len() == 0 {
        None
    } else if s[0] == 0 {
        Some(0)
    } else {
        match first_nul(s.drop_first()) {
            Some(i) => Some(i + 1),
            None => None,
        }
    }
}

/// The bytes `data[offset..offset+n]`, or the out-of-bounds error.
pub open spec fn spec_bytes_at(data: Seq<u8>, offset: usize, n: usize) -> Result<Seq<u8>, SpecError> {
    if offset + n > data.len() {
        Err(SpecError::Read(ReadError::OutOfBounds { offset, requested: n, len: data.len() as usize }))
    } else {
        Ok(data.subrange(offset as int, offset + n))
    }
}

/// `n` bytes at `offset` as text: the bytes before the first NUL, decoded as
/// UTF-8 (invalid sequences replaced).
pub open spec fn spec_read_string(data: Seq<u8>, offset: usize, n: usize) -> Result<Seq<char>, SpecError> {
    match spec_bytes_at(data, offset, n) {
        Err(e) => Err(e),
        Ok(b) => match first_nul(b) {
            Some(i) => Ok(lossy_text(b.subrange(0, i as int))),
            None => Ok(lossy_text(b)),
        },
    }
}

/// A NUL-terminated string at `offset` (scanning at most `CSTRING_CAP` bytes)
/// and the bytes it spans, terminator included.
pub open spec fn spec_read_cstring(data: Seq<u8>, offset: usize) -> Result<(Seq<char>, usize), SpecError> {
    let remaining = (data.len() as usize).saturating_sub(offset);
    let scan = if remaining < CSTRING_CAP { remaining } else { CSTRING_CAP };
    match spec_bytes_at(data, offset, scan) {
        Err(e) => Err(e),
        Ok(b) => match first_nul(b) {
            Some(i) => Ok((lossy_text(b.subrange(0, i as int)), (i + 1) as usize)),
            None => Ok((lossy_text(b), scan)),
        },
    }
}

/// Read a primitive at `offset`.
pub open spec fn spec_read_prim(data: Seq<u8>, endian: Endian, p: Prim, offset: usize) -> Result<SpecValue, SpecError> {
    let e = match p {
        Prim::U8 | Prim::I8 | Prim::Bool => Endian::Little,
        _ => endian,
    };
    match uint_at(data, offset, prim_size(p) as usize, e) {
        Err(r) => Err(SpecError::Read(r)),
        Ok(v) => Ok(
            match p {
                Prim::U8 | Prim::U16 | Prim::U32 | Prim::U64 => SpecValue::U(v as u64),
                Prim::I8 => SpecValue::I(v as u8 as i8 as i64),
                Prim::I16 => SpecValue::I(v as u16 as i16 as i64),
                Prim::I32 => SpecValue::I(v as u32 as i32 as i64),
                Prim::I64 => SpecValue::I(v as u64 as i64),
                Prim::F32 => SpecValue::F32(v as u32),
                Prim::F64 => SpecValue::F64(v as u64),
                Prim::Bool => SpecValue::Bool(v != 0),
            },
        ),
    }
}

/// LEB128 decoding from byte `consumed` of the varint at `offset`, with
/// `result` accumulated from `shift` payload bits. At most 10 bytes are read.
pub open spec fn spec_varint_from(data: Seq<u8>, signed: bool, offset: usize, consumed: usize, result: u64, shift: u32) -> Result<(SpecValue, usize), SpecError>
    decreases 10 - consumed,
{
    if consumed >= 10 {
        Err(SpecError::VarintTooLong(offset))
    } else if offset + consumed >= data.len() {
        Err(SpecError::Read(ReadError::OutOfBounds { offset: (offset + consumed) as usize, requested: 1, len: data.len() as usize }))
    } else {
        let byte = data[offset + consumed];
        let r2 = result | (((byte & 0x7f) as u64) << shift);
        let s2 = (shift + 7) as u32;
        if byte & 0x80 == 0 {
            let value = if signed {
                let v = r2 as i64;
                if s2 < 64 && (byte & 0x40) != 0 {
                    SpecValue::I(v | (-1i64 << s2))
                } else {
                    SpecValue::I(v)
                }
            } else {
                SpecValue::U(r2)
            };
            Ok((value, (consumed + 1) as usize))
        } else {
            spec_varint_from(data, signed, offset, (consumed + 1) as usize, r2, s2)
        }
    }
}

/// The node of one bitfield member of the integer `raw` read at `offset`.
pub open spec fn spec_member_node(m: BitMember, raw: u64, offset: usize, size: usize) -> SpecNode {
    let width = (m.hi - m.lo + 1) as u8;
    let mask: u64 = if width >= 64 { u64::MAX } else { ((1u64 << (width as u64)) - 1) as u64 };
    let bits = (raw >> m.lo) & mask;
    if width == 1 {
        spec_scalar(m.name@, "bit "@ + decimal(m.lo as nat), SpecValue::Bool(bits != 0), offset, size)
    } else {
        spec_scalar(m.name@, "bits "@ + decimal(m.lo as nat) + ".."@ + decimal(m.hi as nat), SpecValue::U(bits), offset, size)
    }
}

/// Decode a bitfield at `offset`: its integer, then each member from its bits.
pub open spec fn spec_parse_bitfield(data: Seq<u8>, endian: Endian, name: Seq<char>, def: BitfieldDef, offset: usize) -> Result<SpecNode, SpecError> {
    let size = prim_size(def.repr) as usize;
    match uint_at(data, offset, size, if size == 1 { Endian::Little } else { endian }) {
        Err(r) => Err(SpecError::Read(r)),
        Ok(raw) => Ok(SpecNode {
            name,
            type_label: def.name@,
            value: SpecValue::Bitfield,
            offset,
            size,
            description: Seq::empty(),
            children: Seq::new(def.members@.len(), |i: int| spec_member_node(def.members@[i], raw as u64, offset, size)),
        }),
    }
}

/// Decode an enum at `offset`: its integer and the matching variant name.
pub open spec fn spec_parse_enum(data: Seq<u8>, endian: Endian, name: Seq<char>, def: EnumDef, offset: usize) -> Result<SpecNode, SpecError> {
    match spec_read_prim(data, endian, def.repr, offset) {
        Err(e) => Err(e),
        Ok(raw) => {
            let value: i64 = match raw {
                SpecValue::U(n) => n as i64,
                SpecValue::I(n) => n,
                _ => 0,
            };
            let matched = match find_variant(def.variants@, value) {
                Some(v) => Some(v.name@),
                None => None,
            };
            Ok(spec_scalar(name, def.name@, SpecValue::Enum(value, matched), offset, prim_size(def.repr) as usize))
        },
    }
}

/// The type of the first arm keyed on the string `s`.
pub open spec fn find_arm_str(arms: Seq<MatchArm>, s: Seq<char>) -> Option<TypeExpr>
    decreases arms.len(),
{
    if arms.len() == 0 {
        None
    } else if arms[0].key matches MatchKey::Str(k) && k@ == s {
        Some(arms[0].ty)
    } else {
        find_arm_str(arms.drop_first(), s)
    }
}

/// The type of the first arm keyed on the integer `n`.
pub open spec fn find_arm_int(arms: Seq<MatchArm>, n: i64) -> Option<TypeExpr>
    decreases arms.len(),
{
    if arms.len() == 0 {
        None
    } else if arms[0].key matches MatchKey::Int(k) && k == n {
        Some(arms[0].ty)
    } else {
        find_arm_int(arms.drop_first(), n)
    }
}

/// The type a `match` takes for a discriminant value: a text value picks the
/// first arm keyed by that text, an integer-like value the first arm keyed by
/// its integer, falling back to the `default` arm (`Some(None)`: no arm
/// applies); `None` when the value is neither text nor integer-like.
pub open spec fn match_choice(arms: Seq<MatchArm>, default: Option<Box<TypeExpr>>, v: SpecValue) -> Option<Option<TypeExpr>> {
    let arm = match spec_as_str(v) {
        Some(s) => Some(find_arm_str(arms, s)),
        None => match spec_as_i64(v) {
            Some(n) => Some(find_arm_int(arms, n)),
            None => None,
        },
    };
    match arm {
        None => None,
        Some(Some(t)) => Some(Some(t)),
        Some(None) => match default {
            Some(t) => Some(Some(*t)),
            None => Some(None),
        },
    }
}

/// A `match` field reads the sibling its discriminant names and parses as the
/// type [`match_choice`] picks for that value, one level deeper. A missing
/// discriminant, a value that is neither text nor integer-like, or no arm
/// that applies (and no default) is an error.
pub proof fn law_match_dispatch(
    sch: Schema,
    data: Seq<u8>,
    endian: Endian,
    name: Seq<char>,
    ty: TypeExpr,
    offset: usize,
    sib: Seq<SpecNode>,
    depth: nat,
)
    requires
        depth < MAX_DEPTH,
    ensures
        match ty {
            TypeExpr::Match { discriminant, arms, default } => {
                let r = spec_parse_type(sch, data, endian, name, ty, offset, sib, depth);
                let key = join(strings_view(discriminant@), "."@);
                match spec_resolve_path(strings_view(discriminant@), sib) {
                    None => r == Err::<SpecNode, SpecError>(SpecError::UnknownMatchField(key)),
                    Some(d) => match match_choice(arms@, default, d.value) {
                        None => r == Err::<SpecNode, SpecError>(SpecError::MatchFieldNotMatchable(key)),
                        Some(None) => r matches Err(SpecError::NoMatchingArm(_)),
                        Some(Some(t)) => r == spec_parse_type(sch, data, endian, name, t, offset, sib, depth + 1),
                    },
                }
            },
            _ => true,
        },
{
}

/// The pointer target of a field read at `struct_start` with raw offset `raw`.
pub open spec fn pointer_target(relative: bool, struct_start: usize, raw: usize) -> usize {
    if relative {
        struct_start.saturating_add(raw)
    } else {
        raw
    }
}

/// The node of a field of struct type `struct_name` at `offset`.
pub open spec fn spec_parse_struct_field(sch: Schema, data: Seq<u8>, endian: Endian, field_name: Seq<char>, struct_name: Seq<char>, offset: usize, depth: nat) -> Result<SpecNode, SpecError>
    decreases MAX_DEPTH - depth, 2nat, 0nat,
{
    if depth >= MAX_DEPTH {
        Err(SpecError::TooDeep(MAX_DEPTH))
    } else {
        match find_struct(sch.structs@, struct_name) {
            None => Err(SpecError::UnknownStruct(struct_name)),
            Some(def) => match spec_fields(sch, data, endian, def.fields@, 0, offset, offset, Seq::empty(), depth) {
                Err(e) => Err(e),
                Ok((children, cursor)) => Ok(SpecNode {
                    name: field_name,
                    type_label: struct_name,
                    value: SpecValue::Struct,
                    offset,
                    size: (cursor - offset) as usize,
                    description: Seq::empty(),
                    children,
                }),
            },
        }
    }
}

/// Decode the fields of a struct from field `i` on: `start` is the struct's
/// offset, `cursor` the sequential position, `children` the nodes so far.
/// Gives the children and the final cursor.
pub open spec fn spec_fields(sch: Schema, data: Seq<u8>, endian: Endian, fields: Seq<Field>, i: nat, start: usize, cursor: usize, children: Seq<SpecNode>, depth: nat) -> Result<(Seq<SpecNode>, usize), SpecError>
    decreases MAX_DEPTH - depth, 1nat, fields.len() - i,
{
    if depth >= MAX_DEPTH {
        Err(SpecError::TooDeep(MAX_DEPTH))
    } else if i >= fields.len() {
        Ok((children, cursor))
    } else {
        let field = fields[i as int];
        let present = match field.condition {
            Some(c) => spec_eval_condition(c, children),
            None => Ok(true),
        };
        match present {
            Err(e) => Err(e),
            Ok(false) => spec_fields(sch, data, endian, fields, i + 1, start, cursor, children, depth),
            Ok(true) => {
                let read = match field.pointer {
                    Some(ptr) => match spec_resolve_len(ptr.offset, children, start, data.len() as usize) {
                        Err(e) => Err(e),
                        Ok(raw) => match spec_parse_type(sch, data, endian, field.name@, field.ty, pointer_target(ptr.relative, start, raw), children, depth + 1) {
                            Err(e) => Err(e),
                            Ok(n) => Ok((n, cursor)),
                        },
                    },
                    None => match spec_parse_type(sch, data, endian, field.name@, field.ty, cursor, children, depth + 1) {
                        Err(e) => Err(e),
                        Ok(n) => Ok((n, (cursor + n.size) as usize)),
                    },
                };
                match read {
                    Err(e) => Err(e),
                    Ok((node, next)) => {
                        let decoded = match field.decode {
                            Some(dec) => spec_decode_field(sch, endian, node, dec, depth),
                            None => Ok(node),
                        };
                        match decoded {
                            Err(e) => Err(e),
                            Ok(n) => {
                                let described = SpecNode {
                                    description: match field.desc {
                                        Some(d) => d@,
                                        None => Seq::empty(),
                                    },
                                    ..n
                                };
                                spec_fields(sch, data, endian, fields, i + 1, start, next, children.push(described), depth)
                            },
                        }
                    },
                }
            },
        }
    }
}

/// Apply a `decode` transform to a just-read byte field: the node keeps its
/// offset and size; its value (and, with `as <Type>`, its children) become
/// the decoded result, parsed from offset 0 of the decoded bytes.
pub open spec fn spec_decode_field(sch: Schema, endian: Endian, node: SpecNode, dec: Decode, depth: nat) -> Result<SpecNode, SpecError>
    decreases MAX_DEPTH - depth, 0nat, 0nat,
{
    if depth >= MAX_DEPTH {
        Err(SpecError::TooDeep(MAX_DEPTH))
    } else {
        match node.value {
            SpecValue::Bytes(raw) => match spec_apply_transform(dec.transform, raw) {
                Err(e) => Err(e),
                Ok(decoded) => {
                    let tname = spec_transform_name(dec.transform);
                    match dec.as_type {
                        Some(t) => match spec_parse_type(sch, decoded, endian, node.name, *t, 0, Seq::empty(), depth + 1) {
                            Err(e) => Err(e),
                            Ok(p) => Ok(SpecNode {
                                type_label: "decode "@ + tname + " as "@ + spec_type_display(*t),
                                value: p.value,
                                children: p.children,
                                ..node
                            }),
                        },
                        None => Ok(SpecNode {
                            type_label: "decode "@ + tname,
                            value: SpecValue::Bytes(decoded),
                            children: Seq::empty(),
                            ..node
                        }),
                    }
                },
            },
            _ => Err(SpecError::DecodeNotBytes(node.name)),
        }
    }
}

/// Decode array elements `i..n` of type `elem` from `cursor`.
pub open spec fn spec_array(sch: Schema, data: Seq<u8>, endian: Endian, elem: TypeExpr, n: usize, i: usize, cursor: usize, children: Seq<SpecNode>, depth: nat) -> Result<(Seq<SpecNode>, usize), SpecError>
    decreases MAX_DEPTH - depth, 1nat, n - i,
{
    if depth >= MAX_DEPTH {
        Err(SpecError::TooDeep(MAX_DEPTH))
    } else if i >= n {
        Ok((children, cursor))
    } else {
        match spec_parse_type(sch, data, endian, decimal(i as nat), elem, cursor, Seq::empty(), depth + 1) {
            Err(e) => Err(e),
            Ok(node) => spec_array(sch, data, endian, elem, n, (i + 1) as usize, (cursor + node.size) as usize, children.push(node), depth),
        }
    }
}

/// Decode `repeat` elements from `cursor` until the end of the data, the
/// `until` condition holding on an element just read (that element included),
/// or (with no `until`) a zero-width element.
pub open spec fn spec_repeat(sch: Schema, data: Seq<u8>, endian: Endian, elem: TypeExpr, until: Option<Condition>, cursor: usize, children: Seq<SpecNode>, depth: nat) -> Result<(Seq<SpecNode>, usize), SpecError>
    decreases MAX_DEPTH - depth, 1nat, MAX_ITERS - children.len(),
{
    if depth >= MAX_DEPTH {
        Err(SpecError::TooDeep(MAX_DEPTH))
    } else if cursor >= data.len() {
        Ok((children, cursor))
    } else if children.len() >= MAX_ITERS {
        Err(SpecError::RepeatOverrun(MAX_ITERS))
    } else {
        match spec_parse_type(sch, data, endian, decimal(children.len()), elem, cursor, Seq::empty(), depth + 1) {
            Err(e) => Err(e),
            Ok(node) => {
                let next = (cursor + node.size) as usize;
                let stop = match until {
                    Some(c) => spec_eval_condition(c, node.children),
                    None => Ok(node.size == 0),
                };
                match stop {
                    Err(e) => Err(e),
                    Ok(true) => Ok((children.push(node), next)),
                    Ok(false) => spec_repeat(sch, data, endian, elem, until, next, children.push(node), depth),
                }
            },
        }
    }
}

/// The node for one field of type `ty` at `offset`, `sib` being the nodes
/// already decoded in the enclosing struct.
pub open spec fn spec_parse_type(sch: Schema, data: Seq<u8>, endian: Endian, name: Seq<char>, ty: TypeExpr, offset: usize, sib: Seq<SpecNode>, depth: nat) -> Result<SpecNode, SpecError>
    decreases MAX_DEPTH - depth, 3nat, 0nat,
{
    if depth >= MAX_DEPTH {
        Err(SpecError::TooDeep(MAX_DEPTH))
    } else {
        match ty {
            TypeExpr::Prim(p) => match spec_read_prim(data, endian, p, offset) {
                Err(e) => Err(e),
                Ok(v) => Ok(spec_scalar(name, spec_prim_name(p), v, offset, prim_size(p) as usize)),
            },
            TypeExpr::Varint { signed } => match spec_varint_from(data, signed, offset, 0, 0, 0) {
                Err(e) => Err(e),
                Ok((v, size)) => Ok(spec_scalar(name, if signed { "svarint"@ } else { "varint"@ }, v, offset, size)),
            },
            TypeExpr::Char => match spec_bytes_at(data, offset, 1) {
                Err(e) => Err(e),
                Ok(b) => Ok(spec_scalar(name, "char"@, SpecValue::Char(b[0] as char), offset, 1)),
            },
            TypeExpr::Str(len) => match spec_resolve_len(len, sib, offset, data.len() as usize) {
                Err(e) => Err(e),
                Ok(n) => match spec_read_string(data, offset, n) {
                    Err(e) => Err(e),
                    Ok(s) => Ok(spec_scalar(name, spec_type_display(ty), SpecValue::Str(s), offset, n)),
                },
            },
            TypeExpr::CStr => match spec_read_cstring(data, offset) {
                Err(e) => Err(e),
                Ok((s, size)) => Ok(spec_scalar(name, "cstring"@, SpecValue::Str(s), offset, size)),
            },
            TypeExpr::Bytes(len) => match spec_resolve_len(len, sib, offset, data.len() as usize) {
                Err(e) => Err(e),
                Ok(n) => match spec_bytes_at(data, offset, n) {
                    Err(e) => Err(e),
                    Ok(b) => Ok(spec_scalar(name, spec_type_display(ty), SpecValue::Bytes(b), offset, n)),
                },
            },
            TypeExpr::Named(tn) => if find_struct(sch.structs@, tn@) is Some {
                spec_parse_struct_field(sch, data, endian, name, tn@, offset, depth)
            } else {
                match find_enum(sch.enums@, tn@) {
                    Some(def) => spec_parse_enum(data, endian, name, def, offset),
                    None => match find_bitfield(sch.bitfields@, tn@) {
                        Some(def) => spec_parse_bitfield(data, endian, name, def, offset),
                        None => Err(SpecError::UnknownType(tn@)),
                    },
                }
            },
            TypeExpr::Array { elem, len } => match spec_resolve_len(len, sib, offset, data.len() as usize) {
                Err(e) => Err(e),
                Ok(n) => if *elem is Char {
                    match spec_read_string(data, offset, n) {
                        Err(e) => Err(e),
                        Ok(s) => Ok(spec_scalar(name, spec_type_display(ty), SpecValue::Str(s), offset, n)),
                    }
                } else {
                    match spec_array(sch, data, endian, *elem, n, 0, offset, Seq::empty(), depth) {
                        Err(e) => Err(e),
                        Ok((children, cursor)) => Ok(SpecNode {
                            name,
                            type_label: spec_type_display(ty),
                            value: SpecValue::Array,
                            offset,
                            size: (cursor - offset) as usize,
                            description: Seq::empty(),
                            children,
                        }),
                    }
                },
            },
            TypeExpr::Match { discriminant, arms, default } => {
                let key = join(strings_view(discriminant@), "."@);
                match spec_resolve_path(strings_view(discriminant@), sib) {
                    None => Err(SpecError::UnknownMatchField(key)),
                    Some(d) => {
                        let chosen: Result<(Option<TypeExpr>, Seq<char>), SpecError> =
                            match spec_as_str(d.value) {
                                Some(s) => Ok((find_arm_str(arms@, s), s)),
                                None => match spec_as_i64(d.value) {
                                    Some(v) => Ok((find_arm_int(arms@, v), signed_decimal(v as int))),
                                    None => Err(SpecError::MatchFieldNotMatchable(key)),
                                },
                            };
                        match chosen {
                            Err(e) => Err(e),
                            Ok((arm, shown)) => {
                                let pick = match arm {
                                    Some(t) => Some(t),
                                    None => match default {
                                        Some(t) => Some(*t),
                                        None => None,
                                    },
                                };
                                match pick {
                                    Some(t) => spec_parse_type(sch, data, endian, name, t, offset, sib, depth + 1),
                                    None => Err(SpecError::NoMatchingArm(shown)),
                                }
                            },
                        }
                    },
                }
            },
            TypeExpr::Repeat { elem, until } => match spec_repeat(sch, data, endian, *elem, until, offset, Seq::empty(), depth) {
                Err(e) => Err(e),
                Ok((children, cursor)) => Ok(SpecNode {
                    name,
                    type_label: spec_type_display(ty),
                    value: SpecValue::Array,
                    offset,
                    size: (cursor - offset) as usize,
                    description: Seq::empty(),
                    children,
                }),
            },
            TypeExpr::Computed(expr) => match spec_eval_expr(*expr, sib) {
                Err(e) => Err(e),
                Ok(v) => Ok(spec_scalar(name, "computed"@, if v >= 0 { SpecValue::U(v as u64) } else { SpecValue::I(v) }, offset, 0)),
            },
        }
    }
}


/// A node result taken by its view, with every node lying within the data.
pub open spec fn node_in_data(n: SpecNode, offset: usize, len: nat) -> bool {
    n.offset == offset && (n.size == 0 || n.offset + n.size <= len)
}

/// A field reads its own bytes: a `decode`, if it has one, names no type to
/// parse the decoded bytes as.
pub open spec fn plain_decode(f: Field) -> bool {
    match f.decode {
        Some(d) => d.as_type is None,
        None => true,
    }
}

/// No field of the schema parses decoded bytes as a type (whose nodes would
/// then lie in the decoded bytes rather than in the data).
pub open spec fn no_decode_as(sch: Schema) -> bool {
    forall|k: int, j: int|
        0 <= k < sch.structs@.len() && 0 <= j < sch.structs@[k].fields@.len() ==> plain_decode(
            #[trigger] sch.structs@[k].fields@[j],
        )
}

/// Every node of the tree lies within the first `len` bytes (a node of size
/// zero only records a position).
pub open spec fn tree_within(n: SpecNode, len: nat) -> bool
    decreases n,
{
    &&& (n.size == 0 || n.offset + n.size <= len)
    &&& forall|i: int| 0 <= i < n.children.len() ==> tree_within(#[trigger] n.children[i], len)
}

/// The nodes of `s` lie within the first `len` bytes, with all they hold.
pub open spec fn all_within(s: Seq<FieldNode>, len: nat) -> bool {
    forall|q: int| 0 <= q < s.len() ==> tree_within(node_view(#[trigger] s[q]), len)
}

/// A node that differs from one lying within the data only in its name,
/// label, value or description lies within it too.
proof fn lemma_within_same_span(a: SpecNode, b: SpecNode, len: nat)
    requires
        tree_within(a, len),
        b.offset == a.offset,
        b.size == a.size,
        b.children == a.children,
    ensures
        tree_within(b, len),
{
}

/// A struct found by name is one of the schema's structs.
proof fn lemma_find_struct_in(s: Seq<StructDef>, name: Seq<char>)
    ensures
        find_struct(s, name) matches Some(d) ==> exists|k: int| 0 <= k < s.len() && s[k] == d,
    decreases s.len(),
{
    if s.len() > 0 && s[0].name@ != name {
        lemma_find_struct_in(s.drop_first(), name);
        if find_struct(s, name) is Some {
            let d = find_struct(s, name)->0;
            let k = choose|k: int| 0 <= k < s.drop_first().len() && s.drop_first()[k] == d;
            assert(s[k + 1] == d);
        }
    } else if s.len() > 0 {
        assert(s[0] == find_struct(s, name)->0);
    }
}

/// A node whose own bytes lie within the data and whose children all do.
proof fn lemma_node_within(n: FieldNode, len: nat)
    requires
        n.size == 0 || n.offset + n.size <= len,
        all_within(n.children@, len),
    ensures
        tree_within(node_view(n), len),
{
    lemma_nodes_view(n.children@);
    let v = node_view(n);
    assert forall|i: int| 0 <= i < v.children.len() implies tree_within(#[trigger] v.children[i], len) by {
        assert(v.children[i] == node_view(n.children@[i]));
    }
}

pub proof fn lemma_nodes_view(s: Seq<FieldNode>)
    ensures
        nodes_view(s).len() == s.len(),
        forall|i: int| 0 <= i < s.len() ==> #[trigger] nodes_view(s)[i] == node_view(s[i]),
    decreases s.len(),
{
    if s.len() > 0 {
        lemma_nodes_view(s.drop_last());
    }
}

pub proof fn lemma_nodes_view_push(s: Seq<FieldNode>, x: FieldNode)
    ensures
        nodes_view(s.push(x)) == nodes_view(s).push(node_view(x)),
{
    assert(s.push(x).drop_last() =~= s);
}

/// A childless node.
fn scalar(name: &str, type_label: String, value: Value, offset: usize, size: usize) -> (n: FieldNode)
    ensures
        node_view(n) == spec_scalar(name@, type_label@, value_view(value), offset, size),
{
    let n = FieldNode {
        name: String::from_str(name),
        type_label,
        value,
        offset,
        size,
        description: String::new(),
        children: Vec::new(),
    };
    assert(nodes_view(n.children@) =~= Seq::<SpecNode>::empty());
    n
}

/// The keyword naming a primitive.
fn prim_name(p: Prim) -> (s: String)
    ensures
        s@ == spec_prim_name(p),
{
    String::from_str(
        match p {
            Prim::U8 => "u8",
            Prim::U16 => "u16",
            Prim::U32 => "u32",
            Prim::U64 => "u64",
            Prim::I8 => "i8",
            Prim::I16 => "i16",
            Prim::I32 => "i32",
            Prim::I64 => "i64",
            Prim::F32 => "f32",
            Prim::F64 => "f64",
            Prim::Bool => "bool",
        },
    )
}

/// How a length is written inside brackets.
fn len_display(len: &Len) -> (s: String)
    ensures
        s@ == spec_len_display(*len),
{
    match len {
        Len::Fixed(n) => u64_to_string(*n),
        Len::Field(f) => f.clone(),
        Len::Rest => String::from_str("*"),
    }
}

/// Render a type, e.g. `char[4]` or `Player[count]`.
fn type_display(ty: &TypeExpr) -> (s: String)
    ensures
        s@ == spec_type_display(*ty),
    decreases ty,
{
    match ty {
        TypeExpr::Prim(p) => prim_name(*p),
        TypeExpr::Varint { signed } => String::from_str(if *signed { "svarint" } else { "varint" }),
        TypeExpr::Char => String::from_str("char"),
        TypeExpr::Str(len) => {
            let mut s = String::from_str("string[");
            s.append(len_display(len).as_str());
            s.append("]");
            s
        },
        TypeExpr::CStr => String::from_str("cstring"),
        TypeExpr::Bytes(len) => {
            let mut s = String::from_str("bytes[");
            s.append(len_display(len).as_str());
            s.append("]");
            s
        },
        TypeExpr::Named(n) => n.clone(),
        TypeExpr::Array { elem, len } => {
            let mut s = type_display(elem);
            s.append("[");
            s.append(len_display(len).as_str());
            s.append("]");
            s
        },
        TypeExpr::Match { discriminant, .. } => {
            let mut s = String::from_str("match ");
            s.append(join_strings(discriminant, ".").as_str());
            s
        },
        TypeExpr::Repeat { elem, .. } => {
            let mut s = String::from_str("repeat ");
            s.append(type_display(elem).as_str());
            s
        },
        TypeExpr::Computed(_) => String::from_str("computed"),
    }
}

/// The first node of `nodes` named `name`.
fn find_node_exec<'a>(nodes: &'a [FieldNode], name: &str) -> (r: Option<&'a FieldNode>)
    ensures
        match r {
            Some(n) => find_node(nodes_view(nodes@), name@) == Some(node_view(*n)),
            None => find_node(nodes_view(nodes@), name@) is None,
        },
{
    proof {
        lemma_nodes_view(nodes@);
        assert(nodes_view(nodes@).subrange(0, nodes@.len() as int) =~= nodes_view(nodes@));
    }
    let mut i: usize = 0;
    while i < nodes.len()
        invariant
            i <= nodes@.len(),
            nodes_view(nodes@).len() == nodes@.len(),
            forall|k: int| 0 <= k < nodes@.len() ==> #[trigger] nodes_view(nodes@)[k] == node_view(nodes@[k]),
            find_node(nodes_view(nodes@), name@) == find_node(
                nodes_view(nodes@).subrange(i as int, nodes@.len() as int),
                name@,
            ),
        decreases nodes@.len() - i,
    {
        proof {
            let t = nodes_view(nodes@).subrange(i as int, nodes@.len() as int);
            assert(t.drop_first() =~= nodes_view(nodes@).subrange(i + 1, nodes@.len() as int));
            assert(t[0] == node_view(nodes@[i as int]));
        }
        if str_eq(nodes[i].name.as_str(), name) {
            return Some(&nodes[i]);
        }
        i += 1;
    }
    None
}

/// Follow a dotted path (`["flags", "extra"]`) from `nodes` down through
/// children, returning the addressed node if it exists.
fn resolve_path<'a>(path: &Vec<String>, nodes: &'a [FieldNode]) -> (r: Option<&'a FieldNode>)
    ensures
        match r {
            Some(n) => spec_resolve_path(strings_view(path@), nodes_view(nodes@)) == Some(node_view(*n)),
            None => spec_resolve_path(strings_view(path@), nodes_view(nodes@)) is None,
        },
{
    if path.len() == 0 {
        return None;
    }
    let first = find_node_exec(nodes, path[0].as_str());
    proof {
        let p1 = strings_view(path@).subrange(0, 1);
        assert(p1.len() == 1 && p1[0] == path@[0]@);
    }
    let mut node = match first {
        Some(n) => n,
        None => {
            proof {
                lemma_resolve_prefix_none(strings_view(path@), nodes_view(nodes@), 1);
                assert(strings_view(path@).subrange(0, path@.len() as int) =~= strings_view(path@));
            }
            return None;
        },
    };
    let mut k: usize = 1;
    while k < path.len()
        invariant
            1 <= k <= path@.len(),
            spec_resolve_path(strings_view(path@).subrange(0, k as int), nodes_view(nodes@)) == Some(node_view(*node)),
        decreases path@.len() - k,
    {
        proof {
            let pk = strings_view(path@).subrange(0, k + 1);
            assert(pk.drop_last() =~= strings_view(path@).subrange(0, k as int));
            assert(pk.last() == path@[k as int]@);
        }
        match find_node_exec(node.children.as_slice(), path[k].as_str()) {
            Some(n) => {
                node = n;
            },
            None => {
                proof {
                    lemma_resolve_prefix_none(strings_view(path@), nodes_view(nodes@), (k + 1) as nat);
                    assert(strings_view(path@).subrange(0, path@.len() as int) =~= strings_view(path@));
                }
                return None;
            },
        }
        k += 1;
    }
    proof {
        assert(strings_view(path@).subrange(0, path@.len() as int) =~= strings_view(path@));
    }
    Some(node)
}

/// A path whose prefix of length `k` resolves to nothing resolves to nothing.
proof fn lemma_resolve_prefix_none(path: Seq<Seq<char>>, nodes: Seq<SpecNode>, k: nat)
    requires
        1 <= k <= path.len(),
        spec_resolve_path(path.subrange(0, k as int), nodes) is None,
    ensures
        spec_resolve_path(path, nodes) is None,
    decreases path.len() - k,
{
    if k < path.len() {
        let pk = path.subrange(0, (k + 1) as int);
        assert(pk.drop_last() =~= path.subrange(0, k as int));
        lemma_resolve_prefix_none(path, nodes, (k + 1) as nat);
    } else {
        assert(path.subrange(0, k as int) =~= path);
    }
}

/// The executable runtime: a schema, the bytes it runs over, and the byte order.
struct Runtime<'a> {
    schema: &'a Schema,
    data: &'a [u8],
    endian: Endian,
}

/// Parse `entry`, a struct named in `schema`, starting at offset 0. The root
/// node covers the bytes the struct consumed; and unless a field parses
/// decoded bytes as a type, every node of the tree records a byte range that
/// lies within the data.
pub fn parse(schema: &Schema, reader: &BinaryReader, entry: &str, endian: Endian) -> (r: Result<FieldNode, RuntimeError>)
    requires
        schema_wf(*schema),
    ensures
        result_view(r) == spec_parse_struct_field(*schema, reader.data(), endian, entry@, entry@, 0, 0),
        r matches Ok(n) ==> node_in_data(node_view(n), 0, reader.data().len()),
        no_decode_as(*schema) ==> (r matches Ok(n) ==> tree_within(node_view(n), reader.data().len())),
{
    let rt = Runtime { schema, data: reader.as_slice(), endian };
    rt.parse_struct_field(String::from_str(entry), entry, 0, 0)
}

impl<'a> Runtime<'a> {
    /// Evaluate a conditional field's guard against the decoded siblings.
    fn eval_condition(&self, cond: &Condition, sib: &[FieldNode]) -> (r: Result<bool, RuntimeError>)
        ensures
            match r {
                Ok(b) => spec_eval_condition(*cond, nodes_view(sib@)) == Ok::<bool, SpecError>(b),
                Err(e) => spec_eval_condition(*cond, nodes_view(sib@)) == Err::<bool, SpecError>(error_view(e)),
            },
    {
        let key = join_strings(&cond.path, ".");
        let node = match resolve_path(&cond.path, sib) {
            Some(n) => n,
            None => return Err(RuntimeError::UnknownConditionField(key)),
        };
        match &cond.compare {
            None => match node.value.as_i64() {
                Some(l) => Ok(l != 0),
                None => Err(RuntimeError::ConditionNotInteger(key)),
            },
            Some(c) => match &c.value {
                CompareValue::Int(rhs) => match node.value.as_i64() {
                    Some(l) => Ok(holds(c.op, l < *rhs, l == *rhs, l > *rhs)),
                    None => Err(RuntimeError::ConditionTypeMismatch(key)),
                },
                CompareValue::Str(rhs) => match node.value.as_str() {
                    Some(l) => {
                        let lt = str_lt(l, rhs.as_str());
                        let eq = str_eq(l, rhs.as_str());
                        let gt = str_lt(rhs.as_str(), l);
                        Ok(holds(c.op, lt, eq, gt))
                    },
                    None => Err(RuntimeError::ConditionTypeMismatch(key)),
                },
            },
        }
    }

    /// Evaluate a computed field's expression over the decoded siblings.
    fn eval_expr(&self, expr: &Expr, sib: &[FieldNode]) -> (r: Result<i64, RuntimeError>)
        ensures
            match r {
                Ok(v) => spec_eval_expr(*expr, nodes_view(sib@)) == Ok::<i64, SpecError>(v),
                Err(e) => spec_eval_expr(*expr, nodes_view(sib@)) == Err::<i64, SpecError>(error_view(e)),
            },
        decreases expr,
    {
        match expr {
            Expr::Int(n) => Ok(*n),
            Expr::Field(path) => {
                let key = join_strings(path, ".");
                match resolve_path(path, sib) {
                    None => Err(RuntimeError::ExprUnknownField(key)),
                    Some(node) => match node.value.as_i64() {
                        Some(v) => Ok(v),
                        None => Err(RuntimeError::ExprNotInteger(key)),
                    },
                }
            },
            Expr::Binary { op, lhs, rhs } => {
                let l = match self.eval_expr(lhs, sib) {
                    Ok(v) => v,
                    Err(e) => return Err(e),
                };
                let r = match self.eval_expr(rhs, sib) {
                    Ok(v) => v,
                    Err(e) => return Err(e),
                };
                match op {
                    BinOp::Add => Ok(l.wrapping_add(r)),
                    BinOp::Sub => Ok(l.wrapping_sub(r)),
                    BinOp::Mul => Ok(l.wrapping_mul(r)),
                    BinOp::Div => {
                        if r == 0 {
                            return Err(RuntimeError::DivByZero);
                        }
                        Ok(
                            match l.checked_div(r) {
                                Some(q) => q,
                                None => l,
                            },
                        )
                    },
                    BinOp::Rem => {
                        if r == 0 {
                            return Err(RuntimeError::DivByZero);
                        }
                        Ok(
                            match l.checked_rem(r) {
                                Some(q) => q,
                                None => 0,
                            },
                        )
                    },
                }
            },
        }
    }

    /// Resolve a length to a concrete count; `at` is where it is measured
    /// from, used by `[*]` (everything to the end of the data).
    fn resolve_len(&self, len: &Len, sib: &[FieldNode], at: usize) -> (r: Result<usize, RuntimeError>)
        ensures
            match r {
                Ok(n) => spec_resolve_len(*len, nodes_view(sib@), at, self.data@.len() as usize) == Ok::<usize, SpecError>(n),
                Err(e) => spec_resolve_len(*len, nodes_view(sib@), at, self.data@.len() as usize) == Err::<usize, SpecError>(error_view(e)),
            },
    {
        match len {
            Len::Fixed(n) => Ok(*n as usize),
            Len::Field(f) => match find_node_exec(sib, f.as_str()) {
                None => Err(RuntimeError::UnknownLengthField(f.clone())),
                Some(node) => match node.value.as_u64() {
                    Some(n) => Ok(n as usize),
                    None => Err(RuntimeError::LengthNotInteger(f.clone())),
                },
            },
            Len::Rest => Ok(self.data.len().saturating_sub(at)),
        }
    }
}

impl Value {
    /// The integer this value stands for as a length or count: unsigned
    /// integers, and signed integers and enums that are not negative.
    fn as_u64(&self) -> (r: Option<u64>)
        ensures
            r == spec_as_u64(value_view(*self)),
    {
        match self {
            Value::U(n) => Some(*n),
            Value::I(n) => if *n >= 0 { Some(*n as u64) } else { None },
            Value::Enum(e) => if e.value >= 0 { Some(e.value as u64) } else { None },
            _ => None,
        }
    }

    /// The integer this value stands for in a test: bools as 0/1, enums by
    /// their underlying value.
    fn as_i64(&self) -> (r: Option<i64>)
        ensures
            r == spec_as_i64(value_view(*self)),
    {
        match self {
            Value::U(n) => Some(*n as i64),
            Value::I(n) => Some(*n),
            Value::Bool(b) => Some(if *b { 1 } else { 0 }),
            Value::Enum(e) => Some(e.value),
            _ => None,
        }
    }

    /// The text this value stands for, for a string discriminant or comparison.
    fn as_str(&self) -> (r: Option<&str>)
        ensures
            match r {
                Some(t) => spec_as_str(value_view(*self)) == Some(t@),
                None => spec_as_str(value_view(*self)) is None,
            },
    {
        match self {
            Value::Str(t) => Some(t.as_str()),
            _ => None,
        }
    }
}

/// Whether an ordering satisfies a comparison operator.
fn holds(op: CompareOp, lt: bool, eq: bool, gt: bool) -> (b: bool)
    ensures
        b == spec_holds(op, lt, eq, gt),
{
    match op {
        CompareOp::Eq => eq,
        CompareOp::Ne => !eq,
        CompareOp::Lt => lt,
        CompareOp::Le => !gt,
        CompareOp::Gt => gt,
        CompareOp::Ge => !lt,
    }
}


impl<'a> Runtime<'a> {
    /// Read a primitive at `offset`.
    fn read_prim(&self, p: Prim, offset: usize) -> (r: Result<Value, RuntimeError>)
        ensures
            match r {
                Ok(v) => spec_read_prim(self.data@, self.endian, p, offset) == Ok::<SpecValue, SpecError>(value_view(v)),
                Err(e) => spec_read_prim(self.data@, self.endian, p, offset) == Err::<SpecValue, SpecError>(error_view(e)),
            },
    {
        let e = match p {
            Prim::U8 | Prim::I8 | Prim::Bool => Endian::Little,
            _ => self.endian,
        };
        let n = p.size();
        let v = match read_uint_slice(self.data, offset, n, e) {
            Ok(v) => v,
            Err(r) => return Err(RuntimeError::Read(r)),
        };
        proof {
            lemma_byte_bound_values();
        }
        Ok(
            match p {
                Prim::U8 | Prim::U16 | Prim::U32 | Prim::U64 => Value::U(v),
                Prim::I8 => Value::I(v as u8 as i8 as i64),
                Prim::I16 => Value::I(v as u16 as i16 as i64),
                Prim::I32 => Value::I(v as u32 as i32 as i64),
                Prim::I64 => Value::I(v as i64),
                Prim::F32 => Value::F32(v as u32),
                Prim::F64 => Value::F64(v),
                Prim::Bool => Value::Bool(v != 0),
            },
        )
    }

    /// Read a LEB128 integer at `offset`: its value and the bytes it spans
    /// (at most 10).
    fn read_varint(&self, signed: bool, offset: usize) -> (r: Result<(Value, usize), RuntimeError>)
        ensures
            match r {
                Ok((v, n)) => spec_varint_from(self.data@, signed, offset, 0, 0, 0) == Ok::<(SpecValue, usize), SpecError>((value_view(v), n))
                    && n >= 1 && offset + n <= self.data@.len(),
                Err(e) => spec_varint_from(self.data@, signed, offset, 0, 0, 0) == Err::<(SpecValue, usize), SpecError>(error_view(e)),
            },
    {
        let mut result: u64 = 0;
        let mut shift: u32 = 0;
        let mut consumed: usize = 0;
        let len = self.data.len();
        loop
            invariant
                consumed <= 10,
                shift == 7 * consumed,
                consumed > 0 ==> offset + consumed <= len,
                len == self.data@.len(),
                spec_varint_from(self.data@, signed, offset, 0, 0, 0) == spec_varint_from(self.data@, signed, offset, consumed, result, shift),
            decreases 10 - consumed,
        {
            if consumed >= 10 {
                return Err(RuntimeError::VarintTooLong(offset));
            }
            if offset >= len || consumed >= len - offset {
                return Err(RuntimeError::Read(ReadError::OutOfBounds { offset: offset + consumed, requested: 1, len }));
            }
            let byte = self.data[offset + consumed];
            let r2 = result | (((byte & 0x7f) as u64) << shift);
            let s2 = shift + 7;
            if byte & 0x80 == 0 {
                let value = if signed {
                    let v = r2 as i64;
                    if s2 < 64 && (byte & 0x40) != 0 {
                        Value::I(v | (-1i64 << s2))
                    } else {
                        Value::I(v)
                    }
                } else {
                    Value::U(r2)
                };
                return Ok((value, consumed + 1));
            }
            result = r2;
            shift = s2;
            consumed += 1;
        }
    }

    /// Read `n` bytes at `offset` as text: lossy UTF-8, stopping at the first NUL.
    fn read_string(&self, offset: usize, n: usize) -> (r: Result<String, RuntimeError>)
        ensures
            match r {
                Ok(s) => spec_read_string(self.data@, offset, n) == Ok::<Seq<char>, SpecError>(s@),
                Err(e) => spec_read_string(self.data@, offset, n) == Err::<Seq<char>, SpecError>(error_view(e)),
            },
    {
        let bytes = match bytes_at(self.data, offset, n) {
            Ok(b) => b,
            Err(e) => return Err(e),
        };
        match first_nul_exec(bytes) {
            Some(i) => Ok(lossy_string(vstd::slice::slice_subrange(bytes, 0, i))),
            None => Ok(lossy_string(bytes)),
        }
    }

    /// Read a NUL-terminated string at `offset`: the text and the bytes spanned
    /// (terminator included). At most `CSTRING_CAP` bytes are scanned.
    fn read_cstring(&self, offset: usize) -> (r: Result<(String, usize), RuntimeError>)
        ensures
            match r {
                Ok((s, n)) => spec_read_cstring(self.data@, offset) == Ok::<(Seq<char>, usize), SpecError>((s@, n))
                    && (n == 0 || offset + n <= self.data@.len()),
                Err(e) => spec_read_cstring(self.data@, offset) == Err::<(Seq<char>, usize), SpecError>(error_view(e)),
            },
    {
        let remaining = self.data.len().saturating_sub(offset);
        let scan = if remaining < CSTRING_CAP { remaining } else { CSTRING_CAP };
        let bytes = match bytes_at(self.data, offset, scan) {
            Ok(b) => b,
            Err(e) => return Err(e),
        };
        match first_nul_exec(bytes) {
            Some(i) => Ok((lossy_string(vstd::slice::slice_subrange(bytes, 0, i)), i + 1)),
            None => Ok((lossy_string(bytes), scan)),
        }
    }

    /// Decode an enum field: read its integer repr and match a variant name.
    fn parse_enum(&self, name: &str, def: &EnumDef, offset: usize) -> (r: Result<FieldNode, RuntimeError>)
        ensures
            result_view(r) == spec_parse_enum(self.data@, self.endian, name@, *def, offset),
            r matches Ok(n) ==> node_in_data(node_view(n), offset, self.data@.len()),
            r matches Ok(n) ==> tree_within(node_view(n), self.data@.len()),
    {
        let raw = match self.read_prim(def.repr, offset) {
            Ok(v) => v,
            Err(e) => return Err(e),
        };
        let value: i64 = match raw {
            Value::U(n) => n as i64,
            Value::I(n) => n,
            _ => 0,
        };
        let matched = match def.name_of(value) {
            Some(s) => Some(String::from_str(s)),
            None => None,
        };
        proof {
            lemma_read_prim_in_data(self.data@, self.endian, def.repr, offset);
        }
        Ok(scalar(name, def.name.clone(), Value::Enum(EnumValue { value, name: matched }), offset, def.repr.size()))
    }

    /// Decode a bitfield: read its integer, then unpack each member from the
    /// bits. Every member node spans the same bytes as the whole field.
    fn parse_bitfield(&self, name: &str, def: &BitfieldDef, offset: usize) -> (r: Result<FieldNode, RuntimeError>)
        requires
            bitfield_wf(*def),
        ensures
            result_view(r) == spec_parse_bitfield(self.data@, self.endian, name@, *def, offset),
            r matches Ok(n) ==> node_in_data(node_view(n), offset, self.data@.len()),
            r matches Ok(n) ==> tree_within(node_view(n), self.data@.len()),
    {
        let size = def.repr.size();
        let e = if size == 1 { Endian::Little } else { self.endian };
        let raw = match read_uint_slice(self.data, offset, size, e) {
            Ok(v) => v,
            Err(r) => return Err(RuntimeError::Read(r)),
        };
        let mut children: Vec<FieldNode> = Vec::new();
        let ghost spec_children = Seq::new(def.members@.len(), |i: int| spec_member_node(def.members@[i], raw, offset, size));
        let mut i: usize = 0;
        while i < def.members.len()
            invariant
                i <= def.members@.len(),
                bitfield_wf(*def),
                spec_children == Seq::new(def.members@.len(), |i: int| spec_member_node(def.members@[i], raw, offset, size)),
                nodes_view(children@) =~= spec_children.subrange(0, i as int),
            decreases def.members@.len() - i,
        {
            let m = &def.members[i];
            assert(def.members@[i as int].lo <= def.members@[i as int].hi < 64);
            let node = member_node(m, raw, offset, size);
            proof {
                lemma_nodes_view_push(children@, node);
            }
            children.push(node);
            i += 1;
        }
        assert(spec_children.subrange(0, def.members@.len() as int) =~= spec_children);
        let out = FieldNode {
            name: String::from_str(name),
            type_label: def.name.clone(),
            value: Value::Bitfield,
            offset,
            size,
            description: String::new(),
            children,
        };
        proof {
            let len = self.data@.len();
            assert(node_in_data(node_view(out), offset, len));
            lemma_nodes_view(out.children@);
            assert forall|q: int| 0 <= q < out.children@.len() implies tree_within(node_view(#[trigger] out.children@[q]), len) by {
                assert(nodes_view(out.children@)[q] == node_view(out.children@[q]));
                assert(spec_children[q] == spec_member_node(def.members@[q], raw, offset, size));
            }
            lemma_node_within(out, len);
        }
        Ok(out)
    }
}

/// The node of one bitfield member of the integer `raw`.
fn member_node(m: &BitMember, raw: u64, offset: usize, size: usize) -> (n: FieldNode)
    requires
        m.lo <= m.hi < 64,
    ensures
        node_view(n) == spec_member_node(*m, raw, offset, size),
{
    let width = m.width();
    let w = width as u64;
    assert(w < 64 ==> (1u64 << w) >= 1) by (bit_vector);
    let mask: u64 = if w >= 64 { u64::MAX } else { (1u64 << w) - 1 };
    let bits = (raw >> m.lo) & mask;
    if width == 1 {
        let mut label = String::from_str("bit ");
        push_decimal(&mut label, m.lo as u64);
        scalar(m.name.as_str(), label, Value::Bool(bits != 0), offset, size)
    } else {
        let mut label = String::from_str("bits ");
        push_decimal(&mut label, m.lo as u64);
        label.append("..");
        push_decimal(&mut label, m.hi as u64);
        scalar(m.name.as_str(), label, Value::U(bits), offset, size)
    }
}

/// A read primitive lies within the data.
proof fn lemma_read_prim_in_data(data: Seq<u8>, endian: Endian, p: Prim, offset: usize)
    ensures
        spec_read_prim(data, endian, p, offset) is Ok ==> offset + prim_size(p) <= data.len(),
{
}

/// The unsigned integer of `n` (at most 8) bytes at `offset` of `data`.
fn read_uint_slice(data: &[u8], offset: usize, n: usize, endian: Endian) -> (r: Result<u64, ReadError>)
    requires
        n <= 8,
    ensures
        match r {
            Ok(v) => uint_at(data@, offset, n, endian) == Ok::<nat, ReadError>(v as nat) && (v as nat) < byte_bound(n as nat)
                && offset + n <= data@.len(),
            Err(e) => uint_at(data@, offset, n, endian) == Err::<nat, ReadError>(e),
        },
{
    let len = data.len();
    if offset > len || n > len - offset {
        return Err(ReadError::OutOfBounds { offset, requested: n, len });
    }
    let b = vstd::slice::slice_subrange(data, offset, offset + n);
    Ok(crate::reader::decode_uint(b, endian))
}

/// The bytes `data[offset..offset+n]`.
fn bytes_at(data: &[u8], offset: usize, n: usize) -> (r: Result<&[u8], RuntimeError>)
    ensures
        match r {
            Ok(b) => spec_bytes_at(data@, offset, n) == Ok::<Seq<u8>, SpecError>(b@) && offset + n <= data@.len(),
            Err(e) => spec_bytes_at(data@, offset, n) == Err::<Seq<u8>, SpecError>(error_view(e)),
        },
{
    let len = data.len();
    if offset > len || n > len - offset {
        return Err(RuntimeError::Read(ReadError::OutOfBounds { offset, requested: n, len }));
    }
    Ok(vstd::slice::slice_subrange(data, offset, offset + n))
}

/// The index of the first NUL in `s`.
fn first_nul_exec(s: &[u8]) -> (r: Option<usize>)
    ensures
        match r {
            Some(i) => first_nul(s@) == Some(i as nat) && i < s@.len(),
            None => first_nul(s@) is None,
        },
{
    let mut i: usize = 0;
    assert(s@.subrange(0, s@.len() as int) =~= s@);
    while i < s.len()
        invariant
            i <= s@.len(),
            first_nul(s@) == match first_nul(s@.subrange(i as int, s@.len() as int)) {
                Some(k) => Some((k + i) as nat),
                None => None,
            },
        decreases s@.len() - i,
    {
        let ghost t = s@.subrange(i as int, s@.len() as int);
        assert(t.drop_first() =~= s@.subrange(i + 1, s@.len() as int));
        if s[i] == 0 {
            return Some(i);
        }
        i += 1;
    }
    None
}


/// A bitfield found by name among well-formed bitfields is well-formed.
proof fn lemma_find_bitfield_wf(s: Seq<BitfieldDef>, name: Seq<char>)
    requires
        forall|i: int| 0 <= i < s.len() ==> #[trigger] bitfield_wf(s[i]),
    ensures
        find_bitfield(s, name) matches Some(d) ==> bitfield_wf(d),
    decreases s.len(),
{
    if s.len() > 0 {
        assert(bitfield_wf(s[0]));
        if s[0].name@ != name {
            let t = s.drop_first();
            assert forall|i: int| 0 <= i < t.len() implies #[trigger] bitfield_wf(t[i]) by {
                assert(t[i] == s[i + 1]);
            }
            lemma_find_bitfield_wf(t, name);
        }
    }
}

/// The type of the first arm keyed on the string `s`.
fn find_arm_str_exec<'a>(arms: &'a Vec<MatchArm>, s: &str) -> (r: Option<&'a TypeExpr>)
    ensures
        match r {
            Some(t) => find_arm_str(arms@, s@) == Some(*t),
            None => find_arm_str(arms@, s@) is None,
        },
{
    let mut i: usize = 0;
    assert(arms@.subrange(0, arms@.len() as int) =~= arms@);
    while i < arms.len()
        invariant
            i <= arms@.len(),
            find_arm_str(arms@, s@) == find_arm_str(arms@.subrange(i as int, arms@.len() as int), s@),
        decreases arms@.len() - i,
    {
        let ghost t = arms@.subrange(i as int, arms@.len() as int);
        assert(t.drop_first() =~= arms@.subrange(i + 1, arms@.len() as int));
        match &arms[i].key {
            MatchKey::Str(k) => {
                if str_eq(k.as_str(), s) {
                    return Some(&arms[i].ty);
                }
            },
            _ => {},
        }
        i += 1;
    }
    None
}

/// The type of the first arm keyed on the integer `n`.
fn find_arm_int_exec<'a>(arms: &'a Vec<MatchArm>, n: i64) -> (r: Option<&'a TypeExpr>)
    ensures
        match r {
            Some(t) => find_arm_int(arms@, n) == Some(*t),
            None => find_arm_int(arms@, n) is None,
        },
{
    let mut i: usize = 0;
    assert(arms@.subrange(0, arms@.len() as int) =~= arms@);
    while i < arms.len()
        invariant
            i <= arms@.len(),
            find_arm_int(arms@, n) == find_arm_int(arms@.subrange(i as int, arms@.len() as int), n),
        decreases arms@.len() - i,
    {
        let ghost t = arms@.subrange(i as int, arms@.len() as int);
        assert(t.drop_first() =~= arms@.subrange(i + 1, arms@.len() as int));
        match &arms[i].key {
            MatchKey::Int(k) => {
                if *k == n {
                    return Some(&arms[i].ty);
                }
            },
            _ => {},
        }
        i += 1;
    }
    None
}

impl<'a> Runtime<'a> {
    /// Build the node of a field of struct type `struct_name` at `offset`.
    #[verifier::loop_isolation(false)]
    #[verifier::rlimit(40)]
    fn parse_struct_field(&self, field_name: String, struct_name: &str, offset: usize, depth: usize) -> (r: Result<FieldNode, RuntimeError>)
        requires
            depth <= MAX_DEPTH,
            schema_wf(*self.schema),
        ensures
            result_view(r) == spec_parse_struct_field(*self.schema, self.data@, self.endian, field_name@, struct_name@, offset, depth as nat),
            r matches Ok(n) ==> node_in_data(node_view(n), offset, self.data@.len()),
            no_decode_as(*self.schema) ==> (r matches Ok(n) ==> tree_within(node_view(n), self.data@.len())),
        decreases MAX_DEPTH - depth, 2usize, 0usize,
    {
        if depth >= MAX_DEPTH {
            return Err(RuntimeError::TooDeep(MAX_DEPTH));
        }
        let def: &StructDef = match self.schema.struct_named(struct_name) {
            Some(d) => d,
            None => return Err(RuntimeError::UnknownStruct(String::from_str(struct_name))),
        };
        let len = self.data.len();
        let ghost sch = *self.schema;
        let ghost whole = spec_fields(sch, self.data@, self.endian, def.fields@, 0, offset, offset, Seq::empty(), depth as nat);
        proof {
            lemma_find_struct_in(sch.structs@, struct_name@);
            if no_decode_as(sch) {
                let k = choose|k: int| 0 <= k < sch.structs@.len() && sch.structs@[k] == *def;
                assert forall|j: int| 0 <= j < def.fields@.len() implies plain_decode(#[trigger] def.fields@[j]) by {
                    assert(sch.structs@[k].fields@[j] == def.fields@[j]);
                }
            }
        }
        let mut children: Vec<FieldNode> = Vec::new();
        let mut cursor = offset;
        let mut i: usize = 0;
        assert(nodes_view(children@) =~= Seq::<SpecNode>::empty());
        while i < def.fields.len()
            invariant
                depth < MAX_DEPTH,
                schema_wf(*self.schema),
                sch == *self.schema,
                len == self.data@.len(),
                i <= def.fields@.len(),
                offset <= cursor,
                cursor == offset || cursor <= len,
                whole == spec_fields(sch, self.data@, self.endian, def.fields@, i as nat, offset, cursor, nodes_view(children@), depth as nat),
                no_decode_as(sch) ==> all_within(children@, len as nat),
                no_decode_as(sch) ==> forall|j: int| 0 <= j < def.fields@.len() ==> plain_decode(#[trigger] def.fields@[j]),
            decreases def.fields@.len() - i,
        {
            let field = &def.fields[i];
            match &field.condition {
                Some(cond) => match self.eval_condition(cond, children.as_slice()) {
                    Err(e) => return Err(e),
                    Ok(false) => {
                        i += 1;
                        continue;
                    },
                    Ok(true) => {},
                },
                None => {},
            }
            let (node, next) = match &field.pointer {
                Some(ptr) => {
                    let raw = match self.resolve_len(&ptr.offset, children.as_slice(), offset) {
                        Ok(v) => v,
                        Err(e) => return Err(e),
                    };
                    let target = if ptr.relative { offset.saturating_add(raw) } else { raw };
                    let n = match self.parse_type(field.name.as_str(), &field.ty, target, children.as_slice(), depth + 1) {
                        Ok(n) => n,
                        Err(e) => return Err(e),
                    };
                    (n, cursor)
                },
                None => {
                    let n = match self.parse_type(field.name.as_str(), &field.ty, cursor, children.as_slice(), depth + 1) {
                        Ok(n) => n,
                        Err(e) => return Err(e),
                    };
                    let next = if n.size == 0 { cursor } else { cursor + n.size };
                    (n, next)
                },
            };
            let mut node = match &field.decode {
                Some(dec) => match self.decode_field(node, dec, depth) {
                    Ok(n) => n,
                    Err(e) => return Err(e),
                },
                None => node,
            };
            let ghost undescribed = node_view(node);
            node.description = match &field.desc {
                Some(d) => d.clone(),
                None => String::new(),
            };
            proof {
                if no_decode_as(sch) {
                    assert(plain_decode(def.fields@[i as int]));
                    lemma_within_same_span(undescribed, node_view(node), len as nat);
                }
            }
            proof {
                lemma_nodes_view_push(children@, node);
            }
            let ghost before = children@;
            children.push(node);
            proof {
                if no_decode_as(sch) {
                    assert forall|q: int| 0 <= q < children@.len() implies tree_within(
                        node_view(#[trigger] children@[q]),
                        len as nat,
                    ) by {
                        if q < before.len() {
                            assert(children@[q] == before[q]);
                        }
                    }
                }
            }
            cursor = next;
            i += 1;
        }
        let out = FieldNode {
            name: field_name,
            type_label: String::from_str(struct_name),
            value: Value::Struct,
            offset,
            size: cursor - offset,
            description: String::new(),
            children,
        };
        proof {
            if no_decode_as(sch) {
                lemma_node_within(out, len as nat);
            }
        }
        Ok(out)
    }

    /// Apply a `decode` transform to a just-read byte field. The node keeps
    /// its offset and size (the encoded region); its value, and with
    /// `as <Type>` its children, are replaced by the decoded result.
    fn decode_field(&self, node: FieldNode, dec: &Decode, depth: usize) -> (r: Result<FieldNode, RuntimeError>)
        requires
            depth < MAX_DEPTH,
            schema_wf(*self.schema),
        ensures
            result_view(r) == spec_decode_field(*self.schema, self.endian, node_view(node), *dec, depth as nat),
            r matches Ok(n) ==> n.offset == node.offset && n.size == node.size,
            dec.as_type is None && (node.size == 0 || node.offset + node.size <= self.data@.len()) ==> (r matches Ok(n)
                ==> tree_within(node_view(n), self.data@.len())),
        decreases MAX_DEPTH - depth, 0usize, 0usize,
    {
        let decoded = match &node.value {
            Value::Bytes(raw) => match apply_transform(&dec.transform, raw.as_slice()) {
                Ok(d) => d,
                Err(e) => return Err(e),
            },
            _ => return Err(RuntimeError::DecodeNotBytes(node.name.clone())),
        };
        let tname = transform_name(&dec.transform);
        match &dec.as_type {
            Some(as_type) => {
                let no_sib: Vec<FieldNode> = Vec::new();
                assert(nodes_view(no_sib@) =~= Seq::<SpecNode>::empty());
                let sub = Runtime { schema: self.schema, data: decoded.as_slice(), endian: self.endian };
                let parsed = match sub.parse_type(node.name.as_str(), as_type, 0, no_sib.as_slice(), depth + 1) {
                    Ok(p) => p,
                    Err(e) => return Err(e),
                };
                let mut label = String::from_str("decode ");
                label.append(tname);
                label.append(" as ");
                label.append(type_display(as_type).as_str());
                Ok(FieldNode {
                    name: node.name,
                    type_label: label,
                    value: parsed.value,
                    offset: node.offset,
                    size: node.size,
                    description: node.description,
                    children: parsed.children,
                })
            },
            None => {
                let mut label = String::from_str("decode ");
                label.append(tname);
                let out = FieldNode {
                    name: node.name,
                    type_label: label,
                    value: Value::Bytes(decoded),
                    offset: node.offset,
                    size: node.size,
                    description: node.description,
                    children: Vec::new(),
                };
                assert(nodes_view(out.children@) =~= Seq::<SpecNode>::empty());
                Ok(out)
            },
        }
    }

    /// Build the node of one field of type `ty` at `offset`; `sib` are the
    /// fields already decoded in the enclosing struct.
    #[verifier::loop_isolation(false)]
    fn parse_type(&self, name: &str, ty: &TypeExpr, offset: usize, sib: &[FieldNode], depth: usize) -> (r: Result<FieldNode, RuntimeError>)
        requires
            depth <= MAX_DEPTH,
            schema_wf(*self.schema),
        ensures
            result_view(r) == spec_parse_type(*self.schema, self.data@, self.endian, name@, *ty, offset, nodes_view(sib@), depth as nat),
            r matches Ok(n) ==> node_in_data(node_view(n), offset, self.data@.len()),
            no_decode_as(*self.schema) ==> (r matches Ok(n) ==> tree_within(node_view(n), self.data@.len())),
        decreases MAX_DEPTH - depth, 3usize, 0usize,
    {
        if depth >= MAX_DEPTH {
            return Err(RuntimeError::TooDeep(MAX_DEPTH));
        }
        let len = self.data.len();
        match ty {
            TypeExpr::Prim(p) => {
                let value = match self.read_prim(*p, offset) {
                    Ok(v) => v,
                    Err(e) => return Err(e),
                };
                proof {
                    lemma_read_prim_in_data(self.data@, self.endian, *p, offset);
                }
                Ok(scalar(name, prim_name(*p), value, offset, p.size()))
            },
            TypeExpr::Varint { signed } => {
                let (value, size) = match self.read_varint(*signed, offset) {
                    Ok(x) => x,
                    Err(e) => return Err(e),
                };
                let label = String::from_str(if *signed { "svarint" } else { "varint" });
                Ok(scalar(name, label, value, offset, size))
            },
            TypeExpr::Char => {
                let b = match bytes_at(self.data, offset, 1) {
                    Ok(b) => b,
                    Err(e) => return Err(e),
                };
                Ok(scalar(name, String::from_str("char"), Value::Char(b[0] as char), offset, 1))
            },
            TypeExpr::Str(l) => {
                let n = match self.resolve_len(l, sib, offset) {
                    Ok(n) => n,
                    Err(e) => return Err(e),
                };
                let s = match self.read_string(offset, n) {
                    Ok(s) => s,
                    Err(e) => return Err(e),
                };
                Ok(scalar(name, type_display(ty), Value::Str(s), offset, n))
            },
            TypeExpr::CStr => {
                let (s, size) = match self.read_cstring(offset) {
                    Ok(x) => x,
                    Err(e) => return Err(e),
                };
                Ok(scalar(name, String::from_str("cstring"), Value::Str(s), offset, size))
            },
            TypeExpr::Bytes(l) => {
                let n = match self.resolve_len(l, sib, offset) {
                    Ok(n) => n,
                    Err(e) => return Err(e),
                };
                let b = match bytes_at(self.data, offset, n) {
                    Ok(b) => b,
                    Err(e) => return Err(e),
                };
                Ok(scalar(name, type_display(ty), Value::Bytes(vstd::slice::slice_to_vec(b)), offset, n))
            },
            TypeExpr::Named(tn) => {
                if self.schema.struct_named(tn.as_str()).is_some() {
                    self.parse_struct_field(String::from_str(name), tn.as_str(), offset, depth)
                } else {
                    match self.schema.enum_named(tn.as_str()) {
                        Some(def) => self.parse_enum(name, def, offset),
                        None => match self.schema.bitfield_named(tn.as_str()) {
                            Some(def) => {
                                proof {
                                    lemma_find_bitfield_wf(self.schema.bitfields@, tn@);
                                }
                                self.parse_bitfield(name, def, offset)
                            },
                            None => Err(RuntimeError::UnknownType(tn.clone())),
                        },
                    }
                }
            },
            TypeExpr::Array { elem, len: l } => {
                let n = match self.resolve_len(l, sib, offset) {
                    Ok(n) => n,
                    Err(e) => return Err(e),
                };
                if matches!(**elem, TypeExpr::Char) {
                    let s = match self.read_string(offset, n) {
                        Ok(s) => s,
                        Err(e) => return Err(e),
                    };
                    return Ok(scalar(name, type_display(ty), Value::Str(s), offset, n));
                }
                let no_sib: Vec<FieldNode> = Vec::new();
                assert(nodes_view(no_sib@) =~= Seq::<SpecNode>::empty());
                let ghost sch = *self.schema;
                let ghost whole = spec_array(sch, self.data@, self.endian, **elem, n, 0, offset, Seq::empty(), depth as nat);
                let mut children: Vec<FieldNode> = Vec::new();
                let mut cursor = offset;
                let mut i: usize = 0;
                assert(nodes_view(children@) =~= Seq::<SpecNode>::empty());
                while i < n
                    invariant
                        depth < MAX_DEPTH,
                        schema_wf(*self.schema),
                        sch == *self.schema,
                        len == self.data@.len(),
                        no_sib@.len() == 0,
                        nodes_view(no_sib@) == Seq::<SpecNode>::empty(),
                        offset <= cursor,
                        cursor == offset || cursor <= len,
                        whole == spec_array(sch, self.data@, self.endian, **elem, n, i, cursor, nodes_view(children@), depth as nat),
                        no_decode_as(sch) ==> all_within(children@, len as nat),
                    decreases n - i,
                {
                    let nm = u64_to_string(i as u64);
                    let node = match self.parse_type(nm.as_str(), elem, cursor, no_sib.as_slice(), depth + 1) {
                        Ok(x) => x,
                        Err(e) => return Err(e),
                    };
                    let next = if node.size == 0 { cursor } else { cursor + node.size };
                    proof {
                        lemma_nodes_view_push(children@, node);
                    }
                    let ghost before = children@;
                    children.push(node);
                    proof {
                        if no_decode_as(sch) {
                            assert forall|q: int| 0 <= q < children@.len() implies tree_within(
                                node_view(#[trigger] children@[q]),
                                len as nat,
                            ) by {
                                if q < before.len() {
                                    assert(children@[q] == before[q]);
                                }
                            }
                        }
                    }
                    cursor = next;
                    i += 1;
                }
                let out = FieldNode {
                    name: String::from_str(name),
                    type_label: type_display(ty),
                    value: Value::Array,
                    offset,
                    size: cursor - offset,
                    description: String::new(),
                    children,
                };
                proof {
                    if no_decode_as(sch) {
                        lemma_node_within(out, len as nat);
                    }
                }
                Ok(out)
            },
            TypeExpr::Match { discriminant, arms, default } => {
                let key = join_strings(discriminant, ".");
                let d = match resolve_path(discriminant, sib) {
                    Some(d) => d,
                    None => return Err(RuntimeError::UnknownMatchField(key)),
                };
                let (chosen, shown) = match &d.value {
                    Value::Str(s) => (find_arm_str_exec(arms, s.as_str()), s.clone()),
                    v => match v.as_i64() {
                        Some(k) => (find_arm_int_exec(arms, k), i64_to_string(k)),
                        None => return Err(RuntimeError::MatchFieldNotMatchable(key)),
                    },
                };
                let pick: Option<&TypeExpr> = match chosen {
                    Some(t) => Some(t),
                    None => match default {
                        Some(t) => Some(&**t),
                        None => None,
                    },
                };
                match pick {
                    Some(t) => self.parse_type(name, t, offset, sib, depth + 1),
                    None => Err(RuntimeError::NoMatchingArm(shown)),
                }
            },
            TypeExpr::Repeat { elem, until } => {
                let (children, cursor) = match self.repeat_elems(elem, until, offset, depth) {
                    Ok(x) => x,
                    Err(e) => return Err(e),
                };
                let out = FieldNode {
                    name: String::from_str(name),
                    type_label: type_display(ty),
                    value: Value::Array,
                    offset,
                    size: cursor - offset,
                    description: String::new(),
                    children,
                };
                proof {
                    if no_decode_as(*self.schema) {
                        lemma_node_within(out, len as nat);
                    }
                }
                Ok(out)
            },
            TypeExpr::Computed(expr) => {
                let v = match self.eval_expr(expr, sib) {
                    Ok(v) => v,
                    Err(e) => return Err(e),
                };
                let value = if v >= 0 { Value::U(v as u64) } else { Value::I(v) };
                Ok(scalar(name, String::from_str("computed"), value, offset, 0))
            },
        }
    }
}


impl<'a> Runtime<'a> {
    /// Read `repeat` elements of type `elem` from `offset`: the elements and
    /// the cursor after the last one.
    fn repeat_elems(&self, elem: &TypeExpr, until: &Option<Condition>, offset: usize, depth: usize) -> (r: Result<(Vec<FieldNode>, usize), RuntimeError>)
        requires
            depth < MAX_DEPTH,
            schema_wf(*self.schema),
        ensures
            match r {
                Ok((c, cursor)) => spec_repeat(*self.schema, self.data@, self.endian, *elem, *until, offset, Seq::empty(), depth as nat)
                    == Ok::<(Seq<SpecNode>, usize), SpecError>((nodes_view(c@), cursor))
                    && offset <= cursor && (cursor == offset || cursor <= self.data@.len()),
                Err(e) => spec_repeat(*self.schema, self.data@, self.endian, *elem, *until, offset, Seq::empty(), depth as nat)
                    == Err::<(Seq<SpecNode>, usize), SpecError>(error_view(e)),
            },
            no_decode_as(*self.schema) ==> (r matches Ok((c, _)) ==> all_within(c@, self.data@.len())),
        decreases MAX_DEPTH - depth, 1usize, 0usize,
    {
        let len = self.data.len();
        let no_sib: Vec<FieldNode> = Vec::new();
        assert(nodes_view(no_sib@) =~= Seq::<SpecNode>::empty());
        let ghost sch = *self.schema;
        let ghost whole = spec_repeat(sch, self.data@, self.endian, *elem, *until, offset, Seq::empty(), depth as nat);
        let mut children: Vec<FieldNode> = Vec::new();
        let mut cursor = offset;
        assert(nodes_view(children@) =~= Seq::<SpecNode>::empty());
        loop
            invariant_except_break
                whole == spec_repeat(sch, self.data@, self.endian, *elem, *until, cursor, nodes_view(children@), depth as nat),
            invariant
                depth < MAX_DEPTH,
                schema_wf(*self.schema),
                sch == *self.schema,
                whole == spec_repeat(sch, self.data@, self.endian, *elem, *until, offset, Seq::empty(), depth as nat),
                len == self.data@.len(),
                no_sib@.len() == 0,
                nodes_view(no_sib@) == Seq::<SpecNode>::empty(),
                offset <= cursor,
                cursor == offset || cursor <= len,
                children@.len() <= MAX_ITERS,
                no_decode_as(sch) ==> all_within(children@, len as nat),
            ensures
                whole == Ok::<(Seq<SpecNode>, usize), SpecError>((nodes_view(children@), cursor)),
            decreases MAX_ITERS - children@.len(),
        {
            if cursor >= len {
                break;
            }
            if children.len() >= MAX_ITERS {
                proof {
                    lemma_nodes_view(children@);
                }
                return Err(RuntimeError::RepeatOverrun(MAX_ITERS));
            }
            proof {
                lemma_nodes_view(children@);
            }
            let nm = u64_to_string(children.len() as u64);
            let node = match self.parse_type(nm.as_str(), elem, cursor, no_sib.as_slice(), depth + 1) {
                Ok(x) => x,
                Err(e) => return Err(e),
            };
            let next = if node.size == 0 { cursor } else { cursor + node.size };
            let stop = match until {
                Some(c) => match self.eval_condition(c, node.children.as_slice()) {
                    Ok(b) => b,
                    Err(e) => return Err(e),
                },
                None => node.size == 0,
            };
            proof {
                lemma_nodes_view_push(children@, node);
            }
            let ghost before = children@;
            children.push(node);
            proof {
                if no_decode_as(sch) {
                    assert forall|q: int| 0 <= q < children@.len() implies tree_within(
                        node_view(#[trigger] children@[q]),
                        len as nat,
                    ) by {
                        if q < before.len() {
                            assert(children@[q] == before[q]);
                        }
                    }
                }
            }
            cursor = next;
            if stop {
                break;
            }
        }
        Ok((children, cursor))
    }
}

} // verus!
