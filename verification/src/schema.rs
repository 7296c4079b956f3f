//! The schema AST: the shape a schema takes once parsed.
//!
//! A schema is a set of named `struct`s, `enum`s and `bitfield`s sharing one
//! name space. The first struct conventionally acts as the entry point.
use vstd::prelude::*;

use crate::text::str_eq;

verus! {

/// A whole schema: an ordered set of type definitions.
#[derive(Debug, PartialEq, Eq)]
pub struct Schema {
    pub structs: Vec<StructDef>,
    pub enums: Vec<EnumDef>,
    pub bitfields: Vec<BitfieldDef>,
}

/// A named enum, `enum Name : <repr> { Variant = <int> ... }`.
#[derive(Debug, Clone, PartialEq, Eq)]
pub struct EnumDef {
    pub name: String,
    pub repr: Prim,
    pub variants: Vec<EnumVariant>,
}

/// One `Name = value` pair inside an enum.
#[derive(Debug, Clone, PartialEq, Eq)]
pub struct EnumVariant {
    pub name: String,
    pub value: i64,
}

/// A named bitfield, `bitfield Name : <repr> { flag <bit>  field <lo>..<hi> }`.
#[derive(Debug, Clone, PartialEq, Eq)]
pub struct BitfieldDef {
    pub name: String,
    pub repr: Prim,
    pub members: Vec<BitMember>,
}

/// One member of a bitfield: the inclusive bit range `[lo, hi]`, bit 0 being
/// the least-significant bit.
#[derive(Debug, Clone, PartialEq, Eq)]
pub struct BitMember {
    pub name: String,
    pub lo: u8,
    pub hi: u8,
}

/// A named struct: `struct Name { field* }`.
#[derive(Debug, PartialEq, Eq)]
pub struct StructDef {
    pub name: String,
    pub fields: Vec<Field>,
}

/// A single field inside a struct: `name [at src] type [decode ..] [if ..] ["desc"]`.
#[derive(Debug, PartialEq, Eq)]
pub struct Field {
    pub name: String,
    pub ty: TypeExpr,
    /// Read at an offset held elsewhere; consumes no bytes in the enclosing struct.
    pub pointer: Option<Pointer>,
    /// Only read when this condition holds.
    pub condition: Option<Condition>,
    /// Post-read transform of the field's raw bytes.
    pub decode: Option<Decode>,
    pub desc: Option<String>,
}

/// A post-read transform on a field's raw bytes: `decode <transform> [as <Type>]`.
#[derive(Debug, PartialEq, Eq)]
pub struct Decode {
    pub transform: Transform,
    pub as_type: Option<Box<TypeExpr>>,
}

/// A byte-buffer transform.
#[derive(Debug, Clone, PartialEq, Eq)]
pub enum Transform {
    /// Repeating-key XOR.
    Xor(Vec<u8>),
    /// Rolling XOR: the key starts at `seed` and becomes `k*mul + add` (mod 256)
    /// after each byte.
    RollingXor { seed: u8, mul: u8, add: u8 },
    /// Add a constant to every byte (mod 256).
    Add(i64),
    /// Standard-alphabet Base64 decode.
    Base64,
    /// zlib-stream inflate (RFC 1950).
    ZlibInflate,
    /// Raw DEFLATE inflate (RFC 1951).
    Inflate,
    /// gzip-member inflate (RFC 1952).
    Gunzip,
}

/// A pointer-follow directive on a field: `at [+] <offset>`.
#[derive(Debug, Clone, PartialEq, Eq)]
pub struct Pointer {
    pub offset: Len,
    pub relative: bool,
}

/// A guard on a conditional field: `if <path> [<op> <value>]`.
#[derive(Debug, Clone, PartialEq, Eq)]
pub struct Condition {
    pub path: Vec<String>,
    pub compare: Option<Compare>,
}

/// The comparison half of a [`Condition`].
#[derive(Debug, Clone, PartialEq, Eq)]
pub struct Compare {
    pub op: CompareOp,
    pub value: CompareValue,
}

/// The right-hand side of a [`Compare`].
#[derive(Debug, Clone, PartialEq, Eq)]
pub enum CompareValue {
    Int(i64),
    Str(String),
}

/// A comparison operator usable in a conditional field.
#[derive(Debug, Clone, Copy, PartialEq, Eq, Structural)]
pub enum CompareOp {
    Eq,
    Ne,
    Lt,
    Le,
    Gt,
    Ge,
}

/// The type of a field.
#[derive(Debug, PartialEq, Eq)]
pub enum TypeExpr {
    /// A fixed-width numeric or boolean primitive.
    Prim(Prim),
    /// A LEB128 integer; `signed` selects SLEB128.
    Varint { signed: bool },
    /// A single 1-byte character.
    Char,
    /// A fixed-length text string, `string[N]`.
    Str(Len),
    /// A NUL-terminated string, `cstring`.
    CStr,
    /// A run of raw bytes, `bytes[N]`.
    Bytes(Len),
    /// A reference to a struct, enum or bitfield of the same schema.
    Named(String),
    /// An array of `elem` repeated `len` times.
    Array { elem: Box<TypeExpr>, len: Len },
    /// A discriminated union chosen by an earlier field's value.
    Match { discriminant: Vec<String>, arms: Vec<MatchArm>, default: Option<Box<TypeExpr>> },
    /// `repeat T [until <cond>]`.
    Repeat { elem: Box<TypeExpr>, until: Option<Condition> },
    /// A computed field: an expression over earlier fields, reading no bytes.
    Computed(Box<Expr>),
}

/// An integer arithmetic expression over field values.
#[derive(Debug, PartialEq, Eq)]
pub enum Expr {
    Int(i64),
    Field(Vec<String>),
    Binary { op: BinOp, lhs: Box<Expr>, rhs: Box<Expr> },
}

/// A binary arithmetic operator of a computed field.
#[derive(Debug, Clone, Copy, PartialEq, Eq, Structural)]
pub enum BinOp {
    Add,
    Sub,
    Mul,
    Div,
    Rem,
}

/// One arm of a [`TypeExpr::Match`]: `key => type`.
#[derive(Debug, PartialEq, Eq)]
pub struct MatchArm {
    pub key: MatchKey,
    pub ty: TypeExpr,
}

/// The value a [`MatchArm`] matches on.
#[derive(Debug, Clone, PartialEq, Eq)]
pub enum MatchKey {
    Int(i64),
    Str(String),
}

/// A fixed-width primitive type.
#[derive(Debug, Clone, Copy, PartialEq, Eq, Structural)]
pub enum Prim {
    U8,
    U16,
    U32,
    U64,
    I8,
    I16,
    I32,
    I64,
    F32,
    F64,
    Bool,
}

/// A length, as it appears inside `[...]`.
#[derive(Debug, Clone, PartialEq, Eq)]
pub enum Len {
    Fixed(u64),
    Field(String),
    /// `[*]`: everything from here to the end of the file.
    Rest,
}

/// Encoded size in bytes of a primitive.
pub open spec fn prim_size(p: Prim) -> nat {
    match p {
        Prim::U8 | Prim::I8 | Prim::Bool => 1,
        Prim::U16 | Prim::I16 => 2,
        Prim::U32 | Prim::I32 | Prim::F32 => 4,
        Prim::U64 | Prim::I64 | Prim::F64 => 8,
    }
}

/// Whether a primitive is an integer (valid as an enum/bitfield repr).
pub open spec fn prim_is_integer(p: Prim) -> bool {
    !(p is F32 || p is F64 || p is Bool)
}

/// The primitive a type keyword names, if any.
pub open spec fn prim_of_keyword(w: Seq<char>) -> Option<Prim> {
    if w == "u8"@ {
        Some(Prim::U8)
    } else if w == "u16"@ {
        Some(Prim::U16)
    } else if w == "u32"@ {
        Some(Prim::U32)
    } else if w == "u64"@ {
        Some(Prim::U64)
    } else if w == "i8"@ {
        Some(Prim::I8)
    } else if w == "i16"@ {
        Some(Prim::I16)
    } else if w == "i32"@ {
        Some(Prim::I32)
    } else if w == "i64"@ {
        Some(Prim::I64)
    } else if w == "f32"@ {
        Some(Prim::F32)
    } else if w == "f64"@ {
        Some(Prim::F64)
    } else if w == "bool"@ {
        Some(Prim::Bool)
    } else {
        None
    }
}

impl Prim {
    /// Encoded size in bytes.
    pub fn size(self) -> (n: usize)
        ensures
            n == prim_size(self),
    {
        match self {
            Prim::U8 | Prim::I8 | Prim::Bool => 1,
            Prim::U16 | Prim::I16 => 2,
            Prim::U32 | Prim::I32 | Prim::F32 => 4,
            Prim::U64 | Prim::I64 | Prim::F64 => 8,
        }
    }

    /// Whether this is an integer primitive.
    pub fn is_integer(self) -> (b: bool)
        ensures
            b == prim_is_integer(self),
    {
        match self {
            Prim::F32 | Prim::F64 | Prim::Bool => false,
            _ => true,
        }
    }

    /// Map a type keyword to a primitive, if it names one.
    pub fn from_keyword(word: &str) -> (p: Option<Prim>)
        ensures
            p == prim_of_keyword(word@),
    {
        if str_eq(word, "u8") {
            Some(Prim::U8)
        } else if str_eq(word, "u16") {
            Some(Prim::U16)
        } else if str_eq(word, "u32") {
            Some(Prim::U32)
        } else if str_eq(word, "u64") {
            Some(Prim::U64)
        } else if str_eq(word, "i8") {
            Some(Prim::I8)
        } else if str_eq(word, "i16") {
            Some(Prim::I16)
        } else if str_eq(word, "i32") {
            Some(Prim::I32)
        } else if str_eq(word, "i64") {
            Some(Prim::I64)
        } else if str_eq(word, "f32") {
            Some(Prim::F32)
        } else if str_eq(word, "f64") {
            Some(Prim::F64)
        } else if str_eq(word, "bool") {
            Some(Prim::Bool)
        } else {
            None
        }
    }
}

/// The first struct of `s` named `name`.
pub open spec fn find_struct(s: Seq<StructDef>, name: Seq<char>) -> Option<StructDef>
    decreases s.len(),
{
    if s.len() == 0 {
        None
    } else if s[0].name@ == name {
        Some(s[0])
    } else {
        find_struct(s.drop_first(), name)
    }
}

/// The first enum of `s` named `name`.
pub open spec fn find_enum(s: Seq<EnumDef>, name: Seq<char>) -> Option<EnumDef>
    decreases s.len(),
{
    if s.len() == 0 {
        None
    } else if s[0].name@ == name {
        Some(s[0])
    } else {
        find_enum(s.drop_first(), name)
    }
}

/// The first bitfield of `s` named `name`.
pub open spec fn find_bitfield(s: Seq<BitfieldDef>, name: Seq<char>) -> Option<BitfieldDef>
    decreases s.len(),
{
    if s.len() == 0 {
        None
    } else if s[0].name@ == name {
        Some(s[0])
    } else {
        find_bitfield(s.drop_first(), name)
    }
}

/// The first variant of `s` whose value is `value`.
pub open spec fn find_variant(s: Seq<EnumVariant>, value: i64) -> Option<EnumVariant>
    decreases s.len(),
{
    if s.len() == 0 {
        None
    } else if s[0].value == value {
        Some(s[0])
    } else {
        find_variant(s.drop_first(), value)
    }
}

impl Schema {
    /// Build a schema of structs only (enums/bitfields empty).
    pub fn new(structs: Vec<StructDef>) -> (s: Self)
        ensures
            s.structs == structs,
            s.enums@ == Seq::<EnumDef>::empty(),
            s.bitfields@ == Seq::<BitfieldDef>::empty(),
    {
        Schema { structs, enums: Vec::new(), bitfields: Vec::new() }
    }

    /// Look up a struct definition by name (the first one so named).
    pub fn struct_named(&self, name: &str) -> (r: Option<&StructDef>)
        ensures
            match r {
                Some(d) => find_struct(self.structs@, name@) == Some(*d),
                None => find_struct(self.structs@, name@) is None,
            },
    {
        let mut i: usize = 0;
        assert(self.structs@.subrange(0, self.structs@.len() as int) =~= self.structs@);
        while i < self.structs.len()
            invariant
                i <= self.structs@.len(),
                find_struct(self.structs@, name@) == find_struct(
                    self.structs@.subrange(i as int, self.structs@.len() as int),
                    name@,
                ),
            decreases self.structs@.len() - i,
        {
            let ghost rest = self.structs@.subrange(i as int, self.structs@.len() as int);
            assert(rest.drop_first() =~= self.structs@.subrange(i + 1, self.structs@.len() as int));
            if str_eq(self.structs[i].name.as_str(), name) {
                return Some(&self.structs[i]);
            }
            i += 1;
        }
        None
    }

    /// Look up an enum definition by name (the first one so named).
    pub fn enum_named(&self, name: &str) -> (r: Option<&EnumDef>)
        ensures
            match r {
                Some(d) => find_enum(self.enums@, name@) == Some(*d),
                None => find_enum(self.enums@, name@) is None,
            },
    {
        let mut i: usize = 0;
        assert(self.enums@.subrange(0, self.enums@.len() as int) =~= self.enums@);
        while i < self.enums.len()
            invariant
                i <= self.enums@.len(),
                find_enum(self.enums@, name@) == find_enum(
                    self.enums@.subrange(i as int, self.enums@.len() as int),
                    name@,
                ),
            decreases self.enums@.len() - i,
        {
            let ghost rest = self.enums@.subrange(i as int, self.enums@.len() as int);
            assert(rest.drop_first() =~= self.enums@.subrange(i + 1, self.enums@.len() as int));
            if str_eq(self.enums[i].name.as_str(), name) {
                return Some(&self.enums[i]);
            }
            i += 1;
        }
        None
    }

    /// Look up a bitfield definition by name (the first one so named).
    pub fn bitfield_named(&self, name: &str) -> (r: Option<&BitfieldDef>)
        ensures
            match r {
                Some(d) => find_bitfield(self.bitfields@, name@) == Some(*d),
                None => find_bitfield(self.bitfields@, name@) is None,
            },
    {
        let mut i: usize = 0;
        assert(self.bitfields@.subrange(0, self.bitfields@.len() as int) =~= self.bitfields@);
        while i < self.bitfields.len()
            invariant
                i <= self.bitfields@.len(),
                find_bitfield(self.bitfields@, name@) == find_bitfield(
                    self.bitfields@.subrange(i as int, self.bitfields@.len() as int),
                    name@,
                ),
            decreases self.bitfields@.len() - i,
        {
            let ghost rest = self.bitfields@.subrange(i as int, self.bitfields@.len() as int);
            assert(rest.drop_first() =~= self.bitfields@.subrange(
                i + 1,
                self.bitfields@.len() as int,
            ));
            if str_eq(self.bitfields[i].name.as_str(), name) {
                return Some(&self.bitfields[i]);
            }
            i += 1;
        }
        None
    }
}

impl EnumDef {
    /// The symbolic name of a decoded value, if a variant has that value.
    pub fn name_of(&self, value: i64) -> (r: Option<&str>)
        ensures
            match r {
                Some(n) => find_variant(self.variants@, value) matches Some(v) && n@ == v.name@,
                None => find_variant(self.variants@, value) is None,
            },
    {
        let mut i: usize = 0;
        assert(self.variants@.subrange(0, self.variants@.len() as int) =~= self.variants@);
        while i < self.variants.len()
            invariant
                i <= self.variants@.len(),
                find_variant(self.variants@, value) == find_variant(
                    self.variants@.subrange(i as int, self.variants@.len() as int),
                    value,
                ),
            decreases self.variants@.len() - i,
        {
            let ghost rest = self.variants@.subrange(i as int, self.variants@.len() as int);
            assert(rest.drop_first() =~= self.variants@.subrange(
                i + 1,
                self.variants@.len() as int,
            ));
            if self.variants[i].value == value {
                return Some(self.variants[i].name.as_str());
            }
            i += 1;
        }
        None
    }
}

impl BitMember {
    /// Number of bits this member spans.
    pub fn width(&self) -> (w: u8)
        requires
            self.lo <= self.hi,
            self.hi - self.lo < 255,
        ensures
            w == self.hi - self.lo + 1,
    {
        (self.hi - self.lo) + 1
    }
}


// The AST with its text taken by characters and its vectors by sequences: the
// model in which the parser's contract is stated.

pub enum SpecLen {
    Fixed(u64),
    Field(Seq<char>),
    Rest,
}

pub struct SpecPointer {
    pub offset: SpecLen,
    pub relative: bool,
}

pub enum SpecCompareValue {
    Int(i64),
    Str(Seq<char>),
}

pub struct SpecCompare {
    pub op: CompareOp,
    pub value: SpecCompareValue,
}

pub struct SpecCondition {
    pub path: Seq<Seq<char>>,
    pub compare: Option<SpecCompare>,
}

pub enum SpecTransform {
    Xor(Seq<u8>),
    RollingXor { seed: u8, mul: u8, add: u8 },
    Add(i64),
    Base64,
    ZlibInflate,
    Inflate,
    Gunzip,
}

pub enum SpecMatchKey {
    Int(i64),
    Str(Seq<char>),
}

pub enum SpecExpr {
    Int(i64),
    Field(Seq<Seq<char>>),
    Binary { op: BinOp, lhs: Box<SpecExpr>, rhs: Box<SpecExpr> },
}

pub enum SpecTypeExpr {
    Prim(Prim),
    Varint { signed: bool },
    Char,
    Str(SpecLen),
    CStr,
    Bytes(SpecLen),
    Named(Seq<char>),
    Array { elem: Box<SpecTypeExpr>, len: SpecLen },
    Match { discriminant: Seq<Seq<char>>, arms: Seq<SpecMatchArm>, default: Option<Box<SpecTypeExpr>> },
    Repeat { elem: Box<SpecTypeExpr>, until: Option<SpecCondition> },
    Computed(Box<SpecExpr>),
}

pub struct SpecMatchArm {
    pub key: SpecMatchKey,
    pub ty: SpecTypeExpr,
}

pub struct SpecDecode {
    pub transform: SpecTransform,
    pub as_type: Option<Box<SpecTypeExpr>>,
}

pub struct SpecField {
    pub name: Seq<char>,
    pub ty: SpecTypeExpr,
    pub pointer: Option<SpecPointer>,
    pub condition: Option<SpecCondition>,
    pub decode: Option<SpecDecode>,
    pub desc: Option<Seq<char>>,
}

pub struct SpecStructDef {
    pub name: Seq<char>,
    pub fields: Seq<SpecField>,
}

pub struct SpecEnumVariant {
    pub name: Seq<char>,
    pub value: i64,
}

pub struct SpecEnumDef {
    pub name: Seq<char>,
    pub repr: Prim,
    pub variants: Seq<SpecEnumVariant>,
}

pub struct SpecBitMember {
    pub name: Seq<char>,
    pub lo: u8,
    pub hi: u8,
}

pub struct SpecBitfieldDef {
    pub name: Seq<char>,
    pub repr: Prim,
    pub members: Seq<SpecBitMember>,
}

pub struct SpecSchema {
    pub structs: Seq<SpecStructDef>,
    pub enums: Seq<SpecEnumDef>,
    pub bitfields: Seq<SpecBitfieldDef>,
}

pub open spec fn path_view(p: Seq<String>) -> Seq<Seq<char>> {
    p.map_values(|s: String| s@)
}

pub open spec fn len_view(l: Len) -> SpecLen {
    match l {
        Len::Fixed(n) => SpecLen::Fixed(n),
        Len::Field(f) => SpecLen::Field(f@),
        Len::Rest => SpecLen::Rest,
    }
}

pub open spec fn pointer_view(p: Pointer) -> SpecPointer {
    SpecPointer { offset: len_view(p.offset), relative: p.relative }
}

pub open spec fn compare_view(c: Compare) -> SpecCompare {
    SpecCompare {
        op: c.op,
        value: match c.value {
            CompareValue::Int(n) => SpecCompareValue::Int(n),
            CompareValue::Str(s) => SpecCompareValue::Str(s@),
        },
    }
}

pub open spec fn condition_view(c: Condition) -> SpecCondition {
    SpecCondition {
        path: path_view(c.path@),
        compare: match c.compare {
            Some(k) => Some(compare_view(k)),
            None => None,
        },
    }
}

pub open spec fn transform_view(t: Transform) -> SpecTransform {
    match t {
        Transform::Xor(k) => SpecTransform::Xor(k@),
        Transform::RollingXor { seed, mul, add } => SpecTransform::RollingXor { seed, mul, add },
        Transform::Add(n) => SpecTransform::Add(n),
        Transform::Base64 => SpecTransform::Base64,
        Transform::ZlibInflate => SpecTransform::ZlibInflate,
        Transform::Inflate => SpecTransform::Inflate,
        Transform::Gunzip => SpecTransform::Gunzip,
    }
}

pub open spec fn key_view(k: MatchKey) -> SpecMatchKey {
    match k {
        MatchKey::Int(n) => SpecMatchKey::Int(n),
        MatchKey::Str(s) => SpecMatchKey::Str(s@),
    }
}

pub open spec fn expr_view(e: Expr) -> SpecExpr
    decreases e,
{
    match e {
        Expr::Int(n) => SpecExpr::Int(n),
        Expr::Field(p) => SpecExpr::Field(path_view(p@)),
        Expr::Binary { op, lhs, rhs } => SpecExpr::Binary {
            op,
            lhs: Box::new(expr_view(*lhs)),
            rhs: Box::new(expr_view(*rhs)),
        },
    }
}

pub open spec fn type_view(t: TypeExpr) -> SpecTypeExpr
    decreases t, 0nat,
{
    match t {
        TypeExpr::Prim(p) => SpecTypeExpr::Prim(p),
        TypeExpr::Varint { signed } => SpecTypeExpr::Varint { signed },
        TypeExpr::Char => SpecTypeExpr::Char,
        TypeExpr::Str(l) => SpecTypeExpr::Str(len_view(l)),
        TypeExpr::CStr => SpecTypeExpr::CStr,
        TypeExpr::Bytes(l) => SpecTypeExpr::Bytes(len_view(l)),
        TypeExpr::Named(n) => SpecTypeExpr::Named(n@),
        TypeExpr::Array { elem, len } => SpecTypeExpr::Array {
            elem: Box::new(type_view(*elem)),
            len: len_view(len),
        },
        TypeExpr::Match { discriminant, arms, default } => SpecTypeExpr::Match {
            discriminant: path_view(discriminant@),
            arms: arms_view(arms@),
            default: match default {
                Some(d) => Some(Box::new(type_view(*d))),
                None => None,
            },
        },
        TypeExpr::Repeat { elem, until } => SpecTypeExpr::Repeat {
            elem: Box::new(type_view(*elem)),
            until: match until {
                Some(c) => Some(condition_view(c)),
                None => None,
            },
        },
        TypeExpr::Computed(e) => SpecTypeExpr::Computed(Box::new(expr_view(*e))),
    }
}

pub open spec fn arms_view(arms: Seq<MatchArm>) -> Seq<SpecMatchArm>
    decreases arms, arms.len(),
{
    if arms.len() == 0 {
        Seq::empty()
    } else {
        arms_view(arms.drop_last()).push(
            SpecMatchArm { key: key_view(arms.last().key), ty: type_view(arms.last().ty) },
        )
    }
}

pub open spec fn decode_view(d: Decode) -> SpecDecode {
    SpecDecode {
        transform: transform_view(d.transform),
        as_type: match d.as_type {
            Some(t) => Some(Box::new(type_view(*t))),
            None => None,
        },
    }
}

pub open spec fn field_view(f: Field) -> SpecField {
    SpecField {
        name: f.name@,
        ty: type_view(f.ty),
        pointer: match f.pointer {
            Some(p) => Some(pointer_view(p)),
            None => None,
        },
        condition: match f.condition {
            Some(c) => Some(condition_view(c)),
            None => None,
        },
        decode: match f.decode {
            Some(d) => Some(decode_view(d)),
            None => None,
        },
        desc: match f.desc {
            Some(d) => Some(d@),
            None => None,
        },
    }
}

pub open spec fn struct_view(d: StructDef) -> SpecStructDef {
    SpecStructDef { name: d.name@, fields: d.fields@.map_values(|f: Field| field_view(f)) }
}

pub open spec fn enum_view(d: EnumDef) -> SpecEnumDef {
    SpecEnumDef {
        name: d.name@,
        repr: d.repr,
        variants: d.variants@.map_values(|v: EnumVariant| SpecEnumVariant { name: v.name@, value: v.value }),
    }
}

pub open spec fn bitfield_view(d: BitfieldDef) -> SpecBitfieldDef {
    SpecBitfieldDef {
        name: d.name@,
        repr: d.repr,
        members: d.members@.map_values(|m: BitMember| SpecBitMember { name: m.name@, lo: m.lo, hi: m.hi }),
    }
}

pub open spec fn schema_view(s: Schema) -> SpecSchema {
    SpecSchema {
        structs: s.structs@.map_values(|d: StructDef| struct_view(d)),
        enums: s.enums@.map_values(|d: EnumDef| enum_view(d)),
        bitfields: s.bitfields@.map_values(|d: BitfieldDef| bitfield_view(d)),
    }
}

} // verus!
