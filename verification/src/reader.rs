//! Endian-aware, random-access reader over a byte buffer.
//!
//! The reader pulls typed values out of a byte source and nothing else. Two
//! styles of access are provided: cursor style (`read_u8`, `seek`, `position`)
//! that advances an internal position, and random access (`read_u32_le_at`,
//! `read_bytes_at`) that takes an explicit offset and leaves the cursor alone.
use vstd::prelude::*;
use vstd::utf8::{valid_utf8, decode_utf8};

use crate::text::{decimal, push_decimal};

verus! {

/// Byte order for multi-byte reads.
#[derive(Debug, Clone, Copy, PartialEq, Eq, Structural)]
pub enum Endian {
    Little,
    Big,
}

/// Text encoding understood by [`BinaryReader::read_string`].
#[derive(Debug, Clone, Copy, PartialEq, Eq, Structural)]
pub enum Encoding {
    /// Bytes 0x00-0x7F map directly to chars; anything else is an error.
    Ascii,
    Utf8,
    Utf16Le,
    Utf16Be,
}

/// Errors produced by the reader.
#[derive(Debug, Clone, Copy, PartialEq, Eq, Structural)]
pub enum ReadError {
    /// `requested` bytes at `offset` do not fit in a source of `len` bytes.
    OutOfBounds { offset: usize, requested: usize, len: usize },
    /// The bytes at `offset` are not valid text in `encoding`.
    InvalidText { offset: usize, encoding: Encoding },
}

/// The name `{:?}` gives an encoding.
pub open spec fn encoding_name(e: Encoding) -> Seq<char> {
    match e {
        Encoding::Ascii => "Ascii"@,
        Encoding::Utf8 => "Utf8"@,
        Encoding::Utf16Le => "Utf16Le"@,
        Encoding::Utf16Be => "Utf16Be"@,
    }
}

/// The text of a read error.
pub open spec fn read_error_message(e: ReadError) -> Seq<char> {
    match e {
        ReadError::OutOfBounds { offset, requested, len } => "out of bounds: requested "@ + decimal(
            requested as nat,
        ) + " byte(s) at offset "@ + decimal(offset as nat) + ", but source is "@ + decimal(len as nat)
            + " byte(s)"@,
        ReadError::InvalidText { offset, encoding } => "invalid "@ + encoding_name(encoding) + " text at offset "@
            + decimal(offset as nat),
    }
}

impl ReadError {
    /// The error's text, e.g. `out of bounds: requested 4 byte(s) at offset
    /// 10, but source is 12 byte(s)`.
    pub fn message(&self) -> (s: String)
        ensures
            s@ == read_error_message(*self),
    {
        let mut s = String::new();
        match *self {
            ReadError::OutOfBounds { offset, requested, len } => {
                s.append("out of bounds: requested ");
                push_decimal(&mut s, requested as u64);
                s.append(" byte(s) at offset ");
                push_decimal(&mut s, offset as u64);
                s.append(", but source is ");
                push_decimal(&mut s, len as u64);
                s.append(" byte(s)");
            },
            ReadError::InvalidText { offset, encoding } => {
                s.append("invalid ");
                match encoding {
                    Encoding::Ascii => s.append("Ascii"),
                    Encoding::Utf8 => s.append("Utf8"),
                    Encoding::Utf16Le => s.append("Utf16Le"),
                    Encoding::Utf16Be => s.append("Utf16Be"),
                }
                s.append(" text at offset ");
                push_decimal(&mut s, offset as u64);
            },
        }
        assert(s@ =~= read_error_message(*self));
        s
    }
}

/// `256^n`: one more than the largest value `n` bytes can hold.
pub open spec fn byte_bound(n: nat) -> nat
    decreases n,
{
    if n == 0 {
        1
    } else {
        256 * byte_bound((n - 1) as nat)
    }
}

/// The unsigned value of `s` read least-significant byte first.
pub open spec fn le_value(s: Seq<u8>) -> nat
    decreases s.len(),
{
    if s.len() == 0 {
        0
    } else {
        s[0] as nat + 256 * le_value(s.drop_first())
    }
}

/// The unsigned value of `s` read most-significant byte first.
pub open spec fn be_value(s: Seq<u8>) -> nat
    decreases s.len(),
{
    if s.len() == 0 {
        0
    } else {
        be_value(s.drop_last()) * 256 + s.last() as nat
    }
}

/// The unsigned value of `s` in the byte order `endian`.
pub open spec fn endian_value(s: Seq<u8>, endian: Endian) -> nat {
    match endian {
        Endian::Little => le_value(s),
        Endian::Big => be_value(s),
    }
}

pub proof fn lemma_byte_bound_values()
    ensures
        byte_bound(1) == 256,
        byte_bound(2) == 0x1_0000,
        byte_bound(4) == 0x1_0000_0000,
        byte_bound(8) == 0x1_0000_0000_0000_0000,
{
    reveal_with_fuel(byte_bound, 9);
}

pub proof fn lemma_byte_bound_mono(a: nat, b: nat)
    requires
        a <= b,
    ensures
        byte_bound(a) <= byte_bound(b),
    decreases b,
{
    if a < b {
        lemma_byte_bound_mono(a, (b - 1) as nat);
    }
}

/// Read `s` (at most 8 bytes) as an unsigned little-endian integer.
pub fn decode_le(s: &[u8]) -> (v: u64)
    requires
        s@.len() <= 8,
    ensures
        v == le_value(s@),
        (v as nat) < byte_bound(s@.len()),
{
    let n = s.len();
    let mut v: u64 = 0;
    let mut i: usize = n;
    proof {
        assert(s@.subrange(n as int, n as int) =~= Seq::<u8>::empty());
    }
    while i > 0
        invariant
            i <= n,
            n == s@.len(),
            n <= 8,
            v == le_value(s@.subrange(i as int, n as int)),
            (v as nat) < byte_bound((n - i) as nat),
        decreases i,
    {
        i -= 1;
        proof {
            let t = s@.subrange(i as int, n as int);
            assert(t.drop_first() =~= s@.subrange(i + 1, n as int));
            lemma_byte_bound_values();
            lemma_byte_bound_mono((n - i - 1) as nat, 7);
            assert(v * 256 + s@[i as int] < byte_bound((n - i) as nat)) by (nonlinear_arith)
                requires
                    (v as nat) < byte_bound((n - i - 1) as nat),
                    byte_bound((n - i) as nat) == 256 * byte_bound((n - i - 1) as nat),
                    s@[i as int] < 256,
            ;
            assert(byte_bound(7) * 256 == byte_bound(8));
        }
        v = v * 256 + s[i] as u64;
    }
    proof {
        assert(s@.subrange(0, n as int) =~= s@);
    }
    v
}

/// Read `s` (at most 8 bytes) as an unsigned big-endian integer.
pub fn decode_be(s: &[u8]) -> (v: u64)
    requires
        s@.len() <= 8,
    ensures
        v == be_value(s@),
        (v as nat) < byte_bound(s@.len()),
{
    let n = s.len();
    let mut v: u64 = 0;
    let mut i: usize = 0;
    proof {
        assert(s@.subrange(0, 0) =~= Seq::<u8>::empty());
    }
    while i < n
        invariant
            i <= n,
            n == s@.len(),
            n <= 8,
            v == be_value(s@.subrange(0, i as int)),
            (v as nat) < byte_bound(i as nat),
        decreases n - i,
    {
        proof {
            let t = s@.subrange(0, i + 1);
            assert(t.drop_last() =~= s@.subrange(0, i as int));
            lemma_byte_bound_values();
            lemma_byte_bound_mono(i as nat, 7);
            assert(v * 256 + s@[i as int] < byte_bound((i + 1) as nat)) by (nonlinear_arith)
                requires
                    (v as nat) < byte_bound(i as nat),
                    byte_bound((i + 1) as nat) == 256 * byte_bound(i as nat),
                    s@[i as int] < 256,
            ;
            assert(byte_bound(7) * 256 == byte_bound(8));
        }
        v = v * 256 + s[i] as u64;
        i += 1;
    }
    proof {
        assert(s@.subrange(0, n as int) =~= s@);
    }
    v
}

/// Read `s` (at most 8 bytes) as an unsigned integer in the byte order `endian`.
pub fn decode_uint(s: &[u8], endian: Endian) -> (v: u64)
    requires
        s@.len() <= 8,
    ensures
        v == endian_value(s@, endian),
        (v as nat) < byte_bound(s@.len()),
{
    match endian {
        Endian::Little => decode_le(s),
        Endian::Big => decode_be(s),
    }
}

/// Whether every byte of `s` is ASCII (below 0x80).
pub open spec fn all_ascii(s: Seq<u8>) -> bool {
    forall|i: int| 0 <= i < s.len() ==> s[i] < 0x80
}

/// Bytes as characters, one character per byte (the Latin-1 reading).
pub open spec fn bytes_as_chars(s: Seq<u8>) -> Seq<char> {
    s.map_values(|b: u8| b as char)
}

/// 16-bit code units of `s` taken pairwise in the byte order `endian`.
pub open spec fn utf16_units(s: Seq<u8>, endian: Endian) -> Seq<u16> {
    Seq::new(
        s.len() / 2,
        |k: int| endian_value(s.subrange(2 * k, 2 * k + 2), endian) as u16,
    )
}

/// The characters a UTF-16 unit sequence encodes, or `None` if it has an
/// unpaired surrogate.
pub open spec fn decode_utf16(u: Seq<u16>) -> Option<Seq<char>>
    decreases u.len(),
{
    if u.len() == 0 {
        Some(Seq::empty())
    } else if u[0] < 0xD800 || u[0] > 0xDFFF {
        match decode_utf16(u.drop_first()) {
            Some(rest) => Some(seq![u[0] as char] + rest),
            None => None,
        }
    } else if u[0] <= 0xDBFF && u.len() >= 2 && 0xDC00 <= u[1] <= 0xDFFF {
        let c = 0x10000 + (u[0] - 0xD800) * 0x400 + (u[1] - 0xDC00);
        match decode_utf16(u.subrange(2, u.len() as int)) {
            Some(rest) => Some(seq![c as char] + rest),
            None => None,
        }
    } else {
        None
    }
}

/// Decode UTF-8 (`String::from_utf8`): `Some` exactly when the bytes are valid
/// UTF-8, holding the characters they encode.
#[verifier::external_body]
pub(crate) fn utf8_string(bytes: &[u8]) -> (r: Option<String>)
    ensures
        r is Some <==> valid_utf8(bytes@),
        r matches Some(s) ==> s@ == decode_utf8(bytes@),
{
    String::from_utf8(bytes.to_vec()).ok()
}

/// Decode UTF-16 (`String::from_utf16`): `Some` exactly when the units contain
/// no unpaired surrogate, holding the characters they encode.
#[verifier::external_body]
pub(crate) fn utf16_string(units: &[u16]) -> (r: Option<String>)
    ensures
        match decode_utf16(units@) {
            Some(cs) => r matches Some(s) && s@ == cs,
            None => r is None,
        },
{
    String::from_utf16(units).ok()
}


/// The unsigned integer held by the `n` bytes at `offset` of `data` in the
/// byte order `endian`, or the out-of-bounds error reading them reports.
pub open spec fn uint_at(data: Seq<u8>, offset: usize, n: usize, endian: Endian) -> Result<nat, ReadError> {
    if offset + n > data.len() {
        Err(ReadError::OutOfBounds { offset, requested: n, len: data.len() as usize })
    } else {
        Ok(endian_value(data.subrange(offset as int, offset + n), endian))
    }
}

/// A cursor-based reader over an owned byte buffer.
pub struct BinaryReader {
    source: Vec<u8>,
    pos: usize,
}

impl View for BinaryReader {
    type V = (Seq<u8>, nat);

    /// The bytes read and the cursor position.
    closed spec fn view(&self) -> (Seq<u8>, nat) {
        (self.source@, self.pos as nat)
    }
}

impl BinaryReader {
    /// The bytes of the source.
    pub open spec fn data(&self) -> Seq<u8> {
        self@.0
    }

    /// The cursor position.
    pub open spec fn pos(&self) -> nat {
        self@.1
    }

    pub closed spec fn wf(&self) -> bool {
        self.pos <= self.source@.len()
    }

    /// Build a reader over an in-memory buffer, cursor at 0.
    pub fn from_bytes(bytes: Vec<u8>) -> (r: Self)
        ensures
            r.data() == bytes@,
            r.pos() == 0,
            r.wf(),
    {
        BinaryReader { source: bytes, pos: 0 }
    }


    /// The unsigned integer of `n` (at most 8) bytes at `offset`.
    pub fn read_uint_at(&self, offset: usize, n: usize, endian: Endian) -> (r: Result<u64, ReadError>)
        requires
            n <= 8,
        ensures
            match r {
                Ok(v) => uint_at(self.data(), offset, n, endian) == Ok::<nat, ReadError>(v as nat)
                    && (v as nat) < byte_bound(n as nat),
                Err(e) => uint_at(self.data(), offset, n, endian) == Err::<nat, ReadError>(e),
            },
    {
        match self.read_bytes_at(offset, n) {
            Ok(b) => Ok(decode_uint(b, endian)),
            Err(e) => Err(e),
        }
    }

    /// Read a `u8` at an absolute offset.
    pub fn read_u8_at(&self, offset: usize) -> (r: Result<u8, ReadError>)
        ensures
            offset < self.data().len() ==> r == Ok::<u8, ReadError>(self.data()[offset as int]),
            offset >= self.data().len() ==> r == Err::<u8, ReadError>(
                ReadError::OutOfBounds { offset, requested: 1, len: self.data().len() as usize },
            ),
    {
        let n = self.source.len();
        if offset >= n {
            return Err(ReadError::OutOfBounds { offset, requested: 1, len: n });
        }
        Ok(self.source[offset])
    }

    /// Read an `i8` at an absolute offset.
    pub fn read_i8_at(&self, offset: usize) -> (r: Result<i8, ReadError>)
        ensures
            offset < self.data().len() ==> r == Ok::<i8, ReadError>(self.data()[offset as int] as i8),
            offset >= self.data().len() ==> r == Err::<i8, ReadError>(
                ReadError::OutOfBounds { offset, requested: 1, len: self.data().len() as usize },
            ),
    {
        match self.read_u8_at(offset) {
            Ok(b) => Ok(b as i8),
            Err(e) => Err(e),
        }
    }

    /// Read a `u8` at the cursor, advancing it.
    pub fn read_u8(&mut self) -> (r: Result<u8, ReadError>)
        requires
            old(self).wf(),
        ensures
            final(self).wf(),
            final(self).data() == old(self).data(),
            r == old(self).read_u8_at_spec(),
            final(self).pos() == if r is Ok { old(self).pos() + 1 } else { old(self).pos() },
    {
        let n = self.source.len();
        let r = self.read_u8_at(self.pos);
        if r.is_ok() {
            assert(self.pos + 1 <= n);
            self.pos = self.pos + 1;
        }
        r
    }

    /// Read an `i8` at the cursor, advancing it.
    pub fn read_i8(&mut self) -> (r: Result<i8, ReadError>)
        requires
            old(self).wf(),
        ensures
            final(self).wf(),
            final(self).data() == old(self).data(),
            r == (match old(self).read_u8_at_spec() {
                Ok(b) => Ok(b as i8),
                Err(e) => Err(e),
            }),
            final(self).pos() == if r is Ok { old(self).pos() + 1 } else { old(self).pos() },
    {
        let n = self.source.len();
        let r = self.read_i8_at(self.pos);
        if r.is_ok() {
            assert(self.pos + 1 <= n);
            self.pos = self.pos + 1;
        }
        r
    }

    /// What reading one byte at the cursor gives.
    pub open spec fn read_u8_at_spec(&self) -> Result<u8, ReadError> {
        if self.pos() < self.data().len() {
            Ok(self.data()[self.pos() as int])
        } else {
            Err(ReadError::OutOfBounds { offset: self.pos() as usize, requested: 1, len: self.data().len() as usize })
        }
    }

    /// Read a little-endian `u16` at an absolute offset.
    pub fn read_u16_le_at(&self, offset: usize) -> (r: Result<u16, ReadError>)
        ensures
            match r {
                Ok(v) => uint_at(self.data(), offset, 2, Endian::Little) == Ok::<nat, ReadError>(v as nat),
                Err(e) => uint_at(self.data(), offset, 2, Endian::Little) == Err::<nat, ReadError>(e),
            },
    {
        match self.read_uint_at(offset, 2, Endian::Little) {
            Ok(v) => {
                proof {
                    lemma_byte_bound_values();
                }
                Ok(v as u16)
            },
            Err(e) => Err(e),
        }
    }

    /// Read a little-endian `u16` at the cursor, advancing it.
    pub fn read_u16_le(&mut self) -> (r: Result<u16, ReadError>)
        requires
            old(self).wf(),
        ensures
            final(self).wf(),
            final(self).data() == old(self).data(),
            match r {
                Ok(v) => uint_at(old(self).data(), old(self).pos() as usize, 2, Endian::Little) == Ok::<nat, ReadError>(v as nat) && final(self).pos() == old(self).pos() + 2,
                Err(e) => uint_at(old(self).data(), old(self).pos() as usize, 2, Endian::Little) == Err::<nat, ReadError>(e)
                    && final(self).pos() == old(self).pos(),
            },
    {
        let n = self.source.len();
        let r = self.read_u16_le_at(self.pos);
        if r.is_ok() {
            assert(self.pos + 2 <= n);
            self.pos = self.pos + 2;
        }
        r
    }

    /// Read a big-endian `u16` at an absolute offset.
    pub fn read_u16_be_at(&self, offset: usize) -> (r: Result<u16, ReadError>)
        ensures
            match r {
                Ok(v) => uint_at(self.data(), offset, 2, Endian::Big) == Ok::<nat, ReadError>(v as nat),
                Err(e) => uint_at(self.data(), offset, 2, Endian::Big) == Err::<nat, ReadError>(e),
            },
    {
        match self.read_uint_at(offset, 2, Endian::Big) {
            Ok(v) => {
                proof {
                    lemma_byte_bound_values();
                }
                Ok(v as u16)
            },
            Err(e) => Err(e),
        }
    }

    /// Read a big-endian `u16` at the cursor, advancing it.
    pub fn read_u16_be(&mut self) -> (r: Result<u16, ReadError>)
        requires
            old(self).wf(),
        ensures
            final(self).wf(),
            final(self).data() == old(self).data(),
            match r {
                Ok(v) => uint_at(old(self).data(), old(self).pos() as usize, 2, Endian::Big) == Ok::<nat, ReadError>(v as nat) && final(self).pos() == old(self).pos() + 2,
                Err(e) => uint_at(old(self).data(), old(self).pos() as usize, 2, Endian::Big) == Err::<nat, ReadError>(e)
                    && final(self).pos() == old(self).pos(),
            },
    {
        let n = self.source.len();
        let r = self.read_u16_be_at(self.pos);
        if r.is_ok() {
            assert(self.pos + 2 <= n);
            self.pos = self.pos + 2;
        }
        r
    }

    /// Read a little-endian `u32` at an absolute offset.
    pub fn read_u32_le_at(&self, offset: usize) -> (r: Result<u32, ReadError>)
        ensures
            match r {
                Ok(v) => uint_at(self.data(), offset, 4, Endian::Little) == Ok::<nat, ReadError>(v as nat),
                Err(e) => uint_at(self.data(), offset, 4, Endian::Little) == Err::<nat, ReadError>(e),
            },
    {
        match self.read_uint_at(offset, 4, Endian::Little) {
            Ok(v) => {
                proof {
                    lemma_byte_bound_values();
                }
                Ok(v as u32)
            },
            Err(e) => Err(e),
        }
    }

    /// Read a little-endian `u32` at the cursor, advancing it.
    pub fn read_u32_le(&mut self) -> (r: Result<u32, ReadError>)
        requires
            old(self).wf(),
        ensures
            final(self).wf(),
            final(self).data() == old(self).data(),
            match r {
                Ok(v) => uint_at(old(self).data(), old(self).pos() as usize, 4, Endian::Little) == Ok::<nat, ReadError>(v as nat) && final(self).pos() == old(self).pos() + 4,
                Err(e) => uint_at(old(self).data(), old(self).pos() as usize, 4, Endian::Little) == Err::<nat, ReadError>(e)
                    && final(self).pos() == old(self).pos(),
            },
    {
        let n = self.source.len();
        let r = self.read_u32_le_at(self.pos);
        if r.is_ok() {
            assert(self.pos + 4 <= n);
            self.pos = self.pos + 4;
        }
        r
    }

    /// Read a big-endian `u32` at an absolute offset.
    pub fn read_u32_be_at(&self, offset: usize) -> (r: Result<u32, ReadError>)
        ensures
            match r {
                Ok(v) => uint_at(self.data(), offset, 4, Endian::Big) == Ok::<nat, ReadError>(v as nat),
                Err(e) => uint_at(self.data(), offset, 4, Endian::Big) == Err::<nat, ReadError>(e),
            },
    {
        match self.read_uint_at(offset, 4, Endian::Big) {
            Ok(v) => {
                proof {
                    lemma_byte_bound_values();
                }
                Ok(v as u32)
            },
            Err(e) => Err(e),
        }
    }

    /// Read a big-endian `u32` at the cursor, advancing it.
    pub fn read_u32_be(&mut self) -> (r: Result<u32, ReadError>)
        requires
            old(self).wf(),
        ensures
            final(self).wf(),
            final(self).data() == old(self).data(),
            match r {
                Ok(v) => uint_at(old(self).data(), old(self).pos() as usize, 4, Endian::Big) == Ok::<nat, ReadError>(v as nat) && final(self).pos() == old(self).pos() + 4,
                Err(e) => uint_at(old(self).data(), old(self).pos() as usize, 4, Endian::Big) == Err::<nat, ReadError>(e)
                    && final(self).pos() == old(self).pos(),
            },
    {
        let n = self.source.len();
        let r = self.read_u32_be_at(self.pos);
        if r.is_ok() {
            assert(self.pos + 4 <= n);
            self.pos = self.pos + 4;
        }
        r
    }

    /// Read a little-endian `u64` at an absolute offset.
    pub fn read_u64_le_at(&self, offset: usize) -> (r: Result<u64, ReadError>)
        ensures
            match r {
                Ok(v) => uint_at(self.data(), offset, 8, Endian::Little) == Ok::<nat, ReadError>(v as nat),
                Err(e) => uint_at(self.data(), offset, 8, Endian::Little) == Err::<nat, ReadError>(e),
            },
    {
        match self.read_uint_at(offset, 8, Endian::Little) {
            Ok(v) => {
                proof {
                    lemma_byte_bound_values();
                }
                Ok(v as u64)
            },
            Err(e) => Err(e),
        }
    }

    /// Read a little-endian `u64` at the cursor, advancing it.
    pub fn read_u64_le(&mut self) -> (r: Result<u64, ReadError>)
        requires
            old(self).wf(),
        ensures
            final(self).wf(),
            final(self).data() == old(self).data(),
            match r {
                Ok(v) => uint_at(old(self).data(), old(self).pos() as usize, 8, Endian::Little) == Ok::<nat, ReadError>(v as nat) && final(self).pos() == old(self).pos() + 8,
                Err(e) => uint_at(old(self).data(), old(self).pos() as usize, 8, Endian::Little) == Err::<nat, ReadError>(e)
                    && final(self).pos() == old(self).pos(),
            },
    {
        let n = self.source.len();
        let r = self.read_u64_le_at(self.pos);
        if r.is_ok() {
            assert(self.pos + 8 <= n);
            self.pos = self.pos + 8;
        }
        r
    }

    /// Read a big-endian `u64` at an absolute offset.
    pub fn read_u64_be_at(&self, offset: usize) -> (r: Result<u64, ReadError>)
        ensures
            match r {
                Ok(v) => uint_at(self.data(), offset, 8, Endian::Big) == Ok::<nat, ReadError>(v as nat),
                Err(e) => uint_at(self.data(), offset, 8, Endian::Big) == Err::<nat, ReadError>(e),
            },
    {
        match self.read_uint_at(offset, 8, Endian::Big) {
            Ok(v) => {
                proof {
                    lemma_byte_bound_values();
                }
                Ok(v as u64)
            },
            Err(e) => Err(e),
        }
    }

    /// Read a big-endian `u64` at the cursor, advancing it.
    pub fn read_u64_be(&mut self) -> (r: Result<u64, ReadError>)
        requires
            old(self).wf(),
        ensures
            final(self).wf(),
            final(self).data() == old(self).data(),
            match r {
                Ok(v) => uint_at(old(self).data(), old(self).pos() as usize, 8, Endian::Big) == Ok::<nat, ReadError>(v as nat) && final(self).pos() == old(self).pos() + 8,
                Err(e) => uint_at(old(self).data(), old(self).pos() as usize, 8, Endian::Big) == Err::<nat, ReadError>(e)
                    && final(self).pos() == old(self).pos(),
            },
    {
        let n = self.source.len();
        let r = self.read_u64_be_at(self.pos);
        if r.is_ok() {
            assert(self.pos + 8 <= n);
            self.pos = self.pos + 8;
        }
        r
    }

    /// Read a little-endian `i16` at an absolute offset.
    pub fn read_i16_le_at(&self, offset: usize) -> (r: Result<i16, ReadError>)
        ensures
            match r {
                Ok(v) => (uint_at(self.data(), offset, 2, Endian::Little) matches Ok(x) && v == x as i16),
                Err(e) => uint_at(self.data(), offset, 2, Endian::Little) == Err::<nat, ReadError>(e),
            },
    {
        match self.read_uint_at(offset, 2, Endian::Little) {
            Ok(v) => {
                proof {
                    lemma_byte_bound_values();
                }
                Ok(v as u16 as i16)
            },
            Err(e) => Err(e),
        }
    }

    /// Read a little-endian `i16` at the cursor, advancing it.
    pub fn read_i16_le(&mut self) -> (r: Result<i16, ReadError>)
        requires
            old(self).wf(),
        ensures
            final(self).wf(),
            final(self).data() == old(self).data(),
            match r {
                Ok(v) => (uint_at(old(self).data(), old(self).pos() as usize, 2, Endian::Little) matches Ok(x) && v == x as i16) && final(self).pos() == old(self).pos() + 2,
                Err(e) => uint_at(old(self).data(), old(self).pos() as usize, 2, Endian::Little) == Err::<nat, ReadError>(e)
                    && final(self).pos() == old(self).pos(),
            },
    {
        let n = self.source.len();
        let r = self.read_i16_le_at(self.pos);
        if r.is_ok() {
            assert(self.pos + 2 <= n);
            self.pos = self.pos + 2;
        }
        r
    }

    /// Read a big-endian `i16` at an absolute offset.
    pub fn read_i16_be_at(&self, offset: usize) -> (r: Result<i16, ReadError>)
        ensures
            match r {
                Ok(v) => (uint_at(self.data(), offset, 2, Endian::Big) matches Ok(x) && v == x as i16),
                Err(e) => uint_at(self.data(), offset, 2, Endian::Big) == Err::<nat, ReadError>(e),
            },
    {
        match self.read_uint_at(offset, 2, Endian::Big) {
            Ok(v) => {
                proof {
                    lemma_byte_bound_values();
                }
                Ok(v as u16 as i16)
            },
            Err(e) => Err(e),
        }
    }

    /// Read a big-endian `i16` at the cursor, advancing it.
    pub fn read_i16_be(&mut self) -> (r: Result<i16, ReadError>)
        requires
            old(self).wf(),
        ensures
            final(self).wf(),
            final(self).data() == old(self).data(),
            match r {
                Ok(v) => (uint_at(old(self).data(), old(self).pos() as usize, 2, Endian::Big) matches Ok(x) && v == x as i16) && final(self).pos() == old(self).pos() + 2,
                Err(e) => uint_at(old(self).data(), old(self).pos() as usize, 2, Endian::Big) == Err::<nat, ReadError>(e)
                    && final(self).pos() == old(self).pos(),
            },
    {
        let n = self.source.len();
        let r = self.read_i16_be_at(self.pos);
        if r.is_ok() {
            assert(self.pos + 2 <= n);
            self.pos = self.pos + 2;
        }
        r
    }

    /// Read a little-endian `i32` at an absolute offset.
    pub fn read_i32_le_at(&self, offset: usize) -> (r: Result<i32, ReadError>)
        ensures
            match r {
                Ok(v) => (uint_at(self.data(), offset, 4, Endian::Little) matches Ok(x) && v == x as i32),
                Err(e) => uint_at(self.data(), offset, 4, Endian::Little) == Err::<nat, ReadError>(e),
            },
    {
        match self.read_uint_at(offset, 4, Endian::Little) {
            Ok(v) => {
                proof {
                    lemma_byte_bound_values();
                }
                Ok(v as u32 as i32)
            },
            Err(e) => Err(e),
        }
    }

    /// Read a little-endian `i32` at the cursor, advancing it.
    pub fn read_i32_le(&mut self) -> (r: Result<i32, ReadError>)
        requires
            old(self).wf(),
        ensures
            final(self).wf(),
            final(self).data() == old(self).data(),
            match r {
                Ok(v) => (uint_at(old(self).data(), old(self).pos() as usize, 4, Endian::Little) matches Ok(x) && v == x as i32) && final(self).pos() == old(self).pos() + 4,
                Err(e) => uint_at(old(self).data(), old(self).pos() as usize, 4, Endian::Little) == Err::<nat, ReadError>(e)
                    && final(self).pos() == old(self).pos(),
            },
    {
        let n = self.source.len();
        let r = self.read_i32_le_at(self.pos);
        if r.is_ok() {
            assert(self.pos + 4 <= n);
            self.pos = self.pos + 4;
        }
        r
    }

    /// Read a big-endian `i32` at an absolute offset.
    pub fn read_i32_be_at(&self, offset: usize) -> (r: Result<i32, ReadError>)
        ensures
            match r {
                Ok(v) => (uint_at(self.data(), offset, 4, Endian::Big) matches Ok(x) && v == x as i32),
                Err(e) => uint_at(self.data(), offset, 4, Endian::Big) == Err::<nat, ReadError>(e),
            },
    {
        match self.read_uint_at(offset, 4, Endian::Big) {
            Ok(v) => {
                proof {
                    lemma_byte_bound_values();
                }
                Ok(v as u32 as i32)
            },
            Err(e) => Err(e),
        }
    }

    /// Read a big-endian `i32` at the cursor, advancing it.
    pub fn read_i32_be(&mut self) -> (r: Result<i32, ReadError>)
        requires
            old(self).wf(),
        ensures
            final(self).wf(),
            final(self).data() == old(self).data(),
            match r {
                Ok(v) => (uint_at(old(self).data(), old(self).pos() as usize, 4, Endian::Big) matches Ok(x) && v == x as i32) && final(self).pos() == old(self).pos() + 4,
                Err(e) => uint_at(old(self).data(), old(self).pos() as usize, 4, Endian::Big) == Err::<nat, ReadError>(e)
                    && final(self).pos() == old(self).pos(),
            },
    {
        let n = self.source.len();
        let r = self.read_i32_be_at(self.pos);
        if r.is_ok() {
            assert(self.pos + 4 <= n);
            self.pos = self.pos + 4;
        }
        r
    }

    /// Read a little-endian `i64` at an absolute offset.
    pub fn read_i64_le_at(&self, offset: usize) -> (r: Result<i64, ReadError>)
        ensures
            match r {
                Ok(v) => (uint_at(self.data(), offset, 8, Endian::Little) matches Ok(x) && v == x as i64),
                Err(e) => uint_at(self.data(), offset, 8, Endian::Little) == Err::<nat, ReadError>(e),
            },
    {
        match self.read_uint_at(offset, 8, Endian::Little) {
            Ok(v) => {
                proof {
                    lemma_byte_bound_values();
                }
                Ok(v as u64 as i64)
            },
            Err(e) => Err(e),
        }
    }

    /// Read a little-endian `i64` at the cursor, advancing it.
    pub fn read_i64_le(&mut self) -> (r: Result<i64, ReadError>)
        requires
            old(self).wf(),
        ensures
            final(self).wf(),
            final(self).data() == old(self).data(),
            match r {
                Ok(v) => (uint_at(old(self).data(), old(self).pos() as usize, 8, Endian::Little) matches Ok(x) && v == x as i64) && final(self).pos() == old(self).pos() + 8,
                Err(e) => uint_at(old(self).data(), old(self).pos() as usize, 8, Endian::Little) == Err::<nat, ReadError>(e)
                    && final(self).pos() == old(self).pos(),
            },
    {
        let n = self.source.len();
        let r = self.read_i64_le_at(self.pos);
        if r.is_ok() {
            assert(self.pos + 8 <= n);
            self.pos = self.pos + 8;
        }
        r
    }

    /// Read a big-endian `i64` at an absolute offset.
    pub fn read_i64_be_at(&self, offset: usize) -> (r: Result<i64, ReadError>)
        ensures
            match r {
                Ok(v) => (uint_at(self.data(), offset, 8, Endian::Big) matches Ok(x) && v == x as i64),
                Err(e) => uint_at(self.data(), offset, 8, Endian::Big) == Err::<nat, ReadError>(e),
            },
    {
        match self.read_uint_at(offset, 8, Endian::Big) {
            Ok(v) => {
                proof {
                    lemma_byte_bound_values();
                }
                Ok(v as u64 as i64)
            },
            Err(e) => Err(e),
        }
    }

    /// Read a big-endian `i64` at the cursor, advancing it.
    pub fn read_i64_be(&mut self) -> (r: Result<i64, ReadError>)
        requires
            old(self).wf(),
        ensures
            final(self).wf(),
            final(self).data() == old(self).data(),
            match r {
                Ok(v) => (uint_at(old(self).data(), old(self).pos() as usize, 8, Endian::Big) matches Ok(x) && v == x as i64) && final(self).pos() == old(self).pos() + 8,
                Err(e) => uint_at(old(self).data(), old(self).pos() as usize, 8, Endian::Big) == Err::<nat, ReadError>(e)
                    && final(self).pos() == old(self).pos(),
            },
    {
        let n = self.source.len();
        let r = self.read_i64_be_at(self.pos);
        if r.is_ok() {
            assert(self.pos + 8 <= n);
            self.pos = self.pos + 8;
        }
        r
    }

    /// Borrow the whole source.
    pub fn as_slice(&self) -> (s: &[u8])
        ensures
            s@ == self.data(),
    {
        self.source.as_slice()
    }

    /// Total length of the source in bytes.
    pub fn len(&self) -> (n: usize)
        ensures
            n == self.data().len(),
    {
        self.source.len()
    }

    /// Whether the source is empty.
    pub fn is_empty(&self) -> (b: bool)
        ensures
            b == (self.data().len() == 0),
    {
        self.source.len() == 0
    }

    /// Current cursor position.
    pub fn position(&self) -> (p: usize)
        ensures
            p == self.pos(),
    {
        self.pos
    }

    /// Move the cursor to an absolute offset, which may equal `len()` (end of
    /// file) but not exceed it.
    pub fn seek(&mut self, offset: usize) -> (r: Result<(), ReadError>)
        requires
            old(self).wf(),
        ensures
            final(self).wf(),
            final(self).data() == old(self).data(),
            offset <= old(self).data().len() ==> r is Ok && final(self).pos() == offset,
            offset > old(self).data().len() ==> r == Err::<(), ReadError>(
                ReadError::OutOfBounds { offset, requested: 0, len: old(self).data().len() as usize },
            ) && final(self).pos() == old(self).pos(),
    {
        if offset > self.source.len() {
            return Err(ReadError::OutOfBounds { offset, requested: 0, len: self.source.len() });
        }
        self.pos = offset;
        Ok(())
    }

    /// Borrow `len` bytes at an absolute offset without moving the cursor.
    pub fn read_bytes_at(&self, offset: usize, len: usize) -> (r: Result<&[u8], ReadError>)
        ensures
            offset + len <= self.data().len() ==> (r matches Ok(b) && b@ == self.data().subrange(
                offset as int,
                offset + len,
            )),
            offset + len > self.data().len() ==> r == Err::<&[u8], ReadError>(
                ReadError::OutOfBounds { offset, requested: len, len: self.data().len() as usize },
            ),
    {
        let n = self.source.len();
        if offset > n || len > n - offset {
            return Err(ReadError::OutOfBounds { offset, requested: len, len: n });
        }
        Ok(vstd::slice::slice_subrange(self.source.as_slice(), offset, offset + len))
    }

    /// Read `len` bytes at the cursor, advancing it.
    pub fn read_bytes(&mut self, len: usize) -> (r: Result<&[u8], ReadError>)
        requires
            old(self).wf(),
        ensures
            final(self).wf(),
            final(self).data() == old(self).data(),
            old(self).pos() + len <= old(self).data().len() ==> (r matches Ok(b) && b@
                == old(self).data().subrange(old(self).pos() as int, old(self).pos() + len)
                && final(self).pos() == old(self).pos() + len),
            old(self).pos() + len > old(self).data().len() ==> r == Err::<&[u8], ReadError>(
                ReadError::OutOfBounds {
                    offset: old(self).pos() as usize,
                    requested: len,
                    len: old(self).data().len() as usize,
                },
            ) && final(self).pos() == old(self).pos(),
    {
        let start = self.pos;
        let n = self.source.len();
        if len > n - start {
            return Err(ReadError::OutOfBounds { offset: start, requested: len, len: n });
        }
        self.pos = start + len;
        Ok(vstd::slice::slice_subrange(self.source.as_slice(), start, start + len))
    }

    /// Decode `len` bytes at the cursor as text, advancing the cursor.
    pub fn read_string(&mut self, len: usize, encoding: Encoding) -> (r: Result<String, ReadError>)
        requires
            old(self).wf(),
        ensures
            final(self).wf(),
            final(self).data() == old(self).data(),
            text_view(r) == text_at(old(self).data(), old(self).pos() as usize, len, encoding),
            final(self).pos() == if r is Ok {
                old(self).pos() + len
            } else {
                old(self).pos() as int
            },
    {
        let start = self.pos;
        let n = self.source.len();
        let s = self.read_string_at(start, len, encoding);
        if s.is_ok() {
            assert(text_view(s) is Ok);
            assert(start + len <= n);
            self.pos = start + len;
        }
        s
    }

    /// Decode `len` bytes at an absolute offset as text, cursor untouched.
    pub fn read_string_at(&self, offset: usize, len: usize, encoding: Encoding) -> (r: Result<
        String,
        ReadError,
    >)
        ensures
            text_view(r) == text_at(self.data(), offset, len, encoding),
    {
        let bytes = match self.read_bytes_at(offset, len) {
            Ok(b) => b,
            Err(e) => return Err(e),
        };
        let bad = ReadError::InvalidText { offset, encoding };
        match encoding {
            Encoding::Ascii => {
                let mut s = String::new();
                let mut i: usize = 0;
                while i < bytes.len()
                    invariant
                        bytes@ == self.data().subrange(offset as int, offset + len),
                        offset + len <= self.data().len(),
                        bad == (ReadError::InvalidText { offset, encoding }),
                        encoding == Encoding::Ascii,
                        i <= bytes@.len(),
                        all_ascii(bytes@.subrange(0, i as int)),
                        s@ == bytes_as_chars(bytes@.subrange(0, i as int)),
                    decreases bytes@.len() - i,
                {
                    if bytes[i] >= 0x80 {
                        assert(bytes@[i as int] >= 0x80);
                        assert(!all_ascii(bytes@));
                        return Err(bad);
                    }
                    crate::text::push_char(&mut s, bytes[i] as char);
                    proof {
                        assert(bytes@.subrange(0, i + 1) =~= bytes@.subrange(0, i as int).push(
                            bytes@[i as int],
                        ));
                    }
                    i += 1;
                }
                proof {
                    assert(bytes@.subrange(0, i as int) =~= bytes@);
                }
                Ok(s)
            },
            Encoding::Utf8 => match utf8_string(bytes) {
                Some(s) => Ok(s),
                None => Err(bad),
            },
            Encoding::Utf16Le | Encoding::Utf16Be => {
                if bytes.len() % 2 != 0 {
                    return Err(bad);
                }
                let e = if encoding == Encoding::Utf16Le {
                    Endian::Little
                } else {
                    Endian::Big
                };
                let mut units: Vec<u16> = Vec::new();
                let mut k: usize = 0;
                while k < bytes.len() / 2
                    invariant
                        bytes@.len() % 2 == 0,
                        k <= bytes@.len() / 2,
                        units@ =~= utf16_units(bytes@, e).subrange(0, k as int),
                    decreases bytes@.len() / 2 - k,
                {
                    let pair = vstd::slice::slice_subrange(bytes, 2 * k, 2 * k + 2);
                    let u = decode_uint(pair, e);
                    proof {
                        lemma_byte_bound_values();
                    }
                    units.push(u as u16);
                    k += 1;
                }
                assert(units@ =~= utf16_units(bytes@, e));
                match utf16_string(units.as_slice()) {
                    Some(s) => Ok(s),
                    None => Err(bad),
                }
            },
        }
    }
}

/// The characters that decoding `len` bytes at `offset` of `data` as
/// `encoding` gives, or the error that reading them reports.
pub open spec fn text_at(data: Seq<u8>, offset: usize, len: usize, encoding: Encoding) -> Result<
    Seq<char>,
    ReadError,
> {
    if offset + len > data.len() {
        Err(ReadError::OutOfBounds { offset, requested: len, len: data.len() as usize })
    } else {
        let b = data.subrange(offset as int, offset + len);
        let bad = ReadError::InvalidText { offset, encoding };
        match encoding {
            Encoding::Ascii => if all_ascii(b) {
                Ok(bytes_as_chars(b))
            } else {
                Err(bad)
            },
            Encoding::Utf8 => if valid_utf8(b) {
                Ok(decode_utf8(b))
            } else {
                Err(bad)
            },
            Encoding::Utf16Le | Encoding::Utf16Be => {
                let e = if encoding is Utf16Le {
                    Endian::Little
                } else {
                    Endian::Big
                };
                if b.len() % 2 != 0 {
                    Err(bad)
                } else {
                    match decode_utf16(utf16_units(b, e)) {
                        Some(cs) => Ok(cs),
                        None => Err(bad),
                    }
                }
            },
        }
    }
}

/// A text result, with the string taken by its characters.
pub open spec fn text_view(r: Result<String, ReadError>) -> Result<Seq<char>, ReadError> {
    match r {
        Ok(s) => Ok(s@),
        Err(e) => Err(e),
    }
}

} // verus!
