//! Byte transforms a `decode` clause applies to a field's raw bytes.
use vstd::prelude::*;

use std::io::Read;

use crate::runtime::{error_view, RuntimeError, SpecError};
use crate::schema::Transform;
use crate::text::{char_debug, char_debug_string};

verus! {

/// What inflating a zlib stream (RFC 1950) with `flate2::read::ZlibDecoder`
/// gives: the inflated bytes, or the message of the error it reports.
pub uninterp spec fn zlib_inflated(input: Seq<u8>) -> Result<Seq<u8>, Seq<char>>;

/// What inflating a raw DEFLATE stream (RFC 1951) with
/// `flate2::read::DeflateDecoder` gives.
pub uninterp spec fn deflate_inflated(input: Seq<u8>) -> Result<Seq<u8>, Seq<char>>;

/// What decompressing a gzip member (RFC 1952) with `flate2::read::GzDecoder`
/// gives.
pub uninterp spec fn gzip_inflated(input: Seq<u8>) -> Result<Seq<u8>, Seq<char>>;

/// Inflate a zlib stream with `flate2::read::ZlibDecoder`, reading to the end.
/// The outcome is named by [`zlib_inflated`].
#[verifier::external_body]
fn zlib_inflate(input: &[u8]) -> (r: Result<Vec<u8>, String>)
    ensures
        match r {
            Ok(v) => zlib_inflated(input@) == Ok::<Seq<u8>, Seq<char>>(v@),
            Err(m) => zlib_inflated(input@) == Err::<Seq<u8>, Seq<char>>(m@),
        },
{
    let mut out = Vec::new();
    match flate2::read::ZlibDecoder::new(input).read_to_end(&mut out) {
        Ok(_) => Ok(out),
        Err(e) => Err(e.to_string()),
    }
}

/// Inflate a raw DEFLATE stream with `flate2::read::DeflateDecoder`, reading to
/// the end. The outcome is named by [`deflate_inflated`].
#[verifier::external_body]
fn deflate_inflate(input: &[u8]) -> (r: Result<Vec<u8>, String>)
    ensures
        match r {
            Ok(v) => deflate_inflated(input@) == Ok::<Seq<u8>, Seq<char>>(v@),
            Err(m) => deflate_inflated(input@) == Err::<Seq<u8>, Seq<char>>(m@),
        },
{
    let mut out = Vec::new();
    match flate2::read::DeflateDecoder::new(input).read_to_end(&mut out) {
        Ok(_) => Ok(out),
        Err(e) => Err(e.to_string()),
    }
}

/// Decompress a gzip member with `flate2::read::GzDecoder`, reading to the end.
/// The outcome is named by [`gzip_inflated`].
#[verifier::external_body]
fn gzip_inflate(input: &[u8]) -> (r: Result<Vec<u8>, String>)
    ensures
        match r {
            Ok(v) => gzip_inflated(input@) == Ok::<Seq<u8>, Seq<char>>(v@),
            Err(m) => gzip_inflated(input@) == Err::<Seq<u8>, Seq<char>>(m@),
        },
{
    let mut out = Vec::new();
    match flate2::read::GzDecoder::new(input).read_to_end(&mut out) {
        Ok(_) => Ok(out),
        Err(e) => Err(e.to_string()),
    }
}

/// Short display name of a transform.
pub open spec fn spec_transform_name(t: Transform) -> Seq<char> {
    match t {
        Transform::Xor(_) => "xor"@,
        Transform::RollingXor { .. } => "rolling_xor"@,
        Transform::Add(_) => "add"@,
        Transform::Base64 => "base64"@,
        Transform::ZlibInflate => "zlib_inflate"@,
        Transform::Inflate => "inflate"@,
        Transform::Gunzip => "gunzip"@,
    }
}

/// Short display name of a transform, used in a decoded node's type label.
pub fn transform_name(t: &Transform) -> (s: &'static str)
    ensures
        s@ == spec_transform_name(*t),
{
    match t {
        Transform::Xor(_) => "xor",
        Transform::RollingXor { .. } => "rolling_xor",
        Transform::Add(_) => "add",
        Transform::Base64 => "base64",
        Transform::ZlibInflate => "zlib_inflate",
        Transform::Inflate => "inflate",
        Transform::Gunzip => "gunzip",
    }
}

/// The rolling-XOR key in force at byte `i`: `seed`, then `k*mul + add` mod 256.
pub open spec fn rolling_key(seed: u8, mul: u8, add: u8, i: nat) -> u8
    decreases i,
{
    if i == 0 {
        seed
    } else {
        let k = rolling_key(seed, mul, add, (i - 1) as nat);
        k.wrapping_mul(mul).wrapping_add(add)
    }
}

/// Repeating-key XOR of `input` (the input itself for an empty key).
pub open spec fn xor_bytes(input: Seq<u8>, key: Seq<u8>) -> Seq<u8> {
    if key.len() == 0 {
        input
    } else {
        Seq::new(input.len(), |i: int| input[i] ^ key[i % (key.len() as int)])
    }
}

/// ASCII whitespace as `u8::is_ascii_whitespace` defines it.
pub open spec fn is_ascii_ws(c: u8) -> bool {
    c == 0x20 || c == 0x09 || c == 0x0A || c == 0x0C || c == 0x0D
}

/// The 6-bit value of a standard-alphabet Base64 character.
pub open spec fn b64_value(c: u8) -> Option<u8> {
    if 0x41 <= c <= 0x5A {
        Some((c - 0x41) as u8)
    } else if 0x61 <= c <= 0x7A {
        Some((c - 0x61 + 26) as u8)
    } else if 0x30 <= c <= 0x39 {
        Some((c - 0x30 + 52) as u8)
    } else if c == 0x2B {
        Some(62)
    } else if c == 0x2F {
        Some(63)
    } else {
        None
    }
}

/// Base64 decoding from position `i` on, with `bits` pending bits in `acc` and
/// `out` decoded so far. `=` and ASCII whitespace are skipped; any other
/// character outside the alphabet is an error naming it.
pub open spec fn base64_from(input: Seq<u8>, i: nat, acc: u32, bits: u32, out: Seq<u8>) -> Result<
    Seq<u8>,
    Seq<char>,
>
    decreases input.len() - i,
{
    if i >= input.len() {
        Ok(out)
    } else {
        let c = input[i as int];
        if c == 0x3D || is_ascii_ws(c) {
            base64_from(input, i + 1, acc, bits, out)
        } else {
            match b64_value(c) {
                None => Err("bad character "@ + char_debug(c as char)),
                Some(v) => {
                    let acc2 = (acc << 6u32) | (v as u32);
                    if bits + 6 >= 8 {
                        let b2 = (bits + 6 - 8) as u32;
                        base64_from(input, i + 1, acc2, b2, out.push((acc2 >> b2) as u8))
                    } else {
                        base64_from(input, i + 1, acc2, (bits + 6) as u32, out)
                    }
                },
            }
        }
    }
}

/// The meaning of a transform on `input`.
pub open spec fn spec_apply_transform(t: Transform, input: Seq<u8>) -> Result<Seq<u8>, SpecError> {
    match t {
        Transform::Xor(key) => Ok(xor_bytes(input, key@)),
        Transform::RollingXor { seed, mul, add } => Ok(
            Seq::new(input.len(), |i: int| input[i] ^ rolling_key(seed, mul, add, i as nat)),
        ),
        Transform::Add(k) => Ok(
            Seq::new(input.len(), |i: int| ((input[i] + (k % 256)) % 256) as u8),
        ),
        Transform::Base64 => match base64_from(input, 0, 0, 0, Seq::empty()) {
            Ok(b) => Ok(b),
            Err(m) => Err(SpecError::Base64(m)),
        },
        Transform::ZlibInflate => match zlib_inflated(input) {
            Ok(b) => Ok(b),
            Err(m) => Err(SpecError::Inflate("zlib_inflate"@, m)),
        },
        Transform::Inflate => match deflate_inflated(input) {
            Ok(b) => Ok(b),
            Err(m) => Err(SpecError::Inflate("inflate"@, m)),
        },
        Transform::Gunzip => match gzip_inflated(input) {
            Ok(b) => Ok(b),
            Err(m) => Err(SpecError::Inflate("gunzip"@, m)),
        },
    }
}

/// A transform result taken by its view.
pub open spec fn bytes_result_view(r: Result<Vec<u8>, RuntimeError>) -> Result<Seq<u8>, SpecError> {
    match r {
        Ok(v) => Ok(v@),
        Err(e) => Err(error_view(e)),
    }
}

/// Decode standard-alphabet Base64 (padding optional; ASCII whitespace ignored).
pub fn base64_decode(input: &[u8]) -> (r: Result<Vec<u8>, String>)
    ensures
        match r {
            Ok(v) => base64_from(input@, 0, 0, 0, Seq::empty()) == Ok::<Seq<u8>, Seq<char>>(v@),
            Err(m) => base64_from(input@, 0, 0, 0, Seq::empty()) == Err::<Seq<u8>, Seq<char>>(m@),
        },
{
    let mut acc: u32 = 0;
    let mut bits: u32 = 0;
    let mut out: Vec<u8> = Vec::new();
    let mut i: usize = 0;
    while i < input.len()
        invariant
            i <= input@.len(),
            bits < 8,
            base64_from(input@, 0, 0, 0, Seq::empty()) == base64_from(input@, i as nat, acc, bits, out@),
        decreases input@.len() - i,
    {
        let c = input[i];
        if c == 0x3D || c == 0x20 || c == 0x09 || c == 0x0A || c == 0x0C || c == 0x0D {
            i += 1;
            continue;
        }
        let v: u8 = if 0x41 <= c && c <= 0x5A {
            c - 0x41
        } else if 0x61 <= c && c <= 0x7A {
            c - 0x61 + 26
        } else if 0x30 <= c && c <= 0x39 {
            c - 0x30 + 52
        } else if c == 0x2B {
            62
        } else if c == 0x2F {
            63
        } else {
            let mut m = String::new();
            m.append("bad character ");
            let d = char_debug_string(c as char);
            m.append(d.as_str());
            return Err(m);
        };
        acc = (acc << 6u32) | (v as u32);
        bits = bits + 6;
        if bits >= 8 {
            bits = bits - 8;
            out.push((acc >> bits) as u8);
        }
        i += 1;
    }
    Ok(out)
}

/// Run a byte buffer through a transform, producing the decoded bytes.
pub fn apply_transform(t: &Transform, input: &[u8]) -> (r: Result<Vec<u8>, RuntimeError>)
    ensures
        bytes_result_view(r) == spec_apply_transform(*t, input@),
{
    match t {
        Transform::Xor(key) => {
            let mut out: Vec<u8> = Vec::new();
            if key.len() == 0 {
                let mut i: usize = 0;
                while i < input.len()
                    invariant
                        i <= input@.len(),
                        out@ =~= input@.subrange(0, i as int),
                    decreases input@.len() - i,
                {
                    out.push(input[i]);
                    i += 1;
                }
                assert(out@ =~= input@);
            } else {
                let mut i: usize = 0;
                while i < input.len()
                    invariant
                        i <= input@.len(),
                        key@.len() > 0,
                        out@ =~= xor_bytes(input@, key@).subrange(0, i as int),
                    decreases input@.len() - i,
                {
                    out.push(input[i] ^ key[i % key.len()]);
                    i += 1;
                }
                assert(out@ =~= xor_bytes(input@, key@));
            }
            Ok(out)
        },
        Transform::RollingXor { seed, mul, add } => {
            let mut k: u8 = *seed;
            let mut out: Vec<u8> = Vec::new();
            let mut i: usize = 0;
            while i < input.len()
                invariant
                    i <= input@.len(),
                    k == rolling_key(*seed, *mul, *add, i as nat),
                    out@ =~= Seq::new(
                        input@.len(),
                        |j: int| input@[j] ^ rolling_key(*seed, *mul, *add, j as nat),
                    ).subrange(0, i as int),
                decreases input@.len() - i,
            {
                out.push(input[i] ^ k);
                k = k.wrapping_mul(*mul).wrapping_add(*add);
                i += 1;
            }
            assert(out@ =~= Seq::new(
                input@.len(),
                |j: int| input@[j] ^ rolling_key(*seed, *mul, *add, j as nat),
            ));
            Ok(out)
        },
        Transform::Add(k) => {
            let kk: u8 = match k.checked_rem_euclid(256) {
                Some(r) => r as u8,
                None => 0,
            };
            let mut out: Vec<u8> = Vec::new();
            let mut i: usize = 0;
            while i < input.len()
                invariant
                    i <= input@.len(),
                    kk == ((*k % 256) as u8),
                    out@ =~= Seq::new(input@.len(), |j: int| ((input@[j] + (*k % 256)) % 256) as u8)
                        .subrange(0, i as int),
                decreases input@.len() - i,
            {
                let b = input[i];
                out.push(b.wrapping_add(kk));
                i += 1;
            }
            assert(out@ =~= Seq::new(input@.len(), |j: int| ((input@[j] + (*k % 256)) % 256) as u8));
            Ok(out)
        },
        Transform::Base64 => match base64_decode(input) {
            Ok(v) => Ok(v),
            Err(m) => Err(RuntimeError::Base64(m)),
        },
        Transform::ZlibInflate => match zlib_inflate(input) {
            Ok(v) => Ok(v),
            Err(m) => Err(RuntimeError::Inflate(String::from_str("zlib_inflate"), m)),
        },
        Transform::Inflate => match deflate_inflate(input) {
            Ok(v) => Ok(v),
            Err(m) => Err(RuntimeError::Inflate(String::from_str("inflate"), m)),
        },
        Transform::Gunzip => match gzip_inflate(input) {
            Ok(v) => Ok(v),
            Err(m) => Err(RuntimeError::Inflate(String::from_str("gunzip"), m)),
        },
    }
}

} // verus!
