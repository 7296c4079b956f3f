//! Byte-pattern search over a buffer, and builders that turn a query (hex
//! text, ASCII/UTF-8 text, UTF-16LE text, or a typed integer) into the
//! needle bytes to search for.
use vstd::prelude::*;

use crate::editing::{pow256, sized, sized_bytes};
use crate::text::{
    chars_of, decimal, parse_int, parse_u64_radix, remove_ws, string_of, trim, trim_bounds,
    usize_to_string, without_ws,
};

verus! {

/// `needle` occurs in `hay` at offset `i`.
pub open spec fn matches_at(hay: Seq<u8>, needle: Seq<u8>, i: int) -> bool {
    0 <= i && i + needle.len() <= hay.len() && hay.subrange(i, i + needle.len()) == needle
}

/// The offsets `>= i` where `needle` occurs, ascending.
pub open spec fn positions_from(hay: Seq<u8>, needle: Seq<u8>, i: nat) -> Seq<usize>
    decreases hay.len() - i,
{
    if i + needle.len() > hay.len() || i >= hay.len() {
        Seq::empty()
    } else if matches_at(hay, needle, i as int) {
        seq![i as usize] + positions_from(hay, needle, i + 1)
    } else {
        positions_from(hay, needle, i + 1)
    }
}

/// What `find_all` returns: the (possibly overlapping) match offsets, at
/// most `limit` of them.
pub open spec fn spec_find_all(hay: Seq<u8>, needle: Seq<u8>, limit: usize) -> Seq<usize> {
    let all = positions_from(hay, needle, 0);
    let n: int = limit as int;
    if needle.len() == 0 || needle.len() > hay.len() || limit == 0 {
        Seq::empty()
    } else if all.len() <= n {
        all
    } else {
        all.take(n)
    }
}

/// The first offset `>= start` where `needle` occurs.
pub open spec fn first_match_from(hay: Seq<u8>, needle: Seq<u8>, start: nat) -> Option<usize> {
    let ps = positions_from(hay, needle, start);
    if ps.len() > 0 { Some(ps[0]) } else { None }
}

/// Compare `needle` against `hay` at offset `i`.
fn matches_here(hay: &[u8], needle: &[u8], i: usize) -> (b: bool)
    requires
        i + needle@.len() <= hay@.len(),
    ensures
        b == matches_at(hay@, needle@, i as int),
{
    let hlen = hay.len();
    let mut k: usize = 0;
    while k < needle.len()
        invariant
            k <= needle@.len(),
            hlen == hay@.len(),
            i + needle@.len() <= hay@.len(),
            forall|j: int| 0 <= j < k ==> hay@[i + j] == needle@[j],
        decreases needle@.len() - k,
    {
        if hay[i + k] != needle[k] {
            assert(hay@.subrange(i as int, i + needle@.len())[k as int] != needle@[k as int]);
            return false;
        }
        k += 1;
    }
    assert(hay@.subrange(i as int, i + needle@.len()) =~= needle@);
    true
}

/// The first match at an offset `>= start`, if any. An empty needle, or a
/// start past the end, finds nothing.
pub fn find_from(haystack: &[u8], needle: &[u8], start: usize) -> (r: Option<usize>)
    ensures
        r == (if needle@.len() == 0 || start > haystack@.len() {
            None
        } else {
            first_match_from(haystack@, needle@, start as nat)
        }),
{
    if needle.len() == 0 || start > haystack.len() {
        return None;
    }
    let mut i = start;
    let hlen = haystack.len();
    while i < haystack.len() && needle.len() <= haystack.len() - i
        invariant
            start <= i <= haystack@.len(),
            hlen == haystack@.len(),
            needle@.len() > 0,
            positions_from(haystack@, needle@, start as nat) == positions_from(haystack@, needle@, i as nat),
        decreases haystack@.len() - i,
    {
        if matches_here(haystack, needle, i) {
            proof {
                lemma_positions_skip(haystack@, needle@, i as nat);
            }
            return Some(i);
        }
        i += 1;
    }
    None
}

/// All match offsets of `needle` in `haystack`, up to `limit` results.
/// Matches may overlap. An empty needle yields no matches.
pub fn find_all(haystack: &[u8], needle: &[u8], limit: usize) -> (v: Vec<usize>)
    ensures
        v@ == spec_find_all(haystack@, needle@, limit),
{
    let mut out: Vec<usize> = Vec::new();
    if needle.len() == 0 || needle.len() > haystack.len() || limit == 0 {
        return out;
    }
    let ghost all = positions_from(haystack@, needle@, 0);
    let ghost n: int = limit as int;
    let mut start: usize = 0;
    let hlen = haystack.len();
    while start <= haystack.len() - needle.len()
        invariant
            hlen == haystack@.len(),
            0 < needle@.len() <= haystack@.len(),
            start <= haystack@.len(),
            all == positions_from(haystack@, needle@, 0),
            n == limit as int,
            out@.len() < n,
            all == out@ + positions_from(haystack@, needle@, start as nat),
        decreases haystack@.len() - start,
    {
        match find_from(haystack, needle, start) {
            Some(pos) => {
                let ghost rest = positions_from(haystack@, needle@, start as nat);
                proof {
                    lemma_positions_skip(haystack@, needle@, start as nat);
                }
                out.push(pos);
                proof {
                    assert(all =~= out@ + positions_from(haystack@, needle@, (pos + 1) as nat));
                }
                if out.len() >= limit {
                    proof {
                        assert(all.take(n) =~= out@);
                    }
                    return out;
                }
                start = pos + 1;
            },
            None => {
                proof {
                    assert(all =~= out@);
                }
                return out;
            },
        }
    }
    proof {
        assert(positions_from(haystack@, needle@, start as nat) =~= Seq::<usize>::empty());
        assert(all =~= out@);
    }
    out
}

/// The positions from `i` start with the first match and go on after it.
proof fn lemma_positions_skip(hay: Seq<u8>, needle: Seq<u8>, i: nat)
    requires
        positions_from(hay, needle, i).len() > 0,
        hay.len() <= usize::MAX,
    ensures
        ({
            let ps = positions_from(hay, needle, i);
            &&& i <= ps[0]
            &&& matches_at(hay, needle, ps[0] as int)
            &&& ps == seq![ps[0]] + positions_from(hay, needle, (ps[0] + 1) as nat)
        }),
    decreases hay.len() - i,
{
    if i + needle.len() > hay.len() || i >= hay.len() {
    } else if matches_at(hay, needle, i as int) {
    } else {
        lemma_positions_skip(hay, needle, i + 1);
    }
}

/// The last match that starts strictly before `before`, if any (for "find
/// previous").
pub fn find_before(haystack: &[u8], needle: &[u8], before: usize) -> (r: Option<usize>)
    ensures
        match r {
            Some(i) => needle@.len() > 0 && i < before && matches_at(haystack@, needle@, i as int)
                && forall|j: int| i < j < before ==> !matches_at(haystack@, needle@, j),
            None => needle@.len() == 0 || forall|j: int| 0 <= j < before ==> !matches_at(haystack@, needle@, j),
        },
{
    if needle.len() == 0 || needle.len() > haystack.len() {
        return None;
    }
    // Last valid start index to consider.
    let room = haystack.len() - needle.len() + 1;
    let last = if before < room { before } else { room };
    let mut i = last;
    while i > 0
        invariant
            needle@.len() > 0,
            i <= last <= before,
            last <= room == haystack@.len() - needle@.len() + 1,
            forall|j: int| i <= j < before ==> !matches_at(haystack@, needle@, j),
        decreases i,
    {
        i -= 1;
        if matches_here(haystack, needle, i) {
            return Some(i);
        }
    }
    None
}

/// The value of a hex digit byte, if it is one.
pub open spec fn hex_digit_value(b: u8) -> Option<u8> {
    if 0x30 <= b <= 0x39 {
        Some((b - 0x30) as u8)
    } else if 0x61 <= b <= 0x66 {
        Some((b - 0x61 + 10) as u8)
    } else if 0x41 <= b <= 0x46 {
        Some((b - 0x41 + 10) as u8)
    } else {
        None
    }
}

fn hex_val(b: u8) -> (r: Option<u8>)
    ensures
        r == hex_digit_value(b),
{
    if 0x30 <= b && b <= 0x39 {
        Some(b - 0x30)
    } else if 0x61 <= b && b <= 0x66 {
        Some(b - 0x61 + 10)
    } else if 0x41 <= b && b <= 0x46 {
        Some(b - 0x41 + 10)
    } else {
        None
    }
}

/// The message for a byte that is not a hex digit.
pub open spec fn not_hex_message(b: u8) -> Seq<char> {
    "not a hex digit: '"@ + seq![b as char] + "'"@
}

/// Hex digit bytes read in pairs; the first byte that is not a hex digit is
/// the error.
pub open spec fn hex_byte_pairs(b: Seq<u8>) -> Result<Seq<u8>, Seq<char>>
    decreases b.len(),
{
    if b.len() < 2 {
        Ok(Seq::empty())
    } else if hex_digit_value(b[0]) is None {
        Err(not_hex_message(b[0]))
    } else if hex_digit_value(b[1]) is None {
        Err(not_hex_message(b[1]))
    } else {
        match hex_byte_pairs(b.subrange(2, b.len() as int)) {
            Ok(r) => Ok(seq![(hex_digit_value(b[0])->0 * 16 + hex_digit_value(b[1])->0) as u8] + r),
            Err(e) => Err(e),
        }
    }
}

/// What `parse_hex` gives: whitespace ignored; empty text, an odd number of
/// digits, or a non-hex character is an error.
pub open spec fn spec_parse_hex(s: Seq<char>) -> Result<Seq<u8>, Seq<char>> {
    let compact = remove_ws(s);
    let b = vstd::utf8::encode_utf8(compact);
    if compact.len() == 0 {
        Err("empty hex"@)
    } else if b.len() % 2 != 0 {
        Err("hex needs an even number of digits"@)
    } else {
        hex_byte_pairs(b)
    }
}

/// Parse a hex string like `"48 65 6C"` or `"48656c"` into bytes.
pub fn parse_hex(s: &str) -> (r: Result<Vec<u8>, String>)
    ensures
        match spec_parse_hex(s@) {
            Ok(b) => r matches Ok(x) && x@ == b,
            Err(e) => r matches Err(x) && x@ == e,
        },
{
    let v = chars_of(s);
    let compact_chars = without_ws(v.as_slice());
    let compact = string_of(compact_chars.as_slice());
    if compact_chars.len() == 0 {
        return Err(String::from_str("empty hex"));
    }
    let bytes = compact.as_str().as_bytes();
    if bytes.len() % 2 != 0 {
        return Err(String::from_str("hex needs an even number of digits"));
    }
    let mut out: Vec<u8> = Vec::new();
    let mut i: usize = 0;
    assert(bytes@.subrange(0, bytes@.len() as int) =~= bytes@);
    while i < bytes.len()
        invariant
            i <= bytes@.len(),
            i % 2 == 0,
            bytes@.len() % 2 == 0,
            spec_parse_hex(s@) == hex_byte_pairs(bytes@),
            match hex_byte_pairs(bytes@) {
                Ok(all) => match hex_byte_pairs(bytes@.subrange(i as int, bytes@.len() as int)) {
                    Ok(r) => all == out@ + r,
                    Err(_) => false,
                },
                Err(e) => hex_byte_pairs(bytes@.subrange(i as int, bytes@.len() as int)) == Err::<Seq<u8>, Seq<char>>(e),
            },
        decreases bytes@.len() - i,
    {
        let ghost rest = bytes@.subrange(i as int, bytes@.len() as int);
        assert(rest.subrange(2, rest.len() as int) =~= bytes@.subrange(i + 2, bytes@.len() as int));
        let hi = match hex_val(bytes[i]) {
            Some(h) => h,
            None => {
                let mut m = String::from_str("not a hex digit: '");
                crate::text::push_char(&mut m, bytes[i] as char);
                m.append("'");
                return Err(m);
            },
        };
        let lo = match hex_val(bytes[i + 1]) {
            Some(l) => l,
            None => {
                let mut m = String::from_str("not a hex digit: '");
                crate::text::push_char(&mut m, bytes[i + 1] as char);
                m.append("'");
                return Err(m);
            },
        };
        proof {
            if let Ok(r2) = hex_byte_pairs(bytes@.subrange(i + 2, bytes@.len() as int)) {
                assert(out@.push((hi * 16 + lo) as u8) + r2 =~= out@ + (seq![(hi * 16 + lo) as u8] + r2));
            }
        }
        out.push(hi * 16 + lo);
        i += 2;
    }
    proof {
        assert(out@ + Seq::<u8>::empty() =~= out@);
    }
    Ok(out)
}

/// Encode text as its UTF-8 bytes (the natural byte form of the string).
pub fn text_bytes(s: &str) -> (v: Vec<u8>)
    ensures
        v@ == vstd::utf8::encode_utf8(s@),
{
    vstd::slice::slice_to_vec(s.as_bytes())
}

/// The UTF-16 code units of one character.
pub open spec fn utf16_of_char(c: char) -> Seq<u16> {
    let u = c as u32;
    if u < 0x10000 {
        seq![u as u16]
    } else {
        let v = u - 0x10000;
        seq![(0xD800 + v / 1024) as u16, (0xDC00 + v % 1024) as u16]
    }
}

/// The UTF-16LE bytes of a string: each code unit low byte first.
pub open spec fn utf16le_bytes(s: Seq<char>) -> Seq<u8>
    decreases s.len(),
{
    if s.len() == 0 {
        Seq::empty()
    } else {
        let units = utf16_of_char(s.last());
        utf16le_bytes(s.drop_last()) + Seq::new(2 * units.len(), |k: int| if k % 2 == 0 {
            (units[k / 2] % 256) as u8
        } else {
            (units[k / 2] / 256) as u8
        })
    }
}

/// Encode text as UTF-16LE bytes (common in Windows binaries).
pub fn text_utf16le(s: &str) -> (v: Vec<u8>)
    ensures
        v@ == utf16le_bytes(s@),
{
    let cs = chars_of(s);
    let mut out: Vec<u8> = Vec::new();
    let mut i: usize = 0;
    while i < cs.len()
        invariant
            i <= cs@.len(),
            cs@ == s@,
            out@ == utf16le_bytes(cs@.take(i as int)),
        decreases cs@.len() - i,
    {
        let u = cs[i] as u32;
        proof {
            assert(cs@.take(i + 1).drop_last() =~= cs@.take(i as int));
        }
        let ghost before = out@;
        if u < 0x10000 {
            out.push((u % 256) as u8);
            out.push((u / 256) as u8);
        } else {
            let v = u - 0x10000;
            let h = 0xD800 + v / 1024;
            let l = 0xDC00 + v % 1024;
            out.push((h % 256) as u8);
            out.push((h / 256) as u8);
            out.push((l % 256) as u8);
            out.push((l / 256) as u8);
        }
        proof {
            let units = utf16_of_char(cs@[i as int]);
            let tail = Seq::new(2 * units.len(), |k: int| if k % 2 == 0 {
                (units[k / 2] % 256) as u8
            } else {
                (units[k / 2] / 256) as u8
            });
            if u < 0x10000 {
                assert(units == seq![u as u16]);
                assert(tail.len() == 2);
                assert(tail[0] == (u % 256) as u8);
                assert(tail[1] == (u / 256) as u8);
            } else {
                let v = u - 0x10000;
                vstd::utf8::char_is_scalar(cs@[i as int]);
                assert(u <= 0x10FFFF);
                assert(v / 1024 < 1024);
                assert(units == seq![(0xD800 + v / 1024) as u16, (0xDC00 + v % 1024) as u16]);
                assert(tail.len() == 4);
                assert(tail[0] == ((0xD800 + v / 1024) % 256) as u8);
                assert(tail[1] == ((0xD800 + v / 1024) / 256) as u8);
                assert(tail[2] == ((0xDC00 + v % 1024) % 256) as u8);
                assert(tail[3] == ((0xDC00 + v % 1024) / 256) as u8);
            }
            assert(out@ =~= before + tail);
        }
        i += 1;
    }
    assert(cs@.take(cs@.len() as int) =~= cs@);
    out
}

/// What `encode_int` gives: the `width`-byte needle for an integer query
/// (decimal or `0x` hex, with an optional `-`; non-negative values unsigned,
/// negative ones two's complement).
pub open spec fn spec_encode_int(query: Seq<char>, width: usize, big_endian: bool) -> Result<Seq<u8>, Seq<char>> {
    let s = trim(query);
    let neg = s.len() > 0 && s[0] == '-';
    let digits = if neg { trim(s.drop_first()) } else { s };
    let hex = digits.len() >= 2 && digits[0] == '0' && (digits[1] == 'x' || digits[1] == 'X');
    let bits = width * 8;
    if !(width == 1 || width == 2 || width == 4 || width == 8) {
        Err("width must be 1, 2, 4, or 8 bytes"@)
    } else if s.len() == 0 {
        Err("empty value"@)
    } else {
        let parsed = if hex {
            parse_int(digits.subrange(2, digits.len() as int), 16, false, 0, u64::MAX as int)
        } else {
            parse_int(digits, 10, false, 0, u64::MAX as int)
        };
        match parsed {
            Err(_) => Err(if hex { "not a valid hex integer: "@ + s } else { "not a valid integer: "@ + s }),
            Ok(m) => if neg {
                if m > pow256(width as nat) / 2 {
                    Err(s + " doesn't fit in a signed "@ + decimal(bits as nat) + "-bit value"@)
                } else {
                    Ok(sized((if width == 8 { (pow256(8) - m) % (pow256(8) as int) } else { pow256(width as nat) - m }) as nat, width as nat, big_endian))
                }
            } else if width < 8 && m > pow256(width as nat) - 1 {
                Err(s + " doesn't fit in an unsigned "@ + decimal(bits as nat) + "-bit value"@)
            } else {
                Ok(sized(m as nat, width as nat, big_endian))
            },
        }
    }
}

/// Encode an integer query as the `width`-byte needle to search for (typed
/// value search, e.g. "find all u32 == 42"). The query is decimal or `0x`
/// hex, with an optional leading `-`; a non-negative value is unsigned and a
/// negative one two's complement. `width` must be 1, 2, 4, or 8 bytes, and
/// the value must fit it.
#[verifier::rlimit(40)]
#[verifier::spinoff_prover]
pub fn encode_int(query: &str, width: usize, big_endian: bool) -> (r: Result<Vec<u8>, String>)
    ensures
        match spec_encode_int(query@, width, big_endian) {
            Ok(b) => r matches Ok(x) && x@ == b,
            Err(e) => r matches Err(x) && x@ == e,
        },
{
    if !(width == 1 || width == 2 || width == 4 || width == 8) {
        return Err(String::from_str("width must be 1, 2, 4, or 8 bytes"));
    }
    let v = chars_of(query);
    let (i, j) = trim_bounds(v.as_slice());
    let s = vstd::slice::slice_subrange(v.as_slice(), i, j);
    if s.len() == 0 {
        return Err(String::from_str("empty value"));
    }
    let neg = s[0] == '-';
    let digits: &[char] = if neg {
        let rest = vstd::slice::slice_subrange(s, 1, s.len());
        assert(rest@ =~= s@.drop_first());
        let (a, b) = trim_bounds(rest);
        vstd::slice::slice_subrange(rest, a, b)
    } else {
        s
    };
    let hex = digits.len() >= 2 && digits[0] == '0' && (digits[1] == 'x' || digits[1] == 'X');
    let parsed = if hex {
        parse_u64_radix(vstd::slice::slice_subrange(digits, 2, digits.len()), 16)
    } else {
        parse_u64_radix(digits, 10)
    };
    let m = match parsed {
        Ok(m) => m,
        Err(_) => {
            let mut msg = if hex {
                String::from_str("not a valid hex integer: ")
            } else {
                String::from_str("not a valid integer: ")
            };
            msg.append(string_of(s).as_str());
            return Err(msg);
        },
    };
    let bits = width * 8;
    proof {
        reveal_with_fuel(pow256, 9);
    }
    // 2^(bits-1) and 2^bits - 1.
    let (half, max): (u64, u64) = if width == 1 {
        (0x80, 0xFF)
    } else if width == 2 {
        (0x8000, 0xFFFF)
    } else if width == 4 {
        (0x8000_0000, 0xFFFF_FFFF)
    } else {
        (0x8000_0000_0000_0000, 0xFFFF_FFFF_FFFF_FFFF)
    };
    let pattern: u64 = if neg {
        if m > half {
            let mut msg = string_of(s);
            msg.append(" doesn't fit in a signed ");
            msg.append(usize_to_string(bits).as_str());
            msg.append("-bit value");
            return Err(msg);
        }
        if m == 0 {
            0
        } else {
            max - m + 1
        }
    } else {
        if width < 8 && m > max {
            let mut msg = string_of(s);
            msg.append(" doesn't fit in an unsigned ");
            msg.append(usize_to_string(bits).as_str());
            msg.append("-bit value");
            return Err(msg);
        }
        m
    };
    proof {
        assert(half == pow256(width as nat) / 2);
        assert(max == pow256(width as nat) - 1);
        let sv: int = if neg {
            if width == 8 { (pow256(8) - m) % (pow256(8) as int) } else { pow256(width as nat) - m }
        } else {
            m as int
        };
        if neg && width < 8 && m == 0 {
            // 2^bits has no low bytes set: the same bytes as 0.
            lemma_le_bytes_multiple(width as nat);
            assert(sized(sv as nat, width as nat, big_endian) == sized(pattern as nat, width as nat, big_endian));
        } else {
            assert(sv == pattern as int);
        }
    }
    Ok(sized_bytes(pattern as u128, width, big_endian))
}

/// The low `n` bytes of `256^n` are all zero, as those of 0 are.
proof fn lemma_le_bytes_multiple(n: nat)
    ensures
        crate::editing::le_bytes(pow256(n), n) == crate::editing::le_bytes(0, n),
    decreases n,
{
    if n > 0 {
        lemma_le_bytes_multiple((n - 1) as nat);
        assert(pow256(n) % 256 == 0);
        assert(pow256(n) / 256 == pow256((n - 1) as nat));
    }
}

} // verus!
