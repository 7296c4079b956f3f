//! Small text utilities shared by the library: decimal rendering, joining,
//! comparison, and the few `String`/`str` operations of std used on text.
use vstd::prelude::*;

verus! {

/// `str` equality, as `==` on string slices computes it.
#[verifier::external_body]
pub(crate) fn str_eq(a: &str, b: &str) -> (r: bool)
    ensures
        r == (a@ == b@),
{
    a == b
}

/// Lexicographic order on characters (by code point), which is the order
/// `<` on `str` computes.
pub open spec fn seq_lt(a: Seq<char>, b: Seq<char>) -> bool
    decreases a.len(),
{
    if a.len() == 0 {
        b.len() > 0
    } else if b.len() == 0 {
        false
    } else if a[0] != b[0] {
        (a[0] as u32) < (b[0] as u32)
    } else {
        seq_lt(a.drop_first(), b.drop_first())
    }
}

/// `str` ordering (`a < b`): lexicographic by code point.
#[verifier::external_body]
pub(crate) fn str_lt(a: &str, b: &str) -> (r: bool)
    ensures
        r == seq_lt(a@, b@),
{
    a < b
}

/// Appends one character to a `String` (`String::push`).
#[verifier::external_body]
pub(crate) fn push_char(s: &mut String, c: char)
    ensures
        final(s)@ == old(s)@.push(c),
{
    s.push(c)
}

/// What `String::from_utf8_lossy` gives for `bytes`: their UTF-8 decoding,
/// with each invalid sequence replaced by U+FFFD.
pub uninterp spec fn utf8_lossy(bytes: Seq<u8>) -> Seq<char>;

/// Bytes read as text the lossy way: the plain UTF-8 decoding when the bytes
/// are valid UTF-8, else what `String::from_utf8_lossy` gives.
pub open spec fn lossy_text(bytes: Seq<u8>) -> Seq<char> {
    if vstd::utf8::valid_utf8(bytes) {
        vstd::utf8::decode_utf8(bytes)
    } else {
        utf8_lossy(bytes)
    }
}

/// Decode bytes as UTF-8, replacing invalid sequences (`String::from_utf8_lossy`).
/// The result is named by [`utf8_lossy`]; on valid UTF-8 it is the plain decoding.
#[verifier::external_body]
pub(crate) fn lossy_string(bytes: &[u8]) -> (s: String)
    ensures
        s@ == utf8_lossy(bytes@),
        vstd::utf8::valid_utf8(bytes@) ==> s@ == vstd::utf8::decode_utf8(bytes@),
{
    String::from_utf8_lossy(bytes).into_owned()
}

/// What `format!("{:?}", c)` gives for a character: its quoted, escaped form.
pub uninterp spec fn char_debug(c: char) -> Seq<char>;

/// The `Debug` rendering of a character, e.g. `'x'` or `'\n'`.
#[verifier::external_body]
pub(crate) fn char_debug_string(c: char) -> (s: String)
    ensures
        s@ == char_debug(c),
{
    format!("{:?}", c)
}

/// The character of a decimal digit.
pub open spec fn digit_char(d: nat) -> char {
    (48 + d) as char
}

/// The decimal rendering of a natural number (what `to_string` gives).
pub open spec fn decimal(n: nat) -> Seq<char>
    decreases n,
{
    if n < 10 {
        seq![digit_char(n)]
    } else {
        decimal(n / 10).push(digit_char(n % 10))
    }
}

/// The decimal rendering of an integer, with a leading `-` when negative.
pub open spec fn signed_decimal(n: int) -> Seq<char> {
    if n < 0 {
        seq!['-'] + decimal((-n) as nat)
    } else {
        decimal(n as nat)
    }
}

/// Append the decimal rendering of `n`.
pub fn push_decimal(s: &mut String, n: u64)
    ensures
        final(s)@ == old(s)@ + decimal(n as nat),
    decreases n,
{
    if n >= 10 {
        push_decimal(s, n / 10);
    }
    let d = (n % 10) as u8;
    proof {
        assert(n < 10 ==> n % 10 == n);
    }
    push_char(s, (48 + d) as char);
    assert(s@ == old(s)@ + decimal(n as nat));
}

/// The decimal rendering of an unsigned number.
pub fn u64_to_string(n: u64) -> (s: String)
    ensures
        s@ == decimal(n as nat),
{
    let mut s = String::new();
    push_decimal(&mut s, n);
    assert(s@ =~= decimal(n as nat));
    s
}

/// The decimal rendering of a signed number.
pub fn i64_to_string(n: i64) -> (s: String)
    ensures
        s@ == signed_decimal(n as int),
{
    let mut s = String::new();
    if n < 0 {
        push_char(&mut s, '-');
        let m: u64 = if n == i64::MIN {
            9223372036854775808u64
        } else {
            (-n) as u64
        };
        push_decimal(&mut s, m);
        assert(s@ =~= seq!['-'] + decimal((-n) as nat));
    } else {
        push_decimal(&mut s, n as u64);
        assert(s@ =~= decimal(n as nat));
    }
    s
}

/// Segments joined with a separator between each pair.
pub open spec fn join(parts: Seq<Seq<char>>, sep: Seq<char>) -> Seq<char>
    decreases parts.len(),
{
    if parts.len() == 0 {
        Seq::empty()
    } else if parts.len() == 1 {
        parts[0]
    } else {
        join(parts.drop_last(), sep) + sep + parts.last()
    }
}

/// The characters of each string of a sequence.
pub open spec fn strings_view(parts: Seq<String>) -> Seq<Seq<char>> {
    parts.map_values(|p: String| p@)
}

/// Join strings with a separator (`parts.join(sep)`).
pub fn join_strings(parts: &Vec<String>, sep: &str) -> (s: String)
    ensures
        s@ == join(strings_view(parts@), sep@),
{
    let mut s = String::new();
    let mut i: usize = 0;
    while i < parts.len()
        invariant
            i <= parts@.len(),
            s@ == join(strings_view(parts@.subrange(0, i as int)), sep@),
        decreases parts@.len() - i,
    {
        proof {
            let a = strings_view(parts@.subrange(0, i + 1));
            assert(a.drop_last() =~= strings_view(parts@.subrange(0, i as int)));
            assert(a.last() == parts@[i as int]@);
        }
        if i > 0 {
            s.append(sep);
        }
        s.append(parts[i].as_str());
        proof {
            if i == 0 {
                assert(s@ =~= parts@[0]@);
            }
        }
        i += 1;
    }
    assert(parts@.subrange(0, parts@.len() as int) =~= parts@);
    s
}

/// What `format!("{:?}", s)` gives for a string: its quoted, escaped form.
pub uninterp spec fn str_debug(s: Seq<char>) -> Seq<char>;

/// The `Debug` rendering of a string, e.g. `"a\"b"`.
#[verifier::external_body]
pub(crate) fn str_debug_string(s: &str) -> (r: String)
    ensures
        r@ == str_debug(s@),
{
    format!("{:?}", s)
}

/// The characters of a string, one by one.
pub fn chars_of(s: &str) -> (v: Vec<char>)
    ensures
        v@ == s@,
{
    broadcast use vstd::string::axiom_spec_iter;

    let mut v: Vec<char> = Vec::new();
    for c in it: s.chars()
        invariant
            it.seq() == s@,
            v@ == it.seq().take(it.index()),
    {
        v.push(c);
    }
    assert(s@.take(s@.len() as int) =~= s@);
    v
}

/// A string made of the characters `v`.
pub fn string_of(v: &[char]) -> (s: String)
    ensures
        s@ == v@,
{
    let mut s = String::new();
    let mut i: usize = 0;
    while i < v.len()
        invariant
            i <= v@.len(),
            s@ == v@.take(i as int),
        decreases v@.len() - i,
    {
        push_char(&mut s, v[i]);
        assert(v@.take(i + 1) =~= v@.take(i as int).push(v@[i as int]));
        i += 1;
    }
    assert(v@.take(v@.len() as int) =~= v@);
    s
}

/// Unicode `White_Space`, which `char::is_whitespace` tests.
pub open spec fn is_ws_char(c: char) -> bool {
    let u = c as u32;
    (0x09 <= u <= 0x0D) || u == 0x20 || u == 0x85 || u == 0xA0 || u == 0x1680 || (0x2000 <= u <= 0x200A)
        || u == 0x2028 || u == 0x2029 || u == 0x202F || u == 0x205F || u == 0x3000
}

/// Whether `c` is whitespace (`char::is_whitespace`).
pub fn is_whitespace(c: char) -> (b: bool)
    ensures
        b == is_ws_char(c),
{
    let u = c as u32;
    (0x09 <= u && u <= 0x0D) || u == 0x20 || u == 0x85 || u == 0xA0 || u == 0x1680 || (0x2000 <= u && u
        <= 0x200A) || u == 0x2028 || u == 0x2029 || u == 0x202F || u == 0x205F || u == 0x3000
}

/// `s` without its leading whitespace.
pub open spec fn trim_start(s: Seq<char>) -> Seq<char>
    decreases s.len(),
{
    if s.len() > 0 && is_ws_char(s[0]) {
        trim_start(s.drop_first())
    } else {
        s
    }
}

/// `s` without its trailing whitespace.
pub open spec fn trim_end(s: Seq<char>) -> Seq<char>
    decreases s.len(),
{
    if s.len() > 0 && is_ws_char(s.last()) {
        trim_end(s.drop_last())
    } else {
        s
    }
}

/// `s` without leading and trailing whitespace (`str::trim`).
pub open spec fn trim(s: Seq<char>) -> Seq<char> {
    trim_end(trim_start(s))
}

/// The bounds `(i, j)` of `v` trimmed: `v[i..j]` is `v` without leading and
/// trailing whitespace.
pub fn trim_bounds(v: &[char]) -> (r: (usize, usize))
    ensures
        r.0 <= r.1 <= v@.len(),
        v@.subrange(r.0 as int, r.1 as int) == trim(v@),
        trim_start(v@) == v@.subrange(r.0 as int, v@.len() as int),
{
    let mut i: usize = 0;
    assert(v@.subrange(0, v@.len() as int) =~= v@);
    while i < v.len() && is_whitespace(v[i])
        invariant
            i <= v@.len(),
            trim_start(v@) == trim_start(v@.subrange(i as int, v@.len() as int)),
        decreases v@.len() - i,
    {
        assert(v@.subrange(i as int, v@.len() as int).drop_first() =~= v@.subrange(i + 1, v@.len() as int));
        i += 1;
    }
    let mut j: usize = v.len();
    assert(v@.subrange(i as int, j as int) =~= v@.subrange(i as int, v@.len() as int));
    while j > i && is_whitespace(v[j - 1])
        invariant
            i <= j <= v@.len(),
            trim(v@) == trim_end(v@.subrange(i as int, j as int)),
        decreases j - i,
    {
        assert(v@.subrange(i as int, j as int).drop_last() =~= v@.subrange(i as int, j - 1));
        j -= 1;
    }
    (i, j)
}

/// A string trimmed of leading and trailing whitespace (`str::trim`).
pub fn trim_str(s: &str) -> (r: String)
    ensures
        r@ == trim(s@),
{
    let v = chars_of(s);
    let (i, j) = trim_bounds(v.as_slice());
    let r = string_of(vstd::slice::slice_subrange(v.as_slice(), i, j));
    r
}

/// ASCII lower-casing of one character.
pub open spec fn ascii_lower(c: char) -> char {
    if 'A' <= c <= 'Z' { ((c as u32) + 32) as char } else { c }
}

/// Whether every character is ASCII.
pub open spec fn all_ascii_chars(s: Seq<char>) -> bool {
    forall|i: int| 0 <= i < s.len() ==> (s[i] as u32) < 0x80
}

/// What `str::to_lowercase` gives: Unicode lower-casing.
pub uninterp spec fn lowercase(s: Seq<char>) -> Seq<char>;

/// Unicode lower-casing of a string (`str::to_lowercase`). On ASCII text it is
/// ASCII lower-casing, character by character.
#[verifier::external_body]
pub(crate) fn to_lowercase(s: &str) -> (r: String)
    ensures
        r@ == lowercase(s@),
        all_ascii_chars(s@) ==> r@ == s@.map_values(|c: char| ascii_lower(c)),
{
    s.to_lowercase()
}

/// ASCII case-insensitive equality (`str::eq_ignore_ascii_case`).
pub open spec fn eq_ignore_ascii_case(a: Seq<char>, b: Seq<char>) -> bool {
    a.len() == b.len() && forall|i: int| 0 <= i < a.len() ==> ascii_lower(a[i]) == ascii_lower(b[i])
}

/// The lines of `s` (`str::lines`): split at each `\n`, with a `\r` before it
/// dropped; a final line ending adds no empty line.
pub open spec fn lines(s: Seq<char>) -> Seq<Seq<char>>
    decreases s.len(),
{
    if s.len() == 0 {
        Seq::empty()
    } else {
        let k = first_newline(s);
        if k < s.len() {
            seq![strip_cr(s.subrange(0, k as int))] + lines(s.subrange(k as int + 1, s.len() as int))
        } else {
            seq![strip_cr(s)]
        }
    }
}

/// The index of the first `\n` of `s`, or its length when there is none.
pub open spec fn first_newline(s: Seq<char>) -> nat
    decreases s.len(),
{
    if s.len() == 0 {
        0
    } else if s[0] == '\n' {
        0
    } else {
        1 + first_newline(s.drop_first())
    }
}

/// A line without one trailing `\r`.
pub open spec fn strip_cr(s: Seq<char>) -> Seq<char> {
    if s.len() > 0 && s.last() == '\r' { s.drop_last() } else { s }
}

pub proof fn lemma_first_newline(s: Seq<char>)
    ensures
        first_newline(s) <= s.len(),
        forall|i: int| 0 <= i < first_newline(s) ==> s[i] != '\n',
        first_newline(s) < s.len() ==> s[first_newline(s) as int] == '\n',
    decreases s.len(),
{
    if s.len() > 0 && s[0] != '\n' {
        lemma_first_newline(s.drop_first());
        assert forall|i: int| 0 <= i < first_newline(s) implies s[i] != '\n' by {
            if i > 0 {
                assert(s[i] == s.drop_first()[i - 1]);
            }
        }
    }
}

/// Why text is not an integer (as `core::num::IntErrorKind` tells it).
#[derive(Debug, Clone, Copy, PartialEq, Eq, Structural)]
pub enum IntError {
    Empty,
    InvalidDigit,
    PosOverflow,
    NegOverflow,
}

impl IntError {
    /// The message `ParseIntError` displays for this kind.
    pub fn message(self) -> (s: String)
        ensures
            s@ == int_error_message(self),
    {
        match self {
            IntError::Empty => String::from_str("cannot parse integer from empty string"),
            IntError::InvalidDigit => String::from_str("invalid digit found in string"),
            IntError::PosOverflow => String::from_str("number too large to fit in target type"),
            IntError::NegOverflow => String::from_str("number too small to fit in target type"),
        }
    }
}

pub open spec fn int_error_message(e: IntError) -> Seq<char> {
    match e {
        IntError::Empty => "cannot parse integer from empty string"@,
        IntError::InvalidDigit => "invalid digit found in string"@,
        IntError::PosOverflow => "number too large to fit in target type"@,
        IntError::NegOverflow => "number too small to fit in target type"@,
    }
}

/// The value of a digit character in `radix` (up to 36), if it is one.
pub open spec fn digit_in(c: char, radix: nat) -> Option<nat> {
    let u = c as u32;
    let v: int = if 0x30 <= u <= 0x39 {
        u - 0x30
    } else if 0x61 <= u <= 0x7A {
        u - 0x61 + 10
    } else if 0x41 <= u <= 0x5A {
        u - 0x41 + 10
    } else {
        99
    };
    if v < radix { Some(v as nat) } else { None }
}

/// Digits read left to right onto `acc` (subtracting when `neg`); the first
/// invalid digit or the first step outside `[lo, hi]` is the error.
pub open spec fn fold_digits(ds: Seq<char>, radix: nat, acc: int, neg: bool, lo: int, hi: int) -> Result<int, IntError>
    decreases ds.len(),
{
    if ds.len() == 0 {
        Ok(acc)
    } else {
        match digit_in(ds[0], radix) {
            None => Err(IntError::InvalidDigit),
            Some(d) => {
                let a = if neg { acc * radix - d } else { acc * radix + d };
                if a > hi {
                    Err(IntError::PosOverflow)
                } else if a < lo {
                    Err(IntError::NegOverflow)
                } else {
                    fold_digits(ds.drop_first(), radix, a, neg, lo, hi)
                }
            },
        }
    }
}

/// Integer text in `radix` as `from_str_radix` reads it into a type with
/// range `[lo, hi]`: an optional `+` (or `-` when `signed`), then digits.
pub open spec fn parse_int(s: Seq<char>, radix: nat, signed: bool, lo: int, hi: int) -> Result<int, IntError> {
    if s.len() == 0 {
        Err(IntError::Empty)
    } else if (s[0] == '+' || s[0] == '-') && s.len() == 1 {
        Err(IntError::InvalidDigit)
    } else if s[0] == '+' {
        fold_digits(s.drop_first(), radix, 0, false, lo, hi)
    } else if s[0] == '-' && signed {
        fold_digits(s.drop_first(), radix, 0, true, lo, hi)
    } else {
        fold_digits(s, radix, 0, false, lo, hi)
    }
}

fn digit_value_in(c: char, radix: u32) -> (r: Option<u32>)
    requires
        2 <= radix <= 36,
    ensures
        match digit_in(c, radix as nat) {
            Some(d) => r == Some(d as u32),
            None => r is None,
        },
{
    let u = c as u32;
    let v: u32 = if 0x30 <= u && u <= 0x39 {
        u - 0x30
    } else if 0x61 <= u && u <= 0x7A {
        u - 0x61 + 10
    } else if 0x41 <= u && u <= 0x5A {
        u - 0x41 + 10
    } else {
        99
    };
    if v < radix { Some(v) } else { None }
}

/// Parse `s[from..]` as an `i128` in `radix` (`i128::from_str_radix`).
pub fn parse_i128_radix(s: &[char], radix: u32) -> (r: Result<i128, IntError>)
    requires
        2 <= radix <= 36,
    ensures
        match parse_int(s@, radix as nat, true, i128::MIN as int, i128::MAX as int) {
            Ok(v) => r matches Ok(x) && x as int == v,
            Err(e) => r == Err::<i128, IntError>(e),
        },
{
    if s.len() == 0 {
        return Err(IntError::Empty);
    }
    if (s[0] == '+' || s[0] == '-') && s.len() == 1 {
        return Err(IntError::InvalidDigit);
    }
    let neg = s[0] == '-';
    let start: usize = if s[0] == '+' || s[0] == '-' { 1 } else { 0 };
    let ghost ds = s@.subrange(start as int, s@.len() as int);
    proof {
        if start == 1 {
            assert(ds =~= s@.drop_first());
        } else {
            assert(ds =~= s@);
        }
    }
    let mut acc: i128 = 0;
    let mut i: usize = start;
    while i < s.len()
        invariant
            start <= i <= s@.len(),
            2 <= radix <= 36,
            ds == s@.subrange(start as int, s@.len() as int),
            neg ==> acc <= 0,
            !neg ==> acc >= 0,
            parse_int(s@, radix as nat, true, i128::MIN as int, i128::MAX as int) == fold_digits(
                ds,
                radix as nat,
                0,
                neg,
                i128::MIN as int,
                i128::MAX as int,
            ),
            fold_digits(ds, radix as nat, 0, neg, i128::MIN as int, i128::MAX as int) == fold_digits(
                s@.subrange(i as int, s@.len() as int),
                radix as nat,
                acc as int,
                neg,
                i128::MIN as int,
                i128::MAX as int,
            ),
        decreases s@.len() - i,
    {
        assert(s@.subrange(i as int, s@.len() as int).drop_first() =~= s@.subrange(i + 1, s@.len() as int));
        let d = match digit_value_in(s[i], radix) {
            Some(d) => d,
            None => return Err(IntError::InvalidDigit),
        };
        let m = match acc.checked_mul(radix as i128) {
            Some(m) => m,
            None => {
                proof {
                    if neg {
                        assert(acc * radix - d < i128::MIN) by (nonlinear_arith)
                            requires
                                acc * radix < i128::MIN || acc * radix > i128::MAX,
                                acc <= 0,
                                d >= 0,
                        ;
                    } else {
                        assert(acc * radix + d > i128::MAX) by (nonlinear_arith)
                            requires
                                acc * radix < i128::MIN || acc * radix > i128::MAX,
                                acc >= 0,
                                d >= 0,
                        ;
                    }
                }
                return Err(if neg { IntError::NegOverflow } else { IntError::PosOverflow });
            },
        };
        assert(neg ==> m <= 0) by (nonlinear_arith)
            requires
                m == acc * radix,
                neg ==> acc <= 0,
                radix >= 2,
        ;
        assert(!neg ==> m >= 0) by (nonlinear_arith)
            requires
                m == acc * radix,
                !neg ==> acc >= 0,
                radix >= 2,
        ;
        let next = if neg { m.checked_sub(d as i128) } else { m.checked_add(d as i128) };
        acc = match next {
            Some(a) => a,
            None => return Err(if neg { IntError::NegOverflow } else { IntError::PosOverflow }),
        };
        i += 1;
    }
    Ok(acc)
}

/// Parse `s` as a `u64` in `radix` (`u64::from_str_radix`).
pub fn parse_u64_radix(s: &[char], radix: u32) -> (r: Result<u64, IntError>)
    requires
        2 <= radix <= 36,
    ensures
        match parse_int(s@, radix as nat, false, 0, u64::MAX as int) {
            Ok(v) => r matches Ok(x) && x as int == v,
            Err(e) => r == Err::<u64, IntError>(e),
        },
{
    if s.len() == 0 {
        return Err(IntError::Empty);
    }
    if (s[0] == '+' || s[0] == '-') && s.len() == 1 {
        return Err(IntError::InvalidDigit);
    }
    let start: usize = if s[0] == '+' { 1 } else { 0 };
    let ghost ds = s@.subrange(start as int, s@.len() as int);
    proof {
        if start == 1 {
            assert(ds =~= s@.drop_first());
        } else {
            assert(ds =~= s@);
        }
    }
    let mut acc: u64 = 0;
    let mut i: usize = start;
    while i < s.len()
        invariant
            start <= i <= s@.len(),
            2 <= radix <= 36,
            ds == s@.subrange(start as int, s@.len() as int),
            parse_int(s@, radix as nat, false, 0, u64::MAX as int) == fold_digits(ds, radix as nat, 0, false, 0, u64::MAX as int),
            fold_digits(ds, radix as nat, 0, false, 0, u64::MAX as int) == fold_digits(
                s@.subrange(i as int, s@.len() as int),
                radix as nat,
                acc as int,
                false,
                0,
                u64::MAX as int,
            ),
        decreases s@.len() - i,
    {
        assert(s@.subrange(i as int, s@.len() as int).drop_first() =~= s@.subrange(i + 1, s@.len() as int));
        let d = match digit_value_in(s[i], radix) {
            Some(d) => d,
            None => return Err(IntError::InvalidDigit),
        };
        let m = match acc.checked_mul(radix as u64) {
            Some(m) => m,
            None => {
                assert(acc * radix + d > u64::MAX) by (nonlinear_arith)
                    requires
                        acc * radix > u64::MAX,
                        d >= 0,
                ;
                return Err(IntError::PosOverflow);
            },
        };
        acc = match m.checked_add(d as u64) {
            Some(a) => a,
            None => return Err(IntError::PosOverflow),
        };
        i += 1;
    }
    Ok(acc)
}

/// Append the decimal rendering of a 128-bit number.
pub fn push_decimal_u128(s: &mut String, n: u128)
    ensures
        final(s)@ == old(s)@ + decimal(n as nat),
    decreases n,
{
    if n >= 10 {
        push_decimal_u128(s, n / 10);
    }
    let d = (n % 10) as u8;
    proof {
        assert(n < 10 ==> n % 10 == n);
    }
    push_char(s, (48 + d) as char);
    assert(s@ == old(s)@ + decimal(n as nat));
}

/// The decimal rendering of a 128-bit signed number.
pub fn i128_to_string(n: i128) -> (s: String)
    ensures
        s@ == signed_decimal(n as int),
{
    let mut s = String::new();
    if n < 0 {
        push_char(&mut s, '-');
        let m: u128 = if n == i128::MIN {
            170141183460469231731687303715884105728u128
        } else {
            (-n) as u128
        };
        push_decimal_u128(&mut s, m);
        assert(s@ =~= seq!['-'] + decimal((-n) as nat));
    } else {
        push_decimal_u128(&mut s, n as u128);
        assert(s@ =~= decimal(n as nat));
    }
    s
}

/// The decimal rendering of a `usize`.
pub fn usize_to_string(n: usize) -> (s: String)
    ensures
        s@ == decimal(n as nat),
{
    u64_to_string(n as u64)
}

/// Whether two character sequences are equal.
pub fn chars_equal(a: &[char], b: &[char]) -> (r: bool)
    ensures
        r == (a@ == b@),
{
    if a.len() != b.len() {
        return false;
    }
    let mut i: usize = 0;
    while i < a.len()
        invariant
            a@.len() == b@.len(),
            i <= a@.len(),
            forall|k: int| 0 <= k < i ==> a@[k] == b@[k],
        decreases a@.len() - i,
    {
        if a[i] != b[i] {
            return false;
        }
        i += 1;
    }
    assert(a@ =~= b@);
    true
}

/// Whether a character sequence spells `lit`.
pub fn chars_are(a: &[char], lit: &str) -> (r: bool)
    ensures
        r == (a@ == lit@),
{
    let l = chars_of(lit);
    chars_equal(a, l.as_slice())
}

/// `s` without its whitespace characters.
pub open spec fn remove_ws(s: Seq<char>) -> Seq<char> {
    s.filter(|c: char| !is_ws_char(c))
}

/// `s` without its whitespace characters (a filter).
pub fn without_ws(s: &[char]) -> (r: Vec<char>)
    ensures
        r@ == remove_ws(s@),
{
    let mut out: Vec<char> = Vec::new();
    let mut i: usize = 0;
    while i < s.len()
        invariant
            i <= s@.len(),
            out@ == s@.take(i as int).filter(|c: char| !is_ws_char(c)),
        decreases s@.len() - i,
    {
        proof {
            reveal(Seq::filter);
            assert(s@.take(i + 1).drop_last() =~= s@.take(i as int));
        }
        if !is_whitespace(s[i]) {
            out.push(s[i]);
        }
        i += 1;
    }
    assert(s@.take(s@.len() as int) =~= s@);
    out
}


/// `s` without the prefix `p`, when it starts with it (`str::strip_prefix`).
pub fn strip_prefix(s: &str, p: &str) -> (r: Option<String>)
    ensures
        (p@.len() <= s@.len() && s@.take(p@.len() as int) == p@) ==> (r matches Some(t) && t@ == s@.skip(
            p@.len() as int,
        )),
        !(p@.len() <= s@.len() && s@.take(p@.len() as int) == p@) ==> r is None,
{
    let v = chars_of(s);
    let w = chars_of(p);
    if w.len() > v.len() {
        return None;
    }
    let head = vstd::slice::slice_subrange(v.as_slice(), 0, w.len());
    assert(head@ =~= s@.take(p@.len() as int));
    if chars_equal(head, w.as_slice()) {
        let rest = vstd::slice::slice_subrange(v.as_slice(), w.len(), v.len());
        assert(rest@ =~= s@.skip(p@.len() as int));
        Some(string_of(rest))
    } else {
        None
    }
}

/// The position of the first `c` in `s` at or after `i`.
pub open spec fn find_char(s: Seq<char>, c: char, i: nat) -> Option<nat>
    decreases s.len() - i,
{
    if i >= s.len() {
        None
    } else if s[i as int] == c {
        Some(i)
    } else {
        find_char(s, c, i + 1)
    }
}

/// `s` split around its first `c` (`str::split_once`).
pub fn split_once(s: &str, c: char) -> (r: Option<(String, String)>)
    ensures
        match find_char(s@, c, 0) {
            Some(i) => r matches Some((a, b)) && a@ == s@.take(i as int) && b@ == s@.skip(i as int + 1),
            None => r is None,
        },
{
    let v = chars_of(s);
    let mut i: usize = 0;
    while i < v.len()
        invariant
            i <= v@.len(),
            v@ == s@,
            find_char(s@, c, 0) == find_char(s@, c, i as nat),
        decreases v@.len() - i,
    {
        if v[i] == c {
            let a = string_of(vstd::slice::slice_subrange(v.as_slice(), 0, i));
            let b = string_of(vstd::slice::slice_subrange(v.as_slice(), i + 1, v.len()));
            assert(a@ =~= s@.take(i as int));
            assert(b@ =~= s@.skip(i + 1));
            return Some((a, b));
        }
        i += 1;
    }
    None
}

} // verus!
