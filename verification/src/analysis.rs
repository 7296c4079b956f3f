//! Heuristics for bytes of unknown layout: runs of readable text (ASCII and
//! UTF-16LE), per-offset guesses (strings, Unix timestamps, UUIDs), and the
//! integer side of the byte-entropy view.
use vstd::prelude::*;

use crate::reader::{be_value, bytes_as_chars, decode_be, decode_le, le_value};
use crate::text::{decimal, push_char, push_decimal, str_debug, str_debug_string};

verus! {

/// How a detected string was encoded.
#[derive(Debug, Clone, Copy, PartialEq, Eq, Structural)]
pub enum Encoding {
    Ascii,
    Utf16Le,
}

/// A run of readable text found in the bytes.
#[derive(Debug, Clone)]
pub struct StringHit {
    /// Byte offset where the run starts.
    pub offset: usize,
    /// Number of bytes the run occupies (twice the char count for UTF-16LE).
    pub len: usize,
    pub encoding: Encoding,
    pub text: String,
}

/// A string hit as plain values.
pub struct HitModel {
    pub offset: nat,
    pub len: nat,
    pub encoding: Encoding,
    pub text: Seq<char>,
}

impl StringHit {
    pub open spec fn model(&self) -> HitModel {
        HitModel { offset: self.offset as nat, len: self.len as nat, encoding: self.encoding, text: self.text@ }
    }
}

/// The models of a list of hits.
pub open spec fn hits_view(v: Seq<StringHit>) -> Seq<HitModel> {
    v.map_values(|h: StringHit| h.model())
}

/// A visible ASCII glyph or a plain space (tabs and newlines excluded).
pub open spec fn printable(b: u8) -> bool {
    0x20 <= b <= 0x7E
}

fn is_printable(b: u8) -> (r: bool)
    ensures
        r == printable(b),
{
    0x20 <= b && b <= 0x7E
}

/// How many printable bytes `s` starts with.
pub open spec fn printable_prefix(s: Seq<u8>) -> nat
    decreases s.len(),
{
    if s.len() == 0 || !printable(s[0]) {
        0
    } else {
        1 + printable_prefix(s.drop_first())
    }
}

proof fn lemma_printable_prefix(s: Seq<u8>, k: nat)
    requires
        k <= s.len(),
        forall|j: int| 0 <= j < k ==> printable(#[trigger] s[j]),
    ensures
        k == s.len() || !printable(s[k as int]) ==> printable_prefix(s) == k,
        k <= printable_prefix(s),
    decreases k,
{
    if k > 0 {
        let t = s.drop_first();
        assert forall|j: int| 0 <= j < k - 1 implies printable(#[trigger] t[j]) by {
            assert(t[j] == s[j + 1]);
        }
        lemma_printable_prefix(t, (k - 1) as nat);
    }
}

proof fn lemma_printable_prefix_bound(s: Seq<u8>)
    ensures
        printable_prefix(s) <= s.len(),
    decreases s.len(),
{
    if s.len() > 0 && printable(s[0]) {
        lemma_printable_prefix_bound(s.drop_first());
    }
}

/// The leading printable run of `bytes` as text, when it is at least
/// `min_len` long.
pub open spec fn spec_printable_run(bytes: Seq<u8>, min_len: nat) -> Option<Seq<char>> {
    let run = printable_prefix(bytes);
    if run >= min_len {
        Some(bytes_as_chars(bytes.take(run as int)))
    } else {
        None
    }
}

/// The characters of `bytes[start..start + n]`, one per byte.
fn chars_of_bytes(bytes: &[u8], start: usize, n: usize) -> (s: String)
    requires
        start + n <= bytes@.len(),
    ensures
        s@ == bytes_as_chars(bytes@.subrange(start as int, start + n)),
{
    let mut s = String::new();
    let mut k: usize = 0;
    while k < n
        invariant
            k <= n,
            start + n <= bytes.len(),
            s@ == bytes_as_chars(bytes@.subrange(start as int, start + k)),
        decreases n - k,
    {
        push_char(&mut s, bytes[start + k] as char);
        assert(bytes_as_chars(bytes@.subrange(start as int, start + k + 1)) =~= bytes_as_chars(
            bytes@.subrange(start as int, start + k),
        ).push(bytes@[start + k] as char));
        k += 1;
    }
    s
}

/// If `bytes` begins with at least `min_len` printable ASCII characters, that
/// leading run as text; otherwise `None`.
pub fn is_printable_run(bytes: &[u8], min_len: usize) -> (r: Option<String>)
    ensures
        match spec_printable_run(bytes@, min_len as nat) {
            Some(t) => r matches Some(s) && s@ == t,
            None => r is None,
        },
{
    let mut run: usize = 0;
    while run < bytes.len() && is_printable(bytes[run])
        invariant
            run <= bytes@.len(),
            forall|j: int| 0 <= j < run ==> printable(#[trigger] bytes@[j]),
        decreases bytes@.len() - run,
    {
        run += 1;
    }
    proof {
        lemma_printable_prefix(bytes@, run as nat);
    }
    if run >= min_len {
        let s = chars_of_bytes(bytes, 0, run);
        assert(bytes@.subrange(0, run as int) =~= bytes@.take(run as int));
        Some(s)
    } else {
        None
    }
}

/// The hit a finished ASCII run gives, if it is long enough.
pub open spec fn ascii_flush(s: Seq<u8>, start: nat, run: nat, min_len: nat) -> Seq<HitModel> {
    if run >= min_len {
        seq![HitModel {
            offset: start,
            len: run,
            encoding: Encoding::Ascii,
            text: bytes_as_chars(s.subrange(start as int, (start + run) as int)),
        }]
    } else {
        Seq::empty()
    }
}

/// The ASCII hits from position `i` on, with a run of `run` printable bytes
/// begun at `start` still open: every maximal run of printable bytes at least
/// `min_len` long, in order.
pub open spec fn ascii_scan(s: Seq<u8>, min_len: nat, i: nat, start: nat, run: nat) -> Seq<HitModel>
    decreases s.len() - i,
{
    if i >= s.len() {
        ascii_flush(s, start, run, min_len)
    } else if printable(s[i as int]) {
        ascii_scan(s, min_len, i + 1, if run == 0 { i } else { start }, run + 1)
    } else {
        ascii_flush(s, start, run, min_len) + ascii_scan(s, min_len, i + 1, start, 0)
    }
}

/// The hit a finished UTF-16LE run of `chars` characters gives, if it is long
/// enough.
pub open spec fn utf16_flush(s: Seq<u8>, start: nat, chars: nat, min_len: nat) -> Seq<HitModel> {
    if chars >= min_len {
        seq![HitModel {
            offset: start,
            len: 2 * chars,
            encoding: Encoding::Utf16Le,
            text: Seq::new(chars, |k: int| s[start + 2 * k] as char),
        }]
    } else {
        Seq::empty()
    }
}

/// The UTF-16LE hits from position `i` on: runs of `printable, 0x00` pairs.
/// A pair advances by two bytes, anything else by one.
pub open spec fn utf16_scan(s: Seq<u8>, min_len: nat, i: nat, start: nat, chars: nat) -> Seq<HitModel>
    decreases s.len() - i,
{
    if i + 1 >= s.len() {
        utf16_flush(s, start, chars, min_len)
    } else if printable(s[i as int]) && s[(i + 1) as int] == 0 {
        utf16_scan(s, min_len, i + 2, if chars == 0 { i } else { start }, chars + 1)
    } else {
        utf16_flush(s, start, chars, min_len) + utf16_scan(s, min_len, i + 1, start, 0)
    }
}

/// `h` placed after every hit of `sorted` whose offset is not greater.
pub open spec fn insert_by_offset(sorted: Seq<HitModel>, h: HitModel) -> Seq<HitModel>
    decreases sorted.len(),
{
    if sorted.len() == 0 {
        seq![h]
    } else if sorted.last().offset <= h.offset {
        sorted.push(h)
    } else {
        insert_by_offset(sorted.drop_last(), h).push(sorted.last())
    }
}

/// The stable sort of `hs` by offset.
pub open spec fn sort_by_offset(hs: Seq<HitModel>) -> Seq<HitModel>
    decreases hs.len(),
{
    if hs.len() == 0 {
        Seq::empty()
    } else {
        insert_by_offset(sort_by_offset(hs.drop_last()), hs.last())
    }
}

/// What `find_strings` returns: the ASCII hits, then the UTF-16LE hits,
/// stably sorted by offset (a minimum length below 1 counts as 1).
pub open spec fn spec_find_strings(bytes: Seq<u8>, min_len: nat) -> Seq<HitModel> {
    let m: nat = if min_len < 1 { 1 } else { min_len };
    sort_by_offset(ascii_scan(bytes, m, 0, 0, 0) + utf16_scan(bytes, m, 0, 0, 0))
}

// ---------------------------------------------------------------------------
// Ordering of the string hits.

/// Hits in non-decreasing offset order.
pub open spec fn offsets_ascending(s: Seq<HitModel>) -> bool {
    forall|i: int, j: int| 0 <= i < j < s.len() ==> s[i].offset <= s[j].offset
}

proof fn lemma_insert_by_offset(sorted: Seq<HitModel>, h: HitModel)
    requires
        offsets_ascending(sorted),
    ensures
        offsets_ascending(insert_by_offset(sorted, h)),
        insert_by_offset(sorted, h).len() == sorted.len() + 1,
        forall|k: int| 0 <= k < insert_by_offset(sorted, h).len() ==> #[trigger] insert_by_offset(sorted, h)[k] == h
            || sorted.contains(insert_by_offset(sorted, h)[k]),
    decreases sorted.len(),
{
    let r = insert_by_offset(sorted, h);
    if sorted.len() == 0 {
    } else if sorted.last().offset <= h.offset {
        assert forall|k: int| 0 <= k < r.len() implies #[trigger] r[k] == h || sorted.contains(r[k]) by {
            if k < sorted.len() {
                assert(r[k] == sorted[k]);
            }
        }
    } else {
        let d = sorted.drop_last();
        let last = sorted.last();
        assert(offsets_ascending(d));
        lemma_insert_by_offset(d, h);
        let q = insert_by_offset(d, h);
        assert forall|k: int| 0 <= k < q.len() implies (#[trigger] q[k]).offset <= last.offset by {
            if q[k] != h {
                assert(d.contains(q[k]));
                let j = choose|j: int| 0 <= j < d.len() && d[j] == q[k];
                assert(sorted[j] == d[j]);
                assert(sorted[sorted.len() - 1] == last);
            }
        }
        assert forall|k: int| 0 <= k < r.len() implies #[trigger] r[k] == h || sorted.contains(r[k]) by {
            if k < q.len() {
                assert(r[k] == q[k]);
                if q[k] != h {
                    let j = choose|j: int| 0 <= j < d.len() && d[j] == q[k];
                    assert(sorted[j] == d[j]);
                }
            } else {
                assert(r[k] == last);
                assert(sorted[sorted.len() - 1] == last);
            }
        }
        assert forall|i: int, j: int| 0 <= i < j < r.len() implies r[i].offset <= r[j].offset by {
            if j < q.len() {
                assert(r[i] == q[i] && r[j] == q[j]);
            } else {
                assert(r[i] == q[i]);
            }
        }
    }
}

proof fn lemma_sort_by_offset(hs: Seq<HitModel>)
    ensures
        offsets_ascending(sort_by_offset(hs)),
        sort_by_offset(hs).len() == hs.len(),
    decreases hs.len(),
{
    if hs.len() > 0 {
        lemma_sort_by_offset(hs.drop_last());
        lemma_insert_by_offset(sort_by_offset(hs.drop_last()), hs.last());
    }
}

/// The hits `find_strings` reports come in non-decreasing offset order, and
/// there are exactly as many as the two scans found together.
pub proof fn law_strings_ordered_by_offset(bytes: Seq<u8>, min_len: nat)
    ensures
        offsets_ascending(spec_find_strings(bytes, min_len)),
        spec_find_strings(bytes, min_len).len() == ascii_scan(bytes, if min_len < 1 { 1 } else { min_len }, 0, 0, 0).len()
            + utf16_scan(bytes, if min_len < 1 { 1 } else { min_len }, 0, 0, 0).len(),
{
    let m: nat = if min_len < 1 { 1 } else { min_len };
    lemma_sort_by_offset(ascii_scan(bytes, m, 0, 0, 0) + utf16_scan(bytes, m, 0, 0, 0));
}

fn flush_ascii(bytes: &[u8], start: usize, run: usize, min_len: usize, hits: &mut Vec<StringHit>)
    requires
        start + run <= bytes@.len(),
    ensures
        hits_view(final(hits)@) == hits_view(old(hits)@) + ascii_flush(
            bytes@,
            start as nat,
            run as nat,
            min_len as nat,
        ),
{
    if run >= min_len {
        let text = chars_of_bytes(bytes, start, run);
        let h = StringHit { offset: start, len: run, encoding: Encoding::Ascii, text };
        hits.push(h);
        assert(hits_view(hits@) =~= hits_view(old(hits)@).push(h.model()));
    } else {
        assert(hits_view(hits@) =~= hits_view(old(hits)@) + Seq::<HitModel>::empty());
    }
}

fn scan_ascii(bytes: &[u8], min_len: usize) -> (hits: Vec<StringHit>)
    ensures
        hits_view(hits@) == ascii_scan(bytes@, min_len as nat, 0, 0, 0),
{
    let mut hits: Vec<StringHit> = Vec::new();
    let mut start: usize = 0;
    let mut run: usize = 0;
    let mut i: usize = 0;
    assert(hits_view(hits@) =~= Seq::<HitModel>::empty());
    while i < bytes.len()
        invariant
            i <= bytes@.len(),
            start + run == i || run == 0,
            start <= i,
            hits_view(hits@) + ascii_scan(bytes@, min_len as nat, i as nat, start as nat, run as nat)
                == ascii_scan(bytes@, min_len as nat, 0, 0, 0),
        decreases bytes@.len() - i,
    {
        let ghost before = hits_view(hits@);
        if is_printable(bytes[i]) {
            if run == 0 {
                start = i;
            }
            run += 1;
        } else {
            flush_ascii(bytes, start, run, min_len, &mut hits);
            assert(hits_view(hits@) + ascii_scan(bytes@, min_len as nat, (i + 1) as nat, start as nat, 0)
                =~= before + ascii_scan(bytes@, min_len as nat, i as nat, start as nat, run as nat));
            run = 0;
        }
        i += 1;
    }
    flush_ascii(bytes, start, run, min_len, &mut hits);
    hits
}

fn flush_utf16(bytes: &[u8], start: usize, chars: usize, min_len: usize, hits: &mut Vec<StringHit>)
    requires
        start + 2 * chars <= bytes.len(),
    ensures
        hits_view(final(hits)@) == hits_view(old(hits)@) + utf16_flush(
            bytes@,
            start as nat,
            chars as nat,
            min_len as nat,
        ),
{
    if chars >= min_len {
        let mut text = String::new();
        let mut k: usize = 0;
        while k < chars
            invariant
                k <= chars,
                start + 2 * chars <= bytes.len(),
                text@ == Seq::new(k as nat, |j: int| bytes@[start + 2 * j] as char),
            decreases chars - k,
        {
            push_char(&mut text, bytes[start + k * 2] as char);
            assert(text@ =~= Seq::new((k + 1) as nat, |j: int| bytes@[start + 2 * j] as char));
            k += 1;
        }
        let h = StringHit { offset: start, len: chars * 2, encoding: Encoding::Utf16Le, text };
        hits.push(h);
        assert(hits_view(hits@) =~= hits_view(old(hits)@).push(h.model()));
    } else {
        assert(hits_view(hits@) =~= hits_view(old(hits)@) + Seq::<HitModel>::empty());
    }
}

fn scan_utf16le(bytes: &[u8], min_len: usize) -> (hits: Vec<StringHit>)
    ensures
        hits_view(hits@) == utf16_scan(bytes@, min_len as nat, 0, 0, 0),
{
    let mut hits: Vec<StringHit> = Vec::new();
    let mut start: usize = 0;
    let mut chars: usize = 0;
    let mut i: usize = 0;
    assert(hits_view(hits@) =~= Seq::<HitModel>::empty());
    while i < bytes.len() && i + 1 < bytes.len()
        invariant
            i <= bytes@.len(),
            start + 2 * chars == i || chars == 0,
            start <= i,
            hits_view(hits@) + utf16_scan(bytes@, min_len as nat, i as nat, start as nat, chars as nat)
                == utf16_scan(bytes@, min_len as nat, 0, 0, 0),
        decreases bytes@.len() - i,
    {
        let ghost before = hits_view(hits@);
        let printable_pair = is_printable(bytes[i]) && bytes[i + 1] == 0x00;
        if printable_pair {
            if chars == 0 {
                start = i;
            }
            chars += 1;
            i += 2;
        } else {
            flush_utf16(bytes, start, chars, min_len, &mut hits);
            assert(hits_view(hits@) + utf16_scan(bytes@, min_len as nat, (i + 1) as nat, start as nat, 0)
                =~= before + utf16_scan(bytes@, min_len as nat, i as nat, start as nat, chars as nat));
            chars = 0;
            i += 1;
        }
    }
    flush_utf16(bytes, start, chars, min_len, &mut hits);
    hits
}

proof fn lemma_insert_at(sorted: Seq<HitModel>, h: HitModel, j: int)
    requires
        0 <= j <= sorted.len(),
        forall|k: int| j <= k < sorted.len() ==> (#[trigger] sorted[k]).offset > h.offset,
        j > 0 ==> sorted[j - 1].offset <= h.offset,
    ensures
        insert_by_offset(sorted, h) == sorted.insert(j, h),
    decreases sorted.len(),
{
    if sorted.len() == 0 {
        assert(sorted.insert(j, h) =~= seq![h]);
    } else if sorted.last().offset <= h.offset {
        assert(sorted.insert(j, h) =~= sorted.push(h));
    } else {
        let d = sorted.drop_last();
        lemma_insert_at(d, h, j);
        assert(sorted.insert(j, h) =~= d.insert(j, h).push(sorted.last()));
    }
}

/// Insert `h` into `v` after every hit whose offset is not greater.
fn insert_hit(v: &mut Vec<StringHit>, h: StringHit)
    ensures
        hits_view(final(v)@) == insert_by_offset(hits_view(old(v)@), h.model()),
{
    let ghost hv = hits_view(v@);
    let mut j: usize = v.len();
    while j > 0 && v[j - 1].offset > h.offset
        invariant
            j <= v@.len(),
            hv == hits_view(v@),
            forall|k: int| j <= k < v@.len() ==> (#[trigger] hv[k]).offset > h.offset,
        decreases j,
    {
        j -= 1;
    }
    proof {
        lemma_insert_at(hv, h.model(), j as int);
    }
    v.insert(j, h);
    assert(hits_view(v@) =~= hv.insert(j as int, h.model()));
}

/// Find readable strings of at least `min_len` characters: ASCII runs and
/// UTF-16LE runs (`printable, 0x00` pairs), each found by its own pass, so a
/// run may appear once per encoding; the hits come ordered by offset.
pub fn find_strings(bytes: &[u8], min_len: usize) -> (hits: Vec<StringHit>)
    ensures
        hits_view(hits@) == spec_find_strings(bytes@, min_len as nat),
{
    let m: usize = if min_len < 1 { 1 } else { min_len };
    let mut all = scan_ascii(bytes, m);
    let mut rest = scan_utf16le(bytes, m);
    let ghost a0 = all@;
    let ghost r0 = rest@;
    all.append(&mut rest);
    let ghost hs = hits_view(all@);
    assert(hs =~= hits_view(a0) + hits_view(r0));
    let mut out: Vec<StringHit> = Vec::new();
    assert(hits_view(out@) =~= Seq::<HitModel>::empty());
    assert(hs.subrange(0, 0) =~= Seq::<HitModel>::empty());
    while all.len() > 0
        invariant
            all@.len() <= hs.len(),
            hits_view(all@) == hs.subrange(hs.len() - all@.len(), hs.len() as int),
            hits_view(out@) == sort_by_offset(hs.subrange(0, hs.len() - all@.len())),
        decreases all@.len(),
    {
        let ghost i = hs.len() - all@.len();
        let ghost before = all@;
        let h = all.remove(0);
        proof {
            assert(h.model() == hits_view(before)[0]);
            assert(hs[i] == h.model());
            assert(all@ =~= before.subrange(1, before.len() as int));
            assert forall|k: int| 0 <= k < all@.len() implies hits_view(all@)[k] == hs.subrange(
                i + 1,
                hs.len() as int,
            )[k] by {
                assert(hits_view(all@)[k] == hits_view(before)[k + 1]);
            }
            assert(hits_view(all@) =~= hs.subrange(i + 1, hs.len() as int));
            assert(hs.subrange(0, i + 1).drop_last() =~= hs.subrange(0, i));
            assert(hs.subrange(0, i + 1).last() == hs[i]);
        }
        insert_hit(&mut out, h);
    }
    assert(hs.subrange(0, hs.len() as int) =~= hs);
    out
}


// ---------------------------------------------------------------------------
// Calendar rendering of Unix times.

/// Gregorian leap years.
pub open spec fn is_leap(y: nat) -> bool {
    (y % 4 == 0 && y % 100 != 0) || y % 400 == 0
}

pub open spec fn days_in_year(y: nat) -> nat {
    if is_leap(y) { 366 } else { 365 }
}

/// Days of month `m` (1-12) of year `y`.
pub open spec fn days_in_month(y: nat, m: nat) -> nat {
    if m == 2 {
        if is_leap(y) { 29 } else { 28 }
    } else if m == 4 || m == 6 || m == 9 || m == 11 {
        30
    } else {
        31
    }
}

/// The year, and the day within it, reached `days` days after January 1 of `y`.
pub open spec fn year_and_day(days: nat, y: nat) -> (nat, nat)
    decreases days,
{
    if days < days_in_year(y) {
        (y, days)
    } else {
        year_and_day((days - days_in_year(y)) as nat, y + 1)
    }
}

/// The month, and the day within it (from 0), of day `days` of year `y`,
/// counting from month `m`.
pub open spec fn month_and_day(days: nat, y: nat, m: nat) -> (nat, nat)
    decreases 12 - m,
{
    if m >= 12 || days < days_in_month(y, m) {
        (m, days)
    } else {
        month_and_day((days - days_in_month(y, m)) as nat, y, m + 1)
    }
}

/// `n` in decimal, zero-padded to two digits.
pub open spec fn pad2(n: nat) -> Seq<char> {
    (if n < 10 { seq!['0'] } else { Seq::empty() }) + decimal(n)
}

/// `n` in decimal, zero-padded to four digits.
pub open spec fn pad4(n: nat) -> Seq<char> {
    (if n < 1000 { seq!['0'] } else { Seq::empty() }) + (if n < 100 { seq!['0'] } else { Seq::empty() })
        + (if n < 10 { seq!['0'] } else { Seq::empty() }) + decimal(n)
}

/// A Unix time (seconds since 1970-01-01 00:00:00 UTC) as
/// `YYYY-MM-DD HH:MM:SS UTC`.
pub open spec fn spec_format_unix(secs: nat) -> Seq<char> {
    let (y, yd) = year_and_day(secs / 86400, 1970);
    let (m, md) = month_and_day(yd, y, 1);
    let r = secs % 86400;
    pad4(y) + seq!['-'] + pad2(m) + seq!['-'] + pad2(md + 1) + seq![' '] + pad2(r / 3600) + seq![':']
        + pad2((r % 3600) / 60) + seq![':'] + pad2(r % 60) + seq![' ', 'U', 'T', 'C']
}

fn leap(y: u64) -> (r: bool)
    ensures
        r == is_leap(y as nat),
{
    (y % 4 == 0 && y % 100 != 0) || y % 400 == 0
}

fn year_len(y: u64) -> (r: u64)
    ensures
        r == days_in_year(y as nat),
{
    if leap(y) { 366 } else { 365 }
}

fn month_len(y: u64, m: u64) -> (r: u64)
    ensures
        r == days_in_month(y as nat, m as nat),
{
    if m == 2 {
        if leap(y) { 29 } else { 28 }
    } else if m == 4 || m == 6 || m == 9 || m == 11 {
        30
    } else {
        31
    }
}

fn push_pad2(s: &mut String, n: u64)
    ensures
        final(s)@ == old(s)@ + pad2(n as nat),
{
    if n < 10 {
        push_char(s, '0');
    }
    push_decimal(s, n);
    assert(final(s)@ =~= old(s)@ + pad2(n as nat));
}

fn push_pad4(s: &mut String, n: u64)
    ensures
        final(s)@ == old(s)@ + pad4(n as nat),
{
    if n < 1000 {
        push_char(s, '0');
    }
    if n < 100 {
        push_char(s, '0');
    }
    if n < 10 {
        push_char(s, '0');
    }
    push_decimal(s, n);
    assert(final(s)@ =~= old(s)@ + pad4(n as nat));
}

/// Render a Unix time as `YYYY-MM-DD HH:MM:SS UTC`.
pub fn format_unix(secs: u64) -> (r: String)
    ensures
        r@ == spec_format_unix(secs as nat),
{
    let d0: u64 = secs / 86400;
    let mut days: u64 = d0;
    let mut y: u64 = 1970;
    while days >= year_len(y)
        invariant
            days <= d0,
            1970 <= y <= 1970 + (d0 - days),
            d0 == secs / 86400,
            year_and_day(days as nat, y as nat) == year_and_day(d0 as nat, 1970),
        decreases days,
    {
        days = days - year_len(y);
        y = y + 1;
    }
    let mut m: u64 = 1;
    let mut md: u64 = days;
    while m < 12 && md >= month_len(y, m)
        invariant
            1 <= m <= 12,
            md <= days,
            month_and_day(md as nat, y as nat, m as nat) == month_and_day(days as nat, y as nat, 1),
        decreases 12 - m,
    {
        md = md - month_len(y, m);
        m = m + 1;
    }
    let r: u64 = secs % 86400;
    let mut s = String::new();
    push_pad4(&mut s, y);
    push_char(&mut s, '-');
    push_pad2(&mut s, m);
    push_char(&mut s, '-');
    push_pad2(&mut s, md + 1);
    push_char(&mut s, ' ');
    push_pad2(&mut s, r / 3600);
    push_char(&mut s, ':');
    push_pad2(&mut s, (r % 3600) / 60);
    push_char(&mut s, ':');
    push_pad2(&mut s, r % 60);
    s.append(" UTC");
    proof {
        reveal_strlit(" UTC");
    }
    assert(s@ =~= spec_format_unix(secs as nat));
    s
}


// ---------------------------------------------------------------------------
// UUIDs.

/// A lowercase hexadecimal digit.
pub open spec fn hex_digit(d: nat) -> char {
    if d < 10 { (48 + d) as char } else { (87 + d) as char }
}

/// A byte as two lowercase hexadecimal digits.
pub open spec fn hex2(b: u8) -> Seq<char> {
    seq![hex_digit((b / 16) as nat), hex_digit((b % 16) as nat)]
}

/// The first `i` bytes of a UUID in hex, with a dash before bytes 4, 6, 8
/// and 10.
pub open spec fn uuid_prefix(b: Seq<u8>, i: nat) -> Seq<char>
    decreases i,
{
    if i == 0 {
        Seq::empty()
    } else {
        let k = (i - 1) as nat;
        uuid_prefix(b, k) + (if k == 4 || k == 6 || k == 8 || k == 10 { seq!['-'] } else { Seq::empty() })
            + hex2(b[k as int])
    }
}

/// Sixteen bytes in the 8-4-4-4-12 hex form of a UUID.
pub open spec fn uuid_text(b: Seq<u8>) -> Seq<char> {
    uuid_prefix(b, 16)
}

fn hex_char(d: u8) -> (c: char)
    requires
        d < 16,
    ensures
        c == hex_digit(d as nat),
{
    if d < 10 { (48 + d) as char } else { (87 + d) as char }
}

fn format_uuid(b: &[u8]) -> (s: String)
    requires
        b@.len() >= 16,
    ensures
        s@ == uuid_text(b@),
{
    let mut s = String::new();
    let mut i: usize = 0;
    while i < 16
        invariant
            i <= 16,
            b@.len() >= 16,
            s@ == uuid_prefix(b@, i as nat),
        decreases 16 - i,
    {
        if i == 4 || i == 6 || i == 8 || i == 10 {
            push_char(&mut s, '-');
        }
        push_char(&mut s, hex_char(b[i] / 16));
        push_char(&mut s, hex_char(b[i] % 16));
        assert(s@ =~= uuid_prefix(b@, (i + 1) as nat));
        i += 1;
    }
    s
}

// ---------------------------------------------------------------------------
// Guesses at an offset.

/// A single semantic guess about the bytes at an offset.
#[derive(Debug, Clone)]
pub struct Guess {
    /// Short label, e.g. `Unix timestamp (u32 LE)`.
    pub label: String,
    /// Decoded detail, e.g. the formatted date or the string preview.
    pub detail: String,
}

/// Guesses as (label, detail) pairs.
pub open spec fn guesses_view(v: Seq<Guess>) -> Seq<(Seq<char>, Seq<char>)> {
    v.map_values(|g: Guess| (g.label@, g.detail@))
}

/// The earliest plausible Unix time (2001-09-09).
pub const PLAUSIBLE_MIN: u64 = 1_000_000_000;

/// The latest plausible 32-bit Unix time (`i32::MAX`, in 2038).
pub const PLAUSIBLE_MAX_32: u64 = 2_147_483_647;

/// The latest plausible 64-bit Unix time (2100-01-01).
pub const PLAUSIBLE_MAX_64: u64 = 4_102_444_800;

/// The guess for a readable string starting at the front of `rest`.
pub open spec fn string_guess(rest: Seq<u8>) -> Seq<(Seq<char>, Seq<char>)> {
    match spec_printable_run(rest, 4) {
        Some(t) => seq![("ASCII string ("@ + decimal(t.len()) + " chars)"@, str_debug(t))],
        None => Seq::empty(),
    }
}

/// A timestamp guess labelled `label` when `secs` is within `[PLAUSIBLE_MIN, max]`.
pub open spec fn timestamp_guess(label: Seq<char>, secs: nat, max: nat) -> Seq<(Seq<char>, Seq<char>)> {
    if PLAUSIBLE_MIN <= secs <= max {
        seq![(label, spec_format_unix(secs))]
    } else {
        Seq::empty()
    }
}

/// The 32-bit timestamp guesses (little- then big-endian) for the first four
/// bytes of `rest`.
pub open spec fn ts32_guesses(rest: Seq<u8>) -> Seq<(Seq<char>, Seq<char>)> {
    if rest.len() >= 4 {
        let w = rest.take(4);
        timestamp_guess("Unix timestamp (u32 LE)"@, le_value(w), PLAUSIBLE_MAX_32 as nat)
            + timestamp_guess("Unix timestamp (u32 BE)"@, be_value(w), PLAUSIBLE_MAX_32 as nat)
    } else {
        Seq::empty()
    }
}

/// The 64-bit timestamp guesses (seconds; little- then big-endian) for the
/// first eight bytes of `rest`.
pub open spec fn ts64_guesses(rest: Seq<u8>) -> Seq<(Seq<char>, Seq<char>)> {
    if rest.len() >= 8 {
        let w = rest.take(8);
        timestamp_guess("Unix timestamp (u64 LE, seconds)"@, le_value(w), PLAUSIBLE_MAX_64 as nat)
            + timestamp_guess("Unix timestamp (u64 BE, seconds)"@, be_value(w), PLAUSIBLE_MAX_64 as nat)
    } else {
        Seq::empty()
    }
}

/// The UUID guess for the first sixteen bytes of `rest`, made when the
/// version nibble (high half of byte 6) is 1 to 5.
pub open spec fn uuid_guess(rest: Seq<u8>) -> Seq<(Seq<char>, Seq<char>)> {
    if rest.len() >= 16 && 1 <= rest[6] / 16 <= 5 {
        seq![("UUID (v"@ + decimal((rest[6] / 16) as nat) + ")"@, uuid_text(rest.take(16)))]
    } else {
        Seq::empty()
    }
}

/// What `analyze_at` returns: nothing past the end; otherwise the string,
/// 32-bit timestamp, 64-bit timestamp and UUID guesses, in that order.
pub open spec fn spec_analyze_at(bytes: Seq<u8>, offset: nat) -> Seq<(Seq<char>, Seq<char>)> {
    if offset > bytes.len() {
        Seq::empty()
    } else {
        let rest = bytes.skip(offset as int);
        string_guess(rest) + ts32_guesses(rest) + ts64_guesses(rest) + uuid_guess(rest)
    }
}

/// Every plausible Unix time stored at `offset` is offered: when the four
/// (or eight) bytes there, read little- or big-endian, give a number of
/// seconds within the plausible range, the guesses include that reading,
/// labelled by its width and byte order, with the date it stands for.
pub proof fn law_plausible_timestamps_are_offered(bytes: Seq<u8>, offset: nat)
    ensures
        offset + 4 <= bytes.len() ==> {
            let w = bytes.subrange(offset as int, offset + 4int);
            &&& PLAUSIBLE_MIN <= le_value(w) <= PLAUSIBLE_MAX_32 ==> spec_analyze_at(bytes, offset).contains(
                ("Unix timestamp (u32 LE)"@, spec_format_unix(le_value(w))),
            )
            &&& PLAUSIBLE_MIN <= be_value(w) <= PLAUSIBLE_MAX_32 ==> spec_analyze_at(bytes, offset).contains(
                ("Unix timestamp (u32 BE)"@, spec_format_unix(be_value(w))),
            )
        },
        offset + 8 <= bytes.len() ==> {
            let w = bytes.subrange(offset as int, offset + 8int);
            &&& PLAUSIBLE_MIN <= le_value(w) <= PLAUSIBLE_MAX_64 ==> spec_analyze_at(bytes, offset).contains(
                ("Unix timestamp (u64 LE, seconds)"@, spec_format_unix(le_value(w))),
            )
            &&& PLAUSIBLE_MIN <= be_value(w) <= PLAUSIBLE_MAX_64 ==> spec_analyze_at(bytes, offset).contains(
                ("Unix timestamp (u64 BE, seconds)"@, spec_format_unix(be_value(w))),
            )
        },
{
    if offset + 4 <= bytes.len() {
        let rest = bytes.skip(offset as int);
        let a = string_guess(rest);
        let t32 = ts32_guesses(rest);
        let t64 = ts64_guesses(rest);
        let all = spec_analyze_at(bytes, offset);
        assert(all == a + t32 + t64 + uuid_guess(rest));
        let w4 = bytes.subrange(offset as int, offset + 4int);
        assert(rest.take(4) =~= w4);
        let le4 = timestamp_guess("Unix timestamp (u32 LE)"@, le_value(w4), PLAUSIBLE_MAX_32 as nat);
        let be4 = timestamp_guess("Unix timestamp (u32 BE)"@, be_value(w4), PLAUSIBLE_MAX_32 as nat);
        assert(t32 == le4 + be4);
        if PLAUSIBLE_MIN <= le_value(w4) <= PLAUSIBLE_MAX_32 {
            assert(all[a.len() as int] == ("Unix timestamp (u32 LE)"@, spec_format_unix(le_value(w4))));
        }
        if PLAUSIBLE_MIN <= be_value(w4) <= PLAUSIBLE_MAX_32 {
            assert(all[(a.len() + le4.len()) as int] == ("Unix timestamp (u32 BE)"@, spec_format_unix(be_value(w4))));
        }
        if offset + 8 <= bytes.len() {
            let w8 = bytes.subrange(offset as int, offset + 8int);
            assert(rest.take(8) =~= w8);
            let le8 = timestamp_guess("Unix timestamp (u64 LE, seconds)"@, le_value(w8), PLAUSIBLE_MAX_64 as nat);
            let be8 = timestamp_guess("Unix timestamp (u64 BE, seconds)"@, be_value(w8), PLAUSIBLE_MAX_64 as nat);
            assert(t64 == le8 + be8);
            if PLAUSIBLE_MIN <= le_value(w8) <= PLAUSIBLE_MAX_64 {
                assert(all[(a.len() + t32.len()) as int] == ("Unix timestamp (u64 LE, seconds)"@, spec_format_unix(le_value(w8))));
            }
            if PLAUSIBLE_MIN <= be_value(w8) <= PLAUSIBLE_MAX_64 {
                assert(all[(a.len() + t32.len() + le8.len()) as int] == ("Unix timestamp (u64 BE, seconds)"@, spec_format_unix(be_value(w8))));
            }
        }
    }
}

fn push_guess(out: &mut Vec<Guess>, label: String, detail: String)
    ensures
        guesses_view(final(out)@) == guesses_view(old(out)@).push((label@, detail@)),
{
    let g = Guess { label, detail };
    out.push(g);
    assert(guesses_view(out@) =~= guesses_view(old(out)@).push((g.label@, g.detail@)));
}

fn push_timestamp_guess(out: &mut Vec<Guess>, label: &str, secs: u64, max: u64)
    requires
        max <= PLAUSIBLE_MAX_64,
    ensures
        guesses_view(final(out)@) == guesses_view(old(out)@) + timestamp_guess(label@, secs as nat, max as nat),
{
    if PLAUSIBLE_MIN <= secs && secs <= max {
        let mut l = String::new();
        l.append(label);
        push_guess(out, l, format_unix(secs));
    } else {
        assert(guesses_view(out@) =~= guesses_view(old(out)@) + Seq::<(Seq<char>, Seq<char>)>::empty());
    }
}

/// Guesses about the bytes starting at `offset`: a readable ASCII string
/// (four or more characters), a plausible Unix timestamp in 32 or 64 bits
/// and either byte order, and a UUID with a version nibble of 1 to 5.
pub fn analyze_at(bytes: &[u8], offset: usize) -> (r: Vec<Guess>)
    ensures
        guesses_view(r@) == spec_analyze_at(bytes@, offset as nat),
{
    let mut out: Vec<Guess> = Vec::new();
    if offset > bytes.len() {
        assert(guesses_view(out@) =~= Seq::<(Seq<char>, Seq<char>)>::empty());
        return out;
    }
    let rest = &bytes[offset..bytes.len()];
    let ghost rv = bytes@.skip(offset as int);
    assert(rest@ =~= rv);
    assert(guesses_view(out@) =~= Seq::<(Seq<char>, Seq<char>)>::empty());
    match is_printable_run(rest, 4) {
        Some(text) => {
            let mut label = String::new();
            label.append("ASCII string (");
            let ghost t = text@;
            proof {
                lemma_printable_prefix_bound(rv);
            }
            push_decimal(&mut label, text.as_str().unicode_len() as u64);
            label.append(" chars)");
            let detail = str_debug_string(text.as_str());
            push_guess(&mut out, label, detail);
        },
        None => {},
    }
    assert(guesses_view(out@) =~= string_guess(rv));
    if rest.len() >= 4 {
        let w = &rest[0..4];
        assert(w@ =~= rv.take(4));
        push_timestamp_guess(&mut out, "Unix timestamp (u32 LE)", decode_le(w), PLAUSIBLE_MAX_32);
        push_timestamp_guess(&mut out, "Unix timestamp (u32 BE)", decode_be(w), PLAUSIBLE_MAX_32);
    }
    assert(guesses_view(out@) =~= string_guess(rv) + ts32_guesses(rv));
    if rest.len() >= 8 {
        let w = &rest[0..8];
        assert(w@ =~= rv.take(8));
        push_timestamp_guess(&mut out, "Unix timestamp (u64 LE, seconds)", decode_le(w), PLAUSIBLE_MAX_64);
        push_timestamp_guess(&mut out, "Unix timestamp (u64 BE, seconds)", decode_be(w), PLAUSIBLE_MAX_64);
    }
    assert(guesses_view(out@) =~= string_guess(rv) + ts32_guesses(rv) + ts64_guesses(rv));
    if rest.len() >= 16 {
        let b6: u8 = rest[6];
        let version = b6 >> 4;
        assert(b6 >> 4 == b6 / 16) by (bit_vector);
        if 1 <= version && version <= 5 {
            let mut label = String::new();
            label.append("UUID (v");
            push_decimal(&mut label, version as u64);
            label.append(")");
            let w = &rest[0..16];
            assert(w@ =~= rv.take(16));
            let detail = format_uuid(w);
            push_guess(&mut out, label, detail);
        }
    }
    assert(guesses_view(out@) =~= spec_analyze_at(bytes@, offset as nat));
    out
}


// ---------------------------------------------------------------------------
// Byte entropy: the bucketing and the byte counts it is computed from.

/// How many buckets `len` bytes are split into when `buckets` are asked for:
/// as many as asked, but no more than there are bytes.
pub open spec fn bucket_count(len: nat, buckets: nat) -> nat {
    if len == 0 || buckets == 0 {
        0
    } else if buckets < len {
        buckets
    } else {
        len
    }
}

/// The byte range of bucket `k`: equal-width slices of `len / n` bytes, the
/// last one running to the end so every byte is counted.
pub open spec fn bucket_range(len: nat, n: nat, k: nat) -> (nat, nat) {
    let chunk = len / n;
    (k * chunk, if k + 1 == n { len } else { (k + 1) * chunk })
}

/// What `bucket_ranges` returns.
pub open spec fn spec_bucket_ranges(len: nat, buckets: nat) -> Seq<(usize, usize)> {
    let n = bucket_count(len, buckets);
    Seq::new(n, |k: int| {
        let (a, b) = bucket_range(len, n, k as nat);
        (a as usize, b as usize)
    })
}

proof fn lemma_bucket_bounds(len: nat, n: nat, k: nat)
    requires
        0 < n <= len,
        k < n,
    ensures
        k * (len / n) <= (k + 1) * (len / n) <= len,
{
    let c = len / n;
    assert(n * c <= len) by (nonlinear_arith)
        requires
            c == len / n,
            n > 0,
    ;
    assert(k * c <= (k + 1) * c) by (nonlinear_arith);
    assert((k + 1) * c <= n * c) by (nonlinear_arith)
        requires
            k + 1 <= n,
    ;
}

/// The byte ranges of the entropy buckets of a `len`-byte input: `buckets`
/// equal-width slices (fewer when there are fewer bytes), the last absorbing
/// the remainder; none for empty input or zero buckets.
pub fn bucket_ranges(len: usize, buckets: usize) -> (r: Vec<(usize, usize)>)
    ensures
        r@ == spec_bucket_ranges(len as nat, buckets as nat),
{
    let mut out: Vec<(usize, usize)> = Vec::new();
    if len == 0 || buckets == 0 {
        assert(out@ =~= spec_bucket_ranges(len as nat, buckets as nat));
        return out;
    }
    let n: usize = if buckets < len { buckets } else { len };
    let chunk: usize = len / n;
    let mut i: usize = 0;
    while i < n
        invariant
            0 < n <= len,
            n == bucket_count(len as nat, buckets as nat),
            chunk == len / n,
            i <= n,
            out@ =~= spec_bucket_ranges(len as nat, buckets as nat).take(i as int),
        decreases n - i,
    {
        proof {
            lemma_bucket_bounds(len as nat, n as nat, i as nat);
            assert((i + 1) * chunk == i * chunk + chunk) by (nonlinear_arith);
        }
        let start = i * chunk;
        let end = if i == n - 1 { len } else { start + chunk };
        out.push((start, end));
        proof {
            assert(out@ =~= spec_bucket_ranges(len as nat, buckets as nat).take(i + 1));
        }
        i += 1;
    }
    out
}

/// How many times `v` occurs in `s`.
pub open spec fn count_of(s: Seq<u8>, v: u8) -> nat
    decreases s.len(),
{
    if s.len() == 0 {
        0
    } else {
        count_of(s.drop_last(), v) + if s.last() == v { 1nat } else { 0nat }
    }
}

proof fn lemma_count_le(s: Seq<u8>, v: u8)
    ensures
        count_of(s, v) <= s.len(),
    decreases s.len(),
{
    if s.len() > 0 {
        lemma_count_le(s.drop_last(), v);
    }
}

/// How often each byte value occurs in `slice`: entry `v` counts the bytes
/// equal to `v`.
pub fn byte_histogram(slice: &[u8]) -> (counts: Vec<u64>)
    ensures
        counts@.len() == 256,
        forall|v: int| 0 <= v < 256 ==> counts@[v] == count_of(slice@, v as u8),
{
    let mut counts: Vec<u64> = Vec::new();
    let mut v: usize = 0;
    while v < 256
        invariant
            v <= 256,
            counts@.len() == v,
            forall|j: int| 0 <= j < v ==> counts@[j] == 0,
        decreases 256 - v,
    {
        counts.push(0);
        v += 1;
    }
    let mut i: usize = 0;
    assert(slice@.take(0) =~= Seq::<u8>::empty());
    while i < slice.len()
        invariant
            i <= slice@.len(),
            counts@.len() == 256,
            forall|j: int| 0 <= j < 256 ==> counts@[j] == count_of(#[trigger] slice@.take(i as int), j as u8),
        decreases slice@.len() - i,
    {
        let b = slice[i];
        proof {
            assert(slice@.take(i + 1).drop_last() =~= slice@.take(i as int));
            lemma_count_le(slice@.take(i as int), b);
        }
        let c = counts[b as usize];
        counts.set(b as usize, c + 1);
        assert forall|j: int| 0 <= j < 256 implies counts@[j] == count_of(
            #[trigger] slice@.take(i + 1),
            j as u8,
        ) by {
            assert(slice@.take(i + 1).drop_last() =~= slice@.take(i as int));
            assert(slice@.take(i + 1).last() == b);
        }
        i += 1;
    }
    assert(slice@.take(slice@.len() as int) =~= slice@);
    counts
}

} // verus!
