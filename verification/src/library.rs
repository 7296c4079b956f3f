//! Schema packaging metadata: a schema's name, entry struct, byte order and
//! description ride along inside the schema text as `// @key value` comment
//! lines, so a `.schema` file stays a single, still-valid document:
//!
//! ```text
//! // @name PNG image
//! // @entry PNG
//! // @endian be
//! // @desc PNG signature + IHDR header chunk
//! ```
use vstd::prelude::*;

use crate::text::{
    ascii_lower, chars_are, chars_of, eq_ignore_ascii_case, first_newline, is_whitespace, is_ws_char,
    join, lemma_first_newline, lines, string_of, strip_cr, trim, trim_bounds, trim_start,
};

verus! {

/// Portable metadata describing a shareable schema.
#[derive(Debug, Clone, PartialEq, Eq)]
pub struct Metadata {
    pub name: String,
    pub entry: String,
    /// `"le"` or `"be"`; `"le"` when unspecified.
    pub endian: String,
    pub description: String,
}

/// Metadata with its texts as characters.
pub struct MetaModel {
    pub name: Seq<char>,
    pub entry: Seq<char>,
    pub endian: Seq<char>,
    pub description: Seq<char>,
}

pub open spec fn meta_view(m: Metadata) -> MetaModel {
    MetaModel { name: m.name@, entry: m.entry@, endian: m.endian@, description: m.description@ }
}

impl Metadata {
    /// Empty fields, little-endian.
    pub fn default() -> (m: Self)
        ensures
            meta_view(m) == (MetaModel { name: Seq::empty(), entry: Seq::empty(), endian: "le"@, description: Seq::empty() }),
    {
        Metadata {
            name: String::new(),
            entry: String::new(),
            endian: String::from_str("le"),
            description: String::new(),
        }
    }
}

/// `"be"` for `be` in any case (surrounding whitespace ignored), else `"le"`.
pub open spec fn spec_normalize_endian(v: Seq<char>) -> Seq<char> {
    if eq_ignore_ascii_case(trim(v), "be"@) { "be"@ } else { "le"@ }
}

fn lower_char(c: char) -> (r: char)
    ensures
        r == ascii_lower(c),
{
    if 'A' <= c && c <= 'Z' { ((c as u32) + 32) as u8 as char } else { c }
}

fn normalize_endian(v: &[char]) -> (r: String)
    ensures
        r@ == spec_normalize_endian(v@),
{
    let (i, j) = trim_bounds(v);
    let t = vstd::slice::slice_subrange(v, i, j);
    let be = t.len() == 2 && lower_char(t[0]) == 'b' && lower_char(t[1]) == 'e';
    proof {
        reveal_strlit("be");
        if be {
            assert(eq_ignore_ascii_case(t@, "be"@));
        }
        if eq_ignore_ascii_case(t@, "be"@) {
            assert(ascii_lower(t@[0]) == ascii_lower('b'));
            assert(ascii_lower(t@[1]) == ascii_lower('e'));
        }
    }
    if be { String::from_str("be") } else { String::from_str("le") }
}

/// The index of the first whitespace character of `s`, or its length.
pub open spec fn first_ws(s: Seq<char>) -> nat
    decreases s.len(),
{
    if s.len() == 0 {
        0
    } else if is_ws_char(s[0]) {
        0
    } else {
        1 + first_ws(s.drop_first())
    }
}

/// How far the metadata read has got: the fields so far, and whether an
/// `@endian` line was seen.
pub struct MetaState {
    pub meta: MetaModel,
    pub saw_endian: bool,
}

/// The `key value` of a `// @key value` line, if it is one.
pub open spec fn meta_tag(line: Seq<char>) -> Option<(Seq<char>, Seq<char>)> {
    let t = trim(line);
    if !(t.len() >= 2 && t[0] == '/' && t[1] == '/') {
        None
    } else {
        let rest = trim(t.subrange(2, t.len() as int));
        if !(rest.len() >= 1 && rest[0] == '@') {
            None
        } else {
            let tag = rest.drop_first();
            let k = first_ws(tag);
            let key = tag.subrange(0, k as int);
            let value = if k < tag.len() { trim(tag.subrange(k as int + 1, tag.len() as int)) } else { Seq::empty() };
            Some((key, value))
        }
    }
}

/// One line's effect on the metadata read so far.
pub open spec fn meta_line(st: MetaState, line: Seq<char>) -> MetaState {
    match meta_tag(line) {
        None => st,
        Some((key, value)) => if key == "name"@ {
            MetaState { meta: MetaModel { name: value, ..st.meta }, ..st }
        } else if key == "entry"@ {
            MetaState { meta: MetaModel { entry: value, ..st.meta }, ..st }
        } else if key == "endian"@ {
            MetaState { meta: MetaModel { endian: spec_normalize_endian(value), ..st.meta }, saw_endian: true }
        } else if key == "desc"@ || key == "description"@ {
            MetaState { meta: MetaModel { description: value, ..st.meta }, ..st }
        } else {
            st
        },
    }
}

/// Where a metadata read starts: empty fields, `"le"`, and no `@endian` seen.
pub open spec fn meta_init() -> MetaState {
    MetaState {
        meta: MetaModel { name: Seq::empty(), entry: Seq::empty(), endian: "le"@, description: Seq::empty() },
        saw_endian: false,
    }
}

/// The lines' effect, in order.
pub open spec fn meta_fold(st: MetaState, ls: Seq<Seq<char>>) -> MetaState
    decreases ls.len(),
{
    if ls.len() == 0 {
        st
    } else {
        meta_fold(meta_line(st, ls[0]), ls.drop_first())
    }
}

/// What `parse_metadata` reads from a schema text: each `// @key value` line
/// sets its field (later lines win; unknown keys are ignored); `endian` is
/// normalized, and `"le"` when no line sets it.
pub open spec fn spec_parse_metadata(text: Seq<char>) -> MetaModel {
    let st = meta_fold(meta_init(), lines(text));
    if st.saw_endian { st.meta } else { MetaModel { endian: "le"@, ..st.meta } }
}

/// The lines of a text (`str::lines`).
fn lines_of(s: &[char]) -> (r: Vec<Vec<char>>)
    ensures
        r@.map_values(|l: Vec<char>| l@) == lines(s@),
{
    let mut out: Vec<Vec<char>> = Vec::new();
    let mut pos: usize = 0;
    assert(s@.subrange(0, s@.len() as int) =~= s@);
    while pos < s.len()
        invariant
            pos <= s@.len(),
            lines(s@) == out@.map_values(|l: Vec<char>| l@) + lines(s@.subrange(pos as int, s@.len() as int)),
        decreases s@.len() - pos,
    {
        let ghost rest = s@.subrange(pos as int, s@.len() as int);
        proof {
            lemma_first_newline(rest);
        }
        let mut e = pos;
        while e < s.len() && s[e] != '\n'
            invariant
                pos <= e <= s@.len(),
                rest == s@.subrange(pos as int, s@.len() as int),
                e - pos <= first_newline(rest),
                forall|i: int| 0 <= i < first_newline(rest) ==> rest[i] != '\n',
                first_newline(rest) < rest.len() ==> rest[first_newline(rest) as int] == '\n',
                first_newline(rest) <= rest.len(),
            decreases s@.len() - e,
        {
            e += 1;
        }
        if e < s.len() {
            assert(rest[e - pos] == s@[e as int]);
        }
        assert(e - pos == first_newline(rest));
        // The line without a `\r` before its line end.
        let end = if e > pos && s[e - 1] == '\r' { e - 1 } else { e };
        let line = vstd::slice::slice_to_vec(vstd::slice::slice_subrange(s, pos, end));
        proof {
            assert(rest.subrange(0, first_newline(rest) as int) =~= s@.subrange(pos as int, e as int));
            assert(line@ =~= strip_cr(s@.subrange(pos as int, e as int)));
            assert(out@.push(line).map_values(|l: Vec<char>| l@) =~= out@.map_values(|l: Vec<char>| l@).push(line@));
        }
        out.push(line);
        if e < s.len() {
            proof {
                assert(rest.subrange(first_newline(rest) as int + 1, rest.len() as int) =~= s@.subrange(e + 1, s@.len() as int));
                assert(lines(rest) == seq![line@] + lines(s@.subrange(e + 1, s@.len() as int)));
            }
            pos = e + 1;
        } else {
            proof {
                assert(lines(rest) == seq![line@]);
                assert(s@.subrange(s@.len() as int, s@.len() as int) =~= Seq::<char>::empty());
            }
            pos = e;
        }
        proof {
            assert(lines(s@) =~= out@.map_values(|l: Vec<char>| l@) + lines(s@.subrange(pos as int, s@.len() as int)));
        }
    }
    proof {
        assert(s@.subrange(pos as int, s@.len() as int) =~= Seq::<char>::empty());
        assert(out@.map_values(|l: Vec<char>| l@) + Seq::<Seq<char>>::empty() =~= out@.map_values(|l: Vec<char>| l@));
    }
    out
}

proof fn lemma_first_ws(s: Seq<char>)
    ensures
        first_ws(s) <= s.len(),
        forall|i: int| 0 <= i < first_ws(s) ==> !is_ws_char(s[i]),
        first_ws(s) < s.len() ==> is_ws_char(s[first_ws(s) as int]),
    decreases s.len(),
{
    if s.len() > 0 && !is_ws_char(s[0]) {
        lemma_first_ws(s.drop_first());
        assert forall|i: int| 0 <= i < first_ws(s) implies !is_ws_char(s[i]) by {
            if i > 0 {
                assert(s[i] == s.drop_first()[i - 1]);
            }
        }
    }
}

fn meta_tag_exec(line: &[char]) -> (r: Option<(Vec<char>, Vec<char>)>)
    ensures
        match meta_tag(line@) {
            Some((k, v)) => r matches Some((x, y)) && x@ == k && y@ == v,
            None => r is None,
        },
{
    let (i, j) = trim_bounds(line);
    let t = vstd::slice::slice_subrange(line, i, j);
    if !(t.len() >= 2 && t[0] == '/' && t[1] == '/') {
        return None;
    }
    let r0 = vstd::slice::slice_subrange(t, 2, t.len());
    let (a, b) = trim_bounds(r0);
    let rest = vstd::slice::slice_subrange(r0, a, b);
    if !(rest.len() >= 1 && rest[0] == '@') {
        return None;
    }
    let tag = vstd::slice::slice_subrange(rest, 1, rest.len());
    assert(tag@ =~= rest@.drop_first());
    proof {
        lemma_first_ws(tag@);
    }
    let mut k: usize = 0;
    while k < tag.len() && !is_whitespace(tag[k])
        invariant
            k <= tag@.len(),
            k <= first_ws(tag@),
            forall|q: int| 0 <= q < first_ws(tag@) ==> !is_ws_char(tag@[q]),
            first_ws(tag@) < tag@.len() ==> is_ws_char(tag@[first_ws(tag@) as int]),
            first_ws(tag@) <= tag@.len(),
        decreases tag@.len() - k,
    {
        k += 1;
    }
    assert(k == first_ws(tag@));
    let key = vstd::slice::slice_to_vec(vstd::slice::slice_subrange(tag, 0, k));
    let value = if k < tag.len() {
        let vv = vstd::slice::slice_subrange(tag, k + 1, tag.len());
        let (c, d) = trim_bounds(vv);
        vstd::slice::slice_to_vec(vstd::slice::slice_subrange(vv, c, d))
    } else {
        Vec::new()
    };
    Some((key, value))
}

/// Extract [`Metadata`] from a schema's `// @key value` comment lines.
///
/// Lines may appear anywhere; unknown keys are ignored. The keys are `name`,
/// `entry`, `endian`, and `desc`/`description`. `endian` is normalized to
/// `"be"`/`"le"` (`"le"` for anything else, and when absent).
pub fn parse_metadata(text: &str) -> (m: Metadata)
    ensures
        meta_view(m) == spec_parse_metadata(text@),
{
    let v = chars_of(text);
    let ls = lines_of(v.as_slice());
    let ghost all = ls@.map_values(|l: Vec<char>| l@);
    let mut meta = Metadata::default();
    let mut saw_endian = false;
    let ghost init = MetaState { meta: meta_view(meta), saw_endian: false };
    let mut k: usize = 0;
    assert(all.subrange(0, all.len() as int) =~= all);
    while k < ls.len()
        invariant
            all == ls@.map_values(|l: Vec<char>| l@),
            all == lines(text@),
            k <= all.len(),
            meta_fold(init, all) == meta_fold(
                MetaState { meta: meta_view(meta), saw_endian },
                all.subrange(k as int, all.len() as int),
            ),
        decreases all.len() - k,
    {
        assert(all.subrange(k as int, all.len() as int).drop_first() =~= all.subrange(k + 1, all.len() as int));
        assert(all[k as int] == ls@[k as int]@);
        match meta_tag_exec(ls[k].as_slice()) {
            None => {},
            Some((key, value)) => {
                if chars_are(key.as_slice(), "name") {
                    meta.name = string_of(value.as_slice());
                } else if chars_are(key.as_slice(), "entry") {
                    meta.entry = string_of(value.as_slice());
                } else if chars_are(key.as_slice(), "endian") {
                    meta.endian = normalize_endian(value.as_slice());
                    saw_endian = true;
                } else if chars_are(key.as_slice(), "desc") || chars_are(key.as_slice(), "description") {
                    meta.description = string_of(value.as_slice());
                }
            },
        }
        k += 1;
    }
    if !saw_endian {
        meta.endian = String::from_str("le");
    }
    meta
}

/// The comment header for metadata: the non-empty fields, `endian` always,
/// one `// @key value` line each.
pub open spec fn spec_header(m: MetaModel) -> Seq<char> {
    (if m.name.len() > 0 { "// @name "@ + m.name + "\n"@ } else { Seq::empty() }) + (if m.entry.len() > 0 {
        "// @entry "@ + m.entry + "\n"@
    } else {
        Seq::empty()
    }) + "// @endian "@ + spec_normalize_endian(m.endian) + "\n"@ + (if m.description.len() > 0 {
        "// @desc "@ + m.description + "\n"@
    } else {
        Seq::empty()
    })
}

/// Render [`Metadata`] as a comment header (only non-empty fields, `endian`
/// always), ending with a newline so schema text can follow.
pub fn header(meta: &Metadata) -> (s: String)
    ensures
        s@ == spec_header(meta_view(*meta)),
{
    let mut out = String::new();
    if !meta.name.as_str().is_empty() {
        out.append("// @name ");
        out.append(meta.name.as_str());
        out.append("\n");
    }
    let ghost a = out@;
    if !meta.entry.as_str().is_empty() {
        out.append("// @entry ");
        out.append(meta.entry.as_str());
        out.append("\n");
    }
    let ghost b = out@;
    out.append("// @endian ");
    let e = chars_of(meta.endian.as_str());
    out.append(normalize_endian(e.as_slice()).as_str());
    out.append("\n");
    let ghost c = out@;
    if !meta.description.as_str().is_empty() {
        out.append("// @desc ");
        out.append(meta.description.as_str());
        out.append("\n");
    }
    proof {
        let m = meta_view(*meta);
        assert(out@ =~= spec_header(m));
    }
    out
}

/// A line of a leading metadata block: blank, or a `// @…` comment.
pub open spec fn is_meta_or_blank(line: Seq<char>) -> bool {
    let t = trim(line);
    t.len() == 0 || (t.len() >= 2 && t[0] == '/' && t[1] == '/' && {
        let r = trim_start(t.subrange(2, t.len() as int));
        r.len() >= 1 && r[0] == '@'
    })
}

/// The number of leading lines that are metadata or blank.
pub open spec fn leading_meta(ls: Seq<Seq<char>>) -> nat
    decreases ls.len(),
{
    if ls.len() > 0 && is_meta_or_blank(ls[0]) { 1 + leading_meta(ls.drop_first()) } else { 0 }
}

/// A text without its leading block of metadata and blank lines, the rest
/// of its lines joined by `\n`.
pub open spec fn spec_strip_leading_metadata(text: Seq<char>) -> Seq<char> {
    let ls = lines(text);
    join(ls.subrange(leading_meta(ls) as int, ls.len() as int), "\n"@)
}

fn meta_or_blank(line: &[char]) -> (b: bool)
    ensures
        b == is_meta_or_blank(line@),
{
    let (i, j) = trim_bounds(line);
    let t = vstd::slice::slice_subrange(line, i, j);
    if t.len() == 0 {
        return true;
    }
    if !(t.len() >= 2 && t[0] == '/' && t[1] == '/') {
        return false;
    }
    let r0 = vstd::slice::slice_subrange(t, 2, t.len());
    let (a, _) = trim_bounds(r0);
    a < r0.len() && r0[a] == '@'
}

proof fn lemma_leading_meta(ls: Seq<Seq<char>>)
    ensures
        leading_meta(ls) <= ls.len(),
        forall|i: int| 0 <= i < leading_meta(ls) ==> is_meta_or_blank(ls[i]),
        leading_meta(ls) < ls.len() ==> !is_meta_or_blank(ls[leading_meta(ls) as int]),
    decreases ls.len(),
{
    if ls.len() > 0 && is_meta_or_blank(ls[0]) {
        lemma_leading_meta(ls.drop_first());
        assert forall|i: int| 0 <= i < leading_meta(ls) implies is_meta_or_blank(ls[i]) by {
            if i > 0 {
                assert(ls[i] == ls.drop_first()[i - 1]);
            }
        }
    }
}

/// Remove a leading block of `// @key value` lines (and the blank lines
/// between them), returning the schema body proper.
fn strip_leading_metadata(text: &str) -> (s: String)
    ensures
        s@ == spec_strip_leading_metadata(text@),
{
    let v = chars_of(text);
    let ls = lines_of(v.as_slice());
    let ghost all = ls@.map_values(|l: Vec<char>| l@);
    proof {
        lemma_leading_meta(all);
    }
    let mut k: usize = 0;
    while k < ls.len() && meta_or_blank(ls[k].as_slice())
        invariant
            all == ls@.map_values(|l: Vec<char>| l@),
            k <= leading_meta(all),
            leading_meta(all) <= all.len(),
            forall|i: int| 0 <= i < leading_meta(all) ==> is_meta_or_blank(all[i]),
            leading_meta(all) < all.len() ==> !is_meta_or_blank(all[leading_meta(all) as int]),
        decreases all.len() - k,
    {
        k += 1;
    }
    if k < ls.len() {
        assert(all[k as int] == ls@[k as int]@);
    }
    assert(k == leading_meta(all));
    let mut parts: Vec<String> = Vec::new();
    let mut q = k;
    while q < ls.len()
        invariant
            all == ls@.map_values(|l: Vec<char>| l@),
            k <= q <= all.len(),
            crate::text::strings_view(parts@) =~= all.subrange(k as int, q as int),
        decreases all.len() - q,
    {
        let line = string_of(ls[q].as_slice());
        proof {
            assert(all[q as int] == ls@[q as int]@);
            assert(crate::text::strings_view(parts@.push(line)) =~= crate::text::strings_view(parts@).push(line@));
        }
        parts.push(line);
        q += 1;
    }
    crate::text::join_strings(&parts, "\n")
}

/// The header for `m` on `body` without its leading metadata: the header
/// alone when nothing is left of the body, else the header, a blank line and
/// the rest.
pub open spec fn spec_with_header(m: MetaModel, body: Seq<char>) -> Seq<char> {
    let stripped = spec_strip_leading_metadata(body);
    if stripped.len() == 0 {
        spec_header(m)
    } else {
        spec_header(m) + "\n"@ + stripped
    }
}

/// Prepend (or replace) a metadata header on `body`, returning a shareable
/// file: any leading run of `// @…` lines in `body` is dropped first, so
/// re-exporting a schema doesn't stack duplicate headers.
pub fn with_header(meta: &Metadata, body: &str) -> (s: String)
    ensures
        s@ == spec_with_header(meta_view(*meta), body@),
{
    let stripped = strip_leading_metadata(body);
    let mut h = header(meta);
    if stripped.as_str().is_empty() {
        h
    } else {
        h.append("\n");
        h.append(stripped.as_str());
        h
    }
}

/// A value that a header line carries back unchanged: no line break, and no
/// whitespace at either end.
pub open spec fn header_value(v: Seq<char>) -> bool {
    trim(v) == v && !v.contains('\n')
}

proof fn lemma_first_newline_cons(a: Seq<char>, b: Seq<char>)
    requires
        !a.contains('\n'),
    ensures
        first_newline(a + seq!['\n'] + b) == a.len(),
    decreases a.len(),
{
    let s = a + seq!['\n'] + b;
    if a.len() == 0 {
        assert(s[0] == '\n');
    } else {
        assert(s[0] == a[0]);
        assert(!a.drop_first().contains('\n')) by {
            if a.drop_first().contains('\n') {
                let i = choose|i: int| 0 <= i < a.drop_first().len() && a.drop_first()[i] == '\n';
                assert(a[i + 1] == '\n');
            }
        }
        lemma_first_newline_cons(a.drop_first(), b);
        assert(s.drop_first() =~= a.drop_first() + seq!['\n'] + b);
    }
}

proof fn lemma_lines_cons(a: Seq<char>, b: Seq<char>)
    requires
        !a.contains('\n'),
    ensures
        lines(a + seq!['\n'] + b) == seq![strip_cr(a)] + lines(b),
{
    let s = a + seq!['\n'] + b;
    lemma_first_newline_cons(a, b);
    assert(s.subrange(0, a.len() as int) =~= a);
    assert(s.subrange(a.len() as int + 1, s.len() as int) =~= b);
}

proof fn lemma_trim_id(s: Seq<char>)
    requires
        s.len() > 0,
        !is_ws_char(s[0]),
        !is_ws_char(s.last()),
    ensures
        trim(s) == s,
{
}

/// A value that trims to itself starts and ends with non-whitespace.
proof fn lemma_trimmed_ends(v: Seq<char>)
    requires
        v.len() > 0,
        trim(v) == v,
    ensures
        !is_ws_char(v[0]),
        !is_ws_char(v.last()),
{
    lemma_trim_start_shrinks(v);
    lemma_trim_end_shrinks(crate::text::trim_start(v));
    if is_ws_char(v[0]) {
        assert(trim_start(v) == trim_start(v.drop_first()));
        lemma_trim_start_shrinks(v.drop_first());
        assert(trim(v).len() < v.len());
    }
    if is_ws_char(v.last()) {
        lemma_trim_start_keeps_end(v);
        assert(trim(v).len() < v.len());
    }
}

proof fn lemma_trim_start_shrinks(v: Seq<char>)
    ensures
        trim_start(v).len() <= v.len(),
        trim_start(v) == v.subrange(v.len() - trim_start(v).len(), v.len() as int),
    decreases v.len(),
{
    if v.len() > 0 && is_ws_char(v[0]) {
        lemma_trim_start_shrinks(v.drop_first());
        assert(v.drop_first().subrange(v.drop_first().len() - trim_start(v).len(), v.drop_first().len() as int)
            =~= v.subrange(v.len() - trim_start(v).len(), v.len() as int));
    } else {
        assert(v.subrange(0, v.len() as int) =~= v);
    }
}

proof fn lemma_trim_end_shrinks(v: Seq<char>)
    ensures
        crate::text::trim_end(v).len() <= v.len(),
        crate::text::trim_end(v) == v.subrange(0, crate::text::trim_end(v).len() as int),
    decreases v.len(),
{
    if v.len() > 0 && is_ws_char(v.last()) {
        lemma_trim_end_shrinks(v.drop_last());
        assert(v.drop_last().subrange(0, crate::text::trim_end(v).len() as int) =~= v.subrange(
            0,
            crate::text::trim_end(v).len() as int,
        ));
    } else {
        assert(v.subrange(0, v.len() as int) =~= v);
    }
}

/// When `v` ends in whitespace, trimming removes at least that character.
proof fn lemma_trim_start_keeps_end(v: Seq<char>)
    requires
        v.len() > 0,
        is_ws_char(v.last()),
    ensures
        trim(v).len() < v.len(),
{
    lemma_trim_start_shrinks(v);
    let t = trim_start(v);
    lemma_trim_end_shrinks(t);
    if t.len() > 0 {
        assert(t.last() == v.last());
        assert(crate::text::trim_end(t) == crate::text::trim_end(t.drop_last()));
        lemma_trim_end_shrinks(t.drop_last());
    }
}

proof fn lemma_first_ws_word(key: Seq<char>, rest: Seq<char>)
    requires
        forall|i: int| 0 <= i < key.len() ==> !is_ws_char(key[i]),
        rest.len() > 0,
        is_ws_char(rest[0]),
    ensures
        first_ws(key + rest) == key.len(),
    decreases key.len(),
{
    if key.len() == 0 {
        assert((key + rest)[0] == rest[0]);
    } else {
        assert((key + rest)[0] == key[0]);
        lemma_first_ws_word(key.drop_first(), rest);
        assert((key + rest).drop_first() =~= key.drop_first() + rest);
    }
}

/// `// @key value` reads back as `(key, value)`.
proof fn lemma_meta_tag_line(key: Seq<char>, v: Seq<char>)
    requires
        key.len() > 0,
        forall|i: int| 0 <= i < key.len() ==> !is_ws_char(key[i]),
        v.len() > 0,
        trim(v) == v,
    ensures
        meta_tag("// @"@ + key + " "@ + v) == Some((key, v)),
{
    reveal_strlit("// @");
    reveal_strlit(" ");
    lemma_trimmed_ends(v);
    let line = "// @"@ + key + " "@ + v;
    assert(line[0] == '/');
    assert(line.last() == v.last());
    lemma_trim_id(line);
    let r0 = line.subrange(2, line.len() as int);
    assert(r0 =~= seq![' ', '@'] + key + seq![' '] + v);
    let rest = seq!['@'] + key + seq![' '] + v;
    assert(trim_start(r0) == trim_start(rest)) by {
        assert(r0.drop_first() =~= rest);
    }
    lemma_trim_id(rest);
    assert(trim(r0) == rest) by {
        assert(rest[0] == '@');
        assert(rest.last() == v.last());
    }
    let tag = rest.drop_first();
    assert(tag =~= key + (seq![' '] + v));
    lemma_first_ws_word(key, seq![' '] + v);
    assert(tag.subrange(0, key.len() as int) =~= key);
    assert(tag.subrange(key.len() as int + 1, tag.len() as int) =~= v);
}

proof fn lemma_line_sets_name(st: MetaState, v: Seq<char>)
    requires
        v.len() > 0,
        trim(v) == v,
    ensures
        meta_line(st, "// @"@ + "name"@ + " "@ + v) == (MetaState { meta: MetaModel { name: v, ..st.meta }, ..st }),
{
    reveal_strlit("name");
    lemma_meta_tag_line("name"@, v);
}

proof fn lemma_line_sets_entry(st: MetaState, v: Seq<char>)
    requires
        v.len() > 0,
        trim(v) == v,
    ensures
        meta_line(st, "// @"@ + "entry"@ + " "@ + v) == (MetaState { meta: MetaModel { entry: v, ..st.meta }, ..st }),
{
    reveal_strlit("name");
    reveal_strlit("entry");
    lemma_meta_tag_line("entry"@, v);
}

proof fn lemma_line_sets_endian(st: MetaState, v: Seq<char>)
    requires
        v.len() > 0,
        trim(v) == v,
    ensures
        meta_line(st, "// @"@ + "endian"@ + " "@ + v) == (MetaState {
            meta: MetaModel { endian: spec_normalize_endian(v), ..st.meta },
            saw_endian: true,
        }),
{
    reveal_strlit("name");
    reveal_strlit("entry");
    reveal_strlit("endian");
    lemma_meta_tag_line("endian"@, v);
}

proof fn lemma_line_sets_desc(st: MetaState, v: Seq<char>)
    requires
        v.len() > 0,
        trim(v) == v,
    ensures
        meta_line(st, "// @"@ + "desc"@ + " "@ + v) == (MetaState { meta: MetaModel { description: v, ..st.meta }, ..st }),
{
    reveal_strlit("name");
    reveal_strlit("entry");
    reveal_strlit("endian");
    reveal_strlit("desc");
    assert("desc"@[0] != "name"@[0]);
    assert("desc"@ != "entry"@);
    assert("desc"@ != "endian"@);
    lemma_meta_tag_line("desc"@, v);
}

/// Reading the header of metadata back gives that metadata, with `endian`
/// normalized, when each text field is a one-line value without surrounding
/// whitespace.
#[verifier::rlimit(60)]
pub proof fn law_header_round_trips(m: MetaModel)
    requires
        header_value(m.name),
        header_value(m.entry),
        header_value(m.description),
    ensures
        spec_parse_metadata(spec_header(m)) == (MetaModel { endian: spec_normalize_endian(m.endian), ..m }),
        meta_fold(meta_init(), lines(spec_header(m))) == (MetaState {
            meta: MetaModel { endian: spec_normalize_endian(m.endian), ..m },
            saw_endian: true,
        }),
{
    reveal_strlit("// @name ");
    reveal_strlit("// @entry ");
    reveal_strlit("// @endian ");
    reveal_strlit("// @desc ");
    reveal_strlit("// @");
    reveal_strlit(" ");
    reveal_strlit("\n");
    reveal_strlit("name");
    reveal_strlit("entry");
    reveal_strlit("endian");
    reveal_strlit("desc");
    reveal_strlit("le");
    reveal_strlit("be");
    let e = spec_normalize_endian(m.endian);
    let ln = "// @"@ + "name"@ + " "@ + m.name;
    let le = "// @"@ + "entry"@ + " "@ + m.entry;
    let lt = "// @"@ + "endian"@ + " "@ + e;
    let ld = "// @"@ + "desc"@ + " "@ + m.description;
    let pn: Seq<char> = if m.name.len() > 0 { ln + seq!['\n'] } else { Seq::empty() };
    let pe: Seq<char> = if m.entry.len() > 0 { le + seq!['\n'] } else { Seq::empty() };
    let pd: Seq<char> = if m.description.len() > 0 { ld + seq!['\n'] } else { Seq::empty() };
    assert(spec_header(m) =~= pn + pe + (lt + seq!['\n']) + pd);
    assert(e == "le"@ || e == "be"@);
    assert(trim(e) == e);
    // Each header line reads back as its key and value.
    assert(forall|i: int| 0 <= i < "name"@.len() ==> !is_ws_char("name"@[i]));
    assert(forall|i: int| 0 <= i < "entry"@.len() ==> !is_ws_char("entry"@[i]));
    assert(forall|i: int| 0 <= i < "endian"@.len() ==> !is_ws_char("endian"@[i]));
    assert(forall|i: int| 0 <= i < "desc"@.len() ==> !is_ws_char("desc"@[i]));
    let init = MetaState {
        meta: MetaModel { name: Seq::empty(), entry: Seq::empty(), endian: "le"@, description: Seq::empty() },
        saw_endian: false,
    };
    let rest_t = pd;
    let rest_e = (lt + seq!['\n']) + pd;
    let rest_n = pe + rest_e;
    assert(spec_header(m) =~= pn + rest_n);
    // Step through the lines one at a time.
    let s1 = if m.name.len() > 0 { meta_line(init, ln) } else { init };
    if m.name.len() > 0 {
        lemma_line_sets_name(init, m.name);
    }
    if m.name.len() == 0 {
        assert(m.name =~= Seq::<char>::empty());
    }
    if m.entry.len() == 0 {
        assert(m.entry =~= Seq::<char>::empty());
    }
    if m.description.len() == 0 {
        assert(m.description =~= Seq::<char>::empty());
    }
    assert(s1 == MetaState { meta: MetaModel { name: m.name, ..init.meta }, ..init });
    if m.name.len() > 0 {
        lemma_header_line("name"@, m.name, init, rest_n);
        assert(pn + rest_n =~= ln + seq!['\n'] + rest_n);
    } else {
        assert(pn + rest_n =~= rest_n);
    }
    assert(meta_fold(init, lines(spec_header(m))) == meta_fold(s1, lines(rest_n)));
    let s2 = if m.entry.len() > 0 { meta_line(s1, le) } else { s1 };
    if m.entry.len() > 0 {
        lemma_line_sets_entry(s1, m.entry);
    }
    assert(s2 == MetaState { meta: MetaModel { entry: m.entry, ..s1.meta }, ..s1 });
    if m.entry.len() > 0 {
        lemma_header_line("entry"@, m.entry, s1, rest_e);
        assert(pe + rest_e =~= le + seq!['\n'] + rest_e);
    } else {
        assert(pe + rest_e =~= rest_e);
    }
    assert(meta_fold(s1, lines(rest_n)) == meta_fold(s2, lines(rest_e)));
    let s3 = meta_line(s2, lt);
    lemma_line_sets_endian(s2, e);
    assert(s3 == MetaState { meta: MetaModel { endian: spec_normalize_endian(e), ..s2.meta }, saw_endian: true });
    lemma_header_line("endian"@, e, s2, rest_t);
    assert(rest_e =~= lt + seq!['\n'] + rest_t);
    assert(meta_fold(s2, lines(rest_e)) == meta_fold(s3, lines(rest_t)));
    let s4 = if m.description.len() > 0 { meta_line(s3, ld) } else { s3 };
    if m.description.len() > 0 {
        lemma_line_sets_desc(s3, m.description);
    }
    assert(s4 == MetaState { meta: MetaModel { description: m.description, ..s3.meta }, ..s3 });
    if m.description.len() > 0 {
        lemma_header_line("desc"@, m.description, s3, Seq::empty());
        assert(pd =~= ld + seq!['\n'] + Seq::<char>::empty());
    } else {
        assert(pd =~= Seq::<char>::empty());
    }
    assert(meta_fold(s3, lines(rest_t)) == meta_fold(s4, lines(Seq::empty())));
    assert(spec_normalize_endian("le"@) == "le"@) by {
        assert(trim("le"@) =~= "le"@);
        assert(!eq_ignore_ascii_case("le"@, "be"@)) by {
            assert(ascii_lower('l') != ascii_lower('b'));
        }
    }
    assert(spec_normalize_endian("be"@) == "be"@) by {
        assert(trim("be"@) =~= "be"@);
        assert(eq_ignore_ascii_case("be"@, "be"@));
    }
    assert(s4.saw_endian);
    assert(s4.meta == (MetaModel { endian: e, ..m }));
}

proof fn lemma_no_newline(key: Seq<char>, v: Seq<char>)
    requires
        !key.contains('\n'),
        !v.contains('\n'),
    ensures
        !("// @"@ + key + " "@ + v).contains('\n'),
{
    reveal_strlit("// @");
    reveal_strlit(" ");
    let line = "// @"@ + key + " "@ + v;
    if line.contains('\n') {
        let i = choose|i: int| 0 <= i < line.len() && line[i] == '\n';
        if i < 4 {
        } else if i < 4 + key.len() {
            assert(key[i - 4] == '\n');
        } else if i == 4 + key.len() {
        } else {
            assert(v[i - 5 - key.len()] == '\n');
        }
    }
}

/// One header line, `// @key value`, read from the front of a text.
proof fn lemma_header_line(key: Seq<char>, v: Seq<char>, st: MetaState, rest: Seq<char>)
    requires
        key.len() > 0,
        forall|i: int| 0 <= i < key.len() ==> !is_ws_char(key[i]),
        !key.contains('\n'),
        v.len() > 0,
        header_value(v),
    ensures
        meta_fold(st, lines(("// @"@ + key + " "@ + v) + seq!['\n'] + rest)) == meta_fold(
            meta_line(st, "// @"@ + key + " "@ + v),
            lines(rest),
        ),
{
    let line = "// @"@ + key + " "@ + v;
    lemma_no_newline(key, v);
    lemma_lines_cons(line, rest);
    lemma_trimmed_ends(v);
    assert(line.last() == v.last());
    assert(strip_cr(line) == line);
    let ls = seq![line] + lines(rest);
    assert(ls[0] == line);
    assert(ls.drop_first() =~= lines(rest));
}

/// How many of the lines are `// @endian …` lines.
pub open spec fn endian_lines(ls: Seq<Seq<char>>) -> nat
    decreases ls.len(),
{
    if ls.len() == 0 {
        0
    } else {
        (if meta_tag(ls[0]) matches Some((k, _)) && k == "endian"@ { 1nat } else { 0nat }) + endian_lines(ls.drop_first())
    }
}

/// One header line, `// @key value`, splits off the front of a text's lines
/// and reads back as its key and value.
proof fn lemma_header_line_lines(key: Seq<char>, v: Seq<char>, rest: Seq<char>)
    requires
        key.len() > 0,
        forall|i: int| 0 <= i < key.len() ==> !is_ws_char(key[i]),
        !key.contains('\n'),
        v.len() > 0,
        header_value(v),
    ensures
        lines(("// @"@ + key + " "@ + v) + seq!['\n'] + rest) == seq!["// @"@ + key + " "@ + v] + lines(rest),
        meta_tag("// @"@ + key + " "@ + v) == Some((key, v)),
        endian_lines(seq!["// @"@ + key + " "@ + v] + lines(rest)) == (if key == "endian"@ { 1nat } else { 0nat })
            + endian_lines(lines(rest)),
{
    let line = "// @"@ + key + " "@ + v;
    lemma_no_newline(key, v);
    lemma_lines_cons(line, rest);
    lemma_trimmed_ends(v);
    assert(line.last() == v.last());
    assert(strip_cr(line) == line);
    lemma_meta_tag_line(key, v);
    let ls = seq![line] + lines(rest);
    assert(ls[0] == line);
    assert(ls.drop_first() =~= lines(rest));
}

/// The header ends with a line break and holds exactly one `// @endian` line,
/// when each text field is a one-line value without surrounding whitespace.
#[verifier::rlimit(60)]
pub proof fn law_header_has_one_endian_line(m: MetaModel)
    requires
        header_value(m.name),
        header_value(m.entry),
        header_value(m.description),
    ensures
        spec_header(m).len() > 0,
        spec_header(m).last() == '\n',
        endian_lines(lines(spec_header(m))) == 1,
{
    reveal_strlit("// @name ");
    reveal_strlit("// @entry ");
    reveal_strlit("// @endian ");
    reveal_strlit("// @desc ");
    reveal_strlit("// @");
    reveal_strlit(" ");
    reveal_strlit("\n");
    reveal_strlit("name");
    reveal_strlit("entry");
    reveal_strlit("endian");
    reveal_strlit("desc");
    reveal_strlit("le");
    reveal_strlit("be");
    let e = spec_normalize_endian(m.endian);
    let ln = "// @"@ + "name"@ + " "@ + m.name;
    let le = "// @"@ + "entry"@ + " "@ + m.entry;
    let lt = "// @"@ + "endian"@ + " "@ + e;
    let ld = "// @"@ + "desc"@ + " "@ + m.description;
    let pn: Seq<char> = if m.name.len() > 0 { ln + seq!['\n'] } else { Seq::empty() };
    let pe: Seq<char> = if m.entry.len() > 0 { le + seq!['\n'] } else { Seq::empty() };
    let pd: Seq<char> = if m.description.len() > 0 { ld + seq!['\n'] } else { Seq::empty() };
    assert(spec_header(m) =~= pn + pe + (lt + seq!['\n']) + pd);
    assert(e == "le"@ || e == "be"@);
    assert(trim(e) == e) by {
        assert(trim("le"@) =~= "le"@);
        assert(trim("be"@) =~= "be"@);
    }
    assert(!e.contains('\n'));
    assert(forall|i: int| 0 <= i < "name"@.len() ==> !is_ws_char("name"@[i]));
    assert(forall|i: int| 0 <= i < "entry"@.len() ==> !is_ws_char("entry"@[i]));
    assert(forall|i: int| 0 <= i < "endian"@.len() ==> !is_ws_char("endian"@[i]));
    assert(forall|i: int| 0 <= i < "desc"@.len() ==> !is_ws_char("desc"@[i]));
    assert("name"@ != "endian"@);
    assert("entry"@ != "endian"@);
    assert("desc"@ != "endian"@);
    let rest_t = pd;
    let rest_e = (lt + seq!['\n']) + pd;
    let rest_n = pe + rest_e;
    assert(spec_header(m) =~= pn + rest_n);
    assert(spec_header(m).last() == '\n') by {
        if m.description.len() > 0 {
            assert(spec_header(m).last() == pd.last());
        } else {
            assert(pd =~= Seq::<char>::empty());
            assert(spec_header(m) =~= pn + pe + (lt + seq!['\n']));
        }
    }
    // The last line: the description, or none.
    if m.description.len() > 0 {
        lemma_header_line_lines("desc"@, m.description, Seq::empty());
        assert(pd =~= ld + seq!['\n'] + Seq::<char>::empty());
        assert(lines(Seq::<char>::empty()) =~= Seq::<Seq<char>>::empty());
    } else {
        assert(pd =~= Seq::<char>::empty());
        assert(lines(Seq::<char>::empty()) =~= Seq::<Seq<char>>::empty());
    }
    assert(endian_lines(lines(rest_t)) == 0);
    lemma_header_line_lines("endian"@, e, rest_t);
    assert(rest_e =~= lt + seq!['\n'] + rest_t);
    assert(endian_lines(lines(rest_e)) == 1);
    if m.entry.len() > 0 {
        lemma_header_line_lines("entry"@, m.entry, rest_e);
        assert(pe + rest_e =~= le + seq!['\n'] + rest_e);
    } else {
        assert(pe + rest_e =~= rest_e);
    }
    assert(endian_lines(lines(rest_n)) == 1);
    if m.name.len() > 0 {
        lemma_header_line_lines("name"@, m.name, rest_n);
        assert(pn + rest_n =~= ln + seq!['\n'] + rest_n);
    } else {
        assert(pn + rest_n =~= rest_n);
    }
}

/// The first line break of a text whose front `a` holds one is the one in `a`.
proof fn lemma_first_newline_prefix(a: Seq<char>, b: Seq<char>)
    requires
        first_newline(a) < a.len(),
    ensures
        first_newline(a + b) == first_newline(a),
    decreases a.len(),
{
    assert((a + b)[0] == a[0]);
    if a[0] != '\n' {
        assert((a + b).drop_first() =~= a.drop_first() + b);
        lemma_first_newline_prefix(a.drop_first(), b);
    }
}

/// The lines of a text that ends a line, followed by more text: its lines,
/// then those of the rest.
proof fn lemma_lines_append(a: Seq<char>, b: Seq<char>)
    requires
        a.len() > 0,
        a.last() == '\n',
    ensures
        lines(a + b) == lines(a) + lines(b),
    decreases a.len(),
{
    lemma_first_newline(a);
    let k = first_newline(a);
    if k == a.len() {
        assert(a[a.len() - 1] != '\n');
    }
    lemma_first_newline_prefix(a, b);
    let s = a + b;
    assert(s.subrange(0, k as int) =~= a.subrange(0, k as int));
    let ra = a.subrange(k as int + 1, a.len() as int);
    assert(s.subrange(k as int + 1, s.len() as int) =~= ra + b);
    if ra.len() == 0 {
        assert(ra + b =~= b);
        assert(lines(ra) =~= Seq::<Seq<char>>::empty());
    } else {
        assert(ra.last() == a.last());
        lemma_lines_append(ra, b);
    }
    assert(lines(s) =~= lines(a) + lines(b));
}

/// Reading lines `x` then `y` is reading `x`, then `y` from where `x` left off.
proof fn lemma_meta_fold_append(st: MetaState, x: Seq<Seq<char>>, y: Seq<Seq<char>>)
    ensures
        meta_fold(st, x + y) == meta_fold(meta_fold(st, x), y),
    decreases x.len(),
{
    if x.len() == 0 {
        assert(x + y =~= y);
    } else {
        assert((x + y)[0] == x[0]);
        assert((x + y).drop_first() =~= x.drop_first() + y);
        lemma_meta_fold_append(meta_line(st, x[0]), x.drop_first(), y);
    }
}

/// Lines none of which is a `// @…` line leave the metadata read unchanged.
proof fn lemma_meta_fold_plain(st: MetaState, ls: Seq<Seq<char>>)
    requires
        forall|k: int| 0 <= k < ls.len() ==> meta_tag(#[trigger] ls[k]) is None,
    ensures
        meta_fold(st, ls) == st,
    decreases ls.len(),
{
    if ls.len() > 0 {
        assert(meta_tag(ls[0]) is None);
        assert forall|k: int| 0 <= k < ls.drop_first().len() implies meta_tag(#[trigger] ls.drop_first()[k]) is None by {
            assert(ls.drop_first()[k] == ls[k + 1]);
        }
        lemma_meta_fold_plain(st, ls.drop_first());
    }
}

/// Reading the metadata of a schema given a header gives back that header's
/// metadata (with `endian` normalized), when each text field is a one-line
/// value without surrounding whitespace and the body, its own old header
/// dropped, carries no `// @…` line.
pub proof fn law_with_header_round_trips(m: MetaModel, body: Seq<char>)
    requires
        header_value(m.name),
        header_value(m.entry),
        header_value(m.description),
        forall|k: int|
            0 <= k < lines(spec_strip_leading_metadata(body)).len() ==> meta_tag(
                #[trigger] lines(spec_strip_leading_metadata(body))[k],
            ) is None,
    ensures
        spec_parse_metadata(spec_with_header(m, body)) == (MetaModel { endian: spec_normalize_endian(m.endian), ..m }),
{
    law_header_round_trips(m);
    law_header_has_one_endian_line(m);
    let h = spec_header(m);
    let st = spec_strip_leading_metadata(body);
    if st.len() > 0 {
        reveal_strlit("\n");
        let t = h + "\n"@ + st;
        assert(t =~= h + (seq!['\n'] + st));
        lemma_lines_append(h, seq!['\n'] + st);
        lemma_lines_cons(Seq::<char>::empty(), st);
        assert(Seq::<char>::empty() + seq!['\n'] + st =~= seq!['\n'] + st);
        let empty_line = strip_cr(Seq::<char>::empty());
        assert(empty_line =~= Seq::<char>::empty());
        let rest = seq![empty_line] + lines(st);
        assert(lines(t) == lines(h) + rest);
        assert forall|k: int| 0 <= k < rest.len() implies meta_tag(#[trigger] rest[k]) is None by {
            if k == 0 {
                assert(trim(Seq::<char>::empty()) =~= Seq::<char>::empty());
            } else {
                assert(rest[k] == lines(st)[k - 1]);
            }
        }
        lemma_meta_fold_append(meta_init(), lines(h), rest);
        lemma_meta_fold_plain(meta_fold(meta_init(), lines(h)), rest);
    }
}

} // verus!
