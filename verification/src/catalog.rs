//! The schema library as the app lists and loads it: file names made from
//! display names, library entries from schema metadata, and schema ids.
use vstd::prelude::*;

use crate::library::{meta_view, parse_metadata, spec_parse_metadata, MetaModel, Metadata};
use crate::installed::LoadedPlugin;
use crate::plugin::{FormatDef, PluginManifest};
use crate::text::{
    chars_of, lowercase, seq_lt, split_once, str_eq, str_lt, strip_prefix, string_of, to_lowercase, trim,
    trim_str,
};

verus! {

/// ASCII letters and digits (`char::is_ascii_alphanumeric`).
pub open spec fn ascii_alnum(c: char) -> bool {
    ('0' <= c <= '9') || ('a' <= c <= 'z') || ('A' <= c <= 'Z')
}

/// A character kept in a file name, or `-` in its place.
pub open spec fn slug_char(c: char) -> char {
    if ascii_alnum(c) { c } else { '-' }
}

/// Every run of dashes reduced to a single dash.
pub open spec fn collapse_dashes(s: Seq<char>) -> Seq<char>
    decreases s.len(),
{
    if s.len() == 0 {
        Seq::empty()
    } else {
        let r = collapse_dashes(s.drop_last());
        if s.last() == '-' && r.len() > 0 && r.last() == '-' {
            r
        } else {
            r.push(s.last())
        }
    }
}

/// `s` without leading dashes.
pub open spec fn trim_leading_dashes(s: Seq<char>) -> Seq<char>
    decreases s.len(),
{
    if s.len() > 0 && s[0] == '-' {
        trim_leading_dashes(s.drop_first())
    } else {
        s
    }
}

/// `s` without trailing dashes.
pub open spec fn trim_trailing_dashes(s: Seq<char>) -> Seq<char>
    decreases s.len(),
{
    if s.len() > 0 && s.last() == '-' {
        trim_trailing_dashes(s.drop_last())
    } else {
        s
    }
}

/// The file-name stem made from `name`: trimmed, lower-cased, every
/// character but ASCII letters and digits turned into `-`, runs of dashes
/// collapsed, and dashes stripped from both ends.
pub open spec fn slug_stem(name: Seq<char>) -> Seq<char> {
    trim_trailing_dashes(
        trim_leading_dashes(collapse_dashes(lowercase(trim(name)).map_values(|c: char| slug_char(c)))),
    )
}

/// `stem.ext`, with `fallback` as the stem when `stem` is empty.
pub open spec fn file_name_of(stem: Seq<char>, fallback: Seq<char>, ext: Seq<char>) -> Seq<char> {
    (if stem.len() == 0 { fallback } else { stem }) + ext
}

/// The `.schema` file name for a display name.
pub open spec fn spec_slugify(name: Seq<char>) -> Seq<char> {
    file_name_of(slug_stem(name), "schema"@, ".schema"@)
}

/// The `.toml` file name for a plugin id.
pub open spec fn spec_plugin_filename(id: Seq<char>) -> Seq<char> {
    file_name_of(slug_stem(id), "plugin"@, ".toml"@)
}

/// A file-name stem is safe: only ASCII letters, digits and single dashes,
/// never a dash at either end.
pub open spec fn safe_stem(s: Seq<char>) -> bool {
    &&& forall|i: int| 0 <= i < s.len() ==> ascii_alnum(#[trigger] s[i]) || s[i] == '-'
    &&& forall|i: int| 0 <= i < s.len() - 1 ==> !(#[trigger] s[i] == '-' && s[i + 1] == '-')
    &&& s.len() > 0 ==> s[0] != '-' && s.last() != '-'
}

proof fn lemma_collapse(s: Seq<char>)
    requires
        forall|i: int| 0 <= i < s.len() ==> ascii_alnum(#[trigger] s[i]) || s[i] == '-',
    ensures
        forall|i: int| 0 <= i < collapse_dashes(s).len() ==> ascii_alnum(#[trigger] collapse_dashes(s)[i])
            || collapse_dashes(s)[i] == '-',
        forall|i: int| 0 <= i < collapse_dashes(s).len() - 1 ==> !(#[trigger] collapse_dashes(s)[i] == '-'
            && collapse_dashes(s)[i + 1] == '-'),
    decreases s.len(),
{
    if s.len() > 0 {
        let d = s.drop_last();
        assert forall|i: int| 0 <= i < d.len() implies ascii_alnum(#[trigger] d[i]) || d[i] == '-' by {
            assert(d[i] == s[i]);
        }
        lemma_collapse(d);
        let r = collapse_dashes(d);
        let c = collapse_dashes(s);
        assert(ascii_alnum(s.last()) || s.last() == '-') by {
            assert(s.last() == s[s.len() - 1]);
        }
        if !(s.last() == '-' && r.len() > 0 && r.last() == '-') {
            assert forall|i: int| 0 <= i < c.len() - 1 implies !(#[trigger] c[i] == '-' && c[i + 1] == '-') by {
                if i + 1 < r.len() {
                    assert(c[i] == r[i] && c[i + 1] == r[i + 1]);
                } else {
                    assert(c[i] == r.last());
                }
            }
        }
    }
}

proof fn lemma_trim_leading(s: Seq<char>)
    ensures
        exists|k: int| 0 <= k <= s.len() && trim_leading_dashes(s) == s.skip(k),
        trim_leading_dashes(s).len() > 0 ==> trim_leading_dashes(s)[0] != '-',
    decreases s.len(),
{
    if s.len() > 0 && s[0] == '-' {
        lemma_trim_leading(s.drop_first());
        let k = choose|k: int| 0 <= k <= s.drop_first().len() && trim_leading_dashes(s.drop_first()) == s.drop_first().skip(k);
        assert(s.drop_first().skip(k) =~= s.skip(k + 1));
    } else {
        assert(s.skip(0) =~= s);
    }
}

proof fn lemma_trim_trailing(s: Seq<char>)
    ensures
        exists|k: int| 0 <= k <= s.len() && trim_trailing_dashes(s) == s.take(k),
        trim_trailing_dashes(s).len() > 0 ==> trim_trailing_dashes(s).last() != '-',
    decreases s.len(),
{
    if s.len() > 0 && s.last() == '-' {
        lemma_trim_trailing(s.drop_last());
        let k = choose|k: int| 0 <= k <= s.drop_last().len() && trim_trailing_dashes(s.drop_last()) == s.drop_last().take(k);
        assert(s.drop_last().take(k) =~= s.take(k));
    } else {
        assert(s.take(s.len() as int) =~= s);
    }
}

/// Whatever the name, the stem of the file name made from it holds only ASCII
/// letters, digits and single dashes, with no dash at either end, so the
/// `.schema` or `.toml` file stays a plain name inside its directory.
pub proof fn law_file_names_are_safe(name: Seq<char>)
    ensures
        safe_stem(slug_stem(name)),
        has_suffix_of(spec_slugify(name), ".schema"@),
        has_suffix_of(spec_plugin_filename(name), ".toml"@),
{
    let mapped = lowercase(trim(name)).map_values(|c: char| slug_char(c));
    assert forall|i: int| 0 <= i < mapped.len() implies ascii_alnum(#[trigger] mapped[i]) || mapped[i] == '-' by {}
    lemma_collapse(mapped);
    let c = collapse_dashes(mapped);
    lemma_trim_leading(c);
    let l = trim_leading_dashes(c);
    let k1 = choose|k: int| 0 <= k <= c.len() && l == c.skip(k);
    assert forall|i: int| 0 <= i < l.len() implies ascii_alnum(#[trigger] l[i]) || l[i] == '-' by {
        assert(l[i] == c[i + k1]);
    }
    assert forall|i: int| 0 <= i < l.len() - 1 implies !(#[trigger] l[i] == '-' && l[i + 1] == '-') by {
        assert(l[i] == c[i + k1] && l[i + 1] == c[i + 1 + k1]);
    }
    lemma_trim_trailing(l);
    let t = trim_trailing_dashes(l);
    let k2 = choose|k: int| 0 <= k <= l.len() && t == l.take(k);
    assert forall|i: int| 0 <= i < t.len() implies ascii_alnum(#[trigger] t[i]) || t[i] == '-' by {
        assert(t[i] == l[i]);
    }
    assert forall|i: int| 0 <= i < t.len() - 1 implies !(#[trigger] t[i] == '-' && t[i + 1] == '-') by {
        assert(t[i] == l[i] && t[i + 1] == l[i + 1]);
    }
    if t.len() > 0 {
        assert(t[0] == l[0]);
    }
    let a = spec_slugify(name);
    assert(a.skip(a.len() - ".schema"@.len()) =~= ".schema"@);
    let b = spec_plugin_filename(name);
    assert(b.skip(b.len() - ".toml"@.len()) =~= ".toml"@);
}

/// `s` ends with `p`.
pub open spec fn has_suffix_of(s: Seq<char>, p: Seq<char>) -> bool {
    p.len() <= s.len() && s.skip(s.len() - p.len()) == p
}

fn is_ascii_alnum(c: char) -> (r: bool)
    ensures
        r == ascii_alnum(c),
{
    ('0' <= c && c <= '9') || ('a' <= c && c <= 'z') || ('A' <= c && c <= 'Z')
}

proof fn lemma_collapse_last(s: Seq<char>)
    requires
        s.len() > 0,
    ensures
        collapse_dashes(s).len() > 0,
        collapse_dashes(s).last() == s.last(),
    decreases s.len(),
{
}

/// The stem of [`slug_stem`] for `name`.
fn slug_stem_of(name: &str) -> (r: Vec<char>)
    ensures
        r@ == slug_stem(name@),
{
    let t = trim_str(name);
    let low = to_lowercase(t.as_str());
    let v = chars_of(low.as_str());
    let ghost mapped = lowercase(trim(name@)).map_values(|c: char| slug_char(c));
    let mut out: Vec<char> = Vec::new();
    let mut i: usize = 0;
    assert(mapped.take(0) =~= Seq::<char>::empty());
    while i < v.len()
        invariant
            i <= v@.len(),
            v@ == lowercase(trim(name@)),
            mapped == v@.map_values(|c: char| slug_char(c)),
            out@ == collapse_dashes(mapped.take(i as int)),
        decreases v@.len() - i,
    {
        let c = if is_ascii_alnum(v[i]) { v[i] } else { '-' };
        let ghost prev = mapped.take(i as int);
        proof {
            assert(mapped.take(i + 1).drop_last() =~= prev);
            assert(mapped.take(i + 1).last() == c);
            if i > 0 {
                lemma_collapse_last(prev);
            }
        }
        if !(c == '-' && out.len() > 0 && out[out.len() - 1] == '-') {
            out.push(c);
        }
        i += 1;
    }
    assert(mapped.take(v@.len() as int) =~= mapped);
    let ghost col = out@;
    assert(col.subrange(0, col.len() as int) =~= col);
    let mut a: usize = 0;
    while a < out.len() && out[a] == '-'
        invariant
            a <= out@.len(),
            out@ == col,
            trim_leading_dashes(col.subrange(a as int, col.len() as int)) == trim_leading_dashes(col),
        decreases out@.len() - a,
    {
        assert(col.subrange(a as int, col.len() as int).drop_first() =~= col.subrange(a + 1, col.len() as int));
        a += 1;
    }
    let ghost lead = col.subrange(a as int, col.len() as int);
    let mut b: usize = out.len();
    while b > a && out[b - 1] == '-'
        invariant
            a <= b <= out@.len(),
            out@ == col,
            lead == trim_leading_dashes(col),
            trim_trailing_dashes(col.subrange(a as int, b as int)) == trim_trailing_dashes(lead),
        decreases b,
    {
        assert(col.subrange(a as int, b as int).drop_last() =~= col.subrange(a as int, b - 1));
        b -= 1;
    }
    let mut r: Vec<char> = Vec::new();
    let mut k: usize = a;
    while k < b
        invariant
            a <= k <= b <= out@.len(),
            out@ == col,
            r@ == col.subrange(a as int, k as int),
        decreases b - k,
    {
        r.push(out[k]);
        assert(r@ =~= col.subrange(a as int, k + 1));
        k += 1;
    }
    r
}

/// `stem` followed by `ext`, or `fallback` followed by `ext` when `stem` is
/// empty.
fn file_name(stem: Vec<char>, fallback: &str, ext: &str) -> (s: String)
    ensures
        s@ == file_name_of(stem@, fallback@, ext@),
{
    let mut s = if stem.len() == 0 { String::from_str(fallback) } else { string_of(stem.as_slice()) };
    s.append(ext);
    s
}

/// Turn a display name into a safe `.schema` file name, e.g. `My Format!`
/// becomes `my-format.schema`; a name with no letters or digits becomes
/// `schema.schema`.
pub fn slugify(name: &str) -> (s: String)
    ensures
        s@ == spec_slugify(name@),
{
    proof {
        reveal_strlit("schema");
        reveal_strlit(".schema");
    }
    file_name(slug_stem_of(name), "schema", ".schema")
}

/// A safe `<id>.toml` file name for a plugin id; `plugin.toml` when the id
/// has no letters or digits.
pub fn plugin_filename(id: &str) -> (s: String)
    ensures
        s@ == spec_plugin_filename(id@),
{
    proof {
        reveal_strlit("plugin");
        reveal_strlit(".toml");
    }
    file_name(slug_stem_of(id), "plugin", ".toml")
}

/// One entry in the schema library, as listed for the UI.
#[derive(Debug, Clone)]
pub struct SchemaEntry {
    /// Stable id: `builtin:<key>`, `user:<filename>` or `plugin:<id>:<format>`.
    pub id: String,
    pub name: String,
    pub entry: String,
    pub endian: String,
    pub description: String,
    /// `builtin`, `user` or `plugin`.
    pub source: String,
}

/// A library entry with its texts as characters.
pub struct EntryModel {
    pub id: Seq<char>,
    pub name: Seq<char>,
    pub entry: Seq<char>,
    pub endian: Seq<char>,
    pub description: Seq<char>,
    pub source: Seq<char>,
}

pub open spec fn entry_view(e: SchemaEntry) -> EntryModel {
    EntryModel {
        id: e.id@,
        name: e.name@,
        entry: e.entry@,
        endian: e.endian@,
        description: e.description@,
        source: e.source@,
    }
}

/// The entry listed for a schema with metadata `meta`: its name is the
/// metadata's, or `fallback` when that is empty.
pub open spec fn spec_entry_from_meta(id: Seq<char>, source: Seq<char>, meta: MetaModel, fallback: Seq<char>) -> EntryModel {
    EntryModel {
        id,
        name: if meta.name.len() == 0 { fallback } else { meta.name },
        entry: meta.entry,
        endian: meta.endian,
        description: meta.description,
        source,
    }
}

/// The library entry for a schema with metadata `meta`, named `fallback_name`
/// when the metadata gives no name.
pub fn entry_from_meta(id: String, source: &str, meta: &Metadata, fallback_name: &str) -> (e: SchemaEntry)
    ensures
        entry_view(e) == spec_entry_from_meta(id@, source@, meta_view(*meta), fallback_name@),
{
    let name = if meta.name.as_str().is_empty() { String::from_str(fallback_name) } else { meta.name.clone() };
    SchemaEntry {
        id,
        name,
        entry: meta.entry.clone(),
        endian: meta.endian.clone(),
        description: meta.description.clone(),
        source: String::from_str(source),
    }
}

/// A schema loaded for the editor: its text plus resolved metadata.
#[derive(Debug, Clone)]
pub struct LoadedSchema {
    pub text: String,
    pub name: String,
    pub entry: String,
    pub endian: String,
    pub description: String,
}

/// A loaded schema with its texts as characters.
pub struct LoadedModel {
    pub text: Seq<char>,
    pub name: Seq<char>,
    pub entry: Seq<char>,
    pub endian: Seq<char>,
    pub description: Seq<char>,
}

pub open spec fn loaded_view(l: LoadedSchema) -> LoadedModel {
    LoadedModel {
        text: l.text@,
        name: l.name@,
        entry: l.entry@,
        endian: l.endian@,
        description: l.description@,
    }
}

/// Schema text with the metadata its header gives, named `fallback` when the
/// header gives no name.
pub open spec fn spec_loaded_schema(text: Seq<char>, fallback: Seq<char>) -> LoadedModel {
    let meta = spec_parse_metadata(text);
    LoadedModel {
        text,
        name: if meta.name.len() == 0 { fallback } else { meta.name },
        entry: meta.entry,
        endian: meta.endian,
        description: meta.description,
    }
}

/// Schema text made ready for the editor: its `// @...` metadata resolved,
/// with `fallback` as the name when the metadata names none.
pub fn loaded_schema(text: String, fallback: &str) -> (l: LoadedSchema)
    ensures
        loaded_view(l) == spec_loaded_schema(text@, fallback@),
{
    let meta = parse_metadata(text.as_str());
    let name = if meta.name.as_str().is_empty() { String::from_str(fallback) } else { meta.name.clone() };
    LoadedSchema { name, entry: meta.entry, endian: meta.endian, description: meta.description, text }
}


// ---------------------------------------------------------------------------
// Ordering by name.

/// `h` placed after every item of `sorted` whose key is not greater.
pub open spec fn insert_by_key<T>(sorted: Seq<T>, h: T, key: spec_fn(T) -> Seq<char>) -> Seq<T>
    decreases sorted.len(),
{
    if sorted.len() == 0 {
        seq![h]
    } else if !seq_lt(key(h), key(sorted.last())) {
        sorted.push(h)
    } else {
        insert_by_key(sorted.drop_last(), h, key).push(sorted.last())
    }
}

/// The stable sort of `s` by `key` (ascending, by code point).
pub open spec fn sort_by_key<T>(s: Seq<T>, key: spec_fn(T) -> Seq<char>) -> Seq<T>
    decreases s.len(),
{
    if s.len() == 0 {
        Seq::empty()
    } else {
        insert_by_key(sort_by_key(s.drop_last(), key), s.last(), key)
    }
}

proof fn lemma_insert_by_key_at<T>(sorted: Seq<T>, h: T, key: spec_fn(T) -> Seq<char>, j: int)
    requires
        0 <= j <= sorted.len(),
        forall|k: int| j <= k < sorted.len() ==> seq_lt(key(h), key(#[trigger] sorted[k])),
        j > 0 ==> !seq_lt(key(h), key(sorted[j - 1])),
    ensures
        insert_by_key(sorted, h, key) == sorted.insert(j, h),
    decreases sorted.len(),
{
    if sorted.len() == 0 {
        assert(sorted.insert(j, h) =~= seq![h]);
    } else if !seq_lt(key(h), key(sorted.last())) {
        assert(sorted.insert(j, h) =~= sorted.push(h));
    } else {
        let d = sorted.drop_last();
        lemma_insert_by_key_at(d, h, key, j);
        assert(sorted.insert(j, h) =~= d.insert(j, h).push(sorted.last()));
    }
}

proof fn lemma_seq_lt_asym(a: Seq<char>, b: Seq<char>)
    ensures
        seq_lt(a, b) ==> !seq_lt(b, a),
    decreases a.len(),
{
    if a.len() > 0 && b.len() > 0 && a[0] == b[0] {
        lemma_seq_lt_asym(a.drop_first(), b.drop_first());
    }
}

proof fn lemma_seq_lt_split(a: Seq<char>, b: Seq<char>, c: Seq<char>)
    ensures
        seq_lt(a, c) ==> seq_lt(a, b) || seq_lt(b, c),
    decreases a.len(),
{
    if a.len() > 0 && b.len() > 0 && c.len() > 0 {
        let (x, y, z) = (a[0] as u32, b[0] as u32, c[0] as u32);
        vstd::utf8::char_u32_cast(a[0], x);
        vstd::utf8::char_u32_cast(b[0], y);
        vstd::utf8::char_u32_cast(c[0], z);
        if a[0] == b[0] && b[0] == c[0] {
            lemma_seq_lt_split(a.drop_first(), b.drop_first(), c.drop_first());
        }
    }
}

/// `s` is ordered by `key`: no item's key is below an earlier one's.
pub open spec fn ordered_by_key<T>(s: Seq<T>, key: spec_fn(T) -> Seq<char>) -> bool {
    forall|i: int, j: int| 0 <= i < j < s.len() ==> !seq_lt(key(#[trigger] s[j]), key(#[trigger] s[i]))
}

proof fn lemma_insert_by_key_ordered<T>(sorted: Seq<T>, h: T, key: spec_fn(T) -> Seq<char>)
    requires
        ordered_by_key(sorted, key),
    ensures
        ordered_by_key(insert_by_key(sorted, h, key), key),
        insert_by_key(sorted, h, key).len() == sorted.len() + 1,
        forall|k: int| 0 <= k < insert_by_key(sorted, h, key).len() ==> #[trigger] insert_by_key(sorted, h, key)[k]
            == h || sorted.contains(insert_by_key(sorted, h, key)[k]),
    decreases sorted.len(),
{
    let r = insert_by_key(sorted, h, key);
    if sorted.len() == 0 {
    } else if !seq_lt(key(h), key(sorted.last())) {
        assert forall|k: int| 0 <= k < r.len() implies #[trigger] r[k] == h || sorted.contains(r[k]) by {
            if k < sorted.len() {
                assert(r[k] == sorted[k]);
            }
        }
        assert forall|i: int, j: int| 0 <= i < j < r.len() implies !seq_lt(key(#[trigger] r[j]), key(#[trigger] r[i])) by {
            if j < sorted.len() {
                assert(r[i] == sorted[i] && r[j] == sorted[j]);
            } else {
                assert(r[i] == sorted[i]);
                let last = sorted[sorted.len() - 1];
                if i < sorted.len() - 1 {
                    assert(!seq_lt(key(last), key(sorted[i])));
                }
                lemma_seq_lt_split(key(h), key(last), key(sorted[i]));
            }
        }
    } else {
        let d = sorted.drop_last();
        let last = sorted.last();
        assert(ordered_by_key(d, key)) by {
            assert forall|i: int, j: int| 0 <= i < j < d.len() implies !seq_lt(key(#[trigger] d[j]), key(#[trigger] d[i])) by {
                assert(d[i] == sorted[i] && d[j] == sorted[j]);
            }
        }
        lemma_insert_by_key_ordered(d, h, key);
        let q = insert_by_key(d, h, key);
        assert forall|k: int| 0 <= k < q.len() implies !seq_lt(key(last), key(#[trigger] q[k])) by {
            if q[k] == h {
                lemma_seq_lt_asym(key(h), key(last));
            } else {
                assert(d.contains(q[k]));
                let j = choose|j: int| 0 <= j < d.len() && d[j] == q[k];
                assert(sorted[j] == d[j]);
                assert(sorted[sorted.len() - 1] == last);
            }
        }
        assert forall|k: int| 0 <= k < r.len() implies #[trigger] r[k] == h || sorted.contains(r[k]) by {
            if k < q.len() {
                assert(r[k] == q[k]);
                if q[k] != h {
                    let j = choose|j: int| 0 <= j < d.len() && d[j] == q[k];
                    assert(sorted[j] == d[j]);
                }
            } else {
                assert(r[k] == last);
                assert(sorted[sorted.len() - 1] == last);
            }
        }
        assert forall|i: int, j: int| 0 <= i < j < r.len() implies !seq_lt(key(#[trigger] r[j]), key(#[trigger] r[i])) by {
            if j < q.len() {
                assert(r[i] == q[i] && r[j] == q[j]);
            } else {
                assert(r[i] == q[i]);
                assert(r[j] == last);
            }
        }
    }
}

/// Sorting by a key leaves the items in key order (by code point) and keeps
/// every one of them: so installed plugins are listed by name and the user's
/// schemas by lower-cased name.
pub proof fn law_sorted_by_key<T>(s: Seq<T>, key: spec_fn(T) -> Seq<char>)
    ensures
        ordered_by_key(sort_by_key(s, key), key),
        sort_by_key(s, key).len() == s.len(),
    decreases s.len(),
{
    if s.len() > 0 {
        law_sorted_by_key(s.drop_last(), key);
        lemma_insert_by_key_ordered(sort_by_key(s.drop_last(), key), s.last(), key);
    }
}

/// `items` stably sorted by their `keys` (`keys[i]` is the key of `items[i]`).
pub(crate) fn sort_by_keys<T>(items: Vec<T>, keys: Vec<String>, Ghost(key): Ghost<spec_fn(T) -> Seq<char>>) -> (r: Vec<T>)
    requires
        items@.len() == keys@.len(),
        forall|i: int| 0 <= i < keys@.len() ==> keys@[i]@ == key(#[trigger] items@[i]),
    ensures
        r@ == sort_by_key(items@, key),
{
    let ghost all = items@;
    let mut items = items;
    let mut keys = keys;
    let mut out: Vec<T> = Vec::new();
    let mut out_keys: Vec<String> = Vec::new();
    assert(all.subrange(0, 0) =~= Seq::<T>::empty());
    while items.len() > 0
        invariant
            items@.len() == keys@.len(),
            items@.len() <= all.len(),
            items@ == all.subrange(all.len() - items@.len(), all.len() as int),
            forall|i: int| 0 <= i < keys@.len() ==> keys@[i]@ == key(#[trigger] items@[i]),
            out@.len() == out_keys@.len(),
            forall|i: int| 0 <= i < out_keys@.len() ==> out_keys@[i]@ == key(#[trigger] out@[i]),
            out@ == sort_by_key(all.subrange(0, all.len() - items@.len()), key),
        decreases items@.len(),
    {
        let ghost i = all.len() - items@.len();
        let ghost before_items = items@;
        let ghost before_keys = keys@;
        let h = items.remove(0);
        let k = keys.remove(0);
        proof {
            assert(k@ == key(h));
            assert(all[i] == h);
            assert(items@ =~= all.subrange(i + 1, all.len() as int));
            assert forall|q: int| 0 <= q < keys@.len() implies keys@[q]@ == key(#[trigger] items@[q]) by {
                assert(keys@[q] == before_keys[q + 1]);
                assert(items@[q] == before_items[q + 1]);
            }
            assert(all.subrange(0, i + 1).drop_last() =~= all.subrange(0, i));
            assert(all.subrange(0, i + 1).last() == h);
        }
        let ghost prev = out@;
        let ghost prev_keys = out_keys@;
        let mut j: usize = out.len();
        while j > 0 && str_lt(k.as_str(), out_keys[j - 1].as_str())
            invariant
                j <= out@.len(),
                out@ == prev,
                out_keys@ == prev_keys,
                out@.len() == out_keys@.len(),
                forall|q: int| 0 <= q < out_keys@.len() ==> out_keys@[q]@ == key(#[trigger] out@[q]),
                k@ == key(h),
                forall|q: int| j <= q < prev.len() ==> seq_lt(key(h), key(#[trigger] prev[q])),
            decreases j,
        {
            j -= 1;
        }
        proof {
            lemma_insert_by_key_at(prev, h, key, j as int);
        }
        out.insert(j, h);
        out_keys.insert(j, k);
        proof {
            assert forall|q: int| 0 <= q < out_keys@.len() implies out_keys@[q]@ == key(#[trigger] out@[q]) by {
                if q < j {
                    assert(out@[q] == prev[q]);
                    assert(out_keys@[q] == prev_keys[q]);
                } else if q > j {
                    assert(out@[q] == prev[q - 1]);
                    assert(out_keys@[q] == prev_keys[q - 1]);
                }
            }
        }
    }
    assert(all.subrange(0, all.len() as int) =~= all);
    out
}


// ---------------------------------------------------------------------------
// Schema ids.

/// Where a library schema comes from, as its id names it.
#[derive(Debug, Clone)]
pub enum SchemaId {
    /// `plugin:<plugin id>:<format name>`.
    Plugin { plugin: String, format: String },
    /// `builtin:<key>`.
    Builtin(String),
    /// `user:<file name>`.
    User(String),
}

/// A schema id with its texts as characters.
pub enum SpecSchemaId {
    Plugin { plugin: Seq<char>, format: Seq<char> },
    Builtin(Seq<char>),
    User(Seq<char>),
}

pub open spec fn schema_id_view(i: SchemaId) -> SpecSchemaId {
    match i {
        SchemaId::Plugin { plugin, format } => SpecSchemaId::Plugin { plugin: plugin@, format: format@ },
        SchemaId::Builtin(k) => SpecSchemaId::Builtin(k@),
        SchemaId::User(f) => SpecSchemaId::User(f@),
    }
}

/// `s` starts with `p`.
pub open spec fn has_prefix(s: Seq<char>, p: Seq<char>) -> bool {
    p.len() <= s.len() && s.take(p.len() as int) == p
}

/// What `parse_schema_id` gives.
pub open spec fn spec_parse_schema_id(id: Seq<char>) -> Result<SpecSchemaId, Seq<char>> {
    if has_prefix(id, "plugin:"@) {
        let rest = id.skip(7);
        match crate::text::find_char(rest, ':', 0) {
            Some(i) => Ok(SpecSchemaId::Plugin { plugin: rest.take(i as int), format: rest.skip(i as int + 1) }),
            None => Err("malformed plugin schema id"@),
        }
    } else if has_prefix(id, "builtin:"@) {
        Ok(SpecSchemaId::Builtin(id.skip(8)))
    } else if has_prefix(id, "user:"@) {
        Ok(SpecSchemaId::User(id.skip(5)))
    } else {
        Err("unknown schema id `"@ + id + "`"@)
    }
}

/// Read a library id: `plugin:<id>:<format>`, `builtin:<key>` or
/// `user:<file>`.
pub fn parse_schema_id(id: &str) -> (r: Result<SchemaId, String>)
    ensures
        match spec_parse_schema_id(id@) {
            Ok(v) => r matches Ok(x) && schema_id_view(x) == v,
            Err(e) => r matches Err(x) && x@ == e,
        },
{
    proof {
        reveal_strlit("plugin:");
        reveal_strlit("builtin:");
        reveal_strlit("user:");
    }
    match strip_prefix(id, "plugin:") {
        Some(rest) => {
            return match split_once(rest.as_str(), ':') {
                Some((plugin, format)) => Ok(SchemaId::Plugin { plugin, format }),
                None => Err(String::from_str("malformed plugin schema id")),
            };
        },
        None => {},
    }
    match strip_prefix(id, "builtin:") {
        Some(key) => {
            return Ok(SchemaId::Builtin(key));
        },
        None => {},
    }
    match strip_prefix(id, "user:") {
        Some(file) => {
            return Ok(SchemaId::User(file));
        },
        None => {},
    }
    let mut m = String::from_str("unknown schema id `");
    m.append(id);
    m.append("`");
    Err(m)
}

/// The loaded schema of a plugin format: its texts straight from the manifest.
pub open spec fn format_loaded(f: FormatDef) -> LoadedModel {
    LoadedModel { text: f.schema@, name: f.name@, entry: f.entry@, endian: f.endian@, description: f.description@ }
}

/// The index of the first plugin with id `pid`.
pub open spec fn plugin_index(plugins: Seq<LoadedPlugin>, pid: Seq<char>) -> Option<int> {
    if exists|k: int| 0 <= k < plugins.len() && (#[trigger] plugins[k]).manifest.id@ == pid {
        Some(choose|k: int| 0 <= k < plugins.len() && (#[trigger] plugins[k]).manifest.id@ == pid && forall|j: int|
            0 <= j < k ==> (#[trigger] plugins[j]).manifest.id@ != pid)
    } else {
        None
    }
}

/// The index of the first format named `name`.
pub open spec fn format_index(fs: Seq<FormatDef>, name: Seq<char>) -> Option<int> {
    if exists|k: int| 0 <= k < fs.len() && (#[trigger] fs[k]).name@ == name {
        Some(choose|k: int| 0 <= k < fs.len() && (#[trigger] fs[k]).name@ == name && forall|j: int|
            0 <= j < k ==> (#[trigger] fs[j]).name@ != name)
    } else {
        None
    }
}

/// What `plugin_schema` gives.
pub open spec fn spec_plugin_schema(plugins: Seq<LoadedPlugin>, pid: Seq<char>, fname: Seq<char>) -> Result<LoadedModel, Seq<char>> {
    match plugin_index(plugins, pid) {
        None => Err("no plugin `"@ + pid + "`"@),
        Some(k) => match format_index(plugins[k].manifest.formats@, fname) {
            None => Err("plugin `"@ + pid + "` has no format `"@ + fname + "`"@),
            Some(j) => Ok(format_loaded(plugins[k].manifest.formats@[j])),
        },
    }
}

proof fn lemma_first_index_unique(plugins: Seq<LoadedPlugin>, pid: Seq<char>, k: int)
    requires
        0 <= k < plugins.len(),
        plugins[k].manifest.id@ == pid,
        forall|j: int| 0 <= j < k ==> (#[trigger] plugins[j]).manifest.id@ != pid,
    ensures
        plugin_index(plugins, pid) == Some(k),
{
    let c = choose|c: int| 0 <= c < plugins.len() && (#[trigger] plugins[c]).manifest.id@ == pid && forall|j: int|
        0 <= j < c ==> (#[trigger] plugins[j]).manifest.id@ != pid;
    assert(plugins[k].manifest.id@ == pid && forall|j: int| 0 <= j < k ==> (#[trigger] plugins[j]).manifest.id@ != pid);
    if c < k {
        assert(plugins[c].manifest.id@ != pid);
    } else if c > k {
        assert(plugins[k].manifest.id@ != pid);
    }
}

pub(crate) proof fn lemma_first_format_unique(fs: Seq<FormatDef>, name: Seq<char>, k: int)
    requires
        0 <= k < fs.len(),
        fs[k].name@ == name,
        forall|j: int| 0 <= j < k ==> (#[trigger] fs[j]).name@ != name,
    ensures
        format_index(fs, name) == Some(k),
{
    let c = choose|c: int| 0 <= c < fs.len() && (#[trigger] fs[c]).name@ == name && forall|j: int|
        0 <= j < c ==> (#[trigger] fs[j]).name@ != name;
    assert(fs[k].name@ == name && forall|j: int| 0 <= j < k ==> (#[trigger] fs[j]).name@ != name);
    if c < k {
        assert(fs[c].name@ != name);
    } else if c > k {
        assert(fs[k].name@ != name);
    }
}

/// A plugin's schema for the editor: the plugin with id `pid` (the first so
/// named), and its format named `fname`, metadata taken from the manifest.
pub fn plugin_schema(plugins: &Vec<LoadedPlugin>, pid: &str, fname: &str) -> (r: Result<LoadedSchema, String>)
    ensures
        match spec_plugin_schema(plugins@, pid@, fname@) {
            Ok(l) => r matches Ok(x) && loaded_view(x) == l,
            Err(e) => r matches Err(x) && x@ == e,
        },
{
    let mut k: usize = 0;
    while k < plugins.len()
        invariant
            k <= plugins@.len(),
            forall|j: int| 0 <= j < k ==> (#[trigger] plugins@[j]).manifest.id@ != pid@,
        decreases plugins@.len() - k,
    {
        if str_eq(plugins[k].manifest.id.as_str(), pid) {
            proof {
                lemma_first_index_unique(plugins@, pid@, k as int);
            }
            let fs = &plugins[k].manifest.formats;
            let mut j: usize = 0;
            while j < fs.len()
                invariant
                    j <= fs@.len(),
                    k < plugins@.len(),
                    fs@ == plugins@[k as int].manifest.formats@,
                    plugin_index(plugins@, pid@) == Some(k as int),
                    forall|q: int| 0 <= q < j ==> (#[trigger] fs@[q]).name@ != fname@,
                decreases fs@.len() - j,
            {
                if str_eq(fs[j].name.as_str(), fname) {
                    proof {
                        lemma_first_format_unique(fs@, fname@, j as int);
                    }
                    let f = &fs[j];
                    return Ok(
                        LoadedSchema {
                            text: f.schema.clone(),
                            name: f.name.clone(),
                            entry: f.entry.clone(),
                            endian: f.endian.clone(),
                            description: f.description.clone(),
                        },
                    );
                }
                j += 1;
            }
            let mut m = String::from_str("plugin `");
            m.append(pid);
            m.append("` has no format `");
            m.append(fname);
            m.append("`");
            return Err(m);
        }
        k += 1;
    }
    let mut m = String::from_str("no plugin `");
    m.append(pid);
    m.append("`");
    Err(m)
}

/// What `builtin_loaded` gives: the bundled schema keyed `key` (the first so
/// keyed), named `key` when its header gives no name.
pub open spec fn spec_builtin_loaded(builtins: Seq<(String, String)>, key: Seq<char>) -> Result<LoadedModel, Seq<char>> {
    if exists|k: int| 0 <= k < builtins.len() && (#[trigger] builtins[k]).0@ == key {
        let k = choose|k: int| 0 <= k < builtins.len() && (#[trigger] builtins[k]).0@ == key && forall|j: int|
            0 <= j < k ==> (#[trigger] builtins[j]).0@ != key;
        Ok(spec_loaded_schema(builtins[k].1@, key))
    } else {
        Err("no built-in schema `"@ + key + "`"@)
    }
}

/// A bundled schema (`builtins` pairs keys with schema texts) for the editor.
pub fn builtin_loaded(builtins: &Vec<(String, String)>, key: &str) -> (r: Result<LoadedSchema, String>)
    ensures
        match spec_builtin_loaded(builtins@, key@) {
            Ok(l) => r matches Ok(x) && loaded_view(x) == l,
            Err(e) => r matches Err(x) && x@ == e,
        },
{
    let mut k: usize = 0;
    while k < builtins.len()
        invariant
            k <= builtins@.len(),
            forall|j: int| 0 <= j < k ==> (#[trigger] builtins@[j]).0@ != key@,
        decreases builtins@.len() - k,
    {
        if str_eq(builtins[k].0.as_str(), key) {
            proof {
                let b = builtins@;
                let c = choose|c: int| 0 <= c < b.len() && (#[trigger] b[c]).0@ == key@ && forall|j: int|
                    0 <= j < c ==> (#[trigger] b[j]).0@ != key@;
                assert(b[k as int].0@ == key@ && forall|j: int| 0 <= j < k ==> (#[trigger] b[j]).0@ != key@);
                if c < k {
                    assert(b[c].0@ != key@);
                } else if c > k {
                    assert(b[k as int].0@ != key@);
                }
            }
            return Ok(loaded_schema(builtins[k].1.clone(), key));
        }
        k += 1;
    }
    let mut m = String::from_str("no built-in schema `");
    m.append(key);
    m.append("`");
    Err(m)
}


// ---------------------------------------------------------------------------
// The library listing.

/// A schema file of the user's library: its file name, the name without the
/// extension, and its text.
#[derive(Debug, Clone)]
pub struct UserSchema {
    pub file: String,
    pub stem: String,
    pub text: String,
}

/// The entries of a listing, as models.
pub open spec fn entries_view(v: Seq<SchemaEntry>) -> Seq<EntryModel> {
    v.map_values(|e: SchemaEntry| entry_view(e))
}

/// The entry of a bundled schema.
pub open spec fn builtin_entry(b: (String, String)) -> EntryModel {
    spec_entry_from_meta("builtin:"@ + b.0@, "builtin"@, spec_parse_metadata(b.1@), b.0@)
}

/// The entry of a user schema.
pub open spec fn user_entry(u: UserSchema) -> EntryModel {
    spec_entry_from_meta("user:"@ + u.file@, "user"@, spec_parse_metadata(u.text@), u.stem@)
}

/// The key user schemas are listed by: their entry name, lower-cased.
pub open spec fn user_key(u: UserSchema) -> Seq<char> {
    lowercase(user_entry(u).name)
}

/// The entry of a format an (enabled) plugin contributes: named
/// `<format> (<plugin>)`, with the format's entry, byte order and description.
pub open spec fn plugin_format_entry(m: PluginManifest, f: FormatDef) -> EntryModel {
    spec_entry_from_meta(
        "plugin:"@ + m.id@ + ":"@ + f.name@,
        "plugin"@,
        MetaModel {
            name: f.name@ + " ("@ + m.name@ + ")"@,
            entry: f.entry@,
            endian: f.endian@,
            description: f.description@,
        },
        f.name@,
    )
}

/// The entries of the formats of the enabled plugins, plugin by plugin.
pub open spec fn plugin_entries(plugins: Seq<LoadedPlugin>) -> Seq<EntryModel>
    decreases plugins.len(),
{
    if plugins.len() == 0 {
        Seq::empty()
    } else {
        let p = plugins.last();
        plugin_entries(plugins.drop_last()) + if p.enabled {
            p.manifest.formats@.map_values(|f: FormatDef| plugin_format_entry(p.manifest, f))
        } else {
            Seq::empty()
        }
    }
}

/// What `library_entries` lists: the bundled schemas in order, then the
/// user's schemas ordered by lower-cased name, then the formats of the
/// enabled plugins.
pub open spec fn spec_library_entries(builtins: Seq<(String, String)>, user: Seq<UserSchema>, plugins: Seq<LoadedPlugin>) -> Seq<EntryModel> {
    builtins.map_values(|b: (String, String)| builtin_entry(b)) + sort_by_key(user, |u: UserSchema| user_key(u)).map_values(
        |u: UserSchema| user_entry(u),
    ) + plugin_entries(plugins)
}

fn push_entry(out: &mut Vec<SchemaEntry>, id: String, source: &str, meta: &Metadata, fallback: &str)
    ensures
        entries_view(final(out)@) == entries_view(old(out)@).push(
            spec_entry_from_meta(id@, source@, meta_view(*meta), fallback@),
        ),
{
    let e = entry_from_meta(id, source, meta, fallback);
    out.push(e);
    assert(entries_view(out@) =~= entries_view(old(out)@).push(entry_view(e)));
}

fn prefixed(p: &str, s: &str) -> (r: String)
    ensures
        r@ == p@ + s@,
{
    let mut r = String::from_str(p);
    r.append(s);
    r
}

fn user_schema_entry(u: &UserSchema) -> (e: SchemaEntry)
    ensures
        entry_view(e) == user_entry(*u),
{
    let meta = parse_metadata(u.text.as_str());
    proof {
        reveal_strlit("user:");
        reveal_strlit("user");
    }
    entry_from_meta(prefixed("user:", u.file.as_str()), "user", &meta, u.stem.as_str())
}

/// Every schema the library lists: the bundled ones (`builtins` pairs keys
/// with texts), the user's library files sorted by lower-cased name, and the
/// formats of the enabled plugins (read-only, like the bundled ones).
pub fn library_entries(builtins: &Vec<(String, String)>, user: Vec<UserSchema>, plugins: &Vec<LoadedPlugin>) -> (r: Vec<SchemaEntry>)
    ensures
        entries_view(r@) == spec_library_entries(builtins@, user@, plugins@),
{
    proof {
        reveal_strlit("builtin:");
        reveal_strlit("builtin");
        reveal_strlit("plugin:");
        reveal_strlit("plugin");
        reveal_strlit(":");
        reveal_strlit(" (");
        reveal_strlit(")");
    }
    let mut out: Vec<SchemaEntry> = Vec::new();
    let mut k: usize = 0;
    assert(entries_view(out@) =~= Seq::<EntryModel>::empty());
    while k < builtins.len()
        invariant
            k <= builtins@.len(),
            entries_view(out@) == builtins@.take(k as int).map_values(|b: (String, String)| builtin_entry(b)),
        decreases builtins@.len() - k,
    {
        let meta = parse_metadata(builtins[k].1.as_str());
        push_entry(&mut out, prefixed("builtin:", builtins[k].0.as_str()), "builtin", &meta, builtins[k].0.as_str());
        assert(builtins@.take(k + 1).map_values(|b: (String, String)| builtin_entry(b)) =~= builtins@.take(
            k as int,
        ).map_values(|b: (String, String)| builtin_entry(b)).push(builtin_entry(builtins@[k as int])));
        k += 1;
    }
    assert(builtins@.take(builtins@.len() as int) =~= builtins@);
    let ghost part1 = entries_view(out@);
    let mut keys: Vec<String> = Vec::new();
    let mut q: usize = 0;
    while q < user.len()
        invariant
            q <= user@.len(),
            keys@.len() == q,
            forall|j: int| 0 <= j < q ==> (#[trigger] keys@[j])@ == user_key(user@[j]),
        decreases user@.len() - q,
    {
        let e = user_schema_entry(&user[q]);
        keys.push(to_lowercase(e.name.as_str()));
        q += 1;
    }
    let sorted = sort_by_keys(user, keys, Ghost(|u: UserSchema| user_key(u)));
    let mut q: usize = 0;
    while q < sorted.len()
        invariant
            q <= sorted@.len(),
            entries_view(out@) == part1 + sorted@.take(q as int).map_values(|u: UserSchema| user_entry(u)),
        decreases sorted@.len() - q,
    {
        let e = user_schema_entry(&sorted[q]);
        let ghost prev = out@;
        out.push(e);
        assert(entries_view(out@) =~= entries_view(prev).push(entry_view(e)));
        assert(sorted@.take(q + 1).map_values(|u: UserSchema| user_entry(u)) =~= sorted@.take(q as int).map_values(
            |u: UserSchema| user_entry(u),
        ).push(user_entry(sorted@[q as int])));
        assert(entries_view(out@) =~= part1 + sorted@.take(q + 1).map_values(|u: UserSchema| user_entry(u)));
        q += 1;
    }
    assert(sorted@.take(sorted@.len() as int) =~= sorted@);
    let ghost part2 = entries_view(out@);
    let mut p: usize = 0;
    assert(plugins@.take(0) =~= Seq::<LoadedPlugin>::empty());
    while p < plugins.len()
        invariant
            p <= plugins@.len(),
            entries_view(out@) == part2 + plugin_entries(plugins@.take(p as int)),
        decreases plugins@.len() - p,
    {
        let pl = &plugins[p];
        let ghost before = entries_view(out@);
        if pl.enabled {
            let fs = &pl.manifest.formats;
            let mut j: usize = 0;
            while j < fs.len()
                invariant
                    j <= fs@.len(),
                    fs@ == pl.manifest.formats@,
                    entries_view(out@) == before + fs@.take(j as int).map_values(
                        |f: FormatDef| plugin_format_entry(pl.manifest, f),
                    ),
                decreases fs@.len() - j,
            {
                let f = &fs[j];
                let mut name = f.name.clone();
                name.append(" (");
                name.append(pl.manifest.name.as_str());
                name.append(")");
                let meta = Metadata {
                    name,
                    entry: f.entry.clone(),
                    endian: f.endian.clone(),
                    description: f.description.clone(),
                };
                let mut id = String::from_str("plugin:");
                id.append(pl.manifest.id.as_str());
                id.append(":");
                id.append(f.name.as_str());
                push_entry(&mut out, id, "plugin", &meta, f.name.as_str());
                assert(fs@.take(j + 1).map_values(|f: FormatDef| plugin_format_entry(pl.manifest, f)) =~= fs@.take(
                    j as int,
                ).map_values(|f: FormatDef| plugin_format_entry(pl.manifest, f)).push(
                    plugin_format_entry(pl.manifest, fs@[j as int]),
                ));
                j += 1;
            }
            assert(fs@.take(fs@.len() as int) =~= fs@);
        }
        assert(plugins@.take(p + 1).drop_last() =~= plugins@.take(p as int));
        assert(entries_view(out@) =~= part2 + plugin_entries(plugins@.take(p + 1)));
        p += 1;
    }
    assert(plugins@.take(plugins@.len() as int) =~= plugins@);
    out
}

} // verus!
