//! The computations behind the open-file commands: windows into the file,
//! search queries, edit status, schema entry points and field edits.
use vstd::prelude::*;

use base64::Engine;
use vstd::string::StringSliceAdditionalSpecFns;

use crate::editing::{
    can_encode, encodable, encode_value, model_read, spec_encode_value, spec_from_tag, EditBuffer, EditModel, ValueKind,
};
use crate::analysis::{find_strings, hits_view, spec_find_strings, StringHit};
use crate::reader::{read_error_message, uint_at, BinaryReader, Endian, ReadError};
use crate::detection::{detect, detection_order, reports, signature_table, SigModel};
use crate::catalog::format_index;
use crate::installed::LoadedPlugin;
use crate::plugin::{conf_before, format_detects, FormatDef, PluginManifest};
use crate::schema::Schema;
use crate::search::{
    encode_int, find_all, parse_hex, spec_encode_int, spec_find_all, spec_parse_hex, text_bytes, text_utf16le,
    utf16le_bytes,
};
use crate::text::{
    chars_equal, chars_of, decimal, eq_ignore_ascii_case, push_decimal, str_eq, strip_prefix, trim, trim_str,
};

verus! {

/// Cap on how many search matches are reported.
pub const SEARCH_LIMIT: usize = 5000;

/// How much of the start of a file the string scanner reads (1 MiB).
pub const STRING_SCAN_BYTES: usize = 1048576;

/// Cap on how many string hits are reported.
pub const STRING_SCAN_LIMIT: usize = 1000;

/// Cap on how many dirty offsets are reported for highlighting.
pub const DIRTY_OFFSET_LIMIT: usize = 100000;

/// A file offset as an index: the offset itself when it fits in `usize`,
/// else `offset too large`.
pub fn offset_index(offset: u64) -> (r: Result<usize, String>)
    ensures
        offset <= usize::MAX ==> r == Ok::<usize, String>(offset as usize),
        offset > usize::MAX ==> (r matches Err(e) && e@ == "offset too large"@),
{
    if offset <= usize::MAX as u64 {
        Ok(offset as usize)
    } else {
        Err(String::from_str("offset too large"))
    }
}

/// How many of `length` bytes asked for at `offset` a `total`-byte file has:
/// the request clamped to what remains (nothing past the end).
pub fn window_len(total: usize, offset: usize, length: usize) -> (n: usize)
    ensures
        offset >= total ==> n == 0,
        offset < total ==> n == if length < total - offset { length as int } else { total - offset },
{
    let remaining = if offset < total { total - offset } else { 0 };
    if length < remaining { length } else { remaining }
}

/// What `search_needle` gives: the bytes to search for, by query kind.
/// Whether an optional byte-order setting says big-endian (`be`).
pub open spec fn names_be(endian: Option<&str>) -> bool {
    match endian {
        Some(e) => e@ == "be"@,
        None => false,
    }
}

pub open spec fn spec_search_needle(kind: Seq<char>, query: Seq<char>, width: Option<u8>, big: bool) -> Result<Seq<u8>, Seq<char>> {
    if kind == "hex"@ {
        spec_parse_hex(query)
    } else if kind == "text"@ {
        Ok(vstd::utf8::encode_utf8(query))
    } else if kind == "utf16"@ {
        Ok(utf16le_bytes(query))
    } else if kind == "value"@ {
        match width {
            None => Err("value search needs a width"@),
            Some(w) => spec_encode_int(query, w as usize, big),
        }
    } else {
        Err("unknown search kind: "@ + kind)
    }
}

/// Turn a search query into the bytes to look for: `hex` digits, `text`
/// (UTF-8), `utf16` (UTF-16LE), or a `value` integer of `width` bytes in the
/// byte order `endian` (`be`, else little-endian).
pub fn search_needle(kind: &str, query: &str, width: Option<u8>, endian: Option<&str>) -> (r: Result<Vec<u8>, String>)
    ensures
        match spec_search_needle(kind@, query@, width, names_be(endian)) {
            Ok(b) => r matches Ok(x) && x@ == b,
            Err(e) => r matches Err(x) && x@ == e,
        },
{
    if str_eq(kind, "hex") {
        parse_hex(query)
    } else if str_eq(kind, "text") {
        Ok(text_bytes(query))
    } else if str_eq(kind, "utf16") {
        Ok(text_utf16le(query))
    } else if str_eq(kind, "value") {
        match width {
            None => Err(String::from_str("value search needs a width")),
            Some(w) => {
                let big = match endian {
                    Some(e) => str_eq(e, "be"),
                    None => false,
                };
                encode_int(query, w as usize, big)
            },
        }
    } else {
        let mut m = String::from_str("unknown search kind: ");
        m.append(kind);
        Err(m)
    }
}

/// The match offsets reported for a search: none for an empty needle, else
/// the first [`SEARCH_LIMIT`] matches.
pub fn search_offsets(hay: &[u8], needle: &[u8]) -> (r: Vec<u64>)
    ensures
        needle@.len() == 0 ==> r@.len() == 0,
        needle@.len() > 0 ==> r@.len() == spec_find_all(hay@, needle@, SEARCH_LIMIT).len() && forall|k: int|
            0 <= k < r@.len() ==> r@[k] == spec_find_all(hay@, needle@, SEARCH_LIMIT)[k],
{
    let mut out: Vec<u64> = Vec::new();
    if needle.len() == 0 {
        return out;
    }
    let found = find_all(hay, needle, SEARCH_LIMIT);
    let mut k: usize = 0;
    while k < found.len()
        invariant
            k <= found@.len(),
            found@ == spec_find_all(hay@, needle@, SEARCH_LIMIT),
            out@.len() == k,
            forall|j: int| 0 <= j < k ==> out@[j] == found@[j],
        decreases found@.len() - k,
    {
        out.push(found[k] as u64);
        k += 1;
    }
    out
}

/// Snapshot of the edit buffer for the UI.
#[derive(Debug, Clone)]
pub struct EditStatus {
    pub dirty: bool,
    pub dirty_count: usize,
    pub can_undo: bool,
    pub can_redo: bool,
    /// The edited offsets, ascending, at most [`DIRTY_OFFSET_LIMIT`] of them.
    pub dirty_offsets: Vec<u64>,
}

/// The edit status of a buffer: whether it is dirty, how many bytes differ,
/// undo and redo availability, and the lowest edited offsets (ascending, at
/// most [`DIRTY_OFFSET_LIMIT`]).
pub fn edit_status_of(edits: &EditBuffer) -> (s: EditStatus)
    ensures
        s.dirty == !edits@.overlay.is_empty(),
        s.dirty_count == edits@.overlay.len(),
        s.can_undo == (edits@.undo.len() > 0),
        s.can_redo == (edits@.redo.len() > 0),
        s.dirty_offsets@.len() <= DIRTY_OFFSET_LIMIT,
        forall|k: int| 0 <= k < s.dirty_offsets@.len() ==> edits@.overlay.dom().contains(#[trigger] s.dirty_offsets@[k] as usize)
            && s.dirty_offsets@[k] <= usize::MAX,
        forall|i: int, j: int| 0 <= i < j < s.dirty_offsets@.len() ==> s.dirty_offsets@[i] < s.dirty_offsets@[j],
        forall|o: usize, k: int|
            0 <= k < s.dirty_offsets@.len() && edits@.overlay.dom().contains(o) && (o as u64) < s.dirty_offsets@[k]
                ==> s.dirty_offsets@.contains(o as u64),
        s.dirty_offsets@.len() < DIRTY_OFFSET_LIMIT ==> forall|o: usize| #[trigger] edits@.overlay.dom().contains(o)
            ==> s.dirty_offsets@.contains(o as u64),
{
    let all = edits.dirty_offsets();
    let n: usize = if all.len() < DIRTY_OFFSET_LIMIT { all.len() } else { DIRTY_OFFSET_LIMIT };
    let mut out: Vec<u64> = Vec::new();
    let mut k: usize = 0;
    while k < n
        invariant
            k <= n <= all@.len(),
            n <= DIRTY_OFFSET_LIMIT,
            out@.len() == k,
            forall|j: int| 0 <= j < k ==> out@[j] == all@[j] as u64,
        decreases n - k,
    {
        out.push(all[k] as u64);
        k += 1;
    }
    proof {
        let d = edits@.overlay.dom();
        assert forall|q: int| 0 <= q < out@.len() implies d.contains(#[trigger] out@[q] as usize) && out@[q] <= usize::MAX by {
            assert(all@.to_set().contains(all@[q]));
        }
        assert forall|o: usize, q: int|
            0 <= q < out@.len() && d.contains(o) && (o as u64) < out@[q] implies out@.contains(o as u64) by {
            assert(all@.to_set().contains(o));
            let j = choose|j: int| 0 <= j < all@.len() && all@[j] == o;
            if j >= q {
                if j > q {
                    assert(all@[q] < all@[j]);
                }
                assert(false);
            }
            assert(out@[j] == o as u64);
        }
        if out@.len() < DIRTY_OFFSET_LIMIT {
            assert(n == all@.len());
            assert forall|o: usize| #[trigger] d.contains(o) implies out@.contains(o as u64) by {
                assert(all@.to_set().contains(o));
                let j = choose|j: int| 0 <= j < all@.len() && all@[j] == o;
                assert(out@[j] == o as u64);
            }
        }
    }
    EditStatus {
        dirty: edits.is_dirty(),
        dirty_count: edits.dirty_count(),
        can_undo: edits.can_undo(),
        can_redo: edits.can_redo(),
        dirty_offsets: out,
    }
}

/// The byte order a setting names: big-endian for `be` in any ASCII case,
/// little-endian otherwise.
pub fn endian_of(s: &str) -> (e: Endian)
    ensures
        e == (if eq_ignore_ascii_case(s@, "be"@) { Endian::Big } else { Endian::Little }),
{
    let v = chars_of(s);
    proof {
        reveal_strlit("be");
    }
    if v.len() == 2 && (v[0] == 'b' || v[0] == 'B') && (v[1] == 'e' || v[1] == 'E') {
        Endian::Big
    } else {
        Endian::Little
    }
}

/// What `entry_point` gives: `entry` itself unless it is blank, else the
/// first struct's name, or an error when the schema has none.
pub open spec fn spec_entry_point(struct_names: Seq<Seq<char>>, entry: Seq<char>) -> Result<Seq<char>, Seq<char>> {
    if trim(entry).len() > 0 {
        Ok(entry)
    } else if struct_names.len() > 0 {
        Ok(struct_names[0])
    } else {
        Err("schema defines no structs"@)
    }
}

/// The struct a schema is run from: `entry`, or the first struct defined
/// when `entry` is blank.
pub fn entry_point(schema: &Schema, entry: &str) -> (r: Result<String, String>)
    ensures
        match spec_entry_point(schema.structs@.map_values(|s: crate::schema::StructDef| s.name@), entry@) {
            Ok(n) => r matches Ok(x) && x@ == n,
            Err(e) => r matches Err(x) && x@ == e,
        },
{
    let t = trim_str(entry);
    if !t.as_str().is_empty() {
        Ok(String::from_str(entry))
    } else if schema.structs.len() > 0 {
        Ok(schema.structs[0].name.clone())
    } else {
        Err(String::from_str("schema defines no structs"))
    }
}

/// What `field_bytes` gives: the encoding of `value` as a field of kind `tag`,
/// or why it cannot be.
pub open spec fn spec_field_bytes(size: usize, tag: Seq<char>, endian: Seq<char>, value: Seq<char>, kind: Option<ValueKind>) -> Result<Seq<u8>, Seq<char>> {
    match kind {
        None => Err("cannot edit a "@ + tag + " field"@),
        Some(k) => spec_encode_value(
            k,
            size,
            if eq_ignore_ascii_case(endian, "be"@) { Endian::Big } else { Endian::Little },
            value,
        ),
    }
}

/// The bytes an edited field value is written as: `tag` names the kind of
/// value (as the runtime tags them), `endian` the byte order. Kinds with no
/// encoding here (floating point) are answered `None`, for the caller to
/// encode.
pub fn field_bytes(size: usize, tag: &str, endian: &str, value: &str) -> (r: Option<Result<Vec<u8>, String>>)
    ensures
        match spec_from_tag(tag@) {
            None => r matches Some(Err(e)) && e@ == "cannot edit a "@ + tag@ + " field"@,
            Some(k) => if encodable(k, size, value@) {
                r matches Some(x) && match spec_field_bytes(size, tag@, endian@, value@, Some(k)) {
                    Ok(b) => x matches Ok(y) && y@ == b,
                    Err(e) => x matches Err(y) && y@ == e,
                }
            } else {
                r is None
            },
        },
{
    match ValueKind::from_tag(tag) {
        None => {
            let mut m = String::from_str("cannot edit a ");
            m.append(tag);
            m.append(" field");
            Some(Err(m))
        },
        Some(kind) => {
            if can_encode(kind, size, value) {
                Some(encode_value(kind, size, endian_of(endian), value))
            } else {
                None
            }
        },
    }
}

/// A bare file name: no `/`, no `\`, no `..`, so it stays inside its
/// directory.
pub open spec fn bare_file_name(f: Seq<char>) -> bool {
    &&& !f.contains('/')
    &&& !f.contains('\\')
    &&& forall|i: int| 0 <= i && i + 1 < f.len() ==> !(#[trigger] f[i] == '.' && f[i + 1] == '.')
}

/// Whether `f` is a bare file name (guarding removal against path traversal).
pub fn is_bare_file_name(f: &str) -> (b: bool)
    ensures
        b == bare_file_name(f@),
{
    let v = crate::text::chars_of(f);
    let mut i: usize = 0;
    while i < v.len()
        invariant
            i <= v@.len(),
            v@ == f@,
            forall|j: int| 0 <= j < i ==> v@[j] != '/' && v@[j] != '\\',
            forall|j: int| 0 <= j < i && j + 1 < v@.len() ==> !(#[trigger] v@[j] == '.' && v@[j + 1] == '.'),
        decreases v@.len() - i,
    {
        if v[i] == '/' || v[i] == '\\' {
            assert(f@.contains(v@[i as int]));
            return false;
        }
        if i + 1 < v.len() && v[i] == '.' && v[i + 1] == '.' {
            return false;
        }
        i += 1;
    }
    proof {
        assert(!f@.contains('/')) by {
            if f@.contains('/') {
                let j = choose|j: int| 0 <= j < f@.len() && f@[j] == '/';
                assert(v@[j] != '/');
            }
        }
        assert(!f@.contains('\\')) by {
            if f@.contains('\\') {
                let j = choose|j: int| 0 <= j < f@.len() && f@[j] == '\\';
                assert(v@[j] != '\\');
            }
        }
    }
    true
}

// ---------------------------------------------------------------------------
// Format detection across the built-in signatures and plugins.

/// A recognized format, from a built-in signature or a plugin.
#[derive(Debug, Clone)]
pub struct DetectionOut {
    pub format: String,
    pub extension: String,
    pub description: String,
    pub confidence: u8,
    /// `builtin` or `plugin`.
    pub source: String,
}

/// A detection with its texts as characters.
pub struct DetModel {
    pub format: Seq<char>,
    pub extension: Seq<char>,
    pub description: Seq<char>,
    pub confidence: u8,
    pub source: Seq<char>,
}

pub open spec fn det_view(d: DetectionOut) -> DetModel {
    DetModel {
        format: d.format@,
        extension: d.extension@,
        description: d.description@,
        confidence: d.confidence,
        source: d.source@,
    }
}

pub open spec fn dets_view(v: Seq<DetectionOut>) -> Seq<DetModel> {
    v.map_values(|d: DetectionOut| det_view(d))
}

/// The detection a built-in signature reports.
pub open spec fn sig_det(s: SigModel) -> DetModel {
    DetModel {
        format: s.format,
        extension: s.extension,
        description: s.description,
        confidence: s.confidence,
        source: "builtin"@,
    }
}

/// The detection a plugin format reports.
pub open spec fn fmt_det(f: FormatDef) -> DetModel {
    DetModel {
        format: f.name@,
        extension: f.extension@,
        description: f.description@,
        confidence: f.confidence,
        source: "plugin"@,
    }
}

/// `b` is what the built-in signatures report for `head`, in their order.
pub open spec fn builtin_dets(head: Seq<u8>, b: Seq<DetModel>) -> bool {
    exists|order: Seq<int>|
        #![trigger detection_order(head, order)]
        detection_order(head, order) && b.len() == order.len() && forall|k: int|
            0 <= k < order.len() ==> #[trigger] b[k] == sig_det(signature_table()[order[k]])
}

/// `order` lists the formats of `fs` that detect `head`, most confident
/// first, equally confident ones in their order.
pub open spec fn format_order(fs: Seq<FormatDef>, head: Seq<u8>, order: Seq<int>) -> bool {
    &&& forall|k: int| 0 <= k < order.len() ==> 0 <= #[trigger] order[k] < fs.len() && format_detects(fs[order[k]], head)
    &&& forall|i: int| 0 <= i < fs.len() && format_detects(fs[i], head) ==> order.contains(i)
    &&& forall|k: int, l: int| 0 <= k < l < order.len() ==> conf_before(fs, #[trigger] order[k], #[trigger] order[l])
}

/// `q` is what the formats of `m` report for `head`.
pub open spec fn format_dets(m: PluginManifest, head: Seq<u8>, q: Seq<DetModel>) -> bool {
    exists|order: Seq<int>|
        #![trigger format_order(m.formats@, head, order)]
        format_order(m.formats@, head, order) && q.len() == order.len() && forall|k: int|
            0 <= k < order.len() ==> #[trigger] q[k] == fmt_det(m.formats@[order[k]])
}

/// `q` is what plugin `pl` reports for `head`: nothing when it is disabled.
pub open spec fn plugin_part(head: Seq<u8>, pl: LoadedPlugin, q: Seq<DetModel>) -> bool {
    if pl.enabled {
        format_dets(pl.manifest, head, q)
    } else {
        q.len() == 0
    }
}

/// `p` is what the enabled plugins report for `head`, plugin by plugin.
pub open spec fn plugin_dets(head: Seq<u8>, plugins: Seq<LoadedPlugin>, p: Seq<DetModel>) -> bool {
    exists|qs: Seq<Seq<DetModel>>|
        #![trigger qs.flatten_alt()]
        qs.len() == plugins.len() && (forall|i: int| 0 <= i < qs.len() ==> plugin_part(head, #[trigger] plugins[i], qs[i]))
            && p == qs.flatten_alt()
}

/// `h` placed after every detection of `sorted` at least as confident.
pub open spec fn insert_by_confidence(sorted: Seq<DetModel>, h: DetModel) -> Seq<DetModel>
    decreases sorted.len(),
{
    if sorted.len() == 0 {
        seq![h]
    } else if sorted.last().confidence >= h.confidence {
        sorted.push(h)
    } else {
        insert_by_confidence(sorted.drop_last(), h).push(sorted.last())
    }
}

/// The stable sort of `ds` by confidence, most confident first.
pub open spec fn sort_by_confidence(ds: Seq<DetModel>) -> Seq<DetModel>
    decreases ds.len(),
{
    if ds.len() == 0 {
        Seq::empty()
    } else {
        insert_by_confidence(sort_by_confidence(ds.drop_last()), ds.last())
    }
}

proof fn lemma_insert_conf_at(sorted: Seq<DetModel>, h: DetModel, j: int)
    requires
        0 <= j <= sorted.len(),
        forall|k: int| j <= k < sorted.len() ==> (#[trigger] sorted[k]).confidence < h.confidence,
        j > 0 ==> sorted[j - 1].confidence >= h.confidence,
    ensures
        insert_by_confidence(sorted, h) == sorted.insert(j, h),
    decreases sorted.len(),
{
    if sorted.len() == 0 {
        assert(sorted.insert(j, h) =~= seq![h]);
    } else if sorted.last().confidence >= h.confidence {
        assert(sorted.insert(j, h) =~= sorted.push(h));
    } else {
        let d = sorted.drop_last();
        lemma_insert_conf_at(d, h, j);
        assert(sorted.insert(j, h) =~= d.insert(j, h).push(sorted.last()));
    }
}

/// Detections in non-increasing confidence order.
pub open spec fn confidence_descending(s: Seq<DetModel>) -> bool {
    forall|i: int, j: int| 0 <= i < j < s.len() ==> s[i].confidence >= s[j].confidence
}

proof fn lemma_insert_by_confidence(sorted: Seq<DetModel>, h: DetModel)
    requires
        confidence_descending(sorted),
    ensures
        confidence_descending(insert_by_confidence(sorted, h)),
        insert_by_confidence(sorted, h).len() == sorted.len() + 1,
        forall|k: int| 0 <= k < insert_by_confidence(sorted, h).len() ==> #[trigger] insert_by_confidence(sorted, h)[k]
            == h || sorted.contains(insert_by_confidence(sorted, h)[k]),
    decreases sorted.len(),
{
    let r = insert_by_confidence(sorted, h);
    if sorted.len() == 0 {
    } else if sorted.last().confidence >= h.confidence {
        assert forall|k: int| 0 <= k < r.len() implies #[trigger] r[k] == h || sorted.contains(r[k]) by {
            if k < sorted.len() {
                assert(r[k] == sorted[k]);
            }
        }
    } else {
        let d = sorted.drop_last();
        let last = sorted.last();
        assert(confidence_descending(d));
        lemma_insert_by_confidence(d, h);
        let q = insert_by_confidence(d, h);
        assert forall|k: int| 0 <= k < q.len() implies (#[trigger] q[k]).confidence >= last.confidence by {
            if q[k] != h {
                assert(d.contains(q[k]));
                let j = choose|j: int| 0 <= j < d.len() && d[j] == q[k];
                assert(sorted[j] == d[j]);
                assert(sorted[sorted.len() - 1] == last);
            }
        }
        assert forall|k: int| 0 <= k < r.len() implies #[trigger] r[k] == h || sorted.contains(r[k]) by {
            if k < q.len() {
                assert(r[k] == q[k]);
                if q[k] != h {
                    let j = choose|j: int| 0 <= j < d.len() && d[j] == q[k];
                    assert(sorted[j] == d[j]);
                }
            } else {
                assert(r[k] == last);
                assert(sorted[sorted.len() - 1] == last);
            }
        }
        assert forall|i: int, j: int| 0 <= i < j < r.len() implies r[i].confidence >= r[j].confidence by {
            if j < q.len() {
                assert(r[i] == q[i] && r[j] == q[j]);
            } else {
                assert(r[i] == q[i]);
            }
        }
    }
}

/// The detections `detect_format` reports come most confident first, one for
/// each built-in and plugin hit.
pub proof fn law_detections_by_confidence(ds: Seq<DetModel>)
    ensures
        confidence_descending(sort_by_confidence(ds)),
        sort_by_confidence(ds).len() == ds.len(),
    decreases ds.len(),
{
    if ds.len() > 0 {
        law_detections_by_confidence(ds.drop_last());
        lemma_insert_by_confidence(sort_by_confidence(ds.drop_last()), ds.last());
    }
}

/// Detections stably sorted, most confident first.
fn sort_detections(all: Vec<DetectionOut>) -> (r: Vec<DetectionOut>)
    ensures
        dets_view(r@) == sort_by_confidence(dets_view(all@)),
{
    let ghost hs = dets_view(all@);
    let mut all = all;
    let mut out: Vec<DetectionOut> = Vec::new();
    assert(dets_view(out@) =~= Seq::<DetModel>::empty());
    assert(hs.subrange(0, 0) =~= Seq::<DetModel>::empty());
    while all.len() > 0
        invariant
            all@.len() <= hs.len(),
            dets_view(all@) == hs.subrange(hs.len() - all@.len(), hs.len() as int),
            dets_view(out@) == sort_by_confidence(hs.subrange(0, hs.len() - all@.len())),
        decreases all@.len(),
    {
        let ghost i = hs.len() - all@.len();
        let ghost before = all@;
        let h = all.remove(0);
        proof {
            assert(det_view(h) == dets_view(before)[0]);
            assert(all@ =~= before.subrange(1, before.len() as int));
            assert forall|k: int| 0 <= k < all@.len() implies dets_view(all@)[k] == hs.subrange(
                i + 1,
                hs.len() as int,
            )[k] by {
                assert(dets_view(all@)[k] == dets_view(before)[k + 1]);
            }
            assert(dets_view(all@) =~= hs.subrange(i + 1, hs.len() as int));
            assert(hs.subrange(0, i + 1).drop_last() =~= hs.subrange(0, i));
            assert(hs.subrange(0, i + 1).last() == hs[i]);
        }
        let ghost dv = dets_view(out@);
        let mut j: usize = out.len();
        while j > 0 && out[j - 1].confidence < h.confidence
            invariant
                j <= out@.len(),
                dv == dets_view(out@),
                forall|k: int| j <= k < out@.len() ==> (#[trigger] dv[k]).confidence < h.confidence,
            decreases j,
        {
            j -= 1;
        }
        proof {
            lemma_insert_conf_at(dv, det_view(h), j as int);
        }
        out.insert(j, h);
        assert(dets_view(out@) =~= dv.insert(j as int, det_view(h)));
    }
    assert(hs.subrange(0, hs.len() as int) =~= hs);
    out
}

/// Which known formats the head of a file matches: the built-in signatures
/// and the formats of the enabled plugins, most confident first (a stable
/// order: built-in before plugin, and each in its own order, among equals).
pub fn detect_format(head: &[u8], plugins: &Vec<LoadedPlugin>) -> (r: Vec<DetectionOut>)
    ensures
        exists|b: Seq<DetModel>, p: Seq<DetModel>|
            #![trigger builtin_dets(head@, b), plugin_dets(head@, plugins@, p)]
            builtin_dets(head@, b) && plugin_dets(head@, plugins@, p) && dets_view(r@) == sort_by_confidence(b + p),
{
    proof {
        reveal_strlit("builtin");
        reveal_strlit("plugin");
    }
    let found = detect(head);
    let ghost order = choose|order: Seq<int>|
        #![trigger detection_order(head@, order)]
        detection_order(head@, order) && found@.len() == order.len() && forall|k: int|
            0 <= k < order.len() ==> reports(#[trigger] found@[k], signature_table()[order[k]]);
    let mut out: Vec<DetectionOut> = Vec::new();
    let mut k: usize = 0;
    while k < found.len()
        invariant
            k <= found@.len(),
            found@.len() == order.len(),
            forall|q: int| 0 <= q < order.len() ==> reports(#[trigger] found@[q], signature_table()[order[q]]),
            out@.len() == k,
            forall|q: int| 0 <= q < k ==> #[trigger] dets_view(out@)[q] == sig_det(signature_table()[order[q]]),
        decreases found@.len() - k,
    {
        let d = &found[k];
        let o = DetectionOut {
            format: String::from_str(d.format),
            extension: String::from_str(d.extension),
            description: String::from_str(d.description),
            confidence: d.confidence,
            source: String::from_str("builtin"),
        };
        let ghost prev = out@;
        out.push(o);
        proof {
            assert forall|q: int| 0 <= q < k + 1 implies #[trigger] dets_view(out@)[q] == sig_det(
                signature_table()[order[q]],
            ) by {
                if q < k {
                    assert(dets_view(out@)[q] == dets_view(prev)[q]);
                }
            }
        }
        k += 1;
    }
    let ghost b = dets_view(out@);
    assert(builtin_dets(head@, b));
    let mut p: usize = 0;
    let ghost mut qs: Seq<Seq<DetModel>> = Seq::empty();
    assert(dets_view(out@).skip(b.len() as int) =~= qs.flatten_alt());
    while p < plugins.len()
        invariant
            p <= plugins@.len(),
            b.len() <= out@.len(),
            dets_view(out@).take(b.len() as int) == b,
            qs.len() == p,
            forall|i: int| 0 <= i < p ==> plugin_part(head@, #[trigger] plugins@[i], qs[i]),
            dets_view(out@).skip(b.len() as int) == qs.flatten_alt(),
        decreases plugins@.len() - p,
    {
        let ghost out0 = out@;
        let pl = &plugins[p];
        if pl.enabled {
            let ms = pl.manifest.matches(head);
            let ghost fs = pl.manifest.formats@;
            let ghost ford = choose|order: Seq<int>|
                #![trigger order.len()]
                {
                    &&& order.len() == ms@.len()
                    &&& forall|k: int| 0 <= k < order.len() ==> 0 <= #[trigger] order[k] < fs.len() && format_detects(fs[order[k]], head@)
                        && *ms@[k] == fs[order[k]]
                    &&& forall|i: int| 0 <= i < fs.len() && format_detects(fs[i], head@) ==> order.contains(i)
                    &&& forall|k: int, l: int| 0 <= k < l < order.len() ==> conf_before(fs, #[trigger] order[k], #[trigger] order[l])
                };
            assert(format_order(fs, head@, ford));
            let mut j: usize = 0;
            while j < ms.len()
                invariant
                    j <= ms@.len(),
                    ford.len() == ms@.len(),
                    fs == pl.manifest.formats@,
                    forall|k: int| 0 <= k < ford.len() ==> 0 <= #[trigger] ford[k] < fs.len() && *ms@[k] == fs[ford[k]],
                    out@.len() == out0.len() + j,
                    forall|q: int| 0 <= q < out0.len() ==> out@[q] == out0[q],
                    forall|q: int| 0 <= q < j ==> #[trigger] det_view(out@[out0.len() + q]) == fmt_det(fs[ford[q]]),
                decreases ms@.len() - j,
            {
                let f = ms[j];
                out.push(
                    DetectionOut {
                        format: f.name.clone(),
                        extension: f.extension.clone(),
                        description: f.description.clone(),
                        confidence: f.confidence,
                        source: String::from_str("plugin"),
                    },
                );
                j += 1;
            }
            proof {
                let q = dets_view(out@).skip(out0.len() as int);
                assert(q.len() == ford.len());
                assert forall|k: int| 0 <= k < ford.len() implies #[trigger] q[k] == fmt_det(fs[ford[k]]) by {
                    assert(q[k] == det_view(out@[out0.len() + k]));
                }
                assert(format_dets(pl.manifest, head@, q));
                let old_acc = dets_view(out0).skip(b.len() as int);
                assert(dets_view(out@).skip(b.len() as int) =~= old_acc + q) by {
                    assert forall|x: int| 0 <= x < old_acc.len() implies dets_view(out@).skip(b.len() as int)[x]
                        == old_acc[x] by {
                        assert(out@[b.len() + x] == out0[b.len() + x]);
                    }
                }
                assert(qs.push(q).flatten_alt() == qs.flatten_alt() + q) by {
                    assert(qs.push(q).drop_last() =~= qs);
                }
                assert forall|q2: int| 0 <= q2 < b.len() implies dets_view(out@).take(b.len() as int)[q2] == b[q2] by {
                    assert(out@[q2] == out0[q2]);
                }
                assert(dets_view(out@).take(b.len() as int) =~= b);
                qs = qs.push(q);
            }
        } else {
            proof {
                let q = Seq::<DetModel>::empty();
                assert(qs.push(q).flatten_alt() == qs.flatten_alt() + q) by {
                    assert(qs.push(q).drop_last() =~= qs);
                }
                assert(qs.flatten_alt() + q =~= qs.flatten_alt());
                qs = qs.push(q);
            }
        }
        p += 1;
    }
    let ghost pp = dets_view(out@).skip(b.len() as int);
    assert(dets_view(out@) =~= b + pp);
    assert(plugin_dets(head@, plugins@, pp)) by {
        assert(pp == qs.flatten_alt());
    }
    let r = sort_detections(out);
    assert(builtin_dets(head@, b) && plugin_dets(head@, plugins@, pp) && dets_view(r@) == sort_by_confidence(b + pp));
    r
}

// ---------------------------------------------------------------------------
// Ready-made schemas for detected formats.

/// A ready-made schema for a recognized format.
#[derive(Debug, Clone)]
pub struct BuiltinSchema {
    pub text: String,
    pub entry: String,
    pub endian: String,
}

/// The bundled schema a detected format name maps to: its library key, entry
/// struct and byte order.
pub open spec fn bundled_for(format: Seq<char>) -> Option<(Seq<char>, Seq<char>, Seq<char>)> {
    if format == "PNG"@ {
        Some(("png"@, "PNG"@, "be"@))
    } else if format == "BMP"@ {
        Some(("bmp"@, "BMP"@, "le"@))
    } else if format == "WAV"@ {
        Some(("wav"@, "WAV"@, "le"@))
    } else if format == "GZIP"@ {
        Some(("gzip"@, "Gzip"@, "le"@))
    } else if format == "ELF"@ {
        Some(("elf"@, "Elf64"@, "le"@))
    } else if format == "ZIP"@ {
        Some(("zip"@, "ZipLocalFileHeader"@, "le"@))
    } else if format == "PE"@ {
        Some(("pe"@, "PE"@, "le"@))
    } else if format == "SQLite"@ {
        Some(("sqlite"@, "SqliteHeader"@, "be"@))
    } else {
        None
    }
}

fn bundled_key(format: &str) -> (r: Option<(&'static str, &'static str, &'static str)>)
    ensures
        match bundled_for(format@) {
            Some(t) => r matches Some(x) && x.0@ == t.0 && x.1@ == t.1 && x.2@ == t.2,
            None => r is None,
        },
{
    if str_eq(format, "PNG") {
        Some(("png", "PNG", "be"))
    } else if str_eq(format, "BMP") {
        Some(("bmp", "BMP", "le"))
    } else if str_eq(format, "WAV") {
        Some(("wav", "WAV", "le"))
    } else if str_eq(format, "GZIP") {
        Some(("gzip", "Gzip", "le"))
    } else if str_eq(format, "ELF") {
        Some(("elf", "Elf64", "le"))
    } else if str_eq(format, "ZIP") {
        Some(("zip", "ZipLocalFileHeader", "le"))
    } else if str_eq(format, "PE") {
        Some(("pe", "PE", "le"))
    } else if str_eq(format, "SQLite") {
        Some(("sqlite", "SqliteHeader", "be"))
    } else {
        None
    }
}

/// The text of the bundled schema keyed `key` (the first so keyed).
pub open spec fn bundled_text(builtins: Seq<(String, String)>, key: Seq<char>) -> Option<Seq<char>> {
    if exists|k: int| 0 <= k < builtins.len() && (#[trigger] builtins[k]).0@ == key {
        let k = choose|k: int| 0 <= k < builtins.len() && (#[trigger] builtins[k]).0@ == key && forall|j: int|
            0 <= j < k ==> (#[trigger] builtins[j]).0@ != key;
        Some(builtins[k].1@)
    } else {
        None
    }
}

/// Plugin `pl` is enabled and contributes a format named `format`.
pub open spec fn provides(pl: LoadedPlugin, format: Seq<char>) -> bool {
    pl.enabled && exists|j: int| 0 <= j < pl.manifest.formats@.len() && (#[trigger] pl.manifest.formats@[j]).name@ == format
}

/// What `builtin_schema` gives: the bundled schema for a detected format
/// (text, entry struct, byte order), else the format as the first enabled
/// plugin providing it defines it, else nothing.
pub open spec fn spec_builtin_schema(format: Seq<char>, builtins: Seq<(String, String)>, plugins: Seq<LoadedPlugin>) -> Option<(Seq<char>, Seq<char>, Seq<char>)> {
    match bundled_for(format) {
        Some((key, entry, endian)) if bundled_text(builtins, key) is Some => Some(
            (bundled_text(builtins, key)->0, entry, endian),
        ),
        _ => if exists|k: int| 0 <= k < plugins.len() && provides(#[trigger] plugins[k], format) {
            let k = choose|k: int| 0 <= k < plugins.len() && provides(#[trigger] plugins[k], format) && forall|i: int|
                0 <= i < k ==> !provides(#[trigger] plugins[i], format);
            let f = plugins[k].manifest.formats@[format_index(plugins[k].manifest.formats@, format)->0];
            Some((f.schema@, f.entry@, f.endian@))
        } else {
            None
        },
    }
}

/// A ready-made schema for a detected format name: first the bundled ones
/// (`builtins` pairs library keys with texts), then any enabled plugin that
/// contributes that format.
pub fn builtin_schema(format: &str, builtins: &Vec<(String, String)>, plugins: &Vec<LoadedPlugin>) -> (r: Option<BuiltinSchema>)
    ensures
        match spec_builtin_schema(format@, builtins@, plugins@) {
            Some(t) => r matches Some(x) && x.text@ == t.0 && x.entry@ == t.1 && x.endian@ == t.2,
            None => r is None,
        },
{
    proof {
        reveal_strlit("PNG");
        reveal_strlit("BMP");
        reveal_strlit("WAV");
        reveal_strlit("GZIP");
        reveal_strlit("ELF");
        reveal_strlit("ZIP");
        reveal_strlit("PE");
        reveal_strlit("SQLite");
    }
    match bundled_key(format) {
        Some((key, entry, endian)) => {
            let mut k: usize = 0;
            while k < builtins.len()
                invariant
                    k <= builtins@.len(),
                    bundled_for(format@) matches Some(t) && key@ == t.0 && entry@ == t.1 && endian@ == t.2,
                    forall|j: int| 0 <= j < k ==> (#[trigger] builtins@[j]).0@ != key@,
                decreases builtins@.len() - k,
            {
                if str_eq(builtins[k].0.as_str(), key) {
                    proof {
                        let b = builtins@;
                        let c = choose|c: int| 0 <= c < b.len() && (#[trigger] b[c]).0@ == key@ && forall|j: int|
                            0 <= j < c ==> (#[trigger] b[j]).0@ != key@;
                        assert(b[k as int].0@ == key@ && forall|j: int| 0 <= j < k ==> (#[trigger] b[j]).0@ != key@);
                        if c < k {
                            assert(b[c].0@ != key@);
                        } else if c > k {
                            assert(b[k as int].0@ != key@);
                        }
                    }
                    return Some(
                        BuiltinSchema {
                            text: builtins[k].1.clone(),
                            entry: String::from_str(entry),
                            endian: String::from_str(endian),
                        },
                    );
                }
                k += 1;
            }
        },
        None => {},
    }
    let mut k: usize = 0;
    while k < plugins.len()
        invariant
            k <= plugins@.len(),
            bundled_for(format@) is Some ==> bundled_text(builtins@, (bundled_for(format@)->0).0) is None,
            forall|i: int| 0 <= i < k ==> !provides(#[trigger] plugins@[i], format@),
        decreases plugins@.len() - k,
    {
        let pl = &plugins[k];
        if pl.enabled {
            let fs = &pl.manifest.formats;
            let mut j: usize = 0;
            while j < fs.len()
                invariant
                    j <= fs@.len(),
                    k < plugins@.len(),
                    pl == plugins@[k as int],
                    fs@ == pl.manifest.formats@,
                    pl.enabled,
                    bundled_for(format@) is Some ==> bundled_text(builtins@, (bundled_for(format@)->0).0) is None,
                    forall|i: int| 0 <= i < k ==> !provides(#[trigger] plugins@[i], format@),
                    forall|q: int| 0 <= q < j ==> (#[trigger] fs@[q]).name@ != format@,
                decreases fs@.len() - j,
            {
                if str_eq(fs[j].name.as_str(), format) {
                    proof {
                        let ps = plugins@;
                        assert(provides(ps[k as int], format@));
                        let c = choose|c: int| 0 <= c < ps.len() && provides(#[trigger] ps[c], format@) && forall|i: int|
                            0 <= i < c ==> !provides(#[trigger] ps[i], format@);
                        if c < k {
                            assert(!provides(ps[c], format@));
                        } else if c > k {
                            assert(!provides(ps[k as int], format@));
                        }
                        assert(c == k);
                        crate::catalog::lemma_first_format_unique(fs@, format@, j as int);
                    }
                    let f = &fs[j];
                    return Some(BuiltinSchema { text: f.schema.clone(), entry: f.entry.clone(), endian: f.endian.clone() });
                }
                j += 1;
            }
            proof {
                assert(!provides(plugins@[k as int], format@)) by {
                    if provides(plugins@[k as int], format@) {
                        let q = choose|q: int| 0 <= q < fs@.len() && (#[trigger] fs@[q]).name@ == format@;
                        assert(fs@[q].name@ != format@);
                    }
                }
            }
        }
        k += 1;
    }
    None
}

// ---------------------------------------------------------------------------
// Windows into the open file, edits applied.

/// The bytes of `data` from `offset`, at most `max` of them, with the
/// overrides of `edits` on top; an out-of-bounds error past the end.
pub open spec fn spec_read_edited(data: Seq<u8>, edits: EditModel, offset: usize, max: usize) -> Result<Seq<u8>, Seq<char>> {
    if offset > data.len() {
        Err(read_error_message(ReadError::OutOfBounds { offset, requested: 0, len: data.len() as usize }))
    } else {
        Ok(model_read(edits, data, offset, max))
    }
}

/// Up to `max` bytes of the file from `offset`, as currently edited.
pub fn read_edited(reader: &BinaryReader, edits: &EditBuffer, offset: usize, max: usize) -> (r: Result<Vec<u8>, String>)
    ensures
        match spec_read_edited(reader.data(), edits@, offset, max) {
            Ok(b) => r matches Ok(x) && x@ == b,
            Err(e) => r matches Err(x) && x@ == e,
        },
{
    let total = reader.len();
    let n = window_len(total, offset, max);
    match reader.read_bytes_at(offset, n) {
        Err(e) => Err(e.message()),
        Ok(b) => {
            let mut w = vstd::slice::slice_to_vec(b);
            edits.apply_window(w.as_mut_slice(), offset);
            proof {
                assert(w@ =~= model_read(edits@, reader.data(), offset, max));
            }
            Ok(w)
        },
    }
}

/// The standard base64 alphabet's symbol for a 6-bit value.
pub open spec fn b64_symbol(v: int) -> char {
    if v < 26 {
        (v + 0x41) as char
    } else if v < 52 {
        (v - 26 + 0x61) as char
    } else if v < 62 {
        (v - 52 + 0x30) as char
    } else if v == 62 {
        '+'
    } else {
        '/'
    }
}

/// Base64 with the standard alphabet and `=` padding: every three bytes, read
/// as a 24-bit big-endian number, become four symbols of six bits each; a last
/// one or two bytes become two or three symbols followed by `=` padding.
pub open spec fn base64_encoding(b: Seq<u8>) -> Seq<char>
    decreases b.len(),
{
    if b.len() == 0 {
        Seq::empty()
    } else {
        let n: int = b[0] * 65536 + (if b.len() > 1 { b[1] * 256 } else { 0 }) + (if b.len() > 2 { b[2] as int } else { 0 });
        let quad = seq![
            b64_symbol(n / 262144),
            b64_symbol((n / 4096) % 64),
            if b.len() > 1 { b64_symbol((n / 64) % 64) } else { '=' },
            if b.len() > 2 { b64_symbol(n % 64) } else { '=' },
        ];
        if b.len() <= 3 {
            quad
        } else {
            quad + base64_encoding(b.subrange(3, b.len() as int))
        }
    }
}

/// Base64-encode bytes with the standard alphabet and padding
/// (`base64::engine::general_purpose::STANDARD.encode`), as
/// [`base64_encoding`] states it.
#[verifier::external_body]
fn base64_encode(bytes: &[u8]) -> (s: String)
    requires
        bytes@.len() <= u32::MAX,
    ensures
        s@ == base64_encoding(bytes@),
        s@.len() == 4 * ((bytes@.len() + 2) / 3),
{
    base64::engine::general_purpose::STANDARD.encode(bytes)
}

/// Why base64 text did not decode (the decoder's own error cases).
#[derive(Debug, Clone, Copy, PartialEq, Eq, Structural)]
pub enum Base64Error {
    /// A byte outside the alphabet, at an offset.
    InvalidByte(usize, u8),
    /// A length that no padded encoding has.
    InvalidLength(usize),
    /// A last symbol with bits that would be discarded.
    InvalidLastSymbol(usize, u8),
    /// Padding absent or misplaced.
    InvalidPadding,
}

/// What the standard base64 decoder makes of `text`.
pub uninterp spec fn base64_decoding(text: Seq<u8>) -> Result<Seq<u8>, Base64Error>;

/// Decode standard, padded base64 (`STANDARD.decode`), telling its errors
/// apart.
#[verifier::external_body]
fn base64_decode(text: &str) -> (r: Result<Vec<u8>, Base64Error>)
    ensures
        match base64_decoding(text.spec_bytes()) {
            Ok(b) => r matches Ok(v) && v@ == b,
            Err(e) => r == Err::<Vec<u8>, Base64Error>(e),
        },
{
    match base64::engine::general_purpose::STANDARD.decode(text.as_bytes()) {
        Ok(v) => Ok(v),
        Err(base64::DecodeError::InvalidByte(i, b)) => Err(Base64Error::InvalidByte(i, b)),
        Err(base64::DecodeError::InvalidLength(n)) => Err(Base64Error::InvalidLength(n)),
        Err(base64::DecodeError::InvalidLastSymbol(i, b)) => Err(Base64Error::InvalidLastSymbol(i, b)),
        Err(base64::DecodeError::InvalidPadding) => Err(Base64Error::InvalidPadding),
    }
}

/// The text of a base64 error, as the decoder words it.
pub open spec fn base64_error_message(e: Base64Error) -> Seq<char> {
    match e {
        Base64Error::InvalidByte(i, b) => "Invalid symbol "@ + decimal(b as nat) + ", offset "@ + decimal(i as nat) + "."@,
        Base64Error::InvalidLength(n) => "Invalid input length: "@ + decimal(n as nat),
        Base64Error::InvalidLastSymbol(i, b) => "Invalid last symbol "@ + decimal(b as nat) + ", offset "@ + decimal(
            i as nat,
        ) + "."@,
        Base64Error::InvalidPadding => "Invalid padding"@,
    }
}

impl Base64Error {
    /// The error's text, e.g. `Invalid symbol 33, offset 2.`.
    pub fn message(&self) -> (s: String)
        ensures
            s@ == base64_error_message(*self),
    {
        let mut s = String::new();
        match *self {
            Base64Error::InvalidByte(i, b) => {
                s.append("Invalid symbol ");
                push_decimal(&mut s, b as u64);
                s.append(", offset ");
                push_decimal(&mut s, i as u64);
                s.append(".");
            },
            Base64Error::InvalidLength(n) => {
                s.append("Invalid input length: ");
                push_decimal(&mut s, n as u64);
            },
            Base64Error::InvalidLastSymbol(i, b) => {
                s.append("Invalid last symbol ");
                push_decimal(&mut s, b as u64);
                s.append(", offset ");
                push_decimal(&mut s, i as u64);
                s.append(".");
            },
            Base64Error::InvalidPadding => {
                s.append("Invalid padding");
            },
        }
        assert(s@ =~= base64_error_message(*self));
        s
    }
}

/// A window of bytes, base64-encoded to keep the payload compact.
#[derive(Debug, Clone)]
pub struct ByteWindow {
    pub offset: u64,
    pub len: u32,
    /// Base64 of the bytes in this window.
    pub base64: String,
}

/// A window of the file for the hex view: up to `length` bytes from
/// `offset` (clamped to what remains), edits applied, base64-encoded.
pub fn read_window(reader: &BinaryReader, edits: &EditBuffer, offset: u64, length: u32) -> (r: Result<ByteWindow, String>)
    ensures
        offset > usize::MAX ==> (r matches Err(e) && e@ == "offset too large"@),
        offset <= usize::MAX ==> match spec_read_edited(reader.data(), edits@, offset as usize, length as usize) {
            Ok(b) => r matches Ok(w) && w.offset == offset && w.len == b.len() && w.base64@ == base64_encoding(b),
            Err(e) => r matches Err(x) && x@ == e,
        },
{
    let o = match offset_index(offset) {
        Ok(o) => o,
        Err(e) => {
            return Err(e);
        },
    };
    let w = match read_edited(reader, edits, o, length as usize) {
        Ok(w) => w,
        Err(e) => {
            return Err(e);
        },
    };
    let n = w.len() as u32;
    Ok(ByteWindow { offset, len: n, base64: base64_encode(w.as_slice()) })
}

/// What an edit request decodes to: the offset as an index and the bytes to
/// write, or why not (the base64 is checked first).
pub fn edit_request(offset: u64, data_base64: &str) -> (r: Result<(usize, Vec<u8>), String>)
    ensures
        match base64_decoding(data_base64.spec_bytes()) {
            Err(e) => r matches Err(x) && x@ == base64_error_message(e),
            Ok(b) => if offset > usize::MAX {
                r matches Err(x) && x@ == "offset too large"@
            } else {
                r matches Ok((o, v)) && o == offset && v@ == b
            },
        },
{
    let bytes = match base64_decode(data_base64) {
        Ok(b) => b,
        Err(e) => {
            return Err(e.message());
        },
    };
    match offset_index(offset) {
        Ok(o) => Ok((o, bytes)),
        Err(e) => Err(e),
    }
}

/// The integer readings of the bytes at an offset (each `None` when the
/// bytes run out).
#[derive(Debug, Clone, Copy, PartialEq, Eq, Structural)]
pub struct Numbers {
    pub u8: Option<u8>,
    pub i8: Option<i8>,
    pub u16_le: Option<u16>,
    pub u16_be: Option<u16>,
    pub u32_le: Option<u32>,
    pub u32_be: Option<u32>,
    pub u64_le: Option<u64>,
    pub u64_be: Option<u64>,
    pub i32_le: Option<i32>,
    pub i32_be: Option<i32>,
}

/// The unsigned value of the first `n` bytes of `w`, if there are that many.
pub open spec fn lead(w: Seq<u8>, n: usize, endian: Endian) -> Option<nat> {
    match uint_at(w, 0, n, endian) {
        Ok(x) => Some(x),
        Err(_) => None,
    }
}

/// The first two bytes of `w` as a `u16`, if there are two.
pub open spec fn lead_u16(w: Seq<u8>, endian: Endian) -> Option<u16> {
    match lead(w, 2, endian) {
        Some(x) => Some(x as u16),
        None => None,
    }
}

/// The first four bytes of `w` as a `u32`, if there are four.
pub open spec fn lead_u32(w: Seq<u8>, endian: Endian) -> Option<u32> {
    match lead(w, 4, endian) {
        Some(x) => Some(x as u32),
        None => None,
    }
}

/// The first eight bytes of `w` as a `u64`, if there are eight.
pub open spec fn lead_u64(w: Seq<u8>, endian: Endian) -> Option<u64> {
    match lead(w, 8, endian) {
        Some(x) => Some(x as u64),
        None => None,
    }
}

/// The first four bytes of `w` as an `i32` (two's complement), if there are four.
pub open spec fn lead_i32(w: Seq<u8>, endian: Endian) -> Option<i32> {
    match lead(w, 4, endian) {
        Some(x) => Some(x as i32),
        None => None,
    }
}

/// Every integer reading of the start of `window`.
pub fn numbers(window: Vec<u8>) -> (n: Numbers)
    ensures
        n.u8 == (if window@.len() >= 1 { Some(window@[0]) } else { None::<u8> }),
        n.i8 == (if window@.len() >= 1 { Some(window@[0] as i8) } else { None::<i8> }),
        n.u16_le == lead_u16(window@, Endian::Little),
        n.u16_be == lead_u16(window@, Endian::Big),
        n.u32_le == lead_u32(window@, Endian::Little),
        n.u32_be == lead_u32(window@, Endian::Big),
        n.u64_le == lead_u64(window@, Endian::Little),
        n.u64_be == lead_u64(window@, Endian::Big),
        n.i32_le == lead_i32(window@, Endian::Little),
        n.i32_be == lead_i32(window@, Endian::Big),
{
    let r = BinaryReader::from_bytes(window);
    Numbers {
        u8: r.read_u8_at(0).ok(),
        i8: r.read_i8_at(0).ok(),
        u16_le: r.read_u16_le_at(0).ok(),
        u16_be: r.read_u16_be_at(0).ok(),
        u32_le: r.read_u32_le_at(0).ok(),
        u32_be: r.read_u32_be_at(0).ok(),
        u64_le: r.read_u64_le_at(0).ok(),
        u64_be: r.read_u64_be_at(0).ok(),
        i32_le: r.read_i32_le_at(0).ok(),
        i32_be: r.read_i32_be_at(0).ok(),
    }
}

/// The readable strings reported for the scanned start of a file: at least
/// one character long, at most [`STRING_SCAN_LIMIT`] of them.
pub fn scan_strings(window: &[u8], min_len: usize) -> (r: Vec<StringHit>)
    ensures
        hits_view(r@) == (if spec_find_strings(window@, min_len as nat).len() <= STRING_SCAN_LIMIT {
            spec_find_strings(window@, min_len as nat)
        } else {
            spec_find_strings(window@, min_len as nat).take(STRING_SCAN_LIMIT as int)
        }),
{
    let m: usize = if min_len < 1 { 1 } else { min_len };
    let mut hits = find_strings(window, m);
    if hits.len() > STRING_SCAN_LIMIT {
        hits.truncate(STRING_SCAN_LIMIT);
        assert(hits_view(hits@) =~= spec_find_strings(window@, min_len as nat).take(STRING_SCAN_LIMIT as int));
    }
    hits
}

// ---------------------------------------------------------------------------
// Which files and registry paths a command may touch.

/// The library file a removal request names: `user:<file>` with a bare file
/// name; bundled and plugin schemas cannot be removed.
pub fn removable_user_file(id: &str) -> (r: Result<String, String>)
    ensures
        !crate::catalog::has_prefix(id@, "user:"@) ==> (r matches Err(e) && e@ == "only user schemas can be removed"@),
        crate::catalog::has_prefix(id@, "user:"@) && !bare_file_name(id@.skip(5)) ==> (r matches Err(e) && e@
            == "invalid schema id"@),
        crate::catalog::has_prefix(id@, "user:"@) && bare_file_name(id@.skip(5)) ==> (r matches Ok(f) && f@ == id@.skip(
            5,
        )),
{
    proof {
        reveal_strlit("user:");
    }
    match strip_prefix(id, "user:") {
        None => Err(String::from_str("only user schemas can be removed")),
        Some(file) => if is_bare_file_name(file.as_str()) {
            Ok(file)
        } else {
            Err(String::from_str("invalid schema id"))
        },
    }
}

/// `s` ends with `p`.
pub open spec fn has_suffix(s: Seq<char>, p: Seq<char>) -> bool {
    p.len() <= s.len() && s.skip(s.len() - p.len()) == p
}

/// `s` holds `p` somewhere.
pub open spec fn has_infix(s: Seq<char>, p: Seq<char>) -> bool {
    exists|i: int| 0 <= i && i + p.len() <= s.len() && #[trigger] s.subrange(i, i + p.len()) == p
}

fn contains_pair(v: &Vec<char>, c: char) -> (b: bool)
    ensures
        b == has_infix(v@, seq![c, c]),
{
    let mut i: usize = 0;
    while i < v.len() && i + 1 < v.len()
        invariant
            i <= v@.len(),
            forall|j: int| 0 <= j < i && j + 2 <= v@.len() ==> #[trigger] v@.subrange(j, j + 2) != seq![c, c],
        decreases v@.len() - i,
    {
        if v[i] == c && v[i + 1] == c {
            assert(v@.subrange(i as int, i + 2) =~= seq![c, c]);
            return true;
        }
        assert(v@.subrange(i as int, i + 2)[0] == v@[i as int]);
        assert(v@.subrange(i as int, i + 2)[1] == v@[i + 1]);
        i += 1;
    }
    proof {
        assert forall|j: int| 0 <= j && j + 2 <= v@.len() implies #[trigger] v@.subrange(j, j + 2) != seq![c, c] by {
            assert(j < i);
        }
    }
    false
}

/// A registry pack path the app will fetch: `formats/.../plugin.toml`, with no
/// `..` and no `//`.
pub open spec fn registry_path_ok(path: Seq<char>) -> bool {
    &&& crate::catalog::has_prefix(path, "formats/"@)
    &&& has_suffix(path, "/plugin.toml"@)
    &&& !has_infix(path, seq!['.', '.'])
    &&& !has_infix(path, seq!['/', '/'])
}

/// Whether the app may fetch `path` from the registry.
pub fn is_registry_path(path: &str) -> (b: bool)
    ensures
        b == registry_path_ok(path@),
{
    let v = chars_of(path);
    let pre = chars_of("formats/");
    let suf = chars_of("/plugin.toml");
    if v.len() < pre.len() || v.len() < suf.len() {
        return false;
    }
    let head = vstd::slice::slice_subrange(v.as_slice(), 0, pre.len());
    let tail = vstd::slice::slice_subrange(v.as_slice(), v.len() - suf.len(), v.len());
    assert(head@ =~= path@.take(pre@.len() as int));
    assert(tail@ =~= path@.skip(path@.len() - suf@.len()));
    chars_equal(head, pre.as_slice()) && chars_equal(tail, suf.as_slice()) && !contains_pair(&v, '.') && !contains_pair(
        &v,
        '/',
    )
}

} // verus!
