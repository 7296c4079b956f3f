//! Installed format plugins as the app manages them: the listing shown to the
//! user, the checks a plugin passes before it is installed, and the
//! `plugin.toml` pack the app exports for a schema.
use vstd::prelude::*;

use crate::catalog::{plugin_filename, sort_by_key, sort_by_keys, spec_plugin_filename};
use crate::parse_error::parse_error_message;
use crate::parser::{lemma_parse_trailing_newline, parse, spec_parse_source};
use crate::plugin::{
    detect_problem, format_problem, formats_problem, plugin_hex_pairs, spec_plugin_parse_hex, spec_validate, PluginManifest,
};
use crate::search::hex_digit_value;
use crate::text::{
    chars_of, decimal, is_ws_char, lowercase, push_char, push_decimal, remove_ws, to_lowercase, trim, trim_end,
    trim_start, trim_str, without_ws,
};

verus! {

/// A plugin file that failed to parse, with the parser's complaint.
#[derive(Debug, Clone)]
pub struct BadPlugin {
    pub file: String,
    pub error: String,
}

/// A successfully loaded plugin: its manifest, source file name, and whether
/// the user has it enabled.
#[derive(Debug, Clone)]
pub struct LoadedPlugin {
    pub manifest: PluginManifest,
    pub file: String,
    pub enabled: bool,
}

/// One format a plugin contributes, as listed for the UI.
#[derive(Debug, Clone)]
pub struct PluginFormatInfo {
    pub name: String,
    pub extension: String,
    pub description: String,
    pub confidence: u8,
    /// Whether this format has a detection rule (auto-detects on open).
    pub detects: bool,
}

/// A plugin as listed for the UI; `error` is set for files that failed to parse.
#[derive(Debug, Clone)]
pub struct PluginInfo {
    pub id: String,
    pub name: String,
    pub version: String,
    pub description: String,
    pub author: String,
    pub enabled: bool,
    pub file: String,
    pub formats: Vec<PluginFormatInfo>,
    pub error: Option<String>,
}

/// `i` lists format `f`.
pub open spec fn lists_format(i: PluginFormatInfo, f: crate::plugin::FormatDef) -> bool {
    &&& i.name@ == f.name@
    &&& i.extension@ == f.extension@
    &&& i.description@ == f.description@
    &&& i.confidence == f.confidence
    &&& i.detects == (f.detect@.len() > 0)
}

/// `i` is the listing of the loaded plugin `p`.
pub open spec fn lists_plugin(i: PluginInfo, p: LoadedPlugin) -> bool {
    &&& i.id@ == p.manifest.id@
    &&& i.name@ == p.manifest.name@
    &&& i.version@ == p.manifest.version@
    &&& i.description@ == p.manifest.description@
    &&& i.author@ == p.manifest.author@
    &&& i.enabled == p.enabled
    &&& i.file@ == p.file@
    &&& i.error is None
    &&& i.formats@.len() == p.manifest.formats@.len()
    &&& forall|k: int| 0 <= k < i.formats@.len() ==> lists_format(#[trigger] i.formats@[k], p.manifest.formats@[k])
}

/// `i` is the listing of the broken plugin file `b`: named after the file,
/// disabled, with no formats, carrying the error.
pub open spec fn lists_broken(i: PluginInfo, b: BadPlugin) -> bool {
    &&& i.id@.len() == 0
    &&& i.name@ == b.file@
    &&& i.version@.len() == 0
    &&& i.description@.len() == 0
    &&& i.author@.len() == 0
    &&& !i.enabled
    &&& i.file@ == b.file@
    &&& i.formats@.len() == 0
    &&& i.error matches Some(e) && e@ == b.error@
}

/// The UI listing of a loaded plugin.
pub fn plugin_info(p: &LoadedPlugin) -> (i: PluginInfo)
    ensures
        lists_plugin(i, *p),
{
    let fs = &p.manifest.formats;
    let mut formats: Vec<PluginFormatInfo> = Vec::new();
    let mut k: usize = 0;
    while k < fs.len()
        invariant
            k <= fs@.len(),
            formats@.len() == k,
            forall|j: int| 0 <= j < k ==> lists_format(#[trigger] formats@[j], fs@[j]),
        decreases fs@.len() - k,
    {
        let f = &fs[k];
        formats.push(
            PluginFormatInfo {
                name: f.name.clone(),
                extension: f.extension.clone(),
                description: f.description.clone(),
                confidence: f.confidence,
                detects: f.detect.len() > 0,
            },
        );
        k += 1;
    }
    PluginInfo {
        id: p.manifest.id.clone(),
        name: p.manifest.name.clone(),
        version: p.manifest.version.clone(),
        description: p.manifest.description.clone(),
        author: p.manifest.author.clone(),
        enabled: p.enabled,
        file: p.file.clone(),
        formats,
        error: None,
    }
}

/// The UI listing of a plugin file that failed to parse.
pub fn broken_plugin_info(b: BadPlugin) -> (i: PluginInfo)
    ensures
        lists_broken(i, b),
{
    PluginInfo {
        id: String::new(),
        name: b.file.clone(),
        version: String::new(),
        description: String::new(),
        author: String::new(),
        enabled: false,
        file: b.file,
        formats: Vec::new(),
        error: Some(b.error),
    }
}

/// All installed plugins for the UI: the valid ones first, in order, then
/// those that failed to parse.
pub fn plugin_list(plugins: &Vec<LoadedPlugin>, bad: Vec<BadPlugin>) -> (r: Vec<PluginInfo>)
    ensures
        r@.len() == plugins@.len() + bad@.len(),
        forall|k: int| 0 <= k < plugins@.len() ==> lists_plugin(#[trigger] r@[k], plugins@[k]),
        forall|k: int| 0 <= k < bad@.len() ==> lists_broken(#[trigger] r@[plugins@.len() + k], bad@[k]),
{
    let mut out: Vec<PluginInfo> = Vec::new();
    let mut k: usize = 0;
    while k < plugins.len()
        invariant
            k <= plugins@.len(),
            out@.len() == k,
            forall|j: int| 0 <= j < k ==> lists_plugin(#[trigger] out@[j], plugins@[j]),
        decreases plugins@.len() - k,
    {
        out.push(plugin_info(&plugins[k]));
        k += 1;
    }
    let ghost all_bad = bad@;
    let n: usize = bad.len();
    let mut bad = bad;
    let mut q: usize = 0;
    while bad.len() > 0
        invariant
            q + bad@.len() == all_bad.len(),
            all_bad.len() == n,
            bad@ == all_bad.subrange(q as int, all_bad.len() as int),
            out@.len() == plugins@.len() + q,
            forall|j: int| 0 <= j < plugins@.len() ==> lists_plugin(#[trigger] out@[j], plugins@[j]),
            forall|j: int| 0 <= j < q ==> lists_broken(#[trigger] out@[plugins@.len() + j], all_bad[j]),
        decreases bad@.len(),
    {
        let ghost before = bad@;
        let b = bad.remove(0);
        assert(b == all_bad[q as int]);
        assert(bad@ =~= all_bad.subrange(q + 1, all_bad.len() as int));
        out.push(broken_plugin_info(b));
        q += 1;
    }
    out
}

/// The key plugins are listed by: the lower-cased plugin name.
pub open spec fn plugin_name_key(p: LoadedPlugin) -> Seq<char> {
    lowercase(p.manifest.name@)
}

/// Loaded plugins ordered by lower-cased name (stable).
pub fn sort_plugins(plugins: Vec<LoadedPlugin>) -> (r: Vec<LoadedPlugin>)
    ensures
        r@ == sort_by_key(plugins@, |p: LoadedPlugin| plugin_name_key(p)),
{
    let mut keys: Vec<String> = Vec::new();
    let mut k: usize = 0;
    while k < plugins.len()
        invariant
            k <= plugins@.len(),
            keys@.len() == k,
            forall|j: int| 0 <= j < k ==> (#[trigger] keys@[j])@ == plugin_name_key(plugins@[j]),
        decreases plugins@.len() - k,
    {
        keys.push(to_lowercase(plugins[k].manifest.name.as_str()));
        k += 1;
    }
    sort_by_keys(plugins, keys, Ghost(|p: LoadedPlugin| plugin_name_key(p)))
}

/// The first format of `fs` (from index `k` on) whose schema does not parse,
/// with the parser's complaint.
pub open spec fn first_bad_schema(fs: Seq<crate::plugin::FormatDef>, k: nat) -> Option<Seq<char>>
    decreases fs.len() - k,
{
    if k >= fs.len() {
        None
    } else {
        match spec_parse_source(vstd::utf8::encode_utf8(fs[k as int].schema@)) {
            Err(e) => Some("format `"@ + fs[k as int].name@ + "` has an invalid schema: "@ + parse_error_message(e)),
            Ok(_) => first_bad_schema(fs, k + 1),
        }
    }
}

/// What `check_plugin` reports: the manifest's own problem, else the first
/// format whose schema does not parse, else the file name to install under.
pub open spec fn spec_check_plugin(m: PluginManifest) -> Result<Seq<char>, Seq<char>> {
    match spec_validate(m) {
        Err(e) => Err(e),
        Ok(()) => match first_bad_schema(m.formats@, 0) {
            Some(e) => Err(e),
            None => Ok(spec_plugin_filename(m.id@)),
        },
    }
}

/// The checks a plugin passes before it is installed: the manifest validates
/// and every embedded schema parses. Gives the file name to install under.
pub fn check_plugin(manifest: &PluginManifest) -> (r: Result<String, String>)
    requires
        forall|k: int| 0 <= k < manifest.formats@.len() ==> vstd::utf8::encode_utf8((#[trigger] manifest.formats@[k]).schema@).len() < u32::MAX,
    ensures
        match spec_check_plugin(*manifest) {
            Ok(f) => r matches Ok(x) && x@ == f,
            Err(e) => r matches Err(x) && x@ == e,
        },
{
    match manifest.validate() {
        Err(e) => return Err(e),
        Ok(()) => {},
    }
    let fs = &manifest.formats;
    let mut k: usize = 0;
    while k < fs.len()
        invariant
            k <= fs@.len(),
            fs@ == manifest.formats@,
            spec_validate(*manifest) is Ok,
            forall|j: int| 0 <= j < fs@.len() ==> vstd::utf8::encode_utf8((#[trigger] fs@[j]).schema@).len() < u32::MAX,
            first_bad_schema(fs@, 0) == first_bad_schema(fs@, k as nat),
        decreases fs@.len() - k,
    {
        match parse(fs[k].schema.as_str()) {
            Err(e) => {
                let mut m = String::from_str("format `");
                m.append(fs[k].name.as_str());
                m.append("` has an invalid schema: ");
                let t = e.message();
                m.append(t.as_str());
                proof {
                    assert(first_bad_schema(fs@, k as nat) == Some(m@));
                }
                return Err(m);
            },
            Ok(_) => {},
        }
        k += 1;
    }
    Ok(plugin_filename(manifest.id.as_str()))
}

// ---------------------------------------------------------------------------
// Exporting a schema as a plugin pack.

/// The TOML escape of one character inside a basic string.
pub open spec fn toml_escape(c: char) -> Seq<char> {
    if c == '\\' {
        seq!['\\', '\\']
    } else if c == '"' {
        seq!['\\', '"']
    } else if c == '\n' {
        seq!['\\', 'n']
    } else if c == '\r' {
        seq!['\\', 'r']
    } else if c == '\t' {
        seq!['\\', 't']
    } else {
        seq![c]
    }
}

/// The escapes of every character of `s`, in order.
pub open spec fn toml_escaped(s: Seq<char>) -> Seq<char>
    decreases s.len(),
{
    if s.len() == 0 {
        Seq::empty()
    } else {
        toml_escaped(s.drop_last()) + toml_escape(s.last())
    }
}

/// `s` as a TOML basic string: quoted, with backslash, quote, newline,
/// carriage return and tab escaped.
pub open spec fn spec_toml_basic(s: Seq<char>) -> Seq<char> {
    seq!['"'] + toml_escaped(s) + seq!['"']
}

/// Serialize a string as a TOML basic string (quoted, with escapes).
pub fn toml_basic(s: &str) -> (r: String)
    ensures
        r@ == spec_toml_basic(s@),
{
    let v = chars_of(s);
    let mut out = String::new();
    push_char(&mut out, '"');
    let mut i: usize = 0;
    assert(v@.take(0) =~= Seq::<char>::empty());
    while i < v.len()
        invariant
            i <= v@.len(),
            v@ == s@,
            out@ == seq!['"'] + toml_escaped(v@.take(i as int)),
        decreases v@.len() - i,
    {
        let c = v[i];
        if c == '\\' {
            push_char(&mut out, '\\');
            push_char(&mut out, '\\');
        } else if c == '"' {
            push_char(&mut out, '\\');
            push_char(&mut out, '"');
        } else if c == '\n' {
            push_char(&mut out, '\\');
            push_char(&mut out, 'n');
        } else if c == '\r' {
            push_char(&mut out, '\\');
            push_char(&mut out, 'r');
        } else if c == '\t' {
            push_char(&mut out, '\\');
            push_char(&mut out, 't');
        } else {
            push_char(&mut out, c);
        }
        assert(v@.take(i + 1).drop_last() =~= v@.take(i as int));
        assert(out@ =~= seq!['"'] + toml_escaped(v@.take(i + 1)));
        i += 1;
    }
    push_char(&mut out, '"');
    assert(v@.take(v@.len() as int) =~= v@);
    out
}

/// `key = "value"` and a newline.
pub open spec fn toml_line(key: Seq<char>, v: Seq<char>) -> Seq<char> {
    key + " = "@ + spec_toml_basic(v) + seq!['\n']
}

/// The line for `key` when `v` is not empty; nothing otherwise.
pub open spec fn toml_opt_line(key: Seq<char>, v: Seq<char>) -> Seq<char> {
    if v.len() == 0 { Seq::empty() } else { toml_line(key, v) }
}

/// `s` holds three single quotes in a row (which would end a TOML literal
/// multiline string).
pub open spec fn has_triple_quote(s: Seq<char>) -> bool {
    exists|i: int| 0 <= i && i + 3 <= s.len() && #[trigger] triple_at(s, i)
}

/// Three single quotes start at `i`.
pub open spec fn triple_at(s: Seq<char>, i: int) -> bool {
    s[i] == '\'' && s[i + 1] == '\'' && s[i + 2] == '\''
}

/// A lowercase slug: lowercase ASCII letters, digits and hyphens, not
/// starting with a hyphen.
pub open spec fn is_slug(id: Seq<char>) -> bool {
    &&& id.len() > 0
    &&& id[0] != '-'
    &&& forall|i: int| 0 <= i < id.len() ==> ('a' <= #[trigger] id[i] <= 'z') || ('0' <= id[i] <= '9') || id[i] == '-'
}

/// An ASCII hexadecimal digit.
pub open spec fn ascii_hex_digit(c: char) -> bool {
    ('0' <= c <= '9') || ('a' <= c <= 'f') || ('A' <= c <= 'F')
}

/// Hex text for a detection rule: once whitespace is removed, a non-empty,
/// even number of hex digits.
pub open spec fn hex_rule_ok(hex: Seq<char>) -> bool {
    let c = remove_ws(hex);
    &&& c.len() > 0
    &&& c.len() % 2 == 0
    &&& forall|i: int| 0 <= i < c.len() ==> ascii_hex_digit(#[trigger] c[i])
}

/// The plugin part of a pack: id, name, version (`1.0.0` when blank), and
/// the description and author when given.
pub open spec fn pack_head(
    id: Seq<char>,
    name: Seq<char>,
    version: Seq<char>,
    author: Seq<char>,
    description: Seq<char>,
) -> Seq<char> {
    let version = if trim(version).len() == 0 { "1.0.0"@ } else { trim(version) };
    toml_line("id"@, trim(id)) + toml_line("name"@, name) + toml_line("version"@, version) + toml_opt_line(
        "description"@,
        trim(description),
    ) + toml_opt_line("author"@, trim(author))
}

/// The detect rule line of a pack when hex is given; nothing otherwise.
pub open spec fn detect_line(detect_offset: u64, hex: Seq<char>) -> Seq<char> {
    if hex.len() > 0 {
        "detect = [{ offset = "@ + decimal(detect_offset as nat) + ", hex = "@ + spec_toml_basic(hex) + " }]\n"@
    } else {
        Seq::empty()
    }
}

/// The descriptive fields of a pack's format: name, extension and
/// description when given, confidence, and entry when given.
pub open spec fn pack_fields(
    description: Seq<char>,
    format_name: Seq<char>,
    extension: Seq<char>,
    entry: Seq<char>,
    confidence: u8,
) -> Seq<char> {
    toml_line("name"@, trim(format_name)) + toml_opt_line("extension"@, trim(extension)) + toml_opt_line(
        "description"@,
        trim(description),
    ) + "confidence = "@ + decimal(confidence as nat) + seq!['\n'] + toml_opt_line("entry"@, trim(entry))
}

/// The rest of a pack's format: byte order (`be` only for exactly `be`),
/// detect rule, and the schema in a literal multiline string.
pub open spec fn pack_tail(endian: Seq<char>, detect_offset: u64, detect_hex: Seq<char>, schema_text: Seq<char>) -> Seq<char> {
    let endian = if endian == "be"@ { "be"@ } else { "le"@ };
    let newline = if schema_text.len() == 0 || schema_text.last() != '\n' { seq!['\n'] } else { Seq::empty() };
    "endian = \""@ + endian + "\"\n"@ + detect_line(detect_offset, trim(detect_hex)) + "schema = '''\n"@
        + schema_text + newline + "'''\n"@
}

/// The format part of a pack.
pub open spec fn pack_format(
    description: Seq<char>,
    format_name: Seq<char>,
    extension: Seq<char>,
    entry: Seq<char>,
    endian: Seq<char>,
    confidence: u8,
    detect_offset: u64,
    detect_hex: Seq<char>,
    schema_text: Seq<char>,
) -> Seq<char> {
    "\n[[formats]]\n"@ + pack_fields(description, format_name, extension, entry, confidence) + pack_tail(
        endian,
        detect_offset,
        detect_hex,
        schema_text,
    )
}

/// The `plugin.toml` text of a pack with one format (fields already checked).
pub open spec fn pack_text(
    id: Seq<char>,
    name: Seq<char>,
    version: Seq<char>,
    author: Seq<char>,
    description: Seq<char>,
    format_name: Seq<char>,
    extension: Seq<char>,
    entry: Seq<char>,
    endian: Seq<char>,
    confidence: u8,
    detect_offset: u64,
    detect_hex: Seq<char>,
    schema_text: Seq<char>,
) -> Seq<char> {
    pack_head(id, name, version, author, description) + pack_format(
        description,
        format_name,
        extension,
        entry,
        endian,
        confidence,
        detect_offset,
        detect_hex,
        schema_text,
    )
}

/// What `plugin_pack` gives: the pack text, or the first problem found (the
/// schema must parse; the id must be a lowercase slug; a format name is
/// required; confidence is at most 100; the schema cannot hold three single
/// quotes in a row; detect hex, when given, must be pairs of hex digits).
pub open spec fn spec_plugin_pack(
    id: Seq<char>,
    name: Seq<char>,
    version: Seq<char>,
    author: Seq<char>,
    description: Seq<char>,
    format_name: Seq<char>,
    extension: Seq<char>,
    entry: Seq<char>,
    endian: Seq<char>,
    confidence: u8,
    detect_offset: u64,
    detect_hex: Seq<char>,
    schema_text: Seq<char>,
) -> Result<Seq<char>, Seq<char>> {
    match spec_parse_source(vstd::utf8::encode_utf8(schema_text)) {
        Err(e) => Err("schema does not parse: "@ + parse_error_message(e)),
        Ok(_) => if trim(id).len() == 0 {
            Err("a format id is required"@)
        } else if !is_slug(trim(id)) {
            Err("id must be a lowercase slug (letters, digits, hyphens)"@)
        } else if trim(format_name).len() == 0 {
            Err("a format name is required"@)
        } else if confidence > 100 {
            Err("confidence must be 0..=100"@)
        } else if has_triple_quote(schema_text) {
            Err("schema text cannot contain ''' "@)
        } else if trim(detect_hex).len() > 0 && !hex_rule_ok(trim(detect_hex)) {
            Err("detect hex must be pairs of hex digits (e.g. FF D8 FF)"@)
        } else {
            Ok(
                pack_text(
                    id,
                    name,
                    version,
                    author,
                    description,
                    format_name,
                    extension,
                    entry,
                    endian,
                    confidence,
                    detect_offset,
                    detect_hex,
                    schema_text,
                ),
            )
        },
    }
}

fn push_toml_line(out: &mut String, key: &str, v: &str)
    ensures
        final(out)@ == old(out)@ + toml_line(key@, v@),
{
    out.append(key);
    out.append(" = ");
    let t = toml_basic(v);
    out.append(t.as_str());
    push_char(out, '\n');
    assert(out@ =~= old(out)@ + toml_line(key@, v@));
}

fn push_toml_opt_line(out: &mut String, key: &str, v: &str)
    ensures
        final(out)@ == old(out)@ + toml_opt_line(key@, v@),
{
    if v.is_empty() {
        assert(out@ =~= old(out)@ + toml_opt_line(key@, v@));
    } else {
        push_toml_line(out, key, v);
    }
}

fn check_slug(v: &Vec<char>) -> (b: bool)
    ensures
        b == is_slug(v@),
{
    if v.len() == 0 || v[0] == '-' {
        return false;
    }
    let mut i: usize = 0;
    while i < v.len()
        invariant
            i <= v@.len(),
            forall|j: int| 0 <= j < i ==> ('a' <= #[trigger] v@[j] <= 'z') || ('0' <= v@[j] <= '9') || v@[j] == '-',
        decreases v@.len() - i,
    {
        let c = v[i];
        if !(('a' <= c && c <= 'z') || ('0' <= c && c <= '9') || c == '-') {
            return false;
        }
        i += 1;
    }
    true
}

fn triple_quote(v: &Vec<char>) -> (b: bool)
    ensures
        b == has_triple_quote(v@),
{
    let mut i: usize = 0;
    while i < v.len() && v.len() - i >= 3
        invariant
            i <= v@.len(),
            forall|j: int| 0 <= j < i && j + 3 <= v@.len() ==> !#[trigger] triple_at(v@, j),
        decreases v@.len() - i,
    {
        if v[i] == '\'' && v[i + 1] == '\'' && v[i + 2] == '\'' {
            assert(triple_at(v@, i as int));
            return true;
        }
        i += 1;
    }
    false
}

fn hex_ok(hex: &str) -> (b: bool)
    ensures
        b == hex_rule_ok(hex@),
{
    let v = chars_of(hex);
    let c = without_ws(v.as_slice());
    if c.len() == 0 || c.len() % 2 != 0 {
        return false;
    }
    let mut i: usize = 0;
    while i < c.len()
        invariant
            i <= c@.len(),
            c@ == remove_ws(hex@),
            c@.len() > 0,
            c@.len() % 2 == 0,
            forall|j: int| 0 <= j < i ==> ascii_hex_digit(#[trigger] c@[j]),
        decreases c@.len() - i,
    {
        let d = c[i];
        if !(('0' <= d && d <= '9') || ('a' <= d && d <= 'f') || ('A' <= d && d <= 'F')) {
            assert(!ascii_hex_digit(c@[i as int]));
            return false;
        }
        i += 1;
    }
    true
}

fn push_pack_head(out: &mut String, id: &str, name: &str, version: &str, author: &str, description: &str)
    ensures
        final(out)@ == old(out)@ + pack_head(id@, name@, version@, author@, description@),
{
    let idt = trim_str(id);
    let version_t = trim_str(version);
    let desc = trim_str(description);
    let author_t = trim_str(author);
    push_toml_line(out, "id", idt.as_str());
    push_toml_line(out, "name", name);
    if version_t.as_str().is_empty() {
        push_toml_line(out, "version", "1.0.0");
    } else {
        push_toml_line(out, "version", version_t.as_str());
    }
    push_toml_opt_line(out, "description", desc.as_str());
    push_toml_opt_line(out, "author", author_t.as_str());
    assert(out@ =~= old(out)@ + pack_head(id@, name@, version@, author@, description@));
}

fn push_detect_line(out: &mut String, detect_offset: u64, hex: &str)
    ensures
        final(out)@ == old(out)@ + detect_line(detect_offset, hex@),
{
    if !hex.is_empty() {
        out.append("detect = [{ offset = ");
        push_decimal(out, detect_offset);
        out.append(", hex = ");
        let t = toml_basic(hex);
        out.append(t.as_str());
        out.append(" }]\n");
    }
    assert(out@ =~= old(out)@ + detect_line(detect_offset, hex@));
}

fn push_pack_fields(out: &mut String, description: &str, format_name: &str, extension: &str, entry: &str, confidence: u8)
    ensures
        final(out)@ == old(out)@ + pack_fields(description@, format_name@, extension@, entry@, confidence),
{
    let fname = trim_str(format_name);
    let ext_t = trim_str(extension);
    let desc = trim_str(description);
    let entry_t = trim_str(entry);
    push_toml_line(out, "name", fname.as_str());
    push_toml_opt_line(out, "extension", ext_t.as_str());
    push_toml_opt_line(out, "description", desc.as_str());
    out.append("confidence = ");
    push_decimal(out, confidence as u64);
    push_char(out, '\n');
    push_toml_opt_line(out, "entry", entry_t.as_str());
    assert(out@ =~= old(out)@ + pack_fields(description@, format_name@, extension@, entry@, confidence));
}

fn push_pack_tail(out: &mut String, endian: &str, detect_offset: u64, detect_hex: &str, schema_text: &str)
    ensures
        final(out)@ == old(out)@ + pack_tail(endian@, detect_offset, detect_hex@, schema_text@),
{
    let endian_be = crate::text::str_eq(endian, "be");
    let hex = trim_str(detect_hex);
    let sv = chars_of(schema_text);
    out.append("endian = \"");
    if endian_be {
        out.append("be");
    } else {
        out.append("le");
    }
    out.append("\"\n");
    push_detect_line(out, detect_offset, hex.as_str());
    out.append("schema = '''\n");
    out.append(schema_text);
    if sv.len() == 0 || sv[sv.len() - 1] != '\n' {
        push_char(out, '\n');
    }
    out.append("'''\n");
    proof {
        reveal_strlit("be");
    }
    assert(out@ =~= old(out)@ + pack_tail(endian@, detect_offset, detect_hex@, schema_text@));
}

fn push_pack_format(
    out: &mut String,
    description: &str,
    format_name: &str,
    extension: &str,
    entry: &str,
    endian: &str,
    confidence: u8,
    detect_offset: u64,
    detect_hex: &str,
    schema_text: &str,
)
    ensures
        final(out)@ == old(out)@ + pack_format(
            description@,
            format_name@,
            extension@,
            entry@,
            endian@,
            confidence,
            detect_offset,
            detect_hex@,
            schema_text@,
        ),
{
    out.append("\n[[formats]]\n");
    push_pack_fields(out, description, format_name, extension, entry, confidence);
    push_pack_tail(out, endian, detect_offset, detect_hex, schema_text);
    assert(out@ =~= old(out)@ + pack_format(
        description@,
        format_name@,
        extension@,
        entry@,
        endian@,
        confidence,
        detect_offset,
        detect_hex@,
        schema_text@,
    ));
}

/// The `plugin.toml` pack for a schema: plugin metadata plus one format with
/// a magic-number detect rule and the schema inline (in a literal multiline
/// string, so nothing is re-escaped). The schema must parse and the fields
/// must be sound, so the pack is installable; the first problem is the error.
pub fn plugin_pack(
    id: &str,
    name: &str,
    version: &str,
    author: &str,
    description: &str,
    format_name: &str,
    extension: &str,
    entry: &str,
    endian: &str,
    confidence: u8,
    detect_offset: u64,
    detect_hex: &str,
    schema_text: &str,
) -> (r: Result<String, String>)
    requires
        vstd::utf8::encode_utf8(schema_text@).len() < u32::MAX,
    ensures
        match spec_plugin_pack(
            id@,
            name@,
            version@,
            author@,
            description@,
            format_name@,
            extension@,
            entry@,
            endian@,
            confidence,
            detect_offset,
            detect_hex@,
            schema_text@,
        ) {
            Ok(t) => r matches Ok(x) && x@ == t,
            Err(e) => r matches Err(x) && x@ == e,
        },
{
    match parse(schema_text) {
        Err(e) => {
            let mut m = String::from_str("schema does not parse: ");
            let t = e.message();
            m.append(t.as_str());
            return Err(m);
        },
        Ok(_) => {},
    }
    let idt = trim_str(id);
    if idt.as_str().is_empty() {
        return Err(String::from_str("a format id is required"));
    }
    let idv = chars_of(idt.as_str());
    if !check_slug(&idv) {
        return Err(String::from_str("id must be a lowercase slug (letters, digits, hyphens)"));
    }
    let fname = trim_str(format_name);
    if fname.as_str().is_empty() {
        return Err(String::from_str("a format name is required"));
    }
    if confidence > 100 {
        return Err(String::from_str("confidence must be 0..=100"));
    }
    let sv = chars_of(schema_text);
    if triple_quote(&sv) {
        return Err(String::from_str("schema text cannot contain ''' "));
    }
    let hex = trim_str(detect_hex);
    if !hex.as_str().is_empty() && !hex_ok(hex.as_str()) {
        return Err(String::from_str("detect hex must be pairs of hex digits (e.g. FF D8 FF)"));
    }
    let mut out = String::new();
    push_pack_head(&mut out, id, name, version, author, description);
    push_pack_format(
        &mut out,
        description,
        format_name,
        extension,
        entry,
        endian,
        confidence,
        detect_offset,
        detect_hex,
        schema_text,
    );
    assert(out@ =~= pack_text(
        id@,
        name@,
        version@,
        author@,
        description@,
        format_name@,
        extension@,
        entry@,
        endian@,
        confidence,
        detect_offset,
        detect_hex@,
        schema_text@,
    ));
    Ok(out)
}

// ---------------------------------------------------------------------------
// What an exported pack declares passes the install checks.

proof fn lemma_trim_start_shape(s: Seq<char>)
    ensures
        exists|k: int| 0 <= k <= s.len() && trim_start(s) == s.skip(k) && forall|j: int| 0 <= j < k ==> is_ws_char(#[trigger] s[j]),
        trim_start(s).len() > 0 ==> !is_ws_char(trim_start(s)[0]),
    decreases s.len(),
{
    if s.len() > 0 && is_ws_char(s[0]) {
        lemma_trim_start_shape(s.drop_first());
        let t = s.drop_first();
        let k = choose|k: int| 0 <= k <= t.len() && trim_start(t) == t.skip(k) && forall|j: int| 0 <= j < k ==> is_ws_char(#[trigger] t[j]);
        assert(t.skip(k) =~= s.skip(k + 1));
        assert forall|j: int| 0 <= j < k + 1 implies is_ws_char(#[trigger] s[j]) by {
            if j > 0 {
                assert(s[j] == t[j - 1]);
            }
        }
    } else {
        assert(s.skip(0) =~= s);
    }
}

proof fn lemma_trim_end_shape(s: Seq<char>)
    ensures
        exists|k: int| 0 <= k <= s.len() && trim_end(s) == s.take(k) && forall|j: int| k <= j < s.len() ==> is_ws_char(#[trigger] s[j]),
        trim_end(s).len() > 0 ==> !is_ws_char(trim_end(s).last()),
    decreases s.len(),
{
    if s.len() > 0 && is_ws_char(s.last()) {
        lemma_trim_end_shape(s.drop_last());
        let t = s.drop_last();
        let k = choose|k: int| 0 <= k <= t.len() && trim_end(t) == t.take(k) && forall|j: int| k <= j < t.len() ==> is_ws_char(#[trigger] t[j]);
        assert(t.take(k) =~= s.take(k));
        assert forall|j: int| k <= j < s.len() implies is_ws_char(#[trigger] s[j]) by {
            if j < s.len() - 1 {
                assert(s[j] == t[j]);
            }
        }
    } else {
        assert(s.take(s.len() as int) =~= s);
    }
}

/// Trimming twice is trimming once.
proof fn lemma_trim_twice(s: Seq<char>)
    ensures
        trim(trim(s)) == trim(s),
{
    lemma_trim_start_shape(s);
    let t = trim_start(s);
    lemma_trim_end_shape(t);
    let u = trim_end(t);
    let k = choose|k: int| 0 <= k <= t.len() && trim_end(t) == t.take(k) && forall|j: int| k <= j < t.len() ==> is_ws_char(#[trigger] t[j]);
    if u.len() > 0 {
        assert(u[0] == t[0]);
        assert(trim_start(u) == u);
    } else {
        assert(trim_start(u) == u);
    }
}

/// A string holding a character other than whitespace is not blank once
/// trimmed, and the other way round.
proof fn lemma_trim_blank(s: Seq<char>)
    ensures
        trim(s).len() > 0 <==> exists|i: int| 0 <= i < s.len() && !is_ws_char(#[trigger] s[i]),
{
    lemma_trim_start_shape(s);
    let t = trim_start(s);
    let k = choose|k: int| 0 <= k <= s.len() && trim_start(s) == s.skip(k) && forall|j: int| 0 <= j < k ==> is_ws_char(#[trigger] s[j]);
    lemma_trim_end_shape(t);
    let m = choose|m: int| 0 <= m <= t.len() && trim_end(t) == t.take(m) && forall|j: int| m <= j < t.len() ==> is_ws_char(#[trigger] t[j]);
    if exists|i: int| 0 <= i < s.len() && !is_ws_char(#[trigger] s[i]) {
        let i = choose|i: int| 0 <= i < s.len() && !is_ws_char(#[trigger] s[i]);
        assert(i >= k);
        assert(t[i - k] == s[i]);
        if trim(s).len() == 0 {
            assert(m == 0);
            assert(is_ws_char(t[i - k]));
        }
    }
    if trim(s).len() > 0 {
        assert(!is_ws_char(trim(s)[0]));
        assert(trim(s)[0] == s[k]);
    }
}

proof fn lemma_hex_pairs(b: Seq<u8>)
    requires
        b.len() % 2 == 0,
        forall|i: int| 0 <= i < b.len() ==> (#[trigger] hex_digit_value(b[i])) is Some,
    ensures
        plugin_hex_pairs(b) is Ok,
    decreases b.len(),
{
    if b.len() >= 2 {
        let r = b.subrange(2, b.len() as int);
        assert forall|i: int| 0 <= i < r.len() implies (#[trigger] hex_digit_value(r[i])) is Some by {
            assert(r[i] == b[i + 2]);
            assert(hex_digit_value(b[i + 2]) is Some);
        }
        assert(hex_digit_value(b[0]) is Some);
        assert(hex_digit_value(b[1]) is Some);
        lemma_hex_pairs(r);
    }
}

/// Hex that passes the export check also passes the manifest's detect check.
proof fn lemma_export_hex_parses(hex: Seq<char>)
    requires
        hex_rule_ok(hex),
    ensures
        spec_plugin_parse_hex(hex) is Ok,
{
    let c = remove_ws(hex);
    assert(vstd::utf8::is_ascii_chars(c)) by {
        assert forall|i: int| 0 <= i < c.len() implies '\0' <= #[trigger] c[i] <= '\u{7f}' by {
            assert(ascii_hex_digit(c[i]));
        }
    }
    vstd::utf8::is_ascii_chars_encode_utf8(c);
    let b = vstd::utf8::encode_utf8(c);
    assert forall|i: int| 0 <= i < b.len() implies (#[trigger] hex_digit_value(b[i])) is Some by {
        assert(ascii_hex_digit(c[i]));
        assert(c[i] as u8 == b[i]);
    }
    lemma_hex_pairs(b);
}

/// The schema text as a pack stores it: a final newline added when missing.
pub open spec fn stored_schema(schema_text: Seq<char>) -> Seq<char> {
    schema_text + if schema_text.len() == 0 || schema_text.last() != '\n' { seq!['\n'] } else { Seq::empty() }
}

/// `m` is the manifest a pack with these fields declares.
pub open spec fn pack_declares(
    m: PluginManifest,
    id: Seq<char>,
    name: Seq<char>,
    version: Seq<char>,
    author: Seq<char>,
    description: Seq<char>,
    format_name: Seq<char>,
    extension: Seq<char>,
    entry: Seq<char>,
    endian: Seq<char>,
    confidence: u8,
    detect_offset: u64,
    detect_hex: Seq<char>,
    schema_text: Seq<char>,
) -> bool {
    &&& m.id@ == trim(id)
    &&& m.name@ == name
    &&& m.version@ == (if trim(version).len() == 0 { "1.0.0"@ } else { trim(version) })
    &&& m.description@ == trim(description)
    &&& m.author@ == trim(author)
    &&& m.formats@.len() == 1
    &&& m.formats@[0].name@ == trim(format_name)
    &&& m.formats@[0].extension@ == trim(extension)
    &&& m.formats@[0].description@ == trim(description)
    &&& m.formats@[0].confidence == confidence
    &&& m.formats@[0].entry@ == trim(entry)
    &&& m.formats@[0].endian@ == (if endian == "be"@ { "be"@ } else { "le"@ })
    &&& m.formats@[0].schema@ == stored_schema(schema_text)
    &&& if trim(detect_hex).len() > 0 {
        &&& m.formats@[0].detect@.len() == 1
        &&& m.formats@[0].detect@[0].offset == detect_offset
        &&& m.formats@[0].detect@[0].hex@ == trim(detect_hex)
    } else {
        m.formats@[0].detect@.len() == 0
    }
}

/// A pack that exports (`plugin_pack` succeeds) passes every check of an
/// install and is installed under the file name of its id, provided the plugin
/// name and the schema are not blank (the export checks neither): the manifest
/// validates, and the schema it carries, with the newline the pack may add,
/// still parses.
pub proof fn law_exported_pack_installs(
    m: PluginManifest,
    id: Seq<char>,
    name: Seq<char>,
    version: Seq<char>,
    author: Seq<char>,
    description: Seq<char>,
    format_name: Seq<char>,
    extension: Seq<char>,
    entry: Seq<char>,
    endian: Seq<char>,
    confidence: u8,
    detect_offset: u64,
    detect_hex: Seq<char>,
    schema_text: Seq<char>,
)
    requires
        spec_plugin_pack(
            id,
            name,
            version,
            author,
            description,
            format_name,
            extension,
            entry,
            endian,
            confidence,
            detect_offset,
            detect_hex,
            schema_text,
        ) is Ok,
        trim(name).len() > 0,
        trim(schema_text).len() > 0,
        pack_declares(
            m,
            id,
            name,
            version,
            author,
            description,
            format_name,
            extension,
            entry,
            endian,
            confidence,
            detect_offset,
            detect_hex,
            schema_text,
        ),
    ensures
        spec_validate(m) == Ok::<(), Seq<char>>(()),
        spec_check_plugin(m) == Ok::<Seq<char>, Seq<char>>(spec_plugin_filename(trim(id))),
{
    lemma_trim_twice(id);
    lemma_trim_twice(format_name);
    let f = m.formats@[0];
    assert(trim(m.id@).len() > 0);
    assert(trim(f.name@).len() > 0);
    assert(trim(f.schema@).len() > 0) by {
        lemma_trim_blank(schema_text);
        lemma_trim_blank(f.schema@);
        let i = choose|i: int| 0 <= i < schema_text.len() && !is_ws_char(#[trigger] schema_text[i]);
        assert(f.schema@[i] == schema_text[i]);
    }
    assert(spec_parse_source(vstd::utf8::encode_utf8(schema_text)) is Ok);
    assert(trim(detect_hex).len() > 0 ==> hex_rule_ok(trim(detect_hex)));
    assert(detect_problem(f.detect@, f.name@) is None) by {
        if trim(detect_hex).len() > 0 {
            lemma_export_hex_parses(trim(detect_hex));
            assert(f.detect@.drop_first().len() == 0);
            assert(detect_problem(f.detect@.drop_first(), f.name@) is None);
            assert(spec_plugin_parse_hex(f.detect@[0].hex@) is Ok);
        }
    }
    assert(format_problem(f) is None);
    assert(m.formats@.drop_first().len() == 0);
    assert(formats_problem(m.formats@.drop_first()) is None);
    assert(formats_problem(m.formats@) is None);
    if schema_text.len() > 0 && schema_text.last() == '\n' {
        assert(f.schema@ =~= schema_text);
    } else {
        assert(f.schema@ =~= schema_text.push('\n'));
        lemma_encode_newline(schema_text);
        lemma_parse_trailing_newline(vstd::utf8::encode_utf8(schema_text));
    }
    assert(spec_parse_source(vstd::utf8::encode_utf8(f.schema@)) is Ok);
    assert(first_bad_schema(m.formats@, 1) is None);
    assert(m.id@ == trim(id));
}

/// The UTF-8 encoding of text with a newline appended is the text's encoding
/// followed by the newline byte.
pub proof fn lemma_encode_newline(cs: Seq<char>)
    ensures
        vstd::utf8::encode_utf8(cs.push('\n')) == vstd::utf8::encode_utf8(cs).push(0x0Au8),
    decreases cs.len(),
{
    if cs.len() == 0 {
        assert(seq!['\n'].drop_first() =~= Seq::<char>::empty());
        assert(cs.push('\n') =~= seq!['\n']);
        assert(('\n' as u32) == 10u32);
        assert((10u32 & 0x7Fu32) == 10u32) by (bit_vector);
        let one = seq!['\n'];
        assert(one[0] == '\n');
        assert(vstd::utf8::encode_scalar(one[0] as u32) =~= seq![0x0Au8]);
        assert(vstd::utf8::encode_utf8(one.drop_first()) =~= Seq::<u8>::empty());
        assert(vstd::utf8::encode_utf8(one) =~= vstd::utf8::encode_scalar(one[0] as u32) + vstd::utf8::encode_utf8(one.drop_first()));
        assert(vstd::utf8::encode_utf8(one) =~= seq![0x0Au8]);
    } else {
        assert(cs.push('\n').drop_first() =~= cs.drop_first().push('\n'));
        assert(cs.push('\n')[0] == cs[0]);
        lemma_encode_newline(cs.drop_first());
        assert(vstd::utf8::encode_utf8(cs.push('\n')) =~= vstd::utf8::encode_utf8(cs).push(0x0Au8));
    }
}

} // verus!
