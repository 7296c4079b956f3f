//! Declarative format plugins: a manifest contributes formats, each with a
//! magic-number detection rule and an inline schema. This module checks a
//! manifest and matches detection rules against bytes; reading the manifest
//! text and the files it lives in is the caller's business.
use vstd::prelude::*;

use crate::search::hex_digit_value;
use crate::text::{chars_of, push_char, remove_ws, str_eq, string_of, trim, trim_bounds, without_ws};

verus! {

/// A plugin manifest.
#[derive(Debug, Clone, PartialEq, Eq)]
pub struct PluginManifest {
    /// Stable, unique id, e.g. `"com.example.tga"`.
    pub id: String,
    /// Human-readable plugin name.
    pub name: String,
    pub version: String,
    pub description: String,
    pub author: String,
    /// The formats this plugin contributes.
    pub formats: Vec<FormatDef>,
}

/// One format a plugin contributes: how to recognize it and how to parse it.
#[derive(Debug, Clone, PartialEq, Eq)]
pub struct FormatDef {
    /// Short format name, e.g. `"TGA"`.
    pub name: String,
    pub extension: String,
    pub description: String,
    /// Detection confidence 0-100.
    pub confidence: u8,
    /// Signature parts; all must match. An empty list never auto-detects.
    pub detect: Vec<DetectPart>,
    /// Entry struct for the schema (empty = the schema's first struct).
    pub entry: String,
    /// `"le"` or `"be"`.
    pub endian: String,
    /// The inline schema text.
    pub schema: String,
}

/// One `(offset, bytes)` signature part, the bytes written as hex.
#[derive(Debug, Clone, PartialEq, Eq)]
pub struct DetectPart {
    pub offset: usize,
    /// Hex bytes to match, e.g. `"89 50 4e 47"` (whitespace ignored).
    pub hex: String,
}

/// Hex digit bytes read in pairs; the first byte that is not a hex digit is
/// the error.
pub open spec fn plugin_hex_pairs(b: Seq<u8>) -> Result<Seq<u8>, Seq<char>>
    decreases b.len(),
{
    if b.len() < 2 {
        Ok(Seq::empty())
    } else if hex_digit_value(b[0]) is None {
        Err("not a hex digit: `"@ + seq![b[0] as char] + "`"@)
    } else if hex_digit_value(b[1]) is None {
        Err("not a hex digit: `"@ + seq![b[1] as char] + "`"@)
    } else {
        match plugin_hex_pairs(b.subrange(2, b.len() as int)) {
            Ok(r) => Ok(seq![(hex_digit_value(b[0])->0 * 16 + hex_digit_value(b[1])->0) as u8] + r),
            Err(e) => Err(e),
        }
    }
}

/// What `parse_hex` gives: whitespace ignored; an odd number of digits or a
/// non-hex character is an error.
pub open spec fn spec_plugin_parse_hex(s: Seq<char>) -> Result<Seq<u8>, Seq<char>> {
    let b = vstd::utf8::encode_utf8(remove_ws(s));
    if b.len() % 2 != 0 {
        Err("odd number of hex digits in `"@ + s + "`"@)
    } else {
        plugin_hex_pairs(b)
    }
}

fn hex_val(b: u8) -> (r: Option<u8>)
    ensures
        r == hex_digit_value(b),
{
    if 0x30 <= b && b <= 0x39 {
        Some(b - 0x30)
    } else if 0x61 <= b && b <= 0x66 {
        Some(b - 0x61 + 10)
    } else if 0x41 <= b && b <= 0x46 {
        Some(b - 0x41 + 10)
    } else {
        None
    }
}

fn not_hex(b: u8) -> (e: String)
    ensures
        e@ == "not a hex digit: `"@ + seq![b as char] + "`"@,
{
    let mut m = String::from_str("not a hex digit: `");
    push_char(&mut m, b as char);
    m.append("`");
    m
}

/// Parse a hex string (whitespace ignored) into bytes. Requires an even
/// number of hex digits.
pub fn parse_hex(s: &str) -> (r: Result<Vec<u8>, String>)
    ensures
        match spec_plugin_parse_hex(s@) {
            Ok(b) => r matches Ok(x) && x@ == b,
            Err(e) => r matches Err(x) && x@ == e,
        },
{
    let v = chars_of(s);
    let cleaned = string_of(without_ws(v.as_slice()).as_slice());
    let bytes = cleaned.as_str().as_bytes();
    if bytes.len() % 2 != 0 {
        let mut m = String::from_str("odd number of hex digits in `");
        m.append(s);
        m.append("`");
        return Err(m);
    }
    let mut out: Vec<u8> = Vec::new();
    let mut i: usize = 0;
    assert(bytes@.subrange(0, bytes@.len() as int) =~= bytes@);
    while i < bytes.len()
        invariant
            i <= bytes@.len(),
            i % 2 == 0,
            bytes@.len() % 2 == 0,
            spec_plugin_parse_hex(s@) == plugin_hex_pairs(bytes@),
            match plugin_hex_pairs(bytes@) {
                Ok(all) => match plugin_hex_pairs(bytes@.subrange(i as int, bytes@.len() as int)) {
                    Ok(r) => all == out@ + r,
                    Err(_) => false,
                },
                Err(e) => plugin_hex_pairs(bytes@.subrange(i as int, bytes@.len() as int)) == Err::<Seq<u8>, Seq<char>>(e),
            },
        decreases bytes@.len() - i,
    {
        let ghost rest = bytes@.subrange(i as int, bytes@.len() as int);
        assert(rest.subrange(2, rest.len() as int) =~= bytes@.subrange(i + 2, bytes@.len() as int));
        let hi = match hex_val(bytes[i]) {
            Some(h) => h,
            None => return Err(not_hex(bytes[i])),
        };
        let lo = match hex_val(bytes[i + 1]) {
            Some(l) => l,
            None => return Err(not_hex(bytes[i + 1])),
        };
        proof {
            if let Ok(r2) = plugin_hex_pairs(bytes@.subrange(i + 2, bytes@.len() as int)) {
                assert(out@.push((hi * 16 + lo) as u8) + r2 =~= out@ + (seq![(hi * 16 + lo) as u8] + r2));
            }
        }
        out.push(hi * 16 + lo);
        i += 2;
    }
    proof {
        assert(out@ + Seq::<u8>::empty() =~= out@);
    }
    Ok(out)
}

/// A detection part matches `head`: its hex is valid and non-empty, and
/// those bytes sit at its offset.
pub open spec fn part_matches(p: DetectPart, head: Seq<u8>) -> bool {
    match spec_plugin_parse_hex(p.hex@) {
        Err(_) => false,
        Ok(b) => b.len() > 0 && p.offset + b.len() <= head.len() && head.subrange(p.offset as int, p.offset + b.len()) == b,
    }
}

/// A format auto-detects on `head`: it has detection parts and all match.
pub open spec fn format_detects(f: FormatDef, head: Seq<u8>) -> bool {
    f.detect@.len() > 0 && forall|k: int| 0 <= k < f.detect@.len() ==> part_matches(#[trigger] f.detect@[k], head)
}

impl DetectPart {
    pub fn matches(&self, head: &[u8]) -> (b: bool)
        ensures
            b == part_matches(*self, head@),
    {
        let bytes = match parse_hex(self.hex.as_str()) {
            Ok(b) => b,
            Err(_) => return false,
        };
        if bytes.len() == 0 {
            return false;
        }
        if self.offset > head.len() || bytes.len() > head.len() - self.offset {
            return false;
        }
        let hlen = head.len();
        let mut m: usize = 0;
        while m < bytes.len()
            invariant
                m <= bytes@.len(),
                hlen == head@.len(),
                spec_plugin_parse_hex(self.hex@) == Ok::<Seq<u8>, Seq<char>>(bytes@),
                bytes@.len() > 0,
                self.offset + bytes@.len() <= head@.len(),
                forall|j: int| 0 <= j < m ==> head@[self.offset + j] == bytes@[j],
            decreases bytes@.len() - m,
        {
            if head[self.offset + m] != bytes[m] {
                assert(head@.subrange(self.offset as int, self.offset + bytes@.len())[m as int] != bytes@[m as int]);
                return false;
            }
            m += 1;
        }
        assert(head@.subrange(self.offset as int, self.offset + bytes@.len()) =~= bytes@);
        true
    }
}

impl FormatDef {
    /// True when every detection part matches (and there is at least one part).
    pub fn detect_matches(&self, head: &[u8]) -> (b: bool)
        ensures
            b == format_detects(*self, head@),
    {
        if self.detect.len() == 0 {
            return false;
        }
        let mut k: usize = 0;
        while k < self.detect.len()
            invariant
                k <= self.detect@.len(),
                forall|j: int| 0 <= j < k ==> part_matches(#[trigger] self.detect@[j], head@),
            decreases self.detect@.len() - k,
        {
            if !self.detect[k].matches(head) {
                return false;
            }
            k += 1;
        }
        true
    }
}

/// The first detection part whose hex does not parse, as a message.
pub open spec fn detect_problem(parts: Seq<DetectPart>, fname: Seq<char>) -> Option<Seq<char>>
    decreases parts.len(),
{
    if parts.len() == 0 {
        None
    } else {
        match spec_plugin_parse_hex(parts[0].hex@) {
            Err(e) => Some("format `"@ + fname + "` has invalid detect hex: "@ + e),
            Ok(_) => detect_problem(parts.drop_first(), fname),
        }
    }
}

/// What is wrong with a format, if anything.
pub open spec fn format_problem(f: FormatDef) -> Option<Seq<char>> {
    if trim(f.name@).len() == 0 {
        Some("every format needs a `name`"@)
    } else if trim(f.schema@).len() == 0 {
        Some("format `"@ + f.name@ + "` has an empty schema"@)
    } else {
        detect_problem(f.detect@, f.name@)
    }
}

/// The first problem among formats, in order.
pub open spec fn formats_problem(fs: Seq<FormatDef>) -> Option<Seq<char>>
    decreases fs.len(),
{
    if fs.len() == 0 {
        None
    } else {
        match format_problem(fs[0]) {
            Some(e) => Some(e),
            None => formats_problem(fs.drop_first()),
        }
    }
}

/// What `validate` reports for a manifest.
pub open spec fn spec_validate(m: PluginManifest) -> Result<(), Seq<char>> {
    if trim(m.id@).len() == 0 {
        Err("plugin `id` is required"@)
    } else if trim(m.name@).len() == 0 {
        Err("plugin `name` is required"@)
    } else {
        match formats_problem(m.formats@) {
            Some(e) => Err(e),
            None => Ok(()),
        }
    }
}

/// Whether a string is empty once trimmed.
fn blank(s: &str) -> (b: bool)
    ensures
        b == (trim(s@).len() == 0),
{
    let v = chars_of(s);
    let (i, j) = trim_bounds(v.as_slice());
    i == j
}

/// Format `f` ranks before `g`: more confident, then earlier.
pub open spec fn conf_before(fs: Seq<FormatDef>, a: int, b: int) -> bool {
    fs[a].confidence > fs[b].confidence || (fs[a].confidence == fs[b].confidence && a < b)
}

impl PluginManifest {
    /// Check the manifest is well-formed: required fields present, and every
    /// detection rule's hex valid. (The schemas themselves are checked by the
    /// schema parser.)
    pub fn validate(&self) -> (r: Result<(), String>)
        ensures
            match spec_validate(*self) {
                Ok(()) => r is Ok,
                Err(e) => r matches Err(x) && x@ == e,
            },
    {
        if blank(self.id.as_str()) {
            return Err(String::from_str("plugin `id` is required"));
        }
        if blank(self.name.as_str()) {
            return Err(String::from_str("plugin `name` is required"));
        }
        let ghost all = self.formats@;
        let mut k: usize = 0;
        assert(all.subrange(0, all.len() as int) =~= all);
        while k < self.formats.len()
            invariant
                all == self.formats@,
                k <= all.len(),
                spec_validate(*self) == (match formats_problem(all.subrange(k as int, all.len() as int)) {
                    Some(e) => Err(e),
                    None => Ok(()),
                }),
            decreases all.len() - k,
        {
            assert(all.subrange(k as int, all.len() as int).drop_first() =~= all.subrange(k + 1, all.len() as int));
            let f = &self.formats[k];
            if blank(f.name.as_str()) {
                return Err(String::from_str("every format needs a `name`"));
            }
            if blank(f.schema.as_str()) {
                let mut m = String::from_str("format `");
                m.append(f.name.as_str());
                m.append("` has an empty schema");
                return Err(m);
            }
            let mut q: usize = 0;
            let ghost parts = f.detect@;
            assert(parts.subrange(0, parts.len() as int) =~= parts);
            while q < f.detect.len()
                invariant
                    parts == f.detect@,
                    all == self.formats@,
                    k < all.len(),
                    *f == all[k as int],
                    trim(f.name@).len() != 0,
                    trim(f.schema@).len() != 0,
                    spec_validate(*self) == (match formats_problem(all.subrange(k as int, all.len() as int)) {
                        Some(e) => Err(e),
                        None => Ok(()),
                    }),
                    q <= parts.len(),
                    detect_problem(parts, f.name@) == detect_problem(parts.subrange(q as int, parts.len() as int), f.name@),
                decreases parts.len() - q,
            {
                assert(parts.subrange(q as int, parts.len() as int).drop_first() =~= parts.subrange(q + 1, parts.len() as int));
                match parse_hex(f.detect[q].hex.as_str()) {
                    Ok(_) => {},
                    Err(e) => {
                        let mut m = String::from_str("format `");
                        m.append(f.name.as_str());
                        m.append("` has invalid detect hex: ");
                        m.append(e.as_str());
                        return Err(m);
                    },
                }
                q += 1;
            }
            k += 1;
        }
        Ok(())
    }

    /// Find a contributed format by its `name` (the first so named).
    pub fn format(&self, name: &str) -> (r: Option<&FormatDef>)
        ensures
            match r {
                Some(f) => exists|k: int| 0 <= k < self.formats@.len() && self.formats@[k] == *f && f.name@ == name@
                    && forall|j: int| 0 <= j < k ==> #[trigger] self.formats@[j].name@ != name@,
                None => forall|j: int| 0 <= j < self.formats@.len() ==> #[trigger] self.formats@[j].name@ != name@,
            },
    {
        let mut k: usize = 0;
        while k < self.formats.len()
            invariant
                k <= self.formats@.len(),
                forall|j: int| 0 <= j < k ==> #[trigger] self.formats@[j].name@ != name@,
            decreases self.formats@.len() - k,
        {
            if str_eq(self.formats[k].name.as_str(), name) {
                return Some(&self.formats[k]);
            }
            k += 1;
        }
        None
    }

    /// The formats whose detection rules all match `head` (the start of a
    /// file), most confident first; equally confident ones keep their order.
    pub fn matches(&self, head: &[u8]) -> (r: Vec<&FormatDef>)
        ensures
            exists|order: Seq<int>|
                #![trigger order.len()]
                {
                    &&& order.len() == r@.len()
                    &&& forall|k: int| 0 <= k < order.len() ==> 0 <= #[trigger] order[k] < self.formats@.len()
                        && format_detects(self.formats@[order[k]], head@) && *r@[k] == self.formats@[order[k]]
                    &&& forall|i: int| 0 <= i < self.formats@.len() && format_detects(self.formats@[i], head@) ==> order.contains(i)
                    &&& forall|k: int, l: int| 0 <= k < l < order.len() ==> conf_before(self.formats@, #[trigger] order[k], #[trigger] order[l])
                },
    {
        let fs = &self.formats;
        let mut order: Vec<usize> = Vec::new();
        let mut i: usize = 0;
        while i < fs.len()
            invariant
                i <= fs@.len(),
                forall|k: int| 0 <= k < order@.len() ==> (#[trigger] order@[k] as int) < i && format_detects(fs@[order@[k] as int], head@),
                forall|j: int| 0 <= j < i && format_detects(fs@[j], head@) ==> order@.contains(j as usize),
                forall|k: int, l: int| 0 <= k < l < order@.len() ==> conf_before(fs@, #[trigger] order@[k] as int, #[trigger] order@[l] as int),
            decreases fs@.len() - i,
        {
            if fs[i].detect_matches(head) {
                let c = fs[i].confidence;
                let mut p: usize = 0;
                while p < order.len() && fs[order[p]].confidence >= c
                    invariant
                        i < fs@.len(),
                        c == fs@[i as int].confidence,
                        p <= order@.len(),
                        forall|k: int| 0 <= k < order@.len() ==> (#[trigger] order@[k] as int) < i,
                        forall|q: int| 0 <= q < p ==> conf_before(fs@, #[trigger] order@[q] as int, i as int),
                    decreases order@.len() - p,
                {
                    p += 1;
                }
                let ghost before = order@;
                order.insert(p, i);
                proof {
                    lemma_insert_conf_sorted(fs@, before, p as int, i);
                    assert forall|j: int| 0 <= j < i + 1 && format_detects(fs@[j], head@) implies order@.contains(j as usize) by {
                        if j < i {
                            let w = choose|w: int| 0 <= w < before.len() && before[w] == j as usize;
                            if w < p {
                                assert(order@[w] == j as usize);
                            } else {
                                assert(order@[w + 1] == j as usize);
                            }
                        } else {
                            assert(order@[p as int] == i);
                        }
                    }
                    assert forall|k: int| 0 <= k < order@.len() implies (#[trigger] order@[k] as int) < i + 1
                        && format_detects(fs@[order@[k] as int], head@) by {
                        if k < p {
                            assert(order@[k] == before[k]);
                        } else if k > p {
                            assert(order@[k] == before[k - 1]);
                        }
                    }
                }
            }
            i += 1;
        }
        let mut out: Vec<&FormatDef> = Vec::new();
        let mut k: usize = 0;
        while k < order.len()
            invariant
                forall|q: int| 0 <= q < order@.len() ==> (#[trigger] order@[q] as int) < fs@.len(),
                k <= order@.len(),
                out@.len() == k,
                forall|q: int| 0 <= q < k ==> *out@[q] == fs@[order@[q] as int],
            decreases order@.len() - k,
        {
            out.push(&fs[order[k]]);
            k += 1;
        }
        proof {
            let ord = order@.map_values(|x: usize| x as int);
            assert forall|j: int| 0 <= j < fs@.len() && format_detects(fs@[j], head@) implies ord.contains(j) by {
                let w = choose|w: int| 0 <= w < order@.len() && order@[w] == j as usize;
                assert(ord[w] == j);
            }
            assert(ord.len() == out@.len());
        }
        out
    }
}

proof fn lemma_insert_conf_sorted(fs: Seq<FormatDef>, before: Seq<usize>, p: int, i: usize)
    requires
        0 <= p <= before.len(),
        forall|k: int, l: int| 0 <= k < l < before.len() ==> conf_before(fs, #[trigger] before[k] as int, #[trigger] before[l] as int),
        forall|q: int| 0 <= q < p ==> conf_before(fs, #[trigger] before[q] as int, i as int),
        forall|q: int| 0 <= q < before.len() ==> (#[trigger] before[q] as int) < i,
        p < before.len() ==> fs[before[p] as int].confidence < fs[i as int].confidence,
    ensures
        forall|k: int, l: int| 0 <= k < l < before.insert(p, i).len() ==> conf_before(fs, #[trigger] before.insert(p, i)[k] as int, #[trigger] before.insert(p, i)[l] as int),
{
    let after = before.insert(p, i);
    assert forall|k: int, l: int| 0 <= k < l < after.len() implies conf_before(fs, #[trigger] after[k] as int, #[trigger] after[l] as int) by {
        if l < p {
            assert(after[k] == before[k] && after[l] == before[l]);
        } else if l == p {
            assert(after[k] == before[k]);
        } else if k == p {
            assert(after[l] == before[l - 1]);
            if l - 1 > p {
                assert(conf_before(fs, before[p] as int, before[l - 1] as int));
            }
        } else if k < p {
            assert(after[k] == before[k] && after[l] == before[l - 1]);
        } else {
            assert(after[k] == before[k - 1] && after[l] == before[l - 1]);
        }
    }
}

} // verus!
