//! Format detection by signature ("magic numbers").
//!
//! Given the head of a file, [`detect`] returns the known formats whose
//! signatures match, most confident first. It only recognizes a file; it
//! does not parse it.
use vstd::prelude::*;

verus! {

/// One recognized format and how sure we are.
#[derive(Debug, Clone, PartialEq, Eq)]
pub struct Detection {
    /// Short format name, e.g. `"PNG"`.
    pub format: &'static str,
    /// Usual file extension without the dot, e.g. `"png"`.
    pub extension: &'static str,
    /// One-line human description.
    pub description: &'static str,
    /// Confidence 0-100. Longer / more specific signatures score higher.
    pub confidence: u8,
}

/// A signature: every `(offset, bytes)` part must match for it to fire.
struct Signature {
    format: &'static str,
    extension: &'static str,
    description: &'static str,
    confidence: u8,
    parts: Vec<(usize, Vec<u8>)>,
}

/// A signature with its texts as characters and its parts as sequences.
pub struct SigModel {
    pub format: Seq<char>,
    pub extension: Seq<char>,
    pub description: Seq<char>,
    pub confidence: u8,
    pub parts: Seq<(usize, Seq<u8>)>,
}

/// The signature registry, in registry order.
pub open spec fn signature_table() -> Seq<SigModel> {
    seq![
        SigModel { format: "PNG"@, extension: "png"@, description: "Portable Network Graphics image"@, confidence: 100, parts: seq![(0, seq![0x89, 0x50, 0x4E, 0x47, 0x0D, 0x0A, 0x1A, 0x0A])] },
        SigModel { format: "JPEG"@, extension: "jpg"@, description: "JPEG image"@, confidence: 95, parts: seq![(0, seq![0xFF, 0xD8, 0xFF])] },
        SigModel { format: "GIF"@, extension: "gif"@, description: "GIF image"@, confidence: 100, parts: seq![(0, seq![0x47, 0x49, 0x46, 0x38])] },
        SigModel { format: "BMP"@, extension: "bmp"@, description: "Windows bitmap image"@, confidence: 80, parts: seq![(0, seq![0x42, 0x4D])] },
        SigModel { format: "PDF"@, extension: "pdf"@, description: "Portable Document Format"@, confidence: 100, parts: seq![(0, seq![0x25, 0x50, 0x44, 0x46, 0x2D])] },
        SigModel { format: "ELF"@, extension: "elf"@, description: "ELF executable / object (Unix)"@, confidence: 100, parts: seq![(0, seq![0x7F, 0x45, 0x4C, 0x46])] },
        SigModel { format: "PE"@, extension: "exe"@, description: "DOS/Windows executable (MZ header)"@, confidence: 70, parts: seq![(0, seq![0x4D, 0x5A])] },
        SigModel { format: "ZIP"@, extension: "zip"@, description: "ZIP archive (also .jar/.docx/.xlsx/.apk)"@, confidence: 90, parts: seq![(0, seq![0x50, 0x4B, 0x03, 0x04])] },
        SigModel { format: "GZIP"@, extension: "gz"@, description: "gzip-compressed data"@, confidence: 95, parts: seq![(0, seq![0x1F, 0x8B])] },
        SigModel { format: "7-Zip"@, extension: "7z"@, description: "7-Zip archive"@, confidence: 100, parts: seq![(0, seq![0x37, 0x7A, 0xBC, 0xAF, 0x27, 0x1C])] },
        SigModel { format: "RAR"@, extension: "rar"@, description: "RAR archive"@, confidence: 100, parts: seq![(0, seq![0x52, 0x61, 0x72, 0x21, 0x1A, 0x07])] },
        SigModel { format: "TAR"@, extension: "tar"@, description: "POSIX tar archive"@, confidence: 90, parts: seq![(257, seq![0x75, 0x73, 0x74, 0x61, 0x72])] },
        SigModel { format: "WAV"@, extension: "wav"@, description: "WAVE audio (RIFF)"@, confidence: 100, parts: seq![(0, seq![0x52, 0x49, 0x46, 0x46])] + seq![(8, seq![0x57, 0x41, 0x56, 0x45])] },
        SigModel { format: "AVI"@, extension: "avi"@, description: "AVI video (RIFF)"@, confidence: 100, parts: seq![(0, seq![0x52, 0x49, 0x46, 0x46])] + seq![(8, seq![0x41, 0x56, 0x49, 0x20])] },
        SigModel { format: "MP3"@, extension: "mp3"@, description: "MP3 audio (ID3-tagged)"@, confidence: 85, parts: seq![(0, seq![0x49, 0x44, 0x33])] },
        SigModel { format: "OGG"@, extension: "ogg"@, description: "Ogg container"@, confidence: 100, parts: seq![(0, seq![0x4F, 0x67, 0x67, 0x53])] },
        SigModel { format: "FLAC"@, extension: "flac"@, description: "FLAC audio"@, confidence: 100, parts: seq![(0, seq![0x66, 0x4C, 0x61, 0x43])] },
        SigModel { format: "SQLite"@, extension: "sqlite"@, description: "SQLite 3 database"@, confidence: 100, parts: seq![(0, seq![0x53, 0x51, 0x4C, 0x69, 0x74, 0x65, 0x20, 0x66, 0x6F, 0x72, 0x6D, 0x61, 0x74, 0x20, 0x33, 0x00])] },
        SigModel { format: "WASM"@, extension: "wasm"@, description: "WebAssembly binary module"@, confidence: 100, parts: seq![(0, seq![0x00, 0x61, 0x73, 0x6D])] },
        SigModel { format: "Java class"@, extension: "class"@, description: "Java compiled class file"@, confidence: 95, parts: seq![(0, seq![0xCA, 0xFE, 0xBA, 0xBE])] },
    ]
}

spec fn sig_view(s: Signature) -> SigModel {
    SigModel {
        format: s.format@,
        extension: s.extension@,
        description: s.description@,
        confidence: s.confidence,
        parts: s.parts@.map_values(|p: (usize, Vec<u8>)| (p.0, p.1@)),
    }
}

/// The registry.
fn signatures() -> (v: Vec<Signature>)
    ensures
        v@.map_values(|s: Signature| sig_view(s)) == signature_table(),
{
    let v = vec![
        Signature { format: "PNG", extension: "png", description: "Portable Network Graphics image", confidence: 100, parts: vec![(0, vec![0x89, 0x50, 0x4E, 0x47, 0x0D, 0x0A, 0x1A, 0x0A])] },
        Signature { format: "JPEG", extension: "jpg", description: "JPEG image", confidence: 95, parts: vec![(0, vec![0xFF, 0xD8, 0xFF])] },
        Signature { format: "GIF", extension: "gif", description: "GIF image", confidence: 100, parts: vec![(0, vec![0x47, 0x49, 0x46, 0x38])] },
        Signature { format: "BMP", extension: "bmp", description: "Windows bitmap image", confidence: 80, parts: vec![(0, vec![0x42, 0x4D])] },
        Signature { format: "PDF", extension: "pdf", description: "Portable Document Format", confidence: 100, parts: vec![(0, vec![0x25, 0x50, 0x44, 0x46, 0x2D])] },
        Signature { format: "ELF", extension: "elf", description: "ELF executable / object (Unix)", confidence: 100, parts: vec![(0, vec![0x7F, 0x45, 0x4C, 0x46])] },
        Signature { format: "PE", extension: "exe", description: "DOS/Windows executable (MZ header)", confidence: 70, parts: vec![(0, vec![0x4D, 0x5A])] },
        Signature { format: "ZIP", extension: "zip", description: "ZIP archive (also .jar/.docx/.xlsx/.apk)", confidence: 90, parts: vec![(0, vec![0x50, 0x4B, 0x03, 0x04])] },
        Signature { format: "GZIP", extension: "gz", description: "gzip-compressed data", confidence: 95, parts: vec![(0, vec![0x1F, 0x8B])] },
        Signature { format: "7-Zip", extension: "7z", description: "7-Zip archive", confidence: 100, parts: vec![(0, vec![0x37, 0x7A, 0xBC, 0xAF, 0x27, 0x1C])] },
        Signature { format: "RAR", extension: "rar", description: "RAR archive", confidence: 100, parts: vec![(0, vec![0x52, 0x61, 0x72, 0x21, 0x1A, 0x07])] },
        Signature { format: "TAR", extension: "tar", description: "POSIX tar archive", confidence: 90, parts: vec![(257, vec![0x75, 0x73, 0x74, 0x61, 0x72])] },
        Signature { format: "WAV", extension: "wav", description: "WAVE audio (RIFF)", confidence: 100, parts: vec![(0, vec![0x52, 0x49, 0x46, 0x46]), (8, vec![0x57, 0x41, 0x56, 0x45])] },
        Signature { format: "AVI", extension: "avi", description: "AVI video (RIFF)", confidence: 100, parts: vec![(0, vec![0x52, 0x49, 0x46, 0x46]), (8, vec![0x41, 0x56, 0x49, 0x20])] },
        Signature { format: "MP3", extension: "mp3", description: "MP3 audio (ID3-tagged)", confidence: 85, parts: vec![(0, vec![0x49, 0x44, 0x33])] },
        Signature { format: "OGG", extension: "ogg", description: "Ogg container", confidence: 100, parts: vec![(0, vec![0x4F, 0x67, 0x67, 0x53])] },
        Signature { format: "FLAC", extension: "flac", description: "FLAC audio", confidence: 100, parts: vec![(0, vec![0x66, 0x4C, 0x61, 0x43])] },
        Signature { format: "SQLite", extension: "sqlite", description: "SQLite 3 database", confidence: 100, parts: vec![(0, vec![0x53, 0x51, 0x4C, 0x69, 0x74, 0x65, 0x20, 0x66, 0x6F, 0x72, 0x6D, 0x61, 0x74, 0x20, 0x33, 0x00])] },
        Signature { format: "WASM", extension: "wasm", description: "WebAssembly binary module", confidence: 100, parts: vec![(0, vec![0x00, 0x61, 0x73, 0x6D])] },
        Signature { format: "Java class", extension: "class", description: "Java compiled class file", confidence: 95, parts: vec![(0, vec![0xCA, 0xFE, 0xBA, 0xBE])] },
    ];
    proof {
        let t = signature_table();
        let w = v@.map_values(|s: Signature| sig_view(s));
        assert(w.len() == t.len());
        assert forall|i: int| 0 <= i < t.len() implies w[i] == t[i] by {
            assert(w[i].parts =~= t[i].parts);
        }
        assert(w =~= t);
    }
    v
}

/// Every part of signature `s` matches `bytes`.
pub open spec fn sig_matches(s: SigModel, bytes: Seq<u8>) -> bool {
    forall|k: int| 0 <= k < s.parts.len() ==> {
        let (offset, magic) = #[trigger] s.parts[k];
        offset + magic.len() <= bytes.len() && bytes.subrange(offset as int, (offset + magic.len()) as int) == magic
    }
}

/// Total signature bytes, the measure of specificity.
pub open spec fn magic_len(parts: Seq<(usize, Seq<u8>)>) -> nat
    decreases parts.len(),
{
    if parts.len() == 0 { 0 } else { magic_len(parts.drop_last()) + parts.last().1.len() }
}

/// Signature `a` ranks before `b`: more confident, then longer, then earlier
/// in the registry.
pub open spec fn ranks_before(t: Seq<SigModel>, a: int, b: int) -> bool {
    ||| t[a].confidence > t[b].confidence
    ||| (t[a].confidence == t[b].confidence && magic_len(t[a].parts) > magic_len(t[b].parts))
    ||| (t[a].confidence == t[b].confidence && magic_len(t[a].parts) == magic_len(t[b].parts) && a < b)
}

/// `order` lists exactly the signatures matching `bytes`, each once, best first.
pub open spec fn detection_order(bytes: Seq<u8>, order: Seq<int>) -> bool {
    let t = signature_table();
    &&& forall|k: int| 0 <= k < order.len() ==> 0 <= #[trigger] order[k] < t.len() && sig_matches(t[order[k]], bytes)
    &&& forall|i: int| 0 <= i < t.len() && sig_matches(t[i], bytes) ==> order.contains(i)
    &&& forall|k: int, l: int| 0 <= k < l < order.len() ==> ranks_before(t, #[trigger] order[k], #[trigger] order[l])
}

/// Detection only grows as more of a file is read: a signature that matches a
/// prefix of the bytes matches the longer bytes too, so every signature that
/// `detect` reports for a prefix (in `oa`) it also reports for the whole (in
/// `ob`).
pub proof fn law_detection_grows_with_input(a: Seq<u8>, b: Seq<u8>, oa: Seq<int>, ob: Seq<int>)
    requires
        a.len() <= b.len(),
        a == b.take(a.len() as int),
        detection_order(a, oa),
        detection_order(b, ob),
    ensures
        forall|k: int| 0 <= k < oa.len() ==> ob.contains(#[trigger] oa[k]),
{
    let t = signature_table();
    assert forall|k: int| 0 <= k < oa.len() implies ob.contains(#[trigger] oa[k]) by {
        let i = oa[k];
        assert(sig_matches(t[i], a));
        assert forall|j: int| 0 <= j < t[i].parts.len() implies {
            let (offset, magic) = #[trigger] t[i].parts[j];
            offset + magic.len() <= b.len() && b.subrange(offset as int, offset + magic.len()) == magic
        } by {
            let (offset, magic) = t[i].parts[j];
            assert(b.subrange(offset as int, offset + magic.len()) =~= a.subrange(offset as int, offset + magic.len()));
        }
        assert(sig_matches(t[i], b));
    }
}

/// A text's characters as bytes (for text below U+0100).
pub open spec fn latin1(s: Seq<char>) -> Seq<u8> {
    s.map_values(|c: char| c as u8)
}

/// `bytes` holds `magic` at `offset`.
pub open spec fn has_at(bytes: Seq<u8>, offset: nat, magic: Seq<u8>) -> bool {
    offset + magic.len() <= bytes.len() && bytes.subrange(offset as int, (offset + magic.len()) as int) == magic
}

/// Every ordering of what matches `bytes` reports the format `format`.
pub open spec fn detected_as(bytes: Seq<u8>, format: Seq<char>) -> bool {
    forall|order: Seq<int>|
        #![trigger detection_order(bytes, order)]
        detection_order(bytes, order) ==> exists|k: int|
            0 <= k < order.len() && (#[trigger] signature_table()[order[k]]).format == format
}

/// A signature that matches is among the formats reported.
proof fn lemma_match_is_detected(bytes: Seq<u8>, i: int)
    requires
        0 <= i < signature_table().len(),
        sig_matches(signature_table()[i], bytes),
    ensures
        detected_as(bytes, signature_table()[i].format),
{
    let t = signature_table();
    assert forall|order: Seq<int>| #![trigger detection_order(bytes, order)] detection_order(bytes, order) implies exists|k: int|
        0 <= k < order.len() && (#[trigger] t[order[k]]).format == t[i].format by {
        assert(order.contains(i));
        let k = choose|k: int| 0 <= k < order.len() && order[k] == i;
        assert(t[order[k]].format == t[i].format);
    }
}

/// A one-part signature at `offset` matches bytes holding its magic there.
proof fn lemma_one_part_matches(bytes: Seq<u8>, i: int, offset: nat, magic: Seq<u8>)
    requires
        0 <= i < signature_table().len(),
        signature_table()[i].parts =~= seq![(offset as usize, magic)],
        offset < 0x10000,
        has_at(bytes, offset, magic),
    ensures
        detected_as(bytes, signature_table()[i].format),
{
    let s = signature_table()[i];
    assert forall|k: int| 0 <= k < s.parts.len() implies {
        let (o, m) = #[trigger] s.parts[k];
        o + m.len() <= bytes.len() && bytes.subrange(o as int, o + m.len()) == m
    } by {
        assert(s.parts[k] == (offset as usize, magic));
    }
    lemma_match_is_detected(bytes, i);
}

/// A two-part signature matches bytes holding both magics at their offsets.
proof fn lemma_two_parts_match(bytes: Seq<u8>, i: int, o1: nat, m1: Seq<u8>, o2: nat, m2: Seq<u8>)
    requires
        0 <= i < signature_table().len(),
        signature_table()[i].parts =~= seq![(o1 as usize, m1), (o2 as usize, m2)],
        o1 < 0x10000,
        o2 < 0x10000,
        has_at(bytes, o1, m1),
        has_at(bytes, o2, m2),
    ensures
        detected_as(bytes, signature_table()[i].format),
{
    let s = signature_table()[i];
    assert forall|k: int| 0 <= k < s.parts.len() implies {
        let (o, m) = #[trigger] s.parts[k];
        o + m.len() <= bytes.len() && bytes.subrange(o as int, o + m.len()) == m
    } by {
        if k == 0 {
            assert(s.parts[k] == (o1 as usize, m1));
        } else {
            assert(s.parts[k] == (o2 as usize, m2));
        }
    }
    lemma_match_is_detected(bytes, i);
}

/// A file that begins with a format's published magic bytes is detected as
/// that format: each signature is written here as the format's specification
/// spells it, in text where it is text.
#[verifier::rlimit(80)]
pub proof fn law_published_magics_are_detected(bytes: Seq<u8>)
    ensures
        has_at(bytes, 0, seq![0x89u8] + latin1("PNG"@) + seq![0x0Du8, 0x0Au8, 0x1Au8, 0x0Au8]) ==> detected_as(bytes, "PNG"@),
        has_at(bytes, 0, seq![0xFFu8, 0xD8u8, 0xFFu8]) ==> detected_as(bytes, "JPEG"@),
        has_at(bytes, 0, latin1("GIF8"@)) ==> detected_as(bytes, "GIF"@),
        has_at(bytes, 0, latin1("BM"@)) ==> detected_as(bytes, "BMP"@),
        has_at(bytes, 0, latin1("%PDF-"@)) ==> detected_as(bytes, "PDF"@),
        has_at(bytes, 0, seq![0x7Fu8] + latin1("ELF"@)) ==> detected_as(bytes, "ELF"@),
        has_at(bytes, 0, latin1("MZ"@)) ==> detected_as(bytes, "PE"@),
        has_at(bytes, 0, latin1("PK"@) + seq![0x03u8, 0x04u8]) ==> detected_as(bytes, "ZIP"@),
        has_at(bytes, 0, seq![0x1Fu8, 0x8Bu8]) ==> detected_as(bytes, "GZIP"@),
        has_at(bytes, 0, latin1("7z"@) + seq![0xBCu8, 0xAFu8, 0x27u8, 0x1Cu8]) ==> detected_as(bytes, "7-Zip"@),
        has_at(bytes, 0, latin1("Rar!"@) + seq![0x1Au8, 0x07u8]) ==> detected_as(bytes, "RAR"@),
        has_at(bytes, 257, latin1("ustar"@)) ==> detected_as(bytes, "TAR"@),
        has_at(bytes, 0, latin1("RIFF"@)) && has_at(bytes, 8, latin1("WAVE"@)) ==> detected_as(bytes, "WAV"@),
        has_at(bytes, 0, latin1("RIFF"@)) && has_at(bytes, 8, latin1("AVI "@)) ==> detected_as(bytes, "AVI"@),
        has_at(bytes, 0, latin1("ID3"@)) ==> detected_as(bytes, "MP3"@),
        has_at(bytes, 0, latin1("OggS"@)) ==> detected_as(bytes, "OGG"@),
        has_at(bytes, 0, latin1("fLaC"@)) ==> detected_as(bytes, "FLAC"@),
        has_at(bytes, 0, latin1("SQLite format 3"@) + seq![0x00u8]) ==> detected_as(bytes, "SQLite"@),
        has_at(bytes, 0, seq![0x00u8] + latin1("asm"@)) ==> detected_as(bytes, "WASM"@),
        has_at(bytes, 0, seq![0xCAu8, 0xFEu8, 0xBAu8, 0xBEu8]) ==> detected_as(bytes, "Java class"@),
{
    reveal_strlit("PNG");
    reveal_strlit("GIF8");
    reveal_strlit("BM");
    reveal_strlit("%PDF-");
    reveal_strlit("ELF");
    reveal_strlit("MZ");
    reveal_strlit("PK");
    reveal_strlit("7z");
    reveal_strlit("Rar!");
    reveal_strlit("ustar");
    reveal_strlit("ID3");
    reveal_strlit("OggS");
    reveal_strlit("fLaC");
    reveal_strlit("SQLite format 3");
    reveal_strlit("asm");
    let t = signature_table();
    assert(seq![0x89u8] + latin1("PNG"@) + seq![0x0Du8, 0x0Au8, 0x1Au8, 0x0Au8] =~= t[0].parts[0].1);
    if has_at(bytes, 0, t[0].parts[0].1) { lemma_one_part_matches(bytes, 0, 0, t[0].parts[0].1); }
    if has_at(bytes, 0, t[1].parts[0].1) { lemma_one_part_matches(bytes, 1, 0, t[1].parts[0].1); }
    assert(latin1("GIF8"@) =~= t[2].parts[0].1);
    if has_at(bytes, 0, t[2].parts[0].1) { lemma_one_part_matches(bytes, 2, 0, t[2].parts[0].1); }
    assert(latin1("BM"@) =~= t[3].parts[0].1);
    if has_at(bytes, 0, t[3].parts[0].1) { lemma_one_part_matches(bytes, 3, 0, t[3].parts[0].1); }
    assert(latin1("%PDF-"@) =~= t[4].parts[0].1);
    if has_at(bytes, 0, t[4].parts[0].1) { lemma_one_part_matches(bytes, 4, 0, t[4].parts[0].1); }
    assert(seq![0x7Fu8] + latin1("ELF"@) =~= t[5].parts[0].1);
    if has_at(bytes, 0, t[5].parts[0].1) { lemma_one_part_matches(bytes, 5, 0, t[5].parts[0].1); }
    assert(latin1("MZ"@) =~= t[6].parts[0].1);
    if has_at(bytes, 0, t[6].parts[0].1) { lemma_one_part_matches(bytes, 6, 0, t[6].parts[0].1); }
    assert(latin1("PK"@) + seq![0x03u8, 0x04u8] =~= t[7].parts[0].1);
    if has_at(bytes, 0, t[7].parts[0].1) { lemma_one_part_matches(bytes, 7, 0, t[7].parts[0].1); }
    if has_at(bytes, 0, t[8].parts[0].1) { lemma_one_part_matches(bytes, 8, 0, t[8].parts[0].1); }
    assert(latin1("7z"@) + seq![0xBCu8, 0xAFu8, 0x27u8, 0x1Cu8] =~= t[9].parts[0].1);
    if has_at(bytes, 0, t[9].parts[0].1) { lemma_one_part_matches(bytes, 9, 0, t[9].parts[0].1); }
    assert(latin1("Rar!"@) + seq![0x1Au8, 0x07u8] =~= t[10].parts[0].1);
    if has_at(bytes, 0, t[10].parts[0].1) { lemma_one_part_matches(bytes, 10, 0, t[10].parts[0].1); }
    assert(latin1("ustar"@) =~= t[11].parts[0].1);
    if has_at(bytes, 257, t[11].parts[0].1) { lemma_one_part_matches(bytes, 11, 257, t[11].parts[0].1); }
    reveal_strlit("RIFF");
    reveal_strlit("WAVE");
    reveal_strlit("AVI ");
    assert(latin1("RIFF"@) =~= t[12].parts[0].1);
    assert(latin1("WAVE"@) =~= t[12].parts[1].1);
    assert(latin1("RIFF"@) =~= t[13].parts[0].1);
    assert(latin1("AVI "@) =~= t[13].parts[1].1);
    if has_at(bytes, 0, t[12].parts[0].1) && has_at(bytes, 8, t[12].parts[1].1) {
        lemma_two_parts_match(bytes, 12, 0, t[12].parts[0].1, 8, t[12].parts[1].1);
    }
    if has_at(bytes, 0, t[13].parts[0].1) && has_at(bytes, 8, t[13].parts[1].1) {
        lemma_two_parts_match(bytes, 13, 0, t[13].parts[0].1, 8, t[13].parts[1].1);
    }
    assert(latin1("ID3"@) =~= t[14].parts[0].1);
    if has_at(bytes, 0, t[14].parts[0].1) { lemma_one_part_matches(bytes, 14, 0, t[14].parts[0].1); }
    assert(latin1("OggS"@) =~= t[15].parts[0].1);
    if has_at(bytes, 0, t[15].parts[0].1) { lemma_one_part_matches(bytes, 15, 0, t[15].parts[0].1); }
    assert(latin1("fLaC"@) =~= t[16].parts[0].1);
    if has_at(bytes, 0, t[16].parts[0].1) { lemma_one_part_matches(bytes, 16, 0, t[16].parts[0].1); }
    assert(latin1("SQLite format 3"@) + seq![0x00u8] =~= t[17].parts[0].1);
    if has_at(bytes, 0, t[17].parts[0].1) { lemma_one_part_matches(bytes, 17, 0, t[17].parts[0].1); }
    assert(seq![0x00u8] + latin1("asm"@) =~= t[18].parts[0].1);
    if has_at(bytes, 0, t[18].parts[0].1) { lemma_one_part_matches(bytes, 18, 0, t[18].parts[0].1); }
    if has_at(bytes, 0, t[19].parts[0].1) { lemma_one_part_matches(bytes, 19, 0, t[19].parts[0].1); }
}

/// The detection a signature reports.
pub open spec fn reports(d: Detection, s: SigModel) -> bool {
    d.format@ == s.format && d.extension@ == s.extension && d.description@ == s.description && d.confidence
        == s.confidence
}

impl Signature {
    fn matches(&self, bytes: &[u8]) -> (b: bool)
        ensures
            b == sig_matches(sig_view(*self), bytes@),
    {
        let mut k: usize = 0;
        while k < self.parts.len()
            invariant
                k <= self.parts@.len(),
                forall|j: int| 0 <= j < k ==> {
                    let (offset, magic) = #[trigger] sig_view(*self).parts[j];
                    offset + magic.len() <= bytes@.len() && bytes@.subrange(offset as int, offset + magic.len()) == magic
                },
            decreases self.parts@.len() - k,
        {
            let offset = self.parts[k].0;
            let magic = &self.parts[k].1;
            assert(sig_view(*self).parts[k as int] == (offset, magic@));
            if offset > bytes.len() || magic.len() > bytes.len() - offset {
                return false;
            }
            let blen = bytes.len();
            let mut m: usize = 0;
            while m < magic.len()
                invariant
                    k < self.parts@.len(),
                    blen == bytes@.len(),
                    sig_view(*self).parts[k as int] == (offset, magic@),
                    m <= magic@.len(),
                    offset + magic@.len() <= bytes@.len(),
                    forall|j: int| 0 <= j < m ==> bytes@[offset + j] == magic@[j],
                decreases magic@.len() - m,
            {
                if bytes[offset + m] != magic[m] {
                    assert(bytes@.subrange(offset as int, offset + magic@.len())[m as int] != magic@[m as int]);
                    return false;
                }
                m += 1;
            }
            assert(bytes@.subrange(offset as int, offset + magic@.len()) =~= magic@);
            k += 1;
        }
        true
    }

    /// Total signature bytes, used to rank specificity.
    fn magic_len(&self) -> (n: usize)
        requires
            magic_len(sig_view(*self).parts) <= usize::MAX,
        ensures
            n == magic_len(sig_view(*self).parts),
    {
        let ghost parts = sig_view(*self).parts;
        let mut n: usize = 0;
        let mut k: usize = 0;
        while k < self.parts.len()
            invariant
                k <= self.parts@.len(),
                parts == sig_view(*self).parts,
                n == magic_len(parts.take(k as int)),
                magic_len(parts) <= usize::MAX,
            decreases self.parts@.len() - k,
        {
            proof {
                assert(parts.take(k + 1).drop_last() =~= parts.take(k as int));
                lemma_magic_len_prefix(parts, k + 1);
            }
            n = n + self.parts[k].1.len();
            k += 1;
        }
        assert(parts.take(parts.len() as int) =~= parts);
        n
    }
}

proof fn lemma_magic_len_prefix(parts: Seq<(usize, Seq<u8>)>, k: int)
    requires
        0 <= k <= parts.len(),
    ensures
        magic_len(parts.take(k)) <= magic_len(parts),
    decreases parts.len(),
{
    if k < parts.len() {
        assert(parts.drop_last().take(k) =~= parts.take(k));
        lemma_magic_len_prefix(parts.drop_last(), k);
    } else {
        assert(parts.take(k) =~= parts);
    }
}

/// Whether a signature with confidence `conf` and magic length `len` ranks
/// ahead of entry `o` on confidence or length.
fn outranks(conf: u8, len: usize, sigs: &Vec<Signature>, o: usize) -> (b: bool)
    requires
        o < sigs@.len(),
        magic_len(sig_view(sigs@[o as int]).parts) <= 32,
    ensures
        b == (conf > sig_view(sigs@[o as int]).confidence || (conf == sig_view(sigs@[o as int]).confidence
            && len > magic_len(sig_view(sigs@[o as int]).parts))),
{
    let oc = sigs[o].confidence;
    let ol = sigs[o].magic_len();
    conf > oc || (conf == oc && len > ol)
}

proof fn lemma_insert_sorted(t: Seq<SigModel>, before: Seq<usize>, p: int, i: usize)
    requires
        0 <= p <= before.len(),
        forall|k: int, l: int| 0 <= k < l < before.len() ==> ranks_before(t, #[trigger] before[k] as int, #[trigger] before[l] as int),
        forall|q: int| 0 <= q < p ==> ranks_before(t, #[trigger] before[q] as int, i as int),
        p < before.len() ==> ranks_before(t, i as int, before[p] as int),
    ensures
        forall|k: int, l: int| 0 <= k < l < before.insert(p, i).len() ==> ranks_before(t, #[trigger] before.insert(p, i)[k] as int, #[trigger] before.insert(p, i)[l] as int),
{
    let after = before.insert(p, i);
    assert forall|k: int, l: int| 0 <= k < l < after.len() implies ranks_before(t, #[trigger] after[k] as int, #[trigger] after[l] as int) by {
        if l < p {
            assert(after[k] == before[k] && after[l] == before[l]);
        } else if l == p {
            assert(after[k] == before[k]);
        } else if k == p {
            assert(after[l] == before[l - 1]);
            if l - 1 > p {
                assert(ranks_before(t, before[p] as int, before[l - 1] as int));
            }
        } else if k < p {
            assert(after[k] == before[k] && after[l] == before[l - 1]);
        } else {
            assert(after[k] == before[k - 1] && after[l] == before[l - 1]);
        }
    }
}

/// Every signature's magic is short.
proof fn lemma_table_magic_short()
    ensures
        forall|i: int| 0 <= i < signature_table().len() ==> #[trigger] magic_len(signature_table()[i].parts) <= 32,
{
    let t = signature_table();
    assert forall|i: int| 0 <= i < t.len() implies #[trigger] magic_len(t[i].parts) <= 32 by {
        reveal_with_fuel(magic_len, 3);
    }
}

/// Detect which known formats the given bytes match: the head of a file is
/// enough (the deepest signature ends at offset 262). Results come most
/// confident first, then by signature specificity.
pub fn detect(bytes: &[u8]) -> (r: Vec<Detection>)
    ensures
        exists|order: Seq<int>|
            #![trigger detection_order(bytes@, order)]
            detection_order(bytes@, order) && r@.len() == order.len() && forall|k: int|
                0 <= k < order.len() ==> reports(#[trigger] r@[k], signature_table()[order[k]]),
{
    let sigs = signatures();
    let ghost t = signature_table();
    proof {
        lemma_table_magic_short();
        assert forall|i: int| 0 <= i < sigs@.len() implies sig_view(#[trigger] sigs@[i]) == t[i] by {
            assert(sigs@.map_values(|s: Signature| sig_view(s))[i] == t[i]);
        }
    }
    let mut order: Vec<usize> = Vec::new();
    let mut i: usize = 0;
    while i < sigs.len()
        invariant
            t == signature_table(),
            sigs@.len() == t.len(),
            forall|j: int| 0 <= j < sigs@.len() ==> sig_view(#[trigger] sigs@[j]) == t[j],
            forall|j: int| 0 <= j < t.len() ==> #[trigger] magic_len(t[j].parts) <= 32,
            i <= sigs@.len(),
            forall|k: int| 0 <= k < order@.len() ==> (#[trigger] order@[k] as int) < i && sig_matches(t[order@[k] as int], bytes@),
            forall|j: int| 0 <= j < i && sig_matches(t[j], bytes@) ==> order@.contains(j as usize),
            forall|k: int, l: int| 0 <= k < l < order@.len() ==> ranks_before(t, #[trigger] order@[k] as int, #[trigger] order@[l] as int),
        decreases sigs@.len() - i,
    {
        if sigs[i].matches(bytes) {
            let conf = sigs[i].confidence;
            let len = sigs[i].magic_len();
            let mut p: usize = 0;
            while p < order.len() && !outranks(conf, len, &sigs, order[p])
                invariant
                    t == signature_table(),
                    sigs@.len() == t.len(),
                    forall|j: int| 0 <= j < sigs@.len() ==> sig_view(#[trigger] sigs@[j]) == t[j],
                    forall|j: int| 0 <= j < t.len() ==> #[trigger] magic_len(t[j].parts) <= 32,
                    i < sigs@.len(),
                    conf == t[i as int].confidence,
                    len == magic_len(t[i as int].parts),
                    p <= order@.len(),
                    forall|k: int| 0 <= k < order@.len() ==> (#[trigger] order@[k] as int) < i,
                    forall|q: int| 0 <= q < p ==> ranks_before(t, #[trigger] order@[q] as int, i as int),
                decreases order@.len() - p,
            {
                p += 1;
            }
            let ghost before = order@;
            order.insert(p, i);
            proof {
                lemma_insert_sorted(t, before, p as int, i);
                assert forall|j: int| 0 <= j < i + 1 && sig_matches(t[j], bytes@) implies order@.contains(j as usize) by {
                    if j < i {
                        let w = choose|w: int| 0 <= w < before.len() && before[w] == j as usize;
                        if w < p {
                            assert(order@[w] == j as usize);
                        } else {
                            assert(order@[w + 1] == j as usize);
                        }
                    } else {
                        assert(order@[p as int] == i);
                    }
                }
                assert forall|k: int| 0 <= k < order@.len() implies (#[trigger] order@[k] as int) < i + 1 && sig_matches(t[order@[k] as int], bytes@) by {
                    if k < p {
                        assert(order@[k] == before[k]);
                    } else if k > p {
                        assert(order@[k] == before[k - 1]);
                    }
                }
            }
        } else {
            proof {
                assert forall|j: int| 0 <= j < i + 1 && sig_matches(t[j], bytes@) implies order@.contains(j as usize) by {
                    if j == i {
                        assert(sig_view(sigs@[i as int]) == t[i as int]);
                    }
                }
            }
        }
        i += 1;
    }
    let mut out: Vec<Detection> = Vec::new();
    let mut k: usize = 0;
    while k < order.len()
        invariant
            t == signature_table(),
            sigs@.len() == t.len(),
            forall|j: int| 0 <= j < sigs@.len() ==> sig_view(#[trigger] sigs@[j]) == t[j],
            forall|q: int| 0 <= q < order@.len() ==> (#[trigger] order@[q] as int) < t.len(),
            k <= order@.len(),
            out@.len() == k,
            forall|q: int| 0 <= q < k ==> reports(#[trigger] out@[q], t[order@[q] as int]),
        decreases order@.len() - k,
    {
        let s = &sigs[order[k]];
        out.push(Detection {
            format: s.format,
            extension: s.extension,
            description: s.description,
            confidence: s.confidence,
        });
        k += 1;
    }
    proof {
        let ord = order@.map_values(|x: usize| x as int);
        assert(detection_order(bytes@, ord)) by {
            assert forall|j: int| 0 <= j < t.len() && sig_matches(t[j], bytes@) implies ord.contains(j) by {
                let w = choose|w: int| 0 <= w < order@.len() && order@[w] == j as usize;
                assert(ord[w] == j);
            }
        }
        assert(forall|q: int| 0 <= q < ord.len() ==> reports(#[trigger] out@[q], t[ord[q]]));
    }
    out
}

} // verus!
