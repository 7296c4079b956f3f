use nybble::plugin::{parse_hex, DetectPart, FormatDef, PluginManifest};

fn format(name: &str, confidence: u8, detect: Vec<DetectPart>, entry: &str, endian: &str, schema: &str) -> FormatDef {
    FormatDef {
        name: name.to_string(),
        extension: String::new(),
        description: String::new(),
        confidence,
        detect,
        entry: entry.to_string(),
        endian: endian.to_string(),
        schema: schema.to_string(),
    }
}

fn manifest(id: &str, name: &str, formats: Vec<FormatDef>) -> PluginManifest {
    PluginManifest {
        id: id.to_string(),
        name: name.to_string(),
        version: String::new(),
        description: String::new(),
        author: String::new(),
        formats,
    }
}

/// The manifest of the sample `plugin.toml` (a PNG variant).
fn sample() -> PluginManifest {
    let mut f = format(
        "PNG2",
        90,
        vec![DetectPart { offset: 0, hex: "89 50 4E 47".to_string() }],
        "PNG",
        "be",
        "struct PNG { sig bytes[8] }",
    );
    f.extension = "png".to_string();
    f.description = "PNG magic".to_string();
    let mut m = manifest("com.example.png2", "PNG2 Plugin", vec![f]);
    m.version = "1.0.0".to_string();
    m.description = "a PNG variant".to_string();
    m.author = "tester".to_string();
    m
}

#[test]
fn detection_matches_on_magic() {
    let m = sample();
    let png = [0x89, 0x50, 0x4E, 0x47, 0x0D, 0x0A, 0x1A, 0x0A];
    let hits = m.matches(&png);
    assert_eq!(hits.len(), 1);
    assert_eq!(hits[0].name, "PNG2");

    // Wrong magic -> no match.
    assert!(m.matches(&[0, 1, 2, 3, 4, 5, 6, 7]).is_empty());
    // Too-short head -> no match, no panic.
    assert!(m.matches(&[0x89, 0x50]).is_empty());
}

#[test]
fn empty_detect_never_auto_matches() {
    let m = manifest("x", "X", vec![format("F", 75, Vec::new(), "", "le", "struct F { a u8 }")]);
    assert!(m.matches(&[0; 16]).is_empty());
}

#[test]
fn validate_catches_problems() {
    assert!(manifest("", "X", Vec::new()).validate().is_err());
    let bad_hex = manifest(
        "x",
        "X",
        vec![format("F", 75, vec![DetectPart { offset: 0, hex: "zz".to_string() }], "", "le", "struct F { a u8 }")],
    );
    assert!(bad_hex.validate().is_err());
}

#[test]
fn hex_parsing() {
    assert_eq!(parse_hex("89 50 4e 47").unwrap(), vec![0x89, 0x50, 0x4e, 0x47]);
    assert_eq!(parse_hex("FFD8FF").unwrap(), vec![0xFF, 0xD8, 0xFF]);
    assert!(parse_hex("abc").is_err()); // odd length
    assert!(parse_hex("zz").is_err()); // not hex
}

#[test]
fn validate_accepts_the_sample_and_names_the_missing_name() {
    assert!(sample().validate().is_ok());
    assert_eq!(manifest("x", "  ", Vec::new()).validate(), Err("plugin `name` is required".to_string()));
    assert_eq!(manifest(" ", "X", Vec::new()).validate(), Err("plugin `id` is required".to_string()));
}

#[test]
fn matches_orders_by_confidence_then_position() {
    let magic = || vec![DetectPart { offset: 0, hex: "41".to_string() }];
    let m = manifest(
        "x",
        "X",
        vec![
            format("Low", 10, magic(), "", "le", ""),
            format("High", 90, magic(), "", "le", ""),
            format("AlsoHigh", 90, magic(), "", "le", ""),
            format("Other", 99, vec![DetectPart { offset: 0, hex: "42".to_string() }], "", "le", ""),
        ],
    );
    let names: Vec<&str> = m.matches(b"A").iter().map(|f| f.name.as_str()).collect();
    assert_eq!(names, vec!["High", "AlsoHigh", "Low"]);
}

#[test]
fn format_finds_the_first_by_name() {
    let m = sample();
    assert_eq!(m.format("PNG2").unwrap().entry, "PNG");
    assert!(m.format("png2").is_none());
}
