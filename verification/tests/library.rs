use nybble::library::{header, parse_metadata, with_header, Metadata};

#[test]
fn parses_all_fields() {
    let text = "// @name PNG image\n// @entry PNG\n// @endian be\n// @desc a header\n\nstruct PNG {}";
    let m = parse_metadata(text);
    assert_eq!(m.name, "PNG image");
    assert_eq!(m.entry, "PNG");
    assert_eq!(m.endian, "be");
    assert_eq!(m.description, "a header");
}

#[test]
fn endian_defaults_to_le_and_normalizes() {
    assert_eq!(parse_metadata("struct S {}").endian, "le");
    assert_eq!(parse_metadata("// @endian BE").endian, "be");
    assert_eq!(parse_metadata("// @endian nonsense").endian, "le");
}

#[test]
fn description_alias_and_missing_fields() {
    let m = parse_metadata("// @description hello");
    assert_eq!(m.description, "hello");
    assert_eq!(m.name, "");
    assert_eq!(m.entry, "");
}

#[test]
fn header_round_trips() {
    let meta = Metadata {
        name: "My Format".into(),
        entry: "Root".into(),
        endian: "be".into(),
        description: "desc".into(),
    };
    let round = parse_metadata(&header(&meta));
    assert_eq!(round, meta);
}

#[test]
fn with_header_replaces_existing_header() {
    let original = "// @name Old\n// @entry A\n// @endian le\n\nstruct A { x u8 }";
    let meta = Metadata {
        name: "New".into(),
        entry: "A".into(),
        endian: "le".into(),
        description: String::new(),
    };
    let out = with_header(&meta, original);
    assert!(out.contains("// @name New"));
    assert!(!out.contains("Old"));
    assert!(out.contains("struct A { x u8 }"));
    // Only one @name line survives.
    assert_eq!(out.matches("@name").count(), 1);
}

#[test]
fn a_replaced_header_reads_back_with_one_endian_line() {
    let m = Metadata {
        name: "Thing".to_string(),
        entry: "Root".to_string(),
        endian: " BE ".to_string(),
        description: "a thing".to_string(),
    };
    let body = "// @name Old\n// @endian le\n\nstruct Root { a u8 }\n";
    let out = with_header(&m, body);
    let back = parse_metadata(&out);
    assert_eq!(back.name, "Thing");
    assert_eq!(back.entry, "Root");
    assert_eq!(back.endian, "be");
    assert_eq!(back.description, "a thing");
    let h = header(&m);
    assert!(h.ends_with('\n'));
    assert_eq!(h.lines().filter(|l| l.starts_with("// @endian ")).count(), 1);
    assert_eq!(out.lines().filter(|l| l.starts_with("// @endian ")).count(), 1);
    assert!(out.ends_with("struct Root { a u8 }"));
}
