use nybble::catalog::{
    builtin_loaded, entry_from_meta, library_entries, loaded_schema, parse_schema_id, plugin_filename, plugin_schema,
    slugify, SchemaId, UserSchema,
};
use nybble::detection::detect;
use nybble::editing::EditBuffer;
use nybble::installed::{
    broken_plugin_info, check_plugin, plugin_info, plugin_list, plugin_pack, sort_plugins, toml_basic, BadPlugin,
    LoadedPlugin,
};
use nybble::library::Metadata;
use nybble::plugin::{DetectPart, FormatDef, PluginManifest};
use nybble::reader::{BinaryReader, Endian};
use nybble::session::{
    edit_request, is_registry_path, numbers, read_edited, read_window, removable_user_file, scan_strings,
    builtin_schema, detect_format, edit_status_of, endian_of, entry_point, field_bytes, is_bare_file_name,
    offset_index, search_needle, search_offsets, window_len,
};

fn format(name: &str, confidence: u8, hex: &str, schema: &str) -> FormatDef {
    FormatDef {
        name: name.to_string(),
        extension: "ext".to_string(),
        description: format!("{name} format"),
        confidence,
        detect: if hex.is_empty() { Vec::new() } else { vec![DetectPart { offset: 0, hex: hex.to_string() }] },
        entry: "Root".to_string(),
        endian: "be".to_string(),
        schema: schema.to_string(),
    }
}

fn loaded(id: &str, name: &str, enabled: bool, formats: Vec<FormatDef>) -> LoadedPlugin {
    LoadedPlugin {
        manifest: PluginManifest {
            id: id.to_string(),
            name: name.to_string(),
            version: "1.0.0".to_string(),
            description: String::new(),
            author: "me".to_string(),
            formats,
        },
        file: format!("{id}.toml"),
        enabled,
    }
}

#[test]
fn slugify_makes_safe_file_names() {
    assert_eq!(slugify("My Format!"), "my-format.schema");
    assert_eq!(slugify("  PNG -- image  "), "png-image.schema");
    assert_eq!(slugify("---"), "schema.schema");
    assert_eq!(slugify(""), "schema.schema");
    assert_eq!(plugin_filename("com.example.TGA"), "com-example-tga.toml");
    assert_eq!(plugin_filename("!!"), "plugin.toml");
}

#[test]
fn toml_basic_escapes() {
    assert_eq!(toml_basic("plain"), "\"plain\"");
    assert_eq!(toml_basic("a\"b\\c\n\r\t"), "\"a\\\"b\\\\c\\n\\r\\t\"");
}

#[test]
fn entries_fall_back_to_the_file_name() {
    let meta = Metadata {
        name: String::new(),
        entry: "E".to_string(),
        endian: "le".to_string(),
        description: "d".to_string(),
    };
    let e = entry_from_meta("user:x.schema".to_string(), "user", &meta, "x");
    assert_eq!((e.id.as_str(), e.name.as_str(), e.entry.as_str(), e.source.as_str()), ("user:x.schema", "x", "E", "user"));
    let l = loaded_schema("// @name Named\nstruct A {}".to_string(), "fallback");
    assert_eq!(l.name, "Named");
    assert_eq!(l.endian, "le");
    let l = loaded_schema("struct A {}".to_string(), "fallback");
    assert_eq!(l.name, "fallback");
}

#[test]
fn schema_ids_are_read_by_prefix() {
    match parse_schema_id("plugin:com.x:FMT:v2").unwrap() {
        SchemaId::Plugin { plugin, format } => assert_eq!((plugin.as_str(), format.as_str()), ("com.x", "FMT:v2")),
        other => panic!("got {other:?}"),
    }
    assert!(matches!(parse_schema_id("builtin:png").unwrap(), SchemaId::Builtin(k) if k == "png"));
    assert!(matches!(parse_schema_id("user:a.schema").unwrap(), SchemaId::User(f) if f == "a.schema"));
    assert_eq!(parse_schema_id("plugin:nocolon").unwrap_err(), "malformed plugin schema id");
    assert_eq!(parse_schema_id("other:x").unwrap_err(), "unknown schema id `other:x`");
}

#[test]
fn plugin_and_builtin_schemas_load() {
    let plugins = vec![loaded("p1", "One", false, vec![format("A", 50, "", "struct Root {}")])];
    let l = plugin_schema(&plugins, "p1", "A").unwrap();
    assert_eq!((l.name.as_str(), l.entry.as_str(), l.text.as_str()), ("A", "Root", "struct Root {}"));
    assert_eq!(plugin_schema(&plugins, "p2", "A").unwrap_err(), "no plugin `p2`");
    assert_eq!(plugin_schema(&plugins, "p1", "B").unwrap_err(), "plugin `p1` has no format `B`");
    let builtins = vec![("png".to_string(), "// @entry PNG\n// @endian be\nstruct PNG {}".to_string())];
    let b = builtin_loaded(&builtins, "png").unwrap();
    assert_eq!((b.name.as_str(), b.entry.as_str(), b.endian.as_str()), ("png", "PNG", "be"));
    assert_eq!(builtin_loaded(&builtins, "bmp").unwrap_err(), "no built-in schema `bmp`");
}

#[test]
fn library_lists_builtins_then_sorted_user_then_plugins() {
    let builtins = vec![("png".to_string(), "// @name PNG image\nstruct PNG {}".to_string())];
    let user = vec![
        UserSchema { file: "b.schema".to_string(), stem: "b".to_string(), text: "// @name zeta\n".to_string() },
        UserSchema { file: "a.schema".to_string(), stem: "Alpha".to_string(), text: String::new() },
    ];
    let plugins = vec![
        loaded("on", "On", true, vec![format("F", 50, "", "")]),
        loaded("off", "Off", false, vec![format("G", 50, "", "")]),
    ];
    let entries = library_entries(&builtins, user, &plugins);
    let ids: Vec<&str> = entries.iter().map(|e| e.id.as_str()).collect();
    assert_eq!(ids, vec!["builtin:png", "user:a.schema", "user:b.schema", "plugin:on:F"]);
    let names: Vec<&str> = entries.iter().map(|e| e.name.as_str()).collect();
    assert_eq!(names, vec!["PNG image", "Alpha", "zeta", "F (On)"]);
    assert_eq!(entries[3].source, "plugin");
}

#[test]
fn plugin_listing_and_ordering() {
    let p = loaded("x", "X", true, vec![format("F", 80, "41", ""), format("G", 20, "", "")]);
    let info = plugin_info(&p);
    assert_eq!(info.formats.len(), 2);
    assert!(info.formats[0].detects);
    assert!(!info.formats[1].detects);
    assert!(info.error.is_none());
    let bad = broken_plugin_info(BadPlugin { file: "bad.toml".to_string(), error: "oops".to_string() });
    assert_eq!((bad.name.as_str(), bad.error.as_deref()), ("bad.toml", Some("oops")));
    let list = plugin_list(&vec![p], vec![BadPlugin { file: "z.toml".to_string(), error: "e".to_string() }]);
    assert_eq!(list.len(), 2);
    assert_eq!(list[1].file, "z.toml");
    let sorted = sort_plugins(vec![loaded("1", "beta", true, vec![]), loaded("2", "Alpha", true, vec![]), loaded("3", "alpha", true, vec![])]);
    let ids: Vec<&str> = sorted.iter().map(|p| p.manifest.id.as_str()).collect();
    assert_eq!(ids, vec!["2", "3", "1"]);
}

#[test]
fn install_checks_manifest_and_schemas() {
    let good = loaded("com.x", "X", true, vec![format("F", 50, "DE AD", "struct Root { a u8 }")]);
    assert_eq!(check_plugin(&good.manifest).unwrap(), "com-x.toml");
    let bad = loaded("x", "X", true, vec![format("F", 50, "", "struct { nope")]);
    let err = check_plugin(&bad.manifest).unwrap_err();
    assert!(err.starts_with("format `F` has an invalid schema: expected"), "got {err}");
    let unnamed = loaded("x", "", true, vec![]);
    assert_eq!(check_plugin(&unnamed.manifest).unwrap_err(), "plugin `name` is required");
}

#[test]
fn export_produces_a_pack_with_defaults() {
    let schema = "struct Foo {\n    magic bytes[4] \"file magic (DEAD)\"\n    n     u32      \"a count\"\n}\n";
    let text = plugin_pack(
        "foo", "Foo format", "", "Tester", "a test format", "FOO", "foo", "Foo", "le", 90, 0, "DE AD BE EF", schema,
    )
    .unwrap();
    let expected = format!(
        "id = \"foo\"\nname = \"Foo format\"\nversion = \"1.0.0\"\ndescription = \"a test format\"\nauthor = \"Tester\"\n\n[[formats]]\nname = \"FOO\"\nextension = \"foo\"\ndescription = \"a test format\"\nconfidence = 90\nentry = \"Foo\"\nendian = \"le\"\ndetect = [{{ offset = 0, hex = \"DE AD BE EF\" }}]\nschema = '''\n{schema}'''\n"
    );
    assert_eq!(text, expected);
}

#[test]
fn export_rejects_broken_input() {
    let ok_schema = "struct A { x u8 }";
    let err = plugin_pack("bad", "Bad", "1.0.0", "", "", "BAD", "", "", "le", 90, 0, "", "struct { this is not valid");
    assert!(err.unwrap_err().starts_with("schema does not parse: "));
    let e = |id: &str, fname: &str, conf: u8, hex: &str, schema: &str| {
        plugin_pack(id, "N", "", "", "", fname, "", "", "be", conf, 3, hex, schema).unwrap_err()
    };
    assert_eq!(e("  ", "F", 1, "", ok_schema), "a format id is required");
    assert_eq!(e("Bad_Id", "F", 1, "", ok_schema), "id must be a lowercase slug (letters, digits, hyphens)");
    assert_eq!(e("-x", "F", 1, "", ok_schema), "id must be a lowercase slug (letters, digits, hyphens)");
    assert_eq!(e("x", " ", 1, "", ok_schema), "a format name is required");
    assert_eq!(e("x", "F", 101, "", ok_schema), "confidence must be 0..=100");
    assert_eq!(e("x", "F", 1, "", "struct A { x u8 \"'''\" }"), "schema text cannot contain ''' ");
    assert_eq!(e("x", "F", 1, "ABC", ok_schema), "detect hex must be pairs of hex digits (e.g. FF D8 FF)");
    let text = plugin_pack("x", "N", "", "", "", "F", "", "", "be", 7, 3, "", ok_schema).unwrap();
    assert!(text.contains("endian = \"be\"\n"));
    assert!(!text.contains("detect"));
    assert!(text.ends_with("schema = '''\nstruct A { x u8 }\n'''\n"));
}

#[test]
fn windows_and_offsets() {
    assert_eq!(offset_index(42), Ok(42));
    assert_eq!(window_len(100, 90, 16), 10);
    assert_eq!(window_len(100, 10, 16), 16);
    assert_eq!(window_len(100, 100, 16), 0);
    assert_eq!(window_len(100, 200, 16), 0);
}

#[test]
fn search_queries_become_needles() {
    assert_eq!(search_needle("hex", "DE AD", None, None).unwrap(), vec![0xDE, 0xAD]);
    assert_eq!(search_needle("text", "Hi", None, None).unwrap(), b"Hi".to_vec());
    assert_eq!(search_needle("utf16", "Hi", None, None).unwrap(), vec![b'H', 0, b'i', 0]);
    assert_eq!(search_needle("value", "258", Some(2), Some("be")).unwrap(), vec![1, 2]);
    assert_eq!(search_needle("value", "258", Some(2), None).unwrap(), vec![2, 1]);
    assert_eq!(search_needle("value", "1", None, None).unwrap_err(), "value search needs a width");
    assert_eq!(search_needle("regex", "x", None, None).unwrap_err(), "unknown search kind: regex");
    assert_eq!(search_offsets(b"abcabc", b"bc"), vec![1, 4]);
    assert!(search_offsets(b"abc", b"").is_empty());
}

#[test]
fn edit_status_reports_dirty_offsets_in_order() {
    let mut edits = EditBuffer::new(16);
    edits.set_bytes(9, &[1, 2]).unwrap();
    edits.set_bytes(3, &[7]).unwrap();
    let s = edit_status_of(&edits);
    assert!(s.dirty && s.can_undo && !s.can_redo);
    assert_eq!(s.dirty_count, 3);
    assert_eq!(s.dirty_offsets, vec![3, 9, 10]);
    edits.undo();
    let s = edit_status_of(&edits);
    assert!(s.can_redo);
    assert_eq!(s.dirty_offsets, vec![9, 10]);
}

#[test]
fn schema_settings() {
    assert_eq!(endian_of("BE"), Endian::Big);
    assert_eq!(endian_of("be "), Endian::Little);
    assert_eq!(endian_of("le"), Endian::Little);
    let schema = nybble::parser::parse("struct First { a u8 } struct Second { b u8 }").unwrap();
    assert_eq!(entry_point(&schema, "  ").unwrap(), "First");
    assert_eq!(entry_point(&schema, "Second").unwrap(), "Second");
    let empty = nybble::parser::parse("").unwrap();
    assert_eq!(entry_point(&empty, "").unwrap_err(), "schema defines no structs");
}

#[test]
fn field_edits_encode_or_explain() {
    assert_eq!(field_bytes(2, "u", "be", "258"), Some(Ok(vec![1, 2])));
    assert_eq!(field_bytes(2, "u", "le", "258"), Some(Ok(vec![2, 1])));
    assert_eq!(field_bytes(1, "enum", "le", "1"), Some(Err("cannot edit a enum field".to_string())));
    assert_eq!(field_bytes(4, "f", "le", "1.5"), None);
}

#[test]
fn bare_file_names_only() {
    assert!(is_bare_file_name("my.schema"));
    assert!(!is_bare_file_name("../x"));
    assert!(!is_bare_file_name("a/b"));
    assert!(!is_bare_file_name("a\\b"));
    assert!(!is_bare_file_name("a..b"));
}

#[test]
fn detect_format_merges_builtin_and_plugin_hits() {
    let png = [0x89, b'P', b'N', b'G', 0x0D, 0x0A, 0x1A, 0x0A, 0, 0];
    let plugins = vec![
        loaded("a", "A", true, vec![format("PNG-ish", 100, "89 50", ""), format("Low", 10, "89", "")]),
        loaded("b", "B", false, vec![format("Hidden", 100, "89", "")]),
    ];
    let out = detect_format(&png, &plugins);
    let got: Vec<(&str, u8, &str)> = out.iter().map(|d| (d.format.as_str(), d.confidence, d.source.as_str())).collect();
    assert_eq!(got, vec![("PNG", 100, "builtin"), ("PNG-ish", 100, "plugin"), ("Low", 10, "plugin")]);
    assert_eq!(detect(&png).len(), 1);
}

#[test]
fn builtin_schema_prefers_bundled_then_plugins() {
    let builtins = vec![("png".to_string(), "struct PNG {}".to_string())];
    let plugins = vec![
        loaded("a", "A", false, vec![format("TGA", 50, "", "struct Off {}")]),
        loaded("b", "B", true, vec![format("TGA", 50, "", "struct On {}")]),
    ];
    let s = builtin_schema("PNG", &builtins, &plugins).unwrap();
    assert_eq!((s.text.as_str(), s.entry.as_str(), s.endian.as_str()), ("struct PNG {}", "PNG", "be"));
    let t = builtin_schema("TGA", &builtins, &plugins).unwrap();
    assert_eq!(t.text, "struct On {}");
    assert!(builtin_schema("BMP", &builtins, &plugins).is_none());
}

#[test]
fn removable_and_fetchable_paths() {
    assert_eq!(removable_user_file("user:a.schema").unwrap(), "a.schema");
    assert_eq!(removable_user_file("builtin:png").unwrap_err(), "only user schemas can be removed");
    assert_eq!(removable_user_file("user:../x").unwrap_err(), "invalid schema id");
    assert!(is_registry_path("formats/tga/plugin.toml"));
    assert!(!is_registry_path("formats/../plugin.toml"));
    assert!(!is_registry_path("formats//plugin.toml"));
    assert!(!is_registry_path("other/tga/plugin.toml"));
    assert!(!is_registry_path("formats/tga/plugin.json"));
}

#[test]
fn windows_are_edited_and_base64_encoded() {
    let reader = BinaryReader::from_bytes(b"Hello, world".to_vec());
    let mut edits = EditBuffer::new(reader.len());
    edits.set_bytes(0, b"J").unwrap();
    let w = read_window(&reader, &edits, 0, 5).unwrap();
    assert_eq!((w.offset, w.len, w.base64.as_str()), (0, 5, "SmVsbG8="));
    let w = read_window(&reader, &edits, 10, 100).unwrap();
    assert_eq!((w.len, w.base64.as_str()), (2, "bGQ="));
    assert_eq!(read_edited(&reader, &edits, 12, 4).unwrap(), Vec::<u8>::new());
    assert_eq!(
        read_edited(&reader, &edits, 13, 4).unwrap_err(),
        "out of bounds: requested 0 byte(s) at offset 13, but source is 12 byte(s)"
    );
    assert_eq!(edit_request(7, "AQI=").unwrap(), (7, vec![1, 2]));
    assert_eq!(edit_request(7, "A!==").unwrap_err(), "Invalid symbol 33, offset 1.");
    assert_eq!(edit_request(7, "AQI").unwrap_err(), "Invalid padding");
}

#[test]
fn integer_readings_of_a_window() {
    let n = numbers(vec![0xFF, 0xFF, 0xFF, 0x7F, 1]);
    assert_eq!(n.u8, Some(0xFF));
    assert_eq!(n.i8, Some(-1));
    assert_eq!(n.u16_le, Some(0xFFFF));
    assert_eq!(n.i32_le, Some(0x7FFF_FFFF));
    assert_eq!(n.i32_be, Some(-129));
    assert_eq!(n.u32_be, Some(0xFFFF_FF7F));
    assert_eq!(n.u64_le, None);
    let n = numbers(vec![]);
    assert_eq!((n.u8, n.u16_be), (None, None));
}

#[test]
fn string_scan_is_capped() {
    let mut bytes = Vec::new();
    for _ in 0..1100 {
        bytes.extend_from_slice(b"ab\xFF");
    }
    let hits = scan_strings(&bytes, 0);
    assert_eq!(hits.len(), 1000);
    assert_eq!(hits[999].offset, 999 * 3);
}

#[test]
fn exported_pack_without_final_newline_installs() {
    let schema = "struct Root {\n    a u8\n} // no final line break";
    let text = plugin_pack("my-pack", "Mine", "", "", "", "Mine", "", "", "le", 10, 0, "", schema).unwrap();
    assert!(text.ends_with("schema = '''\nstruct Root {\n    a u8\n} // no final line break\n'''\n"));
    let stored = format!("{schema}\n");
    let p = loaded("my-pack", "Mine", true, vec![format("Mine", 10, "", &stored)]);
    assert_eq!(check_plugin(&p.manifest).unwrap(), "my-pack.toml");
}
