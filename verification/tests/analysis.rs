//! Tests for the analysis heuristics: string scanning and offset guesses.

use nybble::analysis::{analyze_at, bucket_ranges, byte_histogram, find_strings, format_unix, Encoding};

#[test]
fn finds_ascii_string_among_binary() {
    let mut bytes = vec![0x00, 0x01, 0xFF];
    bytes.extend_from_slice(b"Player");
    bytes.extend_from_slice(&[0x00, 0x00]);
    let hits = find_strings(&bytes, 4);
    let ascii: Vec<_> = hits.iter().filter(|h| h.encoding == Encoding::Ascii).collect();
    assert_eq!(ascii.len(), 1);
    assert_eq!(ascii[0].text, "Player");
    assert_eq!(ascii[0].offset, 3);
    assert_eq!(ascii[0].len, 6);
}

#[test]
fn respects_min_length() {
    // "Hi" is length 2; with min_len 4 it should be ignored.
    let bytes = b"\x00Hi\x00wxyz\x00".to_vec();
    let hits = find_strings(&bytes, 4);
    let texts: Vec<&str> = hits.iter().map(|h| h.text.as_str()).collect();
    assert!(!texts.contains(&"Hi"));
    assert!(texts.contains(&"wxyz"));
}

#[test]
fn finds_utf16le_string() {
    // "OK" as UTF-16LE: 'O' 00 'K' 00
    let bytes = vec![b'O', 0, b'K', 0, b'!', 0];
    let hits = find_strings(&bytes, 2);
    let utf16: Vec<_> = hits.iter().filter(|h| h.encoding == Encoding::Utf16Le).collect();
    assert_eq!(utf16.len(), 1);
    assert_eq!(utf16[0].text, "OK!");
    assert_eq!(utf16[0].len, 6);
}

#[test]
fn no_strings_in_pure_binary() {
    let bytes = [0x00, 0x01, 0x02, 0xFE, 0xFF];
    assert!(find_strings(&bytes, 4).is_empty());
}

#[test]
fn guess_flags_a_string_start() {
    let bytes = b"Majd\x00\x00".to_vec();
    let guesses = analyze_at(&bytes, 0);
    assert!(guesses.iter().any(|g| g.label.contains("ASCII string") && g.detail.contains("Majd")));
}

#[test]
fn guess_flags_a_unix_timestamp() {
    // 1_700_000_000 = 2023-11-14 22:13:20 UTC, little-endian u32.
    let secs: u32 = 1_700_000_000;
    let bytes = secs.to_le_bytes().to_vec();
    let guesses = analyze_at(&bytes, 0);
    let ts = guesses.iter().find(|g| g.label.contains("Unix timestamp"));
    assert!(ts.is_some(), "expected a timestamp guess, got {guesses:?}");
    assert!(ts.unwrap().detail.starts_with("2023-11-14"), "got {:?}", ts.unwrap().detail);
}

#[test]
fn small_integers_are_not_called_timestamps() {
    let bytes = 42u32.to_le_bytes().to_vec();
    let guesses = analyze_at(&bytes, 0);
    assert!(guesses.iter().all(|g| !g.label.contains("Unix timestamp")));
}

#[test]
fn guess_flags_a_uuid() {
    // A v4 UUID: version nibble (byte 6 high) = 4.
    let bytes = [
        0x12, 0x34, 0x56, 0x78, 0x9a, 0xbc, 0x4d, 0xef, 0x81, 0x23, 0x45, 0x67, 0x89, 0xab, 0xcd,
        0xef,
    ];
    let guesses = analyze_at(&bytes, 0);
    let uuid = guesses.iter().find(|g| g.label.starts_with("UUID"));
    assert!(uuid.is_some(), "expected a UUID guess, got {guesses:?}");
    assert_eq!(uuid.unwrap().detail, "12345678-9abc-4def-8123-456789abcdef");
}

#[test]
fn analyze_past_end_is_empty_not_panic() {
    let bytes = [0u8; 2];
    assert!(analyze_at(&bytes, 100).is_empty());
}

#[test]
fn strings_come_sorted_by_offset_across_encodings() {
    // A UTF-16LE "AB" at 0, then an ASCII "wxyz" at 5.
    let bytes = vec![b'A', 0, b'B', 0, 0xFF, b'w', b'x', b'y', b'z'];
    let hits = find_strings(&bytes, 2);
    let got: Vec<(usize, usize, Encoding, &str)> =
        hits.iter().map(|h| (h.offset, h.len, h.encoding, h.text.as_str())).collect();
    assert_eq!(got, vec![(0, 4, Encoding::Utf16Le, "AB"), (5, 4, Encoding::Ascii, "wxyz")]);
}

#[test]
fn min_len_zero_counts_as_one() {
    // The lone "a" is both an ASCII run and (followed by 0x00) a UTF-16LE one.
    let hits = find_strings(b"\x00a\x00", 0);
    let got: Vec<(usize, usize, Encoding, &str)> =
        hits.iter().map(|h| (h.offset, h.len, h.encoding, h.text.as_str())).collect();
    assert_eq!(got, vec![(1, 1, Encoding::Ascii, "a"), (1, 2, Encoding::Utf16Le, "a")]);
}

#[test]
fn ascii_and_utf16_runs_are_both_reported() {
    // "a\0b\0" is an ASCII run "a", "b" and a UTF-16LE run "ab".
    let hits = find_strings(b"a\x00b\x00", 1);
    let got: Vec<(usize, Encoding, &str)> = hits.iter().map(|h| (h.offset, h.encoding, h.text.as_str())).collect();
    assert_eq!(got, vec![(0, Encoding::Ascii, "a"), (0, Encoding::Utf16Le, "ab"), (2, Encoding::Ascii, "b")]);
}

#[test]
fn guess_details_are_exact() {
    let guesses = analyze_at(b"Majd\x00", 0);
    assert_eq!(guesses[0].label, "ASCII string (4 chars)");
    assert_eq!(guesses[0].detail, "\"Majd\"");
    let secs: u32 = 1_700_000_000;
    let guesses = analyze_at(&secs.to_be_bytes(), 0);
    assert_eq!(guesses.len(), 1);
    assert_eq!(guesses[0].label, "Unix timestamp (u32 BE)");
    assert_eq!(guesses[0].detail, "2023-11-14 22:13:20 UTC");
}

#[test]
fn sixty_four_bit_timestamps_are_guessed() {
    let secs: u64 = 4_102_444_800; // 2100-01-01, the last plausible value
    let guesses = analyze_at(&secs.to_le_bytes(), 0);
    let ts: Vec<&str> = guesses.iter().map(|g| g.label.as_str()).collect();
    assert_eq!(ts, vec!["Unix timestamp (u64 LE, seconds)"]);
    assert_eq!(guesses[0].detail, "2100-01-01 00:00:00 UTC");
}

#[test]
fn uuid_version_outside_one_to_five_is_ignored() {
    let mut b = [0x11u8; 16];
    b[6] = 0x6d;
    assert!(analyze_at(&b, 0).iter().all(|g| !g.label.starts_with("UUID")));
    b[6] = 0x1d;
    let g = analyze_at(&b, 0);
    let uuid = g.iter().find(|g| g.label.starts_with("UUID")).unwrap();
    assert_eq!(uuid.label, "UUID (v1)");
}

#[test]
fn analyze_at_the_end_is_empty_and_offsets_shift() {
    assert!(analyze_at(b"abcd", 4).is_empty());
    let g = analyze_at(b"xxMajd", 2);
    assert_eq!(g[0].label, "ASCII string (4 chars)");
}

#[test]
fn unix_times_render_as_calendar_dates() {
    assert_eq!(format_unix(0), "1970-01-01 00:00:00 UTC");
    assert_eq!(format_unix(951_782_400), "2000-02-29 00:00:00 UTC");
    assert_eq!(format_unix(1_000_000_000), "2001-09-09 01:46:40 UTC");
    assert_eq!(format_unix(2_147_483_647), "2038-01-19 03:14:07 UTC");
}

#[test]
fn entropy_buckets_cover_every_byte() {
    assert!(bucket_ranges(0, 8).is_empty());
    assert!(bucket_ranges(3, 0).is_empty());
    assert_eq!(bucket_ranges(3, 10), vec![(0, 1), (1, 2), (2, 3)]);
    assert_eq!(bucket_ranges(10, 3), vec![(0, 3), (3, 6), (6, 10)]);
}

#[test]
fn byte_histogram_counts_each_value() {
    let counts = byte_histogram(&[1, 2, 2, 255, 2]);
    assert_eq!(counts.len(), 256);
    assert_eq!(counts[1], 1);
    assert_eq!(counts[2], 3);
    assert_eq!(counts[255], 1);
    assert_eq!(counts[0], 0);
}

