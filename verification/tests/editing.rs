use nybble::editing::{encode_value, EditBuffer, EditError, ValueKind};
use nybble::reader::Endian;

#[test]
fn set_and_read_back() {
    let base = vec![0u8; 8];
    let mut buf = EditBuffer::new(base.len());
    buf.set_bytes(2, &[0xAA, 0xBB]).unwrap();
    assert!(buf.is_dirty());
    assert_eq!(buf.dirty_count(), 2);
    let win = buf.read_with_edits(&base, 0, 8);
    assert_eq!(win, vec![0, 0, 0xAA, 0xBB, 0, 0, 0, 0]);
}

#[test]
fn overwrite_out_of_bounds_is_rejected() {
    let mut buf = EditBuffer::new(4);
    assert_eq!(buf.set_bytes(3, &[1, 2]), Err(EditError::OutOfBounds));
    assert!(!buf.is_dirty());
}

#[test]
fn undo_redo_round_trip() {
    let base = vec![0u8; 4];
    let mut buf = EditBuffer::new(4);
    buf.set_bytes(0, &[0x11]).unwrap();
    buf.set_bytes(1, &[0x22]).unwrap();
    assert!(buf.can_undo());
    assert!(buf.undo()); // revert the 0x22
    assert_eq!(buf.read_with_edits(&base, 0, 4), vec![0x11, 0, 0, 0]);
    assert!(buf.undo()); // revert the 0x11
    assert!(!buf.is_dirty());
    assert!(!buf.undo()); // nothing left
    assert!(buf.redo()); // reinstate 0x11
    assert_eq!(buf.read_with_edits(&base, 0, 4), vec![0x11, 0, 0, 0]);
}

#[test]
fn overlapping_edit_undo_restores_prior_override() {
    let base = vec![0u8; 4];
    let mut buf = EditBuffer::new(4);
    buf.set_bytes(0, &[0x11, 0x22]).unwrap();
    buf.set_bytes(1, &[0x99]).unwrap(); // overwrites the 0x22
    assert_eq!(buf.read_with_edits(&base, 0, 4), vec![0x11, 0x99, 0, 0]);
    buf.undo(); // should restore 0x22, not base 0x00
    assert_eq!(buf.read_with_edits(&base, 0, 4), vec![0x11, 0x22, 0, 0]);
}

#[test]
fn new_edit_clears_redo() {
    let mut buf = EditBuffer::new(4);
    buf.set_bytes(0, &[1]).unwrap();
    buf.undo();
    assert!(buf.can_redo());
    buf.set_bytes(0, &[2]).unwrap();
    assert!(!buf.can_redo());
}

#[test]
fn encode_unsigned_endianness() {
    let le = encode_value(ValueKind::Unsigned, 4, Endian::Little, "128").unwrap();
    assert_eq!(le, vec![0x80, 0, 0, 0]);
    let be = encode_value(ValueKind::Unsigned, 4, Endian::Big, "128").unwrap();
    assert_eq!(be, vec![0, 0, 0, 0x80]);
}

#[test]
fn encode_hex_input() {
    let v = encode_value(ValueKind::Unsigned, 2, Endian::Big, "0x00FF").unwrap();
    assert_eq!(v, vec![0x00, 0xFF]);
}

#[test]
fn encode_signed_negative_twos_complement() {
    let v = encode_value(ValueKind::Signed, 1, Endian::Little, "-1").unwrap();
    assert_eq!(v, vec![0xFF]);
    let v = encode_value(ValueKind::Signed, 2, Endian::Little, "-2").unwrap();
    assert_eq!(v, vec![0xFE, 0xFF]);
}

#[test]
fn encode_overflow_rejected() {
    assert!(encode_value(ValueKind::Unsigned, 1, Endian::Little, "256").is_err());
    assert!(encode_value(ValueKind::Signed, 1, Endian::Little, "128").is_err());
    assert!(encode_value(ValueKind::Unsigned, 1, Endian::Little, "-1").is_err());
}

#[test]
fn encode_string_pads_to_field() {
    let v = encode_value(ValueKind::Str, 5, Endian::Little, "Hi").unwrap();
    assert_eq!(v, vec![b'H', b'i', 0, 0, 0]);
    assert!(encode_value(ValueKind::Str, 2, Endian::Little, "toolong").is_err());
}

#[test]
fn materialize_applies_all_edits() {
    let base = vec![1u8, 2, 3, 4];
    let mut buf = EditBuffer::new(4);
    buf.set_bytes(1, &[0x20, 0x30]).unwrap();
    assert_eq!(buf.materialize(&base), vec![1, 0x20, 0x30, 4]);
}

#[test]
fn bool_and_char_fill_their_field() {
    assert_eq!(encode_value(ValueKind::Bool, 1, Endian::Little, "true").unwrap(), vec![1]);
    assert_eq!(encode_value(ValueKind::Bool, 4, Endian::Little, " TRUE ").unwrap(), vec![1, 0, 0, 0]);
    assert_eq!(encode_value(ValueKind::Bool, 4, Endian::Big, "1").unwrap(), vec![0, 0, 0, 1]);
    assert_eq!(encode_value(ValueKind::Bool, 2, Endian::Big, "false").unwrap(), vec![0, 0]);
    assert_eq!(encode_value(ValueKind::Char, 2, Endian::Little, "A").unwrap(), vec![0x41, 0]);
    assert_eq!(encode_value(ValueKind::Char, 1, Endian::Big, "A").unwrap(), vec![0x41]);
    assert_eq!(encode_value(ValueKind::Bool, 0, Endian::Little, "true").unwrap(), vec![1]);
    assert_eq!(encode_value(ValueKind::Char, 0, Endian::Big, "A").unwrap(), vec![0x41]);
    assert!(encode_value(ValueKind::Bool, 1, Endian::Little, "yes").is_err());
    for size in 0..6 {
        if let Ok(v) = encode_value(ValueKind::Str, size, Endian::Little, "ab") {
            assert_eq!(v.len(), size);
        }
    }
}
