use nybble::editing::{EditBuffer, EditError};
use nybble::library::{header, parse_metadata, Metadata};
use nybble::licensing::{current_tier, require, status, Feature, Tier};

#[test]
fn undo_reverts_a_set_and_redo_reapplies_it() {
    let base = vec![1u8, 2, 3, 4, 5];
    let mut buf = EditBuffer::new(base.len());
    buf.set_bytes(1, &[9, 9]).unwrap();
    let after_first = buf.materialize(&base);
    buf.set_bytes(2, &[7, 7]).unwrap();
    let after_second = buf.materialize(&base);
    assert_eq!(after_second, vec![1, 9, 7, 7, 5]);
    assert!(buf.undo());
    assert_eq!(buf.materialize(&base), after_first);
    assert!(buf.redo());
    assert_eq!(buf.materialize(&base), after_second);
    assert!(buf.undo());
    assert!(buf.undo());
    assert_eq!(buf.materialize(&base), base);
    assert!(!buf.is_dirty());
}

#[test]
fn read_after_set_sees_the_written_bytes() {
    let base = vec![0u8; 6];
    let mut buf = EditBuffer::new(6);
    buf.set_bytes(4, &[0xAB, 0xCD]).unwrap();
    assert_eq!(buf.read_with_edits(&base, 3, 3), vec![0, 0xAB, 0xCD]);
    assert_eq!(buf.overridden(5), Some(0xCD));
    assert_eq!(buf.overridden(0), None);
}

#[test]
fn refused_edits_change_nothing() {
    let mut buf = EditBuffer::new(3);
    buf.set_bytes(0, &[1]).unwrap();
    assert_eq!(buf.set_bytes(2, &[1, 2]), Err(EditError::OutOfBounds));
    assert_eq!(buf.dirty_count(), 1);
    assert!(buf.can_undo());
    assert_eq!(EditError::OutOfBounds.message(), "edit extends past the end of the file");
}

#[test]
fn apply_window_overlays_edits() {
    let mut buf = EditBuffer::new(8);
    buf.set_bytes(5, &[0xEE]).unwrap();
    let mut window = vec![0u8; 4];
    buf.apply_window(&mut window, 3);
    assert_eq!(window, vec![0, 0, 0xEE, 0]);
    buf.clear();
    assert!(!buf.is_dirty() && !buf.can_undo() && !buf.can_redo());
}

#[test]
fn header_survives_a_round_trip() {
    let meta = Metadata {
        name: "Thing".to_string(),
        entry: "Top".to_string(),
        endian: "le".to_string(),
        description: "what it is".to_string(),
    };
    assert_eq!(parse_metadata(&header(&meta)), meta);
}

#[test]
fn everything_is_free_for_now() {
    assert_eq!(current_tier(), Tier::Free);
    assert!(Tier::Free.allows(Feature::Plugins));
    assert!(require(Feature::Registry).is_ok());
    assert!(require(Feature::CommercialUse).is_ok());
    let s = status();
    assert_eq!(s.tier, Tier::Free);
    assert!(s.plugins && s.registry && s.commercial_use);
}
