use heartbeat_rs::error::HeartbeatError;
use heartbeat_rs::in_flight::{in_flight_file_for, sha256_hex, utc_now_iso8601, InFlightEntry};
use heartbeat_rs::paths::FilePath;
use heartbeat_rs::session_dir::{Effect, FileEntry, SessionDir};

fn make_dir() -> SessionDir {
    SessionDir::empty(FilePath::unix("/io/inbox.jsonl"))
}

#[test]
fn entry_id_is_sha256_of_raw_line() {
    let e = InFlightEntry::new("hello world", 0, 12);
    let expected = sha256_hex("hello world");
    assert_eq!(e.entry_id, expected);
}

#[test]
fn entry_id_stable_for_same_raw_line() {
    let e1 = InFlightEntry::new("same line", 0, 10);
    let e2 = InFlightEntry::new("same line", 0, 10);
    assert_eq!(e1.entry_id, e2.entry_id);
}

#[test]
fn entry_id_differs_for_different_raw_lines() {
    let e1 = InFlightEntry::new("line A", 0, 7);
    let e2 = InFlightEntry::new("line B", 0, 7);
    assert_ne!(e1.entry_id, e2.entry_id);
}

#[test]
fn round_trip_write_read() {
    let mut dir = make_dir();

    let original = InFlightEntry::new("test entry line", 0, 16);
    original.write_to(&mut dir);

    let read_back = InFlightEntry::read_from(&dir).unwrap().unwrap();
    assert_eq!(original.entry_id, read_back.entry_id);
    assert_eq!(original.start_offset, read_back.start_offset);
    assert_eq!(original.end_offset, read_back.end_offset);
    assert_eq!(original.raw_line, read_back.raw_line);
}

#[test]
fn read_from_missing_file_returns_none() {
    let dir = make_dir();
    let result = InFlightEntry::read_from(&dir).unwrap();
    assert!(result.is_none());
}

#[test]
fn is_stale_when_cursor_past_end_offset() {
    let e = InFlightEntry::new("line", 10, 15);
    assert!(e.is_stale(16));
    assert!(e.is_stale(100));
}

#[test]
fn is_not_stale_when_cursor_before_end_offset() {
    let e = InFlightEntry::new("line", 10, 15);
    assert!(!e.is_stale(14));
    assert!(!e.is_stale(10));
    assert!(!e.is_stale(0));
}

#[test]
fn is_stale_when_cursor_at_end_offset() {
    let e = InFlightEntry::new("line", 10, 15);
    assert!(e.is_stale(15));
}

#[test]
fn in_flight_file_for_places_in_same_dir() {
    let path = in_flight_file_for(&FilePath::unix("/some/dir/inbox.jsonl"));
    assert_eq!(path, FilePath::unix("/some/dir/.in-flight"));
}

#[test]
fn utc_timestamp_format_is_iso8601() {
    let ts = utc_now_iso8601();
    // YYYY-MM-DDTHH:MM:SSZ
    assert!(ts.ends_with('Z'), "timestamp must end with Z: {}", ts);
    assert_eq!(ts.len(), 20, "timestamp must be 20 chars: {}", ts);
    assert_eq!(&ts[4..5], "-");
    assert_eq!(&ts[7..8], "-");
    assert_eq!(&ts[10..11], "T");
}

#[test]
fn corrupt_in_flight_json_read_from_returns_in_flight_corrupt() {
    let mut dir = make_dir();
    // What a JSON parser says of "{not valid json at all".
    let source = serde_json::from_str::<serde_json::Value>("{not valid json at all").unwrap_err();
    dir.in_flight = FileEntry::Corrupt(source.to_string());

    let result = InFlightEntry::read_from(&dir);
    match result {
        Err(HeartbeatError::InFlightCorrupt { path: err_path, source: _ }) => {
            assert_eq!(
                err_path, "/io/.in-flight",
                "InFlightCorrupt path must be the .in-flight file path"
            );
        }
        other => panic!("expected Err(HeartbeatError::InFlightCorrupt), got {:?}", other),
    }
}

#[test]
fn empty_in_flight_file_returns_in_flight_corrupt() {
    let mut dir = make_dir();
    let source = serde_json::from_str::<serde_json::Value>("").unwrap_err();
    dir.in_flight = FileEntry::Corrupt(source.to_string());

    let result = InFlightEntry::read_from(&dir);
    match result {
        Err(HeartbeatError::InFlightCorrupt { .. }) => {}
        other => panic!(
            "expected Err(HeartbeatError::InFlightCorrupt) for empty file, got {:?}",
            other
        ),
    }
}

#[test]
fn unreadable_in_flight_is_an_error() {
    let mut dir = make_dir();
    dir.in_flight = FileEntry::Failed("permission denied".to_string());
    match InFlightEntry::read_from(&dir) {
        Err(HeartbeatError::InFlightRead { path, source }) => {
            assert_eq!(path, "/io/.in-flight");
            assert_eq!(source, "permission denied");
        }
        other => panic!("expected InFlightRead, got {:?}", other),
    }
}

#[test]
fn digests_are_those_of_sha256() {
    assert_eq!(
        sha256_hex(""),
        "e3b0c44298fc1c149afbf4c8996fb92427ae41e4649b934ca495991b7852b855"
    );
    assert_eq!(
        sha256_hex("abc"),
        "ba7816bf8f01cfea414140de5dae2223b00361a396177a9cb410ff61f20015ad"
    );
}

#[test]
fn a_record_holds_what_was_delivered_and_when() {
    let e = InFlightEntry::delivered("abc", 3, 7, 1_778_855_000);
    assert_eq!(
        e.entry_id,
        "ba7816bf8f01cfea414140de5dae2223b00361a396177a9cb410ff61f20015ad"
    );
    assert_eq!(e.start_offset, 3);
    assert_eq!(e.end_offset, 7);
    assert_eq!(e.raw_line, "abc");
    assert_eq!(e.delivered_at, "2026-05-15T14:23:20Z");
}

#[test]
fn the_identifier_does_not_depend_on_place_or_time() {
    let a = InFlightEntry::delivered("same", 0, 5, 0);
    let b = InFlightEntry::delivered("same", 100, 105, 1_000_000);
    assert_eq!(a.entry_id, b.entry_id);
}

#[test]
fn the_clock_is_read() {
    let entry = InFlightEntry::new("now", 0, 4);
    assert!(utc_now_iso8601().as_str() > "2024-01-01T00:00:00Z");
    assert!(entry.delivered_at.as_str() > "2024-01-01T00:00:00Z");
}

#[test]
fn writing_notes_the_effect() {
    let mut dir = make_dir();
    InFlightEntry::delivered("abc", 3, 7, 0).write_to(&mut dir);
    assert_eq!(dir.effects.len(), 1);
    match &dir.effects[0] {
        Effect::WriteInFlight(entry) => assert_eq!(entry.raw_line, "abc"),
        other => panic!("unexpected {:?}", other),
    }
}
