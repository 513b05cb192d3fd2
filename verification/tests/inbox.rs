use heartbeat_rs::error::HeartbeatError;
use heartbeat_rs::in_flight::InFlightEntry;
use heartbeat_rs::inbox::{
    acknowledge, decode_line, offset_file_for, read_next_entry, read_offset, text_of_line,
    write_offset, InboxEntry,
};
use heartbeat_rs::paths::FilePath;
use heartbeat_rs::session_dir::{Effect, FileBytes, FileEntry, FileText, SessionDir};

fn make_dir() -> SessionDir {
    SessionDir::empty(FilePath::unix("/io/inbox.jsonl"))
}

fn write_bytes(dir: &mut SessionDir, content: &[u8]) {
    if let FileBytes::Bytes(bytes) = &mut dir.inbox {
        bytes.extend_from_slice(content);
    } else {
        dir.inbox = FileBytes::Bytes(content.to_vec());
    }
}

fn write_inbox(dir: &mut SessionDir, content: &str) {
    write_bytes(dir, content.as_bytes());
}

fn ack(dir: &mut SessionDir, entry: &InboxEntry) {
    acknowledge(dir, entry.end_offset).unwrap();
}

fn in_flight_exists(dir: &SessionDir) -> bool {
    !matches!(dir.in_flight, FileEntry::Missing)
}

#[test]
fn empty_inbox_returns_none() {
    let mut dir = make_dir();
    assert_eq!(read_next_entry(&mut dir).unwrap(), None);

    dir.inbox = FileBytes::Bytes(vec![]);
    assert_eq!(read_next_entry(&mut dir).unwrap(), None);
}

#[test]
fn single_line_with_newline() {
    let mut dir = make_dir();
    write_inbox(&mut dir, "hello world\n");

    let entry = read_next_entry(&mut dir).unwrap().unwrap();
    assert_eq!(entry.decoded, "hello world");
    assert_eq!(entry.raw_line, "hello world");
    assert_eq!(entry.start_offset, 0);
    assert_eq!(entry.end_offset, 12);

    let entry2 = read_next_entry(&mut dir).unwrap().unwrap();
    assert_eq!(entry2.decoded, "hello world");

    ack(&mut dir, &entry);
    let next = read_next_entry(&mut dir).unwrap();
    assert_eq!(next, None);
}

#[test]
fn single_line_without_newline() {
    let mut dir = make_dir();
    write_inbox(&mut dir, "partial write no newline");

    let entry = read_next_entry(&mut dir).unwrap().unwrap();
    assert_eq!(entry.decoded, "partial write no newline");
    assert_eq!(entry.start_offset, 0);
    assert_eq!(entry.end_offset, 24);

    ack(&mut dir, &entry);
    assert_eq!(read_next_entry(&mut dir).unwrap(), None);
}

#[test]
fn multiple_lines_consumed_in_order() {
    let mut dir = make_dir();
    write_inbox(&mut dir, "line one\nline two\nline three\n");

    let e1 = read_next_entry(&mut dir).unwrap().unwrap();
    assert_eq!(e1.decoded, "line one");
    ack(&mut dir, &e1);

    let e2 = read_next_entry(&mut dir).unwrap().unwrap();
    assert_eq!(e2.decoded, "line two");
    ack(&mut dir, &e2);

    let e3 = read_next_entry(&mut dir).unwrap().unwrap();
    assert_eq!(e3.decoded, "line three");
    ack(&mut dir, &e3);

    assert_eq!(read_next_entry(&mut dir).unwrap(), None);
}

#[test]
fn no_ack_means_same_entry_re_read() {
    let mut dir = make_dir();
    write_inbox(&mut dir, "important entry\n");

    for _ in 0..3 {
        let entry = read_next_entry(&mut dir).unwrap().unwrap();
        assert_eq!(entry.decoded, "important entry");
    }

    let entry = read_next_entry(&mut dir).unwrap().unwrap();
    ack(&mut dir, &entry);
    assert_eq!(read_next_entry(&mut dir).unwrap(), None);
}

#[test]
fn byte_offset_survives_append() {
    let mut dir = make_dir();
    write_inbox(&mut dir, "first\n");
    let e1 = read_next_entry(&mut dir).unwrap().unwrap();
    assert_eq!(e1.decoded, "first");
    ack(&mut dir, &e1);

    assert_eq!(read_next_entry(&mut dir).unwrap(), None);

    write_inbox(&mut dir, "second\n");
    let e2 = read_next_entry(&mut dir).unwrap().unwrap();
    assert_eq!(e2.decoded, "second");
    ack(&mut dir, &e2);
}

#[test]
fn json_encoded_multiline_is_decoded() {
    let mut dir = make_dir();
    let prompt = "line one\nline two\nline three";
    let encoded = serde_json::to_string(prompt).unwrap();
    write_inbox(&mut dir, &format!("{}\n", encoded));

    let entry = read_next_entry(&mut dir).unwrap().unwrap();
    assert_eq!(entry.decoded, prompt);
    assert_eq!(entry.raw_line, encoded);
    ack(&mut dir, &entry);
    assert_eq!(read_next_entry(&mut dir).unwrap(), None);
}

#[test]
fn json_encoded_messages_drain_in_order() {
    let mut dir = make_dir();
    let msg1 = "triage batch one\nwith multiple\nlines";
    let msg2 = "triage batch two\nalso multiline";
    write_inbox(&mut dir, &format!("{}\n", serde_json::to_string(msg1).unwrap()));
    write_inbox(&mut dir, &format!("{}\n", serde_json::to_string(msg2).unwrap()));

    let e1 = read_next_entry(&mut dir).unwrap().unwrap();
    assert_eq!(e1.decoded, msg1);
    ack(&mut dir, &e1);

    let e2 = read_next_entry(&mut dir).unwrap().unwrap();
    assert_eq!(e2.decoded, msg2);
    ack(&mut dir, &e2);

    assert_eq!(read_next_entry(&mut dir).unwrap(), None);
}

#[test]
fn plain_text_passthrough_unchanged() {
    let mut dir = make_dir();
    write_inbox(&mut dir, "plain message no encoding\n");

    let entry = read_next_entry(&mut dir).unwrap().unwrap();
    assert_eq!(entry.decoded, "plain message no encoding");
    ack(&mut dir, &entry);
}

#[test]
fn blank_lines_skipped_not_returned_as_none() {
    let mut dir = make_dir();
    write_inbox(&mut dir, "\n\nreal message\n\n");

    let entry = read_next_entry(&mut dir).unwrap().unwrap();
    assert_eq!(entry.decoded, "real message");
    ack(&mut dir, &entry);

    let next = read_next_entry(&mut dir).unwrap();
    assert_eq!(next, None);
}

#[test]
fn blank_lines_between_messages_skipped() {
    let mut dir = make_dir();
    write_inbox(&mut dir, "first\n\n\nsecond\n");

    let e1 = read_next_entry(&mut dir).unwrap().unwrap();
    assert_eq!(e1.decoded, "first");
    ack(&mut dir, &e1);

    let e2 = read_next_entry(&mut dir).unwrap().unwrap();
    assert_eq!(e2.decoded, "second");
    ack(&mut dir, &e2);

    assert_eq!(read_next_entry(&mut dir).unwrap(), None);
}

#[test]
fn offset_file_for_places_in_same_dir() {
    let offset = offset_file_for(&FilePath::unix("/some/dir/inbox.jsonl"));
    assert_eq!(offset, FilePath::unix("/some/dir/.inbox-offset"));
}

#[test]
fn acknowledge_advances_offset_and_removes_in_flight() {
    let mut dir = make_dir();
    // A live `.in-flight`, whatever it holds.
    dir.in_flight = FileEntry::Corrupt("missing field `entry_id`".to_string());

    acknowledge(&mut dir, 42).unwrap();

    let written = read_offset(&dir).unwrap().unwrap();
    assert_eq!(written, 42);
    assert!(!in_flight_exists(&dir), ".in-flight should be removed on ack");
}

#[test]
fn acknowledge_is_ok_if_in_flight_already_gone() {
    let mut dir = make_dir();
    acknowledge(&mut dir, 10).unwrap();
    assert_eq!(read_offset(&dir).unwrap().unwrap(), 10);
}

#[test]
fn invalid_utf8_before_newline_cursor_stays_aligned() {
    let mut dir = make_dir();
    write_bytes(&mut dir, b"hel\xFFlo\nworld\n");

    let e1 = read_next_entry(&mut dir).unwrap().unwrap();
    assert_eq!(e1.start_offset, 0);
    assert_eq!(e1.end_offset, 7, "consumed must be 7 bytes (6 content + 1 newline)");

    ack(&mut dir, &e1);

    let e2 = read_next_entry(&mut dir).unwrap().unwrap();
    assert_eq!(e2.start_offset, 7);
    assert_eq!(e2.decoded, "world");
    ack(&mut dir, &e2);

    assert_eq!(read_next_entry(&mut dir).unwrap(), None);
}

#[test]
fn invalid_utf8_no_newline_cursor_stays_aligned() {
    let mut dir = make_dir();
    write_bytes(&mut dir, b"bad\xFFbytes");

    let e1 = read_next_entry(&mut dir).unwrap().unwrap();
    assert_eq!(e1.start_offset, 0);
    assert_eq!(e1.end_offset, 9, "consumed must be 9 bytes (entire buffer)");
    assert!(e1.decoded.contains("bad"), "content prefix preserved: {}", e1.decoded);
    assert!(e1.decoded.contains("bytes"), "content suffix preserved: {}", e1.decoded);

    ack(&mut dir, &e1);
    assert_eq!(read_next_entry(&mut dir).unwrap(), None);
}

#[test]
fn crash_c1_before_in_flight_write_recovers_naturally() {
    let mut dir = make_dir();
    write_inbox(&mut dir, "entry K\n");

    let entry = read_next_entry(&mut dir).unwrap().unwrap();
    assert_eq!(entry.decoded, "entry K");
    ack(&mut dir, &entry);
}

#[test]
fn crash_c2_in_flight_written_offset_not_advanced() {
    let mut dir = make_dir();
    write_inbox(&mut dir, "entry K\n");

    let entry = read_next_entry(&mut dir).unwrap().unwrap();
    let inflight = InFlightEntry::new(&entry.raw_line, entry.start_offset, entry.end_offset);
    inflight.write_to(&mut dir);

    assert_eq!(read_offset(&dir).unwrap(), None);

    let current_offset = read_offset(&dir).unwrap().unwrap_or(0);
    assert!(!inflight.is_stale(current_offset), "should be live orphan");

    let re_entry = read_next_entry(&mut dir).unwrap().unwrap();
    assert_eq!(re_entry.decoded, "entry K");
}

#[test]
fn crash_c3_after_response_before_ack_is_live_orphan() {
    let mut dir = make_dir();
    write_inbox(&mut dir, "entry K\n");

    let entry = read_next_entry(&mut dir).unwrap().unwrap();
    let inflight = InFlightEntry::new(&entry.raw_line, entry.start_offset, entry.end_offset);
    inflight.write_to(&mut dir);

    let current_offset = read_offset(&dir).unwrap().unwrap_or(0);
    assert!(!inflight.is_stale(current_offset));

    let read_back = InFlightEntry::read_from(&dir).unwrap().unwrap();
    assert!(!read_back.is_stale(current_offset));
    assert!(read_back.is_stale(entry.end_offset + 1));
}

#[test]
fn stale_orphan_detected_by_cursor_past_end_offset() {
    let mut dir = make_dir();
    write_inbox(&mut dir, "entry K\n");

    let entry = read_next_entry(&mut dir).unwrap().unwrap();
    let inflight = InFlightEntry::new(&entry.raw_line, entry.start_offset, entry.end_offset);
    inflight.write_to(&mut dir);

    write_offset(&mut dir, entry.end_offset);
    assert!(in_flight_exists(&dir));

    let read_back = InFlightEntry::read_from(&dir).unwrap().unwrap();
    let current_offset = read_offset(&dir).unwrap().unwrap();
    assert!(read_back.is_stale(current_offset));
    assert!(!read_back.is_stale(current_offset - 1));
}

#[test]
fn invalid_bytes_become_replacement_characters() {
    let mut dir = make_dir();
    write_bytes(&mut dir, b"hel\xFFlo\n");
    let entry = read_next_entry(&mut dir).unwrap().unwrap();
    assert_eq!(entry.raw_line, "hel\u{FFFD}lo");
    assert_eq!(entry.decoded, "hel\u{FFFD}lo");
}

#[test]
fn text_beyond_ascii_is_read_as_utf8() {
    let mut dir = make_dir();
    write_inbox(&mut dir, "  grüße \u{1F600}\u{00A0}\r\nnext");
    let entry = read_next_entry(&mut dir).unwrap().unwrap();
    assert_eq!(entry.raw_line, "grüße \u{1F600}");
    assert_eq!(entry.end_offset, "  grüße \u{1F600}\u{00A0}\r\n".len() as u64);
}

#[test]
fn lines_are_decoded_only_where_they_are_json_strings() {
    assert_eq!(decode_line("plain"), "plain");
    assert_eq!(decode_line(""), "");
    assert_eq!(decode_line("\"a\\nb\""), "a\nb");
    assert_eq!(decode_line("\"\\u00e9\\\"\""), "é\"");
    assert_eq!(decode_line("\"unterminated"), "\"unterminated");
    assert_eq!(decode_line("\"a\" trailing"), "\"a\" trailing");
    assert_eq!(decode_line("[\"a\"]"), "[\"a\"]");
    assert_eq!(decode_line("12"), "12");
}

#[test]
fn a_line_that_is_no_json_string_stands_for_itself() {
    assert_eq!(text_of_line("\"a\\nb\"", Some("a\nb".to_string())), "a\nb");
    assert_eq!(text_of_line("\"\"", Some(String::new())), "");
    assert_eq!(text_of_line("\"unterminated", None), "\"unterminated");
    assert_eq!(text_of_line("", None), "");
}

#[test]
fn every_message_reads_back_from_its_json_string() {
    for message in ["", "\"", "\\", "a\nb\tc\r", "\u{1}\u{1f}\u{7f}", "é\u{2028}\u{1F600}", " "] {
        let mut dir = make_dir();
        write_inbox(&mut dir, "first\n");
        write_inbox(&mut dir, &format!("{}\n", serde_json::to_string(message).unwrap()));
        write_offset(&mut dir, 6);
        let entry = read_next_entry(&mut dir).unwrap().unwrap();
        assert_eq!(entry.decoded, message);
        assert_eq!(entry.start_offset, 6);
    }
}

#[test]
fn blank_lines_move_the_cursor_one_by_one() {
    let mut dir = make_dir();
    write_inbox(&mut dir, "\n \t\n\nmessage\n");
    let entry = read_next_entry(&mut dir).unwrap().unwrap();
    assert_eq!(entry.start_offset, 5);
    assert_eq!(entry.end_offset, 13);
    let mut moves: Vec<u64> = Vec::new();
    for effect in &dir.effects {
        match effect {
            Effect::WriteOffset(offset) => moves.push(*offset),
            other => panic!("unexpected {:?}", other),
        }
    }
    assert_eq!(moves, vec![1, 4, 5]);
    assert_eq!(read_offset(&dir).unwrap(), Some(5));
}

#[test]
fn a_cursor_past_the_end_finds_nothing() {
    let mut dir = make_dir();
    write_inbox(&mut dir, "short\n");
    write_offset(&mut dir, 100);
    assert_eq!(read_next_entry(&mut dir).unwrap(), None);
    assert_eq!(read_offset(&dir).unwrap(), Some(100));
}

#[test]
fn acknowledge_never_rewinds() {
    let mut dir = make_dir();
    write_offset(&mut dir, 50);
    InFlightEntry::new("old", 0, 10).write_to(&mut dir);
    acknowledge(&mut dir, 10).unwrap();
    assert_eq!(read_offset(&dir).unwrap(), Some(50));
    assert!(!in_flight_exists(&dir));

    acknowledge(&mut dir, 50).unwrap();
    assert_eq!(read_offset(&dir).unwrap(), Some(50));
}

#[test]
fn the_cursor_is_trimmed_before_it_is_parsed() {
    let mut dir = make_dir();
    dir.offset = FileText::Text("  17\n".to_string());
    assert_eq!(read_offset(&dir).unwrap(), Some(17));
    dir.offset = FileText::Text("+17".to_string());
    assert_eq!(read_offset(&dir).unwrap(), Some(17));
    dir.offset = FileText::Text("18446744073709551615".to_string());
    assert_eq!(read_offset(&dir).unwrap(), Some(u64::MAX));
}

#[test]
fn a_cursor_that_is_no_number_is_an_error_everywhere() {
    for content in ["", "abc", "-1", "1 2", "18446744073709551616", "+"] {
        let mut dir = make_dir();
        write_inbox(&mut dir, "message\n");
        dir.offset = FileText::Text(format!(" {}\n", content));
        for result in [
            read_offset(&dir).map(|_| ()),
            read_next_entry(&mut dir).map(|_| ()),
            acknowledge(&mut dir, 8),
        ] {
            match result {
                Err(HeartbeatError::OffsetCorrupt { path, content: shown }) => {
                    assert_eq!(path, "/io/.inbox-offset");
                    assert_eq!(shown, content);
                }
                other => panic!("expected OffsetCorrupt, got {:?}", other),
            }
        }
        assert!(dir.effects.is_empty());
    }
}

#[test]
fn unreadable_files_are_errors() {
    let mut dir = make_dir();
    dir.inbox = FileBytes::Failed("permission denied".to_string());
    dir.offset = FileText::Text("junk".to_string());
    match read_next_entry(&mut dir) {
        Err(HeartbeatError::InboxRead(source)) => assert_eq!(source, "permission denied"),
        other => panic!("expected InboxRead, got {:?}", other),
    }

    dir.inbox = FileBytes::Bytes(b"message\n".to_vec());
    dir.offset = FileText::Failed("is a directory".to_string());
    match read_next_entry(&mut dir) {
        Err(HeartbeatError::OffsetRead { path, source }) => {
            assert_eq!(path, "/io/.inbox-offset");
            assert_eq!(source, "is a directory");
        }
        other => panic!("expected OffsetRead, got {:?}", other),
    }
}

#[test]
fn blank_lines_before_a_message_are_passed_exactly() {
    let mut dir = make_dir();
    write_inbox(&mut dir, "\n\nreal message\n\n");
    let entry = read_next_entry(&mut dir).unwrap().unwrap();
    assert_eq!(entry.decoded, "real message");
    assert_eq!(entry.raw_line, "real message");
    assert_eq!(entry.start_offset, 2);
    assert_eq!(entry.end_offset, 15);
    assert_eq!(read_offset(&dir).unwrap(), Some(2));
}

#[test]
fn blank_lines_alone_are_no_message() {
    let mut dir = make_dir();
    write_inbox(&mut dir, "\n \t\u{2003}\n");
    assert_eq!(read_next_entry(&mut dir).unwrap(), None);
    assert_eq!(read_offset(&dir).unwrap(), Some(7));
}

#[test]
fn a_line_that_is_not_utf8_is_never_blank() {
    let mut dir = make_dir();
    write_bytes(&mut dir, b"\n \xFF \nnext\n");
    let entry = read_next_entry(&mut dir).unwrap().unwrap();
    assert_eq!(entry.raw_line, "\u{FFFD}");
    assert_eq!(entry.start_offset, 1);
    assert_eq!(entry.end_offset, 5);
}
