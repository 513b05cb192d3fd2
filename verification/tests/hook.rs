use heartbeat_rs::error::HeartbeatError;
use heartbeat_rs::hook::{decide, run, run_at, serialize, Decision, Mode};
use heartbeat_rs::in_flight::InFlightEntry;
use heartbeat_rs::inbox;
use heartbeat_rs::paths::FilePath;
use heartbeat_rs::session_dir::{Effect, FileBytes, FileEntry, FileText, SessionDir};

fn make_dir() -> SessionDir {
    SessionDir::empty(FilePath::unix("/io/inbox.jsonl"))
}

fn write_line(dir: &mut SessionDir, line: &str) {
    let content = format!("{}\n", line);
    if let FileBytes::Bytes(bytes) = &mut dir.inbox {
        bytes.extend_from_slice(content.as_bytes());
    } else {
        dir.inbox = FileBytes::Bytes(content.into_bytes());
    }
}

fn in_flight_exists(dir: &SessionDir) -> bool {
    !matches!(dir.in_flight, FileEntry::Missing)
}

fn cursor(dir: &SessionDir) -> u64 {
    inbox::read_offset(dir).unwrap().unwrap_or(0)
}

#[test]
fn no_flag_with_message_blocks_and_writes_in_flight() {
    let mut dir = make_dir();
    write_line(&mut dir, "triage these emails please");

    let decision = run(&mut dir, &Mode::Drain, 0).unwrap();
    assert_eq!(decision, Decision::Block("triage these emails please".to_string()));

    assert!(dir.responded);

    let inf = InFlightEntry::read_from(&dir).unwrap().unwrap();
    assert_eq!(inf.raw_line, "triage these emails please");
    assert_eq!(inf.start_offset, 0);
}

#[test]
fn no_flag_empty_inbox_approves_in_drain_mode() {
    let mut dir = make_dir();
    let decision = run(&mut dir, &Mode::Drain, 0).unwrap();
    assert_eq!(decision, Decision::Block("/exit".to_string()));
}

#[test]
fn no_flag_empty_inbox_idles_in_persist_mode() {
    let mut dir = make_dir();
    let decision = run(&mut dir, &Mode::Persist, 0).unwrap();
    assert_eq!(decision, Decision::IdleTick);
}

#[test]
fn flag_with_more_messages_acknowledges_and_delivers_next() {
    let mut dir = make_dir();
    write_line(&mut dir, "message one");
    write_line(&mut dir, "message two");

    let first = run(&mut dir, &Mode::Drain, 0).unwrap();
    assert_eq!(first, Decision::Block("message one".to_string()));
    assert!(dir.responded);
    assert!(in_flight_exists(&dir));

    let cur = cursor(&dir);
    assert_eq!(cur, 0, "cursor must not advance on delivery");

    let second = run(&mut dir, &Mode::Drain, 0).unwrap();
    assert_eq!(second, Decision::Block("message two".to_string()));

    assert!(dir.responded);
    let inf2 = InFlightEntry::read_from(&dir).unwrap().unwrap();
    assert_eq!(inf2.raw_line, "message two");
}

#[test]
fn flag_with_empty_inbox_acknowledges_and_approves_in_drain_mode() {
    let mut dir = make_dir();
    write_line(&mut dir, "only message");

    run(&mut dir, &Mode::Drain, 0).unwrap();

    let decision = run(&mut dir, &Mode::Drain, 0).unwrap();
    assert_eq!(decision, Decision::Block("/exit".to_string()));

    assert!(!dir.responded);
    assert!(!in_flight_exists(&dir));
}

#[test]
fn flag_with_empty_inbox_idles_in_persist_mode() {
    let mut dir = make_dir();
    write_line(&mut dir, "only message");
    run(&mut dir, &Mode::Persist, 0).unwrap();

    let decision = run(&mut dir, &Mode::Persist, 0).unwrap();
    assert_eq!(decision, Decision::IdleTick);
}

#[test]
fn cursor_advances_only_on_second_tick_not_on_delivery() {
    let mut dir = make_dir();
    write_line(&mut dir, "entry A");

    assert_eq!(cursor(&dir), 0);

    run(&mut dir, &Mode::Drain, 0).unwrap();
    assert_eq!(cursor(&dir), 0, "cursor must not advance on delivery");

    run(&mut dir, &Mode::Drain, 0).unwrap();
    let after = cursor(&dir);
    assert!(after > 0, "cursor must advance after ack");
}

#[test]
fn in_flight_removed_after_ack() {
    let mut dir = make_dir();
    write_line(&mut dir, "entry");

    run(&mut dir, &Mode::Drain, 0).unwrap();
    assert!(in_flight_exists(&dir));

    run(&mut dir, &Mode::Drain, 0).unwrap();
    assert!(!in_flight_exists(&dir));
}

#[test]
fn crash_window_a_launcher_crash_leaves_live_orphan() {
    let mut dir = make_dir();
    write_line(&mut dir, "entry K");

    run(&mut dir, &Mode::Drain, 0).unwrap();

    let inf = InFlightEntry::read_from(&dir).unwrap().unwrap();
    let current_cursor = cursor(&dir);

    assert!(!inf.is_stale(current_cursor));
    assert_eq!(inf.start_offset, 0);
    assert!(in_flight_exists(&dir));
}

#[test]
fn crash_window_b_agent_crash_leaves_same_orphan_signal() {
    let mut dir = make_dir();
    write_line(&mut dir, "entry K");

    run(&mut dir, &Mode::Drain, 0).unwrap();

    assert!(dir.responded);
    assert!(in_flight_exists(&dir));
    let cur = cursor(&dir);
    assert_eq!(cur, 0);

    let inf = InFlightEntry::read_from(&dir).unwrap().unwrap();
    assert!(!inf.is_stale(cur));
}

#[test]
fn crash_window_c_stale_orphan_cursor_past_end_offset() {
    let mut dir = make_dir();
    write_line(&mut dir, "entry K\n");

    run(&mut dir, &Mode::Drain, 0).unwrap();
    let inf_before = InFlightEntry::read_from(&dir).unwrap().unwrap();

    inbox::write_offset(&mut dir, inf_before.end_offset);

    let cur = inbox::read_offset(&dir).unwrap().unwrap();
    let inf = InFlightEntry::read_from(&dir).unwrap().unwrap();

    assert!(inf.is_stale(cur), "cursor at end_offset must be detected as stale");
    assert!(
        cur >= inf.end_offset,
        "cursor at or past end_offset means entry was acknowledged"
    );
}

#[test]
fn block_serializes_correctly() {
    let out = serialize(&Decision::Block("do the thing".to_string()));
    let parsed: serde_json::Value = serde_json::from_str(&out).unwrap();
    assert_eq!(parsed["decision"], "block");
    assert_eq!(parsed["reason"], "do the thing");
}

#[test]
fn approve_serializes_to_empty_string() {
    let out = serialize(&Decision::Approve);
    assert_eq!(out, "");
}

#[test]
fn idle_tick_serializes_as_block() {
    let out = serialize(&Decision::IdleTick);
    let parsed: serde_json::Value = serde_json::from_str(&out).unwrap();
    assert_eq!(parsed["decision"], "block");
}

#[test]
fn responded_without_in_flight_returns_error() {
    let mut dir = make_dir();
    write_line(&mut dir, "entry K");

    run(&mut dir, &Mode::Drain, 0).unwrap();
    assert!(in_flight_exists(&dir));
    assert!(dir.responded);

    dir.in_flight = FileEntry::Missing;

    let result = run(&mut dir, &Mode::Drain, 0);
    assert!(
        result.is_err(),
        "hook must error on .responded without .in-flight, not silently re-deliver"
    );
    let err = result.unwrap_err();
    assert!(
        matches!(err, HeartbeatError::InconsistentState { .. }),
        "expected InconsistentState variant, got: {:?}",
        err
    );
    assert!(
        err.message().contains("inconsistent state"),
        "error message must name the inconsistency: {}",
        err.message()
    );
}

#[test]
fn drain_nonexistent_inbox_approves() {
    let mut dir = make_dir();
    let decision = run(&mut dir, &Mode::Drain, 0).unwrap();
    assert_eq!(
        decision,
        Decision::Block("/exit".to_string()),
        "nonexistent inbox must approve in drain mode: no entries means done"
    );
}

#[test]
fn blank_line_between_entries_skipped_at_hook_level() {
    let mut dir = make_dir();
    write_line(&mut dir, "first entry");
    write_line(&mut dir, "");
    write_line(&mut dir, "second entry");

    let d1 = run(&mut dir, &Mode::Drain, 0).unwrap();
    assert_eq!(d1, Decision::Block("first entry".to_string()));
    assert!(dir.responded);

    let d2 = run(&mut dir, &Mode::Drain, 0).unwrap();
    assert_eq!(
        d2,
        Decision::Block("second entry".to_string()),
        "blank line between entries must be skipped"
    );

    let d3 = run(&mut dir, &Mode::Drain, 0).unwrap();
    assert_eq!(d3, Decision::Block("/exit".to_string()));
}

#[test]
fn multi_entry_inbox_delivers_in_byte_order_then_approves() {
    let mut dir = make_dir();
    write_line(&mut dir, "alpha");
    write_line(&mut dir, "bravo");
    write_line(&mut dir, "charlie");

    let d1 = run(&mut dir, &Mode::Drain, 0).unwrap();
    assert_eq!(d1, Decision::Block("alpha".to_string()), "tick 1 must deliver first entry");
    assert!(dir.responded, "tick 1 must set .responded");
    assert_eq!(cursor(&dir), 0, "cursor must stay at 0 after delivery of first entry");

    let d2 = run(&mut dir, &Mode::Drain, 0).unwrap();
    assert_eq!(d2, Decision::Block("bravo".to_string()), "tick 2 must deliver second entry");
    assert_eq!(cursor(&dir), 6, "cursor must advance to 6 (past 'alpha\\n') after ack");
    assert!(dir.responded, "tick 2 must re-set .responded");

    let d3 = run(&mut dir, &Mode::Drain, 0).unwrap();
    assert_eq!(d3, Decision::Block("charlie".to_string()), "tick 3 must deliver third entry");
    assert_eq!(cursor(&dir), 12, "cursor must advance to 12 (past 'bravo\\n') after ack");
    assert!(dir.responded, "tick 3 must re-set .responded");
    assert!(in_flight_exists(&dir), "tick 3 must write .in-flight for 'charlie'");

    let d4 = run(&mut dir, &Mode::Drain, 0).unwrap();
    assert_eq!(
        d4,
        Decision::Block("/exit".to_string()),
        "tick 4 must return drain-exit block once all entries are drained"
    );
    assert_eq!(cursor(&dir), 20, "cursor must advance to 20 (past 'charlie\\n') after final ack");
    assert!(!dir.responded, ".responded must be removed after final ack");
    assert!(!in_flight_exists(&dir), ".in-flight must be removed after final ack");
}

#[test]
fn responded_without_in_flight_returns_inconsistent_state_with_io_dir() {
    let mut dir = make_dir();
    write_line(&mut dir, "msg");
    run(&mut dir, &Mode::Drain, 0).unwrap();
    dir.in_flight = FileEntry::Missing;
    assert!(dir.responded);
    assert!(!in_flight_exists(&dir));

    let result = run(&mut dir, &Mode::Drain, 0);
    match result {
        Err(HeartbeatError::InconsistentState { io_dir }) => {
            assert_eq!(io_dir, "/io", "io_dir must be the parent directory of the inbox");
        }
        other => panic!(
            "expected Err(HeartbeatError::InconsistentState {{ io_dir }}), got {:?}",
            other
        ),
    }
}

#[test]
fn answers_are_exact() {
    assert_eq!(
        serialize(&Decision::Block("say \"hi\"\n\\ \u{1}\u{7f} é".to_string())),
        "{\"decision\":\"block\",\"reason\":\"say \\\"hi\\\"\\n\\\\ \\u0001\u{7f} é\"}"
    );
    assert_eq!(
        serialize(&Decision::Block("\u{8}\t\u{c}\r/\u{1f}".to_string())),
        "{\"decision\":\"block\",\"reason\":\"\\b\\t\\f\\r/\\u001f\"}"
    );
    assert_eq!(
        serialize(&Decision::IdleTick),
        "{\"decision\":\"block\",\"reason\":\"--- IDLE TICK ---\"}"
    );
}

#[test]
fn only_an_approval_is_silent() {
    assert!(serialize(&Decision::Approve).is_empty());
    for decision in [Decision::Block(String::new()), Decision::IdleTick] {
        let out = serialize(&decision);
        assert!(!out.is_empty());
        assert!(!out.contains('\n'));
    }
}

#[test]
fn a_failed_hook_approves_the_stop() {
    let mut dir = make_dir();
    dir.responded = true;
    assert_eq!(decide(run(&mut dir, &Mode::Persist, 5)), Decision::Approve);
    assert!(dir.effects.is_empty());
    assert_eq!(decide(Ok(Decision::IdleTick)), Decision::IdleTick);
}

#[test]
fn a_json_string_is_delivered_decoded() {
    let mut dir = make_dir();
    write_line(&mut dir, "\"line one\\nline two\"");
    let decision = run(&mut dir, &Mode::Drain, 0).unwrap();
    assert_eq!(decision, Decision::Block("line one\nline two".to_string()));
    let inf = InFlightEntry::read_from(&dir).unwrap().unwrap();
    assert_eq!(inf.raw_line, "\"line one\\nline two\"");
}

#[test]
fn persist_mode_waits_only_before_an_idle_tick() {
    let mut dir = make_dir();
    write_line(&mut dir, "message");
    run(&mut dir, &Mode::Persist, 7).unwrap();
    assert!(!dir.effects.iter().any(|e| matches!(e, Effect::Sleep(_))));
    assert_eq!(run(&mut dir, &Mode::Persist, 7).unwrap(), Decision::IdleTick);
    assert!(matches!(dir.effects.last(), Some(Effect::Sleep(7))));

    let mut drained = make_dir();
    run(&mut drained, &Mode::Drain, 7).unwrap();
    assert!(drained.effects.is_empty());
}

#[test]
fn a_delivery_records_the_entry_before_it_sets_the_flag() {
    let mut dir = make_dir();
    write_line(&mut dir, "");
    write_line(&mut dir, "message");
    run_at(&mut dir, &Mode::Drain, 0, 0).unwrap();
    assert_eq!(dir.effects.len(), 3);
    assert!(matches!(dir.effects[0], Effect::WriteOffset(1)));
    match &dir.effects[1] {
        Effect::WriteInFlight(entry) => {
            assert_eq!(entry.start_offset, 1);
            assert_eq!(entry.end_offset, 9);
            assert_eq!(entry.delivered_at, "1970-01-01T00:00:00Z");
        }
        other => panic!("unexpected {:?}", other),
    }
    assert!(matches!(dir.effects[2], Effect::TouchResponded));
}

#[test]
fn an_answer_is_settled_in_order() {
    let mut dir = make_dir();
    write_line(&mut dir, "message");
    run_at(&mut dir, &Mode::Drain, 0, 0).unwrap();
    dir.effects.clear();
    run_at(&mut dir, &Mode::Drain, 0, 60).unwrap();
    assert_eq!(dir.effects.len(), 3);
    assert!(matches!(dir.effects[0], Effect::WriteOffset(8)));
    assert!(matches!(dir.effects[1], Effect::RemoveInFlight));
    assert!(matches!(dir.effects[2], Effect::RemoveResponded));
}

#[test]
fn errors_of_the_files_come_through() {
    let mut dir = make_dir();
    dir.responded = true;
    dir.in_flight = FileEntry::Corrupt("bad".to_string());
    assert!(matches!(
        run(&mut dir, &Mode::Drain, 0),
        Err(HeartbeatError::InFlightCorrupt { .. })
    ));
    dir.in_flight = FileEntry::Failed("bad".to_string());
    assert!(matches!(run(&mut dir, &Mode::Drain, 0), Err(HeartbeatError::InFlightRead { .. })));
    InFlightEntry::new("x", 0, 2).write_to(&mut dir);
    dir.offset = FileText::Text("x".to_string());
    assert!(matches!(run(&mut dir, &Mode::Drain, 0), Err(HeartbeatError::OffsetCorrupt { .. })));
    dir.responded = false;
    dir.inbox = FileBytes::Failed("bad".to_string());
    assert!(matches!(run(&mut dir, &Mode::Drain, 0), Err(HeartbeatError::InboxRead(_))));
}
