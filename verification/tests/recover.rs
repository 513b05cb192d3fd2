use heartbeat_rs::error::HeartbeatError;
use heartbeat_rs::hook;
use heartbeat_rs::in_flight::InFlightEntry;
use heartbeat_rs::inbox;
use heartbeat_rs::paths::FilePath;
use heartbeat_rs::recover::{recover, OrphanPolicy, RecoveryOutcome};
use heartbeat_rs::session_dir::{Effect, FileBytes, FileEntry, FileText, SessionDir};

fn make_dir() -> SessionDir {
    SessionDir::empty(FilePath::unix("/io/inbox.jsonl"))
}

fn write_line(dir: &mut SessionDir, line: &str) {
    let content = format!("{}\n", line);
    if let FileBytes::Bytes(bytes) = &mut dir.inbox {
        bytes.extend_from_slice(content.as_bytes());
    } else {
        dir.inbox = FileBytes::Bytes(content.into_bytes());
    }
}

fn text_of(file: &FileBytes) -> String {
    match file {
        FileBytes::Bytes(bytes) => String::from_utf8(bytes.clone()).unwrap(),
        other => panic!("no content: {:?}", other),
    }
}

fn in_flight_exists(dir: &SessionDir) -> bool {
    !matches!(dir.in_flight, FileEntry::Missing)
}

fn cursor(dir: &SessionDir) -> u64 {
    inbox::read_offset(dir).unwrap().unwrap_or(0)
}

fn tick(dir: &mut SessionDir) -> hook::Decision {
    hook::run(dir, &hook::Mode::Drain, 0).unwrap()
}

#[test]
fn no_in_flight_returns_nothing_to_recover() {
    let mut dir = make_dir();
    write_line(&mut dir, "entry");

    let outcome = recover(&mut dir, OrphanPolicy::DeadLetter).unwrap();
    assert_eq!(outcome, RecoveryOutcome::NothingToRecover);
}

#[test]
fn stale_orphan_deleted_when_cursor_past_end_offset() {
    let mut dir = make_dir();
    write_line(&mut dir, "entry K");

    let entry = InFlightEntry::new("entry K", 0, 8);
    entry.write_to(&mut dir);
    inbox::write_offset(&mut dir, 9);

    let outcome = recover(&mut dir, OrphanPolicy::DeadLetter).unwrap();
    match outcome {
        RecoveryOutcome::StaleOrphanDeleted { .. } => {}
        other => panic!("expected StaleOrphanDeleted, got {:?}", other),
    }
    assert!(!in_flight_exists(&dir));
}

#[test]
fn retry_resets_cursor_to_start_offset_no_duplicate() {
    let mut dir = make_dir();
    write_line(&mut dir, "entry K");
    write_line(&mut dir, "entry K+1");

    let inbox_before = text_of(&dir.inbox);

    tick(&mut dir);
    assert!(in_flight_exists(&dir));

    let outcome = recover(&mut dir, OrphanPolicy::Retry).unwrap();
    match &outcome {
        RecoveryOutcome::ReQueued { entry_id } => {
            assert!(!entry_id.is_empty());
        }
        other => panic!("expected ReQueued, got {:?}", other),
    }

    assert!(!in_flight_exists(&dir));

    let cur = cursor(&dir);
    assert_eq!(cur, 0, "cursor must be reset to start_offset of orphan");

    let inbox_after = text_of(&dir.inbox);
    assert_eq!(inbox_before, inbox_after, "retry must not modify inbox contents");

    let count = inbox_after.lines().filter(|l| *l == "entry K").count();
    assert_eq!(count, 1, "entry K must appear exactly once after retry");
}

#[test]
fn retry_on_poison_entry_does_not_grow_inbox_over_5_cycles() {
    let mut dir = make_dir();
    write_line(&mut dir, "poison");
    let initial_line_count = text_of(&dir.inbox).lines().count();

    for cycle in 1..=5 {
        tick(&mut dir);
        assert!(
            in_flight_exists(&dir),
            "cycle {}: .in-flight must exist after delivery",
            cycle
        );

        dir.responded = false;

        recover(&mut dir, OrphanPolicy::Retry).unwrap();

        let line_count = text_of(&dir.inbox).lines().count();
        assert_eq!(
            line_count, initial_line_count,
            "cycle {}: inbox must not grow: had {} lines, now {} lines",
            cycle, initial_line_count, line_count
        );
    }
}

#[test]
fn deadletter_moves_orphan_to_dead_letter_file() {
    let mut dir = make_dir();
    write_line(&mut dir, "entry K");

    tick(&mut dir);
    assert!(in_flight_exists(&dir));

    let outcome = recover(&mut dir, OrphanPolicy::DeadLetter).unwrap();
    match &outcome {
        RecoveryOutcome::DeadLettered { entry_id } => {
            assert!(!entry_id.is_empty());
        }
        other => panic!("expected DeadLettered, got {:?}", other),
    }

    assert!(!in_flight_exists(&dir));
    assert!(matches!(dir.dead_letter, FileBytes::Bytes(_)));
    let dl_contents = text_of(&dir.dead_letter);
    let parsed: serde_json::Value = serde_json::from_str(dl_contents.trim()).unwrap();
    assert_eq!(parsed["raw_line"], "entry K");

    let cur = cursor(&dir);
    assert!(cur > 0, "cursor must advance after dead-letter");
}

#[test]
fn deadletter_appends_multiple_orphans() {
    let mut dir = make_dir();

    for entry_text in &["orphan one", "orphan two"] {
        dir.inbox = FileBytes::Missing;
        dir.responded = false;
        inbox::write_offset(&mut dir, 0);
        write_line(&mut dir, entry_text);
        tick(&mut dir);
        recover(&mut dir, OrphanPolicy::DeadLetter).unwrap();
    }

    let dl_contents = text_of(&dir.dead_letter);
    let lines: Vec<&str> = dl_contents.lines().collect();
    assert_eq!(lines.len(), 2, "dead-letter must have two entries");
}

#[test]
fn drop_deletes_in_flight_and_advances_cursor() {
    let mut dir = make_dir();
    write_line(&mut dir, "entry K");
    tick(&mut dir);
    assert!(in_flight_exists(&dir));

    let outcome = recover(&mut dir, OrphanPolicy::Drop).unwrap();
    match &outcome {
        RecoveryOutcome::Dropped { entry_id } => {
            assert!(!entry_id.is_empty());
        }
        other => panic!("expected Dropped, got {:?}", other),
    }

    assert!(!in_flight_exists(&dir));
    let cur = cursor(&dir);
    assert!(cur > 0);
}

#[test]
fn fen_n1_happy_path_no_orphan() {
    let mut dir = make_dir();
    write_line(&mut dir, "fen triage batch");

    tick(&mut dir);
    tick(&mut dir);

    assert!(!in_flight_exists(&dir));

    let outcome = recover(&mut dir, OrphanPolicy::Drop).unwrap();
    assert_eq!(outcome, RecoveryOutcome::NothingToRecover);
}

#[test]
fn fen_n1_failure_path_drop_policy() {
    let mut dir = make_dir();
    write_line(&mut dir, "fen triage batch");

    tick(&mut dir);
    assert!(in_flight_exists(&dir));

    let outcome = recover(&mut dir, OrphanPolicy::Drop).unwrap();
    match &outcome {
        RecoveryOutcome::Dropped { .. } => {}
        other => panic!("expected Dropped for Fen policy, got {:?}", other),
    }

    assert!(!in_flight_exists(&dir));
}

#[test]
fn recover_errors_on_corrupt_in_flight() {
    let mut dir = make_dir();
    dir.inbox = FileBytes::Bytes(b"some entry\n".to_vec());
    // What a JSON parser says of "{not valid json".
    let source = serde_json::from_str::<serde_json::Value>("{not valid json").unwrap_err();
    dir.in_flight = FileEntry::Corrupt(source.to_string());

    let result = recover(&mut dir, OrphanPolicy::DeadLetter);
    match result {
        Err(HeartbeatError::InFlightCorrupt { path, source: _ }) => {
            assert_eq!(
                path, "/io/.in-flight",
                "InFlightCorrupt path must be the .in-flight file path"
            );
        }
        other => panic!("expected Err(HeartbeatError::InFlightCorrupt), got {:?}", other),
    }
}

#[test]
fn corrupt_offset_recover_returns_offset_corrupt() {
    let mut dir = make_dir();
    write_line(&mut dir, "entry K");
    let entry = InFlightEntry::new("entry K", 0, 8);
    entry.write_to(&mut dir);

    dir.offset = FileText::Text("CORRUPT".to_string());

    let result = recover(&mut dir, OrphanPolicy::DeadLetter);
    match result {
        Err(HeartbeatError::OffsetCorrupt { path, content }) => {
            assert_eq!(path, "/io/.inbox-offset", "path must be the offset file path");
            assert_eq!(
                content, "CORRUPT",
                "content must be the trimmed string that failed to parse"
            );
        }
        other => panic!("expected Err(HeartbeatError::OffsetCorrupt), got {:?}", other),
    }
}

#[test]
fn retry_followed_by_hook_run_re_delivers_entry_k() {
    let mut dir = make_dir();
    write_line(&mut dir, "entry K");
    write_line(&mut dir, "entry K+1");

    let d1 = tick(&mut dir);
    assert_eq!(d1, hook::Decision::Block("entry K".to_string()));
    assert!(in_flight_exists(&dir));

    let outcome = recover(&mut dir, OrphanPolicy::Retry).unwrap();
    match &outcome {
        RecoveryOutcome::ReQueued { .. } => {}
        other => panic!("expected ReQueued, got {:?}", other),
    }
    assert!(!in_flight_exists(&dir));
    assert!(!dir.responded, "recover must remove .responded so next session starts clean");

    let d2 = tick(&mut dir);
    assert_eq!(
        d2,
        hook::Decision::Block("entry K".to_string()),
        "hook must re-deliver entry K after retry recovery"
    );

    let d3 = tick(&mut dir);
    assert_eq!(d3, hook::Decision::Block("entry K+1".to_string()));
}

#[test]
fn fen_cascade_drop_policy_clears_responded_before_next_session() {
    let mut dir = make_dir();

    write_line(&mut dir, "cycle N email batch");
    tick(&mut dir);

    assert!(in_flight_exists(&dir), "cycle N: .in-flight must exist");
    assert!(dir.responded, "cycle N: .responded must exist");

    let outcome = recover(&mut dir, OrphanPolicy::Drop).unwrap();
    match &outcome {
        RecoveryOutcome::Dropped { .. } => {}
        other => panic!("expected Dropped, got {:?}", other),
    }

    assert!(!in_flight_exists(&dir), "recover must remove .in-flight");
    assert!(!dir.responded, "recover must remove .responded");

    dir.inbox = FileBytes::Bytes(vec![]);
    inbox::write_offset(&mut dir, 0);
    write_line(&mut dir, "cycle N+1 email batch");

    let decision = tick(&mut dir);
    assert_eq!(
        decision,
        hook::Decision::Block("cycle N+1 email batch".to_string()),
        "first hook tick of cycle N+1 must deliver new batch, not error out"
    );
}

#[test]
fn crash_between_ack_step1_and_step2_recovered_by_stale_orphan_path() {
    let mut dir = make_dir();
    write_line(&mut dir, "entry K");
    write_line(&mut dir, "entry K+1");

    tick(&mut dir);
    assert!(in_flight_exists(&dir));
    assert!(dir.responded);

    let in_flight_entry = InFlightEntry::read_from(&dir).unwrap().unwrap();
    inbox::write_offset(&mut dir, in_flight_entry.end_offset);
    dir.in_flight = FileEntry::Missing;
    assert!(dir.responded);
    assert!(!in_flight_exists(&dir));

    let outcome = recover(&mut dir, OrphanPolicy::Drop).unwrap();
    match &outcome {
        RecoveryOutcome::NothingToRecover => {}
        RecoveryOutcome::StaleOrphanDeleted { .. } => {}
        other => panic!("expected NothingToRecover or StaleOrphanDeleted, got {:?}", other),
    }

    assert!(!in_flight_exists(&dir), "recover must remove .in-flight (or it was already gone)");
    assert!(!dir.responded, "recover must remove .responded after stale-orphan fast path");

    let decision = tick(&mut dir);
    assert_eq!(
        decision,
        hook::Decision::Block("entry K+1".to_string()),
        "hook must deliver K+1 cleanly after crash-window recovery"
    );
}

#[test]
fn a_dead_letter_is_exact() {
    let mut dir = make_dir();
    dir.dead_letter = FileBytes::Bytes(b"{\"older\":1}\n".to_vec());
    write_line(&mut dir, "abc");
    hook::run_at(&mut dir, &hook::Mode::Drain, 0, 0).unwrap();
    recover(&mut dir, OrphanPolicy::DeadLetter).unwrap();
    assert_eq!(
        text_of(&dir.dead_letter),
        "{\"older\":1}\n{\"delivered_at\":\"1970-01-01T00:00:00Z\",\"end_offset\":4,\"entry_id\":\
         \"ba7816bf8f01cfea414140de5dae2223b00361a396177a9cb410ff61f20015ad\",\"raw_line\":\"abc\",\
         \"start_offset\":0}\n"
    );
    assert_eq!(cursor(&dir), 4);
}

#[test]
fn unreadable_dead_letters_stop_recovery() {
    let mut dir = make_dir();
    write_line(&mut dir, "abc");
    tick(&mut dir);
    dir.dead_letter = FileBytes::Failed("permission denied".to_string());
    match recover(&mut dir, OrphanPolicy::DeadLetter) {
        Err(HeartbeatError::DeadLetterWrite { path, source }) => {
            assert_eq!(path, "/io/.dead-letter.jsonl");
            assert_eq!(source, "permission denied");
        }
        other => panic!("expected DeadLetterWrite, got {:?}", other),
    }
    assert!(in_flight_exists(&dir));
    assert!(dir.responded);
    assert_eq!(cursor(&dir), 0);
    // The other policies do not read the dead letters.
    assert!(recover(&mut dir, OrphanPolicy::Retry).is_ok());
}

#[test]
fn recovery_does_things_in_order() {
    let mut dir = make_dir();
    write_line(&mut dir, "abc");
    tick(&mut dir);
    dir.dead_letter_tmp = true;
    dir.effects.clear();
    recover(&mut dir, OrphanPolicy::DeadLetter).unwrap();
    assert!(!dir.dead_letter_tmp);
    assert_eq!(dir.effects.len(), 5);
    assert!(matches!(dir.effects[0], Effect::RemoveDeadLetterTmp));
    assert!(matches!(dir.effects[1], Effect::ReplaceDeadLetter(_)));
    assert!(matches!(dir.effects[2], Effect::WriteOffset(4)));
    assert!(matches!(dir.effects[3], Effect::RemoveInFlight));
    assert!(matches!(dir.effects[4], Effect::RemoveResponded));
}

#[test]
fn a_stale_orphan_is_removed_whatever_the_policy() {
    for policy in [OrphanPolicy::Retry, OrphanPolicy::DeadLetter, OrphanPolicy::Drop] {
        let mut dir = make_dir();
        write_line(&mut dir, "abc");
        let entry = InFlightEntry::new("abc", 0, 4);
        entry.write_to(&mut dir);
        inbox::write_offset(&mut dir, 4);
        assert!(entry.is_stale(4));
        assert_eq!(
            recover(&mut dir, policy).unwrap(),
            RecoveryOutcome::StaleOrphanDeleted { entry_id: entry.entry_id.clone() }
        );
        assert_eq!(cursor(&dir), 4);
        assert!(matches!(dir.dead_letter, FileBytes::Missing));
    }
}

#[test]
fn nothing_to_recover_still_clears_the_flag() {
    let mut dir = make_dir();
    dir.responded = true;
    dir.offset = FileText::Text("junk".to_string());
    assert_eq!(
        recover(&mut dir, OrphanPolicy::Retry).unwrap(),
        RecoveryOutcome::NothingToRecover
    );
    assert!(!dir.responded);
}

#[test]
fn unreadable_in_flight_stops_recovery() {
    let mut dir = make_dir();
    dir.responded = true;
    dir.in_flight = FileEntry::Failed("permission denied".to_string());
    assert!(matches!(
        recover(&mut dir, OrphanPolicy::Drop),
        Err(HeartbeatError::InFlightRead { .. })
    ));
    assert!(dir.responded);
}
