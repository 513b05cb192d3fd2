use heartbeat_rs::error::HeartbeatError;
use heartbeat_rs::hook::{run_at, Decision, Mode};
use heartbeat_rs::in_flight::InFlightEntry;
use heartbeat_rs::inbox::{read_next_entry, read_offset};
use heartbeat_rs::paths::FilePath;
use heartbeat_rs::recover::{recover, OrphanPolicy, RecoveryOutcome};
use heartbeat_rs::session_dir::{
    conclude, Effect, FileBytes, FileEntry, FileText, Progress, SessionDir,
};

fn with_inbox(content: &str) -> SessionDir {
    let mut dir = SessionDir::empty(FilePath::unix("/io/inbox.jsonl"));
    dir.inbox = FileBytes::Bytes(content.as_bytes().to_vec());
    dir
}

fn copy_bytes(file: &FileBytes) -> FileBytes {
    match file {
        FileBytes::Missing => FileBytes::Missing,
        FileBytes::Failed(reason) => FileBytes::Failed(reason.clone()),
        FileBytes::Bytes(bytes) => FileBytes::Bytes(bytes.clone()),
    }
}

fn copy(dir: &SessionDir) -> SessionDir {
    SessionDir {
        inbox_path: dir.inbox_path.clone(),
        inbox: copy_bytes(&dir.inbox),
        offset: match &dir.offset {
            FileText::Missing => FileText::Missing,
            FileText::Failed(reason) => FileText::Failed(reason.clone()),
            FileText::Text(text) => FileText::Text(text.clone()),
        },
        in_flight: match &dir.in_flight {
            FileEntry::Missing => FileEntry::Missing,
            FileEntry::Failed(reason) => FileEntry::Failed(reason.clone()),
            FileEntry::Corrupt(reason) => FileEntry::Corrupt(reason.clone()),
            FileEntry::Entry(entry) => FileEntry::Entry(entry.clone()),
        },
        responded: dir.responded,
        dead_letter: copy_bytes(&dir.dead_letter),
        dead_letter_tmp: dir.dead_letter_tmp,
        effects: Vec::new(),
    }
}

fn copy_effect(effect: &Effect) -> Effect {
    match effect {
        Effect::WriteOffset(offset) => Effect::WriteOffset(*offset),
        Effect::WriteInFlight(entry) => Effect::WriteInFlight(entry.clone()),
        Effect::RemoveInFlight => Effect::RemoveInFlight,
        Effect::TouchResponded => Effect::TouchResponded,
        Effect::RemoveResponded => Effect::RemoveResponded,
        Effect::ReplaceDeadLetter(bytes) => Effect::ReplaceDeadLetter(bytes.clone()),
        Effect::RemoveDeadLetterTmp => Effect::RemoveDeadLetterTmp,
        Effect::Sleep(secs) => Effect::Sleep(*secs),
    }
}

/// The directory `before`, after the first `k` of `effects`.
fn crashed(before: &SessionDir, effects: &[Effect], k: usize) -> SessionDir {
    let mut dir = copy(before);
    for effect in &effects[..k] {
        dir.perform(copy_effect(effect));
    }
    dir.effects.clear();
    dir
}

fn cursor(dir: &SessionDir) -> u64 {
    read_offset(dir).unwrap().unwrap_or(0)
}

fn clean(dir: &SessionDir) -> bool {
    matches!(dir.in_flight, FileEntry::Missing) && !dir.responded
}

const POLICIES: [OrphanPolicy; 3] =
    [OrphanPolicy::Retry, OrphanPolicy::DeadLetter, OrphanPolicy::Drop];

#[test]
fn a_session_delivers_every_entry_once_and_in_order() {
    let mut dir = with_inbox("one\n\n  two \n\"three\\nlines\"\n\t\nfour");
    let mut decisions = Vec::new();
    for secs in 0..6 {
        decisions.push(run_at(&mut dir, &Mode::Drain, 0, secs).unwrap());
    }
    let expected: Vec<Decision> = ["one", "two", "three\nlines", "four", "/exit", "/exit"]
        .iter()
        .map(|t| Decision::Block(t.to_string()))
        .collect();
    assert_eq!(decisions, expected);
    assert!(clean(&dir));
}

#[test]
fn a_persistent_session_picks_up_what_arrives() {
    let mut dir = with_inbox("one\n");
    assert_eq!(
        run_at(&mut dir, &Mode::Persist, 2, 0).unwrap(),
        Decision::Block("one".to_string())
    );
    assert_eq!(run_at(&mut dir, &Mode::Persist, 2, 1).unwrap(), Decision::IdleTick);
    if let FileBytes::Bytes(bytes) = &mut dir.inbox {
        bytes.extend_from_slice(b"two\n");
    }
    assert_eq!(
        run_at(&mut dir, &Mode::Persist, 2, 2).unwrap(),
        Decision::Block("two".to_string())
    );
}

#[test]
fn a_crash_during_delivery_loses_nothing() {
    let before = with_inbox("\n \nmessage\nnext\n");
    let mut after = copy(&before);
    run_at(&mut after, &Mode::Drain, 0, 0).unwrap();
    assert_eq!(after.effects.len(), 4);
    for k in 0..=4 {
        let mut dir = crashed(&before, &after.effects, k);
        assert!(cursor(&dir) <= 3);
        let entry = read_next_entry(&mut dir).unwrap().unwrap();
        assert_eq!(entry.decoded, "message");
    }
}

#[test]
fn a_crash_during_acknowledgement_never_delivers_twice() {
    for policy in POLICIES {
        let mut before = with_inbox("message\nnext\n");
        run_at(&mut before, &Mode::Drain, 0, 0).unwrap();
        let mut after = copy(&before);
        run_at(&mut after, &Mode::Drain, 0, 1).unwrap();
        assert!(matches!(after.effects[0], Effect::WriteOffset(8)));
        for k in 1..=3 {
            let mut dir = crashed(&before, &after.effects, k);
            assert_eq!(cursor(&dir), 8);
            let outcome = recover(&mut dir, policy).unwrap();
            assert!(matches!(
                outcome,
                RecoveryOutcome::NothingToRecover | RecoveryOutcome::StaleOrphanDeleted { .. }
            ));
            assert!(clean(&dir));
            assert!(matches!(dir.dead_letter, FileBytes::Missing));
            assert_eq!(
                run_at(&mut dir, &Mode::Drain, 0, 2).unwrap(),
                Decision::Block("next".to_string())
            );
        }
    }
}

#[test]
fn recovery_can_be_interrupted_and_run_again() {
    for policy in POLICIES {
        let mut before = with_inbox("message\nnext\n");
        run_at(&mut before, &Mode::Drain, 0, 0).unwrap();
        before.effects.clear();
        let mut after = copy(&before);
        recover(&mut after, policy).unwrap();
        for k in 0..=after.effects.len() {
            let mut dir = crashed(&before, &after.effects, k);
            recover(&mut dir, policy).unwrap();
            assert!(clean(&dir));
            let delivered = run_at(&mut dir, &Mode::Drain, 0, 1).unwrap();
            match policy {
                OrphanPolicy::Retry => {
                    assert_eq!(delivered, Decision::Block("message".to_string()))
                }
                _ => assert_eq!(delivered, Decision::Block("next".to_string())),
            }
            if policy == OrphanPolicy::DeadLetter {
                assert!(matches!(&dir.dead_letter, FileBytes::Bytes(bytes) if !bytes.is_empty()));
            }
        }
    }
}

#[test]
fn a_retried_entry_keeps_its_identifier() {
    let mut dir = with_inbox("message\n");
    run_at(&mut dir, &Mode::Drain, 0, 0).unwrap();
    let first = InFlightEntry::read_from(&dir).unwrap().unwrap();
    recover(&mut dir, OrphanPolicy::Retry).unwrap();
    run_at(&mut dir, &Mode::Drain, 0, 1000).unwrap();
    let second = InFlightEntry::read_from(&dir).unwrap().unwrap();
    assert_eq!(first.entry_id, second.entry_id);
    assert_ne!(first.delivered_at, second.delivered_at);
}

#[test]
fn stops_never_move_the_cursor_back() {
    let mut dir = with_inbox("one\n\n\ntwo\n   \n");
    let mut last = 0;
    for secs in 0..5 {
        let before = copy(&dir);
        dir.effects.clear();
        run_at(&mut dir, &Mode::Drain, 0, secs).unwrap();
        for k in 0..=dir.effects.len() {
            let at = cursor(&crashed(&before, &dir.effects, k));
            assert!(at >= last);
            last = at;
        }
    }
    assert_eq!(last, 14);
}

#[test]
fn nothing_writes_to_the_inbox() {
    let content = "one\n\ntwo\n";
    let mut dir = with_inbox(content);
    run_at(&mut dir, &Mode::Drain, 0, 0).unwrap();
    recover(&mut dir, OrphanPolicy::Retry).unwrap();
    run_at(&mut dir, &Mode::Drain, 0, 1).unwrap();
    recover(&mut dir, OrphanPolicy::DeadLetter).unwrap();
    run_at(&mut dir, &Mode::Drain, 0, 2).unwrap();
    run_at(&mut dir, &Mode::Drain, 0, 3).unwrap();
    assert!(matches!(&dir.inbox, FileBytes::Bytes(bytes) if bytes == content.as_bytes()));
}

#[test]
fn what_is_appended_comes_after_what_was_there() {
    let mut dir = with_inbox("orphan\nsecond\n");
    run_at(&mut dir, &Mode::Drain, 0, 0).unwrap();
    recover(&mut dir, OrphanPolicy::Retry).unwrap();
    if let FileBytes::Bytes(bytes) = &mut dir.inbox {
        bytes.extend_from_slice(b"new work\n");
    }
    for expected in ["orphan", "second", "new work", "/exit"] {
        assert_eq!(
            run_at(&mut dir, &Mode::Drain, 0, 1).unwrap(),
            Decision::Block(expected.to_string())
        );
    }
}

#[test]
fn stops_leave_the_dead_letters_alone() {
    let mut dir = with_inbox("one\n");
    dir.dead_letter = FileBytes::Bytes(b"{}\n".to_vec());
    dir.dead_letter_tmp = true;
    run_at(&mut dir, &Mode::Drain, 0, 0).unwrap();
    run_at(&mut dir, &Mode::Drain, 0, 1).unwrap();
    assert!(matches!(&dir.dead_letter, FileBytes::Bytes(bytes) if bytes == b"{}\n"));
    assert!(dir.dead_letter_tmp);
}

#[test]
fn the_cursor_that_is_written_is_read_back() {
    for offset in [0, 7, u64::MAX] {
        let mut dir = with_inbox("");
        dir.perform(Effect::WriteOffset(offset));
        assert_eq!(read_offset(&dir).unwrap(), Some(offset));
        assert!(matches!(&dir.offset, FileText::Text(text) if *text == offset.to_string()));
    }
}

#[test]
fn a_delivery_leaves_the_cursor_at_the_entry() {
    let mut dir = with_inbox("\n \none\n\n\ntwo\n");
    for (secs, start) in [(0, 3), (1, 9)] {
        run_at(&mut dir, &Mode::Drain, 0, secs).unwrap();
        let entry = InFlightEntry::read_from(&dir).unwrap().unwrap();
        assert_eq!(entry.start_offset, start);
        assert_eq!(cursor(&dir), start);
    }
}

#[test]
fn blank_lines_alone_end_a_session() {
    let mut dir = with_inbox("\n \n");
    assert_eq!(
        run_at(&mut dir, &Mode::Drain, 0, 0).unwrap(),
        Decision::Block("/exit".to_string())
    );
    let mut dir = with_inbox("\n");
    assert_eq!(run_at(&mut dir, &Mode::Persist, 0, 0).unwrap(), Decision::IdleTick);
}

/// The directory `before`, after the effects of `planned` were carried out, of which those at
/// `failing` fail, and what the operation comes to.
fn attempted<T>(
    before: &SessionDir,
    planned: &SessionDir,
    failing: &[usize],
    result: Result<T, HeartbeatError>,
) -> (SessionDir, Result<T, HeartbeatError>) {
    let mut dir = copy(before);
    let mut progress =
        if planned.effects.is_empty() { Progress::Finished } else { Progress::Next(0) };
    loop {
        match progress {
            Progress::Next(i) => {
                let fails = failing.contains(&i);
                if !fails {
                    dir.perform(copy_effect(&planned.effects[i]));
                }
                progress = planned.carried_out(i, if fails { Some("full") } else { None });
            }
            Progress::Finished => {
                dir.effects.clear();
                return (dir, conclude(None, result));
            }
            Progress::Failed(e) => {
                dir.effects.clear();
                return (dir, conclude(Some(e), result));
            }
        }
    }
}

#[test]
fn a_stop_that_fails_can_be_tried_again() {
    let fresh = with_inbox("\none\n\n two \n");
    let mut answered = copy(&fresh);
    run_at(&mut answered, &Mode::Drain, 0, 1).unwrap();
    answered.effects.clear();
    let mut errors = 0;
    for (before, unread, text) in [(&fresh, "one", "one"), (&answered, "one", "two")] {
        let expected = Decision::Block(text.to_string());
        let mut planned = copy(before);
        run_at(&mut planned, &Mode::Drain, 0, 2).unwrap();
        for k in 0..planned.effects.len() {
            let (left, result) = attempted(before, &planned, &[k], Ok(()));
            let (mut first, mut retried) = (copy(&left), copy(&left));
            if result.is_ok() {
                // Only a removal failed, and the message went out.
                assert_eq!(read_next_entry(&mut first).unwrap().unwrap().decoded, text);
                continue;
            }
            errors += 1;
            let next = read_next_entry(&mut first).unwrap().unwrap().decoded;
            assert_eq!(next, if k == 0 { unread } else { text });
            assert_eq!(run_at(&mut retried, &Mode::Drain, 0, 3).unwrap(), expected);
        }
        let (left, result) = attempted(before, &planned, &[], Ok(()));
        assert!(result.is_ok());
        assert_eq!(cursor(&left), cursor(&planned));
        assert!(left.responded);
    }
    assert!(errors >= 5);
}

#[test]
fn a_recovery_that_fails_can_be_run_again() {
    let mut before = with_inbox("one\ntwo\n");
    run_at(&mut before, &Mode::Drain, 0, 1).unwrap();
    before.effects.clear();
    for policy in POLICIES {
        let mut planned = copy(&before);
        let outcome = recover(&mut planned, policy).unwrap();
        let mut errors = 0;
        for k in 0..planned.effects.len() {
            // Effect 0 removes a half-written dead-letter file, and is passed over.
            let (left, result) = attempted(&before, &planned, &[0, k], Ok(()));
            if result.is_err() {
                errors += 1;
                assert!(matches!(left.in_flight, FileEntry::Entry(_)));
                assert_eq!(cursor(&left), cursor(&before));
                let mut again = copy(&left);
                assert_eq!(recover(&mut again, policy).unwrap(), outcome);
            }
        }
        assert!(errors >= 1);
    }
}
