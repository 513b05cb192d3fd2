use heartbeat_rs::error::HeartbeatError;
use heartbeat_rs::in_flight::InFlightEntry;
use heartbeat_rs::paths::FilePath;
use heartbeat_rs::session_dir::{conclude, Effect, Progress, SessionDir};

fn s(text: &str) -> String {
    text.to_string()
}

#[test]
fn messages_are_exact() {
    let path = || s("/io/file");
    let source = || s("reason");
    for (error, message) in [
        (HeartbeatError::InboxRead(source()), "inbox read error: reason"),
        (
            HeartbeatError::OffsetCorrupt { path: path(), content: s("a\"b\n\\é\u{1}") },
            "offset file corrupt at /io/file: expected numeric offset, got \
             \"a\\\"b\\n\\\\é\\u{1}\"",
        ),
        (
            HeartbeatError::OffsetRead { path: path(), source: source() },
            "offset file read error at /io/file: reason",
        ),
        (
            HeartbeatError::OffsetWrite { path: path(), source: source() },
            "offset file write error at /io/file: reason",
        ),
        (
            HeartbeatError::InFlightCorrupt { path: path(), source: source() },
            ".in-flight corrupt at /io/file: reason",
        ),
        (
            HeartbeatError::InFlightRead { path: path(), source: source() },
            ".in-flight read error at /io/file: reason",
        ),
        (
            HeartbeatError::InFlightWrite { path: path(), source: source() },
            ".in-flight write error at /io/file: reason",
        ),
        (
            HeartbeatError::InconsistentState { io_dir: s("/io") },
            "inconsistent state: .responded present without .in-flight at /io; run \
             `heartbeat-stop recover`",
        ),
        (
            HeartbeatError::DeadLetterWrite { path: path(), source: source() },
            "dead-letter write error at /io/file: reason",
        ),
    ] {
        assert_eq!(error.message(), message);
    }
}

#[test]
fn failed_effects_are_the_errors_of_their_files() {
    let dir = SessionDir::empty(FilePath::unix("/io/inbox.jsonl"));
    match dir.failure(&Effect::WriteOffset(1), "full") {
        Some(HeartbeatError::OffsetWrite { path, source }) => {
            assert_eq!(path, "/io/.inbox-offset");
            assert_eq!(source, "full");
        }
        other => panic!("unexpected {:?}", other),
    }
    match dir.failure(&Effect::WriteInFlight(InFlightEntry::new("x", 0, 2)), "full") {
        Some(HeartbeatError::InFlightWrite { path, .. }) => assert_eq!(path, "/io/.in-flight"),
        other => panic!("unexpected {:?}", other),
    }
    match dir.failure(&Effect::TouchResponded, "full") {
        Some(HeartbeatError::InFlightWrite { path, .. }) => assert_eq!(path, "/io/.responded"),
        other => panic!("unexpected {:?}", other),
    }
    match dir.failure(&Effect::ReplaceDeadLetter(vec![]), "full") {
        Some(HeartbeatError::DeadLetterWrite { path, .. }) => {
            assert_eq!(path, "/io/.dead-letter.jsonl")
        }
        other => panic!("unexpected {:?}", other),
    }
    for effect in [
        Effect::RemoveInFlight,
        Effect::RemoveResponded,
        Effect::RemoveDeadLetterTmp,
        Effect::Sleep(1),
    ] {
        assert!(dir.failure(&effect, "gone").is_none());
    }
}

#[test]
fn effects_are_carried_out_up_to_the_first_error() {
    let mut dir = SessionDir::empty(FilePath::unix("/io/inbox.jsonl"));
    dir.perform(Effect::WriteOffset(7));
    dir.perform(Effect::RemoveInFlight);
    dir.perform(Effect::TouchResponded);
    assert!(matches!(dir.carried_out(0, None), Progress::Next(1)));
    assert!(matches!(dir.carried_out(1, None), Progress::Next(2)));
    // A removal that fails is passed over.
    assert!(matches!(dir.carried_out(1, Some("gone")), Progress::Next(2)));
    assert!(matches!(dir.carried_out(2, None), Progress::Finished));
    match dir.carried_out(0, Some("full")) {
        Progress::Failed(HeartbeatError::OffsetWrite { path, source }) => {
            assert_eq!(path, "/io/.inbox-offset");
            assert_eq!(source, "full");
        }
        other => panic!("unexpected {:?}", other),
    }
    match dir.carried_out(2, Some("full")) {
        Progress::Failed(HeartbeatError::InFlightWrite { path, .. }) => {
            assert_eq!(path, "/io/.responded")
        }
        other => panic!("unexpected {:?}", other),
    }
    dir.perform(Effect::RemoveResponded);
    assert!(matches!(dir.carried_out(3, Some("gone")), Progress::Finished));
}

#[test]
fn the_error_of_an_effect_stands_before_the_result() {
    let failed = || {
        let (path, source) = ("/io/.in-flight".to_string(), "full".to_string());
        HeartbeatError::InFlightWrite { path, source }
    };
    let inconsistent = || HeartbeatError::InconsistentState { io_dir: "/io".to_string() };
    assert_eq!(conclude(None, Ok(5)).unwrap(), 5);
    let result: Result<u8, HeartbeatError> = conclude(None, Err(inconsistent()));
    assert!(matches!(result, Err(HeartbeatError::InconsistentState { .. })));
    assert!(matches!(conclude(Some(failed()), Ok(5)), Err(HeartbeatError::InFlightWrite { .. })));
    let result: Result<u8, HeartbeatError> = conclude(Some(failed()), Err(inconsistent()));
    assert!(matches!(result, Err(HeartbeatError::InFlightWrite { .. })));
}
