use heartbeat_rs::idle::{IdleConfig, NANOS_PER_SEC};
use heartbeat_rs::launch::report;
use heartbeat_rs::pty::{
    ChildStatus, Ending, Event, PtyError, Request, RunResult, Supervisor, Verdict,
};

/// A child, a clock and a signal file to drive a supervisor with.
struct World {
    now: u64,
    last_read: u64,
    /// When the child exits on its own, and with what.
    exits: Option<(u64, u32)>,
    /// When the signal file appears.
    signal: Option<u64>,
    /// Whether SIGTERM ends the child.
    heeds_term: bool,
    dead: Option<u32>,
    log: Vec<String>,
    /// When keepalives were written.
    keepalives: Vec<u64>,
}

impl World {
    fn new() -> World {
        World {
            now: 0,
            last_read: 0,
            exits: None,
            signal: None,
            heeds_term: true,
            dead: None,
            log: Vec::new(),
            keepalives: Vec::new(),
        }
    }

    fn status(&self) -> ChildStatus {
        if let Some(code) = self.dead {
            return ChildStatus::Exited(code);
        }
        match self.exits {
            Some((when, code)) if self.now >= when => ChildStatus::Exited(code),
            _ => ChildStatus::Running,
        }
    }

    fn drive(&mut self, supervisor: &mut Supervisor) -> Result<RunResult, PtyError> {
        for _ in 0..1_000_000 {
            let event = match supervisor.request() {
                Request::CheckChild => Event::Child(self.status()),
                Request::LookForSignal => Event::Signal(self.signal.is_some_and(|s| self.now >= s)),
                Request::Terminate => {
                    self.signal = None;
                    self.log.push("term".to_string());
                    if self.heeds_term {
                        self.dead = Some(1);
                    }
                    Event::Done
                }
                Request::ForceKill => {
                    self.log.push("force".to_string());
                    self.dead = Some(1);
                    Event::Done
                }
                Request::Kill(_) => {
                    self.log.push("kill".to_string());
                    self.dead = Some(1);
                    Event::Done
                }
                Request::Keepalive => {
                    self.log.push("keepalive".to_string());
                    self.now += 50_000_000;
                    self.keepalives.push(self.now);
                    Event::Done
                }
                Request::Pause(ms) => {
                    self.now += ms * 1_000_000;
                    Event::Done
                }
                Request::Finish(ending) => {
                    return supervisor.conclude(ending, "no such process");
                }
            };
            supervisor.step(event, self.now, self.last_read);
        }
        panic!("the run does not end");
    }
}

fn secs(n: u64) -> u64 {
    n * NANOS_PER_SEC
}

#[test]
fn echo_hello_exit_zero() {
    let mut world = World::new();
    world.exits = Some((secs(0), 0));
    let mut supervisor = Supervisor::new(10, false, None, 0);
    let result = world.drive(&mut supervisor).expect("run should succeed");
    assert_eq!(result.exit_code, 0, "echo should exit 0");
}

#[test]
fn nonzero_exit_code_propagated() {
    let mut world = World::new();
    world.exits = Some((secs(1), 1));
    let mut supervisor = Supervisor::new(10, false, None, 0);
    let result = world.drive(&mut supervisor).expect("run should succeed");
    assert_ne!(result.exit_code, 0, "false should exit non-zero");
    assert_eq!(result.exit_code, 1);
    assert!(world.log.is_empty());
}

#[test]
fn timeout_fires() {
    let mut world = World::new();
    world.exits = Some((secs(60), 0));
    let mut supervisor = Supervisor::new(1, false, None, 0);
    let err = world.drive(&mut supervisor).expect_err("should time out");
    match err {
        PtyError::Timeout(secs) => assert_eq!(secs, 1),
        other => panic!("expected Timeout, got {other:?}"),
    }
    assert_eq!(world.log, vec!["kill"]);
    assert_eq!(world.now, secs(1) + 500_000_000);
}

#[test]
fn exit_signal_triggers_child_exit() {
    let mut world = World::new();
    world.signal = Some(300_000_000);
    let mut supervisor = Supervisor::new(10, true, None, 0);
    let result = world.drive(&mut supervisor).expect("run should succeed");
    assert_eq!(
        result.exit_code, 0,
        "child killed via exit-signal should return exit code 0"
    );
    assert!(world.signal.is_none(), "signal file should be deleted after SIGTERM is sent");
    assert_eq!(world.log, vec!["term"]);
}

#[test]
fn a_child_that_ignores_the_signal_is_killed_after_the_grace_period() {
    let mut world = World::new();
    world.signal = Some(0);
    world.heeds_term = false;
    let mut supervisor = Supervisor::new(0, true, None, 0);
    let result = world.drive(&mut supervisor).unwrap();
    assert_eq!(result.exit_code, 0);
    assert_eq!(world.log, vec!["term", "force"]);
    assert!(world.now >= secs(2));
    assert!(world.now < secs(3));
}

#[test]
fn the_signal_terminates_at_most_once() {
    let mut world = World::new();
    world.signal = Some(0);
    let mut supervisor = Supervisor::new(0, true, None, 0);
    world.drive(&mut supervisor).unwrap();
    assert_eq!(world.log, vec!["term"]);
    assert_eq!(supervisor.request(), Request::Finish(Ending::Exited(0)));
}

#[test]
fn without_a_signal_file_none_is_looked_for() {
    let mut world = World::new();
    world.signal = Some(0);
    world.exits = Some((secs(1), 9));
    let mut supervisor = Supervisor::new(0, false, None, 0);
    assert_eq!(world.drive(&mut supervisor).unwrap().exit_code, 9);
    assert!(world.log.is_empty());
}

#[test]
fn a_timeout_of_zero_never_fires() {
    let mut world = World::new();
    world.exits = Some((secs(5000), 0));
    let mut supervisor = Supervisor::new(0, false, None, 0);
    assert_eq!(world.drive(&mut supervisor).unwrap().exit_code, 0);
    assert!(world.log.is_empty());
}

#[test]
fn a_silent_child_is_poked_and_then_given_up() {
    let mut world = World::new();
    let config = IdleConfig { timeout_secs: 5, prompt: "go".to_string(), max_retries: 2 };
    let mut supervisor = Supervisor::new(0, false, Some(&config), 0);
    match world.drive(&mut supervisor) {
        Err(PtyError::IdleExhausted(secs)) => assert_eq!(secs, 5),
        other => panic!("expected IdleExhausted, got {other:?}"),
    }
    assert_eq!(world.log, vec!["keepalive", "keepalive", "kill"]);
    assert_eq!(supervisor.idle().retry_count, 2);
    assert!(world.now >= secs(15));
    // Nothing was ever read: the silence is counted from each keepalive.
    assert!(world.keepalives[0] >= secs(5));
    assert!(world.keepalives[1] - world.keepalives[0] >= secs(5));
    assert!(world.now - world.keepalives[1] >= secs(5));
}

#[test]
fn a_child_whose_status_fails_ends_the_run_at_once() {
    let mut supervisor = Supervisor::new(10, true, None, 0);
    assert_eq!(supervisor.request(), Request::CheckChild);
    supervisor.step(Event::Child(ChildStatus::Failed), 1, 0);
    assert_eq!(supervisor.request(), Request::Finish(Ending::Failed));
    match supervisor.conclude(Ending::Failed, "no such process") {
        Err(PtyError::Io(source)) => assert_eq!(source, "no such process"),
        other => panic!("expected Io, got {other:?}"),
    }
}

#[test]
fn an_event_that_answers_nothing_changes_nothing() {
    let mut supervisor = Supervisor::new(10, true, None, 0);
    supervisor.step(Event::Done, secs(100), 0);
    supervisor.step(Event::Signal(true), secs(100), 0);
    assert_eq!(supervisor.request(), Request::CheckChild);
    supervisor.step(Event::Child(ChildStatus::Exited(3)), 1, 0);
    supervisor.step(Event::Child(ChildStatus::Running), secs(100), 0);
    assert_eq!(supervisor.request(), Request::Finish(Ending::Exited(3)));
}

#[test]
fn the_deadline_itself_is_late() {
    let mut early = Supervisor::new(10, false, None, 7);
    early.step(Event::Child(ChildStatus::Running), secs(10) + 6, secs(10));
    assert_eq!(early.request(), Request::Pause(100));
    let mut late = Supervisor::new(10, false, None, 7);
    late.step(Event::Child(ChildStatus::Running), secs(10) + 7, secs(10));
    assert_eq!(late.request(), Request::Kill(Verdict::TimedOut));
    late.step(Event::Done, secs(11), secs(10));
    assert_eq!(late.request(), Request::Pause(500));
    late.step(Event::Done, secs(11), secs(10));
    assert_eq!(late.request(), Request::Finish(Ending::Killed(Verdict::TimedOut)));
}

#[test]
fn pty_error_messages_are_exact() {
    assert_eq!(PtyError::Open("no".to_string()).message(), "failed to open PTY: no");
    assert_eq!(PtyError::Spawn("no".to_string()).message(), "failed to spawn command: no");
    assert_eq!(PtyError::Reader("no".to_string()).message(), "failed to clone PTY reader: no");
    assert_eq!(PtyError::Io("no".to_string()).message(), "I/O error: no");
    assert_eq!(PtyError::Timeout(30).message(), "timeout: child did not exit within 30s");
    assert_eq!(
        PtyError::IdleExhausted(60).message(),
        "idle exhausted: no output for 60s after maximum keepalive retries"
    );
}

#[test]
fn timeout_exits_124() {
    let mut world = World::new();
    let mut supervisor = Supervisor::new(1, false, None, 0);
    let result = world.drive(&mut supervisor);
    let said = report(&result);
    assert_eq!(said.status, 124, "timeout should exit 124");
    assert_eq!(said.lines, vec!["heartbeat-launch: timeout after 1s — child killed"]);
}

#[test]
fn exit_code_forwarded() {
    let mut world = World::new();
    world.exits = Some((0, 1));
    let mut supervisor = Supervisor::new(10, false, None, 0);
    let result = world.drive(&mut supervisor);
    let said = report(&result);
    assert_ne!(said.status, 0, "`false` should produce non-zero exit code");
    assert_eq!(said.lines, vec!["heartbeat-launch: child exited with code 1"]);
}

#[test]
fn output_after_the_echo_gives_the_keepalives_back() {
    let mut supervisor = Supervisor::new(
        0,
        false,
        Some(&IdleConfig { timeout_secs: 5, prompt: "go".to_string(), max_retries: 1 }),
        0,
    );
    let mut asked = 0;
    let mut last_read = 0;
    let mut now = 0;
    loop {
        let event = match supervisor.request() {
            Request::CheckChild => Event::Child(ChildStatus::Running),
            Request::Keepalive => {
                asked += 1;
                Event::Done
            }
            Request::Pause(ms) => {
                now += ms * 1_000_000;
                Event::Done
            }
            Request::Kill(verdict) => {
                assert_eq!(verdict, Verdict::IdleExhausted);
                break;
            }
            other => panic!("unexpected {other:?}"),
        };
        // Three seconds after the first keepalive the child says something.
        if asked == 1 && now >= secs(8) {
            last_read = secs(8);
        }
        supervisor.step(event, now, last_read);
    }
    assert_eq!(asked, 2);
}

#[test]
fn a_child_that_exits_in_the_grace_period_is_not_forced() {
    let mut supervisor = Supervisor::new(0, true, None, 0);
    supervisor.step(Event::Child(ChildStatus::Running), 1, 0);
    supervisor.step(Event::Signal(true), 1, 0);
    assert_eq!(supervisor.request(), Request::Terminate);
    supervisor.step(Event::Done, 1, 0);
    supervisor.step(Event::Child(ChildStatus::Running), 1, 0);
    assert_eq!(supervisor.request(), Request::Pause(50));
    // The grace is not over before its last nanosecond.
    supervisor.step(Event::Done, secs(2), 0);
    assert_eq!(supervisor.request(), Request::CheckChild);
    supervisor.step(Event::Child(ChildStatus::Running), secs(2), 0);
    assert_eq!(supervisor.request(), Request::Pause(50));
    supervisor.step(Event::Done, secs(2) + 1, 0);
    assert_eq!(supervisor.request(), Request::CheckChild);
    // This look decides.
    supervisor.step(Event::Child(ChildStatus::Exited(0)), secs(2) + 1, 0);
    assert_eq!(supervisor.request(), Request::Pause(100));
}

#[test]
fn a_child_that_cannot_be_looked_at_is_forced() {
    let mut supervisor = Supervisor::new(0, true, None, 0);
    supervisor.step(Event::Child(ChildStatus::Running), 1, 0);
    supervisor.step(Event::Signal(true), 1, 0);
    supervisor.step(Event::Done, 1, 0);
    supervisor.step(Event::Child(ChildStatus::Exited(0)), 1, 0);
    assert_eq!(supervisor.request(), Request::CheckChild);
    supervisor.step(Event::Child(ChildStatus::Failed), 1, 0);
    assert_eq!(supervisor.request(), Request::ForceKill);
}
