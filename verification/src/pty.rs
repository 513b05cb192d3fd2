//! Supervision of a child in a pseudo-terminal: what the poll loop asks for, and how a run ends.
//!
//! [`Supervisor`] is the loop as a state machine. It says what to do next ([`Supervisor::request`])
//! and is told what came of it ([`Supervisor::step`]); whoever drives it has the terminal, the
//! child and the clock. Times are nanoseconds on a monotonic clock.

use vstd::prelude::*;

use crate::idle::{tick_idle, IdleState, IdleTick, IdleView, NANOS_PER_SEC};
use crate::text;

pub use crate::idle::IdleConfig;

verus! {

/// Rows of the pseudo-terminal.
pub const PTY_ROWS: u16 = 50;

/// Columns of the pseudo-terminal: wide enough that the child does not wrap its lines.
pub const PTY_COLS: u16 = 200;

/// Milliseconds between two looks at the child.
pub const POLL_INTERVAL_MS: u64 = 100;

/// Seconds that a terminated child has to shut down.
pub const TERM_GRACE_SECS: u64 = 2;

/// Milliseconds between two looks at a terminated child.
pub const TERM_POLL_MS: u64 = 50;

/// Milliseconds that a killed child is given to go.
pub const KILL_SETTLE_MS: u64 = 500;

/// Result of a run.
#[derive(Debug)]
pub struct RunResult {
    /// Exit code of the child.
    pub exit_code: u32,
}

/// Why a run failed.
#[derive(Debug)]
pub enum PtyError {
    /// The pseudo-terminal could not be opened.
    Open(String),
    /// The command could not be spawned in it.
    Spawn(String),
    /// No reader of its output could be had.
    Reader(String),
    /// The child's status could not be asked for.
    Io(String),
    /// The child did not exit within so many seconds. It has been killed.
    Timeout(u64),
    /// The child showed no output for so many seconds, and did not recover after the last
    /// keepalive. It has been killed.
    IdleExhausted(u64),
}

/// What a [`PtyError`] says.
#[verifier::ext_equal]
pub enum PtyErrorView {
    Open(Seq<char>),
    Spawn(Seq<char>),
    Reader(Seq<char>),
    Io(Seq<char>),
    Timeout(u64),
    IdleExhausted(u64),
}

impl View for PtyError {
    type V = PtyErrorView;

    open spec fn view(&self) -> PtyErrorView {
        match *self {
            PtyError::Open(source) => PtyErrorView::Open(source@),
            PtyError::Spawn(source) => PtyErrorView::Spawn(source@),
            PtyError::Reader(source) => PtyErrorView::Reader(source@),
            PtyError::Io(source) => PtyErrorView::Io(source@),
            PtyError::Timeout(secs) => PtyErrorView::Timeout(secs),
            PtyError::IdleExhausted(secs) => PtyErrorView::IdleExhausted(secs),
        }
    }
}

/// The message of an error.
pub open spec fn pty_error_text(e: PtyErrorView) -> Seq<char> {
    match e {
        PtyErrorView::Open(source) => "failed to open PTY: "@ + source,
        PtyErrorView::Spawn(source) => "failed to spawn command: "@ + source,
        PtyErrorView::Reader(source) => "failed to clone PTY reader: "@ + source,
        PtyErrorView::Io(source) => "I/O error: "@ + source,
        PtyErrorView::Timeout(secs) => "timeout: child did not exit within "@ + text::decimal(
            secs as nat,
        ) + "s"@,
        PtyErrorView::IdleExhausted(secs) => "idle exhausted: no output for "@ + text::decimal(
            secs as nat,
        ) + "s after maximum keepalive retries"@,
    }
}

impl PtyError {
    /// The message of this error.
    pub fn message(&self) -> (r: String)
        ensures
            r@ == pty_error_text(self@),
    {
        match self {
            PtyError::Open(source) => "failed to open PTY: ".to_owned().concat(source.as_str()),
            PtyError::Spawn(source) => "failed to spawn command: ".to_owned().concat(
                source.as_str(),
            ),
            PtyError::Reader(source) => "failed to clone PTY reader: ".to_owned().concat(
                source.as_str(),
            ),
            PtyError::Io(source) => "I/O error: ".to_owned().concat(source.as_str()),
            PtyError::Timeout(secs) => {
                let n = text::decimal_text(*secs as u128);
                "timeout: child did not exit within ".to_owned().concat(n.as_str()).concat("s")
            },
            PtyError::IdleExhausted(secs) => {
                let n = text::decimal_text(*secs as u128);
                "idle exhausted: no output for ".to_owned().concat(n.as_str()).concat(
                    "s after maximum keepalive retries",
                )
            },
        }
    }
}

/// What a result of a run says.
pub open spec fn run_result(r: Result<RunResult, PtyError>) -> Result<u32, PtyErrorView> {
    match r {
        Ok(result) => Ok(result.exit_code),
        Err(e) => Err(e@),
    }
}

/// What the child's status is found to be.
#[derive(Debug, Clone, Copy, PartialEq, Eq, Structural)]
pub enum ChildStatus {
    /// It is still running.
    Running,
    /// It has exited with this code.
    Exited(u32),
    /// Its status could not be asked for.
    Failed,
}

/// Why the supervisor kills the child.
#[derive(Debug, Clone, Copy, PartialEq, Eq, Structural)]
pub enum Verdict {
    /// It did not exit in time.
    TimedOut,
    /// It stayed silent after the last keepalive.
    IdleExhausted,
}

/// How a run ends.
#[derive(Debug, Clone, Copy, PartialEq, Eq, Structural)]
pub enum Ending {
    /// The child exited, and this is the code to report. Its output is to be drained.
    Exited(u32),
    /// The child was killed. Its output is to be drained.
    Killed(Verdict),
    /// The child's status could not be asked for.
    Failed,
}

/// What the supervisor asks for.
#[derive(Debug, Clone, Copy, PartialEq, Eq, Structural)]
pub enum Request {
    /// Ask for the child's status, and report it as [`Event::Child`].
    CheckChild,
    /// Look whether the signal file exists, and report it as [`Event::Signal`].
    LookForSignal,
    /// Remove the signal file and send SIGTERM to the child's process group.
    Terminate,
    /// A terminated child did not go: send SIGKILL to its process group, and kill the child itself.
    ForceKill,
    /// Send SIGKILL to the child's process group, and kill the child itself, for this reason.
    Kill(Verdict),
    /// Write a keepalive. [`Event::Done`] is to be reported with the time at which it is written.
    Keepalive,
    /// Wait for this many milliseconds.
    Pause(u64),
    /// Nothing more: the run has ended.
    Finish(Ending),
}

/// What came of a request.
#[derive(Debug, Clone, Copy, PartialEq, Eq, Structural)]
pub enum Event {
    /// The child's status.
    Child(ChildStatus),
    /// Whether the signal file exists.
    Signal(bool),
    /// The request was carried out.
    Done,
}

/// Where the supervisor stands.
#[derive(Debug, Clone, Copy, PartialEq, Eq, Structural)]
pub enum Phase {
    /// The child's status has been asked for.
    Polling,
    /// The signal file is being looked for.
    Looking,
    /// The child is being terminated.
    Terminating,
    /// A terminated child's status has been asked for. It has until this time to go.
    Grace(u128),
    /// A terminated child is being waited for. It has until this time to go.
    GracePause(u128),
    /// The grace is over, and the child's status has been asked for once more.
    GraceOver,
    /// The terminated child did not go, and is being killed.
    Forcing,
    /// A keepalive is being written.
    Poking,
    /// The next look at the child is being waited for.
    Resting,
    /// The child is being killed.
    Killing(Verdict),
    /// The killed child is being waited for.
    Settling(Verdict),
    /// The run has ended.
    Finished(Ending),
}

/// The poll loop over a child, as a state machine.
#[derive(Debug)]
pub struct Supervisor {
    timeout_secs: u64,
    deadline: Option<u128>,
    watches_signal: bool,
    exit_sent: bool,
    idle: IdleState,
    last_output: u64,
    phase: Phase,
}

/// What a [`Supervisor`] holds.
#[verifier::ext_equal]
pub struct SupervisorView {
    /// Seconds after which the child is killed; zero for no such limit.
    pub timeout_secs: u64,
    /// When that is.
    pub deadline: Option<int>,
    /// Whether there is a signal file to look for.
    pub watches_signal: bool,
    /// Whether the child was terminated because the signal file appeared.
    pub exit_sent: bool,
    /// The state of idle detection.
    pub idle: IdleView,
    /// When output counts as last seen: the start of the run, the last read that was reported, or
    /// the last keepalive.
    pub last_output: u64,
    /// Where the supervisor stands.
    pub phase: Phase,
}

impl View for Supervisor {
    type V = SupervisorView;

    closed spec fn view(&self) -> SupervisorView {
        SupervisorView {
            timeout_secs: self.timeout_secs,
            deadline: match self.deadline {
                Some(at) => Some(at as int),
                None => None,
            },
            watches_signal: self.watches_signal,
            exit_sent: self.exit_sent,
            idle: self.idle@,
            last_output: self.last_output,
            phase: self.phase,
        }
    }
}

impl SupervisorView {
    /// The supervisor at the start of a run.
    pub open spec fn initial(
        timeout_secs: u64,
        watches_signal: bool,
        idle: IdleView,
        now: u64,
    ) -> SupervisorView {
        SupervisorView {
            timeout_secs,
            deadline: if timeout_secs > 0 {
                Some(now + timeout_secs * NANOS_PER_SEC)
            } else {
                None
            },
            watches_signal,
            exit_sent: false,
            idle,
            last_output: now,
            phase: Phase::Polling,
        }
    }

    /// The same in another phase.
    pub open spec fn in_phase(self, phase: Phase) -> SupervisorView {
        SupervisorView { phase, ..self }
    }

    /// Whether the child has had its time.
    pub open spec fn overdue(self, now: u64) -> bool {
        self.deadline matches Some(at) && now >= at
    }

    /// When output counts as last seen, given when it was last read: a keepalive counts too.
    pub open spec fn seen(self, last_read: u64) -> u64 {
        if last_read > self.last_output {
            last_read
        } else {
            self.last_output
        }
    }

    /// What follows the look at the silence that ends each round.
    pub open spec fn idled(self, now: u64, last_read: u64) -> SupervisorView {
        let seen = self.seen(last_read);
        let next = SupervisorView {
            idle: self.idle.after_tick(seen, now),
            last_output: self.idle.seen_after(seen, now),
            ..self
        };
        match self.idle.ticked(seen, now) {
            IdleTick::Exhausted => next.in_phase(Phase::Killing(Verdict::IdleExhausted)),
            IdleTick::KeepaliveInjected => next.in_phase(Phase::Poking),
            _ => next.in_phase(Phase::Resting),
        }
    }

    /// What follows an event. One that does not answer the last request changes nothing.
    pub open spec fn stepped(self, event: Event, now: u64, last_read: u64) -> SupervisorView {
        match (self.phase, event) {
            (Phase::Polling, Event::Child(ChildStatus::Exited(code))) => self.in_phase(
                Phase::Finished(
                    Ending::Exited(
                        if self.exit_sent {
                            0
                        } else {
                            code
                        },
                    ),
                ),
            ),
            (Phase::Polling, Event::Child(ChildStatus::Failed)) => self.in_phase(
                Phase::Finished(Ending::Failed),
            ),
            (Phase::Polling, Event::Child(ChildStatus::Running)) => if self.overdue(now) {
                self.in_phase(Phase::Killing(Verdict::TimedOut))
            } else if self.watches_signal && !self.exit_sent {
                self.in_phase(Phase::Looking)
            } else {
                self.idled(now, last_read)
            },
            (Phase::Looking, Event::Signal(true)) => self.in_phase(Phase::Terminating),
            (Phase::Looking, Event::Signal(false)) => self.idled(now, last_read),
            (Phase::Terminating, Event::Done) => self.in_phase(
                Phase::Grace((now + TERM_GRACE_SECS * NANOS_PER_SEC) as u128),
            ),
            (Phase::Grace(_), Event::Child(ChildStatus::Exited(_))) => self.in_phase(
                Phase::GraceOver,
            ),
            (Phase::Grace(until), Event::Child(_)) => self.in_phase(Phase::GracePause(until)),
            (Phase::GracePause(until), Event::Done) => if now < until {
                self.in_phase(Phase::Grace(until))
            } else {
                self.in_phase(Phase::GraceOver)
            },
            (Phase::GraceOver, Event::Child(ChildStatus::Exited(_))) => SupervisorView {
                exit_sent: true,
                ..self
            }.idled(now, last_read),
            (Phase::GraceOver, Event::Child(_)) => self.in_phase(Phase::Forcing),
            (Phase::Forcing, Event::Done) => SupervisorView { exit_sent: true, ..self }.idled(
                now,
                last_read,
            ),
            (Phase::Poking, Event::Done) => SupervisorView {
                idle: IdleView { last_keepalive: Some(now), ..self.idle },
                last_output: now,
                ..self
            }.in_phase(Phase::Resting),
            (Phase::Resting, Event::Done) => self.in_phase(Phase::Polling),
            (Phase::Killing(verdict), Event::Done) => self.in_phase(Phase::Settling(verdict)),
            (Phase::Settling(verdict), Event::Done) => self.in_phase(
                Phase::Finished(Ending::Killed(verdict)),
            ),
            _ => self,
        }
    }

    /// The result of a run that ends so.
    pub open spec fn concluded(self, ending: Ending, reason: Seq<char>) -> Result<
        u32,
        PtyErrorView,
    > {
        match ending {
            Ending::Exited(exit_code) => Ok(exit_code),
            Ending::Killed(Verdict::TimedOut) => Err(PtyErrorView::Timeout(self.timeout_secs)),
            Ending::Killed(Verdict::IdleExhausted) => Err(
                PtyErrorView::IdleExhausted(self.idle.timeout),
            ),
            Ending::Failed => Err(PtyErrorView::Io(reason)),
        }
    }

    /// What holds of a supervisor throughout a run.
    pub open spec fn wf(self) -> bool {
        &&& self.idle.wf()
        &&& self.deadline is Some <==> self.timeout_secs > 0
        &&& self.exit_sent ==> self.watches_signal
        &&& self.terminates() ==> self.watches_signal && !self.exit_sent
        &&& self.stopped_for(Verdict::TimedOut) ==> self.timeout_secs > 0
        &&& self.stopped_for(Verdict::IdleExhausted) ==> self.idle.timeout > 0
            && self.idle.retry_count >= self.idle.max_retries
    }

    /// Whether the child is being terminated, or may be about to, because of the signal file.
    pub open spec fn terminates(self) -> bool {
        self.phase is Looking || self.terminated()
    }

    /// Whether the signal file was seen, and the child is being terminated.
    pub open spec fn terminated(self) -> bool {
        ||| self.phase is Terminating
        ||| self.phase is Grace
        ||| self.phase is GracePause
        ||| self.phase is GraceOver
        ||| self.phase is Forcing
    }

    /// Whether the child is being killed, or was, for that reason.
    pub open spec fn stopped_for(self, verdict: Verdict) -> bool {
        ||| self.phase == Phase::Killing(verdict)
        ||| self.phase == Phase::Settling(verdict)
        ||| self.phase == Phase::Finished(Ending::Killed(verdict))
    }

    /// What the supervisor asks for.
    pub open spec fn requested(self) -> Request {
        match self.phase {
            Phase::Polling => Request::CheckChild,
            Phase::Looking => Request::LookForSignal,
            Phase::Terminating => Request::Terminate,
            Phase::Grace(_) => Request::CheckChild,
            Phase::GracePause(_) => Request::Pause(TERM_POLL_MS),
            Phase::GraceOver => Request::CheckChild,
            Phase::Forcing => Request::ForceKill,
            Phase::Poking => Request::Keepalive,
            Phase::Resting => Request::Pause(POLL_INTERVAL_MS),
            Phase::Killing(verdict) => Request::Kill(verdict),
            Phase::Settling(_) => Request::Pause(KILL_SETTLE_MS),
            Phase::Finished(ending) => Request::Finish(ending),
        }
    }
}

impl Supervisor {
    /// A supervisor of a child that was spawned at `now`.
    ///
    /// `timeout_secs` is how long the child may run, with zero for no limit; `watches_signal` is
    /// whether there is a signal file to look for.
    pub fn new(
        timeout_secs: u64,
        watches_signal: bool,
        idle: Option<&IdleConfig>,
        now: u64,
    ) -> (r: Self)
        ensures
            r@ == SupervisorView::initial(
                timeout_secs,
                watches_signal,
                IdleView::initial(
                    match idle {
                        Some(config) => Some(*config),
                        None => None,
                    },
                ),
                now,
            ),
            r@.timeout_secs == timeout_secs,
            r@.deadline == if timeout_secs > 0 {
                Some(now + timeout_secs * 1_000_000_000)
            } else {
                None
            },
            r@.watches_signal == watches_signal,
            !r@.exit_sent,
            r@.last_output == now,
            match idle {
                Some(config) => r@.idle.timeout == config.timeout_secs && r@.idle.prompt
                    == config.prompt@ && r@.idle.max_retries == config.max_retries,
                None => r@.idle.timeout == 0,
            },
    {
        let deadline = if timeout_secs > 0 {
            Some(now as u128 + timeout_secs as u128 * NANOS_PER_SEC as u128)
        } else {
            None
        };
        Supervisor {
            timeout_secs,
            deadline,
            watches_signal,
            exit_sent: false,
            idle: IdleState::from_config(idle),
            last_output: now,
            phase: Phase::Polling,
        }
    }

    /// What to do next.
    pub fn request(&self) -> (r: Request)
        ensures
            r == self@.requested(),
    {
        match self.phase {
            Phase::Polling => Request::CheckChild,
            Phase::Looking => Request::LookForSignal,
            Phase::Terminating => Request::Terminate,
            Phase::Grace(_) => Request::CheckChild,
            Phase::GracePause(_) => Request::Pause(TERM_POLL_MS),
            Phase::GraceOver => Request::CheckChild,
            Phase::Forcing => Request::ForceKill,
            Phase::Poking => Request::Keepalive,
            Phase::Resting => Request::Pause(POLL_INTERVAL_MS),
            Phase::Killing(verdict) => Request::Kill(verdict),
            Phase::Settling(_) => Request::Pause(KILL_SETTLE_MS),
            Phase::Finished(ending) => Request::Finish(ending),
        }
    }

    /// The state of idle detection.
    pub fn idle(&self) -> (r: &IdleState)
        ensures
            r@ == self@.idle,
    {
        &self.idle
    }

    /// Since when the child has been silent, when output was last read at `last_read`.
    pub fn silent_since(&self, last_read: u64) -> (r: u64)
        ensures
            r == self@.seen(last_read),
            r >= last_read && r >= self@.last_output,
            r == last_read || r == self@.last_output,
    {
        if last_read > self.last_output {
            last_read
        } else {
            self.last_output
        }
    }

    /// The result of a run that ends so. `reason` is why the child's status could not be asked for.
    pub fn conclude(&self, ending: Ending, reason: &str) -> (r: Result<RunResult, PtyError>)
        ensures
            run_result(r) == self@.concluded(ending, reason@),
    {
        match ending {
            Ending::Exited(exit_code) => Ok(RunResult { exit_code }),
            Ending::Killed(Verdict::TimedOut) => Err(PtyError::Timeout(self.timeout_secs)),
            Ending::Killed(Verdict::IdleExhausted) => Err(
                PtyError::IdleExhausted(self.idle.timeout),
            ),
            Ending::Failed => Err(PtyError::Io(reason.to_owned())),
        }
    }

    fn look_at_silence(&mut self, now: u64, last_read: u64)
        ensures
            final(self)@ == old(self)@.idled(now, last_read),
    {
        self.last_output = self.silent_since(last_read);
        match tick_idle(&mut self.idle, &mut self.last_output, now) {
            IdleTick::Exhausted => {
                self.phase = Phase::Killing(Verdict::IdleExhausted);
            },
            IdleTick::KeepaliveInjected => {
                self.phase = Phase::Poking;
            },
            IdleTick::Recovered => {
                self.phase = Phase::Resting;
            },
            IdleTick::Unchanged => {
                self.phase = Phase::Resting;
            },
        }
    }

    /// Goes on after an event at `now`, when output was last read at `last_read`. An event that
    /// does not answer the last request changes nothing.
    pub fn step(&mut self, event: Event, now: u64, last_read: u64)
        ensures
            final(self)@ == old(self)@.stepped(event, now, last_read),
    {
        match (self.phase, event) {
            (Phase::Polling, Event::Child(ChildStatus::Exited(code))) => {
                let reported: u32 = if self.exit_sent {
                    0
                } else {
                    code
                };
                self.phase = Phase::Finished(Ending::Exited(reported));
            },
            (Phase::Polling, Event::Child(ChildStatus::Failed)) => {
                self.phase = Phase::Finished(Ending::Failed);
            },
            (Phase::Polling, Event::Child(ChildStatus::Running)) => {
                let overdue = match self.deadline {
                    Some(at) => now as u128 >= at,
                    None => false,
                };
                if overdue {
                    self.phase = Phase::Killing(Verdict::TimedOut);
                } else if self.watches_signal && !self.exit_sent {
                    self.phase = Phase::Looking;
                } else {
                    self.look_at_silence(now, last_read);
                }
            },
            (Phase::Looking, Event::Signal(true)) => {
                self.phase = Phase::Terminating;
            },
            (Phase::Looking, Event::Signal(false)) => {
                self.look_at_silence(now, last_read);
            },
            (Phase::Terminating, Event::Done) => {
                let until: u128 = now as u128 + TERM_GRACE_SECS as u128 * NANOS_PER_SEC as u128;
                self.phase = Phase::Grace(until);
            },
            (Phase::Grace(_), Event::Child(ChildStatus::Exited(_))) => {
                self.phase = Phase::GraceOver;
            },
            (Phase::Grace(until), Event::Child(_)) => {
                self.phase = Phase::GracePause(until);
            },
            (Phase::GracePause(until), Event::Done) => {
                if (now as u128) < until {
                    self.phase = Phase::Grace(until);
                } else {
                    self.phase = Phase::GraceOver;
                }
            },
            (Phase::GraceOver, Event::Child(ChildStatus::Exited(_))) => {
                self.exit_sent = true;
                self.look_at_silence(now, last_read);
            },
            (Phase::GraceOver, Event::Child(_)) => {
                self.phase = Phase::Forcing;
            },
            (Phase::Forcing, Event::Done) => {
                self.exit_sent = true;
                self.look_at_silence(now, last_read);
            },
            (Phase::Poking, Event::Done) => {
                self.idle.keepalive_sent(&mut self.last_output, now);
                self.phase = Phase::Resting;
            },
            (Phase::Resting, Event::Done) => {
                self.phase = Phase::Polling;
            },
            (Phase::Killing(verdict), Event::Done) => {
                self.phase = Phase::Settling(verdict);
            },
            (Phase::Settling(verdict), Event::Done) => {
                self.phase = Phase::Finished(Ending::Killed(verdict));
            },
            _ => {},
        }
    }
}

/// A supervisor starts well-formed, whatever it is set up with.
pub proof fn supervision_starts_well(
    timeout_secs: u64,
    watches_signal: bool,
    idle: Option<IdleConfig>,
    now: u64,
)
    ensures
        SupervisorView::initial(timeout_secs, watches_signal, IdleView::initial(idle), now).wf(),
{
}

/// No event breaks what holds of a supervisor, changes its limits, or calls back a termination.
pub proof fn steps_keep_supervision_sound(
    v: SupervisorView,
    event: Event,
    now: u64,
    last_read: u64,
)
    requires
        v.wf(),
    ensures
        ({
            let next = v.stepped(event, now, last_read);
            &&& next.wf()
            &&& next.timeout_secs == v.timeout_secs
            &&& next.deadline == v.deadline
            &&& next.watches_signal == v.watches_signal
            &&& next.idle.timeout == v.idle.timeout
            &&& next.idle.max_retries == v.idle.max_retries
            &&& v.exit_sent ==> next.exit_sent
            &&& v.last_output <= now ==> v.last_output <= next.last_output
        }),
{
}

/// A keepalive starts the silence over: until the timeout has passed again since it was written,
/// the child is neither poked again nor given up, whatever was last read.
pub proof fn keepalives_restart_the_silence(
    v: SupervisorView,
    sent: u64,
    later: SupervisorView,
    now: u64,
    last_read: u64,
)
    requires
        v.phase is Poking,
        later.idle.timeout == v.idle.timeout,
        later.last_output >= v.stepped(Event::Done, sent, last_read).last_output,
        now < sent + v.idle.timeout * NANOS_PER_SEC,
    ensures
        v.stepped(Event::Done, sent, last_read).last_output == sent,
        v.stepped(Event::Done, sent, last_read).idle.last_keepalive == Some(sent),
        later.idled(now, last_read).phase is Resting,
{
}

/// A run ends in a timeout only where there is a limit, and only once the child was seen running
/// at or after it.
pub proof fn timeouts_need_a_deadline(
    v: SupervisorView,
    event: Event,
    now: u64,
    last_read: u64,
)
    requires
        !v.stopped_for(Verdict::TimedOut),
        v.stepped(event, now, last_read).stopped_for(Verdict::TimedOut),
    ensures
        event == Event::Child(ChildStatus::Running),
        v.deadline matches Some(at) && now >= at,
{
}

/// A child that is reported as timed out or exhausted has been killed, and given time to go.
pub proof fn children_are_killed_before_they_are_reported(
    v: SupervisorView,
    event: Event,
    now: u64,
    last_read: u64,
    verdict: Verdict,
)
    ensures
        ({
            let next = v.stepped(event, now, last_read);
            &&& next.phase == Phase::Finished(Ending::Killed(verdict)) && next.phase != v.phase
                ==> v.phase == Phase::Settling(verdict) && v.requested() == Request::Pause(
                KILL_SETTLE_MS,
            ) && event == Event::Done
            &&& next.phase == Phase::Settling(verdict) && next.phase != v.phase ==> v.phase
                == Phase::Killing(verdict) && v.requested() == Request::Kill(verdict) && event
                == Event::Done
        }),
{
}

/// The code that is reported is the child's own, except that a child which was terminated because
/// of the signal file is reported as a success.
pub proof fn exit_codes_are_forwarded(v: SupervisorView, code: u32, now: u64, last_read: u64)
    requires
        v.phase is Polling,
    ensures
        v.stepped(Event::Child(ChildStatus::Exited(code)), now, last_read).requested()
            == Request::Finish(
            Ending::Exited(
                if v.exit_sent {
                    0
                } else {
                    code
                },
            ),
        ),
{
}

/// A run that has ended stays ended.
pub proof fn endings_are_final(v: SupervisorView, event: Event, now: u64, last_read: u64)
    requires
        v.phase is Finished,
    ensures
        v.stepped(event, now, last_read) == v,
{
}

/// One event, and the times that go with it.
#[verifier::ext_equal]
pub struct Input {
    pub event: Event,
    pub now: u64,
    pub last_read: u64,
}

/// The supervisor after several events.
pub open spec fn supervised(v: SupervisorView, inputs: Seq<Input>) -> SupervisorView
    decreases inputs.len(),
{
    if inputs.len() == 0 {
        v
    } else {
        let before = supervised(v, inputs.drop_last());
        let input = inputs.last();
        before.stepped(input.event, input.now, input.last_read)
    }
}

/// How often the signal file made the supervisor ask for the child's termination.
pub open spec fn terminations(v: SupervisorView, inputs: Seq<Input>) -> nat
    decreases inputs.len(),
{
    if inputs.len() == 0 {
        0
    } else {
        let before = supervised(v, inputs.drop_last());
        let after = supervised(v, inputs);
        terminations(v, inputs.drop_last()) + if !(before.phase is Terminating)
            && after.phase is Terminating {
            1nat
        } else {
            0nat
        }
    }
}

/// Throughout a run the child is terminated at most once, and only where there is a signal file;
/// a run without a time limit never times out, and one without idle detection never gives the
/// child up.
pub proof fn runs_keep_their_limits(
    timeout_secs: u64,
    watches_signal: bool,
    idle: Option<IdleConfig>,
    start: u64,
    inputs: Seq<Input>,
)
    ensures
        ({
            let first = SupervisorView::initial(
                timeout_secs,
                watches_signal,
                IdleView::initial(idle),
                start,
            );
            let last = supervised(first, inputs);
            &&& last.wf()
            &&& terminations(first, inputs) <= 1
            &&& !watches_signal ==> terminations(first, inputs) == 0
            &&& timeout_secs == 0 ==> !last.stopped_for(Verdict::TimedOut)
            &&& idle is None ==> !last.stopped_for(Verdict::IdleExhausted)
        }),
{
    let first = SupervisorView::initial(
        timeout_secs,
        watches_signal,
        IdleView::initial(idle),
        start,
    );
    lemma_run(first, inputs);
}

proof fn lemma_run(first: SupervisorView, inputs: Seq<Input>)
    requires
        first.wf(),
        first.phase is Polling,
        !first.exit_sent,
    ensures
        ({
            let last = supervised(first, inputs);
            let count = terminations(first, inputs);
            &&& last.wf()
            &&& last.timeout_secs == first.timeout_secs
            &&& last.deadline == first.deadline
            &&& last.watches_signal == first.watches_signal
            &&& last.idle.timeout == first.idle.timeout
            &&& last.idle.max_retries == first.idle.max_retries
            &&& count <= 1
            &&& count == 1 <==> last.exit_sent || last.terminated()
        }),
    decreases inputs.len(),
{
    if inputs.len() > 0 {
        lemma_run(first, inputs.drop_last());
        let before = supervised(first, inputs.drop_last());
        let input = inputs.last();
        steps_keep_supervision_sound(before, input.event, input.now, input.last_read);
    }
}

/// How often the supervisor asked for a keepalive.
pub open spec fn pokes(v: SupervisorView, inputs: Seq<Input>) -> nat
    decreases inputs.len(),
{
    if inputs.len() == 0 {
        0
    } else {
        let before = supervised(v, inputs.drop_last());
        let after = supervised(v, inputs);
        pokes(v, inputs.drop_last()) + if before.requested() != Request::Keepalive
            && after.requested() == Request::Keepalive {
            1nat
        } else {
            0nat
        }
    }
}

/// Whether all that is read after a keepalive is presumed to be its echo. What is read while one is
/// being written does not matter.
pub open spec fn only_echo_is_read(v: SupervisorView, inputs: Seq<Input>) -> bool
    decreases inputs.len(),
{
    inputs.len() > 0 ==> {
        let before = supervised(v, inputs.drop_last());
        &&& only_echo_is_read(v, inputs.drop_last())
        &&& before.idle.past_echo(inputs.last().last_read) ==> before.requested()
            == Request::Keepalive
    }
}

/// A child is given up for its silence only after `max_retries` keepalives, and after exactly as
/// many where nothing but their echo was read.
pub proof fn exhausted_runs_used_every_retry(
    timeout_secs: u64,
    watches_signal: bool,
    idle: Option<IdleConfig>,
    start: u64,
    inputs: Seq<Input>,
)
    requires
        supervised(
            SupervisorView::initial(timeout_secs, watches_signal, IdleView::initial(idle), start),
            inputs,
        ).stopped_for(Verdict::IdleExhausted),
    ensures
        ({
            let first = SupervisorView::initial(
                timeout_secs,
                watches_signal,
                IdleView::initial(idle),
                start,
            );
            &&& idle is Some
            &&& pokes(first, inputs) >= idle->0.max_retries
            &&& only_echo_is_read(first, inputs) ==> pokes(first, inputs) == idle->0.max_retries
        }),
{
    let first = SupervisorView::initial(
        timeout_secs,
        watches_signal,
        IdleView::initial(idle),
        start,
    );
    lemma_run(first, inputs);
    lemma_pokes(first, inputs);
}

proof fn lemma_pokes(first: SupervisorView, inputs: Seq<Input>)
    requires
        first.wf(),
        first.phase is Polling,
        first.idle.retry_count == 0,
        first.idle.last_keepalive is None,
    ensures
        ({
            let last = supervised(first, inputs);
            let count = pokes(first, inputs);
            &&& last.wf()
            &&& last.idle.max_retries == first.idle.max_retries
            &&& last.idle.retry_count <= last.idle.max_retries
            &&& last.idle.retry_count <= count
            &&& only_echo_is_read(first, inputs) ==> last.idle.retry_count == count
                && !last.idle.past_echo(last.last_output)
        }),
    decreases inputs.len(),
{
    if inputs.len() > 0 {
        lemma_pokes(first, inputs.drop_last());
        let before = supervised(first, inputs.drop_last());
        let input = inputs.last();
        steps_keep_supervision_sound(before, input.event, input.now, input.last_read);
    }
}

/// Whether the answer at `i` says that the child has been sent SIGTERM.
pub open spec fn was_terminated(v: SupervisorView, inputs: Seq<Input>, i: int) -> bool {
    &&& 0 <= i < inputs.len()
    &&& supervised(v, inputs.take(i)).requested() == Request::Terminate
    &&& inputs[i].event == Event::Done
}

/// Whether the answer at `j` ends the grace of a child that was terminated at `i`: the child is
/// found to have exited, or its time is over.
pub open spec fn ended_the_grace(v: SupervisorView, inputs: Seq<Input>, i: int, j: int) -> bool {
    let before = supervised(v, inputs.take(j));
    &&& i < j < inputs.len()
    &&& ({
        ||| before.requested() == Request::CheckChild && inputs[j].event matches Event::Child(
            ChildStatus::Exited(_),
        )
        ||| before.requested() == Request::Pause(TERM_POLL_MS) && inputs[j].event == Event::Done
            && inputs[j].now >= inputs[i].now + TERM_GRACE_SECS * NANOS_PER_SEC
    })
}

/// Whether the answer at `k` says that the child has not exited, or may not have.
pub open spec fn was_not_seen_gone(v: SupervisorView, inputs: Seq<Input>, k: int) -> bool {
    &&& 0 <= k < inputs.len()
    &&& supervised(v, inputs.take(k)).requested() == Request::CheckChild
    &&& inputs[k].event matches Event::Child(status) && !(status is Exited)
}

/// Whether a termination at `i`, the end of its grace at `j` and a look at the child at `k` lead to
/// its being killed.
pub open spec fn led_to_force(
    v: SupervisorView,
    inputs: Seq<Input>,
    i: int,
    j: int,
    k: int,
) -> bool {
    &&& was_terminated(v, inputs, i)
    &&& ended_the_grace(v, inputs, i, j)
    &&& j < k
    &&& was_not_seen_gone(v, inputs, k)
}

/// A terminated child is killed only if it did not go: SIGKILL is asked for in place of SIGTERM
/// only after SIGTERM was sent in the same run, and only once a look at the child, after its two
/// seconds were over or it was seen to have exited, did not find it gone.
pub proof fn force_is_the_last_resort(
    timeout_secs: u64,
    watches_signal: bool,
    idle: Option<IdleConfig>,
    start: u64,
    inputs: Seq<Input>,
)
    requires
        supervised(
            SupervisorView::initial(timeout_secs, watches_signal, IdleView::initial(idle), start),
            inputs,
        ).requested() == Request::ForceKill,
    ensures
        ({
            let first = SupervisorView::initial(
                timeout_secs,
                watches_signal,
                IdleView::initial(idle),
                start,
            );
            &&& terminations(first, inputs) == 1
            &&& exists|i: int, j: int, k: int| led_to_force(first, inputs, i, j, k)
        }),
{
    let first = SupervisorView::initial(
        timeout_secs,
        watches_signal,
        IdleView::initial(idle),
        start,
    );
    lemma_run(first, inputs);
    lemma_grace(first, inputs);
}

proof fn lemma_grace(first: SupervisorView, inputs: Seq<Input>)
    requires
        first.phase is Polling,
    ensures
        match supervised(first, inputs).phase {
            Phase::Grace(until) | Phase::GracePause(until) => exists|i: int| #[trigger]
                was_terminated(first, inputs, i) && until == inputs[i].now + TERM_GRACE_SECS
                    * NANOS_PER_SEC,
            Phase::GraceOver => exists|i: int, j: int| #[trigger]
                was_terminated(first, inputs, i) && #[trigger] ended_the_grace(first, inputs, i, j),
            Phase::Forcing => exists|i: int, j: int, k: int| led_to_force(first, inputs, i, j, k),
            _ => true,
        },
    decreases inputs.len(),
{
    if inputs.len() > 0 {
        let earlier = inputs.drop_last();
        let n = earlier.len() as int;
        let before = supervised(first, earlier);
        let now = supervised(first, inputs);
        lemma_grace(first, earlier);
        assert(inputs.take(n) =~= earlier);
        assert forall|i: int| 0 <= i < n implies #[trigger] inputs.take(i) == earlier.take(i) by {
            assert(inputs.take(i) =~= earlier.take(i));
        }
        assert forall|i: int| was_terminated(first, earlier, i) implies was_terminated(
            first,
            inputs,
            i,
        ) by {
            assert(inputs.take(i) == earlier.take(i));
        }
        assert forall|i: int, j: int|
            0 <= i && ended_the_grace(first, earlier, i, j) implies ended_the_grace(
            first,
            inputs,
            i,
            j,
        ) by {
            assert(inputs.take(j) == earlier.take(j));
        }
        match before.phase {
            Phase::Terminating => {
                if inputs.last().event == Event::Done {
                    assert(was_terminated(first, inputs, n));
                }
            },
            Phase::Grace(until) | Phase::GracePause(until) => {
                let i = choose|i: int| #[trigger]
                    was_terminated(first, earlier, i) && until == earlier[i].now + TERM_GRACE_SECS
                        * NANOS_PER_SEC;
                assert(was_terminated(first, inputs, i));
                if now.phase is GraceOver {
                    assert(ended_the_grace(first, inputs, i, n));
                }
            },
            Phase::GraceOver => {
                let (i, j) = choose|i: int, j: int| #[trigger]
                    was_terminated(first, earlier, i) && #[trigger] ended_the_grace(
                        first,
                        earlier,
                        i,
                        j,
                    );
                assert(was_terminated(first, inputs, i));
                assert(ended_the_grace(first, inputs, i, j));
                if now.phase is Forcing {
                    assert(was_not_seen_gone(first, inputs, n));
                    assert(led_to_force(first, inputs, i, j, n));
                }
            },
            Phase::Forcing => {
                let (i, j, k) = choose|i: int, j: int, k: int|
                    led_to_force(first, earlier, i, j, k);
                assert(inputs.take(k) == earlier.take(k));
                assert(was_terminated(first, inputs, i));
                assert(ended_the_grace(first, inputs, i, j));
                assert(led_to_force(first, inputs, i, j, k));
            },
            _ => {},
        }
    }
}

/// The limit that was asked for is kept. In a run that starts at `start` with a limit of
/// `timeout_secs` seconds, a child is stopped as timed out only when it was polled and seen running
/// at or after that many seconds, and one that is polled and seen running then is always killed.
/// What is reported is the limit itself. Without a limit no child is stopped as timed out.
pub proof fn the_time_limit_is_kept(
    timeout_secs: u64,
    watches_signal: bool,
    idle: Option<IdleConfig>,
    start: u64,
    inputs: Seq<Input>,
    reason: Seq<char>,
)
    requires
        inputs.len() > 0,
    ensures
        ({
            let first = SupervisorView::initial(
                timeout_secs,
                watches_signal,
                IdleView::initial(idle),
                start,
            );
            let before = supervised(first, inputs.drop_last());
            let after = supervised(first, inputs);
            let input = inputs.last();
            let late = timeout_secs > 0 && input.now >= start + timeout_secs * 1_000_000_000;
            &&& after.stopped_for(Verdict::TimedOut) && !before.stopped_for(Verdict::TimedOut)
                ==> late && before.phase is Polling && input.event == Event::Child(
                ChildStatus::Running,
            )
            &&& late && before.phase is Polling && input.event == Event::Child(ChildStatus::Running)
                ==> after.requested() == Request::Kill(Verdict::TimedOut)
            &&& after.concluded(Ending::Killed(Verdict::TimedOut), reason) == Err::<u32, _>(
                PtyErrorView::Timeout(timeout_secs),
            )
        }),
{
    let first = SupervisorView::initial(
        timeout_secs,
        watches_signal,
        IdleView::initial(idle),
        start,
    );
    lemma_run(first, inputs.drop_last());
    lemma_run(first, inputs);
}

/// Whether a run whose time is measured from `start` on has a clock that never goes back.
#[verifier::opaque]
pub open spec fn clock_runs_on(start: u64, inputs: Seq<Input>) -> bool {
    forall|i: int| 0 <= i < inputs.len() ==> (if i == 0 {
        start
    } else {
        inputs[i - 1].now
    }) <= (#[trigger] inputs[i]).now
}

/// Whether the answer at `i` says that a keepalive has been written.
#[verifier::opaque]
pub open spec fn was_poked(v: SupervisorView, inputs: Seq<Input>, i: int) -> bool {
    &&& 0 <= i < inputs.len()
    &&& supervised(v, inputs.take(i)).requested() == Request::Keepalive
    &&& inputs[i].event == Event::Done
}

/// Whether the silence counts from `t` or later: the run started then, output was read then, or a
/// keepalive was written then.
#[verifier::opaque]
pub open spec fn was_heard(v: SupervisorView, start: u64, inputs: Seq<Input>, t: u64) -> bool {
    ||| t == start
    ||| exists|i: int| 0 <= i < inputs.len() && (#[trigger] inputs[i]).last_read == t
    ||| exists|i: int| #[trigger] was_poked(v, inputs, i) && inputs[i].now == t
}

/// Whether an answer ends a round in which the child lives on, so that its silence is looked at: it
/// is seen running and there is no signal file to look for, there is none, or it has been
/// terminated.
pub open spec fn ends_a_round(v: SupervisorView, event: Event, now: u64) -> bool {
    ||| v.phase is Polling && event == Event::Child(ChildStatus::Running) && !v.overdue(now) && !(
    v.watches_signal && !v.exit_sent)
    ||| v.phase is Looking && event == Event::Signal(false)
    ||| v.phase is GraceOver && event matches Event::Child(ChildStatus::Exited(_))
    ||| v.phase is Forcing && event == Event::Done
}

proof fn lemma_clock(start: u64, inputs: Seq<Input>)
    requires
        clock_runs_on(start, inputs),
        inputs.len() > 0,
    ensures
        clock_runs_on(start, inputs.drop_last()),
        inputs.len() == 1 ==> start <= inputs.last().now,
        inputs.len() > 1 ==> inputs.drop_last().last().now <= inputs.last().now,
{
    reveal(clock_runs_on);
    let earlier = inputs.drop_last();
    assert forall|i: int| 0 <= i < earlier.len() implies (if i == 0 {
        start
    } else {
        earlier[i - 1].now
    }) <= (#[trigger] earlier[i]).now by {
        assert(inputs[i] == earlier[i]);
    }
    assert(inputs[inputs.len() - 1].now == inputs.last().now);
}

/// What was poked and heard before stays so when one more answer comes.
proof fn lemma_history(first: SupervisorView, start: u64, inputs: Seq<Input>)
    requires
        inputs.len() > 0,
    ensures
        ({
            let earlier = inputs.drop_last();
            let n = earlier.len() as int;
            &&& forall|i: int| #[trigger]
                was_poked(first, inputs, i) ==> 0 <= i < inputs.len() && (if i < n {
                    was_poked(first, earlier, i) && inputs[i] == earlier[i]
                } else {
                    supervised(first, earlier).phase is Poking && inputs.last().event == Event::Done
                })
            &&& supervised(first, earlier).phase is Poking && inputs.last().event == Event::Done
                ==> was_poked(first, inputs, n)
            &&& forall|t: u64| #[trigger]
                was_heard(first, start, earlier, t) ==> was_heard(first, start, inputs, t)
            &&& was_heard(first, start, inputs, start)
            &&& was_heard(first, start, inputs, inputs.last().last_read)
            &&& was_poked(first, inputs, n) ==> was_heard(first, start, inputs, inputs.last().now)
        }),
{
    reveal(was_poked);
    reveal(was_heard);
    let earlier = inputs.drop_last();
    let n = earlier.len() as int;
    assert(inputs.take(n) =~= earlier);
    assert(inputs[n] == inputs.last());
    assert forall|i: int| 0 <= i < n implies #[trigger] inputs.take(i) == earlier.take(i) by {
        assert(inputs.take(i) =~= earlier.take(i));
    }
    assert forall|i: int| #[trigger] was_poked(first, inputs, i) && i < n implies was_poked(
        first,
        earlier,
        i,
    ) && inputs[i] == earlier[i] by {
        assert(inputs.take(i) == earlier.take(i));
    }
    assert forall|t: u64| #[trigger] was_heard(first, start, earlier, t) implies was_heard(
        first,
        start,
        inputs,
        t,
    ) by {
        if exists|i: int| 0 <= i < earlier.len() && (#[trigger] earlier[i]).last_read == t {
            let i = choose|i: int| 0 <= i < earlier.len() && (#[trigger] earlier[i]).last_read == t;
            assert(inputs[i].last_read == t);
        } else if t != start {
            let i = choose|i: int| #[trigger] was_poked(first, earlier, i) && earlier[i].now == t;
            assert(inputs.take(i) == earlier.take(i));
            assert(was_poked(first, inputs, i));
        }
    }
}

/// How one answer moves the time from which the silence counts.
proof fn lemma_step_output(v: SupervisorView, event: Event, now: u64, last_read: u64)
    ensures
        ({
            let next = v.stepped(event, now, last_read);
            &&& v.phase is Poking && event == Event::Done ==> next.last_output == now && !(
            next.phase is Poking)
            &&& v.phase is Poking && event != Event::Done ==> next == v
            &&& !(v.phase is Poking) && next.phase is Poking ==> next.last_output == now
                && v.last_output <= now
            &&& !(v.phase is Poking) && !(next.phase is Poking) ==> next.last_output
                >= v.last_output && (next.last_output == v.last_output || next.last_output
                == last_read)
        }),
{
}

proof fn lemma_heard(first: SupervisorView, start: u64, inputs: Seq<Input>)
    requires
        first.phase is Polling,
        first.last_output == start,
        clock_runs_on(start, inputs),
    ensures
        ({
            let last = supervised(first, inputs);
            let now = if inputs.len() == 0 {
                start
            } else {
                inputs.last().now
            };
            &&& start <= last.last_output
            &&& !(last.phase is Poking) ==> was_heard(first, start, inputs, last.last_output)
            &&& last.phase is Poking ==> last.last_output <= now
            &&& forall|i: int| #[trigger]
                was_poked(first, inputs, i) ==> inputs[i].now <= last.last_output
            &&& start <= now
        }),
    decreases inputs.len(),
{
    if inputs.len() == 0 {
        reveal(was_heard);
        reveal(was_poked);
    } else {
        let earlier = inputs.drop_last();
        let input = inputs.last();
        lemma_clock(start, inputs);
        lemma_heard(first, start, earlier);
        lemma_history(first, start, inputs);
        lemma_step_output(
            supervised(first, earlier),
            input.event,
            input.now,
            input.last_read,
        );
        assert forall|i: int| #[trigger] was_poked(first, inputs, i) implies inputs[i].now
            <= supervised(first, inputs).last_output by {
            if i < earlier.len() {
                assert(was_poked(first, earlier, i));
            }
        }
    }
}

/// The idle timeout that was configured is kept. A round that finds no output for `timeout_secs`
/// seconds, neither since the start nor since a keepalive, asks for a keepalive while retries are
/// left, and for the kill once there are none; one that finds output, or a keepalive, since then
/// asks for neither. Nothing but the end of a round asks for them.
#[verifier::rlimit(30)]
pub proof fn the_idle_timeout_is_kept(
    timeout_secs: u64,
    watches_signal: bool,
    config: IdleConfig,
    start: u64,
    inputs: Seq<Input>,
    reason: Seq<char>,
)
    requires
        inputs.len() > 0,
        clock_runs_on(start, inputs),
        config.timeout_secs > 0,
    ensures
        ({
            let first = SupervisorView::initial(
                timeout_secs,
                watches_signal,
                IdleView::initial(Some(config)),
                start,
            );
            let before = supervised(first, inputs.drop_last());
            let after = supervised(first, inputs);
            let input = inputs.last();
            let span = config.timeout_secs * 1_000_000_000;
            let round = ends_a_round(before, input.event, input.now);
            let asks = after.requested() == Request::Keepalive || after.requested()
                == Request::Kill(Verdict::IdleExhausted);
            &&& round && (forall|t: u64| #[trigger]
                was_heard(first, start, inputs, t) ==> input.now >= t + span) ==> after.requested()
                == if before.idle.retry_count < config.max_retries {
                Request::Keepalive
            } else {
                Request::Kill(Verdict::IdleExhausted)
            }
            &&& round && asks ==> {
                &&& input.now >= start + span
                &&& input.now >= input.last_read + span
                &&& forall|i: int| #[trigger]
                    was_poked(first, inputs, i) ==> input.now >= inputs[i].now + span
            }
            &&& round && !asks ==> after.requested() == Request::Pause(100)
            &&& asks && !round ==> after.requested() == before.requested()
            &&& before.idle.retry_count <= config.max_retries
            &&& after.concluded(Ending::Killed(Verdict::IdleExhausted), reason) == Err::<u32, _>(
                PtyErrorView::IdleExhausted(config.timeout_secs),
            )
        }),
{
    let first = SupervisorView::initial(
        timeout_secs,
        watches_signal,
        IdleView::initial(Some(config)),
        start,
    );
    let earlier = inputs.drop_last();
    let n = earlier.len() as int;
    let before = supervised(first, earlier);
    let input = inputs.last();
    lemma_run(first, earlier);
    lemma_run(first, inputs);
    lemma_pokes(first, earlier);
    lemma_clock(start, inputs);
    lemma_heard(first, start, earlier);
    lemma_history(first, start, inputs);
    lemma_round(before, input.event, input.now, input.last_read);
    if ends_a_round(before, input.event, input.now) {
        assert(was_heard(first, start, inputs, before.last_output));
        assert forall|i: int| #[trigger] was_poked(first, inputs, i) implies inputs[i].now
            <= before.last_output by {
            assert(i < n);
            assert(was_poked(first, earlier, i));
        }
    }
}

/// What the end of a round asks for.
proof fn lemma_round(v: SupervisorView, event: Event, now: u64, last_read: u64)
    ensures
        ({
            let next = v.stepped(event, now, last_read);
            let span = v.idle.timeout * 1_000_000_000;
            let seen = if last_read > v.last_output {
                last_read
            } else {
                v.last_output
            };
            if ends_a_round(v, event, now) {
                &&& next.requested() == if v.idle.timeout > 0 && now >= seen + span {
                    if v.idle.retry_count < v.idle.max_retries {
                        Request::Keepalive
                    } else {
                        Request::Kill(Verdict::IdleExhausted)
                    }
                } else {
                    Request::Pause(100)
                }
                &&& !(v.phase is Poking)
            } else {
                next.requested() == Request::Keepalive || next.requested() == Request::Kill(
                    Verdict::IdleExhausted,
                ) ==> next.requested() == v.requested()
            }
        }),
{
}

/// What the supervisor asks for follows from the last answer. An exited child ends the run, with
/// its own code or, once it was terminated, with success; so does one whose status cannot be asked
/// for. A running child has its signal file looked for, where there is one and it has not been seen
/// yet; the file has the child terminated. It then has two seconds to go, with a look every 50 ms,
/// and a last look after it was seen gone or they were over; a child that is not seen gone is
/// killed, and whether it was or not, it counts as terminated from then on. After each round the
/// child is polled again in 100 ms. A killed child has 500 ms to go.
#[verifier::rlimit(30)]
pub proof fn requests_follow_the_answers(
    v: SupervisorView,
    event: Event,
    now: u64,
    last_read: u64,
    code: u32,
    until: u128,
    verdict: Verdict,
)
    ensures
        ({
            let next = v.stepped(event, now, last_read);
            let exited = event == Event::Child(ChildStatus::Exited(code));
            let looked = event is Child;
            let done = event == Event::Done;
            &&& v.phase is Polling && exited ==> next.requested() == Request::Finish(
                Ending::Exited(
                    if v.exit_sent {
                        0
                    } else {
                        code
                    },
                ),
            )
            &&& v.phase is Polling && event == Event::Child(ChildStatus::Failed)
                ==> next.requested() == Request::Finish(Ending::Failed)
            &&& v.phase is Polling && event == Event::Child(ChildStatus::Running) && !v.overdue(now)
                && v.watches_signal && !v.exit_sent ==> next.requested() == Request::LookForSignal
            &&& v.phase is Looking && event == Event::Signal(true) ==> next.requested()
                == Request::Terminate
            &&& v.phase is Terminating && done ==> next.phase == Phase::Grace(
                (now + 2_000_000_000) as u128,
            ) && next.requested() == Request::CheckChild
            &&& v.phase == Phase::Grace(until) && looked ==> if exited {
                next.phase is GraceOver && next.requested() == Request::CheckChild
            } else {
                event == Event::Child(ChildStatus::Running) || event == Event::Child(
                    ChildStatus::Failed,
                ) ==> next.phase == Phase::GracePause(until) && next.requested() == Request::Pause(
                    50,
                )
            }
            &&& v.phase == Phase::GracePause(until) && done ==> next.phase == (if now < until {
                Phase::Grace(until)
            } else {
                Phase::GraceOver
            })
            &&& v.phase is GraceOver && (event == Event::Child(ChildStatus::Running) || event
                == Event::Child(ChildStatus::Failed)) ==> next.requested() == Request::ForceKill
            &&& v.phase is GraceOver && exited || v.phase is Forcing && done ==> next.exit_sent
                && ends_a_round(v, event, now)
            &&& !(v.phase is GraceOver && exited || v.phase is Forcing && done) && !(v.phase
                is GraceOver && looked) ==> next.exit_sent == v.exit_sent
            &&& v.phase is Poking && done ==> next.requested() == Request::Pause(100)
            &&& v.phase is Resting && done ==> next.phase is Polling && next.requested()
                == Request::CheckChild
            &&& v.phase == Phase::Killing(verdict) && done ==> next.requested() == Request::Pause(
                500,
            ) && next.phase == Phase::Settling(verdict)
            &&& v.phase == Phase::Settling(verdict) && done ==> next.requested() == Request::Finish(
                Ending::Killed(verdict),
            )
        }),
{
}

/// What each request is an answer to: a request that no answer fits changes nothing.
pub proof fn other_answers_change_nothing(
    v: SupervisorView,
    event: Event,
    now: u64,
    last_read: u64,
)
    requires
        match v.requested() {
            Request::CheckChild => !(event is Child),
            Request::LookForSignal => !(event is Signal),
            Request::Finish(_) => true,
            _ => event != Event::Done,
        },
    ensures
        v.stepped(event, now, last_read) == v,
{
}

/// A run is reported as it ended: with the code that was found, or with the reason for which the
/// child's status could not be asked for.
pub proof fn endings_are_reported_as_they_are(v: SupervisorView, code: u32, reason: Seq<char>)
    ensures
        v.concluded(Ending::Exited(code), reason) == Ok::<u32, PtyErrorView>(code),
        v.concluded(Ending::Failed, reason) == Err::<u32, _>(PtyErrorView::Io(reason)),
{
}

/// The terminal has 50 rows of 200 columns.
pub proof fn the_terminal_is_wide()
    ensures
        PTY_ROWS == 50,
        PTY_COLS == 200,
{
}

/// The end of a round looks at the silence once, from the last output that was read or the last
/// keepalive on, whichever came later. A keepalive is timed when it has been written. No other
/// answer touches the state of idle detection, nor the time from which the silence counts.
pub proof fn rounds_look_at_the_silence(v: SupervisorView, event: Event, now: u64, last_read: u64)
    ensures
        ({
            let next = v.stepped(event, now, last_read);
            let heard = if last_read > v.last_output {
                last_read
            } else {
                v.last_output
            };
            if ends_a_round(v, event, now) {
                &&& next.idle == v.idle.after_tick(heard, now)
                &&& next.last_output == v.idle.seen_after(heard, now)
            } else if v.phase is Poking && event == Event::Done {
                &&& next.idle == IdleView { last_keepalive: Some(now), ..v.idle }
                &&& next.last_output == now
            } else {
                &&& next.idle == v.idle
                &&& next.last_output == v.last_output
            }
        }),
{
}

/// A child that shows genuine output gets its keepalives back: where output came two seconds or
/// more after the last keepalive, and the child is not silent for the timeout again, the round that
/// finds it starts the retries over.
pub proof fn genuine_output_gives_the_keepalives_back(
    v: SupervisorView,
    event: Event,
    now: u64,
    last_read: u64,
)
    requires
        v.wf(),
        ends_a_round(v, event, now),
        v.idle.timeout > 0,
        v.idle.retry_count > 0,
        last_read >= v.last_output,
        last_read >= v.idle.last_keepalive->0 + 2_000_000_000,
        now < last_read + v.idle.timeout * 1_000_000_000,
    ensures
        v.stepped(event, now, last_read).idle.retry_count == 0,
        v.stepped(event, now, last_read).requested() == Request::Pause(100),
{
}

} // verus!
