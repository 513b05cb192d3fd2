//! A size-bounded log of a child's output that keeps the most recent bytes.
//!
//! For a child that stalled or was killed, the bytes right before are the ones that matter. The log
//! therefore rotates instead of stopping: once the active file reaches half the cap it takes the
//! place of the rotated one, and a fresh active file is started. Read one after the other, the two
//! hold the most recent output. Where no fresh file can be started, what is written goes on into
//! the rotated one.
//!
//! [`RingLog`] decides what each write takes ([`RingLog::write`], [`RingLog::step`]); whoever
//! drives it has the files.

use vstd::prelude::*;

use crate::paths::{file_in, is_plain, FilePath, PathView};
use crate::text;

verus! {

/// Cap on the bytes that the two files of a log hold together.
pub const PTY_LOG_MAX_BYTES: u64 = 10 * 1024 * 1024;

/// What a write asks for.
#[derive(Debug, Clone, Copy, PartialEq, Eq, Structural)]
pub enum LogRequest {
    /// Empty the file that is being written to.
    Restart,
    /// Append the data to the file that is being written to.
    Append,
    /// Rename the active file to the rotated one, which it replaces.
    Rename,
    /// Start a fresh active file, and write to it from now on.
    Reopen,
    /// Write to the rotated file from now on, at its end. Where it cannot be opened for that, the
    /// file that is open is the same one.
    Resume,
    /// Nothing more: the write is over.
    Done,
    /// Stop logging: the file cannot be written to.
    GiveUp,
}

/// Where a write stands.
#[derive(Debug, Clone, Copy, PartialEq, Eq, Structural)]
pub enum LogPhase {
    /// No write is under way.
    Idle,
    /// The file is being emptied for so many bytes.
    Restarting(u64),
    /// So many bytes are being appended.
    Appending(u64),
    /// The active file is being renamed.
    Renaming,
    /// A fresh active file is being started.
    Reopening,
    /// The rotated file is being opened.
    Resuming,
}

/// A log of a child's output, in two files.
#[derive(Debug)]
pub struct RingLog {
    /// The active file.
    pub path: String,
    /// The file that holds what came before.
    pub rotated_path: String,
    bytes_written: u64,
    cap_half: u64,
    stuck: bool,
    moved: bool,
    phase: LogPhase,
}

/// What a [`RingLog`] holds.
#[verifier::ext_equal]
pub struct RingView {
    pub path: Seq<char>,
    pub rotated_path: Seq<char>,
    /// How many bytes the file that is being written to holds.
    pub bytes_written: u64,
    /// How many bytes make it rotate.
    pub cap_half: u64,
    /// Whether the last rotation failed, so that the file is full.
    pub stuck: bool,
    /// Whether the rotated file is the one that is being written to, because the active one was
    /// renamed and no fresh one was started.
    pub moved: bool,
    /// Where a write stands.
    pub phase: LogPhase,
}

impl View for RingLog {
    type V = RingView;

    closed spec fn view(&self) -> RingView {
        RingView {
            path: self.path@,
            rotated_path: self.rotated_path@,
            bytes_written: self.bytes_written,
            cap_half: self.cap_half,
            stuck: self.stuck,
            moved: self.moved,
            phase: self.phase,
        }
    }
}

/// The name of a log that is opened `millis` milliseconds after the epoch by the process `pid`.
pub open spec fn log_name(millis: u128, pid: u32) -> Seq<char> {
    "heartbeat-launch-pty-"@ + text::decimal(millis as nat) + "-"@ + text::decimal(pid as nat)
        + ".log"@
}

proof fn lemma_log_name_is_plain(millis: u128, pid: u32)
    ensures
        is_plain(log_name(millis, pid)),
{
    let name = log_name(millis, pid);
    let time = text::decimal(millis as nat);
    let process = text::decimal(pid as nat);
    reveal_strlit("heartbeat-launch-pty-");
    reveal_strlit("-");
    reveal_strlit(".log");
    text::decimal_is_made_of_digits(millis as nat);
    text::decimal_is_made_of_digits(pid as nat);
    assert(name[0] == 'h');
    assert forall|i: int| 0 <= i < name.len() implies name[i] != '/' && name[i] != '\\' && name[i]
        != ':' by {
        let a = "heartbeat-launch-pty-"@.len();
        let b = a + time.len();
        let c = b + 1;
        let d = c + process.len();
        if i < a {
            assert(name[i] == "heartbeat-launch-pty-"@[i]);
        } else if i < b {
            assert(name[i] == time[i - a]);
            assert(text::is_digit(time[i - a]));
        } else if i < c {
            assert(name[i] == '-');
        } else if i < d {
            assert(name[i] == process[i - c]);
            assert(text::is_digit(process[i - c]));
        } else {
            assert(name[i] == ".log"@[i - d]);
        }
    }
}

impl RingView {
    /// A fresh log in the directory `dir`.
    pub open spec fn fresh(dir: PathView, millis: u128, pid: u32, cap_half: u64) -> RingView {
        let path = file_in(dir, log_name(millis, pid)).text;
        RingView {
            path,
            rotated_path: path + ".1"@,
            bytes_written: 0,
            cap_half,
            stuck: false,
            moved: false,
            phase: LogPhase::Idle,
        }
    }

    /// What the current phase asks for.
    pub open spec fn requested(self) -> LogRequest {
        match self.phase {
            LogPhase::Idle => LogRequest::Done,
            LogPhase::Restarting(_) => LogRequest::Restart,
            LogPhase::Appending(_) => LogRequest::Append,
            LogPhase::Renaming => LogRequest::Rename,
            LogPhase::Reopening => LogRequest::Reopen,
            LogPhase::Resuming => LogRequest::Resume,
        }
    }

    /// The log at the start of a write of `len` bytes.
    pub open spec fn begun(self, len: u64) -> RingView {
        RingView {
            phase: if self.stuck {
                LogPhase::Restarting(len)
            } else {
                LogPhase::Appending(len)
            },
            ..self
        }
    }

    /// How many bytes the file holds once `len` more are in it.
    pub open spec fn grown(self, len: u64) -> u64 {
        if self.bytes_written + len > u64::MAX {
            u64::MAX
        } else {
            (self.bytes_written + len) as u64
        }
    }

    /// The log once the current phase's request has succeeded or failed.
    pub open spec fn stepped(self, ok: bool) -> RingView {
        match self.phase {
            LogPhase::Idle => self,
            LogPhase::Restarting(len) => if ok {
                RingView {
                    bytes_written: 0,
                    stuck: false,
                    phase: LogPhase::Appending(len),
                    ..self
                }
            } else {
                RingView { phase: LogPhase::Idle, ..self }
            },
            LogPhase::Appending(len) => if ok {
                RingView {
                    bytes_written: self.grown(len),
                    phase: if self.grown(len) < self.cap_half {
                        LogPhase::Idle
                    } else if self.moved {
                        LogPhase::Reopening
                    } else {
                        LogPhase::Renaming
                    },
                    ..self
                }
            } else {
                RingView { phase: LogPhase::Idle, ..self }
            },
            LogPhase::Renaming => if ok {
                RingView { moved: true, phase: LogPhase::Reopening, ..self }
            } else {
                RingView { stuck: true, phase: LogPhase::Idle, ..self }
            },
            LogPhase::Reopening => if ok {
                RingView {
                    bytes_written: 0,
                    stuck: false,
                    moved: false,
                    phase: LogPhase::Idle,
                    ..self
                }
            } else {
                RingView { stuck: true, phase: LogPhase::Resuming, ..self }
            },
            LogPhase::Resuming => RingView { phase: LogPhase::Idle, ..self },
        }
    }
}

impl RingLog {
    /// A fresh log in the directory `dir`, for the process `pid`, `millis` milliseconds after the
    /// epoch. Both stand in the file's name, so that logs do not collide.
    pub fn open(dir: &FilePath, millis: u128, pid: u32) -> (r: Self)
        ensures
            r@ == RingView::fresh(dir@, millis, pid, PTY_LOG_MAX_BYTES / 2),
            r@.cap_half == 5_242_880,
    {
        RingLog::open_with_cap_half(dir, millis, pid, PTY_LOG_MAX_BYTES / 2)
    }

    /// The same, with its own threshold for rotation.
    pub fn open_with_cap_half(dir: &FilePath, millis: u128, pid: u32, cap_half: u64) -> (r: Self)
        ensures
            r@ == RingView::fresh(dir@, millis, pid, cap_half),
    {
        let time = text::decimal_text(millis);
        let process = text::decimal_text(pid as u128);
        let name = "heartbeat-launch-pty-".to_owned().concat(time.as_str()).concat("-").concat(
            process.as_str(),
        ).concat(".log");
        proof {
            lemma_log_name_is_plain(millis, pid);
        }
        let path = dir.join(name.as_str()).text;
        let rotated_path = path.clone().concat(".1");
        RingLog {
            path,
            rotated_path,
            bytes_written: 0,
            cap_half,
            stuck: false,
            moved: false,
            phase: LogPhase::Idle,
        }
    }

    /// Starts a write of `len` bytes, and says what to do first.
    ///
    /// Where the last rotation failed, the file is full: it is emptied first, so that the cap holds
    /// and the most recent bytes still get in.
    pub fn write(&mut self, len: u64) -> (r: LogRequest)
        ensures
            final(self)@ == old(self)@.begun(len),
            r == final(self)@.requested(),
    {
        if self.stuck {
            self.phase = LogPhase::Restarting(len);
            LogRequest::Restart
        } else {
            self.phase = LogPhase::Appending(len);
            LogRequest::Append
        }
    }

    /// Goes on once what was asked for has succeeded or failed, and says what to do next.
    ///
    /// That a file could not be emptied, renamed or started ends the write without an error; that
    /// it could not be appended to ends the logging.
    pub fn step(&mut self, ok: bool) -> (r: LogRequest)
        ensures
            final(self)@ == old(self)@.stepped(ok),
            r == if old(self)@.phase is Appending && !ok {
                LogRequest::GiveUp
            } else {
                final(self)@.requested()
            },
    {
        match self.phase {
            LogPhase::Idle => LogRequest::Done,
            LogPhase::Restarting(len) => {
                if ok {
                    self.bytes_written = 0;
                    self.stuck = false;
                    self.phase = LogPhase::Appending(len);
                    LogRequest::Append
                } else {
                    self.phase = LogPhase::Idle;
                    LogRequest::Done
                }
            },
            LogPhase::Appending(len) => {
                if ok {
                    self.bytes_written = self.bytes_written.saturating_add(len);
                    if self.bytes_written < self.cap_half {
                        self.phase = LogPhase::Idle;
                        LogRequest::Done
                    } else if self.moved {
                        self.phase = LogPhase::Reopening;
                        LogRequest::Reopen
                    } else {
                        self.phase = LogPhase::Renaming;
                        LogRequest::Rename
                    }
                } else {
                    self.phase = LogPhase::Idle;
                    LogRequest::GiveUp
                }
            },
            LogPhase::Renaming => {
                if ok {
                    self.moved = true;
                    self.phase = LogPhase::Reopening;
                    LogRequest::Reopen
                } else {
                    self.stuck = true;
                    self.phase = LogPhase::Idle;
                    LogRequest::Done
                }
            },
            LogPhase::Reopening => {
                if ok {
                    self.bytes_written = 0;
                    self.stuck = false;
                    self.moved = false;
                    self.phase = LogPhase::Idle;
                    LogRequest::Done
                } else {
                    self.stuck = true;
                    self.phase = LogPhase::Resuming;
                    LogRequest::Resume
                }
            },
            LogPhase::Resuming => {
                self.phase = LogPhase::Idle;
                LogRequest::Done
            },
        }
    }
}

/// What the two files of a log hold, where they exist.
#[verifier::ext_equal]
pub struct LogFiles {
    pub active: Option<Seq<u8>>,
    pub rotated: Option<Seq<u8>>,
}

/// A file's content, with nothing for a file that does not exist.
pub open spec fn content(file: Option<Seq<u8>>) -> Seq<u8> {
    match file {
        Some(bytes) => bytes,
        None => Seq::empty(),
    }
}

/// A log and its files.
#[verifier::ext_equal]
pub struct Logging {
    pub log: RingView,
    pub files: LogFiles,
}

impl Logging {
    /// A fresh log, with its active file just started.
    pub open spec fn fresh(dir: PathView, millis: u128, pid: u32, cap_half: u64) -> Logging {
        Logging {
            log: RingView::fresh(dir, millis, pid, cap_half),
            files: LogFiles { active: Some(Seq::empty()), rotated: None },
        }
    }

    /// What the file holds that is being written to.
    pub open spec fn current(self) -> Seq<u8> {
        content(
            if self.log.moved {
                self.files.rotated
            } else {
                self.files.active
            },
        )
    }

    /// The files, with `bytes` in the one that is being written to.
    pub open spec fn with_current(self, bytes: Seq<u8>) -> LogFiles {
        if self.log.moved {
            LogFiles { rotated: Some(bytes), ..self.files }
        } else {
            LogFiles { active: Some(bytes), ..self.files }
        }
    }

    /// The files once what is asked for has been carried out.
    pub open spec fn carried_out(self, data: Seq<u8>) -> LogFiles {
        match self.log.requested() {
            LogRequest::Restart => self.with_current(Seq::empty()),
            LogRequest::Append => self.with_current(self.current() + data),
            LogRequest::Rename => LogFiles { active: None, rotated: self.files.active },
            LogRequest::Reopen => LogFiles { active: Some(Seq::empty()), ..self.files },
            LogRequest::Resume => self.files,
            LogRequest::Done => self.files,
            LogRequest::GiveUp => self.files,
        }
    }

    /// The log and its files once what is asked for has succeeded or failed.
    pub open spec fn progressed(self, data: Seq<u8>, ok: bool) -> Logging {
        Logging {
            log: self.log.stepped(ok),
            files: if ok {
                self.carried_out(data)
            } else {
                self.files
            },
        }
    }
}

/// How the requests of a write turn out, where the file can be appended to.
pub struct Outcomes {
    pub restart: bool,
    pub rename: bool,
    pub reopen: bool,
    pub resume: bool,
}

/// The log and its files after a write of `data`.
pub open spec fn after_write(state: Logging, data: Seq<u8>, outcomes: Outcomes) -> Logging {
    let begun = Logging { log: state.log.begun(data.len() as u64), ..state };
    let ready = if begun.log.phase is Restarting {
        begun.progressed(data, outcomes.restart)
    } else {
        begun
    };
    let appended = if ready.log.phase is Appending {
        ready.progressed(data, true)
    } else {
        ready
    };
    let renamed = if appended.log.phase is Renaming {
        appended.progressed(data, outcomes.rename)
    } else {
        appended
    };
    let reopened = if renamed.log.phase is Reopening {
        renamed.progressed(data, outcomes.reopen)
    } else {
        renamed
    };
    if reopened.log.phase is Resuming {
        reopened.progressed(data, outcomes.resume)
    } else {
        reopened
    }
}

/// What holds of a log and its files between two writes: the file that is being written to exists
/// and the count is its length; it is below the threshold unless it could not be rotated; and there
/// is no active file while the rotated one is being written to.
pub open spec fn sound(state: Logging) -> bool {
    &&& state.log.phase is Idle
    &&& state.log.bytes_written == state.current().len()
    &&& !state.log.stuck ==> state.current().len() < state.log.cap_half
    &&& state.files.active is None <==> state.log.moved
    &&& state.log.moved ==> state.files.rotated is Some
}

/// Whether the two files, one after the other, are the end of `all`, and hold it whole or half the
/// cap of it at least.
pub open spec fn keeps_the_end(state: Logging, all: Seq<u8>) -> bool {
    let kept = content(state.files.rotated) + content(state.files.active);
    &&& kept.len() <= all.len()
    &&& all.skip(all.len() - kept.len()) == kept
    &&& kept.len() < all.len() ==> content(state.files.rotated).len() >= state.log.cap_half
}

/// The cap holds, whatever fails: between two writes the count is right, and neither file is longer
/// than the threshold by as much as one write.
pub proof fn the_cap_holds(state: Logging, data: Seq<u8>, outcomes: Outcomes, longest: nat)
    requires
        sound(state),
        state.log.cap_half > 0,
        data.len() <= longest,
        state.log.cap_half + longest <= u64::MAX,
        content(state.files.active).len() < state.log.cap_half + longest,
        content(state.files.rotated).len() < state.log.cap_half + longest,
    ensures
        ({
            let after = after_write(state, data, outcomes);
            &&& sound(after)
            &&& content(after.files.active).len() < state.log.cap_half + longest
            &&& content(after.files.rotated).len() < state.log.cap_half + longest
        }),
{
}

/// How the requests of a write turn out where nothing fails.
pub open spec fn nothing_fails() -> Outcomes {
    Outcomes { restart: true, rename: true, reopen: true, resume: true }
}

/// While rotation works, the files hold the end of the output: of what was written, what is lost
/// is the oldest part, and half the cap at least is kept.
pub proof fn recent_output_survives(state: Logging, all: Seq<u8>, data: Seq<u8>)
    requires
        sound(state),
        !state.log.stuck,
        !state.log.moved,
        state.log.cap_half > 0,
        state.log.cap_half + data.len() <= u64::MAX,
        keeps_the_end(state, all),
    ensures
        ({
            let after = after_write(state, data, nothing_fails());
            &&& sound(after)
            &&& !after.log.stuck
            &&& !after.log.moved
            &&& keeps_the_end(after, all + data)
        }),
{
    let after = after_write(state, data, nothing_fails());
    let before = content(state.files.rotated) + content(state.files.active);
    let kept = content(after.files.rotated) + content(after.files.active);
    let total = all + data;
    assert forall|i: int| 0 <= i < kept.len() implies total.skip(total.len() - kept.len())[i]
        == kept[i] by {
        let at = total.len() - kept.len() + i;
        if at < all.len() {
            let j = at - (all.len() - before.len());
            assert(all.skip(all.len() - before.len())[j] == before[j]);
        }
    }
    assert(total.skip(total.len() - kept.len()) =~= kept);
}

/// The log and its files after several writes, with nothing failing.
pub open spec fn after_writes(state: Logging, chunks: Seq<Seq<u8>>) -> Logging
    decreases chunks.len(),
{
    if chunks.len() == 0 {
        state
    } else {
        after_write(
            after_writes(state, chunks.drop_last()),
            chunks.last(),
            nothing_fails(),
        )
    }
}

/// All that was written, in order.
pub open spec fn output(chunks: Seq<Seq<u8>>) -> Seq<u8>
    decreases chunks.len(),
{
    if chunks.len() == 0 {
        Seq::empty()
    } else {
        output(chunks.drop_last()) + chunks.last()
    }
}

/// A run whose rotations work keeps the end of its output: all of it while it is short, and half
/// the cap of it at least for good.
pub proof fn runs_keep_the_end_of_their_output(
    dir: PathView,
    millis: u128,
    pid: u32,
    cap_half: u64,
    chunks: Seq<Seq<u8>>,
)
    requires
        cap_half > 0,
        forall|i: int| 0 <= i < chunks.len() ==> cap_half + (#[trigger] chunks[i]).len()
            <= u64::MAX,
    ensures
        ({
            let after = after_writes(Logging::fresh(dir, millis, pid, cap_half), chunks);
            &&& sound(after)
            &&& keeps_the_end(after, output(chunks))
        }),
{
    lemma_writes(Logging::fresh(dir, millis, pid, cap_half), chunks);
}

proof fn lemma_writes(fresh: Logging, chunks: Seq<Seq<u8>>)
    requires
        sound(fresh),
        !fresh.log.stuck,
        !fresh.log.moved,
        fresh.log.cap_half > 0,
        content(fresh.files.active).len() == 0,
        content(fresh.files.rotated).len() == 0,
        forall|i: int| 0 <= i < chunks.len() ==> fresh.log.cap_half + (#[trigger] chunks[i]).len()
            <= u64::MAX,
    ensures
        sound(after_writes(fresh, chunks)),
        !after_writes(fresh, chunks).log.stuck,
        !after_writes(fresh, chunks).log.moved,
        after_writes(fresh, chunks).log.cap_half == fresh.log.cap_half,
        keeps_the_end(after_writes(fresh, chunks), output(chunks)),
    decreases chunks.len(),
{
    if chunks.len() == 0 {
        let all = output(chunks);
        assert(all.skip(0) =~= content(fresh.files.rotated) + content(fresh.files.active));
    } else {
        let before = chunks.drop_last();
        assert forall|i: int| 0 <= i < before.len() implies fresh.log.cap_half + (
        #[trigger] before[i]).len() <= u64::MAX by {
            assert(before[i] == chunks[i]);
        }
        lemma_writes(fresh, before);
        assert(chunks.last() == chunks[chunks.len() - 1]);
        recent_output_survives(after_writes(fresh, before), output(before), chunks.last());
    }
}

/// Whatever fails, the file that is being written to is the end of what was let into the log. Only
/// where a full file could not be emptied is a write let go.
pub proof fn current_file_is_recent(
    state: Logging,
    all: Seq<u8>,
    data: Seq<u8>,
    outcomes: Outcomes,
)
    requires
        sound(state),
        state.current().len() + data.len() <= u64::MAX,
        state.current().is_suffix_of(all),
    ensures
        ({
            let after = after_write(state, data, outcomes);
            let dropped = state.log.stuck && !outcomes.restart;
            after.current().is_suffix_of(
                if dropped {
                    all
                } else {
                    all + data
                },
            )
        }),
{
    let current = state.current();
    let total = all + data;
    assert(data.is_suffix_of(total)) by {
        assert(data =~= total.subrange(total.len() - data.len(), total.len() as int));
    }
    assert((current + data).is_suffix_of(total)) by {
        assert(current + data =~= total.subrange(
            total.len() - (current + data).len(),
            total.len() as int,
        ));
    }
    assert(Seq::<u8>::empty() + data =~= data);
    assert(Seq::<u8>::empty() =~= total.subrange(total.len() as int, total.len() as int));
}

/// Where the full active file was renamed and no fresh one could be started, nothing is lost: the
/// rotated file holds what the active one held, with the data at its end, and is the one that is
/// being written to.
pub proof fn a_failed_reopen_loses_nothing(state: Logging, data: Seq<u8>, outcomes: Outcomes)
    requires
        sound(state),
        !state.log.stuck,
        !state.log.moved,
        state.current().len() + data.len() >= state.log.cap_half,
        state.current().len() + data.len() <= u64::MAX,
        outcomes.rename,
        !outcomes.reopen,
    ensures
        ({
            let after = after_write(state, data, outcomes);
            &&& sound(after)
            &&& after.log.moved
            &&& after.log.stuck
            &&& after.files.active is None
            &&& after.files.rotated == Some(content(state.files.active) + data)
        }),
{
}

proof fn lemma_same_numerals(a: nat, b: nat)
    requires
        text::decimal(a) == text::decimal(b),
    ensures
        a == b,
{
    text::decimal_is_made_of_digits(a);
    text::decimal_is_made_of_digits(b);
}

/// Logs do not collide: those of different processes, or of one process at different times, have
/// different names; and the two files of a log are different files.
#[verifier::rlimit(30)]
pub proof fn logs_do_not_collide(m1: u128, p1: u32, m2: u128, p2: u32, dir: PathView, cap_half: u64)
    ensures
        log_name(m1, p1) == log_name(m2, p2) ==> m1 == m2 && p1 == p2,
        RingView::fresh(dir, m1, p1, cap_half).rotated_path == RingView::fresh(
            dir,
            m1,
            p1,
            cap_half,
        ).path + ".1"@,
        RingView::fresh(dir, m1, p1, cap_half).rotated_path != RingView::fresh(
            dir,
            m1,
            p1,
            cap_half,
        ).path,
        RingView::fresh(dir, m1, p1, cap_half).path == file_in(dir, log_name(m1, p1)).text,
{
    reveal_strlit(".1");
    reveal_strlit("heartbeat-launch-pty-");
    reveal_strlit("-");
    reveal_strlit(".log");
    let head = "heartbeat-launch-pty-"@;
    let fresh = RingView::fresh(dir, m1, p1, cap_half);
    assert(fresh.rotated_path.len() == fresh.path.len() + 2);
    if log_name(m1, p1) == log_name(m2, p2) {
        let name = log_name(m1, p1);
        let (t1, t2) = (text::decimal(m1 as nat), text::decimal(m2 as nat));
        let (q1, q2) = (text::decimal(p1 as nat), text::decimal(p2 as nat));
        text::decimal_is_made_of_digits(m1 as nat);
        text::decimal_is_made_of_digits(m2 as nat);
        let h = head.len() as int;
        assert(name =~= head + t1 + "-"@ + q1 + ".log"@);
        assert(name =~= head + t2 + "-"@ + q2 + ".log"@);
        assert(name[h + t1.len()] == '-');
        assert(name[h + t2.len()] == '-');
        if t1.len() < t2.len() {
            assert(name[h + t1.len()] == t2[t1.len() as int]);
            assert(text::is_digit(t2[t1.len() as int]));
        }
        if t2.len() < t1.len() {
            assert(name[h + t2.len()] == t1[t2.len() as int]);
            assert(text::is_digit(t1[t2.len() as int]));
        }
        assert(t1 =~= name.subrange(h, h + t1.len()));
        assert(t2 =~= name.subrange(h, h + t2.len()));
        lemma_same_numerals(m1 as nat, m2 as nat);
        let from = h + t1.len() + 1;
        assert(q1.len() == q2.len());
        assert(q1 =~= name.subrange(from, from + q1.len()));
        assert(q2 =~= name.subrange(from, from + q2.len()));
        lemma_same_numerals(p1 as nat, p2 as nat);
    }
}

/// A log may hold ten mebibytes: five in each of its files.
pub proof fn logs_hold_ten_mebibytes()
    ensures
        PTY_LOG_MAX_BYTES == 10_485_760,
        PTY_LOG_MAX_BYTES / 2 == 5_242_880,
{
}

/// What a write asks for. It appends the data, after the file was emptied where it is full and
/// could not be rotated. A file that has reached the threshold is renamed, unless it is the rotated
/// one already, and a fresh one is started; below the threshold the write is over.
pub proof fn writes_append_and_rotate(log: RingView, len: u64, ok: bool)
    ensures
        log.begun(len).requested() == if log.stuck {
            LogRequest::Restart
        } else {
            LogRequest::Append
        },
        log.phase == LogPhase::Restarting(len) ==> log.stepped(ok).requested() == if ok {
            LogRequest::Append
        } else {
            LogRequest::Done
        },
        log.phase == LogPhase::Appending(len) ==> log.stepped(ok).requested() == if !ok
            || log.bytes_written + len < log.cap_half {
            LogRequest::Done
        } else if log.moved {
            LogRequest::Reopen
        } else {
            LogRequest::Rename
        },
        log.phase is Renaming ==> log.stepped(ok).requested() == if ok {
            LogRequest::Reopen
        } else {
            LogRequest::Done
        },
        log.phase is Reopening ==> log.stepped(ok).requested() == if ok {
            LogRequest::Done
        } else {
            LogRequest::Resume
        },
        log.phase is Resuming ==> log.stepped(ok).requested() == LogRequest::Done,
        log.begun(len).path == log.path && log.stepped(ok).path == log.path,
        log.begun(len).rotated_path == log.rotated_path && log.stepped(ok).rotated_path
            == log.rotated_path,
        log.begun(len).cap_half == log.cap_half && log.stepped(ok).cap_half == log.cap_half,
{
}

} // verus!
