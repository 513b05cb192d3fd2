//! The reader of a child's output: what it does with each read, and how it is waited for.
//!
//! The reader keeps the terminal drained, so that the child never blocks on a write. What it reads
//! goes to standard output first; the log comes second, and can fail without harm. Times are
//! nanoseconds on a monotonic clock.

use vstd::prelude::*;

use crate::idle::NANOS_PER_SEC;

verus! {

/// Seconds that the reader has to drain the output of a child that has gone.
pub const DRAIN_SECS: u64 = 2;

/// Milliseconds between two looks at a draining reader.
pub const DRAIN_POLL_MS: u64 = 50;

/// What a read gave.
#[derive(Debug, Clone, Copy, PartialEq, Eq, Structural)]
pub enum ReadOutcome {
    /// The child's side is closed.
    Eof,
    /// There is data.
    Data,
    /// The read was interrupted.
    Interrupted,
    /// The read failed.
    Failed,
}

/// What the reader asks for.
#[derive(Debug, Clone, Copy, PartialEq, Eq, Structural)]
pub enum ReaderRequest {
    /// Look whether the reader is to stop, and report it as [`ReaderEvent::Stop`].
    CheckStop,
    /// Read, and report it as [`ReaderEvent::Read`].
    Read,
    /// Mark output as seen now, write the data to standard output, and report whether that
    /// succeeded.
    Forward,
    /// Write the data to the log, and report whether that succeeded.
    Tee,
    /// Nothing more: the reader has ended.
    Finish,
}

/// What came of a request.
#[derive(Debug, Clone, Copy, PartialEq, Eq, Structural)]
pub enum ReaderEvent {
    /// Whether the reader is to stop.
    Stop(bool),
    /// What a read gave.
    Read(ReadOutcome),
    /// Whether a write succeeded.
    Written(bool),
}

/// The reader's loop, as a state machine.
#[derive(Debug, Clone, Copy, PartialEq, Eq, Structural)]
pub struct Reader {
    /// What is asked for.
    pub request: ReaderRequest,
    /// Whether there is a log to write to.
    pub logging: bool,
}

impl Reader {
    /// What follows an event. One that does not answer the last request changes nothing.
    pub open spec fn stepped(self, event: ReaderEvent) -> Reader {
        match (self.request, event) {
            (ReaderRequest::CheckStop, ReaderEvent::Stop(true)) => self.asking(
                ReaderRequest::Finish,
            ),
            (ReaderRequest::CheckStop, ReaderEvent::Stop(false)) => self.asking(
                ReaderRequest::Read,
            ),
            (ReaderRequest::Read, ReaderEvent::Read(ReadOutcome::Data)) => self.asking(
                ReaderRequest::Forward,
            ),
            (ReaderRequest::Read, ReaderEvent::Read(ReadOutcome::Interrupted)) => self.asking(
                ReaderRequest::CheckStop,
            ),
            (ReaderRequest::Read, ReaderEvent::Read(_)) => self.asking(ReaderRequest::Finish),
            (ReaderRequest::Forward, ReaderEvent::Written(false)) => self.asking(
                ReaderRequest::Finish,
            ),
            (ReaderRequest::Forward, ReaderEvent::Written(true)) => self.asking(
                if self.logging {
                    ReaderRequest::Tee
                } else {
                    ReaderRequest::CheckStop
                },
            ),
            (ReaderRequest::Tee, ReaderEvent::Written(ok)) => Reader {
                request: ReaderRequest::CheckStop,
                logging: ok,
            },
            _ => self,
        }
    }

    /// Whether the log is written to only where there is one.
    pub open spec fn wf(self) -> bool {
        self.request is Tee ==> self.logging
    }

    /// The same, with another request.
    pub open spec fn asking(self, request: ReaderRequest) -> Reader {
        Reader { request, ..self }
    }

    /// A reader at its start.
    pub fn new(logging: bool) -> (r: Self)
        ensures
            r == (Reader { request: ReaderRequest::CheckStop, logging }),
            r.wf(),
    {
        Reader { request: ReaderRequest::CheckStop, logging }
    }

    /// Goes on after an event. One that does not answer the last request changes nothing.
    pub fn step(&mut self, event: ReaderEvent)
        ensures
            *final(self) == old(self).stepped(event),
    {
        match (self.request, event) {
            (ReaderRequest::CheckStop, ReaderEvent::Stop(true)) => {
                self.request = ReaderRequest::Finish;
            },
            (ReaderRequest::CheckStop, ReaderEvent::Stop(false)) => {
                self.request = ReaderRequest::Read;
            },
            (ReaderRequest::Read, ReaderEvent::Read(ReadOutcome::Data)) => {
                self.request = ReaderRequest::Forward;
            },
            (ReaderRequest::Read, ReaderEvent::Read(ReadOutcome::Interrupted)) => {
                self.request = ReaderRequest::CheckStop;
            },
            (ReaderRequest::Read, ReaderEvent::Read(_)) => {
                self.request = ReaderRequest::Finish;
            },
            (ReaderRequest::Forward, ReaderEvent::Written(false)) => {
                self.request = ReaderRequest::Finish;
            },
            (ReaderRequest::Forward, ReaderEvent::Written(true)) => {
                self.request = if self.logging {
                    ReaderRequest::Tee
                } else {
                    ReaderRequest::CheckStop
                };
            },
            (ReaderRequest::Tee, ReaderEvent::Written(ok)) => {
                self.request = ReaderRequest::CheckStop;
                self.logging = ok;
            },
            _ => {},
        }
    }
}

/// The log never stops the reader: after a write to it, failed or not, the reader goes on as
/// before, and one that failed is the last.
pub proof fn the_log_never_stops_the_reader(reader: Reader, ok: bool)
    requires
        reader.request is Tee,
    ensures
        reader.stepped(ReaderEvent::Written(ok)).request is CheckStop,
        reader.stepped(ReaderEvent::Written(ok)).logging == ok,
{
}

/// Nothing goes to the log that did not go to standard output before, and nothing does once the log
/// has failed.
pub proof fn output_is_forwarded_before_it_is_logged(reader: Reader, event: ReaderEvent)
    requires
        reader.wf(),
    ensures
        reader.stepped(event).wf(),
        reader.stepped(event).request is Tee && !(reader.request is Tee) ==> reader.request
            is Forward && event == ReaderEvent::Written(true) && reader.logging,
        !reader.logging ==> !reader.stepped(event).logging,
{
}

/// What to do with a reader whose child has gone.
#[derive(Debug, Clone, Copy, PartialEq, Eq, Structural)]
pub enum DrainRequest {
    /// It has finished: join it, then close the terminal.
    Join,
    /// Wait for this many milliseconds and look again.
    Pause(u64),
    /// It is late: tell it to stop, close the terminal, and do not join it.
    Abandon,
}

/// When a reader that is waited for since `start` is late.
pub open spec fn drain_deadline(start: u64) -> int {
    start + DRAIN_SECS * NANOS_PER_SEC
}

/// What to do at `now` with a reader that is waited for since `start`. The terminal is kept open
/// until the reader has finished, so that nothing it has yet to read is cut off; a reader that
/// never finishes is abandoned.
pub fn drain(finished: bool, start: u64, now: u64) -> (r: DrainRequest)
    ensures
        r == if finished {
            DrainRequest::Join
        } else if now > drain_deadline(start) {
            DrainRequest::Abandon
        } else {
            DrainRequest::Pause(DRAIN_POLL_MS)
        },
        finished ==> r == DrainRequest::Join,
        !finished && now > start + 2_000_000_000 ==> r == DrainRequest::Abandon,
        !finished && now <= start + 2_000_000_000 ==> r == DrainRequest::Pause(50),
{
    assert(DRAIN_SECS * NANOS_PER_SEC == 2_000_000_000);
    if finished {
        DrainRequest::Join
    } else if now as u128 > start as u128 + DRAIN_SECS as u128 * NANOS_PER_SEC as u128 {
        DrainRequest::Abandon
    } else {
        DrainRequest::Pause(DRAIN_POLL_MS)
    }
}

/// All that is read goes to standard output; an interrupted read is tried again; the reader ends
/// when it is told to, at the end of the output, at a failed read, and when standard output cannot
/// be written to, and at nothing else. What was forwarded goes to the log where there is one, and
/// then the reader reads on.
pub proof fn output_is_read_until_it_ends(reader: Reader, event: ReaderEvent)
    ensures
        ({
            let next = reader.stepped(event);
            &&& reader.request is Read && event == ReaderEvent::Read(ReadOutcome::Data)
                ==> next.request is Forward
            &&& reader.request is Read && event == ReaderEvent::Read(ReadOutcome::Interrupted)
                ==> next.request is CheckStop
            &&& reader.request is CheckStop && event == ReaderEvent::Stop(false)
                ==> next.request is Read
            &&& reader.request is Forward && event == ReaderEvent::Written(true)
                ==> next.request == if reader.logging {
                ReaderRequest::Tee
            } else {
                ReaderRequest::CheckStop
            }
            &&& next.request is Finish <==> {
                ||| reader.request is Finish
                ||| reader.request is CheckStop && event == ReaderEvent::Stop(true)
                ||| reader.request is Read && (event == ReaderEvent::Read(ReadOutcome::Eof) || event
                    == ReaderEvent::Read(ReadOutcome::Failed))
                ||| reader.request is Forward && event == ReaderEvent::Written(false)
            }
            &&& next.logging == (reader.logging && !(reader.request is Tee && event
                == ReaderEvent::Written(false))) || reader.request is Tee && event
                == ReaderEvent::Written(true) && next.logging
        }),
{
}

/// A reader that never finishes is waited for two seconds.
pub proof fn readers_are_waited_for_two_seconds(start: u64)
    ensures
        drain_deadline(start) == start + 2_000_000_000,
{
}

} // verus!
