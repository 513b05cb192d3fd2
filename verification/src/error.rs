//! Error types of the library.
//!
//! Discriminated variants only: a caller can tell every failure apart. What an operating system
//! or a parser said about a failure is carried as text in `source`.

use vstd::prelude::*;

verus! {

/// Why an operation on a session directory failed.
#[derive(Debug)]
pub enum HeartbeatError {
    /// The inbox could not be read.
    InboxRead(String),
    /// The offset file exists but its content is not a valid number. `content` is the trimmed
    /// text that was tried.
    OffsetCorrupt { path: String, content: String },
    /// The offset file exists but could not be read.
    OffsetRead { path: String, source: String },
    /// The offset file could not be written.
    OffsetWrite { path: String, source: String },
    /// The `.in-flight` file exists but its JSON is corrupt.
    InFlightCorrupt { path: String, source: String },
    /// The `.in-flight` file exists but could not be read.
    InFlightRead { path: String, source: String },
    /// The `.in-flight` file could not be written.
    InFlightWrite { path: String, source: String },
    /// `.responded` is present without `.in-flight`.
    InconsistentState { io_dir: String },
    /// The dead-letter file could not be written.
    DeadLetterWrite { path: String, source: String },
}

/// What a [`HeartbeatError`] says.
pub enum ErrorView {
    InboxRead(Seq<char>),
    OffsetCorrupt { path: Seq<char>, content: Seq<char> },
    OffsetRead { path: Seq<char>, source: Seq<char> },
    OffsetWrite { path: Seq<char>, source: Seq<char> },
    InFlightCorrupt { path: Seq<char>, source: Seq<char> },
    InFlightRead { path: Seq<char>, source: Seq<char> },
    InFlightWrite { path: Seq<char>, source: Seq<char> },
    InconsistentState { io_dir: Seq<char> },
    DeadLetterWrite { path: Seq<char>, source: Seq<char> },
}

impl View for HeartbeatError {
    type V = ErrorView;

    open spec fn view(&self) -> ErrorView {
        match *self {
            HeartbeatError::InboxRead(source) => ErrorView::InboxRead(source@),
            HeartbeatError::OffsetCorrupt { path, content } => ErrorView::OffsetCorrupt {
                path: path@,
                content: content@,
            },
            HeartbeatError::OffsetRead { path, source } => ErrorView::OffsetRead {
                path: path@,
                source: source@,
            },
            HeartbeatError::OffsetWrite { path, source } => ErrorView::OffsetWrite {
                path: path@,
                source: source@,
            },
            HeartbeatError::InFlightCorrupt { path, source } => ErrorView::InFlightCorrupt {
                path: path@,
                source: source@,
            },
            HeartbeatError::InFlightRead { path, source } => ErrorView::InFlightRead {
                path: path@,
                source: source@,
            },
            HeartbeatError::InFlightWrite { path, source } => ErrorView::InFlightWrite {
                path: path@,
                source: source@,
            },
            HeartbeatError::InconsistentState { io_dir } => ErrorView::InconsistentState {
                io_dir: io_dir@,
            },
            HeartbeatError::DeadLetterWrite { path, source } => ErrorView::DeadLetterWrite {
                path: path@,
                source: source@,
            },
        }
    }
}

/// `s` in double quotes with escapes, as Rust's `{:?}` shows a string.
pub uninterp spec fn debug_form(s: Seq<char>) -> Seq<char>;

/// What `format!("{:?}", ..)` of the standard library gives for the string `s`.
///
/// The text is a function of `s` alone; nothing more is said of it.
#[verifier::external_body]
fn debug_text(s: &str) -> (r: String)
    ensures
        r@ == debug_form(s@),
{
    format!("{:?}", s)
}

/// `what`, a place and a reason, as one message.
pub open spec fn failure_text(what: Seq<char>, path: Seq<char>, source: Seq<char>) -> Seq<char> {
    what + " at "@ + path + ": "@ + source
}

/// The message of an error.
pub open spec fn error_text(e: ErrorView) -> Seq<char> {
    match e {
        ErrorView::InboxRead(source) => "inbox read error: "@ + source,
        ErrorView::OffsetCorrupt { path, content } => failure_text(
            "offset file corrupt"@,
            path,
            "expected numeric offset, got "@ + debug_form(content),
        ),
        ErrorView::OffsetRead { path, source } => failure_text(
            "offset file read error"@,
            path,
            source,
        ),
        ErrorView::OffsetWrite { path, source } => failure_text(
            "offset file write error"@,
            path,
            source,
        ),
        ErrorView::InFlightCorrupt { path, source } => failure_text(
            ".in-flight corrupt"@,
            path,
            source,
        ),
        ErrorView::InFlightRead { path, source } => failure_text(
            ".in-flight read error"@,
            path,
            source,
        ),
        ErrorView::InFlightWrite { path, source } => failure_text(
            ".in-flight write error"@,
            path,
            source,
        ),
        ErrorView::InconsistentState { io_dir } =>
            "inconsistent state: .responded present without .in-flight at "@ + io_dir
                + "; run `heartbeat-stop recover`"@,
        ErrorView::DeadLetterWrite { path, source } => failure_text(
            "dead-letter write error"@,
            path,
            source,
        ),
    }
}

fn failure(what: &str, path: &str, source: &str) -> (r: String)
    ensures
        r@ == failure_text(what@, path@, source@),
{
    what.to_owned().concat(" at ").concat(path).concat(": ").concat(source)
}

impl HeartbeatError {
    /// The message of this error.
    pub fn message(&self) -> (r: String)
        ensures
            r@ == error_text(self@),
    {
        match self {
            HeartbeatError::InboxRead(source) => "inbox read error: ".to_owned().concat(
                source.as_str(),
            ),
            HeartbeatError::OffsetCorrupt { path, content } => {
                let shown = debug_text(content.as_str());
                let got = "expected numeric offset, got ".to_owned().concat(shown.as_str());
                failure("offset file corrupt", path.as_str(), got.as_str())
            },
            HeartbeatError::OffsetRead { path, source } => failure(
                "offset file read error",
                path.as_str(),
                source.as_str(),
            ),
            HeartbeatError::OffsetWrite { path, source } => failure(
                "offset file write error",
                path.as_str(),
                source.as_str(),
            ),
            HeartbeatError::InFlightCorrupt { path, source } => failure(
                ".in-flight corrupt",
                path.as_str(),
                source.as_str(),
            ),
            HeartbeatError::InFlightRead { path, source } => failure(
                ".in-flight read error",
                path.as_str(),
                source.as_str(),
            ),
            HeartbeatError::InFlightWrite { path, source } => failure(
                ".in-flight write error",
                path.as_str(),
                source.as_str(),
            ),
            HeartbeatError::InconsistentState { io_dir } =>
                "inconsistent state: .responded present without .in-flight at ".to_owned().concat(
                io_dir.as_str(),
            ).concat("; run `heartbeat-stop recover`"),
            HeartbeatError::DeadLetterWrite { path, source } => failure(
                "dead-letter write error",
                path.as_str(),
                source.as_str(),
            ),
        }
    }
}

/// A message says what failed, where, and why: the place and the reason stand in it whole.
pub proof fn messages_say_what_failed(path: Seq<char>, source: Seq<char>)
    ensures
        ({
            let at = " at "@ + path + ": "@ + source;
            &&& error_text(ErrorView::InboxRead(source)) == "inbox read error: "@ + source
            &&& error_text(ErrorView::OffsetRead { path, source }) == "offset file read error"@ + at
            &&& error_text(ErrorView::OffsetWrite { path, source }) == "offset file write error"@
                + at
            &&& error_text(ErrorView::InFlightCorrupt { path, source }) == ".in-flight corrupt"@
                + at
            &&& error_text(ErrorView::InFlightRead { path, source }) == ".in-flight read error"@
                + at
            &&& error_text(ErrorView::InFlightWrite { path, source }) == ".in-flight write error"@
                + at
            &&& error_text(ErrorView::DeadLetterWrite { path, source })
                == "dead-letter write error"@ + at
            &&& error_text(ErrorView::OffsetCorrupt { path, content: source })
                == "offset file corrupt at "@ + path + ": expected numeric offset, got "@
                + debug_form(source)
            &&& error_text(ErrorView::InconsistentState { io_dir: path })
                == "inconsistent state: .responded present without .in-flight at "@ + path
                + "; run `heartbeat-stop recover`"@
        }),
{
    reveal_strlit("offset file corrupt at ");
    reveal_strlit("offset file corrupt");
    reveal_strlit(" at ");
    reveal_strlit(": expected numeric offset, got ");
    reveal_strlit(": ");
    reveal_strlit("expected numeric offset, got ");
    assert("offset file corrupt at "@ =~= "offset file corrupt"@ + " at "@);
    assert(": expected numeric offset, got "@ =~= ": "@ + "expected numeric offset, got "@);
    assert(error_text(ErrorView::OffsetCorrupt { path, content: source })
        =~= "offset file corrupt at "@ + path + ": expected numeric offset, got "@ + debug_form(
        source,
    ));
    let at = " at "@ + path + ": "@ + source;
    assert(error_text(ErrorView::OffsetRead { path, source }) =~= "offset file read error"@ + at);
    assert(error_text(ErrorView::OffsetWrite { path, source }) =~= "offset file write error"@ + at);
    assert(error_text(ErrorView::InFlightCorrupt { path, source }) =~= ".in-flight corrupt"@ + at);
    assert(error_text(ErrorView::InFlightRead { path, source }) =~= ".in-flight read error"@ + at);
    assert(error_text(ErrorView::InFlightWrite { path, source }) =~= ".in-flight write error"@
        + at);
    assert(error_text(ErrorView::DeadLetterWrite { path, source }) =~= "dead-letter write error"@
        + at);
}

} // verus!
