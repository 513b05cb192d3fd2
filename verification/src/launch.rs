//! What the launcher decides before and after a run: the child's command line and environment, idle
//! detection, and the status that is reported.

use vstd::prelude::*;

use crate::idle::IdleConfig;
use crate::pty::{pty_error_text, run_result, PtyError, PtyErrorView, RunResult};
use crate::text;

verus! {

/// The environment variables that tell who the launching session is. The child must not take
/// itself for that session.
pub open spec fn identity_variables() -> Seq<Seq<char>> {
    seq![
        "CLAUDE_CODE_SESSION_ID"@,
        "CLAUDE_CODE_CHILD_SESSION"@,
        "CLAUDE_CODE_ENTRYPOINT"@,
        "CLAUDE_CODE_EXECPATH"@,
        "CLAUDECODE"@,
        "AI_AGENT"@,
    ]
}

/// The names in a list.
pub open spec fn names(list: Seq<String>) -> Seq<Seq<char>> {
    list.map_values(|s: String| s@)
}

/// The environment variables that are taken out of the child's environment. All others are
/// forwarded: what a child needs is not known beforehand, so what it must not have is named.
pub fn stripped_variables() -> (r: Vec<String>)
    ensures
        names(r@) == identity_variables(),
{
    let mut r: Vec<String> = Vec::new();
    r.push("CLAUDE_CODE_SESSION_ID".to_owned());
    r.push("CLAUDE_CODE_CHILD_SESSION".to_owned());
    r.push("CLAUDE_CODE_ENTRYPOINT".to_owned());
    r.push("CLAUDE_CODE_EXECPATH".to_owned());
    r.push("CLAUDECODE".to_owned());
    r.push("AI_AGENT".to_owned());
    assert(names(r@) =~= identity_variables());
    r
}

/// The configuration of idle detection, which a timeout of zero turns off.
pub fn idle_config(timeout_secs: u64, prompt: String, max_retries: u32) -> (r: Option<IdleConfig>)
    ensures
        timeout_secs == 0 <==> r is None,
        r matches Some(config) ==> config.timeout_secs == timeout_secs && config.prompt@ == prompt@
            && config.max_retries == max_retries,
{
    if timeout_secs > 0 {
        Some(IdleConfig { timeout_secs, prompt, max_retries })
    } else {
        None
    }
}

/// What the launcher says of a run, and the status with which it exits.
#[derive(Debug)]
pub struct Report {
    /// Lines for the operator.
    pub lines: Vec<String>,
    /// The launcher's own exit status.
    pub status: i32,
}

/// What a [`Report`] holds.
#[verifier::ext_equal]
pub struct ReportView {
    pub lines: Seq<Seq<char>>,
    pub status: i32,
}

impl View for Report {
    type V = ReportView;

    open spec fn view(&self) -> ReportView {
        ReportView { lines: names(self.lines@), status: self.status }
    }
}

/// The exit status for a child's exit code: the code itself, as far as a status can hold it.
pub open spec fn forwarded(exit_code: u32) -> i32 {
    if exit_code > i32::MAX {
        i32::MAX
    } else {
        exit_code as i32
    }
}

/// The status of a run's result: the child's own code, 124 for a timeout, 125 for a child that was
/// given up as idle, 1 for all else.
pub open spec fn status_of(r: Result<u32, PtyErrorView>) -> i32 {
    match r {
        Ok(exit_code) => forwarded(exit_code),
        Err(PtyErrorView::Timeout(_)) => 124,
        Err(PtyErrorView::IdleExhausted(_)) => 125,
        Err(_) => 1,
    }
}

/// The lines of a run's result. There is at least one, so a reader can tell a status that the
/// launcher made from one that it forwards.
pub open spec fn lines_of(r: Result<u32, PtyErrorView>) -> Seq<Seq<char>> {
    match r {
        Ok(exit_code) => {
            let exited = "heartbeat-launch: child exited with code "@ + text::decimal(
                forwarded(exit_code) as nat,
            );
            if exit_code > i32::MAX {
                seq![
                    "heartbeat-launch: child exit code "@ + text::decimal(exit_code as nat)
                        + " exceeds i32::MAX, capping to i32::MAX"@,
                    exited,
                ]
            } else {
                seq![exited]
            }
        },
        Err(PtyErrorView::Timeout(secs)) => seq![
            "heartbeat-launch: timeout after "@ + text::decimal(secs as nat)
                + "s — child killed"@,
        ],
        Err(PtyErrorView::IdleExhausted(secs)) => seq![
            "heartbeat-launch: idle exhausted — no output for "@ + text::decimal(secs as nat)
                + "s after maximum keepalive retries, child killed"@,
        ],
        Err(e) => seq!["heartbeat-launch: error: "@ + pty_error_text(e)],
    }
}

/// What the launcher reports of a run.
pub fn report(result: &Result<RunResult, PtyError>) -> (r: Report)
    ensures
        r@ == (ReportView {
            lines: lines_of(run_result(*result)),
            status: status_of(run_result(*result)),
        }),
{
    let mut lines: Vec<String> = Vec::new();
    match result {
        Ok(run) => {
            let exit_code = run.exit_code;
            let status: i32 = if exit_code > 2147483647 {
                let code = text::decimal_text(exit_code as u128);
                lines.push(
                    "heartbeat-launch: child exit code ".to_owned().concat(code.as_str()).concat(
                        " exceeds i32::MAX, capping to i32::MAX",
                    ),
                );
                2147483647
            } else {
                exit_code as i32
            };
            let code = text::decimal_text(status as u128);
            lines.push(
                "heartbeat-launch: child exited with code ".to_owned().concat(code.as_str()),
            );
            assert(names(lines@) =~= lines_of(run_result(*result)));
            Report { lines, status }
        },
        Err(PtyError::Timeout(secs)) => {
            let n = text::decimal_text(*secs as u128);
            lines.push(
                "heartbeat-launch: timeout after ".to_owned().concat(n.as_str()).concat(
                    "s — child killed",
                ),
            );
            assert(names(lines@) =~= lines_of(run_result(*result)));
            Report { lines, status: 124 }
        },
        Err(PtyError::IdleExhausted(secs)) => {
            let n = text::decimal_text(*secs as u128);
            lines.push(
                "heartbeat-launch: idle exhausted — no output for ".to_owned().concat(
                    n.as_str(),
                ).concat("s after maximum keepalive retries, child killed"),
            );
            assert(names(lines@) =~= lines_of(run_result(*result)));
            Report { lines, status: 125 }
        },
        Err(e) => {
            let message = e.message();
            lines.push("heartbeat-launch: error: ".to_owned().concat(message.as_str()));
            assert(names(lines@) =~= lines_of(run_result(*result)));
            Report { lines, status: 1 }
        },
    }
}

/// The launcher's status tells how the run went: the child's own code as far as a status can hold
/// it, 124 for a timeout, 125 for a child that was given up as idle, and 1 for every other failure.
pub proof fn statuses_tell_how_the_run_went(exit_code: u32, secs: u64, reason: Seq<char>)
    ensures
        exit_code <= 2147483647 ==> status_of(Ok(exit_code)) == exit_code,
        exit_code > 2147483647 ==> status_of(Ok(exit_code)) == 2147483647,
        status_of(Err(PtyErrorView::Timeout(secs))) == 124,
        status_of(Err(PtyErrorView::IdleExhausted(secs))) == 125,
        status_of(Err(PtyErrorView::Open(reason))) == 1,
        status_of(Err(PtyErrorView::Spawn(reason))) == 1,
        status_of(Err(PtyErrorView::Reader(reason))) == 1,
        status_of(Err(PtyErrorView::Io(reason))) == 1,
{
}

/// What the operator reads of a run ends with the status of the child, with the limit that ran out,
/// or with the reason of the failure. A code that a status cannot hold is told besides.
pub proof fn operators_are_told_how_the_run_went(exit_code: u32, secs: u64, reason: Seq<char>)
    ensures
        ({
            let exited = lines_of(Ok(exit_code));
            &&& exited.len() == if exit_code > 2147483647 {
                2nat
            } else {
                1nat
            }
            &&& exited.last() == "heartbeat-launch: child exited with code "@ + text::decimal(
                status_of(Ok(exit_code)) as nat,
            )
            &&& exit_code > 2147483647 ==> exited[0] == "heartbeat-launch: child exit code "@
                + text::decimal(exit_code as nat) + " exceeds i32::MAX, capping to i32::MAX"@
            &&& lines_of(Err(PtyErrorView::Timeout(secs))) == seq![
                "heartbeat-launch: timeout after "@ + text::decimal(secs as nat)
                    + "s — child killed"@,
            ]
            &&& lines_of(Err(PtyErrorView::IdleExhausted(secs))) == seq![
                "heartbeat-launch: idle exhausted — no output for "@ + text::decimal(secs as nat)
                    + "s after maximum keepalive retries, child killed"@,
            ]
            &&& lines_of(Err(PtyErrorView::Open(reason))) == seq![
                "heartbeat-launch: error: "@ + ("failed to open PTY: "@ + reason),
            ]
            &&& lines_of(Err(PtyErrorView::Spawn(reason))) == seq![
                "heartbeat-launch: error: "@ + ("failed to spawn command: "@ + reason),
            ]
            &&& lines_of(Err(PtyErrorView::Reader(reason))) == seq![
                "heartbeat-launch: error: "@ + ("failed to clone PTY reader: "@ + reason),
            ]
            &&& lines_of(Err(PtyErrorView::Io(reason))) == seq![
                "heartbeat-launch: error: "@ + ("I/O error: "@ + reason),
            ]
        }),
{
}

/// The messages of the limits that ran out tell the limits.
pub proof fn messages_tell_the_limits(secs: u64)
    ensures
        pty_error_text(PtyErrorView::Timeout(secs)) == "timeout: child did not exit within "@
            + text::decimal(secs as nat) + "s"@,
        pty_error_text(PtyErrorView::IdleExhausted(secs)) == "idle exhausted: no output for "@
            + text::decimal(secs as nat) + "s after maximum keepalive retries"@,
{
}

/// Each of the variables that tell who the launching session is, and no other, is kept from the
/// child.
pub proof fn identity_is_kept_from_the_child(name: Seq<char>)
    ensures
        identity_variables().contains(name) <==> {
            ||| name == "CLAUDE_CODE_SESSION_ID"@
            ||| name == "CLAUDE_CODE_CHILD_SESSION"@
            ||| name == "CLAUDE_CODE_ENTRYPOINT"@
            ||| name == "CLAUDE_CODE_EXECPATH"@
            ||| name == "CLAUDECODE"@
            ||| name == "AI_AGENT"@
        },
{
    let all = identity_variables();
    assert(all[0] == "CLAUDE_CODE_SESSION_ID"@);
    assert(all[1] == "CLAUDE_CODE_CHILD_SESSION"@);
    assert(all[2] == "CLAUDE_CODE_ENTRYPOINT"@);
    assert(all[3] == "CLAUDE_CODE_EXECPATH"@);
    assert(all[4] == "CLAUDECODE"@);
    assert(all[5] == "AI_AGENT"@);
    if all.contains(name) {
        let i = choose|i: int| 0 <= i < all.len() && all[i] == name;
        assert(i == 0 || i == 1 || i == 2 || i == 3 || i == 4 || i == 5);
    }
}

} // verus!
