//! The stop hook: decides, at each stop of the agent, whether the session goes on.
//!
//! An entry of the inbox is delivered by a blocked stop. It is then in flight: `.in-flight` records
//! it, `.responded` marks that the agent has been handed it, and the cursor still stands before it.
//! At the next stop the agent has answered: the cursor moves past the entry, both files go, and
//! the next entry is delivered. `.responded` bridges the turns of a session; `.in-flight` outlives
//! the session, so that recovery can find an entry that was never acknowledged.
//!
//! Once the inbox is empty, drain mode ends the session with an `/exit` turn, and persist mode
//! keeps it alive with idle ticks.

use vstd::prelude::*;

use crate::error::{ErrorView, HeartbeatError};
use crate::in_flight::{
    in_flight_of, in_flight_path, in_flight_record, unix_now_secs, InFlightEntry,
};
use crate::inbox::{
    self, acknowledgement, acknowledgement_never_rewinds, cursor_of, next_entry,
    next_reads_faithfully, next_text_is, only_blank_lines_left, writes,
};
use crate::json::{self, Scalar, ScalarView};
use crate::json_grammar::{
    denotes_object, object_says, objects_denote_one_object, objects_read_back,
};
use crate::paths;
use crate::session_dir::{
    effects_leave_the_inbox_alone, replay, replay_in_two, replay_push, DirView, Effect, EffectView,
    FileBytesView, FileEntryView, Plan, SessionDir,
};

verus! {

/// Operating mode of the stop hook.
#[derive(Debug, Clone, Copy, PartialEq, Eq, Structural)]
pub enum Mode {
    /// End the session when the inbox is drained.
    Drain,
    /// Send idle ticks when the inbox is empty.
    Persist,
}

/// What the stop hook decides.
#[derive(Debug, PartialEq)]
pub enum Decision {
    /// Block the stop: the text is the next user turn.
    Block(String),
    /// Approve the stop: the session ends.
    Approve,
    /// Keep the session alive, with no message.
    IdleTick,
}

/// What a [`Decision`] says.
#[verifier::ext_equal]
pub enum DecisionView {
    Block(Seq<char>),
    Approve,
    IdleTick,
}

impl View for Decision {
    type V = DecisionView;

    open spec fn view(&self) -> DecisionView {
        match *self {
            Decision::Block(reason) => DecisionView::Block(reason@),
            Decision::Approve => DecisionView::Approve,
            Decision::IdleTick => DecisionView::IdleTick,
        }
    }
}

/// What a result of [`run`] says.
pub open spec fn decision_result(
    r: Result<Decision, HeartbeatError>,
) -> Result<DecisionView, ErrorView> {
    match r {
        Ok(decision) => Ok(decision@),
        Err(e) => Err(e@),
    }
}

/// What an empty inbox comes to.
pub open spec fn nothing_left(mode: Mode, idle_interval_secs: u64) -> Plan<DecisionView> {
    match mode {
        Mode::Drain => Plan {
            result: Ok(DecisionView::Block("/exit"@)),
            effects: Seq::empty(),
        },
        Mode::Persist => Plan {
            result: Ok(DecisionView::IdleTick),
            effects: if idle_interval_secs > 0 {
                seq![EffectView::Sleep(idle_interval_secs)]
            } else {
                Seq::empty()
            },
        },
    }
}

/// What it comes to when the directory `d` has nothing in flight: the next entry is recorded and
/// delivered.
pub open spec fn delivery(
    d: DirView,
    mode: Mode,
    idle_interval_secs: u64,
    secs: u64,
) -> Plan<DecisionView> {
    let next = next_entry(d);
    match next.result {
        Err(e) => Plan { result: Err(e), effects: next.effects },
        Ok(None) => Plan {
            result: nothing_left(mode, idle_interval_secs).result,
            effects: next.effects + nothing_left(mode, idle_interval_secs).effects,
        },
        Ok(Some(entry)) => Plan {
            result: Ok(DecisionView::Block(entry.decoded)),
            effects: next.effects.push(
                EffectView::WriteInFlight(
                    in_flight_record(entry.raw_line, entry.start_offset, entry.end_offset, secs),
                ),
            ).push(EffectView::TouchResponded),
        },
    }
}

/// What becomes of the entry in flight when a stop comes: where `.responded` stands, the agent has
/// answered, and the entry is acknowledged.
pub open spec fn settlement(d: DirView) -> Plan<()> {
    if !d.responded {
        Plan { result: Ok(()), effects: Seq::empty() }
    } else {
        match in_flight_of(d) {
            Err(e) => Plan { result: Err(e), effects: Seq::empty() },
            Ok(None) => Plan {
                result: Err(
                    ErrorView::InconsistentState { io_dir: paths::directory_of(d.inbox_path).text },
                ),
                effects: Seq::empty(),
            },
            Ok(Some(entry)) => {
                let ack = acknowledgement(d, entry.end_offset);
                match ack.result {
                    Err(e) => ack,
                    Ok(()) => Plan {
                        result: Ok(()),
                        effects: ack.effects.push(EffectView::RemoveResponded),
                    },
                }
            },
        }
    }
}

/// The directory once the entry in flight is settled.
pub open spec fn settled(d: DirView) -> DirView {
    replay(d, settlement(d).effects)
}

/// What a stop comes to in the directory `d`, when the clock shows `secs` seconds after the epoch.
pub open spec fn tick(
    d: DirView,
    mode: Mode,
    idle_interval_secs: u64,
    secs: u64,
) -> Plan<DecisionView> {
    match settlement(d).result {
        Err(e) => Plan { result: Err(e), effects: settlement(d).effects },
        Ok(()) => {
            let rest = delivery(settled(d), mode, idle_interval_secs, secs);
            Plan { result: rest.result, effects: settlement(d).effects + rest.effects }
        },
    }
}

/// How many seconds are waited in all.
pub open spec fn waited(effects: Seq<EffectView>) -> nat
    decreases effects.len(),
{
    if effects.len() == 0 {
        0
    } else {
        waited(effects.drop_last()) + match effects.last() {
            EffectView::Sleep(secs) => secs as nat,
            _ => 0,
        }
    }
}

proof fn lemma_waited_in_two(a: Seq<EffectView>, b: Seq<EffectView>)
    ensures
        waited(a + b) == waited(a) + waited(b),
    decreases b.len(),
{
    if b.len() == 0 {
        assert(a + b =~= a);
    } else {
        assert((a + b).drop_last() =~= a + b.drop_last());
        lemma_waited_in_two(a, b.drop_last());
    }
}

proof fn lemma_no_wait(effects: Seq<EffectView>)
    requires
        forall|i: int| 0 <= i < effects.len() ==> !((#[trigger] effects[i]) is Sleep),
    ensures
        waited(effects) == 0,
    decreases effects.len(),
{
    if effects.len() > 0 {
        lemma_no_wait(effects.drop_last());
    }
}

/// Whether all that a stop looks at in the directory `d` can be read: the inbox, where there is
/// one; the cursor, where there is one; and the entry in flight, where it was answered.
pub open spec fn readable(d: DirView) -> bool {
    &&& !(d.inbox is Failed)
    &&& cursor_of(d) is Ok
    &&& d.responded ==> d.in_flight is Entry
}

proof fn lemma_settled(d: DirView)
    requires
        readable(d),
    ensures
        settlement(d).result is Ok,
        !settled(d).responded,
        settled(d).inbox == d.inbox,
        cursor_of(settled(d)) is Ok,
        waited(settlement(d).effects) == 0,
{
    if d.responded {
        let entry = d.in_flight->Entry_0;
        let ack = acknowledgement(d, entry.end_offset);
        acknowledgement_never_rewinds(d, entry.end_offset);
        effects_leave_the_inbox_alone(d, ack.effects);
        replay_push(d, ack.effects, EffectView::RemoveResponded);
        lemma_no_wait(settlement(d).effects);
    }
}

/// A stop whose files can be read is answered by what comes next: the next message, once an
/// answered one is settled; with no message left, an `/exit` turn in drain mode, and in persist
/// mode an idle tick, whatever the interval. It is never approved. Only an idle tick is waited for,
/// and for the interval exactly.
#[verifier::rlimit(30)]
pub proof fn stops_are_answered_by_what_comes_next(
    d: DirView,
    mode: Mode,
    idle_interval_secs: u64,
    secs: u64,
)
    requires
        readable(d),
    ensures
        ({
            let plan = tick(d, mode, idle_interval_secs, secs);
            let next = next_entry(settled(d)).result;
            &&& next is Ok
            &&& plan.result is Ok
            &&& !(plan.result->Ok_0 is Approve)
            &&& match next->Ok_0 {
                Some(entry) => plan.result == Ok::<_, ErrorView>(DecisionView::Block(entry.decoded))
                    && waited(plan.effects) == 0,
                None => match mode {
                    Mode::Drain => plan.result == Ok::<_, ErrorView>(DecisionView::Block("/exit"@))
                        && waited(plan.effects) == 0,
                    Mode::Persist => plan.result == Ok::<_, ErrorView>(DecisionView::IdleTick)
                        && waited(plan.effects) == idle_interval_secs && (idle_interval_secs > 0
                        ==> plan.effects.last() == EffectView::Sleep(idle_interval_secs)),
                },
            }
        }),
{
    lemma_settled(d);
    let mid = settled(d);
    let moves = next_entry(mid).effects;
    let rest = delivery(mid, mode, idle_interval_secs, secs).effects;
    lemma_no_wait(moves);
    lemma_waited_in_two(settlement(d).effects, rest);
    match next_entry(mid).result {
        Ok(Some(entry)) => {
            let record = in_flight_record(
                entry.raw_line,
                entry.start_offset,
                entry.end_offset,
                secs,
            );
            let tail = seq![EffectView::WriteInFlight(record), EffectView::TouchResponded];
            assert(rest =~= moves + tail);
            lemma_no_wait(tail);
            lemma_waited_in_two(moves, tail);
        },
        _ => {
            let tail = nothing_left(mode, idle_interval_secs).effects;
            lemma_waited_in_two(moves, tail);
            assert(tail.len() > 0 ==> tail.drop_last() =~= Seq::<EffectView>::empty());
            assert(waited(Seq::<EffectView>::empty()) == 0);
        },
    }
}

/// What cannot be read makes a stop fail, with an error that says which file it is; where it is the
/// entry in flight, or there is none for an answer, nothing is touched.
pub proof fn what_cannot_be_read_is_an_error(
    d: DirView,
    mode: Mode,
    idle_interval_secs: u64,
    secs: u64,
)
    ensures
        ({
            let plan = tick(d, mode, idle_interval_secs, secs);
            let path = in_flight_path(d.inbox_path).text;
            &&& d.responded ==> match d.in_flight {
                FileEntryView::Missing => plan.result == Err::<DecisionView, _>(
                    ErrorView::InconsistentState {
                        io_dir: paths::directory_of(d.inbox_path).text,
                    },
                ) && plan.effects.len() == 0,
                FileEntryView::Failed(source) => plan.result == Err::<DecisionView, _>(
                    ErrorView::InFlightRead { path, source },
                ) && plan.effects.len() == 0,
                FileEntryView::Corrupt(source) => plan.result == Err::<DecisionView, _>(
                    ErrorView::InFlightCorrupt { path, source },
                ) && plan.effects.len() == 0,
                FileEntryView::Entry(_) => {
                    &&& cursor_of(d) is Err ==> plan.result == Err::<DecisionView, _>(
                        cursor_of(d)->Err_0,
                    ) && plan.effects.len() == 0
                    &&& cursor_of(d) is Ok && d.inbox is Failed ==> plan.result == Err::<
                        DecisionView,
                        _,
                    >(ErrorView::InboxRead(d.inbox->Failed_0))
                },
            }
            &&& !d.responded ==> match d.inbox {
                FileBytesView::Failed(source) => plan.result == Err::<DecisionView, _>(
                    ErrorView::InboxRead(source),
                ) && plan.effects.len() == 0,
                FileBytesView::Bytes(_) => cursor_of(d) is Err ==> plan.result == Err::<
                    DecisionView,
                    _,
                >(cursor_of(d)->Err_0) && plan.effects.len() == 0,
                FileBytesView::Missing => plan.result is Ok,
            }
        }),
{
    effects_leave_the_inbox_alone(d, settlement(d).effects);
}

/// Settles the entry in flight: where `.responded` stands, the agent has answered, so the cursor
/// moves past the entry, then `.in-flight` goes, then `.responded`.
///
/// `.responded` without `.in-flight` is an error: to go on would deliver again what the agent has
/// already processed.
fn settle(dir: &mut SessionDir) -> (r: Result<(), HeartbeatError>)
    ensures
        inbox::plain_result(r) == settlement(old(dir)@).result,
        final(dir)@ == settled(old(dir)@),
        final(dir).log() == old(dir).log() + settlement(old(dir)@).effects,
{
    assert(dir.log() + Seq::<EffectView>::empty() =~= dir.log());
    if !dir.responded {
        return Ok(());
    }
    let entry = match InFlightEntry::read_from(dir) {
        Err(e) => {
            return Err(e);
        },
        Ok(None) => {
            return Err(
                HeartbeatError::InconsistentState {
                    io_dir: dir.inbox_path.directory().text,
                },
            );
        },
        Ok(Some(entry)) => entry,
    };
    match inbox::acknowledge(dir, entry.end_offset) {
        Err(e) => {
            return Err(e);
        },
        Ok(()) => {},
    }
    proof {
        replay_push(
            old(dir)@,
            acknowledgement(old(dir)@, entry.end_offset).effects,
            EffectView::RemoveResponded,
        );
    }
    dir.perform(Effect::RemoveResponded);
    assert(dir.log() =~= old(dir).log() + settlement(old(dir)@).effects);
    Ok(())
}

/// Delivers the next entry: records it in `.in-flight`, then creates `.responded`. The cursor
/// stays before the entry.
fn deliver(dir: &mut SessionDir, mode: &Mode, idle_interval_secs: u64, secs: u64) -> (r: Result<
    Decision,
    HeartbeatError,
>)
    ensures
        decision_result(r) == delivery(old(dir)@, *mode, idle_interval_secs, secs).result,
        final(dir)@ == replay(
            old(dir)@,
            delivery(old(dir)@, *mode, idle_interval_secs, secs).effects,
        ),
        final(dir).log() == old(dir).log() + delivery(
            old(dir)@,
            *mode,
            idle_interval_secs,
            secs,
        ).effects,
        forall|line: Seq<char>, message: Seq<char>|
            #[trigger] next_text_is(old(dir)@, line) && #[trigger] writes(line, message)
                ==> decision_result(r) == Ok::<_, ErrorView>(DecisionView::Block(message)),
        only_blank_lines_left(old(dir)@) ==> decision_result(r) == nothing_left(
            *mode,
            idle_interval_secs,
        ).result,
        next_reads_faithfully(old(dir)@),
        r is Ok ==> !(r->Ok_0 is Approve),
{
    let ghost before = dir@;
    let ghost skips = next_entry(before).effects;
    let ghost plan = delivery(before, *mode, idle_interval_secs, secs);
    match inbox::read_next_entry(dir) {
        Err(e) => Err(e),
        Ok(Some(entry)) => {
            let record = InFlightEntry::delivered(
                entry.raw_line.as_str(),
                entry.start_offset,
                entry.end_offset,
                secs,
            );
            proof {
                replay_push(before, skips, EffectView::WriteInFlight(record@));
                replay_push(
                    before,
                    skips.push(EffectView::WriteInFlight(record@)),
                    EffectView::TouchResponded,
                );
            }
            record.write_to(dir);
            dir.perform(Effect::TouchResponded);
            assert(dir.log() =~= old(dir).log() + plan.effects);
            Ok(Decision::Block(entry.decoded))
        },
        Ok(None) => {
            let r = approve_or_idle(dir, mode, idle_interval_secs);
            proof {
                replay_in_two(before, skips, nothing_left(*mode, idle_interval_secs).effects);
                assert(dir.log() =~= old(dir).log() + plan.effects);
            }
            Ok(r)
        },
    }
}

/// Runs the stop hook on the directory, when the clock shows `secs` seconds after the epoch.
///
/// Once the entry in flight is settled, a message that was written into the first line that is not
/// blank is the next user turn, as it was written.
pub fn run_at(dir: &mut SessionDir, mode: &Mode, idle_interval_secs: u64, secs: u64) -> (r: Result<
    Decision,
    HeartbeatError,
>)
    ensures
        decision_result(r) == tick(old(dir)@, *mode, idle_interval_secs, secs).result,
        final(dir)@ == replay(
            old(dir)@,
            tick(old(dir)@, *mode, idle_interval_secs, secs).effects,
        ),
        final(dir).log() == old(dir).log() + tick(
            old(dir)@,
            *mode,
            idle_interval_secs,
            secs,
        ).effects,
        settlement(old(dir)@).result is Ok ==> {
            &&& forall|line: Seq<char>, message: Seq<char>|
                #[trigger] next_text_is(settled(old(dir)@), line) && #[trigger] writes(
                    line,
                    message,
                ) ==> decision_result(r) == Ok::<_, ErrorView>(DecisionView::Block(message))
            &&& only_blank_lines_left(settled(old(dir)@)) ==> decision_result(r) == nothing_left(
                *mode,
                idle_interval_secs,
            ).result
            &&& next_reads_faithfully(settled(old(dir)@))
            &&& only_blank_lines_left(settled(old(dir)@)) ==> r is Ok && match *mode {
                Mode::Drain => r->Ok_0@ == DecisionView::Block("/exit"@),
                Mode::Persist => r->Ok_0 is IdleTick,
            }
        },
        r is Ok ==> !(r->Ok_0 is Approve),
        readable(old(dir)@) ==> r is Ok,
{
    proof {
        if readable(dir@) {
            stops_are_answered_by_what_comes_next(dir@, *mode, idle_interval_secs, secs);
        }
    }
    match settle(dir) {
        Err(e) => Err(e),
        Ok(()) => {
            let r = deliver(dir, mode, idle_interval_secs, secs);
            proof {
                let d = old(dir)@;
                replay_in_two(
                    d,
                    settlement(d).effects,
                    delivery(settled(d), *mode, idle_interval_secs, secs).effects,
                );
                assert(dir.log() =~= old(dir).log() + tick(
                    d,
                    *mode,
                    idle_interval_secs,
                    secs,
                ).effects);
            }
            r
        },
    }
}

/// Runs the stop hook on the directory, now.
///
/// `idle_interval_secs` is how long persist mode waits before an idle tick; zero is no wait.
pub fn run(dir: &mut SessionDir, mode: &Mode, idle_interval_secs: u64) -> (r: Result<
    Decision,
    HeartbeatError,
>)
    ensures
        exists|secs: u64|
            {
                let plan = #[trigger] tick(old(dir)@, *mode, idle_interval_secs, secs);
                &&& decision_result(r) == plan.result
                &&& final(dir)@ == replay(old(dir)@, plan.effects)
                &&& final(dir).log() == old(dir).log() + plan.effects
            },
        settlement(old(dir)@).result is Ok ==> {
            &&& forall|line: Seq<char>, message: Seq<char>|
                #[trigger] next_text_is(settled(old(dir)@), line) && #[trigger] writes(
                    line,
                    message,
                ) ==> decision_result(r) == Ok::<_, ErrorView>(DecisionView::Block(message))
            &&& only_blank_lines_left(settled(old(dir)@)) ==> decision_result(r) == nothing_left(
                *mode,
                idle_interval_secs,
            ).result
            &&& next_reads_faithfully(settled(old(dir)@))
            &&& only_blank_lines_left(settled(old(dir)@)) ==> r is Ok && match *mode {
                Mode::Drain => r->Ok_0@ == DecisionView::Block("/exit"@),
                Mode::Persist => r->Ok_0 is IdleTick,
            }
        },
        r is Ok ==> !(r->Ok_0 is Approve),
        readable(old(dir)@) ==> r is Ok,
{
    let secs = unix_now_secs();
    run_at(dir, mode, idle_interval_secs, secs)
}

/// The decision that a result of the hook stands for. A hook that fails approves the stop: an
/// agent is never held back by a broken directory.
pub fn decide(r: Result<Decision, HeartbeatError>) -> (d: Decision)
    ensures
        d@ == match decision_result(r) {
            Ok(decision) => decision,
            Err(_) => DecisionView::Approve,
        },
{
    match r {
        Ok(decision) => decision,
        Err(_) => Decision::Approve,
    }
}

/// The members of a blocking answer.
pub open spec fn block_members(reason: Seq<char>) -> Seq<(Seq<char>, ScalarView)> {
    seq![
        ("decision"@, ScalarView::Text("block"@)),
        ("reason"@, ScalarView::Text(reason)),
    ]
}

/// The text that answers a stop: nothing to approve it, else a JSON object whose `reason` is the
/// next user turn.
pub open spec fn serialized(decision: DecisionView) -> Seq<char> {
    match decision {
        DecisionView::Block(reason) => json::object_text(block_members(reason)),
        DecisionView::Approve => Seq::empty(),
        DecisionView::IdleTick => json::object_text(block_members("--- IDLE TICK ---"@)),
    }
}

/// An answer is empty exactly where it approves the stop, and takes one line.
pub proof fn only_approval_is_silent(decision: DecisionView)
    ensures
        serialized(decision).len() == 0 <==> decision is Approve,
        !serialized(decision).contains('\n'),
{
    match decision {
        DecisionView::Block(reason) => json::object_is_one_line(block_members(reason)),
        DecisionView::Approve => {},
        DecisionView::IdleTick => json::object_is_one_line(block_members("--- IDLE TICK ---"@)),
    }
}

/// An answer says the decision: a message is the `reason` of a JSON object that blocks the stop, an
/// idle tick is one with a fixed reason, and an approval says nothing. Nothing else is said.
pub proof fn answers_say_the_decision(decision: DecisionView)
    ensures
        match decision {
            DecisionView::Approve => serialized(decision).len() == 0,
            DecisionView::Block(reason) => {
                &&& object_says(serialized(decision), "decision"@, ScalarView::Text("block"@))
                &&& object_says(serialized(decision), "reason"@, ScalarView::Text(reason))
                &&& forall|name: Seq<char>, v: ScalarView| #[trigger]
                    object_says(serialized(decision), name, v) ==> name == "decision"@ || name
                        == "reason"@
            },
            DecisionView::IdleTick => serialized(decision) == serialized(
                DecisionView::Block("--- IDLE TICK ---"@),
            ),
        },
{
    if let DecisionView::Block(reason) = decision {
        let members = block_members(reason);
        objects_read_back(members);
        assert(members[0] == ("decision"@, ScalarView::Text("block"@)));
        assert(members[1] == ("reason"@, ScalarView::Text(reason)));
    }
}

/// Different messages get different answers.
pub proof fn answers_tell_messages_apart(a: Seq<char>, b: Seq<char>)
    requires
        serialized(DecisionView::Block(a)) == serialized(DecisionView::Block(b)),
    ensures
        a == b,
{
    let t = serialized(DecisionView::Block(a));
    objects_read_back(block_members(a));
    objects_read_back(block_members(b));
    assert(denotes_object(t, block_members(a)) && denotes_object(t, block_members(b)));
    objects_denote_one_object(t, block_members(a), block_members(b));
    assert(block_members(a)[1] == block_members(b)[1]);
}

/// A blocking answer with the given reason.
fn block_text(reason: String) -> (r: String)
    ensures
        r@ == json::object_text(block_members(reason@)),
{
    let mut members: Vec<(String, Scalar)> = Vec::new();
    members.push(("decision".to_owned(), Scalar::Text("block".to_owned())));
    members.push(("reason".to_owned(), Scalar::Text(reason)));
    proof {
        assert(json::member_views(members@) =~= block_members(reason@));
        reveal_strlit("decision");
        reveal_strlit("reason");
        assert("decision"@.take(0) =~= "reason"@.take(0));
        assert(json::precedes("decision"@, "reason"@));
    }
    json::object(members)
}

/// The text that answers a stop: nothing to approve it, else a JSON object whose `reason` is the
/// next user turn. An idle tick has a fixed reason.
pub fn serialize(decision: &Decision) -> (r: String)
    ensures
        r@ == serialized(decision@),
        decision is Block ==> object_says(r@, "decision"@, ScalarView::Text("block"@))
            && object_says(r@, "reason"@, ScalarView::Text(decision->Block_0@)),
{
    proof {
        answers_say_the_decision(decision@);
    }
    match decision {
        Decision::Block(reason) => block_text(reason.clone()),
        Decision::Approve => String::new(),
        Decision::IdleTick => block_text("--- IDLE TICK ---".to_owned()),
    }
}

fn approve_or_idle(dir: &mut SessionDir, mode: &Mode, idle_interval_secs: u64) -> (r: Decision)
    ensures
        Ok::<_, ErrorView>(r@) == nothing_left(*mode, idle_interval_secs).result,
        final(dir)@ == replay(old(dir)@, nothing_left(*mode, idle_interval_secs).effects),
        final(dir).log() == old(dir).log() + nothing_left(*mode, idle_interval_secs).effects,
{
    assert(dir.log() + Seq::<EffectView>::empty() =~= dir.log());
    match mode {
        Mode::Drain => Decision::Block("/exit".to_owned()),
        Mode::Persist => {
            if idle_interval_secs > 0 {
                proof {
                    replay_push(dir@, Seq::empty(), EffectView::Sleep(idle_interval_secs));
                    assert(Seq::<EffectView>::empty().push(EffectView::Sleep(idle_interval_secs))
                        =~= seq![EffectView::Sleep(idle_interval_secs)]);
                }
                dir.perform(Effect::Sleep(idle_interval_secs));
                assert(dir.log() =~= old(dir).log() + seq![EffectView::Sleep(idle_interval_secs)]);
            }
            Decision::IdleTick
        },
    }
}

/// An answered entry is settled, whatever else stands in the inbox: the cursor moves to the entry's
/// end, and never back; then `.in-flight` goes, and `.responded` last. Without an answer nothing is
/// done.
pub proof fn answered_entries_are_settled(d: DirView)
    requires
        cursor_of(d) is Ok,
        d.responded ==> d.in_flight is Entry,
    ensures
        settlement(d).result is Ok,
        !d.responded ==> settled(d) == d && settlement(d).effects.len() == 0,
        d.responded ==> {
            let end = d.in_flight->Entry_0.end_offset;
            let cursor = inbox::cursor_value(cursor_of(d)->Ok_0);
            &&& settlement(d).effects.last() == EffectView::RemoveResponded
            &&& settlement(d).effects.drop_last().last() == EffectView::RemoveInFlight
            &&& !settled(d).responded
            &&& settled(d).in_flight is Missing
            &&& settled(d).inbox == d.inbox
            &&& settled(d).dead_letter == d.dead_letter
            &&& inbox::cursor_at(
                settled(d),
                if end < cursor {
                    cursor as int
                } else {
                    end as int
                },
            )
        },
{
    if d.responded {
        let entry = d.in_flight->Entry_0;
        let ack = acknowledgement(d, entry.end_offset);
        acknowledgement_never_rewinds(d, entry.end_offset);
        effects_leave_the_inbox_alone(d, ack.effects);
        replay_push(d, ack.effects, EffectView::RemoveResponded);
        assert(settlement(d).effects.drop_last() =~= ack.effects);
        reveal_with_fuel(replay, 4);
    }
}

} // verus!
