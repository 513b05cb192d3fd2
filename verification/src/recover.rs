//! Orphan recovery: what becomes of an entry that a dead session left in flight.
//!
//! A launcher recovers before it truncates the inbox or starts a session. Recovery finds the
//! `.in-flight` of an earlier session and applies an [`OrphanPolicy`] to it; wherever it succeeds,
//! neither `.in-flight` nor `.responded` is left.
//!
//! Where the cursor has already reached the end of the recorded entry, the entry was acknowledged
//! and only the clean-up was interrupted. Such an orphan is stale: it is removed, whatever the
//! policy.

use vstd::prelude::*;
use vstd::utf8::encode_utf8;

use crate::error::{ErrorView, HeartbeatError};
use crate::in_flight::{in_flight_of, in_flight_path, InFlightEntry, InFlightView};
use crate::inbox::{self, cursor_at, cursor_of, cursor_value, offset_reads_back};
use crate::json::{self, Scalar, ScalarView};
use crate::json_grammar::{
    denotes_object, object_says, objects_denote_one_object, objects_read_back,
};
use crate::session_dir::{
    apply, copy_bytes, dead_letter_file_for, dead_letter_path, replay, DirView, Effect, EffectView,
    FileBytes, FileBytesView, FileEntryView, Plan, SessionDir,
};
use crate::text::append_utf8;

verus! {

/// What to do with an orphaned entry.
#[derive(Debug, Clone, Copy, PartialEq, Eq, Structural)]
pub enum OrphanPolicy {
    /// Deliver it again, as the first entry of the next session.
    Retry,
    /// Move it to `.dead-letter.jsonl` and go on past it.
    DeadLetter,
    /// Go on past it.
    Drop,
}

/// What recovery did.
#[derive(Debug, PartialEq)]
pub enum RecoveryOutcome {
    /// Nothing was in flight.
    NothingToRecover,
    /// The orphan was stale and has been removed.
    StaleOrphanDeleted { entry_id: String },
    /// The orphan is the next entry again.
    ReQueued { entry_id: String },
    /// The orphan was moved to `.dead-letter.jsonl`.
    DeadLettered { entry_id: String },
    /// The orphan was given up.
    Dropped { entry_id: String },
}

/// What a [`RecoveryOutcome`] says.
#[verifier::ext_equal]
pub enum OutcomeView {
    NothingToRecover,
    StaleOrphanDeleted { entry_id: Seq<char> },
    ReQueued { entry_id: Seq<char> },
    DeadLettered { entry_id: Seq<char> },
    Dropped { entry_id: Seq<char> },
}

impl View for RecoveryOutcome {
    type V = OutcomeView;

    open spec fn view(&self) -> OutcomeView {
        match *self {
            RecoveryOutcome::NothingToRecover => OutcomeView::NothingToRecover,
            RecoveryOutcome::StaleOrphanDeleted { entry_id } => OutcomeView::StaleOrphanDeleted {
                entry_id: entry_id@,
            },
            RecoveryOutcome::ReQueued { entry_id } => OutcomeView::ReQueued {
                entry_id: entry_id@,
            },
            RecoveryOutcome::DeadLettered { entry_id } => OutcomeView::DeadLettered {
                entry_id: entry_id@,
            },
            RecoveryOutcome::Dropped { entry_id } => OutcomeView::Dropped {
                entry_id: entry_id@,
            },
        }
    }
}

impl Clone for RecoveryOutcome {
    fn clone(&self) -> (r: Self)
        ensures
            r@ == self@,
    {
        match self {
            RecoveryOutcome::NothingToRecover => RecoveryOutcome::NothingToRecover,
            RecoveryOutcome::StaleOrphanDeleted { entry_id } => {
                RecoveryOutcome::StaleOrphanDeleted { entry_id: entry_id.clone() }
            },
            RecoveryOutcome::ReQueued { entry_id } => RecoveryOutcome::ReQueued {
                entry_id: entry_id.clone(),
            },
            RecoveryOutcome::DeadLettered { entry_id } => RecoveryOutcome::DeadLettered {
                entry_id: entry_id.clone(),
            },
            RecoveryOutcome::Dropped { entry_id } => RecoveryOutcome::Dropped {
                entry_id: entry_id.clone(),
            },
        }
    }
}

/// What a result of [`recover`] says.
pub open spec fn outcome_result(
    r: Result<RecoveryOutcome, HeartbeatError>,
) -> Result<OutcomeView, ErrorView> {
    match r {
        Ok(outcome) => Ok(outcome@),
        Err(e) => Err(e@),
    }
}

/// The members of an orphan's dead-letter record.
pub open spec fn record_members(entry: InFlightView) -> Seq<(Seq<char>, ScalarView)> {
    seq![
        ("delivered_at"@, ScalarView::Text(entry.delivered_at)),
        ("end_offset"@, ScalarView::Number(entry.end_offset)),
        ("entry_id"@, ScalarView::Text(entry.entry_id)),
        ("raw_line"@, ScalarView::Text(entry.raw_line)),
        ("start_offset"@, ScalarView::Number(entry.start_offset)),
    ]
}

/// An orphan's dead-letter record: a JSON object on a line of its own.
pub open spec fn record_line(entry: InFlightView) -> Seq<char> {
    json::object_text(record_members(entry)).push('\n')
}

/// The effects that come before recovery looks at the orphan.
pub open spec fn opening() -> Seq<EffectView> {
    seq![EffectView::RemoveDeadLetterTmp]
}

/// The effects with which recovery leaves the directory clean.
pub open spec fn closing() -> Seq<EffectView> {
    seq![EffectView::RemoveInFlight, EffectView::RemoveResponded]
}

/// What the policy comes to, for an orphan that was never acknowledged.
pub open spec fn policy_plan(
    d: DirView,
    policy: OrphanPolicy,
    entry: InFlightView,
) -> Plan<OutcomeView> {
    let entry_id = entry.entry_id;
    match policy {
        OrphanPolicy::Retry => Plan {
            result: Ok(OutcomeView::ReQueued { entry_id }),
            effects: seq![EffectView::WriteOffset(entry.start_offset)] + closing(),
        },
        OrphanPolicy::Drop => Plan {
            result: Ok(OutcomeView::Dropped { entry_id }),
            effects: seq![EffectView::WriteOffset(entry.end_offset)] + closing(),
        },
        OrphanPolicy::DeadLetter => match d.dead_letter {
            FileBytesView::Failed(reason) => Plan {
                result: Err(
                    ErrorView::DeadLetterWrite {
                        path: dead_letter_path(d.inbox_path).text,
                        source: reason,
                    },
                ),
                effects: Seq::empty(),
            },
            _ => Plan {
                result: Ok(OutcomeView::DeadLettered { entry_id }),
                effects: seq![
                    EffectView::ReplaceDeadLetter(
                        dead_letters(d) + encode_utf8(record_line(entry)),
                    ),
                    EffectView::WriteOffset(entry.end_offset),
                ] + closing(),
            },
        },
    }
}

/// The dead letters of the directory `d`, where they can be read.
pub open spec fn dead_letters(d: DirView) -> Seq<u8> {
    match d.dead_letter {
        FileBytesView::Bytes(bytes) => bytes,
        _ => Seq::empty(),
    }
}

/// What recovery comes to in the directory `d`.
pub open spec fn recovery(d: DirView, policy: OrphanPolicy) -> Plan<OutcomeView> {
    match in_flight_of(d) {
        Err(e) => Plan { result: Err(e), effects: opening() },
        Ok(None) => Plan {
            result: Ok(OutcomeView::NothingToRecover),
            effects: opening().push(EffectView::RemoveResponded),
        },
        Ok(Some(entry)) => match cursor_of(d) {
            Err(e) => Plan { result: Err(e), effects: opening() },
            Ok(cursor) => if cursor_value(cursor) >= entry.end_offset {
                Plan {
                    result: Ok(OutcomeView::StaleOrphanDeleted { entry_id: entry.entry_id }),
                    effects: opening() + closing(),
                }
            } else {
                let plan = policy_plan(d, policy, entry);
                Plan { result: plan.result, effects: opening() + plan.effects }
            },
        },
    }
}

/// Whether `t` is the JSON text of an object that tells all of `entry`, and nothing else: its line,
/// its identifier, where it stands, and when it was delivered.
#[verifier::opaque]
pub open spec fn tells_of(t: Seq<char>, entry: InFlightView) -> bool {
    &&& object_says(t, "raw_line"@, ScalarView::Text(entry.raw_line))
    &&& object_says(t, "entry_id"@, ScalarView::Text(entry.entry_id))
    &&& object_says(t, "start_offset"@, ScalarView::Number(entry.start_offset))
    &&& object_says(t, "end_offset"@, ScalarView::Number(entry.end_offset))
    &&& object_says(t, "delivered_at"@, ScalarView::Text(entry.delivered_at))
    &&& forall|name: Seq<char>, v: ScalarView| #[trigger]
        object_says(t, name, v) ==> name == "raw_line"@ || name == "entry_id"@ || name
            == "start_offset"@ || name == "end_offset"@ || name == "delivered_at"@
}

/// An orphan can be read back from its dead letter: that is one line, the JSON text of an object
/// that tells all of the orphan.
#[verifier::rlimit(30)]
pub proof fn orphans_read_back_from_their_dead_letters(entry: InFlightView)
    ensures
        record_line(entry).len() > 0,
        record_line(entry).last() == '\n',
        !record_line(entry).drop_last().contains('\n'),
        tells_of(record_line(entry).drop_last(), entry),
{
    reveal(tells_of);
    let members = record_members(entry);
    let t = record_line(entry).drop_last();
    assert(t =~= json::object_text(members));
    json::object_is_one_line(members);
    objects_read_back(members);
    assert(members[0] == ("delivered_at"@, ScalarView::Text(entry.delivered_at)));
    assert(members[1] == ("end_offset"@, ScalarView::Number(entry.end_offset)));
    assert(members[2] == ("entry_id"@, ScalarView::Text(entry.entry_id)));
    assert(members[3] == ("raw_line"@, ScalarView::Text(entry.raw_line)));
    assert(members[4] == ("start_offset"@, ScalarView::Number(entry.start_offset)));
    assert forall|name: Seq<char>, v: ScalarView| #[trigger] object_says(t, name, v) implies name
        == "raw_line"@ || name == "entry_id"@ || name == "start_offset"@ || name == "end_offset"@
        || name == "delivered_at"@ by {
        let i = choose|i: int| 0 <= i < members.len() && members[i] == (name, v);
        assert(i == 0 || i == 1 || i == 2 || i == 3 || i == 4);
    }
}

/// Different orphans have different dead letters.
pub proof fn dead_letters_tell_orphans_apart(a: InFlightView, b: InFlightView)
    requires
        record_line(a) == record_line(b),
    ensures
        a == b,
{
    let t = record_line(a).drop_last();
    assert(t =~= json::object_text(record_members(a)));
    assert(t =~= json::object_text(record_members(b)));
    objects_read_back(record_members(a));
    objects_read_back(record_members(b));
    assert(denotes_object(t, record_members(a)) && denotes_object(t, record_members(b)));
    objects_denote_one_object(t, record_members(a), record_members(b));
    assert(record_members(a)[0] == record_members(b)[0]);
    assert(record_members(a)[1] == record_members(b)[1]);
    assert(record_members(a)[2] == record_members(b)[2]);
    assert(record_members(a)[3] == record_members(b)[3]);
    assert(record_members(a)[4] == record_members(b)[4]);
    assert(a =~= b);
}

/// Whether the dead letters `after` are those `before` and one line more, which tells of `entry`.
#[verifier::opaque]
pub open spec fn one_letter_more(
    before: Seq<u8>,
    after: FileBytesView,
    entry: InFlightView,
) -> bool {
    exists|line: Seq<char>| #[trigger]
        tells_of(line, entry) && !line.contains('\n') && after == FileBytesView::Bytes(
            before + encode_utf8(line.push('\n')),
        )
}

proof fn lemma_letter(before: Seq<u8>, entry: InFlightView)
    ensures
        one_letter_more(
            before,
            FileBytesView::Bytes(before + encode_utf8(record_line(entry))),
            entry,
        ),
{
    reveal(one_letter_more);
    let line = record_line(entry).drop_last();
    orphans_read_back_from_their_dead_letters(entry);
    assert(line.push('\n') =~= record_line(entry));
    assert(tells_of(line, entry));
}

/// Recovery does what the policy says with an orphan that was never acknowledged, and tells whose
/// orphan it was. Retry puts the cursor at its first byte. The other policies put it behind the
/// orphan; the dead-letter policy first sets it aside as one more dead letter. Then it is in flight
/// no more, and nothing waits for an answer.
#[verifier::rlimit(30)]
pub proof fn recovery_follows_the_policy(d: DirView, policy: OrphanPolicy, entry: InFlightView)
    requires
        d.in_flight == FileEntryView::Entry(entry),
        cursor_of(d) is Ok,
        cursor_value(cursor_of(d)->Ok_0) < entry.end_offset,
        policy == OrphanPolicy::DeadLetter ==> !(d.dead_letter is Failed),
    ensures
        ({
            let after = replay(d, recovery(d, policy).effects);
            let entry_id = entry.entry_id;
            &&& after.in_flight is Missing
            &&& !after.responded
            &&& !after.dead_letter_tmp
            &&& after.inbox == d.inbox
            &&& match policy {
                OrphanPolicy::Retry => {
                    &&& recovery(d, policy).result == Ok::<_, ErrorView>(
                        OutcomeView::ReQueued { entry_id },
                    )
                    &&& cursor_at(after, entry.start_offset as int)
                    &&& after.dead_letter == d.dead_letter
                },
                OrphanPolicy::Drop => {
                    &&& recovery(d, policy).result == Ok::<_, ErrorView>(
                        OutcomeView::Dropped { entry_id },
                    )
                    &&& cursor_at(after, entry.end_offset as int)
                    &&& after.dead_letter == d.dead_letter
                },
                OrphanPolicy::DeadLetter => {
                    &&& recovery(d, policy).result == Ok::<_, ErrorView>(
                        OutcomeView::DeadLettered { entry_id },
                    )
                    &&& cursor_at(after, entry.end_offset as int)
                    &&& one_letter_more(
                        match d.dead_letter {
                            FileBytesView::Bytes(letters) => letters,
                            _ => Seq::empty(),
                        },
                        after.dead_letter,
                        entry,
                    )
                },
            }
        }),
{
    let effects = recovery(d, policy).effects;
    let tail = closing();
    let opened = apply(d, EffectView::RemoveDeadLetterTmp);
    lemma_letter(dead_letters(d), entry);
    reveal_with_fuel(replay, 6);
    match policy {
        OrphanPolicy::Retry => {
            offset_reads_back(opened, entry.start_offset);
            assert(effects =~= seq![
                EffectView::RemoveDeadLetterTmp,
                EffectView::WriteOffset(entry.start_offset),
                EffectView::RemoveInFlight,
                EffectView::RemoveResponded,
            ]);
        },
        OrphanPolicy::Drop => {
            offset_reads_back(opened, entry.end_offset);
            assert(effects =~= seq![
                EffectView::RemoveDeadLetterTmp,
                EffectView::WriteOffset(entry.end_offset),
                EffectView::RemoveInFlight,
                EffectView::RemoveResponded,
            ]);
        },
        OrphanPolicy::DeadLetter => {
            let letters = EffectView::ReplaceDeadLetter(
                dead_letters(d) + encode_utf8(record_line(entry)),
            );
            offset_reads_back(apply(opened, letters), entry.end_offset);
            assert(effects =~= seq![
                EffectView::RemoveDeadLetterTmp,
                letters,
                EffectView::WriteOffset(entry.end_offset),
                EffectView::RemoveInFlight,
                EffectView::RemoveResponded,
            ]);
        },
    }
}

/// What recovery comes to where there is no orphan to apply the policy to, whatever the policy. An
/// orphan that ends at or before the cursor is stale and goes, with cursor and dead letters left as
/// they are. Where there is none there is nothing to recover. What cannot be read is an error, and
/// then nothing goes but a half-written dead-letter file.
#[verifier::rlimit(30)]
pub proof fn recovery_without_an_orphan(d: DirView, policy: OrphanPolicy)
    ensures
        ({
            let plan = recovery(d, policy);
            let after = replay(d, plan.effects);
            let path = in_flight_path(d.inbox_path).text;
            &&& after.inbox == d.inbox
            &&& !after.dead_letter_tmp
            &&& match d.in_flight {
                FileEntryView::Missing => {
                    &&& plan.result == Ok::<_, ErrorView>(OutcomeView::NothingToRecover)
                    &&& after.in_flight is Missing
                    &&& !after.responded
                    &&& after.offset == d.offset
                    &&& after.dead_letter == d.dead_letter
                },
                FileEntryView::Failed(source) => {
                    &&& plan.result == Err::<OutcomeView, _>(
                        ErrorView::InFlightRead { path, source },
                    )
                    &&& after == DirView { dead_letter_tmp: false, ..d }
                },
                FileEntryView::Corrupt(source) => {
                    &&& plan.result == Err::<OutcomeView, _>(
                        ErrorView::InFlightCorrupt { path, source },
                    )
                    &&& after == DirView { dead_letter_tmp: false, ..d }
                },
                FileEntryView::Entry(entry) => {
                    &&& cursor_of(d) is Err ==> {
                        &&& plan.result == Err::<OutcomeView, _>(cursor_of(d)->Err_0)
                        &&& after == DirView { dead_letter_tmp: false, ..d }
                    }
                    &&& cursor_of(d) is Ok && cursor_value(cursor_of(d)->Ok_0) >= entry.end_offset
                        ==> {
                        &&& plan.result == Ok::<_, ErrorView>(
                            OutcomeView::StaleOrphanDeleted { entry_id: entry.entry_id },
                        )
                        &&& after.in_flight is Missing
                        &&& !after.responded
                        &&& after.offset == d.offset
                        &&& after.dead_letter == d.dead_letter
                    }
                    &&& cursor_of(d) is Ok && cursor_value(cursor_of(d)->Ok_0) < entry.end_offset
                        && policy == OrphanPolicy::DeadLetter && d.dead_letter is Failed ==> {
                        &&& plan.result == Err::<OutcomeView, _>(
                            ErrorView::DeadLetterWrite {
                                path: dead_letter_path(d.inbox_path).text,
                                source: d.dead_letter->Failed_0,
                            },
                        )
                        &&& after == DirView { dead_letter_tmp: false, ..d }
                    }
                },
            }
        }),
{
    reveal_with_fuel(replay, 6);
    let effects = recovery(d, policy).effects;
    match d.in_flight {
        FileEntryView::Entry(entry) => {
            if cursor_of(d) is Ok && cursor_value(cursor_of(d)->Ok_0) < entry.end_offset && !(policy
                == OrphanPolicy::DeadLetter && d.dead_letter is Failed) {
                recovery_follows_the_policy(d, policy, entry);
            } else {
                assert(opening() + Seq::<EffectView>::empty() =~= opening());
            }
        },
        _ => {},
    }
}

/// The text of an orphan's dead-letter record, without its newline.
fn record_text(entry: &InFlightEntry) -> (r: String)
    ensures
        r@ == json::object_text(record_members(entry@)),
        tells_of(r@, entry@),
{
    proof {
        orphans_read_back_from_their_dead_letters(entry@);
        assert(record_line(entry@).drop_last() =~= json::object_text(record_members(entry@)));
    }
    let mut members: Vec<(String, Scalar)> = Vec::new();
    members.push(("delivered_at".to_owned(), Scalar::Text(entry.delivered_at.clone())));
    members.push(("end_offset".to_owned(), Scalar::Number(entry.end_offset)));
    members.push(("entry_id".to_owned(), Scalar::Text(entry.entry_id.clone())));
    members.push(("raw_line".to_owned(), Scalar::Text(entry.raw_line.clone())));
    members.push(("start_offset".to_owned(), Scalar::Number(entry.start_offset)));
    proof {
        assert(json::member_views(members@) =~= record_members(entry@));
        lemma_record_names_ascend(entry@);
    }
    json::object(members)
}

proof fn lemma_record_names_ascend(entry: InFlightView)
    ensures
        json::names_ascend(record_members(entry)),
{
    reveal_strlit("delivered_at");
    reveal_strlit("end_offset");
    reveal_strlit("entry_id");
    reveal_strlit("raw_line");
    reveal_strlit("start_offset");
    let members = record_members(entry);
    assert("delivered_at"@.take(0) =~= "end_offset"@.take(0));
    assert("end_offset"@.take(2) =~= "entry_id"@.take(2));
    assert("entry_id"@.take(0) =~= "raw_line"@.take(0));
    assert("raw_line"@.take(0) =~= "start_offset"@.take(0));
    assert forall|i: int| 0 < i < members.len() implies json::precedes(
        members[i - 1].0,
        #[trigger] members[i].0,
    ) by {
        assert(i == 1 || i == 2 || i == 3 || i == 4);
    }
}

/// Applies `policy` to the orphan that the inbox's last session left, if it left one.
///
/// To be called before the inbox is truncated or its cursor is reset. Wherever it succeeds, neither
/// `.in-flight` nor `.responded` is left.
pub fn recover(dir: &mut SessionDir, policy: OrphanPolicy) -> (r: Result<
    RecoveryOutcome,
    HeartbeatError,
>)
    ensures
        outcome_result(r) == recovery(old(dir)@, policy).result,
        final(dir)@ == replay(old(dir)@, recovery(old(dir)@, policy).effects),
        final(dir).log() == old(dir).log() + recovery(old(dir)@, policy).effects,
{
    let ghost d = dir@;
    let ghost log = dir.log();
    let ghost none = Seq::<EffectView>::empty();
    assert(log + none =~= log);
    assert(dir.reached(d, log, none));
    let ghost plan = recovery(d, policy);

    dir.perform(Effect::RemoveDeadLetterTmp);
    assert(none.push(EffectView::RemoveDeadLetterTmp) =~= opening());

    let entry = match InFlightEntry::read_from(dir) {
        Err(e) => {
            return Err(e);
        },
        Ok(None) => {
            dir.perform(Effect::RemoveResponded);
            return Ok(RecoveryOutcome::NothingToRecover);
        },
        Ok(Some(entry)) => entry,
    };
    let cursor = match inbox::read_offset(dir) {
        Err(e) => {
            return Err(e);
        },
        Ok(cursor) => cursor,
    };
    let current: u64 = match cursor {
        Some(offset) => offset,
        None => 0,
    };

    if entry.is_stale(current) {
        dir.perform(Effect::RemoveInFlight);
        dir.perform(Effect::RemoveResponded);
        assert(opening().push(EffectView::RemoveInFlight).push(EffectView::RemoveResponded)
            =~= plan.effects);
        return Ok(RecoveryOutcome::StaleOrphanDeleted { entry_id: entry.entry_id });
    }
    match policy {
        OrphanPolicy::Retry => {
            // The orphan still stands in the inbox: to move the cursor back to it is all it takes.
            inbox::write_offset(dir, entry.start_offset);
            dir.perform(Effect::RemoveInFlight);
            dir.perform(Effect::RemoveResponded);
            assert(opening().push(EffectView::WriteOffset(entry.start_offset)).push(
                EffectView::RemoveInFlight,
            ).push(EffectView::RemoveResponded) =~= plan.effects);
            Ok(RecoveryOutcome::ReQueued { entry_id: entry.entry_id })
        },
        OrphanPolicy::DeadLetter => {
            let mut letters = match &dir.dead_letter {
                FileBytes::Failed(reason) => {
                    assert(opening() + none =~= opening());
                    return Err(
                        HeartbeatError::DeadLetterWrite {
                            path: dead_letter_file_for(&dir.inbox_path).text,
                            source: reason.clone(),
                        },
                    );
                },
                FileBytes::Missing => Vec::new(),
                FileBytes::Bytes(bytes) => copy_bytes(bytes),
            };
            let line = record_text(&entry).concat("\n");
            proof {
                reveal_strlit("\n");
                assert(line@ =~= record_line(entry@));
            }
            append_utf8(&mut letters, line.as_str());
            let ghost bytes = letters@;
            dir.perform(Effect::ReplaceDeadLetter(letters));
            inbox::write_offset(dir, entry.end_offset);
            dir.perform(Effect::RemoveInFlight);
            dir.perform(Effect::RemoveResponded);
            assert(opening().push(EffectView::ReplaceDeadLetter(bytes)).push(
                EffectView::WriteOffset(entry.end_offset),
            ).push(EffectView::RemoveInFlight).push(EffectView::RemoveResponded) =~= plan.effects);
            Ok(RecoveryOutcome::DeadLettered { entry_id: entry.entry_id })
        },
        OrphanPolicy::Drop => {
            inbox::write_offset(dir, entry.end_offset);
            dir.perform(Effect::RemoveInFlight);
            dir.perform(Effect::RemoveResponded);
            assert(opening().push(EffectView::WriteOffset(entry.end_offset)).push(
                EffectView::RemoveInFlight,
            ).push(EffectView::RemoveResponded) =~= plan.effects);
            Ok(RecoveryOutcome::Dropped { entry_id: entry.entry_id })
        },
    }
}

} // verus!
