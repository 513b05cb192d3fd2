//! What holds of whole sessions: of several stops in a row, of crashes between two writes, of
//! writes that fail, and of recovery after them.

use vstd::prelude::*;
use vstd::utf8::encode_utf8;

use crate::error::ErrorView;
use crate::hook::{
    delivery, nothing_left, settled, settlement, tick, DecisionView, Mode,
};
use crate::in_flight::{in_flight_of, in_flight_record, sha256_hex_text};
use crate::inbox::{
    acknowledgement, acknowledgement_never_rewinds, cursor_at, cursor_moves_hide_nothing, cursor_of,
    cursor_value, entries, entry_is_found_at_its_start, entry_lies_ahead, first_entry, inbox_bytes,
    line_is_read, lines_write, next_entry, offset_reads_back, reading_stops_at_the_entry,
    written_messages_are_the_entries, EntryView,
};
use crate::json;
use crate::recover::{
    closing, dead_letters, opening, policy_plan, record_line, record_members, recovery,
    OrphanPolicy, OutcomeView,
};
use crate::session_dir::{
    an_error_leaves_a_prefix, apply, carried, effects_leave_the_inbox_alone, error_of,
    failures_leave_a_prefix_to_be_read, performed, read_alike, replay, replay_in_two, replay_push,
    DirView, EffectView, FileBytesView, FileEntryView,
};

verus! {

/// Whether the inbox of the directory `d` holds `bytes`, nothing waits for an answer, and the
/// cursor stands at `at`.
pub open spec fn awaits(d: DirView, bytes: Seq<u8>, at: int) -> bool {
    &&& bytes.len() <= u64::MAX
    &&& d.inbox == FileBytesView::Bytes(bytes)
    &&& !d.responded
    &&& cursor_at(d, at)
}

/// Whether `.in-flight` of the directory `d` records `entry`, and the cursor has not moved past
/// it: it is still the next entry of the inbox.
pub open spec fn orphaned(d: DirView, bytes: Seq<u8>, entry: EntryView) -> bool {
    &&& bytes.len() <= u64::MAX
    &&& d.inbox == FileBytesView::Bytes(bytes)
    &&& d.in_flight matches FileEntryView::Entry(record) && {
        &&& record.entry_id == sha256_hex_text(entry.raw_line)
        &&& record.raw_line == entry.raw_line
        &&& record.start_offset == entry.start_offset
        &&& record.end_offset == entry.end_offset
    }
    &&& cursor_of(d) matches Ok(cursor) && first_entry(bytes, cursor_value(cursor) as int) == Some(
        entry,
    )
}

/// Whether `entry` was delivered, and is to be acknowledged at the next stop.
pub open spec fn delivered(d: DirView, bytes: Seq<u8>, entry: EntryView) -> bool {
    d.responded && orphaned(d, bytes, entry)
}

/// The directory after a stop.
pub open spec fn after_tick(
    d: DirView,
    mode: Mode,
    idle_interval_secs: u64,
    secs: u64,
) -> DirView {
    replay(d, tick(d, mode, idle_interval_secs, secs).effects)
}

/// What the stops of a session come to, one after another, at the times `times`.
pub open spec fn session(
    d: DirView,
    mode: Mode,
    idle_interval_secs: u64,
    times: Seq<u64>,
) -> Seq<Result<DecisionView, ErrorView>>
    decreases times.len(),
{
    if times.len() == 0 {
        Seq::empty()
    } else {
        seq![tick(d, mode, idle_interval_secs, times[0]).result] + session(
            after_tick(d, mode, idle_interval_secs, times[0]),
            mode,
            idle_interval_secs,
            times.drop_first(),
        )
    }
}

proof fn lemma_delivery(d: DirView, bytes: Seq<u8>, at: int, mode: Mode, idle: u64, secs: u64)
    requires
        awaits(d, bytes, at),
    ensures
        ({
            let plan = delivery(d, mode, idle, secs);
            let after = replay(d, plan.effects);
            match first_entry(bytes, at) {
                Some(entry) => {
                    &&& plan.result == Ok::<_, ErrorView>(DecisionView::Block(entry.decoded))
                    &&& delivered(after, bytes, entry)
                    &&& cursor_at(after, entry.start_offset as int)
                    &&& forall|k: int|
                        0 <= k <= plan.effects.len() ==> next_entry(
                            #[trigger] replay(d, plan.effects.take(k)),
                        ).result == Ok::<_, ErrorView>(Some(entry))
                    &&& forall|k: int|
                        0 <= k <= plan.effects.len() ==> {
                            let now = #[trigger] replay(d, plan.effects.take(k));
                            &&& k < plan.effects.len() ==> !now.responded
                            &&& cursor_of(now) is Ok
                            &&& at <= cursor_value(cursor_of(now)->Ok_0)
                        }
                },
                None => {
                    &&& plan.result == nothing_left(mode, idle).result
                    &&& !after.responded
                    &&& after.in_flight == d.in_flight
                    &&& after.inbox == d.inbox
                    &&& next_entry(after).result == Ok::<_, ErrorView>(None::<EntryView>)
                    &&& forall|k: int|
                        0 <= k <= plan.effects.len() ==> {
                            let now = #[trigger] replay(d, plan.effects.take(k));
                            &&& next_entry(now).result == Ok::<_, ErrorView>(None::<EntryView>)
                            &&& !now.responded
                            &&& cursor_of(now) is Ok
                            &&& at <= cursor_value(cursor_of(now)->Ok_0)
                        }
                },
            }
        }),
{
    let plan = delivery(d, mode, idle, secs);
    let moves = next_entry(d).effects;
    let moved = replay(d, moves);
    assert(moves.take(moves.len() as int) =~= moves);
    cursor_moves_hide_nothing(d, moves.len() as int);
    reading_stops_at_the_entry(d);
    match first_entry(bytes, at) {
        Some(entry) => {
            let record = in_flight_record(
                entry.raw_line,
                entry.start_offset,
                entry.end_offset,
                secs,
            );
            let write = EffectView::WriteInFlight(record);
            replay_push(d, moves, write);
            replay_push(d, moves.push(write), EffectView::TouchResponded);
            assert forall|k: int| 0 <= k <= plan.effects.len() implies ({
                let now = #[trigger] replay(d, plan.effects.take(k));
                &&& next_entry(now).result == Ok::<_, ErrorView>(Some(entry))
                &&& k < plan.effects.len() ==> !now.responded
                &&& cursor_of(now) is Ok
                &&& at <= cursor_value(cursor_of(now)->Ok_0)
            }) by {
                if k <= moves.len() {
                    assert(plan.effects.take(k) =~= moves.take(k));
                    cursor_moves_hide_nothing(d, k);
                } else if k == moves.len() + 1 {
                    assert(plan.effects.take(k) =~= moves.push(write));
                } else {
                    assert(plan.effects.take(k) =~= plan.effects);
                }
            }
        },
        None => {
            let rest = nothing_left(mode, idle).effects;
            replay_in_two(d, moves, rest);
            reveal_with_fuel(replay, 3);
            assert(replay(d, plan.effects) == moved);
            assert forall|k: int| 0 <= k <= plan.effects.len() implies ({
                let now = #[trigger] replay(d, plan.effects.take(k));
                &&& next_entry(now).result == Ok::<_, ErrorView>(None::<EntryView>)
                &&& !now.responded
                &&& cursor_of(now) is Ok
                &&& at <= cursor_value(cursor_of(now)->Ok_0)
            }) by {
                if k <= moves.len() {
                    assert(plan.effects.take(k) =~= moves.take(k));
                    cursor_moves_hide_nothing(d, k);
                } else {
                    assert(plan.effects.take(k) =~= plan.effects);
                }
            }
        },
    }
}

proof fn lemma_nothing_to_settle(d: DirView, mode: Mode, idle: u64, secs: u64)
    requires
        !d.responded,
    ensures
        tick(d, mode, idle, secs) == delivery(d, mode, idle, secs),
{
    let plan = delivery(d, mode, idle, secs);
    assert(Seq::<EffectView>::empty() + plan.effects =~= plan.effects);
}

/// A delivery loses nothing. Wherever a crash interrupts it, the entry is still the next one to be
/// read: the cursor has not moved past it.
pub proof fn delivery_loses_nothing(
    d: DirView,
    bytes: Seq<u8>,
    at: int,
    mode: Mode,
    idle_interval_secs: u64,
    secs: u64,
    k: int,
)
    requires
        awaits(d, bytes, at),
        first_entry(bytes, at) is Some,
        0 <= k <= tick(d, mode, idle_interval_secs, secs).effects.len(),
    ensures
        next_entry(
            replay(d, tick(d, mode, idle_interval_secs, secs).effects.take(k)),
        ).result == Ok::<_, ErrorView>(first_entry(bytes, at)),
{
    lemma_nothing_to_settle(d, mode, idle_interval_secs, secs);
    lemma_delivery(d, bytes, at, mode, idle_interval_secs, secs);
    let plan = delivery(d, mode, idle_interval_secs, secs);
    assert(next_entry(replay(d, plan.effects.take(k))).result is Ok);
}

/// The first stop delivers the first entry, and leaves it recorded in flight, with the cursor at
/// its first byte.
pub proof fn first_stop_delivers(
    d: DirView,
    bytes: Seq<u8>,
    at: int,
    entry: EntryView,
    mode: Mode,
    idle_interval_secs: u64,
    secs: u64,
)
    requires
        awaits(d, bytes, at),
        first_entry(bytes, at) == Some(entry),
    ensures
        tick(d, mode, idle_interval_secs, secs).result == Ok::<_, ErrorView>(
            DecisionView::Block(entry.decoded),
        ),
        delivered(after_tick(d, mode, idle_interval_secs, secs), bytes, entry),
        cursor_at(after_tick(d, mode, idle_interval_secs, secs), entry.start_offset as int),
{
    lemma_nothing_to_settle(d, mode, idle_interval_secs, secs);
    lemma_delivery(d, bytes, at, mode, idle_interval_secs, secs);
}

/// Once the agent has answered, its entry is acknowledged: the cursor stands at the entry's end,
/// and neither `.in-flight` nor `.responded` is left.
pub proof fn answer_settles_the_entry(d: DirView, bytes: Seq<u8>, entry: EntryView)
    requires
        delivered(d, bytes, entry),
    ensures
        settlement(d).result is Ok,
        awaits(settled(d), bytes, entry.end_offset as int),
        settled(d).in_flight is Missing,
{
    let start = cursor_value(cursor_of(d)->Ok_0);
    entry_lies_ahead(bytes, start as int);
    acknowledgement_never_rewinds(d, entry.end_offset);
    let ack = acknowledgement(d, entry.end_offset);
    effects_leave_the_inbox_alone(d, ack.effects);
    replay_push(d, ack.effects, EffectView::RemoveResponded);
}

/// The stop after an answer goes on with what follows the acknowledged entry: the next entry, with
/// the cursor at its first byte, or, where there is none, what an empty inbox comes to.
pub proof fn next_stop_goes_on(
    d: DirView,
    bytes: Seq<u8>,
    entry: EntryView,
    mode: Mode,
    idle_interval_secs: u64,
    secs: u64,
)
    requires
        delivered(d, bytes, entry),
    ensures
        ({
            let after = after_tick(d, mode, idle_interval_secs, secs);
            match first_entry(bytes, entry.end_offset as int) {
                Some(next) => {
                    &&& tick(d, mode, idle_interval_secs, secs).result == Ok::<_, ErrorView>(
                        DecisionView::Block(next.decoded),
                    )
                    &&& delivered(after, bytes, next)
                    &&& cursor_at(after, next.start_offset as int)
                },
                None => {
                    &&& tick(d, mode, idle_interval_secs, secs).result == nothing_left(
                        mode,
                        idle_interval_secs,
                    ).result
                    &&& !after.responded
                    &&& after.in_flight is Missing
                    &&& next_entry(after).result == Ok::<_, ErrorView>(None::<EntryView>)
                },
            }
        }),
{
    answer_settles_the_entry(d, bytes, entry);
    let at = entry.end_offset as int;
    lemma_delivery(settled(d), bytes, at, mode, idle_interval_secs, secs);
    replay_in_two(
        d,
        settlement(d).effects,
        delivery(settled(d), mode, idle_interval_secs, secs).effects,
    );
}

/// What acknowledges an answered entry: the cursor is written, then the two files go.
proof fn lemma_settlement_effects(d: DirView, bytes: Seq<u8>, entry: EntryView)
    requires
        delivered(d, bytes, entry),
    ensures
        settlement(d).effects == seq![
            EffectView::WriteOffset(entry.end_offset),
            EffectView::RemoveInFlight,
            EffectView::RemoveResponded,
        ],
{
    entry_lies_ahead(bytes, cursor_value(cursor_of(d)->Ok_0) as int);
    assert(settlement(d).effects =~= seq![
        EffectView::WriteOffset(entry.end_offset),
        EffectView::RemoveInFlight,
        EffectView::RemoveResponded,
    ]);
}

/// The directory after the first write of an acknowledgement, and after each of the removals that
/// follow it.
proof fn lemma_settlement_steps(d: DirView, bytes: Seq<u8>, entry: EntryView, k: int)
    requires
        delivered(d, bytes, entry),
        0 < k <= settlement(d).effects.len(),
    ensures
        ({
            let acknowledged = apply(d, EffectView::WriteOffset(entry.end_offset));
            let removed = apply(acknowledged, EffectView::RemoveInFlight);
            let now = replay(d, settlement(d).effects.take(k));
            &&& settlement(d).effects.len() == 3
            &&& cursor_at(now, entry.end_offset as int)
            &&& now == if k == 1 {
                acknowledged
            } else if k == 2 {
                removed
            } else {
                apply(removed, EffectView::RemoveResponded)
            }
        }),
{
    let effects = settlement(d).effects;
    let end = EffectView::WriteOffset(entry.end_offset);
    lemma_settlement_effects(d, bytes, entry);
    entry_lies_ahead(bytes, cursor_value(cursor_of(d)->Ok_0) as int);
    offset_reads_back(d, entry.end_offset);
    if k == 1 {
        assert(effects.take(k) =~= seq![end]);
    } else if k == 2 {
        assert(effects.take(k) =~= seq![end].push(EffectView::RemoveInFlight));
    } else {
        assert(effects.take(k) =~= seq![end].push(EffectView::RemoveInFlight).push(
            EffectView::RemoveResponded,
        ));
    }
    assert(seq![end].drop_last() =~= Seq::<EffectView>::empty());
    replay_push(d, seq![end], EffectView::RemoveInFlight);
    replay_push(d, seq![end].push(EffectView::RemoveInFlight), EffectView::RemoveResponded);
    reveal_with_fuel(replay, 2);
    assert(replay(d, seq![end]) == apply(d, end));
}

/// A stop that acknowledges one entry and delivers the next loses neither, wherever a crash
/// interrupts it. Before its first write the entry is still recorded in flight, and still the next
/// one to be read; from then on, to the end, the next one to be read is what follows the entry.
pub proof fn a_stop_after_an_answer_loses_nothing(
    d: DirView,
    bytes: Seq<u8>,
    entry: EntryView,
    mode: Mode,
    idle_interval_secs: u64,
    secs: u64,
    k: int,
)
    requires
        delivered(d, bytes, entry),
        0 <= k <= tick(d, mode, idle_interval_secs, secs).effects.len(),
    ensures
        ({
            let now = replay(d, tick(d, mode, idle_interval_secs, secs).effects.take(k));
            if k == 0 {
                &&& delivered(now, bytes, entry)
                &&& next_entry(now).result == Ok::<_, ErrorView>(Some(entry))
            } else {
                next_entry(now).result == Ok::<_, ErrorView>(
                    first_entry(bytes, entry.end_offset as int),
                )
            }
        }),
{
    let first = settlement(d).effects;
    let all = tick(d, mode, idle_interval_secs, secs).effects;
    answer_settles_the_entry(d, bytes, entry);
    if k == 0 {
        assert(all.take(0) =~= Seq::<EffectView>::empty());
    } else if k <= first.len() {
        assert(all.take(k) =~= first.take(k));
        lemma_settlement_steps(d, bytes, entry, k);
    } else {
        let mid = settled(d);
        let plan = delivery(mid, mode, idle_interval_secs, secs);
        let j = k - first.len();
        assert(all.take(k) =~= first + plan.effects.take(j));
        replay_in_two(d, first, plan.effects.take(j));
        lemma_delivery(mid, bytes, entry.end_offset as int, mode, idle_interval_secs, secs);
        assert(next_entry(replay(mid, plan.effects.take(j))).result is Ok);
    }
}

proof fn lemma_stop_prefix(
    d: DirView,
    bytes: Seq<u8>,
    at: int,
    mode: Mode,
    idle: u64,
    secs: u64,
    k: int,
)
    requires
        awaits(d, bytes, at),
        0 <= k <= tick(d, mode, idle, secs).effects.len(),
    ensures
        ({
            let plan = tick(d, mode, idle, secs);
            let now = replay(d, plan.effects.take(k));
            &&& next_entry(now).result == Ok::<_, ErrorView>(first_entry(bytes, at))
            &&& k < plan.effects.len() ==> !now.responded
            &&& plan.result == match first_entry(bytes, at) {
                Some(entry) => Ok::<_, ErrorView>(DecisionView::Block(entry.decoded)),
                None => nothing_left(mode, idle).result,
            }
        }),
{
    lemma_nothing_to_settle(d, mode, idle, secs);
    lemma_delivery(d, bytes, at, mode, idle, secs);
    let plan = delivery(d, mode, idle, secs);
    assert(next_entry(replay(d, plan.effects.take(k))).result is Ok);
}

proof fn lemma_read_alike(a: DirView, b: DirView)
    requires
        read_alike(a, b),
    ensures
        next_entry(a) == next_entry(b),
{
}

/// Whatever writes fail, a stop loses no entry: the next one to be read is still the one that it
/// was to deliver.
pub proof fn failures_lose_nothing(
    d: DirView,
    bytes: Seq<u8>,
    at: int,
    mode: Mode,
    idle_interval_secs: u64,
    secs: u64,
    failures: Seq<Option<Seq<char>>>,
)
    requires
        awaits(d, bytes, at),
        failures.len() == tick(d, mode, idle_interval_secs, secs).effects.len(),
    ensures
        next_entry(
            carried(d, tick(d, mode, idle_interval_secs, secs).effects, failures, 0).dir,
        ).result == Ok::<_, ErrorView>(first_entry(bytes, at)),
{
    let effects = tick(d, mode, idle_interval_secs, secs).effects;
    let k = failures_leave_a_prefix_to_be_read(d, effects, failures);
    lemma_stop_prefix(d, bytes, at, mode, idle_interval_secs, secs, k);
    lemma_read_alike(carried(d, effects, failures, 0).dir, replay(d, effects.take(k)));
}

/// Whatever writes fail, a stop after an answer loses no entry. Where the cursor could not be
/// written the answered entry is still the next one to be read; else it is what follows.
pub proof fn failures_after_an_answer_lose_nothing(
    d: DirView,
    bytes: Seq<u8>,
    entry: EntryView,
    mode: Mode,
    idle_interval_secs: u64,
    secs: u64,
    failures: Seq<Option<Seq<char>>>,
)
    requires
        delivered(d, bytes, entry),
        failures.len() == tick(d, mode, idle_interval_secs, secs).effects.len(),
    ensures
        next_entry(
            carried(d, tick(d, mode, idle_interval_secs, secs).effects, failures, 0).dir,
        ).result == Ok::<_, ErrorView>(
            if failures[0] is Some {
                Some(entry)
            } else {
                first_entry(bytes, entry.end_offset as int)
            },
        ),
{
    let effects = tick(d, mode, idle_interval_secs, secs).effects;
    lemma_settlement_effects(d, bytes, entry);
    answer_settles_the_entry(d, bytes, entry);
    let k = failures_leave_a_prefix_to_be_read(d, effects, failures);
    assert(effects[0] == settlement(d).effects[0]);
    assert(k == 0 <==> failures[0] is Some);
    a_stop_after_an_answer_loses_nothing(d, bytes, entry, mode, idle_interval_secs, secs, k);
    lemma_read_alike(carried(d, effects, failures, 0).dir, replay(d, effects.take(k)));
}

proof fn lemma_stop_result(d: DirView, mode: Mode, idle: u64, secs: u64, next: Option<EntryView>)
    requires
        !d.responded,
        next_entry(d).result == Ok::<_, ErrorView>(next),
    ensures
        tick(d, mode, idle, secs).result == match next {
            Some(entry) => Ok::<_, ErrorView>(DecisionView::Block(entry.decoded)),
            None => nothing_left(mode, idle).result,
        },
{
    lemma_nothing_to_settle(d, mode, idle, secs);
}

proof fn lemma_stop_after_answer_prefix(
    d: DirView,
    bytes: Seq<u8>,
    entry: EntryView,
    mode: Mode,
    idle: u64,
    secs: u64,
    k: int,
)
    requires
        delivered(d, bytes, entry),
        3 <= k < tick(d, mode, idle, secs).effects.len(),
    ensures
        ({
            let now = replay(d, tick(d, mode, idle, secs).effects.take(k));
            &&& !now.responded
            &&& next_entry(now).result == Ok::<_, ErrorView>(
                first_entry(bytes, entry.end_offset as int),
            )
        }),
{
    let first = settlement(d).effects;
    let mid = settled(d);
    lemma_settlement_effects(d, bytes, entry);
    answer_settles_the_entry(d, bytes, entry);
    let rest = delivery(mid, mode, idle, secs).effects;
    let j = k - first.len();
    assert(tick(d, mode, idle, secs).effects.take(k) =~= first + rest.take(j));
    replay_in_two(d, first, rest.take(j));
    lemma_nothing_to_settle(mid, mode, idle, secs);
    lemma_stop_prefix(mid, bytes, entry.end_offset as int, mode, idle, secs, j);
}

#[verifier::rlimit(30)]
proof fn lemma_answered_retry(
    d: DirView,
    bytes: Seq<u8>,
    entry: EntryView,
    mode: Mode,
    idle: u64,
    secs: u64,
    later: u64,
    k: int,
)
    requires
        delivered(d, bytes, entry),
        0 <= k < tick(d, mode, idle, secs).effects.len(),
        !(tick(d, mode, idle, secs).effects[k] is RemoveInFlight),
        !(tick(d, mode, idle, secs).effects[k] is RemoveResponded),
    ensures
        tick(replay(d, tick(d, mode, idle, secs).effects.take(k)), mode, idle, later).result
            == tick(d, mode, idle, secs).result,
{
    let effects = tick(d, mode, idle, secs).effects;
    let left = replay(d, effects.take(k));
    let next = first_entry(bytes, entry.end_offset as int);
    lemma_settlement_effects(d, bytes, entry);
    answer_settles_the_entry(d, bytes, entry);
    next_stop_goes_on(d, bytes, entry, mode, idle, secs);
    if k < 3 {
        assert(effects[k] == settlement(d).effects[k]);
        assert(effects.take(0) =~= Seq::<EffectView>::empty());
        next_stop_goes_on(d, bytes, entry, mode, idle, later);
    } else {
        lemma_stop_after_answer_prefix(d, bytes, entry, mode, idle, secs, k);
        lemma_stop_result(left, mode, idle, later, next);
    }
}

/// A stop can be tried again after any error. Where the effect at `k` is the first to fail, and its
/// failure is an error, the stop comes to that error; and the next stop, at `later`, comes to what
/// this one would have come to.
#[verifier::rlimit(30)]
pub proof fn a_failed_stop_can_be_tried_again(
    d: DirView,
    bytes: Seq<u8>,
    at: int,
    mode: Mode,
    idle_interval_secs: u64,
    secs: u64,
    later: u64,
    failures: Seq<Option<Seq<char>>>,
    k: int,
)
    requires
        ({
            let effects = tick(d, mode, idle_interval_secs, secs).effects;
            &&& awaits(d, bytes, at) || exists|entry: EntryView| delivered(d, bytes, entry)
            &&& 0 <= k < effects.len()
            &&& failures.len() == effects.len()
            &&& forall|j: int| 0 <= j < k ==> #[trigger] failures[j] is None
            &&& error_of(d.inbox_path, effects[k], failures[k]) is Some
        }),
    ensures
        ({
            let plan = tick(d, mode, idle_interval_secs, secs);
            let left = carried(d, plan.effects, failures, 0).dir;
            &&& performed(d, plan, failures) == Err::<DecisionView, ErrorView>(
                error_of(d.inbox_path, plan.effects[k], failures[k])->0,
            )
            &&& tick(left, mode, idle_interval_secs, later).result == plan.result
        }),
{
    let plan = tick(d, mode, idle_interval_secs, secs);
    let left = replay(d, plan.effects.take(k));
    an_error_leaves_a_prefix(d, plan, failures, k);
    if awaits(d, bytes, at) {
        lemma_stop_prefix(d, bytes, at, mode, idle_interval_secs, secs, k);
        lemma_stop_result(left, mode, idle_interval_secs, later, first_entry(bytes, at));
    } else {
        let entry = choose|entry: EntryView| delivered(d, bytes, entry);
        lemma_answered_retry(d, bytes, entry, mode, idle_interval_secs, secs, later, k);
    }
}

proof fn lemma_session(
    d: DirView,
    bytes: Seq<u8>,
    at: int,
    mode: Mode,
    idle: u64,
    times: Seq<u64>,
    i: int,
)
    requires
        settlement(d).result is Ok,
        awaits(settled(d), bytes, at),
        0 <= i <= entries(bytes, at).len(),
        i < times.len(),
    ensures
        session(d, mode, idle, times).len() == times.len(),
        i < entries(bytes, at).len() ==> session(d, mode, idle, times)[i] == Ok::<_, ErrorView>(
            DecisionView::Block(entries(bytes, at)[i].decoded),
        ),
        i == entries(bytes, at).len() ==> session(d, mode, idle, times)[i] == nothing_left(
            mode,
            idle,
        ).result,
    decreases times.len(),
{
    let plan = delivery(settled(d), mode, idle, times[0]);
    lemma_session_len(d, mode, idle, times);
    lemma_delivery(settled(d), bytes, at, mode, idle, times[0]);
    replay_in_two(d, settlement(d).effects, plan.effects);
    if i > 0 {
        let entry = first_entry(bytes, at)->Some_0;
        let after = after_tick(d, mode, idle, times[0]);
        answer_settles_the_entry(after, bytes, entry);
        lemma_session(
            after,
            bytes,
            entry.end_offset as int,
            mode,
            idle,
            times.drop_first(),
            i - 1,
        );
    }
}

proof fn lemma_session_len(d: DirView, mode: Mode, idle: u64, times: Seq<u64>)
    ensures
        session(d, mode, idle, times).len() == times.len(),
    decreases times.len(),
{
    if times.len() > 0 {
        lemma_session_len(
            after_tick(d, mode, idle, times[0]),
            mode,
            idle,
            times.drop_first(),
        );
    }
}

/// A session delivers every entry of the inbox exactly once, in the order of the inbox, and the
/// stop after the last one comes to what an empty inbox comes to.
pub proof fn session_delivers_every_entry_in_order(
    d: DirView,
    bytes: Seq<u8>,
    at: int,
    mode: Mode,
    idle_interval_secs: u64,
    times: Seq<u64>,
)
    requires
        awaits(d, bytes, at),
        times.len() == entries(bytes, at).len() + 1,
    ensures
        ({
            let all = entries(bytes, at);
            let decisions = session(d, mode, idle_interval_secs, times);
            &&& decisions.len() == all.len() + 1
            &&& forall|i: int|
                0 <= i < all.len() ==> #[trigger] decisions[i] == Ok::<_, ErrorView>(
                    DecisionView::Block(all[i].decoded),
                )
            &&& decisions.last() == nothing_left(mode, idle_interval_secs).result
        }),
{
    let all = entries(bytes, at);
    let decisions = session(d, mode, idle_interval_secs, times);
    lemma_session(d, bytes, at, mode, idle_interval_secs, times, all.len() as int);
    assert forall|i: int| 0 <= i < all.len() implies #[trigger] decisions[i] == Ok::<_, ErrorView>(
        DecisionView::Block(all[i].decoded),
    ) by {
        lemma_session(d, bytes, at, mode, idle_interval_secs, times, i);
    }
}

/// No stop moves the cursor back, at any point of what it does.
pub proof fn stops_never_rewind(
    d: DirView,
    mode: Mode,
    idle_interval_secs: u64,
    secs: u64,
    k: int,
)
    requires
        cursor_of(d) is Ok,
        d.inbox matches FileBytesView::Bytes(bytes) ==> bytes.len() <= u64::MAX,
        0 <= k <= tick(d, mode, idle_interval_secs, secs).effects.len(),
    ensures
        ({
            let now = replay(d, tick(d, mode, idle_interval_secs, secs).effects.take(k));
            &&& cursor_of(now) is Ok
            &&& cursor_value(cursor_of(d)->Ok_0) <= cursor_value(cursor_of(now)->Ok_0)
        }),
{
    let first = settlement(d).effects;
    let all = tick(d, mode, idle_interval_secs, secs).effects;
    if k <= first.len() {
        assert(all.take(k) =~= first.take(k));
        lemma_settlement_prefix(d, k);
    } else {
        let mid = settled(d);
        let rest = delivery(mid, mode, idle_interval_secs, secs).effects;
        let j = k - first.len();
        assert(first.take(first.len() as int) =~= first);
        lemma_settlement_prefix(d, first.len() as int);
        effects_leave_the_inbox_alone(d, first);
        assert(all.take(k) =~= first + rest.take(j));
        replay_in_two(d, first, rest.take(j));
        lemma_delivery_never_rewinds(mid, mode, idle_interval_secs, secs, j);
    }
}

proof fn lemma_settlement_prefix(d: DirView, k: int)
    requires
        cursor_of(d) is Ok,
        0 <= k <= settlement(d).effects.len(),
    ensures
        cursor_of(replay(d, settlement(d).effects.take(k))) is Ok,
        cursor_value(cursor_of(d)->Ok_0) <= cursor_value(
            cursor_of(replay(d, settlement(d).effects.take(k)))->Ok_0,
        ),
        k == settlement(d).effects.len() && settlement(d).result is Ok ==> !replay(
            d,
            settlement(d).effects.take(k),
        ).responded,
    decreases k,
{
    let effects = settlement(d).effects;
    if k == 0 {
        assert(effects.take(0) =~= Seq::<EffectView>::empty());
    } else {
        lemma_settlement_prefix(d, k - 1);
        assert(effects.take(k) =~= effects.take(k - 1).push(effects[k - 1]));
        replay_push(d, effects.take(k - 1), effects[k - 1]);
        if let EffectView::WriteOffset(end) = effects[k - 1] {
            offset_reads_back(replay(d, effects.take(k - 1)), end);
            assert(k == 1);
        }
    }
}

proof fn lemma_delivery_never_rewinds(d: DirView, mode: Mode, idle: u64, secs: u64, k: int)
    requires
        cursor_of(d) is Ok,
        !d.responded,
        d.inbox matches FileBytesView::Bytes(bytes) ==> bytes.len() <= u64::MAX,
        0 <= k <= delivery(d, mode, idle, secs).effects.len(),
    ensures
        ({
            let now = replay(d, delivery(d, mode, idle, secs).effects.take(k));
            &&& cursor_of(now) is Ok
            &&& cursor_value(cursor_of(d)->Ok_0) <= cursor_value(cursor_of(now)->Ok_0)
        }),
{
    let effects = delivery(d, mode, idle, secs).effects;
    if let FileBytesView::Bytes(bytes) = d.inbox {
        let at = cursor_value(cursor_of(d)->Ok_0) as int;
        lemma_delivery(d, bytes, at, mode, idle, secs);
        assert(cursor_of(replay(d, effects.take(k))) is Ok);
    } else {
        reveal_with_fuel(replay, 3);
    }
}

/// Whether an effect leaves the dead letters alone.
spec fn spares_dead_letters(e: EffectView) -> bool {
    !(e is ReplaceDeadLetter) && !(e is RemoveDeadLetterTmp)
}

proof fn lemma_dead_letters_spared(d: DirView, effects: Seq<EffectView>)
    requires
        forall|i: int| 0 <= i < effects.len() ==> spares_dead_letters(#[trigger] effects[i]),
    ensures
        replay(d, effects).dead_letter == d.dead_letter,
        replay(d, effects).dead_letter_tmp == d.dead_letter_tmp,
    decreases effects.len(),
{
    if effects.len() > 0 {
        lemma_dead_letters_spared(d, effects.drop_last());
        assert(spares_dead_letters(effects[effects.len() - 1]));
    }
}

/// A stop touches the cursor, `.in-flight` and `.responded`, and no other file.
pub proof fn stops_touch_no_other_file(
    d: DirView,
    mode: Mode,
    idle_interval_secs: u64,
    secs: u64,
)
    ensures
        ({
            let after = after_tick(d, mode, idle_interval_secs, secs);
            after == DirView {
                offset: after.offset,
                in_flight: after.in_flight,
                responded: after.responded,
                ..d
            }
        }),
{
    let effects = tick(d, mode, idle_interval_secs, secs).effects;
    assert forall|i: int| 0 <= i < effects.len() implies spares_dead_letters(
        #[trigger] effects[i],
    ) by {
        let first = settlement(d).effects;
        if i >= first.len() {
            let rest = delivery(settled(d), mode, idle_interval_secs, secs).effects;
            assert(effects[i] == rest[i - first.len()]);
        }
    }
    lemma_dead_letters_spared(d, effects);
    effects_leave_the_inbox_alone(d, effects);
}

/// Wherever recovery succeeds, nothing is left in flight, nothing waits for an answer, and no
/// half-written dead-letter file lies about. Wherever it fails, the orphan is still there to be
/// recovered: at most a half-written dead-letter file is gone.
pub proof fn recovery_leaves_the_directory_clean(d: DirView, policy: OrphanPolicy)
    ensures
        ({
            let plan = recovery(d, policy);
            let after = replay(d, plan.effects);
            &&& after.inbox == d.inbox
            &&& !after.dead_letter_tmp
            &&& plan.result is Ok ==> after.in_flight is Missing && !after.responded
            &&& plan.result is Err ==> after == DirView { dead_letter_tmp: false, ..d }
        }),
{
    reveal_with_fuel(replay, 6);
    lemma_recovery_effects(d, policy);
    effects_leave_the_inbox_alone(d, recovery(d, policy).effects);
}

/// The directory after recovery, file by file.
proof fn lemma_recovery_effects(d: DirView, policy: OrphanPolicy)
    ensures
        ({
            let plan = recovery(d, policy);
            let after = replay(d, plan.effects);
            let tidy = DirView { dead_letter_tmp: false, ..d };
            let clean = DirView { in_flight: FileEntryView::Missing, responded: false, ..tidy };
            match plan.result {
                Err(_) => after == tidy,
                Ok(OutcomeView::NothingToRecover) => after == clean,
                Ok(OutcomeView::StaleOrphanDeleted { .. }) => after == clean,
                Ok(OutcomeView::ReQueued { .. }) => {
                    let record = d.in_flight->Entry_0;
                    after == apply(clean, EffectView::WriteOffset(record.start_offset))
                },
                Ok(OutcomeView::Dropped { .. }) => {
                    let record = d.in_flight->Entry_0;
                    after == apply(clean, EffectView::WriteOffset(record.end_offset))
                },
                Ok(OutcomeView::DeadLettered { .. }) => {
                    let record = d.in_flight->Entry_0;
                    after == apply(
                        apply(
                            clean,
                            EffectView::ReplaceDeadLetter(
                                dead_letters(d) + encode_utf8(record_line(record)),
                            ),
                        ),
                        EffectView::WriteOffset(record.end_offset),
                    )
                },
            }
        }),
{
    let plan = recovery(d, policy);
    reveal_with_fuel(replay, 7);
    replay_push(d, opening(), EffectView::RemoveResponded);
    if let Ok(Some(entry)) = in_flight_of(d) {
        let then = policy_plan(d, policy, entry).effects;
        replay_in_two(d, opening(), closing());
        replay_in_two(d, opening(), then);
        let tidy = replay(d, opening());
        match policy {
            OrphanPolicy::Retry => {
                replay_in_two(tidy, seq![EffectView::WriteOffset(entry.start_offset)], closing());
            },
            OrphanPolicy::Drop => {
                replay_in_two(tidy, seq![EffectView::WriteOffset(entry.end_offset)], closing());
            },
            OrphanPolicy::DeadLetter => {
                let letter = EffectView::ReplaceDeadLetter(
                    dead_letters(d) + encode_utf8(record_line(entry)),
                );
                let past = EffectView::WriteOffset(entry.end_offset);
                assert(opening() + Seq::<EffectView>::empty() =~= opening());
                replay_in_two(tidy, seq![letter, past], closing());
                assert(seq![letter, past].drop_last() =~= seq![letter]);
            },
        }
    }
}

/// Retry delivers an orphan again: the next stop hands the agent the same message, under the same
/// identifier.
pub proof fn retry_delivers_again(
    d: DirView,
    bytes: Seq<u8>,
    entry: EntryView,
    mode: Mode,
    idle_interval_secs: u64,
    secs: u64,
)
    requires
        orphaned(d, bytes, entry),
    ensures
        ({
            let plan = recovery(d, OrphanPolicy::Retry);
            let after = replay(d, plan.effects);
            let entry_id = d.in_flight->Entry_0.entry_id;
            &&& plan.result == Ok::<_, ErrorView>(OutcomeView::ReQueued { entry_id })
            &&& awaits(after, bytes, entry.start_offset as int)
            &&& tick(after, mode, idle_interval_secs, secs).result == Ok::<_, ErrorView>(
                DecisionView::Block(entry.decoded),
            )
            &&& delivered(after_tick(after, mode, idle_interval_secs, secs), bytes, entry)
            &&& after_tick(after, mode, idle_interval_secs, secs).in_flight->Entry_0.entry_id
                == entry_id
        }),
{
    let start = cursor_value(cursor_of(d)->Ok_0) as int;
    let after = replay(d, recovery(d, OrphanPolicy::Retry).effects);
    entry_lies_ahead(bytes, start);
    entry_is_found_at_its_start(bytes, start);
    lemma_recovery_effects(d, OrphanPolicy::Retry);
    offset_reads_back(d, entry.start_offset);
    first_stop_delivers(
        after,
        bytes,
        entry.start_offset as int,
        entry,
        mode,
        idle_interval_secs,
        secs,
    );
}

/// The other policies give an orphan up: the next session starts after it. They fail only where
/// the dead letters cannot be read.
pub proof fn other_policies_move_on(
    d: DirView,
    bytes: Seq<u8>,
    entry: EntryView,
    policy: OrphanPolicy,
)
    requires
        orphaned(d, bytes, entry),
        policy != OrphanPolicy::Retry,
    ensures
        ({
            let plan = recovery(d, policy);
            let after = replay(d, plan.effects);
            let entry_id = d.in_flight->Entry_0.entry_id;
            &&& policy == OrphanPolicy::Drop ==> plan.result == Ok::<_, ErrorView>(
                OutcomeView::Dropped { entry_id },
            )
            &&& policy == OrphanPolicy::DeadLetter ==> (plan.result is Err
                <==> d.dead_letter is Failed)
            &&& policy == OrphanPolicy::DeadLetter && plan.result is Ok ==> plan.result == Ok::<
                _,
                ErrorView,
            >(OutcomeView::DeadLettered { entry_id })
            &&& plan.result is Ok ==> awaits(after, bytes, entry.end_offset as int)
        }),
{
    let start = cursor_value(cursor_of(d)->Ok_0) as int;
    entry_lies_ahead(bytes, start);
    lemma_recovery_effects(d, policy);
    offset_reads_back(d, entry.end_offset);
}

/// A dead letter is one more line of the dead-letter file, and what was there stays. No other
/// outcome touches the file.
pub proof fn dead_letters_grow_by_one_line(d: DirView, policy: OrphanPolicy)
    ensures
        ({
            let plan = recovery(d, policy);
            let after = replay(d, plan.effects);
            match plan.result {
                Ok(OutcomeView::DeadLettered { .. }) => {
                    let line = record_line(d.in_flight->Entry_0);
                    &&& after.dead_letter == FileBytesView::Bytes(
                        dead_letters(d) + encode_utf8(line),
                    )
                    &&& line.last() == '\n'
                    &&& !line.drop_last().contains('\n')
                },
                _ => after.dead_letter == d.dead_letter,
            }
        }),
{
    lemma_recovery_effects(d, policy);
    if let Ok(OutcomeView::DeadLettered { .. }) = recovery(d, policy).result {
        let record = d.in_flight->Entry_0;
        json::object_is_one_line(record_members(record));
        assert(record_line(record).drop_last() =~= json::object_text(record_members(record)));
    }
}

/// The acknowledgement of an entry can be interrupted anywhere. Once its first write is done the
/// entry is acknowledged for good: whatever the policy, recovery leaves the cursor at the entry's
/// end and the directory clean, and writes no dead letter.
pub proof fn acknowledgement_survives_a_crash(
    d: DirView,
    bytes: Seq<u8>,
    entry: EntryView,
    k: int,
    policy: OrphanPolicy,
)
    requires
        delivered(d, bytes, entry),
        0 < k <= settlement(d).effects.len(),
    ensures
        ({
            let crashed = replay(d, settlement(d).effects.take(k));
            let plan = recovery(crashed, policy);
            let after = replay(crashed, plan.effects);
            &&& cursor_at(crashed, entry.end_offset as int)
            &&& plan.result is Ok
            &&& plan.result->Ok_0 is NothingToRecover || plan.result->Ok_0 is StaleOrphanDeleted
            &&& awaits(after, bytes, entry.end_offset as int)
            &&& after.in_flight is Missing
            &&& after.dead_letter == d.dead_letter
        }),
{
    let crashed = replay(d, settlement(d).effects.take(k));
    let start = cursor_value(cursor_of(d)->Ok_0) as int;
    entry_lies_ahead(bytes, start);
    lemma_settlement_steps(d, bytes, entry, k);
    lemma_recovery_effects(crashed, policy);
}

/// Recovery can be run again after any failed write. Whatever failed before, an error leaves the
/// orphan in flight and the cursor where it was, and the next recovery comes to what this one would
/// have come to.
#[verifier::rlimit(30)]
pub proof fn failed_recovery_can_be_run_again(
    d: DirView,
    policy: OrphanPolicy,
    failures: Seq<Option<Seq<char>>>,
)
    requires
        failures.len() == recovery(d, policy).effects.len(),
        carried(d, recovery(d, policy).effects, failures, 0).error is Some,
    ensures
        ({
            let plan = recovery(d, policy);
            let left = carried(d, plan.effects, failures, 0).dir;
            &&& performed(d, plan, failures) is Err
            &&& left.inbox == d.inbox
            &&& left.in_flight == d.in_flight
            &&& left.offset == d.offset
            &&& recovery(left, policy).result == plan.result
        }),
{
    reveal_with_fuel(carried, 6);
}

/// Recovery can be interrupted anywhere, too, and is then run again. Until it has put the orphan
/// where the policy wants it, the orphan is still recorded in flight, with the cursor before its
/// end.
pub proof fn recovery_survives_a_crash(
    d: DirView,
    bytes: Seq<u8>,
    entry: EntryView,
    policy: OrphanPolicy,
    k: int,
)
    requires
        orphaned(d, bytes, entry),
        recovery(d, policy).result is Ok,
        0 <= k <= recovery(d, policy).effects.len(),
    ensures
        ({
            let crashed = replay(d, recovery(d, policy).effects.take(k));
            &&& policy == OrphanPolicy::Retry ==> next_entry(crashed).result == Ok::<_, ErrorView>(
                Some(entry),
            )
            &&& policy == OrphanPolicy::DeadLetter ==> orphaned(crashed, bytes, entry)
                || crashed.dead_letter == FileBytesView::Bytes(
                dead_letters(d) + encode_utf8(record_line(d.in_flight->Entry_0)),
            )
            &&& policy == OrphanPolicy::Drop ==> orphaned(crashed, bytes, entry) || cursor_at(
                crashed,
                entry.end_offset as int,
            )
        }),
{
    let start = cursor_value(cursor_of(d)->Ok_0) as int;
    entry_lies_ahead(bytes, start);
    entry_is_found_at_its_start(bytes, start);
    lemma_recovery_prefix(d, bytes, entry, policy, k);
    effects_leave_the_inbox_alone(d, recovery(d, policy).effects.take(k));
}

proof fn lemma_recovery_prefix(
    d: DirView,
    bytes: Seq<u8>,
    entry: EntryView,
    policy: OrphanPolicy,
    k: int,
)
    requires
        orphaned(d, bytes, entry),
        recovery(d, policy).result is Ok,
        0 <= k <= recovery(d, policy).effects.len(),
    ensures
        ({
            let crashed = replay(d, recovery(d, policy).effects.take(k));
            &&& k <= 1 ==> orphaned(crashed, bytes, entry)
            &&& k >= 2 ==> match policy {
                OrphanPolicy::Retry => cursor_at(crashed, entry.start_offset as int),
                OrphanPolicy::Drop => cursor_at(crashed, entry.end_offset as int),
                OrphanPolicy::DeadLetter => crashed.dead_letter == FileBytesView::Bytes(
                    dead_letters(d) + encode_utf8(record_line(d.in_flight->Entry_0)),
                ),
            }
        }),
    decreases k,
{
    let start = cursor_value(cursor_of(d)->Ok_0) as int;
    entry_lies_ahead(bytes, start);
    let effects = recovery(d, policy).effects;
    if k == 0 {
        assert(effects.take(0) =~= Seq::<EffectView>::empty());
    } else {
        lemma_recovery_prefix(d, bytes, entry, policy, k - 1);
        let before = replay(d, effects.take(k - 1));
        assert(effects.take(k) =~= effects.take(k - 1).push(effects[k - 1]));
        replay_push(d, effects.take(k - 1), effects[k - 1]);
        if let EffectView::WriteOffset(offset) = effects[k - 1] {
            offset_reads_back(before, offset);
        }
    }
}

/// A session hands the agent the messages that were written into the inbox: every one of them,
/// once, in order, as it was written, however it was written. The stop after the last one is an
/// `/exit` turn in drain mode, and an idle tick in persist mode.
pub proof fn written_messages_come_out_in_order(
    d: DirView,
    lines: Seq<Seq<char>>,
    messages: Seq<Seq<char>>,
    mode: Mode,
    idle_interval_secs: u64,
    times: Seq<u64>,
)
    requires
        awaits(d, inbox_bytes(lines), 0),
        lines_write(lines, messages),
        forall|i: int| 0 <= i < lines.len() ==> line_is_read(#[trigger] lines[i]),
        times.len() == messages.len() + 1,
    ensures
        ({
            let decisions = session(d, mode, idle_interval_secs, times);
            &&& decisions.len() == messages.len() + 1
            &&& forall|i: int|
                0 <= i < messages.len() ==> #[trigger] decisions[i] == Ok::<_, ErrorView>(
                    DecisionView::Block(messages[i]),
                )
            &&& decisions.last() == Ok::<_, ErrorView>(
                match mode {
                    Mode::Drain => DecisionView::Block("/exit"@),
                    Mode::Persist => DecisionView::IdleTick,
                },
            )
        }),
{
    let bytes = inbox_bytes(lines);
    let none = Seq::<u8>::empty();
    assert(none + bytes =~= bytes);
    written_messages_are_the_entries(none, lines, messages);
    session_delivers_every_entry_in_order(d, bytes, 0, mode, idle_interval_secs, times);
    let all = entries(bytes, 0);
    let decisions = session(d, mode, idle_interval_secs, times);
    assert forall|i: int| 0 <= i < messages.len() implies #[trigger] decisions[i] == Ok::<
        _,
        ErrorView,
    >(DecisionView::Block(messages[i])) by {
        assert(all[i].decoded == messages[i]);
    }
}

} // verus!
