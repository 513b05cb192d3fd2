//! A session directory: the inbox and the state files beside it.
//!
//! [`SessionDir`] is what the files of one session directory hold. The operations of this crate
//! read it, change it, and note each change in `effects`, in order. Whoever keeps the directory on
//! a disk performs the effects in that order and stops at the first one whose failure is an error
//! ([`SessionDir::carried_out`]); that error then stands before the operation's own result
//! ([`conclude`]). A crash between two effects leaves the directory as it is after a prefix of the
//! list ([`replay`]), and so does an error ([`an_error_leaves_a_prefix`]).

use vstd::prelude::*;

use crate::error::{ErrorView, HeartbeatError};
use crate::inbox::offset_file_for;
use crate::in_flight::{in_flight_file_for, in_flight_path, InFlightEntry, InFlightView};
use crate::paths::{directory_of, file_in, is_plain, sibling_path, FilePath, PathView};
use crate::text;

verus! {

/// What reading a file of bytes gave.
#[derive(Debug)]
pub enum FileBytes {
    /// There is no such file.
    Missing,
    /// The file could not be read, with the reason.
    Failed(String),
    /// The file's content.
    Bytes(Vec<u8>),
}

/// What reading a text file gave.
#[derive(Debug)]
pub enum FileText {
    /// There is no such file.
    Missing,
    /// The file could not be read, with the reason.
    Failed(String),
    /// The file's content.
    Text(String),
}

/// What reading `.in-flight` gave.
#[derive(Debug)]
pub enum FileEntry {
    /// There is no such file.
    Missing,
    /// The file could not be read, with the reason.
    Failed(String),
    /// The file is not the JSON text of an entry, with the reason.
    Corrupt(String),
    /// The entry that the file records.
    Entry(InFlightEntry),
}

/// What a [`FileBytes`] says.
#[verifier::ext_equal]
pub enum FileBytesView {
    Missing,
    Failed(Seq<char>),
    Bytes(Seq<u8>),
}

/// What a [`FileText`] says.
#[verifier::ext_equal]
pub enum FileTextView {
    Missing,
    Failed(Seq<char>),
    Text(Seq<char>),
}

/// What a [`FileEntry`] says.
#[verifier::ext_equal]
pub enum FileEntryView {
    Missing,
    Failed(Seq<char>),
    Corrupt(Seq<char>),
    Entry(InFlightView),
}

impl View for FileBytes {
    type V = FileBytesView;

    open spec fn view(&self) -> FileBytesView {
        match *self {
            FileBytes::Missing => FileBytesView::Missing,
            FileBytes::Failed(reason) => FileBytesView::Failed(reason@),
            FileBytes::Bytes(bytes) => FileBytesView::Bytes(bytes@),
        }
    }
}

impl View for FileText {
    type V = FileTextView;

    open spec fn view(&self) -> FileTextView {
        match *self {
            FileText::Missing => FileTextView::Missing,
            FileText::Failed(reason) => FileTextView::Failed(reason@),
            FileText::Text(text) => FileTextView::Text(text@),
        }
    }
}

impl View for FileEntry {
    type V = FileEntryView;

    open spec fn view(&self) -> FileEntryView {
        match *self {
            FileEntry::Missing => FileEntryView::Missing,
            FileEntry::Failed(reason) => FileEntryView::Failed(reason@),
            FileEntry::Corrupt(reason) => FileEntryView::Corrupt(reason@),
            FileEntry::Entry(entry) => FileEntryView::Entry(entry@),
        }
    }
}

/// One change to a session directory, or a pause.
#[derive(Debug)]
pub enum Effect {
    /// Replace the content of `.inbox-offset` by this number, atomically.
    WriteOffset(u64),
    /// Replace the content of `.in-flight` by this entry, atomically.
    WriteInFlight(InFlightEntry),
    /// Remove `.in-flight`.
    RemoveInFlight,
    /// Create `.responded`.
    TouchResponded,
    /// Remove `.responded`.
    RemoveResponded,
    /// Replace the content of `.dead-letter.jsonl` by these bytes, atomically.
    ReplaceDeadLetter(Vec<u8>),
    /// Remove `.dead-letter.jsonl.tmp`.
    RemoveDeadLetterTmp,
    /// Wait for this many seconds.
    Sleep(u64),
}

/// What an [`Effect`] says.
#[verifier::ext_equal]
pub enum EffectView {
    WriteOffset(u64),
    WriteInFlight(InFlightView),
    RemoveInFlight,
    TouchResponded,
    RemoveResponded,
    ReplaceDeadLetter(Seq<u8>),
    RemoveDeadLetterTmp,
    Sleep(u64),
}

impl View for Effect {
    type V = EffectView;

    open spec fn view(&self) -> EffectView {
        match *self {
            Effect::WriteOffset(offset) => EffectView::WriteOffset(offset),
            Effect::WriteInFlight(entry) => EffectView::WriteInFlight(entry@),
            Effect::RemoveInFlight => EffectView::RemoveInFlight,
            Effect::TouchResponded => EffectView::TouchResponded,
            Effect::RemoveResponded => EffectView::RemoveResponded,
            Effect::ReplaceDeadLetter(bytes) => EffectView::ReplaceDeadLetter(bytes@),
            Effect::RemoveDeadLetterTmp => EffectView::RemoveDeadLetterTmp,
            Effect::Sleep(secs) => EffectView::Sleep(secs),
        }
    }
}

/// The files of a session directory, and what was done to them.
#[derive(Debug)]
pub struct SessionDir {
    /// The path of the inbox. The other files stand beside it.
    pub inbox_path: FilePath,
    /// The inbox.
    pub inbox: FileBytes,
    /// `.inbox-offset`
    pub offset: FileText,
    /// `.in-flight`
    pub in_flight: FileEntry,
    /// Whether `.responded` exists.
    pub responded: bool,
    /// `.dead-letter.jsonl`
    pub dead_letter: FileBytes,
    /// Whether `.dead-letter.jsonl.tmp` exists.
    pub dead_letter_tmp: bool,
    /// What was done, oldest first.
    pub effects: Vec<Effect>,
}

/// What the files of a [`SessionDir`] hold.
#[verifier::ext_equal]
pub struct DirView {
    pub inbox_path: PathView,
    pub inbox: FileBytesView,
    pub offset: FileTextView,
    pub in_flight: FileEntryView,
    pub responded: bool,
    pub dead_letter: FileBytesView,
    pub dead_letter_tmp: bool,
}

impl View for SessionDir {
    type V = DirView;

    open spec fn view(&self) -> DirView {
        DirView {
            inbox_path: self.inbox_path@,
            inbox: self.inbox@,
            offset: self.offset@,
            in_flight: self.in_flight@,
            responded: self.responded,
            dead_letter: self.dead_letter@,
            dead_letter_tmp: self.dead_letter_tmp,
        }
    }
}

/// What an operation on a session directory comes to: its result, and what it does on the way.
pub struct Plan<T> {
    pub result: Result<T, ErrorView>,
    pub effects: Seq<EffectView>,
}

/// The directory after one effect.
pub open spec fn apply(d: DirView, e: EffectView) -> DirView {
    match e {
        EffectView::WriteOffset(offset) => DirView {
            offset: FileTextView::Text(text::decimal(offset as nat)),
            ..d
        },
        EffectView::WriteInFlight(entry) => DirView {
            in_flight: FileEntryView::Entry(entry),
            ..d
        },
        EffectView::RemoveInFlight => DirView { in_flight: FileEntryView::Missing, ..d },
        EffectView::TouchResponded => DirView { responded: true, ..d },
        EffectView::RemoveResponded => DirView { responded: false, ..d },
        EffectView::ReplaceDeadLetter(bytes) => DirView {
            dead_letter: FileBytesView::Bytes(bytes),
            ..d
        },
        EffectView::RemoveDeadLetterTmp => DirView { dead_letter_tmp: false, ..d },
        EffectView::Sleep(secs) => d,
    }
}

/// The directory after several effects, in order.
pub open spec fn replay(d: DirView, effects: Seq<EffectView>) -> DirView
    decreases effects.len(),
{
    if effects.len() == 0 {
        d
    } else {
        apply(replay(d, effects.drop_last()), effects.last())
    }
}

/// Effects in two batches are the effects in one.
pub proof fn replay_in_two(d: DirView, a: Seq<EffectView>, b: Seq<EffectView>)
    ensures
        replay(d, a + b) == replay(replay(d, a), b),
    decreases b.len(),
{
    if b.len() == 0 {
        assert(a + b =~= a);
    } else {
        replay_in_two(d, a, b.drop_last());
        assert((a + b).drop_last() =~= a + b.drop_last());
        assert((a + b).last() == b.last());
    }
}

/// One more effect.
pub proof fn replay_push(d: DirView, a: Seq<EffectView>, e: EffectView)
    ensures
        replay(d, a.push(e)) == apply(replay(d, a), e),
{
    assert(a.push(e).drop_last() =~= a);
}

/// No operation writes to the inbox: whatever effects take place, its bytes and its path stay as
/// they are.
pub proof fn effects_leave_the_inbox_alone(d: DirView, effects: Seq<EffectView>)
    ensures
        replay(d, effects).inbox == d.inbox,
        replay(d, effects).inbox_path == d.inbox_path,
    decreases effects.len(),
{
    if effects.len() > 0 {
        effects_leave_the_inbox_alone(d, effects.drop_last());
    }
}

/// The `.responded` file that belongs to an inbox.
pub open spec fn responded_path(inbox: PathView) -> PathView {
    sibling_path(inbox, ".responded"@)
}

/// The `.inbox-offset` file that belongs to an inbox.
pub open spec fn offset_path(inbox: PathView) -> PathView {
    sibling_path(inbox, ".inbox-offset"@)
}

/// The `.dead-letter.jsonl` file that belongs to an inbox.
pub open spec fn dead_letter_path(inbox: PathView) -> PathView {
    sibling_path(inbox, ".dead-letter.jsonl"@)
}

/// The `.dead-letter.jsonl.tmp` file that belongs to an inbox.
pub open spec fn dead_letter_tmp_path(inbox: PathView) -> PathView {
    sibling_path(inbox, ".dead-letter.jsonl.tmp"@)
}

/// The `.responded` file that belongs to the inbox at `inbox`: in the same directory.
pub fn responded_file_for(inbox: &FilePath) -> (r: FilePath)
    ensures
        r@ == responded_path(inbox@),
{
    proof {
        reveal_strlit(".responded");
        assert(is_plain(".responded"@));
    }
    inbox.sibling(".responded")
}

/// The `.dead-letter.jsonl` file that belongs to the inbox at `inbox`: in the same directory.
pub fn dead_letter_file_for(inbox: &FilePath) -> (r: FilePath)
    ensures
        r@ == dead_letter_path(inbox@),
{
    proof {
        reveal_strlit(".dead-letter.jsonl");
        assert(is_plain(".dead-letter.jsonl"@));
    }
    inbox.sibling(".dead-letter.jsonl")
}

/// The `.dead-letter.jsonl.tmp` file that belongs to the inbox at `inbox`: in the same directory.
pub fn dead_letter_tmp_file_for(inbox: &FilePath) -> (r: FilePath)
    ensures
        r@ == dead_letter_tmp_path(inbox@),
{
    proof {
        reveal_strlit(".dead-letter.jsonl.tmp");
        assert(is_plain(".dead-letter.jsonl.tmp"@));
    }
    inbox.sibling(".dead-letter.jsonl.tmp")
}

/// The error that a failed effect is, with the operating system's reason. A removal is made as
/// well as can be, and a pause cannot fail: those are no errors.
pub open spec fn effect_failure(
    inbox: PathView,
    e: EffectView,
    reason: Seq<char>,
) -> Option<ErrorView> {
    match e {
        EffectView::WriteOffset(_) => Some(
            ErrorView::OffsetWrite { path: offset_path(inbox).text, source: reason },
        ),
        EffectView::WriteInFlight(_) => Some(
            ErrorView::InFlightWrite { path: in_flight_path(inbox).text, source: reason },
        ),
        EffectView::TouchResponded => Some(
            ErrorView::InFlightWrite { path: responded_path(inbox).text, source: reason },
        ),
        EffectView::ReplaceDeadLetter(_) => Some(
            ErrorView::DeadLetterWrite { path: dead_letter_path(inbox).text, source: reason },
        ),
        EffectView::RemoveInFlight => None,
        EffectView::RemoveResponded => None,
        EffectView::RemoveDeadLetterTmp => None,
        EffectView::Sleep(_) => None,
    }
}

/// How the carrying out of effects goes on.
#[derive(Debug)]
pub enum Progress {
    /// With the effect at this index.
    Next(usize),
    /// Not at all: all effects are carried out.
    Finished,
    /// Not at all: an effect failed, and this is the error.
    Failed(HeartbeatError),
}

/// What a [`Progress`] says.
#[verifier::ext_equal]
pub enum ProgressView {
    Next(int),
    Finished,
    Failed(ErrorView),
}

impl View for Progress {
    type V = ProgressView;

    open spec fn view(&self) -> ProgressView {
        match *self {
            Progress::Next(i) => ProgressView::Next(i as int),
            Progress::Finished => ProgressView::Finished,
            Progress::Failed(e) => ProgressView::Failed(e@),
        }
    }
}

/// The error that the effect `e` comes to, which failed for the given reason or did not fail.
pub open spec fn error_of(
    inbox: PathView,
    e: EffectView,
    failure: Option<Seq<char>>,
) -> Option<ErrorView> {
    match failure {
        Some(reason) => effect_failure(inbox, e, reason),
        None => None,
    }
}

/// How the carrying out of `effects` goes on after the one at `i`, which failed for the given
/// reason or did not fail.
pub open spec fn progress_after(
    inbox: PathView,
    effects: Seq<EffectView>,
    i: int,
    failure: Option<Seq<char>>,
) -> ProgressView {
    match error_of(inbox, effects[i], failure) {
        Some(e) => ProgressView::Failed(e),
        None => if i + 1 == effects.len() {
            ProgressView::Finished
        } else {
            ProgressView::Next(i + 1)
        },
    }
}

/// A directory, and the error that stopped the carrying out of effects on it, if one did.
#[verifier::ext_equal]
pub struct Carried {
    pub dir: DirView,
    pub error: Option<ErrorView>,
}

/// What carrying out `effects` from `i` on comes to, when each fails for the given reason or does
/// not fail. An effect that fails changes nothing.
pub open spec fn carried(
    d: DirView,
    effects: Seq<EffectView>,
    failures: Seq<Option<Seq<char>>>,
    i: int,
) -> Carried
    decreases effects.len() - i,
{
    if i < 0 || i >= effects.len() {
        Carried { dir: d, error: None }
    } else {
        let now = if failures[i] is None {
            apply(d, effects[i])
        } else {
            d
        };
        match progress_after(d.inbox_path, effects, i, failures[i]) {
            ProgressView::Failed(e) => Carried { dir: now, error: Some(e) },
            ProgressView::Finished => Carried { dir: now, error: None },
            ProgressView::Next(next) => carried(now, effects, failures, i + 1),
        }
    }
}

/// What an operation comes to that has the plan `plan` and whose effects fail as given: the error
/// of an effect stands before the operation's own result.
pub open spec fn performed<T>(
    d: DirView,
    plan: Plan<T>,
    failures: Seq<Option<Seq<char>>>,
) -> Result<T, ErrorView> {
    match carried(d, plan.effects, failures, 0).error {
        Some(e) => Err(e),
        None => plan.result,
    }
}

proof fn lemma_carried(
    d: DirView,
    effects: Seq<EffectView>,
    failures: Seq<Option<Seq<char>>>,
    i: int,
    k: int,
)
    requires
        0 <= i <= k <= effects.len(),
        failures.len() == effects.len(),
        forall|j: int| 0 <= j < k ==> #[trigger] failures[j] is None,
        k < effects.len() ==> error_of(d.inbox_path, effects[k], failures[k]) is Some,
    ensures
        carried(replay(d, effects.take(i)), effects, failures, i) == (Carried {
            dir: replay(d, effects.take(k)),
            error: if k < effects.len() {
                error_of(d.inbox_path, effects[k], failures[k])
            } else {
                None
            },
        }),
    decreases k - i,
{
    effects_leave_the_inbox_alone(d, effects.take(i));
    if i < k {
        assert(failures[i] is None);
        assert(effects.take(i + 1) =~= effects.take(i).push(effects[i]));
        replay_push(d, effects.take(i), effects[i]);
        lemma_carried(d, effects, failures, i + 1, k);
    }
}

/// An error leaves the directory as a crash would: where the effect at `k` is the first to fail,
/// and its failure is an error, the effects before it have been carried out, those after it have
/// not, and the operation comes to that error.
pub proof fn an_error_leaves_a_prefix<T>(
    d: DirView,
    plan: Plan<T>,
    failures: Seq<Option<Seq<char>>>,
    k: int,
)
    requires
        0 <= k < plan.effects.len(),
        failures.len() == plan.effects.len(),
        forall|j: int| 0 <= j < k ==> #[trigger] failures[j] is None,
        error_of(d.inbox_path, plan.effects[k], failures[k]) is Some,
    ensures
        carried(d, plan.effects, failures, 0).dir == replay(d, plan.effects.take(k)),
        performed(d, plan, failures) == Err::<T, ErrorView>(
            error_of(d.inbox_path, plan.effects[k], failures[k])->0,
        ),
{
    assert(plan.effects.take(0) =~= Seq::<EffectView>::empty());
    lemma_carried(d, plan.effects, failures, 0, k);
}

/// Where no effect fails, all are carried out, and the operation comes to its own result.
pub proof fn without_failures_all_is_carried_out<T>(
    d: DirView,
    plan: Plan<T>,
    failures: Seq<Option<Seq<char>>>,
)
    requires
        failures.len() == plan.effects.len(),
        forall|j: int| 0 <= j < failures.len() ==> #[trigger] failures[j] is None,
    ensures
        carried(d, plan.effects, failures, 0).dir == replay(d, plan.effects),
        performed(d, plan, failures) == plan.result,
{
    let len = plan.effects.len() as int;
    assert(plan.effects.take(0) =~= Seq::<EffectView>::empty());
    assert(plan.effects.take(len) =~= plan.effects);
    lemma_carried(d, plan.effects, failures, 0, len);
}

/// Whether two directories have the same inbox and the same cursor.
pub open spec fn read_alike(a: DirView, b: DirView) -> bool {
    &&& a.inbox_path == b.inbox_path
    &&& a.inbox == b.inbox
    &&& a.offset == b.offset
}

/// Whatever effects fail, the inbox and the cursor are left as they are after the effects before
/// some `k`: all of them where there is no error, else those before the first failure that is one.
/// The effects whose failure is passed over touch neither.
pub proof fn failures_leave_a_prefix_to_be_read(
    d: DirView,
    effects: Seq<EffectView>,
    failures: Seq<Option<Seq<char>>>,
) -> (k: int)
    requires
        failures.len() == effects.len(),
    ensures
        0 <= k <= effects.len(),
        read_alike(carried(d, effects, failures, 0).dir, replay(d, effects.take(k))),
        forall|j: int|
            0 <= j < k ==> error_of(
                d.inbox_path,
                #[trigger] effects[j],
                #[trigger] failures[j],
            ) is None,
        k < effects.len() ==> error_of(d.inbox_path, effects[k], failures[k]) is Some,
{
    assert(effects.take(0) =~= Seq::<EffectView>::empty());
    lemma_carried_alike(d, d, effects, failures, 0)
}

proof fn lemma_carried_alike(
    now: DirView,
    d: DirView,
    effects: Seq<EffectView>,
    failures: Seq<Option<Seq<char>>>,
    i: int,
) -> (k: int)
    requires
        0 <= i <= effects.len(),
        failures.len() == effects.len(),
        read_alike(now, replay(d, effects.take(i))),
    ensures
        i <= k <= effects.len(),
        read_alike(carried(now, effects, failures, i).dir, replay(d, effects.take(k))),
        forall|j: int|
            i <= j < k ==> error_of(
                d.inbox_path,
                #[trigger] effects[j],
                #[trigger] failures[j],
            ) is None,
        k < effects.len() ==> error_of(d.inbox_path, effects[k], failures[k]) is Some,
    decreases effects.len() - i,
{
    effects_leave_the_inbox_alone(d, effects.take(i));
    if i == effects.len() {
        i
    } else if error_of(d.inbox_path, effects[i], failures[i]) is Some {
        i
    } else {
        assert(effects.take(i + 1) =~= effects.take(i).push(effects[i]));
        replay_push(d, effects.take(i), effects[i]);
        let next = if failures[i] is None {
            apply(now, effects[i])
        } else {
            now
        };
        lemma_carried_alike(next, d, effects, failures, i + 1)
    }
}

/// The result of an operation whose effects have been carried out: the error of an effect stands
/// before the operation's own result.
pub fn conclude<T>(failed: Option<HeartbeatError>, result: Result<T, HeartbeatError>) -> (r: Result<
    T,
    HeartbeatError,
>)
    ensures
        r == match failed {
            Some(e) => Err(e),
            None => result,
        },
{
    match failed {
        Some(e) => Err(e),
        None => result,
    }
}

/// A copy of `bytes`.
pub fn copy_bytes(bytes: &Vec<u8>) -> (r: Vec<u8>)
    ensures
        r@ == bytes@,
{
    let mut r: Vec<u8> = Vec::new();
    let mut i: usize = 0;
    while i < bytes.len()
        invariant
            i <= bytes.len(),
            r@ == bytes@.take(i as int),
        decreases bytes.len() - i,
    {
        r.push(bytes[i]);
        i = i + 1;
    }
    r
}

impl SessionDir {
    /// The effects so far, oldest first.
    pub open spec fn log(&self) -> Seq<EffectView> {
        self.effects@.map_values(|e: Effect| e@)
    }

    /// Whether `effects`, and nothing else, took the directory from `d` with the effects `log` to
    /// where it is.
    pub open spec fn reached(
        &self,
        d: DirView,
        log: Seq<EffectView>,
        effects: Seq<EffectView>,
    ) -> bool {
        self@ == replay(d, effects) && self.log() == log + effects
    }

    /// A directory that holds nothing yet, for the inbox at `inbox_path`.
    pub fn empty(inbox_path: FilePath) -> (r: Self)
        ensures
            r@ == (DirView {
                inbox_path: inbox_path@,
                inbox: FileBytesView::Missing,
                offset: FileTextView::Missing,
                in_flight: FileEntryView::Missing,
                responded: false,
                dead_letter: FileBytesView::Missing,
                dead_letter_tmp: false,
            }),
            r.log() == Seq::<EffectView>::empty(),
    {
        SessionDir {
            inbox_path,
            inbox: FileBytes::Missing,
            offset: FileText::Missing,
            in_flight: FileEntry::Missing,
            responded: false,
            dead_letter: FileBytes::Missing,
            dead_letter_tmp: false,
            effects: Vec::new(),
        }
    }

    /// Applies an effect to the files, and notes it.
    pub fn perform(&mut self, effect: Effect)
        ensures
            final(self)@ == apply(old(self)@, effect@),
            final(self).log() == old(self).log().push(effect@),
            forall|d: DirView, log: Seq<EffectView>, effects: Seq<EffectView>|
                #[trigger] old(self).reached(d, log, effects) ==> final(self).reached(
                    d,
                    log,
                    effects.push(effect@),
                ),
    {
        match &effect {
            Effect::WriteOffset(offset) => {
                self.offset = FileText::Text(text::decimal_text(*offset as u128));
            },
            Effect::WriteInFlight(entry) => {
                self.in_flight = FileEntry::Entry(entry.clone());
            },
            Effect::RemoveInFlight => {
                self.in_flight = FileEntry::Missing;
            },
            Effect::TouchResponded => {
                self.responded = true;
            },
            Effect::RemoveResponded => {
                self.responded = false;
            },
            Effect::ReplaceDeadLetter(bytes) => {
                self.dead_letter = FileBytes::Bytes(copy_bytes(bytes));
            },
            Effect::RemoveDeadLetterTmp => {
                self.dead_letter_tmp = false;
            },
            Effect::Sleep(_) => {},
        }
        self.effects.push(effect);
        proof {
            assert(self.log() =~= old(self).log().push(effect@));
            assert forall|d: DirView, log: Seq<EffectView>, effects: Seq<EffectView>| #[trigger]
                old(self).reached(d, log, effects) implies self.reached(
                d,
                log,
                effects.push(effect@),
            ) by {
                replay_push(d, effects, effect@);
                assert(log + effects.push(effect@) =~= (log + effects).push(effect@));
            }
        }
    }

    /// How the carrying out of the effects goes on after the one at `i`, which failed for the given
    /// reason or did not fail: it stops at the first failure that is an error, and passes over the
    /// others.
    pub fn carried_out(&self, i: usize, failure: Option<&str>) -> (r: Progress)
        requires
            i < self.effects@.len(),
        ensures
            r@ == progress_after(
                self.inbox_path@,
                self.log(),
                i as int,
                match failure {
                    Some(reason) => Some(reason@),
                    None => None,
                },
            ),
    {
        assert(self.log()[i as int] == self.effects@[i as int]@);
        let error = match failure {
            Some(reason) => self.failure(&self.effects[i], reason),
            None => None,
        };
        match error {
            Some(e) => Progress::Failed(e),
            None => if i == self.effects.len() - 1 {
                Progress::Finished
            } else {
                Progress::Next(i + 1)
            },
        }
    }

    /// The error that the failure of `effect` is, where it is one.
    pub fn failure(&self, effect: &Effect, reason: &str) -> (r: Option<HeartbeatError>)
        ensures
            match r {
                Some(e) => effect_failure(self.inbox_path@, effect@, reason@) == Some(e@),
                None => effect_failure(self.inbox_path@, effect@, reason@) is None,
            },
    {
        let inbox = &self.inbox_path;
        let source = reason.to_owned();
        match effect {
            Effect::WriteOffset(_) => Some(
                HeartbeatError::OffsetWrite { path: offset_file_for(inbox).text, source },
            ),
            Effect::WriteInFlight(_) => Some(
                HeartbeatError::InFlightWrite { path: in_flight_file_for(inbox).text, source },
            ),
            Effect::TouchResponded => Some(
                HeartbeatError::InFlightWrite { path: responded_file_for(inbox).text, source },
            ),
            Effect::ReplaceDeadLetter(_) => Some(
                HeartbeatError::DeadLetterWrite {
                    path: dead_letter_file_for(inbox).text,
                    source,
                },
            ),
            Effect::RemoveInFlight => None,
            Effect::RemoveResponded => None,
            Effect::RemoveDeadLetterTmp => None,
            Effect::Sleep(_) => None,
        }
    }
}

/// An effect touches its own file and no other, and what is written is what the file then holds.
pub proof fn effects_touch_their_own_file(
    d: DirView,
    offset: u64,
    entry: InFlightView,
    bytes: Seq<u8>,
)
    ensures
        ({
            let after = apply(d, EffectView::WriteOffset(offset));
            &&& after == DirView { offset: after.offset, ..d }
            &&& after.offset matches FileTextView::Text(content) && text::unsigned(
                text::trimmed(content),
            ) == Some(offset)
        }),
        apply(d, EffectView::WriteInFlight(entry)) == (DirView {
            in_flight: FileEntryView::Entry(entry),
            ..d
        }),
        apply(d, EffectView::RemoveInFlight) == (DirView {
            in_flight: FileEntryView::Missing,
            ..d
        }),
        apply(d, EffectView::TouchResponded) == (DirView { responded: true, ..d }),
        apply(d, EffectView::RemoveResponded) == (DirView { responded: false, ..d }),
        apply(d, EffectView::ReplaceDeadLetter(bytes)) == (DirView {
            dead_letter: FileBytesView::Bytes(bytes),
            ..d
        }),
        apply(d, EffectView::RemoveDeadLetterTmp) == (DirView { dead_letter_tmp: false, ..d }),
        apply(d, EffectView::Sleep(offset)) == d,
{
    text::decimal_reads_back(offset);
}

/// A write that fails is an error, which tells the file and the reason; whatever is written, it is
/// the same error. A removal that fails is none, nor is a wait.
pub proof fn failed_writes_are_errors(
    inbox: PathView,
    offset: u64,
    entry: InFlightView,
    bytes: Seq<u8>,
    source: Seq<char>,
)
    ensures
        effect_failure(inbox, EffectView::WriteOffset(offset), source) == Some(
            ErrorView::OffsetWrite { path: sibling_path(inbox, ".inbox-offset"@).text, source },
        ),
        effect_failure(inbox, EffectView::WriteInFlight(entry), source) == Some(
            ErrorView::InFlightWrite { path: sibling_path(inbox, ".in-flight"@).text, source },
        ),
        effect_failure(inbox, EffectView::TouchResponded, source) == Some(
            ErrorView::InFlightWrite { path: sibling_path(inbox, ".responded"@).text, source },
        ),
        effect_failure(inbox, EffectView::ReplaceDeadLetter(bytes), source) == Some(
            ErrorView::DeadLetterWrite {
                path: sibling_path(inbox, ".dead-letter.jsonl"@).text,
                source,
            },
        ),
        effect_failure(inbox, EffectView::RemoveInFlight, source) is None,
        effect_failure(inbox, EffectView::RemoveResponded, source) is None,
        effect_failure(inbox, EffectView::RemoveDeadLetterTmp, source) is None,
        effect_failure(inbox, EffectView::Sleep(offset), source) is None,
{
}

/// Effects are carried out one after another. A failure that is an error is the end of it; after
/// the last effect it is over; and else the next one follows.
pub proof fn effects_are_carried_out_in_order(
    inbox: PathView,
    effects: Seq<EffectView>,
    i: int,
    reason: Seq<char>,
)
    requires
        0 <= i < effects.len(),
    ensures
        progress_after(inbox, effects, i, None) == if i + 1 == effects.len() {
            ProgressView::Finished
        } else {
            ProgressView::Next(i + 1)
        },
        progress_after(inbox, effects, i, Some(reason)) == match effect_failure(
            inbox,
            effects[i],
            reason,
        ) {
            Some(e) => ProgressView::Failed(e),
            None => progress_after(inbox, effects, i, None),
        },
{
}

/// The files of a session stand beside the inbox, under their names.
pub proof fn session_files_stand_beside_the_inbox(inbox: PathView)
    ensures
        offset_path(inbox) == file_in(directory_of(inbox), ".inbox-offset"@),
        in_flight_path(inbox) == file_in(directory_of(inbox), ".in-flight"@),
        responded_path(inbox) == file_in(directory_of(inbox), ".responded"@),
        dead_letter_path(inbox) == file_in(directory_of(inbox), ".dead-letter.jsonl"@),
        dead_letter_tmp_path(inbox) == file_in(directory_of(inbox), ".dead-letter.jsonl.tmp"@),
{
}

} // verus!
