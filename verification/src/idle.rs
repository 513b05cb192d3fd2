//! Idle detection: when a silent child is poked, when it counts as recovered, and when it is given
//! up.
//!
//! Times are nanoseconds on a monotonic clock.

use vstd::prelude::*;
use vstd::utf8::encode_utf8;

use crate::text::append_utf8;

verus! {

/// Configuration of idle detection.
///
/// When the terminal shows no output for `timeout_secs` seconds, a keepalive is injected: ESC ESC,
/// which cancels a stalled generation, then `prompt` and a carriage return. After `max_retries`
/// injections without recovery the child is killed.
#[derive(Debug)]
pub struct IdleConfig {
    /// Seconds of silence before a keepalive; zero turns idle detection off.
    pub timeout_secs: u64,
    /// The text that is injected.
    pub prompt: String,
    /// How many keepalives are injected before the child is given up.
    pub max_retries: u32,
}

impl Clone for IdleConfig {
    fn clone(&self) -> (r: Self)
        ensures
            r.timeout_secs == self.timeout_secs,
            r.prompt@ == self.prompt@,
            r.max_retries == self.max_retries,
    {
        IdleConfig {
            timeout_secs: self.timeout_secs,
            prompt: self.prompt.clone(),
            max_retries: self.max_retries,
        }
    }
}

/// State of idle detection.
#[derive(Debug)]
pub struct IdleState {
    /// Seconds of silence before a keepalive; zero turns idle detection off.
    pub timeout: u64,
    /// The text that is injected.
    pub prompt: String,
    /// How many keepalives are injected before the child is given up.
    pub max_retries: u32,
    /// How many were injected since the child last recovered.
    pub retry_count: u32,
    /// When the last of those was injected.
    pub last_keepalive: Option<u64>,
}

/// What an [`IdleState`] holds.
#[verifier::ext_equal]
pub struct IdleView {
    pub timeout: u64,
    pub prompt: Seq<char>,
    pub max_retries: u32,
    pub retry_count: u32,
    pub last_keepalive: Option<u64>,
}

impl View for IdleState {
    type V = IdleView;

    open spec fn view(&self) -> IdleView {
        IdleView {
            timeout: self.timeout,
            prompt: self.prompt@,
            max_retries: self.max_retries,
            retry_count: self.retry_count,
            last_keepalive: self.last_keepalive,
        }
    }
}

/// What one look at the silence comes to.
#[derive(Debug, Clone, Copy, PartialEq, Eq, Structural)]
pub enum IdleTick {
    /// The child is to be killed.
    Exhausted,
    /// A keepalive is to be injected.
    KeepaliveInjected,
    /// Output has resumed; the retries start over.
    Recovered,
    /// Nothing notable.
    Unchanged,
}

/// Nanoseconds in a second.
pub const NANOS_PER_SEC: u64 = 1_000_000_000;

/// How long after a keepalive a read is still presumed to be the terminal's echo of it. This is the
/// latency of the terminal, with headroom, and not the length of a reply: a longer value would deny
/// recovery to a child whose reply is short.
pub const KEEPALIVE_ECHO_SETTLE_SECS: u64 = 2;

/// Milliseconds between the cancelling bytes of a keepalive and its text.
pub const KEEPALIVE_PAUSE_MS: u64 = 50;

/// Whether there has been no output for `timeout` seconds, where that is not zero.
pub open spec fn silent_for(timeout: u64, last_output: u64, now: u64) -> bool {
    timeout > 0 && now - last_output >= timeout * NANOS_PER_SEC
}

impl IdleView {
    /// Whether a keepalive's time is known wherever one counts.
    pub open spec fn wf(self) -> bool {
        self.retry_count > 0 ==> self.last_keepalive is Some
    }

    /// Whether there has been no output for the timeout, where there is one.
    pub open spec fn silent(self, last_output: u64, now: u64) -> bool {
        silent_for(self.timeout, last_output, now)
    }

    /// Whether the last output came after the echo of the last keepalive.
    pub open spec fn past_echo(self, last_output: u64) -> bool {
        self.last_keepalive matches Some(sent) && last_output >= sent + KEEPALIVE_ECHO_SETTLE_SECS
            * NANOS_PER_SEC
    }

    /// What a look at the silence comes to.
    pub open spec fn ticked(self, last_output: u64, now: u64) -> IdleTick {
        if self.silent(last_output, now) {
            if self.retry_count >= self.max_retries {
                IdleTick::Exhausted
            } else {
                IdleTick::KeepaliveInjected
            }
        } else if self.timeout > 0 && self.retry_count > 0 && self.past_echo(last_output) {
            IdleTick::Recovered
        } else {
            IdleTick::Unchanged
        }
    }

    /// The state after a look at the silence.
    pub open spec fn after_tick(self, last_output: u64, now: u64) -> IdleView {
        match self.ticked(last_output, now) {
            IdleTick::KeepaliveInjected => IdleView {
                retry_count: (self.retry_count + 1) as u32,
                last_keepalive: Some(now),
                ..self
            },
            IdleTick::Recovered => IdleView { retry_count: 0, last_keepalive: None, ..self },
            _ => self,
        }
    }

    /// When output counts as last seen, after a look at the silence: a keepalive starts the
    /// silence over.
    pub open spec fn seen_after(self, last_output: u64, now: u64) -> u64 {
        if self.ticked(last_output, now) == IdleTick::KeepaliveInjected {
            now
        } else {
            last_output
        }
    }

    /// The state of idle detection at its start.
    pub open spec fn initial(idle: Option<IdleConfig>) -> IdleView {
        match idle {
            Some(config) => IdleView {
                timeout: config.timeout_secs,
                prompt: config.prompt@,
                max_retries: config.max_retries,
                retry_count: 0,
                last_keepalive: None,
            },
            None => IdleView {
                timeout: 0,
                prompt: "Continue"@,
                max_retries: 3,
                retry_count: 0,
                last_keepalive: None,
            },
        }
    }
}

impl IdleState {
    /// The state at the start of a run. Without a configuration, idle detection is off.
    pub fn from_config(idle: Option<&IdleConfig>) -> (r: Self)
        ensures
            r@ == IdleView::initial(
                match idle {
                    Some(config) => Some(*config),
                    None => None,
                },
            ),
            r@.wf(),
            match idle {
                Some(config) => r.timeout == config.timeout_secs && r.prompt@ == config.prompt@
                    && r.max_retries == config.max_retries,
                None => r.timeout == 0,
            },
            r.retry_count == 0,
            r.last_keepalive is None,
    {
        match idle {
            Some(config) => IdleState {
                timeout: config.timeout_secs,
                prompt: config.prompt.clone(),
                max_retries: config.max_retries,
                retry_count: 0,
                last_keepalive: None,
            },
            None => IdleState {
                timeout: 0,
                prompt: "Continue".to_owned(),
                max_retries: 3,
                retry_count: 0,
                last_keepalive: None,
            },
        }
    }

    /// Notes that the keepalive that was asked for has been written, at `now`. The silence is
    /// counted from there.
    pub fn keepalive_sent(&mut self, last_output: &mut u64, now: u64)
        ensures
            final(self)@ == (IdleView { last_keepalive: Some(now), ..old(self)@ }),
            *final(last_output) == now,
    {
        self.last_keepalive = Some(now);
        *last_output = now;
    }

    /// The bytes of a keepalive that come before the pause: ESC ESC. A single ESC could be taken
    /// for the start of a sequence.
    pub fn cancel_bytes(&self) -> (r: Vec<u8>)
        ensures
            r@ == seq![0x1bu8, 0x1bu8],
    {
        let mut r: Vec<u8> = Vec::new();
        r.push(0x1b);
        r.push(0x1b);
        assert(r@ =~= seq![0x1bu8, 0x1bu8]);
        r
    }

    /// The bytes of a keepalive that come after the pause: the prompt, and the carriage return
    /// that submits it.
    pub fn prompt_bytes(&self) -> (r: Vec<u8>)
        ensures
            r@ == encode_utf8(self.prompt@).push(0x0d),
    {
        let mut r: Vec<u8> = Vec::new();
        append_utf8(&mut r, self.prompt.as_str());
        r.push(0x0d);
        r
    }
}

/// Looks at the silence once.
///
/// Where a keepalive is asked for, it is counted and timed at `now`, and the silence starts over
/// from there; [`IdleState::keepalive_sent`] puts both times right once it has been written.
///
/// Output counts as recovery only where the last read came at or after the time at which the echo
/// of the keepalive has settled. That time has passed is not enough: a child that shows nothing but
/// the echo is given up in the end.
pub fn tick_idle(state: &mut IdleState, last_output: &mut u64, now: u64) -> (r: IdleTick)
    ensures
        r == old(state)@.ticked(*old(last_output), now),
        final(state)@ == old(state)@.after_tick(*old(last_output), now),
        *final(last_output) == old(state)@.seen_after(*old(last_output), now),
        old(state)@.wf() ==> final(state)@.wf(),
        old(state).timeout > 0 && now >= *old(last_output) + old(state).timeout * 1_000_000_000
            ==> r == if old(state).retry_count < old(state).max_retries {
            IdleTick::KeepaliveInjected
        } else {
            IdleTick::Exhausted
        },
        old(state).timeout == 0 || now < *old(last_output) + old(state).timeout * 1_000_000_000
            ==> r is Recovered || r is Unchanged,
        final(state).timeout == old(state).timeout,
        final(state).prompt@ == old(state).prompt@,
        final(state).max_retries == old(state).max_retries,
{
    if state.timeout == 0 {
        return IdleTick::Unchanged;
    }
    let silence: u64 = if now >= *last_output {
        now - *last_output
    } else {
        0
    };
    if silence as u128 >= state.timeout as u128 * NANOS_PER_SEC as u128 {
        if state.retry_count >= state.max_retries {
            return IdleTick::Exhausted;
        }
        state.retry_count = state.retry_count + 1;
        state.last_keepalive = Some(now);
        *last_output = now;
        IdleTick::KeepaliveInjected
    } else if state.retry_count > 0 {
        let past_echo_settle = match state.last_keepalive {
            Some(sent) => *last_output as u128 >= sent as u128 + KEEPALIVE_ECHO_SETTLE_SECS as u128
                * NANOS_PER_SEC as u128,
            None => false,
        };
        if past_echo_settle {
            state.retry_count = 0;
            state.last_keepalive = None;
            IdleTick::Recovered
        } else {
            IdleTick::Unchanged
        }
    } else {
        IdleTick::Unchanged
    }
}

/// One look at the silence: when the last output was read, and when the look is.
#[verifier::ext_equal]
pub struct Poll {
    pub last_output: u64,
    pub now: u64,
}

/// What several looks come to, one after another.
pub open spec fn ticks(state: IdleView, polls: Seq<Poll>) -> Seq<IdleTick>
    decreases polls.len(),
{
    if polls.len() == 0 {
        Seq::empty()
    } else {
        let poll = polls[0];
        seq![state.ticked(poll.last_output, poll.now)] + ticks(
            state.after_tick(poll.last_output, poll.now),
            polls.drop_first(),
        )
    }
}

/// Whether the child shows nothing but the echo of keepalives.
pub open spec fn only_echo(state: IdleView, polls: Seq<Poll>) -> bool
    decreases polls.len(),
{
    polls.len() > 0 ==> {
        let poll = polls[0];
        !state.past_echo(poll.last_output) && only_echo(
            state.after_tick(poll.last_output, poll.now),
            polls.drop_first(),
        )
    }
}

/// How many of the looks find the child silent for the timeout.
pub open spec fn silences(timeout: u64, polls: Seq<Poll>) -> nat
    decreases polls.len(),
{
    if polls.len() == 0 {
        0
    } else {
        let rest = silences(timeout, polls.drop_first());
        if silent_for(timeout, polls[0].last_output, polls[0].now) {
            rest + 1
        } else {
            rest
        }
    }
}

/// A child that shows nothing but the echo of keepalives is given up: each silence takes a retry,
/// nothing gives one back, and the silence after the last retry exhausts them.
pub proof fn silence_exhausts_the_retries(state: IdleView, polls: Seq<Poll>)
    requires
        only_echo(state, polls),
        state.retry_count <= state.max_retries,
        silences(state.timeout, polls) > state.max_retries - state.retry_count,
    ensures
        ticks(state, polls).contains(IdleTick::Exhausted),
    decreases polls.len(),
{
    if polls.len() == 0 {
        assert(silences(state.timeout, polls) == 0);
    } else {
        let poll = polls[0];
        let tick = state.ticked(poll.last_output, poll.now);
        let after = state.after_tick(poll.last_output, poll.now);
        let rest = ticks(after, polls.drop_first());
        let all = ticks(state, polls);
        assert(all[0] == tick);
        if tick != IdleTick::Exhausted {
            silence_exhausts_the_retries(after, polls.drop_first());
            let i = choose|i: int| 0 <= i < rest.len() && rest[i] == IdleTick::Exhausted;
            assert(all[i + 1] == IdleTick::Exhausted);
        }
    }
}

/// How many keepalives are asked for.
pub open spec fn keepalives(ticks: Seq<IdleTick>) -> nat
    decreases ticks.len(),
{
    if ticks.len() == 0 {
        0
    } else {
        let rest = keepalives(ticks.drop_first());
        if ticks[0] == IdleTick::KeepaliveInjected {
            rest + 1
        } else {
            rest
        }
    }
}

/// A child that shows nothing but the echo of keepalives gets every retry that is left, and no
/// more, before it is given up. At the start of a run that is `max_retries`.
pub proof fn every_retry_is_used(state: IdleView, polls: Seq<Poll>, i: int)
    requires
        only_echo(state, polls),
        state.retry_count <= state.max_retries,
        0 <= i < polls.len(),
        i < ticks(state, polls).len(),
        ticks(state, polls)[i] == IdleTick::Exhausted,
        forall|j: int| 0 <= j < i ==> #[trigger] ticks(state, polls)[j] != IdleTick::Exhausted,
    ensures
        keepalives(ticks(state, polls).take(i)) == state.max_retries - state.retry_count,
    decreases polls.len(),
{
    let poll = polls[0];
    let tick = state.ticked(poll.last_output, poll.now);
    let after = state.after_tick(poll.last_output, poll.now);
    let all = ticks(state, polls);
    let rest = ticks(after, polls.drop_first());
    assert(all =~= seq![tick] + rest);
    assert(all[0] == tick);
    if i == 0 {
        assert(all.take(0) =~= Seq::<IdleTick>::empty());
    } else {
        assert(all[i] == rest[i - 1]);
        assert forall|j: int| 0 <= j < i - 1 implies #[trigger] rest[j]
            != IdleTick::Exhausted by {
            assert(all[j + 1] == rest[j]);
        }
        assert(all[0] != IdleTick::Exhausted);
        every_retry_is_used(after, polls.drop_first(), i - 1);
        assert(all.take(i).drop_first() =~= rest.take(i - 1));
    }
}

/// Idle detection starts as it was configured, with no retry used; without a configuration it is
/// off.
pub proof fn detection_starts_as_configured(idle: Option<IdleConfig>)
    ensures
        ({
            let state = IdleView::initial(idle);
            &&& state.retry_count == 0
            &&& state.last_keepalive is None
            &&& match idle {
                Some(config) => state.timeout == config.timeout_secs && state.prompt
                    == config.prompt@ && state.max_retries == config.max_retries,
                None => state.timeout == 0,
            }
        }),
{
}

/// What a look at the silence comes to, in seconds. After `timeout` seconds without output, and not
/// before, a keepalive is asked for while there are retries left, and the child is given up once
/// there are none. Output that came two seconds or more after the last keepalive gives the retries
/// back; what came sooner may be its echo. A keepalive takes one retry and starts the silence over;
/// nothing else changes the state, and nothing changes what was configured.
pub proof fn looks_follow_the_silence(state: IdleView, last_output: u64, now: u64)
    requires
        state.wf(),
    ensures
        ({
            let tick = state.ticked(last_output, now);
            let after = state.after_tick(last_output, now);
            let silent = state.timeout > 0 && now >= last_output + state.timeout * 1_000_000_000;
            let heard = state.retry_count > 0 && last_output >= state.last_keepalive->0
                + 2_000_000_000;
            &&& after.wf()
            &&& after.timeout == state.timeout
            &&& after.prompt == state.prompt
            &&& after.max_retries == state.max_retries
            &&& tick is KeepaliveInjected <==> silent && state.retry_count < state.max_retries
            &&& tick is Exhausted <==> silent && state.retry_count >= state.max_retries
            &&& tick is Recovered <==> state.timeout > 0 && !silent && heard
            &&& tick is KeepaliveInjected ==> {
                &&& after.retry_count == state.retry_count + 1
                &&& after.last_keepalive == Some(now)
                &&& state.seen_after(last_output, now) == now
            }
            &&& !(tick is KeepaliveInjected) ==> state.seen_after(last_output, now) == last_output
            &&& tick is Recovered ==> after.retry_count == 0 && after.last_keepalive is None
            &&& tick is Exhausted || tick is Unchanged ==> after == state
        }),
{
}

/// A child is given up only when every retry has been used and it is silent again.
pub proof fn only_used_up_retries_exhaust(state: IdleView, last_output: u64, now: u64)
    requires
        state.ticked(last_output, now) == IdleTick::Exhausted,
    ensures
        state.retry_count >= state.max_retries,
        state.silent(last_output, now),
{
}

/// Output that comes once the echo has settled, however briefly, gives every retry back.
pub proof fn genuine_output_recovers(state: IdleView, last_output: u64, now: u64)
    requires
        state.timeout > 0,
        state.retry_count > 0,
        state.past_echo(last_output),
        !state.silent(last_output, now),
    ensures
        state.ticked(last_output, now) == IdleTick::Recovered,
        state.after_tick(last_output, now).retry_count == 0,
{
}

/// With a timeout of zero nothing is ever done.
pub proof fn zero_timeout_turns_detection_off(state: IdleView, last_output: u64, now: u64)
    requires
        state.timeout == 0,
    ensures
        state.ticked(last_output, now) == IdleTick::Unchanged,
        state.after_tick(last_output, now) == state,
{
}

/// A keepalive pauses for 50 ms between its two parts.
pub proof fn keepalives_pause_briefly()
    ensures
        KEEPALIVE_PAUSE_MS == 50,
{
}

} // verus!
