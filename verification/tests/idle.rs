use heartbeat_rs::idle::{
    tick_idle, IdleConfig, IdleState, IdleTick, KEEPALIVE_ECHO_SETTLE_SECS, NANOS_PER_SEC,
};

/// An instant, so many seconds after the clock's start.
fn at(secs: u64) -> u64 {
    secs * NANOS_PER_SEC
}

fn state(retry_count: u32, last_keepalive: Option<u64>) -> IdleState {
    IdleState {
        timeout: 1000,
        prompt: "Continue".to_string(),
        max_retries: 3,
        retry_count,
        last_keepalive,
    }
}

#[test]
fn idle_recovery_requires_genuine_output_past_echo_settle() {
    let now = at(5000);
    let mut state = IdleState {
        timeout: 1000,
        prompt: "Continue".to_string(),
        max_retries: 3,
        retry_count: 1,
        last_keepalive: Some(now - at(25)),
    };
    let mut last_output = now - at(24);

    let tick = tick_idle(&mut state, &mut last_output, now);

    assert_eq!(
        state.retry_count, 1,
        "retry counter must not reset without a genuine read past the echo-settle deadline"
    );
    assert!(
        !matches!(tick, IdleTick::Recovered),
        "must not report Recovered without genuine post-settle output"
    );
}

#[test]
fn idle_recovery_credited_for_genuine_post_settle_output() {
    let now = at(5000);
    let mut state = IdleState {
        timeout: 1000,
        prompt: "Continue".to_string(),
        max_retries: 3,
        retry_count: 1,
        last_keepalive: Some(now - at(25)),
    };
    let mut last_output = now - at(3);

    let tick = tick_idle(&mut state, &mut last_output, now);

    assert_eq!(
        state.retry_count, 0,
        "genuine output past the echo-settle deadline must reset the retry counter"
    );
    assert!(matches!(tick, IdleTick::Recovered));
}

#[test]
fn idle_recovery_credited_for_response_shorter_than_old_grace_window() {
    let now = at(5000);
    let mut state = IdleState {
        timeout: 1000,
        prompt: "Continue".to_string(),
        max_retries: 3,
        retry_count: 1,
        last_keepalive: Some(now - at(25)),
    };
    let mut last_output = now - at(17);

    let tick = tick_idle(&mut state, &mut last_output, now);

    assert_eq!(
        state.retry_count, 0,
        "a short genuine reply past the echo must be credited as recovery"
    );
    assert!(matches!(tick, IdleTick::Recovered));
}

#[test]
fn idle_recovery_boundary_is_inclusive_at_echo_settle_deadline() {
    let now = at(5000);
    let last_keepalive = now - at(30);
    let mut state = IdleState {
        timeout: 1000,
        prompt: "Continue".to_string(),
        max_retries: 3,
        retry_count: 1,
        last_keepalive: Some(last_keepalive),
    };
    let mut last_output = last_keepalive + at(KEEPALIVE_ECHO_SETTLE_SECS);

    let tick = tick_idle(&mut state, &mut last_output, now);

    assert_eq!(
        state.retry_count, 0,
        "a read landing exactly at the echo-settle deadline must be credited"
    );
    assert!(matches!(tick, IdleTick::Recovered));
}

#[test]
fn a_read_just_before_the_echo_settles_is_not_credited() {
    let now = at(5000);
    let sent = now - at(30);
    let mut s = state(1, Some(sent));
    let mut last_output = sent + at(KEEPALIVE_ECHO_SETTLE_SECS) - 1;
    let tick = tick_idle(&mut s, &mut last_output, now);
    assert_eq!(tick, IdleTick::Unchanged);
    assert_eq!(s.retry_count, 1);
    assert_eq!(s.last_keepalive, Some(sent));
}

#[test]
fn the_silence_must_reach_the_timeout() {
    let mut s = state(0, None);
    let mut last_output = at(10);
    assert_eq!(tick_idle(&mut s, &mut last_output, at(1010) - 1), IdleTick::Unchanged);
    assert_eq!(s.retry_count, 0);
    assert_eq!(last_output, at(10));
    assert_eq!(tick_idle(&mut s, &mut last_output, at(1010)), IdleTick::KeepaliveInjected);
    assert_eq!(s.retry_count, 1);
    assert_eq!(s.last_keepalive, Some(at(1010)));
    assert_eq!(last_output, at(1010), "the silence starts over");
    s.keepalive_sent(&mut last_output, at(1011));
    assert_eq!(s.last_keepalive, Some(at(1011)));
    assert_eq!(last_output, at(1011));
    assert_eq!(tick_idle(&mut s, &mut last_output, at(2011) - 1), IdleTick::Unchanged);
    assert_eq!(tick_idle(&mut s, &mut last_output, at(2011)), IdleTick::KeepaliveInjected);
    assert_eq!(s.timeout, 1000);
    assert_eq!(s.prompt, "Continue");
    assert_eq!(s.max_retries, 3);
}

#[test]
fn output_from_the_future_is_no_silence() {
    let mut s = state(0, None);
    assert_eq!(tick_idle(&mut s, &mut at(10), at(5)), IdleTick::Unchanged);
}

#[test]
fn a_child_that_only_echoes_is_given_up() {
    let config = IdleConfig { timeout_secs: 60, prompt: "go".to_string(), max_retries: 2 };
    let mut s = IdleState::from_config(Some(&config));
    let mut now = at(100);
    let mut last_output = now;
    let mut injected = 0;
    let mut ticks = 0;
    loop {
        now += at(1);
        ticks += 1;
        match tick_idle(&mut s, &mut last_output, now) {
            IdleTick::KeepaliveInjected => {
                injected += 1;
                s.keepalive_sent(&mut last_output, now);
                // The echo lands one second later, and nothing else does.
                last_output = now + at(1);
            }
            IdleTick::Exhausted => break,
            IdleTick::Recovered => panic!("an echo is no recovery"),
            IdleTick::Unchanged => {}
        }
        assert!(ticks < 1000);
    }
    assert_eq!(injected, 2);
}

#[test]
fn a_child_that_answers_each_keepalive_is_never_given_up() {
    let config = IdleConfig { timeout_secs: 60, prompt: "go".to_string(), max_retries: 1 };
    let mut s = IdleState::from_config(Some(&config));
    let mut now = at(100);
    let mut last_output = now;
    let mut recovered = 0;
    for _ in 0..10 {
        now = last_output + at(60);
        assert_eq!(tick_idle(&mut s, &mut last_output, now), IdleTick::KeepaliveInjected);
        s.keepalive_sent(&mut last_output, now);
        last_output = now + at(8);
        now += at(9);
        assert_eq!(tick_idle(&mut s, &mut last_output, now), IdleTick::Recovered);
        assert_eq!(s.last_keepalive, None);
        recovered += 1;
    }
    assert_eq!(recovered, 10);
}

#[test]
fn no_retries_means_no_keepalive() {
    let config = IdleConfig { timeout_secs: 5, prompt: "go".to_string(), max_retries: 0 };
    let mut s = IdleState::from_config(Some(&config));
    assert_eq!(tick_idle(&mut s, &mut 0, at(5)), IdleTick::Exhausted);
}

#[test]
fn without_a_configuration_detection_is_off() {
    let mut s = IdleState::from_config(None);
    assert_eq!(s.timeout, 0);
    assert_eq!(s.prompt, "Continue");
    assert_eq!(s.max_retries, 3);
    assert_eq!(tick_idle(&mut s, &mut 0, u64::MAX), IdleTick::Unchanged);
    assert_eq!(s.retry_count, 0);
}

#[test]
fn a_huge_timeout_never_fires() {
    let config = IdleConfig { timeout_secs: u64::MAX, prompt: "go".to_string(), max_retries: 0 };
    let mut s = IdleState::from_config(Some(&config));
    assert_eq!(tick_idle(&mut s, &mut 0, u64::MAX), IdleTick::Unchanged);
}

#[test]
fn a_keepalive_is_escape_escape_prompt_return() {
    let config = IdleConfig { timeout_secs: 5, prompt: "Go é".to_string(), max_retries: 1 };
    let s = IdleState::from_config(Some(&config));
    assert_eq!(s.cancel_bytes(), b"\x1b\x1b".to_vec());
    assert_eq!(s.prompt_bytes(), "Go é\r".as_bytes().to_vec());
}
