use guten_rs::fetch::{
    backoff_ms, jittered_backoff_ms, retry_step, FetchErrorKind, RetryPolicy, RetryState,
};

fn policy(max_attempts: u32) -> RetryPolicy {
    RetryPolicy { max_attempts, base_delay_ms: 100, jitter_ms: 0, rate_limit_ms: 0 }
}

#[test]
fn retry_cap_three_attempts() {
    // an endpoint that always answers with a server error
    let p = policy(3);
    let mut state = RetryState::Attempting(0);
    let mut attempts = 0;
    let mut last_failure = None;
    while let RetryState::Attempting(_) = state {
        attempts += 1;
        last_failure = Some(FetchErrorKind::HttpStatus(500));
        state = retry_step(&p, state, false);
    }
    // exactly three attempts, then the last failure is handed back
    assert_eq!(attempts, 3);
    assert_eq!(state, RetryState::Exhausted);
    assert_eq!(last_failure, Some(FetchErrorKind::HttpStatus(500)));
}

#[test]
fn success_ends_the_fetch() {
    let p = policy(3);
    let s1 = retry_step(&p, RetryState::Attempting(0), false);
    assert_eq!(s1, RetryState::Attempting(1));
    let s2 = retry_step(&p, s1, true);
    assert_eq!(s2, RetryState::Succeeded);
    // terminal states stay put
    assert_eq!(retry_step(&p, RetryState::Succeeded, false), RetryState::Succeeded);
    assert_eq!(retry_step(&p, RetryState::Exhausted, false), RetryState::Exhausted);
}

#[test]
fn backoff_doubles_per_attempt() {
    let p = policy(5);
    assert_eq!(backoff_ms(&p, 0, 0), 100);
    assert_eq!(backoff_ms(&p, 1, 0), 200);
    assert_eq!(backoff_ms(&p, 3, 0), 800);
    assert_eq!(backoff_ms(&p, 1, 7), 207);
}

#[test]
fn backoff_saturates() {
    let p = RetryPolicy {
        max_attempts: 3,
        base_delay_ms: u64::MAX / 2 + 1,
        jitter_ms: 0,
        rate_limit_ms: 0,
    };
    assert_eq!(backoff_ms(&p, 1, 0), u64::MAX);
    assert_eq!(backoff_ms(&p, 0, u64::MAX), u64::MAX);
}

#[test]
fn jitter_stays_in_bound() {
    let p = RetryPolicy { max_attempts: 3, base_delay_ms: 100, jitter_ms: 50, rate_limit_ms: 0 };
    for attempts in 0..3 {
        let plain = backoff_ms(&p, attempts, 0);
        let jittered = jittered_backoff_ms(&p, attempts);
        assert!(plain <= jittered);
        assert!(jittered < plain + 50);
    }
}
