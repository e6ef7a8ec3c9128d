use dropbox_cp::retry::{CallOutcome, RateLimitRetry, RetryAction, MAX_ATTEMPTS};

#[test]
fn success_is_returned_at_once() {
    let mut r = RateLimitRetry::new();
    assert_eq!(r.after_attempt(CallOutcome::Success), RetryAction::ReturnSuccess);
}

#[test]
fn other_failures_are_not_retried() {
    let mut r = RateLimitRetry::new();
    assert_eq!(r.after_attempt(CallOutcome::Failure), RetryAction::ReturnFailure);
}

#[test]
fn rate_limit_waits_as_asked_and_at_least_a_second() {
    let mut r = RateLimitRetry::new();
    assert_eq!(
        r.after_attempt(CallOutcome::RateLimited { retry_after_seconds: 7 }),
        RetryAction::Wait { seconds: 7 }
    );
    assert_eq!(
        r.after_attempt(CallOutcome::RateLimited { retry_after_seconds: 0 }),
        RetryAction::Wait { seconds: 1 }
    );
    assert_eq!(r.after_attempt(CallOutcome::Success), RetryAction::ReturnSuccess);
}

#[test]
fn always_rate_limited_gives_up_on_the_sixth_attempt() {
    let mut r = RateLimitRetry::new();
    let mut waits = 0;
    let mut attempts = 0;
    loop {
        attempts += 1;
        match r.after_attempt(CallOutcome::RateLimited { retry_after_seconds: 2 }) {
            RetryAction::Wait { seconds } => {
                assert_eq!(seconds, 2);
                waits += 1;
            }
            RetryAction::GiveUp => break,
            other => panic!("unexpected {:?}", other),
        }
    }
    assert_eq!(attempts, MAX_ATTEMPTS);
    assert_eq!(waits, 5);
}

#[test]
fn failure_after_waits_is_returned() {
    let mut r = RateLimitRetry::new();
    for _ in 0..4 {
        assert!(matches!(
            r.after_attempt(CallOutcome::RateLimited { retry_after_seconds: 1 }),
            RetryAction::Wait { .. }
        ));
    }
    assert_eq!(r.after_attempt(CallOutcome::Failure), RetryAction::ReturnFailure);
}
