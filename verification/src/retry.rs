//! Retrying a Dropbox call that was declined for rate limiting.
//!
//! The calls and the sleeping between them are the caller's; this module
//! decides, after each attempt, whether to return what came back or to wait
//! and call again. At most six attempts are made in all.

use vstd::prelude::*;

verus! {

/// The number of attempts after which a rate-limited call is given up.
pub const MAX_ATTEMPTS: u32 = 6;

/// How one attempt of a call ended, as far as retrying is concerned.
#[derive(Clone, Copy, Debug, PartialEq, Eq)]
pub enum CallOutcome {
    /// The call succeeded.
    Success,
    /// The call was declined for rate limiting; the server asks to wait this long.
    RateLimited { retry_after_seconds: u32 },
    /// The call failed for any other reason.
    Failure,
}

/// What to do after an attempt.
#[derive(Clone, Copy, Debug, PartialEq, Eq)]
pub enum RetryAction {
    /// Return the successful result.
    ReturnSuccess,
    /// Return the error, without retrying.
    ReturnFailure,
    /// Sleep this many seconds, then call again.
    Wait { seconds: u64 },
    /// The last allowed attempt was rate limited: return that error.
    GiveUp,
}

/// Whether an action ends the retrying.
pub open spec fn is_final(a: RetryAction) -> bool {
    !(a is Wait)
}

/// The seconds to wait after a rate-limited attempt: what the server asked
/// for, and at least one.
pub open spec fn wait_seconds(retry_after_seconds: u32) -> u64 {
    if retry_after_seconds < 1 {
        1
    } else {
        retry_after_seconds as u64
    }
}

/// After `attempts` earlier attempts, the attempt that ended with `outcome`
/// leads to this count of attempts and this action.
pub open spec fn retry_step(attempts: nat, outcome: CallOutcome) -> (nat, RetryAction) {
    let made = attempts + 1;
    match outcome {
        CallOutcome::Success => (made, RetryAction::ReturnSuccess),
        CallOutcome::Failure => (made, RetryAction::ReturnFailure),
        CallOutcome::RateLimited { retry_after_seconds } => if made >= MAX_ATTEMPTS {
            (made, RetryAction::GiveUp)
        } else {
            (made, RetryAction::Wait { seconds: wait_seconds(retry_after_seconds) })
        },
    }
}

/// The count of attempts after which a run of outcomes, starting after
/// `attempts` attempts, reaches a final action; `None` when the outcomes run
/// out first.
pub open spec fn attempts_until_final(attempts: nat, outcomes: Seq<CallOutcome>) -> Option<nat>
    decreases outcomes.len(),
{
    if outcomes.len() == 0 {
        None
    } else {
        let (made, action) = retry_step(attempts, outcomes[0]);
        if is_final(action) {
            Some(1)
        } else {
            match attempts_until_final(made, outcomes.drop_first()) {
                Some(k) => Some(k + 1),
                None => None,
            }
        }
    }
}

/// The retry state of one call: how many attempts have been made.
pub struct RateLimitRetry {
    attempts: u32,
}

impl RateLimitRetry {
    /// The number of attempts made so far.
    pub closed spec fn attempts_made(&self) -> nat {
        self.attempts as nat
    }

    /// A call that has not been attempted yet.
    pub fn new() -> (r: Self)
        ensures
            r.attempts_made() == 0,
    {
        RateLimitRetry { attempts: 0 }
    }

    /// Records how an attempt ended and says what to do next. Only called
    /// while fewer than `MAX_ATTEMPTS` attempts have been made, which holds
    /// after every `Wait`.
    pub fn after_attempt(&mut self, outcome: CallOutcome) -> (action: RetryAction)
        requires
            old(self).attempts_made() < MAX_ATTEMPTS,
        ensures
            (final(self).attempts_made(), action) == retry_step(old(self).attempts_made(), outcome),
            action is Wait ==> final(self).attempts_made() < MAX_ATTEMPTS,
    {
        self.attempts = self.attempts + 1;
        match outcome {
            CallOutcome::Success => RetryAction::ReturnSuccess,
            CallOutcome::Failure => RetryAction::ReturnFailure,
            CallOutcome::RateLimited { retry_after_seconds } => {
                if self.attempts >= MAX_ATTEMPTS {
                    RetryAction::GiveUp
                } else if retry_after_seconds < 1 {
                    RetryAction::Wait { seconds: 1 }
                } else {
                    RetryAction::Wait { seconds: retry_after_seconds as u64 }
                }
            },
        }
    }
}

/// Every wait lasts at least one second, and as long as the server asked.
pub proof fn law_wait_is_at_least_one_second(attempts: nat, outcome: CallOutcome)
    ensures
        retry_step(attempts, outcome).1 matches RetryAction::Wait { seconds } ==> seconds >= 1
            && (outcome matches CallOutcome::RateLimited { retry_after_seconds } && seconds
            >= retry_after_seconds),
{
}

/// Whatever the outcomes, a call is attempted at most `MAX_ATTEMPTS` times:
/// from any count of earlier attempts below the limit, a final action comes
/// by the attempt that reaches the limit.
pub proof fn law_at_most_six_attempts(attempts: nat, outcomes: Seq<CallOutcome>)
    requires
        attempts < MAX_ATTEMPTS,
        outcomes.len() >= MAX_ATTEMPTS - attempts,
    ensures
        attempts_until_final(attempts, outcomes) matches Some(k) && 1 <= k <= MAX_ATTEMPTS
            - attempts,
    decreases outcomes.len(),
{
    let (made, action) = retry_step(attempts, outcomes[0]);
    if !is_final(action) {
        law_at_most_six_attempts(made, outcomes.drop_first());
    }
}

/// A call that is rate limited every time is attempted exactly
/// `MAX_ATTEMPTS` times, waiting after each attempt but the last, and then
/// given up.
pub proof fn law_always_rate_limited_gives_up_on_sixth(attempts: nat, outcomes: Seq<CallOutcome>)
    requires
        attempts < MAX_ATTEMPTS,
        outcomes.len() >= MAX_ATTEMPTS - attempts,
        forall|i: int| 0 <= i < outcomes.len() ==> #[trigger] outcomes[i] is RateLimited,
    ensures
        attempts_until_final(attempts, outcomes) == Some((MAX_ATTEMPTS - attempts) as nat),
        retry_step(attempts, outcomes[0]).1 is GiveUp <==> attempts + 1 == MAX_ATTEMPTS,
    decreases outcomes.len(),
{
    assert(outcomes[0] is RateLimited);
    let (made, action) = retry_step(attempts, outcomes[0]);
    if !is_final(action) {
        assert forall|i: int| 0 <= i < outcomes.drop_first().len() implies #[trigger] outcomes.drop_first()[i] is RateLimited by {
            assert(outcomes[i + 1] is RateLimited);
        }
        law_always_rate_limited_gives_up_on_sixth(made, outcomes.drop_first());
    }
}

} // verus!
