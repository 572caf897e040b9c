//! Bounded-retry policy for the connection and authentication steps.
//!
//! A fallible step is attempted up to a fixed number of times. A failure
//! that signals the known transient condition ("temporarily unavailable")
//! is retried after a fixed wait; any other failure aborts at once. When
//! every attempt reports the transient condition the step is reported as
//! exhausted. The policy wraps only the connect and authenticate steps,
//! never individual listings or transfers.

use vstd::prelude::*;

verus! {

/// Maximum number of attempts for one guarded step.
pub const MAX_CONNECT_ATTEMPTS: u64 = 5;

/// Fixed wait, in seconds, between two attempts after a transient failure.
pub const RETRY_DELAY_SECS: u64 = 5;

/// How one attempt of the guarded step ended, as classified by the caller:
/// `Transient` is the explicit "temporarily unavailable" condition, every
/// other failure is `Fatal`.
#[derive(Clone, Copy, Debug, PartialEq, Eq, Structural)]
pub enum StepOutcome {
    Success,
    Transient,
    Fatal,
}

/// What the driver of the guarded step must do after reporting an attempt.
#[derive(Clone, Copy, Debug, PartialEq, Eq, Structural)]
pub enum RetryDirective {
    /// The step succeeded; go on with the run.
    Done,
    /// Wait `RETRY_DELAY_SECS` seconds, then attempt the step again.
    WaitThenRetry,
    /// A non-transient failure; abort the run at once, without retrying.
    AbortFatal,
    /// Every attempt reported the transient condition; abort the run.
    AbortExhausted,
}

/// Final report of a guarded step.
#[derive(Clone, Copy, Debug, PartialEq, Eq, Structural)]
pub enum RetryResult {
    Connected,
    FailedFatal,
    Exhausted,
}

/// Directive after an attempt ends with `outcome`, when `made` attempts
/// (this one included) have been made out of `max`.
pub open spec fn spec_directive(outcome: StepOutcome, made: nat, max: nat) -> RetryDirective {
    match outcome {
        StepOutcome::Success => RetryDirective::Done,
        StepOutcome::Fatal => RetryDirective::AbortFatal,
        StepOutcome::Transient => if made < max {
            RetryDirective::WaitThenRetry
        } else {
            RetryDirective::AbortExhausted
        },
    }
}

/// Result, attempts made and total seconds waited when a step whose
/// successive attempts end as `outcomes` prescribes is driven with
/// `left` attempts still allowed. Only the first `left` outcomes can
/// ever be reached.
pub open spec fn spec_retry_run(outcomes: Seq<StepOutcome>, left: nat) -> (RetryResult, nat, nat)
    decreases left,
{
    if left == 0 {
        (RetryResult::Exhausted, 0, 0)
    } else {
        match outcomes[0] {
            StepOutcome::Success => (RetryResult::Connected, 1, 0),
            StepOutcome::Fatal => (RetryResult::FailedFatal, 1, 0),
            StepOutcome::Transient => if left == 1 {
                (RetryResult::Exhausted, 1, 0)
            } else {
                let rest = spec_retry_run(outcomes.drop_first(), (left - 1) as nat);
                (rest.0, (rest.1 + 1) as nat, (rest.2 + RETRY_DELAY_SECS) as nat)
            },
        }
    }
}

/// Attempt counter for one guarded step.
pub struct RetryPolicy {
    pub attempts_made: u64,
    pub max_attempts: u64,
}

impl RetryPolicy {
    /// A fresh policy for one guarded step, with the fixed attempt bound.
    pub fn new() -> (r: RetryPolicy)
        ensures
            r.attempts_made == 0,
            r.max_attempts == MAX_CONNECT_ATTEMPTS,
    {
        RetryPolicy { attempts_made: 0, max_attempts: MAX_CONNECT_ATTEMPTS }
    }

    /// Whether another attempt may still be made.
    pub fn may_attempt(&self) -> (r: bool)
        ensures
            r == (self.attempts_made < self.max_attempts),
    {
        self.attempts_made < self.max_attempts
    }

    /// Records that one attempt was made and how it ended, and says what
    /// the driver must do next.
    pub fn on_outcome(&mut self, outcome: StepOutcome) -> (r: RetryDirective)
        requires
            old(self).attempts_made < old(self).max_attempts,
        ensures
            final(self).attempts_made == old(self).attempts_made + 1,
            final(self).max_attempts == old(self).max_attempts,
            r == spec_directive(
                outcome,
                (old(self).attempts_made + 1) as nat,
                old(self).max_attempts as nat,
            ),
    {
        self.attempts_made = self.attempts_made + 1;
        match outcome {
            StepOutcome::Success => RetryDirective::Done,
            StepOutcome::Fatal => RetryDirective::AbortFatal,
            StepOutcome::Transient => if self.attempts_made < self.max_attempts {
                RetryDirective::WaitThenRetry
            } else {
                RetryDirective::AbortExhausted
            },
        }
    }
}

/// Drives one guarded step whose attempts end as `outcomes` prescribes,
/// and reports the result, the attempts made and the seconds waited.
/// The step is attempted at most `MAX_CONNECT_ATTEMPTS` times, so only
/// that many outcomes are ever read.
pub fn run_guarded_step(outcomes: &Vec<StepOutcome>) -> (r: (RetryResult, u64, u64))
    requires
        outcomes@.len() >= MAX_CONNECT_ATTEMPTS,
    ensures
        (r.0, r.1 as nat, r.2 as nat) == spec_retry_run(
            outcomes@,
            MAX_CONNECT_ATTEMPTS as nat,
        ),
        r.1 <= MAX_CONNECT_ATTEMPTS,
{
    let mut policy = RetryPolicy::new();
    let mut waited: u64 = 0;
    proof {
        assert(outcomes@.skip(0) =~= outcomes@);
    }
    loop
        invariant
            outcomes@.len() >= MAX_CONNECT_ATTEMPTS,
            policy.max_attempts == MAX_CONNECT_ATTEMPTS,
            policy.attempts_made < policy.max_attempts,
            policy.attempts_made <= outcomes@.len(),
            waited == policy.attempts_made * RETRY_DELAY_SECS,
            forall|i: int| 0 <= i < policy.attempts_made ==> outcomes@[i]
                == StepOutcome::Transient,
            spec_retry_run(outcomes@, MAX_CONNECT_ATTEMPTS as nat)
                == {
                    let rest = spec_retry_run(
                        outcomes@.skip(policy.attempts_made as int),
                        (MAX_CONNECT_ATTEMPTS - policy.attempts_made) as nat,
                    );
                    (rest.0, (rest.1 + policy.attempts_made) as nat,
                        (rest.2 + waited) as nat)
                },
        decreases policy.max_attempts - policy.attempts_made,
    {
        let ghost made_before = policy.attempts_made as int;
        let ghost suffix = outcomes@.skip(made_before);
        let outcome = outcomes[policy.attempts_made as usize];
        let directive = policy.on_outcome(outcome);
        proof {
            assert(suffix[0] == outcomes@[made_before]);
            assert(suffix.drop_first() =~= outcomes@.skip(made_before + 1));
        }
        match directive {
            RetryDirective::Done => {
                return (RetryResult::Connected, policy.attempts_made, waited);
            },
            RetryDirective::AbortFatal => {
                return (RetryResult::FailedFatal, policy.attempts_made, waited);
            },
            RetryDirective::AbortExhausted => {
                return (RetryResult::Exhausted, policy.attempts_made, waited);
            },
            RetryDirective::WaitThenRetry => {
                waited = waited + RETRY_DELAY_SECS;
            },
        }
    }
}

/// When every attempt reports the transient condition, the step is
/// attempted exactly `left` times, reported exhausted, and waits between
/// attempts total `(left - 1) * RETRY_DELAY_SECS` seconds.
pub proof fn lemma_retry_exhausted(outcomes: Seq<StepOutcome>, left: nat)
    requires
        left >= 1,
        forall|i: int| 0 <= i < outcomes.len() ==> outcomes[i] == StepOutcome::Transient,
        outcomes.len() >= left,
    ensures
        spec_retry_run(outcomes, left).0 == RetryResult::Exhausted,
        spec_retry_run(outcomes, left).1 == left,
        spec_retry_run(outcomes, left).2 == (left - 1) * RETRY_DELAY_SECS,
    decreases left,
{
    if left == 1 {
    } else {
        lemma_retry_exhausted(outcomes.drop_first(), (left - 1) as nat);
        assert((left - 1) * RETRY_DELAY_SECS
            == (left - 2) * RETRY_DELAY_SECS + RETRY_DELAY_SECS) by (nonlinear_arith);
    }
}

} // verus!
