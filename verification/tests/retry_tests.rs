use remote_mirror::retry::MAX_CONNECT_ATTEMPTS;
use remote_mirror::retry::RETRY_DELAY_SECS;
use remote_mirror::retry::RetryDirective;
use remote_mirror::retry::RetryPolicy;
use remote_mirror::retry::RetryResult;
use remote_mirror::retry::StepOutcome;
use remote_mirror::retry::run_guarded_step;

#[test]
fn always_transient_is_attempted_five_times_then_exhausted() {
    let outcomes = vec![StepOutcome::Transient; MAX_CONNECT_ATTEMPTS as usize];
    let (result, attempts, waited) = run_guarded_step(&outcomes);
    assert_eq!(result, RetryResult::Exhausted);
    assert_eq!(attempts, 5);
    assert_eq!(waited, 4 * RETRY_DELAY_SECS);
}

#[test]
fn immediate_success_needs_one_attempt_and_no_wait() {
    let mut outcomes = vec![StepOutcome::Transient; MAX_CONNECT_ATTEMPTS as usize];
    outcomes[0] = StepOutcome::Success;
    let (result, attempts, waited) = run_guarded_step(&outcomes);
    assert_eq!(result, RetryResult::Connected);
    assert_eq!(attempts, 1);
    assert_eq!(waited, 0);
}

#[test]
fn fatal_failure_aborts_at_once() {
    let mut outcomes = vec![StepOutcome::Transient; MAX_CONNECT_ATTEMPTS as usize];
    outcomes[0] = StepOutcome::Fatal;
    let (result, attempts, waited) = run_guarded_step(&outcomes);
    assert_eq!(result, RetryResult::FailedFatal);
    assert_eq!(attempts, 1);
    assert_eq!(waited, 0);
}

#[test]
fn one_transient_then_success_waits_once() {
    let mut outcomes = vec![StepOutcome::Transient; MAX_CONNECT_ATTEMPTS as usize];
    outcomes[1] = StepOutcome::Success;
    let (result, attempts, waited) = run_guarded_step(&outcomes);
    assert_eq!(result, RetryResult::Connected);
    assert_eq!(attempts, 2);
    assert_eq!(waited, RETRY_DELAY_SECS);
}

#[test]
fn fatal_after_transients_is_not_retried() {
    let mut outcomes = vec![StepOutcome::Transient; MAX_CONNECT_ATTEMPTS as usize];
    outcomes[2] = StepOutcome::Fatal;
    let (result, attempts, waited) = run_guarded_step(&outcomes);
    assert_eq!(result, RetryResult::FailedFatal);
    assert_eq!(attempts, 3);
    assert_eq!(waited, 2 * RETRY_DELAY_SECS);
}

#[test]
fn directives_follow_the_outcome_classification() {
    let mut policy = RetryPolicy::new();
    assert!(policy.may_attempt());
    assert_eq!(policy.on_outcome(StepOutcome::Transient), RetryDirective::WaitThenRetry);
    assert_eq!(policy.on_outcome(StepOutcome::Fatal), RetryDirective::AbortFatal);
    assert_eq!(policy.on_outcome(StepOutcome::Success), RetryDirective::Done);
}

#[test]
fn last_allowed_attempt_reports_exhausted_not_retry() {
    let mut policy = RetryPolicy::new();
    for _ in 0..MAX_CONNECT_ATTEMPTS - 1 {
        assert_eq!(policy.on_outcome(StepOutcome::Transient), RetryDirective::WaitThenRetry);
    }
    assert!(policy.may_attempt());
    assert_eq!(policy.on_outcome(StepOutcome::Transient), RetryDirective::AbortExhausted);
    assert!(!policy.may_attempt());
}
