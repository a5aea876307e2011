use std::time::Duration;
use systems::circuit_breaker::{CircuitBreaker, Error, Phase};

#[test]
fn test_closed_state_pass_through() {
    let mut cb = CircuitBreaker::new(3, Duration::from_secs(1));
    let res: Result<&str, Error<&str>> = cb.call(|| Ok("success"));
    assert_eq!(res, Ok("success"));
}

#[test]
fn test_failure_counting() {
    let mut cb = CircuitBreaker::new(2, Duration::from_secs(1));

    let res: Result<(), Error<&str>> = cb.call(|| Err("fail"));
    assert!(matches!(res, Err(Error::OperationFailed("fail"))));

    assert!(cb.is_accepting());

    let res: Result<(), Error<&str>> = cb.call(|| Err("fail"));
    assert!(matches!(res, Err(Error::OperationFailed("fail"))));

    assert_eq!(cb.phase_now(), Phase::Open);
}

#[test]
fn test_fail_fast_when_open() {
    let mut cb = CircuitBreaker::new(1, Duration::from_secs(10));

    let _: Result<(), Error<&str>> = cb.call(|| Err("boom"));

    let res: Result<(), Error<&str>> = cb.call(|| Ok(()));
    assert_eq!(res, Err(Error::CircuitOpen));
    assert!(!cb.is_accepting());
}

#[test]
fn test_success_resets_failure_count() {
    let mut cb = CircuitBreaker::new(3, Duration::from_secs(10));
    let _: Result<(), Error<&str>> = cb.call(|| Err("a"));
    let _: Result<(), Error<&str>> = cb.call(|| Err("b"));
    assert_eq!(cb.failure_count(), 2);
    let _: Result<(), Error<&str>> = cb.call(|| Ok(()));
    assert_eq!(cb.failure_count(), 0);
    assert_eq!(cb.phase_now(), Phase::Closed);
}

#[test]
fn test_trial_call_after_zero_timeout() {
    let mut cb = CircuitBreaker::new(1, Duration::from_millis(0));
    let _: Result<(), Error<&str>> = cb.call(|| Err("boom"));
    assert_eq!(cb.phase_now(), Phase::Open);
    let res: Result<&str, Error<&str>> = cb.call(|| Ok("recovered"));
    assert_eq!(res, Ok("recovered"));
    assert_eq!(cb.phase_now(), Phase::Closed);

    let _: Result<(), Error<&str>> = cb.call(|| Err("boom"));
    let res: Result<(), Error<&str>> = cb.call(|| Err("boom again"));
    assert!(matches!(res, Err(Error::OperationFailed("boom again"))));
    assert_eq!(cb.phase_now(), Phase::Open);
}

#[test]
fn circuit_call_at_fails_fast_until_the_timeout_passes() {
    let mut cb = CircuitBreaker::new(1, Duration::from_secs(10));
    assert!(cb.lets_through(false));
    let r: Result<(), Error<&str>> = cb.call_at(true, || Err("boom"));
    assert_eq!(r, Err(Error::OperationFailed("boom")));
    assert_eq!(cb.phase_now(), Phase::Open);
    assert!(!cb.lets_through(false));
    assert!(cb.lets_through(true));
    let ran = std::cell::Cell::new(false);
    let r: Result<(), Error<&str>> = cb.call_at(false, || {
        ran.set(true);
        Ok(())
    });
    assert_eq!(r, Err(Error::CircuitOpen));
    assert!(!ran.get());
    assert_eq!(cb.phase_now(), Phase::Open);
    // Once the timeout has passed, one trial call runs; a failure opens the circuit again.
    let r: Result<(), Error<&str>> = cb.call_at(true, || Err("again"));
    assert_eq!(r, Err(Error::OperationFailed("again")));
    assert_eq!(cb.phase_now(), Phase::Open);
    // A successful trial call closes it.
    let r: Result<u32, Error<&str>> = cb.call_at(true, || Ok(7));
    assert_eq!(r, Ok(7));
    assert_eq!(cb.phase_now(), Phase::Closed);
    assert_eq!(cb.failure_count(), 0);
}
