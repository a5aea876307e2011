//! A circuit breaker: after `failure_threshold` consecutive failures the circuit opens and
//! calls fail fast; once `reset_timeout` has passed one trial call is let through, which
//! closes the circuit on success and opens it again on failure.

use crate::clock::{duration_at_least, instant_elapsed, instant_now};
use std::time::Duration;
use std::time::Instant;
use vstd::prelude::*;

verus! {

/// The three states of the circuit.
#[derive(Debug, Clone, Copy, PartialEq, Eq)]
pub enum Phase {
    Closed,
    Open,
    HalfOpen,
}

enum State {
    Closed,
    Open(Instant),
    HalfOpen,
}

pub struct CircuitBreaker {
    state: State,
    failure_count: usize,
    failure_threshold: usize,
    reset_timeout: Duration,
}

/// Why a guarded call failed.
#[derive(Debug, PartialEq)]
pub enum Error<E> {
    CircuitOpen,
    OperationFailed(E),
}

impl CircuitBreaker {
    pub closed spec fn phase(&self) -> Phase {
        match self.state {
            State::Closed => Phase::Closed,
            State::Open(_) => Phase::Open,
            State::HalfOpen => Phase::HalfOpen,
        }
    }

    pub closed spec fn failures(&self) -> nat {
        self.failure_count as nat
    }

    pub closed spec fn threshold(&self) -> nat {
        self.failure_threshold as nat
    }

    /// A closed circuit has seen fewer failures in a row than the threshold.
    pub closed spec fn wf(&self) -> bool {
        &&& self.phase() == Phase::Closed ==> (self.failure_count < self.failure_threshold
            || self.failure_count == 0)
        &&& self.failure_count <= self.failure_threshold || self.failure_count <= 1
    }

    pub fn new(failure_threshold: usize, reset_timeout: Duration) -> (cb: Self)
        ensures
            cb.wf(),
            cb.phase() == Phase::Closed,
            cb.failures() == 0,
            cb.threshold() == failure_threshold,
    {
        CircuitBreaker { state: State::Closed, failure_count: 0, failure_threshold, reset_timeout }
    }

    /// The current state of the circuit.
    pub fn phase_now(&self) -> (p: Phase)
        ensures
            p == self.phase(),
    {
        match self.state {
            State::Closed => Phase::Closed,
            State::Open(_) => Phase::Open,
            State::HalfOpen => Phase::HalfOpen,
        }
    }

    /// Consecutive failures seen while closed.
    pub fn failure_count(&self) -> (n: usize)
        ensures
            n == self.failures(),
    {
        self.failure_count
    }

    /// Whether a call is let through, given whether the open circuit's timeout has passed:
    /// always unless the circuit is open, and then exactly when the timeout has passed.
    pub fn lets_through(&self, timed_out: bool) -> (b: bool)
        ensures
            b == (self.phase() != Phase::Open || timed_out),
    {
        match self.state {
            State::Open(_) => timed_out,
            _ => true,
        }
    }

    /// Runs `f` unless the circuit is open and, as `timed_out` says, its timeout has not
    /// passed; then fails fast and changes nothing. Otherwise records the outcome: success
    /// closes the circuit; failure counts against the threshold while closed, and after a
    /// trial call (an open circuit whose timeout passed) opens the circuit again.
    pub fn call_at<T, E, F>(&mut self, timed_out: bool, f: F) -> (r: Result<T, Error<E>>) where
        F: FnOnce() -> Result<T, E>,

        requires
            old(self).wf(),
            f.requires(()),
        ensures
            final(self).wf(),
            final(self).threshold() == old(self).threshold(),
            (r matches Err(Error::CircuitOpen)) <==> (old(self).phase() == Phase::Open && !timed_out),
            r matches Err(Error::CircuitOpen) ==> *final(self) == *old(self),
            match r {
                Err(Error::CircuitOpen) => true,
                Ok(v) => {
                    &&& f.ensures((), Ok(v))
                    &&& final(self).phase() == Phase::Closed
                    &&& final(self).failures() == 0
                },
                Err(Error::OperationFailed(e)) => {
                    &&& f.ensures((), Err(e))
                    &&& if old(self).phase() == Phase::Closed {
                        &&& final(self).failures() == old(self).failures() + 1
                        &&& final(self).phase() == if old(self).failures() + 1 >= old(
                            self,
                        ).threshold() {
                            Phase::Open
                        } else {
                            Phase::Closed
                        }
                    } else {
                        &&& final(self).phase() == Phase::Open
                        &&& final(self).failures() == old(self).failures()
                    }
                },
            },
    {
        if !self.lets_through(timed_out) {
            return Err(Error::CircuitOpen);
        }
        if let State::Open(_) = self.state {
            self.state = State::HalfOpen;
        }
        let result = f();
        match result {
            Ok(val) => {
                self.state = State::Closed;
                self.failure_count = 0;
                Ok(val)
            },
            Err(err) => {
                match self.state {
                    State::Closed => {
                        self.failure_count = self.failure_count + 1;
                        if self.failure_count >= self.failure_threshold {
                            self.state = State::Open(instant_now());
                        }
                    },
                    _ => {
                        self.state = State::Open(instant_now());
                    },
                }
                Err(Error::OperationFailed(err))
            },
        }
    }

    /// Whether the open circuit's timeout has passed by the clock (true when not open).
    fn timed_out_now(&self) -> bool {
        match &self.state {
            State::Open(opened_at) => {
                let elapsed = instant_elapsed(opened_at);
                duration_at_least(&elapsed, &self.reset_timeout)
            },
            _ => true,
        }
    }

    /// Runs `f` through `call_at`, with the timeout judged by the clock now.
    pub fn call<T, E, F>(&mut self, f: F) -> (r: Result<T, Error<E>>) where
        F: FnOnce() -> Result<T, E>,

        requires
            old(self).wf(),
            f.requires(()),
        ensures
            final(self).wf(),
            final(self).threshold() == old(self).threshold(),
            r matches Err(Error::CircuitOpen) ==> old(self).phase() == Phase::Open && *final(self) == *old(self),
            old(self).phase() != Phase::Open ==> !(r matches Err(Error::CircuitOpen)),
            match r {
                Err(Error::CircuitOpen) => true,
                Ok(v) => {
                    &&& f.ensures((), Ok(v))
                    &&& final(self).phase() == Phase::Closed
                    &&& final(self).failures() == 0
                },
                Err(Error::OperationFailed(e)) => {
                    &&& f.ensures((), Err(e))
                    &&& if old(self).phase() == Phase::Closed {
                        &&& final(self).failures() == old(self).failures() + 1
                        &&& final(self).phase() == if old(self).failures() + 1 >= old(
                            self,
                        ).threshold() {
                            Phase::Open
                        } else {
                            Phase::Closed
                        }
                    } else {
                        &&& final(self).phase() == Phase::Open
                        &&& final(self).failures() == old(self).failures()
                    }
                },
            },
    {
        let timed_out = self.timed_out_now();
        self.call_at(timed_out, f)
    }

    /// Whether a call now would be let through (see `lets_through`), with the timeout judged
    /// by the clock now.
    pub fn is_accepting(&self) -> (b: bool)
        ensures
            self.phase() != Phase::Open ==> b,
    {
        let timed_out = self.timed_out_now();
        self.lets_through(timed_out)
    }
}

} // verus!
