//! Rate limiting: a sliding-window log that admits a request while fewer than the limit were
//! admitted within the window before it, and a limiter against a shared counter store where
//! each fixed time window gets its own counter key and a request is admitted while the
//! window's count stays within the limit.

use crate::clock::unix_seconds;
use crate::text::{decimal, decimal_chars, string_of};
use std::collections::VecDeque;
use std::sync::Arc;
use vstd::prelude::*;

verus! {

/// Admits or refuses requests.
pub trait RateLimiter {
    /// Attempts to take `tokens` permits; `true` when the request may proceed.
    fn try_acquire(&self, tokens: u32) -> bool;
}

/// A shared counter store, such as a key-value server.
pub trait Storage: Send + Sync {
    /// What the store promises of its answer: that it may answer `count` when asked to add
    /// `value` to the counter at `key` expiring after `window_secs`. A store that promises
    /// nothing keeps this default.
    open spec fn reports(&self, key: Seq<char>, value: usize, window_secs: u64, count: usize) -> bool {
        true
    }

    /// Adds `value` to the counter at `key`, which expires after `window_secs`, and returns
    /// the new count.
    fn incr_and_expire(&self, key: &str, value: usize, window_secs: u64) -> (count: usize)
        ensures
            self.reports(key@, value, window_secs, count),
    ;
}

/// Rate limiting shared by several processes through a `Storage`.
pub struct DistributedRateLimiter<S: Storage> {
    storage: Arc<S>,
    key_prefix: String,
    limit: usize,
    window_secs: u64,
}

/// The counter key of the window holding second `now`: the prefix, a colon and the window's
/// number.
pub open spec fn window_key(prefix: Seq<char>, now: nat, window_secs: nat) -> Seq<char> {
    prefix + seq![':'] + decimal(now / window_secs)
}

impl<S: Storage> DistributedRateLimiter<S> {
    pub closed spec fn prefix(&self) -> Seq<char> {
        self.key_prefix@
    }

    pub closed spec fn limit(&self) -> nat {
        self.limit as nat
    }

    pub closed spec fn window(&self) -> nat {
        self.window_secs as nat
    }

    /// The store the counters live in.
    pub closed spec fn store(&self) -> S {
        *self.storage
    }

    #[verifier::type_invariant]
    spec fn window_positive(&self) -> bool {
        self.window_secs > 0
    }

    /// A limiter admitting `limit` requests per window of `window_secs` seconds.
    pub fn new(storage: Arc<S>, key_prefix: String, limit: usize, window_secs: u64) -> (r: Self)
        requires
            window_secs > 0,
        ensures
            r.prefix() == key_prefix@,
            r.limit() == limit,
            r.window() == window_secs,
            r.window() > 0,
    {
        DistributedRateLimiter { storage, key_prefix, limit, window_secs }
    }

    /// The counter key for the window holding second `now`.
    pub fn key_for(&self, now: u64) -> (k: String)
        ensures
            k@ == window_key(self.prefix(), now as nat, self.window()),
    {
        proof {
            use_type_invariant(self);
        }
        let digits = decimal_chars(now / self.window_secs);
        let mut chars: Vec<char> = Vec::new();
        let prefix = crate::text::chars_of(self.key_prefix.as_str());
        let mut i: usize = 0;
        while i < prefix.len()
            invariant
                i <= prefix@.len(),
                chars@ == prefix@.subrange(0, i as int),
            decreases prefix@.len() - i,
        {
            chars.push(prefix[i]);
            i = i + 1;
        }
        chars.push(':');
        let mut j: usize = 0;
        while j < digits.len()
            invariant
                j <= digits@.len(),
                chars@ == prefix@ + seq![':'] + digits@.subrange(0, j as int),
            decreases digits@.len() - j,
        {
            chars.push(digits[j]);
            j = j + 1;
        }
        assert(prefix@ =~= prefix@.subrange(0, prefix@.len() as int));
        assert(digits@ =~= digits@.subrange(0, digits@.len() as int));
        string_of(chars.as_slice())
    }

    /// Whether a window whose count has reached `count` is still within the limit.
    pub fn admits(&self, count: usize) -> (b: bool)
        ensures
            b == (count <= self.limit()),
    {
        count <= self.limit
    }
}

impl<S: Storage> RateLimiter for DistributedRateLimiter<S> {
    /// Counts one request in the current window's key; admitted while the count is within the
    /// limit. A wall clock reading before 1970 admits nothing.
    fn try_acquire(&self, _tokens: u32) -> (r: bool)
        ensures
            r ==> exists|now: u64, count: usize|
                #[trigger] self.store().reports(window_key(self.prefix(), now as nat, self.window()), 1, self.window() as u64, count)
                    && count <= self.limit(),
    {
        proof {
            use_type_invariant(self);
        }
        match unix_seconds() {
            Some(now) => {
                let key = self.key_for(now);
                let count = self.storage.incr_and_expire(key.as_str(), 1, self.window_secs);
                assert(self.store().reports(window_key(self.prefix(), now as nat, self.window()), 1, self.window() as u64, count));
                self.admits(count)
            },
            None => false,
        }
    }
}

/// The log after dropping, from its front, the times before `cutoff`.
pub open spec fn drop_expired(log: Seq<u64>, cutoff: int) -> Seq<u64>
    decreases log.len(),
{
    if log.len() > 0 && log[0] < cutoff {
        drop_expired(log.drop_first(), cutoff)
    } else {
        log
    }
}

/// A sliding-window log limiter: the times (nanoseconds on the caller's clock) of the requests
/// admitted within the window, oldest first.
pub struct SlidingWindowRateLimiter {
    timestamps: VecDeque<u64>,
    window: u64,
    limit: usize,
}

impl SlidingWindowRateLimiter {
    /// The admitted times kept, oldest first.
    pub closed spec fn log(&self) -> Seq<u64> {
        self.timestamps@
    }

    pub closed spec fn window_spec(&self) -> nat {
        self.window as nat
    }

    pub closed spec fn limit_spec(&self) -> nat {
        self.limit as nat
    }

    /// A limiter admitting `limit` requests per `window` nanoseconds.
    pub fn new(window: u64, limit: usize) -> (r: Self)
        ensures
            r.log() == Seq::<u64>::empty(),
            r.window_spec() == window,
            r.limit_spec() == limit,
    {
        SlidingWindowRateLimiter { timestamps: VecDeque::new(), window, limit }
    }

    /// A request at time `now`: the times older than the window are dropped from the front of
    /// the log, then the request is admitted, and its time logged, when fewer than the limit
    /// remain.
    pub fn try_acquire_at(&mut self, now: u64) -> (admitted: bool)
        ensures
            final(self).window_spec() == old(self).window_spec(),
            final(self).limit_spec() == old(self).limit_spec(),
            admitted == (drop_expired(old(self).log(), now - old(self).window_spec()).len() < old(self).limit_spec()),
            final(self).log() == if admitted {
                drop_expired(old(self).log(), now - old(self).window_spec()).push(now)
            } else {
                drop_expired(old(self).log(), now - old(self).window_spec())
            },
    {
        let ghost cutoff = now - self.window;
        let ghost target = drop_expired(self.timestamps@, cutoff);
        while self.timestamps.len() > 0
            invariant
                drop_expired(self.timestamps@, cutoff) == target,
                self.window == old(self).window,
                self.limit == old(self).limit,
                cutoff == now - self.window,
            ensures
                self.timestamps@ == target,
                self.window == old(self).window,
                self.limit == old(self).limit,
            decreases self.timestamps@.len(),
        {
            let front = self.timestamps[0];
            if now >= self.window && front < now - self.window {
                self.timestamps.pop_front();
            } else {
                break;
            }
        }
        if self.timestamps.len() < self.limit {
            self.timestamps.push_back(now);
            true
        } else {
            false
        }
    }
}

} // verus!
