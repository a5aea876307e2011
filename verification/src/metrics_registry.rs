//! Telemetry metrics: a counter that only goes up and a gauge that moves both ways.
//! Both wrap around on overflow, as integer atomics do.

use vstd::prelude::*;

verus! {

/// `x` reduced into the `u64` range by wrapping around.
pub open spec fn wrap_u64(x: int) -> int {
    if x > u64::MAX { x - 0x1_0000_0000_0000_0000 } else if x < 0 { x + 0x1_0000_0000_0000_0000 } else { x }
}

/// `x` reduced into the `i64` range by wrapping around.
pub open spec fn wrap_i64(x: int) -> int {
    if x > i64::MAX { x - 0x1_0000_0000_0000_0000 } else if x < i64::MIN { x + 0x1_0000_0000_0000_0000 } else { x }
}

/// A cumulative metric that only goes up.
#[derive(Debug)]
pub struct Counter {
    value: u64,
}

impl Default for Counter {
    fn default() -> (c: Self)
        ensures
            c.value() == 0,
    {
        Counter { value: 0 }
    }
}

impl Counter {
    pub closed spec fn value(&self) -> u64 {
        self.value
    }

    pub fn inc(&mut self)
        ensures
            final(self).value() == wrap_u64(old(self).value() + 1),
    {
        self.inc_by(1);
    }

    pub fn inc_by(&mut self, amount: u64)
        ensures
            final(self).value() == wrap_u64(old(self).value() + amount),
    {
        self.value = self.value.wrapping_add(amount);
    }

    pub fn get(&self) -> (v: u64)
        ensures
            v == self.value(),
    {
        self.value
    }
}

/// Short of wrapping past `u64::MAX`, a counter never decreases.
pub proof fn lemma_counter_monotonic(before: u64, amount: u64)
    requires
        before + amount <= u64::MAX,
    ensures
        wrap_u64(before + amount) >= before,
{
}

/// A metric that can arbitrarily go up or down.
#[derive(Debug)]
pub struct Gauge {
    value: i64,
}

impl Default for Gauge {
    fn default() -> (g: Self)
        ensures
            g.value() == 0,
    {
        Gauge { value: 0 }
    }
}

impl Gauge {
    pub closed spec fn value(&self) -> i64 {
        self.value
    }

    pub fn inc(&mut self)
        ensures
            final(self).value() == wrap_i64(old(self).value() + 1),
    {
        self.inc_by(1);
    }

    pub fn dec(&mut self)
        ensures
            final(self).value() == wrap_i64(old(self).value() - 1),
    {
        self.dec_by(1);
    }

    pub fn inc_by(&mut self, amount: i64)
        ensures
            final(self).value() == wrap_i64(old(self).value() + amount),
    {
        self.value = self.value.wrapping_add(amount);
    }

    pub fn dec_by(&mut self, amount: i64)
        ensures
            final(self).value() == wrap_i64(old(self).value() - amount),
    {
        self.value = self.value.wrapping_sub(amount);
    }

    pub fn set(&mut self, value: i64)
        ensures
            final(self).value() == value,
    {
        self.value = value;
    }

    pub fn get(&self) -> (v: i64)
        ensures
            v == self.value(),
    {
        self.value
    }
}

/// Raising a gauge by an amount and lowering it by the same amount leaves it where it was.
pub proof fn lemma_gauge_inc_dec_cancel(v: i64, amount: i64)
    ensures
        wrap_i64(wrap_i64(v + amount) - amount) == v,
{
}

} // verus!
