//! The decisions of a delayed-task scheduler: a queue of tasks each due at a time, and the
//! worker's choice at each wake-up: stop, run the earliest due task, sleep until the earliest
//! task is due, or wait for work. Times are nanoseconds on the caller's clock; the actions
//! themselves, the clock and the sleeping stay with the caller.

use vstd::prelude::*;

verus! {

/// What the worker does next.
#[derive(Debug, Clone, Copy, PartialEq, Eq)]
pub enum SchedulerAction {
    /// The scheduler was stopped.
    Stop,
    /// Run the task with this id, now removed from the queue.
    Run(u64),
    /// Sleep this many nanoseconds, until the earliest task is due.
    WaitFor(u64),
    /// Nothing is queued: sleep until a task is scheduled.
    WaitForWork,
}

/// Task `i` is the first queued of the tasks due soonest.
pub open spec fn is_earliest(s: Seq<(u64, u64)>, i: int) -> bool {
    &&& 0 <= i < s.len()
    &&& forall|j: int| 0 <= j < s.len() ==> s[i].0 <= #[trigger] s[j].0
    &&& forall|j: int| 0 <= j < i ==> s[i].0 < #[trigger] s[j].0
}

/// The queued tasks as (due time, id), and whether the scheduler still runs.
pub struct SchedulerState {
    tasks: Vec<(u64, u64)>,
    running: bool,
}

impl SchedulerState {
    /// The queued tasks as (due time, id), in the order they were scheduled.
    pub closed spec fn queued(&self) -> Seq<(u64, u64)> {
        self.tasks@
    }

    pub closed spec fn is_running(&self) -> bool {
        self.running
    }

    /// A running scheduler with nothing queued.
    pub fn new() -> (s: Self)
        ensures
            s.queued() == Seq::<(u64, u64)>::empty(),
            s.is_running(),
    {
        SchedulerState { tasks: Vec::new(), running: true }
    }

    fn earliest(&self) -> (i: usize)
        requires
            self.tasks@.len() > 0,
        ensures
            is_earliest(self.tasks@, i as int),
    {
        let mut best: usize = 0;
        let mut k: usize = 1;
        while k < self.tasks.len()
            invariant
                1 <= k <= self.tasks@.len(),
                best < k,
                forall|j: int| 0 <= j < k ==> self.tasks@[best as int].0 <= #[trigger] self.tasks@[j].0,
                forall|j: int| 0 <= j < best ==> self.tasks@[best as int].0 < #[trigger] self.tasks@[j].0,
            decreases self.tasks@.len() - k,
        {
            if self.tasks[k].0 < self.tasks[best].0 {
                best = k;
            }
            k = k + 1;
        }
        best
    }

    /// Queues task `id` due at `run_at`; returns whether it is due before everything queued,
    /// so that a sleeping worker should be woken.
    pub fn schedule_at(&mut self, run_at: u64, id: u64) -> (wake: bool)
        ensures
            final(self).queued() == old(self).queued().push((run_at, id)),
            final(self).is_running() == old(self).is_running(),
            wake == forall|j: int| 0 <= j < old(self).queued().len() ==> run_at < #[trigger] old(self).queued()[j].0,
    {
        let wake = if self.tasks.len() == 0 {
            true
        } else {
            let i = self.earliest();
            run_at < self.tasks[i].0
        };
        self.tasks.push((run_at, id));
        wake
    }

    /// Stops the scheduler: the worker's next action is to stop.
    pub fn stop(&mut self)
        ensures
            final(self).queued() == old(self).queued(),
            !final(self).is_running(),
    {
        self.running = false;
    }

    /// The worker's next action at time `now`.
    pub fn next_action(&mut self, now: u64) -> (a: SchedulerAction)
        ensures
            final(self).is_running() == old(self).is_running(),
            match a {
                SchedulerAction::Stop => !old(self).is_running() && final(self).queued() == old(self).queued(),
                SchedulerAction::WaitForWork => old(self).is_running() && old(self).queued().len() == 0
                    && final(self).queued() == old(self).queued(),
                SchedulerAction::Run(id) => old(self).is_running() && exists|i: int|
                    #[trigger] is_earliest(old(self).queued(), i) && old(self).queued()[i].0 <= now && old(self).queued()[i].1
                        == id && final(self).queued() == old(self).queued().remove(i),
                SchedulerAction::WaitFor(d) => old(self).is_running() && exists|i: int|
                    #[trigger] is_earliest(old(self).queued(), i) && old(self).queued()[i].0 > now && d
                        == old(self).queued()[i].0 - now && final(self).queued() == old(self).queued(),
            },
    {
        if !self.running {
            return SchedulerAction::Stop;
        }
        if self.tasks.len() == 0 {
            return SchedulerAction::WaitForWork;
        }
        let i = self.earliest();
        let (at, id) = self.tasks[i];
        if at <= now {
            self.tasks.remove(i);
            assert(is_earliest(old(self).queued(), i as int));
            SchedulerAction::Run(id)
        } else {
            assert(is_earliest(old(self).queued(), i as int));
            SchedulerAction::WaitFor(at - now)
        }
    }
}

/// Tasks run in order of their due times: once the earliest task is taken, nothing left in
/// the queue is due before it.
pub proof fn lemma_runs_in_time_order(s: Seq<(u64, u64)>, i: int)
    requires
        is_earliest(s, i),
    ensures
        forall|j: int| 0 <= j < s.remove(i).len() ==> s[i].0 <= #[trigger] s.remove(i)[j].0,
{
    assert forall|j: int| 0 <= j < s.remove(i).len() implies s[i].0 <= #[trigger] s.remove(i)[j].0 by {
        if j < i {
            assert(s.remove(i)[j] == s[j]);
        } else {
            assert(s.remove(i)[j] == s[j + 1]);
        }
    }
}

/// The earliest task is unique: it is the first of those due soonest.
pub proof fn lemma_earliest_unique(s: Seq<(u64, u64)>, i: int, k: int)
    requires
        is_earliest(s, i),
        is_earliest(s, k),
    ensures
        i == k,
{
    if i < k {
        assert(s[k].0 < s[i].0);
    } else if k < i {
        assert(s[i].0 < s[k].0);
    }
}

} // verus!
