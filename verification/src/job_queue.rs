//! The bookkeeping of a background job queue: named FIFO queues, jobs scheduled for later,
//! retries with quadratic backoff and a dead-letter list. Worker threads, locks and waiting
//! stay with the caller; every decision is made here. Times are nanoseconds on the caller's
//! monotonic clock.

use crate::text::{name_pos, str_eq};
use std::collections::VecDeque;
use vstd::prelude::*;

verus! {

/// Where a job is in its life.
#[derive(Debug, Clone, Copy, PartialEq, Eq)]
pub enum JobStatus {
    Pending,
    Processing,
    Completed,
    Failed,
}

/// A unit of work for queue `queue`, tried at most `max_retries + 1` times.
pub struct Job<P> {
    pub id: String,
    pub queue: String,
    pub payload: P,
    pub max_retries: u32,
    pub attempts: u32,
    pub status: JobStatus,
}

impl<P> Job<P> {
    /// A pending job with id `id`, allowed 3 retries.
    pub fn new(id: String, queue: String, payload: P) -> (j: Self)
        ensures
            j.id == id,
            j.queue == queue,
            j.payload == payload,
            j.max_retries == 3,
            j.attempts == 0,
            j.status == JobStatus::Pending,
    {
        Job { id, queue, payload, max_retries: 3, attempts: 0, status: JobStatus::Pending }
    }

    /// The same job allowed `retries` retries.
    pub fn with_retries(self, retries: u32) -> (j: Self)
        ensures
            j.max_retries == retries,
            j.id == self.id,
            j.queue == self.queue,
            j.payload == self.payload,
            j.attempts == self.attempts,
            j.status == self.status,
    {
        let mut j = self;
        j.max_retries = retries;
        j
    }
}

/// The delay before retry number `attempts`: `attempts²` seconds.
pub open spec fn backoff_nanos(attempts: u32) -> int {
    attempts * attempts * 1_000_000_000
}

/// What to do with a job whose run failed: retry it at a later time, or give up.
pub enum AfterFailure<P> {
    RetryAt(u64, Job<P>),
    DeadLetter(Job<P>),
}

/// After a failed run at time `now`: one more attempt is counted; while the attempts do not
/// exceed the retries allowed, the job is pending again, due `attempts²` seconds later;
/// otherwise it has failed for good.
pub fn after_failure<P>(job: Job<P>, now: u64) -> (r: AfterFailure<P>)
    requires
        job.attempts < u32::MAX,
        job.attempts + 1 <= job.max_retries ==> (job.attempts + 1) * (job.attempts + 1) <= u32::MAX && now
            + backoff_nanos((job.attempts + 1) as u32) <= u64::MAX,
    ensures
        match r {
            AfterFailure::RetryAt(at, j) => job.attempts + 1 <= job.max_retries && j.attempts == job.attempts + 1
                && j.status == JobStatus::Pending && at == now + backoff_nanos(j.attempts) && j.id == job.id
                && j.queue == job.queue && j.payload == job.payload && j.max_retries == job.max_retries,
            AfterFailure::DeadLetter(j) => job.attempts + 1 > job.max_retries && j.attempts == job.attempts + 1
                && j.status == JobStatus::Failed && j.id == job.id && j.queue == job.queue && j.payload
                == job.payload && j.max_retries == job.max_retries,
        },
{
    let mut job = job;
    job.attempts = job.attempts + 1;
    if job.attempts <= job.max_retries {
        let backoff_secs = (job.attempts * job.attempts) as u64;
        proof {
            assert(backoff_secs * 1_000_000_000 == backoff_nanos(job.attempts)) by (nonlinear_arith)
                requires
                    backoff_secs == job.attempts * job.attempts,
            ;
        }
        let execute_at = now + backoff_secs * 1_000_000_000;
        job.status = JobStatus::Pending;
        AfterFailure::RetryAt(execute_at, job)
    } else {
        job.status = JobStatus::Failed;
        AfterFailure::DeadLetter(job)
    }
}

/// What a worker waiting on a queue should do next.
pub enum NextJob<P> {
    /// The queue is shutting down: stop.
    Stop,
    /// Run this job.
    Run(Job<P>),
    /// Nothing is ready: wait until this time (or until woken).
    WaitUntil(u64),
    /// Nothing is ready or scheduled: wait until woken.
    Wait,
}

/// The names of the queues.
pub open spec fn queue_names<P>(qs: Seq<(String, VecDeque<Job<P>>)>) -> Seq<Seq<char>> {
    qs.map_values(|q: (String, VecDeque<Job<P>>)| q.0@)
}

/// The jobs of `moved` that belong to queue `n`, in the order they were moved.
pub open spec fn jobs_for<P>(moved: Seq<(u64, Job<P>)>, n: Seq<char>) -> Seq<Job<P>>
    decreases moved.len(),
{
    if moved.len() == 0 {
        Seq::empty()
    } else if moved.last().1.queue@ == n {
        jobs_for(moved.drop_last(), n).push(moved.last().1)
    } else {
        jobs_for(moved.drop_last(), n)
    }
}

proof fn lemma_prefix_push<J>(a: Seq<J>, b: Seq<J>, x: J)
    requires
        a.is_prefix_of(b),
    ensures
        a.is_prefix_of(b.push(x)),
{
    assert(b.push(x).subrange(0, a.len() as int) =~= b.subrange(0, a.len() as int));
}

/// The queues, the jobs scheduled for later, the jobs given up on, and whether the queue is
/// shutting down.
pub struct QueueState<P> {
    queues: Vec<(String, VecDeque<Job<P>>)>,
    scheduled: Vec<(u64, Job<P>)>,
    dead_letters: Vec<Job<P>>,
    is_shutting_down: bool,
}

impl<P> QueueState<P> {
    /// The jobs waiting in queue `name`, first to run first.
    pub closed spec fn queue(&self, name: Seq<char>) -> Seq<Job<P>> {
        let p = name_pos(queue_names(self.queues@), name);
        if p < 0 {
            seq![]
        } else {
            self.queues@[p].1@
        }
    }

    /// The jobs scheduled for later, with their times.
    pub closed spec fn scheduled(&self) -> Seq<(u64, Job<P>)> {
        self.scheduled@
    }

    pub closed spec fn dead(&self) -> Seq<Job<P>> {
        self.dead_letters@
    }

    pub closed spec fn shutting_down(&self) -> bool {
        self.is_shutting_down
    }

    /// Every queued job sits in the queue it names.
    pub closed spec fn wf(&self) -> bool {
        forall|i: int, k: int|
            0 <= i < self.queues@.len() && 0 <= k < self.queues@[i].1@.len() ==> #[trigger] self.queues@[i].1@[k].queue@
                == self.queues@[i].0@
    }

    pub fn new() -> (s: Self)
        ensures
            s.wf(),
            forall|n: Seq<char>| s.queue(n) == Seq::<Job<P>>::empty(),
            s.scheduled() == Seq::<(u64, Job<P>)>::empty(),
            s.dead() == Seq::<Job<P>>::empty(),
            !s.shutting_down(),
    {
        QueueState { queues: Vec::new(), scheduled: Vec::new(), dead_letters: Vec::new(), is_shutting_down: false }
    }

    fn find_queue(&self, name: &str) -> (r: Option<usize>)
        ensures
            match r {
                Some(i) => i < self.queues@.len() && i as int == name_pos(queue_names(self.queues@), name@),
                None => name_pos(queue_names(self.queues@), name@) < 0,
            },
    {
        let ghost ks = queue_names(self.queues@);
        let mut i: usize = self.queues.len();
        proof {
            assert(ks.take(i as int) =~= ks);
        }
        while i > 0
            invariant
                i <= self.queues@.len(),
                ks == queue_names(self.queues@),
                name_pos(ks, name@) == name_pos(ks.take(i as int), name@),
            decreases i,
        {
            assert(ks.take(i as int).last() == self.queues@[i - 1].0@);
            if str_eq(self.queues[i - 1].0.as_str(), name) {
                return Some(i - 1);
            }
            assert(ks.take(i as int).drop_last() =~= ks.take(i as int - 1));
            i = i - 1;
        }
        None
    }

    /// Adds a job at the back of its queue.
    pub fn enqueue(&mut self, job: Job<P>)
        requires
            old(self).wf(),
        ensures
            final(self).wf(),
            final(self).queue(job.queue@) == old(self).queue(job.queue@).push(job),
            forall|n: Seq<char>| n != job.queue@ ==> final(self).queue(n) == old(self).queue(n),
            final(self).scheduled() == old(self).scheduled(),
            final(self).dead() == old(self).dead(),
            final(self).shutting_down() == old(self).shutting_down(),
    {
        let ghost name = job.queue@;
        let ghost jg = job;
        let ghost before = self.queues@;
        match self.find_queue(job.queue.as_str()) {
            Some(i) => {
                self.queues[i].1.push_back(job);
                proof {
                    assert(queue_names(self.queues@) =~= queue_names(before));
                    crate::text::lemma_name_pos(queue_names(before), name);
                    assert forall|n: Seq<char>| n != name implies #[trigger] self.queue(n) == old(self).queue(n) by {
                        crate::text::lemma_name_pos(queue_names(before), n);
                        let q = name_pos(queue_names(before), n);
                        if q >= 0 {
                            assert(queue_names(before)[q] == n);
                            assert(q != i);
                        }
                    }
                }
            },
            None => {
                let mut dq: VecDeque<Job<P>> = VecDeque::new();
                let qname = job.queue.clone();
                dq.push_back(job);
                self.queues.push((qname, dq));
                proof {
                    assert(queue_names(self.queues@) =~= queue_names(before).push(name));
                    assert(queue_names(self.queues@).drop_last() =~= queue_names(before));
                    assert(self.queues@.last().1@ =~= seq![jg]);
                    assert(old(self).queue(name) =~= Seq::<Job<P>>::empty());
                    assert(self.queue(name) =~= old(self).queue(name).push(jg));
                    assert forall|n: Seq<char>| n != name implies #[trigger] self.queue(n) == old(self).queue(n) by {
                        crate::text::lemma_name_pos(queue_names(before), n);
                        let q = name_pos(queue_names(before), n);
                        if q >= 0 {
                            assert(self.queues@[q] == before[q]);
                        }
                    }
                }
            },
        }
    }

    /// Schedules a job to join its queue at time `at`.
    pub fn enqueue_at(&mut self, job: Job<P>, at: u64)
        requires
            old(self).wf(),
        ensures
            final(self).wf(),
            final(self).scheduled() == old(self).scheduled().push((at, job)),
            forall|n: Seq<char>| final(self).queue(n) == old(self).queue(n),
            final(self).dead() == old(self).dead(),
            final(self).shutting_down() == old(self).shutting_down(),
    {
        self.scheduled.push((at, job));
    }

    /// The scheduled job due first (the earliest time, the first scheduled among equals).
    fn earliest(&self) -> (r: Option<usize>)
        ensures
            match r {
                Some(i) => i < self.scheduled@.len() && forall|k: int|
                    0 <= k < self.scheduled@.len() ==> self.scheduled@[i as int].0 <= #[trigger] self.scheduled@[k].0,
                None => self.scheduled@.len() == 0,
            },
    {
        if self.scheduled.len() == 0 {
            return None;
        }
        let mut m: usize = 0;
        let mut k: usize = 1;
        while k < self.scheduled.len()
            invariant
                m < k <= self.scheduled@.len(),
                forall|q: int| 0 <= q < k ==> self.scheduled@[m as int].0 <= #[trigger] self.scheduled@[q].0,
            decreases self.scheduled@.len() - k,
        {
            if self.scheduled[k].0 < self.scheduled[m].0 {
                m = k;
            }
            k = k + 1;
        }
        Some(m)
    }

    /// Moves every scheduled job that is due at `now` into its queue, earliest first, and
    /// gives the time the next one falls due.
    pub fn promote_due(&mut self, now: u64) -> (next: Option<u64>)
        requires
            old(self).wf(),
        ensures
            final(self).wf(),
            forall|k: int| 0 <= k < final(self).scheduled().len() ==> #[trigger] final(self).scheduled()[k].0 > now,
            match next {
                Some(t) => t > now && exists|k: int| 0 <= k < final(self).scheduled().len() && final(self).scheduled()[k].0
                    == t && forall|q: int| 0 <= q < final(self).scheduled().len() ==> t <= #[trigger] final(self).scheduled()[q].0,
                None => final(self).scheduled().len() == 0,
            },
            forall|n: Seq<char>| old(self).queue(n).is_prefix_of(#[trigger] final(self).queue(n)),
            exists|moved: Seq<(u64, Job<P>)>| {
                &&& old(self).scheduled().to_multiset() =~= final(self).scheduled().to_multiset().add(
                    moved.to_multiset(),
                )
                &&& forall|k: int| 0 <= k < moved.len() ==> (#[trigger] moved[k]).0 <= now
                &&& forall|a: int, b: int| 0 <= a < b < moved.len() ==> (#[trigger] moved[a]).0 <= (#[trigger] moved[b]).0
                &&& forall|n: Seq<char>| #[trigger] final(self).queue(n) == old(self).queue(n) + jobs_for(moved, n)
            },
            final(self).dead() == old(self).dead(),
            final(self).shutting_down() == old(self).shutting_down(),
    {
        let ghost mut moved: Seq<(u64, Job<P>)> = Seq::empty();
        proof {
            vstd::seq_lib::to_multiset_len(moved);
            vstd::multiset::lemma_multiset_empty_len(moved.to_multiset());
            assert(old(self).scheduled().to_multiset() =~= self.scheduled().to_multiset().add(moved.to_multiset()));
            assert forall|n: Seq<char>| #[trigger] self.queue(n) == old(self).queue(n) + jobs_for(moved, n) by {
                assert(old(self).queue(n) + jobs_for(moved, n) =~= old(self).queue(n));
            }
        }
        loop
            invariant
                self.wf(),
                forall|n: Seq<char>| old(self).queue(n).is_prefix_of(#[trigger] self.queue(n)),
                self.dead() == old(self).dead(),
                self.shutting_down() == old(self).shutting_down(),
                old(self).scheduled().to_multiset() =~= self.scheduled().to_multiset().add(moved.to_multiset()),
                forall|k: int| 0 <= k < moved.len() ==> (#[trigger] moved[k]).0 <= now,
                forall|a: int, b: int| 0 <= a < b < moved.len() ==> (#[trigger] moved[a]).0 <= (#[trigger] moved[b]).0,
                forall|k: int, q: int|
                    0 <= k < moved.len() && 0 <= q < self.scheduled().len() ==> (#[trigger] moved[k]).0
                        <= (#[trigger] self.scheduled()[q]).0,
                forall|n: Seq<char>| #[trigger] self.queue(n) == old(self).queue(n) + jobs_for(moved, n),
            decreases self.scheduled@.len(),
        {
            match self.earliest() {
                None => {
                    return None;
                },
                Some(i) => {
                    let at = self.scheduled[i].0;
                    if at > now {
                        proof {
                            assert(self.scheduled@[i as int].0 == at);
                            assert(forall|q: int| 0 <= q < self.scheduled().len() ==> at <= #[trigger] self.scheduled()[q].0);
                            assert(0 <= i < self.scheduled().len() && self.scheduled()[i as int].0 == at && forall|q: int|
                                0 <= q < self.scheduled().len() ==> at <= #[trigger] self.scheduled()[q].0);
                        }
                        return Some(at);
                    }
                    let ghost pre = *self;
                    let ghost e = self.scheduled@[i as int];
                    let (_, job) = self.scheduled.remove(i);
                    let ghost mid = *self;
                    let ghost jq = job.queue@;
                    let ghost jg = job;
                    self.enqueue(job);
                    proof {
                        assert forall|n: Seq<char>| old(self).queue(n).is_prefix_of(#[trigger] self.queue(n)) by {
                            assert(old(self).queue(n).is_prefix_of(pre.queue(n)));
                            assert(pre.queue(n) == mid.queue(n));
                            if n == jq {
                                lemma_prefix_push(old(self).queue(n), mid.queue(n), jg);
                            }
                        }
                        let old_moved = moved;
                        moved = moved.push(e);
                        assert(e.1 == jg);
                        vstd::seq_lib::to_multiset_remove(pre.scheduled(), i as int);
                        vstd::seq_lib::to_multiset_build(old_moved, e);
                        vstd::seq_lib::to_multiset_contains(pre.scheduled(), e);
                        assert(self.scheduled() == pre.scheduled().remove(i as int));
                        assert(old(self).scheduled().to_multiset() =~= self.scheduled().to_multiset().add(moved.to_multiset()));
                        assert forall|a: int, b: int| 0 <= a < b < moved.len() implies (#[trigger] moved[a]).0 <= (#[trigger] moved[b]).0 by {
                            if b == moved.len() - 1 {
                                assert(moved[a] == old_moved[a]);
                                assert(pre.scheduled()[i as int] == e);
                            } else {
                                assert(moved[a] == old_moved[a] && moved[b] == old_moved[b]);
                            }
                        }
                        assert forall|k: int, q: int|
                            0 <= k < moved.len() && 0 <= q < self.scheduled().len() implies (#[trigger] moved[k]).0
                                <= (#[trigger] self.scheduled()[q]).0 by {
                            let q0 = if q < i { q } else { q + 1 };
                            assert(self.scheduled()[q] == pre.scheduled()[q0]);
                            if k < old_moved.len() {
                                assert(moved[k] == old_moved[k]);
                            }
                        }
                        assert forall|k: int| 0 <= k < moved.len() implies (#[trigger] moved[k]).0 <= now by {
                            if k < old_moved.len() {
                                assert(moved[k] == old_moved[k]);
                            }
                        }
                        assert forall|n: Seq<char>| #[trigger] self.queue(n) == old(self).queue(n) + jobs_for(moved, n) by {
                            assert(moved.drop_last() =~= old_moved);
                            assert(mid.queue(n) == pre.queue(n));
                            if n == jq {
                                assert(self.queue(n) =~= old(self).queue(n) + jobs_for(moved, n));
                            }
                        }
                    }
                },
            }
        }
    }

    /// What a worker on queue `name` should do at time `now`: stop when shutting down;
    /// otherwise, after moving due jobs into their queues, run the first job of the queue
    /// (now processing), or wait for the next scheduled time, or wait to be woken.
    pub fn next_job(&mut self, name: &str, now: u64) -> (r: NextJob<P>)
        requires
            old(self).wf(),
        ensures
            final(self).wf(),
            old(self).shutting_down() ==> r is Stop && *final(self) == *old(self),
            final(self).dead() == old(self).dead(),
            final(self).shutting_down() == old(self).shutting_down(),
            r matches NextJob::Run(j) ==> j.status == JobStatus::Processing && j.queue@ == name@,
            !old(self).shutting_down() ==> forall|k: int|
                0 <= k < final(self).scheduled().len() ==> #[trigger] final(self).scheduled()[k].0 > now,
    {
        if self.is_shutting_down {
            return NextJob::Stop;
        }
        let next = self.promote_due(now);
        match self.find_queue(name) {
            Some(i) => {
                if self.queues[i].1.len() > 0 {
                    let ghost q0 = self.queues@[i as int].1@[0];
                    proof {
                        assert(q0.queue@ == self.queues@[i as int].0@);
                        crate::text::lemma_name_pos(queue_names(self.queues@), name@);
                        assert(queue_names(self.queues@)[i as int] == self.queues@[i as int].0@);
                        assert(q0.queue@ == name@);
                    }
                    let mut job = self.queues[i].1.pop_front().unwrap();
                    job.status = JobStatus::Processing;
                    return NextJob::Run(job);
                }
            },
            None => {},
        }
        match next {
            Some(t) => NextJob::WaitUntil(t),
            None => NextJob::Wait,
        }
    }

    /// Gives a job whose run failed at `now` another try later, or puts it on the
    /// dead-letter list.
    pub fn finalize(&mut self, job: Job<P>, success: bool, now: u64)
        requires
            old(self).wf(),
            !success ==> job.attempts < u32::MAX,
            !success && job.attempts + 1 <= job.max_retries ==> (job.attempts + 1) * (job.attempts + 1) <= u32::MAX
                && now + backoff_nanos((job.attempts + 1) as u32) <= u64::MAX,
        ensures
            success ==> final(self).scheduled() == old(self).scheduled() && final(self).dead() == old(self).dead(),
            !success && job.attempts + 1 <= job.max_retries ==> final(self).dead() == old(self).dead()
                && final(self).scheduled().len() == old(self).scheduled().len() + 1
                && final(self).scheduled().drop_last() == old(self).scheduled()
                && final(self).scheduled().last().0 == now + backoff_nanos((job.attempts + 1) as u32)
                && final(self).scheduled().last().1 == (Job { attempts: (job.attempts + 1) as u32, status: JobStatus::Pending, ..job }),
            !success && job.attempts + 1 > job.max_retries ==> final(self).scheduled() == old(self).scheduled()
                && final(self).dead().len() == old(self).dead().len() + 1
                && final(self).dead().drop_last() == old(self).dead()
                && final(self).dead().last() == (Job { attempts: (job.attempts + 1) as u32, status: JobStatus::Failed, ..job }),
            final(self).wf(),
            forall|n: Seq<char>| final(self).queue(n) == old(self).queue(n),
            final(self).shutting_down() == old(self).shutting_down(),
    {
        if success {
            return;
        }
        match after_failure(job, now) {
            AfterFailure::RetryAt(at, j) => {
                self.scheduled.push((at, j));
            },
            AfterFailure::DeadLetter(j) => {
                self.dead_letters.push(j);
            },
        }
    }

    /// Makes every worker stop.
    pub fn shutdown(&mut self)
        requires
            old(self).wf(),
        ensures
            final(self).wf(),
            final(self).shutting_down(),
            forall|n: Seq<char>| final(self).queue(n) == old(self).queue(n),
            final(self).scheduled() == old(self).scheduled(),
            final(self).dead() == old(self).dead(),
    {
        self.is_shutting_down = true;
    }

    /// The number of jobs given up on.
    pub fn dead_letter_count(&self) -> (n: usize)
        ensures
            n == self.dead().len(),
    {
        self.dead_letters.len()
    }
}

} // verus!
