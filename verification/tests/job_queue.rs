use systems::job_queue::{after_failure, AfterFailure, Job, JobStatus, NextJob, QueueState};

const SEC: u64 = 1_000_000_000;

#[test]
fn jobq_fifo_per_queue() {
    let mut st: QueueState<u32> = QueueState::new();
    st.enqueue(Job::new("j1".into(), "default".into(), 1));
    st.enqueue(Job::new("j2".into(), "other".into(), 2));
    st.enqueue(Job::new("j3".into(), "default".into(), 3));
    match st.next_job("default", 0) {
        NextJob::Run(j) => {
            assert_eq!(j.payload, 1);
            assert_eq!(j.status, JobStatus::Processing);
        }
        _ => panic!("expected a job"),
    }
    match st.next_job("default", 0) {
        NextJob::Run(j) => assert_eq!(j.payload, 3),
        _ => panic!("expected a job"),
    }
    assert!(matches!(st.next_job("default", 0), NextJob::Wait));
    st.shutdown();
    assert!(matches!(st.next_job("other", 0), NextJob::Stop));
}

#[test]
fn jobq_scheduled_jobs_become_ready() {
    let mut st: QueueState<&str> = QueueState::new();
    st.enqueue_at(Job::new("a".into(), "q".into(), "late"), 5 * SEC);
    st.enqueue_at(Job::new("b".into(), "q".into(), "early"), 2 * SEC);
    match st.next_job("q", SEC) {
        NextJob::WaitUntil(t) => assert_eq!(t, 2 * SEC),
        _ => panic!("expected a wait"),
    }
    match st.next_job("q", 6 * SEC) {
        NextJob::Run(j) => assert_eq!(j.payload, "early"),
        _ => panic!("expected a job"),
    }
    match st.next_job("q", 6 * SEC) {
        NextJob::Run(j) => assert_eq!(j.payload, "late"),
        _ => panic!("expected a job"),
    }
}

#[test]
fn jobq_retries_with_backoff_then_dead_letter() {
    let job = Job::new("x".into(), "q".into(), ()).with_retries(2);
    let job = match after_failure(job, 10) {
        AfterFailure::RetryAt(at, j) => {
            assert_eq!(at, 10 + SEC);
            assert_eq!(j.attempts, 1);
            assert_eq!(j.status, JobStatus::Pending);
            j
        }
        _ => panic!("expected a retry"),
    };
    let job = match after_failure(job, 0) {
        AfterFailure::RetryAt(at, j) => {
            assert_eq!(at, 4 * SEC);
            j
        }
        _ => panic!("expected a retry"),
    };
    let mut st: QueueState<()> = QueueState::new();
    st.finalize(job, false, 0);
    assert_eq!(st.dead_letter_count(), 1);
}

#[test]
fn jobq_success_is_final() {
    let mut st: QueueState<()> = QueueState::new();
    st.finalize(Job::new("ok".into(), "q".into(), ()), true, 0);
    assert_eq!(st.dead_letter_count(), 0);
    assert!(matches!(st.next_job("q", 100 * SEC), NextJob::Wait));
}

#[test]
fn jobq_promote_due_moves_every_due_job_to_its_queue() {
    let mut st: QueueState<&str> = QueueState::new();
    st.enqueue_at(Job::new("a".into(), "q".into(), "q-late"), 3 * SEC);
    st.enqueue_at(Job::new("b".into(), "r".into(), "r-due"), 2 * SEC);
    st.enqueue_at(Job::new("c".into(), "q".into(), "q-early"), SEC);
    st.enqueue_at(Job::new("d".into(), "q".into(), "q-future"), 9 * SEC);
    assert_eq!(st.promote_due(3 * SEC), Some(9 * SEC));
    let mut q = Vec::new();
    while let NextJob::Run(j) = st.next_job("q", 3 * SEC) {
        q.push(j.payload);
    }
    assert_eq!(q, vec!["q-early", "q-late"]);
    match st.next_job("r", 3 * SEC) {
        NextJob::Run(j) => assert_eq!(j.payload, "r-due"),
        _ => panic!("expected a job"),
    }
    assert_eq!(st.promote_due(10 * SEC), None);
    match st.next_job("q", 10 * SEC) {
        NextJob::Run(j) => assert_eq!(j.payload, "q-future"),
        _ => panic!("expected a job"),
    }
}
