use systems::task_scheduler::{SchedulerAction, SchedulerState};

#[test]
fn scheduler_runs_tasks_in_time_order() {
    let mut s = SchedulerState::new();
    assert!(s.schedule_at(100, 2));
    assert!(s.schedule_at(20, 1));
    assert!(!s.schedule_at(150, 3));
    assert_eq!(s.next_action(0), SchedulerAction::WaitFor(20));
    assert_eq!(s.next_action(20), SchedulerAction::Run(1));
    assert_eq!(s.next_action(20), SchedulerAction::WaitFor(80));
    assert_eq!(s.next_action(200), SchedulerAction::Run(2));
    assert_eq!(s.next_action(200), SchedulerAction::Run(3));
    assert_eq!(s.next_action(200), SchedulerAction::WaitForWork);
}

#[test]
fn scheduler_equal_times_run_in_queue_order() {
    let mut s = SchedulerState::new();
    s.schedule_at(10, 7);
    assert!(!s.schedule_at(10, 8));
    assert_eq!(s.next_action(10), SchedulerAction::Run(7));
    assert_eq!(s.next_action(10), SchedulerAction::Run(8));
}

#[test]
fn scheduler_stop_wins() {
    let mut s = SchedulerState::new();
    s.schedule_at(0, 1);
    s.stop();
    assert_eq!(s.next_action(5), SchedulerAction::Stop);
    assert_eq!(s.next_action(5), SchedulerAction::Stop);
}

#[test]
fn scheduler_many_tasks_same_delay() {
    let mut s = SchedulerState::new();
    for id in 0..10u64 {
        s.schedule_at(10, id);
    }
    let mut ran = 0;
    while let SchedulerAction::Run(_) = s.next_action(50) {
        ran += 1;
    }
    assert_eq!(ran, 10);
}
