use inference_core::scheduler::{PrefillScheduler, SchedulerRequest};
use inference_core::types::Request;
use std::time::Instant;

#[test]
fn empty_scheduler_schedules_nothing() {
    let mut scheduler = PrefillScheduler::new(10);
    assert!(scheduler.schedule().is_empty());
    assert_eq!(scheduler.waiting_len(), 0);
    assert_eq!(scheduler.running_len(), 0);
}

#[test]
fn budget_is_filled_exactly() {
    let mut scheduler = PrefillScheduler::new(5);
    scheduler.add(Request::new(1, vec![1, 2]));
    scheduler.add(Request::new(2, vec![3, 4, 5]));
    scheduler.add(Request::new(3, vec![6]));
    let batch = scheduler.schedule();
    assert_eq!(batch.len(), 2);
    assert_eq!(scheduler.waiting_len(), 1);
    assert_eq!(scheduler.running_len(), 2);
}

#[test]
fn schedule_stops_at_first_request_that_does_not_fit() {
    let mut scheduler = PrefillScheduler::new(4);
    scheduler.add(Request::new(1, vec![1, 2, 3, 4, 5]));
    scheduler.add(Request::new(2, vec![1]));
    let batch = scheduler.schedule();
    assert!(batch.is_empty());
    assert_eq!(scheduler.waiting_len(), 2);
}

#[test]
fn empty_prompts_fit_a_full_budget() {
    let mut scheduler = PrefillScheduler::new(2);
    scheduler.add(Request::new(1, vec![1, 2]));
    scheduler.add(Request::new(2, vec![]));
    let batch = scheduler.schedule();
    assert_eq!(batch.len(), 2);
}

#[test]
fn next_schedule_continues_where_the_last_stopped() {
    let mut scheduler = PrefillScheduler::new(3);
    scheduler.add(Request::new(1, vec![1, 2, 3]));
    scheduler.add(Request::new(2, vec![4, 5]));
    let first = scheduler.schedule();
    assert_eq!(first[0].id, 1);
    let second = scheduler.schedule();
    assert_eq!(second.len(), 1);
    assert_eq!(second[0].id, 2);
    assert_eq!(second[0].prompt_tokens, vec![4, 5]);
    assert_eq!(scheduler.running_len(), 2);
}

#[test]
fn complete_keeps_other_requests() {
    let mut scheduler = PrefillScheduler::new(100);
    scheduler.add(Request::new(1, vec![1]));
    scheduler.add(Request::new(2, vec![2]));
    scheduler.add(Request::new(1, vec![3]));
    scheduler.schedule();
    assert_eq!(scheduler.running_len(), 3);
    scheduler.complete(1);
    assert_eq!(scheduler.running_len(), 1);
    scheduler.complete(5);
    assert_eq!(scheduler.running_len(), 1);
}

#[test]
fn scheduler_request_clone_keeps_arrival_time() {
    let sr = SchedulerRequest {
        request: Request::new(4, vec![1, 2]),
        arrival_time: Instant::now(),
    };
    let copy = sr.clone();
    assert_eq!(copy.arrival_time, sr.arrival_time);
    assert_eq!(copy.request.id, 4);
}

#[test]
fn waiting_and_running_counts_follow_the_calls() {
    let mut scheduler = PrefillScheduler::new(4);
    scheduler.add(Request::new(1, vec![1, 2]));
    scheduler.add(Request::new(2, vec![3, 4]));
    scheduler.add(Request::new(3, vec![5]));
    let first = scheduler.schedule();
    assert_eq!(first.len(), 2);
    assert_eq!(scheduler.waiting_len(), 3 - 2);
    scheduler.add(Request::new(1, vec![6]));
    let second = scheduler.schedule();
    assert_eq!(second.len(), 2);
    assert_eq!(scheduler.waiting_len(), 4 - 4);
    // id 1 was scheduled twice, ids 2 and 3 once
    assert_eq!(scheduler.running_len(), 4);
    scheduler.complete(1);
    assert_eq!(scheduler.running_len(), 2);
}
