use forgesim::events::{Event, EventKind, EventQueue};

fn event(time: u64, job: &str) -> Event {
    Event { time, kind: EventKind::JobArrival, job_id: job.into(), run_generation: 0 }
}

#[test]
fn queue_pops_earliest_first_and_ties_in_order() {
    let mut q = EventQueue::new();
    q.push(event(5, "a"));
    q.push(event(1, "b"));
    q.push(event(5, "c"));
    q.push(event(1, "d"));
    assert_eq!(q.len(), 4);
    let order: Vec<String> = std::iter::from_fn(|| q.pop()).map(|e| e.job_id).collect();
    assert_eq!(order, vec!["d", "b", "c", "a"]);
    assert!(q.pop().is_none());
}
