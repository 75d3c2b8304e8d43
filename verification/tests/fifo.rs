use forgesim::cluster::Cluster;
use forgesim::engine::Scheduler;
use forgesim::fifo::FifoScheduler;
use forgesim::priority::PriorityScheduler;
use forgesim::models::{Gpu, Job, Node};
use forgesim::resource::ResourceManager;

#[test]
fn fifo_schedules_earlier_job_first() {
    let mut cluster = Cluster::new(vec![Node { id: "n0".into(), gpus: vec![Gpu::new("g0", "n0", "H100", 80)] }]);
    cluster.clock = 0;
    cluster.enqueue_job(Job::new("j2", "late", 5, 10, 1));
    cluster.enqueue_job(Job::new("j1", "early", 0, 10, 1));

    let mut sched = FifoScheduler;
    let rm = ResourceManager::new();
    let placements = sched.schedule(&mut cluster, &rm);

    assert_eq!(placements.len(), 1);
    assert_eq!(placements[0].job_id, "j1");
}

#[test]
fn fifo_places_several_and_leaves_resources_unmarked() {
    let mut cluster = Cluster::new(vec![Node {
        id: "n0".into(),
        gpus: vec![Gpu::new("g0", "n0", "H100", 80), Gpu::new("g1", "n0", "H100", 80), Gpu::new("g2", "n0", "H100", 80)],
    }]);
    cluster.clock = 7;
    cluster.enqueue_job(Job::new("a", "a", 0, 10, 2));
    cluster.enqueue_job(Job::new("b", "b", 1, 10, 2));
    cluster.enqueue_job(Job::new("c", "c", 2, 10, 1));
    let rm = ResourceManager::new();
    let placements = FifoScheduler.schedule_fifo(&mut cluster, &rm);
    let ids: Vec<&str> = placements.iter().map(|p| p.job_id.as_str()).collect();
    assert_eq!(ids, vec!["a", "c"]);
    assert_eq!(placements[0].gpu_ids, vec!["g0".to_string(), "g1".to_string()]);
    assert_eq!(placements[1].gpu_ids, vec!["g2".to_string()]);
    assert_eq!(placements[1].start_time, 7);
    assert_eq!(cluster.free_gpu_count(), 3);
    assert_eq!(cluster.waiting_queue.len(), 3);
}

#[test]
fn fifo_skips_a_job_over_its_tenant_quota() {
    let mut cluster = Cluster::new(vec![Node {
        id: "n0".into(),
        gpus: vec![Gpu::new("g0", "n0", "H100", 80), Gpu::new("g1", "n0", "H100", 80)],
    }]);
    cluster.tenant_quotas = vec![("acme".into(), 1)];
    let mut big = Job::new("a", "a", 0, 10, 2);
    big.tenant = Some("acme".into());
    cluster.enqueue_job(big);
    cluster.enqueue_job(Job::new("b", "b", 1, 10, 1));
    let rm = ResourceManager::new();
    let placements = FifoScheduler.schedule_fifo(&mut cluster, &rm);
    assert_eq!(placements.len(), 1);
    assert_eq!(placements[0].job_id, "b");
    assert_eq!(placements[0].gpu_ids, vec!["g0".to_string()]);
}

#[test]
fn priority_scheduler_orders_by_priority_then_arrival() {
    let mut cluster = Cluster::new(vec![Node { id: "n0".into(), gpus: vec![Gpu::new("g0", "n0", "H100", 80)] }]);
    let mut early_low = Job::new("early-low", "a", 0, 10, 1);
    early_low.priority = 1;
    let mut late_high = Job::new("late-high", "b", 5, 10, 1);
    late_high.priority = 9;
    let mut early_high = Job::new("early-high", "c", 2, 10, 1);
    early_high.priority = 9;
    cluster.enqueue_job(early_low);
    cluster.enqueue_job(late_high);
    cluster.enqueue_job(early_high);
    let rm = ResourceManager::new();
    let placements = PriorityScheduler.schedule(&mut cluster, &rm);
    assert_eq!(placements.len(), 1);
    assert_eq!(placements[0].job_id, "early-high");
    let order: Vec<&str> = cluster.waiting_queue.iter().map(|j| j.id.as_str()).collect();
    assert_eq!(order, vec!["early-high", "late-high", "early-low"]);
    assert_eq!(cluster.free_gpu_count(), 1);
}
