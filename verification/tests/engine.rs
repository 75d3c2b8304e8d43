use forgesim::cluster::Cluster;
use forgesim::engine::{Scheduler, SimulationEngine};
use forgesim::fifo::FifoScheduler;
use forgesim::preemptive::PreemptivePriorityScheduler;
use forgesim::metrics::SimulationMetrics;
use forgesim::models::{Gpu, Job, JobState, Node, Placement};
use forgesim::resource::ResourceManager;

struct TestScheduler;

impl Scheduler for TestScheduler {
    fn schedule(&mut self, cluster: &mut Cluster, rm: &ResourceManager) -> Vec<Placement> {
        cluster.sort_waiting_by_arrival();
        let mut placements = Vec::new();
        let waiting: Vec<Job> = cluster.waiting_queue.iter().map(|j| j.duplicate()).collect();
        for job in waiting {
            if rm.can_place(cluster, &job) {
                if let Ok(p) = rm.allocate(cluster, &job, cluster.clock) {
                    for id in &p.gpu_ids {
                        cluster.mark_resource_busy(id, &job.id);
                    }
                    placements.push(p);
                }
            }
        }
        for p in &placements {
            for id in &p.gpu_ids {
                cluster.mark_resource_free(id);
            }
        }
        placements
    }
}

fn cluster() -> Cluster {
    Cluster::new(vec![Node { id: "n0".into(), gpus: vec![Gpu::new("g0", "n0", "H100", 80)] }])
}

#[test]
fn runs_jobs_to_completion() {
    let mut engine = SimulationEngine::new(cluster(), TestScheduler);
    engine.submit_jobs(vec![Job::new("j1", "a", 0, 5, 1), Job::new("j2", "b", 2, 3, 1)]);
    engine.run();
    assert_eq!(engine.cluster.finished_jobs.len(), 2);
}

#[test]
fn fifo_engine_serializes_jobs_on_one_gpu() {
    let mut engine = SimulationEngine::new(cluster(), FifoScheduler);
    engine.submit_jobs(vec![Job::new("j2", "b", 2, 3, 1), Job::new("j1", "a", 0, 5, 1)]);
    engine.run();
    let finished = &engine.cluster.finished_jobs;
    assert_eq!(finished.len(), 2);
    assert_eq!(finished[0].id, "j1");
    assert_eq!(finished[0].start_time, Some(0));
    assert_eq!(finished[0].finish_time, Some(5));
    assert_eq!(finished[1].id, "j2");
    assert_eq!(finished[1].start_time, Some(5));
    assert_eq!(finished[1].finish_time, Some(8));
    assert_eq!(engine.cluster.clock, 8);
    assert_eq!(engine.event_queue.len(), 0);
    assert!(engine.pending_arrivals.is_empty());
    assert!(engine.cluster.running_jobs.is_empty());
}

#[test]
fn job_that_never_fits_keeps_waiting() {
    let mut engine = SimulationEngine::new(cluster(), FifoScheduler);
    engine.submit_jobs(vec![Job::new("big", "big", 0, 5, 2), Job::new("small", "s", 1, 5, 1)]);
    engine.run();
    assert_eq!(engine.cluster.finished_jobs.len(), 1);
    assert_eq!(engine.cluster.waiting_queue.len(), 1);
    assert_eq!(engine.cluster.waiting_queue[0].id, "big");
}

/// Evicts "low" to make room for "high" whenever "high" doesn't otherwise
/// fit.
struct PreemptingTestScheduler;

fn place(cluster: &mut Cluster, rm: &ResourceManager, job: &Job, placements: &mut Vec<Placement>) -> bool {
    if !rm.can_place(cluster, job) {
        return false;
    }
    let Ok(placement) = rm.allocate(cluster, job, cluster.clock) else {
        return false;
    };
    for id in &placement.gpu_ids {
        cluster.mark_resource_busy(id, &job.id);
    }
    placements.push(placement);
    true
}

impl Scheduler for PreemptingTestScheduler {
    fn schedule(&mut self, cluster: &mut Cluster, rm: &ResourceManager) -> Vec<Placement> {
        cluster.sort_waiting_by_arrival();
        let waiting: Vec<Job> = cluster.waiting_queue.iter().map(|j| j.duplicate()).collect();
        let mut placements = Vec::new();
        for job in waiting {
            if place(cluster, rm, &job, &mut placements) {
                continue;
            }
            if job.id != "high" {
                continue;
            }
            let Some(victim) = cluster.evict_job("low") else {
                continue;
            };
            if place(cluster, rm, &job, &mut placements) {
                let mut victim = victim;
                victim.requeue_after_preemption(cluster.clock);
                cluster.waiting_queue.push(victim);
            } else {
                cluster.resume_evicted_job(victim);
            }
        }
        for p in &placements {
            for id in &p.gpu_ids {
                cluster.mark_resource_free(id);
            }
        }
        placements
    }
}

#[test]
fn stale_job_complete_from_before_a_preemption_does_not_finish_the_resumed_run() {
    let mut engine = SimulationEngine::new(cluster(), PreemptingTestScheduler);
    engine.submit_jobs(vec![Job::new("low", "low", 0, 100, 1), Job::new("high", "high", 5, 20, 1)]);
    engine.run();
    assert_eq!(engine.cluster.finished_jobs.len(), 2);
    let low = engine.cluster.finished_jobs.iter().find(|j| j.id == "low").expect("low finished");
    assert_eq!(low.finish_time, Some(120));
    assert_eq!(low.preemption_count, 1);
    let high = engine.cluster.finished_jobs.iter().find(|j| j.id == "high").expect("high finished");
    assert_eq!(high.finish_time, Some(25));
}

#[test]
fn preemptive_scheduler_does_not_evict_equal_or_exempt_jobs() {
    let mut engine = SimulationEngine::new(cluster(), PreemptivePriorityScheduler);
    let mut first = Job::new("first", "a", 0, 10, 1);
    first.priority = 3;
    let mut second = Job::new("second", "b", 1, 10, 1);
    second.priority = 3;
    let mut urgent = Job::new("urgent", "c", 2, 10, 1);
    urgent.priority = 9;
    urgent.preemption_count = 0;
    engine.submit_jobs(vec![first, second, urgent]);
    engine.run();
    let ids: Vec<&str> = engine.cluster.finished_jobs.iter().map(|j| j.id.as_str()).collect();
    assert_eq!(ids, vec!["urgent", "first", "second"]);
    let first = &engine.cluster.finished_jobs[1];
    assert_eq!(first.preemption_count, 1);
    assert_eq!(first.finish_time, Some(20));
}

#[test]
fn preemptive_scheduler_spares_a_job_evicted_three_times() {
    let mut engine = SimulationEngine::new(cluster(), PreemptivePriorityScheduler);
    let mut worn = Job::new("worn", "a", 0, 10, 1);
    worn.priority = 1;
    worn.preemption_count = 3;
    let mut urgent = Job::new("urgent", "b", 2, 10, 1);
    urgent.priority = 9;
    engine.submit_jobs(vec![worn, urgent]);
    engine.run();
    let ids: Vec<&str> = engine.cluster.finished_jobs.iter().map(|j| j.id.as_str()).collect();
    assert_eq!(ids, vec!["worn", "urgent"]);
    assert_eq!(engine.cluster.finished_jobs[0].finish_time, Some(10));
    assert_eq!(engine.cluster.finished_jobs[1].finish_time, Some(20));
}

fn gang_job(id: &str, arrival: u64, timeout: u64) -> Job {
    let mut job = Job::new(id, id, arrival, 10, 1);
    job.gang_enabled = true;
    job.gang_timeout_secs = Some(timeout);
    job
}

#[test]
fn gang_timeout_fails_a_job_still_waiting() {
    let mut engine = SimulationEngine::new(cluster(), FifoScheduler);
    engine.submit_jobs(vec![Job::new("j1", "a", 0, 100, 1), gang_job("g1", 1, 10)]);
    engine.run();
    assert_eq!(engine.cluster.finished_jobs.len(), 1);
    assert_eq!(engine.cluster.finished_jobs[0].id, "j1");
    assert_eq!(engine.cluster.failed_jobs.len(), 1);
    assert_eq!(engine.cluster.failed_jobs[0].id, "g1");
    assert_eq!(engine.cluster.failed_jobs[0].state, JobState::Failed);
    assert!(engine.cluster.waiting_queue.is_empty());
    let metrics = SimulationMetrics::from_cluster(&engine.cluster, 2);
    assert_eq!(metrics.jobs_failed, 1);
    assert_eq!(metrics.jobs_completed, 1);
}

#[test]
fn gang_timeout_is_ignored_once_the_job_started() {
    let mut engine = SimulationEngine::new(cluster(), FifoScheduler);
    engine.submit_jobs(vec![Job::new("j1", "a", 0, 100, 1), gang_job("g1", 1, 500)]);
    engine.run();
    assert_eq!(engine.cluster.finished_jobs.len(), 2);
    assert_eq!(engine.cluster.finished_jobs[1].id, "g1");
    assert_eq!(engine.cluster.finished_jobs[1].start_time, Some(100));
    assert!(engine.cluster.failed_jobs.is_empty());
    assert_eq!(SimulationMetrics::from_cluster(&engine.cluster, 2).jobs_failed, 0);
}
