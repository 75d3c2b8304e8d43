use forgesim::cluster::Cluster;
use forgesim::metrics::SimulationMetrics;
use forgesim::models::{Gpu, Job, JobState, Node};

#[test]
fn computes_makespan_and_utilization() {
    let mut cluster = Cluster::new(vec![Node { id: "n0".into(), gpus: vec![Gpu::new("g0", "n0", "H100", 80)] }]);
    let mut job = Job::new("j1", "a", 0, 10, 1);
    job.state = JobState::Finished;
    job.start_time = Some(0);
    job.finish_time = Some(10);
    cluster.finished_jobs.push(job);
    cluster.clock = 10;

    let m = SimulationMetrics::from_cluster(&cluster, 1);
    assert_eq!(m.makespan, 10);
    let utilization = (m.busy_gpu_seconds as f64 / m.capacity_gpu_seconds as f64).min(1.0);
    assert!((utilization - 1.0).abs() < 1e-6);
}

#[test]
fn metrics_sum_waits_and_busy_time() {
    let mut cluster = Cluster::new(vec![Node {
        id: "n0".into(),
        gpus: vec![Gpu::new("g0", "n0", "H100", 80), Gpu::new("g1", "n0", "H100", 80)],
    }]);
    let mut a = Job::new("a", "a", 0, 10, 2);
    a.start_time = Some(4);
    a.finish_time = Some(14);
    let mut b = Job::new("b", "b", 1, 5, 1);
    b.start_time = Some(14);
    b.finish_time = Some(19);
    cluster.finished_jobs.push(a);
    cluster.finished_jobs.push(b);
    cluster.mig_reconfigs = 3;
    let m = SimulationMetrics::from_cluster(&cluster, 4);
    assert_eq!(m.makespan, 19);
    assert_eq!(m.total_wait_time, 4 + 13);
    assert_eq!(m.busy_gpu_seconds, 25);
    assert_eq!(m.capacity_gpu_seconds, 38);
    assert_eq!(m.jobs_completed, 2);
    assert_eq!(m.jobs_total, 4);
    assert_eq!(m.mig_reconfigs, 3);
    assert_eq!(m.preemptions, 0);
}

#[test]
fn empty_cluster_metrics_are_zero() {
    let cluster = Cluster::new(Vec::new());
    let m = SimulationMetrics::from_cluster(&cluster, 0);
    assert_eq!(m.makespan, 0);
    assert_eq!(m.capacity_gpu_seconds, 0);
    assert_eq!(m.jobs_completed, 0);
}

#[test]
fn scattered_bandwidth_job_counts_a_topology_penalty() {
    let mut g0 = forgesim::models::Gpu::new("g0", "n0", "H100", 80);
    g0.nvlink_group = Some(0);
    let mut g1 = forgesim::models::Gpu::new("g1", "n0", "H100", 80);
    g1.nvlink_group = Some(1);
    let mut g2 = forgesim::models::Gpu::new("g2", "n0", "H100", 80);
    g2.nvlink_group = Some(1);
    let cluster = forgesim::cluster::Cluster::new(vec![forgesim::models::Node { id: "n0".into(), gpus: vec![g0, g1, g2] }]);
    let mut engine = forgesim::engine::SimulationEngine::new(cluster, forgesim::fifo::FifoScheduler);
    let mut wide = forgesim::models::Job::new("wide", "w", 0, 10, 3);
    wide.network_bw_gbps = Some(100);
    let mut pair = forgesim::models::Job::new("pair", "p", 20, 10, 2);
    pair.network_bw_gbps = Some(100);
    let plain = forgesim::models::Job::new("plain", "x", 40, 10, 3);
    engine.submit_jobs(vec![wide, pair, plain]);
    engine.run();
    let m = forgesim::metrics::SimulationMetrics::from_cluster(&engine.cluster, 3);
    assert_eq!(m.jobs_completed, 3);
    assert_eq!(m.topology_penalties, 1);
}
