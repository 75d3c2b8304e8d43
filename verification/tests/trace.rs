use forgesim::cluster::Cluster;
use forgesim::config::ConfigError;
use forgesim::models::{Gpu, Node};
use forgesim::trace::{
    gpu_id_for_index, jobs_from_trace, normalize_gpu_refs, oracle_placements_from_trace, placement_sets_match,
    run_trace_replay, GpuRef, TraceEvent,
};

fn one_gpu_cluster() -> Cluster {
    Cluster::new(vec![Node { id: "node-0".into(), gpus: vec![Gpu::new("gpu-0", "node-0", "H100_80GB", 80)] }])
}

fn two_gpu_cluster() -> Cluster {
    Cluster::new(vec![Node {
        id: "node-0".into(),
        gpus: vec![Gpu::new("gpu-0", "node-0", "H100_80GB", 80), Gpu::new("gpu-1", "node-0", "H100_80GB", 80)],
    }])
}

fn submitted(timestamp: u64, job: &str, runtime: u64) -> TraceEvent {
    TraceEvent::JobSubmitted { timestamp, job: job.into(), gpu_count: 1, runtime, gpu_memory_gb: 0, priority: 0 }
}

fn scheduled(timestamp: u64, job: &str, gpu: &str) -> TraceEvent {
    TraceEvent::JobScheduled { timestamp, job: job.into(), node: "node-0".into(), gpus: vec![GpuRef::Id(gpu.into())] }
}

#[test]
fn normalizes_gpu_indices() {
    let cluster = Cluster::new(vec![Node {
        id: "node-4".into(),
        gpus: (0..4).map(|i| Gpu::new(&format!("node-4-gpu-{i}"), "node-4", "H100_80GB", 80)).collect(),
    }]);
    let events = vec![TraceEvent::JobScheduled {
        timestamp: 18,
        job: "llama70b".into(),
        node: "node-4".into(),
        gpus: vec![GpuRef::Index(0), GpuRef::Index(1), GpuRef::Index(2), GpuRef::Index(3)],
    }];
    let oracle = oracle_placements_from_trace(&events, &cluster).unwrap();
    assert_eq!(oracle[0].gpu_ids.len(), 4);
    assert_eq!(oracle[0].gpu_ids[0], "node-4-gpu-0");
}

#[test]
fn fifo_trace_replay_matches_oracle() {
    let events = vec![
        submitted(0, "j1", 100),
        submitted(5, "j2", 50),
        scheduled(0, "j1", "gpu-0"),
        scheduled(100, "j2", "gpu-0"),
    ];
    let result = run_trace_replay(&events, one_gpu_cluster(), "fifo").unwrap();
    assert_eq!(result.report.matching_placements, 2);
    assert_eq!(result.report.differing_placements, 0);
}

#[test]
fn detects_scheduler_divergence() {
    let events = vec![
        submitted(0, "j1", 100),
        submitted(0, "j2", 50),
        scheduled(0, "j2", "gpu-1"),
        scheduled(50, "j1", "gpu-0"),
    ];
    let result = run_trace_replay(&events, two_gpu_cluster(), "fifo").unwrap();
    assert_eq!(result.report.differing_placements, 2);
    assert!(result.report.diffs.iter().all(|d| !d.placement_match));
}

#[test]
fn replay_errors() {
    let only_scheduled = vec![scheduled(0, "j1", "gpu-0")];
    match run_trace_replay(&only_scheduled, one_gpu_cluster(), "fifo") {
        Err(ConfigError::Invalid(m)) => assert_eq!(m, "trace must contain at least one JobSubmitted event"),
        Ok(_) => panic!("expected an error"),
    }
    let events = vec![submitted(0, "j1", 10), scheduled(0, "j1", "gpu-0")];
    match run_trace_replay(&events, one_gpu_cluster(), "priority") {
        Err(ConfigError::Invalid(m)) => assert_eq!(m, "unsupported scheduler type 'priority' for trace replay"),
        Ok(_) => panic!("expected an error"),
    }
}

#[test]
fn unknown_gpu_reference_is_an_error() {
    let refs = vec![GpuRef::Id("gpu-7".into())];
    assert!(normalize_gpu_refs("node-0", &refs, &one_gpu_cluster()).is_err());
    let refs = vec![GpuRef::Index(0)];
    assert!(normalize_gpu_refs("node-0", &refs, &one_gpu_cluster()).is_err());
    let cluster = Cluster::new(vec![Node { id: "n".into(), gpus: vec![Gpu::new("n-gpu-12", "n", "H100", 80)] }]);
    assert_eq!(normalize_gpu_refs("n", &vec![GpuRef::Index(12)], &cluster).unwrap(), vec!["n-gpu-12".to_string()]);
    assert_eq!(gpu_id_for_index("node-3", 105), "node-3-gpu-105");
}

#[test]
fn trace_jobs_and_placement_sets() {
    let events = vec![submitted(3, "j1", 10), scheduled(3, "j1", "gpu-0"), submitted(4, "j2", 20)];
    let jobs = jobs_from_trace(&events).unwrap();
    assert_eq!(jobs.len(), 2);
    assert_eq!(jobs[1].id, "j2");
    assert_eq!(jobs[1].arrival_time, 4);
    assert_eq!(jobs[1].runtime, 20);
    let a = vec!["x".to_string(), "y".to_string()];
    let b = vec!["y".to_string(), "x".to_string()];
    let c = vec!["x".to_string()];
    assert!(placement_sets_match(&a, &b));
    assert!(!placement_sets_match(&a, &c));
}
