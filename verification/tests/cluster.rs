use forgesim::cluster::Cluster;
use forgesim::models::{Gpu, Job, JobState, MigSlice, Node};

fn sample_node() -> Node {
    let mut g0 = Gpu::new("gpu-0", "node-0", "H100_80GB", 80);
    g0.nvlink_group = Some(0);
    let mut g1 = Gpu::new("gpu-1", "node-0", "H100_80GB", 80);
    g1.nvlink_group = Some(1);
    Node { id: "node-0".into(), gpus: vec![g0, g1] }
}

#[test]
fn tenant_gpu_usage_sums_running_jobs_for_tenant() {
    let mut cluster = Cluster::new(vec![sample_node()]);
    let mut a = Job::new("j1", "a", 0, 10, 1);
    a.tenant = Some("acme".into());
    let mut b = Job::new("j2", "b", 0, 10, 1);
    b.tenant = Some("other".into());
    cluster.start_job(a, &["gpu-0".into()], 0);
    cluster.start_job(b, &["gpu-1".into()], 0);

    assert_eq!(cluster.tenant_gpu_usage("acme"), 1);
    assert_eq!(cluster.tenant_gpu_usage("other"), 1);
    assert_eq!(cluster.tenant_gpu_usage("nobody"), 0);
}

#[test]
fn finish_job_frees_gpus() {
    let mut cluster = Cluster::new(vec![sample_node()]);
    let job = Job::new("j1", "job-1", 0, 10, 1);
    cluster.start_job(job, &["gpu-0".into()], 0);
    assert_eq!(cluster.free_gpu_count(), 1);
    cluster.finish_job("j1", 10);
    assert_eq!(cluster.free_gpu_count(), 2);
}

#[test]
fn finish_job_frees_mig_slices() {
    let mut gpu = sample_node().gpus.into_iter().next().unwrap();
    gpu.mig_capable = true;
    gpu.slices.push(MigSlice {
        id: "gpu-0-mig-0".into(),
        profile: "1g.10gb".into(),
        memory_gb: 10,
        running_job_id: None,
    });
    let mut cluster = Cluster::new(vec![Node { id: "node-0".into(), gpus: vec![gpu] }]);
    let job = Job::new("j1", "job-1", 0, 10, 1);
    cluster.start_job(job, &["gpu-0-mig-0".into()], 0);
    assert!(cluster.slice("gpu-0-mig-0").unwrap().running_job_id.is_some());
    cluster.finish_job("j1", 10);
    assert!(cluster.slice("gpu-0-mig-0").unwrap().running_job_id.is_none());
}

#[test]
fn start_then_finish_records_times_and_state() {
    let mut cluster = Cluster::new(vec![sample_node()]);
    cluster.start_job(Job::new("j1", "a", 2, 10, 2), &["gpu-0".into(), "gpu-1".into()], 4);
    assert_eq!(cluster.running_jobs.len(), 1);
    assert_eq!(cluster.running_jobs[0].state, JobState::Running);
    assert_eq!(cluster.running_jobs[0].start_time, Some(4));
    assert_eq!(cluster.gpu("gpu-1").unwrap().running_job_id.as_deref(), Some("j1"));
    let done = cluster.finish_job("j1", 14).unwrap();
    assert_eq!(done.state, JobState::Finished);
    assert_eq!(done.finish_time, Some(14));
    assert_eq!(done.assigned_gpus, vec!["gpu-0".to_string(), "gpu-1".to_string()]);
    assert!(cluster.running_jobs.is_empty());
    assert_eq!(cluster.finished_jobs.len(), 1);
    assert!(cluster.gpu("gpu-0").unwrap().running_job_id.is_none());
    assert!(cluster.finish_job("j1", 20).is_none());
}

#[test]
fn marking_unknown_resource_changes_nothing() {
    let mut cluster = Cluster::new(vec![sample_node()]);
    cluster.mark_resource_busy("gpu-9", "j1");
    assert_eq!(cluster.free_gpu_count(), 2);
    cluster.mark_resource_busy("gpu-1", "j1");
    assert_eq!(cluster.free_gpu_count(), 1);
    cluster.mark_resource_free("gpu-1");
    assert_eq!(cluster.free_gpu_count(), 2);
    assert!(cluster.gpu("gpu-9").is_none());
}

#[test]
fn counts_and_listing() {
    let cluster = Cluster::new(vec![sample_node(), Node { id: "node-1".into(), gpus: vec![Gpu::new("gpu-2", "node-1", "A100", 40)] }]);
    assert_eq!(cluster.gpu_count(), 3);
    let ids: Vec<&str> = cluster.all_gpus().iter().map(|g| g.id.as_str()).collect();
    assert_eq!(ids, vec!["gpu-0", "gpu-1", "gpu-2"]);
    assert!(cluster.is_wf());
    assert!(!cluster.any_mig_capable());
}

#[test]
fn duplicate_running_ids_break_the_invariant() {
    let mut cluster = Cluster::new(vec![sample_node()]);
    cluster.running_jobs.push(Job::new("j1", "a", 0, 1, 1));
    assert!(cluster.is_wf());
    cluster.running_jobs.push(Job::new("j1", "b", 0, 1, 1));
    assert!(!cluster.is_wf());
}

#[test]
fn sort_waiting_is_stable_by_arrival() {
    let mut cluster = Cluster::new(vec![sample_node()]);
    cluster.enqueue_job(Job::new("c", "c", 5, 1, 1));
    cluster.enqueue_job(Job::new("a", "a", 1, 1, 1));
    cluster.enqueue_job(Job::new("b", "b", 5, 1, 1));
    cluster.enqueue_job(Job::new("d", "d", 0, 1, 1));
    cluster.sort_waiting_by_arrival();
    let order: Vec<&str> = cluster.waiting_queue.iter().map(|j| j.id.as_str()).collect();
    assert_eq!(order, vec!["d", "a", "c", "b"]);
}

#[test]
fn mutable_lookups_change_one_resource() {
    let mut gpu = Gpu::new("gpu-0", "node-0", "H100_80GB", 80);
    gpu.slices.push(MigSlice { id: "gpu-0-mig-0".into(), profile: "1g.10gb".into(), memory_gb: 10, running_job_id: None });
    let mut cluster = Cluster::new(vec![Node { id: "node-0".into(), gpus: vec![gpu, Gpu::new("gpu-1", "node-0", "H100_80GB", 80)] }]);
    assert!(cluster.gpu_mut("gpu-0-mig-0").is_none());
    assert!(cluster.gpu_mut("gpu-7").is_none());
    cluster.gpu_mut("gpu-1").unwrap().running_job_id = Some("j".into());
    assert_eq!(cluster.gpu("gpu-1").unwrap().running_job_id.as_deref(), Some("j"));
    cluster.slice_mut("gpu-0-mig-0").unwrap().running_job_id = Some("k".into());
    assert_eq!(cluster.slice("gpu-0-mig-0").unwrap().running_job_id.as_deref(), Some("k"));
    assert!(cluster.slice_mut("gpu-1").is_none());
    assert_eq!(cluster.free_gpu_count(), 0);
}

#[test]
fn has_gpu_profile_finds_the_hardware_of_any_gpu() {
    let cluster = Cluster::new(vec![
        Node { id: "a".into(), gpus: vec![Gpu::new("a0", "a", "A100_40GB", 40)] },
        Node { id: "b".into(), gpus: vec![Gpu::new("b0", "b", "H100_80GB", 80)] },
    ]);
    assert!(cluster.has_gpu_profile("H100_80GB"));
    assert!(cluster.has_gpu_profile("A100_40GB"));
    assert!(!cluster.has_gpu_profile("H200"));
}
