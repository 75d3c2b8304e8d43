use forgesim::cluster::Cluster;
use forgesim::mig::{MigProfileRegistry, MigProfileSpec, SimError};
use forgesim::models::{Gpu, Job, Node};
use forgesim::resource::{GpuSelectionPolicy, ResourceManager};

fn mig_registry() -> MigProfileRegistry {
    MigProfileRegistry {
        hardware: "H100_80GB".into(),
        reconfig_seconds: 30,
        profiles: vec![("1g.10gb".into(), MigProfileSpec { memory_gb: 10, max_per_gpu: 7 })],
    }
}

fn mig_gpu_cluster() -> Cluster {
    let mut gpu = Gpu::new("gpu-0", "node-0", "H100_80GB", 80);
    gpu.mig_capable = true;
    Cluster::new(vec![Node { id: "node-0".into(), gpus: vec![gpu] }])
}

fn h100(id: &str) -> Gpu {
    Gpu::new(id, "n0", "H100", 80)
}

#[test]
fn no_partial_allocation() {
    let cluster = Cluster::new(vec![Node { id: "n0".into(), gpus: vec![h100("g0"), h100("g1")] }]);
    let rm = ResourceManager::new();
    let job = Job::new("j1", "big", 0, 10, 2);
    assert!(rm.can_place(&cluster, &job));
    let mut copy = Cluster::new(vec![Node { id: "n0".into(), gpus: vec![h100("g0"), h100("g1")] }]);
    let p = rm.allocate(&mut copy, &job, 0).unwrap();
    assert_eq!(p.gpu_ids.len(), 2);
}

#[test]
fn rejects_when_not_enough_gpus() {
    let cluster = Cluster::new(vec![Node { id: "n0".into(), gpus: vec![h100("g0")] }]);
    let rm = ResourceManager::new();
    let job = Job::new("j1", "big", 0, 10, 3);
    assert!(!rm.can_place(&cluster, &job));
}

#[test]
fn mig_job_reconfigures_and_allocates_slices() {
    let mut cluster = mig_gpu_cluster();
    let rm = ResourceManager::with_mig(mig_registry());
    let mut job = Job::new("j1", "infer", 0, 10, 1);
    job.mig_profile = Some("1g.10gb".into());
    job.mig_count = Some(2);

    let placement = rm.allocate(&mut cluster, &job, 0).unwrap();
    assert_eq!(placement.gpu_ids.len(), 2);
    assert_eq!(placement.start_time, 30);
    assert_eq!(cluster.mig_reconfigs, 1);
    assert_eq!(cluster.all_gpus()[0].slices.len(), 2);
}

#[test]
fn second_mig_job_reuses_existing_slices() {
    let mut cluster = mig_gpu_cluster();
    let rm = ResourceManager::with_mig(mig_registry());
    let mut job_a = Job::new("j1", "a", 0, 10, 1);
    job_a.mig_profile = Some("1g.10gb".into());
    job_a.mig_count = Some(2);
    let p1 = rm.allocate(&mut cluster, &job_a, 0).unwrap();
    cluster.start_job(job_a, &p1.gpu_ids, p1.start_time);

    let mut job_b = Job::new("j2", "b", 1, 5, 1);
    job_b.mig_profile = Some("1g.10gb".into());
    job_b.mig_count = Some(1);
    assert!(!rm.can_place(&cluster, &job_b));

    cluster.finish_job("j1", 40);
    let p2 = rm.allocate(&mut cluster, &job_b, 40).unwrap();
    assert_eq!(p2.gpu_ids.len(), 1);
    assert_eq!(p2.start_time, 40);
    assert_eq!(cluster.mig_reconfigs, 1);
}

#[test]
fn slice_ids_name_the_partitioned_gpu() {
    let mut cluster = mig_gpu_cluster();
    let rm = ResourceManager::with_mig(mig_registry());
    let mut job = Job::new("j1", "infer", 0, 10, 1);
    job.mig_profile = Some("1g.10gb".into());
    job.mig_count = Some(3);
    let p = rm.allocate(&mut cluster, &job, 5).unwrap();
    assert_eq!(p.gpu_ids, vec!["gpu-0-mig-0".to_string(), "gpu-0-mig-1".to_string(), "gpu-0-mig-2".to_string()]);
    assert_eq!(p.start_time, 35);
    assert_eq!(cluster.all_gpus()[0].active_mig_profile.as_deref(), Some("1g.10gb"));
}

#[test]
fn whole_gpu_placement_respects_memory() {
    let small = Gpu::new("g-small", "n0", "A10", 24);
    let cluster = Cluster::new(vec![Node { id: "n0".into(), gpus: vec![small, h100("g-big")] }]);
    let rm = ResourceManager::new();
    let mut job = Job::new("j1", "a", 0, 10, 1);
    job.gpu_memory_gb = 40;
    assert!(rm.can_place(&cluster, &job));
    let mut c = cluster;
    let p = rm.allocate(&mut c, &job, 0).unwrap();
    assert_eq!(p.gpu_ids, vec!["g-big".to_string()]);
    job.gpu_count = 2;
    assert!(!rm.can_place(&c, &job));
    match rm.allocate(&mut c, &job, 0) {
        Err(SimError::InsufficientGpus { need, available }) => {
            assert_eq!(need, 2);
            assert_eq!(available, 2);
        },
        other => panic!("unexpected {:?}", other),
    }
}

#[test]
fn zero_gpu_job_is_never_placed() {
    let cluster = Cluster::new(vec![Node { id: "n0".into(), gpus: vec![h100("g0")] }]);
    let rm = ResourceManager::new();
    assert!(!rm.can_place(&cluster, &Job::new("j0", "none", 0, 1, 0)));
}

#[test]
fn mig_errors() {
    let mut cluster = mig_gpu_cluster();
    let mut job = Job::new("j1", "infer", 0, 10, 1);
    job.mig_profile = Some("3g.40gb".into());
    let rm = ResourceManager::new();
    assert!(matches!(rm.allocate(&mut cluster, &job, 0), Err(SimError::Config(_))));
    let rm = ResourceManager::with_mig(mig_registry());
    match rm.allocate(&mut cluster, &job, 0) {
        Err(SimError::UnknownMigProfile(p)) => assert_eq!(p, "3g.40gb"),
        other => panic!("unexpected {:?}", other),
    }
    job.mig_profile = Some("1g.10gb".into());
    job.mig_count = Some(8);
    assert!(matches!(rm.allocate(&mut cluster, &job, 0), Err(SimError::InsufficientGpus { need: 8, .. })));
    assert_eq!(cluster.mig_reconfigs, 0);
}

#[test]
fn release_changes_nothing() {
    let mut cluster = mig_gpu_cluster();
    let rm = ResourceManager::new();
    rm.release(&mut cluster, &Job::new("j", "j", 0, 1, 1));
    assert_eq!(cluster.free_gpu_count(), 1);
}

#[test]
fn default_manager_places_whole_gpus_only() {
    let rm = ResourceManager::default();
    assert!(rm.mig_registry.is_none());
}

#[test]
fn quota_holds_a_job_that_would_exceed_it() {
    let mut cluster = Cluster::new(vec![Node { id: "n0".into(), gpus: vec![h100("g0"), h100("g1")] }]);
    cluster.tenant_quotas = vec![("acme".into(), 0)];
    let rm = ResourceManager::new();
    let mut job = Job::new("j1", "a", 0, 10, 1);
    job.tenant = Some("acme".into());
    assert!(!rm.can_place(&cluster, &job));
    let mut other = Job::new("j2", "b", 0, 10, 1);
    other.tenant = Some("other".into());
    assert!(rm.can_place(&cluster, &other));
    let untenanted = Job::new("j3", "c", 0, 10, 1);
    assert!(rm.can_place(&cluster, &untenanted));
}

#[test]
fn quota_counts_running_jobs_of_the_tenant() {
    let mut cluster = Cluster::new(vec![Node { id: "n0".into(), gpus: vec![h100("g0"), h100("g1"), h100("g2")] }]);
    cluster.tenant_quotas = vec![("acme".into(), 2)];
    let mut running = Job::new("r", "r", 0, 10, 1);
    running.tenant = Some("acme".into());
    cluster.start_job(running, &["g0".to_string()], 0);
    let rm = ResourceManager::new();
    let mut one = Job::new("j1", "a", 0, 10, 1);
    one.tenant = Some("acme".into());
    assert!(rm.can_place(&cluster, &one));
    let mut two = Job::new("j2", "b", 0, 10, 2);
    two.tenant = Some("acme".into());
    assert!(!rm.can_place(&cluster, &two));
    assert_eq!(cluster.tenant_quota("acme"), Some(2));
    assert_eq!(cluster.tenant_quota("other"), None);
}

fn grouped(id: &str, node: &str, group: u32) -> Gpu {
    let mut g = Gpu::new(id, node, "H100", 80);
    g.nvlink_group = Some(group);
    g
}

fn domain_cluster() -> Cluster {
    let mut cluster = Cluster::new(vec![Node {
        id: "n0".into(),
        gpus: vec![grouped("g0", "n0", 0), grouped("g1", "n0", 0), grouped("g2", "n0", 1), grouped("g3", "n0", 1)],
    }]);
    cluster.start_job(Job::new("busy", "busy", 0, 100, 1), &["g0".to_string()], 0);
    cluster
}

#[test]
fn bandwidth_job_prefers_one_nvlink_domain() {
    let mut cluster = domain_cluster();
    let rm = ResourceManager::new();
    let mut job = Job::new("net", "net", 0, 10, 2);
    job.network_bw_gbps = Some(100);
    let p = rm.allocate(&mut cluster, &job, 0).unwrap();
    assert_eq!(p.gpu_ids, vec!["g2".to_string(), "g3".to_string()]);
    let mut gang = Job::new("gang", "gang", 0, 10, 2);
    gang.gang_enabled = true;
    let p = rm.allocate(&mut cluster, &gang, 0).unwrap();
    assert_eq!(p.gpu_ids, vec!["g2".to_string(), "g3".to_string()]);
}

#[test]
fn plain_job_takes_first_fit_and_domain_job_scatters_when_no_domain_holds_it() {
    let mut cluster = domain_cluster();
    let rm = ResourceManager::new();
    let plain = Job::new("plain", "plain", 0, 10, 2);
    let p = rm.allocate(&mut cluster, &plain, 0).unwrap();
    assert_eq!(p.gpu_ids, vec!["g1".to_string(), "g2".to_string()]);
    let mut wide = Job::new("wide", "wide", 0, 10, 3);
    wide.network_bw_gbps = Some(100);
    let p = rm.allocate(&mut cluster, &wide, 0).unwrap();
    assert_eq!(p.gpu_ids, vec!["g1".to_string(), "g2".to_string(), "g3".to_string()]);
}

#[test]
fn nvlink_domains_are_per_node() {
    let mut cluster = Cluster::new(vec![
        Node { id: "a".into(), gpus: vec![grouped("a0", "a", 0), grouped("a1", "a", 1)] },
        Node { id: "b".into(), gpus: vec![grouped("b0", "b", 0), grouped("b1", "b", 0)] },
    ]);
    let rm = ResourceManager::new();
    let mut job = Job::new("net", "net", 0, 10, 2);
    job.network_bw_gbps = Some(10);
    let p = rm.allocate(&mut cluster, &job, 0).unwrap();
    assert_eq!(p.gpu_ids, vec!["b0".to_string(), "b1".to_string()]);
}

fn three_nodes() -> Cluster {
    let mut cluster = Cluster::new(vec![
        Node { id: "n0".into(), gpus: vec![Gpu::new("a0", "n0", "H100", 80), Gpu::new("a1", "n0", "H100", 80)] },
        Node { id: "n1".into(), gpus: vec![Gpu::new("b0", "n1", "H100", 80), Gpu::new("b1", "n1", "H100", 80)] },
        Node { id: "n2".into(), gpus: vec![Gpu::new("c0", "n2", "H100", 80), Gpu::new("c1", "n2", "H100", 80)] },
    ]);
    cluster.start_job(Job::new("busy", "busy", 0, 100, 1), &["a0".to_string()], 0);
    cluster
}

#[test]
fn gang_job_spreads_its_share_over_distinct_nodes() {
    let mut cluster = three_nodes();
    let rm = ResourceManager::new();
    let mut gang = Job::new("gang", "gang", 0, 10, 4);
    gang.gang_enabled = true;
    gang.gang_size_nodes = Some(2);
    assert!(rm.can_place(&cluster, &gang));
    let p = rm.allocate(&mut cluster, &gang, 0).unwrap();
    assert_eq!(p.gpu_ids, vec!["b0".to_string(), "b1".to_string(), "c0".to_string(), "c1".to_string()]);
    let mut wide = Job::new("wide", "wide", 0, 10, 3);
    wide.gang_enabled = true;
    wide.gang_size_nodes = Some(3);
    let p = rm.allocate(&mut cluster, &wide, 0).unwrap();
    assert_eq!(p.gpu_ids, vec!["a1".to_string(), "b0".to_string(), "c0".to_string()]);
}

#[test]
fn gang_job_waits_when_it_cannot_be_spread() {
    let cluster = three_nodes();
    let rm = ResourceManager::new();
    let mut uneven = Job::new("uneven", "uneven", 0, 10, 4);
    uneven.gang_enabled = true;
    uneven.gang_size_nodes = Some(3);
    assert!(!rm.can_place(&cluster, &uneven));
    let mut too_many = Job::new("many", "many", 0, 10, 6);
    too_many.gang_enabled = true;
    too_many.gang_size_nodes = Some(3);
    assert!(!rm.can_place(&cluster, &too_many));
    let mut plain = Job::new("plain", "plain", 0, 10, 5);
    plain.gang_enabled = false;
    plain.gang_size_nodes = Some(3);
    assert!(rm.can_place(&cluster, &plain));
}

fn two_node_cluster() -> Cluster {
    let wide = Node { id: "n0".into(), gpus: vec![h100("a0"), h100("a1"), h100("a2"), h100("a3")] };
    let narrow = Node { id: "n1".into(), gpus: vec![Gpu::new("b0", "n1", "H100", 80), Gpu::new("b1", "n1", "H100", 80)] };
    Cluster::new(vec![wide, narrow])
}

#[test]
fn first_fit_takes_the_first_free_gpus() {
    let mut cluster = two_node_cluster();
    let job = Job::new("j1", "pair", 0, 10, 2);
    let p = ResourceManager::new().allocate(&mut cluster, &job, 0).unwrap();
    assert_eq!(p.gpu_ids, vec!["a0".to_string(), "a1".to_string()]);
}

#[test]
fn best_fit_takes_the_tightest_node() {
    let mut cluster = two_node_cluster();
    let job = Job::new("j1", "pair", 0, 10, 2);
    let rm = ResourceManager::new().with_gpu_selection(GpuSelectionPolicy::BestFit);
    let p = rm.allocate(&mut cluster, &job, 0).unwrap();
    assert_eq!(p.gpu_ids, vec!["b0".to_string(), "b1".to_string()]);
}

#[test]
fn best_fit_falls_back_to_first_fit_across_nodes() {
    let mut cluster = two_node_cluster();
    let job = Job::new("j1", "wide", 0, 10, 5);
    let rm = ResourceManager::new().with_gpu_selection(GpuSelectionPolicy::BestFit);
    let p = rm.allocate(&mut cluster, &job, 0).unwrap();
    assert_eq!(p.gpu_ids, vec!["a0".to_string(), "a1".to_string(), "a2".to_string(), "a3".to_string(), "b0".to_string()]);
}
