use forgesim::config::{
    apply_topology_template, build_cluster, build_resource_manager, default_hardware_dir,
    default_mig_profiles_dir, default_scheduler, default_topology_template, resolve_path, run_simulation_with,
    wants_mig_registry, workload_jobs, ClusterConfig, ConfigError, GpuSpec, HardwareProfile, NodeSpec,
    WorkloadConfig, WorkloadJobSpec,
};
use forgesim::mig::{MigProfileRegistry, MigProfileSpec};
use forgesim::models::Job;
use forgesim::resource::GpuSelectionPolicy;

fn message(e: ConfigError) -> String {
    match e {
        ConfigError::Invalid(m) => m,
    }
}

fn h100_profile(mig: bool) -> HardwareProfile {
    HardwareProfile {
        name: "H100_80GB".into(),
        memory_gb: 80,
        sm: Some(132),
        mig_profiles: Vec::new(),
        nvlink_bw_gbs: Some(900),
        pcie_bw_gbs: Some(64),
        mig,
    }
}

fn gpu(id: &str, group: Option<u32>) -> GpuSpec {
    GpuSpec { id: id.into(), profile: "H100_80GB".into(), nvlink_group: group }
}

fn node(template: &str) -> (NodeSpec, ClusterConfig) {
    let spec = NodeSpec { id: "n0".into(), gpus: vec![gpu("a", None), gpu("b", None), gpu("c", Some(9))] };
    let cfg = ClusterConfig {
        nodes: vec![NodeSpec { id: "n0".into(), gpus: vec![gpu("a", None), gpu("b", None), gpu("c", Some(9))] }],
        tenant_quotas: vec![("acme".into(), 4)],
        topology_template: template.into(),
    };
    (spec, cfg)
}

fn job_spec(id: &str, arrival: u64, runtime: u64, gpus: u32) -> WorkloadJobSpec {
    WorkloadJobSpec {
        id: id.into(),
        name: None,
        arrival_time: arrival,
        runtime,
        gpu_count: gpus,
        gpu_memory_gb: 0,
        priority: 0,
        tenant: None,
        network_bw_gbps: None,
        gpu_type: None,
        mig_profile: None,
        mig_count: None,
        gang_enabled: false,
        gang_size_nodes: None,
        gang_timeout_secs: None,
    }
}

#[test]
fn defaults_match_configuration_files() {
    assert_eq!(default_topology_template(), "nvlink_pairs");
    assert_eq!(default_scheduler(), "fifo");
    assert_eq!(default_hardware_dir(), "configs/hardware");
    assert_eq!(default_mig_profiles_dir(), "../mig");
}

#[test]
fn resolve_path_joins_relative_paths() {
    assert_eq!(resolve_path("configs/clusters", "../workloads/a.yaml"), "configs/clusters/../workloads/a.yaml");
    assert_eq!(resolve_path("configs/", "w.yaml"), "configs/w.yaml");
    assert_eq!(resolve_path("", "w.yaml"), "w.yaml");
    assert_eq!(resolve_path("configs", "/abs/w.yaml"), "/abs/w.yaml");
}

#[test]
fn topology_templates_assign_nvlink_groups() {
    let (spec, _) = node("nvlink_pairs");
    assert_eq!(apply_topology_template("nvlink_pairs", &spec.gpus[2], &spec), Some(1));
    assert_eq!(apply_topology_template("full_mesh", &spec.gpus[2], &spec), Some(0));
    assert_eq!(apply_topology_template("pcie_only", &spec.gpus[1], &spec), Some(1));
    assert_eq!(apply_topology_template("pcie_only", &gpu("zz", None), &spec), None);
}

#[test]
fn build_cluster_uses_profiles_and_templates() {
    let (_, cfg) = node("nvlink_pairs");
    let cluster = build_cluster(&cfg, &vec![h100_profile(true)]).unwrap();
    assert_eq!(cluster.nodes.len(), 1);
    let gpus = &cluster.nodes[0].gpus;
    assert_eq!(gpus.len(), 3);
    assert_eq!(gpus[0].memory_gb, 80);
    assert!(gpus[0].mig_capable);
    assert_eq!(gpus[1].nvlink_group, Some(0));
    assert_eq!(gpus[2].nvlink_group, Some(9));
    assert_eq!(cluster.tenant_quotas, vec![("acme".to_string(), 4)]);
    let err = build_cluster(&cfg, &Vec::new()).unwrap_err();
    assert_eq!(message(err), "unknown hardware profile 'H100_80GB'");
}

#[test]
fn workload_jobs_keep_order_and_default_name() {
    let mut named = job_spec("j2", 3, 5, 1);
    named.name = Some("second".into());
    named.mig_profile = Some("1g.10gb".into());
    named.mig_count = Some(2);
    let jobs = workload_jobs(WorkloadConfig { jobs: vec![job_spec("j1", 0, 10, 2), named] });
    assert_eq!(jobs.len(), 2);
    assert_eq!(jobs[0].name, "job");
    assert_eq!(jobs[1].name, "second");
    assert_eq!(jobs[1].mig_count, Some(2));
    assert!(jobs[1].is_mig_job());
}

#[test]
fn run_simulation_with_checks_registry_and_scheduler() {
    let (_, cfg) = node("nvlink_pairs");
    let profiles = vec![h100_profile(true)];
    let mut mig = Job::new("m", "m", 0, 10, 1);
    mig.mig_profile = Some("1g.10gb".into());
    let cluster = build_cluster(&cfg, &profiles).unwrap();
    assert!(wants_mig_registry(&cluster, &Vec::new()));
    let e = run_simulation_with(cluster, vec![mig], None, "fifo").unwrap_err();
    assert_eq!(message(e), "workload contains MIG jobs but no MIG profile registry is configured");
    let cluster = build_cluster(&cfg, &profiles).unwrap();
    let e = run_simulation_with(cluster, vec![Job::new("a", "a", 0, 1, 1)], None, "lottery").unwrap_err();
    assert_eq!(message(e), "unsupported scheduler type 'lottery'");
}

#[test]
fn run_simulation_with_fifo_completes_jobs() {
    let (_, cfg) = node("nvlink_pairs");
    let cluster = build_cluster(&cfg, &vec![h100_profile(false)]).unwrap();
    assert!(!wants_mig_registry(&cluster, &Vec::new()));
    let jobs = workload_jobs(WorkloadConfig {
        jobs: vec![job_spec("a", 0, 10, 2), job_spec("b", 1, 5, 2), job_spec("c", 2, 5, 1)],
    });
    let (cluster, metrics) = run_simulation_with(cluster, jobs, None, "fifo").unwrap();
    assert_eq!(metrics.jobs_completed, 3);
    assert_eq!(metrics.jobs_total, 3);
    assert_eq!(metrics.makespan, 15);
    assert_eq!(cluster.finished_jobs.len(), 3);
}

#[test]
fn stub_schedulers_place_nothing() {
    let (_, cfg) = node("nvlink_pairs");
    for name in ["bestfit"] {
        let cluster = build_cluster(&cfg, &vec![h100_profile(false)]).unwrap();
        let (_, metrics) = run_simulation_with(cluster, vec![Job::new("a", "a", 0, 1, 1)], None, name).unwrap();
        assert_eq!(metrics.jobs_completed, 0);
        assert_eq!(metrics.jobs_total, 1);
    }
}

#[test]
fn resource_manager_gets_the_registry() {
    let registry = MigProfileRegistry {
        hardware: "H100_80GB".into(),
        reconfig_seconds: 30,
        profiles: vec![("1g.10gb".into(), MigProfileSpec { memory_gb: 10, max_per_gpu: 7 })],
    };
    assert!(build_resource_manager(Some(registry), "bestfit").mig_registry.is_some());
    assert!(build_resource_manager(None, "fifo").mig_registry.is_none());
}

#[test]
fn bestfit_scheduler_selects_best_fit_gpus() {
    assert_eq!(build_resource_manager(None, "bestfit").gpu_selection, GpuSelectionPolicy::BestFit);
    assert_eq!(build_resource_manager(None, "fifo").gpu_selection, GpuSelectionPolicy::FirstFit);
    assert_eq!(build_resource_manager(None, "forge").gpu_selection, GpuSelectionPolicy::FirstFit);
}

#[test]
fn priority_scheduler_runs_high_priority_first() {
    let (_, cfg) = node("nvlink_pairs");
    let cluster = build_cluster(&cfg, &vec![h100_profile(false)]).unwrap();
    let gpus = cluster.free_gpu_count() as u32;
    let mut low = Job::new("low", "low", 0, 10, gpus);
    low.priority = 1;
    let mut high = Job::new("high", "high", 0, 10, gpus);
    high.priority = 5;
    let (done, metrics) = run_simulation_with(cluster, vec![low, high], None, "priority").unwrap();
    assert_eq!(metrics.jobs_completed, 2);
    assert_eq!(done.finished_jobs[0].id, "high");
    assert_eq!(done.finished_jobs[1].id, "low");
    assert_eq!(metrics.makespan, 20);
}

#[test]
fn preemptive_scheduler_lets_high_priority_evict_low() {
    let (_, cfg) = node("nvlink_pairs");
    for name in ["preemptive", "forge"] {
        let cluster = build_cluster(&cfg, &vec![h100_profile(false)]).unwrap();
        let gpus = cluster.free_gpu_count() as u32;
        let mut low = Job::new("low", "low", 0, 100, gpus);
        low.priority = 1;
        let mut high = Job::new("high", "high", 5, 20, gpus);
        high.priority = 5;
        let (done, metrics) = run_simulation_with(cluster, vec![low, high], None, name).unwrap();
        assert_eq!(metrics.jobs_completed, 2);
        assert_eq!(metrics.preemptions, 1);
        assert_eq!(done.finished_jobs[0].id, "high");
        assert_eq!(done.finished_jobs[0].finish_time, Some(25));
        assert_eq!(done.finished_jobs[1].id, "low");
        assert_eq!(done.finished_jobs[1].finish_time, Some(120));
        assert_eq!(done.finished_jobs[1].preemption_count, 1);
        assert_eq!(metrics.makespan, 120);
    }
}
