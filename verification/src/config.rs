//! Simulation configuration: cluster layout, hardware profiles, workloads.

use vstd::prelude::*;
use vstd::multiset::Multiset;
use crate::cluster::{gpus_of, ids_distinct, Cluster};
use crate::engine::{cluster_keys, is_arrival_of, job_keys, keys_unique, Scheduler, SimulationEngine};
use crate::sorting::sort_by_arrival;
use crate::fifo::FifoScheduler;
use crate::metrics::SimulationMetrics;
use crate::mig::MigProfileRegistry;
use crate::models::{Gpu, GpuView, Job, JobState, Node, NodeView};
use crate::resource::{GpuSelectionPolicy, ResourceManager};
use crate::priority::PriorityScheduler;
use crate::preemptive::PreemptivePriorityScheduler;
use crate::stubs::BestFitScheduler;
use crate::strings::str_eq;

verus! {

/// Errors of configuration and input data.
#[derive(Debug)]
pub enum ConfigError {
    /// The input is well-formed but describes something invalid.
    Invalid(String),
}

/// Capabilities of a GPU type.
#[derive(Debug)]
pub struct HardwareProfile {
    pub name: String,
    pub memory_gb: i64,
    pub sm: Option<u32>,
    pub mig_profiles: Vec<String>,
    pub nvlink_bw_gbs: Option<u64>,
    pub pcie_bw_gbs: Option<u64>,
    pub mig: bool,
}

#[derive(Debug)]
pub struct GpuSpec {
    pub id: String,
    pub profile: String,
    pub nvlink_group: Option<u32>,
}

#[derive(Debug)]
pub struct NodeSpec {
    pub id: String,
    pub gpus: Vec<GpuSpec>,
}

#[derive(Debug)]
pub struct ClusterConfig {
    pub nodes: Vec<NodeSpec>,
    pub tenant_quotas: Vec<(String, u32)>,
    /// Synthetic NVLink layout: `nvlink_pairs` (default), `full_mesh`, or `pcie_only`.
    pub topology_template: String,
}

#[derive(Debug)]
pub struct SchedulerConfig {
    /// The scheduler's name (`type` in configuration files).
    pub kind: String,
}

#[derive(Debug)]
pub struct WorkloadRef {
    pub path: String,
}

#[derive(Debug)]
pub struct SimulationConfig {
    pub cluster: ClusterConfig,
    pub scheduler: SchedulerConfig,
    pub workload: WorkloadRef,
    pub hardware_profiles_dir: String,
    pub mig_profiles_dir: String,
}

/// One job of a workload file.
#[derive(Debug)]
pub struct WorkloadJobSpec {
    pub id: String,
    pub name: Option<String>,
    pub arrival_time: u64,
    pub runtime: u64,
    pub gpu_count: u32,
    pub gpu_memory_gb: u64,
    pub priority: u32,
    pub tenant: Option<String>,
    pub network_bw_gbps: Option<u64>,
    pub gpu_type: Option<String>,
    pub mig_profile: Option<String>,
    pub mig_count: Option<u32>,
    pub gang_enabled: bool,
    pub gang_size_nodes: Option<u32>,
    pub gang_timeout_secs: Option<u64>,
}

#[derive(Debug)]
pub struct WorkloadConfig {
    pub jobs: Vec<WorkloadJobSpec>,
}

pub fn default_topology_template() -> (s: String)
    ensures
        s@ == "nvlink_pairs"@,
{
    String::from_str("nvlink_pairs")
}

pub fn default_scheduler() -> (s: String)
    ensures
        s@ == "fifo"@,
{
    String::from_str("fifo")
}

pub fn default_hardware_dir() -> (s: String)
    ensures
        s@ == "configs/hardware"@,
{
    String::from_str("configs/hardware")
}

pub fn default_mig_profiles_dir() -> (s: String)
    ensures
        s@ == "../mig"@,
{
    String::from_str("../mig")
}

/// The first profile named `name`.
pub open spec fn find_profile(profiles: Seq<HardwareProfile>, name: Seq<char>) -> Option<HardwareProfile>
    decreases profiles.len(),
{
    if profiles.len() == 0 {
        None
    } else if profiles[0].name@ == name {
        Some(profiles[0])
    } else {
        find_profile(profiles.drop_first(), name)
    }
}

fn lookup_hardware(profiles: &Vec<HardwareProfile>, name: &str) -> (r: Option<usize>)
    ensures
        match r {
            Some(i) => i < profiles@.len() && find_profile(profiles@, name@) == Some(profiles@[i as int]),
            None => find_profile(profiles@, name@) is None,
        },
{
    let mut i: usize = 0;
    assert(profiles@.skip(0) =~= profiles@);
    while i < profiles.len()
        invariant
            i <= profiles@.len(),
            find_profile(profiles@, name@) == find_profile(profiles@.skip(i as int), name@),
        decreases profiles@.len() - i,
    {
        assert(profiles@.skip(i as int).drop_first() =~= profiles@.skip(i as int + 1));
        if str_eq(profiles[i].name.as_str(), name) {
            return Some(i);
        }
        i = i + 1;
    }
    None
}

/// Position of the first GPU spec with id `id`.
pub open spec fn first_spec_index(gpus: Seq<GpuSpec>, id: Seq<char>, i: int) -> bool {
    &&& 0 <= i < gpus.len()
    &&& gpus[i].id@ == id
    &&& forall|j: int| 0 <= j < i ==> (#[trigger] gpus[j]).id@ != id
}

/// The NVLink group the template gives the GPU with id `gpu_id`: none when
/// the node has no such GPU; 0 for `full_mesh`; its index for
/// `pcie_only`; otherwise (pairs) half its index.
pub open spec fn template_group(template: Seq<char>, gpus: Seq<GpuSpec>, gpu_id: Seq<char>) -> Option<u32> {
    if exists|i: int| first_spec_index(gpus, gpu_id, i) {
        let i = choose|i: int| first_spec_index(gpus, gpu_id, i);
        if template == "full_mesh"@ {
            Some(0)
        } else if template == "pcie_only"@ {
            Some(i as u32)
        } else {
            Some((i / 2) as u32)
        }
    } else {
        None
    }
}

/// The NVLink group of a GPU under a topology template.
pub fn apply_topology_template(template: &str, gpu_spec: &GpuSpec, node_spec: &NodeSpec) -> (r: Option<u32>)
    ensures
        r == template_group(template@, node_spec.gpus@, gpu_spec.id@),
{
    let gpus = &node_spec.gpus;
    let mut i: usize = 0;
    while i < gpus.len() && !str_eq(gpus[i].id.as_str(), gpu_spec.id.as_str())
        invariant
            i <= gpus@.len(),
            forall|j: int| 0 <= j < i ==> (#[trigger] gpus@[j]).id@ != gpu_spec.id@,
        decreases gpus@.len() - i,
    {
        i = i + 1;
    }
    if i == gpus.len() {
        return None;
    }
    proof {
        assert(first_spec_index(gpus@, gpu_spec.id@, i as int));
        let w = choose|w: int| first_spec_index(gpus@, gpu_spec.id@, w);
        if w < i {
            assert(gpus@[w].id@ != gpu_spec.id@);
        } else if w > i {
            assert(gpus@[i as int].id@ == gpu_spec.id@);
        }
        reveal_strlit("full_mesh");
        reveal_strlit("pcie_only");
    }
    if str_eq(template, "full_mesh") {
        Some(0)
    } else if str_eq(template, "pcie_only") {
        Some(i as u32)
    } else {
        Some((i / 2) as u32)
    }
}

/// `g` is the GPU built from `spec` on node `node` with `profile`.
pub open spec fn gpu_built(g: GpuView, spec: GpuSpec, node: NodeSpec, profile: HardwareProfile, template: Seq<char>) -> bool {
    &&& g.id == spec.id@
    &&& g.node_id == node.id@
    &&& g.profile == spec.profile@
    &&& g.memory_gb == profile.memory_gb
    &&& g.nvlink_group == match spec.nvlink_group {
        Some(n) => Some(n),
        None => template_group(template, node.gpus@, spec.id@),
    }
    &&& g.running_job_id is None
    &&& g.mig_capable == profile.mig
    &&& g.active_mig_profile is None
    &&& g.slices.len() == 0
}

/// Every GPU spec of the configuration names a known profile.
pub open spec fn profiles_known(cfg: ClusterConfig, profiles: Seq<HardwareProfile>) -> bool {
    forall|n: int, g: int|
        0 <= n < cfg.nodes@.len() && 0 <= g < cfg.nodes@[n].gpus@.len() ==> find_profile(
            profiles,
            (#[trigger] cfg.nodes@[n].gpus@[g]).profile@,
        ) is Some
}

/// `nv` is the node list the configuration describes.
pub open spec fn nodes_built(nv: Seq<NodeView>, cfg: ClusterConfig, profiles: Seq<HardwareProfile>) -> bool {
    &&& nv.len() == cfg.nodes@.len()
    &&& forall|n: int|
        0 <= n < nv.len() ==> {
            &&& (#[trigger] nv[n]).id == cfg.nodes@[n].id@
            &&& nv[n].gpus.len() == cfg.nodes@[n].gpus@.len()
            &&& forall|g: int|
                0 <= g < nv[n].gpus.len() ==> gpu_built(
                    #[trigger] nv[n].gpus[g],
                    cfg.nodes@[n].gpus@[g],
                    cfg.nodes@[n],
                    find_profile(profiles, cfg.nodes@[n].gpus@[g].profile@)->0,
                    cfg.topology_template@,
                )
        }
}

fn unknown_profile_error(profile: &str) -> (e: ConfigError)
    ensures
        e matches ConfigError::Invalid(m) && m@ == "unknown hardware profile '"@ + profile@ + "'"@,
{
    let mut m = String::from_str("unknown hardware profile '");
    m.append(profile);
    m.append("'");
    proof {
        reveal_strlit("unknown hardware profile '");
        reveal_strlit("'");
    }
    ConfigError::Invalid(m)
}

/// Copies the tenant quotas.
fn clone_quotas(q: &Vec<(String, u32)>) -> (r: Vec<(String, u32)>)
    ensures
        r@ == q@,
{
    let mut r: Vec<(String, u32)> = Vec::new();
    let mut i: usize = 0;
    while i < q.len()
        invariant
            i <= q@.len(),
            r@ == q@.take(i as int),
        decreases q@.len() - i,
    {
        r.push((q[i].0.clone(), q[i].1));
        assert(q@.take(i as int + 1) =~= q@.take(i as int).push(q@[i as int]));
        i = i + 1;
    }
    assert(q@.take(q@.len() as int) =~= q@);
    r
}

/// Builds the cluster a configuration describes: one node per node spec,
/// one free GPU per GPU spec with the memory and MIG capability of its
/// hardware profile and its NVLink group (given, or from the topology
/// template), and the configured tenant quotas. A GPU spec naming an
/// unknown profile is an error.
pub fn build_cluster(cluster_cfg: &ClusterConfig, profiles: &Vec<HardwareProfile>) -> (r: Result<Cluster, ConfigError>)
    ensures
        profiles_known(*cluster_cfg, profiles@) ==> {
            &&& r is Ok
            &&& nodes_built(r->Ok_0.resources(), *cluster_cfg, profiles@)
            &&& r->Ok_0.waiting_queue@.len() == 0
            &&& r->Ok_0.running_jobs@.len() == 0
            &&& r->Ok_0.finished_jobs@.len() == 0
            &&& r->Ok_0.clock == 0
            &&& r->Ok_0.mig_reconfigs == 0
            &&& r->Ok_0.tenant_quotas@ == cluster_cfg.tenant_quotas@
            &&& ids_distinct(r->Ok_0.running_jobs@)
        },
        !profiles_known(*cluster_cfg, profiles@) ==> exists|n: int, g: int|
            0 <= n < cluster_cfg.nodes@.len() && 0 <= g < cluster_cfg.nodes@[n].gpus@.len() && find_profile(
                profiles@,
                (#[trigger] cluster_cfg.nodes@[n].gpus@[g]).profile@,
            ) is None && (r matches Err(ConfigError::Invalid(m)) && m@ == "unknown hardware profile '"@
                + cluster_cfg.nodes@[n].gpus@[g].profile@ + "'"@),
{
    let mut nodes: Vec<Node> = Vec::new();
    let mut n: usize = 0;
    while n < cluster_cfg.nodes.len()
        invariant
            n <= cluster_cfg.nodes@.len(),
            nodes@.len() == n,
            forall|a: int, g: int|
                0 <= a < n && 0 <= g < cluster_cfg.nodes@[a].gpus@.len() ==> find_profile(
                    profiles@,
                    (#[trigger] cluster_cfg.nodes@[a].gpus@[g]).profile@,
                ) is Some,
            forall|a: int|
                0 <= a < n ==> {
                    &&& (#[trigger] nodes@[a])@.id == cluster_cfg.nodes@[a].id@
                    &&& nodes@[a]@.gpus.len() == cluster_cfg.nodes@[a].gpus@.len()
                    &&& forall|g: int|
                        0 <= g < nodes@[a]@.gpus.len() ==> gpu_built(
                            #[trigger] nodes@[a]@.gpus[g],
                            cluster_cfg.nodes@[a].gpus@[g],
                            cluster_cfg.nodes@[a],
                            find_profile(profiles@, cluster_cfg.nodes@[a].gpus@[g].profile@)->0,
                            cluster_cfg.topology_template@,
                        )
                },
        decreases cluster_cfg.nodes@.len() - n,
    {
        let node_spec = &cluster_cfg.nodes[n];
        let mut gpus: Vec<Gpu> = Vec::new();
        let mut g: usize = 0;
        while g < node_spec.gpus.len()
            invariant
                n < cluster_cfg.nodes@.len(),
                node_spec == cluster_cfg.nodes@[n as int],
                g <= node_spec.gpus@.len(),
                gpus@.len() == g,
                forall|k: int| 0 <= k < g ==> find_profile(profiles@, (#[trigger] node_spec.gpus@[k]).profile@) is Some,
                forall|k: int|
                    0 <= k < g ==> gpu_built(
                        (#[trigger] gpus@[k])@,
                        node_spec.gpus@[k],
                        *node_spec,
                        find_profile(profiles@, node_spec.gpus@[k].profile@)->0,
                        cluster_cfg.topology_template@,
                    ),
            decreases node_spec.gpus@.len() - g,
        {
            let gpu_spec = &node_spec.gpus[g];
            let pi = match lookup_hardware(profiles, gpu_spec.profile.as_str()) {
                Some(i) => i,
                None => {
                    let e = unknown_profile_error(gpu_spec.profile.as_str());
                    assert(find_profile(profiles@, cluster_cfg.nodes@[n as int].gpus@[g as int].profile@) is None);
                    return Err(e);
                },
            };
            let profile = &profiles[pi];
            let mut gpu = Gpu::new(gpu_spec.id.as_str(), node_spec.id.as_str(), gpu_spec.profile.as_str(), profile.memory_gb);
            gpu.nvlink_group = match gpu_spec.nvlink_group {
                Some(x) => Some(x),
                None => apply_topology_template(cluster_cfg.topology_template.as_str(), gpu_spec, node_spec),
            };
            gpu.mig_capable = profile.mig;
            gpus.push(gpu);
            g = g + 1;
        }
        let node = Node { id: node_spec.id.clone(), gpus };
        let ghost before = nodes@;
        nodes.push(node);
        assert forall|a: int| 0 <= a < n + 1 implies {
            &&& (#[trigger] nodes@[a])@.id == cluster_cfg.nodes@[a].id@
            &&& nodes@[a]@.gpus.len() == cluster_cfg.nodes@[a].gpus@.len()
            &&& forall|g: int|
                0 <= g < nodes@[a]@.gpus.len() ==> gpu_built(
                    #[trigger] nodes@[a]@.gpus[g],
                    cluster_cfg.nodes@[a].gpus@[g],
                    cluster_cfg.nodes@[a],
                    find_profile(profiles@, cluster_cfg.nodes@[a].gpus@[g].profile@)->0,
                    cluster_cfg.topology_template@,
                )
        } by {
            if a == n {
                assert forall|g: int| 0 <= g < nodes@[a]@.gpus.len() implies gpu_built(
                    #[trigger] nodes@[a]@.gpus[g],
                    cluster_cfg.nodes@[a].gpus@[g],
                    cluster_cfg.nodes@[a],
                    find_profile(profiles@, cluster_cfg.nodes@[a].gpus@[g].profile@)->0,
                    cluster_cfg.topology_template@,
                ) by {
                    assert(nodes@[a]@.gpus[g] == nodes@[a].gpus@[g]@);
                }
            } else {
                assert(nodes@[a] == before[a]);
            }
        }
        n = n + 1;
    }
    let mut cluster = Cluster::new(nodes);
    cluster.tenant_quotas = clone_quotas(&cluster_cfg.tenant_quotas);
    proof {
        assert(nodes_built(cluster.resources(), *cluster_cfg, profiles@));
    }
    Ok(cluster)
}

/// A path is absolute when it starts with `/`.
pub open spec fn is_absolute_path(p: Seq<char>) -> bool {
    p.len() > 0 && p[0] == '/'
}

/// `base` joined with the relative path `rel`: `rel` alone when `base` is
/// empty, else separated by one `/` (none added when `base` ends in one).
pub open spec fn join_path(base: Seq<char>, rel: Seq<char>) -> Seq<char> {
    if base.len() == 0 {
        rel
    } else if base.last() == '/' {
        base + rel
    } else {
        base + "/"@ + rel
    }
}

/// `relative` when it is absolute, else `relative` under `base`.
pub fn resolve_path(base: &str, relative: &str) -> (p: String)
    ensures
        p@ == if is_absolute_path(relative@) {
            relative@
        } else {
            join_path(base@, relative@)
        },
{
    let rn = relative.unicode_len();
    if rn > 0 && relative.get_char(0) == '/' {
        return String::from_str(relative);
    }
    let bn = base.unicode_len();
    if bn == 0 {
        return String::from_str(relative);
    }
    let mut p = String::from_str(base);
    if base.get_char(bn - 1) != '/' {
        p.append("/");
        proof {
            reveal_strlit("/");
        }
    }
    p.append(relative);
    p
}

/// The GPU selection policy a run under scheduler `name` places with: best
/// fit for `bestfit`, first fit for every other name.
pub open spec fn selection_for(name: Seq<char>) -> GpuSelectionPolicy {
    if name == "bestfit"@ {
        GpuSelectionPolicy::BestFit
    } else {
        GpuSelectionPolicy::FirstFit
    }
}

/// A resource manager for the run: with MIG placement when a registry is
/// given, and best-fit GPU selection for the `bestfit` scheduler (first fit
/// for every other name).
pub fn build_resource_manager(mig_registry: Option<MigProfileRegistry>, scheduler: &str) -> (rm: ResourceManager)
    ensures
        rm.mig_registry == mig_registry,
        rm.gpu_selection == selection_for(scheduler@),
{
    let rm = match mig_registry {
        Some(registry) => ResourceManager::with_mig(registry),
        None => ResourceManager::new(),
    };
    if str_eq(scheduler, "bestfit") {
        rm.with_gpu_selection(GpuSelectionPolicy::BestFit)
    } else {
        rm
    }
}

/// `job` is the job a workload entry describes (named "job" when the entry
/// has no name).
pub open spec fn job_of_spec(job: Job, spec: WorkloadJobSpec) -> bool {
    &&& job.id == spec.id
    &&& job.name@ == match spec.name {
        Some(n) => n@,
        None => "job"@,
    }
    &&& job.arrival_time == spec.arrival_time
    &&& job.runtime == spec.runtime
    &&& job.gpu_count == spec.gpu_count
    &&& job.gpu_memory_gb == spec.gpu_memory_gb
    &&& job.priority == spec.priority
    &&& job.tenant == spec.tenant
    &&& job.network_bw_gbps == spec.network_bw_gbps
    &&& job.gpu_type == spec.gpu_type
    &&& job.namespace is None
    &&& job.gang_enabled == spec.gang_enabled
    &&& job.gang_size_nodes == spec.gang_size_nodes
    &&& job.gang_timeout_secs == spec.gang_timeout_secs
    &&& job.mig_profile == spec.mig_profile
    &&& job.mig_count == spec.mig_count
    &&& job.state == JobState::Pending
    &&& job.start_time is None
    &&& job.finish_time is None
    &&& job.assigned_gpus@.len() == 0
    &&& job.run_generation == 0
}

/// The job a workload entry describes.
pub fn job_from_spec(spec: WorkloadJobSpec) -> (job: Job)
    ensures
        job_of_spec(job, spec),
{
    let name = match &spec.name {
        Some(n) => n.clone(),
        None => {
            proof {
                reveal_strlit("job");
            }
            String::from_str("job")
        },
    };
    let mut job = Job::new("", "", spec.arrival_time, spec.runtime, spec.gpu_count);
    job.id = spec.id;
    job.name = name;
    job.gpu_memory_gb = spec.gpu_memory_gb;
    job.priority = spec.priority;
    job.tenant = spec.tenant;
    job.network_bw_gbps = spec.network_bw_gbps;
    job.gpu_type = spec.gpu_type;
    job.mig_profile = spec.mig_profile;
    job.mig_count = spec.mig_count;
    job.gang_enabled = spec.gang_enabled;
    job.gang_size_nodes = spec.gang_size_nodes;
    job.gang_timeout_secs = spec.gang_timeout_secs;
    job
}

/// The jobs of a workload, in order.
pub fn workload_jobs(workload: WorkloadConfig) -> (jobs: Vec<Job>)
    ensures
        jobs@.len() == workload.jobs@.len(),
        forall|k: int| 0 <= k < jobs@.len() ==> job_of_spec(#[trigger] jobs@[k], workload.jobs@[k]),
{
    let ghost specs = workload.jobs@;
    let total = workload.jobs.len();
    let mut rest = workload.jobs;
    let mut jobs: Vec<Job> = Vec::new();
    let mut k: usize = 0;
    while rest.len() > 0
        invariant
            rest@ == specs.skip(k as int),
            k <= specs.len(),
            specs.len() == total,
            jobs@.len() == k,
            forall|j: int| 0 <= j < k ==> job_of_spec(#[trigger] jobs@[j], specs[j]),
        decreases rest@.len(),
    {
        let spec = rest.remove(0);
        assert(spec == specs[k as int]);
        assert(rest@ =~= specs.skip(k as int + 1));
        jobs.push(job_from_spec(spec));
        k = k + 1;
    }
    assert(specs.skip(k as int).len() == 0);
    jobs
}

/// What a run of `jobs` on cluster `c0` ends in: cluster `c1` with the
/// metrics `m` of its finished jobs. The finished jobs of `c0` stay first; when no job ran at the start,
/// none runs at the end; and when no id occurs twice, every job of `c0`
/// and every submitted job ends waiting, running or finished in `c1`, and
/// no other job does.
pub open spec fn run_outcome(c0: Cluster, jobs: Seq<Job>, c1: Cluster, m: SimulationMetrics) -> bool {
    &&& c1.wf()
    &&& crate::metrics::cluster_metrics(c1, m)
    &&& c1.finished_jobs@.len() >= c0.finished_jobs@.len()
    &&& c1.finished_jobs@.take(c0.finished_jobs@.len() as int) == c0.finished_jobs@
    &&& c0.running_jobs@.len() == 0 ==> c1.running_jobs@.len() == 0
    &&& keys_unique(cluster_keys(c0).add(job_keys(jobs))) ==> cluster_keys(c1) == cluster_keys(c0).add(
        job_keys(jobs),
    )
}

/// `steps` is a run of the engine that ends in cluster `c1`: it starts on
/// `cluster` with `scheduler` and `rm`, with `jobs` submitted (pending in
/// arrival order, each with its arrival event), goes from step to step by
/// handling the earliest event, and ends with no event left; when no job
/// ran at the start, it ends idle (see `SimulationEngine::ends_idle`).
pub open spec fn engine_run<S: Scheduler>(
    steps: Seq<SimulationEngine<S>>,
    cluster: Cluster,
    scheduler: S,
    rm: ResourceManager,
    jobs: Seq<Job>,
    c1: Cluster,
) -> bool {
    &&& steps.len() >= 1
    &&& steps[0].cluster == cluster
    &&& steps[0].scheduler == scheduler
    &&& steps[0].resource_manager == rm
    &&& steps[0].pending() == sort_by_arrival(jobs)
    &&& steps[0].queued_events().len() == jobs.len()
    &&& (forall|k: int| 0 <= k < jobs.len() ==> is_arrival_of(#[trigger] steps[0].queued_events()[k], sort_by_arrival(jobs)[k]))
    &&& (forall|k: int| 0 <= k < steps.len() - 1 ==> (#[trigger] steps[k]).event_step(&steps[k + 1]))
    &&& steps.last().queued_events().len() == 0
    &&& steps.last().cluster == c1
    &&& cluster.running_jobs@.len() == 0 ==> steps.last().ends_idle(steps[0])
}

/// `c1` ends a run of `jobs` on `cluster` with resource manager `rm` under
/// the scheduler named `name` (see `engine_run`); no other name runs.
pub open spec fn policy_run(name: Seq<char>, cluster: Cluster, rm: ResourceManager, jobs: Seq<Job>, c1: Cluster) -> bool {
    if name == "fifo"@ {
        exists|steps: Seq<SimulationEngine<FifoScheduler>>| #[trigger] engine_run(steps, cluster, FifoScheduler, rm, jobs, c1)
    } else if name == "priority"@ {
        exists|steps: Seq<SimulationEngine<PriorityScheduler>>|
            #[trigger] engine_run(steps, cluster, PriorityScheduler, rm, jobs, c1)
    } else if name == "preemptive"@ || name == "forge"@ {
        exists|steps: Seq<SimulationEngine<PreemptivePriorityScheduler>>|
            #[trigger] engine_run(steps, cluster, PreemptivePriorityScheduler, rm, jobs, c1)
    } else if name == "bestfit"@ {
        exists|steps: Seq<SimulationEngine<BestFitScheduler>>|
            #[trigger] engine_run(steps, cluster, BestFitScheduler, rm, jobs, c1)
    } else {
        false
    }
}

/// Runs the jobs to completion on the cluster with the given scheduler and
/// returns the final cluster and its metrics.
pub fn run_to_completion<S: Scheduler>(
    cluster: Cluster,
    scheduler: S,
    resource_manager: ResourceManager,
    jobs: Vec<Job>,
    jobs_total: usize,
) -> (r: (Cluster, SimulationMetrics))
    requires
        cluster.wf(),
    ensures
        r.1.jobs_total == jobs_total,
        run_outcome(cluster, jobs@, r.0, r.1),
        exists|steps: Seq<SimulationEngine<S>>| #[trigger] engine_run(steps, cluster, scheduler, resource_manager, jobs@, r.0),
{
    let ghost c0 = cluster;
    let ghost js = jobs@;
    let mut engine = SimulationEngine::with_resource_manager(cluster, scheduler, resource_manager);
    engine.submit_jobs(jobs);
    let ghost start = engine;
    proof {
        assert(start.pending() =~= sort_by_arrival(js));
        assert forall|k: int| 0 <= k < js.len() implies is_arrival_of(
            #[trigger] start.queued_events()[k],
            sort_by_arrival(js)[k],
        ) by {
            assert(start.queued_events()[0 + k] == start.queued_events()[k]);
        }
    }
    proof {
        broadcast use vstd::multiset::group_multiset_axioms;
        crate::sorting::lemma_sort_by_arrival(js);
        crate::engine::lemma_job_keys_perm(crate::sorting::sort_by_arrival(js), js);
        assert(Seq::<Job>::empty().map_values(|j: Job| Some(j.id@)) =~= Seq::empty());
        assert(engine.pending() =~= crate::sorting::sort_by_arrival(js));
        assert(engine.all_keys() =~= cluster_keys(c0).add(job_keys(js)));
    }
    engine.run();
    proof {
        broadcast use vstd::multiset::group_multiset_axioms;
        broadcast use vstd::seq_lib::group_to_multiset_ensures;
        assert(engine.pending().map_values(|j: Job| Some(j.id@)) =~= Seq::empty());
        assert(job_keys(engine.pending()) =~= Multiset::empty());
        assert(engine.all_keys() =~= cluster_keys(engine.cluster));
    }
    let metrics = SimulationMetrics::from_cluster(&engine.cluster, jobs_total);
    proof {
        let steps = choose|steps: Seq<SimulationEngine<S>>|
            {
                &&& steps.len() >= 1
                &&& steps[0] == start
                &&& steps.last() == engine
                &&& forall|k: int| 0 <= k < steps.len() - 1 ==> (#[trigger] steps[k]).event_step(&steps[k + 1])
            };
        assert(engine_run(steps, c0, scheduler, resource_manager, js, engine.cluster));
    }
    (engine.cluster, metrics)
}

/// Runs the jobs with the scheduler named by `scheduler`: `fifo`,
/// `priority`, `preemptive` or `forge`, or `bestfit`; any other name is an
/// error.
pub fn run_to_completion_with_policy(
    cluster: Cluster,
    scheduler: &str,
    resource_manager: ResourceManager,
    jobs: Vec<Job>,
    jobs_total: usize,
) -> (r: Result<(Cluster, SimulationMetrics), ConfigError>)
    requires
        cluster.wf(),
    ensures
        known_scheduler(scheduler@) <==> r is Ok,
        !known_scheduler(scheduler@) ==> (r matches Err(ConfigError::Invalid(m)) && m@ == "unsupported scheduler type '"@
            + scheduler@ + "'"@),
        r matches Ok(out) ==> out.1.jobs_total == jobs_total && run_outcome(cluster, jobs@, out.0, out.1),
        r is Ok ==> policy_run(scheduler@, cluster, resource_manager, jobs@, r->Ok_0.0),
{
    proof {
        reveal_strlit("fifo");
        reveal_strlit("priority");
        reveal_strlit("preemptive");
        reveal_strlit("forge");
        reveal_strlit("bestfit");
    }
    proof {
        assert("fifo"@.len() != "priority"@.len());
    }
    if str_eq(scheduler, "fifo") {
        Ok(run_to_completion(cluster, FifoScheduler, resource_manager, jobs, jobs_total))
    } else if str_eq(scheduler, "priority") {
        let ghost c0 = cluster;
        let ghost rm0 = resource_manager;
        let ghost js = jobs@;
        let out = run_to_completion(cluster, PriorityScheduler, resource_manager, jobs, jobs_total);
        proof {
            let steps = choose|steps: Seq<SimulationEngine<PriorityScheduler>>|
                engine_run(steps, c0, PriorityScheduler, rm0, js, out.0);
            assert(engine_run(steps, c0, PriorityScheduler, rm0, js, out.0));
        }
        Ok(out)
    } else if str_eq(scheduler, "preemptive") || str_eq(scheduler, "forge") {
        Ok(run_to_completion(cluster, PreemptivePriorityScheduler, resource_manager, jobs, jobs_total))
    } else if str_eq(scheduler, "bestfit") {
        Ok(run_to_completion(cluster, BestFitScheduler, resource_manager, jobs, jobs_total))
    } else {
        let mut m = String::from_str("unsupported scheduler type '");
        m.append(scheduler);
        m.append("'");
        proof {
            reveal_strlit("unsupported scheduler type '");
            reveal_strlit("'");
        }
        Err(ConfigError::Invalid(m))
    }
}

/// The scheduler names a run accepts.
pub open spec fn known_scheduler(s: Seq<char>) -> bool {
    s == "fifo"@ || s == "priority"@ || s == "preemptive"@ || s == "forge"@ || s == "bestfit"@
}

/// Some job of `jobs` is a MIG job.
pub open spec fn has_mig_job(jobs: Seq<Job>) -> bool {
    exists|i: int| 0 <= i < jobs.len() && (#[trigger] jobs[i]).spec_is_mig_job()
}

/// Some GPU of the nodes is MIG-capable.
pub open spec fn has_mig_capable_gpu(nv: Seq<NodeView>) -> bool {
    exists|i: int| 0 <= i < gpus_of(nv).len() && (#[trigger] gpus_of(nv)[i]).mig_capable
}

/// Whether some job of `jobs` is a MIG job.
pub fn any_mig_job(jobs: &Vec<Job>) -> (r: bool)
    ensures
        r == has_mig_job(jobs@),
{
    let mut i: usize = 0;
    while i < jobs.len()
        invariant
            i <= jobs@.len(),
            forall|k: int| 0 <= k < i ==> !(#[trigger] jobs@[k]).spec_is_mig_job(),
        decreases jobs@.len() - i,
    {
        if jobs[i].is_mig_job() {
            return true;
        }
        i = i + 1;
    }
    false
}

/// A run needs a MIG profile registry when it has a MIG job or a
/// MIG-capable GPU.
pub fn wants_mig_registry(cluster: &Cluster, jobs: &Vec<Job>) -> (r: bool)
    ensures
        r == (has_mig_job(jobs@) || has_mig_capable_gpu(cluster.resources())),
{
    any_mig_job(jobs) || cluster.any_mig_capable()
}

/// Runs a workload on a cluster with the named scheduler. A workload with
/// MIG jobs and no MIG profile registry is an error, and so is an unknown
/// scheduler name.
pub fn run_simulation_with(
    cluster: Cluster,
    jobs: Vec<Job>,
    mig_registry: Option<MigProfileRegistry>,
    scheduler: &str,
) -> (r: Result<(Cluster, SimulationMetrics), ConfigError>)
    requires
        cluster.wf(),
    ensures
        has_mig_job(jobs@) && mig_registry is None ==> (r matches Err(ConfigError::Invalid(m)) && m@
            == "workload contains MIG jobs but no MIG profile registry is configured"@),
        !(has_mig_job(jobs@) && mig_registry is None) ==> {
            &&& known_scheduler(scheduler@) <==> r is Ok
            &&& !known_scheduler(scheduler@) ==> (r matches Err(ConfigError::Invalid(m)) && m@
                == "unsupported scheduler type '"@ + scheduler@ + "'"@)
            &&& r matches Ok(out) ==> out.1.jobs_total == jobs@.len() && run_outcome(cluster, jobs@, out.0, out.1)
            &&& r is Ok ==> exists|rm: ResourceManager|
                #[trigger] policy_run(scheduler@, cluster, rm, jobs@, r->Ok_0.0) && rm.mig_registry == mig_registry
                    && rm.gpu_selection == selection_for(scheduler@)
        },
{
    if any_mig_job(&jobs) && mig_registry.is_none() {
        proof {
            reveal_strlit("workload contains MIG jobs but no MIG profile registry is configured");
        }
        return Err(
            ConfigError::Invalid(
                String::from_str("workload contains MIG jobs but no MIG profile registry is configured"),
            ),
        );
    }
    let jobs_total = jobs.len();
    let resource_manager = build_resource_manager(mig_registry, scheduler);
    run_to_completion_with_policy(cluster, scheduler, resource_manager, jobs, jobs_total)
}

} // verus!
