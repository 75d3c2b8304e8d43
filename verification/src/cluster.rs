//! The cluster: its nodes and GPUs, and the jobs waiting, running and finished.

use vstd::prelude::*;
use crate::models::{Gpu, GpuView, Job, JobState, MigSlice, Node, NodeView, SliceView};
use crate::strings::{ids_view, str_eq};

verus! {

/// All GPUs of the nodes, node by node, in order.
pub open spec fn gpus_of(nv: Seq<NodeView>) -> Seq<GpuView>
    decreases nv.len(),
{
    if nv.len() == 0 {
        Seq::empty()
    } else {
        gpus_of(nv.drop_last()) + nv.last().gpus
    }
}

pub open spec fn valid_gpu(nv: Seq<NodeView>, n: int, g: int) -> bool {
    0 <= n < nv.len() && 0 <= g < nv[n].gpus.len()
}

pub open spec fn valid_slice(nv: Seq<NodeView>, n: int, g: int, s: int) -> bool {
    valid_gpu(nv, n, g) && 0 <= s < nv[n].gpus[g].slices.len()
}

/// Slice `s` of GPU `g` of node `n` exists and has id `id`.
pub open spec fn slice_is(nv: Seq<NodeView>, id: Seq<char>, n: int, g: int, s: int) -> bool {
    valid_slice(nv, n, g, s) && nv[n].gpus[g].slices[s].id == id
}

/// GPU `g` of node `n` exists and has id `id`.
pub open spec fn gpu_is(nv: Seq<NodeView>, id: Seq<char>, n: int, g: int) -> bool {
    valid_gpu(nv, n, g) && nv[n].gpus[g].id == id
}

pub open spec fn before3(n1: int, g1: int, s1: int, n2: int, g2: int, s2: int) -> bool {
    n1 < n2 || (n1 == n2 && (g1 < g2 || (g1 == g2 && s1 < s2)))
}

pub open spec fn before2(n1: int, g1: int, n2: int, g2: int) -> bool {
    n1 < n2 || (n1 == n2 && g1 < g2)
}

/// (n, g, s) is the first slice, in cluster order, whose id is `id`.
pub open spec fn first_slice(nv: Seq<NodeView>, id: Seq<char>, n: int, g: int, s: int) -> bool {
    &&& slice_is(nv, id, n, g, s)
    &&& forall|n2: int, g2: int, s2: int|
        #![trigger slice_is(nv, id, n2, g2, s2)]
        before3(n2, g2, s2, n, g, s) ==> !slice_is(nv, id, n2, g2, s2)
}

/// (n, g) is the first GPU, in cluster order, whose id is `id`.
pub open spec fn first_gpu(nv: Seq<NodeView>, id: Seq<char>, n: int, g: int) -> bool {
    &&& gpu_is(nv, id, n, g)
    &&& forall|n2: int, g2: int|
        #![trigger gpu_is(nv, id, n2, g2)]
        before2(n2, g2, n, g) ==> !gpu_is(nv, id, n2, g2)
}

pub open spec fn has_slice(nv: Seq<NodeView>, id: Seq<char>) -> bool {
    exists|n: int, g: int, s: int| slice_is(nv, id, n, g, s)
}

pub open spec fn has_gpu(nv: Seq<NodeView>, id: Seq<char>) -> bool {
    exists|n: int, g: int| gpu_is(nv, id, n, g)
}

/// Where the first slice with id `id` is, if any.
pub open spec fn slice_location(nv: Seq<NodeView>, id: Seq<char>) -> Option<(int, int, int)> {
    if exists|n: int, g: int, s: int| first_slice(nv, id, n, g, s) {
        Some(choose|n: int, g: int, s: int| first_slice(nv, id, n, g, s))
    } else {
        None
    }
}

/// Where the first GPU with id `id` is, if any.
pub open spec fn gpu_location(nv: Seq<NodeView>, id: Seq<char>) -> Option<(int, int)> {
    if exists|n: int, g: int| first_gpu(nv, id, n, g) {
        Some(choose|n: int, g: int| first_gpu(nv, id, n, g))
    } else {
        None
    }
}

pub proof fn lemma_first_slice_unique(
    nv: Seq<NodeView>,
    id: Seq<char>,
    n1: int,
    g1: int,
    s1: int,
    n2: int,
    g2: int,
    s2: int,
)
    requires
        first_slice(nv, id, n1, g1, s1),
        first_slice(nv, id, n2, g2, s2),
    ensures
        n1 == n2 && g1 == g2 && s1 == s2,
{
    if before3(n1, g1, s1, n2, g2, s2) {
        assert(!slice_is(nv, id, n1, g1, s1));
    } else if before3(n2, g2, s2, n1, g1, s1) {
        assert(!slice_is(nv, id, n2, g2, s2));
    }
}

pub proof fn lemma_first_gpu_unique(nv: Seq<NodeView>, id: Seq<char>, n1: int, g1: int, n2: int, g2: int)
    requires
        first_gpu(nv, id, n1, g1),
        first_gpu(nv, id, n2, g2),
    ensures
        n1 == n2 && g1 == g2,
{
    if before2(n1, g1, n2, g2) {
        assert(!gpu_is(nv, id, n1, g1));
    } else if before2(n2, g2, n1, g1) {
        assert(!gpu_is(nv, id, n2, g2));
    }
}

/// The nodes with the job holder of one slice replaced.
pub open spec fn with_slice_job(
    nv: Seq<NodeView>,
    n: int,
    g: int,
    s: int,
    job: Option<Seq<char>>,
) -> Seq<NodeView> {
    let gpu = nv[n].gpus[g];
    let slice = gpu.slices[s];
    nv.update(
        n,
        NodeView {
            gpus: nv[n].gpus.update(
                g,
                GpuView { slices: gpu.slices.update(s, SliceView { running_job_id: job, ..slice }), ..gpu },
            ),
            ..nv[n]
        },
    )
}

/// The nodes with the job holder of one whole GPU replaced.
pub open spec fn with_gpu_job(nv: Seq<NodeView>, n: int, g: int, job: Option<Seq<char>>) -> Seq<
    NodeView,
> {
    let gpu = nv[n].gpus[g];
    nv.update(n, NodeView { gpus: nv[n].gpus.update(g, GpuView { running_job_id: job, ..gpu }), ..nv[n] })
}

/// Records `job` as the holder of resource `id`: the first slice with that
/// id if there is one, otherwise the first GPU with that id; an unknown id
/// changes nothing.
pub open spec fn set_resource_job(nv: Seq<NodeView>, id: Seq<char>, job: Option<Seq<char>>) -> Seq<
    NodeView,
> {
    match slice_location(nv, id) {
        Some(loc) => with_slice_job(nv, loc.0, loc.1, loc.2, job),
        None => match gpu_location(nv, id) {
            Some(loc) => with_gpu_job(nv, loc.0, loc.1, job),
            None => nv,
        },
    }
}

/// `set_resource_job` applied to each id in turn.
pub open spec fn set_resources_job(nv: Seq<NodeView>, ids: Seq<Seq<char>>, job: Option<Seq<char>>) -> Seq<
    NodeView,
>
    decreases ids.len(),
{
    if ids.len() == 0 {
        nv
    } else {
        set_resource_job(set_resources_job(nv, ids.drop_last(), job), ids.last(), job)
    }
}

/// Sum of the GPU counts of the jobs of `tenant`.
pub open spec fn tenant_usage(jobs: Seq<Job>, tenant: Seq<char>) -> nat
    decreases jobs.len(),
{
    if jobs.len() == 0 {
        0
    } else {
        tenant_usage(jobs.drop_last(), tenant) + if jobs.last().tenant is Some
            && jobs.last().tenant->0@ == tenant {
            jobs.last().gpu_count as nat
        } else {
            0nat
        }
    }
}

/// The GPU cap of `tenant`: its first entry in `quotas`, if any.
pub open spec fn quota_of(quotas: Seq<(String, u32)>, tenant: Seq<char>) -> Option<u32>
    decreases quotas.len(),
{
    if quotas.len() == 0 {
        None
    } else if quotas[0].0@ == tenant {
        Some(quotas[0].1)
    } else {
        quota_of(quotas.drop_first(), tenant)
    }
}

/// Starting `job` next to the running jobs keeps its tenant within the
/// tenant's quota. A job with no tenant, or whose tenant has no quota, is
/// unrestricted.
pub open spec fn within_quota(running: Seq<Job>, quotas: Seq<(String, u32)>, job: Job) -> bool {
    match job.tenant {
        Some(t) => match quota_of(quotas, t@) {
            Some(q) => tenant_usage(running, t@) + job.gpu_count <= q,
            None => true,
        },
        None => true,
    }
}

pub proof fn lemma_tenant_usage_mono(jobs: Seq<Job>, tenant: Seq<char>, k: int, j: int)
    requires
        0 <= k <= j <= jobs.len(),
    ensures
        tenant_usage(jobs.take(k), tenant) <= tenant_usage(jobs.take(j), tenant),
    decreases j - k,
{
    if k < j {
        lemma_tenant_usage_mono(jobs, tenant, k, j - 1);
        assert(jobs.take(j).drop_last() =~= jobs.take(j - 1));
    }
}

/// Number of GPUs that are free as whole GPUs.
pub open spec fn count_free_gpus(gpus: Seq<GpuView>) -> nat
    decreases gpus.len(),
{
    if gpus.len() == 0 {
        0
    } else {
        count_free_gpus(gpus.drop_last()) + if gpus.last().is_free() {
            1nat
        } else {
            0nat
        }
    }
}

/// Index of the first job with id `id`.
pub open spec fn first_job_index(jobs: Seq<Job>, id: Seq<char>, i: int) -> bool {
    &&& 0 <= i < jobs.len()
    &&& jobs[i].id@ == id
    &&& forall|j: int| 0 <= j < i ==> (#[trigger] jobs[j]).id@ != id
}

pub open spec fn has_job(jobs: Seq<Job>, id: Seq<char>) -> bool {
    exists|i: int| 0 <= i < jobs.len() && (#[trigger] jobs[i]).id@ == id
}

/// No two jobs share an id.
pub open spec fn ids_distinct(jobs: Seq<Job>) -> bool {
    forall|i: int, j: int|
        0 <= i < jobs.len() && 0 <= j < jobs.len() && i != j ==> (#[trigger] jobs[i]).id@ != (#[trigger] jobs[j]).id@
}

/// Total number of GPUs over all nodes.
pub open spec fn total_gpus(nv: Seq<NodeView>) -> nat {
    gpus_of(nv).len()
}

pub proof fn lemma_gpus_of_take(nv: Seq<NodeView>, k: int)
    requires
        0 <= k < nv.len(),
    ensures
        gpus_of(nv.take(k + 1)) == gpus_of(nv.take(k)) + nv[k].gpus,
{
    assert(nv.take(k + 1).drop_last() =~= nv.take(k));
}

pub proof fn lemma_gpus_of_mono(nv: Seq<NodeView>, k: int, j: int)
    requires
        0 <= k <= j <= nv.len(),
    ensures
        gpus_of(nv.take(k)).len() <= gpus_of(nv.take(j)).len(),
    decreases j - k,
{
    if k < j {
        lemma_gpus_of_mono(nv, k, j - 1);
        lemma_gpus_of_take(nv, j - 1);
    }
}

/// Two node lists with the same shape (node count and GPU count per node)
/// have the same number of GPUs.
pub proof fn lemma_gpus_of_len_same_shape(a: Seq<NodeView>, b: Seq<NodeView>)
    requires
        a.len() == b.len(),
        forall|n: int| 0 <= n < a.len() ==> (#[trigger] a[n]).gpus.len() == b[n].gpus.len(),
    ensures
        gpus_of(a).len() == gpus_of(b).len(),
    decreases a.len(),
{
    if a.len() > 0 {
        lemma_gpus_of_len_same_shape(a.drop_last(), b.drop_last());
    }
}

/// The nodes of `a` and `b` have the same GPU counts.
pub open spec fn same_shape(a: Seq<NodeView>, b: Seq<NodeView>) -> bool {
    &&& a.len() == b.len()
    &&& forall|n: int| 0 <= n < a.len() ==> (#[trigger] a[n]).gpus.len() == b[n].gpus.len()
}

/// Updating who holds a resource keeps the shape of the nodes.
pub proof fn lemma_set_resource_shape(nv: Seq<NodeView>, id: Seq<char>, job: Option<Seq<char>>)
    ensures
        same_shape(set_resource_job(nv, id, job), nv),
{
    match slice_location(nv, id) {
        Some(loc) => {
            if exists|n: int, g: int, s: int| first_slice(nv, id, n, g, s) {
                let l = choose|n: int, g: int, s: int| first_slice(nv, id, n, g, s);
                assert(slice_is(nv, id, l.0, l.1, l.2));
            }
        },
        None => match gpu_location(nv, id) {
            Some(loc) => {
                if exists|n: int, g: int| first_gpu(nv, id, n, g) {
                    let l = choose|n: int, g: int| first_gpu(nv, id, n, g);
                    assert(gpu_is(nv, id, l.0, l.1));
                }
            },
            None => {},
        },
    }
}

pub proof fn lemma_set_resources_shape(nv: Seq<NodeView>, ids: Seq<Seq<char>>, job: Option<Seq<char>>)
    ensures
        same_shape(set_resources_job(nv, ids, job), nv),
    decreases ids.len(),
{
    if ids.len() > 0 {
        lemma_set_resources_shape(nv, ids.drop_last(), job);
        lemma_set_resource_shape(set_resources_job(nv, ids.drop_last(), job), ids.last(), job);
    }
}

/// The job `r` is `job` started at `t` on resources `ids`.
pub open spec fn started_from(r: Job, job: Job, ids: Seq<String>, t: u64) -> bool {
    &&& r.id == job.id
    &&& r.name == job.name
    &&& r.arrival_time == job.arrival_time
    &&& r.runtime == job.runtime
    &&& r.gpu_count == job.gpu_count
    &&& r.gpu_memory_gb == job.gpu_memory_gb
    &&& r.priority == job.priority
    &&& r.tenant == job.tenant
    &&& r.network_bw_gbps == job.network_bw_gbps
    &&& r.gpu_type == job.gpu_type
    &&& r.namespace == job.namespace
    &&& r.gang_enabled == job.gang_enabled
    &&& r.gang_size_nodes == job.gang_size_nodes
    &&& r.gang_timeout_secs == job.gang_timeout_secs
    &&& r.mig_profile == job.mig_profile
    &&& r.mig_count == job.mig_count
    &&& r.finish_time == job.finish_time
    &&& r.run_generation == job.run_generation
    &&& r.remaining_runtime == job.remaining_runtime
    &&& r.preemption_count == job.preemption_count
    &&& r.state == JobState::Running
    &&& r.start_time == Some(t)
    &&& r.assigned_gpus@ == ids
}

/// The job `r` is `job` finished at `t`.
pub open spec fn finished_from(r: Job, job: Job, t: u64) -> bool {
    &&& r.id == job.id
    &&& r.name == job.name
    &&& r.arrival_time == job.arrival_time
    &&& r.runtime == job.runtime
    &&& r.gpu_count == job.gpu_count
    &&& r.gpu_memory_gb == job.gpu_memory_gb
    &&& r.priority == job.priority
    &&& r.tenant == job.tenant
    &&& r.network_bw_gbps == job.network_bw_gbps
    &&& r.gpu_type == job.gpu_type
    &&& r.namespace == job.namespace
    &&& r.gang_enabled == job.gang_enabled
    &&& r.gang_size_nodes == job.gang_size_nodes
    &&& r.gang_timeout_secs == job.gang_timeout_secs
    &&& r.mig_profile == job.mig_profile
    &&& r.mig_count == job.mig_count
    &&& r.start_time == job.start_time
    &&& r.run_generation == job.run_generation
    &&& r.remaining_runtime == job.remaining_runtime
    &&& r.preemption_count == job.preemption_count
    &&& r.assigned_gpus@ == job.assigned_gpus@
    &&& r.state == JobState::Finished
    &&& r.finish_time == Some(t)
}

/// Locates the first job with id `id`.
pub fn find_job(jobs: &Vec<Job>, id: &str) -> (r: Option<usize>)
    ensures
        match r {
            Some(i) => first_job_index(jobs@, id@, i as int),
            None => !has_job(jobs@, id@),
        },
{
    let mut i: usize = 0;
    while i < jobs.len()
        invariant
            i <= jobs@.len(),
            forall|j: int| 0 <= j < i ==> (#[trigger] jobs@[j]).id@ != id@,
        decreases jobs@.len() - i,
    {
        if str_eq(jobs[i].id.as_str(), id) {
            return Some(i);
        }
        i = i + 1;
    }
    None
}

/// Among jobs with distinct ids, the one with id `id` sits at index `i`.
pub proof fn lemma_distinct_index(jobs: Seq<Job>, id: Seq<char>, i: int, j: int)
    requires
        ids_distinct(jobs),
        0 <= i < jobs.len(),
        0 <= j < jobs.len(),
        jobs[i].id@ == id,
        jobs[j].id@ == id,
    ensures
        i == j,
{
}

/// `new` is the running-job list `old` after `job` was started at `t` on
/// `ids`: it replaces the job with the same id, or else is appended.
pub open spec fn running_after_start(old: Seq<Job>, new: Seq<Job>, job: Job, ids: Seq<String>, t: u64) -> bool {
    if has_job(old, job.id@) {
        exists|i: int|
            #![trigger old[i]]
            {
                &&& first_job_index(old, job.id@, i)
                &&& new.len() == old.len()
                &&& started_from(new[i], job, ids, t)
                &&& forall|j: int| 0 <= j < old.len() && j != i ==> new[j] == old[j]
            }
    } else {
        &&& new.len() == old.len() + 1
        &&& new.take(old.len() as int) == old
        &&& started_from(new.last(), job, ids, t)
    }
}

/// Copies a slice of strings into a vector.
pub fn copy_ids(ids: &[String]) -> (r: Vec<String>)
    ensures
        r@ == ids@,
{
    let mut r: Vec<String> = Vec::new();
    let mut i: usize = 0;
    while i < ids.len()
        invariant
            i <= ids@.len(),
            r@ == ids@.take(i as int),
        decreases ids@.len() - i,
    {
        r.push(ids[i].clone());
        assert(ids@.take(i as int + 1) =~= ids@.take(i as int).push(ids@[i as int]));
        i = i + 1;
    }
    assert(ids@.take(ids@.len() as int) =~= ids@);
    r
}

/// The GPU that holds resource `id`: the GPU of the first slice with that
/// id, or else the first GPU with that id.
pub open spec fn resource_gpu(nv: Seq<NodeView>, id: Seq<char>) -> Option<GpuView> {
    match slice_location(nv, id) {
        Some(loc) => Some(nv[loc.0].gpus[loc.1]),
        None => match gpu_location(nv, id) {
            Some(loc) => Some(nv[loc.0].gpus[loc.1]),
            None => None,
        },
    }
}

#[derive(Debug)]
pub struct Cluster {
    pub nodes: Vec<Node>,
    pub waiting_queue: Vec<Job>,
    /// Running jobs, at most one per id.
    pub running_jobs: Vec<Job>,
    pub finished_jobs: Vec<Job>,
    /// Jobs that gave up waiting (gang jobs whose timeout fired).
    pub failed_jobs: Vec<Job>,
    pub clock: u64,
    pub mig_reconfigs: u32,
    /// Max GPUs a tenant may hold across running jobs, keyed by tenant name.
    /// Tenants with no entry are unrestricted.
    pub tenant_quotas: Vec<(String, u32)>,
}

impl Cluster {
    /// The nodes as plain values.
    pub open spec fn resources(&self) -> Seq<NodeView> {
        self.nodes@.map_values(|n: Node| n@)
    }

    /// The cluster's own invariant: running jobs have distinct ids.
    pub open spec fn wf(&self) -> bool {
        &&& ids_distinct(self.running_jobs@)
        &&& total_gpus(self.resources()) <= usize::MAX
    }

    /// A cluster at time zero with no jobs.
    pub fn new(nodes: Vec<Node>) -> (c: Cluster)
        ensures
            c.nodes@ == nodes@,
            c.waiting_queue@.len() == 0,
            c.running_jobs@.len() == 0,
            c.finished_jobs@.len() == 0,
            c.failed_jobs@.len() == 0,
            c.clock == 0,
            c.mig_reconfigs == 0,
            c.tenant_quotas@.len() == 0,
            ids_distinct(c.running_jobs@),
    {
        Cluster {
            nodes,
            waiting_queue: Vec::new(),
            running_jobs: Vec::new(),
            finished_jobs: Vec::new(),
            failed_jobs: Vec::new(),
            clock: 0,
            mig_reconfigs: 0,
            tenant_quotas: Vec::new(),
        }
    }

    /// Locates the first slice whose id is `id`.
    pub fn find_slice(&self, id: &str) -> (r: Option<(usize, usize, usize)>)
        ensures
            match r {
                Some(loc) => first_slice(self.resources(), id@, loc.0 as int, loc.1 as int, loc.2 as int),
                None => !has_slice(self.resources(), id@),
            },
    {
        let ghost nv = self.resources();
        let mut n: usize = 0;
        while n < self.nodes.len()
            invariant
                nv == self.resources(),
                n <= self.nodes@.len(),
                forall|n2: int, g2: int, s2: int| n2 < n ==> !slice_is(nv, id@, n2, g2, s2),
            decreases self.nodes@.len() - n,
        {
            let node = &self.nodes[n];
            assert(nv[n as int] == node@);
            let mut g: usize = 0;
            while g < node.gpus.len()
                invariant
                    nv == self.resources(),
                    n < self.nodes@.len(),
                    node == self.nodes@[n as int],
                    nv[n as int] == node@,
                    g <= node.gpus@.len(),
                    forall|n2: int, g2: int, s2: int| n2 < n ==> !slice_is(nv, id@, n2, g2, s2),
                    forall|g2: int, s2: int| g2 < g ==> !slice_is(nv, id@, n as int, g2, s2),
                decreases node.gpus@.len() - g,
            {
                let gpu = &node.gpus[g];
                assert(nv[n as int].gpus[g as int] == gpu@);
                let mut s: usize = 0;
                while s < gpu.slices.len()
                    invariant
                        nv == self.resources(),
                        n < self.nodes@.len(),
                        node == self.nodes@[n as int],
                        nv[n as int] == node@,
                        g < node.gpus@.len(),
                        gpu == node.gpus@[g as int],
                        nv[n as int].gpus[g as int] == gpu@,
                        s <= gpu.slices@.len(),
                        forall|n2: int, g2: int, s2: int| n2 < n ==> !slice_is(nv, id@, n2, g2, s2),
                        forall|g2: int, s2: int| g2 < g ==> !slice_is(nv, id@, n as int, g2, s2),
                        forall|s2: int| s2 < s ==> !slice_is(nv, id@, n as int, g as int, s2),
                    decreases gpu.slices@.len() - s,
                {
                    assert(nv[n as int].gpus[g as int].slices[s as int] == gpu.slices@[s as int]@);
                    if str_eq(gpu.slices[s].id.as_str(), id) {
                        return Some((n, g, s));
                    }
                    s = s + 1;
                }
                g = g + 1;
            }
            n = n + 1;
        }
        None
    }

    /// Locates the first GPU whose id is `id`.
    pub fn find_gpu(&self, id: &str) -> (r: Option<(usize, usize)>)
        ensures
            match r {
                Some(loc) => first_gpu(self.resources(), id@, loc.0 as int, loc.1 as int),
                None => !has_gpu(self.resources(), id@),
            },
    {
        let ghost nv = self.resources();
        let mut n: usize = 0;
        while n < self.nodes.len()
            invariant
                nv == self.resources(),
                n <= self.nodes@.len(),
                forall|n2: int, g2: int| n2 < n ==> !gpu_is(nv, id@, n2, g2),
            decreases self.nodes@.len() - n,
        {
            let node = &self.nodes[n];
            assert(nv[n as int] == node@);
            let mut g: usize = 0;
            while g < node.gpus.len()
                invariant
                    nv == self.resources(),
                    n < self.nodes@.len(),
                    node == self.nodes@[n as int],
                    nv[n as int] == node@,
                    g <= node.gpus@.len(),
                    forall|n2: int, g2: int| n2 < n ==> !gpu_is(nv, id@, n2, g2),
                    forall|g2: int| g2 < g ==> !gpu_is(nv, id@, n as int, g2),
                decreases node.gpus@.len() - g,
            {
                assert(nv[n as int].gpus[g as int] == node.gpus@[g as int]@);
                if str_eq(node.gpus[g].id.as_str(), id) {
                    return Some((n, g));
                }
                g = g + 1;
            }
            n = n + 1;
        }
        None
    }

    /// The GPU with id `resource_id`, to be changed in place; `None` (and
    /// nothing changed) when the id names a MIG slice or no GPU.
    pub fn gpu_mut(&mut self, resource_id: &str) -> (r: Option<&mut Gpu>)
        ensures
            slice_location(old(self).resources(), resource_id@) is Some || gpu_location(
                old(self).resources(),
                resource_id@,
            ) is None ==> r is None && *final(self) == *old(self),
            slice_location(old(self).resources(), resource_id@) is None && gpu_location(
                old(self).resources(),
                resource_id@,
            ) is Some ==> r is Some,
            r is Some ==> {
                let loc = gpu_location(old(self).resources(), resource_id@)->0;
                &&& *r->0 == old(self).nodes@[loc.0].gpus@[loc.1]
                &&& final(self).same_jobs(old(self))
                &&& final(self).nodes@.len() == old(self).nodes@.len()
                &&& forall|n: int| 0 <= n < old(self).nodes@.len() && n != loc.0 ==> final(self).nodes@[n] == old(self).nodes@[n]
                &&& final(self).nodes@[loc.0].id == old(self).nodes@[loc.0].id
                &&& final(self).nodes@[loc.0].gpus@ == old(self).nodes@[loc.0].gpus@.update(loc.1, *final(r->0))
            },
    {
        let ghost nv = self.resources();
        if self.find_slice(resource_id).is_some() {
            proof {
                let loc = choose|n: int, g: int, s: int| first_slice(nv, resource_id@, n, g, s);
            }
            return None;
        }
        match self.find_gpu(resource_id) {
            Some((n, g)) => {
                proof {
                    let loc = choose|n2: int, g2: int| first_gpu(nv, resource_id@, n2, g2);
                    lemma_first_gpu_unique(nv, resource_id@, n as int, g as int, loc.0, loc.1);
                }
                let node = &mut self.nodes[n];
                Some(&mut node.gpus[g])
            },
            None => {
                None
            },
        }
    }

    /// The first MIG slice with id `slice_id`, to be changed in place;
    /// `None` (and nothing changed) when there is none.
    pub fn slice_mut(&mut self, slice_id: &str) -> (r: Option<&mut MigSlice>)
        ensures
            slice_location(old(self).resources(), slice_id@) is None ==> r is None && *final(self) == *old(self),
            slice_location(old(self).resources(), slice_id@) is Some ==> r is Some,
            r is Some ==> {
                let loc = slice_location(old(self).resources(), slice_id@)->0;
                let gpu = old(self).nodes@[loc.0].gpus@[loc.1];
                &&& *r->0 == gpu.slices@[loc.2]
                &&& final(self).same_jobs(old(self))
                &&& final(self).nodes@.len() == old(self).nodes@.len()
                &&& forall|n: int| 0 <= n < old(self).nodes@.len() && n != loc.0 ==> final(self).nodes@[n] == old(self).nodes@[n]
                &&& final(self).nodes@[loc.0].id == old(self).nodes@[loc.0].id
                &&& final(self).nodes@[loc.0].gpus@.len() == old(self).nodes@[loc.0].gpus@.len()
                &&& forall|g: int| 0 <= g < old(self).nodes@[loc.0].gpus@.len() && g != loc.1 ==> final(self).nodes@[loc.0].gpus@[g] == old(self).nodes@[loc.0].gpus@[g]
                &&& final(self).nodes@[loc.0].gpus@[loc.1].slices@ == gpu.slices@.update(loc.2, *final(r->0))
                &&& final(self).nodes@[loc.0].gpus@[loc.1].id == gpu.id
                &&& final(self).nodes@[loc.0].gpus@[loc.1].node_id == gpu.node_id
                &&& final(self).nodes@[loc.0].gpus@[loc.1].profile == gpu.profile
                &&& final(self).nodes@[loc.0].gpus@[loc.1].memory_gb == gpu.memory_gb
                &&& final(self).nodes@[loc.0].gpus@[loc.1].nvlink_group == gpu.nvlink_group
                &&& final(self).nodes@[loc.0].gpus@[loc.1].running_job_id == gpu.running_job_id
                &&& final(self).nodes@[loc.0].gpus@[loc.1].mig_capable == gpu.mig_capable
                &&& final(self).nodes@[loc.0].gpus@[loc.1].active_mig_profile == gpu.active_mig_profile
            },
    {
        let ghost nv = self.resources();
        match self.find_slice(slice_id) {
            Some((n, g, k)) => {
                proof {
                    let loc = choose|n2: int, g2: int, s2: int| first_slice(nv, slice_id@, n2, g2, s2);
                    lemma_first_slice_unique(nv, slice_id@, n as int, g as int, k as int, loc.0, loc.1, loc.2);
                }
                let node = &mut self.nodes[n];
                let gpu = &mut node.gpus[g];
                Some(&mut gpu.slices[k])
            },
            None => None,
        }
    }

    /// Everything but the nodes is as in `other`.
    pub open spec fn same_jobs(&self, other: &Cluster) -> bool {
        &&& self.waiting_queue == other.waiting_queue
        &&& self.running_jobs == other.running_jobs
        &&& self.finished_jobs == other.finished_jobs
        &&& self.clock == other.clock
        &&& self.mig_reconfigs == other.mig_reconfigs
        &&& self.tenant_quotas == other.tenant_quotas
        &&& self.failed_jobs == other.failed_jobs
    }

    fn set_resource(&mut self, id: &str, job: Option<String>)
        ensures
            final(self).resources() == set_resource_job(old(self).resources(), id@, crate::models::opt_view(job)),
            final(self).same_jobs(old(self)),
            final(self).nodes@.len() == old(self).nodes@.len(),
    {
        let ghost nv = self.resources();
        let ghost jv = crate::models::opt_view(job);
        match self.find_slice(id) {
            Some((n, g, s)) => {
                proof {
                    let loc = choose|n2: int, g2: int, s2: int| first_slice(nv, id@, n2, g2, s2);
                    lemma_first_slice_unique(nv, id@, loc.0, loc.1, loc.2, n as int, g as int, s as int);
                    assert(slice_location(nv, id@) == Some((n as int, g as int, s as int)));
                }
                self.nodes[n].gpus[g].slices[s].running_job_id = job;
                proof {
                    let target = with_slice_job(nv, n as int, g as int, s as int, jv);
                    assert(self.resources()[n as int].gpus[g as int].slices =~= target[n as int].gpus[g as int].slices);
                    assert(self.resources()[n as int].gpus =~= target[n as int].gpus);
                    assert(self.resources() =~= target);
                }
            },
            None => {
                assert(slice_location(nv, id@) is None) by {
                    if exists|n2: int, g2: int, s2: int| first_slice(nv, id@, n2, g2, s2) {
                        let loc = choose|n2: int, g2: int, s2: int| first_slice(nv, id@, n2, g2, s2);
                        assert(slice_is(nv, id@, loc.0, loc.1, loc.2));
                    }
                }
                match self.find_gpu(id) {
                    Some((n, g)) => {
                        proof {
                            let loc = choose|n2: int, g2: int| first_gpu(nv, id@, n2, g2);
                            lemma_first_gpu_unique(nv, id@, loc.0, loc.1, n as int, g as int);
                            assert(gpu_location(nv, id@) == Some((n as int, g as int)));
                        }
                        self.nodes[n].gpus[g].running_job_id = job;
                        proof {
                            let target = with_gpu_job(nv, n as int, g as int, jv);
                            assert(self.resources()[n as int].gpus =~= target[n as int].gpus);
                            assert(self.resources() =~= target);
                        }
                    },
                    None => {
                        assert(gpu_location(nv, id@) is None) by {
                            if exists|n2: int, g2: int| first_gpu(nv, id@, n2, g2) {
                                let loc = choose|n2: int, g2: int| first_gpu(nv, id@, n2, g2);
                                assert(gpu_is(nv, id@, loc.0, loc.1));
                            }
                        }
                    },
                }
            },
        }
    }

    /// Records `job_id` as the holder of resource `resource_id`: the first
    /// slice with that id, or else the first GPU with that id; an unknown
    /// id changes nothing.
    pub fn mark_resource_busy(&mut self, resource_id: &str, job_id: &str)
        ensures
            final(self).resources() == set_resource_job(old(self).resources(), resource_id@, Some(job_id@)),
            final(self).same_jobs(old(self)),
            final(self).nodes@.len() == old(self).nodes@.len(),
    {
        self.set_resource(resource_id, Some(String::from_str(job_id)));
    }

    /// Clears the holder of resource `resource_id` (first slice with that
    /// id, or else first GPU with that id).
    pub fn mark_resource_free(&mut self, resource_id: &str)
        ensures
            final(self).resources() == set_resource_job(old(self).resources(), resource_id@, None),
            final(self).same_jobs(old(self)),
            final(self).nodes@.len() == old(self).nodes@.len(),
    {
        self.set_resource(resource_id, None);
    }

    /// Number of GPUs in the cluster.
    pub fn gpu_count(&self) -> (c: usize)
        requires
            self.wf(),
        ensures
            c == total_gpus(self.resources()),
    {
        let ghost nv = self.resources();
        let mut c: usize = 0;
        let mut n: usize = 0;
        while n < self.nodes.len()
            invariant
                nv == self.resources(),
                n <= nv.len(),
                c == gpus_of(nv.take(n as int)).len(),
                gpus_of(nv).len() <= usize::MAX,
            decreases nv.len() - n,
        {
            proof {
                lemma_gpus_of_take(nv, n as int);
                lemma_gpus_of_mono(nv, n as int + 1, nv.len() as int);
                assert(nv.take(nv.len() as int) =~= nv);
            }
            assert(nv[n as int].gpus.len() == self.nodes@[n as int].gpus@.len());
            c = c + self.nodes[n].gpus.len();
            n = n + 1;
        }
        assert(nv.take(nv.len() as int) =~= nv);
        c
    }

    /// Number of GPUs free as whole GPUs.
    pub fn free_gpu_count(&self) -> (c: usize)
        requires
            self.wf(),
        ensures
            c == count_free_gpus(gpus_of(self.resources())),
    {
        let ghost nv = self.resources();
        let mut c: usize = 0;
        let mut n: usize = 0;
        while n < self.nodes.len()
            invariant
                nv == self.resources(),
                n <= nv.len(),
                c == count_free_gpus(gpus_of(nv.take(n as int))),
                c <= gpus_of(nv.take(n as int)).len(),
                gpus_of(nv).len() <= usize::MAX,
            decreases nv.len() - n,
        {
            let node = &self.nodes[n];
            let ghost base = gpus_of(nv.take(n as int));
            proof {
                lemma_gpus_of_take(nv, n as int);
                lemma_gpus_of_mono(nv, n as int + 1, nv.len() as int);
                assert(nv.take(nv.len() as int) =~= nv);
            }
            assert(nv[n as int] == node@);
            let mut g: usize = 0;
            while g < node.gpus.len()
                invariant
                    nv == self.resources(),
                    n < nv.len(),
                    node == self.nodes@[n as int],
                    nv[n as int] == node@,
                    base == gpus_of(nv.take(n as int)),
                    g <= node.gpus@.len(),
                    c == count_free_gpus(base + node@.gpus.take(g as int)),
                    c <= base.len() + g,
                    base.len() + node@.gpus.len() <= usize::MAX,
                decreases node.gpus@.len() - g,
            {
                proof {
                    assert((base + node@.gpus.take(g as int + 1)).drop_last() =~= base + node@.gpus.take(g as int));
                }
                assert(node@.gpus[g as int] == node.gpus@[g as int]@);
                if node.gpus[g].is_whole_gpu_free() {
                    c = c + 1;
                }
                g = g + 1;
            }
            assert(node@.gpus.take(node.gpus@.len() as int) =~= node@.gpus);
            n = n + 1;
        }
        assert(nv.take(nv.len() as int) =~= nv);
        c
    }

    /// The GPU cap of `tenant`, if it has one.
    pub fn tenant_quota(&self, tenant: &str) -> (r: Option<u32>)
        ensures
            r == quota_of(self.tenant_quotas@, tenant@),
    {
        let mut i: usize = 0;
        assert(self.tenant_quotas@.skip(0) =~= self.tenant_quotas@);
        while i < self.tenant_quotas.len()
            invariant
                i <= self.tenant_quotas@.len(),
                quota_of(self.tenant_quotas@, tenant@) == quota_of(self.tenant_quotas@.skip(i as int), tenant@),
            decreases self.tenant_quotas@.len() - i,
        {
            assert(self.tenant_quotas@.skip(i as int).drop_first() =~= self.tenant_quotas@.skip(i as int + 1));
            if str_eq(self.tenant_quotas[i].0.as_str(), tenant) {
                return Some(self.tenant_quotas[i].1);
            }
            i = i + 1;
        }
        None
    }

    /// Whether starting `job` keeps its tenant within the tenant's quota,
    /// given the jobs running now.
    pub fn within_tenant_quota(&self, job: &Job) -> (r: bool)
        ensures
            r == within_quota(self.running_jobs@, self.tenant_quotas@, *job),
    {
        match &job.tenant {
            None => true,
            Some(t) => match self.tenant_quota(t.as_str()) {
                None => true,
                Some(q) => {
                    let limit: u64 = q as u64;
                    let need: u64 = job.gpu_count as u64;
                    let ghost running = self.running_jobs@;
                    if need > limit {
                        return false;
                    }
                    let mut used: u64 = 0;
                    let mut i: usize = 0;
                    while i < self.running_jobs.len()
                        invariant
                            running == self.running_jobs@,
                            i <= running.len(),
                            used == tenant_usage(running.take(i as int), t@),
                            used + need <= limit,
                            limit == q,
                            need == job.gpu_count,
                            job.tenant == Some(*t),
                            quota_of(self.tenant_quotas@, t@) == Some(q),
                        decreases running.len() - i,
                    {
                        assert(running.take(i as int + 1).drop_last() =~= running.take(i as int));
                        let same_tenant = match &self.running_jobs[i].tenant {
                            Some(rt) => str_eq(rt.as_str(), t.as_str()),
                            None => false,
                        };
                        if same_tenant {
                            used = used + self.running_jobs[i].gpu_count as u64;
                            assert(running.take(i as int + 1).last() == running[i as int]);
                            assert(used == tenant_usage(running.take(i as int + 1), t@));
                            if used + need > limit {
                                proof {
                                    lemma_tenant_usage_mono(running, t@, i as int + 1, running.len() as int);
                                    assert(running.take(running.len() as int) =~= running);
                                }
                                return false;
                            }
                        }
                        i = i + 1;
                    }
                    assert(running.take(running.len() as int) =~= running);
                    true
                },
            },
        }
    }

    /// GPUs currently held by `tenant` across its running jobs.
    pub fn tenant_gpu_usage(&self, tenant: &str) -> (u: u32)
        requires
            tenant_usage(self.running_jobs@, tenant@) <= u32::MAX,
        ensures
            u == tenant_usage(self.running_jobs@, tenant@),
    {
        let mut u: u32 = 0;
        let mut i: usize = 0;
        while i < self.running_jobs.len()
            invariant
                i <= self.running_jobs@.len(),
                u == tenant_usage(self.running_jobs@.take(i as int), tenant@),
                tenant_usage(self.running_jobs@, tenant@) <= u32::MAX,
            decreases self.running_jobs@.len() - i,
        {
            proof {
                assert(self.running_jobs@.take(i as int + 1).drop_last() =~= self.running_jobs@.take(i as int));
                lemma_tenant_usage_mono(self.running_jobs@, tenant@, i as int + 1, self.running_jobs@.len() as int);
                assert(self.running_jobs@.take(self.running_jobs@.len() as int) =~= self.running_jobs@);
            }
            let job = &self.running_jobs[i];
            match &job.tenant {
                Some(t) => {
                    if str_eq(t.as_str(), tenant) {
                        u = u + job.gpu_count;
                    }
                },
                None => {},
            }
            i = i + 1;
        }
        assert(self.running_jobs@.take(self.running_jobs@.len() as int) =~= self.running_jobs@);
        u
    }

    pub fn enqueue_job(&mut self, job: Job)
        ensures
            final(self).waiting_queue@ == old(self).waiting_queue@.push(job),
            final(self).nodes == old(self).nodes,
            final(self).running_jobs == old(self).running_jobs,
            final(self).finished_jobs == old(self).finished_jobs,
            final(self).clock == old(self).clock,
            final(self).mig_reconfigs == old(self).mig_reconfigs,
            final(self).tenant_quotas == old(self).tenant_quotas,
            final(self).failed_jobs == old(self).failed_jobs,
    {
        self.waiting_queue.push(job);
    }

    /// Marks every id in `ids`, in order, as held by `job_id` when `job` is
    /// `Some`, and as free when it is `None`.
    pub fn mark_all(&mut self, ids: &[String], job_id: &str, job: Option<String>)
        requires
            old(self).wf(),
            job is Some ==> job->0@ == job_id@,
        ensures
            final(self).resources() == set_resources_job(old(self).resources(), ids_view(ids@), crate::models::opt_view(job)),
            final(self).same_jobs(old(self)),
            final(self).wf(),
    {
        let ghost nv0 = self.resources();
        let mut i: usize = 0;
        while i < ids.len()
            invariant
                i <= ids@.len(),
                self.resources() == set_resources_job(nv0, ids_view(ids@).take(i as int), crate::models::opt_view(job)),
                self.same_jobs(old(self)),
                nv0 == old(self).resources(),
                old(self).wf(),
                job is Some ==> job->0@ == job_id@,
            decreases ids@.len() - i,
        {
            assert(ids_view(ids@).take(i as int + 1).drop_last() =~= ids_view(ids@).take(i as int));
            match &job {
                Some(_) => self.mark_resource_busy(ids[i].as_str(), job_id),
                None => self.mark_resource_free(ids[i].as_str()),
            }
            i = i + 1;
        }
        assert(ids_view(ids@).take(ids@.len() as int) =~= ids_view(ids@));
        proof {
            lemma_set_resources_shape(nv0, ids_view(ids@), crate::models::opt_view(job));
            lemma_gpus_of_len_same_shape(self.resources(), nv0);
        }
    }

    /// Starts `job` at `start_time` on the given resources: each resource is
    /// marked as held by the job, and the job, now running with those
    /// resources assigned, replaces any running job with its id or is added.
    pub fn start_job(&mut self, job: Job, placement_resource_ids: &[String], start_time: u64)
        requires
            old(self).wf(),
        ensures
            final(self).wf(),
            final(self).resources() == set_resources_job(
                old(self).resources(),
                ids_view(placement_resource_ids@),
                Some(job.id@),
            ),
            running_after_start(old(self).running_jobs@, final(self).running_jobs@, job, placement_resource_ids@, start_time),
            final(self).waiting_queue == old(self).waiting_queue,
            final(self).finished_jobs == old(self).finished_jobs,
            final(self).clock == old(self).clock,
            final(self).mig_reconfigs == old(self).mig_reconfigs,
            final(self).tenant_quotas == old(self).tenant_quotas,
            final(self).failed_jobs == old(self).failed_jobs,
    {
        let ghost old_running = self.running_jobs@;
        let job_id = job.id.clone();
        self.mark_all(placement_resource_ids, job_id.as_str(), Some(job.id.clone()));
        let mut running = job;
        running.state = JobState::Running;
        running.start_time = Some(start_time);
        running.assigned_gpus = copy_ids(placement_resource_ids);
        match find_job(&self.running_jobs, running.id.as_str()) {
            Some(i) => {
                self.running_jobs.set(i, running);
                assert forall|a: int, b: int|
                    0 <= a < self.running_jobs@.len() && 0 <= b < self.running_jobs@.len() && a != b
                    implies (#[trigger] self.running_jobs@[a]).id@ != (#[trigger] self.running_jobs@[b]).id@ by {
                    if a == i {
                        assert(old_running[i as int].id@ == job.id@);
                    } else if b == i {
                        assert(old_running[i as int].id@ == job.id@);
                    }
                }
                assert(old_running[i as int] == old_running[i as int]);
            },
            None => {
                self.running_jobs.push(running);
                assert(self.running_jobs@.take(old_running.len() as int) =~= old_running);
                assert forall|a: int, b: int|
                    0 <= a < self.running_jobs@.len() && 0 <= b < self.running_jobs@.len() && a != b
                    implies (#[trigger] self.running_jobs@[a]).id@ != (#[trigger] self.running_jobs@[b]).id@ by {
                    if a == old_running.len() {
                        assert(old_running[b] == self.running_jobs@[b]);
                    } else if b == old_running.len() {
                        assert(old_running[a] == self.running_jobs@[a]);
                    }
                }
            },
        }
    }

    /// Finishes the running job `job_id` at `finish_time`: it leaves the
    /// running jobs, its resources are released, and it is appended to the
    /// finished jobs. Returns the finished job, or `None` (changing
    /// nothing) when no job with that id runs.
    pub fn finish_job(&mut self, job_id: &str, finish_time: u64) -> (r: Option<Job>)
        requires
            old(self).wf(),
        ensures
            final(self).wf(),
            final(self).waiting_queue == old(self).waiting_queue,
            final(self).clock == old(self).clock,
            final(self).mig_reconfigs == old(self).mig_reconfigs,
            final(self).tenant_quotas == old(self).tenant_quotas,
            final(self).failed_jobs == old(self).failed_jobs,
            match r {
                None => {
                    &&& !has_job(old(self).running_jobs@, job_id@)
                    &&& final(self).nodes == old(self).nodes
                    &&& final(self).running_jobs == old(self).running_jobs
                    &&& final(self).finished_jobs == old(self).finished_jobs
                },
                Some(j) => exists|i: int|
                    #![trigger old(self).running_jobs@[i]]
                    {
                        &&& first_job_index(old(self).running_jobs@, job_id@, i)
                        &&& final(self).running_jobs@ == old(self).running_jobs@.remove(i)
                        &&& finished_from(j, old(self).running_jobs@[i], finish_time)
                        &&& final(self).finished_jobs@.len() == old(self).finished_jobs@.len() + 1
                        &&& final(self).finished_jobs@.take(old(self).finished_jobs@.len() as int)
                            == old(self).finished_jobs@
                        &&& final(self).finished_jobs@.last().same(&j)
                        &&& final(self).resources() == set_resources_job(
                            old(self).resources(),
                            ids_view(old(self).running_jobs@[i].assigned_gpus@),
                            None,
                        )
                    },
            },
    {
        let idx = match find_job(&self.running_jobs, job_id) {
            Some(i) => i,
            None => return None,
        };
        let ghost old_running = self.running_jobs@;
        let ghost old_finished = self.finished_jobs@;
        let mut job = self.running_jobs.remove(idx);
        assert forall|a: int, b: int|
            0 <= a < self.running_jobs@.len() && 0 <= b < self.running_jobs@.len() && a != b
            implies (#[trigger] self.running_jobs@[a]).id@ != (#[trigger] self.running_jobs@[b]).id@ by {
            let a2 = if a < idx { a } else { a + 1 };
            let b2 = if b < idx { b } else { b + 1 };
            assert(self.running_jobs@[a] == old_running[a2]);
            assert(self.running_jobs@[b] == old_running[b2]);
        }
        self.mark_all(job.assigned_gpus.as_slice(), job_id, None);
        job.state = JobState::Finished;
        job.finish_time = Some(finish_time);
        self.finished_jobs.push(job.duplicate());
        assert(self.finished_jobs@.take(old_finished.len() as int) =~= old_finished);
        Some(job)
    }

    /// Evicts the running job `job_id`: it leaves the running jobs and its
    /// resources are released. Returns the job as it ran, or `None`
    /// (changing nothing) when no job with that id runs.
    pub fn evict_job(&mut self, job_id: &str) -> (r: Option<Job>)
        requires
            old(self).wf(),
        ensures
            final(self).wf(),
            final(self).waiting_queue == old(self).waiting_queue,
            final(self).finished_jobs == old(self).finished_jobs,
            final(self).clock == old(self).clock,
            final(self).mig_reconfigs == old(self).mig_reconfigs,
            final(self).tenant_quotas == old(self).tenant_quotas,
            final(self).failed_jobs == old(self).failed_jobs,
            match r {
                None => {
                    &&& !has_job(old(self).running_jobs@, job_id@)
                    &&& final(self).nodes == old(self).nodes
                    &&& final(self).running_jobs == old(self).running_jobs
                },
                Some(j) => exists|i: int|
                    #![trigger old(self).running_jobs@[i]]
                    {
                        &&& first_job_index(old(self).running_jobs@, job_id@, i)
                        &&& j == old(self).running_jobs@[i]
                        &&& final(self).running_jobs@ == old(self).running_jobs@.remove(i)
                        &&& final(self).resources() == set_resources_job(
                            old(self).resources(),
                            ids_view(old(self).running_jobs@[i].assigned_gpus@),
                            None,
                        )
                    },
            },
    {
        let idx = match find_job(&self.running_jobs, job_id) {
            Some(i) => i,
            None => return None,
        };
        let ghost old_running = self.running_jobs@;
        let job = self.running_jobs.remove(idx);
        assert forall|a: int, b: int|
            0 <= a < self.running_jobs@.len() && 0 <= b < self.running_jobs@.len() && a != b
            implies (#[trigger] self.running_jobs@[a]).id@ != (#[trigger] self.running_jobs@[b]).id@ by {
            let a2 = if a < idx { a } else { a + 1 };
            let b2 = if b < idx { b } else { b + 1 };
            assert(self.running_jobs@[a] == old_running[a2]);
            assert(self.running_jobs@[b] == old_running[b2]);
        }
        self.mark_all(job.assigned_gpus.as_slice(), job_id, None);
        Some(job)
    }

    /// Puts an evicted job back as it ran: its resources are held by it
    /// again, and it replaces any running job with its id or is added.
    pub fn resume_evicted_job(&mut self, job: Job)
        requires
            old(self).wf(),
        ensures
            final(self).wf(),
            final(self).resources() == set_resources_job(
                old(self).resources(),
                ids_view(job.assigned_gpus@),
                Some(job.id@),
            ),
            has_job(old(self).running_jobs@, job.id@) ==> exists|i: int|
                first_job_index(old(self).running_jobs@, job.id@, i) && final(self).running_jobs@ == old(
                    self,
                ).running_jobs@.update(i, job),
            !has_job(old(self).running_jobs@, job.id@) ==> final(self).running_jobs@ == old(self).running_jobs@.push(
                job,
            ),
            final(self).waiting_queue == old(self).waiting_queue,
            final(self).finished_jobs == old(self).finished_jobs,
            final(self).clock == old(self).clock,
            final(self).mig_reconfigs == old(self).mig_reconfigs,
            final(self).tenant_quotas == old(self).tenant_quotas,
            final(self).failed_jobs == old(self).failed_jobs,
    {
        let ghost old_running = self.running_jobs@;
        let job_id = job.id.clone();
        self.mark_all(job.assigned_gpus.as_slice(), job_id.as_str(), Some(job.id.clone()));
        match find_job(&self.running_jobs, job.id.as_str()) {
            Some(i) => {
                self.running_jobs.set(i, job);
                assert forall|a: int, b: int|
                    0 <= a < self.running_jobs@.len() && 0 <= b < self.running_jobs@.len() && a != b
                    implies (#[trigger] self.running_jobs@[a]).id@ != (#[trigger] self.running_jobs@[b]).id@ by {
                    if a == i {
                        assert(old_running[i as int].id@ == job.id@);
                    } else if b == i {
                        assert(old_running[i as int].id@ == job.id@);
                    }
                }
            },
            None => {
                self.running_jobs.push(job);
                assert forall|a: int, b: int|
                    0 <= a < self.running_jobs@.len() && 0 <= b < self.running_jobs@.len() && a != b
                    implies (#[trigger] self.running_jobs@[a]).id@ != (#[trigger] self.running_jobs@[b]).id@ by {
                    if a == old_running.len() {
                        assert(old_running[b] == self.running_jobs@[b]);
                    } else if b == old_running.len() {
                        assert(old_running[a] == self.running_jobs@[a]);
                    }
                }
            },
        }
    }

    /// The GPU holding resource `resource_id` (a slice id or a GPU id).
    pub fn gpu(&self, resource_id: &str) -> (r: Option<&Gpu>)
        ensures
            r is Some <==> resource_gpu(self.resources(), resource_id@) is Some,
            r is Some ==> r->0@ == resource_gpu(self.resources(), resource_id@)->0,
    {
        let ghost nv = self.resources();
        match self.find_slice(resource_id) {
            Some((n, g, s)) => {
                proof {
                    let loc = choose|n2: int, g2: int, s2: int| first_slice(nv, resource_id@, n2, g2, s2);
                    lemma_first_slice_unique(nv, resource_id@, loc.0, loc.1, loc.2, n as int, g as int, s as int);
                }
                assert(nv[n as int].gpus[g as int] == self.nodes@[n as int].gpus@[g as int]@);
                Some(&self.nodes[n].gpus[g])
            },
            None => {
                assert(slice_location(nv, resource_id@) is None) by {
                    if exists|n2: int, g2: int, s2: int| first_slice(nv, resource_id@, n2, g2, s2) {
                        let loc = choose|n2: int, g2: int, s2: int| first_slice(nv, resource_id@, n2, g2, s2);
                        assert(slice_is(nv, resource_id@, loc.0, loc.1, loc.2));
                    }
                }
                match self.find_gpu(resource_id) {
                    Some((n, g)) => {
                        proof {
                            let loc = choose|n2: int, g2: int| first_gpu(nv, resource_id@, n2, g2);
                            lemma_first_gpu_unique(nv, resource_id@, loc.0, loc.1, n as int, g as int);
                        }
                        assert(nv[n as int].gpus[g as int] == self.nodes@[n as int].gpus@[g as int]@);
                        Some(&self.nodes[n].gpus[g])
                    },
                    None => {
                        assert(gpu_location(nv, resource_id@) is None) by {
                            if exists|n2: int, g2: int| first_gpu(nv, resource_id@, n2, g2) {
                                let loc = choose|n2: int, g2: int| first_gpu(nv, resource_id@, n2, g2);
                                assert(gpu_is(nv, resource_id@, loc.0, loc.1));
                            }
                        }
                        None
                    },
                }
            },
        }
    }

    /// The first MIG slice whose id is `slice_id`.
    pub fn slice(&self, slice_id: &str) -> (r: Option<&MigSlice>)
        ensures
            r is Some <==> slice_location(self.resources(), slice_id@) is Some,
            r is Some ==> {
                let loc = slice_location(self.resources(), slice_id@)->0;
                r->0@ == self.resources()[loc.0].gpus[loc.1].slices[loc.2]
            },
    {
        let ghost nv = self.resources();
        match self.find_slice(slice_id) {
            Some((n, g, s)) => {
                proof {
                    let loc = choose|n2: int, g2: int, s2: int| first_slice(nv, slice_id@, n2, g2, s2);
                    lemma_first_slice_unique(nv, slice_id@, loc.0, loc.1, loc.2, n as int, g as int, s as int);
                }
                assert(nv[n as int].gpus[g as int].slices[s as int]
                    == self.nodes@[n as int].gpus@[g as int].slices@[s as int]@);
                Some(&self.nodes[n].gpus[g].slices[s])
            },
            None => {
                assert(slice_location(nv, slice_id@) is None) by {
                    if exists|n2: int, g2: int, s2: int| first_slice(nv, slice_id@, n2, g2, s2) {
                        let loc = choose|n2: int, g2: int, s2: int| first_slice(nv, slice_id@, n2, g2, s2);
                        assert(slice_is(nv, slice_id@, loc.0, loc.1, loc.2));
                    }
                }
                None
            },
        }
    }

    /// References to every GPU, node by node, in order.
    pub fn all_gpus(&self) -> (r: Vec<&Gpu>)
        ensures
            r@.map_values(|g: &Gpu| g@) == gpus_of(self.resources()),
    {
        let ghost nv = self.resources();
        let mut r: Vec<&Gpu> = Vec::new();
        let mut n: usize = 0;
        while n < self.nodes.len()
            invariant
                nv == self.resources(),
                n <= nv.len(),
                r@.map_values(|g: &Gpu| g@) == gpus_of(nv.take(n as int)),
            decreases nv.len() - n,
        {
            let node = &self.nodes[n];
            let ghost base = gpus_of(nv.take(n as int));
            proof {
                lemma_gpus_of_take(nv, n as int);
            }
            assert(nv[n as int] == node@);
            let mut g: usize = 0;
            while g < node.gpus.len()
                invariant
                    nv == self.resources(),
                    n < nv.len(),
                    node == self.nodes@[n as int],
                    nv[n as int] == node@,
                    base == gpus_of(nv.take(n as int)),
                    g <= node.gpus@.len(),
                    r@.map_values(|g: &Gpu| g@) == base + node@.gpus.take(g as int),
                decreases node.gpus@.len() - g,
            {
                let ghost before = r@;
                r.push(&node.gpus[g]);
                assert(r@.map_values(|g: &Gpu| g@) =~= before.map_values(|g: &Gpu| g@).push(node.gpus@[g as int]@));
                assert(base + node@.gpus.take(g as int + 1) =~= (base + node@.gpus.take(g as int)).push(node@.gpus[g as int]));
                g = g + 1;
            }
            assert(node@.gpus.take(node.gpus@.len() as int) =~= node@.gpus);
            n = n + 1;
        }
        assert(nv.take(nv.len() as int) =~= nv);
        r
    }

    /// Whether the cluster's invariant holds (see `wf`).
    pub fn is_wf(&self) -> (r: bool)
        ensures
            r == self.wf(),
    {
        let ghost nv = self.resources();
        let mut c: usize = 0;
        let mut n: usize = 0;
        while n < self.nodes.len()
            invariant
                nv == self.resources(),
                n <= nv.len(),
                c == gpus_of(nv.take(n as int)).len(),
            decreases nv.len() - n,
        {
            proof {
                lemma_gpus_of_take(nv, n as int);
            }
            let k = self.nodes[n].gpus.len();
            assert(nv[n as int].gpus.len() == k);
            if k > usize::MAX - c {
                proof {
                    lemma_gpus_of_mono(nv, n as int + 1, nv.len() as int);
                    assert(nv.take(nv.len() as int) =~= nv);
                }
                return false;
            }
            c = c + k;
            n = n + 1;
        }
        assert(nv.take(nv.len() as int) =~= nv);
        let jobs = &self.running_jobs;
        let mut i: usize = 0;
        while i < jobs.len()
            invariant
                jobs@ == self.running_jobs@,
                i <= jobs@.len(),
                forall|a: int, b: int|
                    0 <= a < i && 0 <= b < jobs@.len() && a != b ==> (#[trigger] jobs@[a]).id@
                        != (#[trigger] jobs@[b]).id@,
            decreases jobs@.len() - i,
        {
            let mut j: usize = 0;
            while j < jobs.len()
                invariant
                    jobs@ == self.running_jobs@,
                    i < jobs@.len(),
                    j <= jobs@.len(),
                    forall|a: int, b: int|
                        0 <= a < i && 0 <= b < jobs@.len() && a != b ==> (#[trigger] jobs@[a]).id@
                            != (#[trigger] jobs@[b]).id@,
                    forall|b: int| 0 <= b < j && b != i ==> jobs@[i as int].id@ != (#[trigger] jobs@[b]).id@,
                decreases jobs@.len() - j,
            {
                if j != i && str_eq(jobs[i].id.as_str(), jobs[j].id.as_str()) {
                    assert(jobs@[i as int].id@ == jobs@[j as int].id@);
                    return false;
                }
                j = j + 1;
            }
            i = i + 1;
        }
        true
    }

    /// Whether some GPU of the cluster is MIG-capable.
    pub fn any_mig_capable(&self) -> (r: bool)
        ensures
            r == exists|i: int|
                0 <= i < gpus_of(self.resources()).len() && (#[trigger] gpus_of(self.resources())[i]).mig_capable,
    {
        let gpus = self.all_gpus();
        let ghost gv = gpus_of(self.resources());
        let mut i: usize = 0;
        while i < gpus.len()
            invariant
                gv == gpus_of(self.resources()),
                gv == gpus@.map_values(|g: &Gpu| g@),
                i <= gpus@.len(),
                forall|k: int| 0 <= k < i ==> !(#[trigger] gv[k]).mig_capable,
            decreases gpus@.len() - i,
        {
            assert(gv[i as int] == gpus@[i as int]@);
            if gpus[i].mig_capable {
                assert(gv[i as int].mig_capable);
                return true;
            }
            i = i + 1;
        }
        false
    }

    /// Whether some GPU of the cluster has hardware profile `profile`: a MIG
    /// profile registry configured for that hardware serves the cluster.
    pub fn has_gpu_profile(&self, profile: &str) -> (r: bool)
        ensures
            r == exists|i: int|
                0 <= i < gpus_of(self.resources()).len() && (#[trigger] gpus_of(self.resources())[i]).profile
                    == profile@,
    {
        let gpus = self.all_gpus();
        let ghost gv = gpus_of(self.resources());
        let mut i: usize = 0;
        while i < gpus.len()
            invariant
                gv == gpus_of(self.resources()),
                gv == gpus@.map_values(|g: &Gpu| g@),
                i <= gpus@.len(),
                forall|k: int| 0 <= k < i ==> (#[trigger] gv[k]).profile != profile@,
            decreases gpus@.len() - i,
        {
            assert(gv[i as int] == gpus@[i as int]@);
            if str_eq(gpus[i].profile.as_str(), profile) {
                assert(gv[i as int].profile == profile@);
                return true;
            }
            i = i + 1;
        }
        false
    }

    /// Orders the waiting queue by arrival time (stable).
    pub fn sort_waiting_by_arrival(&mut self)
        ensures
            final(self).waiting_queue@ == crate::sorting::sort_by_arrival(old(self).waiting_queue@),
            final(self).nodes == old(self).nodes,
            final(self).running_jobs == old(self).running_jobs,
            final(self).finished_jobs == old(self).finished_jobs,
            final(self).clock == old(self).clock,
            final(self).mig_reconfigs == old(self).mig_reconfigs,
            final(self).tenant_quotas == old(self).tenant_quotas,
            final(self).failed_jobs == old(self).failed_jobs,
    {
        let mut queue: Vec<Job> = Vec::new();
        std::mem::swap(&mut queue, &mut self.waiting_queue);
        let sorted = crate::sorting::sort_jobs_by_arrival(queue);
        self.waiting_queue = sorted;
    }

    /// Orders the waiting queue by descending priority, then by arrival
    /// time, keeping the relative order of jobs equal in both.
    pub fn sort_waiting_by_priority(&mut self)
        ensures
            final(self).waiting_queue@ == crate::sorting::sort_by_priority(old(self).waiting_queue@),
            final(self).nodes == old(self).nodes,
            final(self).running_jobs == old(self).running_jobs,
            final(self).finished_jobs == old(self).finished_jobs,
            final(self).clock == old(self).clock,
            final(self).mig_reconfigs == old(self).mig_reconfigs,
            final(self).tenant_quotas == old(self).tenant_quotas,
            final(self).failed_jobs == old(self).failed_jobs,
    {
        let mut queue: Vec<Job> = Vec::new();
        std::mem::swap(&mut queue, &mut self.waiting_queue);
        let sorted = crate::sorting::sort_jobs_by_priority(queue);
        self.waiting_queue = sorted;
    }
}

} // verus!
