//! Aggregate results of a simulation run.

use vstd::prelude::*;
use crate::cluster::{resource_gpu, total_gpus, Cluster};
use crate::models::NodeView;
use crate::resource::{gang_nodes, in_domain, prefers_domain};
use crate::strings::str_eq;
use crate::models::Job;

verus! {

/// Latest finish time among the jobs (zero when none has one).
pub open spec fn max_finish(jobs: Seq<Job>) -> u64
    decreases jobs.len(),
{
    if jobs.len() == 0 {
        0
    } else {
        let m = max_finish(jobs.drop_last());
        match jobs.last().finish_time {
            Some(t) => if t > m { t } else { m },
            None => m,
        }
    }
}

/// Sum of the jobs' wait times.
pub open spec fn total_wait(jobs: Seq<Job>) -> nat
    decreases jobs.len(),
{
    if jobs.len() == 0 {
        0
    } else {
        total_wait(jobs.drop_last()) + jobs.last().spec_wait_time() as nat
    }
}

/// Sum over the jobs of runtime times GPU count.
pub open spec fn busy_gpu_seconds(jobs: Seq<Job>) -> nat
    decreases jobs.len(),
{
    if jobs.len() == 0 {
        0
    } else {
        busy_gpu_seconds(jobs.drop_last()) + (jobs.last().runtime as nat) * (jobs.last().gpu_count as nat)
    }
}

/// Evictions counted on the jobs, together.
pub open spec fn evictions(jobs: Seq<Job>) -> nat
    decreases jobs.len(),
{
    if jobs.len() == 0 {
        0
    } else {
        evictions(jobs.drop_last()) + jobs.last().preemption_count as nat
    }
}

/// Evictions of a cluster's jobs (waiting, running, finished and failed),
/// saturated at `u32::MAX`: each eviction that was not undone counts once.
pub open spec fn cluster_evictions(c: Cluster) -> u32 {
    let n = evictions(c.waiting_queue@) + evictions(c.running_jobs@) + evictions(c.finished_jobs@) + evictions(
        c.failed_jobs@,
    );
    if n > u32::MAX {
        u32::MAX
    } else {
        n as u32
    }
}

/// Sums the eviction counts of the jobs, saturating at `u32::MAX`.
fn count_evictions(jobs: &Vec<Job>, start: u32) -> (r: u32)
    ensures
        r == (if start + evictions(jobs@) > u32::MAX {
            u32::MAX as int
        } else {
            start + evictions(jobs@)
        }),
{
    let mut n = start;
    let mut i: usize = 0;
    while i < jobs.len()
        invariant
            i <= jobs@.len(),
            n == (if start + evictions(jobs@.take(i as int)) > u32::MAX {
                u32::MAX as int
            } else {
                start + evictions(jobs@.take(i as int))
            }),
        decreases jobs@.len() - i,
    {
        assert(jobs@.take(i as int + 1).drop_last() =~= jobs@.take(i as int));
        n = n.saturating_add(jobs[i].preemption_count);
        i = i + 1;
    }
    assert(jobs@.take(jobs@.len() as int) =~= jobs@);
    n
}

/// The GPUs `ids` all lie in one NVLink domain: each names a GPU on the
/// node and in the NVLink group of the first, which has a group.
pub open spec fn one_domain(nv: Seq<NodeView>, ids: Seq<String>) -> bool {
    &&& ids.len() > 0
    &&& resource_gpu(nv, ids[0]@) is Some
    &&& forall|k: int|
        0 <= k < ids.len() ==> (#[trigger] resource_gpu(nv, ids[k]@)) is Some && in_domain(
            resource_gpu(nv, ids[0]@)->0,
            resource_gpu(nv, ids[k]@)->0,
        )
}

/// Job `j` prefers one NVLink domain (it asks for network bandwidth, or is
/// a gang job with no node count) but its GPUs do not lie in one domain: it
/// was placed by the scatter fallback.
pub open spec fn scattered(nv: Seq<NodeView>, j: Job) -> bool {
    &&& !j.spec_is_mig_job()
    &&& prefers_domain(j)
    &&& gang_nodes(j) is None
    &&& !one_domain(nv, j.assigned_gpus@)
}

/// Number of jobs placed by the scatter fallback.
pub open spec fn topology_penalties(nv: Seq<NodeView>, jobs: Seq<Job>) -> nat
    decreases jobs.len(),
{
    if jobs.len() == 0 {
        0
    } else {
        topology_penalties(nv, jobs.drop_last()) + if scattered(nv, jobs.last()) {
            1nat
        } else {
            0nat
        }
    }
}

/// Whether the ids all lie in one NVLink domain of the cluster.
fn in_one_domain(cluster: &Cluster, ids: &Vec<String>) -> (r: bool)
    ensures
        r == one_domain(cluster.resources(), ids@),
{
    if ids.len() == 0 {
        return false;
    }
    let first = match cluster.gpu(ids[0].as_str()) {
        Some(g) => g,
        None => return false,
    };
    let ghost d = first@;
    let mut k: usize = 0;
    while k < ids.len()
        invariant
            k <= ids@.len(),
            ids@.len() > 0,
            resource_gpu(cluster.resources(), ids@[0]@) == Some(d),
            first@ == d,
            forall|m: int|
                0 <= m < k ==> (#[trigger] resource_gpu(cluster.resources(), ids@[m]@)) is Some && in_domain(
                    d,
                    resource_gpu(cluster.resources(), ids@[m]@)->0,
                ),
        decreases ids@.len() - k,
    {
        let g = match cluster.gpu(ids[k].as_str()) {
            Some(g) => g,
            None => return false,
        };
        let same = match (first.nvlink_group, g.nvlink_group) {
            (Some(a), Some(b)) => a == b && str_eq(g.node_id.as_str(), first.node_id.as_str()),
            _ => false,
        };
        if !same {
            return false;
        }
        k = k + 1;
    }
    true
}

/// Counts the jobs placed by the scatter fallback, saturating at `u32::MAX`.
fn count_scattered(cluster: &Cluster) -> (r: u32)
    ensures
        r == (if topology_penalties(cluster.resources(), cluster.finished_jobs@) > u32::MAX {
            u32::MAX as int
        } else {
            topology_penalties(cluster.resources(), cluster.finished_jobs@) as int
        }),
{
    let jobs = &cluster.finished_jobs;
    let ghost nv = cluster.resources();
    let mut n: u32 = 0;
    let mut i: usize = 0;
    while i < jobs.len()
        invariant
            i <= jobs@.len(),
            nv == cluster.resources(),
            n == (if topology_penalties(nv, jobs@.take(i as int)) > u32::MAX {
                u32::MAX as int
            } else {
                topology_penalties(nv, jobs@.take(i as int)) as int
            }),
        decreases jobs@.len() - i,
    {
        assert(jobs@.take(i as int + 1).drop_last() =~= jobs@.take(i as int));
        let j = &jobs[i];
        if !j.is_mig_job() && (j.network_bw_gbps.is_some() || j.gang_enabled) && !(j.gang_enabled && match j.gang_size_nodes {
            Some(c) => c > 0,
            None => false,
        }) && !in_one_domain(cluster, &j.assigned_gpus) {
            n = n.saturating_add(1);
        }
        i = i + 1;
    }
    assert(jobs@.take(jobs@.len() as int) =~= jobs@);
    n
}

/// Aggregate results of a run, as exact integers. The mean wait time is
/// `total_wait_time / jobs_completed` (zero without completed jobs), and
/// the GPU utilization is `busy_gpu_seconds / capacity_gpu_seconds`, capped
/// at one (zero when the makespan is zero).
#[derive(Debug, Clone, Copy)]
pub struct SimulationMetrics {
    pub makespan: u64,
    pub total_wait_time: u128,
    pub busy_gpu_seconds: u128,
    pub capacity_gpu_seconds: u128,
    pub jobs_completed: usize,
    pub jobs_total: usize,
    pub queue_max_length: usize,
    pub mig_reconfigs: u32,
    pub preemptions: u32,
    /// Finished jobs placed by the scatter fallback instead of within one
    /// NVLink domain.
    pub topology_penalties: u32,
    /// Gang jobs that gave up waiting when their timeout fired.
    pub jobs_failed: usize,
}

/// `m` holds the metrics of cluster `c`'s finished jobs: makespan, total
/// wait, busy GPU-seconds (saturated at `u128::MAX`), capacity (makespan
/// times the GPU count, at least one GPU), completions, failures and
/// repartitions.
pub open spec fn cluster_metrics(c: Cluster, m: SimulationMetrics) -> bool {
    &&& m.makespan == max_finish(c.finished_jobs@)
    &&& m.total_wait_time == total_wait(c.finished_jobs@)
    &&& m.busy_gpu_seconds as nat == (if busy_gpu_seconds(c.finished_jobs@) > u128::MAX {
        u128::MAX as nat
    } else {
        busy_gpu_seconds(c.finished_jobs@)
    })
    &&& m.capacity_gpu_seconds == m.makespan * (if total_gpus(c.resources()) == 0 {
        1
    } else {
        total_gpus(c.resources())
    })
    &&& m.jobs_completed == c.finished_jobs@.len()
    &&& m.jobs_failed == c.failed_jobs@.len()
    &&& m.queue_max_length == 0
    &&& m.mig_reconfigs == c.mig_reconfigs
    &&& m.preemptions == cluster_evictions(c)
    &&& m.topology_penalties == (if topology_penalties(c.resources(), c.finished_jobs@) > u32::MAX {
        u32::MAX as int
    } else {
        topology_penalties(c.resources(), c.finished_jobs@) as int
    })
}

impl SimulationMetrics {
    /// The metrics of the cluster's finished jobs.
    pub fn from_cluster(cluster: &Cluster, jobs_total: usize) -> (m: SimulationMetrics)
        requires
            cluster.wf(),
        ensures
            m.makespan == max_finish(cluster.finished_jobs@),
            m.total_wait_time == total_wait(cluster.finished_jobs@),
            m.busy_gpu_seconds as nat == if busy_gpu_seconds(cluster.finished_jobs@) > u128::MAX {
                u128::MAX as nat
            } else {
                busy_gpu_seconds(cluster.finished_jobs@)
            },
            m.capacity_gpu_seconds == m.makespan * if total_gpus(cluster.resources()) == 0 {
                1
            } else {
                total_gpus(cluster.resources())
            },
            m.jobs_completed == cluster.finished_jobs@.len(),
            m.jobs_total == jobs_total,
            m.queue_max_length == 0,
            m.mig_reconfigs == cluster.mig_reconfigs,
            m.preemptions == cluster_evictions(*cluster),
            cluster_metrics(*cluster, m),
    {
        let finished = &cluster.finished_jobs;
        let mut makespan: u64 = 0;
        let mut wait: u128 = 0;
        let mut busy: u128 = 0;
        let mut i: usize = 0;
        while i < finished.len()
            invariant
                i <= finished@.len(),
                makespan == max_finish(finished@.take(i as int)),
                wait == total_wait(finished@.take(i as int)),
                wait <= i * 0xffff_ffff_ffff_ffffu128,
                busy as nat == if busy_gpu_seconds(finished@.take(i as int)) > u128::MAX {
                    u128::MAX as nat
                } else {
                    busy_gpu_seconds(finished@.take(i as int))
                },
            decreases finished@.len() - i,
        {
            assert(finished@.take(i as int + 1).drop_last() =~= finished@.take(i as int));
            let job = &finished[i];
            match job.finish_time {
                Some(t) => {
                    if t > makespan {
                        makespan = t;
                    }
                },
                None => {},
            }
            wait = wait + job.wait_time() as u128;
            let r = job.runtime as u128;
            let g = job.gpu_count as u128;
            assert(r * g <= 0xffff_ffff_ffff_ffff * 0xffff_ffff) by (nonlinear_arith)
                requires
                    r <= 0xffff_ffff_ffff_ffff,
                    g <= 0xffff_ffff,
            {}
            let product = r * g;
            busy = busy.saturating_add(product);
            i = i + 1;
        }
        assert(finished@.take(finished@.len() as int) =~= finished@);
        let gpus = cluster.gpu_count();
        let divisor: usize = if gpus == 0 { 1 } else { gpus };
        let mk = makespan as u128;
        let dv = divisor as u128;
        assert(mk * dv <= 0xffff_ffff_ffff_ffff * 0xffff_ffff_ffff_ffff) by (nonlinear_arith)
            requires
                mk <= 0xffff_ffff_ffff_ffff,
                dv <= 0xffff_ffff_ffff_ffff,
        {}
        let capacity = mk * dv;
        let waiting_evictions = count_evictions(&cluster.waiting_queue, 0);
        let running_evictions = count_evictions(&cluster.running_jobs, waiting_evictions);
        let finished_evictions = count_evictions(&cluster.finished_jobs, running_evictions);
        let preemptions = count_evictions(&cluster.failed_jobs, finished_evictions);
        let topology_penalties = count_scattered(cluster);
        SimulationMetrics {
            makespan,
            total_wait_time: wait,
            busy_gpu_seconds: busy,
            capacity_gpu_seconds: capacity,
            jobs_completed: finished.len(),
            jobs_total,
            queue_max_length: 0,
            mig_reconfigs: cluster.mig_reconfigs,
            preemptions,
            topology_penalties,
            jobs_failed: cluster.failed_jobs.len(),
        }
    }
}

} // verus!
