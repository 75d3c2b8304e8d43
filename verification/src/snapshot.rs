//! Observations of the cluster for a learning agent.

use vstd::prelude::*;
use crate::cluster::{count_free_gpus, gpus_of, Cluster};
use crate::models::Job;

verus! {

pub const DEFAULT_OBS_TOP_K: usize = 8;

/// A waiting job as seen by an agent.
#[derive(Debug)]
pub struct JobSnapshot {
    pub id: String,
    pub name: String,
    pub arrival_time: u64,
    pub runtime: u64,
    pub gpu_count: u32,
    pub priority: u32,
    pub wait_proxy: u64,
    pub placeable: bool,
}

/// The cluster as seen by an agent: counts and the first waiting jobs.
#[derive(Debug)]
pub struct ClusterSnapshot {
    pub clock: u64,
    pub free_gpus: u32,
    pub waiting: u32,
    pub running: u32,
    pub finished: u32,
    pub top_jobs: Vec<JobSnapshot>,
}

pub open spec fn spec_wait_proxy(job: Job, clock: u64) -> u64 {
    if clock >= job.arrival_time {
        (clock - job.arrival_time) as u64
    } else {
        0
    }
}

/// How long the job has waited at `clock` (zero before it arrives).
pub fn job_wait_proxy(job: &Job, clock: u64) -> (w: u64)
    ensures
        w == spec_wait_proxy(*job, clock),
{
    if clock >= job.arrival_time {
        clock - job.arrival_time
    } else {
        0
    }
}

/// Length of the feature vector of a snapshot with `top_k` jobs.
pub open spec fn spec_obs_size(top_k: nat) -> nat {
    5 + top_k * 6
}

/// Length of the feature vector of a snapshot with `top_k` jobs: five
/// cluster features and six per job.
pub fn obs_size(top_k: usize) -> (n: usize)
    requires
        spec_obs_size(top_k as nat) <= usize::MAX,
    ensures
        n == spec_obs_size(top_k as nat),
{
    5 + top_k * 6
}

/// `s` describes `job` at `clock` with placeability `placeable`.
pub open spec fn describes(s: JobSnapshot, job: Job, clock: u64, placeable: bool) -> bool {
    &&& s.id == job.id
    &&& s.name == job.name
    &&& s.arrival_time == job.arrival_time
    &&& s.runtime == job.runtime
    &&& s.gpu_count == job.gpu_count
    &&& s.priority == job.priority
    &&& s.wait_proxy == spec_wait_proxy(job, clock)
    &&& s.placeable == placeable
}

impl ClusterSnapshot {
    /// A snapshot of the cluster with the first `top_k` waiting jobs; job
    /// `i` is placeable when `placeable_mask[i]` is true (false when the
    /// mask is shorter). Counts are truncated to 32 bits.
    pub fn from_cluster(cluster: &Cluster, top_k: usize, placeable_mask: &[bool]) -> (snap: ClusterSnapshot)
        requires
            cluster.wf(),
        ensures
            snap.clock == cluster.clock,
            snap.free_gpus == count_free_gpus(gpus_of(cluster.resources())) as u32,
            snap.waiting == cluster.waiting_queue@.len() as u32,
            snap.running == cluster.running_jobs@.len() as u32,
            snap.finished == cluster.finished_jobs@.len() as u32,
            snap.top_jobs@.len() == if top_k < cluster.waiting_queue@.len() {
                top_k as int
            } else {
                cluster.waiting_queue@.len() as int
            },
            forall|i: int|
                0 <= i < snap.top_jobs@.len() ==> describes(
                    #[trigger] snap.top_jobs@[i],
                    cluster.waiting_queue@[i],
                    cluster.clock,
                    i < placeable_mask@.len() && placeable_mask@[i],
                ),
    {
        let mut top_jobs: Vec<JobSnapshot> = Vec::new();
        let mut i: usize = 0;
        while i < cluster.waiting_queue.len() && i < top_k
            invariant
                i <= cluster.waiting_queue@.len(),
                i <= top_k,
                top_jobs@.len() == i,
                forall|k: int|
                    0 <= k < i ==> describes(
                        #[trigger] top_jobs@[k],
                        cluster.waiting_queue@[k],
                        cluster.clock,
                        k < placeable_mask@.len() && placeable_mask@[k],
                    ),
            decreases cluster.waiting_queue@.len() - i,
        {
            let job = &cluster.waiting_queue[i];
            let placeable = if i < placeable_mask.len() { placeable_mask[i] } else { false };
            top_jobs.push(JobSnapshot {
                id: job.id.clone(),
                name: job.name.clone(),
                arrival_time: job.arrival_time,
                runtime: job.runtime,
                gpu_count: job.gpu_count,
                priority: job.priority,
                wait_proxy: job_wait_proxy(job, cluster.clock),
                placeable,
            });
            i = i + 1;
        }
        let free = cluster.free_gpu_count();
        ClusterSnapshot {
            clock: cluster.clock,
            free_gpus: free as u32,
            waiting: cluster.waiting_queue.len() as u32,
            running: cluster.running_jobs.len() as u32,
            finished: cluster.finished_jobs.len() as u32,
            top_jobs,
        }
    }

    /// The features of the snapshot, in order: clock, free GPUs, waiting,
    /// running, finished, then for each listed job its arrival time,
    /// runtime, GPU count, priority, wait proxy and placeability (1 or 0).
    pub fn feature_values(&self) -> (f: Vec<u64>)
        ensures
            f@.len() == spec_obs_size(self.top_jobs@.len()),
            f@[0] == self.clock,
            f@[1] == self.free_gpus,
            f@[2] == self.waiting,
            f@[3] == self.running,
            f@[4] == self.finished,
            forall|i: int|
                #![trigger self.top_jobs@[i]]
                0 <= i < self.top_jobs@.len() ==> {
                    &&& f@[5 + 6 * i] == self.top_jobs@[i].arrival_time
                    &&& f@[5 + 6 * i + 1] == self.top_jobs@[i].runtime
                    &&& f@[5 + 6 * i + 2] == self.top_jobs@[i].gpu_count
                    &&& f@[5 + 6 * i + 3] == self.top_jobs@[i].priority
                    &&& f@[5 + 6 * i + 4] == self.top_jobs@[i].wait_proxy
                    &&& f@[5 + 6 * i + 5] == if self.top_jobs@[i].placeable { 1u64 } else { 0u64 }
                },
    {
        let mut f: Vec<u64> = Vec::new();
        f.push(self.clock);
        f.push(self.free_gpus as u64);
        f.push(self.waiting as u64);
        f.push(self.running as u64);
        f.push(self.finished as u64);
        let mut i: usize = 0;
        while i < self.top_jobs.len()
            invariant
                i <= self.top_jobs@.len(),
                f@.len() == 5 + 6 * i,
                f@[0] == self.clock,
                f@[1] == self.free_gpus,
                f@[2] == self.waiting,
                f@[3] == self.running,
                f@[4] == self.finished,
                forall|k: int|
                    #![trigger self.top_jobs@[k]]
                    0 <= k < i ==> {
                        &&& f@[5 + 6 * k] == self.top_jobs@[k].arrival_time
                        &&& f@[5 + 6 * k + 1] == self.top_jobs@[k].runtime
                        &&& f@[5 + 6 * k + 2] == self.top_jobs@[k].gpu_count
                        &&& f@[5 + 6 * k + 3] == self.top_jobs@[k].priority
                        &&& f@[5 + 6 * k + 4] == self.top_jobs@[k].wait_proxy
                        &&& f@[5 + 6 * k + 5] == if self.top_jobs@[k].placeable { 1u64 } else { 0u64 }
                    },
            decreases self.top_jobs@.len() - i,
        {
            let job = &self.top_jobs[i];
            f.push(job.arrival_time);
            f.push(job.runtime);
            f.push(job.gpu_count as u64);
            f.push(job.priority as u64);
            f.push(job.wait_proxy);
            f.push(if job.placeable { 1 } else { 0 });
            i = i + 1;
        }
        f
    }
}

} // verus!
