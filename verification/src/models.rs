//! Jobs, GPUs, MIG slices, nodes and placements.

use vstd::prelude::*;
use crate::strings::{clone_opt_string, clone_strings};

verus! {

/// Life-cycle state of a job.
#[derive(Debug, Clone, Copy, PartialEq, Eq, Structural)]
pub enum JobState {
    Pending,
    Waiting,
    Running,
    Finished,
    Failed,
}

/// A job asking for whole GPUs, or for MIG slices of one profile.
#[derive(Debug)]
pub struct Job {
    pub id: String,
    pub name: String,
    pub arrival_time: u64,
    pub runtime: u64,
    pub gpu_count: u32,
    pub gpu_memory_gb: u64,
    pub priority: u32,
    pub tenant: Option<String>,
    pub network_bw_gbps: Option<u64>,
    pub gpu_type: Option<String>,
    pub namespace: Option<String>,
    pub gang_enabled: bool,
    pub gang_size_nodes: Option<u32>,
    pub gang_timeout_secs: Option<u64>,
    pub mig_profile: Option<String>,
    pub mig_count: Option<u32>,
    pub state: JobState,
    pub start_time: Option<u64>,
    pub finish_time: Option<u64>,
    pub assigned_gpus: Vec<String>,
    /// Number of times the job has been started; a completion event
    /// carries the generation of the run it completes.
    pub run_generation: u32,
    /// Run time still to do after an eviction; `None` before any.
    pub remaining_runtime: Option<u64>,
    /// Number of times the job was evicted to make room for another.
    pub preemption_count: u32,
}

/// A job evicted this many times is not evicted again.
pub const PREEMPTION_LIMIT: u32 = 3;

impl Job {
    /// Every field of `self` and `other` agrees (string vectors by content).
    pub open spec fn same(&self, other: &Job) -> bool {
        &&& self.id == other.id
        &&& self.name == other.name
        &&& self.arrival_time == other.arrival_time
        &&& self.runtime == other.runtime
        &&& self.gpu_count == other.gpu_count
        &&& self.gpu_memory_gb == other.gpu_memory_gb
        &&& self.priority == other.priority
        &&& self.tenant == other.tenant
        &&& self.network_bw_gbps == other.network_bw_gbps
        &&& self.gpu_type == other.gpu_type
        &&& self.namespace == other.namespace
        &&& self.gang_enabled == other.gang_enabled
        &&& self.gang_size_nodes == other.gang_size_nodes
        &&& self.gang_timeout_secs == other.gang_timeout_secs
        &&& self.mig_profile == other.mig_profile
        &&& self.mig_count == other.mig_count
        &&& self.state == other.state
        &&& self.start_time == other.start_time
        &&& self.finish_time == other.finish_time
        &&& self.assigned_gpus@ == other.assigned_gpus@
        &&& self.run_generation == other.run_generation
        &&& self.remaining_runtime == other.remaining_runtime
        &&& self.preemption_count == other.preemption_count
    }

    /// A fresh pending job with no placement and default attributes.
    pub fn new(id: &str, name: &str, arrival_time: u64, runtime: u64, gpu_count: u32) -> (job: Job)
        ensures
            job.id@ == id@,
            job.name@ == name@,
            job.arrival_time == arrival_time,
            job.runtime == runtime,
            job.gpu_count == gpu_count,
            job.gpu_memory_gb == 0,
            job.priority == 0,
            job.tenant is None,
            job.network_bw_gbps is None,
            job.gpu_type is None,
            job.namespace is None,
            !job.gang_enabled,
            job.gang_size_nodes is None,
            job.gang_timeout_secs is None,
            job.mig_profile is None,
            job.mig_count is None,
            job.state == JobState::Pending,
            job.start_time is None,
            job.finish_time is None,
            job.assigned_gpus@.len() == 0,
            job.run_generation == 0,
            job.remaining_runtime is None,
            job.preemption_count == 0,
    {
        Job {
            id: String::from_str(id),
            name: String::from_str(name),
            arrival_time,
            runtime,
            gpu_count,
            gpu_memory_gb: 0,
            priority: 0,
            tenant: None,
            network_bw_gbps: None,
            gpu_type: None,
            namespace: None,
            gang_enabled: false,
            gang_size_nodes: None,
            gang_timeout_secs: None,
            mig_profile: None,
            mig_count: None,
            state: JobState::Pending,
            start_time: None,
            finish_time: None,
            assigned_gpus: Vec::new(),
            run_generation: 0,
            remaining_runtime: None,
            preemption_count: 0,
        }
    }

    /// A field-by-field copy of the job.
    pub fn duplicate(&self) -> (r: Job)
        ensures
            r.same(self),
    {
        Job {
            id: self.id.clone(),
            name: self.name.clone(),
            arrival_time: self.arrival_time,
            runtime: self.runtime,
            gpu_count: self.gpu_count,
            gpu_memory_gb: self.gpu_memory_gb,
            priority: self.priority,
            tenant: clone_opt_string(&self.tenant),
            network_bw_gbps: self.network_bw_gbps,
            gpu_type: clone_opt_string(&self.gpu_type),
            namespace: clone_opt_string(&self.namespace),
            gang_enabled: self.gang_enabled,
            gang_size_nodes: self.gang_size_nodes,
            gang_timeout_secs: self.gang_timeout_secs,
            mig_profile: clone_opt_string(&self.mig_profile),
            mig_count: self.mig_count,
            state: self.state,
            start_time: self.start_time,
            finish_time: self.finish_time,
            assigned_gpus: clone_strings(&self.assigned_gpus),
            run_generation: self.run_generation,
            remaining_runtime: self.remaining_runtime,
            preemption_count: self.preemption_count,
        }
    }

    /// Time spent between arrival and start, never negative.
    pub open spec fn spec_wait_time(&self) -> u64 {
        match self.start_time {
            Some(start) => if start >= self.arrival_time {
                (start - self.arrival_time) as u64
            } else {
                0
            },
            None => 0,
        }
    }

    /// Time between arrival and start (zero before the job starts, and
    /// zero if it started before its arrival time).
    pub fn wait_time(&self) -> (w: u64)
        ensures
            w == self.spec_wait_time(),
    {
        match self.start_time {
            Some(start) => if start >= self.arrival_time {
                start - self.arrival_time
            } else {
                0
            },
            None => 0,
        }
    }

    pub open spec fn spec_is_mig_job(&self) -> bool {
        self.mig_profile is Some
    }

    /// A job is a MIG job when it names a MIG profile.
    pub fn is_mig_job(&self) -> (r: bool)
        ensures
            r == self.spec_is_mig_job(),
    {
        self.mig_profile.is_some()
    }

    /// Number of resources the job needs: for a MIG job its slice count
    /// (at least one, one when unset), otherwise its whole-GPU count.
    pub open spec fn spec_slices_needed(&self) -> u32 {
        if self.spec_is_mig_job() {
            match self.mig_count {
                Some(c) => if c >= 1 { c } else { 1 },
                None => 1,
            }
        } else {
            self.gpu_count
        }
    }

    pub fn mig_slices_needed(&self) -> (n: u32)
        ensures
            n == self.spec_slices_needed(),
            self.spec_is_mig_job() ==> n >= 1,
    {
        if self.is_mig_job() {
            let c = match self.mig_count {
                Some(c) => c,
                None => 1,
            };
            if c >= 1 { c } else { 1 }
        } else {
            self.gpu_count
        }
    }

    /// The MIG profile the job asks for, if any.
    pub fn mig_profile_name(&self) -> (r: Option<&str>)
        ensures
            r is Some <==> self.mig_profile is Some,
            r is Some ==> r->0@ == self.mig_profile->0@,
    {
        match &self.mig_profile {
            Some(p) => Some(p.as_str()),
            None => None,
        }
    }

    /// Length of the run the job still has to do when it is started: its
    /// runtime, or what was left of it at its last eviction.
    pub open spec fn spec_duration_remaining(&self) -> u64 {
        match self.remaining_runtime {
            Some(r) => r,
            None => self.runtime,
        }
    }

    pub fn duration_remaining(&self) -> (d: u64)
        ensures
            d == self.spec_duration_remaining(),
    {
        match self.remaining_runtime {
            Some(r) => r,
            None => self.runtime,
        }
    }

    /// Run time left after running from its start until `now` (never below
    /// zero).
    pub open spec fn left_at(&self, now: u64) -> u64 {
        let ran: u64 = match self.start_time {
            Some(s) => if now >= s { (now - s) as u64 } else { 0 },
            None => 0,
        };
        if self.spec_duration_remaining() >= ran {
            (self.spec_duration_remaining() - ran) as u64
        } else {
            0
        }
    }

    /// `self` is `job` evicted at time `now`: waiting again, with no start
    /// time and no resources, its remaining run time reduced by the time it
    /// ran, and its eviction counted; every other field is kept.
    pub open spec fn requeue_of(&self, job: Job, now: u64) -> bool {
        &&& self.id == job.id
        &&& self.name == job.name
        &&& self.arrival_time == job.arrival_time
        &&& self.runtime == job.runtime
        &&& self.gpu_count == job.gpu_count
        &&& self.gpu_memory_gb == job.gpu_memory_gb
        &&& self.priority == job.priority
        &&& self.tenant == job.tenant
        &&& self.network_bw_gbps == job.network_bw_gbps
        &&& self.gpu_type == job.gpu_type
        &&& self.namespace == job.namespace
        &&& self.gang_enabled == job.gang_enabled
        &&& self.gang_size_nodes == job.gang_size_nodes
        &&& self.gang_timeout_secs == job.gang_timeout_secs
        &&& self.mig_profile == job.mig_profile
        &&& self.mig_count == job.mig_count
        &&& self.finish_time == job.finish_time
        &&& self.run_generation == job.run_generation
        &&& self.state == JobState::Waiting
        &&& self.start_time is None
        &&& self.assigned_gpus@.len() == 0
        &&& self.remaining_runtime == Some(job.left_at(now))
        &&& self.preemption_count == job.preemption_count + 1
    }

    /// Turns an evicted job back into a waiting one (see `requeued`).
    pub fn requeue_after_preemption(&mut self, now: u64)
        requires
            old(self).preemption_count < u32::MAX,
        ensures
            final(self).requeue_of(*old(self), now),
    {
        let ran: u64 = match self.start_time {
            Some(s) => if now >= s { now - s } else { 0 },
            None => 0,
        };
        let remaining = self.duration_remaining();
        let left: u64 = if remaining >= ran { remaining - ran } else { 0 };
        self.state = JobState::Waiting;
        self.start_time = None;
        self.assigned_gpus = Vec::new();
        self.remaining_runtime = Some(left);
        self.preemption_count = self.preemption_count + 1;
    }
}

/// The contents of an optional string.
pub open spec fn opt_view(o: Option<String>) -> Option<Seq<char>> {
    match o {
        Some(s) => Some(s@),
        None => None,
    }
}

/// A MIG slice carved out of a GPU.
#[derive(Debug)]
pub struct MigSlice {
    pub id: String,
    pub profile: String,
    pub memory_gb: u64,
    pub running_job_id: Option<String>,
}

/// What a MIG slice holds, as plain values.
pub struct SliceView {
    pub id: Seq<char>,
    pub profile: Seq<char>,
    pub memory_gb: u64,
    pub running_job_id: Option<Seq<char>>,
}

impl SliceView {
    pub open spec fn is_free(self) -> bool {
        self.running_job_id is None
    }
}

impl View for MigSlice {
    type V = SliceView;

    open spec fn view(&self) -> SliceView {
        SliceView {
            id: self.id@,
            profile: self.profile@,
            memory_gb: self.memory_gb,
            running_job_id: opt_view(self.running_job_id),
        }
    }
}

impl MigSlice {
    /// A slice is free when no job runs on it.
    pub fn is_free(&self) -> (r: bool)
        ensures
            r == self@.is_free(),
    {
        self.running_job_id.is_none()
    }
}

/// Number of free slices of `profile` in `slices`.
pub open spec fn count_free_slices(slices: Seq<SliceView>, profile: Seq<char>) -> nat
    decreases slices.len(),
{
    if slices.len() == 0 {
        0
    } else {
        count_free_slices(slices.drop_last(), profile) + if slices.last().profile == profile
            && slices.last().is_free() {
            1nat
        } else {
            0nat
        }
    }
}

/// A physical GPU, possibly partitioned into MIG slices.
#[derive(Debug)]
pub struct Gpu {
    pub id: String,
    pub node_id: String,
    pub profile: String,
    pub memory_gb: i64,
    pub nvlink_group: Option<u32>,
    pub running_job_id: Option<String>,
    pub mig_capable: bool,
    pub active_mig_profile: Option<String>,
    pub slices: Vec<MigSlice>,
}

/// What a GPU holds, as plain values.
pub struct GpuView {
    pub id: Seq<char>,
    pub node_id: Seq<char>,
    pub profile: Seq<char>,
    pub memory_gb: i64,
    pub nvlink_group: Option<u32>,
    pub running_job_id: Option<Seq<char>>,
    pub mig_capable: bool,
    pub active_mig_profile: Option<Seq<char>>,
    pub slices: Seq<SliceView>,
}

impl GpuView {
    /// Free as a whole GPU: not partitioned and no job on it.
    pub open spec fn is_free(self) -> bool {
        self.slices.len() == 0 && self.running_job_id is None
    }

    /// No job on the GPU and none on any of its slices.
    pub open spec fn is_fully_idle(self) -> bool {
        &&& self.running_job_id is None
        &&& forall|k: int| 0 <= k < self.slices.len() ==> (#[trigger] self.slices[k]).is_free()
    }
}

impl View for Gpu {
    type V = GpuView;

    open spec fn view(&self) -> GpuView {
        GpuView {
            id: self.id@,
            node_id: self.node_id@,
            profile: self.profile@,
            memory_gb: self.memory_gb,
            nvlink_group: self.nvlink_group,
            running_job_id: opt_view(self.running_job_id),
            mig_capable: self.mig_capable,
            active_mig_profile: opt_view(self.active_mig_profile),
            slices: self.slices@.map_values(|s: MigSlice| s@),
        }
    }
}

impl Gpu {
    /// An unpartitioned GPU with no job on it.
    pub fn new(id: &str, node_id: &str, profile: &str, memory_gb: i64) -> (g: Gpu)
        ensures
            g@.id == id@,
            g@.node_id == node_id@,
            g@.profile == profile@,
            g@.memory_gb == memory_gb,
            g@.nvlink_group is None,
            g@.running_job_id is None,
            !g@.mig_capable,
            g@.active_mig_profile is None,
            g@.slices.len() == 0,
    {
        Gpu {
            id: String::from_str(id),
            node_id: String::from_str(node_id),
            profile: String::from_str(profile),
            memory_gb,
            nvlink_group: None,
            running_job_id: None,
            mig_capable: false,
            active_mig_profile: None,
            slices: Vec::new(),
        }
    }

    pub fn is_free(&self) -> (r: bool)
        ensures
            r == self@.is_free(),
    {
        if self.slices.len() != 0 {
            return false;
        }
        self.running_job_id.is_none()
    }

    /// Available for a whole-GPU placement (the same test as `is_free`).
    pub fn is_whole_gpu_free(&self) -> (r: bool)
        ensures
            r == self@.is_free(),
    {
        self.is_free()
    }

    pub fn is_fully_idle(&self) -> (r: bool)
        ensures
            r == self@.is_fully_idle(),
    {
        if self.running_job_id.is_some() {
            return false;
        }
        let mut k: usize = 0;
        while k < self.slices.len()
            invariant
                k <= self.slices@.len(),
                forall|j: int| 0 <= j < k ==> (#[trigger] self@.slices[j]).is_free(),
            decreases self.slices@.len() - k,
        {
            assert(self@.slices[k as int] == self.slices@[k as int]@);
            if !self.slices[k].is_free() {
                return false;
            }
            k = k + 1;
        }
        true
    }

    /// Number of free slices of `profile` on this GPU.
    pub fn free_mig_slice_count(&self, profile: &str) -> (n: usize)
        ensures
            n == count_free_slices(self@.slices, profile@),
    {
        let ghost sv = self@.slices;
        let mut n: usize = 0;
        let mut k: usize = 0;
        while k < self.slices.len()
            invariant
                k <= self.slices@.len(),
                sv == self.slices@.map_values(|s: MigSlice| s@),
                n == count_free_slices(sv.take(k as int), profile@),
                n <= k,
            decreases self.slices@.len() - k,
        {
            proof {
                assert(sv.take(k as int + 1).drop_last() =~= sv.take(k as int));
            }
            let s = &self.slices[k];
            if crate::strings::str_eq(s.profile.as_str(), profile) && s.is_free() {
                n = n + 1;
            }
            k = k + 1;
        }
        assert(sv.take(self.slices@.len() as int) =~= sv);
        n
    }
}

/// A node and the GPUs it holds.
#[derive(Debug)]
pub struct Node {
    pub id: String,
    pub gpus: Vec<Gpu>,
}

/// What a node holds, as plain values.
pub struct NodeView {
    pub id: Seq<char>,
    pub gpus: Seq<GpuView>,
}

impl View for Node {
    type V = NodeView;

    open spec fn view(&self) -> NodeView {
        NodeView { id: self.id@, gpus: self.gpus@.map_values(|g: Gpu| g@) }
    }
}

/// Where and when a job runs: the resource ids (whole GPUs or MIG slices)
/// it was given and its start time.
#[derive(Debug)]
pub struct Placement {
    pub job_id: String,
    pub gpu_ids: Vec<String>,
    pub start_time: u64,
}

} // verus!
