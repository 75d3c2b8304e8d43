//! Scheduler event trace replay and comparison with the recorded (oracle)
//! placements.

use vstd::prelude::*;
use crate::cluster::{resource_gpu, Cluster};
use crate::config::ConfigError;
use crate::mig::{decimal, push_decimal};
use crate::models::{Job, NodeView};
use crate::metrics::SimulationMetrics;
use crate::config::{engine_run, run_outcome, run_to_completion};
use crate::engine::SimulationEngine;
use crate::resource::{GpuSelectionPolicy, ResourceManager};
use crate::fifo::FifoScheduler;
use crate::strings::{clone_strings, ids_view, lemma_lex_irreflexive, lemma_lex_total, lemma_lex_transitive, lex_lt, str_eq, str_lt};
use crate::cluster::{find_job, has_job};

verus! {

/// A GPU named in a trace: by id, or by index on the event's node.
#[derive(Debug)]
pub enum GpuRef {
    Id(String),
    Index(u32),
}

/// One line of a scheduler trace.
#[derive(Debug)]
pub enum TraceEvent {
    JobSubmitted { timestamp: u64, job: String, gpu_count: u32, runtime: u64, gpu_memory_gb: u64, priority: u32 },
    JobScheduled { timestamp: u64, job: String, node: String, gpus: Vec<GpuRef> },
    JobCompleted { timestamp: u64, job: String },
}

/// A placement recorded in the trace.
#[derive(Debug)]
pub struct OraclePlacement {
    pub job_id: String,
    pub timestamp: u64,
    pub node: String,
    pub gpu_ids: Vec<String>,
}

/// A placement made by the simulation; `start_time` is `None` when the
/// simulation never ran the job.
#[derive(Debug)]
pub struct SimulatedPlacement {
    pub job_id: String,
    pub start_time: Option<u64>,
    pub gpu_ids: Vec<String>,
    pub nodes: Vec<String>,
}

/// Recorded against simulated placement of one job.
#[derive(Debug)]
pub struct PlacementDiff {
    pub job_id: String,
    pub placement_match: bool,
    pub schedule_time_match: bool,
    pub oracle: OraclePlacement,
    pub simulated: SimulatedPlacement,
}

/// Id of GPU `index` of node `node`: `<node>-gpu-<index>`.
pub open spec fn indexed_gpu_id(node: Seq<char>, index: u32) -> Seq<char> {
    node + "-gpu-"@ + decimal(index as nat)
}

/// The GPU id a reference names.
pub open spec fn ref_id(node: Seq<char>, r: GpuRef) -> Seq<char> {
    match r {
        GpuRef::Id(s) => s@,
        GpuRef::Index(i) => indexed_gpu_id(node, i),
    }
}

/// The message for a reference that names no GPU of the cluster.
pub open spec fn unknown_ref_message(node: Seq<char>, r: GpuRef) -> Seq<char> {
    match r {
        GpuRef::Id(s) => "unknown gpu id '"@ + s@ + "' in trace"@,
        GpuRef::Index(i) => "unknown gpu index "@ + decimal(i as nat) + " on node '"@ + node + "'"@,
    }
}

/// The reference names a GPU (or a MIG slice) of the cluster.
pub open spec fn resolves(nv: Seq<NodeView>, node: Seq<char>, r: GpuRef) -> bool {
    resource_gpu(nv, ref_id(node, r)) is Some
}

/// Index of the first reference that names nothing.
pub open spec fn first_unresolved(nv: Seq<NodeView>, node: Seq<char>, refs: Seq<GpuRef>, k: int) -> bool {
    &&& 0 <= k < refs.len()
    &&& !resolves(nv, node, refs[k])
    &&& forall|j: int| 0 <= j < k ==> resolves(nv, node, #[trigger] refs[j])
}

/// All references name something.
pub open spec fn all_resolve(nv: Seq<NodeView>, node: Seq<char>, refs: Seq<GpuRef>) -> bool {
    forall|j: int| 0 <= j < refs.len() ==> resolves(nv, node, #[trigger] refs[j])
}

/// What `normalize_gpu_refs` gives: the ids of the references when all of
/// them name something in the cluster, else the error for the first that
/// does not.
pub open spec fn normalized(nv: Seq<NodeView>, node: Seq<char>, refs: Seq<GpuRef>, r: Result<Vec<String>, ConfigError>) -> bool {
    if all_resolve(nv, node, refs) {
        r is Ok && ids_view(r->Ok_0@) == refs.map_values(|g: GpuRef| ref_id(node, g))
    } else {
        exists|k: int|
            first_unresolved(nv, node, refs, k) && (r matches Err(ConfigError::Invalid(m)) && m@
                == unknown_ref_message(node, refs[k]))
    }
}

/// `<node>-gpu-<index>`.
pub fn gpu_id_for_index(node: &str, index: u32) -> (s: String)
    ensures
        s@ == indexed_gpu_id(node@, index),
{
    let mut s = String::from_str(node);
    s.append("-gpu-");
    push_decimal(&mut s, index);
    s
}

fn unknown_ref_error(node: &str, r: &GpuRef) -> (e: ConfigError)
    ensures
        e matches ConfigError::Invalid(m) && m@ == unknown_ref_message(node@, *r),
{
    match r {
        GpuRef::Id(id) => {
            let mut m = String::from_str("unknown gpu id '");
            m.append(id.as_str());
            m.append("' in trace");
            proof {
                reveal_strlit("unknown gpu id '");
                reveal_strlit("' in trace");
            }
            ConfigError::Invalid(m)
        },
        GpuRef::Index(i) => {
            let mut m = String::from_str("unknown gpu index ");
            push_decimal(&mut m, *i);
            m.append(" on node '");
            m.append(node);
            m.append("'");
            proof {
                reveal_strlit("unknown gpu index ");
                reveal_strlit(" on node '");
                reveal_strlit("'");
            }
            ConfigError::Invalid(m)
        },
    }
}

/// Turns the GPU references of a scheduled event into GPU ids, checking
/// that each names a GPU (or MIG slice) of the cluster.
pub fn normalize_gpu_refs(node: &str, gpus: &Vec<GpuRef>, cluster: &Cluster) -> (r: Result<Vec<String>, ConfigError>)
    ensures
        normalized(cluster.resources(), node@, gpus@, r),
{
    let ghost nv = cluster.resources();
    let mut ids: Vec<String> = Vec::new();
    let mut k: usize = 0;
    while k < gpus.len()
        invariant
            nv == cluster.resources(),
            k <= gpus@.len(),
            forall|j: int| 0 <= j < k ==> resolves(nv, node@, #[trigger] gpus@[j]),
            ids_view(ids@) == gpus@.take(k as int).map_values(|g: GpuRef| ref_id(node@, g)),
        decreases gpus@.len() - k,
    {
        let id = match &gpus[k] {
            GpuRef::Id(id) => id.clone(),
            GpuRef::Index(index) => gpu_id_for_index(node, *index),
        };
        if cluster.gpu(id.as_str()).is_none() {
            let e = unknown_ref_error(node, &gpus[k]);
            assert(first_unresolved(nv, node@, gpus@, k as int));
            return Err(e);
        }
        let ghost before = ids@;
        ids.push(id);
        assert(ids_view(ids@) =~= ids_view(before).push(ref_id(node@, gpus@[k as int])));
        assert(gpus@.take(k as int + 1).map_values(|g: GpuRef| ref_id(node@, g))
            =~= gpus@.take(k as int).map_values(|g: GpuRef| ref_id(node@, g)).push(ref_id(node@, gpus@[k as int])));
        k = k + 1;
    }
    assert(gpus@.take(k as int) =~= gpus@);
    Ok(ids)
}

/// The `JobSubmitted` events, in order.
pub open spec fn submitted(events: Seq<TraceEvent>) -> Seq<TraceEvent>
    decreases events.len(),
{
    if events.len() == 0 {
        Seq::empty()
    } else if events.last() is JobSubmitted {
        submitted(events.drop_last()).push(events.last())
    } else {
        submitted(events.drop_last())
    }
}

/// The `JobScheduled` events, in order.
pub open spec fn scheduled(events: Seq<TraceEvent>) -> Seq<TraceEvent>
    decreases events.len(),
{
    if events.len() == 0 {
        Seq::empty()
    } else if events.last() is JobScheduled {
        scheduled(events.drop_last()).push(events.last())
    } else {
        scheduled(events.drop_last())
    }
}

/// `j` is the job a `JobSubmitted` event describes: named by the job id,
/// arriving at the timestamp, other attributes at their defaults.
pub open spec fn job_of_event(j: Job, e: TraceEvent) -> bool {
    match e {
        TraceEvent::JobSubmitted { timestamp, job, gpu_count, runtime, gpu_memory_gb, priority } => {
            &&& j.id@ == job@
            &&& j.name@ == job@
            &&& j.arrival_time == timestamp
            &&& j.runtime == runtime
            &&& j.gpu_count == gpu_count
            &&& j.gpu_memory_gb == gpu_memory_gb
            &&& j.priority == priority
            &&& j.tenant is None
            &&& j.network_bw_gbps is None
            &&& j.gpu_type is None
            &&& j.namespace is None
            &&& !j.gang_enabled
            &&& j.gang_size_nodes is None
            &&& j.gang_timeout_secs is None
            &&& j.mig_profile is None
            &&& j.mig_count is None
            &&& j.state == crate::models::JobState::Pending
            &&& j.start_time is None
            &&& j.finish_time is None
            &&& j.assigned_gpus@.len() == 0
            &&& j.run_generation == 0
        },
        _ => false,
    }
}

/// The jobs submitted in the trace; a trace without submissions is an error.
pub fn jobs_from_trace(events: &Vec<TraceEvent>) -> (r: Result<Vec<Job>, ConfigError>)
    ensures
        submitted(events@).len() == 0 ==> (r matches Err(ConfigError::Invalid(m)) && m@
            == "trace must contain at least one JobSubmitted event"@),
        submitted(events@).len() > 0 ==> r is Ok && r->Ok_0@.len() == submitted(events@).len() && forall|k: int|
            0 <= k < r->Ok_0@.len() ==> job_of_event(#[trigger] r->Ok_0@[k], submitted(events@)[k]),
{
    let mut jobs: Vec<Job> = Vec::new();
    let mut i: usize = 0;
    while i < events.len()
        invariant
            i <= events@.len(),
            jobs@.len() == submitted(events@.take(i as int)).len(),
            forall|k: int| 0 <= k < jobs@.len() ==> job_of_event(#[trigger] jobs@[k], submitted(events@.take(i as int))[k]),
        decreases events@.len() - i,
    {
        assert(events@.take(i as int + 1).drop_last() =~= events@.take(i as int));
        match &events[i] {
            TraceEvent::JobSubmitted { timestamp, job, gpu_count, runtime, gpu_memory_gb, priority } => {
                let mut j = Job::new(job.as_str(), job.as_str(), *timestamp, *runtime, *gpu_count);
                j.gpu_memory_gb = *gpu_memory_gb;
                j.priority = *priority;
                jobs.push(j);
            },
            _ => {},
        }
        i = i + 1;
    }
    assert(events@.take(events@.len() as int) =~= events@);
    if jobs.len() == 0 {
        proof {
            reveal_strlit("trace must contain at least one JobSubmitted event");
        }
        return Err(ConfigError::Invalid(String::from_str("trace must contain at least one JobSubmitted event")));
    }
    Ok(jobs)
}

/// `p` is the placement a `JobScheduled` event records, with resolved ids.
pub open spec fn placement_of_event(p: OraclePlacement, e: TraceEvent) -> bool {
    match e {
        TraceEvent::JobScheduled { timestamp, job, node, gpus } => {
            &&& p.job_id@ == job@
            &&& p.timestamp == timestamp
            &&& p.node@ == node@
            &&& ids_view(p.gpu_ids@) == gpus@.map_values(|g: GpuRef| ref_id(node@, g))
        },
        _ => false,
    }
}

/// The GPU references of a scheduled event all name something.
pub open spec fn event_resolves(nv: Seq<NodeView>, e: TraceEvent) -> bool {
    match e {
        TraceEvent::JobScheduled { node, gpus, .. } => all_resolve(nv, node@, gpus@),
        _ => true,
    }
}

/// `m` is the error for the first GPU reference of a scheduled event that
/// names nothing.
pub open spec fn unresolved_error(nv: Seq<NodeView>, e: TraceEvent, m: Seq<char>) -> bool {
    match e {
        TraceEvent::JobScheduled { node, gpus, .. } => exists|j: int|
            first_unresolved(nv, node@, gpus@, j) && m == unknown_ref_message(node@, gpus@[j]),
        _ => false,
    }
}

/// Every GPU reference of every scheduled event names something.
pub open spec fn trace_resolves(nv: Seq<NodeView>, events: Seq<TraceEvent>) -> bool {
    forall|k: int| 0 <= k < scheduled(events).len() ==> event_resolves(nv, #[trigger] scheduled(events)[k])
}

/// `m` is the error for the first scheduled event with a reference that
/// names nothing.
pub open spec fn trace_error(nv: Seq<NodeView>, events: Seq<TraceEvent>, m: Seq<char>) -> bool {
    let sched = scheduled(events);
    exists|k: int|
        #![trigger sched[k]]
        {
            &&& 0 <= k < sched.len()
            &&& !event_resolves(nv, sched[k])
            &&& forall|j: int| 0 <= j < k ==> event_resolves(nv, #[trigger] sched[j])
            &&& unresolved_error(nv, sched[k], m)
        }
}

/// The placements the trace records, with GPU references resolved; the
/// first scheduled event with a reference to no GPU of the cluster gives
/// that reference's error.
pub fn oracle_placements_from_trace(events: &Vec<TraceEvent>, cluster: &Cluster) -> (r: Result<Vec<OraclePlacement>, ConfigError>)
    ensures
        if trace_resolves(cluster.resources(), events@) {
            &&& r is Ok
            &&& r->Ok_0@.len() == scheduled(events@).len()
            &&& forall|k: int|
                0 <= k < scheduled(events@).len() ==> placement_of_event(#[trigger] r->Ok_0@[k], scheduled(events@)[k])
        } else {
            r matches Err(ConfigError::Invalid(m)) && trace_error(cluster.resources(), events@, m@)
        },
{
    let ghost nv = cluster.resources();
    let mut placements: Vec<OraclePlacement> = Vec::new();
    let mut i: usize = 0;
    while i < events.len()
        invariant
            nv == cluster.resources(),
            i <= events@.len(),
            placements@.len() == scheduled(events@.take(i as int)).len(),
            forall|k: int| 0 <= k < placements@.len() ==> placement_of_event(#[trigger] placements@[k], scheduled(events@.take(i as int))[k]),
            forall|k: int| 0 <= k < placements@.len() ==> event_resolves(nv, #[trigger] scheduled(events@.take(i as int))[k]),
        decreases events@.len() - i,
    {
        let ghost pre = events@.take(i as int);
        assert(events@.take(i as int + 1).drop_last() =~= pre);
        proof {
            lemma_scheduled_prefix(events@, i as int + 1);
        }
        match &events[i] {
            TraceEvent::JobScheduled { timestamp, job, node, gpus } => {
                match normalize_gpu_refs(node.as_str(), gpus, cluster) {
                    Ok(gpu_ids) => {
                        placements.push(OraclePlacement { job_id: job.clone(), timestamp: *timestamp, node: node.clone(), gpu_ids });
                    },
                    Err(e) => {
                        proof {
                            let sched = scheduled(events@);
                            let k = placements@.len() as int;
                            lemma_scheduled_prefix(events@, i as int);
                            let b = events@.take(i as int + 1);
                            assert(b.last() == events@[i as int]);
                            assert(scheduled(b) == scheduled(pre).push(events@[i as int]));
                            assert(scheduled(b)[k] == events@[i as int]);
                            assert(sched[k] == events@[i as int]);
                            assert(!event_resolves(nv, sched[k]));
                            assert forall|j: int| 0 <= j < k implies event_resolves(nv, #[trigger] sched[j]) by {
                                assert(scheduled(pre)[j] == sched[j]);
                            }
                        }
                        return Err(e);
                    },
                }
            },
            _ => {},
        }
        i = i + 1;
    }
    assert(events@.take(events@.len() as int) =~= events@);
    Ok(placements)
}

/// The scheduled events of a prefix are a prefix of the scheduled events.
pub proof fn lemma_scheduled_prefix(events: Seq<TraceEvent>, i: int)
    requires
        0 <= i <= events.len(),
    ensures
        scheduled(events.take(i)).len() <= scheduled(events).len(),
        forall|k: int| 0 <= k < scheduled(events.take(i)).len() ==> #[trigger] scheduled(events.take(i))[k] == scheduled(events)[k],
    decreases events.len() - i,
{
    if i < events.len() {
        lemma_scheduled_prefix(events, i + 1);
        let a = events.take(i);
        let b = events.take(i + 1);
        assert(b.drop_last() =~= a);
        assert forall|k: int| 0 <= k < scheduled(a).len() implies #[trigger] scheduled(a)[k] == scheduled(events)[k] by {
            assert(scheduled(a)[k] == scheduled(b)[k]);
        }
    } else {
        assert(events.take(i) =~= events);
    }
}

/// Strictly increasing in character order (so without repeats).
pub open spec fn strictly_sorted(s: Seq<Seq<char>>) -> bool {
    forall|i: int, j: int| 0 <= i < j < s.len() ==> lex_lt(#[trigger] s[i], #[trigger] s[j])
}

/// Node ids of the GPUs the ids resolve to.
pub open spec fn node_set(nv: Seq<NodeView>, ids: Seq<Seq<char>>) -> Set<Seq<char>>
    decreases ids.len(),
{
    if ids.len() == 0 {
        Set::empty()
    } else {
        let rest = node_set(nv, ids.drop_last());
        match resource_gpu(nv, ids.last()) {
            Some(g) => rest.insert(g.node_id),
            None => rest,
        }
    }
}

/// Inserts `x` into a strictly sorted list unless it is there.
fn insert_sorted_unique(v: &mut Vec<String>, x: String)
    requires
        strictly_sorted(ids_view(old(v)@)),
    ensures
        strictly_sorted(ids_view(final(v)@)),
        ids_view(final(v)@).to_set() == ids_view(old(v)@).to_set().insert(x@),
{
    let ghost v0 = ids_view(v@);
    let mut p: usize = 0;
    while p < v.len() && str_lt(v[p].as_str(), x.as_str())
        invariant
            p <= v@.len(),
            v0 == ids_view(v@),
            forall|q: int| 0 <= q < p ==> lex_lt(#[trigger] v0[q], x@),
        decreases v@.len() - p,
    {
        p = p + 1;
    }
    if p < v.len() && str_eq(v[p].as_str(), x.as_str()) {
        assert(ids_view(v@).to_set() =~= v0.to_set().insert(x@)) by {
            assert(v0[p as int] == x@);
        }
        return;
    }
    proof {
        if p < v@.len() {
            lemma_lex_total(v0[p as int], x@);
        }
    }
    v.insert(p, x);
    let ghost v1 = ids_view(v@);
    assert(v1 =~= v0.take(p as int).push(x@) + v0.skip(p as int));
    assert forall|i: int, j: int| 0 <= i < j < v1.len() implies lex_lt(#[trigger] v1[i], #[trigger] v1[j]) by {
        if j < p {
        } else if i < p && j == p {
        } else if i < p && j > p {
            assert(v1[j] == v0[j - 1]);
            if p < v0.len() {
                assert(lex_lt(x@, v0[p as int]));
                if j - 1 > p {
                    lemma_lex_transitive(x@, v0[p as int], v0[j - 1]);
                }
                lemma_lex_transitive(v0[i], x@, v0[j - 1]);
            }
        } else if i == p {
            assert(lex_lt(x@, v0[p as int]));
            if j - 1 > p {
                lemma_lex_transitive(x@, v0[p as int], v0[j - 1]);
            }
        } else {
            assert(v1[i] == v0[i - 1]);
            assert(v1[j] == v0[j - 1]);
        }
    }
    assert(v1.to_set() =~= v0.to_set().insert(x@)) by {
        assert forall|y: Seq<char>| v1.to_set().contains(y) <==> v0.to_set().insert(x@).contains(y) by {
            if v1.to_set().contains(y) {
                let i = choose|i: int| 0 <= i < v1.len() && v1[i] == y;
                if i < p {
                    assert(v0[i] == y);
                } else if i > p {
                    assert(v0[i - 1] == y);
                }
            }
            if v0.to_set().contains(y) {
                let i = choose|i: int| 0 <= i < v0.len() && v0[i] == y;
                if i < p {
                    assert(v1[i] == y);
                } else {
                    assert(v1[i + 1] == y);
                }
            }
            if y == x@ {
                assert(v1[p as int] == y);
            }
        }
    }
}

/// The nodes of the GPUs that the ids name, sorted and without repeats;
/// ids that name nothing are skipped.
pub fn nodes_for_gpus(cluster: &Cluster, gpu_ids: &Vec<String>) -> (r: Vec<String>)
    ensures
        strictly_sorted(ids_view(r@)),
        ids_view(r@).to_set() == node_set(cluster.resources(), ids_view(gpu_ids@)),
{
    let mut nodes: Vec<String> = Vec::new();
    let mut i: usize = 0;
    assert(ids_view(nodes@).to_set() =~= Set::<Seq<char>>::empty());
    while i < gpu_ids.len()
        invariant
            i <= gpu_ids@.len(),
            strictly_sorted(ids_view(nodes@)),
            ids_view(nodes@).to_set() == node_set(cluster.resources(), ids_view(gpu_ids@).take(i as int)),
        decreases gpu_ids@.len() - i,
    {
        assert(ids_view(gpu_ids@).take(i as int + 1).drop_last() =~= ids_view(gpu_ids@).take(i as int));
        match cluster.gpu(gpu_ids[i].as_str()) {
            Some(g) => {
                insert_sorted_unique(&mut nodes, g.node_id.clone());
            },
            None => {},
        }
        i = i + 1;
    }
    assert(ids_view(gpu_ids@).take(gpu_ids@.len() as int) =~= ids_view(gpu_ids@));
    nodes
}

/// `sp` is the simulated placement of the finished job `job`.
pub open spec fn simulated_of(nv: Seq<NodeView>, sp: SimulatedPlacement, job: Job) -> bool {
    &&& sp.job_id == job.id
    &&& sp.start_time == Some(
        match job.start_time {
            Some(t) => t,
            None => 0u64,
        },
    )
    &&& sp.gpu_ids@ == job.assigned_gpus@
    &&& strictly_sorted(ids_view(sp.nodes@))
    &&& ids_view(sp.nodes@).to_set() == node_set(nv, ids_view(job.assigned_gpus@))
}

/// `i` is the last index of a job with id `id`.
pub open spec fn last_index(jobs: Seq<Job>, id: Seq<char>, i: int) -> bool {
    &&& 0 <= i < jobs.len()
    &&& jobs[i].id@ == id
    &&& forall|j: int| i < j < jobs.len() ==> (#[trigger] jobs[j]).id@ != id
}

/// No two placements share a job id.
pub open spec fn sim_ids_distinct(s: Seq<SimulatedPlacement>) -> bool {
    forall|i: int, j: int|
        0 <= i < s.len() && 0 <= j < s.len() && i != j ==> (#[trigger] s[i]).job_id@ != (#[trigger] s[j]).job_id@
}

/// Replaces the placement with the same job id, or appends.
fn upsert_placement(map: &mut Vec<SimulatedPlacement>, sp: SimulatedPlacement)
    requires
        sim_ids_distinct(old(map)@),
    ensures
        sim_ids_distinct(final(map)@),
        final(map)@.len() >= old(map)@.len(),
        exists|p: int| 0 <= p < final(map)@.len() && final(map)@[p] == sp,
        forall|k: int|
            0 <= k < final(map)@.len() ==> final(map)@[k] == sp || (k < old(map)@.len() && #[trigger] final(map)@[k]
                == old(map)@[k] && old(map)@[k].job_id@ != sp.job_id@),
        forall|k: int|
            0 <= k < old(map)@.len() && (#[trigger] old(map)@[k]).job_id@ != sp.job_id@ ==> final(map)@[k] == old(map)@[k],
{
    let ghost m0 = map@;
    let mut pos: usize = 0;
    while pos < map.len() && !str_eq(map[pos].job_id.as_str(), sp.job_id.as_str())
        invariant
            pos <= map@.len(),
            map@ == m0,
            forall|q: int| 0 <= q < pos ==> (#[trigger] map@[q]).job_id@ != sp.job_id@,
        decreases map@.len() - pos,
    {
        pos = pos + 1;
    }
    if pos < map.len() {
        map.set(pos, sp);
        assert forall|a: int, b: int|
            0 <= a < map@.len() && 0 <= b < map@.len() && a != b implies (#[trigger] map@[a]).job_id@ != (#[trigger] map@[b]).job_id@ by {
            if a == pos {
                assert(m0[b].job_id@ != m0[pos as int].job_id@);
            } else if b == pos {
                assert(m0[a].job_id@ != m0[pos as int].job_id@);
            }
        }
        assert forall|k: int| 0 <= k < m0.len() && (#[trigger] m0[k]).job_id@ != sp.job_id@ implies map@[k] == m0[k] by {
        }
        assert(map@[pos as int] == sp);
    } else {
        map.push(sp);
        assert(map@[m0.len() as int] == sp);
    }
}

/// The last index of an id in a prefix stays the last one when the next
/// job has another id.
proof fn lemma_last_index_extend(finished: Seq<Job>, i: int, id: Seq<char>, j: int)
    requires
        0 <= i < finished.len(),
        last_index(finished.take(i), id, j),
        finished[i].id@ != id,
    ensures
        last_index(finished.take(i + 1), id, j),
{
    let a = finished.take(i);
    let b = finished.take(i + 1);
    assert forall|q: int| j < q < b.len() implies (#[trigger] b[q]).id@ != id by {
        if q < i {
            assert(b[q] == a[q]);
        }
    }
}

/// One more finished job folded into the placements: every placement
/// still comes from the last run of its job id.
#[verifier::spinoff_prover]
proof fn lemma_simulated_step(
    nv: Seq<NodeView>,
    finished: Seq<Job>,
    i: int,
    m0: Seq<SimulatedPlacement>,
    m1: Seq<SimulatedPlacement>,
    sp: SimulatedPlacement,
)
    requires
        0 <= i < finished.len(),
        simulated_of(nv, sp, finished[i]),
        forall|k: int|
            0 <= k < m0.len() ==> exists|j: int|
                #![trigger finished[j]]
                last_index(finished.take(i), (#[trigger] m0[k]).job_id@, j) && simulated_of(nv, m0[k], finished[j]),
        forall|k: int|
            0 <= k < m1.len() ==> m1[k] == sp || (k < m0.len() && #[trigger] m1[k] == m0[k] && m0[k].job_id@ != sp.job_id@),
    ensures
        forall|k: int|
            0 <= k < m1.len() ==> exists|j: int|
                #![trigger finished[j]]
                last_index(finished.take(i + 1), (#[trigger] m1[k]).job_id@, j) && simulated_of(nv, m1[k], finished[j]),
{
    assert forall|k: int| 0 <= k < m1.len() implies exists|j: int|
        #![trigger finished[j]]
        last_index(finished.take(i + 1), (#[trigger] m1[k]).job_id@, j) && simulated_of(nv, m1[k], finished[j]) by {
        if m1[k] == sp {
            assert(finished.take(i + 1)[i] == finished[i]);
            assert(last_index(finished.take(i + 1), m1[k].job_id@, i));
        } else {
            let j = choose|j: int|
                #![trigger finished[j]]
                last_index(finished.take(i), m0[k].job_id@, j) && simulated_of(nv, m0[k], finished[j]);
            lemma_last_index_extend(finished, i, m0[k].job_id@, j);
        }
    }
}

/// One more finished job folded into the placements: every finished job id
/// has a placement.
proof fn lemma_simulated_cover(
    finished: Seq<Job>,
    i: int,
    m0: Seq<SimulatedPlacement>,
    m1: Seq<SimulatedPlacement>,
    sp: SimulatedPlacement,
)
    requires
        0 <= i < finished.len(),
        sp.job_id == finished[i].id,
        forall|j: int|
            0 <= j < i ==> exists|k: int| 0 <= k < m0.len() && (#[trigger] m0[k]).job_id@ == (#[trigger] finished[j]).id@,
        exists|p: int| 0 <= p < m1.len() && m1[p] == sp,
        forall|k: int| 0 <= k < m0.len() && (#[trigger] m0[k]).job_id@ != sp.job_id@ ==> m1[k] == m0[k],
        m1.len() >= m0.len(),
    ensures
        forall|j: int|
            0 <= j < i + 1 ==> exists|k: int| 0 <= k < m1.len() && (#[trigger] m1[k]).job_id@ == (#[trigger] finished[j]).id@,
{
    let p = choose|p: int| 0 <= p < m1.len() && m1[p] == sp;
    assert forall|j: int| 0 <= j < i + 1 implies exists|k: int|
        0 <= k < m1.len() && (#[trigger] m1[k]).job_id@ == (#[trigger] finished[j]).id@ by {
        if j == i {
            assert(m1[p].job_id@ == finished[j].id@);
        } else {
            let k = choose|k: int| 0 <= k < m0.len() && (#[trigger] m0[k]).job_id@ == finished[j].id@;
            if m0[k].job_id@ == sp.job_id@ {
                assert(m1[p].job_id@ == finished[j].id@);
            } else {
                assert(m1[k] == m0[k]);
            }
        }
    }
}

/// `s` is taken from the last finished run of its job id in cluster `c`.
pub open spec fn simulated_from(c: Cluster, s: SimulatedPlacement) -> bool {
    exists|i: int| last_index(c.finished_jobs@, s.job_id@, i) && simulated_of(c.resources(), s, c.finished_jobs@[i])
}

/// `sims` are the simulated placements of cluster `c`: one per finished job
/// id, each taken from the last finished run of that id.
pub open spec fn simulated_for(c: Cluster, sims: Seq<SimulatedPlacement>) -> bool {
    &&& sim_ids_distinct(sims)
    &&& (forall|k: int| 0 <= k < sims.len() ==> simulated_from(c, #[trigger] sims[k]))
    &&& (forall|i: int|
        0 <= i < c.finished_jobs@.len() ==> exists|k: int|
            0 <= k < sims.len() && (#[trigger] sims[k]).job_id@ == (#[trigger] c.finished_jobs@[i]).id@)
}

/// The simulated placements of the finished jobs, one per job id: for a
/// job id that finished more than once, the last run.
pub fn simulated_placements(cluster: &Cluster) -> (r: Vec<SimulatedPlacement>)
    ensures
        sim_ids_distinct(r@),
        forall|k: int|
            0 <= k < r@.len() ==> exists|i: int|
                #![trigger cluster.finished_jobs@[i]]
                last_index(cluster.finished_jobs@, (#[trigger] r@[k]).job_id@, i) && simulated_of(
                    cluster.resources(),
                    r@[k],
                    cluster.finished_jobs@[i],
                ),
        forall|i: int|
            0 <= i < cluster.finished_jobs@.len() ==> exists|k: int|
                0 <= k < r@.len() && (#[trigger] r@[k]).job_id@ == (#[trigger] cluster.finished_jobs@[i]).id@,
{
    let finished = &cluster.finished_jobs;
    let ghost nv = cluster.resources();
    let mut map: Vec<SimulatedPlacement> = Vec::new();
    let mut i: usize = 0;
    while i < finished.len()
        invariant
            nv == cluster.resources(),
            i <= finished@.len(),
            sim_ids_distinct(map@),
            forall|k: int|
                0 <= k < map@.len() ==> exists|j: int|
                    #![trigger finished@[j]]
                    last_index(finished@.take(i as int), (#[trigger] map@[k]).job_id@, j) && simulated_of(
                        nv,
                        map@[k],
                        finished@[j],
                    ),
            forall|j: int|
                0 <= j < i ==> exists|k: int| 0 <= k < map@.len() && (#[trigger] map@[k]).job_id@ == (#[trigger] finished@[j]).id@,
        decreases finished@.len() - i,
    {
        let job = &finished[i];
        let gpu_ids = clone_strings(&job.assigned_gpus);
        let nodes = nodes_for_gpus(cluster, &gpu_ids);
        let start = match job.start_time {
            Some(t) => t,
            None => 0,
        };
        let sp = SimulatedPlacement { job_id: job.id.clone(), start_time: Some(start), gpu_ids, nodes };
        let ghost m0 = map@;
        upsert_placement(&mut map, sp);
        proof {
            lemma_simulated_step(nv, finished@, i as int, m0, map@, sp);
            lemma_simulated_cover(finished@, i as int, m0, map@, sp);
        }
        i = i + 1;
    }
    assert(finished@.take(finished@.len() as int) =~= finished@);
    map
}

proof fn lemma_simulated_for(c: Cluster, sims: Seq<SimulatedPlacement>)
    requires
        sim_ids_distinct(sims),
        forall|k: int|
            0 <= k < sims.len() ==> exists|i: int|
                #![trigger c.finished_jobs@[i]]
                last_index(c.finished_jobs@, (#[trigger] sims[k]).job_id@, i) && simulated_of(
                    c.resources(),
                    sims[k],
                    c.finished_jobs@[i],
                ),
        forall|i: int|
            0 <= i < c.finished_jobs@.len() ==> exists|k: int|
                0 <= k < sims.len() && (#[trigger] sims[k]).job_id@ == (#[trigger] c.finished_jobs@[i]).id@,
    ensures
        simulated_for(c, sims),
{
    assert forall|k: int| 0 <= k < sims.len() implies simulated_from(c, #[trigger] sims[k]) by {
        let i = choose|i: int|
            #![trigger c.finished_jobs@[i]]
            last_index(c.finished_jobs@, sims[k].job_id@, i) && simulated_of(c.resources(), sims[k], c.finished_jobs@[i]);
    }
}

/// Whether the list holds a string equal to `x`.
fn contains_id(v: &Vec<String>, x: &String) -> (r: bool)
    ensures
        r == ids_view(v@).contains(x@),
{
    let mut i: usize = 0;
    while i < v.len()
        invariant
            i <= v@.len(),
            forall|k: int| 0 <= k < i ==> (#[trigger] v@[k])@ != x@,
        decreases v@.len() - i,
    {
        if str_eq(v[i].as_str(), x.as_str()) {
            assert(ids_view(v@)[i as int] == x@);
            return true;
        }
        i = i + 1;
    }
    assert(!ids_view(v@).contains(x@)) by {
        if ids_view(v@).contains(x@) {
            let k = choose|k: int| 0 <= k < ids_view(v@).len() && ids_view(v@)[k] == x@;
            assert(v@[k]@ == x@);
        }
    }
    false
}

/// Whether every element of `a` is in `b`.
fn all_in(a: &Vec<String>, b: &Vec<String>) -> (r: bool)
    ensures
        r == ids_view(a@).to_set().subset_of(ids_view(b@).to_set()),
{
    let mut i: usize = 0;
    while i < a.len()
        invariant
            i <= a@.len(),
            forall|k: int| 0 <= k < i ==> ids_view(b@).contains(#[trigger] ids_view(a@)[k]),
        decreases a@.len() - i,
    {
        if !contains_id(b, &a[i]) {
            assert(ids_view(a@).to_set().contains(ids_view(a@)[i as int]));
            return false;
        }
        i = i + 1;
    }
    assert forall|x: Seq<char>| ids_view(a@).to_set().contains(x) implies ids_view(b@).to_set().contains(x) by {
        let k = choose|k: int| 0 <= k < ids_view(a@).len() && ids_view(a@)[k] == x;
    }
    true
}

/// Both lists hold the same set of ids (order and repeats aside).
pub fn placement_sets_match(a: &Vec<String>, b: &Vec<String>) -> (r: bool)
    ensures
        r == (ids_view(a@).to_set() == ids_view(b@).to_set()),
{
    let x = all_in(a, b);
    let y = all_in(b, a);
    proof {
        if x && y {
            assert(ids_view(a@).to_set() =~= ids_view(b@).to_set());
        }
    }
    x && y
}

/// A recorded placement as plain values.
pub open spec fn oracle_view(p: OraclePlacement) -> (Seq<char>, u64, Seq<char>, Seq<Seq<char>>) {
    (p.job_id@, p.timestamp, p.node@, ids_view(p.gpu_ids@))
}

/// A simulated placement as plain values.
pub open spec fn sim_view(p: SimulatedPlacement) -> (Seq<char>, Option<u64>, Seq<Seq<char>>, Seq<Seq<char>>) {
    (p.job_id@, p.start_time, ids_view(p.gpu_ids@), ids_view(p.nodes@))
}

pub open spec fn first_sim(sim: Seq<SimulatedPlacement>, id: Seq<char>, k: int) -> bool {
    &&& 0 <= k < sim.len()
    &&& sim[k].job_id@ == id
    &&& forall|j: int| 0 <= j < k ==> (#[trigger] sim[j]).job_id@ != id
}

/// The simulated placement of job `id` (the first with that id), or an
/// empty one that never started.
pub open spec fn sim_for(sim: Seq<SimulatedPlacement>, id: Seq<char>) -> (Seq<char>, Option<u64>, Seq<Seq<char>>, Seq<Seq<char>>) {
    if exists|k: int| first_sim(sim, id, k) {
        sim_view(sim[choose|k: int| first_sim(sim, id, k)])
    } else {
        (id, None, Seq::empty(), Seq::empty())
    }
}

/// `d` compares the recorded placement `o` with the simulated placements.
pub open spec fn diff_of(d: PlacementDiff, o: OraclePlacement, sim: Seq<SimulatedPlacement>) -> bool {
    let s = sim_for(sim, o.job_id@);
    &&& d.job_id@ == o.job_id@
    &&& oracle_view(d.oracle) == oracle_view(o)
    &&& sim_view(d.simulated) == s
    &&& d.placement_match == (ids_view(o.gpu_ids@).to_set() == s.2.to_set())
    &&& d.schedule_time_match == (s.1 == Some(o.timestamp))
}

/// Number of diffs that match in both placement and start time.
pub open spec fn count_matching(diffs: Seq<PlacementDiff>) -> nat
    decreases diffs.len(),
{
    if diffs.len() == 0 {
        0
    } else {
        count_matching(diffs.drop_last()) + if diffs.last().placement_match && diffs.last().schedule_time_match {
            1nat
        } else {
            0nat
        }
    }
}

/// Recorded against simulated placements, job by job.
#[derive(Debug)]
pub struct TraceDiffReport {
    pub scheduler: String,
    pub jobs_total: usize,
    pub oracle_schedules: usize,
    pub matching_placements: usize,
    pub differing_placements: usize,
    pub diffs: Vec<PlacementDiff>,
    pub simulation_metrics: SimulationMetrics,
}

#[derive(Debug)]
pub struct TraceReplayResult {
    pub report: TraceDiffReport,
}

impl OraclePlacement {
    pub fn duplicate(&self) -> (r: OraclePlacement)
        ensures
            oracle_view(r) == oracle_view(*self),
    {
        OraclePlacement {
            job_id: self.job_id.clone(),
            timestamp: self.timestamp,
            node: self.node.clone(),
            gpu_ids: clone_strings(&self.gpu_ids),
        }
    }
}

impl SimulatedPlacement {
    pub fn duplicate(&self) -> (r: SimulatedPlacement)
        ensures
            sim_view(r) == sim_view(*self),
    {
        SimulatedPlacement {
            job_id: self.job_id.clone(),
            start_time: self.start_time,
            gpu_ids: clone_strings(&self.gpu_ids),
            nodes: clone_strings(&self.nodes),
        }
    }
}

/// The simulated placement of job `id`, or one that never started.
fn lookup_simulated(simulated: &Vec<SimulatedPlacement>, id: &String) -> (r: SimulatedPlacement)
    ensures
        sim_view(r) == sim_for(simulated@, id@),
{
    let mut k: usize = 0;
    while k < simulated.len()
        invariant
            k <= simulated@.len(),
            forall|j: int| 0 <= j < k ==> (#[trigger] simulated@[j]).job_id@ != id@,
        decreases simulated@.len() - k,
    {
        if str_eq(simulated[k].job_id.as_str(), id.as_str()) {
            proof {
                assert(first_sim(simulated@, id@, k as int));
                let w = choose|w: int| first_sim(simulated@, id@, w);
                if w < k {
                    assert(simulated@[w].job_id@ != id@);
                } else if w > k {
                    assert(simulated@[k as int].job_id@ == id@);
                }
                assert(w == k);
            }
            return simulated[k].duplicate();
        }
        k = k + 1;
    }
    let r = SimulatedPlacement { job_id: id.clone(), start_time: None, gpu_ids: Vec::new(), nodes: Vec::new() };
    assert(ids_view(r.gpu_ids@) =~= Seq::empty());
    assert(ids_view(r.nodes@) =~= Seq::empty());
    r
}

/// Compares each recorded placement with the simulated placement of its
/// job: same set of resource ids, and a simulated start at the recorded
/// time.
pub fn compare_schedules(
    oracle: &Vec<OraclePlacement>,
    simulated: &Vec<SimulatedPlacement>,
    scheduler: &str,
    metrics: SimulationMetrics,
) -> (report: TraceDiffReport)
    ensures
        report.scheduler@ == scheduler@,
        report.jobs_total == metrics.jobs_total,
        report.oracle_schedules == oracle@.len(),
        report.diffs@.len() == oracle@.len(),
        forall|k: int| 0 <= k < oracle@.len() ==> diff_of(#[trigger] report.diffs@[k], oracle@[k], simulated@),
        report.matching_placements == count_matching(report.diffs@),
        report.matching_placements + report.differing_placements == oracle@.len(),
        report.simulation_metrics == metrics,
{
    let mut diffs: Vec<PlacementDiff> = Vec::new();
    let mut matching: usize = 0;
    let mut k: usize = 0;
    while k < oracle.len()
        invariant
            k <= oracle@.len(),
            diffs@.len() == k,
            forall|j: int| 0 <= j < k ==> diff_of(#[trigger] diffs@[j], oracle@[j], simulated@),
            matching == count_matching(diffs@),
            matching <= k,
        decreases oracle@.len() - k,
    {
        let entry = &oracle[k];
        let sim = lookup_simulated(simulated, &entry.job_id);
        let placement_match = placement_sets_match(&entry.gpu_ids, &sim.gpu_ids);
        let schedule_time_match = match sim.start_time {
            Some(t) => t == entry.timestamp,
            None => false,
        };
        if placement_match && schedule_time_match {
            matching = matching + 1;
        }
        let ghost before = diffs@;
        diffs.push(PlacementDiff {
            job_id: entry.job_id.clone(),
            placement_match,
            schedule_time_match,
            oracle: entry.duplicate(),
            simulated: sim,
        });
        assert(diffs@.drop_last() =~= before);
        k = k + 1;
    }
    TraceDiffReport {
        scheduler: String::from_str(scheduler),
        jobs_total: metrics.jobs_total,
        oracle_schedules: oracle.len(),
        matching_placements: matching,
        differing_placements: oracle.len() - matching,
        diffs,
        simulation_metrics: metrics,
    }
}

/// Replays the trace: its submitted jobs are simulated with the FIFO
/// scheduler on the cluster, and the placements recorded in the trace are
/// compared with the simulated ones.
pub fn run_trace_replay(events: &Vec<TraceEvent>, cluster: Cluster, scheduler: &str) -> (r: Result<TraceReplayResult, ConfigError>)
    requires
        cluster.wf(),
    ensures
        submitted(events@).len() == 0 ==> (r matches Err(ConfigError::Invalid(m)) && m@
            == "trace must contain at least one JobSubmitted event"@),
        submitted(events@).len() > 0 && !trace_resolves(cluster.resources(), events@) ==> (r matches Err(
            ConfigError::Invalid(m),
        ) && trace_error(cluster.resources(), events@, m@)),
        submitted(events@).len() > 0 && trace_resolves(cluster.resources(), events@) && scheduler@ != "fifo"@ ==> (r matches Err(
            ConfigError::Invalid(m),
        ) && m@ == "unsupported scheduler type '"@ + scheduler@ + "' for trace replay"@),
        submitted(events@).len() > 0 && trace_resolves(cluster.resources(), events@) && scheduler@ == "fifo"@ ==> {
            &&& r is Ok
            &&& r->Ok_0.report.scheduler@ == "fifo"@
            &&& r->Ok_0.report.jobs_total == submitted(events@).len()
            &&& r->Ok_0.report.oracle_schedules == scheduled(events@).len()
            &&& r->Ok_0.report.diffs@.len() == scheduled(events@).len()
            &&& forall|k: int|
                0 <= k < scheduled(events@).len() ==> placement_of_event(
                    (#[trigger] r->Ok_0.report.diffs@[k]).oracle,
                    scheduled(events@)[k],
                )
            &&& r->Ok_0.report.matching_placements + r->Ok_0.report.differing_placements
                == scheduled(events@).len()
            &&& r->Ok_0.report.matching_placements == count_matching(r->Ok_0.report.diffs@)
            &&& exists|js: Seq<Job>, c: Cluster, sims: Seq<SimulatedPlacement>|
                #![trigger run_outcome(cluster, js, c, r->Ok_0.report.simulation_metrics), simulated_for(c, sims)]
                {
                    &&& js.len() == submitted(events@).len()
                    &&& forall|k: int| 0 <= k < js.len() ==> job_of_event(#[trigger] js[k], submitted(events@)[k])
                    &&& r->Ok_0.report.simulation_metrics.jobs_total == js.len()
                    &&& run_outcome(cluster, js, c, r->Ok_0.report.simulation_metrics)
                    &&& (exists|steps: Seq<SimulationEngine<FifoScheduler>>|
                        #[trigger] engine_run(
                            steps,
                            cluster,
                            FifoScheduler,
                            ResourceManager { mig_registry: None, gpu_selection: GpuSelectionPolicy::FirstFit },
                            js,
                            c,
                        ))
                    &&& simulated_for(c, sims)
                    &&& forall|k: int|
                        0 <= k < r->Ok_0.report.diffs@.len() ==> diff_of(
                            #[trigger] r->Ok_0.report.diffs@[k],
                            r->Ok_0.report.diffs@[k].oracle,
                            sims,
                        )
                }
        },
{
    let jobs = match jobs_from_trace(events) {
        Ok(j) => j,
        Err(e) => return Err(e),
    };
    let oracle = match oracle_placements_from_trace(events, &cluster) {
        Ok(o) => o,
        Err(e) => return Err(e),
    };
    let jobs_total = jobs.len();
    if !str_eq(scheduler, "fifo") {
        let mut m = String::from_str("unsupported scheduler type '");
        m.append(scheduler);
        m.append("' for trace replay");
        proof {
            reveal_strlit("unsupported scheduler type '");
            reveal_strlit("' for trace replay");
        }
        return Err(ConfigError::Invalid(m));
    }
    let ghost js = jobs@;
    let rm = ResourceManager::new();
    assert(rm == ResourceManager { mig_registry: None, gpu_selection: GpuSelectionPolicy::FirstFit });
    let (done, metrics) = run_to_completion(cluster, FifoScheduler, rm, jobs, jobs_total);
    let simulated = simulated_placements(&done);
    proof {
        lemma_simulated_for(done, simulated@);
    }
    let report = compare_schedules(&oracle, &simulated, scheduler, metrics);
    proof {
        reveal_strlit("fifo");
        assert forall|k: int| 0 <= k < report.diffs@.len() implies diff_of(
            #[trigger] report.diffs@[k],
            report.diffs@[k].oracle,
            simulated@,
        ) by {
            assert(diff_of(report.diffs@[k], oracle@[k], simulated@));
        }
        assert(run_outcome(cluster, js, done, report.simulation_metrics) && simulated_for(done, simulated@));
        assert forall|k: int| 0 <= k < scheduled(events@).len() implies placement_of_event(
            (#[trigger] report.diffs@[k]).oracle,
            scheduled(events@)[k],
        ) by {
            assert(diff_of(report.diffs@[k], oracle@[k], simulated@));
            assert(placement_of_event(oracle@[k], scheduled(events@)[k]));
        }
    }
    Ok(TraceReplayResult { report })
}

} // verus!
