//! Preemptive priority scheduling: a waiting job that does not fit may
//! evict lower-priority running jobs to make room.

use vstd::prelude::*;
use crate::cluster::{first_job_index, has_job, ids_distinct, lemma_distinct_index, set_resources_job, Cluster};
use crate::fifo::{all_ids, fifo_admits, lemma_set_resources_concat, placement_view, placements_view};
use crate::strings::ids_view;
use crate::engine::{evicted_as, job_keys, lemma_job_keys_concat, lemma_job_keys_has, lemma_job_keys_perm, only_evictions, Scheduler};
use crate::models::{Job, NodeView, Placement, PREEMPTION_LIMIT};
use crate::resource::ResourceManager;
use crate::sorting::{lemma_sort_by_priority, sort_by_priority};

verus! {

/// Running job `r` may be evicted for a job of priority `p`: its priority
/// is lower and it has evictions left.
pub open spec fn evictable(r: Job, p: u32) -> bool {
    r.priority < p && r.preemption_count < PREEMPTION_LIMIT
}

/// Running job `i` is the one to evict first for a job of priority `p`: an
/// evictable job of the lowest priority, the first such in running order.
pub open spec fn first_victim(running: Seq<Job>, p: u32, i: int) -> bool {
    &&& 0 <= i < running.len()
    &&& evictable(running[i], p)
    &&& forall|j: int| 0 <= j < running.len() && evictable(#[trigger] running[j], p) ==> running[i].priority <= running[j].priority
    &&& forall|j: int| 0 <= j < i && evictable(#[trigger] running[j], p) ==> running[j].priority > running[i].priority
}

/// At most one running job is the first to evict.
pub proof fn lemma_first_victim_unique(running: Seq<Job>, p: u32, i: int, j: int)
    requires
        first_victim(running, p, i),
        first_victim(running, p, j),
    ensures
        i == j,
{
    if i < j {
        assert(running[i].priority <= running[j].priority);
        assert(running[i].priority > running[j].priority);
    } else if j < i {
        assert(running[j].priority <= running[i].priority);
        assert(running[j].priority > running[i].priority);
    }
}

/// The state of a preemptive pass: the nodes, the repartition count, the
/// running jobs, the placements made (job id, resource ids, start time) and
/// the jobs evicted for good (in eviction order).
pub type PassState = (Seq<NodeView>, u32, Seq<Job>, Seq<(Seq<char>, Seq<Seq<char>>, u64)>, Seq<Job>);

/// Job `j` can be placed in state `st` at time `t`: `can_place` admits it
/// (resources free, its tenant within quota next to the running jobs) and
/// `allocate` places it.
pub open spec fn admits(rm: &ResourceManager, st: PassState, quotas: Seq<(String, u32)>, j: Job, t: u64) -> bool {
    fifo_admits(rm, st.0, st.1, st.2, quotas, j, t)
}

/// Placing job `j` in state `st`: the placement is recorded and its
/// resources are held by the job for the rest of the pass.
pub open spec fn place_in(rm: &ResourceManager, st: PassState, j: Job, t: u64) -> PassState {
    let o = rm.outcome(st.0, st.1, j, t)->0;
    (set_resources_job(o.2, o.0, Some(j.id@)), o.3, st.2, st.3.push((j.id@, o.0, o.1)), st.4)
}

/// Evicting running job `i` in state `st`: it leaves the running jobs and
/// its resources are freed.
pub open spec fn evict_in(st: PassState, i: int) -> PassState {
    (set_resources_job(st.0, ids_view(st.2[i].assigned_gpus@), None), st.1, st.2.remove(i), st.3, st.4)
}

/// Evicting for job `j` until it fits: while it does not fit and some
/// running job is evictable for it, the first victim is evicted; when `j`
/// then fits it is placed. Gives the state, the victims so far (after
/// `victims`, in eviction order) and whether `j` was placed.
pub open spec fn evict_until(
    rm: &ResourceManager,
    st: PassState,
    quotas: Seq<(String, u32)>,
    j: Job,
    t: u64,
    victims: Seq<Job>,
) -> (PassState, Seq<Job>, bool)
    decreases st.2.len(),
{
    if exists|i: int| first_victim(st.2, j.priority, i) {
        let i = choose|i: int| first_victim(st.2, j.priority, i);
        let st2 = evict_in(st, i);
        let vs = victims.push(st.2[i]);
        if admits(rm, st2, quotas, j, t) {
            (place_in(rm, st2, j, t), vs, true)
        } else {
            evict_until(rm, st2, quotas, j, t, vs)
        }
    } else {
        (st, victims, false)
    }
}

/// Resuming evicted jobs as they ran, the last evicted first: each runs
/// again and holds its resources again.
pub open spec fn restore(st: PassState, victims: Seq<Job>) -> PassState
    decreases victims.len(),
{
    if victims.len() == 0 {
        st
    } else {
        let v = victims.last();
        restore(
            (set_resources_job(st.0, ids_view(v.assigned_gpus@), Some(v.id@)), st.1, st.2.push(v), st.3, st.4),
            victims.drop_last(),
        )
    }
}

/// One job of a preemptive pass: placed when it fits; otherwise it evicts
/// until it fits, and the victims stay evicted when it was placed and are
/// restored when it was not.
pub open spec fn preempt_step(rm: &ResourceManager, st: PassState, quotas: Seq<(String, u32)>, j: Job, t: u64) -> PassState {
    if admits(rm, st, quotas, j, t) {
        place_in(rm, st, j, t)
    } else {
        let r = evict_until(rm, st, quotas, j, t, Seq::empty());
        if r.2 {
            (r.0.0, r.0.1, r.0.2, r.0.3, st.4 + r.1)
        } else {
            restore(r.0, r.1)
        }
    }
}

/// A preemptive pass over the jobs in order, from state `st0`.
pub open spec fn preemptive_pass(
    rm: &ResourceManager,
    st0: PassState,
    quotas: Seq<(String, u32)>,
    jobs: Seq<Job>,
    t: u64,
) -> PassState
    decreases jobs.len(),
{
    if jobs.len() == 0 {
        st0
    } else {
        preempt_step(rm, preemptive_pass(rm, st0, quotas, jobs.drop_last(), t), quotas, jobs.last(), t)
    }
}

/// The running job to evict first for a job of priority `p`, if any.
pub fn pick_victim(running: &Vec<Job>, p: u32) -> (r: Option<usize>)
    ensures
        match r {
            Some(i) => first_victim(running@, p, i as int),
            None => forall|j: int| 0 <= j < running@.len() ==> !evictable(#[trigger] running@[j], p),
        },
{
    let mut best: Option<usize> = None;
    let mut i: usize = 0;
    while i < running.len()
        invariant
            i <= running@.len(),
            match best {
                Some(b) => {
                    &&& b < i
                    &&& evictable(running@[b as int], p)
                    &&& forall|j: int| 0 <= j < i && evictable(#[trigger] running@[j], p) ==> running@[b as int].priority <= running@[j].priority
                    &&& forall|j: int| 0 <= j < b && evictable(#[trigger] running@[j], p) ==> running@[j].priority > running@[b as int].priority
                },
                None => forall|j: int| 0 <= j < i ==> !evictable(#[trigger] running@[j], p),
            },
        decreases running@.len() - i,
    {
        let r = &running[i];
        if r.priority < p && r.preemption_count < PREEMPTION_LIMIT {
            match best {
                Some(b) => {
                    if r.priority < running[b].priority {
                        best = Some(i);
                    }
                },
                None => {
                    best = Some(i);
                },
            }
        }
        i = i + 1;
    }
    best
}

/// Places `job` now when `can_place` admits it and `allocate` places it,
/// holding its resources for the rest of the pass.
fn try_place(cluster: &mut Cluster, resource_manager: &ResourceManager, job: &Job) -> (r: Option<Placement>)
    requires
        old(cluster).wf(),
    ensures
        final(cluster).wf(),
        final(cluster).waiting_queue == old(cluster).waiting_queue,
        final(cluster).running_jobs == old(cluster).running_jobs,
        final(cluster).finished_jobs == old(cluster).finished_jobs,
        final(cluster).clock == old(cluster).clock,
        final(cluster).tenant_quotas == old(cluster).tenant_quotas,
        final(cluster).failed_jobs == old(cluster).failed_jobs,
        ({
            let st = (old(cluster).resources(), old(cluster).mig_reconfigs, old(cluster).running_jobs@, Seq::<(Seq<char>, Seq<Seq<char>>, u64)>::empty(), Seq::<Job>::empty());
            match r {
                Some(p) => {
                    &&& admits(resource_manager, st, old(cluster).tenant_quotas@, *job, old(cluster).clock)
                    &&& placement_view(p) == place_in(resource_manager, st, *job, old(cluster).clock).3.last()
                    &&& final(cluster).resources() == place_in(resource_manager, st, *job, old(cluster).clock).0
                    &&& final(cluster).mig_reconfigs == place_in(resource_manager, st, *job, old(cluster).clock).1
                },
                None => {
                    &&& !admits(resource_manager, st, old(cluster).tenant_quotas@, *job, old(cluster).clock)
                    &&& final(cluster).resources() == old(cluster).resources()
                    &&& final(cluster).mig_reconfigs == old(cluster).mig_reconfigs
                },
            }
        }),
{
    if !resource_manager.can_place(cluster, job) {
        return None;
    }
    let clock = cluster.clock;
    match resource_manager.allocate(cluster, job, clock) {
        Ok(p) => {
            cluster.mark_all(p.gpu_ids.as_slice(), job.id.as_str(), Some(job.id.clone()));
            Some(p)
        },
        Err(_) => None,
    }
}

/// Among jobs whose ids are distinct, no id occurs twice in their keys.
proof fn lemma_distinct_keys(s: Seq<Job>, id: Seq<char>)
    requires
        ids_distinct(s),
    ensures
        job_keys(s).count(Some(id)) <= 1,
    decreases s.len(),
{
    broadcast use vstd::multiset::group_multiset_axioms;
    broadcast use vstd::seq_lib::group_to_multiset_ensures;
    if s.len() == 0 {
        assert(s.map_values(|j: Job| Some(j.id@)) =~= Seq::empty());
        assert(job_keys(s).len() == 0);
    } else {
        let d = s.drop_last();
        assert(ids_distinct(d)) by {
            assert forall|a: int, b: int| 0 <= a < d.len() && 0 <= b < d.len() && a != b implies (#[trigger] d[a]).id@
                != (#[trigger] d[b]).id@ by {
                assert(d[a] == s[a] && d[b] == s[b]);
            }
        }
        lemma_distinct_keys(d, id);
        crate::engine::lemma_job_keys_push(d, s.last());
        assert(s =~= d.push(s.last()));
        assert(job_keys(s) == job_keys(d).insert(Some(s.last().id@)));
        if s.last().id@ == id {
            lemma_job_keys_has(d, id);
            if has_job(d, id) {
                let k = choose|k: int| 0 <= k < d.len() && (#[trigger] d[k]).id@ == id;
                assert(s[k] == d[k]);
                assert(s[s.len() - 1] == s.last());
                lemma_distinct_index(s, id, k, s.len() - 1);
            }
            assert(job_keys(d).count(Some(id)) == 0);
        } else {
            assert(Some(s.last().id@) != Some(id));
        }
    }
}

/// Preemptive priority scheduler: orders the waiting queue by descending
/// priority, then by arrival time, and places jobs in that order in one
/// pass. A job that does not fit evicts running jobs of lower priority that
/// have evictions left, lowest priority first, until it fits; the evicted
/// jobs rejoin the waiting queue at its end (requeued with their remaining
/// run time). When even that does not make room, the evicted jobs resume
/// as they were.
#[derive(Debug, Default, Clone, Copy)]
pub struct PreemptivePriorityScheduler;

/// The Forge scheduler: priority ordering with preemption.
pub type ForgeScheduler = PreemptivePriorityScheduler;

impl PreemptivePriorityScheduler {
    /// What `schedule` gives on `c0`: one preemptive pass (see
    /// `preemptive_pass`) over the waiting jobs in priority order, at the
    /// cluster clock and under its tenant quotas. The running jobs are those
    /// the pass leaves; the waiting queue is the jobs in priority order
    /// followed by the evicted jobs requeued; the resources the placements
    /// hold are released again at the end (starting the jobs marks them).
    pub open spec fn spec_schedule(rm: &ResourceManager, c0: &Cluster, c1: &Cluster, ps: Seq<Placement>) -> bool {
        let sorted = sort_by_priority(c0.waiting_queue@);
        let pass = preemptive_pass(rm, start_state(c0), c0.tenant_quotas@, sorted, c0.clock);
        &&& placements_view(ps) == pass.3
        &&& c1.resources() == set_resources_job(pass.0, all_ids(pass.3), None)
        &&& c1.mig_reconfigs == pass.1
        &&& c1.running_jobs@ == pass.2
        &&& (exists|rq: Seq<Job>| #[trigger] evicted_as(pass.4, rq, c0.clock) && c1.waiting_queue@ == sorted + rq)
        &&& c1.finished_jobs == c0.finished_jobs
        &&& c1.clock == c0.clock
        &&& c1.tenant_quotas == c0.tenant_quotas
        &&& c1.failed_jobs == c0.failed_jobs
    }

    pub fn schedule_preemptive(&mut self, cluster: &mut Cluster, resource_manager: &ResourceManager) -> (placements: Vec<Placement>)
        requires
            old(cluster).wf(),
        ensures
            final(cluster).wf(),
            only_evictions(old(cluster), final(cluster)),
            Self::spec_schedule(resource_manager, old(cluster), final(cluster), placements@),
    {
        broadcast use vstd::seq_lib::group_to_multiset_ensures;
        broadcast use vstd::multiset::group_multiset_axioms;
        let ghost c0 = *cluster;
        let ghost quotas = c0.tenant_quotas@;
        let ghost st0 = start_state(&c0);
        proof {
            lemma_sort_by_priority(cluster.waiting_queue@);
        }
        cluster.sort_waiting_by_priority();
        let mut waiting: Vec<Job> = Vec::new();
        std::mem::swap(&mut waiting, &mut cluster.waiting_queue);
        let ghost sorted = waiting@;
        let mut placements: Vec<Placement> = Vec::new();
        let mut requeued: Vec<Job> = Vec::new();
        let ghost mut ev: Seq<Job> = Seq::empty();
        let mut i: usize = 0;
        assert(cluster.running_jobs@ + ev =~= c0.running_jobs@);
        assert(sorted.take(0) =~= Seq::<Job>::empty());
        assert(placements_view(placements@) =~= Seq::<(Seq<char>, Seq<Seq<char>>, u64)>::empty());
        while i < waiting.len()
            invariant
                waiting@ == sorted,
                sorted == sort_by_priority(c0.waiting_queue@),
                sorted.to_multiset() == c0.waiting_queue@.to_multiset(),
                i <= sorted.len(),
                cluster.wf(),
                cluster.clock == c0.clock,
                cluster.finished_jobs == c0.finished_jobs,
                cluster.tenant_quotas == c0.tenant_quotas,
                cluster.failed_jobs == c0.failed_jobs,
                quotas == c0.tenant_quotas@,
                st0 == start_state(&c0),
                cluster.waiting_queue@.len() == 0,
                (cluster.running_jobs@ + ev).to_multiset() == c0.running_jobs@.to_multiset(),
                ids_distinct(c0.running_jobs@),
                evicted_as(ev, requeued@, c0.clock),
                current(cluster, placements@, ev) == preemptive_pass(resource_manager, st0, quotas, sorted.take(i as int), c0.clock),
            decreases sorted.len() - i,
        {
            let ghost pst = current(cluster, placements@, ev);
            proof {
                assert(sorted.take(i as int + 1).drop_last() =~= sorted.take(i as int));
                assert(sorted.take(i as int + 1).last() == sorted[i as int]);
            }
            let job = &waiting[i];
            let ghost before_place = placements@;
            match try_place(cluster, resource_manager, job) {
                Some(p) => {
                    placements.push(p);
                    proof {
                        assert(placements_view(placements@) =~= placements_view(before_place).push(placement_view(p)));
                        assert(current(cluster, placements@, ev) == preempt_step(resource_manager, pst, quotas, *job, c0.clock));
                    }
                },
                None => {
                    let ghost res = evict_until(resource_manager, pst, quotas, *job, c0.clock, Seq::empty());
                    let mut victims: Vec<Job> = Vec::new();
                    let mut placed = false;
                    assert(cluster.running_jobs@ + ev + victims@ =~= cluster.running_jobs@ + ev);
                    assert(current(cluster, placements@, ev) == pst);
                    loop
                        invariant_except_break
                            !placed,
                            evict_until(resource_manager, current(cluster, placements@, ev), quotas, *job, c0.clock, victims@)
                                == res,
                        invariant
                            cluster.wf(),
                            cluster.clock == c0.clock,
                            cluster.finished_jobs == c0.finished_jobs,
                            cluster.tenant_quotas == c0.tenant_quotas,
                            cluster.failed_jobs == c0.failed_jobs,
                            quotas == c0.tenant_quotas@,
                            cluster.waiting_queue@.len() == 0,
                            (cluster.running_jobs@ + ev + victims@).to_multiset() == c0.running_jobs@.to_multiset(),
                            forall|k: int| 0 <= k < victims@.len() ==> (#[trigger] victims@[k]).preemption_count < PREEMPTION_LIMIT,
                            ids_distinct(cluster.running_jobs@),
                        ensures
                            cluster.wf(),
                            cluster.clock == c0.clock,
                            cluster.finished_jobs == c0.finished_jobs,
                            cluster.tenant_quotas == c0.tenant_quotas,
                            cluster.failed_jobs == c0.failed_jobs,
                            cluster.waiting_queue@.len() == 0,
                            (cluster.running_jobs@ + ev + victims@).to_multiset() == c0.running_jobs@.to_multiset(),
                            forall|k: int| 0 <= k < victims@.len() ==> (#[trigger] victims@[k]).preemption_count < PREEMPTION_LIMIT,
                            res == (current(cluster, placements@, ev), victims@, placed),
                        decreases cluster.running_jobs@.len(),
                    {
                        let ghost cb = current(cluster, placements@, ev);
                        let v = match pick_victim(&cluster.running_jobs, job.priority) {
                            Some(v) => v,
                            None => {
                                proof {
                                    assert(!exists|i: int| first_victim(cb.2, job.priority, i));
                                }
                                break;
                            },
                        };
                        let ghost r0 = cluster.running_jobs@;
                        let id = cluster.running_jobs[v].id.clone();
                        proof {
                            let w = choose|w: int| first_victim(cb.2, job.priority, w);
                            lemma_first_victim_unique(cb.2, job.priority, w, v as int);
                            assert(r0[v as int].id@ == id@);
                            assert(has_job(r0, id@));
                        }
                        let ghost before = victims@;
                        match cluster.evict_job(id.as_str()) {
                            Some(victim) => {
                                proof {
                                    let k = choose|k: int|
                                        #![trigger r0[k]]
                                        first_job_index(r0, id@, k) && victim == r0[k] && cluster.running_jobs@ == r0.remove(k);
                                    lemma_distinct_index(r0, id@, k, v as int);
                                    assert(r0 =~= r0.remove(k).insert(k, victim));
                                    vstd::seq_lib::to_multiset_insert(r0.remove(k), k, victim);
                                    assert(cluster.running_jobs@ + ev + before.push(victim) =~= (cluster.running_jobs@ + ev
                                        + before).push(victim));
                                    assert((r0 + ev + before).to_multiset() =~= (cluster.running_jobs@ + ev + before).to_multiset().insert(
                                        victim,
                                    )) by {
                                        vstd::seq_lib::lemma_multiset_commutative(r0, ev + before);
                                        vstd::seq_lib::lemma_multiset_commutative(cluster.running_jobs@, ev + before);
                                        assert(r0 + ev + before =~= r0 + (ev + before));
                                        assert(cluster.running_jobs@ + ev + before =~= cluster.running_jobs@ + (ev + before));
                                    }
                                    assert(current(cluster, placements@, ev) == evict_in(cb, v as int));
                                }
                                victims.push(victim);
                                proof {
                                    vstd::seq_lib::to_multiset_build(cluster.running_jobs@ + ev + before, victim);
                                    assert(cluster.running_jobs@ + ev + victims@ =~= (cluster.running_jobs@ + ev + before).push(
                                        victim,
                                    ));
                                }
                            },
                            None => {
                                proof {
                                    assert(false);
                                }
                                break;
                            },
                        }
                        let ghost ce = current(cluster, placements@, ev);
                        let ghost pb = placements@;
                        match try_place(cluster, resource_manager, job) {
                            Some(p) => {
                                placements.push(p);
                                placed = true;
                                proof {
                                    assert(placements_view(placements@) =~= placements_view(pb).push(placement_view(p)));
                                    assert(current(cluster, placements@, ev) == place_in(resource_manager, ce, *job, c0.clock));
                                }
                                break;
                            },
                            None => {
                                assert(current(cluster, placements@, ev) == ce);
                            },
                        }
                    }
                    if placed {
                        let mut k: usize = 0;
                        let ghost ev0 = ev;
                        let ghost rq0 = requeued@;
                        let ghost after = current(cluster, placements@, ev);
                        while k < victims.len()
                            invariant
                                k <= victims@.len(),
                                ev == ev0 + victims@.take(k as int),
                                evicted_as(ev, requeued@, c0.clock),
                                forall|m: int| 0 <= m < victims@.len() ==> (#[trigger] victims@[m]).preemption_count < PREEMPTION_LIMIT,
                                cluster.clock == c0.clock,
                            decreases victims@.len() - k,
                        {
                            let mut victim = victims[k].duplicate();
                            let ghost original = victims@[k as int];
                            victim.requeue_after_preemption(cluster.clock);
                            let ghost before = requeued@;
                            requeued.push(victim);
                            proof {
                                assert(victims@.take(k as int + 1) =~= victims@.take(k as int).push(original));
                                ev = ev.push(original);
                                assert(evicted_as(ev, requeued@, c0.clock)) by {
                                    assert forall|m: int| 0 <= m < ev.len() implies (#[trigger] requeued@[m]).requeue_of(
                                        ev[m],
                                        c0.clock,
                                    ) && ev[m].preemption_count < PREEMPTION_LIMIT by {
                                        if m < before.len() {
                                            assert(requeued@[m] == before[m]);
                                        }
                                    }
                                }
                            }
                            k = k + 1;
                        }
                        proof {
                            assert(victims@.take(victims@.len() as int) =~= victims@);
                            assert(cluster.running_jobs@ + ev =~= cluster.running_jobs@ + ev0 + victims@);
                            assert(current(cluster, placements@, ev) == preempt_step(resource_manager, pst, quotas, *job, c0.clock));
                        }
                    } else {
                        let ghost target = restore(res.0, res.1);
                        while victims.len() > 0
                            invariant
                                cluster.wf(),
                                cluster.clock == c0.clock,
                                cluster.finished_jobs == c0.finished_jobs,
                                cluster.tenant_quotas == c0.tenant_quotas,
                                cluster.failed_jobs == c0.failed_jobs,
                                cluster.waiting_queue@.len() == 0,
                                (cluster.running_jobs@ + ev + victims@).to_multiset() == c0.running_jobs@.to_multiset(),
                                ids_distinct(c0.running_jobs@),
                                restore(current(cluster, placements@, ev), victims@) == target,
                            decreases victims@.len(),
                        {
                            let ghost r0 = cluster.running_jobs@;
                            let ghost vs = victims@;
                            let ghost cb = current(cluster, placements@, ev);
                            let victim = victims.pop().unwrap();
                            proof {
                                assert(vs =~= victims@.push(victim));
                                lemma_job_keys_perm(r0 + ev + vs, c0.running_jobs@);
                                lemma_distinct_keys(c0.running_jobs@, victim.id@);
                                lemma_job_keys_concat(r0 + ev, vs);
                                lemma_job_keys_concat(r0, ev);
                                lemma_job_keys_has(r0, victim.id@);
                                lemma_job_keys_has(vs, victim.id@);
                                assert(vs[vs.len() - 1] == victim);
                                assert(has_job(vs, victim.id@));
                            }
                            cluster.resume_evicted_job(victim);
                            proof {
                                assert(!has_job(r0, victim.id@));
                                assert(cluster.running_jobs@ + ev + victims@ =~= (r0 + ev + victims@).insert(
                                    r0.len() as int,
                                    victim,
                                ));
                                vstd::seq_lib::to_multiset_insert(r0 + ev + victims@, r0.len() as int, victim);
                                assert(r0 + ev + vs =~= (r0 + ev + victims@).push(victim));
                                vstd::seq_lib::to_multiset_build(r0 + ev + victims@, victim);
                                assert(vs.last() == victim);
                                assert(vs.drop_last() =~= victims@);
                                assert(current(cluster, placements@, ev) == (
                                    set_resources_job(cb.0, ids_view(victim.assigned_gpus@), Some(victim.id@)),
                                    cb.1,
                                    cb.2.push(victim),
                                    cb.3,
                                    cb.4,
                                ));
                            }
                        }
                        assert(cluster.running_jobs@ + ev + victims@ =~= cluster.running_jobs@ + ev);
                        assert(current(cluster, placements@, ev) == preempt_step(resource_manager, pst, quotas, *job, c0.clock));
                    }
                },
            }
            i = i + 1;
        }
        assert(sorted.take(sorted.len() as int) =~= sorted);
        let ghost pass = current(cluster, placements@, ev);
        std::mem::swap(&mut waiting, &mut cluster.waiting_queue);
        let ghost rq = requeued@;
        cluster.waiting_queue.append(&mut requeued);
        let ghost pass_nv = cluster.resources();
        let mut k: usize = 0;
        while k < placements.len()
            invariant
                k <= placements@.len(),
                cluster.wf(),
                cluster.clock == c0.clock,
                cluster.finished_jobs == c0.finished_jobs,
                cluster.tenant_quotas == c0.tenant_quotas,
                cluster.failed_jobs == c0.failed_jobs,
                cluster.waiting_queue@ == sorted + rq,
                cluster.running_jobs@ == pass.2,
                cluster.mig_reconfigs == pass.1,
                (cluster.running_jobs@ + ev).to_multiset() == c0.running_jobs@.to_multiset(),
                cluster.resources() == set_resources_job(pass_nv, all_ids(placements_view(placements@).take(k as int)), None),
            decreases placements@.len() - k,
        {
            let ghost pv = placements_view(placements@);
            assert(pv.take(k as int + 1).drop_last() =~= pv.take(k as int));
            proof {
                lemma_set_resources_concat(pass_nv, all_ids(pv.take(k as int)), pv[k as int].1, None);
            }
            cluster.mark_all(placements[k].gpu_ids.as_slice(), "", None);
            k = k + 1;
        }
        proof {
            assert(placements_view(placements@).take(placements@.len() as int) =~= placements_view(placements@));
            vstd::seq_lib::lemma_multiset_commutative(sorted, rq);
            vstd::seq_lib::lemma_multiset_commutative(c0.waiting_queue@, rq);
            assert(evicted_as(ev, rq, c0.clock));
        }
        placements
    }
}

/// A preemptive pass starts from the cluster's nodes, repartition count and
/// running jobs, with nothing placed or evicted.
pub open spec fn start_state(c: &Cluster) -> PassState {
    (c.resources(), c.mig_reconfigs, c.running_jobs@, Seq::empty(), Seq::empty())
}

/// The pass state the cluster, the placements so far and the jobs evicted
/// for good stand for.
pub open spec fn current(c: &Cluster, ps: Seq<Placement>, ev: Seq<Job>) -> PassState {
    (c.resources(), c.mig_reconfigs, c.running_jobs@, placements_view(ps), ev)
}

impl Scheduler for PreemptivePriorityScheduler {
    /// One preemptive pass (see `spec_schedule`).
    open spec fn schedules(&self, next: &Self, c0: &Cluster, rm: &ResourceManager, c1: &Cluster, ps: Seq<Placement>) -> bool {
        Self::spec_schedule(rm, c0, c1, ps)
    }

    fn schedule(&mut self, cluster: &mut Cluster, resource_manager: &ResourceManager) -> (placements: Vec<Placement>) {
        self.schedule_preemptive(cluster, resource_manager)
    }
}

} // verus!
