//! The discrete-event simulation engine.

use vstd::prelude::*;
use crate::cluster::{
    find_job, finished_from, first_job_index, has_job, running_after_start, set_resources_job, started_from, Cluster,
};
use crate::resource::{sat_add, sat_inc};
use crate::strings::ids_view;
use crate::events::{earliest, Event, EventKind, EventQueue};
use crate::models::{Job, JobState, Placement, PREEMPTION_LIMIT};
use crate::resource::ResourceManager;
use crate::sorting::sort_by_arrival;
use vstd::multiset::Multiset;

verus! {

/// A scheduling policy. Given the cluster, it returns the placements to
/// start now. It may reorder the waiting queue, repartition GPUs and evict
/// running jobs (see `only_evictions`), but otherwise neither adds nor
/// removes jobs, and it leaves the finished and failed jobs and the clock as
/// they are.
pub trait Scheduler: Sized {
    /// What one call of `schedule` may do: from scheduler `self` and
    /// cluster `c0`, with resource manager `rm`, to scheduler `next`,
    /// cluster `c1` and placements `ps`. A policy that does not define it
    /// promises nothing beyond the other clauses of `schedule`.
    open spec fn schedules(&self, next: &Self, c0: &Cluster, rm: &ResourceManager, c1: &Cluster, ps: Seq<Placement>) -> bool {
        true
    }

    fn schedule(&mut self, cluster: &mut Cluster, resource_manager: &ResourceManager) -> (placements: Vec<Placement>)
        requires
            old(cluster).wf(),
        ensures
            old(self).schedules(final(self), old(cluster), resource_manager, final(cluster), placements@),
            final(cluster).wf(),
            only_evictions(old(cluster), final(cluster)),
            final(cluster).finished_jobs == old(cluster).finished_jobs,
            final(cluster).failed_jobs == old(cluster).failed_jobs,
            final(cluster).clock == old(cluster).clock,
    ;
}

/// From `c0` to `c1` the only jobs that moved are evicted ones: jobs `ev`
/// of `c0`'s running jobs, each evicted fewer than `PREEMPTION_LIMIT` times,
/// left the running jobs and rejoined the waiting queue as `rq`, requeued at
/// the clock (`Job::requeue_of`); the waiting queue may be reordered.
pub open spec fn only_evictions(c0: &Cluster, c1: &Cluster) -> bool {
    exists|ev: Seq<Job>, rq: Seq<Job>|
        #[trigger] evicted_as(ev, rq, c0.clock) && {
            &&& (c1.running_jobs@ + ev).to_multiset() == c0.running_jobs@.to_multiset()
            &&& c1.waiting_queue@.to_multiset() == (c0.waiting_queue@ + rq).to_multiset()
        }
}

/// `rq` are the jobs `ev`, each evicted fewer than `PREEMPTION_LIMIT`
/// times, requeued at `now`.
pub open spec fn evicted_as(ev: Seq<Job>, rq: Seq<Job>, now: u64) -> bool {
    &&& ev.len() == rq.len()
    &&& forall|k: int|
        0 <= k < ev.len() ==> (#[trigger] rq[k]).requeue_of(ev[k], now) && ev[k].preemption_count < PREEMPTION_LIMIT
}

/// A scheduler that evicts nothing and keeps the waiting jobs meets
/// `only_evictions`.
pub proof fn lemma_no_evictions(c0: &Cluster, c1: &Cluster)
    requires
        c1.running_jobs == c0.running_jobs,
        c1.waiting_queue@.to_multiset() == c0.waiting_queue@.to_multiset(),
    ensures
        only_evictions(c0, c1),
{
    let e = Seq::<Job>::empty();
    assert(c1.running_jobs@ + e =~= c0.running_jobs@);
    assert(c0.waiting_queue@ + e =~= c0.waiting_queue@);
    assert(evicted_as(e, e, c0.clock));
}

/// Evictions a job has left before it is exempt.
pub open spec fn evictions_left(j: Job) -> nat {
    if j.preemption_count < PREEMPTION_LIMIT {
        (PREEMPTION_LIMIT - j.preemption_count) as nat
    } else {
        0
    }
}

/// Evictions the jobs have left, together.
pub open spec fn budget(jobs: Seq<Job>) -> nat
    decreases jobs.len(),
{
    if jobs.len() == 0 {
        0
    } else {
        budget(jobs.drop_last()) + evictions_left(jobs.last())
    }
}

proof fn lemma_budget_concat(a: Seq<Job>, b: Seq<Job>)
    ensures
        budget(a + b) == budget(a) + budget(b),
    decreases b.len(),
{
    if b.len() == 0 {
        assert(a + b =~= a);
    } else {
        lemma_budget_concat(a, b.drop_last());
        assert((a + b).drop_last() =~= a + b.drop_last());
    }
}

proof fn lemma_budget_one(x: Job)
    ensures
        budget(seq![x]) == evictions_left(x),
{
    assert(seq![x].drop_last() =~= Seq::<Job>::empty());
    assert(seq![x].last() == x);
    assert(budget(Seq::<Job>::empty()) == 0);
}

proof fn lemma_budget_remove(s: Seq<Job>, i: int)
    requires
        0 <= i < s.len(),
    ensures
        budget(s.remove(i)) + evictions_left(s[i]) == budget(s),
{
    assert(s =~= s.take(i) + (seq![s[i]] + s.skip(i + 1)));
    assert(s.remove(i) =~= s.take(i) + s.skip(i + 1));
    lemma_budget_concat(s.take(i), seq![s[i]] + s.skip(i + 1));
    lemma_budget_concat(seq![s[i]], s.skip(i + 1));
    lemma_budget_concat(s.take(i), s.skip(i + 1));
    lemma_budget_one(s[i]);
}

proof fn lemma_budget_perm(a: Seq<Job>, b: Seq<Job>)
    requires
        a.to_multiset() == b.to_multiset(),
    ensures
        budget(a) == budget(b),
    decreases a.len(),
{
    broadcast use vstd::seq_lib::group_to_multiset_ensures;
    broadcast use vstd::multiset::group_multiset_axioms;
    if a.len() == 0 {
        assert(b.to_multiset().len() == 0);
    } else {
        let x = a.last();
        let a1 = a.drop_last();
        assert(a =~= a1.push(x));
        assert(b.to_multiset().count(x) > 0);
        assert(b.contains(x));
        let j = choose|j: int| 0 <= j < b.len() && b[j] == x;
        let b1 = b.remove(j);
        assert(a1.to_multiset() =~= b1.to_multiset());
        lemma_budget_perm(a1, b1);
        lemma_budget_remove(b, j);
    }
}

proof fn lemma_budget_requeue(ev: Seq<Job>, rq: Seq<Job>, now: u64)
    requires
        evicted_as(ev, rq, now),
    ensures
        budget(rq) + rq.len() == budget(ev),
    decreases ev.len(),
{
    if ev.len() > 0 {
        let k = ev.len() - 1;
        assert(rq[k].requeue_of(ev[k], now));
        assert(evicted_as(ev.drop_last(), rq.drop_last(), now)) by {
            assert forall|m: int| 0 <= m < ev.drop_last().len() implies (#[trigger] rq.drop_last()[m]).requeue_of(
                ev.drop_last()[m],
                now,
            ) && ev.drop_last()[m].preemption_count < PREEMPTION_LIMIT by {
                assert(rq.drop_last()[m] == rq[m]);
                assert(rq[m].requeue_of(ev[m], now));
            }
        }
        lemma_budget_requeue(ev.drop_last(), rq.drop_last(), now);
    }
}

pub proof fn lemma_job_keys_concat(a: Seq<Job>, b: Seq<Job>)
    ensures
        job_keys(a + b) == job_keys(a).add(job_keys(b)),
{
    assert((a + b).map_values(|j: Job| Some(j.id@)) =~= a.map_values(|j: Job| Some(j.id@)) + b.map_values(
        |j: Job| Some(j.id@),
    ));
    vstd::seq_lib::lemma_multiset_commutative(a.map_values(|j: Job| Some(j.id@)), b.map_values(|j: Job| Some(j.id@)));
}

proof fn lemma_job_keys_requeue(ev: Seq<Job>, rq: Seq<Job>, now: u64)
    requires
        evicted_as(ev, rq, now),
    ensures
        job_keys(rq) == job_keys(ev),
{
    assert forall|k: int| 0 <= k < ev.len() implies rq[k].id@ == ev[k].id@ by {
        assert(rq[k].requeue_of(ev[k], now));
    }
    assert(rq.map_values(|j: Job| Some(j.id@)) =~= ev.map_values(|j: Job| Some(j.id@)));
}

/// What evictions leave: the running jobs are among the old ones, the ids
/// held by waiting and running jobs together are kept, and the work left
/// does not grow (each eviction spends one of the job's evictions).
proof fn lemma_evictions(c0: Cluster, c1: Cluster)
    requires
        only_evictions(&c0, &c1),
    ensures
        forall|a: int| 0 <= a < c1.running_jobs@.len() ==> c0.running_jobs@.contains(#[trigger] c1.running_jobs@[a]),
        job_keys(c1.waiting_queue@).add(job_keys(c1.running_jobs@)) == job_keys(c0.waiting_queue@).add(
            job_keys(c0.running_jobs@),
        ),
        2 * c1.waiting_queue@.len() + 3 * (budget(c1.waiting_queue@) + budget(c1.running_jobs@)) <= 2
            * c0.waiting_queue@.len() + 3 * (budget(c0.waiting_queue@) + budget(c0.running_jobs@)),
{
    broadcast use vstd::seq_lib::group_to_multiset_ensures;
    broadcast use vstd::multiset::group_multiset_axioms;
    let (ev, rq) = choose|ev: Seq<Job>, rq: Seq<Job>|
        #[trigger] evicted_as(ev, rq, c0.clock) && {
            &&& (c1.running_jobs@ + ev).to_multiset() == c0.running_jobs@.to_multiset()
            &&& c1.waiting_queue@.to_multiset() == (c0.waiting_queue@ + rq).to_multiset()
        };
    let r1 = c1.running_jobs@;
    let r0 = c0.running_jobs@;
    assert forall|a: int| 0 <= a < r1.len() implies r0.contains(#[trigger] r1[a]) by {
        assert((r1 + ev)[a] == r1[a]);
        assert((r1 + ev).contains(r1[a]));
        assert((r1 + ev).to_multiset().count(r1[a]) > 0);
    }
    lemma_budget_perm(r1 + ev, r0);
    lemma_budget_concat(r1, ev);
    lemma_budget_perm(c1.waiting_queue@, c0.waiting_queue@ + rq);
    lemma_budget_concat(c0.waiting_queue@, rq);
    lemma_budget_requeue(ev, rq, c0.clock);
    vstd::seq_lib::to_multiset_len(c1.waiting_queue@);
    vstd::seq_lib::to_multiset_len(c0.waiting_queue@ + rq);
    lemma_job_keys_perm(r1 + ev, r0);
    lemma_job_keys_concat(r1, ev);
    lemma_job_keys_perm(c1.waiting_queue@, c0.waiting_queue@ + rq);
    lemma_job_keys_concat(c0.waiting_queue@, rq);
    lemma_job_keys_requeue(ev, rq, c0.clock);
    assert(job_keys(c1.waiting_queue@).add(job_keys(r1)) =~= job_keys(c0.waiting_queue@).add(job_keys(r0)));
}

/// Starting a waiting job spends none of its evictions and may drop a
/// replaced running job's.
proof fn lemma_start_budget(w: Seq<Job>, k: int, r0: Seq<Job>, r1: Seq<Job>, job: Job, ids: Seq<String>, t: u64)
    requires
        0 <= k < w.len(),
        job.preemption_count == w[k].preemption_count,
        crate::cluster::running_after_start(r0, r1, job, ids, t),
    ensures
        budget(w.remove(k)) + budget(r1) <= budget(w) + budget(r0),
{
    lemma_budget_remove(w, k);
    if has_job(r0, job.id@) {
        let i = choose|i: int|
            #![trigger r0[i]]
            {
                &&& first_job_index(r0, job.id@, i)
                &&& r1.len() == r0.len()
                &&& crate::cluster::started_from(r1[i], job, ids, t)
                &&& forall|j: int| 0 <= j < r0.len() && j != i ==> r1[j] == r0[j]
            };
        assert(r1 =~= r0.update(i, r1[i]));
        lemma_budget_remove(r0, i);
        lemma_budget_remove(r1, i);
        assert(r0.remove(i) =~= r1.remove(i));
    } else {
        assert(r1 =~= r0.push(r1.last()));
        lemma_budget_concat(r0, seq![r1.last()]);
        assert(r0 + seq![r1.last()] =~= r1);
        lemma_budget_one(r1.last());
    }
}

/// A completion for job `id` at run generation `generation` is live when
/// the first running job with that id runs that generation.
pub open spec fn live_completion(running: Seq<Job>, id: Seq<char>, generation: u32) -> bool {
    exists|i: int| first_job_index(running, id, i) && running[i].run_generation == generation
}

/// `e` completes the current run of `j`.
pub open spec fn is_completion_of(e: Event, j: Job) -> bool {
    &&& e.kind == EventKind::JobComplete
    &&& e.job_id@ == j.id@
    &&& e.run_generation == j.run_generation
}

/// A completion of the current run of `j` is queued.
pub open spec fn completion_queued(events: Seq<Event>, j: Job) -> bool {
    exists|k: int| 0 <= k < events.len() && is_completion_of(#[trigger] events[k], j)
}

/// An arrival event counts for its job id; other events count for nothing.
pub open spec fn arrival_key(e: Event) -> Option<Seq<char>> {
    if e.kind == EventKind::JobArrival {
        Some(e.job_id@)
    } else {
        None
    }
}

pub open spec fn arrival_keys(events: Seq<Event>) -> Multiset<Option<Seq<char>>> {
    events.map_values(|e: Event| arrival_key(e)).to_multiset()
}

pub open spec fn job_keys(jobs: Seq<Job>) -> Multiset<Option<Seq<char>>> {
    jobs.map_values(|j: Job| Some(j.id@)).to_multiset()
}

/// The ids of the jobs a cluster holds: waiting, running, finished and
/// failed.
pub open spec fn cluster_keys(c: Cluster) -> Multiset<Option<Seq<char>>> {
    job_keys(c.waiting_queue@).add(job_keys(c.running_jobs@)).add(job_keys(c.finished_jobs@)).add(
        job_keys(c.failed_jobs@),
    )
}

/// No id occurs twice.
pub open spec fn keys_unique(m: Multiset<Option<Seq<char>>>) -> bool {
    forall|x: Option<Seq<char>>| #[trigger] m.count(x) <= 1
}

pub proof fn lemma_job_keys_push(s: Seq<Job>, j: Job)
    ensures
        job_keys(s.push(j)) == job_keys(s).insert(Some(j.id@)),
{
    broadcast use vstd::seq_lib::group_to_multiset_ensures;
    assert(s.push(j).map_values(|j: Job| Some(j.id@)) =~= s.map_values(|j: Job| Some(j.id@)).push(Some(j.id@)));
}

pub proof fn lemma_job_keys_remove(s: Seq<Job>, i: int)
    requires
        0 <= i < s.len(),
    ensures
        job_keys(s.remove(i)) == job_keys(s).remove(Some(s[i].id@)),
{
    broadcast use vstd::seq_lib::group_to_multiset_ensures;
    let keys = s.map_values(|j: Job| Some(j.id@));
    assert(s.remove(i).map_values(|j: Job| Some(j.id@)) =~= keys.remove(i));
    vstd::seq_lib::to_multiset_remove(keys, i);
}

/// A sequence holds a job with id `id` exactly when its keys count `id`.
pub proof fn lemma_job_keys_has(s: Seq<Job>, id: Seq<char>)
    ensures
        has_job(s, id) <==> job_keys(s).count(Some(id)) > 0,
{
    broadcast use vstd::seq_lib::group_to_multiset_ensures;
    let keys = s.map_values(|j: Job| Some(j.id@));
    if has_job(s, id) {
        let i = choose|i: int| 0 <= i < s.len() && (#[trigger] s[i]).id@ == id;
        assert(keys[i] == Some(id));
        assert(keys.contains(Some(id)));
    }
    if keys.contains(Some(id)) {
        let i = choose|i: int| 0 <= i < keys.len() && keys[i] == Some(id);
        assert(s[i].id@ == id);
    }
}

/// Two sequences with the same jobs have the same keys.
pub proof fn lemma_job_keys_perm(a: Seq<Job>, b: Seq<Job>)
    requires
        a.to_multiset() == b.to_multiset(),
    ensures
        job_keys(a) == job_keys(b),
    decreases a.len(),
{
    broadcast use vstd::seq_lib::group_to_multiset_ensures;
    broadcast use vstd::multiset::group_multiset_axioms;
    if a.len() == 0 {
        assert(b.to_multiset().len() == 0);
        assert(a.map_values(|j: Job| Some(j.id@)) =~= Seq::empty());
        assert(b.map_values(|j: Job| Some(j.id@)) =~= Seq::empty());
    } else {
        let x = a.last();
        let a1 = a.drop_last();
        assert(a =~= a1.push(x));
        assert(b.to_multiset().count(x) > 0);
        assert(b.contains(x));
        let j = choose|j: int| 0 <= j < b.len() && b[j] == x;
        let b1 = b.remove(j);
        assert(a1.to_multiset() =~= b1.to_multiset());
        lemma_job_keys_perm(a1, b1);
        lemma_job_keys_push(a1, x);
        lemma_job_keys_remove(b, j);
        lemma_job_keys_has(b, x.id@);
        assert(has_job(b, x.id@));
        assert(job_keys(a) =~= job_keys(b));
    }
}

/// A gang job with a timeout arms that timeout when it arrives.
pub open spec fn arms_timeout(j: Job) -> bool {
    j.gang_enabled && j.gang_timeout_secs is Some
}

/// `e` is the timeout of job `j` armed at `now`: it fires once the job's
/// timeout has passed (at the end of time when that overflows).
pub open spec fn is_timeout_for(e: Event, j: Job, now: u64) -> bool {
    &&& e.kind == EventKind::GangTimeout
    &&& e.job_id@ == j.id@
    &&& e.time == sat_add(now, j.gang_timeout_secs->0)
}

/// The arrival event of job `j`, for `submit_jobs`.
pub open spec fn is_arrival_of(e: Event, j: Job) -> bool {
    &&& e.time == j.arrival_time
    &&& e.kind == EventKind::JobArrival
    &&& e.job_id@ == j.id@
    &&& e.run_generation == 0
}

/// Drives a cluster through job arrivals, completions and gang timeouts, asking the
/// scheduler for placements after each.
pub struct SimulationEngine<S: Scheduler> {
    pub cluster: Cluster,
    pub resource_manager: ResourceManager,
    pub scheduler: S,
    /// Events not yet processed.
    pub event_queue: EventQueue,
    /// Submitted jobs that have not arrived yet.
    pub pending_arrivals: Vec<Job>,
}

impl<S: Scheduler> SimulationEngine<S> {
    /// Events not yet processed.
    pub open spec fn queued_events(&self) -> Seq<Event> {
        self.event_queue.events@
    }

    /// Submitted jobs that have not arrived yet.
    pub open spec fn pending(&self) -> Seq<Job> {
        self.pending_arrivals@
    }

    /// The engine's invariant: the cluster is well formed, and for every
    /// job id there are as many queued arrival events as pending jobs.
    pub open spec fn inv(&self) -> bool {
        &&& self.cluster.wf()
        &&& forall|x: Seq<char>|
            #![trigger arrival_keys(self.queued_events()).count(Some(x))]
            arrival_keys(self.queued_events()).count(Some(x)) == job_keys(self.pending()).count(Some(x))
    }

    /// Every running job has a completion of its current run queued.
    pub open spec fn runs_tracked(&self) -> bool {
        forall|i: int|
            0 <= i < self.cluster.running_jobs@.len() ==> completion_queued(
                self.queued_events(),
                #[trigger] self.cluster.running_jobs@[i],
            )
    }

    /// Every running job other than a run of job `id` at `generation` has a
    /// completion of its current run queued.
    pub open spec fn runs_tracked_except(&self, id: Seq<char>, generation: u32) -> bool {
        forall|i: int|
            0 <= i < self.cluster.running_jobs@.len() ==> completion_queued(
                self.queued_events(),
                #[trigger] self.cluster.running_jobs@[i],
            ) || (self.cluster.running_jobs@[i].id@ == id && self.cluster.running_jobs@[i].run_generation
                == generation)
    }

    /// Work left: each queued event counts once, each pending job three
    /// times, each waiting job twice, and each eviction a pending, waiting or
    /// running job has left three times.
    pub open spec fn measure(&self) -> nat {
        self.queued_events().len() + 3 * self.pending().len() + 2 * self.cluster.waiting_queue@.len() + 3 * (budget(
            self.pending(),
        ) + budget(self.cluster.waiting_queue@) + budget(self.cluster.running_jobs@))
    }

    pub fn new(cluster: Cluster, scheduler: S) -> (e: Self)
        requires
            cluster.wf(),
        ensures
            e.inv(),
            e.cluster == cluster,
            e.scheduler == scheduler,
            e.resource_manager.mig_registry is None,
            e.queued_events().len() == 0,
            e.pending().len() == 0,
            cluster.running_jobs@.len() == 0 ==> e.runs_tracked(),
    {
        Self::with_resource_manager(cluster, scheduler, ResourceManager::new())
    }

    pub fn with_resource_manager(cluster: Cluster, scheduler: S, resource_manager: ResourceManager) -> (e: Self)
        requires
            cluster.wf(),
        ensures
            e.inv(),
            e.cluster == cluster,
            e.scheduler == scheduler,
            e.resource_manager == resource_manager,
            e.queued_events().len() == 0,
            e.pending().len() == 0,
            cluster.running_jobs@.len() == 0 ==> e.runs_tracked(),
    {
        let e = SimulationEngine {
            cluster,
            resource_manager,
            scheduler,
            event_queue: EventQueue::new(),
            pending_arrivals: Vec::new(),
        };
        proof {
            assert(e.queued_events().map_values(|ev: Event| arrival_key(ev)) =~= Seq::empty());
            assert(e.pending().map_values(|j: Job| Some(j.id@)) =~= Seq::empty());
            broadcast use vstd::seq_lib::group_to_multiset_ensures;
        }
        e
    }

    /// Submits jobs: they arrive in arrival order (stable for equal times),
    /// each with an arrival event at its arrival time.
    pub fn submit_jobs(&mut self, jobs: Vec<Job>)
        requires
            old(self).inv(),
        ensures
            final(self).inv(),
            final(self).pending() == old(self).pending() + sort_by_arrival(jobs@),
            final(self).queued_events().len() == old(self).queued_events().len() + jobs@.len(),
            final(self).queued_events().take(old(self).queued_events().len() as int) == old(self).queued_events(),
            forall|k: int| 0 <= k < jobs@.len() ==> is_arrival_of(
                #[trigger] final(self).queued_events()[old(self).queued_events().len() + k],
                sort_by_arrival(jobs@)[k],
            ),
            final(self).cluster == old(self).cluster,
            final(self).resource_manager == old(self).resource_manager,
            final(self).scheduler == old(self).scheduler,
            old(self).runs_tracked() ==> final(self).runs_tracked(),
    {
        let ghost e0 = self.queued_events();
        let ghost p0 = self.pending();
        proof {
            crate::sorting::lemma_sort_by_arrival(jobs@);
        }
        let sorted = crate::sorting::sort_jobs_by_arrival(jobs);
        let ghost sv = sorted@;
        let total = sorted.len();
        let mut remaining = sorted;
        let mut k: usize = 0;
        while remaining.len() > 0
            invariant
                self.cluster == old(self).cluster,
                self.resource_manager == old(self).resource_manager,
                self.scheduler == old(self).scheduler,
                self.cluster.wf(),
                k <= sv.len(),
                sv.len() == total,
                remaining@ == sv.skip(k as int),
                self.pending() == p0 + sv.take(k as int),
                self.queued_events().len() == e0.len() + k,
                self.queued_events().take(e0.len() as int) == e0,
                forall|m: int| 0 <= m < k ==> is_arrival_of(#[trigger] self.queued_events()[e0.len() + m], sv[m]),
                forall|x: Seq<char>|
                    #![trigger arrival_keys(self.queued_events()).count(Some(x))]
                    arrival_keys(self.queued_events()).count(Some(x)) == job_keys(self.pending()).count(Some(x)),
            decreases remaining@.len(),
        {
            let job = remaining.remove(0);
            assert(job == sv[k as int]);
            assert(remaining@ =~= sv.skip(k as int + 1));
            let ghost ev0 = self.queued_events();
            let ghost pv0 = self.pending();
            let event = Event { time: job.arrival_time, kind: EventKind::JobArrival, job_id: job.id.clone(), run_generation: 0 };
            self.event_queue.push(event);
            self.pending_arrivals.push(job);
            proof {
                broadcast use vstd::seq_lib::to_multiset_build;
                broadcast use vstd::multiset::group_multiset_axioms;
                assert(self.queued_events().map_values(|ev: Event| arrival_key(ev))
                    =~= ev0.map_values(|ev: Event| arrival_key(ev)).push(arrival_key(event)));
                assert(self.pending().map_values(|j: Job| Some(j.id@))
                    =~= pv0.map_values(|j: Job| Some(j.id@)).push(Some(job.id@)));
                assert(arrival_keys(self.queued_events()) == arrival_keys(ev0).insert(Some(job.id@)));
                assert(job_keys(self.pending()) == job_keys(pv0).insert(Some(job.id@)));
                assert forall|x: Seq<char>|
                    #![trigger arrival_keys(self.queued_events()).count(Some(x))]
                    arrival_keys(self.queued_events()).count(Some(x)) == job_keys(self.pending()).count(Some(x)) by {
                    assert(arrival_keys(ev0).count(Some(x)) == job_keys(pv0).count(Some(x)));
                }
                assert(sv.take(k as int + 1) =~= sv.take(k as int).push(job));
                assert(self.pending() =~= p0 + sv.take(k as int + 1));
                assert(self.queued_events().take(e0.len() as int) =~= e0);
            }
            k = k + 1;
        }
        assert(sv.take(k as int) =~= sv);
        proof {
            if old(self).runs_tracked() {
                let q = self.queued_events();
                let rj = self.cluster.running_jobs@;
                assert forall|a: int| 0 <= a < rj.len() implies completion_queued(q, #[trigger] rj[a]) by {
                    assert(rj[a] == old(self).cluster.running_jobs@[a]);
                    assert(completion_queued(e0, rj[a]));
                    let k = choose|k: int| 0 <= k < e0.len() && is_completion_of(#[trigger] e0[k], rj[a]);
                    assert(q.take(e0.len() as int)[k] == q[k]);
                }
            }
        }
    }

    /// The invariant with one arrival event for `id` already taken off the queue.
    pub open spec fn inv_after_pop(&self, id: Seq<char>) -> bool {
        &&& self.cluster.wf()
        &&& forall|x: Seq<char>|
            #![trigger arrival_keys(self.queued_events()).count(Some(x))]
            arrival_keys(self.queued_events()).count(Some(x)) + (if x == id { 1nat } else { 0nat })
                == job_keys(self.pending()).count(Some(x))
    }

    /// The ids of every job the engine holds: pending, waiting, running and
    /// finished.
    pub open spec fn all_keys(&self) -> Multiset<Option<Seq<char>>> {
        job_keys(self.pending()).add(cluster_keys(self.cluster))
    }

    /// Starting placement `p` takes the engine from `self` to `next`. When
    /// a job with the placement's id waits, the first such job leaves the
    /// queue and starts, in its next run generation, on the placement's
    /// resources at the placement's start time, and a completion of that run
    /// is queued at the start time plus its remaining run time. Otherwise nothing
    /// changes.
    pub open spec fn placement_started(&self, p: Placement, next: &Self) -> bool {
        let w = self.cluster.waiting_queue@;
        if has_job(w, p.job_id@) {
            exists|i: int|
                #![trigger w[i]]
                {
                    let job = Job { run_generation: sat_inc(w[i].run_generation), ..w[i] };
                    &&& first_job_index(w, p.job_id@, i)
                    &&& next.cluster.waiting_queue@ == w.remove(i)
                    &&& next.cluster.resources() == set_resources_job(
                        self.cluster.resources(),
                        ids_view(p.gpu_ids@),
                        Some(job.id@),
                    )
                    &&& running_after_start(
                        self.cluster.running_jobs@,
                        next.cluster.running_jobs@,
                        job,
                        p.gpu_ids@,
                        p.start_time,
                    )
                    &&& next.cluster.finished_jobs == self.cluster.finished_jobs
                    &&& next.cluster.clock == self.cluster.clock
                    &&& next.cluster.mig_reconfigs == self.cluster.mig_reconfigs
                    &&& next.cluster.tenant_quotas == self.cluster.tenant_quotas
                    &&& next.cluster.failed_jobs == self.cluster.failed_jobs
                    &&& next.queued_events() == self.queued_events().push(
                        Event {
                            time: sat_add(p.start_time, job.spec_duration_remaining()),
                            kind: EventKind::JobComplete,
                            job_id: job.id,
                            run_generation: job.run_generation,
                        },
                    )
                    &&& next.pending_arrivals == self.pending_arrivals
                    &&& next.scheduler == self.scheduler
                    &&& next.resource_manager == self.resource_manager
                }
        } else {
            *next == *self
        }
    }

    /// Starting the placements `ps` in order takes the engine from `self`
    /// to `last`.
    pub open spec fn placements_started(&self, ps: Seq<Placement>, last: &Self) -> bool
        decreases ps.len(),
    {
        if ps.len() == 0 {
            *last == *self
        } else {
            exists|mid: Self| self.placements_started(ps.drop_last(), &mid) && mid.placement_started(ps.last(), last)
        }
    }

    /// Starting a placement keeps every job the engine holds, when no id
    /// occurs twice.
    pub proof fn lemma_placement_keeps_keys(e: Self, p: Placement, next: Self)
        requires
            e.placement_started(p, &next),
            keys_unique(e.all_keys()),
        ensures
            next.all_keys() == e.all_keys(),
    {
        broadcast use vstd::multiset::group_multiset_axioms;
        let w = e.cluster.waiting_queue@;
        if has_job(w, p.job_id@) {
            let r0 = e.cluster.running_jobs@;
            let r1 = next.cluster.running_jobs@;
            let i = choose|i: int|
                #![trigger w[i]]
                {
                    &&& first_job_index(w, p.job_id@, i)
                    &&& next.cluster.waiting_queue@ == w.remove(i)
                    &&& running_after_start(
                        r0,
                        r1,
                        Job { run_generation: sat_inc(w[i].run_generation), ..w[i] },
                        p.gpu_ids@,
                        p.start_time,
                    )
                    &&& next.cluster.finished_jobs == e.cluster.finished_jobs
                    &&& next.pending_arrivals == e.pending_arrivals
                };
            let id = w[i].id@;
            lemma_job_keys_remove(w, i);
            lemma_job_keys_has(w, id);
            lemma_job_keys_has(r0, id);
            if has_job(r0, id) {
                assert(e.all_keys().count(Some(id)) >= 2);
                assert(false);
            }
            assert(r1 =~= r0.push(r1.last()));
            lemma_job_keys_push(r0, r1.last());
            assert(next.all_keys() =~= e.all_keys());
        }
    }

    /// One scheduling round takes the engine from `self` to `next`: asked on
    /// `self`'s cluster, the scheduler moves to `s1` with cluster `c1` and
    /// placements `ps`, as its `schedules` allows, and the placements are
    /// started in order.
    pub open spec fn schedule_step(&self, next: &Self) -> bool {
        exists|s1: S, c1: Cluster, ps: Seq<Placement>|
            #![trigger self.scheduler.schedules(&s1, &self.cluster, &self.resource_manager, &c1, ps)]
            {
                &&& self.scheduler.schedules(&s1, &self.cluster, &self.resource_manager, &c1, ps)
                &&& (SimulationEngine { cluster: c1, scheduler: s1, ..*self }).placements_started(ps, next)
            }
    }

    /// Job `id` arrives, taking the engine from `self` to `next`: the first
    /// pending job with that id leaves the pending jobs and joins the end of
    /// the waiting queue as waiting, and when it is a gang job with a timeout
    /// its timeout is queued (see `is_timeout_for`); nothing else changes.
    pub open spec fn arrived(&self, id: Seq<char>, next: &Self) -> bool {
        exists|i: int|
            #![trigger self.pending_arrivals@[i]]
            {
                &&& first_job_index(self.pending(), id, i)
                &&& next.pending() == self.pending().remove(i)
                &&& next.cluster.waiting_queue@ == self.cluster.waiting_queue@.push(
                    Job { state: JobState::Waiting, ..self.pending_arrivals@[i] },
                )
                &&& next.cluster.nodes == self.cluster.nodes
                &&& next.cluster.running_jobs == self.cluster.running_jobs
                &&& next.cluster.finished_jobs == self.cluster.finished_jobs
                &&& next.cluster.clock == self.cluster.clock
                &&& next.cluster.mig_reconfigs == self.cluster.mig_reconfigs
                &&& next.cluster.tenant_quotas == self.cluster.tenant_quotas
                &&& next.cluster.failed_jobs == self.cluster.failed_jobs
                &&& if arms_timeout(self.pending_arrivals@[i]) {
                    &&& next.queued_events().len() == self.queued_events().len() + 1
                    &&& next.queued_events().drop_last() == self.queued_events()
                    &&& is_timeout_for(next.queued_events().last(), self.pending_arrivals@[i], self.cluster.clock)
                } else {
                    next.event_queue == self.event_queue
                }
                &&& next.scheduler == self.scheduler
                &&& next.resource_manager == self.resource_manager
            }
    }

    /// A live completion of job `id` takes the engine from `self` to `next`:
    /// the first running job with that id leaves the running jobs, the
    /// resources it held are freed, and it is appended to the finished jobs,
    /// finished at the clock; nothing else changes.
    pub open spec fn completed(&self, id: Seq<char>, next: &Self) -> bool {
        let r = self.cluster.running_jobs@;
        let f = self.cluster.finished_jobs@;
        exists|i: int|
            #![trigger r[i]]
            {
                &&& first_job_index(r, id, i)
                &&& next.cluster.running_jobs@ == r.remove(i)
                &&& next.cluster.finished_jobs@.len() == f.len() + 1
                &&& next.cluster.finished_jobs@.take(f.len() as int) == f
                &&& finished_from(next.cluster.finished_jobs@.last(), r[i], self.cluster.clock)
                &&& next.cluster.resources() == set_resources_job(
                    self.cluster.resources(),
                    ids_view(r[i].assigned_gpus@),
                    None,
                )
                &&& next.cluster.waiting_queue == self.cluster.waiting_queue
                &&& next.cluster.clock == self.cluster.clock
                &&& next.cluster.mig_reconfigs == self.cluster.mig_reconfigs
                &&& next.cluster.tenant_quotas == self.cluster.tenant_quotas
                &&& next.cluster.failed_jobs == self.cluster.failed_jobs
                &&& next.event_queue == self.event_queue
                &&& next.pending_arrivals == self.pending_arrivals
                &&& next.scheduler == self.scheduler
                &&& next.resource_manager == self.resource_manager
            }
    }

    /// Job `id` gives up waiting, taking the engine from `self` to `next`:
    /// the first waiting job with that id leaves the waiting queue and is
    /// appended to the failed jobs, marked failed; nothing else changes.
    pub open spec fn gave_up(&self, id: Seq<char>, next: &Self) -> bool {
        let w = self.cluster.waiting_queue@;
        exists|i: int|
            #![trigger w[i]]
            {
                &&& first_job_index(w, id, i)
                &&& next.cluster.waiting_queue@ == w.remove(i)
                &&& next.cluster.failed_jobs@ == self.cluster.failed_jobs@.push(
                    Job { state: JobState::Failed, ..w[i] },
                )
                &&& next.cluster.nodes == self.cluster.nodes
                &&& next.cluster.running_jobs == self.cluster.running_jobs
                &&& next.cluster.finished_jobs == self.cluster.finished_jobs
                &&& next.cluster.clock == self.cluster.clock
                &&& next.cluster.mig_reconfigs == self.cluster.mig_reconfigs
                &&& next.cluster.tenant_quotas == self.cluster.tenant_quotas
                &&& next.event_queue == self.event_queue
                &&& next.pending_arrivals == self.pending_arrivals
                &&& next.scheduler == self.scheduler
                &&& next.resource_manager == self.resource_manager
            }
    }

    /// Taking event `e`, the earliest, off the queue and moving the clock to
    /// its time takes the engine from `self` to `next`.
    pub open spec fn popped(&self, e: Event, next: &Self) -> bool {
        exists|i: int|
            #[trigger] earliest(self.queued_events(), i) && {
                &&& e == self.queued_events()[i]
                &&& next.queued_events() == self.queued_events().remove(i)
                &&& next.cluster == Cluster { clock: e.time, ..self.cluster }
                &&& next.pending_arrivals == self.pending_arrivals
                &&& next.scheduler == self.scheduler
                &&& next.resource_manager == self.resource_manager
            }
    }

    /// Handling event `e` takes the engine from `self` to `next`: an arrival
    /// arrives its job, a live completion completes its job and a timeout
    /// of a job that still waits fails it, and then the scheduler runs; a
    /// stale completion, or a timeout of a job that no longer waits,
    /// changes nothing.
    pub open spec fn handled(&self, e: Event, next: &Self) -> bool {
        if e.kind == EventKind::JobArrival {
            exists|mid: Self| #[trigger] self.arrived(e.job_id@, &mid) && mid.schedule_step(next)
        } else if e.kind == EventKind::JobComplete {
            if live_completion(self.cluster.running_jobs@, e.job_id@, e.run_generation) {
                exists|mid: Self| #[trigger] self.completed(e.job_id@, &mid) && mid.schedule_step(next)
            } else {
                *next == *self
            }
        } else if has_job(self.cluster.waiting_queue@, e.job_id@) {
            exists|mid: Self| #[trigger] self.gave_up(e.job_id@, &mid) && mid.schedule_step(next)
        } else {
            *next == *self
        }
    }

    /// One step of a run takes the engine from `self` to `next`: the
    /// earliest event is taken off the queue, the clock moves to its time,
    /// and the event is handled.
    pub open spec fn event_step(&self, next: &Self) -> bool {
        exists|e: Event, mid: Self| #[trigger] self.popped(e, &mid) && mid.handled(e, next)
    }

    /// A round that asked the scheduler on `mid`'s cluster, which moved to
    /// scheduler `s1`, cluster `c1` and placements `ps`, was the run's last and
    /// started nothing: no placement names a job waiting in `c1`, and the run
    /// ended with cluster `c1` (its clock moved on by later stale
    /// completions).
    pub open spec fn idle_last_round(&self, mid: Self, s1: S, c1: Cluster, ps: Seq<Placement>) -> bool {
        &&& mid.scheduler.schedules(&s1, &mid.cluster, &mid.resource_manager, &c1, ps)
        &&& forall|k: int| 0 <= k < ps.len() ==> !has_job(c1.waiting_queue@, (#[trigger] ps[k]).job_id@)
        &&& self.cluster == Cluster { clock: self.cluster.clock, ..c1 }
    }

    /// Since the last scheduling round `round` of a run from `start` (its
    /// engine before asking, the scheduler and cluster it moved to, its
    /// placements and the engine after starting them), only the clock has
    /// changed; with no round yet, only the clock has changed since `start`.
    pub open spec fn since_round(&self, round: Option<(Self, S, Cluster, Seq<Placement>, Self)>, start: Self) -> bool {
        match round {
            Some(r) => {
                &&& r.0.scheduler.schedules(&r.1, &r.0.cluster, &r.0.resource_manager, &r.2, r.3)
                &&& (SimulationEngine { cluster: r.2, scheduler: r.1, ..r.0 }).placements_started(r.3, &r.4)
                &&& self.cluster == Cluster { clock: self.cluster.clock, ..r.4.cluster }
            },
            None => self.cluster == Cluster { clock: self.cluster.clock, ..start.cluster },
        }
    }

    /// A run from `start` ended idle: its last scheduling round started
    /// nothing (see `idle_last_round`), or there was no round and only the
    /// clock changed.
    pub open spec fn ends_idle(&self, start: Self) -> bool {
        ||| exists|mid: Self, s1: S, c1: Cluster, ps: Seq<Placement>| #[trigger] self.idle_last_round(mid, s1, c1, ps)
        ||| self.cluster == Cluster { clock: self.cluster.clock, ..start.cluster }
    }

    /// Starting placements that leave no job running started nothing: the
    /// engine is unchanged and no placement names a waiting job.
    pub proof fn lemma_started_nothing(e: Self, ps: Seq<Placement>, last: Self)
        requires
            e.placements_started(ps, &last),
            last.cluster.running_jobs@.len() == 0,
        ensures
            last == e,
            forall|k: int| 0 <= k < ps.len() ==> !has_job(e.cluster.waiting_queue@, (#[trigger] ps[k]).job_id@),
        decreases ps.len(),
    {
        if ps.len() > 0 {
            let mid = choose|mid: Self| e.placements_started(ps.drop_last(), &mid) && mid.placement_started(ps.last(), &last);
            let w = mid.cluster.waiting_queue@;
            if has_job(w, ps.last().job_id@) {
                let i = choose|i: int|
                    #![trigger w[i]]
                    {
                        let job = Job { run_generation: sat_inc(w[i].run_generation), ..w[i] };
                        &&& first_job_index(w, ps.last().job_id@, i)
                        &&& running_after_start(
                            mid.cluster.running_jobs@,
                            last.cluster.running_jobs@,
                            job,
                            ps.last().gpu_ids@,
                            ps.last().start_time,
                        )
                    };
                assert(false);
            }
            assert(last == mid);
            Self::lemma_started_nothing(e, ps.drop_last(), mid);
            assert forall|k: int| 0 <= k < ps.len() implies !has_job(e.cluster.waiting_queue@, (#[trigger] ps[k]).job_id@) by {
                if k < ps.len() - 1 {
                    assert(ps[k] == ps.drop_last()[k]);
                }
            }
        }
    }

    /// Starting placements in order keeps every job the engine holds, when
    /// no id occurs twice.
    pub proof fn lemma_placements_keep_keys(e: Self, ps: Seq<Placement>, last: Self)
        requires
            e.placements_started(ps, &last),
            keys_unique(e.all_keys()),
        ensures
            last.all_keys() == e.all_keys(),
        decreases ps.len(),
    {
        if ps.len() > 0 {
            let mid = choose|mid: Self| e.placements_started(ps.drop_last(), &mid) && mid.placement_started(ps.last(), &last);
            Self::lemma_placements_keep_keys(e, ps.drop_last(), mid);
            Self::lemma_placement_keeps_keys(mid, ps.last(), last);
        }
    }

    /// Removes the first waiting job with id `job_id`.
    fn take_waiting_job(&mut self, job_id: &str) -> (r: Option<Job>)
        ensures
            match r {
                None => !has_job(old(self).cluster.waiting_queue@, job_id@)
                    && final(self).cluster.waiting_queue == old(self).cluster.waiting_queue,
                Some(j) => exists|i: int|
                    first_job_index(old(self).cluster.waiting_queue@, job_id@, i) && j == old(
                        self,
                    ).cluster.waiting_queue@[i] && final(self).cluster.waiting_queue@ == old(
                        self,
                    ).cluster.waiting_queue@.remove(i),
            },
            final(self).cluster.nodes == old(self).cluster.nodes,
            final(self).cluster.running_jobs == old(self).cluster.running_jobs,
            final(self).cluster.finished_jobs == old(self).cluster.finished_jobs,
            final(self).cluster.clock == old(self).cluster.clock,
            final(self).cluster.mig_reconfigs == old(self).cluster.mig_reconfigs,
            final(self).cluster.tenant_quotas == old(self).cluster.tenant_quotas,
            final(self).cluster.failed_jobs == old(self).cluster.failed_jobs,
            final(self).event_queue == old(self).event_queue,
            final(self).pending_arrivals == old(self).pending_arrivals,
            final(self).scheduler == old(self).scheduler,
            final(self).resource_manager == old(self).resource_manager,
    {
        match find_job(&self.cluster.waiting_queue, job_id) {
            Some(i) => Some(self.cluster.waiting_queue.remove(i)),
            None => None,
        }
    }

    /// Asks the scheduler for placements and starts each placed job that is
    /// still waiting, queueing its completion at its start time plus its
    /// remaining runtime.
    fn try_schedule(&mut self)
        requires
            old(self).inv(),
        ensures
            final(self).inv(),
            final(self).measure() <= old(self).measure(),
            final(self).pending_arrivals == old(self).pending_arrivals,
            final(self).cluster.finished_jobs == old(self).cluster.finished_jobs,
            final(self).cluster.clock == old(self).cluster.clock,
            old(self).runs_tracked() ==> final(self).runs_tracked(),
            keys_unique(old(self).all_keys()) ==> final(self).all_keys() == old(self).all_keys(),
            old(self).schedule_step(final(self)),
    {
        let ghost w0 = self.cluster.waiting_queue@;
        let placements = self.scheduler.schedule(&mut self.cluster, &self.resource_manager);
        let ghost e1 = *self;
        let ghost ps = placements@;
        assert(e1 == SimulationEngine { cluster: e1.cluster, scheduler: e1.scheduler, ..*old(self) });
        assert(ps.take(0) =~= Seq::<Placement>::empty());
        proof {
            assert(self.queued_events() == old(self).queued_events());
            assert(self.pending() == old(self).pending());
            assert forall|x: Seq<char>|
                #![trigger arrival_keys(self.queued_events()).count(Some(x))]
                arrival_keys(self.queued_events()).count(Some(x)) == job_keys(self.pending()).count(Some(x)) by {
                assert(arrival_keys(old(self).queued_events()).count(Some(x)) == job_keys(old(self).pending()).count(Some(x)));
            }
            lemma_evictions(old(self).cluster, self.cluster);
            if old(self).runs_tracked() {
                let r0 = old(self).cluster.running_jobs@;
                let r1 = self.cluster.running_jobs@;
                assert forall|a: int| 0 <= a < r1.len() implies completion_queued(
                    self.queued_events(),
                    #[trigger] r1[a],
                ) by {
                    assert(r0.contains(r1[a]));
                    let b = choose|b: int| 0 <= b < r0.len() && r0[b] == r1[a];
                    assert(completion_queued(old(self).queued_events(), r0[b]));
                }
            }
        }
        let ghost m0 = self.measure();
        let mut i: usize = 0;
        while i < placements.len()
            invariant
                self.inv(),
                self.measure() <= m0,
                self.pending_arrivals == old(self).pending_arrivals,
                self.cluster.finished_jobs == old(self).cluster.finished_jobs,
                self.cluster.clock == old(self).cluster.clock,
                old(self).runs_tracked() ==> self.runs_tracked(),
                m0 <= old(self).measure(),
                i <= placements@.len(),
                ps == placements@,
                e1.placements_started(ps.take(i as int), self),
            decreases placements@.len() - i,
        {
            let placement = &placements[i];
            let ghost mid = *self;
            match self.take_waiting_job(placement.job_id.as_str()) {
                Some(job) => {
                    let ghost taken = job;
                    let mut job = job;
                    job.run_generation = job.run_generation.saturating_add(1);
                    let duration = job.duration_remaining();
                    let run_generation = job.run_generation;
                    let job_id = job.id.clone();
                    let ghost j0 = job;
                    let ghost r0 = self.cluster.running_jobs@;
                    let ghost q0 = self.queued_events();
                    let ghost tracked0 = self.runs_tracked();
                    self.cluster.start_job(job, placement.gpu_ids.as_slice(), placement.start_time);
                    let ghost ev0 = self.queued_events();
                    let event = Event {
                        time: placement.start_time.saturating_add(duration),
                        kind: EventKind::JobComplete,
                        job_id,
                        run_generation,
                    };
                    self.event_queue.push(event);
                    proof {
                        broadcast use vstd::seq_lib::to_multiset_build;
                        broadcast use vstd::multiset::group_multiset_axioms;
                        assert(self.queued_events().map_values(|ev: Event| arrival_key(ev))
                            =~= ev0.map_values(|ev: Event| arrival_key(ev)).push(arrival_key(event)));
                        assert(arrival_keys(self.queued_events()) == arrival_keys(ev0).insert(None));
                        assert forall|x: Seq<char>|
                            #![trigger arrival_keys(self.queued_events()).count(Some(x))]
                            arrival_keys(self.queued_events()).count(Some(x)) == job_keys(self.pending()).count(Some(x)) by {
                            assert(arrival_keys(ev0).count(Some(x)) == job_keys(self.pending()).count(Some(x)));
                        }
                        let r1 = self.cluster.running_jobs@;
                        let q1 = self.queued_events();
                        assert(q1 == q0.push(event));
                        assert(is_completion_of(q1[q0.len() as int], j0));
                        if tracked0 {
                            assert forall|a: int| 0 <= a < r1.len() implies completion_queued(q1, #[trigger] r1[a]) by {
                                if has_job(r0, j0.id@) {
                                    let i0 = choose|i: int|
                                        #![trigger r0[i]]
                                        {
                                            &&& first_job_index(r0, j0.id@, i)
                                            &&& r1.len() == r0.len()
                                            &&& started_from(r1[i], j0, placement.gpu_ids@, placement.start_time)
                                            &&& forall|j: int| 0 <= j < r0.len() && j != i ==> r1[j] == r0[j]
                                        };
                                    if a == i0 {
                                        assert(is_completion_of(q1[q0.len() as int], r1[a]));
                                    } else {
                                        assert(r1[a] == r0[a]);
                                        assert(completion_queued(q0, r0[a]));
                                        let k = choose|k: int| 0 <= k < q0.len() && is_completion_of(#[trigger] q0[k], r0[a]);
                                        assert(q1[k] == q0[k]);
                                    }
                                } else {
                                    if a == r0.len() {
                                        assert(r1[a] == r1.last());
                                        assert(is_completion_of(q1[q0.len() as int], r1[a]));
                                    } else {
                                        assert(r1[a] == r1.take(r0.len() as int)[a]);
                                        assert(r1[a] == r0[a]);
                                        assert(completion_queued(q0, r0[a]));
                                        let k = choose|k: int| 0 <= k < q0.len() && is_completion_of(#[trigger] q0[k], r0[a]);
                                        assert(q1[k] == q0[k]);
                                    }
                                }
                            }
                        }
                        let w = mid.cluster.waiting_queue@;
                        let k = choose|k: int|
                            first_job_index(w, placement.job_id@, k) && taken == w[k]
                                && mid.cluster.waiting_queue@.remove(k) == w.remove(k);
                        assert(has_job(w, placement.job_id@));
                        assert(j0 == Job { run_generation: sat_inc(w[k].run_generation), ..w[k] });
                        assert(mid.placement_started(*placement, self));
                        assert(self.cluster.waiting_queue@ == w.remove(k));
                        lemma_start_budget(w, k, r0, self.cluster.running_jobs@, j0, placement.gpu_ids@, placement.start_time);
                    }
                },
                None => {
                    assert(*self == mid);
                },
            }
            proof {
                assert(ps.take(i as int + 1).drop_last() =~= ps.take(i as int));
                assert(ps.take(i as int + 1).last() == *placement);
                assert(e1.placements_started(ps.take(i as int), &mid) && mid.placement_started(
                    ps.take(i as int + 1).last(),
                    self,
                ));
            }
            i = i + 1;
        }
        proof {
            assert(ps.take(ps.len() as int) =~= ps);
            assert(old(self).scheduler.schedules(&e1.scheduler, &old(self).cluster, &old(self).resource_manager, &e1.cluster, ps));
            if keys_unique(old(self).all_keys()) {
                broadcast use vstd::multiset::group_multiset_axioms;
                lemma_evictions(old(self).cluster, e1.cluster);
                assert(e1.all_keys() =~= old(self).all_keys());
                Self::lemma_placements_keep_keys(e1, ps, *self);
            }
        }
    }

    /// Job `job_id` arrives: it leaves the pending jobs, joins the waiting
    /// queue, and the scheduler runs.
    #[verifier::spinoff_prover]
    fn handle_arrival(&mut self, job_id: &str)
        requires
            old(self).inv_after_pop(job_id@),
        ensures
            final(self).inv(),
            final(self).measure() <= old(self).measure(),
            old(self).runs_tracked() ==> final(self).runs_tracked(),
            final(self).cluster.finished_jobs == old(self).cluster.finished_jobs,
            keys_unique(old(self).all_keys()) ==> final(self).all_keys() == old(self).all_keys(),
            exists|mid: Self| #[trigger] old(self).arrived(job_id@, &mid) && mid.schedule_step(final(self)),
    {
        let ghost p0 = self.pending();
        let ghost keys = p0.map_values(|j: Job| Some(j.id@));
        proof {
            broadcast use vstd::seq_lib::group_to_multiset_ensures;
            assert(job_keys(p0).count(Some(job_id@)) > 0) by {
                assert(arrival_keys(self.queued_events()).count(Some(job_id@)) + 1 == job_keys(p0).count(Some(job_id@)));
            }
            assert(keys.contains(Some(job_id@)));
            let k = choose|k: int| 0 <= k < keys.len() && keys[k] == Some(job_id@);
            assert(p0[k].id@ == job_id@);
            assert(has_job(p0, job_id@));
        }
        let idx = match find_job(&self.pending_arrivals, job_id) {
            Some(i) => i,
            None => unreached(),
        };
        let mut job = self.pending_arrivals.remove(idx);
        proof {
            broadcast use vstd::seq_lib::group_to_multiset_ensures;
            broadcast use vstd::multiset::group_multiset_axioms;
            assert(self.pending().map_values(|j: Job| Some(j.id@)) =~= keys.remove(idx as int));
            vstd::seq_lib::to_multiset_remove(keys, idx as int);
            assert(job_keys(self.pending()) == job_keys(p0).remove(Some(job_id@)));
            assert forall|x: Seq<char>|
                #![trigger arrival_keys(self.queued_events()).count(Some(x))]
                arrival_keys(self.queued_events()).count(Some(x)) == job_keys(self.pending()).count(Some(x)) by {
                assert(self.queued_events() == old(self).queued_events());
                assert(arrival_keys(old(self).queued_events()).count(Some(x)) + (if x == job_id@ { 1nat } else { 0nat })
                    == job_keys(p0).count(Some(x)));
            }
        }
        job.state = JobState::Waiting;
        let arms = job.gang_enabled && job.gang_timeout_secs.is_some();
        let timeout = match job.gang_timeout_secs {
            Some(t) => t,
            None => 0,
        };
        let timed_id = job.id.clone();
        let ghost w0 = self.cluster.waiting_queue@;
        let ghost before = *self;
        self.cluster.enqueue_job(job);
        assert forall|x: Seq<char>|
            #![trigger arrival_keys(self.queued_events()).count(Some(x))]
            arrival_keys(self.queued_events()).count(Some(x)) == job_keys(self.pending()).count(Some(x)) by {
            assert(arrival_keys(before.queued_events()).count(Some(x)) == job_keys(before.pending()).count(Some(x)));
        }
        proof {
            lemma_budget_remove(p0, idx as int);
            lemma_budget_concat(w0, seq![job]);
            lemma_budget_one(job);
            assert(w0 + seq![job] =~= self.cluster.waiting_queue@);
            assert(self.pending() == p0.remove(idx as int));
        }
        assert(self.all_keys() == old(self).all_keys()) by {
            broadcast use vstd::multiset::group_multiset_axioms;
            lemma_job_keys_remove(p0, idx as int);
            lemma_job_keys_push(w0, job);
            assert(self.pending() == p0.remove(idx as int));
            assert(self.all_keys() =~= old(self).all_keys());
        }
        let ghost q0 = self.queued_events();
        if arms {
            let ev = Event {
                time: self.cluster.clock.saturating_add(timeout),
                kind: EventKind::GangTimeout,
                job_id: timed_id,
                run_generation: 0,
            };
            self.event_queue.push(ev);
            proof {
                broadcast use vstd::seq_lib::to_multiset_build;
                broadcast use vstd::multiset::group_multiset_axioms;
                assert(self.queued_events().map_values(|e: Event| arrival_key(e))
                    =~= q0.map_values(|e: Event| arrival_key(e)).push(arrival_key(ev)));
                assert(arrival_keys(self.queued_events()) == arrival_keys(q0).insert(None));
                assert forall|x: Seq<char>|
                    #![trigger arrival_keys(self.queued_events()).count(Some(x))]
                    arrival_keys(self.queued_events()).count(Some(x)) == job_keys(self.pending()).count(Some(x)) by {
                    assert(arrival_keys(q0).count(Some(x)) == job_keys(self.pending()).count(Some(x)));
                }
                let q = self.queued_events();
                assert(q.drop_last() =~= q0);
                assert forall|j: Job| completion_queued(q0, j) implies completion_queued(q, j) by {
                    let k = choose|k: int| 0 <= k < q0.len() && is_completion_of(#[trigger] q0[k], j);
                    assert(q[k] == q0[k]);
                }
            }
        }
        let ghost mid = *self;
        proof {
            assert(job == Job { state: JobState::Waiting, ..old(self).pending_arrivals@[idx as int] });
            assert(mid.pending() =~= old(self).pending().remove(idx as int));
            assert(old(self).arrived(job_id@, &mid));
            if old(self).runs_tracked() {
                assert forall|a: int| 0 <= a < mid.cluster.running_jobs@.len() implies completion_queued(
                    mid.queued_events(),
                    #[trigger] mid.cluster.running_jobs@[a],
                ) by {
                    assert(mid.cluster.running_jobs@[a] == old(self).cluster.running_jobs@[a]);
                    assert(completion_queued(q0, mid.cluster.running_jobs@[a]));
                }
            }
        }
        self.try_schedule();
    }

    /// A completion for `job_id` at run generation `run_generation`: when
    /// that job runs in that generation it finishes at the current clock and
    /// the scheduler runs; a stale completion (the job is not running, or is
    /// running a later generation) is ignored.
    fn handle_complete(&mut self, job_id: &str, run_generation: u32)
        requires
            old(self).inv(),
        ensures
            final(self).inv(),
            final(self).measure() <= old(self).measure(),
            !live_completion(old(self).cluster.running_jobs@, job_id@, run_generation) ==> *final(self) == *old(
                self,
            ),
            live_completion(old(self).cluster.running_jobs@, job_id@, run_generation) ==> exists|i: int|
                #![trigger old(self).cluster.running_jobs@[i]]
                {
                    &&& first_job_index(old(self).cluster.running_jobs@, job_id@, i)
                    &&& final(self).cluster.finished_jobs@.len() == old(self).cluster.finished_jobs@.len() + 1
                    &&& final(self).cluster.finished_jobs@.take(old(self).cluster.finished_jobs@.len() as int)
                        == old(self).cluster.finished_jobs@
                    &&& finished_from(
                        final(self).cluster.finished_jobs@.last(),
                        old(self).cluster.running_jobs@[i],
                        old(self).cluster.clock,
                    )
                },
            old(self).runs_tracked_except(job_id@, run_generation) ==> final(self).runs_tracked(),
            keys_unique(old(self).all_keys()) ==> final(self).all_keys() == old(self).all_keys(),
            keys_unique(old(self).all_keys()) && live_completion(old(self).cluster.running_jobs@, job_id@, run_generation)
                ==> !has_job(final(self).cluster.running_jobs@, job_id@),
            live_completion(old(self).cluster.running_jobs@, job_id@, run_generation) ==> exists|mid: Self|
                #[trigger] old(self).completed(job_id@, &mid) && mid.schedule_step(final(self)),
    {
        let ghost r0 = self.cluster.running_jobs@;
        let ghost q0 = self.queued_events();
        match find_job(&self.cluster.running_jobs, job_id) {
            Some(i) => {
                if self.cluster.running_jobs[i].run_generation != run_generation {
                    proof {
                        assert forall|a: int| 0 <= a < r0.len() && r0[a].id@ == job_id@ implies r0[a].run_generation
                            != run_generation by {
                            if a != i {
                                crate::cluster::lemma_distinct_index(r0, job_id@, a, i as int);
                            }
                        }
                        assert forall|k: int| first_job_index(self.cluster.running_jobs@, job_id@, k) implies self.cluster.running_jobs@[k].run_generation != run_generation by {
                            if k < i {
                                assert(self.cluster.running_jobs@[k].id@ != job_id@);
                            } else if k > i {
                                assert(self.cluster.running_jobs@[i as int].id@ == job_id@);
                            }
                        }
                    }
                    return;
                }
            },
            None => {
                proof {
                    assert forall|a: int| 0 <= a < r0.len() implies r0[a].id@ != job_id@ by {
                        assert(!has_job(r0, job_id@));
                    }
                }
                return;
            },
        }
        let clock = self.cluster.clock;
        let ghost f0 = self.cluster.finished_jobs@;
        let finished = self.cluster.finish_job(job_id, clock);
        proof {
            broadcast use vstd::multiset::group_multiset_axioms;
            let j = finished->Some_0;
            let i0 = choose|i: int|
                #![trigger r0[i]]
                first_job_index(r0, job_id@, i) && self.cluster.running_jobs@ == r0.remove(i)
                    && finished_from(j, r0[i], clock) && self.cluster.finished_jobs@.last().same(&j)
                    && self.cluster.finished_jobs@.len() == f0.len() + 1
                    && self.cluster.finished_jobs@.take(f0.len() as int) == f0;
            let f1 = self.cluster.finished_jobs@;
            assert(f1.last().id@ == job_id@);
            lemma_budget_remove(r0, i0);
            assert(f1 =~= f0.push(f1.last()));
            lemma_job_keys_remove(r0, i0);
            lemma_job_keys_push(f0, f1.last());
            lemma_job_keys_has(r0, job_id@);
            assert(r0[i0].id@ == job_id@);
            assert(has_job(r0, job_id@));
            assert(self.cluster.waiting_queue == old(self).cluster.waiting_queue);
            assert(self.pending() == old(self).pending());
            assert(self.all_keys() =~= old(self).all_keys());
            lemma_job_keys_has(f1, job_id@);
            assert(f1[f1.len() - 1].id@ == job_id@);
            assert(has_job(f1, job_id@));
        }
        let ghost f1 = self.cluster.finished_jobs@;
        let ghost mid = *self;
        proof {
            let j = finished->Some_0;
            let i0 = choose|i: int|
                #![trigger r0[i]]
                first_job_index(r0, job_id@, i) && self.cluster.running_jobs@ == r0.remove(i)
                    && finished_from(j, r0[i], clock) && self.cluster.finished_jobs@.last().same(&j)
                    && self.cluster.finished_jobs@.len() == f0.len() + 1
                    && self.cluster.finished_jobs@.take(f0.len() as int) == f0
                    && self.cluster.resources() == set_resources_job(
                        old(self).cluster.resources(),
                        ids_view(r0[i].assigned_gpus@),
                        None,
                    );
            assert(finished_from(f1.last(), r0[i0], clock));
            assert(old(self).completed(job_id@, &mid));
        }
        proof {
            if old(self).runs_tracked_except(job_id@, run_generation) {
                let r1 = self.cluster.running_jobs@;
                let i0 = choose|i: int|
                    #![trigger r0[i]]
                    first_job_index(r0, job_id@, i) && r1 == r0.remove(i);
                assert forall|a: int| 0 <= a < r1.len() implies completion_queued(q0, #[trigger] r1[a]) by {
                    let b = if a < i0 { a } else { a + 1 };
                    assert(r1[a] == r0[b]);
                    if r0[b].id@ == job_id@ {
                        crate::cluster::lemma_distinct_index(r0, job_id@, b, i0);
                    }
                }
            }
            assert(self.queued_events() == old(self).queued_events());
            assert(self.pending() == old(self).pending());
            assert forall|x: Seq<char>|
                #![trigger arrival_keys(self.queued_events()).count(Some(x))]
                arrival_keys(self.queued_events()).count(Some(x)) == job_keys(self.pending()).count(Some(x)) by {
                assert(arrival_keys(old(self).queued_events()).count(Some(x)) == job_keys(old(self).pending()).count(Some(x)));
            }
        }
        self.try_schedule();
        proof {
            if keys_unique(old(self).all_keys()) {
                broadcast use vstd::multiset::group_multiset_axioms;
                lemma_job_keys_has(self.cluster.running_jobs@, job_id@);
                assert(self.cluster.finished_jobs@ == f1);
                assert(self.all_keys().count(Some(job_id@)) <= 1);
            }
        }
    }

    /// A timeout of job `job_id`: when the job still waits, it leaves the
    /// waiting queue, fails, and the scheduler runs; otherwise nothing
    /// changes.
    fn handle_gang_timeout(&mut self, job_id: &str)
        requires
            old(self).inv(),
        ensures
            final(self).inv(),
            final(self).measure() <= old(self).measure(),
            old(self).runs_tracked() ==> final(self).runs_tracked(),
            final(self).cluster.finished_jobs == old(self).cluster.finished_jobs,
            keys_unique(old(self).all_keys()) ==> final(self).all_keys() == old(self).all_keys(),
            !has_job(old(self).cluster.waiting_queue@, job_id@) ==> *final(self) == *old(self),
            has_job(old(self).cluster.waiting_queue@, job_id@) ==> exists|mid: Self|
                #[trigger] old(self).gave_up(job_id@, &mid) && mid.schedule_step(final(self)),
    {
        let ghost w0 = self.cluster.waiting_queue@;
        let ghost f0 = self.cluster.failed_jobs@;
        match self.take_waiting_job(job_id) {
            None => {
                assert(self.cluster == old(self).cluster);
            },
            Some(mut job) => {
                job.state = JobState::Failed;
                self.cluster.failed_jobs.push(job);
                let ghost mid = *self;
                proof {
                    broadcast use vstd::multiset::group_multiset_axioms;
                    let i = choose|i: int|
                        first_job_index(w0, job_id@, i) && job == Job { state: JobState::Failed, ..w0[i] }
                            && self.cluster.waiting_queue@ == w0.remove(i);
                    assert(first_job_index(w0, job_id@, i));
                    assert(self.cluster.failed_jobs@ == f0.push(Job { state: JobState::Failed, ..w0[i] }));
                    assert(old(self).gave_up(job_id@, &mid));
                    lemma_budget_remove(w0, i);
                    lemma_job_keys_remove(w0, i);
                    lemma_job_keys_push(f0, job);
                    lemma_job_keys_has(w0, job_id@);
                    assert(has_job(w0, job_id@)) by {
                        assert(w0[i].id@ == job_id@);
                    }
                    assert(self.all_keys() =~= old(self).all_keys());
                    assert forall|x: Seq<char>|
                        #![trigger arrival_keys(self.queued_events()).count(Some(x))]
                        arrival_keys(self.queued_events()).count(Some(x)) == job_keys(self.pending()).count(Some(x)) by {
                        assert(arrival_keys(old(self).queued_events()).count(Some(x)) == job_keys(old(self).pending()).count(Some(x)));
                    }
                }
                self.try_schedule();
            },
        }
    }

    /// Processes events in time order until none is left: each sets the
    /// clock to its time; an arrival moves its job to the waiting queue (and
    /// queues a gang job's timeout), a completion finishes its job, a timeout
    /// fails its job when it still waits; the scheduler runs after each. No
    /// job is lost: when no id occurs twice, the engine ends holding exactly
    /// the jobs it held at the start (pending ones now waiting, running,
    /// finished or failed), and when every running job had its completion
    /// queued, no job runs at the end.
    pub fn run(&mut self)
        requires
            old(self).inv(),
        ensures
            final(self).inv(),
            final(self).queued_events().len() == 0,
            final(self).pending().len() == 0,
            old(self).runs_tracked() ==> final(self).cluster.running_jobs@.len() == 0,
            final(self).cluster.finished_jobs@.len() >= old(self).cluster.finished_jobs@.len(),
            final(self).cluster.finished_jobs@.take(old(self).cluster.finished_jobs@.len() as int)
                == old(self).cluster.finished_jobs@,
            keys_unique(old(self).all_keys()) ==> final(self).all_keys() == old(self).all_keys(),
            old(self).runs_tracked() ==> final(self).ends_idle(*old(self)),
            exists|steps: Seq<Self>|
                {
                    &&& steps.len() >= 1
                    &&& steps[0] == *old(self)
                    &&& steps.last() == *final(self)
                    &&& forall|k: int| 0 <= k < steps.len() - 1 ==> (#[trigger] steps[k]).event_step(&steps[k + 1])
                },
    {
        let ghost tracked0 = self.runs_tracked();
        let ghost k0 = self.all_keys();
        let ghost f0 = self.cluster.finished_jobs@;
        let ghost mut steps: Seq<Self> = seq![*self];
        let ghost mut round: Option<(Self, S, Cluster, Seq<Placement>, Self)> = None;
        loop
            invariant
                self.since_round(round, *old(self)),
                steps.len() >= 1,
                steps[0] == *old(self),
                steps.last() == *self,
                forall|k: int| 0 <= k < steps.len() - 1 ==> (#[trigger] steps[k]).event_step(&steps[k + 1]),
                self.inv(),
                tracked0 ==> self.runs_tracked(),
                f0 == old(self).cluster.finished_jobs@,
                self.cluster.finished_jobs@.len() >= f0.len(),
                self.cluster.finished_jobs@.take(f0.len() as int) == f0,
                k0 == old(self).all_keys(),
                keys_unique(k0) ==> self.all_keys() == k0,
            ensures
                steps.len() >= 1,
                steps[0] == *old(self),
                steps.last() == *self,
                forall|k: int| 0 <= k < steps.len() - 1 ==> (#[trigger] steps[k]).event_step(&steps[k + 1]),
                keys_unique(k0) ==> self.all_keys() == k0,
                self.inv(),
                self.queued_events().len() == 0,
                tracked0 ==> self.runs_tracked(),
                self.cluster.finished_jobs@.len() >= f0.len(),
                self.cluster.finished_jobs@.take(f0.len() as int) == f0,
                self.since_round(round, *old(self)),
            decreases self.measure(),
        {
            let ghost ev0 = self.queued_events();
            let ghost before = *self;
            match self.event_queue.pop() {
                None => {
                    break;
                },
                Some(event) => {
                    proof {
                        broadcast use vstd::seq_lib::group_to_multiset_ensures;
                        broadcast use vstd::multiset::group_multiset_axioms;
                        let i = choose|i: int| earliest(ev0, i) && event == ev0[i] && self.queued_events() == ev0.remove(i);
                        let mk = ev0.map_values(|ev: Event| arrival_key(ev));
                        assert(self.queued_events().map_values(|ev: Event| arrival_key(ev)) =~= mk.remove(i));
                        vstd::seq_lib::to_multiset_remove(mk, i);
                        assert(arrival_keys(self.queued_events()) == arrival_keys(ev0).remove(arrival_key(event)));
                        if event.kind == EventKind::JobArrival {
                            assert(mk[i] == Some(event.job_id@));
                            assert(arrival_keys(ev0).count(Some(event.job_id@)) > 0);
                        }
                        if tracked0 {
                            let q = self.queued_events();
                            let rj = self.cluster.running_jobs@;
                            assert forall|a: int| 0 <= a < rj.len() implies completion_queued(q, #[trigger] rj[a]) || (
                            rj[a].id@ == event.job_id@ && rj[a].run_generation == event.run_generation
                                && event.kind == EventKind::JobComplete) by {
                                assert(completion_queued(ev0, rj[a]));
                                let k = choose|k: int| 0 <= k < ev0.len() && is_completion_of(#[trigger] ev0[k], rj[a]);
                                if k < i {
                                    assert(q[k] == ev0[k]);
                                } else if k > i {
                                    assert(q[k - 1] == ev0[k]);
                                }
                            }
                        }
                    }
                    self.cluster.clock = event.time;
                    let ghost at = *self;
                    proof {
                        let i = choose|i: int| earliest(ev0, i) && event == ev0[i] && self.queued_events() == ev0.remove(i);
                        assert(self.cluster =~= Cluster { clock: event.time, ..before.cluster });
                        assert(earliest(before.queued_events(), i));
                        assert(before.popped(event, &at));
                    }
                    let ghost fb = self.cluster.finished_jobs@;
                    match event.kind {
                        EventKind::JobArrival => {
                            self.handle_arrival(event.job_id.as_str());
                            assert(at.handled(event, self));
                            proof {
                                let m = choose|mid: Self| #[trigger] at.arrived(event.job_id@, &mid) && mid.schedule_step(self);
                                let (s1, c1, ps) = choose|s1: S, c1: Cluster, ps: Seq<Placement>|
                                    #[trigger] m.scheduler.schedules(&s1, &m.cluster, &m.resource_manager, &c1, ps)
                                        && (SimulationEngine { cluster: c1, scheduler: s1, ..m }).placements_started(ps, self);
                                round = Some((m, s1, c1, ps, *self));
                            }
                        },
                        EventKind::GangTimeout => {
                            proof {
                                if tracked0 {
                                    assert forall|a: int| 0 <= a < at.cluster.running_jobs@.len() implies completion_queued(
                                        at.queued_events(),
                                        #[trigger] at.cluster.running_jobs@[a],
                                    ) by {
                                        assert(at.cluster.running_jobs@[a] == before.cluster.running_jobs@[a]);
                                    }
                                }
                            }
                            self.handle_gang_timeout(event.job_id.as_str());
                            assert(at.handled(event, self));
                            proof {
                                if has_job(at.cluster.waiting_queue@, event.job_id@) {
                                    let m = choose|mid: Self| #[trigger] at.gave_up(event.job_id@, &mid) && mid.schedule_step(self);
                                    let (s1, c1, ps) = choose|s1: S, c1: Cluster, ps: Seq<Placement>|
                                        #[trigger] m.scheduler.schedules(&s1, &m.cluster, &m.resource_manager, &c1, ps)
                                            && (SimulationEngine { cluster: c1, scheduler: s1, ..m }).placements_started(ps, self);
                                    round = Some((m, s1, c1, ps, *self));
                                } else {
                                    assert(*self == at);
                                }
                            }
                        },
                        EventKind::JobComplete => {
                            self.handle_complete(event.job_id.as_str(), event.run_generation);
                            assert(at.handled(event, self));
                            proof {
                                if live_completion(at.cluster.running_jobs@, event.job_id@, event.run_generation) {
                                    let m = choose|mid: Self| #[trigger] at.completed(event.job_id@, &mid) && mid.schedule_step(self);
                                    let (s1, c1, ps) = choose|s1: S, c1: Cluster, ps: Seq<Placement>|
                                        #[trigger] m.scheduler.schedules(&s1, &m.cluster, &m.resource_manager, &c1, ps)
                                            && (SimulationEngine { cluster: c1, scheduler: s1, ..m }).placements_started(ps, self);
                                    round = Some((m, s1, c1, ps, *self));
                                } else {
                                    assert(*self == at);
                                }
                            }
                            proof {
                                let fa = self.cluster.finished_jobs@;
                                if fa != fb {
                                    assert(fa.take(fb.len() as int) == fb);
                                    assert(fa.take(f0.len() as int) =~= fb.take(f0.len() as int));
                                }
                            }
                        },
                    }
                    proof {
                        assert(before.event_step(self));
                        let old_steps = steps;
                        steps = steps.push(*self);
                        assert forall|k: int| 0 <= k < steps.len() - 1 implies (#[trigger] steps[k]).event_step(&steps[k + 1]) by {
                            if k < old_steps.len() - 1 {
                                assert(steps[k] == old_steps[k] && steps[k + 1] == old_steps[k + 1]);
                            } else {
                                assert(steps[k] == before);
                            }
                        }
                    }
                },
            }
        }
        proof {
            if tracked0 && self.cluster.running_jobs@.len() > 0 {
                assert(completion_queued(self.queued_events(), self.cluster.running_jobs@[0]));
            }
            if tracked0 {
                match round {
                    Some(r) => {
                        let e = SimulationEngine { cluster: r.2, scheduler: r.1, ..r.0 };
                        assert(r.4.cluster.running_jobs == self.cluster.running_jobs);
                        Self::lemma_started_nothing(e, r.3, r.4);
                        assert(self.idle_last_round(r.0, r.1, r.2, r.3));
                    },
                    None => {},
                }
            }
            broadcast use vstd::seq_lib::group_to_multiset_ensures;
            let keys = self.pending().map_values(|j: Job| Some(j.id@));
            if self.pending().len() > 0 {
                assert(keys.contains(keys[0]));
                let x = self.pending()[0].id@;
                assert(job_keys(self.pending()).count(Some(x)) > 0);
                assert(arrival_keys(self.queued_events()).count(Some(x)) > 0);
                assert(self.queued_events().map_values(|ev: Event| arrival_key(ev)).len() == 0);
                assert(self.queued_events().map_values(|ev: Event| arrival_key(ev)) =~= Seq::empty());
            }
        }
    }
}

} // verus!
