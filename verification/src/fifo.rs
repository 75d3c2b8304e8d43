//! First-in-first-out scheduling.

use vstd::prelude::*;
use crate::cluster::{has_job, set_resources_job, within_quota, Cluster};
use crate::engine::SimulationEngine;
use crate::engine::{lemma_no_evictions, Scheduler};
use crate::models::{Job, NodeView, Placement};
use crate::resource::ResourceManager;
use crate::sorting::{lemma_sort_by_arrival, sort_by_arrival};
use crate::strings::ids_view;

verus! {

/// A placement as plain values: job id, resource ids, start time.
pub open spec fn placement_view(p: Placement) -> (Seq<char>, Seq<Seq<char>>, u64) {
    (p.job_id@, ids_view(p.gpu_ids@), p.start_time)
}

/// The placements as plain values.
pub open spec fn placements_view(ps: Seq<Placement>) -> Seq<(Seq<char>, Seq<Seq<char>>, u64)> {
    ps.map_values(|p: Placement| placement_view(p))
}

/// All resource ids of the placements, in order.
pub open spec fn all_ids(ps: Seq<(Seq<char>, Seq<Seq<char>>, u64)>) -> Seq<Seq<char>>
    decreases ps.len(),
{
    if ps.len() == 0 {
        Seq::empty()
    } else {
        all_ids(ps.drop_last()) + ps.last().1
    }
}

/// One pass over the jobs in order: a job that `can_place` admits (its
/// resources are free and, next to the `running` jobs, its tenant stays
/// within `quotas`) and that `allocate` places is recorded, and its
/// resources are held by it for the rest of the pass. Gives the placements,
/// the nodes at the end of the pass and the repartition count.
pub open spec fn fifo_pass(
    rm: &ResourceManager,
    nv: Seq<NodeView>,
    reconfigs: u32,
    running: Seq<Job>,
    quotas: Seq<(String, u32)>,
    jobs: Seq<Job>,
    t: u64,
) -> (Seq<(Seq<char>, Seq<Seq<char>>, u64)>, Seq<NodeView>, u32)
    decreases jobs.len(),
{
    if jobs.len() == 0 {
        (Seq::empty(), nv, reconfigs)
    } else {
        let prev = fifo_pass(rm, nv, reconfigs, running, quotas, jobs.drop_last(), t);
        let j = jobs.last();
        if rm.spec_can_place(prev.1, j) && within_quota(running, quotas, j) {
            match rm.outcome(prev.1, prev.2, j, t) {
                Some(o) => (prev.0.push((j.id@, o.0, o.1)), set_resources_job(o.2, o.0, Some(j.id@)), o.3),
                None => prev,
            }
        } else {
            prev
        }
    }
}

pub proof fn lemma_set_resources_concat(nv: Seq<NodeView>, a: Seq<Seq<char>>, b: Seq<Seq<char>>, job: Option<Seq<char>>)
    ensures
        set_resources_job(nv, a + b, job) == set_resources_job(set_resources_job(nv, a, job), b, job),
    decreases b.len(),
{
    if b.len() == 0 {
        assert(a + b =~= a);
    } else {
        lemma_set_resources_concat(nv, a, b.drop_last(), job);
        assert((a + b).drop_last() =~= a + b.drop_last());
    }
}

/// A pass over more jobs extends the placements of a pass over fewer.
proof fn lemma_fifo_pass_prefix(
    rm: &ResourceManager,
    nv: Seq<NodeView>,
    reconfigs: u32,
    running: Seq<Job>,
    quotas: Seq<(String, u32)>,
    jobs: Seq<Job>,
    t: u64,
    k: int,
)
    requires
        0 <= k <= jobs.len(),
    ensures
        fifo_pass(rm, nv, reconfigs, running, quotas, jobs.take(k), t).0.len() <= fifo_pass(rm, nv, reconfigs, running, quotas, jobs, t).0.len(),
        forall|i: int|
            0 <= i < fifo_pass(rm, nv, reconfigs, running, quotas, jobs.take(k), t).0.len() ==> #[trigger] fifo_pass(
                rm,
                nv,
                reconfigs,
                running,
                quotas,
                jobs.take(k),
                t,
            ).0[i] == fifo_pass(rm, nv, reconfigs, running, quotas, jobs, t).0[i],
    decreases jobs.len() - k,
{
    if k == jobs.len() {
        assert(jobs.take(k) =~= jobs);
    } else {
        lemma_fifo_pass_prefix(rm, nv, reconfigs, running, quotas, jobs, t, k + 1);
        assert(jobs.take(k + 1).drop_last() =~= jobs.take(k));
        let a = fifo_pass(rm, nv, reconfigs, running, quotas, jobs.take(k), t).0;
        let b = fifo_pass(rm, nv, reconfigs, running, quotas, jobs.take(k + 1), t).0;
        assert(b == a || (b.len() == a.len() + 1 && b.drop_last() == a));
        assert forall|i: int| 0 <= i < a.len() implies #[trigger] a[i] == fifo_pass(rm, nv, reconfigs, running, quotas, jobs, t).0[i] by {
            assert(a[i] == b[i]);
        }
    }
}

/// The earliest job goes first: when the first job of a FIFO pass can be
/// placed, it is the first placement of the pass.
pub proof fn law_fifo_places_first_job_first(
    rm: &ResourceManager,
    nv: Seq<NodeView>,
    reconfigs: u32,
    running: Seq<Job>,
    quotas: Seq<(String, u32)>,
    jobs: Seq<Job>,
    t: u64,
)
    requires
        jobs.len() > 0,
        rm.spec_can_place(nv, jobs[0]),
        within_quota(running, quotas, jobs[0]),
        rm.outcome(nv, reconfigs, jobs[0], t) is Some,
    ensures
        fifo_pass(rm, nv, reconfigs, running, quotas, jobs, t).0.len() > 0,
        fifo_pass(rm, nv, reconfigs, running, quotas, jobs, t).0[0].0 == jobs[0].id@,
{
    lemma_fifo_pass_prefix(rm, nv, reconfigs, running, quotas, jobs, t, 1);
    let one = jobs.take(1);
    assert(one.drop_last() =~= Seq::<Job>::empty());
    assert(one.last() == jobs[0]);
    assert(fifo_pass(rm, nv, reconfigs, running, quotas, one.drop_last(), t) == (Seq::<(Seq<char>, Seq<Seq<char>>, u64)>::empty(), nv, reconfigs));
    assert(fifo_pass(rm, nv, reconfigs, running, quotas, one, t).0[0].0 == jobs[0].id@);
}

/// First-in-first-out scheduler: earliest arrival first, all-or-nothing
/// placement; a job that does not fit is skipped and later jobs are still
/// tried.
#[derive(Debug, Default, Clone, Copy)]
pub struct FifoScheduler;

/// What one placement pass over `queue`, in that order, gives on `c0`: the
/// pass runs at the cluster clock, next to its running jobs and under its
/// tenant quotas; the queue is left in that order, and the resources the
/// pass held are released again at the end (starting the jobs marks them).
pub open spec fn pass_result(rm: &ResourceManager, c0: &Cluster, queue: Seq<Job>, c1: &Cluster, ps: Seq<Placement>) -> bool {
    let pass = fifo_pass(rm, c0.resources(), c0.mig_reconfigs, c0.running_jobs@, c0.tenant_quotas@, queue, c0.clock);
    &&& c1.waiting_queue@ == queue
    &&& placements_view(ps) == pass.0
    &&& c1.resources() == set_resources_job(pass.1, all_ids(pass.0), None)
    &&& c1.mig_reconfigs == pass.2
    &&& c1.running_jobs == c0.running_jobs
    &&& c1.finished_jobs == c0.finished_jobs
    &&& c1.clock == c0.clock
    &&& c1.tenant_quotas == c0.tenant_quotas
    &&& c1.failed_jobs == c0.failed_jobs
}

/// Places the waiting jobs in queue order in one pass: a job that
/// `can_place` admits and `allocate` places is recorded, its resources held
/// for the rest of the pass; a job that does not fit is skipped and later
/// jobs are still tried.
pub fn place_in_order(cluster: &mut Cluster, resource_manager: &ResourceManager) -> (placements: Vec<Placement>)
    requires
        old(cluster).wf(),
    ensures
        final(cluster).wf(),
        pass_result(resource_manager, old(cluster), old(cluster).waiting_queue@, final(cluster), placements@),
{
    let ghost c0 = *cluster;
    let mut waiting: Vec<Job> = Vec::new();
    std::mem::swap(&mut waiting, &mut cluster.waiting_queue);
    let ghost sorted = waiting@;
    let clock = cluster.clock;
    let mut placements: Vec<Placement> = Vec::new();
    let mut i: usize = 0;
    while i < waiting.len()
        invariant
            sorted == waiting@,
            sorted == c0.waiting_queue@,
            i <= sorted.len(),
            cluster.wf(),
            clock == c0.clock,
            ({
                let pass = fifo_pass(
                    resource_manager,
                    c0.resources(),
                    c0.mig_reconfigs,
                    c0.running_jobs@,
                    c0.tenant_quotas@,
                    sorted.take(i as int),
                    clock,
                );
                &&& placements_view(placements@) == pass.0
                &&& cluster.resources() == pass.1
                &&& cluster.mig_reconfigs == pass.2
            }),
            cluster.waiting_queue@.len() == 0,
            cluster.running_jobs == c0.running_jobs,
            cluster.finished_jobs == c0.finished_jobs,
            cluster.clock == c0.clock,
            cluster.tenant_quotas == c0.tenant_quotas,
            cluster.failed_jobs == c0.failed_jobs,
        decreases sorted.len() - i,
    {
        assert(sorted.take(i as int + 1).drop_last() =~= sorted.take(i as int));
        let job = &waiting[i];
        if resource_manager.can_place(cluster, job) {
            match resource_manager.allocate(cluster, job, clock) {
                Ok(placement) => {
                    cluster.mark_all(placement.gpu_ids.as_slice(), job.id.as_str(), Some(job.id.clone()));
                    let ghost before = placements@;
                    placements.push(placement);
                    assert(placements_view(placements@) =~= placements_view(before).push(placement_view(placement)));
                },
                Err(_) => {},
            }
        }
        i = i + 1;
    }
    assert(sorted.take(sorted.len() as int) =~= sorted);
    std::mem::swap(&mut waiting, &mut cluster.waiting_queue);
    let ghost pass_nv = cluster.resources();
    let ghost pass_rc = cluster.mig_reconfigs;
    let mut k: usize = 0;
    while k < placements.len()
        invariant
            k <= placements@.len(),
            cluster.wf(),
            cluster.resources() == set_resources_job(pass_nv, all_ids(placements_view(placements@).take(k as int)), None),
            cluster.waiting_queue@ == sorted,
            cluster.mig_reconfigs == pass_rc,
            cluster.running_jobs == c0.running_jobs,
            cluster.finished_jobs == c0.finished_jobs,
            cluster.clock == c0.clock,
            cluster.tenant_quotas == c0.tenant_quotas,
            cluster.failed_jobs == c0.failed_jobs,
        decreases placements@.len() - k,
    {
        let ghost pv = placements_view(placements@);
        assert(pv.take(k as int + 1).drop_last() =~= pv.take(k as int));
        proof {
            lemma_set_resources_concat(pass_nv, all_ids(pv.take(k as int)), pv[k as int].1, None);
        }
        cluster.mark_all(placements[k].gpu_ids.as_slice(), "", None);
        k = k + 1;
    }
    assert(placements_view(placements@).take(placements@.len() as int) =~= placements_view(placements@));
    placements
}

impl FifoScheduler {
    /// What `schedule` gives on `c0`: one placement pass over the waiting
    /// jobs in arrival order (see `pass_result`).
    pub open spec fn spec_schedule(rm: &ResourceManager, c0: &Cluster, c1: &Cluster, ps: Seq<Placement>) -> bool {
        pass_result(rm, c0, sort_by_arrival(c0.waiting_queue@), c1, ps)
    }

    pub fn schedule_fifo(&mut self, cluster: &mut Cluster, resource_manager: &ResourceManager) -> (placements: Vec<Placement>)
        requires
            old(cluster).wf(),
        ensures
            final(cluster).wf(),
            Self::spec_schedule(resource_manager, old(cluster), final(cluster), placements@),
            final(cluster).waiting_queue@.to_multiset() == old(cluster).waiting_queue@.to_multiset(),
    {
        proof {
            lemma_sort_by_arrival(cluster.waiting_queue@);
        }
        cluster.sort_waiting_by_arrival();
        place_in_order(cluster, resource_manager)
    }
}

impl Scheduler for FifoScheduler {
    /// One FIFO pass (see `spec_schedule`).
    open spec fn schedules(&self, next: &Self, c0: &Cluster, rm: &ResourceManager, c1: &Cluster, ps: Seq<Placement>) -> bool {
        Self::spec_schedule(rm, c0, c1, ps)
    }

    fn schedule(&mut self, cluster: &mut Cluster, resource_manager: &ResourceManager) -> (placements: Vec<Placement>) {
        let ghost c0 = *cluster;
        let placements = self.schedule_fifo(cluster, resource_manager);
        proof {
            lemma_no_evictions(&c0, cluster);
        }
        placements
    }
}

/// A FIFO pass would place job `j` on nodes `nv`: `can_place` admits it
/// (resources free, tenant within quota next to the `running` jobs) and
/// `allocate` places it.
pub open spec fn fifo_admits(
    rm: &ResourceManager,
    nv: Seq<NodeView>,
    reconfigs: u32,
    running: Seq<Job>,
    quotas: Seq<(String, u32)>,
    j: Job,
    t: u64,
) -> bool {
    rm.spec_can_place(nv, j) && within_quota(running, quotas, j) && rm.outcome(nv, reconfigs, j, t) is Some
}

/// Each placement of a FIFO pass is for one of the jobs it went over.
proof fn lemma_fifo_pass_ids(
    rm: &ResourceManager,
    nv: Seq<NodeView>,
    reconfigs: u32,
    running: Seq<Job>,
    quotas: Seq<(String, u32)>,
    jobs: Seq<Job>,
    t: u64,
)
    ensures
        forall|k: int|
            0 <= k < fifo_pass(rm, nv, reconfigs, running, quotas, jobs, t).0.len() ==> has_job(
                jobs,
                (#[trigger] fifo_pass(rm, nv, reconfigs, running, quotas, jobs, t).0[k]).0,
            ),
    decreases jobs.len(),
{
    if jobs.len() > 0 {
        let d = jobs.drop_last();
        lemma_fifo_pass_ids(rm, nv, reconfigs, running, quotas, d, t);
        let prev = fifo_pass(rm, nv, reconfigs, running, quotas, d, t).0;
        let cur = fifo_pass(rm, nv, reconfigs, running, quotas, jobs, t).0;
        assert forall|k: int| 0 <= k < cur.len() implies has_job(jobs, (#[trigger] cur[k]).0) by {
            if k < prev.len() {
                assert(cur[k] == prev[k]);
                let i = choose|i: int| 0 <= i < d.len() && (#[trigger] d[i]).id@ == prev[k].0;
                assert(jobs[i] == d[i]);
            } else {
                assert(jobs[jobs.len() - 1] == jobs.last());
            }
        }
    }
}

/// A FIFO pass that placed nothing left the nodes and the repartition
/// count as they were and admitted none of its jobs.
proof fn lemma_fifo_pass_empty(
    rm: &ResourceManager,
    nv: Seq<NodeView>,
    reconfigs: u32,
    running: Seq<Job>,
    quotas: Seq<(String, u32)>,
    jobs: Seq<Job>,
    t: u64,
)
    requires
        fifo_pass(rm, nv, reconfigs, running, quotas, jobs, t).0.len() == 0,
    ensures
        fifo_pass(rm, nv, reconfigs, running, quotas, jobs, t).1 == nv,
        fifo_pass(rm, nv, reconfigs, running, quotas, jobs, t).2 == reconfigs,
        forall|i: int| 0 <= i < jobs.len() ==> !fifo_admits(rm, nv, reconfigs, running, quotas, #[trigger] jobs[i], t),
    decreases jobs.len(),
{
    if jobs.len() > 0 {
        let d = jobs.drop_last();
        let prev = fifo_pass(rm, nv, reconfigs, running, quotas, d, t);
        assert(prev.0.len() == 0);
        lemma_fifo_pass_empty(rm, nv, reconfigs, running, quotas, d, t);
        assert forall|i: int| 0 <= i < jobs.len() implies !fifo_admits(rm, nv, reconfigs, running, quotas, #[trigger] jobs[i], t) by {
            if i < d.len() {
                assert(jobs[i] == d[i]);
            } else {
                assert(jobs[i] == jobs.last());
            }
        }
    }
}

/// A FIFO round that starts nothing leaves only jobs it cannot place: when
/// no placement of the round names a job still waiting, the round made no
/// placement, left the nodes, repartition count and running jobs as they
/// were, and every waiting job is refused by `can_place` (resources or
/// tenant quota) or by `allocate`.
pub proof fn law_fifo_idle_round(rm: ResourceManager, c0: Cluster, c1: Cluster, ps: Seq<Placement>)
    requires
        FifoScheduler::spec_schedule(&rm, &c0, &c1, ps),
        forall|k: int| 0 <= k < ps.len() ==> !has_job(c1.waiting_queue@, (#[trigger] ps[k]).job_id@),
    ensures
        ps.len() == 0,
        c1.resources() == c0.resources(),
        c1.mig_reconfigs == c0.mig_reconfigs,
        c1.running_jobs == c0.running_jobs,
        forall|i: int|
            0 <= i < c1.waiting_queue@.len() ==> !fifo_admits(
                &rm,
                c1.resources(),
                c1.mig_reconfigs,
                c1.running_jobs@,
                c1.tenant_quotas@,
                #[trigger] c1.waiting_queue@[i],
                c0.clock,
            ),
{
    let sorted = sort_by_arrival(c0.waiting_queue@);
    let nv = c0.resources();
    lemma_fifo_pass_ids(&rm, nv, c0.mig_reconfigs, c0.running_jobs@, c0.tenant_quotas@, sorted, c0.clock);
    let pass = fifo_pass(&rm, nv, c0.mig_reconfigs, c0.running_jobs@, c0.tenant_quotas@, sorted, c0.clock);
    if ps.len() > 0 {
        assert(placements_view(ps)[0] == placement_view(ps[0]));
        assert(pass.0[0].0 == ps[0].job_id@);
        assert(has_job(sorted, pass.0[0].0));
        assert(false);
    }
    assert(placements_view(ps).len() == 0);
    lemma_fifo_pass_empty(&rm, nv, c0.mig_reconfigs, c0.running_jobs@, c0.tenant_quotas@, sorted, c0.clock);
}

/// Every job still waiting at the end of a FIFO run is one that cannot be
/// placed: when the run ended idle (`SimulationEngine::run` gives this when
/// every running job had its completion queued), either some resource
/// manager and time at which every waiting job is refused by `can_place` or
/// `allocate` on the final nodes, next to the final running jobs, exist,
/// or no round ran and only the clock changed.
pub proof fn law_fifo_run_leaves_unplaceable_jobs(
    start: SimulationEngine<FifoScheduler>,
    last: SimulationEngine<FifoScheduler>,
)
    requires
        last.ends_idle(start),
    ensures
        (exists|rm: ResourceManager, t: u64| #[trigger] refuses_all(rm, last.cluster, t)) || last.cluster == (Cluster {
            clock: last.cluster.clock,
            ..start.cluster
        }),
{
    if exists|mid: SimulationEngine<FifoScheduler>, s1: FifoScheduler, c1: Cluster, ps: Seq<Placement>|
        #[trigger] last.idle_last_round(mid, s1, c1, ps) {
        let (mid, s1, c1, ps) = choose|mid: SimulationEngine<FifoScheduler>, s1: FifoScheduler, c1: Cluster, ps: Seq<Placement>|
            #[trigger] last.idle_last_round(mid, s1, c1, ps);
        law_fifo_idle_round(mid.resource_manager, mid.cluster, c1, ps);
        assert(refuses_all(mid.resource_manager, last.cluster, mid.cluster.clock));
    }
}

/// Every waiting job of `c` is refused by `can_place` or `allocate` of `rm`
/// on `c`'s nodes at time `t`.
pub open spec fn refuses_all(rm: ResourceManager, c: Cluster, t: u64) -> bool {
    forall|i: int|
        0 <= i < c.waiting_queue@.len() ==> !fifo_admits(
            &rm,
            c.resources(),
            c.mig_reconfigs,
            c.running_jobs@,
            c.tenant_quotas@,
            #[trigger] c.waiting_queue@[i],
            t,
        )
}

} // verus!
