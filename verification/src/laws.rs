//! Properties that span several operations of the library: what marking
//! resources leaves behind (`Cluster::start_job`, `Cluster::finish_job`)
//! and what a successful placement gives (`ResourceManager::allocate`),
//! including NVLink-domain placement, the spread of gang jobs over nodes,
//! first-fit GPU selection and which GPUs a MIG placement may repartition,
//! and how evictions keep the work a job has done.

use vstd::prelude::*;
use crate::cluster::{
    gpu_is, gpu_location, first_gpu, first_slice, gpus_of, lemma_first_gpu_unique,
    lemma_first_slice_unique, set_resource_job, set_resources_job, slice_is, slice_location,
    valid_gpu, valid_slice,
};
use crate::cluster::Cluster;
use crate::models::{GpuView, Job, JobState, NodeView, Placement};
use crate::mig::SimError;
use crate::mig::lookup_profile;
use crate::resource::{first_reconfigurable, reconfig_candidate, best_node, GpuSelectionPolicy, can_place_whole, domain_ids, gang_nodes, gang_share, spread_ids, first_domain, in_domain, prefers_domain, whole_choice, fitting_ids, free_slice_ids, sat_add, sat_inc, take_upto, whole_fit, ResourceManager};

verus! {

/// The job holding resource `id`: the holder of the first slice with that
/// id, else of the first GPU with that id; `None` when no resource has it.
pub open spec fn resource_holder(nv: Seq<NodeView>, id: Seq<char>) -> Option<Option<Seq<char>>> {
    match slice_location(nv, id) {
        Some(l) => Some(nv[l.0].gpus[l.1].slices[l.2].running_job_id),
        None => match gpu_location(nv, id) {
            Some(l) => Some(nv[l.0].gpus[l.1].running_job_id),
            None => None,
        },
    }
}

/// Setting a holder changes no id and no shape, so every slice and GPU is
/// found where it was.
proof fn lemma_locations_kept(nv: Seq<NodeView>, x: Seq<char>, job: Option<Seq<char>>, id: Seq<char>)
    ensures
        slice_location(set_resource_job(nv, x, job), id) == slice_location(nv, id),
        gpu_location(set_resource_job(nv, x, job), id) == gpu_location(nv, id),
{
    let nv2 = set_resource_job(nv, x, job);
    assert forall|n: int, g: int, s: int| slice_is(nv2, id, n, g, s) == slice_is(nv, id, n, g, s) by {
        if valid_gpu(nv, n, g) {
            assert(nv2[n].gpus[g].slices.len() == nv[n].gpus[g].slices.len());
            if valid_slice(nv, n, g, s) {
                assert(nv2[n].gpus[g].slices[s].id == nv[n].gpus[g].slices[s].id);
            }
        }
    }
    assert forall|n: int, g: int| gpu_is(nv2, id, n, g) == gpu_is(nv, id, n, g) by {
        if 0 <= n < nv.len() {
            assert(nv2[n].gpus.len() == nv[n].gpus.len());
            if valid_gpu(nv, n, g) {
                assert(nv2[n].gpus[g].id == nv[n].gpus[g].id);
            }
        }
    }
    assert forall|n: int, g: int, s: int| first_slice(nv2, id, n, g, s) == first_slice(nv, id, n, g, s) by {
        assert(slice_is(nv2, id, n, g, s) == slice_is(nv, id, n, g, s));
        if first_slice(nv, id, n, g, s) {
            assert forall|n2: int, g2: int, s2: int|
                #![trigger slice_is(nv2, id, n2, g2, s2)]
                crate::cluster::before3(n2, g2, s2, n, g, s) implies !slice_is(nv2, id, n2, g2, s2) by {
                assert(slice_is(nv2, id, n2, g2, s2) == slice_is(nv, id, n2, g2, s2));
            }
        }
        if first_slice(nv2, id, n, g, s) {
            assert forall|n2: int, g2: int, s2: int|
                #![trigger slice_is(nv, id, n2, g2, s2)]
                crate::cluster::before3(n2, g2, s2, n, g, s) implies !slice_is(nv, id, n2, g2, s2) by {
                assert(slice_is(nv2, id, n2, g2, s2) == slice_is(nv, id, n2, g2, s2));
            }
        }
    }
    assert forall|n: int, g: int| first_gpu(nv2, id, n, g) == first_gpu(nv, id, n, g) by {
        assert(gpu_is(nv2, id, n, g) == gpu_is(nv, id, n, g));
        if first_gpu(nv, id, n, g) {
            assert forall|n2: int, g2: int|
                #![trigger gpu_is(nv2, id, n2, g2)]
                crate::cluster::before2(n2, g2, n, g) implies !gpu_is(nv2, id, n2, g2) by {
                assert(gpu_is(nv2, id, n2, g2) == gpu_is(nv, id, n2, g2));
            }
        }
        if first_gpu(nv2, id, n, g) {
            assert forall|n2: int, g2: int|
                #![trigger gpu_is(nv, id, n2, g2)]
                crate::cluster::before2(n2, g2, n, g) implies !gpu_is(nv, id, n2, g2) by {
                assert(gpu_is(nv2, id, n2, g2) == gpu_is(nv, id, n2, g2));
            }
        }
    }
    if exists|n: int, g: int, s: int| first_slice(nv, id, n, g, s) {
        let (a, b, c) = choose|n: int, g: int, s: int| first_slice(nv, id, n, g, s);
        assert(first_slice(nv2, id, a, b, c));
        let (a2, b2, c2) = choose|n: int, g: int, s: int| first_slice(nv2, id, n, g, s);
        assert(first_slice(nv, id, a2, b2, c2));
        lemma_first_slice_unique(nv, id, a, b, c, a2, b2, c2);
    } else {
        if exists|n: int, g: int, s: int| first_slice(nv2, id, n, g, s) {
            let (a2, b2, c2) = choose|n: int, g: int, s: int| first_slice(nv2, id, n, g, s);
            assert(first_slice(nv, id, a2, b2, c2));
        }
    }
    if exists|n: int, g: int| first_gpu(nv, id, n, g) {
        let (a, b) = choose|n: int, g: int| first_gpu(nv, id, n, g);
        assert(first_gpu(nv2, id, a, b));
        let (a2, b2) = choose|n: int, g: int| first_gpu(nv2, id, n, g);
        assert(first_gpu(nv, id, a2, b2));
        lemma_first_gpu_unique(nv, id, a, b, a2, b2);
    } else {
        if exists|n: int, g: int| first_gpu(nv2, id, n, g) {
            let (a2, b2) = choose|n: int, g: int| first_gpu(nv2, id, n, g);
            assert(first_gpu(nv, id, a2, b2));
        }
    }
}

/// Setting the holder of `x` leaves any other resource's holder as it was
/// or gives it the same holder, and never makes a resource disappear.
proof fn lemma_holder_after_set(nv: Seq<NodeView>, x: Seq<char>, job: Option<Seq<char>>, id: Seq<char>)
    ensures
        resource_holder(set_resource_job(nv, x, job), id) is Some <==> resource_holder(nv, id) is Some,
        resource_holder(nv, x) is Some ==> resource_holder(set_resource_job(nv, x, job), x) == Some(job),
        resource_holder(set_resource_job(nv, x, job), id) == resource_holder(nv, id)
            || resource_holder(set_resource_job(nv, x, job), id) == Some(job),
{
    lemma_locations_kept(nv, x, job, id);
    lemma_locations_kept(nv, x, job, x);
    let nv2 = set_resource_job(nv, x, job);
    match slice_location(nv, id) {
        Some(l) => {
            let (a, b, c) = choose|n: int, g: int, s: int| first_slice(nv, id, n, g, s);
            assert(l == (a, b, c));
            assert(valid_slice(nv, a, b, c));
        },
        None => match gpu_location(nv, id) {
            Some(l) => {
                let (a, b) = choose|n: int, g: int| first_gpu(nv, id, n, g);
                assert(l == (a, b));
                assert(valid_gpu(nv, a, b));
            },
            None => {},
        },
    }
    match slice_location(nv, x) {
        Some(l) => {
            let (a, b, c) = choose|n: int, g: int, s: int| first_slice(nv, x, n, g, s);
            assert(l == (a, b, c));
            assert(valid_slice(nv, a, b, c));
        },
        None => match gpu_location(nv, x) {
            Some(l) => {
                let (a, b) = choose|n: int, g: int| first_gpu(nv, x, n, g);
                assert(l == (a, b));
                assert(valid_gpu(nv, a, b));
            },
            None => {},
        },
    }
}

/// Marking resources `ids` with a holder leaves every one of them that
/// exists held by it. So after `Cluster::start_job` each existing
/// resource of the placement is held by the started job, and after
/// `Cluster::finish_job` each existing resource the job held is free.
pub proof fn law_marked_resources_held(nv: Seq<NodeView>, ids: Seq<Seq<char>>, job: Option<Seq<char>>)
    ensures
        forall|i: int|
            0 <= i < ids.len() && resource_holder(nv, #[trigger] ids[i]) is Some ==> resource_holder(
                set_resources_job(nv, ids, job),
                ids[i],
            ) == Some(job),
        forall|id: Seq<char>|
            #[trigger] resource_holder(set_resources_job(nv, ids, job), id) is Some <==> resource_holder(nv, id)
                is Some,
    decreases ids.len(),
{
    if ids.len() > 0 {
        let prev = ids.drop_last();
        law_marked_resources_held(nv, prev, job);
        let r = set_resources_job(nv, prev, job);
        assert forall|id: Seq<char>|
            #[trigger] resource_holder(set_resources_job(nv, ids, job), id) is Some <==> resource_holder(nv, id)
                is Some by {
            lemma_holder_after_set(r, ids.last(), job, id);
            assert(resource_holder(r, id) is Some <==> resource_holder(nv, id) is Some);
        }
        assert forall|i: int|
            0 <= i < ids.len() && resource_holder(nv, #[trigger] ids[i]) is Some implies resource_holder(
                set_resources_job(nv, ids, job),
                ids[i],
            ) == Some(job) by {
            lemma_holder_after_set(r, ids.last(), job, ids[i]);
            assert(resource_holder(r, ids[i]) is Some <==> resource_holder(nv, ids[i]) is Some);
            if i < ids.len() - 1 {
                assert(prev[i] == ids[i]);
                assert(resource_holder(r, prev[i]) == Some(job));
            }
        }
    }
}

/// Some GPU of `gpus` has id `id` and fits the job.
pub open spec fn names_fitting_gpu(gpus: Seq<GpuView>, id: Seq<char>, job: Job) -> bool {
    exists|k: int| 0 <= k < gpus.len() && (#[trigger] gpus[k]).id == id && whole_fit(gpus[k], job)
}

/// Every id that `fitting_ids` lists names a GPU that fits the job.
proof fn lemma_fitting_ids_fit(gpus: Seq<GpuView>, job: Job)
    ensures
        forall|i: int|
            0 <= i < fitting_ids(gpus, job).len() ==> names_fitting_gpu(gpus, #[trigger] fitting_ids(gpus, job)[i], job),
    decreases gpus.len(),
{
    if gpus.len() > 0 {
        let prev = gpus.drop_last();
        lemma_fitting_ids_fit(prev, job);
        assert forall|i: int| 0 <= i < fitting_ids(gpus, job).len() implies names_fitting_gpu(
            gpus,
            #[trigger] fitting_ids(gpus, job)[i],
            job,
        ) by {
            if i < fitting_ids(prev, job).len() {
                assert(fitting_ids(gpus, job)[i] == fitting_ids(prev, job)[i]);
                assert(names_fitting_gpu(prev, fitting_ids(prev, job)[i], job));
                let k = choose|k: int|
                    0 <= k < prev.len() && (#[trigger] prev[k]).id == fitting_ids(prev, job)[i] && whole_fit(prev[k], job);
                assert(gpus[k] == prev[k]);
            } else {
                assert(gpus[gpus.len() - 1] == gpus.last());
            }
        }
    }
}

/// Every GPU that fits the job on node `k` is a GPU of the cluster that
/// fits it.
proof fn lemma_node_fitting_in_flat(nv: Seq<NodeView>, k: int, job: Job)
    requires
        0 <= k < nv.len(),
    ensures
        forall|i: int|
            0 <= i < fitting_ids(nv[k].gpus, job).len() ==> names_fitting_gpu(
                gpus_of(nv),
                #[trigger] fitting_ids(nv[k].gpus, job)[i],
                job,
            ),
    decreases nv.len(),
{
    let d = nv.drop_last();
    let all = gpus_of(nv);
    assert(all == gpus_of(d) + nv.last().gpus);
    let fit = fitting_ids(nv[k].gpus, job);
    if k < nv.len() - 1 {
        lemma_node_fitting_in_flat(d, k, job);
        assert(d[k] == nv[k]);
        assert forall|i: int| 0 <= i < fit.len() implies names_fitting_gpu(all, #[trigger] fit[i], job) by {
            let m = choose|m: int| 0 <= m < gpus_of(d).len() && (#[trigger] gpus_of(d)[m]).id == fit[i] && whole_fit(gpus_of(d)[m], job);
            assert(all[m] == gpus_of(d)[m]);
        }
    } else {
        lemma_fitting_ids_fit(nv.last().gpus, job);
        assert forall|i: int| 0 <= i < fit.len() implies names_fitting_gpu(all, #[trigger] fit[i], job) by {
            assert(names_fitting_gpu(nv.last().gpus, fit[i], job));
            let m = choose|m: int| 0 <= m < nv.last().gpus.len() && (#[trigger] nv.last().gpus[m]).id == fit[i] && whole_fit(nv.last().gpus[m], job);
            assert(all[gpus_of(d).len() + m] == nv.last().gpus[m]);
        }
    }
}

/// The node positions `spread_ids` takes GPUs from, in order.
pub open spec fn spread_nodes(nv: Seq<NodeView>, job: Job, per: nat, total: nat) -> Seq<int>
    decreases nv.len(),
{
    if nv.len() == 0 {
        Seq::empty()
    } else {
        let prev = spread_nodes(nv.drop_last(), job, per, total);
        if spread_ids(nv.drop_last(), job, per, total).len() < total && fitting_ids(nv.last().gpus, job).len() >= per {
            prev.push(nv.len() - 1)
        } else {
            prev
        }
    }
}

/// The first `per` GPUs that fit the job on each node at positions `idx`,
/// node after node.
pub open spec fn gather(nv: Seq<NodeView>, idx: Seq<int>, job: Job, per: nat) -> Seq<Seq<char>>
    decreases idx.len(),
{
    if idx.len() == 0 {
        Seq::empty()
    } else {
        gather(nv, idx.drop_last(), job, per) + fitting_ids(nv[idx.last()].gpus, job).take(per as int)
    }
}

proof fn lemma_gather_prefix(nv: Seq<NodeView>, d: Seq<NodeView>, idx: Seq<int>, job: Job, per: nat)
    requires
        d.len() <= nv.len(),
        forall|k: int| 0 <= k < d.len() ==> nv[k] == d[k],
        forall|a: int| 0 <= a < idx.len() ==> 0 <= #[trigger] idx[a] < d.len(),
    ensures
        gather(nv, idx, job, per) == gather(d, idx, job, per),
    decreases idx.len(),
{
    if idx.len() > 0 {
        lemma_gather_prefix(nv, d, idx.drop_last(), job, per);
        assert(nv[idx.last()] == d[idx.last()]);
    }
}

/// `spread_ids` takes the first `per` fitting GPUs of each node it uses,
/// from node positions in increasing order.
proof fn lemma_spread_shape(nv: Seq<NodeView>, job: Job, per: nat, total: nat)
    ensures
        spread_ids(nv, job, per, total) == gather(nv, spread_nodes(nv, job, per, total), job, per),
        spread_ids(nv, job, per, total).len() == spread_nodes(nv, job, per, total).len() * per,
        forall|a: int, b: int|
            0 <= a < b < spread_nodes(nv, job, per, total).len() ==> #[trigger] spread_nodes(nv, job, per, total)[a]
                < #[trigger] spread_nodes(nv, job, per, total)[b],
        forall|a: int|
            0 <= a < spread_nodes(nv, job, per, total).len() ==> 0 <= #[trigger] spread_nodes(nv, job, per, total)[a]
                < nv.len(),
    decreases nv.len(),
{
    if nv.len() > 0 {
        let d = nv.drop_last();
        lemma_spread_shape(d, job, per, total);
        let idx = spread_nodes(d, job, per, total);
        lemma_gather_prefix(nv, d, idx, job, per);
        let here = fitting_ids(nv.last().gpus, job);
        if spread_ids(d, job, per, total).len() < total && here.len() >= per {
            let n = idx.len();
            let idx1 = idx.push(nv.len() - 1);
            assert(idx1.drop_last() =~= idx);
            assert(idx1.last() == nv.len() - 1);
            assert(here.take(per as int).len() == per);
            assert(n * per + per == (n + 1) * per) by (nonlinear_arith);
            assert forall|a: int, b: int| 0 <= a < b < idx1.len() implies #[trigger] idx1[a] < #[trigger] idx1[b] by {
                assert(idx1[a] == idx[a]);
                if b < idx.len() {
                    assert(idx1[b] == idx[b]);
                }
            }
            assert forall|a: int| 0 <= a < idx1.len() implies 0 <= #[trigger] idx1[a] < nv.len() by {
                if a < idx.len() {
                    assert(idx1[a] == idx[a]);
                }
            }
        }
    }
}

/// A gang job that spans `n` nodes is placed on exactly `n` distinct nodes
/// (increasing node positions), taking its share, the first
/// `gpu_count / n` GPUs that fit it, from each.
pub proof fn law_gang_spread(rm: ResourceManager, nv: Seq<NodeView>, reconfigs: u32, job: Job, t: u64)
    requires
        !job.spec_is_mig_job(),
        gang_nodes(job) is Some,
        rm.spec_can_place(nv, job),
    ensures
        ({
            let n = gang_nodes(job)->0;
            let per = gang_share(job, n);
            let idx = spread_nodes(nv, job, per, job.gpu_count as nat);
            &&& idx.len() == n
            &&& forall|a: int, b: int| 0 <= a < b < idx.len() ==> #[trigger] idx[a] < #[trigger] idx[b]
            &&& forall|a: int| 0 <= a < idx.len() ==> 0 <= #[trigger] idx[a] < nv.len()
            &&& rm.outcome(nv, reconfigs, job, t) == Some((gather(nv, idx, job, per), t, nv, reconfigs))
        }),
{
    let n = gang_nodes(job)->0;
    let per = gang_share(job, n);
    let total = job.gpu_count as nat;
    lemma_spread_shape(nv, job, per, total);
    let m = spread_nodes(nv, job, per, total).len();
    assert(m * per == n * per);
    assert(per > 0) by (nonlinear_arith)
        requires
            n * per == total,
            total > 0,
    ;
    assert(m == n) by (nonlinear_arith)
        requires
            m * per == n * per,
            per > 0,
    ;
}

/// Every id that `spread_ids` lists names a GPU that fits the job.
proof fn lemma_spread_ids_fit(nv: Seq<NodeView>, job: Job, per: nat, total: nat)
    ensures
        forall|i: int|
            0 <= i < spread_ids(nv, job, per, total).len() ==> names_fitting_gpu(
                gpus_of(nv),
                #[trigger] spread_ids(nv, job, per, total)[i],
                job,
            ),
    decreases nv.len(),
{
    if nv.len() > 0 {
        let d = nv.drop_last();
        let prev = spread_ids(d, job, per, total);
        let here = fitting_ids(nv.last().gpus, job);
        let ids = spread_ids(nv, job, per, total);
        lemma_spread_ids_fit(d, job, per, total);
        lemma_fitting_ids_fit(nv.last().gpus, job);
        let all = gpus_of(nv);
        assert(all == gpus_of(d) + nv.last().gpus);
        assert forall|i: int| 0 <= i < ids.len() implies names_fitting_gpu(all, #[trigger] ids[i], job) by {
            if i < prev.len() {
                assert(ids[i] == prev[i]);
                let k = choose|k: int| 0 <= k < gpus_of(d).len() && (#[trigger] gpus_of(d)[k]).id == prev[i] && whole_fit(gpus_of(d)[k], job);
                assert(all[k] == gpus_of(d)[k]);
            } else {
                assert(ids[i] == here[i - prev.len()]);
                assert(names_fitting_gpu(nv.last().gpus, here[i - prev.len()], job));
                let k = choose|k: int|
                    0 <= k < nv.last().gpus.len() && (#[trigger] nv.last().gpus[k]).id == here[i - prev.len()] && whole_fit(nv.last().gpus[k], job);
                assert(all[gpus_of(d).len() + k] == nv.last().gpus[k]);
            }
        }
    }
}

/// Every id that `domain_ids` lists names a GPU of `d`'s domain that fits
/// the job.
proof fn lemma_domain_ids_fit(gpus: Seq<GpuView>, d: GpuView, job: Job)
    ensures
        forall|i: int|
            0 <= i < domain_ids(gpus, d, job).len() ==> names_domain_gpu(gpus, d, #[trigger] domain_ids(gpus, d, job)[i], job),
    decreases gpus.len(),
{
    if gpus.len() > 0 {
        let prev = gpus.drop_last();
        lemma_domain_ids_fit(prev, d, job);
        assert forall|i: int| 0 <= i < domain_ids(gpus, d, job).len() implies names_domain_gpu(
            gpus,
            d,
            #[trigger] domain_ids(gpus, d, job)[i],
            job,
        ) by {
            if i < domain_ids(prev, d, job).len() {
                assert(domain_ids(gpus, d, job)[i] == domain_ids(prev, d, job)[i]);
                assert(names_domain_gpu(prev, d, domain_ids(prev, d, job)[i], job));
                let k = choose|k: int|
                    0 <= k < prev.len() && (#[trigger] prev[k]).id == domain_ids(prev, d, job)[i] && whole_fit(prev[k], job)
                        && in_domain(d, prev[k]);
                assert(gpus[k] == prev[k]);
            } else {
                assert(gpus[gpus.len() - 1] == gpus.last());
            }
        }
    }
}

/// Some GPU of `gpus` in `d`'s NVLink domain has id `id` and fits the job.
pub open spec fn names_domain_gpu(gpus: Seq<GpuView>, d: GpuView, id: Seq<char>, job: Job) -> bool {
    exists|k: int| 0 <= k < gpus.len() && (#[trigger] gpus[k]).id == id && whole_fit(gpus[k], job) && in_domain(d, gpus[k])
}

/// Every id of `ids` names a GPU of `d`'s domain that fits the job.
pub open spec fn all_in_domain(gpus: Seq<GpuView>, d: GpuView, ids: Seq<Seq<char>>, job: Job) -> bool {
    forall|i: int| 0 <= i < ids.len() ==> names_domain_gpu(gpus, d, #[trigger] ids[i], job)
}

/// A job that prefers one NVLink domain (it asks for network bandwidth, or
/// is a gang job with no node count) and fits on whole GPUs of some domain is placed entirely
/// within one domain: every GPU it gets is on the same node, in the same
/// NVLink group, and fits it.
pub proof fn law_domain_placement(rm: ResourceManager, nv: Seq<NodeView>, reconfigs: u32, job: Job, t: u64)
    requires
        !job.spec_is_mig_job(),
        prefers_domain(job),
        gang_nodes(job) is None,
        job.gpu_count > 0,
        exists|i: int| 0 <= i < gpus_of(nv).len() && domain_ids(gpus_of(nv), gpus_of(nv)[i], job).len() >= job.gpu_count,
    ensures
        rm.outcome(nv, reconfigs, job, t) is Some,
        exists|w: int|
            #[trigger] first_domain(gpus_of(nv), job, w) && all_in_domain(
                gpus_of(nv),
                gpus_of(nv)[w],
                (rm.outcome(nv, reconfigs, job, t)->0).0,
                job,
            ),
{
    let gv = gpus_of(nv);
    let i0 = choose|i: int| 0 <= i < gv.len() && domain_ids(gv, gv[i], job).len() >= job.gpu_count;
    lemma_first_domain_exists(gv, job, i0);
    let w = choose|w: int| first_domain(gv, job, w);
    lemma_domain_within_fitting(gv, gv[w], job);
    assert(can_place_whole(nv, job));
    lemma_domain_ids_fit(gv, gv[w], job);
    let ids = domain_ids(gv, gv[w], job).take(job.gpu_count as int);
    assert(ids == whole_choice(nv, job, rm.gpu_selection));
    assert forall|i: int| 0 <= i < ids.len() implies names_domain_gpu(gv, gv[w], #[trigger] ids[i], job) by {
        assert(ids[i] == domain_ids(gv, gv[w], job)[i]);
    }
    assert(all_in_domain(gv, gv[w], ids, job));
}

/// When some GPU opens a domain that holds the job, a first such GPU exists.
proof fn lemma_first_domain_exists(gpus: Seq<GpuView>, job: Job, i: int)
    requires
        0 <= i < gpus.len(),
        domain_ids(gpus, gpus[i], job).len() >= job.gpu_count,
    ensures
        exists|w: int| first_domain(gpus, job, w),
    decreases i,
{
    if exists|j: int| 0 <= j < i && domain_ids(gpus, #[trigger] gpus[j], job).len() >= job.gpu_count {
        let j = choose|j: int| 0 <= j < i && domain_ids(gpus, #[trigger] gpus[j], job).len() >= job.gpu_count;
        lemma_first_domain_exists(gpus, job, j);
    } else {
        assert(first_domain(gpus, job, i));
    }
}

/// A domain's fitting GPUs are among all fitting GPUs.
proof fn lemma_domain_within_fitting(gpus: Seq<GpuView>, d: GpuView, job: Job)
    ensures
        domain_ids(gpus, d, job).len() <= fitting_ids(gpus, job).len(),
    decreases gpus.len(),
{
    if gpus.len() > 0 {
        lemma_domain_within_fitting(gpus.drop_last(), d, job);
    }
}

/// Placement is all or nothing: a job that is placed gets exactly as many
/// resources as it needs (its MIG slice count for a MIG job, its GPU count
/// otherwise).
pub proof fn law_placement_is_complete(rm: ResourceManager, nv: Seq<NodeView>, reconfigs: u32, job: Job, t: u64)
    ensures
        rm.outcome(nv, reconfigs, job, t) matches Some(o) ==> o.0.len() == if job.spec_is_mig_job() {
            job.spec_slices_needed() as int
        } else {
            job.gpu_count as int
        },
{
}

/// A job without a MIG profile is placed exactly when `can_place` says it
/// can be, and then only on GPUs that are free and have the memory it asks
/// for.
pub proof fn law_whole_gpu_placement(rm: ResourceManager, nv: Seq<NodeView>, reconfigs: u32, job: Job, t: u64)
    requires
        !job.spec_is_mig_job(),
    ensures
        rm.outcome(nv, reconfigs, job, t) is Some <==> rm.spec_can_place(nv, job),
        rm.outcome(nv, reconfigs, job, t) matches Some(o) ==> forall|i: int|
            0 <= i < o.0.len() ==> names_fitting_gpu(gpus_of(nv), #[trigger] o.0[i], job),
{
    let gv = gpus_of(nv);
    lemma_fitting_ids_fit(gv, job);
    if can_place_whole(nv, job) {
        let ids = whole_choice(nv, job, rm.gpu_selection);
        if gang_nodes(job) is Some {
            lemma_spread_ids_fit(nv, job, gang_share(job, gang_nodes(job)->0), job.gpu_count as nat);
        } else if prefers_domain(job) && exists|i: int| first_domain(gv, job, i) {
            let w = choose|i: int| first_domain(gv, job, i);
            lemma_domain_ids_fit(gv, gv[w], job);
            assert forall|i: int| 0 <= i < ids.len() implies names_fitting_gpu(gv, #[trigger] ids[i], job) by {
                assert(ids[i] == domain_ids(gv, gv[w], job)[i]);
                assert(names_domain_gpu(gv, gv[w], ids[i], job));
                let k = choose|k: int|
                    0 <= k < gv.len() && (#[trigger] gv[k]).id == ids[i] && whole_fit(gv[k], job) && in_domain(gv[w], gv[k]);
            }
        } else if rm.gpu_selection == GpuSelectionPolicy::BestFit && exists|k: int| best_node(nv, job, k) {
            let k = choose|k: int| best_node(nv, job, k);
            lemma_node_fitting_in_flat(nv, k, job);
            assert forall|i: int| 0 <= i < ids.len() implies names_fitting_gpu(gv, #[trigger] ids[i], job) by {
                assert(ids[i] == fitting_ids(nv[k].gpus, job)[i]);
            }
        } else {
            assert forall|i: int| 0 <= i < ids.len() implies names_fitting_gpu(gv, #[trigger] ids[i], job) by {
                assert(ids[i] == fitting_ids(gv, job)[i]);
            }
        }
    }
}

/// A MIG job that finds enough free slices of its profile is placed on the
/// first of them at the requested time, without repartitioning any GPU.
pub proof fn law_mig_reuses_free_slices(rm: ResourceManager, nv: Seq<NodeView>, reconfigs: u32, job: Job, t: u64)
    requires
        job.spec_is_mig_job(),
        rm.mig_registry is Some,
        lookup_profile(rm.mig_registry->0.profiles@, job.mig_profile->0@) is Some,
        free_slice_ids(gpus_of(nv), job.mig_profile->0@).len() >= job.spec_slices_needed(),
    ensures
        rm.outcome(nv, reconfigs, job, t) == Some(
            (
                free_slice_ids(gpus_of(nv), job.mig_profile->0@).take(job.spec_slices_needed() as int),
                t,
                nv,
                reconfigs,
            ),
        ),
{
}

/// A MIG job placed after repartitioning a GPU starts once the
/// reconfiguration delay has passed, and the repartition is counted.
pub proof fn law_mig_repartition_costs_delay(rm: ResourceManager, nv: Seq<NodeView>, reconfigs: u32, job: Job, t: u64)
    requires
        job.spec_is_mig_job(),
        rm.outcome(nv, reconfigs, job, t) is Some,
        take_upto(free_slice_ids(gpus_of(nv), job.mig_profile->0@), job.spec_slices_needed() as nat).len()
            < job.spec_slices_needed(),
    ensures
        (rm.outcome(nv, reconfigs, job, t)->0).1 == sat_add(t, rm.mig_registry->0.reconfig_seconds),
        (rm.outcome(nv, reconfigs, job, t)->0).3 == sat_inc(reconfigs),
{
}


/// `idx` lists, in increasing order, exactly the positions in `gpus` of the
/// GPUs that fit the job.
pub open spec fn lists_fitting(gpus: Seq<GpuView>, job: Job, idx: Seq<int>) -> bool {
    &&& forall|a: int, b: int| 0 <= a < b < idx.len() ==> #[trigger] idx[a] < #[trigger] idx[b]
    &&& forall|a: int| 0 <= a < idx.len() ==> 0 <= #[trigger] idx[a] < gpus.len() && whole_fit(gpus[idx[a]], job)
    &&& forall|j: int| 0 <= j < gpus.len() && whole_fit(#[trigger] gpus[j], job) ==> exists|a: int| 0 <= a < idx.len() && idx[a] == j
}

/// `fitting_ids` names, in order, the GPUs at the fitting positions.
proof fn lemma_fitting_positions(gpus: Seq<GpuView>, job: Job)
    ensures
        exists|idx: Seq<int>|
            #[trigger] lists_fitting(gpus, job, idx) && idx.len() == fitting_ids(gpus, job).len() && forall|a: int|
                0 <= a < idx.len() ==> fitting_ids(gpus, job)[a] == gpus[#[trigger] idx[a]].id,
    decreases gpus.len(),
{
    if gpus.len() == 0 {
        let idx = Seq::<int>::empty();
        assert(lists_fitting(gpus, job, idx));
    } else {
        let prev = gpus.drop_last();
        lemma_fitting_positions(prev, job);
        let ip = choose|idx: Seq<int>|
            #[trigger] lists_fitting(prev, job, idx) && idx.len() == fitting_ids(prev, job).len() && forall|a: int|
                0 <= a < idx.len() ==> fitting_ids(prev, job)[a] == prev[#[trigger] idx[a]].id;
        let last = gpus.len() - 1;
        if whole_fit(gpus.last(), job) {
            let idx = ip.push(last);
            assert forall|a: int, b: int| 0 <= a < b < idx.len() implies #[trigger] idx[a] < #[trigger] idx[b] by {
                assert(idx[a] == ip[a]);
                if b < ip.len() {
                    assert(idx[b] == ip[b]);
                }
            }
            assert forall|a: int| 0 <= a < idx.len() implies 0 <= #[trigger] idx[a] < gpus.len() && whole_fit(gpus[idx[a]], job) by {
                if a < ip.len() {
                    assert(idx[a] == ip[a]);
                    assert(gpus[ip[a]] == prev[ip[a]]);
                }
            }
            assert forall|j: int| 0 <= j < gpus.len() && whole_fit(#[trigger] gpus[j], job) implies exists|a: int|
                0 <= a < idx.len() && idx[a] == j by {
                if j < last {
                    assert(prev[j] == gpus[j]);
                    let a = choose|a: int| 0 <= a < ip.len() && ip[a] == j;
                    assert(idx[a] == j);
                } else {
                    assert(idx[ip.len() as int] == j);
                }
            }
            assert forall|a: int| 0 <= a < idx.len() implies fitting_ids(gpus, job)[a] == gpus[#[trigger] idx[a]].id by {
                if a < ip.len() {
                    assert(idx[a] == ip[a]);
                    assert(gpus[ip[a]] == prev[ip[a]]);
                }
            }
            assert(lists_fitting(gpus, job, idx));
        } else {
            let idx = ip;
            assert forall|a: int| 0 <= a < idx.len() implies 0 <= #[trigger] idx[a] < gpus.len() && whole_fit(gpus[idx[a]], job) by {
                assert(gpus[ip[a]] == prev[ip[a]]);
            }
            assert forall|j: int| 0 <= j < gpus.len() && whole_fit(#[trigger] gpus[j], job) implies exists|a: int|
                0 <= a < idx.len() && idx[a] == j by {
                assert(j != last);
                assert(prev[j] == gpus[j]);
            }
            assert forall|a: int| 0 <= a < idx.len() implies fitting_ids(gpus, job)[a] == gpus[#[trigger] idx[a]].id by {
                assert(gpus[ip[a]] == prev[ip[a]]);
            }
            assert(lists_fitting(gpus, job, idx));
        }
    }
}

/// First fit takes the first free GPUs in cluster order: a job that neither
/// spans nodes nor prefers one NVLink domain, placed by a first-fit manager,
/// gets `gpu_count` GPUs that fit it, at increasing cluster positions, and
/// no GPU that fits it is passed over before the last one it gets.
pub proof fn law_first_fit_takes_first_fitting_gpus(rm: ResourceManager, nv: Seq<NodeView>, reconfigs: u32, job: Job, t: u64)
    requires
        rm.gpu_selection == GpuSelectionPolicy::FirstFit,
        !job.spec_is_mig_job(),
        gang_nodes(job) is None,
        !prefers_domain(job),
        rm.spec_can_place(nv, job),
    ensures
        rm.outcome(nv, reconfigs, job, t) is Some,
        ({
            let gv = gpus_of(nv);
            let ids = (rm.outcome(nv, reconfigs, job, t)->0).0;
            exists|idx: Seq<int>|
                {
                    &&& #[trigger] idx.len() == job.gpu_count
                    &&& ids.len() == idx.len()
                    &&& forall|a: int, b: int| 0 <= a < b < idx.len() ==> #[trigger] idx[a] < #[trigger] idx[b]
                    &&& forall|a: int|
                        0 <= a < idx.len() ==> 0 <= #[trigger] idx[a] < gv.len() && whole_fit(gv[idx[a]], job) && ids[a]
                            == gv[idx[a]].id
                    &&& forall|j: int|
                        0 <= j < idx.last() && whole_fit(#[trigger] gv[j], job) ==> exists|a: int| 0 <= a < idx.len() && idx[a] == j
                }
        }),
{
    let gv = gpus_of(nv);
    let f = fitting_ids(gv, job);
    let n = job.gpu_count as int;
    lemma_fitting_positions(gv, job);
    let full = choose|idx: Seq<int>|
        #[trigger] lists_fitting(gv, job, idx) && idx.len() == f.len() && forall|a: int|
            0 <= a < idx.len() ==> f[a] == gv[#[trigger] idx[a]].id;
    let ids = (rm.outcome(nv, reconfigs, job, t)->0).0;
    assert(ids == f.take(n));
    let idx = full.take(n);
    assert forall|a: int, b: int| 0 <= a < b < idx.len() implies #[trigger] idx[a] < #[trigger] idx[b] by {
        assert(idx[a] == full[a] && idx[b] == full[b]);
    }
    assert forall|a: int| 0 <= a < idx.len() implies 0 <= #[trigger] idx[a] < gv.len() && whole_fit(gv[idx[a]], job)
        && ids[a] == gv[idx[a]].id by {
        assert(idx[a] == full[a]);
    }
    assert forall|j: int| 0 <= j < idx.last() && whole_fit(#[trigger] gv[j], job) implies exists|a: int|
        0 <= a < idx.len() && idx[a] == j by {
        let a = choose|a: int| 0 <= a < full.len() && full[a] == j;
        assert(idx.last() == full[n - 1]);
        if a >= n {
            if a > n - 1 {
                assert(full[n - 1] < full[a]);
            }
        }
        assert(a < n);
        assert(idx[a] == j);
    }
}


/// No two GPUs of the nodes share an id.
pub open spec fn gpu_ids_distinct(nv: Seq<NodeView>) -> bool {
    forall|n1: int, g1: int, n2: int, g2: int|
        #![trigger nv[n1].gpus[g1], nv[n2].gpus[g2]]
        valid_gpu(nv, n1, g1) && valid_gpu(nv, n2, g2) && nv[n1].gpus[g1].id == nv[n2].gpus[g2].id ==> n1 == n2
            && g1 == g2
}

/// The GPU at flat position `i` sits at some node and position.
proof fn lemma_flat_gpu_at(nv: Seq<NodeView>, i: int)
    requires
        0 <= i < gpus_of(nv).len(),
    ensures
        exists|n: int, g: int| valid_gpu(nv, n, g) && #[trigger] nv[n].gpus[g] == gpus_of(nv)[i],
    decreases nv.len(),
{
    let d = nv.drop_last();
    assert(gpus_of(nv) == gpus_of(d) + nv.last().gpus);
    if i < gpus_of(d).len() {
        lemma_flat_gpu_at(d, i);
        let (n, g) = choose|n: int, g: int| valid_gpu(d, n, g) && #[trigger] d[n].gpus[g] == gpus_of(d)[i];
        assert(nv[n] == d[n]);
        assert(nv[n].gpus[g] == gpus_of(nv)[i]);
    } else {
        let g = i - gpus_of(d).len();
        assert(nv[nv.len() - 1].gpus[g] == gpus_of(nv)[i]);
    }
}

/// A MIG placement only repartitions a GPU that is MIG-capable and fully
/// idle: every GPU whose state the placement changes had no job on it and
/// none on any of its slices. (GPUs are told apart by id, so their ids are
/// taken to be distinct.)
pub proof fn law_mig_repartitions_only_idle_gpus(
    rm: ResourceManager,
    c0: Cluster,
    c1: Cluster,
    job: Job,
    t: u64,
    r: Result<Placement, SimError>,
)
    requires
        job.spec_is_mig_job(),
        rm.mig_allocation(&c0, &c1, job, t, r),
        gpu_ids_distinct(c0.resources()),
    ensures
        c1.resources().len() == c0.resources().len(),
        forall|n: int, g: int|
            #![trigger c1.resources()[n].gpus[g]]
            valid_gpu(c0.resources(), n, g) && c1.resources()[n].gpus[g] != c0.resources()[n].gpus[g]
                ==> c0.resources()[n].gpus[g].mig_capable && c0.resources()[n].gpus[g].is_fully_idle(),
{
    let nv = c0.resources();
    let gv = gpus_of(nv);
    if let Some(registry) = rm.mig_registry {
        if let Some(profile) = job.mig_profile {
            if let Some(spec) = lookup_profile(registry.profiles@, profile@) {
                let needed = job.spec_slices_needed();
                let p1 = take_upto(free_slice_ids(gv, profile@), needed as nat);
                if p1.len() != needed {
                    if let Some(c) = reconfig_candidate(gv, profile@, needed) {
                        if needed <= spec.max_per_gpu {
                            assert(first_reconfigurable(gv, profile@, needed, c));
                            lemma_flat_gpu_at(nv, c);
                            let (n0, g0) = choose|n: int, g: int| valid_gpu(nv, n, g) && #[trigger] nv[n].gpus[g] == gv[c];
                            let id = gv[c].id;
                            assert(first_gpu(nv, id, n0, g0)) by {
                                assert forall|n2: int, g2: int| #![trigger gpu_is(nv, id, n2, g2)]
                                    crate::cluster::before2(n2, g2, n0, g0) implies !gpu_is(nv, id, n2, g2) by {
                                    if gpu_is(nv, id, n2, g2) {
                                        assert(nv[n2].gpus[g2].id == nv[n0].gpus[g0].id);
                                    }
                                }
                            }
                            let loc = gpu_location(nv, id)->0;
                            let w = choose|n: int, g: int| first_gpu(nv, id, n, g);
                            lemma_first_gpu_unique(nv, id, w.0, w.1, n0, g0);
                            assert(loc == (n0, g0));
                            let nv1 = c1.resources();
                            assert forall|n: int, g: int|
                                valid_gpu(nv, n, g) && #[trigger] nv1[n].gpus[g] != nv[n].gpus[g]
                                implies nv[n].gpus[g].mig_capable && nv[n].gpus[g].is_fully_idle() by {
                                if n != n0 || g != g0 {
                                    if n != n0 {
                                        assert(nv1[n] == nv[n]);
                                    } else {
                                        assert(nv1[n].gpus[g] == nv[n].gpus[g]);
                                    }
                                }
                            }
                        }
                    }
                }
            }
        }
    }
}

/// Time run by the first `n` runs, the `k`-th running from `starts[k]` to
/// `ends[k]`.
pub open spec fn time_run(starts: Seq<u64>, ends: Seq<u64>, n: nat) -> int
    decreases n,
{
    if n == 0 {
        0
    } else {
        time_run(starts, ends, (n - 1) as nat) + ends[n - 1] - starts[n - 1]
    }
}

proof fn lemma_time_run_mono(starts: Seq<u64>, ends: Seq<u64>, n: nat, m: nat)
    requires
        n <= m <= starts.len(),
        starts.len() == ends.len(),
        forall|k: int| 0 <= k < starts.len() ==> #[trigger] starts[k] <= ends[k],
    ensures
        0 <= time_run(starts, ends, n) <= time_run(starts, ends, m),
    decreases m,
{
    if n < m {
        lemma_time_run_mono(starts, ends, n, (m - 1) as nat);
        assert(starts[m - 1] <= ends[m - 1]);
    } else if n > 0 {
        lemma_time_run_mono(starts, ends, (n - 1) as nat, (n - 1) as nat);
        assert(starts[n - 1] <= ends[n - 1]);
    }
}

/// `jobs[k + 1]` is `jobs[k]` started at `starts[k]` and evicted at
/// `ends[k]`.
pub open spec fn evicted_run(jobs: Seq<Job>, starts: Seq<u64>, ends: Seq<u64>, k: int) -> bool {
    jobs[k + 1].requeue_of((Job { start_time: Some(starts[k]), ..jobs[k] }), ends[k])
}

proof fn lemma_progress(jobs: Seq<Job>, starts: Seq<u64>, ends: Seq<u64>, n: nat)
    requires
        starts.len() == ends.len(),
        jobs.len() == starts.len() + 1,
        jobs[0].remaining_runtime is None,
        forall|k: int| 0 <= k < starts.len() ==> #[trigger] starts[k] <= ends[k],
        forall|k: int| 0 <= k < starts.len() ==> #[trigger] evicted_run(jobs, starts, ends, k),
        time_run(starts, ends, starts.len()) <= jobs[0].runtime,
        n <= starts.len(),
    ensures
        jobs[n as int].runtime == jobs[0].runtime,
        n > 0 ==> jobs[n as int].remaining_runtime == Some((jobs[0].runtime - time_run(starts, ends, n)) as u64),
    decreases n,
{
    if n > 0 {
        lemma_progress(jobs, starts, ends, (n - 1) as nat);
        lemma_time_run_mono(starts, ends, n, starts.len());
        lemma_time_run_mono(starts, ends, (n - 1) as nat, n);
        let k = n as int;
        let prev = jobs[k - 1];
        let started = Job { start_time: Some(starts[k - 1]), ..prev };
        let e = ends[k - 1];
        let st = starts[k - 1];
        assert(evicted_run(jobs, starts, ends, k - 1));
        assert(jobs[k].requeue_of(started, e));
        assert(st <= e);
        let before = time_run(starts, ends, (n - 1) as nat);
        let after = time_run(starts, ends, n);
        assert(after == before + e - st);
        assert(started.spec_duration_remaining() == jobs[0].runtime - before) by {
            if n > 1 {
                assert(prev.remaining_runtime == Some((jobs[0].runtime - before) as u64));
            } else {
                assert(prev == jobs[0]);
            }
        }
        assert(started.left_at(e) == jobs[0].runtime - after);
    }
}

/// Evictions keep the work done: a job that runs from `starts[k]` to
/// `ends[k]` and is then evicted, time after time (see `evicted_run`), owes
/// afterwards its runtime less all the time it ran, as long as that is no
/// more than its runtime.
pub proof fn law_evictions_keep_progress(jobs: Seq<Job>, starts: Seq<u64>, ends: Seq<u64>)
    requires
        starts.len() == ends.len(),
        jobs.len() == starts.len() + 1,
        jobs[0].remaining_runtime is None,
        forall|k: int| 0 <= k < starts.len() ==> #[trigger] starts[k] <= ends[k],
        forall|k: int| 0 <= k < starts.len() ==> #[trigger] evicted_run(jobs, starts, ends, k),
        time_run(starts, ends, starts.len()) <= jobs[0].runtime,
    ensures
        jobs.last().runtime == jobs[0].runtime,
        starts.len() > 0 ==> jobs.last().remaining_runtime == Some(
            (jobs[0].runtime - time_run(starts, ends, starts.len())) as u64,
        ),
{
    lemma_progress(jobs, starts, ends, starts.len());
}

} // verus!
