//! All-or-nothing placement of jobs on whole GPUs or MIG slices.

use vstd::prelude::*;
use crate::cluster::{before2, gpus_of, gpu_location, first_gpu, gpu_is, lemma_first_gpu_unique, valid_gpu, within_quota, Cluster};
use crate::mig::{
    lookup_profile, partitioned, reconfigure_gpu, slice_id, MigProfileRegistry, MigProfileSpec, SimError,
};
use crate::models::{count_free_slices, Gpu, GpuView, Job, NodeView, Placement, SliceView};
use crate::strings::{ids_view, str_eq};

verus! {

/// At most the first `n` elements of `s`.
pub open spec fn take_upto<A>(s: Seq<A>, n: nat) -> Seq<A> {
    if s.len() <= n {
        s
    } else {
        s.take(n as int)
    }
}

/// The GPU can take one whole-GPU share of the job: it is free, and when
/// the job asks for GPU memory it has at least that much.
pub open spec fn whole_fit(g: GpuView, job: Job) -> bool {
    g.is_free() && (job.gpu_memory_gb == 0 || (g.memory_gb >= 0 && g.memory_gb as u64 >= job.gpu_memory_gb))
}

/// Ids of the GPUs that fit the job, in cluster order.
pub open spec fn fitting_ids(gpus: Seq<GpuView>, job: Job) -> Seq<Seq<char>>
    decreases gpus.len(),
{
    if gpus.len() == 0 {
        Seq::empty()
    } else if whole_fit(gpus.last(), job) {
        fitting_ids(gpus.drop_last(), job).push(gpus.last().id)
    } else {
        fitting_ids(gpus.drop_last(), job)
    }
}

/// The number of nodes a gang job must span: its `gang_size_nodes`, when it
/// is a gang job with a positive node count.
pub open spec fn gang_nodes(job: Job) -> Option<u32> {
    if job.gang_enabled && job.gang_size_nodes is Some && job.gang_size_nodes->0 > 0 {
        job.gang_size_nodes
    } else {
        None
    }
}

/// The GPUs a gang job gets on each of its nodes.
pub open spec fn gang_share(job: Job, n: u32) -> nat {
    (job.gpu_count / n) as nat
}

/// GPUs for a job spread over nodes: node by node in cluster order, a node
/// with at least `per` GPUs that fit the job gives its first `per` of them,
/// until `total` GPUs are taken.
pub open spec fn spread_ids(nv: Seq<NodeView>, job: Job, per: nat, total: nat) -> Seq<Seq<char>>
    decreases nv.len(),
{
    if nv.len() == 0 {
        Seq::empty()
    } else {
        let prev = spread_ids(nv.drop_last(), job, per, total);
        let here = fitting_ids(nv.last().gpus, job);
        if prev.len() < total && here.len() >= per {
            prev + here.take(per as int)
        } else {
            prev
        }
    }
}

/// A job with a positive GPU count fits on whole GPUs when at least that
/// many GPUs fit it. A gang job spanning `n` nodes fits when its GPU count
/// splits evenly over `n` nodes and `n` nodes each have their share of
/// GPUs that fit it.
pub open spec fn can_place_whole(nv: Seq<NodeView>, job: Job) -> bool {
    &&& job.gpu_count > 0
    &&& match gang_nodes(job) {
        Some(n) => {
            &&& n * gang_share(job, n) == job.gpu_count
            &&& spread_ids(nv, job, gang_share(job, n), job.gpu_count as nat).len() == job.gpu_count
        },
        None => fitting_ids(gpus_of(nv), job).len() >= job.gpu_count,
    }
}

/// Jobs that ask for network bandwidth, and gang jobs, prefer GPUs of one
/// NVLink domain.
pub open spec fn prefers_domain(job: Job) -> bool {
    job.network_bw_gbps is Some || job.gang_enabled
}

/// GPU `h` is in the NVLink domain of GPU `d`: `d` has an NVLink group, and
/// `h` is on the same node in the same group.
pub open spec fn in_domain(d: GpuView, h: GpuView) -> bool {
    &&& d.nvlink_group is Some
    &&& h.node_id == d.node_id
    &&& h.nvlink_group == d.nvlink_group
}

/// Ids of the GPUs of `d`'s NVLink domain that fit the job, in cluster order.
pub open spec fn domain_ids(gpus: Seq<GpuView>, d: GpuView, job: Job) -> Seq<Seq<char>>
    decreases gpus.len(),
{
    if gpus.len() == 0 {
        Seq::empty()
    } else if whole_fit(gpus.last(), job) && in_domain(d, gpus.last()) {
        domain_ids(gpus.drop_last(), d, job).push(gpus.last().id)
    } else {
        domain_ids(gpus.drop_last(), d, job)
    }
}

/// GPU `i` belongs to the first NVLink domain, in cluster order, with
/// enough GPUs that fit the whole job.
pub open spec fn first_domain(gpus: Seq<GpuView>, job: Job, i: int) -> bool {
    &&& 0 <= i < gpus.len()
    &&& domain_ids(gpus, gpus[i], job).len() >= job.gpu_count
    &&& forall|j: int| 0 <= j < i ==> domain_ids(gpus, #[trigger] gpus[j], job).len() < job.gpu_count
}

/// How GPUs are picked for a job that neither spans nodes nor takes one
/// NVLink domain.
#[derive(Debug, Clone, Copy, PartialEq, Eq, Structural)]
pub enum GpuSelectionPolicy {
    /// The first GPUs that fit the job, in cluster order.
    FirstFit,
    /// GPUs of the one node that holds the job with the fewest GPUs to spare.
    BestFit,
}

/// The number of GPUs of the node that fit the job.
pub open spec fn node_fit(n: NodeView, job: Job) -> nat {
    fitting_ids(n.gpus, job).len()
}

/// Node `k` holds the whole job on its own, no node that does has fewer
/// GPUs that fit the job, and no node before it has as few.
pub open spec fn best_node(nv: Seq<NodeView>, job: Job, k: int) -> bool {
    &&& 0 <= k < nv.len()
    &&& node_fit(nv[k], job) >= job.gpu_count
    &&& forall|j: int|
        0 <= j < nv.len() && #[trigger] node_fit(nv[j], job) >= job.gpu_count ==> node_fit(nv[k], job) <= node_fit(
            nv[j],
            job,
        )
    &&& forall|j: int|
        0 <= j < k && #[trigger] node_fit(nv[j], job) >= job.gpu_count ==> node_fit(nv[k], job) < node_fit(nv[j], job)
}

/// The GPUs a job without a node span or domain preference gets: under
/// first fit, the first `gpu_count` GPUs that fit it in cluster order; under
/// best fit, the first `gpu_count` that fit it on the best-fit node, or the
/// first-fit GPUs when no single node holds the job.
pub open spec fn scattered_choice(nv: Seq<NodeView>, job: Job, policy: GpuSelectionPolicy) -> Seq<Seq<char>> {
    if policy == GpuSelectionPolicy::BestFit && exists|k: int| best_node(nv, job, k) {
        let k = choose|k: int| best_node(nv, job, k);
        fitting_ids(nv[k].gpus, job).take(job.gpu_count as int)
    } else {
        fitting_ids(gpus_of(nv), job).take(job.gpu_count as int)
    }
}

/// The GPUs a job placed on whole GPUs gets: a gang job spanning `n` nodes
/// gets its share from each of the first `n` nodes that have it (see
/// `spread_ids`); another job that prefers one NVLink domain gets the first
/// `gpu_count` fitting GPUs of the first domain that holds the whole job;
/// otherwise, or when no domain holds it, the GPUs that the selection
/// policy picks (see `scattered_choice`).
pub open spec fn whole_choice(nv: Seq<NodeView>, job: Job, policy: GpuSelectionPolicy) -> Seq<Seq<char>> {
    let gpus = gpus_of(nv);
    if gang_nodes(job) is Some {
        spread_ids(nv, job, gang_share(job, gang_nodes(job)->0), job.gpu_count as nat)
    } else if prefers_domain(job) && exists|i: int| first_domain(gpus, job, i) {
        let i = choose|i: int| first_domain(gpus, job, i);
        domain_ids(gpus, gpus[i], job).take(job.gpu_count as int)
    } else {
        scattered_choice(nv, job, policy)
    }
}

/// Ids of the free slices of `profile` on one GPU, in order.
pub open spec fn gpu_free_slice_ids(slices: Seq<SliceView>, profile: Seq<char>) -> Seq<Seq<char>>
    decreases slices.len(),
{
    if slices.len() == 0 {
        Seq::empty()
    } else if slices.last().profile == profile && slices.last().is_free() {
        gpu_free_slice_ids(slices.drop_last(), profile).push(slices.last().id)
    } else {
        gpu_free_slice_ids(slices.drop_last(), profile)
    }
}

/// Ids of the free slices of `profile` across the GPUs, in cluster order.
pub open spec fn free_slice_ids(gpus: Seq<GpuView>, profile: Seq<char>) -> Seq<Seq<char>>
    decreases gpus.len(),
{
    if gpus.len() == 0 {
        Seq::empty()
    } else {
        free_slice_ids(gpus.drop_last(), profile) + gpu_free_slice_ids(gpus.last().slices, profile)
    }
}

/// Slices of `profile` a GPU could offer: its free slices of the profile,
/// plus, when it is MIG-capable, fully idle and not already partitioned for
/// the profile, a full repartition's worth.
pub open spec fn mig_capacity(g: GpuView, profile: Seq<char>, spec: MigProfileSpec) -> nat {
    if !g.mig_capable {
        0
    } else {
        count_free_slices(g.slices, profile) + if g.is_fully_idle() && (g.slices.len() == 0
            || g.active_mig_profile != Some(profile)) {
            spec.max_per_gpu as nat
        } else {
            0nat
        }
    }
}

pub open spec fn total_mig_capacity(gpus: Seq<GpuView>, profile: Seq<char>, spec: MigProfileSpec) -> nat
    decreases gpus.len(),
{
    if gpus.len() == 0 {
        0
    } else {
        total_mig_capacity(gpus.drop_last(), profile, spec) + mig_capacity(gpus.last(), profile, spec)
    }
}

/// A GPU that can be repartitioned for the job.
pub open spec fn reconfigurable(g: GpuView, profile: Seq<char>, needed: u32) -> bool {
    g.mig_capable && g.is_fully_idle() && count_free_slices(g.slices, profile) < needed
}

/// Index of the first GPU that can be repartitioned for the job.
pub open spec fn first_reconfigurable(gpus: Seq<GpuView>, profile: Seq<char>, needed: u32, i: int) -> bool {
    &&& 0 <= i < gpus.len()
    &&& reconfigurable(gpus[i], profile, needed)
    &&& forall|j: int| 0 <= j < i ==> !reconfigurable(#[trigger] gpus[j], profile, needed)
}

pub open spec fn reconfig_candidate(gpus: Seq<GpuView>, profile: Seq<char>, needed: u32) -> Option<int> {
    if exists|i: int| first_reconfigurable(gpus, profile, needed, i) {
        Some(choose|i: int| first_reconfigurable(gpus, profile, needed, i))
    } else {
        None
    }
}

/// The nodes with GPU `g` of node `n` replaced.
pub open spec fn with_gpu(nv: Seq<NodeView>, n: int, g: int, gpu: GpuView) -> Seq<NodeView> {
    nv.update(n, NodeView { gpus: nv[n].gpus.update(g, gpu), ..nv[n] })
}

/// Ids of the first `count` slices of a freshly partitioned GPU.
pub open spec fn fresh_slice_ids(gpu_id: Seq<char>, count: nat) -> Seq<Seq<char>> {
    Seq::new(count, |i: int| slice_id(gpu_id, i as nat))
}

/// `a` is a prefix of `b`.
pub open spec fn prefix_of<A>(a: Seq<A>, b: Seq<A>) -> bool {
    a.len() <= b.len() && b.take(a.len() as int) == a
}

pub proof fn lemma_prefix_trans<A>(a: Seq<A>, b: Seq<A>, c: Seq<A>)
    requires
        prefix_of(a, b),
        prefix_of(b, c),
    ensures
        prefix_of(a, c),
{
    assert(c.take(a.len() as int) =~= c.take(b.len() as int).take(a.len() as int));
}

pub proof fn lemma_prefix_concat<A>(x: Seq<A>, a: Seq<A>, b: Seq<A>)
    requires
        prefix_of(a, b),
    ensures
        prefix_of(x + a, x + b),
{
    assert((x + b).take((x + a).len() as int) =~= x + b.take(a.len() as int));
}

pub proof fn lemma_fitting_prefix(gpus: Seq<GpuView>, job: Job, i: int, j: int)
    requires
        0 <= i <= j <= gpus.len(),
    ensures
        prefix_of(fitting_ids(gpus.take(i), job), fitting_ids(gpus.take(j), job)),
    decreases j - i,
{
    if i < j {
        lemma_fitting_prefix(gpus, job, i, j - 1);
        assert(gpus.take(j).drop_last() =~= gpus.take(j - 1));
        let b = fitting_ids(gpus.take(j - 1), job);
        let c = fitting_ids(gpus.take(j), job);
        assert(prefix_of(b, c)) by {
            if c != b {
                assert(c.take(b.len() as int) =~= b);
            } else {
                assert(c.take(b.len() as int) =~= b);
            }
        }
        lemma_prefix_trans(fitting_ids(gpus.take(i), job), b, c);
    } else {
        let a = fitting_ids(gpus.take(i), job);
        assert(a.take(a.len() as int) =~= a);
    }
}

pub proof fn lemma_gpu_free_prefix(slices: Seq<SliceView>, profile: Seq<char>, i: int, j: int)
    requires
        0 <= i <= j <= slices.len(),
    ensures
        prefix_of(gpu_free_slice_ids(slices.take(i), profile), gpu_free_slice_ids(slices.take(j), profile)),
    decreases j - i,
{
    if i < j {
        lemma_gpu_free_prefix(slices, profile, i, j - 1);
        assert(slices.take(j).drop_last() =~= slices.take(j - 1));
        let b = gpu_free_slice_ids(slices.take(j - 1), profile);
        let c = gpu_free_slice_ids(slices.take(j), profile);
        assert(c.take(b.len() as int) =~= b);
        lemma_prefix_trans(gpu_free_slice_ids(slices.take(i), profile), b, c);
    } else {
        let a = gpu_free_slice_ids(slices.take(i), profile);
        assert(a.take(a.len() as int) =~= a);
    }
}

pub proof fn lemma_free_slices_prefix(gpus: Seq<GpuView>, profile: Seq<char>, i: int, j: int)
    requires
        0 <= i <= j <= gpus.len(),
    ensures
        prefix_of(free_slice_ids(gpus.take(i), profile), free_slice_ids(gpus.take(j), profile)),
    decreases j - i,
{
    if i < j {
        lemma_free_slices_prefix(gpus, profile, i, j - 1);
        assert(gpus.take(j).drop_last() =~= gpus.take(j - 1));
        let b = free_slice_ids(gpus.take(j - 1), profile);
        let c = free_slice_ids(gpus.take(j), profile);
        assert(c.take(b.len() as int) =~= b);
        lemma_prefix_trans(free_slice_ids(gpus.take(i), profile), b, c);
    } else {
        let a = free_slice_ids(gpus.take(i), profile);
        assert(a.take(a.len() as int) =~= a);
    }
}

/// Ids of the GPUs fitting the job, stopping at `k`.
fn collect_fitting(gpus: &Vec<&Gpu>, job: &Job, k: usize) -> (r: Vec<String>)
    ensures
        ids_view(r@) == take_upto(fitting_ids(gpus@.map_values(|g: &Gpu| g@), *job), k as nat),
{
    let ghost gv = gpus@.map_values(|g: &Gpu| g@);
    let mut selected: Vec<String> = Vec::new();
    let mut i: usize = 0;
    while i < gpus.len() && selected.len() < k
        invariant
            gv == gpus@.map_values(|g: &Gpu| g@),
            i <= gv.len(),
            ids_view(selected@) == fitting_ids(gv.take(i as int), *job),
            selected@.len() <= k,
        decreases gv.len() - i,
    {
        assert(gv.take(i as int + 1).drop_last() =~= gv.take(i as int));
        assert(gv[i as int] == gpus@[i as int]@);
        let g = gpus[i];
        if g.is_whole_gpu_free() && (job.gpu_memory_gb == 0 || (g.memory_gb >= 0 && g.memory_gb as u64 >= job.gpu_memory_gb)) {
            let ghost before = selected@;
            selected.push(g.id.clone());
            assert(ids_view(selected@) =~= ids_view(before).push(g.id@));
        }
        i = i + 1;
    }
    proof {
        lemma_fitting_prefix(gv, *job, i as int, gv.len() as int);
        assert(gv.take(gv.len() as int) =~= gv);
        let all = fitting_ids(gv, *job);
        if selected@.len() < k {
            assert(i == gv.len());
            assert(gv.take(i as int) =~= gv);
        } else {
            assert(all.take(k as int) =~= ids_view(selected@));
        }
    }
    selected
}

/// Ids of the GPUs of `d`'s NVLink domain that fit the job, in cluster
/// order, stopping at `k`.
fn collect_domain(gpus: &Vec<&Gpu>, d: &Gpu, job: &Job, k: usize) -> (r: Vec<String>)
    ensures
        ids_view(r@) == take_upto(domain_ids(gpus@.map_values(|g: &Gpu| g@), d@, *job), k as nat),
{
    let ghost gv = gpus@.map_values(|g: &Gpu| g@);
    let mut selected: Vec<String> = Vec::new();
    let mut i: usize = 0;
    while i < gpus.len() && selected.len() < k
        invariant
            gv == gpus@.map_values(|g: &Gpu| g@),
            i <= gv.len(),
            ids_view(selected@) == domain_ids(gv.take(i as int), d@, *job),
            selected@.len() <= k,
        decreases gv.len() - i,
    {
        assert(gv.take(i as int + 1).drop_last() =~= gv.take(i as int));
        assert(gv[i as int] == gpus@[i as int]@);
        let g = gpus[i];
        let same_domain = match (d.nvlink_group, g.nvlink_group) {
            (Some(a), Some(b)) => a == b && str_eq(g.node_id.as_str(), d.node_id.as_str()),
            _ => false,
        };
        if g.is_whole_gpu_free() && (job.gpu_memory_gb == 0 || (g.memory_gb >= 0 && g.memory_gb as u64 >= job.gpu_memory_gb)) && same_domain {
            let ghost before = selected@;
            selected.push(g.id.clone());
            assert(ids_view(selected@) =~= ids_view(before).push(g.id@));
        }
        i = i + 1;
    }
    proof {
        lemma_domain_prefix(gv, d@, *job, i as int, gv.len() as int);
        assert(gv.take(gv.len() as int) =~= gv);
        let all = domain_ids(gv, d@, *job);
        if selected@.len() < k {
            assert(i == gv.len());
            assert(gv.take(i as int) =~= gv);
        } else {
            assert(all.take(k as int) =~= ids_view(selected@));
        }
    }
    selected
}

pub proof fn lemma_domain_prefix(gpus: Seq<GpuView>, d: GpuView, job: Job, i: int, j: int)
    requires
        0 <= i <= j <= gpus.len(),
    ensures
        prefix_of(domain_ids(gpus.take(i), d, job), domain_ids(gpus.take(j), d, job)),
    decreases j - i,
{
    if i < j {
        lemma_domain_prefix(gpus, d, job, i, j - 1);
        assert(gpus.take(j).drop_last() =~= gpus.take(j - 1));
        let b = domain_ids(gpus.take(j - 1), d, job);
        let c = domain_ids(gpus.take(j), d, job);
        assert(c.take(b.len() as int) =~= b);
        lemma_prefix_trans(domain_ids(gpus.take(i), d, job), b, c);
    } else {
        let a = domain_ids(gpus.take(i), d, job);
        assert(a.take(a.len() as int) =~= a);
    }
}

/// Ids of the GPUs of one node that fit the job, in order, stopping at `k`.
fn collect_node_fitting(gpus: &Vec<Gpu>, job: &Job, k: usize) -> (r: Vec<String>)
    ensures
        ids_view(r@) == take_upto(fitting_ids(gpus@.map_values(|g: Gpu| g@), *job), k as nat),
{
    let ghost gv = gpus@.map_values(|g: Gpu| g@);
    let mut selected: Vec<String> = Vec::new();
    let mut i: usize = 0;
    while i < gpus.len() && selected.len() < k
        invariant
            gv == gpus@.map_values(|g: Gpu| g@),
            i <= gv.len(),
            ids_view(selected@) == fitting_ids(gv.take(i as int), *job),
            selected@.len() <= k,
        decreases gv.len() - i,
    {
        assert(gv.take(i as int + 1).drop_last() =~= gv.take(i as int));
        assert(gv[i as int] == gpus@[i as int]@);
        let g = &gpus[i];
        if g.is_whole_gpu_free() && (job.gpu_memory_gb == 0 || (g.memory_gb >= 0 && g.memory_gb as u64 >= job.gpu_memory_gb)) {
            let ghost before = selected@;
            selected.push(g.id.clone());
            assert(ids_view(selected@) =~= ids_view(before).push(g.id@));
        }
        i = i + 1;
    }
    proof {
        lemma_fitting_prefix(gv, *job, i as int, gv.len() as int);
        assert(gv.take(gv.len() as int) =~= gv);
        let all = fitting_ids(gv, *job);
        if selected@.len() < k {
            assert(i == gv.len());
            assert(gv.take(i as int) =~= gv);
        } else {
            assert(all.take(k as int) =~= ids_view(selected@));
        }
    }
    selected
}

/// The GPUs of `spread_ids` on the cluster's nodes.
fn spread_gpus(cluster: &Cluster, job: &Job, per: u32, total: u32) -> (r: Vec<String>)
    ensures
        ids_view(r@) == spread_ids(cluster.resources(), *job, per as nat, total as nat),
{
    let ghost nv = cluster.resources();
    let mut selected: Vec<String> = Vec::new();
    let mut i: usize = 0;
    while i < cluster.nodes.len()
        invariant
            nv == cluster.resources(),
            i <= nv.len(),
            ids_view(selected@) == spread_ids(nv.take(i as int), *job, per as nat, total as nat),
        decreases nv.len() - i,
    {
        assert(nv.take(i as int + 1).drop_last() =~= nv.take(i as int));
        assert(nv.take(i as int + 1).last() == cluster.nodes@[i as int]@);
        let mut here = collect_node_fitting(&cluster.nodes[i].gpus, job, per as usize);
        let ghost fit = fitting_ids(cluster.nodes@[i as int]@.gpus, *job);
        proof {
            if fit.len() >= per {
                assert(fit.take(per as int) =~= take_upto(fit, per as nat));
            }
            assert(ids_view(here@).len() == here@.len());
        }
        if selected.len() < total as usize && here.len() == per as usize {
            let ghost before = selected@;
            let ghost added = here@;
            selected.append(&mut here);
            assert(ids_view(selected@) =~= ids_view(before) + ids_view(added));
        }
        proof {
            assert(ids_view(selected@).len() == selected@.len());
        }
        i = i + 1;
    }
    assert(nv.take(nv.len() as int) =~= nv);
    selected
}

/// The number of GPUs in `gpus` that fit the job.
fn count_node_fitting(gpus: &Vec<Gpu>, job: &Job) -> (n: usize)
    ensures
        n == fitting_ids(gpus@.map_values(|g: Gpu| g@), *job).len(),
{
    let ghost gv = gpus@.map_values(|g: Gpu| g@);
    let mut n: usize = 0;
    let mut i: usize = 0;
    while i < gpus.len()
        invariant
            gv == gpus@.map_values(|g: Gpu| g@),
            i <= gv.len(),
            n == fitting_ids(gv.take(i as int), *job).len(),
            n <= i,
        decreases gv.len() - i,
    {
        assert(gv.take(i as int + 1).drop_last() =~= gv.take(i as int));
        assert(gv[i as int] == gpus@[i as int]@);
        let g = &gpus[i];
        if g.is_whole_gpu_free() && (job.gpu_memory_gb == 0 || (g.memory_gb >= 0 && g.memory_gb as u64 >= job.gpu_memory_gb)) {
            n = n + 1;
        }
        i = i + 1;
    }
    assert(gv.take(gv.len() as int) =~= gv);
    n
}

/// The GPUs best fit gives the job: the first `gpu_count` that fit it on
/// the best-fit node, or `None` when no single node holds the job.
fn best_fit_gpus(cluster: &Cluster, job: &Job) -> (r: Option<Vec<String>>)
    ensures
        match r {
            Some(ids) => exists|k: int|
                best_node(cluster.resources(), *job, k) && ids_view(ids@) == fitting_ids(
                    cluster.resources()[k].gpus,
                    *job,
                ).take(job.gpu_count as int),
            None => !exists|k: int| best_node(cluster.resources(), *job, k),
        },
{
    let ghost nv = cluster.resources();
    let mut best: Option<(usize, usize)> = None;
    let mut i: usize = 0;
    while i < cluster.nodes.len()
        invariant
            nv == cluster.resources(),
            i <= nv.len(),
            match best {
                None => forall|j: int| 0 <= j < i ==> #[trigger] node_fit(nv[j], *job) < job.gpu_count,
                Some((b, bc)) => {
                    &&& b < i
                    &&& bc == node_fit(nv[b as int], *job)
                    &&& bc >= job.gpu_count
                    &&& forall|j: int|
                        0 <= j < i && #[trigger] node_fit(nv[j], *job) >= job.gpu_count ==> bc <= node_fit(nv[j], *job)
                    &&& forall|j: int|
                        0 <= j < b && #[trigger] node_fit(nv[j], *job) >= job.gpu_count ==> bc < node_fit(nv[j], *job)
                },
            },
        decreases nv.len() - i,
    {
        assert(nv[i as int] == cluster.nodes@[i as int]@);
        let c = count_node_fitting(&cluster.nodes[i].gpus, job);
        let better = match best {
            None => true,
            Some((_, bc)) => c < bc,
        };
        if c >= job.gpu_count as usize && better {
            best = Some((i, c));
        }
        i = i + 1;
    }
    match best {
        None => {
            proof {
                assert forall|k: int| !best_node(nv, *job, k) by {
                    if 0 <= k < nv.len() {
                        assert(node_fit(nv[k], *job) < job.gpu_count);
                    }
                }
            }
            None
        },
        Some((b, _)) => {
            assert(nv[b as int] == cluster.nodes@[b as int]@);
            let ids = collect_node_fitting(&cluster.nodes[b].gpus, job, job.gpu_count as usize);
            proof {
                assert(best_node(nv, *job, b as int));
                let fit = fitting_ids(nv[b as int].gpus, *job);
                if fit.len() == job.gpu_count {
                    assert(fit.take(job.gpu_count as int) =~= fit);
                }
                assert(take_upto(fit, job.gpu_count as nat) == fit.take(job.gpu_count as int));
            }
            Some(ids)
        },
    }
}

/// Ids of free slices of `profile`, in cluster order, stopping at `needed`.
fn collect_free_slices(gpus: &Vec<&Gpu>, profile: &str, needed: usize) -> (r: Vec<String>)
    ensures
        ids_view(r@) == take_upto(free_slice_ids(gpus@.map_values(|g: &Gpu| g@), profile@), needed as nat),
{
    let ghost gv = gpus@.map_values(|g: &Gpu| g@);
    let mut selected: Vec<String> = Vec::new();
    let mut i: usize = 0;
    assert(ids_view(selected@) =~= Seq::<Seq<char>>::empty());
    assert(gv.take(0).len() == 0);
    assert(free_slice_ids(gv.take(0), profile@).take(0) =~= Seq::<Seq<char>>::empty());
    while i < gpus.len() && selected.len() < needed
        invariant
            gv == gpus@.map_values(|g: &Gpu| g@),
            i <= gv.len(),
            prefix_of(ids_view(selected@), free_slice_ids(gv.take(i as int), profile@)),
            selected@.len() < needed ==> ids_view(selected@) == free_slice_ids(gv.take(i as int), profile@),
            selected@.len() <= needed,
        decreases gv.len() - i,
    {
        assert(gv.take(i as int + 1).drop_last() =~= gv.take(i as int));
        assert(gv[i as int] == gpus@[i as int]@);
        let g = gpus[i];
        let ghost base = free_slice_ids(gv.take(i as int), profile@);
        let ghost sl = g@.slices;
        let mut s: usize = 0;
        while s < g.slices.len() && selected.len() < needed
            invariant
                gv == gpus@.map_values(|g: &Gpu| g@),
                i < gv.len(),
                g == gpus@[i as int],
                sl == g@.slices,
                base == free_slice_ids(gv.take(i as int), profile@),
                s <= sl.len(),
                ids_view(selected@) == base + gpu_free_slice_ids(sl.take(s as int), profile@),
                selected@.len() <= needed,
            decreases sl.len() - s,
        {
            assert(sl.take(s as int + 1).drop_last() =~= sl.take(s as int));
            assert(sl[s as int] == g.slices@[s as int]@);
            let sc = &g.slices[s];
            if str_eq(sc.profile.as_str(), profile) && sc.is_free() {
                let ghost before = selected@;
                selected.push(sc.id.clone());
                assert(ids_view(selected@) =~= ids_view(before).push(sc.id@));
            }
            s = s + 1;
        }
        proof {
            lemma_gpu_free_prefix(sl, profile@, s as int, sl.len() as int);
            assert(sl.take(sl.len() as int) =~= sl);
            lemma_prefix_concat(base, gpu_free_slice_ids(sl.take(s as int), profile@), gpu_free_slice_ids(sl, profile@));
            assert(free_slice_ids(gv.take(i as int + 1), profile@) == base + gpu_free_slice_ids(sl, profile@));
            if selected@.len() < needed {
                assert(s == sl.len());
                assert(sl.take(s as int) =~= sl);
            }
        }
        i = i + 1;
    }
    proof {
        lemma_free_slices_prefix(gv, profile@, i as int, gv.len() as int);
        assert(gv.take(gv.len() as int) =~= gv);
        lemma_prefix_trans(ids_view(selected@), free_slice_ids(gv.take(i as int), profile@), free_slice_ids(gv, profile@));
        if selected@.len() < needed {
            assert(gv.take(i as int) =~= gv);
        }
    }
    selected
}

/// Index of the first GPU that can be repartitioned for the job.
fn find_reconfigurable(gpus: &Vec<&Gpu>, profile: &str, needed: u32) -> (r: Option<usize>)
    ensures
        match r {
            Some(i) => first_reconfigurable(gpus@.map_values(|g: &Gpu| g@), profile@, needed, i as int),
            None => reconfig_candidate(gpus@.map_values(|g: &Gpu| g@), profile@, needed) is None,
        },
{
    let ghost gv = gpus@.map_values(|g: &Gpu| g@);
    let mut i: usize = 0;
    while i < gpus.len()
        invariant
            gv == gpus@.map_values(|g: &Gpu| g@),
            i <= gv.len(),
            forall|j: int| 0 <= j < i ==> !reconfigurable(#[trigger] gv[j], profile@, needed),
        decreases gv.len() - i,
    {
        assert(gv[i as int] == gpus@[i as int]@);
        let g = gpus[i];
        if g.mig_capable && g.is_fully_idle() && g.free_mig_slice_count(profile) < needed as usize {
            return Some(i);
        }
        i = i + 1;
    }
    assert(!(exists|j: int| first_reconfigurable(gv, profile@, needed, j)));
    None
}

/// What placing the job on whole GPUs gives: the GPUs of `whole_choice`
/// when `can_place_whole` holds, else an error that reports the number of
/// free GPUs.
pub open spec fn whole_allocation(
    nv: Seq<NodeView>,
    job: Job,
    policy: GpuSelectionPolicy,
    start_time: u64,
    r: Result<Placement, SimError>,
) -> bool {
    if can_place_whole(nv, job) {
        &&& r is Ok
        &&& r->Ok_0.job_id@ == job.id@
        &&& ids_view(r->Ok_0.gpu_ids@) == whole_choice(nv, job, policy)
        &&& r->Ok_0.start_time == start_time
    } else {
        r matches Err(SimError::InsufficientGpus { need, available }) && need == job.gpu_count && available
            == crate::cluster::count_free_gpus(gpus_of(nv)) as u32
    }
}

/// The flat GPU at index `i` is located, node by node, at a GPU with its id.
pub proof fn lemma_flat_gpu_located(nv: Seq<NodeView>, i: int)
    requires
        0 <= i < gpus_of(nv).len(),
    ensures
        exists|n: int, g: int| gpu_is(nv, gpus_of(nv)[i].id, n, g),
    decreases nv.len(),
{
    let d = nv.drop_last();
    if i < gpus_of(d).len() {
        lemma_flat_gpu_located(d, i);
        let (n, g) = choose|n: int, g: int| gpu_is(d, gpus_of(d)[i].id, n, g);
        assert(gpu_is(nv, gpus_of(nv)[i].id, n, g));
    } else {
        let g = i - gpus_of(d).len();
        assert(gpu_is(nv, gpus_of(nv)[i].id, nv.len() - 1, g));
    }
}

/// A first GPU exists whenever some GPU has the id.
pub proof fn lemma_first_gpu_exists(nv: Seq<NodeView>, id: Seq<char>, n: int, g: int)
    requires
        gpu_is(nv, id, n, g),
    ensures
        exists|n2: int, g2: int| crate::cluster::first_gpu(nv, id, n2, g2),
    decreases n, g,
{
    if exists|n2: int, g2: int| gpu_is(nv, id, n2, g2) && before2(n2, g2, n, g) {
        let (n2, g2) = choose|n2: int, g2: int| gpu_is(nv, id, n2, g2) && before2(n2, g2, n, g);
        lemma_first_gpu_exists(nv, id, n2, g2);
    } else {
        assert(crate::cluster::first_gpu(nv, id, n, g));
    }
}

/// `a + b`, or `u64::MAX` when that overflows.
pub open spec fn sat_add(a: u64, b: u64) -> u64 {
    if a + b > u64::MAX {
        u64::MAX
    } else {
        (a + b) as u64
    }
}

/// `a + 1`, or `u32::MAX` when that overflows.
pub open spec fn sat_inc(a: u32) -> u32 {
    if a == u32::MAX {
        u32::MAX
    } else {
        (a + 1) as u32
    }
}

/// Places jobs on the cluster's GPUs, MIG slices included when a MIG
/// profile registry is configured.
#[derive(Debug)]
pub struct ResourceManager {
    pub mig_registry: Option<MigProfileRegistry>,
    pub gpu_selection: GpuSelectionPolicy,
}

impl ResourceManager {
    /// Whether `can_place` says yes for the job on these nodes.
    pub open spec fn spec_can_place(&self, nv: Seq<NodeView>, job: Job) -> bool {
        if job.spec_is_mig_job() {
            self.spec_can_place_mig(nv, job)
        } else {
            can_place_whole(nv, job)
        }
    }

    pub open spec fn spec_can_place_mig(&self, nv: Seq<NodeView>, job: Job) -> bool {
        &&& self.mig_registry is Some
        &&& job.mig_profile is Some
        &&& lookup_profile(self.mig_registry->0.profiles@, job.mig_profile->0@) is Some
        &&& total_mig_capacity(
            gpus_of(nv),
            job.mig_profile->0@,
            lookup_profile(self.mig_registry->0.profiles@, job.mig_profile->0@)->0,
        ) >= job.spec_slices_needed()
    }

    /// What placing a MIG job gives, from cluster `c0` to cluster `c1`.
    pub open spec fn mig_allocation(&self, c0: &Cluster, c1: &Cluster, job: Job, start_time: u64, r: Result<Placement, SimError>) -> bool {
        let nv = c0.resources();
        let gv = gpus_of(nv);
        match self.mig_registry {
            None => r matches Err(SimError::Config(_)) && *c1 == *c0,
            Some(registry) => match job.mig_profile {
                None => r matches Err(SimError::Config(_)) && *c1 == *c0,
                Some(profile) => match lookup_profile(registry.profiles@, profile@) {
                    None => r matches Err(SimError::UnknownMigProfile(_)) && *c1 == *c0,
                    Some(spec) => {
                        let needed = job.spec_slices_needed();
                        let p1 = take_upto(free_slice_ids(gv, profile@), needed as nat);
                        if p1.len() == needed {
                            &&& r is Ok
                            &&& r->Ok_0.job_id@ == job.id@
                            &&& ids_view(r->Ok_0.gpu_ids@) == p1
                            &&& r->Ok_0.start_time == start_time
                            &&& *c1 == *c0
                        } else {
                            match reconfig_candidate(gv, profile@, needed) {
                                None => {
                                    &&& r matches Err(SimError::InsufficientGpus { need, available })
                                        && need == needed && available == p1.len() as u32
                                    &&& *c1 == *c0
                                },
                                Some(c) => {
                                    let loc = gpu_location(nv, gv[c].id)->0;
                                    if needed > spec.max_per_gpu {
                                        &&& r matches Err(SimError::InsufficientGpus { need, available })
                                            && need == needed && available == spec.max_per_gpu
                                        &&& c1.resources() == nv
                                        &&& c1.same_jobs(c0)
                                    } else {
                                        &&& r is Ok
                                        &&& r->Ok_0.job_id@ == job.id@
                                        &&& ids_view(r->Ok_0.gpu_ids@) == p1 + fresh_slice_ids(
                                            gv[c].id,
                                            (needed - p1.len()) as nat,
                                        )
                                        &&& r->Ok_0.start_time == sat_add(start_time, registry.reconfig_seconds)
                                        &&& c1.resources() == with_gpu(
                                            nv,
                                            loc.0,
                                            loc.1,
                                            partitioned(nv[loc.0].gpus[loc.1], profile@, needed as nat, spec),
                                        )
                                        &&& c1.mig_reconfigs == sat_inc(c0.mig_reconfigs)
                                        &&& c1.waiting_queue == c0.waiting_queue
                                        &&& c1.running_jobs == c0.running_jobs
                                        &&& c1.finished_jobs == c0.finished_jobs
                                        &&& c1.clock == c0.clock
                                        &&& c1.tenant_quotas == c0.tenant_quotas
                                        &&& c1.failed_jobs == c0.failed_jobs
                                    }
                                },
                            }
                        }
                    },
                },
            },
        }
    }

    /// The outcome of placing `job` at time `t` on nodes `nv` after
    /// `reconfigs` repartitions: `None` when placement fails, otherwise the
    /// resource ids given to the job, its start time, the nodes afterwards
    /// and the repartition count afterwards.
    pub open spec fn outcome(&self, nv: Seq<NodeView>, reconfigs: u32, job: Job, t: u64) -> Option<
        (Seq<Seq<char>>, u64, Seq<NodeView>, u32),
    > {
        let gv = gpus_of(nv);
        if !job.spec_is_mig_job() {
            if can_place_whole(nv, job) {
                Some((whole_choice(nv, job, self.gpu_selection), t, nv, reconfigs))
            } else {
                None
            }
        } else {
            match self.mig_registry {
                None => None,
                Some(registry) => match job.mig_profile {
                    None => None,
                    Some(profile) => match lookup_profile(registry.profiles@, profile@) {
                        None => None,
                        Some(spec) => {
                            let needed = job.spec_slices_needed();
                            let p1 = take_upto(free_slice_ids(gv, profile@), needed as nat);
                            if p1.len() == needed {
                                Some((p1, t, nv, reconfigs))
                            } else {
                                match reconfig_candidate(gv, profile@, needed) {
                                    None => None,
                                    Some(c) => {
                                        let loc = gpu_location(nv, gv[c].id)->0;
                                        if needed > spec.max_per_gpu {
                                            None
                                        } else {
                                            Some(
                                                (
                                                    p1 + fresh_slice_ids(gv[c].id, (needed - p1.len()) as nat),
                                                    sat_add(t, registry.reconfig_seconds),
                                                    with_gpu(
                                                        nv,
                                                        loc.0,
                                                        loc.1,
                                                        partitioned(nv[loc.0].gpus[loc.1], profile@, needed as nat, spec),
                                                    ),
                                                    sat_inc(reconfigs),
                                                ),
                                            )
                                        }
                                    },
                                }
                            }
                        },
                    },
                },
            }
        }
    }

    /// A manager for whole-GPU placement only.
    pub fn new() -> (rm: ResourceManager)
        ensures
            rm.mig_registry is None,
            rm.gpu_selection == GpuSelectionPolicy::FirstFit,
    {
        ResourceManager { mig_registry: None, gpu_selection: GpuSelectionPolicy::FirstFit }
    }

    /// A manager that also places MIG jobs, with the given profiles.
    pub fn with_mig(registry: MigProfileRegistry) -> (rm: ResourceManager)
        ensures
            rm.mig_registry == Some(registry),
            rm.gpu_selection == GpuSelectionPolicy::FirstFit,
    {
        ResourceManager { mig_registry: Some(registry), gpu_selection: GpuSelectionPolicy::FirstFit }
    }

    /// The same manager with another GPU selection policy.
    pub fn with_gpu_selection(self, policy: GpuSelectionPolicy) -> (rm: ResourceManager)
        ensures
            rm.mig_registry == self.mig_registry,
            rm.gpu_selection == policy,
    {
        ResourceManager { mig_registry: self.mig_registry, gpu_selection: policy }
    }

    /// Whether the job could be placed now: its resources are free and its
    /// tenant stays within quota.
    pub fn can_place(&self, cluster: &Cluster, job: &Job) -> (r: bool)
        requires
            cluster.wf(),
        ensures
            r == (self.spec_can_place(cluster.resources(), *job) && within_quota(
                cluster.running_jobs@,
                cluster.tenant_quotas@,
                *job,
            )),
    {
        if !cluster.within_tenant_quota(job) {
            return false;
        }
        if job.is_mig_job() {
            return self.can_place_mig(cluster, job);
        }
        self.can_place_whole_gpu(cluster, job)
    }

    /// Places the job: MIG jobs on MIG slices, other jobs on whole GPUs.
    /// Nothing is placed partially: the result names every resource the job
    /// needs, or is an error.
    pub fn allocate(&self, cluster: &mut Cluster, job: &Job, start_time: u64) -> (r: Result<Placement, SimError>)
        requires
            old(cluster).wf(),
        ensures
            final(cluster).wf(),
            job.spec_is_mig_job() ==> self.mig_allocation(old(cluster), final(cluster), *job, start_time, r),
            !job.spec_is_mig_job() ==> *final(cluster) == *old(cluster) && whole_allocation(
                old(cluster).resources(),
                *job,
                self.gpu_selection,
                start_time,
                r,
            ),
            match r {
                Ok(p) => {
                    &&& p.job_id@ == job.id@
                    &&& self.outcome(old(cluster).resources(), old(cluster).mig_reconfigs, *job, start_time) == Some(
                        (ids_view(p.gpu_ids@), p.start_time, final(cluster).resources(), final(cluster).mig_reconfigs),
                    )
                },
                Err(_) => {
                    &&& self.outcome(old(cluster).resources(), old(cluster).mig_reconfigs, *job, start_time) is None
                    &&& final(cluster).resources() == old(cluster).resources()
                    &&& final(cluster).mig_reconfigs == old(cluster).mig_reconfigs
                },
            },
            final(cluster).waiting_queue == old(cluster).waiting_queue,
            final(cluster).running_jobs == old(cluster).running_jobs,
            final(cluster).finished_jobs == old(cluster).finished_jobs,
            final(cluster).clock == old(cluster).clock,
            final(cluster).tenant_quotas == old(cluster).tenant_quotas,
            final(cluster).failed_jobs == old(cluster).failed_jobs,
    {
        if job.is_mig_job() {
            return self.allocate_mig(cluster, job, start_time);
        }
        self.allocate_whole_gpu(cluster, job, start_time)
    }

    /// Releasing is done by `Cluster::finish_job`; this changes nothing.
    pub fn release(&self, cluster: &mut Cluster, job: &Job)
        ensures
            *final(cluster) == *old(cluster),
    {
    }

    fn can_place_whole_gpu(&self, cluster: &Cluster, job: &Job) -> (r: bool)
        requires
            cluster.wf(),
        ensures
            r == can_place_whole(cluster.resources(), *job),
    {
        if job.gpu_count == 0 {
            return false;
        }
        if job.gang_enabled {
            match job.gang_size_nodes {
                Some(n) if n > 0 => {
                    let per = job.gpu_count / n;
                    assert((n as u64) * (per as u64) <= u32::MAX * u32::MAX) by (nonlinear_arith)
                        requires
                            n <= u32::MAX,
                            per <= u32::MAX,
                    ;
                    if (n as u64) * (per as u64) != job.gpu_count as u64 {
                        return false;
                    }
                    let ids = spread_gpus(cluster, job, per, job.gpu_count);
                    assert(ids_view(ids@).len() == ids@.len());
                    return ids.len() == job.gpu_count as usize;
                },
                _ => {},
            }
        }
        let gpus = cluster.all_gpus();
        let ghost gv = gpus_of(cluster.resources());
        let mut n: usize = 0;
        let mut i: usize = 0;
        while i < gpus.len()
            invariant
                gpus@.map_values(|g: &Gpu| g@) == gv,
                i <= gv.len(),
                n == fitting_ids(gv.take(i as int), *job).len(),
                n <= i,
            decreases gv.len() - i,
        {
            assert(gv.take(i as int + 1).drop_last() =~= gv.take(i as int));
            assert(gv[i as int] == gpus@[i as int]@);
            let g = gpus[i];
            if g.is_whole_gpu_free() && (job.gpu_memory_gb == 0 || (g.memory_gb >= 0 && g.memory_gb as u64 >= job.gpu_memory_gb)) {
                n = n + 1;
            }
            i = i + 1;
        }
        assert(gv.take(gv.len() as int) =~= gv);
        n >= job.gpu_count as usize
    }

    fn can_place_mig(&self, cluster: &Cluster, job: &Job) -> (r: bool)
        requires
            cluster.wf(),
        ensures
            r == self.spec_can_place_mig(cluster.resources(), *job),
    {
        let registry = match &self.mig_registry {
            Some(r) => r,
            None => return false,
        };
        let profile = match job.mig_profile_name() {
            Some(p) => p,
            None => return false,
        };
        let spec = match registry.profile(profile) {
            Ok(s) => s,
            Err(_) => return false,
        };
        let needed = job.mig_slices_needed();
        let gpus = cluster.all_gpus();
        let ghost gv = gpus_of(cluster.resources());
        let mut available: u128 = 0;
        let mut i: usize = 0;
        while i < gpus.len()
            invariant
                gpus@.map_values(|g: &Gpu| g@) == gv,
                i <= gv.len(),
                available == total_mig_capacity(gv.take(i as int), profile@, spec),
                gv == gpus_of(cluster.resources()),
                self.mig_registry is Some,
                self.mig_registry->0 == *registry,
                job.mig_profile is Some,
                profile@ == job.mig_profile->0@,
                lookup_profile(registry.profiles@, profile@) == Some(spec),
                needed == job.spec_slices_needed(),
                available < needed as u128 || i == 0 || available >= needed as u128,
                available <= (needed as u128) + 0x1_0000_0000_0000_0000u128 + 0x1_0000_0000u128,
            decreases gv.len() - i,
        {
            if available >= needed as u128 {
                proof {
                    lemma_capacity_mono(gv, profile@, spec, i as int, gv.len() as int);
                    assert(gv.take(gv.len() as int) =~= gv);
                    assert(total_mig_capacity(gv, profile@, spec) >= needed);
                }
                return true;
            }
            assert(gv.take(i as int + 1).drop_last() =~= gv.take(i as int));
            assert(gv[i as int] == gpus@[i as int]@);
            let g = gpus[i];
            if g.mig_capable {
                let free = g.free_mig_slice_count(profile);
                available = available + free as u128;
                if g.is_fully_idle() {
                    let partitioned_for_profile = match &g.active_mig_profile {
                        Some(a) => str_eq(a.as_str(), profile),
                        None => false,
                    };
                    if g.slices.len() == 0 || !partitioned_for_profile {
                        available = available + spec.max_per_gpu as u128;
                    }
                }
            }
            i = i + 1;
        }
        assert(gv.take(gv.len() as int) =~= gv);
        available >= needed as u128
    }

    /// Picks whole GPUs for the job (see `whole_choice`): a job that prefers
    /// one NVLink domain gets the first domain that holds it, else the first
    /// `gpu_count` GPUs, in cluster order, that fit it; fails when
    /// `can_place` says no.
    fn allocate_whole_gpu(&self, cluster: &Cluster, job: &Job, start_time: u64) -> (r: Result<Placement, SimError>)
        requires
            cluster.wf(),
        ensures
            whole_allocation(cluster.resources(), *job, self.gpu_selection, start_time, r),
    {
        if !self.can_place_whole_gpu(cluster, job) {
            let free = cluster.free_gpu_count();
            return Err(SimError::InsufficientGpus { need: job.gpu_count, available: free as u32 });
        }
        if job.gang_enabled {
            match job.gang_size_nodes {
                Some(n) if n > 0 => {
                    let ids = spread_gpus(cluster, job, job.gpu_count / n, job.gpu_count);
                    return Ok(Placement { job_id: job.id.clone(), gpu_ids: ids, start_time });
                },
                _ => {},
            }
        }
        let gpus = cluster.all_gpus();
        let ghost gv = gpus_of(cluster.resources());
        if job.network_bw_gbps.is_some() || job.gang_enabled {
            let mut i: usize = 0;
            while i < gpus.len()
                invariant
                    gpus@.map_values(|g: &Gpu| g@) == gv,
                    gv == gpus_of(cluster.resources()),
                    i <= gv.len(),
                    prefers_domain(*job),
                    gang_nodes(*job) is None,
                    can_place_whole(cluster.resources(), *job),
                    forall|j: int| 0 <= j < i ==> domain_ids(gv, #[trigger] gv[j], *job).len() < job.gpu_count,
                decreases gv.len() - i,
            {
                assert(gv[i as int] == gpus@[i as int]@);
                let in_group = collect_domain(&gpus, gpus[i], job, job.gpu_count as usize);
                if in_group.len() == job.gpu_count as usize {
                    proof {
                        let dids = domain_ids(gv, gv[i as int], *job);
                        if dids.len() < job.gpu_count {
                            assert(take_upto(dids, job.gpu_count as nat) == dids);
                        }
                        assert(first_domain(gv, *job, i as int));
                        let w = choose|w: int| first_domain(gv, *job, w);
                        if w < i {
                            assert(domain_ids(gv, gv[w], *job).len() < job.gpu_count);
                        } else if w > i {
                            assert(domain_ids(gv, gv[i as int], *job).len() < job.gpu_count);
                        }
                        assert(w == i);
                        assert(ids_view(in_group@) =~= whole_choice(cluster.resources(), *job, self.gpu_selection));
                    }
                    return Ok(Placement { job_id: job.id.clone(), gpu_ids: in_group, start_time });
                }
                proof {
                    let dids = domain_ids(gv, gv[i as int], *job);
                    if dids.len() >= job.gpu_count {
                        assert(take_upto(dids, job.gpu_count as nat).len() == job.gpu_count);
                    }
                }
                i = i + 1;
            }
            proof {
                assert forall|w: int| !first_domain(gv, *job, w) by {
                    if 0 <= w < gv.len() {
                        assert(domain_ids(gv, gv[w], *job).len() < job.gpu_count);
                    }
                }
            }
        }
        if self.gpu_selection == GpuSelectionPolicy::BestFit {
            match best_fit_gpus(cluster, job) {
                Some(ids) => {
                    return Ok(Placement { job_id: job.id.clone(), gpu_ids: ids, start_time });
                },
                None => {},
            }
        }
        let selected = collect_fitting(&gpus, job, job.gpu_count as usize);
        proof {
            let f = fitting_ids(gpus_of(cluster.resources()), *job);
            if f.len() == job.gpu_count {
                assert(f.take(job.gpu_count as int) =~= f);
            }
            assert(ids_view(selected@).len() == selected@.len());
        }
        if selected.len() != job.gpu_count as usize {
            let free = cluster.free_gpu_count();
            return Err(SimError::InsufficientGpus { need: job.gpu_count, available: free as u32 });
        }
        Ok(Placement { job_id: job.id.clone(), gpu_ids: selected, start_time })
    }

    /// Picks MIG slices for the job: free slices of its profile in cluster
    /// order; when there are too few, the first fully idle MIG-capable GPU
    /// with too few such slices is repartitioned for the profile (delaying
    /// the start by the registry's reconfiguration time) and its new slices
    /// make up the rest.
    fn allocate_mig(&self, cluster: &mut Cluster, job: &Job, start_time: u64) -> (r: Result<Placement, SimError>)
        requires
            old(cluster).wf(),
        ensures
            final(cluster).wf(),
            self.mig_allocation(old(cluster), final(cluster), *job, start_time, r),
    {
        let registry = match &self.mig_registry {
            Some(reg) => reg,
            None => return Err(SimError::Config(String::from_str("MIG job submitted but no MIG profile registry configured"))),
        };
        let profile = match job.mig_profile_name() {
            Some(p) => p,
            None => return Err(SimError::Config(String::from_str("MIG job missing mig_profile"))),
        };
        let spec = match registry.profile(profile) {
            Ok(s) => s,
            Err(e) => return Err(e),
        };
        let needed = job.mig_slices_needed();
        let ghost nv = cluster.resources();
        let ghost gv = gpus_of(nv);
        let gpus = cluster.all_gpus();
        let mut selected = collect_free_slices(&gpus, profile, needed as usize);
        let ghost p1 = ids_view(selected@);
        let mut start = start_time;
        if selected.len() < needed as usize {
            match find_reconfigurable(&gpus, profile, needed) {
                Some(c) => {
                    proof {
                        let w = choose|i: int| first_reconfigurable(gv, profile@, needed, i);
                        assert(w == c as int);
                        assert(gv[c as int] == gpus@[c as int]@);
                    }
                    let gpu_id = gpus[c].id.clone();
                    let ghost flat_gpu = gv[c as int];
                    proof {
                        lemma_flat_gpu_located(nv, c as int);
                    }
                    let (n, g) = match cluster.find_gpu(gpu_id.as_str()) {
                        Some(loc) => loc,
                        None => unreached(),
                    };
                    proof {
                        let w = choose|n2: int, g2: int| first_gpu(nv, flat_gpu.id, n2, g2);
                        lemma_first_gpu_unique(nv, flat_gpu.id, w.0, w.1, n as int, g as int);
                    }
                    let ghost old_gpu = nv[n as int].gpus[g as int];
                    assert(old_gpu == cluster.nodes@[n as int].gpus@[g as int]@);
                    match reconfigure_gpu(&mut cluster.nodes[n].gpus[g], profile, needed, registry) {
                        Ok(()) => {},
                        Err(e) => {
                            proof {
                                assert(cluster.resources()[n as int].gpus =~= nv[n as int].gpus);
                                assert(cluster.resources() =~= nv);
                            }
                            return Err(e);
                        },
                    }
                    proof {
                        let target = with_gpu(nv, n as int, g as int, partitioned(old_gpu, profile@, needed as nat, spec));
                        assert(cluster.resources()[n as int].gpus =~= target[n as int].gpus);
                        assert(cluster.resources() =~= target);
                        crate::cluster::lemma_gpus_of_len_same_shape(cluster.resources(), nv);
                    }
                    cluster.mig_reconfigs = cluster.mig_reconfigs.saturating_add(1);
                    start = start_time.saturating_add(registry.reconfig_seconds);
                    let gpu = &cluster.nodes[n].gpus[g];
                    let ghost fresh = gpu@.slices;
                    let ghost len1 = selected@.len();
                    let mut s: usize = 0;
                    while s < gpu.slices.len() && selected.len() < needed as usize
                        invariant
                            fresh == gpu@.slices,
                            fresh == partitioned(old_gpu, profile@, needed as nat, spec).slices,
                            old_gpu.id == flat_gpu.id,
                            s <= fresh.len(),
                            len1 < needed,
                            ids_view(selected@) == p1 + fresh_slice_ids(flat_gpu.id, s as nat),
                            selected@.len() == len1 + s,
                            selected@.len() <= needed,
                        decreases fresh.len() - s,
                    {
                        assert(fresh[s as int] == gpu.slices@[s as int]@);
                        let sc = &gpu.slices[s];
                        if str_eq(sc.profile.as_str(), profile) && sc.is_free() {
                            let ghost before = selected@;
                            selected.push(sc.id.clone());
                            assert(ids_view(selected@) =~= ids_view(before).push(sc.id@));
                            assert(fresh_slice_ids(flat_gpu.id, s as nat + 1) =~= fresh_slice_ids(flat_gpu.id, s as nat).push(slice_id(flat_gpu.id, s as nat)));
                        }
                        s = s + 1;
                    }
                },
                None => {},
            }
        }
        if selected.len() != needed as usize {
            return Err(SimError::InsufficientGpus { need: needed, available: selected.len() as u32 });
        }
        Ok(Placement { job_id: job.id.clone(), gpu_ids: selected, start_time: start })
    }
}

pub proof fn lemma_capacity_mono(gpus: Seq<GpuView>, profile: Seq<char>, spec: MigProfileSpec, k: int, j: int)
    requires
        0 <= k <= j <= gpus.len(),
    ensures
        total_mig_capacity(gpus.take(k), profile, spec) <= total_mig_capacity(gpus.take(j), profile, spec),
    decreases j - k,
{
    if k < j {
        lemma_capacity_mono(gpus, profile, spec, k, j - 1);
        assert(gpus.take(j).drop_last() =~= gpus.take(j - 1));
    }
}

impl Default for ResourceManager {
    /// A manager for whole-GPU placement only.
    fn default() -> (rm: ResourceManager)
        ensures
            rm.mig_registry is None,
            rm.gpu_selection == GpuSelectionPolicy::FirstFit,
    {
        ResourceManager::new()
    }
}

} // verus!
