//! Priority scheduling: highest priority first, ties by earliest arrival,
//! with no preemption.

use vstd::prelude::*;
use crate::cluster::Cluster;
use crate::engine::{lemma_no_evictions, Scheduler};
use crate::fifo::{pass_result, place_in_order};
use crate::models::Placement;
use crate::resource::ResourceManager;
use crate::sorting::{lemma_sort_by_priority, sort_by_priority};

verus! {

/// Priority scheduler: orders the waiting queue by descending priority,
/// then by arrival time, and places jobs in that order in one pass; a job
/// that does not fit is skipped and later jobs are still tried. A running
/// job is never evicted.
#[derive(Debug, Default, Clone, Copy)]
pub struct PriorityScheduler;

impl PriorityScheduler {
    /// What `schedule` gives on `c0`: one placement pass over the waiting
    /// jobs in priority order (see `pass_result`).
    pub open spec fn spec_schedule(rm: &ResourceManager, c0: &Cluster, c1: &Cluster, ps: Seq<Placement>) -> bool {
        pass_result(rm, c0, sort_by_priority(c0.waiting_queue@), c1, ps)
    }

    pub fn schedule_priority(&mut self, cluster: &mut Cluster, resource_manager: &ResourceManager) -> (placements: Vec<Placement>)
        requires
            old(cluster).wf(),
        ensures
            final(cluster).wf(),
            Self::spec_schedule(resource_manager, old(cluster), final(cluster), placements@),
            final(cluster).waiting_queue@.to_multiset() == old(cluster).waiting_queue@.to_multiset(),
    {
        proof {
            lemma_sort_by_priority(cluster.waiting_queue@);
        }
        cluster.sort_waiting_by_priority();
        place_in_order(cluster, resource_manager)
    }
}

impl Scheduler for PriorityScheduler {
    /// One pass in priority order (see `spec_schedule`).
    open spec fn schedules(&self, next: &Self, c0: &Cluster, rm: &ResourceManager, c1: &Cluster, ps: Seq<Placement>) -> bool {
        Self::spec_schedule(rm, c0, c1, ps)
    }

    fn schedule(&mut self, cluster: &mut Cluster, resource_manager: &ResourceManager) -> (placements: Vec<Placement>) {
        let ghost c0 = *cluster;
        let placements = self.schedule_priority(cluster, resource_manager);
        proof {
            lemma_no_evictions(&c0, cluster);
        }
        placements
    }
}

} // verus!
