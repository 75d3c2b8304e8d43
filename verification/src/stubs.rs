//! Best-fit scheduling is not implemented yet: it places nothing.

use vstd::prelude::*;
use crate::cluster::Cluster;
use crate::engine::{lemma_no_evictions, Scheduler};
use crate::models::Placement;
use crate::resource::ResourceManager;

verus! {

/// Best-fit scheduling (not implemented): places nothing.
#[derive(Debug, Default, Clone, Copy)]
pub struct BestFitScheduler;

impl Scheduler for BestFitScheduler {
    /// Places nothing and changes nothing.
    open spec fn schedules(&self, next: &Self, c0: &Cluster, rm: &ResourceManager, c1: &Cluster, ps: Seq<Placement>) -> bool {
        ps.len() == 0 && *c1 == *c0
    }

    fn schedule(&mut self, cluster: &mut Cluster, resource_manager: &ResourceManager) -> (placements: Vec<Placement>)
        ensures
            placements@.len() == 0,
            *final(cluster) == *old(cluster),
    {
        proof {
            lemma_no_evictions(old(cluster), cluster);
        }
        Vec::new()
    }
}

} // verus!
