//! Simulation events and the queue that orders them by time.

use vstd::prelude::*;

verus! {

#[derive(Debug, Clone, Copy, PartialEq, Eq, Structural)]
pub enum EventKind {
    JobArrival,
    JobComplete,
    GangTimeout,
}

/// Something that happens to a job at a point in time. A completion
/// carries the run generation of the run it completes.
#[derive(Debug)]
pub struct Event {
    pub time: u64,
    pub kind: EventKind,
    pub job_id: String,
    pub run_generation: u32,
}

/// `i` is the earliest event, and the last pushed among those at its time.
pub open spec fn earliest(events: Seq<Event>, i: int) -> bool {
    &&& 0 <= i < events.len()
    &&& forall|j: int| 0 <= j < events.len() ==> events[i].time <= (#[trigger] events[j]).time
    &&& forall|j: int| i < j < events.len() ==> events[i].time < (#[trigger] events[j]).time
}

/// Pending events; `pop` yields them in time order, and of events at the
/// same time the most recently pushed first.
#[derive(Debug)]
pub struct EventQueue {
    pub events: Vec<Event>,
}

impl EventQueue {
    pub fn new() -> (q: EventQueue)
        ensures
            q.events@.len() == 0,
    {
        EventQueue { events: Vec::new() }
    }

    pub fn push(&mut self, event: Event)
        ensures
            final(self).events@ == old(self).events@.push(event),
    {
        self.events.push(event);
    }

    pub fn len(&self) -> (n: usize)
        ensures
            n == self.events@.len(),
    {
        self.events.len()
    }

    /// Removes and returns the earliest event, or `None` when empty.
    pub fn pop(&mut self) -> (r: Option<Event>)
        ensures
            match r {
                None => old(self).events@.len() == 0 && *final(self) == *old(self),
                Some(e) => exists|i: int|
                    earliest(old(self).events@, i) && e == old(self).events@[i] && final(self).events@
                        == old(self).events@.remove(i),
            },
    {
        if self.events.len() == 0 {
            return None;
        }
        let mut best: usize = 0;
        let mut i: usize = 1;
        while i < self.events.len()
            invariant
                1 <= i <= self.events@.len(),
                best < i,
                forall|j: int| 0 <= j < i ==> self.events@[best as int].time <= (#[trigger] self.events@[j]).time,
                forall|j: int| best < j < i ==> self.events@[best as int].time < (#[trigger] self.events@[j]).time,
            decreases self.events@.len() - i,
        {
            if self.events[i].time <= self.events[best].time {
                best = i;
            }
            i = i + 1;
        }
        let e = self.events.remove(best);
        Some(e)
    }
}

} // verus!
