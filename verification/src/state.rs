//! The pending-entry type of the search's priority queue, and the queue
//! itself: a vector of entries from which the minimum is extracted.
//!
//! Entries are ordered by ascending cost, ties broken by ascending node
//! id, so extraction order (and with it every search result) is
//! deterministic even when several nodes share a tentative cost.

use vstd::prelude::*;

verus! {

/// One pending queue entry: a tentative cost for a node.
#[derive(Copy, Clone, Debug, PartialEq, Eq, Structural)]
pub struct State {
    pub cost: u64,
    pub position: usize,
}

impl State {
    /// Strict queue order: lower cost first, ties by lower node id.
    pub open spec fn spec_precedes(self, other: State) -> bool {
        ||| self.cost < other.cost
        ||| (self.cost == other.cost && self.position < other.position)
    }

    /// Does `self` come strictly before `other` in the queue order?
    pub fn precedes(&self, other: &State) -> (r: bool)
        ensures
            r == self.spec_precedes(*other),
    {
        self.cost < other.cost || (self.cost == other.cost && self.position < other.position)
    }
}

/// Remove and return the minimum entry of `queue` under the queue order:
/// no remaining entry strictly precedes the returned one, and the
/// earliest occurrence of the minimum is the one removed — the call is
/// fully deterministic. Returns `None` exactly when the queue is empty.
pub fn pop_min(queue: &mut Vec<State>) -> (r: Option<State>)
    ensures
        match r {
            None => old(queue)@.len() == 0 && final(queue)@ == old(queue)@,
            Some(s) => {
                &&& old(queue)@.len() > 0
                &&& exists|i: int|
                    0 <= i < old(queue)@.len() && old(queue)@[i] == s && final(queue)@
                        == old(queue)@.remove(i) && (forall|j: int|
                        0 <= j < i ==> s.spec_precedes(#[trigger] old(queue)@[j]))
                &&& forall|j: int|
                    0 <= j < old(queue)@.len() ==> !old(queue)@[j].spec_precedes(s)
            },
        },
{
    if queue.len() == 0 {
        return None;
    }
    let mut best: usize = 0;
    let mut k: usize = 1;
    while k < queue.len()
        invariant
            queue@ == old(queue)@,
            0 < queue@.len(),
            0 <= best < k <= queue@.len(),
            forall|j: int| 0 <= j < k ==> !queue@[j].spec_precedes(queue@[best as int]),
            forall|j: int|
                0 <= j < best ==> queue@[best as int].spec_precedes(#[trigger] queue@[j]),
        decreases queue@.len() - k,
    {
        if queue[k].precedes(&queue[best]) {
            best = k;
        }
        k = k + 1;
    }
    let s = queue.remove(best);
    Some(s)
}

} // verus!
