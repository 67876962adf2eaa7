//! A min-queue of costed values. The smallest cost leaves first; among equal
//! costs, the largest value.
use vstd::prelude::*;

verus! {

#[derive(Clone, Copy, Debug, PartialEq, Eq)]
pub struct PriorityQueueItem<K, V> {
    pub cost: K,
    pub value: V,
}

impl<K, V> PriorityQueueItem<K, V> {
    pub fn new(cost: K, value: V) -> (r: Self)
        ensures
            r.cost == cost,
            r.value == value,
    {
        PriorityQueueItem { cost, value }
    }
}

/// `a` leaves a queue before `b`.
pub open spec fn leaves_before(a: PriorityQueueItem<u64, usize>, b: PriorityQueueItem<u64, usize>) -> bool {
    a.cost < b.cost || (a.cost == b.cost && a.value >= b.value)
}

/// Removes and returns the item that leaves first.
pub fn pop_min(queue: &mut Vec<PriorityQueueItem<u64, usize>>) -> (r: PriorityQueueItem<u64, usize>)
    requires
        old(queue)@.len() > 0,
    ensures
        exists|k: int| 0 <= k < old(queue)@.len() && old(queue)@[k] == r && final(queue)@ == old(queue)@.remove(k),
        forall|k: int| 0 <= k < old(queue)@.len() ==> leaves_before(r, #[trigger] old(queue)@[k]),
{
    let mut best: usize = 0;
    let mut k: usize = 1;
    while k < queue.len()
        invariant
            queue@ == old(queue)@,
            queue@.len() > 0,
            best < queue@.len(),
            1 <= k <= queue@.len(),
            forall|j: int| 0 <= j < k ==> leaves_before(queue@[best as int], #[trigger] queue@[j]),
        decreases queue@.len() - k,
    {
        let a = queue[k];
        let b = queue[best];
        if a.cost < b.cost || (a.cost == b.cost && a.value > b.value) {
            best = k;
        }
        k = k + 1;
    }
    queue.remove(best)
}

} // verus!
