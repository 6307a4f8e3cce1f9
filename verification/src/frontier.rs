//! The search frontier: a priority queue of node indices ordered by scaled
//! priority, backed by the `priority-queue` crate.
//!
//! The queue is modelled as a map from node index to priority. The search
//! stores `u64::MAX - f` as the priority, so that popping the greatest
//! priority yields the node with the least estimated cost `f`.

use vstd::prelude::*;

verus! {

#[verifier::external_type_specification]
#[verifier::external_body]
#[verifier::reject_recursive_types(I)]
#[verifier::reject_recursive_types(P)]
#[verifier::reject_recursive_types(H)]
pub struct ExPriorityQueue<I, P, H>(priority_queue::PriorityQueue<I, P, H>);

/// A queue of node indices with scaled priorities.
pub type Frontier = priority_queue::PriorityQueue<usize, u64>;

/// What the frontier holds: each queued node index with its priority.
pub uninterp spec fn frontier_view(q: Frontier) -> Map<usize, u64>;

/// Relies on PriorityQueue::new: creates an empty queue.
#[verifier::external_body]
pub(crate) fn frontier_new() -> (r: Frontier)
    ensures
        frontier_view(r).dom() =~= Set::<usize>::empty(),
{
    priority_queue::PriorityQueue::new()
}

/// Relies on PriorityQueue::push_increase: inserts a missing item; raises the
/// priority of a present item handed a greater one; otherwise changes nothing.
#[verifier::external_body]
pub(crate) fn frontier_push_increase(q: &mut Frontier, item: usize, priority: u64)
    ensures
        frontier_view(*final(q)) == if !frontier_view(*old(q)).dom().contains(item)
            || frontier_view(*old(q))[item] < priority {
            frontier_view(*old(q)).insert(item, priority)
        } else {
            frontier_view(*old(q))
        },
{
    q.push_increase(item, priority);
}

/// Relies on PriorityQueue::pop: removes and returns a pair with the greatest
/// priority, or `None` exactly when the queue is empty.
#[verifier::external_body]
pub(crate) fn frontier_pop(q: &mut Frontier) -> (r: Option<(usize, u64)>)
    ensures
        match r {
            Option::None => {
                &&& frontier_view(*old(q)) == Map::<usize, u64>::empty()
                &&& frontier_view(*final(q)) == frontier_view(*old(q))
            },
            Option::Some(pair) => {
                &&& frontier_view(*old(q)).dom().contains(pair.0)
                &&& frontier_view(*old(q))[pair.0] == pair.1
                &&& forall|i: usize|
                    frontier_view(*old(q)).dom().contains(i)
                        ==> frontier_view(*old(q))[i] <= pair.1
                &&& frontier_view(*final(q)) == frontier_view(*old(q)).remove(pair.0)
            },
        },
{
    q.pop()
}

} // verus!
