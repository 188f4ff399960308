//! Trusted wrappers around the outside priority queue that drives the search
//! engine. The queue holds node identifiers keyed by a `u64` priority; its
//! contents are modeled as a map from item to priority, so an item occurs at
//! most once and a repeated push updates its priority.

use vstd::prelude::*;

verus! {

#[verifier::external_type_specification]
#[verifier::external_body]
#[verifier::reject_recursive_types(I)]
#[verifier::reject_recursive_types(P)]
#[verifier::reject_recursive_types(H)]
pub struct ExDoublePriorityQueue<I, P, H>(priority_queue::DoublePriorityQueue<I, P, H>);

/// The concrete queue the search engine uses: items are node identifiers,
/// priorities are encoded costs.
pub type NodeQueue = priority_queue::DoublePriorityQueue<i64, u64>;

/// What the queue currently holds: each item with its priority.
pub uninterp spec fn queue_contents(q: NodeQueue) -> Map<i64, u64>;

/// Relies on `DoublePriorityQueue::new`: creates an empty queue.
#[verifier::external_body]
pub(crate) fn queue_new() -> (r: NodeQueue)
    ensures
        (queue_contents(r) == Map::<i64, u64>::empty()),
{
    priority_queue::DoublePriorityQueue::new()
}

/// Relies on `DoublePriorityQueue::is_empty`: true exactly when the queue
/// holds no item.
#[verifier::external_body]
pub(crate) fn queue_is_empty(q: &NodeQueue) -> (r: bool)
    ensures
        r <==> queue_contents(*q).dom() =~= Set::<i64>::empty(),
{
    q.is_empty()
}

/// Relies on `DoublePriorityQueue::push`: inserts the item with the given
/// priority, or updates the priority of an item already present.
#[verifier::external_body]
pub(crate) fn queue_push(q: &mut NodeQueue, item: i64, priority: u64)
    ensures
        queue_contents(*final(q)) == queue_contents(*old(q)).insert(item, priority),
{
    q.push(item, priority);
}

/// Relies on `DoublePriorityQueue::pop_min`: removes and returns an item
/// carrying the smallest priority in the queue (ties broken arbitrarily), or
/// returns nothing when the queue is empty.
#[verifier::external_body]
pub(crate) fn queue_pop_min(q: &mut NodeQueue) -> (r: Option<(i64, u64)>)
    ensures
        match r {
            Some(pair) => {
                &&& queue_contents(*old(q)).contains_pair(pair.0, pair.1)
                &&& forall|j: i64|
                    queue_contents(*old(q)).contains_key(j) ==> pair.1 <= queue_contents(*old(q))[j]
                &&& queue_contents(*final(q)) == queue_contents(*old(q)).remove(pair.0)
            },
            None => {
                &&& queue_contents(*old(q)).dom() =~= Set::<i64>::empty()
                &&& queue_contents(*final(q)) == queue_contents(*old(q))
            },
        },
{
    q.pop_min()
}

} // verus!
