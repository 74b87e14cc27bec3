//! The priority queue of the `priority_queue` crate, as Dijkstra's search
//! uses it: items are node keys (`u128`), priorities are `i64`, and the
//! queue pops the item of greatest priority.
use priority_queue::PriorityQueue;
use std::collections::hash_map::RandomState;
use std::hash::Hash;
use vstd::prelude::*;

verus! {

#[verifier::external_type_specification]
#[verifier::external_body]
#[verifier::reject_recursive_types(I)]
#[verifier::reject_recursive_types(P)]
#[verifier::reject_recursive_types(H)]
pub struct ExPriorityQueue<I: Hash + Eq, P: Ord, H>(PriorityQueue<I, P, H>);

/// A queue of node keys ordered by `i64` priorities.
pub type NodeQueue = PriorityQueue<u128, i64, RandomState>;

/// The item-priority pairs that a queue holds.
pub uninterp spec fn pq_contents(q: NodeQueue) -> Map<u128, i64>;

/// `PriorityQueue::new`: the new queue holds nothing.
#[verifier::external_body]
pub(crate) fn pq_new() -> (queue: NodeQueue)
    ensures
        pq_contents(queue) =~= Map::empty(),
{
    PriorityQueue::new()
}

/// `PriorityQueue::push`: inserts the pair, or, where an equal item is
/// already queued, replaces its priority and hands the old one back.
#[verifier::external_body]
pub(crate) fn pq_push(q: &mut NodeQueue, item: u128, priority: i64) -> (r:
    Option<i64>)
    ensures
        pq_contents(*final(q)) == pq_contents(*old(q)).insert(item, priority),
        match r {
            Some(p) => pq_contents(*old(q)).contains_key(item) && p == pq_contents(*old(q))[item],
            None => !pq_contents(*old(q)).contains_key(item),
        },
{
    q.push(item, priority)
}

/// `PriorityQueue::pop`: removes and returns a pair of greatest priority,
/// or `None` when the queue is empty. Which of several pairs of equal
/// greatest priority comes out is left open.
#[verifier::external_body]
pub(crate) fn pq_pop(q: &mut NodeQueue) -> (r: Option<(u128, i64)>)
    ensures
        match r {
            None => pq_contents(*old(q)).dom() == Set::<u128>::empty() && pq_contents(*final(q))
                == pq_contents(*old(q)),
            Some((item, p)) => {
                &&& pq_contents(*old(q)).contains_key(item)
                &&& pq_contents(*old(q))[item] == p
                &&& forall|k: u128| #[trigger]
                    pq_contents(*old(q)).contains_key(k) ==> pq_contents(*old(q))[k] <= p
                &&& pq_contents(*final(q)) == pq_contents(*old(q)).remove(item)
            },
        },
{
    q.pop()
}

/// `PriorityQueue::is_empty`: whether the queue holds no pair.
#[verifier::external_body]
pub(crate) fn pq_is_empty(q: &NodeQueue) -> (r: bool)
    ensures
        r == (pq_contents(*q).dom() == Set::<u128>::empty()),
{
    q.is_empty()
}

} // verus!
