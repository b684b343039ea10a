//! Trusted bindings to the `priority_queue` crate's `PriorityQueue`,
//! the max-priority structure the scalable generator keeps its active
//! filters in.  Items are `(base, state)` pairs and the priority is
//! chosen by the caller; the queue's contents are modelled as a
//! multiset of `(item, priority)` pairs, so nothing is assumed about
//! the order among equal priorities.

use vstd::prelude::*;
use vstd::multiset::Multiset;
use priority_queue::PriorityQueue;
use std::collections::hash_map::RandomState;

verus! {

#[verifier::external_type_specification]
#[verifier::external_body]
#[verifier::reject_recursive_types(I)]
#[verifier::reject_recursive_types(P)]
#[verifier::reject_recursive_types(H)]
pub struct ExPriorityQueue<I, P, H>(PriorityQueue<I, P, H>);

/// The multiset of `(item, priority)` pairs the queue holds.
pub uninterp spec fn pq_contents(q: PriorityQueue<(u64, u64), u64, RandomState>) -> Multiset<
    ((u64, u64), u64),
>;

/// Relies on `PriorityQueue::new`: it creates an empty queue.
#[verifier::external_body]
pub(crate) fn pq_new() -> (q: PriorityQueue<(u64, u64), u64, RandomState>)
    ensures
        pq_contents(q) == Multiset::<((u64, u64), u64)>::empty(),
{
    PriorityQueue::new()
}

/// Relies on `PriorityQueue::push`: an item not yet present is
/// inserted with the given priority.  (On a present item the crate
/// would update its priority instead, so presence is excluded here.)
#[verifier::external_body]
pub(crate) fn pq_push(
    q: &mut PriorityQueue<(u64, u64), u64, RandomState>,
    item: (u64, u64),
    prio: u64,
)
    requires
        forall|x: ((u64, u64), u64)|
            #[trigger] pq_contents(*old(q)).count(x) > 0 ==> x.0 != item,
    ensures
        pq_contents(*final(q)) == pq_contents(*old(q)).insert((item, prio)),
{
    q.push(item, prio);
}

/// Relies on `PriorityQueue::peek`: it returns a pair carrying the
/// greatest priority in the queue, or nothing when the queue is empty.
#[verifier::external_body]
pub(crate) fn pq_peek(q: &PriorityQueue<(u64, u64), u64, RandomState>) -> (r: Option<
    ((u64, u64), u64),
>)
    ensures
        match r {
            Some(x) => pq_contents(*q).count(x) > 0 && forall|y: ((u64, u64), u64)|
                #[trigger] pq_contents(*q).count(y) > 0 ==> y.1 <= x.1,
            None => pq_contents(*q) == Multiset::<((u64, u64), u64)>::empty(),
        },
{
    match q.peek() {
        Some((i, p)) => Some((*i, *p)),
        None => None,
    }
}

/// Relies on `PriorityQueue::pop`: it removes and returns a pair
/// carrying the greatest priority, or nothing when the queue is empty.
#[verifier::external_body]
pub(crate) fn pq_pop(q: &mut PriorityQueue<(u64, u64), u64, RandomState>) -> (r: Option<
    ((u64, u64), u64),
>)
    ensures
        match r {
            Some(x) => pq_contents(*old(q)).count(x) > 0 && pq_contents(*final(q))
                == pq_contents(*old(q)).remove(x) && forall|y: ((u64, u64), u64)|
                #[trigger] pq_contents(*old(q)).count(y) > 0 ==> y.1 <= x.1,
            None => pq_contents(*old(q)) == Multiset::<((u64, u64), u64)>::empty()
                && pq_contents(*final(q)) == pq_contents(*old(q)),
        },
{
    q.pop()
}

} // verus!
