//! The open set of a search frontier: tiles waiting to be visited, each with
//! one priority, handed out lowest priority first.
//!
//! The queue itself comes from the `priority_queue` crate. Nothing in this
//! module is proved: each item below states, without proof, what that crate's
//! code does, and the search is verified against these statements.
use priority_queue::PriorityQueue;
use std::cmp::Reverse;
use vstd::prelude::*;

verus! {

/// `std::cmp::Reverse`, carried through as an opaque value.
#[verifier::external_type_specification]
#[verifier::external_body]
#[verifier::reject_recursive_types(T)]
pub struct ExReverse<T>(Reverse<T>);

/// `priority_queue::PriorityQueue`, carried through as an opaque value.
#[verifier::external_type_specification]
#[verifier::external_body]
#[verifier::reject_recursive_types(I)]
#[verifier::reject_recursive_types(P)]
#[verifier::reject_recursive_types(H)]
pub struct ExPriorityQueue<I, P, H>(PriorityQueue<I, P, H>);

/// A queue of tiles, lowest priority first.
pub type OpenSet = PriorityQueue<u32, Reverse<u64>>;

/// What a queue holds: each queued tile with its one priority. The queue
/// keys its entries by item, so a tile is never queued twice.
pub uninterp spec fn open_set_entries(q: OpenSet) -> Map<u32, u64>;

/// `PriorityQueue::new`: a queue that holds nothing.
#[verifier::external_body]
pub(crate) fn open_set_new() -> (q: OpenSet)
    ensures
        open_set_entries(q) == (Map::<u32, u64>::empty()),
{
    PriorityQueue::new()
}

/// `PriorityQueue::is_empty`: whether the queue holds no entry.
#[verifier::external_body]
pub(crate) fn open_set_is_empty(q: &OpenSet) -> (r: bool)
    ensures
        r == (forall|k: u32| !open_set_entries(*q).contains_key(k)),
{
    q.is_empty()
}

/// `PriorityQueue::push` with the priority wrapped in `Reverse`: the tile is
/// queued with this priority, which replaces the one it was queued with
/// before, if any. Other entries stay as they are.
#[verifier::external_body]
pub(crate) fn open_set_push(q: &mut OpenSet, item: u32, priority: u64)
    ensures
        open_set_entries(*final(q)) == open_set_entries(*old(q)).insert(item, priority),
{
    q.push(item, Reverse(priority));
}

/// `PriorityQueue::pop` on `Reverse` priorities: an empty queue gives `None`
/// and stays as it is; otherwise one entry leaves the queue and is returned,
/// and no entry of the queue had a smaller priority. Which of several
/// entries with that same priority leaves is not stated.
#[verifier::external_body]
pub(crate) fn open_set_pop(q: &mut OpenSet) -> (r: Option<(u32, u64)>)
    ensures
        match r {
            None => {
                &&& forall|k: u32| !open_set_entries(*old(q)).contains_key(k)
                &&& open_set_entries(*final(q)) == open_set_entries(*old(q))
            },
            Some((item, priority)) => {
                &&& open_set_entries(*old(q)).contains_key(item)
                &&& open_set_entries(*old(q))[item] == priority
                &&& forall|k: u32| #[trigger]
                    open_set_entries(*old(q)).contains_key(k) ==> priority <= open_set_entries(
                        *old(q),
                    )[k]
                &&& open_set_entries(*final(q)) == open_set_entries(*old(q)).remove(item)
            },
        },
{
    match q.pop() {
        Some((item, Reverse(priority))) => Some((item, priority)),
        None => None,
    }
}

} // verus!
