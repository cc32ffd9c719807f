//! The priority queues of the `priority_queue` crate, as the library uses them.
//!
//! A `PriorityQueue` holds each item at most once, with a priority; `pop`
//! takes out an item of greatest priority. Its contents are opaque to the
//! verifier: each queue type used here has a name for the map from items to
//! priorities that it holds, and each method the library calls has a
//! wrapper whose contract says what the method does to that map.
use priority_queue::PriorityQueue;
use std::cmp::Reverse;
use vstd::prelude::*;

use crate::common::{ConstraintPriority, VarId};

verus! {

#[verifier::external_type_specification]
#[verifier::external_body]
#[verifier::reject_recursive_types(I)]
#[verifier::reject_recursive_types(P)]
#[verifier::reject_recursive_types(H)]
pub struct ExPriorityQueue<I, P, H>(PriorityQueue<I, P, H>);

#[verifier::external_type_specification]
#[verifier::external_body]
#[verifier::reject_recursive_types(T)]
pub struct ExReverse<T>(Reverse<T>);

/// The queue of bounds of a multi-edge: each distinct bound `c`, with
/// priority `(Reverse(c), p)`, so that the least bound comes first.
pub type BoundQueue = PriorityQueue<i64, (Reverse<i64>, ConstraintPriority)>;

/// What a bound queue holds: each item `c` with the pair `(r, p)` of its
/// priority `(Reverse(r), p)`.
pub uninterp spec fn bound_queue_items(q: BoundQueue) -> Map<i64, (i64, ConstraintPriority)>;

/// The order of priorities `(Reverse(a.0), a.1) < (Reverse(b.0), b.1)`:
/// `Reverse` turns the order of its content around, and tuples compare
/// lexicographically.
pub open spec fn reversed_lt(a: (i64, ConstraintPriority), b: (i64, ConstraintPriority)) -> bool {
    a.0 > b.0 || (a.0 == b.0 && a.1 < b.1)
}

/// `PriorityQueue::new`: an empty queue.
#[verifier::external_body]
pub(crate) fn bound_queue_new() -> (queue: BoundQueue)
    ensures
        bound_queue_items(queue).dom().is_empty(),
        bound_queue_items(queue).dom().finite(),
{
    PriorityQueue::new()
}

/// `PriorityQueue::push` of `c` with priority `(Reverse(c), p)`: the bound
/// is held with that priority afterwards; the old priority, if it was
/// held, comes back.
#[verifier::external_body]
pub(crate) fn bound_queue_push(q: &mut BoundQueue, c: i64, p: ConstraintPriority) -> (res: Option<
    (i64, ConstraintPriority),
>)
    ensures
        bound_queue_items(*final(q)) == bound_queue_items(*old(q)).insert(c, (c, p)),
        bound_queue_items(*old(q)).dom().finite() ==> bound_queue_items(*final(q)).dom().finite(),
        res == (if bound_queue_items(*old(q)).contains_key(c) {
            Some(bound_queue_items(*old(q))[c])
        } else {
            None
        }),
{
    q.push(c, (Reverse(c), p)).map(|old| (old.0.0, old.1))
}

/// `PriorityQueue::peek`: an item of greatest priority with the second
/// part of that priority, or `None` on an empty queue.
#[verifier::external_body]
pub(crate) fn bound_queue_peek(q: &BoundQueue) -> (res: Option<(&i64, &ConstraintPriority)>)
    ensures
        match res {
            None => bound_queue_items(*q).dom().is_empty(),
            Some((c, p)) => {
                &&& bound_queue_items(*q).contains_key(*c)
                &&& bound_queue_items(*q)[*c].1 == *p
                &&& forall|other: i64| #[trigger]
                    bound_queue_items(*q).contains_key(other) ==> !reversed_lt(
                        bound_queue_items(*q)[*c],
                        bound_queue_items(*q)[other],
                    )
            },
        },
{
    q.peek().map(|(c, p)| (c, &p.1))
}

/// `PriorityQueue::remove`: takes the item out, reporting whether it was held.
#[verifier::external_body]
pub(crate) fn bound_queue_remove(q: &mut BoundQueue, c: &i64) -> (res: bool)
    ensures
        res == bound_queue_items(*old(q)).contains_key(*c),
        bound_queue_items(*final(q)) == bound_queue_items(*old(q)).remove(*c),
        bound_queue_items(*old(q)).dom().finite() ==> bound_queue_items(*final(q)).dom().finite(),
{
    q.remove(c).is_some()
}

/// `PriorityQueue::is_empty`.
#[verifier::external_body]
pub(crate) fn bound_queue_is_empty(q: &BoundQueue) -> (res: bool)
    ensures
        res == bound_queue_items(*q).dom().is_empty(),
{
    q.is_empty()
}

/// `PriorityQueue::append`: moves every item of `other` into `q`; `other`
/// ends empty. An item held by both keeps the priority it has in the larger
/// of the two queues, in `q` when they are equally large: the crate swaps
/// the two stores when `other` holds more items, then adds each item of the
/// smaller one that is not held yet.
#[verifier::external_body]
pub(crate) fn bound_queue_append(q: &mut BoundQueue, other: &mut BoundQueue)
    requires
        bound_queue_items(*old(q)).dom().finite(),
        bound_queue_items(*old(other)).dom().finite(),
    ensures
        bound_queue_items(*final(q)) == (if bound_queue_items(*old(q)).dom().len()
            >= bound_queue_items(*old(other)).dom().len() {
            bound_queue_items(*old(other)).union_prefer_right(bound_queue_items(*old(q)))
        } else {
            bound_queue_items(*old(q)).union_prefer_right(bound_queue_items(*old(other)))
        }),
        bound_queue_items(*final(other)).dom().is_empty(),
{
    q.append(other);
}

/// The queue of the constraints `v - u <= c` of a feasible system between one
/// pair of variables: each item `(c, p)` with priority `Reverse(c)`, so that
/// a least bound comes first.
pub type EdgeQueue = PriorityQueue<(i64, ConstraintPriority), Reverse<i64>>;

/// What an edge queue holds: each item with the content `r` of its
/// priority `Reverse(r)`.
pub uninterp spec fn edge_queue_items(q: EdgeQueue) -> Map<(i64, ConstraintPriority), i64>;

/// `PriorityQueue::new`: an empty queue.
#[verifier::external_body]
pub(crate) fn edge_queue_new() -> (queue: EdgeQueue)
    ensures
        edge_queue_items(queue).dom().is_empty(),
        edge_queue_items(queue).dom().finite(),
{
    PriorityQueue::new()
}

/// `PriorityQueue::push` of `item` with priority `Reverse(r)`: the item is
/// held with that priority afterwards, whether or not it was held before.
#[verifier::external_body]
pub(crate) fn edge_queue_push(q: &mut EdgeQueue, item: (i64, ConstraintPriority), r: i64)
    ensures
        edge_queue_items(*final(q)) == edge_queue_items(*old(q)).insert(item, r),
        edge_queue_items(*old(q)).dom().finite() ==> edge_queue_items(*final(q)).dom().finite(),
{
    q.push(item, Reverse(r));
}

/// `PriorityQueue::peek`: an item of greatest priority, that is of least
/// content `r` of `Reverse(r)`, or `None` on an empty queue.
#[verifier::external_body]
pub(crate) fn edge_queue_peek(q: &EdgeQueue) -> (res: Option<&(i64, ConstraintPriority)>)
    ensures
        match res {
            None => edge_queue_items(*q).dom().is_empty(),
            Some(item) => {
                &&& edge_queue_items(*q).contains_key(*item)
                &&& forall|other: (i64, ConstraintPriority)| #[trigger]
                    edge_queue_items(*q).contains_key(other) ==> edge_queue_items(*q)[*item]
                        <= edge_queue_items(*q)[other]
            },
        },
{
    q.peek().map(|(item, _)| item)
}

/// `PriorityQueue::remove`: takes the item out, reporting whether it was held.
#[verifier::external_body]
pub(crate) fn edge_queue_remove(q: &mut EdgeQueue, item: &(i64, ConstraintPriority)) -> (res: bool)
    ensures
        res == edge_queue_items(*old(q)).contains_key(*item),
        edge_queue_items(*final(q)) == edge_queue_items(*old(q)).remove(*item),
        edge_queue_items(*old(q)).dom().finite() ==> edge_queue_items(*final(q)).dom().finite(),
{
    q.remove(item).is_some()
}

/// The queue of pairs `(u, v)` of variables, by the greatest priority of
/// the constraints between them.
pub type PairQueue = PriorityQueue<(VarId, VarId), ConstraintPriority>;

/// What a pair queue holds: each pair with its priority.
pub uninterp spec fn pair_queue_items(q: PairQueue) -> Map<(VarId, VarId), ConstraintPriority>;

/// `PriorityQueue::new`: an empty queue.
#[verifier::external_body]
pub(crate) fn pair_queue_new() -> (queue: PairQueue)
    ensures
        pair_queue_items(queue).dom().is_empty(),
        pair_queue_items(queue).dom().finite(),
{
    PriorityQueue::new()
}

/// `PriorityQueue::push_increase`: inserts the pair when absent, raises its
/// priority when the given one is greater, and otherwise leaves the queue
/// as it was.
#[verifier::external_body]
pub(crate) fn pair_queue_push_increase(
    q: &mut PairQueue,
    item: (VarId, VarId),
    priority: ConstraintPriority,
)
    ensures
        pair_queue_items(*final(q)) == (if !pair_queue_items(*old(q)).contains_key(item)
            || pair_queue_items(*old(q))[item] < priority {
            pair_queue_items(*old(q)).insert(item, priority)
        } else {
            pair_queue_items(*old(q))
        }),
        pair_queue_items(*old(q)).dom().finite() ==> pair_queue_items(*final(q)).dom().finite(),
{
    q.push_increase(item, priority);
}

/// `PriorityQueue::push`: holds the pair with the priority afterwards,
/// whether or not it was held before.
#[verifier::external_body]
pub(crate) fn pair_queue_push(q: &mut PairQueue, item: (VarId, VarId), priority: ConstraintPriority)
    ensures
        pair_queue_items(*final(q)) == pair_queue_items(*old(q)).insert(item, priority),
        pair_queue_items(*old(q)).dom().finite() ==> pair_queue_items(*final(q)).dom().finite(),
{
    q.push(item, priority);
}

/// `PriorityQueue::pop`: takes out a pair whose priority no other pair
/// exceeds, with that priority, or gives `None` on an empty queue.
#[verifier::external_body]
pub(crate) fn pair_queue_pop(q: &mut PairQueue) -> (res: Option<((VarId, VarId), ConstraintPriority)>)
    ensures
        match res {
            None => pair_queue_items(*old(q)).dom().is_empty() && pair_queue_items(*final(q))
                == pair_queue_items(*old(q)),
            Some((item, priority)) => {
                &&& pair_queue_items(*old(q)).contains_key(item)
                &&& pair_queue_items(*old(q))[item] == priority
                &&& forall|other: (VarId, VarId)| #[trigger]
                    pair_queue_items(*old(q)).contains_key(other) ==> pair_queue_items(
                        *old(q),
                    )[other] <= priority
                &&& pair_queue_items(*final(q)) == pair_queue_items(*old(q)).remove(item)
            },
        },
        pair_queue_items(*old(q)).dom().finite() ==> pair_queue_items(*final(q)).dom().finite(),
{
    q.pop()
}

/// `PriorityQueue::remove`: takes the pair out, reporting whether it was held.
#[verifier::external_body]
pub(crate) fn pair_queue_remove(q: &mut PairQueue, item: &(VarId, VarId)) -> (res: bool)
    ensures
        res == pair_queue_items(*old(q)).contains_key(*item),
        pair_queue_items(*final(q)) == pair_queue_items(*old(q)).remove(*item),
        pair_queue_items(*old(q)).dom().finite() ==> pair_queue_items(*final(q)).dom().finite(),
{
    q.remove(item).is_some()
}

/// `PriorityQueue::is_empty`.
#[verifier::external_body]
pub(crate) fn pair_queue_is_empty(q: &PairQueue) -> (res: bool)
    ensures
        res == pair_queue_items(*q).dom().is_empty(),
{
    q.is_empty()
}

/// The queue of the repair search: variables keyed by
/// (negated reduced distance, current value), the distance in `i128` so
/// that no sum of reduced costs overflows.
pub type SearchQueue = PriorityQueue<VarId, (i128, i64)>;

/// What a search queue holds: each item with its priority.
pub uninterp spec fn search_queue_items(q: SearchQueue) -> Map<VarId, (i128, i64)>;

/// The lexicographic order of pairs, which is the order std gives tuples.
pub open spec fn pair_lt(a: (i128, i64), b: (i128, i64)) -> bool {
    a.0 < b.0 || (a.0 == b.0 && a.1 < b.1)
}

/// `PriorityQueue::new`: an empty queue.
#[verifier::external_body]
pub(crate) fn search_queue_new() -> (queue: SearchQueue)
    ensures
        search_queue_items(queue).dom().is_empty(),
{
    PriorityQueue::new()
}

/// `PriorityQueue::push`: the item is held with the given priority
/// afterwards, whether or not it was held before.
#[verifier::external_body]
pub(crate) fn search_queue_push(q: &mut SearchQueue, item: VarId, priority: (i128, i64))
    ensures
        search_queue_items(*final(q)) == search_queue_items(*old(q)).insert(item, priority),
{
    q.push(item, priority);
}

/// `PriorityQueue::push_increase`: inserts the item when absent, raises its
/// priority when the given one is greater, and otherwise leaves the queue
/// as it was.
#[verifier::external_body]
pub(crate) fn search_queue_push_increase(q: &mut SearchQueue, item: VarId, priority: (i128, i64))
    ensures
        search_queue_items(*final(q)) == (if !search_queue_items(*old(q)).contains_key(item)
            || pair_lt(search_queue_items(*old(q))[item], priority) {
            search_queue_items(*old(q)).insert(item, priority)
        } else {
            search_queue_items(*old(q))
        }),
{
    q.push_increase(item, priority);
}

/// `PriorityQueue::pop`: takes out an item whose priority no other item
/// exceeds, with that priority, or gives `None` on an empty queue.
#[verifier::external_body]
pub(crate) fn search_queue_pop(q: &mut SearchQueue) -> (r: Option<(VarId, (i128, i64))>)
    ensures
        match r {
            None => search_queue_items(*old(q)).dom().is_empty() && search_queue_items(*final(q))
                == search_queue_items(*old(q)),
            Some((item, priority)) => {
                &&& search_queue_items(*old(q)).contains_key(item)
                &&& search_queue_items(*old(q))[item] == priority
                &&& forall|other: VarId| #[trigger]
                    search_queue_items(*old(q)).contains_key(other) ==> !pair_lt(
                        priority,
                        search_queue_items(*old(q))[other],
                    )
                &&& search_queue_items(*final(q)) == search_queue_items(*old(q)).remove(item)
            },
        },
{
    q.pop()
}

} // verus!
