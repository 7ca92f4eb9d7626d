//! The priority queue that holds one side of a book.
//!
//! The queue is `priority_queue::PriorityQueue`, keyed by order identifier and
//! ranked by [`RankKey`]. Nothing in this file is proved: each function states
//! what the queue's own method does, and the rest of the library is verified
//! against these statements.

use vstd::prelude::*;
use priority_queue::PriorityQueue;
use crate::priority::{key_le, RankKey};

verus! {

/// `priority_queue::PriorityQueue`, taken as given: the verifier sees nothing
/// inside a queue, only what the functions below say of it.
#[verifier::external_type_specification]
#[verifier::external_body]
#[verifier::reject_recursive_types(I)]
#[verifier::reject_recursive_types(P)]
#[verifier::reject_recursive_types(H)]
pub struct ExPriorityQueue<I, P, H>(PriorityQueue<I, P, H>);

/// One side of a book: order identifiers, each with its rank key.
pub type SideQueue = PriorityQueue<String, RankKey>;

/// What a queue holds: the key of each identifier in it. Two identifiers are
/// one when they have the same characters.
pub uninterp spec fn queue_entries(q: SideQueue) -> Map<Seq<char>, RankKey>;

/// The contents of a queue that holds nothing.
pub open spec fn empty_entries() -> Map<Seq<char>, RankKey> {
    Map::empty()
}

/// `PriorityQueue::new`: a queue that holds nothing.
#[verifier::external_body]
pub(crate) fn queue_new() -> (q: SideQueue)
    ensures
        queue_entries(q) == empty_entries(),
{
    PriorityQueue::new()
}

/// `PriorityQueue::len`: how many identifiers the queue holds.
#[verifier::external_body]
pub(crate) fn queue_len(q: &SideQueue) -> (n: usize)
    ensures
        n == queue_entries(*q).dom().len(),
{
    q.len()
}

/// `PriorityQueue::push`: the identifier is held under `key` afterwards,
/// whether or not it was held before, and nothing else changes. Returns the
/// key it was held under before, if it was.
#[verifier::external_body]
pub(crate) fn queue_push(q: &mut SideQueue, id: String, key: RankKey) -> (prev: Option<RankKey>)
    ensures
        queue_entries(*final(q)) == queue_entries(*old(q)).insert(id@, key),
        prev == if queue_entries(*old(q)).contains_key(id@) {
            Some(queue_entries(*old(q))[id@])
        } else {
            None
        },
{
    q.push(id, key)
}

/// `PriorityQueue::peek`: nothing if the queue is empty; otherwise an
/// identifier in the queue with its key, and no key in the queue is greater.
#[verifier::external_body]
pub(crate) fn queue_peek(q: &SideQueue) -> (top: Option<(String, RankKey)>)
    ensures
        match top {
            None => queue_entries(*q).dom() == Set::<Seq<char>>::empty(),
            Some((id, key)) => {
                &&& queue_entries(*q).contains_key(id@)
                &&& queue_entries(*q)[id@] == key
                &&& forall|other: Seq<char>| #[trigger]
                    queue_entries(*q).contains_key(other) ==> key_le(queue_entries(*q)[other], key)
            },
        },
{
    match q.peek() {
        Some((id, key)) => Some((id.clone(), *key)),
        None => None,
    }
}

/// `PriorityQueue::pop`: as `peek`, and the identifier returned has left the
/// queue, which is otherwise unchanged.
#[verifier::external_body]
pub(crate) fn queue_pop(q: &mut SideQueue) -> (top: Option<(String, RankKey)>)
    ensures
        match top {
            None => {
                &&& queue_entries(*old(q)).dom() == Set::<Seq<char>>::empty()
                &&& queue_entries(*final(q)) == queue_entries(*old(q))
            },
            Some((id, key)) => {
                &&& queue_entries(*old(q)).contains_key(id@)
                &&& queue_entries(*old(q))[id@] == key
                &&& forall|other: Seq<char>| #[trigger]
                    queue_entries(*old(q)).contains_key(other) ==> key_le(
                        queue_entries(*old(q))[other],
                        key,
                    )
                &&& queue_entries(*final(q)) == queue_entries(*old(q)).remove(id@)
            },
        },
{
    q.pop()
}

/// `PriorityQueue::remove`: the identifier is not in the queue afterwards, and
/// nothing else changes. Returns the key it was held under, if it was held.
#[verifier::external_body]
pub(crate) fn queue_remove(q: &mut SideQueue, id: &str) -> (removed: Option<RankKey>)
    ensures
        queue_entries(*final(q)) == queue_entries(*old(q)).remove(id@),
        removed == if queue_entries(*old(q)).contains_key(id@) {
            Some(queue_entries(*old(q))[id@])
        } else {
            None
        },
{
    match q.remove(id) {
        Some((_, key)) => Some(key),
        None => None,
    }
}

} // verus!
