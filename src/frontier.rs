//! The search frontier: a priority queue of cells from the `priority_queue`
//! crate, seen through the map from each queued cell to its priority.
use vstd::prelude::*;
use priority_queue::PriorityQueue;

verus! {

#[verifier::external_type_specification]
#[verifier::external_body]
#[verifier::reject_recursive_types(I)]
#[verifier::reject_recursive_types(P)]
#[verifier::reject_recursive_types(H)]
pub struct ExPriorityQueue<I, P, H>(PriorityQueue<I, P, H>);

/// The cells in a frontier queue, each with its priority.
pub uninterp spec fn frontier_entries(q: PriorityQueue<usize, (usize, usize, usize)>) -> Map<
    usize,
    (usize, usize, usize),
>;

/// `a <= b` in the lexicographic order that std gives to tuples.
pub open spec fn rank_le(a: (usize, usize, usize), b: (usize, usize, usize)) -> bool {
    a.0 < b.0 || (a.0 == b.0 && (a.1 < b.1 || (a.1 == b.1 && a.2 <= b.2)))
}

/// Relies on `PriorityQueue::new`: a new queue holds nothing.
#[verifier::external_body]
pub(crate) fn frontier_new() -> (q: PriorityQueue<usize, (usize, usize, usize)>)
    ensures
        frontier_entries(q).dom() == Set::<usize>::empty(),
{
    PriorityQueue::new()
}

/// Relies on `PriorityQueue::push`: the cell is queued with the given
/// priority, which replaces the priority it had if it was queued already.
#[verifier::external_body]
pub(crate) fn frontier_push(
    q: &mut PriorityQueue<usize, (usize, usize, usize)>,
    cell: usize,
    rank: (usize, usize, usize),
)
    ensures
        frontier_entries(*final(q)) == frontier_entries(*old(q)).insert(cell, rank),
{
    q.push(cell, rank);
}

/// Relies on `PriorityQueue::pop`: it removes and returns a cell of greatest
/// priority, or `None` when the queue is empty.
#[verifier::external_body]
pub(crate) fn frontier_pop(q: &mut PriorityQueue<usize, (usize, usize, usize)>) -> (r: Option<
    (usize, (usize, usize, usize)),
>)
    ensures
        r is None ==> frontier_entries(*old(q)).dom() == Set::<usize>::empty()
            && frontier_entries(*final(q)) == frontier_entries(*old(q)),
        r matches Some((c, p)) ==> {
            &&& frontier_entries(*old(q)).contains_key(c)
            &&& frontier_entries(*old(q))[c] == p
            &&& forall|d: usize| #[trigger]
                frontier_entries(*old(q)).contains_key(d) ==> rank_le(
                    frontier_entries(*old(q))[d],
                    p,
                )
            &&& frontier_entries(*final(q)) == frontier_entries(*old(q)).remove(c)
        },
{
    q.pop()
}

/// Relies on `PriorityQueue::get_priority`: the priority of a queued cell,
/// `None` for a cell that is not queued.
#[verifier::external_body]
pub(crate) fn frontier_priority(q: &PriorityQueue<usize, (usize, usize, usize)>, cell: usize) -> (r:
    Option<(usize, usize, usize)>)
    ensures
        r == (if frontier_entries(*q).contains_key(cell) {
            Some(frontier_entries(*q)[cell])
        } else {
            None
        }),
{
    q.get_priority(&cell).copied()
}

} // verus!
