use crate::map::TitleCoords;
use priority_queue::DoublePriorityQueue;
use vstd::prelude::*;

verus! {

#[verifier::external_type_specification]
#[verifier::external_body]
#[verifier::reject_recursive_types(I)]
#[verifier::reject_recursive_types(P)]
#[verifier::reject_recursive_types(H)]
pub struct ExDoublePriorityQueue<I, P, H>(DoublePriorityQueue<I, P, H>);

/// What the priority queue holds: every queued cell, keyed by its coordinate
/// pair, mapped to the priority it is queued with.
pub uninterp spec fn queue_contents(q: DoublePriorityQueue<(usize, usize), i64>) -> Map<
    (usize, usize),
    int,
>;

/// The contents of a queue holding nothing.
pub open spec fn empty_contents() -> Map<(usize, usize), int> {
    Map::empty()
}

/// The coordinate pair a cell is keyed by in the frontier queue.
pub open spec fn pair_of(c: TitleCoords) -> (usize, usize) {
    (c.x, c.y)
}

/// The frontier of the cost-aware variants: a double-ended priority queue
/// over coordinate pairs, viewed as the map from queued pair to priority.
pub struct Frontier {
    pub queue: DoublePriorityQueue<(usize, usize), i64>,
}

impl View for Frontier {
    type V = Map<(usize, usize), int>;

    open spec fn view(&self) -> Map<(usize, usize), int> {
        queue_contents(self.queue)
    }
}

impl Frontier {
    /// Relies on DoublePriorityQueue::new: it creates an empty queue.
    #[verifier::external_body]
    pub(crate) fn new() -> (r: Frontier)
        ensures
            r@ == empty_contents(),
    {
        Frontier { queue: DoublePriorityQueue::new() }
    }

    /// Relies on DoublePriorityQueue::push: it inserts the item with the
    /// given priority, or, when an equal item is already queued, updates
    /// that item's priority.
    #[verifier::external_body]
    pub(crate) fn push(&mut self, item: TitleCoords, priority: i64)
        ensures
            final(self)@ == old(self)@.insert(pair_of(item), priority as int),
    {
        self.queue.push((item.x, item.y), priority);
    }

    /// Relies on DoublePriorityQueue::pop_min: it removes and returns an
    /// item-priority pair whose priority is minimal among the queued ones,
    /// or returns None exactly when the queue is empty. Which of several
    /// items sharing the minimal priority leaves is not specified.
    #[verifier::external_body]
    pub(crate) fn pop_min(&mut self) -> (r: Option<(TitleCoords, i64)>)
        ensures
            match r {
                None => {
                    &&& old(self)@ == empty_contents()
                    &&& final(self)@ == old(self)@
                },
                Some((c, p)) => {
                    &&& old(self)@.contains_key(pair_of(c))
                    &&& old(self)@[pair_of(c)] == p as int
                    &&& forall|k: (usize, usize)|
                        #[trigger] old(self)@.contains_key(k) ==> p as int <= old(self)@[k]
                    &&& final(self)@ == old(self)@.remove(pair_of(c))
                },
            },
    {
        self.queue.pop_min().map(
            |kp: ((usize, usize), i64)| (TitleCoords { x: kp.0.0, y: kp.0.1 }, kp.1),
        )
    }

    /// Relies on DoublePriorityQueue::is_empty: it reports whether nothing
    /// is queued.
    #[verifier::external_body]
    pub(crate) fn is_empty(&self) -> (r: bool)
        ensures
            r == (queue_contents(self.queue) == empty_contents()),
    {
        self.queue.is_empty()
    }
}

} // verus!
