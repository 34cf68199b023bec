use super::sequential::{into_iter_from_state, IntoIter};
use super::state::IterState;
use crate::types::NdRange;
use vstd::prelude::*;

verus! {

/// A run of positions that a divide-and-conquer scheduler may cut in two
/// or hand over to a sequential cursor.
pub struct IterProducer<const N: usize> {
    state: IterState<N>,
}

/// A range prepared for parallel traversal: it reports its exact length and
/// turns into a producer.
pub struct IntoParIter<const N: usize> {
    state: IterState<N>,
}

impl<const N: usize> View for IterProducer<N> {
    type V = Seq<Seq<usize>>;

    /// The positions of the run, in forward order.
    open spec fn view(&self) -> Seq<Seq<usize>> {
        self.state()@
    }
}

impl<const N: usize> View for IntoParIter<N> {
    type V = Seq<Seq<usize>>;

    /// The positions to traverse, in forward order.
    open spec fn view(&self) -> Seq<Seq<usize>> {
        self.state()@
    }
}

impl<const N: usize> IterProducer<N> {
    /// The state that the producer holds.
    pub closed spec fn state(&self) -> IterState<N> {
        self.state
    }

    /// The producer's state is well-formed.
    pub open spec fn wf(&self) -> bool {
        self.state().wf()
    }

    /// Whether the run can be cut after `index` positions: the range holds
    /// a position and `index` does not exceed the length of the run.
    pub open spec fn splittable_at(&self, index: usize) -> bool {
        self.state().range.spec_len() > 0 && index <= self@.len()
    }

    /// The exact number of positions in the run.
    pub fn len(&self) -> (n: usize)
        ensures
            n == self@.len(),
    {
        self.state.len
    }

    /// The sequential cursor over the same run.
    pub fn into_iter(self) -> (it: IntoIter<N>)
        ensures
            it.state() == self.state(),
    {
        into_iter_from_state(self.state)
    }

    /// Cuts the run after its first `index` positions into two producers
    /// that, one after the other, cover the same positions in the same order.
    pub fn split_at(self, index: usize) -> (parts: (Self, Self))
        requires
            self.wf(),
            self.splittable_at(index),
        ensures
            parts.0.wf(),
            parts.1.wf(),
            parts.0.state().range == self.state().range,
            parts.1.state().range == self.state().range,
            parts.0.state().head == self.state().head,
            parts.0.state().tail == parts.1.state().head,
            parts.1.state().tail == self.state().tail,
            parts.0@ == self@.take(index as int),
            parts.1@ == self@.skip(index as int),
            parts.0@ + parts.1@ == self@,
    {
        let (left, right) = self.state.split_at(index);
        (IterProducer { state: left }, IterProducer { state: right })
    }

    /// Cuts the run like [`IterProducer::split_at`] where that is possible,
    /// and returns `None` where it is not.
    pub fn split_at_checked(self, index: usize) -> (r: Option<(Self, Self)>)
        requires
            self.wf(),
        ensures
            r is Some <==> self.splittable_at(index),
            r matches Some(parts) ==> {
                &&& parts.0.wf()
                &&& parts.1.wf()
                &&& parts.0.state().range == self.state().range
                &&& parts.1.state().range == self.state().range
                &&& parts.0.state().head == self.state().head
                &&& parts.0.state().tail == parts.1.state().head
                &&& parts.1.state().tail == self.state().tail
                &&& parts.0@ == self@.take(index as int)
                &&& parts.1@ == self@.skip(index as int)
                &&& parts.0@ + parts.1@ == self@
            },
    {
        if index > self.state.len || self.state.range.len() == 0 {
            return None;
        }
        Some(self.split_at(index))
    }
}

impl<const N: usize> IntoParIter<N> {
    /// The state that covers the positions to traverse.
    pub closed spec fn state(&self) -> IterState<N> {
        self.state
    }

    /// The state is well-formed.
    pub open spec fn wf(&self) -> bool {
        self.state().wf()
    }

    /// The exact number of positions, which is always known.
    pub fn opt_len(&self) -> (n: Option<usize>)
        ensures
            n matches Some(k) && k == self@.len(),
    {
        Some(self.state.len)
    }

    /// An upper bound on the number of positions: the exact number.
    pub fn upper_bound(&self) -> (n: usize)
        ensures
            n == self@.len(),
    {
        self.state.len
    }

    /// The exact number of positions.
    pub fn len(&self) -> (n: usize)
        ensures
            n == self@.len(),
    {
        self.state.len
    }

    /// The producer over the same positions.
    pub fn into_producer(self) -> (p: IterProducer<N>)
        ensures
            p.state() == self.state(),
    {
        IterProducer { state: self.state }
    }
}

impl<const N: usize> NdRange<N> {
    /// Prepares the range for parallel traversal of every position.
    pub fn into_par_iter(self) -> (it: IntoParIter<N>)
        requires
            N > 0,
            self.wf(),
            self.spec_len() <= usize::MAX,
        ensures
            it.wf(),
            it.state().range == self,
            it.state().head == self.start,
            it.state().tail@ == self.end_marker(),
            it@ == self.positions(),
    {
        IntoParIter { state: IterState::from_range(self) }
    }
}

} // verus!
