use super::state::IterState;
use crate::coord::Coord;
use crate::types::NdRange;
use vstd::prelude::*;

verus! {

/// A cursor that yields the positions of a run one at a time, from either
/// end, and always knows exactly how many are left.
pub struct IntoIter<const N: usize> {
    state: IterState<N>,
}

/// The cursor over the positions that `state` describes.
pub fn into_iter_from_state<const N: usize>(state: IterState<N>) -> (it: IntoIter<N>)
    ensures
        it.state() == state,
{
    IntoIter { state: state }
}

impl<const N: usize> View for IntoIter<N> {
    type V = Seq<Seq<usize>>;

    /// The positions still to be yielded, in forward order.
    open spec fn view(&self) -> Seq<Seq<usize>> {
        self.state()@
    }
}

impl<const N: usize> NdRange<N> {
    /// The cursor over every position of the range.
    pub fn into_iter(self) -> (it: IntoIter<N>)
        requires
            N > 0,
            self.wf(),
            self.spec_len() <= usize::MAX,
        ensures
            it.wf(),
            it.state().range == self,
            it.state().head == self.start,
            it.state().tail@ == self.end_marker(),
            it@ == self.positions(),
    {
        IntoIter { state: IterState::from_range(self) }
    }
}

impl<const N: usize> IntoIter<N> {
    /// The state that the cursor steps.
    pub closed spec fn state(&self) -> IterState<N> {
        self.state
    }

    /// The cursor's state is well-formed.
    pub open spec fn wf(&self) -> bool {
        self.state().wf()
    }

    /// Yields the first remaining position, or `None` when none is left.
    pub fn next(&mut self) -> (r: Option<Coord<N>>)
        requires
            old(self).wf(),
        ensures
            final(self).wf(),
            final(self).state().range == old(self).state().range,
            final(self).state().tail == old(self).state().tail,
            match r {
                None => old(self)@.len() == 0 && final(self).state() == old(self).state(),
                Some(p) => {
                    &&& old(self)@.len() > 0
                    &&& p == old(self).state().head
                    &&& p@ == old(self)@.first()
                    &&& final(self)@ == old(self)@.drop_first()
                },
            },
    {
        if self.state.len == 0 {
            return None;
        }
        let value = self.state.head;
        proof {
            self.state.range.lemma_position_of_index(value@);
        }
        self.state.increment();
        Some(value)
    }

    /// The exact number of positions left, as both bounds.
    pub fn size_hint(&self) -> (h: (usize, Option<usize>))
        ensures
            h.0 == self@.len(),
            h.1 == Some(h.0),
    {
        let len = self.state.len;
        (len, Some(len))
    }

    /// The exact number of positions left.
    pub fn len(&self) -> (n: usize)
        ensures
            n == self@.len(),
    {
        self.state.len
    }

    /// Yields the last remaining position, or `None` when none is left.
    pub fn next_back(&mut self) -> (r: Option<Coord<N>>)
        requires
            old(self).wf(),
        ensures
            final(self).wf(),
            final(self).state().range == old(self).state().range,
            final(self).state().head == old(self).state().head,
            match r {
                None => old(self)@.len() == 0 && final(self).state() == old(self).state(),
                Some(p) => {
                    &&& old(self)@.len() > 0
                    &&& p == final(self).state().tail
                    &&& p@ == old(self)@.last()
                    &&& final(self)@ == old(self)@.drop_last()
                },
            },
    {
        if self.state.len == 0 {
            return None;
        }
        self.state.increment_back();
        Some(self.state.tail)
    }

    /// Steps forward until nothing is left and returns what was yielded, in
    /// that order.
    pub fn collect(self) -> (v: Vec<Coord<N>>)
        requires
            self.wf(),
        ensures
            v@.map_values(|p: Coord<N>| p@) == self@,
    {
        let ghost all = self@;
        let mut cursor = self;
        let mut v: Vec<Coord<N>> = Vec::new();
        loop
            invariant
                cursor.wf(),
                v@.map_values(|p: Coord<N>| p@) + cursor@ == all,
            ensures
                v@.map_values(|p: Coord<N>| p@) == all,
            decreases cursor@.len(),
        {
            let ghost before = v@.map_values(|p: Coord<N>| p@);
            let ghost rest = cursor@;
            match cursor.next() {
                Some(p) => {
                    v.push(p);
                    assert(v@.map_values(|p: Coord<N>| p@) =~= before.push(p@));
                    assert(before.push(rest.first()) + rest.drop_first() =~= before + rest);
                },
                None => {
                    assert(before + rest =~= before);
                    break;
                },
            }
        }
        v
    }

    /// Steps backward until nothing is left and returns what was yielded, in
    /// that order: the remaining positions from the last to the first.
    pub fn collect_rev(self) -> (v: Vec<Coord<N>>)
        requires
            self.wf(),
        ensures
            v@.map_values(|p: Coord<N>| p@) == self@.reverse(),
    {
        let ghost all = self@;
        let mut cursor = self;
        let mut v: Vec<Coord<N>> = Vec::new();
        loop
            invariant
                cursor.wf(),
                cursor@ + v@.map_values(|p: Coord<N>| p@).reverse() == all,
            ensures
                v@.map_values(|p: Coord<N>| p@) == all.reverse(),
            decreases cursor@.len(),
        {
            let ghost before = v@.map_values(|p: Coord<N>| p@);
            let ghost rest = cursor@;
            match cursor.next_back() {
                Some(p) => {
                    v.push(p);
                    assert(v@.map_values(|p: Coord<N>| p@) =~= before.push(p@));
                    assert(rest.drop_last() + before.push(rest.last()).reverse() =~= rest
                        + before.reverse());
                },
                None => {
                    assert(rest + before.reverse() =~= before.reverse());
                    assert(before.reverse().reverse() =~= before);
                    break;
                },
            }
        }
        v
    }
}

} // verus!
