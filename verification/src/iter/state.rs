use crate::coord::Coord;
use crate::types::NdRange;
use vstd::arithmetic::div_mod::{
    lemma_fundamental_div_mod, lemma_fundamental_div_mod_converse, lemma_small_mod,
};
use vstd::prelude::*;

verus! {

/// The engine behind every traversal of an [`NdRange`]: a run of
/// consecutive positions of the range, held by its two ends.
///
/// `head` is the next position to yield forward, `tail` marks the position
/// after the last one (the next backward step yields the one before it), and
/// `len` counts the positions in between.
#[derive(Debug)]
pub struct IterState<const N: usize> {
    pub range: NdRange<N>,
    pub head: Coord<N>,
    pub tail: Coord<N>,
    pub len: usize,
}

impl<const N: usize> Clone for IterState<N> {
    fn clone(&self) -> (r: Self)
        ensures
            r == *self,
    {
        IterState { range: self.range, head: self.head, tail: self.tail, len: self.len }
    }
}

impl<const N: usize> View for IterState<N> {
    type V = Seq<Seq<usize>>;

    /// The positions still to be yielded, in forward order.
    open spec fn view(&self) -> Seq<Seq<usize>> {
        Seq::new(self.len as nat, |k: int| self.range.position(self.front() + k))
    }
}

proof fn lemma_carry_step(d: int, c: int, e: int, v: int, m: int, q: int, h: int, t: int)
    by (nonlinear_arith)
    requires
        d + c == q * e + m,
        h == c * v + t,
    ensures
        d * v + h == q * (e * v) + (m * v + t),
{
}

proof fn lemma_carry_bound(d: int, c: int, v: int, t: int, total: int)
    by (nonlinear_arith)
    requires
        d >= 0,
        c >= 0,
        v >= 1,
        t >= 0,
        d * v + c * v + t <= total,
    ensures
        d + c <= total,
{
}

impl<const N: usize> IterState<N> {
    /// The rank of `head` in the range.
    pub open spec fn front(&self) -> int {
        self.range.index_of(self.head@)
    }

    /// The rank that `tail` stands for: one past the last remaining
    /// position.
    pub open spec fn back(&self) -> int {
        self.front() + self.len
    }

    /// The state describes a run of `len` positions of its range: the range
    /// is well-formed and its length fits in `usize`; `head` is a position of
    /// the range, unless the range is empty; and while positions remain, they
    /// end at or before the end of the range, and `tail` marks the rank after
    /// the last of them.
    pub open spec fn wf(&self) -> bool {
        &&& self.range.wf()
        &&& self.range.spec_len() <= usize::MAX
        &&& self.range.spec_len() > 0 ==> self.range.contains(self.head@)
        &&& self.len > 0 ==> {
            &&& self.range.spec_len() > 0
            &&& self.back() <= self.range.spec_len()
            &&& self.range.marks(self.tail@, self.back())
        }
    }

    /// The position `index` steps forward from `head`, wrapping around to
    /// the first position of the range after the last one.
    pub fn at(&self, index: usize) -> (mid: Coord<N>)
        requires
            self.wf(),
            self.range.spec_len() > 0,
            index <= self.len,
        ensures
            mid@ == self.range.position((self.front() + index) % self.range.spec_len()),
            index < self.len ==> mid@ == self@[index as int],
    {
        let ghost steps = index as int;
        let ghost total = self.range.spec_len();
        proof {
            self.range.lemma_index_of_bounds(self.head@);
        }
        let mut mid = self.head;
        let mut index = index;
        let mut i: usize = N;
        while i > 0
            invariant
                i <= N,
                self.range.nonempty(),
                self.range.wf(),
                self.range.contains(self.head@),
                total == self.range.spec_len(),
                total <= usize::MAX,
                self.front() + steps <= total,
                forall|j: int| i <= j < N ==> self.range.start@[j] <= #[trigger] mid@[j]
                    < self.range.end@[j],
                forall|j: int| 0 <= j < i ==> mid@[j] == self.head@[j],
                self.range.offset_from(self.head@, i as int) + steps == index
                    * self.range.volume(i as int) + self.range.offset_from(mid@, i as int),
            decreases i,
        {
            i -= 1;
            let ghost before = mid@;
            let ghost carry = index as int;
            assert(self.range.start@[i as int] <= self.head@[i as int] < self.range.end@[i as int]);
            let size = self.range.end.axes[i] - self.range.start.axes[i];
            proof {
                self.range.lemma_volume_positive(i as int + 1);
                self.range.lemma_offset_bounds(before, i as int + 1);
                self.range.lemma_offset_grows(self.head@, 0, i as int);
                lemma_carry_bound(
                    self.head@[i as int] - self.range.start@[i as int],
                    carry,
                    self.range.volume(i as int + 1),
                    self.range.offset_from(before, i as int + 1),
                    total,
                );
            }
            let offset = self.head.axes[i] - self.range.start.axes[i] + index;
            mid.axes[i] = (offset % size) + self.range.start.axes[i];
            index = offset / size;
            proof {
                self.range.lemma_offset_agree(mid@, before, i as int + 1);
                lemma_fundamental_div_mod(offset as int, size as int);
                assert(size * (offset / size) == (offset / size) * size) by (nonlinear_arith);
                lemma_carry_step(
                    self.head@[i as int] - self.range.start@[i as int],
                    carry,
                    size as int,
                    self.range.volume(i as int + 1),
                    (offset % size) as int,
                    (offset / size) as int,
                    self.range.offset_from(self.head@, i as int + 1) + steps,
                    self.range.offset_from(before, i as int + 1),
                );
            }
        }
        proof {
            assert(self.range.contains(mid@));
            self.range.lemma_index_of_bounds(mid@);
            lemma_fundamental_div_mod_converse(
                self.front() + steps,
                total,
                index as int,
                self.range.index_of(mid@),
            );
            self.range.lemma_position_of_index(mid@);
            if steps < self.len {
                lemma_small_mod((self.front() + steps) as nat, total as nat);
            }
        }
        mid
    }

    /// Cuts the run after its first `index` positions: the left part keeps
    /// `head` and ends where the right part begins.
    pub fn split_at(self, index: usize) -> (parts: (Self, Self))
        requires
            self.wf(),
            self.range.spec_len() > 0,
            index <= self.len,
        ensures
            parts.0.range == self.range,
            parts.0.head == self.head,
            parts.0.tail@ == self.range.position(
                (self.front() + index) % self.range.spec_len(),
            ),
            parts.0.len == index,
            parts.1.range == self.range,
            parts.1.head == parts.0.tail,
            parts.1.tail == self.tail,
            parts.1.len == self.len - index,
            parts.0.wf(),
            parts.1.wf(),
            parts.0@ == self@.take(index as int),
            parts.1@ == self@.skip(index as int),
            parts.0@ + parts.1@ == self@,
    {
        let mid = self.at(index);
        let left = IterState { range: self.range, head: self.head, tail: mid, len: index };
        let right = IterState {
            range: self.range,
            head: mid,
            tail: self.tail,
            len: self.len - index,
        };
        proof {
            let total = self.range.spec_len();
            let cut = (self.front() + index) % total;
            self.range.lemma_index_of_bounds(self.head@);
            self.range.lemma_index_of_position(cut);
            if index < self.len {
                lemma_small_mod((self.front() + index) as nat, total as nat);
            }
            assert(left@ =~= self@.take(index as int));
            assert(right@ =~= self@.skip(index as int));
            assert(left@ + right@ =~= self@);
        }
        (left, right)
    }

    /// Moves `head` one position forward: the last axis advances, and an
    /// axis that reaches its end goes back to its start and carries into the
    /// axis before it.
    pub fn increment(&mut self)
        requires
            old(self).wf(),
            old(self).len > 0,
        ensures
            final(self).wf(),
            final(self).range == old(self).range,
            final(self).tail == old(self).tail,
            final(self).len == old(self).len - 1,
            final(self).head@ == old(self).range.position(
                (old(self).front() + 1) % old(self).range.spec_len(),
            ),
            final(self)@ == old(self)@.drop_first(),
    {
        let ghost start = self.head@;
        let ghost total = self.range.spec_len();
        proof {
            self.range.lemma_index_of_bounds(start);
        }
        proof {
            if N == 0 {
                self.range.lemma_offset_highest(start, 0);
                lemma_fundamental_div_mod_converse(total, total, 1, 0);
            }
        }
        let mut i: usize = N;
        while i > 0
            invariant_except_break
                forall|j: int| i <= j < N ==> #[trigger] start[j] + 1 == self.range.end@[j],
                forall|j: int| i <= j < N ==> #[trigger] self.head@[j] == self.range.start@[j],
                forall|j: int| 0 <= j < i ==> self.head@[j] == start[j],
                i == 0 ==> self.range.contains(self.head@) && self.range.index_of(self.head@) == (
                self.range.index_of(start) + 1) % total,
            invariant
                i <= N,
                self.range == old(self).range,
                self.tail == old(self).tail,
                self.len == old(self).len,
                start == old(self).head@,
                total == self.range.spec_len(),
                total > 0,
                self.range.nonempty(),
                self.range.contains(start),
            ensures
                self.range.contains(self.head@),
                self.range.index_of(self.head@) == (self.range.index_of(start) + 1) % total,
            decreases i,
        {
            i -= 1;
            assert(self.range.start@[i as int] <= start[i as int] < self.range.end@[i as int]);
            let c = self.head.axes[i] + 1;
            if c < self.range.end.axes[i] {
                self.head.axes[i] = c;
                proof {
                    let next = self.head@;
                    assert forall|j: int| 0 <= j < N implies self.range.start@[j]
                        <= #[trigger] next[j] < self.range.end@[j] by {
                        assert(self.range.start@[j] <= start[j] < self.range.end@[j]);
                    }
                    self.range.lemma_offset_highest(start, i as int + 1);
                    self.range.lemma_offset_lowest(next, i as int + 1);
                    self.range.lemma_offset_prefix(next, start, 0, i as int);
                    let d = start[i as int] - self.range.start@[i as int];
                    let v = self.range.volume(i as int + 1);
                    assert((d + 1) * v == d * v + v) by (nonlinear_arith);
                    self.range.lemma_index_of_bounds(next);
                    lemma_small_mod((self.range.index_of(start) + 1) as nat, total as nat);
                }
                break;
            }
            self.head.axes[i] = self.range.start.axes[i];
            proof {
                if i == 0 {
                    let next = self.head@;
                    assert forall|j: int| 0 <= j < N implies self.range.start@[j]
                        <= #[trigger] next[j] < self.range.end@[j] by {
                        assert(self.range.start@[j] < self.range.end@[j]);
                    }
                    self.range.lemma_offset_highest(start, 0);
                    self.range.lemma_offset_lowest(next, 0);
                    lemma_fundamental_div_mod_converse(total, total, 1, 0);
                }
            }
        }
        self.len -= 1;
        proof {
            self.range.lemma_position_of_index(self.head@);
            if self.len > 0 {
                lemma_small_mod((old(self).front() + 1) as nat, total as nat);
            }
            assert(self@ =~= old(self)@.drop_first());
        }
    }

    /// Moves `tail` one position backward: the last axis retreats, and an
    /// axis already at its start goes to its last value and borrows from the
    /// axis before it.
    pub fn increment_back(&mut self)
        requires
            old(self).wf(),
            old(self).len > 0,
        ensures
            final(self).wf(),
            final(self).range == old(self).range,
            final(self).head == old(self).head,
            final(self).len == old(self).len - 1,
            final(self).tail@ == old(self).range.position(old(self).back() - 1),
            final(self)@ == old(self)@.drop_last(),
    {
        let ghost mark = self.tail@;
        let ghost total = self.range.spec_len();
        let ghost back = self.back();
        proof {
            self.range.lemma_index_of_bounds(self.head@);
            if self.range.contains(mark) {
                self.range.lemma_index_of_bounds(mark);
                if back < total {
                    lemma_small_mod(back as nat, total as nat);
                } else {
                    lemma_fundamental_div_mod_converse(total, total, 1, 0);
                }
            }
            if N == 0 {
                self.range.lemma_offset_highest(mark, 0);
                self.range.lemma_offset_lowest(mark, 0);
            }
        }
        let mut i: usize = N;
        while i > 0
            invariant_except_break
                forall|j: int| i <= j < N ==> #[trigger] mark[j] == self.range.start@[j],
                forall|j: int| i <= j < N ==> #[trigger] self.tail@[j] + 1 == self.range.end@[j],
                forall|j: int| 0 <= j < i ==> self.tail@[j] == mark[j],
                i == 0 ==> self.range.contains(self.tail@) && self.range.index_of(self.tail@)
                    == back - 1,
            invariant
                i <= N,
                self.range == old(self).range,
                self.head == old(self).head,
                self.len == old(self).len,
                mark == old(self).tail@,
                total == self.range.spec_len(),
                back == old(self).back(),
                0 < back <= total,
                self.range.nonempty(),
                self.range.marks(mark, back),
                self.range.contains(mark) ==> self.range.index_of(mark) == (if back < total {
                    back
                } else {
                    0
                }),
            ensures
                self.range.contains(self.tail@),
                self.range.index_of(self.tail@) == back - 1,
            decreases i,
        {
            i -= 1;
            assert(self.range.start@[i as int] < self.range.end@[i as int]);
            if self.tail.axes[i] > self.range.start.axes[i] {
                self.tail.axes[i] = self.tail.axes[i] - 1;
                proof {
                    let prev = self.tail@;
                    if i > 0 {
                        assert(self.range.end_marker()[i as int] == self.range.start@[i as int]);
                        assert(self.range.contains(mark));
                    }
                    assert forall|j: int| 0 <= j < N implies self.range.start@[j]
                        <= #[trigger] prev[j] < self.range.end@[j] by {
                        assert(self.range.start@[j] < self.range.end@[j]);
                        if j < i {
                            assert(self.range.start@[j] <= mark[j] < self.range.end@[j]);
                        }
                        if j == i {
                            assert(mark[j] <= self.range.end@[j]);
                        }
                    }
                    self.range.lemma_offset_lowest(mark, i as int + 1);
                    self.range.lemma_offset_highest(prev, i as int + 1);
                    self.range.lemma_offset_prefix(prev, mark, 0, i as int);
                    let d = mark[i as int] - self.range.start@[i as int];
                    let v = self.range.volume(i as int + 1);
                    assert((d - 1) * v + (v - 1) == d * v - 1) by (nonlinear_arith);
                    self.range.lemma_index_of_bounds(prev);
                    if !self.range.contains(mark) {
                        self.range.lemma_offset_highest(prev, 0);
                    }
                }
                break;
            }
            self.tail.axes[i] = self.range.end.axes[i] - 1;
            proof {
                if i == 0 {
                    let prev = self.tail@;
                    assert forall|j: int| 0 <= j < N implies self.range.start@[j]
                        <= #[trigger] prev[j] < self.range.end@[j] by {
                        assert(self.range.start@[j] < self.range.end@[j]);
                        assert(prev[j] + 1 == self.range.end@[j]);
                    }
                    self.range.lemma_offset_highest(prev, 0);
                    self.range.lemma_offset_lowest(mark, 0);
                }
            }
        }
        self.len -= 1;
        proof {
            self.range.lemma_position_of_index(self.tail@);
            if self.len > 0 {
                lemma_small_mod((back - 1) as nat, total as nat);
            }
            assert(self@ =~= old(self)@.drop_last());
        }
    }

    /// The state that covers the whole of `range`: `head` at its first
    /// position, `tail` at its end marker.
    pub fn from_range(range: NdRange<N>) -> (state: Self)
        requires
            N > 0,
            range.wf(),
            range.spec_len() <= usize::MAX,
        ensures
            state.wf(),
            state.range == range,
            state.head == range.start,
            state.tail@ == range.end_marker(),
            state.len == range.spec_len(),
            state@ == range.positions(),
    {
        let mut tail = range.start;
        tail.axes[0] = range.end.axes[0];
        let state = IterState { head: range.start, tail, len: range.len(), range };
        proof {
            range.lemma_nonempty_iff_positive_len();
            range.lemma_offset_lowest(range.start@, 0);
            if range.spec_len() > 0 {
                assert forall|i: int| 0 <= i < N implies range.start@[i]
                    <= #[trigger] range.start@[i] < range.end@[i] by {
                    assert(range.start@[i] < range.end@[i]);
                }
            }
            assert(state@ =~= range.positions());
        }
        state
    }
}

} // verus!
