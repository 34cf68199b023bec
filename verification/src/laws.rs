//! What holds of every traversal: a range is enumerated exactly once,
//! forward and backward stepping mirror each other in any interleaving, and
//! splitting, however often, keeps the order.
//!
//! The laws speak of a run of positions by its view, the sequence that the
//! stepping and splitting functions are specified over.

use crate::iter::state::IterState;
use crate::types::NdRange;
use vstd::arithmetic::div_mod::lemma_small_mod;
use vstd::prelude::*;

verus! {

/// What stepping forward until nothing is left yields from a run `v`: each
/// step hands out the first position and leaves the rest.
pub open spec fn forward_run<A>(v: Seq<A>) -> Seq<A>
    decreases v.len(),
{
    if v.len() == 0 {
        Seq::empty()
    } else {
        seq![v.first()] + forward_run(v.drop_first())
    }
}

/// What stepping backward until nothing is left yields from a run `v`: each
/// step hands out the last position and leaves the rest.
pub open spec fn backward_run<A>(v: Seq<A>) -> Seq<A>
    decreases v.len(),
{
    if v.len() == 0 {
        Seq::empty()
    } else {
        seq![v.last()] + backward_run(v.drop_last())
    }
}

/// What a run `v` yields when step `i` goes forward where `forward[i]` holds
/// and backward where it does not, for as many steps as `forward` is long.
pub open spec fn interleaved_run<A>(v: Seq<A>, forward: Seq<bool>) -> Seq<A>
    decreases forward.len(),
{
    if forward.len() == 0 || v.len() == 0 {
        Seq::empty()
    } else if forward.first() {
        seq![v.first()] + interleaved_run(v.drop_first(), forward.drop_first())
    } else {
        seq![v.last()] + interleaved_run(v.drop_last(), forward.drop_first())
    }
}

/// A pattern of recursive splitting: a piece is either traversed as it is,
/// or cut after `index` positions into two pieces with patterns of their own.
pub enum SplitPlan {
    Leaf,
    Cut { index: nat, left: Box<SplitPlan>, right: Box<SplitPlan> },
}

impl SplitPlan {
    /// Every cut of the pattern falls inside the piece that it cuts, for a
    /// run of `len` positions.
    pub open spec fn fits(self, len: nat) -> bool
        decreases self,
    {
        match self {
            SplitPlan::Leaf => true,
            SplitPlan::Cut { index, left, right } => {
                &&& index <= len
                &&& left.fits(index)
                &&& right.fits((len - index) as nat)
            },
        }
    }

    /// The forward traversals of the leaves of the pattern applied to `v`,
    /// joined from left to right.
    pub open spec fn leaves<A>(self, v: Seq<A>) -> Seq<A>
        decreases self,
    {
        match self {
            SplitPlan::Leaf => forward_run(v),
            SplitPlan::Cut { index, left, right } => left.leaves(v.take(index as int))
                + right.leaves(v.skip(index as int)),
        }
    }
}

/// Stepping forward to exhaustion yields the run itself.
pub proof fn lemma_forward_run<A>(v: Seq<A>)
    ensures
        forward_run(v) == v,
    decreases v.len(),
{
    if v.len() > 0 {
        lemma_forward_run(v.drop_first());
        assert(seq![v.first()] + v.drop_first() =~= v);
    }
}

/// Stepping backward to exhaustion yields the run from its last position to
/// its first.
pub proof fn lemma_backward_run<A>(v: Seq<A>)
    ensures
        backward_run(v) == v.reverse(),
    decreases v.len(),
{
    if v.len() > 0 {
        lemma_backward_run(v.drop_last());
        assert(seq![v.last()] + v.drop_last().reverse() =~= v.reverse());
    } else {
        assert(v.reverse() =~= Seq::<A>::empty());
    }
}

/// Any interleaving of as many steps as the run is long yields every
/// position of the run exactly as often as the run holds it.
pub proof fn lemma_interleaved_run<A>(v: Seq<A>, forward: Seq<bool>)
    requires
        forward.len() == v.len(),
    ensures
        interleaved_run(v, forward).len() == v.len(),
        interleaved_run(v, forward).to_multiset() == v.to_multiset(),
    decreases forward.len(),
{
    broadcast use vstd::seq_lib::group_to_multiset_ensures;

    if v.len() > 0 {
        let rest = if forward.first() {
            v.drop_first()
        } else {
            v.drop_last()
        };
        let x = if forward.first() {
            v.first()
        } else {
            v.last()
        };
        lemma_interleaved_run(rest, forward.drop_first());
        let tail = interleaved_run(rest, forward.drop_first());
        assert(interleaved_run(v, forward) == seq![x] + tail);
        assert(seq![x] + tail =~= tail.insert(0, x));
        if forward.first() {
            assert(v =~= rest.insert(0, x));
        } else {
            assert(v =~= rest.push(x));
        }
        assert(interleaved_run(v, forward).to_multiset() =~= v.to_multiset());
    } else {
        assert(interleaved_run(v, forward) =~= v);
    }
}

impl<const N: usize> NdRange<N> {
    /// A range whose axis `j` holds no value has length zero.
    pub proof fn lemma_len_zero(&self, j: int)
        requires
            0 <= j < N,
            self.start@[j] == self.end@[j],
        ensures
            self.spec_len() == 0,
    {
        self.lemma_volume_zero(0, j);
    }

    /// Row-major order, the last axis varying fastest: of two positions of
    /// the box that agree before axis `i`, the one with the smaller value on
    /// axis `i` comes first.
    pub proof fn lemma_order_row_major(&self, p: Seq<usize>, q: Seq<usize>, i: int)
        requires
            self.contains(p),
            self.contains(q),
            0 <= i < N,
            forall|j: int| 0 <= j < i ==> p[j] == q[j],
            p[i] < q[i],
        ensures
            self.index_of(p) < self.index_of(q),
    {
        self.lemma_offset_prefix(p, q, 0, i);
        self.lemma_offset_bounds(p, i + 1);
        self.lemma_offset_bounds(q, i + 1);
        assert(self.start@[i] <= p[i] < self.end@[i]);
        assert(self.start@[i] <= q[i] < self.end@[i]);
        let v = self.volume(i + 1);
        let dp = p[i] - self.start@[i];
        let dq = q[i] - self.start@[i];
        assert((dp + 1) * v <= dq * v && (dp + 1) * v == dp * v + v) by (nonlinear_arith)
            requires
                dp + 1 <= dq,
                v >= 0,
        ;
    }

    /// The positions of a range in row-major order are as many as its
    /// length, differ from one another, lie inside the box on every axis, and
    /// leave out no position of the box.
    pub proof fn lemma_positions_enumerate(&self)
        requires
            self.wf(),
        ensures
            self.positions().len() == self.spec_len(),
            self.positions().no_duplicates(),
            forall|p: Seq<usize>| self.positions().contains(p) <==> self.contains(p),
    {
        self.lemma_volume_nonnegative(0);
        self.lemma_nonempty_iff_positive_len();
        let all = self.positions();
        assert forall|j: int, k: int| 0 <= j < all.len() && 0 <= k < all.len() && j != k implies all[j]
            != all[k] by {
            if all[j] == all[k] {
                self.lemma_position_injective(j, k);
            }
        }
        assert forall|p: Seq<usize>| all.contains(p) <==> self.contains(p) by {
            if all.contains(p) {
                let k = choose|k: int| 0 <= k < all.len() && all[k] == p;
                self.lemma_index_of_position(k);
            }
            if self.contains(p) {
                self.lemma_index_of_bounds(p);
                self.lemma_position_of_index(p);
                assert(all[self.index_of(p)] == p);
            }
        }
    }
}

impl<const N: usize> IterState<N> {
    /// The positions of a run are consecutive positions of its range: they
    /// differ from one another and lie inside the box.
    pub proof fn lemma_view_distinct(&self)
        requires
            self.wf(),
        ensures
            self@.len() == self.len,
            self@.no_duplicates(),
            forall|k: int| 0 <= k < self.len ==> self.range.contains(#[trigger] self@[k]),
            forall|k: int|
                0 <= k < self.len ==> self.range.index_of(#[trigger] self@[k]) == self.front() + k,
    {
        let v = self@;
        if self.len > 0 {
            self.range.lemma_index_of_bounds(self.head@);
            assert forall|k: int| 0 <= k < self.len implies self.range.contains(#[trigger] v[k])
                && self.range.index_of(v[k]) == self.front() + k by {
                self.range.lemma_index_of_position(self.front() + k);
            }
            assert forall|j: int, k: int| 0 <= j < v.len() && 0 <= k < v.len() && j != k implies v[j]
                != v[k] by {
                self.range.lemma_index_of_position(self.front() + j);
                self.range.lemma_index_of_position(self.front() + k);
            }
        }
    }

    /// What forward stepping yields from a run is the reverse of what
    /// backward stepping yields from it.
    pub proof fn lemma_forward_backward_symmetry(&self)
        requires
            self.wf(),
        ensures
            forward_run(self@) == backward_run(self@).reverse(),
    {
        lemma_forward_run(self@);
        lemma_backward_run(self@);
        assert(self@.reverse().reverse() =~= self@);
    }

    /// However forward and backward steps are mixed, as many steps as the
    /// run is long yield that many positions, none of them twice, and together
    /// exactly the positions of the run.
    pub proof fn lemma_interleaving_consistent(&self, forward: Seq<bool>)
        requires
            self.wf(),
            forward.len() == self.len,
        ensures
            interleaved_run(self@, forward).len() == self.len,
            interleaved_run(self@, forward).no_duplicates(),
            forall|p: Seq<usize>|
                interleaved_run(self@, forward).contains(p) <==> self@.contains(p),
    {
        broadcast use vstd::seq_lib::group_to_multiset_ensures;

        let v = self@;
        let y = interleaved_run(v, forward);
        self.lemma_view_distinct();
        lemma_interleaved_run(v, forward);
        v.lemma_multiset_has_no_duplicates();
        assert forall|p: Seq<usize>| y.contains(p) <==> v.contains(p) by {
            assert(y.to_multiset().count(p) == v.to_multiset().count(p));
        }
        y.lemma_multiset_has_no_duplicates_conv();
    }

    /// From the state that covers a range, any mix of forward and backward
    /// steps, as many as the range is long, yields exactly the positions of
    /// the box, each once.
    pub proof fn lemma_interleaving_covers_range(&self, forward: Seq<bool>)
        requires
            self.wf(),
            self@ == self.range.positions(),
            forward.len() == self.len,
        ensures
            interleaved_run(self@, forward).len() == self.range.spec_len(),
            interleaved_run(self@, forward).no_duplicates(),
            forall|p: Seq<usize>|
                interleaved_run(self@, forward).contains(p) <==> self.range.contains(p),
    {
        self.lemma_interleaving_consistent(forward);
        self.range.lemma_positions_enumerate();
    }

    /// The forward traversal of the first `index` positions of a run,
    /// followed by that of the rest, is the forward traversal of the run.
    pub proof fn lemma_split_fidelity(&self, index: int)
        requires
            self.wf(),
            0 <= index <= self.len,
        ensures
            forward_run(self@.take(index)) + forward_run(self@.skip(index)) == forward_run(
                self@,
            ),
    {
        lemma_forward_run(self@);
        lemma_forward_run(self@.take(index));
        lemma_forward_run(self@.skip(index));
        assert(self@.take(index) + self@.skip(index) =~= self@);
    }

    /// Whatever the pattern of cuts, the forward traversals of the resulting
    /// pieces, joined from left to right, are the forward traversal of the
    /// run.
    pub proof fn lemma_recursive_split_fidelity(&self, plan: SplitPlan)
        requires
            self.wf(),
            plan.fits(self.len as nat),
        ensures
            plan.leaves(self@) == forward_run(self@),
    {
        lemma_leaves(plan, self@);
        lemma_forward_run(self@);
    }

    /// The position `index` steps ahead of `head` is the one that forward
    /// stepping yields after `index` earlier steps.
    pub proof fn lemma_at_matches_forward(&self, index: int)
        requires
            self.wf(),
            0 <= index < self.len,
        ensures
            self.range.position((self.front() + index) % self.range.spec_len()) == forward_run(
                self@,
            )[index],
    {
        lemma_forward_run(self@);
        self.range.lemma_index_of_bounds(self.head@);
        lemma_small_mod((self.front() + index) as nat, self.range.spec_len() as nat);
    }
}

/// The leaves of any fitting pattern of cuts, joined from left to right,
/// are the run that was cut.
pub proof fn lemma_leaves<A>(plan: SplitPlan, v: Seq<A>)
    requires
        plan.fits(v.len()),
    ensures
        plan.leaves(v) == v,
    decreases plan,
{
    match plan {
        SplitPlan::Leaf => {
            lemma_forward_run(v);
        },
        SplitPlan::Cut { index, left, right } => {
            lemma_leaves(*left, v.take(index as int));
            lemma_leaves(*right, v.skip(index as int));
            assert(v.take(index as int) + v.skip(index as int) =~= v);
        },
    }
}

} // verus!
