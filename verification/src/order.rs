//! Facts about the row-major order of an [`NdRange`]: ranks and positions
//! are inverse to each other, so the order enumerates the box exactly once.

use crate::types::NdRange;
use vstd::arithmetic::div_mod::{
    lemma_fundamental_div_mod_converse, lemma_mod_breakdown, lemma_mod_mod, lemma_small_mod,
};
use vstd::prelude::*;

verus! {

proof fn lemma_mul_at_least(a: int, b: int)
    by (nonlinear_arith)
    requires
        a >= 1,
        b >= 1,
    ensures
        a * b >= 1,
{
}

proof fn lemma_mul_sign(a: int, b: int)
    by (nonlinear_arith)
    requires
        a >= 0,
        b >= 0,
    ensures
        a * b >= 0,
        (a * b > 0) <==> (a > 0 && b > 0),
{
}

/// A digit `d` below radix `e` in front of a remainder `o` below `v` stays
/// below `e * v`.
proof fn lemma_digit_bound(d: int, e: int, o: int, v: int)
    by (nonlinear_arith)
    requires
        0 <= d < e,
        0 <= o < v,
    ensures
        0 <= d * v + o < e * v,
{
}

proof fn lemma_mul_cancel(a: int, b: int, v: int)
    by (nonlinear_arith)
    requires
        v > 0,
        v * a == b * v,
    ensures
        a == b,
{
}

impl<const N: usize> NdRange<N> {
    /// Every axis holds at least one value.
    pub open spec fn nonempty(&self) -> bool {
        forall|i: int| 0 <= i < N ==> self.start@[i] < #[trigger] self.end@[i]
    }

    /// The volume of a well-formed range is never negative.
    pub proof fn lemma_volume_nonnegative(&self, i: int)
        requires
            self.wf(),
            0 <= i,
        ensures
            self.volume(i) >= 0,
        decreases N - i,
    {
        if i < N {
            self.lemma_volume_nonnegative(i + 1);
            assert(self.start@[i] <= self.end@[i]);
            lemma_mul_sign(self.extent(i), self.volume(i + 1));
        }
    }

    /// A range with an axis that holds no value has no position.
    pub proof fn lemma_volume_zero(&self, i: int, j: int)
        requires
            0 <= i <= j < N,
            self.extent(j) == 0,
        ensures
            self.volume(i) == 0,
        decreases j - i,
    {
        if i < j {
            self.lemma_volume_zero(i + 1, j);
        }
        let e = self.extent(i);
        let v = self.volume(i + 1);
        assert(e * v == 0) by (nonlinear_arith)
            requires
                e == 0 || v == 0,
        ;
    }

    /// In a range without an empty axis every volume is at least one.
    pub proof fn lemma_volume_positive(&self, i: int)
        requires
            self.nonempty(),
            0 <= i,
        ensures
            self.volume(i) >= 1,
        decreases N - i,
    {
        if i < N {
            self.lemma_volume_positive(i + 1);
            assert(self.start@[i] < self.end@[i]);
            lemma_mul_at_least(self.extent(i), self.volume(i + 1));
        }
    }

    /// A well-formed range holds a position exactly when no axis is empty.
    pub proof fn lemma_nonempty_iff_positive_len(&self)
        requires
            self.wf(),
        ensures
            self.nonempty() <==> self.spec_len() > 0,
    {
        if self.nonempty() {
            self.lemma_volume_positive(0);
        } else {
            let j = choose|j: int| 0 <= j < N && !(self.start@[j] < #[trigger] self.end@[j]);
            assert(self.start@[j] <= self.end@[j]);
            self.lemma_volume_zero(0, j);
        }
    }

    /// The rank of the trailing axes depends on those axes alone.
    pub proof fn lemma_offset_agree(&self, p: Seq<usize>, q: Seq<usize>, i: int)
        requires
            0 <= i,
            forall|j: int| i <= j < N ==> p[j] == q[j],
        ensures
            self.offset_from(p, i) == self.offset_from(q, i),
        decreases N - i,
    {
        if i < N {
            self.lemma_offset_agree(p, q, i + 1);
        }
    }

    /// What the leading axes add to the rank depends on those axes alone.
    pub proof fn lemma_offset_prefix(&self, p: Seq<usize>, q: Seq<usize>, a: int, i: int)
        requires
            0 <= a <= i <= N,
            forall|j: int| a <= j < i ==> p[j] == q[j],
        ensures
            self.offset_from(p, a) - self.offset_from(p, i) == self.offset_from(q, a)
                - self.offset_from(q, i),
        decreases i - a,
    {
        if a < i {
            self.lemma_offset_prefix(p, q, a + 1, i);
        }
    }

    /// With every trailing axis inside the box, their rank lies below their
    /// volume.
    pub proof fn lemma_offset_bounds(&self, p: Seq<usize>, i: int)
        requires
            0 <= i,
            forall|j: int| i <= j < N ==> self.start@[j] <= #[trigger] p[j] < self.end@[j],
        ensures
            0 <= self.offset_from(p, i) < self.volume(i),
        decreases N - i,
    {
        if i < N {
            self.lemma_offset_bounds(p, i + 1);
            assert(self.start@[i] <= p[i] < self.end@[i]);
            lemma_digit_bound(
                p[i] - self.start@[i],
                self.extent(i),
                self.offset_from(p, i + 1),
                self.volume(i + 1),
            );
        }
    }

    /// With no axis before its start, the rank from an earlier axis is at
    /// least the rank from a later one.
    pub proof fn lemma_offset_grows(&self, p: Seq<usize>, a: int, i: int)
        requires
            self.wf(),
            0 <= a <= i,
            forall|j: int| 0 <= j < N ==> self.start@[j] <= #[trigger] p[j],
        ensures
            0 <= self.offset_from(p, i) <= self.offset_from(p, a),
        decreases i - a,
    {
        if a < i {
            self.lemma_offset_grows(p, a + 1, i);
            if a < N {
                self.lemma_volume_nonnegative(a + 1);
                assert(self.start@[a] <= p[a]);
                lemma_mul_sign(p[a] - self.start@[a], self.volume(a + 1));
            }
        } else {
            self.lemma_offset_nonnegative(p, i);
        }
    }

    proof fn lemma_offset_nonnegative(&self, p: Seq<usize>, i: int)
        requires
            self.wf(),
            0 <= i,
            forall|j: int| 0 <= j < N ==> self.start@[j] <= #[trigger] p[j],
        ensures
            0 <= self.offset_from(p, i),
        decreases N - i,
    {
        if i < N {
            self.lemma_offset_nonnegative(p, i + 1);
            self.lemma_volume_nonnegative(i + 1);
            assert(self.start@[i] <= p[i]);
            lemma_mul_sign(p[i] - self.start@[i], self.volume(i + 1));
        }
    }

    /// Trailing axes that all sit at their start have rank zero.
    pub proof fn lemma_offset_lowest(&self, p: Seq<usize>, i: int)
        requires
            0 <= i,
            forall|j: int| i <= j < N ==> #[trigger] p[j] == self.start@[j],
        ensures
            self.offset_from(p, i) == 0,
        decreases N - i,
    {
        if i < N {
            self.lemma_offset_lowest(p, i + 1);
            assert(p[i] == self.start@[i]);
            let v = self.volume(i + 1);
            assert(0 * v == 0) by (nonlinear_arith);
        }
    }

    /// Trailing axes that all sit at their last value have the highest rank
    /// of their sub-box.
    pub proof fn lemma_offset_highest(&self, p: Seq<usize>, i: int)
        requires
            0 <= i,
            forall|j: int| i <= j < N ==> #[trigger] p[j] + 1 == self.end@[j],
        ensures
            self.offset_from(p, i) == self.volume(i) - 1,
        decreases N - i,
    {
        if i < N {
            self.lemma_offset_highest(p, i + 1);
            assert(p[i] + 1 == self.end@[i]);
            let e = self.extent(i);
            let v = self.volume(i + 1);
            assert((e - 1) * v + (v - 1) == e * v - 1) by (nonlinear_arith);
        }
    }

    /// Every rank names a position inside the box.
    pub proof fn lemma_position_contained(&self, k: int)
        requires
            self.nonempty(),
            0 <= k,
        ensures
            self.contains(self.position(k)),
    {
        let p = self.position(k);
        assert forall|i: int| 0 <= i < N implies self.start@[i] <= #[trigger] p[i]
            < self.end@[i] by {
            assert(self.start@[i] < self.end@[i]);
            self.lemma_volume_positive(i + 1);
            let e = self.extent(i);
            let q = k / self.volume(i + 1);
            assert(0 <= q % e < e);
        }
    }

    /// The trailing axes of the position of rank `k` have rank `k` modulo
    /// their volume.
    pub proof fn lemma_position_offset(&self, k: int, i: int)
        requires
            self.nonempty(),
            0 <= k,
            0 <= i <= N,
        ensures
            self.offset_from(self.position(k), i) == k % self.volume(i),
        decreases N - i,
    {
        if i < N {
            self.lemma_position_offset(k, i + 1);
            self.lemma_volume_positive(i + 1);
            assert(self.start@[i] < self.end@[i]);
            let e = self.extent(i);
            let v = self.volume(i + 1);
            let d = (k / v) % e;
            assert(0 <= d < e);
            assert(self.position(k)[i] - self.start@[i] == d);
            lemma_mod_breakdown(k, v, e);
            assert(e * v == v * e) by (nonlinear_arith);
            assert(d * v == v * d) by (nonlinear_arith);
        }
    }

    /// The position of rank `k` has rank `k`.
    pub proof fn lemma_index_of_position(&self, k: int)
        requires
            self.nonempty(),
            0 <= k < self.spec_len(),
        ensures
            self.contains(self.position(k)),
            self.index_of(self.position(k)) == k,
    {
        self.lemma_position_contained(k);
        self.lemma_position_offset(k, 0);
        lemma_small_mod(k as nat, self.volume(0) as nat);
    }

    /// The rank of a position inside the box lies below the length.
    pub proof fn lemma_index_of_bounds(&self, p: Seq<usize>)
        requires
            self.contains(p),
        ensures
            0 <= self.index_of(p) < self.spec_len(),
            self.nonempty(),
    {
        self.lemma_offset_bounds(p, 0);
        assert forall|i: int| 0 <= i < N implies self.start@[i] < #[trigger] self.end@[i] by {
            assert(self.start@[i] <= p[i] < self.end@[i]);
        }
    }

    /// The trailing axes of a position inside the box have its rank modulo
    /// their volume.
    pub proof fn lemma_offset_residue(&self, p: Seq<usize>, i: int)
        requires
            self.contains(p),
            0 <= i <= N,
        ensures
            self.offset_from(p, i) == self.index_of(p) % self.volume(i),
        decreases i,
    {
        self.lemma_index_of_bounds(p);
        let k = self.index_of(p);
        if i == 0 {
            lemma_small_mod(k as nat, self.volume(0) as nat);
        } else {
            self.lemma_offset_residue(p, i - 1);
            self.lemma_offset_bounds(p, i);
            self.lemma_volume_positive(i);
            assert(self.start@[i - 1] <= p[i - 1] < self.end@[i - 1]);
            let e = self.extent(i - 1);
            let v = self.volume(i);
            let d = p[i - 1] - self.start@[i - 1];
            let o = self.offset_from(p, i);
            lemma_fundamental_div_mod_converse(self.offset_from(p, i - 1), v, d, o);
            lemma_mod_mod(k, v, e);
            assert(e * v == v * e) by (nonlinear_arith);
        }
    }

    /// A position inside the box is the position of its rank.
    pub proof fn lemma_position_of_index(&self, p: Seq<usize>)
        requires
            self.contains(p),
        ensures
            self.position(self.index_of(p)) == p,
    {
        self.lemma_index_of_bounds(p);
        let k = self.index_of(p);
        let q = self.position(k);
        assert forall|i: int| 0 <= i < N implies q[i] == p[i] by {
            self.lemma_offset_residue(p, i);
            self.lemma_offset_residue(p, i + 1);
            self.lemma_volume_positive(i + 1);
            assert(self.start@[i] <= p[i] < self.end@[i]);
            let e = self.extent(i);
            let v = self.volume(i + 1);
            let d = p[i] - self.start@[i];
            lemma_mod_breakdown(k, v, e);
            assert(e * v == v * e) by (nonlinear_arith);
            lemma_mul_cancel((k / v) % e, d, v);
        }
        assert(q =~= p);
    }

    /// Positions of different rank differ.
    pub proof fn lemma_position_injective(&self, j: int, k: int)
        requires
            self.nonempty(),
            0 <= j < self.spec_len(),
            0 <= k < self.spec_len(),
            self.position(j) == self.position(k),
        ensures
            j == k,
    {
        self.lemma_index_of_position(j);
        self.lemma_index_of_position(k);
    }
}

} // verus!
