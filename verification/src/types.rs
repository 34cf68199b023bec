use crate::coord::{product_from, Coord};
use vstd::prelude::*;

verus! {

/// A half-open box of positions: on every axis `i`, the values from
/// `start[i]` up to but not including `end[i]`.
///
/// Positions are ordered row-major, the last axis varying fastest.
#[derive(Clone, Copy, Debug, PartialEq, Eq)]
pub struct NdRange<const N: usize> {
    /// The first position of the range.
    pub start: Coord<N>,
    /// The end value (not included) on each axis.
    pub end: Coord<N>,
}

pub type Range1 = NdRange<1>;

pub type Range2 = NdRange<2>;

pub type Range3 = NdRange<3>;

pub type Range4 = NdRange<4>;

pub type Range5 = NdRange<5>;

impl<const N: usize> NdRange<N> {
    /// On no axis does `start` lie beyond `end`.
    pub open spec fn wf(&self) -> bool {
        self.start.spec_le(&self.end)
    }

    /// The number of values on axis `i`.
    pub open spec fn extent(&self, i: int) -> int {
        self.end@[i] - self.start@[i]
    }

    /// The number of positions spanned by the axes from `i` to the last:
    /// the product of their extents. `volume(i + 1)` is the stride of axis
    /// `i` in row-major order.
    pub open spec fn volume(&self, i: int) -> int
        decreases N - i,
    {
        if i < 0 || i >= N {
            1
        } else {
            self.extent(i) * self.volume(i + 1)
        }
    }

    /// The number of positions in the range.
    pub open spec fn spec_len(&self) -> int {
        self.volume(0)
    }

    /// Whether `p` lies in the box on every axis.
    pub open spec fn contains(&self, p: Seq<usize>) -> bool {
        &&& p.len() == N
        &&& forall|i: int| 0 <= i < N ==> self.start@[i] <= #[trigger] p[i] < self.end@[i]
    }

    /// The row-major rank of the axes of `p` from `i` to the last, within
    /// the sub-box that those axes span.
    pub open spec fn offset_from(&self, p: Seq<usize>, i: int) -> int
        decreases N - i,
    {
        if i < 0 || i >= N {
            0
        } else {
            (p[i] - self.start@[i]) * self.volume(i + 1) + self.offset_from(p, i + 1)
        }
    }

    /// The row-major rank of `p`: how many positions of the range come
    /// before it.
    pub open spec fn index_of(&self, p: Seq<usize>) -> int {
        self.offset_from(p, 0)
    }

    /// The position of row-major rank `k`.
    pub open spec fn position(&self, k: int) -> Seq<usize> {
        Seq::new(
            N as nat,
            |i: int| (self.start@[i] + (k / self.volume(i + 1)) % self.extent(i)) as usize,
        )
    }

    /// Every position of the range, in row-major order.
    pub open spec fn positions(&self) -> Seq<Seq<usize>> {
        Seq::new(self.spec_len() as nat, |k: int| self.position(k))
    }

    /// The one-past-the-end marker: `start` with the first axis moved to
    /// its end bound.
    pub open spec fn end_marker(&self) -> Seq<usize> {
        self.start@.update(0, self.end@[0])
    }

    /// Whether `p` can mark rank `k` as the far end of a run of positions:
    /// it is the position of that rank, with the length wrapping around to
    /// the first position, or it is the end marker and `k` is the length.
    pub open spec fn marks(&self, p: Seq<usize>, k: int) -> bool {
        ||| self.contains(p) && self.index_of(p) == k % self.spec_len()
        ||| k == self.spec_len() && p == self.end_marker()
    }

    /// The volume from axis `i` is the trailing product of the per-axis
    /// extents.
    pub proof fn lemma_volume_is_product(&self, d: Seq<usize>, i: int)
        requires
            0 <= i,
            d.len() == N,
            forall|j: int| 0 <= j < N ==> d[j] == self.extent(j),
        ensures
            self.volume(i) == product_from(d, i),
        decreases N - i,
    {
        if i < N {
            self.lemma_volume_is_product(d, i + 1);
        }
    }

    /// Create a new `NdRange`.
    pub fn new(start: Coord<N>, end: Coord<N>) -> (r: Self)
        ensures
            r.start == start,
            r.end == end,
    {
        NdRange { start, end }
    }

    /// Get the number of elements.
    pub fn len(&self) -> (n: usize)
        requires
            self.wf(),
            self.spec_len() <= usize::MAX,
        ensures
            n == self.spec_len(),
    {
        let d = self.end.sub(&self.start);
        proof {
            self.lemma_volume_is_product(d@, 0);
        }
        d.size()
    }

    /// The number of elements, or `None` where `start` lies beyond `end` on
    /// some axis or the number does not fit in `usize`.
    pub fn checked_len(&self) -> (r: Option<usize>)
        ensures
            match r {
                Some(n) => self.wf() && n == self.spec_len(),
                None => !self.wf() || self.spec_len() > usize::MAX,
            },
    {
        if !self.start.le(&self.end) {
            return None;
        }
        let d = self.end.sub(&self.start);
        proof {
            self.lemma_volume_is_product(d@, 0);
        }
        d.checked_size()
    }
}

} // verus!
