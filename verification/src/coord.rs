use vstd::prelude::*;

verus! {

/// The product of the entries of `s` from axis `i` to the last axis.
pub open spec fn product_from(s: Seq<usize>, i: int) -> int
    decreases s.len() - i,
{
    if i < 0 || i >= s.len() {
        1
    } else {
        s[i] * product_from(s, i + 1)
    }
}

/// A trailing product that reaches a zero entry is zero.
pub proof fn lemma_product_zero(s: Seq<usize>, i: int, j: int)
    requires
        0 <= i <= j < s.len(),
        s[j] == 0,
    ensures
        product_from(s, i) == 0,
    decreases j - i,
{
    if i < j {
        lemma_product_zero(s, i + 1, j);
        let x = s[i] as int;
        let y = product_from(s, i + 1);
        assert(x * y == 0) by (nonlinear_arith)
            requires
                y == 0,
        ;
    } else {
        let x = s[i] as int;
        let y = product_from(s, i + 1);
        assert(x * y == 0) by (nonlinear_arith)
            requires
                x == 0,
        ;
    }
}

/// With no zero entry, a trailing product is at least one and shrinks as it
/// starts later.
pub proof fn lemma_product_shrinks(s: Seq<usize>, i: int, j: int)
    requires
        0 <= i <= j <= s.len(),
        forall|k: int| 0 <= k < s.len() ==> s[k] > 0,
    ensures
        1 <= product_from(s, j) <= product_from(s, i),
    decreases s.len() - i,
{
    if j < s.len() {
        lemma_product_shrinks(s, j + 1, j + 1);
        let x = s[j] as int;
        let y = product_from(s, j + 1);
        assert(1 <= x * y) by (nonlinear_arith)
            requires
                x >= 1,
                y >= 1,
        ;
    }
    if i < j {
        lemma_product_shrinks(s, i + 1, j);
        let x = s[i] as int;
        let y = product_from(s, i + 1);
        assert(y <= x * y) by (nonlinear_arith)
            requires
                x >= 1,
                y >= 1,
        ;
    }
}

/// A position along each of `N` axes.
#[derive(Clone, Copy, Debug, PartialEq, Eq)]
pub struct Coord<const N: usize> {
    pub axes: [usize; N],
}

impl<const N: usize> View for Coord<N> {
    type V = Seq<usize>;

    open spec fn view(&self) -> Seq<usize> {
        self.axes@
    }
}

impl<const N: usize> Coord<N> {
    /// Every axis of `self` is at most the same axis of `other`.
    pub open spec fn spec_le(&self, other: &Self) -> bool {
        forall|i: int| 0 <= i < N ==> self@[i] <= other@[i]
    }

    /// The product of all axes.
    pub open spec fn spec_size(&self) -> int {
        product_from(self@, 0)
    }

    /// Wraps an array of per-axis values.
    pub fn new(axes: [usize; N]) -> (c: Self)
        ensures
            c.axes == axes,
    {
        Coord { axes }
    }

    /// The number of axes.
    pub fn ndim(&self) -> (n: usize)
        ensures
            n == N,
            n == self@.len(),
    {
        N
    }

    /// The value on axis `i`.
    pub fn get(&self, i: usize) -> (v: usize)
        requires
            i < N,
        ensures
            v == self@[i as int],
    {
        self.axes[i]
    }

    /// Replaces the value on axis `i`.
    pub fn set(&mut self, i: usize, v: usize)
        requires
            i < N,
        ensures
            final(self)@ == old(self)@.update(i as int, v),
    {
        self.axes[i] = v;
    }

    /// Element-wise comparison: whether no axis of `self` exceeds that axis
    /// of `other`.
    #[verifier::when_used_as_spec(spec_le)]
    pub fn le(&self, other: &Self) -> (b: bool)
        ensures
            b == self.spec_le(other),
    {
        let mut i: usize = 0;
        while i < N
            invariant
                i <= N,
                forall|j: int| 0 <= j < i ==> self@[j] <= other@[j],
            decreases N - i,
        {
            if self.axes[i] > other.axes[i] {
                assert(self@[i as int] > other@[i as int]);
                return false;
            }
            i += 1;
        }
        true
    }

    /// Element-wise difference `self - rhs`.
    pub fn sub(&self, rhs: &Self) -> (d: Self)
        requires
            rhs.spec_le(self),
        ensures
            forall|i: int| 0 <= i < N ==> d@[i] == self@[i] - rhs@[i],
    {
        let mut d = *self;
        let mut i: usize = 0;
        while i < N
            invariant
                i <= N,
                rhs.spec_le(self),
                forall|j: int| 0 <= j < i ==> d@[j] == self@[j] - rhs@[j],
                forall|j: int| i <= j < N ==> d@[j] == self@[j],
            decreases N - i,
        {
            assert(rhs@[i as int] <= self@[i as int]);
            d.axes[i] = self.axes[i] - rhs.axes[i];
            i += 1;
        }
        d
    }

    /// Whether some axis is zero, which makes the product of all axes zero.
    fn has_zero(&self) -> (b: bool)
        ensures
            b ==> self.spec_size() == 0,
            !b ==> forall|j: int| 0 <= j < N ==> self@[j] > 0,
    {
        let mut i: usize = 0;
        while i < N
            invariant
                i <= N,
                forall|j: int| 0 <= j < i ==> self@[j] > 0,
            decreases N - i,
        {
            if self.axes[i] == 0 {
                proof {
                    lemma_product_zero(self@, 0, i as int);
                }
                return true;
            }
            i += 1;
        }
        false
    }

    /// The number of positions in a box with these per-axis lengths: the
    /// product of all axes.
    pub fn size(&self) -> (n: usize)
        requires
            self.spec_size() <= usize::MAX,
        ensures
            n == self.spec_size(),
    {
        if self.has_zero() {
            return 0;
        }
        let mut n: usize = 1;
        let mut i: usize = N;
        while i > 0
            invariant
                i <= N,
                n == product_from(self@, i as int),
                self.spec_size() <= usize::MAX,
                forall|j: int| 0 <= j < N ==> self@[j] > 0,
            decreases i,
        {
            i -= 1;
            proof {
                lemma_product_shrinks(self@, 0, i as int);
            }
            n = self.axes[i] * n;
        }
        n
    }

    /// The product of all axes, or `None` when it does not fit in `usize`.
    pub fn checked_size(&self) -> (r: Option<usize>)
        ensures
            match r {
                Some(n) => n == self.spec_size(),
                None => self.spec_size() > usize::MAX,
            },
    {
        if self.has_zero() {
            return Some(0);
        }
        let mut n: usize = 1;
        let mut i: usize = N;
        while i > 0
            invariant
                i <= N,
                n == product_from(self@, i as int),
                forall|j: int| 0 <= j < N ==> self@[j] > 0,
            decreases i,
        {
            i -= 1;
            proof {
                lemma_product_shrinks(self@, 0, i as int);
            }
            match self.axes[i].checked_mul(n) {
                Some(m) => {
                    n = m;
                },
                None => {
                    return None;
                },
            }
        }
        Some(n)
    }
}

} // verus!
