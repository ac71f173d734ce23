//! Coordinate storage: an ordered list of `(row, col, value)` triplets.
//! The list itself is never deduplicated; a coordinate that occurs twice is
//! tolerated, and expansion to dense accumulates the duplicates.
use vstd::prelude::*;
use crate::dense::Dense;
use crate::scalar::wrap;
use crate::scalar::wadd;
use crate::scalar::lemma_wrap_add_noop;
use crate::scalar::lemma_wrap_small;

verus! {

/// A sparse matrix as a flat list of `(row, col, value)` triplets.
pub struct COO {
    pub data: Vec<(usize, usize, u64)>,
    pub shape: (usize, usize),
}

/// The sum of every triplet at `(i, j)`: what a triplet list denotes at one
/// coordinate, duplicates accumulating.
pub open spec fn sum_at(data: Seq<(usize, usize, u64)>, i: int, j: int) -> int
    decreases data.len(),
{
    if data.len() == 0 {
        0
    } else {
        let e = data[data.len() - 1];
        sum_at(data.drop_last(), i, j) + if e.0 == i && e.1 == j {
            e.2 as int
        } else {
            0int
        }
    }
}

/// Triplets appear in non-decreasing row order.
pub open spec fn row_sorted(data: Seq<(usize, usize, u64)>) -> bool {
    forall|s: int, t: int|
        0 <= s < t < data.len() ==> (#[trigger] data[s]).0 <= (#[trigger] data[t]).0
}

pub proof fn lemma_sum_at_push(data: Seq<(usize, usize, u64)>, e: (usize, usize, u64), i: int, j: int)
    ensures
        sum_at(data.push(e), i, j) == sum_at(data, i, j) + if e.0 == i && e.1 == j {
            e.2 as int
        } else {
            0int
        },
{
    assert(data.push(e).drop_last() =~= data);
}

impl COO {
    /// Every triplet points inside the shape.
    pub open spec fn wf(&self) -> bool {
        forall|t: int|
            0 <= t < self.data@.len() ==> (#[trigger] self.data@[t]).0 < self.shape.0
                && self.data@[t].1 < self.shape.1
    }

    /// Expand to dense storage; a repeated coordinate accumulates, so every
    /// position holds the wrapped sum of its triplets.
    pub fn to_dense(&self) -> (r: Dense)
        requires
            self.wf(),
            self.shape.0 * self.shape.1 <= usize::MAX,
        ensures
            r.wf(),
            r.shape == self.shape,
            forall|i: int, j: int|
                0 <= i < self.shape.0 && 0 <= j < self.shape.1 ==> #[trigger] r.at(i, j) == wrap(
                    sum_at(self.data@, i, j),
                ),
    {
        let mut mat = Dense::new_zeros((self.shape.0, self.shape.1));
        let mut t: usize = 0;
        proof {
            lemma_wrap_small(0);
            assert forall|i: int, j: int|
                0 <= i < self.shape.0 && 0 <= j < self.shape.1 implies #[trigger] mat.at(i, j)
                == wrap(sum_at(self.data@.take(0), i, j)) by {
                assert(self.data@.take(0).len() == 0);
            }
        }
        while t < self.data.len()
            invariant
                self.wf(),
                t <= self.data@.len(),
                mat.wf(),
                mat.shape == self.shape,
                forall|i: int, j: int|
                    0 <= i < self.shape.0 && 0 <= j < self.shape.1 ==> #[trigger] mat.at(i, j)
                        == wrap(sum_at(self.data@.take(t as int), i, j)),
            decreases self.data@.len() - t,
        {
            let (i, j, x) = self.data[t];
            let cur = mat.get(i, j);
            mat.set(i, j, wadd(cur, x));
            proof {
                assert(self.data@.take(t + 1) =~= self.data@.take(t as int).push(self.data@[t as int]));
                assert forall|i2: int, j2: int|
                    0 <= i2 < self.shape.0 && 0 <= j2 < self.shape.1 implies #[trigger] mat.at(
                    i2,
                    j2,
                ) == wrap(sum_at(self.data@.take(t + 1), i2, j2)) by {
                    lemma_sum_at_push(self.data@.take(t as int), self.data@[t as int], i2, j2);
                    if i2 == i as int && j2 == j as int {
                        lemma_wrap_add_noop(sum_at(self.data@.take(t as int), i2, j2), x as int);
                    }
                }
            }
            t = t + 1;
        }
        proof {
            assert(self.data@.take(self.data@.len() as int) =~= self.data@);
        }
        mat
    }
}

} // verus!
