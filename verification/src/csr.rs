//! Compressed-row storage: a row-offset array, a column-index array and a
//! value array. `row_pos[i]` is the position in `col_pos`/`values` where row
//! `i` begins, and `row_pos[rows]` closes the last row, so row `i` owns the
//! positions `row_pos[i] .. row_pos[i + 1]`. Entries of one row need not be
//! sorted by column and may repeat a column; a repeated column accumulates.
use vstd::prelude::*;
use crate::sums::range_sum;
use crate::coo::COO;
use crate::coo::row_sorted;
use crate::dense::Dense;
use crate::scalar::wrap;
use crate::scalar::wadd;
use crate::scalar::lemma_wrap_add_noop;
use crate::scalar::lemma_wrap_small;

verus! {

/// A sparse matrix in compressed-row form.
pub struct CSR {
    pub row_pos: Vec<usize>,
    pub col_pos: Vec<usize>,
    pub values: Vec<u64>,
    pub shape: (usize, usize),
}

/// What position `s` of `b`'s entry arrays contributes to column `j`.
pub open spec fn col_summand_fn(b: &CSR, j: int) -> spec_fn(int) -> int {
    |s: int|
        if b.col_pos@[s] == j {
            b.values@[s] as int
        } else {
            0int
        }
}

/// The sum of the values of row `k` of `b` that sit in column `j`,
/// taken over the entry positions `row_pos[k] .. s_hi`.
pub open spec fn col_sum_upto(b: &CSR, k: int, j: int, s_hi: int) -> int {
    range_sum(b.row_pos@[k] as int, s_hi, col_summand_fn(b, j))
}

/// The sum of the values of row `k` of `b` that sit in column `j`.
pub open spec fn col_sum(b: &CSR, k: int, j: int) -> int {
    col_sum_upto(b, k, j, b.row_pos@[k + 1] as int)
}

impl CSR {
    pub open spec fn nnz(&self) -> int {
        self.values@.len() as int
    }

    /// The compressed-row invariant: offsets cover `0 .. nnz` without
    /// decreasing, one offset per row plus the closing one, and every
    /// column index lies inside the shape.
    pub open spec fn wf(&self) -> bool {
        &&& self.row_pos@.len() == self.shape.0 + 1
        &&& self.row_pos@[0] == 0
        &&& self.row_pos@[self.shape.0 as int] == self.nnz()
        &&& self.col_pos@.len() == self.nnz()
        &&& forall|i: int|
            0 <= i < self.shape.0 ==> #[trigger] self.row_pos@[i] <= self.row_pos@[i + 1]
        &&& forall|t: int|
            0 <= t < self.col_pos@.len() ==> #[trigger] self.col_pos@[t] < self.shape.1
    }

    /// Row `i` owns position `t` of `col_pos`/`values`.
    pub open spec fn owns(&self, i: int, t: int) -> bool {
        self.row_pos@[i] <= t < self.row_pos@[i + 1]
    }
}

/// Row offsets never decrease across any span of rows.
pub proof fn lemma_row_pos_monotone(c: &CSR, i1: int, i2: int)
    requires
        c.wf(),
        0 <= i1 <= i2 <= c.shape.0,
    ensures
        c.row_pos@[i1] <= c.row_pos@[i2],
    decreases i2 - i1,
{
    if i1 < i2 {
        lemma_row_pos_monotone(c, i1, i2 - 1);
        assert(c.row_pos@[i2 - 1] <= c.row_pos@[i2 - 1 + 1]);
    }
}

/// Every position below `row_pos[r]` is owned by a row below `r`.
pub proof fn lemma_owner_exists_upto(c: &CSR, r: int, t: int)
    requires
        c.wf(),
        0 <= r <= c.shape.0,
        0 <= t < c.row_pos@[r],
    ensures
        exists|i: int| 0 <= i < r && #[trigger] c.owns(i, t),
    decreases r,
{
    if r > 0 {
        if c.row_pos@[r - 1] <= t {
            assert(c.owns(r - 1, t));
        } else {
            lemma_owner_exists_upto(c, r - 1, t);
        }
    }
}

/// Every position belongs to exactly one row.
pub proof fn lemma_owner_exists(c: &CSR, t: int)
    requires
        c.wf(),
        0 <= t < c.nnz(),
    ensures
        exists|i: int| 0 <= i < c.shape.0 && #[trigger] c.owns(i, t),
{
    lemma_owner_exists_upto(c, c.shape.0 as int, t);
}

/// Two rows never own the same position.
pub proof fn lemma_owner_unique(c: &CSR, i1: int, i2: int, t: int)
    requires
        c.wf(),
        0 <= i1 < c.shape.0,
        0 <= i2 < c.shape.0,
        c.owns(i1, t),
        c.owns(i2, t),
    ensures
        i1 == i2,
{
    if i1 < i2 {
        lemma_row_pos_monotone(c, i1 + 1, i2);
    }
    if i2 < i1 {
        lemma_row_pos_monotone(c, i2 + 1, i1);
    }
}

impl CSR {
    /// Build compressed rows from row-sorted triplets. Entries are kept one
    /// for one and in order; a run of absent rows repeats the same offset.
    pub fn from_coo(coo: &COO) -> (r: Self)
        requires
            coo.wf(),
            row_sorted(coo.data@),
            coo.shape.0 < usize::MAX,
        ensures
            r.wf(),
            r.shape == coo.shape,
            r.nnz() == coo.data@.len(),
            forall|t: int|
                0 <= t < coo.data@.len() ==> #[trigger] r.col_pos@[t] == coo.data@[t].1
                    && r.values@[t] == coo.data@[t].2,
            forall|t: int|
                0 <= t < coo.data@.len() ==> #[trigger] r.owns(coo.data@[t].0 as int, t),
    {
        let n_entries = coo.data.len();
        let mut row_pos: Vec<usize> = Vec::new();
        let mut col_pos: Vec<usize> = Vec::new();
        let mut values: Vec<u64> = Vec::new();
        let shape = coo.shape;
        let mut curr_row: usize = 0;
        row_pos.push(0);
        let mut t: usize = 0;
        while t < n_entries
            invariant
                coo.wf(),
                row_sorted(coo.data@),
                coo.shape.0 < usize::MAX,
                n_entries == coo.data@.len(),
                shape == coo.shape,
                t <= n_entries,
                curr_row < shape.0 || (curr_row == 0 && shape.0 == 0),
                t > 0 ==> curr_row == coo.data@[t - 1].0,
                t == 0 ==> curr_row == 0,
                col_pos@.len() == t,
                values@.len() == t,
                forall|s: int|
                    0 <= s < t ==> #[trigger] col_pos@[s] == coo.data@[s].1 && values@[s]
                        == coo.data@[s].2,
                row_pos@.len() == curr_row + 1,
                row_pos@[0] == 0,
                forall|r: int| 0 <= r <= curr_row ==> #[trigger] row_pos@[r] <= t,
                forall|r: int, s: int|
                    0 <= r <= curr_row && 0 <= s < n_entries ==> ((s < #[trigger] row_pos@[r]
                        ==> (#[trigger] coo.data@[s]).0 < r) && (row_pos@[r] <= s ==> coo.data@[s].0
                        >= r)),
            decreases n_entries - t,
        {
            let (i, j, x) = coo.data[t];
            if curr_row < i {
                while curr_row < i
                    invariant
                        coo.wf(),
                        row_sorted(coo.data@),
                        n_entries == coo.data@.len(),
                        t < n_entries,
                        i == coo.data@[t as int].0,
                        i < shape.0,
                        curr_row <= i,
                        t > 0 ==> coo.data@[t - 1].0 <= curr_row,
                        col_pos@.len() == t,
                        row_pos@.len() == curr_row + 1,
                        row_pos@[0] == 0,
                        forall|r: int| 0 <= r <= curr_row ==> #[trigger] row_pos@[r] <= t,
                        forall|r: int, s: int|
                            0 <= r <= curr_row && 0 <= s < n_entries ==> ((s
                                < #[trigger] row_pos@[r] ==> (#[trigger] coo.data@[s]).0 < r) && (
                            row_pos@[r] <= s ==> coo.data@[s].0 >= r)),
                    decreases i - curr_row,
                {
                    row_pos.push(t);
                    curr_row = curr_row + 1;
                    proof {
                        assert forall|r: int, s: int|
                            0 <= r <= curr_row && 0 <= s < n_entries implies ((s
                            < #[trigger] row_pos@[r] ==> (#[trigger] coo.data@[s]).0 < r) && (
                        row_pos@[r] <= s ==> coo.data@[s].0 >= r)) by {
                            if r == curr_row {
                                if s < row_pos@[r] {
                                    // an earlier entry: its row is at most the previous row
                                    if t > 0 && s < t {
                                        assert(coo.data@[s].0 <= coo.data@[t - 1].0 || s == t - 1);
                                    }
                                } else {
                                    if s >= t {
                                        assert(coo.data@[t as int].0 <= coo.data@[s].0 || s == t);
                                    }
                                }
                            }
                        }
                    }
                }
            }
            col_pos.push(j);
            values.push(x);
            t = t + 1;
        }
        proof {
            assert forall|s: int|
                0 <= s < n_entries implies (#[trigger] coo.data@[s]).0 < row_pos@.len() by {
                if s < n_entries - 1 {
                    assert(coo.data@[s].0 <= coo.data@[n_entries - 1].0);
                }
            }
        }
        // close the current row and every absent trailing row
        while row_pos.len() < shape.0 + 1
            invariant
                forall|s: int|
                    0 <= s < n_entries ==> (#[trigger] coo.data@[s]).0 < row_pos@.len(),
                coo.wf(),
                n_entries == coo.data@.len(),
                shape == coo.shape,
                col_pos@.len() == n_entries,
                values@.len() == n_entries,
                shape.0 < usize::MAX,
                1 <= row_pos@.len() <= shape.0 + 1,
                row_pos@[0] == 0,
                forall|r: int| 0 <= r < row_pos@.len() ==> #[trigger] row_pos@[r] <= n_entries,
                forall|r: int, s: int|
                    0 <= r < row_pos@.len() && 0 <= s < n_entries ==> ((s < #[trigger] row_pos@[r]
                        ==> (#[trigger] coo.data@[s]).0 < r) && (row_pos@[r] <= s ==> coo.data@[s].0
                        >= r)),
            decreases shape.0 + 1 - row_pos@.len(),
        {
            row_pos.push(values.len());
        }
        let r = CSR { row_pos, col_pos, values, shape };
        proof {
            assert forall|i2: int|
                0 <= i2 < r.shape.0 implies #[trigger] r.row_pos@[i2] <= r.row_pos@[i2 + 1] by {
                if r.row_pos@[i2 + 1] < r.row_pos@[i2] {
                    let s = r.row_pos@[i2 + 1] as int;
                    assert(r.row_pos@[i2] <= n_entries);
                    assert(0 <= s < n_entries);
                    assert(coo.data@[s].0 < i2);
                    assert(coo.data@[s].0 >= i2 + 1);
                }
            }
            assert(r.row_pos@[r.shape.0 as int] == r.nnz()) by {
                let last = r.row_pos@[r.shape.0 as int] as int;
                if last < r.nnz() {
                    assert(coo.data@[last].0 >= r.shape.0);
                }
            }
            assert forall|t2: int|
                0 <= t2 < coo.data@.len() implies #[trigger] r.owns(coo.data@[t2].0 as int, t2) by {
                let i2 = coo.data@[t2].0 as int;
                assert(!(t2 < r.row_pos@[i2]));
                assert(!(r.row_pos@[i2 + 1] <= t2));
            }
        }
        r
    }

    /// How many entries row `k` holds.
    pub fn get_row_nnz(&self, k: usize) -> (r: usize)
        requires
            self.wf(),
            k < self.shape.0,
        ensures
            r == self.row_pos@[k + 1] - self.row_pos@[k as int],
    {
        self.row_pos[k + 1] - self.row_pos[k]
    }

    /// Expand to dense storage row by row; a repeated column within a row
    /// accumulates, so every position holds the wrapped sum of its row's
    /// entries at that column.
    pub fn to_dense(&self) -> (r: Dense)
        requires
            self.wf(),
            self.shape.0 * self.shape.1 <= usize::MAX,
        ensures
            r.wf(),
            r.shape == self.shape,
            forall|i: int, j: int|
                0 <= i < self.shape.0 && 0 <= j < self.shape.1 ==> #[trigger] r.at(i, j) == wrap(
                    col_sum(self, i, j),
                ),
    {
        let m = self.shape.0;
        let n = self.shape.1;
        let mut mat = Dense::new_zeros((m, n));
        let mut i: usize = 0;
        while i < m
            invariant
                self.wf(),
                m == self.shape.0,
                n == self.shape.1,
                i <= m,
                mat.wf(),
                mat.shape == self.shape,
                forall|i2: int, j: int|
                    0 <= i2 < i && 0 <= j < n ==> #[trigger] mat.at(i2, j) == wrap(
                        col_sum(self, i2, j),
                    ),
                forall|i2: int, j: int|
                    i <= i2 < m && 0 <= j < n ==> #[trigger] mat.at(i2, j) == 0,
            decreases m - i,
        {
            let start = self.row_pos[i];
            let end = self.row_pos[i + 1];
            proof {
                assert(self.col_pos.len() == self.col_pos@.len());
                lemma_row_pos_monotone(self, i + 1, m as int);
                lemma_wrap_small(0);
            }
            let mut k: usize = start;
            while k < end
                invariant
                    self.wf(),
                    m == self.shape.0,
                    n == self.shape.1,
                    i < m,
                    start == self.row_pos@[i as int],
                    end == self.row_pos@[i + 1],
                    start <= k <= end,
                    end <= self.col_pos@.len(),
                    mat.wf(),
                    mat.shape == self.shape,
                    forall|i2: int, j: int|
                        0 <= i2 < i && 0 <= j < n ==> #[trigger] mat.at(i2, j) == wrap(
                            col_sum(self, i2, j),
                        ),
                    forall|i2: int, j: int|
                        i < i2 < m && 0 <= j < n ==> #[trigger] mat.at(i2, j) == 0,
                    forall|j: int|
                        0 <= j < n ==> #[trigger] mat.at(i as int, j) == wrap(
                            col_sum_upto(self, i as int, j, k as int),
                        ),
                decreases end - k,
            {
                let c = self.col_pos[k];
                let cur = mat.get(i, c);
                mat.set(i, c, wadd(cur, self.values[k]));
                proof {
                    let gi = i as int;
                    let gk = k as int;
                    assert forall|j: int|
                        0 <= j < n implies #[trigger] mat.at(gi, j) == wrap(
                        col_sum_upto(self, gi, j, gk + 1),
                    ) by {
                        assert(col_sum_upto(self, gi, j, gk + 1) == col_sum_upto(self, gi, j, gk)
                            + col_summand_fn(self, j)(gk));
                        if j == c as int {
                            lemma_wrap_add_noop(
                                col_sum_upto(self, gi, j, gk),
                                self.values@[gk] as int,
                            );
                        }
                    }
                }
                k = k + 1;
            }
            i = i + 1;
        }
        mat
    }

    /// List every entry as a `(row, col, value)` triplet, row by row and in
    /// row order, so position `t` of the result is position `t` of this
    /// matrix's entry arrays.
    pub fn to_coo(&self) -> (r: COO)
        requires
            self.wf(),
        ensures
            r.wf(),
            r.shape == self.shape,
            r.data@.len() == self.nnz(),
            forall|i: int, t: int|
                0 <= i < self.shape.0 && #[trigger] self.owns(i, t) ==> r.data@[t].0 == i
                    && r.data@[t].1 == self.col_pos@[t] && r.data@[t].2 == self.values@[t],
    {
        let mut data: Vec<(usize, usize, u64)> = Vec::new();
        let m = self.shape.0;
        let mut i: usize = 0;
        while i < m
            invariant
                self.wf(),
                m == self.shape.0,
                i <= m,
                data@.len() == if i < m {
                    self.row_pos@[i as int] as int
                } else {
                    self.nnz()
                },
                forall|i2: int, t: int|
                    0 <= i2 < i && #[trigger] self.owns(i2, t) ==> 0 <= t < data@.len()
                        && data@[t].0 == i2 && data@[t].1 == self.col_pos@[t]
                        && data@[t].2 == self.values@[t],
                forall|t: int|
                    0 <= t < data@.len() ==> (#[trigger] data@[t]).0 < m && data@[t].1
                        < self.shape.1,
            decreases m - i,
        {
            let start = self.row_pos[i];
            let end = self.row_pos[i + 1];
            proof {
                assert(self.col_pos.len() == self.col_pos@.len());
                lemma_row_pos_monotone(self, i + 1, m as int);
                lemma_row_pos_monotone(self, i as int, i + 1);
            }
            let mut k: usize = start;
            while k < end
                invariant
                    self.wf(),
                    m == self.shape.0,
                    i < m,
                    start == self.row_pos@[i as int],
                    end == self.row_pos@[i + 1],
                    start <= k <= end,
                    end <= self.col_pos@.len(),
                    data@.len() == k,
                    forall|i2: int, t: int|
                        0 <= i2 < i && #[trigger] self.owns(i2, t) ==> 0 <= t < self.row_pos@[
                            i as int] && data@[t].0 == i2 && data@[t].1 == self.col_pos@[t]
                            && data@[t].2 == self.values@[t],
                    forall|t: int|
                        start <= t < k ==> (#[trigger] data@[t]).0 == i && data@[t].1
                            == self.col_pos@[t] && data@[t].2 == self.values@[t],
                    forall|t: int|
                        0 <= t < data@.len() ==> (#[trigger] data@[t]).0 < m && data@[t].1
                            < self.shape.1,
                decreases end - k,
            {
                data.push((i, self.col_pos[k], self.values[k]));
                k = k + 1;
            }
            proof {
                assert forall|i2: int, t: int|
                    0 <= i2 < i + 1 && #[trigger] self.owns(i2, t) implies 0 <= t < self.row_pos@[
                    i + 1] && data@[t].0 == i2 && data@[t].1 == self.col_pos@[t] && data@[t].2
                    == self.values@[t] by {
                    if i2 < i {
                        lemma_row_pos_monotone(self, i2 + 1, i as int);
                    } else {
                        lemma_row_pos_monotone(self, 0, i as int);
                    }
                }
            }
            i = i + 1;
        }
        COO { data, shape: self.shape }
    }
}

} // verus!
