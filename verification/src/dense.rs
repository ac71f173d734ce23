//! Row-major dense storage. In this crate a dense matrix serves as the
//! correctness oracle and as the expansion target of the sparse formats.
use vstd::prelude::*;
use vstd::pervasive::VecAdditionalExecFns;
use rayon::iter::IndexedParallelIterator;
use rayon::iter::IntoParallelIterator;
use rayon::iter::ParallelIterator;
use crate::scalar::wrap;
use crate::scalar::wadd;
use crate::scalar::wmul;
use crate::scalar::lemma_wrap_add_noop;
use crate::sums::range_sum;

verus! {

/// A `rows x cols` matrix as one flat row-major array.
pub struct Dense {
    pub data: Vec<u64>,
    pub shape: (usize, usize),
}

/// A flat row-major position stays inside the array.
pub proof fn lemma_flat_index(i: int, j: int, rows: int, cols: int)
    requires
        0 <= i < rows,
        0 <= j < cols,
    ensures
        0 <= i * cols + j < rows * cols,
{
    assert(i * cols + j < rows * cols) by (nonlinear_arith)
        requires
            0 <= i < rows,
            0 <= j < cols,
    ;
}

/// Distinct positions have distinct flat row-major indices.
pub proof fn lemma_flat_index_injective(i1: int, j1: int, i2: int, j2: int, cols: int)
    requires
        0 <= i1,
        0 <= i2,
        0 <= j1 < cols,
        0 <= j2 < cols,
        i1 * cols + j1 == i2 * cols + j2,
    ensures
        i1 == i2,
        j1 == j2,
{
    assert(i1 == i2 && j1 == j2) by (nonlinear_arith)
        requires
            0 <= i1,
            0 <= i2,
            0 <= j1 < cols,
            0 <= j2 < cols,
            i1 * cols + j1 == i2 * cols + j2,
    ;
}

impl Dense {
    /// The flat array holds exactly one word per position.
    pub open spec fn wf(&self) -> bool {
        self.data@.len() == self.shape.0 * self.shape.1
    }

    /// The word stored at row `i`, column `j`.
    pub open spec fn at(&self, i: int, j: int) -> int {
        self.data@[i * self.shape.1 + j] as int
    }

    pub fn new_zeros(shape: (usize, usize)) -> (r: Self)
        requires
            shape.0 * shape.1 <= usize::MAX,
        ensures
            r.wf(),
            r.shape == shape,
            forall|i: int, j: int|
                0 <= i < shape.0 && 0 <= j < shape.1 ==> #[trigger] r.at(i, j) == 0,
    {
        proof {
            vstd::arithmetic::mul::lemma_mul_nonnegative(shape.0 as int, shape.1 as int);
        }
        let total: usize = shape.0 * shape.1;
        let mut data: Vec<u64> = Vec::new();
        let mut k: usize = 0;
        while k < total
            invariant
                k <= total,
                data@.len() == k,
                forall|t: int| 0 <= t < k ==> data@[t] == 0,
            decreases total - k,
        {
            data.push(0);
            k = k + 1;
        }
        let r = Dense { data, shape };
        proof {
            assert forall|i: int, j: int|
                0 <= i < shape.0 && 0 <= j < shape.1 implies #[trigger] r.at(i, j) == 0 by {
                lemma_flat_index(i, j, shape.0 as int, shape.1 as int);
            }
        }
        r
    }

    pub fn get(&self, i: usize, j: usize) -> (r: u64)
        requires
            self.wf(),
            i < self.shape.0,
            j < self.shape.1,
        ensures
            r as int == self.at(i as int, j as int),
    {
        proof {
            assert(self.data.len() == self.data@.len());
            lemma_flat_index(i as int, j as int, self.shape.0 as int, self.shape.1 as int);
            vstd::arithmetic::mul::lemma_mul_is_commutative(i as int, self.shape.1 as int);
        }
        self.data[self.shape.1 * i + j]
    }

    pub fn set(&mut self, i: usize, j: usize, x: u64)
        requires
            old(self).wf(),
            i < old(self).shape.0,
            j < old(self).shape.1,
        ensures
            final(self).wf(),
            final(self).shape == old(self).shape,
            final(self).at(i as int, j as int) == x,
            forall|i2: int, j2: int|
                0 <= i2 < old(self).shape.0 && 0 <= j2 < old(self).shape.1 && !(i2 == i as int && j2
                    == j as int) ==> #[trigger] final(self).at(i2, j2) == old(self).at(i2, j2),
    {
        proof {
            assert(self.data.len() == self.data@.len());
            lemma_flat_index(i as int, j as int, self.shape.0 as int, self.shape.1 as int);
            vstd::arithmetic::mul::lemma_mul_is_commutative(i as int, self.shape.1 as int);
        }
        let ghost prev = *self;
        self.data.set(self.shape.1 * i + j, x);
        proof {
            assert forall|i2: int, j2: int|
                0 <= i2 < prev.shape.0 && 0 <= j2 < prev.shape.1 && !(i2 == i as int && j2
                    == j as int) implies #[trigger] self.at(i2, j2) == prev.at(i2, j2) by {
                lemma_flat_index(i2, j2, prev.shape.0 as int, prev.shape.1 as int);
                if i2 * prev.shape.1 + j2 == i as int * prev.shape.1 + j as int {
                    lemma_flat_index_injective(
                        i2,
                        j2,
                        i as int,
                        j as int,
                        prev.shape.1 as int,
                    );
                }
            }
        }
    }

    /// The same entries laid out column-major (the layout vendor BLAS
    /// routines expect); the logical shape is unchanged.
    pub fn as_column_major(&self) -> (r: Self)
        requires
            self.wf(),
        ensures
            r.shape == self.shape,
            r.data@.len() == self.data@.len(),
            forall|i: int, j: int|
                0 <= i < self.shape.0 && 0 <= j < self.shape.1 ==> #[trigger] r.data@[j
                    * self.shape.0 + i] == self.data@[i * self.shape.1 + j],
    {
        let rows = self.shape.0;
        let cols = self.shape.1;
        proof {
            assert(self.data.len() == self.data@.len());
        }
        let mut out = Dense::new_zeros((rows, cols));
        let mut i: usize = 0;
        while i < rows
            invariant
                self.wf(),
                out.wf(),
                rows == self.shape.0,
                cols == self.shape.1,
                out.shape == self.shape,
                i <= rows,
                forall|i2: int, j2: int|
                    0 <= i2 < i && 0 <= j2 < cols ==> #[trigger] out.data@[j2 * rows + i2]
                        == self.data@[i2 * cols + j2],
            decreases rows - i,
        {
            let mut j: usize = 0;
            while j < cols
                invariant
                    self.wf(),
                    out.wf(),
                    rows == self.shape.0,
                    cols == self.shape.1,
                    out.shape == self.shape,
                    i < rows,
                    j <= cols,
                    forall|i2: int, j2: int|
                        0 <= i2 < i && 0 <= j2 < cols ==> #[trigger] out.data@[j2 * rows + i2]
                            == self.data@[i2 * cols + j2],
                    forall|j2: int|
                        0 <= j2 < j ==> #[trigger] out.data@[j2 * rows + i as int]
                            == self.data@[i as int * cols + j2],
                decreases cols - j,
            {
                proof {
                    assert(self.data.len() == self.data@.len());
                    lemma_flat_index(i as int, j as int, rows as int, cols as int);
                    lemma_flat_index(j as int, i as int, cols as int, rows as int);
                    vstd::arithmetic::mul::lemma_mul_is_commutative(rows as int, cols as int);
                    vstd::arithmetic::mul::lemma_mul_is_commutative(i as int, cols as int);
                }
                let ghost prev = out;
                let x = self.data[i * cols + j];
                out.data.set(j * rows + i, x);
                proof {
                    assert forall|i2: int, j2: int|
                        0 <= i2 < rows && 0 <= j2 < cols && !(i2 == i as int && j2 == j as int)
                            implies #[trigger] out.data@[j2 * rows + i2] == prev.data@[j2 * rows
                        + i2] by {
                        lemma_flat_index(j2, i2, cols as int, rows as int);
                        if j2 * rows + i2 == j as int * rows + i as int {
                            lemma_flat_index_injective(j2, i2, j as int, i as int, rows as int);
                        }
                    }
                }
                j = j + 1;
            }
            i = i + 1;
        }
        out
    }

    /// The inverse relayout: reads this matrix as column-major data and
    /// produces the row-major layout; the logical shape is unchanged.
    pub fn as_row_major(&self) -> (r: Self)
        requires
            self.wf(),
        ensures
            r.shape == self.shape,
            r.data@.len() == self.data@.len(),
            forall|i: int, j: int|
                0 <= i < self.shape.0 && 0 <= j < self.shape.1 ==> #[trigger] r.data@[i
                    * self.shape.1 + j] == self.data@[j * self.shape.0 + i],
    {
        let rows = self.shape.0;
        let cols = self.shape.1;
        proof {
            assert(self.data.len() == self.data@.len());
        }
        let mut out = Dense::new_zeros((rows, cols));
        let mut i: usize = 0;
        while i < rows
            invariant
                self.wf(),
                out.wf(),
                rows == self.shape.0,
                cols == self.shape.1,
                out.shape == self.shape,
                i <= rows,
                forall|i2: int, j2: int|
                    0 <= i2 < i && 0 <= j2 < cols ==> #[trigger] out.data@[i2 * cols + j2]
                        == self.data@[j2 * rows + i2],
            decreases rows - i,
        {
            let mut j: usize = 0;
            while j < cols
                invariant
                    self.wf(),
                    out.wf(),
                    rows == self.shape.0,
                    cols == self.shape.1,
                    out.shape == self.shape,
                    i < rows,
                    j <= cols,
                    forall|i2: int, j2: int|
                        0 <= i2 < i && 0 <= j2 < cols ==> #[trigger] out.data@[i2 * cols + j2]
                            == self.data@[j2 * rows + i2],
                    forall|j2: int|
                        0 <= j2 < j ==> #[trigger] out.data@[i as int * cols + j2] == self.data@[j2
                            * rows + i as int],
                decreases cols - j,
            {
                proof {
                    assert(self.data.len() == self.data@.len());
                    lemma_flat_index(i as int, j as int, rows as int, cols as int);
                    lemma_flat_index(j as int, i as int, cols as int, rows as int);
                    vstd::arithmetic::mul::lemma_mul_is_commutative(rows as int, cols as int);
                    vstd::arithmetic::mul::lemma_mul_is_commutative(j as int, rows as int);
                }
                let ghost prev = out;
                let x = self.data[j * rows + i];
                out.data.set(i * cols + j, x);
                proof {
                    assert forall|i2: int, j2: int|
                        0 <= i2 < rows && 0 <= j2 < cols && !(i2 == i as int && j2 == j as int)
                            implies #[trigger] out.data@[i2 * cols + j2] == prev.data@[i2 * cols
                        + j2] by {
                        lemma_flat_index(i2, j2, rows as int, cols as int);
                        if i2 * cols + j2 == i as int * cols + j as int {
                            lemma_flat_index_injective(i2, j2, i as int, j as int, cols as int);
                        }
                    }
                }
                j = j + 1;
            }
            i = i + 1;
        }
        out
    }
}

/// One summand of the naive triple-loop product entry.
pub open spec fn dense_summand_fn(a: &Dense, b: &Dense, i: int, j: int) -> spec_fn(int) -> int {
    |k: int| a.at(i, k) * b.at(k, j)
}

/// The naive triple-loop product entry: the wrapped sum over the inner
/// dimension prefix `0 .. k_hi` of `a[i][k] * b[k][j]`.
pub open spec fn dense_prod_upto(a: &Dense, b: &Dense, i: int, j: int, k_hi: int) -> int {
    range_sum(0, k_hi, dense_summand_fn(a, b, i, j))
}

/// The naive triple-loop product entry at `(i, j)`, before wrapping.
pub open spec fn dense_prod_at(a: &Dense, b: &Dense, i: int, j: int) -> int {
    dense_prod_upto(a, b, i, j, a.shape.1 as int)
}

/// One output row of the naive product, wrapped.
pub open spec fn dense_row_spec(a: &Dense, b: &Dense, i: int) -> Seq<u64> {
    Seq::new(b.shape.1 as nat, |j: int| wrap(dense_prod_at(a, b, i, j)) as u64)
}

/// One row of the naive product: for each column, accumulate the wrapped
/// inner-dimension sum.
pub fn dense_product_row(a: &Dense, b: &Dense, i: usize) -> (r: Vec<u64>)
    requires
        a.wf(),
        b.wf(),
        a.shape.1 == b.shape.0,
        i < a.shape.0,
    ensures
        r@ == dense_row_spec(a, b, i as int),
{
    let n = b.shape.1;
    let p = a.shape.1;
    let mut row: Vec<u64> = Vec::new();
    let mut j: usize = 0;
    while j < n
        invariant
            a.wf(),
            b.wf(),
            a.shape.1 == b.shape.0,
            i < a.shape.0,
            n == b.shape.1,
            p == a.shape.1,
            j <= n,
            row@.len() == j,
            forall|j2: int|
                0 <= j2 < j ==> #[trigger] row@[j2] as int == wrap(dense_prod_at(a, b, i as int, j2)),
        decreases n - j,
    {
        let mut sum: u64 = 0;
        let mut k: usize = 0;
        while k < p
            invariant
                a.wf(),
                b.wf(),
                a.shape.1 == b.shape.0,
                i < a.shape.0,
                j < n,
                n == b.shape.1,
                p == a.shape.1,
                k <= p,
                sum as int == wrap(dense_prod_upto(a, b, i as int, j as int, k as int)),
            decreases p - k,
        {
            let av = a.get(i, k);
            let bv = b.get(k, j);
            let term = wmul(av, bv);
            proof {
                let gi = i as int;
                let gj = j as int;
                let gk = k as int;
                let d = dense_prod_upto(a, b, gi, gj, gk);
                lemma_wrap_add_noop(d, wrap(av * bv) as int);
                lemma_wrap_add_noop(av * bv, d);
                assert(wrap(d + wrap(av * bv)) == wrap(wrap(av * bv) + d));
                assert(dense_prod_upto(a, b, gi, gj, gk + 1) == d + a.at(gi, gk) * b.at(gk, gj));
            }
            sum = wadd(sum, term);
            k = k + 1;
        }
        row.push(sum);
        j = j + 1;
    }
    proof {
        assert(row@ =~= dense_row_spec(a, b, i as int));
    }
    row
}

/// Relies on rayon's `IndexedParallelIterator::collect_into_vec`: mapping an
/// indexed parallel iterator over `0 .. m` and collecting yields one element
/// per index, in index order. The closure only calls the verified row
/// function.
#[verifier::external_body]
fn par_dense_rows(a: &Dense, b: &Dense) -> (r: Vec<Vec<u64>>)
    requires
        a.wf(),
        b.wf(),
        a.shape.1 == b.shape.0,
    ensures
        r@.len() == a.shape.0,
        forall|i: int| 0 <= i < r@.len() ==> (#[trigger] r@[i])@ == dense_row_spec(a, b, i),
{
    let mut rows = Vec::new();
    (0..a.shape.0).into_par_iter().map(|i| dense_product_row(a, b, i)).collect_into_vec(&mut rows);
    rows
}

impl Dense {
    /// The dense-dense oracle: the naive triple-loop product, one parallel
    /// task per output row, rows gathered in row order.
    pub fn product_dense_par(&self, other: &Dense) -> (r: Dense)
        requires
            self.wf(),
            other.wf(),
            self.shape.1 == other.shape.0,
            self.shape.0 * other.shape.1 <= usize::MAX,
        ensures
            r.wf(),
            r.shape.0 == self.shape.0,
            r.shape.1 == other.shape.1,
            forall|i: int, j: int|
                0 <= i < self.shape.0 && 0 <= j < other.shape.1 ==> #[trigger] r.at(i, j) == wrap(
                    dense_prod_at(self, other, i, j),
                ),
    {
        let m = self.shape.0;
        let n = other.shape.1;
        let rows = par_dense_rows(self, other);
        let mut mat = Dense::new_zeros((m, n));
        let mut i: usize = 0;
        while i < m
            invariant
                self.wf(),
                other.wf(),
                self.shape.1 == other.shape.0,
                m == self.shape.0,
                n == other.shape.1,
                rows@.len() == m,
                forall|i2: int|
                    0 <= i2 < m ==> (#[trigger] rows@[i2])@ == dense_row_spec(self, other, i2),
                i <= m,
                mat.wf(),
                mat.shape.0 == m,
                mat.shape.1 == n,
                forall|i2: int, j2: int|
                    0 <= i2 < i && 0 <= j2 < n ==> #[trigger] mat.at(i2, j2) == wrap(
                        dense_prod_at(self, other, i2, j2),
                    ),
            decreases m - i,
        {
            let row = &rows[i];
            let mut j: usize = 0;
            while j < n
                invariant
                    self.wf(),
                    other.wf(),
                    self.shape.1 == other.shape.0,
                    m == self.shape.0,
                    n == other.shape.1,
                    i < m,
                    j <= n,
                    row@ == dense_row_spec(self, other, i as int),
                    mat.wf(),
                    mat.shape.0 == m,
                    mat.shape.1 == n,
                    forall|i2: int, j2: int|
                        0 <= i2 < i && 0 <= j2 < n ==> #[trigger] mat.at(i2, j2) == wrap(
                            dense_prod_at(self, other, i2, j2),
                        ),
                    forall|j2: int|
                        0 <= j2 < j ==> #[trigger] mat.at(i as int, j2) == wrap(
                            dense_prod_at(self, other, i as int, j2),
                        ),
                decreases n - j,
            {
                mat.set(i, j, row[j]);
                j = j + 1;
            }
            i = i + 1;
        }
        mat
    }
}

} // verus!
