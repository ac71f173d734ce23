//! The crate-level laws: statements that relate several functions of the
//! library, proved once here so that callers and readers see them spelled
//! out rather than folded into the executors' contracts.
use vstd::prelude::*;
use crate::coo::sum_at;
use crate::csr::CSR;
use crate::csr::lemma_row_pos_monotone;
use crate::csr::lemma_owner_exists;
use crate::dense::Dense;
use crate::dense::dense_prod_at;
use crate::dense::dense_summand_fn;
use crate::scalar::wrap;
use crate::scalar::wrap32;
use crate::scalar::lemma_wrap32_of_wrap;
use crate::csr::col_sum;
use crate::csr::col_sum_upto;
use crate::csr::col_summand_fn;
use crate::spgemm::prod_summand_fn;
use crate::spgemm::prod_at;
use crate::spgemm::prod_upto;
use crate::spgemm::touched;
use crate::spgemm::row_hits;
use crate::spgemm::row_hits_upto;
use crate::spgemm::touched_upto;
use crate::spgemm::touched_cols;
use crate::spgemm::row_vals;
use crate::spgemm::is_product;
use crate::spgemm::lemma_row_parts;
use crate::estimator::imin;
use crate::estimator::row_est_upto;
use crate::estimator::row_est_fn;
use crate::estimator::est_sum_upto;
use crate::estimator::spec_size_prediction;
use crate::spgemm::touched_fn;
use crate::spgemm::touched_upto_fn;
use crate::spgemm::hits_fn;
use crate::spgemm::hits_upto_fn;
use crate::spgemm::row_count_fn;
use crate::spgemm::prod_nnz;
use crate::spgemm::lemma_hits_step;
use crate::spgemm::lemma_touched_step;
use crate::sums::range_count;
use crate::sums::lemma_range_count_eq;
use crate::sums::lemma_range_count_or;
use crate::sums::lemma_range_count_single;
use crate::sums::lemma_range_count_bounds;
use crate::sums::lemma_range_sum_le;
use crate::sums::lemma_range_sum_const_bound;

verus! {

/// Row `k` of `b` hits at most one column per scanned entry.
proof fn lemma_hits_count_upto(b: &CSR, k: int, n: int, s_hi: int)
    requires
        b.wf(),
        0 <= k < b.shape.0,
        n == b.shape.1,
        b.row_pos@[k] <= s_hi <= b.row_pos@[k + 1],
    ensures
        range_count(0, n, hits_upto_fn(b, k, s_hi)) <= s_hi - b.row_pos@[k],
    decreases s_hi - b.row_pos@[k],
{
    if s_hi == b.row_pos@[k] {
        assert forall|j: int| 0 <= j < n && #[trigger] hits_upto_fn(b, k, s_hi)(j) implies j
            == -1 by {
            assert(!crate::spgemm::row_hits_upto(b, k, j, s_hi));
        }
        lemma_range_count_single(0, n, hits_upto_fn(b, k, s_hi), -1);
    } else {
        let s = s_hi - 1;
        lemma_hits_count_upto(b, k, n, s);
        let single = |j: int| b.col_pos@[s] == j;
        assert forall|j: int| 0 <= j < n implies #[trigger] hits_upto_fn(b, k, s_hi)(j) == (
        hits_upto_fn(b, k, s)(j) || single(j)) by {
            lemma_hits_step(b, k, j, s);
        }
        lemma_range_count_or(0, n, hits_upto_fn(b, k, s), single, hits_upto_fn(b, k, s_hi));
        assert forall|j: int| 0 <= j < n && #[trigger] single(j) implies j == b.col_pos@[s] by {}
        lemma_range_count_single(0, n, single, b.col_pos@[s] as int);
        lemma_range_count_bounds(0, n, hits_upto_fn(b, k, s));
    }
}

/// A product row materializes no more entries than the estimator's
/// per-row slot count.
proof fn lemma_row_count_upto(a: &CSR, b: &CSR, i: int, t_hi: int)
    requires
        a.wf(),
        b.wf(),
        a.shape.1 == b.shape.0,
        0 <= i < a.shape.0,
        a.row_pos@[i] <= t_hi <= a.row_pos@[i + 1],
        a.row_pos@[i + 1] <= a.col_pos@.len(),
    ensures
        range_count(0, b.shape.1 as int, touched_upto_fn(a, b, i, t_hi)) <= row_est_upto(
            a,
            b,
            i,
            t_hi,
        ),
    decreases t_hi - a.row_pos@[i],
{
    let n = b.shape.1 as int;
    if t_hi == a.row_pos@[i] {
        assert forall|j: int| 0 <= j < n && #[trigger] touched_upto_fn(a, b, i, t_hi)(j) implies j
            == -1 by {
            assert(!crate::spgemm::touched_upto(a, b, i, j, t_hi));
        }
        lemma_range_count_single(0, n, touched_upto_fn(a, b, i, t_hi), -1);
    } else {
        let t = t_hi - 1;
        lemma_row_count_upto(a, b, i, t);
        let k = a.col_pos@[t] as int;
        assert forall|j: int| 0 <= j < n implies #[trigger] touched_upto_fn(a, b, i, t_hi)(j) == (
        touched_upto_fn(a, b, i, t)(j) || hits_fn(b, k)(j)) by {
            lemma_touched_step(a, b, i, j, t);
        }
        lemma_range_count_or(
            0,
            n,
            touched_upto_fn(a, b, i, t),
            hits_fn(b, k),
            touched_upto_fn(a, b, i, t_hi),
        );
        assert forall|j: int| 0 <= j < n implies #[trigger] hits_fn(b, k)(j) == hits_upto_fn(
            b,
            k,
            b.row_pos@[k + 1] as int,
        )(j) by {}
        lemma_range_count_eq(0, n, hits_fn(b, k), hits_upto_fn(b, k, b.row_pos@[k + 1] as int));
        lemma_hits_count_upto(b, k, n, b.row_pos@[k + 1] as int);
        assert(row_est_upto(a, b, i, t_hi) == row_est_upto(a, b, i, t) + (b.row_pos@[k + 1]
            - b.row_pos@[k as int]));
    }
}

/// Estimator soundness: the predicted size is an upper bound on the entry
/// count of the product, for all operand pairs with compatible shapes whose
/// dense size is addressable. (When `rows * cols` exceeds the machine word,
/// the dense-size clamp itself can undercut the true count.)
pub proof fn lemma_size_prediction_sound(a: &CSR, b: &CSR)
    requires
        a.wf(),
        b.wf(),
        a.shape.1 == b.shape.0,
        a.shape.0 * b.shape.1 <= usize::MAX,
    ensures
        prod_nnz(a, b) <= spec_size_prediction(a, b),
        prod_nnz(a, b) >= 0,
{
    let m = a.shape.0 as int;
    let n = b.shape.1 as int;
    assert forall|i: int| 0 <= i < m implies #[trigger] row_count_fn(a, b)(i) <= row_est_fn(
        a,
        b,
    )(i) by {
        lemma_row_pos_monotone(a, i + 1, m);
        lemma_row_count_upto(a, b, i, a.row_pos@[i + 1] as int);
        assert forall|j: int| 0 <= j < n implies #[trigger] touched_fn(a, b, i)(j)
            == touched_upto_fn(a, b, i, a.row_pos@[i + 1] as int)(j) by {}
        lemma_range_count_eq(
            0,
            n,
            touched_fn(a, b, i),
            touched_upto_fn(a, b, i, a.row_pos@[i + 1] as int),
        );
    }
    lemma_range_sum_le(0, m, row_count_fn(a, b), row_est_fn(a, b));
    assert(prod_nnz(a, b) <= est_sum_upto(a, b, m));
    assert forall|i: int| 0 <= i < m implies #[trigger] row_count_fn(a, b)(i) <= n by {
        lemma_range_count_bounds(0, n, touched_fn(a, b, i));
    }
    lemma_range_sum_const_bound(0, m, row_count_fn(a, b), n);
    assert(prod_nnz(a, b) <= n * m);
    vstd::arithmetic::mul::lemma_mul_is_commutative(n, m);
    assert forall|i: int| 0 <= i < m implies #[trigger] row_count_fn(a, b)(i) >= 0 by {
        lemma_range_count_bounds(0, n, touched_fn(a, b, i));
    }
    crate::sums::lemma_range_sum_nonneg(0, m, row_count_fn(a, b));
}

/// A segment of row `k` of `b` in which no entry has column `j` contributes
/// nothing to that column.
proof fn lemma_col_sum_absent(b: &CSR, k: int, j: int, s_hi: int)
    requires
        0 <= b.row_pos@[k],
        forall|s: int|
            b.row_pos@[k] <= s < s_hi && 0 <= s < b.col_pos@.len() ==> #[trigger] b.col_pos@[s]
                != j,
        s_hi <= b.col_pos@.len(),
    ensures
        col_sum_upto(b, k, j, s_hi) == 0,
{
    assert forall|s: int|
        b.row_pos@[k] <= s < s_hi implies #[trigger] col_summand_fn(b, j)(s) == 0 by {}
    crate::sums::lemma_range_sum_zero(b.row_pos@[k] as int, s_hi, col_summand_fn(b, j));
}

/// A coordinate no contribution reaches has the exact product entry zero.
pub proof fn lemma_untouched_zero(a: &CSR, b: &CSR, i: int, j: int)
    requires
        a.wf(),
        b.wf(),
        a.shape.1 == b.shape.0,
        0 <= i < a.shape.0,
        !touched(a, b, i, j),
    ensures
        prod_at(a, b, i, j) == 0,
{
    lemma_row_pos_monotone(a, i + 1, a.shape.0 as int);
    assert forall|t: int|
        a.row_pos@[i] <= t < a.row_pos@[i + 1] implies #[trigger] prod_summand_fn(a, b, j)(t)
        == 0 by {
        let k = a.col_pos@[t] as int;
        assert(!row_hits(b, k, j)) by {
            if row_hits(b, k, j) {
                assert(touched_upto(a, b, i, j, a.row_pos@[i + 1] as int));
            }
        }
        lemma_row_pos_monotone(b, k + 1, b.shape.0 as int);
        assert forall|s: int|
            b.row_pos@[k] <= s < b.row_pos@[k + 1] && 0 <= s < b.col_pos@.len()
                implies #[trigger] b.col_pos@[s] != j by {
            if b.col_pos@[s] == j {
                assert(row_hits_upto(b, k, j, b.row_pos@[k + 1] as int));
            }
        }
        lemma_col_sum_absent(b, k, j, b.row_pos@[k + 1] as int);
        vstd::arithmetic::mul::lemma_mul_basics(a.values@[t] as int);
    }
    crate::sums::lemma_range_sum_zero(
        a.row_pos@[i] as int,
        a.row_pos@[i + 1] as int,
        prod_summand_fn(a, b, j),
    );
}

/// What a strictly column-sorted row segment sums to at column `j`: the
/// value paired with `j` when the segment holds `j`, and zero otherwise.
proof fn lemma_col_sum_segment(c: &CSR, i: int, tc: Seq<usize>, rv: Seq<u64>, j: int, s_hi: int)
    requires
        c.wf(),
        0 <= i < c.shape.0,
        c.row_pos@[i] <= s_hi <= c.row_pos@[i + 1],
        c.row_pos@[i + 1] <= c.col_pos@.len(),
        c.col_pos@.subrange(c.row_pos@[i] as int, s_hi) == tc,
        c.values@.subrange(c.row_pos@[i] as int, s_hi) == rv,
        rv.len() == tc.len(),
        forall|q1: int, q2: int| 0 <= q1 < q2 < tc.len() ==> #[trigger] tc[q1] < #[trigger] tc[q2],
    ensures
        forall|q0: int|
            0 <= q0 < tc.len() && #[trigger] tc[q0] as int == j ==> col_sum_upto(c, i, j, s_hi)
                == rv[q0],
        (forall|q: int| 0 <= q < tc.len() ==> #[trigger] tc[q] as int != j) ==> col_sum_upto(
            c,
            i,
            j,
            s_hi,
        ) == 0,
    decreases s_hi - c.row_pos@[i],
{
    let lo = c.row_pos@[i] as int;
    if lo < s_hi {
        let sl = s_hi - 1;
        let last = tc.len() - 1;
        assert(c.col_pos@[sl] == tc[last]);
        assert(c.values@[sl] == rv[last]);
        assert(col_sum_upto(c, i, j, s_hi) == col_sum_upto(c, i, j, sl) + col_summand_fn(c, j)(
            sl,
        ));
        assert(c.col_pos@.subrange(lo, sl) =~= tc.drop_last());
        assert(c.values@.subrange(lo, sl) =~= rv.drop_last());
        lemma_col_sum_segment(c, i, tc.drop_last(), rv.drop_last(), j, sl);
        if c.col_pos@[sl] == j {
            // every earlier column of the segment is smaller, hence not j
            assert forall|q: int|
                0 <= q < tc.drop_last().len() implies #[trigger] tc.drop_last()[q] as int != j by {
                assert(tc.drop_last()[q] == tc[q]);
                assert(tc[q] < tc[last]);
            }
            assert(col_sum_upto(c, i, j, sl) == 0);
            assert forall|q0: int|
                0 <= q0 < tc.len() && #[trigger] tc[q0] as int == j implies col_sum_upto(
                c,
                i,
                j,
                s_hi,
            ) == rv[q0] by {
                if q0 < last {
                    assert(tc[q0] < tc[last]);
                }
            }
        } else {
            assert forall|q0: int|
                0 <= q0 < tc.len() && #[trigger] tc[q0] as int == j implies col_sum_upto(
                c,
                i,
                j,
                s_hi,
            ) == rv[q0] by {
                assert(q0 != last);
                assert(tc.drop_last()[q0] == tc[q0]);
                assert(rv.drop_last()[q0] == rv[q0]);
            }
            if forall|q: int| 0 <= q < tc.len() ==> #[trigger] tc[q] as int != j {
                assert forall|q: int|
                    0 <= q < tc.drop_last().len() implies #[trigger] tc.drop_last()[q] as int
                    != j by {
                    assert(tc.drop_last()[q] == tc[q]);
                }
            }
        }
    }
}

/// What one product entry of a produced matrix sums to: the wrapped exact
/// product entry where the coordinate was touched, and nothing elsewhere.
/// The law every executor's output obeys.
pub proof fn lemma_product_entry(a: &CSR, b: &CSR, c: &CSR, i: int, j: int)
    requires
        a.wf(),
        b.wf(),
        is_product(a, b, c),
        0 <= i < a.shape.0,
        0 <= j < b.shape.1,
    ensures
        col_sum(c, i, j) == if touched(a, b, i, j) {
            wrap(prod_at(a, b, i, j))
        } else {
            0
        },
{
    let n = b.shape.1 as int;
    let lo = c.row_pos@[i] as int;
    let hi = c.row_pos@[i + 1] as int;
    lemma_row_pos_monotone(c, i + 1, c.shape.0 as int);
    lemma_row_parts(a, b, i, n);
    let tc = touched_cols(a, b, i);
    let rv = row_vals(a, b, i);
    assert(c.col_pos@.subrange(lo, hi) == tc);
    assert(c.values@.subrange(lo, hi) == rv);
    lemma_col_sum_segment(c, i, tc, rv, j, hi);
    if touched(a, b, i, j) {
        assert(tc.contains(j as usize));
        let q0 = choose|q0: int| 0 <= q0 < tc.len() && #[trigger] tc[q0] == j as usize;
        assert(rv[q0] as int == wrap(prod_at(a, b, i, tc[q0] as int)));
        assert(col_sum(c, i, j) == rv[q0]);
    } else {
        assert forall|q: int| 0 <= q < tc.len() implies #[trigger] tc[q] as int != j by {
            if tc[q] as int == j {
                assert(touched(a, b, i, tc[q] as int));
            }
        }
    }
}

/// Listing a compressed-row matrix as triplets preserves, coordinate by
/// coordinate, what the matrix sums to: the scan below `t_hi` has covered
/// exactly the prefix of row `i`'s segment.
proof fn lemma_sum_at_csr_upto(
    c: &CSR,
    data: Seq<(usize, usize, u64)>,
    i: int,
    j: int,
    t_hi: int,
)
    requires
        c.wf(),
        data.len() == c.nnz(),
        forall|i2: int, t: int|
            0 <= i2 < c.shape.0 && #[trigger] c.owns(i2, t) ==> 0 <= t < data.len() && data[t].0
                == i2 && data[t].1 == c.col_pos@[t] && data[t].2 == c.values@[t],
        0 <= i < c.shape.0,
        0 <= t_hi <= data.len(),
    ensures
        sum_at(data.take(t_hi), i, j) == col_sum_upto(
            c,
            i,
            j,
            imin(t_hi, c.row_pos@[i + 1] as int),
        ),
    decreases t_hi,
{
    let lo = c.row_pos@[i] as int;
    let hi = c.row_pos@[i + 1] as int;
    lemma_row_pos_monotone(c, i + 1, c.shape.0 as int);
    if t_hi == 0 {
        assert(data.take(0).len() == 0);
    } else {
        let t = t_hi - 1;
        lemma_owner_exists(c, t);
        let owner = choose|i2: int| 0 <= i2 < c.shape.0 && #[trigger] c.owns(i2, t);
        assert(data[t].0 == owner);
        assert(data.take(t_hi).drop_last() =~= data.take(t));
        assert(data.take(t_hi)[t_hi - 1] == data[t]);
        lemma_sum_at_csr_upto(c, data, i, j, t);
        if owner == i {
            assert(lo <= t < hi);
            assert(imin(t_hi, hi) == t_hi);
            assert(imin(t, hi) == t);
            assert(c.col_pos@[t] == data[t].1 && c.values@[t] == data[t].2);
            assert(col_sum_upto(c, i, j, t_hi) == col_sum_upto(c, i, j, t) + col_summand_fn(c, j)(
                t,
            ));
        } else {
            assert(data[t].0 != i);
            if t < hi {
                // the owner is an earlier row, so the scan has not reached row i
                if owner < i {
                    lemma_row_pos_monotone(c, owner + 1, i);
                    assert(t < lo);
                    assert(imin(t_hi, hi) <= lo);
                    assert(imin(t, hi) <= lo);
                    assert(col_sum_upto(c, i, j, imin(t_hi, hi)) == 0);
                    assert(col_sum_upto(c, i, j, imin(t, hi)) == 0);
                } else {
                    lemma_row_pos_monotone(c, i + 1, owner);
                    assert(false);
                }
            } else {
                assert(imin(t_hi, hi) == hi);
                assert(imin(t, hi) == hi);
            }
        }
    }
}

/// Round trip: the triplet list a compressed-row matrix expands into sums,
/// at every coordinate, to what the matrix itself sums to there — so dense
/// expansion of the list and of the matrix leave the same values.
pub proof fn lemma_coo_round_trip(c: &CSR, data: Seq<(usize, usize, u64)>)
    requires
        c.wf(),
        data.len() == c.nnz(),
        forall|i2: int, t: int|
            0 <= i2 < c.shape.0 && #[trigger] c.owns(i2, t) ==> 0 <= t < data.len() && data[t].0
                == i2 && data[t].1 == c.col_pos@[t] && data[t].2 == c.values@[t],
    ensures
        forall|i: int, j: int|
            0 <= i < c.shape.0 && 0 <= j < c.shape.1 ==> #[trigger] sum_at(data, i, j) == col_sum(
                c,
                i,
                j,
            ),
{
    assert forall|i: int, j: int|
        0 <= i < c.shape.0 && 0 <= j < c.shape.1 implies #[trigger] sum_at(data, i, j) == col_sum(
        c,
        i,
        j,
    ) by {
        lemma_row_pos_monotone(c, i + 1, c.shape.0 as int);
        lemma_sum_at_csr_upto(c, data, i, j, data.len() as int);
        assert(data.take(data.len() as int) =~= data);
        assert(imin(data.len() as int, c.row_pos@[i + 1] as int) == c.row_pos@[i + 1] as int);
    }
}

/// Cross-backend equivalence: an entry of the sequential executor's output,
/// reduced to the device's 32-bit precision, is exactly the value the
/// accelerator executor stores for the same coordinate, and both executors
/// materialize entries at exactly the touched coordinates.
pub proof fn lemma_cross_backend(a: &CSR, b: &CSR, c: &CSR, i: int, j: int)
    requires
        a.wf(),
        b.wf(),
        is_product(a, b, c),
        0 <= i < a.shape.0,
        0 <= j < b.shape.1,
    ensures
        touched(a, b, i, j) ==> wrap32(col_sum(c, i, j)) == wrap32(prod_at(a, b, i, j)),
        !touched(a, b, i, j) ==> col_sum(c, i, j) == 0,
{
    lemma_product_entry(a, b, c, i, j);
    if touched(a, b, i, j) {
        lemma_wrap32_of_wrap(prod_at(a, b, i, j));
    }
}

/// The hybrid summand of the reindexing argument: for each inner column
/// `k`, what row `i` of `a` has accumulated at `k` so far, times the full
/// column-`j` sum of row `k` of `b`.
spec fn mix_fn(a: &CSR, b: &CSR, i: int, j: int, t: int) -> spec_fn(int) -> int {
    |k: int| col_sum_upto(a, i, k, t) * col_sum(b, k, j)
}

/// Reindexing: summing the product entry by `a`'s stored entries equals
/// summing it by the inner dimension.
proof fn lemma_prod_as_dense_sum(a: &CSR, b: &CSR, i: int, j: int, t_hi: int)
    requires
        a.wf(),
        b.wf(),
        a.shape.1 == b.shape.0,
        0 <= i < a.shape.0,
        a.row_pos@[i] <= t_hi <= a.row_pos@[i + 1],
        a.row_pos@[i + 1] <= a.col_pos@.len(),
    ensures
        range_sum_mix(a, b, i, j, t_hi) == prod_upto(a, b, i, j, t_hi),
    decreases t_hi - a.row_pos@[i],
{
    let p = a.shape.1 as int;
    if t_hi == a.row_pos@[i] {
        assert forall|k: int| 0 <= k < p implies #[trigger] mix_fn(a, b, i, j, t_hi)(k) == 0 by {
            assert(col_sum_upto(a, i, k, t_hi) == 0);
            vstd::arithmetic::mul::lemma_mul_basics(col_sum(b, k, j));
        }
        crate::sums::lemma_range_sum_zero(0, p, mix_fn(a, b, i, j, t_hi));
    } else {
        let t = t_hi - 1;
        lemma_prod_as_dense_sum(a, b, i, j, t);
        let k0 = a.col_pos@[t] as int;
        assert forall|k: int|
            0 <= k < p && k != k0 implies #[trigger] mix_fn(a, b, i, j, t)(k) == mix_fn(
            a,
            b,
            i,
            j,
            t_hi,
        )(k) by {
            assert(col_sum_upto(a, i, k, t_hi) == col_sum_upto(a, i, k, t) + col_summand_fn(a, k)(
                t,
            ));
        }
        assert(col_sum_upto(a, i, k0, t_hi) == col_sum_upto(a, i, k0, t) + a.values@[t]);
        assert(mix_fn(a, b, i, j, t_hi)(k0) - mix_fn(a, b, i, j, t)(k0) == a.values@[t] * col_sum(
            b,
            k0,
            j,
        )) by {
            vstd::arithmetic::mul::lemma_mul_is_distributive_add_other_way(
                col_sum(b, k0, j),
                col_sum_upto(a, i, k0, t),
                a.values@[t] as int,
            );
            vstd::arithmetic::mul::lemma_mul_is_commutative(
                col_sum(b, k0, j),
                col_sum_upto(a, i, k0, t),
            );
            vstd::arithmetic::mul::lemma_mul_is_commutative(col_sum(b, k0, j), a.values@[t] as int);
            vstd::arithmetic::mul::lemma_mul_is_commutative(
                col_sum(b, k0, j),
                col_sum_upto(a, i, k0, t_hi),
            );
        }
        crate::sums::lemma_range_sum_update(
            0,
            p,
            mix_fn(a, b, i, j, t),
            mix_fn(a, b, i, j, t_hi),
            k0,
        );
        assert(prod_upto(a, b, i, j, t_hi) == prod_upto(a, b, i, j, t) + prod_summand_fn(a, b, j)(
            t,
        ));
    }
}

/// The reindexed sum, named so the induction above can speak of it.
spec fn range_sum_mix(a: &CSR, b: &CSR, i: int, j: int, t: int) -> int {
    crate::sums::range_sum(0, a.shape.1 as int, mix_fn(a, b, i, j, t))
}

/// Reference equivalence: the exact product entry of the sparse executors
/// equals, after wrapping, the naive triple-loop product entry computed on
/// the dense expansions of the operands — for all compatible operands,
/// repeated columns included, since dense expansion accumulates exactly as
/// the product does.
pub proof fn lemma_reference_equivalence(
    a: &CSR,
    b: &CSR,
    da: &Dense,
    db: &Dense,
    i: int,
    j: int,
)
    requires
        a.wf(),
        b.wf(),
        a.shape.1 == b.shape.0,
        da.shape == a.shape,
        db.shape == b.shape,
        forall|i2: int, k: int|
            0 <= i2 < a.shape.0 && 0 <= k < a.shape.1 ==> #[trigger] da.at(i2, k) == wrap(
                col_sum(a, i2, k),
            ),
        forall|k: int, j2: int|
            0 <= k < b.shape.0 && 0 <= j2 < b.shape.1 ==> #[trigger] db.at(k, j2) == wrap(
                col_sum(b, k, j2),
            ),
        0 <= i < a.shape.0,
        0 <= j < b.shape.1,
    ensures
        wrap(prod_at(a, b, i, j)) == wrap(dense_prod_at(da, db, i, j)),
{
    let p = a.shape.1 as int;
    let mm = 0x1_0000_0000_0000_0000int;
    lemma_row_pos_monotone(a, i + 1, a.shape.0 as int);
    let full = a.row_pos@[i + 1] as int;
    assert forall|k: int|
        0 <= k < p implies #[trigger] dense_summand_fn(da, db, i, j)(k) % mm == mix_fn(
        a,
        b,
        i,
        j,
        full,
    )(k) % mm by {
        assert(da.at(i, k) == wrap(col_sum(a, i, k)));
        assert(db.at(k, j) == wrap(col_sum(b, k, j)));
        vstd::arithmetic::div_mod::lemma_mul_mod_noop_general(
            col_sum(a, i, k),
            col_sum(b, k, j),
            mm,
        );
        assert(mix_fn(a, b, i, j, full)(k) == col_sum(a, i, k) * col_sum(b, k, j));
    }
    crate::sums::lemma_range_sum_mod(
        0,
        p,
        dense_summand_fn(da, db, i, j),
        mix_fn(a, b, i, j, full),
        mm,
    );
    lemma_prod_as_dense_sum(a, b, i, j, full);
}

/// Reference equivalence, composed end to end: expanding the sequential
/// executor's output to dense leaves, at every coordinate, exactly what the
/// naive triple-loop oracle computes on the dense expansions of the
/// operands — an entry value where the coordinate is touched, and zero
/// where the contributions' columns never reach it.
pub proof fn lemma_dense_of_product_matches_oracle(
    a: &CSR,
    b: &CSR,
    c: &CSR,
    da: &Dense,
    db: &Dense,
    i: int,
    j: int,
)
    requires
        a.wf(),
        b.wf(),
        a.shape.1 == b.shape.0,
        is_product(a, b, c),
        da.shape == a.shape,
        db.shape == b.shape,
        forall|i2: int, k: int|
            0 <= i2 < a.shape.0 && 0 <= k < a.shape.1 ==> #[trigger] da.at(i2, k) == wrap(
                col_sum(a, i2, k),
            ),
        forall|k: int, j2: int|
            0 <= k < b.shape.0 && 0 <= j2 < b.shape.1 ==> #[trigger] db.at(k, j2) == wrap(
                col_sum(b, k, j2),
            ),
        0 <= i < a.shape.0,
        0 <= j < b.shape.1,
    ensures
        wrap(col_sum(c, i, j)) == wrap(dense_prod_at(da, db, i, j)),
{
    lemma_product_entry(a, b, c, i, j);
    lemma_reference_equivalence(a, b, da, db, i, j);
    if touched(a, b, i, j) {
        // wrapping the already-wrapped entry changes nothing
        vstd::arithmetic::div_mod::lemma_mod_twice(
            prod_at(a, b, i, j),
            0x1_0000_0000_0000_0000,
        );
    } else {
        lemma_untouched_zero(a, b, i, j);
        crate::scalar::lemma_wrap_small(0);
    }
}

} // verus!
