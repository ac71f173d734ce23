//! The output-size estimator: for each row of `a`, sum the entry counts of
//! every row of `b` that the row's columns select, then clamp the total to
//! the dense size `rows(a) * cols(b)`. The bound counts one slot per
//! contribution, so it never undercounts the materialized entries.
use vstd::prelude::*;
use crate::csr::CSR;
use crate::csr::lemma_row_pos_monotone;
use crate::sums::range_sum;
use crate::sums::lemma_range_sum_nonneg;

verus! {

/// The smaller of two integers.
pub open spec fn imin(x: int, y: int) -> int {
    if x <= y {
        x
    } else {
        y
    }
}

/// The slots the entries `row_pos[i] .. t_hi` of row `i` of `a` ask for.
pub open spec fn row_est_upto(a: &CSR, b: &CSR, i: int, t_hi: int) -> int {
    range_sum(
        a.row_pos@[i] as int,
        t_hi,
        |t: int| b.row_pos@[a.col_pos@[t] + 1] - b.row_pos@[a.col_pos@[t] as int],
    )
}

/// The slots row `i` of the product asks for: for every entry `(i, k, a)` of
/// `a`, one slot per entry of row `k` of `b`.
pub open spec fn row_est(a: &CSR, b: &CSR, i: int) -> int {
    row_est_upto(a, b, i, a.row_pos@[i + 1] as int)
}

/// The slot count of one row, as a function of the row.
pub open spec fn row_est_fn(a: &CSR, b: &CSR) -> spec_fn(int) -> int {
    |i: int| row_est(a, b, i)
}

/// The slot total of the rows below `i_hi`.
pub open spec fn est_sum_upto(a: &CSR, b: &CSR, i_hi: int) -> int {
    range_sum(0, i_hi, row_est_fn(a, b))
}

/// The slot total of the whole product.
pub open spec fn est_sum(a: &CSR, b: &CSR) -> int {
    est_sum_upto(a, b, a.shape.0 as int)
}

/// What the estimator returns: the slot total, clamped to the dense size
/// and to the machine word.
pub open spec fn spec_size_prediction(a: &CSR, b: &CSR) -> int {
    imin(imin(est_sum(a, b), a.shape.0 * b.shape.1), usize::MAX as int)
}

/// Addition clamped to the machine word.
fn sat_add(x: usize, y: usize) -> (r: usize)
    ensures
        r as int == imin(x + y, usize::MAX as int),
{
    if x <= usize::MAX - y {
        x + y
    } else {
        usize::MAX
    }
}

/// Multiplication clamped to the machine word.
fn sat_mul(x: usize, y: usize) -> (r: usize)
    ensures
        r as int == imin(x * y, usize::MAX as int),
{
    if y == 0 {
        proof {
            vstd::arithmetic::mul::lemma_mul_basics(x as int);
        }
        0
    } else if x <= usize::MAX / y {
        proof {
            vstd::arithmetic::div_mod::lemma_fundamental_div_mod(usize::MAX as int, y as int);
            vstd::arithmetic::div_mod::lemma_mod_division_less_than_divisor(
                usize::MAX as int,
                y as int,
            );
            vstd::arithmetic::mul::lemma_mul_inequality(
                x as int,
                (usize::MAX / y) as int,
                y as int,
            );
            vstd::arithmetic::mul::lemma_mul_is_commutative((usize::MAX / y) as int, y as int);
        }
        x * y
    } else {
        proof {
            vstd::arithmetic::div_mod::lemma_fundamental_div_mod(usize::MAX as int, y as int);
            vstd::arithmetic::div_mod::lemma_mod_division_less_than_divisor(
                usize::MAX as int,
                y as int,
            );
            vstd::arithmetic::mul::lemma_mul_inequality(
                (usize::MAX / y) as int + 1,
                x as int,
                y as int,
            );
            vstd::arithmetic::mul::lemma_mul_is_distributive_add_other_way(
                y as int,
                (usize::MAX / y) as int,
                1,
            );
            vstd::arithmetic::mul::lemma_mul_is_commutative((usize::MAX / y) as int, y as int);
        }
        usize::MAX
    }
}

/// Every per-entry slot count is non-negative.
proof fn lemma_row_est_nonneg(a: &CSR, b: &CSR, i: int, t_hi: int)
    requires
        a.wf(),
        b.wf(),
        a.shape.1 == b.shape.0,
        0 <= i < a.shape.0,
        a.row_pos@[i] <= t_hi <= a.col_pos@.len(),
    ensures
        row_est_upto(a, b, i, t_hi) >= 0,
{
    lemma_range_sum_nonneg(
        a.row_pos@[i] as int,
        t_hi,
        |t: int| b.row_pos@[a.col_pos@[t] + 1] - b.row_pos@[a.col_pos@[t] as int],
    );
}

/// Every per-row slot count is non-negative.
proof fn lemma_est_sum_nonneg(a: &CSR, b: &CSR, i_hi: int)
    requires
        a.wf(),
        b.wf(),
        a.shape.1 == b.shape.0,
        0 <= i_hi <= a.shape.0,
    ensures
        est_sum_upto(a, b, i_hi) >= 0,
{
    assert forall|i: int| 0 <= i < i_hi implies #[trigger] row_est_fn(a, b)(i) >= 0 by {
        lemma_row_pos_monotone(a, i + 1, a.shape.0 as int);
        lemma_row_est_nonneg(a, b, i, a.row_pos@[i + 1] as int);
    }
    lemma_range_sum_nonneg(0, i_hi, row_est_fn(a, b));
}

/// Predict an upper bound for the entry count of `a * b` without computing
/// the product: the per-contribution slot total, clamped to the dense size.
pub fn size_prediction(a: &CSR, b: &CSR) -> (r: usize)
    requires
        a.wf(),
        b.wf(),
        a.shape.1 == b.shape.0,
    ensures
        r as int == spec_size_prediction(a, b),
{
    let m = a.shape.0;
    let mut total: usize = 0;
    let mut i: usize = 0;
    while i < m
        invariant
            a.wf(),
            b.wf(),
            a.shape.1 == b.shape.0,
            m == a.shape.0,
            i <= m,
            total as int == imin(est_sum_upto(a, b, i as int), usize::MAX as int),
        decreases m - i,
    {
        let i0 = a.row_pos[i];
        let i1 = a.row_pos[i + 1];
        proof {
            assert(a.col_pos.len() == a.col_pos@.len());
            lemma_row_pos_monotone(a, i + 1, m as int);
        }
        let mut nnz_i: usize = 0;
        let mut t: usize = i0;
        while t < i1
            invariant
                a.wf(),
                b.wf(),
                a.shape.1 == b.shape.0,
                i < m,
                m == a.shape.0,
                i0 == a.row_pos@[i as int],
                i1 == a.row_pos@[i + 1],
                i0 <= t <= i1,
                i1 <= a.col_pos@.len(),
                nnz_i as int == imin(row_est_upto(a, b, i as int, t as int), usize::MAX as int),
            decreases i1 - t,
        {
            let k = a.col_pos[t];
            let d = b.get_row_nnz(k);
            proof {
                lemma_row_est_nonneg(a, b, i as int, t as int);
            }
            nnz_i = sat_add(nnz_i, d);
            t = t + 1;
        }
        proof {
            lemma_est_sum_nonneg(a, b, i as int);
            assert(est_sum_upto(a, b, i + 1) == est_sum_upto(a, b, i as int) + row_est(
                a,
                b,
                i as int,
            ));
            lemma_row_est_nonneg(a, b, i as int, a.row_pos@[i + 1] as int);
        }
        total = sat_add(total, nnz_i);
        i = i + 1;
    }
    let cap = sat_mul(m, b.shape.1);
    proof {
        vstd::arithmetic::mul::lemma_mul_nonnegative(m as int, b.shape.1 as int);
        lemma_est_sum_nonneg(a, b, m as int);
    }
    if total < cap {
        total
    } else {
        cap
    }
}

} // verus!
