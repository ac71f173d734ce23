//! The product semantics of compressed-row matrices and the row kernel both
//! executors share: a dense accumulator row plus a touched marker row. A
//! product entry `C[i][j]` is the wrapped sum, over the entries `(i, k, a)` of
//! row `i` of `A`, of `a` times the column-`j` sum of row `k` of `B`.
use vstd::prelude::*;
use vstd::pervasive::VecAdditionalExecFns;
use rayon::iter::IndexedParallelIterator;
use rayon::iter::IntoParallelIterator;
use rayon::iter::ParallelIterator;
use crate::csr::CSR;
use crate::csr::lemma_row_pos_monotone;
use crate::csr::col_sum_upto;
use crate::csr::col_sum;
use crate::dense::Dense;
use crate::scalar::wrap;
use crate::scalar::wadd;
use crate::scalar::wmul;
use crate::scalar::lemma_wrap_add_noop;
use crate::sums::range_sum;
use crate::sums::range_count;

verus! {

/// What entry position `t` of `a` contributes to a product entry in
/// column `j`.
pub open spec fn prod_summand_fn(a: &CSR, b: &CSR, j: int) -> spec_fn(int) -> int {
    |t: int| a.values@[t] * col_sum(b, a.col_pos@[t] as int, j)
}

/// The contribution of the entries `row_pos[i] .. t_hi` of row `i` of `a`
/// to the product entry at `(i, j)`, before wrapping.
pub open spec fn prod_upto(a: &CSR, b: &CSR, i: int, j: int, t_hi: int) -> int {
    range_sum(a.row_pos@[i] as int, t_hi, prod_summand_fn(a, b, j))
}

/// The exact (unwrapped) product entry at `(i, j)`.
pub open spec fn prod_at(a: &CSR, b: &CSR, i: int, j: int) -> int {
    prod_upto(a, b, i, j, a.row_pos@[i + 1] as int)
}

/// Row `k` of `b` holds an entry of column `j` among positions
/// `row_pos[k] .. s_hi`.
pub open spec fn row_hits_upto(b: &CSR, k: int, j: int, s_hi: int) -> bool {
    exists|s: int| b.row_pos@[k] <= s < s_hi && (#[trigger] b.col_pos@[s]) == j
}

/// Row `k` of `b` holds an entry of column `j`.
pub open spec fn row_hits(b: &CSR, k: int, j: int) -> bool {
    row_hits_upto(b, k, j, b.row_pos@[k + 1] as int)
}

/// Some entry among positions `row_pos[i] .. t_hi` of row `i` of `a` reaches
/// column `j` of the product.
pub open spec fn touched_upto(a: &CSR, b: &CSR, i: int, j: int, t_hi: int) -> bool {
    exists|t: int|
        a.row_pos@[i] <= t < t_hi && #[trigger] row_hits(b, a.col_pos@[t] as int, j)
}

/// The product entry at `(i, j)` receives at least one contribution. Whether
/// the contributions cancel or not, the executors materialize the entry.
pub open spec fn touched(a: &CSR, b: &CSR, i: int, j: int) -> bool {
    touched_upto(a, b, i, j, a.row_pos@[i + 1] as int)
}

/// Scanning one more entry of row `k` of `b` extends the hit predicate by
/// exactly that entry's column.
pub proof fn lemma_hits_step(b: &CSR, k: int, j: int, s: int)
    requires
        b.row_pos@[k] <= s,
    ensures
        row_hits_upto(b, k, j, s + 1) == (row_hits_upto(b, k, j, s) || b.col_pos@[s] == j),
{
    if row_hits_upto(b, k, j, s + 1) {
        let w = choose|w: int| b.row_pos@[k] <= w < s + 1 && (#[trigger] b.col_pos@[w]) == j;
        if w < s {
            assert(row_hits_upto(b, k, j, s));
        }
    }
    if row_hits_upto(b, k, j, s) {
        let w = choose|w: int| b.row_pos@[k] <= w < s && (#[trigger] b.col_pos@[w]) == j;
        assert(b.row_pos@[k] <= w < s + 1 && b.col_pos@[w] == j);
    }
    if b.col_pos@[s] == j {
        assert(b.row_pos@[k] <= s < s + 1 && b.col_pos@[s] == j);
    }
}

/// Scanning one more entry of row `i` of `a` extends the touched predicate by
/// exactly the hits of that entry's row of `b`.
pub proof fn lemma_touched_step(a: &CSR, b: &CSR, i: int, j: int, t: int)
    requires
        a.row_pos@[i] <= t,
    ensures
        touched_upto(a, b, i, j, t + 1) == (touched_upto(a, b, i, j, t) || row_hits(
            b,
            a.col_pos@[t] as int,
            j,
        )),
{
    if touched_upto(a, b, i, j, t + 1) {
        let w = choose|w: int|
            a.row_pos@[i] <= w < t + 1 && #[trigger] row_hits(b, a.col_pos@[w] as int, j);
        if w < t {
            assert(touched_upto(a, b, i, j, t));
        }
    }
    if touched_upto(a, b, i, j, t) {
        let w = choose|w: int|
            a.row_pos@[i] <= w < t && #[trigger] row_hits(b, a.col_pos@[w] as int, j);
        assert(a.row_pos@[i] <= w < t + 1 && row_hits(b, a.col_pos@[w] as int, j));
    }
    if row_hits(b, a.col_pos@[t] as int, j) {
        assert(a.row_pos@[i] <= t < t + 1 && row_hits(b, a.col_pos@[t] as int, j));
    }
}

/// The shared row kernel, accumulation phase: a dense accumulator row of
/// width `cols(b)` with the wrapped partial sums, and a marker row that
/// records which columns were reached.
pub(crate) fn accumulate_row(a: &CSR, b: &CSR, i: usize) -> (r: (Vec<u64>, Vec<bool>))
    requires
        a.wf(),
        b.wf(),
        a.shape.1 == b.shape.0,
        i < a.shape.0,
    ensures
        r.0@.len() == b.shape.1,
        r.1@.len() == b.shape.1,
        forall|j: int|
            0 <= j < b.shape.1 ==> #[trigger] r.0@[j] as int == wrap(prod_at(a, b, i as int, j)),
        forall|j: int| 0 <= j < b.shape.1 ==> #[trigger] r.1@[j] == touched(a, b, i as int, j),
{
    let n = b.shape.1;
    let mut acc: Vec<u64> = Vec::new();
    let mut marker: Vec<bool> = Vec::new();
    let mut q: usize = 0;
    while q < n
        invariant
            q <= n,
            acc@.len() == q,
            marker@.len() == q,
            forall|j: int| 0 <= j < q ==> acc@[j] == 0,
            forall|j: int| 0 <= j < q ==> marker@[j] == false,
        decreases n - q,
    {
        acc.push(0);
        marker.push(false);
        q = q + 1;
    }
    let start = a.row_pos[i];
    let end = a.row_pos[i + 1];
    proof {
        assert(a.col_pos.len() == a.col_pos@.len());
        lemma_row_pos_monotone(a, i + 1, a.shape.0 as int);
    }
    let mut t: usize = start;
    while t < end
        invariant
            a.wf(),
            b.wf(),
            a.shape.1 == b.shape.0,
            i < a.shape.0,
            n == b.shape.1,
            start == a.row_pos@[i as int],
            end == a.row_pos@[i + 1],
            start <= t <= end,
            end <= a.col_pos@.len(),
            acc@.len() == n,
            marker@.len() == n,
            forall|j: int|
                0 <= j < n ==> #[trigger] acc@[j] as int == wrap(
                    prod_upto(a, b, i as int, j, t as int),
                ),
            forall|j: int|
                0 <= j < n ==> #[trigger] marker@[j] == touched_upto(a, b, i as int, j, t as int),
        decreases end - t,
    {
        let k = a.col_pos[t];
        let av = a.values[t];
        let s_start = b.row_pos[k];
        let s_end = b.row_pos[k + 1];
        proof {
            assert(b.col_pos.len() == b.col_pos@.len());
            lemma_row_pos_monotone(b, k + 1, b.shape.0 as int);
        }
        let mut s: usize = s_start;
        while s < s_end
            invariant
                a.wf(),
                b.wf(),
                a.shape.1 == b.shape.0,
                i < a.shape.0,
                n == b.shape.1,
                start == a.row_pos@[i as int],
                end == a.row_pos@[i + 1],
                start <= t < end,
                end <= a.col_pos@.len(),
                k == a.col_pos@[t as int],
                k < b.shape.0,
                av == a.values@[t as int],
                s_start == b.row_pos@[k as int],
                s_end == b.row_pos@[k + 1],
                s_start <= s <= s_end,
                s_end <= b.col_pos@.len(),
                acc@.len() == n,
                marker@.len() == n,
                forall|j: int|
                    0 <= j < n ==> #[trigger] acc@[j] as int == wrap(
                        prod_upto(a, b, i as int, j, t as int) + av * col_sum_upto(
                            b,
                            k as int,
                            j,
                            s as int,
                        ),
                    ),
                forall|j: int|
                    0 <= j < n ==> #[trigger] marker@[j] == (touched_upto(
                        a,
                        b,
                        i as int,
                        j,
                        t as int,
                    ) || row_hits_upto(b, k as int, j, s as int)),
            decreases s_end - s,
        {
            let j0 = b.col_pos[s];
            let bv = b.values[s];
            let ghost prev_acc = acc@;
            let ghost prev_marker = marker@;
            let cur = acc[j0];
            let newv = wadd(cur, wmul(av, bv));
            acc.set(j0, newv);
            marker.set(j0, true);
            proof {
                let gi = i as int;
                let gk = k as int;
                let gs = s as int;
                let gt = t as int;
                assert forall|j: int|
                    0 <= j < n implies #[trigger] acc@[j] as int == wrap(
                    prod_upto(a, b, gi, j, gt) + av * col_sum_upto(b, gk, j, gs + 1),
                ) by {
                    let p = prod_upto(a, b, gi, j, gt);
                    let cs = col_sum_upto(b, gk, j, gs);
                    if j == j0 {
                        assert(col_sum_upto(b, gk, j, gs + 1) == cs + bv);
                        assert(newv as int == wrap(wrap(p + av * cs) + wrap(av * bv)));
                        lemma_wrap_add_noop(p + av * cs, wrap(av * bv) as int);
                        lemma_wrap_add_noop(av * bv, p + av * cs);
                        assert(wrap(p + av * cs + wrap(av * bv)) == wrap(
                            wrap(av * bv) + (p + av * cs),
                        ));
                        assert(newv as int == wrap(p + av * cs + av * bv));
                        vstd::arithmetic::mul::lemma_mul_is_distributive_add(
                            av as int,
                            cs,
                            bv as int,
                        );
                        assert(p + av * cs + av * bv == p + av * (cs + bv));
                    } else {
                        assert(col_sum_upto(b, gk, j, gs + 1) == cs);
                        assert(acc@[j] == prev_acc[j]);
                    }
                }
                assert forall|j: int|
                    0 <= j < n implies #[trigger] marker@[j] == (touched_upto(a, b, gi, j, gt)
                    || row_hits_upto(b, gk, j, gs + 1)) by {
                    lemma_hits_step(b, gk, j, gs);
                    if j != j0 {
                        assert(marker@[j] == prev_marker[j]);
                    }
                }
            }
            s = s + 1;
        }
        proof {
            let gi = i as int;
            let gk = k as int;
            let gt = t as int;
            assert forall|j: int|
                0 <= j < n implies #[trigger] acc@[j] as int == wrap(
                prod_upto(a, b, gi, j, gt + 1),
            ) by {
                assert(prod_upto(a, b, gi, j, gt + 1) == prod_upto(a, b, gi, j, gt) + a.values@[gt]
                    * col_sum(b, a.col_pos@[gt] as int, j));
            }
            assert forall|j: int|
                0 <= j < n implies #[trigger] marker@[j] == touched_upto(
                a,
                b,
                gi,
                j,
                gt + 1,
            ) by {
                lemma_touched_step(a, b, gi, j, gt);
            }
        }
        t = t + 1;
    }
    (acc, marker)
}

/// The columns of row `i` of the product that lie below `jmax`, ascending:
/// exactly those the kernel's marker row flags.
pub open spec fn touched_cols_upto(a: &CSR, b: &CSR, i: int, jmax: int) -> Seq<usize>
    decreases jmax,
{
    if jmax <= 0 {
        Seq::empty()
    } else if touched(a, b, i, jmax - 1) {
        touched_cols_upto(a, b, i, jmax - 1).push((jmax - 1) as usize)
    } else {
        touched_cols_upto(a, b, i, jmax - 1)
    }
}

/// The columns of row `i` of the product, ascending.
pub open spec fn touched_cols(a: &CSR, b: &CSR, i: int) -> Seq<usize> {
    touched_cols_upto(a, b, i, b.shape.1 as int)
}

/// The wrapped values of row `i` of the product below column `jmax`, in the
/// order of `touched_cols_upto`.
pub open spec fn row_vals_upto(a: &CSR, b: &CSR, i: int, jmax: int) -> Seq<u64>
    decreases jmax,
{
    if jmax <= 0 {
        Seq::empty()
    } else if touched(a, b, i, jmax - 1) {
        row_vals_upto(a, b, i, jmax - 1).push(wrap(prod_at(a, b, i, jmax - 1)) as u64)
    } else {
        row_vals_upto(a, b, i, jmax - 1)
    }
}

/// The wrapped values of row `i` of the product, in column order.
pub open spec fn row_vals(a: &CSR, b: &CSR, i: int) -> Seq<u64> {
    row_vals_upto(a, b, i, b.shape.1 as int)
}

/// Shape and content of the compacted row: ascending columns below `jmax`,
/// flagged exactly by `touched`, each paired with its wrapped product entry.
pub proof fn lemma_row_parts(a: &CSR, b: &CSR, i: int, jmax: int)
    ensures
        touched_cols_upto(a, b, i, jmax).len() == row_vals_upto(a, b, i, jmax).len(),
        forall|q: int|
            0 <= q < touched_cols_upto(a, b, i, jmax).len() ==> 0 <= #[trigger] touched_cols_upto(
                a,
                b,
                i,
                jmax,
            )[q] < jmax,
        forall|q: int|
            0 <= q < touched_cols_upto(a, b, i, jmax).len() ==> touched(
                a,
                b,
                i,
                #[trigger] touched_cols_upto(a, b, i, jmax)[q] as int,
            ),
        forall|q: int|
            0 <= q < touched_cols_upto(a, b, i, jmax).len() ==> #[trigger] row_vals_upto(
                a,
                b,
                i,
                jmax,
            )[q] as int == wrap(prod_at(a, b, i, touched_cols_upto(a, b, i, jmax)[q] as int)),
        forall|q1: int, q2: int|
            0 <= q1 < q2 < touched_cols_upto(a, b, i, jmax).len() ==> #[trigger] touched_cols_upto(
                a,
                b,
                i,
                jmax,
            )[q1] < #[trigger] touched_cols_upto(a, b, i, jmax)[q2],
        forall|j: int|
            0 <= j < jmax && #[trigger] touched(a, b, i, j) ==> touched_cols_upto(
                a,
                b,
                i,
                jmax,
            ).contains(j as usize),
    decreases jmax,
{
    if jmax > 0 {
        lemma_row_parts(a, b, i, jmax - 1);
        if touched(a, b, i, jmax - 1) {
            assert(touched_cols_upto(a, b, i, jmax).last() == (jmax - 1) as usize);
        }
        assert forall|j: int|
            0 <= j < jmax && #[trigger] touched(a, b, i, j) implies touched_cols_upto(
            a,
            b,
            i,
            jmax,
        ).contains(j as usize) by {
            if j < jmax - 1 {
                assert(touched_cols_upto(a, b, i, jmax - 1).contains(j as usize));
                let q = choose|q: int|
                    0 <= q < touched_cols_upto(a, b, i, jmax - 1).len()
                        && #[trigger] touched_cols_upto(a, b, i, jmax - 1)[q] == j as usize;
                assert(touched_cols_upto(a, b, i, jmax)[q] == j as usize);
            } else {
                let s = touched_cols_upto(a, b, i, jmax);
                assert(s[s.len() - 1] == j as usize);
            }
        }
    }
}

/// The shared row kernel: accumulate, then compact the touched columns in
/// ascending column order.
pub fn spgemm_row(a: &CSR, b: &CSR, i: usize) -> (r: (Vec<usize>, Vec<u64>))
    requires
        a.wf(),
        b.wf(),
        a.shape.1 == b.shape.0,
        i < a.shape.0,
    ensures
        r.0@ == touched_cols(a, b, i as int),
        r.1@ == row_vals(a, b, i as int),
{
    let (acc, marker) = accumulate_row(a, b, i);
    let n = b.shape.1;
    let mut cols: Vec<usize> = Vec::new();
    let mut vals: Vec<u64> = Vec::new();
    let mut j: usize = 0;
    while j < n
        invariant
            acc@.len() == n,
            marker@.len() == n,
            forall|j2: int|
                0 <= j2 < n ==> #[trigger] acc@[j2] as int == wrap(prod_at(a, b, i as int, j2)),
            forall|j2: int|
                0 <= j2 < n ==> #[trigger] marker@[j2] == touched(a, b, i as int, j2),
            j <= n,
            cols@ == touched_cols_upto(a, b, i as int, j as int),
            vals@ == row_vals_upto(a, b, i as int, j as int),
        decreases n - j,
    {
        if marker[j] {
            cols.push(j);
            vals.push(acc[j]);
        }
        proof {
            assert(cols@ =~= touched_cols_upto(a, b, i as int, j + 1));
            assert(vals@ =~= row_vals_upto(a, b, i as int, j + 1));
        }
        j = j + 1;
    }
    (cols, vals)
}

/// `c` is the product of `a` and `b`: row `i` of `c` holds exactly the
/// touched columns of the product row, ascending, with the wrapped entries.
pub open spec fn is_product(a: &CSR, b: &CSR, c: &CSR) -> bool {
    &&& a.shape.1 == b.shape.0
    &&& c.shape.0 == a.shape.0
    &&& c.shape.1 == b.shape.1
    &&& c.wf()
    &&& forall|i: int|
        0 <= i < c.shape.0 ==> #[trigger] c.col_pos@.subrange(
            c.row_pos@[i] as int,
            c.row_pos@[i + 1] as int,
        ) == touched_cols(a, b, i) && c.values@.subrange(
            c.row_pos@[i] as int,
            c.row_pos@[i + 1] as int,
        ) == row_vals(a, b, i)
}

/// A subrange inside the original part of a concatenation ignores the tail.
proof fn lemma_subrange_concat<T>(s: Seq<T>, ext: Seq<T>, lo: int, hi: int)
    requires
        0 <= lo <= hi <= s.len(),
    ensures
        (s + ext).subrange(lo, hi) == s.subrange(lo, hi),
{
    assert((s + ext).subrange(lo, hi) =~= s.subrange(lo, hi));
}

/// The subrange covering the tail of a concatenation is the tail.
proof fn lemma_subrange_concat_tail<T>(s: Seq<T>, ext: Seq<T>)
    ensures
        (s + ext).subrange(s.len() as int, (s.len() + ext.len()) as int) == ext,
{
    assert((s + ext).subrange(s.len() as int, (s.len() + ext.len()) as int) =~= ext);
}

/// The columns of every product row below row `i`, flattened in row order.
pub open spec fn flat_cols(a: &CSR, b: &CSR, i: int) -> Seq<usize>
    decreases i,
{
    if i <= 0 {
        Seq::empty()
    } else {
        flat_cols(a, b, i - 1) + touched_cols(a, b, i - 1)
    }
}

/// The values of every product row below row `i`, flattened in row order.
pub open spec fn flat_vals(a: &CSR, b: &CSR, i: int) -> Seq<u64>
    decreases i,
{
    if i <= 0 {
        Seq::empty()
    } else {
        flat_vals(a, b, i - 1) + row_vals(a, b, i - 1)
    }
}

/// The flattened arrays stay aligned, columns stay in range, and prefix
/// lengths never decrease.
proof fn lemma_flat_props(a: &CSR, b: &CSR, i: int)
    requires
        b.shape.1 <= usize::MAX,
    ensures
        flat_cols(a, b, i).len() == flat_vals(a, b, i).len(),
        forall|t: int|
            0 <= t < flat_cols(a, b, i).len() ==> #[trigger] flat_cols(a, b, i)[t] < b.shape.1,
        i >= 1 ==> flat_cols(a, b, i - 1).len() <= flat_cols(a, b, i).len(),
    decreases i,
{
    if i > 0 {
        lemma_flat_props(a, b, i - 1);
        lemma_row_parts(a, b, i - 1, b.shape.1 as int);
    }
}

/// Cutting the flattened arrays at the prefix lengths of row `r` recovers
/// exactly row `r`.
proof fn lemma_flat_subrange(a: &CSR, b: &CSR, i: int, r: int)
    requires
        0 <= r < i,
    ensures
        flat_cols(a, b, r).len() <= flat_cols(a, b, r + 1).len() <= flat_cols(a, b, i).len(),
        flat_cols(a, b, i).subrange(
            flat_cols(a, b, r).len() as int,
            flat_cols(a, b, r + 1).len() as int,
        ) == touched_cols(a, b, r),
        flat_vals(a, b, r).len() == flat_cols(a, b, r).len(),
        flat_vals(a, b, r + 1).len() == flat_cols(a, b, r + 1).len(),
        flat_vals(a, b, i).len() == flat_cols(a, b, i).len(),
        flat_vals(a, b, i).subrange(
            flat_cols(a, b, r).len() as int,
            flat_cols(a, b, r + 1).len() as int,
        ) == row_vals(a, b, r),
    decreases i,
{
    lemma_row_parts(a, b, r, b.shape.1 as int);
    lemma_row_parts(a, b, i - 1, b.shape.1 as int);
    if r == i - 1 {
        assert(flat_cols(a, b, r).len() == flat_vals(a, b, r).len()) by {
            lemma_flat_lens(a, b, r);
        }
        lemma_subrange_concat_tail(flat_cols(a, b, r), touched_cols(a, b, r));
        lemma_subrange_concat_tail(flat_vals(a, b, r), row_vals(a, b, r));
    } else {
        lemma_flat_subrange(a, b, i - 1, r);
        lemma_subrange_concat(
            flat_cols(a, b, i - 1),
            touched_cols(a, b, i - 1),
            flat_cols(a, b, r).len() as int,
            flat_cols(a, b, r + 1).len() as int,
        );
        lemma_subrange_concat(
            flat_vals(a, b, i - 1),
            row_vals(a, b, i - 1),
            flat_cols(a, b, r).len() as int,
            flat_cols(a, b, r + 1).len() as int,
        );
    }
}

/// The two flattened arrays always have the same length.
proof fn lemma_flat_lens(a: &CSR, b: &CSR, i: int)
    ensures
        flat_cols(a, b, i).len() == flat_vals(a, b, i).len(),
    decreases i,
{
    if i > 0 {
        lemma_flat_lens(a, b, i - 1);
        lemma_row_parts(a, b, i - 1, b.shape.1 as int);
    }
}

/// Flatten per-row results, in row order, into one compressed-row matrix;
/// `row_pos` is the running prefix sum of the row lengths.
fn assemble_rows(a: &CSR, b: &CSR, rows: &Vec<(Vec<usize>, Vec<u64>)>) -> (c: CSR)
    requires
        a.wf(),
        b.wf(),
        a.shape.1 == b.shape.0,
        rows@.len() == a.shape.0,
        forall|i: int|
            0 <= i < rows@.len() ==> (#[trigger] rows@[i]).0@ == touched_cols(a, b, i)
                && rows@[i].1@ == row_vals(a, b, i),
    ensures
        is_product(a, b, &c),
{
    let m = a.shape.0;
    let n = b.shape.1;
    let mut row_pos: Vec<usize> = Vec::new();
    let mut col_pos: Vec<usize> = Vec::new();
    let mut values: Vec<u64> = Vec::new();
    row_pos.push(0);
    let mut i: usize = 0;
    while i < m
        invariant
            a.wf(),
            b.wf(),
            a.shape.1 == b.shape.0,
            m == a.shape.0,
            n == b.shape.1,
            rows@.len() == m,
            forall|i2: int|
                0 <= i2 < rows@.len() ==> (#[trigger] rows@[i2]).0@ == touched_cols(a, b, i2)
                    && rows@[i2].1@ == row_vals(a, b, i2),
            i <= m,
            row_pos@.len() == i + 1,
            col_pos@ == flat_cols(a, b, i as int),
            values@ == flat_vals(a, b, i as int),
            forall|r: int|
                0 <= r <= i ==> #[trigger] row_pos@[r] == flat_cols(a, b, r).len(),
        decreases m - i,
    {
        let row = &rows[i];
        let ghost prev_cp = col_pos@;
        let ghost prev_v = values@;
        let mut q: usize = 0;
        let row_len = row.0.len();
        proof {
            lemma_row_parts(a, b, i as int, n as int);
        }
        while q < row_len
            invariant
                row.0@ == touched_cols(a, b, i as int),
                row.1@ == row_vals(a, b, i as int),
                row_len == row.0@.len(),
                row.1@.len() == row_len,
                q <= row_len,
                col_pos@ == prev_cp + row.0@.take(q as int),
                values@ == prev_v + row.1@.take(q as int),
            decreases row_len - q,
        {
            col_pos.push(row.0[q]);
            values.push(row.1[q]);
            proof {
                assert(col_pos@ =~= prev_cp + row.0@.take(q + 1));
                assert(values@ =~= prev_v + row.1@.take(q + 1));
            }
            q = q + 1;
        }
        proof {
            assert(row.0@.take(row_len as int) =~= row.0@);
            assert(row.1@.take(row_len as int) =~= row.1@);
            assert(col_pos@ == flat_cols(a, b, i + 1));
            assert(values@ == flat_vals(a, b, i + 1));
            assert(col_pos.len() == col_pos@.len());
        }
        row_pos.push(col_pos.len());
        i = i + 1;
    }
    let c = CSR { row_pos, col_pos, values, shape: (m, n) };
    proof {
        lemma_flat_props(a, b, m as int);
        assert(c.wf()) by {
            assert forall|r: int|
                0 <= r < c.shape.0 implies #[trigger] c.row_pos@[r] <= c.row_pos@[r + 1] by {
                lemma_flat_subrange(a, b, m as int, r);
            }
            assert(c.row_pos@[c.shape.0 as int] == c.nnz());
        }
        assert forall|r: int|
            0 <= r < c.shape.0 implies #[trigger] c.col_pos@.subrange(
            c.row_pos@[r] as int,
            c.row_pos@[r + 1] as int,
        ) == touched_cols(a, b, r) && c.values@.subrange(
            c.row_pos@[r] as int,
            c.row_pos@[r + 1] as int,
        ) == row_vals(a, b, r) by {
            lemma_flat_subrange(a, b, m as int, r);
        }
    }
    c
}

impl CSR {
    /// The sequential executor: C = self * other in compressed-row form,
    /// row by row through the shared kernel. Fails fast, before any row
    /// work, when the inner dimensions disagree.
    pub fn product_sparse(&self, other: &CSR) -> (res: Result<CSR, crate::MatMulError>)
        requires
            self.wf(),
            other.wf(),
        ensures
            match res {
                Ok(c) => self.shape.1 == other.shape.0 && is_product(self, other, &c),
                Err(e) => self.shape.1 != other.shape.0 && e == crate::MatMulError::DimensionMismatch,
            },
    {
        if self.shape.1 != other.shape.0 {
            return Err(crate::MatMulError::DimensionMismatch);
        }
        let m = self.shape.0;
        let mut rows: Vec<(Vec<usize>, Vec<u64>)> = Vec::new();
        let mut i: usize = 0;
        while i < m
            invariant
                self.wf(),
                other.wf(),
                self.shape.1 == other.shape.0,
                m == self.shape.0,
                i <= m,
                rows@.len() == i,
                forall|i2: int|
                    0 <= i2 < i ==> (#[trigger] rows@[i2]).0@ == touched_cols(self, other, i2)
                        && rows@[i2].1@ == row_vals(self, other, i2),
            decreases m - i,
        {
            let row = spgemm_row(self, other, i);
            rows.push(row);
            i = i + 1;
        }
        Ok(assemble_rows(self, other, &rows))
    }

    /// The parallel executor: one independent task per output row, results
    /// gathered in row order, then flattened exactly as the sequential path.
    pub fn product_sparse_par(&self, other: &CSR) -> (res: Result<CSR, crate::MatMulError>)
        requires
            self.wf(),
            other.wf(),
        ensures
            match res {
                Ok(c) => self.shape.1 == other.shape.0 && is_product(self, other, &c),
                Err(e) => self.shape.1 != other.shape.0 && e == crate::MatMulError::DimensionMismatch,
            },
    {
        if self.shape.1 != other.shape.0 {
            return Err(crate::MatMulError::DimensionMismatch);
        }
        let rows = par_rows(self, other);
        Ok(assemble_rows(self, other, &rows))
    }

    /// The sequential executor with a dense result: every position of the
    /// output row receives its wrapped product entry, touched or not.
    pub fn product(&self, other: &CSR) -> (res: Result<Dense, crate::MatMulError>)
        requires
            self.wf(),
            other.wf(),
            self.shape.0 * other.shape.1 <= usize::MAX,
        ensures
            match res {
                Ok(d) => {
                    &&& self.shape.1 == other.shape.0
                    &&& d.wf()
                    &&& d.shape.0 == self.shape.0
                    &&& d.shape.1 == other.shape.1
                    &&& forall|i: int, j: int|
                        0 <= i < self.shape.0 && 0 <= j < other.shape.1 ==> #[trigger] d.at(i, j)
                            == wrap(prod_at(self, other, i, j))
                },
                Err(e) => self.shape.1 != other.shape.0 && e == crate::MatMulError::DimensionMismatch,
            },
    {
        if self.shape.1 != other.shape.0 {
            return Err(crate::MatMulError::DimensionMismatch);
        }
        let m = self.shape.0;
        let n = other.shape.1;
        let mut mat = Dense::new_zeros((m, n));
        let mut i: usize = 0;
        while i < m
            invariant
                self.wf(),
                other.wf(),
                self.shape.1 == other.shape.0,
                m == self.shape.0,
                n == other.shape.1,
                i <= m,
                mat.wf(),
                mat.shape.0 == m,
                mat.shape.1 == n,
                forall|i2: int, j: int|
                    0 <= i2 < i && 0 <= j < n ==> #[trigger] mat.at(i2, j) == wrap(
                        prod_at(self, other, i2, j),
                    ),
            decreases m - i,
        {
            let (acc, _marker) = accumulate_row(self, other, i);
            let mut j: usize = 0;
            while j < n
                invariant
                    self.wf(),
                    other.wf(),
                    self.shape.1 == other.shape.0,
                    m == self.shape.0,
                    n == other.shape.1,
                    i < m,
                    j <= n,
                    acc@.len() == n,
                    forall|j2: int|
                        0 <= j2 < n ==> #[trigger] acc@[j2] as int == wrap(
                            prod_at(self, other, i as int, j2),
                        ),
                    mat.wf(),
                    mat.shape.0 == m,
                    mat.shape.1 == n,
                    forall|i2: int, j2: int|
                        0 <= i2 < i && 0 <= j2 < n ==> #[trigger] mat.at(i2, j2) == wrap(
                            prod_at(self, other, i2, j2),
                        ),
                    forall|j2: int|
                        0 <= j2 < j ==> #[trigger] mat.at(i as int, j2) == wrap(
                            prod_at(self, other, i as int, j2),
                        ),
                decreases n - j,
            {
                mat.set(i, j, acc[j]);
                j = j + 1;
            }
            i = i + 1;
        }
        Ok(mat)
    }
}

/// The touched predicate of row `i`, as a function of the column.
pub open spec fn touched_fn(a: &CSR, b: &CSR, i: int) -> spec_fn(int) -> bool {
    |j: int| touched(a, b, i, j)
}

/// The touched-so-far predicate of row `i` after `t_hi` scanned entries.
pub open spec fn touched_upto_fn(a: &CSR, b: &CSR, i: int, t_hi: int) -> spec_fn(int) -> bool {
    |j: int| touched_upto(a, b, i, j, t_hi)
}

/// The hit predicate of row `k` of `b`, as a function of the column.
pub open spec fn hits_fn(b: &CSR, k: int) -> spec_fn(int) -> bool {
    |j: int| row_hits(b, k, j)
}

/// The hit-so-far predicate of row `k` of `b` after positions below `s_hi`.
pub open spec fn hits_upto_fn(b: &CSR, k: int, s_hi: int) -> spec_fn(int) -> bool {
    |j: int| row_hits_upto(b, k, j, s_hi)
}

/// The entry count of one product row, as a function of the row.
pub open spec fn row_count_fn(a: &CSR, b: &CSR) -> spec_fn(int) -> int {
    |i: int| range_count(0, b.shape.1 as int, touched_fn(a, b, i))
}

/// How many entries the product rows below `i_hi` materialize: per row, the
/// count of touched columns.
pub open spec fn prod_nnz_upto(a: &CSR, b: &CSR, i_hi: int) -> int {
    range_sum(0, i_hi, row_count_fn(a, b))
}

/// How many entries the product materializes: its true entry count.
pub open spec fn prod_nnz(a: &CSR, b: &CSR) -> int {
    prod_nnz_upto(a, b, a.shape.0 as int)
}

/// The compacted row is as long as the count of its touched columns.
pub proof fn lemma_touched_cols_len(a: &CSR, b: &CSR, i: int, jmax: int)
    ensures
        touched_cols_upto(a, b, i, jmax).len() == range_count(0, jmax, touched_fn(a, b, i)),
    decreases jmax,
{
    if jmax > 0 {
        lemma_touched_cols_len(a, b, i, jmax - 1);
        assert(touched_fn(a, b, i)(jmax - 1) == touched(a, b, i, jmax - 1));
    } else {
        assert(range_count(0, jmax, touched_fn(a, b, i)) == 0);
    }
}

/// The flattened rows hold exactly the product's entry count.
pub proof fn lemma_flat_cols_len(a: &CSR, b: &CSR, i: int)
    ensures
        flat_cols(a, b, i).len() == prod_nnz_upto(a, b, i),
    decreases i,
{
    if i > 0 {
        lemma_flat_cols_len(a, b, i - 1);
        lemma_touched_cols_len(a, b, i - 1, b.shape.1 as int);
    }
}

/// Relies on rayon's `IndexedParallelIterator::collect_into_vec`: mapping an
/// indexed parallel iterator over `0 .. m` and collecting yields one element
/// per index, in index order. The closure only calls the verified row kernel.
#[verifier::external_body]
fn par_rows(a: &CSR, b: &CSR) -> (r: Vec<(Vec<usize>, Vec<u64>)>)
    requires
        a.wf(),
        b.wf(),
        a.shape.1 == b.shape.0,
    ensures
        r@.len() == a.shape.0,
        forall|i: int|
            0 <= i < r@.len() ==> (#[trigger] r@[i]).0@ == touched_cols(a, b, i) && r@[i].1@
                == row_vals(a, b, i),
{
    let mut rows = Vec::new();
    (0..a.shape.0).into_par_iter().map(|i| spgemm_row(a, b, i)).collect_into_vec(&mut rows);
    rows
}

} // verus!
