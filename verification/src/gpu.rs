//! The accelerator executor, modeled end to end: operands are transcoded to
//! the device's narrower words (32-bit indices, values reduced to the low
//! 32-bit word), rows are partitioned into contiguous batches of `batch_size`
//! lanes, every lane runs the shared row kernel and appends its surviving
//! triplets into a fixed-capacity result buffer through a bump-allocated
//! counter, and readback clamps the counter to the capacity before any slot
//! is read. The buffer capacity is the estimator's prediction.
use vstd::prelude::*;
use vstd::pervasive::VecAdditionalExecFns;
use crate::coo::COO;
use crate::csr::CSR;
use crate::csr::lemma_row_pos_monotone;
use crate::estimator::imin;
use crate::estimator::size_prediction;
use crate::estimator::spec_size_prediction;
use crate::scalar::wrap;
use crate::scalar::wrap32;
use crate::spgemm::touched;
use crate::spgemm::prod_at;
use crate::spgemm::touched_cols;
use crate::spgemm::row_vals;
use crate::spgemm::row_hits;
use crate::spgemm::row_hits_upto;
use crate::spgemm::touched_upto;
use crate::csr::col_sum;
use crate::csr::col_summand_fn;
use crate::spgemm::prod_summand_fn;
use crate::spgemm::touched_fn;
use crate::spgemm::row_count_fn;
use crate::spgemm::prod_nnz;
use crate::spgemm::prod_nnz_upto;
use crate::spgemm::lemma_row_parts;
use crate::spgemm::lemma_touched_cols_len;
use crate::spgemm::spgemm_row;
use crate::scalar::lemma_wrap32_of_wrap;
use crate::sums::range_count;
use crate::sums::lemma_range_sum_mod;
use crate::sums::lemma_range_sum_eq;
use crate::sums::lemma_range_count_eq;
use crate::MatMulError;

verus! {

/// Whether a bound device buffer is read by the kernel or written by it.
#[derive(Clone, Copy, Debug, PartialEq, Eq, Structural)]
pub enum BufferIO {
    Input,
    Output,
}

/// The shape and entry count fit the device's 32-bit index words. Values are
/// narrowed separately — lossily — by the transcode.
pub open spec fn fits_u32(c: &CSR) -> bool {
    &&& c.shape.0 <= u32::MAX
    &&& c.shape.1 <= u32::MAX
    &&& c.nnz() <= u32::MAX
}

/// A compressed-row matrix in the device's words: 32-bit offsets and column
/// indices, values narrowed to the low 32-bit word.
pub struct GPUCSR {
    pub row_pos: Vec<u32>,
    pub col_pos: Vec<u32>,
    pub values: Vec<u32>,
    pub shape: (u32, u32),
}

/// `g` carries `c` in device words: indices exactly, each value reduced
/// modulo 2^32.
pub open spec fn mirror_of(g: &GPUCSR, c: &CSR) -> bool {
    &&& g.row_pos@.len() == c.row_pos@.len()
    &&& forall|t: int|
        0 <= t < g.row_pos@.len() ==> #[trigger] g.row_pos@[t] as int == c.row_pos@[t] as int
    &&& g.col_pos@.len() == c.col_pos@.len()
    &&& forall|t: int|
        0 <= t < g.col_pos@.len() ==> #[trigger] g.col_pos@[t] as int == c.col_pos@[t] as int
    &&& g.values@.len() == c.values@.len()
    &&& forall|t: int|
        0 <= t < g.values@.len() ==> #[trigger] g.values@[t] as int == wrap32(c.values@[t] as int)
    &&& g.shape.0 as int == c.shape.0 as int
    &&& g.shape.1 as int == c.shape.1 as int
}

impl GPUCSR {
    /// Transcode to device words. Offsets and columns are carried exactly —
    /// the operand must be device-addressable — while each value keeps only
    /// its low 32-bit word, the device's lossy precision.
    pub fn new(a: &CSR) -> (r: Self)
        requires
            a.wf(),
            fits_u32(a),
        ensures
            mirror_of(&r, a),
    {
        let mut row_pos: Vec<u32> = Vec::new();
        let mut col_pos: Vec<u32> = Vec::new();
        let mut values: Vec<u32> = Vec::new();
        let rp_len = a.row_pos.len();
        let mut t: usize = 0;
        while t < rp_len
            invariant
                a.wf(),
                fits_u32(a),
                rp_len == a.row_pos@.len(),
                t <= rp_len,
                row_pos@.len() == t,
                forall|s: int|
                    0 <= s < t ==> #[trigger] row_pos@[s] as int == a.row_pos@[s] as int,
            decreases rp_len - t,
        {
            proof {
                if t < a.shape.0 + 1 {
                    lemma_row_pos_monotone(a, t as int, a.shape.0 as int);
                }
            }
            row_pos.push(a.row_pos[t] as u32);
            t = t + 1;
        }
        let cp_len = a.col_pos.len();
        let mut t: usize = 0;
        while t < cp_len
            invariant
                a.wf(),
                fits_u32(a),
                cp_len == a.col_pos@.len(),
                t <= cp_len,
                col_pos@.len() == t,
                forall|s: int|
                    0 <= s < t ==> #[trigger] col_pos@[s] as int == a.col_pos@[s] as int,
            decreases cp_len - t,
        {
            col_pos.push(a.col_pos[t] as u32);
            t = t + 1;
        }
        let v_len = a.values.len();
        let mut t: usize = 0;
        while t < v_len
            invariant
                a.wf(),
                v_len == a.values@.len(),
                t <= v_len,
                values@.len() == t,
                forall|s: int|
                    0 <= s < t ==> #[trigger] values@[s] as int == wrap32(a.values@[s] as int),
            decreases v_len - t,
        {
            values.push((a.values[t] % 0x1_0000_0000) as u32);
            t = t + 1;
        }
        GPUCSR { row_pos, col_pos, values, shape: (a.shape.0 as u32, a.shape.1 as u32) }
    }

    /// The operand as the kernel reads it: device words widened back to host
    /// words. Indices come back exactly; values keep the device's 32-bit
    /// precision.
    pub fn widen(&self) -> (w: CSR)
        ensures
            w.row_pos@.len() == self.row_pos@.len(),
            forall|t: int|
                0 <= t < self.row_pos@.len() ==> #[trigger] w.row_pos@[t] as int
                    == self.row_pos@[t] as int,
            w.col_pos@.len() == self.col_pos@.len(),
            forall|t: int|
                0 <= t < self.col_pos@.len() ==> #[trigger] w.col_pos@[t] as int
                    == self.col_pos@[t] as int,
            w.values@.len() == self.values@.len(),
            forall|t: int|
                0 <= t < self.values@.len() ==> #[trigger] w.values@[t] as int
                    == self.values@[t] as int,
            w.shape.0 as int == self.shape.0 as int,
            w.shape.1 as int == self.shape.1 as int,
    {
        let mut row_pos: Vec<usize> = Vec::new();
        let mut col_pos: Vec<usize> = Vec::new();
        let mut values: Vec<u64> = Vec::new();
        let rp_len = self.row_pos.len();
        let mut t: usize = 0;
        while t < rp_len
            invariant
                rp_len == self.row_pos@.len(),
                t <= rp_len,
                row_pos@.len() == t,
                forall|s: int|
                    0 <= s < t ==> #[trigger] row_pos@[s] as int == self.row_pos@[s] as int,
            decreases rp_len - t,
        {
            row_pos.push(self.row_pos[t] as usize);
            t = t + 1;
        }
        let cp_len = self.col_pos.len();
        let mut t: usize = 0;
        while t < cp_len
            invariant
                cp_len == self.col_pos@.len(),
                t <= cp_len,
                col_pos@.len() == t,
                forall|s: int|
                    0 <= s < t ==> #[trigger] col_pos@[s] as int == self.col_pos@[s] as int,
            decreases cp_len - t,
        {
            col_pos.push(self.col_pos[t] as usize);
            t = t + 1;
        }
        let v_len = self.values.len();
        let mut t: usize = 0;
        while t < v_len
            invariant
                v_len == self.values@.len(),
                t <= v_len,
                values@.len() == t,
                forall|s: int|
                    0 <= s < t ==> #[trigger] values@[s] as int == self.values@[s] as int,
            decreases v_len - t,
        {
            values.push(self.values[t] as u64);
            t = t + 1;
        }
        CSR { row_pos, col_pos, values, shape: (self.shape.0 as usize, self.shape.1 as usize) }
    }
}

/// One triplet as a lane writes it: row, column, and the value in device
/// precision.
#[derive(Clone, Copy, Debug, PartialEq, Eq, Structural)]
pub struct GlobDataEntry {
    pub i: u32,
    pub j: u32,
    pub x: u32,
}

/// The fixed-capacity result buffer with its shared counter: a lock-free
/// bump allocator. `append` takes the next slot by incrementing the counter;
/// a slot at or beyond the capacity is never written, but the counter keeps
/// counting so that readback can detect the overflow.
pub struct ResultBuffer {
    pub glob_data: Vec<GlobDataEntry>,
    pub idx: u64,
}

impl ResultBuffer {
    /// Allocate `nnz` zeroed slots with the counter reset to zero. A fresh
    /// buffer — and a fresh counter — is required before every execution.
    pub fn new(nnz: usize) -> (r: Self)
        ensures
            r.idx == 0,
            r.glob_data@.len() == nnz,
    {
        let mut glob_data: Vec<GlobDataEntry> = Vec::new();
        let mut q: usize = 0;
        while q < nnz
            invariant
                q <= nnz,
                glob_data@.len() == q,
            decreases nnz - q,
        {
            glob_data.push(GlobDataEntry { i: 0, j: 0, x: 0 });
            q = q + 1;
        }
        ResultBuffer { glob_data, idx: 0 }
    }

    /// Bump-allocate one slot and write the triplet there. Beyond the
    /// capacity nothing is written; the counter still advances (and pins at
    /// the top of its word rather than wrapping).
    pub fn append(&mut self, e: GlobDataEntry)
        ensures
            final(self).glob_data@.len() == old(self).glob_data@.len(),
            old(self).idx < old(self).glob_data@.len() ==> final(self).glob_data@ == old(
                self,
            ).glob_data@.update(old(self).idx as int, e),
            old(self).idx >= old(self).glob_data@.len() ==> final(self).glob_data@ == old(
                self,
            ).glob_data@,
            final(self).idx as int == imin(old(self).idx + 1, u64::MAX as int),
    {
        let slot = self.idx;
        if slot < u64::MAX {
            self.idx = slot + 1;
        }
        if slot < self.glob_data.len() as u64 {
            self.glob_data.set(slot as usize, e);
        }
    }
}

/// How many dispatch units cover `m` rows in batches of `bs`.
pub open spec fn spec_ceil_div(m: int, bs: int) -> int {
    m / bs + if m % bs == 0 {
        0int
    } else {
        1int
    }
}

/// The batch count covers every row, and no dispatch unit is idle.
pub proof fn lemma_ceil_div(m: int, bs: int)
    requires
        m >= 0,
        bs >= 1,
    ensures
        spec_ceil_div(m, bs) >= 0,
        spec_ceil_div(m, bs) * bs >= m,
        m > 0 ==> (spec_ceil_div(m, bs) - 1) * bs < m,
        m == 0 ==> spec_ceil_div(m, bs) == 0,
        m > 0 ==> spec_ceil_div(m, bs) >= 1,
{
    let q = m / bs;
    let r = m % bs;
    vstd::arithmetic::div_mod::lemma_fundamental_div_mod(m, bs);
    vstd::arithmetic::div_mod::lemma_mod_division_less_than_divisor(m, bs);
    vstd::arithmetic::div_mod::lemma_div_pos_is_pos(m, bs);
    vstd::arithmetic::mul::lemma_mul_is_commutative(bs, q);
    if r == 0 {
        assert(spec_ceil_div(m, bs) * bs == q * bs);
        if m > 0 {
            assert((q - 1) * bs == q * bs - bs) by {
                vstd::arithmetic::mul::lemma_mul_is_distributive_sub_other_way(bs, q, 1);
            }
        }
    } else {
        assert((q + 1) * bs == q * bs + bs) by {
            vstd::arithmetic::mul::lemma_mul_is_distributive_add_other_way(bs, q, 1);
        }
    }
}

/// The triplets one lane writes for row `i`: its touched columns in
/// ascending order, each value narrowed to device precision.
pub open spec fn lane_entries(a: &CSR, b: &CSR, i: int) -> Seq<GlobDataEntry> {
    Seq::new(
        touched_cols(a, b, i).len(),
        |q: int|
            GlobDataEntry {
                i: i as u32,
                j: touched_cols(a, b, i)[q] as u32,
                x: (row_vals(a, b, i)[q] as int % 0x1_0000_0000) as u32,
            },
    )
}

/// The triplets of every lane below row `i`, lane after lane. The real
/// device interleaves the lanes' appends; every contract below is stated
/// free of that order.
pub open spec fn flat_entries(a: &CSR, b: &CSR, i: int) -> Seq<GlobDataEntry>
    decreases i,
{
    if i <= 0 {
        Seq::empty()
    } else {
        flat_entries(a, b, i - 1) + lane_entries(a, b, i - 1)
    }
}

/// What the lanes write, row by row: one triplet per touched coordinate,
/// no coordinate twice, each value the product entry in device precision.
proof fn lemma_flat_entries_props(a: &CSR, b: &CSR, m: int)
    requires
        a.wf(),
        b.wf(),
        a.shape.1 == b.shape.0,
        0 <= m <= a.shape.0,
        a.shape.0 <= u32::MAX,
        b.shape.1 <= u32::MAX,
    ensures
        flat_entries(a, b, m).len() == prod_nnz_upto(a, b, m),
        forall|q: int|
            0 <= q < flat_entries(a, b, m).len() ==> (#[trigger] flat_entries(a, b, m)[q]).i < m
                && flat_entries(a, b, m)[q].j < b.shape.1 && touched(
                a,
                b,
                flat_entries(a, b, m)[q].i as int,
                flat_entries(a, b, m)[q].j as int,
            ) && flat_entries(a, b, m)[q].x as int == wrap32(
                prod_at(a, b, flat_entries(a, b, m)[q].i as int, flat_entries(a, b, m)[q].j as int),
            ),
        forall|q1: int, q2: int|
            0 <= q1 < q2 < flat_entries(a, b, m).len() ==> !((#[trigger] flat_entries(a, b, m)[q1]).i
                == (#[trigger] flat_entries(a, b, m)[q2]).i && flat_entries(a, b, m)[q1].j
                == flat_entries(a, b, m)[q2].j),
        forall|i: int, j: int|
            0 <= i < m && 0 <= j < b.shape.1 && #[trigger] touched(a, b, i, j) ==> exists|q: int|
                0 <= q < flat_entries(a, b, m).len() && (#[trigger] flat_entries(a, b, m)[q]).i as int
                    == i && flat_entries(a, b, m)[q].j as int == j,
    decreases m,
{
    let n = b.shape.1 as int;
    if m > 0 {
        lemma_flat_entries_props(a, b, m - 1);
        lemma_row_parts(a, b, m - 1, n);
        lemma_touched_cols_len(a, b, m - 1, n);
        let prev = flat_entries(a, b, m - 1);
        let lane = lane_entries(a, b, m - 1);
        let cur = flat_entries(a, b, m);
        assert(cur == prev + lane);
        assert(lane.len() == touched_cols(a, b, m - 1).len());
        assert(row_count_fn(a, b)(m - 1) == range_count(0, n, touched_fn(a, b, m - 1)));
        assert(cur.len() == prod_nnz_upto(a, b, m));
        assert forall|q: int|
            0 <= q < cur.len() implies (#[trigger] cur[q]).i < m && cur[q].j < b.shape.1 && touched(
            a,
            b,
            cur[q].i as int,
            cur[q].j as int,
        ) && cur[q].x as int == wrap32(prod_at(a, b, cur[q].i as int, cur[q].j as int)) by {
            if q < prev.len() {
                assert(cur[q] == prev[q]);
            } else {
                let ql = q - prev.len();
                assert(cur[q] == lane[ql]);
                let col = touched_cols(a, b, m - 1)[ql];
                assert(touched(a, b, m - 1, col as int));
                assert(row_vals(a, b, m - 1)[ql] as int == wrap(
                    prod_at(a, b, m - 1, col as int),
                ));
                lemma_wrap32_of_wrap(prod_at(a, b, m - 1, col as int));
            }
        }
        assert forall|q1: int, q2: int|
            0 <= q1 < q2 < cur.len() implies !((#[trigger] cur[q1]).i == (#[trigger] cur[q2]).i
            && cur[q1].j == cur[q2].j) by {
            if q2 < prev.len() {
                assert(cur[q1] == prev[q1] && cur[q2] == prev[q2]);
            } else if q1 >= prev.len() {
                let l1 = q1 - prev.len();
                let l2 = q2 - prev.len();
                assert(cur[q1] == lane[l1] && cur[q2] == lane[l2]);
                assert(touched_cols(a, b, m - 1)[l1] < touched_cols(a, b, m - 1)[l2]);
            } else {
                assert(cur[q1] == prev[q1] && cur[q2] == lane[q2 - prev.len()]);
                assert(cur[q1].i < m - 1);
            }
        }
        assert forall|i: int, j: int|
            0 <= i < m && 0 <= j < n && #[trigger] touched(a, b, i, j) implies exists|q: int|
            0 <= q < cur.len() && (#[trigger] cur[q]).i as int == i && cur[q].j as int == j by {
            if i < m - 1 {
                let q = choose|q: int|
                    0 <= q < prev.len() && (#[trigger] prev[q]).i as int == i && prev[q].j as int
                        == j;
                assert(cur[q] == prev[q]);
                assert((cur[q]).i as int == i && cur[q].j as int == j);
            } else {
                assert(touched_cols(a, b, m - 1).contains(j as usize));
                let ql = choose|ql: int|
                    0 <= ql < touched_cols(a, b, m - 1).len()
                        && #[trigger] touched_cols(a, b, m - 1)[ql] == j as usize;
                let q = prev.len() + ql;
                assert(cur[q as int] == lane[ql]);
                assert((cur[q as int]).i as int == i && cur[q as int].j as int == j);
            }
        }
    }
}

/// Shared structural premises of the translation lemmas: the widened
/// mirrors carry the host operands' offsets and columns exactly and their
/// values reduced to device precision.
spec fn mirror_pair(ao: &CSR, bo: &CSR, aw: &CSR, bw: &CSR) -> bool {
    &&& ao.wf()
    &&& bo.wf()
    &&& ao.shape.1 == bo.shape.0
    &&& aw.wf()
    &&& bw.wf()
    &&& aw.row_pos@ == ao.row_pos@
    &&& aw.col_pos@ == ao.col_pos@
    &&& aw.shape == ao.shape
    &&& bw.row_pos@ == bo.row_pos@
    &&& bw.col_pos@ == bo.col_pos@
    &&& bw.shape == bo.shape
    &&& aw.values@.len() == ao.values@.len()
    &&& forall|t: int|
        0 <= t < aw.values@.len() ==> #[trigger] aw.values@[t] as int % 0x1_0000_0000
            == ao.values@[t] as int % 0x1_0000_0000
    &&& bw.values@.len() == bo.values@.len()
    &&& forall|t: int|
        0 <= t < bw.values@.len() ==> #[trigger] bw.values@[t] as int % 0x1_0000_0000
            == bo.values@[t] as int % 0x1_0000_0000
}

/// Two operands with the same offsets and columns hit the same columns.
proof fn lemma_mirror_hits(bw: &CSR, bo: &CSR, k: int, j: int)
    requires
        bw.row_pos@ == bo.row_pos@,
        bw.col_pos@ == bo.col_pos@,
    ensures
        row_hits(bw, k, j) == row_hits(bo, k, j),
{
    let hi = bw.row_pos@[k + 1] as int;
    if row_hits_upto(bw, k, j, hi) {
        let w = choose|w: int| bw.row_pos@[k] <= w < hi && (#[trigger] bw.col_pos@[w]) == j;
        assert(bo.row_pos@[k] <= w < bo.row_pos@[k + 1] && bo.col_pos@[w] == j);
    }
    if row_hits_upto(bo, k, j, bo.row_pos@[k + 1] as int) {
        let w = choose|w: int|
            bo.row_pos@[k] <= w < bo.row_pos@[k + 1] && (#[trigger] bo.col_pos@[w]) == j;
        assert(bw.row_pos@[k] <= w < hi && bw.col_pos@[w] == j);
    }
}

/// Two operand pairs with the same offsets and columns touch the same
/// product coordinates: the sparsity structure ignores the values.
proof fn lemma_mirror_touched(aw: &CSR, ao: &CSR, bw: &CSR, bo: &CSR, i: int, j: int)
    requires
        aw.row_pos@ == ao.row_pos@,
        aw.col_pos@ == ao.col_pos@,
        bw.row_pos@ == bo.row_pos@,
        bw.col_pos@ == bo.col_pos@,
    ensures
        touched(aw, bw, i, j) == touched(ao, bo, i, j),
{
    let hi = aw.row_pos@[i + 1] as int;
    if touched_upto(aw, bw, i, j, hi) {
        let w = choose|w: int|
            aw.row_pos@[i] <= w < hi && #[trigger] row_hits(bw, aw.col_pos@[w] as int, j);
        lemma_mirror_hits(bw, bo, aw.col_pos@[w] as int, j);
        assert(ao.row_pos@[i] <= w < ao.row_pos@[i + 1] && row_hits(bo, ao.col_pos@[w] as int, j));
    }
    if touched_upto(ao, bo, i, j, ao.row_pos@[i + 1] as int) {
        let w = choose|w: int|
            ao.row_pos@[i] <= w < ao.row_pos@[i + 1] && #[trigger] row_hits(
                bo,
                ao.col_pos@[w] as int,
                j,
            );
        lemma_mirror_hits(bw, bo, aw.col_pos@[w] as int, j);
        assert(aw.row_pos@[i] <= w < hi && row_hits(bw, aw.col_pos@[w] as int, j));
    }
}

/// Operands whose values agree modulo 2^32 give product entries that agree
/// modulo 2^32: device precision commutes with the whole accumulation.
proof fn lemma_mirror_prod(aw: &CSR, ao: &CSR, bw: &CSR, bo: &CSR, i: int, j: int)
    requires
        mirror_pair(ao, bo, aw, bw),
        0 <= i < aw.shape.0,
    ensures
        prod_at(aw, bw, i, j) % 0x1_0000_0000 == prod_at(ao, bo, i, j) % 0x1_0000_0000,
{
    let mm = 0x1_0000_0000int;
    lemma_row_pos_monotone(aw, i + 1, aw.shape.0 as int);
    assert forall|t: int|
        aw.row_pos@[i] <= t < aw.row_pos@[i + 1] implies #[trigger] prod_summand_fn(aw, bw, j)(t)
        % mm == prod_summand_fn(ao, bo, j)(t) % mm by {
        let k = aw.col_pos@[t] as int;
        lemma_row_pos_monotone(bw, k + 1, bw.shape.0 as int);
        assert forall|ss: int|
            bw.row_pos@[k] <= ss < bw.row_pos@[k + 1] implies #[trigger] col_summand_fn(bw, j)(ss)
            % mm == col_summand_fn(bo, j)(ss) % mm by {}
        lemma_range_sum_mod(
            bw.row_pos@[k] as int,
            bw.row_pos@[k + 1] as int,
            col_summand_fn(bw, j),
            col_summand_fn(bo, j),
            mm,
        );
        assert(col_sum(bw, k, j) % mm == col_sum(bo, k, j) % mm);
        vstd::arithmetic::div_mod::lemma_mul_mod_noop_general(
            aw.values@[t] as int,
            col_sum(bw, k, j),
            mm,
        );
        vstd::arithmetic::div_mod::lemma_mul_mod_noop_general(
            ao.values@[t] as int,
            col_sum(bo, k, j),
            mm,
        );
        assert((aw.values@[t] as int % mm * (col_sum(bw, k, j) % mm)) % mm == (ao.values@[t] as int
            % mm * (col_sum(bo, k, j) % mm)) % mm);
    }
    lemma_range_sum_mod(
        aw.row_pos@[i] as int,
        aw.row_pos@[i + 1] as int,
        prod_summand_fn(aw, bw, j),
        prod_summand_fn(ao, bo, j),
        mm,
    );
}

/// The host operands and their mirrors materialize the same entry count.
proof fn lemma_mirror_nnz(ao: &CSR, bo: &CSR, aw: &CSR, bw: &CSR)
    requires
        mirror_pair(ao, bo, aw, bw),
    ensures
        prod_nnz(aw, bw) == prod_nnz(ao, bo),
{
    let m = aw.shape.0 as int;
    let n = bw.shape.1 as int;
    assert forall|i: int| 0 <= i < m implies #[trigger] row_count_fn(aw, bw)(i) == row_count_fn(
        ao,
        bo,
    )(i) by {
        assert forall|j: int| 0 <= j < n implies #[trigger] touched_fn(aw, bw, i)(j) == touched_fn(
            ao,
            bo,
            i,
        )(j) by {
            lemma_mirror_touched(aw, ao, bw, bo, i, j);
        }
        lemma_range_count_eq(0, n, touched_fn(aw, bw, i), touched_fn(ao, bo, i));
    }
    lemma_range_sum_eq(0, m, row_count_fn(aw, bw), row_count_fn(ao, bo));
}

/// Each triplet the dispatch wrote is a product entry of the host operands,
/// in device precision.
#[verifier::rlimit(100)]
proof fn lemma_entries_correct(
    ao: &CSR,
    bo: &CSR,
    aw: &CSR,
    bw: &CSR,
    entries: Seq<GlobDataEntry>,
)
    requires
        mirror_pair(ao, bo, aw, bw),
        fits_u32(ao),
        fits_u32(bo),
        entries.len() <= flat_entries(aw, bw, aw.shape.0 as int).len(),
        forall|q: int|
            0 <= q < entries.len() ==> #[trigger] entries[q] == flat_entries(
                aw,
                bw,
                aw.shape.0 as int,
            )[q],
    ensures
        forall|q: int|
            0 <= q < entries.len() ==> (#[trigger] entries[q]).i < ao.shape.0 && entries[q].j
                < bo.shape.1 && touched(ao, bo, entries[q].i as int, entries[q].j as int)
                && entries[q].x as int == wrap32(
                prod_at(ao, bo, entries[q].i as int, entries[q].j as int),
            ),
        forall|q1: int, q2: int|
            0 <= q1 < q2 < entries.len() ==> !((#[trigger] entries[q1]).i == (#[trigger] entries[q2]).i
                && entries[q1].j == entries[q2].j),
{
    let m = aw.shape.0 as int;
    lemma_flat_entries_props(aw, bw, m);
    assert forall|q: int|
        0 <= q < entries.len() implies (#[trigger] entries[q]).i < ao.shape.0 && entries[q].j
        < bo.shape.1 && touched(ao, bo, entries[q].i as int, entries[q].j as int)
        && entries[q].x as int == wrap32(
        prod_at(ao, bo, entries[q].i as int, entries[q].j as int),
    ) by {
        assert(entries[q] == flat_entries(aw, bw, m)[q]);
        let gi = entries[q].i as int;
        let gj = entries[q].j as int;
        lemma_mirror_touched(aw, ao, bw, bo, gi, gj);
        lemma_mirror_prod(aw, ao, bw, bo, gi, gj);
    }
    assert forall|q1: int, q2: int|
        0 <= q1 < q2 < entries.len() implies !((#[trigger] entries[q1]).i
        == (#[trigger] entries[q2]).i && entries[q1].j == entries[q2].j) by {
        assert(entries[q1] == flat_entries(aw, bw, m)[q1]);
        assert(entries[q2] == flat_entries(aw, bw, m)[q2]);
    }
}

/// Every touched coordinate of the host product has its triplet among the
/// ones read back, provided none was clamped away.
proof fn lemma_entries_complete(
    ao: &CSR,
    bo: &CSR,
    aw: &CSR,
    bw: &CSR,
    entries: Seq<GlobDataEntry>,
)
    requires
        mirror_pair(ao, bo, aw, bw),
        fits_u32(ao),
        fits_u32(bo),
        entries.len() == flat_entries(aw, bw, aw.shape.0 as int).len(),
        forall|q: int|
            0 <= q < entries.len() ==> #[trigger] entries[q] == flat_entries(
                aw,
                bw,
                aw.shape.0 as int,
            )[q],
    ensures
        forall|i: int, j: int|
            0 <= i < ao.shape.0 && 0 <= j < bo.shape.1 && #[trigger] touched(ao, bo, i, j)
                ==> exists|q: int|
                0 <= q < entries.len() && (#[trigger] entries[q]).i as int == i && entries[q].j as int
                    == j,
{
    let m = aw.shape.0 as int;
    lemma_flat_entries_props(aw, bw, m);
    assert forall|i: int, j: int|
        0 <= i < ao.shape.0 && 0 <= j < bo.shape.1 && #[trigger] touched(ao, bo, i, j) implies exists|
        q: int,
    |
        0 <= q < entries.len() && (#[trigger] entries[q]).i as int == i && entries[q].j as int
            == j by {
        lemma_mirror_touched(aw, ao, bw, bo, i, j);
        assert(touched(aw, bw, i, j));
        let q = choose|q: int|
            0 <= q < flat_entries(aw, bw, m).len() && (#[trigger] flat_entries(aw, bw, m)[q]).i as int
                == i && flat_entries(aw, bw, m)[q].j as int == j;
        assert(entries[q] == flat_entries(aw, bw, m)[q]);
        assert((entries[q]).i as int == i && entries[q].j as int == j);
    }
}

/// The buffer holds the flat prefix of the lanes' appends for the rows
/// dispatched so far, and the counter counts every append.
spec fn buffer_matches(buf: &ResultBuffer, a: &CSR, b: &CSR, rows: int, capacity: int) -> bool {
    &&& buf.glob_data@.len() == capacity
    &&& buf.idx as int == imin(flat_entries(a, b, rows).len() as int, u64::MAX as int)
    &&& forall|p: int|
        0 <= p < imin(flat_entries(a, b, rows).len() as int, capacity) ==> #[trigger] buf.glob_data@[p]
            == flat_entries(a, b, rows)[p]
}

/// Dispatch the kernel over every batch: each lane computes one row through
/// the shared kernel and appends its triplets through the bump counter; at
/// readback the counter is clamped to the capacity before slots are read.
fn run_dispatch(aw: &CSR, bw: &CSR, batch_size: usize, n_disps: usize, capacity: usize) -> (r: (
    Vec<GlobDataEntry>,
    usize,
))
    requires
        aw.wf(),
        bw.wf(),
        aw.shape.1 == bw.shape.0,
        batch_size >= 1,
        n_disps as int == spec_ceil_div(aw.shape.0 as int, batch_size as int),
        aw.shape.0 <= u32::MAX,
        bw.shape.1 <= u32::MAX,
    ensures
        r.0@.len() == r.1,
        r.1 as int == imin(prod_nnz(aw, bw), capacity as int),
        forall|q: int|
            0 <= q < r.1 ==> #[trigger] r.0@[q] == flat_entries(aw, bw, aw.shape.0 as int)[q],
{
    let m = aw.shape.0;
    let bs = batch_size;
    let mut buf = ResultBuffer::new(capacity);
    proof {
        lemma_ceil_div(m as int, bs as int);
        assert(flat_entries(aw, bw, 0).len() == 0);
    }
    let mut disp: usize = 0;
    while disp < n_disps
        invariant
            aw.wf(),
            bw.wf(),
            aw.shape.1 == bw.shape.0,
            m == aw.shape.0,
            bs == batch_size,
            bs >= 1,
            n_disps as int == spec_ceil_div(m as int, bs as int),
            m <= u32::MAX,
            bw.shape.1 <= u32::MAX,
            disp <= n_disps,
            buffer_matches(&buf, aw, bw, imin((disp as int) * (bs as int), m as int), capacity as int),
        decreases n_disps - disp,
    {
        proof {
            lemma_ceil_div(m as int, bs as int);
            assert(m > 0);
            vstd::arithmetic::mul::lemma_mul_inequality(
                disp as int,
                n_disps as int - 1,
                bs as int,
            );
            assert((disp as int) * (bs as int) < m);
            vstd::arithmetic::mul::lemma_mul_nonnegative(disp as int, bs as int);
        }
        let base = disp * bs;
        let remaining = m - base;
        let lanes = if bs < remaining {
            bs
        } else {
            remaining
        };
        proof {
            assert(imin((disp as int) * (bs as int), m as int) == base as int);
        }
        let mut lane: usize = 0;
        while lane < lanes
            invariant
                aw.wf(),
                bw.wf(),
                aw.shape.1 == bw.shape.0,
                m == aw.shape.0,
                m <= u32::MAX,
                bw.shape.1 <= u32::MAX,
                base < m,
                lanes <= m - base,
                lane <= lanes,
                buffer_matches(&buf, aw, bw, base + lane, capacity as int),
            decreases lanes - lane,
        {
            let row = base + lane;
            let (cols, vals) = spgemm_row(aw, bw, row);
            let ghost base_seq = flat_entries(aw, bw, row as int);
            let ghost lane_seq = lane_entries(aw, bw, row as int);
            proof {
                lemma_row_parts(aw, bw, row as int, bw.shape.1 as int);
                assert(lane_seq.len() == cols@.len());
            }
            let rl = cols.len();
            let mut q: usize = 0;
            while q < rl
                invariant
                    aw.wf(),
                    bw.wf(),
                    aw.shape.1 == bw.shape.0,
                    m == aw.shape.0,
                    m <= u32::MAX,
                    bw.shape.1 <= u32::MAX,
                    row < m,
                    cols@ == touched_cols(aw, bw, row as int),
                    vals@ == row_vals(aw, bw, row as int),
                    rl == cols@.len(),
                    vals@.len() == rl,
                    forall|p: int| 0 <= p < rl ==> #[trigger] cols@[p] < bw.shape.1,
                    base_seq == flat_entries(aw, bw, row as int),
                    lane_seq == lane_entries(aw, bw, row as int),
                    lane_seq.len() == rl,
                    q <= rl,
                    buf.glob_data@.len() == capacity,
                    buf.idx as int == imin(base_seq.len() + q, u64::MAX as int),
                    forall|p: int|
                        0 <= p < imin(base_seq.len() + q, capacity as int)
                            ==> #[trigger] buf.glob_data@[p] == (base_seq + lane_seq)[p],
                decreases rl - q,
            {
                let e = GlobDataEntry {
                    i: row as u32,
                    j: cols[q] as u32,
                    x: (vals[q] % 0x1_0000_0000) as u32,
                };
                proof {
                    assert(e == lane_seq[q as int]);
                }
                let ghost prev = buf;
                buf.append(e);
                proof {
                    let gq = q as int;
                    let cap = capacity as int;
                    let blen = base_seq.len() as int;
                    assert((base_seq + lane_seq)[blen + gq] == lane_seq[gq]);
                    assert forall|p: int|
                        0 <= p < imin(blen + gq + 1, cap) implies #[trigger] buf.glob_data@[p] == (
                    base_seq + lane_seq)[p] by {
                        if prev.idx < prev.glob_data@.len() {
                            assert(buf.glob_data@ == prev.glob_data@.update(prev.idx as int, e));
                        }
                    }
                }
                q = q + 1;
            }
            proof {
                assert(flat_entries(aw, bw, row + 1) == base_seq + lane_seq);
                assert(buffer_matches(&buf, aw, bw, base + lane + 1, capacity as int));
            }
            lane = lane + 1;
        }
        proof {
            vstd::arithmetic::mul::lemma_mul_is_distributive_add_other_way(
                bs as int,
                disp as int,
                1,
            );
            assert(base + lanes == imin(((disp + 1) as int) * (bs as int), m as int));
        }
        disp = disp + 1;
    }
    proof {
        lemma_ceil_div(m as int, bs as int);
        assert(imin((n_disps as int) * (bs as int), m as int) == m as int);
        lemma_flat_entries_props(aw, bw, m as int);
        assert(flat_entries(aw, bw, m as int).len() == prod_nnz(aw, bw));
    }
    // readback: read the counter, clamp to the capacity, then read the slots
    let n_written = buf.idx;
    let cap64 = capacity as u64;
    let n_valid: usize = if n_written > cap64 {
        capacity
    } else {
        n_written as usize
    };
    let mut out: Vec<GlobDataEntry> = Vec::new();
    let mut q: usize = 0;
    while q < n_valid
        invariant
            n_valid <= buf.glob_data@.len(),
            q <= n_valid,
            out@.len() == q,
            n_valid as int <= imin(
                flat_entries(aw, bw, aw.shape.0 as int).len() as int,
                buf.glob_data@.len() as int,
            ),
            forall|p: int|
                0 <= p < n_valid ==> #[trigger] buf.glob_data@[p] == flat_entries(
                    aw,
                    bw,
                    aw.shape.0 as int,
                )[p],
            forall|p: int|
                0 <= p < q ==> #[trigger] out@[p] == flat_entries(aw, bw, aw.shape.0 as int)[p],
        decreases n_valid - q,
    {
        let e = buf.glob_data[q];
        out.push(e);
        q = q + 1;
    }
    (out, n_valid)
}

/// The batched accelerator executor's host-side state: the two device
/// mirrors, the batch size baked into the kernel, the predicted output size
/// that fixes the result buffer's capacity, the dispatch count, and — after
/// execution — the triplets read back with the clamped counter. The ghost
/// `operands` keeps the host operands the mirrors were transcoded from, so
/// the results can be stated against them.
pub struct GPUSparseMultiplyer {
    pub a: GPUCSR,
    pub b: GPUCSR,
    pub batch_size: usize,
    pub nnz_pred: usize,
    pub n_disps: usize,
    pub result: Option<(Vec<GlobDataEntry>, usize)>,
    pub operands: Ghost<(CSR, CSR)>,
}

impl GPUSparseMultiplyer {
    /// The state the constructor establishes and every step preserves.
    pub open spec fn wf_state(&self) -> bool {
        &&& self.operands@.0.wf()
        &&& self.operands@.1.wf()
        &&& self.operands@.0.shape.1 == self.operands@.1.shape.0
        &&& fits_u32(&self.operands@.0)
        &&& fits_u32(&self.operands@.1)
        &&& self.operands@.0.shape.0 * self.operands@.1.shape.1 <= usize::MAX
        &&& mirror_of(&self.a, &self.operands@.0)
        &&& mirror_of(&self.b, &self.operands@.1)
        &&& self.batch_size >= 1
        &&& self.nnz_pred as int == spec_size_prediction(&self.operands@.0, &self.operands@.1)
        &&& self.n_disps as int == spec_ceil_div(
            self.operands@.0.shape.0 as int,
            self.batch_size as int,
        )
        &&& match self.result {
            Some(r) => r.1 <= r.0@.len(),
            None => true,
        }
    }

    /// Prepare one multiplication: check the shapes, predict the output
    /// size, fix the dispatch count, and transcode both operands to device
    /// words. Fails fast on a dimension mismatch, before any transcoding.
    #[verifier::rlimit(60)]
    pub fn new(a: &CSR, b: &CSR, batch_size: usize) -> (r: Result<Self, MatMulError>)
        requires
            a.wf(),
            b.wf(),
            fits_u32(a),
            fits_u32(b),
            batch_size >= 1,
            a.shape.0 * b.shape.1 <= usize::MAX,
        ensures
            match r {
                Ok(g) => {
                    &&& a.shape.1 == b.shape.0
                    &&& g.wf_state()
                    &&& g.operands@.0 == *a
                    &&& g.operands@.1 == *b
                    &&& g.batch_size == batch_size
                    &&& g.nnz_pred as int == spec_size_prediction(a, b)
                    &&& g.result is None
                },
                Err(e) => a.shape.1 != b.shape.0 && e == MatMulError::DimensionMismatch,
            },
    {
        if a.shape.1 != b.shape.0 {
            return Err(MatMulError::DimensionMismatch);
        }
        let nnz_pred = size_prediction(a, b);
        let m = a.shape.0;
        proof {
            let gm = m as int;
            let gbs = batch_size as int;
            vstd::arithmetic::div_mod::lemma_fundamental_div_mod(gm, gbs);
            vstd::arithmetic::div_mod::lemma_mod_division_less_than_divisor(gm, gbs);
            vstd::arithmetic::div_mod::lemma_div_pos_is_pos(gm, gbs);
            if gm % gbs != 0 {
                assert(gbs >= 2);
                assert(gm / gbs < usize::MAX) by (nonlinear_arith)
                    requires
                        gm == gbs * (gm / gbs) + gm % gbs,
                        gm % gbs >= 0,
                        gbs >= 2,
                        gm / gbs >= 0,
                        gm <= usize::MAX,
                ;
            }
        }
        let n_disps = m / batch_size + if m % batch_size != 0 {
            1
        } else {
            0
        };
        let gpu_a = GPUCSR::new(a);
        let gpu_b = GPUCSR::new(b);
        Ok(
            GPUSparseMultiplyer {
                a: gpu_a,
                b: gpu_b,
                batch_size,
                nnz_pred,
                n_disps,
                result: None,
                operands: Ghost((*a, *b)),
            },
        )
    }

    /// Execute the multiplication on the device model: widen the mirrors to
    /// the kernel's working form, dispatch every batch into a freshly zeroed
    /// result buffer, and store the triplets read back with the clamped
    /// counter. A zero-size prediction skips the dispatch entirely.
    ///
    /// The stored triplets are an unordered account of the product of the
    /// host operands: one triplet per touched coordinate, no coordinate
    /// twice, each value the product entry reduced to device precision.
    #[verifier::rlimit(100)]
    pub fn doit(&mut self)
        requires
            old(self).wf_state(),
        ensures
            final(self).wf_state(),
            final(self).a == old(self).a,
            final(self).b == old(self).b,
            final(self).batch_size == old(self).batch_size,
            final(self).nnz_pred == old(self).nnz_pred,
            final(self).n_disps == old(self).n_disps,
            final(self).operands == old(self).operands,
            old(self).nnz_pred == 0 ==> final(self).result == old(self).result,
            old(self).nnz_pred > 0 ==> final(self).result is Some && {
                let entries = final(self).result->Some_0.0@;
                let cnt = final(self).result->Some_0.1;
                let ao = old(self).operands@.0;
                let bo = old(self).operands@.1;
                &&& entries.len() == cnt
                &&& cnt as int == prod_nnz(&ao, &bo)
                &&& forall|q: int|
                    0 <= q < entries.len() ==> (#[trigger] entries[q]).i < ao.shape.0
                        && entries[q].j < bo.shape.1 && touched(
                        &ao,
                        &bo,
                        entries[q].i as int,
                        entries[q].j as int,
                    ) && entries[q].x as int == wrap32(
                        prod_at(&ao, &bo, entries[q].i as int, entries[q].j as int),
                    )
                &&& forall|q1: int, q2: int|
                    0 <= q1 < q2 < entries.len() ==> !((#[trigger] entries[q1]).i
                        == (#[trigger] entries[q2]).i && entries[q1].j == entries[q2].j)
                &&& forall|i: int, j: int|
                    0 <= i < ao.shape.0 && 0 <= j < bo.shape.1 && #[trigger] touched(&ao, &bo, i, j)
                        ==> exists|q: int|
                        0 <= q < entries.len() && (#[trigger] entries[q]).i as int == i
                            && entries[q].j as int == j
            },
    {
        let ghost ao = self.operands@.0;
        let ghost bo = self.operands@.1;
        if self.nnz_pred == 0 {
            return ;
        }
        let aw = self.a.widen();
        let bw = self.b.widen();
        proof {
            assert(aw.row_pos@ =~= ao.row_pos@);
            assert(aw.col_pos@ =~= ao.col_pos@);
            assert(bw.row_pos@ =~= bo.row_pos@);
            assert(bw.col_pos@ =~= bo.col_pos@);
            assert(aw.wf());
            assert(bw.wf());
            assert forall|t: int|
                0 <= t < aw.values@.len() implies #[trigger] aw.values@[t] as int % 0x1_0000_0000
                == ao.values@[t] as int % 0x1_0000_0000 by {
                assert(aw.values@[t] as int == wrap32(ao.values@[t] as int));
                vstd::arithmetic::div_mod::lemma_mod_twice(ao.values@[t] as int, 0x1_0000_0000);
            }
            assert forall|t: int|
                0 <= t < bw.values@.len() implies #[trigger] bw.values@[t] as int % 0x1_0000_0000
                == bo.values@[t] as int % 0x1_0000_0000 by {
                assert(bw.values@[t] as int == wrap32(bo.values@[t] as int));
                vstd::arithmetic::div_mod::lemma_mod_twice(bo.values@[t] as int, 0x1_0000_0000);
            }
        }
        let (entries, n_valid) = run_dispatch(&aw, &bw, self.batch_size, self.n_disps, self.nnz_pred);
        proof {
            let m = aw.shape.0 as int;
            lemma_flat_entries_props(&aw, &bw, m);
            lemma_mirror_nnz(&ao, &bo, &aw, &bw);
            crate::laws::lemma_size_prediction_sound(&ao, &bo);
            assert(n_valid as int == prod_nnz(&ao, &bo));
            assert(entries@.len() == flat_entries(&aw, &bw, m).len());
            lemma_entries_correct(&ao, &bo, &aw, &bw, entries@);
            lemma_entries_complete(&ao, &bo, &aw, &bw, entries@);
        }
        self.result = Some((entries, n_valid));
    }

    /// Drain the triplets read back from the device into coordinate form,
    /// widening each device word back to a host word. Nothing to drain —
    /// a zero-size prediction skipped the dispatch, or no execution has
    /// happened — yields no matrix.
    pub fn cast_result(&self) -> (r: Option<COO>)
        requires
            self.wf_state(),
        ensures
            match r {
                None => self.nnz_pred == 0 || self.result is None,
                Some(coo) => {
                    &&& self.nnz_pred > 0
                    &&& self.result is Some
                    &&& coo.shape.0 as int == self.operands@.0.shape.0 as int
                    &&& coo.shape.1 as int == self.operands@.1.shape.1 as int
                    &&& coo.data@.len() == self.result->Some_0.1
                    &&& forall|q: int|
                        0 <= q < coo.data@.len() ==> (#[trigger] coo.data@[q]).0 as int
                            == self.result->Some_0.0@[q].i as int && coo.data@[q].1 as int
                            == self.result->Some_0.0@[q].j as int && coo.data@[q].2 as int
                            == self.result->Some_0.0@[q].x as int
                },
            },
    {
        if self.nnz_pred == 0 {
            return None;
        }
        match &self.result {
            Some((r, n_c_data)) => {
                let count = *n_c_data;
                let mut data: Vec<(usize, usize, u64)> = Vec::new();
                let mut q: usize = 0;
                while q < count
                    invariant
                        count <= r@.len(),
                        q <= count,
                        data@.len() == q,
                        forall|p: int|
                            0 <= p < q ==> (#[trigger] data@[p]).0 as int == r@[p].i as int
                                && data@[p].1 as int == r@[p].j as int && data@[p].2 as int
                                == r@[p].x as int,
                    decreases count - q,
                {
                    let e = r[q];
                    data.push((e.i as usize, e.j as usize, e.x as u64));
                    q = q + 1;
                }
                Some(COO { data, shape: (self.a.shape.0 as usize, self.b.shape.1 as usize) })
            },
            None => None,
        }
    }
}

} // verus!
