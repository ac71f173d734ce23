//! Sums and counts over integer ranges, the building blocks of the
//! matrix contracts: a product entry is a range sum over a row segment,
//! and a non-zero count is a range count.
use vstd::prelude::*;

verus! {

/// Sum of `f(lo) + f(lo + 1) + ... + f(hi - 1)`.
pub open spec fn range_sum(lo: int, hi: int, f: spec_fn(int) -> int) -> int
    decreases hi - lo,
{
    if hi <= lo {
        0
    } else {
        range_sum(lo, hi - 1, f) + f(hi - 1)
    }
}

/// How many `k` in `lo..hi` satisfy `p`.
pub open spec fn range_count(lo: int, hi: int, p: spec_fn(int) -> bool) -> int
    decreases hi - lo,
{
    if hi <= lo {
        0
    } else {
        range_count(lo, hi - 1, p) + if p(hi - 1) {
            1int
        } else {
            0int
        }
    }
}

/// Summands that agree on the range give the same sum.
pub proof fn lemma_range_sum_eq(lo: int, hi: int, f: spec_fn(int) -> int, g: spec_fn(int) -> int)
    requires
        forall|k: int| lo <= k < hi ==> #[trigger] f(k) == g(k),
    ensures
        range_sum(lo, hi, f) == range_sum(lo, hi, g),
    decreases hi - lo,
{
    if hi > lo {
        lemma_range_sum_eq(lo, hi - 1, f, g);
    }
}

/// A pointwise bound on the summands bounds the sum.
pub proof fn lemma_range_sum_le(lo: int, hi: int, f: spec_fn(int) -> int, g: spec_fn(int) -> int)
    requires
        forall|k: int| lo <= k < hi ==> #[trigger] f(k) <= g(k),
    ensures
        range_sum(lo, hi, f) <= range_sum(lo, hi, g),
    decreases hi - lo,
{
    if hi > lo {
        lemma_range_sum_le(lo, hi - 1, f, g);
    }
}

/// A sum of zeros is zero.
pub proof fn lemma_range_sum_zero(lo: int, hi: int, f: spec_fn(int) -> int)
    requires
        forall|k: int| lo <= k < hi ==> #[trigger] f(k) == 0,
    ensures
        range_sum(lo, hi, f) == 0,
    decreases hi - lo,
{
    if hi > lo {
        lemma_range_sum_zero(lo, hi - 1, f);
    }
}

/// A sum of non-negative summands is non-negative.
pub proof fn lemma_range_sum_nonneg(lo: int, hi: int, f: spec_fn(int) -> int)
    requires
        forall|k: int| lo <= k < hi ==> #[trigger] f(k) >= 0,
    ensures
        range_sum(lo, hi, f) >= 0,
    decreases hi - lo,
{
    if hi > lo {
        lemma_range_sum_nonneg(lo, hi - 1, f);
    }
}

/// A sum of summands bounded by `c` is bounded by `c * (hi - lo)`.
pub proof fn lemma_range_sum_const_bound(lo: int, hi: int, f: spec_fn(int) -> int, c: int)
    requires
        lo <= hi,
        forall|k: int| lo <= k < hi ==> #[trigger] f(k) <= c,
    ensures
        range_sum(lo, hi, f) <= c * (hi - lo),
    decreases hi - lo,
{
    if hi > lo {
        lemma_range_sum_const_bound(lo, hi - 1, f, c);
        assert(c * (hi - lo) == c * (hi - 1 - lo) + c) by (nonlinear_arith);
    } else {
        assert(c * (hi - lo) == 0) by (nonlinear_arith)
            requires
                hi == lo,
        ;
    }
}

/// Raising one summand by a difference raises the sum by that difference.
pub proof fn lemma_range_sum_update(
    lo: int,
    hi: int,
    f: spec_fn(int) -> int,
    g: spec_fn(int) -> int,
    k0: int,
)
    requires
        lo <= k0 < hi,
        forall|k: int| lo <= k < hi && k != k0 ==> #[trigger] f(k) == g(k),
    ensures
        range_sum(lo, hi, g) == range_sum(lo, hi, f) + (g(k0) - f(k0)),
    decreases hi - lo,
{
    if k0 == hi - 1 {
        lemma_range_sum_eq(lo, hi - 1, f, g);
    } else {
        lemma_range_sum_update(lo, hi - 1, f, g, k0);
    }
}

/// Sums of summands that agree modulo `m` agree modulo `m`.
pub proof fn lemma_range_sum_mod(
    lo: int,
    hi: int,
    f: spec_fn(int) -> int,
    g: spec_fn(int) -> int,
    m: int,
)
    requires
        0 < m,
        forall|k: int| lo <= k < hi ==> #[trigger] f(k) % m == g(k) % m,
    ensures
        range_sum(lo, hi, f) % m == range_sum(lo, hi, g) % m,
    decreases hi - lo,
{
    if hi > lo {
        lemma_range_sum_mod(lo, hi - 1, f, g, m);
        vstd::arithmetic::div_mod::lemma_add_mod_noop(range_sum(lo, hi - 1, f), f(hi - 1), m);
        vstd::arithmetic::div_mod::lemma_add_mod_noop(range_sum(lo, hi - 1, g), g(hi - 1), m);
        assert((range_sum(lo, hi - 1, f) % m + f(hi - 1) % m) % m == (range_sum(lo, hi - 1, g) % m
            + g(hi - 1) % m) % m);
    }
}

/// A count is between zero and the width of the range.
pub proof fn lemma_range_count_bounds(lo: int, hi: int, p: spec_fn(int) -> bool)
    requires
        lo <= hi,
    ensures
        0 <= range_count(lo, hi, p) <= hi - lo,
    decreases hi - lo,
{
    if hi > lo {
        lemma_range_count_bounds(lo, hi - 1, p);
    }
}

/// Counting a disjunction never exceeds the two separate counts together.
pub proof fn lemma_range_count_or(
    lo: int,
    hi: int,
    p: spec_fn(int) -> bool,
    q: spec_fn(int) -> bool,
    r: spec_fn(int) -> bool,
)
    requires
        forall|k: int| lo <= k < hi ==> #[trigger] r(k) == (p(k) || q(k)),
    ensures
        range_count(lo, hi, r) <= range_count(lo, hi, p) + range_count(lo, hi, q),
    decreases hi - lo,
{
    if hi > lo {
        lemma_range_count_or(lo, hi - 1, p, q, r);
    }
}

/// A predicate met by at most the single point `c` counts at most one.
pub proof fn lemma_range_count_single(lo: int, hi: int, p: spec_fn(int) -> bool, c: int)
    requires
        forall|k: int| lo <= k < hi && #[trigger] p(k) ==> k == c,
    ensures
        range_count(lo, hi, p) <= 1,
        !(lo <= c < hi && p(c)) ==> range_count(lo, hi, p) == 0,
    decreases hi - lo,
{
    if hi > lo {
        lemma_range_count_single(lo, hi - 1, p, c);
    }
}

/// A weaker predicate counts no more than a stronger one.
pub proof fn lemma_range_count_mono(lo: int, hi: int, p: spec_fn(int) -> bool, q: spec_fn(
    int,
) -> bool)
    requires
        forall|k: int| lo <= k < hi && #[trigger] p(k) ==> q(k),
    ensures
        range_count(lo, hi, p) <= range_count(lo, hi, q),
    decreases hi - lo,
{
    if hi > lo {
        lemma_range_count_mono(lo, hi - 1, p, q);
    }
}

/// Predicates that agree on the range count the same.
pub proof fn lemma_range_count_eq(lo: int, hi: int, p: spec_fn(int) -> bool, q: spec_fn(
    int,
) -> bool)
    requires
        forall|k: int| lo <= k < hi ==> #[trigger] p(k) == q(k),
    ensures
        range_count(lo, hi, p) == range_count(lo, hi, q),
    decreases hi - lo,
{
    if hi > lo {
        lemma_range_count_eq(lo, hi - 1, p, q);
    }
}

} // verus!
