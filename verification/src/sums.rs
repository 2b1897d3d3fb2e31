use vstd::prelude::*;

verus! {

/// The sum of `f(m)` for `m` from `lo` up to, not including, `hi`.
pub open spec fn sum_over(f: spec_fn(int) -> real, lo: int, hi: int) -> real
    decreases hi - lo,
{
    if hi <= lo {
        0real
    } else {
        sum_over(f, lo, hi - 1) + f(hi - 1)
    }
}

/// Two functions that agree on a range have the same sum over it.
pub proof fn lemma_sum_ext(f: spec_fn(int) -> real, g: spec_fn(int) -> real, lo: int, hi: int)
    requires
        forall|m: int| lo <= m < hi ==> #[trigger] f(m) == g(m),
    ensures
        sum_over(f, lo, hi) == sum_over(g, lo, hi),
    decreases hi - lo,
{
    if lo < hi {
        lemma_sum_ext(f, g, lo, hi - 1);
    }
}

/// A sum of zeros is zero.
pub proof fn lemma_sum_zero(f: spec_fn(int) -> real, lo: int, hi: int)
    requires
        forall|m: int| lo <= m < hi ==> #[trigger] f(m) == 0real,
    ensures
        sum_over(f, lo, hi) == 0real,
    decreases hi - lo,
{
    if lo < hi {
        lemma_sum_zero(f, lo, hi - 1);
    }
}

/// A sum over a range is the sum over its two parts.
pub proof fn lemma_sum_split(f: spec_fn(int) -> real, lo: int, mid: int, hi: int)
    requires
        lo <= mid <= hi,
    ensures
        sum_over(f, lo, hi) == sum_over(f, lo, mid) + sum_over(f, mid, hi),
    decreases hi - mid,
{
    if mid < hi {
        lemma_sum_split(f, lo, mid, hi - 1);
    }
}

/// A sum with a single term that is not zero equals that term.
pub proof fn lemma_sum_single(f: spec_fn(int) -> real, lo: int, hi: int, k: int)
    requires
        lo <= k < hi,
        forall|m: int| lo <= m < hi && m != k ==> #[trigger] f(m) == 0real,
    ensures
        sum_over(f, lo, hi) == f(k),
{
    lemma_sum_split(f, lo, k, hi);
    lemma_sum_split(f, k, k + 1, hi);
    lemma_sum_zero(f, lo, k);
    lemma_sum_zero(f, k + 1, hi);
    assert(sum_over(f, k, k + 1) == sum_over(f, k, k) + f(k));
}

/// The sum of the multiples `c * f(m)` is `c` times the sum of the `f(m)`.
pub proof fn lemma_sum_scale(
    f: spec_fn(int) -> real,
    g: spec_fn(int) -> real,
    c: real,
    lo: int,
    hi: int,
)
    requires
        forall|m: int| lo <= m < hi ==> #[trigger] g(m) == c * f(m),
    ensures
        sum_over(g, lo, hi) == c * sum_over(f, lo, hi),
    decreases hi - lo,
{
    if lo < hi {
        lemma_sum_scale(f, g, c, lo, hi - 1);
        let s = sum_over(f, lo, hi - 1);
        let t = f(hi - 1);
        assert(c * s + c * t == c * (s + t)) by (nonlinear_arith);
    }
}

/// The sum of the sums `f(m) + g(m)` is the sum of the two sums.
pub proof fn lemma_sum_add(
    f: spec_fn(int) -> real,
    g: spec_fn(int) -> real,
    h: spec_fn(int) -> real,
    lo: int,
    hi: int,
)
    requires
        forall|m: int| lo <= m < hi ==> #[trigger] h(m) == f(m) + g(m),
    ensures
        sum_over(h, lo, hi) == sum_over(f, lo, hi) + sum_over(g, lo, hi),
    decreases hi - lo,
{
    if lo < hi {
        lemma_sum_add(f, g, h, lo, hi - 1);
    }
}

/// A sum over a rectangle can be formed by rows or by columns: where
/// `rows(a)` is the sum of `f(a, m)` over `m` and `cols(m)` the sum of
/// `f(a, m)` over `a`, the rows and the columns add up to the same.
pub proof fn lemma_sum_swap(
    f: spec_fn(int, int) -> real,
    rows: spec_fn(int) -> real,
    cols: spec_fn(int) -> real,
    alo: int,
    ahi: int,
    mlo: int,
    mhi: int,
)
    requires
        forall|a: int| alo <= a < ahi ==> #[trigger] rows(a) == sum_over(|m: int| f(a, m), mlo, mhi),
        forall|m: int| mlo <= m < mhi ==> #[trigger] cols(m) == sum_over(|a: int| f(a, m), alo, ahi),
    ensures
        sum_over(rows, alo, ahi) == sum_over(cols, mlo, mhi),
    decreases ahi - alo,
{
    if ahi <= alo {
        lemma_sum_zero(cols, mlo, mhi);
    } else {
        let last = |m: int| f(ahi - 1, m);
        let rest = |m: int| sum_over(|a: int| f(a, m), alo, ahi - 1);
        assert forall|m: int| mlo <= m < mhi implies #[trigger] cols(m) == rest(m) + last(m) by {
            let column = |a: int| f(a, m);
        }
        lemma_sum_add(rest, last, cols, mlo, mhi);
        lemma_sum_swap(f, rows, rest, alo, ahi - 1, mlo, mhi);
    }
}

} // verus!
