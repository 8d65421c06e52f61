//! Arithmetic facts used by the index computations.
use vstd::prelude::*;

use crate::model::{is_isqrt, isqrt, span_diff};

verus! {

/// A cell of a row-major grid lies inside the grid.
pub proof fn lemma_grid_index(row: int, col: int, row_len: int, rows: int)
    requires
        0 <= row < rows,
        0 <= col < row_len,
    ensures
        0 <= row * row_len,
        row * row_len + col < rows * row_len,
        row * row_len + row_len <= rows * row_len,
{
    assert(0 <= row * row_len) by (nonlinear_arith)
        requires
            0 <= row,
            0 <= col < row_len,
    ;
    assert(row * row_len + row_len <= rows * row_len) by (nonlinear_arith)
        requires
            0 <= row < rows,
            0 <= col < row_len,
    ;
}

/// `a <= b` and `c >= 0` give `a * c <= b * c`.
pub proof fn lemma_mul_le(a: int, b: int, c: int)
    requires
        a <= b,
        0 <= c,
    ensures
        a * c <= b * c,
{
    assert(a * c <= b * c) by (nonlinear_arith)
        requires
            a <= b,
            0 <= c,
    ;
}

/// The integer square root is unique.
pub proof fn lemma_isqrt_unique(n: int, s: int)
    requires
        is_isqrt(n, s),
    ensures
        isqrt(n) == s,
{
    let t = isqrt(n);
    assert(is_isqrt(n, t));
    if t < s {
        assert((t + 1) * (t + 1) <= s * s) by (nonlinear_arith)
            requires
                0 <= t < s,
        ;
    } else if s < t {
        assert((s + 1) * (s + 1) <= t * t) by (nonlinear_arith)
            requires
                0 <= s < t,
        ;
    }
}

/// Rows below the sampled row count lie inside the sample.
pub proof fn lemma_sampled_row_inside(k: int, h: int, s: int)
    requires
        s >= 1,
        h >= 1,
        0 <= k < (h + s - 1) / s,
    ensures
        0 <= k * s,
        k * s + 1 <= h,
{
    let q = (h + s - 1) / s;
    assert(q * s <= h + s - 1) by (nonlinear_arith)
        requires
            s >= 1,
            q == (h + s - 1) / s,
            h >= 1,
    ;
    assert(k * s + s <= q * s) by (nonlinear_arith)
        requires
            0 <= k < q,
            s >= 1,
    ;
    assert(0 <= k * s) by (nonlinear_arith)
        requires
            0 <= k,
            s >= 1,
    ;
}

/// The sampled row count is at least one and at most the height.
pub proof fn lemma_sampled_rows_bounds(h: int, s: int)
    requires
        s >= 1,
        h >= 1,
    ensures
        1 <= (h + s - 1) / s <= h,
{
    assert(1 <= (h + s - 1) / s <= h) by (nonlinear_arith)
        requires
            s >= 1,
            h >= 1,
    ;
}

/// A quotient bounded through its product.
pub proof fn lemma_div_le(d: int, t: int, p: int)
    requires
        0 <= d <= t * p,
        p > 0,
        t >= 0,
    ensures
        0 <= d / p <= t,
{
    assert(0 <= d / p <= t) by (nonlinear_arith)
        requires
            0 <= d <= t * p,
            p > 0,
            t >= 0,
    ;
}

/// Difference sums are non-negative and grow with their length.
pub proof fn lemma_span_diff_mono(a: Seq<u8>, ia: int, b: Seq<u8>, ib: int, m: nat, n: nat)
    requires
        m <= n,
    ensures
        0 <= span_diff(a, ia, b, ib, m) <= span_diff(a, ia, b, ib, n),
    decreases n,
{
    if m < n {
        lemma_span_diff_mono(a, ia, b, ib, m, (n - 1) as nat);
    } else if n > 0 {
        lemma_span_diff_mono(a, ia, b, ib, (n - 1) as nat, (n - 1) as nat);
    }
}

/// Each byte adds at most 255.
pub proof fn lemma_span_diff_bound(a: Seq<u8>, ia: int, b: Seq<u8>, ib: int, n: nat)
    ensures
        span_diff(a, ia, b, ib, n) <= 255 * n,
    decreases n,
{
    if n > 0 {
        lemma_span_diff_bound(a, ia, b, ib, (n - 1) as nat);
    }
}

} // verus!
