//! Fixed-point forgetting-curve recall model.
//!
//! Retrievability is computed in millionths: [`RECALL_ONE`] stands for
//! probability 1.  For elapsed time `t` and stability `s`, both in
//! micro-days, the model returns the floor of
//! `RECALL_ONE * sqrt(81 s / (81 s + 19 t))`: a forgetting curve that starts
//! at 1 when no time has passed, decays as elapsed time grows, and decays
//! more slowly the higher the stability.

use vstd::arithmetic::div_mod::{
    lemma_div_is_ordered, lemma_div_is_ordered_by_denominator, lemma_div_multiples_vanish,
    lemma_div_pos_is_pos, lemma_fundamental_div_mod,
};
use vstd::prelude::*;

verus! {

/// Probability 1 in fixed-point millionths.
pub const RECALL_ONE: u64 = 1000000;

/// The integer square root: the largest `r` with `r * r <= n`.
pub open spec fn isqrt_spec(n: int) -> int
    decreases n,
{
    if n <= 0 {
        0
    } else {
        let r = isqrt_spec(n - 1);
        if (r + 1) * (r + 1) <= n {
            r + 1
        } else {
            r
        }
    }
}

pub proof fn lemma_isqrt_bounds(n: int)
    requires
        n >= 0,
    ensures
        isqrt_spec(n) >= 0,
        isqrt_spec(n) * isqrt_spec(n) <= n,
        n < (isqrt_spec(n) + 1) * (isqrt_spec(n) + 1),
    decreases n,
{
    if n > 0 {
        lemma_isqrt_bounds(n - 1);
        let r = isqrt_spec(n - 1);
        if (r + 1) * (r + 1) <= n {
            assert(n == (r + 1) * (r + 1));
            assert((r + 2) * (r + 2) > (r + 1) * (r + 1)) by (nonlinear_arith)
                requires
                    r >= 0,
            ;
        }
    }
}

pub proof fn lemma_isqrt_unique(n: int, r: int)
    requires
        n >= 0,
        r >= 0,
        r * r <= n,
        n < (r + 1) * (r + 1),
    ensures
        r == isqrt_spec(n),
{
    lemma_isqrt_bounds(n);
    let q = isqrt_spec(n);
    if r < q {
        assert((r + 1) * (r + 1) <= q * q) by (nonlinear_arith)
            requires
                0 <= r + 1 <= q,
        ;
        assert(false);
    }
    if q < r {
        assert((q + 1) * (q + 1) <= r * r) by (nonlinear_arith)
            requires
                0 <= q + 1 <= r,
        ;
        assert(false);
    }
}

pub proof fn lemma_isqrt_monotone(n1: int, n2: int)
    requires
        0 <= n1 <= n2,
    ensures
        isqrt_spec(n1) <= isqrt_spec(n2),
{
    lemma_isqrt_bounds(n1);
    lemma_isqrt_bounds(n2);
    let r1 = isqrt_spec(n1);
    let r2 = isqrt_spec(n2);
    if r2 < r1 {
        assert((r2 + 1) * (r2 + 1) <= r1 * r1) by (nonlinear_arith)
            requires
                0 <= r2 + 1 <= r1,
        ;
        assert(false);
    }
}

/// The integer square root, by binary search.
fn isqrt(n: u128) -> (r: u64)
    ensures
        r as int == isqrt_spec(n as int),
{
    let mut lo: u128 = 0;
    let mut hi: u128 = 0x10000000000000000;
    while lo + 1 < hi
        invariant
            lo < hi <= 0x10000000000000000,
            (lo as int) * (lo as int) <= n as int,
            (n as int) < (hi as int) * (hi as int),
        decreases hi - lo,
    {
        let mid = lo + (hi - lo) / 2;
        proof {
            assert(lo < mid < hi);
            assert((mid as int) * (mid as int) <= 0xffffffffffffffff * 0xffffffffffffffff)
                by (nonlinear_arith)
                requires
                    0 <= mid as int <= 0xffffffffffffffff,
            ;
        }
        let sq = mid * mid;
        if sq <= n {
            lo = mid;
        } else {
            hi = mid;
        }
    }
    proof {
        assert(hi == lo + 1);
        lemma_isqrt_unique(n as int, lo as int);
    }
    lo as u64
}

/// The fixed-point recall probability, in millionths.
pub open spec fn spec_recall(t: int, s: int) -> int {
    isqrt_spec((1000000000000 * 81 * s) / (81 * s + 19 * t))
}

/// Retrievability after `elapsed_micro_days` for a card of stability
/// `stability_micro_days`, in millionths of probability.
pub fn recall_micro(elapsed_micro_days: u64, stability_micro_days: u64) -> (r: u64)
    requires
        stability_micro_days > 0,
    ensures
        r as int == spec_recall(elapsed_micro_days as int, stability_micro_days as int),
        r <= RECALL_ONE,
        elapsed_micro_days == 0 ==> r == RECALL_ONE,
{
    let t = elapsed_micro_days as u128;
    let s = stability_micro_days as u128;
    let denom = 81 * s + 19 * t;
    let num = 81000000000000u128 * s;
    let q = num / denom;
    proof {
        assert(num as int == 1000000000000 * 81 * (s as int));
        assert(num as int == (81 * (s as int)) * 1000000000000);
        lemma_div_is_ordered_by_denominator(num as int, 81 * (s as int), denom as int);
        lemma_div_multiples_vanish(1000000000000, 81 * (s as int));
        assert(q as int <= 1000000000000);
        if t == 0 {
            assert(q as int == 1000000000000);
        }
    }
    let r = isqrt(q);
    proof {
        lemma_isqrt_monotone(q as int, 1000000000000);
        lemma_isqrt_unique(1000000000000, 1000000);
        if t == 0 {
        }
    }
    r
}

proof fn lemma_div_cross(a1: int, b1: int, a2: int, b2: int)
    requires
        a1 >= 0,
        b1 > 0,
        b2 > 0,
        a1 * b2 <= a2 * b1,
    ensures
        a1 / b1 <= a2 / b2,
{
    let q = a1 / b1;
    lemma_fundamental_div_mod(a1, b1);
    lemma_div_pos_is_pos(a1, b1);
    assert(b1 * q <= a1);
    assert(q * b2 <= a2) by (nonlinear_arith)
        requires
            b1 * q <= a1,
            a1 * b2 <= a2 * b1,
            b1 > 0,
            b2 > 0,
            q >= 0,
    ;
    lemma_div_is_ordered(q * b2, a2, b2);
    lemma_div_multiples_vanish(q, b2);
    assert(q * b2 == b2 * q) by (nonlinear_arith);
    assert((q * b2) / b2 == q);
}

/// With no elapsed time the model returns probability 1 exactly, for every
/// positive stability.
pub proof fn lemma_recall_full_at_zero(s: int)
    requires
        s > 0,
    ensures
        spec_recall(0, s) == RECALL_ONE as int,
{
    lemma_div_multiples_vanish(1000000000000, 81 * s);
    assert(1000000000000 * 81 * s == (81 * s) * 1000000000000) by (nonlinear_arith);
    lemma_isqrt_unique(1000000000000, 1000000);
}

/// Recall never rises as elapsed time grows, for a fixed positive
/// stability.
pub proof fn lemma_recall_antitone_elapsed(t1: int, t2: int, s: int)
    requires
        0 <= t1 <= t2,
        s > 0,
    ensures
        spec_recall(t2, s) <= spec_recall(t1, s),
{
    let num = 1000000000000 * 81 * s;
    let d1 = 81 * s + 19 * t1;
    let d2 = 81 * s + 19 * t2;
    lemma_div_is_ordered_by_denominator(num, d1, d2);
    lemma_div_pos_is_pos(num, d2);
    lemma_isqrt_monotone(num / d2, num / d1);
}

/// Recall never falls as stability grows, for a fixed non-negative elapsed
/// time.
pub proof fn lemma_recall_monotone_stability(t: int, s1: int, s2: int)
    requires
        t >= 0,
        0 < s1 <= s2,
    ensures
        spec_recall(t, s1) <= spec_recall(t, s2),
{
    let a1 = 1000000000000 * 81 * s1;
    let a2 = 1000000000000 * 81 * s2;
    let b1 = 81 * s1 + 19 * t;
    let b2 = 81 * s2 + 19 * t;
    assert(a1 * b2 <= a2 * b1) by (nonlinear_arith)
        requires
            0 < s1 <= s2,
            t >= 0,
            a1 == 1000000000000 * 81 * s1,
            a2 == 1000000000000 * 81 * s2,
            b1 == 81 * s1 + 19 * t,
            b2 == 81 * s2 + 19 * t,
    ;
    lemma_div_cross(a1, b1, a2, b2);
    lemma_isqrt_monotone(a1 / b1, a2 / b2);
}

/// Recall is a probability: between 0 and 1 for every model input.
pub proof fn lemma_recall_bounds(t: int, s: int)
    requires
        t >= 0,
        s > 0,
    ensures
        0 <= spec_recall(t, s) <= RECALL_ONE as int,
{
    lemma_recall_full_at_zero(s);
    lemma_recall_antitone_elapsed(0, t, s);
    let num = 1000000000000 * 81 * s;
    let d = 81 * s + 19 * t;
    lemma_div_pos_is_pos(num, d);
    lemma_isqrt_bounds(num / d);
}

} // verus!

