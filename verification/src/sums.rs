//! Sums over windows of a sequence, with zero beyond its ends.

use vstd::prelude::*;

verus! {

/// The element at `k`, or zero where `k` is beyond either end.
pub open spec fn padded(x: Seq<int>, k: int) -> int {
    if 0 <= k < x.len() {
        x[k]
    } else {
        0
    }
}

/// The sum of the elements at the positions `lo <= k < hi`, those beyond
/// the ends counting as zero.
pub open spec fn window_sum(x: Seq<int>, lo: int, hi: int) -> int
    decreases hi - lo,
{
    if hi <= lo {
        0
    } else {
        window_sum(x, lo, hi - 1) + padded(x, hi - 1)
    }
}

/// How many of the positions `lo <= k < hi` lie inside a sequence of
/// length `n`.
pub open spec fn inside(n: int, lo: int, hi: int) -> int {
    let a = if lo < 0 { 0 } else { lo };
    let b = if hi > n { n } else { hi };
    if b > a { b - a } else { 0 }
}

/// A window can be cut in two at any position in it.
pub proof fn lemma_window_split(x: Seq<int>, lo: int, mid: int, hi: int)
    requires
        lo <= mid <= hi,
    ensures
        window_sum(x, lo, hi) == window_sum(x, lo, mid) + window_sum(x, mid, hi),
    decreases hi - mid,
{
    if mid < hi {
        lemma_window_split(x, lo, mid, hi - 1);
    }
}

/// A window of one position holds the padded element there.
pub proof fn lemma_window_single(x: Seq<int>, k: int)
    ensures
        window_sum(x, k, k + 1) == padded(x, k),
{
    assert(window_sum(x, k, k) == 0);
}

/// Moving a window one position up drops its first element and takes in
/// the element behind its last.
pub proof fn lemma_window_shift(x: Seq<int>, lo: int, hi: int)
    requires
        lo <= hi,
    ensures
        window_sum(x, lo + 1, hi + 1) == window_sum(x, lo, hi) - padded(x, lo) + padded(x, hi),
{
    lemma_window_split(x, lo, lo + 1, hi + 1);
    lemma_window_single(x, lo);
    assert(window_sum(x, lo, hi + 1) == window_sum(x, lo, hi) + padded(x, hi));
}

/// A window sum is bounded by the number of positions inside the
/// sequence times a bound on the elements.
pub proof fn lemma_window_bound(x: Seq<int>, lo: int, hi: int, b: int)
    requires
        b >= 0,
        forall|k: int| 0 <= k < x.len() ==> -b <= #[trigger] x[k] <= b,
    ensures
        -b * inside(x.len() as int, lo, hi) <= window_sum(x, lo, hi) <= b * inside(
            x.len() as int,
            lo,
            hi,
        ),
    decreases hi - lo,
{
    let n = x.len() as int;
    if hi > lo {
        lemma_window_bound(x, lo, hi - 1, b);
        let c0 = inside(n, lo, hi - 1);
        let c1 = inside(n, lo, hi);
        if 0 <= hi - 1 < n {
            assert(c1 == c0 + 1);
            assert(b * c1 == b * c0 + b) by (nonlinear_arith)
                requires
                    c1 == c0 + 1,
            ;
            assert(-b * c1 == -b * c0 - b) by (nonlinear_arith)
                requires
                    c1 == c0 + 1,
            ;
        } else {
            assert(c1 == c0);
        }
    } else {
        assert(inside(n, lo, hi) == 0);
        assert(b * 0 == 0);
        assert(-b * 0 == 0);
    }
}

/// With bounded elements and all bounds non-negative, the sum of a
/// window is non-negative too.
pub proof fn lemma_window_nonneg(x: Seq<int>, lo: int, hi: int)
    requires
        forall|k: int| 0 <= k < x.len() ==> 0 <= #[trigger] x[k],
    ensures
        0 <= window_sum(x, lo, hi),
    decreases hi - lo,
{
    if hi > lo {
        lemma_window_nonneg(x, lo, hi - 1);
    }
}

} // verus!
