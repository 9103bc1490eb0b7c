//! The box filter: a moving average with zero beyond the ends of the
//! signal, computed with a running sum.

use vstd::prelude::*;
use crate::error::{Error, lift};
use crate::fixed::{all_fit, div_floor, fits, ints};
use crate::fmgf::Fmgf;
use crate::sums::{
    inside, lemma_window_bound, lemma_window_shift, padded, window_sum,
};

verus! {

/// The value of the box filter of width `period` at position `i`: the sum
/// of the window that reaches `period / 2` positions to either side, with
/// zero beyond the ends of `x`, divided by `period`.
pub open spec fn sma_at(x: Seq<int>, period: int, i: int) -> int {
    window_sum(x, i - period / 2, i + period / 2 + 1) / period
}

/// The box filter of width `period` over the whole of `x`.
pub open spec fn sma_vals(x: Seq<int>, period: int) -> Seq<int> {
    Seq::new(x.len(), |i: int| sma_at(x, period, i))
}

/// What `Fmgf::sma` returns.
pub open spec fn sma_spec(x: Seq<int>, period: int) -> Result<Seq<int>, Error> {
    if period <= 0 {
        Err(Error::InvalidParameter)
    } else if !all_fit(sma_vals(x, period)) {
        Err(Error::Overflow)
    } else {
        Ok(sma_vals(x, period))
    }
}

impl Fmgf {
    /// Box filter (moving average) of width `period`, with zero beyond
    /// the ends of `input`. A running sum is carried from one position to
    /// the next.
    pub fn sma(input: &[i64], period: usize) -> (r: Result<Vec<i64>, Error>)
        ensures
            lift(r) == sma_spec(ints(input@), period as int),
            r is Ok ==> r->Ok_0.len() == input.len(),
    {
        if period == 0 {
            return Err(Error::InvalidParameter);
        }
        let n: usize = input.len();
        let side: usize = period / 2;
        let ghost x = ints(input@);
        let ghost p = period as int;
        let mut out: Vec<i64> = Vec::new();
        if n == 0 {
            assert(ints(out@) =~= sma_vals(x, p));
            return Ok(out);
        }
        let first_end: usize = if side < n { side + 1 } else { n };
        let mut total: i128 = 0;
        let mut k: usize = 0;
        proof {
            lemma_window_bound(x, 0, 0, 0x8000_0000_0000_0000);
            lemma_window_bound(x, -(side as int), 0, 0x8000_0000_0000_0000);
        }
        while k < first_end
            invariant
                x == ints(input@),
                n == input.len(),
                k <= first_end <= n,
                total == window_sum(x, 0, k as int),
            decreases first_end - k,
        {
            proof {
                lemma_window_bound(x, 0, k as int, 0x8000_0000_0000_0000);
                lemma_window_bound(x, 0, k as int + 1, 0x8000_0000_0000_0000);
                lemma_product_bound(inside(n as int, 0, k as int), n as int);
                lemma_product_bound(inside(n as int, 0, k as int + 1), n as int);
            }
            total = total + input[k] as i128;
            k = k + 1;
        }
        proof {
            // the window around position 0, cut at 0 and at the end of the input
            crate::sums::lemma_window_split(x, -(side as int), 0, side as int + 1);
            if first_end < side + 1 {
                crate::sums::lemma_window_split(x, 0, n as int, side as int + 1);
                lemma_window_bound(x, n as int, side as int + 1, 0x8000_0000_0000_0000);
            }
        }
        let mut i: usize = 0;
        while i < n
            invariant
                x == ints(input@),
                p == period as int,
                period > 0,
                side == period / 2,
                n == input.len(),
                i <= n,
                out.len() == i,
                i < n ==> total == window_sum(x, i as int - side as int, i as int + side as int + 1),
                forall|j: int| 0 <= j < i ==> out@[j] as int == sma_at(x, p, j),
            decreases n - i,
        {
            let q: i128 = div_floor(total, period as i128);
            if q < i64::MIN as i128 || q > i64::MAX as i128 {
                proof {
                    assert(sma_vals(x, p)[i as int] == q);
                    assert(!fits(sma_vals(x, p)[i as int]));
                }
                return Err(Error::Overflow);
            }
            out.push(q as i64);
            if i + 1 < n {
                let ghost lo = i as int - side as int;
                let ghost hi = i as int + side as int + 1;
                proof {
                    lemma_window_shift(x, lo, hi);
                    crate::sums::lemma_window_split(x, lo, lo + 1, hi);
                    crate::sums::lemma_window_single(x, lo);
                    lemma_window_bound(x, lo + 1, hi, 0x8000_0000_0000_0000);
                    lemma_window_bound(x, lo + 1, hi + 1, 0x8000_0000_0000_0000);
                    lemma_product_bound(inside(n as int, lo + 1, hi), n as int);
                    lemma_product_bound(inside(n as int, lo + 1, hi + 1), n as int);
                }
                if i >= side {
                    total = total - input[i - side] as i128;
                }
                if side < n - 1 - i {
                    total = total + input[i + side + 1] as i128;
                }
            }
            i = i + 1;
        }
        proof {
            assert(ints(out@) =~= sma_vals(x, p));
        }
        Ok(out)
    }
}

/// The box filter of values between zero and `b` gives values between
/// zero and twice `b`: a window holds at most `period + 1` elements.
pub proof fn lemma_sma_bounded(x: Seq<int>, period: int, b: int, i: int)
    requires
        period > 0,
        b >= 0,
        forall|k: int| 0 <= k < x.len() ==> 0 <= #[trigger] x[k] <= b,
    ensures
        0 <= sma_at(x, period, i) <= 2 * b,
{
    let lo = i - period / 2;
    let hi = i + period / 2 + 1;
    let s = window_sum(x, lo, hi);
    let c = inside(x.len() as int, lo, hi);
    lemma_window_bound(x, lo, hi, b);
    crate::sums::lemma_window_nonneg(x, lo, hi);
    assert(0 <= c <= period + 1);
    assert(b * c <= (2 * b) * period) by (nonlinear_arith)
        requires
            0 <= c <= period + 1,
            period >= 1,
            b >= 0,
    ;
    assert(0 * period == 0);
    crate::fixed::lemma_div_between(s, period, 0, 2 * b);
}

/// A count of at most `n` samples, each of magnitude at most 2^63, sums
/// to less than 2^127.
proof fn lemma_product_bound(c: int, n: int)
    requires
        0 <= c <= n <= usize::MAX,
    ensures
        0x8000_0000_0000_0000 * c <= 0x7fff_ffff_ffff_ffff_8000_0000_0000_0000,
        -0x8000_0000_0000_0000 * c >= -0x7fff_ffff_ffff_ffff_8000_0000_0000_0000,
{
    assert(0x8000_0000_0000_0000 * c <= 0x8000_0000_0000_0000 * 0xffff_ffff_ffff_ffff)
        by (nonlinear_arith)
        requires
            0 <= c <= 0xffff_ffff_ffff_ffff,
    ;
}

} // verus!
