//! The Gaussian smoother: a kernel of fixed-point weights that sum to
//! one, and its correlation with a signal whose ends are replicated.

use vstd::prelude::*;
use crate::error::{Error, lift};
use crate::fixed::{all_fit, div_floor, fits, ints, magnitude, nats, ONE};
use crate::sums::{inside, lemma_window_bound, window_sum};

verus! {

/// The truncation radius of a kernel of spread `sigma`: four spreads,
/// rounded to the nearest whole number of positions.
pub open spec fn radius_spec(sigma: int) -> int {
    (4 * sigma + ONE / 2) / (ONE as int)
}

/// The sum of all elements of `s`.
pub open spec fn total(s: Seq<int>) -> int {
    window_sum(s, 0, s.len() as int)
}

/// The share of `ONE` that falls to position `n` of `profile`, rounded
/// down.
pub open spec fn share(profile: Seq<int>, n: int) -> int {
    profile[n] * ONE / total(profile)
}

/// The shares of all positions of `profile`.
pub open spec fn shares(profile: Seq<int>) -> Seq<int> {
    Seq::new(profile.len(), |n: int| share(profile, n))
}

/// The kernel of a bell profile: every position gets its share, and the
/// centre also gets what rounding left of `ONE`.
pub open spec fn kernel_vals(profile: Seq<int>) -> Seq<int> {
    Seq::new(
        profile.len(),
        |n: int|
            if n == profile.len() / 2 {
                share(profile, n) + (ONE - total(shares(profile)))
            } else {
                share(profile, n)
            },
    )
}

/// `s` reads the same from either end.
pub open spec fn symmetric(s: Seq<int>) -> bool {
    forall|k: int| 0 <= k < s.len() ==> #[trigger] s[k] == s[s.len() - 1 - k]
}

/// What `Gaussian::karnel1d` returns.
pub open spec fn karnel_spec(profile: Seq<int>, radius: int) -> Result<Seq<int>, Error> {
    if profile.len() != 2 * radius + 1 || !symmetric(profile) || total(profile) <= 0 {
        Err(Error::InvalidParameter)
    } else {
        Ok(kernel_vals(profile))
    }
}

/// A kernel: weights that are not negative and sum to `ONE`.
pub open spec fn is_kernel(w: Seq<int>) -> bool {
    &&& forall|j: int| 0 <= j < w.len() ==> 0 <= #[trigger] w[j]
    &&& total(w) == ONE
}

/// The position of `x` that stands for position `k` of the signal with
/// its first and last element replicated beyond its ends.
pub open spec fn clamp_index(n: int, k: int) -> int {
    if k < 0 {
        0
    } else if k >= n {
        n - 1
    } else {
        k
    }
}

/// The sum of the first `k` weights, each times the element of `x` that
/// it meets when the window is centred on position `i`.
pub open spec fn dot(x: Seq<int>, w: Seq<int>, i: int, k: int) -> int
    decreases k,
{
    if k <= 0 {
        0
    } else {
        dot(x, w, i, k - 1) + w[k - 1] * x[clamp_index(x.len() as int, i + (k - 1) - w.len() / 2)]
    }
}

/// The correlation of `x` with the weights `w` at position `i`, as a
/// fixed-point product.
pub open spec fn correlate_at(x: Seq<int>, w: Seq<int>, i: int) -> int {
    dot(x, w, i, w.len() as int) / (ONE as int)
}

/// The correlation of `x` with `w` at every position.
pub open spec fn correlate_vals(x: Seq<int>, w: Seq<int>) -> Seq<int> {
    Seq::new(x.len(), |i: int| correlate_at(x, w, i))
}

/// The sum of the magnitudes of the first `k` elements of `w`.
pub open spec fn abs_sum(w: Seq<int>, k: int) -> int
    decreases k,
{
    if k <= 0 {
        0
    } else {
        abs_sum(w, k - 1) + magnitude(w[k - 1])
    }
}

/// What `Gaussian::correlate1d` returns.
pub open spec fn correlate_spec(x: Seq<int>, w: Seq<int>) -> Result<Seq<int>, Error> {
    if x.len() == 0 {
        Ok(Seq::empty())
    } else if abs_sum(w, w.len() as int) > i64::MAX || !all_fit(correlate_vals(x, w)) {
        Err(Error::Overflow)
    } else {
        Ok(correlate_vals(x, w))
    }
}

/// What `Gaussian::gaussian1d` returns.
pub open spec fn gaussian_spec(x: Seq<int>, sigma: int, profile: Seq<int>) -> Result<
    Seq<int>,
    Error,
> {
    if sigma <= 0 {
        Err(Error::InvalidParameter)
    } else {
        match karnel_spec(profile, radius_spec(sigma)) {
            Err(e) => Err(e),
            Ok(w) => Ok(correlate_vals(x, w)),
        }
    }
}

/// The magnitudes of a prefix sum to no more than those of a longer one.
pub proof fn lemma_abs_sum_monotone(w: Seq<int>, j: int, k: int)
    requires
        j <= k,
    ensures
        0 <= abs_sum(w, j) <= abs_sum(w, k),
    decreases k - j, k,
{
    if j < k {
        lemma_abs_sum_monotone(w, j, k - 1);
    } else if j > 0 {
        lemma_abs_sum_monotone(w, j - 1, j - 1);
    }
}

/// A weighted sum is bounded by the sum of the weights' magnitudes times
/// a bound on the elements.
pub proof fn lemma_dot_bound(x: Seq<int>, w: Seq<int>, i: int, k: int, b: int)
    requires
        x.len() > 0,
        0 <= k <= w.len(),
        b >= 0,
        forall|t: int| 0 <= t < x.len() ==> -b <= #[trigger] x[t] <= b,
    ensures
        -(b * abs_sum(w, k)) <= dot(x, w, i, k) <= b * abs_sum(w, k),
    decreases k,
{
    if k > 0 {
        lemma_dot_bound(x, w, i, k - 1, b);
        let wj = w[k - 1];
        let xv = x[clamp_index(x.len() as int, i + (k - 1) - w.len() / 2)];
        let a0 = abs_sum(w, k - 1);
        let m = magnitude(wj);
        assert(-(b * m) <= wj * xv <= b * m) by (nonlinear_arith)
            requires
                -b <= xv <= b,
                m == if wj < 0 { -wj } else { wj },
        ;
        assert(b * (a0 + m) == b * a0 + b * m) by (nonlinear_arith);
    } else {
        assert(b * 0 == 0);
    }
}

/// With weights that are not negative, a weighted sum of elements
/// between `lo` and `hi` lies between `lo` and `hi` times the sum of the
/// weights.
pub proof fn lemma_dot_between(x: Seq<int>, w: Seq<int>, i: int, k: int, lo: int, hi: int)
    requires
        x.len() > 0,
        0 <= k <= w.len(),
        forall|j: int| 0 <= j < w.len() ==> 0 <= #[trigger] w[j],
        forall|t: int| 0 <= t < x.len() ==> lo <= #[trigger] x[t] <= hi,
    ensures
        lo * window_sum(w, 0, k) <= dot(x, w, i, k) <= hi * window_sum(w, 0, k),
    decreases k,
{
    if k > 0 {
        lemma_dot_between(x, w, i, k - 1, lo, hi);
        let wj = w[k - 1];
        let xv = x[clamp_index(x.len() as int, i + (k - 1) - w.len() / 2)];
        let s0 = window_sum(w, 0, k - 1);
        assert(window_sum(w, 0, k) == s0 + wj);
        assert(lo * wj <= wj * xv <= hi * wj) by (nonlinear_arith)
            requires
                lo <= xv <= hi,
                0 <= wj,
        ;
        assert(lo * (s0 + wj) == lo * s0 + lo * wj) by (nonlinear_arith);
        assert(hi * (s0 + wj) == hi * s0 + hi * wj) by (nonlinear_arith);
    } else {
        assert(lo * 0 == 0);
        assert(hi * 0 == 0);
    }
}

/// Smoothing with a kernel keeps every value between the least and the
/// greatest element of the signal.
pub proof fn lemma_kernel_keeps_range(x: Seq<int>, w: Seq<int>, i: int, lo: int, hi: int)
    requires
        x.len() > 0,
        is_kernel(w),
        forall|t: int| 0 <= t < x.len() ==> lo <= #[trigger] x[t] <= hi,
    ensures
        lo <= correlate_at(x, w, i) <= hi,
{
    lemma_dot_between(x, w, i, w.len() as int, lo, hi);
    let d = dot(x, w, i, w.len() as int);
    let one = ONE as int;
    assert(lo * one <= d <= hi * one);
    crate::fixed::lemma_div_between(d, one, lo, hi);
}

/// Smoothing a constant signal with a kernel gives the same constant at
/// every position: the replicated ends hold the constant too, and the
/// weights sum to one.
pub proof fn lemma_constant_signal(x: Seq<int>, w: Seq<int>, c: int, i: int)
    requires
        x.len() > 0,
        is_kernel(w),
        forall|t: int| 0 <= t < x.len() ==> #[trigger] x[t] == c,
    ensures
        correlate_at(x, w, i) == c,
{
    lemma_kernel_keeps_range(x, w, i, c, c);
}

/// The Gaussian smoother gives a signal of the length of its input, and
/// the kernel it smooths with sums to exactly one.
pub proof fn lemma_gaussian_keeps_length(x: Seq<int>, sigma: int, profile: Seq<int>)
    requires
        gaussian_spec(x, sigma, profile) is Ok,
        forall|n: int| 0 <= n < profile.len() ==> 0 <= #[trigger] profile[n],
    ensures
        gaussian_spec(x, sigma, profile)->Ok_0.len() == x.len(),
        is_kernel(kernel_vals(profile)),
{
    lemma_kernel_normalised(profile);
}

/// The Gaussian smoother returns a constant signal as it is.
pub proof fn lemma_gaussian_constant(x: Seq<int>, sigma: int, profile: Seq<int>, c: int)
    requires
        gaussian_spec(x, sigma, profile) is Ok,
        forall|n: int| 0 <= n < profile.len() ==> 0 <= #[trigger] profile[n],
        forall|t: int| 0 <= t < x.len() ==> #[trigger] x[t] == c,
    ensures
        gaussian_spec(x, sigma, profile) == Ok::<Seq<int>, Error>(x),
{
    lemma_kernel_normalised(profile);
    let w = kernel_vals(profile);
    let y = correlate_vals(x, w);
    assert forall|i: int| 0 <= i < x.len() implies y[i] == x[i] by {
        lemma_constant_signal(x, w, c, i);
    }
    assert(y =~= x);
}

/// The shares of the first `k` positions, times the total of the
/// profile, do not exceed `ONE` times the sum of those positions.
proof fn lemma_shares_prefix(p: Seq<int>, k: int)
    requires
        total(p) > 0,
        forall|n: int| 0 <= n < p.len() ==> 0 <= #[trigger] p[n],
        0 <= k <= p.len(),
    ensures
        0 <= window_sum(shares(p), 0, k),
        window_sum(shares(p), 0, k) * total(p) <= ONE * window_sum(p, 0, k),
    decreases k,
{
    if k > 0 {
        lemma_shares_prefix(p, k - 1);
        let t = total(p);
        let a = p[k - 1] * ONE;
        let s = share(p, k - 1);
        assert(shares(p)[k - 1] == s);
        assert(0 <= a) by (nonlinear_arith)
            requires
                0 <= p[k - 1],
                a == p[k - 1] * ONE,
        ;
        vstd::arithmetic::div_mod::lemma_fundamental_div_mod(a, t);
        vstd::arithmetic::div_mod::lemma_mod_bound(a, t);
        vstd::arithmetic::div_mod::lemma_div_pos_is_pos(a, t);
        let s0 = window_sum(shares(p), 0, k - 1);
        let q0 = window_sum(p, 0, k - 1);
        assert((s0 + s) * t <= ONE * (q0 + p[k - 1])) by (nonlinear_arith)
            requires
                s0 * t <= ONE * q0,
                a == t * s + a % t,
                0 <= a % t,
                a == p[k - 1] * ONE,
        ;
    } else {
        assert(0 * total(p) == 0);
        assert(ONE * 0 == 0);
    }
}

/// The kernel of a profile that is not negative and has mass is a
/// kernel: its weights are not negative and sum to exactly `ONE`.
pub proof fn lemma_kernel_normalised(p: Seq<int>)
    requires
        total(p) > 0,
        forall|n: int| 0 <= n < p.len() ==> 0 <= #[trigger] p[n],
    ensures
        is_kernel(kernel_vals(p)),
        kernel_vals(p).len() == p.len(),
        0 <= total(shares(p)) <= ONE,
{
    let t = total(p);
    let sh = shares(p);
    let w = kernel_vals(p);
    let len = p.len() as int;
    let c = len / 2;
    lemma_shares_prefix(p, len);
    assert(total(sh) <= ONE) by (nonlinear_arith)
        requires
            total(sh) * t <= ONE * t,
            t > 0,
    ;
    assert forall|j: int| 0 <= j < w.len() implies 0 <= #[trigger] w[j] by {
        let a = p[j] * ONE;
        assert(0 <= a) by (nonlinear_arith)
            requires
                0 <= p[j],
                a == p[j] * ONE,
        ;
        vstd::arithmetic::div_mod::lemma_div_pos_is_pos(a, t);
    }
    assert(len > 0) by {
        if len == 0 {
            assert(window_sum(p, 0, 0) == 0);
        }
    }
    lemma_centre_added(sh, w, c, ONE - total(sh), len);
}

/// The kernel of a symmetric profile of odd length is symmetric.
pub proof fn lemma_kernel_symmetric(p: Seq<int>)
    requires
        symmetric(p),
        p.len() % 2 == 1,
    ensures
        symmetric(kernel_vals(p)),
{
    let w = kernel_vals(p);
    let c = p.len() / 2;
    assert forall|k: int| 0 <= k < w.len() implies #[trigger] w[k] == w[w.len() - 1 - k] by {
        let mirror = p.len() - 1 - k;
        assert(p[k] == p[mirror]);
        assert(k == c <==> mirror == c);
    }
}

/// Two sequences that differ only at position `c`, by `d`, have prefix
/// sums that agree up to `c` and differ by `d` beyond it.
proof fn lemma_centre_added(a: Seq<int>, b: Seq<int>, c: int, d: int, k: int)
    requires
        a.len() == b.len(),
        0 <= k <= a.len(),
        0 <= c < a.len(),
        forall|j: int| 0 <= j < a.len() && j != c ==> #[trigger] b[j] == a[j],
        b[c] == a[c] + d,
    ensures
        window_sum(b, 0, k) == window_sum(a, 0, k) + if k > c { d } else { 0 },
    decreases k,
{
    if k > 0 {
        lemma_centre_added(a, b, c, d, k - 1);
    }
}

/// The Gaussian smoother.
pub struct Gaussian {}

impl Gaussian {
    /// The truncation radius for a kernel of spread `sigma`, or `None`
    /// where `sigma` is not positive.
    pub fn radius(sigma: i64) -> (r: Option<u64>)
        ensures
            r == if sigma > 0 {
                Some(radius_spec(sigma as int) as u64)
            } else {
                None
            },
            sigma > 0 ==> 0 <= radius_spec(sigma as int) <= u64::MAX,
    {
        if sigma <= 0 {
            return None;
        }
        let q: i128 = (4 * (sigma as i128) + (ONE as i128) / 2) / (ONE as i128);
        Some(q as u64)
    }

    /// Applies the Gaussian smoother of spread `sigma` to `array`.
    /// `profile` holds the bell curve sampled at the positions
    /// `-radius ..= radius`, in any unit.
    pub fn gaussian1d(array: &[i64], sigma: i64, profile: &[u64]) -> (r: Result<Vec<i64>, Error>)
        ensures
            lift(r) == gaussian_spec(ints(array@), sigma as int, nats(profile@)),
            r is Ok ==> r->Ok_0.len() == array.len(),
    {
        let weight: Vec<i64> = match Self::kernel_for(sigma, profile) {
            Ok(w) => w,
            Err(e) => { return Err(e); },
        };
        Self::smooth_with(array, &weight)
    }

    /// The kernel of spread `sigma` from the bell profile sampled for
    /// it.
    pub(crate) fn kernel_for(sigma: i64, profile: &[u64]) -> (r: Result<Vec<i64>, Error>)
        ensures
            lift(r) == if sigma <= 0 {
                Err::<Seq<int>, Error>(Error::InvalidParameter)
            } else {
                karnel_spec(nats(profile@), radius_spec(sigma as int))
            },
            r is Ok ==> is_kernel(ints(r->Ok_0@)),
    {
        let radius: u64 = match Self::radius(sigma) {
            Some(v) => v,
            None => { return Err(Error::InvalidParameter); },
        };
        if radius > (usize::MAX / 2) as u64 {
            assert(nats(profile@).len() == profile.len());
            return Err(Error::InvalidParameter);
        }
        Self::karnel1d(profile, radius as usize)
    }

    /// Correlates `array` with weights that form a kernel. No value can
    /// leave the range of the samples.
    pub(crate) fn smooth_with(array: &[i64], weight: &Vec<i64>) -> (r: Result<Vec<i64>, Error>)
        requires
            is_kernel(ints(weight@)),
        ensures
            lift(r) == Ok::<Seq<int>, Error>(correlate_vals(ints(array@), ints(weight@))),
            r is Ok,
            r->Ok_0.len() == array.len(),
    {
        let r = Self::correlate1d(array, weight.as_slice());
        proof {
            let x = ints(array@);
            let w = ints(weight@);
            if x.len() > 0 {
                lemma_abs_sum_of_kernel(w, w.len() as int);
                assert forall|i: int| 0 <= i < x.len() implies fits(
                    #[trigger] correlate_vals(x, w)[i],
                ) by {
                    lemma_kernel_keeps_range(x, w, i, i64::MIN as int, i64::MAX as int);
                }
            } else {
                assert(correlate_vals(x, w) =~= Seq::<int>::empty());
            }
        }
        r
    }

    /// The kernel of a bell profile sampled at `-radius ..= radius`:
    /// weights in proportion to the profile that sum to exactly one.
    pub fn karnel1d(profile: &[u64], radius: usize) -> (r: Result<Vec<i64>, Error>)
        ensures
            lift(r) == karnel_spec(nats(profile@), radius as int),
            r is Ok ==> is_kernel(ints(r->Ok_0@)) && symmetric(ints(r->Ok_0@)) && r->Ok_0.len()
                == profile.len(),
    {
        let len: usize = profile.len();
        if radius > usize::MAX / 2 || len != 2 * radius + 1 {
            return Err(Error::InvalidParameter);
        }
        let ghost p = nats(profile@);
        let mut h: usize = 0;
        while h < radius
            invariant
                p == nats(profile@),
                len == profile.len(),
                len == 2 * radius + 1,
                h <= radius,
                forall|k: int| 0 <= k < h ==> #[trigger] p[k] == p[len - 1 - k],
            decreases radius - h,
        {
            if profile[h] != profile[len - 1 - h] {
                proof {
                    assert(p[h as int] != p[len - 1 - h as int]);
                }
                return Err(Error::InvalidParameter);
            }
            h = h + 1;
        }
        proof {
            assert forall|k: int| 0 <= k < p.len() implies #[trigger] p[k] == p[p.len() - 1 - k] by {
                if k > radius {
                    let mirror = len - 1 - k;
                    assert(p[mirror] == p[len - 1 - mirror]);
                }
            }
            lemma_kernel_symmetric(p);
        }
        let mut sum: u128 = 0;
        let mut k: usize = 0;
        while k < len
            invariant
                p == nats(profile@),
                len == profile.len(),
                k <= len,
                sum == window_sum(p, 0, k as int),
            decreases len - k,
        {
            proof {
                lemma_window_bound(p, 0, k as int + 1, u64::MAX as int);
                crate::sums::lemma_window_nonneg(p, 0, k as int + 1);
                assert(inside(len as int, 0, k as int + 1) <= u64::MAX);
                assert(u64::MAX * inside(len as int, 0, k as int + 1) <= u64::MAX * u64::MAX)
                    by (nonlinear_arith)
                    requires
                        0 <= inside(len as int, 0, k as int + 1) <= u64::MAX,
                ;
            }
            sum = sum + profile[k] as u128;
            k = k + 1;
        }
        if sum == 0 {
            return Err(Error::InvalidParameter);
        }
        proof {
            lemma_kernel_normalised(p);
        }
        let mut out: Vec<i64> = Vec::new();
        let mut given: i64 = 0;
        let mut n: usize = 0;
        while n < len
            invariant
                p == nats(profile@),
                len == profile.len(),
                n <= len,
                sum == total(p),
                sum > 0,
                out.len() == n,
                forall|j: int| 0 <= j < n ==> out@[j] as int == share(p, j),
                given == window_sum(shares(p), 0, n as int),
                0 <= given <= ONE,
                forall|j: int| 0 <= j < n ==> 0 <= #[trigger] out@[j] <= given,
                forall|j: int| 0 <= j < p.len() ==> 0 <= #[trigger] p[j],
                0 <= total(shares(p)) <= ONE,
            decreases len - n,
        {
            let a: u128 = (profile[n] as u128) * (ONE as u128);
            let s: u128 = a / sum;
            proof {
                assert(p[n as int] == profile@[n as int]);
                assert(a == p[n as int] * ONE);
                assert(s == share(p, n as int));
                assert(shares(p)[n as int] == s);
                crate::sums::lemma_window_split(shares(p), 0, n as int + 1, len as int);
                crate::sums::lemma_window_nonneg(shares(p), n as int + 1, len as int);
                crate::sums::lemma_window_nonneg(shares(p), 0, n as int);
            }
            out.push(s as i64);
            given = given + s as i64;
            n = n + 1;
        }
        let c: usize = radius;
        let centre: i64 = out[c] + (ONE - given);
        out.set(c, centre);
        proof {
            assert(ints(out@) =~= kernel_vals(p));
        }
        Ok(out)
    }

    /// Correlates `input` with `weight`: every output is the sum of the
    /// weights times the samples they meet when the window is centred
    /// there, as a fixed-point product rounded down. Beyond its ends the
    /// signal continues with its first and its last sample.
    pub fn correlate1d(input: &[i64], weight: &[i64]) -> (r: Result<Vec<i64>, Error>)
        ensures
            lift(r) == correlate_spec(ints(input@), ints(weight@)),
            r is Ok ==> r->Ok_0.len() == input.len(),
    {
        let n: usize = input.len();
        let m: usize = weight.len();
        let side: usize = m / 2;
        let ghost x = ints(input@);
        let ghost w = ints(weight@);
        let mut out: Vec<i64> = Vec::new();
        if n == 0 {
            assert(ints(out@) =~= Seq::<int>::empty());
            return Ok(out);
        }
        let mut mass: u128 = 0;
        let mut j: usize = 0;
        while j < m
            invariant
                w == ints(weight@),
                m == weight.len(),
                j <= m,
                mass == abs_sum(w, j as int),
                mass <= 0x8000_0000_0000_0000 * j,
            decreases m - j,
        {
            let v: i64 = weight[j];
            let a: u128 = if v < 0 { (-(v as i128)) as u128 } else { v as u128 };
            proof {
                assert(a == magnitude(w[j as int]));
                assert(0x8000_0000_0000_0000 * (j + 1) <= 0x8000_0000_0000_0000
                    * 0xffff_ffff_ffff_ffff) by (nonlinear_arith)
                    requires
                        j + 1 <= 0xffff_ffff_ffff_ffff,
                ;
            }
            mass = mass + a;
            j = j + 1;
        }
        if mass > i64::MAX as u128 {
            return Err(Error::Overflow);
        }
        let mut i: usize = 0;
        while i < n
            invariant
                x == ints(input@),
                w == ints(weight@),
                n == input.len(),
                n > 0,
                m == weight.len(),
                side == m / 2,
                abs_sum(w, m as int) <= i64::MAX,
                i <= n,
                out.len() == i,
                forall|t: int| 0 <= t < i ==> out@[t] as int == correlate_at(x, w, t),
            decreases n - i,
        {
            let mut s: i128 = 0;
            let mut j: usize = 0;
            while j < m
                invariant
                    x == ints(input@),
                    w == ints(weight@),
                    n == input.len(),
                    n > 0,
                    m == weight.len(),
                    side == m / 2,
                    abs_sum(w, m as int) <= i64::MAX,
                    i < n,
                    j <= m,
                    s == dot(x, w, i as int, j as int),
                decreases m - j,
            {
                let pos: i128 = i as i128 + j as i128 - side as i128;
                let idx: usize = if pos < 0 {
                    0
                } else if pos >= n as i128 {
                    n - 1
                } else {
                    pos as usize
                };
                proof {
                    assert(idx == clamp_index(x.len() as int, i as int + j as int - w.len() / 2));
                    lemma_dot_bound(x, w, i as int, j as int + 1, 0x8000_0000_0000_0000);
                    lemma_abs_sum_monotone(w, j as int + 1, m as int);
                    let b = abs_sum(w, j as int + 1);
                    assert(0x8000_0000_0000_0000 * b <= 0x8000_0000_0000_0000
                        * 0x7fff_ffff_ffff_ffff) by (nonlinear_arith)
                        requires
                            0 <= b <= 0x7fff_ffff_ffff_ffff,
                    ;
                    let wv = weight@[j as int] as int;
                    let xv = input@[idx as int] as int;
                    assert(-0x8000_0000_0000_0000 * 0x8000_0000_0000_0000 <= wv * xv
                        <= 0x8000_0000_0000_0000 * 0x8000_0000_0000_0000) by (nonlinear_arith)
                        requires
                            -0x8000_0000_0000_0000 <= wv <= 0x8000_0000_0000_0000,
                            -0x8000_0000_0000_0000 <= xv <= 0x8000_0000_0000_0000,
                    ;
                }
                s = s + (weight[j] as i128) * (input[idx] as i128);
                j = j + 1;
            }
            let q: i128 = div_floor(s, ONE as i128);
            if q < i64::MIN as i128 || q > i64::MAX as i128 {
                proof {
                    assert(correlate_vals(x, w)[i as int] == q);
                    assert(!fits(correlate_vals(x, w)[i as int]));
                }
                return Err(Error::Overflow);
            }
            out.push(q as i64);
            i = i + 1;
        }
        proof {
            assert(ints(out@) =~= correlate_vals(x, w));
        }
        Ok(out)
    }
}

/// The magnitudes of weights that are not negative sum to what the
/// weights sum to.
proof fn lemma_abs_sum_of_kernel(w: Seq<int>, k: int)
    requires
        forall|j: int| 0 <= j < w.len() ==> 0 <= #[trigger] w[j],
        0 <= k <= w.len(),
    ensures
        abs_sum(w, k) == window_sum(w, 0, k),
    decreases k,
{
    if k > 0 {
        lemma_abs_sum_of_kernel(w, k - 1);
    }
}

} // verus!
