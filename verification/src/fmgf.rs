//! The robust filter: a Gaussian baseline, corrected at every time step
//! by the mode of the density of the residual around it.

use vstd::prelude::*;
use crate::boxfilter::{lemma_sma_bounded, sma_at, sma_spec, sma_vals};
use crate::error::{Error, lift};
use crate::fixed::{all_fit, div_floor, fits, ints, nats, ONE};
use crate::gf::{
    correlate_at, correlate_vals, gaussian_spec, is_kernel, kernel_vals, lemma_kernel_keeps_range,
    Gaussian,
};
use crate::histogram::{first_max, grid_spec, lemma_grid_encloses, rank};
use crate::matrix::{column, with_cell, with_column, with_row, Matrix};

verus! {

/// The margin of the histogram: five steps beyond the residual at
/// either end.
pub const MARGIN: i64 = 5_000_000;

/// The density of one time step holds one unit of mass before it is
/// smoothed, and no cell exceeds eight units after the three passes of
/// the box filter.
pub const DENSITY_MAX: i64 = 8_000_000;

/// What is left of the signal `x` when the baseline `yg` is taken off.
pub open spec fn residual(x: Seq<int>, yg: Seq<int>) -> Seq<int> {
    Seq::new(x.len(), |i: int| x[i] - yg[i])
}

/// The rank of every residual among the edges.
pub open spec fn ranks(r: Seq<int>, edges: Seq<int>) -> Seq<int> {
    Seq::new(r.len(), |i: int| rank(edges, r[i]))
}

/// The histogram before it is smoothed: one row for every bin, one
/// column for every time step, and in every column one unit of mass in
/// the bin of that time step's residual.
pub open spec fn scatter(digits: Seq<int>, bins: int) -> Seq<Seq<int>> {
    Seq::new(
        bins as nat,
        |b: int| Seq::new(digits.len(), |i: int| if digits[i] == b { ONE as int } else { 0int }),
    )
}

/// Every row of `z` smoothed along time with the kernel `w`.
pub open spec fn smooth_rows(z: Seq<Seq<int>>, w: Seq<int>) -> Seq<Seq<int>> {
    Seq::new(z.len(), |b: int| correlate_vals(z[b], w))
}

/// Three passes of the box filter of width `m`.
pub open spec fn sma3(s: Seq<int>, m: int) -> Seq<int> {
    sma_vals(sma_vals(sma_vals(s, m), m), m)
}

/// Every one of the `n` columns of `z` smoothed across the bins with
/// three passes of the box filter of width `m`.
pub open spec fn smooth_columns(z: Seq<Seq<int>>, n: int, m: int) -> Seq<Seq<int>> {
    Seq::new(z.len(), |b: int| Seq::new(n as nat, |i: int| sma3(column(z, i), m)[b]))
}

/// The density of the residual `r` over the bins that `edges` bound,
/// for every time step: the histogram, smoothed along time with the
/// kernel `w` and across the bins with the box filter of width `m`.
pub open spec fn density(r: Seq<int>, edges: Seq<int>, w: Seq<int>, m: int) -> Seq<Seq<int>> {
    smooth_columns(
        smooth_rows(scatter(ranks(r, edges), edges.len() as int), w),
        r.len() as int,
        m,
    )
}

/// The bin of the mode of the density at time step `i`: the first bin
/// that holds its greatest value.
pub open spec fn mode(z: Seq<Seq<int>>, i: int) -> int {
    first_max(column(z, i), z.len() as int)
}

/// The mode at time step `i` has a bin on either side.
pub open spec fn interior(z: Seq<Seq<int>>, i: int) -> bool {
    0 < mode(z, i) < z.len() - 1
}

/// The point of the quadratic Bezier curve over the control points
/// `ym`, `y0`, `yp` at the parameter at which the parabola through the
/// densities `zm`, `z0`, `zp` peaks, rounded down. The parameter is
/// `(zm - z0) / (zm - 2 z0 + zp)`; where that denominator is zero, the
/// point is `y0`.
pub open spec fn peak(zm: int, z0: int, zp: int, ym: int, y0: int, yp: int) -> int {
    let a = z0 - zm;
    let c = z0 - zp;
    let b = a + c;
    if b == 0 {
        y0
    } else {
        (c * c * ym + 2 * a * c * y0 + a * a * yp) / (b * b)
    }
}

/// What the mode of the density at time step `i` adds to the baseline.
pub open spec fn correction(z: Seq<Seq<int>>, edges: Seq<int>, i: int) -> int {
    let q = mode(z, i);
    peak(z[q - 1][i], z[q][i], z[q + 1][i], edges[q - 1], edges[q], edges[q + 1])
}

/// The baseline with the correction of every time step added.
pub open spec fn corrected(yg: Seq<int>, z: Seq<Seq<int>>, edges: Seq<int>) -> Seq<int> {
    Seq::new(yg.len(), |i: int| yg[i] + correction(z, edges, i))
}

/// What `Fmgf::fmgf` returns.
pub open spec fn fmgf_spec(x: Seq<int>, sigma: int, profile: Seq<int>, m: int) -> Result<
    Seq<int>,
    Error,
> {
    if x.len() == 0 || m <= 0 {
        Err(Error::InvalidParameter)
    } else {
        match gaussian_spec(x, sigma, profile) {
            Err(e) => Err(e),
            Ok(yg) => {
                let r = residual(x, yg);
                if !all_fit(r) {
                    Err(Error::Overflow)
                } else {
                    match grid_spec(r, m, MARGIN as int) {
                        Err(e) => if e == Error::Degenerate {
                            Ok(yg)
                        } else {
                            Err(e)
                        },
                        Ok(edges) => {
                            let z = density(r, edges, kernel_vals(profile), m);
                            if exists|i: int| 0 <= i < x.len() && !interior(z, i) {
                                Err(Error::BoundaryMode)
                            } else if !all_fit(corrected(yg, z, edges)) {
                                Err(Error::Overflow)
                            } else {
                                Ok(corrected(yg, z, edges))
                            }
                        },
                    }
                }
            },
        }
    }
}

/// A constant signal passes the filter unchanged: its baseline is the
/// signal, and a residual of zeros has no spread to correct it with.
pub proof fn lemma_filter_constant(x: Seq<int>, sigma: int, profile: Seq<int>, m: int, c: int)
    requires
        x.len() > 0,
        m > 0,
        gaussian_spec(x, sigma, profile) is Ok,
        forall|n: int| 0 <= n < profile.len() ==> 0 <= #[trigger] profile[n],
        forall|t: int| 0 <= t < x.len() ==> #[trigger] x[t] == c,
    ensures
        fmgf_spec(x, sigma, profile, m) == Ok::<Seq<int>, Error>(x),
{
    crate::gf::lemma_gaussian_constant(x, sigma, profile, c);
    let r = residual(x, x);
    assert forall|t: int| 0 <= t < r.len() implies #[trigger] r[t] == 0 by {
        assert(x[t] == c);
    }
    crate::stats::lemma_mad_of_constant(r, 0);
    assert(crate::histogram::grid_step(0, m) == 0);
}

/// Around a mode, the interpolated peak lies between the control
/// points on either side of it: the density before the mode is strictly
/// less, the density behind it is not greater, and the curve is a
/// weighted mean of its control points.
pub proof fn lemma_peak_between(zm: int, z0: int, zp: int, ym: int, y0: int, yp: int)
    requires
        zm < z0,
        zp <= z0,
        ym <= y0 <= yp,
    ensures
        ym <= peak(zm, z0, zp, ym, y0, yp) <= yp,
{
    let a = z0 - zm;
    let c = z0 - zp;
    let b = a + c;
    let num = c * c * ym + 2 * a * c * y0 + a * a * yp;
    assert(b * b > 0 && ym * (b * b) <= num <= yp * (b * b)) by (nonlinear_arith)
        requires
            a > 0,
            c >= 0,
            b == a + c,
            ym <= y0 <= yp,
            num == c * c * ym + 2 * a * c * y0 + a * a * yp,
    ;
    crate::fixed::lemma_div_between(num, b * b, ym, yp);
}

/// Positions as mathematical integers.
pub open spec fn indices(s: Seq<usize>) -> Seq<int> {
    Seq::new(s.len(), |i: int| s[i] as int)
}

/// Every cell of `z` lies between `lo` and `hi`.
pub open spec fn cells_within(z: Seq<Seq<int>>, lo: int, hi: int) -> bool {
    forall|b: int, i: int|
        0 <= b < z.len() && 0 <= i < z[b].len() ==> lo <= #[trigger] z[b][i] <= hi
}

/// The histogram with the mass of the first `k` time steps only.
spec fn scatter_upto(digits: Seq<int>, bins: int, k: int) -> Seq<Seq<int>> {
    Seq::new(
        bins as nat,
        |b: int|
            Seq::new(
                digits.len(),
                |i: int| if i < k && digits[i] == b { ONE as int } else { 0int },
            ),
    )
}

/// The grid whose first `k` rows are those of `z` smoothed with `w`
/// and whose other rows are those of `z`.
spec fn rows_upto(z: Seq<Seq<int>>, w: Seq<int>, k: int) -> Seq<Seq<int>> {
    Seq::new(z.len(), |b: int| if b < k { correlate_vals(z[b], w) } else { z[b] })
}

/// The grid whose first `k` columns are those of `z` after three
/// passes of the box filter and whose other columns are those of `z`.
spec fn columns_upto(z: Seq<Seq<int>>, n: int, m: int, k: int) -> Seq<Seq<int>> {
    Seq::new(
        z.len(),
        |b: int| Seq::new(n as nat, |i: int| if i < k { sma3(column(z, i), m)[b] } else { z[b][i] }),
    )
}

/// Three passes of the box filter over values between zero and `b` give
/// values between zero and eight times `b`.
proof fn lemma_sma3_bounded(x: Seq<int>, m: int, b: int)
    requires
        m > 0,
        b >= 0,
        forall|k: int| 0 <= k < x.len() ==> 0 <= #[trigger] x[k] <= b,
    ensures
        forall|k: int| 0 <= k < x.len() ==> 0 <= #[trigger] sma_vals(x, m)[k] <= 2 * b,
        forall|k: int|
            0 <= k < x.len() ==> 0 <= #[trigger] sma_vals(sma_vals(x, m), m)[k] <= 4 * b,
        forall|k: int| 0 <= k < x.len() ==> 0 <= #[trigger] sma3(x, m)[k] <= 8 * b,
        sma3(x, m).len() == x.len(),
{
    let s1 = sma_vals(x, m);
    let s2 = sma_vals(s1, m);
    let s3 = sma_vals(s2, m);
    assert forall|k: int| 0 <= k < x.len() implies 0 <= #[trigger] s1[k] <= 2 * b by {
        lemma_sma_bounded(x, m, b, k);
    }
    assert forall|k: int| 0 <= k < x.len() implies 0 <= #[trigger] s2[k] <= 4 * b by {
        lemma_sma_bounded(s1, m, 2 * b, k);
    }
    assert forall|k: int| 0 <= k < x.len() implies 0 <= #[trigger] s3[k] <= 8 * b by {
        lemma_sma_bounded(s2, m, 4 * b, k);
    }
}

/// The residual of `input` over the baseline `yg`, where it can be
/// stored.
fn residual_of(input: &[i64], yg: &Vec<i64>) -> (r: Result<Vec<i64>, Error>)
    requires
        yg.len() == input.len(),
    ensures
        lift(r) == if all_fit(residual(ints(input@), ints(yg@))) {
            Ok::<Seq<int>, Error>(residual(ints(input@), ints(yg@)))
        } else {
            Err::<Seq<int>, Error>(Error::Overflow)
        },
{
    let n: usize = input.len();
    let ghost res = residual(ints(input@), ints(yg@));
    let mut out: Vec<i64> = Vec::new();
    let mut i: usize = 0;
    while i < n
        invariant
            res == residual(ints(input@), ints(yg@)),
            n == input.len(),
            n == yg.len(),
            i <= n,
            out.len() == i,
            forall|t: int| 0 <= t < i ==> #[trigger] out@[t] as int == res[t],
        decreases n - i,
    {
        let d: i128 = input[i] as i128 - yg[i] as i128;
        if d < i64::MIN as i128 || d > i64::MAX as i128 {
            proof {
                assert(res[i as int] == d);
                assert(!fits(res[i as int]));
            }
            return Err(Error::Overflow);
        }
        out.push(d as i64);
        i = i + 1;
    }
    proof {
        assert(ints(out@) =~= res);
        assert forall|t: int| 0 <= t < res.len() implies fits(#[trigger] res[t]) by {
            assert(out@[t] as int == res[t]);
        }
    }
    Ok(out)
}

/// The histogram of `bins` bins in which every time step has put one
/// unit of mass into its bin.
fn scatter_into(digits: &Vec<usize>, bins: usize) -> (z: Matrix)
    requires
        forall|i: int| 0 <= i < digits.len() ==> #[trigger] digits@[i] < bins,
    ensures
        z.wf(),
        z.height() == bins,
        z.width() == digits.len(),
        z@ == scatter(indices(digits@), bins as int),
{
    let n: usize = digits.len();
    let ghost d = indices(digits@);
    let mut z = Matrix::new(bins, n);
    assert(z@ =~~= scatter_upto(d, bins as int, 0));
    let mut i: usize = 0;
    while i < n
        invariant
            d == indices(digits@),
            n == digits.len(),
            forall|t: int| 0 <= t < digits.len() ==> #[trigger] digits@[t] < bins,
            i <= n,
            z.wf(),
            z.height() == bins,
            z.width() == n,
            z@ == scatter_upto(d, bins as int, i as int),
        decreases n - i,
    {
        let ghost before = z@;
        z.update(digits[i], i, ONE);
        proof {
            assert(with_cell(before, digits@[i as int] as int, i as int, ONE as int)
                =~~= scatter_upto(d, bins as int, i as int + 1));
        }
        i = i + 1;
    }
    proof {
        assert(scatter_upto(d, bins as int, n as int) =~~= scatter(d, bins as int));
    }
    z
}

/// Smooths every row of `z` along time with the kernel `weight`.
fn smooth_rows_in(z: &mut Matrix, bins: usize, weight: &Vec<i64>) -> (r: Result<(), Error>)
    requires
        old(z).wf(),
        old(z).height() == bins,
        is_kernel(ints(weight@)),
    ensures
        r is Ok,
        final(z).wf(),
        final(z).height() == old(z).height(),
        final(z).width() == old(z).width(),
        final(z)@ == smooth_rows(old(z)@, ints(weight@)),
{
    let ghost z0 = z@;
    let ghost w = ints(weight@);
    proof {
        z.lemma_shape();
        assert(z@ =~~= rows_upto(z0, w, 0));
    }
    let mut b: usize = 0;
    while b < bins
        invariant
            w == ints(weight@),
            is_kernel(w),
            z0 == old(z)@,
            z0.len() == bins,
            b <= bins,
            z.wf(),
            z.height() == bins,
            z.width() == old(z).width(),
            z@ == rows_upto(z0, w, b as int),
        decreases bins - b,
    {
        let row: Vec<i64> = match z.get_row(b) {
            Some(v) => v,
            None => { return Err(Error::InvalidParameter); },
        };
        let smoothed: Vec<i64> = match Gaussian::smooth_with(row.as_slice(), weight) {
            Ok(v) => v,
            Err(e) => { return Err(e); },
        };
        let ghost before = z@;
        proof {
            z.lemma_shape();
        }
        let ok: bool = z.set_row(b, smoothed.as_slice());
        if !ok {
            return Err(Error::InvalidParameter);
        }
        proof {
            assert(with_row(before, b as int, ints(smoothed@)) =~~= rows_upto(z0, w, b as int + 1));
        }
        b = b + 1;
    }
    proof {
        assert(rows_upto(z0, w, bins as int) =~~= smooth_rows(z0, w));
    }
    Ok(())
}

/// Smooths every column of `z` across the bins with three passes of
/// the box filter of width `m`.
fn smooth_columns_in(z: &mut Matrix, n: usize, m: usize) -> (r: Result<(), Error>)
    requires
        old(z).wf(),
        old(z).width() == n,
        m > 0,
        cells_within(old(z)@, 0, ONE as int),
    ensures
        r is Ok,
        final(z).wf(),
        final(z).height() == old(z).height(),
        final(z).width() == old(z).width(),
        final(z)@ == smooth_columns(old(z)@, n as int, m as int),
        cells_within(final(z)@, 0, DENSITY_MAX as int),
{
    let ghost z0 = z@;
    let ghost h = z.height();
    proof {
        z.lemma_shape();
        assert(z@ =~~= columns_upto(z0, n as int, m as int, 0));
    }
    let mut i: usize = 0;
    while i < n
        invariant
            z0 == old(z)@,
            crate::matrix::shaped(z0, h, n as int),
            cells_within(z0, 0, ONE as int),
            m > 0,
            i <= n,
            z.wf(),
            z.height() == h,
            z.width() == n,
            z@ == columns_upto(z0, n as int, m as int, i as int),
        decreases n - i,
    {
        let col: Vec<i64> = match z.get_col(i) {
            Some(v) => v,
            None => { return Err(Error::InvalidParameter); },
        };
        let ghost c = column(z0, i as int);
        proof {
            assert(ints(col@) =~= c);
            assert forall|k: int| 0 <= k < c.len() implies 0 <= #[trigger] c[k] <= ONE by {
                assert(c[k] == z0[k][i as int]);
            }
            lemma_sma3_bounded(c, m as int, ONE as int);
            assert forall|k: int| 0 <= k < c.len() implies fits(#[trigger] sma_vals(c, m as int)[k]) by {}
            assert forall|k: int| 0 <= k < c.len() implies fits(
                #[trigger] sma_vals(sma_vals(c, m as int), m as int)[k],
            ) by {}
            assert forall|k: int| 0 <= k < c.len() implies fits(#[trigger] sma3(c, m as int)[k]) by {}
        }
        let s1: Vec<i64> = match Fmgf::sma(col.as_slice(), m) {
            Ok(v) => v,
            Err(e) => { return Err(e); },
        };
        let s2: Vec<i64> = match Fmgf::sma(s1.as_slice(), m) {
            Ok(v) => v,
            Err(e) => { return Err(e); },
        };
        let s3: Vec<i64> = match Fmgf::sma(s2.as_slice(), m) {
            Ok(v) => v,
            Err(e) => { return Err(e); },
        };
        let ghost before = z@;
        let ok: bool = z.set_col(i, s3.as_slice());
        if !ok {
            return Err(Error::InvalidParameter);
        }
        proof {
            assert(ints(s3@) == sma3(c, m as int));
            assert(with_column(before, i as int, ints(s3@)) =~~= columns_upto(
                z0,
                n as int,
                m as int,
                i as int + 1,
            ));
        }
        i = i + 1;
    }
    proof {
        assert(columns_upto(z0, n as int, m as int, n as int) =~~= smooth_columns(
            z0,
            n as int,
            m as int,
        ));
        assert forall|b: int, t: int| 0 <= b < z@.len() && 0 <= t < z@[b].len() implies 0
            <= #[trigger] z@[b][t] <= DENSITY_MAX by {
            let c = column(z0, t);
            assert forall|k: int| 0 <= k < c.len() implies 0 <= #[trigger] c[k] <= ONE by {
                assert(c[k] == z0[k][t]);
            }
            lemma_sma3_bounded(c, m as int, ONE as int);
            assert(z@[b][t] == sma3(c, m as int)[b]);
        }
    }
    Ok(())
}

/// The bin of the mode of every time step, where every mode has a
/// bin on either side.
fn find_modes(z: &Matrix, n: usize) -> (r: Result<Vec<usize>, Error>)
    requires
        z.wf(),
        z.width() == n,
    ensures
        match r {
            Ok(q) => {
                &&& q.len() == n
                &&& forall|i: int| 0 <= i < n ==> interior(z@, i)
                &&& forall|i: int| 0 <= i < n ==> #[trigger] q@[i] as int == mode(z@, i)
            },
            Err(e) => e == Error::BoundaryMode && exists|i: int| 0 <= i < n && !interior(z@, i),
        },
{
    let mut out: Vec<usize> = Vec::new();
    let mut i: usize = 0;
    proof {
        z.lemma_shape();
    }
    while i < n
        invariant
            z.wf(),
            z.width() == n,
            z@.len() == z.height(),
            i <= n,
            out.len() == i,
            forall|t: int| 0 <= t < i ==> interior(z@, t),
            forall|t: int| 0 <= t < i ==> #[trigger] out@[t] as int == mode(z@, t),
        decreases n - i,
    {
        let col: Vec<i64> = match z.get_col(i) {
            Some(v) => v,
            None => { return Err(Error::BoundaryMode); },
        };
        let bins: usize = col.len();
        proof {
            assert(ints(col@).len() == bins);
            assert(column(z@, i as int).len() == z@.len());
        }
        match Fmgf::argmax(col.as_slice()) {
            Some(q) => {
                if q == 0 || bins - q <= 1 {
                    assert(!interior(z@, i as int));
                    return Err(Error::BoundaryMode);
                }
                assert(mode(z@, i as int) == q);
                assert(interior(z@, i as int));
                out.push(q);
            },
            None => {
                assert(!interior(z@, i as int));
                return Err(Error::BoundaryMode);
            },
        }
        i = i + 1;
    }
    Ok(out)
}

/// The interpolated peak over three neighbouring bins.
fn peak_of(zm: i64, z0: i64, zp: i64, ym: i64, y0: i64, yp: i64) -> (r: i128)
    requires
        0 <= zm <= DENSITY_MAX,
        0 <= z0 <= DENSITY_MAX,
        0 <= zp <= DENSITY_MAX,
    ensures
        r == peak(zm as int, z0 as int, zp as int, ym as int, y0 as int, yp as int),
        -0x1_0000_0000_0000_0000_0000_0000_0000 <= r <= 0x1_0000_0000_0000_0000_0000_0000_0000,
{
    let a: i128 = z0 as i128 - zm as i128;
    let c: i128 = z0 as i128 - zp as i128;
    let b: i128 = a + c;
    if b == 0 {
        return y0 as i128;
    }
    let ghost lim: int = 64_000_000_000_000;
    let ghost big: int = 0x8000_0000_0000_0000;
    proof {
        assert(0 <= c * c <= lim && 0 <= a * a <= lim && -lim <= a * c <= lim && 0 < b * b <= 4
            * lim) by (nonlinear_arith)
            requires
                -8_000_000 <= a <= 8_000_000,
                -8_000_000 <= c <= 8_000_000,
                b == a + c,
                b != 0,
                lim == 64_000_000_000_000,
        ;
    }
    let cc: i128 = c * c;
    let aa: i128 = a * a;
    let ac: i128 = 2 * (a * c);
    proof {
        assert(-(lim * big) <= cc * ym <= lim * big) by (nonlinear_arith)
            requires
                0 <= cc <= lim,
                -big <= ym <= big,
        ;
        assert(-(lim * big) <= aa * yp <= lim * big) by (nonlinear_arith)
            requires
                0 <= aa <= lim,
                -big <= yp <= big,
        ;
        assert(-(2 * lim * big) <= ac * y0 <= 2 * lim * big) by (nonlinear_arith)
            requires
                -2 * lim <= ac <= 2 * lim,
                -big <= y0 <= big,
                lim >= 0,
        ;
        assert(2 * a * c * y0 == ac * y0) by (nonlinear_arith)
            requires
                ac == 2 * (a * c),
        ;
        assert(4 * lim * big <= 0x1_0000_0000_0000_0000_0000_0000_0000);
    }
    let num: i128 = cc * (ym as i128) + ac * (y0 as i128) + aa * (yp as i128);
    let bb: i128 = b * b;
    proof {
        let cap: int = 0x1_0000_0000_0000_0000_0000_0000_0000;
        assert(-cap * bb <= num <= cap * bb) by (nonlinear_arith)
            requires
                -cap <= num <= cap,
                bb >= 1,
                cap >= 0,
        ;
        crate::fixed::lemma_div_between(num as int, bb as int, -cap, cap);
    }
    div_floor(num, bb)
}

/// The baseline with the correction of every time step added, where
/// every value can be stored.
fn interpolate(z: &Matrix, edges: &Vec<i64>, modes: &Vec<usize>, yg: &Vec<i64>) -> (r: Result<
    Vec<i64>,
    Error,
>)
    requires
        z.wf(),
        z.height() == edges.len(),
        z.width() == yg.len(),
        modes.len() == yg.len(),
        cells_within(z@, 0, DENSITY_MAX as int),
        forall|i: int| 0 <= i < yg.len() ==> interior(z@, i),
        forall|i: int| 0 <= i < yg.len() ==> #[trigger] modes@[i] as int == mode(z@, i),
    ensures
        lift(r) == if all_fit(corrected(ints(yg@), z@, ints(edges@))) {
            Ok::<Seq<int>, Error>(corrected(ints(yg@), z@, ints(edges@)))
        } else {
            Err::<Seq<int>, Error>(Error::Overflow)
        },
        r is Ok ==> r->Ok_0.len() == yg.len(),
{
    let n: usize = yg.len();
    let ghost want = corrected(ints(yg@), z@, ints(edges@));
    let mut out: Vec<i64> = Vec::new();
    let mut i: usize = 0;
    proof {
        z.lemma_shape();
    }
    while i < n
        invariant
            want == corrected(ints(yg@), z@, ints(edges@)),
            z.wf(),
            crate::matrix::shaped(z@, z.height(), z.width()),
            z.height() == edges.len(),
            z.width() == yg.len(),
            modes.len() == yg.len(),
            n == yg.len(),
            cells_within(z@, 0, DENSITY_MAX as int),
            forall|t: int| 0 <= t < yg.len() ==> interior(z@, t),
            forall|t: int| 0 <= t < yg.len() ==> #[trigger] modes@[t] as int == mode(z@, t),
            i <= n,
            out.len() == i,
            forall|t: int| 0 <= t < i ==> #[trigger] out@[t] as int == want[t],
        decreases n - i,
    {
        let q: usize = modes[i];
        proof {
            assert(interior(z@, i as int));
            assert(modes@[i as int] as int == mode(z@, i as int));
            assert(0 <= z@[q as int - 1][i as int] <= DENSITY_MAX);
            assert(0 <= z@[q as int][i as int] <= DENSITY_MAX);
            assert(0 <= z@[q as int + 1][i as int] <= DENSITY_MAX);
        }
        let p: i128 = peak_of(
            z.at(q - 1, i),
            z.at(q, i),
            z.at(q + 1, i),
            edges[q - 1],
            edges[q],
            edges[q + 1],
        );
        let v: i128 = yg[i] as i128 + p;
        proof {
            assert(want[i as int] == v);
        }
        if v < i64::MIN as i128 || v > i64::MAX as i128 {
            proof {
                assert(!fits(want[i as int]));
            }
            return Err(Error::Overflow);
        }
        out.push(v as i64);
        i = i + 1;
    }
    proof {
        assert(ints(out@) =~= want);
        assert forall|t: int| 0 <= t < want.len() implies fits(#[trigger] want[t]) by {
            assert(out@[t] as int == want[t]);
        }
    }
    Ok(out)
}

/// Smoothing the rows of a histogram with a kernel keeps every cell
/// between zero and one unit of mass.
proof fn lemma_rows_within(digits: Seq<int>, bins: int, w: Seq<int>)
    requires
        is_kernel(w),
        bins >= 0,
    ensures
        cells_within(smooth_rows(scatter(digits, bins), w), 0, ONE as int),
{
    let z0 = scatter(digits, bins);
    let z1 = smooth_rows(z0, w);
    assert forall|b: int, i: int| 0 <= b < z1.len() && 0 <= i < z1[b].len() implies 0
        <= #[trigger] z1[b][i] <= ONE by {
        let row = z0[b];
        assert(z1[b] == correlate_vals(row, w));
        assert(z1[b][i] == correlate_at(row, w, i));
        assert forall|t: int| 0 <= t < row.len() implies 0 <= #[trigger] row[t] <= ONE by {}
        lemma_kernel_keeps_range(row, w, i, 0, ONE as int);
    }
}

/// The robust Gaussian filter by fast M-estimation, and the pieces it is
/// made of.
pub struct Fmgf {}

impl Fmgf {
    /// Smooths `input` robustly. `sigma` is the spread of the Gaussian
    /// baseline and `profile` the bell curve sampled for it at the
    /// positions `-radius ..= radius`; `width_m` is the number of bins
    /// that six deviations of the residual are spread over, and the
    /// width of the box filter across the bins. Where the residual has
    /// no spread to space a histogram with, the result is the baseline.
    pub fn fmgf(input: &[i64], sigma: i64, profile: &[u64], width_m: usize) -> (r: Result<
        Vec<i64>,
        Error,
    >)
        ensures
            lift(r) == fmgf_spec(ints(input@), sigma as int, nats(profile@), width_m as int),
            r is Ok ==> r->Ok_0.len() == input.len(),
    {
        let n: usize = input.len();
        if n == 0 || width_m == 0 {
            return Err(Error::InvalidParameter);
        }
        let ghost x = ints(input@);
        let weight: Vec<i64> = match Gaussian::kernel_for(sigma, profile) {
            Ok(w) => w,
            Err(e) => { return Err(e); },
        };
        let ghost w = ints(weight@);
        let yg: Vec<i64> = match Gaussian::smooth_with(input, &weight) {
            Ok(v) => v,
            Err(e) => { return Err(e); },
        };
        proof {
            assert(w == kernel_vals(nats(profile@)));
            assert(gaussian_spec(x, sigma as int, nats(profile@)) == Ok::<Seq<int>, Error>(
                ints(yg@),
            ));
        }
        let res: Vec<i64> = match residual_of(input, &yg) {
            Ok(v) => v,
            Err(e) => { return Err(e); },
        };
        let ghost r = ints(res@);
        let edges: Vec<i64> = match Self::grid(res.as_slice(), width_m, MARGIN) {
            Ok(v) => v,
            Err(Error::Degenerate) => { return Ok(yg); },
            Err(e) => { return Err(e); },
        };
        let ghost e = ints(edges@);
        let bins: usize = edges.len();
        let digits: Vec<usize> = Self::digitize(res.as_slice(), edges.as_slice());
        proof {
            assert(grid_spec(r, width_m as int, MARGIN as int) == Ok::<Seq<int>, Error>(e));
            assert forall|i: int| 0 <= i < digits.len() implies #[trigger] digits@[i] < bins by {
                lemma_grid_encloses(r, width_m as int, MARGIN as int, i);
            }
            assert(indices(digits@) =~= ranks(r, e));
            lemma_rows_within(ranks(r, e), bins as int, w);
        }
        let mut z: Matrix = scatter_into(&digits, bins);
        match smooth_rows_in(&mut z, bins, &weight) {
            Ok(_) => {},
            Err(e) => { return Err(e); },
        }
        match smooth_columns_in(&mut z, n, width_m) {
            Ok(_) => {},
            Err(e) => { return Err(e); },
        }
        proof {
            assert(z@ == density(r, e, w, width_m as int));
        }
        let modes: Vec<usize> = match find_modes(&z, n) {
            Ok(v) => v,
            Err(e) => { return Err(e); },
        };
        interpolate(&z, &edges, &modes, &yg)
    }
}

} // verus!
