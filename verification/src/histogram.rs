//! The histogram of the residual: the grid of bin edges, the rank of a
//! value among the edges, and the mode of a density.

use vstd::prelude::*;
use crate::error::{Error, lift};
use crate::fixed::{div_floor, fits, ints, ONE};
use crate::fmgf::Fmgf;
use crate::stats::mad_spec;

verus! {

/// What is added below the least value, beside the margin, so that the
/// first edge lies strictly below every value: one ten-thousandth.
pub const EPS: i64 = 100;

/// How many of the first `k` edges are at or below `v`.
pub open spec fn rank_in(edges: Seq<int>, v: int, k: int) -> int
    decreases k,
{
    if k <= 0 {
        0
    } else {
        rank_in(edges, v, k - 1) + if edges[k - 1] <= v { 1int } else { 0int }
    }
}

/// The rank of `v` among the edges: how many edges are at or below it.
/// With ascending edges this is the bin that `v` falls into, bins being
/// open to the right.
pub open spec fn rank(edges: Seq<int>, v: int) -> int {
    rank_in(edges, v, edges.len() as int)
}

/// The position of the first greatest element among the first `k`
/// elements of `s`.
pub open spec fn first_max(s: Seq<int>, k: int) -> int
    decreases k,
{
    if k <= 1 {
        0
    } else {
        let q = first_max(s, k - 1);
        if s[k - 1] > s[q] {
            k - 1
        } else {
            q
        }
    }
}

/// `q` is the position of the greatest of the first `k` elements of
/// `s`, and the first such position.
pub open spec fn is_argmax_in(s: Seq<int>, k: int, q: int) -> bool {
    &&& 0 <= q < k
    &&& forall|j: int| 0 <= j < k ==> s[j] <= s[q]
    &&& forall|j: int| 0 <= j < q ==> s[j] < s[q]
}

/// `q` is the position of the greatest element of `s`, and the first
/// such position.
pub open spec fn is_argmax(s: Seq<int>, q: int) -> bool {
    is_argmax_in(s, s.len() as int, q)
}

/// The position of the mode of `s`, or `None` where `s` is empty.
pub open spec fn argmax_spec(s: Seq<int>) -> Option<int> {
    if s.len() == 0 {
        None
    } else {
        Some(first_max(s, s.len() as int))
    }
}

/// The step between two edges: six deviations `d` spread over `m` bins.
pub open spec fn grid_step(d: int, m: int) -> int {
    6 * d / m
}

/// The first edge: the least value, less the margin and `EPS`.
pub open spec fn grid_low(x: Seq<int>, dy: int, margin: int) -> int {
    x.min() - (margin * dy / (ONE as int) + EPS)
}

/// The bound that every edge stays below: the greatest value, plus the
/// margin and one step.
pub open spec fn grid_high(x: Seq<int>, dy: int, margin: int) -> int {
    x.max() + (margin + ONE) * dy / (ONE as int)
}

/// How many edges there are from `lo` up to, and without, `hi`.
pub open spec fn grid_count(lo: int, hi: int, dy: int) -> int {
    (hi - lo + dy - 1) / dy
}

/// `count` edges that start at `lo` and lie `dy` apart.
pub open spec fn grid_edges(lo: int, dy: int, count: int) -> Seq<int> {
    Seq::new(count as nat, |k: int| lo + k * dy)
}

/// What `Fmgf::grid` returns.
pub open spec fn grid_spec(x: Seq<int>, m: int, margin: int) -> Result<Seq<int>, Error> {
    if x.len() == 0 || m <= 0 || margin < 0 {
        Err(Error::InvalidParameter)
    } else {
        match mad_spec(x) {
            Err(e) => Err(e),
            Ok(d) => {
                let dy = grid_step(d, m);
                let lo = grid_low(x, dy, margin);
                let hi = grid_high(x, dy, margin);
                if dy <= 0 {
                    Err(Error::Degenerate)
                } else if !fits(dy) || !fits(lo) || !fits(hi) || grid_count(lo, hi, dy)
                    > usize::MAX {
                    Err(Error::Overflow)
                } else {
                    Ok(grid_edges(lo, dy, grid_count(lo, hi, dy)))
                }
            },
        }
    }
}

/// The position that `first_max` gives is that of the first greatest
/// element among the first `k`.
pub proof fn lemma_first_max(s: Seq<int>, k: int)
    requires
        0 < k <= s.len(),
    ensures
        is_argmax_in(s, k, first_max(s, k)),
    decreases k,
{
    if k > 1 {
        lemma_first_max(s, k - 1);
    }
}

/// A rank lies between zero and the number of edges counted.
pub proof fn lemma_rank_range(edges: Seq<int>, v: int, k: int)
    requires
        0 <= k,
    ensures
        0 <= rank_in(edges, v, k) <= k,
    decreases k,
{
    if k > 0 {
        lemma_rank_range(edges, v, k - 1);
    }
}

/// The rank does not fall when the value rises.
pub proof fn lemma_rank_monotone(edges: Seq<int>, a: int, b: int)
    requires
        a <= b,
    ensures
        rank(edges, a) <= rank(edges, b),
{
    lemma_rank_in_monotone(edges, a, b, edges.len() as int);
}

/// `lemma_rank_monotone` for the first `k` edges.
proof fn lemma_rank_in_monotone(edges: Seq<int>, a: int, b: int, k: int)
    requires
        a <= b,
    ensures
        rank_in(edges, a, k) <= rank_in(edges, b, k),
    decreases k,
{
    if k > 0 {
        lemma_rank_in_monotone(edges, a, b, k - 1);
    }
}

/// A value below every edge has rank zero, and a value that no edge
/// exceeds has the number of edges as its rank.
pub proof fn lemma_rank_extremes(edges: Seq<int>, v: int)
    ensures
        (forall|j: int| 0 <= j < edges.len() ==> v < edges[j]) ==> rank(edges, v) == 0,
        (forall|j: int| 0 <= j < edges.len() ==> edges[j] <= v) ==> rank(edges, v) == edges.len(),
{
    lemma_rank_in_extremes(edges, v, edges.len() as int);
}

/// `lemma_rank_extremes` for the first `k` edges.
proof fn lemma_rank_in_extremes(edges: Seq<int>, v: int, k: int)
    requires
        0 <= k <= edges.len(),
    ensures
        (forall|j: int| 0 <= j < k ==> v < edges[j]) ==> rank_in(edges, v, k) == 0,
        (forall|j: int| 0 <= j < k ==> edges[j] <= v) ==> rank_in(edges, v, k) == k,
    decreases k,
{
    if k > 0 {
        lemma_rank_in_extremes(edges, v, k - 1);
    }
}

/// Around a mode that has a bin on either side, the denominator of the
/// interpolation parameter is not zero: the mode is the first greatest
/// value, so the value before it is strictly less.
pub proof fn lemma_mode_denominator(s: Seq<int>, q: int)
    requires
        is_argmax(s, q),
        0 < q < s.len() - 1,
    ensures
        s[q - 1] - 2 * s[q] + s[q + 1] < 0,
{
}

/// The rank among edges with one more edge put in at any position is
/// the rank among the edges without it, plus one where the new edge is
/// at or below the value.
pub proof fn lemma_rank_insert(edges: Seq<int>, pos: int, extra: int, v: int)
    requires
        0 <= pos <= edges.len(),
    ensures
        rank(edges.insert(pos, extra), v) == rank(edges, v) + if extra <= v { 1int } else { 0int },
{
    lemma_rank_insert_in(edges, pos, extra, v, edges.len() as int + 1);
}

/// `lemma_rank_insert` for the first `k` edges of the longer sequence.
proof fn lemma_rank_insert_in(edges: Seq<int>, pos: int, extra: int, v: int, k: int)
    requires
        0 <= pos <= edges.len(),
        0 <= k <= edges.len() + 1,
    ensures
        rank_in(edges.insert(pos, extra), v, k) == if k <= pos {
            rank_in(edges, v, k)
        } else {
            rank_in(edges, v, k - 1) + if extra <= v { 1int } else { 0int }
        },
    decreases k,
{
    let longer = edges.insert(pos, extra);
    if k > 0 {
        lemma_rank_insert_in(edges, pos, extra, v, k - 1);
        if k - 1 < pos {
            assert(longer[k - 1] == edges[k - 1]);
        } else if k - 1 == pos {
            assert(longer[k - 1] == extra);
        } else {
            assert(longer[k - 1] == edges[k - 2]);
        }
    }
}

/// Two values whose ranks differ keep the order of their ranks when an
/// edge is put in.
pub proof fn lemma_rank_order_kept(edges: Seq<int>, pos: int, extra: int, a: int, b: int)
    requires
        0 <= pos <= edges.len(),
        rank(edges, a) < rank(edges, b),
    ensures
        rank(edges.insert(pos, extra), a) < rank(edges.insert(pos, extra), b),
{
    if b <= a {
        lemma_rank_monotone(edges, b, a);
    }
    lemma_rank_insert(edges, pos, extra, a);
    lemma_rank_insert(edges, pos, extra, b);
}

/// A value below some edge among the first `k` has a rank below `k`.
pub proof fn lemma_rank_below(edges: Seq<int>, v: int, k: int, j: int)
    requires
        0 <= j < k <= edges.len(),
        v < edges[j],
    ensures
        rank_in(edges, v, k) < k,
    decreases k,
{
    lemma_rank_range(edges, v, k - 1);
    if j < k - 1 {
        lemma_rank_below(edges, v, k - 1, j);
    }
}

/// The edges of a grid with a margin of at least one step enclose the
/// values: the first edge lies below every value and the last edge
/// above, so that every value has a rank from one up to the number of
/// edges less one.
pub proof fn lemma_grid_encloses(x: Seq<int>, m: int, margin: int, i: int)
    requires
        grid_spec(x, m, margin) is Ok,
        margin >= ONE,
        0 <= i < x.len(),
    ensures
        grid_spec(x, m, margin)->Ok_0.len() >= 1,
        grid_spec(x, m, margin)->Ok_0.first() < x[i] < grid_spec(x, m, margin)->Ok_0.last(),
        0 < rank(grid_spec(x, m, margin)->Ok_0, x[i]) < grid_spec(x, m, margin)->Ok_0.len(),
{
    let edges = grid_spec(x, m, margin)->Ok_0;
    let d = mad_spec(x)->Ok_0;
    let dy = grid_step(d, m);
    let lo = grid_low(x, dy, margin);
    let hi = grid_high(x, dy, margin);
    let count = grid_count(lo, hi, dy);
    let one = ONE as int;
    x.min_ensures();
    x.max_ensures();
    assert(0 <= margin * dy && margin * dy <= (margin * dy) * one) by (nonlinear_arith)
        requires
            margin >= 0,
            dy > 0,
            one == 1_000_000,
    ;
    assert(0 * one == 0);
    crate::fixed::lemma_div_between(margin * dy, one, 0, margin * dy);
    assert(0 <= (margin + one) * dy) by (nonlinear_arith)
        requires
            margin >= 0,
            dy > 0,
            one == 1_000_000,
    ;
    assert((2 * dy) * one <= (margin + one) * dy) by (nonlinear_arith)
        requires
            margin >= one,
            dy > 0,
    ;
    assert(((margin + one) * dy) <= ((margin + one) * dy) * one) by (nonlinear_arith)
        requires
            0 <= (margin + one) * dy,
            one == 1_000_000,
    ;
    crate::fixed::lemma_div_between((margin + one) * dy, one, 2 * dy, (margin + one) * dy);
    let a = hi - lo + dy - 1;
    vstd::arithmetic::div_mod::lemma_fundamental_div_mod(a, dy);
    vstd::arithmetic::div_mod::lemma_mod_bound(a, dy);
    assert(count >= 1 && (count - 1) * dy >= hi - lo - dy) by (nonlinear_arith)
        requires
            a == dy * count + a % dy,
            0 <= a % dy < dy,
            a == hi - lo + dy - 1,
            hi - lo >= 1,
            dy > 0,
    ;
    assert(edges.last() == lo + (count - 1) * dy);
    assert(edges.first() == lo + 0 * dy);
    assert(0 * dy == 0);
    lemma_rank_below(edges, x[i], count, count - 1);
    assert(rank_in(edges, x[i], 1) == rank_in(edges, x[i], 0) + 1);
    lemma_rank_grows(edges, x[i], 1, count);
}

/// The edges of a grid ascend strictly, one step apart.
pub proof fn lemma_grid_ascends(x: Seq<int>, m: int, margin: int, i: int, j: int)
    requires
        grid_spec(x, m, margin) is Ok,
        0 <= i < j < grid_spec(x, m, margin)->Ok_0.len(),
    ensures
        grid_spec(x, m, margin)->Ok_0[j] - grid_spec(x, m, margin)->Ok_0[i] == (j - i) * grid_step(
            mad_spec(x)->Ok_0,
            m,
        ),
        grid_spec(x, m, margin)->Ok_0[i] < grid_spec(x, m, margin)->Ok_0[j],
{
    let dy = grid_step(mad_spec(x)->Ok_0, m);
    assert(j * dy - i * dy == (j - i) * dy && (j - i) * dy > 0) by (nonlinear_arith)
        requires
            i < j,
            dy > 0,
    ;
}

/// Among ascending edges the rank of a value is its bin: the edges
/// before that position are at or below the value, and the edges from
/// that position on are above it.
pub proof fn lemma_rank_is_bin(edges: Seq<int>, v: int)
    requires
        forall|i: int, j: int| 0 <= i <= j < edges.len() ==> edges[i] <= edges[j],
    ensures
        0 <= rank(edges, v) <= edges.len(),
        forall|j: int| 0 <= j < rank(edges, v) ==> edges[j] <= v,
        forall|j: int| rank(edges, v) <= j < edges.len() ==> v < edges[j],
{
    lemma_rank_in_is_bin(edges, v, edges.len() as int);
}

/// `lemma_rank_is_bin` for the first `k` edges.
proof fn lemma_rank_in_is_bin(edges: Seq<int>, v: int, k: int)
    requires
        forall|i: int, j: int| 0 <= i <= j < edges.len() ==> edges[i] <= edges[j],
        0 <= k <= edges.len(),
    ensures
        0 <= rank_in(edges, v, k) <= k,
        forall|j: int| 0 <= j < rank_in(edges, v, k) ==> edges[j] <= v,
        forall|j: int| rank_in(edges, v, k) <= j < k ==> v < edges[j],
    decreases k,
{
    if k > 0 {
        lemma_rank_in_is_bin(edges, v, k - 1);
        let r = rank_in(edges, v, k - 1);
        if edges[k - 1] <= v {
            if r < k - 1 {
                assert(v < edges[r]);
                assert(edges[r] <= edges[k - 1]);
            }
        }
    }
}

/// Counting more edges cannot lower the rank.
pub proof fn lemma_rank_grows(edges: Seq<int>, v: int, j: int, k: int)
    requires
        j <= k,
    ensures
        rank_in(edges, v, j) <= rank_in(edges, v, k),
    decreases k - j,
{
    if j < k {
        lemma_rank_grows(edges, v, j, k - 1);
    }
}

impl Fmgf {
    /// Ranks every value of `input` among the edges `bin`: the number of
    /// edges at or below it.
    pub fn digitize(input: &[i64], bin: &[i64]) -> (r: Vec<usize>)
        ensures
            r.len() == input.len(),
            forall|i: int|
                0 <= i < input.len() ==> #[trigger] r@[i] as int == rank(
                    ints(bin@),
                    input@[i] as int,
                ),
    {
        let n: usize = input.len();
        let m: usize = bin.len();
        let ghost edges = ints(bin@);
        let mut out: Vec<usize> = Vec::new();
        let mut i: usize = 0;
        while i < n
            invariant
                edges == ints(bin@),
                n == input.len(),
                m == bin.len(),
                i <= n,
                out.len() == i,
                forall|t: int| 0 <= t < i ==> #[trigger] out@[t] as int == rank(edges, input@[t] as int),
            decreases n - i,
        {
            let v: i64 = input[i];
            let mut count: usize = 0;
            let mut j: usize = 0;
            while j < m
                invariant
                    edges == ints(bin@),
                    m == bin.len(),
                    j <= m,
                    count <= j,
                    count as int == rank_in(edges, v as int, j as int),
                decreases m - j,
            {
                if bin[j] <= v {
                    count = count + 1;
                }
                j = j + 1;
            }
            out.push(count);
            i = i + 1;
        }
        out
    }

    /// The position of the greatest value of `input`, the first one
    /// where several are greatest, or `None` where `input` is empty.
    pub fn argmax(input: &[i64]) -> (r: Option<usize>)
        ensures
            match r {
                Some(q) => argmax_spec(ints(input@)) == Some(q as int) && is_argmax(
                    ints(input@),
                    q as int,
                ),
                None => argmax_spec(ints(input@)) is None,
            },
    {
        let n: usize = input.len();
        if n == 0 {
            return None;
        }
        let ghost s = ints(input@);
        let mut best: usize = 0;
        let mut i: usize = 1;
        while i < n
            invariant
                s == ints(input@),
                n == input.len(),
                1 <= i <= n,
                best < i,
                best as int == first_max(s, i as int),
            decreases n - i,
        {
            if input[i] > input[best] {
                best = i;
            }
            i = i + 1;
        }
        proof {
            lemma_first_max(s, n as int);
        }
        Some(best)
    }

    /// The edges of the histogram of `input` with `m` bins to six
    /// deviations: they start below the least value, by the margin and a
    /// little more, lie one step apart, and end beyond the greatest value
    /// by the margin. `margin` counts steps, in fixed point.
    pub fn grid(input: &[i64], m: usize, margin: i64) -> (r: Result<Vec<i64>, Error>)
        ensures
            lift(r) == grid_spec(ints(input@), m as int, margin as int),
    {
        let n: usize = input.len();
        if n == 0 || m == 0 || margin < 0 {
            return Err(Error::InvalidParameter);
        }
        let ghost x = ints(input@);
        let d: i64 = match Self::mad(input) {
            Ok(d) => d,
            Err(e) => { return Err(e); },
        };
        let mut least: i64 = input[0];
        let mut most: i64 = input[0];
        let mut i: usize = 1;
        while i < n
            invariant
                x == ints(input@),
                n == input.len(),
                1 <= i <= n,
                forall|j: int| 0 <= j < i ==> least <= #[trigger] x[j] <= most,
                exists|j: int| 0 <= j < i && x[j] == least,
                exists|j: int| 0 <= j < i && x[j] == most,
            decreases n - i,
        {
            let v: i64 = input[i];
            proof {
                assert(x[i as int] == v);
            }
            if v < least {
                least = v;
            }
            if v > most {
                most = v;
            }
            i = i + 1;
        }
        proof {
            x.min_ensures();
            x.max_ensures();
            assert(x.contains(x.min()));
            assert(x.contains(x.max()));
            assert(least == x.min());
            assert(most == x.max());
        }
        let dy: i128 = div_floor(6 * (d as i128), m as i128);
        if dy <= 0 {
            return Err(Error::Degenerate);
        }
        if dy > i64::MAX as i128 {
            return Err(Error::Overflow);
        }
        proof {
            lemma_margin_products(margin as int, dy as int);
        }
        let below: i128 = div_floor((margin as i128) * dy, ONE as i128) + EPS as i128;
        let above: i128 = div_floor((margin as i128 + ONE as i128) * dy, ONE as i128);
        let lo: i128 = least as i128 - below;
        let hi: i128 = most as i128 + above;
        if lo < i64::MIN as i128 || hi > i64::MAX as i128 {
            return Err(Error::Overflow);
        }
        let count: i128 = (hi - lo + dy - 1) / dy;
        if count > usize::MAX as i128 {
            return Err(Error::Overflow);
        }
        let mut out: Vec<i64> = Vec::new();
        let mut k: usize = 0;
        let ghost edges = grid_edges(lo as int, dy as int, count as int);
        while k < count as usize
            invariant
                0 < dy <= i64::MAX,
                i64::MIN <= lo < hi <= i64::MAX,
                count == grid_count(lo as int, hi as int, dy as int),
                0 <= count <= usize::MAX,
                edges == grid_edges(lo as int, dy as int, count as int),
                k <= count,
                out.len() == k,
                forall|j: int| 0 <= j < k ==> out@[j] as int == edges[j],
            decreases count - k,
        {
            proof {
                lemma_edge_below(lo as int, hi as int, dy as int, k as int);
            }
            let e: i128 = lo + (k as i128) * dy;
            out.push(e as i64);
            k = k + 1;
        }
        proof {
            assert(ints(out@) =~= edges);
        }
        Ok(out)
    }
}

/// The products of a margin and a step that fit a sample are not
/// negative and stay well within 2^127.
proof fn lemma_margin_products(margin: int, dy: int)
    requires
        0 <= margin <= i64::MAX,
        0 < dy <= i64::MAX,
    ensures
        0 <= margin * dy <= 0x5000_0000_0000_0000_0000_0000_0000_0000,
        0 <= (margin + ONE) * dy <= 0x5000_0000_0000_0000_0000_0000_0000_0000,
        0 <= margin * dy / (ONE as int) <= 0x5000_0000_0000_0000_0000_0000_0000_0000,
        dy <= (margin + ONE) * dy / (ONE as int) <= 0x5000_0000_0000_0000_0000_0000_0000_0000,
{
    let one = ONE as int;
    assert(0 <= margin * dy <= 0x7fff_ffff_ffff_ffff * 0x7fff_ffff_ffff_ffff) by (nonlinear_arith)
        requires
            0 <= margin <= 0x7fff_ffff_ffff_ffff,
            0 < dy <= 0x7fff_ffff_ffff_ffff,
    ;
    assert(one * dy <= (margin + one) * dy <= 0x8000_0000_000f_4240 * 0x7fff_ffff_ffff_ffff)
        by (nonlinear_arith)
        requires
            0 <= margin <= 0x7fff_ffff_ffff_ffff,
            0 < dy <= 0x7fff_ffff_ffff_ffff,
            one == 1_000_000,
    ;
    crate::fixed::lemma_div_between(margin * dy, one, 0, margin * dy);
    assert(dy * one == one * dy) by (nonlinear_arith);
    assert((margin + one) * dy <= ((margin + one) * dy) * one) by (nonlinear_arith)
        requires
            0 <= (margin + one) * dy,
            one == 1_000_000,
    ;
    assert(margin * dy <= (margin * dy) * one) by (nonlinear_arith)
        requires
            0 <= margin * dy,
            one == 1_000_000,
    ;
    assert(0 * one == 0);
    crate::fixed::lemma_div_between((margin + one) * dy, one, dy, (margin + one) * dy);
}

/// Every edge that is counted lies at or above the first edge and
/// strictly below the upper bound.
pub proof fn lemma_edge_below(lo: int, hi: int, dy: int, k: int)
    requires
        dy > 0,
        lo < hi,
        0 <= k < grid_count(lo, hi, dy),
    ensures
        lo <= lo + k * dy < hi,
        0 <= k * dy,
{
    let a = hi - lo + dy - 1;
    let c = grid_count(lo, hi, dy);
    vstd::arithmetic::div_mod::lemma_fundamental_div_mod(a, dy);
    vstd::arithmetic::div_mod::lemma_mod_bound(a, dy);
    assert(0 <= k * dy && k * dy <= a - dy) by (nonlinear_arith)
        requires
            a == dy * c + a % dy,
            0 <= a % dy,
            0 <= k <= c - 1,
            dy > 0,
    ;
}

} // verus!
