//! The number format: `i64` values with six decimal places, and the
//! mathematical sums the filters are stated with.

use vstd::prelude::*;

verus! {

/// The representation of 1.
pub const ONE: i64 = 1_000_000;

/// `v` can be stored in a sample.
pub open spec fn fits(v: int) -> bool {
    i64::MIN <= v <= i64::MAX
}

/// Every element of `s` can be stored in a sample.
pub open spec fn all_fit(s: Seq<int>) -> bool {
    forall|i: int| 0 <= i < s.len() ==> fits(#[trigger] s[i])
}

/// The samples of `s` as mathematical integers.
pub open spec fn ints(s: Seq<i64>) -> Seq<int> {
    Seq::new(s.len(), |i: int| s[i] as int)
}

/// The values of `s` as mathematical integers.
pub open spec fn nats(s: Seq<u64>) -> Seq<int> {
    Seq::new(s.len(), |i: int| s[i] as int)
}

/// The magnitude of `v`.
pub open spec fn magnitude(v: int) -> int {
    if v < 0 {
        -v
    } else {
        v
    }
}

/// Division that rounds towards negative infinity.
pub fn div_floor(a: i128, d: i128) -> (q: i128)
    requires
        d > 0,
    ensures
        q == a / d,
{
    if a >= 0 {
        a / d
    } else {
        let b: i128 = -(a + 1);
        let k: i128 = b / d;
        proof {
            lemma_floor_of_negative(a as int, d as int);
        }
        -1 - k
    }
}

/// For a negative numerator the floor quotient is one below the negated
/// quotient of `-(a + 1)`.
pub proof fn lemma_floor_of_negative(a: int, d: int)
    requires
        a < 0,
        d > 0,
    ensures
        a / d == -1 - (-(a + 1)) / d,
{
    let b = -(a + 1);
    let k = b / d;
    let s = b % d;
    vstd::arithmetic::div_mod::lemma_fundamental_div_mod(b, d);
    vstd::arithmetic::div_mod::lemma_mod_bound(b, d);
    assert(a == d * (-1 - k) + (d - s - 1)) by (nonlinear_arith)
        requires
            b == d * k + s,
            b == -(a + 1),
    ;
    vstd::arithmetic::div_mod::lemma_fundamental_div_mod_converse(a, d, -1 - k, d - s - 1);
}

/// A numerator between two multiples of the divisor has its quotient
/// between the two factors.
pub proof fn lemma_div_between(a: int, d: int, lo: int, hi: int)
    requires
        d > 0,
        lo * d <= a <= hi * d,
    ensures
        lo <= a / d <= hi,
{
    let q = a / d;
    let r = a % d;
    vstd::arithmetic::div_mod::lemma_fundamental_div_mod(a, d);
    vstd::arithmetic::div_mod::lemma_mod_bound(a, d);
    assert(lo <= q <= hi) by (nonlinear_arith)
        requires
            a == d * q + r,
            0 <= r < d,
            d > 0,
            lo * d <= a <= hi * d,
    ;
}

} // verus!
