//! Robust statistics: the median and the median absolute deviation.

use vstd::prelude::*;
use vstd::relations::{sorted_by, total_ordering};
use vstd::seq_lib::lemma_sorted_unique;
use vstd::slice::slice_to_vec;
use crate::error::Error;
use crate::fixed::{all_fit, div_floor, fits, ints, magnitude};
use crate::fmgf::Fmgf;

verus! {

/// The median of `s`: the middle element of its ascending arrangement,
/// or, where the length is even, the mean of the two elements in the
/// middle, rounded down. An empty sequence has none.
pub open spec fn median_of(s: Seq<int>) -> Option<int> {
    let t = s.sort();
    let n = s.len() as int;
    if n == 0 {
        None
    } else if n % 2 == 1 {
        Some(t[n / 2])
    } else {
        Some((t[n / 2 - 1] + t[n / 2]) / 2)
    }
}

/// The distances of the elements of `s` from `c`.
pub open spec fn deviations(s: Seq<int>, c: int) -> Seq<int> {
    Seq::new(s.len(), |i: int| magnitude(s[i] - c))
}

/// What `Fmgf::mad` returns: the median of the distances from the
/// median, zero for an empty sequence, and a refusal where a distance
/// cannot be stored in a sample.
pub open spec fn mad_spec(s: Seq<int>) -> Result<int, Error> {
    match median_of(s) {
        None => Ok(0),
        Some(c) => if !all_fit(deviations(s, c)) {
            Err(Error::Overflow)
        } else {
            match median_of(deviations(s, c)) {
                Some(d) => Ok(d),
                None => Ok(0),
            }
        },
    }
}

/// A result that holds one sample as a result that holds one
/// mathematical integer.
pub open spec fn lift_value(r: Result<i64, Error>) -> Result<int, Error> {
    match r {
        Ok(v) => Ok(v as int),
        Err(e) => Err(e),
    }
}

/// An optional sample as an optional mathematical integer.
pub open spec fn lift_option(r: Option<i64>) -> Option<int> {
    match r {
        Some(v) => Some(v as int),
        None => None,
    }
}

/// Sorts `v` with the sort of the standard library's slices
/// (`<[i64]>::sort`). Of that sort the contract claims what its
/// documentation says: afterwards the elements are in ascending order,
/// and they are the elements that were there before, each as often as
/// before.
#[verifier::external_body]
fn sort_ascending(v: &mut Vec<i64>)
    ensures
        ints(final(v)@).to_multiset() == ints(old(v)@).to_multiset(),
        forall|i: int, j: int|
            0 <= i <= j < final(v)@.len() ==> final(v)@[i] <= final(v)@[j],
{
    v.sort();
}

/// An ascending sequence with the elements of `a` is the ascending
/// arrangement of `a`.
pub proof fn lemma_ascending_is_sort(a: Seq<int>, b: Seq<int>)
    requires
        b.to_multiset() == a.to_multiset(),
        forall|i: int, j: int| 0 <= i <= j < b.len() ==> b[i] <= b[j],
    ensures
        b == a.sort(),
        b.len() == a.len(),
{
    let leq = |x: int, y: int| x <= y;
    a.lemma_sort_ensures();
    assert(sorted_by(b, leq));
    assert(total_ordering(leq));
    lemma_sorted_unique(b, a.sort(), leq);
    a.to_multiset_ensures();
    b.to_multiset_ensures();
}

/// Every element of the ascending arrangement of `a` is an element of
/// `a`.
pub proof fn lemma_sort_elements(a: Seq<int>, k: int)
    requires
        0 <= k < a.len(),
    ensures
        a.sort().len() == a.len(),
        exists|i: int| 0 <= i < a.len() && a[i] == a.sort()[k],
{
    let t = a.sort();
    a.lemma_sort_ensures();
    a.to_multiset_ensures();
    t.to_multiset_ensures();
    assert(t.to_multiset().count(t[k]) > 0);
    assert(a.to_multiset().count(t[k]) > 0);
    assert(a.contains(t[k]));
}

/// The median of values that are all `c` is `c`, and their median
/// absolute deviation is zero.
pub proof fn lemma_mad_of_constant(s: Seq<int>, c: int)
    requires
        s.len() > 0,
        forall|i: int| 0 <= i < s.len() ==> #[trigger] s[i] == c,
    ensures
        median_of(s) == Some(c),
        mad_spec(s) == Ok::<int, Error>(0),
{
    lemma_median_of_constant(s, c);
    let dev = deviations(s, c);
    assert forall|i: int| 0 <= i < dev.len() implies #[trigger] dev[i] == 0 by {
        assert(s[i] == c);
    }
    lemma_median_of_constant(dev, 0);
}

/// The median of values that are all `c` is `c`.
proof fn lemma_median_of_constant(s: Seq<int>, c: int)
    requires
        s.len() > 0,
        forall|i: int| 0 <= i < s.len() ==> #[trigger] s[i] == c,
    ensures
        median_of(s) == Some(c),
{
    let n = s.len() as int;
    lemma_sort_elements(s, n / 2);
    if n % 2 == 0 {
        lemma_sort_elements(s, n / 2 - 1);
    }
}

impl Fmgf {
    /// The median of `input`, or `None` where it is empty.
    pub fn median(input: &[i64]) -> (r: Option<i64>)
        ensures
            lift_option(r) == median_of(ints(input@)),
    {
        let sz: usize = input.len();
        if sz == 0 {
            return None;
        }
        let mut v: Vec<i64> = slice_to_vec(input);
        sort_ascending(&mut v);
        proof {
            lemma_ascending_is_sort(ints(input@), ints(v@));
        }
        let med: usize = sz / 2;
        if sz % 2 == 1 {
            Some(v[med])
        } else {
            let s: i128 = v[med - 1] as i128 + v[med] as i128;
            let m: i128 = div_floor(s, 2);
            Some(m as i64)
        }
    }

    /// The median absolute deviation of `input`: the median of the
    /// distances of its elements from their median. Zero for an empty
    /// input.
    pub fn mad(input: &[i64]) -> (r: Result<i64, Error>)
        ensures
            lift_value(r) == mad_spec(ints(input@)),
    {
        let med: i64 = match Self::median(input) {
            Some(m) => m,
            None => { return Ok(0); },
        };
        let sz: usize = input.len();
        let ghost x = ints(input@);
        let ghost dev = deviations(x, med as int);
        assert(median_of(x) == Some(med as int));
        let mut v: Vec<i64> = Vec::new();
        let mut i: usize = 0;
        while i < sz
            invariant
                x == ints(input@),
                dev == deviations(x, med as int),
                median_of(x) == Some(med as int),
                sz == input.len(),
                i <= sz,
                v.len() == i,
                forall|j: int| 0 <= j < i ==> v@[j] as int == dev[j],
            decreases sz - i,
        {
            let d: i128 = input[i] as i128 - med as i128;
            let a: i128 = if d < 0 { -d } else { d };
            if a > i64::MAX as i128 {
                proof {
                    assert(dev[i as int] == a);
                    assert(!fits(dev[i as int]));
                    assert(!all_fit(dev));
                }
                return Err(Error::Overflow);
            }
            v.push(a as i64);
            i = i + 1;
        }
        proof {
            assert(ints(v@) =~= dev);
        }
        match Self::median(v.as_slice()) {
            Some(m) => Ok(m),
            None => Ok(0),
        }
    }
}

} // verus!
