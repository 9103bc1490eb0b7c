use fmgf::{Error, Fmgf};

fn brute(x: &[i64], period: usize) -> Vec<i64> {
    let n = x.len() as i128;
    let side = (period / 2) as i128;
    (0..n)
        .map(|i| {
            let mut s: i128 = 0;
            for k in 0..n {
                if i - side <= k && k <= i + side {
                    s += x[k as usize] as i128;
                }
            }
            s.div_euclid(period as i128) as i64
        })
        .collect()
}

fn samples(n: usize, seed: u64) -> Vec<i64> {
    let mut s: u64 = seed;
    (0..n)
        .map(|_| {
            s = s.wrapping_mul(6364136223846793005).wrapping_add(1442695040888963407);
            ((s >> 33) as i64) - (1i64 << 30)
        })
        .collect()
}

#[test]
fn sma_examples() {
    assert_eq!(Fmgf::sma(&[3, 6, 9, 12, 15], 3), Ok(vec![3, 6, 9, 12, 9]));
    assert_eq!(Fmgf::sma(&[3, 6, 9, 12, 15], 2), Ok(vec![4, 9, 13, 18, 13]));
    assert_eq!(Fmgf::sma(&[3, -6, 9], 1), Ok(vec![3, -6, 9]));
    assert_eq!(Fmgf::sma(&[-7, 1, 2, 3, 10, 20], 4), Ok(vec![-1, -1, 2, 9, 8, 8]));
    assert_eq!(Fmgf::sma(&[1, 2, 3], 9), Ok(vec![0, 0, 0]));
}

#[test]
fn sma_matches_the_sum_over_every_window() {
    for n in 0..14usize {
        for period in 1..12usize {
            for seed in 0..4u64 {
                let x = samples(n, seed * 31 + n as u64);
                assert_eq!(Fmgf::sma(&x, period), Ok(brute(&x, period)), "n {} period {}", n, period);
            }
        }
    }
}

#[test]
fn sma_with_a_window_wider_than_the_signal() {
    let x = samples(5, 99);
    assert_eq!(Fmgf::sma(&x, 1000), Ok(brute(&x, 1000)));
    assert_eq!(Fmgf::sma(&x, usize::MAX), Ok(brute(&x, usize::MAX)));
}

#[test]
fn sma_of_nothing_is_nothing() {
    assert_eq!(Fmgf::sma(&[], 3), Ok(vec![]));
}

#[test]
fn sma_refuses_a_window_of_no_width() {
    assert_eq!(Fmgf::sma(&[1, 2, 3], 0), Err(Error::InvalidParameter));
    assert_eq!(Fmgf::sma(&[], 0), Err(Error::InvalidParameter));
}

#[test]
fn sma_refuses_a_value_beyond_the_range() {
    assert_eq!(Fmgf::sma(&[i64::MAX, i64::MAX, i64::MAX], 2), Err(Error::Overflow));
    assert_eq!(Fmgf::sma(&[i64::MIN, i64::MIN, i64::MIN], 2), Err(Error::Overflow));
}

#[test]
fn sma_at_the_ends_of_the_range() {
    assert_eq!(
        Fmgf::sma(&[i64::MAX, i64::MAX, i64::MAX], 3),
        Ok(vec![6_148_914_691_236_517_204, i64::MAX, 6_148_914_691_236_517_204])
    );
}
