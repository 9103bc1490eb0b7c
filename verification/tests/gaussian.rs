use fmgf::{Error, Gaussian, ONE};

fn bell(sigma: f64, radius: u64) -> Vec<u64> {
    let r = radius as i64;
    (-r..=r)
        .map(|n| ((-0.5 / (sigma * sigma) * ((n * n) as f64)).exp() * 1_099_511_627_776.0) as u64)
        .collect()
}

#[test]
fn radius_is_four_spreads_rounded() {
    assert_eq!(Gaussian::radius(ONE), Some(4));
    assert_eq!(Gaussian::radius(500_000), Some(2));
    assert_eq!(Gaussian::radius(2 * ONE), Some(8));
    assert_eq!(Gaussian::radius(124_999), Some(0));
    assert_eq!(Gaussian::radius(125_000), Some(1));
    assert_eq!(Gaussian::radius(1), Some(0));
}

#[test]
fn radius_needs_a_positive_spread() {
    assert_eq!(Gaussian::radius(0), None);
    assert_eq!(Gaussian::radius(-ONE), None);
    assert_eq!(Gaussian::radius(i64::MIN), None);
}

#[test]
fn radius_of_the_greatest_spread() {
    assert_eq!(Gaussian::radius(i64::MAX), Some(36_893_488_147_419));
}

#[test]
fn kernel_shares_follow_the_profile() {
    assert_eq!(Gaussian::karnel1d(&[1, 2, 1], 1), Ok(vec![250_000, 500_000, 250_000]));
    assert_eq!(
        Gaussian::karnel1d(&[1, 5, 9, 5, 1], 2),
        Ok(vec![47_619, 238_095, 428_572, 238_095, 47_619])
    );
}

#[test]
fn kernel_centre_takes_the_rounding() {
    assert_eq!(Gaussian::karnel1d(&[1, 1, 1], 1), Ok(vec![333_333, 333_334, 333_333]));
    assert_eq!(Gaussian::karnel1d(&[7], 0), Ok(vec![ONE]));
}

#[test]
fn kernel_of_a_bell_sums_to_one() {
    for tenths in 1..40u64 {
        let sigma = tenths as f64 / 10.0;
        let fixed = (tenths as i64) * (ONE / 10);
        let radius = Gaussian::radius(fixed).unwrap();
        let w = Gaussian::karnel1d(&bell(sigma, radius), radius as usize).unwrap();
        assert_eq!(w.len() as u64, 2 * radius + 1);
        assert_eq!(w.iter().sum::<i64>(), ONE);
        assert!(w.iter().all(|v| *v >= 0));
        for k in 0..w.len() {
            assert_eq!(w[k], w[w.len() - 1 - k]);
        }
    }
}

#[test]
fn kernel_of_the_unit_spread() {
    let w = Gaussian::karnel1d(&bell(1.0, 4), 4).unwrap();
    let want = [133, 4431, 53991, 241971, 398948, 241971, 53991, 4431, 133];
    for k in 0..9 {
        assert!((w[k] - want[k]).abs() <= 1, "weight {}: {}", k, w[k]);
    }
}

#[test]
fn kernel_takes_large_profiles() {
    let w = Gaussian::karnel1d(&[u64::MAX, u64::MAX, u64::MAX], 1).unwrap();
    assert_eq!(w, vec![333_333, 333_334, 333_333]);
}

#[test]
fn kernel_refuses_a_profile_of_the_wrong_length() {
    assert_eq!(Gaussian::karnel1d(&[1, 2, 1], 2), Err(Error::InvalidParameter));
    assert_eq!(Gaussian::karnel1d(&[1, 2], 1), Err(Error::InvalidParameter));
    assert_eq!(Gaussian::karnel1d(&[], 0), Err(Error::InvalidParameter));
    assert_eq!(Gaussian::karnel1d(&[1, 2, 1], usize::MAX), Err(Error::InvalidParameter));
}

#[test]
fn kernel_refuses_a_profile_without_mass() {
    assert_eq!(Gaussian::karnel1d(&[0, 0, 0], 1), Err(Error::InvalidParameter));
}

#[test]
fn correlate_replicates_the_ends() {
    let x = [ONE, 2 * ONE, 3 * ONE];
    let w = [250_000, 500_000, 250_000];
    assert_eq!(Gaussian::correlate1d(&x, &w), Ok(vec![1_250_000, 2_000_000, 2_750_000]));
}

#[test]
fn correlate_rounds_down() {
    assert_eq!(Gaussian::correlate1d(&[-1, -2, 7], &[500_000, 500_000, 0]), Ok(vec![-1, -2, 2]));
}

#[test]
fn correlate_with_the_unit_weight_is_the_identity() {
    let x = [5, -7, i64::MAX, i64::MIN];
    assert_eq!(Gaussian::correlate1d(&x, &[ONE]), Ok(x.to_vec()));
}

#[test]
fn correlate_of_an_empty_signal_is_empty() {
    assert_eq!(Gaussian::correlate1d(&[], &[ONE]), Ok(vec![]));
    assert_eq!(Gaussian::correlate1d(&[], &[i64::MAX, i64::MAX]), Ok(vec![]));
}

#[test]
fn correlate_without_weights_gives_zero() {
    assert_eq!(Gaussian::correlate1d(&[5, 6], &[]), Ok(vec![0, 0]));
}

#[test]
fn correlate_refuses_weights_beyond_the_range() {
    assert_eq!(Gaussian::correlate1d(&[1], &[i64::MAX, 1]), Err(Error::Overflow));
    assert_eq!(Gaussian::correlate1d(&[1], &[i64::MIN]), Err(Error::Overflow));
}

#[test]
fn correlate_refuses_a_value_beyond_the_range() {
    assert_eq!(Gaussian::correlate1d(&[i64::MAX], &[2 * ONE]), Err(Error::Overflow));
    assert_eq!(Gaussian::correlate1d(&[i64::MIN], &[2 * ONE]), Err(Error::Overflow));
}

#[test]
fn smooth_preserves_length() {
    for n in 0..20usize {
        let x: Vec<i64> = (0..n).map(|i| (i as i64) * 1_234_567 - 5 * ONE).collect();
        let y = Gaussian::gaussian1d(&x, ONE, &bell(1.0, 4)).unwrap();
        assert_eq!(y.len(), n);
    }
}

#[test]
fn smooth_keeps_a_constant_signal() {
    for c in [0, 1, -1, 10 * ONE, -3 * ONE, i64::MAX, i64::MIN] {
        for n in 1..12usize {
            let x = vec![c; n];
            assert_eq!(Gaussian::gaussian1d(&x, ONE, &bell(1.0, 4)), Ok(x.clone()));
            assert_eq!(Gaussian::gaussian1d(&x, 2_500_000, &bell(2.5, 10)), Ok(x));
        }
    }
}

#[test]
fn smooth_stays_within_the_range_of_the_signal() {
    let x = [i64::MAX, i64::MIN, i64::MAX, 0, 17, i64::MIN];
    let y = Gaussian::gaussian1d(&x, ONE, &bell(1.0, 4)).unwrap();
    assert_eq!(y.len(), x.len());
}

#[test]
fn smooth_of_a_step() {
    let x = [0, 0, 0, 0, 0, 10 * ONE, 10 * ONE, 10 * ONE, 10 * ONE, 10 * ONE];
    let profile = [1, 2, 1];
    let y = Gaussian::gaussian1d(&x, 250_000, &profile).unwrap();
    assert_eq!(
        y,
        vec![0, 0, 0, 0, 2_500_000, 7_500_000, 10 * ONE, 10 * ONE, 10 * ONE, 10 * ONE]
    );
}

#[test]
fn smooth_refuses_a_spread_that_is_not_positive() {
    assert_eq!(Gaussian::gaussian1d(&[1, 2], 0, &[1]), Err(Error::InvalidParameter));
    assert_eq!(Gaussian::gaussian1d(&[1, 2], -ONE, &bell(1.0, 4)), Err(Error::InvalidParameter));
}

#[test]
fn smooth_refuses_a_profile_that_does_not_fit_the_spread() {
    assert_eq!(Gaussian::gaussian1d(&[1, 2], ONE, &bell(1.0, 3)), Err(Error::InvalidParameter));
    assert_eq!(Gaussian::gaussian1d(&[1, 2], ONE, &[0; 9]), Err(Error::InvalidParameter));
    assert_eq!(Gaussian::gaussian1d(&[1, 2], i64::MAX, &[1]), Err(Error::InvalidParameter));
}

#[test]
fn kernel_refuses_a_profile_that_is_not_symmetric() {
    assert_eq!(Gaussian::karnel1d(&[1, 2, 3], 1), Err(Error::InvalidParameter));
    assert_eq!(Gaussian::karnel1d(&[1, 2, 9, 3, 1], 2), Err(Error::InvalidParameter));
    assert_eq!(Gaussian::gaussian1d(&[1, 2], 250_000, &[1, 2, 3]), Err(Error::InvalidParameter));
}
