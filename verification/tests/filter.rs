use fmgf::{Error, Fmgf, Gaussian, ONE};

const BELL: [u64; 9] = [
    368_845_060,
    12_214_470_866,
    148_802_717_567,
    666_887_512_956,
    1_099_511_627_776,
    666_887_512_956,
    148_802_717_567,
    12_214_470_866,
    368_845_060,
];

fn bell(sigma: f64, radius: u64) -> Vec<u64> {
    let r = radius as i64;
    (-r..=r)
        .map(|n| ((-0.5 / (sigma * sigma) * ((n * n) as f64)).exp() * 1_099_511_627_776.0) as u64)
        .collect()
}

fn signal() -> Vec<i64> {
    vec![
        10_000_000, 10_200_000, 9_900_000, 10_100_000, 30_000_000, 10_000_000, 9_800_000,
        10_300_000, 10_100_000, 9_900_000, 10_000_000, 10_200_000,
    ]
}

#[test]
fn filter_of_a_constant_signal_is_the_constant() {
    let x = [10 * ONE; 5];
    assert_eq!(Fmgf::fmgf(&x, ONE, &BELL, 3), Ok(vec![10 * ONE; 5]));
    let y = Fmgf::fmgf(&x, ONE, &bell(1.0, 4), 3).unwrap();
    for v in y {
        assert!(((v as f64) / (ONE as f64) - 10.0).abs() < 1e-9);
    }
}

#[test]
fn filter_of_one_sample_is_the_sample() {
    assert_eq!(Fmgf::fmgf(&[123], ONE, &BELL, 3), Ok(vec![123]));
}

#[test]
fn filter_example_with_three_bins() {
    let want: Vec<i64> = vec![
        10_174_923, 10_229_040, 10_315_272, 10_327_316, 13_451_435, 10_274_882, 9_840_224,
        10_315_689, 10_218_004, 10_148_265, 10_179_550, 10_271_919,
    ];
    assert_eq!(Fmgf::fmgf(&signal(), ONE, &BELL, 3), Ok(want));
}

#[test]
fn filter_example_with_five_and_seven_bins() {
    let five: Vec<i64> = vec![
        10_100_487, 10_144_787, 9_942_563, 10_217_323, 13_341_442, 10_164_889, 9_895_965,
        10_288_128, 10_114_259, 10_100_686, 10_133_008, 10_174_243,
    ];
    let seven: Vec<i64> = vec![
        10_124_052, 10_185_268, 9_962_306, 10_170_183, 13_294_302, 10_117_749, 9_801_455,
        10_314_110, 10_101_274, 9_962_580, 10_076_537, 10_188_369,
    ];
    assert_eq!(Fmgf::fmgf(&signal(), ONE, &BELL, 5), Ok(five));
    assert_eq!(Fmgf::fmgf(&signal(), ONE, &BELL, 7), Ok(seven));
}

#[test]
fn filter_baseline_of_the_example() {
    let want: Vec<i64> = vec![
        10_046_098, 10_149_611, 11_112_489, 14_865_069, 17_989_188, 14_812_635, 11_078_007,
        10_178_748, 10_081_063, 10_011_324, 10_042_609, 10_134_978,
    ];
    assert_eq!(Gaussian::gaussian1d(&signal(), ONE, &BELL), Ok(want));
}

#[test]
fn filter_preserves_length() {
    let x = signal();
    for n in 1..x.len() {
        let y = Fmgf::fmgf(&x[..n], ONE, &BELL, 3).unwrap();
        assert_eq!(y.len(), n);
    }
}

#[test]
fn filter_resists_an_outlier() {
    let n: usize = 64;
    let truth: Vec<i64> = (0..n)
        .map(|i| {
            ((ONE as f64) * (10.0 + 3.0 * (2.0 * std::f64::consts::PI * (i as f64) / (n as f64)).sin()))
                as i64
        })
        .collect();
    let mut seed: i64 = 12345;
    let mut x: Vec<i64> = Vec::new();
    for i in 0..n {
        seed = (seed * 1_103_515_245 + 12345) % 2_147_483_648;
        x.push(truth[i] + (seed % 200_001) - 100_000);
    }
    x[30] += 20 * ONE;
    let sigma: i64 = 2 * ONE;
    let radius = Gaussian::radius(sigma).unwrap();
    let profile = bell(2.0, radius);
    let plain = Gaussian::gaussian1d(&x, sigma, &profile).unwrap();
    let robust = Fmgf::fmgf(&x, sigma, &profile, 7).unwrap();
    let off = |y: &Vec<i64>, i: usize| (y[i] - truth[i]).abs();
    let near: Vec<usize> = (26..35).collect();
    let away: Vec<usize> = (0..n).filter(|i| *i < 20 || *i > 40).collect();
    let worst = |y: &Vec<i64>, at: &Vec<usize>| at.iter().map(|i| off(y, *i)).max().unwrap();
    let sum = |y: &Vec<i64>, at: &Vec<usize>| at.iter().map(|i| off(y, *i)).sum::<i64>();
    assert!(worst(&robust, &near) < worst(&plain, &near));
    assert!(sum(&robust, &near) < sum(&plain, &near));
    assert!(worst(&robust, &away) < worst(&plain, &away));
    assert!(sum(&robust, &away) < sum(&plain, &away));
    assert!(3 * off(&robust, 30) < off(&plain, 30));
}

#[test]
fn filter_refuses_an_empty_signal() {
    assert_eq!(Fmgf::fmgf(&[], ONE, &BELL, 3), Err(Error::InvalidParameter));
}

#[test]
fn filter_refuses_a_width_of_zero() {
    assert_eq!(Fmgf::fmgf(&signal(), ONE, &BELL, 0), Err(Error::InvalidParameter));
}

#[test]
fn filter_refuses_a_spread_that_is_not_positive() {
    assert_eq!(Fmgf::fmgf(&signal(), 0, &BELL, 3), Err(Error::InvalidParameter));
    assert_eq!(Fmgf::fmgf(&signal(), -ONE, &BELL, 3), Err(Error::InvalidParameter));
}

#[test]
fn filter_refuses_a_profile_that_does_not_fit_the_spread() {
    assert_eq!(Fmgf::fmgf(&signal(), 2 * ONE, &BELL, 3), Err(Error::InvalidParameter));
    assert_eq!(Fmgf::fmgf(&signal(), ONE, &[0; 9], 3), Err(Error::InvalidParameter));
}

#[test]
fn filter_refuses_a_residual_beyond_the_range() {
    let x = [i64::MAX, i64::MIN, i64::MAX];
    assert_eq!(Fmgf::fmgf(&x, ONE, &BELL, 3), Err(Error::Overflow));
}

#[test]
fn filter_reports_a_mode_on_the_boundary() {
    let x = [0, 3 * ONE];
    assert_eq!(Fmgf::fmgf(&x, ONE, &BELL, 1_500_000), Err(Error::BoundaryMode));
}

#[test]
fn filter_falls_back_to_the_baseline_without_spread() {
    let x = [5, 5, 5, 5, 5, 9_000_000, 5, 5, 5, 5, 5, 5, 5, 5, 5, 5, 5, 5, 5, 5, 5, 5, 5, 5];
    let base = Gaussian::gaussian1d(&x, ONE, &BELL).unwrap();
    assert_eq!(Fmgf::fmgf(&x, ONE, &BELL, 3), Ok(base));
}
