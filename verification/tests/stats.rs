use fmgf::{Error, Fmgf, ONE};

#[test]
fn median_of_an_odd_number_is_the_middle() {
    assert_eq!(Fmgf::median(&[ONE, 2 * ONE, 3 * ONE]), Some(2 * ONE));
}

#[test]
fn median_of_an_even_number_is_the_mean_of_the_middle_two() {
    assert_eq!(Fmgf::median(&[ONE, 2 * ONE, 3 * ONE, 4 * ONE]), Some(2_500_000));
}

#[test]
fn median_of_nothing_is_absent() {
    assert_eq!(Fmgf::median(&[]), None);
}

#[test]
fn median_sorts_first() {
    assert_eq!(Fmgf::median(&[3, 1, 2]), Some(2));
    assert_eq!(Fmgf::median(&[5, 3, 1, 4]), Some(3));
    assert_eq!(Fmgf::median(&[9, 8, 7, 6, 5, 4, 3, 2, 1]), Some(5));
}

#[test]
fn median_leaves_its_input_alone() {
    let x = [3, 1, 2];
    let _ = Fmgf::median(&x);
    assert_eq!(x, [3, 1, 2]);
}

#[test]
fn median_of_one_value() {
    assert_eq!(Fmgf::median(&[-7]), Some(-7));
}

#[test]
fn median_rounds_down() {
    assert_eq!(Fmgf::median(&[-3, -4]), Some(-4));
    assert_eq!(Fmgf::median(&[1, 2]), Some(1));
}

#[test]
fn median_at_the_ends_of_the_range() {
    assert_eq!(Fmgf::median(&[i64::MAX, i64::MAX]), Some(i64::MAX));
    assert_eq!(Fmgf::median(&[i64::MIN, i64::MIN]), Some(i64::MIN));
    assert_eq!(Fmgf::median(&[i64::MIN, i64::MAX]), Some(-1));
}

#[test]
fn mad_of_a_constant_is_zero() {
    assert_eq!(Fmgf::mad(&[ONE, ONE, ONE]), Ok(0));
}

#[test]
fn mad_of_nothing_is_zero() {
    assert_eq!(Fmgf::mad(&[]), Ok(0));
}

#[test]
fn mad_ignores_an_outlier() {
    assert_eq!(Fmgf::mad(&[1, 2, 3, 4, 100]), Ok(1));
    assert_eq!(Fmgf::mad(&[0, ONE, 2 * ONE, 3 * ONE, 4 * ONE]), Ok(ONE));
}

#[test]
fn mad_refuses_a_distance_beyond_the_range() {
    assert_eq!(Fmgf::mad(&[i64::MIN, i64::MAX, i64::MAX]), Err(Error::Overflow));
}
