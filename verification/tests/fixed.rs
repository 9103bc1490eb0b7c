use fmgf::fixed::div_floor;
use fmgf::ONE;

#[test]
fn one_has_six_decimal_places() {
    assert_eq!(ONE, 1_000_000);
}

#[test]
fn div_floor_rounds_towards_negative_infinity() {
    assert_eq!(div_floor(7, 2), 3);
    assert_eq!(div_floor(-7, 2), -4);
    assert_eq!(div_floor(-8, 2), -4);
    assert_eq!(div_floor(-1, 1_000_000), -1);
    assert_eq!(div_floor(0, 5), 0);
    assert_eq!(div_floor(5, 5), 1);
    assert_eq!(div_floor(-5, 5), -1);
}

#[test]
fn div_floor_at_the_ends_of_the_range() {
    assert_eq!(div_floor(i128::MIN, 1), i128::MIN);
    assert_eq!(div_floor(i128::MAX, 1), i128::MAX);
    assert_eq!(div_floor(i128::MIN, i128::MAX), -2);
    assert_eq!(div_floor(i128::MIN, 2), i128::MIN / 2);
}
