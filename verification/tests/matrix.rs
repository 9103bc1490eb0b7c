use fmgf::Matrix;

#[test]
fn new_grid_holds_zero_everywhere() {
    let m = Matrix::new(3, 4);
    for col in 0..3usize {
        assert_eq!(m.get_row(col), Some(vec![0i64; 4]));
    }
    for row in 0..4usize {
        assert_eq!(m.get_col(row), Some(vec![0i64; 3]));
    }
}

#[test]
fn update_changes_one_cell() {
    let mut m = Matrix::new(2, 3);
    m.update(1, 2, 7);
    assert_eq!(m.at(1, 2), 7);
    assert_eq!(m.at(0, 2), 0);
    assert_eq!(m.at(1, 1), 0);
    assert_eq!(m.get_row(1), Some(vec![0, 0, 7]));
    assert_eq!(m.get_col(2), Some(vec![0, 7]));
}

#[test]
fn set_row_then_get_row_round_trips() {
    let mut m = Matrix::new(3, 4);
    let vals: Vec<i64> = vec![5, -6, 7, i64::MAX];
    assert!(m.set_row(1, &vals));
    assert_eq!(m.get_row(1), Some(vals));
    assert_eq!(m.get_row(0), Some(vec![0; 4]));
    assert_eq!(m.get_row(2), Some(vec![0; 4]));
}

#[test]
fn set_col_then_get_col_round_trips() {
    let mut m = Matrix::new(3, 4);
    let vals: Vec<i64> = vec![1, i64::MIN, 3];
    assert!(m.set_col(2, &vals));
    assert_eq!(m.get_col(2), Some(vals));
    assert_eq!(m.get_col(1), Some(vec![0; 3]));
    assert_eq!(m.get_row(1), Some(vec![0, 0, i64::MIN, 0]));
}

#[test]
fn rows_and_columns_beyond_the_shape_are_absent() {
    let m = Matrix::new(3, 4);
    assert_eq!(m.get_row(3), None);
    assert_eq!(m.get_col(4), None);
    assert_eq!(m.get_row(usize::MAX), None);
    assert!(m.get_row(2).is_some());
    assert!(m.get_col(3).is_some());
}

#[test]
fn set_row_of_wrong_length_fails_and_changes_nothing() {
    let mut m = Matrix::new(2, 3);
    assert!(m.set_row(0, &[1, 2, 3]));
    assert!(!m.set_row(0, &[9, 9]));
    assert!(!m.set_row(0, &[9, 9, 9, 9]));
    assert!(!m.set_row(2, &[9, 9, 9]));
    assert_eq!(m.get_row(0), Some(vec![1, 2, 3]));
    assert_eq!(m.get_row(1), Some(vec![0, 0, 0]));
}

#[test]
fn set_col_of_wrong_length_fails_and_changes_nothing() {
    let mut m = Matrix::new(2, 3);
    assert!(m.set_col(1, &[4, 5]));
    assert!(!m.set_col(1, &[9]));
    assert!(!m.set_col(3, &[9, 9]));
    assert_eq!(m.get_col(1), Some(vec![4, 5]));
    assert_eq!(m.get_col(0), Some(vec![0, 0]));
}

#[test]
fn empty_grid_has_no_rows() {
    let m = Matrix::new(0, 5);
    assert_eq!(m.get_row(0), None);
    assert_eq!(m.get_col(0), Some(vec![]));
    let n = Matrix::new(2, 0);
    assert_eq!(n.get_row(1), Some(vec![]));
    assert_eq!(n.get_col(0), None);
}

#[test]
fn clone_is_independent() {
    let mut m = Matrix::new(1, 1);
    let c = m.clone();
    m.update(0, 0, 3);
    assert_eq!(c.at(0, 0), 0);
    assert_eq!(m.at(0, 0), 3);
}
