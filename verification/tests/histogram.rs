use fmgf::{Error, Fmgf, ONE};

#[test]
fn digitize_counts_the_edges_at_or_below() {
    let edges = [ONE, 2 * ONE, 3 * ONE];
    let values = [0, ONE, 2_500_000, 3 * ONE, 4 * ONE];
    assert_eq!(Fmgf::digitize(&values, &edges), vec![0, 1, 2, 3, 3]);
}

#[test]
fn digitize_below_and_above_all_edges() {
    let edges = [-5, 0, 5, 10];
    assert_eq!(Fmgf::digitize(&[i64::MIN, -6], &edges), vec![0, 0]);
    assert_eq!(Fmgf::digitize(&[10, 11, i64::MAX], &edges), vec![4, 4, 4]);
}

#[test]
fn digitize_without_edges_or_values() {
    assert_eq!(Fmgf::digitize(&[1, 2, 3], &[]), vec![0, 0, 0]);
    assert_eq!(Fmgf::digitize(&[], &[1, 2, 3]), Vec::<usize>::new());
}

#[test]
fn digitize_is_monotonic() {
    let edges = [-30, -10, 0, 10, 30, 70];
    let values: Vec<i64> = (-50..100).collect();
    let ranks = Fmgf::digitize(&values, &edges);
    for k in 1..ranks.len() {
        assert!(ranks[k - 1] <= ranks[k]);
    }
}

#[test]
fn digitize_keeps_the_order_of_ranks_when_edges_are_added() {
    let edges = [-30, -10, 0, 10, 30, 70];
    let more = [-40, -30, -20, -10, 0, 5, 10, 30, 50, 70, 90];
    let values: Vec<i64> = (-50..100).collect();
    let before = Fmgf::digitize(&values, &edges);
    let after = Fmgf::digitize(&values, &more);
    for a in 0..values.len() {
        assert!(after[a] >= before[a]);
        for b in 0..values.len() {
            if before[a] < before[b] {
                assert!(after[a] < after[b]);
            }
        }
    }
}

#[test]
fn argmax_is_the_first_greatest() {
    assert_eq!(Fmgf::argmax(&[1, 3, 3, 2]), Some(1));
    assert_eq!(Fmgf::argmax(&[5]), Some(0));
    assert_eq!(Fmgf::argmax(&[0, 0, 0]), Some(0));
    assert_eq!(Fmgf::argmax(&[-3, -2, -1]), Some(2));
    assert_eq!(Fmgf::argmax(&[i64::MIN, i64::MIN]), Some(0));
}

#[test]
fn argmax_of_nothing_is_absent() {
    assert_eq!(Fmgf::argmax(&[]), None);
}

#[test]
fn grid_example() {
    let x = [0, ONE, 2 * ONE, 3 * ONE, 4 * ONE];
    let want: Vec<i64> = (0..14).map(|k| -10_000_100 + k * 2 * ONE).collect();
    assert_eq!(Fmgf::grid(&x, 3, 5 * ONE), Ok(want));
}

#[test]
fn grid_encloses_the_values() {
    let x = [-3 * ONE, 14 * ONE, 2 * ONE, 2 * ONE + 1, 5, 900_000];
    for m in 1..9usize {
        let edges = Fmgf::grid(&x, m, 5 * ONE).unwrap();
        let step = edges[1] - edges[0];
        assert!(step > 0);
        for k in 1..edges.len() {
            assert_eq!(edges[k] - edges[k - 1], step);
        }
        assert!(edges[0] < -3 * ONE);
        assert!(edges[edges.len() - 1] > 14 * ONE);
        let ranks = Fmgf::digitize(&x, &edges);
        assert!(ranks.iter().all(|r| 0 < *r && *r < edges.len()));
    }
}

#[test]
fn grid_without_a_margin() {
    let x = [0, ONE, 2 * ONE, 3 * ONE, 4 * ONE];
    assert_eq!(Fmgf::grid(&x, 6, 0), Ok(vec![-100, 999_900, 1_999_900, 2_999_900, 3_999_900, 4_999_900]));
}

#[test]
fn grid_refuses_bad_parameters() {
    assert_eq!(Fmgf::grid(&[], 3, 5 * ONE), Err(Error::InvalidParameter));
    assert_eq!(Fmgf::grid(&[1, 2, 3], 0, 5 * ONE), Err(Error::InvalidParameter));
    assert_eq!(Fmgf::grid(&[1, 2, 3], 3, -1), Err(Error::InvalidParameter));
}

#[test]
fn grid_of_values_without_spread_is_degenerate() {
    assert_eq!(Fmgf::grid(&[7, 7, 7], 3, 5 * ONE), Err(Error::Degenerate));
    assert_eq!(Fmgf::grid(&[7, 7, 7, 900], 3, 5 * ONE), Err(Error::Degenerate));
    assert_eq!(Fmgf::grid(&[1, 2, 3], 7, 5 * ONE), Err(Error::Degenerate));
}

#[test]
fn grid_refuses_edges_beyond_the_range() {
    let x = [i64::MIN + 5, i64::MIN + 2 * ONE, i64::MIN + 4 * ONE];
    assert_eq!(Fmgf::grid(&x, 3, 5 * ONE), Err(Error::Overflow));
    let y = [i64::MAX - 5, i64::MAX - 2 * ONE, i64::MAX - 4 * ONE];
    assert_eq!(Fmgf::grid(&y, 3, 5 * ONE), Err(Error::Overflow));
    assert_eq!(Fmgf::grid(&[i64::MIN, i64::MAX, i64::MAX], 3, 5 * ONE), Err(Error::Overflow));
}
