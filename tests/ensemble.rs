use kmc::ensemble::{ConfigError, Ensemble, Slot};

fn build(dt: i64, t_max: i64, width: usize) -> Ensemble {
    match Ensemble::new(dt, t_max, width) {
        Ok(e) => e,
        Err(err) => panic!("unexpected configuration error {:?}", err),
    }
}

fn error_of(dt: i64, t_max: i64) -> ConfigError {
    match Ensemble::new(dt, t_max, 1) {
        Ok(_) => panic!("configuration accepted"),
        Err(err) => err,
    }
}

fn summary(slots: &[Slot]) -> Vec<(i64, u64, Vec<i128>)> {
    slots.iter().map(|s| (s.t, s.count, s.sums.clone())).collect()
}

#[test]
fn grid_has_ceiling_plus_one_points() {
    let mut e = build(2, 5, 0);
    for k in 0..4 {
        assert_eq!(e.add(2 * k as i64, &vec![]), Some(k));
    }
    assert_eq!(e.add(8, &vec![]), None);
    assert_eq!(e.add(1, &vec![]), None);

    let mut exact = build(1, 3, 0);
    assert_eq!(exact.add(3, &vec![]), Some(3));
    assert_eq!(exact.add(4, &vec![]), None);
}

#[test]
fn single_point_grid() {
    let mut e = build(5, 0, 2);
    assert_eq!(e.add(0, &vec![4, -2]), Some(0));
    assert_eq!(e.add(5, &vec![1, 1]), None);
    assert_eq!(summary(&e.finish()), vec![(0, 1, vec![4, -2])]);
}

#[test]
fn configuration_errors() {
    assert_eq!(error_of(0, 3), ConfigError::NonPositiveStep);
    assert_eq!(error_of(-1, 3), ConfigError::NonPositiveStep);
    assert_eq!(error_of(0, -3), ConfigError::NonPositiveStep);
    assert_eq!(error_of(1, -1), ConfigError::NegativeHorizon);
    assert_eq!(error_of(2, i64::MAX), ConfigError::GridOverflow);
}

#[test]
fn two_trajectories_end_to_end() {
    let mut e = build(1, 3, 1);
    for t in [0, 1, 2, 3] {
        assert!(e.add(t, &vec![10 + t]).is_some());
    }
    for t in [0, 1, 3] {
        assert!(e.add(t, &vec![20 + t]).is_some());
    }
    let out = e.finish();
    assert_eq!(
        summary(&out),
        vec![
            (0, 2, vec![30]),
            (1, 2, vec![32]),
            (2, 1, vec![12]),
            (3, 2, vec![36]),
        ]
    );
    assert_eq!(out[2].sums[0] / out[2].count as i128, 12);
    assert_eq!(out[0].sums[0] / out[0].count as i128, 15);
}

#[test]
fn empty_slots_are_dropped() {
    let mut e = build(1, 3, 2);
    assert_eq!(e.add(2, &vec![3, 4]), Some(2));
    assert_eq!(e.add(0, &vec![1, 1]), Some(0));
    assert_eq!(e.add(2, &vec![5, -4]), Some(2));
    assert_eq!(e.add(7, &vec![100, 100]), None);
    assert_eq!(
        summary(&e.finish()),
        vec![(0, 1, vec![1, 1]), (2, 2, vec![8, 0])]
    );
}

#[test]
fn nothing_recorded_gives_nothing() {
    let e = build(1, 3, 1);
    assert!(e.finish().is_empty());
}

#[test]
fn merge_order_does_not_matter() {
    let samples: Vec<(i64, Vec<i64>)> = vec![
        (0, vec![1, -1]),
        (2, vec![5, 6]),
        (4, vec![-3, 2]),
        (2, vec![7, 0]),
        (0, vec![9, 9]),
        (3, vec![1, 1]),
    ];
    let mut forward = build(2, 4, 2);
    for (t, f) in samples.iter() {
        forward.add(*t, f);
    }
    let mut backward = build(2, 4, 2);
    for (t, f) in samples.iter().rev() {
        backward.add(*t, f);
    }
    let a = summary(&forward.finish());
    let b = summary(&backward.finish());
    assert_eq!(a, b);
    assert_eq!(
        a,
        vec![(0, 2, vec![10, 8]), (2, 2, vec![12, 6]), (4, 1, vec![-3, 2])]
    );
}

#[test]
fn extreme_field_values_are_summed_exactly() {
    let mut e = build(1, 0, 1);
    e.add(0, &vec![i64::MAX]);
    e.add(0, &vec![i64::MAX]);
    e.add(0, &vec![i64::MIN]);
    let out = e.finish();
    assert_eq!(out[0].sums[0], i64::MAX as i128 * 2 + i64::MIN as i128);
    assert_eq!(out[0].count, 3);
}
