use amazingbf::interp::profile::LoopProfile;

#[test]
fn new_profile_has_zero_counts() {
    let p = LoopProfile::new(10, 100);
    for i in 0..10 {
        assert_eq!(p.trip_count(i), 0);
    }
}

#[test]
fn record_increments_correct_slot() {
    let mut p = LoopProfile::new(5, 10);
    p.record_loop_iter(2);
    p.record_loop_iter(2);
    p.record_loop_iter(4);
    assert_eq!(p.trip_count(0), 0);
    assert_eq!(p.trip_count(2), 2);
    assert_eq!(p.trip_count(4), 1);
}

#[test]
fn hot_loops_filters_by_threshold() {
    let mut p = LoopProfile::new(4, 3);
    for _ in 0..5 {
        p.record_loop_iter(1);
    }
    for _ in 0..2 {
        p.record_loop_iter(3);
    }
    let hot = p.hot_loops();
    assert_eq!(hot, vec![(1, 5)]);
}

#[test]
fn threshold_is_inclusive() {
    let mut p = LoopProfile::new(2, 3);
    p.record_loop_iter(0);
    p.record_loop_iter(0);
    p.record_loop_iter(0);
    let hot = p.hot_loops();
    assert_eq!(hot, vec![(0, 3)]);
}
