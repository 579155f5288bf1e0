use rolling_stats::estimator::{Score, Stat};
use rolling_stats::registry::BinnedRollingStatistics;

#[test]
fn score_undefined_while_bucket_warms_up() {
    let mut reg = BinnedRollingStatistics::new(3);
    assert_eq!(reg.update_and_return_z_score(9, 0, 10), Score::Undefined);
    assert_eq!(reg.update_and_return_z_score(9, 1, 12), Score::Undefined);
}

#[test]
fn end_to_end_window_of_three() {
    let mut reg = BinnedRollingStatistics::new(3);
    assert_eq!(reg.update_and_return_z_score(9, 0, 10), Score::Undefined);
    assert_eq!(reg.update_and_return_z_score(9, 1, 12), Score::Undefined);
    // window {10, 12, 14}: mean 12, sample standard deviation 2,
    // score (14 - 12) / 2 = 1
    assert_eq!(reg.update_and_return_z_score(9, 2, 14), Score::Value(1000));
    assert_eq!(reg.mean(9, 0), Stat::Ratio { num: 36, den: 3 });
    assert_eq!(reg.standard_deviation(9, 0), Some(2000));
}

#[test]
fn eviction_slides_the_bucket_window() {
    let mut reg = BinnedRollingStatistics::new(3);
    reg.update_and_return_z_score(9, 0, 10);
    reg.update_and_return_z_score(9, 1, 12);
    reg.update_and_return_z_score(9, 2, 14);
    // the 4th value evicts 10: window {12, 14, 16}, mean 14,
    // standard deviation 2, score (16 - 14) / 2 = 1
    assert_eq!(reg.update_and_return_z_score(9, 3, 16), Score::Value(1000));
    assert_eq!(reg.mean(9, 0), Stat::Ratio { num: 42, den: 3 });
    assert_eq!(reg.standard_deviation(9, 0), Some(2000));
}

#[test]
fn score_zero_on_degenerate_bucket() {
    let mut reg = BinnedRollingStatistics::new(3);
    reg.update(9, 0, 5);
    reg.update(9, 1, 5);
    // the observation itself keeps the window at {5, 5, 5}: zero variance
    assert_eq!(reg.update_and_return_z_score(9, 2, 5), Score::Value(0));
    assert_eq!(reg.standard_deviation(9, 0), Some(0));
}

#[test]
fn minutes_in_one_bucket_share_an_estimator() {
    let mut reg = BinnedRollingStatistics::new(1);
    reg.update(9, 0, 42);
    assert!(reg.has_bucket(9, 4));
    assert_eq!(reg.mean(9, 4), Stat::Ratio { num: 42, den: 1 });
    assert!(!reg.has_bucket(9, 5));
    assert!(!reg.has_bucket(10, 0));
}

#[test]
fn unseen_bucket_reports_zero_by_convention() {
    let reg = BinnedRollingStatistics::new(3);
    assert_eq!(reg.mean(10, 0), Stat::Ratio { num: 0, den: 1 });
    assert_eq!(reg.standard_deviation(10, 0), Some(0));
    assert!(!reg.has_bucket(10, 0));
}

#[test]
fn buckets_are_independent() {
    let mut reg = BinnedRollingStatistics::new(1);
    reg.update(9, 0, 10);
    reg.update(9, 7, 20);
    reg.update(10, 0, 30);
    assert_eq!(reg.mean(9, 2), Stat::Ratio { num: 10, den: 1 });
    assert_eq!(reg.mean(9, 5), Stat::Ratio { num: 20, den: 1 });
    assert_eq!(reg.mean(10, 3), Stat::Ratio { num: 30, den: 1 });
}

#[test]
fn custom_bucket_size_changes_the_granularity() {
    let mut fine = BinnedRollingStatistics::new_with_bucket_size(1, 1);
    fine.update(9, 0, 1);
    assert!(fine.has_bucket(9, 0));
    assert!(!fine.has_bucket(9, 1));

    let mut coarse = BinnedRollingStatistics::new_with_bucket_size(1, 60);
    coarse.update(9, 0, 1);
    assert!(coarse.has_bucket(9, 59));
    assert!(!coarse.has_bucket(10, 0));
}

#[test]
fn default_registry_uses_window_twenty_and_five_minute_buckets() {
    let mut reg = BinnedRollingStatistics::default();
    reg.update(0, 0, 3);
    assert!(reg.has_bucket(0, 4));
    assert!(!reg.has_bucket(0, 5));
    // window of 20: a single value leaves the bucket warming up
    assert_eq!(reg.mean(0, 0), Stat::Undefined);
}

#[test]
fn score_rounds_toward_zero() {
    let mut reg = BinnedRollingStatistics::new(3);
    reg.update(9, 0, 12);
    reg.update(9, 1, 14);
    reg.update(9, 2, 16);
    // observing 10 gives window {14, 16, 10}: mean 40/3, sample variance
    // 28/3, z = (10 - 40/3) / sqrt(28/3) = -1.0911...; floored toward zero
    // in thousandths
    assert_eq!(reg.update_and_return_z_score(9, 3, 10), Score::Value(-1091));
}
