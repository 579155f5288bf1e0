use rolling_stats::estimator::{RollingStatistics, Score, Stat};

#[test]
fn mean_undefined_until_capacity_then_exact() {
    let mut est = RollingStatistics::new(3);
    assert_eq!(est.mean(), Stat::Undefined);
    est.update(1);
    assert_eq!(est.mean(), Stat::Undefined);
    est.update(2);
    assert_eq!(est.mean(), Stat::Undefined);
    est.update(3);
    assert_eq!(est.mean(), Stat::Ratio { num: 6, den: 3 });
}

#[test]
fn mean_tracks_exactly_the_last_window() {
    let fed: [i64; 6] = [10, 12, 14, 16, 3, 7];
    let mut est = RollingStatistics::new(3);
    for (i, &x) in fed.iter().enumerate() {
        est.update(x);
        if i + 1 >= 3 {
            // naive recomputation over a held-out copy of the last 3 values
            let naive: i64 = fed[i - 1] + fed[i] + fed[i + 1 - 3];
            assert_eq!(est.mean(), Stat::Ratio { num: naive as i128, den: 3 });
        }
    }
}

#[test]
fn sd_zero_for_identical_values() {
    let mut est = RollingStatistics::new(4);
    for _ in 0..4 {
        est.update(7);
    }
    assert!(est.is_warm());
    assert_eq!(est.standard_deviation(), Some(0));
}

#[test]
fn sd_exact_for_perfect_square_variance() {
    let mut est = RollingStatistics::new(3);
    est.update(10);
    est.update(12);
    est.update(14);
    // sample variance 4, standard deviation 2, in thousandths
    assert_eq!(est.standard_deviation(), Some(2000));
    assert_eq!(est.variance(), Stat::Ratio { num: 24, den: 6 });
}

#[test]
fn sd_floors_a_non_square_variance() {
    let mut est = RollingStatistics::new(3);
    est.update(1);
    est.update(2);
    est.update(4);
    // sample variance 7/3; sqrt(7/3) = 1.5275...; floor in thousandths
    assert_eq!(est.standard_deviation(), Some(1527));
}

#[test]
fn sd_undefined_before_warm_and_for_capacity_one() {
    let mut est = RollingStatistics::new(2);
    est.update(5);
    assert_eq!(est.standard_deviation(), None);

    let mut single = RollingStatistics::new(1);
    single.update(5);
    assert!(single.is_warm());
    assert_eq!(single.mean(), Stat::Ratio { num: 5, den: 1 });
    // Bessel's correction divides by count - 1 == 0: no defined value
    assert_eq!(single.standard_deviation(), None);
}

#[test]
fn score_exact_against_current_window() {
    let mut est = RollingStatistics::new(3);
    est.update(12);
    est.update(14);
    est.update(16);
    // mean 14, standard deviation 2: (16 - 14) / 2 = 1, (10 - 14) / 2 = -2
    assert_eq!(est.score(16), Score::Value(1000));
    assert_eq!(est.score(10), Score::Value(-2000));
    assert_eq!(est.score(14), Score::Value(0));
}

#[test]
fn score_undefined_until_warm() {
    let mut est = RollingStatistics::new(3);
    assert_eq!(est.score(1), Score::Undefined);
    est.update(1);
    est.update(2);
    assert_eq!(est.score(3), Score::Undefined);
}

#[test]
fn eviction_keeps_count_at_capacity() {
    let mut est = RollingStatistics::new(2);
    assert_eq!(est.count(), 0);
    assert!(!est.is_warm());
    est.update(1);
    assert_eq!(est.count(), 1);
    est.update(2);
    est.update(3);
    est.update(4);
    assert_eq!(est.count(), 2);
    assert!(est.is_warm());
    assert_eq!(est.capacity(), 2);
    assert_eq!(est.mean(), Stat::Ratio { num: 7, den: 2 });
}

#[test]
fn default_estimator_uses_a_window_of_twenty() {
    let est = RollingStatistics::default();
    assert_eq!(est.capacity(), 20);
    assert_eq!(est.count(), 0);
}

#[test]
fn negative_samples_are_handled_exactly() {
    let mut est = RollingStatistics::new(3);
    est.update(-10);
    est.update(-12);
    est.update(-14);
    assert_eq!(est.mean(), Stat::Ratio { num: -36, den: 3 });
    assert_eq!(est.standard_deviation(), Some(2000));
    // mean -12, standard deviation 2: (-16 - (-12)) / 2 = -2
    assert_eq!(est.score(-16), Score::Value(-2000));
}
