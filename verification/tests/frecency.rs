use gd::frecency::{age_score, decay_factor, effective_score, should_age};

/// A factor of hundredths as the number it stands for.
fn factor(elapsed: u64) -> f64 {
    decay_factor(elapsed) as f64 / 100.0
}

#[test]
fn decay_within_hour() {
    assert_eq!(factor(0), 1.0);
    assert_eq!(factor(3599), 1.0);
}

#[test]
fn decay_within_day() {
    assert_eq!(factor(3600), 0.7);
    assert_eq!(factor(86399), 0.7);
}

#[test]
fn decay_within_week() {
    assert_eq!(factor(86400), 0.5);
    assert_eq!(factor(604799), 0.5);
}

#[test]
fn decay_over_week() {
    assert_eq!(factor(604800), 0.25);
    assert_eq!(factor(999_999_999), 0.25);
}

#[test]
fn effective_score_applies_decay() {
    let now = 1_000_000;
    let last = now - 100;
    assert_eq!(effective_score(10, last, now) as f64 / 100.0, 10.0);

    let last = now - 7200;
    assert!((effective_score(10, last, now) as f64 / 100.0 - 7.0).abs() < f64::EPSILON);
}

#[test]
fn access_in_the_future_does_not_decay() {
    assert_eq!(effective_score(10, 2000, 1000), 1000);
}

#[test]
fn aging_prunes_low_scores() {
    assert!(should_age(100_100));
    assert!(!should_age(99_900));
    assert_eq!(age_score(50), None);
    assert_eq!(age_score(1000).map(|n| n as f64 / 1000.0), Some(9.0));
}

#[test]
fn aging_keeps_what_is_worth_a_point() {
    assert_eq!(age_score(111), None);
    assert_eq!(age_score(112), Some(1008));
    assert!(!should_age(100_000));
}
