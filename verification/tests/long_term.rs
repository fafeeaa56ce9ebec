use ternary_memory::long_term::{ExperienceSummary, LongTermMemory};
use ternary_memory::score::Score;

fn score(x: f64) -> Score {
    Score::from_bits(x.to_bits())
}

fn value(s: Score) -> f64 {
    f64::from_bits(s.to_bits())
}

/// Welford's update: new count, current mean and M2, outcome -> new mean and M2.
fn welford(count: u64, mean: Score, m2: Score, outcome: Score) -> (Score, Score) {
    let x = value(outcome);
    let mean_before = value(mean);
    let delta = x - mean_before;
    let mean_after = mean_before + delta / count as f64;
    let mut m2_after = value(m2);
    if count > 1 {
        m2_after += delta * (x - mean_after);
    }
    (score(mean_after), score(m2_after))
}

/// Count-weighted mean of two means.
fn combine(m1: Score, c1: u64, m2: Score, c2: u64) -> Score {
    score((value(m1) * c1 as f64 + value(m2) * c2 as f64) / (c1 + c2) as f64)
}

#[test]
fn test_observe_running_stats() {
    let mut s = ExperienceSummary::new("test");
    s.observe(score(2.0), &welford);
    s.observe(score(4.0), &welford);
    s.observe(score(6.0), &welford);
    assert_eq!(s.count, 3);
    assert!((value(s.mean_outcome) - 4.0).abs() < 1e-9);
    assert!((value(s.best_outcome) - 6.0).abs() < 1e-9);
    assert!((value(s.worst_outcome) - 2.0).abs() < 1e-9);
}

#[test]
fn test_long_term_best_label() {
    let mut ltm = LongTermMemory::new();
    ltm.observe("explore", score(0.3), &welford);
    ltm.observe("exploit", score(0.9), &welford);
    ltm.observe("explore", score(0.5), &welford);
    assert_eq!(ltm.best_label(), Some("exploit"));
}

#[test]
fn test_merge() {
    let mut a = LongTermMemory::new();
    a.observe("x", score(1.0), &welford);
    a.observe("x", score(3.0), &welford);
    let mut b = LongTermMemory::new();
    b.observe("x", score(5.0), &welford);
    a.merge(&b, &combine);
    assert_eq!(a.get("x").unwrap().count, 3);
    // mean = (1+3+5)/3 = 3
    assert!((value(a.get("x").unwrap().mean_outcome) - 3.0).abs() < 1e-9);
}

#[test]
fn fresh_summary_extremes() {
    let s = ExperienceSummary::new("fresh");
    assert_eq!(s.count, 0);
    assert_eq!(value(s.mean_outcome), 0.0);
    assert_eq!(value(s.variance), 0.0);
    assert_eq!(value(s.best_outcome), f64::NEG_INFINITY);
    assert_eq!(value(s.worst_outcome), f64::INFINITY);
}

#[test]
fn welford_m2_tracks_squared_deviations() {
    let mut s = ExperienceSummary::new("v");
    for x in [2.0, 4.0, 6.0] {
        s.observe(score(x), &welford);
    }
    // M2 of [2, 4, 6] is 8.
    assert!((value(s.variance) - 8.0).abs() < 1e-9);
}

#[test]
fn labels_are_kept_in_first_seen_order() {
    let mut ltm = LongTermMemory::default();
    assert!(ltm.is_empty());
    ltm.observe("b", score(1.0), &welford);
    ltm.observe("a", score(2.0), &welford);
    ltm.observe("b", score(3.0), &welford);
    assert_eq!(ltm.len(), 2);
    let labels: Vec<&str> = ltm.summaries().iter().map(|s| s.label.as_str()).collect();
    assert_eq!(labels, vec!["b", "a"]);
    assert_eq!(ltm.get("b").unwrap().count, 2);
    assert!(ltm.get("c").is_none());
    assert_eq!(ltm.total_observations(), 3);
}

#[test]
fn best_label_prefers_last_of_equal_means() {
    let mut ltm = LongTermMemory::new();
    assert_eq!(ltm.best_label(), None);
    ltm.observe("first", score(0.5), &welford);
    ltm.observe("second", score(0.5), &welford);
    ltm.observe("third", score(0.1), &welford);
    assert_eq!(ltm.best_label(), Some("second"));
}

#[test]
fn merge_appends_new_labels_and_widens_extremes() {
    let mut a = LongTermMemory::new();
    a.observe("x", score(1.0), &welford);
    a.observe("x", score(3.0), &welford);
    let mut b = LongTermMemory::new();
    b.observe("y", score(7.0), &welford);
    b.observe("x", score(-2.0), &welford);
    b.observe("x", score(9.0), &welford);
    a.merge(&b, &combine);
    let labels: Vec<&str> = a.summaries().iter().map(|s| s.label.as_str()).collect();
    assert_eq!(labels, vec!["x", "y"]);
    let x = a.get("x").unwrap();
    assert_eq!(x.count, 4);
    assert_eq!(value(x.best_outcome), 9.0);
    assert_eq!(value(x.worst_outcome), -2.0);
    assert!((value(x.mean_outcome) - 2.75).abs() < 1e-9);
    assert_eq!(a.get("y").unwrap().count, 1);
    assert_eq!(a.total_observations(), 5);
}

#[test]
fn summary_equality_follows_values() {
    let mut s = ExperienceSummary::new("e");
    s.observe(score(1.5), &welford);
    let c = s.duplicate();
    assert!(c == s);
    let mut t = s.duplicate();
    t.observe(score(2.0), &welford);
    assert!(t != s);
}

#[test]
fn fresh_summary_after_observations_tracks_extremes() {
    let mut s = ExperienceSummary::new("xs");
    let xs = [0.5, -1.25, 3.0, 2.0];
    for x in xs {
        s.observe(score(x), &welford);
    }
    assert_eq!(s.count, 4);
    assert_eq!(value(s.best_outcome), 3.0);
    assert_eq!(value(s.worst_outcome), -1.25);
}

#[test]
fn observe_adds_a_summary_only_for_new_labels() {
    let mut ltm = LongTermMemory::new();
    ltm.observe("a", score(1.0), &welford);
    assert_eq!(ltm.len(), 1);
    ltm.observe("a", score(1.0), &welford);
    assert_eq!(ltm.len(), 1);
    ltm.observe("b", score(1.0), &welford);
    assert_eq!(ltm.len(), 2);
    assert_eq!(ltm.total_observations(), 3);
}
