use ternary_memory::score::Score;
use ternary_memory::short_term::{recall_above_threshold, Decision, RetainedEntry, ShortTermMemory};

fn score(x: f64) -> Score {
    Score::from_bits(x.to_bits())
}

#[test]
fn short_term_test_store_and_recall() {
    let mut stm = ShortTermMemory::with_capacity(3);
    stm.store(Decision::new("explore", score(0.5), 0));
    stm.store(Decision::new("attack", score(0.8), 1));
    let entries = stm.recall();
    assert_eq!(entries.len(), 2);
    // newest first
    assert_eq!(entries[0].decision.action, "attack");
    assert_eq!(entries[1].decision.action, "explore");
}

#[test]
fn test_ring_buffer_overflow() {
    let mut stm = ShortTermMemory::with_capacity(2);
    stm.store(Decision::new("a", score(1.0), 0));
    stm.store(Decision::new("b", score(2.0), 1));
    stm.store(Decision::new("c", score(3.0), 2));
    let entries = stm.recall();
    assert_eq!(entries.len(), 2);
    // "a" should be evicted
    let actions: Vec<&str> = entries.iter().map(|e| e.decision.action.as_str()).collect();
    assert!(actions.contains(&"b"));
    assert!(actions.contains(&"c"));
    assert!(!actions.contains(&"a"));
}

#[test]
fn test_drain_clears() {
    let mut stm = ShortTermMemory::with_capacity(5);
    stm.store(Decision::new("a", score(1.0), 0));
    let drained = stm.drain();
    assert_eq!(drained.len(), 1);
    assert!(stm.is_empty());
}

#[test]
fn recall_reports_ages_from_current_tick() {
    let mut stm = ShortTermMemory::new(5);
    stm.store(Decision::new("old", score(1.0), 0));
    stm.store(Decision::new("recent", score(1.0), 5));
    assert_eq!(stm.current_tick(), 5);
    let entries = stm.recall();
    assert_eq!(entries[0].decision.action, "recent");
    assert_eq!(entries[0].age, 0);
    assert_eq!(entries[1].decision.action, "old");
    assert_eq!(entries[1].age, 5);
}

#[test]
fn current_tick_never_goes_back() {
    let mut stm = ShortTermMemory::new(4);
    stm.store(Decision::new("late", score(0.0), 9));
    stm.store(Decision::new("early", score(0.0), 3));
    assert_eq!(stm.current_tick(), 9);
    let entries = stm.recall();
    assert_eq!(entries[0].decision.action, "early");
    assert_eq!(entries[0].age, 6);
    stm.clear();
    assert_eq!(stm.current_tick(), 9);
    assert!(stm.is_empty());
    assert_eq!(stm.len(), 0);
}

#[test]
fn ring_keeps_most_recent_newest_first() {
    let mut stm = ShortTermMemory::with_capacity(3);
    for (i, name) in ["a", "b", "c", "d", "e"].iter().enumerate() {
        stm.store(Decision::new(name, score(i as f64), i as u64));
    }
    assert_eq!(stm.len(), 3);
    let actions: Vec<String> = stm.recall().into_iter().map(|e| e.decision.action).collect();
    assert_eq!(actions, vec!["e", "d", "c"]);
}

#[test]
fn drain_after_wrap_is_in_slot_order() {
    let mut stm = ShortTermMemory::with_capacity(3);
    for (i, name) in ["a", "b", "c", "d"].iter().enumerate() {
        stm.store(Decision::new(name, score(0.0), i as u64));
    }
    // "d" overwrote slot 0, so slot order is d, b, c.
    let drained: Vec<String> = stm.drain().into_iter().map(|d| d.action).collect();
    assert_eq!(drained, vec!["d", "b", "c"]);
    assert!(stm.is_empty());
    stm.store(Decision::new("e", score(0.0), 10));
    let drained: Vec<String> = stm.drain().into_iter().map(|d| d.action).collect();
    assert_eq!(drained, vec!["e"]);
}

#[test]
fn drain_before_wrap_is_oldest_first() {
    let mut stm = ShortTermMemory::with_capacity(4);
    stm.store(Decision::new("x", score(0.0), 1));
    stm.store(Decision::new("y", score(0.0), 2));
    let drained: Vec<String> = stm.drain().into_iter().map(|d| d.action).collect();
    assert_eq!(drained, vec!["x", "y"]);
}

#[test]
fn decision_tags_and_copies() {
    let d = Decision::new("scout", score(0.25), 7).with_tag("frontier").with_tag("north");
    assert_eq!(d.tags, vec!["frontier".to_string(), "north".to_string()]);
    let c = d.duplicate();
    assert_eq!(c.action, "scout");
    assert_eq!(c.tick, 7);
    assert_eq!(f64::from_bits(c.outcome.to_bits()), 0.25);
    assert!(c == d);
    let other = Decision::new("scout", score(0.5), 7);
    assert!(other != d);
}

#[test]
fn recall_on_empty_memory() {
    let stm = ShortTermMemory::new(0);
    assert!(stm.recall().is_empty());
    assert!(stm.is_empty());
}

#[test]
fn drain_returns_what_recall_listed() {
    let mut stm = ShortTermMemory::with_capacity(3);
    for (i, name) in ["a", "b", "c", "d", "e"].iter().enumerate() {
        stm.store(Decision::new(name, score(i as f64), i as u64));
    }
    let mut listed: Vec<String> = stm.recall().into_iter().map(|e| e.decision.action).collect();
    let mut drained: Vec<String> = stm.drain().into_iter().map(|d| d.action).collect();
    listed.sort();
    drained.sort();
    assert_eq!(listed, drained);
    assert!(stm.recall().is_empty());
}

#[test]
fn test_recall_above_threshold() {
    // Retentions of a linear curve with horizon 10 at ages 5 and 0.
    let entries = vec![
        RetainedEntry { decision: Decision::new("mid", score(1.0), 5), retention: score(1.0) },
        RetainedEntry { decision: Decision::new("old", score(1.0), 0), retention: score(0.5) },
    ];
    let strong = recall_above_threshold(entries, score(0.6));
    assert!(strong.iter().all(|e| e.decision.action != "old"));
    assert!(strong.iter().any(|e| e.decision.action == "mid"));
}

#[test]
fn recall_above_threshold_is_inclusive_and_skips_nan() {
    let entries = vec![
        RetainedEntry { decision: Decision::new("a", score(0.0), 1), retention: score(0.5) },
        RetainedEntry { decision: Decision::new("b", score(0.0), 2), retention: score(f64::NAN) },
        RetainedEntry { decision: Decision::new("c", score(0.0), 3), retention: score(0.4) },
        RetainedEntry { decision: Decision::new("d", score(0.0), 4), retention: score(0.9) },
    ];
    let kept: Vec<String> = recall_above_threshold(entries, score(0.5)).into_iter().map(|e| e.decision.action).collect();
    assert_eq!(kept, vec!["a", "d"]);
}
