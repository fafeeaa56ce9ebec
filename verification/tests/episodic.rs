use ternary_memory::episodic::{Episode, EpisodeKind, EpisodicMemory};
use ternary_memory::score::Score;

fn score(x: f64) -> Score {
    Score::from_bits(x.to_bits())
}

#[test]
fn episodic_test_store_and_recall() {
    let mut em = EpisodicMemory::unlimited();
    em.store(Episode::new("almost fell", EpisodeKind::NearMiss, 10, score(-0.5)));
    em.store(Episode::new("found gold", EpisodeKind::Breakthrough, 20, score(1.0)));
    assert_eq!(em.len(), 2);
}

#[test]
fn test_recall_by_kind() {
    let mut em = EpisodicMemory::unlimited();
    em.store(Episode::new("a", EpisodeKind::NearMiss, 1, score(-0.5)));
    em.store(Episode::new("b", EpisodeKind::Breakthrough, 2, score(1.0)));
    em.store(Episode::new("c", EpisodeKind::NearMiss, 3, score(-0.3)));
    let nm = em.recall_by_kind(&EpisodeKind::NearMiss);
    assert_eq!(nm.len(), 2);
}

#[test]
fn test_capacity_eviction() {
    let mut em = EpisodicMemory::new(2);
    em.store(Episode::new("first", EpisodeKind::Surprise, 1, score(0.0)));
    em.store(Episode::new("second", EpisodeKind::Surprise, 2, score(0.0)));
    em.store(Episode::new("third", EpisodeKind::Surprise, 3, score(0.0)));
    assert_eq!(em.len(), 2);
    assert_eq!(em.recall_all()[0].description, "second");
}

#[test]
fn test_recall_by_tags() {
    let mut em = EpisodicMemory::unlimited();
    em.store(Episode::new("a", EpisodeKind::NearMiss, 1, score(0.0)).with_tag("combat"));
    em.store(Episode::new("b", EpisodeKind::Breakthrough, 2, score(0.0)).with_tag("exploration"));
    let combat = em.recall_by_tags(&["combat"]);
    assert_eq!(combat.len(), 1);
    assert_eq!(combat[0].description, "a");
}

#[test]
fn test_recall_top() {
    let mut em = EpisodicMemory::unlimited();
    em.store(Episode::new("low", EpisodeKind::Surprise, 1, score(0.1)));
    em.store(Episode::new("mid", EpisodeKind::Surprise, 2, score(0.5)));
    em.store(Episode::new("high", EpisodeKind::Surprise, 3, score(0.9)));
    let top = em.recall_top(2);
    assert_eq!(top.len(), 2);
    assert_eq!(top[0].description, "high");
    assert_eq!(top[1].description, "mid");
}

#[test]
fn recall_top_keeps_storage_order_on_ties() {
    let mut em = EpisodicMemory::unlimited();
    em.store(Episode::new("a", EpisodeKind::Surprise, 1, score(0.5)));
    em.store(Episode::new("b", EpisodeKind::Surprise, 2, score(0.9)));
    em.store(Episode::new("c", EpisodeKind::Surprise, 3, score(0.5)));
    em.store(Episode::new("d", EpisodeKind::Surprise, 4, score(-0.0)));
    em.store(Episode::new("e", EpisodeKind::Surprise, 5, score(0.0)));
    let top: Vec<&str> = em.recall_top(10).iter().map(|e| e.description.as_str()).collect();
    assert_eq!(top, vec!["b", "a", "c", "d", "e"]);
    assert!(em.recall_top(0).is_empty());
}

#[test]
fn recall_top_with_negative_outcomes() {
    let mut em = EpisodicMemory::unlimited();
    em.store(Episode::new("bad", EpisodeKind::NearMiss, 1, score(-2.0)));
    em.store(Episode::new("worse", EpisodeKind::NearMiss, 2, score(-3.5)));
    em.store(Episode::new("ok", EpisodeKind::Surprise, 3, score(-0.25)));
    let top: Vec<&str> = em.recall_top(3).iter().map(|e| e.description.as_str()).collect();
    assert_eq!(top, vec!["ok", "bad", "worse"]);
}

#[test]
fn custom_kinds_compare_by_name() {
    let mut em = EpisodicMemory::unlimited();
    em.store(Episode::new("x", EpisodeKind::Custom("trade".to_string()), 1, score(0.0)));
    em.store(Episode::new("y", EpisodeKind::Custom("war".to_string()), 2, score(0.0)));
    em.store(Episode::new("z", EpisodeKind::Surprise, 3, score(0.0)));
    let trade = em.recall_by_kind(&EpisodeKind::Custom("trade".to_string()));
    assert_eq!(trade.len(), 1);
    assert_eq!(trade[0].description, "x");
    assert!(EpisodeKind::Custom("a".to_string()) != EpisodeKind::Custom("b".to_string()));
    assert!(EpisodeKind::NearMiss != EpisodeKind::Breakthrough);
    assert!(EpisodeKind::Surprise == EpisodeKind::Surprise);
}

#[test]
fn kind_text() {
    assert_eq!(EpisodeKind::NearMiss.to_string(), "near_miss");
    assert_eq!(EpisodeKind::Breakthrough.to_string(), "breakthrough");
    assert_eq!(EpisodeKind::Surprise.to_string(), "surprise");
    assert_eq!(EpisodeKind::Custom("boss".to_string()).to_string(), "custom:boss");
}

#[test]
fn recall_by_tags_matches_any_query_tag() {
    let mut em = EpisodicMemory::unlimited();
    em.store(Episode::new("a", EpisodeKind::Surprise, 1, score(0.0)).with_tag("x").with_tag("y"));
    em.store(Episode::new("b", EpisodeKind::Surprise, 2, score(0.0)).with_tag("z"));
    em.store(Episode::new("c", EpisodeKind::Surprise, 3, score(0.0)));
    let hits: Vec<&str> = em.recall_by_tags(&["y", "z"]).iter().map(|e| e.description.as_str()).collect();
    assert_eq!(hits, vec!["a", "b"]);
    assert!(em.recall_by_tags(&[]).is_empty());
}

#[test]
fn eviction_is_first_in_first_out() {
    let mut em = EpisodicMemory::new(3);
    for (i, name) in ["1", "2", "3", "4", "5"].iter().enumerate() {
        em.store(Episode::new(name, EpisodeKind::Surprise, i as u64, score(0.0)));
    }
    let all: Vec<&str> = em.recall_all().iter().map(|e| e.description.as_str()).collect();
    assert_eq!(all, vec!["3", "4", "5"]);
    em.clear();
    assert!(em.is_empty());
    em.store(Episode::new("6", EpisodeKind::Surprise, 6, score(0.0)));
    assert_eq!(em.len(), 1);
}

#[test]
fn recall_top_with_nan_outcomes() {
    let mut one = EpisodicMemory::unlimited();
    one.store(Episode::new("only", EpisodeKind::Surprise, 1, score(f64::NAN)));
    let top = one.recall_top(5);
    assert_eq!(top.len(), 1);
    assert_eq!(top[0].description, "only");

    let mut all = EpisodicMemory::unlimited();
    for (i, name) in ["p", "q", "r"].iter().enumerate() {
        all.store(Episode::new(name, EpisodeKind::Surprise, i as u64, score(f64::NAN)));
    }
    let top: Vec<&str> = all.recall_top(3).iter().map(|e| e.description.as_str()).collect();
    assert_eq!(top, vec!["p", "q", "r"]);
}
