use ternary_memory::consolidation::{ConsolidationConfig, ConsolidationResult, MemoryConsolidation};
use ternary_memory::episodic::{EpisodeKind, EpisodicMemory};
use ternary_memory::long_term::LongTermMemory;
use ternary_memory::score::Score;
use ternary_memory::short_term::{Decision, ShortTermMemory};

fn score(x: f64) -> Score {
    Score::from_bits(x.to_bits())
}

fn value(s: Score) -> f64 {
    f64::from_bits(s.to_bits())
}

fn welford(count: u64, mean: Score, m2: Score, outcome: Score) -> (Score, Score) {
    let x = value(outcome);
    let mean_before = value(mean);
    let delta = x - mean_before;
    let mean_after = mean_before + delta / count as f64;
    let mut m2_after = value(m2);
    if count > 1 {
        m2_after += delta * (x - mean_after);
    }
    (score(mean_after), score(m2_after))
}

fn render(x: Score) -> String {
    format!("{:.2}", value(x))
}

#[test]
fn test_basic_consolidation() {
    let mut stm = ShortTermMemory::new(10);
    let mut ltm = LongTermMemory::new();
    let mut episodic = EpisodicMemory::unlimited();
    let consolidation = MemoryConsolidation::new();

    stm.store(Decision::new("explore", score(0.3), 1));
    stm.store(Decision::new("attack", score(0.9), 2));
    stm.store(Decision::new("flee", score(-0.8), 3));

    let result = consolidation.consolidate(&mut stm, &mut ltm, &mut episodic, &welford, &render);
    assert_eq!(result.consolidated_count, 3);
    assert_eq!(result.new_episodes, 2); // attack=breakthrough, flee=near-miss
    assert!(stm.is_empty());
    assert_eq!(ltm.len(), 3);
}

#[test]
fn test_selective_consolidation() {
    let mut stm = ShortTermMemory::new(10);
    let mut ltm = LongTermMemory::new();
    let mut episodic = EpisodicMemory::unlimited();
    let consolidation = MemoryConsolidation::new();

    stm.store(Decision::new("explore", score(0.3), 1));
    stm.store(Decision::new("attack", score(0.9), 2));

    let result = consolidation.consolidate_selective(
        &mut stm, &mut ltm, &mut episodic,
        &|d: &Decision| d.action == "attack",
        &welford, &render,
    );
    assert_eq!(result.consolidated_count, 1);
    assert_eq!(stm.len(), 1); // "explore" kept
}

#[test]
fn test_consolidation_updates_labels() {
    let mut stm = ShortTermMemory::new(10);
    let mut ltm = LongTermMemory::new();
    let mut episodic = EpisodicMemory::unlimited();
    let consolidation = MemoryConsolidation::new();

    stm.store(Decision::new("a", score(0.5), 1));
    stm.store(Decision::new("b", score(0.6), 2));
    stm.store(Decision::new("a", score(0.4), 3));

    let result = consolidation.consolidate(&mut stm, &mut ltm, &mut episodic, &welford, &render);
    assert!(result.updated_labels.contains(&"a".to_string()));
    assert!(result.updated_labels.contains(&"b".to_string()));
    // "a" should appear only once
    assert_eq!(result.updated_labels.iter().filter(|l| *l == "a").count(), 1);
}

#[test]
fn episodes_are_described_and_classified() {
    let mut stm = ShortTermMemory::new(10);
    let mut ltm = LongTermMemory::new();
    let mut episodic = EpisodicMemory::unlimited();
    let consolidation = MemoryConsolidation::default();

    stm.store(Decision::new("attack", score(0.9), 2));
    stm.store(Decision::new("flee", score(-0.8), 3));
    stm.store(Decision::new("wait", score(0.0), 4));
    let result = consolidation.consolidate(&mut stm, &mut ltm, &mut episodic, &welford, &render);
    assert_eq!(result.new_episodes, 2);
    let eps = episodic.recall_all();
    assert_eq!(eps[0].description, "Breakthrough: attack (outcome=0.90)");
    assert!(eps[0].kind == EpisodeKind::Breakthrough);
    assert_eq!(eps[0].tick, 2);
    assert_eq!(eps[1].description, "Near miss: flee (outcome=-0.80)");
    assert!(eps[1].kind == EpisodeKind::NearMiss);
    assert_eq!(value(eps[1].outcome), -0.8);
    assert_eq!(result.updated_labels, vec!["attack", "flee", "wait"]);
}

#[test]
fn thresholds_are_inclusive() {
    let mut stm = ShortTermMemory::new(4);
    let mut ltm = LongTermMemory::new();
    let mut episodic = EpisodicMemory::unlimited();
    let consolidation = MemoryConsolidation::with_config(ConsolidationConfig {
        breakthrough_threshold: score(0.5),
        near_miss_threshold: score(-0.5),
    });
    stm.store(Decision::new("edge_high", score(0.5), 1));
    stm.store(Decision::new("edge_low", score(-0.5), 2));
    stm.store(Decision::new("inside", score(0.49), 3));
    let result = consolidation.consolidate(&mut stm, &mut ltm, &mut episodic, &welford, &render);
    assert_eq!(result.new_episodes, 2);
    assert_eq!(episodic.recall_by_kind(&EpisodeKind::Breakthrough).len(), 1);
    assert_eq!(episodic.recall_by_kind(&EpisodeKind::NearMiss).len(), 1);
}

#[test]
fn default_thresholds() {
    let c = ConsolidationConfig::default();
    assert_eq!(value(c.breakthrough_threshold), 0.8);
    assert_eq!(value(c.near_miss_threshold), -0.5);
    let m = MemoryConsolidation::new();
    assert_eq!(value(m.config().breakthrough_threshold), 0.8);
}

#[test]
fn consolidation_adds_counts_to_long_term() {
    let mut stm = ShortTermMemory::new(5);
    let mut ltm = LongTermMemory::new();
    ltm.observe("a", score(0.1), &welford);
    let mut episodic = EpisodicMemory::unlimited();
    let consolidation = MemoryConsolidation::new();
    stm.store(Decision::new("a", score(0.2), 1));
    stm.store(Decision::new("b", score(0.3), 2));
    stm.store(Decision::new("a", score(0.4), 3));
    let result = consolidation.consolidate(&mut stm, &mut ltm, &mut episodic, &welford, &render);
    assert_eq!(result.consolidated_count, 3);
    assert_eq!(ltm.get("a").unwrap().count, 3);
    assert_eq!(ltm.get("b").unwrap().count, 1);
    assert_eq!(ltm.total_observations(), 4);
}

#[test]
fn episodic_capacity_applies_during_consolidation() {
    let mut stm = ShortTermMemory::new(5);
    let mut ltm = LongTermMemory::new();
    let mut episodic = EpisodicMemory::new(1);
    let consolidation = MemoryConsolidation::new();
    stm.store(Decision::new("win1", score(0.95), 1));
    stm.store(Decision::new("win2", score(0.85), 2));
    let result = consolidation.consolidate(&mut stm, &mut ltm, &mut episodic, &welford, &render);
    assert_eq!(result.new_episodes, 2);
    assert_eq!(episodic.len(), 1);
    assert_eq!(episodic.recall_all()[0].description, "Breakthrough: win2 (outcome=0.85)");
}

#[test]
fn selective_keeps_the_rest_in_order() {
    let mut stm = ShortTermMemory::new(4);
    let mut ltm = LongTermMemory::new();
    let mut episodic = EpisodicMemory::unlimited();
    let consolidation = MemoryConsolidation::new();
    for (i, name) in ["a", "b", "c", "d"].iter().enumerate() {
        stm.store(Decision::new(name, score(0.0), i as u64));
    }
    let result = consolidation.consolidate_selective(
        &mut stm, &mut ltm, &mut episodic,
        &|d: &Decision| d.action == "b" || d.action == "d",
        &welford, &render,
    );
    assert_eq!(result.consolidated_count, 2);
    assert_eq!(result.updated_labels, vec!["b", "d"]);
    let kept: Vec<String> = stm.recall().into_iter().map(|e| e.decision.action).collect();
    assert_eq!(kept, vec!["c", "a"]);
    assert_eq!(ltm.len(), 2);
}

#[test]
fn results_compare_by_content() {
    let r1 = ConsolidationResult { consolidated_count: 1, new_episodes: 0, updated_labels: vec!["a".to_string()] };
    let r2 = ConsolidationResult { consolidated_count: 1, new_episodes: 0, updated_labels: vec!["a".to_string()] };
    let r3 = ConsolidationResult { consolidated_count: 1, new_episodes: 0, updated_labels: vec!["b".to_string()] };
    assert!(r1 == r2);
    assert!(r1 != r3);
}

#[test]
fn crossed_thresholds_make_both_episodes() {
    let mut stm = ShortTermMemory::new(4);
    let mut ltm = LongTermMemory::new();
    let mut episodic = EpisodicMemory::unlimited();
    let consolidation = MemoryConsolidation::with_config(ConsolidationConfig {
        breakthrough_threshold: score(0.0),
        near_miss_threshold: score(0.5),
    });
    stm.store(Decision::new("both", score(0.3), 1));
    stm.store(Decision::new("high", score(0.9), 2));
    stm.store(Decision::new("low", score(-0.2), 3));
    let result = consolidation.consolidate(&mut stm, &mut ltm, &mut episodic, &welford, &render);
    assert_eq!(result.new_episodes, 4);
    let descs: Vec<&str> = episodic.recall_all().iter().map(|e| e.description.as_str()).collect();
    assert_eq!(
        descs,
        vec![
            "Breakthrough: both (outcome=0.30)",
            "Near miss: both (outcome=0.30)",
            "Breakthrough: high (outcome=0.90)",
            "Near miss: low (outcome=-0.20)",
        ]
    );
}

#[test]
fn selecting_everything_matches_plain_consolidation() {
    let fill = |stm: &mut ShortTermMemory| {
        stm.store(Decision::new("x", score(0.9), 1));
        stm.store(Decision::new("y", score(-0.7), 2));
        stm.store(Decision::new("x", score(0.1), 3));
    };
    let consolidation = MemoryConsolidation::new();
    let (mut s1, mut l1, mut e1) = (ShortTermMemory::new(3), LongTermMemory::new(), EpisodicMemory::unlimited());
    let (mut s2, mut l2, mut e2) = (ShortTermMemory::new(3), LongTermMemory::new(), EpisodicMemory::unlimited());
    fill(&mut s1);
    fill(&mut s2);
    let r1 = consolidation.consolidate_selective(&mut s1, &mut l1, &mut e1, &|_: &Decision| true, &welford, &render);
    let r2 = consolidation.consolidate(&mut s2, &mut l2, &mut e2, &welford, &render);
    assert!(r1 == r2);
    assert!(s1.is_empty() && s2.is_empty());
    assert!(l1.summaries() == l2.summaries());
    let d1: Vec<&str> = e1.recall_all().iter().map(|e| e.description.as_str()).collect();
    let d2: Vec<&str> = e2.recall_all().iter().map(|e| e.description.as_str()).collect();
    assert_eq!(d1, d2);
}
