use ternary_memory::index::{ContextTag, MemoryIndex};
use ternary_memory::score::Score;

fn score(x: f64) -> Score {
    Score::from_bits(x.to_bits())
}

fn value(s: Score) -> f64 {
    f64::from_bits(s.to_bits())
}

#[test]
fn test_insert_and_query_all() {
    let mut idx: MemoryIndex<String> = MemoryIndex::new();
    idx.insert("alpha".into(), vec![ContextTag::new("env", "forest"), ContextTag::new("type", "combat")], score(0.9));
    idx.insert("beta".into(), vec![ContextTag::new("env", "desert")], score(0.5));
    let results = idx.query_all(&[ContextTag::new("env", "forest")]);
    assert_eq!(results.len(), 1);
    assert_eq!(results[0].item, "alpha");
}

#[test]
fn test_query_any() {
    let mut idx: MemoryIndex<String> = MemoryIndex::new();
    idx.insert("a".into(), vec![ContextTag::new("x", "1")], score(0.5));
    idx.insert("b".into(), vec![ContextTag::new("y", "2")], score(0.8));
    let results = idx.query_any(&[ContextTag::new("x", "1"), ContextTag::new("y", "2")]);
    assert_eq!(results.len(), 2);
    // sorted by relevance desc
    assert_eq!(results[0].item, "b");
}

#[test]
fn test_retain() {
    let mut idx: MemoryIndex<i32> = MemoryIndex::new();
    idx.insert(1, vec![ContextTag::new("k", "v")], score(0.5));
    idx.insert(2, vec![ContextTag::new("k", "v")], score(0.9));
    idx.retain(|e| value(e.relevance) > 0.7);
    assert_eq!(idx.len(), 1);
    assert_eq!(idx.all()[0].item, 2);
}

#[test]
fn query_all_needs_every_tag() {
    let mut idx: MemoryIndex<&str> = MemoryIndex::new();
    idx.insert("both", vec![ContextTag::new("a", "1"), ContextTag::new("b", "2")], score(0.1));
    idx.insert("only_a", vec![ContextTag::new("a", "1")], score(0.9));
    let both = idx.query_all(&[ContextTag::new("a", "1"), ContextTag::new("b", "2")]);
    assert_eq!(both.len(), 1);
    assert_eq!(both[0].item, "both");
    let any: Vec<&str> = idx
        .query_any(&[ContextTag::new("a", "1"), ContextTag::new("b", "2")])
        .iter()
        .map(|e| e.item)
        .collect();
    assert_eq!(any, vec!["only_a", "both"]);
}

#[test]
fn tags_match_on_key_and_value() {
    let mut idx: MemoryIndex<u8> = MemoryIndex::new();
    idx.insert(1, vec![ContextTag::new("env", "forest")], score(0.5));
    assert!(idx.query_any(&[ContextTag::new("env", "desert")]).is_empty());
    assert!(idx.query_any(&[ContextTag::new("zone", "forest")]).is_empty());
    assert!(ContextTag::new("k", "v") == ContextTag::new("k", "v"));
    assert!(ContextTag::new("k", "v") != ContextTag::new("k", "w"));
}

#[test]
fn empty_query_lists() {
    let mut idx: MemoryIndex<u8> = MemoryIndex::new();
    idx.insert(1, vec![], score(0.2));
    idx.insert(2, vec![ContextTag::new("k", "v")], score(0.7));
    idx.insert(3, vec![], score(0.7));
    let all: Vec<u8> = idx.query_all(&[]).iter().map(|e| e.item).collect();
    assert_eq!(all, vec![2, 3, 1]);
    assert!(idx.query_any(&[]).is_empty());
    assert_eq!(idx.len(), 3);
    assert!(!idx.is_empty());
}

#[test]
fn retain_keeps_order() {
    let mut idx: MemoryIndex<u32> = MemoryIndex::default();
    assert!(idx.is_empty());
    for i in 0..6u32 {
        idx.insert(i, vec![], score(i as f64));
    }
    idx.retain(|e| e.item % 2 == 0);
    let items: Vec<u32> = idx.all().iter().map(|e| e.item).collect();
    assert_eq!(items, vec![0, 2, 4]);
}

#[test]
fn query_with_nan_relevance() {
    let mut idx: MemoryIndex<u8> = MemoryIndex::new();
    idx.insert(1, vec![ContextTag::new("k", "v")], score(f64::NAN));
    idx.insert(2, vec![ContextTag::new("other", "v")], score(0.5));
    let r = idx.query_all(&[ContextTag::new("k", "v")]);
    assert_eq!(r.len(), 1);
    assert_eq!(r[0].item, 1);
}
