use quietlibrary::cache::{
    cache_decision, cache_key, plan_prune, should_prune, should_upgrade, truncate_pages,
    CacheDecision, CacheEntryMeta, ExtractorKind,
};

#[test]
fn test_unchanged_fingerprint_reuses_cached_entry() {
    // Idempotent re-extraction: while the fingerprint matches, a
    // primary-produced entry is used as-is, on every lookup.
    let cached = Some((1700u64, 42u64, ExtractorKind::Primary));
    assert_eq!(cache_decision(cached, 1700, 42), CacheDecision::UseCached);
    assert_eq!(cache_decision(cached, 1700, 42), CacheDecision::UseCached);
}

#[test]
fn test_fallback_entry_triggers_upgrade_attempt() {
    let cached = Some((1700u64, 42u64, ExtractorKind::Fallback));
    assert_eq!(cache_decision(cached, 1700, 42), CacheDecision::TryUpgrade);
    assert!(should_upgrade(ExtractorKind::Fallback));
    assert!(!should_upgrade(ExtractorKind::Primary));
}

#[test]
fn test_fingerprint_change_forces_reextract() {
    let cached = Some((1700u64, 42u64, ExtractorKind::Primary));
    assert_eq!(cache_decision(cached, 1701, 42), CacheDecision::Reextract);
    assert_eq!(cache_decision(cached, 1700, 43), CacheDecision::Reextract);
    assert_eq!(cache_decision(None, 1700, 42), CacheDecision::Reextract);
}

#[test]
fn test_cache_key_is_stable_and_fingerprint_sensitive() {
    let k1 = cache_key("/tmp/doc.pdf", 1700000000, 12345);
    assert_eq!(k1, "d8c6f82c9c2531b4");
    assert_eq!(cache_key("/tmp/doc.pdf", 1700000000, 12345), k1);
    let k2 = cache_key("/tmp/doc.pdf", 1700000001, 12345);
    assert_eq!(k2, "f95d1c5abccb2b3d");
    assert_ne!(k1, k2);
}

fn entry(name: &str, size: u64, mtime: u64) -> CacheEntryMeta {
    CacheEntryMeta { name: name.to_string(), size, mtime }
}

#[test]
fn test_prune_respects_byte_budget_oldest_first() {
    // Seeded past the byte budget: the plan keeps total occupied bytes
    // within it and deletes the oldest-modified entries first.
    let entries = vec![
        entry("new", 100, 30),
        entry("old", 100, 10),
        entry("mid", 100, 20),
    ];
    let plan = plan_prune(entries, 1_000, 150, 1_000_000);
    let deleted: Vec<&str> = plan.delete.iter().map(|e| e.name.as_str()).collect();
    let kept: Vec<&str> = plan.keep.iter().map(|e| e.name.as_str()).collect();
    assert_eq!(deleted, vec!["old", "mid"]);
    assert_eq!(kept, vec!["new"]);
    let total: u64 = plan.keep.iter().map(|e| e.size).sum();
    assert!(total <= 150);
}

#[test]
fn test_prune_deletes_over_age_entries_first() {
    let entries = vec![entry("ancient", 10, 5), entry("recent", 10, 990)];
    let plan = plan_prune(entries, 1_000, 1_000_000, 100);
    let deleted: Vec<&str> = plan.delete.iter().map(|e| e.name.as_str()).collect();
    assert_eq!(deleted, vec!["ancient"]);
    assert_eq!(plan.keep.len(), 1);
    assert_eq!(plan.keep[0].name, "recent");
}

#[test]
fn test_prune_under_budget_keeps_everything() {
    let entries = vec![entry("a", 10, 1_000), entry("b", 10, 999)];
    let plan = plan_prune(entries, 1_000, 1_000, 1_000_000);
    assert_eq!(plan.delete.len(), 0);
    assert_eq!(plan.keep.len(), 2);
}

#[test]
fn test_should_prune_rate_limit() {
    assert!(should_prune(1_000, 0, 600));
    assert!(!should_prune(1_000, 900, 600));
    assert!(should_prune(1_500, 900, 600));
}

#[test]
fn test_truncate_pages_caps_list() {
    let mut pages: Vec<(u32, String)> =
        (1..=5).map(|i| (i, format!("page {}", i))).collect();
    truncate_pages(&mut pages, 3);
    assert_eq!(pages.len(), 3);
    assert_eq!(pages[2].0, 3);
    let mut short: Vec<(u32, String)> = vec![(1, "only".to_string())];
    truncate_pages(&mut short, 3);
    assert_eq!(short.len(), 1);
}
