use bridge::error::BridgeError;
use bridge::hot_cache::HotCache;
use bridge::rule_vector::RuleVector;

fn create_test_vector(id: usize) -> RuleVector {
    let mut vector = RuleVector::default();
    vector.action_count = id;
    vector
}

#[test]
fn test_insert_and_get() {
    let mut cache = HotCache::with_capacity(100);
    let rule_id = "test-rule-1".to_string();
    let vector = create_test_vector(1);

    assert!(cache.insert(rule_id.clone(), vector.clone()).is_ok());
    assert!(cache.contains(&rule_id));

    let retrieved = cache.get(&rule_id);
    assert!(retrieved.is_some());
    assert_eq!(retrieved.unwrap().action_count, 1);
}

#[test]
fn test_update_existing_rule() {
    let mut cache = HotCache::with_capacity(100);
    let rule_id = "rule-1".to_string();
    let vector1 = create_test_vector(1);
    let vector2 = create_test_vector(2);

    assert!(cache.insert(rule_id.clone(), vector1).is_ok());
    let stats_after_insert = cache.stats();
    assert_eq!(stats_after_insert.entries, 1);

    assert!(cache.insert(rule_id.clone(), vector2).is_ok());
    let stats_after_update = cache.stats();
    assert_eq!(stats_after_update.entries, 1);
    assert_eq!(stats_after_update.total_evictions, 0);

    let retrieved = cache.get(&rule_id);
    assert_eq!(retrieved.unwrap().action_count, 2);
}

#[test]
fn test_remove_and_clear() {
    let mut cache = HotCache::with_capacity(100);
    for i in 0..5 {
        let rule_id = format!("rule-{}", i);
        let vector = create_test_vector(i);
        assert!(cache.insert(rule_id, vector).is_ok());
    }
    assert_eq!(cache.stats().entries, 5);

    cache.remove("rule-2");
    assert_eq!(cache.stats().entries, 4);
    assert!(!cache.contains("rule-2"));

    cache.clear();
    assert_eq!(cache.stats().entries, 0);
    assert!(!cache.contains("rule-0"));
}

#[test]
fn test_capacity_enforcement() {
    let mut cache = HotCache::with_capacity(10);
    for i in 0..10 {
        let rule_id = format!("rule-{}", i);
        let vector = create_test_vector(i);
        assert!(cache.insert(rule_id, vector).is_ok());
    }

    let stats = cache.stats();
    assert_eq!(stats.entries, 10, "Cache should be exactly at capacity");
    assert_eq!(stats.total_evictions, 0, "No eviction should have occurred yet");

    let vector = create_test_vector(10);
    assert!(cache.insert("rule-10".to_string(), vector).is_ok());

    let stats = cache.stats();
    assert_eq!(stats.entries, 10, "Cache should remain at capacity after eviction");
    assert!(stats.total_evictions > 0, "Eviction should have been triggered");
    assert!(stats.total_evicted > 0, "Should report evicted entries count");
}

#[test]
fn test_evicts_least_recently_used() {
    // Times advance by 5 ms between steps.
    let mut cache = HotCache::with_capacity(10);
    for i in 0..10 {
        let rule_id = format!("rule-{}", i);
        let vector = create_test_vector(i);
        assert!(cache.insert_at(rule_id, vector, 5 * i as u64).is_ok());
    }

    let _ = cache.get_and_mark_at("rule-5", 50);

    let vector = create_test_vector(10);
    assert!(cache.insert_at("rule-10".to_string(), vector, 55).is_ok());

    assert!(cache.contains("rule-5"), "Recently accessed rule should not be evicted");
    assert!(!cache.contains("rule-0"), "Oldest rule should be evicted first");
}

#[test]
fn test_multiple_evictions() {
    let mut cache = HotCache::with_capacity(5);
    for i in 0..5 {
        let rule_id = format!("rule-{}", i);
        let vector = create_test_vector(i);
        assert!(cache.insert_at(rule_id, vector, 2 * i as u64).is_ok());
    }

    let stats_before = cache.stats();
    assert_eq!(stats_before.total_evictions, 0);

    for i in 5..15 {
        let rule_id = format!("rule-{}", i);
        let vector = create_test_vector(i);
        assert!(cache.insert_at(rule_id, vector, 2 * i as u64).is_ok());
    }

    let stats_after = cache.stats();
    assert!(stats_after.total_evictions > 1, "Multiple evictions should occur");
    assert!(stats_after.total_evicted >= 5, "Should evict at least 5 entries total");
    assert_eq!(stats_after.entries, 5, "Cache should remain at capacity");
}

#[test]
fn test_eviction_statistics() {
    let mut cache = HotCache::with_capacity(5);
    for i in 0..5 {
        let rule_id = format!("rule-{}", i);
        let vector = create_test_vector(i);
        assert!(cache.insert(rule_id, vector).is_ok());
    }

    let stats_before = cache.stats();
    assert_eq!(stats_before.total_evictions, 0);
    assert_eq!(stats_before.total_evicted, 0);

    let vector = create_test_vector(5);
    assert!(cache.insert("rule-5".to_string(), vector).is_ok());

    let stats_after = cache.stats();
    assert_eq!(stats_after.total_evictions, 1, "Should record eviction event");
    assert!(stats_after.total_evicted > 0, "Should record number of evicted entries");
    assert!(
        stats_after.total_evicted >= 1,
        "Should evict at least 1 entry (10% of capacity)"
    );
}

#[test]
fn test_cache_stats_accuracy() {
    let mut cache = HotCache::with_capacity(20);
    for i in 0..15 {
        let rule_id = format!("rule-{}", i);
        let vector = create_test_vector(i);
        assert!(cache.insert(rule_id, vector).is_ok());
    }

    let stats = cache.stats();
    assert_eq!(stats.entries, 15, "Entry count should match number of insertions");
    assert_eq!(stats.capacity, 20);
    assert_eq!(stats.total_evictions, 0, "No evictions yet");

    for i in 0..5 {
        cache.remove(&format!("rule-{}", i));
    }

    let stats = cache.stats();
    assert_eq!(stats.entries, 10, "Entry count should decrease after removal");
}

#[test]
fn test_get_vs_get_and_mark() {
    let mut cache = HotCache::with_capacity(10);
    let rule_id = "rule-1".to_string();
    let vector = create_test_vector(1);

    assert!(cache.insert(rule_id.clone(), vector).is_ok());

    let result1 = cache.get(&rule_id);
    assert!(result1.is_some());

    let result2 = cache.get_and_mark(&rule_id);
    assert!(result2.is_some());

    assert_eq!(result1.unwrap().action_count, result2.unwrap().action_count);
}

#[test]
fn test_mark_evaluated_prevents_eviction() {
    let mut cache = HotCache::with_capacity(3);
    for i in 0..3 {
        let rule_id = format!("rule-{}", i);
        let vector = create_test_vector(i);
        assert!(cache.insert_at(rule_id, vector, 5 * i as u64).is_ok());
    }

    let _ = cache.get_and_mark_at("rule-0", 15);

    let vector = create_test_vector(3);
    assert!(cache.insert_at("rule-3".to_string(), vector, 20).is_ok());

    assert!(cache.contains("rule-0"), "Recently marked rule should not be evicted");
}

#[test]
fn test_small_capacity() {
    let mut cache = HotCache::with_capacity(1);

    assert!(cache.insert("rule-1".to_string(), create_test_vector(1)).is_ok());
    assert_eq!(cache.stats().entries, 1);

    assert!(cache.insert("rule-2".to_string(), create_test_vector(2)).is_ok());
    assert_eq!(cache.stats().entries, 1);
    assert!(!cache.contains("rule-1"));
    assert!(cache.contains("rule-2"));
}

#[test]
fn test_large_capacity() {
    let mut cache = HotCache::with_capacity(1000);
    for i in 0..500 {
        let rule_id = format!("rule-{}", i);
        let vector = create_test_vector(i);
        assert!(cache.insert(rule_id, vector).is_ok());
    }

    let stats = cache.stats();
    assert_eq!(stats.entries, 500);
    assert_eq!(stats.total_evictions, 0, "No evictions under capacity");

    for i in 500..1100 {
        let rule_id = format!("rule-{}", i);
        let vector = create_test_vector(i);
        assert!(cache.insert(rule_id, vector).is_ok());
    }

    let stats = cache.stats();
    assert_eq!(stats.entries, 1000, "Cache should be at capacity");
    assert!(stats.total_evictions > 0, "Evictions should have occurred");
}

#[test]
fn test_get_nonexistent_rule() {
    let mut cache = HotCache::with_capacity(10);
    assert!(cache.get("nonexistent").is_none());
    assert!(cache.get_and_mark("nonexistent").is_none());
}

#[test]
fn test_remove_nonexistent_rule() {
    let mut cache = HotCache::with_capacity(10);
    cache.remove("nonexistent");
    assert_eq!(cache.stats().entries, 0);
}

#[test]
fn test_clear_empty_cache() {
    let mut cache = HotCache::with_capacity(10);
    cache.clear();
    assert_eq!(cache.stats().entries, 0);
}

#[test]
fn test_repeated_updates_same_rule() {
    let mut cache = HotCache::with_capacity(5);
    let rule_id = "rule-1".to_string();
    for iteration in 1..=5 {
        let vector = create_test_vector(iteration);
        assert!(cache.insert(rule_id.clone(), vector).is_ok());
    }
    assert_eq!(cache.stats().entries, 1);
    assert_eq!(cache.get(&rule_id).unwrap().action_count, 5);
}

#[test]
fn test_default_capacity() {
    let cache = HotCache::new();
    let stats = cache.stats();
    assert_eq!(stats.capacity, 10_000, "Default capacity should be 10K");
}

// Scenario: fill a capacity-10 cache, mark rule-5, insert rule-10, using
// explicit times.
#[test]
fn lru_scenario_with_explicit_times() {
    let mut cache = HotCache::with_capacity(10);
    for i in 0..10u64 {
        assert!(cache.insert_at(format!("rule-{}", i), create_test_vector(i as usize), 100 + i).is_ok());
    }
    assert!(cache.get_and_mark_at("rule-5", 200).is_some());
    assert!(cache.insert_at("rule-10".to_string(), create_test_vector(10), 300).is_ok());
    assert!(cache.contains("rule-5"));
    assert!(!cache.contains("rule-0"));
    assert_eq!(cache.stats().entries, 10);
    assert!(cache.stats().total_evictions >= 1);
}

// Ties on both times are broken by rule id in byte order.
#[test]
fn eviction_ties_broken_by_rule_id() {
    let mut cache = HotCache::with_capacity(3);
    assert!(cache.insert_at("b".to_string(), create_test_vector(1), 7).is_ok());
    assert!(cache.insert_at("a".to_string(), create_test_vector(2), 7).is_ok());
    assert!(cache.insert_at("c".to_string(), create_test_vector(3), 7).is_ok());
    assert!(cache.insert_at("d".to_string(), create_test_vector(4), 9).is_ok());
    assert!(!cache.contains("a"));
    assert!(cache.contains("b"));
    assert!(cache.contains("c"));
    assert!(cache.contains("d"));
}

// A full cache of capacity 20 drops two entries per eviction.
#[test]
fn eviction_batch_is_a_tenth_rounded_up() {
    let mut cache = HotCache::with_capacity(20);
    for i in 0..20u64 {
        assert!(cache.insert_at(format!("r{}", i), create_test_vector(0), i).is_ok());
    }
    assert!(cache.insert_at("new".to_string(), create_test_vector(0), 50).is_ok());
    let stats = cache.stats();
    assert_eq!(stats.entries, 19);
    assert_eq!(stats.total_evictions, 1);
    assert_eq!(stats.total_evicted, 2);
    assert!(!cache.contains("r0"));
    assert!(!cache.contains("r1"));
    assert!(cache.contains("r2"));
}

#[test]
fn zero_capacity_refuses_new_entries() {
    let mut cache = HotCache::with_capacity(0);
    assert_eq!(
        cache.insert("x".to_string(), create_test_vector(1)),
        Err(BridgeError::Capacity)
    );
    assert_eq!(cache.stats().entries, 0);
}

#[test]
fn entries_never_exceed_capacity() {
    let mut cache = HotCache::with_capacity(7);
    for i in 0..100 {
        assert!(cache.insert(format!("k{}", i), create_test_vector(i)).is_ok());
        assert!(cache.stats().entries <= 7);
    }
}

#[test]
fn snapshot_lists_every_entry() {
    let mut cache = HotCache::with_capacity(10);
    for i in 0..4 {
        assert!(cache.insert(format!("s{}", i), create_test_vector(i)).is_ok());
    }
    let mut snap = cache.snapshot();
    snap.sort_by(|a, b| a.0.cmp(&b.0));
    assert_eq!(snap.len(), 4);
    for (i, (id, v)) in snap.iter().enumerate() {
        assert_eq!(id, &format!("s{}", i));
        assert_eq!(v.action_count, i);
    }
}
