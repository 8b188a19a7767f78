use packagepurge::cache::{LruCache, PackageLruCache};

#[test]
fn test_lru_basic() {
    let mut lru: LruCache<i32> = LruCache::new(2);
    assert!(lru.get("a").is_none());
    assert!(lru.put("a".to_string(), 1).is_none());
    assert_eq!(lru.get("a"), Some(&1));
    assert!(lru.put("b".to_string(), 2).is_none());
    assert_eq!(lru.len(), 2);
    // Access changes MRU; after touching 'a', the LRU entry is 'b'
    lru.get("a");
    let evicted = lru.put("c".to_string(), 3);
    assert!(evicted.is_some());
    let (k, v) = evicted.unwrap();
    assert_eq!(k, "b");
    assert_eq!(v, 2);
}

#[test]
fn lru_eviction_order_oldest_first() {
    // capacity + 1 distinct keys with no intervening get: the first key goes
    let mut lru: LruCache<i32> = LruCache::new(3);
    assert!(lru.put("k1".to_string(), 1).is_none());
    assert!(lru.put("k2".to_string(), 2).is_none());
    assert!(lru.put("k3".to_string(), 3).is_none());
    let evicted = lru.put("k4".to_string(), 4).unwrap();
    assert_eq!(evicted.0, "k1");
    assert_eq!(evicted.1, 1);
    assert_eq!(lru.len(), 3);
}

#[test]
fn lru_len_never_exceeds_capacity() {
    let mut lru: LruCache<u8> = LruCache::new(2);
    for (i, key) in ["p", "q", "r", "s", "p", "t"].iter().enumerate() {
        lru.put(key.to_string(), i as u8);
        assert!(lru.len() <= 2);
    }
}

#[test]
fn lru_overwrite_moves_to_front() {
    let mut lru: LruCache<i32> = LruCache::new(2);
    lru.put("a".to_string(), 1);
    lru.put("b".to_string(), 2);
    // overwrite 'a': it becomes most recently used, so 'b' is evicted next
    assert!(lru.put("a".to_string(), 10).is_none());
    assert_eq!(lru.get("a"), Some(&10));
    let evicted = lru.put("c".to_string(), 3).unwrap();
    assert_eq!(evicted.0, "b");
}

#[test]
fn lru_capacity_zero_bounces() {
    let mut lru: LruCache<i32> = LruCache::new(0);
    let bounced = lru.put("a".to_string(), 1).unwrap();
    assert_eq!(bounced.0, "a");
    assert_eq!(bounced.1, 1);
    assert!(lru.is_empty());
}

#[test]
fn usage_cache_size_ledger() {
    let mut c = PackageLruCache::new(2, 1000);
    c.record_access_at("a@1", 100, 0);
    c.record_access_at("b@1", 200, 1);
    assert_eq!(c.current_size(), 300);
    // a third distinct key evicts the least recently used package (a@1)
    c.record_access_at("c@1", 50, 2);
    assert_eq!(c.current_size(), 250);
    assert_eq!(c.get_package_size("a@1"), None);
    assert_eq!(c.get_package_size("c@1"), Some(50));
}

#[test]
fn usage_cache_budget_eviction() {
    let mut c = PackageLruCache::new(10, 250);
    c.record_access_at("a@1", 100, 0);
    c.record_access_at("b@1", 100, 1);
    // total would reach 300 > 250: the least recently used package goes
    c.record_access_at("c@1", 100, 2);
    assert_eq!(c.current_size(), 200);
    assert!(c.get_metrics("a@1").is_none());
    assert!(!c.is_size_limited());
}

#[test]
fn usage_cache_access_counting() {
    let mut c = PackageLruCache::new(10, 1000);
    c.record_access_at("pkg@1", 10, 100);
    c.record_access_at("pkg@1", 10, 200);
    let m = c.get_metrics("pkg@1").unwrap();
    assert_eq!(m.access_count, 2);
    assert_eq!(m.last_access_time, 200);
    c.record_script_execution_at("pkg@1", 300);
    c.record_build_at("pkg@1", 400);
    let m = c.get_metrics("pkg@1").unwrap();
    assert_eq!(m.script_execution_count, 1);
    assert_eq!(m.last_script_execution, Some(300));
    assert_eq!(m.last_successful_build, Some(400));
}

#[test]
fn usage_cache_keep_rule() {
    let day = 86400;
    let mut c = PackageLruCache::new(10, 1_000_000);
    c.record_access_at("lodash@4.17.21", 100, 100 * day);
    // accessed one day ago with a 90-day threshold: kept
    assert!(c.should_keep_lru_at("lodash@4.17.21", 90, 101 * day));
    // 91 days after the access, all else equal: evicted
    assert!(!c.should_keep_lru_at("lodash@4.17.21", 90, 192 * day));
    // an untracked package is never kept
    assert!(!c.should_keep_lru_at("unknown@0.0.0", 90, 101 * day));
}

#[test]
fn usage_cache_iteration_order() {
    let mut c = PackageLruCache::new(10, 1000);
    c.record_access_at("a@1", 1, 0);
    c.record_access_at("b@1", 1, 1);
    c.record_access_at("c@1", 1, 2);
    let entries = c.iter();
    let keys: Vec<&str> = entries.iter().map(|(k, _)| k.as_str()).collect();
    assert_eq!(keys, ["c@1", "b@1", "a@1"]);
    let lru_first = c.get_lru_packages(2);
    assert_eq!(lru_first, ["a@1".to_string(), "b@1".to_string()]);
}

#[test]
fn usage_cache_pressure_tightens_threshold() {
    let day = 86400;
    let mut c = PackageLruCache::new(10, 1000);
    // 950 of 1000 bytes used: above nine tenths, so size pressure holds
    c.record_access_at("big@1.0.0", 950, 100 * day);
    // 40 days since access: within the base threshold of 90, but the
    // pressure tier holds packages to a third of it (30 days)
    assert!(!c.should_keep_lru_at("big@1.0.0", 90, 140 * day));
    // 20 days is within even the tightened bar
    assert!(c.should_keep_lru_at("big@1.0.0", 90, 120 * day));
}

#[test]
fn usage_cache_outlier_tightens_threshold() {
    let day = 86400;
    let mut c = PackageLruCache::new(10, 1_000_000);
    // 500 of a 520-byte total across three packages: more than twice the
    // mean tracked size, so the outlier tier holds it to half the
    // threshold (45 days)
    c.record_access_at("huge@1.0.0", 500, 100 * day);
    c.record_access_at("tiny@1.0.0", 10, 100 * day);
    c.record_access_at("mini@1.0.0", 10, 100 * day);
    assert!(!c.should_keep_lru_at("huge@1.0.0", 90, 160 * day));
    assert!(c.should_keep_lru_at("huge@1.0.0", 90, 130 * day));
    // an ordinary-sized package keeps the base threshold
    assert!(c.should_keep_lru_at("tiny@1.0.0", 90, 160 * day));
}
