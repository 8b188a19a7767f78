use packagepurge::arc_lfu::{SimpleLfu, SlruPolicy};

#[test]
fn lfu_low_frequency_loses() {
    let mut lfu = SimpleLfu::new();
    lfu.increment("a");
    lfu.increment("a");
    lfu.increment("a");
    lfu.increment("b");
    // b has the lowest frequency, so it loses before a
    assert_eq!(lfu.victim(), Some("b".to_string()));
    assert_eq!(lfu.victim(), Some("a".to_string()));
    assert_eq!(lfu.victim(), None);
}

#[test]
fn lfu_tie_break_oldest_in_bucket() {
    let mut lfu = SimpleLfu::new();
    lfu.increment("x");
    lfu.increment("y");
    // equal frequency: the key that entered the bucket first loses first
    assert_eq!(lfu.victim(), Some("x".to_string()));
    assert_eq!(lfu.victim(), Some("y".to_string()));
}

#[test]
fn slru_promotion_and_victim_order() {
    // capacity 10: probationary holds 2, protected 8
    let mut p = SlruPolicy::new(10);
    p.record_hit("a");
    p.record_hit("b");
    // a second hit promotes a to the protected segment
    p.record_hit("a");
    // victims come from the probationary tail first
    assert_eq!(p.select_victim(), Some("b".to_string()));
    assert_eq!(p.select_victim(), Some("a".to_string()));
    assert_eq!(p.select_victim(), None);
}

#[test]
fn slru_probationary_overflow_drops_tail() {
    let mut p = SlruPolicy::new(10);
    p.record_hit("a");
    p.record_hit("b");
    // the probationary segment holds 2: admitting c drops a
    p.record_hit("c");
    assert_eq!(p.select_victim(), Some("b".to_string()));
    assert_eq!(p.select_victim(), Some("c".to_string()));
    assert_eq!(p.select_victim(), None);
}

#[test]
fn slru_protected_refresh() {
    let mut p = SlruPolicy::new(10);
    p.record_hit("a");
    p.record_hit("b");
    p.record_hit("a");
    p.record_hit("b");
    // both promoted; protected order is b (fresh) then a
    assert_eq!(p.select_victim(), Some("a".to_string()));
    assert_eq!(p.select_victim(), Some("b".to_string()));
}
