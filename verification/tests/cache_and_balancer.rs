//! The cache's byte budget and eviction order, and the load balancer's
//! selection rules.

use humphrey::balancer::{LoadBalancer, LoadBalancerMode};
use humphrey::cache::Cache;

#[test]
fn cache_eviction_prefers_oldest() {
    let mut cache = Cache::new(10);
    cache.set("a", vec![0u8; 6], "text/html".to_string());
    cache.set("b", vec![0u8; 5], "text/html".to_string());
    assert!(cache.get("a").is_none());
    let b = cache.get("b");
    assert!(b.is_some());
    assert_eq!(b.unwrap().0.len(), 5);
    assert!(cache.used() <= 10);
}

#[test]
fn cache_refuses_oversized_item() {
    let mut cache = Cache::new(4);
    cache.set("big", vec![0u8; 5], "text/plain".to_string());
    assert!(cache.get("big").is_none());
    assert_eq!(cache.used(), 0);
}

#[test]
fn cache_get_refreshes_recency() {
    let mut cache = Cache::new(10);
    cache.set("a", vec![0u8; 4], "m".to_string());
    cache.set("b", vec![0u8; 4], "m".to_string());
    // Touch "a" so that "b" is now the oldest.
    assert!(cache.get("a").is_some());
    cache.set("c", vec![0u8; 4], "m".to_string());
    assert!(cache.get("b").is_none());
    assert!(cache.get("a").is_some());
    assert!(cache.get("c").is_some());
}

#[test]
fn cache_overwrite_replaces_value() {
    let mut cache = Cache::new(10);
    cache.set("a", vec![1u8, 2u8], "m".to_string());
    cache.set("a", vec![3u8], "n".to_string());
    let got = cache.get("a").unwrap();
    assert_eq!(got.0, vec![3u8]);
    assert_eq!(got.1, "n".to_string());
    assert_eq!(cache.used(), 1);
}

#[test]
fn cache_invalidate_removes_entry() {
    let mut cache = Cache::new(10);
    cache.set("a", vec![1u8, 2u8], "m".to_string());
    cache.invalidate("a");
    assert!(cache.get("a").is_none());
    assert_eq!(cache.used(), 0);
}

#[test]
fn cache_budget_holds_under_random_operations() {
    let mut cache = Cache::new(64);
    let mut seed: u64 = 0x2545F4914F6CDD1D;
    for step in 0..500u64 {
        seed = seed.wrapping_mul(6364136223846793005).wrapping_add(1442695040888963407);
        let key = format!("k{}", seed % 7);
        let size = (seed >> 16) % 40;
        if seed % 3 == 0 {
            let _ = cache.get(&key);
        } else if seed % 3 == 1 {
            cache.set(&key, vec![0u8; size as usize], "m".to_string());
        } else if step % 11 == 0 {
            cache.invalidate(&key);
        } else {
            cache.set(&key, vec![0u8; (size / 2) as usize], "n".to_string());
        }
        assert!(cache.used() <= 64);
    }
}

#[test]
fn round_robin_walks_targets_in_order() {
    let mut lb = LoadBalancer::new(
        vec!["a:1".to_string(), "b:2".to_string()],
        LoadBalancerMode::RoundRobin,
    );
    assert_eq!(lb.select(0), "a:1".to_string());
    assert_eq!(lb.select(0), "b:2".to_string());
    assert_eq!(lb.select(0), "a:1".to_string());
}

#[test]
fn round_robin_cursor_stays_in_range() {
    let mut lb = LoadBalancer::new(
        vec!["a".to_string(), "b".to_string(), "c".to_string()],
        LoadBalancerMode::RoundRobin,
    );
    for _ in 0..100 {
        let _ = lb.select(0);
        assert!(lb.cursor < 3);
    }
}

#[test]
fn round_robin_is_fair_over_whole_turns() {
    let targets: Vec<String> = (0..5).map(|i| format!("t{}", i)).collect();
    let mut lb = LoadBalancer::new(targets.clone(), LoadBalancerMode::RoundRobin);
    let reps = 13;
    let mut counts = vec![0usize; 5];
    for _ in 0..(reps * 5) {
        let picked = lb.select(0);
        let idx = targets.iter().position(|t| *t == picked).unwrap();
        counts[idx] += 1;
    }
    for c in counts {
        assert_eq!(c, reps);
    }
}

#[test]
fn random_mode_picks_by_entropy_and_keeps_cursor() {
    let mut lb = LoadBalancer::new(
        vec!["a".to_string(), "b".to_string(), "c".to_string()],
        LoadBalancerMode::Random,
    );
    assert_eq!(lb.select(0), "a".to_string());
    assert_eq!(lb.select(4), "b".to_string());
    assert_eq!(lb.select(8), "c".to_string());
    assert_eq!(lb.cursor, 0);
}
