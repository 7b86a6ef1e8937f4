use adabt_engine::caches::{AccessDecision, CacheStats, PlanCache, PlanDecision, ResultCache, Rows};
use adabt_engine::record::Record;
use adabt_engine::value::Value;

fn plan(_name: &str) -> PlanDecision {
    PlanDecision { access: AccessDecision::FullScan, rationale: "test".into() }
}

fn rows(n: u64) -> Rows {
    (0..n).map(|i| (i, Record::new().with("i", Value::I64(i as i64)))).collect()
}

#[test]
fn a_plan_cache_hit_returns_the_stored_plan() {
    let mut c = PlanCache::new(4);
    assert!(c.get(1).is_none());
    c.insert(1, plan("users"));
    assert!(c.get(1).is_some());
    assert_eq!(c.stats().hits, 1);
    assert_eq!(c.stats().misses, 1);
}

#[test]
fn a_zero_capacity_cache_is_disabled_not_broken() {
    let mut c = PlanCache::new(0);
    c.insert(1, plan("users"));
    assert!(c.get(1).is_none());
    assert!(c.is_empty());
    assert_eq!(c.stats().hits, 0);
}

#[test]
fn a_plan_cache_evicts_when_full() {
    let mut c = PlanCache::new(2);
    for i in 1..=5 {
        c.insert(i, plan("users"));
    }
    assert_eq!(c.len(), 2);
    assert!(c.stats().evictions >= 3);
}

#[test]
fn shrinking_a_plan_cache_evicts_down_immediately() {
    let mut c = PlanCache::new(10);
    for i in 1..=10 {
        c.insert(i, plan("users"));
    }
    c.set_capacity(3);
    assert_eq!(c.len(), 3);
}

#[test]
fn clearing_a_plan_cache_is_recorded() {
    let mut c = PlanCache::new(4);
    c.insert(1, plan("users"));
    c.clear();
    assert!(c.is_empty());
    assert_eq!(c.stats().invalidations, 1);
}

#[test]
fn a_result_cache_hit_requires_a_matching_epoch() {
    let mut c = ResultCache::new(4);
    c.insert(1, "users", 7, rows(3));
    assert_eq!(c.get(1, 7).map(|r| r.len()), Some(3));
    // A write bumped the epoch: the entry must not be served.
    assert!(c.get(1, 8).is_none());
    assert!(c.stats().invalidations > 0);
}

#[test]
fn a_stale_entry_is_dropped_rather_than_rechecked() {
    let mut c = ResultCache::new(4);
    c.insert(1, "users", 1, rows(3));
    assert!(c.get(1, 2).is_none());
    assert!(c.is_empty(), "a stale entry was left in place");
}

#[test]
fn invalidating_one_collection_leaves_the_others_alone() {
    let mut c = ResultCache::new(8);
    c.insert(1, "users", 1, rows(2));
    c.insert(2, "orders", 1, rows(2));
    c.invalidate_collection("users");
    assert!(c.get(1, 1).is_none());
    assert!(c.get(2, 1).is_some());
}

#[test]
fn result_cache_memory_grows_with_content() {
    let mut c = ResultCache::new(64);
    let empty = c.memory_bytes();
    c.insert(1, "users", 1, rows(500));
    assert!(c.memory_bytes() > empty + 1000);
    c.clear();
    assert_eq!(c.memory_bytes(), 0);
}

#[test]
fn hit_rate_is_none_before_any_probe() {
    assert_eq!(CacheStats::default().hit_rate(), None);
    let mut c = PlanCache::new(2);
    c.insert(1, plan("u"));
    c.get(1);
    let rate = c.stats().hit_rate().map(|(hits, probes)| hits as f64 / probes as f64);
    assert_eq!(rate, Some(1.0));
}

#[test]
fn the_oldest_entry_goes_first() {
    let mut c = PlanCache::new(2);
    c.insert(1, plan("a"));
    c.insert(2, plan("b"));
    c.insert(3, plan("c"));
    assert!(c.get(1).is_none());
    assert!(c.get(2).is_some());
    assert!(c.get(3).is_some());
    assert_eq!(c.stats().evictions, 1);
}

#[test]
fn a_kept_result_costs_its_names_and_its_rows() {
    let mut c = ResultCache::new(4);
    c.insert(1, "users", 1, rows(3));
    // "users", and for each row one field of one letter.
    assert_eq!(c.memory_bytes(), 5 + 3 * (1 + 48 + 32));
}
