use fastloop_guard::cache::QueryCache;
use fastloop_guard::similarity::NUM_PERM;

const SECOND: u64 = 1_000_000_000;
const MILLI: u64 = 1_000_000;

/// The least number of agreeing slots for a similarity of at least `threshold`.
fn min_matches(threshold: f64) -> u32 {
    (threshold * NUM_PERM as f64).ceil() as u32
}

#[test]
fn exact_hit() {
    let mut cache = QueryCache::new(100, 3600 * SECOND);
    cache.insert("check disk usage", "df -h", 0);
    let (gate, resp) = cache.lookup("check disk usage", min_matches(0.95), 0);
    assert_eq!(gate, 1);
    assert_eq!(resp.unwrap(), "df -h");
}

#[test]
fn miss_then_insert() {
    let mut cache = QueryCache::new(100, 3600 * SECOND);
    let (gate, resp) = cache.lookup("hello", min_matches(0.95), 0);
    assert_eq!(gate, 0);
    assert!(resp.is_none());
    cache.insert("hello", "world", 0);
    let (gate, resp) = cache.lookup("hello", min_matches(0.95), 0);
    assert_eq!(gate, 1);
    assert_eq!(resp.unwrap(), "world");
}

#[test]
fn expired_entry_is_miss() {
    let mut cache = QueryCache::new(100, 10 * MILLI);
    cache.insert("old query", "old response", 0);
    let (gate, _) = cache.lookup("old query", min_matches(0.95), 20 * MILLI);
    assert_eq!(gate, 0); // expired → miss
}

#[test]
fn stats_track() {
    let mut cache = QueryCache::new(100, 3600 * SECOND);
    cache.insert("q1", "r1", 0);
    cache.lookup("q1", min_matches(0.95), 0); // hit
    cache.lookup("q2", min_matches(0.95), 0); // miss
    let (hits, misses) = cache.stats();
    let rate = hits as f64 / (hits + misses) as f64;
    assert_eq!(hits, 1);
    assert_eq!(misses, 1);
    assert!((rate - 0.5).abs() < 0.01);
}

#[test]
fn lru_eviction() {
    let mut cache = QueryCache::new(2, 3600 * SECOND);
    cache.insert("a", "ra", 0);
    cache.insert("b", "rb", 0);
    cache.insert("c", "rc", 0); // should evict "a"
    let (gate, _) = cache.lookup("a", min_matches(0.95), 0);
    assert_eq!(gate, 0); // evicted → miss
    let (gate, _) = cache.lookup("c", min_matches(0.95), 0);
    assert_eq!(gate, 1); // still present
}

#[test]
fn case_insensitive_exact() {
    let mut cache = QueryCache::new(100, 3600 * SECOND);
    cache.insert("Check Disk", "df -h", 0);
    let (gate, resp) = cache.lookup("check disk", min_matches(0.95), 0);
    assert_eq!(gate, 1);
    assert_eq!(resp.unwrap(), "df -h");
}

#[test]
fn full_three_gate_flow() {
    let mut cache = QueryCache::new(100, 3600 * SECOND);

    // Miss
    let (gate, resp) = cache.lookup("check disk usage", min_matches(0.95), 0);
    assert_eq!(gate, 0);
    assert!(resp.is_none());

    // Insert
    cache.insert("check disk usage", "df -h", 0);

    // Exact hit (gate 1)
    let (gate, resp) = cache.lookup("check disk usage", min_matches(0.95), 0);
    assert_eq!(gate, 1);
    assert_eq!(resp.unwrap(), "df -h");

    // Case-insensitive exact hit
    let (gate, resp) = cache.lookup("Check Disk Usage", min_matches(0.95), 0);
    assert_eq!(gate, 1);
    assert_eq!(resp.unwrap(), "df -h");
}

#[test]
fn fuzzy_match_gate_2() {
    let mut cache = QueryCache::new(100, 3600 * SECOND);
    cache.insert("check disk usage on the server", "df -h", 0);

    // Different wording but similar meaning — should fuzzy match at low threshold
    let (gate, _resp) = cache.lookup("check the disk usage on the server", min_matches(0.5), 0);
    assert!(gate > 0, "expected a hit (gate 1 or 2), got gate {}", gate);
}

#[test]
fn stats_accuracy() {
    let mut cache = QueryCache::new(100, 3600 * SECOND);
    cache.insert("q1", "r1", 0);

    cache.lookup("q1", min_matches(0.95), 0); // exact hit
    cache.lookup("q2", min_matches(0.95), 0); // miss

    let (hits, misses) = cache.stats();
    let rate = hits as f64 / (hits + misses) as f64;
    assert_eq!(hits, 1);
    assert_eq!(misses, 1);
    assert!((rate - 0.5).abs() < 0.01);
}

#[test]
fn fuzzy_answer_is_gate_two() {
    let mut cache = QueryCache::new(100, 3600 * SECOND);
    cache.insert("check disk usage on the server", "df -h", 0);
    let (gate, resp) = cache.lookup("check disk usage on server", min_matches(0.5), 0);
    assert_eq!(gate, 2);
    assert_eq!(resp.unwrap(), "df -h");
    // A threshold above one can never be met.
    let (gate, resp) = cache.lookup("check disk usage on server", NUM_PERM as u32 + 1, 0);
    assert_eq!(gate, 0);
    assert!(resp.is_none());
}

#[test]
fn stale_entry_is_not_a_fuzzy_answer() {
    let mut cache = QueryCache::new(100, 10 * MILLI);
    cache.insert("check disk usage on the server", "df -h", 0);
    let (gate, _) = cache.lookup("check disk usage on server", 0, 10 * MILLI);
    assert_eq!(gate, 0);
}

#[test]
fn entry_lives_until_ttl() {
    let mut cache = QueryCache::new(100, 10 * MILLI);
    cache.insert("q", "r", 5 * MILLI);
    // A clock that runs behind the insert counts as no time passed.
    assert_eq!(cache.lookup("q", 200, 0).0, 1);
    assert_eq!(cache.lookup("q", 200, 15 * MILLI - 1).0, 1);
    assert_eq!(cache.lookup("q", 200, 15 * MILLI).0, 0);
}

#[test]
fn reinsert_replaces_response() {
    let mut cache = QueryCache::new(100, 3600 * SECOND);
    cache.insert("q", "first", 0);
    cache.insert("Q", "second", 0);
    let (gate, resp) = cache.lookup("q", 200, 0);
    assert_eq!(gate, 1);
    assert_eq!(resp.unwrap(), "second");
}

#[test]
fn lookup_refreshes_recency() {
    let mut cache = QueryCache::new(2, 3600 * SECOND);
    cache.insert("a", "ra", 0);
    cache.insert("b", "rb", 0);
    assert_eq!(cache.lookup("a", 200, 0).0, 1); // "a" becomes most recent
    cache.insert("c", "rc", 0); // evicts "b"
    assert_eq!(cache.lookup("a", 200, 0).0, 1);
    assert_eq!(cache.lookup("b", 200, 0).0, 0);
}

#[test]
fn zero_capacity_means_default() {
    let mut cache = QueryCache::new(0, 3600 * SECOND);
    for i in 0..1024u32 {
        cache.insert(&format!("query {}", i), "r", 0);
    }
    assert_eq!(cache.lookup("query 0", 200, 0).0, 1);
    cache.insert("one more", "r", 0);
    assert_eq!(cache.lookup("query 1", 200, 0).0, 0);
}

#[test]
fn exact_freshness_probe() {
    let mut cache = QueryCache::new(10, 10 * MILLI);
    assert!(!cache.has_fresh_exact("q", 0));
    cache.insert("q", "r", 0);
    assert!(cache.has_fresh_exact("  Q ", MILLI));
    assert!(!cache.has_fresh_exact("q", 10 * MILLI));
}

#[test]
fn would_answer_leaves_cache_alone() {
    let mut cache = QueryCache::new(10, 3600 * SECOND);
    cache.insert("check disk usage on the server", "df -h", 0);
    assert!(cache.would_answer("check disk usage on the server", 200, 0));
    assert!(cache.would_answer("check disk usage on server", 64, 0));
    assert!(!cache.would_answer("deploy kubernetes", 64, 0));
    assert_eq!(cache.stats(), (0, 0));
}
