use fastloop_guard::gate::Gate;
use fastloop_guard::protocol::{CacheRequest, CacheResponse, Request, Response, StatsRequest, StoreRequest};

#[test]
fn gate_store_then_lookup() {
    let mut gate = Gate::new();
    assert_eq!(gate.lookup("check disk usage", 122, 0), Some((0, None)));
    assert!(gate.insert("check disk usage", "df -h", 0));
    let (g, resp) = gate.lookup("Check Disk Usage", 122, 1).unwrap();
    assert_eq!(g, 1);
    assert_eq!(resp.as_deref(), Some("df -h"));
    match gate.stats() {
        Response::Stats(s) => {
            assert_eq!(s.hits, 1);
            assert_eq!(s.misses, 1);
        }
        _ => panic!("expected stats"),
    }
}

#[test]
fn gate_refuses_unsliceable_query() {
    let mut gate = Gate::with_params(10, 1_000_000_000);
    assert!(!gate.insert("aébc", "x", 0));
    assert_eq!(gate.lookup("aébc", 122, 0), None);
}

#[test]
fn cache_response_marks_hits() {
    let r = CacheResponse::from_lookup(2, Some("x".to_string()), 7);
    assert!(r.hit);
    assert_eq!(r.gate, 2);
    assert_eq!(r.latency_us, 7);
    let r = CacheResponse::from_lookup(0, None, 3);
    assert!(!r.hit);
    assert!(r.response.is_none());
}

#[test]
fn gate_handles_requests() {
    let mut gate = Gate::new();
    let stored = gate.handle(
        Request::Store(StoreRequest { query: "check disk usage".to_string(), response: "df -h".to_string() }),
        || 0u64,
    );
    assert!(matches!(stored, Some(Response::Store(s)) if s.stored));
    let hit = gate.handle(
        Request::Lookup(CacheRequest { query: "check disk usage".to_string(), min_matches: 122 }),
        || 5_000u64,
    );
    match hit {
        Some(Response::Cache(c)) => {
            assert!(c.hit);
            assert_eq!(c.gate, 1);
            assert_eq!(c.response.as_deref(), Some("df -h"));
            assert_eq!(c.latency_us, 0);
        }
        _ => panic!("expected a cache response"),
    }
    let miss = gate.handle(
        Request::Lookup(CacheRequest { query: "something completely different".to_string(), min_matches: 122 }),
        || 0u64,
    );
    assert!(matches!(miss, Some(Response::Cache(c)) if !c.hit && c.gate == 0));
    match gate.handle(Request::Stats(StatsRequest { stats: true }), || 0u64) {
        Some(Response::Stats(s)) => {
            assert_eq!(s.hits, 1);
            assert_eq!(s.misses, 1);
        }
        _ => panic!("expected stats"),
    }
    let refused = gate.handle(
        Request::Store(StoreRequest { query: "aébc".to_string(), response: "x".to_string() }),
        || 0u64,
    );
    assert!(refused.is_none());
}

#[test]
fn gate_counts_every_lookup_once() {
    let mut gate = Gate::with_params(10, 1_000);
    gate.insert("a", "ra", 0);
    gate.lookup("a", 200, 0); // hit
    gate.lookup("b", 200, 0); // miss
    gate.lookup("a", 200, 5_000); // stale: miss
    gate.insert("c", "rc", 0);
    match gate.stats() {
        Response::Stats(s) => {
            assert_eq!(s.hits, 1);
            assert_eq!(s.misses, 2);
        }
        _ => panic!("expected stats"),
    }
}
