use fastloop_guard::rate_limiter::SlidingWindowLimiter;

const SECOND: u64 = 1_000_000_000;
const MILLI: u64 = 1_000_000;

#[test]
fn allows_up_to_limit() {
    let mut limiter = SlidingWindowLimiter::new(3, 60 * SECOND);
    assert!(!limiter.check("sandbox-1", 0));
    assert!(!limiter.check("sandbox-1", 0));
    assert!(!limiter.check("sandbox-1", 0));
    assert!(limiter.check("sandbox-1", 0)); // 4th is blocked
}

#[test]
fn different_sandboxes_independent() {
    let mut limiter = SlidingWindowLimiter::new(2, 60 * SECOND);
    assert!(!limiter.check("a", 0));
    assert!(!limiter.check("a", 0));
    assert!(!limiter.check("b", 0)); // different sandbox, allowed
    assert!(limiter.check("a", 0)); // a is over limit
}

#[test]
fn window_expiry() {
    let mut limiter = SlidingWindowLimiter::new(1, 50 * MILLI);
    assert!(!limiter.check("x", 0));
    assert!(limiter.check("x", 0));
    assert!(!limiter.check("x", 60 * MILLI)); // window expired, allowed again
}

#[test]
fn window_boundary_is_exclusive() {
    let mut limiter = SlidingWindowLimiter::new(1, 50);
    assert!(!limiter.check("x", 100));
    assert!(limiter.check("x", 149)); // 100 > 149 - 50: still inside
    assert!(!limiter.check("x", 150)); // 100 is not later than 150 - 50
}

#[test]
fn zero_limit_blocks_everything() {
    let mut limiter = SlidingWindowLimiter::new(0, 50);
    assert!(limiter.check("x", 0));
    assert!(limiter.check("x", 1000));
}

#[test]
fn limited_requests_are_not_recorded() {
    let mut limiter = SlidingWindowLimiter::new(1, 100);
    assert!(!limiter.check("x", 0));
    assert!(limiter.check("x", 50)); // not recorded
    assert!(!limiter.check("x", 100)); // only the request at 0 counted, and it left the window
}
