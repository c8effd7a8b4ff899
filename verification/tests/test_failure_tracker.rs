use fastloop_guard::failure_tracker::FailureTracker;

#[test]
fn tracks_failures() {
    let mut tracker = FailureTracker::new(3);
    assert!(!tracker.record_failure("s1", "hash1", "err"));
    assert!(!tracker.record_failure("s1", "hash2", "err"));
    assert!(tracker.record_failure("s1", "hash3", "err")); // 3rd triggers termination
}

#[test]
fn success_resets() {
    let mut tracker = FailureTracker::new(3);
    tracker.record_failure("s1", "h1", "err");
    tracker.record_failure("s1", "h2", "err");
    tracker.record_success("s1");
    // Counter reset — takes 3 more to trigger
    assert!(!tracker.record_failure("s1", "h3", "err"));
    assert!(!tracker.record_failure("s1", "h4", "err"));
    assert!(tracker.record_failure("s1", "h5", "err"));
}

#[test]
fn known_failure_lookup() {
    let mut tracker = FailureTracker::new(3);
    tracker.record_failure("s1", "abc123", "parse error");
    assert_eq!(tracker.is_known_failure("abc123"), Some("parse error".into()));
    assert_eq!(tracker.is_known_failure("unknown"), None);
}

#[test]
fn independent_sandboxes() {
    let mut tracker = FailureTracker::new(2);
    assert!(!tracker.record_failure("a", "h1", "e"));
    assert!(!tracker.record_failure("b", "h2", "e"));
    assert!(tracker.record_failure("a", "h3", "e")); // a hits limit of 2
    assert!(tracker.record_failure("b", "h4", "e")); // b also hits limit of 2
}

#[test]
fn later_error_replaces_earlier() {
    let mut tracker = FailureTracker::new(5);
    tracker.record_failure("s", "h", "first");
    tracker.record_failure("t", "h", "second");
    assert_eq!(tracker.is_known_failure("h"), Some("second".into()));
    assert_eq!(tracker.failures("s"), 1);
    assert_eq!(tracker.failures("t"), 1);
    assert_eq!(tracker.failures("u"), 0);
}

#[test]
fn terminate_keeps_counting() {
    let mut tracker = FailureTracker::new(1);
    assert!(tracker.record_failure("s", "h", "e"));
    assert!(tracker.record_failure("s", "h", "e"));
    assert_eq!(tracker.failures("s"), 2);
    tracker.record_success("s");
    assert_eq!(tracker.failures("s"), 0);
    assert_eq!(tracker.is_known_failure("h"), Some("e".into()));
}
