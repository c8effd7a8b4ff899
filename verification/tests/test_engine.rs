use fastloop_guard::engine::{Decision, GuardEngine, InterceptRequest, InterceptResponse};

const SECOND: u64 = 1_000_000_000;

fn request(kind: &str, payload: &str, context: &str, sandbox_id: &str) -> InterceptRequest {
    InterceptRequest {
        kind: kind.to_string(),
        payload: payload.to_string(),
        context: context.to_string(),
        sandbox_id: sandbox_id.to_string(),
    }
}

fn respond(engine: &mut GuardEngine, req: InterceptRequest) -> InterceptResponse {
    let d: Decision = engine.process(&req, 0);
    InterceptResponse::new(d, 0)
}

#[test]
fn valid_python_executes() {
    let mut engine = GuardEngine::with_limits(100, 60 * SECOND, 3);
    let resp = respond(&mut engine, request("python", "x = 1 + 2", "", "test"));
    assert_eq!(resp.action, "EXECUTE_IMMEDIATELY");
}

#[test]
fn invalid_python_routes_to_deep_loop() {
    let mut engine = GuardEngine::with_limits(100, 60 * SECOND, 3);
    let resp = respond(&mut engine, request("python", "os.system('rm -rf /')", "", "test"));
    assert_eq!(resp.action, "ROUTE_TO_DEEP_LOOP");
    assert!(resp.reason.contains("blocked pattern"));
}

#[test]
fn cascading_failures_terminate() {
    let mut engine = GuardEngine::with_limits(100, 60 * SECOND, 3);
    // Use different payloads so known_failure cache doesn't short-circuit
    for i in 0..2 {
        let resp = respond(&mut engine, request("python", &format!("os.system('x{}')", i), "", "s1"));
        assert_eq!(resp.action, "ROUTE_TO_DEEP_LOOP");
    }
    let resp = respond(&mut engine, request("python", "os.system('x_final')", "", "s1"));
    assert_eq!(resp.action, "SANDBOX_TERMINATED");
}

#[test]
fn rate_limited() {
    let mut engine = GuardEngine::with_limits(2, 60 * SECOND, 3);
    for _ in 0..2 {
        let resp = respond(&mut engine, request("json", "{}", "", "limited"));
        assert_eq!(resp.action, "EXECUTE_IMMEDIATELY");
    }
    let resp = respond(&mut engine, request("json", "{}", "", "limited"));
    assert_eq!(resp.action, "ROUTE_TO_DEEP_LOOP");
    assert!(resp.reason.contains("rate limited"));
}

#[test]
fn known_failure_cached() {
    let mut engine = GuardEngine::with_limits(100, 60 * SECOND, 3);
    respond(&mut engine, request("python", "os.system('x')", "ctx", "s1"));
    let resp = respond(&mut engine, request("python", "os.system('x')", "ctx", "s2"));
    assert!(resp.reason.contains("known failure"));
}

#[test]
fn unknown_type_rejected() {
    let mut engine = GuardEngine::new();
    let resp = respond(&mut engine, request("brainfuck", "+++", "", "test"));
    assert_eq!(resp.action, "ROUTE_TO_DEEP_LOOP");
    assert!(resp.reason.contains("unknown type"));
}

#[test]
fn success_resets_failures() {
    let mut engine = GuardEngine::with_limits(100, 60 * SECOND, 3);
    // 2 failures with different payloads
    respond(&mut engine, request("python", "os.system('a')", "", "s1"));
    respond(&mut engine, request("python", "os.system('b')", "", "s1"));
    // Success resets counter
    respond(&mut engine, request("json", "{}", "", "s1"));
    // 3 more failures with new payloads
    for i in 0..2 {
        let resp = respond(&mut engine, request("python", &format!("os.system('c{}')", i), "", "s1"));
        assert_eq!(resp.action, "ROUTE_TO_DEEP_LOOP", "failure {}", i);
    }
    let resp = respond(&mut engine, request("python", "os.system('c_final')", "", "s1"));
    assert_eq!(resp.action, "SANDBOX_TERMINATED");
}

#[test]
fn state_hash_is_sha256_hex_of_payload_then_context() {
    let mut engine = GuardEngine::new();
    let d = engine.process(&request("json", "", "", "h"), 0);
    // SHA-256 of the empty input.
    assert_eq!(
        d.state_hash.as_deref(),
        Some("e3b0c44298fc1c149afbf4c8996fb92427ae41e4649b934ca495991b7852b855")
    );
    // SHA-256 of "abc", split between payload and context.
    let d = engine.process(&request("rust", "ab", "c", "h"), 0);
    assert_eq!(
        d.state_hash.as_deref(),
        Some("ba7816bf8f01cfea414140de5dae2223b00361a396177a9cb410ff61f20015ad")
    );
}

#[test]
fn reasons_are_exact() {
    let mut engine = GuardEngine::new();
    let r = InterceptResponse::new(engine.process(&request("python", "x = 1", "", "a"), 0), 5);
    assert_eq!(r.reason, "validation passed");
    assert_eq!(r.duration_us, 5);
    let r = InterceptResponse::new(engine.process(&request("go", "x", "", "a"), 0), 0);
    assert_eq!(r.reason, "validation failed: unknown type: go");
    let r = InterceptResponse::new(engine.process(&request("python", "a;b", "", "a"), 0), 0);
    assert_eq!(r.reason, "validation failed: blocked pattern in Python code: \";\"");
    let r = InterceptResponse::new(engine.process(&request("python", "a;b", "", "b"), 0), 0);
    assert_eq!(r.reason, "known failure: blocked pattern in Python code: \";\"");
    assert_eq!(r.action, "ROUTE_TO_DEEP_LOOP");
    let d = engine.process(&request("json", "{", "", "c"), 0);
    assert!(d.reason.starts_with("validation failed: invalid JSON: "));
}

#[test]
fn rate_limit_window_slides() {
    let mut engine = GuardEngine::with_limits(1, 10, 3);
    assert!(engine.process(&request("json", "{}", "", "s"), 100).state_hash.is_some());
    assert!(engine.process(&request("json", "{}", "", "s"), 105).state_hash.is_none());
    assert!(engine.process(&request("json", "{}", "", "s"), 111).state_hash.is_some());
    assert_eq!(engine.failures("s"), 0);
}

#[test]
fn hex_is_lower_case_high_nibble_first() {
    assert_eq!(fastloop_guard::engine::to_hex_lower(&[0x0a, 0x14, 0x1e, 0xff]), "0a141eff");
    assert_eq!(fastloop_guard::engine::to_hex_lower(&[]), "");
}

#[test]
fn try_process_serves_ordinary_requests() {
    let mut engine = GuardEngine::with_limits(100, 60 * SECOND, 3);
    let d = engine.try_process(&request("python", "x = 1", "", "s"), 0).unwrap();
    assert_eq!(d.action.as_str(), "EXECUTE_IMMEDIATELY");
    let d = engine.try_process(&request("python", "x;", "", "s"), 0).unwrap();
    assert_eq!(d.action.as_str(), "ROUTE_TO_DEEP_LOOP");
    assert_eq!(engine.failures("s"), 1);
}
