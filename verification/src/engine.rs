use vstd::prelude::*;
use vstd::string::StringExecFns;
use vstd::utf8::encode_utf8;
use sha2::{Digest, Sha256};
use crate::cache::opt_view;
use crate::failure_tracker::{failure_post, prior_failures, success_post, FailureTracker};
use crate::rate_limiter::{check_post, recent, SlidingWindowLimiter};
use crate::text::push_char;
use crate::validator::{
    json_verdict, lemma_python_verdict, lemma_rust_verdict, python_allowed, python_patterns,
    rust_allowed, rust_patterns, serde_json_parse, syntax_verdict, validate_json, validate_python,
    validate_rust, result_view,
};

verus! {

/// A request to run a payload in a sandbox.
pub struct InterceptRequest {
    /// The payload's language: `python`, `json` or `rust`.
    pub kind: String,
    pub payload: String,
    pub context: String,
    pub sandbox_id: String,
}

/// What to do with a request.
pub enum Action {
    ExecuteImmediately,
    RouteToDeepLoop,
    SandboxTerminated,
}

impl Action {
    /// The action's name on the wire.
    pub fn as_str(&self) -> (r: &'static str)
        ensures
            r@ == action_name(*self),
    {
        match self {
            Action::ExecuteImmediately => "EXECUTE_IMMEDIATELY",
            Action::RouteToDeepLoop => "ROUTE_TO_DEEP_LOOP",
            Action::SandboxTerminated => "SANDBOX_TERMINATED",
        }
    }
}

/// The wire name of an action.
pub open spec fn action_name(a: Action) -> Seq<char> {
    match a {
        Action::ExecuteImmediately => "EXECUTE_IMMEDIATELY"@,
        Action::RouteToDeepLoop => "ROUTE_TO_DEEP_LOOP"@,
        Action::SandboxTerminated => "SANDBOX_TERMINATED"@,
    }
}

/// The engine's decision on a request.
pub struct Decision {
    pub action: Action,
    pub reason: String,
    pub state_hash: Option<String>,
}

/// The response to a request: the decision and the time it took.
pub struct InterceptResponse {
    pub action: String,
    pub reason: String,
    pub state_hash: Option<String>,
    pub duration_us: u64,
}

impl InterceptResponse {
    /// The response that reports `decision`, reached in `duration_us` microseconds.
    pub fn new(decision: Decision, duration_us: u64) -> (r: InterceptResponse)
        ensures
            r.action@ == action_name(decision.action),
            r.reason == decision.reason,
            r.state_hash == decision.state_hash,
            r.duration_us == duration_us,
    {
        InterceptResponse {
            action: decision.action.as_str().to_owned(),
            reason: decision.reason,
            state_hash: decision.state_hash,
            duration_us,
        }
    }
}

/// What SHA-256 returns for these input bytes.
pub uninterp spec fn sha256(data: Seq<u8>) -> Seq<u8>;

/// Calls `Digest::digest` of `sha2::Sha256`. The contract names the digest and
/// states its length, 32 bytes, which the type's output size fixes.
#[verifier::external_body]
fn sha256_digest(data: &[u8]) -> (r: Vec<u8>)
    ensures
        r@ == sha256(data@),
        r@.len() == 32,
{
    Sha256::digest(data).to_vec()
}

/// The lower-case hexadecimal digit of `n < 16`.
pub open spec fn hex_digit(n: int) -> char {
    if n < 10 {
        (48 + n) as char
    } else {
        (87 + n) as char
    }
}

/// Lower-case hexadecimal, two digits per byte, high nibble first.
pub open spec fn hex_lower(bytes: Seq<u8>) -> Seq<char>
    decreases bytes.len(),
{
    if bytes.len() == 0 {
        Seq::empty()
    } else {
        hex_lower(bytes.drop_last()).push(hex_digit(bytes.last() as int / 16)).push(hex_digit(bytes.last() as int % 16))
    }
}

proof fn lemma_hex_shape(a: Seq<u8>)
    ensures
        hex_lower(a).len() == 2 * a.len(),
        forall|k: int|
            0 <= k < hex_lower(a).len() ==> ('0' <= #[trigger] hex_lower(a)[k] <= '9' || 'a' <= hex_lower(a)[k]
                <= 'f'),
    decreases a.len(),
{
    if a.len() > 0 {
        lemma_hex_shape(a.drop_last());
        let x = a.last() as int;
        lemma_hex_digit_injective(x / 16, x / 16);
        lemma_hex_digit_injective(x % 16, x % 16);
        assert forall|k: int| 0 <= k < hex_lower(a).len() implies ('0' <= #[trigger] hex_lower(a)[k] <= '9' || 'a'
            <= hex_lower(a)[k] <= 'f') by {
            if k < 2 * a.len() - 2 {
                assert(hex_lower(a)[k] == hex_lower(a.drop_last())[k]);
            }
        }
    }
}

/// Hexadecimal output is lower case, two digits for each byte, and tells
/// different byte strings apart.
pub proof fn lemma_hex_lower(a: Seq<u8>, b: Seq<u8>)
    ensures
        hex_lower(a).len() == 2 * a.len(),
        forall|k: int|
            0 <= k < hex_lower(a).len() ==> ('0' <= #[trigger] hex_lower(a)[k] <= '9' || 'a' <= hex_lower(a)[k]
                <= 'f'),
        hex_lower(a) == hex_lower(b) ==> a == b,
    decreases a.len(),
{
    lemma_hex_shape(a);
    lemma_hex_shape(b);
    if hex_lower(a) == hex_lower(b) && a.len() > 0 {
        lemma_hex_lower(a.drop_last(), b.drop_last());
        let x = a.last() as int;
        let y = b.last() as int;
        assert(hex_lower(a.drop_last()) =~= hex_lower(a).take(2 * a.len() - 2));
        assert(hex_lower(b.drop_last()) =~= hex_lower(b).take(2 * b.len() - 2));
        assert(hex_lower(a)[2 * a.len() - 2] == hex_digit(x / 16));
        assert(hex_lower(a)[2 * a.len() - 1] == hex_digit(x % 16));
        assert(hex_lower(b)[2 * b.len() - 2] == hex_digit(y / 16));
        assert(hex_lower(b)[2 * b.len() - 1] == hex_digit(y % 16));
        lemma_hex_digit_injective(x / 16, y / 16);
        lemma_hex_digit_injective(x % 16, y % 16);
        assert(x == y);
        assert(a =~= a.drop_last().push(a.last()));
        assert(b =~= b.drop_last().push(b.last()));
    }
}

proof fn lemma_hex_digit_injective(m: int, n: int)
    requires
        0 <= m < 16,
        0 <= n < 16,
    ensures
        hex_digit(m) == hex_digit(n) ==> m == n,
        '0' <= hex_digit(m) <= '9' || 'a' <= hex_digit(m) <= 'f',
{
}

fn hex_char(n: u8) -> (c: char)
    requires
        n < 16,
    ensures
        c == hex_digit(n as int),
{
    if n < 10 {
        (48 + n) as char
    } else {
        (87 + n) as char
    }
}

/// The state hash of a request: the SHA-256 of its payload's bytes followed
/// by its context's bytes, in lower-case hexadecimal.
pub open spec fn state_hash_of(payload: Seq<char>, context: Seq<char>) -> Seq<char> {
    hex_lower(sha256(encode_utf8(payload) + encode_utf8(context)))
}

fn append_bytes(v: &mut Vec<u8>, bytes: &[u8])
    ensures
        final(v)@ == old(v)@ + bytes@,
{
    let mut i: usize = 0;
    while i < bytes.len()
        invariant
            i <= bytes@.len(),
            v@ == old(v)@ + bytes@.take(i as int),
        decreases bytes@.len() - i,
    {
        v.push(bytes[i]);
        assert(old(v)@ + bytes@.take(i + 1) =~= old(v)@ + bytes@.take(i as int) + seq![bytes@[i as int]]);
        i = i + 1;
    }
    assert(bytes@.take(i as int) =~= bytes@);
}

fn hash_state(payload: &str, context: &str) -> (h: String)
    ensures
        h@ == state_hash_of(payload@, context@),
{
    let mut data: Vec<u8> = Vec::new();
    append_bytes(&mut data, payload.as_bytes());
    append_bytes(&mut data, context.as_bytes());
    let digest = sha256_digest(data.as_slice());
    to_hex_lower(digest.as_slice())
}

/// Lower-case hexadecimal of `bytes`, as `{:x}` prints a digest.
pub fn to_hex_lower(bytes: &[u8]) -> (h: String)
    ensures
        h@ == hex_lower(bytes@),
{
    let mut out = String::new();
    let mut i: usize = 0;
    while i < bytes.len()
        invariant
            i <= bytes@.len(),
            out@ == hex_lower(bytes@.take(i as int)),
        decreases bytes@.len() - i,
    {
        assert(bytes@.take(i + 1).drop_last() =~= bytes@.take(i as int));
        let b = bytes[i];
        push_char(&mut out, hex_char(b / 16));
        push_char(&mut out, hex_char(b % 16));
        i = i + 1;
    }
    assert(bytes@.take(i as int) =~= bytes@);
    out
}

/// The validation outcome for a payload of language `kind`.
pub open spec fn validation_of(kind: Seq<char>, payload: Seq<char>) -> Result<(), Seq<char>> {
    if kind == "python"@ {
        syntax_verdict(payload, python_patterns(), "Python"@)
    } else if kind == "json"@ {
        json_verdict(serde_json_parse(payload))
    } else if kind == "rust"@ {
        syntax_verdict(payload, rust_patterns(), "Rust"@)
    } else {
        Err("unknown type: "@ + kind)
    }
}

fn same_text(a: &str, b: &str) -> (r: bool)
    ensures
        r == (a@ == b@),
{
    a.to_owned() == b.to_owned()
}

fn validate(kind: &str, payload: &str) -> (r: Result<(), String>)
    ensures
        result_view(r) == validation_of(kind@, payload@),
{
    if same_text(kind, "python") {
        validate_python(payload)
    } else if same_text(kind, "json") {
        validate_json(payload)
    } else if same_text(kind, "rust") {
        validate_rust(payload)
    } else {
        let mut msg = "unknown type: ".to_owned();
        msg.append(kind);
        Err(msg)
    }
}

/// The guard engine: a rate limiter and a failure tracker in front of the
/// validators.
pub struct GuardEngine {
    limiter: SlidingWindowLimiter,
    tracker: FailureTracker,
}

/// Default number of requests a sandbox may make per window.
pub const DEFAULT_MAX_REQUESTS: usize = 100;

/// Default window: one minute, in nanoseconds.
pub const DEFAULT_WINDOW: u64 = 60_000_000_000;

/// Default number of consecutive failures that terminates a sandbox.
pub const DEFAULT_MAX_FAILURES: u32 = 3;

/// What processing `req` at time `now` does to engine `old`, giving engine
/// `new` and decision `d`.
/// 1. A rate-limited request is routed to the deep loop.
/// 2. Otherwise a request whose state hash is a known failure is routed to the
///    deep loop with the recorded error.
/// 3. Otherwise the payload is validated: a pass executes immediately and
///    resets the sandbox's failures; a failure is recorded, and routes to the
///    deep loop or, at the maximum of consecutive failures, terminates the
///    sandbox.
pub open spec fn process_post(old: GuardEngine, new: GuardEngine, req: InterceptRequest, now: u64, d: Decision) -> bool {
    let id = req.sandbox_id@;
    let limited = recent(old.limiter().history(id), now, old.limiter().window_duration()).len()
        >= old.limiter().max_requests();
    let h = state_hash_of(req.payload@, req.context@);
    &&& check_post(old.limiter(), new.limiter(), id, now, limited)
    &&& if limited {
        &&& d.action == Action::RouteToDeepLoop
        &&& d.reason@ == "rate limited"@
        &&& d.state_hash is None
        &&& new.tracker() == old.tracker()
    } else {
        &&& opt_view(d.state_hash) == Some(h)
        &&& if old.tracker().known().contains_key(h) {
            &&& d.action == Action::RouteToDeepLoop
            &&& d.reason@ == "known failure: "@ + old.tracker().known()[h]
            &&& new.tracker() == old.tracker()
        } else {
            match validation_of(req.kind@, req.payload@) {
                Ok(()) => {
                    &&& d.action == Action::ExecuteImmediately
                    &&& d.reason@ == "validation passed"@
                    &&& success_post(old.tracker(), new.tracker(), id)
                },
                Err(e) => {
                    let terminated = prior_failures(old.tracker().counts(), id) + 1
                        >= old.tracker().max_failures();
                    &&& d.action == if terminated {
                        Action::SandboxTerminated
                    } else {
                        Action::RouteToDeepLoop
                    }
                    &&& d.reason@ == "validation failed: "@ + e
                    &&& failure_post(old.tracker(), new.tracker(), id, h, e, terminated)
                },
            }
        }
    }
}

/// Processing `req` at time `now` records a failure: it is not rate limited,
/// its state is not a known failure, and its payload fails validation.
pub open spec fn records_failure(e: GuardEngine, req: InterceptRequest, now: u64) -> bool {
    &&& recent(e.limiter().history(req.sandbox_id@), now, e.limiter().window_duration()).len()
        < e.limiter().max_requests()
    &&& !e.tracker().known().contains_key(state_hash_of(req.payload@, req.context@))
    &&& validation_of(req.kind@, req.payload@) is Err
}

impl GuardEngine {
    pub closed spec fn limiter(self) -> SlidingWindowLimiter {
        self.limiter
    }

    pub closed spec fn tracker(self) -> FailureTracker {
        self.tracker
    }

    pub open spec fn wf(self) -> bool {
        self.limiter().wf() && self.tracker().wf()
    }

    /// An engine with the default limits: 100 requests a minute, 3 failures.
    pub fn new() -> (e: Self)
        ensures
            e.wf(),
            e.limiter().windows() == Map::<Seq<char>, Seq<u64>>::empty(),
            e.limiter().max_requests() == DEFAULT_MAX_REQUESTS,
            e.limiter().window_duration() == DEFAULT_WINDOW,
            e.tracker().counts() == Map::<Seq<char>, u32>::empty(),
            e.tracker().known() == Map::<Seq<char>, Seq<char>>::empty(),
            e.tracker().max_failures() == DEFAULT_MAX_FAILURES,
    {
        GuardEngine {
            limiter: SlidingWindowLimiter::new(DEFAULT_MAX_REQUESTS, DEFAULT_WINDOW),
            tracker: FailureTracker::new(DEFAULT_MAX_FAILURES),
        }
    }

    /// An engine with the given limits; `window` is in nanoseconds.
    pub fn with_limits(max_requests: usize, window: u64, max_failures: u32) -> (e: Self)
        ensures
            e.wf(),
            e.limiter().windows() == Map::<Seq<char>, Seq<u64>>::empty(),
            e.limiter().max_requests() == max_requests,
            e.limiter().window_duration() == window,
            e.tracker().counts() == Map::<Seq<char>, u32>::empty(),
            e.tracker().known() == Map::<Seq<char>, Seq<char>>::empty(),
            e.tracker().max_failures() == max_failures,
    {
        GuardEngine {
            limiter: SlidingWindowLimiter::new(max_requests, window),
            tracker: FailureTracker::new(max_failures),
        }
    }

    /// Consecutive failures recorded for a sandbox.
    pub fn failures(&self, sandbox_id: &str) -> (n: u32)
        requires
            self.wf(),
        ensures
            n == prior_failures(self.tracker().counts(), sandbox_id@),
    {
        self.tracker.failures(sandbox_id)
    }

    /// Like `process`, but `None`, with nothing changed, when the request
    /// would record a failure for a sandbox whose count of consecutive
    /// failures is already at its maximum.
    pub fn try_process(&mut self, req: &InterceptRequest, now: u64) -> (d: Option<Decision>)
        requires
            old(self).wf(),
        ensures
            final(self).wf(),
            d is None == (records_failure(*old(self), *req, now) && prior_failures(
                old(self).tracker().counts(),
                req.sandbox_id@,
            ) == u32::MAX),
            d is None ==> *final(self) == *old(self),
            d matches Some(x) ==> process_post(*old(self), *final(self), *req, now, x),
    {
        if self.tracker.failures(req.sandbox_id.as_str()) == u32::MAX {
            let limited = self.limiter.would_limit(req.sandbox_id.as_str(), now);
            if !limited {
                let state_hash = hash_state(req.payload.as_str(), req.context.as_str());
                let known = self.tracker.is_known_failure(state_hash.as_str());
                if known.is_none() && validate(req.kind.as_str(), req.payload.as_str()).is_err() {
                    return None;
                }
            }
        }
        Some(self.process(req, now))
    }

    /// Decide what to do with a request arriving at time `now` (nanoseconds on
    /// the caller's clock); see `process_post`.
    pub fn process(&mut self, req: &InterceptRequest, now: u64) -> (d: Decision)
        requires
            old(self).wf(),
            records_failure(*old(self), *req, now) ==> prior_failures(old(self).tracker().counts(), req.sandbox_id@)
                < u32::MAX,
        ensures
            final(self).wf(),
            process_post(*old(self), *final(self), *req, now, d),
    {
        // 1. Rate limit check
        if self.limiter.check(req.sandbox_id.as_str(), now) {
            return Decision { action: Action::RouteToDeepLoop, reason: "rate limited".to_owned(), state_hash: None };
        }
        // 2. Hash the state
        let state_hash = hash_state(req.payload.as_str(), req.context.as_str());
        // 3. Check the failure record for this state
        if let Some(err) = self.tracker.is_known_failure(state_hash.as_str()) {
            let mut reason = "known failure: ".to_owned();
            reason.append(err.as_str());
            return Decision { action: Action::RouteToDeepLoop, reason, state_hash: Some(state_hash) };
        }
        // 4. Validate based on type
        let outcome = validate(req.kind.as_str(), req.payload.as_str());
        // 5. Update the failure tracker and decide
        match outcome {
            Ok(()) => {
                self.tracker.record_success(req.sandbox_id.as_str());
                Decision {
                    action: Action::ExecuteImmediately,
                    reason: "validation passed".to_owned(),
                    state_hash: Some(state_hash),
                }
            },
            Err(err) => {
                let terminated = self.tracker.record_failure(
                    req.sandbox_id.as_str(),
                    state_hash.as_str(),
                    err.as_str(),
                );
                let mut reason = "validation failed: ".to_owned();
                reason.append(err.as_str());
                Decision {
                    action: if terminated {
                        Action::SandboxTerminated
                    } else {
                        Action::RouteToDeepLoop
                    },
                    reason,
                    state_hash: Some(state_hash),
                }
            },
        }
    }
}

/// A state that failed validation is remembered: a later request with the
/// same payload and context that is not rate limited is routed to the deep
/// loop as a known failure, with the recorded error, whichever sandbox sends it.
pub proof fn lemma_known_failure_cached(
    e0: GuardEngine,
    e1: GuardEngine,
    e2: GuardEngine,
    first: InterceptRequest,
    second: InterceptRequest,
    t1: u64,
    t2: u64,
    d1: Decision,
    d2: Decision,
)
    requires
        process_post(e0, e1, first, t1, d1),
        process_post(e1, e2, second, t2, d2),
        second.payload@ == first.payload@,
        second.context@ == first.context@,
        d1.state_hash is Some,
        validation_of(first.kind@, first.payload@) is Err,
        !e0.tracker().known().contains_key(state_hash_of(first.payload@, first.context@)),
        d2.state_hash is Some,
    ensures
        d2.action == Action::RouteToDeepLoop,
        d2.reason@ == "known failure: "@ + validation_of(first.kind@, first.payload@)->Err_0,
{
}

/// A sandbox whose failures reach the maximum without a success in between is
/// terminated: the failure that brings the count to the maximum decides
/// `SANDBOX_TERMINATED`.
pub proof fn lemma_failure_at_limit_terminates(
    old: GuardEngine,
    new: GuardEngine,
    req: InterceptRequest,
    now: u64,
    d: Decision,
)
    requires
        process_post(old, new, req, now, d),
        d.state_hash is Some,
        !old.tracker().known().contains_key(state_hash_of(req.payload@, req.context@)),
        validation_of(req.kind@, req.payload@) is Err,
        prior_failures(old.tracker().counts(), req.sandbox_id@) + 1 >= old.tracker().max_failures(),
    ensures
        d.action == Action::SandboxTerminated,
{
}

/// The request's kind picks the rules that judge its payload. A request that
/// is neither rate limited nor a known failure is executed immediately, with
/// the reason `validation passed`, exactly when its payload passes the rules of
/// its kind: the Rust rules for `rust`, the Python rules for `python`, the
/// JSON parser for `json`; a request of any other kind is never executed.
pub proof fn lemma_rules_follow_kind(old: GuardEngine, new: GuardEngine, req: InterceptRequest, now: u64, d: Decision)
    requires
        process_post(old, new, req, now, d),
        d.state_hash is Some,
        !old.tracker().known().contains_key(state_hash_of(req.payload@, req.context@)),
    ensures
        req.kind@ == "rust"@ ==> (d.action == Action::ExecuteImmediately <==> rust_allowed(req.payload@)),
        req.kind@ == "python"@ ==> (d.action == Action::ExecuteImmediately <==> python_allowed(req.payload@)),
        req.kind@ == "json"@ ==> (d.action == Action::ExecuteImmediately <==> serde_json_parse(req.payload@) is Ok),
        req.kind@ != "rust"@ && req.kind@ != "python"@ && req.kind@ != "json"@ ==> d.action
            != Action::ExecuteImmediately,
        d.action == Action::ExecuteImmediately ==> d.reason@ == "validation passed"@,
{
    reveal_strlit("rust");
    reveal_strlit("python");
    reveal_strlit("json");
    assert("rust"@ != "python"@ && "json"@ != "python"@) by {
        assert("rust"@.len() != "python"@.len());
        assert("json"@.len() != "python"@.len());
    }
    assert("rust"@ != "json"@) by {
        assert("rust"@[0] != "json"@[0]);
    }
    lemma_rust_verdict(req.payload@);
    lemma_python_verdict(req.payload@);
}

} // verus!
