use vstd::prelude::*;

verus! {

/// Client to daemon: cache lookup. Gate 2 accepts an entry whose signature
/// agrees with the query's in at least `min_matches` of the permutation slots
/// (the similarity threshold times the number of slots, rounded up).
pub struct CacheRequest {
    pub query: String,
    pub min_matches: u32,
}

/// Client to daemon: store a response in the cache.
pub struct StoreRequest {
    pub query: String,
    pub response: String,
}

/// Client to daemon: stats request.
pub struct StatsRequest {
    pub stats: bool,
}

/// Daemon to client: cache lookup response.
pub struct CacheResponse {
    pub hit: bool,
    pub response: Option<String>,
    pub gate: u8,
    pub latency_us: u64,
}

impl CacheResponse {
    /// The response to a lookup answered at `gate` with `response`, measured
    /// to have taken `latency_us` microseconds.
    pub fn from_lookup(gate: u8, response: Option<String>, latency_us: u64) -> (r: CacheResponse)
        ensures
            r.hit == (gate > 0),
            r.response == response,
            r.gate == gate,
            r.latency_us == latency_us,
    {
        CacheResponse { hit: gate > 0, response, gate, latency_us }
    }
}

/// Daemon to client: store acknowledgment.
pub struct StoreResponse {
    pub stored: bool,
}

/// Daemon to client: stats snapshot (the hit rate is `hits / (hits + misses)`).
pub struct StatsResponse {
    pub hits: u64,
    pub misses: u64,
}

/// Daemon to client: error.
pub struct ErrorResponse {
    pub error: String,
}

/// Top-level response frame.
pub enum Response {
    Cache(CacheResponse),
    Store(StoreResponse),
    Stats(StatsResponse),
    Error(ErrorResponse),
}

/// Top-level request frame.
pub enum Request {
    Lookup(CacheRequest),
    Store(StoreRequest),
    Stats(StatsRequest),
}

} // verus!
