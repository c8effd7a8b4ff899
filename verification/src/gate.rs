use vstd::prelude::*;
use crate::cache::{answers, elapsed, exact_hit, insert_post, lookup_post, QueryCache};
use crate::hash::fingerprint_of;
use crate::protocol::{CacheResponse, Request, Response, StatsResponse, StoreResponse};
use crate::similarity::{lemma_ascii_sliceable, normalized_bytes, shingles_sliceable, sliceable};
use crate::text::normalized;
use vstd::utf8::is_ascii_chars;

verus! {

/// Default cache capacity.
pub const DEFAULT_CAPACITY: usize = 4096;

/// Default time to live: one hour, in nanoseconds.
pub const DEFAULT_TTL: u64 = 3_600_000_000_000;

/// A lookup of `query` at time `now` can be made: gate 1 answers it or its
/// shingles can be cut on character boundaries, and the counter that it would
/// raise is below its maximum.
pub open spec fn lookup_defined(c: QueryCache, query: Seq<char>, min_matches: u32, now: u64) -> bool {
    &&& exact_hit(c.entries(), fingerprint_of(query), c.ttl(), now) || sliceable(normalized_bytes(query))
    &&& answers(c, query, min_matches, now) ==> c.hit_count() < u64::MAX
    &&& !answers(c, query, min_matches, now) ==> c.miss_count() < u64::MAX
}

/// What handling a lookup or store request, with the clock reading `t1` when
/// it starts and `t2` when it ends, does to gate `old`, giving gate `new` and
/// answer `r` (`None` when the request cannot be served).
pub open spec fn handle_post(old: Gate, new: Gate, req: Request, r: Option<Response>, t1: u64, t2: u64) -> bool {
    match req {
        Request::Lookup(q) => if lookup_defined(old.cache(), q.query@, q.min_matches, t1) {
            &&& r matches Some(Response::Cache(c))
            &&& lookup_post(old.cache(), new.cache(), q.query@, q.min_matches, t1, (c.gate, c.response))
            &&& c.hit == (c.gate > 0)
            &&& c.latency_us == elapsed(t2, t1) / 1000
        } else {
            &&& r is None
            &&& new.cache() == old.cache()
        },
        Request::Store(q) => if sliceable(normalized_bytes(q.query@)) {
            &&& r matches Some(Response::Store(s))
            &&& s.stored
            &&& insert_post(old.cache(), new.cache(), q.query@, q.response@, t1)
        } else {
            &&& r is None
            &&& new.cache() == old.cache()
        },
        Request::Stats(_) => {
            &&& r matches Some(Response::Stats(s))
            &&& s.hits == old.cache().hit_count()
            &&& s.misses == old.cache().miss_count()
            &&& new.cache() == old.cache()
        },
    }
}

/// The guard gatekeeper: owns the cache and handles requests.
pub struct Gate {
    cache: QueryCache,
}

impl Gate {
    pub closed spec fn cache(self) -> QueryCache {
        self.cache
    }

    pub open spec fn wf(self) -> bool {
        self.cache().wf()
    }

    /// A gate with the default capacity and time to live.
    pub fn new() -> (g: Self)
        ensures
            g.wf(),
            g.cache().entries().len() == 0,
            g.cache().capacity() == DEFAULT_CAPACITY,
            g.cache().ttl() == DEFAULT_TTL,
            g.cache().hit_count() == 0,
            g.cache().miss_count() == 0,
    {
        Gate { cache: QueryCache::new(DEFAULT_CAPACITY, DEFAULT_TTL) }
    }

    /// A gate with the given capacity (1024 when zero) and time to live.
    pub fn with_params(capacity: usize, ttl: u64) -> (g: Self)
        ensures
            g.wf(),
            g.cache().entries().len() == 0,
            g.cache().capacity() == if capacity == 0 { 1024 } else { capacity },
            g.cache().ttl() == ttl,
            g.cache().hit_count() == 0,
            g.cache().miss_count() == 0,
    {
        Gate { cache: QueryCache::new(capacity, ttl) }
    }

    /// Process a cache lookup request through the three gates. `None` when
    /// the query cannot be looked up: it has no fresh exact entry and its
    /// shingles cannot be cut on character boundaries, or the counter that the
    /// lookup would raise is at its maximum.
    pub fn lookup(&mut self, query: &str, min_matches: u32, now: u64) -> (r: Option<(u8, Option<String>)>)
        requires
            old(self).wf(),
        ensures
            final(self).wf(),
            r is Some == lookup_defined(old(self).cache(), query@, min_matches, now),
            is_ascii_chars(normalized(query@)) && old(self).cache().hit_count() < u64::MAX && old(
                self,
            ).cache().miss_count() < u64::MAX ==> r is Some,
            r matches Some(a) ==> lookup_post(old(self).cache(), final(self).cache(), query@, min_matches, now, a),
            r is None ==> final(self).cache() == old(self).cache(),
    {
        proof {
            lemma_ascii_sliceable(query@);
        }
        if !(self.cache.has_fresh_exact(query, now) || shingles_sliceable(query)) {
            return None;
        }
        let (hits, misses) = self.cache.stats();
        if hits == u64::MAX || misses == u64::MAX {
            let answered = self.cache.would_answer(query, min_matches, now);
            if (answered && hits == u64::MAX) || (!answered && misses == u64::MAX) {
                return None;
            }
        }
        Some(self.cache.lookup(query, min_matches, now))
    }

    /// Insert a new entry into the cache (called on a miss, after getting the
    /// real response). `false`, with nothing stored, when the query's shingles
    /// cannot be cut on character boundaries.
    pub fn insert(&mut self, query: &str, response: &str, now: u64) -> (stored: bool)
        requires
            old(self).wf(),
        ensures
            final(self).wf(),
            stored == sliceable(normalized_bytes(query@)),
            is_ascii_chars(normalized(query@)) ==> stored,
            stored ==> insert_post(old(self).cache(), final(self).cache(), query@, response@, now),
            !stored ==> final(self).cache() == old(self).cache(),
    {
        proof {
            lemma_ascii_sliceable(query@);
        }
        if shingles_sliceable(query) {
            self.cache.insert(query, response, now);
            true
        } else {
            false
        }
    }

    /// Hit and miss counts.
    pub fn stats(&self) -> (r: Response)
        ensures
            r matches Response::Stats(s) && s.hits == self.cache().hit_count() && s.misses == self.cache().miss_count(),
    {
        let (hits, misses) = self.cache.stats();
        Response::Stats(StatsResponse { hits, misses })
    }

    /// Serve one request. `clock` gives the time in nanoseconds; it is read
    /// when a lookup or store starts, and again when a lookup ends to report
    /// its latency in microseconds. `None` when the request cannot be served
    /// (see `Gate::lookup` and `Gate::insert`).
    pub fn handle<C: Fn() -> u64>(&mut self, req: Request, clock: C) -> (r: Option<Response>)
        requires
            old(self).wf(),
            call_requires(clock, ()),
        ensures
            final(self).wf(),
            req is Stats ==> handle_post(*old(self), *final(self), req, r, 0, 0),
            !(req is Stats) ==> exists|t1: u64, t2: u64|
                call_ensures(clock, (), t1) && call_ensures(clock, (), t2) && handle_post(
                    *old(self),
                    *final(self),
                    req,
                    r,
                    t1,
                    t2,
                ),
    {
        let ghost req0 = req;
        let ghost start = *self;
        match req {
            Request::Lookup(q) => {
                let t1 = clock();
                let answer = self.lookup(q.query.as_str(), q.min_matches, t1);
                let t2 = clock();
                let r = match answer {
                    Some((gate, response)) => {
                        let c = CacheResponse::from_lookup(gate, response, t2.saturating_sub(t1) / 1000);
                        Some(Response::Cache(c))
                    },
                    None => None,
                };
                assert(handle_post(start, *self, req0, r, t1, t2));
                r
            },
            Request::Store(q) => {
                let t1 = clock();
                let r = if self.insert(q.query.as_str(), q.response.as_str(), t1) {
                    Some(Response::Store(StoreResponse { stored: true }))
                } else {
                    None
                };
                assert(handle_post(start, *self, req0, r, t1, t1));
                r
            },
            Request::Stats(_) => Some(self.stats()),
        }
    }
}

} // verus!
