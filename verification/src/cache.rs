use vstd::prelude::*;
use crate::hash::{fingerprint, fingerprint_of};
use crate::text::normalized;
use crate::similarity::{
    agree_count, match_count, minhash, normalized_bytes, signature, sliceable, MinHashSignature,
    NUM_PERM,
};
use crate::store::{
    distinct_keys, has_key, key_pos, lru_cap, lru_entries, lru_get, lru_keys, lru_new, lru_peek,
    lru_pop, lru_put, promote, FpCache,
};

verus! {

/// One stored query and its response.
pub struct CacheEntry {
    pub query: String,
    pub response: String,
    pub sig: MinHashSignature,
    /// When the entry was stored, in nanoseconds on the caller's clock.
    pub inserted: u64,
}

/// The view of an optional string.
pub open spec fn opt_view(o: Option<String>) -> Option<Seq<char>> {
    match o {
        Some(s) => Some(s@),
        None => None,
    }
}

/// Time passed from `since` to `now`, zero when `now` is earlier.
pub open spec fn elapsed(now: u64, since: u64) -> int {
    if now >= since {
        now - since
    } else {
        0
    }
}

/// An entry is fresh while less than `ttl` has passed since it was stored.
pub open spec fn fresh(e: CacheEntry, ttl: u64, now: u64) -> bool {
    elapsed(now, e.inserted) < ttl
}

/// Gate 1: an entry keyed by `fp` exists and is fresh.
pub open spec fn exact_hit(s: Seq<(Seq<u8>, CacheEntry)>, fp: Seq<u8>, ttl: u64, now: u64) -> bool {
    has_key(s, fp) && fresh(s[key_pos(s, fp)].1, ttl, now)
}

/// The entries left when gate 1 misses: a stale entry keyed by `fp` is dropped.
pub open spec fn after_exact_miss(s: Seq<(Seq<u8>, CacheEntry)>, fp: Seq<u8>) -> Seq<(Seq<u8>, CacheEntry)> {
    if has_key(s, fp) {
        s.remove(key_pos(s, fp))
    } else {
        s
    }
}

/// Gate 2 accepts an entry that is fresh and whose signature agrees with
/// `sig` in at least `min_matches` of the `NUM_PERM` slots.
pub open spec fn fuzzy_hit(e: CacheEntry, sig: Seq<u32>, min_matches: u32, ttl: u64, now: u64) -> bool {
    fresh(e, ttl, now) && agree_count(sig, e.sig@, NUM_PERM as int) >= min_matches
}

/// The first entry at or after position `i`, in most-recently-used order, that
/// gate 2 accepts.
pub open spec fn first_fuzzy(
    s: Seq<(Seq<u8>, CacheEntry)>,
    sig: Seq<u32>,
    min_matches: u32,
    ttl: u64,
    now: u64,
    i: int,
) -> Option<int>
    decreases s.len() - i,
{
    if i < 0 || i >= s.len() {
        None
    } else if fuzzy_hit(s[i].1, sig, min_matches, ttl, now) {
        Some(i)
    } else {
        first_fuzzy(s, sig, min_matches, ttl, now, i + 1)
    }
}

/// The entries after `put` of a new entry keyed by `fp` (the entry itself goes
/// in front of them).
pub open spec fn rest_after_put(s: Seq<(Seq<u8>, CacheEntry)>, fp: Seq<u8>, cap: nat) -> Seq<(Seq<u8>, CacheEntry)> {
    if has_key(s, fp) {
        s.remove(key_pos(s, fp))
    } else if s.len() == cap {
        s.drop_last()
    } else {
        s
    }
}

/// Each entry is keyed by the fingerprint of its query and carries the
/// signature of its query.
pub open spec fn keyed_by_query(s: Seq<(Seq<u8>, CacheEntry)>) -> bool {
    forall|i: int|
        0 <= i < s.len() ==> #[trigger] s[i].0 == fingerprint_of(s[i].1.query@) && s[i].1.sig@
            == minhash(normalized_bytes(s[i].1.query@))
}

proof fn lemma_promote_keeps(s: Seq<(Seq<u8>, CacheEntry)>, p: int)
    requires
        0 <= p < s.len(),
        distinct_keys(s),
        keyed_by_query(s),
    ensures
        distinct_keys(promote(s, p)),
        keyed_by_query(promote(s, p)),
        promote(s, p).len() == s.len(),
        promote(s, p)[0] == s[p],
        key_pos(promote(s, p), s[p].0) == 0,
        promote(s, p).remove(0) =~= s.remove(p),
{
    let t = promote(s, p);
    assert forall|i: int| 0 <= i < t.len() implies #[trigger] t[i] == s[if i == 0 {
        p
    } else if i - 1 < p {
        i - 1
    } else {
        i
    }] by {}
    assert forall|i: int, j: int|
        0 <= i < t.len() && 0 <= j < t.len() && i != j implies #[trigger] t[i].0 != #[trigger] t[j].0 by {
        let si = if i == 0 { p } else if i - 1 < p { i - 1 } else { i };
        let sj = if j == 0 { p } else if j - 1 < p { j - 1 } else { j };
        assert(t[i] == s[si]);
        assert(t[j] == s[sj]);
    }
    assert forall|i: int| 0 <= i < t.len() implies #[trigger] t[i].0 == fingerprint_of(t[i].1.query@)
        && t[i].1.sig@ == minhash(normalized_bytes(t[i].1.query@)) by {
        let si = if i == 0 { p } else if i - 1 < p { i - 1 } else { i };
        assert(t[i] == s[si]);
    }
    assert(t[0].0 == s[p].0);
}

proof fn lemma_remove_keeps(s: Seq<(Seq<u8>, CacheEntry)>, p: int)
    requires
        0 <= p < s.len(),
        distinct_keys(s),
        keyed_by_query(s),
    ensures
        distinct_keys(s.remove(p)),
        keyed_by_query(s.remove(p)),
        !has_key(s.remove(p), s[p].0),
{
    let t = s.remove(p);
    assert forall|i: int, j: int|
        0 <= i < t.len() && 0 <= j < t.len() && i != j implies #[trigger] t[i].0 != #[trigger] t[j].0 by {
        let si = if i < p { i } else { i + 1 };
        let sj = if j < p { j } else { j + 1 };
        assert(t[i] == s[si]);
        assert(t[j] == s[sj]);
    }
    assert forall|i: int| 0 <= i < t.len() implies #[trigger] t[i].0 == fingerprint_of(t[i].1.query@)
        && t[i].1.sig@ == minhash(normalized_bytes(t[i].1.query@)) by {
        let si = if i < p { i } else { i + 1 };
        assert(t[i] == s[si]);
    }
    if has_key(t, s[p].0) {
        let i = choose|i: int| 0 <= i < t.len() && #[trigger] t[i].0 == s[p].0;
        let si = if i < p { i } else { i + 1 };
        assert(t[i] == s[si]);
    }
}

proof fn lemma_rest_after_put_keeps(s: Seq<(Seq<u8>, CacheEntry)>, fp: Seq<u8>, cap: nat)
    requires
        distinct_keys(s),
        keyed_by_query(s),
        s.len() <= cap,
        cap > 0,
    ensures
        distinct_keys(rest_after_put(s, fp, cap)),
        keyed_by_query(rest_after_put(s, fp, cap)),
        !has_key(rest_after_put(s, fp, cap), fp),
        rest_after_put(s, fp, cap).len() < cap,
{
    if has_key(s, fp) {
        lemma_remove_keeps(s, key_pos(s, fp));
    } else if s.len() == cap {
        lemma_remove_keeps(s, s.len() - 1);
        assert(s.drop_last() =~= s.remove(s.len() - 1));
        if has_key(s.drop_last(), fp) {
            let i = choose|i: int| 0 <= i < s.drop_last().len() && #[trigger] s.drop_last()[i].0 == fp;
            assert(s[i].0 == fp);
        }
    }
}

proof fn lemma_cons_keeps(x: (Seq<u8>, CacheEntry), t: Seq<(Seq<u8>, CacheEntry)>)
    requires
        distinct_keys(t),
        keyed_by_query(t),
        !has_key(t, x.0),
        x.0 == fingerprint_of(x.1.query@),
        x.1.sig@ == minhash(normalized_bytes(x.1.query@)),
    ensures
        distinct_keys(seq![x] + t),
        keyed_by_query(seq![x] + t),
{
    let u = seq![x] + t;
    assert forall|i: int, j: int|
        0 <= i < u.len() && 0 <= j < u.len() && i != j implies #[trigger] u[i].0 != #[trigger] u[j].0 by {
        if i == 0 {
            assert(u[j] == t[j - 1]);
        } else if j == 0 {
            assert(u[i] == t[i - 1]);
        } else {
            assert(u[i] == t[i - 1]);
            assert(u[j] == t[j - 1]);
        }
    }
    assert forall|i: int| 0 <= i < u.len() implies #[trigger] u[i].0 == fingerprint_of(u[i].1.query@)
        && u[i].1.sig@ == minhash(normalized_bytes(u[i].1.query@)) by {
        if i > 0 {
            assert(u[i] == t[i - 1]);
        }
    }
}

proof fn lemma_key_pos_distinct(s: Seq<(Seq<u8>, CacheEntry)>, i: int)
    requires
        distinct_keys(s),
        0 <= i < s.len(),
    ensures
        has_key(s, s[i].0),
        key_pos(s, s[i].0) == i,
{
    assert(s[i].0 == s[i].0);
}

proof fn lemma_first_fuzzy_step(
    s: Seq<(Seq<u8>, CacheEntry)>,
    sig: Seq<u32>,
    min_matches: u32,
    ttl: u64,
    now: u64,
    i: int,
)
    requires
        0 <= i < s.len(),
    ensures
        fuzzy_hit(s[i].1, sig, min_matches, ttl, now) ==> first_fuzzy(s, sig, min_matches, ttl, now, i) == Some(i),
        !fuzzy_hit(s[i].1, sig, min_matches, ttl, now) ==> first_fuzzy(s, sig, min_matches, ttl, now, i)
            == first_fuzzy(s, sig, min_matches, ttl, now, i + 1),
{
}

/// What a lookup of `query` at time `now` does to cache `old`, giving cache
/// `new` and answer `r`. Gate 1 answers when a fresh entry has the query's
/// fingerprint, and moves it to the front; a stale one is dropped. Gate 2 then
/// answers with the first fresh entry, most recently used first, whose
/// signature agrees with the query's in at least `min_matches` slots. Gate 0
/// answers otherwise. Each lookup counts one hit or one miss.
pub open spec fn lookup_post(
    old: QueryCache,
    new: QueryCache,
    query: Seq<char>,
    min_matches: u32,
    now: u64,
    r: (u8, Option<String>),
) -> bool {
    let s = old.entries();
    let fp = fingerprint_of(query);
    let ttl = old.ttl();
    &&& new.capacity() == old.capacity()
    &&& new.ttl() == old.ttl()
    &&& if exact_hit(s, fp, ttl, now) {
        &&& r.0 == 1
        &&& opt_view(r.1) == Some(s[key_pos(s, fp)].1.response@)
        &&& new.entries() == promote(s, key_pos(s, fp))
        &&& new.hit_count() == old.hit_count() + 1
        &&& new.miss_count() == old.miss_count()
    } else {
        let s1 = after_exact_miss(s, fp);
        &&& new.entries() == s1
        &&& match first_fuzzy(s1, minhash(normalized_bytes(query)), min_matches, ttl, now, 0) {
            Some(i) => {
                &&& r.0 == 2
                &&& opt_view(r.1) == Some(s1[i].1.response@)
                &&& new.hit_count() == old.hit_count() + 1
                &&& new.miss_count() == old.miss_count()
            },
            None => {
                &&& r.0 == 0
                &&& r.1 is None
                &&& new.hit_count() == old.hit_count()
                &&& new.miss_count() == old.miss_count() + 1
            },
        }
    }
}

/// What storing `response` for `query` at time `now` does to cache `old`,
/// giving cache `new`: the new entry comes first, keyed by the query's
/// fingerprint; an entry with the same key is replaced, and otherwise a full
/// cache drops its least recently used entry.
pub open spec fn insert_post(
    old: QueryCache,
    new: QueryCache,
    query: Seq<char>,
    response: Seq<char>,
    now: u64,
) -> bool {
    &&& new.capacity() == old.capacity()
    &&& new.ttl() == old.ttl()
    &&& new.hit_count() == old.hit_count()
    &&& new.miss_count() == old.miss_count()
    &&& new.entries().len() > 0
    &&& new.entries()[0].0 == fingerprint_of(query)
    &&& new.entries()[0].1.query@ == query
    &&& new.entries()[0].1.response@ == response
    &&& new.entries()[0].1.inserted == now
    &&& new.entries().drop_first() == rest_after_put(old.entries(), fingerprint_of(query), old.capacity())
}

/// Whether a lookup of `query` at time `now` is answered at gate 1 or 2 (and
/// so counts a hit rather than a miss).
pub open spec fn answers(c: QueryCache, query: Seq<char>, min_matches: u32, now: u64) -> bool {
    let s = c.entries();
    let fp = fingerprint_of(query);
    exact_hit(s, fp, c.ttl(), now) || first_fuzzy(
        after_exact_miss(s, fp),
        minhash(normalized_bytes(query)),
        min_matches,
        c.ttl(),
        now,
        0,
    ) is Some
}

/// Some entry from position `i` on is accepted by gate 2.
pub open spec fn some_fuzzy(
    s: Seq<(Seq<u8>, CacheEntry)>,
    sig: Seq<u32>,
    min_matches: u32,
    ttl: u64,
    now: u64,
    i: int,
) -> bool {
    exists|j: int| i <= j < s.len() && fuzzy_hit(#[trigger] s[j].1, sig, min_matches, ttl, now)
}

proof fn lemma_first_fuzzy_exists(
    s: Seq<(Seq<u8>, CacheEntry)>,
    sig: Seq<u32>,
    min_matches: u32,
    ttl: u64,
    now: u64,
    i: int,
)
    requires
        0 <= i <= s.len(),
    ensures
        first_fuzzy(s, sig, min_matches, ttl, now, i) is Some <==> some_fuzzy(s, sig, min_matches, ttl, now, i),
    decreases s.len() - i,
{
    if i < s.len() {
        lemma_first_fuzzy_exists(s, sig, min_matches, ttl, now, i + 1);
        if some_fuzzy(s, sig, min_matches, ttl, now, i) && !fuzzy_hit(s[i].1, sig, min_matches, ttl, now) {
            let j = choose|j: int| i <= j < s.len() && fuzzy_hit(#[trigger] s[j].1, sig, min_matches, ttl, now);
            assert(j != i);
        }
        if some_fuzzy(s, sig, min_matches, ttl, now, i + 1) {
            let j = choose|j: int| i + 1 <= j < s.len() && fuzzy_hit(#[trigger] s[j].1, sig, min_matches, ttl, now);
        }
    }
}

proof fn lemma_fuzzy_without_stale(
    s: Seq<(Seq<u8>, CacheEntry)>,
    p: int,
    sig: Seq<u32>,
    min_matches: u32,
    ttl: u64,
    now: u64,
)
    requires
        0 <= p < s.len(),
        !fresh(s[p].1, ttl, now),
    ensures
        some_fuzzy(s.remove(p), sig, min_matches, ttl, now, 0) <==> some_fuzzy(s, sig, min_matches, ttl, now, 0),
{
    let t = s.remove(p);
    if some_fuzzy(t, sig, min_matches, ttl, now, 0) {
        let j = choose|j: int| 0 <= j < t.len() && fuzzy_hit(#[trigger] t[j].1, sig, min_matches, ttl, now);
        let k = if j < p { j } else { j + 1 };
        assert(t[j] == s[k]);
    }
    if some_fuzzy(s, sig, min_matches, ttl, now, 0) {
        let k = choose|k: int| 0 <= k < s.len() && fuzzy_hit(#[trigger] s[k].1, sig, min_matches, ttl, now);
        assert(k != p);
        let j = if k < p { k } else { k - 1 };
        assert(t[j] == s[k]);
    }
}

/// The query cache: an LRU map from query fingerprints to entries, a time to
/// live, and hit and miss counters.
pub struct QueryCache {
    exact: FpCache,
    ttl: u64,
    hits: u64,
    misses: u64,
}

impl QueryCache {
    /// The entries, most recently used first, each keyed by its fingerprint.
    pub closed spec fn entries(self) -> Seq<(Seq<u8>, CacheEntry)> {
        lru_entries(self.exact)
    }

    /// How many entries the cache holds at most.
    pub closed spec fn capacity(self) -> nat {
        lru_cap(self.exact)
    }

    /// Time to live of an entry, in nanoseconds.
    pub closed spec fn ttl(self) -> u64 {
        self.ttl
    }

    /// Lookups answered at gate 1 or 2.
    pub closed spec fn hit_count(self) -> u64 {
        self.hits
    }

    /// Lookups answered at gate 0.
    pub closed spec fn miss_count(self) -> u64 {
        self.misses
    }

    /// Keys are distinct, the capacity is respected, and each entry is keyed by
    /// the fingerprint of its query and carries its query's signature.
    pub open spec fn wf(self) -> bool {
        &&& distinct_keys(self.entries())
        &&& self.entries().len() <= self.capacity()
        &&& self.capacity() > 0
        &&& keyed_by_query(self.entries())
    }

    /// An empty cache holding at most `capacity` entries (1024 when
    /// `capacity` is zero) for `ttl` nanoseconds each.
    pub fn new(capacity: usize, ttl: u64) -> (c: Self)
        ensures
            c.wf(),
            c.entries() == Seq::<(Seq<u8>, CacheEntry)>::empty(),
            c.capacity() == if capacity == 0 { 1024 } else { capacity },
            c.ttl() == ttl,
            c.hit_count() == 0,
            c.miss_count() == 0,
    {
        let cap = if capacity == 0 { 1024 } else { capacity };
        QueryCache { exact: lru_new(cap), ttl, hits: 0, misses: 0 }
    }

    fn is_fresh(&self, e: &CacheEntry, now: u64) -> (r: bool)
        ensures
            r == fresh(*e, self.ttl, now),
    {
        now.saturating_sub(e.inserted) < self.ttl
    }

    /// Whether gate 1 would answer `query` at time `now`.
    pub fn has_fresh_exact(&self, query: &str, now: u64) -> (r: bool)
        ensures
            r == exact_hit(self.entries(), fingerprint_of(query@), self.ttl(), now),
    {
        let fp = fingerprint(query);
        match lru_peek(&self.exact, &fp) {
            Some(e) => self.is_fresh(e, now),
            None => false,
        }
    }

    /// Whether a lookup of `query` at time `now` would be answered at gate 1
    /// or 2; the cache is left as it is.
    pub fn would_answer(&self, query: &str, min_matches: u32, now: u64) -> (r: bool)
        requires
            self.wf(),
            exact_hit(self.entries(), fingerprint_of(query@), self.ttl(), now) || sliceable(
                normalized_bytes(query@),
            ),
        ensures
            r == answers(*self, query@, min_matches, now),
    {
        if self.has_fresh_exact(query, now) {
            return true;
        }
        let ghost s = self.entries();
        let ghost fp = fingerprint_of(query@);
        let sig = signature(query);
        let keys = lru_keys(&self.exact);
        let mut i: usize = 0;
        while i < keys.len()
            invariant
                s == self.entries(),
                distinct_keys(s),
                fp == fingerprint_of(query@),
                !exact_hit(s, fp, self.ttl, now),
                keys@.len() == s.len(),
                forall|k: int| 0 <= k < keys@.len() ==> #[trigger] keys@[k]@ == s[k].0,
                i <= keys@.len(),
                sig@ == minhash(normalized_bytes(query@)),
                forall|k: int| 0 <= k < i ==> !fuzzy_hit(#[trigger] s[k].1, sig@, min_matches, self.ttl, now),
            decreases keys@.len() - i,
        {
            proof {
                lemma_key_pos_distinct(s, i as int);
            }
            let entry = lru_peek(&self.exact, &keys[i]).unwrap();
            if self.is_fresh(entry, now) && match_count(&sig, &entry.sig) >= min_matches {
                proof {
                    assert(fuzzy_hit(s[i as int].1, sig@, min_matches, self.ttl, now));
                    assert(some_fuzzy(s, sig@, min_matches, self.ttl, now, 0));
                    if has_key(s, fp) {
                        lemma_fuzzy_without_stale(s, key_pos(s, fp), sig@, min_matches, self.ttl, now);
                    }
                    lemma_first_fuzzy_exists(after_exact_miss(s, fp), sig@, min_matches, self.ttl, now, 0);
                }
                return true;
            }
            i = i + 1;
        }
        proof {
            assert(!some_fuzzy(s, sig@, min_matches, self.ttl, now, 0));
            if has_key(s, fp) {
                lemma_fuzzy_without_stale(s, key_pos(s, fp), sig@, min_matches, self.ttl, now);
            }
            lemma_first_fuzzy_exists(after_exact_miss(s, fp), sig@, min_matches, self.ttl, now, 0);
        }
        false
    }

    /// Three-gate lookup: exact, then fuzzy, then miss.
    /// Returns (gate, response) where gate 1 = exact, 2 = fuzzy, 0 = miss.
    /// Gate 2 accepts an entry whose signature agrees with the query's in at
    /// least `min_matches` of the `NUM_PERM` slots.
    pub fn lookup(&mut self, query: &str, min_matches: u32, now: u64) -> (r: (u8, Option<String>))
        requires
            old(self).wf(),
            answers(*old(self), query@, min_matches, now) ==> old(self).hit_count() < u64::MAX,
            !answers(*old(self), query@, min_matches, now) ==> old(self).miss_count() < u64::MAX,
            exact_hit(old(self).entries(), fingerprint_of(query@), old(self).ttl(), now) || sliceable(
                normalized_bytes(query@),
            ),
        ensures
            final(self).wf(),
            lookup_post(*old(self), *final(self), query@, min_matches, now, r),
    {
        let ghost s = self.entries();
        let fp = fingerprint(query);
        // Gate 1: exact match
        if lru_get(&mut self.exact, &fp) {
            let ghost p = key_pos(s, fp@);
            proof {
                lemma_promote_keeps(s, p);
                lemma_remove_keeps(s, p);
            }
            let entry = lru_peek(&self.exact, &fp).unwrap();
            if self.is_fresh(entry, now) {
                let resp = entry.response.clone();
                self.hits = self.hits + 1;
                return (1, Some(resp));
            } else {
                let _ = lru_pop(&mut self.exact, &fp);
                assert(self.entries() =~= s.remove(p));
            }
        }
        // Gate 2: fuzzy match via MinHash
        let ghost s1 = self.entries();
        assert(s1 == after_exact_miss(s, fp@));
        assert(!exact_hit(s, fp@, self.ttl, now));
        let sig = signature(query);
        let keys = lru_keys(&self.exact);
        let mut i: usize = 0;
        while i < keys.len()
            invariant
                self.entries() == s1,
                distinct_keys(s1),
                self.wf(),
                s == old(self).entries(),
                s1 == after_exact_miss(s, fingerprint_of(query@)),
                !exact_hit(s, fingerprint_of(query@), old(self).ttl(), now),
                first_fuzzy(s1, minhash(normalized_bytes(query@)), min_matches, self.ttl, now, 0) is Some
                    ==> self.hits < u64::MAX,
                first_fuzzy(s1, minhash(normalized_bytes(query@)), min_matches, self.ttl, now, 0) is None
                    ==> self.misses < u64::MAX,
                self.hits == old(self).hits,
                self.misses == old(self).misses,
                self.ttl == old(self).ttl,
                lru_cap(self.exact) == lru_cap(old(self).exact),
                keys@.len() == s1.len(),
                forall|k: int| 0 <= k < keys@.len() ==> #[trigger] keys@[k]@ == s1[k].0,
                i <= keys@.len(),
                sig@ == minhash(normalized_bytes(query@)),
                first_fuzzy(s1, sig@, min_matches, self.ttl, now, 0) == first_fuzzy(
                    s1,
                    sig@,
                    min_matches,
                    self.ttl,
                    now,
                    i as int,
                ),
            decreases keys@.len() - i,
        {
            proof {
                lemma_key_pos_distinct(s1, i as int);
                lemma_first_fuzzy_step(s1, sig@, min_matches, self.ttl, now, i as int);
            }
            let entry = lru_peek(&self.exact, &keys[i]).unwrap();
            if self.is_fresh(entry, now) && match_count(&sig, &entry.sig) >= min_matches {
                let resp = entry.response.clone();
                self.hits = self.hits + 1;
                return (2, Some(resp));
            }
            i = i + 1;
        }
        // Gate 0: miss
        self.misses = self.misses + 1;
        (0, None)
    }

    /// Insert a query and its response into the cache, stored at time `now`.
    pub fn insert(&mut self, query: &str, response: &str, now: u64)
        requires
            old(self).wf(),
            sliceable(normalized_bytes(query@)),
        ensures
            final(self).wf(),
            insert_post(*old(self), *final(self), query@, response@, now),
    {
        let ghost s = self.entries();
        let fp = fingerprint(query);
        let sig = signature(query);
        let entry = CacheEntry {
            query: query.to_owned(),
            response: response.to_owned(),
            sig,
            inserted: now,
        };
        let _ = lru_put(&mut self.exact, fp, entry);
        proof {
            let rest = rest_after_put(s, fp@, lru_cap(self.exact));
            lemma_rest_after_put_keeps(s, fp@, lru_cap(self.exact));
            assert(self.entries() == seq![self.entries()[0]] + rest);
            lemma_cons_keeps(self.entries()[0], rest);
            assert(self.entries().drop_first() =~= rest);
        }
    }

    /// Hit and miss counts so far.
    pub fn stats(&self) -> (r: (u64, u64))
        ensures
            r == (self.hit_count(), self.miss_count()),
    {
        (self.hits, self.misses)
    }
}

/// Read after write: once a response is stored for a query, and while the
/// entry is fresh, a lookup of that query, or of any query with the same normal
/// form, is answered at gate 1 with that response.
pub proof fn lemma_read_after_insert(
    old: QueryCache,
    new: QueryCache,
    query: Seq<char>,
    response: Seq<char>,
    stored_at: u64,
    asked: Seq<char>,
    now: u64,
)
    requires
        new.wf(),
        insert_post(old, new, query, response, stored_at),
        normalized(asked) == normalized(query),
        elapsed(now, stored_at) < new.ttl(),
    ensures
        exact_hit(new.entries(), fingerprint_of(asked), new.ttl(), now),
        new.entries()[key_pos(new.entries(), fingerprint_of(asked))].1.response@ == response,
{
    lemma_key_pos_distinct(new.entries(), 0);
}

/// A lookup that finds its entry stale drops it: afterwards no entry has the
/// query's fingerprint.
pub proof fn lemma_stale_entry_dropped(old: QueryCache, query: Seq<char>, now: u64)
    requires
        old.wf(),
        has_key(old.entries(), fingerprint_of(query)),
        !fresh(old.entries()[key_pos(old.entries(), fingerprint_of(query))].1, old.ttl(), now),
    ensures
        !exact_hit(old.entries(), fingerprint_of(query), old.ttl(), now),
        !has_key(after_exact_miss(old.entries(), fingerprint_of(query)), fingerprint_of(query)),
{
    let s = old.entries();
    let fp = fingerprint_of(query);
    let p = key_pos(s, fp);
    lemma_remove_keeps(s, p);
}

/// Storing a query whose key is new into a full cache evicts the least
/// recently used entry, and the cache never grows past its capacity.
pub proof fn lemma_insert_evicts_lru(old: QueryCache, new: QueryCache, query: Seq<char>, response: Seq<char>, now: u64)
    requires
        old.wf(),
        new.wf(),
        insert_post(old, new, query, response, now),
        !has_key(old.entries(), fingerprint_of(query)),
        old.entries().len() == old.capacity(),
    ensures
        !has_key(new.entries(), old.entries().last().0),
        new.entries().len() == new.capacity(),
{
    let s = old.entries();
    let t = new.entries();
    let k = s.last().0;
    assert(t.drop_first() == s.drop_last());
    lemma_key_pos_distinct(s, s.len() - 1);
    if has_key(t, k) {
        let i = choose|i: int| 0 <= i < t.len() && #[trigger] t[i].0 == k;
        if i == 0 {
            assert(has_key(s, fingerprint_of(query)));
        } else {
            assert(t.len() == s.len());
            assert(t.drop_first()[i - 1] == t[i]);
            assert(s.drop_last()[i - 1] == s[i - 1]);
            assert(s[i - 1].0 != s[s.len() - 1].0);
        }
    }
}

/// A lookup answered at a gate above zero counts one hit; at gate zero, one miss.
pub open spec fn counted(old: QueryCache, new: QueryCache, gate: u8) -> bool {
    if gate > 0 {
        new.hit_count() == old.hit_count() + 1 && new.miss_count() == old.miss_count()
    } else {
        new.miss_count() == old.miss_count() + 1 && new.hit_count() == old.hit_count()
    }
}

/// One call that takes cache `old` to cache `new`: `Some(gate)` is a lookup
/// answered at `gate`, `None` an insert.
pub open spec fn cache_call(old: QueryCache, new: QueryCache, call: Option<u8>) -> bool {
    match call {
        Some(gate) => exists|query: Seq<char>, min_matches: u32, now: u64, r: (u8, Option<String>)|
            r.0 == gate && #[trigger] lookup_post(old, new, query, min_matches, now, r),
        None => exists|query: Seq<char>, response: Seq<char>, now: u64|
            #[trigger] insert_post(old, new, query, response, now),
    }
}

/// Lookups among `calls` that were answered at gate 1 or 2.
pub open spec fn hits_among(calls: Seq<Option<u8>>) -> nat
    decreases calls.len(),
{
    if calls.len() == 0 {
        0
    } else {
        hits_among(calls.drop_last()) + if calls.last() matches Some(g) && g > 0 {
            1nat
        } else {
            0nat
        }
    }
}

/// Lookups among `calls` that were answered at gate 0.
pub open spec fn misses_among(calls: Seq<Option<u8>>) -> nat
    decreases calls.len(),
{
    if calls.len() == 0 {
        0
    } else {
        misses_among(calls.drop_last()) + if calls.last() matches Some(g) && g == 0 {
            1nat
        } else {
            0nat
        }
    }
}

/// Each lookup counts exactly one hit (gate 1 or 2) or one miss (gate 0).
pub proof fn lemma_lookup_counted(
    old: QueryCache,
    new: QueryCache,
    query: Seq<char>,
    min_matches: u32,
    now: u64,
    r: (u8, Option<String>),
)
    requires
        lookup_post(old, new, query, min_matches, now, r),
    ensures
        counted(old, new, r.0),
        r.0 <= 2,
{
}

/// Over any run of lookups and inserts, the hit count grows by the number of
/// lookups answered at gate 1 or 2 and the miss count by the number answered
/// at gate 0; inserts count nothing. (A new cache starts at zero and `stats`
/// reports the counts without changing them.)
pub proof fn lemma_counts_over_calls(states: Seq<QueryCache>, calls: Seq<Option<u8>>)
    requires
        states.len() == calls.len() + 1,
        forall|i: int| 0 <= i < calls.len() ==> cache_call(states[i], states[i + 1], #[trigger] calls[i]),
    ensures
        states.last().hit_count() == states[0].hit_count() + hits_among(calls),
        states.last().miss_count() == states[0].miss_count() + misses_among(calls),
    decreases calls.len(),
{
    if calls.len() > 0 {
        let n = calls.len() - 1;
        let prev = states.drop_last();
        assert forall|i: int| 0 <= i < calls.drop_last().len() implies cache_call(
            prev[i],
            prev[i + 1],
            #[trigger] calls.drop_last()[i],
        ) by {
            assert(calls.drop_last()[i] == calls[i]);
            assert(prev[i] == states[i] && prev[i + 1] == states[i + 1]);
        }
        lemma_counts_over_calls(prev, calls.drop_last());
        assert(cache_call(states[n], states[n + 1], calls[n]));
        assert(prev.last() == states[n]);
        match calls[n] {
            Some(gate) => {
                let (q, m, t, r) = choose|q: Seq<char>, m: u32, t: u64, r: (u8, Option<String>)|
                    r.0 == gate && #[trigger] lookup_post(states[n], states[n + 1], q, m, t, r);
                lemma_lookup_counted(states[n], states[n + 1], q, m, t, r);
            },
            None => {},
        }
    }
}

proof fn lemma_first_fuzzy_found(
    s: Seq<(Seq<u8>, CacheEntry)>,
    sig: Seq<u32>,
    min_matches: u32,
    ttl: u64,
    now: u64,
    i: int,
)
    requires
        0 <= i,
    ensures
        first_fuzzy(s, sig, min_matches, ttl, now, i) matches Some(k) ==> i <= k < s.len() && fuzzy_hit(
            s[k].1,
            sig,
            min_matches,
            ttl,
            now,
        ),
    decreases s.len() - i,
{
    if i < s.len() {
        lemma_first_fuzzy_found(s, sig, min_matches, ttl, now, i + 1);
    }
}

/// Gate 2 answers only from a stored entry that is fresh and similar enough,
/// and a lookup misses only when no stored entry is both: an answer at gate 2
/// is the response of an entry stored less than `ttl` ago whose signature
/// agrees with the query's in at least `min_matches` slots; after a miss at
/// gate 0, no stored entry is that fresh and that similar.
pub proof fn lemma_fuzzy_answers_similar(
    old: QueryCache,
    new: QueryCache,
    query: Seq<char>,
    min_matches: u32,
    now: u64,
    r: (u8, Option<String>),
)
    requires
        lookup_post(old, new, query, min_matches, now, r),
    ensures
        r.0 == 2 ==> exists|i: int|
            0 <= i < old.entries().len() && elapsed(now, (#[trigger] old.entries()[i]).1.inserted) < old.ttl()
                && agree_count(minhash(normalized_bytes(query)), old.entries()[i].1.sig@, NUM_PERM as int)
                >= min_matches && opt_view(r.1) == Some(old.entries()[i].1.response@),
        r.0 == 0 ==> forall|i: int|
            0 <= i < old.entries().len() && elapsed(now, (#[trigger] old.entries()[i]).1.inserted) < old.ttl()
                ==> agree_count(minhash(normalized_bytes(query)), old.entries()[i].1.sig@, NUM_PERM as int)
                < min_matches,
{
    let s = old.entries();
    let fp = fingerprint_of(query);
    let sig = minhash(normalized_bytes(query));
    let ttl = old.ttl();
    if !exact_hit(s, fp, ttl, now) {
        let s1 = after_exact_miss(s, fp);
        lemma_first_fuzzy_found(s1, sig, min_matches, ttl, now, 0);
        lemma_first_fuzzy_exists(s1, sig, min_matches, ttl, now, 0);
        lemma_first_fuzzy_exists(s, sig, min_matches, ttl, now, 0);
        if has_key(s, fp) {
            let p = key_pos(s, fp);
            assert(0 <= p < s.len());
            lemma_fuzzy_without_stale(s, p, sig, min_matches, ttl, now);
            if let Some(k) = first_fuzzy(s1, sig, min_matches, ttl, now, 0) {
                let j = if k < p { k } else { k + 1 };
                assert(s1[k] == s[j]);
            }
        }
        if r.0 == 0 {
            assert forall|i: int|
                0 <= i < s.len() && elapsed(now, (#[trigger] s[i]).1.inserted) < ttl implies agree_count(
                sig,
                s[i].1.sig@,
                NUM_PERM as int,
            ) < min_matches by {
                if agree_count(sig, s[i].1.sig@, NUM_PERM as int) >= min_matches {
                    assert(fuzzy_hit(s[i].1, sig, min_matches, ttl, now));
                    assert(some_fuzzy(s, sig, min_matches, ttl, now, 0));
                }
            }
        }
    }
}

} // verus!
