use vstd::prelude::*;
use crate::assoc::{as_map, find, lemma_absent, lemma_lookup, lemma_push, lemma_update, unique_keys};

verus! {

/// The timestamps of `ts` that lie within the window ending at `now`: later
/// than `now - window`, in their order.
pub open spec fn recent(ts: Seq<u64>, now: u64, window: u64) -> Seq<u64>
    decreases ts.len(),
{
    if ts.len() == 0 {
        Seq::empty()
    } else {
        let r = recent(ts.drop_last(), now, window);
        if ts.last() > now - window {
            r.push(ts.last())
        } else {
            r
        }
    }
}

proof fn lemma_recent_len(ts: Seq<u64>, now: u64, window: u64)
    ensures
        recent(ts, now, window).len() <= ts.len(),
    decreases ts.len(),
{
    if ts.len() > 0 {
        lemma_recent_len(ts.drop_last(), now, window);
    }
}

/// The window ending at `now` keeps exactly the timestamps later than
/// `now - window`: each kept timestamp is one of `ts` inside the window, and
/// each of `ts` inside the window is kept. Nothing is added.
pub proof fn lemma_recent_members(ts: Seq<u64>, now: u64, window: u64)
    ensures
        forall|x: u64| #[trigger] recent(ts, now, window).contains(x) <==> (ts.contains(x) && x > now - window),
        recent(ts, now, window).len() <= ts.len(),
    decreases ts.len(),
{
    lemma_recent_len(ts, now, window);
    if ts.len() > 0 {
        let t = ts.drop_last();
        lemma_recent_members(t, now, window);
        let r = recent(t, now, window);
        assert forall|x: u64| #[trigger] recent(ts, now, window).contains(x) <==> (ts.contains(x) && x > now
            - window) by {
            if ts.contains(x) {
                let k = choose|k: int| 0 <= k < ts.len() && ts[k] == x;
                if k < ts.len() - 1 {
                    assert(t[k] == x);
                    assert(t.contains(x));
                }
            }
            if t.contains(x) {
                let k = choose|k: int| 0 <= k < t.len() && t[k] == x;
                assert(ts[k] == x);
            }
            if r.contains(x) {
                let k = choose|k: int| 0 <= k < r.len() && r[k] == x;
                assert(r.push(ts.last())[k] == x);
            }
            if r.push(ts.last()).contains(x) {
                let k = choose|k: int| 0 <= k < r.len() + 1 && r.push(ts.last())[k] == x;
                if k < r.len() {
                    assert(r[k] == x);
                }
            }
            assert(ts[ts.len() - 1] == ts.last());
            assert(r.push(ts.last())[r.len() as int] == ts.last());
        }
    }
}

/// What a check of sandbox `id` at time `now` does to limiter `old`, giving
/// limiter `new` and answer `limited`: the sandbox's timestamps outside the
/// window are dropped; the request is limited when `max_requests` remain, and
/// otherwise let through and its time recorded.
pub open spec fn check_post(
    old: SlidingWindowLimiter,
    new: SlidingWindowLimiter,
    id: Seq<char>,
    now: u64,
    limited: bool,
) -> bool {
    let kept = recent(old.history(id), now, old.window_duration());
    &&& new.max_requests() == old.max_requests()
    &&& new.window_duration() == old.window_duration()
    &&& limited == (kept.len() >= old.max_requests())
    &&& new.windows() == old.windows().insert(id, if limited { kept } else { kept.push(now) })
}

/// A sliding-window rate limiter: each sandbox may make `max_requests`
/// requests within any window of `window` nanoseconds.
pub struct SlidingWindowLimiter {
    windows: Vec<(String, Vec<u64>)>,
    max_requests: usize,
    window_duration: u64,
}

impl SlidingWindowLimiter {
    /// Timestamps of the requests let through, per sandbox, oldest first.
    pub closed spec fn windows(self) -> Map<Seq<char>, Seq<u64>> {
        as_map(self.windows@).map_values(|v: Vec<u64>| v@)
    }

    pub closed spec fn max_requests(self) -> usize {
        self.max_requests
    }

    pub closed spec fn window_duration(self) -> u64 {
        self.window_duration
    }

    /// The timestamps kept for `id` (none when it has made no request).
    pub open spec fn history(self, id: Seq<char>) -> Seq<u64> {
        if self.windows().contains_key(id) {
            self.windows()[id]
        } else {
            Seq::empty()
        }
    }

    /// No sandbox ever holds more than `max_requests` timestamps.
    pub closed spec fn wf(self) -> bool {
        &&& unique_keys(self.windows@)
        &&& forall|i: int| 0 <= i < self.windows@.len() ==> #[trigger] self.windows@[i].1@.len() <= self.max_requests
    }

    /// No sandbox ever has more than `max_requests` requests within one window.
    pub proof fn lemma_window_bounded(self, id: Seq<char>)
        requires
            self.wf(),
        ensures
            self.history(id).len() <= self.max_requests(),
    {
        if self.windows().contains_key(id) {
            let i = choose|i: int| 0 <= i < self.windows@.len() && #[trigger] self.windows@[i].0@ == id;
            lemma_lookup(self.windows@, i);
        }
    }

    pub fn new(max_requests: usize, window_duration: u64) -> (l: Self)
        ensures
            l.wf(),
            l.windows() == Map::<Seq<char>, Seq<u64>>::empty(),
            l.max_requests() == max_requests,
            l.window_duration() == window_duration,
    {
        let l = SlidingWindowLimiter { windows: Vec::new(), max_requests, window_duration };
        assert(l.windows() =~= Map::<Seq<char>, Seq<u64>>::empty());
        l
    }

    fn keep_recent(ts: &Vec<u64>, now: u64, window: u64) -> (r: Vec<u64>)
        ensures
            r@ == recent(ts@, now, window),
    {
        let mut r: Vec<u64> = Vec::new();
        let mut i: usize = 0;
        while i < ts.len()
            invariant
                i <= ts@.len(),
                r@ == recent(ts@.take(i as int), now, window),
            decreases ts@.len() - i,
        {
            assert(ts@.take(i + 1).drop_last() =~= ts@.take(i as int));
            let t = ts[i];
            if now < window || t > now - window {
                r.push(t);
            }
            i = i + 1;
        }
        assert(ts@.take(i as int) =~= ts@);
        r
    }

    /// Whether a check of `id` at time `now` would be limited; nothing changes.
    pub fn would_limit(&self, id: &str, now: u64) -> (limited: bool)
        requires
            self.wf(),
        ensures
            limited == (recent(self.history(id@), now, self.window_duration()).len() >= self.max_requests()),
    {
        let key = id.to_owned();
        match find(&self.windows, &key) {
            Some(i) => {
                proof { lemma_lookup(self.windows@, i as int); }
                let kept = Self::keep_recent(&self.windows[i].1, now, self.window_duration);
                kept.len() >= self.max_requests
            },
            None => {
                proof { lemma_absent(self.windows@, id@); }
                0 >= self.max_requests
            },
        }
    }

    /// Returns `true` if the request is rate-limited (over limit). Timestamps
    /// older than the window are dropped first; the request is let through,
    /// and its time `now` recorded, when fewer than `max_requests` remain.
    pub fn check(&mut self, id: &str, now: u64) -> (limited: bool)
        requires
            old(self).wf(),
        ensures
            final(self).wf(),
            check_post(*old(self), *final(self), id@, now, limited),
    {
        let ghost old_w = self.windows@;
        let key = id.to_owned();
        let found = find(&self.windows, &key);
        let mut kept = match found {
            Some(i) => {
                proof { lemma_lookup(old_w, i as int); }
                Self::keep_recent(&self.windows[i].1, now, self.window_duration)
            },
            None => {
                proof { lemma_absent(old_w, id@); }
                Vec::new()
            },
        };
        let ghost prior = old(self).history(id@);
        proof {
            lemma_recent_len(prior, now, self.window_duration);
            if found is None {
                assert(kept@ =~= recent(prior, now, self.window_duration));
            }
        }
        let limited = kept.len() >= self.max_requests;
        if !limited {
            kept.push(now);
        }
        let ghost new_ts = kept@;
        match found {
            Some(i) => {
                proof { lemma_update(old_w, i as int, key, kept); }
                self.windows.set(i, (key, kept));
            },
            None => {
                proof { lemma_push(old_w, key, kept); }
                self.windows.push((key, kept));
            },
        }
        proof {
            let w = self.windows@;
            assert forall|i: int| 0 <= i < w.len() implies #[trigger] w[i].1@.len() <= self.max_requests by {
                if w[i].0@ != id@ {
                    if found matches Some(f) {
                        assert(w[i] == old_w[i]);
                    } else {
                        assert(w[i] == old_w[i]);
                    }
                }
            }
            assert(self.windows() =~= old(self).windows().insert(id@, new_ts));
        }
        limited
    }
}

/// A request that is let through is remembered: its time stays among the
/// sandbox's recent requests for every later check whose window still covers
/// it, and counts against that check's limit.
pub proof fn lemma_admitted_request_counts(
    old: SlidingWindowLimiter,
    new: SlidingWindowLimiter,
    id: Seq<char>,
    now: u64,
    later: u64,
)
    requires
        check_post(old, new, id, now, false),
        now > later - new.window_duration(),
    ensures
        new.history(id).contains(now),
        recent(new.history(id), later, new.window_duration()).contains(now),
{
    let kept = recent(old.history(id), now, old.window_duration());
    assert(new.history(id) == kept.push(now));
    assert(kept.push(now)[kept.len() as int] == now);
    lemma_recent_members(new.history(id), later, new.window_duration());
}

} // verus!
