use vstd::prelude::*;
use crate::assoc::{as_map, find, lemma_absent, lemma_lookup, lemma_push, lemma_remove, lemma_update, unique_keys};
use crate::cache::opt_view;

verus! {

/// Consecutive failures of a sandbox before this failure (zero when none is
/// recorded).
pub open spec fn prior_failures(counts: Map<Seq<char>, u32>, sandbox: Seq<char>) -> u32 {
    if counts.contains_key(sandbox) {
        counts[sandbox]
    } else {
        0
    }
}

/// What recording a failure of `sandbox` in state `state_hash` with `error`
/// does to tracker `old`, giving tracker `new` and answer `terminate`: the
/// error is remembered for the state, the sandbox's consecutive failures go up
/// by one, and the sandbox is to be terminated once they reach the maximum.
pub open spec fn failure_post(
    old: FailureTracker,
    new: FailureTracker,
    sandbox: Seq<char>,
    state_hash: Seq<char>,
    error: Seq<char>,
    terminate: bool,
) -> bool {
    let n = prior_failures(old.counts(), sandbox) + 1;
    &&& new.max_failures() == old.max_failures()
    &&& new.known() == old.known().insert(state_hash, error)
    &&& new.counts() == old.counts().insert(sandbox, n as u32)
    &&& terminate == (n >= old.max_failures())
}

/// What recording a success of `sandbox` does to tracker `old`, giving
/// tracker `new`: its consecutive failures are forgotten.
pub open spec fn success_post(old: FailureTracker, new: FailureTracker, sandbox: Seq<char>) -> bool {
    &&& new.max_failures() == old.max_failures()
    &&& new.known() == old.known()
    &&& new.counts() == old.counts().remove(sandbox)
}

pub struct FailureTracker {
    /// Consecutive failure counts per sandbox.
    counters: Vec<(String, u32)>,
    /// Hash of failing state to error message (dedup / fast-reject).
    failure_db: Vec<(String, String)>,
    max_failures: u32,
}

impl FailureTracker {
    /// Consecutive failure counts per sandbox.
    pub closed spec fn counts(self) -> Map<Seq<char>, u32> {
        as_map(self.counters@)
    }

    /// Error message of each known failing state, by state hash.
    pub closed spec fn known(self) -> Map<Seq<char>, Seq<char>> {
        as_map(self.failure_db@).map_values(|e: String| e@)
    }

    /// Failures in a row after which a sandbox is terminated.
    pub closed spec fn max_failures(self) -> u32 {
        self.max_failures
    }

    pub closed spec fn wf(self) -> bool {
        unique_keys(self.counters@) && unique_keys(self.failure_db@)
    }

    pub fn new(max_failures: u32) -> (t: Self)
        ensures
            t.wf(),
            t.counts() == Map::<Seq<char>, u32>::empty(),
            t.known() == Map::<Seq<char>, Seq<char>>::empty(),
            t.max_failures() == max_failures,
    {
        let t = FailureTracker { counters: Vec::new(), failure_db: Vec::new(), max_failures };
        assert(t.counts() =~= Map::<Seq<char>, u32>::empty());
        assert(t.known() =~= Map::<Seq<char>, Seq<char>>::empty());
        t
    }

    /// Record a failure. Returns `true` if the sandbox should be terminated.
    pub fn record_failure(&mut self, sandbox_id: &str, state_hash: &str, error: &str) -> (terminate: bool)
        requires
            old(self).wf(),
            prior_failures(old(self).counts(), sandbox_id@) < u32::MAX,
        ensures
            final(self).wf(),
            failure_post(*old(self), *final(self), sandbox_id@, state_hash@, error@, terminate),
    {
        let ghost old_db = self.failure_db@;
        let hash = state_hash.to_owned();
        let err = error.to_owned();
        match find(&self.failure_db, &hash) {
            Some(i) => {
                proof { lemma_update(old_db, i as int, hash, err); }
                self.failure_db.set(i, (hash, err));
            },
            None => {
                proof { lemma_push(old_db, hash, err); }
                self.failure_db.push((hash, err));
            },
        }
        assert(self.known() =~= old(self).known().insert(state_hash@, error@));
        let ghost old_c = self.counters@;
        let id = sandbox_id.to_owned();
        let count = match find(&self.counters, &id) {
            Some(i) => {
                proof { lemma_lookup(old_c, i as int); }
                let c = self.counters[i].1 + 1;
                proof { lemma_update(old_c, i as int, id, c); }
                self.counters.set(i, (id, c));
                c
            },
            None => {
                proof {
                    lemma_push(old_c, id, 1u32);
                    if as_map(old_c).contains_key(sandbox_id@) {
                        let j = choose|j: int| 0 <= j < old_c.len() && #[trigger] old_c[j].0@ == sandbox_id@;
                    }
                }
                self.counters.push((id, 1));
                1
            },
        };
        count >= self.max_failures
    }

    /// Record a success: resets the consecutive failure counter.
    pub fn record_success(&mut self, sandbox_id: &str)
        requires
            old(self).wf(),
        ensures
            final(self).wf(),
            success_post(*old(self), *final(self), sandbox_id@),
    {
        let ghost old_c = self.counters@;
        let id = sandbox_id.to_owned();
        match find(&self.counters, &id) {
            Some(i) => {
                proof { lemma_remove(old_c, i as int); }
                self.counters.remove(i);
            },
            None => {
                proof { lemma_absent(old_c, sandbox_id@); }
                assert(self.counts() =~= old(self).counts().remove(sandbox_id@));
            },
        }
    }

    /// The error recorded for a state hash, if it is a known failure.
    pub fn is_known_failure(&self, state_hash: &str) -> (r: Option<String>)
        requires
            self.wf(),
        ensures
            opt_view(r) == if self.known().contains_key(state_hash@) {
                Some(self.known()[state_hash@])
            } else {
                None
            },
    {
        let hash = state_hash.to_owned();
        match find(&self.failure_db, &hash) {
            Some(i) => {
                proof { lemma_lookup(self.failure_db@, i as int); }
                Some(self.failure_db[i].1.clone())
            },
            None => {
                proof { lemma_absent(self.failure_db@, state_hash@); }
                None
            },
        }
    }

    /// Consecutive failures recorded for a sandbox.
    pub fn failures(&self, sandbox_id: &str) -> (n: u32)
        requires
            self.wf(),
        ensures
            n == prior_failures(self.counts(), sandbox_id@),
    {
        let id = sandbox_id.to_owned();
        match find(&self.counters, &id) {
            Some(i) => {
                proof { lemma_lookup(self.counters@, i as int); }
                self.counters[i].1
            },
            None => {
                proof { lemma_absent(self.counters@, sandbox_id@); }
                0
            },
        }
    }
}

/// A success resets the sandbox's count: its next failure is its first.
pub proof fn lemma_success_resets(old: FailureTracker, new: FailureTracker, sandbox: Seq<char>)
    requires
        success_post(old, new, sandbox),
    ensures
        prior_failures(new.counts(), sandbox) == 0,
{
}

/// Each failure adds one to its own sandbox's count and leaves every other
/// sandbox's count as it was.
pub proof fn lemma_failures_counted_per_sandbox(
    old: FailureTracker,
    new: FailureTracker,
    sandbox: Seq<char>,
    state_hash: Seq<char>,
    error: Seq<char>,
    terminate: bool,
    other: Seq<char>,
)
    requires
        failure_post(old, new, sandbox, state_hash, error, terminate),
        prior_failures(old.counts(), sandbox) < u32::MAX,
    ensures
        prior_failures(new.counts(), sandbox) == prior_failures(old.counts(), sandbox) + 1,
        other != sandbox ==> prior_failures(new.counts(), other) == prior_failures(old.counts(), other),
{
}

/// After a failure is recorded for a state, the state is a known failure with
/// that error.
pub proof fn lemma_failure_becomes_known(
    old: FailureTracker,
    new: FailureTracker,
    sandbox: Seq<char>,
    state_hash: Seq<char>,
    error: Seq<char>,
    terminate: bool,
)
    requires
        failure_post(old, new, sandbox, state_hash, error, terminate),
    ensures
        new.known().contains_key(state_hash),
        new.known()[state_hash] == error,
{
}

} // verus!
