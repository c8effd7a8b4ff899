# fastloop_guard

The verified core of a query guard that sits between a client and an LLM. It
answers repeated or near-repeated queries from a cache through three gates:

- gate 1, exact: the BLAKE2b fingerprint of the query's normal form (whitespace
  collapsed, lower-cased) is looked up in an LRU cache with a time to live;
- gate 2, fuzzy: the query's MinHash signature (128 permutations over 3-byte
  shingles) is compared with those of the fresh entries, most recently used
  first;
- gate 0, miss.

A second component validates payloads bound for a sandbox (blocked patterns and
delimiter balance for Python and Rust, parsing for JSON), rate-limits sandboxes
with a sliding window, and remembers failing states.

Layout:

- `src/` is verified with Verus. `text`, `hash` and `similarity` define the
  normal form, the fingerprint and the signature; `store` declares the `lru`
  cache and states what its methods do; `cache` and `gate` hold the three-gate
  cache; `validator`, `rate_limiter`, `failure_tracker` and `engine` hold the
  sandbox guard; `assoc` holds the small string-keyed maps they use;
  `protocol` holds the request and response types.
- `app/` is the daemon: a Unix socket server (tokio) speaking JSON (serde). It
  supplies the clock that `Gate::handle` reads and turns similarity thresholds
  into slot counts.
- `tests/` runs the library on concrete inputs.

Times are nanoseconds on a clock that the caller supplies.
