# cavity_bit_filter

A packed four-slot Cuckoo Filter whose full buckets carry a residual
relocation rank in the order of their fingerprint slot pairs, written in
Verus. Each bucket packs four nonzero `u16` fingerprints into one `u64`;
lookups compare the requested fingerprint with the eight slots of its two
candidate buckets, whatever rank a bucket encodes.

The library states its behaviour over a mathematical model: a filter is the
multiset of `(fingerprint, home bucket)` items it stores, and every operation
says what it does to that multiset. On top of that model it proves, among
other things, that a stored key is always found, that removing a key undoes
its insertion, that reordering a bucket never changes a query, that the
bucket codecs round-trip, and that the incremental insertion oracle and the
slot-matching threshold agree.

## Layout

- `src/` — the verified library
  - `bucket.rs`: packed buckets and their cavity, rank-4 and D4 codecs
  - `hash.rs`: SplitMix64, key parts, alternate buckets, fingerprint deltas
  - `config.rs`: policies, path-sketch configuration, insertion statistics
  - `choice.rs`: destination and victim choice rules of each policy
  - `path.rs`, `bfs.rs`: the path sketch and the breadth-first-search workspace
  - `filter.rs`: the filter, its insertion policies and dense preparation
  - `oracle.rs`: the exact insertion-threshold oracle and slot matching
  - `experiment.rs`: the integer core of the benchmark runs
  - `names.rs`: policy and configuration names and their parsers
  - `laws.rs`: properties that relate several operations
  - `capacity.rs`: the one trusted item, a vector's allocated capacity
- `tests/` — tests against the compiled library
- `app/` — the `cavity-bench` command line: argument handling, wall-clock
  timing, floating-point summaries and CSV output
