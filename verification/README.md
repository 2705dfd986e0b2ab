# bloom_filter_rs

Bloom filters with contracts proved by Verus.

- `src/hash.rs` — FNV-1a and double hashing; results are stated as spec functions.
- `src/classic.rs` — bit-array Bloom filter, modelled as a sequence of booleans.
- `src/counting.rs` — counting Bloom filter with saturating `u8` counters.
- `src/scalable.rs` — a growing chain of classic filters; the caller supplies the size
  of each new partition.
- `app/` — the floating-point sizing (`optimal_m`, `optimal_k`, `estimate_fpr`), the
  constructors that take a false-positive rate, and the rate-aware scalable filter.

Each module also states its laws as proof functions: no false negatives over any
sequence of insertions, membership in closed form, inserting only ever adds to a
filter, removal of a held item keeps the rest reported and lowers the count by one,
new filters report nothing, and the number of scalable partitions after N insertions.
