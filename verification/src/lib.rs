//! Bloom filters whose operations are specified over mathematical models
//! and verified with Verus.
//!
//! - `classic`: the standard Bloom filter over a packed bit array.
//! - `counting`: a Bloom filter with saturating `u8` counters, supporting removal.
//! - `scalable`: a chain of classic filters that grows as partitions fill up.
//! - `hash`: FNV-1a and the double-hashing scheme that derives the probe indices.
//!
//! Choosing the number of bits and hash functions for a target
//! false-positive rate is floating-point arithmetic and happens outside this
//! crate; the constructors here take those numbers directly.

pub mod classic;
pub mod counting;
pub mod hash;
pub mod scalable;

pub use classic::BloomFilter;
pub use counting::CountingBloomFilter;
pub use hash::{fnv1a, hash_indices};
pub use scalable::ScalableBloomFilter;
