//! A paged Bloom filter driven by a custom 128-bit hash.
//!
//! `hash` holds the hash and its model; `pbf` holds the filter, its abstract
//! state, and the laws that `set`, `test` and `recover` obey.

pub mod hash;
pub mod pbf;
