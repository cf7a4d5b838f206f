//! Loading of hash-database shards as BLS12-381 scalar field elements.
//!
//! A shard directory holds fixed-size records; each record starts with a
//! 32-byte little-endian hash, which is reduced into the scalar field.
//! The library decides which directory entries are shards, in which order
//! they are read, and how their bytes become scalars; reading the directory
//! itself is left to the caller.
use vstd::prelude::*;

pub mod entry;
pub mod laws;
pub mod scalar;
pub mod shard;

verus! {

} // verus!
