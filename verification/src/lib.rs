//! Verified permutation tables and lattice hashing for a Perlin-style noise field.

pub mod lattice;
pub mod perlin;
pub mod permutation;
pub mod random;
