//! A recursive, systematic, expander-style linear code over the BN254 scalar
//! field.
//!
//! Each recursive layer pairs adjacent coordinates of its input, compresses
//! every pair into one field element with hash-derived coefficients, encodes
//! the shorter vector recursively, maps the result through two sparse
//! matrices `A` and `B`, and emits `[x || B * (A * inner)]`.
//!
//! The modules hold the field helpers, the sampled bipartite graphs, the
//! sparse matrices built from them, the encoder, layer construction, the
//! trace verifiers used by the experiments, and the sampling check of the
//! demo.

mod clock;
pub mod demo;
pub mod encoder;
pub mod expander;
pub mod experiment;
pub mod field;
pub mod graph;
pub mod matrix;
mod rng;
