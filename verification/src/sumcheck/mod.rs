//! The sumcheck protocol for twisted scalar products.
pub mod equivalence;
pub mod prover;
pub mod space_prover;
pub mod streams;
pub mod time_prover;
pub mod tree;
