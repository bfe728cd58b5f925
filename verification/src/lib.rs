//! Streaming provers and polynomial commitments over the BLS12-381 scalar field.
//!
//! The crate holds a sumcheck prover for twisted scalar products in two forms, one
//! that keeps its vectors in memory and one that reads them as streams, and a
//! streaming commitment engine that commits to and opens polynomials given as
//! coefficient streams.
pub mod algebra;
pub mod field;
pub mod group;
pub mod iterable;
pub mod kzg;
pub mod misc;
pub mod polynomial;
pub mod sumcheck;
