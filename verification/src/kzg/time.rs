//! The committer key held in memory.
use crate::group::{G1Point, G2Point};
use vstd::prelude::*;

verus! {

/// The key of the committer: the powers of the secret in the first group, from
/// the power zero up, and the powers that the verifier needs in the second.
#[derive(Clone, Debug, PartialEq, Eq)]
pub struct CommitterKey {
    /// The powers of the secret in the first group, lowest first.
    pub powers_of_g: Vec<G1Point>,
    /// The powers of the secret in the second group.
    pub powers_of_g2: Vec<G2Point>,
}

} // verus!
