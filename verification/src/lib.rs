//! A sum-check protocol engine over multilinear polynomials on the Boolean
//! hypercube, made non-interactive with a Fiat-Shamir transcript.
//!
//! A multilinear polynomial is held by its values on all `2^n` hypercube
//! corners; the prover reduces a claimed hypercube sum one variable per
//! round, deriving each round's challenge from a Keccak-256 transcript, and
//! the verifier replays the same transcript to check every round and a final
//! oracle query against the original polynomial.

use vstd::prelude::*;

pub mod field;
pub mod multilinear;
pub mod sumcheck;
pub mod transcript;

verus! {

/// Every failure the engine can report.
#[derive(Clone, Copy, Debug, PartialEq, Eq, Structural)]
pub enum Error {
    /// An evaluation form was given a number of values that is not a power of two.
    InvalidLength,
    /// The number of coordinates does not match the number of variables.
    DimensionMismatch,
    /// The prover's stated sum disagrees with the actual hypercube sum.
    InconsistentClaim,
    /// A round polynomial failed the verifier's consistency check; carries the round index.
    RoundConsistencyFailure(u32),
    /// The final evaluation of the original polynomial disagrees with the last claim.
    OracleMismatch,
}

} // verus!
