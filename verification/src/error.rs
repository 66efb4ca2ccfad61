//! The ways in which an operation of this library can fail.

use vstd::prelude::*;

verus! {

/// Every failure the library reports.
#[derive(Clone, Copy, Debug, PartialEq, Eq, Structural)]
pub enum Error {
    /// The modulus is below two, so the residues form no field.
    InvalidModulus,
    /// A term is not in canonical form: a power is zero or the variables do not strictly increase.
    MalformedTerm,
    /// A variable index is outside the polynomial's declared range.
    InvalidVariable,
    /// More than one variable is left where a single free variable was expected.
    NotUnivariate,
    /// A round was submitted after the protocol had run all of its rounds.
    TooManyRounds,
    /// The first round's commitment differs from the claimed sum.
    SumMismatch,
    /// A round's commitment differs from the previous round polynomial at the last challenge.
    RoundInconsistency,
    /// The last round polynomial differs from the polynomial of the claim at the challenges.
    FinalOracleMismatch,
    /// The transcript does not follow the schedule that both sides agreed on.
    TranscriptScheduleMismatch,
    /// A new session was requested while another one is active.
    SessionConflict,
}

} // verus!
