//! The Sum-Check protocol over the residues modulo a compile-time modulus, with
//! machine-checked contracts.
//!
//! A prover convinces a verifier that a multivariate polynomial sums to a claimed value
//! over the boolean hypercube. The check is reduced to one univariate polynomial per
//! variable, each bound to the next by a challenge.
//!
//! - `field`, `term`, `polynomial`, `univariate`, `equality`: residues, monomials and
//!   sparse polynomials, with the folding operations that bind variables.
//! - `hypercube`: how an index names a boolean point, and sums over the points.
//! - `roots`: how often two different polynomials over a prime field can agree.
//! - `sumcheck`: the prover and the verifier as state machines, with the theorems about
//!   them; the transcript-driven protocol; the message-driven actors.

pub mod equality;
pub mod error;
pub mod field;
pub mod hypercube;
pub mod polynomial;
pub mod roots;
pub mod sumcheck;
pub mod term;
pub mod univariate;
