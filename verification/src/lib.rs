//! Recovery of the account hidden behind a blinded KZG-style polynomial
//! commitment.
//!
//! Given a public setup (a structured reference string), a set of candidate
//! account polynomials in evaluation form, two challenge points with their
//! claimed openings, and a target commitment, the library solves a small
//! linear system over the BLS12-381 scalar field to recover the degree-one
//! blinding polynomial consistent with each candidate, re-blinds the
//! candidate, commits it, and reports the first candidate whose commitment
//! equals the target.
use vstd::prelude::*;

pub mod domain;
pub mod field;
pub mod kzg;
pub mod layout;
pub mod matcher;
pub mod poly;
pub mod solver;

verus! {

/// Failure conditions of the recovery pipeline.
#[derive(Debug, PartialEq, Eq, Structural, Clone, Copy)]
pub enum Error {
    /// An input byte string is not a canonical encoding of a field or group
    /// element, or a sequence has the wrong length.
    LoadError,
    /// No multiplicative subgroup of the requested size exists in the scalar
    /// field.
    UnsupportedDomainSize,
    /// A challenge point lies inside the evaluation domain, so the vanishing
    /// polynomial evaluates to zero there.
    DegenerateChallenge,
    /// The two challenge points coincide.
    DivisionByZero,
    /// A polynomial's degree exceeds what the setup supports.
    DegreeTooLarge,
}

} // verus!
