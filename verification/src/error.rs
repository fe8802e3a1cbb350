//! Why an input is turned down.
use vstd::prelude::*;

verus! {

/// The reasons for which an input is turned down.
#[derive(Clone, Copy, Debug, PartialEq, Eq, Structural)]
pub enum TaylorError {
    /// The truncation order `m` is zero.
    ZeroOrder,
    /// The number of coordinates `n` is zero.
    ZeroCoordinates,
    /// A range of the parity check is active and has `end < start`, or ends
    /// after the last coordinate.
    MalformedModChecks,
    /// A range of the equality check is active and has `end < start`, or
    /// ends after the last coordinate.
    MalformedEqChecks,
    /// There are more index tuples of `n` digits in base `m` than a `usize`
    /// can count.
    TooManyTuples,
    /// The Taylor set is empty, so it has no row to take the number of
    /// coordinates from.
    NoTerms,
    /// The rows of the Taylor set differ in length.
    RaggedRows,
    /// A digit of the Taylor set is too large for an exponent.
    DigitTooLarge,
    /// The number of energies is not the number of displacements.
    EnergyCountMismatch,
}

impl TaylorError {
    /// A sentence that tells the caller what was wrong.
    pub fn message(&self) -> (text: String)
        ensures
            text@ == match *self {
                TaylorError::ZeroOrder => "the truncation order must be at least 1"@,
                TaylorError::ZeroCoordinates => "the number of coordinates must be at least 1"@,
                TaylorError::MalformedModChecks =>
                    "a range of the mod checks is empty or ends after the last coordinate"@,
                TaylorError::MalformedEqChecks =>
                    "a range of the eq checks is empty or ends after the last coordinate"@,
                TaylorError::TooManyTuples => "the number of index tuples does not fit in usize"@,
                TaylorError::NoTerms => "the Taylor set is empty"@,
                TaylorError::RaggedRows => "the rows of the Taylor set differ in length"@,
                TaylorError::DigitTooLarge => "a digit of the Taylor set does not fit in i32"@,
                TaylorError::EnergyCountMismatch =>
                    "there must be one energy for each displacement"@,
            },
    {
        match self {
            TaylorError::ZeroOrder => "the truncation order must be at least 1".to_owned(),
            TaylorError::ZeroCoordinates => "the number of coordinates must be at least 1".to_owned(),
            TaylorError::MalformedModChecks =>
                "a range of the mod checks is empty or ends after the last coordinate".to_owned(),
            TaylorError::MalformedEqChecks =>
                "a range of the eq checks is empty or ends after the last coordinate".to_owned(),
            TaylorError::TooManyTuples =>
                "the number of index tuples does not fit in usize".to_owned(),
            TaylorError::NoTerms => "the Taylor set is empty".to_owned(),
            TaylorError::RaggedRows => "the rows of the Taylor set differ in length".to_owned(),
            TaylorError::DigitTooLarge =>
                "a digit of the Taylor set does not fit in i32".to_owned(),
            TaylorError::EnergyCountMismatch =>
                "there must be one energy for each displacement".to_owned(),
        }
    }
}

} // verus!
