use vstd::prelude::*;

verus! {

/// The failures that the algebra and the schemes built on it report.
#[derive(Debug, Clone, Copy, PartialEq, Eq, Structural)]
pub enum AlgebraError {
    /// A binary operation on elements of different parents.
    DomainMismatch,
    /// An inverse of a non-unit was requested.
    NotInvertible,
    /// Euclidean division by the zero polynomial.
    DivByZeroPoly,
    /// The operation needs the other coefficient basis.
    BadBasis,
    /// Parameters that break a construction's preconditions.
    BadParameters,
    /// A shape or length rule is broken.
    LengthMismatch,
    /// A plaintext exceeds what the scheme can represent.
    ParameterOverflow,
}

} // verus!
