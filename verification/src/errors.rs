//! The error taxonomy of the library: all failures are local, synchronous
//! precondition violations, signalled at the point of violation and never
//! retried.

use vstd::prelude::*;

verus! {

/// Why a computation was refused.
#[derive(Clone, Copy, Debug, PartialEq, Eq, Structural)]
pub enum MathError {
    /// An argument is outside the function's domain (an even Jacobi modulus,
    /// a perfect-power query on `n <= 1` or `power <= 1`, more primality
    /// witnesses requested than the range holds).
    InvalidArgument,
    /// Polynomial division by the zero polynomial.
    DivisionByZero,
    /// The result cannot be held by the result type (a quotient coefficient
    /// that is not an exact integer, or a value past the machine range).
    Unrepresentable,
}

} // verus!
