//! Exact-arithmetic library: integer number-theoretic primitives (greatest
//! common divisor by the Euclidean and binary algorithms, modular
//! exponentiation, the Jacobi symbol, perfect-power detection) and a dense
//! polynomial algebra with addition, subtraction, multiplication, scalar
//! operations, evaluation and long division, topped by three probabilistic
//! primality tests.

pub mod divisibility;
pub mod errors;
pub mod polynomial;
pub mod primality;
pub mod utils;
