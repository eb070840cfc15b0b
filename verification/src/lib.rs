//! Sum-check protocol over prime fields, with the Lagrange-interpolation
//! machinery it is built from.

pub mod field;
pub mod hypercube;
pub mod inverse;
pub mod lagrange;
pub mod polynomial;
pub mod prime;
pub mod sumcheck;
