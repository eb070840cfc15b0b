//! Lagrange bases and interpolation: over the points `0..n` of a line, and
//! over the boolean hypercube.

pub mod multivariate;
pub mod univariate;

use vstd::prelude::*;

verus! {

/// Why a Lagrange basis over a line could not be built or evaluated.
#[derive(Clone, Copy, Debug, PartialEq, Eq)]
pub enum LagrangeError {
    /// The index of the basis polynomial is not below the size of the domain.
    InvalidDomainIndex,
    /// Two points of the domain are the same element of the field, so a
    /// denominator of the basis polynomial is zero.
    DegenerateBasis,
}

} // verus!
