//! Spectral-method building blocks: orthogonal and composite bases,
//! banded direct solvers, and the tensor solver that combines them.
//!
//! All numerical kernels work over an exact rational scalar, so every
//! algebraic claim in a contract is an exact statement about the values
//! computed. Quantities that are irrational by nature (cosine tables for
//! the discrete cosine transform, eigendecompositions) enter as data,
//! prepared by the caller to whatever precision is wanted.
use vstd::prelude::*;

pub mod bases;
pub mod integrate;
pub mod linalg;
pub mod persist;
pub mod rational;
pub mod solver;

verus! {

} // verus!
