//! Basis functions and the transforms between physical and spectral space.
pub mod chebyshev;
pub mod composite;
pub mod fourier;
