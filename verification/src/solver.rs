//! Direct solvers: the banded four-diagonal solver, the tensor solver
//! that extends it to several coupled axes, and the Poisson solver
//! assembled on top of them.
pub mod fdma;
pub mod fdma_tensor;
pub mod poisson;
