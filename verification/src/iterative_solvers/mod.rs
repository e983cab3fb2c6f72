//! Iterative solvers for `A x = b`.

pub mod bicgstab;
pub mod conjugate_gradient;
pub mod flat;
pub mod traits;
