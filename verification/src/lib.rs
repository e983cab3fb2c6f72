//! Dense linear algebra, geometry and small numerical solvers over an
//! abstract scalar type.

pub mod scalar;
pub mod text;
pub mod complex;
pub mod matrix;
pub mod jit;
pub mod arch;
pub mod geometry;
pub mod tensor;
pub mod nn;
pub mod decompositions;
pub mod iterative_solvers;
