//! Matrix decompositions.

pub mod bdc_svd;
pub mod bidiagonal;
pub mod complex_eigen_solver;
pub mod complex_schur;
pub mod eigen_solver;
pub mod generalized_eigen_solver;
pub mod generalized_hessenberg;
pub mod generalized_selfadjoint;
pub mod hessenberg;
pub mod ldlt;
pub mod llt;
pub mod llt_blocks;
pub mod lu;
pub mod qr;
pub mod schur;
pub mod selfadjoint_eigen;
pub mod svd;
pub mod tridiagonal;
