//! The interface shared by the iterative solvers.

use crate::matrix::Matrix;
use crate::scalar::Scalar;
use vstd::prelude::*;

verus! {

/// An iterative solver of `A x = b` for a square matrix `A`.
pub trait IterativeSolver<T: Scalar> {
    /// Whether a solve with right-hand side `b` can run: a matrix has been
    /// given and its order is the number of rows of `b`.
    spec fn ready_for(&self, b: Matrix<T>) -> bool;

    /// Stores the matrix `A` of the system.
    fn compute(&mut self, matrix: &Matrix<T>)
        requires
            matrix.wf(),
    ;

    /// Solves `A x = b` starting from `x = 0`.
    fn solve(&mut self, b: &Matrix<T>) -> (x: Matrix<T>)
        requires
            b.wf(),
            old(self).ready_for(*b),
    ;

    /// Solves `A x = b` starting from the guess `x0`.
    fn solve_with_guess(&mut self, b: &Matrix<T>, x0: &Matrix<T>) -> (x: Matrix<T>)
        requires
            b.wf(),
            x0.wf(),
            x0.same_shape(b),
            old(self).ready_for(*b),
    ;

    /// The number of iterations of the last solve.
    fn iterations(&self) -> usize;

    /// The residual norm estimated by the last solve.
    fn error(&self) -> T;
}

} // verus!
