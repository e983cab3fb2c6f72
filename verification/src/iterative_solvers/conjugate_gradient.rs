//! The conjugate gradient method for self-adjoint positive definite
//! systems.

use crate::iterative_solvers::flat::{
    add_scaled, add_scaled_vec, apply, copy_vec, difference, difference_vec, dot, dot_vec,
    product_flat, sub_scaled, sub_scaled_vec, to_matrix,
};
use crate::iterative_solvers::traits::IterativeSolver;
use crate::matrix::Matrix;
use crate::scalar::Scalar;
use vstd::prelude::*;

verus! {

/// The iterations of the method from iteration `i` on, with iterate `x`,
/// residual `r`, search direction `p`, squared residual norm `rs_old`, and
/// the iteration count and error recorded so far. Returns the final
/// iterate, iteration count and error.
///
/// Each iteration computes `Ap`, stops (counting the iteration) when
/// `|p . Ap|` is below the breakdown threshold, steps `x += alpha p`,
/// `r -= alpha Ap` with `alpha = rs_old / (p . Ap)`, records the new
/// residual norm, stops when its square is below `tol_sq`, and otherwise
/// continues with the direction `p = r + (rs_new / rs_old) p`.
pub open spec fn cg_loop<T: Scalar>(
    a: Matrix<T>,
    rows: nat,
    tol_sq: T,
    max: nat,
    i: nat,
    x: Seq<T>,
    r: Seq<T>,
    p: Seq<T>,
    rs_old: T,
    iters: nat,
    err: T,
) -> (Seq<T>, nat, T)
    decreases max - i,
{
    if i >= max {
        (x, iters, err)
    } else {
        let ap = product_flat(a, p, rows);
        let p_ap = dot(p, ap);
        if p_ap.spec_abs().spec_lt(T::spec_breakdown_threshold()) {
            (x, i + 1, err)
        } else {
            let alpha = rs_old.spec_over(p_ap);
            let x2 = add_scaled(x, alpha, p);
            let r2 = sub_scaled(r, alpha, ap);
            let rs_new = dot(r2, r2);
            if rs_new.spec_lt(tol_sq) {
                (x2, i + 1, rs_new.spec_sqrt())
            } else {
                let p2 = add_scaled(r2, rs_new.spec_over(rs_old), p);
                cg_loop(a, rows, tol_sq, max, i + 1, x2, r2, p2, rs_new, i + 1, rs_new.spec_sqrt())
            }
        }
    }
}

/// The final iterate, iteration count and error of the method on `A x = b`
/// from the guess `x0` (all column-major with `rows` rows), with tolerance
/// `tol` and at most `max` iterations. The initial residual is `b - A x0`;
/// when its squared norm is already below `tol^2`, `x0` is returned after
/// no iteration.
pub open spec fn cg_result<T: Scalar>(
    a: Matrix<T>,
    b: Seq<T>,
    x0: Seq<T>,
    rows: nat,
    tol: T,
    max: nat,
) -> (Seq<T>, nat, T) {
    let r = difference(b, product_flat(a, x0, rows));
    let rs = dot(r, r);
    let tol_sq = tol.spec_times(tol);
    if rs.spec_lt(tol_sq) {
        (x0, 0, rs.spec_sqrt())
    } else {
        cg_loop(a, rows, tol_sq, max, 0, x0, r, r, rs, 0, rs.spec_sqrt())
    }
}

/// Runs the method; returns the final iterate, iteration count and error.
fn cg_run<T: Scalar>(a: &Matrix<T>, b: &Matrix<T>, x0: &Matrix<T>, tol: T, max_iter: usize) -> (r: (
    Matrix<T>,
    usize,
    T,
))
    requires
        a.wf(),
        b.wf(),
        x0.wf(),
        a.nrows() == b.nrows(),
        a.ncols() == b.nrows(),
        x0.same_shape(b),
    ensures
        r.0.wf(),
        r.0.same_shape(b),
        (r.0.elems(), r.1 as nat, r.2) == cg_result(
            *a,
            b.elems(),
            x0.elems(),
            b.nrows(),
            tol,
            max_iter as nat,
        ),
{
    let rows = b.rows();
    let cols = b.cols();
    let _size = b.size();
    let ghost target = cg_result(*a, b.elems(), x0.elems(), rows as nat, tol, max_iter as nat);
    let bv = b.copy().into_data();
    let mut x = x0.copy().into_data();
    let ax = apply(a, &x, rows, cols);
    let mut r = difference_vec(&bv, &ax);
    let mut p = copy_vec(&r);
    let mut rs_old = dot_vec(&r, &r);
    let tol_sq = tol.times(tol);
    let mut iters: usize = 0;
    let mut err = rs_old.sqrt();
    if rs_old.is_lt(tol_sq) {
        return (to_matrix(x, rows, cols), iters, err);
    }
    let mut i: usize = 0;
    while i < max_iter
        invariant_except_break
            a.wf(),
            a.nrows() == rows,
            a.ncols() == rows,
            b.nrows() == rows,
            b.ncols() == cols,
            x@.len() == rows * cols,
            r@.len() == rows * cols,
            p@.len() == rows * cols,
            i <= max_iter,
            tol_sq == tol.spec_times(tol),
            cg_loop(*a, rows as nat, tol_sq, max_iter as nat, i as nat, x@, r@, p@, rs_old, iters as nat, err)
                == target,
        ensures
            x@.len() == rows * cols,
            (x@, iters as nat, err) == target,
        decreases max_iter - i,
    {
        let ap = apply(a, &p, rows, cols);
        let p_ap = dot_vec(&p, &ap);
        iters = i + 1;
        if p_ap.abs().is_lt(T::breakdown_threshold()) {
            break;
        }
        let alpha = rs_old.over(p_ap);
        x = add_scaled_vec(&x, alpha, &p);
        r = sub_scaled_vec(&r, alpha, &ap);
        let rs_new = dot_vec(&r, &r);
        err = rs_new.sqrt();
        if rs_new.is_lt(tol_sq) {
            break;
        }
        let beta = rs_new.over(rs_old);
        p = add_scaled_vec(&r, beta, &p);
        rs_old = rs_new;
        i = i + 1;
    }
    (to_matrix(x, rows, cols), iters, err)
}

/// A conjugate gradient solver for self-adjoint positive definite systems.
pub struct ConjugateGradient<T> {
    max_iterations: usize,
    tolerance: T,
    iterations: usize,
    error: T,
    matrix: Option<Matrix<T>>,
}

impl<T: Scalar> ConjugateGradient<T> {
    /// The largest number of iterations of a solve.
    pub closed spec fn max_iters(&self) -> nat {
        self.max_iterations as nat
    }

    /// The stopping tolerance on the residual norm.
    pub closed spec fn tol(&self) -> T {
        self.tolerance
    }

    /// The iteration count of the last solve.
    pub closed spec fn last_iterations(&self) -> nat {
        self.iterations as nat
    }

    /// The error of the last solve.
    pub closed spec fn last_error(&self) -> T {
        self.error
    }

    /// The matrix of the system, once given.
    pub closed spec fn system(&self) -> Option<Matrix<T>> {
        self.matrix
    }

    /// A solver with at most 1000 iterations, the default tolerance, no
    /// iteration done, error zero and no matrix yet.
    pub fn new() -> (s: Self)
        ensures
            s.max_iters() == 1000,
            s.tol() == T::spec_default_tolerance(),
            s.last_iterations() == 0,
            s.last_error() == T::spec_zero(),
            s.system() is None,
    {
        ConjugateGradient {
            max_iterations: 1000,
            tolerance: T::default_tolerance(),
            iterations: 0,
            error: T::zero(),
            matrix: None,
        }
    }

    /// Sets the largest number of iterations.
    pub fn with_max_iterations(self, max_iter: usize) -> (s: Self)
        ensures
            s.max_iters() == max_iter,
            s.tol() == self.tol(),
            s.last_iterations() == self.last_iterations(),
            s.last_error() == self.last_error(),
            s.system() == self.system(),
    {
        let mut s = self;
        s.max_iterations = max_iter;
        s
    }

    /// Sets the stopping tolerance.
    pub fn with_tolerance(self, tolerance: T) -> (s: Self)
        ensures
            s.max_iters() == self.max_iters(),
            s.tol() == tolerance,
            s.last_iterations() == self.last_iterations(),
            s.last_error() == self.last_error(),
            s.system() == self.system(),
    {
        let mut s = self;
        s.tolerance = tolerance;
        s
    }
}

impl<T: Scalar> IterativeSolver<T> for ConjugateGradient<T> {
    /// A square matrix whose order is the number of rows of `b` has been
    /// given.
    open spec fn ready_for(&self, b: Matrix<T>) -> bool {
        &&& self.system() is Some
        &&& self.system().unwrap().wf()
        &&& self.system().unwrap().nrows() == b.nrows()
        &&& self.system().unwrap().ncols() == b.nrows()
    }

    /// Keeps a copy of `matrix`; the settings and the last results stay.
    fn compute(&mut self, matrix: &Matrix<T>)
        ensures
            final(self).system() is Some,
            final(self).system().unwrap().wf(),
            final(self).system().unwrap().same_shape(matrix),
            final(self).system().unwrap().elems() == matrix.elems(),
            final(self).max_iters() == old(self).max_iters(),
            final(self).tol() == old(self).tol(),
            final(self).last_iterations() == old(self).last_iterations(),
            final(self).last_error() == old(self).last_error(),
    {
        self.matrix = Some(matrix.copy());
    }

    /// Solves from the zero guess; records the iteration count and error.
    fn solve(&mut self, b: &Matrix<T>) -> (x: Matrix<T>)
        ensures
            ({
                let res = cg_result(
                    old(self).system().unwrap(),
                    b.elems(),
                    Seq::new(b.elems().len(), |k: int| T::spec_zero()),
                    b.nrows(),
                    old(self).tol(),
                    old(self).max_iters(),
                );
                &&& x.wf()
                &&& x.same_shape(b)
                &&& x.elems() == res.0
                &&& final(self).last_iterations() == res.1
                &&& final(self).last_error() == res.2
            }),
            final(self).system() == old(self).system(),
            final(self).max_iters() == old(self).max_iters(),
            final(self).tol() == old(self).tol(),
    {
        let rows = b.rows();
        let cols = b.cols();
        let _size = b.size();
        let x0 = Matrix::zeros(rows, cols);
        proof {
            assert forall|k: int| 0 <= k < x0.elems().len() implies #[trigger] x0.elems()[k]
                == T::spec_zero() by {
                crate::matrix::lemma_cm_split(k, rows as int, cols as int);
                assert(x0.in_bounds(k % (rows as int), k / (rows as int)));
            }
            assert(x0.elems() =~= Seq::new(b.elems().len(), |k: int| T::spec_zero()));
        }
        self.solve_with_guess(b, &x0)
    }

    /// Solves from the guess `x0`; records the iteration count and error.
    fn solve_with_guess(&mut self, b: &Matrix<T>, x0: &Matrix<T>) -> (x: Matrix<T>)
        ensures
            ({
                let res = cg_result(
                    old(self).system().unwrap(),
                    b.elems(),
                    x0.elems(),
                    b.nrows(),
                    old(self).tol(),
                    old(self).max_iters(),
                );
                &&& x.wf()
                &&& x.same_shape(b)
                &&& x.elems() == res.0
                &&& final(self).last_iterations() == res.1
                &&& final(self).last_error() == res.2
            }),
            final(self).system() == old(self).system(),
            final(self).max_iters() == old(self).max_iters(),
            final(self).tol() == old(self).tol(),
    {
        let res = match &self.matrix {
            Some(a) => cg_run(a, b, x0, self.tolerance, self.max_iterations),
            None => {
                proof {
                    assert(false);
                }
                (x0.copy(), 0, T::zero())
            },
        };
        self.iterations = res.1;
        self.error = res.2;
        res.0
    }

    /// The iteration count of the last solve.
    fn iterations(&self) -> (r: usize)
        ensures
            r == self.last_iterations(),
    {
        self.iterations
    }

    /// The error of the last solve.
    fn error(&self) -> (r: T)
        ensures
            r == self.last_error(),
    {
        self.error
    }
}

} // verus!
