//! The biconjugate gradient stabilized method for general square systems.

use crate::iterative_solvers::flat::{
    add_scaled, add_scaled_vec, add_two_scaled, add_two_scaled_vec, apply, copy_vec, difference,
    difference_vec, direction, direction_vec, dot, dot_vec, product_flat, sub_scaled,
    sub_scaled_vec, to_matrix, zero_seq, zero_vec,
};
use crate::iterative_solvers::traits::IterativeSolver;
use crate::matrix::Matrix;
use crate::scalar::Scalar;
use vstd::prelude::*;

verus! {

/// The iterations of the method from iteration `i` on, with shadow residual
/// `r_hat`, iterate `x`, residual `r`, direction `p`, `v = A p`, the scalars
/// `rho_old`, `alpha`, `omega`, and the iteration count and error recorded
/// so far. Returns the final iterate, iteration count and error.
///
/// Each iteration (counted as soon as it starts) computes
/// `rho = r_hat . r` and stops when `|rho|` is below the breakdown
/// threshold; takes `p = r + beta (p - omega v)` with
/// `beta = (rho / rho_old) (alpha / omega)` and `v = A p`; stops when
/// `|r_hat . v|` is below the threshold; takes `alpha = rho / (r_hat . v)`
/// and `s = r - alpha v`; when `|s|^2 < tol_sq` it returns
/// `x + alpha p` with error `|s|`; otherwise takes `t = A s`, stops when
/// `|t . t|` is below the threshold, takes `omega = (t . s) / (t . t)`,
/// `x += alpha p + omega s` and `r = s - omega t`, records the error `|r|`,
/// and stops when `|r|^2 < tol_sq` or `|omega|` is below the threshold.
pub open spec fn bicgstab_loop<T: Scalar>(
    a: Matrix<T>,
    rows: nat,
    tol_sq: T,
    max: nat,
    i: nat,
    r_hat: Seq<T>,
    x: Seq<T>,
    r: Seq<T>,
    p: Seq<T>,
    v: Seq<T>,
    rho_old: T,
    alpha: T,
    omega: T,
    iters: nat,
    err: T,
) -> (Seq<T>, nat, T)
    decreases max - i,
{
    let thr = T::spec_breakdown_threshold();
    if i >= max {
        (x, iters, err)
    } else {
        let rho = dot(r_hat, r);
        if rho.spec_abs().spec_lt(thr) {
            (x, i + 1, err)
        } else {
            let beta = rho.spec_over(rho_old).spec_times(alpha.spec_over(omega));
            let p2 = direction(r, beta, p, omega, v);
            let v2 = product_flat(a, p2, rows);
            let r_hat_v = dot(r_hat, v2);
            if r_hat_v.spec_abs().spec_lt(thr) {
                (x, i + 1, err)
            } else {
                let alpha2 = rho.spec_over(r_hat_v);
                let s = sub_scaled(r, alpha2, v2);
                let s_norm_sq = dot(s, s);
                if s_norm_sq.spec_lt(tol_sq) {
                    (add_scaled(x, alpha2, p2), i + 1, s_norm_sq.spec_sqrt())
                } else {
                    let t = product_flat(a, s, rows);
                    let t_t = dot(t, t);
                    if t_t.spec_abs().spec_lt(thr) {
                        (x, i + 1, err)
                    } else {
                        let omega2 = dot(t, s).spec_over(t_t);
                        let x2 = add_two_scaled(x, alpha2, p2, omega2, s);
                        let r2 = sub_scaled(s, omega2, t);
                        let error_sq = dot(r2, r2);
                        if error_sq.spec_lt(tol_sq) || omega2.spec_abs().spec_lt(thr) {
                            (x2, i + 1, error_sq.spec_sqrt())
                        } else {
                            bicgstab_loop(
                                a,
                                rows,
                                tol_sq,
                                max,
                                i + 1,
                                r_hat,
                                x2,
                                r2,
                                p2,
                                v2,
                                rho,
                                alpha2,
                                omega2,
                                i + 1,
                                error_sq.spec_sqrt(),
                            )
                        }
                    }
                }
            }
        }
    }
}

/// The final iterate, iteration count and error of the method on `A x = b`
/// from the guess `x0` (all column-major with `rows` rows), with tolerance
/// `tol` and at most `max` iterations. The initial residual `r = b - A x0`
/// is also the shadow residual and the first direction; `v` starts at zero
/// and `rho_old`, `alpha`, `omega` at one. When `|r|^2 < tol^2`, `x0` is
/// returned after no iteration.
pub open spec fn bicgstab_result<T: Scalar>(
    a: Matrix<T>,
    b: Seq<T>,
    x0: Seq<T>,
    rows: nat,
    tol: T,
    max: nat,
) -> (Seq<T>, nat, T) {
    let r = difference(b, product_flat(a, x0, rows));
    let error_sq = dot(r, r);
    let tol_sq = tol.spec_times(tol);
    let one = T::spec_from_usize(1);
    if error_sq.spec_lt(tol_sq) {
        (x0, 0, error_sq.spec_sqrt())
    } else {
        bicgstab_loop(
            a,
            rows,
            tol_sq,
            max,
            0,
            r,
            x0,
            r,
            r,
            zero_seq(b.len()),
            one,
            one,
            one,
            0,
            error_sq.spec_sqrt(),
        )
    }
}

/// Runs the method; returns the final iterate, iteration count and error.
fn bicgstab_run<T: Scalar>(a: &Matrix<T>, b: &Matrix<T>, x0: &Matrix<T>, tol: T, max_iter: usize) -> (r: (
    Matrix<T>,
    usize,
    T,
))
    requires
        a.wf(),
        b.wf(),
        x0.wf(),
        a.nrows() == b.nrows(),
        a.ncols() == b.nrows(),
        x0.same_shape(b),
    ensures
        r.0.wf(),
        r.0.same_shape(b),
        (r.0.elems(), r.1 as nat, r.2) == bicgstab_result(
            *a,
            b.elems(),
            x0.elems(),
            b.nrows(),
            tol,
            max_iter as nat,
        ),
{
    let rows = b.rows();
    let cols = b.cols();
    let size = b.size();
    let ghost target = bicgstab_result(*a, b.elems(), x0.elems(), rows as nat, tol, max_iter as nat);
    let bv = b.copy().into_data();
    let mut x = x0.copy().into_data();
    let ax = apply(a, &x, rows, cols);
    let mut r = difference_vec(&bv, &ax);
    let r_hat = copy_vec(&r);
    let mut p = copy_vec(&r);
    let mut v: Vec<T> = zero_vec(size);
    let mut rho_old = T::from_usize(1);
    let mut alpha = T::from_usize(1);
    let mut omega = T::from_usize(1);
    let tol_sq = tol.times(tol);
    let error_sq = dot_vec(&r, &r);
    let mut iters: usize = 0;
    let mut err = error_sq.sqrt();
    if error_sq.is_lt(tol_sq) {
        return (to_matrix(x, rows, cols), iters, err);
    }
    let thr = T::breakdown_threshold();
    let mut i: usize = 0;
    while i < max_iter
        invariant_except_break
            a.wf(),
            a.nrows() == rows,
            a.ncols() == rows,
            b.nrows() == rows,
            b.ncols() == cols,
            r_hat@.len() == rows * cols,
            x@.len() == rows * cols,
            r@.len() == rows * cols,
            p@.len() == rows * cols,
            v@.len() == rows * cols,
            i <= max_iter,
            tol_sq == tol.spec_times(tol),
            thr == T::spec_breakdown_threshold(),
            bicgstab_loop(
                *a,
                rows as nat,
                tol_sq,
                max_iter as nat,
                i as nat,
                r_hat@,
                x@,
                r@,
                p@,
                v@,
                rho_old,
                alpha,
                omega,
                iters as nat,
                err,
            ) == target,
        ensures
            x@.len() == rows * cols,
            (x@, iters as nat, err) == target,
        decreases max_iter - i,
    {
        iters = i + 1;
        let rho = dot_vec(&r_hat, &r);
        if rho.abs().is_lt(thr) {
            break;
        }
        let beta = rho.over(rho_old).times(alpha.over(omega));
        p = direction_vec(&r, beta, &p, omega, &v);
        v = apply(a, &p, rows, cols);
        let r_hat_v = dot_vec(&r_hat, &v);
        if r_hat_v.abs().is_lt(thr) {
            break;
        }
        alpha = rho.over(r_hat_v);
        let s = sub_scaled_vec(&r, alpha, &v);
        let s_norm_sq = dot_vec(&s, &s);
        if s_norm_sq.is_lt(tol_sq) {
            x = add_scaled_vec(&x, alpha, &p);
            err = s_norm_sq.sqrt();
            break;
        }
        let t = apply(a, &s, rows, cols);
        let t_t = dot_vec(&t, &t);
        if t_t.abs().is_lt(thr) {
            break;
        }
        omega = dot_vec(&t, &s).over(t_t);
        x = add_two_scaled_vec(&x, alpha, &p, omega, &s);
        r = sub_scaled_vec(&s, omega, &t);
        let e_sq = dot_vec(&r, &r);
        err = e_sq.sqrt();
        if e_sq.is_lt(tol_sq) {
            break;
        }
        if omega.abs().is_lt(thr) {
            break;
        }
        rho_old = rho;
        i = i + 1;
    }
    (to_matrix(x, rows, cols), iters, err)
}

/// A biconjugate gradient stabilized solver for general square systems.
pub struct BiCGSTAB<T> {
    max_iterations: usize,
    tolerance: T,
    iterations: usize,
    error: T,
    matrix: Option<Matrix<T>>,
}

impl<T: Scalar> BiCGSTAB<T> {
    /// The largest number of iterations of a solve.
    pub closed spec fn max_iters(&self) -> nat {
        self.max_iterations as nat
    }

    /// The stopping tolerance on the residual norm.
    pub closed spec fn tol(&self) -> T {
        self.tolerance
    }

    /// The iteration count of the last solve.
    pub closed spec fn last_iterations(&self) -> nat {
        self.iterations as nat
    }

    /// The error of the last solve.
    pub closed spec fn last_error(&self) -> T {
        self.error
    }

    /// The matrix of the system, once given.
    pub closed spec fn system(&self) -> Option<Matrix<T>> {
        self.matrix
    }

    /// A solver with at most 1000 iterations, the default tolerance, no
    /// iteration done, error zero and no matrix yet.
    pub fn new() -> (s: Self)
        ensures
            s.max_iters() == 1000,
            s.tol() == T::spec_default_tolerance(),
            s.last_iterations() == 0,
            s.last_error() == T::spec_zero(),
            s.system() is None,
    {
        BiCGSTAB {
            max_iterations: 1000,
            tolerance: T::default_tolerance(),
            iterations: 0,
            error: T::zero(),
            matrix: None,
        }
    }

    /// Sets the largest number of iterations.
    pub fn with_max_iterations(self, max_iter: usize) -> (s: Self)
        ensures
            s.max_iters() == max_iter,
            s.tol() == self.tol(),
            s.last_iterations() == self.last_iterations(),
            s.last_error() == self.last_error(),
            s.system() == self.system(),
    {
        let mut s = self;
        s.max_iterations = max_iter;
        s
    }

    /// Sets the stopping tolerance.
    pub fn with_tolerance(self, tolerance: T) -> (s: Self)
        ensures
            s.max_iters() == self.max_iters(),
            s.tol() == tolerance,
            s.last_iterations() == self.last_iterations(),
            s.last_error() == self.last_error(),
            s.system() == self.system(),
    {
        let mut s = self;
        s.tolerance = tolerance;
        s
    }
}

impl<T: Scalar> IterativeSolver<T> for BiCGSTAB<T> {
    /// A square matrix whose order is the number of rows of `b` has been
    /// given.
    open spec fn ready_for(&self, b: Matrix<T>) -> bool {
        &&& self.system() is Some
        &&& self.system().unwrap().wf()
        &&& self.system().unwrap().nrows() == b.nrows()
        &&& self.system().unwrap().ncols() == b.nrows()
    }

    /// Keeps a copy of `matrix`; the settings and the last results stay.
    fn compute(&mut self, matrix: &Matrix<T>)
        ensures
            final(self).system() is Some,
            final(self).system().unwrap().wf(),
            final(self).system().unwrap().same_shape(matrix),
            final(self).system().unwrap().elems() == matrix.elems(),
            final(self).max_iters() == old(self).max_iters(),
            final(self).tol() == old(self).tol(),
            final(self).last_iterations() == old(self).last_iterations(),
            final(self).last_error() == old(self).last_error(),
    {
        self.matrix = Some(matrix.copy());
    }

    /// Solves from the zero guess; records the iteration count and error.
    fn solve(&mut self, b: &Matrix<T>) -> (x: Matrix<T>)
        ensures
            ({
                let res = bicgstab_result(
                    old(self).system().unwrap(),
                    b.elems(),
                    Seq::new(b.elems().len(), |k: int| T::spec_zero()),
                    b.nrows(),
                    old(self).tol(),
                    old(self).max_iters(),
                );
                &&& x.wf()
                &&& x.same_shape(b)
                &&& x.elems() == res.0
                &&& final(self).last_iterations() == res.1
                &&& final(self).last_error() == res.2
            }),
            final(self).system() == old(self).system(),
            final(self).max_iters() == old(self).max_iters(),
            final(self).tol() == old(self).tol(),
    {
        let rows = b.rows();
        let cols = b.cols();
        let _size = b.size();
        let x0 = Matrix::zeros(rows, cols);
        proof {
            assert forall|k: int| 0 <= k < x0.elems().len() implies #[trigger] x0.elems()[k]
                == T::spec_zero() by {
                crate::matrix::lemma_cm_split(k, rows as int, cols as int);
                assert(x0.in_bounds(k % (rows as int), k / (rows as int)));
            }
            assert(x0.elems() =~= Seq::new(b.elems().len(), |k: int| T::spec_zero()));
        }
        self.solve_with_guess(b, &x0)
    }

    /// Solves from the guess `x0`; records the iteration count and error.
    fn solve_with_guess(&mut self, b: &Matrix<T>, x0: &Matrix<T>) -> (x: Matrix<T>)
        ensures
            ({
                let res = bicgstab_result(
                    old(self).system().unwrap(),
                    b.elems(),
                    x0.elems(),
                    b.nrows(),
                    old(self).tol(),
                    old(self).max_iters(),
                );
                &&& x.wf()
                &&& x.same_shape(b)
                &&& x.elems() == res.0
                &&& final(self).last_iterations() == res.1
                &&& final(self).last_error() == res.2
            }),
            final(self).system() == old(self).system(),
            final(self).max_iters() == old(self).max_iters(),
            final(self).tol() == old(self).tol(),
    {
        let res = match &self.matrix {
            Some(a) => bicgstab_run(a, b, x0, self.tolerance, self.max_iterations),
            None => {
                proof {
                    assert(false);
                }
                (x0.copy(), 0, T::zero())
            },
        };
        self.iterations = res.1;
        self.error = res.2;
        res.0
    }

    /// The iteration count of the last solve.
    fn iterations(&self) -> (r: usize)
        ensures
            r == self.last_iterations(),
    {
        self.iterations
    }

    /// The error of the last solve.
    fn error(&self) -> (r: T)
        ensures
            r == self.last_error(),
    {
        self.error
    }
}

} // verus!
