//! The generalized selfadjoint eigenproblem `A x = lambda B x`, with `A`
//! selfadjoint and `B` positive definite.
//!
//! With the Cholesky factor `B = L L^*`, the problem becomes the standard
//! one for `C = L^{-1} A L^{-*}`: `C y = lambda y` and `x = L^{-*} y`.
//! `C` is formed by two forward solves, the second on the transpose of the
//! first result (which is `C` for a selfadjoint `A`).

use crate::decompositions::llt::{LLT, llt_factor, llt_ok};
use crate::decompositions::llt_blocks::{
    block_count,
    lemma_lower_solve_same,
    lemma_upper_solve_same,
    lower_solve_state,
    same_on,
    upper_solve_state,
};
use crate::decompositions::lu::{grid, holds};
use crate::decompositions::selfadjoint_eigen::{eig3_tiny, ComputationInfo, SelfAdjointEigenSolver};
use crate::matrix::Matrix;
use crate::scalar::Scalar;
use vstd::prelude::*;

verus! {

/// `g` transposed.
pub open spec fn transposed<T>(g: spec_fn(int, int) -> T) -> spec_fn(int, int) -> T {
    |i: int, j: int| g(j, i)
}

/// Both matrices are square and of the same order.
pub open spec fn same_square<T>(a: Matrix<T>, b: Matrix<T>) -> bool {
    a.nrows() == a.ncols() && b.nrows() == a.nrows() && b.ncols() == a.nrows()
}

/// `L^{-1} A` for the Cholesky factor `L` of `b` (order `n`), by the blocked
/// forward solve.
pub open spec fn gsa_left<T: Scalar>(a: spec_fn(int, int) -> T, b: spec_fn(int, int) -> T, n: nat) -> spec_fn(int, int) -> T {
    lower_solve_state(llt_factor(b, n), a, n as int, block_count(n))
}

/// `C = L^{-1} (L^{-1} A)^T`, the matrix of the standard problem.
pub open spec fn gsa_c<T: Scalar>(a: spec_fn(int, int) -> T, b: spec_fn(int, int) -> T, n: nat) -> spec_fn(int, int) -> T {
    lower_solve_state(llt_factor(b, n), transposed(gsa_left(a, b, n)), n as int, block_count(n))
}

/// Every `3 x 3` matrix with the entries of `C` is negligible for the
/// direct `3 x 3` eigenvalue formula (which then needs no trigonometry).
pub open spec fn gsa_c_negligible<T: Scalar>(a: Matrix<T>, b: Matrix<T>) -> bool {
    forall|c: Matrix<T>|
        c.nrows() == 3 && c.ncols() == 3 && #[trigger] holds(c, gsa_c(grid(a), grid(b), 3)) ==> eig3_tiny(c)
}

/// `e` is a result of `SelfAdjointEigenSolver::new(c, flag)`.
pub open spec fn standard_result<T: Scalar>(c: Matrix<T>, flag: bool, e: SelfAdjointEigenSolver<T>) -> bool {
    &&& e.fits(c.nrows())
    &&& e.values().nrows() == c.nrows()
    &&& exists|b: SelfAdjointEigenSolver<T>|
        {
            &&& b.values().wf()
            &&& b.values().nrows() == c.nrows()
            &&& b.values().ncols() == 1
            &&& forall|i: int| 0 <= i < c.nrows() ==> #[trigger] b.values().at(i, 0) == T::spec_zero()
            &&& b.vectors() is None
            &&& b.status() == ComputationInfo::InvalidInput
            &&& SelfAdjointEigenSolver::outcome(b, e, c, flag)
        }
}

/// Generalized selfadjoint eigensolver.
pub struct GeneralizedSelfAdjointEigenSolver<T> {
    eigenvalues: Matrix<T>,
    eigenvectors: Option<Matrix<T>>,
}

impl<T: Scalar> GeneralizedSelfAdjointEigenSolver<T> {
    /// The eigenvalues, in column 0.
    pub closed spec fn values(&self) -> Matrix<T> {
        self.eigenvalues
    }

    /// The eigenvectors, when computed.
    pub closed spec fn vectors(&self) -> Option<Matrix<T>> {
        self.eigenvectors
    }

    /// What `new(a, b, flag)` returns on success: the eigenvalues of the
    /// standard solver on (a matrix with the entries of) `C`, and, when
    /// asked, its eigenvectors mapped back by the blocked backward solve
    /// with `L^*`.
    pub open spec fn solves(&self, a: Matrix<T>, b: Matrix<T>, flag: bool) -> bool {
        let n = a.nrows();
        exists|c: Matrix<T>, e: SelfAdjointEigenSolver<T>|
            {
                &&& c.wf()
                &&& c.nrows() == n
                &&& c.ncols() == n
                &&& holds(c, gsa_c(grid(a), grid(b), n))
                &&& #[trigger] standard_result(c, flag, e)
                &&& self.values().wf()
                &&& self.values().same_shape(&e.values())
                &&& self.values().elems() == e.values().elems()
                &&& !flag ==> self.vectors() is None
                &&& flag ==> (e.vectors() matches Some(v) && self.vectors() matches Some(x) && x.wf() && x.nrows() == n
                    && x.ncols() == n && holds(x, upper_solve_state(llt_factor(grid(b), n), grid(v), n as int, block_count(n))))
            }
    }

    /// Solves `A x = lambda B x`. Fails exactly when the matrices are not
    /// square of one order, or when `B` is not positive definite (its
    /// Cholesky factorization fails).
    pub fn new(a: &Matrix<T>, b: &Matrix<T>, compute_eigenvectors: bool) -> (r: Result<Self, String>)
        requires
            a.wf(),
            b.wf(),
            same_square(*a, *b) && a.nrows() == 0 ==> !compute_eigenvectors,
            same_square(*a, *b) && a.nrows() == 3 && llt_ok(grid(*b), 3) ==> T::spec_has_trig() || gsa_c_negligible(*a, *b),
        ensures
            r is Ok <==> same_square(*a, *b) && llt_ok(grid(*b), a.nrows()),
            r matches Ok(s) ==> s.solves(*a, *b, compute_eigenvectors),
            r matches Err(e) ==> e@ == if !same_square(*a, *b) { "Generalized eigensolver requires square matrices"@ } else { "Matrix is not positive definite"@ },
    {
        let n = a.rows();
        if n != a.cols() || n != b.rows() || n != b.cols() {
            return Err("Generalized eigensolver requires square matrices".to_string());
        }
        let llt = match LLT::new(b) {
            Ok(d) => d,
            Err(e) => {
                return Err(e);
            },
        };
        let ghost lf = llt_factor(grid(*b), n as nat);
        let ghost fg = grid(llt.factor());
        let ghost nb = block_count(n as nat);
        proof {
            assert(same_on(fg, lf, n as int, n as int)) by {
                assert forall|i: int, j: int| 0 <= i < n && 0 <= j < n implies #[trigger] fg(i, j) == lf(i, j) by {
                    assert(llt.factor().in_bounds(i, j));
                }
            }
        }
        let _size = a.size();
        let mut y = Matrix::zeros(n, n);
        match y.assign(a) {
            Ok(()) => {},
            Err(e) => {
                return Err(e);
            },
        }
        assert(grid(y) =~= grid(*a));
        match llt.solve_inplace_l(&mut y) {
            Ok(()) => {},
            Err(e) => {
                return Err(e);
            },
        }
        let ghost yg = gsa_left(grid(*a), grid(*b), n as nat);
        proof {
            lemma_lower_solve_same(fg, lf, grid(*a), grid(*a), n as int, n as int, nb);
        }
        let mut c = Matrix::zeros(n, n);
        let mut i: usize = 0;
        while i < n
            invariant
                i <= n,
                y.wf(),
                y.nrows() == n,
                y.ncols() == n,
                yg == gsa_left(grid(*a), grid(*b), n as nat),
                holds(y, yg),
                c.wf(),
                c.nrows() == n,
                c.ncols() == n,
                forall|p: int, q: int| #[trigger] c.in_bounds(p, q) && p < i ==> c.at(p, q) == yg(q, p),
            decreases n - i,
        {
            let mut j: usize = 0;
            while j < n
                invariant
                    i < n,
                    j <= n,
                    y.wf(),
                    y.nrows() == n,
                    y.ncols() == n,
                    holds(y, yg),
                    c.wf(),
                    c.nrows() == n,
                    c.ncols() == n,
                    forall|p: int, q: int| #[trigger] c.in_bounds(p, q) && (p < i || (p == i && q < j)) ==> c.at(p, q) == yg(q, p),
                decreases n - j,
            {
                let ghost before = c;
                assert(y.in_bounds(j as int, i as int));
                c.set(i, j, y.entry(j, i));
                proof {
                    assert forall|p: int, q: int| #[trigger] c.in_bounds(p, q) && (p < i || (p == i && q < j + 1)) implies c.at(
                        p,
                        q,
                    ) == yg(q, p) by {
                        assert(before.in_bounds(p, q));
                    }
                }
                j = j + 1;
            }
            i = i + 1;
        }
        let ghost c0 = grid(c);
        proof {
            assert(same_on(c0, transposed(yg), n as int, n as int)) by {
                assert forall|p: int, q: int| 0 <= p < n && 0 <= q < n implies #[trigger] c0(p, q) == transposed(yg)(p, q) by {
                    assert(c.in_bounds(p, q));
                }
            }
        }
        match llt.solve_inplace_l(&mut c) {
            Ok(()) => {},
            Err(e) => {
                return Err(e);
            },
        }
        proof {
            lemma_lower_solve_same(fg, lf, c0, transposed(yg), n as int, n as int, nb);
            assert(holds(c, gsa_c(grid(*a), grid(*b), n as nat))) by {
                assert forall|p: int, q: int| #[trigger] c.in_bounds(p, q) implies c.at(p, q) == gsa_c(
                    grid(*a),
                    grid(*b),
                    n as nat,
                )(p, q) by {
                    assert(lower_solve_state(fg, c0, n as int, nb)(p, q) == lower_solve_state(lf, transposed(yg), n as int, nb)(p, q));
                }
            }
            if n == 3 && !T::spec_has_trig() {
                assert(eig3_tiny(c));
            }
        }
        let eigen = match SelfAdjointEigenSolver::new(&c, compute_eigenvectors) {
            Ok(e) => e,
            Err(e) => {
                return Err(e);
            },
        };
        let eigenvalues = eigen.eigenvalues().copy();
        let mut eigenvectors: Option<Matrix<T>> = None;
        if compute_eigenvectors {
            proof {
                assert(eigen.vectors() matches Some(v) && v.nrows() == n && v.ncols() == n);
            }
            let y_vecs = eigen.eigenvectors().unwrap();
            let mut x_vecs = Matrix::zeros(n, n);
            match x_vecs.assign(y_vecs) {
                Ok(()) => {},
                Err(e) => {
                    return Err(e);
                },
            }
            assert(grid(x_vecs) =~= grid(*y_vecs));
            match llt.solve_inplace_lt(&mut x_vecs) {
                Ok(()) => {},
                Err(e) => {
                    return Err(e);
                },
            }
            proof {
                lemma_upper_solve_same(fg, lf, grid(*y_vecs), grid(*y_vecs), n as int, n as int, nb);
            }
            eigenvectors = Some(x_vecs);
        }
        let s = GeneralizedSelfAdjointEigenSolver { eigenvalues, eigenvectors };
        proof {
            assert(standard_result(c, compute_eigenvectors, eigen));
        }
        Ok(s)
    }

    /// The eigenvalues, in column 0.
    pub fn eigenvalues(&self) -> (r: &Matrix<T>)
        ensures
            *r == self.values(),
    {
        &self.eigenvalues
    }

    /// The eigenvectors, when computed.
    pub fn eigenvectors(&self) -> (r: Option<&Matrix<T>>)
        ensures
            r matches Some(v) ==> self.vectors() == Some(*v),
            r is None <==> self.vectors() is None,
    {
        match &self.eigenvectors {
            Some(v) => Some(v),
            None => None,
        }
    }
}

} // verus!
