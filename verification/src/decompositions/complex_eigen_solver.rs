//! Eigenvalues and eigenvectors of a square complex matrix.
//!
//! The eigenvalues are the diagonal of the triangular factor `T` of the
//! complex Schur decomposition `A = U T U^*`; the eigenvectors come from
//! back-substitution in `T`, normalized, and mapped back with `U`.

use crate::complex::{Complex, cx};
use crate::decompositions::complex_schur::{ComplexSchur, cschur_converges, cschur_result};
use crate::decompositions::lu::holds;
use crate::matrix::Matrix;
use crate::scalar::Scalar;
use vstd::prelude::*;

verus! {

/// `t(i, lo) y[lo] + ... + t(i, hi - 1) y[hi - 1]` accumulated from zero.
pub open spec fn tri_sum<T: Scalar>(t: spec_fn(int, int) -> Complex<T>, y: Seq<Complex<T>>, i: int, lo: int, hi: int) -> Complex<T>
    decreases hi - lo,
{
    if hi <= lo {
        Complex::<T>::spec_zero()
    } else {
        tri_sum(t, y, i, lo, hi - 1).spec_plus(t(i, hi - 1).spec_times(y[hi - 1]))
    }
}

/// The back-substitution for the eigenvalue `t(j, j)` after `s` rows,
/// from the unit vector `e_j` (length `n`): row `i = j - s` gets
/// `tri_sum(t, y, i, i + 1, j + 1) / (t(j, j) - t(i, i))`, or zero when
/// the squared modulus of the denominator is below `eps`.
pub open spec fn back_y<T: Scalar>(t: spec_fn(int, int) -> Complex<T>, j: int, n: nat, s: nat, eps: T) -> Seq<Complex<T>>
    decreases s,
{
    if s == 0 {
        Seq::new(n, |i: int| if i == j { Complex::<T>::spec_from_usize(1) } else { Complex::<T>::spec_zero() })
    } else {
        let prev = back_y(t, j, n, (s - 1) as nat, eps);
        let i = j - s;
        let denom = t(j, j).spec_minus(t(i, i));
        prev.update(
            i,
            if denom.modulus_sq().spec_lt(eps) {
                Complex::<T>::spec_zero()
            } else {
                tri_sum(t, prev, i, i + 1, j + 1).spec_over(denom)
            },
        )
    }
}

/// `|y[0]|^2 + ... + |y[m - 1]|^2` accumulated from zero.
pub open spec fn col_norm_sq<T: Scalar>(y: Seq<Complex<T>>, m: int) -> T
    decreases m,
{
    if m <= 0 {
        T::spec_zero()
    } else {
        col_norm_sq(y, m - 1).spec_plus(y[m - 1].modulus_sq())
    }
}

/// The eigenvector of `T` for `t(j, j)`: the back-substitution, its first
/// `j + 1` entries divided by their norm unless the norm equals zero.
pub open spec fn tri_vector<T: Scalar>(t: spec_fn(int, int) -> Complex<T>, j: int, n: nat, eps: T) -> Seq<Complex<T>> {
    let y = back_y(t, j, n, j as nat, eps);
    let norm = col_norm_sq(y, j + 1).spec_sqrt();
    if norm.spec_eq(T::spec_zero()) {
        y
    } else {
        Seq::new(n, |i: int| if i <= j { y[i].spec_over(cx(norm, T::spec_zero())) } else { y[i] })
    }
}

/// `u(i, 0) y(0, j) + ... + u(i, m - 1) y(m - 1, j)` accumulated from zero.
pub open spec fn prod_sum<T: Scalar>(u: spec_fn(int, int) -> Complex<T>, y: spec_fn(int, int) -> Complex<T>, i: int, j: int, m: int) -> Complex<T>
    decreases m,
{
    if m <= 0 {
        Complex::<T>::spec_zero()
    } else {
        prod_sum(u, y, i, j, m - 1).spec_plus(u(i, m - 1).spec_times(y(m - 1, j)))
    }
}

/// The eigenvectors of the matrix with Schur factors `t` and `u` (order
/// `n`): `U Y`, where column `j` of `Y` is `tri_vector(t, j)`.
pub open spec fn ceig_vectors<T: Scalar>(t: spec_fn(int, int) -> Complex<T>, u: spec_fn(int, int) -> Complex<T>, n: nat) -> spec_fn(
    int,
    int,
) -> Complex<T> {
    let y = |i: int, j: int| tri_vector(t, j, n, T::spec_epsilon())[i];
    |i: int, j: int| prod_sum(u, y, i, j, n as int)
}

/// The back-substitution and normalization of column `j` (see
/// `tri_vector`).
fn eigenvector_of_triangle<T: Scalar>(
    t: &Matrix<Complex<T>>,
    j: usize,
    eps: T,
    Ghost(gt): Ghost<spec_fn(int, int) -> Complex<T>>,
) -> (y: Vec<Complex<T>>)
    requires
        t.wf(),
        t.nrows() == t.ncols(),
        j < t.nrows(),
        holds(*t, gt),
    ensures
        y@ == tri_vector(gt, j as int, t.nrows(), eps),
{
    let n = t.rows();
    let mut y: Vec<Complex<T>> = Vec::new();
    let mut q: usize = 0;
    while q < n
        invariant
            q <= n,
            j < n,
            y@ == back_y(gt, j as int, n as nat, 0, eps).subrange(0, q as int),
        decreases n - q,
    {
        if q == j {
            y.push(Complex::<T>::from_usize(1));
        } else {
            y.push(Complex::<T>::zero());
        }
        q = q + 1;
    }
    assert(y@ == back_y(gt, j as int, n as nat, 0, eps));
    assert(t.in_bounds(j as int, j as int));
    let lambda = t.entry(j, j);
    let mut s: usize = 0;
    while s < j
        invariant
            s <= j < n,
            n == t.nrows(),
            n == t.ncols(),
            t.wf(),
            holds(*t, gt),
            lambda == gt(j as int, j as int),
            y@ == back_y(gt, j as int, n as nat, s as nat, eps),
            y@.len() == n,
        decreases j - s,
    {
        let i = j - 1 - s;
        let mut sum = Complex::<T>::zero();
        let mut k = i + 1;
        while k <= j
            invariant
                i < k <= j + 1,
                j < n,
                n == t.nrows(),
                n == t.ncols(),
                t.wf(),
                holds(*t, gt),
                y@.len() == n,
                sum == tri_sum(gt, y@, i as int, (i + 1) as int, k as int),
            decreases j + 1 - k,
        {
            assert(t.in_bounds(i as int, k as int));
            sum = sum.plus(t.entry(i, k).times(y[k]));
            k = k + 1;
        }
        assert(t.in_bounds(i as int, i as int));
        let denom = lambda.minus(t.entry(i, i));
        if denom.norm_sq().is_lt(eps) {
            y.set(i, Complex::<T>::zero());
        } else {
            y.set(i, sum.over(denom));
        }
        s = s + 1;
    }
    let ghost yb = y@;
    let mut norm_sq = T::zero();
    let mut i: usize = 0;
    while i <= j
        invariant
            i <= j + 1,
            j < n,
            y@ == yb,
            yb.len() == n,
            norm_sq == col_norm_sq(yb, i as int),
        decreases j + 1 - i,
    {
        norm_sq = norm_sq.plus(y[i].norm_sq());
        i = i + 1;
    }
    let norm = norm_sq.sqrt();
    if !norm.is_eq(T::zero()) {
        let d = Complex::new(norm, T::zero());
        let mut i: usize = 0;
        while i <= j
            invariant
                i <= j + 1,
                j < n,
                yb.len() == n,
                y@.len() == n,
                d == cx(norm, T::spec_zero()),
                forall|q: int| 0 <= q < n ==> #[trigger] y@[q] == if q < i { yb[q].spec_over(d) } else { yb[q] },
            decreases j + 1 - i,
        {
            let v = y[i].over(d);
            y.set(i, v);
            i = i + 1;
        }
        proof {
            let want = tri_vector(gt, j as int, n as nat, eps);
            assert(y@ == want);
        }
    }
    y
}

/// The eigenvalues computed from `a`: the diagonal of its complex Schur
/// factor `T`, as an `n x 1` column.
pub open spec fn ceig_values_of<T: Scalar>(a: Matrix<Complex<T>>) -> spec_fn(int, int) -> Complex<T> {
    |i: int, j: int| cschur_result(a).0(i, i)
}

/// The eigenvectors computed from `a` (see `ceig_vectors`).
pub open spec fn ceig_vectors_of<T: Scalar>(a: Matrix<Complex<T>>) -> spec_fn(int, int) -> Complex<T> {
    ceig_vectors(cschur_result(a).0, cschur_result(a).1, a.nrows())
}

/// Eigenvalues and, optionally, eigenvectors of a square complex matrix.
pub struct ComplexEigenSolver<T: Scalar> {
    eigenvalues: Matrix<Complex<T>>,
    eigenvectors: Option<Matrix<Complex<T>>>,
}

impl<T: Scalar> ComplexEigenSolver<T> {
    /// The `n x 1` column of eigenvalues.
    pub closed spec fn values(&self) -> Matrix<Complex<T>> {
        self.eigenvalues
    }

    /// The eigenvector matrix, when it was computed.
    pub closed spec fn vectors(&self) -> Option<Matrix<Complex<T>>> {
        self.eigenvectors
    }

    /// Computes the eigenvalues of `matrix` and, when asked, its
    /// eigenvectors. Fails exactly when the complex Schur decomposition
    /// fails (a matrix that is not square, or no convergence).
    pub fn new(matrix: &Matrix<Complex<T>>, compute_eigenvectors: bool) -> (r: Result<Self, String>)
        requires
            matrix.wf(),
        ensures
            r is Ok <==> cschur_converges(*matrix),
            r matches Ok(d) ==> {
                let n = matrix.nrows();
                &&& d.values().wf()
                &&& d.values().nrows() == n
                &&& d.values().ncols() == 1
                &&& holds(d.values(), ceig_values_of(*matrix))
                &&& compute_eigenvectors <==> d.vectors() is Some
                &&& d.vectors() matches Some(v) ==> {
                    &&& v.wf()
                    &&& v.nrows() == n
                    &&& v.ncols() == n
                    &&& holds(v, ceig_vectors_of(*matrix))
                }
            },
            r matches Err(e) ==> e@ == if matrix.nrows() != matrix.ncols() { "Complex eigensolver requires a square matrix"@ } else { "ComplexSchur failed to converge"@ },
    {
        let n = matrix.rows();
        if n != matrix.cols() {
            return Err("Complex eigensolver requires a square matrix".to_string());
        }
        let _size = matrix.size();
        let schur = match ComplexSchur::new(matrix) {
            Ok(s) => s,
            Err(e) => {
                return Err(e);
            },
        };
        let t = schur.matrix_t();
        let u = schur.matrix_u();
        let ghost gt = cschur_result(*matrix).0;
        let ghost gu = cschur_result(*matrix).1;
        let mut eigenvalues: Matrix<Complex<T>> = Matrix::zeros(n, 1);
        let mut i: usize = 0;
        while i < n
            invariant
                i <= n,
                n == t.nrows(),
                n == t.ncols(),
                t.wf(),
                holds(*t, gt),
                eigenvalues.wf(),
                eigenvalues.nrows() == n,
                eigenvalues.ncols() == 1,
                forall|r: int, c: int| #[trigger]
                    eigenvalues.in_bounds(r, c) ==> eigenvalues.at(r, c) == if r < i {
                        gt(r, r)
                    } else {
                        Complex::<T>::spec_zero()
                    },
            decreases n - i,
        {
            assert(t.in_bounds(i as int, i as int));
            let ghost before = eigenvalues;
            eigenvalues.set(i, 0, t.entry(i, i));
            proof {
                assert forall|r: int, c: int| #[trigger] eigenvalues.in_bounds(r, c) implies eigenvalues.at(r, c) == if r
                    < i + 1 {
                    gt(r, r)
                } else {
                    Complex::<T>::spec_zero()
                } by {
                    assert(before.in_bounds(r, c));
                }
            }
            i = i + 1;
        }
        let mut eigenvectors: Option<Matrix<Complex<T>>> = None;
        if compute_eigenvectors {
            let eps = T::epsilon();
            let ghost gy = |r: int, c: int| tri_vector(gt, c, n as nat, T::spec_epsilon())[r];
            let mut vy: Matrix<Complex<T>> = Matrix::zeros(n, n);
            let mut j: usize = 0;
            while j < n
                invariant
                    j <= n,
                    n == t.nrows(),
                    n == t.ncols(),
                    t.wf(),
                    holds(*t, gt),
                    eps == T::spec_epsilon(),
                    gy == (|r: int, c: int| tri_vector(gt, c, n as nat, T::spec_epsilon())[r]),
                    vy.wf(),
                    vy.nrows() == n,
                    vy.ncols() == n,
                    forall|r: int, c: int| #[trigger]
                        vy.in_bounds(r, c) ==> vy.at(r, c) == if c < j {
                            gy(r, c)
                        } else {
                            Complex::<T>::spec_zero()
                        },
                decreases n - j,
            {
                let y = eigenvector_of_triangle(t, j, eps, Ghost(gt));
                let mut r: usize = 0;
                while r < n
                    invariant
                        r <= n,
                        j < n,
                        y@ == tri_vector(gt, j as int, n as nat, eps),
                        eps == T::spec_epsilon(),
                        gy == (|r: int, c: int| tri_vector(gt, c, n as nat, T::spec_epsilon())[r]),
                        vy.wf(),
                        vy.nrows() == n,
                        vy.ncols() == n,
                        forall|rr: int, c: int| #[trigger]
                            vy.in_bounds(rr, c) ==> vy.at(rr, c) == if c < j || (c == j && rr < r) {
                                gy(rr, c)
                            } else {
                                Complex::<T>::spec_zero()
                            },
                    decreases n - r,
                {
                    proof {
                        assert(y@.len() == n) by {
                            lemma_tri_vector_len(gt, j as int, n as nat, eps);
                        }
                    }
                    let ghost before = vy;
                    vy.set(r, j, y[r]);
                    proof {
                        assert forall|rr: int, c: int| #[trigger] vy.in_bounds(rr, c) implies vy.at(rr, c) == if c < j || (c
                            == j && rr < r + 1) {
                            gy(rr, c)
                        } else {
                            Complex::<T>::spec_zero()
                        } by {
                            assert(before.in_bounds(rr, c));
                        }
                    }
                    r = r + 1;
                }
                j = j + 1;
            }
            let ghost target = ceig_vectors(gt, gu, n as nat);
            let mut vx: Matrix<Complex<T>> = Matrix::zeros(n, n);
            let mut i: usize = 0;
            while i < n
                invariant
                    i <= n,
                    n == u.nrows(),
                    n == u.ncols(),
                    u.wf(),
                    holds(*u, gu),
                    vy.wf(),
                    vy.nrows() == n,
                    vy.ncols() == n,
                    holds(vy, gy),
                    gy == (|r: int, c: int| tri_vector(gt, c, n as nat, T::spec_epsilon())[r]),
                    target == ceig_vectors(gt, gu, n as nat),
                    vx.wf(),
                    vx.nrows() == n,
                    vx.ncols() == n,
                    forall|r: int, c: int| #[trigger]
                        vx.in_bounds(r, c) ==> vx.at(r, c) == if r < i {
                            target(r, c)
                        } else {
                            Complex::<T>::spec_zero()
                        },
                decreases n - i,
            {
                let mut j: usize = 0;
                while j < n
                    invariant
                        j <= n,
                        i < n,
                        n == u.nrows(),
                        n == u.ncols(),
                        u.wf(),
                        holds(*u, gu),
                        vy.wf(),
                        vy.nrows() == n,
                        vy.ncols() == n,
                        holds(vy, gy),
                        gy == (|r: int, c: int| tri_vector(gt, c, n as nat, T::spec_epsilon())[r]),
                        target == ceig_vectors(gt, gu, n as nat),
                        vx.wf(),
                        vx.nrows() == n,
                        vx.ncols() == n,
                        forall|r: int, c: int| #[trigger]
                            vx.in_bounds(r, c) ==> vx.at(r, c) == if r < i || (r == i && c < j) {
                                target(r, c)
                            } else {
                                Complex::<T>::spec_zero()
                            },
                    decreases n - j,
                {
                    let mut sum = Complex::<T>::zero();
                    let mut k: usize = 0;
                    while k < n
                        invariant
                            k <= n,
                            i < n,
                            j < n,
                            n == u.nrows(),
                            n == u.ncols(),
                            u.wf(),
                            holds(*u, gu),
                            vy.wf(),
                            vy.nrows() == n,
                            vy.ncols() == n,
                            holds(vy, gy),
                            sum == prod_sum(gu, gy, i as int, j as int, k as int),
                        decreases n - k,
                    {
                        assert(u.in_bounds(i as int, k as int) && vy.in_bounds(k as int, j as int));
                        sum = sum.plus(u.entry(i, k).times(vy.entry(k, j)));
                        k = k + 1;
                    }
                    let ghost before = vx;
                    vx.set(i, j, sum);
                    proof {
                        assert forall|r: int, c: int| #[trigger] vx.in_bounds(r, c) implies vx.at(r, c) == if r < i || (r
                            == i && c < j + 1) {
                            target(r, c)
                        } else {
                            Complex::<T>::spec_zero()
                        } by {
                            assert(before.in_bounds(r, c));
                        }
                    }
                    j = j + 1;
                }
                i = i + 1;
            }
            eigenvectors = Some(vx);
        }
        Ok(ComplexEigenSolver { eigenvalues, eigenvectors })
    }

    /// The `n x 1` column of eigenvalues.
    pub fn eigenvalues(&self) -> (r: &Matrix<Complex<T>>)
        ensures
            *r == self.values(),
    {
        &self.eigenvalues
    }

    /// The eigenvector matrix, when it was computed.
    pub fn eigenvectors(&self) -> (r: Option<&Matrix<Complex<T>>>)
        ensures
            r matches Some(v) ==> self.vectors() == Some(*v),
            r is None <==> self.vectors() is None,
    {
        self.eigenvectors.as_ref()
    }
}

/// The back-substitution keeps the length of the vector.
proof fn lemma_back_y_len<T: Scalar>(t: spec_fn(int, int) -> Complex<T>, j: int, n: nat, s: nat, eps: T)
    requires
        0 <= j < n,
        s <= j,
    ensures
        back_y(t, j, n, s, eps).len() == n,
    decreases s,
{
    if s > 0 {
        lemma_back_y_len(t, j, n, (s - 1) as nat, eps);
    }
}

/// The eigenvector of `T` has length `n`.
proof fn lemma_tri_vector_len<T: Scalar>(t: spec_fn(int, int) -> Complex<T>, j: int, n: nat, eps: T)
    requires
        0 <= j < n,
    ensures
        tri_vector(t, j, n, eps).len() == n,
{
    lemma_back_y_len(t, j, n, j as nat, eps);
}

} // verus!
