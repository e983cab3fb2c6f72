//! Cholesky decomposition `A = L L^*` of a selfadjoint positive definite
//! matrix.
//!
//! The factor is computed column by column (right-looking): the diagonal
//! entry is replaced by its square root, the column below it is scaled by
//! the reciprocal, and the trailing lower triangle receives the rank-one
//! update. The contracts describe this exact sequence of scalar operations.

use crate::decompositions::llt_blocks::{
    apply_lower_block,
    apply_lower_gemm,
    apply_upper_block,
    apply_upper_gemm,
    back_block_end,
    back_block_height,
    block_count,
    block_width,
    blocked_factor,
    blocked_ok,
    factor_blocked,
    lower_block_solve,
    lower_gemm,
    lower_solve_state,
    upper_block_solve,
    upper_gemm,
    upper_solve_state,
};
use crate::decompositions::lu::{grid, holds, lemma_cancel};
use crate::matrix::Matrix;
use crate::scalar::{Scalar, exact_rules};
use vstd::prelude::*;

verus! {

/// Step `j` of the factorization: `L(j, j) = sqrt(b(j, j))`, the entries
/// below it are multiplied by `1 / L(j, j)`, and each entry `(i, c)` of the
/// trailing lower triangle (`c > j`, `i >= c`) becomes
/// `b(i, c) - L(i, j) * conj(L(c, j))`.
pub open spec fn chol_step<T: Scalar>(b: spec_fn(int, int) -> T, j: int) -> spec_fn(int, int) -> T {
    |i: int, c: int|
        {
            let ljj = b(j, j).spec_sqrt();
            let inv = T::spec_from_usize(1).spec_over(ljj);
            if i == j && c == j {
                ljj
            } else if c == j && i > j {
                b(i, j).spec_times(inv)
            } else if c > j && i >= c {
                b(i, c).spec_minus(b(i, j).spec_times(inv).spec_times(b(c, j).spec_times(inv).spec_conj()))
            } else {
                b(i, c)
            }
        }
}

/// The working matrix after the first `k` factorization steps on `a`.
pub open spec fn chol_state<T: Scalar>(a: spec_fn(int, int) -> T, k: nat) -> spec_fn(int, int) -> T
    decreases k,
{
    if k == 0 {
        a
    } else {
        chol_step(chol_state(a, (k - 1) as nat), k - 1)
    }
}

/// The first `k` steps all met a diagonal entry whose real part is greater
/// than zero.
pub open spec fn chol_pivots_ok<T: Scalar>(a: spec_fn(int, int) -> T, k: nat) -> bool
    decreases k,
{
    k == 0 || (chol_pivots_ok(a, (k - 1) as nat) && !chol_state(a, (k - 1) as nat)(
        k - 1,
        k - 1,
    ).spec_real().spec_le(T::spec_zero()))
}

/// The factor `L` of an `n x n` matrix by the unblocked factorization: the
/// lower triangle of the working matrix after all steps, zero (the default
/// value) above the diagonal.
pub open spec fn chol_factor<T: Scalar>(a: spec_fn(int, int) -> T, n: nat) -> spec_fn(int, int) -> T {
    let s = chol_state(a, n);
    |i: int, c: int|
        if i < c {
            T::spec_zero()
        } else {
            s(i, c)
        }
}

/// The factorization of an `n x n` matrix succeeds: the unblocked one for
/// orders up to 32, the blocked one above.
pub open spec fn llt_ok<T: Scalar>(a: spec_fn(int, int) -> T, n: nat) -> bool {
    if n <= 32 {
        chol_pivots_ok(a, n)
    } else {
        blocked_ok(a, n as int, block_count(n))
    }
}

/// The factor of an `n x n` matrix: unblocked for orders up to 32, blocked
/// above.
pub open spec fn llt_factor<T: Scalar>(a: spec_fn(int, int) -> T, n: nat) -> spec_fn(int, int) -> T {
    if n <= 32 {
        chol_factor(a, n)
    } else {
        blocked_factor(a, n)
    }
}

/// Successful steps are successful from the start.
pub proof fn lemma_chol_pivots_prefix<T: Scalar>(a: spec_fn(int, int) -> T, k: nat, n: nat)
    requires
        k <= n,
        chol_pivots_ok(a, n),
    ensures
        chol_pivots_ok(a, k),
    decreases n - k,
{
    if k < n {
        lemma_chol_pivots_prefix(a, k + 1, n);
    }
}

/// Rules that exact arithmetic gives the square roots and reciprocals of the
/// factorization: the square root of a value whose real part is greater
/// than zero is its own conjugate, is not equal to zero, and times itself
/// gives the value; a value times `1 / d` times `d` is the value, for `d`
/// not equal to zero.
pub open spec fn chol_rules<T: Scalar>() -> bool {
    &&& forall|d: T|
        !d.spec_real().spec_le(T::spec_zero()) ==> {
            &&& #[trigger] d.spec_sqrt().spec_conj() == d.spec_sqrt()
            &&& !d.spec_sqrt().spec_eq(T::spec_zero())
            &&& d.spec_sqrt().spec_times(d.spec_sqrt()) == d
        }
    &&& forall|x: T, d: T|
        !d.spec_eq(T::spec_zero()) ==> #[trigger] x.spec_times(T::spec_from_usize(1).spec_over(d)).spec_times(d)
            == x
}

/// `l(i, 0) conj(l(c, 0)) + ... + l(i, k - 1) conj(l(c, k - 1))`, added from
/// the left (zero for `k <= 0`).
pub open spec fn herm_dot<T: Scalar>(l: spec_fn(int, int) -> T, i: int, c: int, k: int) -> T
    decreases k,
{
    if k <= 0 {
        T::spec_zero()
    } else {
        herm_dot(l, i, c, k - 1).spec_plus(l(i, k - 1).spec_times(l(c, k - 1).spec_conj()))
    }
}

/// Column `c` of the working matrix no longer changes after step `c`.
proof fn lemma_chol_settled<T: Scalar>(a: spec_fn(int, int) -> T, t: nat, i: int, c: int)
    requires
        0 <= c < t,
    ensures
        chol_state(a, t)(i, c) == chol_state(a, (c + 1) as nat)(i, c),
    decreases t,
{
    if t > c + 1 {
        lemma_chol_settled(a, (t - 1) as nat, i, c);
    }
}

/// After `k <= c` steps, an entry `(i, c)` on or below the diagonal plus
/// the products of the factor already subtracted from it is `a(i, c)`.
proof fn lemma_chol_rows<T: Scalar>(a: spec_fn(int, int) -> T, n: nat, k: nat, i: int, c: int)
    requires
        exact_rules::<T>(),
        k <= c <= i,
        c < n,
    ensures
        chol_state(a, k)(i, c).spec_plus(herm_dot(chol_factor(a, n), i, c, k as int)) == a(i, c),
    decreases k,
{
    if k > 0 {
        let j = k - 1;
        lemma_chol_rows(a, n, (k - 1) as nat, i, c);
        lemma_chol_settled(a, n, i, j);
        lemma_chol_settled(a, n, c, j);
        let prev = chol_state(a, (k - 1) as nat);
        let l = chol_factor(a, n);
        let p = l(i, j).spec_times(l(c, j).spec_conj());
        assert(chol_state(a, k)(i, c) == prev(i, c).spec_minus(p));
        lemma_cancel(prev(i, c), p, herm_dot(l, i, c, j));
    }
}

/// Under the rules of exact arithmetic, an `n x n` factorization whose
/// steps all succeed reconstructs the matrix on and below the diagonal:
/// `(L L^*)(i, c) = a(i, c)` for `c <= i`, the products added from the
/// last column `c` and then from column `0` up.
pub proof fn lemma_llt_reconstructs<T: Scalar>(a: spec_fn(int, int) -> T, n: nat)
    requires
        exact_rules::<T>(),
        chol_rules::<T>(),
        chol_pivots_ok(a, n),
    ensures
        forall|i: int, c: int|
            0 <= c <= i < n ==> #[trigger] chol_factor(a, n)(i, c).spec_times(chol_factor(a, n)(c, c).spec_conj()).spec_plus(
                herm_dot(chol_factor(a, n), i, c, c),
            ) == a(i, c),
{
    let l = chol_factor(a, n);
    assert forall|i: int, c: int| 0 <= c <= i < n implies #[trigger] l(i, c).spec_times(l(c, c).spec_conj()).spec_plus(
        herm_dot(l, i, c, c),
    ) == a(i, c) by {
        lemma_chol_rows(a, n, c as nat, i, c);
        lemma_chol_pivots_prefix(a, (c + 1) as nat, n);
        lemma_chol_settled(a, n, i, c);
        lemma_chol_settled(a, n, c, c);
        let s = chol_state(a, c as nat);
        let d = s(c, c);
        assert(!d.spec_real().spec_le(T::spec_zero()));
        let ljj = d.spec_sqrt();
        assert(l(c, c) == ljj);
        assert(ljj.spec_conj() == ljj);
        if i == c {
            assert(l(i, c).spec_times(l(c, c).spec_conj()) == d);
        } else {
            assert(l(i, c) == s(i, c).spec_times(T::spec_from_usize(1).spec_over(ljj)));
            assert(!ljj.spec_eq(T::spec_zero()));
            assert(l(i, c).spec_times(l(c, c).spec_conj()) == s(i, c));
        }
    }
}

/// `g(i, j) - l(i, 0) g(0, j) - ... - l(i, m - 1) g(m - 1, j)`, subtracted
/// in this order.
pub open spec fn lower_acc<T: Scalar>(
    l: spec_fn(int, int) -> T,
    g: spec_fn(int, int) -> T,
    i: int,
    j: int,
    m: nat,
) -> T
    decreases m,
{
    if m == 0 {
        g(i, j)
    } else {
        lower_acc(l, g, i, j, (m - 1) as nat).spec_minus(l(i, m - 1).spec_times(g(m - 1, j)))
    }
}

/// Forward substitution with `L` after the first `t` rows: row `t - 1` is
/// `lower_acc` over the rows above it, divided by `l(t - 1, t - 1)`.
pub open spec fn llt_forward<T: Scalar>(l: spec_fn(int, int) -> T, y: spec_fn(int, int) -> T, t: nat) -> spec_fn(
    int,
    int,
) -> T
    decreases t,
{
    if t == 0 {
        y
    } else {
        let prev = llt_forward(l, y, (t - 1) as nat);
        let i0 = t - 1;
        |i: int, j: int|
            if i == i0 {
                lower_acc(l, prev, i0, j, i0 as nat).spec_over(l(i0, i0))
            } else {
                prev(i, j)
            }
    }
}

/// `g(i, j) - conj(l(i + 1, i)) g(i + 1, j) - ... - conj(l(m - 1, i)) g(m - 1, j)`,
/// subtracted in this order.
pub open spec fn upper_acc<T: Scalar>(
    l: spec_fn(int, int) -> T,
    g: spec_fn(int, int) -> T,
    i: int,
    j: int,
    m: int,
) -> T
    decreases m - i,
{
    if m <= i + 1 {
        g(i, j)
    } else {
        upper_acc(l, g, i, j, m - 1).spec_minus(l(m - 1, i).spec_conj().spec_times(g(m - 1, j)))
    }
}

/// Backward substitution with `L^*` of order `n` after the last `m` rows:
/// row `n - m` is `upper_acc` over the rows below it, divided by its
/// diagonal entry of `l`.
pub open spec fn llt_backward<T: Scalar>(
    l: spec_fn(int, int) -> T,
    y: spec_fn(int, int) -> T,
    n: nat,
    m: nat,
) -> spec_fn(int, int) -> T
    decreases m,
{
    if m == 0 {
        y
    } else {
        let prev = llt_backward(l, y, n, (m - 1) as nat);
        let i0 = n - m;
        |i: int, j: int|
            if i == i0 {
                upper_acc(l, prev, i0, j, n as int).spec_over(l(i0, i0))
            } else {
                prev(i, j)
            }
    }
}

/// A Cholesky decomposition `A = L L^*`.
pub struct LLT<T> {
    l: Matrix<T>,
}

impl<T: Scalar> LLT<T> {
    /// The lower triangular factor `L`.
    pub closed spec fn factor(&self) -> Matrix<T> {
        self.l
    }

    /// The factor is a well-formed square matrix.
    pub open spec fn wf(&self) -> bool {
        self.factor().wf() && self.factor().nrows() == self.factor().ncols()
    }

    /// Computes the factor of a square matrix. Fails when the matrix is not
    /// square, and when some step meets a diagonal entry whose real part is
    /// not greater than zero (the matrix is not positive definite).
    pub fn new(matrix: &Matrix<T>) -> (r: Result<Self, String>)
        requires
            matrix.wf(),
        ensures
            r is Ok <==> matrix.nrows() == matrix.ncols() && llt_ok(grid(*matrix), matrix.nrows()),
            r matches Ok(d) ==> {
                &&& d.wf()
                &&& d.factor().nrows() == matrix.nrows()
                &&& holds(d.factor(), llt_factor(grid(*matrix), matrix.nrows()))
            },
            r matches Err(e) ==> e@ == if matrix.nrows() != matrix.ncols() { "LLT decomposition requires a square matrix"@ } else { "Matrix is not positive definite"@ },
    {
        let rows = matrix.rows();
        let cols = matrix.cols();
        if rows != cols {
            return Err("LLT decomposition requires a square matrix".to_string());
        }
        let n = rows;
        let ghost a0 = grid(*matrix);
        let mut l = matrix.copy();
        proof {
            assert forall|i: int, j: int| #[trigger] l.in_bounds(i, j) implies l.at(i, j) == a0(
                i,
                j,
            ) by {}
        }
        if n > 32 {
            if !factor_blocked(&mut l, Ghost(a0)) {
                return Err("Matrix is not positive definite".to_string());
            }
            return Ok(LLT { l });
        }
        let mut j: usize = 0;
        while j < n
            invariant
                j <= n,
                n == matrix.nrows(),
                n == matrix.ncols(),
                a0 == grid(*matrix),
                l.wf(),
                l.nrows() == n,
                l.ncols() == n,
                n <= 32,
                chol_pivots_ok(a0, j as nat),
                holds(l, chol_state(a0, j as nat)),
            decreases n - j,
        {
            let ghost b = chol_state(a0, j as nat);
            let ghost next = chol_state(a0, (j + 1) as nat);
            assert(l.in_bounds(j as int, j as int));
            let diag_val = l.entry(j, j);
            if diag_val.real_part().is_le(T::zero()) {
                proof {
                    assert(!chol_pivots_ok(a0, (j + 1) as nat));
                    if chol_pivots_ok(a0, n as nat) {
                        lemma_chol_pivots_prefix(a0, (j + 1) as nat, n as nat);
                    }
                }
                return Err("Matrix is not positive definite".to_string());
            }
            let l_jj = diag_val.sqrt();
            let ghost before = l;
            l.set(j, j, l_jj);
            let inv_jj = T::from_usize(1).over(l_jj);
            proof {
                assert forall|r: int, c: int| #[trigger] l.in_bounds(r, c) implies l.at(r, c)
                    == if c == j && j <= r < j + 1 {
                    next(r, c)
                } else {
                    b(r, c)
                } by {
                    assert(before.in_bounds(r, c));
                }
            }
            let mut i = j + 1;
            while i < n
                invariant
                    j < i <= n,
                    l.wf(),
                    l.nrows() == n,
                    l.ncols() == n,
                    b == chol_state(a0, j as nat),
                    next == chol_step(b, j as int),
                    inv_jj == T::spec_from_usize(1).spec_over(b(j as int, j as int).spec_sqrt()),
                    forall|r: int, c: int| #[trigger]
                        l.in_bounds(r, c) ==> l.at(r, c) == if c == j && j <= r < i {
                            next(r, c)
                        } else {
                            b(r, c)
                        },
                decreases n - i,
            {
                let ghost before = l;
                assert(l.in_bounds(i as int, j as int));
                let v = l.entry(i, j);
                l.set(i, j, v.times(inv_jj));
                proof {
                    assert forall|r: int, c: int| #[trigger] l.in_bounds(r, c) implies l.at(r, c)
                        == if c == j && j <= r < i + 1 {
                        next(r, c)
                    } else {
                        b(r, c)
                    } by {
                        assert(before.in_bounds(r, c));
                    }
                }
                i = i + 1;
            }
            let mut k = j + 1;
            while k < n
                invariant
                    j < k <= n,
                    l.wf(),
                    l.nrows() == n,
                    l.ncols() == n,
                    b == chol_state(a0, j as nat),
                    next == chol_step(b, j as int),
                    forall|r: int, c: int| #[trigger]
                        l.in_bounds(r, c) ==> l.at(r, c) == if (c == j && j <= r) || (j < c < k) {
                            next(r, c)
                        } else {
                            b(r, c)
                        },
                decreases n - k,
            {
                assert(l.in_bounds(k as int, j as int));
                let scale = l.entry(k, j).conj();
                let mut i = k;
                while i < n
                    invariant
                        j < k <= i <= n,
                        k < n,
                        l.wf(),
                        l.nrows() == n,
                        l.ncols() == n,
                        b == chol_state(a0, j as nat),
                        next == chol_step(b, j as int),
                        scale == next(k as int, j as int).spec_conj(),
                        forall|r: int, c: int| #[trigger]
                            l.in_bounds(r, c) ==> l.at(r, c) == if (c == j && j <= r) || (j < c < k)
                                || (c == k && r < i) {
                                next(r, c)
                            } else {
                                b(r, c)
                            },
                    decreases n - i,
                {
                    let ghost before = l;
                    assert(l.in_bounds(i as int, k as int));
                    assert(l.in_bounds(i as int, j as int));
                    let x = l.entry(i, k);
                    let y = l.entry(i, j);
                    l.set(i, k, x.minus(y.times(scale)));
                    proof {
                        assert forall|r: int, c: int| #[trigger] l.in_bounds(r, c) implies l.at(
                            r,
                            c,
                        ) == if (c == j && j <= r) || (j < c < k) || (c == k && r < i + 1) {
                            next(r, c)
                        } else {
                            b(r, c)
                        } by {
                            assert(before.in_bounds(r, c));
                        }
                    }
                    i = i + 1;
                }
                k = k + 1;
            }
            proof {
                assert forall|r: int, c: int| #[trigger] l.in_bounds(r, c) implies l.at(r, c)
                    == next(r, c) by {}
            }
            j = j + 1;
        }
        // zeros above the diagonal
        let z = T::zero();
        let ghost s = chol_state(a0, n as nat);
        let ghost fin = chol_factor(a0, n as nat);
        let mut c: usize = 0;
        while c < n
            invariant
                c <= n,
                l.wf(),
                l.nrows() == n,
                l.ncols() == n,
                s == chol_state(a0, n as nat),
                fin == chol_factor(a0, n as nat),
                z == T::spec_zero(),
                forall|r: int, cc: int| #[trigger]
                    l.in_bounds(r, cc) ==> l.at(r, cc) == if cc < c {
                        fin(r, cc)
                    } else {
                        s(r, cc)
                    },
            decreases n - c,
        {
            let mut i: usize = 0;
            while i < c
                invariant
                    c < n,
                    i <= c,
                    l.wf(),
                    l.nrows() == n,
                    l.ncols() == n,
                    s == chol_state(a0, n as nat),
                    fin == chol_factor(a0, n as nat),
                    z == T::spec_zero(),
                    forall|r: int, cc: int| #[trigger]
                        l.in_bounds(r, cc) ==> l.at(r, cc) == if cc < c || (cc == c && r < i) {
                            fin(r, cc)
                        } else {
                            s(r, cc)
                        },
                decreases c - i,
            {
                let ghost before = l;
                l.set(i, c, z);
                proof {
                    assert forall|r: int, cc: int| #[trigger] l.in_bounds(r, cc) implies l.at(r, cc)
                        == if cc < c || (cc == c && r < i + 1) {
                        fin(r, cc)
                    } else {
                        s(r, cc)
                    } by {
                        assert(before.in_bounds(r, cc));
                    }
                }
                i = i + 1;
            }
            c = c + 1;
        }
        Ok(LLT { l })
    }

    /// The factor `L`.
    pub fn matrix_l(&self) -> (r: &Matrix<T>)
        ensures
            *r == self.factor(),
    {
        &self.l
    }

    /// Solves `A x = b` by forward substitution with `L` and backward
    /// substitution with `L^*`; fails exactly when `b` does not have as many
    /// rows as `A`.
    pub fn solve(&self, b: &Matrix<T>) -> (r: Result<Matrix<T>, String>)
        requires
            self.wf(),
            b.wf(),
        ensures
            r is Ok <==> b.nrows() == self.factor().nrows(),
            r matches Ok(x) ==> {
                let f = grid(self.factor());
                let n = self.factor().nrows();
                &&& x.wf()
                &&& x.same_shape(b)
                &&& holds(x, llt_backward(f, llt_forward(f, grid(*b), n), n, n))
            },
            r matches Err(e) ==> e@ == "Dimension mismatch in LLT solve"@,
    {
        let rows = self.l.rows();
        if b.rows() != rows {
            return Err("Dimension mismatch in LLT solve".to_string());
        }
        let cols = b.cols();
        let ghost f = grid(self.factor());
        let ghost y0 = grid(*b);
        let mut x = b.copy();
        proof {
            assert forall|i: int, j: int| #[trigger] x.in_bounds(i, j) implies x.at(i, j) == y0(
                i,
                j,
            ) by {}
        }
        // forward substitution with L
        let mut i: usize = 0;
        while i < rows
            invariant
                self.wf(),
                rows == self.factor().nrows(),
                f == grid(self.factor()),
                i <= rows,
                x.wf(),
                x.nrows() == rows,
                x.ncols() == cols,
                holds(x, llt_forward(f, y0, i as nat)),
            decreases rows - i,
        {
            let ghost prev = llt_forward(f, y0, i as nat);
            let ghost next = llt_forward(f, y0, (i + 1) as nat);
            assert(self.l.in_bounds(i as int, i as int));
            let l_ii = self.l.entry(i, i);
            let mut j: usize = 0;
            while j < cols
                invariant
                    self.wf(),
                    rows == self.factor().nrows(),
                    f == grid(self.factor()),
                    i < rows,
                    j <= cols,
                    l_ii == f(i as int, i as int),
                    x.wf(),
                    x.nrows() == rows,
                    x.ncols() == cols,
                    prev == llt_forward(f, y0, i as nat),
                    next == llt_forward(f, y0, (i + 1) as nat),
                    forall|r: int, c: int| #[trigger]
                        x.in_bounds(r, c) ==> x.at(r, c) == if r == i && c < j {
                            next(r, c)
                        } else {
                            prev(r, c)
                        },
                decreases cols - j,
            {
                assert(x.in_bounds(i as int, j as int));
                let mut val = x.entry(i, j);
                let mut k: usize = 0;
                while k < i
                    invariant
                        self.wf(),
                        rows == self.factor().nrows(),
                        f == grid(self.factor()),
                        i < rows,
                        j < cols,
                        k <= i,
                        x.wf(),
                        x.nrows() == rows,
                        x.ncols() == cols,
                        prev == llt_forward(f, y0, i as nat),
                        forall|r: int, c: int| #[trigger]
                            x.in_bounds(r, c) ==> x.at(r, c) == if r == i && c < j {
                                next(r, c)
                            } else {
                                prev(r, c)
                            },
                        val == lower_acc(f, prev, i as int, j as int, k as nat),
                    decreases i - k,
                {
                    assert(self.l.in_bounds(i as int, k as int));
                    assert(x.in_bounds(k as int, j as int));
                    val = val.minus(self.l.entry(i, k).times(x.entry(k, j)));
                    k = k + 1;
                }
                let ghost before = x;
                x.set(i, j, val.over(l_ii));
                proof {
                    assert forall|r: int, c: int| #[trigger] x.in_bounds(r, c) implies x.at(r, c)
                        == if r == i && c < j + 1 {
                        next(r, c)
                    } else {
                        prev(r, c)
                    } by {
                        assert(before.in_bounds(r, c));
                    }
                }
                j = j + 1;
            }
            i = i + 1;
        }
        let ghost y1 = llt_forward(f, y0, rows as nat);
        // backward substitution with L^*
        let mut m: usize = 0;
        while m < rows
            invariant
                self.wf(),
                rows == self.factor().nrows(),
                f == grid(self.factor()),
                y1 == llt_forward(f, y0, rows as nat),
                m <= rows,
                x.wf(),
                x.nrows() == rows,
                x.ncols() == cols,
                holds(x, llt_backward(f, y1, rows as nat, m as nat)),
            decreases rows - m,
        {
            let i = rows - 1 - m;
            let ghost prev = llt_backward(f, y1, rows as nat, m as nat);
            let ghost next = llt_backward(f, y1, rows as nat, (m + 1) as nat);
            assert(self.l.in_bounds(i as int, i as int));
            let l_ii = self.l.entry(i, i);
            let mut j: usize = 0;
            while j < cols
                invariant
                    self.wf(),
                    rows == self.factor().nrows(),
                    f == grid(self.factor()),
                    m < rows,
                    i == rows - 1 - m,
                    j <= cols,
                    l_ii == f(i as int, i as int),
                    x.wf(),
                    x.nrows() == rows,
                    x.ncols() == cols,
                    prev == llt_backward(f, y1, rows as nat, m as nat),
                    next == llt_backward(f, y1, rows as nat, (m + 1) as nat),
                    forall|r: int, c: int| #[trigger]
                        x.in_bounds(r, c) ==> x.at(r, c) == if r == i && c < j {
                            next(r, c)
                        } else {
                            prev(r, c)
                        },
                decreases cols - j,
            {
                assert(x.in_bounds(i as int, j as int));
                let mut val = x.entry(i, j);
                let mut k = i + 1;
                while k < rows
                    invariant
                        self.wf(),
                        rows == self.factor().nrows(),
                        f == grid(self.factor()),
                        i < k <= rows,
                        j < cols,
                        x.wf(),
                        x.nrows() == rows,
                        x.ncols() == cols,
                        prev == llt_backward(f, y1, rows as nat, m as nat),
                        forall|r: int, c: int| #[trigger]
                            x.in_bounds(r, c) ==> x.at(r, c) == if r == i && c < j {
                                next(r, c)
                            } else {
                                prev(r, c)
                            },
                        val == upper_acc(f, prev, i as int, j as int, k as int),
                    decreases rows - k,
                {
                    assert(self.l.in_bounds(k as int, i as int));
                    assert(x.in_bounds(k as int, j as int));
                    val = val.minus(self.l.entry(k, i).conj().times(x.entry(k, j)));
                    k = k + 1;
                }
                let ghost before = x;
                x.set(i, j, val.over(l_ii));
                proof {
                    assert forall|r: int, c: int| #[trigger] x.in_bounds(r, c) implies x.at(r, c)
                        == if r == i && c < j + 1 {
                        next(r, c)
                    } else {
                        prev(r, c)
                    } by {
                        assert(before.in_bounds(r, c));
                    }
                }
                j = j + 1;
            }
            m = m + 1;
        }
        Ok(x)
    }

    /// Solves `L X = B` in place, by blocks of 32 rows: each block first
    /// loses the product of its rows of `L` left of the block with the
    /// solved rows above, then is solved with its diagonal block. Fails
    /// (leaving `mat` unchanged) exactly when `mat` does not have as many
    /// rows as `L`.
    pub fn solve_inplace_l(&self, mat: &mut Matrix<T>) -> (r: Result<(), String>)
        requires
            self.wf(),
            old(mat).wf(),
            old(mat).nrows() == self.factor().nrows() && old(mat).ncols() == 0 ==> self.factor().nrows() <= 32,
        ensures
            final(mat).wf(),
            final(mat).same_shape(old(mat)),
            r is Ok <==> old(mat).nrows() == self.factor().nrows(),
            r is Err ==> *final(mat) == *old(mat),
            r is Ok ==> holds(
                *final(mat),
                lower_solve_state(
                    grid(self.factor()),
                    grid(*old(mat)),
                    self.factor().nrows() as int,
                    block_count(self.factor().nrows()),
                ),
            ),
            r matches Err(e) ==> e@ == "Dimension mismatch in LLT solve_inplace_l"@,
    {
        let rows = self.l.rows();
        if mat.rows() != rows {
            return Err("Dimension mismatch in LLT solve_inplace_l".to_string());
        }
        let ghost gl = grid(self.factor());
        let ghost gb = grid(*mat);
        let ghost nb = block_count(rows as nat);
        let ghost mut g = gb;
        let ghost mut q: nat = 0;
        proof {
            assert forall|i: int, j: int| #[trigger] self.l.in_bounds(i, j) implies self.l.at(i, j) == gl(i, j) by {}
            assert forall|i: int, j: int| #[trigger] mat.in_bounds(i, j) implies mat.at(i, j) == g(i, j) by {}
        }
        let mut k: usize = 0;
        while k < rows
            invariant
                k == 32 * q || (k == rows && q == nb),
                k <= rows,
                q <= nb,
                nb == block_count(rows as nat),
                rows == self.factor().nrows(),
                self.wf(),
                gl == grid(self.factor()),
                mat.wf(),
                mat.same_shape(old(mat)),
                mat.nrows() == rows,
                holds(*mat, g),
                g == lower_solve_state(gl, gb, rows as int, q),
                k < rows ==> q < nb,
                k >= rows ==> q == nb,
            decreases rows - k,
        {
            let kb: usize = if rows - k < 32 {
                rows - k
            } else {
                32
            };
            assert(kb == block_width(rows as int, q as int));
            if k > 0 {
                apply_lower_gemm(mat, &self.l, k, kb, Ghost(g), Ghost(gl));
            }
            let ghost g1 = lower_gemm(gl, g, k as int, kb as int);
            assert(holds(*mat, g1));
            apply_lower_block(mat, &self.l, k, kb, Ghost(g1), Ghost(gl));
            proof {
                g = lower_block_solve(gl, g1, k as int, kb as nat);
                q = q + 1;
                vstd::arithmetic::div_mod::lemma_fundamental_div_mod(rows + 31, 32);
                vstd::arithmetic::div_mod::lemma_mod_bound(rows + 31, 32);
            }
            k = k + kb;
        }
        Ok(())
    }

    /// Solves `L^* X = B` in place, by blocks of 32 rows from the bottom:
    /// each block first loses the product of the conjugated rows of `L`
    /// below the block with the solved rows below, then is solved with its
    /// transposed diagonal block. Fails (leaving `mat` unchanged) exactly
    /// when `mat` does not have as many rows as `L`.
    pub fn solve_inplace_lt(&self, mat: &mut Matrix<T>) -> (r: Result<(), String>)
        requires
            self.wf(),
            old(mat).wf(),
            old(mat).nrows() == self.factor().nrows() && old(mat).ncols() == 0 ==> self.factor().nrows() <= 32,
        ensures
            final(mat).wf(),
            final(mat).same_shape(old(mat)),
            r is Ok <==> old(mat).nrows() == self.factor().nrows(),
            r is Err ==> *final(mat) == *old(mat),
            r is Ok ==> holds(
                *final(mat),
                upper_solve_state(
                    grid(self.factor()),
                    grid(*old(mat)),
                    self.factor().nrows() as int,
                    block_count(self.factor().nrows()),
                ),
            ),
            r matches Err(e) ==> e@ == "Dimension mismatch in LLT solve_inplace_lt"@,
    {
        let rows = self.l.rows();
        if mat.rows() != rows {
            return Err("Dimension mismatch in LLT solve_inplace_lt".to_string());
        }
        let ghost gl = grid(self.factor());
        let ghost gb = grid(*mat);
        let ghost nb = block_count(rows as nat);
        let ghost mut g = gb;
        let ghost mut q: nat = 0;
        proof {
            assert forall|i: int, j: int| #[trigger] self.l.in_bounds(i, j) implies self.l.at(i, j) == gl(i, j) by {}
            assert forall|i: int, j: int| #[trigger] mat.in_bounds(i, j) implies mat.at(i, j) == g(i, j) by {}
            vstd::arithmetic::div_mod::lemma_fundamental_div_mod(rows + 31, 32);
            vstd::arithmetic::div_mod::lemma_mod_bound(rows + 31, 32);
        }
        let mut k: usize = rows;
        while k > 0
            invariant
                k == back_block_end(rows as int, q as int),
                k <= rows,
                q <= nb,
                nb == block_count(rows as nat),
                32 * nb <= rows + 31 < 32 * nb + 32,
                rows == self.factor().nrows(),
                self.wf(),
                gl == grid(self.factor()),
                mat.wf(),
                mat.same_shape(old(mat)),
                mat.nrows() == rows,
                holds(*mat, g),
                g == upper_solve_state(gl, gb, rows as int, q),
                k > 0 ==> q < nb,
                k == 0 ==> q == nb,
            decreases k,
        {
            let kb: usize = if k >= 32 {
                32
            } else {
                k
            };
            assert(kb == back_block_height(rows as int, q as int));
            let start = k - kb;
            if k < rows {
                apply_upper_gemm(mat, &self.l, start, k, Ghost(g), Ghost(gl));
            }
            let ghost g1 = upper_gemm(gl, g, start as int, k as int, rows as int);
            assert(holds(*mat, g1));
            apply_upper_block(mat, &self.l, k, kb, Ghost(g1), Ghost(gl));
            proof {
                g = upper_block_solve(gl, g1, k as int, kb as nat);
                q = q + 1;
            }
            k = k - kb;
        }
        Ok(())
    }
}

impl<T: Scalar> Matrix<T> {
    /// The Cholesky decomposition of this matrix (see `LLT::new`).
    pub fn llt(&self) -> (r: Result<LLT<T>, String>)
        requires
            self.wf(),
        ensures
            r is Ok <==> self.nrows() == self.ncols() && llt_ok(grid(*self), self.nrows()),
            r matches Ok(d) ==> {
                &&& d.wf()
                &&& d.factor().nrows() == self.nrows()
                &&& holds(d.factor(), llt_factor(grid(*self), self.nrows()))
            },
            r matches Err(e) ==> e@ == if self.nrows() != self.ncols() { "LLT decomposition requires a square matrix"@ } else { "Matrix is not positive definite"@ },
    {
        LLT::new(self)
    }
}

} // verus!
