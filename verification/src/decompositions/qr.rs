//! Householder QR decomposition `A = Q R`.
//!
//! The result is stored compactly: the upper triangle of the working
//! matrix is `R`, the strict lower triangle holds the Householder vectors
//! (with an implicit leading one), and `h_coeffs` holds their coefficients.

use crate::decompositions::lu::{grid, holds};
use crate::matrix::Matrix;
use crate::scalar::Scalar;
use crate::text::{decimal, push_decimal};
use vstd::prelude::*;
use vstd::string::StringExecFns;

verus! {

/// `|b(k, k)|^2 + ... + |b(m - 1, k)|^2` accumulated from zero (squared
/// moduli as values of the type).
pub open spec fn col_norm_sq<T: Scalar>(b: spec_fn(int, int) -> T, k: int, m: int) -> T
    decreases m - k,
{
    if m <= k {
        T::spec_zero()
    } else {
        col_norm_sq(b, k, m - 1).spec_plus(b(m - 1, k).spec_norm_sq())
    }
}

/// The reflection's `sigma`: `norm` when `|v0|` equals zero, otherwise
/// `v0 * norm / |v0|`, aligned with `v0`.
pub open spec fn qr_sigma<T: Scalar>(v0: T, norm: T) -> T {
    if v0.spec_abs().spec_eq(T::spec_zero()) {
        norm
    } else {
        v0.spec_times(norm).spec_over(v0.spec_abs())
    }
}

/// `x(k, j) + w(k+1, k)' x(k+1, j) + ... + w(m-1, k)' x(m-1, j)`, added in
/// this order, where `'` is conjugation when `conj` holds and nothing
/// otherwise.
pub open spec fn hh_dot<T: Scalar>(
    w: spec_fn(int, int) -> T,
    x: spec_fn(int, int) -> T,
    k: int,
    j: int,
    m: int,
    conj: bool,
) -> T
    decreases m - k,
{
    if m <= k + 1 {
        x(k, j)
    } else {
        let v = w(m - 1, k);
        let cv = if conj {
            v.spec_conj()
        } else {
            v
        };
        hh_dot(w, x, k, j, m - 1, conj).spec_plus(cv.spec_times(x(m - 1, j)))
    }
}

/// Applies the reflection with vector `(1, w(k+1, k), ..., w(m-1, k))` and
/// coefficient `tau` to the columns `j >= lo` of rows `k .. m` of `x`: with
/// `f = tau * hh_dot(..)`, row `k` loses `f` and row `i > k` loses
/// `f * w(i, k)`.
pub open spec fn reflect<T: Scalar>(
    w: spec_fn(int, int) -> T,
    tau: T,
    x: spec_fn(int, int) -> T,
    k: int,
    m: int,
    lo: int,
    conj: bool,
) -> spec_fn(int, int) -> T {
    |i: int, j: int|
        if j < lo || i < k || i >= m {
            x(i, j)
        } else {
            let f = tau.spec_times(hh_dot(w, x, k, j, m, conj));
            if i == k {
                x(k, j).spec_minus(f)
            } else {
                x(i, j).spec_minus(f.spec_times(w(i, k)))
            }
        }
}

/// The working column `k` after its Householder vector is formed: entries
/// below the diagonal multiplied by `1 / (v0 + sigma)`, the diagonal
/// replaced by `0 - sigma`.
pub open spec fn hh_column<T: Scalar>(b: spec_fn(int, int) -> T, k: int, sigma: T) -> spec_fn(
    int,
    int,
) -> T {
    let inv = b(k, k).spec_plus(sigma).spec_recip();
    |i: int, c: int|
        if c == k && i > k {
            b(i, k).spec_times(inv)
        } else if c == k && i == k {
            T::spec_zero().spec_minus(sigma)
        } else {
            b(i, c)
        }
}

/// Step `k` on a matrix with `rows` rows: returns the new working matrix
/// and the coefficient `tau`. A column whose tail has norm zero is left as
/// it is with `tau = 0`; otherwise `tau = (v0 + sigma) / sigma` and the
/// reflection is applied to the columns right of `k`.
pub open spec fn qr_step<T: Scalar>(b: spec_fn(int, int) -> T, rows: int, k: int) -> (
    spec_fn(int, int) -> T,
    T,
) {
    let norm = col_norm_sq(b, k, rows).spec_real_sqrt();
    if norm.spec_eq(T::spec_zero()) {
        (b, T::spec_zero())
    } else {
        let sigma = qr_sigma(b(k, k), norm);
        let tau = b(k, k).spec_plus(sigma).spec_over(sigma);
        let w = hh_column(b, k, sigma);
        (reflect(w, tau, w, k, rows, k + 1, true), tau)
    }
}

/// The working matrix and the coefficients after the first `k` steps on
/// `a` (with `rows` rows and `size` coefficients, all zero at first).
pub open spec fn qr_state<T: Scalar>(a: spec_fn(int, int) -> T, rows: int, size: nat, k: nat) -> (
    spec_fn(int, int) -> T,
    Seq<T>,
)
    decreases k,
{
    if k == 0 {
        (a, Seq::new(size, |i: int| T::spec_zero()))
    } else {
        let prev = qr_state(a, rows, size, (k - 1) as nat);
        let st = qr_step(prev.0, rows, k - 1);
        (st.0, prev.1.update(k - 1, st.1))
    }
}

/// There is one coefficient per reflection at every step.
pub proof fn lemma_qr_coeffs_len<T: Scalar>(a: spec_fn(int, int) -> T, rows: int, size: nat, k: nat)
    requires
        k <= size,
    ensures
        qr_state(a, rows, size, k).1.len() == size,
    decreases k,
{
    if k > 0 {
        lemma_qr_coeffs_len(a, rows, size, (k - 1) as nat);
    }
}

/// `w(i, i+1) g(i+1, j) + ... + w(i, m-1) g(m-1, j)` accumulated from zero.
pub open spec fn usum<T: Scalar>(w: spec_fn(int, int) -> T, g: spec_fn(int, int) -> T, i: int, j: int, m: int) -> T
    decreases m - i,
{
    if m <= i + 1 {
        T::spec_zero()
    } else {
        usum(w, g, i, j, m - 1).spec_plus(w(i, m - 1).spec_times(g(m - 1, j)))
    }
}

/// `Q` built from the identity (the image of `1` on the diagonal, zero
/// elsewhere) by applying the last `m` of the `size` reflections stored in
/// `w` and `h`, from the last one backwards, without conjugation; a
/// reflection whose coefficient equals zero is skipped.
pub open spec fn q_build<T: Scalar>(w: spec_fn(int, int) -> T, h: Seq<T>, rows: int, size: nat, m: nat) -> spec_fn(
    int,
    int,
) -> T
    decreases m,
{
    if m == 0 {
        |i: int, j: int|
            if i == j {
                T::spec_from_usize(1)
            } else {
                T::spec_zero()
            }
    } else {
        let prev = q_build(w, h, rows, size, (m - 1) as nat);
        let k = size - m;
        if h[k].spec_eq(T::spec_zero()) {
            prev
        } else {
            reflect(w, h[k], prev, k, rows, 0, false)
        }
    }
}

/// `Q^* b`: the first `m` reflections applied to `b` in order, with
/// conjugation; a reflection whose coefficient equals zero is skipped.
pub open spec fn apply_qt<T: Scalar>(w: spec_fn(int, int) -> T, h: Seq<T>, rows: int, b: spec_fn(int, int) -> T, m: nat) -> spec_fn(
    int,
    int,
) -> T
    decreases m,
{
    if m == 0 {
        b
    } else {
        let prev = apply_qt(w, h, rows, b, (m - 1) as nat);
        let k = m - 1;
        if h[k].spec_eq(T::spec_zero()) {
            prev
        } else {
            reflect(w, h[k], prev, k, rows, 0, true)
        }
    }
}

/// Back substitution with the upper triangle of `w` after the last `m` of
/// `size` rows: row `i = size - m` becomes
/// `(y(i, j) - usum(..)) / w(i, i)`, the sum running over columns
/// `i + 1 .. cols`.
pub open spec fn qr_back<T: Scalar>(w: spec_fn(int, int) -> T, y: spec_fn(int, int) -> T, size: nat, cols: int, m: nat) -> spec_fn(
    int,
    int,
) -> T
    decreases m,
{
    if m == 0 {
        y
    } else {
        let prev = qr_back(w, y, size, cols, (m - 1) as nat);
        let i0 = size - m;
        |i: int, j: int|
            if i == i0 {
                prev(i0, j).spec_minus(usum(w, prev, i0, j, cols)).spec_over(w(i0, i0))
            } else {
                prev(i, j)
            }
    }
}

/// The diagonal entry `i` of `w` counts as zero for the solve.
pub open spec fn tiny_pivot<T: Scalar>(w: spec_fn(int, int) -> T, i: int) -> bool {
    w(i, i).spec_abs().spec_lt(T::spec_singular_threshold())
}

/// The largest `i < m` whose diagonal entry is tiny (`-1` when there is
/// none): the first one met by a back substitution from the bottom.
pub open spec fn top_tiny<T: Scalar>(w: spec_fn(int, int) -> T, m: int) -> int
    decreases m,
{
    if m <= 0 {
        -1
    } else if tiny_pivot(w, m - 1) {
        m - 1
    } else {
        top_tiny(w, m - 1)
    }
}

/// A tiny diagonal entry at `i` with none above it below `m` is the one
/// `top_tiny` finds.
proof fn lemma_top_tiny<T: Scalar>(w: spec_fn(int, int) -> T, i: int, m: int)
    requires
        0 <= i < m,
        tiny_pivot(w, i),
        forall|q: int| i < q < m ==> !#[trigger] tiny_pivot(w, q),
    ensures
        top_tiny(w, m) == i,
    decreases m,
{
    if m - 1 > i {
        assert(!tiny_pivot(w, m - 1));
        lemma_top_tiny(w, i, m - 1);
    }
}

/// The refusal of a right-hand side with `got` rows for a matrix with
/// `want` rows.
pub open spec fn qr_mismatch_text(got: nat, want: nat) -> Seq<char> {
    "Dimension mismatch in QR solve: b.rows() "@ + decimal(got) + " != A.rows() "@ + decimal(want)
}

/// The refusal of a solve whose back substitution meets a tiny diagonal
/// entry at row `i`.
pub open spec fn qr_singular_text(i: nat) -> Seq<char> {
    "QR solve failed: singular matrix (zero diagonal at "@ + decimal(i) + ")"@
}

/// A Householder QR decomposition.
pub struct HouseholderQR<T> {
    qr: Matrix<T>,
    h_coeffs: Vec<T>,
}

impl<T: Scalar> HouseholderQR<T> {
    /// The compact working matrix.
    pub closed spec fn packed(&self) -> Matrix<T> {
        self.qr
    }

    /// The Householder coefficients.
    pub closed spec fn coeffs(&self) -> Seq<T> {
        self.h_coeffs@
    }

    /// The number of reflections, `min(rows, cols)`.
    pub open spec fn size(&self) -> nat {
        if self.packed().nrows() <= self.packed().ncols() {
            self.packed().nrows()
        } else {
            self.packed().ncols()
        }
    }

    /// A well-formed working matrix and one coefficient per reflection.
    pub open spec fn wf(&self) -> bool {
        &&& self.packed().wf()
        &&& self.coeffs().len() == self.size()
    }

    /// Computes the decomposition of any matrix.
    pub fn new(matrix: &Matrix<T>) -> (d: Self)
        requires
            matrix.wf(),
        ensures
            d.wf(),
            d.packed().same_shape(matrix),
            ({
                let st = qr_state(grid(*matrix), matrix.nrows() as int, d.size(), d.size());
                holds(d.packed(), st.0) && d.coeffs() == st.1
            }),
    {
        let rows = matrix.rows();
        let cols = matrix.cols();
        let size = if rows <= cols {
            rows
        } else {
            cols
        };
        let ghost a0 = grid(*matrix);
        let mut qr = matrix.copy();
        let mut h: Vec<T> = Vec::new();
        let mut i: usize = 0;
        while i < size
            invariant
                i <= size,
                h@.len() == i,
                forall|q: int| 0 <= q < i ==> #[trigger] h@[q] == T::spec_zero(),
            decreases size - i,
        {
            h.push(T::zero());
            i = i + 1;
        }
        proof {
            assert(h@ == qr_state(a0, rows as int, size as nat, 0).1);
            assert forall|i: int, j: int| #[trigger] qr.in_bounds(i, j) implies qr.at(i, j) == a0(
                i,
                j,
            ) by {}
        }
        let mut k: usize = 0;
        while k < size
            invariant
                k <= size,
                size <= rows,
                size <= cols,
                a0 == grid(*matrix),
                qr.wf(),
                qr.nrows() == rows,
                qr.ncols() == cols,
                holds(qr, qr_state(a0, rows as int, size as nat, k as nat).0),
                h@ == qr_state(a0, rows as int, size as nat, k as nat).1,
            decreases size - k,
        {
            Self::householder_step(&mut qr, &mut h, k, Ghost(a0), Ghost(size as nat));
            k = k + 1;
        }
        proof {
            lemma_qr_coeffs_len(a0, rows as int, size as nat, size as nat);
        }
        HouseholderQR { qr, h_coeffs: h }
    }

    /// Performs step `k` in place.
    fn householder_step(
        qr: &mut Matrix<T>,
        h: &mut Vec<T>,
        k: usize,
        Ghost(a0): Ghost<spec_fn(int, int) -> T>,
        Ghost(size): Ghost<nat>,
    )
        requires
            old(qr).wf(),
            k < size,
            size <= old(qr).nrows(),
            size <= old(qr).ncols(),
            holds(*old(qr), qr_state(a0, old(qr).nrows() as int, size, k as nat).0),
            old(h)@ == qr_state(a0, old(qr).nrows() as int, size, k as nat).1,
        ensures
            final(qr).wf(),
            final(qr).same_shape(old(qr)),
            holds(*final(qr), qr_state(a0, old(qr).nrows() as int, size, (k + 1) as nat).0),
            final(h)@ == qr_state(a0, old(qr).nrows() as int, size, (k + 1) as nat).1,
    {
        let rows = qr.rows();
        let cols = qr.cols();
        proof {
            lemma_qr_coeffs_len(a0, rows as int, size, k as nat);
        }
        let ghost prev = qr_state(a0, rows as int, size, k as nat);
        let ghost b = prev.0;
        // 1. norm of the tail of column k
        let mut norm_sq = T::zero();
        let mut i = k;
        while i < rows
            invariant
                k <= i <= rows,
                k < cols,
                qr.wf(),
                qr.nrows() == rows,
                qr.ncols() == cols,
                holds(*qr, b),
                norm_sq == col_norm_sq(b, k as int, i as int),
            decreases rows - i,
        {
            assert(qr.in_bounds(i as int, k as int));
            norm_sq = norm_sq.plus(qr.entry(i, k).norm_sq());
            i = i + 1;
        }
        let norm = norm_sq.real_sqrt();
        if norm.is_eq(T::zero()) {
            h.set(k, T::zero());
            return;
        }
        assert(qr.in_bounds(k as int, k as int));
        let v0 = qr.entry(k, k);
        let v0_abs = v0.abs();
        let sigma = if v0_abs.is_eq(T::zero()) {
            norm
        } else {
            v0.times(norm).over(v0_abs)
        };
        let v0_new = v0.plus(sigma);
        let tau = v0_new.over(sigma);
        h.set(k, tau);
        let inv_v0_new = v0_new.recip();
        let ghost w = hh_column(b, k as int, sigma);
        // 2. the Householder vector and the new diagonal entry
        let mut i = k + 1;
        while i < rows
            invariant
                k < i <= rows,
                k < cols,
                qr.wf(),
                qr.nrows() == rows,
                qr.ncols() == cols,
                w == hh_column(b, k as int, sigma),
                inv_v0_new == b(k as int, k as int).spec_plus(sigma).spec_recip(),
                forall|r: int, c: int| #[trigger]
                    qr.in_bounds(r, c) ==> qr.at(r, c) == if c == k && k < r < i {
                        w(r, c)
                    } else {
                        b(r, c)
                    },
            decreases rows - i,
        {
            let ghost before = *qr;
            assert(qr.in_bounds(i as int, k as int));
            let v = qr.entry(i, k);
            qr.set(i, k, v.times(inv_v0_new));
            proof {
                assert forall|r: int, c: int| #[trigger] qr.in_bounds(r, c) implies qr.at(r, c)
                    == if c == k && k < r < i + 1 {
                    w(r, c)
                } else {
                    b(r, c)
                } by {
                    assert(before.in_bounds(r, c));
                }
            }
            i = i + 1;
        }
        let ghost before = *qr;
        qr.set(k, k, T::zero().minus(sigma));
        proof {
            assert forall|r: int, c: int| #[trigger] qr.in_bounds(r, c) implies qr.at(r, c) == w(
                r,
                c,
            ) by {
                assert(before.in_bounds(r, c));
            }
        }
        // 3. reflection of the columns right of k
        let ghost next = reflect(w, tau, w, k as int, rows as int, (k + 1) as int, true);
        let mut j = k + 1;
        while j < cols
            invariant
                k < j <= cols,
                k < rows,
                qr.wf(),
                qr.nrows() == rows,
                qr.ncols() == cols,
                next == reflect(w, tau, w, k as int, rows as int, (k + 1) as int, true),
                forall|r: int, c: int| #[trigger]
                    qr.in_bounds(r, c) ==> qr.at(r, c) == if c < j {
                        next(r, c)
                    } else {
                        w(r, c)
                    },
            decreases cols - j,
        {
            assert(qr.in_bounds(k as int, j as int));
            let mut dot = qr.entry(k, j);
            let mut i = k + 1;
            while i < rows
                invariant
                    k < j < cols,
                    k < i <= rows,
                    next == reflect(w, tau, w, k as int, rows as int, (k + 1) as int, true),
                    qr.wf(),
                    qr.nrows() == rows,
                    qr.ncols() == cols,
                    forall|r: int, c: int| #[trigger]
                        qr.in_bounds(r, c) ==> qr.at(r, c) == if c < j {
                            next(r, c)
                        } else {
                            w(r, c)
                        },
                    dot == hh_dot(w, w, k as int, j as int, i as int, true),
                decreases rows - i,
            {
                assert(qr.in_bounds(i as int, k as int));
                assert(qr.in_bounds(i as int, j as int));
                assert(next(i as int, k as int) == w(i as int, k as int));
                dot = dot.plus(qr.entry(i, k).conj().times(qr.entry(i, j)));
                i = i + 1;
            }
            let factor = tau.times(dot);
            let ghost before = *qr;
            let x = qr.entry(k, j);
            qr.set(k, j, x.minus(factor));
            proof {
                assert forall|r: int, c: int| #[trigger] qr.in_bounds(r, c) implies qr.at(r, c)
                    == if c < j || (c == j && r <= k) {
                    next(r, c)
                } else {
                    w(r, c)
                } by {
                    assert(before.in_bounds(r, c));
                }
            }
            let mut i = k + 1;
            while i < rows
                invariant
                    k < j < cols,
                    k < i <= rows,
                    next == reflect(w, tau, w, k as int, rows as int, (k + 1) as int, true),
                    qr.wf(),
                    qr.nrows() == rows,
                    qr.ncols() == cols,
                    factor == tau.spec_times(hh_dot(w, w, k as int, j as int, rows as int, true)),
                    forall|r: int, c: int| #[trigger]
                        qr.in_bounds(r, c) ==> qr.at(r, c) == if c < j || (c == j && r < i) {
                            next(r, c)
                        } else {
                            w(r, c)
                        },
                decreases rows - i,
            {
                let ghost before = *qr;
                assert(qr.in_bounds(i as int, k as int));
                assert(qr.in_bounds(i as int, j as int));
                let vi = qr.entry(i, k);
                let x = qr.entry(i, j);
                assert(vi == w(i as int, k as int));
                assert(x == w(i as int, j as int));
                assert(next(i as int, j as int) == x.spec_minus(factor.spec_times(vi)));
                qr.set(i, j, x.minus(factor.times(vi)));
                proof {
                    assert forall|r: int, c: int| #[trigger] qr.in_bounds(r, c) implies qr.at(r, c)
                        == if c < j || (c == j && r < i + 1) {
                        next(r, c)
                    } else {
                        w(r, c)
                    } by {
                        assert(before.in_bounds(r, c));
                    }
                }
                i = i + 1;
            }
            j = j + 1;
        }
        proof {
            assert forall|r: int, c: int| #[trigger] qr.in_bounds(r, c) implies qr.at(r, c) == next(
                r,
                c,
            ) by {}
        }
    }

    /// Applies reflection `k` (vector from column `k` of the working
    /// matrix, coefficient `tau`) to every column of `x`.
    fn apply_reflection(&self, x: &mut Matrix<T>, k: usize, tau: T, conj: bool)
        requires
            self.wf(),
            old(x).wf(),
            old(x).nrows() == self.packed().nrows(),
            k < self.packed().nrows(),
            k < self.packed().ncols(),
        ensures
            final(x).wf(),
            final(x).same_shape(old(x)),
            holds(
                *final(x),
                reflect(grid(self.packed()), tau, grid(*old(x)), k as int, self.packed().nrows() as int, 0, conj),
            ),
    {
        let rows = self.qr.rows();
        let cols = x.cols();
        let ghost w = grid(self.packed());
        let ghost x0 = grid(*x);
        let ghost next = reflect(w, tau, x0, k as int, rows as int, 0, conj);
        proof {
            assert forall|r: int, c: int| #[trigger] x.in_bounds(r, c) implies x.at(r, c) == x0(r, c) by {}
        }
        let mut j: usize = 0;
        while j < cols
            invariant
                self.wf(),
                rows == self.packed().nrows(),
                k < rows,
                k < self.packed().ncols(),
                j <= cols,
                x.wf(),
                x.nrows() == rows,
                x.ncols() == cols,
                w == grid(self.packed()),
                next == reflect(w, tau, x0, k as int, rows as int, 0, conj),
                forall|r: int, c: int| #[trigger]
                    x.in_bounds(r, c) ==> x.at(r, c) == if c < j {
                        next(r, c)
                    } else {
                        x0(r, c)
                    },
            decreases cols - j,
        {
            assert(x.in_bounds(k as int, j as int));
            let mut dot = x.entry(k, j);
            let mut i = k + 1;
            while i < rows
                invariant
                    self.wf(),
                    rows == self.packed().nrows(),
                    k < i <= rows,
                    k < self.packed().ncols(),
                    j < cols,
                    x.wf(),
                    x.nrows() == rows,
                    x.ncols() == cols,
                    w == grid(self.packed()),
                    forall|r: int, c: int| #[trigger]
                        x.in_bounds(r, c) ==> x.at(r, c) == if c < j {
                            next(r, c)
                        } else {
                            x0(r, c)
                        },
                    dot == hh_dot(w, x0, k as int, j as int, i as int, conj),
                decreases rows - i,
            {
                assert(self.qr.in_bounds(i as int, k as int));
                assert(x.in_bounds(i as int, j as int));
                let v = self.qr.entry(i, k);
                let cv = if conj {
                    v.conj()
                } else {
                    v
                };
                dot = dot.plus(cv.times(x.entry(i, j)));
                i = i + 1;
            }
            let factor = tau.times(dot);
            let ghost before = *x;
            let xv = x.entry(k, j);
            x.set(k, j, xv.minus(factor));
            proof {
                assert forall|r: int, c: int| #[trigger] x.in_bounds(r, c) implies x.at(r, c) == if c
                    < j || (c == j && r <= k) {
                    next(r, c)
                } else {
                    x0(r, c)
                } by {
                    assert(before.in_bounds(r, c));
                }
            }
            let mut i = k + 1;
            while i < rows
                invariant
                    self.wf(),
                    rows == self.packed().nrows(),
                    k < i <= rows,
                    k < self.packed().ncols(),
                    j < cols,
                    x.wf(),
                    x.nrows() == rows,
                    x.ncols() == cols,
                    w == grid(self.packed()),
                    next == reflect(w, tau, x0, k as int, rows as int, 0, conj),
                    factor == tau.spec_times(hh_dot(w, x0, k as int, j as int, rows as int, conj)),
                    forall|r: int, c: int| #[trigger]
                        x.in_bounds(r, c) ==> x.at(r, c) == if c < j || (c == j && r < i) {
                            next(r, c)
                        } else {
                            x0(r, c)
                        },
                decreases rows - i,
            {
                let ghost before = *x;
                assert(self.qr.in_bounds(i as int, k as int));
                assert(x.in_bounds(i as int, j as int));
                let vi = self.qr.entry(i, k);
                let xv = x.entry(i, j);
                assert(next(i as int, j as int) == xv.spec_minus(factor.spec_times(vi)));
                x.set(i, j, xv.minus(factor.times(vi)));
                proof {
                    assert forall|r: int, c: int| #[trigger] x.in_bounds(r, c) implies x.at(r, c)
                        == if c < j || (c == j && r < i + 1) {
                        next(r, c)
                    } else {
                        x0(r, c)
                    } by {
                        assert(before.in_bounds(r, c));
                    }
                }
                i = i + 1;
            }
            j = j + 1;
        }
    }

    /// `R`: the upper triangle of the working matrix, zeros below it.
    pub fn matrix_r(&self) -> (r: Matrix<T>)
        requires
            self.wf(),
        ensures
            r.wf(),
            r.same_shape(&self.packed()),
            holds(
                r,
                |i: int, j: int|
                    if j >= i {
                        self.packed().at(i, j)
                    } else {
                        T::spec_zero()
                    },
            ),
    {
        let rows = self.qr.rows();
        let cols = self.qr.cols();
        let _size = self.qr.size();
        let mut r = Matrix::zeros(rows, cols);
        let mut i: usize = 0;
        while i < rows
            invariant
                self.wf(),
                rows == self.packed().nrows(),
                cols == self.packed().ncols(),
                i <= rows,
                r.wf(),
                r.nrows() == rows,
                r.ncols() == cols,
                forall|a: int, b: int| #[trigger]
                    r.in_bounds(a, b) ==> r.at(a, b) == if b >= a && a < i {
                        self.packed().at(a, b)
                    } else {
                        T::spec_zero()
                    },
            decreases rows - i,
        {
            let mut j: usize = 0;
            while j < cols
                invariant
                    self.wf(),
                    rows == self.packed().nrows(),
                    cols == self.packed().ncols(),
                    i < rows,
                    j <= cols,
                    r.wf(),
                    r.nrows() == rows,
                    r.ncols() == cols,
                    forall|a: int, b: int| #[trigger]
                        r.in_bounds(a, b) ==> r.at(a, b) == if b >= a && (a < i || (a == i && b < j)) {
                            self.packed().at(a, b)
                        } else {
                            T::spec_zero()
                        },
                decreases cols - j,
            {
                let ghost before = r;
                assert(self.qr.in_bounds(i as int, j as int));
                if j >= i {
                    r.set(i, j, self.qr.entry(i, j));
                } else {
                    r.set(i, j, T::zero());
                }
                proof {
                    assert forall|a: int, b: int| #[trigger] r.in_bounds(a, b) implies r.at(a, b)
                        == if b >= a && (a < i || (a == i && b < j + 1)) {
                        self.packed().at(a, b)
                    } else {
                        T::spec_zero()
                    } by {
                        assert(before.in_bounds(a, b));
                    }
                }
                j = j + 1;
            }
            i = i + 1;
        }
        r
    }

    /// The full `rows x rows` factor `Q`, built from the identity by the
    /// reflections in reverse order.
    pub fn matrix_q(&self) -> (q: Matrix<T>)
        requires
            self.wf(),
            self.packed().nrows() * self.packed().nrows() <= usize::MAX,
        ensures
            q.wf(),
            q.nrows() == self.packed().nrows(),
            q.ncols() == self.packed().nrows(),
            holds(q, q_build(grid(self.packed()), self.coeffs(), self.packed().nrows() as int, self.size(), self.size())),
    {
        let rows = self.qr.rows();
        let cols = self.qr.cols();
        let size = self.h_coeffs.len();
        let ghost w = grid(self.packed());
        let mut q = Matrix::identity(rows, rows);
        let one_diag = T::from_usize(1);
        // the off-diagonal entries hold the default zero
        let mut i: usize = 0;
        while i < rows
            invariant
                i <= rows,
                one_diag == T::spec_from_usize(1),
                q.wf(),
                q.nrows() == rows,
                q.ncols() == rows,
                forall|a: int, b: int| #[trigger]
                    q.in_bounds(a, b) ==> q.at(a, b) == if a == b {
                        T::spec_from_usize(1)
                    } else if a < i {
                        T::spec_zero()
                    } else {
                        T::spec_from_usize(0)
                    },
            decreases rows - i,
        {
            let mut j: usize = 0;
            while j < rows
                invariant
                    i < rows,
                    j <= rows,
                    one_diag == T::spec_from_usize(1),
                    q.wf(),
                    q.nrows() == rows,
                    q.ncols() == rows,
                    forall|a: int, b: int| #[trigger]
                        q.in_bounds(a, b) ==> q.at(a, b) == if a == b {
                            T::spec_from_usize(1)
                        } else if a < i || (a == i && b < j) {
                            T::spec_zero()
                        } else {
                            T::spec_from_usize(0)
                        },
                decreases rows - j,
            {
                let ghost before = q;
                if i == j {
                    q.set(i, j, one_diag);
                } else {
                    q.set(i, j, T::zero());
                }
                proof {
                    assert forall|a: int, b: int| #[trigger] q.in_bounds(a, b) implies q.at(a, b)
                        == if a == b {
                        T::spec_from_usize(1)
                    } else if a < i || (a == i && b < j + 1) {
                        T::spec_zero()
                    } else {
                        T::spec_from_usize(0)
                    } by {
                        assert(before.in_bounds(a, b));
                    }
                }
                j = j + 1;
            }
            i = i + 1;
        }
        proof {
            assert forall|a: int, b: int| #[trigger] q.in_bounds(a, b) implies q.at(a, b) == q_build(
                w,
                self.coeffs(),
                rows as int,
                size as nat,
                0,
            )(a, b) by {}
        }
        let mut m: usize = 0;
        while m < size
            invariant
                self.wf(),
                rows == self.packed().nrows(),
                cols == self.packed().ncols(),
                size == self.size(),
                size == self.coeffs().len(),
                m <= size,
                w == grid(self.packed()),
                q.wf(),
                q.nrows() == rows,
                q.ncols() == rows,
                holds(q, q_build(w, self.coeffs(), rows as int, size as nat, m as nat)),
            decreases size - m,
        {
            let k = size - 1 - m;
            let tau = self.h_coeffs[k];
            let ghost prev = q_build(w, self.coeffs(), rows as int, size as nat, m as nat);
            if !tau.is_eq(T::zero()) {
                let ghost before = q;
                proof {
                    assert forall|a: int, b: int| #[trigger] grid(before)(a, b) == prev(a, b)
                        || !before.in_bounds(a, b) by {}
                }
                self.apply_reflection(&mut q, k, tau, false);
                proof {
                    lemma_reflect_local(w, tau, grid(before), prev, k as int, rows as int, false, rows as int);
                    assert forall|a: int, b: int| #[trigger] q.in_bounds(a, b) implies q.at(a, b)
                        == q_build(w, self.coeffs(), rows as int, size as nat, (m + 1) as nat)(a, b) by {
                        assert(reflect(w, tau, grid(before), k as int, rows as int, 0, false)(a, b)
                            == reflect(w, tau, prev, k as int, rows as int, 0, false)(a, b));
                    }
                }
            }
            m = m + 1;
        }
        q
    }

    /// Solves `A x = b` in the least-squares sense: applies `Q^*` to `b`,
    /// then back-substitutes with `R` column by column. Fails when `b` does
    /// not have as many rows as `A`, and, when `b` has a column, when some
    /// diagonal entry of `R` counts as zero. The result has
    /// `min(rows, cols)` rows when `A` is tall, `rows` rows otherwise.
    pub fn solve(&self, b: &Matrix<T>) -> (r: Result<Matrix<T>, String>)
        requires
            self.wf(),
            b.wf(),
            b.nrows() == self.packed().nrows() && b.ncols() > 0 && self.packed().ncols()
                > self.packed().nrows() && self.size() > 0 ==> tiny_pivot(
                grid(self.packed()),
                self.size() - 1,
            ),
        ensures
            r is Ok <==> b.nrows() == self.packed().nrows() && !(b.ncols() > 0 && exists|i: int|
                0 <= i < self.size() && #[trigger] tiny_pivot(grid(self.packed()), i)),
            r matches Ok(x) ==> {
                let w = grid(self.packed());
                let rows = self.packed().nrows();
                let cols = self.packed().ncols();
                let y = apply_qt(w, self.coeffs(), rows as int, grid(*b), self.size());
                &&& x.wf()
                &&& x.ncols() == b.ncols()
                &&& x.nrows() == if cols < rows {
                    cols
                } else {
                    rows
                }
                &&& holds(x, qr_back(w, y, self.size(), cols as int, self.size()))
            },
            r matches Err(e) ==> e@ == if b.nrows() != self.packed().nrows() {
                qr_mismatch_text(b.nrows(), self.packed().nrows())
            } else {
                qr_singular_text(top_tiny(grid(self.packed()), self.size() as int) as nat)
            },
    {
        let rows = self.qr.rows();
        let cols = self.qr.cols();
        if b.rows() != rows {
            let mut e = "Dimension mismatch in QR solve: b.rows() ".to_string();
            push_decimal(&mut e, b.rows());
            e.append(" != A.rows() ");
            push_decimal(&mut e, rows);
            return Err(e);
        }
        let bcols = b.cols();
        let size = self.h_coeffs.len();
        let ghost w = grid(self.packed());
        let ghost h = self.coeffs();
        let ghost y0 = grid(*b);
        let mut x = b.copy();
        proof {
            assert forall|r: int, c: int| #[trigger] x.in_bounds(r, c) implies x.at(r, c) == y0(r, c) by {}
        }
        // 1. x = Q^* b
        let mut k: usize = 0;
        while k < size
            invariant
                self.wf(),
                rows == self.packed().nrows(),
                cols == self.packed().ncols(),
                size == self.size(),
                size == self.coeffs().len(),
                k <= size,
                w == grid(self.packed()),
                h == self.coeffs(),
                x.wf(),
                x.nrows() == rows,
                x.ncols() == bcols,
                holds(x, apply_qt(w, h, rows as int, y0, k as nat)),
            decreases size - k,
        {
            let tau = self.h_coeffs[k];
            let ghost prev = apply_qt(w, h, rows as int, y0, k as nat);
            if !tau.is_eq(T::zero()) {
                let ghost before = x;
                self.apply_reflection(&mut x, k, tau, true);
                proof {
                    assert forall|a: int, c: int| 0 <= a < rows && 0 <= c < bcols implies #[trigger] grid(
                        before,
                    )(a, c) == prev(a, c) by {
                        assert(before.in_bounds(a, c));
                    }
                    lemma_reflect_local(w, tau, grid(before), prev, k as int, rows as int, true, bcols as int);
                    assert forall|a: int, c: int| #[trigger] x.in_bounds(a, c) implies x.at(a, c)
                        == apply_qt(w, h, rows as int, y0, (k + 1) as nat)(a, c) by {
                        assert(reflect(w, tau, grid(before), k as int, rows as int, 0, true)(a, c)
                            == reflect(w, tau, prev, k as int, rows as int, 0, true)(a, c));
                    }
                }
            }
            k = k + 1;
        }
        // 2. back substitution with R
        let ghost y = apply_qt(w, h, rows as int, y0, size as nat);
        let ghost z = qr_back(w, y, size as nat, cols as int, size as nat);
        let thr = T::singular_threshold();
        let mut j: usize = 0;
        while j < bcols
            invariant
                self.wf(),
                rows == self.packed().nrows(),
                cols == self.packed().ncols(),
                size == self.size(),
                b.nrows() == rows,
                b.ncols() == bcols,
                b.nrows() == self.packed().nrows() && b.ncols() > 0 && self.packed().ncols()
                    > self.packed().nrows() && self.size() > 0 ==> tiny_pivot(
                    grid(self.packed()),
                    self.size() - 1,
                ),
                j <= bcols,
                w == grid(self.packed()),
                thr == T::spec_singular_threshold(),
                y == apply_qt(w, h, rows as int, y0, size as nat),
                z == qr_back(w, y, size as nat, cols as int, size as nat),
                x.wf(),
                x.nrows() == rows,
                x.ncols() == bcols,
                j > 0 ==> forall|i: int| 0 <= i < size ==> !#[trigger] tiny_pivot(w, i),
                forall|r: int, c: int| #[trigger]
                    x.in_bounds(r, c) ==> x.at(r, c) == if c < j {
                        z(r, c)
                    } else {
                        y(r, c)
                    },
            decreases bcols - j,
        {
            let mut m: usize = 0;
            while m < size
                invariant
                    self.wf(),
                    rows == self.packed().nrows(),
                    cols == self.packed().ncols(),
                    size == self.size(),
                    b.nrows() == rows,
                    b.ncols() == bcols,
                    b.nrows() == self.packed().nrows() && b.ncols() > 0 && self.packed().ncols()
                        > self.packed().nrows() && self.size() > 0 ==> tiny_pivot(
                        grid(self.packed()),
                        self.size() - 1,
                    ),
                    j < bcols,
                    m <= size,
                    w == grid(self.packed()),
                    thr == T::spec_singular_threshold(),
                    y == apply_qt(w, h, rows as int, y0, size as nat),
                    z == qr_back(w, y, size as nat, cols as int, size as nat),
                    x.wf(),
                    x.nrows() == rows,
                    x.ncols() == bcols,
                    j > 0 ==> forall|i: int| 0 <= i < size ==> !#[trigger] tiny_pivot(w, i),
                    forall|i: int| size - m <= i < size ==> !#[trigger] tiny_pivot(w, i),
                    forall|r: int, c: int| #[trigger]
                        x.in_bounds(r, c) ==> x.at(r, c) == if c < j {
                            z(r, c)
                        } else if c == j {
                            qr_back(w, y, size as nat, cols as int, m as nat)(r, c)
                        } else {
                            y(r, c)
                        },
                decreases size - m,
            {
                let i = size - 1 - m;
                let ghost prev = qr_back(w, y, size as nat, cols as int, m as nat);
                assert(self.qr.in_bounds(i as int, i as int));
                let diag = self.qr.entry(i, i);
                if diag.abs().is_lt(thr) {
                    assert(tiny_pivot(w, i as int));
                    proof {
                        lemma_top_tiny(w, i as int, size as int);
                    }
                    let mut e = "QR solve failed: singular matrix (zero diagonal at ".to_string();
                    push_decimal(&mut e, i);
                    e.append(")");
                    return Err(e);
                }
                assert(!tiny_pivot(w, i as int));
                proof {
                    if cols > rows {
                        assert(tiny_pivot(w, size - 1));
                    }
                }
                let mut sum = T::zero();
                let mut kk = i + 1;
                while kk < cols
                    invariant
                        self.wf(),
                        rows == self.packed().nrows(),
                        cols == self.packed().ncols(),
                        cols <= rows,
                        i < size,
                        i < kk <= cols,
                        j < bcols,
                        w == grid(self.packed()),
                        x.wf(),
                        x.nrows() == rows,
                        x.ncols() == bcols,
                        forall|r: int, c: int| #[trigger]
                            x.in_bounds(r, c) ==> x.at(r, c) == if c < j {
                                z(r, c)
                            } else if c == j {
                                prev(r, c)
                            } else {
                                y(r, c)
                            },
                        sum == usum(w, prev, i as int, j as int, kk as int),
                    decreases cols - kk,
                {
                    assert(self.qr.in_bounds(i as int, kk as int));
                    assert(x.in_bounds(kk as int, j as int));
                    sum = sum.plus(self.qr.entry(i, kk).times(x.entry(kk, j)));
                    kk = kk + 1;
                }
                let ghost before = x;
                assert(x.in_bounds(i as int, j as int));
                let xv = x.entry(i, j);
                x.set(i, j, xv.minus(sum).over(diag));
                proof {
                    assert forall|r: int, c: int| #[trigger] x.in_bounds(r, c) implies x.at(r, c)
                        == if c < j {
                        z(r, c)
                    } else if c == j {
                        qr_back(w, y, size as nat, cols as int, (m + 1) as nat)(r, c)
                    } else {
                        y(r, c)
                    } by {
                        assert(before.in_bounds(r, c));
                    }
                }
                m = m + 1;
            }
            j = j + 1;
        }
        proof {
            if bcols > 0 {
                assert forall|i: int| 0 <= i < size implies !#[trigger] tiny_pivot(w, i) by {}
            }
        }
        // 3. a tall system keeps the first `cols` rows
        if cols < rows {
            let _n = x.size();
            assert(cols * bcols <= rows * bcols) by (nonlinear_arith)
                requires
                    cols < rows,
            ;
            let mut x_final = Matrix::zeros(cols, bcols);
            let mut jj: usize = 0;
            while jj < bcols
                invariant
                    cols < rows,
                    jj <= bcols,
                    x.wf(),
                    x.nrows() == rows,
                    x.ncols() == bcols,
                    holds(x, z),
                    x_final.wf(),
                    x_final.nrows() == cols,
                    x_final.ncols() == bcols,
                    forall|r: int, c: int| #[trigger]
                        x_final.in_bounds(r, c) && c < jj ==> x_final.at(r, c) == z(r, c),
                decreases bcols - jj,
            {
                let mut i: usize = 0;
                while i < cols
                    invariant
                        cols < rows,
                        jj < bcols,
                        i <= cols,
                        x.wf(),
                        x.nrows() == rows,
                        x.ncols() == bcols,
                        holds(x, z),
                        x_final.wf(),
                        x_final.nrows() == cols,
                        x_final.ncols() == bcols,
                        forall|r: int, c: int| #[trigger]
                            x_final.in_bounds(r, c) && (c < jj || (c == jj && r < i)) ==> x_final.at(
                                r,
                                c,
                            ) == z(r, c),
                    decreases cols - i,
                {
                    let ghost before = x_final;
                    assert(x.in_bounds(i as int, jj as int));
                    x_final.set(i, jj, x.entry(i, jj));
                    proof {
                        assert forall|r: int, c: int| #[trigger]
                            x_final.in_bounds(r, c) && (c < jj || (c == jj && r < i + 1)) implies x_final.at(
                            r,
                            c,
                        ) == z(r, c) by {
                            assert(before.in_bounds(r, c));
                        }
                    }
                    i = i + 1;
                }
                jj = jj + 1;
            }
            Ok(x_final)
        } else {
            Ok(x)
        }
    }
}

impl<T: Scalar> Matrix<T> {
    /// The Householder QR decomposition of this matrix (see
    /// `HouseholderQR::new`).
    pub fn householder_qr(&self) -> (d: HouseholderQR<T>)
        requires
            self.wf(),
        ensures
            d.wf(),
            d.packed().same_shape(self),
            ({
                let st = qr_state(grid(*self), self.nrows() as int, d.size(), d.size());
                holds(d.packed(), st.0) && d.coeffs() == st.1
            }),
    {
        HouseholderQR::new(self)
    }
}

/// A reflection reads column `j` of rows `0 .. rows` of its operand only.
pub proof fn lemma_reflect_local<T: Scalar>(
    w: spec_fn(int, int) -> T,
    tau: T,
    x1: spec_fn(int, int) -> T,
    x2: spec_fn(int, int) -> T,
    k: int,
    rows: int,
    conj: bool,
    cols: int,
)
    requires
        0 <= k < rows,
        forall|i: int, j: int| 0 <= i < rows && 0 <= j < cols ==> #[trigger] x1(i, j) == x2(i, j),
    ensures
        forall|i: int, j: int|
            0 <= i < rows && 0 <= j < cols ==> #[trigger] reflect(w, tau, x1, k, rows, 0, conj)(i, j)
                == reflect(w, tau, x2, k, rows, 0, conj)(i, j),
{
    assert forall|i: int, j: int| 0 <= i < rows && 0 <= j < cols implies #[trigger] reflect(
        w,
        tau,
        x1,
        k,
        rows,
        0,
        conj,
    )(i, j) == reflect(w, tau, x2, k, rows, 0, conj)(i, j) by {
        lemma_hh_dot_local(w, x1, x2, k, j, rows, conj, cols);
        assert(x1(i, j) == x2(i, j));
        assert(x1(k, j) == x2(k, j));
    }
}

/// The Householder dot product reads column `j` of rows `k .. m` only.
pub proof fn lemma_hh_dot_local<T: Scalar>(
    w: spec_fn(int, int) -> T,
    x1: spec_fn(int, int) -> T,
    x2: spec_fn(int, int) -> T,
    k: int,
    j: int,
    m: int,
    conj: bool,
    cols: int,
)
    requires
        0 <= k,
        0 <= j < cols,
        forall|i: int, jj: int| 0 <= i < m && 0 <= jj < cols ==> #[trigger] x1(i, jj) == x2(i, jj),
    ensures
        m > k ==> hh_dot(w, x1, k, j, m, conj) == hh_dot(w, x2, k, j, m, conj),
    decreases m - k,
{
    if m > k + 1 {
        lemma_hh_dot_local(w, x1, x2, k, j, m - 1, conj, cols);
        assert(x1(m - 1, j) == x2(m - 1, j));
    } else if m == k + 1 {
        assert(x1(k, j) == x2(k, j));
    }
}

} // verus!
