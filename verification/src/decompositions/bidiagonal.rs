//! Bidiagonalization `A = U B V^*` of a matrix with at least as many rows
//! as columns, by Householder reflections alternately on the columns (from
//! the left) and on the rows (from the right).
//!
//! The working matrix keeps `B` on its diagonal and superdiagonal, the
//! column reflection vectors below the diagonal and the row reflection
//! vectors right of the superdiagonal (each with an implicit leading one).
//! A matrix with fewer rows than columns is kept as it is, with no
//! reflections.

use crate::decompositions::lu::{grid, holds};
use crate::decompositions::qr::{hh_dot, reflect};
use crate::matrix::Matrix;
use crate::scalar::Scalar;
use vstd::prelude::*;

verus! {

/// `|b(k+1, k)|^2 + ... + |b(m-1, k)|^2` accumulated from zero.
pub open spec fn col_tail_sq<T: Scalar>(b: spec_fn(int, int) -> T, k: int, m: int) -> T
    decreases m - k,
{
    if m <= k + 1 {
        T::spec_zero()
    } else {
        col_tail_sq(b, k, m - 1).spec_plus(b(m - 1, k).spec_norm_sq())
    }
}

/// `1 + |w(k+1, k)|^2 + ... + |w(m-1, k)|^2` accumulated from the image of
/// one.
pub open spec fn col_vnorm<T: Scalar>(w: spec_fn(int, int) -> T, k: int, m: int) -> T
    decreases m - k,
{
    if m <= k + 1 {
        T::spec_from_usize(1)
    } else {
        col_vnorm(w, k, m - 1).spec_plus(w(m - 1, k).spec_norm_sq())
    }
}

/// `|b(k, k+1)|^2 + ... + |b(k, c-1)|^2` accumulated from zero.
pub open spec fn row_tail_sq<T: Scalar>(b: spec_fn(int, int) -> T, k: int, c: int) -> T
    decreases c - k,
{
    if c <= k + 1 {
        T::spec_zero()
    } else {
        row_tail_sq(b, k, c - 1).spec_plus(b(k, c - 1).spec_norm_sq())
    }
}

/// `1 + |w(k, k+2)|^2 + ... + |w(k, c-1)|^2` accumulated from the image of
/// one.
pub open spec fn row_vnorm<T: Scalar>(w: spec_fn(int, int) -> T, k: int, c: int) -> T
    decreases c - k,
{
    if c <= k + 2 {
        T::spec_from_usize(1)
    } else {
        row_vnorm(w, k, c - 1).spec_plus(w(k, c - 1).spec_norm_sq())
    }
}

/// The reflection's `sigma`: `-norm` when `v0` is at least zero, `norm`
/// otherwise.
pub open spec fn bd_sigma<T: Scalar>(v0: T, norm: T) -> T {
    if T::spec_zero().spec_le(v0) {
        norm.spec_negate()
    } else {
        norm
    }
}

/// Column `k` with `sigma` on the diagonal and the entries below it
/// multiplied by `inv`.
pub open spec fn col_scaled<T: Scalar>(b: spec_fn(int, int) -> T, k: int, sigma: T, inv: T) -> spec_fn(int, int) -> T {
    |i: int, c: int|
        if c == k && i == k {
            sigma
        } else if c == k && i > k {
            b(i, k).spec_times(inv)
        } else {
            b(i, c)
        }
}

/// Row `k` with `sigma` on the superdiagonal and the entries right of it
/// multiplied by `inv`.
pub open spec fn row_scaled<T: Scalar>(b: spec_fn(int, int) -> T, k: int, sigma: T, inv: T) -> spec_fn(int, int) -> T {
    |i: int, c: int|
        if i == k && c == k + 1 {
            sigma
        } else if i == k && c > k + 1 {
            b(k, c).spec_times(inv)
        } else {
            b(i, c)
        }
}

/// `x(i, k+1) + x(i, k+2) w(k, k+2)' + ... + x(i, c-1) w(k, c-1)'`, where
/// `'` is conjugation.
pub open spec fn row_dot<T: Scalar>(w: spec_fn(int, int) -> T, x: spec_fn(int, int) -> T, k: int, i: int, c: int) -> T
    decreases c - k,
{
    if c <= k + 2 {
        x(i, k + 1)
    } else {
        row_dot(w, x, k, i, c - 1).spec_plus(x(i, c - 1).spec_times(w(k, c - 1).spec_conj()))
    }
}

/// The row reflection of step `k` applied from the right to the rows
/// `k + 1 .. rows` and columns `k + 1 .. cols`: with `f = tau * row_dot`,
/// column `k + 1` loses `f` and column `c > k + 1` loses `f w(k, c)'`.
pub open spec fn row_reflect<T: Scalar>(w: spec_fn(int, int) -> T, tau: T, x: spec_fn(int, int) -> T, k: int, rows: int, cols: int) -> spec_fn(
    int,
    int,
) -> T {
    |i: int, c: int|
        if k + 1 <= i < rows && k + 1 <= c < cols {
            let f = tau.spec_times(row_dot(w, x, k, i, cols));
            if c == k + 1 {
                x(i, c).spec_minus(f)
            } else {
                x(i, c).spec_minus(f.spec_times(w(k, c).spec_conj()))
            }
        } else {
            x(i, c)
        }
}

/// The column half of step `k`: the new working matrix and the left
/// coefficient. When the modulus of the column norm does not exceed the
/// machine epsilon nothing changes and the coefficient is zero; otherwise
/// the column gets `sigma` and the scaled vector, `tau = 2 / (1 + |v|^2)`,
/// and the reflection is applied to the columns right of `k`.
pub open spec fn bd_col_step<T: Scalar>(b: spec_fn(int, int) -> T, rows: int, k: int) -> (spec_fn(int, int) -> T, T) {
    let norm = col_tail_sq(b, k, rows).spec_plus(b(k, k).spec_norm_sq()).spec_sqrt();
    if T::spec_epsilon().spec_lt(norm.spec_abs()) {
        let sigma = bd_sigma(b(k, k), norm);
        let w = col_scaled(b, k, sigma, b(k, k).spec_minus(sigma).spec_recip());
        let tau = T::spec_from_usize(2).spec_over(col_vnorm(w, k, rows));
        (reflect(w, tau, w, k, rows, k + 1, true), tau)
    } else {
        (b, T::spec_zero())
    }
}

/// The row half of step `k` (for `k + 1 < cols`), in the same way on row
/// `k` right of the diagonal.
pub open spec fn bd_row_step<T: Scalar>(b: spec_fn(int, int) -> T, rows: int, cols: int, k: int) -> (spec_fn(int, int) -> T, T) {
    let norm = row_tail_sq(b, k, cols).spec_sqrt();
    if T::spec_epsilon().spec_lt(norm.spec_abs()) {
        let sigma = bd_sigma(b(k, k + 1), norm);
        let w = row_scaled(b, k, sigma, b(k, k + 1).spec_minus(sigma).spec_recip());
        let tau = T::spec_from_usize(2).spec_over(row_vnorm(w, k, cols));
        (row_reflect(w, tau, w, k, rows, cols), tau)
    } else {
        (b, T::spec_zero())
    }
}

/// The working matrix and the left and right coefficients after the first
/// `k` steps on `a` (`rows x cols`, `rows >= cols`).
pub open spec fn bd_state<T: Scalar>(a: spec_fn(int, int) -> T, rows: int, cols: int, k: nat) -> (
    spec_fn(int, int) -> T,
    Seq<T>,
    Seq<T>,
)
    decreases k,
{
    if k == 0 {
        (
            a,
            Seq::new(cols as nat, |i: int| T::spec_zero()),
            Seq::new(if cols > 0 { (cols - 1) as nat } else { 0 }, |i: int| T::spec_zero()),
        )
    } else {
        let prev = bd_state(a, rows, cols, (k - 1) as nat);
        let cs = bd_col_step(prev.0, rows, k - 1);
        if k < cols {
            let rs = bd_row_step(cs.0, rows, cols, k - 1);
            (rs.0, prev.1.update(k - 1, cs.1), prev.2.update(k - 1, rs.1))
        } else {
            (cs.0, prev.1.update(k - 1, cs.1), prev.2)
        }
    }
}

/// The coefficient sequences keep their lengths.
pub proof fn lemma_bd_lens<T: Scalar>(a: spec_fn(int, int) -> T, rows: int, cols: int, k: nat)
    requires
        cols >= 0,
        k <= cols,
    ensures
        bd_state(a, rows, cols, k).1.len() == cols,
        bd_state(a, rows, cols, k).2.len() == if cols > 0 { cols - 1 } else { 0 },
    decreases k,
{
    if k > 0 {
        lemma_bd_lens(a, rows, cols, (k - 1) as nat);
    }
}

/// The column half of step `k` in place (see `bd_col_step`); returns the
/// left coefficient.
fn column_step<T: Scalar>(a: &mut Matrix<T>, k: usize, Ghost(b): Ghost<spec_fn(int, int) -> T>) -> (tau: T)
    requires
        old(a).wf(),
        k < old(a).ncols(),
        old(a).ncols() <= old(a).nrows(),
        holds(*old(a), b),
    ensures
        final(a).wf(),
        final(a).same_shape(old(a)),
        holds(*final(a), bd_col_step(b, old(a).nrows() as int, k as int).0),
        tau == bd_col_step(b, old(a).nrows() as int, k as int).1,
{
    let rows = a.rows();
    let cols = a.cols();
    let mut norm_sq = T::zero();
    let mut i = k + 1;
    while i < rows
        invariant
            k < i <= rows,
            k < cols <= rows,
            rows == a.nrows(),
            cols == a.ncols(),
            a.wf(),
            holds(*a, b),
            norm_sq == col_tail_sq(b, k as int, i as int),
        decreases rows - i,
    {
        assert(a.in_bounds(i as int, k as int));
        norm_sq = norm_sq.plus(a.entry(i, k).norm_sq());
        i = i + 1;
    }
    assert(a.in_bounds(k as int, k as int));
    let v0 = a.entry(k, k);
    norm_sq = norm_sq.plus(v0.norm_sq());
    let norm = norm_sq.sqrt();
    if !T::epsilon().is_lt(norm.abs()) {
        return T::zero();
    }
    let sigma = if T::zero().is_le(v0) {
        norm.negate()
    } else {
        norm
    };
    let inv = v0.minus(sigma).recip();
    let ghost w = col_scaled(b, k as int, sigma, inv);
    let ghost before = *a;
    a.set(k, k, sigma);
    proof {
        assert forall|r: int, c: int| #[trigger] a.in_bounds(r, c) implies a.at(r, c) == if c == k && k <= r < k + 1 {
            w(r, c)
        } else {
            b(r, c)
        } by {
            assert(before.in_bounds(r, c));
        }
    }
    let mut i = k + 1;
    while i < rows
        invariant
            k < i <= rows,
            k < cols <= rows,
            rows == a.nrows(),
            cols == a.ncols(),
            a.wf(),
            w == col_scaled(b, k as int, sigma, inv),
            forall|r: int, c: int| #[trigger]
                a.in_bounds(r, c) ==> a.at(r, c) == if c == k && k <= r < i {
                    w(r, c)
                } else {
                    b(r, c)
                },
        decreases rows - i,
    {
        let ghost before = *a;
        assert(a.in_bounds(i as int, k as int));
        let v = a.entry(i, k);
        a.set(i, k, v.times(inv));
        proof {
            assert forall|r: int, c: int| #[trigger] a.in_bounds(r, c) implies a.at(r, c) == if c == k && k <= r < i
                + 1 {
                w(r, c)
            } else {
                b(r, c)
            } by {
                assert(before.in_bounds(r, c));
            }
        }
        i = i + 1;
    }
    assert(holds(*a, w));
    let mut vn = T::from_usize(1);
    let mut i = k + 1;
    while i < rows
        invariant
            k < i <= rows,
            k < cols <= rows,
            rows == a.nrows(),
            cols == a.ncols(),
            a.wf(),
            holds(*a, w),
            vn == col_vnorm(w, k as int, i as int),
        decreases rows - i,
    {
        assert(a.in_bounds(i as int, k as int));
        vn = vn.plus(a.entry(i, k).norm_sq());
        i = i + 1;
    }
    let tau = T::from_usize(2).over(vn);
    let ghost next = reflect(w, tau, w, k as int, rows as int, (k + 1) as int, true);
    let mut j = k + 1;
    while j < cols
        invariant
            k < j <= cols,
            k < cols <= rows,
            rows == a.nrows(),
            cols == a.ncols(),
            a.wf(),
            next == reflect(w, tau, w, k as int, rows as int, (k + 1) as int, true),
            forall|r: int, c: int| #[trigger]
                a.in_bounds(r, c) ==> a.at(r, c) == if c < j {
                    next(r, c)
                } else {
                    w(r, c)
                },
        decreases cols - j,
    {
        assert(a.in_bounds(k as int, j as int));
        let mut dot = a.entry(k, j);
        let mut i = k + 1;
        while i < rows
            invariant
                k < j < cols,
                k < i <= rows,
                rows == a.nrows(),
                cols == a.ncols(),
                next == reflect(w, tau, w, k as int, rows as int, (k + 1) as int, true),
                a.wf(),
                forall|r: int, c: int| #[trigger]
                    a.in_bounds(r, c) ==> a.at(r, c) == if c < j {
                        next(r, c)
                    } else {
                        w(r, c)
                    },
                dot == hh_dot(w, w, k as int, j as int, i as int, true),
            decreases rows - i,
        {
            assert(a.in_bounds(i as int, k as int));
            assert(a.in_bounds(i as int, j as int));
            assert(next(i as int, k as int) == w(i as int, k as int));
            dot = dot.plus(a.entry(i, k).conj().times(a.entry(i, j)));
            i = i + 1;
        }
        let factor = tau.times(dot);
        let ghost before = *a;
        let x = a.entry(k, j);
        a.set(k, j, x.minus(factor));
        proof {
            assert forall|r: int, c: int| #[trigger] a.in_bounds(r, c) implies a.at(r, c) == if c < j || (c == j && r
                <= k) {
                next(r, c)
            } else {
                w(r, c)
            } by {
                assert(before.in_bounds(r, c));
            }
        }
        let mut i = k + 1;
        while i < rows
            invariant
                k < j < cols,
                k < i <= rows,
                rows == a.nrows(),
                cols == a.ncols(),
                next == reflect(w, tau, w, k as int, rows as int, (k + 1) as int, true),
                a.wf(),
                factor == tau.spec_times(hh_dot(w, w, k as int, j as int, rows as int, true)),
                forall|r: int, c: int| #[trigger]
                    a.in_bounds(r, c) ==> a.at(r, c) == if c < j || (c == j && r < i) {
                        next(r, c)
                    } else {
                        w(r, c)
                    },
            decreases rows - i,
        {
            let ghost before = *a;
            assert(a.in_bounds(i as int, k as int));
            assert(a.in_bounds(i as int, j as int));
            let vi = a.entry(i, k);
            let x = a.entry(i, j);
            assert(vi == w(i as int, k as int));
            assert(x == w(i as int, j as int));
            assert(next(i as int, j as int) == x.spec_minus(factor.spec_times(vi)));
            a.set(i, j, x.minus(factor.times(vi)));
            proof {
                assert forall|r: int, c: int| #[trigger] a.in_bounds(r, c) implies a.at(r, c) == if c < j || (c == j
                    && r < i + 1) {
                    next(r, c)
                } else {
                    w(r, c)
                } by {
                    assert(before.in_bounds(r, c));
                }
            }
            i = i + 1;
        }
        j = j + 1;
    }
    proof {
        assert forall|r: int, c: int| #[trigger] a.in_bounds(r, c) implies a.at(r, c) == next(r, c) by {}
    }
    tau
}


/// The row half of step `k` in place (see `bd_row_step`); returns the right
/// coefficient.
fn row_step<T: Scalar>(a: &mut Matrix<T>, k: usize, Ghost(b): Ghost<spec_fn(int, int) -> T>) -> (tau: T)
    requires
        old(a).wf(),
        k + 1 < old(a).ncols(),
        old(a).ncols() <= old(a).nrows(),
        holds(*old(a), b),
    ensures
        final(a).wf(),
        final(a).same_shape(old(a)),
        holds(*final(a), bd_row_step(b, old(a).nrows() as int, old(a).ncols() as int, k as int).0),
        tau == bd_row_step(b, old(a).nrows() as int, old(a).ncols() as int, k as int).1,
{
    let rows = a.rows();
    let cols = a.cols();
    let mut norm_sq = T::zero();
    let mut j = k + 1;
    while j < cols
        invariant
            k < j <= cols,
            k + 1 < cols <= rows,
            rows == a.nrows(),
            cols == a.ncols(),
            a.wf(),
            holds(*a, b),
            norm_sq == row_tail_sq(b, k as int, j as int),
        decreases cols - j,
    {
        assert(a.in_bounds(k as int, j as int));
        norm_sq = norm_sq.plus(a.entry(k, j).norm_sq());
        j = j + 1;
    }
    let norm = norm_sq.sqrt();
    if !T::epsilon().is_lt(norm.abs()) {
        return T::zero();
    }
    assert(a.in_bounds(k as int, (k + 1) as int));
    let v0 = a.entry(k, k + 1);
    let sigma = if T::zero().is_le(v0) {
        norm.negate()
    } else {
        norm
    };
    let inv = v0.minus(sigma).recip();
    let ghost w = row_scaled(b, k as int, sigma, inv);
    let ghost before = *a;
    a.set(k, k + 1, sigma);
    proof {
        assert forall|r: int, c: int| #[trigger] a.in_bounds(r, c) implies a.at(r, c) == if r == k && k + 1 <= c < k
            + 2 {
            w(r, c)
        } else {
            b(r, c)
        } by {
            assert(before.in_bounds(r, c));
        }
    }
    let mut j = k + 2;
    while j < cols
        invariant
            k + 2 <= j <= cols,
            k + 1 < cols <= rows,
            rows == a.nrows(),
            cols == a.ncols(),
            a.wf(),
            w == row_scaled(b, k as int, sigma, inv),
            forall|r: int, c: int| #[trigger]
                a.in_bounds(r, c) ==> a.at(r, c) == if r == k && k + 1 <= c < j {
                    w(r, c)
                } else {
                    b(r, c)
                },
        decreases cols - j,
    {
        let ghost before = *a;
        assert(a.in_bounds(k as int, j as int));
        let v = a.entry(k, j);
        a.set(k, j, v.times(inv));
        proof {
            assert forall|r: int, c: int| #[trigger] a.in_bounds(r, c) implies a.at(r, c) == if r == k && k + 1 <= c
                < j + 1 {
                w(r, c)
            } else {
                b(r, c)
            } by {
                assert(before.in_bounds(r, c));
            }
        }
        j = j + 1;
    }
    assert(holds(*a, w));
    let mut vn = T::from_usize(1);
    let mut j = k + 2;
    while j < cols
        invariant
            k + 2 <= j <= cols,
            k + 1 < cols <= rows,
            rows == a.nrows(),
            cols == a.ncols(),
            a.wf(),
            holds(*a, w),
            vn == row_vnorm(w, k as int, j as int),
        decreases cols - j,
    {
        assert(a.in_bounds(k as int, j as int));
        vn = vn.plus(a.entry(k, j).norm_sq());
        j = j + 1;
    }
    let tau = T::from_usize(2).over(vn);
    let ghost next = row_reflect(w, tau, w, k as int, rows as int, cols as int);
    let mut i = k + 1;
    while i < rows
        invariant
            k < i <= rows,
            k + 1 < cols <= rows,
            rows == a.nrows(),
            cols == a.ncols(),
            a.wf(),
            next == row_reflect(w, tau, w, k as int, rows as int, cols as int),
            forall|r: int, c: int| #[trigger]
                a.in_bounds(r, c) ==> a.at(r, c) == if r < i {
                    next(r, c)
                } else {
                    w(r, c)
                },
        decreases rows - i,
    {
        assert(a.in_bounds(i as int, (k + 1) as int));
        let mut dot = a.entry(i, k + 1);
        let mut j = k + 2;
        while j < cols
            invariant
                k < i < rows,
                k + 2 <= j <= cols,
                rows == a.nrows(),
                cols == a.ncols(),
                next == row_reflect(w, tau, w, k as int, rows as int, cols as int),
                a.wf(),
                forall|r: int, c: int| #[trigger]
                    a.in_bounds(r, c) ==> a.at(r, c) == if r < i {
                        next(r, c)
                    } else {
                        w(r, c)
                    },
                dot == row_dot(w, w, k as int, i as int, j as int),
            decreases cols - j,
        {
            assert(a.in_bounds(i as int, j as int));
            assert(a.in_bounds(k as int, j as int));
            assert(next(k as int, j as int) == w(k as int, j as int));
            dot = dot.plus(a.entry(i, j).times(a.entry(k, j).conj()));
            j = j + 1;
        }
        let factor = tau.times(dot);
        let ghost before = *a;
        let x = a.entry(i, k + 1);
        a.set(i, k + 1, x.minus(factor));
        proof {
            assert forall|r: int, c: int| #[trigger] a.in_bounds(r, c) implies a.at(r, c) == if r < i || (r == i && c
                <= k + 1) {
                next(r, c)
            } else {
                w(r, c)
            } by {
                assert(before.in_bounds(r, c));
            }
        }
        let mut j = k + 2;
        while j < cols
            invariant
                k < i < rows,
                k + 2 <= j <= cols,
                rows == a.nrows(),
                cols == a.ncols(),
                next == row_reflect(w, tau, w, k as int, rows as int, cols as int),
                a.wf(),
                factor == tau.spec_times(row_dot(w, w, k as int, i as int, cols as int)),
                forall|r: int, c: int| #[trigger]
                    a.in_bounds(r, c) ==> a.at(r, c) == if r < i || (r == i && c < j) {
                        next(r, c)
                    } else {
                        w(r, c)
                    },
            decreases cols - j,
        {
            let ghost before = *a;
            assert(a.in_bounds(k as int, j as int));
            assert(a.in_bounds(i as int, j as int));
            let vj = a.entry(k, j).conj();
            let x = a.entry(i, j);
            assert(vj == w(k as int, j as int).spec_conj());
            assert(x == w(i as int, j as int));
            assert(next(i as int, j as int) == x.spec_minus(factor.spec_times(vj)));
            a.set(i, j, x.minus(factor.times(vj)));
            proof {
                assert forall|r: int, c: int| #[trigger] a.in_bounds(r, c) implies a.at(r, c) == if r < i || (r == i
                    && c < j + 1) {
                    next(r, c)
                } else {
                    w(r, c)
                } by {
                    assert(before.in_bounds(r, c));
                }
            }
            j = j + 1;
        }
        i = i + 1;
    }
    proof {
        assert forall|r: int, c: int| #[trigger] a.in_bounds(r, c) implies a.at(r, c) == next(r, c) by {}
    }
    tau
}


/// `0 + 1' x(s, j) + v[s+1]' x(s+1, j) + ... + v[m-1]' x(m-1, j)`, where
/// `'` is conjugation and `1` the image of one.
pub open spec fn acc_dot<T: Scalar>(v: Seq<T>, x: spec_fn(int, int) -> T, s: int, j: int, m: int) -> T
    decreases m - s,
{
    if m <= s + 1 {
        T::spec_zero().spec_plus(T::spec_from_usize(1).spec_conj().spec_times(x(s, j)))
    } else {
        acc_dot(v, x, s, j, m - 1).spec_plus(v[m - 1].spec_conj().spec_times(x(m - 1, j)))
    }
}

/// The reflection with vector `(1, v[s+1], ..., v[m-1])` and coefficient
/// `tau` applied from the left to rows and columns `s .. m` of `x`: with
/// `f = tau * acc_dot(..)`, row `s` loses `f * 1` and row `i > s` loses
/// `f * v[i]`.
pub open spec fn acc_reflect<T: Scalar>(v: Seq<T>, tau: T, x: spec_fn(int, int) -> T, s: int, m: int) -> spec_fn(
    int,
    int,
) -> T {
    |i: int, j: int|
        if s <= i < m && s <= j < m {
            let f = tau.spec_times(acc_dot(v, x, s, j, m));
            if i == s {
                x(s, j).spec_minus(f.spec_times(T::spec_from_usize(1)))
            } else {
                x(i, j).spec_minus(f.spec_times(v[i]))
            }
        } else {
            x(i, j)
        }
}

/// The identity: the image of one on the diagonal, zero elsewhere.
pub open spec fn eye<T: Scalar>() -> spec_fn(int, int) -> T {
    |i: int, j: int|
        if i == j {
            T::spec_from_usize(1)
        } else {
            T::spec_zero()
        }
}

/// `U` (`m x m`) built from the identity by the last `cnt` of the first
/// `num` left reflections stored in the columns of `p`, from the last one
/// backwards; a reflection whose coefficient equals zero is skipped.
pub open spec fn bd_u<T: Scalar>(p: spec_fn(int, int) -> T, h: Seq<T>, m: int, num: int, cnt: nat) -> spec_fn(
    int,
    int,
) -> T
    decreases cnt,
{
    if cnt == 0 {
        eye()
    } else {
        let prev = bd_u(p, h, m, num, (cnt - 1) as nat);
        let k = num - cnt;
        if h[k].spec_eq(T::spec_zero()) {
            prev
        } else {
            acc_reflect(Seq::new(m as nat, |i: int| p(i, k)), h[k], prev, k, m)
        }
    }
}

/// `V` (`n x n`) built from the identity by the last `cnt` of the `num`
/// right reflections stored in the rows of `p`, from the last one
/// backwards; a reflection whose coefficient equals zero is skipped.
pub open spec fn bd_v<T: Scalar>(p: spec_fn(int, int) -> T, h: Seq<T>, n: int, num: int, cnt: nat) -> spec_fn(
    int,
    int,
) -> T
    decreases cnt,
{
    if cnt == 0 {
        eye()
    } else {
        let prev = bd_v(p, h, n, num, (cnt - 1) as nat);
        let k = num - cnt;
        if h[k].spec_eq(T::spec_zero()) {
            prev
        } else {
            acc_reflect(Seq::new(n as nat, |i: int| p(k, i)), h[k], prev, k + 1, n)
        }
    }
}

/// The square identity of order `m`.
pub(crate) fn identity_of<T: Scalar>(m: usize) -> (u: Matrix<T>)
    requires
        m * m <= usize::MAX,
    ensures
        u.wf(),
        u.nrows() == m,
        u.ncols() == m,
        holds(u, eye()),
{
    let mut u = Matrix::zeros(m, m);
    let mut d: usize = 0;
    while d < m
        invariant
            d <= m,
            u.wf(),
            u.nrows() == m,
            u.ncols() == m,
            forall|a: int, b: int| #[trigger]
                u.in_bounds(a, b) ==> u.at(a, b) == if a == b && a < d {
                    T::spec_from_usize(1)
                } else {
                    T::spec_zero()
                },
        decreases m - d,
    {
        let ghost before = u;
        u.set(d, d, T::from_usize(1));
        proof {
            assert forall|a: int, b: int| #[trigger] u.in_bounds(a, b) implies u.at(a, b) == if a == b && a < d + 1 {
                T::spec_from_usize(1)
            } else {
                T::spec_zero()
            } by {
                assert(before.in_bounds(a, b));
            }
        }
        d = d + 1;
    }
    u
}

/// Applies `acc_reflect(v, tau, .., s, m)` in place to a square matrix of
/// order `m`, column by column.
fn reflect_block<T: Scalar>(x: &mut Matrix<T>, v: &Vec<T>, tau: T, s: usize, Ghost(g): Ghost<spec_fn(int, int) -> T>)
    requires
        old(x).wf(),
        old(x).nrows() == old(x).ncols(),
        v@.len() == old(x).nrows(),
        s < old(x).nrows(),
        holds(*old(x), g),
    ensures
        final(x).wf(),
        final(x).same_shape(old(x)),
        holds(*final(x), acc_reflect(v@, tau, g, s as int, old(x).nrows() as int)),
{
    let m = x.rows();
    let ghost next = acc_reflect(v@, tau, g, s as int, m as int);
    let one = T::from_usize(1);
    let mut j = s;
    while j < m
        invariant
            s <= j <= m,
            m == x.nrows(),
            m == x.ncols(),
            v@.len() == m,
            x.wf(),
            next == acc_reflect(v@, tau, g, s as int, m as int),
            one == T::spec_from_usize(1),
            forall|r: int, c: int| #[trigger]
                x.in_bounds(r, c) ==> x.at(r, c) == if c < j {
                    next(r, c)
                } else {
                    g(r, c)
                },
        decreases m - j,
    {
        assert(x.in_bounds(s as int, j as int));
        let mut dot = T::zero().plus(one.conj().times(x.entry(s, j)));
        let mut i = s + 1;
        while i < m
            invariant
                s < i <= m,
                s <= j < m,
                m == x.nrows(),
                m == x.ncols(),
                v@.len() == m,
                x.wf(),
                forall|r: int, c: int| #[trigger]
                    x.in_bounds(r, c) ==> x.at(r, c) == if c < j {
                        next(r, c)
                    } else {
                        g(r, c)
                    },
                dot == acc_dot(v@, g, s as int, j as int, i as int),
            decreases m - i,
        {
            assert(x.in_bounds(i as int, j as int));
            dot = dot.plus(v[i].conj().times(x.entry(i, j)));
            i = i + 1;
        }
        let factor = tau.times(dot);
        let ghost before = *x;
        let y = x.entry(s, j);
        x.set(s, j, y.minus(factor.times(one)));
        proof {
            assert forall|r: int, c: int| #[trigger] x.in_bounds(r, c) implies x.at(r, c) == if c < j || (c == j && r
                <= s) {
                next(r, c)
            } else {
                g(r, c)
            } by {
                assert(before.in_bounds(r, c));
            }
        }
        let mut i = s + 1;
        while i < m
            invariant
                s < i <= m,
                s <= j < m,
                m == x.nrows(),
                m == x.ncols(),
                v@.len() == m,
                x.wf(),
                next == acc_reflect(v@, tau, g, s as int, m as int),
                factor == tau.spec_times(acc_dot(v@, g, s as int, j as int, m as int)),
                forall|r: int, c: int| #[trigger]
                    x.in_bounds(r, c) ==> x.at(r, c) == if c < j || (c == j && r < i) {
                        next(r, c)
                    } else {
                        g(r, c)
                    },
            decreases m - i,
        {
            let ghost before = *x;
            assert(x.in_bounds(i as int, j as int));
            let y = x.entry(i, j);
            let vi = v[i];
            assert(y == g(i as int, j as int));
            assert(next(i as int, j as int) == y.spec_minus(factor.spec_times(vi)));
            x.set(i, j, y.minus(factor.times(vi)));
            proof {
                assert forall|r: int, c: int| #[trigger] x.in_bounds(r, c) implies x.at(r, c) == if c < j || (c == j
                    && r < i + 1) {
                    next(r, c)
                } else {
                    g(r, c)
                } by {
                    assert(before.in_bounds(r, c));
                }
            }
            i = i + 1;
        }
        j = j + 1;
    }
    proof {
        assert forall|r: int, c: int| #[trigger] x.in_bounds(r, c) implies x.at(r, c) == next(r, c) by {}
    }
}

/// The reduction of a matrix with at least as many rows as columns (see
/// `bd_state`), in place; the coefficient vectors start empty.
fn compute_upper<T: Scalar>(
    mat: &mut Matrix<T>,
    h_left: &mut Vec<T>,
    h_right: &mut Vec<T>,
    Ghost(a0): Ghost<spec_fn(int, int) -> T>,
)
    requires
        old(mat).wf(),
        old(mat).ncols() <= old(mat).nrows(),
        holds(*old(mat), a0),
        old(h_left)@.len() == 0,
        old(h_right)@.len() == 0,
    ensures
        ({
            let st = bd_state(a0, old(mat).nrows() as int, old(mat).ncols() as int, old(mat).ncols());
            &&& final(mat).wf()
            &&& final(mat).same_shape(old(mat))
            &&& holds(*final(mat), st.0)
            &&& final(h_left)@ == st.1
            &&& final(h_right)@ == st.2
            &&& final(h_left)@.len() == old(mat).ncols()
            &&& final(h_right)@.len() == if old(mat).ncols() > 0 {
                old(mat).ncols() - 1
            } else {
                0
            }
        }),
{
    let m = mat.rows();
    let n = mat.cols();
    let mut q: usize = 0;
    while q < n
        invariant
            q <= n,
            h_left@.len() == q,
            forall|t: int| 0 <= t < q ==> #[trigger] h_left@[t] == T::spec_zero(),
        decreases n - q,
    {
        h_left.push(T::zero());
        q = q + 1;
    }
    let rn: usize = if n > 0 {
        n - 1
    } else {
        0
    };
    let mut q: usize = 0;
    while q < rn
        invariant
            q <= rn,
            h_right@.len() == q,
            forall|t: int| 0 <= t < q ==> #[trigger] h_right@[t] == T::spec_zero(),
        decreases rn - q,
    {
        h_right.push(T::zero());
        q = q + 1;
    }
    proof {
        assert(h_left@ == bd_state(a0, m as int, n as int, 0).1);
        assert(h_right@ == bd_state(a0, m as int, n as int, 0).2);
    }
    let mut k: usize = 0;
    while k < n
        invariant
            k <= n <= m,
            m == mat.nrows(),
            n == mat.ncols(),
            mat.wf(),
            mat.same_shape(old(mat)),
            mat.nrows() == m,
            mat.ncols() == n,
            holds(*mat, bd_state(a0, m as int, n as int, k as nat).0),
            h_left@ == bd_state(a0, m as int, n as int, k as nat).1,
            h_right@ == bd_state(a0, m as int, n as int, k as nat).2,
        decreases n - k,
    {
        proof {
            lemma_bd_lens(a0, m as int, n as int, k as nat);
        }
        let ghost b = bd_state(a0, m as int, n as int, k as nat).0;
        let tl = column_step(mat, k, Ghost(b));
        h_left.set(k, tl);
        if k + 1 < n {
            let ghost c = bd_col_step(b, m as int, k as int).0;
            let tr = row_step(mat, k, Ghost(c));
            h_right.set(k, tr);
        }
        k = k + 1;
    }
    proof {
        lemma_bd_lens(a0, m as int, n as int, n as nat);
    }
}

/// A bidiagonalization `A = U B V^*`.
pub struct Bidiagonalization<T> {
    packed_matrix: Matrix<T>,
    householder_coeffs_left: Vec<T>,
    householder_coeffs_right: Vec<T>,
    is_upper: bool,
}

impl<T: Scalar> Bidiagonalization<T> {
    /// The compact working matrix.
    pub closed spec fn packed(&self) -> Matrix<T> {
        self.packed_matrix
    }

    /// The coefficients of the column (left) reflections.
    pub closed spec fn left(&self) -> Seq<T> {
        self.householder_coeffs_left@
    }

    /// The coefficients of the row (right) reflections.
    pub closed spec fn right(&self) -> Seq<T> {
        self.householder_coeffs_right@
    }

    /// Whether the matrix has at least as many rows as columns (and so was
    /// reduced to upper bidiagonal form).
    pub closed spec fn upper(&self) -> bool {
        self.is_upper
    }

    /// `cols` left and `cols - 1` right coefficients for a reduced matrix,
    /// none otherwise.
    pub open spec fn wf(&self) -> bool {
        let n = self.packed().ncols();
        &&& self.packed().wf()
        &&& self.upper() == (self.packed().nrows() >= n)
        &&& self.upper() ==> self.left().len() == n && self.right().len() == if n > 0 {
            n - 1
        } else {
            0
        }
        &&& !self.upper() ==> self.left().len() == 0 && self.right().len() == 0
    }

    /// Computes the bidiagonalization; a matrix with fewer rows than columns
    /// is kept as it is.
    pub fn new(matrix: &Matrix<T>) -> (r: Result<Self, String>)
        requires
            matrix.wf(),
        ensures
            r is Ok,
            r matches Ok(d) ==> {
                let m = matrix.nrows();
                let n = matrix.ncols();
                let st = bd_state(grid(*matrix), m as int, n as int, n);
                &&& d.wf()
                &&& d.packed().nrows() == m
                &&& d.packed().ncols() == n
                &&& d.upper() == (m >= n)
                &&& m >= n ==> holds(d.packed(), st.0) && d.left() == st.1 && d.right() == st.2
                &&& m < n ==> holds(d.packed(), grid(*matrix))
            },
    {
        let m = matrix.rows();
        let n = matrix.cols();
        let ghost a0 = grid(*matrix);
        let mut packed = matrix.copy();
        let is_upper = m >= n;
        let mut h_left: Vec<T> = Vec::new();
        let mut h_right: Vec<T> = Vec::new();
        proof {
            assert forall|i: int, j: int| #[trigger] packed.in_bounds(i, j) implies packed.at(i, j) == a0(i, j) by {}
        }
        if is_upper {
            compute_upper(&mut packed, &mut h_left, &mut h_right, Ghost(a0));
        }
        Ok(Bidiagonalization {
            packed_matrix: packed,
            householder_coeffs_left: h_left,
            householder_coeffs_right: h_right,
            is_upper,
        })
    }

    /// The bidiagonal matrix `B` (`rows x cols`): the working matrix on the
    /// diagonal and, when reduced, on the superdiagonal; zero elsewhere.
    pub fn matrix_b(&self) -> (b: Matrix<T>)
        requires
            self.wf(),
        ensures
            b.wf(),
            b.same_shape(&self.packed()),
            forall|i: int, j: int| #[trigger]
                b.in_bounds(i, j) ==> b.at(i, j) == if i == j || (self.upper() && j == i + 1) {
                    self.packed().at(i, j)
                } else {
                    T::spec_zero()
                },
    {
        let m = self.packed_matrix.rows();
        let n = self.packed_matrix.cols();
        let _size = self.packed_matrix.size();
        let mut b = Matrix::zeros(m, n);
        let min_dim = if m < n {
            m
        } else {
            n
        };
        let mut i: usize = 0;
        while i < min_dim
            invariant
                self.wf(),
                m == self.packed().nrows(),
                n == self.packed().ncols(),
                min_dim == if m < n {
                    m
                } else {
                    n
                },
                i <= min_dim,
                b.wf(),
                b.nrows() == m,
                b.ncols() == n,
                forall|r: int, c: int| #[trigger]
                    b.in_bounds(r, c) ==> b.at(r, c) == if r < i && (r == c || (self.upper() && c == r + 1)) {
                        self.packed().at(r, c)
                    } else {
                        T::spec_zero()
                    },
            decreases min_dim - i,
        {
            let ghost before = b;
            assert(self.packed_matrix.in_bounds(i as int, i as int));
            b.set(i, i, self.packed_matrix.entry(i, i));
            let ghost mid = b;
            if self.is_upper && i + 1 < n {
                assert(self.packed_matrix.in_bounds(i as int, (i + 1) as int));
                b.set(i, i + 1, self.packed_matrix.entry(i, i + 1));
            }
            proof {
                assert forall|r: int, c: int| #[trigger] b.in_bounds(r, c) implies b.at(r, c) == if r < i + 1 && (r
                    == c || (self.upper() && c == r + 1)) {
                    self.packed().at(r, c)
                } else {
                    T::spec_zero()
                } by {
                    assert(before.in_bounds(r, c));
                    assert(mid.in_bounds(r, c));
                }
            }
            i = i + 1;
        }
        b
    }

    /// The unitary factor `U` (`rows x rows`), built from the identity by
    /// the column reflections in reverse order.
    pub fn matrix_u(&self) -> (u: Matrix<T>)
        requires
            self.wf(),
            self.upper() || self.packed().nrows() == 0,
            self.packed().nrows() * self.packed().nrows() <= usize::MAX,
        ensures
            u.wf(),
            u.nrows() == self.packed().nrows(),
            u.ncols() == self.packed().nrows(),
            holds(
                u,
                bd_u(
                    grid(self.packed()),
                    self.left(),
                    self.packed().nrows() as int,
                    self.left().len() as int,
                    self.left().len(),
                ),
            ),
    {
        let m = self.packed_matrix.rows();
        let n = self.packed_matrix.cols();
        let num = if m >= n {
            n
        } else {
            m
        };
        let ghost p = grid(self.packed());
        let mut u = identity_of(m);
        let mut t: usize = 0;
        while t < num
            invariant
                self.wf(),
                self.upper() || m == 0,
                m == self.packed().nrows(),
                n == self.packed().ncols(),
                num == self.left().len(),
                num <= m,
                num <= n,
                t <= num,
                p == grid(self.packed()),
                u.wf(),
                u.nrows() == m,
                u.ncols() == m,
                holds(u, bd_u(p, self.left(), m as int, num as int, t as nat)),
            decreases num - t,
        {
            let k = num - 1 - t;
            let tau = self.householder_coeffs_left[k];
            if !tau.is_eq(T::zero()) {
                let mut col: Vec<T> = Vec::new();
                let mut i: usize = 0;
                while i < m
                    invariant
                        self.wf(),
                        m == self.packed().nrows(),
                        n == self.packed().ncols(),
                        k < n,
                        i <= m,
                        p == grid(self.packed()),
                        col@ == Seq::new(i as nat, |r: int| p(r, k as int)),
                    decreases m - i,
                {
                    assert(self.packed_matrix.in_bounds(i as int, k as int));
                    col.push(self.packed_matrix.entry(i, k));
                    i = i + 1;
                }
                reflect_block(&mut u, &col, tau, k, Ghost(bd_u(p, self.left(), m as int, num as int, t as nat)));
            }
            t = t + 1;
        }
        u
    }

    /// The unitary factor `V` (`cols x cols`), built from the identity by
    /// the row reflections in reverse order.
    pub fn matrix_v(&self) -> (v: Matrix<T>)
        requires
            self.wf(),
            self.packed().ncols() * self.packed().ncols() <= usize::MAX,
        ensures
            v.wf(),
            v.nrows() == self.packed().ncols(),
            v.ncols() == self.packed().ncols(),
            holds(
                v,
                bd_v(
                    grid(self.packed()),
                    self.right(),
                    self.packed().ncols() as int,
                    self.right().len() as int,
                    self.right().len(),
                ),
            ),
    {
        let m = self.packed_matrix.rows();
        let n = self.packed_matrix.cols();
        let num = self.householder_coeffs_right.len();
        let ghost p = grid(self.packed());
        let mut v = identity_of(n);
        let mut t: usize = 0;
        while t < num
            invariant
                self.wf(),
                m == self.packed().nrows(),
                n == self.packed().ncols(),
                num == self.right().len(),
                num > 0 ==> self.upper() && num + 1 == n && n <= m,
                t <= num,
                p == grid(self.packed()),
                v.wf(),
                v.nrows() == n,
                v.ncols() == n,
                holds(v, bd_v(p, self.right(), n as int, num as int, t as nat)),
            decreases num - t,
        {
            let k = num - 1 - t;
            let tau = self.householder_coeffs_right[k];
            if !tau.is_eq(T::zero()) {
                let mut row: Vec<T> = Vec::new();
                let mut i: usize = 0;
                while i < n
                    invariant
                        self.wf(),
                        m == self.packed().nrows(),
                        n == self.packed().ncols(),
                        k < m,
                        i <= n,
                        p == grid(self.packed()),
                        row@ == Seq::new(i as nat, |c: int| p(k as int, c)),
                    decreases n - i,
                {
                    assert(self.packed_matrix.in_bounds(k as int, i as int));
                    row.push(self.packed_matrix.entry(k, i));
                    i = i + 1;
                }
                reflect_block(&mut v, &row, tau, k + 1, Ghost(bd_v(p, self.right(), n as int, num as int, t as nat)));
            }
            t = t + 1;
        }
        v
    }
}

} // verus!
