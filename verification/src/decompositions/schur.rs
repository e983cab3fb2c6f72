//! Real Schur decomposition `A = Q T Q^T` of a square matrix.
//!
//! The matrix is first reduced to Hessenberg form; Francis double-shift QR
//! steps on the active window `low ..= high` then drive the subdiagonal to
//! zero, deflating `1 x 1` and `2 x 2` blocks from the bottom. The
//! reflections are accumulated into `Q`.

use crate::decompositions::hessenberg::{HessenbergDecomposition, hess_len, hess_q, hess_state, hess_steps};
use crate::decompositions::lu::{grid, holds};
use crate::decompositions::selfadjoint_eigen::{agree, lemma_hh_dot_agree};
use crate::decompositions::tridiagonal::shifted;
use crate::matrix::Matrix;
use crate::scalar::Scalar;
use vstd::prelude::*;

verus! {

/// The `2 x 2` or `3 x 3` reflection of the vector `(v0, v1, v2)` (its
/// first `nr` entries): `(tau, h1, h2)` with the reflection vector
/// `(1, h1, h2)`. When `v1^2 (+ v2^2)` equals zero, `tau` is zero and the
/// entries are copied.
pub open spec fn house_of<T: Scalar>(v0: T, v1: T, v2: T, nr: int) -> (T, T, T) {
    let zero = T::spec_zero();
    let ns = if nr == 3 {
        zero.spec_plus(v1.spec_times(v1)).spec_plus(v2.spec_times(v2))
    } else {
        zero.spec_plus(v1.spec_times(v1))
    };
    if ns.spec_eq(zero) {
        (zero, v1, v2)
    } else {
        let mu = v0.spec_times(v0).spec_plus(ns).spec_sqrt();
        let w = if v0.spec_le(zero) {
            v0.spec_minus(mu)
        } else {
            zero.spec_minus(ns).spec_over(v0.spec_plus(mu))
        };
        let tau = T::spec_from_usize(2).spec_times(w).spec_times(w).spec_over(w.spec_times(w).spec_plus(ns));
        let inv = w.spec_recip();
        (tau, v1.spec_times(inv), v2.spec_times(inv))
    }
}

/// `g(k, c) + h1 g(k+1, c) (+ h2 g(k+2, c))`.
pub open spec fn col_house_dot<T: Scalar>(g: spec_fn(int, int) -> T, k: int, c: int, nr: int, h1: T, h2: T) -> T {
    let d = g(k, c).spec_plus(h1.spec_times(g(k + 1, c)));
    if nr == 3 {
        d.spec_plus(h2.spec_times(g(k + 2, c)))
    } else {
        d
    }
}

/// `g(r, k) + h1 g(r, k+1) (+ h2 g(r, k+2))`.
pub open spec fn row_house_dot<T: Scalar>(g: spec_fn(int, int) -> T, r: int, k: int, nr: int, h1: T, h2: T) -> T {
    let d = g(r, k).spec_plus(h1.spec_times(g(r, k + 1)));
    if nr == 3 {
        d.spec_plus(h2.spec_times(g(r, k + 2)))
    } else {
        d
    }
}

/// The small reflection applied from the left to rows `k .. k + nr` of the
/// columns `lo .. hi`: with `f = tau * col_house_dot`, row `k` loses `f`,
/// row `k + 1` loses `f h1` and row `k + 2` loses `f h2`.
pub open spec fn left_house<T: Scalar>(
    g: spec_fn(int, int) -> T,
    k: int,
    nr: int,
    tau: T,
    h1: T,
    h2: T,
    lo: int,
    hi: int,
) -> spec_fn(int, int) -> T {
    |r: int, c: int|
        if lo <= c < hi && k <= r < k + nr {
            let f = tau.spec_times(col_house_dot(g, k, c, nr, h1, h2));
            if r == k {
                g(r, c).spec_minus(f)
            } else if r == k + 1 {
                g(r, c).spec_minus(f.spec_times(h1))
            } else {
                g(r, c).spec_minus(f.spec_times(h2))
            }
        } else {
            g(r, c)
        }
}

/// The small reflection applied from the right to columns `k .. k + nr`
/// of the rows `0 .. rows`: with `f = tau * row_house_dot`, column `k`
/// loses `f`, column `k + 1` loses `f h1` and column `k + 2` loses `f h2`.
pub open spec fn right_house<T: Scalar>(
    g: spec_fn(int, int) -> T,
    k: int,
    nr: int,
    tau: T,
    h1: T,
    h2: T,
    rows: int,
) -> spec_fn(int, int) -> T {
    |r: int, c: int|
        if 0 <= r < rows && k <= c < k + nr {
            let f = tau.spec_times(row_house_dot(g, r, k, nr, h1, h2));
            if c == k {
                g(r, c).spec_minus(f)
            } else if c == k + 1 {
                g(r, c).spec_minus(f.spec_times(h1))
            } else {
                g(r, c).spec_minus(f.spec_times(h2))
            }
        } else {
            g(r, c)
        }
}

/// After a step `k > start`, the entries of column `k - 1` below the
/// subdiagonal that the reflection annihilated are set to zero.
pub open spec fn clean_bulge<T: Scalar>(g: spec_fn(int, int) -> T, k: int, nr: int, start: int) -> spec_fn(
    int,
    int,
) -> T {
    |r: int, c: int|
        if k > start && c == k - 1 && (r == k + 1 || (nr == 3 && r == k + 2)) {
            T::spec_zero()
        } else {
            g(r, c)
        }
}

/// The size `min(3, end - k + 1)` of the reflection at position `k`.
pub open spec fn bulge_size(k: int, end: int) -> int {
    if end - k + 1 < 3 {
        end - k + 1
    } else {
        3
    }
}

/// The vector reflected at position `k`: the initial one at `k = start`,
/// the bulge below the subdiagonal of column `k - 1` afterwards (its third
/// entry kept when only two are read).
pub open spec fn bulge_vector<T: Scalar>(h: spec_fn(int, int) -> T, k: int, start: int, end: int, v: (T, T, T)) -> (
    T,
    T,
    T,
) {
    if k > start {
        (h(k, k - 1), h(k + 1, k - 1), if bulge_size(k, end) == 3 {
            h(k + 2, k - 1)
        } else {
            v.2
        })
    } else {
        v
    }
}

/// The positions `k .. end` of a Francis step on the `n x n` matrices `h`
/// and `q`, with `v` the vector of the previous position.
pub open spec fn francis_from<T: Scalar>(
    h: spec_fn(int, int) -> T,
    q: spec_fn(int, int) -> T,
    start: int,
    end: int,
    k: int,
    v: (T, T, T),
    n: int,
) -> (spec_fn(int, int) -> T, spec_fn(int, int) -> T)
    decreases end - k,
{
    if k >= end {
        (h, q)
    } else {
        let nr = bulge_size(k, end);
        let w = bulge_vector(h, k, start, end, v);
        let hs = house_of(w.0, w.1, w.2, nr);
        let lo = if k == start {
            start
        } else {
            k - 1
        };
        let rows = if n < k + 4 {
            n
        } else {
            k + 4
        };
        let h1 = left_house(h, k, nr, hs.0, hs.1, hs.2, lo, n);
        let h2 = right_house(h1, k, nr, hs.0, hs.1, hs.2, rows);
        let h3 = clean_bulge(h2, k, nr, start);
        let q1 = right_house(q, k, nr, hs.0, hs.1, hs.2, n);
        francis_from(h3, q1, start, end, k + 1, w, n)
    }
}

/// The first column of `(H - a)(H - b)` restricted to the window, for the
/// shifts with sum `s` and product `t`.
pub open spec fn francis_start<T: Scalar>(h: spec_fn(int, int) -> T, start: int, end: int, s: T, t: T) -> (T, T, T) {
    let h00 = h(start, start);
    let h10 = h(start + 1, start);
    let h01 = h(start, start + 1);
    let h11 = h(start + 1, start + 1);
    let h21 = if start + 2 <= end {
        h(start + 2, start + 1)
    } else {
        T::spec_zero()
    };
    (
        h00.spec_times(h00).spec_plus(h01.spec_times(h10)).spec_minus(s.spec_times(h00)).spec_plus(t),
        h10.spec_times(h00.spec_plus(h11).spec_minus(s)),
        h10.spec_times(h21),
    )
}

/// A Francis double-shift step on the window `start ..= end`.
pub open spec fn francis<T: Scalar>(
    h: spec_fn(int, int) -> T,
    q: spec_fn(int, int) -> T,
    start: int,
    end: int,
    s: T,
    t: T,
    n: int,
) -> (spec_fn(int, int) -> T, spec_fn(int, int) -> T) {
    francis_from(h, q, start, end, start, francis_start(h, start, end, s, t), n)
}

/// The reflection of the first `nr` entries of `(v0, v1, v2)` (see
/// `house_of`).
fn make_householder<T: Scalar>(v0: T, v1: T, v2: T, nr: usize) -> (r: (T, T, T))
    ensures
        r == house_of(v0, v1, v2, nr as int),
{
    let zero = T::zero();
    let mut norm_sq = zero.plus(v1.times(v1));
    if nr == 3 {
        norm_sq = norm_sq.plus(v2.times(v2));
    }
    if norm_sq.is_eq(zero) {
        return (zero, v1, v2);
    }
    let mu = v0.times(v0).plus(norm_sq).sqrt();
    let w = if v0.is_le(zero) {
        v0.minus(mu)
    } else {
        zero.minus(norm_sq).over(v0.plus(mu))
    };
    let tau = T::from_usize(2).times(w).times(w).over(w.times(w).plus(norm_sq));
    let inv = w.recip();
    (tau, v1.times(inv), v2.times(inv))
}

/// Applies the small reflection from the left to the columns `lo .. n`
/// (see `left_house`).
fn apply_left<T: Scalar>(
    g: &mut Matrix<T>,
    k: usize,
    nr: usize,
    tau: T,
    h1: T,
    h2: T,
    lo: usize,
    Ghost(g0): Ghost<spec_fn(int, int) -> T>,
)
    requires
        old(g).wf(),
        2 <= nr <= 3,
        k + nr <= old(g).nrows(),
        holds(*old(g), g0),
    ensures
        final(g).wf(),
        final(g).same_shape(old(g)),
        holds(*final(g), left_house(g0, k as int, nr as int, tau, h1, h2, lo as int, old(g).ncols() as int)),
{
    let n = g.cols();
    proof {
        g.lemma_dims_fit();
    }
    let ghost target = left_house(g0, k as int, nr as int, tau, h1, h2, lo as int, n as int);
    let ghost start = *g;
    let mut j = lo;
    while j < n
        invariant
            lo <= j,
            n == g.ncols(),
            2 <= nr <= 3,
            k + nr <= g.nrows(),
            g.nrows() <= usize::MAX,
            g.wf(),
            g.same_shape(&start),
            holds(start, g0),
            target == left_house(g0, k as int, nr as int, tau, h1, h2, lo as int, n as int),
            forall|r: int, c: int| #[trigger]
                g.in_bounds(r, c) ==> g.at(r, c) == if lo <= c < j {
                    target(r, c)
                } else {
                    g0(r, c)
                },
        decreases n - j,
    {
        let ghost before = *g;
        assert(g.in_bounds(k as int, j as int) && g.in_bounds((k + 1) as int, j as int));
        let x0 = g.entry(k, j);
        let x1 = g.entry(k + 1, j);
        let mut dot = x0.plus(h1.times(x1));
        if nr == 3 {
            assert(g.in_bounds((k + 2) as int, j as int));
            dot = dot.plus(h2.times(g.entry(k + 2, j)));
        }
        let factor = tau.times(dot);
        assert(factor == tau.spec_times(col_house_dot(g0, k as int, j as int, nr as int, h1, h2)));
        g.set(k, j, x0.minus(factor));
        let ghost m1 = *g;
        g.set(k + 1, j, x1.minus(factor.times(h1)));
        let ghost m2 = *g;
        if nr == 3 {
            assert(g.in_bounds((k + 2) as int, j as int));
            let y2 = g.entry(k + 2, j);
            assert(m1.in_bounds((k + 2) as int, j as int));
            g.set(k + 2, j, y2.minus(factor.times(h2)));
        }
        proof {
            assert forall|r: int, c: int| #[trigger] g.in_bounds(r, c) implies g.at(r, c) == if lo <= c < j + 1 {
                target(r, c)
            } else {
                g0(r, c)
            } by {
                assert(before.in_bounds(r, c));
                assert(m1.in_bounds(r, c));
                assert(m2.in_bounds(r, c));
            }
        }
        j = j + 1;
    }
}

/// Applies the small reflection from the right to the rows `0 .. rows`
/// (see `right_house`).
fn apply_right<T: Scalar>(
    g: &mut Matrix<T>,
    k: usize,
    nr: usize,
    tau: T,
    h1: T,
    h2: T,
    rows: usize,
    Ghost(g0): Ghost<spec_fn(int, int) -> T>,
)
    requires
        old(g).wf(),
        2 <= nr <= 3,
        k + nr <= old(g).ncols(),
        rows <= old(g).nrows(),
        holds(*old(g), g0),
    ensures
        final(g).wf(),
        final(g).same_shape(old(g)),
        holds(*final(g), right_house(g0, k as int, nr as int, tau, h1, h2, rows as int)),
{
    proof {
        g.lemma_dims_fit();
    }
    let ghost target = right_house(g0, k as int, nr as int, tau, h1, h2, rows as int);
    let ghost start = *g;
    let mut i: usize = 0;
    while i < rows
        invariant
            i <= rows,
            rows <= g.nrows(),
            2 <= nr <= 3,
            k + nr <= g.ncols(),
            g.ncols() <= usize::MAX,
            g.wf(),
            g.same_shape(&start),
            holds(start, g0),
            target == right_house(g0, k as int, nr as int, tau, h1, h2, rows as int),
            forall|r: int, c: int| #[trigger]
                g.in_bounds(r, c) ==> g.at(r, c) == if r < i {
                    target(r, c)
                } else {
                    g0(r, c)
                },
        decreases rows - i,
    {
        let ghost before = *g;
        assert(g.in_bounds(i as int, k as int) && g.in_bounds(i as int, (k + 1) as int));
        let x0 = g.entry(i, k);
        let x1 = g.entry(i, k + 1);
        let mut dot = x0.plus(h1.times(x1));
        if nr == 3 {
            assert(g.in_bounds(i as int, (k + 2) as int));
            dot = dot.plus(h2.times(g.entry(i, k + 2)));
        }
        let factor = tau.times(dot);
        assert(factor == tau.spec_times(row_house_dot(g0, i as int, k as int, nr as int, h1, h2)));
        g.set(i, k, x0.minus(factor));
        let ghost m1 = *g;
        g.set(i, k + 1, x1.minus(factor.times(h1)));
        let ghost m2 = *g;
        if nr == 3 {
            assert(g.in_bounds(i as int, (k + 2) as int));
            let y2 = g.entry(i, k + 2);
            assert(m1.in_bounds(i as int, (k + 2) as int));
            g.set(i, k + 2, y2.minus(factor.times(h2)));
        }
        proof {
            assert forall|r: int, c: int| #[trigger] g.in_bounds(r, c) implies g.at(r, c) == if r < i + 1 {
                target(r, c)
            } else {
                g0(r, c)
            } by {
                assert(before.in_bounds(r, c));
                assert(m1.in_bounds(r, c));
                assert(m2.in_bounds(r, c));
            }
        }
        i = i + 1;
    }
    proof {
        assert forall|r: int, c: int| #[trigger] g.in_bounds(r, c) implies g.at(r, c) == target(r, c) by {
            assert(start.in_bounds(r, c));
        }
    }
}

/// Performs a Francis double-shift step on the window `start ..= end` of
/// `h`, accumulating the reflections into `q` (see `francis`).
fn francis_qr_step<T: Scalar>(
    h: &mut Matrix<T>,
    q: &mut Matrix<T>,
    start: usize,
    end: usize,
    s: T,
    t: T,
    Ghost(gh): Ghost<spec_fn(int, int) -> T>,
    Ghost(gq): Ghost<spec_fn(int, int) -> T>,
)
    requires
        old(h).wf(),
        old(q).wf(),
        old(h).nrows() == old(h).ncols(),
        old(q).nrows() == old(h).nrows(),
        old(q).ncols() == old(h).nrows(),
        start < end < old(h).nrows(),
        holds(*old(h), gh),
        holds(*old(q), gq),
    ensures
        final(h).wf(),
        final(q).wf(),
        final(h).same_shape(old(h)),
        final(q).same_shape(old(q)),
        ({
            let r = francis(gh, gq, start as int, end as int, s, t, old(h).nrows() as int);
            holds(*final(h), r.0) && holds(*final(q), r.1)
        }),
{
    let n = h.rows();
    let ghost target = francis(gh, gq, start as int, end as int, s, t, n as int);
    assert(h.in_bounds(start as int, start as int) && h.in_bounds((start + 1) as int, start as int));
    assert(h.in_bounds(start as int, (start + 1) as int) && h.in_bounds((start + 1) as int, (start + 1) as int));
    let h00 = h.entry(start, start);
    let h10 = h.entry(start + 1, start);
    let h01 = h.entry(start, start + 1);
    let h11 = h.entry(start + 1, start + 1);
    let h21 = if start + 2 <= end {
        assert(h.in_bounds((start + 2) as int, (start + 1) as int));
        h.entry(start + 2, start + 1)
    } else {
        T::zero()
    };
    let mut v0 = h00.times(h00).plus(h01.times(h10)).minus(s.times(h00)).plus(t);
    let mut v1 = h10.times(h00.plus(h11).minus(s));
    let mut v2 = h10.times(h21);
    let ghost mut g1 = gh;
    let ghost mut g2 = gq;
    proof {
        assert((v0, v1, v2) == francis_start(gh, start as int, end as int, s, t));
    }
    let mut k = start;
    while k < end
        invariant
            start <= k <= end,
            end < n,
            n == h.nrows(),
            n == h.ncols(),
            n == q.nrows(),
            n == q.ncols(),
            h.wf(),
            q.wf(),
            h.same_shape(old(h)),
            q.same_shape(old(q)),
            holds(*h, g1),
            holds(*q, g2),
            francis_from(g1, g2, start as int, end as int, k as int, (v0, v1, v2), n as int) == target,
        decreases end - k,
    {
        let nr: usize = if end - k + 1 < 3 {
            end - k + 1
        } else {
            3
        };
        if k > start {
            assert(h.in_bounds(k as int, (k - 1) as int) && h.in_bounds((k + 1) as int, (k - 1) as int));
            v0 = h.entry(k, k - 1);
            v1 = h.entry(k + 1, k - 1);
            if nr == 3 {
                assert(h.in_bounds((k + 2) as int, (k - 1) as int));
                v2 = h.entry(k + 2, k - 1);
            }
        }
        let (tau, hv1, hv2) = make_householder(v0, v1, v2, nr);
        let lo = if k == start {
            start
        } else {
            k - 1
        };
        let rows = if n - k < 4 {
            n
        } else {
            k + 4
        };
        apply_left(h, k, nr, tau, hv1, hv2, lo, Ghost(g1));
        let ghost ga = left_house(g1, k as int, nr as int, tau, hv1, hv2, lo as int, n as int);
        apply_right(h, k, nr, tau, hv1, hv2, rows, Ghost(ga));
        let ghost gb = right_house(ga, k as int, nr as int, tau, hv1, hv2, rows as int);
        if k > start {
            let ghost before = *h;
            assert(h.in_bounds((k + 1) as int, (k - 1) as int));
            h.set(k + 1, k - 1, T::zero());
            let ghost mid = *h;
            if nr == 3 {
                h.set(k + 2, k - 1, T::zero());
            }
            proof {
                assert forall|r: int, c: int| #[trigger] h.in_bounds(r, c) implies h.at(r, c) == clean_bulge(
                    gb,
                    k as int,
                    nr as int,
                    start as int,
                )(r, c) by {
                    assert(before.in_bounds(r, c));
                    assert(mid.in_bounds(r, c));
                }
            }
        }
        apply_right(q, k, nr, tau, hv1, hv2, n, Ghost(g2));
        proof {
            g1 = clean_bulge(gb, k as int, nr as int, start as int);
            g2 = right_house(g2, k as int, nr as int, tau, hv1, hv2, n as int);
        }
        k = k + 1;
    }
}

/// The sum of the squares of the entries of the `n x n` grid `g`, in
/// column-major order over the first `k` storage positions, from zero.
pub open spec fn frob_sq<T: Scalar>(g: spec_fn(int, int) -> T, n: int, k: int) -> T
    decreases k,
{
    if k <= 0 {
        T::spec_zero()
    } else {
        let e = g((k - 1) % n, (k - 1) / n);
        frob_sq(g, n, k - 1).spec_plus(e.spec_times(e))
    }
}

/// The subdiagonal entry `(i, i - 1)` is negligible: its modulus is at most
/// the tolerance times the neighbouring diagonal moduli (times the norm of
/// the matrix when they are tiny, or after 200 iterations, when the
/// tolerance is also relaxed a hundredfold), or at most `eps^2`.
pub open spec fn negligible<T: Scalar>(h: spec_fn(int, int) -> T, i: int, iter: int, h_norm: T, eps: T) -> bool {
    let val = h(i, i - 1).spec_abs();
    let sum = h(i - 1, i - 1).spec_abs().spec_plus(h(i, i).spec_abs());
    let ce = if iter > 200 {
        eps.spec_times(T::spec_from_usize(100))
    } else {
        eps
    };
    let reference = if sum.spec_lt(eps.spec_times(h_norm)) || iter > 200 {
        h_norm
    } else {
        sum
    };
    val.spec_le(ce.spec_times(reference)) || val.spec_le(eps.spec_times(eps))
}

/// Scans the subdiagonal upwards from row `i` for a negligible entry above
/// row `low`; returns its row, or where the scan stopped.
pub open spec fn deflate_scan<T: Scalar>(h: spec_fn(int, int) -> T, low: int, i: int, iter: int, h_norm: T, eps: T) -> int
    decreases i - low,
{
    if i <= low {
        i
    } else if negligible(h, i, iter, h_norm, eps) {
        i
    } else {
        deflate_scan(h, low, i - 1, iter, h_norm, eps)
    }
}

/// `g` with entry `(i, j)` replaced by zero.
pub open spec fn zero_at<T: Scalar>(g: spec_fn(int, int) -> T, i: int, j: int) -> spec_fn(int, int) -> T {
    |r: int, c: int|
        if r == i && c == j {
            T::spec_zero()
        } else {
            g(r, c)
        }
}

/// The factor of the exceptional shift at iteration `iter`: `3/2`, `9/8`
/// and `3/4` in turn, every ten iterations.
pub open spec fn jitter<T: Scalar>(iter: int) -> T {
    let m = (iter / 10) % 3;
    if m == 0 {
        T::spec_from_usize(3).spec_over(T::spec_from_usize(2))
    } else if m == 1 {
        T::spec_from_usize(9).spec_over(T::spec_from_usize(8))
    } else {
        T::spec_from_usize(3).spec_over(T::spec_from_usize(4))
    }
}

/// The shift sum and product for the window ending at `high`: every tenth
/// iteration an exceptional shift built from the last subdiagonal moduli,
/// otherwise the trace and the determinant of the trailing `2 x 2` block.
pub open spec fn shifts<T: Scalar>(h: spec_fn(int, int) -> T, low: int, high: int, iter: int) -> (T, T) {
    if iter > 0 && iter % 10 == 0 {
        let a = h(high, high - 1).spec_abs();
        let b = if high > low + 1 {
            h(high - 1, high - 2).spec_abs()
        } else {
            T::spec_zero()
        };
        let sv = a.spec_plus(b);
        (jitter::<T>(iter).spec_times(sv), sv.spec_times(sv))
    } else {
        let hmm = h(high, high);
        let hm1 = h(high - 1, high - 1);
        (hmm.spec_plus(hm1), hmm.spec_times(hm1).spec_minus(h(high, high - 1).spec_times(h(high - 1, high))))
    }
}

/// Moves `low` past the leading subdiagonal entries whose modulus does not
/// exceed `eps`.
pub open spec fn shrink_low<T: Scalar>(h: spec_fn(int, int) -> T, low: int, high: int, eps: T) -> int
    decreases high - low,
{
    if low < high && !eps.spec_lt(h(low + 1, low).spec_abs()) {
        shrink_low(h, low + 1, high, eps)
    } else {
        low
    }
}

/// The QR iteration from the state `(h, q, low, high, iter)`: `None` when
/// some window needs more than `max_iter` steps, otherwise the final `T`
/// and `Q`.
pub open spec fn schur_loop<T: Scalar>(
    h: spec_fn(int, int) -> T,
    q: spec_fn(int, int) -> T,
    low: int,
    high: int,
    iter: int,
    h_norm: T,
    eps: T,
    n: int,
    max_iter: int,
) -> Option<(spec_fn(int, int) -> T, spec_fn(int, int) -> T)>
    decreases high, max_iter + 1 - iter,
{
    if high <= 0 {
        Some((h, q))
    } else if iter > max_iter {
        None
    } else {
        let i = deflate_scan(h, low, high, iter, h_norm, eps);
        let h1 = if i > low {
            zero_at(h, i, i - 1)
        } else {
            h
        };
        if i == high {
            let nh = high - 1;
            schur_loop(h1, q, shrink_low(h1, low, nh, eps), nh, 0, h_norm, eps, n, max_iter)
        } else if i == high - 1 {
            let nh = if high >= 2 {
                high - 2
            } else {
                0
            };
            schur_loop(h1, q, shrink_low(h1, low, nh, eps), nh, 0, h_norm, eps, n, max_iter)
        } else {
            let st = shifts(h1, low, high, iter);
            let f = francis(h1, q, i, high, st.0, st.1, n);
            schur_loop(f.0, f.1, shrink_low(f.0, low, high, eps), high, iter + 1, h_norm, eps, n, max_iter)
        }
    }
}

/// The complete iteration on the `n x n` Hessenberg matrix `h` with the
/// accumulated factor `q`.
pub open spec fn schur_run<T: Scalar>(h: spec_fn(int, int) -> T, q: spec_fn(int, int) -> T, n: int) -> Option<
    (spec_fn(int, int) -> T, spec_fn(int, int) -> T),
> {
    schur_loop(
        h,
        q,
        0,
        n - 1,
        0,
        frob_sq(h, n, n * n).spec_sqrt(),
        T::spec_svd_tolerance(),
        n,
        40 * n,
    )
}

/// Whether the subdiagonal entry `(i, i - 1)` is negligible (see
/// `negligible`).
fn is_negligible<T: Scalar>(h: &Matrix<T>, i: usize, iter: usize, h_norm: T, eps: T) -> (r: bool)
    requires
        h.wf(),
        1 <= i < h.nrows(),
        i < h.ncols(),
    ensures
        r == negligible(grid(*h), i as int, iter as int, h_norm, eps),
{
    assert(h.in_bounds(i as int, (i - 1) as int) && h.in_bounds((i - 1) as int, (i - 1) as int));
    assert(h.in_bounds(i as int, i as int));
    let h_i_im1 = h.entry(i, i - 1);
    let h_im1_im1 = h.entry(i - 1, i - 1);
    let h_i_i = h.entry(i, i);
    let current_eps = if iter > 200 {
        eps.times(T::from_usize(100))
    } else {
        eps
    };
    let val = h_i_im1.abs();
    let sum_diags = h_im1_im1.abs().plus(h_i_i.abs());
    let reference = if sum_diags.is_lt(eps.times(h_norm)) || iter > 200 {
        h_norm
    } else {
        sum_diags
    };
    let threshold = current_eps.times(reference);
    val.is_le(threshold) || val.is_le(eps.times(eps))
}

/// The shift sum and product (see `shifts`).
fn compute_shifts<T: Scalar>(h: &Matrix<T>, low: usize, high: usize, iter: usize) -> (r: (T, T))
    requires
        h.wf(),
        1 <= high < h.nrows(),
        high < h.ncols(),
    ensures
        r == shifts(grid(*h), low as int, high as int, iter as int),
{
    assert(h.in_bounds(high as int, (high - 1) as int) && h.in_bounds((high - 1) as int, high as int));
    assert(h.in_bounds(high as int, high as int) && h.in_bounds((high - 1) as int, (high - 1) as int));
    if iter > 0 && iter % 10 == 0 {
        let a = h.entry(high, high - 1).abs();
        let b = if high - 1 > low {
            assert(h.in_bounds((high - 1) as int, (high - 2) as int));
            h.entry(high - 1, high - 2).abs()
        } else {
            T::zero()
        };
        let sv = a.plus(b);
        let m = (iter / 10) % 3;
        let j = if m == 0 {
            T::from_usize(3).over(T::from_usize(2))
        } else if m == 1 {
            T::from_usize(9).over(T::from_usize(8))
        } else {
            T::from_usize(3).over(T::from_usize(4))
        };
        (j.times(sv), sv.times(sv))
    } else {
        let hmm = h.entry(high, high);
        let hm1 = h.entry(high - 1, high - 1);
        (hmm.plus(hm1), hmm.times(hm1).minus(h.entry(high, high - 1).times(h.entry(high - 1, high))))
    }
}

/// The Frobenius norm of the square matrix `h`, summing the squares in
/// storage order (see `frob_sq`).
fn frobenius_norm<T: Scalar>(h: &Matrix<T>) -> (r: T)
    requires
        h.wf(),
        h.nrows() == h.ncols(),
    ensures
        r == frob_sq(grid(*h), h.nrows() as int, (h.nrows() * h.nrows()) as int).spec_sqrt(),
{
    let n = h.rows();
    let nn = h.size();
    let mut sq = T::zero();
    let mut k: usize = 0;
    while k < nn
        invariant
            k <= nn,
            nn == n * n,
            n == h.nrows(),
            n == h.ncols(),
            h.wf(),
            sq == frob_sq(grid(*h), n as int, k as int),
        decreases nn - k,
    {
        proof {
            crate::matrix::lemma_cm_split(k as int, n as int, n as int);
        }
        let i = k % n;
        let j = k / n;
        let e = h.entry(i, j);
        sq = sq.plus(e.times(e));
        k = k + 1;
    }
    sq.sqrt()
}

/// The QR iteration in place on the `n x n` Hessenberg matrix `h`,
/// accumulating into `q` (see `schur_run`); fails when a window does not
/// converge within `40 n` steps.
fn compute_inplace<T: Scalar>(
    h: &mut Matrix<T>,
    q: &mut Matrix<T>,
    Ghost(gh): Ghost<spec_fn(int, int) -> T>,
    Ghost(gq): Ghost<spec_fn(int, int) -> T>,
) -> (r: Result<(), String>)
    requires
        old(h).wf(),
        old(q).wf(),
        old(h).nrows() == old(h).ncols(),
        old(q).nrows() == old(h).nrows(),
        old(q).ncols() == old(h).nrows(),
        old(h).nrows() > 0,
        holds(*old(h), gh),
        holds(*old(q), gq),
    ensures
        final(h).wf(),
        final(q).wf(),
        final(h).same_shape(old(h)),
        final(q).same_shape(old(q)),
        r is Ok <==> schur_run(gh, gq, old(h).nrows() as int) is Some,
        r is Ok ==> {
            let res = schur_run(gh, gq, old(h).nrows() as int)->0;
            holds(*final(h), res.0) && holds(*final(q), res.1)
        },
        r matches Err(e) ==> e@ == "RealSchur failed to converge"@,
{
    let n = h.rows();
    let nn = h.size();
    assert(40 * n <= usize::MAX) by (nonlinear_arith)
        requires
            nn == n * n,
            nn <= usize::MAX,
            n > 0,
            usize::MAX >= 4294967295,
    ;
    let max_iter = 40 * n;
    let eps = T::svd_tolerance();
    let h_norm = frobenius_norm(h);
    proof {
        assert(frob_sq(grid(*h), n as int, (n * n) as int) == frob_sq(gh, n as int, (n * n) as int)) by {
            assert forall|r: int, c: int| 0 <= r < n && 0 <= c < n implies #[trigger] grid(*h)(r, c) == gh(r, c) by {
                assert(h.in_bounds(r, c));
            }
            lemma_frob_agree(grid(*h), gh, n as int, (n * n) as int);
        }
    }
    let ghost target = schur_run(gh, gq, n as int);
    let ghost mut g1 = gh;
    let ghost mut g2 = gq;
    let mut iter: usize = 0;
    let mut low: usize = 0;
    let mut high: usize = n - 1;
    while high > 0
        invariant
            n == h.nrows(),
            n == h.ncols(),
            n == q.nrows(),
            n == q.ncols(),
            h.wf(),
            q.wf(),
            h.same_shape(old(h)),
            q.same_shape(old(q)),
            high < n,
            iter <= max_iter + 1,
            max_iter == 40 * n,
            eps == T::spec_svd_tolerance(),
            holds(*h, g1),
            holds(*q, g2),
            target == schur_run(gh, gq, n as int),
            h_norm == frob_sq(gh, n as int, (n * n) as int).spec_sqrt(),
            schur_loop(g1, g2, low as int, high as int, iter as int, h_norm, eps, n as int, max_iter as int) == target,
        decreases high, max_iter + 1 - iter,
    {
        if iter > max_iter {
            return Err("RealSchur failed to converge".to_string());
        }
        let ghost og1 = g1;
        let ghost og2 = g2;
        let ghost ohigh = high;
        let ghost oiter = iter;
        let ghost d = deflate_scan(g1, low as int, high as int, iter as int, h_norm, eps);
        let mut i = high;
        let mut found = false;
        while i > low && !found
            invariant
                i <= high < n,
                n == h.nrows(),
                n == h.ncols(),
                h.wf(),
                holds(*h, g1),
                d == deflate_scan(g1, low as int, high as int, iter as int, h_norm, eps),
                !found ==> deflate_scan(g1, low as int, i as int, iter as int, h_norm, eps) == d,
                found ==> i == d && i > low,
            decreases i, (if found { 0int } else { 1int }),
        {
            proof {
                assert forall|r: int, c: int| #[trigger] h.in_bounds(r, c) implies grid(*h)(r, c) == g1(r, c) by {}
                assert(negligible(grid(*h), i as int, iter as int, h_norm, eps) == negligible(
                    g1,
                    i as int,
                    iter as int,
                    h_norm,
                    eps,
                )) by {
                    assert(h.in_bounds(i as int, (i - 1) as int) && h.in_bounds((i - 1) as int, (i - 1) as int));
                    assert(h.in_bounds(i as int, i as int));
                }
            }
            if is_negligible(h, i, iter, h_norm, eps) {
                found = true;
            } else {
                i = i - 1;
            }
        }
        if found {
            let ghost before = *h;
            h.set(i, i - 1, T::zero());
            proof {
                assert forall|r: int, c: int| #[trigger] h.in_bounds(r, c) implies h.at(r, c) == zero_at(
                    g1,
                    i as int,
                    (i - 1) as int,
                )(r, c) by {
                    assert(before.in_bounds(r, c));
                }
                g1 = zero_at(g1, i as int, (i - 1) as int);
            }
        }
        if i == high {
            high = high - 1;
            iter = 0;
        } else if i == high - 1 {
            high = if high >= 2 {
                high - 2
            } else {
                0
            };
            iter = 0;
        } else {
            let (sh, tp) = compute_shifts(h, low, high, iter);
            proof {
                assert(h.in_bounds(high as int, (high - 1) as int) && h.in_bounds((high - 1) as int, high as int));
                assert(h.in_bounds(high as int, high as int) && h.in_bounds((high - 1) as int, (high - 1) as int));
                if high > low + 1 {
                    assert(h.in_bounds((high - 1) as int, (high - 2) as int));
                }
                assert((sh, tp) == shifts(g1, low as int, high as int, iter as int));
            }
            francis_qr_step(h, q, i, high, sh, tp, Ghost(g1), Ghost(g2));
            proof {
                let f = francis(g1, g2, i as int, high as int, sh, tp, n as int);
                g1 = f.0;
                g2 = f.1;
            }
            iter = iter + 1;
        }
        let ghost lo0 = low;
        while low < high && !eps.is_lt(h.entry(low + 1, low).abs())
            invariant
                high < n,
                n == h.nrows(),
                n == h.ncols(),
                h.wf(),
                holds(*h, g1),
                shrink_low(g1, low as int, high as int, eps) == shrink_low(g1, lo0 as int, high as int, eps),
            decreases high - low,
        {
            proof {
                assert(h.in_bounds((low + 1) as int, low as int));
            }
            low = low + 1;
        }
        proof {
            if low < high {
                assert(h.in_bounds((low + 1) as int, low as int));
            }
            assert(low == shrink_low(g1, lo0 as int, high as int, eps));
            assert(schur_loop(og1, og2, lo0 as int, ohigh as int, oiter as int, h_norm, eps, n as int, max_iter as int)
                == schur_loop(g1, g2, low as int, high as int, iter as int, h_norm, eps, n as int, max_iter as int));
        }
    }
    Ok(())
}

/// Two grids that agree on the `n x n` square have the same `frob_sq`.
proof fn lemma_frob_agree<T: Scalar>(g1: spec_fn(int, int) -> T, g2: spec_fn(int, int) -> T, n: int, k: int)
    requires
        n > 0,
        0 <= k <= n * n,
        forall|r: int, c: int| 0 <= r < n && 0 <= c < n ==> #[trigger] g1(r, c) == g2(r, c),
    ensures
        frob_sq(g1, n, k) == frob_sq(g2, n, k),
    decreases k,
{
    if k > 0 {
        lemma_frob_agree(g1, g2, n, k - 1);
        crate::matrix::lemma_cm_split(k - 1, n, n);
    }
}

/// `hess_q` reads the working grid only inside the `n x n` square.
pub proof fn lemma_hess_q_agree<T: Scalar>(p1: spec_fn(int, int) -> T, p2: spec_fn(int, int) -> T, h: Seq<T>, n: int, m: nat)
    requires
        agree(p1, p2, n, n),
        m <= n - 2 || m == 0,
    ensures
        agree(hess_q(p1, h, n, m), hess_q(p2, h, n, m), n, n),
    decreases m,
{
    if m > 0 {
        let m1 = (m - 1) as nat;
        lemma_hess_q_agree(p1, p2, h, n, m1);
        let i = n - 2 - m;
        let x1 = hess_q(p1, h, n, m1);
        let x2 = hess_q(p2, h, n, m1);
        if !h[i].spec_eq(T::spec_zero()) {
            let w1 = shifted(p1);
            let w2 = shifted(p2);
            assert forall|r: int, c: int| 0 <= r < n && 0 <= c < n implies #[trigger] hess_q(p1, h, n, m)(r, c)
                == hess_q(p2, h, n, m)(r, c) by {
                assert(x1(r, c) == x2(r, c));
                if i + 1 <= c && i + 1 <= r {
                    lemma_hh_dot_agree(w1, w2, x1, x2, i + 1, c, n, true, n);
                    assert(w1(r, i + 1) == p1(r, i));
                    assert(w2(r, i + 1) == p2(r, i));
                }
            }
        }
    }
}

/// The Hessenberg form of `a` that the iteration starts from: the working
/// grid of the reduction on and above the subdiagonal, zero below it.
pub open spec fn schur_start_h<T: Scalar>(a: Matrix<T>) -> spec_fn(int, int) -> T {
    let n = a.nrows();
    let st = hess_state(grid(a), n as int, hess_len(n), hess_steps(n));
    |i: int, j: int|
        if i <= j + 1 {
            st.0(i, j)
        } else {
            T::spec_zero()
        }
}

/// The unitary factor of the Hessenberg reduction of `a`.
pub open spec fn schur_start_q<T: Scalar>(a: Matrix<T>) -> spec_fn(int, int) -> T {
    let n = a.nrows();
    let st = hess_state(grid(a), n as int, hess_len(n), hess_steps(n));
    hess_q(st.0, st.1, n as int, hess_steps(n))
}

/// The decomposition of `a` can be computed: `a` is square and, when it is
/// larger than `2 x 2`, the iteration converges.
pub open spec fn schur_converges<T: Scalar>(a: Matrix<T>) -> bool {
    a.nrows() == a.ncols() && (a.nrows() <= 2 || schur_run(schur_start_h(a), schur_start_q(a), a.nrows() as int) is Some)
}

/// The factors `(T, Q)` computed from `a`: the Hessenberg form and its
/// factor, iterated when `a` is larger than `2 x 2`.
pub open spec fn schur_result<T: Scalar>(a: Matrix<T>) -> (spec_fn(int, int) -> T, spec_fn(int, int) -> T) {
    if a.nrows() <= 2 {
        (schur_start_h(a), schur_start_q(a))
    } else {
        schur_run(schur_start_h(a), schur_start_q(a), a.nrows() as int)->0
    }
}

/// A real Schur decomposition `A = Q T Q^T`.
pub struct RealSchur<T> {
    t: Matrix<T>,
    q: Matrix<T>,
}

impl<T: Scalar> RealSchur<T> {
    /// The quasi-triangular factor `T`.
    pub closed spec fn factor_t(&self) -> Matrix<T> {
        self.t
    }

    /// The orthogonal factor `Q`.
    pub closed spec fn factor_q(&self) -> Matrix<T> {
        self.q
    }

    /// Computes the decomposition of `matrix`. Fails when the matrix is not
    /// square or when the iteration does not converge (see `schur_run`).
    pub fn new(matrix: &Matrix<T>) -> (r: Result<Self, String>)
        requires
            matrix.wf(),
        ensures
            r is Ok <==> schur_converges(*matrix),
            r matches Ok(d) ==> {
                let n = matrix.nrows();
                &&& d.factor_t().wf()
                &&& d.factor_t().nrows() == n
                &&& d.factor_t().ncols() == n
                &&& d.factor_q().wf()
                &&& d.factor_q().nrows() == n
                &&& d.factor_q().ncols() == n
                &&& holds(d.factor_t(), schur_result(*matrix).0)
                &&& holds(d.factor_q(), schur_result(*matrix).1)
            },
            r matches Err(e) ==> e@ == if matrix.nrows() != matrix.ncols() { "Real Schur decomposition requires a square matrix"@ } else { "RealSchur failed to converge"@ },
    {
        let n = matrix.rows();
        if n != matrix.cols() {
            return Err("Real Schur decomposition requires a square matrix".to_string());
        }
        let hessenberg = match HessenbergDecomposition::new(matrix) {
            Ok(d) => d,
            Err(e) => {
                return Err(e);
            },
        };
        let mut h = hessenberg.matrix_h();
        let mut q = hessenberg.matrix_q();
        let ghost h0 = schur_start_h(*matrix);
        let ghost q0 = schur_start_q(*matrix);
        proof {
            let st = hess_state(grid(*matrix), n as int, hess_len(n as nat), hess_steps(n as nat));
            let p = grid(hessenberg.packed());
            assert forall|i: int, j: int| #[trigger] h.in_bounds(i, j) implies h.at(i, j) == h0(i, j) by {
                assert(hessenberg.packed().in_bounds(i, j));
            }
            assert forall|i: int, j: int| 0 <= i < n && 0 <= j < n implies #[trigger] p(i, j) == st.0(i, j) by {
                assert(hessenberg.packed().in_bounds(i, j));
            }
            lemma_hess_q_agree(p, st.0, st.1, n as int, hess_steps(n as nat));
            assert forall|i: int, j: int| #[trigger] q.in_bounds(i, j) implies q.at(i, j) == q0(i, j) by {
                assert(hess_q(p, st.1, n as int, hess_steps(n as nat))(i, j) == q0(i, j));
            }
        }
        if n > 2 {
            match compute_inplace(&mut h, &mut q, Ghost(h0), Ghost(q0)) {
                Ok(()) => {},
                Err(e) => {
                    return Err(e);
                },
            }
        }
        Ok(RealSchur { t: h, q })
    }

    /// The quasi-triangular factor `T`.
    pub fn matrix_t(&self) -> (r: &Matrix<T>)
        ensures
            *r == self.factor_t(),
    {
        &self.t
    }

    /// The orthogonal factor `Q`.
    pub fn matrix_q(&self) -> (r: &Matrix<T>)
        ensures
            *r == self.factor_q(),
    {
        &self.q
    }
}

} // verus!
