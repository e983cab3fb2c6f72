//! Schur decomposition `A = U T U^*` of a square complex matrix.
//!
//! The matrix is reduced to Hessenberg form, then single-shift QR steps
//! with the Wilkinson shift, chasing a bulge with `2 x 2` reflections,
//! drive the subdiagonal to zero from the bottom. The reflections are
//! accumulated into `U`.

use crate::complex::{Complex, cx};
use crate::decompositions::hessenberg::{HessenbergDecomposition, hess_len, hess_q, hess_state, hess_steps};
use crate::decompositions::lu::{grid, holds};
use crate::decompositions::schur::{lemma_hess_q_agree, schur_start_h, schur_start_q, zero_at};
use crate::matrix::Matrix;
use crate::scalar::Scalar;
use vstd::prelude::*;

verus! {

/// The `2 x 2` reflection of `(x, y)`: `(tau, v1, sigma)` with the
/// reflection vector `(1, v1)`. `sigma` has the modulus
/// `norm = sqrt(|x|^2 + |y|^2)` and the phase of `x` (or is `norm` when
/// `x` is zero); `tau = conj(x + sigma) / conj(sigma)` and
/// `v1 = y / (x + sigma)`. All three are zero when `norm` equals zero.
pub open spec fn house2<T: Scalar>(x: Complex<T>, y: Complex<T>) -> (Complex<T>, Complex<T>, Complex<T>) {
    let norm = x.modulus_sq().spec_plus(y.modulus_sq()).spec_sqrt();
    let zero = Complex::<T>::spec_zero();
    if norm.spec_eq(T::spec_zero()) {
        (zero, zero, zero)
    } else {
        let sigma = if x.re.spec_eq(T::spec_zero()) && x.im.spec_eq(T::spec_zero()) {
            cx(norm, T::spec_zero())
        } else {
            x.spec_over(cx(x.modulus_sq().spec_sqrt(), T::spec_zero())).spec_times(cx(norm, T::spec_zero()))
        };
        let v1 = x.spec_plus(sigma);
        (v1.spec_conj().spec_over(sigma.spec_conj()), y.spec_over(v1), sigma)
    }
}

/// The reflection applied from the left to rows `r1`, `r2 = r1 + 1` of the
/// columns `c0 .. c1`: with `f = tau (g(r1, j) + conj(v1) g(r2, j))`, row
/// `r1` loses `f` and row `r2` loses `f v1`.
pub open spec fn left2<T: Scalar>(
    g: spec_fn(int, int) -> Complex<T>,
    r1: int,
    c0: int,
    c1: int,
    tau: Complex<T>,
    v1: Complex<T>,
) -> spec_fn(int, int) -> Complex<T> {
    |i: int, j: int|
        if c0 <= j < c1 && (i == r1 || i == r1 + 1) {
            let f = tau.spec_times(g(r1, j).spec_plus(v1.spec_conj().spec_times(g(r1 + 1, j))));
            if i == r1 {
                g(r1, j).spec_minus(f)
            } else {
                g(r1 + 1, j).spec_minus(f.spec_times(v1))
            }
        } else {
            g(i, j)
        }
}

/// The reflection applied from the right to columns `c1`, `c2 = c1 + 1` of
/// the rows `0 .. rows`: with `f = tau (g(i, c1) + g(i, c2) v1)`, column
/// `c1` loses `f` and column `c2` loses `f conj(v1)`.
pub open spec fn right2<T: Scalar>(
    g: spec_fn(int, int) -> Complex<T>,
    rows: int,
    c1: int,
    tau: Complex<T>,
    v1: Complex<T>,
) -> spec_fn(int, int) -> Complex<T> {
    |i: int, j: int|
        if 0 <= i < rows && (j == c1 || j == c1 + 1) {
            let f = tau.spec_times(g(i, c1).spec_plus(g(i, c1 + 1).spec_times(v1)));
            if j == c1 {
                g(i, c1).spec_minus(f)
            } else {
                g(i, c1 + 1).spec_minus(f.spec_times(v1.spec_conj()))
            }
        } else {
            g(i, j)
        }
}

/// `g` with entry `(i, j)` replaced by `v`.
pub open spec fn set_at<T>(g: spec_fn(int, int) -> T, i: int, j: int, v: T) -> spec_fn(int, int) -> T {
    |r: int, c: int|
        if r == i && c == j {
            v
        } else {
            g(r, c)
        }
}

/// The bulge chase of a QR step from position `k` up to `end`.
pub open spec fn chase<T: Scalar>(
    h: spec_fn(int, int) -> Complex<T>,
    u: spec_fn(int, int) -> Complex<T>,
    k: int,
    end: int,
    n: int,
) -> (spec_fn(int, int) -> Complex<T>, spec_fn(int, int) -> Complex<T>)
    decreases end - 1 - k,
{
    if k >= end - 1 {
        (h, u)
    } else {
        let hs = house2(h(k + 1, k), h(k + 2, k));
        let h1 = left2(h, k + 1, k, n, hs.0, hs.1);
        let h2 = zero_at(set_at(h1, k + 1, k, Complex::<T>::spec_zero().spec_minus(hs.2)), k + 2, k);
        let h3 = right2(h2, n, k + 1, hs.0.spec_conj(), hs.1);
        let u1 = right2(u, n, k + 1, hs.0.spec_conj(), hs.1);
        chase(h3, u1, k + 1, end, n)
    }
}

/// A QR step with the given shift on the window `start ..= end`: the first
/// reflection of `(h(start, start) - shift, h(start + 1, start))`, then the
/// bulge chase.
pub open spec fn complex_qr_step<T: Scalar>(
    h: spec_fn(int, int) -> Complex<T>,
    u: spec_fn(int, int) -> Complex<T>,
    start: int,
    end: int,
    shift: Complex<T>,
    n: int,
) -> (spec_fn(int, int) -> Complex<T>, spec_fn(int, int) -> Complex<T>) {
    let hs = house2(h(start, start).spec_minus(shift), h(start + 1, start));
    let h1 = left2(h, start, start, n, hs.0, hs.1);
    let h2 = right2(h1, n, start, hs.0.spec_conj(), hs.1);
    let u1 = right2(u, n, start, hs.0.spec_conj(), hs.1);
    chase(h2, u1, start, end, n)
}

/// The Wilkinson shift: of the eigenvalues `(tr +- sqrt(disc)) / 2` of the
/// trailing `2 x 2` block, the one closer to its last diagonal entry (the
/// second when neither is strictly closer).
pub open spec fn wilkinson<T: Scalar>(h: spec_fn(int, int) -> Complex<T>, end: int) -> Complex<T> {
    let d1 = h(end - 1, end - 1);
    let d2 = h(end, end);
    let tr = d1.spec_plus(d2);
    let det = d1.spec_times(d2).spec_minus(h(end - 1, end).spec_times(h(end, end - 1)));
    let disc = tr.spec_times(tr).spec_minus(Complex::<T>::spec_from_usize(4).spec_times(det));
    let s = disc.spec_sqrt();
    let two = Complex::<T>::spec_from_usize(2);
    let l1 = tr.spec_plus(s).spec_over(two);
    let l2 = tr.spec_minus(s).spec_over(two);
    if l1.spec_minus(d2).modulus_sq().spec_lt(l2.spec_minus(d2).modulus_sq()) {
        l1
    } else {
        l2
    }
}

/// The subdiagonal entry `(i, i - 1)` is negligible: its squared modulus is
/// at most `eps` times the sum of the neighbouring diagonal squared moduli.
pub open spec fn negligible_c<T: Scalar>(h: spec_fn(int, int) -> Complex<T>, i: int, eps: T) -> bool {
    h(i, i - 1).modulus_sq().spec_le(eps.spec_times(h(i - 1, i - 1).modulus_sq().spec_plus(h(i, i).modulus_sq())))
}

/// Scans the subdiagonal upwards from row `i` for a negligible entry;
/// returns its row, or zero.
pub open spec fn scan_c<T: Scalar>(h: spec_fn(int, int) -> Complex<T>, i: int, eps: T) -> int
    decreases i,
{
    if i <= 0 {
        i
    } else if negligible_c(h, i, eps) {
        i
    } else {
        scan_c(h, i - 1, eps)
    }
}

/// The QR iteration from the state `(h, u, high, iter)`: `None` when some
/// window needs more than `max_iter` steps, otherwise the final `T` and
/// `U`.
pub open spec fn cschur_loop<T: Scalar>(
    h: spec_fn(int, int) -> Complex<T>,
    u: spec_fn(int, int) -> Complex<T>,
    high: int,
    iter: int,
    eps: T,
    n: int,
    max_iter: int,
) -> Option<(spec_fn(int, int) -> Complex<T>, spec_fn(int, int) -> Complex<T>)>
    decreases high, max_iter + 1 - iter,
{
    if high <= 0 {
        Some((h, u))
    } else if iter > max_iter {
        None
    } else {
        let i = scan_c(h, high, eps);
        let h1 = if i > 0 {
            zero_at(h, i, i - 1)
        } else {
            h
        };
        if i == high {
            cschur_loop(h1, u, high - 1, 0, eps, n, max_iter)
        } else {
            let st = complex_qr_step(h1, u, i, high, wilkinson(h1, high), n);
            cschur_loop(st.0, st.1, high, iter + 1, eps, n, max_iter)
        }
    }
}

/// The complete iteration on the `n x n` Hessenberg matrix `h` with the
/// accumulated factor `u`.
pub open spec fn cschur_run<T: Scalar>(h: spec_fn(int, int) -> Complex<T>, u: spec_fn(int, int) -> Complex<T>, n: int) -> Option<
    (spec_fn(int, int) -> Complex<T>, spec_fn(int, int) -> Complex<T>),
> {
    cschur_loop(h, u, n - 1, 0, T::spec_epsilon(), n, 40 * n)
}

/// The reflection of `(x, y)` (see `house2`).
fn make_house2<T: Scalar>(x: Complex<T>, y: Complex<T>) -> (r: (Complex<T>, Complex<T>, Complex<T>))
    ensures
        r == house2(x, y),
{
    let norm = x.norm_sq().plus(y.norm_sq()).sqrt();
    if norm.is_eq(T::zero()) {
        let z = Complex::<T>::zero();
        return (z, z, z);
    }
    let sigma = if x.re.is_eq(T::zero()) && x.im.is_eq(T::zero()) {
        Complex::new(norm, T::zero())
    } else {
        let abs_x = x.norm();
        x.over(Complex::new(abs_x, T::zero())).times(Complex::new(norm, T::zero()))
    };
    let v1 = x.plus(sigma);
    let tau = v1.conj().over(sigma.conj());
    (tau, y.over(v1), sigma)
}

/// Applies the reflection from the left to rows `r1, r1 + 1` of the
/// columns `c0 .. n` (see `left2`).
fn apply_left2<T: Scalar>(
    g: &mut Matrix<Complex<T>>,
    r1: usize,
    c0: usize,
    tau: Complex<T>,
    v1: Complex<T>,
    Ghost(g0): Ghost<spec_fn(int, int) -> Complex<T>>,
)
    requires
        old(g).wf(),
        r1 + 1 < old(g).nrows(),
        holds(*old(g), g0),
    ensures
        final(g).wf(),
        final(g).same_shape(old(g)),
        holds(*final(g), left2(g0, r1 as int, c0 as int, old(g).ncols() as int, tau, v1)),
{
    let n = g.cols();
    proof {
        g.lemma_dims_fit();
    }
    let ghost target = left2(g0, r1 as int, c0 as int, n as int, tau, v1);
    let mut j = c0;
    while j < n
        invariant
            c0 <= j,
            n == g.ncols(),
            r1 + 1 < g.nrows(),
            g.nrows() <= usize::MAX,
            g.wf(),
            g.same_shape(old(g)),
            target == left2(g0, r1 as int, c0 as int, n as int, tau, v1),
            forall|r: int, c: int| #[trigger]
                g.in_bounds(r, c) ==> g.at(r, c) == if c0 <= c < j {
                    target(r, c)
                } else {
                    g0(r, c)
                },
        decreases n - j,
    {
        let ghost before = *g;
        assert(g.in_bounds(r1 as int, j as int) && g.in_bounds((r1 + 1) as int, j as int));
        let a = g.entry(r1, j);
        let b = g.entry(r1 + 1, j);
        let f = tau.times(a.plus(v1.conj().times(b)));
        g.set(r1, j, a.minus(f));
        let ghost mid = *g;
        g.set(r1 + 1, j, b.minus(f.times(v1)));
        proof {
            assert forall|r: int, c: int| #[trigger] g.in_bounds(r, c) implies g.at(r, c) == if c0 <= c < j + 1 {
                target(r, c)
            } else {
                g0(r, c)
            } by {
                assert(before.in_bounds(r, c));
                assert(mid.in_bounds(r, c));
            }
        }
        j = j + 1;
    }
}

/// Applies the reflection from the right to columns `c1, c1 + 1` of the
/// rows `0 .. rows` (see `right2`).
fn apply_right2<T: Scalar>(
    g: &mut Matrix<Complex<T>>,
    rows: usize,
    c1: usize,
    tau: Complex<T>,
    v1: Complex<T>,
    Ghost(g0): Ghost<spec_fn(int, int) -> Complex<T>>,
)
    requires
        old(g).wf(),
        rows <= old(g).nrows(),
        c1 + 1 < old(g).ncols(),
        holds(*old(g), g0),
    ensures
        final(g).wf(),
        final(g).same_shape(old(g)),
        holds(*final(g), right2(g0, rows as int, c1 as int, tau, v1)),
{
    proof {
        g.lemma_dims_fit();
    }
    let ghost target = right2(g0, rows as int, c1 as int, tau, v1);
    let ghost start = *g;
    let mut i: usize = 0;
    while i < rows
        invariant
            i <= rows,
            rows <= g.nrows(),
            c1 + 1 < g.ncols(),
            g.ncols() <= usize::MAX,
            g.wf(),
            g.same_shape(old(g)),
            g.same_shape(&start),
            holds(start, g0),
            target == right2(g0, rows as int, c1 as int, tau, v1),
            forall|r: int, c: int| #[trigger]
                g.in_bounds(r, c) ==> g.at(r, c) == if r < i {
                    target(r, c)
                } else {
                    g0(r, c)
                },
        decreases rows - i,
    {
        let ghost before = *g;
        assert(g.in_bounds(i as int, c1 as int) && g.in_bounds(i as int, (c1 + 1) as int));
        let a = g.entry(i, c1);
        let b = g.entry(i, c1 + 1);
        let f = tau.times(a.plus(b.times(v1)));
        g.set(i, c1, a.minus(f));
        let ghost mid = *g;
        g.set(i, c1 + 1, b.minus(f.times(v1.conj())));
        proof {
            assert forall|r: int, c: int| #[trigger] g.in_bounds(r, c) implies g.at(r, c) == if r < i + 1 {
                target(r, c)
            } else {
                g0(r, c)
            } by {
                assert(before.in_bounds(r, c));
                assert(mid.in_bounds(r, c));
            }
        }
        i = i + 1;
    }
    proof {
        assert forall|r: int, c: int| #[trigger] g.in_bounds(r, c) implies g.at(r, c) == target(r, c) by {
            assert(start.in_bounds(r, c));
        }
    }
}

/// The Wilkinson shift of the trailing block ending at `end` (see
/// `wilkinson`).
fn wilkinson_shift<T: Scalar>(h: &Matrix<Complex<T>>, end: usize) -> (r: Complex<T>)
    requires
        h.wf(),
        1 <= end < h.nrows(),
        end < h.ncols(),
    ensures
        r == wilkinson(grid(*h), end as int),
{
    assert(h.in_bounds((end - 1) as int, (end - 1) as int) && h.in_bounds(end as int, end as int));
    assert(h.in_bounds((end - 1) as int, end as int) && h.in_bounds(end as int, (end - 1) as int));
    let d1 = h.entry(end - 1, end - 1);
    let d2 = h.entry(end, end);
    let h12 = h.entry(end - 1, end);
    let h21 = h.entry(end, end - 1);
    let tr = d1.plus(d2);
    let det = d1.times(d2).minus(h12.times(h21));
    let disc = tr.times(tr).minus(Complex::<T>::from_usize(4).times(det));
    let s = disc.sqrt();
    let two = Complex::<T>::from_usize(2);
    let l1 = tr.plus(s).over(two);
    let l2 = tr.minus(s).over(two);
    if l1.minus(d2).norm_sq().is_lt(l2.minus(d2).norm_sq()) {
        l1
    } else {
        l2
    }
}

/// A QR step on the window `start ..= end` (see `complex_qr_step`).
fn qr_step<T: Scalar>(
    h: &mut Matrix<Complex<T>>,
    u: &mut Matrix<Complex<T>>,
    start: usize,
    end: usize,
    shift: Complex<T>,
    Ghost(gh): Ghost<spec_fn(int, int) -> Complex<T>>,
    Ghost(gu): Ghost<spec_fn(int, int) -> Complex<T>>,
)
    requires
        old(h).wf(),
        old(u).wf(),
        old(h).nrows() == old(h).ncols(),
        old(u).nrows() == old(h).nrows(),
        old(u).ncols() == old(h).nrows(),
        start < end < old(h).nrows(),
        holds(*old(h), gh),
        holds(*old(u), gu),
    ensures
        final(h).wf(),
        final(u).wf(),
        final(h).same_shape(old(h)),
        final(u).same_shape(old(u)),
        ({
            let r = complex_qr_step(gh, gu, start as int, end as int, shift, old(h).nrows() as int);
            holds(*final(h), r.0) && holds(*final(u), r.1)
        }),
{
    let n = h.rows();
    let ghost target = complex_qr_step(gh, gu, start as int, end as int, shift, n as int);
    assert(h.in_bounds(start as int, start as int) && h.in_bounds((start + 1) as int, start as int));
    let x = h.entry(start, start).minus(shift);
    let y = h.entry(start + 1, start);
    let (tau, v1, _sigma) = make_house2(x, y);
    let tc = tau.conj();
    apply_left2(h, start, start, tau, v1, Ghost(gh));
    let ghost h1 = left2(gh, start as int, start as int, n as int, tau, v1);
    apply_right2(h, n, start, tc, v1, Ghost(h1));
    apply_right2(u, n, start, tc, v1, Ghost(gu));
    let ghost mut g1 = right2(h1, n as int, start as int, tc, v1);
    let ghost mut g2 = right2(gu, n as int, start as int, tc, v1);
    let mut k = start;
    while k + 1 < end
        invariant
            start <= k,
            k < end,
            end < n,
            n == h.nrows(),
            n == h.ncols(),
            n == u.nrows(),
            n == u.ncols(),
            h.wf(),
            u.wf(),
            h.same_shape(old(h)),
            u.same_shape(old(u)),
            holds(*h, g1),
            holds(*u, g2),
            chase(g1, g2, k as int, end as int, n as int) == target,
        decreases end - k,
    {
        assert(h.in_bounds((k + 1) as int, k as int) && h.in_bounds((k + 2) as int, k as int));
        let x = h.entry(k + 1, k);
        let y = h.entry(k + 2, k);
        let (tau, v1, sigma) = make_house2(x, y);
        let tc = tau.conj();
        apply_left2(h, k + 1, k, tau, v1, Ghost(g1));
        let ghost ha = left2(g1, (k + 1) as int, k as int, n as int, tau, v1);
        let ghost before = *h;
        h.set(k + 1, k, Complex::<T>::zero().minus(sigma));
        let ghost mid = *h;
        h.set(k + 2, k, Complex::<T>::zero());
        let ghost hb = zero_at(
            set_at(ha, (k + 1) as int, k as int, Complex::<T>::spec_zero().spec_minus(sigma)),
            (k + 2) as int,
            k as int,
        );
        proof {
            assert forall|r: int, c: int| #[trigger] h.in_bounds(r, c) implies h.at(r, c) == hb(r, c) by {
                assert(before.in_bounds(r, c));
                assert(mid.in_bounds(r, c));
            }
        }
        apply_right2(h, n, k + 1, tc, v1, Ghost(hb));
        apply_right2(u, n, k + 1, tc, v1, Ghost(g2));
        proof {
            g1 = right2(hb, n as int, (k + 1) as int, tc, v1);
            g2 = right2(g2, n as int, (k + 1) as int, tc, v1);
        }
        k = k + 1;
    }
}

/// The QR iteration in place on the `n x n` Hessenberg matrix `h`,
/// accumulating into `u` (see `cschur_loop`); fails when a window does not
/// converge within `40 n` steps.
fn compute_inplace<T: Scalar>(
    h: &mut Matrix<Complex<T>>,
    u: &mut Matrix<Complex<T>>,
    Ghost(gh): Ghost<spec_fn(int, int) -> Complex<T>>,
    Ghost(gu): Ghost<spec_fn(int, int) -> Complex<T>>,
) -> (r: Result<(), String>)
    requires
        old(h).wf(),
        old(u).wf(),
        old(h).nrows() == old(h).ncols(),
        old(u).nrows() == old(h).nrows(),
        old(u).ncols() == old(h).nrows(),
        old(h).nrows() > 0,
        holds(*old(h), gh),
        holds(*old(u), gu),
    ensures
        final(h).wf(),
        final(u).wf(),
        final(h).same_shape(old(h)),
        final(u).same_shape(old(u)),
        r is Ok <==> cschur_run(gh, gu, old(h).nrows() as int) is Some,
        r is Ok ==> {
            let res = cschur_run(gh, gu, old(h).nrows() as int)->0;
            holds(*final(h), res.0) && holds(*final(u), res.1)
        },
        r matches Err(e) ==> e@ == "ComplexSchur failed to converge"@,
{
    let n = h.rows();
    let nn = h.size();
    assert(40 * n <= usize::MAX) by (nonlinear_arith)
        requires
            nn == n * n,
            nn <= usize::MAX,
            n > 0,
            usize::MAX >= 4294967295,
    ;
    let max_iter = 40 * n;
    let eps = Complex::<T>::epsilon().re;
    let ghost target = cschur_run(gh, gu, n as int);
    let ghost mut g1 = gh;
    let ghost mut g2 = gu;
    let mut iter: usize = 0;
    let mut high: usize = n - 1;
    while high > 0
        invariant
            n == h.nrows(),
            n == h.ncols(),
            n == u.nrows(),
            n == u.ncols(),
            h.wf(),
            u.wf(),
            h.same_shape(old(h)),
            u.same_shape(old(u)),
            high < n,
            iter <= max_iter + 1,
            max_iter == 40 * n,
            eps == T::spec_epsilon(),
            holds(*h, g1),
            holds(*u, g2),
            target == cschur_run(gh, gu, n as int),
            cschur_loop(g1, g2, high as int, iter as int, eps, n as int, max_iter as int) == target,
        decreases high, max_iter + 1 - iter,
    {
        if iter > max_iter {
            return Err("ComplexSchur failed to converge".to_string());
        }
        let ghost og1 = g1;
        let ghost og2 = g2;
        let ghost ohigh = high;
        let ghost oiter = iter;
        let ghost d = scan_c(g1, high as int, eps);
        let mut i = high;
        let mut found = false;
        while i > 0 && !found
            invariant
                i <= high < n,
                n == h.nrows(),
                n == h.ncols(),
                h.wf(),
                holds(*h, g1),
                d == scan_c(g1, high as int, eps),
                !found ==> scan_c(g1, i as int, eps) == d,
                found ==> i == d && i > 0,
            decreases i, (if found { 0int } else { 1int }),
        {
            assert(h.in_bounds(i as int, (i - 1) as int) && h.in_bounds((i - 1) as int, (i - 1) as int));
            assert(h.in_bounds(i as int, i as int));
            let a = h.entry(i, i - 1).norm_sq();
            let b = h.entry(i - 1, i - 1).norm_sq();
            let c = h.entry(i, i).norm_sq();
            if a.is_le(eps.times(b.plus(c))) {
                found = true;
            } else {
                i = i - 1;
            }
        }
        if found {
            let ghost before = *h;
            h.set(i, i - 1, Complex::<T>::zero());
            proof {
                assert forall|r: int, c: int| #[trigger] h.in_bounds(r, c) implies h.at(r, c) == zero_at(
                    g1,
                    i as int,
                    (i - 1) as int,
                )(r, c) by {
                    assert(before.in_bounds(r, c));
                }
                g1 = zero_at(g1, i as int, (i - 1) as int);
            }
        }
        if i == high {
            high = high - 1;
            iter = 0;
        } else {
            let shift = wilkinson_shift(h, high);
            proof {
                assert(h.in_bounds((high - 1) as int, (high - 1) as int) && h.in_bounds(high as int, high as int));
                assert(h.in_bounds((high - 1) as int, high as int) && h.in_bounds(high as int, (high - 1) as int));
                assert(shift == wilkinson(g1, high as int));
            }
            qr_step(h, u, i, high, shift, Ghost(g1), Ghost(g2));
            proof {
                let st = complex_qr_step(g1, g2, i as int, high as int, shift, n as int);
                g1 = st.0;
                g2 = st.1;
            }
            iter = iter + 1;
        }
        proof {
            assert(cschur_loop(og1, og2, ohigh as int, oiter as int, eps, n as int, max_iter as int) == cschur_loop(
                g1,
                g2,
                high as int,
                iter as int,
                eps,
                n as int,
                max_iter as int,
            ));
        }
    }
    Ok(())
}

/// The decomposition of the complex matrix `a` can be computed: `a` is
/// square and, when it is larger than `1 x 1`, the iteration converges.
pub open spec fn cschur_converges<T: Scalar>(a: Matrix<Complex<T>>) -> bool {
    a.nrows() == a.ncols() && (a.nrows() <= 1 || cschur_run(schur_start_h(a), schur_start_q(a), a.nrows() as int) is Some)
}

/// The factors `(T, U)` computed from `a`: the Hessenberg form and its
/// factor, iterated when `a` is larger than `1 x 1`.
pub open spec fn cschur_result<T: Scalar>(a: Matrix<Complex<T>>) -> (
    spec_fn(int, int) -> Complex<T>,
    spec_fn(int, int) -> Complex<T>,
) {
    if a.nrows() <= 1 {
        (schur_start_h(a), schur_start_q(a))
    } else {
        cschur_run(schur_start_h(a), schur_start_q(a), a.nrows() as int)->0
    }
}

/// A complex Schur decomposition `A = U T U^*`.
pub struct ComplexSchur<T: Scalar> {
    t: Matrix<Complex<T>>,
    u: Matrix<Complex<T>>,
}

impl<T: Scalar> ComplexSchur<T> {
    /// The triangular factor `T`.
    pub closed spec fn factor_t(&self) -> Matrix<Complex<T>> {
        self.t
    }

    /// The unitary factor `U`.
    pub closed spec fn factor_u(&self) -> Matrix<Complex<T>> {
        self.u
    }

    /// Computes the decomposition of `matrix`. Fails when the matrix is not
    /// square or when the iteration does not converge (see `cschur_run`).
    pub fn new(matrix: &Matrix<Complex<T>>) -> (r: Result<Self, String>)
        requires
            matrix.wf(),
        ensures
            r is Ok <==> cschur_converges(*matrix),
            r matches Ok(d) ==> {
                let n = matrix.nrows();
                &&& d.factor_t().wf()
                &&& d.factor_t().nrows() == n
                &&& d.factor_t().ncols() == n
                &&& d.factor_u().wf()
                &&& d.factor_u().nrows() == n
                &&& d.factor_u().ncols() == n
                &&& holds(d.factor_t(), cschur_result(*matrix).0)
                &&& holds(d.factor_u(), cschur_result(*matrix).1)
            },
            r matches Err(e) ==> e@ == if matrix.nrows() != matrix.ncols() { "Complex Schur decomposition requires a square matrix"@ } else { "ComplexSchur failed to converge"@ },
    {
        let n = matrix.rows();
        if n != matrix.cols() {
            return Err("Complex Schur decomposition requires a square matrix".to_string());
        }
        let hessenberg = match HessenbergDecomposition::new(matrix) {
            Ok(d) => d,
            Err(e) => {
                return Err(e);
            },
        };
        let mut h = hessenberg.matrix_h();
        let mut u = hessenberg.matrix_q();
        let ghost h0 = schur_start_h(*matrix);
        let ghost u0 = schur_start_q(*matrix);
        proof {
            let st = hess_state(grid(*matrix), n as int, hess_len(n as nat), hess_steps(n as nat));
            let p = grid(hessenberg.packed());
            assert forall|i: int, j: int| #[trigger] h.in_bounds(i, j) implies h.at(i, j) == h0(i, j) by {
                assert(hessenberg.packed().in_bounds(i, j));
            }
            assert forall|i: int, j: int| 0 <= i < n && 0 <= j < n implies #[trigger] p(i, j) == st.0(i, j) by {
                assert(hessenberg.packed().in_bounds(i, j));
            }
            lemma_hess_q_agree(p, st.0, st.1, n as int, hess_steps(n as nat));
            assert forall|i: int, j: int| #[trigger] u.in_bounds(i, j) implies u.at(i, j) == u0(i, j) by {
                assert(hess_q(p, st.1, n as int, hess_steps(n as nat))(i, j) == u0(i, j));
            }
        }
        if n > 1 {
            match compute_inplace(&mut h, &mut u, Ghost(h0), Ghost(u0)) {
                Ok(()) => {},
                Err(e) => {
                    return Err(e);
                },
            }
        }
        Ok(ComplexSchur { t: h, u })
    }

    /// The triangular factor `T`.
    pub fn matrix_t(&self) -> (r: &Matrix<Complex<T>>)
        ensures
            *r == self.factor_t(),
    {
        &self.t
    }

    /// The unitary factor `U`.
    pub fn matrix_u(&self) -> (r: &Matrix<Complex<T>>)
        ensures
            *r == self.factor_u(),
    {
        &self.u
    }
}

} // verus!
