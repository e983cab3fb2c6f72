//! The generalized eigenproblem `A x = lambda B x` for square complex
//! matrices, by the QZ algorithm.
//!
//! The pair is reduced to Hessenberg-triangular form; single-shift QZ steps
//! (the shift is the eigenvalue of the trailing `2 x 2` block of `H R^{-1}`
//! nearer its last diagonal entry) then drive the subdiagonal of `H` to
//! zero from the bottom. The eigenvalues are the ratios of the diagonals;
//! the eigenvectors come from a back substitution with `H - lambda R`,
//! mapped back by `Z`.

use crate::complex::{cx, Complex};
use crate::decompositions::complex_schur::set_at;
use crate::decompositions::generalized_hessenberg::{
    apply_givens_left,
    apply_givens_right,
    ght,
    givens,
    holds4,
    givens_rotation,
    put,
    rot_left,
    rot_right,
    GeneralizedHessenbergTriangular,
    Quad,
};
use crate::decompositions::generalized_selfadjoint::same_square;
use crate::decompositions::lu::{grid, holds};
use crate::matrix::Matrix;
use crate::scalar::Scalar;
use vstd::prelude::*;

verus! {

/// The shift of a QZ step on the block ending at `end`: the eigenvalue of
/// `M = H22 R22^{-1}` (the trailing `2 x 2` blocks, with the inverse of the
/// triangular `R22` written out) nearer to `M(1, 1)`, by the quadratic
/// formula.
pub open spec fn qz_shift<T: Scalar>(h: spec_fn(int, int) -> Complex<T>, r: spec_fn(int, int) -> Complex<T>, end: int) -> Complex<T> {
    let ha = h(end - 1, end - 1);
    let hb = h(end - 1, end);
    let hc = h(end, end - 1);
    let hd = h(end, end);
    let ra = r(end - 1, end - 1);
    let rb = r(end - 1, end);
    let rd = r(end, end);
    let det_r = ra.spec_times(rd);
    let m_a = ha.spec_times(rd).spec_over(det_r);
    let m_b = ha.spec_negate().spec_times(rb).spec_plus(hb.spec_times(ra)).spec_over(det_r);
    let m_c = hc.spec_times(rd).spec_over(det_r);
    let m_d = hc.spec_negate().spec_times(rb).spec_plus(hd.spec_times(ra)).spec_over(det_r);
    let tr = m_a.spec_plus(m_d);
    let det = m_a.spec_times(m_d).spec_minus(m_b.spec_times(m_c));
    let disc = tr.spec_times(tr).spec_minus(Complex::<T>::spec_from_usize(4).spec_times(det));
    let sq = disc.spec_sqrt();
    let two = Complex::<T>::spec_from_usize(2);
    let l1 = tr.spec_plus(sq).spec_over(two);
    let l2 = tr.spec_minus(sq).spec_over(two);
    if l1.spec_minus(m_d).modulus_sq().spec_lt(l2.spec_minus(m_d).modulus_sq()) {
        l1
    } else {
        l2
    }
}

/// Step `k` of the chase (order `n`): a column rotation of columns
/// `k, k + 1` removing `R(k + 1, k)` (on `H`, on `R` rows up to `k + 1`,
/// and on `Z`) unless it equals zero; then, when `k + 2 <= end`, a row
/// rotation of rows `k + 1, k + 2` removing `H(k + 2, k)` (on `H` from
/// column `k`, on `R` from column `k + 1`, and on `Q`) unless it equals
/// zero.
pub open spec fn chase_step<T: Scalar>(st: Quad<T>, n: int, end: int, k: int) -> Quad<T> {
    let zero = Complex::<T>::spec_zero();
    let rk = st.1(k + 1, k);
    let sa: Quad<T> = if rk.spec_eq(zero) {
        st
    } else {
        let g = givens(st.1(k + 1, k + 1), rk.spec_negate());
        (
            rot_right(st.0, 0, n, k, k + 1, g.0, g.1),
            set_at(rot_right(st.1, 0, k + 2, k, k + 1, g.0, g.1), k + 1, k, zero),
            st.2,
            rot_right(st.3, 0, n, k, k + 1, g.0, g.1),
        )
    };
    if k + 2 <= end {
        let hk = sa.0(k + 2, k);
        if hk.spec_eq(zero) {
            sa
        } else {
            let g = givens(sa.0(k + 1, k), hk);
            (
                set_at(rot_left(sa.0, k + 1, k + 2, k, n, g.0, g.1), k + 2, k, zero),
                rot_left(sa.1, k + 1, k + 2, k + 1, n, g.0, g.1),
                rot_left(sa.2, k + 1, k + 2, 0, n, g.0, g.1),
                sa.3,
            )
        }
    } else {
        sa
    }
}

/// The first `t` chase steps from `start`.
pub open spec fn chase<T: Scalar>(st: Quad<T>, n: int, start: int, end: int, t: nat) -> Quad<T>
    decreases t,
{
    if t == 0 {
        st
    } else {
        chase_step(chase(st, n, start, end, (t - 1) as nat), n, end, start + t - 1)
    }
}

/// A QZ step on the block `start ..= end`: the rotation of rows `start`,
/// `start + 1` that seeds the bulge from `(H - shift R) e_start`, then the
/// chase.
pub open spec fn qz_step<T: Scalar>(st: Quad<T>, n: int, start: int, end: int) -> Quad<T> {
    let shift = qz_shift(st.0, st.1, end);
    let u1 = st.0(start, start).spec_minus(shift.spec_times(st.1(start, start)));
    let u2 = st.0(start + 1, start);
    let g = givens(u1, u2);
    let s1: Quad<T> = (
        rot_left(st.0, start, start + 1, start, n, g.0, g.1),
        rot_left(st.1, start, start + 1, start, n, g.0, g.1),
        rot_left(st.2, start, start + 1, 0, n, g.0, g.1),
        st.3,
    );
    chase(s1, n, start, end, (end - start) as nat)
}

/// `|H(l, l - 1)| <= eps (|H(l - 1, l - 1)| + |H(l, l)|)`.
pub open spec fn qz_negligible<T: Scalar>(h: spec_fn(int, int) -> Complex<T>, l: int) -> bool {
    h(l, l - 1).modulus_sq().spec_sqrt().spec_le(
        T::spec_epsilon().spec_times(
            h(l - 1, l - 1).modulus_sq().spec_sqrt().spec_plus(h(l, l).modulus_sq().spec_sqrt()),
        ),
    )
}

/// The first `l` from `low` downwards with a negligible `H(l, l - 1)`, or
/// zero.
pub open spec fn qz_scan<T: Scalar>(h: spec_fn(int, int) -> Complex<T>, low: int) -> int
    decreases low,
{
    if low <= 0 {
        0
    } else if qz_negligible(h, low) {
        low
    } else {
        qz_scan(h, low - 1)
    }
}

/// The QZ iteration from the active end `high` with `iter` steps spent on
/// it: the final state, and whether it converged (no more than `max_iter`
/// steps at each end).
pub open spec fn qz_loop<T: Scalar>(st: Quad<T>, n: int, high: int, iter: int, max_iter: int) -> (Quad<T>, bool)
    decreases high, max_iter + 1 - iter,
{
    if high <= 0 {
        (st, true)
    } else if iter > max_iter {
        (st, false)
    } else {
        let low = qz_scan(st.0, high);
        let h1 = if low > 0 {
            set_at(st.0, low, low - 1, Complex::<T>::spec_zero())
        } else {
            st.0
        };
        let s1: Quad<T> = (h1, st.1, st.2, st.3);
        if low == high {
            qz_loop(s1, n, high - 1, 0, max_iter)
        } else {
            qz_loop(qz_step(s1, n, low, high), n, high, iter + 1, max_iter)
        }
    }
}

/// The QZ iteration on the reduction of `a`, `b` (order `n >= 1`).
pub open spec fn qz_result<T: Scalar>(a: spec_fn(int, int) -> Complex<T>, b: spec_fn(int, int) -> Complex<T>, n: nat) -> (Quad<T>, bool) {
    qz_loop(ght(a, b, n), n as int, n - 1, 0, (30 * n) as int)
}

/// Eigenvalue `i`: `H(i, i) / R(i, i)`, or the image of `1e100` when
/// `|R(i, i)|^2` is below epsilon.
pub open spec fn gen_value<T: Scalar>(h: spec_fn(int, int) -> Complex<T>, r: spec_fn(int, int) -> Complex<T>, i: int) -> Complex<T> {
    let t = r(i, i);
    if t.modulus_sq().spec_lt(T::spec_epsilon()) {
        cx(T::spec_huge(), T::spec_zero())
    } else {
        h(i, i).spec_over(t)
    }
}

/// `sum_{j = i+1}^{m-1} (H(i, j) - lambda R(i, j)) y[j]` accumulated from
/// zero.
pub open spec fn gsum<T: Scalar>(
    h: spec_fn(int, int) -> Complex<T>,
    r: spec_fn(int, int) -> Complex<T>,
    lambda: Complex<T>,
    y: Seq<Complex<T>>,
    i: int,
    m: int,
) -> Complex<T>
    decreases m - i,
{
    if m <= i + 1 {
        Complex::<T>::spec_zero()
    } else {
        gsum(h, r, lambda, y, i, m - 1).spec_plus(
            h(i, m - 1).spec_minus(lambda.spec_times(r(i, m - 1))).spec_times(y[m - 1]),
        )
    }
}

/// The back substitution for eigenvector `k` after `t` rows (from row
/// `k - 1` upwards): `y` starts as `e_k` (length `n`); row `i` gets
/// `-gsum / d` with `d = H(i, i) - lambda R(i, i)`, or `-gsum / eps` when
/// `|d|^2` does not exceed `eps^2`.
pub open spec fn gen_y<T: Scalar>(
    h: spec_fn(int, int) -> Complex<T>,
    r: spec_fn(int, int) -> Complex<T>,
    lambda: Complex<T>,
    n: nat,
    k: int,
    t: nat,
) -> Seq<Complex<T>>
    decreases t,
{
    if t == 0 {
        Seq::new(
            n,
            |j: int|
                if j == k {
                    Complex::<T>::spec_from_usize(1)
                } else {
                    Complex::<T>::spec_zero()
                },
        )
    } else {
        let prev = gen_y(h, r, lambda, n, k, (t - 1) as nat);
        let i = k - t;
        let sum = gsum(h, r, lambda, prev, i, k + 1);
        let d = h(i, i).spec_minus(lambda.spec_times(r(i, i)));
        let eps = T::spec_epsilon();
        let yi = if eps.spec_times(eps).spec_lt(d.modulus_sq()) {
            sum.spec_negate().spec_over(d)
        } else {
            sum.spec_negate().spec_over(cx(eps, T::spec_zero()))
        };
        prev.update(i, yi)
    }
}

/// `z(i, 0) y[0] + ... + z(i, m - 1) y[m - 1]` accumulated from zero.
pub open spec fn zsum<T: Scalar>(z: spec_fn(int, int) -> Complex<T>, y: Seq<Complex<T>>, i: int, m: int) -> Complex<T>
    decreases m,
{
    if m <= 0 {
        Complex::<T>::spec_zero()
    } else {
        zsum(z, y, i, m - 1).spec_plus(z(i, m - 1).spec_times(y[m - 1]))
    }
}

/// Entry `(i, k)` of the eigenvector matrix: `Z y` for the back
/// substitution `y` of eigenvalue `k`.
pub open spec fn gen_vector<T: Scalar>(st: Quad<T>, n: nat, i: int, k: int) -> Complex<T> {
    let y = gen_y(st.0, st.1, gen_value(st.0, st.1, k), n, k, k as nat);
    zsum(st.3, y, i, k + 1)
}

/// `qz_shift` in executable form.
fn shift_of<T: Scalar>(h: &Matrix<Complex<T>>, r: &Matrix<Complex<T>>, end: usize) -> (s: Complex<T>)
    requires
        h.wf(),
        r.wf(),
        1 <= end < h.nrows(),
        end < h.ncols(),
        end < r.nrows(),
        end < r.ncols(),
    ensures
        s == qz_shift(grid(*h), grid(*r), end as int),
{
    assert(h.in_bounds((end - 1) as int, (end - 1) as int) && h.in_bounds((end - 1) as int, end as int));
    assert(h.in_bounds(end as int, (end - 1) as int) && h.in_bounds(end as int, end as int));
    assert(r.in_bounds((end - 1) as int, (end - 1) as int) && r.in_bounds((end - 1) as int, end as int));
    assert(r.in_bounds(end as int, end as int));
    let ha = h.entry(end - 1, end - 1);
    let hb = h.entry(end - 1, end);
    let hc = h.entry(end, end - 1);
    let hd = h.entry(end, end);
    let ra = r.entry(end - 1, end - 1);
    let rb = r.entry(end - 1, end);
    let rd = r.entry(end, end);
    let det_r = ra.times(rd);
    let m_a = ha.times(rd).over(det_r);
    let m_b = ha.negate().times(rb).plus(hb.times(ra)).over(det_r);
    let m_c = hc.times(rd).over(det_r);
    let m_d = hc.negate().times(rb).plus(hd.times(ra)).over(det_r);
    let tr = m_a.plus(m_d);
    let det = m_a.times(m_d).minus(m_b.times(m_c));
    let disc = tr.times(tr).minus(Complex::<T>::from_usize(4).times(det));
    let sq = disc.sqrt();
    let two = Complex::<T>::from_usize(2);
    let l1 = tr.plus(sq).over(two);
    let l2 = tr.minus(sq).over(two);
    if l1.minus(m_d).norm_sq().is_lt(l2.minus(m_d).norm_sq()) {
        l1
    } else {
        l2
    }
}

/// A QZ step on the block `start ..= end` in place (see `qz_step`).
fn qz_step_inplace<T: Scalar>(
    h: &mut Matrix<Complex<T>>,
    r: &mut Matrix<Complex<T>>,
    q: &mut Matrix<Complex<T>>,
    z: &mut Matrix<Complex<T>>,
    start: usize,
    end: usize,
    Ghost(st): Ghost<Quad<T>>,
)
    requires
        holds4(*old(h), *old(r), *old(q), *old(z), old(h).nrows(), st),
        start < end < old(h).nrows(),
    ensures
        holds4(*final(h), *final(r), *final(q), *final(z), old(h).nrows(), qz_step(st, old(h).nrows() as int, start as int, end as int)),
{
    let n = h.rows();
    assert(grid(*h) =~= grid(*h));
    let shift = shift_of(h, r, end);
    proof {
        assert forall|a: int, b: int| 0 <= a < n && 0 <= b < n implies #[trigger] grid(*h)(a, b) == st.0(a, b) by {
            assert(h.in_bounds(a, b));
        }
        assert forall|a: int, b: int| 0 <= a < n && 0 <= b < n implies #[trigger] grid(*r)(a, b) == st.1(a, b) by {
            assert(r.in_bounds(a, b));
        }
        assert(qz_shift(grid(*h), grid(*r), end as int) == qz_shift(st.0, st.1, end as int));
    }
    assert(h.in_bounds(start as int, start as int) && h.in_bounds((start + 1) as int, start as int));
    assert(r.in_bounds(start as int, start as int));
    let u1 = h.entry(start, start).minus(shift.times(r.entry(start, start)));
    let u2 = h.entry(start + 1, start);
    let g = givens_rotation(u1, u2);
    apply_givens_left(h, start, start + 1, start, n, g.0, g.1, Ghost(st.0));
    apply_givens_left(r, start, start + 1, start, n, g.0, g.1, Ghost(st.1));
    apply_givens_left(q, start, start + 1, 0, n, g.0, g.1, Ghost(st.2));
    let ghost s1: Quad<T> = (
        rot_left(st.0, start as int, (start + 1) as int, start as int, n as int, g.0, g.1),
        rot_left(st.1, start as int, (start + 1) as int, start as int, n as int, g.0, g.1),
        rot_left(st.2, start as int, (start + 1) as int, 0, n as int, g.0, g.1),
        st.3,
    );
    let mut k = start;
    while k < end
        invariant
            start <= k <= end,
            end < n,
            n == h.nrows(),
            holds4(*h, *r, *q, *z, n as nat, chase(s1, n as int, start as int, end as int, (k - start) as nat)),
        decreases end - k,
    {
        let ghost cur = chase(s1, n as int, start as int, end as int, (k - start) as nat);
        let zero = Complex::<T>::zero();
        assert(r.in_bounds((k + 1) as int, k as int) && r.in_bounds((k + 1) as int, (k + 1) as int));
        let rk = r.entry(k + 1, k);
        let ghost sa: Quad<T> = if rk.spec_eq(zero) {
            cur
        } else {
            let gg = givens(cur.1((k + 1) as int, (k + 1) as int), rk.spec_negate());
            (
                rot_right(cur.0, 0, n as int, k as int, (k + 1) as int, gg.0, gg.1),
                set_at(rot_right(cur.1, 0, (k + 2) as int, k as int, (k + 1) as int, gg.0, gg.1), (k + 1) as int, k as int, zero),
                cur.2,
                rot_right(cur.3, 0, n as int, k as int, (k + 1) as int, gg.0, gg.1),
            )
        };
        if !rk.is_eq(zero) {
            let gz = givens_rotation(r.entry(k + 1, k + 1), rk.negate());
            apply_givens_right(h, 0, n, k, k + 1, gz.0, gz.1, Ghost(cur.0));
            let ghost rr = rot_right(cur.1, 0, (k + 2) as int, k as int, (k + 1) as int, gz.0, gz.1);
            apply_givens_right(r, 0, k + 2, k, k + 1, gz.0, gz.1, Ghost(cur.1));
            put(r, k + 1, k, zero, Ghost(rr));
            apply_givens_right(z, 0, n, k, k + 1, gz.0, gz.1, Ghost(cur.3));
        }
        if k + 2 <= end {
            assert(h.in_bounds((k + 2) as int, k as int) && h.in_bounds((k + 1) as int, k as int));
            let hk = h.entry(k + 2, k);
            if !hk.is_eq(zero) {
                let gq = givens_rotation(h.entry(k + 1, k), hk);
                let ghost hl = rot_left(sa.0, (k + 1) as int, (k + 2) as int, k as int, n as int, gq.0, gq.1);
                apply_givens_left(h, k + 1, k + 2, k, n, gq.0, gq.1, Ghost(sa.0));
                put(h, k + 2, k, zero, Ghost(hl));
                apply_givens_left(r, k + 1, k + 2, k + 1, n, gq.0, gq.1, Ghost(sa.1));
                apply_givens_left(q, k + 1, k + 2, 0, n, gq.0, gq.1, Ghost(sa.2));
            }
        }
        k = k + 1;
    }
}

/// The first `l` from `high` downwards with a negligible `H(l, l - 1)`, or
/// zero (see `qz_scan`).
fn deflation_point<T: Scalar>(h: &Matrix<Complex<T>>, high: usize, Ghost(g): Ghost<spec_fn(int, int) -> Complex<T>>) -> (low: usize)
    requires
        h.wf(),
        high < h.nrows(),
        h.nrows() == h.ncols(),
        holds(*h, g),
    ensures
        low == qz_scan(g, high as int),
{
    let eps = T::epsilon();
    let mut low = high;
    while low > 0
        invariant
            low <= high < h.nrows(),
            h.nrows() == h.ncols(),
            h.wf(),
            holds(*h, g),
            eps == T::spec_epsilon(),
            qz_scan(g, low as int) == qz_scan(g, high as int),
        decreases low,
    {
        assert(h.in_bounds(low as int, (low - 1) as int) && h.in_bounds((low - 1) as int, (low - 1) as int));
        assert(h.in_bounds(low as int, low as int));
        let sub = h.entry(low, low - 1).norm();
        let bound = eps.times(h.entry(low - 1, low - 1).norm().plus(h.entry(low, low).norm()));
        if sub.is_le(bound) {
            return low;
        }
        low = low - 1;
    }
    low
}

/// The QZ iteration in place (see `qz_loop`); fails when some end takes more
/// than `30 n` steps.
fn compute_qz_inplace<T: Scalar>(
    h: &mut Matrix<Complex<T>>,
    r: &mut Matrix<Complex<T>>,
    q: &mut Matrix<Complex<T>>,
    z: &mut Matrix<Complex<T>>,
    Ghost(st): Ghost<Quad<T>>,
) -> (res: Result<(), String>)
    requires
        holds4(*old(h), *old(r), *old(q), *old(z), old(h).nrows(), st),
        old(h).nrows() >= 1,
    ensures
        ({
            let n = old(h).nrows();
            let out = qz_loop(st, n as int, n - 1, 0, (30 * n) as int);
            &&& res is Ok <==> out.1
            &&& res is Ok ==> holds4(*final(h), *final(r), *final(q), *final(z), n, out.0)
        }),
        res matches Err(e) ==> e@ == "QZ algorithm failed to converge"@,
{
    let n = h.rows();
    let size = h.size();
    proof {
        assert(30 * n <= usize::MAX) by (nonlinear_arith)
            requires
                size == n * n,
                size <= usize::MAX,
                n >= 1,
        {
            if n < 30 {
                assert(30 * n < 900);
            } else {
                assert(30 * n <= n * n);
            }
        }
    }
    let mut high = n - 1;
    let max_iter = 30 * n;
    let mut iter: usize = 0;
    let ghost target = qz_loop(st, n as int, n - 1, 0, (30 * n) as int);
    let ghost mut cur = st;
    while high > 0
        invariant
            high < n,
            n == h.nrows(),
            n == old(h).nrows(),
            target == qz_loop(st, n as int, n - 1, 0, (30 * n) as int),
            max_iter == 30 * n,
            iter <= max_iter + 1,
            holds4(*h, *r, *q, *z, n as nat, cur),
            qz_loop(cur, n as int, high as int, iter as int, max_iter as int) == target,
        decreases high, max_iter + 1 - iter,
    {
        if iter > max_iter {
            assert(!qz_loop(cur, n as int, high as int, iter as int, max_iter as int).1);
            return Err("QZ algorithm failed to converge".to_string());
        }
        let low = deflation_point(h, high, Ghost(cur.0));
        proof {
            lemma_qz_scan_range(cur.0, high as int);
        }
        if low > 0 {
            put(h, low, low - 1, Complex::zero(), Ghost(cur.0));
        }
        let ghost h1 = if low > 0 {
            set_at(cur.0, low as int, (low - 1) as int, Complex::<T>::spec_zero())
        } else {
            cur.0
        };
        proof {
            cur = (h1, cur.1, cur.2, cur.3);
        }
        if low == high {
            high = high - 1;
            iter = 0;
        } else {
            qz_step_inplace(h, r, q, z, low, high, Ghost(cur));
            proof {
                cur = qz_step(cur, n as int, low as int, high as int);
            }
            iter = iter + 1;
        }
    }
    Ok(())
}

/// The scan stays in `0 ..= low`.
pub proof fn lemma_qz_scan_range<T: Scalar>(h: spec_fn(int, int) -> Complex<T>, low: int)
    ensures
        0 <= qz_scan(h, low),
        low >= 0 ==> qz_scan(h, low) <= low,
    decreases low,
{
    if low > 0 && !qz_negligible(h, low) {
        lemma_qz_scan_range(h, low - 1);
    }
}

/// Eigenvector `k` in place as column `k` of `vecs` (see `gen_vector`).
fn eigenvector_into<T: Scalar>(
    vecs: &mut Matrix<Complex<T>>,
    h: &Matrix<Complex<T>>,
    r: &Matrix<Complex<T>>,
    z: &Matrix<Complex<T>>,
    lambda: Complex<T>,
    k: usize,
    Ghost(st): Ghost<Quad<T>>,
)
    requires
        old(vecs).wf(),
        k < old(vecs).ncols(),
        old(vecs).nrows() == h.nrows(),
        holds4(*h, *r, *z, *z, h.nrows(), (st.0, st.1, st.3, st.3)),
        k < h.nrows(),
        lambda == gen_value(st.0, st.1, k as int),
    ensures
        final(vecs).wf(),
        final(vecs).same_shape(old(vecs)),
        forall|i: int, c: int| #[trigger]
            final(vecs).in_bounds(i, c) ==> final(vecs).at(i, c) == if c == k {
                gen_vector(st, h.nrows(), i, c)
            } else {
                old(vecs).at(i, c)
            },
{
    let n = h.rows();
    let eps = T::epsilon();
    let mut y: Vec<Complex<T>> = Vec::new();
    let mut p: usize = 0;
    while p < n
        invariant
            p <= n,
            y@.len() == p,
            forall|j: int| 0 <= j < p ==> #[trigger] y@[j] == Complex::<T>::spec_zero(),
        decreases n - p,
    {
        y.push(Complex::zero());
        p = p + 1;
    }
    y.set(k, Complex::from_usize(1));
    assert(y@ =~= gen_y(st.0, st.1, lambda, n as nat, k as int, 0));
    let mut t: usize = 0;
    while t < k
        invariant
            t <= k < n,
            n == h.nrows(),
            holds4(*h, *r, *z, *z, n as nat, (st.0, st.1, st.3, st.3)),
            eps == T::spec_epsilon(),
            y@.len() == n,
            y@ == gen_y(st.0, st.1, lambda, n as nat, k as int, t as nat),
        decreases k - t,
    {
        let i = k - 1 - t;
        let ghost prev = y@;
        let mut sum = Complex::zero();
        let mut j = i + 1;
        while j <= k
            invariant
                i < j <= k + 1,
                k < n,
                n == h.nrows(),
                holds4(*h, *r, *z, *z, n as nat, (st.0, st.1, st.3, st.3)),
                y@ == prev,
                prev.len() == n,
                sum == gsum(st.0, st.1, lambda, prev, i as int, j as int),
            decreases k + 1 - j,
        {
            assert(h.in_bounds(i as int, j as int) && r.in_bounds(i as int, j as int));
            sum = sum.plus(h.entry(i, j).minus(lambda.times(r.entry(i, j))).times(y[j]));
            j = j + 1;
        }
        assert(h.in_bounds(i as int, i as int) && r.in_bounds(i as int, i as int));
        let diag = h.entry(i, i).minus(lambda.times(r.entry(i, i)));
        if eps.times(eps).is_lt(diag.norm_sq()) {
            y.set(i, sum.negate().over(diag));
        } else {
            y.set(i, sum.negate().over(Complex::new(eps, T::zero())));
        }
        t = t + 1;
    }
    let ghost yk = y@;
    let ghost v0 = *vecs;
    let mut i: usize = 0;
    while i < n
        invariant
            i <= n,
            k < n,
            n == h.nrows(),
            holds4(*h, *r, *z, *z, n as nat, (st.0, st.1, st.3, st.3)),
            y@ == yk,
            lambda == gen_value(st.0, st.1, k as int),
            yk == gen_y(st.0, st.1, lambda, n as nat, k as int, k as nat),
            yk.len() == n,
            vecs.wf(),
            vecs.same_shape(&v0),
            k < vecs.ncols(),
            vecs.nrows() == n,
            forall|a: int, c: int| #[trigger]
                vecs.in_bounds(a, c) ==> vecs.at(a, c) == if c == k && a < i {
                    gen_vector(st, n as nat, a, c)
                } else {
                    v0.at(a, c)
                },
        decreases n - i,
    {
        let mut val = Complex::zero();
        let mut j: usize = 0;
        while j <= k
            invariant
                j <= k + 1,
                i < n,
                k < n,
                n == h.nrows(),
                holds4(*h, *r, *z, *z, n as nat, (st.0, st.1, st.3, st.3)),
                y@ == yk,
                yk.len() == n,
                val == zsum(st.3, yk, i as int, j as int),
            decreases k + 1 - j,
        {
            assert(z.in_bounds(i as int, j as int));
            val = val.plus(z.entry(i, j).times(y[j]));
            j = j + 1;
        }
        let ghost before = *vecs;
        vecs.set(i, k, val);
        proof {
            assert forall|a: int, c: int| #[trigger] vecs.in_bounds(a, c) implies vecs.at(a, c) == if c == k && a < i
                + 1 {
                gen_vector(st, n as nat, a, c)
            } else {
                v0.at(a, c)
            } by {
                assert(before.in_bounds(a, c));
            }
        }
        i = i + 1;
    }
}

/// Generalized eigensolver for square complex matrices.
pub struct GeneralizedEigenSolver<T: Scalar> {
    eigenvalues: Matrix<Complex<T>>,
    eigenvectors: Option<Matrix<Complex<T>>>,
}

impl<T: Scalar> GeneralizedEigenSolver<T> {
    /// The eigenvalues, in column 0.
    pub closed spec fn values(&self) -> Matrix<Complex<T>> {
        self.eigenvalues
    }

    /// The eigenvectors, when computed.
    pub closed spec fn vectors(&self) -> Option<Matrix<Complex<T>>> {
        self.eigenvectors
    }

    /// Solves `A x = lambda B x`. Fails exactly when the matrices are not
    /// square of one order, or when the QZ iteration does not converge.
    pub fn new(a: &Matrix<Complex<T>>, b: &Matrix<Complex<T>>, compute_eigenvectors: bool) -> (res: Result<Self, String>)
        requires
            a.wf(),
            b.wf(),
            same_square(*a, *b) ==> a.nrows() >= 1,
        ensures
            res is Ok <==> same_square(*a, *b) && qz_result(grid(*a), grid(*b), a.nrows()).1,
            res matches Ok(s) ==> {
                let n = a.nrows();
                let st = qz_result(grid(*a), grid(*b), n).0;
                &&& s.values().wf()
                &&& s.values().nrows() == n
                &&& s.values().ncols() == 1
                &&& forall|i: int| 0 <= i < n ==> #[trigger] s.values().at(i, 0) == gen_value(st.0, st.1, i)
                &&& !compute_eigenvectors ==> s.vectors() is None
                &&& compute_eigenvectors ==> (s.vectors() matches Some(v) && v.wf() && v.nrows() == n && v.ncols() == n
                    && forall|i: int, k: int| #[trigger] v.in_bounds(i, k) ==> v.at(i, k) == gen_vector(st, n, i, k))
            },
            res matches Err(e) ==> e@ == if !same_square(*a, *b) { "Generalized eigensolver requires square matrices of the same size"@ } else { "QZ algorithm failed to converge"@ },
    {
        let n = a.rows();
        if n != a.cols() || n != b.rows() || n != b.cols() {
            return Err("Generalized eigensolver requires square matrices of the same size".to_string());
        }
        let ght_d = match GeneralizedHessenbergTriangular::new(a, b) {
            Ok(d) => d,
            Err(e) => {
                return Err(e);
            },
        };
        let ghost st0 = ght(grid(*a), grid(*b), n as nat);
        let mut h = ght_d.matrix_h().copy();
        let mut r = ght_d.matrix_r().copy();
        let mut q = ght_d.matrix_q().copy();
        let mut z = ght_d.matrix_z().copy();
        proof {
            assert forall|i: int, j: int| #[trigger] h.in_bounds(i, j) implies h.at(i, j) == st0.0(i, j) by {
                assert(ght_d.hess().in_bounds(i, j));
            }
            assert forall|i: int, j: int| #[trigger] r.in_bounds(i, j) implies r.at(i, j) == st0.1(i, j) by {
                assert(ght_d.tri().in_bounds(i, j));
            }
            assert forall|i: int, j: int| #[trigger] q.in_bounds(i, j) implies q.at(i, j) == st0.2(i, j) by {
                assert(ght_d.left().in_bounds(i, j));
            }
            assert forall|i: int, j: int| #[trigger] z.in_bounds(i, j) implies z.at(i, j) == st0.3(i, j) by {
                assert(ght_d.right().in_bounds(i, j));
            }
        }
        match compute_qz_inplace(&mut h, &mut r, &mut q, &mut z, Ghost(st0)) {
            Ok(()) => {},
            Err(e) => {
                return Err(e);
            },
        }
        let ghost st = qz_result(grid(*a), grid(*b), n as nat).0;
        let mut eigenvalues = Matrix::zeros(n, 1);
        let mut i: usize = 0;
        while i < n
            invariant
                i <= n,
                n == h.nrows(),
                holds4(h, r, q, z, n as nat, st),
                eigenvalues.wf(),
                eigenvalues.nrows() == n,
                eigenvalues.ncols() == 1,
                forall|p: int| 0 <= p < i ==> #[trigger] eigenvalues.at(p, 0) == gen_value(st.0, st.1, p),
            decreases n - i,
        {
            let ghost before = eigenvalues;
            assert(h.in_bounds(i as int, i as int) && r.in_bounds(i as int, i as int));
            let s_ii = h.entry(i, i);
            let t_ii = r.entry(i, i);
            if t_ii.norm_sq().is_lt(T::epsilon()) {
                eigenvalues.set(i, 0, Complex::new(T::huge(), T::zero()));
            } else {
                eigenvalues.set(i, 0, s_ii.over(t_ii));
            }
            proof {
                assert forall|p: int| 0 <= p < i + 1 implies #[trigger] eigenvalues.at(p, 0) == gen_value(st.0, st.1, p) by {
                    assert(before.in_bounds(p, 0));
                    assert(eigenvalues.in_bounds(p, 0));
                }
            }
            i = i + 1;
        }
        let mut eigenvectors: Option<Matrix<Complex<T>>> = None;
        if compute_eigenvectors {
            let _size = a.size();
            let mut vecs = Matrix::zeros(n, n);
            let mut k: usize = 0;
            while k < n
                invariant
                    k <= n,
                    n == h.nrows(),
                    holds4(h, r, q, z, n as nat, st),
                    eigenvalues.wf(),
                    eigenvalues.nrows() == n,
                    eigenvalues.ncols() == 1,
                    forall|p: int| 0 <= p < n ==> #[trigger] eigenvalues.at(p, 0) == gen_value(st.0, st.1, p),
                    vecs.wf(),
                    vecs.nrows() == n,
                    vecs.ncols() == n,
                    forall|p: int, c: int| #[trigger] vecs.in_bounds(p, c) && c < k ==> vecs.at(p, c) == gen_vector(st, n as nat, p, c),
                decreases n - k,
            {
                assert(eigenvalues.in_bounds(k as int, 0));
                let lambda = eigenvalues.entry(k, 0);
                let ghost before = vecs;
                eigenvector_into(&mut vecs, &h, &r, &z, lambda, k, Ghost(st));
                proof {
                    assert forall|p: int, c: int| #[trigger] vecs.in_bounds(p, c) && c < k + 1 implies vecs.at(p, c)
                        == gen_vector(st, n as nat, p, c) by {
                        assert(before.in_bounds(p, c));
                    }
                }
                k = k + 1;
            }
            eigenvectors = Some(vecs);
        }
        Ok(GeneralizedEigenSolver { eigenvalues, eigenvectors })
    }

    /// The eigenvalues, in column 0.
    pub fn eigenvalues(&self) -> (m: &Matrix<Complex<T>>)
        ensures
            *m == self.values(),
    {
        &self.eigenvalues
    }

    /// The eigenvectors, when computed.
    pub fn eigenvectors(&self) -> (r: Option<&Matrix<Complex<T>>>)
        ensures
            r matches Some(v) ==> self.vectors() == Some(*v),
            r is None <==> self.vectors() is None,
    {
        match &self.eigenvectors {
            Some(v) => Some(v),
            None => None,
        }
    }
}

} // verus!
