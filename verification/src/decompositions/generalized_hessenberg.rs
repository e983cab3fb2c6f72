//! Generalized Hessenberg-triangular reduction of a pair of square complex
//! matrices `(A, B)`: unitary `Q`, `Z` with `Q A Z = H` upper Hessenberg and
//! `Q B Z = R` upper triangular.
//!
//! `B` is first made triangular by Householder reflections from the left
//! (applied to `A` and `Q` as well); then the entries of `A` below the
//! subdiagonal are removed column by column, from the bottom, by Givens
//! rotations on rows, each followed by a rotation on columns that removes
//! the entry it created below the diagonal of `B`.

use crate::complex::{cx, Complex};
use crate::decompositions::bidiagonal::{eye, identity_of};
use crate::decompositions::complex_schur::set_at;
use crate::decompositions::generalized_selfadjoint::same_square;
use crate::decompositions::lu::{grid, holds};
use crate::matrix::Matrix;
use crate::scalar::Scalar;
use vstd::prelude::*;

verus! {

/// The rotation `(c, s)` that maps `(a, b)` to `(r, 0)`: `(1, 0)` when `b`
/// equals zero; otherwise, with `norm = sqrt(|a|^2 + |b|^2)`,
/// `c = |a| / norm` and `s = conj(a / |a|) (b / norm)`.
pub open spec fn givens<T: Scalar>(a: Complex<T>, b: Complex<T>) -> (T, Complex<T>) {
    if b.spec_eq(Complex::<T>::spec_zero()) {
        (T::spec_from_usize(1), Complex::<T>::spec_zero())
    } else {
        let norm = a.modulus_sq().spec_plus(b.modulus_sq()).spec_sqrt();
        let an = a.modulus_sq().spec_sqrt();
        (
            an.spec_over(norm),
            a.spec_over(cx(an, T::spec_zero())).spec_conj().spec_times(b.spec_over(cx(norm, T::spec_zero()))),
        )
    }
}

/// The rotation applied from the left to rows `i`, `j` of the columns
/// `c0 .. c1`: row `i` becomes `c x_i + conj(s) x_j`, row `j` becomes
/// `-s x_i + c x_j`.
pub open spec fn rot_left<T: Scalar>(
    g: spec_fn(int, int) -> Complex<T>,
    i: int,
    j: int,
    c0: int,
    c1: int,
    c: T,
    s: Complex<T>,
) -> spec_fn(int, int) -> Complex<T> {
    let cc = cx(c, T::spec_zero());
    |r: int, k: int|
        if c0 <= k < c1 && r == i {
            cc.spec_times(g(i, k)).spec_plus(s.spec_conj().spec_times(g(j, k)))
        } else if c0 <= k < c1 && r == j {
            s.spec_negate().spec_times(g(i, k)).spec_plus(cc.spec_times(g(j, k)))
        } else {
            g(r, k)
        }
}

/// The rotation applied from the right to columns `i`, `j` of the rows
/// `r0 .. r1`: column `i` becomes `c x_i + s x_j`, column `j` becomes
/// `-conj(s) x_i + c x_j`.
pub open spec fn rot_right<T: Scalar>(
    g: spec_fn(int, int) -> Complex<T>,
    r0: int,
    r1: int,
    i: int,
    j: int,
    c: T,
    s: Complex<T>,
) -> spec_fn(int, int) -> Complex<T> {
    let cc = cx(c, T::spec_zero());
    |k: int, col: int|
        if r0 <= k < r1 && col == i {
            cc.spec_times(g(k, i)).spec_plus(s.spec_times(g(k, j)))
        } else if r0 <= k < r1 && col == j {
            s.spec_conj().spec_negate().spec_times(g(k, i)).spec_plus(cc.spec_times(g(k, j)))
        } else {
            g(k, col)
        }
}

/// `|g(rs, col)|^2 + ... + |g(re - 1, col)|^2` accumulated from zero.
pub open spec fn col_sq<T: Scalar>(g: spec_fn(int, int) -> Complex<T>, col: int, rs: int, re: int) -> T
    decreases re - rs,
{
    if re <= rs {
        T::spec_zero()
    } else {
        col_sq(g, col, rs, re - 1).spec_plus(g(re - 1, col).modulus_sq())
    }
}

/// The reflection `(tau, v, sigma)` of the entries `rs .. re` of column
/// `col`: all zero (and `v` empty) when their norm equals zero; otherwise
/// `sigma` has the norm as modulus and the phase of the first entry `x1`
/// (or is the norm when `|x1|` equals zero), `tau = conj(x1 + sigma) /
/// conj(sigma)`, and `v = (1, g(rs + 1, col) / (x1 + sigma), ...)`.
pub open spec fn house_col<T: Scalar>(g: spec_fn(int, int) -> Complex<T>, col: int, rs: int, re: int) -> (
    Complex<T>,
    Seq<Complex<T>>,
    Complex<T>,
) {
    let x1 = g(rs, col);
    let norm = col_sq(g, col, rs, re).spec_sqrt();
    let zero = Complex::<T>::spec_zero();
    if norm.spec_eq(T::spec_zero()) {
        (zero, Seq::empty(), zero)
    } else {
        let ax = x1.modulus_sq().spec_sqrt();
        let sigma = if ax.spec_eq(T::spec_zero()) {
            cx(norm, T::spec_zero())
        } else {
            x1.spec_over(cx(ax, T::spec_zero())).spec_times(cx(norm, T::spec_zero()))
        };
        let v1 = x1.spec_plus(sigma);
        let v = Seq::new(
            (re - rs) as nat,
            |t: int|
                if t == 0 {
                    Complex::<T>::spec_from_usize(1)
                } else {
                    g(rs + t, col).spec_over(v1)
                },
        );
        (v1.spec_conj().spec_over(sigma.spec_conj()), v, sigma)
    }
}

/// `x(rs, j) + conj(v[1]) x(rs + 1, j) + ... + conj(v[t-1]) x(rs + t - 1, j)`.
pub open spec fn hl_dot<T: Scalar>(v: Seq<Complex<T>>, x: spec_fn(int, int) -> Complex<T>, rs: int, j: int, t: int) -> Complex<T>
    decreases t,
{
    if t <= 1 {
        x(rs, j)
    } else {
        hl_dot(v, x, rs, j, t - 1).spec_plus(v[t - 1].spec_conj().spec_times(x(rs + t - 1, j)))
    }
}

/// The reflection `I - tau v v^*` applied from the left to the rows
/// `rs .. rs + |v|` (row `rs` at least) of the columns `c0 .. c1`: with
/// `f = tau hl_dot(..)`, row `rs` loses `f` and row `rs + t` loses `f v[t]`.
pub open spec fn hl_apply<T: Scalar>(
    v: Seq<Complex<T>>,
    tau: Complex<T>,
    x: spec_fn(int, int) -> Complex<T>,
    rs: int,
    c0: int,
    c1: int,
) -> spec_fn(int, int) -> Complex<T> {
    |i: int, j: int|
        if c0 <= j < c1 && (i == rs || rs < i < rs + v.len()) {
            let f = tau.spec_times(hl_dot(v, x, rs, j, v.len() as int));
            if i == rs {
                x(rs, j).spec_minus(f)
            } else {
                x(i, j).spec_minus(f.spec_times(v[i - rs]))
            }
        } else {
            x(i, j)
        }
}

/// Step `i` of the triangularization of `B` (order `n`), on `(A, B, Q)`.
pub open spec fn house_step<T: Scalar>(
    a: spec_fn(int, int) -> Complex<T>,
    b: spec_fn(int, int) -> Complex<T>,
    q: spec_fn(int, int) -> Complex<T>,
    n: int,
    i: int,
) -> (spec_fn(int, int) -> Complex<T>, spec_fn(int, int) -> Complex<T>, spec_fn(int, int) -> Complex<T>) {
    let h = house_col(b, i, i, n);
    let zero = Complex::<T>::spec_zero();
    if h.0.spec_eq(zero) {
        (a, b, q)
    } else {
        let b1 = hl_apply(h.1, h.0, b, i, i, n);
        let b2 = |r: int, c: int|
            if c == i && r == i {
                zero.spec_minus(h.2)
            } else if c == i && i < r < n {
                zero
            } else {
                b1(r, c)
            };
        (hl_apply(h.1, h.0, a, i, 0, n), b2, hl_apply(h.1, h.0, q, i, 0, n))
    }
}

/// `(A, B, Q)` after the first `k` steps of the triangularization.
pub open spec fn house_state<T: Scalar>(
    a: spec_fn(int, int) -> Complex<T>,
    b: spec_fn(int, int) -> Complex<T>,
    n: int,
    k: nat,
) -> (spec_fn(int, int) -> Complex<T>, spec_fn(int, int) -> Complex<T>, spec_fn(int, int) -> Complex<T>)
    decreases k,
{
    if k == 0 {
        (a, b, eye())
    } else {
        let p = house_state(a, b, n, (k - 1) as nat);
        house_step(p.0, p.1, p.2, n, k - 1)
    }
}

/// `(A, B, Q, Z)`.
pub type Quad<T> = (
    spec_fn(int, int) -> Complex<T>,
    spec_fn(int, int) -> Complex<T>,
    spec_fn(int, int) -> Complex<T>,
    spec_fn(int, int) -> Complex<T>,
);

/// The removal of `A(j, i)` (order `n`): a row rotation of rows `j - 1, j`
/// on `A` (columns from `i`, then `A(j, i)` set to zero), `B` (columns from
/// `j - 1`) and `Q`; then a column rotation of columns `j - 1, j` that
/// removes `B(j, j - 1)`, on `B` (rows up to `j`, then `B(j, j - 1)` set to
/// zero), `A` and `Z`.
pub open spec fn rot_step<T: Scalar>(st: Quad<T>, n: int, i: int, j: int) -> Quad<T> {
    let zero = Complex::<T>::spec_zero();
    let g = givens(st.0(j - 1, i), st.0(j, i));
    let a1 = set_at(rot_left(st.0, j - 1, j, i, n, g.0, g.1), j, i, zero);
    let b1 = rot_left(st.1, j - 1, j, j - 1, n, g.0, g.1);
    let q1 = rot_left(st.2, j - 1, j, 0, n, g.0, g.1);
    let gz = givens(b1(j, j), b1(j, j - 1).spec_negate());
    let b2 = set_at(rot_right(b1, 0, j + 1, j - 1, j, gz.0, gz.1), j, j - 1, zero);
    (rot_right(a1, 0, n, j - 1, j, gz.0, gz.1), b2, q1, rot_right(st.3, 0, n, j - 1, j, gz.0, gz.1))
}

/// The first `t` removals in column `i`, from row `n - 1` upwards.
pub open spec fn sweep<T: Scalar>(st: Quad<T>, n: int, i: int, t: nat) -> Quad<T>
    decreases t,
{
    if t == 0 {
        st
    } else {
        rot_step(sweep(st, n, i, (t - 1) as nat), n, i, n - t)
    }
}

/// The state after the removals in the first `m` columns.
pub open spec fn sweeps<T: Scalar>(st: Quad<T>, n: int, m: nat) -> Quad<T>
    decreases m,
{
    if m == 0 {
        st
    } else {
        let i = m - 1;
        sweep(sweeps(st, n, (m - 1) as nat), n, i, (n - 2 - i) as nat)
    }
}

/// The number of columns with entries to remove below the subdiagonal.
pub open spec fn sweep_count(n: nat) -> nat {
    if n >= 2 {
        (n - 2) as nat
    } else {
        0
    }
}

/// `(H, R, Q, Z)` of the reduction of `a`, `b` (order `n`).
pub open spec fn ght<T: Scalar>(a: spec_fn(int, int) -> Complex<T>, b: spec_fn(int, int) -> Complex<T>, n: nat) -> Quad<T> {
    let p = house_state(a, b, n as int, n);
    sweeps((p.0, p.1, p.2, eye()), n as int, sweep_count(n))
}

/// `givens` in executable form.
pub(crate) fn givens_rotation<T: Scalar>(a: Complex<T>, b: Complex<T>) -> (r: (T, Complex<T>))
    ensures
        r == givens(a, b),
{
    if b.is_eq(Complex::zero()) {
        return (T::from_usize(1), Complex::zero());
    }
    let norm = a.norm_sq().plus(b.norm_sq()).sqrt();
    let an = a.norm();
    let c = an.over(norm);
    let s = a.over(Complex::new(an, T::zero())).conj().times(b.over(Complex::new(norm, T::zero())));
    (c, s)
}

/// Applies `rot_left` in place.
pub(crate) fn apply_givens_left<T: Scalar>(
    m: &mut Matrix<Complex<T>>,
    i: usize,
    j: usize,
    col_start: usize,
    col_end: usize,
    c: T,
    s: Complex<T>,
    Ghost(g): Ghost<spec_fn(int, int) -> Complex<T>>,
)
    requires
        old(m).wf(),
        i < j < old(m).nrows(),
        col_end <= old(m).ncols(),
        holds(*old(m), g),
    ensures
        final(m).wf(),
        final(m).same_shape(old(m)),
        holds(*final(m), rot_left(g, i as int, j as int, col_start as int, col_end as int, c, s)),
{
    let ghost target = rot_left(g, i as int, j as int, col_start as int, col_end as int, c, s);
    let cc = Complex::new(c, T::zero());
    let sc = s.conj();
    let sn = s.negate();
    let mut k = col_start;
    while k < col_end
        invariant
            col_start <= k,
            col_end <= m.ncols(),
            i < j < m.nrows(),
            m.wf(),
            m.same_shape(old(m)),
            cc == cx(c, T::spec_zero()),
            sc == s.spec_conj(),
            sn == s.spec_negate(),
            target == rot_left(g, i as int, j as int, col_start as int, col_end as int, c, s),
            forall|r: int, q: int| #[trigger]
                m.in_bounds(r, q) ==> m.at(r, q) == if col_start <= q < k {
                    target(r, q)
                } else {
                    g(r, q)
                },
        decreases col_end - k,
    {
        let ghost before = *m;
        assert(m.in_bounds(i as int, k as int) && m.in_bounds(j as int, k as int));
        let v1 = m.entry(i, k);
        let v2 = m.entry(j, k);
        m.set(i, k, cc.times(v1).plus(sc.times(v2)));
        let ghost mid = *m;
        m.set(j, k, sn.times(v1).plus(cc.times(v2)));
        proof {
            assert forall|r: int, q: int| #[trigger] m.in_bounds(r, q) implies m.at(r, q) == if col_start <= q < k + 1 {
                target(r, q)
            } else {
                g(r, q)
            } by {
                assert(before.in_bounds(r, q));
                assert(mid.in_bounds(r, q));
            }
        }
        k = k + 1;
    }
}

/// Applies `rot_right` in place.
pub(crate) fn apply_givens_right<T: Scalar>(
    m: &mut Matrix<Complex<T>>,
    row_start: usize,
    row_end: usize,
    i: usize,
    j: usize,
    c: T,
    s: Complex<T>,
    Ghost(g): Ghost<spec_fn(int, int) -> Complex<T>>,
)
    requires
        old(m).wf(),
        i < j < old(m).ncols(),
        row_end <= old(m).nrows(),
        holds(*old(m), g),
    ensures
        final(m).wf(),
        final(m).same_shape(old(m)),
        holds(*final(m), rot_right(g, row_start as int, row_end as int, i as int, j as int, c, s)),
{
    let ghost target = rot_right(g, row_start as int, row_end as int, i as int, j as int, c, s);
    let cc = Complex::new(c, T::zero());
    let scn = s.conj().negate();
    let mut k = row_start;
    while k < row_end
        invariant
            row_start <= k,
            row_end <= m.nrows(),
            i < j < m.ncols(),
            m.wf(),
            m.same_shape(old(m)),
            cc == cx(c, T::spec_zero()),
            scn == s.spec_conj().spec_negate(),
            target == rot_right(g, row_start as int, row_end as int, i as int, j as int, c, s),
            forall|r: int, q: int| #[trigger]
                m.in_bounds(r, q) ==> m.at(r, q) == if row_start <= r < k {
                    target(r, q)
                } else {
                    g(r, q)
                },
        decreases row_end - k,
    {
        let ghost before = *m;
        assert(m.in_bounds(k as int, i as int) && m.in_bounds(k as int, j as int));
        let v1 = m.entry(k, i);
        let v2 = m.entry(k, j);
        m.set(k, i, cc.times(v1).plus(s.times(v2)));
        let ghost mid = *m;
        m.set(k, j, scn.times(v1).plus(cc.times(v2)));
        proof {
            assert forall|r: int, q: int| #[trigger] m.in_bounds(r, q) implies m.at(r, q) == if row_start <= r < k + 1 {
                target(r, q)
            } else {
                g(r, q)
            } by {
                assert(before.in_bounds(r, q));
                assert(mid.in_bounds(r, q));
            }
        }
        k = k + 1;
    }
}

/// Sets entry `(i, j)` in place.
pub(crate) fn put<T: Scalar>(m: &mut Matrix<Complex<T>>, i: usize, j: usize, val: Complex<T>, Ghost(g): Ghost<spec_fn(int, int) -> Complex<T>>)
    requires
        old(m).wf(),
        i < old(m).nrows(),
        j < old(m).ncols(),
        holds(*old(m), g),
    ensures
        final(m).wf(),
        final(m).same_shape(old(m)),
        holds(*final(m), set_at(g, i as int, j as int, val)),
{
    let ghost before = *m;
    m.set(i, j, val);
    proof {
        assert forall|r: int, c: int| #[trigger] m.in_bounds(r, c) implies m.at(r, c) == set_at(g, i as int, j as int, val)(
            r,
            c,
        ) by {
            assert(before.in_bounds(r, c));
        }
    }
}

/// `house_col` in executable form.
fn make_householder<T: Scalar>(
    m: &Matrix<Complex<T>>,
    col: usize,
    row_start: usize,
    row_end: usize,
    Ghost(g): Ghost<spec_fn(int, int) -> Complex<T>>,
) -> (r: (Complex<T>, Vec<Complex<T>>, Complex<T>))
    requires
        m.wf(),
        row_start < row_end <= m.nrows(),
        col < m.ncols(),
        holds(*m, g),
    ensures
        r.0 == house_col(g, col as int, row_start as int, row_end as int).0,
        r.1@ == house_col(g, col as int, row_start as int, row_end as int).1,
        r.2 == house_col(g, col as int, row_start as int, row_end as int).2,
{
    assert(m.in_bounds(row_start as int, col as int));
    let x1 = m.entry(row_start, col);
    let mut norm_sq = T::zero();
    let mut k = row_start;
    while k < row_end
        invariant
            row_start <= k <= row_end,
            row_end <= m.nrows(),
            col < m.ncols(),
            m.wf(),
            holds(*m, g),
            norm_sq == col_sq(g, col as int, row_start as int, k as int),
        decreases row_end - k,
    {
        assert(m.in_bounds(k as int, col as int));
        norm_sq = norm_sq.plus(m.entry(k, col).norm_sq());
        k = k + 1;
    }
    let norm = norm_sq.sqrt();
    if norm.is_eq(T::zero()) {
        return (Complex::zero(), Vec::new(), Complex::zero());
    }
    let ax = x1.norm();
    let sigma = if ax.is_eq(T::zero()) {
        Complex::new(norm, T::zero())
    } else {
        x1.over(Complex::new(ax, T::zero())).times(Complex::new(norm, T::zero()))
    };
    let v1 = x1.plus(sigma);
    let tau = v1.conj().over(sigma.conj());
    let ghost h = house_col(g, col as int, row_start as int, row_end as int);
    let mut v: Vec<Complex<T>> = Vec::new();
    v.push(Complex::from_usize(1));
    let mut k = row_start + 1;
    while k < row_end
        invariant
            row_start < k <= row_end,
            row_end <= m.nrows(),
            col < m.ncols(),
            m.wf(),
            holds(*m, g),
            h == house_col(g, col as int, row_start as int, row_end as int),
            !norm.spec_eq(T::spec_zero()),
            norm == col_sq(g, col as int, row_start as int, row_end as int).spec_sqrt(),
            x1 == g(row_start as int, col as int),
            sigma == h.2,
            v1 == x1.spec_plus(sigma),
            v@.len() == k - row_start,
            forall|t: int| 0 <= t < v@.len() ==> #[trigger] v@[t] == h.1[t],
        decreases row_end - k,
    {
        assert(m.in_bounds(k as int, col as int));
        v.push(m.entry(k, col).over(v1));
        k = k + 1;
    }
    assert(v@ =~= h.1);
    (tau, v, sigma)
}

/// Applies `hl_apply` in place.
fn apply_householder_left<T: Scalar>(
    m: &mut Matrix<Complex<T>>,
    r_start: usize,
    c_start: usize,
    c_end: usize,
    tau: Complex<T>,
    v: &Vec<Complex<T>>,
    Ghost(g): Ghost<spec_fn(int, int) -> Complex<T>>,
)
    requires
        old(m).wf(),
        r_start < old(m).nrows(),
        r_start + v@.len() <= old(m).nrows(),
        c_end <= old(m).ncols(),
        holds(*old(m), g),
    ensures
        final(m).wf(),
        final(m).same_shape(old(m)),
        holds(*final(m), hl_apply(v@, tau, g, r_start as int, c_start as int, c_end as int)),
{
    let len = v.len();
    let top: usize = if len >= 1 {
        len
    } else {
        1
    };
    proof {
        m.lemma_dims_fit();
    }
    let ghost target = hl_apply(v@, tau, g, r_start as int, c_start as int, c_end as int);
    let mut j = c_start;
    while j < c_end
        invariant
            m.nrows() <= usize::MAX,
            top == if len >= 1 {
                len
            } else {
                1
            },
            c_start <= j,
            c_end <= m.ncols(),
            r_start < m.nrows(),
            r_start + len <= m.nrows(),
            len == v@.len(),
            m.wf(),
            m.same_shape(old(m)),
            target == hl_apply(v@, tau, g, r_start as int, c_start as int, c_end as int),
            forall|r: int, q: int| #[trigger]
                m.in_bounds(r, q) ==> m.at(r, q) == if c_start <= q < j {
                    target(r, q)
                } else {
                    g(r, q)
                },
        decreases c_end - j,
    {
        assert(m.in_bounds(r_start as int, j as int));
        let mut dot = m.entry(r_start, j);
        let mut k: usize = 1;
        while k < len
            invariant
                1 <= k <= top,
                top == if len >= 1 {
                    len
                } else {
                    1
                },
                m.nrows() <= usize::MAX,
                c_start <= j < c_end,
                c_end <= m.ncols(),
                r_start < m.nrows(),
                m.same_shape(old(m)),
                r_start + len <= m.nrows(),
                len == v@.len(),
                m.wf(),
                forall|r: int, q: int| #[trigger]
                    m.in_bounds(r, q) ==> m.at(r, q) == if c_start <= q < j {
                        target(r, q)
                    } else {
                        g(r, q)
                    },
                dot == hl_dot(v@, g, r_start as int, j as int, k as int),
            decreases len - k,
        {
            assert(m.in_bounds((r_start + k) as int, j as int));
            dot = dot.plus(v[k].conj().times(m.entry(r_start + k, j)));
            k = k + 1;
        }
        assert(dot == hl_dot(v@, g, r_start as int, j as int, len as int));
        let factor = tau.times(dot);
        let ghost before = *m;
        let x0 = m.entry(r_start, j);
        m.set(r_start, j, x0.minus(factor));
        proof {
            assert forall|r: int, q: int| #[trigger] m.in_bounds(r, q) implies m.at(r, q) == if c_start <= q < j || (q
                == j && r <= r_start) {
                target(r, q)
            } else {
                g(r, q)
            } by {
                assert(before.in_bounds(r, q));
            }
        }
        let mut k: usize = 1;
        while k < len
            invariant
                1 <= k <= top,
                top == if len >= 1 {
                    len
                } else {
                    1
                },
                m.nrows() <= usize::MAX,
                c_start <= j < c_end,
                c_end <= m.ncols(),
                r_start < m.nrows(),
                m.same_shape(old(m)),
                r_start + len <= m.nrows(),
                len == v@.len(),
                m.wf(),
                target == hl_apply(v@, tau, g, r_start as int, c_start as int, c_end as int),
                factor == tau.spec_times(hl_dot(v@, g, r_start as int, j as int, len as int)),
                forall|r: int, q: int| #[trigger]
                    m.in_bounds(r, q) ==> m.at(r, q) == if c_start <= q < j || (q == j && r < r_start + k) {
                        target(r, q)
                    } else {
                        g(r, q)
                    },
            decreases len - k,
        {
            let ghost before = *m;
            assert(m.in_bounds((r_start + k) as int, j as int));
            let x = m.entry(r_start + k, j);
            let vk = v[k];
            assert(target((r_start + k) as int, j as int) == x.spec_minus(factor.spec_times(vk)));
            m.set(r_start + k, j, x.minus(factor.times(vk)));
            proof {
                assert forall|r: int, q: int| #[trigger] m.in_bounds(r, q) implies m.at(r, q) == if c_start <= q < j
                    || (q == j && r < r_start + k + 1) {
                    target(r, q)
                } else {
                    g(r, q)
                } by {
                    assert(before.in_bounds(r, q));
                }
            }
            k = k + 1;
        }
        proof {
            assert forall|r: int, q: int| #[trigger] m.in_bounds(r, q) implies m.at(r, q) == if c_start <= q < j + 1 {
                target(r, q)
            } else {
                g(r, q)
            } by {
                if q == j && r >= r_start + k {
                    assert(target(r, q) == g(r, q));
                }
            }
        }
        j = j + 1;
    }
}

/// The four working matrices of the reduction: square of order `n`, with
/// the entries of `st`.
pub open spec fn holds4<T: Scalar>(
    a: Matrix<Complex<T>>,
    b: Matrix<Complex<T>>,
    q: Matrix<Complex<T>>,
    z: Matrix<Complex<T>>,
    n: nat,
    st: Quad<T>,
) -> bool {
    &&& a.wf() && a.nrows() == n && a.ncols() == n && holds(a, st.0)
    &&& b.wf() && b.nrows() == n && b.ncols() == n && holds(b, st.1)
    &&& q.wf() && q.nrows() == n && q.ncols() == n && holds(q, st.2)
    &&& z.wf() && z.nrows() == n && z.ncols() == n && holds(z, st.3)
}

/// Step `i` of the triangularization of `B` in place (see `house_step`).
fn house_step_inplace<T: Scalar>(
    a: &mut Matrix<Complex<T>>,
    b: &mut Matrix<Complex<T>>,
    q: &mut Matrix<Complex<T>>,
    z: &Matrix<Complex<T>>,
    i: usize,
    Ghost(st): Ghost<Quad<T>>,
)
    requires
        holds4(*old(a), *old(b), *old(q), *z, old(a).nrows(), st),
        i < old(a).nrows(),
    ensures
        holds4(
            *final(a),
            *final(b),
            *final(q),
            *z,
            old(a).nrows(),
            ({
                let h = house_step(st.0, st.1, st.2, old(a).nrows() as int, i as int);
                (h.0, h.1, h.2, st.3)
            }),
        ),
{
    let n = a.rows();
    let ghost hc = house_col(st.1, i as int, i as int, n as int);
    let h = make_householder(b, i, i, n, Ghost(st.1));
    if !h.0.is_eq(Complex::zero()) {
        let ghost b1 = hl_apply(hc.1, hc.0, st.1, i as int, i as int, n as int);
        apply_householder_left(b, i, i, n, h.0, &h.1, Ghost(st.1));
        let ghost target = house_step(st.0, st.1, st.2, n as int, i as int).1;
        let ghost before = *b;
        b.set(i, i, Complex::zero().minus(h.2));
        proof {
            assert forall|r: int, c: int| #[trigger] b.in_bounds(r, c) implies b.at(r, c) == if c == i && i < r < i + 1 {
                Complex::<T>::spec_zero()
            } else if c == i && r == i {
                Complex::<T>::spec_zero().spec_minus(hc.2)
            } else {
                b1(r, c)
            } by {
                assert(before.in_bounds(r, c));
            }
        }
        let mut k = i + 1;
        while k < n
            invariant
                i < k <= n,
                b.wf(),
                b.nrows() == n,
                b.ncols() == n,
                forall|r: int, c: int| #[trigger]
                    b.in_bounds(r, c) ==> b.at(r, c) == if c == i && i < r < k {
                        Complex::<T>::spec_zero()
                    } else if c == i && r == i {
                        Complex::<T>::spec_zero().spec_minus(hc.2)
                    } else {
                        b1(r, c)
                    },
            decreases n - k,
        {
            let ghost before = *b;
            b.set(k, i, Complex::zero());
            proof {
                assert forall|r: int, c: int| #[trigger] b.in_bounds(r, c) implies b.at(r, c) == if c == i && i < r < k
                    + 1 {
                    Complex::<T>::spec_zero()
                } else if c == i && r == i {
                    Complex::<T>::spec_zero().spec_minus(hc.2)
                } else {
                    b1(r, c)
                } by {
                    assert(before.in_bounds(r, c));
                }
            }
            k = k + 1;
        }
        apply_householder_left(a, i, 0, n, h.0, &h.1, Ghost(st.0));
        apply_householder_left(q, i, 0, n, h.0, &h.1, Ghost(st.2));
    }
}

/// The removal of `A(j, i)` in place (see `rot_step`).
fn rot_step_inplace<T: Scalar>(
    a: &mut Matrix<Complex<T>>,
    b: &mut Matrix<Complex<T>>,
    q: &mut Matrix<Complex<T>>,
    z: &mut Matrix<Complex<T>>,
    i: usize,
    j: usize,
    Ghost(st): Ghost<Quad<T>>,
)
    requires
        holds4(*old(a), *old(b), *old(q), *old(z), old(a).nrows(), st),
        i < j < old(a).nrows(),
        i + 1 < j,
    ensures
        holds4(*final(a), *final(b), *final(q), *final(z), old(a).nrows(), rot_step(st, old(a).nrows() as int, i as int, j as int)),
{
    let n = a.rows();
    assert(a.in_bounds((j - 1) as int, i as int) && a.in_bounds(j as int, i as int));
    let g = givens_rotation(a.entry(j - 1, i), a.entry(j, i));
    let ghost al = rot_left(st.0, (j - 1) as int, j as int, i as int, n as int, g.0, g.1);
    apply_givens_left(a, j - 1, j, i, n, g.0, g.1, Ghost(st.0));
    put(a, j, i, Complex::zero(), Ghost(al));
    let ghost a1 = set_at(al, j as int, i as int, Complex::<T>::spec_zero());
    let ghost b1 = rot_left(st.1, (j - 1) as int, j as int, (j - 1) as int, n as int, g.0, g.1);
    apply_givens_left(b, j - 1, j, j - 1, n, g.0, g.1, Ghost(st.1));
    apply_givens_left(q, j - 1, j, 0, n, g.0, g.1, Ghost(st.2));
    assert(b.in_bounds(j as int, (j - 1) as int) && b.in_bounds(j as int, j as int));
    let val = b.entry(j, j - 1);
    let gz = givens_rotation(b.entry(j, j), val.negate());
    let ghost br = rot_right(b1, 0, (j + 1) as int, (j - 1) as int, j as int, gz.0, gz.1);
    apply_givens_right(b, 0, j + 1, j - 1, j, gz.0, gz.1, Ghost(b1));
    put(b, j, j - 1, Complex::zero(), Ghost(br));
    apply_givens_right(a, 0, n, j - 1, j, gz.0, gz.1, Ghost(a1));
    apply_givens_right(z, 0, n, j - 1, j, gz.0, gz.1, Ghost(st.3));
}

/// The whole reduction in place (see `ght`).
fn compute_inplace<T: Scalar>(
    a: &mut Matrix<Complex<T>>,
    b: &mut Matrix<Complex<T>>,
    q: &mut Matrix<Complex<T>>,
    z: &mut Matrix<Complex<T>>,
    Ghost(a0): Ghost<spec_fn(int, int) -> Complex<T>>,
    Ghost(b0): Ghost<spec_fn(int, int) -> Complex<T>>,
)
    requires
        holds4(*old(a), *old(b), *old(q), *old(z), old(a).nrows(), (a0, b0, eye(), eye())),
    ensures
        holds4(*final(a), *final(b), *final(q), *final(z), old(a).nrows(), ght(a0, b0, old(a).nrows())),
{
    let n = a.rows();
    let mut i: usize = 0;
    while i < n
        invariant
            i <= n,
            n == a.nrows(),
            ({
                let p = house_state(a0, b0, n as int, i as nat);
                holds4(*a, *b, *q, *z, n as nat, (p.0, p.1, p.2, eye()))
            }),
        decreases n - i,
    {
        let ghost p = house_state(a0, b0, n as int, i as nat);
        house_step_inplace(a, b, q, z, i, Ghost((p.0, p.1, p.2, eye())));
        i = i + 1;
    }
    let ghost p = house_state(a0, b0, n as int, n as nat);
    let ghost st0: Quad<T> = (p.0, p.1, p.2, eye());
    let cnt: usize = if n >= 2 {
        n - 2
    } else {
        0
    };
    let mut i: usize = 0;
    while i < cnt
        invariant
            i <= cnt,
            cnt == sweep_count(n as nat),
            n == a.nrows(),
            st0 == (p.0, p.1, p.2, eye::<Complex<T>>()),
            holds4(*a, *b, *q, *z, n as nat, sweeps(st0, n as int, i as nat)),
        decreases cnt - i,
    {
        let steps = n - 2 - i;
        let ghost s0 = sweeps(st0, n as int, i as nat);
        let mut t: usize = 0;
        while t < steps
            invariant
                t <= steps,
                steps == n - 2 - i,
                i < cnt,
                cnt == sweep_count(n as nat),
                n == a.nrows(),
                holds4(*a, *b, *q, *z, n as nat, sweep(s0, n as int, i as int, t as nat)),
            decreases steps - t,
        {
            let j = n - 1 - t;
            rot_step_inplace(a, b, q, z, i, j, Ghost(sweep(s0, n as int, i as int, t as nat)));
            t = t + 1;
        }
        i = i + 1;
    }
}

/// A generalized Hessenberg-triangular reduction `Q A Z = H`, `Q B Z = R`.
pub struct GeneralizedHessenbergTriangular<T: Scalar> {
    h: Matrix<Complex<T>>,
    r: Matrix<Complex<T>>,
    q: Matrix<Complex<T>>,
    z: Matrix<Complex<T>>,
}

impl<T: Scalar> GeneralizedHessenbergTriangular<T> {
    /// `H`.
    pub closed spec fn hess(&self) -> Matrix<Complex<T>> {
        self.h
    }

    /// `R`.
    pub closed spec fn tri(&self) -> Matrix<Complex<T>> {
        self.r
    }

    /// `Q`.
    pub closed spec fn left(&self) -> Matrix<Complex<T>> {
        self.q
    }

    /// `Z`.
    pub closed spec fn right(&self) -> Matrix<Complex<T>> {
        self.z
    }

    /// Computes the reduction of a pair of square matrices of one order;
    /// fails exactly when they are not.
    pub fn new(a: &Matrix<Complex<T>>, b: &Matrix<Complex<T>>) -> (res: Result<Self, String>)
        requires
            a.wf(),
            b.wf(),
        ensures
            res is Ok <==> same_square(*a, *b),
            res matches Ok(d) ==> holds4(d.hess(), d.tri(), d.left(), d.right(), a.nrows(), ght(grid(*a), grid(*b), a.nrows())),
            res matches Err(e) ==> e@ == "GHT reduction requires square matrices of the same size"@,
    {
        let n = a.rows();
        if n != a.cols() || n != b.rows() || n != b.cols() {
            return Err("GHT reduction requires square matrices of the same size".to_string());
        }
        let _size = a.size();
        let mut mat_a = a.copy();
        let mut mat_b = b.copy();
        let mut mat_q = identity_of(n);
        let mut mat_z = identity_of(n);
        proof {
            assert forall|i: int, j: int| #[trigger] mat_a.in_bounds(i, j) implies mat_a.at(i, j) == grid(*a)(i, j) by {}
            assert forall|i: int, j: int| #[trigger] mat_b.in_bounds(i, j) implies mat_b.at(i, j) == grid(*b)(i, j) by {}
        }
        compute_inplace(&mut mat_a, &mut mat_b, &mut mat_q, &mut mat_z, Ghost(grid(*a)), Ghost(grid(*b)));
        Ok(GeneralizedHessenbergTriangular { h: mat_a, r: mat_b, q: mat_q, z: mat_z })
    }

    /// `H`, upper Hessenberg.
    pub fn matrix_h(&self) -> (m: &Matrix<Complex<T>>)
        ensures
            *m == self.hess(),
    {
        &self.h
    }

    /// `R`, upper triangular.
    pub fn matrix_r(&self) -> (m: &Matrix<Complex<T>>)
        ensures
            *m == self.tri(),
    {
        &self.r
    }

    /// `Q`, unitary.
    pub fn matrix_q(&self) -> (m: &Matrix<Complex<T>>)
        ensures
            *m == self.left(),
    {
        &self.q
    }

    /// `Z`, unitary.
    pub fn matrix_z(&self) -> (m: &Matrix<Complex<T>>)
        ensures
            *m == self.right(),
    {
        &self.z
    }
}

/// The entries of `g` below the subdiagonal (in the `n x n` square) are
/// zero.
pub open spec fn is_hessenberg<T: Scalar>(g: spec_fn(int, int) -> Complex<T>, n: int) -> bool {
    forall|i: int, j: int| 0 <= j && j + 1 < i < n ==> #[trigger] g(i, j) == Complex::<T>::spec_zero()
}

/// The entries of `g` below the diagonal (in the `n x n` square) are zero.
pub open spec fn is_triangular<T: Scalar>(g: spec_fn(int, int) -> Complex<T>, n: int) -> bool {
    forall|i: int, j: int| 0 <= j < i < n ==> #[trigger] g(i, j) == Complex::<T>::spec_zero()
}

/// No step of the triangularization of `B` is skipped: every column meets
/// a reflection coefficient that does not equal zero.
pub open spec fn no_skipped_column<T: Scalar>(a: spec_fn(int, int) -> Complex<T>, b: spec_fn(int, int) -> Complex<T>, n: nat) -> bool {
    forall|k: int|
        0 <= k < n ==> !(#[trigger] house_col(house_state(a, b, n as int, k as nat).1, k, k, n as int)).0.spec_eq(
            Complex::<T>::spec_zero(),
        )
}

proof fn lemma_house_zeros<T: Scalar>(a: spec_fn(int, int) -> Complex<T>, b: spec_fn(int, int) -> Complex<T>, n: nat, k: nat)
    requires
        k <= n,
        no_skipped_column(a, b, n),
    ensures
        forall|r: int, c: int| 0 <= c < k && c < r < n ==> #[trigger] house_state(a, b, n as int, k).1(r, c) == Complex::<T>::spec_zero(),
    decreases k,
{
    if k > 0 {
        lemma_house_zeros(a, b, n, (k - 1) as nat);
        let p = house_state(a, b, n as int, (k - 1) as nat);
        let h = house_col(p.1, k - 1, k - 1, n as int);
        assert(!h.0.spec_eq(Complex::<T>::spec_zero()));
    }
}

proof fn lemma_rot_step_shape<T: Scalar>(st: Quad<T>, n: int, i: int, j: int)
    requires
        0 <= i,
        i + 2 <= j < n,
    ensures
        is_triangular(st.1, n) ==> is_triangular(rot_step(st, n, i, j).1, n),
        forall|r: int, c: int| 0 <= c < i ==> #[trigger] rot_step(st, n, i, j).0(r, c) == st.0(r, c),
        forall|r: int| r != j - 1 && r != j ==> #[trigger] rot_step(st, n, i, j).0(r, i) == st.0(r, i),
        rot_step(st, n, i, j).0(j, i) == Complex::<T>::spec_zero(),
{
    let nb = rot_step(st, n, i, j).1;
    if is_triangular(st.1, n) {
        assert forall|r: int, c: int| 0 <= c < r < n implies #[trigger] nb(r, c) == Complex::<T>::spec_zero() by {
            assert(st.1(r, c) == Complex::<T>::spec_zero());
        }
    }
}

proof fn lemma_sweep_shape<T: Scalar>(st: Quad<T>, n: int, i: int, t: nat)
    requires
        0 <= i,
        i + 2 + t <= n,
    ensures
        is_triangular(st.1, n) ==> is_triangular(sweep(st, n, i, t).1, n),
        forall|r: int, c: int| 0 <= c < i ==> #[trigger] sweep(st, n, i, t).0(r, c) == st.0(r, c),
        forall|r: int| n - t <= r < n ==> #[trigger] sweep(st, n, i, t).0(r, i) == Complex::<T>::spec_zero(),
    decreases t,
{
    if t > 0 {
        lemma_sweep_shape(st, n, i, (t - 1) as nat);
        let prev = sweep(st, n, i, (t - 1) as nat);
        lemma_rot_step_shape(prev, n, i, n - t);
        assert forall|r: int| n - t <= r < n implies #[trigger] sweep(st, n, i, t).0(r, i) == Complex::<T>::spec_zero() by {
            if r > n - t {
                assert(prev.0(r, i) == Complex::<T>::spec_zero());
            }
        }
    }
}

proof fn lemma_sweeps_shape<T: Scalar>(st: Quad<T>, n: int, m: nat)
    requires
        m <= sweep_count(n as nat),
        n >= 0,
    ensures
        is_triangular(st.1, n) ==> is_triangular(sweeps(st, n, m).1, n),
        forall|r: int, c: int| 0 <= c < m && c + 1 < r < n ==> #[trigger] sweeps(st, n, m).0(r, c) == Complex::<T>::spec_zero(),
    decreases m,
{
    if m > 0 {
        lemma_sweeps_shape(st, n, (m - 1) as nat);
        let prev = sweeps(st, n, (m - 1) as nat);
        let i = m - 1;
        lemma_sweep_shape(prev, n, i, (n - 2 - i) as nat);
        assert forall|r: int, c: int| 0 <= c < m && c + 1 < r < n implies #[trigger] sweeps(st, n, m).0(r, c) == Complex::<T>::spec_zero() by {
            if c < i {
                assert(prev.0(r, c) == Complex::<T>::spec_zero());
            }
        }
    }
}

/// The reduction gives an upper Hessenberg `H`; and, when no column of
/// `B` had its reflection skipped (a coefficient that equals zero), an
/// upper triangular `R`.
pub proof fn lemma_ght_forms<T: Scalar>(a: spec_fn(int, int) -> Complex<T>, b: spec_fn(int, int) -> Complex<T>, n: nat)
    ensures
        is_hessenberg(ght(a, b, n).0, n as int),
        no_skipped_column(a, b, n) ==> is_triangular(ght(a, b, n).1, n as int),
{
    let p = house_state(a, b, n as int, n);
    let st0: Quad<T> = (p.0, p.1, p.2, eye());
    if no_skipped_column(a, b, n) {
        lemma_house_zeros(a, b, n, n);
        assert(is_triangular(st0.1, n as int));
    }
    lemma_sweeps_shape(st0, n as int, sweep_count(n));
    assert forall|i: int, j: int| 0 <= j && j + 1 < i < n implies #[trigger] ght(a, b, n).0(i, j) == Complex::<T>::spec_zero() by {
        assert(j < sweep_count(n));
    }
}

} // verus!
