//! Eigendecomposition of selfadjoint matrices.

use crate::decompositions::lu::{grid, holds};
use crate::decompositions::qr::{hh_dot, reflect};
use crate::decompositions::tridiagonal::{shifted, tri_q, tri_state, Tridiagonalization};
use crate::matrix::Matrix;
use crate::complex::square_sum_rules;
use crate::scalar::{Scalar, field_rules, lemma_field, lt_strict_partial};
use vstd::prelude::*;

verus! {

/// The outcome of an iterative decomposition.
#[derive(Clone, Copy, Debug, PartialEq, Eq, Structural)]
pub enum ComputationInfo {
    Success,
    NumericalIssue,
    NoConvergence,
    InvalidInput,
}

/// The first index of a value strictly smaller than all values before it
/// among `vals[i .. m]` (the first minimum), scanning from `i`.
pub open spec fn first_min<T: Scalar>(vals: Seq<T>, i: int, m: int) -> int
    decreases m - i,
{
    if m <= i + 1 {
        i
    } else {
        let p = first_min(vals, i, m - 1);
        if vals[m - 1].spec_lt(vals[p]) {
            m - 1
        } else {
            p
        }
    }
}

/// `v` with columns `a` and `b` exchanged in rows `0 .. n`.
pub open spec fn swap_columns<T>(v: spec_fn(int, int) -> T, a: int, b: int, n: int) -> spec_fn(
    int,
    int,
) -> T {
    |r: int, c: int|
        if r < n && c == a {
            v(r, b)
        } else if r < n && c == b {
            v(r, a)
        } else {
            v(r, c)
        }
}

/// Selection sort of the first `n` values after `k` passes: pass `i`
/// exchanges value `i` with the first minimum of `vals[i .. n]`, and the
/// corresponding columns of `v` (rows `0 .. n`).
pub open spec fn sel_sort<T: Scalar>(vals: Seq<T>, v: spec_fn(int, int) -> T, n: nat, k: nat) -> (
    Seq<T>,
    spec_fn(int, int) -> T,
)
    decreases k,
{
    if k == 0 {
        (vals, v)
    } else {
        let prev = sel_sort(vals, v, n, (k - 1) as nat);
        let i = k - 1;
        let mi = first_min(prev.0, i, n as int);
        if mi != i {
            (
                prev.0.update(i, prev.0[mi]).update(mi, prev.0[i]),
                swap_columns(prev.1, i, mi, n as int),
            )
        } else {
            prev
        }
    }
}

/// The first `n` entries of column 0 of `m`.
pub open spec fn col0<T>(m: Matrix<T>, n: nat) -> Seq<T> {
    Seq::new(n, |i: int| m.at(i, 0))
}

/// `a` is not below `b` in the strict order of the type.
pub open spec fn not_below<T: Scalar>(a: T, b: T) -> bool {
    !a.spec_lt(b)
}

/// The first minimum is in range and no value of the range is below it.
pub proof fn lemma_first_min<T: Scalar>(vals: Seq<T>, i: int, m: int)
    requires
        lt_strict_partial::<T>(),
        0 <= i < m <= vals.len(),
    ensures
        i <= first_min(vals, i, m) < m,
        forall|q: int| i <= q < m ==> not_below(#[trigger] vals[q], vals[first_min(vals, i, m)]),
    decreases m - i,
{
    if m > i + 1 {
        lemma_first_min(vals, i, m - 1);
        let p = first_min(vals, i, m - 1);
        if vals[m - 1].spec_lt(vals[p]) {
            assert forall|q: int| i <= q < m implies not_below(#[trigger] vals[q], vals[m - 1]) by {
                if q < m - 1 && vals[q].spec_lt(vals[m - 1]) {
                    assert(vals[q].spec_lt(vals[p]));
                }
                if q == m - 1 {
                    assert(!vals[q].spec_lt(vals[q]));
                }
            }
        }
    } else {
        assert(!vals[i].spec_lt(vals[i]));
    }
}

/// Exchanging two entries keeps the multiset of a sequence.
pub proof fn lemma_swap_multiset<T>(s: Seq<T>, i: int, j: int)
    requires
        0 <= i < s.len(),
        0 <= j < s.len(),
        i != j,
    ensures
        s.update(i, s[j]).update(j, s[i]).to_multiset() == s.to_multiset(),
{
    broadcast use vstd::seq_lib::group_to_multiset_ensures, vstd::multiset::group_multiset_axioms;
    let s1 = s.update(i, s[j]);
    assert(s1[j] == s[j]);
    let m = s.to_multiset();
    assert(s1.to_multiset() == m.insert(s[j]).remove(s[i]));
    assert(s1.update(j, s[i]).to_multiset() == s1.to_multiset().insert(s[i]).remove(s[j]));
    assert(m.insert(s[j]).remove(s[i]).insert(s[i]).remove(s[j]) =~= m);
}

/// Selection sort keeps the number of values; after `k` passes the first
/// `k` values are in order, none of them above any later value, and the
/// values are a rearrangement of the original ones.
pub proof fn lemma_sel_sort_progress<T: Scalar>(vals: Seq<T>, v: spec_fn(int, int) -> T, n: nat, k: nat)
    requires
        lt_strict_partial::<T>(),
        vals.len() == n,
        k <= n,
    ensures
        sel_sort(vals, v, n, k).0.len() == n,
        sel_sort(vals, v, n, k).0.to_multiset() == vals.to_multiset(),
        forall|a: int, b: int|
            0 <= a < b < n && a < k ==> not_below(
                #[trigger] sel_sort(vals, v, n, k).0[b],
                #[trigger] sel_sort(vals, v, n, k).0[a],
            ),
    decreases k,
{
    if k > 0 {
        let km = (k - 1) as nat;
        lemma_sel_sort_progress(vals, v, n, km);
        let prev = sel_sort(vals, v, n, km);
        let s = prev.0;
        let i = km as int;
        lemma_first_min(s, i, n as int);
        let mi = first_min(s, i, n as int);
        let t = sel_sort(vals, v, n, k).0;
        if mi != i {
            let t2 = s.update(i, s[mi]).update(mi, s[i]);
            assert(t == t2);
            lemma_swap_multiset(s, i, mi);
            assert forall|a: int, b: int| 0 <= a < b < n && a < k implies not_below(
                #[trigger] t[b],
                #[trigger] t[a],
            ) by {
                if a < i {
                    let sb = if b == mi { i } else if b == i { mi } else { b };
                    assert(t[b] == s[sb]);
                    assert(t[a] == s[a]);
                } else {
                    assert(a == i);
                    assert(t[a] == s[mi]);
                    let sb = if b == mi { i } else { b };
                    assert(t[b] == s[sb]);
                }
            }
        } else {
            assert forall|a: int, b: int| 0 <= a < b < n && a < k implies not_below(
                #[trigger] t[b],
                #[trigger] t[a],
            ) by {
                if a == i {
                    assert(t[b] == s[b]);
                }
            }
        }
    }
}

/// `1 / 2`, the factor one half.
pub open spec fn half<T: Scalar>() -> T {
    T::spec_from_usize(1).spec_over(T::spec_from_usize(2))
}

/// `-1`, as the negation of one.
pub open spec fn minus_one<T: Scalar>() -> T {
    T::spec_from_usize(1).spec_negate()
}

/// Columns `k` and `k + 1` of `v` (rows `0 .. nt`) rotated by `(c, s)`:
/// `c v_k + s v_{k+1}` and `(-s) v_k + c v_{k+1}`.
pub open spec fn rotate_columns<T: Scalar>(v: spec_fn(int, int) -> T, k: int, c: T, s: T, nt: int) -> spec_fn(
    int,
    int,
) -> T {
    |i: int, j: int|
        if i < nt && j == k {
            c.spec_times(v(i, k)).spec_plus(s.spec_times(v(i, k + 1)))
        } else if i < nt && j == k + 1 {
            s.spec_negate().spec_times(v(i, k)).spec_plus(c.spec_times(v(i, k + 1)))
        } else {
            v(i, j)
        }
}

/// The Givens rotation `(c, s)` with `r = sqrt(f^2 + g^2)`: `(1, 0)` when
/// `r` equals zero, `(f / r, g / r)` otherwise.
pub open spec fn givens<T: Scalar>(f: T, g: T) -> (T, T) {
    let r = f.spec_times(f).spec_plus(g.spec_times(g)).spec_sqrt();
    if r.spec_eq(T::spec_zero()) {
        (T::spec_from_usize(1), T::spec_zero())
    } else {
        (f.spec_over(r), g.spec_over(r))
    }
}

/// Under the rules of exact arithmetic, every Givens rotation of the sweeps
/// is orthogonal, `c^2 + s^2 = 1`, and when `r` is not zero it turns
/// `(f, g)` into `(r, 0)`: `c f + s g = r` and `c g - s f = 0`.
pub proof fn lemma_givens_orthogonal<T: Scalar>(f: T, g: T)
    requires
        field_rules::<T>(),
        square_sum_rules::<T>(),
    ensures
        ({
            let (c, s) = givens(f, g);
            let r = f.spec_times(f).spec_plus(g.spec_times(g)).spec_sqrt();
            &&& c.spec_times(c).spec_plus(s.spec_times(s)) == T::spec_from_usize(1)
            &&& !r.spec_eq(T::spec_zero()) ==> c.spec_times(f).spec_plus(s.spec_times(g)) == r
            &&& !r.spec_eq(T::spec_zero()) ==> c.spec_times(g).spec_minus(s.spec_times(f)) == T::spec_zero()
        }),
{
    let one = T::spec_from_usize(1);
    let zero = T::spec_zero();
    let ff = f.spec_times(f);
    let gg = g.spec_times(g);
    let q = ff.spec_plus(gg);
    let r = q.spec_sqrt();
    if r.spec_eq(zero) {
        lemma_field(one, one, one);
        lemma_field(zero, zero, zero);
        lemma_field(one, zero, zero);
    } else {
        let k = one.spec_over(r);
        let kk = k.spec_times(k);
        lemma_field(f, r, r);
        lemma_field(g, r, r);
        let c = f.spec_times(k);
        let s = g.spec_times(k);
        // (f k)(f k) = (f f)(k k), and the same for g
        lemma_field(f, k, f.spec_times(k));
        lemma_field(k, f, k);
        lemma_field(f, k, k);
        lemma_field(f, f, kk);
        lemma_field(g, k, g.spec_times(k));
        lemma_field(k, g, k);
        lemma_field(g, k, k);
        lemma_field(g, g, kk);
        assert(c.spec_times(c) == ff.spec_times(kk));
        assert(s.spec_times(s) == gg.spec_times(kk));
        lemma_field(ff, gg, kk);
        assert(!q.spec_lt(zero));
        lemma_field(q, zero, zero);
        lemma_field(r, r, kk);
        lemma_field(r, k, k);
        lemma_field(one, k, k);
        lemma_field(k, one, one);
        assert(r.spec_times(r) == q);
        assert(r.spec_times(k) == one);
        assert(r.spec_times(kk) == k);
        assert(q.spec_times(kk) == one);
        // c f + s g = (f f + g g) k = r (r k) = r
        lemma_field(f, k, f);
        lemma_field(f, f, k);
        lemma_field(g, k, g);
        lemma_field(g, g, k);
        lemma_field(ff, gg, k);
        lemma_field(r, r, k);
        lemma_field(r, one, one);
        assert(c.spec_times(f) == ff.spec_times(k));
        assert(s.spec_times(g) == gg.spec_times(k));
        assert(q.spec_times(k) == r);
        // c g - s f = f (k g) - g (k f) = 0
        lemma_field(f, k, g);
        lemma_field(k, g, g);
        lemma_field(f, g.spec_times(k), g);
        lemma_field(c.spec_times(g), c.spec_times(g), c.spec_times(g));
        assert(c.spec_times(g) == s.spec_times(f));
    }
}

/// The implicit QR sweep over the unreduced block `start ..= end` of the
/// tridiagonal matrix with diagonal `d` and subdiagonal `e`, from position
/// `k` on, with the bulge `(f, g)`; the eigenvector columns (rows
/// `0 .. nt`) are rotated along when `has_v` holds.
pub open spec fn sweep<T: Scalar>(
    d: Seq<T>,
    e: Seq<T>,
    v: spec_fn(int, int) -> T,
    f: T,
    g: T,
    start: int,
    k: int,
    end: int,
    has_v: bool,
    nt: int,
) -> (Seq<T>, Seq<T>, spec_fn(int, int) -> T)
    decreases end - k,
{
    if k >= end {
        (d, e, v)
    } else {
        let r = f.spec_times(f).spec_plus(g.spec_times(g)).spec_sqrt();
        let c = givens(f, g).0;
        let s = givens(f, g).1;
        let e0 = if k > start {
            e.update(k - 1, r)
        } else {
            e
        };
        let d1 = d[k];
        let d2 = d[k + 1];
        let e1 = e0[k];
        let c2 = c.spec_times(c);
        let s2 = s.spec_times(s);
        let cs = c.spec_times(s);
        let two = T::spec_from_usize(2);
        let dn = d.update(k, c2.spec_times(d1).spec_plus(s2.spec_times(d2)).spec_plus(two.spec_times(cs).spec_times(e1))).update(
            k + 1,
            s2.spec_times(d1).spec_plus(c2.spec_times(d2)).spec_minus(two.spec_times(cs).spec_times(e1)),
        );
        let en = e0.update(k, c2.spec_minus(s2).spec_times(e1).spec_plus(cs.spec_times(d2.spec_minus(d1))));
        let vn = if has_v {
            rotate_columns(v, k, c, s, nt)
        } else {
            v
        };
        if k < end - 1 {
            let e_next = en[k + 1];
            sweep(dn, en.update(k + 1, c.spec_times(e_next)), vn, en[k], s.spec_times(e_next), start, k + 1, end, has_v, nt)
        } else {
            sweep(dn, en, vn, f, g, start, k + 1, end, has_v, nt)
        }
    }
}

/// A sweep keeps the lengths of the diagonal and subdiagonal.
pub proof fn lemma_sweep_len<T: Scalar>(
    d: Seq<T>,
    e: Seq<T>,
    v: spec_fn(int, int) -> T,
    f: T,
    g: T,
    start: int,
    k: int,
    end: int,
    has_v: bool,
    nt: int,
)
    requires
        0 <= start <= k,
        end < d.len(),
        e.len() + 1 == d.len(),
    ensures
        sweep(d, e, v, f, g, start, k, end, has_v, nt).0.len() == d.len(),
        sweep(d, e, v, f, g, start, k, end, has_v, nt).1.len() == e.len(),
    decreases end - k,
{
    if k < end {
        let r = f.spec_times(f).spec_plus(g.spec_times(g)).spec_sqrt();
        let c = givens(f, g).0;
        let s = givens(f, g).1;
        let e0 = if k > start {
            e.update(k - 1, r)
        } else {
            e
        };
        let d1 = d[k];
        let d2 = d[k + 1];
        let e1 = e0[k];
        let c2 = c.spec_times(c);
        let s2 = s.spec_times(s);
        let cs = c.spec_times(s);
        let two = T::spec_from_usize(2);
        let dn = d.update(k, c2.spec_times(d1).spec_plus(s2.spec_times(d2)).spec_plus(two.spec_times(cs).spec_times(e1))).update(
            k + 1,
            s2.spec_times(d1).spec_plus(c2.spec_times(d2)).spec_minus(two.spec_times(cs).spec_times(e1)),
        );
        let en = e0.update(k, c2.spec_minus(s2).spec_times(e1).spec_plus(cs.spec_times(d2.spec_minus(d1))));
        let vn = if has_v {
            rotate_columns(v, k, c, s, nt)
        } else {
            v
        };
        if k < end - 1 {
            let e_next = en[k + 1];
            lemma_sweep_len(dn, en.update(k + 1, c.spec_times(e_next)), vn, en[k], s.spec_times(e_next), start, k + 1, end, has_v, nt);
        } else {
            lemma_sweep_len(dn, en, vn, f, g, start, k + 1, end, has_v, nt);
        }
    }
}

/// One implicit QR step with Wilkinson shift on the block `start ..= end`.
pub open spec fn qr_step_result<T: Scalar>(
    d: Seq<T>,
    e: Seq<T>,
    v: spec_fn(int, int) -> T,
    start: int,
    end: int,
    has_v: bool,
    nt: int,
) -> (Seq<T>, Seq<T>, spec_fn(int, int) -> T) {
    let d_last = d[end];
    let e2 = e[end - 1].spec_times(e[end - 1]);
    let td = d[end - 1].spec_minus(d_last).spec_times(half::<T>());
    let sign_td = if T::spec_zero().spec_le(td) {
        T::spec_from_usize(1)
    } else {
        minus_one::<T>()
    };
    let mu = d_last.spec_minus(e2.spec_over(td.spec_plus(sign_td.spec_times(td.spec_times(td).spec_plus(e2).spec_sqrt()))));
    sweep(d, e, v, d[start].spec_minus(mu), e[start], start, start, end, has_v, nt)
}

/// Subdiagonal entries `0 .. end` that are negligible next to their
/// diagonal neighbours (`|e[i]| <= eps (|d[i]| + |d[i+1]|)`) set to zero.
pub open spec fn deflate<T: Scalar>(d: Seq<T>, e: Seq<T>, end: int, eps: T) -> Seq<T> {
    Seq::new(
        e.len(),
        |i: int|
            if i < end && e[i].spec_abs().spec_le(eps.spec_times(d[i].spec_abs().spec_plus(d[i + 1].spec_abs()))) {
                T::spec_zero()
            } else {
                e[i]
            },
    )
}

/// `end` lowered past the trailing subdiagonal entries equal to zero.
pub open spec fn shrink<T: Scalar>(e: Seq<T>, end: int) -> int
    decreases end,
{
    if end > 0 && e[end - 1].spec_eq(T::spec_zero()) {
        shrink(e, end - 1)
    } else {
        end
    }
}

/// `start` lowered past the subdiagonal entries different from zero.
pub open spec fn grow<T: Scalar>(e: Seq<T>, start: int) -> int
    decreases start,
{
    if start > 0 && !e[start - 1].spec_eq(T::spec_zero()) {
        grow(e, start - 1)
    } else {
        start
    }
}

/// The QR iteration on the tridiagonal matrix from the active end `end`
/// and `iter` iterations done: deflate, lower `end`, stop when nothing is
/// left (converged) or after `max` iterations (not converged), otherwise
/// perform one QR step on the last unreduced block. Returns the diagonal,
/// subdiagonal, eigenvectors and whether it converged.
pub open spec fn tq_loop<T: Scalar>(
    d: Seq<T>,
    e: Seq<T>,
    v: spec_fn(int, int) -> T,
    end: int,
    iter: nat,
    max: nat,
    eps: T,
    has_v: bool,
    nt: int,
) -> (Seq<T>, Seq<T>, spec_fn(int, int) -> T, bool)
    decreases max - iter,
{
    if end <= 0 {
        (d, e, v, true)
    } else {
        let e1 = deflate(d, e, end, eps);
        let end2 = shrink(e1, end);
        if end2 <= 0 {
            (d, e1, v, true)
        } else if iter + 1 > max {
            (d, e1, v, false)
        } else {
            let start = grow(e1, end2 - 1);
            let st = qr_step_result(d, e1, v, start, end2, has_v, nt);
            tq_loop(st.0, st.1, st.2, end2, iter + 1, max, eps, has_v, nt)
        }
    }
}

/// The eigenvalues `(l1, l2)` of the selfadjoint `2 x 2` matrix with
/// entries `a = m(0,0)`, `b = m(1,0)`, `d = m(1,1)`:
/// `((a + d) - disc) / 2` and `((a + d) + disc) / 2` with
/// `disc = sqrt((a - d)^2 + 4 b b)`.
pub open spec fn eig2_values<T: Scalar>(m: Matrix<T>) -> (T, T) {
    let a = m.at(0, 0);
    let b = m.at(1, 0);
    let d = m.at(1, 1);
    let trace = a.spec_plus(d);
    let gap = a.spec_minus(d);
    let disc = gap.spec_times(gap).spec_plus(T::spec_from_usize(4).spec_times(b).spec_times(b)).spec_sqrt();
    (trace.spec_minus(disc).spec_times(half::<T>()), trace.spec_plus(disc).spec_times(half::<T>()))
}

/// `tau = (a - d) / (2 b)` of the `2 x 2` case.
pub open spec fn eig2_tau<T: Scalar>(m: Matrix<T>) -> T {
    m.at(0, 0).spec_minus(m.at(1, 1)).spec_over(T::spec_from_usize(2).spec_times(m.at(1, 0)))
}

/// The rotation `(c, s)` of the `2 x 2` eigenvectors: with `tau` as in
/// `eig2_tau`, `t = 1 / (tau + sqrt(1 + tau^2))` when `tau` is at least
/// zero and `-1 / (|tau| + sqrt(1 + tau^2))` otherwise,
/// `c = 1 / sqrt(1 + t^2)` and `s = t c`. `(c, s)` is an eigenvector for
/// `a + t b`, `(-s, c)` one for `d - t b`.
pub open spec fn eig2_rotation<T: Scalar>(m: Matrix<T>) -> (T, T) {
    let one = T::spec_from_usize(1);
    let tau = eig2_tau(m);
    let root = one.spec_plus(tau.spec_times(tau)).spec_sqrt();
    let t = if T::spec_zero().spec_le(tau) {
        one.spec_over(tau.spec_plus(root))
    } else {
        minus_one::<T>().spec_over(tau.spec_abs().spec_plus(root))
    };
    let c = one.spec_plus(t.spec_times(t)).spec_sqrt().spec_recip();
    (c, t.spec_times(c))
}

/// The eigenvectors of the `2 x 2` case, as columns in the order of
/// `eig2_values`. When `b` equals zero they are the unit vectors (the
/// images of one and zero), swapped when `0 < a - d`. Otherwise they are
/// `(c, s)` and `(-s, c)` (see `eig2_rotation`); `(c, s)` belongs to the
/// larger eigenvalue, and so comes second, when `0 < b` and `0 <= tau`
/// agree.
pub open spec fn eig2_vectors<T: Scalar>(m: Matrix<T>) -> spec_fn(int, int) -> T {
    let cs = eig2_rotation(m);
    let zero = T::spec_zero();
    let one = T::spec_from_usize(1);
    let b = m.at(1, 0);
    if b.spec_eq(zero) {
        let swap = zero.spec_lt(m.at(0, 0).spec_minus(m.at(1, 1)));
        |i: int, j: int|
            if (i == j) != swap {
                one
            } else {
                zero
            }
    } else {
        let second = zero.spec_lt(b) == zero.spec_le(eig2_tau(m));
        |i: int, j: int|
            if (j == 1) == second {
                if i == 0 {
                    cs.0
                } else {
                    cs.1
                }
            } else if i == 0 {
                cs.1.spec_negate()
            } else {
                cs.0
            }
    }
}

/// The shift (mean of the diagonal) of the `3 x 3` case.
pub open spec fn eig3_shift<T: Scalar>(m: Matrix<T>) -> T {
    m.at(0, 0).spec_plus(m.at(1, 1)).spec_plus(m.at(2, 2)).spec_over(T::spec_from_usize(3))
}

/// The Frobenius-type norm of the shifted `3 x 3` matrix.
pub open spec fn eig3_norm<T: Scalar>(m: Matrix<T>) -> T {
    let shift = eig3_shift(m);
    let s00 = m.at(0, 0).spec_minus(shift);
    let s11 = m.at(1, 1).spec_minus(shift);
    let s22 = m.at(2, 2).spec_minus(shift);
    let m10 = m.at(1, 0);
    let m20 = m.at(2, 0);
    let m21 = m.at(2, 1);
    s00.spec_times(s00).spec_plus(s11.spec_times(s11)).spec_plus(s22.spec_times(s22)).spec_plus(
        T::spec_from_usize(2).spec_times(m10.spec_times(m10).spec_plus(m20.spec_times(m20)).spec_plus(m21.spec_times(m21))),
    ).spec_sqrt()
}

/// The shifted `3 x 3` matrix is negligible: its norm is below epsilon.
pub open spec fn eig3_tiny<T: Scalar>(m: Matrix<T>) -> bool {
    eig3_norm(m).spec_lt(T::spec_epsilon())
}

/// The three roots of the characteristic polynomial of the shifted and
/// scaled `3 x 3` matrix, by the trigonometric formula, in the order
/// `-rho (cos + sqrt3 sin)`, `-rho (cos - sqrt3 sin)`, `2 rho cos`.
pub open spec fn eig3_roots<T: Scalar>(m: Matrix<T>) -> Seq<T> {
    let shift = eig3_shift(m);
    let scale = eig3_norm(m);
    let a00 = m.at(0, 0).spec_minus(shift).spec_over(scale);
    let a10 = m.at(1, 0).spec_over(scale);
    let a20 = m.at(2, 0).spec_over(scale);
    let a11 = m.at(1, 1).spec_minus(shift).spec_over(scale);
    let a21 = m.at(2, 1).spec_over(scale);
    let a22 = m.at(2, 2).spec_minus(shift).spec_over(scale);
    let two = T::spec_from_usize(2);
    let three = T::spec_from_usize(3);
    let c0 = a00.spec_times(a11).spec_times(a22).spec_plus(two.spec_times(a10).spec_times(a20).spec_times(a21)).spec_minus(
        a00.spec_times(a21).spec_times(a21),
    ).spec_minus(a11.spec_times(a20).spec_times(a20)).spec_minus(a22.spec_times(a10).spec_times(a10));
    let c1 = a00.spec_times(a11).spec_minus(a10.spec_times(a10)).spec_plus(a00.spec_times(a22)).spec_minus(
        a20.spec_times(a20),
    ).spec_plus(a11.spec_times(a22)).spec_minus(a21.spec_times(a21));
    let a_over_3 = c1.spec_negate().spec_over(three);
    let half_b = c0.spec_times(half::<T>());
    let q = a_over_3.spec_times(a_over_3).spec_times(a_over_3).spec_minus(half_b.spec_times(half_b));
    let q_clamped = if T::spec_zero().spec_lt(q) {
        q
    } else {
        T::spec_zero()
    };
    let rho = a_over_3.spec_sqrt();
    let theta = q_clamped.spec_sqrt().spec_atan2(half_b).spec_over(three);
    let cos_theta = theta.spec_cos();
    let sin_theta = theta.spec_sin();
    let sqrt3 = three.spec_sqrt();
    seq![
        rho.spec_negate().spec_times(cos_theta.spec_plus(sqrt3.spec_times(sin_theta))),
        rho.spec_negate().spec_times(cos_theta.spec_minus(sqrt3.spec_times(sin_theta))),
        two.spec_times(rho).spec_times(cos_theta),
    ]
}

/// Insertion of entry `i` into the sorted prefix before it: exchanged with
/// its left neighbour while strictly below it.
pub open spec fn insert_left<T: Scalar>(s: Seq<T>, j: int) -> Seq<T>
    decreases j,
{
    if j > 0 && s[j].spec_lt(s[j - 1]) {
        insert_left(s.update(j - 1, s[j]).update(j, s[j - 1]), j - 1)
    } else {
        s
    }
}

/// Insertion sort of the first `k` entries (stable).
pub open spec fn insertion_sort<T: Scalar>(s: Seq<T>, k: nat) -> Seq<T>
    decreases k,
{
    if k <= 1 {
        s
    } else {
        insert_left(insertion_sort(s, (k - 1) as nat), k - 1)
    }
}

/// The eigenvalues of the `3 x 3` case: the sorted roots, each times the
/// scale plus the shift.
pub open spec fn eig3_values<T: Scalar>(m: Matrix<T>) -> Seq<T> {
    let r = insertion_sort(eig3_roots(m), 3);
    Seq::new(3, |i: int| r[i].spec_times(eig3_norm(m)).spec_plus(eig3_shift(m)))
}

/// `g1` and `g2` agree on rows `0 .. r` and columns `0 .. c`.
pub open spec fn agree<T>(g1: spec_fn(int, int) -> T, g2: spec_fn(int, int) -> T, r: int, c: int) -> bool {
    forall|i: int, j: int| 0 <= i < r && 0 <= j < c ==> #[trigger] g1(i, j) == g2(i, j)
}

/// The Householder dot product of step `k` reads column `k` of the vector
/// grid below row `k` and column `j` of the operand in rows `k .. m`.
pub proof fn lemma_hh_dot_agree<T: Scalar>(
    w1: spec_fn(int, int) -> T,
    w2: spec_fn(int, int) -> T,
    x1: spec_fn(int, int) -> T,
    x2: spec_fn(int, int) -> T,
    k: int,
    j: int,
    m: int,
    conj: bool,
    cols: int,
)
    requires
        0 <= k < m,
        0 <= j < cols,
        forall|r: int| k < r < m ==> #[trigger] w1(r, k) == w2(r, k),
        agree(x1, x2, m, cols),
    ensures
        hh_dot(w1, x1, k, j, m, conj) == hh_dot(w2, x2, k, j, m, conj),
    decreases m - k,
{
    if m > k + 1 {
        lemma_hh_dot_agree(w1, w2, x1, x2, k, j, m - 1, conj, cols);
        assert(x1(m - 1, j) == x2(m - 1, j));
        assert(w1(m - 1, k) == w2(m - 1, k));
    } else {
        assert(x1(k, j) == x2(k, j));
    }
}

/// A reflection reads its vector below row `k` and its operand in rows
/// `0 .. m` only.
proof fn lemma_reflect_agree<T: Scalar>(
    w1: spec_fn(int, int) -> T,
    w2: spec_fn(int, int) -> T,
    tau: T,
    x1: spec_fn(int, int) -> T,
    x2: spec_fn(int, int) -> T,
    k: int,
    m: int,
    lo: int,
    conj: bool,
    cols: int,
)
    requires
        0 <= k < m,
        forall|r: int| k < r < m ==> #[trigger] w1(r, k) == w2(r, k),
        agree(x1, x2, m, cols),
    ensures
        agree(reflect(w1, tau, x1, k, m, lo, conj), reflect(w2, tau, x2, k, m, lo, conj), m, cols),
{
    assert forall|i: int, j: int| 0 <= i < m && 0 <= j < cols implies #[trigger] reflect(
        w1,
        tau,
        x1,
        k,
        m,
        lo,
        conj,
    )(i, j) == reflect(w2, tau, x2, k, m, lo, conj)(i, j) by {
        lemma_hh_dot_agree(w1, w2, x1, x2, k, j, m, conj, cols);
        assert(x1(i, j) == x2(i, j));
        assert(x1(k, j) == x2(k, j));
        if k < i {
            assert(w1(i, k) == w2(i, k));
        }
    }
}

/// `Q` of the tridiagonal decomposition reads the packed matrix in the
/// square `0 .. n` only.
proof fn lemma_tri_q_agree<T: Scalar>(p1: spec_fn(int, int) -> T, p2: spec_fn(int, int) -> T, h: Seq<T>, n: int, m: nat)
    requires
        n >= 1,
        m <= n - 1,
        agree(p1, p2, n, n),
    ensures
        agree(tri_q(p1, h, n, m), tri_q(p2, h, n, m), n, n),
    decreases m,
{
    if m > 0 {
        lemma_tri_q_agree(p1, p2, h, n, (m - 1) as nat);
        let i = n - 1 - m;
        let w1 = shifted(p1);
        let w2 = shifted(p2);
        assert forall|r: int| i + 1 < r < n implies #[trigger] w1(r, i + 1) == w2(r, i + 1) by {
            assert(p1(r, i) == p2(r, i));
        }
        if !h[i].spec_eq(T::spec_zero()) {
            lemma_reflect_agree(
                w1,
                w2,
                h[i],
                tri_q(p1, h, n, (m - 1) as nat),
                tri_q(p2, h, n, (m - 1) as nat),
                i + 1,
                n,
                i + 1,
                false,
                n,
            );
        }
    }
}

/// A sweep computes the diagonal and subdiagonal without the eigenvectors,
/// and reads the eigenvectors in rows `0 .. nt` and columns `0 .. c` only
/// (for a block ending before `c - 1`); without eigenvectors it leaves them.
proof fn lemma_sweep_agree<T: Scalar>(
    d: Seq<T>,
    e: Seq<T>,
    v1: spec_fn(int, int) -> T,
    v2: spec_fn(int, int) -> T,
    f: T,
    g: T,
    start: int,
    k: int,
    end: int,
    has_v: bool,
    nt: int,
    c: int,
)
    requires
        0 <= k,
        end < c,
        agree(v1, v2, nt, c),
    ensures
        sweep(d, e, v1, f, g, start, k, end, has_v, nt).0 == sweep(d, e, v2, f, g, start, k, end, has_v, nt).0,
        sweep(d, e, v1, f, g, start, k, end, has_v, nt).1 == sweep(d, e, v2, f, g, start, k, end, has_v, nt).1,
        agree(sweep(d, e, v1, f, g, start, k, end, has_v, nt).2, sweep(d, e, v2, f, g, start, k, end, has_v, nt).2, nt, c),
        !has_v ==> sweep(d, e, v1, f, g, start, k, end, has_v, nt).2 == v1,
    decreases end - k,
{
    if k < end {
        let cs = givens(f, g);
        let r1 = rotate_columns(v1, k, cs.0, cs.1, nt);
        let r2 = rotate_columns(v2, k, cs.0, cs.1, nt);
        assert forall|i: int, j: int| 0 <= i < nt && 0 <= j < c implies #[trigger] r1(i, j) == r2(i, j) by {
            assert(v1(i, j) == v2(i, j));
            assert(v1(i, k) == v2(i, k));
            assert(v1(i, k + 1) == v2(i, k + 1));
        }
        let r = f.spec_times(f).spec_plus(g.spec_times(g)).spec_sqrt();
        let s = cs.1;
        let e0 = if k > start {
            e.update(k - 1, r)
        } else {
            e
        };
        let d1 = d[k];
        let d2 = d[k + 1];
        let e1 = e0[k];
        let cc = cs.0;
        let c2 = cc.spec_times(cc);
        let s2 = s.spec_times(s);
        let csp = cc.spec_times(s);
        let two = T::spec_from_usize(2);
        let dn = d.update(k, c2.spec_times(d1).spec_plus(s2.spec_times(d2)).spec_plus(two.spec_times(csp).spec_times(e1))).update(
            k + 1,
            s2.spec_times(d1).spec_plus(c2.spec_times(d2)).spec_minus(two.spec_times(csp).spec_times(e1)),
        );
        let en = e0.update(k, c2.spec_minus(s2).spec_times(e1).spec_plus(csp.spec_times(d2.spec_minus(d1))));
        let vn1 = if has_v { r1 } else { v1 };
        let vn2 = if has_v { r2 } else { v2 };
        if k < end - 1 {
            let e_next = en[k + 1];
            lemma_sweep_agree(dn, en.update(k + 1, cc.spec_times(e_next)), vn1, vn2, en[k], s.spec_times(e_next), start, k + 1, end, has_v, nt, c);
        } else {
            lemma_sweep_agree(dn, en, vn1, vn2, f, g, start, k + 1, end, has_v, nt, c);
        }
    }
}

/// `shrink` stays within `0 ..= end`.
proof fn lemma_shrink_bounds<T: Scalar>(e: Seq<T>, end: int)
    requires
        end >= 0,
    ensures
        0 <= shrink(e, end) <= end,
    decreases end,
{
    if end > 0 && e[end - 1].spec_eq(T::spec_zero()) {
        lemma_shrink_bounds(e, end - 1);
    }
}

/// `grow` stays within `0 ..= start`.
proof fn lemma_grow_bounds<T: Scalar>(e: Seq<T>, start: int)
    requires
        start >= 0,
    ensures
        0 <= grow(e, start) <= start,
    decreases start,
{
    if start > 0 && !e[start - 1].spec_eq(T::spec_zero()) {
        lemma_grow_bounds(e, start - 1);
    }
}

/// The QR iteration computes the eigenvalues and the convergence flag
/// without the eigenvectors, and reads the eigenvectors in rows `0 .. nt`
/// and columns `0 .. n` only; without eigenvectors it leaves them.
proof fn lemma_tq_agree<T: Scalar>(
    d: Seq<T>,
    e: Seq<T>,
    v1: spec_fn(int, int) -> T,
    v2: spec_fn(int, int) -> T,
    end: int,
    iter: nat,
    max: nat,
    eps: T,
    has_v: bool,
    nt: int,
)
    requires
        d.len() >= 1,
        e.len() + 1 == d.len(),
        end < d.len(),
        agree(v1, v2, nt, d.len() as int),
    ensures
        tq_loop(d, e, v1, end, iter, max, eps, has_v, nt).0 == tq_loop(d, e, v2, end, iter, max, eps, has_v, nt).0,
        tq_loop(d, e, v1, end, iter, max, eps, has_v, nt).3 == tq_loop(d, e, v2, end, iter, max, eps, has_v, nt).3,
        agree(tq_loop(d, e, v1, end, iter, max, eps, has_v, nt).2, tq_loop(d, e, v2, end, iter, max, eps, has_v, nt).2, nt, d.len() as int),
        !has_v ==> tq_loop(d, e, v1, end, iter, max, eps, has_v, nt).2 == v1,
    decreases max - iter,
{
    if end > 0 {
        let e1 = deflate(d, e, end, eps);
        let end2 = shrink(e1, end);
        lemma_shrink_bounds(e1, end);
        if end2 > 0 && iter + 1 <= max {
            let start = grow(e1, end2 - 1);
            lemma_grow_bounds(e1, end2 - 1);
            let dl = d[end2];
            let e2 = e1[end2 - 1].spec_times(e1[end2 - 1]);
            let td = d[end2 - 1].spec_minus(dl).spec_times(half::<T>());
            let sign_td = if T::spec_zero().spec_le(td) {
                T::spec_from_usize(1)
            } else {
                minus_one::<T>()
            };
            let mu = dl.spec_minus(e2.spec_over(td.spec_plus(sign_td.spec_times(td.spec_times(td).spec_plus(e2).spec_sqrt()))));
            let f = d[start].spec_minus(mu);
            let g = e1[start];
            lemma_sweep_agree(d, e1, v1, v2, f, g, start, start, end2, has_v, nt, d.len() as int);
            lemma_sweep_len(d, e1, v1, f, g, start, start, end2, has_v, nt);
            let st1 = qr_step_result(d, e1, v1, start, end2, has_v, nt);
            let st2 = qr_step_result(d, e1, v2, start, end2, has_v, nt);
            lemma_tq_agree(st1.0, st1.1, st1.2, st2.2, end2, iter + 1, max, eps, has_v, nt);
        }
    }
}

/// Selection sort reads the eigenvector columns `0 .. n` only.
proof fn lemma_sel_sort_agree<T: Scalar>(vals: Seq<T>, v1: spec_fn(int, int) -> T, v2: spec_fn(int, int) -> T, n: nat, k: nat, rows: int)
    requires
        k <= n,
        vals.len() == n,
        agree(v1, v2, rows, n as int),
    ensures
        sel_sort(vals, v1, n, k).0 == sel_sort(vals, v2, n, k).0,
        agree(sel_sort(vals, v1, n, k).1, sel_sort(vals, v2, n, k).1, rows, n as int),
    decreases k,
{
    if k > 0 {
        lemma_sel_sort_agree(vals, v1, v2, n, (k - 1) as nat, rows);
        let p1 = sel_sort(vals, v1, n, (k - 1) as nat);
        let p2 = sel_sort(vals, v2, n, (k - 1) as nat);
        let i = k - 1;
        let mi = first_min(p1.0, i, n as int);
        if mi != i {
            assert forall|r: int, c: int| 0 <= r < rows && 0 <= c < n implies #[trigger] swap_columns(p1.1, i, mi, n as int)(r, c)
                == swap_columns(p2.1, i, mi, n as int)(r, c) by {
                assert(p1.1(r, c) == p2.1(r, c));
                if r < n {
                    lemma_first_min_range(p1.0, i, n as int);
                    assert(p1.1(r, i) == p2.1(r, i));
                    assert(p1.1(r, mi) == p2.1(r, mi));
                }
            }
        }
    }
}

/// The first minimum lies in its range.
proof fn lemma_first_min_range<T: Scalar>(vals: Seq<T>, i: int, m: int)
    requires
        i < m,
    ensures
        i <= first_min(vals, i, m) < m,
    decreases m - i,
{
    if m > i + 1 {
        lemma_first_min_range(vals, i, m - 1);
    }
}

/// The diagonal, the subdiagonal and the orthogonal factor of the
/// tridiagonal decomposition of the `n x n` matrix `a` (`n >= 2`).
pub open spec fn general_input<T: Scalar>(a: Matrix<T>) -> (Seq<T>, Seq<T>, spec_fn(int, int) -> T) {
    let n = a.nrows();
    let st = tri_state(grid(a), n as int, (n - 1) as nat, (n - 1) as nat);
    (
        Seq::new(n, |i: int| st.0(i, i)),
        Seq::new((n - 1) as nat, |i: int| st.0(i + 1, i)),
        tri_q(st.0, st.1, n as int, (n - 1) as nat),
    )
}

/// The eigendecomposition of a selfadjoint matrix.
pub struct SelfAdjointEigenSolver<T> {
    eigenvectors: Option<Matrix<T>>,
    eigenvalues: Matrix<T>,
    info: ComputationInfo,
}

impl<T: Scalar> SelfAdjointEigenSolver<T> {
    /// The eigenvalues, in column 0.
    pub closed spec fn values(&self) -> Matrix<T> {
        self.eigenvalues
    }

    /// The eigenvectors, when computed.
    pub closed spec fn vectors(&self) -> Option<Matrix<T>> {
        self.eigenvectors
    }

    /// The status of the last computation.
    pub closed spec fn status(&self) -> ComputationInfo {
        self.info
    }

    /// Room for the decomposition of an `n x n` matrix: a well-formed
    /// eigenvalue column with at least `n` rows, and eigenvectors (when
    /// present) well formed with at least `n` rows and columns.
    pub open spec fn fits(&self, n: nat) -> bool {
        &&& self.values().wf()
        &&& self.values().nrows() >= n
        &&& self.values().ncols() == 1
        &&& (self.vectors() matches Some(v) ==> v.wf() && v.nrows() >= n && v.ncols() >= n)
    }

    /// Sorts the first `n` eigenvalues into ascending order by selection
    /// sort (the eigenvector columns follow); nothing happens unless the
    /// last computation succeeded.
    fn sort_eigenvalues(&mut self, n: usize)
        requires
            old(self).fits(n as nat),
        ensures
            final(self).fits(n as nat),
            final(self).status() == old(self).status(),
            final(self).values().same_shape(&old(self).values()),
            old(self).status() != ComputationInfo::Success ==> *final(self) == *old(self),
            old(self).status() == ComputationInfo::Success ==> {
                let v0 = match old(self).vectors() {
                    Some(v) => grid(v),
                    None => grid(old(self).values()),
                };
                let st = sel_sort(col0(old(self).values(), n as nat), v0, n as nat, n as nat);
                &&& col0(final(self).values(), n as nat) == st.0
                &&& forall|i: int| n <= i < old(self).values().nrows() ==> #[trigger] final(self).values().at(i, 0) == old(self).values().at(i, 0)
                &&& (old(self).vectors() is Some <==> final(self).vectors() is Some)
                &&& (final(self).vectors() matches Some(v) ==> v.same_shape(&old(self).vectors().unwrap()) && holds(v, st.1))
            },
    {
        if self.info != ComputationInfo::Success {
            return;
        }
        let ghost vals0 = col0(self.values(), n as nat);
        let ghost v0 = match self.vectors() {
            Some(v) => grid(v),
            None => grid(self.values()),
        };
        let ghost old_values = self.values();
        let mut i: usize = 0;
        while i < n
            invariant
                i <= n,
                self.fits(n as nat),
                self.status() == ComputationInfo::Success,
                self.values().same_shape(&old_values),
                vals0.len() == n,
                col0(self.values(), n as nat) == sel_sort(vals0, v0, n as nat, i as nat).0,
                forall|q: int| n <= q < old_values.nrows() ==> #[trigger] self.values().at(q, 0) == old_values.at(q, 0),
                (old(self).vectors() is Some <==> self.vectors() is Some),
                self.vectors() matches Some(v) ==> v.same_shape(&old(self).vectors().unwrap()) && holds(
                    v,
                    sel_sort(vals0, v0, n as nat, i as nat).1,
                ),
            decreases n - i,
        {
            let ghost st = sel_sort(vals0, v0, n as nat, i as nat);
            let mut min_idx = i;
            let mut j = i + 1;
            while j < n
                invariant
                    i < j <= n,
                    self.fits(n as nat),
                    col0(self.values(), n as nat) == st.0,
                    st.0.len() == n,
                    min_idx as int == first_min(st.0, i as int, j as int),
                    i <= min_idx < j,
                decreases n - j,
            {
                assert(self.eigenvalues.in_bounds(j as int, 0));
                assert(self.eigenvalues.in_bounds(min_idx as int, 0));
                let val_j = self.eigenvalues.entry(j, 0);
                let val_min = self.eigenvalues.entry(min_idx, 0);
                assert(val_j == st.0[j as int]);
                assert(val_min == st.0[min_idx as int]);
                if val_j.is_lt(val_min) {
                    min_idx = j;
                }
                j = j + 1;
            }
            if min_idx != i {
                assert(self.eigenvalues.in_bounds(i as int, 0));
                assert(self.eigenvalues.in_bounds(min_idx as int, 0));
                let temp = self.eigenvalues.entry(i, 0);
                let other = self.eigenvalues.entry(min_idx, 0);
                let ghost e0 = self.eigenvalues;
                self.eigenvalues.set(i, 0, other);
                let ghost e1 = self.eigenvalues;
                self.eigenvalues.set(min_idx, 0, temp);
                proof {
                    assert(col0(self.values(), n as nat) =~= sel_sort(vals0, v0, n as nat, (i + 1) as nat).0) by {
                        assert forall|q: int| 0 <= q < n implies #[trigger] self.values().at(q, 0)
                            == sel_sort(vals0, v0, n as nat, (i + 1) as nat).0[q] by {
                            assert(e0.in_bounds(q, 0));
                            assert(e1.in_bounds(q, 0));
                            assert(self.eigenvalues.in_bounds(q, 0));
                            assert(e0.at(q, 0) == st.0[q]);
                        }
                    }
                    assert forall|q: int| n <= q < old_values.nrows() implies #[trigger] self.values().at(q, 0)
                        == old_values.at(q, 0) by {
                        assert(e0.in_bounds(q, 0));
                        assert(e1.in_bounds(q, 0));
                        assert(self.eigenvalues.in_bounds(q, 0));
                    }
                }
                match self.eigenvectors {
                    Some(ref mut vecs) => {
                        let ghost g = st.1;
                        let ghost gn = swap_columns(g, i as int, min_idx as int, n as int);
                        let ghost shape = *vecs;
                        let mut row: usize = 0;
                        while row < n
                            invariant
                                row <= n,
                                i < n,
                                min_idx < n,
                                min_idx != i,
                                vecs.wf(),
                                vecs.nrows() >= n,
                                vecs.ncols() >= n,
                                vecs.same_shape(&shape),
                                gn == swap_columns(g, i as int, min_idx as int, n as int),
                                forall|r: int, c: int| #[trigger]
                                    vecs.in_bounds(r, c) ==> vecs.at(r, c) == if r < row {
                                        gn(r, c)
                                    } else {
                                        g(r, c)
                                    },
                            decreases n - row,
                        {
                            let ghost before = *vecs;
                            assert(vecs.in_bounds(row as int, i as int));
                            assert(vecs.in_bounds(row as int, min_idx as int));
                            let v1 = vecs.entry(row, i);
                            let v2 = vecs.entry(row, min_idx);
                            vecs.set(row, i, v2);
                            let ghost mid = *vecs;
                            vecs.set(row, min_idx, v1);
                            proof {
                                assert forall|r: int, c: int| #[trigger] vecs.in_bounds(r, c) implies vecs.at(r, c)
                                    == if r < row + 1 {
                                    gn(r, c)
                                } else {
                                    g(r, c)
                                } by {
                                    assert(mid.in_bounds(r, c));
                                    assert(before.in_bounds(r, c));
                                }
                            }
                            row = row + 1;
                        }
                        assert(holds(*vecs, gn));
                    },
                    None => {},
                }
            }
            i = i + 1;
        }
    }

    /// The eigenvector grid, or a placeholder when there are none.
    pub open spec fn vector_grid(&self) -> spec_fn(int, int) -> T {
        match self.vectors() {
            Some(v) => grid(v),
            None => grid(self.values()),
        }
    }

    /// The eigenvectors have at least `nt` rows and `n` columns.
    pub open spec fn vectors_fit(&self, nt: nat, n: nat) -> bool {
        self.vectors() matches Some(v) && v.wf() && v.nrows() >= nt && v.ncols() >= n
    }

    /// One implicit QR step on the block `start ..= end`.
    fn tridiagonal_qr_step(
        &mut self,
        diag: &mut Vec<T>,
        subdiag: &mut Vec<T>,
        start: usize,
        end: usize,
        compute_eigenvectors: bool,
        Ghost(vg): Ghost<spec_fn(int, int) -> T>,
    ) -> (vg2: Ghost<spec_fn(int, int) -> T>)
        requires
            start < end < old(diag)@.len(),
            old(subdiag)@.len() + 1 == old(diag)@.len(),
            old(self).values().wf(),
            compute_eigenvectors ==> old(self).vectors_fit(old(self).values().nrows(), old(diag)@.len()),
            compute_eigenvectors ==> holds(old(self).vectors().unwrap(), vg),
        ensures
            final(diag)@.len() == old(diag)@.len(),
            final(subdiag)@.len() == old(subdiag)@.len(),
            ({
                let st = qr_step_result(
                    old(diag)@,
                    old(subdiag)@,
                    vg,
                    start as int,
                    end as int,
                    compute_eigenvectors,
                    old(self).values().nrows() as int,
                );
                &&& final(diag)@ == st.0
                &&& final(subdiag)@ == st.1
                &&& vg2@ == st.2
            }),
            final(self).values() == old(self).values(),
            final(self).status() == old(self).status(),
            !compute_eigenvectors ==> final(self).vectors() == old(self).vectors(),
            compute_eigenvectors ==> final(self).vectors_fit(old(self).values().nrows(), old(diag)@.len()),
            compute_eigenvectors ==> final(self).vectors().unwrap().same_shape(&old(self).vectors().unwrap()),
            compute_eigenvectors ==> holds(final(self).vectors().unwrap(), vg2@),
    {
        let n_total = self.eigenvalues.rows();
        let n = diag.len();
        let zero = T::zero();
        let one = T::from_usize(1);
        let two = T::from_usize(2);
        let half_v = one.over(two);
        let d_prev = diag[end - 1];
        let d_last = diag[end];
        let e_last = subdiag[end - 1];
        let e2 = e_last.times(e_last);
        let td = d_prev.minus(d_last).times(half_v);
        let sign_td = if zero.is_le(td) {
            one
        } else {
            one.negate()
        };
        let mu = d_last.minus(e2.over(td.plus(sign_td.times(td.times(td).plus(e2).sqrt()))));
        let mut f = diag[start].minus(mu);
        let mut g = subdiag[start];
        let ghost target = qr_step_result(
            diag@,
            subdiag@,
            vg,
            start as int,
            end as int,
            compute_eigenvectors,
            n_total as int,
        );
        let ghost mut cur = vg;
        let ghost shape = self.vectors();
        proof {
            lemma_sweep_len(diag@, subdiag@, vg, f, g, start as int, start as int, end as int, compute_eigenvectors, n_total as int);
        }
        let mut k = start;
        while k < end
            invariant
                start <= k <= end,
                end < n,
                diag@.len() == n,
                subdiag@.len() + 1 == n,
                n_total == self.values().nrows(),
                self.values() == old(self).values(),
                self.status() == old(self).status(),
                zero == T::spec_zero(),
                one == T::spec_from_usize(1),
                two == T::spec_from_usize(2),
                sweep(diag@, subdiag@, cur, f, g, start as int, k as int, end as int, compute_eigenvectors, n_total as int)
                    == target,
                !compute_eigenvectors ==> self.vectors() == old(self).vectors(),
                compute_eigenvectors ==> self.vectors_fit(n_total as nat, n as nat),
                compute_eigenvectors ==> self.vectors().unwrap().same_shape(&shape.unwrap()),
                compute_eigenvectors ==> holds(self.vectors().unwrap(), cur),
            decreases end - k,
        {
            let r = f.times(f).plus(g.times(g)).sqrt();
            let (c, s) = if r.is_eq(zero) {
                (one, zero)
            } else {
                (f.over(r), g.over(r))
            };
            if k > start {
                subdiag.set(k - 1, r);
            }
            let d1 = diag[k];
            let d2 = diag[k + 1];
            let e1 = subdiag[k];
            let c2 = c.times(c);
            let s2 = s.times(s);
            let cs = c.times(s);
            diag.set(k, c2.times(d1).plus(s2.times(d2)).plus(two.times(cs).times(e1)));
            diag.set(k + 1, s2.times(d1).plus(c2.times(d2)).minus(two.times(cs).times(e1)));
            subdiag.set(k, c2.minus(s2).times(e1).plus(cs.times(d2.minus(d1))));
            if k < end - 1 {
                let e_next = subdiag[k + 1];
                f = subdiag[k];
                g = s.times(e_next);
                subdiag.set(k + 1, c.times(e_next));
            }
            if compute_eigenvectors {
                let ghost next = rotate_columns(cur, k as int, c, s, n_total as int);
                match self.eigenvectors {
                    Some(ref mut vecs) => {
                        let mut i: usize = 0;
                        while i < n_total
                            invariant
                                i <= n_total,
                                k < end,
                                end < n,
                                vecs.wf(),
                                vecs.nrows() >= n_total,
                                vecs.ncols() >= n,
                                vecs.same_shape(&shape.unwrap()),
                                next == rotate_columns(cur, k as int, c, s, n_total as int),
                                forall|a: int, b: int| #[trigger]
                                    vecs.in_bounds(a, b) ==> vecs.at(a, b) == if a < i {
                                        next(a, b)
                                    } else {
                                        cur(a, b)
                                    },
                            decreases n_total - i,
                        {
                            let ghost before = *vecs;
                            assert(vecs.in_bounds(i as int, k as int));
                            assert(vecs.in_bounds(i as int, (k + 1) as int));
                            let v1 = vecs.entry(i, k);
                            let v2 = vecs.entry(i, k + 1);
                            vecs.set(i, k, c.times(v1).plus(s.times(v2)));
                            let ghost mid = *vecs;
                            vecs.set(i, k + 1, s.negate().times(v1).plus(c.times(v2)));
                            proof {
                                assert forall|a: int, b: int| #[trigger] vecs.in_bounds(a, b) implies vecs.at(a, b)
                                    == if a < i + 1 {
                                    next(a, b)
                                } else {
                                    cur(a, b)
                                } by {
                                    assert(mid.in_bounds(a, b));
                                    assert(before.in_bounds(a, b));
                                }
                            }
                            i = i + 1;
                        }
                        assert(holds(*vecs, next));
                    },
                    None => {},
                }
                proof {
                    cur = next;
                }
            }
            k = k + 1;
        }
        Ghost(cur)
    }

    /// The QR iteration on the tridiagonal matrix `(diag, subdiag)` of
    /// order `n >= 1`, with at most `30 n` iterations and the tolerance
    /// image of `1e-12`. On convergence the first `n` eigenvalues become the
    /// final diagonal and the status `Success`; otherwise the eigenvalues
    /// stay and the status becomes `NoConvergence`.
    fn compute_from_tridiagonal(
        &mut self,
        diag: &mut Vec<T>,
        subdiag: &mut Vec<T>,
        compute_eigenvectors: bool,
        Ghost(vg): Ghost<spec_fn(int, int) -> T>,
    ) -> (vg2: Ghost<spec_fn(int, int) -> T>)
        requires
            old(diag)@.len() >= 1,
            old(subdiag)@.len() + 1 == old(diag)@.len(),
            30 * old(diag)@.len() < usize::MAX,
            old(self).fits(old(diag)@.len()),
            compute_eigenvectors ==> old(self).vectors_fit(old(self).values().nrows(), old(diag)@.len()),
            compute_eigenvectors ==> holds(old(self).vectors().unwrap(), vg),
        ensures
            ({
                let n = old(diag)@.len();
                let res = tq_loop(
                    old(diag)@,
                    old(subdiag)@,
                    vg,
                    n - 1,
                    0,
                    30 * n,
                    T::spec_default_tolerance(),
                    compute_eigenvectors,
                    old(self).values().nrows() as int,
                );
                &&& vg2@ == res.2
                &&& final(self).values().same_shape(&old(self).values())
                &&& res.3 ==> final(self).status() == ComputationInfo::Success
                &&& res.3 ==> col0(final(self).values(), n) == res.0
                &&& res.3 ==> forall|i: int| n <= i < old(self).values().nrows() ==> #[trigger] final(self).values().at(i, 0) == old(self).values().at(i, 0)
                &&& !res.3 ==> final(self).status() == ComputationInfo::NoConvergence
                &&& !res.3 ==> final(self).values() == old(self).values()
            }),
            final(self).fits(old(diag)@.len()),
            !compute_eigenvectors ==> final(self).vectors() == old(self).vectors(),
            compute_eigenvectors ==> final(self).vectors_fit(old(self).values().nrows(), old(diag)@.len()),
            compute_eigenvectors ==> final(self).vectors().unwrap().same_shape(&old(self).vectors().unwrap()),
            compute_eigenvectors ==> holds(final(self).vectors().unwrap(), vg2@),
    {
        let n = diag.len();
        let nt = self.eigenvalues.rows();
        let ghost nt_i = nt as int;
        let mut end = n - 1;
        let mut iter: usize = 0;
        let max_iter = 30 * n;
        let eps = T::default_tolerance();
        let zero = T::zero();
        let ghost target = tq_loop(diag@, subdiag@, vg, (n - 1) as int, 0, max_iter as nat, eps, compute_eigenvectors, nt_i);
        let ghost mut cur = vg;
        let ghost shape = self.vectors();
        let ghost vals = self.values();
        while end > 0
            invariant_except_break
                end < n,
                iter <= max_iter,
                max_iter == 30 * n,
                max_iter < usize::MAX,
                n == old(diag)@.len(),
                vals == old(self).values(),
                shape == old(self).vectors(),
                target == tq_loop(old(diag)@, old(subdiag)@, vg, (n - 1) as int, 0, max_iter as nat, eps, compute_eigenvectors, nt_i),
                diag@.len() == n,
                subdiag@.len() + 1 == n,
                nt == self.values().nrows(),
                nt_i == nt,
                self.values() == vals,
                zero == T::spec_zero(),
                eps == T::spec_default_tolerance(),
                tq_loop(diag@, subdiag@, cur, end as int, iter as nat, max_iter as nat, eps, compute_eigenvectors, nt_i)
                    == target,
                self.fits(n as nat),
                !compute_eigenvectors ==> self.vectors() == old(self).vectors(),
                compute_eigenvectors ==> self.vectors_fit(nt as nat, n as nat),
                compute_eigenvectors ==> self.vectors().unwrap().same_shape(&shape.unwrap()),
                compute_eigenvectors ==> holds(self.vectors().unwrap(), cur),
            ensures
                diag@.len() == n,
                self.values() == vals,
                target.3,
                target.0 == diag@,
                target.2 == cur,
                self.fits(n as nat),
                !compute_eigenvectors ==> self.vectors() == old(self).vectors(),
                compute_eigenvectors ==> self.vectors_fit(nt as nat, n as nat),
                compute_eigenvectors ==> self.vectors().unwrap().same_shape(&shape.unwrap()),
                compute_eigenvectors ==> holds(self.vectors().unwrap(), cur),
            decreases max_iter - iter,
        {
            let ghost e_old = subdiag@;
            let ghost d_now = diag@;
            // deflation
            let mut i = end;
            while i > 0
                invariant
                    i <= end,
                    end < n,
                    diag@ == d_now,
                    diag@.len() == n,
                    subdiag@.len() + 1 == n,
                    e_old.len() + 1 == n,
                    eps == T::spec_default_tolerance(),
                    zero == T::spec_zero(),
                    forall|q: int|
                        0 <= q < subdiag@.len() ==> #[trigger] subdiag@[q] == if i <= q < end {
                            deflate(d_now, e_old, end as int, eps)[q]
                        } else {
                            e_old[q]
                        },
                decreases i,
            {
                i = i - 1;
                if subdiag[i].abs().is_le(eps.times(diag[i].abs().plus(diag[i + 1].abs()))) {
                    subdiag.set(i, zero);
                }
            }
            assert(subdiag@ =~= deflate(d_now, e_old, end as int, eps));
            let ghost e1 = subdiag@;
            let ghost end0 = end;
            while end > 0 && subdiag[end - 1].is_eq(zero)
                invariant
                    end <= end0,
                    end0 < n,
                    subdiag@ == e1,
                    subdiag@.len() + 1 == n,
                    zero == T::spec_zero(),
                    shrink(e1, end as int) == shrink(e1, end0 as int),
                decreases end,
            {
                end = end - 1;
            }
            if end == 0 {
                break;
            }
            let ghost iter_old = iter;
            assert(shrink(e1, end as int) == end as int);
            iter = iter + 1;
            if iter > max_iter {
                proof {
                    assert(tq_loop(d_now, e_old, cur, end0 as int, iter_old as nat, max_iter as nat, eps, compute_eigenvectors, nt_i)
                        == (d_now, e1, cur, false));
                }
                self.info = ComputationInfo::NoConvergence;
                return Ghost(cur);
            }
            let mut start = end - 1;
            while start > 0 && !subdiag[start - 1].is_eq(zero)
                invariant
                    start < end,
                    end < n,
                    subdiag@ == e1,
                    subdiag@.len() + 1 == n,
                    zero == T::spec_zero(),
                    grow(e1, start as int) == grow(e1, end - 1),
                decreases start,
            {
                start = start - 1;
            }
            let vg2 = self.tridiagonal_qr_step(diag, subdiag, start, end, compute_eigenvectors, Ghost(cur));
            proof {
                cur = vg2@;
            }
        }
        let mut i: usize = 0;
        while i < n
            invariant
                i <= n,
                diag@.len() == n,
                nt == vals.nrows(),
                self.values().same_shape(&vals),
                self.values().wf(),
                self.vectors() == old(self).vectors() || compute_eigenvectors,
                self.fits(n as nat),
                forall|q: int| 0 <= q < i ==> #[trigger] self.values().at(q, 0) == diag@[q],
                forall|q: int| i <= q < nt ==> #[trigger] self.values().at(q, 0) == vals.at(q, 0),
                !compute_eigenvectors ==> self.vectors() == old(self).vectors(),
                compute_eigenvectors ==> self.vectors_fit(nt as nat, n as nat),
                compute_eigenvectors ==> self.vectors().unwrap().same_shape(&shape.unwrap()),
                compute_eigenvectors ==> holds(self.vectors().unwrap(), cur),
            decreases n - i,
        {
            let ghost before = self.values();
            self.eigenvalues.set(i, 0, diag[i]);
            proof {
                assert forall|q: int| 0 <= q < i + 1 implies #[trigger] self.values().at(q, 0) == diag@[q] by {
                    assert(before.in_bounds(q, 0));
                    assert(self.values().in_bounds(q, 0));
                }
                assert forall|q: int| i + 1 <= q < nt implies #[trigger] self.values().at(q, 0) == vals.at(q, 0) by {
                    assert(before.in_bounds(q, 0));
                    assert(self.values().in_bounds(q, 0));
                }
            }
            i = i + 1;
        }
        assert(col0(self.values(), n as nat) =~= target.0);
        self.info = ComputationInfo::Success;
        Ghost(cur)
    }

    /// The general path on the `n x n` matrix `a` (`n >= 3`): tridiagonal
    /// decomposition, QR iteration on the tridiagonal matrix (with the
    /// orthogonal factor as initial eigenvectors when they are wanted),
    /// then sorting.
    pub open spec fn general_outcome(before: Self, after: Self, a: Matrix<T>, flag: bool, pre: Seq<T>) -> bool {
        let n = a.nrows();
        let inp = general_input(a);
        let v0 = if flag {
            inp.2
        } else {
            before.vector_grid()
        };
        let res = tq_loop(inp.0, inp.1, v0, n - 1, 0, 30 * n, T::spec_default_tolerance(), flag, before.values().nrows() as int);
        let sorted = sel_sort(res.0, res.2, n, n);
        &&& after.values().same_shape(&before.values())
        &&& after.fits(n)
        &&& flag ==> (after.vectors() matches Some(v) && v.nrows() == n && v.ncols() == n)
        &&& !flag ==> (after.vectors() is Some <==> before.vectors() is Some)
        &&& res.3 ==> {
            &&& after.status() == ComputationInfo::Success
            &&& col0(after.values(), n) == sorted.0
            &&& forall|i: int| n <= i < before.values().nrows() ==> #[trigger] after.values().at(i, 0) == before.values().at(i, 0)
            &&& after.vectors() matches Some(v) ==> agree(grid(v), sorted.1, n as int, n as int)
        }
        &&& !res.3 ==> {
            &&& after.status() == ComputationInfo::NoConvergence
            &&& col0(after.values(), n) == pre
            &&& forall|i: int| n <= i < before.values().nrows() ==> #[trigger] after.values().at(i, 0) == before.values().at(i, 0)
            &&& flag ==> agree(grid(after.vectors().unwrap()), res.2, n as int, n as int)
            &&& !flag ==> after.vectors() == before.vectors()
        }
    }

    /// The general path (see `general_outcome`); fails, changing nothing,
    /// exactly when the matrix is not square.
    fn compute_general(&mut self, matrix: &Matrix<T>, compute_eigenvectors: bool) -> (r: Result<(), String>)
        requires
            matrix.wf(),
            matrix.nrows() >= 3,
            old(self).fits(matrix.nrows()),
            compute_eigenvectors ==> old(self).values().nrows() == matrix.nrows(),
        ensures
            r is Ok <==> matrix.nrows() == matrix.ncols(),
            r is Ok ==> Self::general_outcome(
                *old(self),
                *final(self),
                *matrix,
                compute_eigenvectors,
                col0(old(self).values(), matrix.nrows()),
            ),
            r is Err ==> *final(self) == *old(self),
            r matches Err(e) ==> e@ == "Tridiagonalization requires a square matrix"@,
    {
        let n = matrix.rows();
        let tri = match Tridiagonalization::new(matrix) {
            Ok(t) => t,
            Err(e) => {
                return Err(e);
            },
        };
        let size = matrix.size();
        proof {
            assert(30 * n < usize::MAX) by (nonlinear_arith)
                requires
                    size == n * n,
                    size <= usize::MAX,
                    n >= 3,
            ;
        }
        let ghost st = tri_state(grid(*matrix), n as int, (n - 1) as nat, (n - 1) as nat);
        let ghost inp = general_input(*matrix);
        let t = tri.matrix_t();
        let mut diag: Vec<T> = Vec::new();
        let mut subdiag: Vec<T> = Vec::new();
        let mut i: usize = 0;
        while i < n
            invariant
                i <= n,
                n == matrix.nrows(),
                tri.wf(),
                tri.packed().nrows() == n,
                holds(tri.packed(), st.0),
                t.wf(),
                t.same_shape(&tri.packed()),
                holds(
                    t,
                    |a: int, b: int|
                        if a == b || a == b + 1 || b == a + 1 {
                            tri.packed().at(if a >= b { a } else { b }, if a >= b { b } else { a })
                        } else {
                            T::spec_zero()
                        },
                ),
                inp == general_input(*matrix),
                st == tri_state(grid(*matrix), n as int, (n - 1) as nat, (n - 1) as nat),
                diag@.len() == i,
                subdiag@.len() == if i == 0 { 0 } else { i - 1 },
                forall|q: int| 0 <= q < i ==> #[trigger] diag@[q] == inp.0[q],
                forall|q: int| 0 <= q < subdiag@.len() ==> #[trigger] subdiag@[q] == inp.1[q],
            decreases n - i,
        {
            assert(t.in_bounds(i as int, i as int));
            assert(tri.packed().in_bounds(i as int, i as int));
            diag.push(t.entry(i, i));
            if i > 0 {
                assert(t.in_bounds(i as int, (i - 1) as int));
                assert(tri.packed().in_bounds(i as int, (i - 1) as int));
                subdiag.push(t.entry(i, i - 1));
            }
            i = i + 1;
        }
        assert(diag@ =~= inp.0);
        assert(subdiag@ =~= inp.1);
        let ghost before = *self;
        if compute_eigenvectors {
            let q = tri.matrix_q();
            proof {
                assert forall|a: int, b: int| 0 <= a < n && 0 <= b < n implies #[trigger] grid(tri.packed())(a, b)
                    == st.0(a, b) by {
                    assert(tri.packed().in_bounds(a, b));
                }
                lemma_tri_q_agree(grid(tri.packed()), st.0, tri.coeffs(), n as int, (n - 1) as nat);
            }
            self.eigenvectors = Some(q);
        }
        let ghost vg = self.vector_grid();
        proof {
            if compute_eigenvectors {
                assert forall|a: int, b: int| 0 <= a < n && 0 <= b < n implies #[trigger] vg(a, b) == inp.2(a, b) by {
                    assert(self.vectors().unwrap().in_bounds(a, b));
                    assert(grid(tri.packed()) =~= grid(tri.packed()));
                }
            }
        }
        let vg2 = self.compute_from_tridiagonal(&mut diag, &mut subdiag, compute_eigenvectors, Ghost(vg));
        let ghost mid = *self;
        proof {
            let v0 = if compute_eigenvectors { inp.2 } else { before.vector_grid() };
            if compute_eigenvectors {
                lemma_tq_agree(inp.0, inp.1, vg, v0, (n - 1) as int, 0, (30 * n) as nat, T::spec_default_tolerance(), true, n as int);
            } else {
                lemma_tq_agree(inp.0, inp.1, vg, vg, (n - 1) as int, 0, (30 * n) as nat, T::spec_default_tolerance(), false, before.values().nrows() as int);
            }
        }
        self.sort_eigenvalues(n);
        proof {
            let v0 = if compute_eigenvectors { inp.2 } else { before.vector_grid() };
            let res = tq_loop(inp.0, inp.1, v0, (n - 1) as int, 0, (30 * n) as nat, T::spec_default_tolerance(), compute_eigenvectors, before.values().nrows() as int);
            let res_real = tq_loop(inp.0, inp.1, vg, (n - 1) as int, 0, (30 * n) as nat, T::spec_default_tolerance(), compute_eigenvectors, before.values().nrows() as int);
            if res.3 {
                assert(col0(mid.values(), n as nat) == res.0);
                lemma_sel_sort_agree(res.0, mid.vector_grid(), res.2, n as nat, n as nat, 0);
                if mid.vectors() is Some {
                    let gm = mid.vector_grid();
                    assert(agree(gm, res.2, n as int, n as int)) by {
                        assert forall|a: int, b: int| 0 <= a < n && 0 <= b < n implies #[trigger] gm(a, b) == res.2(a, b) by {
                            assert(mid.vectors().unwrap().in_bounds(a, b));
                            if compute_eigenvectors {
                                assert(res_real.2(a, b) == res.2(a, b));
                            }
                        }
                    }
                    lemma_sel_sort_agree(res.0, gm, res.2, n as nat, n as nat, n as int);
                    let sv = sel_sort(res.0, gm, n as nat, n as nat).1;
                    let v = self.vectors().unwrap();
                    assert forall|a: int, b: int| 0 <= a < n && 0 <= b < n implies #[trigger] grid(v)(a, b)
                        == sel_sort(res.0, res.2, n as nat, n as nat).1(a, b) by {
                        assert(v.in_bounds(a, b));
                        assert(sv(a, b) == sel_sort(res.0, res.2, n as nat, n as nat).1(a, b));
                    }
                }
            } else {
                if compute_eigenvectors {
                    let v = self.vectors().unwrap();
                    assert forall|a: int, b: int| 0 <= a < n && 0 <= b < n implies #[trigger] grid(v)(a, b)
                        == res.2(a, b) by {
                        assert(v.in_bounds(a, b));
                        assert(res_real.2(a, b) == res.2(a, b));
                    }
                }
            }
        }
        Ok(())
    }

    /// The eigenvalue column holds `vals` in its first rows and is otherwise
    /// as in `before`.
    pub open spec fn values_set(before: Self, after: Self, vals: Seq<T>) -> bool {
        &&& after.values().same_shape(&before.values())
        &&& after.values().wf()
        &&& col0(after.values(), vals.len()) == vals
        &&& forall|i: int| vals.len() <= i < before.values().nrows() ==> #[trigger] after.values().at(i, 0) == before.values().at(i, 0)
    }

    /// The eigenvectors are a `k x k` matrix with the entries of `g`.
    pub open spec fn vectors_are(after: Self, k: nat, g: spec_fn(int, int) -> T) -> bool {
        after.vectors() matches Some(v) && v.wf() && v.nrows() == k && v.ncols() == k && holds(v, g)
    }

    /// The identity of the small cases: the image of one on the diagonal,
    /// zero elsewhere.
    pub open spec fn small_identity() -> spec_fn(int, int) -> T {
        |i: int, j: int|
            if i == j {
                T::spec_from_usize(1)
            } else {
                T::spec_zero()
            }
    }

    /// What `compute` does with the square matrix `a` (see the cases).
    pub open spec fn outcome(before: Self, after: Self, a: Matrix<T>, flag: bool) -> bool {
        let n = a.nrows();
        let small = n <= 2 || (n == 3 && (eig3_tiny(a) || !flag));
        &&& small ==> after.status() == ComputationInfo::Success
        &&& small && !flag ==> after.vectors() == before.vectors()
        &&& n == 0 ==> after.values() == before.values()
        &&& n == 1 ==> Self::values_set(before, after, seq![a.at(0, 0)])
        &&& n == 1 && flag ==> Self::vectors_are(after, 1, Self::small_identity())
        &&& n == 2 ==> Self::values_set(before, after, seq![eig2_values(a).0, eig2_values(a).1])
        &&& n == 2 && flag ==> Self::vectors_are(after, 2, eig2_vectors(a))
        &&& n == 3 && eig3_tiny(a) ==> Self::values_set(before, after, seq![eig3_shift(a), eig3_shift(a), eig3_shift(a)])
        &&& n == 3 && eig3_tiny(a) && flag ==> Self::vectors_are(after, 3, Self::small_identity())
        &&& n == 3 && !eig3_tiny(a) && !flag ==> Self::values_set(before, after, eig3_values(a))
        &&& !small ==> Self::general_outcome(before, after, a, flag, if n == 3 {
            eig3_values(a)
        } else {
            col0(before.values(), n)
        })
    }

    /// The `2 x 2` case (see `eig2_values`, `eig2_vectors`).
    fn compute_2x2(&mut self, matrix: &Matrix<T>, compute_eigenvectors: bool)
        requires
            matrix.wf(),
            matrix.nrows() == 2,
            matrix.ncols() >= 2,
            old(self).fits(2),
        ensures
            final(self).fits(2),
            final(self).status() == ComputationInfo::Success,
            Self::values_set(*old(self), *final(self), seq![eig2_values(*matrix).0, eig2_values(*matrix).1]),
            compute_eigenvectors ==> Self::vectors_are(*final(self), 2, eig2_vectors(*matrix)),
            !compute_eigenvectors ==> final(self).vectors() == old(self).vectors(),
    {
        assert(matrix.in_bounds(0, 0) && matrix.in_bounds(1, 0) && matrix.in_bounds(1, 1));
        let a = matrix.entry(0, 0);
        let b = matrix.entry(1, 0);
        let d = matrix.entry(1, 1);
        let zero = T::zero();
        let one = T::from_usize(1);
        let two = T::from_usize(2);
        let half_v = one.over(two);
        let trace = a.plus(d);
        let gap = a.minus(d);
        let disc = gap.times(gap).plus(T::from_usize(4).times(b).times(b)).sqrt();
        let l1 = trace.minus(disc).times(half_v);
        let l2 = trace.plus(disc).times(half_v);
        let ghost before = self.values();
        self.eigenvalues.set(0, 0, l1);
        let ghost mid = self.values();
        self.eigenvalues.set(1, 0, l2);
        proof {
            assert(col0(self.values(), 2) =~= seq![l1, l2]) by {
                assert(mid.in_bounds(0, 0) && self.values().in_bounds(0, 0) && self.values().in_bounds(1, 0));
            }
            assert forall|i: int| 2 <= i < before.nrows() implies #[trigger] self.values().at(i, 0) == before.at(i, 0) by {
                assert(before.in_bounds(i, 0) && mid.in_bounds(i, 0) && self.values().in_bounds(i, 0));
            }
        }
        if compute_eigenvectors {
            let mut vecs = Matrix::zeros(2, 2);
            let ghost g = eig2_vectors(*matrix);
            let (v00, v10, v01, v11) = if b.is_eq(zero) {
                if zero.is_lt(gap) {
                    (zero, one, one, zero)
                } else {
                    (one, zero, zero, one)
                }
            } else {
                let tau = gap.over(two.times(b));
                let root = one.plus(tau.times(tau)).sqrt();
                let t_val = if zero.is_le(tau) {
                    one.over(tau.plus(root))
                } else {
                    one.negate().over(tau.abs().plus(root))
                };
                let c = one.plus(t_val.times(t_val)).sqrt().recip();
                let s = t_val.times(c);
                if zero.is_lt(b) == zero.is_le(tau) {
                    (s.negate(), c, c, s)
                } else {
                    (c, s, s.negate(), c)
                }
            };
            let ghost r0 = vecs;
            vecs.set(0, 0, v00);
            let ghost r1 = vecs;
            vecs.set(1, 0, v10);
            let ghost r2 = vecs;
            vecs.set(0, 1, v01);
            let ghost r3 = vecs;
            vecs.set(1, 1, v11);
            proof {
                assert forall|i: int, j: int| #[trigger] vecs.in_bounds(i, j) implies vecs.at(i, j) == g(i, j) by {
                    assert(r0.in_bounds(i, j) && r1.in_bounds(i, j) && r2.in_bounds(i, j) && r3.in_bounds(i, j));
                }
            }
            self.eigenvectors = Some(vecs);
        }
        self.info = ComputationInfo::Success;
    }

    /// The `3 x 3` case: a negligible shifted matrix has the shift as triple
    /// eigenvalue; otherwise the eigenvalues come from the trigonometric
    /// formula, and the general path takes over when eigenvectors are
    /// wanted.
    fn compute_3x3(&mut self, matrix: &Matrix<T>, compute_eigenvectors: bool) -> (r: Result<(), String>)
        requires
            matrix.wf(),
            matrix.nrows() == 3,
            matrix.ncols() >= 3,
            old(self).fits(3),
            compute_eigenvectors ==> old(self).values().nrows() == 3,
            !eig3_tiny(*matrix) ==> T::spec_has_trig(),
        ensures
            r is Ok <==> (eig3_tiny(*matrix) || !compute_eigenvectors || matrix.ncols() == 3),
            r is Ok ==> Self::outcome(*old(self), *final(self), *matrix, compute_eigenvectors),
            r is Ok ==> final(self).fits(3),
            r is Err ==> {
                &&& Self::values_set(*old(self), *final(self), eig3_values(*matrix))
                &&& final(self).vectors() == old(self).vectors()
                &&& final(self).status() == old(self).status()
            },
            r matches Err(e) ==> e@ == "Tridiagonalization requires a square matrix"@,
    {
        assert(matrix.in_bounds(0, 0) && matrix.in_bounds(1, 0) && matrix.in_bounds(2, 0));
        assert(matrix.in_bounds(1, 1) && matrix.in_bounds(2, 1) && matrix.in_bounds(2, 2));
        let m00 = matrix.entry(0, 0);
        let m10 = matrix.entry(1, 0);
        let m20 = matrix.entry(2, 0);
        let m11 = matrix.entry(1, 1);
        let m21 = matrix.entry(2, 1);
        let m22 = matrix.entry(2, 2);
        let zero = T::zero();
        let one = T::from_usize(1);
        let two = T::from_usize(2);
        let three = T::from_usize(3);
        let shift = m00.plus(m11).plus(m22).over(three);
        let s00 = m00.minus(shift);
        let s11 = m11.minus(shift);
        let s22 = m22.minus(shift);
        let norm = s00.times(s00).plus(s11.times(s11)).plus(s22.times(s22)).plus(
            two.times(m10.times(m10).plus(m20.times(m20)).plus(m21.times(m21))),
        ).sqrt();
        let ghost before = self.values();
        if norm.is_lt(T::epsilon()) {
            self.eigenvalues.set(0, 0, shift);
            let ghost e1 = self.values();
            self.eigenvalues.set(1, 0, shift);
            let ghost e2 = self.values();
            self.eigenvalues.set(2, 0, shift);
            proof {
                assert(col0(self.values(), 3) =~= seq![shift, shift, shift]) by {
                    assert(e1.in_bounds(0, 0) && e2.in_bounds(0, 0) && e2.in_bounds(1, 0));
                    assert(self.values().in_bounds(0, 0) && self.values().in_bounds(1, 0) && self.values().in_bounds(2, 0));
                }
                assert forall|i: int| 3 <= i < before.nrows() implies #[trigger] self.values().at(i, 0) == before.at(i, 0) by {
                    assert(before.in_bounds(i, 0) && e1.in_bounds(i, 0) && e2.in_bounds(i, 0) && self.values().in_bounds(i, 0));
                }
            }
            if compute_eigenvectors {
                let mut vecs = Matrix::zeros(3, 3);
                let ghost g = Self::small_identity();
                let mut i: usize = 0;
                while i < 3
                    invariant
                        i <= 3,
                        one == T::spec_from_usize(1),
                        zero == T::spec_zero(),
                        vecs.wf(),
                        vecs.nrows() == 3,
                        vecs.ncols() == 3,
                        g == Self::small_identity(),
                        forall|a: int, b: int| #[trigger] vecs.in_bounds(a, b) ==> vecs.at(a, b) == if a == b && a < i {
                            T::spec_from_usize(1)
                        } else {
                            T::spec_zero()
                        },
                    decreases 3 - i,
                {
                    let ghost bf = vecs;
                    vecs.set(i, i, one);
                    proof {
                        assert forall|a: int, b: int| #[trigger] vecs.in_bounds(a, b) implies vecs.at(a, b) == if a == b && a < i + 1 {
                            T::spec_from_usize(1)
                        } else {
                            T::spec_zero()
                        } by {
                            assert(bf.in_bounds(a, b));
                        }
                    }
                    i = i + 1;
                }
                assert(holds(vecs, g));
                self.eigenvectors = Some(vecs);
            }
            self.info = ComputationInfo::Success;
            return Ok(());
        }
        let scale = norm;
        let a00 = s00.over(scale);
        let a10 = m10.over(scale);
        let a20 = m20.over(scale);
        let a11 = s11.over(scale);
        let a21 = m21.over(scale);
        let a22 = s22.over(scale);
        let c0 = a00.times(a11).times(a22).plus(two.times(a10).times(a20).times(a21)).minus(a00.times(a21).times(a21)).minus(
            a11.times(a20).times(a20),
        ).minus(a22.times(a10).times(a10));
        let c1 = a00.times(a11).minus(a10.times(a10)).plus(a00.times(a22)).minus(a20.times(a20)).plus(a11.times(a22)).minus(
            a21.times(a21),
        );
        let a_over_3 = c1.negate().over(three);
        let half_b = c0.times(one.over(two));
        let q = a_over_3.times(a_over_3).times(a_over_3).minus(half_b.times(half_b));
        let q_clamped = if zero.is_lt(q) {
            q
        } else {
            zero
        };
        let rho = a_over_3.sqrt();
        let theta = q_clamped.sqrt().atan2(half_b).over(three);
        let cos_theta = theta.cos();
        let sin_theta = theta.sin();
        let sqrt3 = three.sqrt();
        let mut roots: Vec<T> = Vec::new();
        roots.push(rho.negate().times(cos_theta.plus(sqrt3.times(sin_theta))));
        roots.push(rho.negate().times(cos_theta.minus(sqrt3.times(sin_theta))));
        roots.push(two.times(rho).times(cos_theta));
        assert(roots@ =~= eig3_roots(*matrix));
        // insertion sort
        let ghost r0 = roots@;
        let mut i: usize = 1;
        while i < 3
            invariant
                1 <= i <= 3,
                roots@.len() == 3,
                roots@ == insertion_sort(r0, i as nat),
            decreases 3 - i,
        {
            let ghost start_seq = roots@;
            let mut j = i;
            while j > 0 && roots[j].is_lt(roots[j - 1])
                invariant
                    j <= i < 3,
                    roots@.len() == 3,
                    insert_left(roots@, j as int) == insert_left(start_seq, i as int),
                decreases j,
            {
                let a = roots[j];
                let b = roots[j - 1];
                roots.set(j - 1, a);
                roots.set(j, b);
                j = j - 1;
            }
            i = i + 1;
        }
        let ghost sorted = insertion_sort(r0, 3);
        let mut k: usize = 0;
        while k < 3
            invariant
                k <= 3,
                roots@ == sorted,
                sorted == insertion_sort(eig3_roots(*matrix), 3),
                self.vectors() == old(self).vectors(),
                self.status() == old(self).status(),
                self.fits(3),
                compute_eigenvectors ==> self.values().nrows() == 3,
                before == old(self).values(),
                roots@.len() == 3,
                scale == eig3_norm(*matrix),
                shift == eig3_shift(*matrix),
                self.values().wf(),
                self.values().same_shape(&before),
                before.nrows() >= 3,
                before.ncols() == 1,
                forall|q: int| 0 <= q < k ==> #[trigger] self.values().at(q, 0) == eig3_values(*matrix)[q],
                forall|q: int| k <= q < before.nrows() ==> #[trigger] self.values().at(q, 0) == before.at(q, 0),
            decreases 3 - k,
        {
            let ghost bf = self.values();
            self.eigenvalues.set(k, 0, roots[k].times(scale).plus(shift));
            proof {
                assert forall|q: int| 0 <= q < k + 1 implies #[trigger] self.values().at(q, 0) == eig3_values(*matrix)[q] by {
                    assert(bf.in_bounds(q, 0) && self.values().in_bounds(q, 0));
                }
                assert forall|q: int| k + 1 <= q < before.nrows() implies #[trigger] self.values().at(q, 0) == before.at(q, 0) by {
                    assert(bf.in_bounds(q, 0) && self.values().in_bounds(q, 0));
                }
            }
            k = k + 1;
        }
        assert(col0(self.values(), 3) =~= eig3_values(*matrix));
        if compute_eigenvectors {
            let ghost mid = *self;
            let r = self.compute_general(matrix, compute_eigenvectors);
            return r;
        }
        self.info = ComputationInfo::Success;
        Ok(())
    }

    /// The eigenvalues, in column 0.
    pub fn eigenvalues(&self) -> (r: &Matrix<T>)
        ensures
            *r == self.values(),
    {
        &self.eigenvalues
    }

    /// The eigenvectors, when computed.
    pub fn eigenvectors(&self) -> (r: Option<&Matrix<T>>)
        ensures
            r matches Some(v) ==> self.vectors() == Some(*v),
            r is None <==> self.vectors() is None,
    {
        match &self.eigenvectors {
            Some(v) => Some(v),
            None => None,
        }
    }

    /// The status of the last computation.
    pub fn info(&self) -> (r: ComputationInfo)
        ensures
            r == self.status(),
    {
        self.info
    }

    /// Computes the eigendecomposition of the selfadjoint matrix `matrix`
    /// (see `outcome`): direct formulas up to order three, the general path
    /// beyond and for order three with eigenvectors. Fails, when the general
    /// path is taken, exactly when the matrix is not square (having written
    /// the order-three eigenvalues first in that case).
    pub fn compute(&mut self, matrix: &Matrix<T>, compute_eigenvectors: bool) -> (r: Result<(), String>)
        requires
            matrix.wf(),
            old(self).fits(matrix.nrows()),
            matrix.nrows() <= 3 ==> matrix.ncols() >= matrix.nrows(),
            matrix.nrows() >= 3 && compute_eigenvectors ==> old(self).values().nrows() == matrix.nrows(),
            matrix.nrows() == 3 && !eig3_tiny(*matrix) ==> T::spec_has_trig(),
        ensures
            ({
                let n = matrix.nrows();
                &&& r is Ok <==> (n <= 2 || (n == 3 && (eig3_tiny(*matrix) || !compute_eigenvectors))
                    || matrix.ncols() == n)
                &&& r is Ok ==> Self::outcome(*old(self), *final(self), *matrix, compute_eigenvectors)
                &&& r is Ok ==> final(self).fits(n)
                &&& r is Err && n >= 4 ==> *final(self) == *old(self)
                &&& r is Err && n == 3 ==> {
                    &&& Self::values_set(*old(self), *final(self), eig3_values(*matrix))
                    &&& final(self).vectors() == old(self).vectors()
                    &&& final(self).status() == old(self).status()
                }
            }),
            r matches Err(e) ==> e@ == "Tridiagonalization requires a square matrix"@,
    {
        let n = matrix.rows();
        if n == 0 {
            self.info = ComputationInfo::Success;
            return Ok(());
        }
        if n == 1 {
            assert(matrix.in_bounds(0, 0));
            let ghost before = self.values();
            self.eigenvalues.set(0, 0, matrix.entry(0, 0));
            proof {
                assert(col0(self.values(), 1) =~= seq![matrix.at(0, 0)]) by {
                    assert(self.values().in_bounds(0, 0));
                }
                assert forall|i: int| 1 <= i < before.nrows() implies #[trigger] self.values().at(i, 0) == before.at(i, 0) by {
                    assert(before.in_bounds(i, 0) && self.values().in_bounds(i, 0));
                }
            }
            if compute_eigenvectors {
                let mut vecs = Matrix::zeros(1, 1);
                vecs.set(0, 0, T::from_usize(1));
                proof {
                    assert forall|a: int, b: int| #[trigger] vecs.in_bounds(a, b) implies vecs.at(a, b)
                        == Self::small_identity()(a, b) by {}
                }
                self.eigenvectors = Some(vecs);
            }
            self.info = ComputationInfo::Success;
            return Ok(());
        }
        if n == 2 {
            self.compute_2x2(matrix, compute_eigenvectors);
            return Ok(());
        }
        if n == 3 {
            return self.compute_3x3(matrix, compute_eigenvectors);
        }
        self.compute_general(matrix, compute_eigenvectors)
    }

    /// The eigendecomposition of a square selfadjoint matrix, starting from
    /// a zero eigenvalue column, no eigenvectors and the status
    /// `InvalidInput`; fails exactly when the matrix is not square.
    pub fn new(matrix: &Matrix<T>, compute_eigenvectors: bool) -> (r: Result<Self, String>)
        requires
            matrix.wf(),
            matrix.nrows() == matrix.ncols() && matrix.nrows() == 3 && !eig3_tiny(*matrix) ==> T::spec_has_trig(),
        ensures
            r is Ok <==> matrix.nrows() == matrix.ncols(),
            r matches Ok(solver) ==> {
                &&& solver.fits(matrix.nrows())
                &&& solver.values().nrows() == matrix.nrows()
                &&& exists|b: Self|
                    {
                        &&& b.values().wf()
                        &&& b.values().nrows() == matrix.nrows()
                        &&& b.values().ncols() == 1
                        &&& forall|i: int| 0 <= i < matrix.nrows() ==> #[trigger] b.values().at(i, 0) == T::spec_zero()
                        &&& b.vectors() is None
                        &&& b.status() == ComputationInfo::InvalidInput
                        &&& Self::outcome(b, solver, *matrix, compute_eigenvectors)
                    }
            },
            r matches Err(e) ==> e@ == "SelfAdjointEigenSolver requires a square matrix"@,
    {
        let n = matrix.rows();
        if n != matrix.cols() {
            return Err("SelfAdjointEigenSolver requires a square matrix".to_string());
        }
        let eigenvalues = Matrix::zeros(n, 1);
        let mut solver = SelfAdjointEigenSolver {
            eigenvectors: None,
            eigenvalues,
            info: ComputationInfo::InvalidInput,
        };
        let ghost b = solver;
        proof {
            assert forall|i: int| 0 <= i < n implies #[trigger] b.values().at(i, 0) == T::spec_zero() by {
                assert(b.values().in_bounds(i, 0));
            }
        }
        match solver.compute(matrix, compute_eigenvectors) {
            Ok(()) => {},
            Err(e) => {
                return Err(e);
            },
        }
        Ok(solver)
    }
}

impl<T: Scalar> Matrix<T> {
    /// The eigendecomposition of this selfadjoint matrix (see
    /// `SelfAdjointEigenSolver::new`).
    pub fn self_adjoint_eigen_solver(&self, compute_eigenvectors: bool) -> (r: Result<SelfAdjointEigenSolver<T>, String>)
        requires
            self.wf(),
            self.nrows() == self.ncols() && self.nrows() == 3 && !eig3_tiny(*self) ==> T::spec_has_trig(),
        ensures
            r is Ok <==> self.nrows() == self.ncols(),
            r matches Ok(solver) ==> {
                &&& solver.fits(self.nrows())
                &&& solver.values().nrows() == self.nrows()
                &&& exists|b: SelfAdjointEigenSolver<T>|
                    {
                        &&& b.values().wf()
                        &&& b.values().nrows() == self.nrows()
                        &&& b.values().ncols() == 1
                        &&& forall|i: int| 0 <= i < self.nrows() ==> #[trigger] b.values().at(i, 0) == T::spec_zero()
                        &&& b.vectors() is None
                        &&& b.status() == ComputationInfo::InvalidInput
                        &&& SelfAdjointEigenSolver::outcome(b, solver, *self, compute_eigenvectors)
                    }
            },
            r matches Err(e) ==> e@ == "SelfAdjointEigenSolver requires a square matrix"@,
    {
        SelfAdjointEigenSolver::new(self, compute_eigenvectors)
    }

    /// The eigenvalue column of this selfadjoint matrix, computed without
    /// eigenvectors; fails exactly when the matrix is not square.
    pub fn eigenvalues(&self) -> (r: Result<Matrix<T>, String>)
        requires
            self.wf(),
            self.nrows() == self.ncols() && self.nrows() == 3 && !eig3_tiny(*self) ==> T::spec_has_trig(),
        ensures
            r is Ok <==> self.nrows() == self.ncols(),
            r matches Ok(v) ==> exists|solver: SelfAdjointEigenSolver<T>|
                {
                    &&& v.wf()
                    &&& v.same_shape(&solver.values())
                    &&& v.elems() == solver.values().elems()
                    &&& solver.values().nrows() == self.nrows()
                    &&& exists|b: SelfAdjointEigenSolver<T>|
                        {
                            &&& b.values().wf()
                            &&& b.values().nrows() == self.nrows()
                            &&& b.values().ncols() == 1
                            &&& forall|i: int| 0 <= i < self.nrows() ==> #[trigger] b.values().at(i, 0) == T::spec_zero()
                            &&& b.vectors() is None
                            &&& b.status() == ComputationInfo::InvalidInput
                            &&& SelfAdjointEigenSolver::outcome(b, solver, *self, false)
                        }
                },
    {
        let solver = match SelfAdjointEigenSolver::new(self, false) {
            Ok(s) => s,
            Err(e) => {
                return Err(e);
            },
        };
        let v = solver.eigenvalues().copy();
        Ok(v)
    }

}

/// After selection sort of `n` values of a type whose `<` is a strict
/// partial order (as floating-point `<` is),
/// the values are in ascending order (no value is below an earlier one)
/// and are a rearrangement of the values sorted.
pub proof fn lemma_sorted_eigenvalues<T: Scalar>(vals: Seq<T>, v: spec_fn(int, int) -> T, n: nat)
    requires
        lt_strict_partial::<T>(),
        vals.len() == n,
    ensures
        sel_sort(vals, v, n, n).0.len() == n,
        sel_sort(vals, v, n, n).0.to_multiset() == vals.to_multiset(),
        forall|a: int, b: int|
            0 <= a < b < n ==> not_below(
                #[trigger] sel_sort(vals, v, n, n).0[b],
                #[trigger] sel_sort(vals, v, n, n).0[a],
            ),
{
    lemma_sel_sort_progress(vals, v, n, n);
}

} // verus!
