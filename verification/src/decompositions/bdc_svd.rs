//! Divide-and-conquer SVD of a matrix with at least as many rows as
//! columns.
//!
//! The matrix is bidiagonalized; the bidiagonal matrix is split wherever a
//! superdiagonal entry is negligible. Blocks below 32 go to the Jacobi SVD;
//! larger blocks go through the eigenproblem of the tridiagonal `B^T B`,
//! solved by divide and conquer (rank-one tearing, then the secular
//! equation of the merged problem), with `U = B V S^{-1}`.

use crate::decompositions::bidiagonal::{bd_state, bd_u, bd_v, Bidiagonalization};
use crate::decompositions::generalized_selfadjoint::standard_result;
use crate::decompositions::lu::{grid, holds};
use crate::decompositions::selfadjoint_eigen::SelfAdjointEigenSolver;
use crate::decompositions::svd::{svd_outcome, JacobiSVD};
use crate::matrix::Matrix;
use crate::scalar::Scalar;
use vstd::prelude::*;

verus! {

/// `f = 1 + rho z_j^2 / (d_j - lambda) + ...` and
/// `f' = 0 + (rho z_j^2 / (d_j - lambda)) / (d_j - lambda) + ...` over the
/// first `m` poles.
pub open spec fn sec_terms<T: Scalar>(d: Seq<T>, z: Seq<T>, rho: T, lambda: T, m: int) -> (T, T)
    decreases m,
{
    if m <= 0 {
        (T::spec_from_usize(1), T::spec_from_usize(0))
    } else {
        let p = sec_terms(d, z, rho, lambda, m - 1);
        let diff = d[m - 1].spec_minus(lambda);
        let term = z[m - 1].spec_times(z[m - 1]).spec_over(diff);
        (p.0.spec_plus(rho.spec_times(term)), p.1.spec_plus(rho.spec_times(term).spec_over(diff)))
    }
}

/// The bracket `(lower, upper)` and the first guess for root `i`. For
/// `rho >= 0` the root lies right of `d_i` (below `d_{i+1}`, or below
/// `d_i + rho z_i^2 + 1` for the last); for `rho < 0` left of `d_i` (above
/// `d_{i-1}`, or above `d_0 + rho z_0^2 - 1` for the first). Inner guesses
/// are midpoints; the outer ones are `d + rho z^2`.
pub open spec fn sec_bracket<T: Scalar>(d: Seq<T>, z: Seq<T>, rho: T, i: int) -> (T, T, T) {
    let n = d.len();
    let one = T::spec_from_usize(1);
    let two = T::spec_from_usize(2);
    if T::spec_from_usize(0).spec_le(rho) {
        let lower = d[i];
        if i < n - 1 {
            let upper = d[i + 1];
            (lower, upper, lower.spec_plus(upper).spec_over(two))
        } else {
            let w = rho.spec_times(z[i]).spec_times(z[i]);
            (lower, d[i].spec_plus(w).spec_plus(one), lower.spec_plus(w))
        }
    } else if i == 0 {
        let w = rho.spec_times(z[0]).spec_times(z[0]);
        let lower = d[0].spec_plus(w).spec_minus(one);
        (lower, d[0], lower.spec_plus(w))
    } else {
        let lower = d[i - 1];
        let upper = d[i];
        (lower, upper, lower.spec_plus(upper).spec_over(two))
    }
}

/// Up to `k` Newton steps from `lambda`: stop when `|f|` is below
/// `100 eps`; a step `f / f'` (zero when `|f'|` does not exceed `eps`)
/// that leaves the open bracket is replaced by a bisection toward the root
/// (toward `lower` when `rho >= 0` and `f > 0` agree).
pub open spec fn sec_newton<T: Scalar>(d: Seq<T>, z: Seq<T>, rho: T, lower: T, upper: T, lambda: T, k: nat) -> T
    decreases k,
{
    if k == 0 {
        lambda
    } else {
        let zero = T::spec_from_usize(0);
        let two = T::spec_from_usize(2);
        let eps = T::spec_epsilon();
        let fd = sec_terms(d, z, rho, lambda, d.len() as int);
        let f = fd.0;
        let df = fd.1;
        if f.spec_abs().spec_lt(eps.spec_times(T::spec_from_usize(100))) {
            lambda
        } else {
            let delta = if eps.spec_lt(df.spec_abs()) {
                f.spec_over(df)
            } else {
                zero
            };
            let next = lambda.spec_minus(delta);
            let nl = if next.spec_le(lower) || upper.spec_le(next) {
                if zero.spec_le(rho) == zero.spec_lt(f) {
                    lower.spec_plus(lambda).spec_over(two)
                } else {
                    lambda.spec_plus(upper).spec_over(two)
                }
            } else {
                next
            };
            sec_newton(d, z, rho, lower, upper, nl, (k - 1) as nat)
        }
    }
}

/// Root `i` of the secular equation: 40 guarded Newton steps from the
/// bracket's guess.
pub open spec fn sec_root<T: Scalar>(d: Seq<T>, z: Seq<T>, rho: T, i: int) -> T {
    let b = sec_bracket(d, z, rho, i);
    sec_newton(d, z, rho, b.0, b.1, b.2, 40)
}

/// `(f, f')` at `lambda` (see `sec_terms`).
fn secular_terms<T: Scalar>(d: &Vec<T>, z: &Vec<T>, rho: T, lambda: T) -> (r: (T, T))
    requires
        d@.len() == z@.len(),
    ensures
        r == sec_terms(d@, z@, rho, lambda, d@.len() as int),
{
    let n = d.len();
    let mut f = T::from_usize(1);
    let mut df = T::from_usize(0);
    let mut j: usize = 0;
    while j < n
        invariant
            j <= n,
            n == d@.len(),
            n == z@.len(),
            (f, df) == sec_terms(d@, z@, rho, lambda, j as int),
        decreases n - j,
    {
        let diff = d[j].minus(lambda);
        let term = z[j].times(z[j]).over(diff);
        f = f.plus(rho.times(term));
        df = df.plus(rho.times(term).over(diff));
        j = j + 1;
    }
    (f, df)
}

/// The roots of `1 + rho sum z_j^2 / (d_j - lambda) = 0`, one per pole
/// (see `sec_root`).
fn solve_secular_equation_core<T: Scalar>(d: &Vec<T>, z: &Vec<T>, rho: T) -> (roots: Vec<T>)
    requires
        d@.len() == z@.len(),
    ensures
        roots@ == Seq::new(d@.len(), |i: int| sec_root(d@, z@, rho, i)),
{
    let n = d.len();
    let zero = T::from_usize(0);
    let one = T::from_usize(1);
    let two = T::from_usize(2);
    let eps = T::epsilon();
    let hundred = T::from_usize(100);
    let rho_pos = zero.is_le(rho);
    let mut roots: Vec<T> = Vec::new();
    let mut i: usize = 0;
    while i < n
        invariant
            i <= n,
            n == d@.len(),
            n == z@.len(),
            zero == T::spec_from_usize(0),
            one == T::spec_from_usize(1),
            two == T::spec_from_usize(2),
            eps == T::spec_epsilon(),
            hundred == T::spec_from_usize(100),
            rho_pos == zero.spec_le(rho),
            roots@ == Seq::new(i as nat, |q: int| sec_root(d@, z@, rho, q)),
        decreases n - i,
    {
        let lower;
        let upper;
        let mut lambda;
        if rho_pos {
            lower = d[i];
            if i < n - 1 {
                upper = d[i + 1];
                lambda = lower.plus(upper).over(two);
            } else {
                let w = rho.times(z[i]).times(z[i]);
                upper = d[i].plus(w).plus(one);
                lambda = lower.plus(w);
            }
        } else if i == 0 {
            let w = rho.times(z[0]).times(z[0]);
            upper = d[0];
            lower = d[0].plus(w).minus(one);
            lambda = lower.plus(w);
        } else {
            lower = d[i - 1];
            upper = d[i];
            lambda = lower.plus(upper).over(two);
        }
        let ghost b = sec_bracket(d@, z@, rho, i as int);
        assert(lower == b.0 && upper == b.1 && lambda == b.2);
        let mut it: usize = 0;
        while it < 40
            invariant
                it <= 40,
                n == d@.len(),
                n == z@.len(),
                zero == T::spec_from_usize(0),
                two == T::spec_from_usize(2),
                eps == T::spec_epsilon(),
                hundred == T::spec_from_usize(100),
                rho_pos == zero.spec_le(rho),
                sec_newton(d@, z@, rho, lower, upper, lambda, (40 - it) as nat) == sec_root(d@, z@, rho, i as int),
            ensures
                lambda == sec_root(d@, z@, rho, i as int),
            decreases 40 - it,
        {
            let fd = secular_terms(d, z, rho, lambda);
            let f = fd.0;
            let df = fd.1;
            if f.abs().is_lt(eps.times(hundred)) {
                break;
            }
            let delta = if eps.is_lt(df.abs()) {
                f.over(df)
            } else {
                zero
            };
            let next = lambda.minus(delta);
            if next.is_le(lower) || upper.is_le(next) {
                if rho_pos == zero.is_lt(f) {
                    lambda = lower.plus(lambda).over(two);
                } else {
                    lambda = lambda.plus(upper).over(two);
                }
            } else {
                lambda = next;
            }
            it = it + 1;
        }
        roots.push(lambda);
        proof {
            assert(roots@ =~= Seq::new((i + 1) as nat, |q: int| sec_root(d@, z@, rho, q)));
        }
        i = i + 1;
    }
    roots
}

/// The poles kept by the deflation among the first `m`: those whose `|z|`
/// is not below `tol`, as `(d, z, index)`.
pub open spec fn defl_split<T: Scalar>(d: Seq<T>, z: Seq<T>, tol: T, m: int) -> (Seq<T>, Seq<T>, Seq<usize>)
    decreases m,
{
    if m <= 0 {
        (Seq::empty(), Seq::empty(), Seq::empty())
    } else {
        let p = defl_split(d, z, tol, m - 1);
        if z[m - 1].spec_abs().spec_lt(tol) {
            p
        } else {
            (p.0.push(d[m - 1]), p.1.push(z[m - 1]), p.2.push((m - 1) as usize))
        }
    }
}

/// The kept sequences have one length, no longer than `m`, and list
/// increasing indices below `m`.
pub proof fn lemma_defl_split<T: Scalar>(d: Seq<T>, z: Seq<T>, tol: T, m: int)
    requires
        0 <= m <= d.len(),
        m <= z.len(),
        m <= usize::MAX,
    ensures
        defl_split(d, z, tol, m).0.len() == defl_split(d, z, tol, m).2.len(),
        defl_split(d, z, tol, m).1.len() == defl_split(d, z, tol, m).2.len(),
        defl_split(d, z, tol, m).2.len() <= m,
        forall|t: int| 0 <= t < defl_split(d, z, tol, m).2.len() ==> #[trigger] defl_split(d, z, tol, m).2[t] < m,
        forall|t: int, u: int|
            0 <= t < u < defl_split(d, z, tol, m).2.len() ==> defl_split(d, z, tol, m).2[t] < defl_split(d, z, tol, m).2[u],
    decreases m,
{
    if m > 0 {
        lemma_defl_split(d, z, tol, m - 1);
        let p = defl_split(d, z, tol, m - 1);
        let q = defl_split(d, z, tol, m);
        if !z[m - 1].spec_abs().spec_lt(tol) {
            assert forall|t: int, u: int| 0 <= t < u < q.2.len() implies q.2[t] < q.2[u] by {
                assert(q.2[t] == p.2[t]);
                assert(p.2[t] < m - 1);
                if u < p.2.len() {
                    assert(q.2[u] == p.2[u]);
                    assert(p.2[t] < p.2[u]);
                } else {
                    assert(q.2[u] == m - 1);
                }
            }
        }
    }
}

/// `prod_j (lam_j - d_i) / (d_j - d_i)` (the `j = i` factor without
/// denominator) over the first `m` roots, from one.
pub open spec fn sz_prod<T: Scalar>(dd: Seq<T>, ar: Seq<T>, i: int, m: int) -> T
    decreases m,
{
    if m <= 0 {
        T::spec_from_usize(1)
    } else {
        let p = sz_prod(dd, ar, i, m - 1);
        let j = m - 1;
        let num = ar[j].spec_minus(dd[i]);
        if i == j {
            p.spec_times(num)
        } else {
            p.spec_times(num.spec_over(dd[j].spec_minus(dd[i])))
        }
    }
}

/// The recomputed `z` (Gu-Eisenstat): `sqrt(prod / rho)` (zero unless
/// positive) with the sign of the kept `z_i` (plus for `z_i >= 0`).
pub open spec fn stable_z<T: Scalar>(dd: Seq<T>, zd: Seq<T>, ar: Seq<T>, rho: T) -> Seq<T> {
    let zero = T::spec_from_usize(0);
    let one = T::spec_from_usize(1);
    Seq::new(
        dd.len(),
        |i: int|
            {
                let prod = sz_prod(dd, ar, i, dd.len() as int).spec_over(rho);
                let val = if zero.spec_lt(prod) {
                    prod.spec_sqrt()
                } else {
                    zero
                };
                let sign = if zero.spec_le(zd[i]) {
                    one
                } else {
                    one.spec_negate()
                };
                val.spec_times(sign)
            },
    )
}

/// Entry `i` of the unnormalized eigenvector for the root `lambda`:
/// `sz_i / (d_i - lambda)`, with `d_i - lambda` replaced by `+-eps` when
/// its modulus is below `eps`.
pub open spec fn ua_entry<T: Scalar>(dd: Seq<T>, sz: Seq<T>, lambda: T, i: int) -> T {
    let diff = dd[i].spec_minus(lambda);
    let eps = T::spec_epsilon();
    if diff.spec_abs().spec_lt(eps) {
        sz[i].spec_over(
            if T::spec_from_usize(0).spec_le(diff) {
                eps
            } else {
                eps.spec_negate()
            },
        )
    } else {
        sz[i].spec_over(diff)
    }
}

/// The squared norm of the first `m` entries, from zero.
pub open spec fn ua_norm_sq<T: Scalar>(dd: Seq<T>, sz: Seq<T>, lambda: T, m: int) -> T
    decreases m,
{
    if m <= 0 {
        T::spec_from_usize(0)
    } else {
        let v = ua_entry(dd, sz, lambda, m - 1);
        ua_norm_sq(dd, sz, lambda, m - 1).spec_plus(v.spec_times(v))
    }
}

/// The eigenvectors of the kept block, normalized: column `j` belongs to
/// root `ar[j]`.
pub open spec fn u_active<T: Scalar>(dd: Seq<T>, sz: Seq<T>, ar: Seq<T>) -> spec_fn(int, int) -> T {
    |i: int, j: int|
        {
            let lambda = ar[j];
            let inv = T::spec_from_usize(1).spec_over(ua_norm_sq(dd, sz, lambda, dd.len() as int).spec_sqrt());
            ua_entry(dd, sz, lambda, i).spec_times(inv)
        }
}

/// The roots of the whole problem after placing the first `t` kept roots
/// at their indices.
pub open spec fn place_roots<T: Scalar>(roots: Seq<T>, active: Seq<usize>, ar: Seq<T>, t: int) -> Seq<T>
    decreases t,
{
    if t <= 0 {
        roots
    } else {
        place_roots(roots, active, ar, t - 1).update(active[t - 1] as int, ar[t - 1])
    }
}

/// The outcome of the secular solve with deflation on `(d, z, rho)`: the
/// roots (a deflated pole is its own root; the kept ones come from
/// `sec_root` on the kept poles), the kept block's eigenvectors, and the
/// kept indices.
pub open spec fn sec_deflated<T: Scalar>(d: Seq<T>, z: Seq<T>, rho: T) -> (Seq<T>, spec_fn(int, int) -> T, Seq<usize>) {
    let tol = T::spec_epsilon().spec_times(T::spec_from_usize(100));
    let sp = defl_split(d, z, tol, d.len() as int);
    let ar = Seq::new(sp.0.len(), |i: int| sec_root(sp.0, sp.1, rho, i));
    let r0 = Seq::new(
        d.len(),
        |i: int|
            if z[i].spec_abs().spec_lt(tol) {
                d[i]
            } else {
                T::spec_zero()
            },
    );
    (place_roots(r0, sp.2, ar, sp.2.len() as int), u_active(sp.0, stable_z(sp.0, sp.1, ar, rho), ar), sp.2)
}

/// The secular equation with deflation (see `sec_deflated`); the matrix is
/// `k x k` for `k` kept poles.
fn solve_secular_equation_with_deflation<T: Scalar>(d: &Vec<T>, z: &Vec<T>, rho: T) -> (r: (Vec<T>, Matrix<T>, Vec<usize>))
    requires
        d@.len() == z@.len(),
        d@.len() * d@.len() <= usize::MAX,
    ensures
        r.0@ == sec_deflated(d@, z@, rho).0,
        r.0@.len() == d@.len(),
        r.2@ == sec_deflated(d@, z@, rho).2,
        r.1.wf(),
        r.1.nrows() == r.2@.len(),
        r.1.ncols() == r.2@.len(),
        holds(r.1, sec_deflated(d@, z@, rho).1),
{
    let n = d.len();
    let eps = T::epsilon();
    let tol = eps.times(T::from_usize(100));
    let mut d_deflated: Vec<T> = Vec::new();
    let mut z_deflated: Vec<T> = Vec::new();
    let mut active_indices: Vec<usize> = Vec::new();
    let mut roots: Vec<T> = Vec::new();
    let mut i: usize = 0;
    while i < n
        invariant
            i <= n,
            n == d@.len(),
            n == z@.len(),
            tol == T::spec_epsilon().spec_times(T::spec_from_usize(100)),
            roots@.len() == i,
            forall|q: int|
                0 <= q < i ==> #[trigger] roots@[q] == if z@[q].spec_abs().spec_lt(tol) {
                    d@[q]
                } else {
                    T::spec_zero()
                },
            (d_deflated@, z_deflated@, active_indices@) == defl_split(d@, z@, tol, i as int),
        decreases n - i,
    {
        if z[i].abs().is_lt(tol) {
            roots.push(d[i]);
        } else {
            roots.push(T::zero());
            d_deflated.push(d[i]);
            z_deflated.push(z[i]);
            active_indices.push(i);
        }
        i = i + 1;
    }
    proof {
        lemma_defl_split(d@, z@, tol, n as int);
    }
    let ghost sp = defl_split(d@, z@, tol, n as int);
    let k = d_deflated.len();
    let ghost r0 = roots@;
    assert(r0 =~= Seq::new(
        n as nat,
        |q: int|
            if z@[q].spec_abs().spec_lt(tol) {
                d@[q]
            } else {
                T::spec_zero()
            },
    ));
    assert(k * k <= usize::MAX) by (nonlinear_arith)
        requires
            k <= n,
            n * n <= usize::MAX,
    ;
    let mut u_act = Matrix::zeros(k, k);
    if k > 0 {
        let active_roots = solve_secular_equation_core(&d_deflated, &z_deflated, rho);
        let ghost ar = active_roots@;
        let zero = T::from_usize(0);
        let one = T::from_usize(1);
        let mut stable: Vec<T> = Vec::new();
        let mut i: usize = 0;
        while i < k
            invariant
                i <= k,
                k == d_deflated@.len(),
                k == z_deflated@.len(),
                k == active_roots@.len(),
                zero == T::spec_from_usize(0),
                one == T::spec_from_usize(1),
                stable@ == stable_z(d_deflated@, z_deflated@, active_roots@, rho).subrange(0, i as int),
            decreases k - i,
        {
            let mut prod = T::from_usize(1);
            let mut j: usize = 0;
            while j < k
                invariant
                    i < k,
                    j <= k,
                    k == d_deflated@.len(),
                    k == active_roots@.len(),
                    prod == sz_prod(d_deflated@, active_roots@, i as int, j as int),
                decreases k - j,
            {
                let num = active_roots[j].minus(d_deflated[i]);
                if i == j {
                    prod = prod.times(num);
                } else {
                    let den = d_deflated[j].minus(d_deflated[i]);
                    prod = prod.times(num.over(den));
                }
                j = j + 1;
            }
            prod = prod.over(rho);
            let val = if zero.is_lt(prod) {
                prod.sqrt()
            } else {
                zero
            };
            let sign = if zero.is_le(z_deflated[i]) {
                one
            } else {
                one.negate()
            };
            stable.push(val.times(sign));
            proof {
                assert(stable@ =~= stable_z(d_deflated@, z_deflated@, active_roots@, rho).subrange(0, i + 1));
            }
            i = i + 1;
        }
        assert(stable@ =~= stable_z(d_deflated@, z_deflated@, active_roots@, rho));
        let ghost sz = stable@;
        let ghost target = u_active(d_deflated@, sz, ar);
        let mut j: usize = 0;
        while j < k
            invariant
                j <= k,
                k == d_deflated@.len(),
                k == active_roots@.len(),
                k == stable@.len(),
                sz == stable@,
                ar == active_roots@,
                eps == T::spec_epsilon(),
                zero == T::spec_from_usize(0),
                one == T::spec_from_usize(1),
                target == u_active(d_deflated@, sz, ar),
                u_act.wf(),
                u_act.nrows() == k,
                u_act.ncols() == k,
                forall|a: int, b: int| #[trigger] u_act.in_bounds(a, b) && b < j ==> u_act.at(a, b) == target(a, b),
            decreases k - j,
        {
            let lambda = active_roots[j];
            let mut norm_sq = T::from_usize(0);
            let mut col: Vec<T> = Vec::new();
            let mut i: usize = 0;
            while i < k
                invariant
                    i <= k,
                    j < k,
                    k == d_deflated@.len(),
                    k == stable@.len(),
                    k == ar.len(),
                    sz == stable@,
                    eps == T::spec_epsilon(),
                    zero == T::spec_from_usize(0),
                    lambda == ar[j as int],
                    col@.len() == i,
                    forall|q: int| 0 <= q < i ==> #[trigger] col@[q] == ua_entry(d_deflated@, sz, lambda, q),
                    norm_sq == ua_norm_sq(d_deflated@, sz, lambda, i as int),
                decreases k - i,
            {
                let diff = d_deflated[i].minus(lambda);
                let val = if diff.abs().is_lt(eps) {
                    stable[i].over(
                        if zero.is_le(diff) {
                            eps
                        } else {
                            eps.negate()
                        },
                    )
                } else {
                    stable[i].over(diff)
                };
                col.push(val);
                norm_sq = norm_sq.plus(val.times(val));
                i = i + 1;
            }
            let norm = norm_sq.sqrt();
            let inv_norm = T::from_usize(1).over(norm);
            let mut i: usize = 0;
            while i < k
                invariant
                    i <= k,
                    j < k,
                    k == col@.len(),
                    lambda == ar[j as int],
                    forall|q: int| 0 <= q < k ==> #[trigger] col@[q] == ua_entry(d_deflated@, sz, lambda, q),
                    inv_norm == T::spec_from_usize(1).spec_over(ua_norm_sq(d_deflated@, sz, lambda, k as int).spec_sqrt()),
                    k == d_deflated@.len(),
                    k == ar.len(),
                    target == u_active(d_deflated@, sz, ar),
                    u_act.wf(),
                    u_act.nrows() == k,
                    u_act.ncols() == k,
                    forall|a: int, b: int| #[trigger]
                        u_act.in_bounds(a, b) && (b < j || (b == j && a < i)) ==> u_act.at(a, b) == target(a, b),
                decreases k - i,
            {
                let ghost before = u_act;
                u_act.set(i, j, col[i].times(inv_norm));
                proof {
                    assert forall|a: int, b: int| #[trigger] u_act.in_bounds(a, b) && (b < j || (b == j && a < i + 1)) implies u_act.at(a, b) == target(a, b) by {
                        assert(before.in_bounds(a, b));
                    }
                }
                i = i + 1;
            }
            j = j + 1;
        }
        let mut t: usize = 0;
        while t < k
            invariant
                t <= k,
                k == active_indices@.len(),
                k == active_roots@.len(),
                ar == active_roots@,
                roots@.len() == n,
                forall|q: int| 0 <= q < k ==> #[trigger] active_indices@[q] < n,
                roots@ == place_roots(r0, active_indices@, ar, t as int),
            decreases k - t,
        {
            let idx = active_indices[t];
            roots.set(idx, active_roots[t]);
            t = t + 1;
        }
    }
    (roots, u_act, active_indices)
}

/// The merge's comparison puts `x` after `y`: `y < x`, or `x` is
/// unordered (not equal to itself) while `y` is not.
pub open spec fn after<T: Scalar>(x: T, y: T) -> bool {
    if x.spec_lt(y) {
        false
    } else if y.spec_lt(x) {
        true
    } else if x.spec_eq(y) {
        false
    } else {
        !x.spec_eq(x) && y.spec_eq(y)
    }
}

/// `after` in executable form.
fn is_after<T: Scalar>(x: T, y: T) -> (r: bool)
    ensures
        r == after(x, y),
{
    if x.is_lt(y) {
        false
    } else if y.is_lt(x) {
        true
    } else if x.is_eq(y) {
        false
    } else {
        let x_nan = !x.is_eq(x);
        let y_nan = !y.is_eq(y);
        if x_nan && y_nan {
            false
        } else if x_nan {
            true
        } else {
            false
        }
    }
}

/// Moves the entry at `j` of the index sequence left past every entry
/// whose key it does not come after.
pub open spec fn ins_pass<T: Scalar>(key: Seq<T>, p: Seq<usize>, j: int) -> Seq<usize>
    decreases j,
{
    if j <= 0 {
        p
    } else if after(key[p[j - 1] as int], key[p[j] as int]) {
        ins_pass(key, p.update(j - 1, p[j]).update(j, p[j - 1]), j - 1)
    } else {
        p
    }
}

/// The insertion sort of the first `i` indices by `key` (stable: equal
/// keys keep their order, so for a comparison that orders all values this
/// is the order of any stable sort).
pub open spec fn ins_sort<T: Scalar>(key: Seq<T>, p: Seq<usize>, i: nat) -> Seq<usize>
    decreases i,
{
    if i == 0 {
        p
    } else {
        ins_pass(key, ins_sort(key, p, (i - 1) as nat), i - 1)
    }
}

/// A pass keeps the length and the bound on the entries.
pub proof fn lemma_ins_pass<T: Scalar>(key: Seq<T>, p: Seq<usize>, j: int, n: int)
    requires
        j < p.len(),
        forall|t: int| 0 <= t < p.len() ==> #[trigger] p[t] < n,
    ensures
        ins_pass(key, p, j).len() == p.len(),
        forall|t: int| 0 <= t < p.len() ==> #[trigger] ins_pass(key, p, j)[t] < n,
    decreases j,
{
    if j > 0 && after(key[p[j - 1] as int], key[p[j] as int]) {
        let q = p.update(j - 1, p[j]).update(j, p[j - 1]);
        assert forall|t: int| 0 <= t < q.len() implies #[trigger] q[t] < n by {
            if t != j - 1 && t != j {
                assert(q[t] == p[t]);
            }
        }
        lemma_ins_pass(key, q, j - 1, n);
    }
}

/// The sort keeps the length and the bound on the entries.
pub proof fn lemma_ins_sort<T: Scalar>(key: Seq<T>, p: Seq<usize>, i: nat, n: int)
    requires
        i <= p.len(),
        forall|t: int| 0 <= t < p.len() ==> #[trigger] p[t] < n,
    ensures
        ins_sort(key, p, i).len() == p.len(),
        forall|t: int| 0 <= t < p.len() ==> #[trigger] ins_sort(key, p, i)[t] < n,
    decreases i,
{
    if i > 0 {
        lemma_ins_sort(key, p, (i - 1) as nat, n);
        lemma_ins_pass(key, ins_sort(key, p, (i - 1) as nat), i - 1, n);
    }
}

/// One Givens deflation test at `i` on `(z, V)` (order `n`): when
/// `|d_i - d_{i+1}| < eps` and `r = sqrt(z_i^2 + z_{i+1}^2) > eps`, the
/// rotation `c = z_i / r`, `s = z_{i+1} / r` sets `z_i = r`, `z_{i+1} = 0`
/// and combines columns `i, i + 1` of `V` into `c v_i + s v_{i+1}` and
/// `-s v_i + c v_{i+1}`.
pub open spec fn gd_step<T: Scalar>(ds: Seq<T>, zs: Seq<T>, v: spec_fn(int, int) -> T, n: int, i: int) -> (Seq<T>, spec_fn(int, int) -> T) {
    let eps = T::spec_epsilon();
    if ds[i].spec_minus(ds[i + 1]).spec_abs().spec_lt(eps) {
        let a = zs[i];
        let b = zs[i + 1];
        let r = a.spec_times(a).spec_plus(b.spec_times(b)).spec_sqrt();
        if eps.spec_lt(r) {
            let c = a.spec_over(r);
            let s = b.spec_over(r);
            (
                zs.update(i, r).update(i + 1, T::spec_from_usize(0)),
                |row: int, col: int|
                    if 0 <= row < n && col == i {
                        c.spec_times(v(row, i)).spec_plus(s.spec_times(v(row, i + 1)))
                    } else if 0 <= row < n && col == i + 1 {
                        s.spec_negate().spec_times(v(row, i)).spec_plus(c.spec_times(v(row, i + 1)))
                    } else {
                        v(row, col)
                    },
            )
        } else {
            (zs, v)
        }
    } else {
        (zs, v)
    }
}

/// The first `t` deflation tests.
pub open spec fn gd<T: Scalar>(ds: Seq<T>, zs: Seq<T>, v: spec_fn(int, int) -> T, n: int, t: nat) -> (Seq<T>, spec_fn(int, int) -> T)
    decreases t,
{
    if t == 0 {
        (zs, v)
    } else {
        let p = gd(ds, zs, v, n, (t - 1) as nat);
        gd_step(ds, p.0, p.1, n, t - 1)
    }
}

/// `0 + V(r, a[0]) U(0, c) + ... + V(r, a[m-1]) U(m-1, c)` for the kept
/// columns `a`.
pub open spec fn act_sum<T: Scalar>(v: spec_fn(int, int) -> T, u: spec_fn(int, int) -> T, a: Seq<usize>, r: int, c: int, m: int) -> T
    decreases m,
{
    if m <= 0 {
        T::spec_from_usize(0)
    } else {
        act_sum(v, u, a, r, c, m - 1).spec_plus(v(r, a[m - 1] as int).spec_times(u(m - 1, c)))
    }
}

/// `V` with its first `t` kept columns replaced by `V_kept U` (the products
/// taken from the `V` before any replacement).
pub open spec fn act_update<T: Scalar>(v: spec_fn(int, int) -> T, u: spec_fn(int, int) -> T, a: Seq<usize>, n: int, t: int) -> spec_fn(int, int) -> T
    decreases t,
{
    if t <= 0 {
        v
    } else {
        let prev = act_update(v, u, a, n, t - 1);
        |r: int, col: int|
            if 0 <= r < n && col == a[t - 1] as int {
                act_sum(v, u, a, r, t - 1, a.len() as int)
            } else {
                prev(r, col)
            }
    }
}

/// The block-diagonal eigenvector matrix of the two torn blocks (`w1` of
/// order `k` on top), with its columns in the order `p`.
pub open spec fn merge_basis<T: Scalar>(p: Seq<usize>, k: int, w1: spec_fn(int, int) -> T, w2: spec_fn(int, int) -> T) -> spec_fn(int, int) -> T {
    |r: int, c: int|
        {
            let old = p[c] as int;
            if old < k {
                if r < k {
                    w1(r, old)
                } else {
                    T::spec_from_usize(0)
                }
            } else if r < k {
                T::spec_from_usize(0)
            } else {
                w2(r - k, old - k)
            }
        }
}

/// The merge of the eigen-decompositions `(v1, w1)` of the upper `k x k`
/// and `(v2, w2)` of the lower `(n - k) x (n - k)` torn blocks with the
/// rank-one term `rho`: the values are sorted (with `z`, the last row of
/// `w1` and the first of `w2`) by `ins_sort`; the block-diagonal `V` takes
/// the same column order; Givens deflation and the secular solve with
/// deflation follow, and the kept columns of `V` are multiplied by the
/// secular eigenvectors.
pub open spec fn merged<T: Scalar>(
    v1: Seq<T>,
    w1: spec_fn(int, int) -> T,
    v2: Seq<T>,
    w2: spec_fn(int, int) -> T,
    rho: T,
) -> (Seq<T>, spec_fn(int, int) -> T) {
    let k = v1.len() as int;
    let n = k + v2.len();
    let dm = v1 + v2;
    let zz = Seq::new(k as nat, |j: int| w1(k - 1, j)) + Seq::new(v2.len(), |j: int| w2(0, j));
    let p = ins_sort(dm, Seq::new(n as nat, |i: int| i as usize), n as nat);
    let ds = Seq::new(n as nat, |c: int| dm[p[c] as int]);
    let zs = Seq::new(n as nat, |c: int| zz[p[c] as int]);
    let g = gd(ds, zs, merge_basis(p, k, w1, w2), n, (n - 1) as nat);
    let sd = sec_deflated(ds, g.0, rho);
    (sd.0, act_update(g.1, sd.1, sd.2, n, sd.2.len() as int))
}

/// The merge step (see `merged`), for blocks of orders `k >= 1` and
/// `n - k >= 1`.
fn merge_halves<T: Scalar>(
    vals1: &Vec<T>,
    vecs1: &Matrix<T>,
    vals2: &Vec<T>,
    vecs2: &Matrix<T>,
    rho: T,
    Ghost(w1): Ghost<spec_fn(int, int) -> T>,
    Ghost(w2): Ghost<spec_fn(int, int) -> T>,
) -> (r: (Vec<T>, Matrix<T>))
    requires
        vals1@.len() >= 1,
        vals2@.len() >= 1,
        vecs1.wf(),
        vecs1.nrows() == vals1@.len(),
        vecs1.ncols() == vals1@.len(),
        holds(*vecs1, w1),
        vecs2.wf(),
        vecs2.nrows() == vals2@.len(),
        vecs2.ncols() == vals2@.len(),
        holds(*vecs2, w2),
        (vals1@.len() + vals2@.len()) * (vals1@.len() + vals2@.len()) <= usize::MAX,
    ensures
        r.0@ == merged(vals1@, w1, vals2@, w2, rho).0,
        r.0@.len() == vals1@.len() + vals2@.len(),
        r.1.wf(),
        r.1.nrows() == vals1@.len() + vals2@.len(),
        r.1.ncols() == vals1@.len() + vals2@.len(),
        holds(r.1, merged(vals1@, w1, vals2@, w2, rho).1),
{
    let k = vals1.len();
    let n2 = vals2.len();
    proof {
        assert(k + n2 <= (k + n2) * (k + n2)) by (nonlinear_arith)
            requires
                k + n2 >= 1,
        ;
    }
    let n = k + n2;
    let mut dm: Vec<T> = Vec::new();
    let mut i: usize = 0;
    while i < k
        invariant
            i <= k,
            k == vals1@.len(),
            dm@ == vals1@.subrange(0, i as int),
        decreases k - i,
    {
        dm.push(vals1[i]);
        proof {
            assert(dm@ =~= vals1@.subrange(0, i + 1));
        }
        i = i + 1;
    }
    let mut i: usize = 0;
    while i < n2
        invariant
            i <= n2,
            k == vals1@.len(),
            n2 == vals2@.len(),
            dm@ == vals1@ + vals2@.subrange(0, i as int),
        decreases n2 - i,
    {
        dm.push(vals2[i]);
        proof {
            assert(dm@ =~= vals1@ + vals2@.subrange(0, i + 1));
        }
        i = i + 1;
    }
    assert(dm@ =~= vals1@ + vals2@);
    let ghost zz = Seq::new(k as nat, |j: int| w1(k - 1, j)) + Seq::new(n2 as nat, |j: int| w2(0, j));
    let mut z: Vec<T> = Vec::new();
    let mut j: usize = 0;
    while j < k
        invariant
            j <= k,
            k >= 1,
            vecs1.wf(),
            vecs1.nrows() == k,
            vecs1.ncols() == k,
            holds(*vecs1, w1),
            z@ == zz.subrange(0, j as int),
            zz == Seq::new(k as nat, |q: int| w1(k - 1, q)) + Seq::new(n2 as nat, |q: int| w2(0, q)),
        decreases k - j,
    {
        assert(vecs1.in_bounds((k - 1) as int, j as int));
        z.push(vecs1.entry(k - 1, j));
        proof {
            assert(z@ =~= zz.subrange(0, j + 1));
        }
        j = j + 1;
    }
    let mut j: usize = 0;
    while j < n2
        invariant
            j <= n2,
            n2 >= 1,
            vecs2.wf(),
            vecs2.nrows() == n2,
            vecs2.ncols() == n2,
            holds(*vecs2, w2),
            z@ == zz.subrange(0, k + j),
            zz == Seq::new(k as nat, |q: int| w1(k - 1, q)) + Seq::new(n2 as nat, |q: int| w2(0, q)),
        decreases n2 - j,
    {
        assert(vecs2.in_bounds(0, j as int));
        z.push(vecs2.entry(0, j));
        proof {
            assert(z@ =~= zz.subrange(0, k + j + 1));
        }
        j = j + 1;
    }
    assert(z@ =~= zz);
    let ghost p0 = Seq::new(n as nat, |q: int| q as usize);
    let mut p: Vec<usize> = Vec::new();
    let mut i: usize = 0;
    while i < n
        invariant
            i <= n,
            p@ == p0.subrange(0, i as int),
            p0 == Seq::new(n as nat, |q: int| q as usize),
        decreases n - i,
    {
        p.push(i);
        proof {
            assert(p@ =~= p0.subrange(0, i + 1));
        }
        i = i + 1;
    }
    assert(p@ =~= p0);
    let mut i: usize = 0;
    while i < n
        invariant
            i <= n,
            n == dm@.len(),
            p@.len() == n,
            forall|t: int| 0 <= t < n ==> #[trigger] p@[t] < n,
            p@ == ins_sort(dm@, p0, i as nat),
            forall|t: int| 0 <= t < n ==> #[trigger] p0[t] < n,
            p0.len() == n,
        decreases n - i,
    {
        let ghost target = ins_pass(dm@, p@, i as int);
        let mut j = i;
        while j > 0 && is_after(dm[p[j - 1]], dm[p[j]])
            invariant
                j <= i < n,
                n == dm@.len(),
                p@.len() == n,
                forall|t: int| 0 <= t < n ==> #[trigger] p@[t] < n,
                ins_pass(dm@, p@, j as int) == target,
            decreases j,
        {
            let a = p[j - 1];
            let b = p[j];
            p.set(j - 1, b);
            p.set(j, a);
            j = j - 1;
        }
        proof {
            lemma_ins_sort(dm@, p0, (i + 1) as nat, n as int);
        }
        i = i + 1;
    }
    let ghost ps = ins_sort(dm@, p0, n as nat);
    let ghost ds = Seq::new(n as nat, |c: int| dm@[ps[c] as int]);
    let ghost zs0 = Seq::new(n as nat, |c: int| zz[ps[c] as int]);
    let mut d_sorted: Vec<T> = Vec::new();
    let mut z_curr: Vec<T> = Vec::new();
    let mut c: usize = 0;
    while c < n
        invariant
            c <= n,
            n == dm@.len(),
            n == z@.len(),
            p@ == ps,
            p@.len() == n,
            forall|t: int| 0 <= t < n ==> #[trigger] p@[t] < n,
            ds == Seq::new(n as nat, |q: int| dm@[ps[q] as int]),
            zs0 == Seq::new(n as nat, |q: int| zz[ps[q] as int]),
            z@ == zz,
            d_sorted@ == ds.subrange(0, c as int),
            z_curr@ == zs0.subrange(0, c as int),
        decreases n - c,
    {
        d_sorted.push(dm[p[c]]);
        z_curr.push(z[p[c]]);
        proof {
            assert(d_sorted@ =~= ds.subrange(0, c + 1));
            assert(z_curr@ =~= zs0.subrange(0, c + 1));
        }
        c = c + 1;
    }
    assert(d_sorted@ =~= ds);
    assert(z_curr@ =~= zs0);
    let zero = T::from_usize(0);
    let ghost v0 = merge_basis(ps, k as int, w1, w2);
    let mut v_new = Matrix::zeros(n, n);
    let mut c: usize = 0;
    while c < n
        invariant
            c <= n,
            n == k + n2,
            zero == T::spec_from_usize(0),
            v0 == merge_basis(ps, k as int, w1, w2),
            p@ == ps,
            p@.len() == n,
            forall|t: int| 0 <= t < n ==> #[trigger] p@[t] < n,
            vecs1.wf(),
            vecs1.nrows() == k,
            vecs1.ncols() == k,
            holds(*vecs1, w1),
            vecs2.wf(),
            vecs2.nrows() == n2,
            vecs2.ncols() == n2,
            holds(*vecs2, w2),
            v_new.wf(),
            v_new.nrows() == n,
            v_new.ncols() == n,
            forall|a: int, b: int| #[trigger] v_new.in_bounds(a, b) && b < c ==> v_new.at(a, b) == v0(a, b),
        decreases n - c,
    {
        let old_col = p[c];
        let ghost mid0 = v_new;
        let mut r: usize = 0;
        while r < k
            invariant
                r <= k,
                c < n,
                n == k + n2,
                old_col == ps[c as int],
                old_col < n,
                v0 == merge_basis(ps, k as int, w1, w2),
                zero == T::spec_from_usize(0),
                vecs1.wf(),
                vecs1.nrows() == k,
                vecs1.ncols() == k,
                holds(*vecs1, w1),
                v_new.wf(),
                v_new.nrows() == n,
                v_new.ncols() == n,
                forall|a: int, b: int| #[trigger]
                    v_new.in_bounds(a, b) ==> v_new.at(a, b) == if b == c && a < r {
                        v0(a, b)
                    } else {
                        mid0.at(a, b)
                    },
            decreases k - r,
        {
            let ghost before = v_new;
            if old_col < k {
                assert(vecs1.in_bounds(r as int, old_col as int));
                v_new.set(r, c, vecs1.entry(r, old_col));
            } else {
                v_new.set(r, c, zero);
            }
            proof {
                assert forall|a: int, b: int| #[trigger] v_new.in_bounds(a, b) implies v_new.at(a, b) == if b == c && a < r
                    + 1 {
                    v0(a, b)
                } else {
                    mid0.at(a, b)
                } by {
                    assert(before.in_bounds(a, b));
                }
            }
            r = r + 1;
        }
        let mut r: usize = 0;
        while r < n2
            invariant
                r <= n2,
                c < n,
                n == k + n2,
                old_col == ps[c as int],
                old_col < n,
                v0 == merge_basis(ps, k as int, w1, w2),
                zero == T::spec_from_usize(0),
                vecs2.wf(),
                vecs2.nrows() == n2,
                vecs2.ncols() == n2,
                holds(*vecs2, w2),
                v_new.wf(),
                v_new.nrows() == n,
                v_new.ncols() == n,
                forall|a: int, b: int| #[trigger]
                    v_new.in_bounds(a, b) ==> v_new.at(a, b) == if b == c && a < k + r {
                        v0(a, b)
                    } else {
                        mid0.at(a, b)
                    },
            decreases n2 - r,
        {
            let ghost before = v_new;
            if old_col < k {
                v_new.set(k + r, c, zero);
            } else {
                assert(vecs2.in_bounds(r as int, (old_col - k) as int));
                v_new.set(k + r, c, vecs2.entry(r, old_col - k));
            }
            proof {
                assert forall|a: int, b: int| #[trigger] v_new.in_bounds(a, b) implies v_new.at(a, b) == if b == c && a < k
                    + r + 1 {
                    v0(a, b)
                } else {
                    mid0.at(a, b)
                } by {
                    assert(before.in_bounds(a, b));
                }
            }
            r = r + 1;
        }
        proof {
            assert forall|a: int, b: int| #[trigger] v_new.in_bounds(a, b) && b < c + 1 implies v_new.at(a, b) == v0(a, b) by {
                assert(mid0.in_bounds(a, b));
            }
        }
        c = c + 1;
    }
    let eps = T::epsilon();
    let mut i: usize = 0;
    while i < n - 1
        invariant
            i <= n - 1,
            n >= 2,
            eps == T::spec_epsilon(),
            zero == T::spec_from_usize(0),
            d_sorted@ == ds,
            ds.len() == n,
            z_curr@ == gd(ds, zs0, v0, n as int, i as nat).0,
            z_curr@.len() == n,
            v_new.wf(),
            v_new.nrows() == n,
            v_new.ncols() == n,
            holds(v_new, gd(ds, zs0, v0, n as int, i as nat).1),
        decreases n - 1 - i,
    {
        let ghost g = gd(ds, zs0, v0, n as int, i as nat);
        let diff = d_sorted[i].minus(d_sorted[i + 1]).abs();
        if diff.is_lt(eps) {
            let a = z_curr[i];
            let b = z_curr[i + 1];
            let r = a.times(a).plus(b.times(b)).sqrt();
            if eps.is_lt(r) {
                let cg = a.over(r);
                let sg = b.over(r);
                let sn = sg.negate();
                z_curr.set(i, r);
                z_curr.set(i + 1, zero);
                let ghost target = gd_step(ds, g.0, g.1, n as int, i as int).1;
                let mut r_idx: usize = 0;
                while r_idx < n
                    invariant
                        r_idx <= n,
                        i + 1 < n,
                        target == gd_step(ds, g.0, g.1, n as int, i as int).1,
                        ds[i as int].spec_minus(ds[i + 1]).spec_abs().spec_lt(T::spec_epsilon()),
                        T::spec_epsilon().spec_lt(r),
                        r == g.0[i as int].spec_times(g.0[i as int]).spec_plus(g.0[i + 1].spec_times(g.0[i + 1])).spec_sqrt(),
                        cg == g.0[i as int].spec_over(r),
                        sg == g.0[i + 1].spec_over(r),
                        sn == sg.spec_negate(),
                        v_new.wf(),
                        v_new.nrows() == n,
                        v_new.ncols() == n,
                        forall|x: int, y: int| #[trigger]
                            v_new.in_bounds(x, y) ==> v_new.at(x, y) == if x < r_idx {
                                target(x, y)
                            } else {
                                g.1(x, y)
                            },
                    decreases n - r_idx,
                {
                    let ghost before = v_new;
                    assert(v_new.in_bounds(r_idx as int, i as int) && v_new.in_bounds(r_idx as int, (i + 1) as int));
                    let vi = v_new.entry(r_idx, i);
                    let vip1 = v_new.entry(r_idx, i + 1);
                    v_new.set(r_idx, i, cg.times(vi).plus(sg.times(vip1)));
                    let ghost mid = v_new;
                    v_new.set(r_idx, i + 1, sn.times(vi).plus(cg.times(vip1)));
                    proof {
                        assert forall|x: int, y: int| #[trigger] v_new.in_bounds(x, y) implies v_new.at(x, y) == if x < r_idx
                            + 1 {
                            target(x, y)
                        } else {
                            g.1(x, y)
                        } by {
                            assert(before.in_bounds(x, y));
                            assert(mid.in_bounds(x, y));
                        }
                    }
                    r_idx = r_idx + 1;
                }
                proof {
                    assert(z_curr@ =~= gd_step(ds, g.0, g.1, n as int, i as int).0);
                }
            }
        }
        i = i + 1;
    }
    let ghost g = gd(ds, zs0, v0, n as int, (n - 1) as nat);
    let (roots, u_act, active) = solve_secular_equation_with_deflation(&d_sorted, &z_curr, rho);
    let ghost sd = sec_deflated(ds, g.0, rho);
    let k_act = active.len();
    proof {
        lemma_defl_split(ds, g.0, T::spec_epsilon().spec_times(T::spec_from_usize(100)), n as int);
    }
    if k_act > 0 {
        let _ = n.checked_mul(k_act);
        proof {
            assert(n * k_act <= n * n) by (nonlinear_arith)
                requires
                    k_act <= n,
            ;
        }
        let mut v_act = Matrix::zeros(n, k_act);
        let mut c_act: usize = 0;
        while c_act < k_act
            invariant
                c_act <= k_act,
                k_act == active@.len(),
                k_act <= n,
                active@ == sd.2,
                forall|t: int| 0 <= t < k_act ==> #[trigger] active@[t] < n,
                u_act.wf(),
                u_act.nrows() == k_act,
                u_act.ncols() == k_act,
                holds(u_act, sd.1),
                v_new.wf(),
                v_new.nrows() == n,
                v_new.ncols() == n,
                holds(v_new, g.1),
                v_act.wf(),
                v_act.nrows() == n,
                v_act.ncols() == k_act,
                forall|a: int, b: int| #[trigger] v_act.in_bounds(a, b) && b < c_act ==> v_act.at(a, b) == act_sum(g.1, sd.1, sd.2, a, b, k_act as int),
            decreases k_act - c_act,
        {
            let mut r_idx: usize = 0;
            while r_idx < n
                invariant
                    r_idx <= n,
                    c_act < k_act,
                    k_act == active@.len(),
                    k_act <= n,
                    active@ == sd.2,
                    forall|t: int| 0 <= t < k_act ==> #[trigger] active@[t] < n,
                    u_act.wf(),
                    u_act.nrows() == k_act,
                    u_act.ncols() == k_act,
                    holds(u_act, sd.1),
                    v_new.wf(),
                    v_new.nrows() == n,
                    v_new.ncols() == n,
                    holds(v_new, g.1),
                    v_act.wf(),
                    v_act.nrows() == n,
                    v_act.ncols() == k_act,
                    forall|a: int, b: int| #[trigger]
                        v_act.in_bounds(a, b) && (b < c_act || (b == c_act && a < r_idx)) ==> v_act.at(a, b) == act_sum(g.1, sd.1, sd.2, a, b, k_act as int),
                decreases n - r_idx,
            {
                let mut sum = T::from_usize(0);
                let mut k_idx: usize = 0;
                while k_idx < k_act
                    invariant
                        k_idx <= k_act,
                        r_idx < n,
                        c_act < k_act,
                        k_act == active@.len(),
                        active@ == sd.2,
                        forall|t: int| 0 <= t < k_act ==> #[trigger] active@[t] < n,
                        u_act.wf(),
                        u_act.nrows() == k_act,
                        u_act.ncols() == k_act,
                        holds(u_act, sd.1),
                        v_new.wf(),
                        v_new.nrows() == n,
                        v_new.ncols() == n,
                        holds(v_new, g.1),
                        sum == act_sum(g.1, sd.1, sd.2, r_idx as int, c_act as int, k_idx as int),
                    decreases k_act - k_idx,
                {
                    let basis = active[k_idx];
                    assert(u_act.in_bounds(k_idx as int, c_act as int));
                    assert(v_new.in_bounds(r_idx as int, basis as int));
                    let u_val = u_act.entry(k_idx, c_act);
                    let v_val = v_new.entry(r_idx, basis);
                    sum = sum.plus(v_val.times(u_val));
                    k_idx = k_idx + 1;
                }
                let ghost before = v_act;
                v_act.set(r_idx, c_act, sum);
                proof {
                    assert forall|a: int, b: int| #[trigger] v_act.in_bounds(a, b) && (b < c_act || (b == c_act && a < r_idx + 1)) implies v_act.at(a, b)
                        == act_sum(g.1, sd.1, sd.2, a, b, k_act as int) by {
                        assert(before.in_bounds(a, b));
                    }
                }
                r_idx = r_idx + 1;
            }
            c_act = c_act + 1;
        }
        let mut c_act: usize = 0;
        while c_act < k_act
            invariant
                c_act <= k_act,
                k_act == active@.len(),
                active@ == sd.2,
                forall|t: int| 0 <= t < k_act ==> #[trigger] active@[t] < n,
                v_act.wf(),
                v_act.nrows() == n,
                v_act.ncols() == k_act,
                forall|a: int, b: int| #[trigger] v_act.in_bounds(a, b) ==> v_act.at(a, b) == act_sum(g.1, sd.1, sd.2, a, b, k_act as int),
                v_new.wf(),
                v_new.nrows() == n,
                v_new.ncols() == n,
                holds(v_new, act_update(g.1, sd.1, sd.2, n as int, c_act as int)),
            decreases k_act - c_act,
        {
            let col_idx = active[c_act];
            let ghost prev = act_update(g.1, sd.1, sd.2, n as int, c_act as int);
            let ghost next = act_update(g.1, sd.1, sd.2, n as int, c_act + 1);
            let mut r_idx: usize = 0;
            while r_idx < n
                invariant
                    r_idx <= n,
                    c_act < k_act,
                    k_act == active@.len(),
                    active@ == sd.2,
                    col_idx == active@[c_act as int],
                    col_idx < n,
                    next == act_update(g.1, sd.1, sd.2, n as int, c_act + 1),
                    v_act.wf(),
                    v_act.nrows() == n,
                    v_act.ncols() == k_act,
                    forall|a: int, b: int| #[trigger] v_act.in_bounds(a, b) ==> v_act.at(a, b) == act_sum(g.1, sd.1, sd.2, a, b, k_act as int),
                    v_new.wf(),
                    v_new.nrows() == n,
                    v_new.ncols() == n,
                    forall|a: int, b: int| #[trigger]
                        v_new.in_bounds(a, b) ==> v_new.at(a, b) == if b == col_idx && a < r_idx {
                            next(a, b)
                        } else {
                            prev(a, b)
                        },
                decreases n - r_idx,
            {
                let ghost before = v_new;
                assert(v_act.in_bounds(r_idx as int, c_act as int));
                v_new.set(r_idx, col_idx, v_act.entry(r_idx, c_act));
                proof {
                    assert forall|a: int, b: int| #[trigger] v_new.in_bounds(a, b) implies v_new.at(a, b) == if b == col_idx && a
                        < r_idx + 1 {
                        next(a, b)
                    } else {
                        prev(a, b)
                    } by {
                        assert(before.in_bounds(a, b));
                    }
                }
                r_idx = r_idx + 1;
            }
            proof {
                assert forall|a: int, b: int| #[trigger] v_new.in_bounds(a, b) implies v_new.at(a, b) == next(a, b) by {}
            }
            c_act = c_act + 1;
        }
    }
    (roots, v_new)
}

/// The symmetric tridiagonal matrix with diagonal `diag` and off-diagonal
/// `off` (zero elsewhere).
pub open spec fn tri_grid<T: Scalar>(diag: Seq<T>, off: Seq<T>) -> spec_fn(int, int) -> T {
    |i: int, j: int|
        if i == j {
            diag[i]
        } else if j == i + 1 {
            off[i]
        } else if i == j + 1 {
            off[j]
        } else {
            T::spec_zero()
        }
}

/// The course of a divide and conquer on a tridiagonal matrix: nothing to
/// do (order zero), a leaf solved by the selfadjoint eigensolver (the
/// matrix it was given and its result), or a tearing into two halves.
pub enum DcTree<T: Scalar> {
    Empty,
    Leaf(Matrix<T>, SelfAdjointEigenSolver<T>),
    Node(Box<DcTree<T>>, Box<DcTree<T>>),
}

/// The upper half of the tearing of `(diag, off)` at `k = n / 2`: `diag`
/// loses `beta = off[k - 1]` at `k - 1`.
pub open spec fn torn_upper<T: Scalar>(diag: Seq<T>, off: Seq<T>) -> Seq<T> {
    let k = diag.len() / 2;
    diag.subrange(0, k as int).update(k - 1, diag[k - 1].spec_minus(off[k - 1]))
}

/// The lower half of the tearing: `diag` loses `beta` at `k`.
pub open spec fn torn_lower<T: Scalar>(diag: Seq<T>, off: Seq<T>) -> Seq<T> {
    let k = diag.len() / 2;
    diag.subrange(k as int, diag.len() as int).update(0, diag[k as int].spec_minus(off[k - 1]))
}

/// Whether `t` is a valid course for the symmetric tridiagonal matrix
/// `(diag, off)` of order `n`, and the eigenvalues and eigenvectors it
/// gives. Order zero gives nothing. Below order 16 a leaf holds a matrix
/// with the entries of the tridiagonal one and the selfadjoint
/// eigensolver's result on it. From order 16 the matrix is torn at
/// `k = n / 2` with `beta = off[k - 1]`, both halves are solved, and the
/// results are merged with `rho = beta` (see `merged`).
pub open spec fn dc_result<T: Scalar>(t: DcTree<T>, diag: Seq<T>, off: Seq<T>) -> (bool, Seq<T>, spec_fn(int, int) -> T)
    decreases t,
{
    let n = diag.len();
    match t {
        DcTree::Empty => (n == 0, Seq::empty(), |i: int, j: int| T::spec_zero()),
        DcTree::Leaf(c, e) => (
            {
                &&& 0 < n < 16
                &&& c.wf()
                &&& c.nrows() == n
                &&& c.ncols() == n
                &&& holds(c, tri_grid(diag, off))
                &&& standard_result(c, true, e)
                &&& e.vectors() matches Some(v)
                &&& v.nrows() == n
                &&& v.ncols() == n
            },
            e.values().elems(),
            grid(e.vectors().unwrap()),
        ),
        DcTree::Node(l, r) => {
            let k = n / 2;
            let a = dc_result(*l, torn_upper(diag, off), off.subrange(0, k - 1));
            let b = dc_result(*r, torn_lower(diag, off), off.subrange(k as int, n - 1));
            let m = merged(a.1, a.2, b.1, b.2, off[k - 1]);
            (n >= 16 && a.0 && b.0 && a.1.len() == k && b.1.len() == n - k, m.0, m.1)
        },
    }
}

/// The eigenvalues and eigenvectors of the symmetric tridiagonal matrix
/// `(diag, off)` by divide and conquer, with the course it took (see
/// `dc_result`). The type has the trigonometric functions (it is real),
/// which the selfadjoint eigensolver uses on order three.
fn compute_sym_tri_dc<T: Scalar>(diag: &Vec<T>, off_diag: &Vec<T>) -> (r: (Result<(Vec<T>, Matrix<T>), String>, Ghost<DcTree<T>>))
    requires
        T::spec_has_trig(),
        diag@.len() >= 1 ==> off_diag@.len() + 1 == diag@.len(),
        diag@.len() * diag@.len() <= usize::MAX,
    ensures
        r.0 is Ok,
        r.0 matches Ok(res) ==> {
            let d = dc_result(r.1@, diag@, off_diag@);
            &&& d.0
            &&& res.0@ == d.1
            &&& res.0@.len() == diag@.len()
            &&& res.1.wf()
            &&& res.1.nrows() == diag@.len()
            &&& res.1.ncols() == diag@.len()
            &&& holds(res.1, d.2)
        },
    decreases diag@.len(),
{
    let n = diag.len();
    if n == 0 {
        return (Ok((Vec::new(), Matrix::zeros(0, 0))), Ghost(DcTree::Empty));
    }
    if n < 16 {
        let mut mat = Matrix::zeros(n, n);
        let ghost tg = tri_grid(diag@, off_diag@);
        let mut i: usize = 0;
        while i < n
            invariant
                i <= n,
                n == diag@.len(),
                off_diag@.len() + 1 == n,
                tg == tri_grid(diag@, off_diag@),
                mat.wf(),
                mat.nrows() == n,
                mat.ncols() == n,
                forall|a: int, b: int| #[trigger]
                    mat.in_bounds(a, b) ==> mat.at(a, b) == if a < i || b < i {
                        tg(a, b)
                    } else {
                        T::spec_zero()
                    },
            decreases n - i,
        {
            let ghost b0 = mat;
            mat.set(i, i, diag[i]);
            let ghost b1 = mat;
            if i < n - 1 {
                mat.set(i, i + 1, off_diag[i]);
                let ghost b2 = mat;
                mat.set(i + 1, i, off_diag[i]);
                proof {
                    assert forall|a: int, b: int| #[trigger] mat.in_bounds(a, b) implies mat.at(a, b) == if a < i + 1 || b
                        < i + 1 {
                        tg(a, b)
                    } else {
                        T::spec_zero()
                    } by {
                        assert(b0.in_bounds(a, b) && b1.in_bounds(a, b) && b2.in_bounds(a, b));
                    }
                }
            } else {
                proof {
                    assert forall|a: int, b: int| #[trigger] mat.in_bounds(a, b) implies mat.at(a, b) == if a < i + 1 || b
                        < i + 1 {
                        tg(a, b)
                    } else {
                        T::spec_zero()
                    } by {
                        assert(b0.in_bounds(a, b) && b1.in_bounds(a, b));
                    }
                }
            }
            i = i + 1;
        }
        let eig = match SelfAdjointEigenSolver::new(&mat, true) {
            Ok(e) => e,
            Err(e) => {
                return (Err(e), Ghost(DcTree::Empty));
            },
        };
        let data = eig.eigenvalues().data();
        let mut vals: Vec<T> = Vec::new();
        let mut q: usize = 0;
        while q < data.len()
            invariant
                q <= data@.len(),
                vals@ == data@.subrange(0, q as int),
            decreases data@.len() - q,
        {
            vals.push(data[q]);
            proof {
                assert(vals@ =~= data@.subrange(0, q + 1));
            }
            q = q + 1;
        }
        assert(vals@ =~= data@);
        proof {
            assert(eig.vectors() matches Some(v) && v.nrows() == n && v.ncols() == n);
        }
        let vecs = eig.eigenvectors().unwrap().copy();
        proof {
            assert(standard_result(mat, true, eig));
        }
        return (Ok((vals, vecs)), Ghost(DcTree::Leaf(mat, eig)));
    }
    let k = n / 2;
    let beta = off_diag[k - 1];
    let mut d1: Vec<T> = Vec::new();
    let mut o1: Vec<T> = Vec::new();
    let mut d2: Vec<T> = Vec::new();
    let mut o2: Vec<T> = Vec::new();
    let ghost sd1 = diag@.subrange(0, k as int).update(k - 1, diag@[k - 1].spec_minus(beta));
    let ghost sd2 = diag@.subrange(k as int, n as int).update(0, diag@[k as int].spec_minus(beta));
    let mut i: usize = 0;
    while i < k
        invariant
            i <= k,
            k == n / 2,
            n == diag@.len(),
            n >= 16,
            beta == off_diag@[k - 1],
            sd1 == diag@.subrange(0, k as int).update(k - 1, diag@[k - 1].spec_minus(beta)),
            d1@ == sd1.subrange(0, i as int),
        decreases k - i,
    {
        if i + 1 == k {
            d1.push(diag[i].minus(beta));
        } else {
            d1.push(diag[i]);
        }
        proof {
            assert(d1@ =~= sd1.subrange(0, i + 1));
        }
        i = i + 1;
    }
    let mut i: usize = k;
    while i < n
        invariant
            k <= i <= n,
            k == n / 2,
            n == diag@.len(),
            n >= 16,
            beta == off_diag@[k - 1],
            sd2 == diag@.subrange(k as int, n as int).update(0, diag@[k as int].spec_minus(beta)),
            d2@ == sd2.subrange(0, i - k),
        decreases n - i,
    {
        if i == k {
            d2.push(diag[i].minus(beta));
        } else {
            d2.push(diag[i]);
        }
        proof {
            assert(d2@ =~= sd2.subrange(0, i + 1 - k));
        }
        i = i + 1;
    }
    let mut i: usize = 0;
    while i < n - 1
        invariant
            i <= n - 1,
            n == diag@.len(),
            n >= 16,
            k == n / 2,
            off_diag@.len() + 1 == n,
            i <= k - 1 ==> o1@ == off_diag@.subrange(0, i as int) && o2@.len() == 0,
            i > k - 1 ==> o1@ == off_diag@.subrange(0, k - 1) && i >= k && o2@ == off_diag@.subrange(k as int, i as int),
        decreases n - 1 - i,
    {
        if i < k - 1 {
            o1.push(off_diag[i]);
            proof {
                assert(o1@ =~= off_diag@.subrange(0, i + 1));
            }
        } else if i >= k {
            o2.push(off_diag[i]);
            proof {
                assert(o2@ =~= off_diag@.subrange(k as int, i + 1));
            }
        }
        i = i + 1;
    }
    proof {
        assert(k * k <= n * n && (n - k) * (n - k) <= n * n) by (nonlinear_arith)
            requires
                k <= n,
        ;
    }
    let (r1, t1) = compute_sym_tri_dc(&d1, &o1);
    let (vals1, vecs1) = match r1 {
        Ok(res) => res,
        Err(e) => {
            return (Err(e), Ghost(DcTree::Empty));
        },
    };
    let (r2, t2) = compute_sym_tri_dc(&d2, &o2);
    let (vals2, vecs2) = match r2 {
        Ok(res) => res,
        Err(e) => {
            return (Err(e), Ghost(DcTree::Empty));
        },
    };
    proof {
        assert(d1@ =~= sd1);
        assert(d2@ =~= sd2);
        assert(o1@ =~= off_diag@.subrange(0, k - 1));
        assert(o2@ =~= off_diag@.subrange(k as int, n - 1));
        assert(sd1 == torn_upper(diag@, off_diag@));
        assert(sd2 == torn_lower(diag@, off_diag@));
    }
    let ghost a = dc_result(t1@, d1@, o1@);
    let ghost b = dc_result(t2@, d2@, o2@);
    let (roots, v_new) = merge_halves(&vals1, &vecs1, &vals2, &vecs2, beta, Ghost(a.2), Ghost(b.2));
    let ghost tree = DcTree::Node(Box::new(t1@), Box::new(t2@));
    proof {
        assert(dc_result(tree, diag@, off_diag@).0);
    }
    (Ok((roots, v_new)), Ghost(tree))
}


/// The upper bidiagonal matrix with diagonal `diag` and superdiagonal
/// `sup` (zero elsewhere).
pub open spec fn bidiag_grid<T: Scalar>(diag: Seq<T>, sup: Seq<T>) -> spec_fn(int, int) -> T {
    |i: int, j: int|
        if i == j {
            diag[i]
        } else if j == i + 1 {
            sup[i]
        } else {
            T::spec_zero()
        }
}

/// The first `i` from `from` on (below `n - 1`) at which the
/// superdiagonal entry is negligible, `|sup_i| <= eps (|d_i| + |d_{i+1}|)`;
/// `n - 1` when there is none.
pub open spec fn split_at<T: Scalar>(diag: Seq<T>, sup: Seq<T>, from: int) -> int
    decreases diag.len() - from,
{
    let n = diag.len() as int;
    if from >= n - 1 {
        n - 1
    } else if sup[from].spec_abs().spec_le(
        T::spec_epsilon().spec_times(diag[from].spec_abs().spec_plus(diag[from + 1].spec_abs())),
    ) {
        from
    } else {
        split_at(diag, sup, from + 1)
    }
}

/// The split point lies in `from ..= n - 1`.
pub proof fn lemma_split_at<T: Scalar>(diag: Seq<T>, sup: Seq<T>, from: int)
    requires
        0 <= from,
        diag.len() >= 1,
    ensures
        from <= diag.len() - 1 ==> from <= split_at(diag, sup, from),
        split_at(diag, sup, from) <= diag.len() - 1,
        split_at(diag, sup, from) >= 0,
    decreases diag.len() - from,
{
    if from < diag.len() - 1 && !sup[from].spec_abs().spec_le(
        T::spec_epsilon().spec_times(diag[from].spec_abs().spec_plus(diag[from + 1].spec_abs())),
    ) {
        lemma_split_at(diag, sup, from + 1);
    }
}

/// The diagonal of the tridiagonal `B^T B`: `d_i^2 + s_{i-1}^2` (the
/// image of zero for `i = 0`).
pub open spec fn gram_diag<T: Scalar>(diag: Seq<T>, sup: Seq<T>) -> Seq<T> {
    Seq::new(
        diag.len(),
        |i: int|
            diag[i].spec_times(diag[i]).spec_plus(
                if i > 0 {
                    sup[i - 1].spec_times(sup[i - 1])
                } else {
                    T::spec_from_usize(0)
                },
            ),
    )
}

/// The off-diagonal of `B^T B`: `d_i s_i`.
pub open spec fn gram_off<T: Scalar>(diag: Seq<T>, sup: Seq<T>) -> Seq<T> {
    Seq::new((diag.len() - 1) as nat, |i: int| diag[i].spec_times(sup[i]))
}

/// The singular values from the eigenvalues of `B^T B`: the square root,
/// or zero for a negative eigenvalue.
pub open spec fn sv_of<T: Scalar>(vals: Seq<T>) -> Seq<T> {
    Seq::new(
        vals.len(),
        |j: int|
            if vals[j].spec_lt(T::spec_from_usize(0)) {
                T::spec_from_usize(0)
            } else {
                vals[j].spec_sqrt()
            },
    )
}

/// `U = B V S^{-1}` column by column; a column whose singular value has
/// modulus not above `10 eps` stays zero.
pub open spec fn u_of<T: Scalar>(diag: Seq<T>, sup: Seq<T>, v: spec_fn(int, int) -> T, s: Seq<T>) -> spec_fn(int, int) -> T {
    let n = diag.len() as int;
    |i: int, j: int|
        if T::spec_epsilon().spec_times(T::spec_from_usize(10)).spec_lt(s[j].spec_abs()) {
            let bv = if i < n - 1 {
                diag[i].spec_times(v(i, j)).spec_plus(sup[i].spec_times(v(i + 1, j)))
            } else {
                diag[i].spec_times(v(i, j))
            };
            bv.spec_times(T::spec_from_usize(1).spec_over(s[j]))
        } else {
            T::spec_zero()
        }
}

/// The block-diagonal matrix with `g1` (order `p`) on top and `g2` below.
pub open spec fn block_diag<T: Scalar>(g1: spec_fn(int, int) -> T, g2: spec_fn(int, int) -> T, p: int) -> spec_fn(int, int) -> T {
    |r: int, c: int|
        if r < p && c < p {
            g1(r, c)
        } else if r >= p && c >= p {
            g2(r - p, c - p)
        } else {
            T::spec_zero()
        }
}

/// The course of the SVD of a bidiagonal matrix: nothing to do (order
/// zero), a block below 32 solved by the Jacobi SVD (the matrix it was
/// given and its result), a larger block solved through `B^T B`, or a
/// split into two blocks at a negligible superdiagonal entry.
pub enum BdcTree<T: Scalar> {
    Empty,
    Jacobi(Matrix<T>, JacobiSVD<T>),
    Block(DcTree<T>),
    Split(Box<BdcTree<T>>, Box<BdcTree<T>>),
}

/// Whether `t` is a valid course for the bidiagonal matrix `(diag, sup)`
/// of order `n`, and the `U`, singular values and `V` it gives (the
/// matrices on their `n x n` squares). The first negligible superdiagonal
/// entry (see `split_at`) splits the matrix into the blocks before and
/// after it, solved alone and put together block-diagonally. Without one,
/// a block below 32 goes to the Jacobi SVD, a larger one to the divide and
/// conquer on `B^T B` (see `gram_diag`, `sv_of`, `u_of`).
pub open spec fn bdc_result<T: Scalar>(t: BdcTree<T>, diag: Seq<T>, sup: Seq<T>) -> (
    bool,
    spec_fn(int, int) -> T,
    Seq<T>,
    spec_fn(int, int) -> T,
)
    decreases t,
{
    let n = diag.len() as int;
    let zero = |i: int, j: int| T::spec_zero();
    match t {
        BdcTree::Empty => (n == 0, zero, Seq::empty(), zero),
        BdcTree::Jacobi(c, d) => (
            {
                &&& 0 < n < 32
                &&& split_at(diag, sup, 0) == n - 1
                &&& c.wf()
                &&& c.nrows() == n
                &&& c.ncols() == n
                &&& holds(c, bidiag_grid(diag, sup))
                &&& svd_outcome(c, d)
            },
            grid(d.left()),
            d.values(),
            grid(d.right()),
        ),
        BdcTree::Block(dt) => {
            let dr = dc_result(dt, gram_diag(diag, sup), gram_off(diag, sup));
            let s = sv_of(dr.1);
            (n >= 32 && split_at(diag, sup, 0) == n - 1 && dr.0, u_of(diag, sup, dr.2, s), s, dr.2)
        },
        BdcTree::Split(l, r) => {
            let i = split_at(diag, sup, 0);
            let a = bdc_result(*l, diag.subrange(0, i + 1), sup.subrange(0, i));
            let b = bdc_result(*r, diag.subrange(i + 1, n), sup.subrange(i + 1, n - 1));
            (
                n > 0 && i < n - 1 && a.0 && b.0 && a.2.len() == i + 1,
                block_diag(a.1, b.1, i + 1),
                a.2 + b.2,
                block_diag(a.3, b.3, i + 1),
            )
        },
    }
}

/// Copies the first `rows x cols` entries of `src` into `dst` at offset
/// `(off, off)` (see `block_diag`).
fn put_block<T: Scalar>(dst: &mut Matrix<T>, src: &Matrix<T>, off: usize, Ghost(g): Ghost<spec_fn(int, int) -> T>)
    requires
        old(dst).wf(),
        src.wf(),
        off + src.nrows() <= old(dst).nrows(),
        off + src.ncols() <= old(dst).ncols(),
    ensures
        final(dst).wf(),
        final(dst).same_shape(old(dst)),
        forall|r: int, c: int| #[trigger]
            final(dst).in_bounds(r, c) ==> final(dst).at(r, c) == if off <= r < off + src.nrows() && off <= c < off
                + src.ncols() {
                src.at(r - off, c - off)
            } else {
                old(dst).at(r, c)
            },
{
    let rows = src.rows();
    let cols = src.cols();
    let ghost d0 = *dst;
    proof {
        dst.lemma_dims_fit();
    }
    let mut r: usize = 0;
    while r < rows
        invariant
            d0.nrows() <= usize::MAX,
            d0.ncols() <= usize::MAX,
            r <= rows,
            rows == src.nrows(),
            cols == src.ncols(),
            src.wf(),
            dst.wf(),
            dst.same_shape(&d0),
            off + rows <= dst.nrows(),
            off + cols <= dst.ncols(),
            forall|a: int, b: int| #[trigger]
                dst.in_bounds(a, b) ==> dst.at(a, b) == if off <= a < off + r && off <= b < off + cols {
                    src.at(a - off, b - off)
                } else {
                    d0.at(a, b)
                },
        decreases rows - r,
    {
        let mut c: usize = 0;
        while c < cols
            invariant
                r < rows,
                c <= cols,
                rows == src.nrows(),
                cols == src.ncols(),
                src.wf(),
                dst.wf(),
                dst.same_shape(&d0),
                off + rows <= dst.nrows(),
                off + cols <= dst.ncols(),
                forall|a: int, b: int| #[trigger]
                    dst.in_bounds(a, b) ==> dst.at(a, b) == if (off <= a < off + r && off <= b < off + cols) || (a == off + r
                        && off <= b < off + c) {
                        src.at(a - off, b - off)
                    } else {
                        d0.at(a, b)
                    },
                d0.nrows() <= usize::MAX,
                d0.ncols() <= usize::MAX,
            decreases cols - c,
        {
            let ghost before = *dst;
            assert(src.in_bounds(r as int, c as int));
            dst.set(off + r, off + c, src.entry(r, c));
            proof {
                assert forall|a: int, b: int| #[trigger] dst.in_bounds(a, b) implies dst.at(a, b) == if (off <= a < off + r
                    && off <= b < off + cols) || (a == off + r && off <= b < off + c + 1) {
                    src.at(a - off, b - off)
                } else {
                    d0.at(a, b)
                } by {
                    assert(before.in_bounds(a, b));
                }
            }
            c = c + 1;
        }
        r = r + 1;
    }
}

/// A copy of a slice into a vector.
fn to_vec<T: Copy>(src: &[T]) -> (v: Vec<T>)
    ensures
        v@ == src@,
{
    let mut v: Vec<T> = Vec::new();
    let mut q: usize = 0;
    while q < src.len()
        invariant
            q <= src@.len(),
            v@ == src@.subrange(0, q as int),
        decreases src@.len() - q,
    {
        v.push(src[q]);
        proof {
            assert(v@ =~= src@.subrange(0, q + 1));
        }
        q = q + 1;
    }
    assert(v@ =~= src@);
    v
}

/// The bidiagonal matrix `(diag, sup)` as an `n x n` matrix.
fn bidiag_matrix<T: Scalar>(diag: &Vec<T>, sup: &Vec<T>) -> (m: Matrix<T>)
    requires
        diag@.len() >= 1,
        sup@.len() + 1 == diag@.len(),
        diag@.len() * diag@.len() <= usize::MAX,
    ensures
        m.wf(),
        m.nrows() == diag@.len(),
        m.ncols() == diag@.len(),
        holds(m, bidiag_grid(diag@, sup@)),
{
    let n = diag.len();
    let mut mat = Matrix::zeros(n, n);
    let ghost bg = bidiag_grid(diag@, sup@);
    let mut i: usize = 0;
    while i < n
        invariant
            i <= n,
            n == diag@.len(),
            sup@.len() + 1 == n,
            bg == bidiag_grid(diag@, sup@),
            mat.wf(),
            mat.nrows() == n,
            mat.ncols() == n,
            forall|a: int, b: int| #[trigger]
                mat.in_bounds(a, b) ==> mat.at(a, b) == if a < i {
                    bg(a, b)
                } else {
                    T::spec_zero()
                },
        decreases n - i,
    {
        let ghost b0 = mat;
        mat.set(i, i, diag[i]);
        let ghost b1 = mat;
        if i < n - 1 {
            mat.set(i, i + 1, sup[i]);
        }
        proof {
            assert forall|a: int, b: int| #[trigger] mat.in_bounds(a, b) implies mat.at(a, b) == if a < i + 1 {
                bg(a, b)
            } else {
                T::spec_zero()
            } by {
                assert(b0.in_bounds(a, b) && b1.in_bounds(a, b));
            }
        }
        i = i + 1;
    }
    mat
}

/// The Jacobi SVD of the bidiagonal block `(diag, sup)` (order below 32).
fn compute_jacobi_bidiag<T: Scalar>(diag: &Vec<T>, sup: &Vec<T>) -> (r: (Result<(Matrix<T>, Vec<T>, Matrix<T>), String>, Ghost<(Matrix<T>, JacobiSVD<T>)>))
    requires
        1 <= diag@.len() < 32,
        sup@.len() + 1 == diag@.len(),
    ensures
        r.0 matches Ok(res) && {
            let (c, d) = r.1@;
            let n = diag@.len();
            &&& c.wf()
            &&& c.nrows() == n
            &&& c.ncols() == n
            &&& holds(c, bidiag_grid(diag@, sup@))
            &&& svd_outcome(c, d)
            &&& res.0.wf() && res.0.nrows() == n && res.0.ncols() == n && holds(res.0, grid(d.left()))
            &&& res.1@ == d.values()
            &&& res.2.wf() && res.2.nrows() == n && res.2.ncols() == n && holds(res.2, grid(d.right()))
        },
{
    let n = diag.len();
    proof {
        assert(n * n <= 31 * 31) by (nonlinear_arith)
            requires
                n < 32,
        ;
    }
    let mat = bidiag_matrix(diag, sup);
    let svd = match JacobiSVD::new(&mat) {
        Ok(d) => d,
        Err(e) => {
            return (Err(e), Ghost((mat, arbitrary())));
        },
    };
    let mut u = Matrix::zeros(n, n);
    let _ = u.assign(svd.matrix_u());
    let mut v = Matrix::zeros(n, n);
    let _ = v.assign(svd.matrix_v());
    let s = to_vec(svd.singular_values());
    proof {
        assert forall|a: int, b: int| #[trigger] u.in_bounds(a, b) implies u.at(a, b) == grid(svd.left())(a, b) by {
            assert(svd.left().in_bounds(a, b));
        }
        assert forall|a: int, b: int| #[trigger] v.in_bounds(a, b) implies v.at(a, b) == grid(svd.right())(a, b) by {
            assert(svd.right().in_bounds(a, b));
        }
    }
    (Ok((u, s, v)), Ghost((mat, svd)))
}

/// The SVD of a bidiagonal block without negligible superdiagonal entries:
/// Jacobi below order 32, otherwise through the eigenproblem of `B^T B`.
fn compute_block_bdc<T: Scalar>(diag: &Vec<T>, sup: &Vec<T>) -> (r: (Result<(Matrix<T>, Vec<T>, Matrix<T>), String>, Ghost<BdcTree<T>>))
    requires
        diag@.len() >= 1,
        sup@.len() + 1 == diag@.len(),
        split_at(diag@, sup@, 0) == diag@.len() - 1,
        diag@.len() * diag@.len() <= usize::MAX,
        T::spec_has_trig(),
    ensures
        r.0 matches Ok(res) && {
            let b = bdc_result(r.1@, diag@, sup@);
            let n = diag@.len();
            &&& b.0
            &&& res.0.wf() && res.0.nrows() == n && res.0.ncols() == n && holds(res.0, b.1)
            &&& res.1@ == b.2
            &&& res.1@.len() == n
            &&& res.2.wf() && res.2.nrows() == n && res.2.ncols() == n && holds(res.2, b.3)
        },
{
    let n = diag.len();
    if n < 32 {
        let (res, g) = compute_jacobi_bidiag(diag, sup);
        return (res, Ghost(BdcTree::Jacobi(g@.0, g@.1)));
    }
    let mut t_diag: Vec<T> = Vec::new();
    let mut t_off: Vec<T> = Vec::new();
    let mut i: usize = 0;
    while i < n
        invariant
            i <= n,
            n == diag@.len(),
            sup@.len() + 1 == n,
            t_diag@ == gram_diag(diag@, sup@).subrange(0, i as int),
            t_off@ == gram_off(diag@, sup@).subrange(0, if i < n { i as int } else { n - 1 }),
        decreases n - i,
    {
        let a_sq = diag[i].times(diag[i]);
        let b_sq_prev = if i > 0 {
            sup[i - 1].times(sup[i - 1])
        } else {
            T::from_usize(0)
        };
        t_diag.push(a_sq.plus(b_sq_prev));
        if i < n - 1 {
            t_off.push(diag[i].times(sup[i]));
        }
        proof {
            assert(t_diag@ =~= gram_diag(diag@, sup@).subrange(0, i + 1));
            assert(t_off@ =~= gram_off(diag@, sup@).subrange(0, if i + 1 < n { i + 1 } else { n - 1 }));
        }
        i = i + 1;
    }
    assert(t_diag@ =~= gram_diag(diag@, sup@));
    assert(t_off@ =~= gram_off(diag@, sup@));
    let (res, dt) = compute_sym_tri_dc(&t_diag, &t_off);
    let (vals, vecs) = match res {
        Ok(x) => x,
        Err(e) => {
            return (Err(e), Ghost(BdcTree::Empty));
        },
    };
    let ghost s = sv_of(vals@);
    let mut s_new: Vec<T> = Vec::new();
    let mut j: usize = 0;
    while j < n
        invariant
            j <= n,
            vals@.len() == n,
            s == sv_of(vals@),
            s_new@ == s.subrange(0, j as int),
        decreases n - j,
    {
        let x = vals[j];
        if x.is_lt(T::from_usize(0)) {
            s_new.push(T::from_usize(0));
        } else {
            s_new.push(x.sqrt());
        }
        proof {
            assert(s_new@ =~= s.subrange(0, j + 1));
        }
        j = j + 1;
    }
    assert(s_new@ =~= s);
    let ghost dr = dc_result(dt@, t_diag@, t_off@);
    let ghost ug = u_of(diag@, sup@, dr.2, s);
    let mut u_new = Matrix::zeros(n, n);
    let thr = T::epsilon().times(T::from_usize(10));
    let mut j: usize = 0;
    while j < n
        invariant
            j <= n,
            n == diag@.len(),
            sup@.len() + 1 == n,
            s_new@ == s,
            s.len() == n,
            thr == T::spec_epsilon().spec_times(T::spec_from_usize(10)),
            ug == u_of(diag@, sup@, dr.2, s),
            vecs.wf(),
            vecs.nrows() == n,
            vecs.ncols() == n,
            holds(vecs, dr.2),
            u_new.wf(),
            u_new.nrows() == n,
            u_new.ncols() == n,
            forall|a: int, b: int| #[trigger]
                u_new.in_bounds(a, b) ==> u_new.at(a, b) == if b < j {
                    ug(a, b)
                } else {
                    T::spec_zero()
                },
        decreases n - j,
    {
        let s_val = s_new[j];
        if thr.is_lt(s_val.abs()) {
            let inv_s = T::from_usize(1).over(s_val);
            let mut i: usize = 0;
            while i < n
                invariant
                    i <= n,
                    j < n,
                    n == diag@.len(),
                    sup@.len() + 1 == n,
                    s_new@ == s,
                    s.len() == n,
                    s_val == s[j as int],
                    thr.spec_lt(s_val.spec_abs()),
                    thr == T::spec_epsilon().spec_times(T::spec_from_usize(10)),
                    inv_s == T::spec_from_usize(1).spec_over(s_val),
                    ug == u_of(diag@, sup@, dr.2, s),
                    vecs.wf(),
                    vecs.nrows() == n,
                    vecs.ncols() == n,
                    holds(vecs, dr.2),
                    u_new.wf(),
                    u_new.nrows() == n,
                    u_new.ncols() == n,
                    forall|a: int, b: int| #[trigger]
                        u_new.in_bounds(a, b) ==> u_new.at(a, b) == if b < j || (b == j && a < i) {
                            ug(a, b)
                        } else {
                            T::spec_zero()
                        },
                decreases n - i,
            {
                assert(vecs.in_bounds(i as int, j as int));
                let mut val = diag[i].times(vecs.entry(i, j));
                if i < n - 1 {
                    assert(vecs.in_bounds((i + 1) as int, j as int));
                    val = val.plus(sup[i].times(vecs.entry(i + 1, j)));
                }
                let ghost before = u_new;
                u_new.set(i, j, val.times(inv_s));
                proof {
                    assert forall|a: int, b: int| #[trigger] u_new.in_bounds(a, b) implies u_new.at(a, b) == if b < j || (b
                        == j && a < i + 1) {
                        ug(a, b)
                    } else {
                        T::spec_zero()
                    } by {
                        assert(before.in_bounds(a, b));
                    }
                }
                i = i + 1;
            }
        }
        proof {
            assert forall|a: int, b: int| #[trigger] u_new.in_bounds(a, b) implies u_new.at(a, b) == if b < j + 1 {
                ug(a, b)
            } else {
                T::spec_zero()
            } by {}
        }
        j = j + 1;
    }
    (Ok((u_new, s_new, vecs)), Ghost(BdcTree::Block(dt@)))
}

/// The SVD of the bidiagonal matrix `(diag, sup)`, split at the first
/// negligible superdiagonal entry (see `bdc_result`).
fn compute_bdc<T: Scalar>(diag: &Vec<T>, sup: &Vec<T>) -> (r: (Result<(Matrix<T>, Vec<T>, Matrix<T>), String>, Ghost<BdcTree<T>>))
    requires
        diag@.len() >= 1 ==> sup@.len() + 1 == diag@.len(),
        diag@.len() * diag@.len() <= usize::MAX,
        T::spec_has_trig(),
    ensures
        r.0 matches Ok(res) && {
            let b = bdc_result(r.1@, diag@, sup@);
            let n = diag@.len();
            &&& b.0
            &&& res.0.wf() && res.0.nrows() == n && res.0.ncols() == n && holds(res.0, b.1)
            &&& res.1@ == b.2
            &&& res.1@.len() == n
            &&& res.2.wf() && res.2.nrows() == n && res.2.ncols() == n && holds(res.2, b.3)
        },
    decreases diag@.len(),
{
    let n = diag.len();
    if n == 0 {
        return (Ok((Matrix::zeros(0, 0), Vec::new(), Matrix::zeros(0, 0))), Ghost(BdcTree::Empty));
    }
    let eps = T::epsilon();
    proof {
        lemma_split_at(diag@, sup@, 0);
    }
    let mut i: usize = 0;
    while i < n - 1
        invariant
            i <= n - 1,
            n == diag@.len(),
            sup@.len() + 1 == n,
            eps == T::spec_epsilon(),
            split_at(diag@, sup@, i as int) == split_at(diag@, sup@, 0),
        ensures
            i <= n - 1,
            split_at(diag@, sup@, 0) == i,
        decreases n - 1 - i,
    {
        let threshold = eps.times(diag[i].abs().plus(diag[i + 1].abs()));
        if sup[i].abs().is_le(threshold) {
            break;
        }
        i = i + 1;
    }
    if i == n - 1 {
        return compute_block_bdc(diag, sup);
    }
    let mut d1: Vec<T> = Vec::new();
    let mut s1: Vec<T> = Vec::new();
    let mut d2: Vec<T> = Vec::new();
    let mut s2: Vec<T> = Vec::new();
    let mut q: usize = 0;
    while q < n
        invariant
            q <= n,
            i < n - 1,
            n == diag@.len(),
            sup@.len() + 1 == n,
            q <= i + 1 ==> d1@ == diag@.subrange(0, q as int) && d2@.len() == 0,
            q > i + 1 ==> d1@ == diag@.subrange(0, i + 1) && d2@ == diag@.subrange(i + 1, q as int),
            q <= i ==> s1@ == sup@.subrange(0, q as int) && s2@.len() == 0,
            i < q <= i + 1 ==> s1@ == sup@.subrange(0, i as int) && s2@.len() == 0,
            q > i + 1 ==> s1@ == sup@.subrange(0, i as int) && s2@ == sup@.subrange(i + 1, q - 1),
        decreases n - q,
    {
        if q <= i {
            d1.push(diag[q]);
            if q < i {
                s1.push(sup[q]);
            }
        } else {
            d2.push(diag[q]);
            if q > i + 1 {
                s2.push(sup[q - 1]);
            }
        }
        proof {
            if q <= i {
                assert(d1@ =~= diag@.subrange(0, q + 1));
                if q < i {
                    assert(s1@ =~= sup@.subrange(0, q + 1));
                }
            } else {
                assert(d2@ =~= diag@.subrange(i + 1, q + 1));
                if q > i + 1 {
                    assert(s2@ =~= sup@.subrange(i + 1, q as int));
                }
            }
        }
        q = q + 1;
    }
    proof {
        assert((i + 1) * (i + 1) <= n * n && (n - i - 1) * (n - i - 1) <= n * n) by (nonlinear_arith)
            requires
                i + 1 <= n,
        ;
    }
    let (r1, t1) = compute_bdc(&d1, &s1);
    let (u1, sv1, v1) = match r1 {
        Ok(x) => x,
        Err(e) => {
            return (Err(e), Ghost(BdcTree::Empty));
        },
    };
    let (r2, t2) = compute_bdc(&d2, &s2);
    let (u2, sv2, v2) = match r2 {
        Ok(x) => x,
        Err(e) => {
            return (Err(e), Ghost(BdcTree::Empty));
        },
    };
    let ghost a = bdc_result(t1@, d1@, s1@);
    let ghost b = bdc_result(t2@, d2@, s2@);
    let mut u = Matrix::zeros(n, n);
    let mut v = Matrix::zeros(n, n);
    let p = u1.rows();
    let ghost u0 = u;
    let ghost v0 = v;
    put_block(&mut u, &u1, 0, Ghost(a.1));
    let ghost ua = u;
    put_block(&mut u, &u2, p, Ghost(b.1));
    put_block(&mut v, &v1, 0, Ghost(a.3));
    let ghost va = v;
    put_block(&mut v, &v2, p, Ghost(b.3));
    let mut s = sv1;
    let mut q: usize = 0;
    while q < sv2.len()
        invariant
            q <= sv2@.len(),
            s@ == sv1@ + sv2@.subrange(0, q as int),
        decreases sv2@.len() - q,
    {
        s.push(sv2[q]);
        proof {
            assert(s@ =~= sv1@ + sv2@.subrange(0, q + 1));
        }
        q = q + 1;
    }
    assert(s@ =~= sv1@ + sv2@);
    let ghost tree = BdcTree::Split(Box::new(t1@), Box::new(t2@));
    proof {
        assert(d1@ =~= diag@.subrange(0, i + 1));
        assert(s1@ =~= sup@.subrange(0, i as int));
        assert(d2@ =~= diag@.subrange(i + 1, n as int));
        assert(s2@ =~= sup@.subrange(i + 1, n - 1));
        let bd = bdc_result(tree, diag@, sup@);
        assert(bd.0);
        assert forall|x: int, y: int| #[trigger] u.in_bounds(x, y) implies u.at(x, y) == bd.1(x, y) by {
            assert(u0.in_bounds(x, y) && ua.in_bounds(x, y));
            if x < p && y < p {
                assert(u1.in_bounds(x, y));
            } else if x >= p && y >= p {
                assert(u2.in_bounds(x - p, y - p));
            }
        }
        assert forall|x: int, y: int| #[trigger] v.in_bounds(x, y) implies v.at(x, y) == bd.3(x, y) by {
            assert(v0.in_bounds(x, y) && va.in_bounds(x, y));
            if x < p && y < p {
                assert(v1.in_bounds(x, y));
            } else if x >= p && y >= p {
                assert(v2.in_bounds(x - p, y - p));
            }
        }
    }
    (Ok((u, s, v)), Ghost(tree))
}

/// `0 + g1(r, 0) g2(0, k) + ... + g1(r, m - 1) g2(m - 1, k)`.
pub open spec fn prod_sum<T: Scalar>(g1: spec_fn(int, int) -> T, g2: spec_fn(int, int) -> T, r: int, k: int, m: int) -> T
    decreases m,
{
    if m <= 0 {
        T::spec_from_usize(0)
    } else {
        prod_sum(g1, g2, r, k, m - 1).spec_plus(g1(r, m - 1).spec_times(g2(m - 1, k)))
    }
}

/// The diagonal of the bidiagonal form `p` (order `n`).
pub open spec fn bd_diag<T: Scalar>(p: spec_fn(int, int) -> T, n: nat) -> Seq<T> {
    Seq::new(n, |i: int| p(i, i))
}

/// The superdiagonal of the bidiagonal form `p` (order `n >= 1`).
pub open spec fn bd_sup<T: Scalar>(p: spec_fn(int, int) -> T, n: nat) -> Seq<T> {
    Seq::new((n - 1) as nat, |i: int| p(i, i + 1))
}

/// A divide-and-conquer SVD `A = U S V^*`.
pub struct BDCSVD<T: Scalar> {
    u: Matrix<T>,
    v: Matrix<T>,
    singular_values: Vec<T>,
}

impl<T: Scalar> BDCSVD<T> {
    /// `U` (`rows x rows`).
    pub closed spec fn left(&self) -> Matrix<T> {
        self.u
    }

    /// `V` (`cols x cols`).
    pub closed spec fn right(&self) -> Matrix<T> {
        self.v
    }

    /// The singular values.
    pub closed spec fn values(&self) -> Seq<T> {
        self.singular_values@
    }

    /// What `new(a)` gives, for the bidiagonalization `bdz` of `a` and the
    /// course `t` of the bidiagonal SVD: the singular values of the
    /// bidiagonal form `B` (diagonal and superdiagonal of the working
    /// matrix), `U = U_bi U_B` on the first `cols` columns of `U_bi` (the
    /// rest kept) and `V = V_bi V_B`, the products accumulated from zero.
    pub open spec fn from_parts(&self, a: Matrix<T>, bdz: Bidiagonalization<T>, t: BdcTree<T>) -> bool {
        let m = a.nrows();
        let n = a.ncols();
        let st = bd_state(grid(a), m as int, n as int, n);
        let b = bdc_result(t, bd_diag(st.0, n), bd_sup(st.0, n));
        let p = grid(bdz.packed());
        let ub = bd_u(p, bdz.left(), m as int, n as int, n);
        let vb = bd_v(p, bdz.right(), n as int, n - 1, (n - 1) as nat);
        &&& bdz.wf()
        &&& bdz.upper()
        &&& bdz.packed().nrows() == m
        &&& bdz.packed().ncols() == n
        &&& holds(bdz.packed(), st.0)
        &&& bdz.left() == st.1
        &&& bdz.right() == st.2
        &&& b.0
        &&& self.values() == b.2
        &&& self.values().len() == n
        &&& self.left().wf()
        &&& self.left().nrows() == m
        &&& self.left().ncols() == m
        &&& forall|r: int, k: int| #[trigger]
            self.left().in_bounds(r, k) ==> self.left().at(r, k) == if k < n {
                prod_sum(ub, b.1, r, k, n as int)
            } else {
                ub(r, k)
            }
        &&& self.right().wf()
        &&& self.right().nrows() == n
        &&& self.right().ncols() == n
        &&& forall|r: int, k: int| #[trigger] self.right().in_bounds(r, k) ==> self.right().at(r, k) == prod_sum(vb, b.3, r, k, n as int)
    }

    /// Computes the SVD of a matrix with at least one column; refuses a
    /// matrix with fewer rows than columns. The type has the trigonometric
    /// functions (it is real).
    pub fn new(matrix: &Matrix<T>) -> (r: Result<Self, String>)
        requires
            matrix.wf(),
            1 <= matrix.ncols(),
            matrix.ncols() <= matrix.nrows() ==> matrix.nrows() * matrix.nrows() <= usize::MAX,
            T::spec_has_trig(),
        ensures
            r is Ok <==> matrix.ncols() <= matrix.nrows(),
            r matches Ok(d) ==> exists|bdz: Bidiagonalization<T>, t: BdcTree<T>| d.from_parts(*matrix, bdz, t),
            r matches Err(e) ==> e@ == "BDCSVD requires at least as many rows as columns"@,
    {
        let m = matrix.rows();
        let n = matrix.cols();
        if n > m {
            return Err("BDCSVD requires at least as many rows as columns".to_string());
        }
        proof {
            assert(n * n <= m * m) by (nonlinear_arith)
                requires
                    n <= m,
            ;
        }
        let bidiag = match Bidiagonalization::new(matrix) {
            Ok(b) => b,
            Err(e) => {
                return Err(e);
            },
        };
        let ghost st = bd_state(grid(*matrix), m as int, n as int, n as nat);
        let u_bi = bidiag.matrix_u();
        let v_bi = bidiag.matrix_v();
        let b = bidiag.matrix_b();
        let min_dim = if m < n {
            m
        } else {
            n
        };
        let mut diag: Vec<T> = Vec::new();
        let mut super_diag: Vec<T> = Vec::new();
        let mut i: usize = 0;
        while i < min_dim
            invariant
                i <= min_dim,
                min_dim == n,
                n >= 1,
                bidiag.wf(),
                bidiag.upper(),
                bidiag.packed().nrows() == m,
                bidiag.packed().ncols() == n,
                holds(bidiag.packed(), st.0),
                b.wf(),
                b.same_shape(&bidiag.packed()),
                forall|x: int, y: int| #[trigger]
                    b.in_bounds(x, y) ==> b.at(x, y) == if x == y || (bidiag.upper() && y == x + 1) {
                        bidiag.packed().at(x, y)
                    } else {
                        T::spec_zero()
                    },
                diag@ == bd_diag(st.0, n as nat).subrange(0, i as int),
                super_diag@ == bd_sup(st.0, n as nat).subrange(0, if i < n { i as int } else { n - 1 }),
            decreases min_dim - i,
        {
            assert(b.in_bounds(i as int, i as int) && bidiag.packed().in_bounds(i as int, i as int));
            diag.push(b.entry(i, i));
            if i < min_dim - 1 {
                assert(b.in_bounds(i as int, (i + 1) as int) && bidiag.packed().in_bounds(i as int, (i + 1) as int));
                super_diag.push(b.entry(i, i + 1));
            }
            proof {
                assert(diag@ =~= bd_diag(st.0, n as nat).subrange(0, i + 1));
                assert(super_diag@ =~= bd_sup(st.0, n as nat).subrange(0, if i + 1 < n { i + 1 } else { n - 1 }));
            }
            i = i + 1;
        }
        assert(diag@ =~= bd_diag(st.0, n as nat));
        assert(super_diag@ =~= bd_sup(st.0, n as nat));
        let (res, t) = compute_bdc(&diag, &super_diag);
        let (u_bdc, s_bdc, v_bdc) = match res {
            Ok(x) => x,
            Err(e) => {
                return Err(e);
            },
        };
        let ghost bd = bdc_result(t@, diag@, super_diag@);
        let ghost p = grid(bidiag.packed());
        let ghost ub = bd_u(p, bidiag.left(), m as int, n as int, n as nat);
        let ghost vb = bd_v(p, bidiag.right(), n as int, n - 1, (n - 1) as nat);
        let dim = diag.len();
        let mut u = Matrix::zeros(m, m);
        let _ = u.assign(&u_bi);
        let ghost u_start = u;
        proof {
            assert forall|x: int, y: int| #[trigger] u.in_bounds(x, y) implies u.at(x, y) == ub(x, y) by {
                assert(u_bi.in_bounds(x, y));
            }
        }
        proof {
            assert(m * dim <= m * m) by (nonlinear_arith)
                requires
                    dim <= m,
            ;
        }
        let block = product_block(&u_bi, &u_bdc, dim, Ghost(ub), Ghost(bd.1));
        overwrite_columns(&mut u, &block);
        let mut v = Matrix::zeros(n, n);
        let _ = v.assign(&v_bi);
        let vblock = product_block(&v_bi, &v_bdc, dim, Ghost(vb), Ghost(bd.3));
        overwrite_columns(&mut v, &vblock);
        let s = BDCSVD { u, v, singular_values: s_bdc };
        proof {
            assert forall|x: int, y: int| #[trigger] s.left().in_bounds(x, y) implies s.left().at(x, y) == if y < n {
                prod_sum(ub, bd.1, x, y, n as int)
            } else {
                ub(x, y)
            } by {
                assert(u_start.in_bounds(x, y));
                if y < n {
                    assert(block.in_bounds(x, y));
                }
            }
            assert forall|x: int, y: int| #[trigger] s.right().in_bounds(x, y) implies s.right().at(x, y) == prod_sum(
                vb,
                bd.3,
                x,
                y,
                n as int,
            ) by {
                assert(vblock.in_bounds(x, y));
            }
            assert(s.from_parts(*matrix, bidiag, t@));
        }
        let res: Result<Self, String> = Ok(s);
        assert(res matches Ok(d) && d.from_parts(*matrix, bidiag, t@));
        res
    }

    /// `U`.
    pub fn matrix_u(&self) -> (r: &Matrix<T>)
        ensures
            *r == self.left(),
    {
        &self.u
    }

    /// `V`.
    pub fn matrix_v(&self) -> (r: &Matrix<T>)
        ensures
            *r == self.right(),
    {
        &self.v
    }

    /// The singular values.
    pub fn singular_values(&self) -> (r: &[T])
        ensures
            r@ == self.values(),
    {
        self.singular_values.as_slice()
    }
}

/// `x_bi x_B` on the first `dim` columns: entry `(r, k)` is
/// `prod_sum(g1, g2, r, k, dim)` (`x_bi` with entries `g1`, `x_B` of
/// order `dim` with entries `g2`).
fn product_block<T: Scalar>(
    x_bi: &Matrix<T>,
    x_b: &Matrix<T>,
    dim: usize,
    Ghost(g1): Ghost<spec_fn(int, int) -> T>,
    Ghost(g2): Ghost<spec_fn(int, int) -> T>,
) -> (out: Matrix<T>)
    requires
        x_bi.wf(),
        x_b.wf(),
        dim <= x_bi.ncols(),
        x_b.nrows() == dim,
        x_b.ncols() == dim,
        holds(*x_bi, g1),
        holds(*x_b, g2),
        x_bi.nrows() * dim <= usize::MAX,
    ensures
        out.wf(),
        out.nrows() == x_bi.nrows(),
        out.ncols() == dim,
        forall|r: int, k: int| #[trigger] out.in_bounds(r, k) ==> out.at(r, k) == prod_sum(g1, g2, r, k, dim as int),
{
    let rows = x_bi.rows();
    let mut out = Matrix::zeros(rows, dim);
    let mut k: usize = 0;
    while k < dim
        invariant
            k <= dim,
            rows == x_bi.nrows(),
            x_bi.wf(),
            x_b.wf(),
            dim <= x_bi.ncols(),
            x_b.nrows() == dim,
            x_b.ncols() == dim,
            holds(*x_bi, g1),
            holds(*x_b, g2),
            out.wf(),
            out.nrows() == rows,
            out.ncols() == dim,
            forall|r: int, c: int| #[trigger] out.in_bounds(r, c) && c < k ==> out.at(r, c) == prod_sum(g1, g2, r, c, dim as int),
        decreases dim - k,
    {
        let mut r: usize = 0;
        while r < rows
            invariant
                r <= rows,
                k < dim,
                rows == x_bi.nrows(),
                x_bi.wf(),
                x_b.wf(),
                dim <= x_bi.ncols(),
                x_b.nrows() == dim,
                x_b.ncols() == dim,
                holds(*x_bi, g1),
                holds(*x_b, g2),
                out.wf(),
                out.nrows() == rows,
                out.ncols() == dim,
                forall|a: int, c: int| #[trigger]
                    out.in_bounds(a, c) && (c < k || (c == k && a < r)) ==> out.at(a, c) == prod_sum(g1, g2, a, c, dim as int),
            decreases rows - r,
        {
            let mut sum = T::from_usize(0);
            let mut j: usize = 0;
            while j < dim
                invariant
                    j <= dim,
                    r < rows,
                    k < dim,
                    rows == x_bi.nrows(),
                    x_bi.wf(),
                    x_b.wf(),
                    dim <= x_bi.ncols(),
                    x_b.nrows() == dim,
                    x_b.ncols() == dim,
                    holds(*x_bi, g1),
                    holds(*x_b, g2),
                    sum == prod_sum(g1, g2, r as int, k as int, j as int),
                decreases dim - j,
            {
                assert(x_bi.in_bounds(r as int, j as int) && x_b.in_bounds(j as int, k as int));
                sum = sum.plus(x_bi.entry(r, j).times(x_b.entry(j, k)));
                j = j + 1;
            }
            let ghost before = out;
            out.set(r, k, sum);
            proof {
                assert forall|a: int, c: int| #[trigger] out.in_bounds(a, c) && (c < k || (c == k && a < r + 1)) implies out.at(
                    a,
                    c,
                ) == prod_sum(g1, g2, a, c, dim as int) by {
                    assert(before.in_bounds(a, c));
                }
            }
            r = r + 1;
        }
        k = k + 1;
    }
    out
}

/// Overwrites the first columns of `x` with those of `block` (same rows).
fn overwrite_columns<T: Scalar>(x: &mut Matrix<T>, block: &Matrix<T>)
    requires
        old(x).wf(),
        block.wf(),
        block.nrows() == old(x).nrows(),
        block.ncols() <= old(x).ncols(),
    ensures
        final(x).wf(),
        final(x).same_shape(old(x)),
        forall|r: int, k: int| #[trigger]
            final(x).in_bounds(r, k) ==> final(x).at(r, k) == if k < block.ncols() {
                block.at(r, k)
            } else {
                old(x).at(r, k)
            },
{
    let rows = block.rows();
    let cols = block.cols();
    let ghost x0 = *x;
    let mut k: usize = 0;
    while k < cols
        invariant
            k <= cols,
            rows == block.nrows(),
            cols == block.ncols(),
            block.wf(),
            x.wf(),
            x.same_shape(&x0),
            rows == x.nrows(),
            cols <= x.ncols(),
            forall|a: int, c: int| #[trigger]
                x.in_bounds(a, c) ==> x.at(a, c) == if c < k {
                    block.at(a, c)
                } else {
                    x0.at(a, c)
                },
        decreases cols - k,
    {
        let mut r: usize = 0;
        while r < rows
            invariant
                r <= rows,
                k < cols,
                rows == block.nrows(),
                cols == block.ncols(),
                block.wf(),
                x.wf(),
                x.same_shape(&x0),
                rows == x.nrows(),
                cols <= x.ncols(),
                forall|a: int, c: int| #[trigger]
                    x.in_bounds(a, c) ==> x.at(a, c) == if c < k || (c == k && a < r) {
                        block.at(a, c)
                    } else {
                        x0.at(a, c)
                    },
            decreases rows - r,
        {
            let ghost before = *x;
            assert(block.in_bounds(r as int, k as int));
            x.set(r, k, block.entry(r, k));
            proof {
                assert forall|a: int, c: int| #[trigger] x.in_bounds(a, c) implies x.at(a, c) == if c < k || (c == k && a < r
                    + 1) {
                    block.at(a, c)
                } else {
                    x0.at(a, c)
                } by {
                    assert(before.in_bounds(a, c));
                }
            }
            r = r + 1;
        }
        k = k + 1;
    }
}

} // verus!
