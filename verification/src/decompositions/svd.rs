//! Singular value decomposition by one-sided Jacobi rotations.
//!
//! The columns of a working copy of `A` are rotated pairwise until they are
//! mutually orthogonal (at most 100 sweeps), the rotations accumulated in
//! `V`; the column norms are the singular values and the normalized columns
//! form `U`, completed by Gram-Schmidt where a column vanishes. The
//! singular values are finally sorted in descending order.

use crate::decompositions::lu::{grid, holds, is_permutation};
use crate::matrix::Matrix;
use crate::scalar::Scalar;
use vstd::prelude::*;

verus! {

/// `(sum a(k,i)^2, sum a(k,j)^2, sum a(k,i) a(k,j))` over the rows
/// `k < m`, each accumulated from the image of zero.
pub open spec fn col_sums<T: Scalar>(a: spec_fn(int, int) -> T, i: int, j: int, m: int) -> (T, T, T)
    decreases m,
{
    if m <= 0 {
        (T::spec_from_usize(0), T::spec_from_usize(0), T::spec_from_usize(0))
    } else {
        let p = col_sums(a, i, j, m - 1);
        let k = m - 1;
        (
            p.0.spec_plus(a(k, i).spec_times(a(k, i))),
            p.1.spec_plus(a(k, j).spec_times(a(k, j))),
            p.2.spec_plus(a(k, i).spec_times(a(k, j))),
        )
    }
}

/// Columns `i` and `j` (rows `0 .. rows`) replaced by `c g_i - s g_j` and
/// `s g_i + c g_j`.
pub open spec fn rotate<T: Scalar>(g: spec_fn(int, int) -> T, i: int, j: int, c: T, s: T, rows: int) -> spec_fn(
    int,
    int,
) -> T {
    |r: int, col: int|
        if r < rows && col == i {
            c.spec_times(g(r, i)).spec_minus(s.spec_times(g(r, j)))
        } else if r < rows && col == j {
            s.spec_times(g(r, i)).spec_plus(c.spec_times(g(r, j)))
        } else {
            g(r, col)
        }
}

/// The Jacobi rotation `(c, s)` annihilating the off-diagonal entry
/// `a_ij` of the `2 x 2` Gram matrix `[[a_ii, a_ij], [a_ij, a_jj]]`.
pub open spec fn jacobi_cs<T: Scalar>(a_ii: T, a_jj: T, a_ij: T) -> (T, T) {
    let zero = T::spec_from_usize(0);
    let one = T::spec_from_usize(1);
    let tau = a_jj.spec_minus(a_ii).spec_over(T::spec_from_usize(2).spec_times(a_ij));
    let root = one.spec_plus(tau.spec_times(tau)).spec_sqrt();
    let t = if zero.spec_le(tau) {
        one.spec_over(tau.spec_plus(root))
    } else {
        zero.spec_minus(one.spec_over(zero.spec_minus(tau).spec_plus(root)))
    };
    let c = one.spec_over(one.spec_plus(t.spec_times(t)).spec_sqrt());
    (c, c.spec_times(t))
}

/// The pair `(i, j)` of a sweep: when `|a_ij| > eps sqrt(a_ii a_jj)` the
/// columns `i, j` of `A` (`m` rows) and of `V` (`n` rows) are rotated and
/// the flag is set.
pub open spec fn jacobi_pair<T: Scalar>(
    a: spec_fn(int, int) -> T,
    v: spec_fn(int, int) -> T,
    m: int,
    n: int,
    i: int,
    j: int,
    eps: T,
) -> (spec_fn(int, int) -> T, spec_fn(int, int) -> T, bool) {
    let sums = col_sums(a, i, j, m);
    if eps.spec_times(sums.0.spec_times(sums.1).spec_sqrt()).spec_lt(sums.2.spec_abs()) {
        let cs = jacobi_cs(sums.0, sums.1, sums.2);
        (rotate(a, i, j, cs.0, cs.1, m), rotate(v, i, j, cs.0, cs.1, n), true)
    } else {
        (a, v, false)
    }
}

/// The pairs `(i, j), (i, j+1), ..., (i, n-1)` in order; the flag tells
/// whether any of them rotated.
pub open spec fn jacobi_row<T: Scalar>(
    a: spec_fn(int, int) -> T,
    v: spec_fn(int, int) -> T,
    m: int,
    n: int,
    i: int,
    j: int,
    eps: T,
) -> (spec_fn(int, int) -> T, spec_fn(int, int) -> T, bool)
    decreases n - j,
{
    if j >= n {
        (a, v, false)
    } else {
        let p = jacobi_pair(a, v, m, n, i, j, eps);
        let rest = jacobi_row(p.0, p.1, m, n, i, j + 1, eps);
        (rest.0, rest.1, p.2 || rest.2)
    }
}

/// The rows `i, i+1, ..., n-1` of pairs of a sweep.
pub open spec fn jacobi_sweep<T: Scalar>(
    a: spec_fn(int, int) -> T,
    v: spec_fn(int, int) -> T,
    m: int,
    n: int,
    i: int,
    eps: T,
) -> (spec_fn(int, int) -> T, spec_fn(int, int) -> T, bool)
    decreases n - i,
{
    if i >= n {
        (a, v, false)
    } else {
        let r = jacobi_row(a, v, m, n, i, i + 1, eps);
        let rest = jacobi_sweep(r.0, r.1, m, n, i + 1, eps);
        (rest.0, rest.1, r.2 || rest.2)
    }
}

/// Sweeps from sweep `it` on, stopping after a sweep without rotation or
/// after sweep 100.
pub open spec fn jacobi_loop<T: Scalar>(
    a: spec_fn(int, int) -> T,
    v: spec_fn(int, int) -> T,
    m: int,
    n: int,
    it: nat,
    eps: T,
) -> (spec_fn(int, int) -> T, spec_fn(int, int) -> T)
    decreases 100 - it,
{
    if it >= 100 {
        (a, v)
    } else {
        let s = jacobi_sweep(a, v, m, n, 0, eps);
        if !s.2 {
            (s.0, s.1)
        } else {
            jacobi_loop(s.0, s.1, m, n, it + 1, eps)
        }
    }
}

/// The identity as a function of `(row, column)`: the images of one and
/// zero.
pub open spec fn ident<T: Scalar>() -> spec_fn(int, int) -> T {
    |i: int, j: int|
        if i == j {
            T::spec_from_usize(1)
        } else {
            T::spec_from_usize(0)
        }
}

/// Rotates columns `i` and `j` of `mat` (all rows) by `(c, s)`.
fn apply_rotation<T: Scalar>(mat: &mut Matrix<T>, i: usize, j: usize, c: T, s: T)
    requires
        old(mat).wf(),
        i < old(mat).ncols(),
        j < old(mat).ncols(),
        i != j,
    ensures
        final(mat).wf(),
        final(mat).same_shape(old(mat)),
        holds(*final(mat), rotate(grid(*old(mat)), i as int, j as int, c, s, old(mat).nrows() as int)),
{
    let rows = mat.rows();
    let ghost g = grid(*mat);
    let ghost next = rotate(g, i as int, j as int, c, s, rows as int);
    let mut k: usize = 0;
    while k < rows
        invariant
            k <= rows,
            rows == mat.nrows(),
            i < mat.ncols(),
            j < mat.ncols(),
            i != j,
            mat.wf(),
            mat.same_shape(old(mat)),
            g == grid(*old(mat)),
            next == rotate(g, i as int, j as int, c, s, rows as int),
            forall|r: int, col: int| #[trigger]
                mat.in_bounds(r, col) ==> mat.at(r, col) == if r < k {
                    next(r, col)
                } else {
                    g(r, col)
                },
        decreases rows - k,
    {
        let ghost before = *mat;
        assert(mat.in_bounds(k as int, i as int) && mat.in_bounds(k as int, j as int));
        let val_i = mat.entry(k, i);
        let val_j = mat.entry(k, j);
        mat.set(k, i, c.times(val_i).minus(s.times(val_j)));
        let ghost mid = *mat;
        mat.set(k, j, s.times(val_i).plus(c.times(val_j)));
        proof {
            assert forall|r: int, col: int| #[trigger] mat.in_bounds(r, col) implies mat.at(r, col)
                == if r < k + 1 {
                next(r, col)
            } else {
                g(r, col)
            } by {
                assert(mid.in_bounds(r, col) && before.in_bounds(r, col));
            }
        }
        k = k + 1;
    }
}

/// The Jacobi sweeps on `a` (`m x n`) with the rotations accumulated in
/// `v` (`n x n`).
fn jacobi_sweeps<T: Scalar>(
    a: &mut Matrix<T>,
    v: &mut Matrix<T>,
    eps: T,
    Ghost(ga0): Ghost<spec_fn(int, int) -> T>,
    Ghost(gv0): Ghost<spec_fn(int, int) -> T>,
)
    requires
        old(a).wf(),
        old(v).wf(),
        old(v).nrows() == old(a).ncols(),
        old(v).ncols() == old(a).ncols(),
        holds(*old(a), ga0),
        holds(*old(v), gv0),
    ensures
        final(a).wf(),
        final(v).wf(),
        final(a).same_shape(old(a)),
        final(v).same_shape(old(v)),
        ({
            let r = jacobi_loop(ga0, gv0, old(a).nrows() as int, old(a).ncols() as int, 0, eps);
            holds(*final(a), r.0) && holds(*final(v), r.1)
        }),
{
    let m = a.rows();
    let n = a.cols();
    let ghost target = jacobi_loop(ga0, gv0, m as int, n as int, 0, eps);
    let ghost mut ga = ga0;
    let ghost mut gv = gv0;
    let ghost sa = *a;
    let ghost sv = *v;
    let mut iter: usize = 0;
    while iter < 100
        invariant_except_break
            iter <= 100,
            a.wf(),
            v.wf(),
            a.same_shape(&sa),
            v.same_shape(&sv),
            m == a.nrows(),
            n == a.ncols(),
            v.nrows() == n,
            v.ncols() == n,
            holds(*a, ga),
            holds(*v, gv),
            jacobi_loop(ga, gv, m as int, n as int, iter as nat, eps) == target,
        ensures
            a.wf(),
            v.wf(),
            a.same_shape(&sa),
            v.same_shape(&sv),
            holds(*a, target.0),
            holds(*v, target.1),
        decreases 100 - iter,
    {
        let ghost sweep = jacobi_sweep(ga, gv, m as int, n as int, 0, eps);
        let mut converged = true;
        let mut i: usize = 0;
        while i < n
            invariant
                i <= n,
                a.wf(),
                v.wf(),
                a.same_shape(&sa),
                v.same_shape(&sv),
                m == a.nrows(),
                n == a.ncols(),
                v.nrows() == n,
                v.ncols() == n,
                holds(*a, ga),
                holds(*v, gv),
                ({
                    let rest = jacobi_sweep(ga, gv, m as int, n as int, i as int, eps);
                    &&& rest.0 == sweep.0
                    &&& rest.1 == sweep.1
                    &&& sweep.2 == (!converged || rest.2)
                }),
            decreases n - i,
        {
            let ghost row = jacobi_row(ga, gv, m as int, n as int, i as int, (i + 1) as int, eps);
            let mut j = i + 1;
            while j < n
                invariant
                    i < j <= n,
                    a.wf(),
                    v.wf(),
                    a.same_shape(&sa),
                    v.same_shape(&sv),
                    m == a.nrows(),
                    n == a.ncols(),
                    v.nrows() == n,
                    v.ncols() == n,
                    holds(*a, ga),
                    holds(*v, gv),
                    ({
                        let rest = jacobi_row(ga, gv, m as int, n as int, i as int, j as int, eps);
                        &&& rest.0 == row.0
                        &&& rest.1 == row.1
                    }),
                    ({
                        let rest = jacobi_row(ga, gv, m as int, n as int, i as int, j as int, eps);
                        let outer = jacobi_sweep(row.0, row.1, m as int, n as int, (i + 1) as int, eps);
                        sweep.2 == (!converged || rest.2 || outer.2)
                    }),
                    ({
                        let outer = jacobi_sweep(row.0, row.1, m as int, n as int, (i + 1) as int, eps);
                        outer.0 == sweep.0 && outer.1 == sweep.1
                    }),
                decreases n - j,
            {
                let mut a_ii = T::from_usize(0);
                let mut a_jj = T::from_usize(0);
                let mut a_ij = T::from_usize(0);
                let mut k: usize = 0;
                while k < m
                    invariant
                        k <= m,
                        i < j < n,
                        a.wf(),
                        m == a.nrows(),
                        n == a.ncols(),
                        holds(*a, ga),
                        (a_ii, a_jj, a_ij) == col_sums(ga, i as int, j as int, k as int),
                    decreases m - k,
                {
                    assert(a.in_bounds(k as int, i as int) && a.in_bounds(k as int, j as int));
                    let ai = a.entry(k, i);
                    let aj = a.entry(k, j);
                    a_ii = a_ii.plus(ai.times(ai));
                    a_jj = a_jj.plus(aj.times(aj));
                    a_ij = a_ij.plus(ai.times(aj));
                    k = k + 1;
                }
                if eps.times(a_ii.times(a_jj).sqrt()).is_lt(a_ij.abs()) {
                    converged = false;
                    let zero = T::from_usize(0);
                    let one = T::from_usize(1);
                    let tau = a_jj.minus(a_ii).over(T::from_usize(2).times(a_ij));
                    let root = one.plus(tau.times(tau)).sqrt();
                    let t = if zero.is_le(tau) {
                        one.over(tau.plus(root))
                    } else {
                        zero.minus(one.over(zero.minus(tau).plus(root)))
                    };
                    let c = one.over(one.plus(t.times(t)).sqrt());
                    let s = c.times(t);
                    let ghost a_before = *a;
                    let ghost v_before = *v;
                    apply_rotation(a, i, j, c, s);
                    apply_rotation(v, i, j, c, s);
                    proof {
                        let na = rotate(ga, i as int, j as int, c, s, m as int);
                        let nv = rotate(gv, i as int, j as int, c, s, n as int);
                        assert forall|r: int, col: int| #[trigger] a.in_bounds(r, col) implies a.at(r, col)
                            == na(r, col) by {
                            assert(a_before.in_bounds(r, col));
                            if r < m {
                                assert(a_before.in_bounds(r, i as int) && a_before.in_bounds(r, j as int));
                            }
                        }
                        assert forall|r: int, col: int| #[trigger] v.in_bounds(r, col) implies v.at(r, col)
                            == nv(r, col) by {
                            assert(v_before.in_bounds(r, col));
                            if r < n {
                                assert(v_before.in_bounds(r, i as int) && v_before.in_bounds(r, j as int));
                            }
                        }
                        ga = na;
                        gv = nv;
                    }
                }
                j = j + 1;
            }
            i = i + 1;
        }
        if converged {
            break;
        }
        iter = iter + 1;
    }
}


/// `sum g(r, b) g(r, c)` over the rows `r < m`, accumulated from the image
/// of zero.
pub open spec fn col_dot<T: Scalar>(g: spec_fn(int, int) -> T, b: int, c: int, m: int) -> T
    decreases m,
{
    if m <= 0 {
        T::spec_from_usize(0)
    } else {
        col_dot(g, b, c, m - 1).spec_plus(g(m - 1, b).spec_times(g(m - 1, c)))
    }
}

/// The column norms `sqrt(sum g(k, i)^2)` of the first `n` columns.
pub open spec fn col_norms<T: Scalar>(g: spec_fn(int, int) -> T, m: int, n: nat) -> Seq<T> {
    Seq::new(n, |i: int| col_dot(g, i, i, m).spec_sqrt())
}

/// The indices `i < k` whose norm `s[i]` exceeds `eps`, in increasing order.
pub open spec fn valid_list<T: Scalar>(s: Seq<T>, eps: T, k: nat) -> Seq<usize>
    decreases k,
{
    if k == 0 {
        Seq::empty()
    } else if eps.spec_lt(s[k - 1]) {
        valid_list(s, eps, (k - 1) as nat).push((k - 1) as usize)
    } else {
        valid_list(s, eps, (k - 1) as nat)
    }
}

/// The indices `i < k` whose norm `s[i]` does not exceed `eps`, in
/// increasing order.
pub open spec fn invalid_list<T: Scalar>(s: Seq<T>, eps: T, k: nat) -> Seq<usize>
    decreases k,
{
    if k == 0 {
        Seq::empty()
    } else if eps.spec_lt(s[k - 1]) {
        invalid_list(s, eps, (k - 1) as nat)
    } else {
        invalid_list(s, eps, (k - 1) as nat).push((k - 1) as usize)
    }
}

/// `u` with each column `c < n` of norm `s[c] > eps` replaced (rows
/// `r < m`) by the column of `a` divided by its norm.
pub open spec fn extracted<T: Scalar>(
    a: spec_fn(int, int) -> T,
    u: spec_fn(int, int) -> T,
    s: Seq<T>,
    eps: T,
    m: int,
    n: int,
) -> spec_fn(int, int) -> T {
    |r: int, c: int|
        if 0 <= c < n && 0 <= r < m && eps.spec_lt(s[c]) {
            a(r, c).spec_over(s[c])
        } else {
            u(r, c)
        }
}

/// Computes the column norms of `a` (`m x n`), writes the normalized
/// columns of norm above `eps` into `u` (`m x m`), and lists the columns
/// above and not above `eps`.
fn extract_columns<T: Scalar>(
    a: &Matrix<T>,
    u: &mut Matrix<T>,
    eps: T,
    Ghost(ga): Ghost<spec_fn(int, int) -> T>,
    Ghost(gu): Ghost<spec_fn(int, int) -> T>,
) -> (r: (Vec<T>, Vec<usize>, Vec<usize>))
    requires
        a.wf(),
        old(u).wf(),
        old(u).nrows() == a.nrows(),
        old(u).ncols() == a.nrows(),
        a.nrows() == 0 || a.ncols() <= a.nrows(),
        holds(*a, ga),
        holds(*old(u), gu),
    ensures
        final(u).wf(),
        final(u).same_shape(old(u)),
        r.0@ == col_norms(ga, a.nrows() as int, a.ncols()),
        r.1@ == valid_list(r.0@, eps, a.ncols()),
        r.2@ == invalid_list(r.0@, eps, a.ncols()),
        holds(*final(u), extracted(ga, gu, r.0@, eps, a.nrows() as int, a.ncols() as int)),
{
    let m = a.rows();
    let n = a.cols();
    let ghost norms = col_norms(ga, m as int, n as nat);
    let mut svals: Vec<T> = Vec::new();
    let mut valid: Vec<usize> = Vec::new();
    let mut invalid: Vec<usize> = Vec::new();
    let mut i: usize = 0;
    while i < n
        invariant
            i <= n,
            m == a.nrows(),
            n == a.ncols(),
            a.wf(),
            u.wf(),
            u.same_shape(old(u)),
            u.nrows() == m,
            u.ncols() == m,
            m == 0 || n <= m,
            holds(*a, ga),
            norms == col_norms(ga, m as int, n as nat),
            svals@ == norms.subrange(0, i as int),
            valid@ == valid_list(norms, eps, i as nat),
            invalid@ == invalid_list(norms, eps, i as nat),
            holds(*u, extracted(ga, gu, norms, eps, m as int, i as int)),
        decreases n - i,
    {
        let mut norm = T::from_usize(0);
        let mut k: usize = 0;
        while k < m
            invariant
                k <= m,
                i < n,
                m == a.nrows(),
                n == a.ncols(),
                a.wf(),
                holds(*a, ga),
                norm == col_dot(ga, i as int, i as int, k as int),
            decreases m - k,
        {
            assert(a.in_bounds(k as int, i as int));
            let x = a.entry(k, i);
            norm = norm.plus(x.times(x));
            k = k + 1;
        }
        let s_val = norm.sqrt();
        svals.push(s_val);
        let ghost before = *u;
        if eps.is_lt(s_val) {
            let mut k: usize = 0;
            while k < m
                invariant
                    k <= m,
                    i < n,
                    m == 0 || n <= m,
                    m == a.nrows(),
                    n == a.ncols(),
                    a.wf(),
                    holds(*a, ga),
                    u.wf(),
                    u.same_shape(&before),
                    before.nrows() == m,
                    before.ncols() == m,
                    s_val == norms[i as int],
                    forall|r: int, c: int| #[trigger] u.in_bounds(r, c) ==> u.at(r, c) == if c == i && r < k {
                        ga(r, c).spec_over(s_val)
                    } else {
                        before.at(r, c)
                    },
                decreases m - k,
            {
                assert(a.in_bounds(k as int, i as int));
                let x = a.entry(k, i);
                let ghost mid = *u;
                u.set(k, i, x.over(s_val));
                proof {
                    assert forall|r: int, c: int| #[trigger] u.in_bounds(r, c) implies u.at(r, c) == if c == i && r < k + 1 {
                        ga(r, c).spec_over(s_val)
                    } else {
                        before.at(r, c)
                    } by {
                        assert(mid.in_bounds(r, c));
                    }
                }
                k = k + 1;
            }
            valid.push(i);
        } else {
            invalid.push(i);
        }
        proof {
            assert forall|r: int, c: int| #[trigger] u.in_bounds(r, c) implies u.at(r, c)
                == extracted(ga, gu, norms, eps, m as int, (i + 1) as int)(r, c) by {
                assert(before.in_bounds(r, c));
            }
            assert(svals@ == norms.subrange(0, i + 1));
        }
        i = i + 1;
    }
    proof {
        assert(svals@ == norms);
    }
    (svals, valid, invalid)
}

/// Column `b` (rows `r < m`) minus its coefficient on column `c` times
/// column `c`: `u(r, b) - (sum_k u(k, b) u(k, c)) u(r, c)`.
pub open spec fn project_out<T: Scalar>(u: spec_fn(int, int) -> T, b: int, c: int, m: int) -> spec_fn(
    int,
    int,
) -> T {
    let d = col_dot(u, b, c, m);
    |r: int, col: int|
        if col == b && 0 <= r < m {
            u(r, b).spec_minus(d.spec_times(u(r, c)))
        } else {
            u(r, col)
        }
}

/// Column `b` projected out against the columns `list[0], ..., list[k-1]`
/// in that order.
pub open spec fn project_all<T: Scalar>(
    u: spec_fn(int, int) -> T,
    b: int,
    list: Seq<usize>,
    k: int,
    m: int,
) -> spec_fn(int, int) -> T
    decreases k,
{
    if k <= 0 {
        u
    } else {
        project_out(project_all(u, b, list, k - 1, m), b, list[k - 1] as int, m)
    }
}

/// Projects out column `c` from column `b` of the `m x m` matrix `u`.
fn project_column<T: Scalar>(u: &mut Matrix<T>, b: usize, c: usize, Ghost(gu): Ghost<spec_fn(int, int) -> T>)
    requires
        old(u).wf(),
        old(u).nrows() == old(u).ncols(),
        b < old(u).nrows(),
        c < old(u).nrows(),
        holds(*old(u), gu),
    ensures
        final(u).wf(),
        final(u).same_shape(old(u)),
        holds(*final(u), project_out(gu, b as int, c as int, old(u).nrows() as int)),
{
    let m = u.rows();
    let mut dot = T::from_usize(0);
    let mut r: usize = 0;
    while r < m
        invariant
            r <= m,
            m == u.nrows(),
            m == u.ncols(),
            b < m,
            c < m,
            u.wf(),
            holds(*u, gu),
            dot == col_dot(gu, b as int, c as int, r as int),
        decreases m - r,
    {
        assert(u.in_bounds(r as int, b as int) && u.in_bounds(r as int, c as int));
        dot = dot.plus(u.entry(r, b).times(u.entry(r, c)));
        r = r + 1;
    }
    let ghost target = project_out(gu, b as int, c as int, m as int);
    let ghost start = *u;
    let mut r: usize = 0;
    while r < m
        invariant
            r <= m,
            m == u.nrows(),
            m == u.ncols(),
            b < m,
            c < m,
            u.wf(),
            u.same_shape(&start),
            holds(start, gu),
            dot == col_dot(gu, b as int, c as int, m as int),
            target == project_out(gu, b as int, c as int, m as int),
            forall|i: int, j: int| #[trigger] u.in_bounds(i, j) ==> u.at(i, j) == if j == b && i < r {
                target(i, j)
            } else {
                gu(i, j)
            },
        decreases m - r,
    {
        assert(u.in_bounds(r as int, b as int) && u.in_bounds(r as int, c as int));
        let val = u.entry(r, b).minus(dot.times(u.entry(r, c)));
        let ghost mid = *u;
        u.set(r, b, val);
        proof {
            assert forall|i: int, j: int| #[trigger] u.in_bounds(i, j) implies u.at(i, j) == if j == b && i < r + 1 {
                target(i, j)
            } else {
                gu(i, j)
            } by {
                assert(mid.in_bounds(i, j));
            }
        }
        r = r + 1;
    }
}

/// Projects out the columns `list[0], list[1], ...` in order from column
/// `b` of the `m x m` matrix `u`.
fn project_against<T: Scalar>(
    u: &mut Matrix<T>,
    b: usize,
    list: &Vec<usize>,
    Ghost(gu): Ghost<spec_fn(int, int) -> T>,
)
    requires
        old(u).wf(),
        old(u).nrows() == old(u).ncols(),
        b < old(u).nrows(),
        forall|q: int| 0 <= q < list@.len() ==> #[trigger] list@[q] < old(u).nrows(),
        holds(*old(u), gu),
    ensures
        final(u).wf(),
        final(u).same_shape(old(u)),
        holds(*final(u), project_all(gu, b as int, list@, list@.len() as int, old(u).nrows() as int)),
{
    let m = u.rows();
    let ghost mut g = gu;
    let mut q: usize = 0;
    while q < list.len()
        invariant
            q <= list@.len(),
            m == u.nrows(),
            m == u.ncols(),
            b < m,
            forall|p: int| 0 <= p < list@.len() ==> #[trigger] list@[p] < m,
            u.wf(),
            u.same_shape(old(u)),
            holds(*u, g),
            g == project_all(gu, b as int, list@, q as int, m as int),
        decreases list@.len() - q,
    {
        let c = list[q];
        project_column(u, b, c, Ghost(g));
        proof {
            g = project_out(g, b as int, c as int, m as int);
        }
        q = q + 1;
    }
}

/// The pseudo-random entry `v / 100` written into row `r` of column `b` at a
/// retry, where `v` is the residue of `(r + b + attempt) * 123456789` modulo
/// `100`, computed from the residues of the summands (`123456789` leaves
/// `89`) so that nothing can overflow.
pub open spec fn retry_entry<T: Scalar>(r: int, b: int, attempt: int) -> T {
    T::spec_from_usize(((((r % 100) + (b % 100) + attempt) % 100 * 89) % 100) as usize).spec_over(
        T::spec_from_usize(100),
    )
}

/// Column `b` (rows `r < m`) refilled with the retry entries of `attempt`.
pub open spec fn refill<T: Scalar>(u: spec_fn(int, int) -> T, b: int, attempt: int, m: int) -> spec_fn(
    int,
    int,
) -> T {
    |r: int, c: int|
        if c == b && 0 <= r < m {
            retry_entry::<T>(r, b, attempt)
        } else {
            u(r, c)
        }
}

/// Column `b` (rows `r < m`) divided by `d`.
pub open spec fn divide_column<T: Scalar>(u: spec_fn(int, int) -> T, b: int, d: T, m: int) -> spec_fn(
    int,
    int,
) -> T {
    |r: int, c: int|
        if c == b && 0 <= r < m {
            u(r, b).spec_over(d)
        } else {
            u(r, c)
        }
}

/// The attempts from `attempt` on (at most ten in all) to make column `b`
/// a unit vector orthogonal to the basis columns: from the second attempt
/// on the column is refilled; it is then projected out against the basis,
/// and divided by its norm when that norm exceeds `eps`, which ends the
/// attempts.
pub open spec fn attempts<T: Scalar>(
    u: spec_fn(int, int) -> T,
    b: int,
    basis: Seq<usize>,
    attempt: nat,
    eps: T,
    m: int,
) -> spec_fn(int, int) -> T
    decreases 10 - attempt,
{
    if attempt >= 10 {
        u
    } else {
        let u1 = if attempt > 0 {
            refill(u, b, attempt as int, m)
        } else {
            u
        };
        let u2 = project_all(u1, b, basis, basis.len() as int, m);
        let nv = col_dot(u2, b, b, m).spec_sqrt();
        if eps.spec_lt(nv) {
            divide_column(u2, b, nv, m)
        } else {
            attempts(u2, b, basis, attempt + 1, eps, m)
        }
    }
}

/// Makes column `b` of the `m x m` matrix `u` a unit vector orthogonal to
/// the basis columns (see `attempts`).
fn complete_column<T: Scalar>(
    u: &mut Matrix<T>,
    b: usize,
    basis: &Vec<usize>,
    eps: T,
    Ghost(gu): Ghost<spec_fn(int, int) -> T>,
)
    requires
        old(u).wf(),
        old(u).nrows() == old(u).ncols(),
        b < old(u).nrows(),
        forall|q: int| 0 <= q < basis@.len() ==> #[trigger] basis@[q] < old(u).nrows(),
        holds(*old(u), gu),
    ensures
        final(u).wf(),
        final(u).same_shape(old(u)),
        holds(*final(u), attempts(gu, b as int, basis@, 0, eps, old(u).nrows() as int)),
{
    let m = u.rows();
    let ghost target = attempts(gu, b as int, basis@, 0, eps, m as int);
    let ghost mut g = gu;
    let mut success = false;
    let mut attempt: usize = 0;
    while !success && attempt < 10
        invariant
            attempt <= 10,
            m == u.nrows(),
            m == u.ncols(),
            b < m,
            forall|q: int| 0 <= q < basis@.len() ==> #[trigger] basis@[q] < m,
            u.wf(),
            u.same_shape(old(u)),
            holds(*u, g),
            target == attempts(gu, b as int, basis@, 0, eps, m as int),
            success ==> g == target,
            !success ==> attempts(g, b as int, basis@, attempt as nat, eps, m as int) == target,
        decreases 10 - attempt + (if success { 0int } else { 1int }),
    {
        let ghost g0 = g;
        if attempt > 0 {
            let ghost start = *u;
            let mut r: usize = 0;
            while r < m
                invariant
                    r <= m,
                    0 < attempt < 10,
                    m == u.nrows(),
                    m == u.ncols(),
                    b < m,
                    u.wf(),
                    u.same_shape(&start),
                    holds(start, g0),
                    forall|i: int, j: int| #[trigger] u.in_bounds(i, j) ==> u.at(i, j) == if j == b && i < r {
                        retry_entry::<T>(i, b as int, attempt as int)
                    } else {
                        g0(i, j)
                    },
                decreases m - r,
            {
                let val = ((r % 100 + b % 100 + attempt) % 100 * 89) % 100;
                let entry = T::from_usize(val).over(T::from_usize(100));
                let ghost mid = *u;
                u.set(r, b, entry);
                proof {
                    assert forall|i: int, j: int| #[trigger] u.in_bounds(i, j) implies u.at(i, j) == if j == b && i < r + 1 {
                        retry_entry::<T>(i, b as int, attempt as int)
                    } else {
                        g0(i, j)
                    } by {
                        assert(mid.in_bounds(i, j));
                    }
                }
                r = r + 1;
            }
            proof {
                g = refill(g0, b as int, attempt as int, m as int);
            }
        }
        let ghost g1 = g;
        project_against(u, b, basis, Ghost(g1));
        proof {
            g = project_all(g1, b as int, basis@, basis@.len() as int, m as int);
        }
        let mut norm = T::from_usize(0);
        let mut r: usize = 0;
        while r < m
            invariant
                r <= m,
                m == u.nrows(),
                m == u.ncols(),
                b < m,
                u.wf(),
                holds(*u, g),
                norm == col_dot(g, b as int, b as int, r as int),
            decreases m - r,
        {
            assert(u.in_bounds(r as int, b as int));
            let val = u.entry(r, b);
            norm = norm.plus(val.times(val));
            r = r + 1;
        }
        let n_val = norm.sqrt();
        if eps.is_lt(n_val) {
            let ghost g2 = g;
            let ghost start = *u;
            let mut r: usize = 0;
            while r < m
                invariant
                    r <= m,
                    m == u.nrows(),
                    m == u.ncols(),
                    b < m,
                    u.wf(),
                    u.same_shape(&start),
                    holds(start, g2),
                    forall|i: int, j: int| #[trigger] u.in_bounds(i, j) ==> u.at(i, j) == if j == b && i < r {
                        g2(i, b as int).spec_over(n_val)
                    } else {
                        g2(i, j)
                    },
                decreases m - r,
            {
                assert(u.in_bounds(r as int, b as int));
                let val = u.entry(r, b).over(n_val);
                let ghost mid = *u;
                u.set(r, b, val);
                proof {
                    assert forall|i: int, j: int| #[trigger] u.in_bounds(i, j) implies u.at(i, j) == if j == b && i < r + 1 {
                        g2(i, b as int).spec_over(n_val)
                    } else {
                        g2(i, j)
                    } by {
                        assert(mid.in_bounds(i, j));
                        assert(start.in_bounds(i, j));
                    }
                }
                r = r + 1;
            }
            proof {
                g = divide_column(g2, b as int, n_val, m as int);
                assert forall|i: int, j: int| #[trigger] u.in_bounds(i, j) implies u.at(i, j) == g(i, j) by {
                    assert(start.in_bounds(i, j));
                }
            }
            success = true;
        } else {
            attempt = attempt + 1;
        }
    }
}

/// The first pass of the completion: each column `bad[q]`, `q < k`, in
/// turn, projected out against the columns `good` in order.
pub open spec fn first_pass<T: Scalar>(
    u: spec_fn(int, int) -> T,
    bad: Seq<usize>,
    good: Seq<usize>,
    k: int,
    m: int,
) -> spec_fn(int, int) -> T
    decreases k,
{
    if k <= 0 {
        u
    } else {
        project_all(first_pass(u, bad, good, k - 1, m), bad[k - 1] as int, good, good.len() as int, m)
    }
}

/// The second pass of the completion: each column `bad[q]`, `q < k`, in
/// turn, made a unit vector orthogonal to the columns `good` and
/// `bad[0], ..., bad[q-1]` (see `attempts`).
pub open spec fn second_pass<T: Scalar>(
    u: spec_fn(int, int) -> T,
    bad: Seq<usize>,
    good: Seq<usize>,
    k: int,
    eps: T,
    m: int,
) -> spec_fn(int, int) -> T
    decreases k,
{
    if k <= 0 {
        u
    } else {
        attempts(
            second_pass(u, bad, good, k - 1, eps, m),
            bad[k - 1] as int,
            good + bad.subrange(0, k - 1),
            0,
            eps,
            m,
        )
    }
}

/// Both passes of the completion of the columns `bad`.
pub open spec fn completed<T: Scalar>(
    u: spec_fn(int, int) -> T,
    bad: Seq<usize>,
    good: Seq<usize>,
    eps: T,
    m: int,
) -> spec_fn(int, int) -> T {
    second_pass(first_pass(u, bad, good, bad.len() as int, m), bad, good, bad.len() as int, eps, m)
}

/// Completes the columns `bad` of the `m x m` matrix `u` against the
/// columns `good` (see `completed`).
fn complete_basis<T: Scalar>(
    u: &mut Matrix<T>,
    good: &Vec<usize>,
    bad: &Vec<usize>,
    eps: T,
    Ghost(gu): Ghost<spec_fn(int, int) -> T>,
)
    requires
        old(u).wf(),
        old(u).nrows() == old(u).ncols(),
        forall|q: int| 0 <= q < good@.len() ==> #[trigger] good@[q] < old(u).nrows(),
        forall|q: int|
            0 <= q < bad@.len() ==> #[trigger] bad@[q] < old(u).nrows(),
        holds(*old(u), gu),
    ensures
        final(u).wf(),
        final(u).same_shape(old(u)),
        holds(*final(u), completed(gu, bad@, good@, eps, old(u).nrows() as int)),
{
    let m = u.rows();
    let ghost mut g = gu;
    let mut q: usize = 0;
    while q < bad.len()
        invariant
            q <= bad@.len(),
            m == u.nrows(),
            m == u.ncols(),
            forall|p: int| 0 <= p < good@.len() ==> #[trigger] good@[p] < m,
            forall|p: int| 0 <= p < bad@.len() ==> #[trigger] bad@[p] < m,
            u.wf(),
            u.same_shape(old(u)),
            holds(*u, g),
            g == first_pass(gu, bad@, good@, q as int, m as int),
        decreases bad@.len() - q,
    {
        let b = bad[q];
        project_against(u, b, good, Ghost(g));
        proof {
            g = project_all(g, b as int, good@, good@.len() as int, m as int);
        }
        q = q + 1;
    }
    let ghost g1 = g;
    let mut basis: Vec<usize> = Vec::new();
    let mut p: usize = 0;
    while p < good.len()
        invariant
            p <= good@.len(),
            basis@ == good@.subrange(0, p as int),
        decreases good@.len() - p,
    {
        basis.push(good[p]);
        p = p + 1;
    }
    proof {
        assert(basis@ == good@ + bad@.subrange(0, 0));
    }
    let mut q: usize = 0;
    while q < bad.len()
        invariant
            q <= bad@.len(),
            m == u.nrows(),
            m == u.ncols(),
            forall|p: int| 0 <= p < good@.len() ==> #[trigger] good@[p] < m,
            forall|p: int|
                0 <= p < bad@.len() ==> #[trigger] bad@[p] < m,
            u.wf(),
            u.same_shape(old(u)),
            holds(*u, g),
            basis@ == good@ + bad@.subrange(0, q as int),
            g == second_pass(g1, bad@, good@, q as int, eps, m as int),
        decreases bad@.len() - q,
    {
        let b = bad[q];
        proof {
            assert forall|p: int| 0 <= p < basis@.len() implies #[trigger] basis@[p] < m by {
                if p >= good@.len() {
                    assert(basis@[p] == bad@[p - good@.len()]);
                }
            }
        }
        complete_column(u, b, &basis, eps, Ghost(g));
        proof {
            g = attempts(g, b as int, basis@, 0, eps, m as int);
        }
        basis.push(b);
        proof {
            assert(basis@ == good@ + bad@.subrange(0, q + 1));
        }
        q = q + 1;
    }
}

/// `x` is placed strictly before `y` in the descending order of the
/// singular values: `y < x`, or, when neither `y < x`, `x < y` nor
/// `y == x` holds, `x` equals itself (a value not equal to itself is
/// placed last).
pub open spec fn sv_before<T: Scalar>(x: T, y: T) -> bool {
    y.spec_lt(x) || (!x.spec_lt(y) && !y.spec_eq(x) && x.spec_eq(x))
}

/// The index at position `j` of `o` moved left past every index whose
/// value it is placed before.
pub open spec fn insert_index<T: Scalar>(s: Seq<T>, o: Seq<usize>, j: int) -> Seq<usize>
    decreases j,
{
    if j > 0 && sv_before(s[o[j] as int], s[o[j - 1] as int]) {
        insert_index(s, o.update(j - 1, o[j]).update(j, o[j - 1]), j - 1)
    } else {
        o
    }
}

/// Stable insertion sort of the first `k` indices of `o` by their values in
/// `s`.
pub open spec fn sort_indices<T: Scalar>(s: Seq<T>, o: Seq<usize>, k: nat) -> Seq<usize>
    decreases k,
{
    if k <= 1 {
        o
    } else {
        insert_index(s, sort_indices(s, o, (k - 1) as nat), k - 1)
    }
}

/// The indices `0 .. s.len()` in the order in which their values are
/// reported, largest first.
pub open spec fn descending_order<T: Scalar>(s: Seq<T>) -> Seq<usize> {
    sort_indices(s, Seq::new(s.len(), |i: int| i as usize), s.len())
}

/// Insertion keeps the length and the bound on the indices.
proof fn lemma_insert_index_bounded<T: Scalar>(s: Seq<T>, o: Seq<usize>, j: int)
    requires
        0 <= j < o.len(),
        forall|q: int| 0 <= q < o.len() ==> #[trigger] o[q] < s.len(),
    ensures
        insert_index(s, o, j).len() == o.len(),
        forall|q: int| 0 <= q < o.len() ==> #[trigger] insert_index(s, o, j)[q] < s.len(),
    decreases j,
{
    if j > 0 && sv_before(s[o[j] as int], s[o[j - 1] as int]) {
        let o2 = o.update(j - 1, o[j]).update(j, o[j - 1]);
        lemma_insert_index_bounded(s, o2, j - 1);
    }
}

/// The sort keeps the length and the bound on the indices.
proof fn lemma_sort_indices_bounded<T: Scalar>(s: Seq<T>, o: Seq<usize>, k: nat)
    requires
        k <= o.len(),
        forall|q: int| 0 <= q < o.len() ==> #[trigger] o[q] < s.len(),
    ensures
        sort_indices(s, o, k).len() == o.len(),
        forall|q: int| 0 <= q < o.len() ==> #[trigger] sort_indices(s, o, k)[q] < s.len(),
    decreases k,
{
    if k > 1 {
        lemma_sort_indices_bounded(s, o, (k - 1) as nat);
        lemma_insert_index_bounded(s, sort_indices(s, o, (k - 1) as nat), k - 1);
    }
}

/// Whether `x` is placed strictly before `y` (see `sv_before`).
fn goes_before<T: Scalar>(x: T, y: T) -> (r: bool)
    ensures
        r == sv_before(x, y),
{
    y.is_lt(x) || (!x.is_lt(y) && !y.is_eq(x) && x.is_eq(x))
}

/// The indices of `s` sorted by descending value (stable).
fn sorted_order<T: Scalar>(s: &Vec<T>) -> (o: Vec<usize>)
    ensures
        o@ == descending_order(s@),
        o@.len() == s@.len(),
        forall|q: int| 0 <= q < o@.len() ==> #[trigger] o@[q] < s@.len(),
{
    let n = s.len();
    let ghost o0 = Seq::new(n as nat, |i: int| i as usize);
    let mut o: Vec<usize> = Vec::new();
    let mut i: usize = 0;
    while i < n
        invariant
            i <= n,
            n == s@.len(),
            o@ == o0.subrange(0, i as int),
            o0 == Seq::new(n as nat, |q: int| q as usize),
        decreases n - i,
    {
        o.push(i);
        i = i + 1;
    }
    proof {
        assert(o@ == o0);
    }
    let mut i: usize = 0;
    while i < n
        invariant
            i <= n,
            n == s@.len(),
            o@.len() == n,
            forall|q: int| 0 <= q < n ==> #[trigger] o@[q] < n,
            o0 == Seq::new(n as nat, |q: int| q as usize),
            o@ == sort_indices(s@, o0, i as nat),
        decreases n - i,
    {
        let ghost start = o@;
        let mut j = i;
        while j > 0 && goes_before(s[o[j]], s[o[j - 1]])
            invariant
                j <= i < n,
                n == s@.len(),
                o@.len() == n,
                forall|q: int| 0 <= q < n ==> #[trigger] o@[q] < n,
                insert_index(s@, o@, j as int) == insert_index(s@, start, i as int),
            decreases j,
        {
            let x = o[j];
            let y = o[j - 1];
            o.set(j - 1, x);
            o.set(j, y);
            j = j - 1;
        }
        i = i + 1;
    }
    proof {
        lemma_sort_indices_bounded(s@, o0, n as nat);
    }
    o
}

/// The listed indices are below `k`.
proof fn lemma_lists_bounded<T: Scalar>(s: Seq<T>, eps: T, k: nat)
    ensures
        forall|q: int| 0 <= q < valid_list(s, eps, k).len() ==> #[trigger] valid_list(s, eps, k)[q] < k,
        forall|q: int| 0 <= q < invalid_list(s, eps, k).len() ==> #[trigger] invalid_list(s, eps, k)[q] < k,
    decreases k,
{
    if k > 0 {
        let k1 = (k - 1) as nat;
        lemma_lists_bounded(s, eps, k1);
        let v = valid_list(s, eps, k1);
        let w = invalid_list(s, eps, k1);
        assert forall|q: int| 0 <= q < valid_list(s, eps, k).len() implies #[trigger] valid_list(s, eps, k)[q] < k by {
            if q < v.len() {
                assert(v[q] < k1);
            }
        }
        assert forall|q: int| 0 <= q < invalid_list(s, eps, k).len() implies #[trigger] invalid_list(s, eps, k)[q] < k by {
            if q < w.len() {
                assert(w[q] < k1);
            }
        }
    }
}

/// The convergence tolerance of the decomposition.
pub open spec fn svd_eps<T: Scalar>() -> T {
    T::spec_svd_tolerance()
}

/// The grids of `A` and `V` after the Jacobi sweeps on the matrix `a`,
/// starting from `a` and the identity.
pub open spec fn svd_rotated<T: Scalar>(a: Matrix<T>) -> (spec_fn(int, int) -> T, spec_fn(int, int) -> T) {
    jacobi_loop(grid(a), ident(), a.nrows() as int, a.ncols() as int, 0, svd_eps())
}

/// The singular values in column order: the norms of the rotated columns.
pub open spec fn svd_norms<T: Scalar>(a: Matrix<T>) -> Seq<T> {
    col_norms(svd_rotated(a).0, a.nrows() as int, a.ncols())
}

/// The left singular vectors in column order: the normalized rotated
/// columns, completed by the Gram-Schmidt passes where a norm does not
/// exceed the tolerance, inside the identity.
pub open spec fn svd_left<T: Scalar>(a: Matrix<T>) -> spec_fn(int, int) -> T {
    let m = a.nrows() as int;
    let n = a.ncols();
    let s = svd_norms(a);
    completed(
        extracted(svd_rotated(a).0, ident(), s, svd_eps(), m, n as int),
        invalid_list(s, svd_eps(), n),
        valid_list(s, svd_eps(), n),
        svd_eps(),
        m,
    )
}

/// The order of the columns in the result: by descending singular value.
pub open spec fn svd_order<T: Scalar>(a: Matrix<T>) -> Seq<usize> {
    descending_order(svd_norms(a))
}

/// A singular value decomposition `A = U S V^T` by one-sided Jacobi
/// rotations.
pub struct JacobiSVD<T> {
    u: Matrix<T>,
    v: Matrix<T>,
    singular_values: Vec<T>,
}

/// `d` is the decomposition computed from `a`: `U` (`m x m`) holds the
/// left vectors in the sorted order in its first `n` columns and zeros
/// after them, `V` (`n x n`) the rotations in the sorted order, and the
/// singular values are sorted accordingly.
pub open spec fn svd_outcome<T: Scalar>(a: Matrix<T>, d: JacobiSVD<T>) -> bool {
    let m = a.nrows();
    let n = a.ncols();
    let order = svd_order(a);
    &&& d.left().wf()
    &&& d.left().nrows() == m
    &&& d.left().ncols() == m
    &&& d.right().wf()
    &&& d.right().nrows() == n
    &&& d.right().ncols() == n
    &&& d.values() == Seq::new(n, |i: int| svd_norms(a)[order[i] as int])
    &&& forall|k: int, i: int| #[trigger]
        d.left().in_bounds(k, i) ==> d.left().at(k, i) == if i < n {
            svd_left(a)(k, order[i] as int)
        } else {
            T::spec_zero()
        }
    &&& forall|k: int, i: int| #[trigger]
        d.right().in_bounds(k, i) ==> d.right().at(k, i) == svd_rotated(a).1(k, order[i] as int)
}

/// The shapes the decomposition accepts: `U` has a column for each column
/// of `A` (or `A` has no rows).
pub open spec fn svd_accepts<T>(a: Matrix<T>) -> bool {
    a.nrows() == 0 || a.ncols() <= a.nrows()
}

/// The factor matrices fit in `usize`.
pub open spec fn svd_fits<T>(a: Matrix<T>) -> bool {
    a.nrows() * a.nrows() <= usize::MAX && a.ncols() * a.ncols() <= usize::MAX
}

impl<T: Scalar> JacobiSVD<T> {
    /// The matrix `U` of left singular vectors.
    pub closed spec fn left(&self) -> Matrix<T> {
        self.u
    }

    /// The matrix `V` of right singular vectors.
    pub closed spec fn right(&self) -> Matrix<T> {
        self.v
    }

    /// The singular values, largest first.
    pub closed spec fn values(&self) -> Seq<T> {
        self.singular_values@
    }

    /// Computes the decomposition of `matrix` (`m x n`). Fails when `A` has
    /// rows but fewer rows than columns, and when the `m x m` or the `n x n`
    /// factor does not fit in `usize`.
    pub fn new(matrix: &Matrix<T>) -> (r: Result<Self, String>)
        requires
            matrix.wf(),
        ensures
            r is Ok <==> svd_accepts(*matrix) && svd_fits(*matrix),
            r matches Ok(d) ==> svd_outcome(*matrix, d),
            r matches Err(e) ==> e@ == if !svd_accepts(*matrix) {
                "JacobiSVD requires at least as many rows as columns"@
            } else {
                "Matrix dimensions overflow"@
            },
    {
        let m = matrix.rows();
        let n = matrix.cols();
        if m > 0 && n > m {
            return Err("JacobiSVD requires at least as many rows as columns".to_string());
        }
        let _size = matrix.size();
        let eps = T::svd_tolerance();
        let mut a = match Matrix::<T>::new_dynamic(m, n) {
            Ok(z) => z,
            Err(e) => {
                return Err(e);
            },
        };
        let _ = a.assign(matrix);
        let mut u = match Matrix::<T>::new_dynamic(m, m) {
            Ok(_) => Matrix::identity(m, m),
            Err(e) => {
                return Err(e);
            },
        };
        let mut v = match Matrix::<T>::new_dynamic(n, n) {
            Ok(_) => Matrix::identity(n, n),
            Err(e) => {
                return Err(e);
            },
        };
        proof {
            assert(holds(a, grid(*matrix))) by {
                assert forall|i: int, j: int| #[trigger] a.in_bounds(i, j) implies a.at(i, j) == grid(*matrix)(i, j) by {}
            }
            assert(holds(v, ident::<T>()));
            assert(holds(u, ident::<T>()));
        }
        jacobi_sweeps(&mut a, &mut v, eps, Ghost(grid(*matrix)), Ghost(ident()));
        let ghost rot = svd_rotated(*matrix);
        let (svals, valid, invalid) = extract_columns(&a, &mut u, eps, Ghost(rot.0), Ghost(ident()));
        let ghost s = svals@;
        let ghost ext = extracted(rot.0, ident(), s, eps, m as int, n as int);
        proof {
            lemma_lists_bounded(s, eps, n as nat);
        }
        if m > 0 {
            proof {
                assert forall|q: int| 0 <= q < invalid@.len() implies #[trigger] invalid@[q] < m by {
                    assert(invalid@[q] < n);
                }
                assert forall|q: int| 0 <= q < valid@.len() implies #[trigger] valid@[q] < m by {
                    assert(valid@[q] < n);
                }
            }
            complete_basis(&mut u, &valid, &invalid, eps, Ghost(ext));
        }
        let ghost left = completed(ext, invalid@, valid@, eps, m as int);
        assert(holds(u, left));
        let order = sorted_order(&svals);
        let mut sorted_s: Vec<T> = Vec::new();
        let mut sorted_u = Matrix::zeros(m, m);
        let mut sorted_v = Matrix::zeros(n, n);
        let mut i: usize = 0;
        while i < n
            invariant
                i <= n,
                m == matrix.nrows(),
                n == matrix.ncols(),
                m == 0 || n <= m,
                svals@.len() == n,
                order@.len() == n,
                forall|q: int| 0 <= q < n ==> #[trigger] order@[q] < n,
                u.wf(),
                u.nrows() == m,
                u.ncols() == m,
                v.wf(),
                v.nrows() == n,
                v.ncols() == n,
                holds(u, left),
                holds(v, rot.1),
                sorted_u.wf(),
                sorted_u.nrows() == m,
                sorted_u.ncols() == m,
                sorted_v.wf(),
                sorted_v.nrows() == n,
                sorted_v.ncols() == n,
                sorted_s@ == Seq::new(i as nat, |q: int| svals@[order@[q] as int]),
                forall|k: int, c: int| #[trigger]
                    sorted_u.in_bounds(k, c) ==> sorted_u.at(k, c) == if c < i {
                        left(k, order@[c] as int)
                    } else {
                        T::spec_zero()
                    },
                forall|k: int, c: int| #[trigger]
                    sorted_v.in_bounds(k, c) ==> sorted_v.at(k, c) == if c < i {
                        rot.1(k, order@[c] as int)
                    } else {
                        T::spec_zero()
                    },
            decreases n - i,
        {
            let idx = order[i];
            sorted_s.push(svals[idx]);
            let ghost su0 = sorted_u;
            let mut k: usize = 0;
            while k < m
                invariant
                    k <= m,
                    i < n,
                    idx < n,
                    idx == order@[i as int],
                    m == 0 || n <= m,
                    u.wf(),
                    u.nrows() == m,
                    u.ncols() == m,
                    holds(u, left),
                    sorted_u.wf(),
                    sorted_u.same_shape(&su0),
                    su0.nrows() == m,
                    su0.ncols() == m,
                    forall|r: int, c: int| #[trigger]
                        sorted_u.in_bounds(r, c) ==> sorted_u.at(r, c) == if c == i && r < k {
                            left(r, idx as int)
                        } else {
                            su0.at(r, c)
                        },
                decreases m - k,
            {
                assert(u.in_bounds(k as int, idx as int));
                let val = u.entry(k, idx);
                let ghost mid = sorted_u;
                sorted_u.set(k, i, val);
                proof {
                    assert forall|r: int, c: int| #[trigger] sorted_u.in_bounds(r, c) implies sorted_u.at(r, c)
                        == if c == i && r < k + 1 {
                        left(r, idx as int)
                    } else {
                        su0.at(r, c)
                    } by {
                        assert(mid.in_bounds(r, c));
                    }
                }
                k = k + 1;
            }
            let ghost sv0 = sorted_v;
            let mut k: usize = 0;
            while k < n
                invariant
                    k <= n,
                    i < n,
                    idx < n,
                    idx == order@[i as int],
                    v.wf(),
                    v.nrows() == n,
                    v.ncols() == n,
                    holds(v, rot.1),
                    sorted_v.wf(),
                    sorted_v.same_shape(&sv0),
                    sv0.nrows() == n,
                    sv0.ncols() == n,
                    forall|r: int, c: int| #[trigger]
                        sorted_v.in_bounds(r, c) ==> sorted_v.at(r, c) == if c == i && r < k {
                            rot.1(r, idx as int)
                        } else {
                            sv0.at(r, c)
                        },
                decreases n - k,
            {
                assert(v.in_bounds(k as int, idx as int));
                let val = v.entry(k, idx);
                let ghost mid = sorted_v;
                sorted_v.set(k, i, val);
                proof {
                    assert forall|r: int, c: int| #[trigger] sorted_v.in_bounds(r, c) implies sorted_v.at(r, c)
                        == if c == i && r < k + 1 {
                        rot.1(r, idx as int)
                    } else {
                        sv0.at(r, c)
                    } by {
                        assert(mid.in_bounds(r, c));
                    }
                }
                k = k + 1;
            }
            proof {
                assert(sorted_s@ == Seq::new((i + 1) as nat, |q: int| svals@[order@[q] as int]));
                assert forall|k: int, c: int| #[trigger] sorted_u.in_bounds(k, c) implies sorted_u.at(k, c)
                    == if c < i + 1 {
                    left(k, order@[c] as int)
                } else {
                    T::spec_zero()
                } by {
                    assert(su0.in_bounds(k, c));
                }
                assert forall|k: int, c: int| #[trigger] sorted_v.in_bounds(k, c) implies sorted_v.at(k, c)
                    == if c < i + 1 {
                    rot.1(k, order@[c] as int)
                } else {
                    T::spec_zero()
                } by {
                    assert(sv0.in_bounds(k, c));
                }
            }
            i = i + 1;
        }
        let d = JacobiSVD { u: sorted_u, v: sorted_v, singular_values: sorted_s };
        proof {
            assert(rot == svd_rotated(*matrix));
            assert(s == svd_norms(*matrix));
            assert(left == svd_left(*matrix));
            assert(order@ == svd_order(*matrix));
            assert(d.values() == Seq::new(n as nat, |q: int| svd_norms(*matrix)[svd_order(*matrix)[q] as int]));
            assert(svd_outcome(*matrix, d));
        }
        Ok(d)
    }

    /// The matrix `U` (`m x m`) of left singular vectors.
    pub fn matrix_u(&self) -> (r: &Matrix<T>)
        ensures
            *r == self.left(),
    {
        &self.u
    }

    /// The matrix `V` (`n x n`) of right singular vectors.
    pub fn matrix_v(&self) -> (r: &Matrix<T>)
        ensures
            *r == self.right(),
    {
        &self.v
    }

    /// The singular values, largest first.
    pub fn singular_values(&self) -> (r: &[T])
        ensures
            r@ == self.values(),
    {
        self.singular_values.as_slice()
    }
}

impl<T: Scalar> Matrix<T> {
    /// The Jacobi singular value decomposition of this matrix (see
    /// `JacobiSVD::new`).
    pub fn jacobi_svd(&self) -> (r: Result<JacobiSVD<T>, String>)
        requires
            self.wf(),
        ensures
            r is Ok <==> svd_accepts(*self) && svd_fits(*self),
            r matches Ok(d) ==> svd_outcome(*self, d),
            r matches Err(e) ==> e@ == if !svd_accepts(*self) {
                "JacobiSVD requires at least as many rows as columns"@
            } else {
                "Matrix dimensions overflow"@
            },
    {
        JacobiSVD::new(self)
    }
}

/// No value at a position in `lo .. hi` of `o` is below the value at a
/// later position in that range.
pub open spec fn descending_on<T: Scalar>(s: Seq<T>, o: Seq<usize>, lo: int, hi: int) -> bool {
    forall|p: int, q: int| lo <= p < q < hi ==> !(#[trigger] s[o[p] as int]).spec_lt(#[trigger] s[o[q] as int])
}

/// The values of `s` are mutually comparable: `<` is irreflexive and
/// transitive on them, two of them of which neither is below the other are
/// equal and are below the same values. (This holds of floating-point
/// values that are not NaN, `-0` and `+0` being equal.)
pub open spec fn mutually_comparable<T: Scalar>(s: Seq<T>) -> bool {
    &&& forall|i: int| 0 <= i < s.len() ==> !#[trigger] s[i].spec_lt(s[i])
    &&& forall|i: int, j: int, k: int|
        0 <= i < s.len() && 0 <= j < s.len() && 0 <= k < s.len() && #[trigger] s[i].spec_lt(s[j])
            && #[trigger] s[j].spec_lt(s[k]) ==> s[i].spec_lt(s[k])
    &&& forall|i: int, j: int, k: int|
        0 <= i < s.len() && 0 <= j < s.len() && 0 <= k < s.len() && !#[trigger] s[i].spec_lt(s[j])
            && !s[j].spec_lt(s[i]) && #[trigger] s[i].spec_lt(s[k]) ==> s[j].spec_lt(s[k])
    &&& forall|i: int, j: int|
        0 <= i < s.len() && 0 <= j < s.len() && !#[trigger] s[i].spec_lt(s[j]) && !s[j].spec_lt(s[i])
            ==> s[j].spec_eq(s[i])
}

/// Among mutually comparable values, `s[a]` is placed before `s[b]` exactly
/// when `s[b] < s[a]`.
proof fn lemma_before_total<T: Scalar>(s: Seq<T>, a: int, b: int)
    requires
        mutually_comparable(s),
        0 <= a < s.len(),
        0 <= b < s.len(),
    ensures
        sv_before(s[a], s[b]) <==> s[b].spec_lt(s[a]),
{
    if !s[b].spec_lt(s[a]) && !s[a].spec_lt(s[b]) {
        assert(s[b].spec_eq(s[a]));
    }
}

/// Moving the index at position `j` left keeps a permutation.
proof fn lemma_insert_index_permutation<T: Scalar>(s: Seq<T>, o: Seq<usize>, j: int, n: nat)
    requires
        is_permutation(o, n),
        0 <= j < n,
    ensures
        is_permutation(insert_index(s, o, j), n),
    decreases j,
{
    if j > 0 && sv_before(s[o[j] as int], s[o[j - 1] as int]) {
        let o2 = o.update(j - 1, o[j]).update(j, o[j - 1]);
        assert forall|p: int, q: int| 0 <= p < n && 0 <= q < n && p != q implies #[trigger] o2[p]
            != #[trigger] o2[q] by {
            let pp = if p == j - 1 { j } else if p == j { j - 1 } else { p };
            let qq = if q == j - 1 { j } else if q == j { j - 1 } else { q };
            assert(o2[p] == o[pp] && o2[q] == o[qq]);
        }
        lemma_insert_index_permutation(s, o2, j - 1, n);
    }
}

/// The sort keeps a permutation.
proof fn lemma_sort_indices_permutation<T: Scalar>(s: Seq<T>, o: Seq<usize>, k: nat, n: nat)
    requires
        is_permutation(o, n),
        k <= n,
    ensures
        is_permutation(sort_indices(s, o, k), n),
    decreases k,
{
    if k > 1 {
        lemma_sort_indices_permutation(s, o, (k - 1) as nat, n);
        lemma_insert_index_permutation(s, sort_indices(s, o, (k - 1) as nat), k - 1, n);
    }
}

/// Inserting the index at position `j`, which started at position `top`
/// and was moved past the positions `j + 1 ..= top`, leaves the positions
/// `0 ..= top` in descending order and the later positions unchanged.
proof fn lemma_insert_index_sorted<T: Scalar>(s: Seq<T>, o: Seq<usize>, j: int, top: int)
    requires
        mutually_comparable(s),
        0 <= j <= top < o.len(),
        forall|q: int| 0 <= q < o.len() ==> #[trigger] o[q] < s.len(),
        descending_on(s, o, 0, j),
        descending_on(s, o, j + 1, top + 1),
        forall|p: int, q: int|
            0 <= p < j < q <= top ==> !(#[trigger] s[o[p] as int]).spec_lt(#[trigger] s[o[q] as int]),
        forall|q: int| j < q <= top ==> (#[trigger] s[o[q] as int]).spec_lt(s[o[j] as int]),
    ensures
        insert_index(s, o, j).len() == o.len(),
        descending_on(s, insert_index(s, o, j), 0, top + 1),
        forall|q: int| top < q < o.len() ==> #[trigger] insert_index(s, o, j)[q] == o[q],
    decreases j,
{
    let x = s[o[j] as int];
    if j > 0 && sv_before(x, s[o[j - 1] as int]) {
        let y = s[o[j - 1] as int];
        lemma_before_total(s, o[j] as int, o[j - 1] as int);
        let o2 = o.update(j - 1, o[j]).update(j, o[j - 1]);
        assert forall|p: int, q: int| j - 1 + 1 <= p < q < top + 1 implies !(#[trigger] s[o2[p] as int]).spec_lt(
            #[trigger] s[o2[q] as int],
        ) by {
            if p == j {
                assert(o2[p] == o[j - 1]);
                assert(o2[q] == o[q]);
            }
        }
        assert forall|p: int, q: int| 0 <= p < j - 1 < q <= top implies !(#[trigger] s[o2[p] as int]).spec_lt(
            #[trigger] s[o2[q] as int],
        ) by {
            assert(o2[p] == o[p]);
            if q == j {
                assert(o2[q] == o[j - 1]);
            } else {
                assert(o2[q] == o[q]);
            }
        }
        assert forall|q: int| j - 1 < q <= top implies (#[trigger] s[o2[q] as int]).spec_lt(s[o2[j - 1] as int]) by {
            if q == j {
                assert(o2[q] == o[j - 1]);
            } else {
                assert(o2[q] == o[q]);
            }
        }
        assert(descending_on(s, o2, 0, j - 1)) by {
            assert forall|p: int, q: int| 0 <= p < q < j - 1 implies !(#[trigger] s[o2[p] as int]).spec_lt(
                #[trigger] s[o2[q] as int],
            ) by {
                assert(o2[p] == o[p] && o2[q] == o[q]);
            }
        }
        lemma_insert_index_sorted(s, o2, j - 1, top);
    } else {
        if j > 0 {
            lemma_before_total(s, o[j] as int, o[j - 1] as int);
        }
        assert forall|p: int, q: int| 0 <= p < q < top + 1 implies !(#[trigger] s[o[p] as int]).spec_lt(
            #[trigger] s[o[q] as int],
        ) by {
            if q == j && p < j - 1 {
                let w = s[o[j - 1] as int];
                let z = s[o[p] as int];
                assert(!z.spec_lt(w));
                assert(!w.spec_lt(x));
                if z.spec_lt(x) {
                    if w.spec_lt(z) {
                        assert(s[o[j - 1] as int].spec_lt(s[o[p] as int]));
                        assert(s[o[p] as int].spec_lt(s[o[j] as int]));
                    } else {
                        assert(!s[o[p] as int].spec_lt(s[o[j - 1] as int]));
                        assert(s[o[p] as int].spec_lt(s[o[j] as int]));
                    }
                }
            } else if p == j {
                let z = s[o[q] as int];
                assert(z.spec_lt(x));
                if x.spec_lt(z) {
                    assert(s[o[j] as int].spec_lt(s[o[q] as int]));
                    assert(s[o[q] as int].spec_lt(s[o[j] as int]));
                    assert(!s[o[j] as int].spec_lt(s[o[j] as int]));
                }
            }
        }
    }
}

/// The sort puts the positions `0 .. k` in descending order.
proof fn lemma_sort_indices_sorted<T: Scalar>(s: Seq<T>, o: Seq<usize>, k: nat)
    requires
        mutually_comparable(s),
        k <= o.len(),
        forall|q: int| 0 <= q < o.len() ==> #[trigger] o[q] < s.len(),
    ensures
        descending_on(s, sort_indices(s, o, k), 0, k as int),
    decreases k,
{
    if k > 1 {
        let k1 = (k - 1) as nat;
        lemma_sort_indices_sorted(s, o, k1);
        lemma_sort_indices_bounded(s, o, k1);
        lemma_insert_index_sorted(s, sort_indices(s, o, k1), k1 as int, k1 as int);
    }
}

/// No square root of the scalar type is below zero. (This holds of
/// floating-point square roots: a negative argument gives NaN, `-0` gives
/// `-0`, which is not below zero.)
pub open spec fn sqrt_not_negative<T: Scalar>() -> bool {
    forall|x: T| !#[trigger] x.spec_sqrt().spec_lt(T::spec_zero())
}

/// The reported order of the columns is a permutation of `0 .. n`, and when
/// the column norms are mutually comparable the singular values it yields
/// are descending: none is below a later one.
pub proof fn lemma_svd_order<T: Scalar>(a: Matrix<T>)
    ensures
        is_permutation(svd_order(a), a.ncols()),
        mutually_comparable(svd_norms(a)) ==> forall|i: int, j: int|
            0 <= i < j < a.ncols() ==> !(#[trigger] svd_norms(a)[svd_order(a)[i] as int]).spec_lt(
                #[trigger] svd_norms(a)[svd_order(a)[j] as int],
            ),
{
    let s = svd_norms(a);
    let n = a.ncols();
    let o0 = Seq::new(n, |i: int| i as usize);
    a.lemma_dims_fit();
    assert forall|i: int| 0 <= i < n implies #[trigger] o0[i] == i by {}
    assert forall|i: int, j: int| 0 <= i < n && 0 <= j < n && i != j implies #[trigger] o0[i] != #[trigger] o0[j] by {
        assert(o0[i] == i && o0[j] == j);
    }
    lemma_sort_indices_permutation(s, o0, n, n);
    if mutually_comparable(s) {
        lemma_sort_indices_sorted(s, o0, n);
    }
}

/// The singular values of a decomposition are a rearrangement of the column
/// norms; none is below zero when no square root of the scalar type is; and
/// when the norms are mutually comparable (for floating-point values: none
/// is NaN) they are descending: none is below a later one.
pub proof fn lemma_singular_values_descending<T: Scalar>(a: Matrix<T>, d: JacobiSVD<T>)
    requires
        svd_outcome(a, d),
    ensures
        d.values().len() == a.ncols(),
        exists|o: Seq<usize>|
            is_permutation(o, a.ncols()) && forall|i: int| 0 <= i < a.ncols() ==> #[trigger] d.values()[i]
                == svd_norms(a)[o[i] as int],
        sqrt_not_negative::<T>() ==> forall|i: int|
            0 <= i < a.ncols() ==> !(#[trigger] d.values()[i]).spec_lt(T::spec_zero()),
        mutually_comparable(svd_norms(a)) ==> forall|i: int, j: int|
            0 <= i < j < a.ncols() ==> !(#[trigger] d.values()[i]).spec_lt(#[trigger] d.values()[j]),
{
    lemma_svd_order(a);
    let o = svd_order(a);
    assert(forall|i: int| 0 <= i < a.ncols() ==> #[trigger] d.values()[i] == svd_norms(a)[o[i] as int]);
    if sqrt_not_negative::<T>() {
        assert forall|i: int| 0 <= i < a.ncols() implies !(#[trigger] d.values()[i]).spec_lt(T::spec_zero()) by {
            let k = o[i] as int;
            assert(0 <= k < a.ncols());
            let x = col_dot(svd_rotated(a).0, k, k, a.nrows() as int);
            assert(svd_norms(a)[k] == x.spec_sqrt());
        }
    }
}

} // verus!
