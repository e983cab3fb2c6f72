//! The blocked Cholesky factorization used for matrices larger than the
//! block size (32): each diagonal block is factored in place, the panel
//! below it is solved against the block's transpose, and the trailing lower
//! triangle receives the rank-`kb` update.

use crate::decompositions::lu::holds;
use crate::matrix::Matrix;
use crate::scalar::Scalar;
use vstd::prelude::*;

verus! {

/// Step `j` of the factorization restricted to the rows and columns below
/// `hi`: `L(j, j) = sqrt(b(j, j))`, the column below it (rows `< hi`) is
/// multiplied by `1 / L(j, j)`, and each entry `(i, c)` with
/// `j < c <= i < hi` becomes `b(i, c) - L(i, j) * conj(L(c, j))`.
pub open spec fn chol_step_in<T: Scalar>(b: spec_fn(int, int) -> T, j: int, hi: int) -> spec_fn(int, int) -> T {
    |i: int, c: int|
        {
            let ljj = b(j, j).spec_sqrt();
            let inv = T::spec_from_usize(1).spec_over(ljj);
            if i == j && c == j {
                ljj
            } else if c == j && j < i < hi {
                b(i, j).spec_times(inv)
            } else if j < c && c <= i && i < hi {
                b(i, c).spec_minus(b(i, j).spec_times(inv).spec_times(b(c, j).spec_times(inv).spec_conj()))
            } else {
                b(i, c)
            }
        }
}

/// The first `s` steps of the factorization of the diagonal block that
/// starts at `k` and ends before `hi`.
pub open spec fn block_steps<T: Scalar>(b: spec_fn(int, int) -> T, k: int, hi: int, s: nat) -> spec_fn(int, int) -> T
    decreases s,
{
    if s == 0 {
        b
    } else {
        chol_step_in(block_steps(b, k, hi, (s - 1) as nat), k + s - 1, hi)
    }
}

/// The first `s` steps of the block factorization all met a diagonal entry
/// whose real part is greater than zero.
pub open spec fn block_pivots_ok<T: Scalar>(b: spec_fn(int, int) -> T, k: int, hi: int, s: nat) -> bool
    decreases s,
{
    s == 0 || (block_pivots_ok(b, k, hi, (s - 1) as nat) && !block_steps(b, k, hi, (s - 1) as nat)(
        k + s - 1,
        k + s - 1,
    ).spec_real().spec_le(T::spec_zero()))
}

/// `g(i, c) - g(i, k) conj(g(c, k)) - ... - g(i, k + l - 1) conj(g(c, k + l - 1))`,
/// subtracted in this order.
pub open spec fn panel_sub<T: Scalar>(g: spec_fn(int, int) -> T, i: int, k: int, c: int, l: int) -> T
    decreases l,
{
    if l <= 0 {
        g(i, c)
    } else {
        panel_sub(g, i, k, c, l - 1).spec_minus(g(i, k + l - 1).spec_times(g(c, k + l - 1).spec_conj()))
    }
}

/// The panel rows `hi .. n` solved against the transpose of the factored
/// diagonal block, after its first `j` columns: column `c = k + j - 1`
/// becomes `panel_sub(.., j - 1) / g(c, c)`.
pub open spec fn panel_solve<T: Scalar>(b: spec_fn(int, int) -> T, k: int, hi: int, n: int, j: nat) -> spec_fn(
    int,
    int,
) -> T
    decreases j,
{
    if j == 0 {
        b
    } else {
        let prev = panel_solve(b, k, hi, n, (j - 1) as nat);
        let c = k + j - 1;
        |i: int, cc: int|
            if cc == c && hi <= i < n {
                panel_sub(prev, i, k, c, j - 1).spec_over(prev(c, c))
            } else {
                prev(i, cc)
            }
    }
}

/// `b(i, k) conj(b(j, k)) + ... + b(i, k + l - 1) conj(b(j, k + l - 1))`
/// accumulated from the image of zero.
pub open spec fn panel_dot<T: Scalar>(b: spec_fn(int, int) -> T, i: int, j: int, k: int, l: int) -> T
    decreases l,
{
    if l <= 0 {
        T::spec_from_usize(0)
    } else {
        panel_dot(b, i, j, k, l - 1).spec_plus(b(i, k + l - 1).spec_times(b(j, k + l - 1).spec_conj()))
    }
}

/// The rank-`kb` update of the trailing lower triangle (`hi <= j <= i < n`)
/// by the panel columns `k .. k + kb`.
pub open spec fn trailing_update<T: Scalar>(b: spec_fn(int, int) -> T, k: int, kb: int, hi: int, n: int) -> spec_fn(
    int,
    int,
) -> T {
    |i: int, j: int|
        if hi <= j && j <= i && i < n {
            b(i, j).spec_minus(panel_dot(b, i, j, k, kb))
        } else {
            b(i, j)
        }
}

/// The width of block `q` of an order-`n` matrix.
pub open spec fn block_width(n: int, q: int) -> int {
    if n - 32 * q < 32 {
        n - 32 * q
    } else {
        32
    }
}

/// The working matrix after the first `q` blocks of the blocked
/// factorization of `a` (order `n`).
pub open spec fn blocked_state<T: Scalar>(a: spec_fn(int, int) -> T, n: int, q: nat) -> spec_fn(int, int) -> T
    decreases q,
{
    if q == 0 {
        a
    } else {
        let k = 32 * (q - 1);
        let kb = block_width(n, q - 1);
        let hi = k + kb;
        let f = block_steps(blocked_state(a, n, (q - 1) as nat), k, hi, kb as nat);
        trailing_update(panel_solve(f, k, hi, n, kb as nat), k, kb, hi, n)
    }
}

/// The first `q` blocks were factored without meeting a diagonal entry
/// whose real part is not greater than zero.
pub open spec fn blocked_ok<T: Scalar>(a: spec_fn(int, int) -> T, n: int, q: nat) -> bool
    decreases q,
{
    q == 0 || (blocked_ok(a, n, (q - 1) as nat) && block_pivots_ok(
        blocked_state(a, n, (q - 1) as nat),
        32 * (q - 1),
        32 * (q - 1) + block_width(n, q - 1),
        block_width(n, q - 1) as nat,
    ))
}

/// The number of blocks of an order-`n` matrix.
pub open spec fn block_count(n: nat) -> nat {
    ((n + 31) / 32) as nat
}

/// The factor of the blocked factorization: the lower triangle of the
/// working matrix after all blocks, the image of `0` above the diagonal.
pub open spec fn blocked_factor<T: Scalar>(a: spec_fn(int, int) -> T, n: nat) -> spec_fn(int, int) -> T {
    let s = blocked_state(a, n as int, block_count(n));
    |i: int, c: int|
        if i < c {
            T::spec_from_usize(0)
        } else {
            s(i, c)
        }
}

/// Successful blocks are successful from the start.
pub proof fn lemma_blocked_ok_prefix<T: Scalar>(a: spec_fn(int, int) -> T, n: int, q: nat, m: nat)
    requires
        q <= m,
        blocked_ok(a, n, m),
    ensures
        blocked_ok(a, n, q),
    decreases m - q,
{
    if q < m {
        lemma_blocked_ok_prefix(a, n, q + 1, m);
    }
}

/// Successful block steps are successful from the start.
pub proof fn lemma_block_pivots_prefix<T: Scalar>(b: spec_fn(int, int) -> T, k: int, hi: int, s: nat, m: nat)
    requires
        s <= m,
        block_pivots_ok(b, k, hi, m),
    ensures
        block_pivots_ok(b, k, hi, s),
    decreases m - s,
{
    if s < m {
        lemma_block_pivots_prefix(b, k, hi, s + 1, m);
    }
}

/// Factors the diagonal block `k .. k + kb` in place; returns whether every
/// step met a diagonal entry with real part greater than zero (stopping at
/// the first that does not).
pub(crate) fn factor_block<T: Scalar>(l: &mut Matrix<T>, k: usize, kb: usize, Ghost(g): Ghost<spec_fn(int, int) -> T>) -> (ok: bool)
    requires
        old(l).wf(),
        old(l).nrows() == old(l).ncols(),
        k + kb <= old(l).nrows(),
        holds(*old(l), g),
    ensures
        final(l).wf(),
        final(l).same_shape(old(l)),
        ok == block_pivots_ok(g, k as int, (k + kb) as int, kb as nat),
        ok ==> holds(*final(l), block_steps(g, k as int, (k + kb) as int, kb as nat)),
{
    let n = l.rows();
    let hi = k + kb;
    let mut s: usize = 0;
    while s < kb
        invariant
            s <= kb,
            hi == k + kb,
            hi <= n,
            n == l.nrows(),
            n == l.ncols(),
            l.wf(),
            l.same_shape(old(l)),
            block_pivots_ok(g, k as int, hi as int, s as nat),
            holds(*l, block_steps(g, k as int, hi as int, s as nat)),
        decreases kb - s,
    {
        let j = k + s;
        let ghost b = block_steps(g, k as int, hi as int, s as nat);
        let ghost next = block_steps(g, k as int, hi as int, (s + 1) as nat);
        assert(next == chol_step_in(b, j as int, hi as int));
        assert(l.in_bounds(j as int, j as int));
        let diag_val = l.entry(j, j);
        if diag_val.real_part().is_le(T::zero()) {
            proof {
                assert(!block_pivots_ok(g, k as int, hi as int, (s + 1) as nat));
                if block_pivots_ok(g, k as int, hi as int, kb as nat) {
                    lemma_block_pivots_prefix(g, k as int, hi as int, (s + 1) as nat, kb as nat);
                }
            }
            return false;
        }
        let l_jj = diag_val.sqrt();
        let ghost before = *l;
        l.set(j, j, l_jj);
        let inv_jj = T::from_usize(1).over(l_jj);
        proof {
            assert forall|r: int, c: int| #[trigger] l.in_bounds(r, c) implies l.at(r, c) == if c == j && j <= r
                < j + 1 {
                next(r, c)
            } else {
                b(r, c)
            } by {
                assert(before.in_bounds(r, c));
            }
        }
        let mut i = j + 1;
        while i < hi
            invariant
                j < i <= hi,
                hi <= n,
                n == l.nrows(),
                n == l.ncols(),
                l.wf(),
                next == chol_step_in(b, j as int, hi as int),
                inv_jj == T::spec_from_usize(1).spec_over(b(j as int, j as int).spec_sqrt()),
                forall|r: int, c: int| #[trigger]
                    l.in_bounds(r, c) ==> l.at(r, c) == if c == j && j <= r < i {
                        next(r, c)
                    } else {
                        b(r, c)
                    },
            decreases hi - i,
        {
            let ghost before = *l;
            assert(l.in_bounds(i as int, j as int));
            let v = l.entry(i, j);
            l.set(i, j, v.times(inv_jj));
            proof {
                assert forall|r: int, c: int| #[trigger] l.in_bounds(r, c) implies l.at(r, c) == if c == j && j
                    <= r < i + 1 {
                    next(r, c)
                } else {
                    b(r, c)
                } by {
                    assert(before.in_bounds(r, c));
                }
            }
            i = i + 1;
        }
        let mut c0 = j + 1;
        while c0 < hi
            invariant
                j < c0 <= hi,
                hi <= n,
                n == l.nrows(),
                n == l.ncols(),
                l.wf(),
                next == chol_step_in(b, j as int, hi as int),
                forall|r: int, c: int| #[trigger]
                    l.in_bounds(r, c) ==> l.at(r, c) == if (c == j && j <= r < hi) || (j < c < c0) {
                        next(r, c)
                    } else {
                        b(r, c)
                    },
            decreases hi - c0,
        {
            assert(l.in_bounds(c0 as int, j as int));
            let scale = l.entry(c0, j).conj();
            let mut i = c0;
            while i < hi
                invariant
                    j < c0 <= i <= hi,
                    c0 < hi,
                    hi <= n,
                    n == l.nrows(),
                    n == l.ncols(),
                    l.wf(),
                    next == chol_step_in(b, j as int, hi as int),
                    scale == next(c0 as int, j as int).spec_conj(),
                    forall|r: int, c: int| #[trigger]
                        l.in_bounds(r, c) ==> l.at(r, c) == if (c == j && j <= r < hi) || (j < c < c0) || (c == c0
                            && r < i) {
                            next(r, c)
                        } else {
                            b(r, c)
                        },
                decreases hi - i,
            {
                let ghost before = *l;
                assert(l.in_bounds(i as int, c0 as int));
                assert(l.in_bounds(i as int, j as int));
                let x = l.entry(i, c0);
                let y = l.entry(i, j);
                l.set(i, c0, x.minus(y.times(scale)));
                proof {
                    assert forall|r: int, c: int| #[trigger] l.in_bounds(r, c) implies l.at(r, c) == if (c == j
                        && j <= r < hi) || (j < c < c0) || (c == c0 && r < i + 1) {
                        next(r, c)
                    } else {
                        b(r, c)
                    } by {
                        assert(before.in_bounds(r, c));
                    }
                }
                i = i + 1;
            }
            c0 = c0 + 1;
        }
        proof {
            assert forall|r: int, c: int| #[trigger] l.in_bounds(r, c) implies l.at(r, c) == next(r, c) by {}
        }
        s = s + 1;
    }
    true
}

/// The panel solve changes only the panel rows `hi .. n` of the columns
/// already processed, and a processed column keeps the value it got.
pub proof fn lemma_panel_solve_entry<T: Scalar>(b: spec_fn(int, int) -> T, k: int, hi: int, n: int, j: nat, r: int, c: int)
    ensures
        !(hi <= r < n && k <= c < k + j) ==> panel_solve(b, k, hi, n, j)(r, c) == b(r, c),
        hi <= r < n && k <= c < k + j ==> panel_solve(b, k, hi, n, j)(r, c) == panel_solve(
            b,
            k,
            hi,
            n,
            (c - k + 1) as nat,
        )(r, c),
    decreases j,
{
    if j > 0 {
        lemma_panel_solve_entry(b, k, hi, n, (j - 1) as nat, r, c);
    }
}

/// Solves the panel rows `k + kb .. n` against the transpose of the
/// factored diagonal block `k .. k + kb` (see `panel_solve`).
pub(crate) fn solve_panel<T: Scalar>(l: &mut Matrix<T>, k: usize, kb: usize, Ghost(g): Ghost<spec_fn(int, int) -> T>)
    requires
        old(l).wf(),
        old(l).nrows() == old(l).ncols(),
        k + kb <= old(l).nrows(),
        holds(*old(l), g),
    ensures
        final(l).wf(),
        final(l).same_shape(old(l)),
        holds(*final(l), panel_solve(g, k as int, (k + kb) as int, old(l).nrows() as int, kb as nat)),
{
    let n = l.rows();
    let hi = k + kb;
    let ghost fin = panel_solve(g, k as int, hi as int, n as int, kb as nat);
    let mut i = hi;
    while i < n
        invariant
            hi <= i <= n,
            hi == k + kb,
            n == l.nrows(),
            n == l.ncols(),
            l.wf(),
            l.same_shape(old(l)),
            fin == panel_solve(g, k as int, hi as int, n as int, kb as nat),
            forall|r: int, c: int| #[trigger]
                l.in_bounds(r, c) ==> l.at(r, c) == if hi <= r < i && k <= c < hi {
                    fin(r, c)
                } else {
                    g(r, c)
                },
        decreases n - i,
    {
        let mut jj: usize = 0;
        while jj < kb
            invariant
                jj <= kb,
                hi <= i < n,
                hi == k + kb,
                n == l.nrows(),
                n == l.ncols(),
                l.wf(),
                l.same_shape(old(l)),
                fin == panel_solve(g, k as int, hi as int, n as int, kb as nat),
                forall|r: int, c: int| #[trigger]
                    l.in_bounds(r, c) ==> l.at(r, c) == if (hi <= r < i && k <= c < hi) || (r == i && k <= c < k + jj) {
                        fin(r, c)
                    } else {
                        g(r, c)
                    },
            decreases kb - jj,
        {
            let c = k + jj;
            let ghost pj = panel_solve(g, k as int, hi as int, n as int, jj as nat);
            assert(l.in_bounds(i as int, c as int));
            let mut val = l.entry(i, c);
            proof {
                lemma_panel_solve_entry(g, k as int, hi as int, n as int, jj as nat, i as int, c as int);
            }
            let mut ll: usize = 0;
            while ll < jj
                invariant
                    ll <= jj < kb,
                    c == k + jj,
                    hi <= i < n,
                    hi == k + kb,
                    n == l.nrows(),
                    n == l.ncols(),
                    l.wf(),
                    fin == panel_solve(g, k as int, hi as int, n as int, kb as nat),
                    pj == panel_solve(g, k as int, hi as int, n as int, jj as nat),
                    forall|r: int, cc: int| #[trigger]
                        l.in_bounds(r, cc) ==> l.at(r, cc) == if (hi <= r < i && k <= cc < hi) || (r == i && k <= cc
                            < k + jj) {
                            fin(r, cc)
                        } else {
                            g(r, cc)
                        },
                    val == panel_sub(pj, i as int, k as int, c as int, ll as int),
                decreases jj - ll,
            {
                let cl = k + ll;
                assert(l.in_bounds(i as int, cl as int) && l.in_bounds(c as int, cl as int));
                proof {
                    lemma_panel_solve_entry(g, k as int, hi as int, n as int, jj as nat, i as int, cl as int);
                    lemma_panel_solve_entry(g, k as int, hi as int, n as int, kb as nat, i as int, cl as int);
                    lemma_panel_solve_entry(g, k as int, hi as int, n as int, jj as nat, c as int, cl as int);
                }
                val = val.minus(l.entry(i, cl).times(l.entry(c, cl).conj()));
                ll = ll + 1;
            }
            assert(l.in_bounds(c as int, c as int));
            proof {
                lemma_panel_solve_entry(g, k as int, hi as int, n as int, jj as nat, c as int, c as int);
                lemma_panel_solve_entry(g, k as int, hi as int, n as int, kb as nat, i as int, c as int);
                lemma_panel_solve_entry(g, k as int, hi as int, n as int, (jj + 1) as nat, i as int, c as int);
            }
            let d = l.entry(c, c);
            let ghost before = *l;
            l.set(i, c, val.over(d));
            proof {
                assert forall|r: int, cc: int| #[trigger] l.in_bounds(r, cc) implies l.at(r, cc) == if (hi <= r < i
                    && k <= cc < hi) || (r == i && k <= cc < k + jj + 1) {
                    fin(r, cc)
                } else {
                    g(r, cc)
                } by {
                    assert(before.in_bounds(r, cc));
                }
            }
            jj = jj + 1;
        }
        i = i + 1;
    }
    proof {
        assert forall|r: int, c: int| #[trigger] l.in_bounds(r, c) implies l.at(r, c) == fin(r, c) by {
            lemma_panel_solve_entry(g, k as int, hi as int, n as int, kb as nat, r, c);
        }
    }
}

/// Updates the trailing lower triangle by the panel (see
/// `trailing_update`).
pub(crate) fn update_trailing<T: Scalar>(l: &mut Matrix<T>, k: usize, kb: usize, Ghost(g): Ghost<spec_fn(int, int) -> T>)
    requires
        old(l).wf(),
        old(l).nrows() == old(l).ncols(),
        k + kb <= old(l).nrows(),
        holds(*old(l), g),
    ensures
        final(l).wf(),
        final(l).same_shape(old(l)),
        holds(*final(l), trailing_update(g, k as int, kb as int, (k + kb) as int, old(l).nrows() as int)),
{
    let n = l.rows();
    let hi = k + kb;
    let ghost fin = trailing_update(g, k as int, kb as int, hi as int, n as int);
    let mut i = hi;
    while i < n
        invariant
            hi <= i <= n,
            hi == k + kb,
            n == l.nrows(),
            n == l.ncols(),
            l.wf(),
            l.same_shape(old(l)),
            fin == trailing_update(g, k as int, kb as int, hi as int, n as int),
            forall|r: int, c: int| #[trigger]
                l.in_bounds(r, c) ==> l.at(r, c) == if r < i {
                    fin(r, c)
                } else {
                    g(r, c)
                },
        decreases n - i,
    {
        let mut j = hi;
        while j <= i
            invariant
                hi <= j <= i + 1,
                hi <= i < n,
                hi == k + kb,
                n == l.nrows(),
                n == l.ncols(),
                l.wf(),
                l.same_shape(old(l)),
                fin == trailing_update(g, k as int, kb as int, hi as int, n as int),
                forall|r: int, c: int| #[trigger]
                    l.in_bounds(r, c) ==> l.at(r, c) == if r < i || (r == i && hi <= c < j) {
                        fin(r, c)
                    } else {
                        g(r, c)
                    },
            decreases i + 1 - j,
        {
            let mut sum = T::from_usize(0);
            let mut ll: usize = 0;
            while ll < kb
                invariant
                    ll <= kb,
                    hi <= j <= i < n,
                    hi == k + kb,
                    n == l.nrows(),
                    n == l.ncols(),
                    l.wf(),
                    forall|r: int, c: int| #[trigger]
                        l.in_bounds(r, c) ==> l.at(r, c) == if r < i || (r == i && hi <= c < j) {
                            fin(r, c)
                        } else {
                            g(r, c)
                        },
                    fin == trailing_update(g, k as int, kb as int, hi as int, n as int),
                    sum == panel_dot(g, i as int, j as int, k as int, ll as int),
                decreases kb - ll,
            {
                let cl = k + ll;
                assert(l.in_bounds(i as int, cl as int) && l.in_bounds(j as int, cl as int));
                sum = sum.plus(l.entry(i, cl).times(l.entry(j, cl).conj()));
                ll = ll + 1;
            }
            assert(l.in_bounds(i as int, j as int));
            let x = l.entry(i, j);
            let ghost before = *l;
            l.set(i, j, x.minus(sum));
            proof {
                assert forall|r: int, c: int| #[trigger] l.in_bounds(r, c) implies l.at(r, c) == if r < i || (r == i
                    && hi <= c < j + 1) {
                    fin(r, c)
                } else {
                    g(r, c)
                } by {
                    assert(before.in_bounds(r, c));
                }
            }
            j = j + 1;
        }
        i = i + 1;
    }
}

/// The blocked factorization of the square matrix `l` in place, blocks of
/// 32 (see `blocked_state`); returns whether every block succeeded, and
/// then sets the entries above the diagonal to the image of `0`.
pub(crate) fn factor_blocked<T: Scalar>(l: &mut Matrix<T>, Ghost(a): Ghost<spec_fn(int, int) -> T>) -> (ok: bool)
    requires
        old(l).wf(),
        old(l).nrows() == old(l).ncols(),
        holds(*old(l), a),
    ensures
        final(l).wf(),
        final(l).same_shape(old(l)),
        ok == blocked_ok(a, old(l).nrows() as int, block_count(old(l).nrows())),
        ok ==> holds(*final(l), blocked_factor(a, old(l).nrows())),
{
    let n = l.rows();
    let ghost nb = block_count(n as nat);
    let ghost mut g = a;
    let mut k: usize = 0;
    let ghost mut q: nat = 0;
    while k < n
        invariant
            k == 32 * q || (k == n && q == nb),
            k <= n,
            q <= nb,
            nb == block_count(n as nat),
            n == l.nrows(),
            n == l.ncols(),
            l.wf(),
            l.same_shape(old(l)),
            blocked_ok(a, n as int, q),
            g == blocked_state(a, n as int, q),
            holds(*l, g),
            k < n ==> q < nb,
            k >= n ==> q == nb,
        decreases n - k,
    {
        let kb: usize = if n - k < 32 {
            n - k
        } else {
            32
        };
        assert(kb == block_width(n as int, q as int));
        let ok = factor_block(l, k, kb, Ghost(g));
        if !ok {
            proof {
                assert(!blocked_ok(a, n as int, q + 1));
                if blocked_ok(a, n as int, nb) {
                    lemma_blocked_ok_prefix(a, n as int, q + 1, nb);
                }
            }
            return false;
        }
        let ghost f = block_steps(g, k as int, (k + kb) as int, kb as nat);
        solve_panel(l, k, kb, Ghost(f));
        let ghost p = panel_solve(f, k as int, (k + kb) as int, n as int, kb as nat);
        update_trailing(l, k, kb, Ghost(p));
        proof {
            g = trailing_update(p, k as int, kb as int, (k + kb) as int, n as int);
            q = q + 1;
            vstd::arithmetic::div_mod::lemma_fundamental_div_mod(n + 31, 32);
            vstd::arithmetic::div_mod::lemma_mod_bound(n + 31, 32);
        }
        k = k + kb;
    }
    let ghost s = blocked_state(a, n as int, nb);
    let ghost fin = blocked_factor(a, n as nat);
    let mut c: usize = 0;
    while c < n
        invariant
            c <= n,
            n == l.nrows(),
            n == l.ncols(),
            l.wf(),
            l.same_shape(old(l)),
            nb == block_count(n as nat),
            s == blocked_state(a, n as int, nb),
            fin == blocked_factor(a, n as nat),
            forall|r: int, cc: int| #[trigger]
                l.in_bounds(r, cc) ==> l.at(r, cc) == if cc < c {
                    fin(r, cc)
                } else {
                    s(r, cc)
                },
        decreases n - c,
    {
        let mut i: usize = 0;
        while i < c
            invariant
                c < n,
                i <= c,
                n == l.nrows(),
                n == l.ncols(),
                l.wf(),
                l.same_shape(old(l)),
                nb == block_count(n as nat),
                s == blocked_state(a, n as int, nb),
                fin == blocked_factor(a, n as nat),
                forall|r: int, cc: int| #[trigger]
                    l.in_bounds(r, cc) ==> l.at(r, cc) == if cc < c || (cc == c && r < i) {
                        fin(r, cc)
                    } else {
                        s(r, cc)
                    },
            decreases c - i,
        {
            let ghost before = *l;
            l.set(i, c, T::from_usize(0));
            proof {
                assert forall|r: int, cc: int| #[trigger] l.in_bounds(r, cc) implies l.at(r, cc) == if cc < c || (cc
                    == c && r < i + 1) {
                    fin(r, cc)
                } else {
                    s(r, cc)
                } by {
                    assert(before.in_bounds(r, cc));
                }
            }
            i = i + 1;
        }
        c = c + 1;
    }
    true
}

/// `l(i, 0) x(0, j) + ... + l(i, p - 1) x(p - 1, j)` accumulated from zero.
pub open spec fn lower_dot<T: Scalar>(l: spec_fn(int, int) -> T, x: spec_fn(int, int) -> T, i: int, j: int, p: int) -> T
    decreases p,
{
    if p <= 0 {
        T::spec_zero()
    } else {
        lower_dot(l, x, i, j, p - 1).spec_plus(l(i, p - 1).spec_times(x(p - 1, j)))
    }
}

/// `x(r, j) - l(r, k) x(k, j) - ... - l(r, k + p - 1) x(k + p - 1, j)`,
/// subtracted in this order.
pub open spec fn lower_block_sub<T: Scalar>(l: spec_fn(int, int) -> T, x: spec_fn(int, int) -> T, r: int, j: int, k: int, p: int) -> T
    decreases p,
{
    if p <= 0 {
        x(r, j)
    } else {
        lower_block_sub(l, x, r, j, k, p - 1).spec_minus(l(r, k + p - 1).spec_times(x(k + p - 1, j)))
    }
}

/// The forward substitution of the rows `k .. k + t` of the diagonal block
/// at `k`: row `r` becomes `lower_block_sub(.., r - k)` times `1 / l(r, r)`.
pub open spec fn lower_block_solve<T: Scalar>(l: spec_fn(int, int) -> T, x: spec_fn(int, int) -> T, k: int, t: nat) -> spec_fn(
    int,
    int,
) -> T
    decreases t,
{
    if t == 0 {
        x
    } else {
        let prev = lower_block_solve(l, x, k, (t - 1) as nat);
        let r = k + t - 1;
        |i: int, j: int|
            if i == r {
                lower_block_sub(l, prev, r, j, k, t - 1).spec_times(T::spec_from_usize(1).spec_over(l(r, r)))
            } else {
                prev(i, j)
            }
    }
}

/// The rows `k .. k + kb` of `x` minus `L(row, 0 .. k) X(0 .. k, :)`
/// (nothing is subtracted for the first block, `k = 0`).
pub open spec fn lower_gemm<T: Scalar>(l: spec_fn(int, int) -> T, x: spec_fn(int, int) -> T, k: int, kb: int) -> spec_fn(
    int,
    int,
) -> T {
    |i: int, j: int|
        if k > 0 && k <= i < k + kb {
            x(i, j).spec_minus(lower_dot(l, x, i, j, k))
        } else {
            x(i, j)
        }
}

/// The rows `s .. e` of `x` minus `L(e .. n, row)^* X(e .. n, :)`
/// (nothing is subtracted for the last block, `e = n`).
pub open spec fn upper_gemm<T: Scalar>(l: spec_fn(int, int) -> T, x: spec_fn(int, int) -> T, s: int, e: int, n: int) -> spec_fn(
    int,
    int,
) -> T {
    |i: int, j: int|
        if e < n && s <= i < e {
            x(i, j).spec_minus(upper_dot(l, x, i, j, e, n))
        } else {
            x(i, j)
        }
}

/// The in-place solution of `L X = B` after the first `q` blocks of 32
/// rows: each block first loses `L(block, 0 .. k) X(0 .. k, :)` (a product
/// accumulated from zero), then is solved with its diagonal block.
pub open spec fn lower_solve_state<T: Scalar>(l: spec_fn(int, int) -> T, b: spec_fn(int, int) -> T, n: int, q: nat) -> spec_fn(
    int,
    int,
) -> T
    decreases q,
{
    if q == 0 {
        b
    } else {
        let prev = lower_solve_state(l, b, n, (q - 1) as nat);
        let k = 32 * (q - 1);
        let kb = block_width(n, q - 1);
        lower_block_solve(l, lower_gemm(l, prev, k, kb), k, kb as nat)
    }
}

/// `conj(l(e, i)) x(e, j) + ... + conj(l(m - 1, i)) x(m - 1, j)`
/// accumulated from zero.
pub open spec fn upper_dot<T: Scalar>(l: spec_fn(int, int) -> T, x: spec_fn(int, int) -> T, i: int, j: int, e: int, m: int) -> T
    decreases m - e,
{
    if m <= e {
        T::spec_zero()
    } else {
        upper_dot(l, x, i, j, e, m - 1).spec_plus(l(m - 1, i).spec_conj().spec_times(x(m - 1, j)))
    }
}

/// `x(r, j) - conj(l(r + 1, r)) x(r + 1, j) - ... - conj(l(e - 1, r)) x(e - 1, j)`,
/// subtracted in this order.
pub open spec fn upper_block_sub<T: Scalar>(l: spec_fn(int, int) -> T, x: spec_fn(int, int) -> T, r: int, j: int, e: int) -> T
    decreases e - r,
{
    if e <= r + 1 {
        x(r, j)
    } else {
        upper_block_sub(l, x, r, j, e - 1).spec_minus(l(e - 1, r).spec_conj().spec_times(x(e - 1, j)))
    }
}

/// The backward substitution of the last `t` rows of the diagonal block
/// `s .. e`: row `r = e - t` becomes `upper_block_sub(.., e)` times
/// `1 / l(r, r)`.
pub open spec fn upper_block_solve<T: Scalar>(l: spec_fn(int, int) -> T, x: spec_fn(int, int) -> T, e: int, t: nat) -> spec_fn(
    int,
    int,
) -> T
    decreases t,
{
    if t == 0 {
        x
    } else {
        let prev = upper_block_solve(l, x, e, (t - 1) as nat);
        let r = e - t;
        |i: int, j: int|
            if i == r {
                upper_block_sub(l, prev, r, j, e).spec_times(T::spec_from_usize(1).spec_over(l(r, r)))
            } else {
                prev(i, j)
            }
    }
}

/// The end of block `q` of the backward solve (blocks of 32 rows taken
/// from the bottom).
pub open spec fn back_block_end(n: int, q: int) -> int {
    if n - 32 * q > 0 {
        n - 32 * q
    } else {
        0
    }
}

/// The height of block `q` of the backward solve.
pub open spec fn back_block_height(n: int, q: int) -> int {
    if back_block_end(n, q) >= 32 {
        32
    } else {
        back_block_end(n, q)
    }
}

/// The in-place solution of `L^* X = B` after the first `q` blocks from
/// the bottom: each block first loses `L(below, block)^* X(below, :)` (a
/// product accumulated from zero), then is solved with its diagonal block.
pub open spec fn upper_solve_state<T: Scalar>(l: spec_fn(int, int) -> T, b: spec_fn(int, int) -> T, n: int, q: nat) -> spec_fn(
    int,
    int,
) -> T
    decreases q,
{
    if q == 0 {
        b
    } else {
        let prev = upper_solve_state(l, b, n, (q - 1) as nat);
        let e = back_block_end(n, q - 1);
        let kb = back_block_height(n, q - 1);
        let s = e - kb;
        upper_block_solve(l, upper_gemm(l, prev, e - kb, e, n), e, kb as nat)
    }
}

/// `x(row, :) -= L(row, 0 .. k) X(0 .. k, :)` for the rows `k .. k + kb`
/// (see `lower_gemm`).
pub(crate) fn apply_lower_gemm<T: Scalar>(
    x: &mut Matrix<T>,
    l: &Matrix<T>,
    k: usize,
    kb: usize,
    Ghost(gx): Ghost<spec_fn(int, int) -> T>,
    Ghost(gl): Ghost<spec_fn(int, int) -> T>,
)
    requires
        old(x).wf(),
        l.wf(),
        l.nrows() == l.ncols(),
        old(x).nrows() == l.nrows(),
        0 < k,
        k + kb <= l.nrows(),
        holds(*old(x), gx),
        holds(*l, gl),
    ensures
        final(x).wf(),
        final(x).same_shape(old(x)),
        holds(*final(x), lower_gemm(gl, gx, k as int, kb as int)),
{
    let n = l.rows();
    let cols = x.cols();
    let ghost fin = lower_gemm(gl, gx, k as int, kb as int);
    let mut i: usize = 0;
    while i < kb
        invariant
            i <= kb,
            0 < k,
            k + kb <= n,
            n == l.nrows(),
            n == l.ncols(),
            n == x.nrows(),
            cols == x.ncols(),
            l.wf(),
            x.wf(),
            x.same_shape(old(x)),
            holds(*l, gl),
            fin == lower_gemm(gl, gx, k as int, kb as int),
            forall|r: int, c: int| #[trigger]
                x.in_bounds(r, c) ==> x.at(r, c) == if k <= r < k + i {
                    fin(r, c)
                } else {
                    gx(r, c)
                },
        decreases kb - i,
    {
        let r = k + i;
        let mut j: usize = 0;
        while j < cols
            invariant
                j <= cols,
                i < kb,
                r == k + i,
                0 < k,
                k + kb <= n,
                n == l.nrows(),
                n == l.ncols(),
                n == x.nrows(),
                cols == x.ncols(),
                l.wf(),
                x.wf(),
                x.same_shape(old(x)),
                holds(*l, gl),
                fin == lower_gemm(gl, gx, k as int, kb as int),
                forall|rr: int, c: int| #[trigger]
                    x.in_bounds(rr, c) ==> x.at(rr, c) == if k <= rr < k + i || (rr == r && c < j) {
                        fin(rr, c)
                    } else {
                        gx(rr, c)
                    },
            decreases cols - j,
        {
            let mut sum = T::zero();
            let mut p: usize = 0;
            while p < k
                invariant
                    p <= k,
                    j < cols,
                    i < kb,
                    r == k + i,
                    k + kb <= n,
                    n == l.nrows(),
                    n == l.ncols(),
                    n == x.nrows(),
                    cols == x.ncols(),
                    l.wf(),
                    x.wf(),
                    holds(*l, gl),
                    forall|rr: int, c: int| #[trigger]
                        x.in_bounds(rr, c) ==> x.at(rr, c) == if k <= rr < k + i || (rr == r && c < j) {
                            fin(rr, c)
                        } else {
                            gx(rr, c)
                        },
                    sum == lower_dot(gl, gx, r as int, j as int, p as int),
                decreases k - p,
            {
                assert(l.in_bounds(r as int, p as int) && x.in_bounds(p as int, j as int));
                sum = sum.plus(l.entry(r, p).times(x.entry(p, j)));
                p = p + 1;
            }
            assert(x.in_bounds(r as int, j as int));
            let v = x.entry(r, j);
            let ghost before = *x;
            x.set(r, j, v.minus(sum));
            proof {
                assert forall|rr: int, c: int| #[trigger] x.in_bounds(rr, c) implies x.at(rr, c) == if k <= rr < k
                    + i || (rr == r && c < j + 1) {
                    fin(rr, c)
                } else {
                    gx(rr, c)
                } by {
                    assert(before.in_bounds(rr, c));
                }
            }
            j = j + 1;
        }
        i = i + 1;
    }
    proof {
        assert forall|r: int, c: int| #[trigger] x.in_bounds(r, c) implies x.at(r, c) == fin(r, c) by {}
    }
}

/// Solves the rows `k .. k + kb` with the diagonal block of `L` (see
/// `lower_block_solve`).
pub(crate) fn apply_lower_block<T: Scalar>(
    x: &mut Matrix<T>,
    l: &Matrix<T>,
    k: usize,
    kb: usize,
    Ghost(gx): Ghost<spec_fn(int, int) -> T>,
    Ghost(gl): Ghost<spec_fn(int, int) -> T>,
)
    requires
        old(x).wf(),
        l.wf(),
        l.nrows() == l.ncols(),
        old(x).nrows() == l.nrows(),
        k + kb <= l.nrows(),
        holds(*old(x), gx),
        holds(*l, gl),
    ensures
        final(x).wf(),
        final(x).same_shape(old(x)),
        holds(*final(x), lower_block_solve(gl, gx, k as int, kb as nat)),
{
    let n = l.rows();
    let cols = x.cols();
    let ghost mut g = gx;
    let mut i: usize = 0;
    while i < kb
        invariant
            i <= kb,
            k + kb <= n,
            n == l.nrows(),
            n == l.ncols(),
            n == x.nrows(),
            cols == x.ncols(),
            l.wf(),
            x.wf(),
            x.same_shape(old(x)),
            holds(*l, gl),
            holds(*x, g),
            g == lower_block_solve(gl, gx, k as int, i as nat),
        decreases kb - i,
    {
        let r = k + i;
        assert(l.in_bounds(r as int, r as int));
        let inv = T::from_usize(1).over(l.entry(r, r));
        let ghost next = lower_block_solve(gl, gx, k as int, (i + 1) as nat);
        let mut j: usize = 0;
        while j < cols
            invariant
                j <= cols,
                i < kb,
                r == k + i,
                k + kb <= n,
                n == l.nrows(),
                n == l.ncols(),
                n == x.nrows(),
                cols == x.ncols(),
                l.wf(),
                x.wf(),
                x.same_shape(old(x)),
                holds(*l, gl),
                g == lower_block_solve(gl, gx, k as int, i as nat),
                next == lower_block_solve(gl, gx, k as int, (i + 1) as nat),
                inv == T::spec_from_usize(1).spec_over(gl(r as int, r as int)),
                forall|rr: int, c: int| #[trigger]
                    x.in_bounds(rr, c) ==> x.at(rr, c) == if rr == r && c < j {
                        next(rr, c)
                    } else {
                        g(rr, c)
                    },
            decreases cols - j,
        {
            assert(x.in_bounds(r as int, j as int));
            let mut val = x.entry(r, j);
            let mut p: usize = 0;
            while p < i
                invariant
                    p <= i < kb,
                    j < cols,
                    r == k + i,
                    k + kb <= n,
                    n == l.nrows(),
                    n == l.ncols(),
                    n == x.nrows(),
                    cols == x.ncols(),
                    l.wf(),
                    x.wf(),
                    holds(*l, gl),
                    forall|rr: int, c: int| #[trigger]
                        x.in_bounds(rr, c) ==> x.at(rr, c) == if rr == r && c < j {
                            next(rr, c)
                        } else {
                            g(rr, c)
                        },
                    val == lower_block_sub(gl, g, r as int, j as int, k as int, p as int),
                decreases i - p,
            {
                assert(l.in_bounds(r as int, (k + p) as int) && x.in_bounds((k + p) as int, j as int));
                val = val.minus(l.entry(r, k + p).times(x.entry(k + p, j)));
                p = p + 1;
            }
            let ghost before = *x;
            x.set(r, j, val.times(inv));
            proof {
                assert forall|rr: int, c: int| #[trigger] x.in_bounds(rr, c) implies x.at(rr, c) == if rr == r && c
                    < j + 1 {
                    next(rr, c)
                } else {
                    g(rr, c)
                } by {
                    assert(before.in_bounds(rr, c));
                }
            }
            j = j + 1;
        }
        proof {
            g = next;
        }
        i = i + 1;
    }
}

/// `x(row, :) -= L(e .. n, row)^* X(e .. n, :)` for the rows `s .. e`
/// (see `upper_gemm`).
pub(crate) fn apply_upper_gemm<T: Scalar>(
    x: &mut Matrix<T>,
    l: &Matrix<T>,
    s: usize,
    e: usize,
    Ghost(gx): Ghost<spec_fn(int, int) -> T>,
    Ghost(gl): Ghost<spec_fn(int, int) -> T>,
)
    requires
        old(x).wf(),
        l.wf(),
        l.nrows() == l.ncols(),
        old(x).nrows() == l.nrows(),
        s <= e < l.nrows(),
        holds(*old(x), gx),
        holds(*l, gl),
    ensures
        final(x).wf(),
        final(x).same_shape(old(x)),
        holds(*final(x), upper_gemm(gl, gx, s as int, e as int, l.nrows() as int)),
{
    let n = l.rows();
    let cols = x.cols();
    let ghost fin = upper_gemm(gl, gx, s as int, e as int, n as int);
    let mut r = s;
    while r < e
        invariant
            s <= r <= e,
            e < n,
            n == l.nrows(),
            n == l.ncols(),
            n == x.nrows(),
            cols == x.ncols(),
            l.wf(),
            x.wf(),
            x.same_shape(old(x)),
            holds(*l, gl),
            fin == upper_gemm(gl, gx, s as int, e as int, n as int),
            forall|rr: int, c: int| #[trigger]
                x.in_bounds(rr, c) ==> x.at(rr, c) == if s <= rr < r {
                    fin(rr, c)
                } else {
                    gx(rr, c)
                },
        decreases e - r,
    {
        let mut j: usize = 0;
        while j < cols
            invariant
                j <= cols,
                s <= r < e,
                e < n,
                n == l.nrows(),
                n == l.ncols(),
                n == x.nrows(),
                cols == x.ncols(),
                l.wf(),
                x.wf(),
                x.same_shape(old(x)),
                holds(*l, gl),
                fin == upper_gemm(gl, gx, s as int, e as int, n as int),
                forall|rr: int, c: int| #[trigger]
                    x.in_bounds(rr, c) ==> x.at(rr, c) == if s <= rr < r || (rr == r && c < j) {
                        fin(rr, c)
                    } else {
                        gx(rr, c)
                    },
            decreases cols - j,
        {
            let mut sum = T::zero();
            let mut p = e;
            while p < n
                invariant
                    e <= p <= n,
                    j < cols,
                    s <= r < e,
                    n == l.nrows(),
                    n == l.ncols(),
                    n == x.nrows(),
                    cols == x.ncols(),
                    l.wf(),
                    x.wf(),
                    holds(*l, gl),
                    forall|rr: int, c: int| #[trigger]
                        x.in_bounds(rr, c) ==> x.at(rr, c) == if s <= rr < r || (rr == r && c < j) {
                            fin(rr, c)
                        } else {
                            gx(rr, c)
                        },
                    sum == upper_dot(gl, gx, r as int, j as int, e as int, p as int),
                decreases n - p,
            {
                assert(l.in_bounds(p as int, r as int) && x.in_bounds(p as int, j as int));
                sum = sum.plus(l.entry(p, r).conj().times(x.entry(p, j)));
                p = p + 1;
            }
            assert(x.in_bounds(r as int, j as int));
            let v = x.entry(r, j);
            let ghost before = *x;
            x.set(r, j, v.minus(sum));
            proof {
                assert forall|rr: int, c: int| #[trigger] x.in_bounds(rr, c) implies x.at(rr, c) == if s <= rr < r
                    || (rr == r && c < j + 1) {
                    fin(rr, c)
                } else {
                    gx(rr, c)
                } by {
                    assert(before.in_bounds(rr, c));
                }
            }
            j = j + 1;
        }
        r = r + 1;
    }
    proof {
        assert forall|rr: int, c: int| #[trigger] x.in_bounds(rr, c) implies x.at(rr, c) == fin(rr, c) by {}
    }
}

/// Solves the rows `e - kb .. e` with the transposed diagonal block of `L`,
/// from the bottom (see `upper_block_solve`).
pub(crate) fn apply_upper_block<T: Scalar>(
    x: &mut Matrix<T>,
    l: &Matrix<T>,
    e: usize,
    kb: usize,
    Ghost(gx): Ghost<spec_fn(int, int) -> T>,
    Ghost(gl): Ghost<spec_fn(int, int) -> T>,
)
    requires
        old(x).wf(),
        l.wf(),
        l.nrows() == l.ncols(),
        old(x).nrows() == l.nrows(),
        kb <= e <= l.nrows(),
        holds(*old(x), gx),
        holds(*l, gl),
    ensures
        final(x).wf(),
        final(x).same_shape(old(x)),
        holds(*final(x), upper_block_solve(gl, gx, e as int, kb as nat)),
{
    let n = l.rows();
    let cols = x.cols();
    let ghost mut g = gx;
    let mut t: usize = 0;
    while t < kb
        invariant
            t <= kb,
            kb <= e <= n,
            n == l.nrows(),
            n == l.ncols(),
            n == x.nrows(),
            cols == x.ncols(),
            l.wf(),
            x.wf(),
            x.same_shape(old(x)),
            holds(*l, gl),
            holds(*x, g),
            g == upper_block_solve(gl, gx, e as int, t as nat),
        decreases kb - t,
    {
        let r = e - 1 - t;
        assert(l.in_bounds(r as int, r as int));
        let inv = T::from_usize(1).over(l.entry(r, r));
        let ghost next = upper_block_solve(gl, gx, e as int, (t + 1) as nat);
        let mut j: usize = 0;
        while j < cols
            invariant
                j <= cols,
                t < kb,
                r == e - 1 - t,
                kb <= e <= n,
                n == l.nrows(),
                n == l.ncols(),
                n == x.nrows(),
                cols == x.ncols(),
                l.wf(),
                x.wf(),
                x.same_shape(old(x)),
                holds(*l, gl),
                g == upper_block_solve(gl, gx, e as int, t as nat),
                next == upper_block_solve(gl, gx, e as int, (t + 1) as nat),
                inv == T::spec_from_usize(1).spec_over(gl(r as int, r as int)),
                forall|rr: int, c: int| #[trigger]
                    x.in_bounds(rr, c) ==> x.at(rr, c) == if rr == r && c < j {
                        next(rr, c)
                    } else {
                        g(rr, c)
                    },
            decreases cols - j,
        {
            assert(x.in_bounds(r as int, j as int));
            let mut val = x.entry(r, j);
            let mut p = r + 1;
            while p < e
                invariant
                    r < p <= e,
                    j < cols,
                    t < kb,
                    r == e - 1 - t,
                    kb <= e <= n,
                    n == l.nrows(),
                    n == l.ncols(),
                    n == x.nrows(),
                    cols == x.ncols(),
                    l.wf(),
                    x.wf(),
                    holds(*l, gl),
                    forall|rr: int, c: int| #[trigger]
                        x.in_bounds(rr, c) ==> x.at(rr, c) == if rr == r && c < j {
                            next(rr, c)
                        } else {
                            g(rr, c)
                        },
                    val == upper_block_sub(gl, g, r as int, j as int, p as int),
                decreases e - p,
            {
                assert(l.in_bounds(p as int, r as int) && x.in_bounds(p as int, j as int));
                val = val.minus(l.entry(p, r).conj().times(x.entry(p, j)));
                p = p + 1;
            }
            let ghost before = *x;
            x.set(r, j, val.times(inv));
            proof {
                assert forall|rr: int, c: int| #[trigger] x.in_bounds(rr, c) implies x.at(rr, c) == if rr == r && c
                    < j + 1 {
                    next(rr, c)
                } else {
                    g(rr, c)
                } by {
                    assert(before.in_bounds(rr, c));
                }
            }
            j = j + 1;
        }
        proof {
            g = next;
        }
        t = t + 1;
    }
}


/// Two grids agree on the rows `0 .. r` and columns `0 .. c`.
pub open spec fn same_on<T>(g1: spec_fn(int, int) -> T, g2: spec_fn(int, int) -> T, r: int, c: int) -> bool {
    forall|i: int, j: int| 0 <= i < r && 0 <= j < c ==> #[trigger] g1(i, j) == g2(i, j)
}

proof fn lemma_lower_dot_same<T: Scalar>(
    l1: spec_fn(int, int) -> T,
    l2: spec_fn(int, int) -> T,
    x1: spec_fn(int, int) -> T,
    x2: spec_fn(int, int) -> T,
    n: int,
    m: int,
    i: int,
    j: int,
    p: int,
)
    requires
        same_on(l1, l2, n, n),
        same_on(x1, x2, n, m),
        0 <= i < n,
        0 <= j < m,
        p <= n,
    ensures
        lower_dot(l1, x1, i, j, p) == lower_dot(l2, x2, i, j, p),
    decreases p,
{
    if p > 0 {
        lemma_lower_dot_same(l1, l2, x1, x2, n, m, i, j, p - 1);
        assert(l1(i, p - 1) == l2(i, p - 1));
        assert(x1(p - 1, j) == x2(p - 1, j));
    }
}

proof fn lemma_lower_block_sub_same<T: Scalar>(
    l1: spec_fn(int, int) -> T,
    l2: spec_fn(int, int) -> T,
    x1: spec_fn(int, int) -> T,
    x2: spec_fn(int, int) -> T,
    n: int,
    m: int,
    r: int,
    j: int,
    k: int,
    p: int,
)
    requires
        same_on(l1, l2, n, n),
        same_on(x1, x2, n, m),
        0 <= r < n,
        0 <= j < m,
        0 <= k,
        k + p <= n,
    ensures
        lower_block_sub(l1, x1, r, j, k, p) == lower_block_sub(l2, x2, r, j, k, p),
    decreases p,
{
    if p > 0 {
        lemma_lower_block_sub_same(l1, l2, x1, x2, n, m, r, j, k, p - 1);
        assert(l1(r, k + p - 1) == l2(r, k + p - 1));
        assert(x1(k + p - 1, j) == x2(k + p - 1, j));
    } else {
        assert(x1(r, j) == x2(r, j));
    }
}

proof fn lemma_lower_block_solve_same<T: Scalar>(
    l1: spec_fn(int, int) -> T,
    l2: spec_fn(int, int) -> T,
    x1: spec_fn(int, int) -> T,
    x2: spec_fn(int, int) -> T,
    n: int,
    m: int,
    k: int,
    t: nat,
)
    requires
        same_on(l1, l2, n, n),
        same_on(x1, x2, n, m),
        0 <= k,
        k + t <= n,
    ensures
        same_on(lower_block_solve(l1, x1, k, t), lower_block_solve(l2, x2, k, t), n, m),
    decreases t,
{
    if t > 0 {
        let p1 = lower_block_solve(l1, x1, k, (t - 1) as nat);
        let p2 = lower_block_solve(l2, x2, k, (t - 1) as nat);
        lemma_lower_block_solve_same(l1, l2, x1, x2, n, m, k, (t - 1) as nat);
        let r = k + t - 1;
        assert forall|i: int, j: int| 0 <= i < n && 0 <= j < m implies #[trigger] lower_block_solve(l1, x1, k, t)(i, j)
            == lower_block_solve(l2, x2, k, t)(i, j) by {
            if i == r {
                lemma_lower_block_sub_same(l1, l2, p1, p2, n, m, r, j, k, t - 1);
                assert(l1(r, r) == l2(r, r));
            } else {
                assert(p1(i, j) == p2(i, j));
            }
        }
    }
}

proof fn lemma_lower_gemm_same<T: Scalar>(
    l1: spec_fn(int, int) -> T,
    l2: spec_fn(int, int) -> T,
    x1: spec_fn(int, int) -> T,
    x2: spec_fn(int, int) -> T,
    n: int,
    m: int,
    k: int,
    kb: int,
)
    requires
        same_on(l1, l2, n, n),
        same_on(x1, x2, n, m),
        0 <= k <= n,
    ensures
        same_on(lower_gemm(l1, x1, k, kb), lower_gemm(l2, x2, k, kb), n, m),
{
    assert forall|i: int, j: int| 0 <= i < n && 0 <= j < m implies #[trigger] lower_gemm(l1, x1, k, kb)(i, j)
        == lower_gemm(l2, x2, k, kb)(i, j) by {
        assert(x1(i, j) == x2(i, j));
        if k > 0 && k <= i < k + kb {
            lemma_lower_dot_same(l1, l2, x1, x2, n, m, i, j, k);
        }
    }
}

/// The blocked forward solve reads `L` only in its `n x n` square and the
/// right-hand side only in its first `n` rows: operands that agree there
/// give solutions that agree there, in every column.
pub proof fn lemma_lower_solve_same<T: Scalar>(
    l1: spec_fn(int, int) -> T,
    l2: spec_fn(int, int) -> T,
    b1: spec_fn(int, int) -> T,
    b2: spec_fn(int, int) -> T,
    n: int,
    m: int,
    q: nat,
)
    requires
        same_on(l1, l2, n, n),
        same_on(b1, b2, n, m),
        0 <= n,
        q <= block_count(n as nat),
    ensures
        same_on(lower_solve_state(l1, b1, n, q), lower_solve_state(l2, b2, n, q), n, m),
    decreases q,
{
    if q > 0 {
        lemma_lower_solve_same(l1, l2, b1, b2, n, m, (q - 1) as nat);
        let p1 = lower_solve_state(l1, b1, n, (q - 1) as nat);
        let p2 = lower_solve_state(l2, b2, n, (q - 1) as nat);
        let k = 32 * (q - 1);
        let kb = block_width(n, q - 1);
        assert(32 * (q - 1) < n) by (nonlinear_arith)
            requires
                q <= (n + 31) / 32,
                q > 0,
        ;
        lemma_lower_gemm_same(l1, l2, p1, p2, n, m, k, kb);
        lemma_lower_block_solve_same(l1, l2, lower_gemm(l1, p1, k, kb), lower_gemm(l2, p2, k, kb), n, m, k, kb as nat);
    }
}

proof fn lemma_upper_dot_same<T: Scalar>(
    l1: spec_fn(int, int) -> T,
    l2: spec_fn(int, int) -> T,
    x1: spec_fn(int, int) -> T,
    x2: spec_fn(int, int) -> T,
    n: int,
    m: int,
    i: int,
    j: int,
    e: int,
    hi: int,
)
    requires
        same_on(l1, l2, n, n),
        same_on(x1, x2, n, m),
        0 <= i < n,
        0 <= j < m,
        0 <= e,
        hi <= n,
    ensures
        upper_dot(l1, x1, i, j, e, hi) == upper_dot(l2, x2, i, j, e, hi),
    decreases hi - e,
{
    if hi > e {
        lemma_upper_dot_same(l1, l2, x1, x2, n, m, i, j, e, hi - 1);
        assert(l1(hi - 1, i) == l2(hi - 1, i));
        assert(x1(hi - 1, j) == x2(hi - 1, j));
    }
}

proof fn lemma_upper_block_sub_same<T: Scalar>(
    l1: spec_fn(int, int) -> T,
    l2: spec_fn(int, int) -> T,
    x1: spec_fn(int, int) -> T,
    x2: spec_fn(int, int) -> T,
    n: int,
    m: int,
    r: int,
    j: int,
    e: int,
)
    requires
        same_on(l1, l2, n, n),
        same_on(x1, x2, n, m),
        0 <= r < n,
        0 <= j < m,
        e <= n,
    ensures
        upper_block_sub(l1, x1, r, j, e) == upper_block_sub(l2, x2, r, j, e),
    decreases e - r,
{
    if e > r + 1 {
        lemma_upper_block_sub_same(l1, l2, x1, x2, n, m, r, j, e - 1);
        assert(l1(e - 1, r) == l2(e - 1, r));
        assert(x1(e - 1, j) == x2(e - 1, j));
    } else {
        assert(x1(r, j) == x2(r, j));
    }
}

proof fn lemma_upper_block_solve_same<T: Scalar>(
    l1: spec_fn(int, int) -> T,
    l2: spec_fn(int, int) -> T,
    x1: spec_fn(int, int) -> T,
    x2: spec_fn(int, int) -> T,
    n: int,
    m: int,
    e: int,
    t: nat,
)
    requires
        same_on(l1, l2, n, n),
        same_on(x1, x2, n, m),
        e <= n,
        0 <= e - t,
    ensures
        same_on(upper_block_solve(l1, x1, e, t), upper_block_solve(l2, x2, e, t), n, m),
    decreases t,
{
    if t > 0 {
        let p1 = upper_block_solve(l1, x1, e, (t - 1) as nat);
        let p2 = upper_block_solve(l2, x2, e, (t - 1) as nat);
        lemma_upper_block_solve_same(l1, l2, x1, x2, n, m, e, (t - 1) as nat);
        let r = e - t;
        assert forall|i: int, j: int| 0 <= i < n && 0 <= j < m implies #[trigger] upper_block_solve(l1, x1, e, t)(i, j)
            == upper_block_solve(l2, x2, e, t)(i, j) by {
            if i == r {
                lemma_upper_block_sub_same(l1, l2, p1, p2, n, m, r, j, e);
                assert(l1(r, r) == l2(r, r));
            } else {
                assert(p1(i, j) == p2(i, j));
            }
        }
    }
}

proof fn lemma_upper_gemm_same<T: Scalar>(
    l1: spec_fn(int, int) -> T,
    l2: spec_fn(int, int) -> T,
    x1: spec_fn(int, int) -> T,
    x2: spec_fn(int, int) -> T,
    n: int,
    m: int,
    s: int,
    e: int,
)
    requires
        same_on(l1, l2, n, n),
        same_on(x1, x2, n, m),
        0 <= e,
    ensures
        same_on(upper_gemm(l1, x1, s, e, n), upper_gemm(l2, x2, s, e, n), n, m),
{
    assert forall|i: int, j: int| 0 <= i < n && 0 <= j < m implies #[trigger] upper_gemm(l1, x1, s, e, n)(i, j)
        == upper_gemm(l2, x2, s, e, n)(i, j) by {
        assert(x1(i, j) == x2(i, j));
        if e < n && s <= i < e {
            lemma_upper_dot_same(l1, l2, x1, x2, n, m, i, j, e, n);
        }
    }
}

/// The blocked backward solve reads `L` only in its `n x n` square and the
/// right-hand side only in its first `n` rows: operands that agree there
/// give solutions that agree there, in every column.
pub proof fn lemma_upper_solve_same<T: Scalar>(
    l1: spec_fn(int, int) -> T,
    l2: spec_fn(int, int) -> T,
    b1: spec_fn(int, int) -> T,
    b2: spec_fn(int, int) -> T,
    n: int,
    m: int,
    q: nat,
)
    requires
        same_on(l1, l2, n, n),
        same_on(b1, b2, n, m),
        0 <= n,
    ensures
        same_on(upper_solve_state(l1, b1, n, q), upper_solve_state(l2, b2, n, q), n, m),
    decreases q,
{
    if q > 0 {
        lemma_upper_solve_same(l1, l2, b1, b2, n, m, (q - 1) as nat);
        let p1 = upper_solve_state(l1, b1, n, (q - 1) as nat);
        let p2 = upper_solve_state(l2, b2, n, (q - 1) as nat);
        let e = back_block_end(n, q - 1);
        let kb = back_block_height(n, q - 1);
        lemma_upper_gemm_same(l1, l2, p1, p2, n, m, e - kb, e);
        lemma_upper_block_solve_same(l1, l2, upper_gemm(l1, p1, e - kb, e, n), upper_gemm(l2, p2, e - kb, e, n), n, m, e, kb as nat);
    }
}

} // verus!
