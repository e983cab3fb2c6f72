//! LU decomposition with partial (row) pivoting: `P A = L U`.
//!
//! The factors are computed by Gaussian elimination, one column at a time.
//! The contracts describe the exact sequence of scalar operations through
//! the spec functions below: `lu_state` is the matrix, the row permutation
//! and the permutation sign after a number of elimination steps.

use crate::matrix::Matrix;
use crate::scalar::{Scalar, exact_rules, field_rules, lemma_field, spec_one};
use vstd::prelude::*;

verus! {

/// The entries of a matrix as a function of `(row, column)`.
pub open spec fn grid<T>(m: Matrix<T>) -> spec_fn(int, int) -> T {
    |i: int, j: int| m.at(i, j)
}

/// The entries of `m` inside its bounds are those of `g`.
pub open spec fn holds<T>(m: Matrix<T>, g: spec_fn(int, int) -> T) -> bool {
    forall|i: int, j: int| #[trigger] m.in_bounds(i, j) ==> m.at(i, j) == g(i, j)
}

/// `0 - 1`, the factor applied to the permutation sign at each row swap.
pub open spec fn neg_one<T: Scalar>() -> T {
    T::spec_from_usize(0).spec_minus(T::spec_from_usize(1))
}

/// Scans rows `k .. m` of column `k` for the first entry of strictly largest
/// absolute value, starting from row `k` and the value zero; returns the row
/// found and its absolute value.
pub open spec fn pivot_scan<T: Scalar>(a: spec_fn(int, int) -> T, k: int, m: int) -> (int, T)
    decreases m - k,
{
    if m <= k {
        (k, T::spec_zero())
    } else {
        let prev = pivot_scan(a, k, m - 1);
        let v = a(m - 1, k).spec_abs();
        if prev.1.spec_lt(v) {
            (m - 1, v)
        } else {
            prev
        }
    }
}

/// `a` with rows `k` and `r` exchanged.
pub open spec fn swap_rows<T>(a: spec_fn(int, int) -> T, k: int, r: int) -> spec_fn(int, int) -> T {
    |i: int, j: int|
        if i == k {
            a(r, j)
        } else if i == r {
            a(k, j)
        } else {
            a(i, j)
        }
}

/// One elimination step on column `k`: unless the pivot `b(k, k)` equals
/// zero, the entries below the pivot are multiplied by `1 / pivot` and each
/// entry `(i, j)` with `i, j > k` becomes `b(i, j) - l(i) * b(k, j)`, where
/// `l(i)` is the scaled entry of column `k`.
pub open spec fn eliminate<T: Scalar>(b: spec_fn(int, int) -> T, k: int) -> spec_fn(int, int) -> T {
    |i: int, j: int|
        if b(k, k).spec_eq(T::spec_from_usize(0)) || i <= k || j < k {
            b(i, j)
        } else if j == k {
            b(i, k).spec_times(spec_one::<T>().spec_over(b(k, k)))
        } else {
            b(i, j).spec_minus(
                b(i, k).spec_times(spec_one::<T>().spec_over(b(k, k))).spec_times(b(k, j)),
            )
        }
}

/// The row chosen as pivot at step `k` of an `n x n` elimination.
pub open spec fn pivot_row<T: Scalar>(a: spec_fn(int, int) -> T, n: nat, k: int) -> int {
    pivot_scan(a, k, n as int).0
}

/// Step `k` of the elimination: choose the pivot row, exchange it with row
/// `k` (recording the exchange in the permutation and negating the sign),
/// then eliminate below the pivot.
pub open spec fn lu_step<T: Scalar>(
    s: (spec_fn(int, int) -> T, Seq<usize>, T),
    n: nat,
    k: int,
) -> (spec_fn(int, int) -> T, Seq<usize>, T) {
    let r = pivot_row(s.0, n, k);
    if r != k {
        (
            eliminate(swap_rows(s.0, k, r), k),
            s.1.update(k, s.1[r]).update(r, s.1[k]),
            s.2.spec_times(neg_one::<T>()),
        )
    } else {
        (eliminate(s.0, k), s.1, s.2)
    }
}

/// The entries, the row permutation and the permutation sign after the
/// first `k` elimination steps on the `n x n` matrix `a`.
pub open spec fn lu_state<T: Scalar>(a: spec_fn(int, int) -> T, n: nat, k: nat) -> (
    spec_fn(int, int) -> T,
    Seq<usize>,
    T,
)
    decreases k,
{
    if k == 0 {
        (a, Seq::new(n, |i: int| i as usize), T::spec_from_usize(1))
    } else {
        lu_step(lu_state(a, n, (k - 1) as nat), n, k - 1)
    }
}

/// `s` holds each of `0 .. n` exactly once.
pub open spec fn is_permutation(s: Seq<usize>, n: nat) -> bool {
    &&& s.len() == n
    &&& forall|i: int| 0 <= i < n ==> #[trigger] s[i] < n
    &&& forall|i: int, j: int| 0 <= i < n && 0 <= j < n && i != j ==> #[trigger] s[i] != #[trigger] s[j]
}

/// The pivot search on rows `k .. m` returns a row in that range (or `k`).
pub proof fn lemma_pivot_scan_range<T: Scalar>(a: spec_fn(int, int) -> T, k: int, m: int)
    ensures
        k <= pivot_scan(a, k, m).0,
        m > k ==> pivot_scan(a, k, m).0 < m,
    decreases m - k,
{
    if m > k {
        lemma_pivot_scan_range(a, k, m - 1);
    }
}

/// Every elimination step keeps the row record a permutation of `0 .. n`.
pub proof fn lemma_lu_permutation<T: Scalar>(a: spec_fn(int, int) -> T, n: nat, k: nat)
    requires
        k <= n <= usize::MAX,
    ensures
        is_permutation(lu_state(a, n, k).1, n),
    decreases k,
{
    if k > 0 {
        let km = (k - 1) as nat;
        lemma_lu_permutation(a, n, km);
        let s = lu_state(a, n, km);
        lemma_pivot_scan_range(s.0, km as int, n as int);
        let r = pivot_row(s.0, n, km as int);
        if r != km {
            let p = s.1;
            let q = p.update(km as int, p[r]).update(r, p[km as int]);
            assert(lu_state(a, n, k).1 == q);
            assert forall|i: int| 0 <= i < n implies #[trigger] q[i] < n by {
                let si = if i == km { r } else if i == r { km as int } else { i };
                assert(q[i] == p[si]);
            }
            assert forall|i: int, j: int|
                0 <= i < n && 0 <= j < n && i != j implies #[trigger] q[i] != #[trigger] q[j] by {
                let si = if i == km { r } else if i == r { km as int } else { i };
                let sj = if j == km { r } else if j == r { km as int } else { j };
                assert(q[i] == p[si]);
                assert(q[j] == p[sj]);
                assert(si != sj);
            }
        }
    }
}

/// `g(i, 0) g(0, j) + ... + g(i, m - 1) g(m - 1, j)`, added from the left
/// (zero for `m <= 0`): the first `m` terms of entry `(i, j)` of `L U`.
pub open spec fn lu_dot<T: Scalar>(g: spec_fn(int, int) -> T, i: int, j: int, m: int) -> T
    decreases m,
{
    if m <= 0 {
        T::spec_zero()
    } else {
        lu_dot(g, i, j, m - 1).spec_plus(g(i, m - 1).spec_times(g(m - 1, j)))
    }
}

/// The smallest of `i`, `j` and `k`.
pub open spec fn min3(i: int, j: int, k: int) -> int {
    if i <= j && i <= k {
        i
    } else if j <= k {
        j
    } else {
        k
    }
}

/// The last term of entry `(i, j)` of `L U` after `k` steps: `L(i, j) U(j, j)`
/// below the diagonal in the first `k` columns, and otherwise the working
/// entry itself (`U(i, j)` with the unit diagonal of `L`, or the part of the
/// trailing block not yet eliminated).
pub open spec fn lu_rest<T: Scalar>(g: spec_fn(int, int) -> T, i: int, j: int, k: int) -> T {
    if j < i && j < k {
        g(i, j).spec_times(g(j, j))
    } else {
        g(i, j)
    }
}

/// After `k` steps, each entry `(i, j)` of the row-permuted matrix is the
/// last term plus the first `min(i, j, k)` terms of `L U`.
pub open spec fn lu_inv<T: Scalar>(a: spec_fn(int, int) -> T, n: nat, k: nat) -> bool {
    let st = lu_state(a, n, k);
    forall|i: int, j: int|
        0 <= i < n && 0 <= j < n ==> #[trigger] a(st.1[i] as int, j) == lu_rest(st.0, i, j, k as int).spec_plus(
            lu_dot(st.0, i, j, min3(i, j, k as int)),
        )
}

/// Two working matrices that agree on the terms read give the same sum.
proof fn lemma_lu_dot_agree<T: Scalar>(
    g1: spec_fn(int, int) -> T,
    i1: int,
    g2: spec_fn(int, int) -> T,
    i2: int,
    j: int,
    m: int,
)
    requires
        forall|t: int| 0 <= t < m ==> #[trigger] g1(i1, t) == g2(i2, t) && g1(t, j) == g2(t, j),
    ensures
        lu_dot(g1, i1, j, m) == lu_dot(g2, i2, j, m),
    decreases m,
{
    if m > 0 {
        lemma_lu_dot_agree(g1, i1, g2, i2, j, m - 1);
        assert(g1(i1, m - 1) == g2(i2, m - 1));
    }
}

/// The row record keeps length `n`.
proof fn lemma_lu_perm_len<T: Scalar>(a: spec_fn(int, int) -> T, n: nat, k: nat)
    ensures
        lu_state(a, n, k).1.len() == n,
    decreases k,
{
    if k > 0 {
        lemma_lu_perm_len(a, n, (k - 1) as nat);
        lemma_pivot_scan_range(lu_state(a, n, (k - 1) as nat).0, k - 1, n as int);
    }
}

/// Row `k` of the working matrix no longer changes after step `k`.
proof fn lemma_lu_row_settled<T: Scalar>(a: spec_fn(int, int) -> T, n: nat, t: nat, k: int, j: int)
    requires
        0 <= k < t,
    ensures
        lu_state(a, n, t).0(k, j) == lu_state(a, n, (k + 1) as nat).0(k, j),
    decreases t,
{
    if t > k + 1 {
        let t1 = (t - 1) as nat;
        lemma_lu_row_settled(a, n, t1, k, j);
        let s = lu_state(a, n, t1).0;
        lemma_pivot_scan_range(s, t1 as int, n as int);
    }
}

/// `(x * (1 / d)) * d == x` for `d` not equal to zero.
proof fn lemma_scale_back<T: Scalar>(x: T, d: T)
    requires
        field_rules::<T>(),
        !d.spec_eq(T::spec_zero()),
    ensures
        x.spec_times(T::spec_from_usize(1).spec_over(d)).spec_times(d) == x,
{
    let k = T::spec_from_usize(1).spec_over(d);
    lemma_field(x, k, d);
    lemma_field(k, d, d);
    lemma_field(d, d, d);
    lemma_field(x, x, x);
}

/// One elimination step keeps the invariant when its pivot is not zero.
proof fn lemma_lu_inv_step<T: Scalar>(a: spec_fn(int, int) -> T, n: nat, k: nat)
    requires
        exact_rules::<T>(),
        field_rules::<T>(),
        k < n,
        lu_inv(a, n, k),
        !lu_state(a, n, (k + 1) as nat).0(k as int, k as int).spec_eq(T::spec_zero()),
        T::spec_from_usize(0) == T::spec_zero(),
    ensures
        lu_inv(a, n, (k + 1) as nat),
{
    let st = lu_state(a, n, k);
    let s = st.0;
    let p = st.1;
    lemma_lu_perm_len(a, n, k);
    let ki = k as int;
    lemma_pivot_scan_range(s, ki, n as int);
    lemma_field(T::spec_zero(), T::spec_zero(), T::spec_zero());
    let r = pivot_row(s, n, ki);
    let s2 = if r != ki { swap_rows(s, ki, r) } else { s };
    let p2 = if r != ki { p.update(ki, p[r]).update(r, p[ki]) } else { p };
    let e = eliminate(s2, ki);
    let st1 = lu_state(a, n, (k + 1) as nat);
    assert(st1.0 == e && st1.1 == p2);
    let d = s2(ki, ki);
    assert(e(ki, ki) == d);
    // the invariant after the exchange of rows k and r
    assert forall|i: int, j: int| 0 <= i < n && 0 <= j < n implies #[trigger] a(p2[i] as int, j) == lu_rest(
        s2,
        i,
        j,
        ki,
    ).spec_plus(lu_dot(s2, i, j, min3(i, j, ki))) by {
        let si = if r != ki && i == ki { r } else if r != ki && i == r { ki } else { i };
        assert(p2[i] == p[si]);
        assert(a(p[si] as int, j) == lu_rest(s, si, j, ki).spec_plus(lu_dot(s, si, j, min3(si, j, ki))));
        assert forall|x: int| #[trigger] s2(i, x) == s(si, x) by {}
        if i >= ki {
            assert(min3(si, j, ki) == min3(i, j, ki));
            if j < ki {
                assert(s2(j, j) == s(j, j));
            }
        }
        assert forall|t: int| 0 <= t < min3(i, j, ki) implies #[trigger] s2(i, t) == s(si, t) && s2(t, j) == s(t, j) by {}
        lemma_lu_dot_agree(s2, i, s, si, j, min3(i, j, ki));
    }
    assert forall|i: int, j: int| 0 <= i < n && 0 <= j < n implies #[trigger] a(p2[i] as int, j) == lu_rest(
        e,
        i,
        j,
        ki + 1,
    ).spec_plus(lu_dot(e, i, j, min3(i, j, ki + 1))) by {
        let before = a(p2[i] as int, j);
        if i <= ki {
            assert(min3(i, j, ki + 1) == min3(i, j, ki));
            assert forall|t: int| 0 <= t < min3(i, j, ki) implies #[trigger] e(i, t) == s2(i, t) && e(t, j) == s2(t, j) by {}
            lemma_lu_dot_agree(e, i, s2, i, j, min3(i, j, ki));
            if j < i {
                assert(e(j, j) == s2(j, j));
            }
        } else if j < ki {
            assert(min3(i, j, ki + 1) == j && min3(i, j, ki) == j);
            assert forall|t: int| 0 <= t < j implies #[trigger] e(i, t) == s2(i, t) && e(t, j) == s2(t, j) by {}
            lemma_lu_dot_agree(e, i, s2, i, j, j);
            assert(e(j, j) == s2(j, j));
        } else if j == ki {
            assert(min3(i, j, ki + 1) == ki && min3(i, j, ki) == ki);
            assert forall|t: int| 0 <= t < ki implies #[trigger] e(i, t) == s2(i, t) && e(t, j) == s2(t, j) by {}
            lemma_lu_dot_agree(e, i, s2, i, j, ki);
            lemma_scale_back(s2(i, ki), d);
            assert(lu_rest(e, i, j, ki + 1) == s2(i, ki));
        } else {
            assert(min3(i, j, ki + 1) == ki + 1 && min3(i, j, ki) == ki);
            assert forall|t: int| 0 <= t < ki implies #[trigger] e(i, t) == s2(i, t) && e(t, j) == s2(t, j) by {}
            lemma_lu_dot_agree(e, i, s2, i, j, ki);
            let pr = e(i, ki).spec_times(s2(ki, j));
            assert(e(ki, j) == s2(ki, j));
            assert(e(i, j) == s2(i, j).spec_minus(pr));
            assert(lu_dot(e, i, j, ki + 1) == lu_dot(e, i, j, ki).spec_plus(pr));
            lemma_cancel(s2(i, j), pr, lu_dot(s2, i, j, ki));
        }
    }
}

/// Under the rules of exact arithmetic, when no pivot of the factorization
/// equals zero, the factors reconstruct the row-permuted matrix: with
/// `P A` the rows of `A` in the order `p`, unit lower `L` and upper `U`
/// packed in one working matrix `f`, entry `(i, j)` of `P A` is
/// `L(i, 0) U(0, j) + ... + L(i, m - 1) U(m - 1, j)` plus the diagonal term
/// (`U(i, j)` on and above the diagonal, `L(i, j) U(j, j)` below it), where
/// `m = min(i, j)`: `P A = L U`.
pub proof fn lemma_lu_reconstructs<T: Scalar>(a: spec_fn(int, int) -> T, n: nat)
    requires
        exact_rules::<T>(),
        field_rules::<T>(),
        n <= usize::MAX,
        forall|k: int| 0 <= k < n ==> !#[trigger] lu_state(a, n, n).0(k, k).spec_eq(T::spec_zero()),
    ensures
        lu_inv(a, n, n),
{
    lemma_lu_reconstructs_upto(a, n, n);
}

/// The invariant after the first `k` steps.
proof fn lemma_lu_reconstructs_upto<T: Scalar>(a: spec_fn(int, int) -> T, n: nat, k: nat)
    requires
        exact_rules::<T>(),
        field_rules::<T>(),
        k <= n,
        n <= usize::MAX,
        forall|q: int| 0 <= q < n ==> !#[trigger] lu_state(a, n, n).0(q, q).spec_eq(T::spec_zero()),
    ensures
        lu_inv(a, n, k),
    decreases k,
{
    if k == 0 {
        let st = lu_state(a, n, 0);
        assert forall|i: int, j: int| 0 <= i < n && 0 <= j < n implies #[trigger] a(st.1[i] as int, j) == lu_rest(
            st.0,
            i,
            j,
            0,
        ).spec_plus(lu_dot(st.0, i, j, min3(i, j, 0))) by {
            assert(st.1[i] as int == i);
            assert(min3(i, j, 0) == 0);
        }
    } else {
        let k1 = (k - 1) as nat;
        lemma_lu_reconstructs_upto(a, n, k1);
        lemma_lu_row_settled(a, n, n, k1 as int, k1 as int);
        assert(!lu_state(a, n, n).0(k1 as int, k1 as int).spec_eq(T::spec_zero()));
        lemma_field(T::spec_zero(), T::spec_zero(), T::spec_zero());
        lemma_lu_inv_step(a, n, k1);
    }
}

/// The number of row exchanges among the first `k` elimination steps on
/// the `n x n` matrix `a`: the steps whose pivot row is not the step's own
/// row.
pub open spec fn row_exchanges<T: Scalar>(a: spec_fn(int, int) -> T, n: nat, k: nat) -> nat
    decreases k,
{
    if k == 0 {
        0
    } else {
        let j = (k - 1) as nat;
        let prev = row_exchanges(a, n, j);
        if pivot_row(lu_state(a, n, j).0, n, j as int) != j {
            prev + 1
        } else {
            prev
        }
    }
}

/// `(-1)^m`: one for even `m`, `0 - 1` for odd `m`.
pub open spec fn parity_sign<T: Scalar>(m: nat) -> T {
    if m % 2 == 0 {
        spec_one::<T>()
    } else {
        neg_one::<T>()
    }
}

/// The permutation sign recorded after `k` steps is `(-1)` to the number of
/// row exchanges made, the determinant of the permutation matrix of those
/// exchanges, wherever one times `-1` is `-1` and `-1` times `-1` is one (as
/// in floating-point arithmetic).
pub proof fn lemma_lu_sign<T: Scalar>(a: spec_fn(int, int) -> T, n: nat, k: nat)
    requires
        spec_one::<T>().spec_times(neg_one::<T>()) == neg_one::<T>(),
        neg_one::<T>().spec_times(neg_one::<T>()) == spec_one::<T>(),
    ensures
        lu_state(a, n, k).2 == parity_sign::<T>(row_exchanges(a, n, k)),
    decreases k,
{
    if k > 0 {
        lemma_lu_sign(a, n, (k - 1) as nat);
    }
}

/// `start * g(0, 0) * g(1, 1) * ... * g(m - 1, m - 1)`, multiplied from the
/// left.
pub open spec fn diag_product<T: Scalar>(g: spec_fn(int, int) -> T, start: T, m: nat) -> T
    decreases m,
{
    if m == 0 {
        start
    } else {
        diag_product(g, start, (m - 1) as nat).spec_times(g(m - 1, m - 1))
    }
}

/// The rows of `b` in the order given by `p`: row `i` is row `p[i]` of `b`.
pub open spec fn permuted<T>(b: spec_fn(int, int) -> T, p: Seq<usize>) -> spec_fn(int, int) -> T {
    |i: int, j: int| b(p[i] as int, j)
}

/// Forward substitution with the unit lower triangle of `l`, after the
/// first `t` columns of `l`: each later row `i` has had `l(i, c) * y(c, j)`
/// subtracted for `c < t`, in order.
pub open spec fn forward<T: Scalar>(l: spec_fn(int, int) -> T, y: spec_fn(int, int) -> T, t: nat) -> spec_fn(
    int,
    int,
) -> T
    decreases t,
{
    if t == 0 {
        y
    } else {
        let prev = forward(l, y, (t - 1) as nat);
        let c = t - 1;
        |i: int, j: int|
            if i > c {
                prev(i, j).spec_minus(l(i, c).spec_times(prev(c, j)))
            } else {
                prev(i, j)
            }
    }
}

/// Backward substitution with the upper triangle of `u` of order `n`, after
/// the last `m` rows: row `c = n - m` is divided by `u(c, c)` and
/// `u(i, c)` times the result is subtracted from every row `i < c`.
pub open spec fn backward<T: Scalar>(
    u: spec_fn(int, int) -> T,
    y: spec_fn(int, int) -> T,
    n: nat,
    m: nat,
) -> spec_fn(int, int) -> T
    decreases m,
{
    if m == 0 {
        y
    } else {
        let prev = backward(u, y, n, (m - 1) as nat);
        let c = n - m;
        |i: int, j: int|
            if i == c {
                prev(c, j).spec_over(u(c, c))
            } else if i < c {
                prev(i, j).spec_minus(u(i, c).spec_times(prev(c, j).spec_over(u(c, c))))
            } else {
                prev(i, j)
            }
    }
}

/// The solution of `A x = b` computed from the factors `f` and permutation
/// `p` of `A`: permute the rows of `b`, then substitute forward with `L` and
/// backward with `U`.
pub open spec fn lu_solution<T: Scalar>(
    f: spec_fn(int, int) -> T,
    p: Seq<usize>,
    b: spec_fn(int, int) -> T,
) -> spec_fn(
    int,
    int,
) -> T {
    let n = p.len();
    backward(f, forward(f, permuted(b, p), n), n, n)
}

/// `l(i, 0) y(0, j) + ... + l(i, t - 1) y(t - 1, j)`, added from the left
/// (zero for `t <= 0`).
pub open spec fn lower_dot<T: Scalar>(l: spec_fn(int, int) -> T, y: spec_fn(int, int) -> T, i: int, j: int, t: int) -> T
    decreases t,
{
    if t <= 0 {
        T::spec_zero()
    } else {
        lower_dot(l, y, i, j, t - 1).spec_plus(l(i, t - 1).spec_times(y(t - 1, j)))
    }
}

/// `u(i, n - 1) x(n - 1, j) + ... + u(i, n - m) x(n - m, j)`, added from
/// the left (zero for `m <= 0`).
pub open spec fn upper_dot<T: Scalar>(
    u: spec_fn(int, int) -> T,
    x: spec_fn(int, int) -> T,
    i: int,
    j: int,
    n: int,
    m: int,
) -> T
    decreases m,
{
    if m <= 0 {
        T::spec_zero()
    } else {
        upper_dot(u, x, i, j, n, m - 1).spec_plus(u(i, n - m).spec_times(x(n - m, j)))
    }
}

/// `(a - p) + (s + p) == a + s` under the rules of exact arithmetic.
pub proof fn lemma_cancel<T: Scalar>(a: T, p: T, s: T)
    requires
        exact_rules::<T>(),
    ensures
        a.spec_minus(p).spec_plus(s.spec_plus(p)) == a.spec_plus(s),
{
    let d = a.spec_minus(p);
    assert(s.spec_plus(p) == p.spec_plus(s));
    assert(d.spec_plus(p).spec_plus(s) == d.spec_plus(p.spec_plus(s)));
    assert(d.spec_plus(p) == a);
}

/// Row `i` of the forward substitution no longer changes after step `i`.
proof fn lemma_forward_settled<T: Scalar>(l: spec_fn(int, int) -> T, b: spec_fn(int, int) -> T, t: nat, i: int, j: int)
    requires
        0 <= i <= t,
    ensures
        forward(l, b, t)(i, j) == forward(l, b, i as nat)(i, j),
    decreases t,
{
    if t > i {
        lemma_forward_settled(l, b, (t - 1) as nat, i, j);
    }
}

/// Before its own step, row `i` of the forward substitution plus the
/// products already subtracted from it is the right-hand side.
proof fn lemma_forward_rows<T: Scalar>(l: spec_fn(int, int) -> T, b: spec_fn(int, int) -> T, n: nat, t: nat, i: int, j: int)
    requires
        exact_rules::<T>(),
        t <= i < n,
    ensures
        forward(l, b, t)(i, j).spec_plus(lower_dot(l, forward(l, b, n), i, j, t as int)) == b(i, j),
    decreases t,
{
    if t > 0 {
        let c = t - 1;
        lemma_forward_rows(l, b, n, (t - 1) as nat, i, j);
        lemma_forward_settled(l, b, n, c, j);
        let prev = forward(l, b, (t - 1) as nat);
        let p = l(i, c).spec_times(prev(c, j));
        assert(forward(l, b, t)(i, j) == prev(i, j).spec_minus(p));
        lemma_cancel(prev(i, j), p, lower_dot(l, forward(l, b, n), i, j, c));
    }
}

/// Row `i` of the backward substitution no longer changes after its own
/// step, the step `n - i`.
proof fn lemma_backward_settled<T: Scalar>(u: spec_fn(int, int) -> T, y: spec_fn(int, int) -> T, n: nat, m: nat, i: int, j: int)
    requires
        m <= n,
        n - m <= i < n,
    ensures
        backward(u, y, n, m)(i, j) == backward(u, y, n, (n - i) as nat)(i, j),
    decreases m,
{
    if m > n - i {
        lemma_backward_settled(u, y, n, (m - 1) as nat, i, j);
    }
}

/// Before its own step, row `i` of the backward substitution plus the
/// products already subtracted from it is the right-hand side.
proof fn lemma_backward_rows<T: Scalar>(u: spec_fn(int, int) -> T, y: spec_fn(int, int) -> T, n: nat, m: nat, i: int, j: int)
    requires
        exact_rules::<T>(),
        m <= n,
        0 <= i < n - m,
    ensures
        backward(u, y, n, m)(i, j).spec_plus(upper_dot(u, backward(u, y, n, n), i, j, n as int, m as int)) == y(i, j),
    decreases m,
{
    if m > 0 {
        let c = n - m;
        lemma_backward_rows(u, y, n, (m - 1) as nat, i, j);
        lemma_backward_settled(u, y, n, n, c, j);
        let prev = backward(u, y, n, (m - 1) as nat);
        let p = u(i, c).spec_times(prev(c, j).spec_over(u(c, c)));
        assert(backward(u, y, n, m)(i, j) == prev(i, j).spec_minus(p));
        lemma_cancel(prev(i, j), p, upper_dot(u, backward(u, y, n, n), i, j, n as int, (m - 1) as int));
    }
}

/// Under the rules of exact arithmetic, forward substitution solves the
/// unit lower triangular system: `y(i) + sum over c < i of l(i, c) y(c)`
/// is `b(i)` for each row `i < n`.
pub proof fn lemma_forward_solves<T: Scalar>(l: spec_fn(int, int) -> T, b: spec_fn(int, int) -> T, n: nat)
    requires
        exact_rules::<T>(),
    ensures
        forall|i: int, j: int|
            0 <= i < n ==> #[trigger] forward(l, b, n)(i, j).spec_plus(lower_dot(l, forward(l, b, n), i, j, i))
                == b(i, j),
{
    assert forall|i: int, j: int| 0 <= i < n implies #[trigger] forward(l, b, n)(i, j).spec_plus(
        lower_dot(l, forward(l, b, n), i, j, i),
    ) == b(i, j) by {
        lemma_forward_rows(l, b, n, i as nat, i, j);
        lemma_forward_settled(l, b, n, i, j);
    }
}

/// Under the rules of exact arithmetic and with no diagonal entry equal to
/// zero, backward substitution solves the upper triangular system:
/// `u(i, i) x(i) + sum over c > i of u(i, c) x(c)` is `y(i)` for each row
/// `i < n`.
pub proof fn lemma_backward_solves<T: Scalar>(u: spec_fn(int, int) -> T, y: spec_fn(int, int) -> T, n: nat)
    requires
        exact_rules::<T>(),
        forall|k: int| 0 <= k < n ==> !#[trigger] u(k, k).spec_eq(T::spec_zero()),
    ensures
        forall|i: int, j: int|
            0 <= i < n ==> #[trigger] u(i, i).spec_times(backward(u, y, n, n)(i, j)).spec_plus(
                upper_dot(u, backward(u, y, n, n), i, j, n as int, n - 1 - i),
            ) == y(i, j),
{
    assert forall|i: int, j: int| 0 <= i < n implies #[trigger] u(i, i).spec_times(backward(u, y, n, n)(i, j)).spec_plus(
        upper_dot(u, backward(u, y, n, n), i, j, n as int, n - 1 - i),
    ) == y(i, j) by {
        let m = (n - 1 - i) as nat;
        lemma_backward_rows(u, y, n, m, i, j);
        lemma_backward_settled(u, y, n, n, i, j);
        let before = backward(u, y, n, m)(i, j);
        assert(backward(u, y, n, (n - i) as nat)(i, j) == before.spec_over(u(i, i)));
        assert(!u(i, i).spec_eq(T::spec_zero()));
        assert(u(i, i).spec_times(before.spec_over(u(i, i))) == before);
    }
}

/// Under the rules of exact arithmetic, the solution that
/// `PartialPivLU::solve` computes (see `lu_solution`) satisfies the two
/// triangular systems of the factors: with `z` the forward substitution of
/// the permuted right-hand side, `L z = P b` and, when no diagonal entry of
/// `U` equals zero, `U x = z`.
pub proof fn lemma_lu_solve_triangular<T: Scalar>(lu: PartialPivLU<T>, b: Matrix<T>)
    requires
        exact_rules::<T>(),
        lu.wf(),
        forall|k: int| 0 <= k < lu.order() ==> !#[trigger] lu.factors().at(k, k).spec_eq(T::spec_zero()),
    ensures
        ({
            let f = grid(lu.factors());
            let n = lu.order();
            let z = forward(f, permuted(grid(b), lu.perm()), n);
            let x = lu_solution(f, lu.perm(), grid(b));
            &&& forall|i: int, j: int|
                0 <= i < n ==> #[trigger] z(i, j).spec_plus(lower_dot(f, z, i, j, i)) == b.at(
                    lu.perm()[i] as int,
                    j,
                )
            &&& forall|i: int, j: int|
                0 <= i < n ==> #[trigger] f(i, i).spec_times(x(i, j)).spec_plus(upper_dot(f, x, i, j, n as int, n - 1 - i))
                    == z(i, j)
        }),
{
    let f = grid(lu.factors());
    let n = lu.order();
    assert(lu.perm().len() == n);
    let pb = permuted(grid(b), lu.perm());
    lemma_forward_solves(f, pb, n);
    let z = forward(f, pb, n);
    assert forall|k: int| 0 <= k < n implies !#[trigger] f(k, k).spec_eq(T::spec_zero()) by {
        assert(!lu.factors().at(k, k).spec_eq(T::spec_zero()));
    }
    lemma_backward_solves(f, z, n);
}

/// `g1` and `g2` agree on rows `0 .. n` and columns `0 .. c`.
pub open spec fn agree_on<T>(g1: spec_fn(int, int) -> T, g2: spec_fn(int, int) -> T, n: int, c: int) -> bool {
    forall|i: int, j: int| 0 <= i < n && 0 <= j < c ==> #[trigger] g1(i, j) == g2(i, j)
}

/// Forward substitution of order `n` reads only the square `0 .. n` of its
/// factor and rows `0 .. n` of its right-hand side.
proof fn lemma_forward_local<T: Scalar>(
    l1: spec_fn(int, int) -> T,
    l2: spec_fn(int, int) -> T,
    y1: spec_fn(int, int) -> T,
    y2: spec_fn(int, int) -> T,
    t: nat,
    n: int,
    c: int,
)
    requires
        agree_on(l1, l2, n, n),
        agree_on(y1, y2, n, c),
        t <= n,
    ensures
        agree_on(forward(l1, y1, t), forward(l2, y2, t), n, c),
    decreases t,
{
    if t > 0 {
        lemma_forward_local(l1, l2, y1, y2, (t - 1) as nat, n, c);
        let p1 = forward(l1, y1, (t - 1) as nat);
        let p2 = forward(l2, y2, (t - 1) as nat);
        assert forall|i: int, j: int| 0 <= i < n && 0 <= j < c implies #[trigger] forward(
            l1,
            y1,
            t,
        )(i, j) == forward(l2, y2, t)(i, j) by {
            assert(p1(i, j) == p2(i, j));
            assert(p1(t - 1, j) == p2(t - 1, j));
            assert(l1(i, t - 1) == l2(i, t - 1));
        }
    }
}

/// Backward substitution of order `n` reads only the square `0 .. n` of its
/// factor and rows `0 .. n` of its right-hand side.
proof fn lemma_backward_local<T: Scalar>(
    u1: spec_fn(int, int) -> T,
    u2: spec_fn(int, int) -> T,
    y1: spec_fn(int, int) -> T,
    y2: spec_fn(int, int) -> T,
    n: nat,
    m: nat,
    c: int,
)
    requires
        agree_on(u1, u2, n as int, n as int),
        agree_on(y1, y2, n as int, c),
        m <= n,
    ensures
        agree_on(backward(u1, y1, n, m), backward(u2, y2, n, m), n as int, c),
    decreases m,
{
    if m > 0 {
        lemma_backward_local(u1, u2, y1, y2, n, (m - 1) as nat, c);
        let p1 = backward(u1, y1, n, (m - 1) as nat);
        let p2 = backward(u2, y2, n, (m - 1) as nat);
        let c0 = n - m;
        assert forall|i: int, j: int| 0 <= i < n && 0 <= j < c implies #[trigger] backward(
            u1,
            y1,
            n,
            m,
        )(i, j) == backward(u2, y2, n, m)(i, j) by {
            assert(p1(i, j) == p2(i, j));
            assert(p1(c0, j) == p2(c0, j));
            assert(u1(c0, c0) == u2(c0, c0));
            if i < c0 {
                assert(u1(i, c0) == u2(i, c0));
            }
        }
    }
}

/// The LU solution of order `n` reads only the square `0 .. n` of the
/// factors and of the right-hand side when the permutation stays inside
/// `0 .. n`.
proof fn lemma_lu_solution_local<T: Scalar>(
    f1: spec_fn(int, int) -> T,
    f2: spec_fn(int, int) -> T,
    p: Seq<usize>,
    b1: spec_fn(int, int) -> T,
    b2: spec_fn(int, int) -> T,
    n: int,
)
    requires
        n == p.len(),
        is_permutation(p, p.len()),
        agree_on(f1, f2, n, n),
        agree_on(b1, b2, n, n),
    ensures
        agree_on(lu_solution(f1, p, b1), lu_solution(f2, p, b2), n, n),
{
    let y1 = permuted(b1, p);
    let y2 = permuted(b2, p);
    assert forall|i: int, j: int| 0 <= i < n && 0 <= j < n implies #[trigger] y1(i, j) == y2(i, j) by {
        assert(b1(p[i] as int, j) == b2(p[i] as int, j));
    }
    lemma_forward_local(f1, f2, y1, y2, n as nat, n, n);
    lemma_backward_local(
        f1,
        f2,
        forward(f1, y1, n as nat),
        forward(f2, y2, n as nat),
        n as nat,
        n as nat,
        n,
    );
}

/// The identity matrix as a function of `(row, column)`: the image of `1`
/// on the diagonal and of `0` elsewhere.
pub open spec fn identity_grid<T: Scalar>() -> spec_fn(int, int) -> T {
    |i: int, j: int|
        if i == j {
            T::spec_from_usize(1)
        } else {
            T::spec_from_usize(0)
        }
}

/// The determinant of a `2 x 2` matrix, `a(0,0) a(1,1) - a(1,0) a(0,1)`.
pub open spec fn det2<T: Scalar>(m: Matrix<T>) -> T {
    m.at(0, 0).spec_times(m.at(1, 1)).spec_minus(m.at(1, 0).spec_times(m.at(0, 1)))
}

/// The inverse of a `2 x 2` matrix by the adjugate formula, each entry of
/// the adjugate multiplied by `1 / det2(m)`.
pub open spec fn inverse2<T: Scalar>(m: Matrix<T>) -> spec_fn(int, int) -> T {
    let inv_det = T::spec_from_usize(1).spec_over(det2(m));
    let zero = T::spec_from_usize(0);
    |i: int, j: int|
        if i == 0 && j == 0 {
            m.at(1, 1).spec_times(inv_det)
        } else if i == 0 && j == 1 {
            zero.spec_minus(m.at(0, 1)).spec_times(inv_det)
        } else if i == 1 && j == 0 {
            zero.spec_minus(m.at(1, 0)).spec_times(inv_det)
        } else {
            m.at(0, 0).spec_times(inv_det)
        }
}

/// The LU decomposition of the square matrix `a` has a pivot equal to zero
/// on the diagonal of `U`: `a` is singular.
pub open spec fn lu_singular<T: Scalar>(a: Matrix<T>) -> bool {
    let n = a.nrows();
    let f = lu_state(grid(a), n, n).0;
    exists|i: int| 0 <= i < n && #[trigger] f(i, i).spec_eq(T::spec_from_usize(0))
}

/// A partial-pivoting LU decomposition `P A = L U` of a square matrix.
///
/// `L` (unit diagonal, strictly below the diagonal) and `U` (on and above
/// the diagonal) share one matrix; `p[i]` is the row of `A` that ended up in
/// row `i`; `det_p` is the sign of the permutation.
pub struct PartialPivLU<T> {
    lu: Matrix<T>,
    p: Vec<usize>,
    det_p: T,
}

impl<T: Scalar> PartialPivLU<T> {
    /// The combined `L` and `U` factors.
    pub closed spec fn factors(&self) -> Matrix<T> {
        self.lu
    }

    /// The row permutation.
    pub closed spec fn perm(&self) -> Seq<usize> {
        self.p@
    }

    /// The sign of the row permutation.
    pub closed spec fn sign(&self) -> T {
        self.det_p
    }

    /// The order of the decomposed matrix.
    pub open spec fn order(&self) -> nat {
        self.factors().nrows()
    }

    /// Internal consistency: a square factor matrix and a permutation of
    /// its row indices.
    pub open spec fn wf(&self) -> bool {
        &&& self.factors().wf()
        &&& self.factors().ncols() == self.order()
        &&& is_permutation(self.perm(), self.order())
    }

    /// `self` is the decomposition of the square matrix `a`: factors,
    /// permutation and sign are those after all elimination steps.
    pub open spec fn decomposes(&self, a: Matrix<T>) -> bool {
        let n = a.nrows();
        let s = lu_state(grid(a), n, n);
        &&& self.wf()
        &&& self.order() == n
        &&& holds(self.factors(), s.0)
        &&& self.perm() == s.1
        &&& self.sign() == s.2
    }

    /// Computes the decomposition of a square matrix; fails exactly when the
    /// matrix is not square.
    pub fn new(matrix: &Matrix<T>) -> (r: Result<Self, String>)
        requires
            matrix.wf(),
        ensures
            r is Ok <==> matrix.nrows() == matrix.ncols(),
            r matches Ok(d) ==> d.decomposes(*matrix),
            r matches Err(e) ==> e@ == "LU decomposition requires a square matrix"@,
    {
        let rows = matrix.rows();
        let cols = matrix.cols();
        if rows != cols {
            return Err("LU decomposition requires a square matrix".to_string());
        }
        let n = rows;
        let _size = matrix.size();
        let ghost a0 = grid(*matrix);
        let mut lu = matrix.copy();
        let mut p: Vec<usize> = Vec::new();
        let mut i: usize = 0;
        while i < n
            invariant
                i <= n,
                p@.len() == i,
                forall|q: int| 0 <= q < i ==> #[trigger] p@[q] == q as usize,
            decreases n - i,
        {
            p.push(i);
            i = i + 1;
        }
        let mut det_p = T::from_usize(1);
        proof {
            assert(p@ == lu_state(a0, n as nat, 0).1);
            assert forall|i: int, j: int| #[trigger] lu.in_bounds(i, j) implies lu.at(i, j) == a0(
                i,
                j,
            ) by {}
        }
        let mut k: usize = 0;
        while k < n
            invariant
                k <= n,
                n == matrix.nrows(),
                n == matrix.ncols(),
                a0 == grid(*matrix),
                lu.wf(),
                lu.nrows() == n,
                lu.ncols() == n,
                holds(lu, lu_state(a0, n as nat, k as nat).0),
                p@ == lu_state(a0, n as nat, k as nat).1,
                det_p == lu_state(a0, n as nat, k as nat).2,
            decreases n - k,
        {
            Self::elimination_step(&mut lu, &mut p, &mut det_p, k, Ghost(a0));
            k = k + 1;
        }
        proof {
            lemma_lu_permutation(a0, n as nat, n as nat);
        }
        Ok(PartialPivLU { lu, p, det_p })
    }

    /// Performs step `k` of the elimination in place.
    fn elimination_step(
        lu: &mut Matrix<T>,
        p: &mut Vec<usize>,
        det_p: &mut T,
        k: usize,
        Ghost(a0): Ghost<spec_fn(int, int) -> T>,
    )
        requires
            old(lu).wf(),
            old(lu).nrows() == old(lu).ncols(),
            k < old(lu).nrows(),
            holds(*old(lu), lu_state(a0, old(lu).nrows(), k as nat).0),
            old(p)@ == lu_state(a0, old(lu).nrows(), k as nat).1,
            *old(det_p) == lu_state(a0, old(lu).nrows(), k as nat).2,
        ensures
            final(lu).wf(),
            final(lu).same_shape(old(lu)),
            holds(*final(lu), lu_state(a0, old(lu).nrows(), (k + 1) as nat).0),
            final(p)@ == lu_state(a0, old(lu).nrows(), (k + 1) as nat).1,
            *final(det_p) == lu_state(a0, old(lu).nrows(), (k + 1) as nat).2,
    {
        let n = lu.rows();
        let ghost s = lu_state(a0, n as nat, k as nat);
        let ghost g = s.0;
        proof {
            lemma_lu_permutation(a0, n as nat, k as nat);
            lemma_pivot_scan_range(g, k as int, n as int);
        }
        // 1. pivot search
        let mut max_val = T::zero();
        let mut imax = k;
        let mut i = k;
        while i < n
            invariant
                k <= i <= n,
                lu.wf(),
                lu.nrows() == n,
                lu.ncols() == n,
                holds(*lu, g),
                (imax as int, max_val) == pivot_scan(g, k as int, i as int),
            decreases n - i,
        {
            assert(lu.in_bounds(i as int, k as int));
            let abs_val = lu.entry(i, k).abs();
            assert(abs_val == g(i as int, k as int).spec_abs());
            if max_val.is_lt(abs_val) {
                max_val = abs_val;
                imax = i;
            }
            i = i + 1;
        }
        let ghost h = if imax != k {
            swap_rows(g, k as int, imax as int)
        } else {
            g
        };
        // 2. row exchange
        if imax != k {
            let mut j: usize = 0;
            while j < n
                invariant
                    k < n,
                    imax < n,
                    imax != k,
                    j <= n,
                    lu.wf(),
                    lu.nrows() == n,
                    lu.ncols() == n,
                    h == swap_rows(g, k as int, imax as int),
                    forall|r: int, c: int| #[trigger]
                        lu.in_bounds(r, c) ==> lu.at(r, c) == if c < j {
                            h(r, c)
                        } else {
                            g(r, c)
                        },
                decreases n - j,
            {
                let ghost before = *lu;
                assert(lu.in_bounds(k as int, j as int));
                assert(lu.in_bounds(imax as int, j as int));
                let tmp = lu.entry(k, j);
                let val_imax = lu.entry(imax, j);
                lu.set(k, j, val_imax);
                let ghost mid = *lu;
                lu.set(imax, j, tmp);
                proof {
                    assert forall|r: int, c: int| #[trigger] lu.in_bounds(r, c) implies lu.at(r, c)
                        == if c < j + 1 {
                        h(r, c)
                    } else {
                        g(r, c)
                    } by {
                        assert(mid.in_bounds(r, c));
                        assert(before.in_bounds(r, c));
                    }
                }
                j = j + 1;
            }
            let pk = p[k];
            let pm = p[imax];
            p.set(k, pm);
            p.set(imax, pk);
            let neg_one = T::from_usize(0).minus(T::from_usize(1));
            *det_p = det_p.times(neg_one);
        }
        assert(holds(*lu, h));
        // 3. elimination below the pivot
        assert(lu.in_bounds(k as int, k as int));
        let pivot = lu.entry(k, k);
        if !pivot.is_eq(T::from_usize(0)) {
            let inv_pivot = T::from_usize(1).over(pivot);
            let mut i = k + 1;
            while i < n
                invariant
                    k < i <= n,
                    lu.wf(),
                    lu.nrows() == n,
                    lu.ncols() == n,
                    inv_pivot == spec_one::<T>().spec_over(h(k as int, k as int)),
                    forall|r: int, c: int| #[trigger]
                        lu.in_bounds(r, c) ==> lu.at(r, c) == if c == k && k < r < i {
                            h(r, c).spec_times(inv_pivot)
                        } else {
                            h(r, c)
                        },
                decreases n - i,
            {
                let ghost before = *lu;
                assert(lu.in_bounds(i as int, k as int));
                let v = lu.entry(i, k);
                lu.set(i, k, v.times(inv_pivot));
                proof {
                    assert forall|r: int, c: int| #[trigger] lu.in_bounds(r, c) implies lu.at(r, c)
                        == if c == k && k < r < i + 1 {
                        h(r, c).spec_times(inv_pivot)
                    } else {
                        h(r, c)
                    } by {
                        assert(before.in_bounds(r, c));
                    }
                }
                i = i + 1;
            }
            let ghost e = eliminate(h, k as int);
            assert(!h(k as int, k as int).spec_eq(T::spec_from_usize(0)));
            let mut j = k + 1;
            while j < n
                invariant
                    k < j <= n,
                    lu.wf(),
                    lu.nrows() == n,
                    lu.ncols() == n,
                    !h(k as int, k as int).spec_eq(T::spec_from_usize(0)),
                    e == eliminate(h, k as int),
                    forall|r: int, c: int| #[trigger]
                        lu.in_bounds(r, c) ==> lu.at(r, c) == if c <= k || c < j {
                            e(r, c)
                        } else {
                            h(r, c)
                        },
                decreases n - j,
            {
                assert(lu.in_bounds(k as int, j as int));
                let factor = lu.entry(k, j);
                let mut i = k + 1;
                while i < n
                    invariant
                        k < j < n,
                        k < i <= n,
                        lu.wf(),
                        lu.nrows() == n,
                        lu.ncols() == n,
                        !h(k as int, k as int).spec_eq(T::spec_from_usize(0)),
                        e == eliminate(h, k as int),
                        factor == h(k as int, j as int),
                        forall|r: int, c: int| #[trigger]
                            lu.in_bounds(r, c) ==> lu.at(r, c) == if c <= k || c < j || (c
                                == j && r < i) {
                                e(r, c)
                            } else {
                                h(r, c)
                            },
                    decreases n - i,
                {
                    let ghost before = *lu;
                    assert(lu.in_bounds(i as int, j as int));
                    assert(lu.in_bounds(i as int, k as int));
                    let x = lu.entry(i, j);
                    let l = lu.entry(i, k);
                    lu.set(i, j, x.minus(l.times(factor)));
                    proof {
                        assert forall|r: int, c: int| #[trigger] lu.in_bounds(r, c) implies lu.at(
                            r,
                            c,
                        ) == if c <= k || c < j || (c == j && r < i + 1) {
                            e(r, c)
                        } else {
                            h(r, c)
                        } by {
                            assert(before.in_bounds(r, c));
                        }
                    }
                    i = i + 1;
                }
                j = j + 1;
            }
        }
        proof {
            assert(lu_state(a0, n as nat, (k + 1) as nat) == lu_step(s, n as nat, k as int));
            assert(holds(*lu, lu_state(a0, n as nat, (k + 1) as nat).0));
        }
    }
    /// The determinant of the decomposed matrix: the permutation sign times
    /// the diagonal of `U`, multiplied from the top-left down.
    pub fn determinant(&self) -> (r: T)
        requires
            self.wf(),
        ensures
            r == diag_product(grid(self.factors()), self.sign(), self.order()),
    {
        let n = self.lu.rows();
        let mut det = self.det_p;
        let mut i: usize = 0;
        while i < n
            invariant
                i <= n,
                n == self.order(),
                self.wf(),
                det == diag_product(grid(self.factors()), self.sign(), i as nat),
            decreases n - i,
        {
            assert(self.lu.in_bounds(i as int, i as int));
            det = det.times(self.lu.entry(i, i));
            i = i + 1;
        }
        det
    }

    /// Solves `A x = b` for `x`; fails exactly when `b` does not have as
    /// many rows as `A`.
    pub fn solve(&self, b: &Matrix<T>) -> (r: Result<Matrix<T>, String>)
        requires
            self.wf(),
            b.wf(),
        ensures
            r is Ok <==> b.nrows() == self.order(),
            r matches Ok(x) ==> {
                &&& x.wf()
                &&& x.same_shape(b)
                &&& holds(x, lu_solution(grid(self.factors()), self.perm(), grid(*b)))
            },
            r matches Err(e) ==> e@ == "Dimension mismatch in LU solve"@,
    {
        let rows = self.lu.rows();
        if b.rows() != rows {
            return Err("Dimension mismatch in LU solve".to_string());
        }
        let cols = b.cols();
        let _size = b.size();
        let ghost f = grid(self.factors());
        let ghost y0 = permuted(grid(*b), self.perm());
        let mut x = Matrix::zeros(rows, cols);
        // 1. x = P b
        let mut i: usize = 0;
        while i < rows
            invariant
                self.wf(),
                rows == self.order(),
                b.wf(),
                b.nrows() == rows,
                b.ncols() == cols,
                y0 == permuted(grid(*b), self.perm()),
                i <= rows,
                x.wf(),
                x.nrows() == rows,
                x.ncols() == cols,
                forall|r: int, c: int| #[trigger] x.in_bounds(r, c) && r < i ==> x.at(r, c) == y0(r, c),
            decreases rows - i,
        {
            let pi = self.p[i];
            let mut j: usize = 0;
            while j < cols
                invariant
                    self.wf(),
                    rows == self.order(),
                    b.wf(),
                    b.nrows() == rows,
                    b.ncols() == cols,
                    y0 == permuted(grid(*b), self.perm()),
                    i < rows,
                    pi == self.perm()[i as int],
                    pi < rows,
                    j <= cols,
                    x.wf(),
                    x.nrows() == rows,
                    x.ncols() == cols,
                    forall|r: int, c: int| #[trigger]
                        x.in_bounds(r, c) && (r < i || (r == i && c < j)) ==> x.at(r, c) == y0(r, c),
                decreases cols - j,
            {
                let ghost before = x;
                assert(b.in_bounds(pi as int, j as int));
                let v = b.entry(pi, j);
                x.set(i, j, v);
                proof {
                    assert forall|r: int, c: int| #[trigger]
                        x.in_bounds(r, c) && (r < i || (r == i && c < j + 1)) implies x.at(r, c)
                        == y0(r, c) by {
                        assert(before.in_bounds(r, c));
                    }
                }
                j = j + 1;
            }
            i = i + 1;
        }
        // 2. forward substitution with L
        let mut t: usize = 0;
        while t < rows
            invariant
                self.wf(),
                rows == self.order(),
                f == grid(self.factors()),
                t <= rows,
                x.wf(),
                x.nrows() == rows,
                x.ncols() == cols,
                holds(x, forward(f, y0, t as nat)),
            decreases rows - t,
        {
            let ghost prev = forward(f, y0, t as nat);
            let ghost next = forward(f, y0, (t + 1) as nat);
            let mut j: usize = 0;
            while j < cols
                invariant
                    self.wf(),
                    rows == self.order(),
                    f == grid(self.factors()),
                    t < rows,
                    j <= cols,
                    x.wf(),
                    x.nrows() == rows,
                    x.ncols() == cols,
                    prev == forward(f, y0, t as nat),
                    next == forward(f, y0, (t + 1) as nat),
                    forall|r: int, c: int| #[trigger]
                        x.in_bounds(r, c) ==> x.at(r, c) == if c < j {
                            next(r, c)
                        } else {
                            prev(r, c)
                        },
                decreases cols - j,
            {
                assert(x.in_bounds(t as int, j as int));
                let factor = x.entry(t, j);
                let mut ii = t + 1;
                while ii < rows
                    invariant
                        self.wf(),
                        rows == self.order(),
                        f == grid(self.factors()),
                        t < ii <= rows,
                        j < cols,
                        x.wf(),
                        x.nrows() == rows,
                        x.ncols() == cols,
                        prev == forward(f, y0, t as nat),
                        next == forward(f, y0, (t + 1) as nat),
                        factor == prev(t as int, j as int),
                        forall|r: int, c: int| #[trigger]
                            x.in_bounds(r, c) ==> x.at(r, c) == if c < j || (c == j && r < ii) {
                                next(r, c)
                            } else {
                                prev(r, c)
                            },
                    decreases rows - ii,
                {
                    let ghost before = x;
                    assert(x.in_bounds(ii as int, j as int));
                    assert(self.lu.in_bounds(ii as int, t as int));
                    let l = self.lu.entry(ii, t);
                    let v = x.entry(ii, j);
                    x.set(ii, j, v.minus(l.times(factor)));
                    proof {
                        assert forall|r: int, c: int| #[trigger] x.in_bounds(r, c) implies x.at(
                            r,
                            c,
                        ) == if c < j || (c == j && r < ii + 1) {
                            next(r, c)
                        } else {
                            prev(r, c)
                        } by {
                            assert(before.in_bounds(r, c));
                        }
                    }
                    ii = ii + 1;
                }
                j = j + 1;
            }
            t = t + 1;
        }
        let ghost y1 = forward(f, y0, rows as nat);
        // 3. backward substitution with U
        let mut m: usize = 0;
        while m < rows
            invariant
                self.wf(),
                rows == self.order(),
                f == grid(self.factors()),
                y1 == forward(f, y0, rows as nat),
                m <= rows,
                x.wf(),
                x.nrows() == rows,
                x.ncols() == cols,
                holds(x, backward(f, y1, rows as nat, m as nat)),
            decreases rows - m,
        {
            let c0 = rows - 1 - m;
            let ghost prev = backward(f, y1, rows as nat, m as nat);
            let ghost next = backward(f, y1, rows as nat, (m + 1) as nat);
            assert(self.lu.in_bounds(c0 as int, c0 as int));
            let pivot = self.lu.entry(c0, c0);
            let mut j: usize = 0;
            while j < cols
                invariant
                    self.wf(),
                    rows == self.order(),
                    f == grid(self.factors()),
                    m < rows,
                    c0 == rows - 1 - m,
                    pivot == f(c0 as int, c0 as int),
                    j <= cols,
                    x.wf(),
                    x.nrows() == rows,
                    x.ncols() == cols,
                    prev == backward(f, y1, rows as nat, m as nat),
                    next == backward(f, y1, rows as nat, (m + 1) as nat),
                    forall|r: int, c: int| #[trigger]
                        x.in_bounds(r, c) ==> x.at(r, c) == if c < j {
                            next(r, c)
                        } else {
                            prev(r, c)
                        },
                decreases cols - j,
            {
                let ghost before = x;
                assert(x.in_bounds(c0 as int, j as int));
                let xv = x.entry(c0, j).over(pivot);
                x.set(c0, j, xv);
                proof {
                    assert forall|r: int, c: int| #[trigger] x.in_bounds(r, c) implies x.at(r, c)
                        == if c < j || (c == j && r >= c0) {
                        next(r, c)
                    } else {
                        prev(r, c)
                    } by {
                        assert(before.in_bounds(r, c));
                    }
                }
                let mut ii: usize = 0;
                while ii < c0
                    invariant
                        self.wf(),
                        rows == self.order(),
                        f == grid(self.factors()),
                        m < rows,
                        c0 == rows - 1 - m,
                        ii <= c0,
                        j < cols,
                        x.wf(),
                        x.nrows() == rows,
                        x.ncols() == cols,
                        prev == backward(f, y1, rows as nat, m as nat),
                        next == backward(f, y1, rows as nat, (m + 1) as nat),
                        xv == next(c0 as int, j as int),
                        forall|r: int, c: int| #[trigger]
                            x.in_bounds(r, c) ==> x.at(r, c) == if c < j || (c == j && (r >= c0
                                || r < ii)) {
                                next(r, c)
                            } else {
                                prev(r, c)
                            },
                    decreases c0 - ii,
                {
                    let ghost before = x;
                    assert(x.in_bounds(ii as int, j as int));
                    assert(self.lu.in_bounds(ii as int, c0 as int));
                    let u = self.lu.entry(ii, c0);
                    let v = x.entry(ii, j);
                    x.set(ii, j, v.minus(u.times(xv)));
                    proof {
                        assert forall|r: int, c: int| #[trigger] x.in_bounds(r, c) implies x.at(
                            r,
                            c,
                        ) == if c < j || (c == j && (r >= c0 || r < ii + 1)) {
                            next(r, c)
                        } else {
                            prev(r, c)
                        } by {
                            assert(before.in_bounds(r, c));
                        }
                    }
                    ii = ii + 1;
                }
                j = j + 1;
            }
            m = m + 1;
        }
        Ok(x)
    }
}

impl<T: Scalar> Matrix<T> {
    /// The partial-pivoting LU decomposition of this matrix; fails exactly
    /// when the matrix is not square.
    pub fn partial_piv_lu(&self) -> (r: Result<PartialPivLU<T>, String>)
        requires
            self.wf(),
        ensures
            r is Ok <==> self.nrows() == self.ncols(),
            r matches Ok(d) ==> d.decomposes(*self),
            r matches Err(e) ==> e@ == "LU decomposition requires a square matrix"@,
    {
        PartialPivLU::new(self)
    }

    /// The inverse of a square matrix. A `2 x 2` matrix is inverted by the
    /// adjugate formula and is refused as singular when its determinant
    /// equals zero; every other order is refused as singular when a pivot of
    /// its LU decomposition equals zero, and is otherwise solved against the
    /// identity through that decomposition. Non-square matrices are refused.
    pub fn inverse(&self) -> (r: Result<Matrix<T>, String>)
        requires
            self.wf(),
        ensures
            r is Ok <==> self.nrows() == self.ncols() && !(self.nrows() == 2 && det2(
                *self,
            ).spec_eq(T::spec_from_usize(0))) && !(self.nrows() != 2 && lu_singular(*self)),
            r matches Err(e) ==> e@ == if self.nrows() != self.ncols() {
                "Inverse only defined for square matrices"@
            } else {
                "Matrix is singular"@
            },
            r matches Ok(x) ==> {
                &&& x.wf()
                &&& x.same_shape(self)
                &&& self.nrows() == 2 ==> holds(x, inverse2(*self))
                &&& self.nrows() != 2 ==> {
                    let s = lu_state(grid(*self), self.nrows(), self.nrows());
                    holds(x, lu_solution(s.0, s.1, identity_grid::<T>()))
                }
            },
    {
        let rows = self.rows();
        let cols = self.cols();
        if rows != cols {
            return Err("Inverse only defined for square matrices".to_string());
        }
        let _size = self.size();
        if rows == 2 {
            assert(self.in_bounds(0, 0) && self.in_bounds(0, 1) && self.in_bounds(1, 0)
                && self.in_bounds(1, 1));
            let a00 = self.entry(0, 0);
            let a01 = self.entry(0, 1);
            let a10 = self.entry(1, 0);
            let a11 = self.entry(1, 1);
            let det = a00.times(a11).minus(a10.times(a01));
            if det.is_eq(T::from_usize(0)) {
                return Err("Matrix is singular".to_string());
            }
            let inv_det = T::from_usize(1).over(det);
            let zero = T::from_usize(0);
            let mut res = Matrix::zeros(2, 2);
            let ghost r0 = res;
            res.set(0, 0, a11.times(inv_det));
            let ghost r1 = res;
            res.set(0, 1, zero.minus(a01).times(inv_det));
            let ghost r2 = res;
            res.set(1, 0, zero.minus(a10).times(inv_det));
            let ghost r3 = res;
            res.set(1, 1, a00.times(inv_det));
            proof {
                let g = inverse2(*self);
                assert forall|i: int, j: int| #[trigger] res.in_bounds(i, j) implies res.at(i, j)
                    == g(i, j) by {
                    assert(r3.in_bounds(i, j));
                    assert(r2.in_bounds(i, j));
                    assert(r1.in_bounds(i, j));
                    assert(r0.in_bounds(i, j));
                }
            }
            Ok(res)
        } else {
            let lu = match self.partial_piv_lu() {
                Ok(d) => d,
                Err(e) => return Err(e),
            };
            let ghost st = lu_state(grid(*self), rows as nat, rows as nat);
            let mut i: usize = 0;
            while i < rows
                invariant
                    lu.decomposes(*self),
                    self.wf(),
                    rows == self.nrows(),
                    rows == self.ncols(),
                    rows != 2,
                    st == lu_state(grid(*self), rows as nat, rows as nat),
                    i <= rows,
                    forall|k: int| 0 <= k < i ==> !#[trigger] st.0(k, k).spec_eq(
                        T::spec_from_usize(0),
                    ),
                decreases rows - i,
            {
                assert(lu.lu.in_bounds(i as int, i as int));
                let d = lu.lu.entry(i, i);
                assert(d == st.0(i as int, i as int));
                if d.is_eq(T::from_usize(0)) {
                    assert(lu_singular(*self));
                    return Err("Matrix is singular".to_string());
                }
                i = i + 1;
            }
            let ident = Matrix::identity(rows, cols);
            let r = lu.solve(&ident);
            proof {
                let n = rows as int;
                let g1 = grid(ident);
                let g2 = identity_grid::<T>();
                assert forall|i: int, j: int| 0 <= i < n && 0 <= j < n implies #[trigger] g1(i, j)
                    == g2(i, j) by {
                    assert(ident.in_bounds(i, j));
                }
                let st = lu_state(grid(*self), rows as nat, rows as nat);
                assert forall|i: int, j: int| 0 <= i < n && 0 <= j < n implies #[trigger] grid(
                    lu.factors(),
                )(i, j) == st.0(i, j) by {
                    assert(lu.factors().in_bounds(i, j));
                }
                lemma_lu_solution_local(grid(lu.factors()), st.0, lu.perm(), g1, g2, n);
                if let Ok(x) = &r {
                    assert forall|i: int, j: int| #[trigger] x.in_bounds(i, j) implies x.at(i, j)
                        == lu_solution(st.0, st.1, g2)(i, j) by {
                        assert(lu_solution(grid(lu.factors()), lu.perm(), g1)(i, j) == lu_solution(
                            st.0,
                            st.1,
                            g2,
                        )(i, j));
                    }
                }
            }
            r
        }
    }
}

} // verus!
