//! Symmetrically pivoted `L D L^*` decomposition of a selfadjoint matrix:
//! `P A P^T = L D L^*` with `L` unit lower triangular and `D` diagonal.

use crate::decompositions::llt::{lower_acc, upper_acc};
use crate::decompositions::lu::{grid, holds, is_permutation, permuted, swap_rows};
use crate::matrix::Matrix;
use crate::scalar::Scalar;
use vstd::prelude::*;

verus! {

/// `a` with columns `k` and `r` exchanged.
pub open spec fn swap_cols<T>(a: spec_fn(int, int) -> T, k: int, r: int) -> spec_fn(int, int) -> T {
    |i: int, j: int|
        if j == k {
            a(i, r)
        } else if j == r {
            a(i, k)
        } else {
            a(i, j)
        }
}

/// Scans the diagonal entries `k + 1 .. m` for the first one whose absolute
/// value is strictly larger than that of every entry before it, starting
/// from entry `k`; returns its index and absolute value.
pub open spec fn diag_scan<T: Scalar>(a: spec_fn(int, int) -> T, k: int, m: int) -> (int, T)
    decreases m - k,
{
    if m <= k + 1 {
        (k, a(k, k).spec_abs())
    } else {
        let prev = diag_scan(a, k, m - 1);
        let v = a(m - 1, m - 1).spec_abs();
        if prev.1.spec_lt(v) {
            (m - 1, v)
        } else {
            prev
        }
    }
}

/// `b(i, j) - conj(b(j, 0)) d[0] b(i, 0) - ... - conj(b(j, m-1)) d[m-1] b(i, m-1)`,
/// subtracted in this order.
pub open spec fn ldlt_acc<T: Scalar>(b: spec_fn(int, int) -> T, d: Seq<T>, i: int, j: int, m: nat) -> T
    decreases m,
{
    if m == 0 {
        b(i, j)
    } else {
        let k = m - 1;
        ldlt_acc(b, d, i, j, (m - 1) as nat).spec_minus(
            b(j, k).spec_conj().spec_times(d[k]).spec_times(b(i, k)),
        )
    }
}

/// Step `j`: after the symmetric exchange `b`, column `j` from the diagonal
/// down receives the updates from the previous columns; its diagonal
/// entry becomes `d[j]` and is replaced by one; the entries below are
/// divided by `d[j]` (multiplied by `1 / d[j]`) when `|d[j]|` exceeds the
/// machine epsilon, and set to zero otherwise.
pub open spec fn ldlt_column<T: Scalar>(b: spec_fn(int, int) -> T, d: Seq<T>, j: int) -> spec_fn(
    int,
    int,
) -> T {
    let dj = ldlt_acc(b, d, j, j, j as nat);
    |i: int, c: int|
        if c != j || i < j {
            b(i, c)
        } else if i == j {
            T::spec_from_usize(1)
        } else if T::spec_epsilon().spec_lt(dj.spec_abs()) {
            ldlt_acc(b, d, i, j, j as nat).spec_times(T::spec_from_usize(1).spec_over(dj))
        } else {
            T::spec_from_usize(0)
        }
}

/// Step `j` of an `n x n` decomposition: choose the diagonal pivot, exchange
/// row and column `j` with it (recording the exchange), then compute
/// column `j` and `d[j]`.
pub open spec fn ldlt_step<T: Scalar>(
    s: (spec_fn(int, int) -> T, Seq<T>, Seq<usize>),
    n: nat,
    j: int,
) -> (spec_fn(int, int) -> T, Seq<T>, Seq<usize>) {
    let m = diag_scan(s.0, j, n as int).0;
    let b = if m != j {
        swap_cols(swap_rows(s.0, j, m), j, m)
    } else {
        s.0
    };
    let p = if m != j {
        s.2.update(j, s.2[m]).update(m, s.2[j])
    } else {
        s.2
    };
    (ldlt_column(b, s.1, j), s.1.update(j, ldlt_acc(b, s.1, j, j, j as nat)), p)
}

/// The working matrix, the diagonal `d` and the permutation after the
/// first `k` steps on the `n x n` matrix `a`.
pub open spec fn ldlt_state<T: Scalar>(a: spec_fn(int, int) -> T, n: nat, k: nat) -> (
    spec_fn(int, int) -> T,
    Seq<T>,
    Seq<usize>,
)
    decreases k,
{
    if k == 0 {
        (a, Seq::new(n, |i: int| T::spec_from_usize(0)), Seq::new(n, |i: int| i as usize))
    } else {
        ldlt_step(ldlt_state(a, n, (k - 1) as nat), n, k - 1)
    }
}

/// The factor `L`: the working matrix after all steps with the image of `0`
/// above the diagonal.
pub open spec fn ldlt_factor<T: Scalar>(a: spec_fn(int, int) -> T, n: nat) -> spec_fn(int, int) -> T {
    let s = ldlt_state(a, n, n).0;
    |i: int, c: int|
        if i < c {
            T::spec_from_usize(0)
        } else {
            s(i, c)
        }
}

/// The diagonal scan returns an index in `k .. m` (or `k`).
pub proof fn lemma_diag_scan_range<T: Scalar>(a: spec_fn(int, int) -> T, k: int, m: int)
    ensures
        k <= diag_scan(a, k, m).0,
        m > k ==> diag_scan(a, k, m).0 < m,
    decreases m - k,
{
    if m > k + 1 {
        lemma_diag_scan_range(a, k, m - 1);
    }
}

/// Every step keeps the diagonal of length `n` and the permutation a
/// permutation of `0 .. n`.
pub proof fn lemma_ldlt_shape<T: Scalar>(a: spec_fn(int, int) -> T, n: nat, k: nat)
    requires
        k <= n <= usize::MAX,
    ensures
        ldlt_state(a, n, k).1.len() == n,
        is_permutation(ldlt_state(a, n, k).2, n),
    decreases k,
{
    if k > 0 {
        let km = (k - 1) as nat;
        lemma_ldlt_shape(a, n, km);
        let s = ldlt_state(a, n, km);
        lemma_diag_scan_range(s.0, km as int, n as int);
        let r = diag_scan(s.0, km as int, n as int).0;
        if r != km {
            let p = s.2;
            let q = p.update(km as int, p[r]).update(r, p[km as int]);
            assert(ldlt_state(a, n, k).2 == q);
            assert forall|i: int| 0 <= i < n implies #[trigger] q[i] < n by {
                let si = if i == km { r } else if i == r { km as int } else { i };
                assert(q[i] == p[si]);
            }
            assert forall|i: int, j: int|
                0 <= i < n && 0 <= j < n && i != j implies #[trigger] q[i] != #[trigger] q[j] by {
                let si = if i == km { r } else if i == r { km as int } else { i };
                let sj = if j == km { r } else if j == r { km as int } else { j };
                assert(q[i] == p[si]);
                assert(q[j] == p[sj]);
                assert(si != sj);
            }
        }
    }
}

/// Forward substitution with the unit lower triangle of `l` after the first
/// `t` rows.
pub open spec fn unit_forward<T: Scalar>(l: spec_fn(int, int) -> T, y: spec_fn(int, int) -> T, t: nat) -> spec_fn(
    int,
    int,
) -> T
    decreases t,
{
    if t == 0 {
        y
    } else {
        let prev = unit_forward(l, y, (t - 1) as nat);
        let i0 = t - 1;
        |i: int, j: int|
            if i == i0 {
                lower_acc(l, prev, i0, j, i0 as nat)
            } else {
                prev(i, j)
            }
    }
}

/// Row `i` divided by `d[i]` wherever `|d[i]|` exceeds the machine epsilon.
pub open spec fn diag_divide<T: Scalar>(d: Seq<T>, y: spec_fn(int, int) -> T) -> spec_fn(int, int) -> T {
    |i: int, j: int|
        if T::spec_epsilon().spec_lt(d[i].spec_abs()) {
            y(i, j).spec_over(d[i])
        } else {
            y(i, j)
        }
}

/// Backward substitution with the unit upper triangle of `l^*` of order `n`
/// after the last `m` rows.
pub open spec fn unit_backward<T: Scalar>(
    l: spec_fn(int, int) -> T,
    y: spec_fn(int, int) -> T,
    n: nat,
    m: nat,
) -> spec_fn(int, int) -> T
    decreases m,
{
    if m == 0 {
        y
    } else {
        let prev = unit_backward(l, y, n, (m - 1) as nat);
        let i0 = n - m;
        |i: int, j: int|
            if i == i0 {
                upper_acc(l, prev, i0, j, n as int)
            } else {
                prev(i, j)
            }
    }
}

/// The solution of `A x = b` in the permuted order: `P b`, then forward
/// substitution with `L`, division by `D`, backward substitution with
/// `L^*`. Row `i` of it is row `p[i]` of the solution.
pub open spec fn ldlt_solution<T: Scalar>(
    l: spec_fn(int, int) -> T,
    d: Seq<T>,
    p: Seq<usize>,
    b: spec_fn(int, int) -> T,
) -> spec_fn(int, int) -> T {
    let n = p.len();
    unit_backward(l, diag_divide(d, unit_forward(l, permuted(b, p), n)), n, n)
}

/// A symmetrically pivoted `L D L^*` decomposition.
pub struct LDLT<T> {
    l: Matrix<T>,
    d: Vec<T>,
    p: Vec<usize>,
}

impl<T: Scalar> LDLT<T> {
    /// The unit lower triangular factor `L`.
    pub closed spec fn factor(&self) -> Matrix<T> {
        self.l
    }

    /// The diagonal of `D`.
    pub closed spec fn diagonal(&self) -> Seq<T> {
        self.d@
    }

    /// The permutation: row `i` of `P A P^T` is row `perm()[i]` of `A`.
    pub closed spec fn perm(&self) -> Seq<usize> {
        self.p@
    }

    /// A square factor, a diagonal and a permutation of its order.
    pub open spec fn wf(&self) -> bool {
        &&& self.factor().wf()
        &&& self.factor().nrows() == self.factor().ncols()
        &&& self.diagonal().len() == self.factor().nrows()
        &&& is_permutation(self.perm(), self.factor().nrows())
    }

    /// Computes the decomposition of a square matrix; fails exactly when the
    /// matrix is not square.
    pub fn new(matrix: &Matrix<T>) -> (r: Result<Self, String>)
        requires
            matrix.wf(),
        ensures
            r is Ok <==> matrix.nrows() == matrix.ncols(),
            r matches Ok(dec) ==> {
                let n = matrix.nrows();
                let s = ldlt_state(grid(*matrix), n, n);
                &&& dec.wf()
                &&& dec.factor().nrows() == n
                &&& holds(dec.factor(), ldlt_factor(grid(*matrix), n))
                &&& dec.diagonal() == s.1
                &&& dec.perm() == s.2
            },
            r matches Err(e) ==> e@ == "LDLT decomposition requires a square matrix"@,
    {
        let rows = matrix.rows();
        let cols = matrix.cols();
        if rows != cols {
            return Err("LDLT decomposition requires a square matrix".to_string());
        }
        let n = rows;
        let _size = matrix.size();
        let ghost a0 = grid(*matrix);
        let mut mat = matrix.copy();
        let mut d: Vec<T> = Vec::new();
        let mut p: Vec<usize> = Vec::new();
        let mut i: usize = 0;
        while i < n
            invariant
                i <= n,
                d@.len() == i,
                p@.len() == i,
                forall|q: int| 0 <= q < i ==> #[trigger] d@[q] == T::spec_from_usize(0),
                forall|q: int| 0 <= q < i ==> #[trigger] p@[q] == q as usize,
            decreases n - i,
        {
            d.push(T::from_usize(0));
            p.push(i);
            i = i + 1;
        }
        proof {
            assert(d@ == ldlt_state(a0, n as nat, 0).1);
            assert(p@ == ldlt_state(a0, n as nat, 0).2);
            assert forall|i: int, j: int| #[trigger] mat.in_bounds(i, j) implies mat.at(i, j)
                == a0(i, j) by {}
        }
        let mut j: usize = 0;
        while j < n
            invariant
                j <= n,
                n == matrix.nrows(),
                n == matrix.ncols(),
                a0 == grid(*matrix),
                mat.wf(),
                mat.nrows() == n,
                mat.ncols() == n,
                holds(mat, ldlt_state(a0, n as nat, j as nat).0),
                d@ == ldlt_state(a0, n as nat, j as nat).1,
                p@ == ldlt_state(a0, n as nat, j as nat).2,
            decreases n - j,
        {
            Self::column_step(&mut mat, &mut d, &mut p, j, Ghost(a0));
            j = j + 1;
        }
        // zeros above the diagonal
        let ghost s = ldlt_state(a0, n as nat, n as nat).0;
        let ghost fin = ldlt_factor(a0, n as nat);
        let mut c: usize = 0;
        while c < n
            invariant
                c <= n,
                mat.wf(),
                mat.nrows() == n,
                mat.ncols() == n,
                s == ldlt_state(a0, n as nat, n as nat).0,
                fin == ldlt_factor(a0, n as nat),
                forall|r: int, cc: int| #[trigger]
                    mat.in_bounds(r, cc) ==> mat.at(r, cc) == if cc < c {
                        fin(r, cc)
                    } else {
                        s(r, cc)
                    },
            decreases n - c,
        {
            let mut i: usize = 0;
            while i < c
                invariant
                    c < n,
                    i <= c,
                    mat.wf(),
                    mat.nrows() == n,
                    mat.ncols() == n,
                    s == ldlt_state(a0, n as nat, n as nat).0,
                    fin == ldlt_factor(a0, n as nat),
                    forall|r: int, cc: int| #[trigger]
                        mat.in_bounds(r, cc) ==> mat.at(r, cc) == if cc < c || (cc == c && r < i) {
                            fin(r, cc)
                        } else {
                            s(r, cc)
                        },
                decreases c - i,
            {
                let ghost before = mat;
                mat.set(i, c, T::from_usize(0));
                proof {
                    assert forall|r: int, cc: int| #[trigger] mat.in_bounds(r, cc) implies mat.at(
                        r,
                        cc,
                    ) == if cc < c || (cc == c && r < i + 1) {
                        fin(r, cc)
                    } else {
                        s(r, cc)
                    } by {
                        assert(before.in_bounds(r, cc));
                    }
                }
                i = i + 1;
            }
            c = c + 1;
        }
        proof {
            lemma_ldlt_shape(a0, n as nat, n as nat);
        }
        Ok(LDLT { l: mat, d, p })
    }

    /// Performs step `j` in place.
    fn column_step(
        mat: &mut Matrix<T>,
        d: &mut Vec<T>,
        p: &mut Vec<usize>,
        j: usize,
        Ghost(a0): Ghost<spec_fn(int, int) -> T>,
    )
        requires
            old(mat).wf(),
            old(mat).nrows() == old(mat).ncols(),
            j < old(mat).nrows(),
            holds(*old(mat), ldlt_state(a0, old(mat).nrows(), j as nat).0),
            old(d)@ == ldlt_state(a0, old(mat).nrows(), j as nat).1,
            old(p)@ == ldlt_state(a0, old(mat).nrows(), j as nat).2,
        ensures
            final(mat).wf(),
            final(mat).same_shape(old(mat)),
            holds(*final(mat), ldlt_state(a0, old(mat).nrows(), (j + 1) as nat).0),
            final(d)@ == ldlt_state(a0, old(mat).nrows(), (j + 1) as nat).1,
            final(p)@ == ldlt_state(a0, old(mat).nrows(), (j + 1) as nat).2,
    {
        let n = mat.rows();
        let ghost st = ldlt_state(a0, n as nat, j as nat);
        let ghost g = st.0;
        proof {
            lemma_ldlt_shape(a0, n as nat, j as nat);
            lemma_diag_scan_range(g, j as int, n as int);
        }
        // 1. diagonal pivot search
        assert(mat.in_bounds(j as int, j as int));
        let mut max_idx = j;
        let mut max_val = mat.entry(j, j).abs();
        let mut k = j + 1;
        while k < n
            invariant
                j < k <= n,
                mat.wf(),
                mat.nrows() == n,
                mat.ncols() == n,
                holds(*mat, g),
                (max_idx as int, max_val) == diag_scan(g, j as int, k as int),
            decreases n - k,
        {
            assert(mat.in_bounds(k as int, k as int));
            let v = mat.entry(k, k).abs();
            if max_val.is_lt(v) {
                max_val = v;
                max_idx = k;
            }
            k = k + 1;
        }
        let ghost h = if max_idx != j {
            swap_cols(swap_rows(g, j as int, max_idx as int), j as int, max_idx as int)
        } else {
            g
        };
        // 2. symmetric exchange of rows and columns
        if max_idx != j {
            let pj = p[j];
            let pm = p[max_idx];
            p.set(j, pm);
            p.set(max_idx, pj);
            let ghost h1 = swap_rows(g, j as int, max_idx as int);
            let mut c: usize = 0;
            while c < n
                invariant
                    j < n,
                    max_idx < n,
                    max_idx != j,
                    c <= n,
                    mat.wf(),
                    mat.nrows() == n,
                    mat.ncols() == n,
                    h1 == swap_rows(g, j as int, max_idx as int),
                    forall|r: int, cc: int| #[trigger]
                        mat.in_bounds(r, cc) ==> mat.at(r, cc) == if cc < c {
                            h1(r, cc)
                        } else {
                            g(r, cc)
                        },
                decreases n - c,
            {
                let ghost before = mat;
                assert(mat.in_bounds(j as int, c as int));
                assert(mat.in_bounds(max_idx as int, c as int));
                let a = mat.entry(j, c);
                let b = mat.entry(max_idx, c);
                mat.set(j, c, b);
                let ghost mid = mat;
                mat.set(max_idx, c, a);
                proof {
                    assert forall|r: int, cc: int| #[trigger] mat.in_bounds(r, cc) implies mat.at(
                        r,
                        cc,
                    ) == if cc < c + 1 {
                        h1(r, cc)
                    } else {
                        g(r, cc)
                    } by {
                        assert(mid.in_bounds(r, cc));
                        assert(before.in_bounds(r, cc));
                    }
                }
                c = c + 1;
            }
            let mut r: usize = 0;
            while r < n
                invariant
                    j < n,
                    max_idx < n,
                    max_idx != j,
                    r <= n,
                    mat.wf(),
                    mat.nrows() == n,
                    mat.ncols() == n,
                    h1 == swap_rows(g, j as int, max_idx as int),
                    h == swap_cols(h1, j as int, max_idx as int),
                    forall|rr: int, cc: int| #[trigger]
                        mat.in_bounds(rr, cc) ==> mat.at(rr, cc) == if rr < r {
                            h(rr, cc)
                        } else {
                            h1(rr, cc)
                        },
                decreases n - r,
            {
                let ghost before = mat;
                assert(mat.in_bounds(r as int, j as int));
                assert(mat.in_bounds(r as int, max_idx as int));
                let a = mat.entry(r, j);
                let b = mat.entry(r, max_idx);
                mat.set(r, j, b);
                let ghost mid = mat;
                mat.set(r, max_idx, a);
                proof {
                    assert forall|rr: int, cc: int| #[trigger] mat.in_bounds(rr, cc) implies mat.at(
                        rr,
                        cc,
                    ) == if rr < r + 1 {
                        h(rr, cc)
                    } else {
                        h1(rr, cc)
                    } by {
                        assert(mid.in_bounds(rr, cc));
                        assert(before.in_bounds(rr, cc));
                    }
                }
                r = r + 1;
            }
        }
        assert(holds(*mat, h));
        // 3. updates of column j from the previous columns
        let mut k: usize = 0;
        while k < j
            invariant
                j < n,
                k <= j,
                mat.wf(),
                mat.nrows() == n,
                mat.ncols() == n,
                d@ == st.1,
                d@.len() == n,
                forall|r: int, c: int| #[trigger]
                    mat.in_bounds(r, c) ==> mat.at(r, c) == if c == j && r >= j {
                        ldlt_acc(h, st.1, r, j as int, k as nat)
                    } else {
                        h(r, c)
                    },
            decreases j - k,
        {
            assert(mat.in_bounds(j as int, k as int));
            let val = mat.entry(j, k).conj().times(d[k]);
            let mut i = j;
            while i < n
                invariant
                    j < n,
                    k < j,
                    j <= i <= n,
                    mat.wf(),
                    mat.nrows() == n,
                    mat.ncols() == n,
                    d@ == st.1,
                    d@.len() == n,
                    val == h(j as int, k as int).spec_conj().spec_times(st.1[k as int]),
                    forall|r: int, c: int| #[trigger]
                        mat.in_bounds(r, c) ==> mat.at(r, c) == if c == j && r >= j {
                            if r < i {
                                ldlt_acc(h, st.1, r, j as int, (k + 1) as nat)
                            } else {
                                ldlt_acc(h, st.1, r, j as int, k as nat)
                            }
                        } else {
                            h(r, c)
                        },
                decreases n - i,
            {
                let ghost before = mat;
                assert(mat.in_bounds(i as int, j as int));
                assert(mat.in_bounds(i as int, k as int));
                let x = mat.entry(i, j);
                let y = mat.entry(i, k);
                mat.set(i, j, x.minus(val.times(y)));
                proof {
                    assert forall|r: int, c: int| #[trigger] mat.in_bounds(r, c) implies mat.at(r, c)
                        == if c == j && r >= j {
                        if r < i + 1 {
                            ldlt_acc(h, st.1, r, j as int, (k + 1) as nat)
                        } else {
                            ldlt_acc(h, st.1, r, j as int, k as nat)
                        }
                    } else {
                        h(r, c)
                    } by {
                        assert(before.in_bounds(r, c));
                    }
                }
                i = i + 1;
            }
            k = k + 1;
        }
        // 4. the diagonal entry and the scaling below it
        let ghost next = ldlt_column(h, st.1, j as int);
        assert(mat.in_bounds(j as int, j as int));
        let dj = mat.entry(j, j);
        d.set(j, dj);
        let ghost before = *mat;
        mat.set(j, j, T::from_usize(1));
        proof {
            assert forall|r: int, c: int| #[trigger] mat.in_bounds(r, c) implies mat.at(r, c)
                == if c == j && r > j {
                ldlt_acc(h, st.1, r, j as int, j as nat)
            } else {
                next(r, c)
            } by {
                assert(before.in_bounds(r, c));
            }
        }
        if T::epsilon().is_lt(dj.abs()) {
            let inv_dj = T::from_usize(1).over(dj);
            let mut i = j + 1;
            while i < n
                invariant
                    j < i <= n,
                    mat.wf(),
                    mat.nrows() == n,
                    mat.ncols() == n,
                    dj == ldlt_acc(h, st.1, j as int, j as int, j as nat),
                    T::spec_epsilon().spec_lt(dj.spec_abs()),
                    inv_dj == T::spec_from_usize(1).spec_over(dj),
                    next == ldlt_column(h, st.1, j as int),
                    forall|r: int, c: int| #[trigger]
                        mat.in_bounds(r, c) ==> mat.at(r, c) == if c == j && r >= i {
                            ldlt_acc(h, st.1, r, j as int, j as nat)
                        } else {
                            next(r, c)
                        },
                decreases n - i,
            {
                let ghost before = *mat;
                assert(mat.in_bounds(i as int, j as int));
                let v = mat.entry(i, j);
                mat.set(i, j, v.times(inv_dj));
                proof {
                    assert forall|r: int, c: int| #[trigger] mat.in_bounds(r, c) implies mat.at(r, c)
                        == if c == j && r >= i + 1 {
                        ldlt_acc(h, st.1, r, j as int, j as nat)
                    } else {
                        next(r, c)
                    } by {
                        assert(before.in_bounds(r, c));
                    }
                }
                i = i + 1;
            }
        } else {
            let mut i = j + 1;
            while i < n
                invariant
                    j < i <= n,
                    mat.wf(),
                    mat.nrows() == n,
                    mat.ncols() == n,
                    dj == ldlt_acc(h, st.1, j as int, j as int, j as nat),
                    !T::spec_epsilon().spec_lt(dj.spec_abs()),
                    next == ldlt_column(h, st.1, j as int),
                    forall|r: int, c: int| #[trigger]
                        mat.in_bounds(r, c) ==> mat.at(r, c) == if c == j && r >= i {
                            ldlt_acc(h, st.1, r, j as int, j as nat)
                        } else {
                            next(r, c)
                        },
                decreases n - i,
            {
                let ghost before = *mat;
                mat.set(i, j, T::from_usize(0));
                proof {
                    assert forall|r: int, c: int| #[trigger] mat.in_bounds(r, c) implies mat.at(r, c)
                        == if c == j && r >= i + 1 {
                        ldlt_acc(h, st.1, r, j as int, j as nat)
                    } else {
                        next(r, c)
                    } by {
                        assert(before.in_bounds(r, c));
                    }
                }
                i = i + 1;
            }
        }
        proof {
            assert(ldlt_state(a0, n as nat, (j + 1) as nat) == ldlt_step(st, n as nat, j as int));
            assert(holds(*mat, next));
        }
    }

    /// The factor `L`.
    pub fn matrix_l(&self) -> (r: &Matrix<T>)
        ensures
            *r == self.factor(),
    {
        &self.l
    }

    /// The diagonal of `D`.
    pub fn vector_d(&self) -> (r: &[T])
        ensures
            r@ == self.diagonal(),
    {
        self.d.as_slice()
    }

    /// The permutation.
    pub fn permutation(&self) -> (r: &[usize])
        ensures
            r@ == self.perm(),
    {
        self.p.as_slice()
    }

    /// Solves `A x = b`; fails exactly when `b` does not have as many rows
    /// as `A`. Row `perm()[i]` of the solution is row `i` of
    /// `ldlt_solution`.
    pub fn solve(&self, b: &Matrix<T>) -> (r: Result<Matrix<T>, String>)
        requires
            self.wf(),
            b.wf(),
        ensures
            r is Ok <==> b.nrows() == self.factor().nrows(),
            r matches Ok(x) ==> {
                let z = ldlt_solution(grid(self.factor()), self.diagonal(), self.perm(), grid(*b));
                &&& x.wf()
                &&& x.same_shape(b)
                &&& forall|i: int, j: int|
                    0 <= i < x.nrows() && 0 <= j < x.ncols() ==> #[trigger] x.at(
                        self.perm()[i] as int,
                        j,
                    ) == z(i, j)
            },
            r matches Err(e) ==> e@ == "Dimension mismatch in LDLT solve"@,
    {
        let rows = self.l.rows();
        if b.rows() != rows {
            return Err("Dimension mismatch in LDLT solve".to_string());
        }
        let cols = b.cols();
        let _size = b.size();
        let ghost f = grid(self.factor());
        let ghost y0 = permuted(grid(*b), self.perm());
        let mut x = Matrix::zeros(rows, cols);
        // 1. x = P b
        let mut i: usize = 0;
        while i < rows
            invariant
                self.wf(),
                rows == self.factor().nrows(),
                b.wf(),
                b.nrows() == rows,
                b.ncols() == cols,
                y0 == permuted(grid(*b), self.perm()),
                i <= rows,
                x.wf(),
                x.nrows() == rows,
                x.ncols() == cols,
                forall|r: int, c: int| #[trigger] x.in_bounds(r, c) && r < i ==> x.at(r, c) == y0(r, c),
            decreases rows - i,
        {
            let pi = self.p[i];
            let mut j: usize = 0;
            while j < cols
                invariant
                    self.wf(),
                    rows == self.factor().nrows(),
                    b.wf(),
                    b.nrows() == rows,
                    b.ncols() == cols,
                    y0 == permuted(grid(*b), self.perm()),
                    i < rows,
                    pi == self.perm()[i as int],
                    pi < rows,
                    j <= cols,
                    x.wf(),
                    x.nrows() == rows,
                    x.ncols() == cols,
                    forall|r: int, c: int| #[trigger]
                        x.in_bounds(r, c) && (r < i || (r == i && c < j)) ==> x.at(r, c) == y0(r, c),
                decreases cols - j,
            {
                let ghost before = x;
                assert(b.in_bounds(pi as int, j as int));
                let v = b.entry(pi, j);
                x.set(i, j, v);
                proof {
                    assert forall|r: int, c: int| #[trigger]
                        x.in_bounds(r, c) && (r < i || (r == i && c < j + 1)) implies x.at(r, c)
                        == y0(r, c) by {
                        assert(before.in_bounds(r, c));
                    }
                }
                j = j + 1;
            }
            i = i + 1;
        }
        proof {
            assert forall|r: int, c: int| #[trigger] x.in_bounds(r, c) implies x.at(r, c) == y0(
                r,
                c,
            ) by {}
        }
        // 2. forward substitution with the unit lower triangle
        let mut i: usize = 0;
        while i < rows
            invariant
                self.wf(),
                rows == self.factor().nrows(),
                f == grid(self.factor()),
                i <= rows,
                x.wf(),
                x.nrows() == rows,
                x.ncols() == cols,
                holds(x, unit_forward(f, y0, i as nat)),
            decreases rows - i,
        {
            let ghost prev = unit_forward(f, y0, i as nat);
            let ghost next = unit_forward(f, y0, (i + 1) as nat);
            let mut j: usize = 0;
            while j < cols
                invariant
                    self.wf(),
                    rows == self.factor().nrows(),
                    f == grid(self.factor()),
                    i < rows,
                    j <= cols,
                    x.wf(),
                    x.nrows() == rows,
                    x.ncols() == cols,
                    prev == unit_forward(f, y0, i as nat),
                    next == unit_forward(f, y0, (i + 1) as nat),
                    forall|r: int, c: int| #[trigger]
                        x.in_bounds(r, c) ==> x.at(r, c) == if r == i && c < j {
                            next(r, c)
                        } else {
                            prev(r, c)
                        },
                decreases cols - j,
            {
                assert(x.in_bounds(i as int, j as int));
                let mut val = x.entry(i, j);
                let mut k: usize = 0;
                while k < i
                    invariant
                        self.wf(),
                        rows == self.factor().nrows(),
                        f == grid(self.factor()),
                        i < rows,
                        j < cols,
                        k <= i,
                        x.wf(),
                        x.nrows() == rows,
                        x.ncols() == cols,
                        forall|r: int, c: int| #[trigger]
                            x.in_bounds(r, c) ==> x.at(r, c) == if r == i && c < j {
                                next(r, c)
                            } else {
                                prev(r, c)
                            },
                        val == lower_acc(f, prev, i as int, j as int, k as nat),
                    decreases i - k,
                {
                    assert(self.l.in_bounds(i as int, k as int));
                    assert(x.in_bounds(k as int, j as int));
                    val = val.minus(self.l.entry(i, k).times(x.entry(k, j)));
                    k = k + 1;
                }
                let ghost before = x;
                x.set(i, j, val);
                proof {
                    assert forall|r: int, c: int| #[trigger] x.in_bounds(r, c) implies x.at(r, c)
                        == if r == i && c < j + 1 {
                        next(r, c)
                    } else {
                        prev(r, c)
                    } by {
                        assert(before.in_bounds(r, c));
                    }
                }
                j = j + 1;
            }
            i = i + 1;
        }
        // 3. division by the diagonal
        let ghost y1 = unit_forward(f, y0, rows as nat);
        let ghost y2 = diag_divide(self.diagonal(), y1);
        let eps = T::epsilon();
        let mut i: usize = 0;
        while i < rows
            invariant
                self.wf(),
                rows == self.factor().nrows(),
                eps == T::spec_epsilon(),
                y2 == diag_divide(self.diagonal(), y1),
                i <= rows,
                x.wf(),
                x.nrows() == rows,
                x.ncols() == cols,
                forall|r: int, c: int| #[trigger]
                    x.in_bounds(r, c) ==> x.at(r, c) == if r < i {
                        y2(r, c)
                    } else {
                        y1(r, c)
                    },
            decreases rows - i,
        {
            let di = self.d[i];
            if eps.is_lt(di.abs()) {
                let mut j: usize = 0;
                while j < cols
                    invariant
                        self.wf(),
                        rows == self.factor().nrows(),
                        y2 == diag_divide(self.diagonal(), y1),
                        i < rows,
                        di == self.diagonal()[i as int],
                        T::spec_epsilon().spec_lt(di.spec_abs()),
                        j <= cols,
                        x.wf(),
                        x.nrows() == rows,
                        x.ncols() == cols,
                        forall|r: int, c: int| #[trigger]
                            x.in_bounds(r, c) ==> x.at(r, c) == if r < i || (r == i && c < j) {
                                y2(r, c)
                            } else {
                                y1(r, c)
                            },
                    decreases cols - j,
                {
                    let ghost before = x;
                    assert(x.in_bounds(i as int, j as int));
                    let v = x.entry(i, j);
                    x.set(i, j, v.over(di));
                    proof {
                        assert forall|r: int, c: int| #[trigger] x.in_bounds(r, c) implies x.at(
                            r,
                            c,
                        ) == if r < i || (r == i && c < j + 1) {
                            y2(r, c)
                        } else {
                            y1(r, c)
                        } by {
                            assert(before.in_bounds(r, c));
                        }
                    }
                    j = j + 1;
                }
            }
            i = i + 1;
        }
        // 4. backward substitution with the unit upper triangle
        let mut m: usize = 0;
        while m < rows
            invariant
                self.wf(),
                rows == self.factor().nrows(),
                f == grid(self.factor()),
                m <= rows,
                x.wf(),
                x.nrows() == rows,
                x.ncols() == cols,
                holds(x, unit_backward(f, y2, rows as nat, m as nat)),
            decreases rows - m,
        {
            let i = rows - 1 - m;
            let ghost prev = unit_backward(f, y2, rows as nat, m as nat);
            let ghost next = unit_backward(f, y2, rows as nat, (m + 1) as nat);
            let mut j: usize = 0;
            while j < cols
                invariant
                    self.wf(),
                    rows == self.factor().nrows(),
                    f == grid(self.factor()),
                    m < rows,
                    i == rows - 1 - m,
                    j <= cols,
                    x.wf(),
                    x.nrows() == rows,
                    x.ncols() == cols,
                    prev == unit_backward(f, y2, rows as nat, m as nat),
                    next == unit_backward(f, y2, rows as nat, (m + 1) as nat),
                    forall|r: int, c: int| #[trigger]
                        x.in_bounds(r, c) ==> x.at(r, c) == if r == i && c < j {
                            next(r, c)
                        } else {
                            prev(r, c)
                        },
                decreases cols - j,
            {
                assert(x.in_bounds(i as int, j as int));
                let mut val = x.entry(i, j);
                let mut k = i + 1;
                while k < rows
                    invariant
                        self.wf(),
                        rows == self.factor().nrows(),
                        f == grid(self.factor()),
                        i < k <= rows,
                        j < cols,
                        x.wf(),
                        x.nrows() == rows,
                        x.ncols() == cols,
                        forall|r: int, c: int| #[trigger]
                            x.in_bounds(r, c) ==> x.at(r, c) == if r == i && c < j {
                                next(r, c)
                            } else {
                                prev(r, c)
                            },
                        val == upper_acc(f, prev, i as int, j as int, k as int),
                    decreases rows - k,
                {
                    assert(self.l.in_bounds(k as int, i as int));
                    assert(x.in_bounds(k as int, j as int));
                    val = val.minus(self.l.entry(k, i).conj().times(x.entry(k, j)));
                    k = k + 1;
                }
                let ghost before = x;
                x.set(i, j, val);
                proof {
                    assert forall|r: int, c: int| #[trigger] x.in_bounds(r, c) implies x.at(r, c)
                        == if r == i && c < j + 1 {
                        next(r, c)
                    } else {
                        prev(r, c)
                    } by {
                        assert(before.in_bounds(r, c));
                    }
                }
                j = j + 1;
            }
            m = m + 1;
        }
        // 5. undo the permutation
        let ghost z = unit_backward(f, y2, rows as nat, rows as nat);
        assert(z == ldlt_solution(grid(self.factor()), self.diagonal(), self.perm(), grid(*b)));
        let mut result = Matrix::zeros(rows, cols);
        let mut i: usize = 0;
        while i < rows
            invariant
                self.wf(),
                rows == self.factor().nrows(),
                i <= rows,
                x.wf(),
                x.nrows() == rows,
                x.ncols() == cols,
                holds(x, z),
                result.wf(),
                result.nrows() == rows,
                result.ncols() == cols,
                forall|ii: int, c: int|
                    0 <= ii < i && 0 <= c < cols ==> #[trigger] result.at(self.perm()[ii] as int, c)
                        == z(ii, c),
            decreases rows - i,
        {
            let dest = self.p[i];
            let mut j: usize = 0;
            while j < cols
                invariant
                    self.wf(),
                    rows == self.factor().nrows(),
                    i < rows,
                    dest == self.perm()[i as int],
                    dest < rows,
                    j <= cols,
                    x.wf(),
                    x.nrows() == rows,
                    x.ncols() == cols,
                    holds(x, z),
                    result.wf(),
                    result.nrows() == rows,
                    result.ncols() == cols,
                    forall|ii: int, c: int|
                        0 <= ii < i && 0 <= c < cols ==> #[trigger] result.at(self.perm()[ii] as int, c)
                            == z(ii, c),
                    forall|c: int| 0 <= c < j ==> #[trigger] result.at(dest as int, c) == z(i as int, c),
                decreases cols - j,
            {
                let ghost before = result;
                assert(x.in_bounds(i as int, j as int));
                let v = x.entry(i, j);
                result.set(dest, j, v);
                proof {
                    assert forall|ii: int, c: int|
                        0 <= ii < i && 0 <= c < cols implies #[trigger] result.at(
                        self.perm()[ii] as int,
                        c,
                    ) == z(ii, c) by {
                        assert(self.perm()[ii] != self.perm()[i as int]);
                        assert(before.in_bounds(self.perm()[ii] as int, c));
                        assert(result.in_bounds(self.perm()[ii] as int, c));
                    }
                    assert forall|c: int| 0 <= c < j + 1 implies #[trigger] result.at(dest as int, c)
                        == z(i as int, c) by {
                        assert(before.in_bounds(dest as int, c));
                        assert(result.in_bounds(dest as int, c));
                    }
                }
                j = j + 1;
            }
            i = i + 1;
        }
        Ok(result)
    }
}

impl<T: Scalar> Matrix<T> {
    /// The `L D L^*` decomposition of this matrix (see `LDLT::new`).
    pub fn ldlt(&self) -> (r: Result<LDLT<T>, String>)
        requires
            self.wf(),
        ensures
            r is Ok <==> self.nrows() == self.ncols(),
            r matches Ok(dec) ==> {
                let n = self.nrows();
                let s = ldlt_state(grid(*self), n, n);
                &&& dec.wf()
                &&& dec.factor().nrows() == n
                &&& holds(dec.factor(), ldlt_factor(grid(*self), n))
                &&& dec.diagonal() == s.1
                &&& dec.perm() == s.2
            },
            r matches Err(e) ==> e@ == "LDLT decomposition requires a square matrix"@,
    {
        LDLT::new(self)
    }
}

} // verus!
