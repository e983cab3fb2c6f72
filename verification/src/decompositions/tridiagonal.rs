//! Tridiagonal decomposition `A = Q T Q^*` of a selfadjoint matrix.
//!
//! Only the lower triangle of the matrix is read. Step `i` builds the
//! Householder vector of column `i` below the subdiagonal, applies the
//! similarity transformation to the trailing lower triangle by a rank-two
//! update, and stores the subdiagonal entry.

use crate::decompositions::lu::{grid, holds};
use crate::decompositions::qr::reflect;
use crate::matrix::Matrix;
use crate::scalar::Scalar;
use vstd::prelude::*;

verus! {

/// `b(i+1, i)^2 + ... + b(m-1, i)^2`, accumulated from zero.
pub open spec fn tri_norm_sq<T: Scalar>(b: spec_fn(int, int) -> T, i: int, m: int) -> T
    decreases m - i,
{
    if m <= i + 1 {
        T::spec_zero()
    } else {
        tri_norm_sq(b, i, m - 1).spec_plus(b(m - 1, i).spec_times(b(m - 1, i)))
    }
}

/// `-norm` when `v0` is at least zero, `norm` otherwise.
pub open spec fn tri_beta<T: Scalar>(v0: T, norm: T) -> T {
    if T::spec_zero().spec_le(v0) {
        norm.spec_negate()
    } else {
        norm
    }
}

/// Column `i` below the subdiagonal multiplied by `1 / (v0 - beta)`.
pub open spec fn tri_scaled<T: Scalar>(b: spec_fn(int, int) -> T, i: int, beta: T) -> spec_fn(
    int,
    int,
) -> T {
    let inv = b(i + 1, i).spec_minus(beta).spec_recip();
    |r: int, c: int|
        if c == i && r >= i + 2 {
            b(r, i).spec_times(inv)
        } else {
            b(r, c)
        }
}

/// Entry `r` of the Householder vector of step `i`: one, then the scaled
/// entries of column `i`.
pub open spec fn tri_v<T: Scalar>(s: spec_fn(int, int) -> T, i: int, r: int) -> T {
    if r == 0 {
        T::spec_from_usize(1)
    } else {
        s(r + i + 1, i)
    }
}

/// Entry `(r, c)` of the trailing block of step `i`, read from the lower
/// triangle.
pub open spec fn tri_sym<T: Scalar>(s: spec_fn(int, int) -> T, i: int, r: int, c: int) -> T {
    if r >= c {
        s(r + i + 1, c + i + 1)
    } else {
        s(c + i + 1, r + i + 1)
    }
}

/// `sym(row, 0) v(0) + ... + sym(row, m-1) v(m-1)`, accumulated from zero.
pub open spec fn tri_av<T: Scalar>(s: spec_fn(int, int) -> T, i: int, row: int, m: int) -> T
    decreases m,
{
    if m <= 0 {
        T::spec_zero()
    } else {
        tri_av(s, i, row, m - 1).spec_plus(tri_sym(s, i, row, m - 1).spec_times(tri_v(s, i, m - 1)))
    }
}

/// `h (A v)[row]` over the trailing block of size `rs`.
pub open spec fn tri_w0<T: Scalar>(s: spec_fn(int, int) -> T, i: int, rs: int, h: T, row: int) -> T {
    h.spec_times(tri_av(s, i, row, rs))
}

/// `v(0) w0(0) + ... + v(m-1) w0(m-1)`, accumulated from zero.
pub open spec fn tri_vtw<T: Scalar>(s: spec_fn(int, int) -> T, i: int, rs: int, h: T, m: int) -> T
    decreases m,
{
    if m <= 0 {
        T::spec_zero()
    } else {
        tri_vtw(s, i, rs, h, m - 1).spec_plus(tri_v(s, i, m - 1).spec_times(tri_w0(s, i, rs, h, m - 1)))
    }
}

/// `w0(row) - (h (v . w0) / 2) v(row)`, the factor one half written as
/// `1 / 2`.
pub open spec fn tri_p<T: Scalar>(s: spec_fn(int, int) -> T, i: int, rs: int, h: T, row: int) -> T {
    let half = T::spec_from_usize(1).spec_over(T::spec_from_usize(2));
    let scale = h.spec_times(tri_vtw(s, i, rs, h, rs)).spec_times(half);
    tri_w0(s, i, rs, h, row).spec_minus(scale.spec_times(tri_v(s, i, row)))
}

/// Step `i` of the reduction of an `n x n` matrix: returns the new working
/// matrix and the coefficient `h` (zero when the column below the
/// subdiagonal has norm zero, in which case nothing changes).
pub open spec fn tri_step<T: Scalar>(b: spec_fn(int, int) -> T, n: int, i: int) -> (
    spec_fn(int, int) -> T,
    T,
) {
    let norm = tri_norm_sq(b, i, n).spec_sqrt();
    if norm.spec_eq(T::spec_zero()) {
        (b, T::spec_zero())
    } else {
        let v0 = b(i + 1, i);
        let beta = tri_beta(v0, norm);
        let s = tri_scaled(b, i, beta);
        let h = v0.spec_abs().spec_plus(norm).spec_over(norm);
        let rs = n - i - 1;
        (
            |r: int, c: int|
                if r == i + 1 && c == i {
                    beta
                } else if i + 1 <= c && c <= r && r < n {
                    let row = r - i - 1;
                    let col = c - i - 1;
                    s(r, c).spec_minus(
                        tri_v(s, i, row).spec_times(tri_p(s, i, rs, h, col)).spec_plus(
                            tri_p(s, i, rs, h, row).spec_times(tri_v(s, i, col)),
                        ),
                    )
                } else {
                    s(r, c)
                },
            h,
        )
    }
}

/// The working matrix and coefficients after the first `k` steps on the
/// `n x n` matrix `a` (`len` coefficients, all zero at first).
pub open spec fn tri_state<T: Scalar>(a: spec_fn(int, int) -> T, n: int, len: nat, k: nat) -> (
    spec_fn(int, int) -> T,
    Seq<T>,
)
    decreases k,
{
    if k == 0 {
        (a, Seq::new(len, |q: int| T::spec_zero()))
    } else {
        let prev = tri_state(a, n, len, (k - 1) as nat);
        let st = tri_step(prev.0, n, k - 1);
        (st.0, prev.1.update(k - 1, st.1))
    }
}

/// The coefficients keep their number at every step.
pub proof fn lemma_tri_coeffs_len<T: Scalar>(a: spec_fn(int, int) -> T, n: int, len: nat, k: nat)
    requires
        k <= len,
    ensures
        tri_state(a, n, len, k).1.len() == len,
    decreases k,
{
    if k > 0 {
        lemma_tri_coeffs_len(a, n, len, (k - 1) as nat);
    }
}

/// The vector of step `i` seen as column `i + 1` of a grid, so that the
/// reflections of `qr` apply: `w(r, i + 1) = packed(r, i)`.
pub open spec fn shifted<T>(p: spec_fn(int, int) -> T) -> spec_fn(int, int) -> T {
    |r: int, c: int| p(r, c - 1)
}

/// `Q` built from the identity (the image of `1` on the diagonal, zero
/// elsewhere) by applying the last `m` of the `n - 1` reflections in
/// reverse order, each to the columns right of its pivot; a reflection
/// whose coefficient equals zero is skipped.
pub open spec fn tri_q<T: Scalar>(p: spec_fn(int, int) -> T, h: Seq<T>, n: int, m: nat) -> spec_fn(
    int,
    int,
) -> T
    decreases m,
{
    if m == 0 {
        |i: int, j: int|
            if i == j {
                T::spec_from_usize(1)
            } else {
                T::spec_zero()
            }
    } else {
        let prev = tri_q(p, h, n, (m - 1) as nat);
        let i = n - 1 - m;
        if h[i].spec_eq(T::spec_zero()) {
            prev
        } else {
            reflect(shifted(p), h[i], prev, i + 1, n, i + 1, false)
        }
    }
}

/// A tridiagonal decomposition.
pub struct Tridiagonalization<T> {
    packed_matrix: Matrix<T>,
    h_coeffs: Vec<T>,
}

impl<T: Scalar> Tridiagonalization<T> {
    /// The compact working matrix.
    pub closed spec fn packed(&self) -> Matrix<T> {
        self.packed_matrix
    }

    /// The Householder coefficients.
    pub closed spec fn coeffs(&self) -> Seq<T> {
        self.h_coeffs@
    }

    /// A square working matrix and `max(n - 1, 1)` coefficients.
    pub open spec fn wf(&self) -> bool {
        &&& self.packed().wf()
        &&& self.packed().nrows() == self.packed().ncols()
        &&& self.coeffs().len() == if self.packed().nrows() > 1 {
            self.packed().nrows() - 1
        } else {
            1
        }
    }

    /// Computes the decomposition of a square matrix (reading its lower
    /// triangle); fails exactly when the matrix is not square.
    pub fn new(matrix: &Matrix<T>) -> (r: Result<Self, String>)
        requires
            matrix.wf(),
        ensures
            r is Ok <==> matrix.nrows() == matrix.ncols(),
            r matches Ok(d) ==> {
                let n = matrix.nrows();
                let len = d.coeffs().len();
                let st = tri_state(grid(*matrix), n as int, len, if n > 1 {
                    (n - 1) as nat
                } else {
                    0
                });
                &&& d.wf()
                &&& d.packed().nrows() == n
                &&& holds(d.packed(), st.0)
                &&& d.coeffs() == st.1
            },
            r matches Err(e) ==> e@ == "Tridiagonalization requires a square matrix"@,
    {
        let n = matrix.rows();
        if n != matrix.cols() {
            return Err("Tridiagonalization requires a square matrix".to_string());
        }
        let _size = matrix.size();
        let ghost a0 = grid(*matrix);
        let mut packed = matrix.copy();
        let len: usize = if n > 1 {
            n - 1
        } else {
            1
        };
        let mut h: Vec<T> = Vec::new();
        let mut q: usize = 0;
        while q < len
            invariant
                q <= len,
                h@.len() == q,
                forall|t: int| 0 <= t < q ==> #[trigger] h@[t] == T::spec_zero(),
            decreases len - q,
        {
            h.push(T::zero());
            q = q + 1;
        }
        proof {
            assert(h@ == tri_state(a0, n as int, len as nat, 0).1);
            assert forall|i: int, j: int| #[trigger] packed.in_bounds(i, j) implies packed.at(i, j)
                == a0(i, j) by {}
        }
        let steps: usize = if n > 1 {
            n - 1
        } else {
            0
        };
        let mut i: usize = 0;
        while i < steps
            invariant
                i <= steps,
                steps == if n > 1 {
                    n - 1
                } else {
                    0
                },
                len == if n > 1 {
                    n - 1
                } else {
                    1
                },
                n == matrix.nrows(),
                a0 == grid(*matrix),
                packed.wf(),
                packed.nrows() == n,
                packed.ncols() == n,
                holds(packed, tri_state(a0, n as int, len as nat, i as nat).0),
                h@ == tri_state(a0, n as int, len as nat, i as nat).1,
            decreases steps - i,
        {
            proof {
                lemma_tri_coeffs_len(a0, n as int, len as nat, i as nat);
            }
            Self::reduction_step(&mut packed, &mut h, i, Ghost(a0), Ghost(len as nat));
            i = i + 1;
        }
        proof {
            if n > 1 {
                lemma_tri_coeffs_len(a0, n as int, len as nat, steps as nat);
            }
        }
        Ok(Tridiagonalization { packed_matrix: packed, h_coeffs: h })
    }

    /// Performs step `i` in place.
    fn reduction_step(
        a: &mut Matrix<T>,
        h: &mut Vec<T>,
        i: usize,
        Ghost(a0): Ghost<spec_fn(int, int) -> T>,
        Ghost(len): Ghost<nat>,
    )
        requires
            old(a).wf(),
            old(a).nrows() == old(a).ncols(),
            i + 1 < old(a).nrows(),
            i < old(h)@.len(),
            old(h)@.len() == len,
            holds(*old(a), tri_state(a0, old(a).nrows() as int, len, i as nat).0),
            old(h)@ == tri_state(a0, old(a).nrows() as int, len, i as nat).1,
        ensures
            final(a).wf(),
            final(a).same_shape(old(a)),
            holds(*final(a), tri_state(a0, old(a).nrows() as int, len, (i + 1) as nat).0),
            final(h)@ == tri_state(a0, old(a).nrows() as int, len, (i + 1) as nat).1,
    {
        let n = a.rows();
        let ghost b = tri_state(a0, n as int, len, i as nat).0;
        // 1. norm of column i below the diagonal
        let mut norm_sq = T::zero();
        let mut k = i + 1;
        while k < n
            invariant
                i < k <= n,
                a.wf(),
                a.nrows() == n,
                a.ncols() == n,
                holds(*a, b),
                norm_sq == tri_norm_sq(b, i as int, k as int),
            decreases n - k,
        {
            assert(a.in_bounds(k as int, i as int));
            let val = a.entry(k, i);
            norm_sq = norm_sq.plus(val.times(val));
            k = k + 1;
        }
        let norm = norm_sq.sqrt();
        if norm.is_eq(T::zero()) {
            h.set(i, T::zero());
            return;
        }
        assert(a.in_bounds((i + 1) as int, i as int));
        let v0 = a.entry(i + 1, i);
        let beta = if T::zero().is_le(v0) {
            norm.negate()
        } else {
            norm
        };
        let inv = v0.minus(beta).recip();
        let ghost s = tri_scaled(b, i as int, beta);
        let mut k = i + 2;
        while k < n
            invariant
                i + 2 <= k <= n,
                a.wf(),
                a.nrows() == n,
                a.ncols() == n,
                s == tri_scaled(b, i as int, beta),
                inv == b((i + 1) as int, i as int).spec_minus(beta).spec_recip(),
                forall|r: int, c: int| #[trigger]
                    a.in_bounds(r, c) ==> a.at(r, c) == if c == i && r < k {
                        s(r, c)
                    } else {
                        b(r, c)
                    },
            decreases n - k,
        {
            let ghost before = *a;
            assert(a.in_bounds(k as int, i as int));
            let val = a.entry(k, i);
            a.set(k, i, val.times(inv));
            proof {
                assert forall|r: int, c: int| #[trigger] a.in_bounds(r, c) implies a.at(r, c) == if c
                    == i && r < k + 1 {
                    s(r, c)
                } else {
                    b(r, c)
                } by {
                    assert(before.in_bounds(r, c));
                }
            }
            k = k + 1;
        }
        assert(holds(*a, s));
        let hh = v0.abs().plus(norm).over(norm);
        h.set(i, hh);
        let rs = n - i - 1;
        // 2. the Householder vector
        let mut v_buf: Vec<T> = Vec::new();
        v_buf.push(T::from_usize(1));
        let mut k: usize = 1;
        while k < rs
            invariant
                1 <= k <= rs,
                rs == n - i - 1,
                a.wf(),
                a.nrows() == n,
                a.ncols() == n,
                holds(*a, s),
                v_buf@.len() == k,
                forall|t: int| 0 <= t < k ==> #[trigger] v_buf@[t] == tri_v(s, i as int, t),
            decreases rs - k,
        {
            assert(a.in_bounds((k + i + 1) as int, i as int));
            v_buf.push(a.entry(k + i + 1, i));
            k = k + 1;
        }
        // 3. w = h A v
        let mut w: Vec<T> = Vec::new();
        let mut row: usize = 0;
        while row < rs
            invariant
                row <= rs,
                rs == n - i - 1,
                a.wf(),
                a.nrows() == n,
                a.ncols() == n,
                holds(*a, s),
                v_buf@.len() == rs,
                forall|t: int| 0 <= t < rs ==> #[trigger] v_buf@[t] == tri_v(s, i as int, t),
                w@.len() == row,
                forall|t: int| 0 <= t < row ==> #[trigger] w@[t] == tri_w0(s, i as int, rs as int, hh, t),
            decreases rs - row,
        {
            let mut dot = T::zero();
            let mut col: usize = 0;
            while col < rs
                invariant
                    row < rs,
                    col <= rs,
                    rs == n - i - 1,
                    a.wf(),
                    a.nrows() == n,
                    a.ncols() == n,
                    holds(*a, s),
                    v_buf@.len() == rs,
                    forall|t: int| 0 <= t < rs ==> #[trigger] v_buf@[t] == tri_v(s, i as int, t),
                    dot == tri_av(s, i as int, row as int, col as int),
                decreases rs - col,
            {
                let r = row + i + 1;
                let c = col + i + 1;
                let val = if r >= c {
                    assert(a.in_bounds(r as int, c as int));
                    a.entry(r, c)
                } else {
                    assert(a.in_bounds(c as int, r as int));
                    a.entry(c, r)
                };
                dot = dot.plus(val.times(v_buf[col]));
                col = col + 1;
            }
            w.push(hh.times(dot));
            row = row + 1;
        }
        // 4. w -= (h (v . w) / 2) v
        let mut vt_w = T::zero();
        let mut k: usize = 0;
        while k < rs
            invariant
                k <= rs,
                v_buf@.len() == rs,
                w@.len() == rs,
                forall|t: int| 0 <= t < rs ==> #[trigger] v_buf@[t] == tri_v(s, i as int, t),
                forall|t: int| 0 <= t < rs ==> #[trigger] w@[t] == tri_w0(s, i as int, rs as int, hh, t),
                vt_w == tri_vtw(s, i as int, rs as int, hh, k as int),
            decreases rs - k,
        {
            vt_w = vt_w.plus(v_buf[k].times(w[k]));
            k = k + 1;
        }
        let half = T::from_usize(1).over(T::from_usize(2));
        let scale = hh.times(vt_w).times(half);
        let mut k: usize = 0;
        while k < rs
            invariant
                k <= rs,
                v_buf@.len() == rs,
                w@.len() == rs,
                forall|t: int| 0 <= t < rs ==> #[trigger] v_buf@[t] == tri_v(s, i as int, t),
                scale == hh.spec_times(tri_vtw(s, i as int, rs as int, hh, rs as int)).spec_times(
                    T::spec_from_usize(1).spec_over(T::spec_from_usize(2)),
                ),
                forall|t: int| 0 <= t < k ==> #[trigger] w@[t] == tri_p(s, i as int, rs as int, hh, t),
                forall|t: int|
                    k <= t < rs ==> #[trigger] w@[t] == tri_w0(s, i as int, rs as int, hh, t),
            decreases rs - k,
        {
            let val = w[k].minus(scale.times(v_buf[k]));
            w.set(k, val);
            k = k + 1;
        }
        // 5. rank-two update of the trailing lower triangle
        let ghost fin = tri_step(b, n as int, i as int).0;
        let ghost ii = i as int;
        let ghost rsi = rs as int;
        proof {
            assert(norm == tri_norm_sq(b, ii, n as int).spec_sqrt());
            assert(beta == tri_beta(b(ii + 1, ii), norm));
        }
        assert(forall|r: int, c: int|
            ii + 1 <= c && c <= r && r < n ==> #[trigger] fin(r, c) == s(r, c).spec_minus(
                tri_v(s, ii, r - ii - 1).spec_times(tri_p(s, ii, rsi, hh, c - ii - 1)).spec_plus(
                    tri_p(s, ii, rsi, hh, r - ii - 1).spec_times(tri_v(s, ii, c - ii - 1)),
                ),
            ));
        assert(fin(ii + 1, ii) == beta);
        assert(forall|r: int, c: int|
            !(ii + 1 <= c && c <= r && r < n) && !(r == ii + 1 && c == ii) ==> #[trigger] fin(r, c)
                == s(r, c));
        let mut col: usize = 0;
        while col < rs
            invariant
                col <= rs,
                rs == n - i - 1,
                a.wf(),
                a.nrows() == n,
                a.ncols() == n,
                v_buf@.len() == rs,
                w@.len() == rs,
                forall|t: int| 0 <= t < rs ==> #[trigger] v_buf@[t] == tri_v(s, i as int, t),
                forall|t: int| 0 <= t < rs ==> #[trigger] w@[t] == tri_p(s, i as int, rs as int, hh, t),
                forall|r: int, c: int|
                    ii + 1 <= c && c <= r && r < n ==> #[trigger] fin(r, c) == s(r, c).spec_minus(
                        tri_v(s, ii, r - ii - 1).spec_times(tri_p(s, ii, rsi, hh, c - ii - 1)).spec_plus(
                            tri_p(s, ii, rsi, hh, r - ii - 1).spec_times(tri_v(s, ii, c - ii - 1)),
                        ),
                    ),
                fin(ii + 1, ii) == beta,
                forall|r: int, c: int|
                    !(ii + 1 <= c && c <= r && r < n) && !(r == ii + 1 && c == ii) ==> #[trigger] fin(
                        r,
                        c,
                    ) == s(r, c),
                ii == i,
                rsi == rs,
                forall|r: int, c: int| #[trigger]
                    a.in_bounds(r, c) ==> a.at(r, c) == if i + 1 <= c < col + i + 1 && c <= r {
                        fin(r, c)
                    } else {
                        s(r, c)
                    },
            decreases rs - col,
        {
            let mut row = col;
            while row < rs
                invariant
                    col < rs,
                    col <= row <= rs,
                    rs == n - i - 1,
                    a.wf(),
                    a.nrows() == n,
                    a.ncols() == n,
                    v_buf@.len() == rs,
                    w@.len() == rs,
                    forall|t: int| 0 <= t < rs ==> #[trigger] v_buf@[t] == tri_v(s, i as int, t),
                    forall|t: int|
                        0 <= t < rs ==> #[trigger] w@[t] == tri_p(s, i as int, rs as int, hh, t),
                    forall|r: int, c: int|
                        ii + 1 <= c && c <= r && r < n ==> #[trigger] fin(r, c) == s(r, c).spec_minus(
                            tri_v(s, ii, r - ii - 1).spec_times(tri_p(s, ii, rsi, hh, c - ii - 1)).spec_plus(
                                tri_p(s, ii, rsi, hh, r - ii - 1).spec_times(tri_v(s, ii, c - ii - 1)),
                            ),
                        ),
                    ii == i,
                    rsi == rs,
                    forall|r: int, c: int| #[trigger]
                        a.in_bounds(r, c) ==> a.at(r, c) == if (i + 1 <= c < col + i + 1 && c <= r)
                            || (c == col + i + 1 && col + i + 1 <= r < row + i + 1) {
                            fin(r, c)
                        } else {
                            s(r, c)
                        },
                decreases rs - row,
            {
                let ghost before = *a;
                let r = row + i + 1;
                let c = col + i + 1;
                assert(a.in_bounds(r as int, c as int));
                let x = a.entry(r, c);
                let upd = x.minus(v_buf[row].times(w[col]).plus(w[row].times(v_buf[col])));
                assert(fin(r as int, c as int) == upd);
                a.set(r, c, upd);
                proof {
                    assert forall|rr: int, cc: int| #[trigger] a.in_bounds(rr, cc) implies a.at(rr, cc)
                        == if (i + 1 <= cc < col + i + 1 && cc <= rr) || (cc == col + i + 1 && col + i
                        + 1 <= rr < row + 1 + i + 1) {
                        fin(rr, cc)
                    } else {
                        s(rr, cc)
                    } by {
                        assert(before.in_bounds(rr, cc));
                    }
                }
                row = row + 1;
            }
            col = col + 1;
        }
        // 6. the subdiagonal entry
        let ghost before = *a;
        a.set(i + 1, i, beta);
        proof {
            assert forall|r: int, c: int| #[trigger] a.in_bounds(r, c) implies a.at(r, c) == fin(r, c) by {
                assert(before.in_bounds(r, c));
            }
        }
    }

    /// The tridiagonal matrix `T`: the diagonal and the entries next to it
    /// read from the lower triangle, zeros elsewhere.
    pub fn matrix_t(&self) -> (t: Matrix<T>)
        requires
            self.wf(),
        ensures
            t.wf(),
            t.same_shape(&self.packed()),
            holds(
                t,
                |i: int, j: int|
                    if i == j || i == j + 1 || j == i + 1 {
                        self.packed().at(if i >= j { i } else { j }, if i >= j { j } else { i })
                    } else {
                        T::spec_zero()
                    },
            ),
    {
        let n = self.packed_matrix.rows();
        let _size = self.packed_matrix.size();
        let mut t = Matrix::zeros(n, n);
        let mut j: usize = 0;
        while j < n
            invariant
                self.wf(),
                n == self.packed().nrows(),
                j <= n,
                t.wf(),
                t.nrows() == n,
                t.ncols() == n,
                forall|a: int, b: int| #[trigger]
                    t.in_bounds(a, b) ==> t.at(a, b) == if b < j && (a == b || a == b + 1 || b == a
                        + 1) {
                        self.packed().at(if a >= b { a } else { b }, if a >= b { b } else { a })
                    } else {
                        T::spec_zero()
                    },
            decreases n - j,
        {
            let mut i: usize = 0;
            while i < n
                invariant
                    self.wf(),
                    n == self.packed().nrows(),
                    j < n,
                    i <= n,
                    t.wf(),
                    t.nrows() == n,
                    t.ncols() == n,
                    forall|a: int, b: int| #[trigger]
                        t.in_bounds(a, b) ==> t.at(a, b) == if (b < j || (b == j && a < i)) && (a == b
                            || a == b + 1 || b == a + 1) {
                            self.packed().at(if a >= b { a } else { b }, if a >= b { b } else { a })
                        } else {
                            T::spec_zero()
                        },
                decreases n - i,
            {
                let ghost before = t;
                if i == j || i == j + 1 || j == i + 1 {
                    let r = if i >= j {
                        i
                    } else {
                        j
                    };
                    let c = if i >= j {
                        j
                    } else {
                        i
                    };
                    assert(self.packed_matrix.in_bounds(r as int, c as int));
                    t.set(i, j, self.packed_matrix.entry(r, c));
                } else {
                    t.set(i, j, T::zero());
                }
                proof {
                    assert forall|a: int, b: int| #[trigger] t.in_bounds(a, b) implies t.at(a, b)
                        == if (b < j || (b == j && a < i + 1)) && (a == b || a == b + 1 || b == a + 1) {
                        self.packed().at(if a >= b { a } else { b }, if a >= b { b } else { a })
                    } else {
                        T::spec_zero()
                    } by {
                        assert(before.in_bounds(a, b));
                    }
                }
                i = i + 1;
            }
            j = j + 1;
        }
        t
    }

    /// The orthogonal factor `Q`, built from the identity by the
    /// reflections in reverse order (for a matrix of order at least one).
    pub fn matrix_q(&self) -> (q: Matrix<T>)
        requires
            self.wf(),
            self.packed().nrows() > 0,
        ensures
            q.wf(),
            q.same_shape(&self.packed()),
            holds(
                q,
                tri_q(
                    grid(self.packed()),
                    self.coeffs(),
                    self.packed().nrows() as int,
                    (self.packed().nrows() - 1) as nat,
                ),
            ),
    {
        let n = self.packed_matrix.rows();
        let _size = self.packed_matrix.size();
        let ghost p = grid(self.packed());
        let mut q = Matrix::zeros(n, n);
        let mut i: usize = 0;
        while i < n
            invariant
                i <= n,
                q.wf(),
                q.nrows() == n,
                q.ncols() == n,
                forall|a: int, b: int| #[trigger]
                    q.in_bounds(a, b) ==> q.at(a, b) == if a < i && a == b {
                        T::spec_from_usize(1)
                    } else {
                        T::spec_zero()
                    },
            decreases n - i,
        {
            let mut j: usize = 0;
            while j < n
                invariant
                    i < n,
                    j <= n,
                    q.wf(),
                    q.nrows() == n,
                    q.ncols() == n,
                    forall|a: int, b: int| #[trigger]
                        q.in_bounds(a, b) ==> q.at(a, b) == if (a < i || (a == i && b < j)) && a == b {
                            T::spec_from_usize(1)
                        } else {
                            T::spec_zero()
                        },
                decreases n - j,
            {
                let ghost before = q;
                if i == j {
                    q.set(i, j, T::from_usize(1));
                } else {
                    q.set(i, j, T::zero());
                }
                proof {
                    assert forall|a: int, b: int| #[trigger] q.in_bounds(a, b) implies q.at(a, b)
                        == if (a < i || (a == i && b < j + 1)) && a == b {
                        T::spec_from_usize(1)
                    } else {
                        T::spec_zero()
                    } by {
                        assert(before.in_bounds(a, b));
                    }
                }
                j = j + 1;
            }
            i = i + 1;
        }
        let steps = n - 1;
        let mut m: usize = 0;
        while m < steps
            invariant
                self.wf(),
                n == self.packed().nrows(),
                n > 0,
                steps == n - 1,
                m <= steps,
                p == grid(self.packed()),
                q.wf(),
                q.nrows() == n,
                q.ncols() == n,
                holds(q, tri_q(p, self.coeffs(), n as int, m as nat)),
            decreases steps - m,
        {
            let i = n - 2 - m;
            let h = self.h_coeffs[i];
            let ghost prev = tri_q(p, self.coeffs(), n as int, m as nat);
            let ghost w = shifted(p);
            let ghost next = tri_q(p, self.coeffs(), n as int, (m + 1) as nat);
            if !h.is_eq(T::zero()) {
                assert(next == reflect(w, h, prev, (i + 1) as int, n as int, (i + 1) as int, false));
                let mut j = i + 1;
                while j < n
                    invariant
                        self.wf(),
                        n == self.packed().nrows(),
                        i + 1 < n,
                        i + 1 <= j <= n,
                        p == grid(self.packed()),
                        w == shifted(p),
                        next == reflect(w, h, prev, (i + 1) as int, n as int, (i + 1) as int, false),
                        q.wf(),
                        q.nrows() == n,
                        q.ncols() == n,
                        forall|a: int, b: int| #[trigger]
                            q.in_bounds(a, b) ==> q.at(a, b) == if b < j {
                                next(a, b)
                            } else {
                                prev(a, b)
                            },
                    decreases n - j,
                {
                    assert(q.in_bounds((i + 1) as int, j as int));
                    let mut dot = q.entry(i + 1, j);
                    let mut k = i + 2;
                    while k < n
                        invariant
                            self.wf(),
                            n == self.packed().nrows(),
                            i + 2 <= k <= n,
                            i + 1 <= j < n,
                            p == grid(self.packed()),
                            w == shifted(p),
                            q.wf(),
                            q.nrows() == n,
                            q.ncols() == n,
                            forall|a: int, b: int| #[trigger]
                                q.in_bounds(a, b) ==> q.at(a, b) == if b < j {
                                    next(a, b)
                                } else {
                                    prev(a, b)
                                },
                            dot == crate::decompositions::qr::hh_dot(
                                w,
                                prev,
                                (i + 1) as int,
                                j as int,
                                k as int,
                                false,
                            ),
                        decreases n - k,
                    {
                        assert(self.packed_matrix.in_bounds(k as int, i as int));
                        assert(q.in_bounds(k as int, j as int));
                        assert(w(k as int, (i + 1) as int) == p(k as int, i as int));
                        dot = dot.plus(self.packed_matrix.entry(k, i).times(q.entry(k, j)));
                        k = k + 1;
                    }
                    let factor = h.times(dot);
                    let ghost before = q;
                    let x = q.entry(i + 1, j);
                    q.set(i + 1, j, x.minus(factor));
                    proof {
                        assert forall|a: int, b: int| #[trigger] q.in_bounds(a, b) implies q.at(a, b)
                            == if b < j || (b == j && a <= i + 1) {
                            next(a, b)
                        } else {
                            prev(a, b)
                        } by {
                            assert(before.in_bounds(a, b));
                        }
                    }
                    let mut k = i + 2;
                    while k < n
                        invariant
                            self.wf(),
                            n == self.packed().nrows(),
                            i + 2 <= k <= n,
                            i + 1 <= j < n,
                            p == grid(self.packed()),
                            w == shifted(p),
                            next == reflect(w, h, prev, (i + 1) as int, n as int, (i + 1) as int, false),
                            factor == h.spec_times(
                                crate::decompositions::qr::hh_dot(w, prev, (i + 1) as int, j as int, n as int, false),
                            ),
                            q.wf(),
                            q.nrows() == n,
                            q.ncols() == n,
                            forall|a: int, b: int| #[trigger]
                                q.in_bounds(a, b) ==> q.at(a, b) == if b < j || (b == j && a < k) {
                                    next(a, b)
                                } else {
                                    prev(a, b)
                                },
                        decreases n - k,
                    {
                        let ghost before = q;
                        assert(self.packed_matrix.in_bounds(k as int, i as int));
                        assert(q.in_bounds(k as int, j as int));
                        let vk = self.packed_matrix.entry(k, i);
                        let x = q.entry(k, j);
                        assert(w(k as int, (i + 1) as int) == vk);
                        assert(next(k as int, j as int) == x.spec_minus(factor.spec_times(vk)));
                        q.set(k, j, x.minus(factor.times(vk)));
                        proof {
                            assert forall|a: int, b: int| #[trigger] q.in_bounds(a, b) implies q.at(
                                a,
                                b,
                            ) == if b < j || (b == j && a < k + 1) {
                                next(a, b)
                            } else {
                                prev(a, b)
                            } by {
                                assert(before.in_bounds(a, b));
                            }
                        }
                        k = k + 1;
                    }
                    j = j + 1;
                }
                proof {
                    assert forall|a: int, b: int| #[trigger] q.in_bounds(a, b) implies q.at(a, b) == next(
                        a,
                        b,
                    ) by {}
                }
            }
            m = m + 1;
        }
        q
    }
}

} // verus!
