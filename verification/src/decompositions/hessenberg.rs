//! Hessenberg decomposition `A = Q H Q^*` of a square matrix.
//!
//! Step `i` reflects rows and columns `i + 1 .. n` so that column `i` is
//! zero below the subdiagonal. The working matrix keeps `H` on and above
//! the subdiagonal and the Householder vectors below it (with an implicit
//! leading one); `h_coeffs` holds their coefficients.

use crate::decompositions::lu::{grid, holds};
use crate::decompositions::qr::{hh_dot, reflect};
use crate::decompositions::tridiagonal::shifted;
use crate::matrix::Matrix;
use crate::scalar::Scalar;
use vstd::prelude::*;

verus! {

/// `|b(i+1, i)|^2 + ... + |b(m-1, i)|^2` accumulated from zero (squared
/// moduli as values of the type).
pub open spec fn hess_norm_sq<T: Scalar>(b: spec_fn(int, int) -> T, i: int, m: int) -> T
    decreases m - i,
{
    if m <= i + 1 {
        T::spec_zero()
    } else {
        hess_norm_sq(b, i, m - 1).spec_plus(b(m - 1, i).spec_norm_sq())
    }
}

/// The reflection's `sigma`: `norm` when the real part of `v0` is at least
/// zero, `0 - norm` otherwise.
pub open spec fn hess_sigma<T: Scalar>(v0: T, norm: T) -> T {
    if T::spec_zero().spec_le(v0.spec_real()) {
        norm
    } else {
        T::spec_zero().spec_minus(norm)
    }
}

/// Column `i` below the subdiagonal multiplied by `inv`.
pub open spec fn hess_scaled<T: Scalar>(b: spec_fn(int, int) -> T, i: int, inv: T) -> spec_fn(
    int,
    int,
) -> T {
    |r: int, c: int|
        if c == i && r >= i + 2 {
            b(r, i).spec_times(inv)
        } else {
            b(r, c)
        }
}

/// Entry `k` of the Householder vector of step `i`: the image of one, then
/// the scaled column below the subdiagonal.
pub open spec fn hess_v<T: Scalar>(s: spec_fn(int, int) -> T, i: int, k: int) -> T {
    if k == 0 {
        T::spec_from_usize(1)
    } else {
        s(i + 1 + k, i)
    }
}

/// `v_0' x(i+1, j) + ... + v_{len-1}' x(i+len, j)` accumulated from zero,
/// where `'` is conjugation.
pub open spec fn left_dot<T: Scalar>(
    s: spec_fn(int, int) -> T,
    x: spec_fn(int, int) -> T,
    i: int,
    j: int,
    len: int,
) -> T
    decreases len,
{
    if len <= 0 {
        T::spec_zero()
    } else {
        left_dot(s, x, i, j, len - 1).spec_plus(hess_v(s, i, len - 1).spec_conj().spec_times(x(i + len, j)))
    }
}

/// The reflection applied from the left to the columns `c > i`, rows
/// `i + 1 .. n`: entry `(r, c)` loses `(tau * left_dot) * v_{r-i-1}`.
pub open spec fn left_update<T: Scalar>(s: spec_fn(int, int) -> T, x: spec_fn(int, int) -> T, tau: T, i: int, n: int) -> spec_fn(
    int,
    int,
) -> T {
    |r: int, c: int|
        if i + 1 <= c < n && i + 1 <= r < n {
            x(r, c).spec_minus(tau.spec_times(left_dot(s, x, i, c, n - i - 1)).spec_times(hess_v(s, i, r - i - 1)))
        } else {
            x(r, c)
        }
}

/// `y(row, i+1) v_0 + ... + y(row, i+len) v_{len-1}` accumulated from
/// zero.
pub open spec fn right_dot<T: Scalar>(
    y: spec_fn(int, int) -> T,
    s: spec_fn(int, int) -> T,
    i: int,
    row: int,
    len: int,
) -> T
    decreases len,
{
    if len <= 0 {
        T::spec_zero()
    } else {
        right_dot(y, s, i, row, len - 1).spec_plus(y(row, i + len).spec_times(hess_v(s, i, len - 1)))
    }
}

/// The reflection applied from the right to the columns `i + 1 .. n` of
/// every row: entry `(r, c)` loses `(tc * right_dot) * v_{c-i-1}'`.
pub open spec fn right_update<T: Scalar>(s: spec_fn(int, int) -> T, y: spec_fn(int, int) -> T, tc: T, i: int, n: int) -> spec_fn(
    int,
    int,
) -> T {
    |r: int, c: int|
        if 0 <= r < n && i + 1 <= c < n {
            y(r, c).spec_minus(
                tc.spec_times(right_dot(y, s, i, r, n - i - 1)).spec_times(hess_v(s, i, c - i - 1).spec_conj()),
            )
        } else {
            y(r, c)
        }
}

/// Step `i` on an `n x n` working matrix: the new matrix and the
/// coefficient. A column whose tail has norm equal to zero is left as it is
/// with coefficient zero; otherwise the tail is scaled by
/// `1 / (v0 + sigma)`, `tau = (v0 + sigma)' / sigma`, the reflection is
/// applied from the left and then from the right (with `tau'`), and the
/// subdiagonal entry becomes `0 - sigma`.
pub open spec fn hess_step<T: Scalar>(b: spec_fn(int, int) -> T, n: int, i: int) -> (spec_fn(int, int) -> T, T) {
    let norm = hess_norm_sq(b, i, n).spec_sqrt();
    if norm.spec_eq(T::spec_zero()) {
        (b, T::spec_zero())
    } else {
        let v0 = b(i + 1, i);
        let sigma = hess_sigma(v0, norm);
        let vs = v0.spec_plus(sigma);
        let s = hess_scaled(b, i, vs.spec_recip());
        let tau = vs.spec_conj().spec_over(sigma);
        let l = left_update(s, s, tau, i, n);
        let rr = right_update(s, l, tau.spec_conj(), i, n);
        (
            |r: int, c: int|
                if r == i + 1 && c == i {
                    T::spec_zero().spec_minus(sigma)
                } else {
                    rr(r, c)
                },
            tau,
        )
    }
}

/// The working matrix and the coefficients after the first `k` steps on
/// `a` (`n x n`, `len` coefficients, all zero at first).
pub open spec fn hess_state<T: Scalar>(a: spec_fn(int, int) -> T, n: int, len: nat, k: nat) -> (
    spec_fn(int, int) -> T,
    Seq<T>,
)
    decreases k,
{
    if k == 0 {
        (a, Seq::new(len, |q: int| T::spec_zero()))
    } else {
        let prev = hess_state(a, n, len, (k - 1) as nat);
        let st = hess_step(prev.0, n, k - 1);
        (st.0, prev.1.update(k - 1, st.1))
    }
}

/// There is one coefficient per step at every step.
pub proof fn lemma_hess_coeffs_len<T: Scalar>(a: spec_fn(int, int) -> T, n: int, len: nat, k: nat)
    requires
        k <= len,
    ensures
        hess_state(a, n, len, k).1.len() == len,
    decreases k,
{
    if k > 0 {
        lemma_hess_coeffs_len(a, n, len, (k - 1) as nat);
    }
}

/// Performs step `i` of the reduction in place.
fn hessenberg_step<T: Scalar>(
    a: &mut Matrix<T>,
    h: &mut Vec<T>,
    i: usize,
    Ghost(a0): Ghost<spec_fn(int, int) -> T>,
    Ghost(len): Ghost<nat>,
)
    requires
        old(a).wf(),
        old(a).nrows() == old(a).ncols(),
        i + 2 < old(a).nrows(),
        i < old(h)@.len(),
        old(h)@.len() == len,
        holds(*old(a), hess_state(a0, old(a).nrows() as int, len, i as nat).0),
        old(h)@ == hess_state(a0, old(a).nrows() as int, len, i as nat).1,
    ensures
        final(a).wf(),
        final(a).same_shape(old(a)),
        holds(*final(a), hess_state(a0, old(a).nrows() as int, len, (i + 1) as nat).0),
        final(h)@ == hess_state(a0, old(a).nrows() as int, len, (i + 1) as nat).1,
{
    let n = a.rows();
    let ghost b = hess_state(a0, n as int, len, i as nat).0;
    let mut norm_sq = T::zero();
    let mut k = i + 1;
    while k < n
        invariant
            i < k <= n,
            a.wf(),
            a.nrows() == n,
            a.ncols() == n,
            holds(*a, b),
            norm_sq == hess_norm_sq(b, i as int, k as int),
        decreases n - k,
    {
        assert(a.in_bounds(k as int, i as int));
        norm_sq = norm_sq.plus(a.entry(k, i).norm_sq());
        k = k + 1;
    }
    let norm = norm_sq.sqrt();
    if norm.is_eq(T::zero()) {
        h.set(i, T::zero());
        return;
    }
    assert(a.in_bounds((i + 1) as int, i as int));
    let v0 = a.entry(i + 1, i);
    let sigma = if T::zero().is_le(v0.real_part()) {
        norm
    } else {
        T::zero().minus(norm)
    };
    let vs = v0.plus(sigma);
    let inv = vs.recip();
    let ghost s = hess_scaled(b, i as int, inv);
    let mut k = i + 2;
    while k < n
        invariant
            i + 2 <= k <= n,
            a.wf(),
            a.nrows() == n,
            a.ncols() == n,
            s == hess_scaled(b, i as int, inv),
            forall|r: int, c: int| #[trigger]
                a.in_bounds(r, c) ==> a.at(r, c) == if c == i && r < k {
                    s(r, c)
                } else {
                    b(r, c)
                },
        decreases n - k,
    {
        let ghost before = *a;
        assert(a.in_bounds(k as int, i as int));
        let val = a.entry(k, i);
        a.set(k, i, val.times(inv));
        proof {
            assert forall|r: int, c: int| #[trigger] a.in_bounds(r, c) implies a.at(r, c) == if c == i && r < k + 1 {
                s(r, c)
            } else {
                b(r, c)
            } by {
                assert(before.in_bounds(r, c));
            }
        }
        k = k + 1;
    }
    assert(holds(*a, s));
    let tau = vs.conj().over(sigma);
    h.set(i, tau);
    let lv = n - i - 1;
    let mut v: Vec<T> = Vec::new();
    v.push(T::from_usize(1));
    let mut k: usize = 1;
    while k < lv
        invariant
            1 <= k <= lv,
            lv == n - i - 1,
            a.wf(),
            a.nrows() == n,
            a.ncols() == n,
            holds(*a, s),
            v@.len() == k,
            forall|t: int| 0 <= t < k ==> #[trigger] v@[t] == hess_v(s, i as int, t),
        decreases lv - k,
    {
        assert(a.in_bounds((i + 1 + k) as int, i as int));
        v.push(a.entry(i + 1 + k, i));
        k = k + 1;
    }
    // the reflection from the left, column by column
    let ghost l = left_update(s, s, tau, i as int, n as int);
    let mut j = i + 1;
    while j < n
        invariant
            i + 1 <= j <= n,
            lv == n - i - 1,
            a.wf(),
            a.nrows() == n,
            a.ncols() == n,
            v@.len() == lv,
            forall|t: int| 0 <= t < lv ==> #[trigger] v@[t] == hess_v(s, i as int, t),
            l == left_update(s, s, tau, i as int, n as int),
            forall|r: int, c: int| #[trigger]
                a.in_bounds(r, c) ==> a.at(r, c) == if c < j {
                    l(r, c)
                } else {
                    s(r, c)
                },
        decreases n - j,
    {
        let mut dot = T::zero();
        let mut k: usize = 0;
        while k < lv
            invariant
                k <= lv,
                i + 1 <= j < n,
                lv == n - i - 1,
                a.wf(),
                a.nrows() == n,
                a.ncols() == n,
                v@.len() == lv,
                forall|t: int| 0 <= t < lv ==> #[trigger] v@[t] == hess_v(s, i as int, t),
                forall|r: int, c: int| #[trigger]
                    a.in_bounds(r, c) ==> a.at(r, c) == if c < j {
                        l(r, c)
                    } else {
                        s(r, c)
                    },
                dot == left_dot(s, s, i as int, j as int, k as int),
            decreases lv - k,
        {
            assert(a.in_bounds((i + 1 + k) as int, j as int));
            dot = dot.plus(v[k].conj().times(a.entry(i + 1 + k, j)));
            k = k + 1;
        }
        let factor = tau.times(dot);
        let ghost start = *a;
        let mut k: usize = 0;
        while k < lv
            invariant
                k <= lv,
                i + 1 <= j < n,
                lv == n - i - 1,
                a.wf(),
                a.nrows() == n,
                a.ncols() == n,
                a.same_shape(&start),
                v@.len() == lv,
                forall|t: int| 0 <= t < lv ==> #[trigger] v@[t] == hess_v(s, i as int, t),
                l == left_update(s, s, tau, i as int, n as int),
                factor == tau.spec_times(left_dot(s, s, i as int, j as int, lv as int)),
                forall|r: int, c: int| #[trigger]
                    start.in_bounds(r, c) ==> start.at(r, c) == if c < j {
                        l(r, c)
                    } else {
                        s(r, c)
                    },
                forall|r: int, c: int| #[trigger]
                    a.in_bounds(r, c) ==> a.at(r, c) == if c == j && i + 1 <= r < i + 1 + k {
                        l(r, c)
                    } else {
                        start.at(r, c)
                    },
            decreases lv - k,
        {
            let ghost before = *a;
            let r = i + 1 + k;
            assert(a.in_bounds(r as int, j as int));
            let x = a.entry(r, j);
            assert(start.in_bounds(r as int, j as int));
            a.set(r, j, x.minus(factor.times(v[k])));
            proof {
                assert forall|rr: int, cc: int| #[trigger] a.in_bounds(rr, cc) implies a.at(rr, cc) == if cc == j
                    && i + 1 <= rr < i + 1 + k + 1 {
                    l(rr, cc)
                } else {
                    start.at(rr, cc)
                } by {
                    assert(before.in_bounds(rr, cc));
                }
            }
            k = k + 1;
        }
        proof {
            assert forall|r: int, c: int| #[trigger] a.in_bounds(r, c) implies a.at(r, c) == if c < j + 1 {
                l(r, c)
            } else {
                s(r, c)
            } by {
                assert(start.in_bounds(r, c));
            }
        }
        j = j + 1;
    }
    assert(holds(*a, l));
    // the reflection from the right, row by row
    let tc = tau.conj();
    let ghost rr = right_update(s, l, tc, i as int, n as int);
    let mut j: usize = 0;
    while j < n
        invariant
            j <= n,
            i + 2 < n,
            lv == n - i - 1,
            a.wf(),
            a.nrows() == n,
            a.ncols() == n,
            v@.len() == lv,
            forall|t: int| 0 <= t < lv ==> #[trigger] v@[t] == hess_v(s, i as int, t),
            rr == right_update(s, l, tc, i as int, n as int),
            forall|r: int, c: int| #[trigger]
                a.in_bounds(r, c) ==> a.at(r, c) == if r < j {
                    rr(r, c)
                } else {
                    l(r, c)
                },
        decreases n - j,
    {
        let mut dot = T::zero();
        let mut k: usize = 0;
        while k < lv
            invariant
                k <= lv,
                j < n,
                lv == n - i - 1,
                a.wf(),
                a.nrows() == n,
                a.ncols() == n,
                v@.len() == lv,
                forall|t: int| 0 <= t < lv ==> #[trigger] v@[t] == hess_v(s, i as int, t),
                forall|r: int, c: int| #[trigger]
                    a.in_bounds(r, c) ==> a.at(r, c) == if r < j {
                        rr(r, c)
                    } else {
                        l(r, c)
                    },
                dot == right_dot(l, s, i as int, j as int, k as int),
            decreases lv - k,
        {
            assert(a.in_bounds(j as int, (i + 1 + k) as int));
            dot = dot.plus(a.entry(j, i + 1 + k).times(v[k]));
            k = k + 1;
        }
        let factor = tc.times(dot);
        let ghost start = *a;
        let mut k: usize = 0;
        while k < lv
            invariant
                k <= lv,
                j < n,
                lv == n - i - 1,
                a.wf(),
                a.nrows() == n,
                a.ncols() == n,
                a.same_shape(&start),
                v@.len() == lv,
                forall|t: int| 0 <= t < lv ==> #[trigger] v@[t] == hess_v(s, i as int, t),
                rr == right_update(s, l, tc, i as int, n as int),
                factor == tc.spec_times(right_dot(l, s, i as int, j as int, lv as int)),
                forall|r: int, c: int| #[trigger]
                    start.in_bounds(r, c) ==> start.at(r, c) == if r < j {
                        rr(r, c)
                    } else {
                        l(r, c)
                    },
                forall|r: int, c: int| #[trigger]
                    a.in_bounds(r, c) ==> a.at(r, c) == if r == j && i + 1 <= c < i + 1 + k {
                        rr(r, c)
                    } else {
                        start.at(r, c)
                    },
            decreases lv - k,
        {
            let ghost before = *a;
            let c = i + 1 + k;
            assert(a.in_bounds(j as int, c as int));
            let x = a.entry(j, c);
            assert(start.in_bounds(j as int, c as int));
            a.set(j, c, x.minus(factor.times(v[k].conj())));
            proof {
                assert forall|r2: int, c2: int| #[trigger] a.in_bounds(r2, c2) implies a.at(r2, c2) == if r2 == j
                    && i + 1 <= c2 < i + 1 + k + 1 {
                    rr(r2, c2)
                } else {
                    start.at(r2, c2)
                } by {
                    assert(before.in_bounds(r2, c2));
                }
            }
            k = k + 1;
        }
        proof {
            assert forall|r: int, c: int| #[trigger] a.in_bounds(r, c) implies a.at(r, c) == if r < j + 1 {
                rr(r, c)
            } else {
                l(r, c)
            } by {
                assert(start.in_bounds(r, c));
            }
        }
        j = j + 1;
    }
    // the subdiagonal entry
    let ghost before = *a;
    a.set(i + 1, i, T::zero().minus(sigma));
    proof {
        let fin = hess_step(b, n as int, i as int).0;
        assert(norm == hess_norm_sq(b, i as int, n as int).spec_sqrt());
        assert forall|r: int, c: int| #[trigger] a.in_bounds(r, c) implies a.at(r, c) == fin(r, c) by {
            assert(before.in_bounds(r, c));
        }
    }
}

/// `Q` built from the identity (the image of `1` on the diagonal, zero
/// elsewhere) by applying the last `m` of the `n - 2` reflections in
/// reverse order, each with the conjugate coefficient to the columns right
/// of its pivot; a reflection whose coefficient equals zero is skipped.
pub open spec fn hess_q<T: Scalar>(p: spec_fn(int, int) -> T, h: Seq<T>, n: int, m: nat) -> spec_fn(int, int) -> T
    decreases m,
{
    if m == 0 {
        |i: int, j: int|
            if i == j {
                T::spec_from_usize(1)
            } else {
                T::spec_zero()
            }
    } else {
        let prev = hess_q(p, h, n, (m - 1) as nat);
        let i = n - 2 - m;
        if h[i].spec_eq(T::spec_zero()) {
            prev
        } else {
            reflect(shifted(p), h[i].spec_conj(), prev, i + 1, n, i + 1, true)
        }
    }
}

/// The number of steps of the reduction of an `n x n` matrix.
pub open spec fn hess_steps(n: nat) -> nat {
    if n > 2 {
        (n - 2) as nat
    } else {
        0
    }
}

/// The number of stored coefficients for an `n x n` matrix.
pub open spec fn hess_len(n: nat) -> nat {
    if n > 2 {
        (n - 2) as nat
    } else {
        1
    }
}

/// A Hessenberg decomposition.
pub struct HessenbergDecomposition<T> {
    packed_matrix: Matrix<T>,
    h_coeffs: Vec<T>,
}

impl<T: Scalar> HessenbergDecomposition<T> {
    /// The compact working matrix.
    pub closed spec fn packed(&self) -> Matrix<T> {
        self.packed_matrix
    }

    /// The Householder coefficients.
    pub closed spec fn coeffs(&self) -> Seq<T> {
        self.h_coeffs@
    }

    /// A square working matrix and `max(n - 2, 1)` coefficients.
    pub open spec fn wf(&self) -> bool {
        &&& self.packed().wf()
        &&& self.packed().nrows() == self.packed().ncols()
        &&& self.coeffs().len() == hess_len(self.packed().nrows())
    }

    /// Computes the decomposition of a square matrix; fails exactly when
    /// the matrix is not square.
    pub fn new(matrix: &Matrix<T>) -> (r: Result<Self, String>)
        requires
            matrix.wf(),
        ensures
            r is Ok <==> matrix.nrows() == matrix.ncols(),
            r matches Ok(d) ==> {
                let n = matrix.nrows();
                let st = hess_state(grid(*matrix), n as int, hess_len(n), hess_steps(n));
                &&& d.wf()
                &&& d.packed().nrows() == n
                &&& holds(d.packed(), st.0)
                &&& d.coeffs() == st.1
            },
            r matches Err(e) ==> e@ == "Hessenberg decomposition requires a square matrix"@,
    {
        let n = matrix.rows();
        if n != matrix.cols() {
            return Err("Hessenberg decomposition requires a square matrix".to_string());
        }
        let ghost a0 = grid(*matrix);
        let mut packed = matrix.copy();
        let len: usize = if n > 2 {
            n - 2
        } else {
            1
        };
        let mut h: Vec<T> = Vec::new();
        let mut q: usize = 0;
        while q < len
            invariant
                q <= len,
                h@.len() == q,
                forall|t: int| 0 <= t < q ==> #[trigger] h@[t] == T::spec_zero(),
            decreases len - q,
        {
            h.push(T::zero());
            q = q + 1;
        }
        proof {
            assert(h@ == hess_state(a0, n as int, len as nat, 0).1);
            assert forall|i: int, j: int| #[trigger] packed.in_bounds(i, j) implies packed.at(i, j) == a0(i, j) by {}
        }
        let steps: usize = if n > 2 {
            n - 2
        } else {
            0
        };
        let mut i: usize = 0;
        while i < steps
            invariant
                i <= steps,
                steps == hess_steps(n as nat),
                len == hess_len(n as nat),
                n == matrix.nrows(),
                a0 == grid(*matrix),
                packed.wf(),
                packed.nrows() == n,
                packed.ncols() == n,
                holds(packed, hess_state(a0, n as int, len as nat, i as nat).0),
                h@ == hess_state(a0, n as int, len as nat, i as nat).1,
            decreases steps - i,
        {
            proof {
                lemma_hess_coeffs_len(a0, n as int, len as nat, i as nat);
            }
            hessenberg_step(&mut packed, &mut h, i, Ghost(a0), Ghost(len as nat));
            i = i + 1;
        }
        proof {
            lemma_hess_coeffs_len(a0, n as int, len as nat, steps as nat);
        }
        Ok(HessenbergDecomposition { packed_matrix: packed, h_coeffs: h })
    }

    /// The Hessenberg matrix `H`: the working matrix on and above the
    /// subdiagonal, zero below it.
    pub fn matrix_h(&self) -> (hm: Matrix<T>)
        requires
            self.wf(),
        ensures
            hm.wf(),
            hm.same_shape(&self.packed()),
            forall|i: int, j: int| #[trigger]
                hm.in_bounds(i, j) ==> hm.at(i, j) == if i <= j + 1 {
                    self.packed().at(i, j)
                } else {
                    T::spec_zero()
                },
    {
        let n = self.packed_matrix.rows();
        let _size = self.packed_matrix.size();
        let mut hm = Matrix::zeros(n, n);
        let mut j: usize = 0;
        while j < n
            invariant
                self.wf(),
                n == self.packed().nrows(),
                j <= n,
                hm.wf(),
                hm.nrows() == n,
                hm.ncols() == n,
                forall|a: int, b: int| #[trigger]
                    hm.in_bounds(a, b) ==> hm.at(a, b) == if b < j && a <= b + 1 {
                        self.packed().at(a, b)
                    } else {
                        T::spec_zero()
                    },
            decreases n - j,
        {
            let mut i: usize = 0;
            while i < n
                invariant
                    self.wf(),
                    n == self.packed().nrows(),
                    j < n,
                    i <= n,
                    hm.wf(),
                    hm.nrows() == n,
                    hm.ncols() == n,
                    forall|a: int, b: int| #[trigger]
                        hm.in_bounds(a, b) ==> hm.at(a, b) == if (b < j || (b == j && a < i)) && a <= b + 1 {
                            self.packed().at(a, b)
                        } else {
                            T::spec_zero()
                        },
                decreases n - i,
            {
                let ghost before = hm;
                if i <= j + 1 {
                    assert(self.packed_matrix.in_bounds(i as int, j as int));
                    hm.set(i, j, self.packed_matrix.entry(i, j));
                } else {
                    hm.set(i, j, T::zero());
                }
                proof {
                    assert forall|a: int, b: int| #[trigger] hm.in_bounds(a, b) implies hm.at(a, b) == if (b < j || (b
                        == j && a < i + 1)) && a <= b + 1 {
                        self.packed().at(a, b)
                    } else {
                        T::spec_zero()
                    } by {
                        assert(before.in_bounds(a, b));
                    }
                }
                i = i + 1;
            }
            j = j + 1;
        }
        hm
    }

    /// The unitary factor `Q`, built from the identity by the reflections
    /// in reverse order.
    pub fn matrix_q(&self) -> (q: Matrix<T>)
        requires
            self.wf(),
        ensures
            q.wf(),
            q.same_shape(&self.packed()),
            holds(
                q,
                hess_q(grid(self.packed()), self.coeffs(), self.packed().nrows() as int, hess_steps(self.packed().nrows())),
            ),
    {
        let n = self.packed_matrix.rows();
        let _size = self.packed_matrix.size();
        let ghost p = grid(self.packed());
        let mut q = Matrix::zeros(n, n);
        let mut d: usize = 0;
        while d < n
            invariant
                d <= n,
                q.wf(),
                q.nrows() == n,
                q.ncols() == n,
                forall|a: int, b: int| #[trigger]
                    q.in_bounds(a, b) ==> q.at(a, b) == if a == b && a < d {
                        T::spec_from_usize(1)
                    } else {
                        T::spec_zero()
                    },
            decreases n - d,
        {
            let ghost before = q;
            q.set(d, d, T::from_usize(1));
            proof {
                assert forall|a: int, b: int| #[trigger] q.in_bounds(a, b) implies q.at(a, b) == if a == b && a < d + 1 {
                    T::spec_from_usize(1)
                } else {
                    T::spec_zero()
                } by {
                    assert(before.in_bounds(a, b));
                }
            }
            d = d + 1;
        }
        let steps: usize = if n > 2 {
            n - 2
        } else {
            0
        };
        let mut m: usize = 0;
        while m < steps
            invariant
                self.wf(),
                n == self.packed().nrows(),
                steps == hess_steps(n as nat),
                m <= steps,
                p == grid(self.packed()),
                q.wf(),
                q.nrows() == n,
                q.ncols() == n,
                holds(q, hess_q(p, self.coeffs(), n as int, m as nat)),
            decreases steps - m,
        {
            let i = n - 3 - m;
            let tau = self.h_coeffs[i];
            let ghost prev = hess_q(p, self.coeffs(), n as int, m as nat);
            let ghost w = shifted(p);
            let ghost next = hess_q(p, self.coeffs(), n as int, (m + 1) as nat);
            if !tau.is_eq(T::zero()) {
                let tc = tau.conj();
                assert(next == reflect(w, tc, prev, (i + 1) as int, n as int, (i + 1) as int, true));
                let mut j = i + 1;
                while j < n
                    invariant
                        self.wf(),
                        n == self.packed().nrows(),
                        i + 2 < n,
                        i + 1 <= j <= n,
                        p == grid(self.packed()),
                        w == shifted(p),
                        next == reflect(w, tc, prev, (i + 1) as int, n as int, (i + 1) as int, true),
                        q.wf(),
                        q.nrows() == n,
                        q.ncols() == n,
                        forall|a: int, b: int| #[trigger]
                            q.in_bounds(a, b) ==> q.at(a, b) == if b < j {
                                next(a, b)
                            } else {
                                prev(a, b)
                            },
                    decreases n - j,
                {
                    assert(q.in_bounds((i + 1) as int, j as int));
                    let mut dot = q.entry(i + 1, j);
                    let mut k = i + 2;
                    while k < n
                        invariant
                            self.wf(),
                            n == self.packed().nrows(),
                            i + 2 <= k <= n,
                            i + 1 <= j < n,
                            p == grid(self.packed()),
                            w == shifted(p),
                            q.wf(),
                            q.nrows() == n,
                            q.ncols() == n,
                            forall|a: int, b: int| #[trigger]
                                q.in_bounds(a, b) ==> q.at(a, b) == if b < j {
                                    next(a, b)
                                } else {
                                    prev(a, b)
                                },
                            dot == hh_dot(w, prev, (i + 1) as int, j as int, k as int, true),
                        decreases n - k,
                    {
                        assert(self.packed_matrix.in_bounds(k as int, i as int));
                        assert(q.in_bounds(k as int, j as int));
                        assert(w(k as int, (i + 1) as int) == p(k as int, i as int));
                        dot = dot.plus(self.packed_matrix.entry(k, i).conj().times(q.entry(k, j)));
                        k = k + 1;
                    }
                    let factor = tc.times(dot);
                    let ghost before = q;
                    let x = q.entry(i + 1, j);
                    q.set(i + 1, j, x.minus(factor));
                    proof {
                        assert forall|a: int, b: int| #[trigger] q.in_bounds(a, b) implies q.at(a, b) == if b < j || (b
                            == j && a <= i + 1) {
                            next(a, b)
                        } else {
                            prev(a, b)
                        } by {
                            assert(before.in_bounds(a, b));
                        }
                    }
                    let mut k = i + 2;
                    while k < n
                        invariant
                            self.wf(),
                            n == self.packed().nrows(),
                            i + 2 <= k <= n,
                            i + 1 <= j < n,
                            p == grid(self.packed()),
                            w == shifted(p),
                            next == reflect(w, tc, prev, (i + 1) as int, n as int, (i + 1) as int, true),
                            factor == tc.spec_times(hh_dot(w, prev, (i + 1) as int, j as int, n as int, true)),
                            q.wf(),
                            q.nrows() == n,
                            q.ncols() == n,
                            forall|a: int, b: int| #[trigger]
                                q.in_bounds(a, b) ==> q.at(a, b) == if b < j || (b == j && a < k) {
                                    next(a, b)
                                } else {
                                    prev(a, b)
                                },
                        decreases n - k,
                    {
                        let ghost before = q;
                        assert(self.packed_matrix.in_bounds(k as int, i as int));
                        assert(q.in_bounds(k as int, j as int));
                        let vk = self.packed_matrix.entry(k, i);
                        let x = q.entry(k, j);
                        assert(w(k as int, (i + 1) as int) == vk);
                        assert(next(k as int, j as int) == x.spec_minus(factor.spec_times(vk)));
                        q.set(k, j, x.minus(factor.times(vk)));
                        proof {
                            assert forall|a: int, b: int| #[trigger] q.in_bounds(a, b) implies q.at(a, b) == if b < j
                                || (b == j && a < k + 1) {
                                next(a, b)
                            } else {
                                prev(a, b)
                            } by {
                                assert(before.in_bounds(a, b));
                            }
                        }
                        k = k + 1;
                    }
                    j = j + 1;
                }
                proof {
                    assert forall|a: int, b: int| #[trigger] q.in_bounds(a, b) implies q.at(a, b) == next(a, b) by {}
                }
            }
            m = m + 1;
        }
        q
    }
}

} // verus!
