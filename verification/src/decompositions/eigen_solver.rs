//! Eigenvalues and eigenvectors of a general square real matrix.
//!
//! The eigenvalues are read from the diagonal blocks of the real Schur form
//! `T`: a `1 x 1` block gives a real value, a `2 x 2` block (a subdiagonal
//! entry that is not negligible) the roots of its characteristic
//! polynomial. Eigenvectors are found by back-substitution in `T` and
//! mapped back with `Q`.

use crate::complex::{Complex, cx};
use crate::decompositions::lu::holds;
use crate::decompositions::schur::{RealSchur, schur_converges, schur_result};
use crate::matrix::Matrix;
use crate::scalar::Scalar;
use vstd::prelude::*;

verus! {

/// The subdiagonal entry `(i + 1, i)` of `t` exceeds `eps` times the sum of
/// the neighbouring diagonal moduli: rows `i, i + 1` form a `2 x 2` block.
pub open spec fn pair_block<T: Scalar>(t: spec_fn(int, int) -> T, i: int, eps: T) -> bool {
    eps.spec_times(t(i, i).spec_abs().spec_plus(t(i + 1, i + 1).spec_abs())).spec_lt(t(i + 1, i).spec_abs())
}

/// The two eigenvalues of the `2 x 2` block at `i`, from its trace `tr`
/// and determinant `det`: `(tr +- i sqrt(-disc)) / 2` when the
/// discriminant `disc = tr^2 - 4 det` is below zero, otherwise the real
/// roots `(tr +- sqrt(disc)) / 2`.
pub open spec fn block_values<T: Scalar>(t: spec_fn(int, int) -> T, i: int) -> (Complex<T>, Complex<T>) {
    let a = t(i, i);
    let b = t(i, i + 1);
    let c = t(i + 1, i);
    let d = t(i + 1, i + 1);
    let two = T::spec_from_usize(2);
    let tr = a.spec_plus(d);
    let det = a.spec_times(d).spec_minus(b.spec_times(c));
    let disc = tr.spec_times(tr).spec_minus(T::spec_from_usize(4).spec_times(det));
    if disc.spec_lt(T::spec_zero()) {
        let re = tr.spec_over(two);
        let im = disc.spec_negate().spec_sqrt().spec_over(two);
        (cx(re, im), cx(re, im.spec_negate()))
    } else {
        (
            cx(tr.spec_plus(disc.spec_sqrt()).spec_over(two), T::spec_zero()),
            cx(tr.spec_minus(disc.spec_sqrt()).spec_over(two), T::spec_zero()),
        )
    }
}

/// Zero is neutral for `+`, and `+` is associative.
#[verifier::opaque]
pub open spec fn sum_rules<T: Scalar>() -> bool {
    &&& forall|x: T| #[trigger] x.spec_plus(T::spec_zero()) == x
    &&& forall|x: T, y: T, z: T| #[trigger] x.spec_plus(y).spec_plus(z) == x.spec_plus(y.spec_plus(z))
}

/// Halves add up: `x / 2 + x / 2 = x` and `(x + s) / 2 + (x - s) / 2 = x`;
/// and `x + (-x) = 0`.
#[verifier::opaque]
pub open spec fn halves_rules<T: Scalar>() -> bool {
    let two = T::spec_from_usize(2);
    &&& forall|x: T| #[trigger] x.spec_over(two).spec_plus(x.spec_over(two)) == x
    &&& forall|x: T, s: T| #[trigger] x.spec_plus(s).spec_over(two).spec_plus(x.spec_minus(s).spec_over(two)) == x
    &&& forall|x: T| #[trigger] x.spec_plus(x.spec_negate()) == T::spec_zero()
}

/// Rules of exact arithmetic for sums and halves (see `sum_rules` and
/// `halves_rules`).
pub open spec fn half_rules<T: Scalar>() -> bool {
    sum_rules::<T>() && halves_rules::<T>()
}

/// The instances of `half_rules` at `x`, `y` and `z`.
pub proof fn lemma_halves<T: Scalar>(x: T, y: T, z: T)
    requires
        half_rules::<T>(),
    ensures
        x.spec_plus(T::spec_zero()) == x,
        x.spec_plus(y).spec_plus(z) == x.spec_plus(y.spec_plus(z)),
        x.spec_over(T::spec_from_usize(2)).spec_plus(x.spec_over(T::spec_from_usize(2))) == x,
        x.spec_plus(y).spec_over(T::spec_from_usize(2)).spec_plus(x.spec_minus(y).spec_over(T::spec_from_usize(2))) == x,
        x.spec_plus(x.spec_negate()) == T::spec_zero(),
{
    assert(x.spec_plus(T::spec_zero()) == x && x.spec_plus(y).spec_plus(z) == x.spec_plus(y.spec_plus(z))) by {
        reveal(sum_rules);
    }
    assert(x.spec_over(T::spec_from_usize(2)).spec_plus(x.spec_over(T::spec_from_usize(2))) == x
        && x.spec_plus(y).spec_over(T::spec_from_usize(2)).spec_plus(x.spec_minus(y).spec_over(T::spec_from_usize(2))) == x
        && x.spec_plus(x.spec_negate()) == T::spec_zero()) by {
        reveal(halves_rules);
    }
}

/// The sum of the real parts of `s`, added from the right.
pub open spec fn re_sum<T: Scalar>(s: Seq<Complex<T>>) -> T
    decreases s.len(),
{
    if s.len() == 0 {
        T::spec_zero()
    } else {
        s[0].re.spec_plus(re_sum(s.subrange(1, s.len() as int)))
    }
}

/// The sum of the imaginary parts of `s`, added from the right.
pub open spec fn im_sum<T: Scalar>(s: Seq<Complex<T>>) -> T
    decreases s.len(),
{
    if s.len() == 0 {
        T::spec_zero()
    } else {
        s[0].im.spec_plus(im_sum(s.subrange(1, s.len() as int)))
    }
}

/// `t(i, i) + t(i + 1, i + 1) + ... + t(n - 1, n - 1)`, added from the
/// right: the trace of the rows `i ..` of `t`.
pub open spec fn diag_sum<T: Scalar>(t: spec_fn(int, int) -> T, n: int, i: int) -> T
    decreases n - i,
{
    if i >= n {
        T::spec_zero()
    } else {
        t(i, i).spec_plus(diag_sum(t, n, i + 1))
    }
}

/// Under the rules of exact arithmetic, the two eigenvalues of a `2 x 2`
/// block sum to the block's trace: their real parts add up to
/// `t(i, i) + t(i + 1, i + 1)` and their imaginary parts to zero.
pub proof fn lemma_block_values_sum<T: Scalar>(t: spec_fn(int, int) -> T, i: int)
    requires
        half_rules::<T>(),
    ensures
        block_values(t, i).0.re.spec_plus(block_values(t, i).1.re) == t(i, i).spec_plus(t(i + 1, i + 1)),
        block_values(t, i).0.im.spec_plus(block_values(t, i).1.im) == T::spec_zero(),
{
    let a = t(i, i);
    let b = t(i, i + 1);
    let c = t(i + 1, i);
    let d = t(i + 1, i + 1);
    let tr = a.spec_plus(d);
    let det = a.spec_times(d).spec_minus(b.spec_times(c));
    let disc = tr.spec_times(tr).spec_minus(T::spec_from_usize(4).spec_times(det));
    let two = T::spec_from_usize(2);
    lemma_halves(tr, disc.spec_sqrt(), tr);
    let im = disc.spec_negate().spec_sqrt().spec_over(two);
    lemma_halves(im, im, im);
    lemma_halves(T::spec_zero(), T::spec_zero(), T::spec_zero());
}

/// Under the rules of exact arithmetic, the eigenvalues of the blocks of
/// `t` from row `i` on sum to the trace of those rows: the real parts add
/// up to `t(i, i) + ... + t(n - 1, n - 1)` and the imaginary parts to zero.
pub proof fn lemma_values_sum<T: Scalar>(t: spec_fn(int, int) -> T, n: int, i: int, eps: T)
    requires
        half_rules::<T>(),
        0 <= i <= n,
    ensures
        re_sum(values_from(t, n, i, eps)) == diag_sum(t, n, i),
        im_sum(values_from(t, n, i, eps)) == T::spec_zero(),
    decreases n - i,
{
    let zero = T::spec_zero();
    if i < n {
        let w = values_from(t, n, i, eps);
        if i + 1 < n && pair_block(t, i, eps) {
            lemma_values_sum(t, n, i + 2, eps);
            let rest = values_from(t, n, i + 2, eps);
            let p = block_values(t, i);
            lemma_block_values_sum(t, i);
            assert(w == seq![p.0, p.1] + rest);
            let w1 = w.subrange(1, w.len() as int);
            assert(w1 =~= seq![p.1] + rest);
            assert(w1.subrange(1, w1.len() as int) =~= rest);
            assert(w[0] == p.0 && w1[0] == p.1);
            assert(re_sum(w) == p.0.re.spec_plus(re_sum(w1)));
            assert(re_sum(w1) == p.1.re.spec_plus(re_sum(rest)));
            assert(im_sum(w) == p.0.im.spec_plus(im_sum(w1)));
            assert(im_sum(w1) == p.1.im.spec_plus(im_sum(rest)));
            assert(diag_sum(t, n, i) == t(i, i).spec_plus(diag_sum(t, n, i + 1)));
            assert(diag_sum(t, n, i + 1) == t(i + 1, i + 1).spec_plus(diag_sum(t, n, i + 2)));
            let r = re_sum(rest);
            let d = diag_sum(t, n, i + 2);
            lemma_halves(p.0.re, p.1.re, r);
            lemma_halves(t(i, i), t(i + 1, i + 1), d);
            lemma_halves(p.0.im, p.1.im, zero);
            lemma_halves(p.1.im, zero, zero);
            lemma_halves(zero, zero, zero);
        } else {
            lemma_values_sum(t, n, i + 1, eps);
            let rest = values_from(t, n, i + 1, eps);
            assert(w == seq![cx(t(i, i), zero)] + rest);
            assert(w.subrange(1, w.len() as int) =~= rest);
            assert(w[0] == cx(t(i, i), zero));
            assert(re_sum(w) == t(i, i).spec_plus(re_sum(rest)));
            assert(im_sum(w) == zero.spec_plus(im_sum(rest)));
            lemma_halves(zero, zero, zero);
        }
    }
}

/// Under the rules of exact arithmetic, the eigenvalues that
/// `EigenSolver::new` reports for `a` sum to the trace of its real Schur
/// form `T`: the real parts add up to `T(0, 0) + ... + T(n - 1, n - 1)` and
/// the imaginary parts to zero.
pub proof fn lemma_eigenvalues_sum_to_trace<T: Scalar>(a: Matrix<T>)
    requires
        half_rules::<T>(),
    ensures
        re_sum(eigen_values_of(a)) == diag_sum(schur_result(a).0, a.nrows() as int, 0),
        im_sum(eigen_values_of(a)) == T::spec_zero(),
{
    lemma_values_sum(schur_result(a).0, a.nrows() as int, 0, T::spec_epsilon());
}

/// The eigenvalues of the diagonal blocks of the `n x n` quasi-triangular
/// `t` from row `i` on.
pub open spec fn values_from<T: Scalar>(t: spec_fn(int, int) -> T, n: int, i: int, eps: T) -> Seq<Complex<T>>
    decreases n - i,
{
    if i >= n {
        Seq::empty()
    } else if i + 1 < n && pair_block(t, i, eps) {
        let p = block_values(t, i);
        seq![p.0, p.1] + values_from(t, n, i + 2, eps)
    } else {
        seq![cx(t(i, i), T::spec_zero())] + values_from(t, n, i + 1, eps)
    }
}

/// There is one eigenvalue per row.
pub proof fn lemma_values_len<T: Scalar>(t: spec_fn(int, int) -> T, n: int, i: int, eps: T)
    requires
        0 <= i <= n,
    ensures
        values_from(t, n, i, eps).len() == n - i,
    decreases n - i,
{
    if i < n {
        if i + 1 < n && pair_block(t, i, eps) {
            lemma_values_len(t, n, i + 2, eps);
        } else {
            lemma_values_len(t, n, i + 1, eps);
        }
    }
}

/// Reads the eigenvalues off the quasi-triangular `t` (see `values_from`).
fn extract_values<T: Scalar>(t: &Matrix<T>, Ghost(g): Ghost<spec_fn(int, int) -> T>) -> (r: Vec<Complex<T>>)
    requires
        t.wf(),
        t.nrows() == t.ncols(),
        holds(*t, g),
    ensures
        r@ == values_from(g, t.nrows() as int, 0, T::spec_epsilon()),
{
    let n = t.rows();
    let eps = T::epsilon();
    let ghost all = values_from(g, n as int, 0, eps);
    let mut vals: Vec<Complex<T>> = Vec::new();
    let mut i: usize = 0;
    while i < n
        invariant
            i <= n + 1,
            n == t.nrows(),
            n == t.ncols(),
            t.wf(),
            holds(*t, g),
            eps == T::spec_epsilon(),
            all == values_from(g, n as int, 0, eps),
            vals@ + values_from(g, n as int, i as int, eps) == all,
        decreases n + 1 - i,
    {
        let ghost rest = values_from(g, n as int, i as int, eps);
        if i + 1 < n {
            assert(t.in_bounds((i + 1) as int, i as int) && t.in_bounds(i as int, i as int));
            assert(t.in_bounds((i + 1) as int, (i + 1) as int) && t.in_bounds(i as int, (i + 1) as int));
            let h = t.entry(i + 1, i);
            if eps.times(t.entry(i, i).abs().plus(t.entry(i + 1, i + 1).abs())).is_lt(h.abs()) {
                let a = t.entry(i, i);
                let b = t.entry(i, i + 1);
                let c = h;
                let d = t.entry(i + 1, i + 1);
                let two = T::from_usize(2);
                let tr = a.plus(d);
                let det = a.times(d).minus(b.times(c));
                let disc = tr.times(tr).minus(T::from_usize(4).times(det));
                if disc.is_lt(T::zero()) {
                    let re = tr.over(two);
                    let im = disc.negate().sqrt().over(two);
                    vals.push(Complex::new(re, im));
                    vals.push(Complex::new(re, im.negate()));
                } else {
                    vals.push(Complex::new(tr.plus(disc.sqrt()).over(two), T::zero()));
                    vals.push(Complex::new(tr.minus(disc.sqrt()).over(two), T::zero()));
                }
                proof {
                    let p = block_values(g, i as int);
                    assert(rest == seq![p.0, p.1] + values_from(g, n as int, (i + 2) as int, eps));
                    assert(vals@ + values_from(g, n as int, (i + 2) as int, eps) == all);
                }
                i = i + 2;
                continue;
            }
        }
        assert(t.in_bounds(i as int, i as int));
        vals.push(Complex::new(t.entry(i, i), T::zero()));
        proof {
            assert(rest == seq![cx(g(i as int, i as int), T::spec_zero())] + values_from(g, n as int, (i + 1) as int, eps));
            assert(vals@ + values_from(g, n as int, (i + 1) as int, eps) == all);
        }
        i = i + 1;
    }
    proof {
        assert(values_from(g, n as int, i as int, eps) == Seq::<Complex<T>>::empty());
        assert(vals@ == vals@ + Seq::<Complex<T>>::empty());
    }
    vals
}

/// `t(i, lo) y[lo] + ... + t(i, hi - 1) y[hi - 1]` accumulated from zero.
pub open spec fn row_sum<T: Scalar>(t: spec_fn(int, int) -> T, y: Seq<T>, i: int, lo: int, hi: int) -> T
    decreases hi - lo,
{
    if hi <= lo {
        T::spec_zero()
    } else {
        row_sum(t, y, i, lo, hi - 1).spec_plus(t(i, hi - 1).spec_times(y[hi - 1]))
    }
}

/// `q(i, 0) y[0] + ... + q(i, m - 1) y[m - 1]` accumulated from zero.
pub open spec fn q_sum<T: Scalar>(q: spec_fn(int, int) -> T, y: Seq<T>, i: int, m: int) -> T
    decreases m,
{
    if m <= 0 {
        T::spec_zero()
    } else {
        q_sum(q, y, i, m - 1).spec_plus(q(i, m - 1).spec_times(y[m - 1]))
    }
}

/// The back-substitution for the real eigenvalue `l` at position `k`
/// after `s` rows: starting from the unit vector `e_k` (length `n`), row
/// `i = k - s` gets `-sum / d` with `sum = row_sum(t, y, i, i + 1, k + 1)`
/// and `d = t(i, i) - l`, or `-sum / (d + eps)` when `|d|` does not
/// exceed `eps`.
pub open spec fn real_y<T: Scalar>(t: spec_fn(int, int) -> T, k: int, l: T, eps: T, n: nat, s: nat) -> Seq<T>
    decreases s,
{
    if s == 0 {
        Seq::new(n, |j: int| if j == k { T::spec_from_usize(1) } else { T::spec_zero() })
    } else {
        let prev = real_y(t, k, l, eps, n, (s - 1) as nat);
        let i = k - s;
        let sum = row_sum(t, prev, i, i + 1, k + 1);
        let d = t(i, i).spec_minus(l);
        prev.update(
            i,
            if eps.spec_lt(d.spec_abs()) {
                sum.spec_negate().spec_over(d)
            } else {
                sum.spec_negate().spec_over(d.spec_plus(eps))
            },
        )
    }
}

/// The back-substitution for the complex eigenvalue `l` of the block at
/// `k`, real and imaginary parts, after `s` rows: starting from
/// `y_k = (l - t(k+1, k+1)) / t(k+1, k)` and `y_{k+1} = 1`, row
/// `i = k - s` gets `(-sum) / (t(i, i) - l)` written out over the parts.
pub open spec fn complex_y<T: Scalar>(t: spec_fn(int, int) -> T, k: int, l: Complex<T>, n: nat, s: nat) -> (
    Seq<T>,
    Seq<T>,
)
    decreases s,
{
    if s == 0 {
        let y1 = cx(l.re.spec_minus(t(k + 1, k + 1)), l.im).quotient(cx(t(k + 1, k), T::spec_zero()));
        (
            Seq::new(
                n,
                |j: int|
                    if j == k {
                        y1.re
                    } else if j == k + 1 {
                        T::spec_from_usize(1)
                    } else {
                        T::spec_zero()
                    },
            ),
            Seq::new(n, |j: int| if j == k { y1.im } else { T::spec_zero() }),
        )
    } else {
        let prev = complex_y(t, k, l, n, (s - 1) as nat);
        let i = k - s;
        let sr = row_sum(t, prev.0, i, i + 1, k + 2);
        let si = row_sum(t, prev.1, i, i + 1, k + 2);
        let d = t(i, i).spec_minus(l.re);
        let den = d.spec_times(d).spec_plus(l.im.spec_times(l.im));
        (
            prev.0.update(i, sr.spec_negate().spec_times(d).spec_minus(si.spec_times(l.im)).spec_over(den)),
            prev.1.update(i, si.spec_negate().spec_times(d).spec_plus(sr.spec_times(l.im)).spec_over(den)),
        )
    }
}

/// `acc` with column `k` replaced by `Q y` (imaginary parts zero), `y`
/// of length `k + 1`.
pub open spec fn real_column<T: Scalar>(
    acc: spec_fn(int, int) -> Complex<T>,
    q: spec_fn(int, int) -> T,
    y: Seq<T>,
    k: int,
) -> spec_fn(int, int) -> Complex<T> {
    |i: int, c: int|
        if c == k {
            cx(q_sum(q, y, i, k + 1), T::spec_zero())
        } else {
            acc(i, c)
        }
}

/// `acc` with columns `k` and `k + 1` replaced by `Q (yr + i yi)` and its
/// conjugate, over the first `k + 2` entries.
pub open spec fn pair_columns<T: Scalar>(
    acc: spec_fn(int, int) -> Complex<T>,
    q: spec_fn(int, int) -> T,
    yr: Seq<T>,
    yi: Seq<T>,
    k: int,
) -> spec_fn(int, int) -> Complex<T> {
    |i: int, c: int|
        if c == k {
            cx(q_sum(q, yr, i, k + 2), q_sum(q, yi, i, k + 2))
        } else if c == k + 1 {
            cx(q_sum(q, yr, i, k + 2), q_sum(q, yi, i, k + 2).spec_negate())
        } else {
            acc(i, c)
        }
}

/// The eigenvector columns from position `k` on, written into `acc`: a
/// value with imaginary part equal to zero gets `Q y` for its real
/// back-substitution; otherwise the pair at `k, k + 1` gets `Q y` and its
/// conjugate for the complex back-substitution.
pub open spec fn vectors_from<T: Scalar>(
    t: spec_fn(int, int) -> T,
    q: spec_fn(int, int) -> T,
    vals: Seq<Complex<T>>,
    n: int,
    k: int,
    eps: T,
    acc: spec_fn(int, int) -> Complex<T>,
) -> spec_fn(int, int) -> Complex<T>
    decreases n - k,
{
    if k >= n {
        acc
    } else if vals[k].im.spec_eq(T::spec_zero()) {
        let y = real_y(t, k, vals[k].re, eps, n as nat, k as nat);
        vectors_from(t, q, vals, n, k + 1, eps, real_column(acc, q, y, k))
    } else if k + 1 >= n {
        acc
    } else {
        let y = complex_y(t, k, vals[k], n as nat, k as nat);
        vectors_from(t, q, vals, n, k + 2, eps, pair_columns(acc, q, y.0, y.1, k))
    }
}

/// The walk over the eigenvalues from position `k` never meets a value with
/// nonzero imaginary part in the last position (where its pair would be
/// missing).
pub open spec fn walk_ok<T: Scalar>(vals: Seq<Complex<T>>, n: int, k: int) -> bool
    decreases n - k,
{
    if k >= n {
        true
    } else if vals[k].im.spec_eq(T::spec_zero()) {
        walk_ok(vals, n, k + 1)
    } else {
        k + 1 < n && walk_ok(vals, n, k + 2)
    }
}

/// Walks the eigenvalues as the eigenvector computation does and tells
/// whether every value with nonzero imaginary part has a next position for
/// its pair.
fn values_paired<T: Scalar>(vals: &Vec<Complex<T>>) -> (r: bool)
    ensures
        r == walk_ok(vals@, vals@.len() as int, 0),
{
    let n = vals.len();
    let mut k: usize = 0;
    while k < n
        invariant
            k <= n,
            n == vals@.len(),
            walk_ok(vals@, n as int, 0) == walk_ok(vals@, n as int, k as int),
        decreases n - k,
    {
        if vals[k].im.is_eq(T::zero()) {
            k = k + 1;
        } else if k + 1 < n {
            k = k + 2;
        } else {
            return false;
        }
    }
    true
}

/// The real back-substitution (see `real_y`).
fn real_back_substitution<T: Scalar>(t: &Matrix<T>, k: usize, l: T, eps: T, Ghost(g): Ghost<spec_fn(int, int) -> T>) -> (y: Vec<T>)
    requires
        t.wf(),
        t.nrows() == t.ncols(),
        k < t.nrows(),
        holds(*t, g),
    ensures
        y@ == real_y(g, k as int, l, eps, t.nrows(), k as nat),
        y@.len() == t.nrows(),
{
    let n = t.rows();
    let mut y: Vec<T> = Vec::new();
    let mut j: usize = 0;
    while j < n
        invariant
            j <= n,
            k < n,
            y@ == real_y(g, k as int, l, eps, n as nat, 0).subrange(0, j as int),
        decreases n - j,
    {
        if j == k {
            y.push(T::from_usize(1));
        } else {
            y.push(T::zero());
        }
        j = j + 1;
    }
    assert(y@ == real_y(g, k as int, l, eps, n as nat, 0));
    let mut s: usize = 0;
    while s < k
        invariant
            s <= k < n,
            n == t.nrows(),
            n == t.ncols(),
            t.wf(),
            holds(*t, g),
            y@ == real_y(g, k as int, l, eps, n as nat, s as nat),
            y@.len() == n,
        decreases k - s,
    {
        let i = k - 1 - s;
        let mut sum = T::zero();
        let mut j = i + 1;
        while j <= k
            invariant
                i < j <= k + 1,
                k < n,
                n == t.nrows(),
                n == t.ncols(),
                t.wf(),
                holds(*t, g),
                y@.len() == n,
                sum == row_sum(g, y@, i as int, (i + 1) as int, j as int),
            decreases k + 1 - j,
        {
            assert(t.in_bounds(i as int, j as int));
            sum = sum.plus(t.entry(i, j).times(y[j]));
            j = j + 1;
        }
        assert(t.in_bounds(i as int, i as int));
        let d = t.entry(i, i).minus(l);
        let val = if eps.is_lt(d.abs()) {
            sum.negate().over(d)
        } else {
            sum.negate().over(d.plus(eps))
        };
        y.set(i, val);
        s = s + 1;
    }
    y
}

/// The complex back-substitution (see `complex_y`).
fn complex_back_substitution<T: Scalar>(t: &Matrix<T>, k: usize, l: Complex<T>, Ghost(g): Ghost<spec_fn(int, int) -> T>) -> (y: (Vec<T>, Vec<T>))
    requires
        t.wf(),
        t.nrows() == t.ncols(),
        k + 1 < t.nrows(),
        holds(*t, g),
    ensures
        (y.0@, y.1@) == complex_y(g, k as int, l, t.nrows(), k as nat),
        y.0@.len() == t.nrows(),
        y.1@.len() == t.nrows(),
{
    let n = t.rows();
    assert(t.in_bounds((k + 1) as int, k as int) && t.in_bounds((k + 1) as int, (k + 1) as int));
    let t21 = t.entry(k + 1, k);
    let t22 = t.entry(k + 1, k + 1);
    let y1 = Complex::new(l.re.minus(t22), l.im).over(Complex::new(t21, T::zero()));
    let ghost init = complex_y(g, k as int, l, n as nat, 0);
    let mut yr: Vec<T> = Vec::new();
    let mut yi: Vec<T> = Vec::new();
    let mut j: usize = 0;
    while j < n
        invariant
            j <= n,
            k + 1 < n,
            init == complex_y(g, k as int, l, n as nat, 0),
            y1 == cx(l.re.spec_minus(g((k + 1) as int, (k + 1) as int)), l.im).quotient(cx(g((k + 1) as int, k as int), T::spec_zero())),
            yr@ == init.0.subrange(0, j as int),
            yi@ == init.1.subrange(0, j as int),
        decreases n - j,
    {
        if j == k {
            yr.push(y1.re);
            yi.push(y1.im);
        } else if j == k + 1 {
            yr.push(T::from_usize(1));
            yi.push(T::zero());
        } else {
            yr.push(T::zero());
            yi.push(T::zero());
        }
        j = j + 1;
    }
    assert(yr@ == init.0 && yi@ == init.1);
    let mut s: usize = 0;
    while s < k
        invariant
            s <= k,
            k + 1 < n,
            n == t.nrows(),
            n == t.ncols(),
            t.wf(),
            holds(*t, g),
            (yr@, yi@) == complex_y(g, k as int, l, n as nat, s as nat),
            yr@.len() == n,
            yi@.len() == n,
        decreases k - s,
    {
        let i = k - 1 - s;
        let mut sr = T::zero();
        let mut si = T::zero();
        let mut j = i + 1;
        while j < k + 2
            invariant
                i < j <= k + 2,
                k + 1 < n,
                n == t.nrows(),
                n == t.ncols(),
                t.wf(),
                holds(*t, g),
                yr@.len() == n,
                yi@.len() == n,
                sr == row_sum(g, yr@, i as int, (i + 1) as int, j as int),
                si == row_sum(g, yi@, i as int, (i + 1) as int, j as int),
            decreases k + 2 - j,
        {
            assert(t.in_bounds(i as int, j as int));
            let tij = t.entry(i, j);
            sr = sr.plus(tij.times(yr[j]));
            si = si.plus(tij.times(yi[j]));
            j = j + 1;
        }
        assert(t.in_bounds(i as int, i as int));
        let d = t.entry(i, i).minus(l.re);
        let den = d.times(d).plus(l.im.times(l.im));
        yr.set(i, sr.negate().times(d).minus(si.times(l.im)).over(den));
        yi.set(i, si.negate().times(d).plus(sr.times(l.im)).over(den));
        s = s + 1;
    }
    (yr, yi)
}

/// The complex zero as a function of `(row, column)`.
pub open spec fn complex_zeros<T: Scalar>() -> spec_fn(int, int) -> Complex<T> {
    |i: int, j: int| Complex::<T>::spec_zero()
}

/// Computes the eigenvector columns (see `vectors_from`).
fn compute_vectors<T: Scalar>(
    t: &Matrix<T>,
    q: &Matrix<T>,
    vals: &Vec<Complex<T>>,
    Ghost(gt): Ghost<spec_fn(int, int) -> T>,
    Ghost(gq): Ghost<spec_fn(int, int) -> T>,
) -> (v: Matrix<Complex<T>>)
    requires
        t.wf(),
        q.wf(),
        t.nrows() == t.ncols(),
        q.nrows() == t.nrows(),
        q.ncols() == t.nrows(),
        vals@.len() == t.nrows(),
        walk_ok(vals@, t.nrows() as int, 0),
        holds(*t, gt),
        holds(*q, gq),
    ensures
        v.wf(),
        v.nrows() == t.nrows(),
        v.ncols() == t.nrows(),
        holds(v, vectors_from(gt, gq, vals@, t.nrows() as int, 0, T::spec_epsilon(), complex_zeros())),
{
    let n = t.rows();
    let _size = t.size();
    let eps = T::epsilon();
    let ghost target = vectors_from(gt, gq, vals@, n as int, 0, eps, complex_zeros());
    let mut vecs: Matrix<Complex<T>> = Matrix::zeros(n, n);
    let ghost mut acc = complex_zeros::<T>();
    let mut k: usize = 0;
    while k < n
        invariant
            k <= n,
            n == t.nrows(),
            n == t.ncols(),
            n == q.nrows(),
            n == q.ncols(),
            t.wf(),
            q.wf(),
            holds(*t, gt),
            holds(*q, gq),
            vals@.len() == n,
            eps == T::spec_epsilon(),
            vecs.wf(),
            vecs.nrows() == n,
            vecs.ncols() == n,
            holds(vecs, acc),
            walk_ok(vals@, n as int, k as int),
            vectors_from(gt, gq, vals@, n as int, k as int, eps, acc) == target,
        decreases n - k,
    {
        let lambda = vals[k];
        if lambda.im.is_eq(T::zero()) {
            let y = real_back_substitution(t, k, lambda.re, eps, Ghost(gt));
            let ghost next = real_column(acc, gq, y@, k as int);
            let ghost start = vecs;
            let mut i: usize = 0;
            while i < n
                invariant
                    i <= n,
                    k < n,
                    n == q.nrows(),
                    n == q.ncols(),
                    q.wf(),
                    holds(*q, gq),
                    y@.len() == n,
                    next == real_column(acc, gq, y@, k as int),
                    vecs.wf(),
                    vecs.same_shape(&start),
                    start.nrows() == n,
                    start.ncols() == n,
                    holds(start, acc),
                    forall|r: int, c: int| #[trigger]
                        vecs.in_bounds(r, c) ==> vecs.at(r, c) == if c == k && r < i {
                            next(r, c)
                        } else {
                            acc(r, c)
                        },
                decreases n - i,
            {
                let mut val = T::zero();
                let mut j: usize = 0;
                while j < k + 1
                    invariant
                        j <= k + 1,
                        i < n,
                        k < n,
                        n == q.nrows(),
                        n == q.ncols(),
                        q.wf(),
                        holds(*q, gq),
                        y@.len() == n,
                        val == q_sum(gq, y@, i as int, j as int),
                    decreases k + 1 - j,
                {
                    assert(q.in_bounds(i as int, j as int));
                    val = val.plus(q.entry(i, j).times(y[j]));
                    j = j + 1;
                }
                let ghost before = vecs;
                vecs.set(i, k, Complex::new(val, T::zero()));
                proof {
                    assert forall|r: int, c: int| #[trigger] vecs.in_bounds(r, c) implies vecs.at(r, c) == if c == k && r
                        < i + 1 {
                        next(r, c)
                    } else {
                        acc(r, c)
                    } by {
                        assert(before.in_bounds(r, c));
                        assert(start.in_bounds(r, c));
                    }
                }
                i = i + 1;
            }
            proof {
                acc = next;
            }
            k = k + 1;
        } else {
            let (yr, yi) = complex_back_substitution(t, k, lambda, Ghost(gt));
            let ghost next = pair_columns(acc, gq, yr@, yi@, k as int);
            let ghost start = vecs;
            let mut i: usize = 0;
            while i < n
                invariant
                    i <= n,
                    k + 1 < n,
                    n == q.nrows(),
                    n == q.ncols(),
                    q.wf(),
                    holds(*q, gq),
                    yr@.len() == n,
                    yi@.len() == n,
                    next == pair_columns(acc, gq, yr@, yi@, k as int),
                    vecs.wf(),
                    vecs.same_shape(&start),
                    start.nrows() == n,
                    start.ncols() == n,
                    holds(start, acc),
                    forall|r: int, c: int| #[trigger]
                        vecs.in_bounds(r, c) ==> vecs.at(r, c) == if (c == k || c == k + 1) && r < i {
                            next(r, c)
                        } else {
                            acc(r, c)
                        },
                decreases n - i,
            {
                let mut vr = T::zero();
                let mut vi = T::zero();
                let mut j: usize = 0;
                while j < k + 2
                    invariant
                        j <= k + 2,
                        i < n,
                        k + 1 < n,
                        n == q.nrows(),
                        n == q.ncols(),
                        q.wf(),
                        holds(*q, gq),
                        yr@.len() == n,
                        yi@.len() == n,
                        vr == q_sum(gq, yr@, i as int, j as int),
                        vi == q_sum(gq, yi@, i as int, j as int),
                    decreases k + 2 - j,
                {
                    assert(q.in_bounds(i as int, j as int));
                    let qij = q.entry(i, j);
                    vr = vr.plus(qij.times(yr[j]));
                    vi = vi.plus(qij.times(yi[j]));
                    j = j + 1;
                }
                let ghost before = vecs;
                vecs.set(i, k, Complex::new(vr, vi));
                let ghost mid = vecs;
                vecs.set(i, k + 1, Complex::new(vr, vi.negate()));
                proof {
                    assert forall|r: int, c: int| #[trigger] vecs.in_bounds(r, c) implies vecs.at(r, c) == if (c == k
                        || c == k + 1) && r < i + 1 {
                        next(r, c)
                    } else {
                        acc(r, c)
                    } by {
                        assert(before.in_bounds(r, c));
                        assert(mid.in_bounds(r, c));
                        assert(start.in_bounds(r, c));
                    }
                }
                i = i + 1;
            }
            proof {
                acc = next;
            }
            k = k + 2;
        }
    }
    vecs
}

/// The eigenvalues computed from `a`: those of the diagonal blocks of its
/// real Schur form.
pub open spec fn eigen_values_of<T: Scalar>(a: Matrix<T>) -> Seq<Complex<T>> {
    values_from(schur_result(a).0, a.nrows() as int, 0, T::spec_epsilon())
}

/// The eigenvectors computed from `a` (see `vectors_from`), starting from
/// the complex zero.
pub open spec fn eigen_vectors_of<T: Scalar>(a: Matrix<T>) -> spec_fn(int, int) -> Complex<T> {
    vectors_from(
        schur_result(a).0,
        schur_result(a).1,
        eigen_values_of(a),
        a.nrows() as int,
        0,
        T::spec_epsilon(),
        complex_zeros(),
    )
}

/// Eigenvalues and, optionally, eigenvectors of a square real matrix.
pub struct EigenSolver<T: Scalar> {
    eigenvalues: Vec<Complex<T>>,
    eigenvectors: Option<Matrix<Complex<T>>>,
}

impl<T: Scalar> EigenSolver<T> {
    /// The eigenvalues.
    pub closed spec fn values(&self) -> Seq<Complex<T>> {
        self.eigenvalues@
    }

    /// The eigenvector matrix, when it was computed.
    pub closed spec fn vectors(&self) -> Option<Matrix<Complex<T>>> {
        self.eigenvectors
    }

    /// Computes the eigenvalues of `matrix` and, when asked, its
    /// eigenvectors. Fails exactly when the real Schur decomposition fails
    /// (a matrix that is not square, or no convergence). The vectors can be
    /// computed when every eigenvalue with a nonzero imaginary part has its
    /// pair after it.
    pub fn new(matrix: &Matrix<T>, compute_eigenvectors: bool) -> (r: Result<Self, String>)
        requires
            matrix.wf(),
        ensures
            r is Ok <==> schur_converges(*matrix) && (compute_eigenvectors ==> walk_ok(
                eigen_values_of(*matrix),
                matrix.nrows() as int,
                0,
            )),
            r matches Ok(d) ==> {
                &&& d.values() == eigen_values_of(*matrix)
                &&& compute_eigenvectors <==> d.vectors() is Some
                &&& d.vectors() matches Some(v) ==> {
                    &&& v.wf()
                    &&& v.nrows() == matrix.nrows()
                    &&& v.ncols() == matrix.nrows()
                    &&& holds(v, eigen_vectors_of(*matrix))
                }
            },
            r matches Err(e) ==> e@ == if matrix.nrows() != matrix.ncols() {
                "EigenSolver requires a square matrix"@
            } else if !schur_converges(*matrix) {
                "RealSchur failed to converge"@
            } else {
                "EigenSolver found a complex eigenvalue without its conjugate"@
            },
    {
        let n = matrix.rows();
        if n != matrix.cols() {
            return Err("EigenSolver requires a square matrix".to_string());
        }
        let schur = match RealSchur::new(matrix) {
            Ok(s) => s,
            Err(e) => {
                return Err(e);
            },
        };
        let t = schur.matrix_t();
        let q = schur.matrix_q();
        let ghost gt = schur_result(*matrix).0;
        let ghost gq = schur_result(*matrix).1;
        let eigenvalues = extract_values(t, Ghost(gt));
        proof {
            lemma_values_len(gt, n as int, 0, T::spec_epsilon());
        }
        let mut eigenvectors: Option<Matrix<Complex<T>>> = None;
        if compute_eigenvectors {
            if !values_paired(&eigenvalues) {
                return Err("EigenSolver found a complex eigenvalue without its conjugate".to_string());
            }
            eigenvectors = Some(compute_vectors(t, q, &eigenvalues, Ghost(gt), Ghost(gq)));
        }
        Ok(EigenSolver { eigenvalues, eigenvectors })
    }

    /// The eigenvalues, block by block down the diagonal of the Schur form.
    pub fn eigenvalues(&self) -> (r: &[Complex<T>])
        ensures
            r@ == self.values(),
    {
        self.eigenvalues.as_slice()
    }

    /// The eigenvector matrix, when it was computed.
    pub fn eigenvectors(&self) -> (r: Option<&Matrix<Complex<T>>>)
        ensures
            r matches Some(v) ==> self.vectors() == Some(*v),
            r is None <==> self.vectors() is None,
    {
        self.eigenvectors.as_ref()
    }
}

/// Zero compares equal to itself, and a value equal to zero stays equal to
/// zero when negated (as for IEEE numbers, where `-0 == 0`).
pub open spec fn zero_sign_stable<T: Scalar>() -> bool {
    &&& T::spec_zero().spec_eq(T::spec_zero())
    &&& forall|x: T| #[trigger] x.spec_eq(T::spec_zero()) ==> x.spec_negate().spec_eq(T::spec_zero())
}

/// The walk over `p + s` from position `p.len() + k` is the walk over `s`
/// from `k`.
proof fn lemma_walk_shift<T: Scalar>(p: Seq<Complex<T>>, s: Seq<Complex<T>>, m: int, k: int)
    requires
        0 <= k,
        s.len() == m,
    ensures
        walk_ok(p + s, p.len() + m, p.len() + k) == walk_ok(s, m, k),
    decreases m - k,
{
    if k < m {
        assert((p + s)[p.len() + k] == s[k]);
        lemma_walk_shift(p, s, m, k + 1);
        if k + 1 < m {
            lemma_walk_shift(p, s, m, k + 2);
        }
    }
}

/// For such a type, the eigenvalues of the blocks from row `i` on can be
/// walked to the end.
proof fn lemma_values_walk<T: Scalar>(t: spec_fn(int, int) -> T, n: int, i: int, eps: T)
    requires
        zero_sign_stable::<T>(),
        0 <= i <= n,
    ensures
        walk_ok(values_from(t, n, i, eps), n - i, 0),
    decreases n - i,
{
    let w = values_from(t, n, i, eps);
    let m = n - i;
    lemma_values_len(t, n, i, eps);
    if i < n {
        if i + 1 < n && pair_block(t, i, eps) {
            let pv = block_values(t, i);
            let rest = values_from(t, n, i + 2, eps);
            lemma_values_walk(t, n, i + 2, eps);
            lemma_values_len(t, n, i + 2, eps);
            let pre = seq![pv.0, pv.1];
            assert(w == pre + rest);
            lemma_walk_shift(pre, rest, m - 2, 0);
            assert(w[0] == pv.0 && w[1] == pv.1);
            if pv.0.im.spec_eq(T::spec_zero()) {
                assert(pv.1.im.spec_eq(T::spec_zero()));
                assert(walk_ok(w, m, 1) == walk_ok(w, m, 2));
            }
        } else {
            let rest = values_from(t, n, i + 1, eps);
            lemma_values_walk(t, n, i + 1, eps);
            lemma_values_len(t, n, i + 1, eps);
            let pre = seq![cx(t(i, i), T::spec_zero())];
            assert(w == pre + rest);
            lemma_walk_shift(pre, rest, m - 1, 0);
            assert(w[0].im == T::spec_zero());
        }
    }
}

/// For a scalar type whose zero equals itself and keeps equal to zero when
/// negated (as IEEE numbers), the eigenvectors of every matrix can be
/// computed: the walk over the eigenvalues always finds the pair of a
/// non-real value, so `EigenSolver::new` never refuses for a missing pair.
pub proof fn lemma_eigenvectors_computable<T: Scalar>(a: Matrix<T>)
    requires
        zero_sign_stable::<T>(),
    ensures
        walk_ok(eigen_values_of(a), a.nrows() as int, 0),
{
    lemma_values_walk(schur_result(a).0, a.nrows() as int, 0, T::spec_epsilon());
}

} // verus!
