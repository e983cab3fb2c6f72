//! Vector arithmetic on the column-major entries of right-hand sides.

use crate::matrix::{dot_upto, product_of, Matrix};
use crate::matrix::lemma_cm_index;
use crate::scalar::Scalar;
use vstd::prelude::*;

verus! {

/// The entries of `A` as a function of `(row, column)`.
pub open spec fn entries<T>(a: Matrix<T>) -> spec_fn(int, int) -> T {
    |i: int, j: int| a.at(i, j)
}

/// A column-major sequence with `rows` rows as a function of
/// `(row, column)`.
pub open spec fn col_major<T>(v: Seq<T>, rows: nat) -> spec_fn(int, int) -> T {
    |i: int, j: int| v[j * rows + i]
}

/// The column-major entries of `A * V`, where `V` has `rows` rows and is
/// stored column-major in `v`; each entry is accumulated from zero over
/// `k = 0, 1, ...`.
pub open spec fn product_flat<T: Scalar>(a: Matrix<T>, v: Seq<T>, rows: nat) -> Seq<T> {
    Seq::new(
        v.len(),
        |q: int| product_of(entries(a), col_major(v, rows), q % (rows as int), q / (rows as int), rows),
    )
}

/// `u[k] + c * v[k]` for every `k`.
pub open spec fn add_scaled<T: Scalar>(u: Seq<T>, c: T, v: Seq<T>) -> Seq<T> {
    Seq::new(u.len(), |k: int| u[k].spec_plus(c.spec_times(v[k])))
}

/// `u[k] - c * v[k]` for every `k`.
pub open spec fn sub_scaled<T: Scalar>(u: Seq<T>, c: T, v: Seq<T>) -> Seq<T> {
    Seq::new(u.len(), |k: int| u[k].spec_minus(c.spec_times(v[k])))
}

/// `u[k] - v[k]` for every `k`.
pub open spec fn difference<T: Scalar>(u: Seq<T>, v: Seq<T>) -> Seq<T> {
    Seq::new(u.len(), |k: int| u[k].spec_minus(v[k]))
}

/// `r[k] + beta * (p[k] - omega * v[k])` for every `k`.
pub open spec fn direction<T: Scalar>(r: Seq<T>, beta: T, p: Seq<T>, omega: T, v: Seq<T>) -> Seq<T> {
    Seq::new(r.len(), |k: int| r[k].spec_plus(beta.spec_times(p[k].spec_minus(omega.spec_times(v[k])))))
}

/// `x[k] + (a * p[k] + w * s[k])` for every `k`.
pub open spec fn add_two_scaled<T: Scalar>(x: Seq<T>, a: T, p: Seq<T>, w: T, s: Seq<T>) -> Seq<T> {
    Seq::new(x.len(), |k: int| x[k].spec_plus(a.spec_times(p[k]).spec_plus(w.spec_times(s[k]))))
}

/// `n` zeros.
pub open spec fn zero_seq<T: Scalar>(n: nat) -> Seq<T> {
    Seq::new(n, |k: int| T::spec_zero())
}

/// The dot product of two sequences of equal length.
pub open spec fn dot<T: Scalar>(u: Seq<T>, v: Seq<T>) -> T {
    dot_upto(u, v, u.len())
}

/// `A * V` for a square `rows x rows` matrix `A` and the column-major
/// entries `v` of a matrix with `rows` rows.
pub fn apply<T: Scalar>(a: &Matrix<T>, v: &Vec<T>, rows: usize, cols: usize) -> (r: Vec<T>)
    requires
        a.wf(),
        a.nrows() == rows,
        a.ncols() == rows,
        v@.len() == rows * cols,
    ensures
        r@ == product_flat(*a, v@, rows as nat),
{
    let total = v.len();
    let mut out: Vec<T> = Vec::new();
    let mut j: usize = 0;
    while j < cols
        invariant
            total == rows * cols,
            a.wf(),
            a.nrows() == rows,
            a.ncols() == rows,
            v@.len() == rows * cols,
            j <= cols,
            out@.len() == j * rows,
            j * rows <= rows * cols,
            forall|q: int|
                0 <= q < out@.len() ==> #[trigger] out@[q] == product_flat(*a, v@, rows as nat)[q],
        decreases cols - j,
    {
        assert(j * rows + rows <= rows * cols) by (nonlinear_arith)
            requires
                j < cols,
        ;
        let base = j * rows;
        let mut i: usize = 0;
        while i < rows
            invariant
                total == rows * cols,
                a.wf(),
                a.nrows() == rows,
                a.ncols() == rows,
                v@.len() == rows * cols,
                j < cols,
                i <= rows,
                base == j * rows,
                base + rows <= rows * cols,
                out@.len() == j * rows + i,
                forall|q: int|
                    0 <= q < out@.len() ==> #[trigger] out@[q] == product_flat(*a, v@, rows as nat)[q],
            decreases rows - i,
        {
            proof {
                lemma_cm_index(i as int, j as int, rows as int, cols as int);
            }
            let mut sum = T::zero();
            let mut k: usize = 0;
            while k < rows
                invariant
                    total == rows * cols,
                    a.wf(),
                    a.nrows() == rows,
                    a.ncols() == rows,
                    v@.len() == rows * cols,
                    j < cols,
                    i < rows,
                    base == j * rows,
                    base + rows <= rows * cols,
                    k <= rows,
                    sum == product_of(entries(*a), col_major(v@, rows as nat), i as int, j as int, k as nat),
                decreases rows - k,
            {
                proof {
                    lemma_cm_index(k as int, j as int, rows as int, cols as int);
                }
                assert(a.in_bounds(i as int, k as int));
                sum = sum.plus(a.entry(i, k).times(v[base + k]));
                k = k + 1;
            }
            out.push(sum);
            i = i + 1;
        }
        assert((j + 1) * rows == j * rows + rows) by (nonlinear_arith);
        j = j + 1;
    }
    proof {
        assert(out@.len() == rows * cols) by (nonlinear_arith)
            requires
                out@.len() == j * rows,
                j == cols,
        ;
    }
    assert(out@ =~= product_flat(*a, v@, rows as nat));
    out
}

/// `u[k] + c * v[k]` for every `k`.
pub fn add_scaled_vec<T: Scalar>(u: &Vec<T>, c: T, v: &Vec<T>) -> (r: Vec<T>)
    requires
        u@.len() == v@.len(),
    ensures
        r@ == add_scaled(u@, c, v@),
{
    let n = u.len();
    let mut out: Vec<T> = Vec::new();
    let mut k: usize = 0;
    while k < n
        invariant
            n == u@.len(),
            n == v@.len(),
            k <= n,
            out@ =~= add_scaled(u@, c, v@).subrange(0, k as int),
        decreases n - k,
    {
        out.push(u[k].plus(c.times(v[k])));
        k = k + 1;
    }
    assert(out@ =~= add_scaled(u@, c, v@));
    out
}

/// `u[k] - c * v[k]` for every `k`.
pub fn sub_scaled_vec<T: Scalar>(u: &Vec<T>, c: T, v: &Vec<T>) -> (r: Vec<T>)
    requires
        u@.len() == v@.len(),
    ensures
        r@ == sub_scaled(u@, c, v@),
{
    let n = u.len();
    let mut out: Vec<T> = Vec::new();
    let mut k: usize = 0;
    while k < n
        invariant
            n == u@.len(),
            n == v@.len(),
            k <= n,
            out@ =~= sub_scaled(u@, c, v@).subrange(0, k as int),
        decreases n - k,
    {
        out.push(u[k].minus(c.times(v[k])));
        k = k + 1;
    }
    assert(out@ =~= sub_scaled(u@, c, v@));
    out
}

/// `u[k] - v[k]` for every `k`.
pub fn difference_vec<T: Scalar>(u: &Vec<T>, v: &Vec<T>) -> (r: Vec<T>)
    requires
        u@.len() == v@.len(),
    ensures
        r@ == difference(u@, v@),
{
    let n = u.len();
    let mut out: Vec<T> = Vec::new();
    let mut k: usize = 0;
    while k < n
        invariant
            n == u@.len(),
            n == v@.len(),
            k <= n,
            out@ =~= difference(u@, v@).subrange(0, k as int),
        decreases n - k,
    {
        out.push(u[k].minus(v[k]));
        k = k + 1;
    }
    assert(out@ =~= difference(u@, v@));
    out
}

/// `r[k] + beta * (p[k] - omega * v[k])` for every `k`.
pub fn direction_vec<T: Scalar>(r: &Vec<T>, beta: T, p: &Vec<T>, omega: T, v: &Vec<T>) -> (out: Vec<T>)
    requires
        r@.len() == p@.len(),
        r@.len() == v@.len(),
    ensures
        out@ == direction(r@, beta, p@, omega, v@),
{
    let n = r.len();
    let mut out: Vec<T> = Vec::new();
    let mut k: usize = 0;
    while k < n
        invariant
            n == r@.len(),
            n == p@.len(),
            n == v@.len(),
            k <= n,
            out@ =~= direction(r@, beta, p@, omega, v@).subrange(0, k as int),
        decreases n - k,
    {
        out.push(r[k].plus(beta.times(p[k].minus(omega.times(v[k])))));
        k = k + 1;
    }
    assert(out@ =~= direction(r@, beta, p@, omega, v@));
    out
}

/// `x[k] + (a * p[k] + w * s[k])` for every `k`.
pub fn add_two_scaled_vec<T: Scalar>(x: &Vec<T>, a: T, p: &Vec<T>, w: T, s: &Vec<T>) -> (out: Vec<T>)
    requires
        x@.len() == p@.len(),
        x@.len() == s@.len(),
    ensures
        out@ == add_two_scaled(x@, a, p@, w, s@),
{
    let n = x.len();
    let mut out: Vec<T> = Vec::new();
    let mut k: usize = 0;
    while k < n
        invariant
            n == x@.len(),
            n == p@.len(),
            n == s@.len(),
            k <= n,
            out@ =~= add_two_scaled(x@, a, p@, w, s@).subrange(0, k as int),
        decreases n - k,
    {
        out.push(x[k].plus(a.times(p[k]).plus(w.times(s[k]))));
        k = k + 1;
    }
    assert(out@ =~= add_two_scaled(x@, a, p@, w, s@));
    out
}

/// `n` zeros.
pub fn zero_vec<T: Scalar>(n: usize) -> (out: Vec<T>)
    ensures
        out@ == zero_seq::<T>(n as nat),
{
    let mut out: Vec<T> = Vec::new();
    let mut k: usize = 0;
    while k < n
        invariant
            k <= n,
            out@ =~= zero_seq::<T>(n as nat).subrange(0, k as int),
        decreases n - k,
    {
        out.push(T::zero());
        k = k + 1;
    }
    assert(out@ =~= zero_seq::<T>(n as nat));
    out
}

/// The dot product of two sequences of equal length, accumulated from zero.
pub fn dot_vec<T: Scalar>(u: &Vec<T>, v: &Vec<T>) -> (r: T)
    requires
        u@.len() == v@.len(),
    ensures
        r == dot(u@, v@),
{
    let n = u.len();
    let mut sum = T::zero();
    let mut k: usize = 0;
    while k < n
        invariant
            n == u@.len(),
            n == v@.len(),
            k <= n,
            sum == dot_upto(u@, v@, k as nat),
        decreases n - k,
    {
        sum = sum.plus(u[k].times(v[k]));
        k = k + 1;
    }
    sum
}

/// An entry-by-entry copy.
pub fn copy_vec<T: Scalar>(u: &Vec<T>) -> (r: Vec<T>)
    ensures
        r@ == u@,
{
    let n = u.len();
    let mut out: Vec<T> = Vec::new();
    let mut k: usize = 0;
    while k < n
        invariant
            n == u@.len(),
            k <= n,
            out@ =~= u@.subrange(0, k as int),
        decreases n - k,
    {
        out.push(u[k]);
        k = k + 1;
    }
    assert(out@ =~= u@);
    out
}

/// The matrix with `rows` rows and `cols` columns whose column-major
/// entries are `v`.
pub fn to_matrix<T: Scalar>(v: Vec<T>, rows: usize, cols: usize) -> (m: Matrix<T>)
    requires
        v@.len() == rows * cols,
    ensures
        m.wf(),
        m.nrows() == rows,
        m.ncols() == cols,
        m.elems() == v@,
{
    match Matrix::from_vec(rows, cols, v) {
        Ok(m) => m,
        Err(_) => {
            proof {
                assert(false);
            }
            Matrix::zeros(rows, cols)
        },
    }
}

} // verus!
