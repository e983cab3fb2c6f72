//! Coordinate-wise helpers on column vectors (`n x 1` matrices).

use crate::matrix::{dot_upto, Matrix};
use crate::scalar::Scalar;
use vstd::prelude::*;

verus! {

/// `m` is a well-formed `n x 1` column vector.
pub open spec fn is_vector<T>(m: Matrix<T>, n: nat) -> bool {
    m.wf() && m.nrows() == n && m.ncols() == 1
}

/// Coordinate-wise `a - b`.
pub open spec fn seq_sub<T: Scalar>(a: Seq<T>, b: Seq<T>) -> Seq<T> {
    Seq::new(a.len(), |i: int| a[i].spec_minus(b[i]))
}

/// Coordinate-wise `o + d * t`.
pub open spec fn seq_axpy<T: Scalar>(o: Seq<T>, d: Seq<T>, t: T) -> Seq<T> {
    Seq::new(o.len(), |i: int| o[i].spec_plus(d[i].spec_times(t)))
}

/// The squared distance `sum (a_i - b_i)^2` of two points.
pub open spec fn seq_dist_sq<T: Scalar>(a: Seq<T>, b: Seq<T>) -> T {
    let d = seq_sub(a, b);
    dot_upto(d, d, a.len())
}

/// A column vector has its coordinates in storage order.
pub proof fn lemma_vector_at<T>(m: Matrix<T>, n: nat)
    requires
        is_vector(m, n),
    ensures
        m.elems().len() == n,
        forall|i: int| 0 <= i < n ==> #[trigger] m.at(i, 0) == m.elems()[i],
{
}

/// The column vector with coordinates `s`.
pub fn vector_from_vec<T: Scalar>(v: Vec<T>) -> (m: Matrix<T>)
    ensures
        is_vector(m, v@.len()),
        m.elems() == v@,
{
    let n = v.len();
    match Matrix::from_vec(n, 1, v) {
        Ok(m) => m,
        Err(_) => {
            assert(false);
            Matrix::zeros(0, 1)
        },
    }
}

/// Coordinate-wise `a - b`.
pub fn vector_sub<T: Scalar>(a: &Matrix<T>, b: &Matrix<T>, n: usize) -> (m: Matrix<T>)
    requires
        is_vector(*a, n as nat),
        is_vector(*b, n as nat),
    ensures
        is_vector(m, n as nat),
        m.elems() == seq_sub(a.elems(), b.elems()),
{
    let ad = a.data();
    let bd = b.data();
    let mut v: Vec<T> = Vec::new();
    let mut i: usize = 0;
    while i < n
        invariant
            ad@ == a.elems(),
            bd@ == b.elems(),
            ad@.len() == n,
            bd@.len() == n,
            i <= n,
            v@ == seq_sub(a.elems(), b.elems()).subrange(0, i as int),
        decreases n - i,
    {
        v.push(ad[i].minus(bd[i]));
        i = i + 1;
    }
    vector_from_vec(v)
}

/// Coordinate-wise `o + d * t`.
pub fn vector_axpy<T: Scalar>(o: &Matrix<T>, d: &Matrix<T>, t: T, n: usize) -> (m: Matrix<T>)
    requires
        is_vector(*o, n as nat),
        is_vector(*d, n as nat),
    ensures
        is_vector(m, n as nat),
        m.elems() == seq_axpy(o.elems(), d.elems(), t),
{
    let od = o.data();
    let dd = d.data();
    let mut v: Vec<T> = Vec::new();
    let mut i: usize = 0;
    while i < n
        invariant
            od@ == o.elems(),
            dd@ == d.elems(),
            od@.len() == n,
            dd@.len() == n,
            i <= n,
            v@ == seq_axpy(o.elems(), d.elems(), t).subrange(0, i as int),
        decreases n - i,
    {
        v.push(od[i].plus(dd[i].times(t)));
        i = i + 1;
    }
    vector_from_vec(v)
}

/// `sum_{i < n} a_i * b_i`, accumulated from zero.
pub fn vector_dot<T: Scalar>(a: &Matrix<T>, b: &Matrix<T>, n: usize) -> (r: T)
    requires
        is_vector(*a, n as nat),
        is_vector(*b, n as nat),
    ensures
        r == dot_upto(a.elems(), b.elems(), n as nat),
{
    a.dot(b)
}

} // verus!
