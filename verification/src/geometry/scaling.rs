//! Non-uniform scalings.

use crate::geometry::vectors::{is_vector, vector_from_vec};
use crate::matrix::Matrix;
use crate::scalar::Scalar;
use vstd::prelude::*;

verus! {

/// The scaling of coordinate `i` by `coeffs[i]`.
pub struct Scaling<T: Scalar, const RANK: usize> {
    pub coeffs: Matrix<T>,
}

/// Coordinate-wise `a * b`.
pub open spec fn seq_mul<T: Scalar>(a: Seq<T>, b: Seq<T>) -> Seq<T> {
    Seq::new(a.len(), |i: int| a[i].spec_times(b[i]))
}

/// Coordinate-wise `a * b` of two `n x 1` vectors.
pub fn vector_mul<T: Scalar>(a: &Matrix<T>, b: &Matrix<T>, n: usize) -> (m: Matrix<T>)
    requires
        is_vector(*a, n as nat),
        is_vector(*b, n as nat),
    ensures
        is_vector(m, n as nat),
        m.elems() == seq_mul(a.elems(), b.elems()),
{
    let ad = a.data();
    let bd = b.data();
    let mut v: Vec<T> = Vec::new();
    let mut i: usize = 0;
    while i < n
        invariant
            ad@ == a.elems(),
            bd@ == b.elems(),
            ad@.len() == n,
            bd@.len() == n,
            i <= n,
            v@ == seq_mul(a.elems(), b.elems()).subrange(0, i as int),
        decreases n - i,
    {
        v.push(ad[i].times(bd[i]));
        i = i + 1;
    }
    vector_from_vec(v)
}

impl<T: Scalar, const RANK: usize> Scaling<T, RANK> {
    /// The coefficients form a `RANK x 1` vector.
    pub open spec fn wf(&self) -> bool {
        is_vector(self.coeffs, RANK as nat)
    }

    /// The scaling with the given coefficients.
    pub fn new(coeffs: Matrix<T>) -> (s: Self)
        requires
            is_vector(coeffs, RANK as nat),
        ensures
            s.wf(),
            s.coeffs == coeffs,
    {
        Scaling { coeffs }
    }

    /// The same factor `s` in every coordinate.
    pub fn uniform(s: T) -> (r: Self)
        ensures
            r.wf(),
            forall|i: int| 0 <= i < RANK ==> #[trigger] r.coeffs.elems()[i] == s,
    {
        let mut v: Vec<T> = Vec::new();
        let mut i: usize = 0;
        while i < RANK
            invariant
                i <= RANK,
                v@.len() == i,
                forall|k: int| 0 <= k < i ==> #[trigger] v@[k] == s,
            decreases RANK - i,
        {
            v.push(s);
            i = i + 1;
        }
        Scaling { coeffs: vector_from_vec(v) }
    }

    /// The scaling by one in every coordinate.
    pub fn identity() -> (r: Self)
        ensures
            r.wf(),
            forall|i: int| 0 <= i < RANK ==> #[trigger] r.coeffs.elems()[i] == T::spec_from_usize(1),
    {
        Self::uniform(T::from_usize(1))
    }

    /// The scaling by the reciprocals `1 / c_i`.
    pub fn inverse(&self) -> (r: Self)
        requires
            self.wf(),
        ensures
            r.wf(),
            r.coeffs.elems() == self.coeffs.elems().map_values(
                |x: T| T::spec_from_usize(1).spec_over(x),
            ),
    {
        let d = self.coeffs.data();
        let one = T::from_usize(1);
        let mut v: Vec<T> = Vec::new();
        let mut i: usize = 0;
        while i < RANK
            invariant
                self.wf(),
                d@ == self.coeffs.elems(),
                one == T::spec_from_usize(1),
                i <= RANK,
                v@ == self.coeffs.elems().map_values(|x: T| T::spec_from_usize(1).spec_over(x)).subrange(
                    0,
                    i as int,
                ),
            decreases RANK - i,
        {
            v.push(one.over(d[i]));
            i = i + 1;
        }
        Scaling { coeffs: vector_from_vec(v) }
    }

    /// Applies the scaling to a vector: `v_i * c_i`.
    pub fn apply(&self, v: &Matrix<T>) -> (r: Matrix<T>)
        requires
            self.wf(),
            is_vector(*v, RANK as nat),
        ensures
            is_vector(r, RANK as nat),
            r.elems() == seq_mul(v.elems(), self.coeffs.elems()),
    {
        vector_mul(v, &self.coeffs, RANK)
    }

    /// The composition `self * rhs`: coefficients `c1_i * c2_i`.
    pub fn compose(&self, rhs: &Self) -> (r: Self)
        requires
            self.wf(),
            rhs.wf(),
        ensures
            r.wf(),
            r.coeffs.elems() == seq_mul(self.coeffs.elems(), rhs.coeffs.elems()),
    {
        Scaling { coeffs: vector_mul(&self.coeffs, &rhs.coeffs, RANK) }
    }
}

} // verus!
