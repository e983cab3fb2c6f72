//! Translations.

use crate::geometry::vectors::{is_vector, vector_from_vec};
use crate::matrix::Matrix;
use crate::scalar::Scalar;
use vstd::prelude::*;

verus! {

/// The translation by `vector`.
pub struct Translation<T: Scalar, const RANK: usize> {
    pub vector: Matrix<T>,
}

/// Coordinate-wise `a + b`.
pub open spec fn seq_add<T: Scalar>(a: Seq<T>, b: Seq<T>) -> Seq<T> {
    Seq::new(a.len(), |i: int| a[i].spec_plus(b[i]))
}

/// Coordinate-wise `a + b` of two `n x 1` vectors.
pub fn vector_add<T: Scalar>(a: &Matrix<T>, b: &Matrix<T>, n: usize) -> (m: Matrix<T>)
    requires
        is_vector(*a, n as nat),
        is_vector(*b, n as nat),
    ensures
        is_vector(m, n as nat),
        m.elems() == seq_add(a.elems(), b.elems()),
{
    let ad = a.data();
    let bd = b.data();
    let mut v: Vec<T> = Vec::new();
    let mut i: usize = 0;
    while i < n
        invariant
            ad@ == a.elems(),
            bd@ == b.elems(),
            ad@.len() == n,
            bd@.len() == n,
            i <= n,
            v@ == seq_add(a.elems(), b.elems()).subrange(0, i as int),
        decreases n - i,
    {
        v.push(ad[i].plus(bd[i]));
        i = i + 1;
    }
    vector_from_vec(v)
}

impl<T: Scalar, const RANK: usize> Translation<T, RANK> {
    /// The vector is `RANK x 1`.
    pub open spec fn wf(&self) -> bool {
        is_vector(self.vector, RANK as nat)
    }

    /// The translation by `vector`.
    pub fn new(vector: Matrix<T>) -> (t: Self)
        requires
            is_vector(vector, RANK as nat),
        ensures
            t.wf(),
            t.vector == vector,
    {
        Translation { vector }
    }

    /// The translation by the zero vector.
    pub fn identity() -> (t: Self)
        ensures
            t.wf(),
            forall|i: int| 0 <= i < RANK ==> #[trigger] t.vector.elems()[i] == T::spec_zero(),
    {
        let mut v: Vec<T> = Vec::new();
        let mut i: usize = 0;
        while i < RANK
            invariant
                i <= RANK,
                v@.len() == i,
                forall|k: int| 0 <= k < i ==> #[trigger] v@[k] == T::spec_zero(),
            decreases RANK - i,
        {
            v.push(T::zero());
            i = i + 1;
        }
        Translation { vector: vector_from_vec(v) }
    }

    /// The translation by the negated vector.
    pub fn inverse(&self) -> (t: Self)
        requires
            self.wf(),
        ensures
            t.wf(),
            t.vector.elems() == self.vector.elems().map_values(|x: T| x.spec_negate()),
    {
        let d = self.vector.data();
        let mut v: Vec<T> = Vec::new();
        let mut i: usize = 0;
        while i < RANK
            invariant
                self.wf(),
                d@ == self.vector.elems(),
                i <= RANK,
                v@ == self.vector.elems().map_values(|x: T| x.spec_negate()).subrange(0, i as int),
            decreases RANK - i,
        {
            v.push(d[i].negate());
            i = i + 1;
        }
        Translation { vector: vector_from_vec(v) }
    }

    pub fn vector(&self) -> (r: &Matrix<T>)
        ensures
            *r == self.vector,
    {
        &self.vector
    }

    /// Applies the translation to a vector: `v + t`.
    pub fn apply(&self, v: &Matrix<T>) -> (r: Matrix<T>)
        requires
            self.wf(),
            is_vector(*v, RANK as nat),
        ensures
            is_vector(r, RANK as nat),
            r.elems() == seq_add(v.elems(), self.vector.elems()),
    {
        vector_add(v, &self.vector, RANK)
    }

    /// The composition `self * rhs`, the translation by `t1 + t2`.
    pub fn compose(&self, rhs: &Self) -> (r: Self)
        requires
            self.wf(),
            rhs.wf(),
        ensures
            r.wf(),
            r.vector.elems() == seq_add(self.vector.elems(), rhs.vector.elems()),
    {
        Translation { vector: vector_add(&self.vector, &rhs.vector, RANK) }
    }
}

} // verus!
