//! Hyperplanes `normal . x + offset = 0`.

use crate::geometry::ray::Ray;
use crate::geometry::vectors::{is_vector, vector_dot, vector_from_vec};
use crate::matrix::{dot_upto, Matrix};
use crate::scalar::Scalar;
use vstd::prelude::*;

verus! {

/// The hyperplane `normal . x + offset = 0`.
pub struct Hyperplane<T: Scalar, const RANK: usize> {
    normal: Matrix<T>,
    offset: T,
}

impl<T: Scalar, const RANK: usize> Hyperplane<T, RANK> {
    /// The normal is a `RANK x 1` vector.
    pub open spec fn wf(&self) -> bool {
        is_vector(self.spec_normal(), RANK as nat)
    }

    pub closed spec fn spec_normal(&self) -> Matrix<T> {
        self.normal
    }

    pub closed spec fn spec_offset(&self) -> T {
        self.offset
    }

    /// Normal coordinates.
    pub open spec fn n(&self) -> Seq<T> {
        self.spec_normal().elems()
    }

    /// `normal . p + offset`.
    pub open spec fn spec_signed_distance(&self, p: Seq<T>) -> T {
        dot_upto(self.n(), p, RANK as nat).spec_plus(self.spec_offset())
    }

    /// Creates the hyperplane `normal . x + offset = 0` (the normal is kept as
    /// given).
    pub fn new(normal: Matrix<T>, offset: T) -> (h: Self)
        requires
            is_vector(normal, RANK as nat),
        ensures
            h.wf(),
            h.spec_normal() == normal,
            h.spec_offset() == offset,
    {
        Hyperplane { normal, offset }
    }

    /// The hyperplane through `point` with the given normal:
    /// `offset = -(normal . point)`.
    pub fn from_normal_and_point(normal: Matrix<T>, point: &Matrix<T>) -> (h: Self)
        requires
            is_vector(normal, RANK as nat),
            is_vector(*point, RANK as nat),
        ensures
            h.wf(),
            h.spec_normal() == normal,
            h.spec_offset() == dot_upto(normal.elems(), point.elems(), RANK as nat).spec_negate(),
    {
        let dot = vector_dot(&normal, point, RANK);
        let offset = dot.negate();
        Hyperplane { normal, offset }
    }

    /// Divides normal and offset by the norm of the normal (multiplying by
    /// `1 / norm`), when that norm is above zero.
    pub fn normalize(&mut self)
        requires
            old(self).wf(),
        ensures
            final(self).wf(),
            ({
                let norm = dot_upto(old(self).n(), old(self).n(), RANK as nat).spec_sqrt();
                let inv = T::spec_from_usize(1).spec_over(norm);
                if T::spec_zero().spec_lt(norm) {
                    &&& final(self).n() == old(self).n().map_values(|v: T| v.spec_times(inv))
                    &&& final(self).spec_offset() == old(self).spec_offset().spec_times(inv)
                } else {
                    &&& final(self).n() == old(self).n()
                    &&& final(self).spec_offset() == old(self).spec_offset()
                }
            }),
    {
        let norm_sq = vector_dot(&self.normal, &self.normal, RANK);
        let norm = norm_sq.sqrt();
        if T::zero().is_lt(norm) {
            let inv_norm = T::from_usize(1).over(norm);
            let nd = self.normal.data();
            let mut v: Vec<T> = Vec::new();
            let mut i: usize = 0;
            while i < RANK
                invariant
                    self.wf(),
                    nd@ == self.n(),
                    i <= RANK,
                    v@ == self.n().map_values(|x: T| x.spec_times(inv_norm)).subrange(0, i as int),
                decreases RANK - i,
            {
                v.push(nd[i].times(inv_norm));
                i = i + 1;
            }
            self.normal = vector_from_vec(v);
            self.offset = self.offset.times(inv_norm);
        }
    }

    /// `normal . point + offset`.
    pub fn signed_distance(&self, point: &Matrix<T>) -> (r: T)
        requires
            self.wf(),
            is_vector(*point, RANK as nat),
        ensures
            r == self.spec_signed_distance(point.elems()),
    {
        let dot = vector_dot(&self.normal, point, RANK);
        dot.plus(self.offset)
    }

    /// `point - signed_distance(point) * normal`, coordinate-wise.
    pub fn projection(&self, point: &Matrix<T>) -> (p: Matrix<T>)
        requires
            self.wf(),
            is_vector(*point, RANK as nat),
        ensures
            is_vector(p, RANK as nat),
            forall|i: int|
                0 <= i < RANK ==> #[trigger] p.elems()[i] == point.elems()[i].spec_minus(
                    self.spec_signed_distance(point.elems()).spec_times(self.n()[i]),
                ),
    {
        let dist = self.signed_distance(point);
        let pd = point.data();
        let nd = self.normal.data();
        let mut v: Vec<T> = Vec::new();
        let mut i: usize = 0;
        while i < RANK
            invariant
                self.wf(),
                is_vector(*point, RANK as nat),
                pd@ == point.elems(),
                nd@ == self.n(),
                dist == self.spec_signed_distance(point.elems()),
                i <= RANK,
                v@.len() == i,
                forall|k: int|
                    0 <= k < i ==> #[trigger] v@[k] == point.elems()[k].spec_minus(
                        dist.spec_times(self.n()[k]),
                    ),
            decreases RANK - i,
        {
            v.push(pd[i].minus(dist.times(nd[i])));
            i = i + 1;
        }
        vector_from_vec(v)
    }

    /// The parameter at which `ray` meets the hyperplane (see
    /// `Ray::intersects_plane`).
    pub fn intersection_with_ray(&self, ray: &Ray<T, RANK>) -> (r: Option<T>)
        requires
            self.wf(),
            ray.wf(),
        ensures
            r == ({
                let denom = dot_upto(self.n(), ray.d(), RANK as nat);
                let t = self.spec_signed_distance(ray.o()).spec_negate().spec_over(denom);
                if denom.spec_abs().spec_lt(T::spec_epsilon()) {
                    None
                } else if T::spec_zero().spec_le(t) {
                    Some(t)
                } else {
                    None
                }
            }),
    {
        ray.intersects_plane(self)
    }

    pub fn normal(&self) -> (r: &Matrix<T>)
        ensures
            *r == self.spec_normal(),
    {
        &self.normal
    }

    pub fn offset(&self) -> (r: T)
        ensures
            r == self.spec_offset(),
    {
        self.offset
    }
}

} // verus!
