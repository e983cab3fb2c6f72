//! Lines given by an origin and a direction.

use crate::geometry::ray::projection_parameter;
use crate::geometry::vectors::{is_vector, seq_axpy, seq_dist_sq, vector_axpy, vector_dot, vector_sub};
use crate::matrix::Matrix;
use crate::scalar::Scalar;
use vstd::prelude::*;

verus! {

/// The line `origin + t * direction`.
pub struct ParametrizedLine<T: Scalar, const RANK: usize> {
    origin: Matrix<T>,
    direction: Matrix<T>,
}

impl<T: Scalar, const RANK: usize> ParametrizedLine<T, RANK> {
    /// Origin and direction are `RANK x 1` vectors.
    pub open spec fn wf(&self) -> bool {
        is_vector(self.spec_origin(), RANK as nat) && is_vector(self.spec_direction(), RANK as nat)
    }

    pub closed spec fn spec_origin(&self) -> Matrix<T> {
        self.origin
    }

    pub closed spec fn spec_direction(&self) -> Matrix<T> {
        self.direction
    }

    pub open spec fn o(&self) -> Seq<T> {
        self.spec_origin().elems()
    }

    pub open spec fn d(&self) -> Seq<T> {
        self.spec_direction().elems()
    }

    /// The orthogonal projection of `p` on the line.
    pub open spec fn spec_projection(&self, p: Seq<T>) -> Seq<T> {
        seq_axpy(self.o(), self.d(), projection_parameter(self.o(), self.d(), p))
    }

    /// Creates a line.
    pub fn new(origin: Matrix<T>, direction: Matrix<T>) -> (l: Self)
        requires
            is_vector(origin, RANK as nat),
            is_vector(direction, RANK as nat),
        ensures
            l.wf(),
            l.spec_origin() == origin,
            l.spec_direction() == direction,
    {
        ParametrizedLine { origin, direction }
    }

    /// The point `origin + direction * t`.
    pub fn point_at(&self, t: T) -> (p: Matrix<T>)
        requires
            self.wf(),
        ensures
            is_vector(p, RANK as nat),
            p.elems() == seq_axpy(self.o(), self.d(), t),
    {
        vector_axpy(&self.origin, &self.direction, t, RANK)
    }

    /// The squared distance from `point` to its projection on the line.
    pub fn squared_distance(&self, point: &Matrix<T>) -> (r: T)
        requires
            self.wf(),
            is_vector(*point, RANK as nat),
        ensures
            r == seq_dist_sq(point.elems(), self.spec_projection(point.elems())),
    {
        let proj_point = self.projection(point);
        let delta = vector_sub(point, &proj_point, RANK);
        vector_dot(&delta, &delta, RANK)
    }

    /// The distance from `point` to the line.
    pub fn distance(&self, point: &Matrix<T>) -> (r: T)
        requires
            self.wf(),
            is_vector(*point, RANK as nat),
        ensures
            r == seq_dist_sq(point.elems(), self.spec_projection(point.elems())).spec_sqrt(),
    {
        self.squared_distance(point).sqrt()
    }

    /// The orthogonal projection of `point` on the line.
    pub fn projection(&self, point: &Matrix<T>) -> (p: Matrix<T>)
        requires
            self.wf(),
            is_vector(*point, RANK as nat),
        ensures
            is_vector(p, RANK as nat),
            p.elems() == self.spec_projection(point.elems()),
    {
        let diff = vector_sub(point, &self.origin, RANK);
        let num = vector_dot(&self.direction, &diff, RANK);
        let den = vector_dot(&self.direction, &self.direction, RANK);
        let t = num.over(den);
        self.point_at(t)
    }

    pub fn origin(&self) -> (r: &Matrix<T>)
        ensures
            *r == self.spec_origin(),
    {
        &self.origin
    }

    pub fn direction(&self) -> (r: &Matrix<T>)
        ensures
            *r == self.spec_direction(),
    {
        &self.direction
    }
}

} // verus!
