//! Half-lines given by an origin and a direction.

use crate::geometry::hyperplane::Hyperplane;
use crate::geometry::vectors::{
    is_vector, seq_axpy, seq_dist_sq, seq_sub, vector_axpy, vector_dot, vector_sub,
};
use crate::matrix::{dot_upto, Matrix};
use crate::scalar::Scalar;
use vstd::prelude::*;

verus! {

/// The half-line `origin + t * direction`, `t >= 0`.
pub struct Ray<T: Scalar, const RANK: usize> {
    origin: Matrix<T>,
    direction: Matrix<T>,
}

/// `t`, or zero when `t < 0`.
pub open spec fn clamp_nonneg<T: Scalar>(t: T) -> T {
    if t.spec_lt(T::spec_zero()) {
        T::spec_zero()
    } else {
        t
    }
}

/// The parameter of the orthogonal projection of `p` on the line
/// `o + t * d`: `(d . (p - o)) / (d . d)`.
pub open spec fn projection_parameter<T: Scalar>(o: Seq<T>, d: Seq<T>, p: Seq<T>) -> T {
    let diff = seq_sub(p, o);
    dot_upto(d, diff, d.len()).spec_over(dot_upto(d, d, d.len()))
}

impl<T: Scalar, const RANK: usize> Ray<T, RANK> {
    /// Origin and direction are `RANK x 1` vectors.
    pub open spec fn wf(&self) -> bool {
        is_vector(self.spec_origin(), RANK as nat) && is_vector(self.spec_direction(), RANK as nat)
    }

    pub closed spec fn spec_origin(&self) -> Matrix<T> {
        self.origin
    }

    pub closed spec fn spec_direction(&self) -> Matrix<T> {
        self.direction
    }

    /// Origin coordinates.
    pub open spec fn o(&self) -> Seq<T> {
        self.spec_origin().elems()
    }

    /// Direction coordinates.
    pub open spec fn d(&self) -> Seq<T> {
        self.spec_direction().elems()
    }

    /// The point at parameter `t`, with negative `t` taken as zero.
    pub open spec fn spec_point_at(&self, t: T) -> Seq<T> {
        seq_axpy(self.o(), self.d(), clamp_nonneg(t))
    }

    /// Creates a ray.
    pub fn new(origin: Matrix<T>, direction: Matrix<T>) -> (r: Self)
        requires
            is_vector(origin, RANK as nat),
            is_vector(direction, RANK as nat),
        ensures
            r.wf(),
            r.spec_origin() == origin,
            r.spec_direction() == direction,
    {
        Ray { origin, direction }
    }

    /// The point `origin + direction * t` (a negative `t` is taken as zero).
    pub fn point_at(&self, t: T) -> (p: Matrix<T>)
        requires
            self.wf(),
        ensures
            is_vector(p, RANK as nat),
            p.elems() == self.spec_point_at(t),
    {
        let zero = T::zero();
        let t_valid = if t.is_lt(zero) {
            zero
        } else {
            t
        };
        vector_axpy(&self.origin, &self.direction, t_valid, RANK)
    }

    /// The distance from `point` to the ray: to the projection of the point
    /// on the line, moved to the origin when it falls behind it.
    pub fn distance(&self, point: &Matrix<T>) -> (r: T)
        requires
            self.wf(),
            is_vector(*point, RANK as nat),
        ensures
            r == seq_dist_sq(
                point.elems(),
                self.spec_point_at(clamp_nonneg(projection_parameter(self.o(), self.d(), point.elems()))),
            ).spec_sqrt(),
    {
        let diff = vector_sub(point, &self.origin, RANK);
        let num = vector_dot(&self.direction, &diff, RANK);
        let den = vector_dot(&self.direction, &self.direction, RANK);
        let t = num.over(den);
        let t_clamped = if t.is_lt(T::zero()) {
            T::zero()
        } else {
            t
        };
        let proj_point = self.point_at(t_clamped);
        let delta = vector_sub(point, &proj_point, RANK);
        let dist_sq = vector_dot(&delta, &delta, RANK);
        dist_sq.sqrt()
    }

    /// The parameter at which the ray meets `plane`: `None` when the ray is
    /// parallel to the plane (`|n . d| < epsilon`) or the meeting point lies
    /// behind the origin.
    pub fn intersects_plane(&self, plane: &Hyperplane<T, RANK>) -> (r: Option<T>)
        requires
            self.wf(),
            plane.wf(),
        ensures
            r == ({
                let denom = dot_upto(plane.n(), self.d(), RANK as nat);
                let t = plane.spec_signed_distance(self.o()).spec_negate().spec_over(denom);
                if denom.spec_abs().spec_lt(T::spec_epsilon()) {
                    None
                } else if T::spec_zero().spec_le(t) {
                    Some(t)
                } else {
                    None
                }
            }),
    {
        let dist = plane.signed_distance(&self.origin);
        let denom = vector_dot(plane.normal(), &self.direction, RANK);
        if denom.abs().is_lt(T::epsilon()) {
            return None;
        }
        let t = dist.negate().over(denom);
        if T::zero().is_le(t) {
            Some(t)
        } else {
            None
        }
    }

    pub fn origin(&self) -> (r: &Matrix<T>)
        ensures
            *r == self.spec_origin(),
    {
        &self.origin
    }

    pub fn direction(&self) -> (r: &Matrix<T>)
        ensures
            *r == self.spec_direction(),
    {
        &self.direction
    }
}

} // verus!
