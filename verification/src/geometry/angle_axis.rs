//! Rotations given by an axis and an angle.

use crate::geometry::quaternion::{quat, Quaternion};
use crate::matrix::Matrix;
use crate::scalar::Scalar;
use vstd::prelude::*;

verus! {

/// A rotation by `angle` around the (normalized) `3 x 1` vector `axis`.
pub struct AngleAxis<T: Scalar> {
    axis: Matrix<T>,
    angle: T,
}

impl<T: Scalar> AngleAxis<T> {
    /// The axis has three coordinates.
    pub open spec fn wf(&self) -> bool {
        &&& self.spec_axis().wf()
        &&& self.spec_axis().nrows() == 3
        &&& self.spec_axis().ncols() == 1
    }

    pub closed spec fn spec_axis(&self) -> Matrix<T> {
        self.axis
    }

    pub closed spec fn spec_angle(&self) -> T {
        self.angle
    }

    /// `(axis * sin(angle / 2), cos(angle / 2))`.
    pub open spec fn spec_quaternion(&self) -> Quaternion<T> {
        let half = self.spec_angle().spec_over(T::spec_from_usize(2));
        let s = half.spec_sin();
        quat(
            self.spec_axis().at(0, 0).spec_times(s),
            self.spec_axis().at(1, 0).spec_times(s),
            self.spec_axis().at(2, 0).spec_times(s),
            half.spec_cos(),
        )
    }

    /// Creates a rotation from an angle and a (normalized) `3 x 1` axis.
    pub fn new(angle: T, axis: Matrix<T>) -> (r: Self)
        requires
            axis.wf(),
            axis.nrows() == 3,
            axis.ncols() == 1,
        ensures
            r.wf(),
            r.spec_axis() == axis,
            r.spec_angle() == angle,
    {
        AngleAxis { axis, angle }
    }

    pub fn axis(&self) -> (r: &Matrix<T>)
        ensures
            *r == self.spec_axis(),
    {
        &self.axis
    }

    pub fn angle(&self) -> (r: T)
        ensures
            r == self.spec_angle(),
    {
        self.angle
    }

    /// Converts the rotation to a quaternion.
    pub fn to_quaternion(&self) -> (q: Quaternion<T>)
        requires
            self.wf(),
            T::spec_has_trig(),
        ensures
            q == self.spec_quaternion(),
    {
        let half_angle = self.angle.over(T::from_usize(2));
        let s = half_angle.sin();
        let c = half_angle.cos();
        Quaternion::new(
            self.axis.entry(0, 0).times(s),
            self.axis.entry(1, 0).times(s),
            self.axis.entry(2, 0).times(s),
            c,
        )
    }

    /// Converts the rotation to a `3 x 3` rotation matrix.
    pub fn to_rotation_matrix(&self) -> (m: Matrix<T>)
        requires
            self.wf(),
            T::spec_has_trig(),
        ensures
            m.wf(),
            m.nrows() == 3,
            m.ncols() == 3,
            forall|i: int, j: int| #[trigger]
                m.in_bounds(i, j) ==> m.at(i, j) == self.spec_quaternion().spec_rotation_entries()[i][j],
    {
        self.to_quaternion().to_rotation_matrix()
    }
}

} // verus!
