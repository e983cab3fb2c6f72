//! Rotations given by three Euler angles (ZYX convention).

use crate::geometry::quaternion::{quat, Quaternion};
use crate::matrix::Matrix;
use crate::scalar::Scalar;
use vstd::prelude::*;

verus! {

/// A rotation `Rz(alpha) * Ry(beta) * Rx(gamma)` (yaw, pitch, roll).
#[derive(Clone, Copy)]
pub struct EulerAngles<T: Scalar> {
    /// Angle around Z (yaw).
    pub alpha: T,
    /// Angle around Y (pitch).
    pub beta: T,
    /// Angle around X (roll).
    pub gamma: T,
}

/// Half of pi, computed as `asin(1)`.
pub open spec fn half_pi<T: Scalar>() -> T {
    T::spec_from_usize(1).spec_asin()
}

/// The Euler angles read off a rotation matrix with entries
/// `r11 = R(0,0)`, `r21 = R(1,0)`, `r31 = R(2,0)`, `r32 = R(2,1)`,
/// `r33 = R(2,2)`, `r12 = R(0,1)`, `r22 = R(1,1)`.
pub open spec fn euler_from_entries<T: Scalar>(
    r11: T,
    r21: T,
    r31: T,
    r32: T,
    r33: T,
    r12: T,
    r22: T,
) -> EulerAngles<T> {
    let zero = T::spec_zero();
    let one = T::spec_from_usize(1);
    if r31.spec_abs().spec_lt(one.spec_minus(T::spec_epsilon())) {
        EulerAngles {
            alpha: r21.spec_atan2(r11),
            beta: r31.spec_asin().spec_negate(),
            gamma: r32.spec_atan2(r33),
        }
    } else if r31.spec_lt(zero) {
        // Gimbal lock, pitch = pi / 2.
        EulerAngles { alpha: zero, beta: half_pi(), gamma: zero.spec_plus(r12.spec_atan2(r22)) }
    } else {
        // Gimbal lock, pitch = -pi / 2.
        EulerAngles {
            alpha: zero,
            beta: half_pi::<T>().spec_negate(),
            gamma: zero.spec_negate().spec_plus(r12.spec_negate().spec_atan2(r22.spec_negate())),
        }
    }
}

impl<T: Scalar> EulerAngles<T> {
    /// The quaternion `Qz * Qy * Qx`, with `c_k = cos(angle_k / 2)`,
    /// `s_k = sin(angle_k / 2)`.
    pub open spec fn spec_quaternion(self) -> Quaternion<T> {
        let half = T::spec_from_usize(1).spec_over(T::spec_from_usize(2));
        let c1 = self.alpha.spec_times(half).spec_cos();
        let s1 = self.alpha.spec_times(half).spec_sin();
        let c2 = self.beta.spec_times(half).spec_cos();
        let s2 = self.beta.spec_times(half).spec_sin();
        let c3 = self.gamma.spec_times(half).spec_cos();
        let s3 = self.gamma.spec_times(half).spec_sin();
        quat(
            c1.spec_times(c2).spec_times(s3).spec_minus(s1.spec_times(s2).spec_times(c3)),
            c1.spec_times(s2).spec_times(c3).spec_plus(s1.spec_times(c2).spec_times(s3)),
            s1.spec_times(c2).spec_times(c3).spec_minus(c1.spec_times(s2).spec_times(s3)),
            c1.spec_times(c2).spec_times(c3).spec_plus(s1.spec_times(s2).spec_times(s3)),
        )
    }

    /// Creates Euler angles (ZYX convention).
    pub fn new(alpha: T, beta: T, gamma: T) -> (r: Self)
        ensures
            r == (EulerAngles { alpha, beta, gamma }),
    {
        EulerAngles { alpha, beta, gamma }
    }

    /// Converts the angles to a quaternion (ZYX convention).
    pub fn to_quaternion(&self) -> (q: Quaternion<T>)
        requires
            T::spec_has_trig(),
        ensures
            q == self.spec_quaternion(),
    {
        let half = T::from_usize(1).over(T::from_usize(2));
        let c1 = self.alpha.times(half).cos();
        let s1 = self.alpha.times(half).sin();
        let c2 = self.beta.times(half).cos();
        let s2 = self.beta.times(half).sin();
        let c3 = self.gamma.times(half).cos();
        let s3 = self.gamma.times(half).sin();
        Quaternion::new(
            c1.times(c2).times(s3).minus(s1.times(s2).times(c3)),
            c1.times(s2).times(c3).plus(s1.times(c2).times(s3)),
            s1.times(c2).times(c3).minus(c1.times(s2).times(s3)),
            c1.times(c2).times(c3).plus(s1.times(s2).times(s3)),
        )
    }

    /// Reads the angles off a `3 x 3` rotation matrix (ZYX convention); in
    /// gimbal lock (`|R(2,0)| >= 1 - epsilon`) the yaw is set to zero.
    pub fn from_rotation_matrix(mat: &Matrix<T>) -> (r: Self)
        requires
            T::spec_has_trig(),
            mat.wf(),
            mat.nrows() == 3,
            mat.ncols() == 3,
        ensures
            r == euler_from_entries(
                mat.at(0, 0),
                mat.at(1, 0),
                mat.at(2, 0),
                mat.at(2, 1),
                mat.at(2, 2),
                mat.at(0, 1),
                mat.at(1, 1),
            ),
    {
        let zero = T::zero();
        let one = T::from_usize(1);
        let r31 = mat.entry(2, 0);
        let r32 = mat.entry(2, 1);
        let r33 = mat.entry(2, 2);
        let r21 = mat.entry(1, 0);
        let r11 = mat.entry(0, 0);
        let beta;
        let alpha;
        let gamma;
        if r31.abs().is_lt(one.minus(T::epsilon())) {
            // Standard case.
            beta = r31.asin().negate();
            alpha = r21.atan2(r11);
            gamma = r32.atan2(r33);
        } else {
            // Gimbal lock.
            alpha = zero;
            let r12 = mat.entry(0, 1);
            let r22 = mat.entry(1, 1);
            if r31.is_lt(zero) {
                beta = T::from_usize(1).asin();
                gamma = alpha.plus(r12.atan2(r22));
            } else {
                beta = T::from_usize(1).asin().negate();
                gamma = alpha.negate().plus(r12.negate().atan2(r22.negate()));
            }
        }
        Self::new(alpha, beta, gamma)
    }
}

} // verus!
