//! Rotations, transformations and simple geometric primitives.

pub mod quaternion;
pub mod angle_axis;
pub mod euler_angles;
pub mod vectors;
pub mod aligned_box;
pub mod ray;
pub mod hyperplane;
pub mod parametrized_line;
pub mod translation;
pub mod scaling;
pub mod transform;

use vstd::prelude::*;

verus! {

/// A translation of the plane.
pub type Translation2<T> = translation::Translation<T, 2>;

/// A translation of space.
pub type Translation3<T> = translation::Translation<T, 3>;

/// An affine transform of the plane.
pub type Affine2<T> = transform::Transform2<T>;

/// An affine transform of space.
pub type Affine3<T> = transform::Transform3<T>;

/// A rigid motion of the plane.
pub type Isometry2<T> = transform::Transform2<T>;

/// A rigid motion of space.
pub type Isometry3<T> = transform::Transform3<T>;

} // verus!
