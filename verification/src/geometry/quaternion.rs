//! Quaternions `x i + y j + z k + w`.

use crate::matrix::Matrix;
use crate::scalar::Scalar;
use vstd::prelude::*;

verus! {

/// A quaternion with vector part `(x, y, z)` and scalar part `w`.
#[derive(Clone, Copy)]
pub struct Quaternion<T: Scalar> {
    x: T,
    y: T,
    z: T,
    w: T,
}

/// The quaternion with the given coefficients.
pub open spec fn quat<T: Scalar>(x: T, y: T, z: T, w: T) -> Quaternion<T> {
    Quaternion::spec_new(x, y, z, w)
}

impl<T: Scalar> Quaternion<T> {
    pub closed spec fn spec_new(x: T, y: T, z: T, w: T) -> Self {
        Quaternion { x, y, z, w }
    }

    pub closed spec fn qx(self) -> T {
        self.x
    }

    pub closed spec fn qy(self) -> T {
        self.y
    }

    pub closed spec fn qz(self) -> T {
        self.z
    }

    pub closed spec fn qw(self) -> T {
        self.w
    }

    /// The coefficients `(x, y, z, w)` of `quat(x, y, z, w)`.
    pub proof fn lemma_quat_parts(x: T, y: T, z: T, w: T)
        ensures
            #[trigger] quat(x, y, z, w).qx() == x,
            quat(x, y, z, w).qy() == y,
            quat(x, y, z, w).qz() == z,
            quat(x, y, z, w).qw() == w,
    {
    }

    /// `x*x + y*y + z*z + w*w`, accumulated from zero.
    pub open spec fn spec_norm_sq(self) -> T {
        T::spec_zero().spec_plus(self.qx().spec_times(self.qx())).spec_plus(
            self.qy().spec_times(self.qy()),
        ).spec_plus(self.qz().spec_times(self.qz())).spec_plus(self.qw().spec_times(self.qw()))
    }

    /// The conjugate `(0 - x, 0 - y, 0 - z, w)`.
    pub open spec fn spec_conjugate(self) -> Self {
        quat(
            T::spec_zero().spec_minus(self.qx()),
            T::spec_zero().spec_minus(self.qy()),
            T::spec_zero().spec_minus(self.qz()),
            self.qw(),
        )
    }

    /// The Hamilton product `self * other`.
    pub open spec fn spec_hamilton(self, o: Self) -> Self {
        let (x1, y1, z1, w1) = (self.qx(), self.qy(), self.qz(), self.qw());
        let (x2, y2, z2, w2) = (o.qx(), o.qy(), o.qz(), o.qw());
        quat(
            w1.spec_times(x2).spec_plus(x1.spec_times(w2)).spec_plus(y1.spec_times(z2)).spec_minus(
                z1.spec_times(y2),
            ),
            w1.spec_times(y2).spec_minus(x1.spec_times(z2)).spec_plus(y1.spec_times(w2)).spec_plus(
                z1.spec_times(x2),
            ),
            w1.spec_times(z2).spec_plus(x1.spec_times(y2)).spec_minus(y1.spec_times(x2)).spec_plus(
                z1.spec_times(w2),
            ),
            w1.spec_times(w2).spec_minus(x1.spec_times(x2)).spec_minus(y1.spec_times(y2)).spec_minus(
                z1.spec_times(z2),
            ),
        )
    }

    /// The quaternion scaled by the reciprocal of its norm, unless the norm
    /// equals zero.
    pub open spec fn spec_normalized(self) -> Self {
        let n = self.spec_norm_sq().spec_sqrt();
        if n.spec_eq(T::spec_zero()) {
            self
        } else {
            let inv = T::spec_from_usize(1).spec_over(n);
            quat(
                self.qx().spec_times(inv),
                self.qy().spec_times(inv),
                self.qz().spec_times(inv),
                self.qw().spec_times(inv),
            )
        }
    }

    /// `self * (v, 0) * conjugate(self)`, as a quaternion.
    pub open spec fn spec_rotated(self, vx: T, vy: T, vz: T) -> Self {
        self.spec_hamilton(quat(vx, vy, vz, T::spec_zero())).spec_hamilton(self.spec_conjugate())
    }

    /// The entries of the rotation matrix, row by row.
    pub open spec fn spec_rotation_entries(self) -> Seq<Seq<T>> {
        let (x, y, z, w) = (self.qx(), self.qy(), self.qz(), self.qw());
        let x2 = x.spec_plus(x);
        let y2 = y.spec_plus(y);
        let z2 = z.spec_plus(z);
        let xx = x.spec_times(x2);
        let xy = x.spec_times(y2);
        let xz = x.spec_times(z2);
        let yy = y.spec_times(y2);
        let yz = y.spec_times(z2);
        let zz = z.spec_times(z2);
        let wx = w.spec_times(x2);
        let wy = w.spec_times(y2);
        let wz = w.spec_times(z2);
        let one = T::spec_from_usize(1);
        seq![
            seq![one.spec_minus(yy.spec_plus(zz)), xy.spec_minus(wz), xz.spec_plus(wy)],
            seq![xy.spec_plus(wz), one.spec_minus(xx.spec_plus(zz)), yz.spec_minus(wx)],
            seq![xz.spec_minus(wy), yz.spec_plus(wx), one.spec_minus(xx.spec_plus(yy))],
        ]
    }

    /// `x x' + y y' + z z' + w w'`, added left to right.
    pub open spec fn spec_dot(self, o: Self) -> T {
        self.qx().spec_times(o.qx()).spec_plus(self.qy().spec_times(o.qy())).spec_plus(
            self.qz().spec_times(o.qz()),
        ).spec_plus(self.qw().spec_times(o.qw()))
    }

    /// `other` with every coefficient negated (as `0 - c`) when the dot
    /// product with `self` is below zero, so that the shorter arc is taken.
    pub open spec fn slerp_target(self, o: Self) -> Self {
        let zero = T::spec_zero();
        if self.spec_dot(o).spec_lt(zero) {
            quat(
                zero.spec_minus(o.qx()),
                zero.spec_minus(o.qy()),
                zero.spec_minus(o.qz()),
                zero.spec_minus(o.qw()),
            )
        } else {
            o
        }
    }

    /// The absolute dot product used by `slerp` (`0 - dot` when negative).
    pub open spec fn slerp_cos(self, o: Self) -> T {
        let d = self.spec_dot(o);
        if d.spec_lt(T::spec_zero()) {
            T::spec_zero().spec_minus(d)
        } else {
            d
        }
    }

    /// The two quaternions are so close that `slerp` interpolates linearly:
    /// the absolute dot product exceeds `1 - epsilon`.
    pub open spec fn slerp_is_linear(self, o: Self) -> bool {
        T::spec_from_usize(1).spec_minus(T::spec_epsilon()).spec_lt(self.slerp_cos(o))
    }

    /// Spherical linear interpolation from `self` (at `t = 0`) towards
    /// `o` (at `t = 1`) along the shorter arc. Very close quaternions are
    /// interpolated linearly, `(1 - t) q + t v`, and normalized; otherwise
    /// with `theta0 = acos(cos)` the weights are
    /// `sin(theta0 - theta0 t) / sin(theta0)` and `sin(theta0 t) / sin(theta0)`.
    pub open spec fn spec_slerp(self, t: T, o: Self) -> Self {
        let v1 = self.slerp_target(o);
        if self.slerp_is_linear(o) {
            let a = T::spec_from_usize(1).spec_minus(t);
            quat(
                a.spec_times(self.qx()).spec_plus(t.spec_times(v1.qx())),
                a.spec_times(self.qy()).spec_plus(t.spec_times(v1.qy())),
                a.spec_times(self.qz()).spec_plus(t.spec_times(v1.qz())),
                a.spec_times(self.qw()).spec_plus(t.spec_times(v1.qw())),
            ).spec_normalized()
        } else {
            let theta_0 = self.slerp_cos(o).spec_acos();
            let theta = theta_0.spec_times(t);
            let sin_theta_0 = theta_0.spec_sin();
            let s0 = theta_0.spec_minus(theta).spec_sin().spec_over(sin_theta_0);
            let s_t = theta.spec_sin().spec_over(sin_theta_0);
            quat(
                s0.spec_times(self.qx()).spec_plus(s_t.spec_times(v1.qx())),
                s0.spec_times(self.qy()).spec_plus(s_t.spec_times(v1.qy())),
                s0.spec_times(self.qz()).spec_plus(s_t.spec_times(v1.qz())),
                s0.spec_times(self.qw()).spec_plus(s_t.spec_times(v1.qw())),
            )
        }
    }

    /// Every coefficient negated (as `0 - c`): the same rotation, on the
    /// other hemisphere.
    pub open spec fn spec_opposite(self) -> Self {
        let zero = T::spec_zero();
        quat(zero.spec_minus(self.qx()), zero.spec_minus(self.qy()), zero.spec_minus(self.qz()), zero.spec_minus(self.qw()))
    }

    /// `slerp` takes the shorter arc: when the dot product of `self` and `o`
    /// is below zero, interpolating towards `o` gives exactly what
    /// interpolating towards the opposite quaternion `-o` (the same
    /// rotation) gives, for every `t`. This holds wherever `x (0 - y)` is
    /// `0 - x y`, `(0 - a) + (0 - b)` is `0 - (a + b)`, and `0 - d` is not
    /// below zero when `d` is (as in exact arithmetic).
    pub proof fn lemma_slerp_shorter_arc(self, t: T, o: Self)
        requires
            forall|x: T, y: T| #[trigger] x.spec_times(T::spec_zero().spec_minus(y)) == T::spec_zero().spec_minus(
                x.spec_times(y),
            ),
            forall|a: T, b: T| #[trigger] T::spec_zero().spec_minus(a).spec_plus(T::spec_zero().spec_minus(b))
                == T::spec_zero().spec_minus(a.spec_plus(b)),
            forall|d: T| #[trigger] d.spec_lt(T::spec_zero()) ==> !T::spec_zero().spec_minus(d).spec_lt(T::spec_zero()),
            self.spec_dot(o).spec_lt(T::spec_zero()),
        ensures
            self.spec_slerp(t, o) == self.spec_slerp(t, o.spec_opposite()),
    {
        let zero = T::spec_zero();
        let n = o.spec_opposite();
        Self::lemma_quat_parts(zero.spec_minus(o.qx()), zero.spec_minus(o.qy()), zero.spec_minus(o.qz()), zero.spec_minus(o.qw()));
        let a = self.qx().spec_times(o.qx());
        let b = self.qy().spec_times(o.qy());
        let c = self.qz().spec_times(o.qz());
        let d = self.qw().spec_times(o.qw());
        assert(self.qx().spec_times(n.qx()) == zero.spec_minus(a));
        assert(self.qy().spec_times(n.qy()) == zero.spec_minus(b));
        assert(self.qz().spec_times(n.qz()) == zero.spec_minus(c));
        assert(self.qw().spec_times(n.qw()) == zero.spec_minus(d));
        assert(zero.spec_minus(a).spec_plus(zero.spec_minus(b)) == zero.spec_minus(a.spec_plus(b)));
        assert(zero.spec_minus(a.spec_plus(b)).spec_plus(zero.spec_minus(c)) == zero.spec_minus(a.spec_plus(b).spec_plus(c)));
        assert(zero.spec_minus(a.spec_plus(b).spec_plus(c)).spec_plus(zero.spec_minus(d)) == zero.spec_minus(
            a.spec_plus(b).spec_plus(c).spec_plus(d),
        ));
        assert(self.spec_dot(n) == zero.spec_minus(self.spec_dot(o)));
        assert(!self.spec_dot(n).spec_lt(zero));
        assert(self.slerp_target(n) == n);
        assert(self.slerp_target(o) == n);
        assert(self.slerp_cos(n) == self.slerp_cos(o));
    }

    /// Creates a quaternion from its coefficients.
    pub fn new(x: T, y: T, z: T, w: T) -> (q: Self)
        ensures
            q == quat(x, y, z, w),
    {
        Quaternion { x, y, z, w }
    }

    /// The identity `(0, 0, 0, 1)`.
    pub fn identity() -> (q: Self)
        ensures
            q == quat(
                T::spec_from_usize(0),
                T::spec_from_usize(0),
                T::spec_from_usize(0),
                T::spec_from_usize(1),
            ),
    {
        Self::new(T::from_usize(0), T::from_usize(0), T::from_usize(0), T::from_usize(1))
    }

    /// The rotation by `angle` around `axis` (a `3 x 1` vector):
    /// `(axis * sin(angle / 2), cos(angle / 2))`.
    pub fn from_angle_axis(angle: T, axis: &Matrix<T>) -> (q: Self)
        requires
            T::spec_has_trig(),
            axis.wf(),
            axis.nrows() == 3,
            axis.ncols() == 1,
        ensures
            ({
                let half = angle.spec_over(T::spec_from_usize(2));
                let s = half.spec_sin();
                q == quat(
                    axis.at(0, 0).spec_times(s),
                    axis.at(1, 0).spec_times(s),
                    axis.at(2, 0).spec_times(s),
                    half.spec_cos(),
                )
            }),
    {
        let half_angle = angle.over(T::from_usize(2));
        let s = half_angle.sin();
        let c = half_angle.cos();
        Self::new(
            axis.entry(0, 0).times(s),
            axis.entry(1, 0).times(s),
            axis.entry(2, 0).times(s),
            c,
        )
    }

    pub fn x(&self) -> (r: T)
        ensures
            r == self.qx(),
    {
        self.x
    }

    pub fn y(&self) -> (r: T)
        ensures
            r == self.qy(),
    {
        self.y
    }

    pub fn z(&self) -> (r: T)
        ensures
            r == self.qz(),
    {
        self.z
    }

    pub fn w(&self) -> (r: T)
        ensures
            r == self.qw(),
    {
        self.w
    }

    /// The coefficients `(x, y, z, w)` as a `4 x 1` vector.
    pub fn coeffs(&self) -> (m: Matrix<T>)
        ensures
            m.wf(),
            m.nrows() == 4,
            m.ncols() == 1,
            m.elems() == seq![self.qx(), self.qy(), self.qz(), self.qw()],
    {
        let mut v: Vec<T> = Vec::new();
        v.push(self.x);
        v.push(self.y);
        v.push(self.z);
        v.push(self.w);
        let r = Matrix::from_vec(4, 1, v);
        match r {
            Ok(m) => m,
            Err(_) => {
                assert(false);
                Matrix::zeros(4, 1)
            },
        }
    }

    /// The squared norm `x*x + y*y + z*z + w*w`.
    pub fn norm_sq(&self) -> (r: T)
        ensures
            r == self.spec_norm_sq(),
    {
        let mut sum = T::zero();
        sum = sum.plus(self.x.times(self.x));
        sum = sum.plus(self.y.times(self.y));
        sum = sum.plus(self.z.times(self.z));
        sum = sum.plus(self.w.times(self.w));
        sum
    }

    /// The norm, the square root of the squared norm.
    pub fn norm(&self) -> (r: T)
        ensures
            r == self.spec_norm_sq().spec_sqrt(),
    {
        self.norm_sq().sqrt()
    }

    /// Scales the quaternion by the reciprocal of its norm, unless the norm
    /// equals zero.
    pub fn normalize(&mut self)
        ensures
            *final(self) == old(self).spec_normalized(),
    {
        let n = self.norm();
        if !n.is_eq(T::zero()) {
            let inv_n = T::from_usize(1).over(n);
            self.x = self.x.times(inv_n);
            self.y = self.y.times(inv_n);
            self.z = self.z.times(inv_n);
            self.w = self.w.times(inv_n);
        }
    }

    /// Spherical linear interpolation (see `spec_slerp`); the trigonometric
    /// path needs a type with trigonometric functions.
    pub fn slerp(&self, t: T, other: &Self) -> (q: Self)
        requires
            !self.slerp_is_linear(*other) ==> T::spec_has_trig(),
        ensures
            q == self.spec_slerp(t, *other),
    {
        let mut dot = self.x.times(other.x).plus(self.y.times(other.y)).plus(self.z.times(other.z)).plus(
            self.w.times(other.w),
        );
        let mut v1 = *other;
        let zero = T::zero();
        if dot.is_lt(zero) {
            dot = zero.minus(dot);
            v1 = Self::new(zero.minus(other.x), zero.minus(other.y), zero.minus(other.z), zero.minus(other.w));
        }
        let one = T::from_usize(1);
        if one.minus(T::epsilon()).is_lt(dot) {
            let one_minus_t = one.minus(t);
            let mut res = Self::new(
                one_minus_t.times(self.x).plus(t.times(v1.x)),
                one_minus_t.times(self.y).plus(t.times(v1.y)),
                one_minus_t.times(self.z).plus(t.times(v1.z)),
                one_minus_t.times(self.w).plus(t.times(v1.w)),
            );
            res.normalize();
            return res;
        }
        let theta_0 = dot.acos();
        let theta = theta_0.times(t);
        let sin_theta = theta.sin();
        let sin_theta_0 = theta_0.sin();
        let s0 = theta_0.minus(theta).sin().over(sin_theta_0);
        let s_t = sin_theta.over(sin_theta_0);
        Self::new(
            s0.times(self.x).plus(s_t.times(v1.x)),
            s0.times(self.y).plus(s_t.times(v1.y)),
            s0.times(self.z).plus(s_t.times(v1.z)),
            s0.times(self.w).plus(s_t.times(v1.w)),
        )
    }

    /// The conjugate `(-x, -y, -z, w)`, each negation computed as `0 - c`.
    pub fn conjugate(&self) -> (q: Self)
        ensures
            q == self.spec_conjugate(),
    {
        let zero = T::zero();
        Self::new(zero.minus(self.x), zero.minus(self.y), zero.minus(self.z), self.w)
    }

    /// The Hamilton product `self * other`.
    pub fn hamilton_product(&self, other: &Self) -> (q: Self)
        ensures
            q == self.spec_hamilton(*other),
    {
        let x1 = self.x;
        let y1 = self.y;
        let z1 = self.z;
        let w1 = self.w;
        let x2 = other.x;
        let y2 = other.y;
        let z2 = other.z;
        let w2 = other.w;
        Self::new(
            w1.times(x2).plus(x1.times(w2)).plus(y1.times(z2)).minus(z1.times(y2)),
            w1.times(y2).minus(x1.times(z2)).plus(y1.times(w2)).plus(z1.times(x2)),
            w1.times(z2).plus(x1.times(y2)).minus(y1.times(x2)).plus(z1.times(w2)),
            w1.times(w2).minus(x1.times(x2)).minus(y1.times(y2)).minus(z1.times(z2)),
        )
    }

    /// Rotates the `3 x 1` vector `v`: the vector part of
    /// `self * (v, 0) * conjugate(self)`.
    pub fn rotate_vector(&self, v: &Matrix<T>) -> (r: Matrix<T>)
        requires
            v.wf(),
            v.nrows() == 3,
            v.ncols() == 1,
        ensures
            r.wf(),
            r.nrows() == 3,
            r.ncols() == 1,
            ({
                let q = self.spec_rotated(v.at(0, 0), v.at(1, 0), v.at(2, 0));
                r.elems() == seq![q.qx(), q.qy(), q.qz()]
            }),
    {
        let q_v = Self::new(v.entry(0, 0), v.entry(1, 0), v.entry(2, 0), T::zero());
        let res_q = self.hamilton_product(&q_v).hamilton_product(&self.conjugate());
        let mut data: Vec<T> = Vec::new();
        data.push(res_q.x);
        data.push(res_q.y);
        data.push(res_q.z);
        match Matrix::from_vec(3, 1, data) {
            Ok(m) => m,
            Err(_) => {
                assert(false);
                Matrix::zeros(3, 1)
            },
        }
    }

    /// The `3 x 3` rotation matrix of a unit quaternion.
    pub fn to_rotation_matrix(&self) -> (m: Matrix<T>)
        ensures
            m.wf(),
            m.nrows() == 3,
            m.ncols() == 3,
            forall|i: int, j: int| #[trigger]
                m.in_bounds(i, j) ==> m.at(i, j) == self.spec_rotation_entries()[i][j],
    {
        let x = self.x;
        let y = self.y;
        let z = self.z;
        let w = self.w;
        let x2 = x.plus(x);
        let y2 = y.plus(y);
        let z2 = z.plus(z);
        let xx = x.times(x2);
        let xy = x.times(y2);
        let xz = x.times(z2);
        let yy = y.times(y2);
        let yz = y.times(z2);
        let zz = z.times(z2);
        let wx = w.times(x2);
        let wy = w.times(y2);
        let wz = w.times(z2);
        let one = T::from_usize(1);
        let mut data: Vec<T> = Vec::new();
        data.push(one.minus(yy.plus(zz)));
        data.push(xy.plus(wz));
        data.push(xz.minus(wy));
        data.push(xy.minus(wz));
        data.push(one.minus(xx.plus(zz)));
        data.push(yz.plus(wx));
        data.push(xz.plus(wy));
        data.push(yz.minus(wx));
        data.push(one.minus(xx.plus(yy)));
        let ghost e = self.spec_rotation_entries();
        assert(data@ == seq![
            e[0][0], e[1][0], e[2][0], e[0][1], e[1][1], e[2][1], e[0][2], e[1][2], e[2][2],
        ]);
        let m = match Matrix::from_vec(3, 3, data) {
            Ok(m) => m,
            Err(_) => {
                assert(false);
                Matrix::zeros(3, 3)
            },
        };
        assert forall|i: int, j: int| #[trigger] m.in_bounds(i, j) implies m.at(i, j) == e[i][j] by {
            assert(0 <= i < 3 && 0 <= j < 3);
        }
        m
    }
}

} // verus!
