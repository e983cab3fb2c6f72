//! Affine (and projective) transformations as homogeneous matrices.

use crate::geometry::quaternion::Quaternion;
use crate::geometry::scaling::Scaling;
use crate::geometry::translation::Translation;
use crate::geometry::vectors::{is_vector, vector_from_vec};
use crate::matrix::{lemma_product_entry_of, product_entry, product_of, Matrix};
use crate::scalar::{Scalar, exact_rules, field_rules, lemma_field};
use vstd::prelude::*;

verus! {

/// A transform of the plane, stored as a `3 x 3` homogeneous matrix.
pub type Transform2<T> = Transform<T, 3, 2>;

/// A transform of space, stored as a `4 x 4` homogeneous matrix.
pub type Transform3<T> = Transform<T, 4, 3>;

/// A projective transform of the plane.
pub type Projective2<T> = Transform<T, 3, 2>;

/// A projective transform of space.
pub type Projective3<T> = Transform<T, 4, 3>;

/// A transformation of `DIM`-space stored as an `N x N` homogeneous matrix
/// (`N = DIM + 1`).
pub struct Transform<T: Scalar, const N: usize, const DIM: usize> {
    matrix: Matrix<T>,
}

/// The first `DIM` coordinates of a transformed point:
/// `m(i, DIM) + sum_{j < n} m(i, j) * p_j`, accumulated from the translation
/// part.
pub open spec fn affine_row<T: Scalar>(m: Matrix<T>, p: Seq<T>, i: int, dim: int, n: nat) -> T
    decreases n,
{
    if n == 0 {
        m.at(i, dim)
    } else {
        affine_row(m, p, i, dim, (n - 1) as nat).spec_plus(m.at(i, n - 1).spec_times(p[n - 1]))
    }
}

/// The homogeneous column of the point `p` of `DIM`-space: its coordinates
/// followed by one.
pub open spec fn homogeneous<T: Scalar>(p: Seq<T>, dim: int) -> spec_fn(int, int) -> T {
    |k: int, c: int|
        if k == dim {
            T::spec_from_usize(1)
        } else {
            p[k]
        }
}

/// The partial sums: `affine_row` over the first `k` coordinates is the
/// translation entry plus the first `k` terms of the matrix product.
proof fn lemma_affine_row_sum<T: Scalar>(m: Matrix<T>, p: Seq<T>, i: int, dim: int, k: nat)
    requires
        exact_rules::<T>(),
        k <= dim,
    ensures
        affine_row(m, p, i, dim, k) == m.at(i, dim).spec_plus(
            product_of(|r: int, c: int| m.at(r, c), homogeneous(p, dim), i, 0, k),
        ),
    decreases k,
{
    if k > 0 {
        lemma_affine_row_sum(m, p, i, dim, (k - 1) as nat);
    }
}

/// Under the rules of exact arithmetic, a transformed point is the matrix
/// product of the homogeneous matrix with the point extended by one:
/// coordinate `i` of `transform_point(p)` (see `affine_row`) is entry `i` of
/// `M [p; 1]`, `sum over k <= DIM of m(i, k) [p; 1](k)`.
pub proof fn lemma_transform_point_is_product<T: Scalar>(m: Matrix<T>, p: Seq<T>, i: int, dim: nat)
    requires
        exact_rules::<T>(),
        field_rules::<T>(),
    ensures
        affine_row(m, p, i, dim as int, dim) == product_of(
            |r: int, c: int| m.at(r, c),
            homogeneous(p, dim as int),
            i,
            0,
            dim + 1,
        ),
{
    lemma_affine_row_sum(m, p, i, dim as int, dim);
    let s = product_of(|r: int, c: int| m.at(r, c), homogeneous(p, dim as int), i, 0, dim);
    let e = m.at(i, dim as int);
    lemma_field(e, e, e);
    assert(homogeneous(p, dim as int)(dim as int, 0) == T::spec_from_usize(1));
    assert(e.spec_plus(s) == s.spec_plus(e));
}

/// The identity pattern: one on the diagonal, zero elsewhere.
pub open spec fn identity_entry<T: Scalar>(i: int, j: int) -> T {
    if i == j {
        T::spec_from_usize(1)
    } else {
        T::spec_zero()
    }
}

/// The entries of the homogeneous matrix translating 3-space by `v`.
pub open spec fn translation_entries<T: Scalar>(v: Seq<T>) -> spec_fn(int, int) -> T {
    |i: int, j: int|
        if j == 3 && i < 3 {
            v[i]
        } else {
            identity_entry::<T>(i, j)
        }
}

/// The entries of the homogeneous matrix rotating 3-space by `q`.
pub open spec fn rotation_entries<T: Scalar>(q: Quaternion<T>) -> spec_fn(int, int) -> T {
    |i: int, j: int|
        if i < 3 && j < 3 {
            q.spec_rotation_entries()[i][j]
        } else {
            identity_entry::<T>(i, j)
        }
}

impl<T: Scalar, const N: usize, const DIM: usize> Transform<T, N, DIM> {
    /// The matrix is `N x N`, with `N = DIM + 1`.
    pub open spec fn wf(&self) -> bool {
        &&& self.spec_matrix().wf()
        &&& self.spec_matrix().nrows() == N
        &&& self.spec_matrix().ncols() == N
        &&& N == DIM + 1
    }

    pub closed spec fn spec_matrix(&self) -> Matrix<T> {
        self.matrix
    }

    /// The identity transformation.
    pub fn identity() -> (t: Self)
        requires
            N == DIM + 1,
            N * N <= usize::MAX,
        ensures
            t.wf(),
            forall|i: int, j: int| #[trigger]
                t.spec_matrix().in_bounds(i, j) ==> t.spec_matrix().at(i, j) == identity_entry::<T>(i, j),
    {
        let mut matrix = Matrix::zeros(N, N);
        matrix.set_identity();
        Transform { matrix }
    }

    /// The homogeneous matrix.
    pub fn matrix(&self) -> (r: &Matrix<T>)
        ensures
            *r == self.spec_matrix(),
    {
        &self.matrix
    }

    /// Mutable access to the matrix; the transform holds whatever matrix
    /// the caller leaves there.
    pub fn matrix_mut(&mut self) -> (r: &mut Matrix<T>)
        ensures
            *r == old(self).spec_matrix(),
            final(self).spec_matrix() == *final(r),
    {
        &mut self.matrix
    }

    /// The composition `self * other` (matrix product).
    pub fn mul(&self, other: &Self) -> (t: Self)
        requires
            self.wf(),
            other.wf(),
        ensures
            t.wf(),
            forall|i: int, j: int| #[trigger]
                t.spec_matrix().in_bounds(i, j) ==> t.spec_matrix().at(i, j) == product_entry(
                    self.spec_matrix(),
                    other.spec_matrix(),
                    i,
                    j,
                    N as nat,
                ),
    {
        let _len = self.matrix.size();
        Transform { matrix: self.matrix.product(&other.matrix) }
    }

    /// Applies the transformation to a point (a `DIM x 1` vector with an
    /// implicit last coordinate one).
    pub fn transform_point(&self, p: &Matrix<T>) -> (r: Matrix<T>)
        requires
            self.wf(),
            is_vector(*p, DIM as nat),
        ensures
            is_vector(r, DIM as nat),
            forall|i: int|
                0 <= i < DIM ==> #[trigger] r.elems()[i] == affine_row(
                    self.spec_matrix(),
                    p.elems(),
                    i,
                    DIM as int,
                    DIM as nat,
                ),
    {
        let pd = p.data();
        let mut v: Vec<T> = Vec::new();
        let mut i: usize = 0;
        while i < DIM
            invariant
                self.wf(),
                is_vector(*p, DIM as nat),
                pd@ == p.elems(),
                i <= DIM,
                v@.len() == i,
                forall|k: int|
                    0 <= k < i ==> #[trigger] v@[k] == affine_row(
                        self.spec_matrix(),
                        p.elems(),
                        k,
                        DIM as int,
                        DIM as nat,
                    ),
            decreases DIM - i,
        {
            let mut sum = self.matrix.entry(i, DIM);
            let mut j: usize = 0;
            while j < DIM
                invariant
                    self.wf(),
                    is_vector(*p, DIM as nat),
                    pd@ == p.elems(),
                    i < DIM,
                    j <= DIM,
                    sum == affine_row(self.spec_matrix(), p.elems(), i as int, DIM as int, j as nat),
                decreases DIM - j,
            {
                sum = sum.plus(self.matrix.entry(i, j).times(pd[j]));
                j = j + 1;
            }
            v.push(sum);
            i = i + 1;
        }
        vector_from_vec(v)
    }

    /// The transformation translating by `t`: identity with the translation
    /// in the last column.
    pub fn from_translation(t: &Translation<T, DIM>) -> (tf: Self)
        requires
            N == DIM + 1,
            N * N <= usize::MAX,
            t.wf(),
        ensures
            tf.wf(),
            forall|i: int, j: int| #[trigger]
                tf.spec_matrix().in_bounds(i, j) ==> tf.spec_matrix().at(i, j) == if j == DIM && i
                    < DIM {
                    t.vector.elems()[i]
                } else {
                    identity_entry::<T>(i, j)
                },
    {
        let mut tf = Self::identity();
        let td = t.vector.data();
        let mut i: usize = 0;
        while i < DIM
            invariant
                tf.wf(),
                t.wf(),
                td@ == t.vector.elems(),
                i <= DIM,
                forall|a: int, b: int| #[trigger]
                    tf.spec_matrix().in_bounds(a, b) ==> tf.spec_matrix().at(a, b) == if b == DIM
                        && a < i {
                        t.vector.elems()[a]
                    } else {
                        identity_entry::<T>(a, b)
                    },
            decreases DIM - i,
        {
            let ghost prev = tf.spec_matrix();
            tf.matrix.set(i, DIM, td[i]);
            proof {
                assert forall|a: int, b: int| #[trigger] tf.spec_matrix().in_bounds(a, b) implies tf.spec_matrix().at(
                    a,
                    b,
                ) == if b == DIM && a < i + 1 {
                    t.vector.elems()[a]
                } else {
                    identity_entry::<T>(a, b)
                } by {
                    assert(prev.in_bounds(a, b));
                }
            }
            i = i + 1;
        }
        tf
    }

    /// The transformation scaling by `s`: identity with the coefficients on
    /// the first `DIM` diagonal entries.
    pub fn from_scaling(s: &Scaling<T, DIM>) -> (tf: Self)
        requires
            N == DIM + 1,
            N * N <= usize::MAX,
            s.wf(),
        ensures
            tf.wf(),
            forall|i: int, j: int| #[trigger]
                tf.spec_matrix().in_bounds(i, j) ==> tf.spec_matrix().at(i, j) == if i == j && i
                    < DIM {
                    s.coeffs.elems()[i]
                } else {
                    identity_entry::<T>(i, j)
                },
    {
        let mut tf = Self::identity();
        let sd = s.coeffs.data();
        let mut i: usize = 0;
        while i < DIM
            invariant
                tf.wf(),
                s.wf(),
                sd@ == s.coeffs.elems(),
                i <= DIM,
                forall|a: int, b: int| #[trigger]
                    tf.spec_matrix().in_bounds(a, b) ==> tf.spec_matrix().at(a, b) == if a == b
                        && a < i {
                        s.coeffs.elems()[a]
                    } else {
                        identity_entry::<T>(a, b)
                    },
            decreases DIM - i,
        {
            let ghost prev = tf.spec_matrix();
            tf.matrix.set(i, i, sd[i]);
            proof {
                assert forall|a: int, b: int| #[trigger] tf.spec_matrix().in_bounds(a, b) implies tf.spec_matrix().at(
                    a,
                    b,
                ) == if a == b && a < i + 1 {
                    s.coeffs.elems()[a]
                } else {
                    identity_entry::<T>(a, b)
                } by {
                    assert(prev.in_bounds(a, b));
                }
            }
            i = i + 1;
        }
        tf
    }

    /// The rotation of 3-space given by `q` (for `N = 4`, `DIM = 3`): the
    /// rotation matrix in the top-left `3 x 3` block of the identity.
    pub fn from_rotation(q: &Quaternion<T>) -> (tf: Self)
        requires
            N == 4,
            DIM == 3,
        ensures
            tf.wf(),
            forall|i: int, j: int| #[trigger]
                tf.spec_matrix().in_bounds(i, j) ==> tf.spec_matrix().at(i, j) == if i < 3 && j < 3 {
                    q.spec_rotation_entries()[i][j]
                } else {
                    identity_entry::<T>(i, j)
                },
    {
        let r = q.to_rotation_matrix();
        let mut tf = Self::identity();
        let mut i: usize = 0;
        while i < 3
            invariant
                N == 4,
                DIM == 3,
                tf.wf(),
                r.wf(),
                r.nrows() == 3,
                r.ncols() == 3,
                forall|a: int, b: int| #[trigger]
                    r.in_bounds(a, b) ==> r.at(a, b) == q.spec_rotation_entries()[a][b],
                i <= 3,
                forall|a: int, b: int| #[trigger]
                    tf.spec_matrix().in_bounds(a, b) ==> tf.spec_matrix().at(a, b) == if a < i && b
                        < 3 {
                        q.spec_rotation_entries()[a][b]
                    } else {
                        identity_entry::<T>(a, b)
                    },
            decreases 3 - i,
        {
            let mut j: usize = 0;
            while j < 3
                invariant
                    N == 4,
                    DIM == 3,
                    tf.wf(),
                    r.wf(),
                    r.nrows() == 3,
                    r.ncols() == 3,
                    forall|a: int, b: int| #[trigger]
                        r.in_bounds(a, b) ==> r.at(a, b) == q.spec_rotation_entries()[a][b],
                    i < 3,
                    j <= 3,
                    forall|a: int, b: int| #[trigger]
                        tf.spec_matrix().in_bounds(a, b) ==> tf.spec_matrix().at(a, b) == if (a < i
                            && b < 3) || (a == i && b < j) {
                            q.spec_rotation_entries()[a][b]
                        } else {
                            identity_entry::<T>(a, b)
                        },
                decreases 3 - j,
            {
                let ghost prev = tf.spec_matrix();
                assert(r.in_bounds(i as int, j as int));
                let v = r.entry(i, j);
                tf.matrix.set(i, j, v);
                proof {
                    assert forall|a: int, b: int| #[trigger] tf.spec_matrix().in_bounds(a, b) implies tf.spec_matrix().at(
                        a,
                        b,
                    ) == if (a < i && b < 3) || (a == i && b < j + 1) {
                        q.spec_rotation_entries()[a][b]
                    } else {
                        identity_entry::<T>(a, b)
                    } by {
                        assert(prev.in_bounds(a, b));
                    }
                }
                j = j + 1;
            }
            i = i + 1;
        }
        tf
    }

    /// Translation after rotation: `from_translation(t) * from_rotation(r)`.
    pub fn from_parts(t: Translation<T, 3>, r: Quaternion<T>) -> (tf: Self)
        requires
            N == 4,
            DIM == 3,
            t.wf(),
        ensures
            tf.wf(),
            forall|i: int, j: int| #[trigger]
                tf.spec_matrix().in_bounds(i, j) ==> tf.spec_matrix().at(i, j) == product_of(
                    translation_entries(t.vector.elems()),
                    rotation_entries(r),
                    i,
                    j,
                    4,
                ),
    {
        let tf_t = Self::translation_in_3d(&t);
        let tf_r = Self::from_rotation(&r);
        let tf = tf_t.mul(&tf_r);
        proof {
            assert forall|i: int, j: int| #[trigger] tf.spec_matrix().in_bounds(i, j) implies tf.spec_matrix().at(
                i,
                j,
            ) == product_of(translation_entries(t.vector.elems()), rotation_entries(r), i, j, 4) by {
                assert forall|k: int| 0 <= k < 4 implies #[trigger] tf_t.spec_matrix().at(i, k)
                    == translation_entries(t.vector.elems())(i, k) by {
                    assert(tf_t.spec_matrix().in_bounds(i, k));
                }
                assert forall|k: int| 0 <= k < 4 implies #[trigger] tf_r.spec_matrix().at(k, j)
                    == rotation_entries(r)(k, j) by {
                    assert(tf_r.spec_matrix().in_bounds(k, j));
                }
                lemma_product_entry_of(
                    tf_t.spec_matrix(),
                    tf_r.spec_matrix(),
                    translation_entries(t.vector.elems()),
                    rotation_entries(r),
                    i,
                    j,
                    4,
                );
            }
        }
        tf
    }

    fn translation_in_3d(t: &Translation<T, 3>) -> (tf: Self)
        requires
            N == 4,
            DIM == 3,
            t.wf(),
        ensures
            tf.wf(),
            forall|i: int, j: int| #[trigger]
                tf.spec_matrix().in_bounds(i, j) ==> tf.spec_matrix().at(i, j) == if j == 3 && i < 3 {
                    t.vector.elems()[i]
                } else {
                    identity_entry::<T>(i, j)
                },
    {
        let mut tf = Self::identity();
        let td = t.vector.data();
        let mut i: usize = 0;
        while i < 3
            invariant
                N == 4,
                DIM == 3,
                tf.wf(),
                t.wf(),
                td@ == t.vector.elems(),
                i <= 3,
                forall|a: int, b: int| #[trigger]
                    tf.spec_matrix().in_bounds(a, b) ==> tf.spec_matrix().at(a, b) == if b == 3 && a
                        < i {
                        t.vector.elems()[a]
                    } else {
                        identity_entry::<T>(a, b)
                    },
            decreases 3 - i,
        {
            let ghost prev = tf.spec_matrix();
            tf.matrix.set(i, 3, td[i]);
            proof {
                assert forall|a: int, b: int| #[trigger] tf.spec_matrix().in_bounds(a, b) implies tf.spec_matrix().at(
                    a,
                    b,
                ) == if b == 3 && a < i + 1 {
                    t.vector.elems()[a]
                } else {
                    identity_entry::<T>(a, b)
                } by {
                    assert(prev.in_bounds(a, b));
                }
            }
            i = i + 1;
        }
        tf
    }
}

} // verus!
