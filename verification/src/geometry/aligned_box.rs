//! Axis-aligned bounding boxes.

use crate::geometry::ray::Ray;
use crate::geometry::vectors::{is_vector, vector_from_vec};
use crate::matrix::Matrix;
use crate::scalar::{Scalar, lt_strict_partial};
use vstd::prelude::*;

verus! {

/// The box `[min_0, max_0] x ... x [min_{RANK-1}, max_{RANK-1}]`.
pub struct AlignedBox<T: Scalar, const RANK: usize> {
    min: Matrix<T>,
    max: Matrix<T>,
}

/// `p` lies between `lo` and `hi` in every one of the first `n`
/// coordinates.
pub open spec fn seq_contains<T: Scalar>(lo: Seq<T>, hi: Seq<T>, p: Seq<T>, n: nat) -> bool {
    forall|i: int| 0 <= i < n ==> !#[trigger] p[i].spec_lt(lo[i]) && !hi[i].spec_lt(p[i])
}

/// The squared distance from `p` to the box over the first `n`
/// coordinates; a coordinate inside its interval adds nothing.
pub open spec fn box_dist_upto<T: Scalar>(lo: Seq<T>, hi: Seq<T>, p: Seq<T>, n: nat) -> T
    decreases n,
{
    if n == 0 {
        T::spec_zero()
    } else {
        let prev = box_dist_upto(lo, hi, p, (n - 1) as nat);
        let i = n - 1;
        if p[i].spec_lt(lo[i]) {
            let d = lo[i].spec_minus(p[i]);
            prev.spec_plus(d.spec_times(d))
        } else if hi[i].spec_lt(p[i]) {
            let d = p[i].spec_minus(hi[i]);
            prev.spec_plus(d.spec_times(d))
        } else {
            prev
        }
    }
}

/// Every coordinate negated (as `0 - c`): the mirror image through the
/// origin.
pub open spec fn mirrored<T: Scalar>(s: Seq<T>) -> Seq<T> {
    Seq::new(s.len(), |i: int| T::spec_zero().spec_minus(s[i]))
}

/// Rules of negation that hold of exact and of floating-point arithmetic:
/// negating both sides of `<` reverses it, and `(0 - a) - (0 - b)` is
/// `b - a`.
pub open spec fn mirror_rules<T: Scalar>() -> bool {
    &&& forall|x: T, y: T| #[trigger] x.spec_lt(y) <==> T::spec_zero().spec_minus(y).spec_lt(T::spec_zero().spec_minus(x))
    &&& forall|a: T, b: T| #[trigger] T::spec_zero().spec_minus(a).spec_minus(T::spec_zero().spec_minus(b)) == b.spec_minus(a)
}

/// The squared distance from a point to a box is unchanged by mirroring
/// both through the origin: the box `[lo, hi]` and the point `p` give the
/// same value as the box `[-hi, -lo]` and the point `-p`. A point below a
/// lower corner thus counts exactly as a point above an upper corner. The
/// box is not empty in any of the first `n` coordinates.
pub proof fn lemma_box_dist_mirror<T: Scalar>(lo: Seq<T>, hi: Seq<T>, p: Seq<T>, n: nat)
    requires
        mirror_rules::<T>(),
        lt_strict_partial::<T>(),
        n <= lo.len(),
        n <= hi.len(),
        n <= p.len(),
        forall|i: int| 0 <= i < n ==> !#[trigger] hi[i].spec_lt(lo[i]),
    ensures
        box_dist_upto(lo, hi, p, n) == box_dist_upto(mirrored(hi), mirrored(lo), mirrored(p), n),
    decreases n,
{
    if n > 0 {
        lemma_box_dist_mirror(lo, hi, p, (n - 1) as nat);
        let i = n - 1;
        let zero = T::spec_zero();
        let (l, h, x) = (lo[i], hi[i], p[i]);
        assert(mirrored(hi)[i] == zero.spec_minus(h));
        assert(mirrored(lo)[i] == zero.spec_minus(l));
        assert(mirrored(p)[i] == zero.spec_minus(x));
        assert(x.spec_lt(l) <==> zero.spec_minus(l).spec_lt(zero.spec_minus(x)));
        assert(h.spec_lt(x) <==> zero.spec_minus(x).spec_lt(zero.spec_minus(h)));
        if x.spec_lt(l) && h.spec_lt(x) {
            assert(h.spec_lt(l));
        }
        assert(zero.spec_minus(x).spec_minus(zero.spec_minus(l)) == l.spec_minus(x));
        assert(zero.spec_minus(h).spec_minus(zero.spec_minus(x)) == x.spec_minus(h));
    }
}

/// Rules of order of exact arithmetic: a difference `y - x` with `x < y` is
/// above zero, the square of a value above zero is above zero, no square
/// is below zero, and a sum of a value not below zero and a value above
/// zero (in either order), or of two values not below zero, keeps that.
pub open spec fn positive_rules<T: Scalar>() -> bool {
    let zero = T::spec_zero();
    &&& forall|x: T, y: T| x.spec_lt(y) ==> zero.spec_lt(#[trigger] y.spec_minus(x))
    &&& forall|d: T| zero.spec_lt(d) ==> zero.spec_lt(#[trigger] d.spec_times(d))
    &&& forall|x: T| !#[trigger] x.spec_times(x).spec_lt(zero)
    &&& forall|a: T, b: T| !a.spec_lt(zero) && zero.spec_lt(b) ==> zero.spec_lt(#[trigger] a.spec_plus(b))
    &&& forall|a: T, b: T| zero.spec_lt(a) && !b.spec_lt(zero) ==> zero.spec_lt(#[trigger] a.spec_plus(b))
    &&& forall|a: T, b: T| !a.spec_lt(zero) && !b.spec_lt(zero) ==> !(#[trigger] a.spec_plus(b)).spec_lt(zero)
    &&& forall|x: T| zero.spec_lt(x) ==> !#[trigger] x.spec_lt(zero)
}

/// Under the rules of order of exact arithmetic, the squared distance over
/// the first `n` coordinates is never below zero, is zero (exactly the
/// starting zero) when the point lies in the box, and is above zero when a
/// coordinate lies below its lower bound or above its upper bound.
pub proof fn lemma_box_dist_zero_iff_inside<T: Scalar>(lo: Seq<T>, hi: Seq<T>, p: Seq<T>, n: nat)
    requires
        positive_rules::<T>(),
    ensures
        !box_dist_upto(lo, hi, p, n).spec_lt(T::spec_zero()),
        seq_contains(lo, hi, p, n) ==> box_dist_upto(lo, hi, p, n) == T::spec_zero(),
        !seq_contains(lo, hi, p, n) ==> T::spec_zero().spec_lt(box_dist_upto(lo, hi, p, n)),
    decreases n,
{
    if n > 0 {
        let m = (n - 1) as nat;
        lemma_box_dist_zero_iff_inside(lo, hi, p, m);
        let i = n - 1;
        let prev = box_dist_upto(lo, hi, p, m);
        if seq_contains(lo, hi, p, n) {
            assert(seq_contains(lo, hi, p, m));
            assert(!p[i].spec_lt(lo[i]) && !hi[i].spec_lt(p[i]));
        } else if seq_contains(lo, hi, p, m) {
            assert(p[i].spec_lt(lo[i]) || hi[i].spec_lt(p[i]));
            if p[i].spec_lt(lo[i]) {
                let d = lo[i].spec_minus(p[i]);
                assert(T::spec_zero().spec_lt(d.spec_times(d)));
                assert(T::spec_zero().spec_lt(prev.spec_plus(d.spec_times(d))));
            } else {
                let d = p[i].spec_minus(hi[i]);
                assert(T::spec_zero().spec_lt(d.spec_times(d)));
                assert(T::spec_zero().spec_lt(prev.spec_plus(d.spec_times(d))));
            }
        } else {
            if p[i].spec_lt(lo[i]) {
                let d = lo[i].spec_minus(p[i]);
                assert(!d.spec_times(d).spec_lt(T::spec_zero()));
            } else if hi[i].spec_lt(p[i]) {
                let d = p[i].spec_minus(hi[i]);
                assert(!d.spec_times(d).spec_lt(T::spec_zero()));
            }
        }
        if p[i].spec_lt(lo[i]) {
            let d = lo[i].spec_minus(p[i]);
            assert(!d.spec_times(d).spec_lt(T::spec_zero()));
        } else if hi[i].spec_lt(p[i]) {
            let d = p[i].spec_minus(hi[i]);
            assert(!d.spec_times(d).spec_lt(T::spec_zero()));
        }
    }
}

/// One step of the slab method on coordinate `i`, from the parameter range
/// `(tmin, tmax)`.
pub open spec fn slab_step<T: Scalar>(
    lo: T,
    hi: T,
    o: T,
    d: T,
    tmin: T,
    tmax: T,
) -> Option<(T, T)> {
    if d.spec_abs().spec_lt(T::spec_epsilon()) {
        if o.spec_lt(lo) || hi.spec_lt(o) {
            None
        } else {
            Some((tmin, tmax))
        }
    } else {
        let inv = T::spec_from_usize(1).spec_over(d);
        let t1a = lo.spec_minus(o).spec_times(inv);
        let t2a = hi.spec_minus(o).spec_times(inv);
        let (t1, t2) = if t2a.spec_lt(t1a) {
            (t2a, t1a)
        } else {
            (t1a, t2a)
        };
        let nmin = if tmin.spec_lt(t1) {
            t1
        } else {
            tmin
        };
        let nmax = if t2.spec_lt(tmax) {
            t2
        } else {
            tmax
        };
        if nmax.spec_lt(nmin) {
            None
        } else {
            Some((nmin, nmax))
        }
    }
}

/// The slab method over the first `n` coordinates, starting from the
/// widest range `(min_value, max_value)`.
pub open spec fn slab_scan<T: Scalar>(
    lo: Seq<T>,
    hi: Seq<T>,
    o: Seq<T>,
    d: Seq<T>,
    n: nat,
) -> Option<(T, T)>
    decreases n,
{
    if n == 0 {
        Some((T::spec_min_value(), T::spec_max_value()))
    } else {
        match slab_scan(lo, hi, o, d, (n - 1) as nat) {
            None => None,
            Some((tmin, tmax)) => slab_step(
                lo[n - 1],
                hi[n - 1],
                o[n - 1],
                d[n - 1],
                tmin,
                tmax,
            ),
        }
    }
}

/// Once the slab method has found no intersection, further coordinates do
/// not change that.
pub proof fn lemma_slab_none<T: Scalar>(
    lo: Seq<T>,
    hi: Seq<T>,
    o: Seq<T>,
    d: Seq<T>,
    k: nat,
    m: nat,
)
    requires
        k <= m,
        slab_scan(lo, hi, o, d, k) is None,
    ensures
        slab_scan(lo, hi, o, d, m) is None,
    decreases m - k,
{
    if k < m {
        lemma_slab_none(lo, hi, o, d, k, (m - 1) as nat);
    }
}

/// The parameter range `(t_min, t_max)` of the part of a ray inside a box:
/// none when the ray misses or the box is behind it; `t_min` clamped at
/// zero.
pub open spec fn ray_box_range<T: Scalar>(
    lo: Seq<T>,
    hi: Seq<T>,
    o: Seq<T>,
    d: Seq<T>,
    n: nat,
) -> Option<(T, T)> {
    match slab_scan(lo, hi, o, d, n) {
        None => None,
        Some((tmin, tmax)) => if tmax.spec_lt(T::spec_zero()) {
            None
        } else if tmin.spec_lt(T::spec_zero()) {
            Some((T::spec_zero(), tmax))
        } else {
            Some((tmin, tmax))
        },
    }
}

impl<T: Scalar, const RANK: usize> AlignedBox<T, RANK> {
    /// Both corners are `RANK x 1` vectors.
    pub open spec fn wf(&self) -> bool {
        is_vector(self.spec_min(), RANK as nat) && is_vector(self.spec_max(), RANK as nat)
    }

    pub closed spec fn spec_min(&self) -> Matrix<T> {
        self.min
    }

    pub closed spec fn spec_max(&self) -> Matrix<T> {
        self.max
    }

    /// Lower corner coordinates.
    pub open spec fn lo(&self) -> Seq<T> {
        self.spec_min().elems()
    }

    /// Upper corner coordinates.
    pub open spec fn hi(&self) -> Seq<T> {
        self.spec_max().elems()
    }

    /// Creates a box with the given corners.
    pub fn new(min: Matrix<T>, max: Matrix<T>) -> (b: Self)
        requires
            is_vector(min, RANK as nat),
            is_vector(max, RANK as nat),
        ensures
            b.wf(),
            b.spec_min() == min,
            b.spec_max() == max,
    {
        AlignedBox { min, max }
    }

    /// The empty box: lower corner at the largest value, upper corner at the
    /// smallest.
    pub fn new_empty() -> (b: Self)
        ensures
            b.wf(),
            forall|i: int| 0 <= i < RANK ==> #[trigger] b.lo()[i] == T::spec_max_value(),
            forall|i: int| 0 <= i < RANK ==> #[trigger] b.hi()[i] == T::spec_min_value(),
    {
        let max_val = T::max_value();
        let min_val = T::min_value();
        let mut lo: Vec<T> = Vec::new();
        let mut hi: Vec<T> = Vec::new();
        let mut i: usize = 0;
        while i < RANK
            invariant
                i <= RANK,
                lo@.len() == i,
                hi@.len() == i,
                forall|k: int| 0 <= k < i ==> #[trigger] lo@[k] == max_val,
                forall|k: int| 0 <= k < i ==> #[trigger] hi@[k] == min_val,
            decreases RANK - i,
        {
            lo.push(max_val);
            hi.push(min_val);
            i = i + 1;
        }
        AlignedBox { min: vector_from_vec(lo), max: vector_from_vec(hi) }
    }

    /// The lower corner.
    pub fn min(&self) -> (r: &Matrix<T>)
        ensures
            *r == self.spec_min(),
    {
        &self.min
    }

    /// The upper corner.
    pub fn max(&self) -> (r: &Matrix<T>)
        ensures
            *r == self.spec_max(),
    {
        &self.max
    }

    /// The center `(min + max) / 2`, coordinate-wise.
    pub fn center(&self) -> (c: Matrix<T>)
        requires
            self.wf(),
        ensures
            is_vector(c, RANK as nat),
            forall|i: int|
                0 <= i < RANK ==> #[trigger] c.elems()[i] == self.lo()[i].spec_plus(
                    self.hi()[i],
                ).spec_over(T::spec_from_usize(2)),
    {
        let lo = self.min.data();
        let hi = self.max.data();
        let two = T::from_usize(2);
        let mut v: Vec<T> = Vec::new();
        let mut i: usize = 0;
        while i < RANK
            invariant
                self.wf(),
                lo@ == self.lo(),
                hi@ == self.hi(),
                two == T::spec_from_usize(2),
                i <= RANK,
                v@.len() == i,
                forall|k: int|
                    0 <= k < i ==> #[trigger] v@[k] == self.lo()[k].spec_plus(self.hi()[k]).spec_over(
                        T::spec_from_usize(2),
                    ),
            decreases RANK - i,
        {
            v.push(lo[i].plus(hi[i]).over(two));
            i = i + 1;
        }
        vector_from_vec(v)
    }

    /// The side lengths `|max - min|`, coordinate-wise.
    pub fn sizes(&self) -> (s: Matrix<T>)
        requires
            self.wf(),
        ensures
            is_vector(s, RANK as nat),
            forall|i: int|
                0 <= i < RANK ==> #[trigger] s.elems()[i] == self.hi()[i].spec_minus(
                    self.lo()[i],
                ).spec_abs(),
    {
        let lo = self.min.data();
        let hi = self.max.data();
        let mut v: Vec<T> = Vec::new();
        let mut i: usize = 0;
        while i < RANK
            invariant
                self.wf(),
                lo@ == self.lo(),
                hi@ == self.hi(),
                i <= RANK,
                v@.len() == i,
                forall|k: int|
                    0 <= k < i ==> #[trigger] v@[k] == self.hi()[k].spec_minus(self.lo()[k]).spec_abs(),
            decreases RANK - i,
        {
            v.push(hi[i].minus(lo[i]).abs());
            i = i + 1;
        }
        vector_from_vec(v)
    }

    /// Whether `point` lies inside the box: no coordinate below the lower
    /// corner or above the upper corner.
    pub fn contains(&self, point: &Matrix<T>) -> (r: bool)
        requires
            self.wf(),
            is_vector(*point, RANK as nat),
        ensures
            r == seq_contains(self.lo(), self.hi(), point.elems(), RANK as nat),
    {
        let lo = self.min.data();
        let hi = self.max.data();
        let p = point.data();
        let mut i: usize = 0;
        while i < RANK
            invariant
                self.wf(),
                is_vector(*point, RANK as nat),
                lo@ == self.lo(),
                hi@ == self.hi(),
                p@ == point.elems(),
                i <= RANK,
                seq_contains(self.lo(), self.hi(), point.elems(), i as nat),
            decreases RANK - i,
        {
            if p[i].is_lt(lo[i]) || hi[i].is_lt(p[i]) {
                return false;
            }
            assert(!point.elems()[i as int].spec_lt(self.lo()[i as int]) && !self.hi()[
                i as int].spec_lt(point.elems()[i as int]));
            assert(seq_contains(self.lo(), self.hi(), point.elems(), (i + 1) as nat)) by {
                assert forall|k: int| 0 <= k < i + 1 implies !#[trigger] point.elems()[k].spec_lt(self.lo()[k])
                    && !self.hi()[k].spec_lt(point.elems()[k]) by {
                    if k < i {
                        assert(!point.elems()[k].spec_lt(self.lo()[k]));
                    }
                }
            }
            i = i + 1;
        }
        true
    }

    /// Grows the box to contain `point`: each lower coordinate above the
    /// point's drops to it, each upper coordinate below it rises to it.
    pub fn extend(&mut self, point: &Matrix<T>)
        requires
            old(self).wf(),
            is_vector(*point, RANK as nat),
        ensures
            final(self).wf(),
            forall|i: int|
                0 <= i < RANK ==> #[trigger] final(self).lo()[i] == if point.elems()[i].spec_lt(
                    old(self).lo()[i],
                ) {
                    point.elems()[i]
                } else {
                    old(self).lo()[i]
                },
            forall|i: int|
                0 <= i < RANK ==> #[trigger] final(self).hi()[i] == if old(self).hi()[i].spec_lt(
                    point.elems()[i],
                ) {
                    point.elems()[i]
                } else {
                    old(self).hi()[i]
                },
    {
        let pd = point.data();
        let lo = self.min.data();
        let hi = self.max.data();
        let mut new_lo: Vec<T> = Vec::new();
        let mut new_hi: Vec<T> = Vec::new();
        let mut i: usize = 0;
        while i < RANK
            invariant
                self.wf(),
                is_vector(*point, RANK as nat),
                pd@ == point.elems(),
                lo@ == self.lo(),
                hi@ == self.hi(),
                *self == *old(self),
                i <= RANK,
                new_lo@.len() == i,
                new_hi@.len() == i,
                forall|k: int|
                    0 <= k < i ==> #[trigger] new_lo@[k] == if point.elems()[k].spec_lt(
                        old(self).lo()[k],
                    ) {
                        point.elems()[k]
                    } else {
                        old(self).lo()[k]
                    },
                forall|k: int|
                    0 <= k < i ==> #[trigger] new_hi@[k] == if old(self).hi()[k].spec_lt(
                        point.elems()[k],
                    ) {
                        point.elems()[k]
                    } else {
                        old(self).hi()[k]
                    },
            decreases RANK - i,
        {
            let p = pd[i];
            let min_i = lo[i];
            let max_i = hi[i];
            if p.is_lt(min_i) {
                new_lo.push(p);
            } else {
                new_lo.push(min_i);
            }
            if max_i.is_lt(p) {
                new_hi.push(p);
            } else {
                new_hi.push(max_i);
            }
            i = i + 1;
        }
        self.min = vector_from_vec(new_lo);
        self.max = vector_from_vec(new_hi);
    }

    /// The coordinate-wise intersection: the larger lower corner and the
    /// smaller upper corner (possibly an empty box).
    pub fn intersection(&self, other: &Self) -> (b: Self)
        requires
            self.wf(),
            other.wf(),
        ensures
            b.wf(),
            forall|i: int|
                0 <= i < RANK ==> #[trigger] b.lo()[i] == if other.lo()[i].spec_lt(self.lo()[i]) {
                    self.lo()[i]
                } else {
                    other.lo()[i]
                },
            forall|i: int|
                0 <= i < RANK ==> #[trigger] b.hi()[i] == if self.hi()[i].spec_lt(other.hi()[i]) {
                    self.hi()[i]
                } else {
                    other.hi()[i]
                },
    {
        let lo1 = self.min.data();
        let lo2 = other.min.data();
        let hi1 = self.max.data();
        let hi2 = other.max.data();
        let mut lo: Vec<T> = Vec::new();
        let mut hi: Vec<T> = Vec::new();
        let mut i: usize = 0;
        while i < RANK
            invariant
                self.wf(),
                other.wf(),
                lo1@ == self.lo(),
                lo2@ == other.lo(),
                hi1@ == self.hi(),
                hi2@ == other.hi(),
                i <= RANK,
                lo@.len() == i,
                hi@.len() == i,
                forall|k: int|
                    0 <= k < i ==> #[trigger] lo@[k] == if other.lo()[k].spec_lt(self.lo()[k]) {
                        self.lo()[k]
                    } else {
                        other.lo()[k]
                    },
                forall|k: int|
                    0 <= k < i ==> #[trigger] hi@[k] == if self.hi()[k].spec_lt(other.hi()[k]) {
                        self.hi()[k]
                    } else {
                        other.hi()[k]
                    },
            decreases RANK - i,
        {
            let v1 = lo1[i];
            let v2 = lo2[i];
            lo.push(
                if v2.is_lt(v1) {
                    v1
                } else {
                    v2
                },
            );
            let w1 = hi1[i];
            let w2 = hi2[i];
            hi.push(
                if w1.is_lt(w2) {
                    w1
                } else {
                    w2
                },
            );
            i = i + 1;
        }
        AlignedBox { min: vector_from_vec(lo), max: vector_from_vec(hi) }
    }

    /// Whether some lower coordinate lies above its upper coordinate.
    pub fn is_empty(&self) -> (r: bool)
        requires
            self.wf(),
        ensures
            r == exists|i: int| 0 <= i < RANK && #[trigger] self.hi()[i].spec_lt(self.lo()[i]),
    {
        let lo = self.min.data();
        let hi = self.max.data();
        let mut i: usize = 0;
        while i < RANK
            invariant
                self.wf(),
                lo@ == self.lo(),
                hi@ == self.hi(),
                i <= RANK,
                forall|k: int| 0 <= k < i ==> !#[trigger] self.hi()[k].spec_lt(self.lo()[k]),
            decreases RANK - i,
        {
            if hi[i].is_lt(lo[i]) {
                return true;
            }
            i = i + 1;
        }
        false
    }

    /// The squared distance from `point` to the box.
    pub fn squared_distance(&self, point: &Matrix<T>) -> (r: T)
        requires
            self.wf(),
            is_vector(*point, RANK as nat),
        ensures
            r == box_dist_upto(self.lo(), self.hi(), point.elems(), RANK as nat),
    {
        let lo = self.min.data();
        let hi = self.max.data();
        let pd = point.data();
        let mut dist_sq = T::zero();
        let mut i: usize = 0;
        while i < RANK
            invariant
                self.wf(),
                is_vector(*point, RANK as nat),
                lo@ == self.lo(),
                hi@ == self.hi(),
                pd@ == point.elems(),
                i <= RANK,
                dist_sq == box_dist_upto(self.lo(), self.hi(), point.elems(), i as nat),
            decreases RANK - i,
        {
            let p = pd[i];
            let min = lo[i];
            let max = hi[i];
            if p.is_lt(min) {
                let d = min.minus(p);
                dist_sq = dist_sq.plus(d.times(d));
            } else if max.is_lt(p) {
                let d = p.minus(max);
                dist_sq = dist_sq.plus(d.times(d));
            }
            i = i + 1;
        }
        dist_sq
    }

    /// The parameter range `(t_min, t_max)` over which `ray` runs inside the
    /// box (slab method), or `None` when it misses the box.
    pub fn intersection_parameter(&self, ray: &Ray<T, RANK>) -> (r: Option<(T, T)>)
        requires
            self.wf(),
            ray.wf(),
        ensures
            r == ray_box_range(self.lo(), self.hi(), ray.o(), ray.d(), RANK as nat),
    {
        let lo = self.min.data();
        let hi = self.max.data();
        let od = ray.origin().data();
        let dd = ray.direction().data();
        let mut t_min = T::min_value();
        let mut t_max = T::max_value();
        let mut i: usize = 0;
        while i < RANK
            invariant
                self.wf(),
                ray.wf(),
                lo@ == self.lo(),
                hi@ == self.hi(),
                od@ == ray.o(),
                dd@ == ray.d(),
                i <= RANK,
                slab_scan(self.lo(), self.hi(), ray.o(), ray.d(), i as nat) == Some((t_min, t_max)),
            decreases RANK - i,
        {
            let o = od[i];
            let d = dd[i];
            let min = lo[i];
            let max = hi[i];
            if d.abs().is_lt(T::epsilon()) {
                if o.is_lt(min) || max.is_lt(o) {
                    proof {
                        lemma_slab_none(self.lo(), self.hi(), ray.o(), ray.d(), (i + 1) as nat, RANK as nat);
                    }
                    return None;
                }
            } else {
                let inv_d = T::from_usize(1).over(d);
                let mut t1 = min.minus(o).times(inv_d);
                let mut t2 = max.minus(o).times(inv_d);
                if t2.is_lt(t1) {
                    let tmp = t1;
                    t1 = t2;
                    t2 = tmp;
                }
                if t_min.is_lt(t1) {
                    t_min = t1;
                }
                if t2.is_lt(t_max) {
                    t_max = t2;
                }
                if t_max.is_lt(t_min) {
                    proof {
                        lemma_slab_none(self.lo(), self.hi(), ray.o(), ray.d(), (i + 1) as nat, RANK as nat);
                    }
                    return None;
                }
            }
            i = i + 1;
        }
        if t_max.is_lt(T::zero()) {
            return None;
        }
        if t_min.is_lt(T::zero()) {
            t_min = T::zero();
        }
        Some((t_min, t_max))
    }

    /// Whether `ray` meets the box.
    pub fn intersects(&self, ray: &Ray<T, RANK>) -> (r: bool)
        requires
            self.wf(),
            ray.wf(),
        ensures
            r == ray_box_range(self.lo(), self.hi(), ray.o(), ray.d(), RANK as nat) is Some,
    {
        self.intersection_parameter(ray).is_some()
    }
}

/// After `extend(p)`, the box contains `p`, for any scalar type whose strict
/// order is irreflexive: `old`, `new` and `p` describe the box before and
/// after the call and the point.
pub proof fn lemma_extend_contains<T: Scalar>(
    old_lo: Seq<T>,
    old_hi: Seq<T>,
    new_lo: Seq<T>,
    new_hi: Seq<T>,
    p: Seq<T>,
    n: nat,
)
    requires
        crate::scalar::lt_irreflexive::<T>(),
        forall|i: int|
            0 <= i < n ==> #[trigger] new_lo[i] == if p[i].spec_lt(old_lo[i]) {
                p[i]
            } else {
                old_lo[i]
            },
        forall|i: int|
            0 <= i < n ==> #[trigger] new_hi[i] == if old_hi[i].spec_lt(p[i]) {
                p[i]
            } else {
                old_hi[i]
            },
    ensures
        seq_contains(new_lo, new_hi, p, n),
{
    assert forall|i: int| 0 <= i < n implies !#[trigger] p[i].spec_lt(new_lo[i]) && !new_hi[i].spec_lt(
        p[i],
    ) by {
        assert(new_lo[i] == new_lo[i]);
        assert(new_hi[i] == new_hi[i]);
        assert(!p[i].spec_lt(p[i]));
    }
}

} // verus!
