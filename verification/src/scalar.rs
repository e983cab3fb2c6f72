//! The element type of every matrix, vector and geometric object.
//!
//! A `Scalar` is an abstract number. Each operation has an executable method
//! and a spec function of the same meaning; the executable method returns
//! exactly what the spec function says. All contracts of this library are
//! stated over these spec functions, so they pin down which operations are
//! applied to which operands, in which order, whatever arithmetic the
//! implementing type has (exact, rounded, modular, ...).

use vstd::prelude::*;

verus! {

/// A number type usable as matrix element.
pub trait Scalar: Sized + Copy {
    /// The additive identity (the `Default` value of the type).
    spec fn spec_zero() -> Self;

    /// The image of a natural number in the type.
    spec fn spec_from_usize(v: usize) -> Self;

    spec fn spec_plus(self, rhs: Self) -> Self;

    spec fn spec_minus(self, rhs: Self) -> Self;

    spec fn spec_times(self, rhs: Self) -> Self;

    spec fn spec_over(self, rhs: Self) -> Self;

    spec fn spec_negate(self) -> Self;

    /// Strict order `self < rhs` (may be partial).
    spec fn spec_lt(self, rhs: Self) -> bool;

    /// Non-strict order `self <= rhs` (may be partial).
    spec fn spec_le(self, rhs: Self) -> bool;

    /// Value equality `self == rhs` (need not be reflexive).
    spec fn spec_eq(self, rhs: Self) -> bool;

    spec fn spec_abs(self) -> Self;

    spec fn spec_sqrt(self) -> Self;

    /// The square root of the real part taken among the real numbers, as a
    /// value of the type (the square root itself for a real type).
    spec fn spec_real_sqrt(self) -> Self;

    /// Whether `sin`, `cos`, `asin`, `acos`, `atan2` and `powf` are
    /// available for the type.
    spec fn spec_has_trig() -> bool;

    /// Whether `exp` and `ln` are available for the type.
    spec fn spec_has_exp_ln() -> bool;

    spec fn spec_recip(self) -> Self;

    /// The squared modulus, as a value of the type itself.
    spec fn spec_norm_sq(self) -> Self;

    spec fn spec_sin(self) -> Self;

    spec fn spec_cos(self) -> Self;

    spec fn spec_asin(self) -> Self;

    spec fn spec_acos(self) -> Self;

    spec fn spec_atan2(self, other: Self) -> Self;

    spec fn spec_powf(self, n: Self) -> Self;

    spec fn spec_exp(self) -> Self;

    spec fn spec_ln(self) -> Self;

    /// The machine epsilon of the type.
    spec fn spec_epsilon() -> Self;

    /// The image of the constant `1e-12` (default solver tolerance).
    spec fn spec_default_tolerance() -> Self;

    /// The image of the constant `1e-30` (breakdown threshold of solvers).
    spec fn spec_breakdown_threshold() -> Self;

    /// The magnitude below which a triangular solve treats a diagonal entry
    /// as zero (the image of `1e-18`).
    spec fn spec_singular_threshold() -> Self;

    /// The convergence tolerance of the Jacobi SVD: the image of `1e-7` for
    /// single precision, of `1e-15` otherwise.
    spec fn spec_svd_tolerance() -> Self;

    /// The image of the constant `1e100` (given to a generalized eigenvalue
    /// whose denominator is negligible).
    spec fn spec_huge() -> Self;

    /// The image of the largest finite `f64`.
    spec fn spec_max_value() -> Self;

    /// The image of the most negative finite `f64`.
    spec fn spec_min_value() -> Self;

    /// The real part, as a value of the type itself (the value itself for
    /// a real type).
    spec fn spec_real(self) -> Self;

    spec fn spec_conj(self) -> Self;

    fn zero() -> (r: Self)
        ensures
            r == Self::spec_zero(),
    ;

    fn from_usize(v: usize) -> (r: Self)
        ensures
            r == Self::spec_from_usize(v),
    ;

    fn plus(self, rhs: Self) -> (r: Self)
        ensures
            r == self.spec_plus(rhs),
    ;

    fn minus(self, rhs: Self) -> (r: Self)
        ensures
            r == self.spec_minus(rhs),
    ;

    fn times(self, rhs: Self) -> (r: Self)
        ensures
            r == self.spec_times(rhs),
    ;

    fn over(self, rhs: Self) -> (r: Self)
        ensures
            r == self.spec_over(rhs),
    ;

    fn negate(self) -> (r: Self)
        ensures
            r == self.spec_negate(),
    ;

    fn is_lt(self, rhs: Self) -> (r: bool)
        ensures
            r == self.spec_lt(rhs),
    ;

    fn is_le(self, rhs: Self) -> (r: bool)
        ensures
            r == self.spec_le(rhs),
    ;

    fn is_eq(self, rhs: Self) -> (r: bool)
        ensures
            r == self.spec_eq(rhs),
    ;

    fn abs(self) -> (r: Self)
        ensures
            r == self.spec_abs(),
    ;

    fn sqrt(self) -> (r: Self)
        ensures
            r == self.spec_sqrt(),
    ;

    fn real_sqrt(self) -> (r: Self)
        ensures
            r == self.spec_real_sqrt(),
    ;

    fn sin(self) -> (r: Self)
        requires
            Self::spec_has_trig(),
        ensures
            r == self.spec_sin(),
    ;

    fn cos(self) -> (r: Self)
        requires
            Self::spec_has_trig(),
        ensures
            r == self.spec_cos(),
    ;

    fn asin(self) -> (r: Self)
        requires
            Self::spec_has_trig(),
        ensures
            r == self.spec_asin(),
    ;

    fn acos(self) -> (r: Self)
        requires
            Self::spec_has_trig(),
        ensures
            r == self.spec_acos(),
    ;

    fn atan2(self, other: Self) -> (r: Self)
        requires
            Self::spec_has_trig(),
        ensures
            r == self.spec_atan2(other),
    ;

    fn powf(self, n: Self) -> (r: Self)
        requires
            Self::spec_has_trig(),
        ensures
            r == self.spec_powf(n),
    ;

    fn recip(self) -> (r: Self)
        ensures
            r == self.spec_recip(),
    ;

    fn norm_sq(self) -> (r: Self)
        ensures
            r == self.spec_norm_sq(),
    ;

    fn exp(self) -> (r: Self)
        requires
            Self::spec_has_exp_ln(),
        ensures
            r == self.spec_exp(),
    ;

    fn ln(self) -> (r: Self)
        requires
            Self::spec_has_exp_ln(),
        ensures
            r == self.spec_ln(),
    ;

    fn epsilon() -> (r: Self)
        ensures
            r == Self::spec_epsilon(),
    ;

    fn default_tolerance() -> (r: Self)
        ensures
            r == Self::spec_default_tolerance(),
    ;

    fn breakdown_threshold() -> (r: Self)
        ensures
            r == Self::spec_breakdown_threshold(),
    ;

    fn singular_threshold() -> (r: Self)
        ensures
            r == Self::spec_singular_threshold(),
    ;

    fn svd_tolerance() -> (r: Self)
        ensures
            r == Self::spec_svd_tolerance(),
    ;

    fn huge() -> (r: Self)
        ensures
            r == Self::spec_huge(),
    ;

    fn max_value() -> (r: Self)
        ensures
            r == Self::spec_max_value(),
    ;

    fn min_value() -> (r: Self)
        ensures
            r == Self::spec_min_value(),
    ;

    fn real_part(self) -> (r: Self)
        ensures
            r == self.spec_real(),
    ;

    fn conj(self) -> (r: Self)
        ensures
            r == self.spec_conj(),
    ;
}

/// The multiplicative identity, the image of `1`.
pub open spec fn spec_one<T: Scalar>() -> T {
    T::spec_from_usize(1)
}

/// The strict order of a type is irreflexive.
pub open spec fn lt_irreflexive<T: Scalar>() -> bool {
    forall|x: T| !#[trigger] x.spec_lt(x)
}

/// The strict order of a type is a strict partial order: irreflexive and
/// transitive. (Floating-point `<` is one, NaN included: NaN is below
/// nothing and nothing is below it.)
pub open spec fn lt_strict_partial<T: Scalar>() -> bool {
    &&& lt_irreflexive::<T>()
    &&& forall|x: T, y: T, z: T| #[trigger] x.spec_lt(y) && #[trigger] y.spec_lt(z) ==> x.spec_lt(z)
}

/// Rules of exact arithmetic (they hold of the rational numbers, not of
/// floating-point numbers): zero is neutral for `+`, `+` is commutative and
/// associative, subtracting then adding a value gives the start back, and
/// a value divided by a `d` that is not equal to zero and multiplied by `d`
/// gives the value back.
pub open spec fn exact_rules<T: Scalar>() -> bool {
    &&& forall|x: T| #[trigger] x.spec_plus(T::spec_zero()) == x
    &&& forall|x: T, y: T| #[trigger] x.spec_plus(y) == y.spec_plus(x)
    &&& forall|x: T, y: T, z: T| #[trigger] x.spec_plus(y).spec_plus(z) == x.spec_plus(y.spec_plus(z))
    &&& forall|x: T, y: T| #[trigger] x.spec_minus(y).spec_plus(y) == x
    &&& forall|a: T, d: T| !d.spec_eq(T::spec_zero()) ==> #[trigger] d.spec_times(a.spec_over(d)) == a
}

/// Zero is neutral for `+`.
#[verifier::opaque]
pub open spec fn rule_plus_zero<T: Scalar>() -> bool {
    forall|x: T| #[trigger] x.spec_plus(T::spec_zero()) == x
}

/// `*` is commutative.
#[verifier::opaque]
pub open spec fn rule_mul_comm<T: Scalar>() -> bool {
    forall|x: T, y: T| #[trigger] x.spec_times(y) == y.spec_times(x)
}

/// `*` is associative.
#[verifier::opaque]
pub open spec fn rule_mul_assoc<T: Scalar>() -> bool {
    forall|x: T, y: T, z: T| #[trigger] x.spec_times(y).spec_times(z) == x.spec_times(y.spec_times(z))
}

/// `*` distributes over `+`.
#[verifier::opaque]
pub open spec fn rule_distrib<T: Scalar>() -> bool {
    forall|x: T, y: T, k: T| #[trigger] x.spec_times(k).spec_plus(y.spec_times(k)) == x.spec_plus(y).spec_times(k)
}

/// Zero absorbs and one is neutral for `*`.
#[verifier::opaque]
pub open spec fn rule_mul_units<T: Scalar>() -> bool {
    &&& forall|x: T| #[trigger] x.spec_times(T::spec_zero()) == T::spec_zero()
    &&& forall|x: T| #[trigger] x.spec_times(T::spec_from_usize(1)) == x
}

/// Division is multiplication by the reciprocal, and a value not equal to
/// zero times its reciprocal is one.
#[verifier::opaque]
pub open spec fn rule_recip<T: Scalar>() -> bool {
    &&& forall|x: T, d: T| #[trigger] x.spec_over(d) == x.spec_times(T::spec_from_usize(1).spec_over(d))
    &&& forall|d: T| !d.spec_eq(T::spec_zero()) ==> #[trigger] d.spec_times(T::spec_from_usize(1).spec_over(d))
        == T::spec_from_usize(1)
}

/// A value minus itself is zero, and the square root of a value not below
/// zero, squared, is the value.
#[verifier::opaque]
pub open spec fn rule_sub_sqrt<T: Scalar>() -> bool {
    &&& forall|x: T| #[trigger] x.spec_minus(x) == T::spec_zero()
    &&& forall|x: T| !x.spec_lt(T::spec_zero()) ==> #[trigger] x.spec_sqrt().spec_times(x.spec_sqrt()) == x
}

/// Further rules of exact arithmetic on the real numbers: the image of `0`
/// is zero, zero is neutral for `+`, `*` is commutative and associative and
/// distributes over `+`, zero absorbs and one is neutral, division is
/// multiplication by the reciprocal, a value not equal to zero times its
/// reciprocal is one, a value minus itself is zero, and the square root of
/// a value not below zero, squared, is the value. (The rules are opaque:
/// `lemma_field` hands out single instances.)
pub open spec fn field_rules<T: Scalar>() -> bool {
    &&& T::spec_from_usize(0) == T::spec_zero()
    &&& rule_plus_zero::<T>()
    &&& rule_mul_comm::<T>()
    &&& rule_mul_assoc::<T>()
    &&& rule_distrib::<T>()
    &&& rule_mul_units::<T>()
    &&& rule_recip::<T>()
    &&& rule_sub_sqrt::<T>()
}

/// The instances of `field_rules` at `x`, `y` and `z`.
pub proof fn lemma_field<T: Scalar>(x: T, y: T, z: T)
    requires
        field_rules::<T>(),
    ensures
        T::spec_from_usize(0) == T::spec_zero(),
        x.spec_plus(T::spec_zero()) == x,
        x.spec_times(y) == y.spec_times(x),
        x.spec_times(y).spec_times(z) == x.spec_times(y.spec_times(z)),
        x.spec_times(z).spec_plus(y.spec_times(z)) == x.spec_plus(y).spec_times(z),
        x.spec_times(T::spec_zero()) == T::spec_zero(),
        x.spec_times(T::spec_from_usize(1)) == x,
        x.spec_over(y) == x.spec_times(T::spec_from_usize(1).spec_over(y)),
        !x.spec_eq(T::spec_zero()) ==> x.spec_times(T::spec_from_usize(1).spec_over(x)) == T::spec_from_usize(1),
        x.spec_minus(x) == T::spec_zero(),
        !x.spec_lt(T::spec_zero()) ==> x.spec_sqrt().spec_times(x.spec_sqrt()) == x,
{
    assert(x.spec_plus(T::spec_zero()) == x) by {
        reveal(rule_plus_zero);
    }
    assert(x.spec_times(y) == y.spec_times(x)) by {
        reveal(rule_mul_comm);
    }
    assert(x.spec_times(y).spec_times(z) == x.spec_times(y.spec_times(z))) by {
        reveal(rule_mul_assoc);
    }
    assert(x.spec_times(z).spec_plus(y.spec_times(z)) == x.spec_plus(y).spec_times(z)) by {
        reveal(rule_distrib);
    }
    assert(x.spec_times(T::spec_zero()) == T::spec_zero() && x.spec_times(T::spec_from_usize(1)) == x) by {
        reveal(rule_mul_units);
    }
    assert(x.spec_over(y) == x.spec_times(T::spec_from_usize(1).spec_over(y)) && (!x.spec_eq(T::spec_zero())
        ==> x.spec_times(T::spec_from_usize(1).spec_over(x)) == T::spec_from_usize(1))) by {
        reveal(rule_recip);
    }
    assert(x.spec_minus(x) == T::spec_zero() && (!x.spec_lt(T::spec_zero()) ==> x.spec_sqrt().spec_times(
        x.spec_sqrt(),
    ) == x)) by {
        reveal(rule_sub_sqrt);
    }
}

} // verus!
