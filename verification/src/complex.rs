//! Complex numbers over a scalar type.

use crate::scalar::Scalar;
use std::ops::{Add, Div, Mul, Neg, Sub};
use vstd::prelude::*;

verus! {

/// A complex number `re + i * im`.
#[derive(Clone, Copy)]
pub struct Complex<T: Scalar> {
    pub re: T,
    pub im: T,
}

/// The complex number with the given parts.
pub open spec fn cx<T: Scalar>(re: T, im: T) -> Complex<T> {
    Complex { re, im }
}

impl<T: Scalar> Complex<T> {
    /// Builds `re + i * im`.
    pub fn new(re: T, im: T) -> (r: Self)
        ensures
            r == cx(re, im),
    {
        Complex { re, im }
    }

    /// The conjugate `re - i * im`.
    pub open spec fn conjugate(self) -> Self {
        cx(self.re, self.im.spec_negate())
    }

    /// The conjugate `re - i * im`.
    pub fn conj(self) -> (r: Self)
        ensures
            r == self.conjugate(),
    {
        Complex { re: self.re, im: self.im.negate() }
    }

    /// The squared modulus `re * re + im * im`.
    pub open spec fn modulus_sq(self) -> T {
        self.re.spec_times(self.re).spec_plus(self.im.spec_times(self.im))
    }

    /// The squared modulus `re * re + im * im`.
    pub fn norm_sq(self) -> (r: T)
        ensures
            r == self.modulus_sq(),
    {
        self.re.times(self.re).plus(self.im.times(self.im))
    }

    /// The modulus, the square root of the squared modulus.
    pub fn norm(self) -> (r: T)
        ensures
            r == self.modulus_sq().spec_sqrt(),
    {
        self.norm_sq().sqrt()
    }

    /// `self + rhs`, part by part.
    pub open spec fn sum(self, rhs: Self) -> Self {
        cx(self.re.spec_plus(rhs.re), self.im.spec_plus(rhs.im))
    }

    /// `self - rhs`, part by part.
    pub open spec fn difference(self, rhs: Self) -> Self {
        cx(self.re.spec_minus(rhs.re), self.im.spec_minus(rhs.im))
    }

    /// `(a + ib)(c + id) = (ac - bd) + i(ad + bc)`.
    pub open spec fn product(self, rhs: Self) -> Self {
        cx(
            self.re.spec_times(rhs.re).spec_minus(self.im.spec_times(rhs.im)),
            self.re.spec_times(rhs.im).spec_plus(self.im.spec_times(rhs.re)),
        )
    }

    /// `(a + ib) / (c + id) = ((ac + bd) + i(bc - ad)) / (c^2 + d^2)`.
    pub open spec fn quotient(self, rhs: Self) -> Self {
        let denom = rhs.modulus_sq();
        cx(
            self.re.spec_times(rhs.re).spec_plus(self.im.spec_times(rhs.im)).spec_over(denom),
            self.im.spec_times(rhs.re).spec_minus(self.re.spec_times(rhs.im)).spec_over(denom),
        )
    }

    /// `-self`, part by part.
    pub open spec fn opposite(self) -> Self {
        cx(self.re.spec_negate(), self.im.spec_negate())
    }

    fn add_parts(self, rhs: Self) -> (r: Self)
        ensures
            r == self.sum(rhs),
    {
        Complex { re: self.re.plus(rhs.re), im: self.im.plus(rhs.im) }
    }

    fn sub_parts(self, rhs: Self) -> (r: Self)
        ensures
            r == self.difference(rhs),
    {
        Complex { re: self.re.minus(rhs.re), im: self.im.minus(rhs.im) }
    }

    fn mul_parts(self, rhs: Self) -> (r: Self)
        ensures
            r == self.product(rhs),
    {
        Complex {
            re: self.re.times(rhs.re).minus(self.im.times(rhs.im)),
            im: self.re.times(rhs.im).plus(self.im.times(rhs.re)),
        }
    }

    fn div_parts(self, rhs: Self) -> (r: Self)
        ensures
            r == self.quotient(rhs),
    {
        let denom = rhs.norm_sq();
        Complex {
            re: self.re.times(rhs.re).plus(self.im.times(rhs.im)).over(denom),
            im: self.im.times(rhs.re).minus(self.re.times(rhs.im)).over(denom),
        }
    }

    fn neg_parts(self) -> (r: Self)
        ensures
            r == self.opposite(),
    {
        Complex { re: self.re.negate(), im: self.im.negate() }
    }

    /// Lexicographic strict order: by real part, then by imaginary part.
    pub open spec fn lex_lt(self, rhs: Self) -> bool {
        ||| self.re.spec_lt(rhs.re)
        ||| (self.re.spec_eq(rhs.re) && self.im.spec_lt(rhs.im))
    }

    /// Lexicographic order: by real part, then by imaginary part.
    pub open spec fn lex_le(self, rhs: Self) -> bool {
        ||| self.re.spec_lt(rhs.re)
        ||| (self.re.spec_eq(rhs.re) && self.im.spec_le(rhs.im))
    }

    /// Part-by-part equality.
    pub open spec fn parts_eq(self, rhs: Self) -> bool {
        self.re.spec_eq(rhs.re) && self.im.spec_eq(rhs.im)
    }

    /// The principal square root, with the sign of the imaginary part taken
    /// from `self.im`.
    pub open spec fn principal_sqrt(self) -> Self {
        let r = self.modulus_sq().spec_sqrt();
        let two = T::spec_from_usize(2);
        let re = r.spec_plus(self.re).spec_over(two).spec_sqrt();
        let im = r.spec_minus(self.re).spec_over(two).spec_sqrt();
        if self.im.spec_lt(T::spec_zero()) {
            cx(re, im.spec_negate())
        } else {
            cx(re, im)
        }
    }

    /// `e^(a + ib) = e^a cos b + i e^a sin b`.
    pub open spec fn exponential(self) -> Self {
        let exp_re = self.re.spec_exp();
        cx(exp_re.spec_times(self.im.spec_cos()), exp_re.spec_times(self.im.spec_sin()))
    }

    /// `ln(z) = ln |z| + i atan2(im, re)`.
    pub open spec fn logarithm(self) -> Self {
        cx(self.modulus_sq().spec_sqrt().spec_ln(), self.im.spec_atan2(self.re))
    }
}

impl<T: Scalar> Add for Complex<T> {
    type Output = Self;

    fn add(self, rhs: Self) -> (r: Self) {
        self.add_parts(rhs)
    }
}

impl<T: Scalar> vstd::std_specs::ops::AddSpecImpl for Complex<T> {
    open spec fn obeys_add_spec() -> bool {
        true
    }

    open spec fn add_req(self, rhs: Self) -> bool {
        true
    }

    open spec fn add_spec(self, rhs: Self) -> Self {
        self.sum(rhs)
    }
}

impl<T: Scalar> Sub for Complex<T> {
    type Output = Self;

    fn sub(self, rhs: Self) -> (r: Self) {
        self.sub_parts(rhs)
    }
}

impl<T: Scalar> vstd::std_specs::ops::SubSpecImpl for Complex<T> {
    open spec fn obeys_sub_spec() -> bool {
        true
    }

    open spec fn sub_req(self, rhs: Self) -> bool {
        true
    }

    open spec fn sub_spec(self, rhs: Self) -> Self {
        self.difference(rhs)
    }
}

impl<T: Scalar> Mul for Complex<T> {
    type Output = Self;

    fn mul(self, rhs: Self) -> (r: Self) {
        self.mul_parts(rhs)
    }
}

impl<T: Scalar> vstd::std_specs::ops::MulSpecImpl for Complex<T> {
    open spec fn obeys_mul_spec() -> bool {
        true
    }

    open spec fn mul_req(self, rhs: Self) -> bool {
        true
    }

    open spec fn mul_spec(self, rhs: Self) -> Self {
        self.product(rhs)
    }
}

impl<T: Scalar> Div for Complex<T> {
    type Output = Self;

    fn div(self, rhs: Self) -> (r: Self) {
        self.div_parts(rhs)
    }
}

impl<T: Scalar> vstd::std_specs::ops::DivSpecImpl for Complex<T> {
    open spec fn obeys_div_spec() -> bool {
        true
    }

    open spec fn div_req(self, rhs: Self) -> bool {
        true
    }

    open spec fn div_spec(self, rhs: Self) -> Self {
        self.quotient(rhs)
    }
}

impl<T: Scalar> Neg for Complex<T> {
    type Output = Self;

    fn neg(self) -> (r: Self) {
        self.neg_parts()
    }
}

impl<T: Scalar> vstd::std_specs::ops::NegSpecImpl for Complex<T> {
    open spec fn obeys_neg_spec() -> bool {
        true
    }

    open spec fn neg_req(self) -> bool {
        true
    }

    open spec fn neg_spec(self) -> Self {
        self.opposite()
    }
}

impl<T: Scalar> PartialEq for Complex<T> {
    fn eq(&self, other: &Self) -> (r: bool) {
        self.re.is_eq(other.re) && self.im.is_eq(other.im)
    }
}

impl<T: Scalar> vstd::std_specs::cmp::PartialEqSpecImpl for Complex<T> {
    open spec fn obeys_eq_spec() -> bool {
        true
    }

    open spec fn eq_spec(&self, other: &Self) -> bool {
        self.parts_eq(*other)
    }
}

impl<T: Scalar> Scalar for Complex<T> {
    open spec fn spec_zero() -> Self {
        cx(T::spec_zero(), T::spec_zero())
    }

    open spec fn spec_from_usize(v: usize) -> Self {
        cx(T::spec_from_usize(v), T::spec_zero())
    }

    open spec fn spec_plus(self, rhs: Self) -> Self {
        self.sum(rhs)
    }

    open spec fn spec_minus(self, rhs: Self) -> Self {
        self.difference(rhs)
    }

    open spec fn spec_times(self, rhs: Self) -> Self {
        self.product(rhs)
    }

    open spec fn spec_over(self, rhs: Self) -> Self {
        self.quotient(rhs)
    }

    open spec fn spec_negate(self) -> Self {
        self.opposite()
    }

    open spec fn spec_lt(self, rhs: Self) -> bool {
        self.lex_lt(rhs)
    }

    open spec fn spec_le(self, rhs: Self) -> bool {
        self.lex_le(rhs)
    }

    open spec fn spec_eq(self, rhs: Self) -> bool {
        self.parts_eq(rhs)
    }

    open spec fn spec_abs(self) -> Self {
        cx(self.modulus_sq().spec_sqrt(), T::spec_zero())
    }

    open spec fn spec_sqrt(self) -> Self {
        self.principal_sqrt()
    }

    open spec fn spec_real(self) -> Self {
        cx(self.re, T::spec_zero())
    }

    open spec fn spec_real_sqrt(self) -> Self {
        cx(self.re.spec_sqrt(), T::spec_zero())
    }

    open spec fn spec_has_trig() -> bool {
        false
    }

    open spec fn spec_has_exp_ln() -> bool {
        T::spec_has_exp_ln() && T::spec_has_trig()
    }

    open spec fn spec_recip(self) -> Self {
        Self::spec_from_usize(1).quotient(self)
    }

    open spec fn spec_norm_sq(self) -> Self {
        cx(self.modulus_sq(), T::spec_zero())
    }

    open spec fn spec_sin(self) -> Self {
        self
    }

    open spec fn spec_cos(self) -> Self {
        self
    }

    open spec fn spec_asin(self) -> Self {
        self
    }

    open spec fn spec_acos(self) -> Self {
        self
    }

    open spec fn spec_atan2(self, other: Self) -> Self {
        self
    }

    open spec fn spec_powf(self, n: Self) -> Self {
        self
    }

    open spec fn spec_exp(self) -> Self {
        self.exponential()
    }

    open spec fn spec_ln(self) -> Self {
        self.logarithm()
    }

    open spec fn spec_epsilon() -> Self {
        cx(T::spec_epsilon(), T::spec_zero())
    }

    open spec fn spec_default_tolerance() -> Self {
        cx(T::spec_default_tolerance(), T::spec_zero())
    }

    open spec fn spec_breakdown_threshold() -> Self {
        cx(T::spec_breakdown_threshold(), T::spec_zero())
    }

    open spec fn spec_singular_threshold() -> Self {
        cx(T::spec_singular_threshold(), T::spec_zero())
    }

    open spec fn spec_svd_tolerance() -> Self {
        cx(T::spec_svd_tolerance(), T::spec_zero())
    }

    open spec fn spec_huge() -> Self {
        cx(T::spec_huge(), T::spec_zero())
    }

    open spec fn spec_max_value() -> Self {
        cx(T::spec_max_value(), T::spec_zero())
    }

    open spec fn spec_min_value() -> Self {
        cx(T::spec_min_value(), T::spec_zero())
    }

    open spec fn spec_conj(self) -> Self {
        self.conjugate()
    }

    fn zero() -> (r: Self) {
        Complex { re: T::zero(), im: T::zero() }
    }

    fn from_usize(v: usize) -> (r: Self) {
        Complex { re: T::from_usize(v), im: T::zero() }
    }

    fn plus(self, rhs: Self) -> (r: Self) {
        self.add_parts(rhs)
    }

    fn minus(self, rhs: Self) -> (r: Self) {
        self.sub_parts(rhs)
    }

    fn times(self, rhs: Self) -> (r: Self) {
        self.mul_parts(rhs)
    }

    fn over(self, rhs: Self) -> (r: Self) {
        self.div_parts(rhs)
    }

    fn negate(self) -> (r: Self) {
        self.neg_parts()
    }

    fn is_lt(self, rhs: Self) -> (r: bool) {
        self.re.is_lt(rhs.re) || (self.re.is_eq(rhs.re) && self.im.is_lt(rhs.im))
    }

    fn is_le(self, rhs: Self) -> (r: bool) {
        self.re.is_lt(rhs.re) || (self.re.is_eq(rhs.re) && self.im.is_le(rhs.im))
    }

    fn is_eq(self, rhs: Self) -> (r: bool) {
        self.re.is_eq(rhs.re) && self.im.is_eq(rhs.im)
    }

    fn abs(self) -> (r: Self) {
        Complex { re: self.norm(), im: T::zero() }
    }

    fn sqrt(self) -> (r: Self) {
        let r = self.norm();
        let two = T::from_usize(2);
        let re = r.plus(self.re).over(two).sqrt();
        let im = r.minus(self.re).over(two).sqrt();
        if self.im.is_lt(T::zero()) {
            Complex { re, im: im.negate() }
        } else {
            Complex { re, im }
        }
    }

    fn recip(self) -> (r: Self) {
        Self::from_usize(1).div_parts(self)
    }

    fn norm_sq(self) -> (r: Self) {
        Complex { re: self.re.times(self.re).plus(self.im.times(self.im)), im: T::zero() }
    }

    // The trigonometric functions of a complex number are not provided:
    // `spec_has_trig` is false, so no caller can reach these bodies.
    fn sin(self) -> (r: Self) {
        self
    }

    fn cos(self) -> (r: Self) {
        self
    }

    fn asin(self) -> (r: Self) {
        self
    }

    fn acos(self) -> (r: Self) {
        self
    }

    fn atan2(self, other: Self) -> (r: Self) {
        self
    }

    fn powf(self, n: Self) -> (r: Self) {
        self
    }

    fn exp(self) -> (r: Self) {
        let exp_re = self.re.exp();
        Complex { re: exp_re.times(self.im.cos()), im: exp_re.times(self.im.sin()) }
    }

    fn ln(self) -> (r: Self) {
        Complex { re: self.norm().ln(), im: self.im.atan2(self.re) }
    }

    fn epsilon() -> (r: Self) {
        Complex { re: T::epsilon(), im: T::zero() }
    }

    fn default_tolerance() -> (r: Self) {
        Complex { re: T::default_tolerance(), im: T::zero() }
    }

    fn breakdown_threshold() -> (r: Self) {
        Complex { re: T::breakdown_threshold(), im: T::zero() }
    }

    fn singular_threshold() -> (r: Self) {
        Complex { re: T::singular_threshold(), im: T::zero() }
    }

    fn svd_tolerance() -> (r: Self) {
        Complex { re: T::svd_tolerance(), im: T::zero() }
    }

    fn huge() -> (r: Self) {
        Complex { re: T::huge(), im: T::zero() }
    }

    fn max_value() -> (r: Self) {
        Complex { re: T::max_value(), im: T::zero() }
    }

    fn min_value() -> (r: Self) {
        Complex { re: T::min_value(), im: T::zero() }
    }

    fn conj(self) -> (r: Self) {
        Complex { re: self.re, im: self.im.negate() }
    }

    fn real_part(self) -> (r: Self) {
        Complex { re: self.re, im: T::zero() }
    }

    fn real_sqrt(self) -> (r: Self) {
        Complex { re: self.re.sqrt(), im: T::zero() }
    }
}

/// Sign rules that hold exactly of floating-point arithmetic: a negated
/// factor negates the product, subtracting a negated value adds it,
/// multiplication commutes, and negating twice gives the value back.
pub open spec fn sign_rules<T: Scalar>() -> bool {
    &&& forall|x: T, y: T| #[trigger] x.spec_times(y.spec_negate()) == x.spec_times(y).spec_negate()
    &&& forall|x: T, y: T| #[trigger] x.spec_minus(y.spec_negate()) == x.spec_plus(y)
    &&& forall|x: T, y: T| #[trigger] x.spec_times(y) == y.spec_times(x)
    &&& forall|x: T| #[trigger] x.spec_negate().spec_negate() == x
}

/// Order rules that hold of floating-point arithmetic: no square is below
/// zero, and no sum of two values not below zero is below zero.
pub open spec fn square_sum_rules<T: Scalar>() -> bool {
    &&& forall|x: T| !#[trigger] x.spec_times(x).spec_lt(T::spec_zero())
    &&& forall|x: T, y: T|
        !x.spec_lt(T::spec_zero()) && !y.spec_lt(T::spec_zero()) ==> !#[trigger] x.spec_plus(y).spec_lt(
            T::spec_zero(),
        )
}

/// A value times its conjugate is its squared modulus, with a zero
/// imaginary part, wherever the sign rules hold and `-(re * im) + re * im`
/// is zero (for floating-point numbers: whenever `re * im` is finite).
pub proof fn lemma_times_conj<T: Scalar>(z: Complex<T>)
    requires
        sign_rules::<T>(),
        z.re.spec_times(z.im).spec_negate().spec_plus(z.re.spec_times(z.im)) == T::spec_zero(),
    ensures
        z.product(z.conjugate()) == cx(z.modulus_sq(), T::spec_zero()),
{
    let (a, b) = (z.re, z.im);
    assert(a.spec_times(b.spec_negate()) == a.spec_times(b).spec_negate());
    assert(b.spec_times(b.spec_negate()) == b.spec_times(b).spec_negate());
    assert(a.spec_times(a).spec_minus(b.spec_times(b).spec_negate()) == a.spec_times(a).spec_plus(
        b.spec_times(b),
    ));
    assert(b.spec_times(a) == a.spec_times(b));
}

/// The squared modulus is unchanged by conjugation and by negation wherever
/// the sign rules hold.
pub proof fn lemma_modulus_sq_symmetric<T: Scalar>(z: Complex<T>)
    requires
        sign_rules::<T>(),
    ensures
        z.conjugate().modulus_sq() == z.modulus_sq(),
        z.opposite().modulus_sq() == z.modulus_sq(),
{
    assert forall|x: T| #[trigger] x.spec_negate().spec_times(x.spec_negate()) == x.spec_times(x) by {
        let nx = x.spec_negate();
        assert(nx.spec_times(x.spec_negate()) == nx.spec_times(x).spec_negate());
        assert(nx.spec_times(x) == x.spec_times(nx));
        assert(x.spec_times(nx) == x.spec_times(x).spec_negate());
        assert(x.spec_times(x).spec_negate().spec_negate() == x.spec_times(x));
    }
    assert(z.im.spec_negate().spec_times(z.im.spec_negate()) == z.im.spec_times(z.im));
    assert(z.re.spec_negate().spec_times(z.re.spec_negate()) == z.re.spec_times(z.re));
}

/// The squared modulus is not below zero wherever squares and sums of
/// values not below zero are not.
pub proof fn lemma_modulus_sq_not_negative<T: Scalar>(z: Complex<T>)
    requires
        square_sum_rules::<T>(),
    ensures
        !z.modulus_sq().spec_lt(T::spec_zero()),
{
    assert(!z.re.spec_times(z.re).spec_lt(T::spec_zero()));
    assert(!z.im.spec_times(z.im).spec_lt(T::spec_zero()));
}

/// Conjugation is an involution whenever negation of the parts is.
pub proof fn lemma_conj_involutive<T: Scalar>(z: Complex<T>)
    requires
        z.im.spec_negate().spec_negate() == z.im,
    ensures
        z.conjugate().conjugate() == z,
{
}

} // verus!
