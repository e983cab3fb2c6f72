//! Packets: fixed-width groups of scalars processed together.

use crate::scalar::Scalar;
use std::ops::{Add, Mul, Sub};
use vstd::prelude::*;

verus! {

/// A group of `SIZE` scalars (its lanes) processed together.
pub trait Packet<T: Scalar>: Sized + Copy {
    /// Number of scalars in this packet.
    spec fn spec_size() -> nat;

    /// The lanes of the packet.
    spec fn lanes(self) -> Seq<T>;

    /// The horizontal sum of the lanes (the order of accumulation belongs to
    /// the packet type).
    spec fn spec_sum(self) -> T;

    /// Whether `psin`, `pcos` are available.
    spec fn spec_has_trig() -> bool;

    /// Whether `pexp`, `plog` are available.
    spec fn spec_has_exp_ln() -> bool;

    /// Number of scalars in this packet.
    fn size() -> (r: usize)
        ensures
            r == Self::spec_size(),
    ;

    /// Loads `SIZE` consecutive scalars starting at `offset`.
    fn load(data: &[T], offset: usize) -> (p: Self)
        requires
            offset + Self::spec_size() <= data@.len(),
        ensures
            p.lanes() == data@.subrange(offset as int, offset + Self::spec_size()),
    ;

    /// Stores the lanes into `SIZE` consecutive places starting at `offset`.
    fn store(self, data: &mut Vec<T>, offset: usize)
        requires
            offset + Self::spec_size() <= old(data)@.len(),
        ensures
            final(data)@.len() == old(data)@.len(),
            final(data)@.subrange(offset as int, offset + Self::spec_size()) == self.lanes(),
            forall|k: int|
                0 <= k < old(data)@.len() && !(offset <= k < offset + Self::spec_size())
                    ==> #[trigger] final(data)@[k] == old(data)@[k],
    ;

    /// Stores the lanes bypassing the cache hierarchy where the hardware
    /// supports it; same effect as `store`.
    fn store_stream(self, data: &mut Vec<T>, offset: usize)
        requires
            offset + Self::spec_size() <= old(data)@.len(),
        ensures
            final(data)@.len() == old(data)@.len(),
            final(data)@.subrange(offset as int, offset + Self::spec_size()) == self.lanes(),
            forall|k: int|
                0 <= k < old(data)@.len() && !(offset <= k < offset + Self::spec_size())
                    ==> #[trigger] final(data)@[k] == old(data)@[k],
    {
        self.store(data, offset)
    }

    /// A hint to bring the data at `offset` into cache; no effect on values.
    fn prefetch(_data: &[T], _offset: usize) {
    }

    /// A packet with every lane equal to `val`.
    fn set1(val: T) -> (p: Self)
        ensures
            p.lanes().len() == Self::spec_size(),
            forall|k: int| 0 <= k < Self::spec_size() ==> #[trigger] p.lanes()[k] == val,
    ;

    /// Lane-wise `self = self + a * b`.
    fn fused_add_mul(&mut self, a: Self, b: Self)
        ensures
            final(self).lanes().len() == Self::spec_size(),
            forall|k: int|
                0 <= k < Self::spec_size() ==> #[trigger] final(self).lanes()[k] == old(self).lanes()[k].spec_plus(
                    a.lanes()[k].spec_times(b.lanes()[k]),
                ),
    ;

    /// Lane-wise sine.
    fn psin(self) -> (p: Self)
        requires
            Self::spec_has_trig(),
        ensures
            p.lanes() == self.lanes().map_values(|x: T| x.spec_sin()),
    ;

    /// Lane-wise cosine.
    fn pcos(self) -> (p: Self)
        requires
            Self::spec_has_trig(),
        ensures
            p.lanes() == self.lanes().map_values(|x: T| x.spec_cos()),
    ;

    /// Lane-wise exponential.
    fn pexp(self) -> (p: Self)
        requires
            Self::spec_has_exp_ln(),
        ensures
            p.lanes() == self.lanes().map_values(|x: T| x.spec_exp()),
    ;

    /// Lane-wise natural logarithm.
    fn plog(self) -> (p: Self)
        requires
            Self::spec_has_exp_ln(),
        ensures
            p.lanes() == self.lanes().map_values(|x: T| x.spec_ln()),
    ;

    /// Lane-wise square root.
    fn psqrt(self) -> (p: Self)
        ensures
            p.lanes() == self.lanes().map_values(|x: T| x.spec_sqrt()),
    ;

    /// Lane-wise reciprocal square root `1 / sqrt(x)`.
    fn prsqrt(self) -> (p: Self)
        ensures
            p.lanes() == self.lanes().map_values(
                |x: T| T::spec_from_usize(1).spec_over(x.spec_sqrt()),
            ),
    ;

    /// Lane-wise absolute value.
    fn pabs(self) -> (p: Self)
        ensures
            p.lanes() == self.lanes().map_values(|x: T| x.spec_abs()),
    ;

    /// The sum of all lanes.
    fn sum(self) -> (r: T)
        ensures
            r == self.spec_sum(),
    ;
}

/// The fallback packet: one scalar.
#[derive(Clone, Copy)]
pub struct ScalarPacket<T: Scalar>(pub T);

impl<T: Scalar> Add for ScalarPacket<T> {
    type Output = Self;

    fn add(self, rhs: Self) -> (r: Self) {
        ScalarPacket(self.0.plus(rhs.0))
    }
}

impl<T: Scalar> vstd::std_specs::ops::AddSpecImpl for ScalarPacket<T> {
    open spec fn obeys_add_spec() -> bool {
        true
    }

    open spec fn add_req(self, rhs: Self) -> bool {
        true
    }

    open spec fn add_spec(self, rhs: Self) -> Self {
        ScalarPacket(self.0.spec_plus(rhs.0))
    }
}

impl<T: Scalar> Sub for ScalarPacket<T> {
    type Output = Self;

    fn sub(self, rhs: Self) -> (r: Self) {
        ScalarPacket(self.0.minus(rhs.0))
    }
}

impl<T: Scalar> vstd::std_specs::ops::SubSpecImpl for ScalarPacket<T> {
    open spec fn obeys_sub_spec() -> bool {
        true
    }

    open spec fn sub_req(self, rhs: Self) -> bool {
        true
    }

    open spec fn sub_spec(self, rhs: Self) -> Self {
        ScalarPacket(self.0.spec_minus(rhs.0))
    }
}

impl<T: Scalar> Mul for ScalarPacket<T> {
    type Output = Self;

    fn mul(self, rhs: Self) -> (r: Self) {
        ScalarPacket(self.0.times(rhs.0))
    }
}

impl<T: Scalar> vstd::std_specs::ops::MulSpecImpl for ScalarPacket<T> {
    open spec fn obeys_mul_spec() -> bool {
        true
    }

    open spec fn mul_req(self, rhs: Self) -> bool {
        true
    }

    open spec fn mul_spec(self, rhs: Self) -> Self {
        ScalarPacket(self.0.spec_times(rhs.0))
    }
}

impl<T: Scalar> Packet<T> for ScalarPacket<T> {
    open spec fn spec_size() -> nat {
        1
    }

    open spec fn lanes(self) -> Seq<T> {
        seq![self.0]
    }

    open spec fn spec_sum(self) -> T {
        self.0
    }

    open spec fn spec_has_trig() -> bool {
        T::spec_has_trig()
    }

    open spec fn spec_has_exp_ln() -> bool {
        T::spec_has_exp_ln()
    }

    fn size() -> (r: usize) {
        1
    }

    fn load(data: &[T], offset: usize) -> (p: Self) {
        let p = ScalarPacket(data[offset]);
        assert(p.lanes() == data@.subrange(offset as int, offset + 1));
        p
    }

    fn store(self, data: &mut Vec<T>, offset: usize) {
        data.set(offset, self.0);
        assert(data@.subrange(offset as int, offset + 1) == self.lanes());
    }

    fn set1(val: T) -> (p: Self) {
        ScalarPacket(val)
    }

    fn fused_add_mul(&mut self, a: Self, b: Self) {
        self.0 = self.0.plus(a.0.times(b.0));
    }

    fn psin(self) -> (p: Self) {
        let p = ScalarPacket(self.0.sin());
        assert(p.lanes() == self.lanes().map_values(|x: T| x.spec_sin()));
        p
    }

    fn pcos(self) -> (p: Self) {
        let p = ScalarPacket(self.0.cos());
        assert(p.lanes() == self.lanes().map_values(|x: T| x.spec_cos()));
        p
    }

    fn pexp(self) -> (p: Self) {
        let p = ScalarPacket(self.0.exp());
        assert(p.lanes() == self.lanes().map_values(|x: T| x.spec_exp()));
        p
    }

    fn plog(self) -> (p: Self) {
        let p = ScalarPacket(self.0.ln());
        assert(p.lanes() == self.lanes().map_values(|x: T| x.spec_ln()));
        p
    }

    fn psqrt(self) -> (p: Self) {
        let p = ScalarPacket(self.0.sqrt());
        assert(p.lanes() == self.lanes().map_values(|x: T| x.spec_sqrt()));
        p
    }

    fn prsqrt(self) -> (p: Self) {
        let p = ScalarPacket(T::from_usize(1).over(self.0.sqrt()));
        assert(p.lanes() == self.lanes().map_values(
            |x: T| T::spec_from_usize(1).spec_over(x.spec_sqrt()),
        ));
        p
    }

    fn pabs(self) -> (p: Self) {
        let p = ScalarPacket(self.0.abs());
        assert(p.lanes() == self.lanes().map_values(|x: T| x.spec_abs()));
        p
    }

    fn sum(self) -> (r: T) {
        self.0
    }
}

/// Summing a packet filled with one value gives that value back.
pub proof fn lemma_scalar_packet_sum_set1<T: Scalar>(p: ScalarPacket<T>, val: T)
    requires
        p.lanes().len() == 1,
        p.lanes()[0] == val,
    ensures
        p.spec_sum() == val,
{
}

} // verus!
