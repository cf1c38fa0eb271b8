//! The numbers that a computation graph holds.
//!
//! The graph never looks into a number: it hands numbers to the operations of
//! this trait and stores what comes back. Its contracts are therefore stated
//! over what each operation may return, whatever the type that implements it.

use vstd::prelude::*;

verus! {

/// A scalar with the arithmetic that the operators need.
pub trait Scalar: Copy {
    /// The additive identity: a gradient that nothing has contributed to.
    fn zero() -> Self;

    /// The multiplicative identity: the gradient of an output in itself.
    fn one() -> Self;

    /// `self + rhs`.
    fn plus(self, rhs: Self) -> Self;

    /// `self - rhs`.
    fn minus(self, rhs: Self) -> Self;

    /// `self * rhs`.
    fn times(self, rhs: Self) -> Self;

    /// `-self`.
    fn negated(self) -> Self;

    /// `self` raised to `exponent`.
    fn powf(self, exponent: Self) -> Self;

    /// The hyperbolic tangent of `self`.
    fn tanh(self) -> Self;
}

/// `z` may come back from `T::zero()`.
pub open spec fn is_zero<T: Scalar>(z: T) -> bool {
    call_ensures(T::zero, (), z)
}

/// `o` may come back from `T::one()`.
pub open spec fn is_one<T: Scalar>(o: T) -> bool {
    call_ensures(T::one, (), o)
}

/// `r` may come back from `a.plus(b)`.
pub open spec fn is_sum<T: Scalar>(a: T, b: T, r: T) -> bool {
    call_ensures(T::plus, (a, b), r)
}

/// `r` may come back from `a.minus(b)`.
pub open spec fn is_difference<T: Scalar>(a: T, b: T, r: T) -> bool {
    call_ensures(T::minus, (a, b), r)
}

/// `r` may come back from `a.times(b)`.
pub open spec fn is_product<T: Scalar>(a: T, b: T, r: T) -> bool {
    call_ensures(T::times, (a, b), r)
}

/// `r` may come back from `a.negated()`.
pub open spec fn is_negation<T: Scalar>(a: T, r: T) -> bool {
    call_ensures(T::negated, (a,), r)
}

/// `r` may come back from `a.powf(b)`.
pub open spec fn is_power<T: Scalar>(a: T, b: T, r: T) -> bool {
    call_ensures(T::powf, (a, b), r)
}

/// `r` may come back from `a.tanh()`.
pub open spec fn is_tanh<T: Scalar>(a: T, r: T) -> bool {
    call_ensures(T::tanh, (a,), r)
}

/// Every operation of `T` has one result for each input: calling it twice
/// gives the same number.
pub open spec fn deterministic<T: Scalar>() -> bool {
    &&& forall|a: T, b: T| is_zero(a) && is_zero(b) ==> a == b
    &&& forall|a: T, b: T| is_one(a) && is_one(b) ==> a == b
    &&& forall|a: T, b: T, r: T, s: T| is_sum(a, b, r) && is_sum(a, b, s) ==> r == s
    &&& forall|a: T, b: T, r: T, s: T| is_difference(a, b, r) && is_difference(a, b, s) ==> r == s
    &&& forall|a: T, b: T, r: T, s: T| is_product(a, b, r) && is_product(a, b, s) ==> r == s
    &&& forall|a: T, r: T, s: T| is_negation(a, r) && is_negation(a, s) ==> r == s
    &&& forall|a: T, b: T, r: T, s: T| is_power(a, b, r) && is_power(a, b, s) ==> r == s
    &&& forall|a: T, r: T, s: T| is_tanh(a, r) && is_tanh(a, s) ==> r == s
}

} // verus!
