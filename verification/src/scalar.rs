//! The numeric-element collaborator contract.
//!
//! The engine is generic over the scalar type its tensors hold. Concrete
//! arithmetic (single-precision kernels, fast approximate transcendentals,
//! and so on) is supplied by the caller as an implementation of [`Scalar`];
//! the core states all of its contracts over the uninterpreted specification
//! functions below, so everything it proves holds for any implementation.

use vstd::prelude::*;

verus! {

/// The element operations a graph needs from its numeric type.
///
/// Each executable operation is pinned to an abstract specification
/// counterpart; the core's contracts (forward values, backward gradient
/// formulas) are stated in terms of those counterparts.
pub trait Scalar: Copy {
    /// Abstract additive identity.
    spec fn spec_zero() -> Self;

    /// Abstract multiplicative identity.
    spec fn spec_one() -> Self;

    /// Abstract value of two, used by the square-node derivative.
    spec fn spec_two() -> Self;

    /// Abstract sum.
    spec fn spec_add(self, other: Self) -> Self;

    /// Abstract difference.
    spec fn spec_sub(self, other: Self) -> Self;

    /// Abstract product.
    spec fn spec_mul(self, other: Self) -> Self;

    /// Abstract quotient.
    spec fn spec_div(self, other: Self) -> Self;

    /// Abstract negation.
    spec fn spec_neg(self) -> Self;

    /// Abstract exponential.
    spec fn spec_exp(self) -> Self;

    /// Abstract natural logarithm.
    spec fn spec_ln(self) -> Self;

    /// Abstract hyperbolic tangent.
    spec fn spec_tanh(self) -> Self;

    /// Abstract logistic sigmoid.
    spec fn spec_sigmoid(self) -> Self;

    /// Abstract strict comparison against zero.
    spec fn spec_gt_zero(self) -> bool;

    /// Abstract binary maximum.
    spec fn spec_max(self, other: Self) -> Self;

    fn zero() -> (r: Self)
        ensures
            r == Self::spec_zero(),
    ;

    fn one() -> (r: Self)
        ensures
            r == Self::spec_one(),
    ;

    fn two() -> (r: Self)
        ensures
            r == Self::spec_two(),
    ;

    fn add(&self, other: &Self) -> (r: Self)
        ensures
            r == self.spec_add(*other),
    ;

    fn sub(&self, other: &Self) -> (r: Self)
        ensures
            r == self.spec_sub(*other),
    ;

    fn mul(&self, other: &Self) -> (r: Self)
        ensures
            r == self.spec_mul(*other),
    ;

    fn div(&self, other: &Self) -> (r: Self)
        ensures
            r == self.spec_div(*other),
    ;

    fn neg(&self) -> (r: Self)
        ensures
            r == self.spec_neg(),
    ;

    fn exp(&self) -> (r: Self)
        ensures
            r == self.spec_exp(),
    ;

    fn ln(&self) -> (r: Self)
        ensures
            r == self.spec_ln(),
    ;

    fn tanh(&self) -> (r: Self)
        ensures
            r == self.spec_tanh(),
    ;

    fn sigmoid(&self) -> (r: Self)
        ensures
            r == self.spec_sigmoid(),
    ;

    fn gt_zero(&self) -> (r: bool)
        ensures
            r == self.spec_gt_zero(),
    ;

    fn max(&self, other: &Self) -> (r: Self)
        ensures
            r == self.spec_max(*other),
    ;
}

} // verus!
