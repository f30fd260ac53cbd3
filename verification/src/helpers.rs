//! What a field offers for square roots to be taken in it.

use crate::choice;
use crate::field::{Integer, PrimeFieldModel};
use subtle::Choice;
use vstd::prelude::*;

verus! {

/// The operations on a prime field that calculating square roots takes.
///
/// The field is that of the integers modulo a prime `p` with `p - 1 = 2^32 * t` and `t` odd. Each
/// element stands for an integer in `0..p`, its value.
pub trait SqrtTableHelpers: Sized + Copy {
    /// The field that the elements belong to.
    spec fn field() -> PrimeFieldModel;

    /// The canonical integer that this element stands for.
    spec fn value(self) -> Integer;

    /// The modulus is a prime of the form above, and the root of unity has order `2^32`.
    proof fn field_is_valid()
        ensures
            Self::field().valid(),
    ;

    /// Values are canonical.
    proof fn value_is_canonical(self)
        ensures
            Self::field().is_element(self.value()),
    ;

    /// The one element of the field, the multiplicative identity.
    fn one() -> (r: Self)
        ensures
            r.value() == 1,
    ;

    /// The `2^32` root of unity.
    fn root_of_unity() -> (r: Self)
        ensures
            r.value() == Self::field().root,
    ;

    /// Multiplies two elements.
    fn mul(&self, other: &Self) -> (r: Self)
        ensures
            r.value() == Self::field().mul(self.value(), other.value()),
    ;

    /// Subtracts an element from this one.
    fn sub(&self, other: &Self) -> (r: Self)
        ensures
            r.value() == Self::field().sub(self.value(), other.value()),
    ;

    /// Squares this element.
    fn square(&self) -> (r: Self)
        ensures
            r.value() == Self::field().mul(self.value(), self.value()),
    ;

    /// Returns true iff this element is zero.
    fn is_zero(&self) -> (c: Choice)
        ensures
            choice::stands_for(c, self.value() == 0),
    ;

    /// Raise this field element to the power `(t - 1) / 2`.
    ///
    /// Field implementations may use an efficient addition chain.
    fn pow_by_t_minus1_over2(&self) -> (r: Self)
        ensures
            r.value() == Self::field().pow(self.value(), ((Self::field().t - 1) / 2) as nat),
    ;

    /// Gets the lower 32 bits of this field element when expressed canonically.
    fn get_lower_32(&self) -> (r: u32)
        ensures
            r == self.value() % 0x1_0000_0000,
    ;
}

} // verus!
