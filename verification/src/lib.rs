//! Arithmetic for prime fields: carries and products over 64-bit limbs, and square roots with
//! tables.
//!
//! * [`limbs`]: sums, differences and products of numbers held as 64-bit limbs.
//! * [`sqrt`]: square roots of ratios, by discrete logarithms looked up in tables.
//! * [`helpers`]: what a field has to offer for that.
//! * [`field`]: prime fields of 2-adicity 32 as mathematical objects, and the laws of square roots
//!   in them.
//! * [`modular`]: the number theory below those laws.
//! * [`choice`]: the constant-time flags of the `subtle` crate.
//! * [`proth`]: a small field in which square roots can be taken.

pub mod choice;
pub mod field;
pub mod helpers;
pub mod limbs;
pub mod modular;
pub mod proth;
pub mod sqrt;
