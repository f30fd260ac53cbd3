//! The constant-time flag of the `subtle` crate.

use vstd::prelude::*;

verus! {

/// `subtle::Choice`: a `u8` that is read as a flag, and that is zero or one.
#[verifier::external_type_specification]
#[verifier::external_body]
pub struct ExChoice(subtle::Choice);

/// The byte inside a `Choice`, which `subtle::Choice::unwrap_u8` returns.
pub uninterp spec fn choice_byte(c: subtle::Choice) -> u8;

/// `c` stands for `b`.
pub open spec fn stands_for(c: subtle::Choice, b: bool) -> bool {
    choice_byte(c) == (if b {
        1u8
    } else {
        0
    })
}

/// Calls `<subtle::Choice as From<u8>>::from`, which wraps the byte that it is given.
///
/// The byte is to be zero or one: with debug assertions the conversion panics on any other.
#[verifier::external_body]
pub(crate) fn choice_from_byte(byte: u8) -> (c: subtle::Choice)
    requires
        byte <= 1,
    ensures
        choice_byte(c) == byte,
{
    subtle::Choice::from(byte)
}

/// Calls `<subtle::Choice as BitOr>::bitor`, which wraps the bitwise or of the two bytes.
///
/// Both are to be zero or one: with debug assertions the conversion back panics on any other.
#[verifier::external_body]
pub(crate) fn choice_or(a: subtle::Choice, b: subtle::Choice) -> (c: subtle::Choice)
    requires
        choice_byte(a) <= 1,
        choice_byte(b) <= 1,
    ensures
        choice_byte(c) == choice_byte(a) | choice_byte(b),
{
    a | b
}

/// Calls `<subtle::Choice as BitXor>::bitxor`, which wraps the bitwise exclusive or of the two
/// bytes.
///
/// Both are to be zero or one: with debug assertions the conversion back panics on any other.
#[verifier::external_body]
pub(crate) fn choice_xor(a: subtle::Choice, b: subtle::Choice) -> (c: subtle::Choice)
    requires
        choice_byte(a) <= 1,
        choice_byte(b) <= 1,
    ensures
        choice_byte(c) == choice_byte(a) ^ choice_byte(b),
{
    a ^ b
}

/// Calls `<bool as From<subtle::Choice>>::from`, which is true if the byte is not zero.
///
/// The byte is to be zero or one: with debug assertions the conversion panics on any other.
#[verifier::external_body]
pub(crate) fn choice_to_bool(c: subtle::Choice) -> (b: bool)
    requires
        choice_byte(c) <= 1,
    ensures
        b == (choice_byte(c) != 0),
{
    bool::from(c)
}

/// A flag stands for true if its byte is one, for false if its byte is zero, and never for both.
pub proof fn law_flags_are_bytes(c: subtle::Choice)
    ensures
        stands_for(c, true) <==> choice_byte(c) == 1,
        stands_for(c, false) <==> choice_byte(c) == 0,
{
}

/// Whether something is zero, or else exactly one of two flags is set.
pub fn zero_or_one_of_two(
    is_zero: subtle::Choice,
    first: subtle::Choice,
    second: subtle::Choice,
) -> (r: bool)
    requires
        choice_byte(is_zero) <= 1,
        choice_byte(first) <= 1,
        choice_byte(second) <= 1,
    ensures
        r == (choice_byte(is_zero) == 1 || choice_byte(first) != choice_byte(second)),
{
    proof {
        lemma_flags(choice_byte(first), choice_byte(second));
        let either = choice_byte(first) ^ choice_byte(second);
        lemma_flags(choice_byte(is_zero), either);
    }
    choice_to_bool(choice_or(is_zero, choice_xor(first, second)))
}

/// Or and exclusive or, of flags.
pub(crate) proof fn lemma_flags(x: u8, y: u8)
    requires
        x <= 1,
        y <= 1,
    ensures
        x | y == (if x == 1 || y == 1 {
            1u8
        } else {
            0
        }),
        x ^ y == (if x != y {
            1u8
        } else {
            0
        }),
{
    assert(x | y == (if x == 1 || y == 1 {
        1u8
    } else {
        0
    }) && x ^ y == (if x != y {
        1u8
    } else {
        0
    })) by (bit_vector)
        requires
            x <= 1,
            y <= 1,
    ;
}

} // verus!
