//! Decisions about IEEE-754 double precision numbers, made on their bits.
use vstd::prelude::*;

verus! {

pub const SIGN_BITS: u64 = 0x8000_0000_0000_0000;

pub const INFINITY_BITS: u64 = 0x7ff0_0000_0000_0000;

pub const ONE_BITS: u64 = 0x3ff0_0000_0000_0000;

/// The bits without the sign: they order non-negative numbers as the numbers
/// are ordered.
pub open spec fn magnitude(bits: u64) -> int {
    if bits < SIGN_BITS {
        bits as int
    } else {
        bits - SIGN_BITS
    }
}

/// Neither infinite nor not-a-number.
pub open spec fn finite(bits: u64) -> bool {
    magnitude(bits) < INFINITY_BITS
}

pub open spec fn all_finite(values: Seq<u64>) -> bool {
    forall|i: int| 0 <= i < values.len() ==> finite(#[trigger] values[i])
}

/// Greater than zero, infinity with it.
pub open spec fn above_zero(bits: u64) -> bool {
    0 < bits <= INFINITY_BITS
}

/// Greater than one, infinity with it.
pub open spec fn above_one(bits: u64) -> bool {
    ONE_BITS < bits <= INFINITY_BITS
}

/// Less than zero, negative infinity with it.
pub open spec fn below_zero(bits: u64) -> bool {
    SIGN_BITS < bits <= SIGN_BITS + INFINITY_BITS
}

pub fn is_finite(bits: u64) -> (yes: bool)
    ensures
        yes == finite(bits),
{
    if bits < SIGN_BITS {
        bits < INFINITY_BITS
    } else {
        bits - SIGN_BITS < INFINITY_BITS
    }
}

pub fn is_above_zero(bits: u64) -> (yes: bool)
    ensures
        yes == above_zero(bits),
{
    0 < bits && bits <= INFINITY_BITS
}

pub fn is_above_one(bits: u64) -> (yes: bool)
    ensures
        yes == above_one(bits),
{
    ONE_BITS < bits && bits <= INFINITY_BITS
}

pub fn is_below_zero(bits: u64) -> (yes: bool)
    ensures
        yes == below_zero(bits),
{
    SIGN_BITS < bits && bits <= SIGN_BITS + INFINITY_BITS
}

/// A number lies above zero, lies below zero, is a zero or is not a number,
/// and no two of these at once.
pub proof fn lemma_sign_trichotomy(bits: u64)
    ensures
        !(above_zero(bits) && below_zero(bits)),
        above_zero(bits) || below_zero(bits) || magnitude(bits) == 0 || magnitude(bits)
            > INFINITY_BITS,
        magnitude(bits) == 0 ==> !above_zero(bits) && !below_zero(bits),
        magnitude(bits) > INFINITY_BITS ==> !above_zero(bits) && !below_zero(bits),
{
}

} // verus!
