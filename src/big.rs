//! The arbitrary-precision integer that holds a product of digits.

use vstd::prelude::*;

verus! {

#[verifier::external_type_specification]
#[verifier::external_body]
pub struct ExInteger(rug::Integer);

/// The mathematical value held by a `rug::Integer`.
pub uninterp spec fn big_value(x: rug::Integer) -> int;

/// Relies on `From<u8> for rug::Integer`: the integer equal to the given value.
#[verifier::external_body]
pub(crate) fn big_from(v: u8) -> (r: rug::Integer)
    ensures
        big_value(r) == v as int,
{
    rug::Integer::from(v)
}

/// Relies on `MulAssign<u8> for rug::Integer`: the exact product.
#[verifier::external_body]
pub(crate) fn big_mul_assign(a: &mut rug::Integer, d: u8)
    ensures
        big_value(*final(a)) == big_value(*old(a)) * d as int,
{
    *a *= d;
}

/// Relies on `rug::Integer::mod_u`: the Euclidean remainder, in `[0, m)`;
/// it panics on a zero modulus.
#[verifier::external_body]
pub(crate) fn big_mod_u(a: &rug::Integer, m: u32) -> (r: u32)
    requires
        m > 0,
    ensures
        r as int == big_value(*a) % (m as int),
{
    a.mod_u(m)
}

/// Relies on `DivAssign<u32> for rug::Integer`: the quotient rounded toward
/// zero, which is the floor for a value that is not negative; it panics on a
/// zero divisor.
#[verifier::external_body]
pub(crate) fn big_div_assign(a: &mut rug::Integer, d: u32)
    requires
        d > 0,
    ensures
        big_value(*old(a)) >= 0 ==> big_value(*final(a)) == big_value(*old(a)) / (d as int),
{
    *a /= d;
}

/// Relies on `PartialOrd<i32> for rug::Integer`: whether the value is above
/// zero.
#[verifier::external_body]
pub(crate) fn big_is_positive(a: &rug::Integer) -> (r: bool)
    ensures
        r == (big_value(*a) > 0),
{
    *a > 0
}

} // verus!
