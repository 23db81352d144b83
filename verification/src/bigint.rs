//! Trusted boundary around the arbitrary-precision integers of the
//! `num_bigint` crate.
//!
//! `big(x)` names the mathematical integer that a `num_bigint::BigInt`
//! holds.  Every wrapper below makes exactly one call into `num_bigint`
//! and states, over `big`, what that call does to the held value.

use vstd::prelude::*;
use vstd::arithmetic::power::pow;

verus! {

#[verifier::external_type_specification]
#[verifier::external_body]
pub struct ExBigInt(num_bigint::BigInt);

/// The mathematical integer held by a `num_bigint::BigInt`.
pub uninterp spec fn big(x: num_bigint::BigInt) -> int;

/// Relies on `BigInt::from(0u32)`: a fresh zero.
#[verifier::external_body]
pub(crate) fn big_zero() -> (r: num_bigint::BigInt)
    ensures
        big(r) == 0,
{
    num_bigint::BigInt::from(0u32)
}

/// Relies on `BigInt::from(u64)`: conversion keeps the value.
#[verifier::external_body]
pub(crate) fn big_from_u64(v: u64) -> (r: num_bigint::BigInt)
    ensures
        big(r) == v,
{
    num_bigint::BigInt::from(v)
}

/// Relies on `BigInt::from(i64)`: conversion keeps the value.
#[verifier::external_body]
pub(crate) fn big_from_i64(v: i64) -> (r: num_bigint::BigInt)
    ensures
        big(r) == v,
{
    num_bigint::BigInt::from(v)
}

/// Relies on `<BigInt as Clone>::clone`: the copy holds the same value.
#[verifier::external_body]
pub(crate) fn big_clone(a: &num_bigint::BigInt) -> (r: num_bigint::BigInt)
    ensures
        big(r) == big(*a),
{
    a.clone()
}

/// Relies on `Add` for `&BigInt`: exact integer addition.
#[verifier::external_body]
pub(crate) fn big_add(a: &num_bigint::BigInt, b: &num_bigint::BigInt) -> (r: num_bigint::BigInt)
    ensures
        big(r) == big(*a) + big(*b),
{
    a + b
}

/// Relies on `Add<u64>` for `&BigInt`: exact integer addition.
#[verifier::external_body]
pub(crate) fn big_add_u64(a: &num_bigint::BigInt, v: u64) -> (r: num_bigint::BigInt)
    ensures
        big(r) == big(*a) + v,
{
    a + v
}

/// Relies on `Sub<u64>` for `&BigInt`: exact integer subtraction.
#[verifier::external_body]
pub(crate) fn big_sub_u64(a: &num_bigint::BigInt, v: u64) -> (r: num_bigint::BigInt)
    ensures
        big(r) == big(*a) - v,
{
    a - v
}

/// Relies on `Mul` for `&BigInt`: exact integer multiplication.
#[verifier::external_body]
pub(crate) fn big_mul(a: &num_bigint::BigInt, b: &num_bigint::BigInt) -> (r: num_bigint::BigInt)
    ensures
        big(r) == big(*a) * big(*b),
{
    a * b
}

/// Relies on `Mul<u64>` for `&BigInt`: exact integer multiplication.
#[verifier::external_body]
pub(crate) fn big_mul_u64(a: &num_bigint::BigInt, v: u64) -> (r: num_bigint::BigInt)
    ensures
        big(r) == big(*a) * v,
{
    a * v
}

/// Relies on `Neg` for `&BigInt`: exact negation.
#[verifier::external_body]
pub(crate) fn big_neg(a: &num_bigint::BigInt) -> (r: num_bigint::BigInt)
    ensures
        big(r) == -big(*a),
{
    -a
}

/// Relies on `BigInt::pow`: exact exponentiation by a `u32`.
#[verifier::external_body]
pub(crate) fn big_pow_u64(base: u64, exp: u32) -> (r: num_bigint::BigInt)
    ensures
        big(r) == pow(base as int, exp as nat),
{
    num_bigint::BigInt::from(base).pow(exp)
}

/// Relies on `Shl<u32>` for `&BigInt`: a left shift multiplies by 2^n.
#[verifier::external_body]
pub(crate) fn big_shl(a: &num_bigint::BigInt, n: u32) -> (r: num_bigint::BigInt)
    ensures
        big(r) == big(*a) * pow(2, n as nat),
{
    a << n
}

/// Relies on `BigInt::sqrt` (`num_integer::Roots::sqrt`): the truncated
/// principal square root of a non-negative integer.  The call panics on
/// negative input, which `requires` rules out.
#[verifier::external_body]
pub(crate) fn big_sqrt(a: &num_bigint::BigInt) -> (r: num_bigint::BigInt)
    requires
        big(*a) >= 0,
    ensures
        0 <= big(r),
        big(r) * big(r) <= big(*a),
        big(*a) < (big(r) + 1) * (big(r) + 1),
{
    a.sqrt()
}

/// Relies on `Div` for `&BigInt`: quotient of `div_rem`, which truncates
/// toward zero; for a non-negative dividend and a positive divisor this
/// is Euclidean division.  The call panics on a zero divisor, which
/// `requires` rules out.
#[verifier::external_body]
pub(crate) fn big_div(a: &num_bigint::BigInt, b: &num_bigint::BigInt) -> (r: num_bigint::BigInt)
    requires
        big(*a) >= 0,
        big(*b) >= 1,
    ensures
        big(r) == big(*a) / big(*b),
{
    a / b
}

} // verus!
