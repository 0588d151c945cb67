//! The boundary to the arbitrary-precision integer provider.
//!
//! `num_bigint::BigInt` is opaque to the verifier; the uninterpreted
//! function [`big_value`] names the integer a `BigInt` holds, and every
//! operation the crate performs on big integers goes through one of the
//! wrappers below, whose contracts state what the provider's documented
//! behaviour gives in terms of `big_value`.
use vstd::prelude::*;
use vstd::arithmetic::power::pow;
use vstd::arithmetic::power2::pow2;
use vstd::math::abs;
use crate::arith::{trunc_div, trunc_rem, gcd_nat};
use num_bigint::RandBigInt;
use num_integer::Integer;

verus! {

#[verifier::external_type_specification]
#[verifier::external_body]
pub struct ExBigInt(num_bigint::BigInt);

#[verifier::external_type_specification]
#[verifier::external_body]
pub struct ExThreadRng(rand::rngs::ThreadRng);

/// The integer that a `num_bigint::BigInt` holds.
pub uninterp spec fn big_value(b: num_bigint::BigInt) -> int;

/// Relies on `BigInt: From<u64>`: the conversion is exact.
#[verifier::external_body]
pub(crate) fn big_from_u64(x: u64) -> (r: num_bigint::BigInt)
    ensures
        big_value(r) == x,
{
    num_bigint::BigInt::from(x)
}

/// Relies on `BigInt: Clone`: the copy holds the same integer.
#[verifier::external_body]
pub(crate) fn big_clone(a: &num_bigint::BigInt) -> (r: num_bigint::BigInt)
    ensures
        big_value(r) == big_value(*a),
{
    a.clone()
}

/// Relies on `Add for &BigInt`: exact, unbounded addition.
#[verifier::external_body]
pub(crate) fn big_add(a: &num_bigint::BigInt, b: &num_bigint::BigInt) -> (r: num_bigint::BigInt)
    ensures
        big_value(r) == big_value(*a) + big_value(*b),
{
    a + b
}

/// Relies on `Sub for &BigInt`: exact, unbounded subtraction.
#[verifier::external_body]
pub(crate) fn big_sub(a: &num_bigint::BigInt, b: &num_bigint::BigInt) -> (r: num_bigint::BigInt)
    ensures
        big_value(r) == big_value(*a) - big_value(*b),
{
    a - b
}

/// Relies on `Mul for &BigInt`: exact, unbounded multiplication.
#[verifier::external_body]
pub(crate) fn big_mul(a: &num_bigint::BigInt, b: &num_bigint::BigInt) -> (r: num_bigint::BigInt)
    ensures
        big_value(r) == big_value(*a) * big_value(*b),
{
    a * b
}

/// Relies on `Div for &BigInt`: quotient rounded toward zero; panics on a
/// zero divisor, which the precondition rules out.
#[verifier::external_body]
pub(crate) fn big_div(a: &num_bigint::BigInt, b: &num_bigint::BigInt) -> (r: num_bigint::BigInt)
    requires
        big_value(*b) != 0,
    ensures
        big_value(r) == trunc_div(big_value(*a), big_value(*b)),
{
    a / b
}

/// Relies on `Rem for &BigInt`: remainder with the dividend's sign; panics
/// on a zero divisor, which the precondition rules out.
#[verifier::external_body]
pub(crate) fn big_rem(a: &num_bigint::BigInt, b: &num_bigint::BigInt) -> (r: num_bigint::BigInt)
    requires
        big_value(*b) != 0,
    ensures
        big_value(r) == trunc_rem(big_value(*a), big_value(*b)),
{
    a % b
}

/// Relies on `PartialEq for BigInt`: equality of the held integers.
#[verifier::external_body]
pub(crate) fn big_eq(a: &num_bigint::BigInt, b: &num_bigint::BigInt) -> (r: bool)
    ensures
        r == (big_value(*a) == big_value(*b)),
{
    a == b
}

/// Relies on `Ord for BigInt`: the numeric order of the held integers.
#[verifier::external_body]
pub(crate) fn big_lt(a: &num_bigint::BigInt, b: &num_bigint::BigInt) -> (r: bool)
    ensures
        r == (big_value(*a) < big_value(*b)),
{
    a < b
}

/// Relies on `Integer::is_even` for `BigInt`: divisibility of the held
/// integer by two, regardless of sign.
#[verifier::external_body]
pub(crate) fn big_is_even(a: &num_bigint::BigInt) -> (r: bool)
    ensures
        r == (big_value(*a) % 2 == 0),
{
    a.is_even()
}

/// Relies on `Integer::gcd` for `BigInt`: the nonnegative greatest common
/// divisor of the two magnitudes.
#[verifier::external_body]
pub(crate) fn big_gcd(a: &num_bigint::BigInt, b: &num_bigint::BigInt) -> (r: num_bigint::BigInt)
    ensures
        big_value(r) == gcd_nat(abs(big_value(*a)) as nat, abs(big_value(*b)) as nat),
{
    a.gcd(b)
}

/// Relies on `BigInt::modpow`: `base ^ exponent` reduced by the modulus,
/// with the result in `[0, modulus)` for a positive modulus whatever the
/// base's sign; panics on a negative exponent or a zero modulus, which the
/// preconditions rule out.
#[verifier::external_body]
pub(crate) fn big_modpow(
    base: &num_bigint::BigInt,
    exponent: &num_bigint::BigInt,
    modulus: &num_bigint::BigInt,
) -> (r: num_bigint::BigInt)
    requires
        big_value(*exponent) >= 0,
        big_value(*modulus) > 0,
    ensures
        big_value(r) == pow(big_value(*base), big_value(*exponent) as nat) % big_value(*modulus),
{
    base.modpow(exponent, modulus)
}

/// Relies on `BigInt::bits`: the fewest bits that express the magnitude,
/// zero for the integer zero.
#[verifier::external_body]
pub(crate) fn big_bits(a: &num_bigint::BigInt) -> (r: u64)
    ensures
        big_value(*a) == 0 ==> r == 0,
        big_value(*a) != 0 ==> 1 <= r && pow2((r - 1) as nat) <= abs(big_value(*a))
            && abs(big_value(*a)) < pow2(r as nat),
{
    a.bits()
}

/// Relies on `rand::thread_rng`: a handle to the thread-local
/// cryptographically secure generator.
#[verifier::external_body]
pub(crate) fn rng_new() -> rand::rngs::ThreadRng {
    rand::thread_rng()
}

/// Relies on `RandBigInt::gen_bigint_range`: a uniform draw from
/// `[lo, hi)`; panics unless `lo < hi`, which the precondition rules out.
/// Nothing beyond the bounds can be promised of a random draw.
#[verifier::external_body]
pub(crate) fn big_random_range(
    rng: &mut rand::rngs::ThreadRng,
    lo: &num_bigint::BigInt,
    hi: &num_bigint::BigInt,
) -> (r: num_bigint::BigInt)
    requires
        big_value(*lo) < big_value(*hi),
    ensures
        big_value(*lo) <= big_value(r) < big_value(*hi),
{
    rng.gen_bigint_range(lo, hi)
}

/// Relies on `RandBigInt::gen_bigint`: a random integer, of either sign,
/// whose magnitude occupies at most `bits` bits. Nothing beyond that bound
/// can be promised of a random draw.
#[verifier::external_body]
pub(crate) fn big_random_bits(rng: &mut rand::rngs::ThreadRng, bits: u64) -> (r: num_bigint::BigInt)
    ensures
        -(pow2(bits as nat) as int) < big_value(r) < pow2(bits as nat) as int,
{
    rng.gen_bigint(bits)
}

} // verus!
