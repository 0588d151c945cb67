//! Mathematical groundwork: truncating division as arbitrary-precision
//! integer arithmetic performs it, the Euclidean greatest common divisor,
//! and the lemmas about them that the rest of the crate leans on.
use vstd::prelude::*;
use vstd::arithmetic::div_mod::{
    lemma_fundamental_div_mod, lemma_mul_mod_noop_right, lemma_mod_multiples_vanish,
};
use vstd::math::abs;

verus! {

/// Quotient of `a` by `b` rounded toward zero, the convention that
/// arbitrary-precision integer division follows.
pub open spec fn trunc_div(a: int, b: int) -> int {
    if (a >= 0) == (b >= 0) {
        abs(a) as int / abs(b) as int
    } else {
        -(abs(a) as int / abs(b) as int)
    }
}

/// Remainder that pairs with `trunc_div`: it carries the dividend's sign.
pub open spec fn trunc_rem(a: int, b: int) -> int {
    a - b * trunc_div(a, b)
}

/// The greatest common divisor, by Euclid's recurrence.
pub open spec fn gcd_nat(a: nat, b: nat) -> nat
    decreases b,
{
    if b == 0 {
        a
    } else {
        gcd_nat(b, a % b)
    }
}

/// On nonnegative dividends and positive divisors, truncating division and
/// remainder agree with the verifier's Euclidean `/` and `%`.
pub proof fn lemma_trunc_is_euclid(a: int, b: int)
    requires
        a >= 0,
        b > 0,
    ensures
        trunc_div(a, b) == a / b,
        trunc_rem(a, b) == a % b,
{
    lemma_fundamental_div_mod(a, b);
}

/// A small negative value divided (truncating) by a larger positive one is zero.
pub proof fn lemma_trunc_div_small_neg(a: int, b: int)
    requires
        -b < a < 0,
        b > 0,
    ensures
        trunc_div(a, b) == 0,
{
    vstd::arithmetic::div_mod::lemma_basic_div(-a, b);
}

/// The greatest common divisor is positive unless both arguments are zero.
pub proof fn lemma_gcd_pos(a: nat, b: nat)
    requires
        a > 0 || b > 0,
    ensures
        gcd_nat(a, b) > 0,
    decreases b,
{
    if b > 0 {
        lemma_gcd_pos(b, a % b);
    }
}

/// The greatest common divisor does not exceed a positive second argument.
pub proof fn lemma_gcd_le(a: nat, b: nat)
    requires
        b >= 1,
    ensures
        gcd_nat(a, b) <= b,
    decreases b,
{
    assert(gcd_nat(a, b) == gcd_nat(b, a % b));
    if a % b == 0 {
        assert(gcd_nat(b, 0) == b);
    } else {
        lemma_gcd_le(b, a % b);
    }
}

/// Replacing a factor by a value congruent to it does not change a product's
/// residue.
pub proof fn lemma_mul_mod_congruent(x: int, y: int, q: int, m: int)
    requires
        m > 0,
        x % m == y % m,
    ensures
        (q * x) % m == (q * y) % m,
{
    lemma_mul_mod_noop_right(q, x, m);
    lemma_mul_mod_noop_right(q, y, m);
}

/// Adding a multiple of the modulus to a factor does not change the
/// product's residue.
pub proof fn lemma_mod_add_multiple(x: int, a: int, m: int)
    requires
        m > 0,
    ensures
        ((x + m) * a) % m == (x * a) % m,
{
    assert((x + m) * a == m * a + x * a) by (nonlinear_arith);
    lemma_mod_multiples_vanish(a, x * a, m);
}

} // verus!
