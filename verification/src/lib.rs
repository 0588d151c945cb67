//! The Paillier partially homomorphic public-key cryptosystem: key
//! generation over probable primes, encryption, decryption, and
//! homomorphic addition and subtraction of ciphertexts, all built on an
//! arbitrary-precision integer provider.
pub mod arith;
pub mod bigops;
pub mod utils;

use vstd::prelude::*;
use vstd::arithmetic::power::pow;
use vstd::arithmetic::power2::pow2;
use vstd::arithmetic::mul::lemma_mul_nonnegative;
use crate::arith::{
    trunc_div, trunc_rem, gcd_nat, lemma_trunc_is_euclid, lemma_trunc_div_small_neg,
    lemma_gcd_pos,
};
use crate::bigops::{
    big_value, big_from_u64, big_clone, big_add, big_sub, big_mul, big_rem, big_modpow,
    big_random_range, rng_new,
};
use num_bigint::BigInt;

verus! {

/// The public half of a Paillier key pair: the modulus `n`, a product of
/// two like-sized probable primes, and the generator `g`, fixed to `n + 1`.
#[derive(Debug)]
pub struct PaillierPublicKey {
    n: BigInt,
    g: BigInt,
}

/// The private half of a Paillier key pair: Carmichael's value
/// `lambda = lcm(p - 1, q - 1)`, the decryption factor `mu`, and an owned
/// copy of the public key, since decryption needs `n`.
#[derive(Debug)]
pub struct PaillierPrivateKey {
    lambda: BigInt,
    mu: BigInt,
    public_key: PaillierPublicKey,
}

/// A value of exactly `bits` bits as the prime generator certifies it:
/// at least two, in the exact bit range, and odd unless it is one of the
/// two smallest primes. That it is prime is a probabilistic fact of the
/// drawn witnesses and is not claimed.
pub open spec fn prime_shaped(p: int, bits: nat) -> bool {
    p >= 2 && (p == 2 || p == 3 || p % 2 == 1) && pow2((bits - 1) as nat) <= p && p < pow2(bits)
}

/// `lcm(p - 1, q - 1)` written out over the Euclidean gcd, the value the
/// key generator stores as `lambda`.
pub open spec fn carmichael_of(p: int, q: int) -> int {
    trunc_div((p - 1) * (q - 1), gcd_nat((p - 1) as nat, (q - 1) as nat) as int)
}

/// Paillier's `L` function over mathematical integers.
pub open spec fn l_value(x: int, n: int) -> int {
    trunc_div(x - 1, n)
}

/// How `mu` relates to `n` and `lambda` in a generated key: it lies in
/// `[0, n)` and is the modular inverse of `L(g^lambda mod n^2)` whenever
/// that inverse exists, which Paillier's construction guarantees for
/// honestly generated primes.
pub open spec fn mu_matches(n: int, lambda: int, mu: int) -> bool {
    let lv = l_value(pow(n + 1, lambda as nat) % (n * n), n);
    0 <= mu < n && (gcd_nat(n as nat, lv as nat) == 1 ==> (mu * lv) % n == 1int % n)
}

/// The ciphertext that encrypting `m` under modulus `n` with random
/// factor `r` produces: `g^m * r^n mod n^2` with `g = n + 1`.
pub open spec fn encryption_of(n: int, m: int, r: int) -> int {
    ((pow(n + 1, m as nat) % (n * n)) * (pow(r, n as nat) % (n * n))) % (n * n)
}

/// The plaintext that decrypting `c` recovers:
/// `L(c^lambda mod n^2) * mu mod n`.
pub open spec fn decryption_of(n: int, lambda: int, mu: int, c: int) -> int {
    (l_value(pow(c, lambda as nat) % (n * n), n) * mu) % n
}

/// The binomial identity that makes `g = n + 1` work: powers of any
/// `1 + s*n` collapse modulo `n^2`, since every higher term carries a
/// factor `n^2`.
pub proof fn lemma_pow_one_plus_sn(n: int, s: int, k: nat)
    requires
        n >= 2,
        s >= 0,
    ensures
        pow(1 + s * n, k) % (n * n) == (1 + k * s * n) % (n * n),
    decreases k,
{
    let n2 = n * n;
    let b = 1 + s * n;
    assert(n2 > n >= 2) by (nonlinear_arith)
        requires
            n >= 2,
            n2 == n * n,
    ;
    if k == 0 {
        vstd::arithmetic::power::lemma_pow0(b);
        assert(pow(b, k) == 1);
        assert(k * s * n == 0) by (nonlinear_arith)
            requires
                k == 0,
        ;
        assert(pow(b, k) % n2 == (1 + k * s * n) % n2);
    } else {
        let km1: nat = (k - 1) as nat;
        let prev: int = 1 + km1 * s * n;
        lemma_pow_one_plus_sn(n, s, km1);
        assert(pow(b, k) == b * pow(b, km1)) by {
            vstd::arithmetic::power::lemma_pow_adds(b, 1, km1);
            vstd::arithmetic::power::lemma_pow1(b);
        }
        assert((b * pow(b, km1)) % n2 == (b * (pow(b, km1) % n2)) % n2) by {
            vstd::arithmetic::div_mod::lemma_mul_mod_noop_right(b, pow(b, km1), n2);
        }
        assert((b * (prev % n2)) % n2 == (b * prev) % n2) by {
            vstd::arithmetic::div_mod::lemma_mul_mod_noop_right(b, prev, n2);
        }
        assert(pow(b, k) % n2 == (b * prev) % n2);
        assert(b * prev == n2 * (km1 * s * s) + (1 + k * s * n)) by (nonlinear_arith)
            requires
                b == 1 + s * n,
                prev == 1 + km1 * s * n,
                n2 == n * n,
                k == km1 + 1,
        ;
        vstd::arithmetic::div_mod::lemma_mod_multiples_vanish(
            km1 * s * s,
            1 + k * s * n,
            n2,
        );
        assert(pow(b, k) % n2 == (1 + k * s * n) % n2);
    }
}

/// Reducing `1 + t*n` modulo `n^2` reduces `t` modulo `n`.
pub proof fn lemma_one_plus_multiple_mod(n: int, t: int)
    requires
        n >= 2,
        t >= 0,
    ensures
        (1 + t * n) % (n * n) == 1 + (t % n) * n,
        0 <= 1 + (t % n) * n < n * n,
{
    let n2 = n * n;
    vstd::arithmetic::div_mod::lemma_fundamental_div_mod(t, n);
    assert(1 + t * n == n2 * (t / n) + (1 + (t % n) * n)) by (nonlinear_arith)
        requires
            t == n * (t / n) + t % n,
            n2 == n * n,
    ;
    assert(0 <= 1 + (t % n) * n < n2) by (nonlinear_arith)
        requires
            n >= 2,
            0 <= t % n < n,
            n2 == n * n,
    ;
    vstd::arithmetic::div_mod::lemma_mod_multiples_vanish(t / n, 1 + (t % n) * n, n2);
    vstd::arithmetic::div_mod::lemma_small_mod((1 + (t % n) * n) as nat, n2 as nat);
}

/// What decryption makes of any ciphertext whose `lambda`-th power is
/// congruent to `1 + t*n` modulo `n^2`.
pub proof fn lemma_decrypt_congruent(n: int, lambda: int, mu: int, c: int, t: int)
    requires
        n >= 2,
        t >= 0,
        pow(c, lambda as nat) % (n * n) == (1 + t * n) % (n * n),
    ensures
        decryption_of(n, lambda, mu, c) == (t * mu) % n,
{
    lemma_one_plus_multiple_mod(n, t);
    let s = t % n;
    assert(l_value(1 + s * n, n) == s) by {
        lemma_trunc_is_euclid(s * n, n);
        vstd::arithmetic::div_mod::lemma_div_multiples_vanish(s, n);
        assert(n * s == s * n) by (nonlinear_arith);
    }
    vstd::arithmetic::div_mod::lemma_mul_mod_noop_left(t, mu, n);
}

/// The `lambda`-th power of an encryption of `m` under random factor `r`,
/// assuming the Carmichael identity for `r`: the random part vanishes and
/// the binomial part leaves `1 + m*lambda*n`.
pub proof fn lemma_ciphertext_power(n: int, lambda: int, m: int, r: int)
    requires
        n >= 2,
        lambda >= 1,
        m >= 0,
        r >= 1,
        pow(r, (n * lambda) as nat) % (n * n) == 1int % (n * n),
    ensures
        pow(encryption_of(n, m, r), lambda as nat) % (n * n) == (1 + m * lambda * n) % (n * n),
{
    let n2 = n * n;
    assert(n2 > n >= 2) by (nonlinear_arith)
        requires
            n >= 2,
            n2 == n * n,
    ;
    let el: nat = lambda as nat;
    let a = pow(n + 1, m as nat) % n2;
    let b = pow(r, n as nat) % n2;
    // Unreduce the ciphertext, then distribute the power.
    vstd::arithmetic::power::lemma_pow_mod_noop(a * b, el, n2);
    vstd::arithmetic::power::lemma_pow_distributes(a, b, el);
    vstd::arithmetic::div_mod::lemma_mul_mod_noop(pow(a, el), pow(b, el), n2);
    // The plaintext part: a^lambda = (n+1)^(m*lambda) = 1 + m*lambda*n.
    vstd::arithmetic::power::lemma_pow_mod_noop(pow(n + 1, m as nat), el, n2);
    vstd::arithmetic::power::lemma_pow_multiplies(n + 1, m as nat, el);
    lemma_mul_nonnegative(m, lambda);
    assert(pow(a, el) % n2 == pow(n + 1, (m * lambda) as nat) % n2);
    lemma_pow_one_plus_sn(n, 1, (m * lambda) as nat);
    assert(1 + 1 * n == n + 1) by (nonlinear_arith);
    assert((m * lambda) * 1 * n == m * lambda * n) by (nonlinear_arith);
    assert(pow(a, el) % n2 == (1 + m * lambda * n) % n2);
    // The random part: b^lambda = r^(n*lambda) = 1.
    vstd::arithmetic::power::lemma_pow_mod_noop(pow(r, n as nat), el, n2);
    vstd::arithmetic::power::lemma_pow_multiplies(r, n as nat, el);
    lemma_mul_nonnegative(n, lambda);
    vstd::arithmetic::div_mod::lemma_small_mod(1nat, n2 as nat);
    assert(pow(b, el) % n2 == 1);
    // Recombine.
    assert((pow(a, el) % n2) * (pow(b, el) % n2) == pow(a, el) % n2) by (nonlinear_arith)
        requires
            pow(b, el) % n2 == 1,
    ;
    vstd::arithmetic::div_mod::lemma_mod_twice(pow(a, el), n2);
    vstd::arithmetic::div_mod::lemma_mod_twice(1 + m * lambda * n, n2);
}

/// Round trip: decrypting an encryption of `m` recovers `m` exactly, for
/// every plaintext in `[0, n)`, whenever the random factor satisfies the
/// Carmichael identity `r^(n*lambda) = 1 (mod n^2)` and `mu` inverts
/// `lambda` modulo `n`. For a modulus built from two genuine distinct
/// primes both premises hold — the first for every `r` in `[1, n)`
/// coprime to `n` — but the key generator's primes are only probable, so
/// the premises carry exactly the residue of that uncertainty.
pub proof fn lemma_round_trip(n: int, lambda: int, mu: int, m: int, r: int)
    requires
        n >= 2,
        lambda >= 1,
        0 <= m < n,
        r >= 1,
        pow(r, (n * lambda) as nat) % (n * n) == 1int % (n * n),
        (mu * lambda) % n == 1int % n,
    ensures
        decryption_of(n, lambda, mu, encryption_of(n, m, r)) == m,
{
    lemma_ciphertext_power(n, lambda, m, r);
    lemma_mul_nonnegative(m, lambda);
    lemma_decrypt_congruent(n, lambda, mu, encryption_of(n, m, r), m * lambda);
    assert((m * lambda) * mu == m * (mu * lambda)) by (nonlinear_arith);
    vstd::arithmetic::div_mod::lemma_mul_mod_noop_right(m, mu * lambda, n);
    vstd::arithmetic::div_mod::lemma_small_mod(1nat, n as nat);
    vstd::arithmetic::div_mod::lemma_mul_mod_noop_right(m, 1, n);
    vstd::arithmetic::div_mod::lemma_small_mod(m as nat, n as nat);
}

/// The product of two reduced `1 + s*n` forms collapses modulo `n^2`.
proof fn lemma_mul_one_plus_collapse(n: int, s1: int, s2: int)
    requires
        n >= 2,
        s1 >= 0,
        s2 >= 0,
    ensures
        ((1 + s1 * n) * (1 + s2 * n)) % (n * n) == (1 + (s1 + s2) * n) % (n * n),
{
    let n2 = n * n;
    assert(n2 > 0) by (nonlinear_arith)
        requires
            n >= 2,
            n2 == n * n,
    ;
    assert((1 + s1 * n) * (1 + s2 * n) == n2 * (s1 * s2) + (1 + (s1 + s2) * n))
        by (nonlinear_arith)
        requires
            n2 == n * n,
    ;
    vstd::arithmetic::div_mod::lemma_mod_multiples_vanish(s1 * s2, 1 + (s1 + s2) * n, n2);
}

/// Multiplying by `lambda` and then by its inverse `mu` is the identity
/// modulo `n`.
proof fn lemma_cancel_inverse(n: int, lambda: int, mu: int, v: int)
    requires
        n >= 2,
        (mu * lambda) % n == 1int % n,
    ensures
        ((v * lambda) * mu) % n == v % n,
{
    assert((v * lambda) * mu == v * (mu * lambda)) by (nonlinear_arith);
    vstd::arithmetic::div_mod::lemma_mul_mod_noop_right(v, mu * lambda, n);
    vstd::arithmetic::div_mod::lemma_small_mod(1nat, n as nat);
    vstd::arithmetic::div_mod::lemma_mul_mod_noop_right(v, 1, n);
    assert(v * 1 == v) by (nonlinear_arith);
}

/// Additive homomorphism: decrypting the product of two encryptions,
/// reduced modulo `n^2` as `add_encrypted` computes it, yields the sum of
/// the plaintexts modulo `n` — under the same Carmichael and inverse
/// premises as the round-trip law, which genuine primes guarantee.
pub proof fn lemma_additive_homomorphism(
    n: int,
    lambda: int,
    mu: int,
    m1: int,
    m2: int,
    r1: int,
    r2: int,
)
    requires
        n >= 2,
        lambda >= 1,
        m1 >= 0,
        m2 >= 0,
        r1 >= 1,
        r2 >= 1,
        pow(r1, (n * lambda) as nat) % (n * n) == 1int % (n * n),
        pow(r2, (n * lambda) as nat) % (n * n) == 1int % (n * n),
        (mu * lambda) % n == 1int % n,
    ensures
        decryption_of(
            n,
            lambda,
            mu,
            (encryption_of(n, m1, r1) * encryption_of(n, m2, r2)) % (n * n),
        ) == (m1 + m2) % n,
{
    let n2 = n * n;
    assert(n2 > n >= 2) by (nonlinear_arith)
        requires
            n >= 2,
            n2 == n * n,
    ;
    let el: nat = lambda as nat;
    let c1 = encryption_of(n, m1, r1);
    let c2 = encryption_of(n, m2, r2);
    lemma_ciphertext_power(n, lambda, m1, r1);
    lemma_ciphertext_power(n, lambda, m2, r2);
    lemma_mul_nonnegative(m1, lambda);
    lemma_mul_nonnegative(m2, lambda);
    lemma_one_plus_multiple_mod(n, m1 * lambda);
    lemma_one_plus_multiple_mod(n, m2 * lambda);
    let s1 = (m1 * lambda) % n;
    let s2 = (m2 * lambda) % n;
    vstd::arithmetic::power::lemma_pow_mod_noop(c1 * c2, el, n2);
    vstd::arithmetic::power::lemma_pow_distributes(c1, c2, el);
    vstd::arithmetic::div_mod::lemma_mul_mod_noop(pow(c1, el), pow(c2, el), n2);
    assert(pow(c1, el) % n2 == 1 + s1 * n);
    assert(pow(c2, el) % n2 == 1 + s2 * n);
    lemma_mul_one_plus_collapse(n, s1, s2);
    assert(pow((c1 * c2) % n2, el) % n2 == (1 + (s1 + s2) * n) % n2);
    lemma_decrypt_congruent(n, lambda, mu, (c1 * c2) % n2, s1 + s2);
    vstd::arithmetic::div_mod::lemma_add_mod_noop(m1 * lambda, m2 * lambda, n);
    assert(m1 * lambda + m2 * lambda == (m1 + m2) * lambda) by (nonlinear_arith);
    assert((s1 + s2) % n == ((m1 + m2) * lambda) % n);
    crate::arith::lemma_mul_mod_congruent(s1 + s2, (m1 + m2) * lambda, mu, n);
    assert(mu * (s1 + s2) == (s1 + s2) * mu) by (nonlinear_arith);
    assert(mu * ((m1 + m2) * lambda) == ((m1 + m2) * lambda) * mu) by (nonlinear_arith);
    lemma_cancel_inverse(n, lambda, mu, m1 + m2);
}

/// Subtractive homomorphism: decrypting `c1` combined with the additive
/// inverse of `c2`, exactly as `subtract_encrypted` computes it, yields
/// `m1 - m2` for plaintexts with `m2 <= m1 < n` — under the same
/// Carmichael and inverse premises as the round-trip law.
pub proof fn lemma_subtractive_homomorphism(
    n: int,
    lambda: int,
    mu: int,
    m1: int,
    m2: int,
    r1: int,
    r2: int,
)
    requires
        n >= 2,
        lambda >= 1,
        0 <= m2 <= m1 < n,
        r1 >= 1,
        r2 >= 1,
        pow(r1, (n * lambda) as nat) % (n * n) == 1int % (n * n),
        pow(r2, (n * lambda) as nat) % (n * n) == 1int % (n * n),
        (mu * lambda) % n == 1int % n,
    ensures
        decryption_of(
            n,
            lambda,
            mu,
            (encryption_of(n, m1, r1) * (pow(encryption_of(n, m2, r2), (n - 1) as nat) % (n
                * n))) % (n * n),
        ) == m1 - m2,
{
    let n2 = n * n;
    assert(n2 > n >= 2) by (nonlinear_arith)
        requires
            n >= 2,
            n2 == n * n,
    ;
    let el: nat = lambda as nat;
    let c1 = encryption_of(n, m1, r1);
    let c2 = encryption_of(n, m2, r2);
    lemma_ciphertext_power(n, lambda, m1, r1);
    lemma_ciphertext_power(n, lambda, m2, r2);
    lemma_mul_nonnegative(m1, lambda);
    lemma_mul_nonnegative(m2, lambda);
    lemma_one_plus_multiple_mod(n, m1 * lambda);
    lemma_one_plus_multiple_mod(n, m2 * lambda);
    let s1 = (m1 * lambda) % n;
    let s2 = (m2 * lambda) % n;
    let inv = pow(c2, (n - 1) as nat) % n2;
    vstd::arithmetic::power::lemma_pow_mod_noop(c1 * inv, el, n2);
    vstd::arithmetic::power::lemma_pow_distributes(c1, inv, el);
    vstd::arithmetic::div_mod::lemma_mul_mod_noop(pow(c1, el), pow(inv, el), n2);
    // The inverse part: inv^lambda = (c2^lambda)^(n-1) = (1 + s2*n)^(n-1).
    vstd::arithmetic::power::lemma_pow_mod_noop(pow(c2, (n - 1) as nat), el, n2);
    vstd::arithmetic::power::lemma_pow_multiplies(c2, (n - 1) as nat, el);
    vstd::arithmetic::power::lemma_pow_multiplies(c2, el, (n - 1) as nat);
    assert(((n - 1) as nat) * el == el * ((n - 1) as nat)) by (nonlinear_arith);
    vstd::arithmetic::power::lemma_pow_mod_noop(pow(c2, el), (n - 1) as nat, n2);
    lemma_pow_one_plus_sn(n, s2, (n - 1) as nat);
    assert(pow(inv, el) % n2 == (1 + ((n - 1) as nat) * s2 * n) % n2);
    lemma_mul_nonnegative(n - 1, s2);
    assert(((n - 1) as nat) * s2 * n == ((n - 1) * s2) * n) by (nonlinear_arith)
        requires
            n >= 2,
    ;
    lemma_one_plus_multiple_mod(n, (n - 1) * s2);
    let w = ((n - 1) * s2) % n;
    lemma_mul_one_plus_collapse(n, s1, w);
    assert(pow((c1 * inv) % n2, el) % n2 == (1 + (s1 + w) * n) % n2);
    lemma_decrypt_congruent(n, lambda, mu, (c1 * inv) % n2, s1 + w);
    // `s1 + w` is congruent to `(m1 - m2) * lambda` modulo `n`.
    vstd::arithmetic::div_mod::lemma_add_mod_noop_right(s1, (n - 1) * s2, n);
    assert(s1 + (n - 1) * s2 == n * s2 + (s1 - s2)) by (nonlinear_arith);
    vstd::arithmetic::div_mod::lemma_mod_multiples_vanish(s2, s1 - s2, n);
    vstd::arithmetic::div_mod::lemma_sub_mod_noop(m1 * lambda, m2 * lambda, n);
    assert(m1 * lambda - m2 * lambda == (m1 - m2) * lambda) by (nonlinear_arith);
    assert((s1 + w) % n == ((m1 - m2) * lambda) % n);
    crate::arith::lemma_mul_mod_congruent(s1 + w, (m1 - m2) * lambda, mu, n);
    assert(mu * (s1 + w) == (s1 + w) * mu) by (nonlinear_arith);
    assert(mu * ((m1 - m2) * lambda) == ((m1 - m2) * lambda) * mu) by (nonlinear_arith);
    lemma_cancel_inverse(n, lambda, mu, m1 - m2);
    vstd::arithmetic::div_mod::lemma_small_mod((m1 - m2) as nat, n as nat);
}

impl PaillierPublicKey {
    /// The modulus as a mathematical integer.
    pub closed spec fn n_val(&self) -> int {
        big_value(self.n)
    }

    /// The generator as a mathematical integer.
    pub closed spec fn g_val(&self) -> int {
        big_value(self.g)
    }

    /// What every generated public key satisfies, and what the cipher
    /// operations need: a modulus of at least two and `g = n + 1`.
    pub open spec fn wf(&self) -> bool {
        self.n_val() >= 2 && self.g_val() == self.n_val() + 1
    }

    /// The modulus `n`.
    pub fn n(&self) -> (r: &BigInt)
        ensures
            big_value(*r) == self.n_val(),
    {
        &self.n
    }

    /// The generator `g`.
    pub fn g(&self) -> (r: &BigInt)
        ensures
            big_value(*r) == self.g_val(),
    {
        &self.g
    }
}

impl Clone for PaillierPublicKey {
    /// The copy holds the same modulus and generator.
    fn clone(&self) -> (r: Self)
        ensures
            r.n_val() == self.n_val(),
            r.g_val() == self.g_val(),
    {
        PaillierPublicKey { n: big_clone(&self.n), g: big_clone(&self.g) }
    }
}

impl Clone for PaillierPrivateKey {
    /// The copy holds the same exponent, factor and embedded public key.
    fn clone(&self) -> (r: Self)
        ensures
            r.lambda_val() == self.lambda_val(),
            r.mu_val() == self.mu_val(),
            r.n_val() == self.n_val(),
            r.g_val() == self.g_val(),
    {
        PaillierPrivateKey {
            lambda: big_clone(&self.lambda),
            mu: big_clone(&self.mu),
            public_key: self.public_key.clone(),
        }
    }
}

impl PaillierPrivateKey {
    /// Carmichael's value `lambda` as a mathematical integer.
    pub closed spec fn lambda_val(&self) -> int {
        big_value(self.lambda)
    }

    /// The decryption factor `mu` as a mathematical integer.
    pub closed spec fn mu_val(&self) -> int {
        big_value(self.mu)
    }

    /// The embedded public key, as specification value.
    pub closed spec fn spec_public_key(&self) -> PaillierPublicKey {
        self.public_key
    }

    /// The modulus of the embedded public key.
    pub open spec fn n_val(&self) -> int {
        self.spec_public_key().n_val()
    }

    /// The generator of the embedded public key.
    pub open spec fn g_val(&self) -> int {
        self.spec_public_key().g_val()
    }

    /// What every generated private key satisfies, and what decryption
    /// needs: a well-formed embedded public key, a nonnegative exponent
    /// and a nonnegative decryption factor.
    pub open spec fn wf(&self) -> bool {
        self.spec_public_key().wf() && self.lambda_val() >= 0 && self.mu_val() >= 0
    }

    /// Carmichael's value `lambda`.
    pub fn lambda(&self) -> (r: &BigInt)
        ensures
            big_value(*r) == self.lambda_val(),
    {
        &self.lambda
    }

    /// The decryption factor `mu`.
    pub fn mu(&self) -> (r: &BigInt)
        ensures
            big_value(*r) == self.mu_val(),
    {
        &self.mu
    }

    /// The embedded copy of the public key.
    pub fn public_key(&self) -> (r: &PaillierPublicKey)
        ensures
            r.n_val() == self.n_val(),
            r.g_val() == self.g_val(),
    {
        &self.public_key
    }
}

/// Generate a Paillier key pair whose modulus `n = p * q` is the product
/// of two independent probable primes of `bit_length / 2` bits each, with
/// `g = n + 1`, `lambda = lcm(p - 1, q - 1)` and
/// `mu = L(g^lambda mod n^2)^-1 mod n`. `None` reports the practically
/// unreachable exhaustion of the prime generator's attempt budget.
pub fn generate_keypair(bit_length: usize) -> (keys: Option<
    (PaillierPublicKey, PaillierPrivateKey),
>)
    ensures
        keys matches Some(kp) ==> {
            &&& kp.0.wf()
            &&& kp.1.wf()
            &&& kp.1.n_val() == kp.0.n_val()
            &&& kp.1.g_val() == kp.0.g_val()
            &&& kp.0.g_val() == kp.0.n_val() + 1
            &&& bit_length >= 4
            &&& pow2((2 * (bit_length / 2) - 2) as nat) <= kp.0.n_val()
            &&& kp.0.n_val() < pow2((2 * (bit_length / 2)) as nat)
            &&& exists|p: int, q: int|
                {
                    &&& #[trigger] prime_shaped(p, (bit_length / 2) as nat)
                    &&& #[trigger] prime_shaped(q, (bit_length / 2) as nat)
                    &&& kp.0.n_val() == p * q
                    &&& kp.1.lambda_val() == carmichael_of(p, q)
                }
            &&& mu_matches(kp.0.n_val(), kp.1.lambda_val(), kp.1.mu_val())
            &&& 1 <= kp.1.lambda_val() < kp.0.n_val()
            &&& gcd_nat(kp.0.n_val() as nat, kp.1.lambda_val() as nat) == 1
                ==> (kp.1.mu_val() * kp.1.lambda_val()) % kp.0.n_val() == 1int % kp.0.n_val()
        },
{
    let half = bit_length / 2;
    let p = match crate::utils::generate_prime(half) {
        Some(p) => p,
        None => { return None; },
    };
    let q = match crate::utils::generate_prime(half) {
        Some(q) => q,
        None => { return None; },
    };
    let ghost pv = big_value(p);
    let ghost qv = big_value(q);
    let n = big_mul(&p, &q);
    let n_squared = big_mul(&n, &n);
    let ghost nv = big_value(n);
    proof {
        assert(nv >= 4 && big_value(n_squared) > 0) by (nonlinear_arith)
            requires
                pv >= 2,
                qv >= 2,
                nv == pv * qv,
                big_value(n_squared) == nv * nv,
        ;
    }
    let one = big_from_u64(1);
    let p1 = big_sub(&p, &one);
    let q1 = big_sub(&q, &one);
    let lambda = crate::utils::lcm(&p1, &q1);
    proof {
        lemma_gcd_pos((pv - 1) as nat, (qv - 1) as nat);
        assert((pv - 1) * (qv - 1) > 0) by (nonlinear_arith)
            requires
                pv >= 2,
                qv >= 2,
        ;
        lemma_trunc_is_euclid(
            (pv - 1) * (qv - 1),
            gcd_nat((pv - 1) as nat, (qv - 1) as nat) as int,
        );
        vstd::arithmetic::div_mod::lemma_div_pos_is_pos(
            (pv - 1) * (qv - 1),
            gcd_nat((pv - 1) as nat, (qv - 1) as nat) as int,
        );
        assert(big_value(lambda) == carmichael_of(pv, qv));
        assert(big_value(lambda) >= 0);
        // `lambda` sits strictly between zero and `n`.
        let w = (pv - 1) * (qv - 1);
        let gv = gcd_nat((pv - 1) as nat, (qv - 1) as nat) as int;
        crate::arith::lemma_gcd_le((pv - 1) as nat, (qv - 1) as nat);
        assert(gv <= qv - 1 <= w) by (nonlinear_arith)
            requires
                pv >= 2,
                qv >= 2,
                w == (pv - 1) * (qv - 1),
                gv <= qv - 1,
        ;
        vstd::arithmetic::div_mod::lemma_div_by_self(gv);
        vstd::arithmetic::div_mod::lemma_div_is_ordered(gv, w, gv);
        assert(big_value(lambda) >= 1);
        vstd::arithmetic::div_mod::lemma_div_nonincreasing(w, gv);
        assert(w < nv) by (nonlinear_arith)
            requires
                pv >= 2,
                qv >= 2,
                w == (pv - 1) * (qv - 1),
                nv == pv * qv,
        ;
        assert(big_value(lambda) < nv);
    }
    let g = big_add(&n, &one);
    let x = big_modpow(&g, &lambda, &n_squared);
    let lv = crate::utils::l(&x, &n);
    proof {
        if big_value(x) == 0 {
            lemma_trunc_div_small_neg(-1, nv);
        } else {
            lemma_trunc_is_euclid(big_value(x) - 1, nv);
            vstd::arithmetic::div_mod::lemma_div_pos_is_pos(big_value(x) - 1, nv);
        }
        assert(big_value(lv) >= 0);
    }
    proof {
        // The binomial identity pins `x` to `1 + lambda * n`, so the `L`
        // value handed to the inverse is `lambda` itself.
        let lam = big_value(lambda);
        lemma_pow_one_plus_sn(nv, 1, lam as nat);
        assert(1 + 1 * nv == nv + 1) by (nonlinear_arith);
        assert((lam as nat) * 1 * nv == lam * nv) by (nonlinear_arith)
            requires
                lam >= 0,
        ;
        lemma_one_plus_multiple_mod(nv, lam);
        vstd::arithmetic::div_mod::lemma_small_mod(lam as nat, nv as nat);
        assert(big_value(x) == 1 + lam * nv);
        lemma_mul_nonnegative(lam, nv);
        lemma_trunc_is_euclid(lam * nv, nv);
        vstd::arithmetic::div_mod::lemma_div_multiples_vanish(lam, nv);
        assert(nv * lam == lam * nv) by (nonlinear_arith);
        assert(big_value(lv) == lam);
    }
    let mu = crate::utils::mod_inverse(&lv, &n);
    let public_key = PaillierPublicKey { n: big_clone(&n), g: big_clone(&g) };
    let private_key = PaillierPrivateKey { lambda, mu, public_key: public_key.clone() };
    proof {
        let h = (bit_length / 2) as nat;
        assert(prime_shaped(pv, h));
        assert(prime_shaped(qv, h));
        vstd::arithmetic::power2::lemma_pow2_adds((h - 1) as nat, (h - 1) as nat);
        vstd::arithmetic::power2::lemma_pow2_adds(h, h);
        assert(pow2(((h - 1) + (h - 1)) as nat) <= nv && nv < pow2((h + h) as nat))
            by (nonlinear_arith)
            requires
                nv == pv * qv,
                pv >= 2,
                qv >= 2,
                pow2((h - 1) as nat) <= pv < pow2(h),
                pow2((h - 1) as nat) <= qv < pow2(h),
                pow2(((h - 1) + (h - 1)) as nat) == pow2((h - 1) as nat) * pow2((h - 1) as nat),
                pow2((h + h) as nat) == pow2(h) * pow2(h),
        ;
    }
    Some((public_key, private_key))
}

/// Encrypt plaintext `m` under the public key: draw a fresh random
/// `r` in `[1, n)` and return `g^m * r^n mod n^2`. Correct recovery by
/// decryption expects `0 <= m < n`; larger plaintexts wrap modulo `n`
/// rather than fail, as the scheme's arithmetic dictates.
pub fn encrypt(public_key: &PaillierPublicKey, m: &BigInt) -> (c: BigInt)
    requires
        public_key.wf(),
        big_value(*m) >= 0,
    ensures
        0 <= big_value(c) < public_key.n_val() * public_key.n_val(),
        exists|rv: int|
            1 <= rv < public_key.n_val() && big_value(c) == #[trigger] encryption_of(
                public_key.n_val(),
                big_value(*m),
                rv,
            ),
{
    let ghost nv = public_key.n_val();
    let mut rng = rng_new();
    let one = big_from_u64(1);
    let r = big_random_range(&mut rng, &one, &public_key.n);
    let n_squared = big_mul(&public_key.n, &public_key.n);
    proof {
        assert(big_value(n_squared) > 0) by (nonlinear_arith)
            requires
                nv >= 2,
                big_value(n_squared) == nv * nv,
        ;
    }
    let t1 = big_modpow(&public_key.g, m, &n_squared);
    let t2 = big_modpow(&r, &public_key.n, &n_squared);
    let prod = big_mul(&t1, &t2);
    let c = big_rem(&prod, &n_squared);
    proof {
        lemma_mul_nonnegative(big_value(t1), big_value(t2));
        lemma_trunc_is_euclid(big_value(prod), big_value(n_squared));
        assert(big_value(c) == encryption_of(nv, big_value(*m), big_value(r)));
    }
    c
}

/// Decrypt ciphertext `c`: return `L(c^lambda mod n^2) * mu mod n`. When
/// `c` was produced by `encrypt`, or by homomorphic combination of such
/// ciphertexts under the same key pair, this recovers the plaintext
/// modulo `n`.
pub fn decrypt(private_key: &PaillierPrivateKey, c: &BigInt) -> (m: BigInt)
    requires
        private_key.wf(),
    ensures
        big_value(m) == decryption_of(
            private_key.n_val(),
            private_key.lambda_val(),
            private_key.mu_val(),
            big_value(*c),
        ),
        0 <= big_value(m) < private_key.n_val(),
{
    let ghost nv = private_key.n_val();
    let n_squared = big_mul(&private_key.public_key.n, &private_key.public_key.n);
    proof {
        assert(big_value(n_squared) > 0) by (nonlinear_arith)
            requires
                nv >= 2,
                big_value(n_squared) == nv * nv,
        ;
    }
    let x = big_modpow(c, &private_key.lambda, &n_squared);
    let lv = crate::utils::l(&x, &private_key.public_key.n);
    proof {
        if big_value(x) == 0 {
            lemma_trunc_div_small_neg(-1, nv);
        } else {
            lemma_trunc_is_euclid(big_value(x) - 1, nv);
            vstd::arithmetic::div_mod::lemma_div_pos_is_pos(big_value(x) - 1, nv);
        }
        assert(big_value(lv) >= 0);
    }
    let prod = big_mul(&lv, &private_key.mu);
    let m = big_rem(&prod, &private_key.public_key.n);
    proof {
        lemma_mul_nonnegative(big_value(lv), private_key.mu_val());
        lemma_trunc_is_euclid(big_value(prod), nv);
    }
    m
}

/// Homomorphic addition of two ciphertexts for the same key:
/// `c1 * c2 mod n^2`, whose decryption is the sum of the two plaintexts
/// modulo `n`.
pub fn add_encrypted(public_key: &PaillierPublicKey, c1: &BigInt, c2: &BigInt) -> (r: BigInt)
    requires
        public_key.wf(),
    ensures
        big_value(r) == trunc_rem(
            big_value(*c1) * big_value(*c2),
            public_key.n_val() * public_key.n_val(),
        ),
        big_value(*c1) >= 0 && big_value(*c2) >= 0 ==> {
            &&& big_value(r) == (big_value(*c1) * big_value(*c2)) % (public_key.n_val()
                * public_key.n_val())
            &&& 0 <= big_value(r) < public_key.n_val() * public_key.n_val()
        },
{
    let ghost nv = public_key.n_val();
    let n_squared = big_mul(&public_key.n, &public_key.n);
    proof {
        assert(big_value(n_squared) > 0) by (nonlinear_arith)
            requires
                nv >= 2,
                big_value(n_squared) == nv * nv,
        ;
    }
    let prod = big_mul(c1, c2);
    let r = big_rem(&prod, &n_squared);
    proof {
        if big_value(*c1) >= 0 && big_value(*c2) >= 0 {
            lemma_mul_nonnegative(big_value(*c1), big_value(*c2));
            lemma_trunc_is_euclid(big_value(prod), big_value(n_squared));
        }
    }
    r
}

/// The ciphertext of the negated plaintext: `c^(n-1) mod n^2`, computed
/// with the crate's own exponentiation routine. Raising to `n - 1`
/// inverts `c` modulo `n^2` more cheaply than an extended Euclidean pass,
/// since the exponent is already known.
pub fn additive_inverse(public_key: &PaillierPublicKey, c: &BigInt) -> (r: BigInt)
    requires
        public_key.wf(),
        big_value(*c) >= 0,
    ensures
        big_value(r) == pow(big_value(*c), (public_key.n_val() - 1) as nat) % (public_key.n_val()
            * public_key.n_val()),
        0 <= big_value(r) < public_key.n_val() * public_key.n_val(),
{
    let ghost nv = public_key.n_val();
    let one = big_from_u64(1);
    let n_minus_1 = big_sub(&public_key.n, &one);
    let n_squared = big_mul(&public_key.n, &public_key.n);
    proof {
        assert(big_value(n_squared) > 0) by (nonlinear_arith)
            requires
                nv >= 2,
                big_value(n_squared) == nv * nv,
        ;
    }
    crate::utils::mod_pow(c, &n_minus_1, &n_squared)
}

/// Homomorphic subtraction: add the additive inverse of `c2` to `c1`.
/// Its decryption is the difference of the two plaintexts modulo `n`.
pub fn subtract_encrypted(public_key: &PaillierPublicKey, c1: &BigInt, c2: &BigInt) -> (r: BigInt)
    requires
        public_key.wf(),
        big_value(*c1) >= 0,
        big_value(*c2) >= 0,
    ensures
        big_value(r) == (big_value(*c1) * (pow(
            big_value(*c2),
            (public_key.n_val() - 1) as nat,
        ) % (public_key.n_val() * public_key.n_val()))) % (public_key.n_val()
            * public_key.n_val()),
        0 <= big_value(r) < public_key.n_val() * public_key.n_val(),
{
    let inverse_c2 = additive_inverse(public_key, c2);
    add_encrypted(public_key, c1, &inverse_c2)
}

} // verus!
