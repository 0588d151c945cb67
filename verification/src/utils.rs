//! Number-theory utilities: least common multiple, Paillier's L function,
//! modular inverse, square-and-multiply modular exponentiation, the
//! Miller-Rabin probable-prime test, and random prime generation.
use vstd::prelude::*;
use vstd::math::abs;
use vstd::arithmetic::power::{
    pow, lemma_pow0, lemma_pow1, lemma_pow_adds, lemma_pow_multiplies, lemma_pow_mod_noop,
};
use vstd::arithmetic::power2::{pow2, lemma2_to64};
use vstd::arithmetic::div_mod::{
    lemma_fundamental_div_mod, lemma_small_mod, lemma_mul_mod_noop_left,
};
use vstd::arithmetic::mul::lemma_mul_nonnegative;
use crate::arith::{
    trunc_div, gcd_nat, lemma_trunc_is_euclid, lemma_gcd_pos, lemma_mul_mod_congruent,
};
use crate::bigops::{
    big_value, big_from_u64, big_clone, big_gcd, big_mul, big_div, big_rem, big_sub, big_add,
    big_eq, big_lt, big_is_even, big_modpow, big_bits, big_random_bits, big_random_range, rng_new,
};
use num_bigint::BigInt;

verus! {

/// Least common multiple, computed as `a * b / gcd(a, b)` with truncating
/// division, the form the key generator consumes.
pub fn lcm(a: &BigInt, b: &BigInt) -> (r: BigInt)
    requires
        big_value(*a) != 0,
        big_value(*b) != 0,
    ensures
        big_value(r) == trunc_div(
            big_value(*a) * big_value(*b),
            gcd_nat(abs(big_value(*a)) as nat, abs(big_value(*b)) as nat) as int,
        ),
        big_value(*a) > 0 && big_value(*b) > 0 ==> big_value(r) >= 0,
{
    let g = big_gcd(a, b);
    proof {
        lemma_gcd_pos(abs(big_value(*a)) as nat, abs(big_value(*b)) as nat);
    }
    let p = big_mul(a, b);
    let r = big_div(&p, &g);
    proof {
        if big_value(*a) > 0 && big_value(*b) > 0 {
            assert(big_value(p) > 0) by (nonlinear_arith)
                requires
                    big_value(p) == big_value(*a) * big_value(*b),
                    big_value(*a) > 0,
                    big_value(*b) > 0,
            ;
            lemma_trunc_is_euclid(big_value(p), big_value(g));
            vstd::arithmetic::div_mod::lemma_div_pos_is_pos(big_value(p), big_value(g));
        }
    }
    r
}

/// Paillier's `L` function, `(x - 1) / n` with truncating integer division.
pub fn l(x: &BigInt, n: &BigInt) -> (r: BigInt)
    requires
        big_value(*n) != 0,
    ensures
        big_value(r) == trunc_div(big_value(*x) - 1, big_value(*n)),
{
    let one = big_from_u64(1);
    let xm1 = big_sub(x, &one);
    big_div(&xm1, n)
}

/// Modular inverse by the extended Euclidean algorithm, normalized into
/// `[0, m)`: the Bezout coefficient is lifted to a nonnegative
/// representative and reduced by the modulus. The result is meaningful
/// only when `gcd(a, m) == 1`, which Paillier's construction guarantees
/// at the call sites; the contract promises the inverse exactly in that
/// case.
pub fn mod_inverse(a: &BigInt, m: &BigInt) -> (r: BigInt)
    requires
        big_value(*a) >= 0,
        big_value(*m) > 0,
    ensures
        0 <= big_value(r) < big_value(*m),
        gcd_nat(big_value(*m) as nat, big_value(*a) as nat) == 1 ==> (big_value(r) * big_value(
            *a,
        )) % big_value(*m) == 1int % big_value(*m),
{
    let ghost a0 = big_value(*a);
    let ghost m0 = big_value(*m);
    let zero = big_from_u64(0);
    let mut mn0 = big_clone(m);
    let mut mn1 = big_clone(a);
    let mut xy0 = big_from_u64(0);
    let mut xy1 = big_from_u64(1);
    proof {
        vstd::arithmetic::div_mod::lemma_mod_self_0(m0);
        assert(0int * a0 == 0) by (nonlinear_arith);
        assert(1int * a0 == a0) by (nonlinear_arith);
    }
    while !big_eq(&mn1, &zero)
        invariant
            big_value(zero) == 0,
            big_value(*m) == m0,
            big_value(*a) == a0,
            m0 > 0,
            big_value(mn0) >= 0,
            big_value(mn1) >= 0,
            gcd_nat(big_value(mn0) as nat, big_value(mn1) as nat) == gcd_nat(
                m0 as nat,
                a0 as nat,
            ),
            (big_value(xy0) * a0) % m0 == big_value(mn0) % m0,
            (big_value(xy1) * a0) % m0 == big_value(mn1) % m0,
        decreases big_value(mn1),
    {
        let ghost p_mn0 = big_value(mn0);
        let ghost p_mn1 = big_value(mn1);
        let ghost p_xy0 = big_value(xy0);
        let ghost p_xy1 = big_value(xy1);
        let q = big_div(&mn0, &mn1);
        let rem = big_rem(&mn0, &mn1);
        let prod = big_mul(&q, &xy1);
        let nxy1 = big_sub(&xy0, &prod);
        xy0 = xy1;
        xy1 = nxy1;
        mn0 = mn1;
        mn1 = rem;
        proof {
            lemma_trunc_is_euclid(p_mn0, p_mn1);
            lemma_fundamental_div_mod(p_mn0, p_mn1);
            let qv = p_mn0 / p_mn1;
            assert(big_value(mn1) == p_mn0 % p_mn1);
            // Euclid's recurrence keeps the greatest common divisor.
            assert(gcd_nat(p_mn0 as nat, p_mn1 as nat) == gcd_nat(
                p_mn1 as nat,
                (p_mn0 % p_mn1) as nat,
            ));
            // The Bezout-style congruences survive the update.
            lemma_mul_mod_congruent(p_xy1 * a0, p_mn1, qv, m0);
            assert((p_xy0 - qv * p_xy1) * a0 == p_xy0 * a0 - qv * (p_xy1 * a0))
                by (nonlinear_arith);
            vstd::arithmetic::div_mod::lemma_sub_mod_noop(p_xy0 * a0, qv * (p_xy1 * a0), m0);
            vstd::arithmetic::div_mod::lemma_sub_mod_noop(p_mn0, qv * p_mn1, m0);
            assert((big_value(xy1) * a0) % m0 == (p_mn0 - qv * p_mn1) % m0);
        }
    }
    proof {
        if gcd_nat(m0 as nat, a0 as nat) == 1 {
            assert(gcd_nat(big_value(mn0) as nat, 0) == big_value(mn0) as nat);
        }
    }
    while big_lt(&xy0, &zero)
        invariant
            big_value(zero) == 0,
            big_value(*m) == m0,
            big_value(*a) == a0,
            m0 > 0,
            (big_value(xy0) * a0) % m0 == big_value(mn0) % m0,
        decreases
                (if big_value(xy0) < 0 {
                    -big_value(xy0)
                } else {
                    0
                }),
    {
        let ghost p_xy0 = big_value(xy0);
        xy0 = big_add(&xy0, m);
        proof {
            crate::arith::lemma_mod_add_multiple(p_xy0, a0, m0);
        }
    }
    let r = big_rem(&xy0, m);
    proof {
        lemma_trunc_is_euclid(big_value(xy0), m0);
        lemma_mul_mod_noop_left(big_value(xy0), a0, m0);
        if gcd_nat(m0 as nat, a0 as nat) == 1 {
            assert(big_value(mn0) % m0 == 1int % m0);
        }
    }
    r
}

/// Iterative square-and-multiply modular exponentiation, kept as an
/// auditable path beside the integer provider's built-in routine. An
/// exponent of zero yields one, whatever the base and modulus.
pub fn mod_pow(base: &BigInt, exponent: &BigInt, modulus: &BigInt) -> (r: BigInt)
    requires
        big_value(*exponent) >= 0,
        big_value(*modulus) != 0,
    ensures
        big_value(*exponent) == 0 ==> big_value(r) == 1,
        big_value(*base) >= 0 && big_value(*modulus) > 0 && big_value(*exponent) > 0
            ==> big_value(r) == pow(big_value(*base), big_value(*exponent) as nat) % big_value(
            *modulus,
        ),
{
    let ghost b0 = big_value(*base);
    let ghost e0 = big_value(*exponent);
    let ghost m = big_value(*modulus);
    let one = big_from_u64(1);
    let two = big_from_u64(2);
    let zero = big_from_u64(0);
    let mut result = big_from_u64(1);
    let mut bpow = big_clone(base);
    let mut exp = big_clone(exponent);
    proof {
        lemma_pow0(b0);
    }
    while big_lt(&zero, &exp)
        invariant
            big_value(zero) == 0,
            big_value(one) == 1,
            big_value(two) == 2,
            big_value(*modulus) == m,
            m != 0,
            e0 >= 0,
            big_value(exp) >= 0,
            e0 == 0 ==> big_value(exp) == 0 && big_value(result) == 1,
            b0 >= 0 && m > 0 ==> {
                &&& big_value(bpow) >= 0
                &&& big_value(result) >= 0
                &&& pow(b0, e0 as nat) % m == (big_value(result) * pow(
                    big_value(bpow),
                    big_value(exp) as nat,
                )) % m
                &&& (big_value(result) < m || big_value(result) == 1)
                &&& (e0 > 0 && big_value(exp) == 0 ==> big_value(result) < m)
            },
        decreases big_value(exp),
    {
        let ghost pre_r = big_value(result);
        let ghost pre_b = big_value(bpow);
        let ghost pre_e = big_value(exp);
        let rem2 = big_rem(&exp, &two);
        proof {
            lemma_trunc_is_euclid(pre_e, 2);
            lemma_fundamental_div_mod(pre_e, 2);
        }
        if big_eq(&rem2, &one) {
            let t = big_mul(&result, &bpow);
            proof {
                if b0 >= 0 && m > 0 {
                    lemma_mul_nonnegative(pre_r, pre_b);
                    lemma_trunc_is_euclid(big_value(t), m);
                }
            }
            result = big_rem(&t, modulus);
        }
        let sq = big_mul(&bpow, &bpow);
        proof {
            if b0 >= 0 && m > 0 {
                lemma_mul_nonnegative(pre_b, pre_b);
                lemma_trunc_is_euclid(big_value(sq), m);
            }
        }
        bpow = big_rem(&sq, modulus);
        exp = big_div(&exp, &two);
        proof {
            lemma_trunc_is_euclid(pre_e, 2);
            let q = pre_e / 2;
            if b0 >= 0 && m > 0 {
                lemma_pow_mod_noop(pre_b * pre_b, q as nat, m);
                lemma_pow_multiplies(pre_b, 2, q as nat);
                lemma_pow_adds(pre_b, 1, 1);
                lemma_pow1(pre_b);
                assert(pow(pre_b, (2 * q) as nat) == pow(pre_b * pre_b, q as nat));
                if pre_e % 2 == 1 {
                    // One multiply and one squaring happened.
                    lemma_pow_adds(pre_b, (2 * q) as nat, 1);
                    assert(pow(pre_b, pre_e as nat) == pow(pre_b * pre_b, q as nat) * pre_b);
                    assert(pre_r * (pow(pre_b * pre_b, q as nat) * pre_b) == (pre_r * pre_b) * pow(
                        pre_b * pre_b,
                        q as nat,
                    )) by (nonlinear_arith);
                    lemma_mul_mod_congruent(
                        pow((pre_b * pre_b) % m, q as nat),
                        pow(pre_b * pre_b, q as nat),
                        (pre_r * pre_b) % m,
                        m,
                    );
                    lemma_mul_mod_noop_left(pre_r * pre_b, pow(pre_b * pre_b, q as nat), m);
                } else {
                    // Only the squaring happened.
                    lemma_mul_mod_congruent(
                        pow((pre_b * pre_b) % m, q as nat),
                        pow(pre_b * pre_b, q as nat),
                        pre_r,
                        m,
                    );
                    if pre_e > 0 {
                        vstd::arithmetic::div_mod::lemma_div_is_ordered(2, pre_e, 2);
                    }
                }
            }
            vstd::arithmetic::div_mod::lemma_div_is_strictly_smaller(pre_e, 2);
        }
    }
    proof {
        if b0 >= 0 && m > 0 {
            lemma_pow0(big_value(bpow));
            if e0 > 0 {
                lemma_small_mod(big_value(result) as nat, m as nat);
            }
        }
    }
    result
}

/// One Miller-Rabin squaring step `j` passes for witness `a` on candidate
/// `n` when `a ^ (d * 2^j) = n - 1 (mod n)`.
pub open spec fn mr_pass_at(n: int, d: int, a: int, j: int) -> bool {
    pow(a, (d * pow2(j as nat)) as nat) % n == n - 1
}

/// What one Miller-Rabin round concludes for witness `a` on a candidate
/// `n` with `n - 1 = d * 2^s`, `d` odd: the witness passes when
/// `a ^ d = 1 (mod n)` or some squaring step below `s` reaches `n - 1`.
pub open spec fn mr_witness_passes(n: int, d: int, s: int, a: int) -> bool {
    pow(a, d as nat) % n == 1 || exists|j: int| 0 <= j < s && #[trigger] mr_pass_at(n, d, a, j)
}

/// The deterministic core of one Miller-Rabin round: decides exactly
/// whether the drawn witness `a` passes.
pub fn mr_round(n: &BigInt, d: &BigInt, s: &BigInt, a: &BigInt) -> (r: bool)
    requires
        big_value(*n) >= 3,
        big_value(*d) >= 1,
        big_value(*s) >= 1,
    ensures
        r == mr_witness_passes(big_value(*n), big_value(*d), big_value(*s), big_value(*a)),
{
    let ghost nv = big_value(*n);
    let ghost dv = big_value(*d);
    let ghost sv = big_value(*s);
    let ghost av = big_value(*a);
    let one = big_from_u64(1);
    let two = big_from_u64(2);
    let n_minus_1 = big_sub(n, &one);
    let mut x = big_modpow(a, d, n);
    proof {
        lemma2_to64();
        assert(dv * pow2(0) == dv) by (nonlinear_arith)
            requires
                pow2(0) == 1,
        ;
    }
    if big_eq(&x, &one) {
        return true;
    }
    if big_eq(&x, &n_minus_1) {
        proof {
            assert(mr_pass_at(nv, dv, av, 0));
        }
        return true;
    }
    let s_minus_1 = big_sub(s, &one);
    let mut i = big_from_u64(0);
    while big_lt(&i, &s_minus_1)
        invariant
            big_value(one) == 1,
            big_value(two) == 2,
            big_value(*n) == nv,
            big_value(*d) == dv,
            big_value(*s) == sv,
            big_value(*a) == av,
            big_value(n_minus_1) == nv - 1,
            big_value(s_minus_1) == sv - 1,
            nv >= 3,
            dv >= 1,
            sv >= 1,
            0 <= big_value(i) <= sv - 1,
            big_value(x) == pow(av, (dv * pow2(big_value(i) as nat)) as nat) % nv,
            pow(av, dv as nat) % nv != 1,
            forall|j: int| 0 <= j <= big_value(i) ==> !mr_pass_at(nv, dv, av, j),
        decreases sv - big_value(i),
    {
        let ghost p_i = big_value(i);
        let ghost p_x = big_value(x);
        x = big_modpow(&x, &two, n);
        i = big_add(&i, &one);
        proof {
            let e: nat = (dv * pow2(p_i as nat)) as nat;
            lemma_pow_mod_noop(pow(av, e), 2, nv);
            lemma_pow_multiplies(av, e, 2);
            lemma2_to64();
            vstd::arithmetic::power2::lemma_pow2_adds(p_i as nat, 1);
            vstd::arithmetic::power2::lemma_pow2_pos(p_i as nat);
            assert(dv * pow2(p_i as nat) >= 0) by (nonlinear_arith)
                requires
                    dv >= 1,
                    pow2(p_i as nat) >= 1,
            ;
            assert((dv * pow2(p_i as nat)) * 2 == dv * (pow2(p_i as nat) * 2))
                by (nonlinear_arith);
            assert(e * 2 == dv * pow2((p_i + 1) as nat));
            assert(big_value(x) == pow(av, (dv * pow2(big_value(i) as nat)) as nat) % nv);
        }
        if big_eq(&x, &n_minus_1) {
            proof {
                assert(0 <= p_i + 1 < sv);
                assert(mr_pass_at(nv, dv, av, p_i + 1));
                assert(mr_witness_passes(nv, dv, sv, av));
            }
            return true;
        }
    }
    proof {
        assert(forall|j: int| 0 <= j < sv ==> !mr_pass_at(nv, dv, av, j));
    }
    false
}

/// Miller-Rabin probabilistic primality test with `k` rounds of random
/// witnesses. The deterministic short circuits are part of the contract;
/// for odd candidates above three, a `true` answer means every drawn
/// witness passed and carries the usual "probably prime" reading, with a
/// false-positive probability bounded by `4^-k`.
pub fn is_probable_prime(n: &BigInt, k: usize) -> (r: bool)
    ensures
        big_value(*n) <= 1 ==> r == false,
        big_value(*n) == 2 || big_value(*n) == 3 ==> r == true,
        big_value(*n) > 3 && big_value(*n) % 2 == 0 ==> r == false,
        r ==> big_value(*n) == 2 || big_value(*n) == 3 || (big_value(*n) > 3 && big_value(*n) % 2
            == 1),
        k == 0 && big_value(*n) > 3 && big_value(*n) % 2 == 1 ==> r == true,
        !r && big_value(*n) > 3 && big_value(*n) % 2 == 1 && k > 0 ==> exists|d: int, s: int, a: int|
            {
                &&& d >= 1
                &&& d % 2 == 1
                &&& s >= 1
                &&& d * pow2(s as nat) == big_value(*n) - 1
                &&& 2 <= a < big_value(*n) - 2
                &&& !(#[trigger] mr_witness_passes(big_value(*n), d, s, a))
            },
        r && big_value(*n) > 3 && big_value(*n) % 2 == 1 && k > 0 ==> exists|d: int, s: int, a: int|
            {
                &&& d >= 1
                &&& d % 2 == 1
                &&& s >= 1
                &&& d * pow2(s as nat) == big_value(*n) - 1
                &&& 2 <= a < big_value(*n) - 2
                &&& #[trigger] mr_witness_passes(big_value(*n), d, s, a)
            },
{
    let ghost nv = big_value(*n);
    let one = big_from_u64(1);
    if !big_lt(&one, n) {
        return false;
    }
    let two = big_from_u64(2);
    let three = big_from_u64(3);
    if big_eq(n, &two) || big_eq(n, &three) {
        return true;
    }
    if big_is_even(n) {
        return false;
    }
    proof {
        assert(nv >= 5) by {
            vstd::arithmetic::div_mod::lemma_fundamental_div_mod(nv, 2);
        }
    }
    let mut d = big_sub(n, &one);
    let mut s = big_from_u64(0);
    proof {
        lemma2_to64();
        assert((nv - 1) * pow2(0) == nv - 1) by (nonlinear_arith)
            requires
                pow2(0) == 1,
        ;
    }
    while big_is_even(&d)
        invariant
            big_value(one) == 1,
            big_value(two) == 2,
            big_value(*n) == nv,
            nv >= 5,
            nv % 2 == 1,
            big_value(d) >= 1,
            big_value(s) >= 0,
            big_value(d) * pow2(big_value(s) as nat) == nv - 1,
        decreases big_value(d),
    {
        let ghost pd = big_value(d);
        let ghost ps = big_value(s);
        d = big_div(&d, &two);
        s = big_add(&s, &one);
        proof {
            lemma_trunc_is_euclid(pd, 2);
            lemma_fundamental_div_mod(pd, 2);
            lemma2_to64();
            vstd::arithmetic::power2::lemma_pow2_adds(ps as nat, 1);
            assert((pd / 2) * pow2((ps + 1) as nat) == nv - 1) by (nonlinear_arith)
                requires
                    pd == 2 * (pd / 2),
                    pow2((ps + 1) as nat) == pow2(ps as nat) * 2,
                    pd * pow2(ps as nat) == nv - 1,
            ;
            vstd::arithmetic::div_mod::lemma_div_is_ordered(2, pd, 2);
            vstd::arithmetic::div_mod::lemma_div_is_strictly_smaller(pd, 2);
        }
    }
    proof {
        // The factor count is at least one: `n - 1` is even while `d` is odd.
        if big_value(s) == 0 {
            lemma2_to64();
            assert(big_value(d) * pow2(0) == big_value(d)) by (nonlinear_arith)
                requires
                    pow2(0) == 1,
            ;
            lemma_fundamental_div_mod(nv, 2);
            lemma_fundamental_div_mod(nv - 1, 2);
        }
        assert(big_value(s) >= 1);
    }
    let n_minus_2 = big_sub(n, &two);
    let mut rng = rng_new();
    let mut round: usize = 0;
    let ghost mut last_witness: int = 0;
    while round < k
        invariant
            big_value(two) == 2,
            big_value(*n) == nv,
            nv >= 5,
            nv % 2 == 1,
            big_value(d) >= 1,
            big_value(d) % 2 == 1,
            big_value(s) >= 1,
            big_value(d) * pow2(big_value(s) as nat) == nv - 1,
            big_value(n_minus_2) == nv - 2,
            round <= k,
            round > 0 ==> 2 <= last_witness < nv - 2 && mr_witness_passes(
                nv,
                big_value(d),
                big_value(s),
                last_witness,
            ),
        decreases k - round,
    {
        let a = big_random_range(&mut rng, &two, &n_minus_2);
        if !mr_round(n, &d, &s, &a) {
            proof {
                // The rejection carries this failing witness.
                assert(!mr_witness_passes(nv, big_value(d), big_value(s), big_value(a)));
            }
            return false;
        }
        proof {
            last_witness = big_value(a);
        }
        round = round + 1;
    }
    proof {
        if k > 0 {
            // Acceptance carries the last round's passing witness.
            assert(mr_witness_passes(nv, big_value(d), big_value(s), last_witness));
        }
    }
    true
}

/// Rejection sampling of a probable prime of exactly `bit_length` bits:
/// draw a random integer of that size, retry until one has the exact bit
/// length and passes twenty Miller-Rabin rounds. Prime density makes
/// success overwhelmingly likely long before the attempt budget runs out;
/// the budget exists so that every loop provably terminates, and `None`
/// reports the practically unreachable case of its exhaustion.
pub fn generate_prime(bit_length: usize) -> (r: Option<BigInt>)
    ensures
        r matches Some(p) ==> {
            &&& big_value(p) >= 2
            &&& big_value(p) == 2 || big_value(p) == 3 || big_value(p) % 2 == 1
            &&& bit_length >= 2
            &&& pow2((bit_length - 1) as nat) <= big_value(p)
            &&& big_value(p) < pow2(bit_length as nat)
        },
{
    let mut rng = rng_new();
    let mut fuel: u64 = u64::MAX;
    while fuel > 0
        decreases fuel,
    {
        fuel = fuel - 1;
        let cand = big_random_bits(&mut rng, bit_length as u64);
        let bits = big_bits(&cand);
        if bits == bit_length as u64 {
            if is_probable_prime(&cand, 20) {
                proof {
                    lemma2_to64();
                    if bits <= 1 {
                        vstd::arithmetic::power2::lemma_pow2_adds(0, bits as nat);
                    }
                    assert(bits >= 2);
                }
                return Some(cand);
            }
        }
    }
    None
}

} // verus!
