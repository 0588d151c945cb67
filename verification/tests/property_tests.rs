use num_bigint::BigInt;
use paillier::{add_encrypted, additive_inverse, decrypt, encrypt, generate_keypair};
use paillier::utils::{generate_prime, is_probable_prime, l, lcm, mod_inverse, mod_pow};

fn is_prime_by_trial_division(n: u64) -> bool {
    if n < 2 {
        return false;
    }
    let mut d: u64 = 2;
    while d * d <= n {
        if n % d == 0 {
            return false;
        }
        d += 1;
    }
    true
}

#[test]
fn test_primality_matches_trial_division_below_ten_thousand() {
    for n in 0u64..10_000 {
        let candidate = BigInt::from(n);
        assert_eq!(
            is_probable_prime(&candidate, 20),
            is_prime_by_trial_division(n),
            "primality disagreement at {}",
            n
        );
    }
}

#[test]
fn test_roundtrip_edge_plaintexts() {
    let (public_key, private_key) =
        generate_keypair(256).expect("prime generation budget exhausted");
    let zero = BigInt::from(0);
    assert_eq!(decrypt(&private_key, &encrypt(&public_key, &zero)), zero);
    let largest = public_key.n() - &BigInt::from(1);
    assert_eq!(
        decrypt(&private_key, &encrypt(&public_key, &largest)),
        largest
    );
}

#[test]
fn test_encryption_is_randomized_yet_decrypts_alike() {
    let (public_key, private_key) =
        generate_keypair(256).expect("prime generation budget exhausted");
    let message = BigInt::from(1234);
    let c1 = encrypt(&public_key, &message);
    let c2 = encrypt(&public_key, &message);
    assert_ne!(c1, c2);
    assert_eq!(decrypt(&private_key, &c1), message);
    assert_eq!(decrypt(&private_key, &c2), message);
}

#[test]
fn test_key_validity() {
    let bit_length: u64 = 512;
    let (public_key, private_key) =
        generate_keypair(bit_length as usize).expect("prime generation budget exhausted");
    let n_bits = public_key.n().bits();
    assert!(n_bits == bit_length || n_bits == bit_length - 1);
    let expected_g = public_key.n() + &BigInt::from(1);
    assert_eq!(public_key.g(), &expected_g);
    assert_eq!(private_key.public_key().n(), public_key.n());
    assert_eq!(private_key.public_key().g(), public_key.g());
}

#[test]
fn test_additive_inverse_cancels() {
    let (public_key, private_key) =
        generate_keypair(256).expect("prime generation budget exhausted");
    let message = BigInt::from(7);
    let c = encrypt(&public_key, &message);
    let neg = additive_inverse(&public_key, &c);
    let cancelled = add_encrypted(&public_key, &c, &neg);
    assert_eq!(decrypt(&private_key, &cancelled), BigInt::from(0));
}

#[test]
fn test_concrete_homomorphic_scenario() {
    let (public_key, private_key) =
        generate_keypair(1024).expect("prime generation budget exhausted");
    let m1 = BigInt::from(15);
    let m2 = BigInt::from(20);
    let c1 = encrypt(&public_key, &m1);
    let c2 = encrypt(&public_key, &m2);
    let c_sum = add_encrypted(&public_key, &c1, &c2);
    assert_eq!(decrypt(&private_key, &c_sum), BigInt::from(35));
    let m3 = BigInt::from(10);
    let c3 = encrypt(&public_key, &m3);
    let c_diff = paillier::subtract_encrypted(&public_key, &c1, &c3);
    assert_eq!(decrypt(&private_key, &c_diff), BigInt::from(5));
}

#[test]
fn test_generated_prime_has_exact_bit_length() {
    let p = generate_prime(16).expect("prime generation budget exhausted");
    assert_eq!(p.bits(), 16);
    assert!(is_probable_prime(&p, 20));
}

#[test]
fn test_number_theory_exact_values() {
    assert_eq!(lcm(&BigInt::from(4), &BigInt::from(6)), BigInt::from(12));
    assert_eq!(lcm(&BigInt::from(7), &BigInt::from(3)), BigInt::from(21));
    assert_eq!(l(&BigInt::from(20), &BigInt::from(10)), BigInt::from(1));
    assert_eq!(l(&BigInt::from(21), &BigInt::from(10)), BigInt::from(2));
    assert_eq!(
        mod_inverse(&BigInt::from(3), &BigInt::from(11)),
        BigInt::from(4)
    );
    assert_eq!(
        mod_inverse(&BigInt::from(271), &BigInt::from(383)),
        BigInt::from(106)
    );
    assert_eq!(
        mod_pow(&BigInt::from(2), &BigInt::from(10), &BigInt::from(1000)),
        BigInt::from(24)
    );
    assert_eq!(
        mod_pow(&BigInt::from(5), &BigInt::from(0), &BigInt::from(7)),
        BigInt::from(1)
    );
    assert_eq!(
        mod_pow(&BigInt::from(0), &BigInt::from(0), &BigInt::from(9)),
        BigInt::from(1)
    );
    assert_eq!(
        mod_pow(&BigInt::from(7), &BigInt::from(128), &BigInt::from(13)),
        BigInt::from(3)
    );
}
