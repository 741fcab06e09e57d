use textbook_crypto::modular::{fast_exponentiation, MAX_MODULUS};
use textbook_crypto::primality::{is_prime, is_strong_probable_prime, miller_rabin, random_prime};
use textbook_crypto::CryptoError;

fn reference_pow_mod(x: i128, e: i128, n: i128) -> i128 {
    let mut acc: i128 = 1 % n;
    for _ in 0..e {
        acc = acc * x.rem_euclid(n) % n;
    }
    acc
}

fn naive_is_prime(n: i128) -> bool {
    n > 1 && (2..n).all(|d| n % d != 0)
}

#[test]
fn fast_exponentiation_exact_values() {
    assert_eq!(fast_exponentiation(2, 10, 1000), Ok(24));
    assert_eq!(fast_exponentiation(3, 200, 13), Ok(9));
    assert_eq!(fast_exponentiation(7, 0, 13), Ok(1));
    assert_eq!(fast_exponentiation(0, 5, 13), Ok(0));
    assert_eq!(fast_exponentiation(0, 0, 13), Ok(1));
    assert_eq!(fast_exponentiation(5, 3, 1), Ok(0));
}

#[test]
fn fast_exponentiation_matches_reference() {
    for x in -20..20i128 {
        for e in 0..25i128 {
            for n in 1..30i128 {
                assert_eq!(fast_exponentiation(x, e, n), Ok(reference_pow_mod(x, e, n)));
            }
        }
    }
}

#[test]
fn fast_exponentiation_negative_base() {
    assert_eq!(fast_exponentiation(-2, 1, 5), Ok(3));
    assert_eq!(fast_exponentiation(-2, 3, 5), Ok(2));
    assert_eq!(fast_exponentiation(-7, 0, 5), Ok(1));
    assert_eq!(fast_exponentiation(i128::MIN, 2, 7), Ok(i128::MIN.rem_euclid(7).pow(2) % 7));
}

#[test]
fn fast_exponentiation_rejects_bad_modulus() {
    assert_eq!(fast_exponentiation(2, 3, 0), Err(CryptoError::InvalidInput));
    assert_eq!(fast_exponentiation(2, 3, -5), Err(CryptoError::InvalidInput));
    assert_eq!(fast_exponentiation(2, -1, 5), Err(CryptoError::InvalidInput));
    assert_eq!(fast_exponentiation(2, 3, MAX_MODULUS + 1), Err(CryptoError::InvalidInput));
}

#[test]
fn fast_exponentiation_largest_modulus() {
    let n = MAX_MODULUS;
    assert_eq!(fast_exponentiation(n - 1, 2, n), Ok(1));
    assert_eq!(fast_exponentiation(n - 1, 3, n), Ok(n - 1));
}

#[test]
fn is_prime_small_values() {
    assert!(!is_prime(-7));
    assert!(!is_prime(0));
    assert!(!is_prime(1));
    assert!(is_prime(2));
    assert!(is_prime(3));
    assert!(!is_prime(4));
    assert!(!is_prime(9));
    assert!(!is_prime(25));
    assert!(is_prime(7919));
    assert!(!is_prime(7917));
}

#[test]
fn is_prime_agrees_with_naive_check() {
    for n in -5..2000i128 {
        assert_eq!(is_prime(n), naive_is_prime(n), "n = {}", n);
    }
}

#[test]
fn miller_rabin_accepts_primes_and_rejects_composites_below_ten_thousand() {
    for n in 3..10000i128 {
        let result = miller_rabin(n, 20);
        if n % 2 == 1 && is_prime(n) {
            assert!(result, "prime {} rejected", n);
        }
        if !is_prime(n) {
            assert!(!result, "composite {} accepted", n);
        }
    }
}

#[test]
fn miller_rabin_rejects_even_numbers() {
    assert!(!miller_rabin(2, 20));
    assert!(!miller_rabin(1000, 20));
    assert!(!miller_rabin(0, 20));
    assert!(!miller_rabin(-4, 20));
}

#[test]
fn miller_rabin_rejects_values_below_three() {
    assert!(!miller_rabin(1, 20));
    assert!(!miller_rabin(-7, 20));
    assert!(miller_rabin(3, 20));
    assert!(miller_rabin(9, 0));
}

#[test]
fn strong_probable_prime_rounds() {
    assert!(!is_strong_probable_prime(561, 2));
    assert!(is_strong_probable_prime(13, 2));
    assert!(is_strong_probable_prime(2047, 2));
    assert!(!is_strong_probable_prime(2047, 3));
}

#[test]
fn random_prime_in_range() {
    for _ in 0..20 {
        let p = random_prime(1000, 10000).unwrap();
        assert!((1000..=10000).contains(&p));
        assert!(is_prime(p));
    }
}

#[test]
fn random_prime_single_prime_range() {
    assert_eq!(random_prime(7919, 7919), Ok(7919));
}

#[test]
fn random_prime_rejects_bad_ranges() {
    assert_eq!(random_prime(10, 5), Err(CryptoError::InvalidInput));
    assert_eq!(random_prime(1, 5), Err(CryptoError::InvalidInput));
    assert_eq!(random_prime(3, MAX_MODULUS + 1), Err(CryptoError::InvalidInput));
}

#[test]
fn random_prime_exhausts_on_range_without_primes() {
    assert_eq!(random_prime(24, 28), Err(CryptoError::SearchExhausted));
}
