use textbook_crypto::elgamal::{
    baby_step_giant_step, elgamal_decrypt, elgamal_encrypt, elgamal_gen_public_key, elgamal_intercept,
    fast_exponentiation, find_inverse, find_primitive_root, find_rand_primitive_root, get_prime_factors,
    is_primitive_root,
};
use textbook_crypto::CryptoError;

fn multiplicative_order(g: i128, p: i128) -> i128 {
    let mut acc = g % p;
    let mut k = 1;
    while acc != 1 {
        acc = acc * g % p;
        k += 1;
    }
    k
}

#[test]
fn prime_factors_of_p_minus_one() {
    assert_eq!(get_prime_factors(31), vec![2, 3, 5]);
    assert_eq!(get_prime_factors(29), vec![2]);
    assert_eq!(get_prime_factors(7), vec![2, 3]);
    assert_eq!(get_prime_factors(2), Vec::<i128>::new());
    assert_eq!(get_prime_factors(211), vec![2, 3, 5, 7]);
}

#[test]
fn primitive_roots() {
    assert!(is_primitive_root(29, 2));
    assert!(!is_primitive_root(29, 12));
    assert!(!is_primitive_root(7, 2));
    assert!(is_primitive_root(7, 3));
    assert_eq!(find_primitive_root(7), Some(3));
    assert_eq!(find_primitive_root(29), Some(2));
    assert_eq!(find_primitive_root(2), None);
}

#[test]
fn random_primitive_root() {
    for _ in 0..10 {
        let g = find_rand_primitive_root(29).unwrap();
        assert!(2 <= g && g < 29);
        assert!(is_primitive_root(29, g));
    }
}

#[test]
fn fermat_inverse() {
    assert_eq!(find_inverse(3, 11), Ok(4));
    assert_eq!(find_inverse(11, 29), Ok(8));
    assert_eq!(find_inverse(-3, 11), Ok(7));
    assert_eq!(find_inverse(58, 29), Err(CryptoError::InvalidInput));
}

#[test]
fn elgamal_round_trip_small_values() {
    let public_key = elgamal_gen_public_key(29, 2, 5);
    assert_eq!(public_key, 3);
    let cipher = elgamal_encrypt(10, 3, 5, 29);
    assert_eq!(cipher, 23);
    assert_eq!(elgamal_decrypt(cipher, 3, 5, 29), Ok(10));
    assert_eq!(elgamal_decrypt(cipher, 29, 5, 29), Err(CryptoError::InvalidInput));
}

#[test]
fn elgamal_round_trip_all_messages() {
    let p = 787;
    let g = find_primitive_root(p).unwrap();
    let recipient_pub = elgamal_gen_public_key(p, g, 123);
    for m in 0..p {
        let c = elgamal_encrypt(m, recipient_pub, 45, p);
        assert_eq!(elgamal_decrypt(c, recipient_pub, 45, p), Ok(m));
    }
}

#[test]
fn baby_step_giant_step_known_triple() {
    let target = fast_exponentiation(2, 5, 29).unwrap();
    assert_eq!(target, 3);
    assert_eq!(baby_step_giant_step(2, target, 29), Some(5));
}

#[test]
fn baby_step_giant_step_recovers_exponents() {
    let p = 787;
    let g = (2..p).find(|&b| multiplicative_order(b, p) == p - 1).unwrap();
    for k in 0..(p - 1) {
        let target = fast_exponentiation(g, k, p).unwrap();
        assert_eq!(baby_step_giant_step(g, target, p), Some(k));
    }
}

#[test]
fn baby_step_giant_step_no_match() {
    assert_eq!(baby_step_giant_step(1, 2, 29), None);
}

#[test]
fn elgamal_intercept_recovers_plaintext() {
    assert_eq!(elgamal_intercept(23, 2, 3, 3, 29), Ok(10));
    assert_eq!(elgamal_intercept(23, 1, 2, 3, 29), Err(CryptoError::SearchExhausted));
    assert_eq!(elgamal_intercept(23, 2, 3, 58, 29), Err(CryptoError::InvalidInput));
}
