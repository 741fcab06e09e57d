use textbook_crypto::rsa::{
    decrypt, encrypt, euclid, extended_euclid, find_encryption_component, find_inverse, generate_pqn, intercept,
};
use textbook_crypto::primality::is_prime;
use textbook_crypto::CryptoError;

fn naive_gcd(a: i128, b: i128) -> i128 {
    let (a, b) = (a.abs(), b.abs());
    if b == 0 { a } else { naive_gcd(b, a % b) }
}

#[test]
fn euclid_values() {
    assert_eq!(euclid(48, 18), 6);
    assert_eq!(euclid(18, 48), 6);
    assert_eq!(euclid(17, 5), 1);
    assert_eq!(euclid(0, 5), 5);
    assert_eq!(euclid(7, 0), 7);
    assert_eq!(euclid(12, 12), 12);
    assert_eq!(euclid(-4, 6), 2);
    assert_eq!(euclid(-48, -18), 6);
    assert_eq!(euclid(0, -5), 5);
}

#[test]
fn extended_euclid_bezout_battery() {
    let pairs: [(i128, i128); 16] = [
        (0, 0), (0, 7), (7, 0), (1, 1), (240, 46), (46, 240), (17, 3120), (99, 78), (1, 100), (65537, 3120),
        (-3, 6), (0, -5), (-240, 46), (240, -46), (-17, -3120), (-1, 0),
    ];
    for (a, b) in pairs {
        let (x, y) = extended_euclid(a, b);
        assert_eq!(a * x + b * y, naive_gcd(a, b), "a = {}, b = {}", a, b);
    }
    assert_eq!(extended_euclid(0, 9), (0, 1));
    assert_eq!(extended_euclid(3, 11), (4, -1));
    assert_eq!(extended_euclid(-3, 11), (-4, -1));
}

#[test]
fn find_inverse_values() {
    assert_eq!(find_inverse(3, 11), Ok(4));
    assert_eq!(find_inverse(17, 3120), Ok(2753));
    assert_eq!(find_inverse(4, 8), Err(CryptoError::InvalidInput));
    assert_eq!(find_inverse(0, 8), Err(CryptoError::InvalidInput));
    assert_eq!(find_inverse(-3, 20), Ok(13));
    assert_eq!(find_inverse(-4, 8), Err(CryptoError::InvalidInput));
}

#[test]
fn find_inverse_law() {
    for m in 2..60i128 {
        for a in -60..60i128 {
            match find_inverse(a, m) {
                Ok(x) => {
                    assert!(0 <= x && x < m);
                    assert_eq!((a * x).rem_euclid(m), 1);
                }
                Err(e) => {
                    assert_eq!(e, CryptoError::InvalidInput);
                    assert_ne!(naive_gcd(a, m), 1);
                }
            }
        }
    }
}

#[test]
fn rsa_known_vector() {
    assert_eq!(encrypt(65, 17, 3233), 2790);
    assert_eq!(decrypt(2790, 3233, 2753), 65);
}

#[test]
fn rsa_round_trip_small_key() {
    let (p, q) = (61i128, 53i128);
    let n = p * q;
    let phi = (p - 1) * (q - 1);
    let e = 17;
    let d = find_inverse(e, phi).unwrap();
    for m in 0..n {
        assert_eq!(decrypt(encrypt(m, e, n), n, d), m);
    }
}

#[test]
fn generate_pqn_material() {
    let (p, q, n, phi) = generate_pqn(1000, 10000).unwrap();
    assert!(is_prime(p) && is_prime(q));
    assert!((1000..=10000).contains(&p) && (1000..=10000).contains(&q));
    assert_eq!(n, p * q);
    assert_eq!(phi, (p - 1) * (q - 1));
    assert_eq!(generate_pqn(10, 5), Err(CryptoError::InvalidInput));
    assert_eq!(generate_pqn(61, 61), Ok((61, 61, 3721, 3600)));
}

#[test]
fn encryption_component_is_coprime() {
    for _ in 0..20 {
        let e = find_encryption_component(3120).unwrap();
        assert!(1 <= e && e < 3120);
        assert_eq!(euclid(e, 3120), 1);
    }
    assert_eq!(find_encryption_component(1), Err(CryptoError::InvalidInput));
    let e = find_encryption_component(7919).unwrap();
    assert!(1 <= e && e < 7919);
}

#[test]
fn intercept_recovers_plaintext() {
    assert_eq!(intercept(2790, 3233, 17), Ok(65));
    let c = encrypt(1234, 65537, 1009 * 1013);
    assert_eq!(intercept(c, 1009 * 1013, 65537), Ok(1234));
}

#[test]
fn intercept_rejects_unfactorable_keys() {
    assert_eq!(intercept(5, 7919, 17), Err(CryptoError::InvalidInput));
    assert_eq!(intercept(5, 4, 3), Err(CryptoError::InvalidInput));
    assert_eq!(intercept(5, 3233, 60), Err(CryptoError::InvalidInput));
}
