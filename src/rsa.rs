//! Euclid's algorithms, modular inverses, and textbook RSA with a factoring attack.

use vstd::prelude::*;
use vstd::arithmetic::div_mod::*;
use vstd::arithmetic::mul::*;
use crate::modular::{MAX_MODULUS, mod_pow, pow_mod, reduce_mod};
pub use crate::modular::fast_exponentiation;
pub use crate::primality::{miller_rabin, random_prime};
use crate::random::random_in_range;
use crate::CryptoError;
use crate::primality::is_prime_spec;

verus! {

/// Greatest common divisor, by Euclid's recurrence.
pub open spec fn gcd(a: nat, b: nat) -> nat
    decreases b,
{
    if b == 0 {
        a
    } else {
        gcd(b, a % b)
    }
}

/// The larger of 1 and `v`: the bound on a Bezout coefficient.
pub open spec fn at_least_one(v: int) -> int {
    if v < 1 { 1 } else { v }
}

/// `gcd` does not depend on the order of its arguments.
pub proof fn lemma_gcd_symmetric(a: nat, b: nat)
    ensures
        gcd(a, b) == gcd(b, a),
{
    if a < b {
        lemma_small_mod(a, b);
        if a == 0 {
            assert(gcd(0, b) == gcd(b, 0));
        }
    } else if a > b {
        lemma_small_mod(b, a);
        if b == 0 {
            assert(gcd(0, a) == gcd(a, 0));
        }
    }
}

pub(crate) proof fn lemma_multiple_of(x: int, d: int)
    requires
        d > 0,
        x % d == 0,
    ensures
        x == d * (x / d),
{
    lemma_fundamental_div_mod(x, d);
}

/// `gcd(a, b)` is the greatest common divisor of `a` and `b`: it divides
/// both, and every positive common divisor divides it. It is positive unless
/// both are zero.
pub proof fn lemma_gcd_is_greatest_common_divisor(a: nat, b: nat)
    ensures
        a + b > 0 ==> gcd(a, b) > 0,
        gcd(a, b) > 0 ==> a % gcd(a, b) == 0 && b % gcd(a, b) == 0,
        forall|d: nat| d > 0 && a % d == 0 && b % d == 0 ==> #[trigger] (gcd(a, b) % d) == 0,
    decreases b,
{
    if b == 0 {
        if a > 0 {
            lemma_mod_self_0(a as int);
        }
        assert forall|d: nat| d > 0 && a % d == 0 && b % d == 0 implies #[trigger] (gcd(a, b) % d) == 0 by {}
    } else {
        lemma_gcd_is_greatest_common_divisor(b, a % b);
        let (ai, bi) = (a as int, b as int);
        let r = ai % bi;
        let g = gcd(b, a % b) as int;
        let q = ai / bi;
        lemma_fundamental_div_mod(ai, bi);
        lemma_multiple_of(bi, g);
        lemma_multiple_of(r, g);
        assert(ai == g * ((bi / g) * q + r / g)) by (nonlinear_arith)
            requires
                ai == bi * q + r,
                bi == g * (bi / g),
                r == g * (r / g),
        ;
        lemma_mul_is_commutative(g, (bi / g) * q + r / g);
        lemma_mod_multiples_basic((bi / g) * q + r / g, g);
        assert forall|d: nat| d > 0 && a % d == 0 && b % d == 0 implies #[trigger] (gcd(a, b) % d) == 0 by {
            let di = d as int;
            lemma_multiple_of(ai, di);
            lemma_multiple_of(bi, di);
            assert(r == di * (ai / di - (bi / di) * q)) by (nonlinear_arith)
                requires
                    ai == bi * q + r,
                    ai == di * (ai / di),
                    bi == di * (bi / di),
            ;
            lemma_mul_is_commutative(di, ai / di - (bi / di) * q);
            lemma_mod_multiples_basic(ai / di - (bi / di) * q, di);
        }
    }
}

/// Greatest common divisor of two non-negative integers.
fn gcd_nonneg(val_1: i128, val_2: i128) -> (r: i128)
    requires
        0 <= val_1,
        0 <= val_2,
    ensures
        r == gcd(val_1 as nat, val_2 as nat),
    decreases
            if val_1 < val_2 { val_1 } else { val_2 },
{
    let x: i128;
    let y: i128;
    if val_1 > val_2 {
        x = val_1;
        y = val_2;
    } else {
        x = val_2;
        y = val_1;
    }
    proof {
        lemma_gcd_symmetric(val_1 as nat, val_2 as nat);
    }
    if y == 0 {
        return x;
    }
    let z = x % y;
    assert(gcd(x as nat, y as nat) == gcd(y as nat, z as nat));
    if z == 0 {
        y
    } else if z == 1 {
        assert(gcd(1, 0) == 1);
        assert(gcd(y as nat, 1) == gcd(1, (y % 1) as nat));
        1
    } else {
        gcd_nonneg(y, z)
    }
}

/// The recursive extended Euclidean algorithm on non-negative integers:
/// `(0, 1)` for `a == 0`, else `(y1 - (b / a) * x1, x1)` where
/// `(x1, y1)` is the pair for `(b % a, a)`.
pub open spec fn bezout_pair(a: nat, b: nat) -> (int, int)
    decreases a,
{
    if a == 0 {
        (0, 1)
    } else {
        let (x1, y1) = bezout_pair(b % a, a);
        (y1 - (b / a) as int * x1, x1)
    }
}

/// The absolute value of `v`.
pub open spec fn magnitude(v: int) -> nat {
    if v < 0 { (-v) as nat } else { v as nat }
}

/// The sign of `v` as a factor: -1 for a negative `v`, else 1.
pub open spec fn sign_of(v: int) -> int {
    if v < 0 { -1 } else { 1 }
}

proof fn lemma_divides_combination(d: int, u: int, v: int, k: int, w: int)
    requires
        d > 0,
        u % d == 0,
        v % d == 0,
        w == k * u + v || w == -(k * u + v),
    ensures
        w % d == 0,
{
    lemma_multiple_of(u, d);
    lemma_multiple_of(v, d);
    let c = if w == k * u + v { k * (u / d) + v / d } else { -(k * (u / d) + v / d) };
    assert(w == c * d) by (nonlinear_arith)
        requires
            u == d * (u / d),
            v == d * (v / d),
            w == k * u + v || w == -(k * u + v),
            c == if w == k * u + v { k * (u / d) + v / d } else { -(k * (u / d) + v / d) },
    ;
    lemma_mod_multiples_basic(c, d);
}

/// Reducing `a` modulo `m` keeps its greatest common divisor with `m`.
pub proof fn lemma_gcd_of_residue(a: int, m: int)
    requires
        m > 0,
    ensures
        gcd(magnitude(a), m as nat) == gcd((a % m) as nat, m as nat),
{
    let r = a % m;
    let q = a / m;
    lemma_fundamental_div_mod(a, m);
    let ma = magnitude(a) as int;
    let g1 = gcd(magnitude(a), m as nat) as int;
    let g2 = gcd(r as nat, m as nat) as int;
    lemma_gcd_is_greatest_common_divisor(magnitude(a), m as nat);
    lemma_gcd_is_greatest_common_divisor(r as nat, m as nat);
    assert((-q) * m == -(m * q) && q * m == m * q) by (nonlinear_arith);
    if a >= 0 {
        lemma_divides_combination(g1, m, ma, -q, r);
    } else {
        lemma_divides_combination(g1, ma, 0, -1, -ma);
        lemma_divides_combination(g1, m, -ma, -q, r);
    }
    assert(ma == q * m + r || ma == -(q * m + r));
    lemma_divides_combination(g2, m, r, q, ma);
    assert(g2 % g1 == 0);
    assert(g1 % g2 == 0);
    lemma_mod_is_zero(g2 as nat, g1 as nat);
    lemma_mod_is_zero(g1 as nat, g2 as nat);
}

/// Greatest common divisor of two integers of any sign (non-negative).
pub fn euclid(val_1: i128, val_2: i128) -> (r: i128)
    requires
        val_1 > i128::MIN,
        val_2 > i128::MIN,
    ensures
        r == gcd(magnitude(val_1 as int), magnitude(val_2 as int)),
{
    let a = if val_1 < 0 { -val_1 } else { val_1 };
    let b = if val_2 < 0 { -val_2 } else { val_2 };
    gcd_nonneg(a, b)
}

/// Bezout coefficients `(x, y)` with `a*x + b*y == gcd(|a|, |b|)` for
/// integers of any sign: the recursive extended Euclidean algorithm on
/// `|a|` and `|b|`, each coefficient then carrying its argument's sign.
pub fn extended_euclid(a: i128, b: i128) -> (r: (i128, i128))
    requires
        -MAX_MODULUS <= a <= MAX_MODULUS,
        -MAX_MODULUS <= b <= MAX_MODULUS,
    ensures
        a * r.0 + b * r.1 == gcd(magnitude(a as int), magnitude(b as int)),
        r.0 == sign_of(a as int) * bezout_pair(magnitude(a as int), magnitude(b as int)).0,
        r.1 == sign_of(b as int) * bezout_pair(magnitude(a as int), magnitude(b as int)).1,
{
    let ma = if a < 0 { -a } else { a };
    let mb = if b < 0 { -b } else { b };
    let (x, y) = extended_euclid_nonneg(ma, mb);
    let rx = if a < 0 { -x } else { x };
    let ry = if b < 0 { -y } else { y };
    proof {
        assert(a * rx == ma * x) by (nonlinear_arith)
            requires
                (a < 0 && ma == -a && rx == -x) || (a >= 0 && ma == a && rx == x),
        ;
        assert(b * ry == mb * y) by (nonlinear_arith)
            requires
                (b < 0 && mb == -b && ry == -y) || (b >= 0 && mb == b && ry == y),
        ;
    }
    (rx, ry)
}

fn extended_euclid_nonneg(a: i128, b: i128) -> (r: (i128, i128))
    requires
        0 <= a <= MAX_MODULUS,
        0 <= b <= MAX_MODULUS,
    ensures
        r.0 == bezout_pair(a as nat, b as nat).0,
        r.1 == bezout_pair(a as nat, b as nat).1,
        a * r.0 + b * r.1 == gcd(a as nat, b as nat),
        -at_least_one(b as int) <= r.0 <= at_least_one(b as int),
        -at_least_one(a as int) <= r.1 <= at_least_one(a as int),
        a == 0 ==> r.0 == 0 && r.1 == 1,
    decreases a,
{
    if a == 0 {
        assert(gcd(0, b as nat) == b) by {
            if b > 0 {
                assert(gcd(0, b as nat) == gcd(b as nat, 0));
            }
        }
        return (0, 1);
    }
    let (x1, y1) = extended_euclid_nonneg(b % a, a);
    let q = b / a;
    proof {
        let rem = b % a;
        lemma_fundamental_div_mod(b as int, a as int);
        lemma_gcd_symmetric(a as nat, b as nat);
        assert(gcd(b as nat, a as nat) == gcd(a as nat, rem as nat));
        lemma_gcd_symmetric(a as nat, rem as nat);
        assert(0 <= q <= b) by {
            lemma_div_pos_is_pos(b as int, a as int);
            lemma_div_is_ordered_by_denominator(b as int, 1, a as int);
        }
        assert(-MAX_MODULUS * MAX_MODULUS <= q * x1 <= MAX_MODULUS * MAX_MODULUS) by (nonlinear_arith)
            requires
                0 <= q <= MAX_MODULUS,
                -MAX_MODULUS <= x1 <= MAX_MODULUS,
        ;
        assert(a * (y1 - q * x1) + b * x1 == rem * x1 + a * y1) by (nonlinear_arith)
            requires
                b == a * q + rem,
        ;
        if rem == 0 {
            assert(x1 == 0 && y1 == 1);
            lemma_mul_basics(q as int);
        } else {
            assert(-b <= y1 - q * x1 <= b) by (nonlinear_arith)
                requires
                    b == a * q + rem,
                    0 <= q,
                    -a <= x1 <= a,
                    -rem <= y1 <= rem,
            ;
        }
    }
    (y1 - q * x1, x1)
}

/// The inverse of `val_1` modulo `val_2`, in `[0, val_2)`; it exists exactly
/// when the two are coprime.
pub fn find_inverse(val_1: i128, val_2: i128) -> (r: Result<i128, CryptoError>)
    requires
        2 <= val_2 <= MAX_MODULUS,
    ensures
        r is Ok <==> gcd(magnitude(val_1 as int), val_2 as nat) == 1,
        r matches Ok(x) ==> 0 <= x < val_2 && (val_1 * x) % (val_2 as int) == 1,
        r matches Err(e) ==> e == CryptoError::InvalidInput,
{
    let a = reduce_mod(val_1, val_2);
    proof {
        lemma_gcd_of_residue(val_1 as int, val_2 as int);
    }
    match find_inverse_reduced(a, val_2) {
        Ok(x) => {
            proof {
                lemma_mul_mod_noop_left(val_1 as int, x as int, val_2 as int);
            }
            Ok(x)
        },
        Err(e) => Err(e),
    }
}

/// The inverse of a residue `val_1 < val_2`, by extended Euclid.
fn find_inverse_reduced(val_1: i128, val_2: i128) -> (r: Result<i128, CryptoError>)
    requires
        0 <= val_1 < val_2,
        2 <= val_2 <= MAX_MODULUS,
    ensures
        r is Ok <==> gcd(val_1 as nat, val_2 as nat) == 1,
        r matches Ok(x) ==> 0 <= x < val_2 && (val_1 * x) % (val_2 as int) == 1,
        r matches Err(e) ==> e == CryptoError::InvalidInput,
{
    if gcd_nonneg(val_1, val_2) != 1 {
        return Err(CryptoError::InvalidInput);
    }
    let (x0, y0) = extended_euclid_nonneg(val_1, val_2);
    let mut x: i128 = x0;
    let ghost mut y: int = y0 as int;
    while x < 0
        invariant
            val_1 * x + val_2 * y == 1,
            -val_2 <= x <= val_2,
            x == x0 || 0 <= x < val_2,
            x == x0 || x0 < 0,
            2 <= val_2 <= MAX_MODULUS,
            0 <= val_1 <= MAX_MODULUS,
        decreases val_2 - x,
    {
        proof {
            assert(val_1 * (x + val_2) + val_2 * (y - val_1) == val_1 * x + val_2 * y) by (nonlinear_arith);
            y = y - val_1;
        }
        x = x + val_2;
    }
    proof {
        if x == val_2 {
            assert(val_2 * (val_1 + y) == 1) by (nonlinear_arith)
                requires
                    val_1 * x + val_2 * y == 1,
                    x == val_2,
            ;
            assert(false) by (nonlinear_arith)
                requires
                    val_2 * (val_1 + y) == 1,
                    val_2 >= 2,
            ;
        }
        assert(val_1 * x == val_2 * (-y) + 1) by (nonlinear_arith)
            requires
                val_1 * x + val_2 * y == 1,
        ;
        lemma_mod_multiples_vanish(-y, 1, val_2 as int);
        lemma_small_mod(1, val_2 as nat);
    }
    Ok(x)
}

/// RSA encryption: `message^e mod n`.
pub fn encrypt(message: i128, e: i128, n: i128) -> (r: i128)
    requires
        0 <= e,
        0 < n <= MAX_MODULUS,
    ensures
        r == mod_pow(message as int, e as nat, n as int),
{
    pow_mod(message, e, n)
}

/// RSA decryption: `ciphertext^d mod n`.
pub fn decrypt(ciphertext: i128, n: i128, d: i128) -> (r: i128)
    requires
        0 <= d,
        0 < n <= MAX_MODULUS,
    ensures
        r == mod_pow(ciphertext as int, d as nat, n as int),
{
    pow_mod(ciphertext, d, n)
}

/// How many candidates `find_encryption_component` draws before it gives up.
pub const EXPONENT_SEARCH_ATTEMPTS: i128 = 100000;

/// Key material from two random probable primes in `[min_val, max_val]`:
/// `(p, q, p * q, (p - 1) * (q - 1))`. The primes may coincide.
pub fn generate_pqn(min_val: i128, max_val: i128) -> (r: Result<(i128, i128, i128, i128), CryptoError>)
    ensures
        r == Err::<(i128, i128, i128, i128), CryptoError>(CryptoError::InvalidInput)
            <==> (min_val < 2 || min_val > max_val || max_val > MAX_MODULUS),
        r matches Ok(k) ==> min_val <= k.0 <= max_val && min_val <= k.1 <= max_val
            && k.0 % 2 == 1 && k.1 % 2 == 1
            && k.2 == k.0 * k.1 && k.3 == (k.0 - 1) * (k.1 - 1),
        r matches Err(e) ==> e == CryptoError::InvalidInput || e == CryptoError::SearchExhausted,
        min_val == max_val && max_val <= MAX_MODULUS && min_val % 2 == 1 && is_prime_spec(min_val as int)
            ==> (r matches Ok(k) && k.0 == min_val && k.1 == min_val),
{
    let p = match random_prime(min_val, max_val) {
        Ok(v) => v,
        Err(e) => return Err(e),
    };
    let q = match random_prime(min_val, max_val) {
        Ok(v) => v,
        Err(e) => return Err(e),
    };
    proof {
        assert(0 <= p * q <= MAX_MODULUS * MAX_MODULUS) by (nonlinear_arith)
            requires
                2 <= p <= MAX_MODULUS,
                2 <= q <= MAX_MODULUS,
        ;
        assert(0 <= (p - 1) * (q - 1) <= MAX_MODULUS * MAX_MODULUS) by (nonlinear_arith)
            requires
                2 <= p <= MAX_MODULUS,
                2 <= q <= MAX_MODULUS,
        ;
    }
    Ok((p, q, p * q, (p - 1) * (q - 1)))
}

/// Every value in `[1, p)` is coprime to a prime `p`.
pub proof fn lemma_coprime_to_prime(e: nat, p: nat)
    requires
        is_prime_spec(p as int),
        1 <= e < p,
    ensures
        gcd(e, p) == 1,
{
    lemma_gcd_is_greatest_common_divisor(e, p);
    let g = gcd(e, p);
    lemma_mod_is_zero(e, g);
    if g != 1 {
        assert((p as int) % (g as int) != 0);
    }
}

/// Draws exponents from `[1, n - 1]` until one is coprime to `n`, for at most
/// `EXPONENT_SEARCH_ATTEMPTS` draws.
pub fn find_encryption_component(n: i128) -> (r: Result<i128, CryptoError>)
    ensures
        r == Err::<i128, CryptoError>(CryptoError::InvalidInput) <==> (n < 2 || n > MAX_MODULUS),
        r matches Ok(e) ==> 1 <= e < n && gcd(e as nat, n as nat) == 1,
        r matches Err(e) ==> e == CryptoError::InvalidInput || e == CryptoError::SearchExhausted,
        is_prime_spec(n as int) && n <= MAX_MODULUS ==> r is Ok,
{
    if n < 2 || n > MAX_MODULUS {
        return Err(CryptoError::InvalidInput);
    }
    let mut attempt: i128 = 0;
    while attempt < EXPONENT_SEARCH_ATTEMPTS
        invariant
            2 <= n <= MAX_MODULUS,
            0 <= attempt,
            is_prime_spec(n as int) ==> attempt == 0,
        decreases EXPONENT_SEARCH_ATTEMPTS - attempt,
    {
        let number = random_in_range(1, n - 1);
        proof {
            if is_prime_spec(n as int) {
                lemma_coprime_to_prime(number as nat, n as nat);
            }
        }
        if euclid(number, n) == 1 {
            return Ok(number);
        }
        attempt = attempt + 1;
    }
    Err(CryptoError::SearchExhausted)
}

/// `p` is the least factor of `n` above 1, and `p * p <= n`.
pub open spec fn is_least_factor(n: int, p: int) -> bool {
    &&& 2 <= p
    &&& p * p <= n
    &&& n % p == 0
    &&& forall|d: int| 2 <= d < p ==> #[trigger] (n % d) != 0
}

/// Euler's totient of `n == p * q` for primes `p` and `q`: `(p - 1) * (q - 1)`,
/// with `p` the least factor of `n`.
pub open spec fn totient_from_factor(n: int, p: int) -> int {
    (p - 1) * (n / p - 1)
}

/// A private exponent can be derived from `(n, e)`: `n` has a least factor
/// `p`, the totient computed from it exceeds 1, and `e` is coprime to it.
pub open spec fn recoverable(n: int, e: int) -> bool {
    exists|p: int| #[trigger] is_least_factor(n, p) && totient_from_factor(n, p) >= 2
        && gcd(e as nat, totient_from_factor(n, p) as nat) == 1
}

proof fn lemma_least_factor_unique(n: int, p: int, p2: int)
    requires
        is_least_factor(n, p),
        is_least_factor(n, p2),
    ensures
        p == p2,
{
    if p < p2 {
        assert(n % p != 0);
    } else if p2 < p {
        assert(n % p2 != 0);
    }
}

/// The least factor `d` of `n` with `d * d <= n`, found by trial division.
fn least_factor(n: i128) -> (r: Option<i128>)
    requires
        2 <= n <= MAX_MODULUS,
    ensures
        r matches Some(p) ==> is_least_factor(n as int, p as int),
        r is None ==> forall|p: int| !#[trigger] is_least_factor(n as int, p),
{
    let mut d: i128 = 2;
    while d <= n / d
        invariant
            2 <= d <= n,
            2 <= n <= MAX_MODULUS,
            forall|k: int| 2 <= k < d ==> #[trigger] ((n as int) % k) != 0,
        decreases n - d,
    {
        proof {
            lemma_div_is_ordered_by_denominator(n as int, 2, d as int);
            lemma_fundamental_div_mod(n as int, d as int);
            assert(d * d <= n) by (nonlinear_arith)
                requires
                    d <= n / d,
                    n == d * (n / d) + n % d,
                    n % d >= 0,
                    d > 0,
            ;
        }
        if n % d == 0 {
            return Some(d);
        }
        d = d + 1;
    }
    proof {
        lemma_fundamental_div_mod(n as int, d as int);
        assert forall|p: int| !#[trigger] is_least_factor(n as int, p) by {
            if is_least_factor(n as int, p) {
                if p < d {
                    assert((n as int) % p != 0);
                } else {
                    assert(n < d * d) by (nonlinear_arith)
                        requires
                            n == d * (n / d) + n % d,
                            n % d < d,
                            n / d < d,
                            d > 0,
                    ;
                    assert(d * d <= p * p) by (nonlinear_arith)
                        requires
                            2 <= d <= p,
                    ;
                }
            }
        }
    }
    None
}

/// Decrypts `ciphertext` from the public key `(n, e)` alone: factors `n` by
/// trial division, derives the private exponent as the inverse of `e` modulo
/// the totient, and decrypts with it.
pub fn intercept(ciphertext: i128, n: i128, e: i128) -> (r: Result<i128, CryptoError>)
    requires
        0 <= e <= MAX_MODULUS,
        2 <= n <= MAX_MODULUS,
    ensures
        r is Ok <==> recoverable(n as int, e as int),
        r matches Err(err) ==> err == CryptoError::InvalidInput,
        r matches Ok(m) ==> exists|p: int, d: int| #[trigger] is_least_factor(n as int, p)
            && 0 <= d < totient_from_factor(n as int, p)
            && (e * d) % totient_from_factor(n as int, p) == 1
            && m == #[trigger] mod_pow(ciphertext as int, d as nat, n as int),
{
    let p = match least_factor(n) {
        Some(v) => v,
        None => return Err(CryptoError::InvalidInput),
    };
    let q = n / p;
    proof {
        lemma_div_pos_is_pos(n as int, p as int);
        lemma_div_is_ordered_by_denominator(n as int, 1, p as int);
        lemma_fundamental_div_mod(n as int, p as int);
        assert(n == p * q);
        assert(p <= q) by {
            assert(p <= q) by (nonlinear_arith)
                requires
                    p * p <= n,
                    n == p * q,
                    p > 0,
            ;
        }
        assert(0 <= (p - 1) * (q - 1) <= MAX_MODULUS * MAX_MODULUS) by (nonlinear_arith)
            requires
                1 <= p <= MAX_MODULUS,
                1 <= q <= MAX_MODULUS,
        ;
        assert(((p - 1) * (q - 1)) <= n) by (nonlinear_arith)
            requires
                1 <= p,
                1 <= q,
                n == p * q,
        ;
        assert forall|p2: int| #[trigger] is_least_factor(n as int, p2) implies p2 == p by {
            lemma_least_factor_unique(n as int, p as int, p2);
        }
    }
    let phi = (p - 1) * (q - 1);
    assert(phi == totient_from_factor(n as int, p as int));
    if phi < 2 {
        return Err(CryptoError::InvalidInput);
    }
    proof {
        lemma_gcd_symmetric(((e as int) % (phi as int)) as nat, phi as nat);
        assert(gcd(e as nat, phi as nat) == gcd(phi as nat, ((e as int) % (phi as int)) as nat));
    }
    let d = match find_inverse(e, phi) {
        Ok(v) => v,
        Err(err) => return Err(err),
    };
    let m = decrypt(ciphertext, n, d);
    assert(is_least_factor(n as int, p as int));
    Ok(m)
}

} // verus!
