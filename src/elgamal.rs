//! Primitive roots, simplified ElGamal, and the baby-step giant-step attack.

use vstd::prelude::*;
use vstd::arithmetic::div_mod::*;
use vstd::arithmetic::mul::*;
use crate::modular::{MAX_MODULUS, mod_pow, pow_mod, reduce_mod};
use crate::number_theory::lemma_fermat_inverse;
use crate::CryptoError;
use crate::primality::is_prime_spec;
pub use crate::modular::fast_exponentiation;
pub use crate::primality::{is_prime, miller_rabin, random_prime};
use crate::random::random_in_range;
use std::collections::HashMap;

verus! {

broadcast use vstd::std_specs::hash::group_hash_axioms;

/// `q` is one of the prime factors of `x` that the search reports: 2, or an
/// odd prime `q` with `(q - 1)^2 < x`, i.e. `q <= ceil(sqrt(x))`. Larger prime
/// factors are not looked for.
pub open spec fn listed_factor(x: int, q: int) -> bool {
    is_prime_spec(q) && x % q == 0 && (q == 2 || (q - 1) * (q - 1) < x)
}

/// `b` passes the primitive-root test modulo `p`: `b^((p-1)/q) mod p != 1`
/// for every prime factor `q` of `p - 1`.
pub open spec fn passes_root_test(p: int, b: int) -> bool {
    forall|q: int| is_prime_spec(q) && #[trigger] ((p - 1) % q) == 0 ==> mod_pow(b, ((p - 1) / q) as nat, p) != 1
}

/// The prime factors of `p - 1` up to `ceil(sqrt(p - 1))` (and 2), in
/// increasing order.
pub fn get_prime_factors(p: i128) -> (r: Vec<i128>)
    requires
        2 <= p <= MAX_MODULUS,
    ensures
        forall|q: i128| #[trigger] r@.contains(q) <==> listed_factor(p - 1, q as int),
        forall|i: int, j: int| 0 <= i < j < r@.len() ==> r@[i] < r@[j],
{
    let mut prime_factors: Vec<i128> = Vec::new();
    let x = p - 1;
    if x % 2 == 0 {
        prime_factors.push(2);
    }
    proof {
        assert(is_prime_spec(2));
        assert forall|q: i128| #[trigger] prime_factors@.contains(q) <==> (listed_factor(x as int, q as int) && q < 3) by {
            if listed_factor(x as int, q as int) && q < 3 {
                assert(q == 2);
                assert(prime_factors@[0] == 2);
            }
        }
    }
    let mut i: i128 = 3;
    assert(0 <= (i - 1) * (i - 1) <= 0x4000_0000_0000_0001_0000_0000_0000_0001);
    while (i - 1) * (i - 1) < x
        invariant
            1 <= x <= MAX_MODULUS,
            x == p - 1,
            3 <= i <= x + 3,
            i % 2 == 1,
            0 <= (i - 1) * (i - 1) <= 0x4000_0000_0000_0001_0000_0000_0000_0001,
            forall|q: i128| #[trigger] prime_factors@.contains(q) <==> (listed_factor(x as int, q as int) && q < i),
            forall|k: int| 0 <= k < prime_factors@.len() ==> prime_factors@[k] < i,
            forall|a: int, b: int| 0 <= a < b < prime_factors@.len() ==> prime_factors@[a] < prime_factors@[b],
        decreases x + 3 - i,
    {
        proof {
            assert(0 <= (i - 1) * (i - 1) <= (x + 2) * (x + 2)) by (nonlinear_arith)
                requires
                    2 <= i - 1 <= x + 2,
            ;
            assert((x + 2) * (x + 2) <= 0x4000_0000_0000_0001_0000_0000_0000_0001) by (nonlinear_arith)
                requires
                    1 <= x <= MAX_MODULUS,
            ;
            assert(i - 1 < x) by (nonlinear_arith)
                requires
                    (i - 1) * (i - 1) < x,
                    i - 1 >= 2,
            ;
        }
        let old_factors = Ghost(prime_factors@);
        if is_prime(i) && x % i == 0 {
            prime_factors.push(i);
            proof {
                assert(listed_factor(x as int, i as int));
                assert forall|q: i128| #[trigger] prime_factors@.contains(q) <==> (listed_factor(x as int, q as int) && q < i + 1) by {
                    if q == i {
                        assert(prime_factors@[prime_factors@.len() - 1] == i);
                    } else if prime_factors@.contains(q) {
                        let k = choose|k: int| 0 <= k < prime_factors@.len() && prime_factors@[k] == q;
                        if k < old_factors@.len() {
                            assert(old_factors@.contains(q));
                        }
                    } else if listed_factor(x as int, q as int) && q < i + 1 {
                        assert(old_factors@.contains(q));
                        let k = choose|k: int| 0 <= k < old_factors@.len() && old_factors@[k] == q;
                        assert(prime_factors@[k] == q);
                    }
                }
            }
        } else {
            proof {
                assert(!listed_factor(x as int, i as int)) by {
                    if listed_factor(x as int, i as int) {
                        assert(is_prime_spec(i as int));
                    }
                }
            }
        }
        proof {
            assert(is_prime_spec(i + 1) == false) by {
                assert(((i + 1) as int) % 2 == 0);
            }
            assert(!listed_factor(x as int, (i + 1) as int));
        }
        i = i + 2;
        proof {
            assert(0 <= (i - 1) * (i - 1) <= 0x4000_0000_0000_0001_0000_0000_0000_0001) by (nonlinear_arith)
                requires
                    2 <= i - 1 <= x + 2,
                    x <= MAX_MODULUS,
            ;
        }
    }
    proof {
        assert forall|q: int| listed_factor(x as int, q) implies q < i by {
            if q >= i {
                assert((i - 1) * (i - 1) <= (q - 1) * (q - 1)) by (nonlinear_arith)
                    requires
                        q >= i,
                        i >= 3,
                ;
            }
        }
    }
    prime_factors
}

/// Every prime factor of `x`, in increasing order.
fn prime_divisors(x: i128) -> (r: Vec<i128>)
    requires
        1 <= x <= MAX_MODULUS,
    ensures
        forall|q: i128| #[trigger] r@.contains(q) <==> (is_prime_spec(q as int) && (x as int) % (q as int) == 0),
{
    let mut found: Vec<i128> = Vec::new();
    let mut i: i128 = 2;
    while i <= x
        invariant
            2 <= i <= x + 1,
            1 <= x <= MAX_MODULUS,
            forall|q: i128| #[trigger] found@.contains(q) <==> (is_prime_spec(q as int) && (x as int) % (q as int) == 0 && q < i),
        decreases x + 1 - i,
    {
        let ghost before = found@;
        if x % i == 0 && is_prime(i) {
            found.push(i);
            proof {
                assert forall|q: i128| #[trigger] found@.contains(q) <==> (is_prime_spec(q as int) && (x as int) % (q as int) == 0 && q < i + 1) by {
                    if q == i {
                        assert(found@[found@.len() - 1] == i);
                    } else if found@.contains(q) {
                        let k = choose|k: int| 0 <= k < found@.len() && found@[k] == q;
                        assert(before.contains(q)) by {
                            assert(before[k] == q);
                        }
                    } else if is_prime_spec(q as int) && (x as int) % (q as int) == 0 && q < i + 1 {
                        assert(before.contains(q));
                        let k = choose|k: int| 0 <= k < before.len() && before[k] == q;
                        assert(found@[k] == q);
                    }
                }
            }
        }
        i = i + 1;
    }
    proof {
        assert forall|q: i128| is_prime_spec(q as int) && (x as int) % (q as int) == 0 implies q < i by {
            lemma_mod_is_zero(x as nat, q as nat);
        }
    }
    found
}

/// Whether `b` passes the primitive-root test modulo `p`, over every prime
/// factor of `p - 1`.
pub fn is_primitive_root(p: i128, b: i128) -> (r: bool)
    requires
        2 <= p <= MAX_MODULUS,
    ensures
        r == passes_root_test(p as int, b as int),
{
    let prime_factors = prime_divisors(p - 1);
    let mut k: usize = 0;
    while k < prime_factors.len()
        invariant
            2 <= p <= MAX_MODULUS,
            forall|q: i128| #[trigger] prime_factors@.contains(q) <==> (is_prime_spec(q as int) && (p - 1) % (q as int) == 0),
            forall|j: int| 0 <= j < k ==> mod_pow(b as int, ((p - 1) / (#[trigger] prime_factors@[j]) as int) as nat, p as int) != 1,
            k <= prime_factors.len(),
        decreases prime_factors.len() - k,
    {
        let factor = prime_factors[k];
        assert(prime_factors@.contains(factor));
        if pow_mod(b, (p - 1) / factor, p) == 1 {
            return false;
        }
        k = k + 1;
    }
    proof {
        assert forall|q: int| is_prime_spec(q) && #[trigger] ((p - 1) % q) == 0 implies mod_pow(b as int, ((p - 1) / q) as nat, p as int) != 1 by {
            assert(q <= p - 1) by {
                lemma_mod_is_zero((p - 1) as nat, q as nat);
            }
            assert(prime_factors@.contains(q as i128));
            let j = choose|j: int| 0 <= j < prime_factors@.len() && prime_factors@[j] == q as i128;
            assert(mod_pow(b as int, ((p - 1) / prime_factors@[j] as int) as nat, p as int) != 1);
        }
    }
    true
}

/// The least `b` in `[2, p)` that passes the primitive-root test, if any.
pub fn find_primitive_root(p: i128) -> (r: Option<i128>)
    requires
        2 <= p <= MAX_MODULUS,
    ensures
        r matches Some(b) ==> 2 <= b < p && passes_root_test(p as int, b as int)
            && forall|c: int| 2 <= c < b ==> !#[trigger] passes_root_test(p as int, c),
        r is None ==> forall|c: int| 2 <= c < p ==> !#[trigger] passes_root_test(p as int, c),
{
    let mut b: i128 = 2;
    while b < p
        invariant
            2 <= b <= p,
            2 <= p <= MAX_MODULUS,
            forall|c: int| 2 <= c < b ==> !#[trigger] passes_root_test(p as int, c),
        decreases p - b,
    {
        if is_primitive_root(p, b) {
            return Some(b);
        }
        b = b + 1;
    }
    None
}

/// Draws at most `p` candidates from `[2, p - 1]` and returns the first that
/// passes the primitive-root test.
pub fn find_rand_primitive_root(p: i128) -> (r: Option<i128>)
    requires
        3 <= p <= MAX_MODULUS,
    ensures
        r matches Some(b) ==> 2 <= b < p && passes_root_test(p as int, b as int),
        (forall|c: int| 2 <= c < p ==> #[trigger] passes_root_test(p as int, c)) ==> r is Some,
{
    let mut counter: i128 = 0;
    while counter < p
        invariant
            3 <= p <= MAX_MODULUS,
            (forall|c: int| 2 <= c < p ==> #[trigger] passes_root_test(p as int, c)) ==> counter == 0,
        decreases p - counter,
    {
        let b = random_in_range(2, p - 1);
        if is_primitive_root(p, b) {
            return Some(b);
        }
        assert(!passes_root_test(p as int, b as int));
        counter = counter + 1;
    }
    None
}

/// The inverse of `val_1` modulo the prime `val_2` by Fermat's little
/// theorem: `val_1^(val_2 - 2) mod val_2`. A multiple of `val_2` has none.
pub fn find_inverse(val_1: i128, val_2: i128) -> (r: Result<i128, CryptoError>)
    requires
        is_prime_spec(val_2 as int),
        val_2 <= MAX_MODULUS,
    ensures
        r is Err <==> (val_1 as int) % (val_2 as int) == 0,
        r matches Err(e) ==> e == CryptoError::InvalidInput,
        r matches Ok(v) ==> v == mod_pow(val_1 as int, (val_2 - 2) as nat, val_2 as int) && 0 < v < val_2
            && (val_1 * v) % (val_2 as int) == 1,
{
    if reduce_mod(val_1, val_2) == 0 {
        return Err(CryptoError::InvalidInput);
    }
    let v = pow_mod(val_1, val_2 - 2, val_2);
    proof {
        lemma_fermat_inverse(val_1 as int, val_2 as int);
        assert((val_1 as int * v as int) % (val_2 as int) == 1);
        if v == 0 {
            lemma_mul_basics(val_1 as int);
            assert(val_1 as int * v as int == 0);
            lemma_small_mod(0, val_2 as nat);
        }
    }
    Ok(v)
}

/// ElGamal public key `g^r mod p` for the private exponent `r`.
pub fn elgamal_gen_public_key(p: i128, g: i128, r: i128) -> (k: i128)
    requires
        0 < p <= MAX_MODULUS,
        0 <= r,
    ensures
        k == mod_pow(g as int, r as nat, p as int),
{
    pow_mod(g, r, p)
}

/// The shared mask `recipient_pub_key^priv_key mod p`.
pub open spec fn shared_mask(recipient_pub_key: int, priv_key: nat, p: int) -> int {
    mod_pow(recipient_pub_key, priv_key, p)
}

/// Encryption: `message * recipient_pub_key^priv_key mod p`.
pub fn elgamal_encrypt(message: i128, recipient_pub_key: i128, priv_key: i128, p: i128) -> (c: i128)
    requires
        0 <= message <= MAX_MODULUS,
        0 <= priv_key,
        0 < p <= MAX_MODULUS,
    ensures
        c == (message * shared_mask(recipient_pub_key as int, priv_key as nat, p as int)) % (p as int),
        0 <= c < p,
{
    let mask = pow_mod(recipient_pub_key, priv_key, p);
    proof {
        assert(0 <= message * mask <= MAX_MODULUS * MAX_MODULUS) by (nonlinear_arith)
            requires
                0 <= message <= MAX_MODULUS,
                0 <= mask < p <= MAX_MODULUS,
        ;
    }
    message * mask % p
}

/// The plaintext behind `cipher`: the ciphertext times
/// `mask^(p-2) mod p`, the inverse of the mask modulo the prime `p`.
pub open spec fn decryption(cipher: int, recipient_pub_key: int, r: nat, p: int) -> int {
    (mod_pow(shared_mask(recipient_pub_key, r, p), (p - 2) as nat, p) * cipher) % p
}

/// Decryption: multiplies the ciphertext by the inverse (modulo the prime
/// `p`) of the mask `recipient_pub_key^r mod p`; a zero mask has no inverse.
pub fn elgamal_decrypt(cipher: i128, recipient_pub_key: i128, r: i128, p: i128) -> (m: Result<i128, CryptoError>)
    requires
        0 <= cipher <= MAX_MODULUS,
        0 <= r,
        is_prime_spec(p as int),
        p <= MAX_MODULUS,
    ensures
        m is Err <==> shared_mask(recipient_pub_key as int, r as nat, p as int) == 0,
        m matches Err(e) ==> e == CryptoError::InvalidInput,
        m matches Ok(v) ==> v == decryption(cipher as int, recipient_pub_key as int, r as nat, p as int) && 0 <= v < p,
{
    let inverse_val = pow_mod(recipient_pub_key, r, p);
    let inverse = match find_inverse(inverse_val, p) {
        Ok(v) => v,
        Err(e) => {
            proof {
                lemma_small_mod(inverse_val as nat, p as nat);
            }
            return Err(e);
        },
    };
    proof {
        lemma_small_mod(inverse_val as nat, p as nat);
    }
    proof {
        assert(0 <= inverse * cipher <= MAX_MODULUS * MAX_MODULUS) by (nonlinear_arith)
            requires
                0 <= cipher <= MAX_MODULUS,
                0 <= inverse < p <= MAX_MODULUS,
        ;
    }
    Ok((inverse * cipher) % p)
}

/// `ceil(sqrt(v))`: the least `m` with `m * m >= v`.
pub open spec fn ceil_sqrt(v: nat) -> nat
    decreases v,
{
    if v == 0 {
        0
    } else {
        let m = ceil_sqrt((v - 1) as nat);
        if m * m >= v { m } else { m + 1 }
    }
}

proof fn lemma_ceil_sqrt(v: nat)
    ensures
        ceil_sqrt(v) * ceil_sqrt(v) >= v,
        ceil_sqrt(v) == 0 || (ceil_sqrt(v) - 1) * (ceil_sqrt(v) - 1) < v,
    decreases v,
{
    if v > 0 {
        lemma_ceil_sqrt((v - 1) as nat);
        let m = ceil_sqrt((v - 1) as nat);
        if m * m < v {
            assert((m + 1) * (m + 1) >= v) by (nonlinear_arith)
                requires
                    m * m >= v - 1,
                    m >= 0,
            ;
        }
    }
}

proof fn lemma_ceil_sqrt_unique(v: nat, m: int)
    requires
        m >= 0,
        m * m >= v,
        m == 0 || (m - 1) * (m - 1) < v,
    ensures
        m == ceil_sqrt(v),
{
    lemma_ceil_sqrt(v);
    let c = ceil_sqrt(v) as int;
    if m < c {
        assert(m * m <= (c - 1) * (c - 1)) by (nonlinear_arith)
            requires
                0 <= m <= c - 1,
        ;
    } else if m > c {
        assert(c * c <= (m - 1) * (m - 1)) by (nonlinear_arith)
            requires
                0 <= c <= m - 1,
        ;
    }
}

/// Baby step `j`: `base^j mod z`.
pub open spec fn baby_step(base: int, z: int, j: nat) -> int {
    mod_pow(base, j, z)
}

/// Giant step `i`: `target * (base^(z-2))^(m*i) mod z`, i.e. `target` times
/// the `i`-th power of the inverse of `base^m` when `z` is prime.
pub open spec fn giant_step(base: int, target: int, z: int, m: nat, i: nat) -> int {
    (target * mod_pow(mod_pow(mod_pow(base, (z - 2) as nat, z), m, z), i, z)) % z
}

/// Giant step `i` meets baby step `j`.
pub open spec fn steps_meet(base: int, target: int, z: int, m: nat, i: nat, j: nat) -> bool {
    baby_step(base, z, j) == giant_step(base, target, z, m, i)
}

/// `k == i * m + j` where giant step `i` meets baby step `j`, with `i` the
/// first giant step that meets any baby step and `j` the first baby step it
/// meets (`m == ceil(sqrt(z - 1))`).
pub open spec fn is_first_meeting(base: int, target: int, z: int, k: int) -> bool {
    let m = ceil_sqrt((z - 1) as nat);
    &&& 0 <= k < m * m
    &&& steps_meet(base, target, z, m, (k / m as int) as nat, (k % m as int) as nat)
    &&& forall|i: nat, j: nat| i < k / m as int && j < m ==> !#[trigger] steps_meet(base, target, z, m, i, j)
    &&& forall|j: nat| j < k % m as int ==> !#[trigger] steps_meet(base, target, z, m, (k / m as int) as nat, j)
}

/// No giant step below `m == ceil(sqrt(z - 1))` meets a baby step below `m`.
pub open spec fn never_meet(base: int, target: int, z: int) -> bool {
    let m = ceil_sqrt((z - 1) as nat);
    forall|i: nat, j: nat| i < m && j < m ==> !#[trigger] steps_meet(base, target, z, m, i, j)
}

/// Discrete logarithm of `log_val` to the base `log_base` modulo the prime
/// `z`, by baby-step giant-step with `m = ceil(sqrt(z - 1))`: the first giant
/// step `i` (then the first baby step `j`) at which the two meet gives
/// `i * m + j`; `None` when they never meet.
pub fn baby_step_giant_step(log_base: i128, log_val: i128, z: i128) -> (r: Option<i128>)
    requires
        is_prime_spec(z as int),
        z <= MAX_MODULUS,
        (log_base as int) % (z as int) != 0,
        0 <= log_val <= MAX_MODULUS,
    ensures
        r matches Some(k) ==> is_first_meeting(log_base as int, log_val as int, z as int, k as int),
        r is None ==> never_meet(log_base as int, log_val as int, z as int),
{
    let mut m: i128 = 0;
    while m * m < z - 1
        invariant
            0 <= m <= z,
            2 <= z <= MAX_MODULUS,
            m == 0 || (m - 1) * (m - 1) < z - 1,
            0 <= m * m <= MAX_MODULUS * MAX_MODULUS,
        decreases z - m,
    {
        proof {
            assert(m < z - 1) by (nonlinear_arith)
                requires
                    m * m < z - 1,
                    m >= 0,
            ;
            assert(0 <= (m + 1) * (m + 1) <= MAX_MODULUS * MAX_MODULUS) by (nonlinear_arith)
                requires
                    0 <= m + 1 <= z <= MAX_MODULUS,
            ;
        }
        m = m + 1;
    }
    let ghost mg = m as nat;
    proof {
        lemma_ceil_sqrt_unique((z - 1) as nat, m as int);
    }
    // Each baby-step value maps to the first exponent that produces it.
    let mut table: HashMap<i128, i128> = HashMap::new();
    let mut j: i128 = 0;
    while j < m
        invariant
            0 <= j <= m <= z,
            2 <= z <= MAX_MODULUS,
            forall|key: i128| #[trigger] table@.contains_key(key) ==> 0 <= table@[key] < j
                && baby_step(log_base as int, z as int, table@[key] as nat) == key
                && forall|t: nat| t < table@[key] ==> #[trigger] baby_step(log_base as int, z as int, t) != key,
            forall|t: nat| t < j ==> table@.contains_key(#[trigger] baby_step(log_base as int, z as int, t) as i128),
        decreases m - j,
    {
        let v = pow_mod(log_base, j, z);
        match table.get(&v) {
            Some(_) => {},
            None => {
                table.insert(v, j);
            },
        }
        j = j + 1;
    }
    // base^(z-2) is the inverse of the base modulo the prime z.
    let inverse = pow_mod(log_base, z - 2, z);
    let inverse_pow_m = pow_mod(inverse, m, z);
    let mut i: i128 = 0;
    while i < m
        invariant
            0 <= i <= m <= z,
            mg == m,
            mg == ceil_sqrt((z - 1) as nat),
            2 <= z <= MAX_MODULUS,
            0 <= log_val <= MAX_MODULUS,
            0 <= m * m <= MAX_MODULUS * MAX_MODULUS,
            inverse == mod_pow(log_base as int, (z - 2) as nat, z as int),
            inverse_pow_m == mod_pow(inverse as int, m as nat, z as int),
            0 <= inverse_pow_m < z,
            forall|key: i128| #[trigger] table@.contains_key(key) ==> 0 <= table@[key] < m
                && baby_step(log_base as int, z as int, table@[key] as nat) == key
                && forall|t: nat| t < table@[key] ==> #[trigger] baby_step(log_base as int, z as int, t) != key,
            forall|t: nat| t < m ==> table@.contains_key(#[trigger] baby_step(log_base as int, z as int, t) as i128),
            forall|a: nat, c: nat| a < i && c < m ==> !#[trigger] steps_meet(log_base as int, log_val as int, z as int, mg, a, c),
        decreases m - i,
    {
        let step = pow_mod(inverse_pow_m, i, z);
        proof {
            assert(0 <= log_val * step <= MAX_MODULUS * MAX_MODULUS) by (nonlinear_arith)
                requires
                    0 <= log_val <= MAX_MODULUS,
                    0 <= step < z <= MAX_MODULUS,
            ;
        }
        let giant = (log_val * step) % z;
        assert(giant == giant_step(log_base as int, log_val as int, z as int, mg, i as nat));
        match table.get(&giant) {
            Some(found) => {
                let jj = *found;
                proof {
                    assert(0 <= i * m + jj < m * m) by (nonlinear_arith)
                        requires
                            0 <= i < m,
                            0 <= jj < m,
                    ;
                    lemma_fundamental_div_mod_converse((i * m + jj) as int, m as int, i as int, jj as int);
                    assert(steps_meet(log_base as int, log_val as int, z as int, mg, i as nat, jj as nat));
                    assert forall|c: nat| c < jj implies !#[trigger] steps_meet(log_base as int, log_val as int, z as int, mg, i as nat, c) by {
                        assert(baby_step(log_base as int, z as int, c) != giant);
                    }
                }
                return Some(i * m + jj);
            },
            None => {
                proof {
                    assert forall|a: nat, c: nat| a < i + 1 && c < m implies !#[trigger] steps_meet(log_base as int, log_val as int, z as int, mg, a, c) by {
                        if a == i {
                            assert(table@.contains_key(baby_step(log_base as int, z as int, c) as i128));
                        }
                    }
                }
            },
        }
        i = i + 1;
    }
    None
}

proof fn lemma_first_meeting_excludes_none(base: int, target: int, z: int, k: int)
    requires
        is_first_meeting(base, target, z, k),
    ensures
        !never_meet(base, target, z),
{
    let m = ceil_sqrt((z - 1) as nat);
    assert(m > 0);
    lemma_div_pos_is_pos(k, m as int);
    assert(k / (m as int) < m) by {
        lemma_multiply_divide_lt(k, m as int, m as int);
    }
    assert(steps_meet(base, target, z, m, (k / m as int) as nat, (k % m as int) as nat));
}

/// Recovers the private exponent behind `target_pub_key` as a discrete
/// logarithm to the base `generator`, then decrypts `cipher` with it.
pub fn elgamal_intercept(
    cipher: i128,
    generator: i128,
    target_pub_key: i128,
    recipient_pub_key: i128,
    p: i128,
) -> (m: Result<i128, CryptoError>)
    requires
        0 <= cipher <= MAX_MODULUS,
        0 <= target_pub_key <= MAX_MODULUS,
        is_prime_spec(p as int),
        p <= MAX_MODULUS,
        (generator as int) % (p as int) != 0,
    ensures
        m == Err::<i128, CryptoError>(CryptoError::SearchExhausted)
            <==> never_meet(generator as int, target_pub_key as int, p as int),
        m == Err::<i128, CryptoError>(CryptoError::InvalidInput) ==> exists|k: int|
            #[trigger] is_first_meeting(generator as int, target_pub_key as int, p as int, k)
            && shared_mask(recipient_pub_key as int, k as nat, p as int) == 0,
        m matches Ok(v) ==> exists|k: int| #[trigger] is_first_meeting(generator as int, target_pub_key as int, p as int, k)
            && shared_mask(recipient_pub_key as int, k as nat, p as int) != 0
            && v == decryption(cipher as int, recipient_pub_key as int, k as nat, p as int),
        m matches Err(e) ==> e == CryptoError::SearchExhausted || e == CryptoError::InvalidInput,
{
    match baby_step_giant_step(generator, target_pub_key, p) {
        None => Err(CryptoError::SearchExhausted),
        Some(recovered_key) => {
            proof {
                lemma_first_meeting_excludes_none(generator as int, target_pub_key as int, p as int, recovered_key as int);
                assert(is_first_meeting(generator as int, target_pub_key as int, p as int, recovered_key as int));
            }
            elgamal_decrypt(cipher, recipient_pub_key, recovered_key, p)
        },
    }
}

} // verus!
