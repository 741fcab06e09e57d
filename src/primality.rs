//! Primality: trial division, Miller-Rabin rounds, and random prime search.

use vstd::prelude::*;
use vstd::arithmetic::power::*;
use vstd::arithmetic::div_mod::*;
use vstd::arithmetic::mul::*;
use crate::modular::{MAX_MODULUS, mod_pow, pow_mod, lemma_residue_product_fits};
use crate::random::random_in_range;
use crate::CryptoError;
use crate::number_theory::lemma_prime_passes_strong_test;

verus! {

/// How many candidates `random_prime` draws before it gives up.
pub const PRIME_SEARCH_ATTEMPTS: i128 = 100000;

/// Rounds of Miller-Rabin applied to each candidate by `random_prime`.
pub const PRIME_TEST_ROUNDS: i32 = 20;

/// `n` is prime: greater than 1 with no divisor strictly between 1 and `n`.
pub open spec fn is_prime_spec(n: int) -> bool {
    n > 1 && forall|d: int| 1 < d < n ==> #[trigger] (n % d) != 0
}

/// The odd part `d` of `v` in `v == 2^s * d`.
pub open spec fn odd_part(v: nat) -> nat
    decreases v,
{
    if v > 0 && v % 2 == 0 {
        odd_part(v / 2)
    } else {
        v
    }
}

/// The exponent `s` of two in `v == 2^s * d` with `d` odd.
pub open spec fn two_exponent(v: nat) -> nat
    decreases v,
{
    if v > 0 && v % 2 == 0 {
        two_exponent(v / 2) + 1
    } else {
        0
    }
}

/// `b^(2^k * d) mod n`: the `k`-th term of the squaring chain of base `b`.
pub open spec fn chain(n: int, b: int, d: nat, k: nat) -> int {
    mod_pow(b, (pow(2, k) * d) as nat, n)
}

/// Base `b` does not witness that `n` is composite: with `n - 1 == 2^s * d`,
/// `d` odd, either `b^d == 1` or `b^(2^k * d) == n - 1` for some `k < s`
/// (all modulo `n`).
pub open spec fn strong_probable_prime(n: int, b: int) -> bool {
    let d = odd_part((n - 1) as nat);
    let s = two_exponent((n - 1) as nat);
    mod_pow(b, d, n) == 1 || exists|k: nat| k < s && #[trigger] chain(n, b, d, k) == n - 1
}

/// Squaring steps the chain: term `k + 1` is the square of term `k`, modulo `n`.
pub proof fn lemma_chain_step(n: int, b: int, d: nat, k: nat)
    requires
        n > 0,
    ensures
        chain(n, b, d, k + 1) == (chain(n, b, d, k) * chain(n, b, d, k)) % n,
{
    let e = pow(2, k) * d;
    lemma_pow_positive(2, k);
    lemma_mul_nonnegative(pow(2, k), d as int);
    assert(pow(2, k + 1) == 2 * pow(2, k)) by {
        reveal(pow);
    }
    lemma_mul_is_associative(2, pow(2, k), d as int);
    lemma_mul_is_commutative(2, e);
    lemma_pow_multiplies(b, e as nat, 2);
    assert(pow(pow(b, e as nat), 2) == pow(b, e as nat) * pow(b, e as nat)) by {
        reveal_with_fuel(pow, 3);
    }
    lemma_mul_mod_noop(pow(b, e as nat), pow(b, e as nat), n);
}

proof fn lemma_odd_part_step(v: nat)
    requires
        v > 0,
        v % 2 == 0,
    ensures
        odd_part(v) == odd_part(v / 2),
        two_exponent(v) == two_exponent(v / 2) + 1,
        v == 2 * (v / 2),
{
}

/// Splits `n - 1` as `2^s * d` with `d` odd.
fn decompose(n: i128) -> (r: (i128, i128))
    requires
        3 <= n <= MAX_MODULUS,
        n % 2 == 1,
    ensures
        r.0 == odd_part((n - 1) as nat),
        r.1 == two_exponent((n - 1) as nat),
        r.1 >= 1,
        r.0 >= 1,
{
    let mut m: i128 = n - 1;
    let mut s: i128 = 0;
    proof {
        lemma_odd_part_step((n - 1) as nat);
    }
    while m % 2 == 0
        invariant
            0 < m <= n - 1,
            0 <= s < n,
            odd_part((n - 1) as nat) == odd_part(m as nat),
            two_exponent((n - 1) as nat) == s + two_exponent(m as nat),
            two_exponent((n - 1) as nat) >= 1,
            s + m <= n - 1,
        decreases m,
    {
        proof {
            lemma_odd_part_step(m as nat);
        }
        m = m / 2;
        s = s + 1;
    }
    (m, s)
}

/// One Miller-Rabin round: whether base `b` fails to witness that the odd
/// number `n` is composite.
pub fn is_strong_probable_prime(n: i128, b: i128) -> (r: bool)
    requires
        3 <= n <= MAX_MODULUS,
        n % 2 == 1,
        0 <= b,
    ensures
        r == strong_probable_prime(n as int, b as int),
{
    let (d, s) = decompose(n);
    let ghost dn = d as nat;
    let mut x = pow_mod(b, d, n);
    proof {
        assert(pow(2, 0) == 1) by {
            reveal(pow);
        }
        assert(chain(n as int, b as int, dn, 0) == x);
    }
    if x == 1 {
        return true;
    }
    if x == n - 1 {
        assert(chain(n as int, b as int, dn, 0) == n - 1);
        return true;
    }
    let mut k: i128 = 1;
    while k < s
        invariant
            1 <= k <= s,
            s == two_exponent((n - 1) as nat),
            dn == odd_part((n - 1) as nat),
            d == dn,
            3 <= n <= MAX_MODULUS,
            0 <= x < n,
            x == chain(n as int, b as int, dn, (k - 1) as nat),
            mod_pow(b as int, dn, n as int) != 1,
            forall|j: nat| j < k ==> #[trigger] chain(n as int, b as int, dn, j) != n - 1,
        decreases s - k,
    {
        proof {
            lemma_chain_step(n as int, b as int, dn, (k - 1) as nat);
            lemma_residue_product_fits(x as int, x as int, n as int);
        }
        x = (x * x) % n;
        if x == n - 1 {
            assert(chain(n as int, b as int, dn, k as nat) == n - 1);
            return true;
        }
        k = k + 1;
    }
    false
}

/// Miller-Rabin test with `num_tests` random bases. A `false` answer is
/// always justified: `n` is even or some base witnesses that it is composite.
pub fn miller_rabin(n: i128, num_tests: i32) -> (r: bool)
    requires
        n <= MAX_MODULUS,
    ensures
        r ==> n >= 3 && n % 2 == 1,
        !r && n >= 3 && n % 2 == 1 ==> exists|b: int| 1 <= b < n - 1 && !#[trigger] strong_probable_prime(n as int, b),
        r && num_tests >= 1 ==> exists|b: int| 1 <= b < n - 1 && #[trigger] strong_probable_prime(n as int, b),
        num_tests <= 0 ==> r == (n >= 3 && n % 2 == 1),
        is_prime_spec(n as int) && n % 2 == 1 ==> r,
{
    if n < 3 || n % 2 == 0 {
        return false;
    }
    let mut round: i32 = 0;
    while round < num_tests
        invariant
            3 <= n <= MAX_MODULUS,
            n % 2 == 1,
            0 <= round,
            round >= 1 ==> exists|b: int| 1 <= b < n - 1 && #[trigger] strong_probable_prime(n as int, b),
        decreases num_tests - round,
    {
        let b = random_in_range(1, n - 2);
        if !is_strong_probable_prime(n, b) {
            proof {
                if is_prime_spec(n as int) {
                    lemma_prime_passes_strong_test(n as int, b as int);
                }
            }
            return false;
        }
        assert(strong_probable_prime(n as int, b as int));
        round = round + 1;
    }
    true
}

/// Draws candidates from `[min_val, max_val]` until one passes the
/// Miller-Rabin test, for at most `PRIME_SEARCH_ATTEMPTS` draws.
pub fn random_prime(min_val: i128, max_val: i128) -> (r: Result<i128, CryptoError>)
    ensures
        r == Err::<i128, CryptoError>(CryptoError::InvalidInput)
            <==> (min_val < 2 || min_val > max_val || max_val > MAX_MODULUS),
        r matches Ok(p) ==> min_val <= p <= max_val && p % 2 == 1,
        r matches Err(e) ==> e == CryptoError::InvalidInput || e == CryptoError::SearchExhausted,
        min_val == max_val && max_val <= MAX_MODULUS && min_val % 2 == 1 && is_prime_spec(min_val as int)
            ==> r == Ok::<i128, CryptoError>(min_val),
{
    if min_val < 2 || min_val > max_val || max_val > MAX_MODULUS {
        return Err(CryptoError::InvalidInput);
    }
    let mut attempt: i128 = 0;
    while attempt < PRIME_SEARCH_ATTEMPTS
        invariant
            2 <= min_val <= max_val <= MAX_MODULUS,
            0 <= attempt,
            min_val == max_val && min_val % 2 == 1 && is_prime_spec(min_val as int) ==> attempt == 0,
        decreases PRIME_SEARCH_ATTEMPTS - attempt,
    {
        let number = random_in_range(min_val, max_val);
        if miller_rabin(number, PRIME_TEST_ROUNDS) {
            return Ok(number);
        }
        attempt = attempt + 1;
    }
    Err(CryptoError::SearchExhausted)
}

proof fn lemma_even_divisor_of_odd(n: int, k: int)
    requires
        n % 2 == 1,
        k > 0,
        k % 2 == 0,
    ensures
        n % k != 0,
{
    if n % k == 0 {
        lemma_fundamental_div_mod(n, k);
        lemma_fundamental_div_mod(k, 2);
        assert(n == 2 * ((k / 2) * (n / k))) by (nonlinear_arith)
            requires
                n == k * (n / k),
                k == 2 * (k / 2),
        ;
        lemma_mod_multiples_basic((k / 2) * (n / k), 2);
    }
}

proof fn lemma_cofactor_below(n: int, k: int, d: int)
    requires
        n > 1,
        2 <= k < n,
        n % k == 0,
        d <= k,
        d > 0,
        n < d * d,
    ensures
        1 < n / k < d,
        n % (n / k) == 0,
{
    lemma_fundamental_div_mod(n, k);
    let q = n / k;
    lemma_mul_is_commutative(k, q);
    assert(q * k == n);
    assert(q > 1) by (nonlinear_arith)
        requires
            q * k == n,
            k < n,
            k >= 2,
    ;
    assert(q < d) by (nonlinear_arith)
        requires
            q * k == n,
            d <= k,
            n < d * d,
            d > 0,
            q > 0,
    ;
    lemma_mod_multiples_basic(k, q);
    lemma_mul_is_commutative(k, q);
}

/// Deterministic primality test by trial division.
pub fn is_prime(n: i128) -> (r: bool)
    ensures
        r == is_prime_spec(n as int),
{
    if n < 2 {
        return false;
    }
    if n % 2 == 0 {
        assert(is_prime_spec(n as int) == (n == 2)) by {
            if n > 2 {
                assert((n as int) % 2 == 0);
            }
        }
        return n == 2;
    }
    let mut d: i128 = 3;
    while d <= n / d
        invariant
            3 <= d <= n,
            d % 2 == 1,
            n % 2 == 1,
            forall|k: int| 1 < k < d ==> #[trigger] ((n as int) % k) != 0,
        decreases n - d,
    {
        proof {
            lemma_div_is_ordered_by_denominator(n as int, 3, d as int);
            assert(n / 3 + 2 <= n);
        }
        if n % d == 0 {
            assert((n as int) % (d as int) == 0);
            return false;
        }
        proof {
            lemma_even_divisor_of_odd(n as int, (d + 1) as int);
        }
        d = d + 2;
        assert forall|k: int| 1 < k < d implies #[trigger] ((n as int) % k) != 0 by {
            if k == d - 1 {
                lemma_even_divisor_of_odd(n as int, k);
            }
        }
    }
    proof {
        lemma_fundamental_div_mod(n as int, d as int);
        assert(n < d * d) by (nonlinear_arith)
            requires
                n == d * (n / d) + n % d,
                n % d < d,
                n / d < d,
                d > 0,
        ;
        assert forall|k: int| 1 < k < n implies #[trigger] ((n as int) % k) != 0 by {
            if k >= d && (n as int) % k == 0 {
                lemma_cofactor_below(n as int, k, d as int);
                let q = (n as int) / k;
                assert((n as int) % q != 0);
            }
        }
    }
    true
}

} // verus!
