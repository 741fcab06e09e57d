//! Bezout, Euclid's lemma, Fermat's little theorem, and the round-trip laws of RSA and ElGamal.

use vstd::prelude::*;
use vstd::arithmetic::power::*;
use vstd::arithmetic::div_mod::*;
use vstd::arithmetic::mul::*;
use crate::primality::{is_prime_spec, odd_part, two_exponent, chain, strong_probable_prime, lemma_chain_step};
use crate::modular::mod_pow;
use crate::rsa::{gcd, lemma_gcd_is_greatest_common_divisor, lemma_gcd_symmetric, lemma_multiple_of};

verus! {

/// Bezout coefficients exist for every pair of non-negative integers.
pub proof fn lemma_bezout(a: nat, b: nat) -> (r: (int, int))
    ensures
        a * r.0 + b * r.1 == gcd(a, b),
    decreases a,
{
    if a == 0 {
        assert(gcd(0, b) == b) by {
            if b > 0 {
                assert(gcd(0, b) == gcd(b, 0));
            }
        }
        (0, 1)
    } else {
        let rem = b % a;
        let q = (b / a) as int;
        let (x1, y1) = lemma_bezout(rem, a);
        lemma_fundamental_div_mod(b as int, a as int);
        lemma_gcd_symmetric(a, b);
        lemma_gcd_symmetric(a, rem);
        assert(a * (y1 - q * x1) + b * x1 == rem * x1 + a * y1) by (nonlinear_arith)
            requires
                b == a * q + rem,
        ;
        (y1 - q * x1, x1)
    }
}

/// A prime that divides a product divides one of its factors.
pub proof fn lemma_prime_divides_product(p: int, a: int, b: int)
    requires
        is_prime_spec(p),
        a >= 0,
        b >= 0,
        (a * b) % p == 0,
    ensures
        a % p == 0 || b % p == 0,
{
    if a % p != 0 {
        let g = gcd(a as nat, p as nat) as int;
        lemma_gcd_is_greatest_common_divisor(a as nat, p as nat);
        assert(g > 0);
        assert(p % g == 0);
        lemma_mod_is_zero(p as nat, g as nat);
        if g != 1 {
            if g == p {
                assert(false);
            } else {
                assert(1 < g < p);
                assert(p % g != 0);
            }
        }
        let (x, y) = lemma_bezout(a as nat, p as nat);
        lemma_fundamental_div_mod(a * b, p);
        assert(b == p * ((a * b) / p * x + b * y)) by (nonlinear_arith)
            requires
                a * x + p * y == 1,
                a * b == p * ((a * b) / p),
        ;
        lemma_mul_is_commutative(p, (a * b) / p * x + b * y);
        lemma_mod_multiples_basic((a * b) / p * x + b * y, p);
    }
}

/// Binomial coefficient by Pascal's rule.
pub open spec fn binom(n: nat, k: nat) -> nat
    decreases n,
{
    if k == 0 {
        1
    } else if n == 0 {
        0
    } else {
        binom((n - 1) as nat, (k - 1) as nat) + binom((n - 1) as nat, k)
    }
}

proof fn lemma_binom_above(n: nat, k: nat)
    requires
        k > n,
    ensures
        binom(n, k) == 0,
    decreases n,
{
    if n > 0 {
        lemma_binom_above((n - 1) as nat, (k - 1) as nat);
        lemma_binom_above((n - 1) as nat, k);
    }
}

proof fn lemma_binom_absorb(n: nat, k: nat)
    requires
        n >= 1,
        k >= 1,
    ensures
        k * binom(n, k) == n * binom((n - 1) as nat, (k - 1) as nat),
    decreases n,
{
    reveal_with_fuel(binom, 2);
    if n == 1 {
        if k == 1 {
            assert(binom(0, 0) == 1);
            assert(binom(0, 1) == 0);
            assert(k * binom(n, k) == 1);
        } else {
            lemma_binom_above(1, k);
            lemma_binom_above(0, (k - 1) as nat);
            assert(k * binom(n, k) == 0);
        }
    } else {
        let c1 = binom((n - 1) as nat, (k - 1) as nat);
        let c2 = binom((n - 1) as nat, k);
        lemma_binom_absorb((n - 1) as nat, k);
        if k == 1 {
            assert(binom((n - 1) as nat, 0) == 1);
            assert(c1 == 1);
            assert(binom((n - 2) as nat, 0) == 1);
            assert(k * binom(n, k) == c1 + c2);
            assert(1 * c2 == (n - 1) * 1);
            assert(k * binom(n, k) == n);
            assert(n * c1 == n);
        } else {
            lemma_binom_absorb((n - 1) as nat, (k - 1) as nat);
            let d1 = binom((n - 2) as nat, (k - 2) as nat);
            let d2 = binom((n - 2) as nat, (k - 1) as nat);
            assert(c1 == d1 + d2);
            assert(k * binom(n, k) == n * c1) by (nonlinear_arith)
                requires
                    binom(n, k) == c1 + c2,
                    k * c2 == (n - 1) * d2,
                    (k - 1) * c1 == (n - 1) * d1,
                    c1 == d1 + d2,
            ;
        }
    }
}

/// A prime `p` divides `binom(p, k)` for `0 < k < p`.
proof fn lemma_prime_divides_binom(p: nat, k: nat)
    requires
        is_prime_spec(p as int),
        0 < k < p,
    ensures
        binom(p, k) % p == 0,
{
    lemma_binom_absorb(p, k);
    let c = binom((p - 1) as nat, (k - 1) as nat) as int;
    lemma_mul_is_commutative(p as int, c);
    lemma_mod_multiples_basic(c, p as int);
    lemma_prime_divides_product(p as int, k as int, binom(p, k) as int);
    lemma_small_mod(k, p);
}

/// `sum_{i < k} binom(n, i) * a^i`.
pub open spec fn binom_sum(n: nat, a: int, k: nat) -> int
    decreases k,
{
    if k == 0 {
        0
    } else {
        binom_sum(n, a, (k - 1) as nat) + binom(n, (k - 1) as nat) * pow(a, (k - 1) as nat)
    }
}

proof fn lemma_binom_sum_step(n: nat, a: int, k: nat)
    ensures
        binom_sum(n + 1, a, k + 1) == a * binom_sum(n, a, k) + binom_sum(n, a, k + 1),
    decreases k,
{
    if k == 0 {
        reveal_with_fuel(binom_sum, 2);
        assert(binom_sum(n + 1, a, 1) == binom(n + 1, 0) * pow(a, 0));
        assert(binom_sum(n, a, 1) == binom(n, 0) * pow(a, 0));
    } else {
        lemma_binom_sum_step(n, a, (k - 1) as nat);
        let t = binom(n, (k - 1) as nat) * pow(a, (k - 1) as nat);
        assert(binom(n + 1, k) == binom(n, (k - 1) as nat) + binom(n, k));
        assert(pow(a, k) == a * pow(a, (k - 1) as nat)) by {
            reveal(pow);
        }
        assert(binom(n + 1, k) * pow(a, k) == a * t + binom(n, k) * pow(a, k)) by (nonlinear_arith)
            requires
                binom(n + 1, k) == binom(n, (k - 1) as nat) + binom(n, k),
                pow(a, k) == a * pow(a, (k - 1) as nat),
                t == binom(n, (k - 1) as nat) * pow(a, (k - 1) as nat),
        ;
        assert(a * binom_sum(n, a, k) == a * binom_sum(n, a, (k - 1) as nat) + a * t) by (nonlinear_arith)
            requires
                binom_sum(n, a, k) == binom_sum(n, a, (k - 1) as nat) + t,
        ;
    }
}

/// The binomial theorem for `(a + 1)^n`.
proof fn lemma_binomial_theorem(n: nat, a: int)
    ensures
        pow(a + 1, n) == binom_sum(n, a, n + 1),
    decreases n,
{
    reveal(pow);
    if n == 0 {
        reveal_with_fuel(binom_sum, 2);
        assert(binom_sum(0, a, 1) == binom(0, 0) * pow(a, 0));
    } else {
        let m = (n - 1) as nat;
        lemma_binomial_theorem(m, a);
        lemma_binom_sum_step(m, a, n);
        lemma_binom_above(m, n);
        assert(binom_sum(m, a, n + 1) == binom_sum(m, a, n));
        assert(pow(a + 1, n) == (a + 1) * pow(a + 1, m));
        assert((a + 1) * binom_sum(m, a, n) == a * binom_sum(m, a, n) + binom_sum(m, a, n)) by (nonlinear_arith);
    }
}

proof fn lemma_binom_sum_mod_prime(p: nat, a: int, k: nat)
    requires
        is_prime_spec(p as int),
        1 <= k <= p,
    ensures
        binom_sum(p, a, k) % (p as int) == 1,
    decreases k,
{
    if k == 1 {
        reveal_with_fuel(binom_sum, 2);
        assert(binom_sum(p, a, 1) == binom(p, 0) * pow(a, 0));
        assert(pow(a, 0) == 1) by {
            reveal(pow);
        }
        lemma_small_mod(1, p);
    } else {
        let j = (k - 1) as nat;
        lemma_binom_sum_mod_prime(p, a, j);
        lemma_prime_divides_binom(p, j);
        let c = binom(p, j) as int;
        lemma_multiple_of(c, p as int);
        let t = c * pow(a, j);
        assert(t == p * ((c / p as int) * pow(a, j))) by (nonlinear_arith)
            requires
                c == p * (c / p as int),
                t == c * pow(a, j),
        ;
        assert(binom_sum(p, a, k) == binom_sum(p, a, j) + t);
        lemma_mod_multiples_vanish((c / p as int) * pow(a, j), binom_sum(p, a, j), p as int);
    }
}

/// Fermat's little theorem: `a^p == a (mod p)` for a prime `p`.
pub proof fn lemma_fermat(p: nat, a: nat)
    requires
        is_prime_spec(p as int),
    ensures
        pow(a as int, p) % (p as int) == (a as int) % (p as int),
    decreases a,
{
    if a == 0 {
        lemma_pow0_base(p);
    } else {
        let b = (a - 1) as nat;
        lemma_fermat(p, b);
        lemma_binomial_theorem(p, b as int);
        lemma_binom_sum_mod_prime(p, b as int, p);
        assert(binom_sum(p, b as int, p + 1) == binom_sum(p, b as int, p) + pow(b as int, p)) by {
            lemma_binom_diagonal(p);
            assert(binom(p, p) * pow(b as int, p) == pow(b as int, p));
        }
        lemma_add_mod_noop(binom_sum(p, b as int, p), pow(b as int, p), p as int);
        lemma_add_mod_noop(1, b as int, p as int);
        lemma_small_mod(1, p);
    }
}

proof fn lemma_pow0_base(e: nat)
    requires
        e > 0,
    ensures
        pow(0, e) == 0,
{
    lemma0_pow(e);
}

proof fn lemma_binom_diagonal(n: nat)
    ensures
        binom(n, n) == 1,
    decreases n,
{
    if n > 0 {
        lemma_binom_diagonal((n - 1) as nat);
        lemma_binom_above((n - 1) as nat, n);
    }
}

/// For a prime `p` not dividing `a`: `a^(p-1) == 1 (mod p)`.
pub proof fn lemma_fermat_unit(p: nat, a: nat)
    requires
        is_prime_spec(p as int),
        (a as int) % (p as int) != 0,
    ensures
        pow(a as int, (p - 1) as nat) % (p as int) == 1,
{
    let pi = p as int;
    let ai = a as int;
    let y = pow(ai, (p - 1) as nat);
    lemma_fermat(p, a);
    lemma_pow_adds(ai, 1, (p - 1) as nat);
    lemma_pow1(ai);
    assert(pow(ai, p) == ai * y);
    lemma_pow_positive_or_zero(ai, (p - 1) as nat);
    let x = y % pi;
    lemma_mul_mod_noop_right(ai, y, pi);
    assert((ai * x) % pi == ai % pi);
    lemma_fundamental_div_mod(ai * x, pi);
    lemma_fundamental_div_mod(ai, pi);
    if x == 0 {
        assert(ai % pi == 0);
    } else {
        let d = ai * (x - 1);
        assert(d == pi * ((ai * x) / pi - ai / pi)) by (nonlinear_arith)
            requires
                ai * x == pi * ((ai * x) / pi) + (ai * x) % pi,
                ai == pi * (ai / pi) + ai % pi,
                (ai * x) % pi == ai % pi,
                d == ai * (x - 1),
        ;
        lemma_mul_is_commutative(pi, (ai * x) / pi - ai / pi);
        lemma_mod_multiples_basic((ai * x) / pi - ai / pi, pi);
        lemma_prime_divides_product(pi, ai, x - 1);
        lemma_small_mod((x - 1) as nat, p);
    }
}

proof fn lemma_pow_positive_or_zero(b: int, e: nat)
    requires
        b >= 0,
    ensures
        pow(b, e) >= 0,
    decreases e,
{
    reveal(pow);
    if e > 0 {
        lemma_pow_positive_or_zero(b, (e - 1) as nat);
        lemma_mul_nonnegative(b, pow(b, (e - 1) as nat));
    }
}

/// A power of a value that a prime does not divide is not divisible by it.
proof fn lemma_pow_not_divisible(p: nat, a: nat, e: nat)
    requires
        is_prime_spec(p as int),
        (a as int) % (p as int) != 0,
    ensures
        pow(a as int, e) % (p as int) != 0,
    decreases e,
{
    reveal(pow);
    if e == 0 {
        lemma_small_mod(1, p);
    } else {
        lemma_pow_not_divisible(p, a, (e - 1) as nat);
        lemma_pow_positive_or_zero(a as int, (e - 1) as nat);
        if pow(a as int, e) % (p as int) == 0 {
            lemma_prime_divides_product(p as int, a as int, pow(a as int, (e - 1) as nat));
        }
    }
}

/// Raising `m` to `1 + t * (r - 1) * s` leaves it unchanged modulo a prime `r`.
proof fn lemma_fermat_exponent(r: nat, m: nat, t: nat, s: nat)
    requires
        is_prime_spec(r as int),
    ensures
        pow(m as int, (1 + t * ((r - 1) * s)) as nat) % (r as int) == (m as int) % (r as int),
{
    let ri = r as int;
    let mi = m as int;
    let k = t * ((r - 1) * s);
    lemma_mul_nonnegative(t as int, ((r - 1) * s) as int);
    lemma_pow_adds(mi, 1, k as nat);
    lemma_pow1(mi);
    let big = pow(mi, k as nat);
    assert(pow(mi, (1 + k) as nat) == mi * big);
    if mi % ri == 0 {
        lemma_mul_mod_noop_left(mi, big, ri);
        assert((mi * big) % ri == ((mi % ri) * big) % ri);
        assert((mi % ri) * big == 0);
        lemma_small_mod(0, r);
        assert((mi * big) % ri == mi % ri);
    } else {
        lemma_fermat_unit(r, m);
        lemma_mul_is_commutative(t as int, ((r - 1) * s) as int);
        lemma_mul_is_associative((r - 1) as int, s as int, t as int);
        assert(k == (r - 1) * (s * t)) by (nonlinear_arith)
            requires
                k == t * ((r - 1) * s),
        ;
        lemma_mul_nonnegative(s as int, t as int);
        lemma_pow_multiplies(mi, (r - 1) as nat, (s * t) as nat);
        lemma_pow_mod_noop(pow(mi, (r - 1) as nat), (s * t) as nat, ri);
        lemma1_pow((s * t) as nat);
        lemma_small_mod(1, r);
        assert(big % ri == 1);
        lemma_mul_mod_noop_right(mi, big, ri);
        lemma_mul_basics(mi);
        assert((mi * big) % ri == mi % ri);
    }
}

/// Two distinct primes dividing `x` divide it together.
proof fn lemma_two_primes_divide(p: int, q: int, x: int)
    requires
        is_prime_spec(p),
        is_prime_spec(q),
        p != q,
        x >= 0,
        x % p == 0,
        x % q == 0,
    ensures
        x % (p * q) == 0,
{
    lemma_fundamental_div_mod(x, p);
    let s = x / p;
    assert(s >= 0) by {
        lemma_div_pos_is_pos(x, p);
    }
    assert(p % q != 0) by {
        if q < p {
        } else {
            lemma_small_mod(p as nat, q as nat);
        }
    }
    lemma_prime_divides_product(q, p, s);
    lemma_fundamental_div_mod(s, q);
    let u = s / q;
    assert(x == (p * q) * u) by (nonlinear_arith)
        requires
            x == p * s + 0,
            s == q * u + 0,
    ;
    lemma_mul_is_commutative(p * q, u);
    lemma_mul_strictly_positive(p, q);
    lemma_mod_multiples_basic(u, p * q);
}

/// RSA decryption undoes encryption: for distinct primes `p`, `q`, a message
/// `m < p * q`, and exponents with `e * d == 1 (mod (p-1)(q-1))`,
/// `(m^e mod pq)^d mod pq == m`.
pub proof fn lemma_rsa_round_trip(p: int, q: int, e: nat, d: nat, m: nat)
    requires
        is_prime_spec(p),
        is_prime_spec(q),
        p != q,
        m < p * q,
        ((e * d) as int) % ((p - 1) * (q - 1)) == 1,
    ensures
        mod_pow(mod_pow(m as int, e, p * q), d, p * q) == m,
{
    let n = p * q;
    let phi = (p - 1) * (q - 1);
    lemma_mul_strictly_positive(p, q);
    lemma_mul_strictly_positive(p - 1, q - 1);
    lemma_pow_mod_noop(pow(m as int, e), d, n);
    lemma_pow_multiplies(m as int, e, d);
    lemma_fundamental_div_mod((e * d) as int, phi);
    let t = ((e * d) as int / phi) as nat;
    assert(t >= 0) by {
        lemma_div_pos_is_pos((e * d) as int, phi);
    }
    assert(e * d == 1 + t * ((p - 1) * (q - 1))) by (nonlinear_arith)
        requires
            (e * d) as int == phi * t + 1,
            phi == (p - 1) * (q - 1),
    ;
    lemma_fermat_exponent(p as nat, m, t, (q - 1) as nat);
    assert(t * ((q - 1) * (p - 1)) == t * ((p - 1) * (q - 1))) by (nonlinear_arith);
    lemma_fermat_exponent(q as nat, m, t, (p - 1) as nat);
    let x = pow(m as int, e * d);
    assert(x % p == (m as int) % p);
    assert(x % q == (m as int) % q);
    let y = x % n;
    lemma_mod_mod(x, p, q);
    lemma_mul_is_commutative(p, q);
    lemma_mod_mod(x, q, p);
    assert(y % p == (m as int) % p);
    assert(y % q == (m as int) % q);
    let (hi, lo) = if y >= m { (y, m as int) } else { (m as int, y) };
    let diff = hi - lo;
    lemma_fundamental_div_mod(hi, p);
    lemma_fundamental_div_mod(lo, p);
    lemma_fundamental_div_mod(hi, q);
    lemma_fundamental_div_mod(lo, q);
    assert(diff == p * (hi / p - lo / p)) by (nonlinear_arith)
        requires
            hi == p * (hi / p) + hi % p,
            lo == p * (lo / p) + lo % p,
            hi % p == lo % p,
            diff == hi - lo,
    ;
    assert(diff == q * (hi / q - lo / q)) by (nonlinear_arith)
        requires
            hi == q * (hi / q) + hi % q,
            lo == q * (lo / q) + lo % q,
            hi % q == lo % q,
            diff == hi - lo,
    ;
    lemma_mul_is_commutative(p, hi / p - lo / p);
    lemma_mod_multiples_basic(hi / p - lo / p, p);
    lemma_mul_is_commutative(q, hi / q - lo / q);
    lemma_mod_multiples_basic(hi / q - lo / q, q);
    lemma_two_primes_divide(p, q, diff);
    lemma_small_mod(diff as nat, n as nat);
}

/// ElGamal decryption undoes encryption modulo a prime `p`, whenever the
/// recipient's public key is not a multiple of `p`.
pub proof fn lemma_elgamal_round_trip(message: int, recipient_pub_key: nat, r: nat, p: int)
    requires
        is_prime_spec(p),
        0 <= message < p,
        (recipient_pub_key as int) % p != 0,
    ensures
        crate::elgamal::decryption(
            (message * crate::elgamal::shared_mask(recipient_pub_key as int, r, p)) % p,
            recipient_pub_key as int,
            r,
            p,
        ) == message,
{
    let k = crate::elgamal::shared_mask(recipient_pub_key as int, r, p);
    lemma_pow_not_divisible(p as nat, recipient_pub_key, r);
    lemma_mod_range(pow(recipient_pub_key as int, r), p);
    lemma_mod_mod_self(k, p);
    let inv = mod_pow(k, (p - 2) as nat, p);
    let c = (message * k) % p;
    lemma_mul_mod_noop_right(inv, message * k, p);
    assert(inv * (message * k) == message * (pow(k, (p - 2) as nat) % p * k)) by (nonlinear_arith)
        requires
            inv == pow(k, (p - 2) as nat) % p,
    ;
    lemma_mul_mod_noop_right(message, pow(k, (p - 2) as nat) % p * k, p);
    lemma_mul_mod_noop_left(pow(k, (p - 2) as nat), k, p);
    lemma_pow_adds(k, (p - 2) as nat, 1);
    lemma_pow1(k);
    assert(pow(k, (p - 2) as nat) * k == pow(k, (p - 1) as nat));
    lemma_small_mod(k as nat, p as nat);
    lemma_fermat_unit(p as nat, k as nat);
    lemma_mul_basics(message);
    lemma_small_mod(message as nat, p as nat);
}

proof fn lemma_mod_range(x: int, p: int)
    requires
        p > 0,
    ensures
        0 <= x % p < p,
{
}

proof fn lemma_mod_mod_self(k: int, p: int)
    requires
        p > 0,
    ensures
        0 <= k % p,
{
}

proof fn lemma_decomposition(v: nat)
    ensures
        pow(2, two_exponent(v)) * odd_part(v) == v,
    decreases v,
{
    reveal(pow);
    if v > 0 && v % 2 == 0 {
        lemma_decomposition(v / 2);
        lemma_mul_is_associative(2, pow(2, two_exponent(v / 2)), odd_part(v / 2) as int);
    }
}

/// Modulo a prime, the only square roots of 1 are 1 and -1.
proof fn lemma_square_root_of_one(p: int, x: int)
    requires
        is_prime_spec(p),
        0 <= x < p,
        (x * x) % p == 1,
    ensures
        x == 1 || x == p - 1,
{
    if x == 0 {
        lemma_small_mod(0, p as nat);
    }
    lemma_fundamental_div_mod(x * x, p);
    let q = (x * x) / p;
    assert((x - 1) * (x + 1) == p * q) by (nonlinear_arith)
        requires
            x * x == p * q + 1,
    ;
    lemma_mul_is_commutative(p, q);
    lemma_mod_multiples_basic(q, p);
    lemma_prime_divides_product(p, x - 1, x + 1);
    if (x - 1) % p == 0 {
        lemma_small_mod((x - 1) as nat, p as nat);
    } else {
        if x + 1 < p {
            lemma_small_mod((x + 1) as nat, p as nat);
        }
    }
}

proof fn lemma_find_minus_one(n: int, b: int, d: nat, k: nat)
    requires
        is_prime_spec(n),
        k >= 1,
        chain(n, b, d, k) == 1,
        chain(n, b, d, 0) != 1,
    ensures
        exists|j: nat| j < k && #[trigger] chain(n, b, d, j) == n - 1,
    decreases k,
{
    let j = (k - 1) as nat;
    if chain(n, b, d, j) == 1 {
        lemma_find_minus_one(n, b, d, j);
    } else {
        lemma_chain_step(n, b, d, j);
        let x = chain(n, b, d, j);
        lemma_mod_range(pow(b, (pow(2, j) * d) as nat), n);
        lemma_square_root_of_one(n, x);
        assert(chain(n, b, d, j) == n - 1);
    }
}

/// Every base in `[1, n)` passes the strong probable-prime test for an odd
/// prime `n`: a Miller-Rabin round never rejects a prime.
pub proof fn lemma_prime_passes_strong_test(n: int, b: int)
    requires
        is_prime_spec(n),
        n % 2 == 1,
        1 <= b < n,
    ensures
        strong_probable_prime(n, b),
{
    let v = (n - 1) as nat;
    let d = odd_part(v);
    let s = two_exponent(v);
    lemma_decomposition(v);
    assert(s >= 1) by {
        reveal_with_fuel(two_exponent, 2);
    }
    lemma_small_mod(b as nat, n as nat);
    lemma_fermat_unit(n as nat, b as nat);
    assert(chain(n, b, d, s) == 1);
    assert(pow(2, 0) == 1) by {
        reveal(pow);
    }
    assert(chain(n, b, d, 0) == mod_pow(b, d, n));
    if mod_pow(b, d, n) != 1 {
        lemma_find_minus_one(n, b, d, s);
    }
}

/// `a^(p-2) mod p` is the inverse of `a` modulo a prime `p` not dividing `a`.
pub proof fn lemma_fermat_inverse(a: int, p: int)
    requires
        is_prime_spec(p),
        a % p != 0,
    ensures
        (a * mod_pow(a, (p - 2) as nat, p)) % p == 1,
{
    let c = a % p;
    let e = (p - 2) as nat;
    lemma_pow_mod_noop(a, e, p);
    lemma_mul_mod_noop_right(a, pow(c, e), p);
    lemma_mul_mod_noop_right(a, pow(a, e), p);
    lemma_mul_mod_noop_left(a, pow(c, e), p);
    lemma_pow_adds(c, 1, e);
    lemma_pow1(c);
    lemma_small_mod(c as nat, p as nat);
    lemma_fermat_unit(p as nat, c as nat);
}

} // verus!
