//! Modular exponentiation over `i128` residues.

use vstd::prelude::*;
use vstd::arithmetic::power::*;
use vstd::arithmetic::div_mod::*;
use vstd::arithmetic::mul::*;
use crate::CryptoError;

verus! {

/// The largest modulus the arithmetic accepts: the square of any residue
/// below it fits in an `i128`.
pub const MAX_MODULUS: i128 = 0x7fff_ffff_ffff_ffff;

/// `x` raised to the power `e`, reduced modulo `n` (in `[0, n)`).
pub open spec fn mod_pow(x: int, e: nat, n: int) -> int {
    pow(x, e) % n
}

proof fn lemma_square_step(x: int, e: nat, n: int)
    requires
        n > 0,
        e % 2 == 0,
    ensures
        pow((x * x) % n, e / 2) % n == pow(x, e) % n,
{
    lemma_pow_mod_noop(x * x, e / 2, n);
    lemma_pow_multiplies(x, 2, e / 2);
    lemma_pow2_square(x);
    assert(2 * (e / 2) == e);
}

proof fn lemma_pow2_square(x: int)
    ensures
        pow(x, 2) == x * x,
{
    reveal_with_fuel(pow, 3);
}

proof fn lemma_odd_step(x: int, y: int, e: nat, n: int)
    requires
        n > 0,
        e > 0,
    ensures
        (((x * y) % n) * pow(x, (e - 1) as nat)) % n == (y * pow(x, e)) % n,
{
    lemma_mul_mod_noop_left(x * y, pow(x, (e - 1) as nat), n);
    lemma_pow_positive_unfold(x, e);
    lemma_mul_is_associative(y, x, pow(x, (e - 1) as nat));
    lemma_mul_is_commutative(x, y);
}

proof fn lemma_pow_positive_unfold(x: int, e: nat)
    requires
        e > 0,
    ensures
        pow(x, e) == x * pow(x, (e - 1) as nat),
{
    reveal(pow);
}

/// The product of two residues modulo an admissible modulus fits in an `i128`.
pub proof fn lemma_residue_product_fits(a: int, b: int, n: int)
    requires
        0 <= a < n,
        0 <= b < n,
        n <= MAX_MODULUS,
    ensures
        0 <= a * b < n * n,
        n * n <= MAX_MODULUS * MAX_MODULUS,
        MAX_MODULUS * MAX_MODULUS < i128::MAX,
{
    assert(0 <= a * b < n * n) by (nonlinear_arith)
        requires
            0 <= a < n,
            0 <= b < n,
    ;
    assert(n * n <= MAX_MODULUS * MAX_MODULUS) by (nonlinear_arith)
        requires
            0 <= n <= MAX_MODULUS,
    ;
}

/// The Euclidean remainder of `x` modulo `n`, in `[0, n)` for every sign of `x`.
pub fn reduce_mod(x: i128, n: i128) -> (r: i128)
    requires
        0 < n,
    ensures
        r == (x as int) % (n as int),
        0 <= r < n,
{
    if x >= 0 {
        return x % n;
    }
    let shifted = x + n;
    proof {
        lemma_mod_add_multiples_vanish(x as int, n as int);
    }
    if shifted >= 0 {
        return shifted % n;
    }
    let t = (-shifted) % n;
    proof {
        let y = -shifted;
        lemma_fundamental_div_mod(y as int, n as int);
        let k = (y as int) / (n as int);
        assert(-k * n == -(n * k)) by (nonlinear_arith);
        assert((-k - 1) * n == -(n * k) - n) by (nonlinear_arith);
        if t == 0 {
            lemma_fundamental_div_mod_converse(shifted as int, n as int, -(y / (n as int)), 0);
        } else {
            lemma_fundamental_div_mod_converse(shifted as int, n as int, -(y / (n as int)) - 1, n - t);
        }
    }
    if t == 0 { 0 } else { n - t }
}

/// `x^e mod n` for a valid modulus `0 < n <= MAX_MODULUS` and exponent
/// `e >= 0`; any other modulus or exponent is rejected.
pub fn fast_exponentiation(x: i128, e: i128, n: i128) -> (r: Result<i128, CryptoError>)
    ensures
        r is Err <==> (n <= 0 || n > MAX_MODULUS || e < 0),
        r matches Err(err) ==> err == CryptoError::InvalidInput,
        r matches Ok(v) ==> v == mod_pow(x as int, e as nat, n as int),
{
    if n <= 0 || n > MAX_MODULUS || e < 0 {
        return Err(CryptoError::InvalidInput);
    }
    Ok(pow_mod(x, e, n))
}

/// Square-and-multiply modular exponentiation: `x^e mod n`, each square and
/// product reduced modulo `n`.
pub fn pow_mod(x: i128, e: i128, n: i128) -> (r: i128)
    requires
        0 <= e,
        0 < n <= MAX_MODULUS,
    ensures
        r == mod_pow(x as int, e as nat, n as int),
        0 <= r < n,
{
    let mut base: i128 = reduce_mod(x, n);
    let mut exp: i128 = e;
    let mut acc: i128 = 1 % n;
    proof {
        lemma_pow_mod_noop(x as int, e as nat, n as int);
        lemma_mul_basics(pow(base as int, e as nat));
        lemma_mul_mod_noop_left(1, pow(base as int, e as nat), n as int);
    }
    while exp > 0
        invariant
            0 <= base < n,
            0 <= acc < n,
            0 <= exp,
            0 < n <= MAX_MODULUS,
            (acc * pow(base as int, exp as nat)) % (n as int) == mod_pow(x as int, e as nat, n as int),
        decreases exp,
    {
        if exp % 2 == 0 {
            proof {
                lemma_square_step(base as int, exp as nat, n as int);
                lemma_mul_mod_noop_right(acc as int, pow(base as int, exp as nat), n as int);
                lemma_mul_mod_noop_right(acc as int, pow((base as int * base as int) % (n as int), (exp / 2) as nat), n as int);
                lemma_residue_product_fits(base as int, base as int, n as int);
            }
            exp = exp / 2;
            base = (base * base) % n;
        } else {
            proof {
                lemma_odd_step(base as int, acc as int, exp as nat, n as int);
                lemma_residue_product_fits(base as int, acc as int, n as int);
                lemma_mul_is_commutative(base as int, acc as int);
            }
            exp = exp - 1;
            acc = (base * acc) % n;
        }
    }
    proof {
        lemma_mul_basics(acc as int);
        reveal(pow);
        lemma_small_mod(acc as nat, n as nat);
    }
    acc
}

} // verus!
