//! Arithmetic on residues modulo a runtime modulus.
//!
//! A field element is a `u64` below the modulus. Every operation states its result as the
//! remainder of the corresponding integer expression.

use vstd::arithmetic::div_mod::*;
use vstd::arithmetic::mul::*;
use vstd::arithmetic::power::*;
use vstd::prelude::*;

verus! {

/// The canonical residue of `value` modulo `modulus`.
pub open spec fn residue(value: u64, modulus: int) -> u64 {
    (value as int % modulus) as u64
}

/// A residue is the remainder, below the modulus and no larger than the value.
pub proof fn lemma_residue(value: u64, modulus: int)
    requires
        modulus > 0,
    ensures
        residue(value, modulus) == value as int % modulus,
        0 <= residue(value, modulus) < modulus,
        residue(value, modulus) <= value,
{
    lemma_mod_bound(value as int, modulus);
    lemma_mod_decreases(value as nat, modulus as nat);
}

/// The canonical residue of `value` modulo `modulus`.
pub fn reduce(value: u64, modulus: u64) -> (r: u64)
    requires
        modulus > 0,
    ensures
        r == residue(value, modulus as int),
        r < modulus,
{
    proof {
        lemma_residue(value, modulus as int);
    }
    value % modulus
}

/// Sum of two residues.
pub fn add_mod(a: u64, b: u64, modulus: u64) -> (r: u64)
    requires
        modulus > 0,
    ensures
        r == (a + b) % (modulus as int),
        r < modulus,
{
    let wide: u128 = a as u128 + b as u128;
    let r: u128 = wide % (modulus as u128);
    r as u64
}

/// Product of two residues.
pub fn mul_mod(a: u64, b: u64, modulus: u64) -> (r: u64)
    requires
        modulus > 0,
    ensures
        r == (a * b) % (modulus as int),
        r < modulus,
{
    assert(a * b <= 0xffff_ffff_ffff_ffff * 0xffff_ffff_ffff_ffff) by (nonlinear_arith)
        requires
            0 <= a <= 0xffff_ffff_ffff_ffff,
            0 <= b <= 0xffff_ffff_ffff_ffff,
    ;
    let wide: u128 = (a as u128) * (b as u128);
    let r: u128 = wide % (modulus as u128);
    r as u64
}

/// `base` raised to `exp`, by repeated squaring.
pub fn pow_mod(base: u64, exp: usize, modulus: u64) -> (r: u64)
    requires
        modulus > 0,
    ensures
        r == pow(base as int, exp as nat) % (modulus as int),
        r < modulus,
{
    let ghost m = modulus as int;
    let mut result: u64 = 1 % modulus;
    let mut b: u64 = base % modulus;
    let mut e: usize = exp;
    proof {
        lemma_pow_mod_noop(base as int, exp as nat, m);
        lemma_mul_mod_noop_left(1, pow(b as int, e as nat), m);
    }
    while e > 0
        invariant
            modulus > 0,
            m == modulus as int,
            result < modulus,
            b < modulus,
            (result * pow(b as int, e as nat)) % m == pow(base as int, exp as nat) % m,
        decreases e,
    {
        let ghost old_result = result as int;
        let ghost old_b = b as int;
        let ghost old_e = e as nat;
        if e % 2 == 1 {
            result = mul_mod(result, b, modulus);
        }
        b = mul_mod(b, b, modulus);
        e = e / 2;
        proof {
            let half = e as nat;
            let square = old_b * old_b;
            // pow(old_b, 2 * half) == pow(square, half)
            lemma_pow_multiplies(old_b, 2, half);
            lemma_square_is_pow2(old_b);
            assert(pow(old_b, 2) == square) by {
                reveal_with_fuel(pow, 3);
            }
            assert(pow(old_b, 2 * half) == pow(square, half));
            // replacing the base by its residue changes nothing modulo m
            lemma_pow_mod_noop(square, half, m);
            assert(pow(b as int, half) % m == pow(square, half) % m);
            if old_e % 2 == 1 {
                assert(old_e == 2 * half + 1);
                lemma_pow_adds(old_b, 1, 2 * half);
                lemma_pow1(old_b);
                assert(pow(old_b, old_e) == old_b * pow(square, half));
                assert(old_result * pow(old_b, old_e) == (old_result * old_b) * pow(square, half))
                    by (nonlinear_arith)
                    requires
                        pow(old_b, old_e) == old_b * pow(square, half),
                ;
                lemma_mul_mod_noop_general(old_result * old_b, pow(square, half), m);
                lemma_mul_mod_noop_general(result as int, pow(b as int, half), m);
            } else {
                assert(old_e == 2 * half);
                lemma_mul_mod_noop_general(old_result, pow(square, half), m);
                lemma_mul_mod_noop_general(result as int, pow(b as int, half), m);
            }
        }
    }
    proof {
        lemma_pow0(b as int);
        lemma_small_mod(result as nat, modulus as nat);
    }
    result
}

} // verus!
