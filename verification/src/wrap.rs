//! Two's-complement reduction of mathematical integers to 64 bits.
//!
//! The engine accumulates interval ends in signed 64-bit registers and does
//! not guard them: a sum that leaves the range wraps around.  Contracts speak
//! of the exact integer sum and of its reduction `wrap64`, so they hold of
//! every input, and coincide with plain arithmetic whenever the sum fits.

use vstd::prelude::*;
use vstd::arithmetic::div_mod::{lemma_add_mod_noop, lemma_fundamental_div_mod_converse, lemma_small_mod};

verus! {

/// The number of values of a 64-bit register.
pub open spec fn modulus() -> int {
    0x1_0000_0000_0000_0000
}

/// The signed 64-bit value that is congruent to `x` modulo 2^64.
pub open spec fn wrap64(x: int) -> i64 {
    let r = x % modulus();
    if r > i64::MAX {
        (r - modulus()) as i64
    } else {
        r as i64
    }
}

/// `1` when `x` is not negative, else `0`.
pub open spec fn indicator(x: int) -> i64 {
    if x >= 0 {
        1
    } else {
        0
    }
}

/// A value that fits in 64 bits is left as it is.
pub proof fn lemma_wrap64_fits(x: int)
    requires
        i64::MIN <= x <= i64::MAX,
    ensures
        wrap64(x) == x,
{
    if x >= 0 {
        lemma_small_mod(x as nat, modulus() as nat);
    } else {
        lemma_fundamental_div_mod_converse(x, modulus(), -1, x + modulus());
    }
}

/// Reduction does not change the residue.
pub proof fn lemma_wrap64_congruent(x: int)
    ensures
        (wrap64(x) as int) % modulus() == x % modulus(),
{
    let r = x % modulus();
    if r > i64::MAX {
        lemma_fundamental_div_mod_converse(r - modulus(), modulus(), -1, r);
    } else {
        lemma_small_mod(r as nat, modulus() as nat);
    }
}

/// Two integers with the same residue reduce to the same register value.
pub proof fn lemma_wrap64_same_residue(x: int, y: int)
    requires
        x % modulus() == y % modulus(),
    ensures
        wrap64(x) == wrap64(y),
{
}

/// Reducing the operands of a sum first does not change the reduced sum.
pub proof fn lemma_wrap64_add(x: int, y: int)
    ensures
        wrap64(wrap64(x) + wrap64(y)) == wrap64(x + y),
        wrap64(wrap64(x) + y) == wrap64(x + y),
        wrap64(x + wrap64(y)) == wrap64(x + y),
{
    let m = modulus();
    lemma_wrap64_congruent(x);
    lemma_wrap64_congruent(y);
    lemma_add_mod_noop(x, y, m);
    lemma_add_mod_noop(wrap64(x) as int, wrap64(y) as int, m);
    lemma_add_mod_noop(wrap64(x) as int, y, m);
    lemma_add_mod_noop(x, wrap64(y) as int, m);
    lemma_wrap64_same_residue(wrap64(x) + wrap64(y), x + y);
    lemma_wrap64_same_residue(wrap64(x) + y, x + y);
    lemma_wrap64_same_residue(x + wrap64(y), x + y);
}

/// Addition in a 64-bit register: the reduced integer sum.
pub fn add64(a: i64, b: i64) -> (r: i64)
    ensures
        r == wrap64(a + b),
{
    let r: i64 = a.wrapping_add(b);
    proof {
        let s = a + b;
        if s > i64::MAX {
            lemma_fundamental_div_mod_converse(s, modulus(), 0, s);
        } else if s < i64::MIN {
            lemma_fundamental_div_mod_converse(s, modulus(), -1, s + modulus());
        } else {
            lemma_wrap64_fits(s);
        }
    }
    r
}

/// Multiplication in a 64-bit register: the reduced integer product.
pub fn mul64(a: i64, b: i64) -> (r: i64)
    ensures
        r == wrap64(a * b),
{
    a.wrapping_mul(b)
}

/// Negation in a 64-bit register: the reduced integer negation.
pub fn neg64(a: i64) -> (r: i64)
    ensures
        r == wrap64(-a),
{
    let r: i64 = 0i64.wrapping_sub(a);
    proof {
        let s = -a;
        if s > i64::MAX {
            lemma_fundamental_div_mod_converse(s, modulus(), 0, s);
        } else {
            lemma_wrap64_fits(s);
        }
    }
    r
}

} // verus!
