//! Arithmetic on the discretised torus: the integers modulo 2^64.
//!
//! Every ciphertext coefficient is a `u64` read as an element of Z / 2^64 Z.
//! The specification functions below say what each operation means over the
//! mathematical integers; the executable functions compute them with the
//! wrapping operations of `u64`.

use vstd::arithmetic::power2::pow2;
use vstd::bits::{lemma_u64_pow2_no_overflow, lemma_u64_shl_is_mul};
use vstd::prelude::*;

verus! {

/// The ciphertext modulus, 2^64.
pub open spec fn modulus() -> int {
    0x1_0000_0000_0000_0000
}

/// The representative of `x` in `[0, 2^64)`.
pub open spec fn reduce(x: int) -> u64 {
    (x % modulus()) as u64
}

/// `x + y` modulo 2^64.
pub open spec fn torus_add(x: u64, y: u64) -> u64 {
    reduce(x + y)
}

/// `x - y` modulo 2^64.
pub open spec fn torus_sub(x: u64, y: u64) -> u64 {
    reduce(x - y)
}

/// `x * y` modulo 2^64.
pub open spec fn torus_mul(x: u64, y: u64) -> u64 {
    reduce(x * y)
}

/// `-x` modulo 2^64.
pub open spec fn torus_neg(x: u64) -> u64 {
    reduce(-x)
}

/// `2^e` modulo 2^64: zero as soon as `e` reaches the width of the modulus.
pub open spec fn torus_pow2(e: nat) -> u64 {
    if e < 64 {
        pow2(e) as u64
    } else {
        0u64
    }
}

/// Modular addition.
pub fn wrapping_add(x: u64, y: u64) -> (r: u64)
    ensures
        r == torus_add(x, y),
{
    x.wrapping_add(y)
}

/// Modular subtraction.
pub fn wrapping_sub(x: u64, y: u64) -> (r: u64)
    ensures
        r == torus_sub(x, y),
{
    x.wrapping_sub(y)
}

/// Modular multiplication.
pub fn wrapping_mul(x: u64, y: u64) -> (r: u64)
    ensures
        r == torus_mul(x, y),
{
    x.wrapping_mul(y)
}

/// Modular opposite.
pub fn wrapping_neg(x: u64) -> (r: u64)
    ensures
        r == torus_neg(x),
{
    0u64.wrapping_sub(x)
}

/// The modular power of two `2^e mod 2^64`, for any exponent.
pub fn wrapping_pow2(e: usize) -> (r: u64)
    ensures
        r == torus_pow2(e as nat),
{
    if e >= 64 {
        0
    } else {
        let shift: u64 = e as u64;
        proof {
            lemma_u64_pow2_no_overflow(e as nat);
            lemma_u64_shl_is_mul(1u64, shift);
        }
        1u64 << shift
    }
}

/// Negating twice gives the element back.
pub proof fn lemma_neg_involutive(x: u64)
    ensures
        torus_neg(torus_neg(x)) == x,
{
}

} // verus!
