//! The payload functions that fill the bootstrap's lookup table.
//!
//! A payload maps the index of a box of the table to the torus element that
//! the bootstrap returns for inputs that fall into that box. The set of
//! payloads is closed: each is a variant of [`LutKind`] together with the
//! radix parameter `b`. Both payloads are threshold functions over the
//! `2^b` digit values: negative below the midpoint `2^b / 2`, positive from
//! the midpoint on. The table of a bootstrap stores the boxes below the
//! midpoint; the boxes from the midpoint on are reached by rotating past
//! the end of the table, which negates its entries.

use crate::torus::{torus_neg, torus_pow2, wrapping_neg, wrapping_pow2};
use vstd::arithmetic::power2::{lemma2_to64_rest, lemma_pow2_strictly_increases, pow2};
use vstd::bits::lemma_u64_pow2_no_overflow;
use vstd::prelude::*;

verus! {

/// The supported payloads.
#[derive(Copy, Clone, Debug, PartialEq, Eq, Structural)]
pub enum LutKind {
    /// The carry extractor: a quarter of a digit step, `2^(62 - b)`,
    /// negative below the midpoint and positive from the midpoint on.
    F1,
    /// The fine carry extractor: an eighth of a digit step, `2^(61 - b)`,
    /// negative below the midpoint and positive from the midpoint on.
    F3,
}

/// A payload with its radix parameter fixed.
#[derive(Copy, Clone, Debug)]
pub struct LutFn {
    pub kind: LutKind,
    pub b: usize,
}

impl LutFn {
    /// The bit position of the payload's magnitude: `62 - b` for the carry
    /// extractor and `61 - b` for the fine one.
    pub open spec fn magnitude_log(&self) -> int {
        match self.kind {
            LutKind::F1 => 62 - self.b,
            LutKind::F3 => 61 - self.b,
        }
    }

    /// Whether the payload can be evaluated: its magnitude is a power of
    /// two of the torus.
    pub open spec fn callable(&self) -> bool {
        self.magnitude_log() >= 0
    }

    /// Whether the box index `x` lies below the midpoint `2^b / 2` of the
    /// `2^b` digit values.
    pub open spec fn below_midpoint(&self, x: u64) -> bool {
        2 * x < pow2(self.b as nat)
    }

    /// The value of the payload at the box index `x`.
    pub open spec fn eval(&self, x: u64) -> u64 {
        if self.below_midpoint(x) {
            torus_neg(torus_pow2(self.magnitude_log() as nat))
        } else {
            torus_pow2(self.magnitude_log() as nat)
        }
    }

    /// The payload of the given kind for the radix `2^b`.
    pub fn new(kind: LutKind, b: usize) -> (f: LutFn)
        ensures
            f.kind == kind,
            f.b == b,
    {
        LutFn { kind, b }
    }

    /// Evaluates the payload at the box index `x`.
    pub fn call(&self, x: u64) -> (y: u64)
        requires
            self.callable(),
        ensures
            y == self.eval(x),
    {
        let magnitude = match self.kind {
            LutKind::F1 => wrapping_pow2(62 - self.b),
            LutKind::F3 => wrapping_pow2(61 - self.b),
        };
        proof {
            lemma_u64_pow2_no_overflow(self.b as nat);
        }
        let below = match x.checked_mul(2) {
            Some(twice) => twice < wrapping_pow2(self.b),
            None => {
                proof {
                    lemma2_to64_rest();
                    if self.b < 63 {
                        lemma_pow2_strictly_increases(self.b as nat, 64);
                    }
                }
                false
            },
        };
        if below {
            wrapping_neg(magnitude)
        } else {
            magnitude
        }
    }
}

/// For a radix of at least two the midpoint is the box index `2^(b - 1)`.
pub proof fn lemma_midpoint(f: LutFn, x: u64)
    requires
        f.b >= 1,
    ensures
        f.below_midpoint(x) <==> x < pow2((f.b - 1) as nat),
{
    vstd::arithmetic::power2::lemma_pow2_unfold(f.b as nat);
}

/// The carry extractor for the radix `2^b`.
pub fn make_f1_with_b(b: usize) -> (f: LutFn)
    ensures
        f.kind == LutKind::F1,
        f.b == b,
{
    LutFn::new(LutKind::F1, b)
}

/// The fine carry extractor for the radix `2^b`.
pub fn make_f3_with_b(b: usize) -> (f: LutFn)
    ensures
        f.kind == LutKind::F3,
        f.b == b,
{
    LutFn::new(LutKind::F3, b)
}

} // verus!
